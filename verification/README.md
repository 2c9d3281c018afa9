# hexhamming

Bitwise Hamming distances between hexadecimal strings and byte arrays,
scans of fixed-width record catalogs (first, closest and every match within a
threshold), a multi-index for catalogs, and Python bindings.

The library in `src/` is written in Verus: every function states what it
returns in `requires` / `ensures` and is proved against it.

- `distance`, `popcount`, `kernels`: byte distances, with a word-at-a-time
  popcount and the processor's `count_ones`.
- `hex`, `packed`: hex-string distances, four characters per step and
  sixteen characters packed into one word per step, with and without a
  cutoff.
- `records`, `scan`, `block`, `api`, `par`: catalog scans, the block scanner
  for common widths, and the chunk plans that split large scans; a scan split
  into chunks returns what the serial scan returns.
- `bits`, `mih`, `catalog`: the multi-index (substring tables, neighbour
  enumeration, the cost model that decides between index and scan) and the
  catalog that uses it.
- `batch`, `checks`, `legacy`, `algo`: batch and packed APIs, the checks the
  Python functions make, the first-generation interface and backend choice.
- `laws`: properties that relate functions to each other.

`app/` holds the Python modules (`hexhamming`, `hexhamming_rs`) built with
PyO3, processor detection and the threads that run the chunks of a large scan.
