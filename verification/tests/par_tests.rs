use hexhamming::api::Scan;
use hexhamming::par::{plan, plan_items, RECORD_ALIGN};

#[test]
fn plans_cover_every_record_exactly_once() {
    for records in [32usize, 33, 1000, 4096, 100_003, 1 << 20] {
        for width in [1usize, 8, 16, 20, 64] {
            let Some(plan) = plan(records, width, 0, 8) else {
                continue;
            };
            let mut next = 0;
            for chunk in 0..plan.chunks {
                let (start, end) = plan.range(chunk, records);
                assert_eq!(start, next);
                assert!(end > start, "empty chunk {chunk} of {plan:?}");
                next = end;
            }
            assert_eq!(next, records);
            assert_eq!(plan.records_per_chunk % RECORD_ALIGN, 0);
        }
    }
    assert_eq!(plan(1 << 20, 16, usize::MAX, 8), None);
}

#[test]
fn item_plans_cover_every_item_exactly_once() {
    let threads = 8;
    for items in [2usize, 3, 17, 64, 1000] {
        let plan = plan_items(items, 1 << 20, 0, threads).unwrap();
        let covered: usize = (0..plan.chunks)
            .map(|c| {
                let (s, e) = plan.range(c, items);
                e - s
            })
            .sum();
        assert_eq!(covered, items);
    }
    assert_eq!(plan_items(1, 1 << 30, 0, threads), None);
}

#[test]
fn single_thread_never_splits() {
    assert_eq!(plan(1 << 20, 16, 0, 1), None);
    assert_eq!(plan_items(1000, 1 << 20, 0, 1), None);
}

fn scan_records(width: usize, count: usize, seed: u64) -> Vec<u8> {
    let mut state = seed;
    (0..width * count)
        .map(|_| {
            state = state.wrapping_mul(6364136223846793005).wrapping_add(1442695040888963407);
            // Mostly zero bits, so that some records fall within small thresholds.
            ((state >> 33) as u8) & ((state >> 41) as u8) & ((state >> 49) as u8)
        })
        .collect()
}

#[test]
fn chunk_scans_combine_to_the_serial_scan() {
    for width in [3usize, 8, 16, 32] {
        for count in [1usize, 17, 200, 1000] {
            let records = scan_records(width, count, (width * 31 + count) as u64);
            let query = vec![0u8; width];
            for max_dist in [-1i64, 0, 2, 5, 1000] {
                let scan = Scan::new(&query, max_dist);
                let Some(p) = plan(count, width, 0, 4) else {
                    continue;
                };
                let firsts: Vec<_> = (0..p.chunks).map(|c| scan.first_in_chunk(&records, p, c)).collect();
                let bests: Vec<_> = (0..p.chunks).map(|c| scan.best_in_chunk(&records, p, c)).collect();
                let alls: Vec<_> = (0..p.chunks).map(|c| scan.all_in_chunk(&records, p, c)).collect();
                assert_eq!(scan.first_of_chunks(&records, p, &firsts), scan.first(&records));
                assert_eq!(scan.best_of_chunks(&records, p, &bests), scan.best(&records));
                assert_eq!(scan.all_of_chunks(&records, p, &alls), scan.all(&records));
            }
        }
    }
}

#[test]
fn chunk_scan_reports_indices_of_the_whole_catalog() {
    let width = 4;
    let count = 64;
    let mut records = vec![0xFFu8; width * count];
    records[50 * width..51 * width].fill(0);
    let query = vec![0u8; width];
    let scan = Scan::new(&query, 0);
    let p = plan(count, width, 0, 4).unwrap();
    let owner = (0..p.chunks).find(|&c| {
        let (s, e) = p.range(c, count);
        s <= 50 && 50 < e
    });
    let owner = owner.unwrap();
    assert_eq!(scan.first_in_chunk(&records, p, owner), Some(50));
    assert_eq!(scan.best_in_chunk(&records, p, owner), Some((0, 50)));
    assert_eq!(scan.all_in_chunk(&records, p, owner), vec![(0, 50)]);
}
