//! Choice of the distance backend.

use vstd::prelude::*;
use vstd::string::StringSliceAdditionalSpecFns;
use vstd::utf8::is_ascii_chars;

verus! {

/// A distance backend. All of them compute the same results; they differ in
/// speed.
#[derive(Clone, Copy, Debug, PartialEq, Eq, Structural)]
pub enum Algorithm {
    Classic,
    Native,
    Sse41,
    Avx2,
    Avx512,
    Neon,
}

/// Processor family the library runs on.
#[derive(Clone, Copy, Debug, PartialEq, Eq, Structural)]
pub enum Arch {
    X86_64,
    Aarch64,
    Other,
}

/// Processor features that decide which backends may be chosen.
#[derive(Clone, Copy, Debug, PartialEq, Eq, Structural)]
pub struct CpuFeatures {
    pub arch: Arch,
    pub sse41: bool,
    pub avx2: bool,
    pub avx512bw: bool,
    pub avx512bitalg: bool,
    pub avx512f: bool,
    pub avx512vpopcntdq: bool,
    pub popcnt: bool,
}

/// ASCII lower case of a byte; other bytes are unchanged.
pub open spec fn ascii_lower(c: u8) -> u8 {
    if 65 <= c <= 90 {
        (c + 32) as u8
    } else {
        c
    }
}

/// `name` equals `target` (given in lower case) regardless of ASCII case.
pub open spec fn name_is(name: Seq<u8>, target: &str) -> bool {
    name.len() == target.spec_bytes().len() && forall|i: int|
        0 <= i < name.len() ==> ascii_lower(#[trigger] name[i]) == target.spec_bytes()[i]
}

fn to_ascii_lower(c: u8) -> (r: u8)
    ensures
        r == ascii_lower(c),
{
    if 65 <= c && c <= 90 {
        c + 32
    } else {
        c
    }
}

/// Compares `name` with the lower-case ASCII `target`, ignoring ASCII case.
fn name_equals(name: &[u8], target: &str) -> (r: bool)
    ensures
        r == name_is(name@, target),
{
    let t = target.as_bytes();
    if name.len() != t.len() {
        return false;
    }
    let mut i: usize = 0;
    while i < name.len()
        invariant
            i <= name.len(),
            name.len() == t.len(),
            t@ == target.spec_bytes(),
            forall|j: int| 0 <= j < i ==> ascii_lower(#[trigger] name@[j]) == t@[j],
        decreases name.len() - i,
    {
        if to_ascii_lower(name[i]) != t[i] {
            return false;
        }
        i = i + 1;
    }
    true
}

/// Length and first byte of a backend name.
proof fn lemma_name_literal(lit: &str, len: nat, first: u8)
    requires
        lit@.len() == len,
        len > 0,
        lit@[0] == first as char,
        is_ascii_chars(lit@),
    ensures
        lit.spec_bytes().len() == len,
        lit.spec_bytes()[0] == first,
{
    vstd::string::is_ascii_spec_bytes(lit);
}

/// A name that matches `t1` cannot match `t2` when the two differ in length
/// or in their first byte.
proof fn lemma_names_apart(name: Seq<u8>, t1: &str, t2: &str)
    requires
        t1.spec_bytes().len() > 0,
        t2.spec_bytes().len() > 0,
        t1.spec_bytes().len() != t2.spec_bytes().len() || t1.spec_bytes()[0] != t2.spec_bytes()[0],
    ensures
        !(name_is(name, t1) && name_is(name, t2)),
{
    if name_is(name, t1) && name_is(name, t2) {
        assert(ascii_lower(name[0]) == t1.spec_bytes()[0]);
    }
}

pub open spec fn spec_select_algorithm(name: Seq<u8>, cpu: CpuFeatures) -> Result<
    Algorithm,
    &'static str,
> {
    if name_is(name, "avx512") || name_is(name, "avx-512") {
        if cpu.arch == Arch::X86_64 {
            if cpu.avx512bw && cpu.avx512bitalg {
                Ok(Algorithm::Avx512)
            } else {
                Err("CPU doesn't support AVX-512 BITALG")
            }
        } else {
            Err("AVX-512 not available on this architecture")
        }
    } else if name_is(name, "extra") || name_is(name, "avx") || name_is(name, "avx2") {
        if cpu.arch == Arch::X86_64 {
            if cpu.avx2 {
                Ok(Algorithm::Avx2)
            } else {
                Err("CPU doesn't support AVX2")
            }
        } else if cpu.arch == Arch::Aarch64 {
            Ok(Algorithm::Neon)
        } else {
            Err("not available on this architecture")
        }
    } else if name_is(name, "sse41") || name_is(name, "sse") {
        if cpu.arch == Arch::X86_64 {
            if cpu.sse41 {
                Ok(Algorithm::Sse41)
            } else {
                Err("CPU doesn't support SSE4.1")
            }
        } else {
            Err("SSE not available on this architecture")
        }
    } else if name_is(name, "neon") {
        if cpu.arch == Arch::Aarch64 {
            Ok(Algorithm::Neon)
        } else {
            Err("NEON not available on this architecture")
        }
    } else if name_is(name, "native") || name_is(name, "popcount") {
        Ok(Algorithm::Native)
    } else if name_is(name, "classic") {
        Ok(Algorithm::Classic)
    } else {
        Err("unknown algorithm")
    }
}

/// Each backend name, in any ASCII case, selects its own backend and is
/// checked against the processor features that backend needs: the AVX-512
/// backend needs AVX-512 BW and BITALG on x86-64, the AVX2 one AVX2 on
/// x86-64 (on AArch64 it falls back to NEON), the SSE4.1 one SSE4.1 on
/// x86-64, and the NEON one AArch64; the portable ones are always available,
/// and any other name is unknown.
pub proof fn law_backend_by_name(name: Seq<u8>, cpu: CpuFeatures)
    ensures
        (name_is(name, "avx512") || name_is(name, "avx-512")) && cpu.arch == Arch::X86_64 ==> (
        spec_select_algorithm(name, cpu) is Ok <==> cpu.avx512bw && cpu.avx512bitalg),
        (name_is(name, "avx512") || name_is(name, "avx-512")) && cpu.arch == Arch::X86_64
            && cpu.avx512bw && cpu.avx512bitalg ==> spec_select_algorithm(name, cpu) == Ok::<
            Algorithm,
            &'static str,
        >(Algorithm::Avx512),
        (name_is(name, "avx512") || name_is(name, "avx-512")) && cpu.arch == Arch::X86_64 && !(
        cpu.avx512bw && cpu.avx512bitalg) ==> spec_select_algorithm(name, cpu) == Err::<
            Algorithm,
            &'static str,
        >("CPU doesn't support AVX-512 BITALG"),
        (name_is(name, "avx512") || name_is(name, "avx-512")) && cpu.arch != Arch::X86_64
            ==> spec_select_algorithm(name, cpu) == Err::<Algorithm, &'static str>(
            "AVX-512 not available on this architecture",
        ),
        (name_is(name, "avx2") || name_is(name, "avx") || name_is(name, "extra")) && cpu.arch
            == Arch::X86_64 && cpu.avx2 ==> spec_select_algorithm(name, cpu) == Ok::<
            Algorithm,
            &'static str,
        >(Algorithm::Avx2),
        (name_is(name, "avx2") || name_is(name, "avx") || name_is(name, "extra")) && cpu.arch
            == Arch::X86_64 && !cpu.avx2 ==> spec_select_algorithm(name, cpu) == Err::<
            Algorithm,
            &'static str,
        >("CPU doesn't support AVX2"),
        (name_is(name, "avx2") || name_is(name, "avx") || name_is(name, "extra")) && cpu.arch
            == Arch::Aarch64 ==> spec_select_algorithm(name, cpu) == Ok::<Algorithm, &'static str>(
            Algorithm::Neon,
        ),
        (name_is(name, "avx2") || name_is(name, "avx") || name_is(name, "extra")) && cpu.arch
            == Arch::Other ==> spec_select_algorithm(name, cpu) == Err::<Algorithm, &'static str>(
            "not available on this architecture",
        ),
        (name_is(name, "sse41") || name_is(name, "sse")) && cpu.arch == Arch::X86_64 ==> (
        spec_select_algorithm(name, cpu) is Ok <==> cpu.sse41),
        (name_is(name, "sse41") || name_is(name, "sse")) && cpu.arch == Arch::X86_64 && cpu.sse41
            ==> spec_select_algorithm(name, cpu) == Ok::<Algorithm, &'static str>(
            Algorithm::Sse41,
        ),
        (name_is(name, "sse41") || name_is(name, "sse")) && cpu.arch == Arch::X86_64 && !cpu.sse41
            ==> spec_select_algorithm(name, cpu) == Err::<Algorithm, &'static str>(
            "CPU doesn't support SSE4.1",
        ),
        (name_is(name, "sse41") || name_is(name, "sse")) && cpu.arch != Arch::X86_64
            ==> spec_select_algorithm(name, cpu) == Err::<Algorithm, &'static str>(
            "SSE not available on this architecture",
        ),
        name_is(name, "neon") && cpu.arch == Arch::Aarch64 ==> spec_select_algorithm(name, cpu)
            == Ok::<Algorithm, &'static str>(Algorithm::Neon),
        name_is(name, "neon") && cpu.arch != Arch::Aarch64 ==> spec_select_algorithm(name, cpu)
            == Err::<Algorithm, &'static str>("NEON not available on this architecture"),
        name_is(name, "native") || name_is(name, "popcount") ==> spec_select_algorithm(name, cpu)
            == Ok::<Algorithm, &'static str>(Algorithm::Native),
        name_is(name, "classic") ==> spec_select_algorithm(name, cpu) == Ok::<
            Algorithm,
            &'static str,
        >(Algorithm::Classic),
{
    reveal_strlit("avx512");
    reveal_strlit("avx-512");
    reveal_strlit("extra");
    reveal_strlit("avx");
    reveal_strlit("avx2");
    reveal_strlit("sse41");
    reveal_strlit("sse");
    reveal_strlit("neon");
    reveal_strlit("native");
    reveal_strlit("popcount");
    reveal_strlit("classic");
    lemma_name_literal("avx512", 6, 97u8);
    lemma_name_literal("avx-512", 7, 97u8);
    lemma_name_literal("extra", 5, 101u8);
    lemma_name_literal("avx", 3, 97u8);
    lemma_name_literal("avx2", 4, 97u8);
    lemma_name_literal("sse41", 5, 115u8);
    lemma_name_literal("sse", 3, 115u8);
    lemma_name_literal("neon", 4, 110u8);
    lemma_name_literal("native", 6, 110u8);
    lemma_name_literal("popcount", 8, 112u8);
    lemma_name_literal("classic", 7, 99u8);
    lemma_names_apart(name, "avx", "sse");
    lemma_names_apart(name, "avx2", "neon");
    lemma_names_apart(name, "extra", "sse41");
    lemma_names_apart(name, "avx512", "native");
    lemma_names_apart(name, "avx-512", "classic");
}

/// Picks the backend named `algo_name` (case-insensitive): `"avx512"` /
/// `"avx-512"`, `"avx2"` / `"avx"` / `"extra"`, `"sse41"` / `"sse"`,
/// `"neon"`, `"native"` / `"popcount"` or `"classic"`. Fails when the name is
/// unknown or the processor described by `cpu` cannot run that backend.
pub fn set_algorithm(algo_name: &str, cpu: &CpuFeatures) -> (r: Result<Algorithm, &'static str>)
    ensures
        r == spec_select_algorithm(algo_name.spec_bytes(), *cpu),
{
    let name = algo_name.as_bytes();
    if name_equals(name, "avx512") || name_equals(name, "avx-512") {
        if cpu.arch == Arch::X86_64 {
            if cpu.avx512bw && cpu.avx512bitalg {
                Ok(Algorithm::Avx512)
            } else {
                Err("CPU doesn't support AVX-512 BITALG")
            }
        } else {
            Err("AVX-512 not available on this architecture")
        }
    } else if name_equals(name, "extra") || name_equals(name, "avx") || name_equals(name, "avx2") {
        if cpu.arch == Arch::X86_64 {
            if cpu.avx2 {
                Ok(Algorithm::Avx2)
            } else {
                Err("CPU doesn't support AVX2")
            }
        } else if cpu.arch == Arch::Aarch64 {
            Ok(Algorithm::Neon)
        } else {
            Err("not available on this architecture")
        }
    } else if name_equals(name, "sse41") || name_equals(name, "sse") {
        if cpu.arch == Arch::X86_64 {
            if cpu.sse41 {
                Ok(Algorithm::Sse41)
            } else {
                Err("CPU doesn't support SSE4.1")
            }
        } else {
            Err("SSE not available on this architecture")
        }
    } else if name_equals(name, "neon") {
        if cpu.arch == Arch::Aarch64 {
            Ok(Algorithm::Neon)
        } else {
            Err("NEON not available on this architecture")
        }
    } else if name_equals(name, "native") || name_equals(name, "popcount") {
        Ok(Algorithm::Native)
    } else if name_equals(name, "classic") {
        Ok(Algorithm::Classic)
    } else {
        Err("unknown algorithm")
    }
}

} // verus!
