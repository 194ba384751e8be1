//! Which vector instructions the distance kernels can use.
use numkong::cap;
use vstd::prelude::*;

verus! {

/// The capabilities that are told, as bits of the word that `numkong` gives, in the
/// order in which they are told.
pub open spec fn capability_order() -> Seq<u64> {
    seq![
        0x4,
        0x8,
        0x80,
        0x100,
        0x2_0000,
        0x4_0000,
        0x2,
        0x10,
        0x20,
        0x200,
        0x400,
        0x8000,
        0x100_0000,
        0x8_0000,
    ]
}

/// The constants `HASWELL`, `SKYLAKE`, `ICELAKE`, `GENOA`, `SAPPHIRE`, `SAPPHIREAMX`, `NEON`,
/// `NEONHALF`, `NEONSDOT`, `NEONBFDOT`, `SVE`, `SVE2`, `SME` and `RVV` of `numkong::cap`, each
/// of which is one bit.
#[verifier::external_body]
fn capability_bits() -> (r: Vec<u64>)
    ensures
        r@ == capability_order(),
{
    vec![
        cap::HASWELL, cap::SKYLAKE, cap::ICELAKE, cap::GENOA, cap::SAPPHIRE, cap::SAPPHIREAMX,
        cap::NEON, cap::NEONHALF, cap::NEONSDOT, cap::NEONBFDOT, cap::SVE, cap::SVE2, cap::SME,
        cap::RVV,
    ]
}

/// Calls `numkong::available`: a word with a bit for each capability of the machine.
#[verifier::external_body]
fn available() -> (r: u64)
{
    numkong::available()
}

/// The name of each capability that is told.
pub open spec fn capability_name(i: int) -> Seq<char> {
    if i == 0 {
        "AVX2"@
    } else if i == 1 {
        "AVX-512"@
    } else if i == 2 {
        "AVX-512 VNNI"@
    } else if i == 3 {
        "AVX-512 BF16"@
    } else if i == 4 {
        "AVX-512 FP16"@
    } else if i == 5 {
        "AMX"@
    } else if i == 6 {
        "NEON"@
    } else if i == 7 {
        "NEON FP16"@
    } else if i == 8 {
        "NEON SDOT"@
    } else if i == 9 {
        "NEON BFDOT"@
    } else if i == 10 {
        "SVE"@
    } else if i == 11 {
        "SVE2"@
    } else if i == 12 {
        "SME"@
    } else {
        "RVV"@
    }
}

fn name_of(i: usize) -> (r: &'static str)
    ensures
        r@ == capability_name(i as int),
{
    match i {
        0 => "AVX2",
        1 => "AVX-512",
        2 => "AVX-512 VNNI",
        3 => "AVX-512 BF16",
        4 => "AVX-512 FP16",
        5 => "AMX",
        6 => "NEON",
        7 => "NEON FP16",
        8 => "NEON SDOT",
        9 => "NEON BFDOT",
        10 => "SVE",
        11 => "SVE2",
        12 => "SME",
        _ => "RVV",
    }
}

/// The names of those of the first `upto` capabilities that a word has, with commas
/// between them.
pub open spec fn names_in(caps: u64, upto: int) -> Seq<char>
    decreases upto,
{
    if upto <= 0 {
        Seq::empty()
    } else {
        let before = names_in(caps, upto - 1);
        if caps & capability_order()[upto - 1] == 0 {
            before
        } else if before.len() == 0 {
            capability_name(upto - 1)
        } else {
            before + ", "@ + capability_name(upto - 1)
        }
    }
}

/// The names of the capabilities that a word has.
pub fn describe_capabilities(caps: u64) -> (r: String)
    ensures
        r@ == names_in(caps, 14),
{
    let bits = capability_bits();
    let mut r: String = String::new();
    let mut empty = true;
    let mut i: usize = 0;
    while i < 14
        invariant
            i <= 14,
            bits@ == capability_order(),
            r@ == names_in(caps, i as int),
            empty == (r@.len() == 0),
        decreases 14 - i,
    {
        if caps & bits[i] != 0 {
            let name = name_of(i);
            proof {
                lemma_named(i as int);
            }
            if empty {
                assert(r@ + name@ =~= name@);
                r.append(name);
                empty = false;
            } else {
                r.append(", ");
                r.append(name);
            }
        }
        i = i + 1;
    }
    r
}

pub(crate) proof fn lemma_named(i: int)
    ensures
        capability_name(i).len() > 0,
{
    reveal_strlit("AVX2");
    reveal_strlit("AVX-512");
    reveal_strlit("AVX-512 VNNI");
    reveal_strlit("AVX-512 BF16");
    reveal_strlit("AVX-512 FP16");
    reveal_strlit("AMX");
    reveal_strlit("NEON");
    reveal_strlit("NEON FP16");
    reveal_strlit("NEON SDOT");
    reveal_strlit("NEON BFDOT");
    reveal_strlit("SVE");
    reveal_strlit("SVE2");
    reveal_strlit("SME");
    reveal_strlit("RVV");
}

/// The names of the capabilities of the machine.
pub fn simd_info() -> (r: String)
    ensures
        exists|caps: u64| r@ == #[trigger] names_in(caps, 14),
{
    let caps: u64 = available();
    let r = describe_capabilities(caps);
    assert(r@ == names_in(caps, 14));
    r
}

} // verus!
