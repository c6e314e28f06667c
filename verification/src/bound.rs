//! The caller's error bound, and the bound-aware rewriting decisions.
//!
//! The bound's numeric parameter travels as the bit pattern of the 32-bit
//! value the caller chose. Whether a candidate value stays within the bound
//! is a question of float arithmetic, which the policy outside this library
//! answers; the decision logic over those answers is verified here.

use vstd::prelude::*;

verus! {

/// A caller-supplied error bound: bit-exact, a maximum relative deviation, or
/// a maximum absolute deviation. The payload is the bit pattern of the
/// bound's 32-bit parameter.
#[derive(Clone, Copy, Debug, PartialEq, Eq, Structural)]
pub enum ErrorBound {
    Lossless,
    Relative(u32),
    Absolute(u32),
}

pub open spec fn spec_is_lossless(b: ErrorBound) -> bool {
    b is Lossless
}

/// True when the bound asks for bit-exact compression.
pub fn is_lossless_compression(error_bound: ErrorBound) -> (r: bool)
    ensures
        r == spec_is_lossless(error_bound),
{
    matches!(error_bound, ErrorBound::Lossless)
}

/// The first candidate from `i` on whose verdict is true, else the input.
pub open spec fn spec_first_within(
    candidates: Seq<u32>,
    within: Seq<bool>,
    input: u32,
    i: int,
) -> u32
    decreases candidates.len() - i,
{
    if i < 0 || i >= candidates.len() || i >= within.len() {
        input
    } else if within[i] {
        candidates[i]
    } else {
        spec_first_within(candidates, within, input, i + 1)
    }
}

/// What decimal trimming returns for one value: the candidates are the value
/// rounded to 0, 1, ... decimal digits, and each verdict says whether that
/// candidate stays within the error bound.
pub open spec fn spec_rewrite_float_decimals(
    candidates: Seq<u32>,
    within: Seq<bool>,
    input: u32,
) -> u32 {
    spec_first_within(candidates, within, input, 0)
}

/// Picks the trimmed form of one value: the first of the 11 candidates (the
/// value rounded to 0 through 10 decimal digits, computed by the caller)
/// whose verdict says it stays within the error bound, or the input itself
/// when none qualifies.
pub fn rewrite_float_decimals(candidates: &Vec<u32>, within: &Vec<bool>, input: u32) -> (r: u32)
    requires
        candidates@.len() == 11,
        within@.len() == 11,
    ensures
        r == spec_rewrite_float_decimals(candidates@, within@, input),
{
    let mut i: usize = 0;
    while i < 11
        invariant
            candidates@.len() == 11,
            within@.len() == 11,
            i <= 11,
            spec_first_within(candidates@, within@, input, 0) == spec_first_within(
                candidates@,
                within@,
                input,
                i as int,
            ),
        decreases 11 - i,
    {
        if within[i] {
            return candidates[i];
        }
        i += 1;
    }
    input
}

/// The trimming decision never invents a value: it returns the input itself
/// or a candidate whose verdict approved it.
pub proof fn lemma_rewrite_qualifies(candidates: Seq<u32>, within: Seq<bool>, input: u32, i: int)
    ensures
        spec_first_within(candidates, within, input, i) == input || exists|k: int|
            i <= k < candidates.len() && k < within.len() && within[k] && spec_first_within(
                candidates,
                within,
                input,
                i,
            ) == candidates[k],
    decreases candidates.len() - i,
{
    if !(i < 0 || i >= candidates.len() || i >= within.len()) {
        if within[i] {
            assert(spec_first_within(candidates, within, input, i) == candidates[i]);
        } else {
            lemma_rewrite_qualifies(candidates, within, input, i + 1);
        }
    }
}

} // verus!
