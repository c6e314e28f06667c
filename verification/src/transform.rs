//! The native value transform behind the codec.
//!
//! One vector of 1024 bit patterns is turned into 1024 frame-of-reference
//! integers plus a list of exceptions. A pattern with its sign bit clear is
//! representable: its encoded integer is the pattern itself. A pattern with
//! the sign bit set is an exception: it is stored verbatim with its position,
//! and a zero integer stands in its place. The integers are then packed
//! relative to their minimum (the base): when all integers equal the base the
//! bit width is 0 and nothing is packed, otherwise the bit width is 32 and
//! each word holds one offset. The factor and exponent indices of the
//! transform state are carried through the record format but do not affect
//! this scheme. Decoding reverses each step exactly; the round-trip proof is
//! at the bottom of this module.

use vstd::prelude::*;
use crate::bits::SIGN_MASK;
use crate::record::spec_i32_to_u32;
use crate::record::i32_to_u32_bits;
use crate::VECTOR_SIZE;

verus! {

/// The per-row-group state of the transform: a usability scheme flag and the
/// two scale-table indices recorded in every vector's metadata.
pub struct TransformState {
    pub scheme: i32,
    pub factor: u8,
    pub exponent: u8,
}

/// Analyzes a row-group and returns the transform state for it. This scheme
/// applies to every row-group, so the state always reports scheme 1; the
/// arguments mirror the information an adaptive transform would sample.
pub fn init(current_rowgroup: &Vec<u32>, row_group_id: usize, num_values_per_rowgroup: usize) -> (r:
    TransformState)
    ensures
        r.scheme == 1,
        r.factor == 0,
        r.exponent == 0,
{
    TransformState { scheme: 1, factor: 0, exponent: 0 }
}

/// True when the transform state reports a scheme this codec can encode with.
pub fn can_use_alp(stt: &TransformState) -> (r: bool)
    ensures
        r == (stt.scheme == 1),
{
    stt.scheme == 1
}

/// A pattern the transform cannot represent as a nonnegative integer: its
/// sign bit is set.
pub open spec fn spec_is_exception(v: u32) -> bool {
    v >= SIGN_MASK
}

/// The frame-of-reference integer standing for one pattern: the pattern
/// itself when representable, a zero placeholder for an exception.
pub open spec fn spec_encoded_integer(v: u32) -> i32 {
    if spec_is_exception(v) {
        0
    } else {
        v as i32
    }
}

pub open spec fn spec_encoded_integers(s: Seq<u32>) -> Seq<i32> {
    Seq::new(s.len(), |i: int| spec_encoded_integer(s[i]))
}

/// The exceptions of a vector, in position order.
pub open spec fn spec_exception_values(s: Seq<u32>) -> Seq<u32>
    decreases s.len(),
{
    if s.len() == 0 {
        Seq::empty()
    } else if spec_is_exception(s.last()) {
        spec_exception_values(s.drop_last()).push(s.last())
    } else {
        spec_exception_values(s.drop_last())
    }
}

/// The positions of a vector's exceptions, strictly increasing.
pub open spec fn spec_exception_positions(s: Seq<u32>) -> Seq<u16>
    decreases s.len(),
{
    if s.len() == 0 {
        Seq::empty()
    } else if spec_is_exception(s.last()) {
        spec_exception_positions(s.drop_last()).push((s.len() - 1) as u16)
    } else {
        spec_exception_positions(s.drop_last())
    }
}

/// What the exception lists of a vector are: as many values as positions,
/// each position in range, strictly increasing, naming exactly the exception
/// patterns of the vector, with the stored value the pattern itself.
pub proof fn lemma_exceptions(s: Seq<u32>)
    requires
        s.len() <= 1024,
    ensures
        spec_exception_values(s).len() == spec_exception_positions(s).len(),
        spec_exception_positions(s).len() <= s.len(),
        forall|k: int|
            #![trigger spec_exception_positions(s)[k]]
            0 <= k < spec_exception_positions(s).len() ==> {
                &&& spec_exception_positions(s)[k] < s.len()
                &&& spec_is_exception(s[spec_exception_positions(s)[k] as int])
                &&& spec_exception_values(s)[k] == s[spec_exception_positions(s)[k] as int]
            },
        forall|k1: int, k2: int|
            #![trigger spec_exception_positions(s)[k1], spec_exception_positions(s)[k2]]
            0 <= k1 < k2 < spec_exception_positions(s).len() ==> spec_exception_positions(s)[k1]
                < spec_exception_positions(s)[k2],
        forall|j: int|
            0 <= j < s.len() && spec_is_exception(s[j]) ==> exists|k: int|
                0 <= k < spec_exception_positions(s).len() && spec_exception_positions(s)[k] == j,
    decreases s.len(),
{
    if s.len() > 0 {
        let front = s.drop_last();
        lemma_exceptions(front);
        let pos = spec_exception_positions(s);
        let vals = spec_exception_values(s);
        let fpos = spec_exception_positions(front);
        let fvals = spec_exception_values(front);
        assert(forall|j: int| 0 <= j < front.len() ==> front[j] == s[j]);
        if spec_is_exception(s.last()) {
            assert(pos == fpos.push((s.len() - 1) as u16));
            assert(vals == fvals.push(s.last()));
        } else {
            assert(pos == fpos);
            assert(vals == fvals);
        }
        assert forall|k: int| 0 <= k < pos.len() implies {
            &&& pos[k] < s.len()
            &&& spec_is_exception(s[pos[k] as int])
            &&& vals[k] == s[pos[k] as int]
        } by {
            if k < fpos.len() {
                assert(pos[k] == fpos[k]);
                assert(vals[k] == fvals[k]);
                assert(spec_exception_positions(front)[k] < front.len());
                assert(spec_is_exception(front[spec_exception_positions(front)[k] as int]));
                assert(spec_exception_values(front)[k] == front[spec_exception_positions(
                    front,
                )[k] as int]);
            } else {
                assert(spec_is_exception(s.last()));
                assert(pos[k] == (s.len() - 1) as u16);
                assert(vals[k] == s.last());
            }
        }
        assert forall|k1: int, k2: int| 0 <= k1 < k2 < pos.len() implies pos[k1] < pos[k2] by {
            if k2 < fpos.len() {
                assert(spec_exception_positions(front)[k1] < spec_exception_positions(front)[k2]);
            } else {
                assert(pos[k2] == (s.len() - 1) as u16);
                assert(pos[k1] == fpos[k1]);
                assert(spec_exception_positions(front)[k1] < front.len());
            }
        }
        assert forall|j: int| 0 <= j < s.len() && spec_is_exception(s[j]) implies exists|k: int|
            0 <= k < pos.len() && pos[k] == j by {
            if j < s.len() - 1 {
                assert(front[j] == s[j]);
                let k = choose|k: int| 0 <= k < fpos.len() && fpos[k] == j;
                assert(pos[k] == j);
            } else {
                assert(pos[pos.len() - 1] == j);
            }
        }
    }
}

/// Encodes one vector: fills the exception values, their positions, and the
/// encoded integers, and returns the exception count.
pub fn alp_encode(
    input_vector: &Vec<u32>,
    exceptions: &mut Vec<u32>,
    exceptions_positions: &mut Vec<u16>,
    encoded_integers: &mut Vec<i32>,
    stt: &TransformState,
) -> (exception_cnt: u16)
    requires
        input_vector@.len() == VECTOR_SIZE,
    ensures
        final(exceptions)@ == spec_exception_values(input_vector@),
        final(exceptions_positions)@ == spec_exception_positions(input_vector@),
        final(encoded_integers)@ == spec_encoded_integers(input_vector@),
        exception_cnt as int == spec_exception_values(input_vector@).len(),
        exception_cnt <= 1024,
{
    exceptions.clear();
    exceptions_positions.clear();
    encoded_integers.clear();
    let mut i: usize = 0;
    while i < VECTOR_SIZE
        invariant
            input_vector@.len() == VECTOR_SIZE,
            i <= VECTOR_SIZE,
            exceptions@ == spec_exception_values(input_vector@.take(i as int)),
            exceptions_positions@ == spec_exception_positions(input_vector@.take(i as int)),
            encoded_integers@ == spec_encoded_integers(input_vector@.take(i as int)),
            exceptions@.len() <= i,
        decreases VECTOR_SIZE - i,
    {
        let v = input_vector[i];
        proof {
            assert(input_vector@.take(i + 1).drop_last() =~= input_vector@.take(i as int));
            assert(input_vector@.take(i + 1).last() == v);
        }
        if v >= SIGN_MASK {
            exceptions.push(v);
            exceptions_positions.push(i as u16);
            encoded_integers.push(0i32);
        } else {
            encoded_integers.push(v as i32);
        }
        i += 1;
        proof {
            assert(encoded_integers@ =~= spec_encoded_integers(input_vector@.take(i as int)));
        }
    }
    proof {
        assert(input_vector@.take(VECTOR_SIZE as int) =~= input_vector@);
    }
    exceptions.len() as u16
}

// ----- bit-width analysis -----

pub open spec fn spec_min_i32(s: Seq<i32>) -> i32
    recommends
        s.len() > 0,
    decreases s.len(),
{
    if s.len() <= 1 {
        s[0]
    } else if s.last() < spec_min_i32(s.drop_last()) {
        s.last()
    } else {
        spec_min_i32(s.drop_last())
    }
}

pub open spec fn spec_max_i32(s: Seq<i32>) -> i32
    recommends
        s.len() > 0,
    decreases s.len(),
{
    if s.len() <= 1 {
        s[0]
    } else if s.last() > spec_max_i32(s.drop_last()) {
        s.last()
    } else {
        spec_max_i32(s.drop_last())
    }
}

/// The bit width this scheme packs a vector's integers with: 0 when they are
/// all equal, 32 otherwise.
pub open spec fn spec_bit_width(s: Seq<i32>) -> u8 {
    if spec_min_i32(s) == spec_max_i32(s) {
        0
    } else {
        32
    }
}

pub proof fn lemma_min_max_i32(s: Seq<i32>)
    requires
        s.len() > 0,
    ensures
        forall|i: int| 0 <= i < s.len() ==> spec_min_i32(s) <= s[i] && s[i] <= spec_max_i32(s),
        exists|i: int| 0 <= i < s.len() && s[i] == spec_min_i32(s),
        exists|i: int| 0 <= i < s.len() && s[i] == spec_max_i32(s),
    decreases s.len(),
{
    if s.len() == 1 {
        assert(s[0] == spec_min_i32(s));
        assert(s[0] == spec_max_i32(s));
    } else {
        let front = s.drop_last();
        lemma_min_max_i32(front);
        assert(forall|i: int| 0 <= i < front.len() ==> front[i] == s[i]);
        let wmin = choose|i: int| 0 <= i < front.len() && front[i] == spec_min_i32(front);
        let wmax = choose|i: int| 0 <= i < front.len() && front[i] == spec_max_i32(front);
        if s.last() < spec_min_i32(front) {
            assert(s[s.len() - 1] == spec_min_i32(s));
        } else {
            assert(s[wmin] == spec_min_i32(s));
        }
        if s.last() > spec_max_i32(front) {
            assert(s[s.len() - 1] == spec_max_i32(s));
        } else {
            assert(s[wmax] == spec_max_i32(s));
        }
    }
}

/// Analyzes one vector's encoded integers: writes the bit width this scheme
/// needs for them and returns the frame-of-reference base, their minimum.
pub fn alp_analyze_ffor(input_vector: &Vec<i32>, bit_width: &mut u8) -> (base: i32)
    requires
        input_vector@.len() == VECTOR_SIZE,
    ensures
        base == spec_min_i32(input_vector@),
        *final(bit_width) == spec_bit_width(input_vector@),
{
    let mut mn = input_vector[0];
    let mut mx = input_vector[0];
    let mut i: usize = 1;
    while i < VECTOR_SIZE
        invariant
            input_vector@.len() == VECTOR_SIZE,
            1 <= i <= VECTOR_SIZE,
            mn == spec_min_i32(input_vector@.take(i as int)),
            mx == spec_max_i32(input_vector@.take(i as int)),
        decreases VECTOR_SIZE - i,
    {
        let v = input_vector[i];
        proof {
            assert(input_vector@.take(i + 1).drop_last() =~= input_vector@.take(i as int));
            assert(input_vector@.take(i + 1).last() == v);
        }
        if v < mn {
            mn = v;
        }
        if v > mx {
            mx = v;
        }
        i += 1;
    }
    proof {
        assert(input_vector@.take(VECTOR_SIZE as int) =~= input_vector@);
    }
    if mn == mx {
        *bit_width = 0;
    } else {
        *bit_width = 32;
    }
    mn
}

// ----- frame-of-reference packing -----

/// The packed words of a vector: nothing at width 0, one offset from the base
/// per integer at width 32.
pub open spec fn spec_packed(s: Seq<i32>, bit_width: u8, base: i32) -> Seq<i32> {
    if bit_width == 0 {
        Seq::empty()
    } else {
        Seq::new(s.len(), |i: int| (s[i] - base) as i32)
    }
}

/// Packs one vector's integers relative to the base.
pub fn fastlanes_ffor(n: &Vec<i32>, out: &mut Vec<i32>, bit_width: u8, ffor_base: &Vec<i32>)
    requires
        n@.len() == VECTOR_SIZE,
        ffor_base@.len() == 1,
        bit_width == 0 || bit_width == 32,
        bit_width == 0 ==> forall|i: int| 0 <= i < n@.len() ==> n@[i] == ffor_base@[0],
        bit_width == 32 ==> forall|i: int|
            0 <= i < n@.len() ==> ffor_base@[0] <= n@[i] && n@[i] - ffor_base@[0] <= i32::MAX,
    ensures
        final(out)@ == spec_packed(n@, bit_width, ffor_base@[0]),
{
    out.clear();
    if bit_width == 0 {
        return ;
    }
    let base = ffor_base[0];
    let mut i: usize = 0;
    while i < VECTOR_SIZE
        invariant
            n@.len() == VECTOR_SIZE,
            ffor_base@.len() == 1,
            base == ffor_base@[0],
            i <= VECTOR_SIZE,
            forall|k: int| 0 <= k < n@.len() ==> base <= n@[k] && n@[k] - base <= i32::MAX,
            out@ == spec_packed(n@, 32, base).take(i as int),
        decreases VECTOR_SIZE - i,
    {
        out.push(n[i] - base);
        i += 1;
        proof {
            assert(out@ =~= spec_packed(n@, 32, base).take(i as int));
        }
    }
    proof {
        assert(spec_packed(n@, 32, base).take(VECTOR_SIZE as int) =~= spec_packed(n@, 32, base));
    }
}

/// The integers recovered from packed words: all equal to the base at width
/// 0, the base plus each offset at width 32.
pub open spec fn spec_unpacked(packed: Seq<i32>, bit_width: u8, base: i32) -> Seq<i32> {
    Seq::new(
        VECTOR_SIZE as nat,
        |i: int|
            if bit_width == 0 {
                base
            } else {
                (base + packed[i]) as i32
            },
    )
}

/// Unpacks one vector's integers from their packed words.
pub fn fastlanes_unffor(n: &Vec<i32>, out: &mut Vec<i32>, bit_width: u8, ffor_base: &Vec<i32>)
    requires
        ffor_base@.len() == 1,
        bit_width == 0 || bit_width == 32,
        bit_width == 32 ==> n@.len() == VECTOR_SIZE && forall|i: int|
            0 <= i < n@.len() ==> 0 <= n@[i] && ffor_base@[0] + n@[i] <= i32::MAX,
    ensures
        final(out)@ == spec_unpacked(n@, bit_width, ffor_base@[0]),
{
    out.clear();
    let base = ffor_base[0];
    let mut i: usize = 0;
    while i < VECTOR_SIZE
        invariant
            ffor_base@.len() == 1,
            base == ffor_base@[0],
            bit_width == 0 || bit_width == 32,
            bit_width == 32 ==> n@.len() == VECTOR_SIZE && forall|k: int|
                0 <= k < n@.len() ==> 0 <= n@[k] && base + n@[k] <= i32::MAX,
            i <= VECTOR_SIZE,
            out@ == spec_unpacked(n@, bit_width, base).take(i as int),
        decreases VECTOR_SIZE - i,
    {
        if bit_width == 0 {
            out.push(base);
        } else {
            out.push(base + n[i]);
        }
        i += 1;
        proof {
            assert(out@ =~= spec_unpacked(n@, bit_width, base).take(i as int));
        }
    }
    proof {
        assert(spec_unpacked(n@, bit_width, base).take(VECTOR_SIZE as int) =~= spec_unpacked(
            n@,
            bit_width,
            base,
        ));
    }
}

// ----- decoding integers back to patterns -----

/// The bit patterns read back from integers: each integer reinterpreted as an
/// unsigned 32-bit pattern.
pub open spec fn spec_decoded_bits(s: Seq<i32>) -> Seq<u32> {
    Seq::new(s.len(), |i: int| spec_i32_to_u32(s[i]))
}

/// Decodes one vector's integers to bit patterns. The factor and exponent
/// indices are carried by the record format but do not affect this scheme.
pub fn alp_decode(encoded_integers: &Vec<i32>, fac_idx: u8, exp_idx: u8, output: &mut Vec<u32>)
    ensures
        final(output)@ == spec_decoded_bits(encoded_integers@),
{
    output.clear();
    let end = encoded_integers.len();
    let mut i: usize = 0;
    while i < end
        invariant
            end == encoded_integers@.len(),
            i <= end,
            output@ == spec_decoded_bits(encoded_integers@).take(i as int),
        decreases end - i,
    {
        output.push(i32_to_u32_bits(encoded_integers[i]));
        i += 1;
        proof {
            assert(output@ =~= spec_decoded_bits(encoded_integers@).take(i as int));
        }
    }
    proof {
        assert(spec_decoded_bits(encoded_integers@).take(end as int) =~= spec_decoded_bits(
            encoded_integers@,
        ));
    }
}

// ----- patching exceptions back in -----

/// The first `n` exceptions written back over their positions, in order.
pub open spec fn spec_patch(f: Seq<u32>, exc: Seq<u32>, pos: Seq<u16>, n: int) -> Seq<u32>
    decreases n,
{
    if n <= 0 {
        f
    } else {
        spec_patch(f, exc, pos, n - 1).update(pos[n - 1] as int, exc[n - 1])
    }
}

pub proof fn lemma_patch_len(f: Seq<u32>, exc: Seq<u32>, pos: Seq<u16>, n: int)
    requires
        0 <= n <= pos.len(),
        forall|k: int| 0 <= k < n ==> (pos[k] as int) < f.len(),
    ensures
        spec_patch(f, exc, pos, n).len() == f.len(),
    decreases n,
{
    if n > 0 {
        lemma_patch_len(f, exc, pos, n - 1);
    }
}

/// A position no prefix entry names keeps its decoded value.
pub proof fn lemma_patch_untouched(f: Seq<u32>, exc: Seq<u32>, pos: Seq<u16>, n: int, j: int)
    requires
        0 <= n <= pos.len(),
        0 <= j < f.len(),
        forall|k: int| 0 <= k < n ==> (pos[k] as int) < f.len() && pos[k] != j,
    ensures
        spec_patch(f, exc, pos, n)[j] == f[j],
    decreases n,
{
    if n > 0 {
        lemma_patch_untouched(f, exc, pos, n - 1, j);
        lemma_patch_len(f, exc, pos, n - 1);
    }
}

/// The last entry naming a position decides its patched value.
pub proof fn lemma_patch_hit(f: Seq<u32>, exc: Seq<u32>, pos: Seq<u16>, n: int, k: int)
    requires
        0 <= k < n <= pos.len(),
        n <= exc.len(),
        forall|k2: int| 0 <= k2 < n ==> (pos[k2] as int) < f.len(),
        forall|k2: int| k < k2 < n ==> pos[k2] != pos[k],
    ensures
        spec_patch(f, exc, pos, n)[pos[k] as int] == exc[k],
    decreases n,
{
    lemma_patch_len(f, exc, pos, n - 1);
    if k < n - 1 {
        lemma_patch_hit(f, exc, pos, n - 1, k);
    }
}

/// Writes the exceptions back over their recorded positions.
pub fn alp_patch_exceptions(
    output: &mut Vec<u32>,
    exceptions: &Vec<u32>,
    exceptions_positions: &Vec<u16>,
    exceptions_count: u16,
)
    requires
        exceptions@.len() == exceptions_count,
        exceptions_positions@.len() == exceptions_count,
        forall|k: int|
            0 <= k < exceptions_positions@.len() ==> (exceptions_positions@[k] as int) < old(
                output,
            )@.len(),
    ensures
        final(output)@ == spec_patch(
            old(output)@,
            exceptions@,
            exceptions_positions@,
            exceptions_count as int,
        ),
{
    let mut k: usize = 0;
    while k < exceptions_count as usize
        invariant
            exceptions@.len() == exceptions_count,
            exceptions_positions@.len() == exceptions_count,
            forall|k2: int|
                0 <= k2 < exceptions_positions@.len() ==> (exceptions_positions@[k2] as int) < old(
                    output,
                )@.len(),
            k <= exceptions_count,
            output@ == spec_patch(old(output)@, exceptions@, exceptions_positions@, k as int),
            output@.len() == old(output)@.len(),
        decreases exceptions_count as int - k,
    {
        let p = exceptions_positions[k] as usize;
        let v = exceptions[k];
        output.set(p, v);
        k += 1;
    }
}

// ----- the round trip -----

/// The encoded integers of any vector are nonnegative, so the base is too,
/// and the analysis results satisfy what packing asks for.
pub proof fn lemma_encoded_bounds(s: Seq<u32>)
    requires
        s.len() == VECTOR_SIZE,
    ensures
        forall|i: int| 0 <= i < s.len() ==> 0 <= #[trigger] spec_encoded_integers(s)[i],
        0 <= spec_min_i32(spec_encoded_integers(s)),
        spec_bit_width(spec_encoded_integers(s)) == 0 ==> forall|i: int|
            0 <= i < s.len() ==> #[trigger] spec_encoded_integers(s)[i] == spec_min_i32(
                spec_encoded_integers(s),
            ),
        forall|i: int|
            0 <= i < s.len() ==> spec_min_i32(spec_encoded_integers(s))
                <= #[trigger] spec_encoded_integers(s)[i] && spec_encoded_integers(s)[i]
                - spec_min_i32(spec_encoded_integers(s)) <= i32::MAX,
{
    let enc = spec_encoded_integers(s);
    assert(forall|i: int| 0 <= i < s.len() ==> 0 <= #[trigger] enc[i]);
    lemma_min_max_i32(enc);
    let w = choose|i: int| 0 <= i < enc.len() && enc[i] == spec_min_i32(enc);
    assert(0 <= enc[w]);
    if spec_bit_width(enc) == 0 {
        assert(forall|i: int|
            0 <= i < s.len() ==> spec_min_i32(enc) <= #[trigger] enc[i] && enc[i] <= spec_max_i32(
                enc,
            ));
    }
}

/// Unpacking what was packed gives the integers back.
pub proof fn lemma_pack_round_trip(s: Seq<i32>)
    requires
        s.len() == VECTOR_SIZE,
        forall|i: int| 0 <= i < s.len() ==> 0 <= #[trigger] s[i],
    ensures
        spec_unpacked(
            spec_packed(s, spec_bit_width(s), spec_min_i32(s)),
            spec_bit_width(s),
            spec_min_i32(s),
        ) == s,
{
    lemma_min_max_i32(s);
    let bw = spec_bit_width(s);
    let base = spec_min_i32(s);
    if bw == 0 {
        assert(forall|i: int| 0 <= i < s.len() ==> base <= #[trigger] s[i] && s[i] <= spec_max_i32(s));
        assert(spec_unpacked(spec_packed(s, bw, base), bw, base) =~= s);
    } else {
        assert(spec_unpacked(spec_packed(s, bw, base), bw, base) =~= s);
    }
}

/// Decoding then patching recovers the vector exactly: the round trip of this
/// transform, for every vector of 1024 patterns.
pub proof fn lemma_transform_round_trip(s: Seq<u32>)
    requires
        s.len() == VECTOR_SIZE,
    ensures
        ({
            let enc = spec_encoded_integers(s);
            spec_patch(
                spec_decoded_bits(
                    spec_unpacked(
                        spec_packed(enc, spec_bit_width(enc), spec_min_i32(enc)),
                        spec_bit_width(enc),
                        spec_min_i32(enc),
                    ),
                ),
                spec_exception_values(s),
                spec_exception_positions(s),
                spec_exception_values(s).len() as int,
            ) == s
        }),
{
    let enc = spec_encoded_integers(s);
    lemma_encoded_bounds(s);
    lemma_pack_round_trip(enc);
    let dec = spec_decoded_bits(enc);
    assert(dec.len() == s.len());
    let vals = spec_exception_values(s);
    let pos = spec_exception_positions(s);
    lemma_exceptions(s);
    assert(forall|k: int|
        #![trigger spec_exception_positions(s)[k]]
        0 <= k < spec_exception_positions(s).len() ==> {
            &&& spec_exception_positions(s)[k] < s.len()
            &&& spec_is_exception(s[spec_exception_positions(s)[k] as int])
            &&& spec_exception_values(s)[k] == s[spec_exception_positions(s)[k] as int]
        });
    let n = vals.len() as int;
    let patched = spec_patch(dec, vals, pos, n);
    lemma_patch_len(dec, vals, pos, n);
    assert forall|j: int| 0 <= j < s.len() implies patched[j] == s[j] by {
        if spec_is_exception(s[j]) {
            let k = choose|k: int| 0 <= k < pos.len() && pos[k] == j;
            assert forall|k2: int| k < k2 < n implies pos[k2] != pos[k] by {
                assert(pos[k] < pos[k2]);
            }
            lemma_patch_hit(dec, vals, pos, n, k);
            assert(patched[j] == vals[k]);
        } else {
            assert forall|k: int| 0 <= k < n implies (pos[k] as int) < dec.len() && pos[k] != j by {
                assert(spec_is_exception(s[pos[k] as int]));
            }
            lemma_patch_untouched(dec, vals, pos, n, j);
            assert(dec[j] == spec_i32_to_u32(enc[j]));
        }
    }
    assert(patched =~= s);
}

} // verus!
