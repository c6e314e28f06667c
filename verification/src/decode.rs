//! The two decode paths over a record stream: `grid` materializes the values
//! with padding stripped, `sum` yields the addends of a streaming sum with
//! padding zeroed. Both read one record per vector, in write order, behind a
//! byte cursor. The per-vector count is deliberate for both paths: the writer
//! produces one record per vector, so a count derived from the row-group
//! width would leave most of a multi-row-group stream unread.

use vstd::prelude::*;
use crate::bits::spec_float_eq;
use crate::bits::float_eq_bits;
use crate::bits::spec_is_float_zero;
use crate::bits::is_float_zero_bits;
use crate::record::spec_read_metadata;
use crate::record::spec_read_exceptions;
use crate::record::spec_read_encoded_integers;
use crate::record::read_metadata;
use crate::record::read_exceptions;
use crate::record::read_encoded_integers;
use crate::transform::spec_unpacked;
use crate::transform::spec_decoded_bits;
use crate::transform::spec_patch;
use crate::transform::fastlanes_unffor;
use crate::transform::alp_decode;
use crate::transform::alp_patch_exceptions;
use crate::AlpError;
use crate::VECTOR_SIZE;

verus! {

// ----- vector count -----

pub open spec fn spec_ceil(n: int, d: int) -> int {
    n / d + if n % d == 0 {
        0int
    } else {
        1int
    }
}

/// Ceiling division, for the number of records a column length spans.
pub fn ceil(numerator: usize, denominator: usize) -> (r: usize)
    requires
        denominator > 0,
    ensures
        r as int == spec_ceil(numerator as int, denominator as int),
{
    proof {
        let nn = numerator as int;
        let dd = denominator as int;
        assert(nn % dd != 0 ==> nn / dd < nn) by (nonlinear_arith)
            requires
                dd >= 1,
                nn >= 0,
        ;
    }
    numerator / denominator + if numerator % denominator == 0 {
        0
    } else {
        1
    }
}

// ----- one record decoded -----

/// The consistency a record's fields must show before its integers can be
/// unpacked: a bit width this scheme writes, exactly the packed words that
/// width takes, offsets that stay in range from the base, and positions
/// inside the vector.
pub open spec fn spec_record_consistent(
    bit_width: u8,
    base: i32,
    packed: Seq<i32>,
    pos: Seq<u16>,
) -> bool {
    &&& (bit_width == 0 || bit_width == 32)
    &&& packed.len() == 128 * (bit_width as int) / 4
    &&& (forall|k: int| 0 <= k < packed.len() ==> 0 <= #[trigger] packed[k] && base + packed[k] <= i32::MAX)
    &&& (forall|k: int| 0 <= k < pos.len() ==> (#[trigger] pos[k]) < VECTOR_SIZE)
}

/// One record parsed and decoded at cursor `i`: the 1024 recovered patterns,
/// its padding flag, and the cursor past it. `None` on truncated or
/// inconsistent input.
pub open spec fn spec_decode_record(bytes: Seq<u8>, i: int) -> Option<(Seq<u32>, bool, int)> {
    match spec_read_metadata(bytes, i) {
        Option::None => Option::None,
        Option::Some((factor, exponent, bit_width, base, i1)) => match spec_read_exceptions(
            bytes,
            i1,
        ) {
            Option::None => Option::None,
            Option::Some((count, exc, pos, i2, padded)) => match spec_read_encoded_integers(
                bytes,
                i2,
            ) {
                Option::None => Option::None,
                Option::Some((ffor_count, packed, i3)) => if spec_record_consistent(
                    bit_width,
                    base,
                    packed,
                    pos,
                ) {
                    Option::Some(
                        (
                            spec_patch(
                                spec_decoded_bits(spec_unpacked(packed, bit_width, base)),
                                exc,
                                pos,
                                count as int,
                            ),
                            padded,
                            i3,
                        ),
                    )
                } else {
                    Option::None
                },
            },
        },
    }
}

/// Reads and decodes one record at the cursor: unpacks the integers, maps
/// them back to patterns, and patches the exceptions in. Truncated or
/// inconsistent input is reported as corruption.
#[verifier::loop_isolation(false)]
pub fn decode_record(values: &Vec<u8>, read_byte_index: usize) -> (r: Result<
    (Vec<u32>, bool, usize),
    AlpError,
>)
    ensures
        r is Ok <==> spec_decode_record(values@, read_byte_index as int) is Some,
        r matches Ok(v) ==> spec_decode_record(values@, read_byte_index as int) == Some(
            (v.0@, v.1, v.2 as int),
        ) && v.0@.len() == VECTOR_SIZE,
        r is Err ==> r == Err::<(Vec<u32>, bool, usize), AlpError>(AlpError::CorruptInput),
{
    let (factor, exponent, bit_width, base_arr, b1) = match read_metadata(values, read_byte_index) {
        Ok(t) => t,
        Err(e) => {
            return Err(AlpError::CorruptInput);
        },
    };
    let (exception_count, exceptions, exception_positions, b2, is_padded) = match read_exceptions(
        values,
        b1,
    ) {
        Ok(t) => t,
        Err(e) => {
            return Err(AlpError::CorruptInput);
        },
    };
    let (ffor_count, ffor_arr, b3) = match read_encoded_integers(values, b2) {
        Ok(t) => t,
        Err(e) => {
            return Err(AlpError::CorruptInput);
        },
    };
    if !(bit_width == 0 || bit_width == 32) {
        return Err(AlpError::CorruptInput);
    }
    if ffor_count as usize != 128 * (bit_width as usize) / 4 {
        return Err(AlpError::CorruptInput);
    }
    let mut k: usize = 0;
    let packed_len = ffor_arr.len();
    while k < packed_len
        invariant
            packed_len == ffor_arr@.len(),
            k <= packed_len,
            forall|k2: int|
                0 <= k2 < k ==> 0 <= #[trigger] ffor_arr@[k2] && base_arr + ffor_arr@[k2]
                    <= i32::MAX,
        decreases packed_len - k,
    {
        let w = ffor_arr[k];
        if w < 0 || (base_arr as i64) + (w as i64) > (i32::MAX as i64) {
            proof {
                assert(ffor_arr@[k as int] == w);
                assert(!(0 <= ffor_arr@[k as int] && base_arr + ffor_arr@[k as int] <= i32::MAX));
                assert(!spec_record_consistent(bit_width, base_arr, ffor_arr@, exception_positions@));
            }
            return Err(AlpError::CorruptInput);
        }
        k += 1;
    }
    let mut k: usize = 0;
    let pos_len = exception_positions.len();
    while k < pos_len
        invariant
            pos_len == exception_positions@.len(),
            k <= pos_len,
            forall|k2: int| 0 <= k2 < k ==> (#[trigger] exception_positions@[k2]) < VECTOR_SIZE,
        decreases pos_len - k,
    {
        if exception_positions[k] as usize >= VECTOR_SIZE {
            proof {
                assert(!((exception_positions@[k as int]) < VECTOR_SIZE));
                assert(!spec_record_consistent(bit_width, base_arr, ffor_arr@, exception_positions@));
            }
            return Err(AlpError::CorruptInput);
        }
        k += 1;
    }
    let mut base_arr_slice: Vec<i32> = Vec::new();
    base_arr_slice.push(base_arr);
    let mut out: Vec<i32> = Vec::new();
    fastlanes_unffor(&ffor_arr, &mut out, bit_width, &base_arr_slice);
    let mut decoded_floats: Vec<u32> = Vec::new();
    alp_decode(&out, factor, exponent, &mut decoded_floats);
    alp_patch_exceptions(
        &mut decoded_floats,
        &exceptions,
        &exception_positions,
        exception_count,
    );
    proof {
        crate::transform::lemma_patch_len(
            spec_decoded_bits(spec_unpacked(ffor_arr@, bit_width, base_arr)),
            exceptions@,
            exception_positions@,
            exception_count as int,
        );
    }
    Ok((decoded_floats, is_padded, b3))
}

// ----- the padding-strip rule -----

/// The length of the maximal trailing run of elements IEEE-equal to `sent`.
pub open spec fn spec_run_from_end(s: Seq<u32>, sent: u32) -> int
    decreases s.len(),
{
    if s.len() == 0 {
        0
    } else if spec_float_eq(s.last(), sent) {
        1 + spec_run_from_end(s.drop_last(), sent)
    } else {
        0
    }
}

/// The trailing run of elements IEEE-equal to the last element: the candidate
/// padding of a decoded vector. Zero when the last element is NaN, which is
/// never IEEE-equal to anything.
pub open spec fn spec_trailing_run(s: Seq<u32>) -> int {
    if s.len() == 0 {
        0
    } else {
        spec_run_from_end(s, s.last())
    }
}

/// The run length is the unique `k` such that the last `k` elements equal the
/// sentinel and the one before them (if any) does not.
pub proof fn lemma_run_char(s: Seq<u32>, sent: u32, k: int)
    requires
        0 <= k <= s.len(),
        forall|j: int| s.len() - k <= j < s.len() ==> spec_float_eq(#[trigger] s[j], sent),
        k < s.len() ==> !spec_float_eq(s[s.len() - k - 1], sent),
    ensures
        spec_run_from_end(s, sent) == k,
    decreases k,
{
    if k == 0 {
        if s.len() > 0 {
            assert(!spec_float_eq(s.last(), sent));
        }
    } else {
        let front = s.drop_last();
        assert(spec_float_eq(s.last(), sent));
        assert forall|j: int| front.len() - (k - 1) <= j < front.len() implies spec_float_eq(
            #[trigger] front[j],
            sent,
        ) by {
            assert(front[j] == s[j]);
        }
        if k - 1 < front.len() {
            assert(front[front.len() - (k - 1) - 1] == s[s.len() - k - 1]);
        }
        lemma_run_char(front, sent, k - 1);
    }
}

/// Every element of the trailing run is IEEE-equal to the sentinel, and the
/// run never exceeds the sequence.
pub proof fn lemma_run_members(s: Seq<u32>, sent: u32)
    ensures
        0 <= spec_run_from_end(s, sent) <= s.len(),
        forall|j: int|
            s.len() - spec_run_from_end(s, sent) <= j < s.len() ==> spec_float_eq(
                #[trigger] s[j],
                sent,
            ),
    decreases s.len(),
{
    if s.len() > 0 && spec_float_eq(s.last(), sent) {
        lemma_run_members(s.drop_last(), sent);
        assert(forall|j: int|
            0 <= j < s.len() - 1 ==> #[trigger] s[j] == s.drop_last()[j]);
    }
}

/// Computes the trailing-run length of a decoded vector, taking its last
/// element as the candidate sentinel.
pub fn trailing_run_len(decoded: &Vec<u32>) -> (r: usize)
    requires
        decoded@.len() > 0,
    ensures
        r as int == spec_trailing_run(decoded@),
        r <= decoded@.len(),
{
    let len = decoded.len();
    let sent = decoded[len - 1];
    let mut k: usize = 0;
    while k < len && float_eq_bits(decoded[len - 1 - k], sent)
        invariant
            len == decoded@.len(),
            len > 0,
            sent == decoded@.last(),
            k <= len,
            forall|j: int| len - k <= j < len ==> spec_float_eq(#[trigger] decoded@[j], sent),
        decreases len - k,
    {
        k += 1;
    }
    proof {
        lemma_run_char(decoded@, sent, k as int);
    }
    k
}

/// What `grid` keeps of one decoded vector: everything, or everything before
/// the trailing run when the record was padded.
pub open spec fn spec_strip(dec: Seq<u32>, padded: bool) -> Seq<u32> {
    if padded {
        dec.take(dec.len() - spec_trailing_run(dec))
    } else {
        dec
    }
}

/// What `sum` folds of one decoded vector: the vector with its trailing run
/// zeroed when the record was padded and the sentinel is not already a zero.
pub open spec fn spec_zero_padded(dec: Seq<u32>, padded: bool) -> Seq<u32> {
    if padded && dec.len() > 0 && !spec_is_float_zero(dec.last()) {
        dec.take(dec.len() - spec_trailing_run(dec)) + Seq::new(
            spec_trailing_run(dec) as nat,
            |i: int| 0u32,
        )
    } else {
        dec
    }
}

// ----- the decoded stream -----

/// The values `grid` returns for `n` records from cursor `i`: each record's
/// non-padding prefix, concatenated; `None` when any record is corrupt.
pub open spec fn spec_grid_values(bytes: Seq<u8>, n: int, i: int) -> Option<Seq<u32>>
    decreases n,
{
    if n <= 0 {
        Option::Some(Seq::empty())
    } else {
        match spec_decode_record(bytes, i) {
            Option::None => Option::None,
            Option::Some((dec, padded, next)) => match spec_grid_values(bytes, n - 1, next) {
                Option::None => Option::None,
                Option::Some(rest) => Option::Some(spec_strip(dec, padded) + rest),
            },
        }
    }
}

/// The addends `sum` folds for `n` records from cursor `i`: each record's
/// zero-padded vector, concatenated; `None` when any record is corrupt.
pub open spec fn spec_sum_terms(bytes: Seq<u8>, n: int, i: int) -> Option<Seq<u32>>
    decreases n,
{
    if n <= 0 {
        Option::Some(Seq::empty())
    } else {
        match spec_decode_record(bytes, i) {
            Option::None => Option::None,
            Option::Some((dec, padded, next)) => match spec_sum_terms(bytes, n - 1, next) {
                Option::None => Option::None,
                Option::Some(rest) => Option::Some(spec_zero_padded(dec, padded) + rest),
            },
        }
    }
}

/// Materializes a compressed column: the identifier repeated once per
/// timestamp, and every record's values with the trailing padding of a padded
/// record stripped, in write order. One record is read per vector, the count
/// taken from the timestamps. Corrupt input fails with nothing kept.
#[verifier::loop_isolation(false)]
pub fn grid(univariate_id: u64, values: &Vec<u8>, timestamps: &Vec<i64>) -> (r: Result<
    (Vec<u64>, Vec<u32>),
    AlpError,
>)
    ensures
        r is Ok <==> spec_grid_values(
            values@,
            spec_ceil(timestamps@.len() as int, VECTOR_SIZE as int),
            0,
        ) is Some,
        r matches Ok(v) ==> v.0@ == Seq::new(timestamps@.len(), |j: int| univariate_id) && Some(
            v.1@,
        ) == spec_grid_values(values@, spec_ceil(timestamps@.len() as int, VECTOR_SIZE as int), 0),
        r is Err ==> r == Err::<(Vec<u64>, Vec<u32>), AlpError>(AlpError::CorruptInput),
{
    let ts_len = timestamps.len();
    let mut univariate_ids: Vec<u64> = Vec::new();
    let mut i: usize = 0;
    while i < ts_len
        invariant
            i <= ts_len,
            univariate_ids@ == Seq::new(i as nat, |j: int| univariate_id),
        decreases ts_len - i,
    {
        univariate_ids.push(univariate_id);
        i += 1;
        proof {
            assert(univariate_ids@ =~= Seq::new(i as nat, |j: int| univariate_id));
        }
    }
    let num_vectors = ceil(ts_len, VECTOR_SIZE);
    let ghost n = num_vectors as int;
    let mut out_values: Vec<u32> = Vec::new();
    let mut read_bytes: usize = 0;
    let mut t: usize = 0;
    while t < num_vectors
        invariant
            t <= num_vectors,
            n == num_vectors as int,
            spec_grid_values(values@, n - t, read_bytes as int) is Some ==> spec_grid_values(
                values@,
                n,
                0,
            ) == Some(out_values@ + spec_grid_values(values@, n - t, read_bytes as int).unwrap()),
            spec_grid_values(values@, n - t, read_bytes as int) is None ==> spec_grid_values(
                values@,
                n,
                0,
            ) is None,
        decreases num_vectors - t,
    {
        let ghost out_before = out_values@;
        match decode_record(values, read_bytes) {
            Err(e) => {
                proof {
                    assert(spec_grid_values(values@, n - t, read_bytes as int) is None);
                }
                return Err(AlpError::CorruptInput);
            },
            Ok((decoded_floats, is_padded, next)) => {
                let ghost dec = decoded_floats@;
                let take_len = if is_padded {
                    let run = trailing_run_len(&decoded_floats);
                    decoded_floats.len() - run
                } else {
                    decoded_floats.len()
                };
                let mut j: usize = 0;
                while j < take_len
                    invariant
                        decoded_floats@ == dec,
                        take_len <= dec.len(),
                        j <= take_len,
                        out_values@ == out_before + dec.take(j as int),
                    decreases take_len - j,
                {
                    out_values.push(decoded_floats[j]);
                    j += 1;
                    proof {
                        assert(out_values@ =~= out_before + dec.take(j as int));
                    }
                }
                proof {
                    assert(dec.take(take_len as int) =~= spec_strip(dec, is_padded));
                    let g_next = spec_grid_values(values@, n - t - 1, next as int);
                    if g_next is Some {
                        assert(out_values@ + g_next.unwrap() =~= out_before + (spec_strip(
                            dec,
                            is_padded,
                        ) + g_next.unwrap()));
                    }
                }
                read_bytes = next;
                t += 1;
            },
        }
    }
    proof {
        assert(out_values@ + Seq::<u32>::empty() =~= out_values@);
    }
    Ok((univariate_ids, out_values))
}

/// Produces the addends of a compressed column's sum: every record's 1024
/// values, with the trailing run of a padded record zeroed (unless its
/// sentinel is already a zero, which cannot change a sum), in write order.
/// One record is read per vector, the count taken from the column length; the
/// caller folds the addends. Corrupt input fails with nothing kept.
#[verifier::loop_isolation(false)]
pub fn sum(length: usize, values: &Vec<u8>) -> (r: Result<Vec<u32>, AlpError>)
    ensures
        r is Ok <==> spec_sum_terms(
            values@,
            spec_ceil(length as int, VECTOR_SIZE as int),
            0,
        ) is Some,
        r matches Ok(v) ==> Some(v@) == spec_sum_terms(
            values@,
            spec_ceil(length as int, VECTOR_SIZE as int),
            0,
        ),
        r is Err ==> r == Err::<Vec<u32>, AlpError>(AlpError::CorruptInput),
{
    let num_vectors = ceil(length, VECTOR_SIZE);
    let ghost n = num_vectors as int;
    let mut out_values: Vec<u32> = Vec::new();
    let mut read_bytes: usize = 0;
    let mut t: usize = 0;
    while t < num_vectors
        invariant
            t <= num_vectors,
            n == num_vectors as int,
            spec_sum_terms(values@, n - t, read_bytes as int) is Some ==> spec_sum_terms(
                values@,
                n,
                0,
            ) == Some(out_values@ + spec_sum_terms(values@, n - t, read_bytes as int).unwrap()),
            spec_sum_terms(values@, n - t, read_bytes as int) is None ==> spec_sum_terms(
                values@,
                n,
                0,
            ) is None,
        decreases num_vectors - t,
    {
        let ghost out_before = out_values@;
        match decode_record(values, read_bytes) {
            Err(e) => {
                proof {
                    assert(spec_sum_terms(values@, n - t, read_bytes as int) is None);
                }
                return Err(AlpError::CorruptInput);
            },
            Ok((decoded_floats, is_padded, next)) => {
                let mut decoded_floats = decoded_floats;
                let ghost dec = decoded_floats@;
                let len = decoded_floats.len();
                if is_padded {
                    let padded_value = decoded_floats[len - 1];
                    if !is_float_zero_bits(padded_value) {
                        let run = trailing_run_len(&decoded_floats);
                        let mut j: usize = len - run;
                        while j < len
                            invariant
                                len == decoded_floats@.len(),
                                len == dec.len(),
                                run <= len,
                                len - run <= j <= len,
                                run as int == spec_trailing_run(dec),
                                forall|k: int|
                                    0 <= k < len ==> decoded_floats@[k] == if len - run <= k < j {
                                        0u32
                                    } else {
                                        dec[k]
                                    },
                            decreases len - j,
                        {
                            decoded_floats.set(j, 0u32);
                            j += 1;
                        }
                        proof {
                            assert(decoded_floats@ =~= spec_zero_padded(dec, is_padded));
                        }
                    }
                }
                proof {
                    assert(decoded_floats@ =~= spec_zero_padded(dec, is_padded));
                }
                let mut j: usize = 0;
                let ghost zp = decoded_floats@;
                while j < len
                    invariant
                        len == decoded_floats@.len(),
                        decoded_floats@ == zp,
                        j <= len,
                        out_values@ == out_before + zp.take(j as int),
                    decreases len - j,
                {
                    out_values.push(decoded_floats[j]);
                    j += 1;
                    proof {
                        assert(out_values@ =~= out_before + zp.take(j as int));
                    }
                }
                proof {
                    assert(zp.take(len as int) =~= zp);
                    let s_next = spec_sum_terms(values@, n - t - 1, next as int);
                    if s_next is Some {
                        assert(out_values@ + s_next.unwrap() =~= out_before + (spec_zero_padded(
                            dec,
                            is_padded,
                        ) + s_next.unwrap()));
                    }
                }
                read_bytes = next;
                t += 1;
            },
        }
    }
    proof {
        assert(out_values@ + Seq::<u32>::empty() =~= out_values@);
    }
    Ok(out_values)
}

} // verus!
