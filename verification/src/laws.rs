//! The laws of the codec: a written record parses back to the vector it was
//! built from, a lossless column round-trips through `grid` exactly, the
//! running minimum/maximum bound every value fed to the model, and the `sum`
//! and `grid` views of one record agree except for zeroed padding.

use vstd::prelude::*;
use crate::bits::spec_is_nan;
use crate::bits::spec_order_key;
use crate::bits::spec_float_eq;
use crate::bits::spec_is_float_zero;
use crate::bits::spec_min_bits;
use crate::bits::spec_max_bits;
use crate::bits::spec_fold_min;
use crate::bits::spec_fold_max;
use crate::bits::ZERO_BITS;
use crate::bits::ONE_BITS;
use crate::bits::lemma_zero_patterns;
use crate::record::spec_u16_le;
use crate::record::spec_u32s_le;
use crate::record::spec_u16s_le;
use crate::record::spec_i32s_le;
use crate::record::spec_i32_to_u32;
use crate::record::spec_i32_le;
use crate::record::spec_metadata_bytes;
use crate::record::spec_exceptions_bytes;
use crate::record::spec_integers_bytes;
use crate::record::spec_exception_field;
use crate::record::spec_read_metadata;
use crate::record::spec_read_exceptions;
use crate::record::spec_read_encoded_integers;
use crate::record::spec_read_u32s;
use crate::record::spec_read_u16s;
use crate::record::spec_read_i32s;
use crate::record::lemma_u16_round_trip;
use crate::record::lemma_u32_round_trip;
use crate::record::lemma_i32_u32_round_trip;
use crate::record::lemma_u16s_le_len;
use crate::record::lemma_u32s_le_len;
use crate::record::lemma_i32s_le_len;
use crate::record::lemma_u16s_le_index;
use crate::record::lemma_u32s_le_index;
use crate::record::lemma_i32s_le_index;
use crate::transform::spec_encoded_integers;
use crate::transform::spec_exception_values;
use crate::transform::spec_exception_positions;
use crate::transform::spec_min_i32;
use crate::transform::spec_bit_width;
use crate::transform::spec_packed;
use crate::transform::lemma_exceptions;
use crate::transform::lemma_encoded_bounds;
use crate::transform::lemma_transform_round_trip;
use crate::model::spec_vector_record_bytes;
use crate::model::spec_records_from;
use crate::model::spec_sentinel;
use crate::model::spec_padded_column;
use crate::decode::spec_decode_record;
use crate::decode::spec_record_consistent;
use crate::decode::spec_grid_values;
use crate::decode::spec_sum_terms;
use crate::decode::spec_strip;
use crate::decode::spec_zero_padded;
use crate::decode::spec_trailing_run;
use crate::decode::spec_ceil;
use crate::decode::lemma_run_char;
use crate::decode::lemma_run_members;
use crate::VECTOR_SIZE;

verus! {

/// How many bytes one vector's record occupies.
pub open spec fn spec_record_len(v: Seq<u32>) -> int {
    let enc = spec_encoded_integers(v);
    7 + 2 + 6 * (spec_exception_values(v).len() as int) + 2 + 4 * (spec_packed(
        enc,
        spec_bit_width(enc),
        spec_min_i32(enc),
    ).len() as int)
}

proof fn lemma_read_u32s_of(bytes: Seq<u8>, i: int, s: Seq<u32>)
    requires
        0 <= i,
        i + 4 * s.len() <= bytes.len(),
        forall|k: int| 0 <= k < 4 * s.len() ==> bytes[i + k] == spec_u32s_le(s)[k],
    ensures
        spec_read_u32s(bytes, i, s.len() as int) == s,
{
    lemma_u32s_le_len(s);
    assert forall|j: int| 0 <= j < s.len() implies spec_read_u32s(bytes, i, s.len() as int)[j]
        == s[j] by {
        lemma_u32s_le_index(s, j, 0);
        lemma_u32s_le_index(s, j, 1);
        lemma_u32s_le_index(s, j, 2);
        lemma_u32s_le_index(s, j, 3);
        lemma_u32_round_trip(s[j]);
        assert(bytes[i + (4 * j)] == spec_u32s_le(s)[4 * j]);
        assert(bytes[i + (4 * j + 1)] == spec_u32s_le(s)[4 * j + 1]);
        assert(bytes[i + (4 * j + 2)] == spec_u32s_le(s)[4 * j + 2]);
        assert(bytes[i + (4 * j + 3)] == spec_u32s_le(s)[4 * j + 3]);
    }
    assert(spec_read_u32s(bytes, i, s.len() as int) =~= s);
}

proof fn lemma_read_u16s_of(bytes: Seq<u8>, i: int, s: Seq<u16>)
    requires
        0 <= i,
        i + 2 * s.len() <= bytes.len(),
        forall|k: int| 0 <= k < 2 * s.len() ==> bytes[i + k] == spec_u16s_le(s)[k],
    ensures
        spec_read_u16s(bytes, i, s.len() as int) == s,
{
    lemma_u16s_le_len(s);
    assert forall|j: int| 0 <= j < s.len() implies spec_read_u16s(bytes, i, s.len() as int)[j]
        == s[j] by {
        lemma_u16s_le_index(s, j, 0);
        lemma_u16s_le_index(s, j, 1);
        lemma_u16_round_trip(s[j]);
        assert(bytes[i + (2 * j)] == spec_u16s_le(s)[2 * j]);
        assert(bytes[i + (2 * j + 1)] == spec_u16s_le(s)[2 * j + 1]);
    }
    assert(spec_read_u16s(bytes, i, s.len() as int) =~= s);
}

proof fn lemma_read_i32s_of(bytes: Seq<u8>, i: int, s: Seq<i32>)
    requires
        0 <= i,
        i + 4 * s.len() <= bytes.len(),
        forall|k: int| 0 <= k < 4 * s.len() ==> bytes[i + k] == spec_i32s_le(s)[k],
    ensures
        spec_read_i32s(bytes, i, s.len() as int) == s,
{
    lemma_i32s_le_len(s);
    assert forall|j: int| 0 <= j < s.len() implies spec_read_i32s(bytes, i, s.len() as int)[j]
        == s[j] by {
        lemma_i32s_le_index(s, j, 0);
        lemma_i32s_le_index(s, j, 1);
        lemma_i32s_le_index(s, j, 2);
        lemma_i32s_le_index(s, j, 3);
        lemma_u32_round_trip(spec_i32_to_u32(s[j]));
        lemma_i32_u32_round_trip(s[j]);
        assert(bytes[i + (4 * j)] == spec_i32s_le(s)[4 * j]);
        assert(bytes[i + (4 * j + 1)] == spec_i32s_le(s)[4 * j + 1]);
        assert(bytes[i + (4 * j + 2)] == spec_i32s_le(s)[4 * j + 2]);
        assert(bytes[i + (4 * j + 3)] == spec_i32s_le(s)[4 * j + 3]);
    }
    assert(spec_read_i32s(bytes, i, s.len() as int) =~= s);
}

/// One record's byte length is what `spec_record_len` says.
pub proof fn lemma_record_byte_len(v: Seq<u32>, padded: bool, f: u8, e: u8)
    requires
        v.len() == VECTOR_SIZE,
    ensures
        spec_vector_record_bytes(v, padded, f, e).len() == spec_record_len(v),
{
    lemma_exceptions(v);
    lemma_u32s_le_len(spec_exception_values(v));
    lemma_u16s_le_len(spec_exception_positions(v));
    let enc = spec_encoded_integers(v);
    lemma_i32s_le_len(spec_packed(enc, spec_bit_width(enc), spec_min_i32(enc)));
}

/// A record written for any vector parses back, wherever it stands in a
/// stream: the decoded patterns are the vector itself, the padding flag is
/// the one it was written with, and the cursor lands exactly past the record.
#[verifier::rlimit(100)]
#[verifier::spinoff_prover]
pub proof fn lemma_record_parse(v: Seq<u32>, padded: bool, f: u8, e: u8, prefix: Seq<u8>, suffix: Seq<u8>)
    requires
        v.len() == VECTOR_SIZE,
    ensures
        spec_decode_record(
            prefix + spec_vector_record_bytes(v, padded, f, e) + suffix,
            prefix.len() as int,
        ) == Some((v, padded, prefix.len() + spec_record_len(v))),
{
    let enc = spec_encoded_integers(v);
    let base = spec_min_i32(enc);
    let bw = spec_bit_width(enc);
    let exc = spec_exception_values(v);
    let pos = spec_exception_positions(v);
    let packed = spec_packed(enc, bw, base);
    lemma_exceptions(v);
    lemma_encoded_bounds(v);
    let c = exc.len() as int;
    let p = packed.len() as int;
    assert(pos.len() == c);
    assert(c <= 1024);
    assert(p == 0 || p == 1024);
    let m = spec_metadata_bytes(f, e, bw, base);
    let ex = spec_exceptions_bytes(exc, pos, padded);
    let g = spec_integers_bytes(packed);
    let r = spec_vector_record_bytes(v, padded, f, e);
    assert(r == m + ex + g);
    lemma_u32s_le_len(exc);
    lemma_u16s_le_len(pos);
    lemma_i32s_le_len(packed);
    assert(m.len() == 7);
    assert(ex.len() == 2 + 6 * c);
    assert(g.len() == 2 + 4 * p);
    let i = prefix.len() as int;
    let bytes = prefix + r + suffix;
    assert(bytes.len() == prefix.len() + r.len() + suffix.len());
    assert forall|k: int| 0 <= k < r.len() implies bytes[i + k] == r[k] by {
        assert((prefix + r)[i + k] == r[k]);
    }
    // the metadata section
    lemma_u32_round_trip(spec_i32_to_u32(base));
    lemma_i32_u32_round_trip(base);
    assert(r[0] == f);
    assert(r[1] == e);
    assert(r[2] == bw);
    assert(r[3] == spec_i32_le(base)[0]);
    assert(r[4] == spec_i32_le(base)[1]);
    assert(r[5] == spec_i32_le(base)[2]);
    assert(r[6] == spec_i32_le(base)[3]);
    assert(spec_read_metadata(bytes, i) == Some((f, e, bw, base, i + 7)));
    // the exception section
    let field = spec_exception_field(c as u16, padded);
    lemma_u16_round_trip(field);
    assert(r[7] == spec_u16_le(field)[0]);
    assert(r[8] == spec_u16_le(field)[1]);
    assert forall|k: int| 0 <= k < 4 * c implies bytes[(i + 9) + k] == spec_u32s_le(exc)[k] by {
        assert(r[9 + k] == ex[2 + k]);
        assert(ex[2 + k] == spec_u32s_le(exc)[k]);
        assert(bytes[i + (9 + k)] == r[9 + k]);
    }
    lemma_read_u32s_of(bytes, i + 9, exc);
    assert forall|k: int| 0 <= k < 2 * c implies bytes[(i + 9 + 4 * c) + k] == spec_u16s_le(pos)[k]
        by {
        assert(r[9 + 4 * c + k] == ex[2 + 4 * c + k]);
        assert(ex[2 + 4 * c + k] == spec_u16s_le(pos)[k]);
        assert(bytes[i + (9 + 4 * c + k)] == r[9 + 4 * c + k]);
    }
    lemma_read_u16s_of(bytes, i + 9 + 4 * c, pos);
    assert(spec_read_exceptions(bytes, i + 7) == Some(
        (c as u16, exc, pos, i + 9 + 6 * c, padded),
    ));
    // the packed-integer section
    let i2 = i + 9 + 6 * c;
    lemma_u16_round_trip(p as u16);
    assert(r[9 + 6 * c] == g[0]);
    assert(r[9 + 6 * c + 1] == g[1]);
    assert(g[0] == spec_u16_le(p as u16)[0]);
    assert(g[1] == spec_u16_le(p as u16)[1]);
    assert(bytes[i2] == r[9 + 6 * c]);
    assert(bytes[i2 + 1] == r[9 + 6 * c + 1]);
    assert forall|k: int| 0 <= k < 4 * p implies bytes[(i2 + 2) + k] == spec_i32s_le(packed)[k]
        by {
        assert(r[9 + 6 * c + 2 + k] == g[2 + k]);
        assert(g[2 + k] == spec_i32s_le(packed)[k]);
        assert(bytes[i + (9 + 6 * c + 2 + k)] == r[9 + 6 * c + 2 + k]);
    }
    lemma_read_i32s_of(bytes, i2 + 2, packed);
    assert(spec_read_encoded_integers(bytes, i2) == Some((p as u16, packed, i2 + 2 + 4 * p)));
    // consistency and the decoded vector
    assert(spec_record_consistent(bw, base, packed, pos)) by {
        assert(bw == 0 || bw == 32);
        assert(packed.len() == 128 * (bw as int) / 4);
        assert forall|k: int| 0 <= k < packed.len() implies 0 <= #[trigger] packed[k] && base
            + packed[k] <= i32::MAX by {
            assert(spec_encoded_integers(v)[k] - spec_min_i32(spec_encoded_integers(v))
                <= i32::MAX);
        }
    }
    lemma_transform_round_trip(v);
}


/// One unfolding of `spec_grid_values`: a record that decodes, followed by a
/// tail that decodes, makes the whole decode.
proof fn lemma_grid_step(
    bytes: Seq<u8>,
    n_rem: int,
    i: int,
    dec: Seq<u32>,
    flag: bool,
    next: int,
    rest_vals: Seq<u32>,
)
    requires
        n_rem > 0,
        spec_decode_record(bytes, i) == Some((dec, flag, next)),
        spec_grid_values(bytes, n_rem - 1, next) == Some(rest_vals),
    ensures
        spec_grid_values(bytes, n_rem, i) == Some(spec_strip(dec, flag) + rest_vals),
{
}

/// The stream of records of vectors `k .. n`, wherever it stands, decodes
/// through `grid` to the vectors' values with the padding of the last vector
/// stripped: everything from `VECTOR_SIZE * k` up to the real length.
/// Stripping the last vector of a padded column removes exactly its
/// sentinels: the trailing run is the pad count, because every padded slot
/// holds the sentinel and the last real value is not IEEE-equal to it.
proof fn lemma_strip_last_vector(values: Seq<u32>, n: int, real_len: int, sent: u32)
    requires
        n >= 1,
        values.len() == VECTOR_SIZE * n,
        VECTOR_SIZE * (n - 1) < real_len < VECTOR_SIZE * n,
        !spec_is_nan(sent),
        forall|j: int| real_len <= j < values.len() ==> values[j] == sent,
        !spec_float_eq(values[real_len - 1], sent),
    ensures
        spec_strip(values.subrange(VECTOR_SIZE * (n - 1), VECTOR_SIZE * n), true)
            == values.subrange(VECTOR_SIZE * (n - 1), real_len),
        spec_trailing_run(values.subrange(VECTOR_SIZE * (n - 1), VECTOR_SIZE * n))
            == VECTOR_SIZE * n - real_len,
{
    let vk = values.subrange(VECTOR_SIZE * (n - 1), VECTOR_SIZE * n);
    let pad = VECTOR_SIZE * n - real_len;
    assert(1 <= pad < VECTOR_SIZE);
    assert forall|j: int| VECTOR_SIZE - pad <= j < VECTOR_SIZE implies spec_float_eq(
        #[trigger] vk[j],
        sent,
    ) by {
        assert(vk[j] == values[VECTOR_SIZE * (n - 1) + j]);
        assert(VECTOR_SIZE * (n - 1) + j >= real_len);
        assert(values[VECTOR_SIZE * (n - 1) + j] == sent);
    }
    assert(vk.last() == values[VECTOR_SIZE * n - 1]);
    assert(vk.last() == sent);
    assert(vk[VECTOR_SIZE - pad - 1] == values[real_len - 1]);
    lemma_run_char(vk, sent, pad);
    assert(spec_trailing_run(vk) == pad);
    assert(vk.take(VECTOR_SIZE - pad) =~= values.subrange(VECTOR_SIZE * (n - 1), real_len));
}

/// The stream of records of vectors `k .. n`, wherever it stands, decodes
/// through `grid` to the vectors' values with the padding of the last vector
/// stripped: everything from `VECTOR_SIZE * k` up to the real length.
#[verifier::rlimit(100)]
#[verifier::spinoff_prover]
pub proof fn lemma_grid_decodes_records(
    values: Seq<u32>,
    k: int,
    n: int,
    is_padded: bool,
    real_len: int,
    sent: u32,
    f: u8,
    e: u8,
    prefix: Seq<u8>,
    suffix: Seq<u8>,
)
    requires
        0 <= k <= n,
        values.len() == VECTOR_SIZE * n,
        !is_padded ==> real_len == values.len(),
        is_padded ==> {
            &&& VECTOR_SIZE * (n - 1) < real_len < VECTOR_SIZE * n
            &&& !spec_is_nan(sent)
            &&& (forall|j: int| real_len <= j < values.len() ==> values[j] == sent)
            &&& !spec_float_eq(values[real_len - 1], sent)
        },
    ensures
        spec_grid_values(
            prefix + spec_records_from(values, k, n, is_padded, f, e) + suffix,
            n - k,
            prefix.len() as int,
        ) == Some(
            if k < n {
                values.subrange(VECTOR_SIZE * k, real_len)
            } else {
                Seq::<u32>::empty()
            },
        ),
    decreases n - k,
{
    if k >= n {
        assert(prefix + spec_records_from(values, k, n, is_padded, f, e) + suffix =~= prefix
            + suffix);
    } else {
        let vk = values.subrange(VECTOR_SIZE * k, VECTOR_SIZE * (k + 1));
        let flag = is_padded && k == n - 1;
        let rec = spec_vector_record_bytes(vk, flag, f, e);
        let rest = spec_records_from(values, k + 1, n, is_padded, f, e);
        assert(spec_records_from(values, k, n, is_padded, f, e) == rec + rest);
        let bytes = prefix + spec_records_from(values, k, n, is_padded, f, e) + suffix;
        assert(bytes =~= prefix + rec + (rest + suffix));
        assert(vk.len() == VECTOR_SIZE);
        lemma_record_parse(vk, flag, f, e, prefix, rest + suffix);
        lemma_record_byte_len(vk, flag, f, e);
        let next = prefix.len() + spec_record_len(vk);
        assert(spec_decode_record(bytes, prefix.len() as int) == Some((vk, flag, next)));
        let prefix2 = prefix + rec;
        assert(prefix2.len() == next);
        lemma_grid_decodes_records(
            values,
            k + 1,
            n,
            is_padded,
            real_len,
            sent,
            f,
            e,
            prefix2,
            suffix,
        );
        assert(bytes =~= prefix2 + rest + suffix);
        let rest_vals = if k + 1 < n {
            values.subrange(VECTOR_SIZE * (k + 1), real_len)
        } else {
            Seq::<u32>::empty()
        };
        assert(spec_grid_values(bytes, n - k - 1, next) == Some(rest_vals));
        lemma_grid_step(bytes, n - k, prefix.len() as int, vk, flag, next, rest_vals);
        if flag {
            lemma_strip_last_vector(values, n, real_len, sent);
            assert(spec_strip(vk, true) + rest_vals =~= values.subrange(
                VECTOR_SIZE * k,
                real_len,
            ));
        } else {
            assert(spec_strip(vk, false) == vk);
            assert(vk + rest_vals =~= values.subrange(VECTOR_SIZE * k, real_len));
        }
    }
}

/// ROUND TRIP, LOSSLESS: for any nonempty column, padding it, encoding every
/// vector (the last flagged exactly when the length is not a multiple of
/// 1024), and decoding through `grid` yields the column back bit for bit.
pub proof fn lemma_lossless_round_trip(col: Seq<u32>, f: u8, e: u8)
    requires
        0 < col.len(),
    ensures
        ({
            let padded_col = spec_padded_column(col);
            let n = spec_ceil(col.len() as int, VECTOR_SIZE as int);
            let is_padded = col.len() as int % (VECTOR_SIZE as int) != 0;
            spec_grid_values(spec_records_from(padded_col, 0, n, is_padded, f, e), n, 0) == Some(
                col,
            )
        }),
{
    let len = col.len() as int;
    let width = VECTOR_SIZE as int;
    vstd::arithmetic::div_mod::lemma_fundamental_div_mod(len, width);
    let rem = len % width;
    let n = spec_ceil(len, width);
    let padded_col = spec_padded_column(col);
    let empty = Seq::<u8>::empty();
    let recs = spec_records_from(padded_col, 0, n, rem != 0, f, e);
    assert(empty + recs + empty =~= recs);
    if rem == 0 {
        assert(n == len / width);
        assert(padded_col == col);
        assert(padded_col.len() == VECTOR_SIZE * n);
        lemma_grid_decodes_records(padded_col, 0, n, false, len, 0u32, f, e, empty, empty);
        assert(col.subrange(0, len) =~= col);
    } else {
        let sent = spec_sentinel(col);
        lemma_zero_patterns(col.last());
        assert(!spec_is_nan(sent)) by {
            lemma_zero_patterns(ZERO_BITS);
            lemma_zero_patterns(ONE_BITS);
        }
        assert(!spec_float_eq(col.last(), sent)) by {
            if spec_is_float_zero(col.last()) {
                assert(sent == ONE_BITS);
            } else {
                assert(sent == ZERO_BITS);
            }
        }
        assert(n == len / width + 1);
        assert(padded_col.len() == len + (width - rem));
        assert(padded_col.len() == VECTOR_SIZE * n);
        assert(VECTOR_SIZE * (n - 1) < len < VECTOR_SIZE * n);
        assert(forall|j: int| len <= j < padded_col.len() ==> padded_col[j] == sent);
        assert(padded_col[len - 1] == col.last());
        lemma_grid_decodes_records(padded_col, 0, n, true, len, sent, f, e, empty, empty);
        assert(padded_col.subrange(0, len) =~= col);
    }
}

/// One unfolding of `spec_sum_terms`: a record that decodes, followed by a
/// tail that decodes, makes the whole decode.
proof fn lemma_sum_step(
    bytes: Seq<u8>,
    n_rem: int,
    i: int,
    dec: Seq<u32>,
    flag: bool,
    next: int,
    rest_vals: Seq<u32>,
)
    requires
        n_rem > 0,
        spec_decode_record(bytes, i) == Some((dec, flag, next)),
        spec_sum_terms(bytes, n_rem - 1, next) == Some(rest_vals),
    ensures
        spec_sum_terms(bytes, n_rem, i) == Some(spec_zero_padded(dec, flag) + rest_vals),
{
}

/// The values of vectors `k .. n` with every padding slot turned into the
/// zero pattern: what `sum` is owed for them.
pub open spec fn spec_zeroed_tail(values: Seq<u32>, k: int, n: int, real_len: int) -> Seq<u32> {
    Seq::new(
        (VECTOR_SIZE * (n - k)) as nat,
        |j: int|
            if VECTOR_SIZE * k + j < real_len {
                values[VECTOR_SIZE * k + j]
            } else {
                ZERO_BITS
            },
    )
}

/// The stream of records of vectors `k .. n`, wherever it stands, decodes
/// through `sum` to the vectors' values with every padding slot zero: either
/// the decoder zeroes the trailing run, or the sentinel already was zero.
#[verifier::rlimit(100)]
#[verifier::spinoff_prover]
pub proof fn lemma_sum_decodes_records(
    values: Seq<u32>,
    k: int,
    n: int,
    is_padded: bool,
    real_len: int,
    sent: u32,
    f: u8,
    e: u8,
    prefix: Seq<u8>,
    suffix: Seq<u8>,
)
    requires
        0 <= k <= n,
        values.len() == VECTOR_SIZE * n,
        !is_padded ==> real_len == values.len(),
        is_padded ==> {
            &&& VECTOR_SIZE * (n - 1) < real_len < VECTOR_SIZE * n
            &&& !spec_is_nan(sent)
            &&& (forall|j: int| real_len <= j < values.len() ==> values[j] == sent)
            &&& !spec_float_eq(values[real_len - 1], sent)
            &&& (spec_is_float_zero(sent) ==> sent == ZERO_BITS)
        },
    ensures
        spec_sum_terms(
            prefix + spec_records_from(values, k, n, is_padded, f, e) + suffix,
            n - k,
            prefix.len() as int,
        ) == Some(spec_zeroed_tail(values, k, n, real_len)),
    decreases n - k,
{
    if k >= n {
        assert(prefix + spec_records_from(values, k, n, is_padded, f, e) + suffix =~= prefix
            + suffix);
        assert(spec_zeroed_tail(values, k, n, real_len) =~= Seq::<u32>::empty());
    } else {
        let vk = values.subrange(VECTOR_SIZE * k, VECTOR_SIZE * (k + 1));
        let flag = is_padded && k == n - 1;
        let rec = spec_vector_record_bytes(vk, flag, f, e);
        let rest = spec_records_from(values, k + 1, n, is_padded, f, e);
        assert(spec_records_from(values, k, n, is_padded, f, e) == rec + rest);
        let bytes = prefix + spec_records_from(values, k, n, is_padded, f, e) + suffix;
        assert(bytes =~= prefix + rec + (rest + suffix));
        assert(vk.len() == VECTOR_SIZE);
        lemma_record_parse(vk, flag, f, e, prefix, rest + suffix);
        lemma_record_byte_len(vk, flag, f, e);
        let next = prefix.len() + spec_record_len(vk);
        assert(spec_decode_record(bytes, prefix.len() as int) == Some((vk, flag, next)));
        let prefix2 = prefix + rec;
        assert(prefix2.len() == next);
        lemma_sum_decodes_records(
            values,
            k + 1,
            n,
            is_padded,
            real_len,
            sent,
            f,
            e,
            prefix2,
            suffix,
        );
        assert(bytes =~= prefix2 + rest + suffix);
        let rest_vals = spec_zeroed_tail(values, k + 1, n, real_len);
        assert(spec_sum_terms(bytes, n - k - 1, next) == Some(rest_vals));
        lemma_sum_step(bytes, n - k, prefix.len() as int, vk, flag, next, rest_vals);
        if flag {
            let pad = VECTOR_SIZE * n - real_len;
            lemma_strip_last_vector(values, n, real_len, sent);
            assert(vk.last() == values[VECTOR_SIZE * n - 1]);
            assert(vk.last() == sent);
            if spec_is_float_zero(sent) {
                assert(spec_zero_padded(vk, true) == vk);
                assert forall|j: int| VECTOR_SIZE - pad <= j < VECTOR_SIZE implies #[trigger] vk[j]
                    == ZERO_BITS by {
                    assert(vk[j] == values[VECTOR_SIZE * k + j]);
                    assert(VECTOR_SIZE * k + j >= real_len);
                }
                assert(spec_zero_padded(vk, true) + rest_vals =~= spec_zeroed_tail(
                    values,
                    k,
                    n,
                    real_len,
                ));
            } else {
                assert(spec_zero_padded(vk, true) == vk.take(VECTOR_SIZE - pad) + Seq::new(
                    pad as nat,
                    |i: int| 0u32,
                ));
                assert(spec_zero_padded(vk, true) + rest_vals =~= spec_zeroed_tail(
                    values,
                    k,
                    n,
                    real_len,
                ));
            }
        } else {
            assert(spec_zero_padded(vk, false) == vk);
            assert(vk + rest_vals =~= spec_zeroed_tail(values, k, n, real_len));
        }
    }
}

/// SUM ROUND TRIP, LOSSLESS: for any nonempty column, the addends `sum`
/// produces from the encoded records are exactly the column's values
/// followed by zero patterns, which leave the total untouched.
pub proof fn lemma_lossless_sum_round_trip(col: Seq<u32>, f: u8, e: u8)
    requires
        0 < col.len(),
    ensures
        ({
            let padded_col = spec_padded_column(col);
            let n = spec_ceil(col.len() as int, VECTOR_SIZE as int);
            let is_padded = col.len() as int % (VECTOR_SIZE as int) != 0;
            spec_sum_terms(spec_records_from(padded_col, 0, n, is_padded, f, e), n, 0) == Some(
                col + Seq::new((VECTOR_SIZE * n - col.len()) as nat, |i: int| ZERO_BITS),
            )
        }),
{
    let len = col.len() as int;
    let width = VECTOR_SIZE as int;
    vstd::arithmetic::div_mod::lemma_fundamental_div_mod(len, width);
    let rem = len % width;
    let n = spec_ceil(len, width);
    let padded_col = spec_padded_column(col);
    let empty = Seq::<u8>::empty();
    let recs = spec_records_from(padded_col, 0, n, rem != 0, f, e);
    assert(empty + recs + empty =~= recs);
    if rem == 0 {
        assert(n == len / width);
        assert(padded_col == col);
        assert(padded_col.len() == VECTOR_SIZE * n);
        lemma_sum_decodes_records(padded_col, 0, n, false, len, 0u32, f, e, empty, empty);
        assert(spec_zeroed_tail(padded_col, 0, n, len) =~= col + Seq::new(
            (VECTOR_SIZE * n - len) as nat,
            |i: int| ZERO_BITS,
        ));
    } else {
        let sent = spec_sentinel(col);
        lemma_zero_patterns(col.last());
        assert(!spec_is_nan(sent)) by {
            lemma_zero_patterns(ZERO_BITS);
            lemma_zero_patterns(ONE_BITS);
        }
        assert(!spec_float_eq(col.last(), sent)) by {
            if spec_is_float_zero(col.last()) {
                assert(sent == ONE_BITS);
            } else {
                assert(sent == ZERO_BITS);
            }
        }
        assert(spec_is_float_zero(sent) ==> sent == ZERO_BITS) by {
            lemma_zero_patterns(ONE_BITS);
        }
        assert(n == len / width + 1);
        assert(padded_col.len() == VECTOR_SIZE * n);
        assert(VECTOR_SIZE * (n - 1) < len < VECTOR_SIZE * n);
        assert(forall|j: int| len <= j < padded_col.len() ==> padded_col[j] == sent);
        assert(padded_col[len - 1] == col.last());
        lemma_sum_decodes_records(padded_col, 0, n, true, len, sent, f, e, empty, empty);
        assert(spec_zeroed_tail(padded_col, 0, n, len) =~= col + Seq::new(
            (VECTOR_SIZE * n - len) as nat,
            |i: int| ZERO_BITS,
        ));
    }
}

/// The padding flags of `n` records from cursor `i`, in order; `None` when
/// any record is corrupt.
pub open spec fn spec_record_flags(bytes: Seq<u8>, n: int, i: int) -> Option<Seq<bool>>
    decreases n,
{
    if n <= 0 {
        Option::Some(Seq::empty())
    } else {
        match spec_decode_record(bytes, i) {
            Option::None => Option::None,
            Option::Some((dec, padded, next)) => match spec_record_flags(bytes, n - 1, next) {
                Option::None => Option::None,
                Option::Some(rest) => Option::Some(seq![padded] + rest),
            },
        }
    }
}

/// PADDING FLAG PLACEMENT: in the stream of records of vectors `k .. n` of a
/// padded column, wherever it stands, the padding flag sits on the final
/// record exactly when the column was padded, and on no other.
#[verifier::rlimit(100)]
#[verifier::spinoff_prover]
pub proof fn lemma_padding_flag_placement(
    values: Seq<u32>,
    k: int,
    n: int,
    is_padded: bool,
    f: u8,
    e: u8,
    prefix: Seq<u8>,
    suffix: Seq<u8>,
)
    requires
        0 <= k <= n,
        values.len() == VECTOR_SIZE * n,
    ensures
        spec_record_flags(
            prefix + spec_records_from(values, k, n, is_padded, f, e) + suffix,
            n - k,
            prefix.len() as int,
        ) == Some(Seq::new((n - k) as nat, |j: int| is_padded && k + j == n - 1)),
    decreases n - k,
{
    if k >= n {
        assert(prefix + spec_records_from(values, k, n, is_padded, f, e) + suffix =~= prefix
            + suffix);
        assert(Seq::new((n - k) as nat, |j: int| is_padded && k + j == n - 1)
            =~= Seq::<bool>::empty());
    } else {
        let vk = values.subrange(VECTOR_SIZE * k, VECTOR_SIZE * (k + 1));
        let flag = is_padded && k == n - 1;
        let rec = spec_vector_record_bytes(vk, flag, f, e);
        let rest = spec_records_from(values, k + 1, n, is_padded, f, e);
        assert(spec_records_from(values, k, n, is_padded, f, e) == rec + rest);
        let bytes = prefix + spec_records_from(values, k, n, is_padded, f, e) + suffix;
        assert(bytes =~= prefix + rec + (rest + suffix));
        assert(vk.len() == VECTOR_SIZE);
        lemma_record_parse(vk, flag, f, e, prefix, rest + suffix);
        lemma_record_byte_len(vk, flag, f, e);
        let next = prefix.len() + spec_record_len(vk);
        assert(spec_decode_record(bytes, prefix.len() as int) == Some((vk, flag, next)));
        let prefix2 = prefix + rec;
        assert(prefix2.len() == next);
        lemma_padding_flag_placement(values, k + 1, n, is_padded, f, e, prefix2, suffix);
        assert(bytes =~= prefix2 + rest + suffix);
        let rest_flags = Seq::new((n - k - 1) as nat, |j: int| is_padded && k + 1 + j == n - 1);
        assert(spec_record_flags(bytes, n - k - 1, next) == Some(rest_flags));
        assert(seq![flag] + rest_flags =~= Seq::new(
            (n - k) as nat,
            |j: int| is_padded && k + j == n - 1,
        ));
    }
}

/// MIN/MAX SOUNDNESS: after folding a slice into the running minimum and
/// maximum, the minimum sits at or below every non-NaN value of the slice in
/// the IEEE order and the maximum at or above it, and each is either its
/// starting value or a value of the slice, never an invented one.
pub proof fn lemma_min_max_sound(init_min: u32, init_max: u32, s: Seq<u32>)
    ensures
        forall|i: int|
            0 <= i < s.len() && !spec_is_nan(s[i]) ==> {
                &&& !spec_is_nan(spec_fold_min(init_min, s))
                &&& spec_order_key(spec_fold_min(init_min, s)) <= spec_order_key(s[i])
                &&& !spec_is_nan(spec_fold_max(init_max, s))
                &&& spec_order_key(s[i]) <= spec_order_key(spec_fold_max(init_max, s))
            },
        spec_fold_min(init_min, s) == init_min || exists|i: int|
            0 <= i < s.len() && s[i] == spec_fold_min(init_min, s),
        spec_fold_max(init_max, s) == init_max || exists|i: int|
            0 <= i < s.len() && s[i] == spec_fold_max(init_max, s),
    decreases s.len(),
{
    if s.len() > 0 {
        let front = s.drop_last();
        lemma_min_max_sound(init_min, init_max, front);
        assert(forall|i: int| 0 <= i < front.len() ==> front[i] == s[i]);
        let mn = spec_fold_min(init_min, s);
        let mx = spec_fold_max(init_max, s);
        let fmn = spec_fold_min(init_min, front);
        let fmx = spec_fold_max(init_max, front);
        assert(mn == spec_min_bits(fmn, s.last()));
        assert(mx == spec_max_bits(fmx, s.last()));
        assert forall|i: int| 0 <= i < s.len() && !spec_is_nan(s[i]) implies {
            &&& !spec_is_nan(mn)
            &&& spec_order_key(mn) <= spec_order_key(s[i])
            &&& !spec_is_nan(mx)
            &&& spec_order_key(s[i]) <= spec_order_key(mx)
        } by {
            if i < s.len() - 1 {
                assert(!spec_is_nan(front[i]));
                assert(!spec_is_nan(fmn) && spec_order_key(fmn) <= spec_order_key(front[i]));
                assert(!spec_is_nan(fmx) && spec_order_key(front[i]) <= spec_order_key(fmx));
            }
        }
        if mn == fmn {
            if !(fmn == init_min) {
                let w = choose|i: int| 0 <= i < front.len() && front[i] == fmn;
                assert(s[w] == mn);
            }
        } else {
            assert(s[s.len() - 1] == mn);
        }
        if mx == fmx {
            if !(fmx == init_max) {
                let w = choose|i: int| 0 <= i < front.len() && front[i] == fmx;
                assert(s[w] == mx);
            }
        } else {
            assert(s[s.len() - 1] == mx);
        }
    }
}

/// SUM AND GRID AGREE, RECORD BY RECORD: the addends `sum` folds for one
/// decoded vector are exactly the values `grid` keeps of it, followed only by
/// zero-valued patterns, which cannot change a sum.
pub proof fn lemma_sum_grid_record(dec: Seq<u32>, padded: bool)
    requires
        dec.len() > 0,
    ensures
        spec_zero_padded(dec, padded).len() == dec.len(),
        0 <= spec_strip(dec, padded).len() <= dec.len(),
        spec_zero_padded(dec, padded).take(spec_strip(dec, padded).len() as int) == spec_strip(
            dec,
            padded,
        ),
        forall|j: int|
            spec_strip(dec, padded).len() <= j < dec.len() ==> spec_is_float_zero(
                #[trigger] spec_zero_padded(dec, padded)[j],
            ),
{
    if padded {
        lemma_run_members(dec, dec.last());
        let run = spec_trailing_run(dec);
        if !spec_is_float_zero(dec.last()) {
            assert(spec_zero_padded(dec, padded).len() == dec.len());
            assert(spec_zero_padded(dec, padded).take(dec.len() - run) =~= spec_strip(
                dec,
                padded,
            ));
            assert forall|j: int| dec.len() - run <= j < dec.len() implies spec_is_float_zero(
                #[trigger] spec_zero_padded(dec, padded)[j],
            ) by {
                assert(spec_zero_padded(dec, padded)[j] == 0u32);
                lemma_zero_patterns(0u32);
            }
        } else {
            assert(spec_zero_padded(dec, padded) == dec);
            assert(dec.take(dec.len() - run) =~= spec_strip(dec, padded));
            assert forall|j: int| dec.len() - run <= j < dec.len() implies spec_is_float_zero(
                #[trigger] spec_zero_padded(dec, padded)[j],
            ) by {
                assert(spec_float_eq(dec[j], dec.last()));
                lemma_zero_patterns(dec.last());
                lemma_zero_patterns(dec[j]);
            }
        }
    } else {
        assert(dec.take(dec.len() as int) =~= dec);
    }
}

/// SUM AND GRID AGREE ON WHAT PARSES: over any byte stream and record count,
/// the two decode paths accept and reject exactly the same inputs.
pub proof fn lemma_sum_grid_same_domain(bytes: Seq<u8>, n: int, i: int)
    ensures
        spec_sum_terms(bytes, n, i) is Some <==> spec_grid_values(bytes, n, i) is Some,
    decreases n,
{
    if n > 0 {
        match spec_decode_record(bytes, i) {
            Option::None => {},
            Option::Some((dec, padded, next)) => {
                lemma_sum_grid_same_domain(bytes, n - 1, next);
            },
        }
    }
}

} // verus!
