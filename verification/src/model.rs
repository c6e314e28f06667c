//! The compression model: column decomposition and padding, the running
//! minimum/maximum, and the writer that turns each vector into one record.

use vstd::prelude::*;
use crate::bits::NAN_BITS;
use crate::bits::ZERO_BITS;
use crate::bits::ONE_BITS;
use crate::bits::spec_fold_min;
use crate::bits::spec_fold_max;
use crate::bits::spec_float_lt;
use crate::bits::spec_is_float_zero;
use crate::bits::min_bits;
use crate::bits::max_bits;
use crate::bits::float_lt_bits;
use crate::bits::is_float_zero_bits;
use crate::bound::ErrorBound;
use crate::bound::spec_is_lossless;
use crate::bound::is_lossless_compression;
use crate::record::spec_metadata_bytes;
use crate::record::spec_exceptions_bytes;
use crate::record::spec_integers_bytes;
use crate::record::spec_exception_field;
use crate::record::spec_u16_le;
use crate::record::spec_u32s_le;
use crate::record::spec_u16s_le;
use crate::record::spec_i32s_le;
use crate::record::push_u16_le;
use crate::record::push_u32_le;
use crate::record::push_i32_le;
use crate::record::lemma_u32s_le_push;
use crate::record::lemma_u16s_le_push;
use crate::record::lemma_i32s_le_push;
use crate::transform::TransformState;
use crate::transform::spec_encoded_integers;
use crate::transform::spec_exception_values;
use crate::transform::spec_exception_positions;
use crate::transform::spec_min_i32;
use crate::transform::spec_bit_width;
use crate::transform::spec_packed;
use crate::transform::alp_encode;
use crate::transform::alp_analyze_ffor;
use crate::transform::fastlanes_ffor;
use crate::transform::can_use_alp;
use crate::transform::lemma_encoded_bounds;
use crate::AlpError;
use crate::VECTOR_SIZE;
use crate::ROWGROUP_SIZE;
use crate::MAGIC_NUMBER;

verus! {

// ----- column decomposition and padding -----

fn copy_vec(v: &Vec<u32>) -> (r: Vec<u32>)
    ensures
        r@ == v@,
{
    let mut out: Vec<u32> = Vec::new();
    let end = v.len();
    let mut i: usize = 0;
    while i < end
        invariant
            end == v@.len(),
            i <= end,
            out@ == v@.take(i as int),
        decreases end - i,
    {
        out.push(v[i]);
        i += 1;
        proof {
            assert(out@ =~= v@.take(i as int));
        }
    }
    proof {
        assert(v@.take(end as int) =~= v@);
    }
    out
}

/// The half-open slice of a column belonging to row-group `rowgroup_id`,
/// closed at the column's end for the final group. The caller guarantees the
/// group starts inside the column.
pub fn get_rowgroup(rowgroup_id: usize, rowgroups: &Vec<u32>) -> (r: Vec<u32>)
    requires
        rowgroup_id * ROWGROUP_SIZE <= rowgroups@.len(),
    ensures
        r@ == rowgroups@.subrange(
            (rowgroup_id * ROWGROUP_SIZE) as int,
            if (rowgroup_id * ROWGROUP_SIZE + ROWGROUP_SIZE) <= rowgroups@.len() {
                (rowgroup_id * ROWGROUP_SIZE + ROWGROUP_SIZE) as int
            } else {
                rowgroups@.len() as int
            },
        ),
{
    let len = rowgroups.len();
    let start = rowgroup_id * ROWGROUP_SIZE;
    let upper_bound = if len - start >= ROWGROUP_SIZE {
        start + ROWGROUP_SIZE
    } else {
        len
    };
    let mut out: Vec<u32> = Vec::new();
    let mut i: usize = start;
    while i < upper_bound
        invariant
            start <= i <= upper_bound <= rowgroups@.len(),
            out@ == rowgroups@.subrange(start as int, i as int),
        decreases upper_bound - i,
    {
        out.push(rowgroups[i]);
        i += 1;
        proof {
            assert(out@ =~= rowgroups@.subrange(start as int, i as int));
        }
    }
    out
}

/// The exact 1024-wide slice for vector `vector_id` of a row-group already
/// padded to a multiple of 1024.
pub fn get_rowgroup_vector(vector_id: usize, rowgroup: &Vec<u32>) -> (r: Vec<u32>)
    requires
        vector_id * VECTOR_SIZE + VECTOR_SIZE <= rowgroup@.len(),
    ensures
        r@ == rowgroup@.subrange(
            (vector_id * VECTOR_SIZE) as int,
            (vector_id * VECTOR_SIZE + VECTOR_SIZE) as int,
        ),
{
    // Binds the vector's length so the slice arithmetic is known to fit.
    let len = rowgroup.len();
    let start = vector_id * VECTOR_SIZE;
    let end = start + VECTOR_SIZE;
    let mut out: Vec<u32> = Vec::new();
    let mut i: usize = start;
    while i < end
        invariant
            start <= i <= end <= rowgroup@.len(),
            out@ == rowgroup@.subrange(start as int, i as int),
        decreases end - i,
    {
        out.push(rowgroup[i]);
        i += 1;
        proof {
            assert(out@ =~= rowgroup@.subrange(start as int, i as int));
        }
    }
    out
}

/// The sentinel a short column is padded with: 0.0, unless the last real
/// value is itself a zero, in which case 1.0, so the sentinel always differs
/// from the last real value under IEEE equality.
pub open spec fn spec_sentinel(col: Seq<u32>) -> u32
    recommends
        col.len() > 0,
{
    if spec_is_float_zero(col.last()) {
        ONE_BITS
    } else {
        ZERO_BITS
    }
}

/// The column filled out to a multiple of 1024 with its sentinel; unchanged
/// when the length already is one.
pub open spec fn spec_padded_column(col: Seq<u32>) -> Seq<u32> {
    if col.len() as int % (VECTOR_SIZE as int) == 0 {
        col
    } else {
        col + Seq::new(
            (VECTOR_SIZE as int - col.len() as int % (VECTOR_SIZE as int)) as nat,
            |i: int| spec_sentinel(col),
        )
    }
}

/// Fills the column out to a whole number of vectors. When the length is not
/// a multiple of 1024 the sentinel is appended and `is_padded` is set;
/// otherwise the column is returned unchanged and the flag is left alone.
pub fn perform_padding(current_rowgroup: &Vec<u32>, is_padded: &mut bool) -> (r: Vec<u32>)
    ensures
        r@ == spec_padded_column(current_rowgroup@),
        *final(is_padded) == if current_rowgroup@.len() as int % (VECTOR_SIZE as int) == 0 {
            *old(is_padded)
        } else {
            true
        },
{
    let len = current_rowgroup.len();
    let mut out = copy_vec(current_rowgroup);
    if len % VECTOR_SIZE == 0 {
        return out;
    }
    *is_padded = true;
    let sentinel = if !is_float_zero_bits(current_rowgroup[len - 1]) {
        ZERO_BITS
    } else {
        ONE_BITS
    };
    let num_values_to_be_padded = VECTOR_SIZE - (len % VECTOR_SIZE);
    let mut j: usize = 0;
    while j < num_values_to_be_padded
        invariant
            j <= num_values_to_be_padded,
            current_rowgroup@.len() > 0,
            sentinel == spec_sentinel(current_rowgroup@),
            out@ == current_rowgroup@ + Seq::new(j as nat, |i: int| spec_sentinel(current_rowgroup@)),
        decreases num_values_to_be_padded - j,
    {
        out.push(sentinel);
        j += 1;
        proof {
            assert(out@ =~= current_rowgroup@ + Seq::new(
                j as nat,
                |i: int| spec_sentinel(current_rowgroup@),
            ));
        }
    }
    out
}

// ----- one vector's record, and a run of records -----

/// The serialized record of one vector under this codec's transform.
pub open spec fn spec_vector_record_bytes(v: Seq<u32>, padded: bool, factor: u8, exponent: u8) -> Seq<u8> {
    let enc = spec_encoded_integers(v);
    let base = spec_min_i32(enc);
    let bw = spec_bit_width(enc);
    spec_metadata_bytes(factor, exponent, bw, base) + spec_exceptions_bytes(
        spec_exception_values(v),
        spec_exception_positions(v),
        padded,
    ) + spec_integers_bytes(spec_packed(enc, bw, base))
}

/// The records of vectors `k .. n` of a padded column, in order; only the
/// last record of a padded column carries the padding flag.
pub open spec fn spec_records_from(
    values: Seq<u32>,
    k: int,
    n: int,
    is_padded: bool,
    factor: u8,
    exponent: u8,
) -> Seq<u8>
    decreases n - k,
{
    if k < 0 || k >= n {
        Seq::empty()
    } else {
        spec_vector_record_bytes(
            values.subrange(VECTOR_SIZE * k, VECTOR_SIZE * (k + 1)),
            is_padded && k == n - 1,
            factor,
            exponent,
        ) + spec_records_from(values, k + 1, n, is_padded, factor, exponent)
    }
}

// ----- the model -----

/// One column's compression in progress: the chosen bound, the running
/// minimum and maximum over every value fed in (as bit patterns, NaN while
/// unset), and the growing record buffer.
pub struct ALP {
    pub error_bound: ErrorBound,
    pub min_value: u32,
    pub max_value: u32,
    pub compressed_values: Vec<u8>,
}

impl ALP {
    /// A fresh model for one column with the given error bound.
    pub fn new(error_bound: ErrorBound) -> (r: Self)
        ensures
            r.error_bound == error_bound,
            r.min_value == NAN_BITS,
            r.max_value == NAN_BITS,
            r.compressed_values@ == Seq::<u8>::empty(),
    {
        ALP { error_bound, min_value: NAN_BITS, max_value: NAN_BITS, compressed_values: Vec::new() }
    }

    fn write_metadata(&mut self, factor: u8, exponent: u8, bit_width: u8, base_arr: i32)
        ensures
            final(self).compressed_values@ == old(self).compressed_values@ + spec_metadata_bytes(
                factor,
                exponent,
                bit_width,
                base_arr,
            ),
            final(self).error_bound == old(self).error_bound,
            final(self).min_value == old(self).min_value,
            final(self).max_value == old(self).max_value,
    {
        self.compressed_values.push(factor);
        self.compressed_values.push(exponent);
        self.compressed_values.push(bit_width);
        push_i32_le(&mut self.compressed_values, base_arr);
        proof {
            assert(self.compressed_values@ =~= old(self).compressed_values@ + spec_metadata_bytes(
                factor,
                exponent,
                bit_width,
                base_arr,
            ));
        }
    }

    fn write_exceptions(
        &mut self,
        exception_cnt: u16,
        exceptions: &Vec<u32>,
        exceptions_positions: &Vec<u16>,
        do_padding: bool,
    )
        requires
            exception_cnt as int == exceptions@.len(),
            exceptions@.len() == exceptions_positions@.len(),
            exception_cnt <= 1024,
        ensures
            final(self).compressed_values@ == old(self).compressed_values@ + spec_exceptions_bytes(
                exceptions@,
                exceptions_positions@,
                do_padding,
            ),
            final(self).error_bound == old(self).error_bound,
            final(self).min_value == old(self).min_value,
            final(self).max_value == old(self).max_value,
    {
        let field = if do_padding {
            exception_cnt + MAGIC_NUMBER
        } else {
            exception_cnt
        };
        assert(field == spec_exception_field(exceptions@.len() as u16, do_padding));
        push_u16_le(&mut self.compressed_values, field);
        let end = exceptions.len();
        let mut i: usize = 0;
        while i < end
            invariant
                end == exceptions@.len(),
                i <= end,
                field == spec_exception_field(exceptions@.len() as u16, do_padding),
                self.compressed_values@ == old(self).compressed_values@ + spec_u16_le(field)
                    + spec_u32s_le(exceptions@.take(i as int)),
                self.error_bound == old(self).error_bound,
                self.min_value == old(self).min_value,
                self.max_value == old(self).max_value,
            decreases end - i,
        {
            push_u32_le(&mut self.compressed_values, exceptions[i]);
            proof {
                lemma_u32s_le_push(exceptions@.take(i as int), exceptions@[i as int]);
                assert(exceptions@.take(i + 1) =~= exceptions@.take(i as int).push(
                    exceptions@[i as int],
                ));
                assert(self.compressed_values@ =~= old(self).compressed_values@ + spec_u16_le(field)
                    + spec_u32s_le(exceptions@.take(i + 1)));
            }
            i += 1;
        }
        proof {
            assert(exceptions@.take(end as int) =~= exceptions@);
        }
        let mut i: usize = 0;
        while i < end
            invariant
                end == exceptions@.len(),
                end == exceptions_positions@.len(),
                i <= end,
                field == spec_exception_field(exceptions@.len() as u16, do_padding),
                self.compressed_values@ == old(self).compressed_values@ + spec_u16_le(field)
                    + spec_u32s_le(exceptions@) + spec_u16s_le(exceptions_positions@.take(i as int)),
                self.error_bound == old(self).error_bound,
                self.min_value == old(self).min_value,
                self.max_value == old(self).max_value,
            decreases end - i,
        {
            push_u16_le(&mut self.compressed_values, exceptions_positions[i]);
            proof {
                lemma_u16s_le_push(
                    exceptions_positions@.take(i as int),
                    exceptions_positions@[i as int],
                );
                assert(exceptions_positions@.take(i + 1) =~= exceptions_positions@.take(
                    i as int,
                ).push(exceptions_positions@[i as int]));
                assert(self.compressed_values@ =~= old(self).compressed_values@ + spec_u16_le(field)
                    + spec_u32s_le(exceptions@) + spec_u16s_le(exceptions_positions@.take(i + 1)));
            }
            i += 1;
        }
        proof {
            assert(exceptions_positions@.take(end as int) =~= exceptions_positions@);
            assert(self.compressed_values@ =~= old(self).compressed_values@ + spec_exceptions_bytes(
                exceptions@,
                exceptions_positions@,
                do_padding,
            ));
        }
    }

    fn write_encoded_integers(&mut self, ffor_count: u16, ffor_arr: &Vec<i32>)
        requires
            ffor_count as int == ffor_arr@.len(),
        ensures
            final(self).compressed_values@ == old(self).compressed_values@ + spec_integers_bytes(
                ffor_arr@,
            ),
            final(self).error_bound == old(self).error_bound,
            final(self).min_value == old(self).min_value,
            final(self).max_value == old(self).max_value,
    {
        push_u16_le(&mut self.compressed_values, ffor_count);
        let end = ffor_arr.len();
        let mut i: usize = 0;
        while i < end
            invariant
                end == ffor_arr@.len(),
                end == ffor_count,
                i <= end,
                self.compressed_values@ == old(self).compressed_values@ + spec_u16_le(ffor_count)
                    + spec_i32s_le(ffor_arr@.take(i as int)),
                self.error_bound == old(self).error_bound,
                self.min_value == old(self).min_value,
                self.max_value == old(self).max_value,
            decreases end - i,
        {
            push_i32_le(&mut self.compressed_values, ffor_arr[i]);
            proof {
                lemma_i32s_le_push(ffor_arr@.take(i as int), ffor_arr@[i as int]);
                assert(ffor_arr@.take(i + 1) =~= ffor_arr@.take(i as int).push(
                    ffor_arr@[i as int],
                ));
                assert(self.compressed_values@ =~= old(self).compressed_values@ + spec_u16_le(
                    ffor_count,
                ) + spec_i32s_le(ffor_arr@.take(i + 1)));
            }
            i += 1;
        }
        proof {
            assert(ffor_arr@.take(end as int) =~= ffor_arr@);
            assert(self.compressed_values@ =~= old(self).compressed_values@ + spec_integers_bytes(
                ffor_arr@,
            ));
        }
    }

    /// Folds every value of the slice into the running minimum and maximum
    /// (from the value as given, before any rewriting), and returns the
    /// values the records will be built from: the slice itself under a
    /// lossless bound, the caller's rewritten slice otherwise.
    pub fn rewrite_values_and_update_min_max_value(
        &mut self,
        values: &Vec<u32>,
        lossy_rewritten: &Vec<u32>,
    ) -> (r: Vec<u32>)
        requires
            lossy_rewritten@.len() == values@.len(),
        ensures
            final(self).min_value == spec_fold_min(old(self).min_value, values@),
            final(self).max_value == spec_fold_max(old(self).max_value, values@),
            final(self).error_bound == old(self).error_bound,
            final(self).compressed_values == old(self).compressed_values,
            r@ == if spec_is_lossless(old(self).error_bound) {
                values@
            } else {
                lossy_rewritten@
            },
    {
        let end = values.len();
        let mut i: usize = 0;
        while i < end
            invariant
                end == values@.len(),
                i <= end,
                self.min_value == spec_fold_min(old(self).min_value, values@.take(i as int)),
                self.max_value == spec_fold_max(old(self).max_value, values@.take(i as int)),
                self.error_bound == old(self).error_bound,
                self.compressed_values == old(self).compressed_values,
            decreases end - i,
        {
            let v = values[i];
            proof {
                assert(values@.take(i + 1).drop_last() =~= values@.take(i as int));
                assert(values@.take(i + 1).last() == v);
            }
            self.min_value = min_bits(self.min_value, v);
            self.max_value = max_bits(self.max_value, v);
            i += 1;
        }
        proof {
            assert(values@.take(end as int) =~= values@);
        }
        if is_lossless_compression(self.error_bound) {
            copy_vec(values)
        } else {
            copy_vec(lossy_rewritten)
        }
    }

    /// Biases one vector's values toward its minimum `m` so the transform
    /// packs smaller offsets, within the error bound. For each value: with no
    /// whole unit of allowed deviation (`deviation_floors` zero) it is kept;
    /// within the allowed deviation of `m` (`within_deviation`) it snaps to
    /// `m`; above `m` it is nudged down by the allowed deviation (the
    /// caller's `nudged` value); below `m` it snaps to `m`. The caller
    /// computes the three per-value inputs from the bound's policy.
    pub fn move_towards_mean(
        &self,
        values: &Vec<u32>,
        deviation_floors: &Vec<u64>,
        within_deviation: &Vec<bool>,
        nudged: &Vec<u32>,
    ) -> (r: Vec<u32>)
        requires
            values@.len() == VECTOR_SIZE,
            deviation_floors@.len() == VECTOR_SIZE,
            within_deviation@.len() == VECTOR_SIZE,
            nudged@.len() == VECTOR_SIZE,
        ensures
            r@.len() == VECTOR_SIZE,
            forall|i: int|
                0 <= i < VECTOR_SIZE ==> r@[i] == spec_moved_value(
                    values@,
                    deviation_floors@,
                    within_deviation@,
                    nudged@,
                    i,
                ),
    {
        let mut m: u32 = NAN_BITS;
        let end = values.len();
        let mut i: usize = 0;
        while i < end
            invariant
                end == values@.len(),
                i <= end,
                m == spec_fold_min(NAN_BITS, values@.take(i as int)),
            decreases end - i,
        {
            let v = values[i];
            proof {
                assert(values@.take(i + 1).drop_last() =~= values@.take(i as int));
                assert(values@.take(i + 1).last() == v);
            }
            m = min_bits(m, v);
            i += 1;
        }
        proof {
            assert(values@.take(end as int) =~= values@);
        }
        let mut out: Vec<u32> = Vec::new();
        let mut i: usize = 0;
        while i < end
            invariant
                end == values@.len(),
                values@.len() == VECTOR_SIZE,
                deviation_floors@.len() == VECTOR_SIZE,
                within_deviation@.len() == VECTOR_SIZE,
                nudged@.len() == VECTOR_SIZE,
                i <= end,
                m == spec_fold_min(NAN_BITS, values@),
                out@.len() == i,
                forall|k: int|
                    0 <= k < i ==> out@[k] == spec_moved_value(
                        values@,
                        deviation_floors@,
                        within_deviation@,
                        nudged@,
                        k,
                    ),
            decreases end - i,
        {
            let chosen = if deviation_floors[i] == 0 {
                values[i]
            } else if within_deviation[i] {
                m
            } else if float_lt_bits(m, values[i]) {
                nudged[i]
            } else {
                m
            };
            out.push(chosen);
            i += 1;
        }
        out
    }

    /// Encodes `num_vectors_in_a_rowgroup` vectors of the slice into records,
    /// updating the running minimum/maximum from `values` along the way. The
    /// records are built from `values` under a lossless bound and from the
    /// caller's `lossy_rewritten` slice otherwise (decimal trimming and
    /// mean-biasing are the caller's pre-pass, through
    /// `rewrite_float_decimals` and `move_towards_mean`). The padding flag
    /// goes on the final vector's record exactly when `is_padded` is set.
    /// Fails, changing nothing, exactly when the transform state's scheme is
    /// unusable.
    pub fn compress_values(
        &mut self,
        values: &Vec<u32>,
        lossy_rewritten: &Vec<u32>,
        num_vectors_in_a_rowgroup: usize,
        is_padded: bool,
        stt: &TransformState,
    ) -> (r: Result<(), AlpError>)
        requires
            lossy_rewritten@.len() == values@.len(),
            num_vectors_in_a_rowgroup * VECTOR_SIZE <= values@.len(),
        ensures
            r is Ok <==> stt.scheme == 1,
            r is Err ==> *final(self) == *old(self) && r == Err::<(), AlpError>(
                AlpError::UnusableScheme,
            ),
            r is Ok ==> ({
                let rewritten = if spec_is_lossless(old(self).error_bound) {
                    values@
                } else {
                    lossy_rewritten@
                };
                &&& final(self).error_bound == old(self).error_bound
                &&& final(self).min_value == spec_fold_min(old(self).min_value, values@)
                &&& final(self).max_value == spec_fold_max(old(self).max_value, values@)
                &&& final(self).compressed_values@ == old(self).compressed_values@
                    + spec_records_from(
                    rewritten,
                    0,
                    num_vectors_in_a_rowgroup as int,
                    is_padded,
                    stt.factor,
                    stt.exponent,
                )
            }),
    {
        if !can_use_alp(stt) {
            return Err(AlpError::UnusableScheme);
        }
        let rewritten = self.rewrite_values_and_update_min_max_value(values, lossy_rewritten);
        let ghost rw = rewritten@;
        let ghost mid = self.compressed_values@;
        let n = num_vectors_in_a_rowgroup;
        let mut exceptions: Vec<u32> = Vec::new();
        let mut exceptions_positions: Vec<u16> = Vec::new();
        let mut encoded_integers: Vec<i32> = Vec::new();
        let mut ffor_array: Vec<i32> = Vec::new();
        let mut vector_idx: usize = 0;
        while vector_idx < n
            invariant
                n * VECTOR_SIZE <= rw.len(),
                rewritten@ == rw,
                vector_idx <= n,
                self.compressed_values@ + spec_records_from(
                    rw,
                    vector_idx as int,
                    n as int,
                    is_padded,
                    stt.factor,
                    stt.exponent,
                ) == mid + spec_records_from(rw, 0, n as int, is_padded, stt.factor, stt.exponent),
                self.error_bound == old(self).error_bound,
                self.min_value == spec_fold_min(old(self).min_value, values@),
                self.max_value == spec_fold_max(old(self).max_value, values@),
            decreases n - vector_idx,
        {
            let ghost buf_before = self.compressed_values@;
            let vector_data = get_rowgroup_vector(vector_idx, &rewritten);
            let ghost v = vector_data@;
            let exception_cnt = alp_encode(
                &vector_data,
                &mut exceptions,
                &mut exceptions_positions,
                &mut encoded_integers,
                stt,
            );
            proof {
                lemma_encoded_bounds(v);
                crate::transform::lemma_exceptions(v);
            }
            let mut bit_width = 0u8;
            let base_arr = alp_analyze_ffor(&encoded_integers, &mut bit_width);
            let mut base_arr_slice: Vec<i32> = Vec::new();
            base_arr_slice.push(base_arr);
            fastlanes_ffor(&encoded_integers, &mut ffor_array, bit_width, &base_arr_slice);
            let ffor_count = 128 * (bit_width as usize) / 4;
            assert(ffor_count == ffor_array@.len());
            let factor = stt.factor;
            let exponent = stt.exponent;
            self.write_metadata(factor, exponent, bit_width, base_arr);
            let do_padding = if is_padded && vector_idx == n - 1 {
                true
            } else {
                false
            };
            self.write_exceptions(exception_cnt, &exceptions, &exceptions_positions, do_padding);
            self.write_encoded_integers(ffor_count as u16, &ffor_array);
            proof {
                assert(self.compressed_values@ =~= buf_before + spec_vector_record_bytes(
                    v,
                    do_padding,
                    stt.factor,
                    stt.exponent,
                ));
                assert(spec_records_from(
                    rw,
                    vector_idx as int,
                    n as int,
                    is_padded,
                    stt.factor,
                    stt.exponent,
                ) == spec_vector_record_bytes(v, do_padding, stt.factor, stt.exponent)
                    + spec_records_from(
                    rw,
                    vector_idx + 1,
                    n as int,
                    is_padded,
                    stt.factor,
                    stt.exponent,
                ));
                assert(self.compressed_values@ + spec_records_from(
                    rw,
                    vector_idx + 1,
                    n as int,
                    is_padded,
                    stt.factor,
                    stt.exponent,
                ) =~= mid + spec_records_from(rw, 0, n as int, is_padded, stt.factor, stt.exponent));
            }
            vector_idx += 1;
        }
        proof {
            assert(self.compressed_values@ =~= mid + spec_records_from(
                rw,
                0,
                n as int,
                is_padded,
                stt.factor,
                stt.exponent,
            ));
        }
        Ok(())
    }

    /// Consumes the model: the record buffer, the running minimum and the
    /// running maximum.
    pub fn model(self) -> (r: (Vec<u8>, u32, u32))
        ensures
            r.0 == self.compressed_values,
            r.1 == self.min_value,
            r.2 == self.max_value,
    {
        (self.compressed_values, self.min_value, self.max_value)
    }
}

/// What one biased value is: the vector minimum `m` under the fold of the
/// IEEE minimum, the value itself without a whole unit of allowed deviation,
/// `m` when the value lies within the allowed deviation of `m` or below `m`,
/// and the caller's nudged value when it lies above.
pub open spec fn spec_moved_value(
    values: Seq<u32>,
    deviation_floors: Seq<u64>,
    within_deviation: Seq<bool>,
    nudged: Seq<u32>,
    i: int,
) -> u32 {
    let m = spec_fold_min(NAN_BITS, values);
    if deviation_floors[i] == 0 {
        values[i]
    } else if within_deviation[i] {
        m
    } else if spec_float_lt(m, values[i]) {
        nudged[i]
    } else {
        m
    }
}

} // verus!
