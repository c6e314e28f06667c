use alp_codec::bound::ErrorBound;
use alp_codec::bound::is_lossless_compression;
use alp_codec::bound::rewrite_float_decimals;
use alp_codec::decode::ceil;
use alp_codec::decode::decode_record;
use alp_codec::decode::grid;
use alp_codec::decode::sum;
use alp_codec::model::get_rowgroup;
use alp_codec::model::get_rowgroup_vector;
use alp_codec::model::perform_padding;
use alp_codec::model::ALP;
use alp_codec::record::read_encoded_integers;
use alp_codec::record::read_exceptions;
use alp_codec::record::read_metadata;
use alp_codec::transform::can_use_alp;
use alp_codec::transform::init;
use alp_codec::transform::TransformState;
use alp_codec::AlpError;
use alp_codec::VECTOR_SIZE;

fn bits_of(values: &[f32]) -> Vec<u32> {
    values.iter().map(|v| v.to_bits()).collect()
}

/// Encodes a whole column losslessly and returns (bytes, min, max).
fn compress_lossless(column: &[f32]) -> (Vec<u8>, u32, u32) {
    let col_bits = bits_of(column);
    let mut is_padded = false;
    let padded = perform_padding(&col_bits, &mut is_padded);
    let num_vectors = padded.len() / VECTOR_SIZE;
    let stt = init(&padded, 0, padded.len());
    let mut model = ALP::new(ErrorBound::Lossless);
    model
        .compress_values(&padded, &padded, num_vectors, is_padded, &stt)
        .unwrap();
    model.model()
}

fn grid_floats(bytes: &Vec<u8>, length: usize) -> Vec<f32> {
    let timestamps: Vec<i64> = vec![0; length];
    let (_ids, vals) = grid(1, bytes, &timestamps).unwrap();
    vals.iter().map(|b| f32::from_bits(*b)).collect()
}

#[test]
fn roundtrip_1500_zeros() {
    // One full vector of zeros plus one padded vector: 476 real zeros and
    // 548 sentinel ones, flagged through the biased count field.
    let column = vec![0.0f32; 1500];
    let (bytes, min, max) = compress_lossless(&column);
    let decoded = grid_floats(&bytes, 1500);
    assert_eq!(decoded.len(), 1500);
    for v in &decoded {
        assert_eq!(v.to_bits(), 0u32);
    }
    assert_eq!(min, 0.0f32.to_bits());
    // The padding sentinel (1.0 here) is fed to the model like every other
    // value of the padded column, so it reaches the running maximum.
    assert_eq!(max, 1.0f32.to_bits());
    let terms = sum(1500, &bytes).unwrap();
    let total: f32 = terms.iter().map(|b| f32::from_bits(*b)).sum();
    assert_eq!(total, 0.0);
}

#[test]
fn roundtrip_identifiers_repeat() {
    let column = vec![2.5f32; 100];
    let (bytes, _, _) = compress_lossless(&column);
    let timestamps: Vec<i64> = (0..100).collect();
    let (ids, vals) = grid(42, &bytes, &timestamps).unwrap();
    assert_eq!(ids, vec![42u64; 100]);
    assert_eq!(vals.len(), 100);
}

#[test]
fn roundtrip_lossless_mixed_values() {
    // Positive, negative (exceptions under this transform), zeros of both
    // signs and NaN, over a length that is not a multiple of 1024.
    let mut column: Vec<f32> = Vec::new();
    for i in 0..1300usize {
        let v = match i % 7 {
            0 => 1.5 + i as f32,
            1 => -2.25 - i as f32,
            2 => 0.0,
            3 => -0.0,
            4 => f32::NAN,
            5 => f32::INFINITY,
            _ => -3.0e-7,
        };
        column.push(v);
    }
    let (bytes, _, _) = compress_lossless(&column);
    let decoded = grid_floats(&bytes, 1300);
    assert_eq!(decoded.len(), 1300);
    for i in 0..1300usize {
        assert_eq!(decoded[i].to_bits(), column[i].to_bits());
    }
}

#[test]
fn exception_boundary_full_vector() {
    // A vector of 1024 negative values is the all-outlier case: the count
    // field holds exactly 1024 and never collides with the padding bias.
    let column = vec![-4.5f32; 1024];
    let (bytes, _, _) = compress_lossless(&column);
    let (count, exceptions, _positions, _, is_padded) = read_exceptions(&bytes, 7).unwrap();
    assert_eq!(count, 1024);
    assert!(!is_padded);
    assert_eq!(exceptions.len(), 1024);
    let decoded = grid_floats(&bytes, 1024);
    for v in &decoded {
        assert_eq!(v.to_bits(), (-4.5f32).to_bits());
    }
}

#[test]
fn exception_boundary_padded_vector() {
    // Exceptions and padding in the same record: the biased field is
    // count + 1025 and decodes back to both.
    let column = vec![-4.5f32; 1100];
    let (bytes, _, _) = compress_lossless(&column);
    let decoded = grid_floats(&bytes, 1100);
    assert_eq!(decoded.len(), 1100);
    for v in &decoded {
        assert_eq!(v.to_bits(), (-4.5f32).to_bits());
    }
}

#[test]
fn min_max_track_true_extrema() {
    let mut column = vec![3.0f32, -7.5, 2.0, 100.25, -7.0];
    column.extend(vec![10.0f32; 1019]);
    let (_, min, max) = compress_lossless(&column);
    assert_eq!(min, (-7.5f32).to_bits());
    assert_eq!(max, 100.25f32.to_bits());
}

#[test]
fn min_max_ignore_nan() {
    let mut column = vec![f32::NAN, 2.0f32, 1.0];
    column.extend(vec![1.5f32; 1021]);
    let (_, min, max) = compress_lossless(&column);
    assert_eq!(min, 1.0f32.to_bits());
    assert_eq!(max, 2.0f32.to_bits());
}

#[test]
fn constant_vector_packs_to_nothing() {
    // All values equal: bit width 0, no packed words, no exceptions. The
    // whole record is 7 metadata bytes + 2 count bytes + 2 count bytes.
    let column = vec![5.0f32; 1024];
    let (bytes, _, _) = compress_lossless(&column);
    assert_eq!(bytes.len(), 11);
    let (_f, _e, bit_width, base, after) = read_metadata(&bytes, 0).unwrap();
    assert_eq!(bit_width, 0);
    assert_eq!(base, 5.0f32.to_bits() as i32);
    assert_eq!(after, 7);
    let (ffor_count, ffor_arr, _) = read_encoded_integers(&bytes, 9).unwrap();
    assert_eq!(ffor_count, 0);
    assert!(ffor_arr.is_empty());
    let decoded = grid_floats(&bytes, 1024);
    for v in &decoded {
        assert_eq!(*v, 5.0);
    }
}

#[test]
fn sum_and_grid_agree() {
    let mut column: Vec<f32> = Vec::new();
    for i in 0..2600usize {
        column.push((i % 97) as f32 * 0.25 + 1.0);
    }
    let (bytes, _, _) = compress_lossless(&column);
    let terms = sum(2600, &bytes).unwrap();
    assert_eq!(terms.len(), 3 * 1024);
    let sum_total: f64 = terms.iter().map(|b| f32::from_bits(*b) as f64).sum();
    let grid_vals = grid_floats(&bytes, 2600);
    let grid_total: f64 = grid_vals.iter().map(|v| *v as f64).sum();
    assert!((sum_total - grid_total).abs() < 1e-6);
}

#[test]
fn truncated_input_is_corrupt() {
    let column = vec![1.0f32; 1024];
    let (bytes, _, _) = compress_lossless(&column);
    let truncated: Vec<u8> = bytes[..bytes.len() - 3].to_vec();
    assert_eq!(sum(1024, &truncated), Err(AlpError::CorruptInput));
    let timestamps: Vec<i64> = vec![0; 1024];
    assert_eq!(grid(1, &truncated, &timestamps), Err(AlpError::CorruptInput));
    assert_eq!(decode_record(&truncated, 0), Err(AlpError::CorruptInput));
}

#[test]
fn oversized_count_field_is_corrupt() {
    // A raw exception-count field of 4000 unbiases to more than 1024.
    let mut bytes = vec![0u8, 0, 0, 0, 0, 0, 0];
    bytes.extend_from_slice(&4000u16.to_le_bytes());
    assert_eq!(read_exceptions(&bytes, 7), Err(AlpError::CorruptInput));
    assert_eq!(decode_record(&bytes, 0), Err(AlpError::CorruptInput));
}

#[test]
fn empty_sections_are_valid() {
    // A record with zero exceptions and zero packed words is well-formed.
    let mut bytes = vec![0u8, 0, 0];
    bytes.extend_from_slice(&(5.0f32.to_bits() as i32).to_le_bytes());
    bytes.extend_from_slice(&0u16.to_le_bytes());
    bytes.extend_from_slice(&0u16.to_le_bytes());
    let (decoded, is_padded, next) = decode_record(&bytes, 0).unwrap();
    assert!(!is_padded);
    assert_eq!(next, 11);
    assert_eq!(decoded.len(), 1024);
    for b in &decoded {
        assert_eq!(f32::from_bits(*b), 5.0);
    }
}

#[test]
fn unusable_scheme_fails_compression() {
    let stt = TransformState { scheme: 0, factor: 0, exponent: 0 };
    assert!(!can_use_alp(&stt));
    let values = bits_of(&vec![1.0f32; 1024]);
    let mut model = ALP::new(ErrorBound::Lossless);
    let r = model.compress_values(&values, &values, 1, false, &stt);
    assert_eq!(r, Err(AlpError::UnusableScheme));
    let (bytes, _, _) = model.model();
    assert!(bytes.is_empty());
}

#[test]
fn usable_scheme_from_init() {
    let values = bits_of(&vec![1.0f32; 1024]);
    let stt = init(&values, 0, values.len());
    assert!(can_use_alp(&stt));
}

#[test]
fn padding_choices() {
    // Multiple of 1024: unchanged, flag untouched.
    let exact = bits_of(&vec![2.0f32; 2048]);
    let mut flag = false;
    let out = perform_padding(&exact, &mut flag);
    assert!(!flag);
    assert_eq!(out, exact);
    // Last real value nonzero: sentinel 0.0.
    let nonzero = bits_of(&vec![2.0f32; 1500]);
    let mut flag = false;
    let out = perform_padding(&nonzero, &mut flag);
    assert!(flag);
    assert_eq!(out.len(), 2048);
    assert_eq!(out[1500], 0.0f32.to_bits());
    // Last real value zero: sentinel 1.0.
    let zero = bits_of(&vec![0.0f32; 1500]);
    let mut flag = false;
    let out = perform_padding(&zero, &mut flag);
    assert!(flag);
    assert_eq!(out[1500], 1.0f32.to_bits());
    assert_eq!(out[2047], 1.0f32.to_bits());
}

#[test]
fn rowgroup_slicing() {
    let column = bits_of(&vec![1.0f32; 102400 + 500]);
    let first = get_rowgroup(0, &column);
    assert_eq!(first.len(), 102400);
    let last = get_rowgroup(1, &column);
    assert_eq!(last.len(), 500);
    let padded = bits_of(&vec![1.0f32; 2048]);
    let v1 = get_rowgroup_vector(1, &padded);
    assert_eq!(v1.len(), 1024);
}

#[test]
fn ceil_division() {
    assert_eq!(ceil(0, 1024), 0);
    assert_eq!(ceil(1, 1024), 1);
    assert_eq!(ceil(1024, 1024), 1);
    assert_eq!(ceil(1025, 1024), 2);
    assert_eq!(ceil(1500, 1024), 2);
}

fn trim(v: f32, decimals: usize) -> f32 {
    let factor = 10f32.powi(decimals as i32);
    (v * factor).round() / factor
}

#[test]
fn decimal_trimming_picks_first_within_bound() {
    // Absolute bound 0.05 around 3.14159: rounding to 0 decimals misses,
    // rounding to 1 decimal (3.1) is the first to stay within.
    let input = 3.14159f32;
    let candidates: Vec<u32> = (0..=10).map(|d| trim(input, d).to_bits()).collect();
    let within: Vec<bool> = (0..=10)
        .map(|d| (trim(input, d) - input).abs() <= 0.05)
        .collect();
    let r = rewrite_float_decimals(&candidates, &within, input.to_bits());
    assert_eq!(r, trim(input, 1).to_bits());
    assert!((f32::from_bits(r) - input).abs() <= 0.05);
    // No candidate within: the input itself comes back.
    let none: Vec<bool> = vec![false; 11];
    let r = rewrite_float_decimals(&candidates, &none, input.to_bits());
    assert_eq!(r, input.to_bits());
}

#[test]
fn lossy_roundtrip_within_bound() {
    // A relative bound of 10 percent: each decoded value stays within the
    // bound's allowed deviation of its original.
    let bound = ErrorBound::Relative(10.0f32.to_bits());
    assert!(!is_lossless_compression(bound));
    let column: Vec<f32> = (0..1024).map(|i| 100.0 + (i % 13) as f32 * 0.173).collect();
    let col_bits = bits_of(&column);
    let trimmed: Vec<u32> = column
        .iter()
        .map(|v| {
            let candidates: Vec<u32> = (0..=10).map(|d| trim(*v, d).to_bits()).collect();
            let within: Vec<bool> = (0..=10)
                .map(|d| (trim(*v, d) - v).abs() <= v.abs() * 0.10)
                .collect();
            rewrite_float_decimals(&candidates, &within, v.to_bits())
        })
        .collect();
    let stt = init(&col_bits, 0, col_bits.len());
    let mut model = ALP::new(bound);
    model
        .compress_values(&col_bits, &trimmed, 1, false, &stt)
        .unwrap();
    let (bytes, min, max) = model.model();
    let decoded = grid_floats(&bytes, 1024);
    for i in 0..1024usize {
        let dev = (decoded[i] - column[i]).abs();
        assert!(dev <= column[i].abs() * 0.10);
    }
    // Min/max still come from the original, untrimmed values.
    let true_min = column.iter().cloned().fold(f32::INFINITY, f32::min);
    let true_max = column.iter().cloned().fold(f32::NEG_INFINITY, f32::max);
    assert_eq!(min, true_min.to_bits());
    assert_eq!(max, true_max.to_bits());
}

#[test]
fn move_towards_mean_cases() {
    // Minimum is 10.0; allowed absolute deviation floors to 2. A value
    // within 2.0 of the minimum snaps to it, one farther above is nudged
    // down by 2.0, and one with no whole unit of deviation stays.
    let mut values = vec![10.0f32; 1024];
    values[1] = 12.0;
    values[2] = 13.5;
    values[3] = 11.0;
    let bits = bits_of(&values);
    let deviation = 2.5f64;
    let floors: Vec<u64> = values.iter().map(|_| deviation.floor() as u64).collect();
    let m = values.iter().cloned().reduce(f32::min).unwrap();
    let within: Vec<bool> = values.iter().map(|v| (m - v).abs() <= 2.0).collect();
    let nudged: Vec<u32> = values.iter().map(|v| (v - 2.0).to_bits()).collect();
    let model = ALP::new(ErrorBound::Absolute(2.5f32.to_bits()));
    let moved = model.move_towards_mean(&bits, &floors, &within, &nudged);
    assert_eq!(f32::from_bits(moved[0]), 10.0);
    assert_eq!(f32::from_bits(moved[1]), 10.0);
    assert_eq!(f32::from_bits(moved[2]), 11.5);
    assert_eq!(f32::from_bits(moved[3]), 10.0);
    // With no margin, everything is kept.
    let zero_floors: Vec<u64> = vec![0; 1024];
    let kept = model.move_towards_mean(&bits, &zero_floors, &within, &nudged);
    assert_eq!(kept, bits);
}

#[test]
fn padded_vector_of_sentinel_lookalikes() {
    // Real values equal to the sentinel candidate before the padding: the
    // run detection must stop at the last real value, which the sentinel
    // choice guarantees differs.
    let mut column = vec![0.0f32; 1500];
    column[1499] = 0.0;
    let (bytes, _, _) = compress_lossless(&column);
    let decoded = grid_floats(&bytes, 1500);
    assert_eq!(decoded.len(), 1500);
}
