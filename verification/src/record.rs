//! The binary layout of one vector's record, and the cursor-based readers.
//!
//! A record is: factor (1 B), exponent (1 B), bit width (1 B), base (4 B,
//! two's-complement little-endian), exception-count field (2 B, the raw count
//! or count + 1025 when the record carries the column's trailing padding),
//! the exceptions (4 B each), their positions (2 B each), the packed-word
//! count (2 B) and the packed words (4 B each). Multi-byte integers are
//! little-endian. Records are self-delimiting and read strictly in write
//! order.

use vstd::prelude::*;
use crate::AlpError;
use crate::MAGIC_NUMBER;

verus! {

// ----- little-endian scalars -----

pub open spec fn spec_u16_le(x: u16) -> Seq<u8> {
    seq![(x & 0xff) as u8, ((x >> 8) & 0xff) as u8]
}

pub open spec fn spec_u32_le(x: u32) -> Seq<u8> {
    seq![
        (x & 0xff) as u8,
        ((x >> 8) & 0xff) as u8,
        ((x >> 16) & 0xff) as u8,
        ((x >> 24) & 0xff) as u8,
    ]
}

pub open spec fn spec_u16_from_le(b0: u8, b1: u8) -> u16 {
    (b0 as u16) | (b1 as u16) << 8
}

pub open spec fn spec_u32_from_le(b0: u8, b1: u8, b2: u8, b3: u8) -> u32 {
    (b0 as u32) | (b1 as u32) << 8 | (b2 as u32) << 16 | (b3 as u32) << 24
}

pub proof fn lemma_u16_round_trip(x: u16)
    ensures
        spec_u16_from_le(spec_u16_le(x)[0], spec_u16_le(x)[1]) == x,
{
    assert((((x & 0xff) as u8) as u16) | ((((x >> 8) & 0xff) as u8) as u16) << 8 == x)
        by (bit_vector);
}

pub proof fn lemma_u32_round_trip(x: u32)
    ensures
        spec_u32_from_le(
            spec_u32_le(x)[0],
            spec_u32_le(x)[1],
            spec_u32_le(x)[2],
            spec_u32_le(x)[3],
        ) == x,
{
    assert((((x & 0xff) as u8) as u32) | ((((x >> 8) & 0xff) as u8) as u32) << 8 | ((((x >> 16)
        & 0xff) as u8) as u32) << 16 | ((((x >> 24) & 0xff) as u8) as u32) << 24 == x)
        by (bit_vector);
}

// ----- two's-complement view of a base word -----

pub open spec fn spec_i32_to_u32(x: i32) -> u32 {
    if x >= 0 {
        x as u32
    } else {
        (x + 0x1_0000_0000) as u32
    }
}

pub open spec fn spec_u32_to_i32(x: u32) -> i32 {
    if x < 0x8000_0000 {
        x as i32
    } else {
        (x - 0x1_0000_0000) as i32
    }
}

pub proof fn lemma_i32_u32_round_trip(x: i32)
    ensures
        spec_u32_to_i32(spec_i32_to_u32(x)) == x,
{
}

pub fn i32_to_u32_bits(x: i32) -> (r: u32)
    ensures
        r == spec_i32_to_u32(x),
{
    if x >= 0 {
        x as u32
    } else {
        ((x as i64) + 0x1_0000_0000i64) as u32
    }
}

pub fn u32_to_i32_bits(x: u32) -> (r: i32)
    ensures
        r == spec_u32_to_i32(x),
{
    if x < 0x8000_0000 {
        x as i32
    } else {
        ((x as i64) - 0x1_0000_0000i64) as i32
    }
}

pub open spec fn spec_i32_le(x: i32) -> Seq<u8> {
    spec_u32_le(spec_i32_to_u32(x))
}

// ----- serialized lists -----

pub open spec fn spec_u16s_le(s: Seq<u16>) -> Seq<u8>
    decreases s.len(),
{
    if s.len() == 0 {
        Seq::empty()
    } else {
        spec_u16s_le(s.drop_last()) + spec_u16_le(s.last())
    }
}

pub open spec fn spec_u32s_le(s: Seq<u32>) -> Seq<u8>
    decreases s.len(),
{
    if s.len() == 0 {
        Seq::empty()
    } else {
        spec_u32s_le(s.drop_last()) + spec_u32_le(s.last())
    }
}

pub open spec fn spec_i32s_le(s: Seq<i32>) -> Seq<u8>
    decreases s.len(),
{
    if s.len() == 0 {
        Seq::empty()
    } else {
        spec_i32s_le(s.drop_last()) + spec_i32_le(s.last())
    }
}

pub proof fn lemma_u16s_le_len(s: Seq<u16>)
    ensures
        spec_u16s_le(s).len() == 2 * s.len(),
    decreases s.len(),
{
    if s.len() > 0 {
        lemma_u16s_le_len(s.drop_last());
    }
}

pub proof fn lemma_u32s_le_len(s: Seq<u32>)
    ensures
        spec_u32s_le(s).len() == 4 * s.len(),
    decreases s.len(),
{
    if s.len() > 0 {
        lemma_u32s_le_len(s.drop_last());
    }
}

pub proof fn lemma_i32s_le_len(s: Seq<i32>)
    ensures
        spec_i32s_le(s).len() == 4 * s.len(),
    decreases s.len(),
{
    if s.len() > 0 {
        lemma_i32s_le_len(s.drop_last());
    }
}

pub proof fn lemma_u16s_le_index(s: Seq<u16>, j: int, k: int)
    requires
        0 <= j < s.len(),
        0 <= k < 2,
    ensures
        spec_u16s_le(s)[2 * j + k] == spec_u16_le(s[j])[k],
    decreases s.len(),
{
    lemma_u16s_le_len(s);
    lemma_u16s_le_len(s.drop_last());
    if j < s.len() - 1 {
        lemma_u16s_le_index(s.drop_last(), j, k);
    }
}

pub proof fn lemma_u32s_le_index(s: Seq<u32>, j: int, k: int)
    requires
        0 <= j < s.len(),
        0 <= k < 4,
    ensures
        spec_u32s_le(s)[4 * j + k] == spec_u32_le(s[j])[k],
    decreases s.len(),
{
    lemma_u32s_le_len(s);
    lemma_u32s_le_len(s.drop_last());
    if j < s.len() - 1 {
        lemma_u32s_le_index(s.drop_last(), j, k);
    }
}

pub proof fn lemma_i32s_le_index(s: Seq<i32>, j: int, k: int)
    requires
        0 <= j < s.len(),
        0 <= k < 4,
    ensures
        spec_i32s_le(s)[4 * j + k] == spec_i32_le(s[j])[k],
    decreases s.len(),
{
    lemma_i32s_le_len(s);
    lemma_i32s_le_len(s.drop_last());
    if j < s.len() - 1 {
        lemma_i32s_le_index(s.drop_last(), j, k);
    }
}

pub proof fn lemma_u16s_le_push(s: Seq<u16>, x: u16)
    ensures
        spec_u16s_le(s.push(x)) == spec_u16s_le(s) + spec_u16_le(x),
{
    assert(s.push(x).drop_last() =~= s);
    assert(s.push(x).last() == x);
}

pub proof fn lemma_u32s_le_push(s: Seq<u32>, x: u32)
    ensures
        spec_u32s_le(s.push(x)) == spec_u32s_le(s) + spec_u32_le(x),
{
    assert(s.push(x).drop_last() =~= s);
    assert(s.push(x).last() == x);
}

pub proof fn lemma_i32s_le_push(s: Seq<i32>, x: i32)
    ensures
        spec_i32s_le(s.push(x)) == spec_i32s_le(s) + spec_i32_le(x),
{
    assert(s.push(x).drop_last() =~= s);
    assert(s.push(x).last() == x);
}

// ----- exec writers -----

pub fn push_u16_le(buf: &mut Vec<u8>, x: u16)
    ensures
        final(buf)@ == old(buf)@ + spec_u16_le(x),
{
    buf.push((x & 0xff) as u8);
    buf.push(((x >> 8) & 0xff) as u8);
    assert(buf@ =~= old(buf)@ + spec_u16_le(x));
}

pub fn push_u32_le(buf: &mut Vec<u8>, x: u32)
    ensures
        final(buf)@ == old(buf)@ + spec_u32_le(x),
{
    buf.push((x & 0xff) as u8);
    buf.push(((x >> 8) & 0xff) as u8);
    buf.push(((x >> 16) & 0xff) as u8);
    buf.push(((x >> 24) & 0xff) as u8);
    assert(buf@ =~= old(buf)@ + spec_u32_le(x));
}

pub fn push_i32_le(buf: &mut Vec<u8>, x: i32)
    ensures
        final(buf)@ == old(buf)@ + spec_i32_le(x),
{
    let w = i32_to_u32_bits(x);
    push_u32_le(buf, w);
}

// ----- record sections, serialized form -----

pub open spec fn spec_metadata_bytes(factor: u8, exponent: u8, bit_width: u8, base: i32) -> Seq<
    u8,
> {
    seq![factor, exponent, bit_width] + spec_i32_le(base)
}

/// The raw value of the 16-bit count field: the exception count itself, or
/// the count biased by `MAGIC_NUMBER` when the record carries padding.
pub open spec fn spec_exception_field(count: u16, padded: bool) -> u16 {
    if padded {
        (count + MAGIC_NUMBER) as u16
    } else {
        count
    }
}

pub open spec fn spec_exceptions_bytes(exceptions: Seq<u32>, positions: Seq<u16>, padded: bool) -> Seq<u8> {
    spec_u16_le(spec_exception_field(exceptions.len() as u16, padded)) + spec_u32s_le(exceptions)
        + spec_u16s_le(positions)
}

pub open spec fn spec_integers_bytes(packed: Seq<i32>) -> Seq<u8> {
    spec_u16_le(packed.len() as u16) + spec_i32s_le(packed)
}

// ----- parse specification -----

/// Parses the 7 metadata bytes at `i`: factor, exponent, bit width, base.
/// `None` when the buffer is too short.
pub open spec fn spec_read_metadata(bytes: Seq<u8>, i: int) -> Option<(u8, u8, u8, i32, int)> {
    if 0 <= i && i + 7 <= bytes.len() {
        Some(
            (
                bytes[i],
                bytes[i + 1],
                bytes[i + 2],
                spec_u32_to_i32(spec_u32_from_le(bytes[i + 3], bytes[i + 4], bytes[i + 5], bytes[i + 6])),
                i + 7,
            ),
        )
    } else {
        None
    }
}

pub open spec fn spec_read_u16s(bytes: Seq<u8>, i: int, n: int) -> Seq<u16> {
    Seq::new(n as nat, |j: int| spec_u16_from_le(bytes[i + 2 * j], bytes[i + 2 * j + 1]))
}

pub open spec fn spec_read_u32s(bytes: Seq<u8>, i: int, n: int) -> Seq<u32> {
    Seq::new(
        n as nat,
        |j: int|
            spec_u32_from_le(
                bytes[i + 4 * j],
                bytes[i + 4 * j + 1],
                bytes[i + 4 * j + 2],
                bytes[i + 4 * j + 3],
            ),
    )
}

pub open spec fn spec_read_i32s(bytes: Seq<u8>, i: int, n: int) -> Seq<i32> {
    Seq::new(
        n as nat,
        |j: int|
            spec_u32_to_i32(
                spec_u32_from_le(
                    bytes[i + 4 * j],
                    bytes[i + 4 * j + 1],
                    bytes[i + 4 * j + 2],
                    bytes[i + 4 * j + 3],
                ),
            ),
    )
}

/// Parses the exception section at `i`: the biased count field, then the
/// exceptions and their positions. `None` when the buffer is too short or
/// the unbiased count exceeds one vector's width.
pub open spec fn spec_read_exceptions(bytes: Seq<u8>, i: int) -> Option<
    (u16, Seq<u32>, Seq<u16>, int, bool),
> {
    if 0 <= i && i + 2 <= bytes.len() {
        let raw = spec_u16_from_le(bytes[i], bytes[i + 1]);
        let padded = raw >= MAGIC_NUMBER;
        let count = if padded {
            (raw - MAGIC_NUMBER) as u16
        } else {
            raw
        };
        if count > 1024 || i + 2 + 6 * count > bytes.len() {
            None
        } else {
            Some(
                (
                    count,
                    spec_read_u32s(bytes, i + 2, count as int),
                    spec_read_u16s(bytes, i + 2 + 4 * count, count as int),
                    i + 2 + 6 * count,
                    padded,
                ),
            )
        }
    } else {
        None
    }
}

/// Parses the packed-integer section at `i`: the word count, then the words.
/// `None` when the buffer is too short or the count exceeds one vector's
/// width in words.
pub open spec fn spec_read_encoded_integers(bytes: Seq<u8>, i: int) -> Option<
    (u16, Seq<i32>, int),
> {
    if 0 <= i && i + 2 <= bytes.len() {
        let count = spec_u16_from_le(bytes[i], bytes[i + 1]);
        if count > 1024 || i + 2 + 4 * count > bytes.len() {
            None
        } else {
            Some((count, spec_read_i32s(bytes, i + 2, count as int), i + 2 + 4 * count))
        }
    } else {
        None
    }
}

// ----- exec readers -----

fn read_u16_at(bytes: &Vec<u8>, i: usize) -> (r: u16)
    requires
        i + 2 <= bytes@.len(),
    ensures
        r == spec_u16_from_le(bytes@[i as int], bytes@[i + 1]),
{
    // Binds the vector's length so the index arithmetic is known to fit.
    let n = bytes.len();
    (bytes[i] as u16) | (bytes[i + 1] as u16) << 8
}

fn read_u32_at(bytes: &Vec<u8>, i: usize) -> (r: u32)
    requires
        i + 4 <= bytes@.len(),
    ensures
        r == spec_u32_from_le(bytes@[i as int], bytes@[i + 1], bytes@[i + 2], bytes@[i + 3]),
{
    // Binds the vector's length so the index arithmetic is known to fit.
    let n = bytes.len();
    (bytes[i] as u32) | (bytes[i + 1] as u32) << 8 | (bytes[i + 2] as u32) << 16 | (bytes[i
        + 3] as u32) << 24
}

/// Reads one record's metadata at `read_byte_index` and returns the factor
/// index, exponent index, bit width, frame-of-reference base, and the cursor
/// past the section. Truncated input is reported as corruption.
pub fn read_metadata(bytes: &Vec<u8>, read_byte_index: usize) -> (r: Result<
    (u8, u8, u8, i32, usize),
    AlpError,
>)
    ensures
        r is Ok <==> spec_read_metadata(bytes@, read_byte_index as int) is Some,
        r matches Ok(v) ==> spec_read_metadata(bytes@, read_byte_index as int) == Some(
            (v.0, v.1, v.2, v.3, v.4 as int),
        ),
        r is Err ==> r == Err::<(u8, u8, u8, i32, usize), AlpError>(AlpError::CorruptInput),
{
    if bytes.len() < 7 || read_byte_index > bytes.len() - 7 {
        return Err(AlpError::CorruptInput);
    }
    let factor = bytes[read_byte_index];
    let exponent = bytes[read_byte_index + 1];
    let bit_width = bytes[read_byte_index + 2];
    let base = u32_to_i32_bits(read_u32_at(bytes, read_byte_index + 3));
    Ok((factor, exponent, bit_width, base, read_byte_index + 7))
}

/// Reads one record's exception section at `read_byte_index` and returns the
/// exception count, the exceptions (as bit patterns), their positions, the
/// cursor past the section, and whether the count field carried the padding
/// bias. Truncated input and counts above one vector's width are reported as
/// corruption.
pub fn read_exceptions(bytes: &Vec<u8>, read_byte_index: usize) -> (r: Result<
    (u16, Vec<u32>, Vec<u16>, usize, bool),
    AlpError,
>)
    ensures
        r is Ok <==> spec_read_exceptions(bytes@, read_byte_index as int) is Some,
        r matches Ok(v) ==> spec_read_exceptions(bytes@, read_byte_index as int) == Some(
            (v.0, v.1@, v.2@, v.3 as int, v.4),
        ),
        r is Err ==> r == Err::<(u16, Vec<u32>, Vec<u16>, usize, bool), AlpError>(
            AlpError::CorruptInput,
        ),
{
    if bytes.len() < 2 || read_byte_index > bytes.len() - 2 {
        return Err(AlpError::CorruptInput);
    }
    let raw = read_u16_at(bytes, read_byte_index);
    let is_padded = raw >= MAGIC_NUMBER;
    let exceptions_count = if is_padded {
        raw - MAGIC_NUMBER
    } else {
        raw
    };
    if exceptions_count > 1024 {
        return Err(AlpError::CorruptInput);
    }
    let start = read_byte_index + 2;
    if bytes.len() - start < 6 * (exceptions_count as usize) {
        return Err(AlpError::CorruptInput);
    }
    let mut exceptions: Vec<u32> = Vec::new();
    let mut j: usize = 0;
    while j < exceptions_count as usize
        invariant
            j <= exceptions_count,
            exceptions_count <= 1024,
            start + 6 * exceptions_count <= bytes@.len(),
            bytes@.len() <= usize::MAX,
            exceptions@ == spec_read_u32s(bytes@, start as int, j as int),
        decreases exceptions_count as int - j,
    {
        exceptions.push(read_u32_at(bytes, start + 4 * j));
        j += 1;
        assert(exceptions@ =~= spec_read_u32s(bytes@, start as int, j as int));
    }
    let pos_start = start + 4 * (exceptions_count as usize);
    let mut exception_positions: Vec<u16> = Vec::new();
    j = 0;
    while j < exceptions_count as usize
        invariant
            j <= exceptions_count,
            exceptions_count <= 1024,
            start + 6 * exceptions_count <= bytes@.len(),
            pos_start == start + 4 * exceptions_count,
            bytes@.len() <= usize::MAX,
            exception_positions@ == spec_read_u16s(bytes@, pos_start as int, j as int),
        decreases exceptions_count as int - j,
    {
        exception_positions.push(read_u16_at(bytes, pos_start + 2 * j));
        j += 1;
        assert(exception_positions@ =~= spec_read_u16s(bytes@, pos_start as int, j as int));
    }
    Ok(
        (
            exceptions_count,
            exceptions,
            exception_positions,
            start + 6 * (exceptions_count as usize),
            is_padded,
        ),
    )
}

/// Reads one record's packed-integer section at `read_byte_index` and returns
/// the word count, the words, and the cursor past the section. Truncated
/// input and counts above one vector's width in words are reported as
/// corruption.
pub fn read_encoded_integers(bytes: &Vec<u8>, read_byte_index: usize) -> (r: Result<
    (u16, Vec<i32>, usize),
    AlpError,
>)
    ensures
        r is Ok <==> spec_read_encoded_integers(bytes@, read_byte_index as int) is Some,
        r matches Ok(v) ==> spec_read_encoded_integers(bytes@, read_byte_index as int) == Some(
            (v.0, v.1@, v.2 as int),
        ),
        r is Err ==> r == Err::<(u16, Vec<i32>, usize), AlpError>(AlpError::CorruptInput),
{
    if bytes.len() < 2 || read_byte_index > bytes.len() - 2 {
        return Err(AlpError::CorruptInput);
    }
    let ffor_count = read_u16_at(bytes, read_byte_index);
    if ffor_count > 1024 {
        return Err(AlpError::CorruptInput);
    }
    let start = read_byte_index + 2;
    if bytes.len() - start < 4 * (ffor_count as usize) {
        return Err(AlpError::CorruptInput);
    }
    let mut ffor_arr: Vec<i32> = Vec::new();
    let mut j: usize = 0;
    while j < ffor_count as usize
        invariant
            j <= ffor_count,
            ffor_count <= 1024,
            start + 4 * ffor_count <= bytes@.len(),
            bytes@.len() <= usize::MAX,
            ffor_arr@ == spec_read_i32s(bytes@, start as int, j as int),
        decreases ffor_count as int - j,
    {
        ffor_arr.push(u32_to_i32_bits(read_u32_at(bytes, start + 4 * j)));
        j += 1;
        assert(ffor_arr@ =~= spec_read_i32s(bytes@, start as int, j as int));
    }
    Ok((ffor_count, ffor_arr, start + 4 * (ffor_count as usize)))
}

} // verus!
