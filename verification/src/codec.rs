//! Decoding one raw device frame into a schema-typed reading.
//!
//! A frame is a fixed-size buffer holding comma-separated text, padded with
//! NUL bytes and possibly ending in a newline. The schema is chosen purely
//! by field count: 20 fields is a ranging frame, 13 a magnetometer frame,
//! anything else is not a frame at all. A numeric field outside the decimal
//! grammar never aborts the frame: a distance or strength field decodes to
//! `None` (the consumer's out-of-range sentinel), any other field to zero.
//!
//! Units: distance and strength fields arrive as millimeters; their decoded
//! micro-millimeter value is read as nanometers, which is exactly the
//! reading in meters scaled by one billion. Heading arrives in radians and
//! decodes to micro-radians; magnetometer axes decode to micro-units.

use vstd::prelude::*;
use crate::text::spec_trim;
use crate::text::trim_frame;
use crate::text::split_at_sep;
use crate::text::split_bytes;
use crate::text::fields_view;
use crate::text::is_utf8;
use crate::text::validate_utf8;
use crate::numeric::is_valid_fixed;
use crate::numeric::fixed_micros;
use crate::numeric::u32_field_val;
use crate::numeric::parse_fixed;
use crate::numeric::parse_u32_field;
use crate::numeric::lemma_unsigned_micros_bound;
use crate::numeric::VAL_LIMIT;
use crate::numeric::all_digits;
use crate::numeric::is_digit;
use crate::numeric::digits_val;
use crate::numeric::unsigned_micros;
use crate::numeric::is_valid_unsigned;
use crate::numeric::lemma_digits_val_bounds;
use crate::numeric::lemma_pow10_le;
use crate::numeric::pow10;
use crate::text::lemma_split_no_sep;

verus! {

/// Field count of a ranging frame (schema with device-reported heading).
pub const RANGING_FIELDS: usize = 20;

/// Field count of a magnetometer frame.
pub const MAG_FIELDS: usize = 13;

/// Distance samples per frame.
pub const NUM_DISTANCES: usize = 9;

/// Strength samples per ranging frame.
pub const NUM_STRENGTHS: usize = 8;

/// A decoded reading, typed by wire schema.
#[derive(Debug, PartialEq, Eq)]
pub enum Reading {
    /// 20 fields: heading (radians), timestamp, nine distances, eight
    /// strengths, one trailing field that carries no data.
    Ranging {
        /// Distance samples in nanometers; `None` for a corrupt field.
        distances: Vec<Option<i64>>,
        /// Signal strengths in nano-units; `None` for a corrupt field.
        strengths: Vec<Option<i64>>,
        /// Device-reported heading in micro-radians; zero for a corrupt field.
        heading: i64,
        /// Device timestamp; zero for a corrupt field.
        timestamp: u32,
    },
    /// 13 fields: three magnetometer axes, then nine distances.
    Magnetometer {
        /// Distance samples in nanometers; `None` for a corrupt field.
        distances: Vec<Option<i64>>,
        /// Raw magnetometer X in micro-units; zero for a corrupt field.
        mag_x: i64,
        /// Raw magnetometer Y in micro-units; zero for a corrupt field.
        mag_y: i64,
        /// Raw magnetometer Z in micro-units; zero for a corrupt field.
        mag_z: i64,
    },
}

/// The comma-separated fields of a frame, after padding is trimmed.
pub open spec fn frame_fields(buf: Seq<u8>) -> Seq<Seq<u8>> {
    split_at_sep(spec_trim(buf), 44)
}

/// What a distance or strength field denotes: its exact value, or `None`
/// outside the numeric grammar.
pub open spec fn dist_field_val(f: Seq<u8>) -> Option<i64> {
    if is_valid_fixed(f) {
        Some(fixed_micros(f) as i64)
    } else {
        None
    }
}

/// What a heading or magnetometer field denotes: its exact value, or zero
/// outside the numeric grammar.
pub open spec fn num_field_val(f: Seq<u8>) -> i64 {
    if is_valid_fixed(f) {
        fixed_micros(f) as i64
    } else {
        0
    }
}

/// Every heading or magnetometer field value is strictly inside
/// `VAL_LIMIT`.
pub proof fn lemma_num_field_bound(f: Seq<u8>)
    ensures
        -VAL_LIMIT < num_field_val(f) < VAL_LIMIT,
{
    if is_valid_fixed(f) {
        if f.len() >= 1 && f[0] == 45 {
            lemma_unsigned_micros_bound(f.skip(1));
        } else {
            lemma_unsigned_micros_bound(f);
        }
    }
}

/// A decoded ranging reading agrees field-by-field with the frame text.
pub open spec fn ranging_matches(
    distances: Seq<Option<i64>>,
    strengths: Seq<Option<i64>>,
    heading: i64,
    timestamp: u32,
    fs: Seq<Seq<u8>>,
) -> bool {
    &&& distances.len() == 9
    &&& forall|j: int| 0 <= j < 9 ==> distances[j] == dist_field_val(fs[2 + j])
    &&& strengths.len() == 8
    &&& forall|j: int| 0 <= j < 8 ==> strengths[j] == dist_field_val(fs[11 + j])
    &&& heading == num_field_val(fs[0])
    &&& timestamp as int == u32_field_val(fs[1])
}

/// A decoded magnetometer reading agrees field-by-field with the frame text.
pub open spec fn magnetometer_matches(
    distances: Seq<Option<i64>>,
    mag_x: i64,
    mag_y: i64,
    mag_z: i64,
    fs: Seq<Seq<u8>>,
) -> bool {
    &&& distances.len() == 9
    &&& forall|j: int| 0 <= j < 9 ==> distances[j] == dist_field_val(fs[3 + j])
    &&& mag_x == num_field_val(fs[0])
    &&& mag_y == num_field_val(fs[1])
    &&& mag_z == num_field_val(fs[2])
}

/// Decode a run of distance-style fields `fs[from..from + count]`.
fn decode_dist_fields(parts: &Vec<Vec<u8>>, from: usize, count: usize) -> (r: Vec<Option<i64>>)
    requires
        from + count <= parts@.len(),
    ensures
        r@.len() == count,
        forall|j: int| 0 <= j < count ==> r@[j] == dist_field_val(parts@[from + j]@),
{
    let n = parts.len();
    let mut r: Vec<Option<i64>> = Vec::new();
    let mut j: usize = 0;
    while j < count
        invariant
            0 <= j <= count,
            n == parts@.len(),
            from + count <= n,
            r@.len() == j,
            forall|k: int| 0 <= k < j ==> r@[k] == dist_field_val(parts@[from + k]@),
        decreases count - j,
    {
        r.push(parse_fixed(parts[from + j].as_slice()));
        j += 1;
    }
    r
}

/// Decode a heading or magnetometer field, zero outside the grammar.
fn decode_num_field(f: &[u8]) -> (r: i64)
    ensures
        r == num_field_val(f@),
{
    match parse_fixed(f) {
        Some(v) => v,
        None => 0,
    }
}

/// Decode one raw frame.
///
/// Returns `None` — "not a frame, read again" — when the buffer is not
/// UTF-8 or its trimmed text does not have exactly 20 or 13 fields;
/// otherwise the schema-typed reading, with corrupt numeric fields
/// replaced as documented on [`Reading`].
pub fn decode_frame(buf: &[u8]) -> (r: Option<Reading>)
    ensures
        !is_utf8(buf@) ==> r is None,
        is_utf8(buf@) && frame_fields(buf@).len() != 20 && frame_fields(buf@).len() != 13 ==> r
            is None,
        is_utf8(buf@) && frame_fields(buf@).len() == 20 ==> (r matches Some(
            Reading::Ranging { distances, strengths, heading, timestamp },
        ) && ranging_matches(
            distances@,
            strengths@,
            heading,
            timestamp,
            frame_fields(buf@),
        )),
        is_utf8(buf@) && frame_fields(buf@).len() == 13 ==> (r matches Some(
            Reading::Magnetometer { distances, mag_x, mag_y, mag_z },
        ) && magnetometer_matches(distances@, mag_x, mag_y, mag_z, frame_fields(buf@))),
{
    if !validate_utf8(buf) {
        return None;
    }
    let trimmed = trim_frame(buf);
    let parts = split_bytes(trimmed.as_slice(), 44);
    let ghost fs = frame_fields(buf@);
    proof {
        assert(fields_view(parts@) == fs);
        assert(forall|i: int| 0 <= i < parts@.len() ==> parts@[i]@ == fields_view(parts@)[i]);
    }
    if parts.len() == RANGING_FIELDS {
        let distances = decode_dist_fields(&parts, 2, 9);
        let strengths = decode_dist_fields(&parts, 11, 8);
        let heading = decode_num_field(parts[0].as_slice());
        let timestamp = parse_u32_field(parts[1].as_slice());
        Some(Reading::Ranging { distances, strengths, heading, timestamp })
    } else if parts.len() == MAG_FIELDS {
        let distances = decode_dist_fields(&parts, 3, 9);
        let mag_x = decode_num_field(parts[0].as_slice());
        let mag_y = decode_num_field(parts[1].as_slice());
        let mag_z = decode_num_field(parts[2].as_slice());
        Some(Reading::Magnetometer { distances, mag_x, mag_y, mag_z })
    } else {
        None
    }
}

/// Decode a raw frame as a ranging record: the distance, strength, heading
/// and timestamp columns of a 20-field frame, or `None` for anything else.
pub fn parse_line(buf: &[u8]) -> (r: Option<(Vec<Option<i64>>, Vec<Option<i64>>, i64, u32)>)
    ensures
        r is Some <==> is_utf8(buf@) && frame_fields(buf@).len() == 20,
        r matches Some((distances, strengths, heading, timestamp)) ==> ranging_matches(
            distances@,
            strengths@,
            heading,
            timestamp,
            frame_fields(buf@),
        ),
{
    match decode_frame(buf) {
        Some(Reading::Ranging { distances, strengths, heading, timestamp }) => Some(
            (distances, strengths, heading, timestamp),
        ),
        _ => None,
    }
}

/// The unit-conversion law: a distance field holding a plain decimal
/// integer `d` — millimeters on the wire — decodes to exactly
/// `d * 1_000_000` nanometers, which is `d / 1000` meters with nothing
/// lost.
pub proof fn lemma_unit_conversion(f: Seq<u8>)
    requires
        all_digits(f),
        1 <= f.len() <= 9,
    ensures
        dist_field_val(f) == Some((1_000_000 * digits_val(f)) as i64),
{
    assert(is_digit(f[0]));
    assert(f[0] != 45);
    lemma_split_no_sep(f, 46);
    let ps = split_at_sep(f, 46);
    assert(ps == seq![f]);
    assert(ps[0] == f);
    assert(is_valid_unsigned(f));
    assert(is_valid_fixed(f));
    assert(unsigned_micros(f) == digits_val(f) * 1_000_000);
    lemma_digits_val_bounds(f);
    lemma_pow10_le(f.len() as nat, 9);
    assert(pow10(9) == 1_000_000_000) by {
        reveal_with_fuel(pow10, 10);
    }
    assert(0 <= digits_val(f) * 1_000_000 < 1_000_000_000_000_000) by (nonlinear_arith)
        requires
            0 <= digits_val(f) < 1_000_000_000,
    ;
    assert(fixed_micros(f) == 1_000_000 * digits_val(f));
}

} // verus!
