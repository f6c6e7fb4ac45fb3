//! Magnetometer calibration: the observed per-axis extremes, their live
//! collection, and the persisted record format.
//!
//! A calibration session folds every observed `(x, y)` magnetometer pair
//! into running extremes. The result is persisted as a single text line of
//! four space-separated numerals — `max_x min_x max_y min_y` — and loaded
//! back on later runs. Reading the device and waiting for the stop signal
//! are the caller's concern; the folding step and the record format are
//! verified here.

use vstd::prelude::*;
use crate::numeric::is_valid_fixed;
use crate::numeric::fixed_micros;
use crate::numeric::spec_format_micros;
use crate::numeric::format_micros;
use crate::numeric::parse_fixed;
use crate::numeric::lemma_format_parse_round_trip;
use crate::numeric::VAL_LIMIT;
use crate::text::split_at_sep;
use crate::text::split_bytes;
use crate::text::fields_view;
use crate::text::lemma_split_clean_prefix;
use crate::text::lemma_split_no_sep;
use crate::numeric::lemma_format_no_space;

verus! {

/// The observed extremes of the two magnetometer axes used for heading,
/// in micro-units.
#[derive(Debug, Clone, Copy, PartialEq, Eq, Structural)]
pub struct CalibrationBounds {
    pub max_x: i64,
    pub min_x: i64,
    pub max_y: i64,
    pub min_y: i64,
}

impl CalibrationBounds {
    /// All four extremes are representable numerals.
    pub open spec fn wf(self) -> bool {
        &&& -VAL_LIMIT < self.max_x < VAL_LIMIT
        &&& -VAL_LIMIT < self.min_x < VAL_LIMIT
        &&& -VAL_LIMIT < self.max_y < VAL_LIMIT
        &&& -VAL_LIMIT < self.min_y < VAL_LIMIT
    }

    /// Both axes have distinct extremes, so normalization is defined.
    pub open spec fn usable(self) -> bool {
        self.max_x != self.min_x && self.max_y != self.min_y
    }
}

/// The running state of a live calibration session.
#[derive(Debug, Clone, Copy, PartialEq, Eq, Structural)]
pub struct Calibrator {
    /// Whether any sample has been folded in yet.
    pub started: bool,
    /// Extremes over the samples seen so far; all zero before the first.
    pub bounds: CalibrationBounds,
}

impl Calibrator {
    pub open spec fn wf(self) -> bool {
        self.bounds.wf()
    }

    /// A fresh session that has seen no samples.
    pub fn new() -> (r: Calibrator)
        ensures
            !r.started,
            r.bounds == (CalibrationBounds { max_x: 0i64, min_x: 0i64, max_y: 0i64, min_y: 0i64 }),
            r.wf(),
    {
        Calibrator {
            started: false,
            bounds: CalibrationBounds { max_x: 0, min_x: 0, max_y: 0, min_y: 0 },
        }
    }

    /// Fold one magnetometer sample into the running extremes: the first
    /// sample sets both extremes of both axes, every later one widens them
    /// where it lies outside.
    pub fn observe(&mut self, x: i64, y: i64)
        requires
            old(self).wf(),
            -VAL_LIMIT < x < VAL_LIMIT,
            -VAL_LIMIT < y < VAL_LIMIT,
        ensures
            final(self).wf(),
            final(self).started,
            !old(self).started ==> final(self).bounds == (CalibrationBounds {
                max_x: x,
                min_x: x,
                max_y: y,
                min_y: y,
            }),
            old(self).started ==> final(self).bounds == (CalibrationBounds {
                max_x: if x > old(self).bounds.max_x {
                    x
                } else {
                    old(self).bounds.max_x
                },
                min_x: if x < old(self).bounds.min_x {
                    x
                } else {
                    old(self).bounds.min_x
                },
                max_y: if y > old(self).bounds.max_y {
                    y
                } else {
                    old(self).bounds.max_y
                },
                min_y: if y < old(self).bounds.min_y {
                    y
                } else {
                    old(self).bounds.min_y
                },
            }),
            final(self).bounds.min_x <= x <= final(self).bounds.max_x,
            final(self).bounds.min_y <= y <= final(self).bounds.max_y,
    {
        if !self.started {
            self.started = true;
            self.bounds = CalibrationBounds { max_x: x, min_x: x, max_y: y, min_y: y };
        } else {
            if x > self.bounds.max_x {
                self.bounds.max_x = x;
            }
            if x < self.bounds.min_x {
                self.bounds.min_x = x;
            }
            if y > self.bounds.max_y {
                self.bounds.max_y = y;
            }
            if y < self.bounds.min_y {
                self.bounds.min_y = y;
            }
        }
    }
}

/// The persisted calibration record: the four extremes as canonical
/// numerals, space-separated, in the order `max_x min_x max_y min_y`.
pub open spec fn spec_encode_record(b: CalibrationBounds) -> Seq<u8> {
    spec_format_micros(b.max_x as int).add(
        seq![32u8].add(
            spec_format_micros(b.min_x as int).add(
                seq![32u8].add(
                    spec_format_micros(b.max_y as int).add(
                        seq![32u8].add(spec_format_micros(b.min_y as int)),
                    ),
                ),
            ),
        ),
    )
}

/// Serialize calibration bounds as their persisted record line.
pub fn encode_record(b: &CalibrationBounds) -> (r: Vec<u8>)
    requires
        b.wf(),
    ensures
        r@ == spec_encode_record(*b),
{
    let mut out: Vec<u8> = Vec::new();
    format_micros(b.max_x, &mut out);
    out.push(32);
    format_micros(b.min_x, &mut out);
    out.push(32);
    format_micros(b.max_y, &mut out);
    out.push(32);
    format_micros(b.min_y, &mut out);
    proof {
        assert(out@ =~= spec_encode_record(*b));
    }
    out
}

/// What a record line denotes: bounds exactly when it is four
/// space-separated numerals, nothing otherwise.
pub open spec fn spec_parse_record(s: Seq<u8>) -> Option<CalibrationBounds> {
    let ps = split_at_sep(s, 32);
    if ps.len() == 4 && is_valid_fixed(ps[0]) && is_valid_fixed(ps[1]) && is_valid_fixed(ps[2])
        && is_valid_fixed(ps[3]) {
        Some(
            CalibrationBounds {
                max_x: fixed_micros(ps[0]) as i64,
                min_x: fixed_micros(ps[1]) as i64,
                max_y: fixed_micros(ps[2]) as i64,
                min_y: fixed_micros(ps[3]) as i64,
            },
        )
    } else {
        None
    }
}

/// Parse a persisted record line; `None` on any malformed record (the
/// caller treats that as fatal in reuse mode).
pub fn parse_record(s: &[u8]) -> (r: Option<CalibrationBounds>)
    ensures
        r == spec_parse_record(s@),
        r matches Some(b) ==> b.wf(),
{
    let parts = split_bytes(s, 32);
    proof {
        assert(forall|i: int| 0 <= i < parts@.len() ==> parts@[i]@ == fields_view(parts@)[i]);
    }
    if parts.len() != 4 {
        return None;
    }
    let max_x = match parse_fixed(parts[0].as_slice()) {
        Some(v) => v,
        None => {
            return None;
        },
    };
    let min_x = match parse_fixed(parts[1].as_slice()) {
        Some(v) => v,
        None => {
            return None;
        },
    };
    let max_y = match parse_fixed(parts[2].as_slice()) {
        Some(v) => v,
        None => {
            return None;
        },
    };
    let min_y = match parse_fixed(parts[3].as_slice()) {
        Some(v) => v,
        None => {
            return None;
        },
    };
    Some(CalibrationBounds { max_x, min_x, max_y, min_y })
}

/// The calibration round-trip law: any well-formed bounds, persisted as a
/// record line and parsed back, come back identical.
pub proof fn lemma_record_round_trip(b: CalibrationBounds)
    requires
        b.wf(),
    ensures
        spec_parse_record(spec_encode_record(b)) == Some(b),
{
    let f1 = spec_format_micros(b.max_x as int);
    let f2 = spec_format_micros(b.min_x as int);
    let f3 = spec_format_micros(b.max_y as int);
    let f4 = spec_format_micros(b.min_y as int);
    lemma_format_no_space(b.max_x as int);
    lemma_format_no_space(b.min_x as int);
    lemma_format_no_space(b.max_y as int);
    lemma_format_no_space(b.min_y as int);
    lemma_format_parse_round_trip(b.max_x as int);
    lemma_format_parse_round_trip(b.min_x as int);
    lemma_format_parse_round_trip(b.max_y as int);
    lemma_format_parse_round_trip(b.min_y as int);
    let s = spec_encode_record(b);
    let r3 = f3.add(seq![32u8].add(f4));
    let r2 = f2.add(seq![32u8].add(r3));
    assert(s == f1.add(seq![32u8].add(r2)));
    lemma_split_clean_prefix(f1, r2, 32);
    lemma_split_clean_prefix(f2, r3, 32);
    lemma_split_clean_prefix(f3, f4, 32);
    lemma_split_no_sep(f4, 32);
    let ps = split_at_sep(s, 32);
    assert(ps =~= seq![f1, f2, f3, f4]);
    assert(ps[0] == f1 && ps[1] == f2 && ps[2] == f3 && ps[3] == f4);
    assert(spec_parse_record(s) == Some(b));
}

} // verus!
