//! The per-frame ingestion step and the consumer-side history buffer.
//!
//! The ingestion loop reads a fixed-size buffer from the device, hands it
//! to [`process_frame`], and acts on the outcome: a non-frame is skipped,
//! a ranging frame yields a [`Ping`] at once, a magnetometer frame yields
//! the two normalized axis readings whose angle `atan2(y, x) + pi` the
//! caller computes before building the `Ping`, and a magnetometer frame
//! under degenerate calibration is dropped — the sample that would have
//! had no well-defined angle never becomes a `Ping`. Published pings land
//! in the consumer's [`History`], a FIFO buffer capped at
//! [`MAX_PINGS`] entries.

use vstd::prelude::*;
use crate::codec::Reading;
use crate::codec::decode_frame;
use crate::codec::frame_fields;
use crate::codec::dist_field_val;
use crate::codec::num_field_val;
use crate::codec::lemma_num_field_bound;
use crate::calibration::CalibrationBounds;
use crate::heading::Ratio;
use crate::heading::normalize;
use crate::heading::norm_num;
use crate::heading::norm_den;
use crate::text::is_utf8;

verus! {

/// Capacity of the consumer's history buffer.
pub const MAX_PINGS: usize = 500;

/// The pipeline's sole output: one distance sweep and its heading.
///
/// Distances are in nanometers, `None` marking a corrupt field (rendered
/// as an out-of-range sample). The heading is in micro-radians and always
/// a plain finite integer: a sample whose angle would be undefined is
/// dropped before a `Ping` exists.
#[derive(Debug, Clone, PartialEq, Eq)]
pub struct Ping {
    pub distances: Vec<Option<i64>>,
    pub heading: i64,
}

/// The mathematical content of a [`Ping`].
pub struct PingView {
    pub distances: Seq<Option<i64>>,
    pub heading: i64,
}

impl View for Ping {
    type V = PingView;

    open spec fn view(&self) -> PingView {
        PingView { distances: self.distances@, heading: self.heading }
    }
}

/// What one raw frame yields.
#[derive(Debug)]
pub enum FrameOutcome {
    /// Not a frame at all: skip it and read again.
    NotAFrame,
    /// A ranging frame: a finished ping, heading straight off the device.
    Ready(Ping),
    /// A magnetometer frame under usable calibration: the caller turns the
    /// two normalized axis readings into an angle, then builds the ping.
    NeedsHeading { distances: Vec<Option<i64>>, x: Ratio, y: Ratio },
    /// A magnetometer frame under degenerate calibration: the sample has
    /// no well-defined heading and is dropped.
    Degenerate,
}

/// Decide what one raw frame yields under the session's calibration.
pub fn process_frame(buf: &[u8], calib: &CalibrationBounds) -> (r: FrameOutcome)
    requires
        calib.wf(),
    ensures
        (r is NotAFrame) == (!is_utf8(buf@) || (frame_fields(buf@).len() != 20 && frame_fields(
            buf@,
        ).len() != 13)),
        is_utf8(buf@) && frame_fields(buf@).len() == 20 ==> (r matches FrameOutcome::Ready(p)
            && p@.distances.len() == 9 && (forall|j: int|
            0 <= j < 9 ==> p@.distances[j] == dist_field_val(frame_fields(buf@)[2 + j]))
            && p@.heading == num_field_val(frame_fields(buf@)[0])),
        is_utf8(buf@) && frame_fields(buf@).len() == 13 ==> ((r is Degenerate) == !calib.usable()),
        is_utf8(buf@) && frame_fields(buf@).len() == 13 && calib.usable() ==> (r matches
            FrameOutcome::NeedsHeading { distances, x, y } && distances@.len() == 9 && (forall|
            j: int,
        |
            0 <= j < 9 ==> distances@[j] == dist_field_val(frame_fields(buf@)[3 + j])) && x.num
            == norm_num(
            num_field_val(frame_fields(buf@)[0]) as int,
            calib.max_x as int,
            calib.min_x as int,
        ) && x.den == norm_den(calib.max_x as int, calib.min_x as int) && y.num == norm_num(
            num_field_val(frame_fields(buf@)[1]) as int,
            calib.max_y as int,
            calib.min_y as int,
        ) && y.den == norm_den(calib.max_y as int, calib.min_y as int) && x.den != 0 && y.den
            != 0),
{
    let ghost fs = frame_fields(buf@);
    match decode_frame(buf) {
        None => FrameOutcome::NotAFrame,
        Some(Reading::Ranging { distances, heading, .. }) => FrameOutcome::Ready(
            Ping { distances, heading },
        ),
        Some(Reading::Magnetometer { distances, mag_x, mag_y, .. }) => {
            proof {
                lemma_num_field_bound(fs[0]);
                lemma_num_field_bound(fs[1]);
            }
            let ox = normalize(mag_x, calib.max_x, calib.min_x);
            let oy = normalize(mag_y, calib.max_y, calib.min_y);
            match (ox, oy) {
                (Some(x), Some(y)) => FrameOutcome::NeedsHeading { distances, x, y },
                _ => FrameOutcome::Degenerate,
            }
        },
    }
}

/// The consumer-side history: an ordered FIFO buffer of published pings,
/// never holding more than [`MAX_PINGS`] of them.
pub struct History {
    items: Vec<Ping>,
}

impl View for History {
    type V = Seq<PingView>;

    closed spec fn view(&self) -> Seq<PingView> {
        self.items@.map_values(|p: Ping| p@)
    }
}

impl History {
    /// An empty history.
    pub fn new() -> (r: History)
        ensures
            r@ == Seq::<PingView>::empty(),
    {
        let r = History { items: Vec::new() };
        proof {
            assert(r@ =~= Seq::<PingView>::empty());
        }
        r
    }

    /// How many pings are held.
    pub fn len(&self) -> (r: usize)
        ensures
            r == self@.len(),
    {
        self.items.len()
    }

    /// The ping at position `i`, oldest first.
    pub fn get(&self, i: usize) -> (r: &Ping)
        requires
            i < self@.len(),
        ensures
            r@ == self@[i as int],
    {
        &self.items[i]
    }

    /// Drop every held ping.
    pub fn clear(&mut self)
        ensures
            final(self)@ == Seq::<PingView>::empty(),
    {
        self.items.clear();
        proof {
            assert(self@ =~= Seq::<PingView>::empty());
        }
    }

    /// Append one published ping, evicting the oldest when the buffer is
    /// full: the buffer never exceeds [`MAX_PINGS`] entries and keeps
    /// strict FIFO order.
    pub fn push(&mut self, p: Ping)
        requires
            old(self)@.len() <= 500,
        ensures
            final(self)@.len() <= 500,
            old(self)@.len() < 500 ==> final(self)@ == old(self)@.push(p@),
            old(self)@.len() == 500 ==> final(self)@ == old(self)@.subrange(1, 500).push(p@),
    {
        let ghost pre = self.items@;
        if self.items.len() == MAX_PINGS {
            self.items.remove(0);
            proof {
                assert(self.items@ =~= pre.subrange(1, 500));
            }
        }
        let ghost mid = self.items@;
        self.items.push(p);
        proof {
            assert(self.items@ =~= mid.push(p));
            if pre.len() < 500 {
                assert(self@ =~= old(self)@.push(p@));
            } else {
                assert(self@ =~= old(self)@.subrange(1, 500).push(p@)) by {
                    assert(forall|i: int|
                        0 <= i < 500 ==> old(self)@.subrange(1, 500).push(p@)[i] == self@[i]);
                }
            }
        }
    }
}

} // verus!
