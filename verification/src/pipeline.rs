//! The decisions of the event loop: what a frame from one stream does to
//! the pipeline state and what has to be sent out in response.
//!
//! Reading the streams, the calibration and the position estimate on
//! floating-point values, and publishing are the caller's part.

use crate::packet::{decode_frame, frame_decodes_to, Packet, PacketError};
use crate::proto::{ConvertedCirReport, ImuReport, RangeReport};
use crate::synchronizer::{batch_views, drained_batches, drained_queues, Synchronizer};
use vstd::prelude::*;

verus! {

/// Largest gap between two inertial reports, in microseconds, that is
/// not flagged.
pub const IMU_GAP_LIMIT: u64 = 1500;

/// The binary64 pattern of the calibration bias, 76.8, that the caller
/// takes off every distance of a batch before publishing it.
pub const RANGE_BIAS: u64 = 0x4053_3333_3333_3333;

/// Whether an inertial report stamped `now` comes late after one stamped
/// `last`: the gap is more than the limit.
pub open spec fn is_late(last: Option<u64>, now: u64) -> bool {
    match last {
        Some(before) => now - before > IMU_GAP_LIMIT,
        None => false,
    }
}

/// Tells whether an inertial report stamped `now` comes late.
pub fn imu_is_late(last: Option<u64>, now: u64) -> (late: bool)
    ensures
        late == is_late(last, now),
{
    match last {
        Some(before) => now > before && now - before > IMU_GAP_LIMIT,
        None => false,
    }
}

/// What the caller has to do after a frame.
#[derive(Debug)]
pub enum Reaction {
    /// Calibrate, publish and localize each batch, in order.
    Batches(Vec<Vec<RangeReport>>),
    /// Publish the inertial report; `late` asks for a diagnostic.
    Imu { report: ImuReport, late: bool },
    /// Publish the converted impulse response.
    Cir(ConvertedCirReport),
    /// Nothing to publish; the frame was dropped for this reason.
    Dropped(PacketError),
}

/// The state that the event loop carries from frame to frame.
pub struct Pipeline {
    /// The pending range reports, one queue per stream.
    pub synchronizer: Synchronizer,
    /// Timestamp of the last inertial report, once one was seen.
    pub last_imu_ts: Option<u64>,
}

impl Pipeline {
    /// The queues as sequences of reports, by stream.
    pub open spec fn queues(&self) -> Seq<Seq<RangeReport>> {
        self.synchronizer@
    }

    /// Whether `after` and `reaction` are what `packet`, decoded from a
    /// frame of stream `id`, makes of the state `self`.
    ///
    /// A range report joins the queue of its stream, and every batch
    /// that can then be drawn is drawn. An inertial report becomes the
    /// last one seen. Anything else leaves the state as it is.
    pub open spec fn steps_to(
        self,
        id: int,
        packet: Result<Packet, PacketError>,
        after: Pipeline,
        reaction: Reaction,
    ) -> bool {
        match packet {
            Ok(Packet::Range(report)) => {
                let pushed = self.queues().update(id, self.queues()[id].push(report));
                &&& after.queues() == drained_queues(pushed)
                &&& after.last_imu_ts == self.last_imu_ts
                &&& match reaction {
                    Reaction::Batches(batches) => batch_views(batches) == drained_batches(pushed),
                    _ => false,
                }
            },
            Ok(Packet::Imu(report)) => {
                &&& after.queues() == self.queues()
                &&& after.last_imu_ts == Some(report.system_ts)
                &&& reaction == (Reaction::Imu {
                    report,
                    late: is_late(self.last_imu_ts, report.system_ts),
                })
            },
            Ok(Packet::Cir(report)) => {
                &&& after.queues() == self.queues()
                &&& after.last_imu_ts == self.last_imu_ts
                &&& match reaction {
                    Reaction::Cir(converted) => converted.converts(report),
                    _ => false,
                }
            },
            Err(e) => {
                &&& after.queues() == self.queues()
                &&& after.last_imu_ts == self.last_imu_ts
                &&& reaction == Reaction::Dropped(e)
            },
        }
    }

    /// The state before any frame: one empty queue per stream and no
    /// inertial report seen.
    pub fn new(streams: usize) -> (p: Pipeline)
        ensures
            p.queues() == Seq::new(streams as nat, |i: int| Seq::<RangeReport>::empty()),
            p.last_imu_ts.is_none(),
    {
        Pipeline { synchronizer: Synchronizer::new(streams), last_imu_ts: None }
    }

    /// Takes in what a frame of stream `id` decoded to.
    pub fn on_packet(&mut self, id: usize, packet: Result<Packet, PacketError>) -> (reaction:
        Reaction)
        requires
            id < old(self).queues().len(),
        ensures
            old(self).steps_to(id as int, packet, *final(self), reaction),
            final(self).queues().len() == old(self).queues().len(),
    {
        match packet {
            Ok(Packet::Range(report)) => {
                self.synchronizer.push(id, report);
                let batches = self.synchronizer.drain();
                Reaction::Batches(batches)
            },
            Ok(Packet::Imu(report)) => {
                let late = imu_is_late(self.last_imu_ts, report.system_ts);
                self.last_imu_ts = Some(report.system_ts);
                Reaction::Imu { report, late }
            },
            Ok(Packet::Cir(report)) => Reaction::Cir(ConvertedCirReport::from(report)),
            Err(e) => Reaction::Dropped(e),
        }
    }

    /// Decodes a frame of stream `id` and takes in the result.
    pub fn on_frame(&mut self, id: usize, frame: &Vec<u8>) -> (reaction: Reaction)
        requires
            id < old(self).queues().len(),
        ensures
            exists|packet: Result<Packet, PacketError>|
                frame_decodes_to(frame@, packet) && old(self).steps_to(
                    id as int,
                    packet,
                    *final(self),
                    reaction,
                ),
            final(self).queues().len() == old(self).queues().len(),
    {
        let packet = decode_frame(frame);
        self.on_packet(id, packet)
    }
}

} // verus!
