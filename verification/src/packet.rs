//! From a recovered frame to a typed packet: the envelope head is cut
//! off, the payload is unstuffed, and the tag at its start selects the
//! layout.

use crate::proto::{
    layout_fault, CirReport, ImuReport, LayoutError, RangeReport, CIR_REPORT_SIZE,
    IMU_REPORT_SIZE, RANGE_REPORT_SIZE,
};
use vstd::prelude::*;
use vstd::slice::slice_subrange;

verus! {

/// The error of `rzcobs::decode`; it carries nothing.
#[verifier::external_type_specification]
#[verifier::external_body]
pub struct ExMalformedError(rzcobs::MalformedError);

/// The message that a zero-suppressed byte sequence stands for, or `None`
/// where the sequence is malformed.
pub uninterp spec fn unstuffed(data: Seq<u8>) -> Option<Seq<u8>>;

/// `rzcobs::decode`: reverses the zero suppression of a whole message.
/// The result depends on the bytes alone and no input makes it panic.
#[verifier::external_body]
fn unstuff(data: &[u8]) -> (r: Result<Vec<u8>, rzcobs::MalformedError>)
    ensures
        match r {
            Ok(message) => unstuffed(data@) == Some(message@),
            Err(_) => unstuffed(data@).is_none(),
        },
{
    rzcobs::decode(data)
}

/// A decoded packet, by its tag.
#[derive(Debug, Clone, Copy)]
pub enum Packet {
    Range(RangeReport),
    Imu(ImuReport),
    Cir(CirReport),
}

/// Why a frame gives no packet. None of these ends the stream.
#[derive(Debug, PartialEq, Eq, Clone, Copy)]
pub enum PacketError {
    /// The frame is shorter than the envelope head.
    Framing,
    /// The payload is not a well-formed zero-suppressed message.
    Unstuff,
    /// The payload starts with none of the known tags.
    UnknownTag,
    /// The payload has a known tag but does not hold the whole record.
    Layout(LayoutError),
}

/// Length of the envelope head: the delimiter and the three header bytes.
pub const ENVELOPE_HEAD: usize = 4;

/// Whether `s` starts with the three bytes `m0 m1 m2`.
pub open spec fn tagged(s: Seq<u8>, m0: u8, m1: u8, m2: u8) -> bool {
    s.len() >= 3 && s[0] == m0 && s[1] == m1 && s[2] == m2
}

/// Whether `r` is what the unstuffed payload `p` dispatches to.
///
/// A payload of fewer than three bytes is truncated; one tagged `RNG`,
/// `IMU` or `CIR` gives the record of that layout, or the fault of that
/// layout; any other is of unknown tag.
pub open spec fn dispatches_to(p: Seq<u8>, r: Result<Packet, PacketError>) -> bool {
    if p.len() < 3 {
        r == Err::<Packet, PacketError>(PacketError::Layout(LayoutError::Truncated))
    } else if tagged(p, 0x52, 0x4E, 0x47) {
        match r {
            Ok(Packet::Range(rep)) => layout_fault(p, 0x52, 0x4E, 0x47, RANGE_REPORT_SIZE as int)
                .is_none() && rep.held_by(p),
            Err(PacketError::Layout(e)) => layout_fault(p, 0x52, 0x4E, 0x47, RANGE_REPORT_SIZE as int)
                == Some(e),
            _ => false,
        }
    } else if tagged(p, 0x49, 0x4D, 0x55) {
        match r {
            Ok(Packet::Imu(rep)) => layout_fault(p, 0x49, 0x4D, 0x55, IMU_REPORT_SIZE as int)
                .is_none() && rep.held_by(p),
            Err(PacketError::Layout(e)) => layout_fault(p, 0x49, 0x4D, 0x55, IMU_REPORT_SIZE as int)
                == Some(e),
            _ => false,
        }
    } else if tagged(p, 0x43, 0x49, 0x52) {
        match r {
            Ok(Packet::Cir(rep)) => layout_fault(p, 0x43, 0x49, 0x52, CIR_REPORT_SIZE as int)
                .is_none() && rep.held_by(p),
            Err(PacketError::Layout(e)) => layout_fault(p, 0x43, 0x49, 0x52, CIR_REPORT_SIZE as int)
                == Some(e),
            _ => false,
        }
    } else {
        r == Err::<Packet, PacketError>(PacketError::UnknownTag)
    }
}

/// Whether `r` is what the frame `frame` decodes to, given what its
/// payload unstuffs to.
pub open spec fn frame_decodes_to(frame: Seq<u8>, r: Result<Packet, PacketError>) -> bool {
    if frame.len() < ENVELOPE_HEAD {
        r == Err::<Packet, PacketError>(PacketError::Framing)
    } else {
        match unstuffed(frame.skip(ENVELOPE_HEAD as int)) {
            None => r == Err::<Packet, PacketError>(PacketError::Unstuff),
            Some(p) => dispatches_to(p, r),
        }
    }
}

/// Reads the record that the tag of the unstuffed payload selects.
pub fn dispatch(payload: &Vec<u8>) -> (r: Result<Packet, PacketError>)
    ensures
        dispatches_to(payload@, r),
{
    if payload.len() < 3 {
        return Err(PacketError::Layout(LayoutError::Truncated));
    }
    let t0 = payload[0];
    let t1 = payload[1];
    let t2 = payload[2];
    if t0 == 0x52 && t1 == 0x4E && t2 == 0x47 {
        match RangeReport::read(payload) {
            Ok(rep) => Ok(Packet::Range(rep)),
            Err(e) => Err(PacketError::Layout(e)),
        }
    } else if t0 == 0x49 && t1 == 0x4D && t2 == 0x55 {
        match ImuReport::read(payload) {
            Ok(rep) => Ok(Packet::Imu(rep)),
            Err(e) => Err(PacketError::Layout(e)),
        }
    } else if t0 == 0x43 && t1 == 0x49 && t2 == 0x52 {
        match CirReport::read(payload) {
            Ok(rep) => Ok(Packet::Cir(rep)),
            Err(e) => Err(PacketError::Layout(e)),
        }
    } else {
        Err(PacketError::UnknownTag)
    }
}

/// Decodes one frame as the stream decoder hands it out: envelope head
/// included, closing delimiter excluded.
pub fn decode_frame(frame: &Vec<u8>) -> (r: Result<Packet, PacketError>)
    ensures
        frame_decodes_to(frame@, r),
{
    if frame.len() < ENVELOPE_HEAD {
        return Err(PacketError::Framing);
    }
    let stuffed = slice_subrange(frame.as_slice(), ENVELOPE_HEAD, frame.len());
    assert(stuffed@ =~= frame@.skip(ENVELOPE_HEAD as int));
    match unstuff(stuffed) {
        Ok(payload) => dispatch(&payload),
        Err(_) => Err(PacketError::Unstuff),
    }
}

} // verus!
