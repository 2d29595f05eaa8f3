//! The fixed little-endian packet layouts exchanged with the anchors.
//!
//! Every payload starts with a three-byte tag (`RNG`, `IMU` or `CIR`)
//! followed by the fields in declaration order. Distances travel as
//! IEEE-754 binary64 values; a record keeps their 64-bit patterns.

use crate::wire::{
    bytes16, bytes32, bytes64, le16, le24, le32, le64, lemma_le16_of_bytes16,
    lemma_le32_of_bytes32, lemma_le64_of_bytes64, lemma_le_window, read_u16, read_u32, read_u64,
    write_u16, write_u32, write_u64,
};
use vstd::prelude::*;

verus! {

/// Size in bytes of a range report payload, tag included.
pub const RANGE_REPORT_SIZE: usize = 86;

/// Size in bytes of an inertial report payload, tag included.
pub const IMU_REPORT_SIZE: usize = 37;

/// Size in bytes of a channel-impulse-response payload, tag included.
pub const CIR_REPORT_SIZE: usize = 118;

/// Why a payload does not hold a record.
#[derive(Debug, PartialEq, Eq, Clone, Copy, Structural)]
pub enum LayoutError {
    /// The payload ends before the record does.
    Truncated,
    /// The payload starts with another tag.
    BadMagic,
}

/// Distances measured by one anchor in one ranging round.
#[derive(Debug, PartialEq, Clone, Copy)]
pub struct RangeReport {
    pub tag_addr: u16,
    pub system_ts: u64,
    pub seq_num: u8,
    /// Transmit timestamp of the poll that started the round: the key by
    /// which reports of different anchors are joined.
    pub trigger_txts: u64,
    /// Bit patterns of the binary64 distances, one per reference anchor.
    pub ranges: [u64; 8],
}

/// One inertial sample.
#[derive(Debug, PartialEq, Clone, Copy)]
pub struct ImuReport {
    pub tag_addr: u16,
    pub system_ts: u64,
    pub accel: [u32; 3],
    pub gyro: [u32; 3],
}

/// One complex sample as sent: two 24-bit two's-complement integers.
#[derive(Debug, PartialEq, Clone, Copy)]
pub struct RawCirSample {
    pub real: [u8; 3],
    pub imag: [u8; 3],
}

/// A window of the channel impulse response, as sent.
#[derive(Debug, Clone, Copy)]
pub struct CirReport {
    pub src_addr: u16,
    pub system_ts: u64,
    pub seq_num: u8,
    /// Phase of arrival.
    pub ip_poa: u16,
    /// First path index.
    pub fp_index: u16,
    /// Index at which the window starts.
    pub start_index: u16,
    pub cir_size: u16,
    pub cir: [RawCirSample; 16],
}

/// One complex sample with both parts sign-extended.
#[derive(Debug, PartialEq, Eq, Clone, Copy)]
pub struct CirSample {
    pub real: i32,
    pub imag: i32,
}

/// A window of the channel impulse response with sign-extended samples.
#[derive(Debug, Clone, Copy)]
pub struct ConvertedCirReport {
    pub src_addr: u16,
    pub system_ts: u64,
    pub seq_num: u8,
    pub ip_poa: u16,
    pub fp_index: u16,
    pub start_index: u16,
    pub cir_size: u16,
    pub cir: [CirSample; 16],
}

impl Default for RangeReport {
    fn default() -> (r: RangeReport)
        ensures
            r.tag_addr == 0,
            r.system_ts == 0,
            r.seq_num == 0,
            r.trigger_txts == 0,
            forall|k: int| 0 <= k < 8 ==> r.ranges[k] == 0,
    {
        RangeReport { tag_addr: 0, system_ts: 0, seq_num: 0, trigger_txts: 0, ranges: [0u64; 8] }
    }
}

impl Default for ImuReport {
    fn default() -> (r: ImuReport)
        ensures
            r.tag_addr == 0,
            r.system_ts == 0,
            forall|k: int| 0 <= k < 3 ==> r.accel[k] == 0 && r.gyro[k] == 0,
    {
        ImuReport { tag_addr: 0, system_ts: 0, accel: [0u32; 3], gyro: [0u32; 3] }
    }
}

impl Default for RawCirSample {
    fn default() -> (r: RawCirSample)
        ensures
            forall|k: int| 0 <= k < 3 ==> r.real[k] == 0 && r.imag[k] == 0,
    {
        RawCirSample { real: [0u8; 3], imag: [0u8; 3] }
    }
}

/// What is wrong with `s` as a record of `size` bytes tagged `m0 m1 m2`,
/// if anything: the tag is looked at first, then the length.
pub open spec fn layout_fault(s: Seq<u8>, m0: u8, m1: u8, m2: u8, size: int) -> Option<LayoutError> {
    if s.len() < 3 {
        Some(LayoutError::Truncated)
    } else if !(s[0] == m0 && s[1] == m1 && s[2] == m2) {
        Some(LayoutError::BadMagic)
    } else if s.len() < size {
        Some(LayoutError::Truncated)
    } else {
        None
    }
}

/// Checks tag and length of `bytes` against a layout.
fn check_layout(bytes: &Vec<u8>, m0: u8, m1: u8, m2: u8, size: usize) -> (r: Option<LayoutError>)
    ensures
        r == layout_fault(bytes@, m0, m1, m2, size as int),
{
    if bytes.len() < 3 {
        Some(LayoutError::Truncated)
    } else if !(bytes[0] == m0 && bytes[1] == m1 && bytes[2] == m2) {
        Some(LayoutError::BadMagic)
    } else if bytes.len() < size {
        Some(LayoutError::Truncated)
    } else {
        None
    }
}

/// The value of a 24-bit two's-complement pattern.
pub open spec fn signed24(raw: int) -> int {
    if raw >= 8388608 {
        raw - 16777216
    } else {
        raw
    }
}

/// The 24-bit two's-complement pattern of a value.
pub open spec fn unsigned24(v: int) -> int {
    if v < 0 {
        v + 16777216
    } else {
        v
    }
}

/// Sign extension loses nothing: the pattern is recovered from the value,
/// and the value lies in the signed 24-bit range.
pub proof fn lemma_sign_extension_lossless(raw: int)
    requires
        0 <= raw < 16777216,
    ensures
        -8388608 <= signed24(raw) < 8388608,
        unsigned24(signed24(raw)) == raw,
{
}

/// Sign-extends the 24-bit integer stored little-endian in `b`.
pub fn sign_extend(b: &[u8; 3]) -> (v: i32)
    ensures
        v as int == signed24(le24(b@, 0)),
{
    let raw: i32 = (b[0] as i32) + 256 * (b[1] as i32) + 65536 * (b[2] as i32);
    if raw >= 8388608 {
        raw - 16777216
    } else {
        raw
    }
}

impl RangeReport {
    /// The byte at position `i` of the encoded record.
    pub open spec fn byte_at(self, i: int) -> u8 {
        if i == 0 {
            0x52
        } else if i == 1 {
            0x4E
        } else if i == 2 {
            0x47
        } else if i < 5 {
            bytes16(self.tag_addr as int)[i - 3]
        } else if i < 13 {
            bytes64(self.system_ts as int)[i - 5]
        } else if i == 13 {
            self.seq_num
        } else if i < 22 {
            bytes64(self.trigger_txts as int)[i - 14]
        } else {
            bytes64(self.ranges[(i - 22) / 8] as int)[(i - 22) % 8]
        }
    }

    /// The encoded record: tag, then the fields in order.
    pub open spec fn encoded(self) -> Seq<u8> {
        Seq::new(RANGE_REPORT_SIZE as nat, |i: int| self.byte_at(i))
    }

    /// Whether the fields of `self` are those stored in `s`.
    pub open spec fn held_by(self, s: Seq<u8>) -> bool {
        &&& self.tag_addr as int == le16(s, 3)
        &&& self.system_ts as int == le64(s, 5)
        &&& self.seq_num == s[13]
        &&& self.trigger_txts as int == le64(s, 14)
        &&& forall|k: int| 0 <= k < 8 ==> self.ranges[k] as int == le64(s, 22 + 8 * k)
    }

    /// Reads a record from the start of `bytes`; what follows the record
    /// is ignored.
    pub fn read(bytes: &Vec<u8>) -> (r: Result<RangeReport, LayoutError>)
        ensures
            match r {
                Ok(rep) => layout_fault(bytes@, 0x52, 0x4E, 0x47, RANGE_REPORT_SIZE as int).is_none()
                    && rep.held_by(bytes@),
                Err(e) => layout_fault(bytes@, 0x52, 0x4E, 0x47, RANGE_REPORT_SIZE as int) == Some(e),
            },
    {
        match check_layout(bytes, 0x52, 0x4E, 0x47, RANGE_REPORT_SIZE) {
            Some(e) => Err(e),
            None => {
                let mut ranges: [u64; 8] = [0u64; 8];
                let mut i: usize = 0;
                while i < 8
                    invariant
                        i <= 8,
                        bytes.len() >= 86,
                        forall|k: int| 0 <= k < i ==> ranges[k] as int == le64(bytes@, 22 + 8 * k),
                    decreases 8 - i,
                {
                    ranges[i] = read_u64(bytes, 22 + 8 * i);
                    i += 1;
                }
                Ok(
                    RangeReport {
                        tag_addr: read_u16(bytes, 3),
                        system_ts: read_u64(bytes, 5),
                        seq_num: bytes[13],
                        trigger_txts: read_u64(bytes, 14),
                        ranges,
                    },
                )
            },
        }
    }

    /// The encoding up to an element, followed by that element's bytes, is
    /// the encoding up to the next element.
    proof fn lemma_encoded_grows(self, k: int)
        requires
            0 <= k < 8,
        ensures
            self.encoded().take(22 + 8 * k) + bytes64(self.ranges[k] as int)
                == self.encoded().take(22 + 8 * (k + 1)),
    {
        lemma_bytes_len(self.ranges[k] as int);
        let x = self.encoded().take(22 + 8 * k) + bytes64(self.ranges[k] as int);
        let y = self.encoded().take(22 + 8 * (k + 1));
        assert(x.len() == y.len());
        assert forall|i: int| 0 <= i < x.len() implies x[i] == y[i] by {
            if i >= 22 + 8 * k {
                let j = i - (22 + 8 * k);
                assert((i - 22) / 8 == k);
                assert((i - 22) % 8 == j);
            }
        }
        assert(x =~= y);
    }

    /// Appends the tag and the fields before the array.
    fn write_head(&self, out: &mut Vec<u8>)
        ensures
            final(out)@ == old(out)@ + self.encoded().take(22),
    {
        out.push(0x52);
        out.push(0x4E);
        out.push(0x47);
        write_u16(out, self.tag_addr);
        proof {
            lemma_bytes_len(self.tag_addr as int);
            assert(out@ =~= old(out)@ + self.encoded().take(5));
        }
        write_u64(out, self.system_ts);
        out.push(self.seq_num);
        proof {
            lemma_bytes_len(self.system_ts as int);
            assert(out@ =~= old(out)@ + self.encoded().take(14));
        }
        write_u64(out, self.trigger_txts);
        proof {
            lemma_bytes_len(self.trigger_txts as int);
            assert(out@ =~= old(out)@ + self.encoded().take(22));
        }
    }

    /// Appends the encoded record to `out`.
    pub fn write(&self, out: &mut Vec<u8>)
        ensures
            final(out)@ == old(out)@ + self.encoded(),
    {
        self.write_head(out);
        let mut i: usize = 0;
        while i < 8
            invariant
                i <= 8,
                out@ == old(out)@ + self.encoded().take(22 + 8 * i),
            decreases 8 - i,
        {
            write_u64(out, self.ranges[i]);
            proof {
                self.lemma_encoded_grows(i as int);
                assert(out@ =~= old(out)@ + (self.encoded().take(22 + 8 * i) + bytes64(
                    self.ranges[i as int] as int,
                )));
            }
            i += 1;
        }
        assert(self.encoded().take(86) =~= self.encoded());
    }
}

/// The lengths of the encodings of `v`.
pub proof fn lemma_bytes_len(v: int)
    ensures
        bytes16(v).len() == 2,
        bytes32(v).len() == 4,
        bytes64(v).len() == 8,
{
}

/// Decoding an encoded range report, whatever follows it, gives back
/// every field.
pub proof fn lemma_range_report_round_trip(rep: RangeReport, tail: Seq<u8>)
    ensures
        layout_fault(rep.encoded() + tail, 0x52, 0x4E, 0x47, RANGE_REPORT_SIZE as int).is_none(),
        rep.held_by(rep.encoded() + tail),
{
    let s = rep.encoded() + tail;
    lemma_bytes_len(rep.tag_addr as int);
    lemma_bytes_len(rep.system_ts as int);
    lemma_bytes_len(rep.trigger_txts as int);
    lemma_le_window(s, 3, bytes16(rep.tag_addr as int), 2);
    lemma_le16_of_bytes16(rep.tag_addr as int);
    lemma_le_window(s, 5, bytes64(rep.system_ts as int), 8);
    lemma_le64_of_bytes64(rep.system_ts as int);
    lemma_le_window(s, 14, bytes64(rep.trigger_txts as int), 8);
    lemma_le64_of_bytes64(rep.trigger_txts as int);
    assert forall|k: int| 0 <= k < 8 implies rep.ranges[k] as int == le64(s, 22 + 8 * k) by {
        let v = rep.ranges[k] as int;
        lemma_bytes_len(v);
        assert forall|j: int| 0 <= j < 8 implies s[22 + 8 * k + j] == bytes64(v)[j] by {
            assert((22 + 8 * k + j - 22) / 8 == k);
            assert((22 + 8 * k + j - 22) % 8 == j);
        }
        lemma_le_window(s, 22 + 8 * k, bytes64(v), 8);
        lemma_le64_of_bytes64(v);
    }
}

/// Two range reports held by the same bytes have the same fields.
pub proof fn lemma_range_report_unique(a: RangeReport, b: RangeReport, s: Seq<u8>)
    requires
        a.held_by(s),
        b.held_by(s),
    ensures
        a == b,
{
    assert(a.ranges@ =~= b.ranges@);
    assert(a.ranges =~= b.ranges);
}

impl ImuReport {
    /// The byte at position `i` of the encoded record.
    pub open spec fn byte_at(self, i: int) -> u8 {
        if i == 0 {
            0x49
        } else if i == 1 {
            0x4D
        } else if i == 2 {
            0x55
        } else if i < 5 {
            bytes16(self.tag_addr as int)[i - 3]
        } else if i < 13 {
            bytes64(self.system_ts as int)[i - 5]
        } else if i < 25 {
            bytes32(self.accel[(i - 13) / 4] as int)[(i - 13) % 4]
        } else {
            bytes32(self.gyro[(i - 25) / 4] as int)[(i - 25) % 4]
        }
    }

    /// The encoded record: tag, then the fields in order.
    pub open spec fn encoded(self) -> Seq<u8> {
        Seq::new(IMU_REPORT_SIZE as nat, |i: int| self.byte_at(i))
    }

    /// Whether the fields of `self` are those stored in `s`.
    pub open spec fn held_by(self, s: Seq<u8>) -> bool {
        &&& self.tag_addr as int == le16(s, 3)
        &&& self.system_ts as int == le64(s, 5)
        &&& forall|k: int| 0 <= k < 3 ==> self.accel[k] as int == le32(s, 13 + 4 * k)
        &&& forall|k: int| 0 <= k < 3 ==> self.gyro[k] as int == le32(s, 25 + 4 * k)
    }

    /// Reads a record from the start of `bytes`; what follows the record
    /// is ignored.
    pub fn read(bytes: &Vec<u8>) -> (r: Result<ImuReport, LayoutError>)
        ensures
            match r {
                Ok(rep) => layout_fault(bytes@, 0x49, 0x4D, 0x55, IMU_REPORT_SIZE as int).is_none()
                    && rep.held_by(bytes@),
                Err(e) => layout_fault(bytes@, 0x49, 0x4D, 0x55, IMU_REPORT_SIZE as int) == Some(e),
            },
    {
        match check_layout(bytes, 0x49, 0x4D, 0x55, IMU_REPORT_SIZE) {
            Some(e) => Err(e),
            None => {
                let mut accel: [u32; 3] = [0u32; 3];
                let mut gyro: [u32; 3] = [0u32; 3];
                let mut i: usize = 0;
                while i < 3
                    invariant
                        i <= 3,
                        bytes.len() >= 37,
                        forall|k: int| 0 <= k < i ==> accel[k] as int == le32(bytes@, 13 + 4 * k),
                        forall|k: int| 0 <= k < i ==> gyro[k] as int == le32(bytes@, 25 + 4 * k),
                    decreases 3 - i,
                {
                    accel[i] = read_u32(bytes, 13 + 4 * i);
                    gyro[i] = read_u32(bytes, 25 + 4 * i);
                    i += 1;
                }
                Ok(
                    ImuReport {
                        tag_addr: read_u16(bytes, 3),
                        system_ts: read_u64(bytes, 5),
                        accel,
                        gyro,
                    },
                )
            },
        }
    }

    /// The encoding up to an element, followed by that element's bytes, is
    /// the encoding up to the next element.
    proof fn lemma_encoded_grows(self, k: int)
        requires
            0 <= k < 6,
        ensures
            self.encoded().take(13 + 4 * k) + bytes32(
                (if k < 3 {
                    self.accel[k]
                } else {
                    self.gyro[k - 3]
                }) as int,
            ) == self.encoded().take(13 + 4 * (k + 1)),
    {
        let v = (if k < 3 {
            self.accel[k]
        } else {
            self.gyro[k - 3]
        }) as int;
        lemma_bytes_len(v);
        let x = self.encoded().take(13 + 4 * k) + bytes32(v);
        let y = self.encoded().take(13 + 4 * (k + 1));
        assert(x.len() == y.len());
        assert forall|i: int| 0 <= i < x.len() implies x[i] == y[i] by {
            if i >= 13 + 4 * k {
                let j = i - (13 + 4 * k);
                if k < 3 {
                    assert((i - 13) / 4 == k);
                    assert((i - 13) % 4 == j);
                } else {
                    assert((i - 25) / 4 == k - 3);
                    assert((i - 25) % 4 == j);
                }
            }
        }
        assert(x =~= y);
    }

    /// Appends the tag and the fields before the array.
    fn write_head(&self, out: &mut Vec<u8>)
        ensures
            final(out)@ == old(out)@ + self.encoded().take(13),
    {
        out.push(0x49);
        out.push(0x4D);
        out.push(0x55);
        write_u16(out, self.tag_addr);
        proof {
            lemma_bytes_len(self.tag_addr as int);
            assert(out@ =~= old(out)@ + self.encoded().take(5));
        }
        write_u64(out, self.system_ts);
        proof {
            lemma_bytes_len(self.system_ts as int);
            assert(out@ =~= old(out)@ + self.encoded().take(13));
        }
    }

    /// Appends the encoded record to `out`.
    pub fn write(&self, out: &mut Vec<u8>)
        ensures
            final(out)@ == old(out)@ + self.encoded(),
    {
        self.write_head(out);
        let mut i: usize = 0;
        while i < 3
            invariant
                i <= 3,
                out@ == old(out)@ + self.encoded().take(13 + 4 * i),
            decreases 3 - i,
        {
            write_u32(out, self.accel[i]);
            proof {
                self.lemma_encoded_grows(i as int);
                assert(out@ =~= old(out)@ + (self.encoded().take(13 + 4 * i) + bytes32(
                    self.accel[i as int] as int,
                )));
            }
            i += 1;
        }
        let mut i: usize = 0;
        while i < 3
            invariant
                i <= 3,
                out@ == old(out)@ + self.encoded().take(25 + 4 * i),
            decreases 3 - i,
        {
            write_u32(out, self.gyro[i]);
            proof {
                self.lemma_encoded_grows(i as int + 3);
                assert(out@ =~= old(out)@ + (self.encoded().take(25 + 4 * i) + bytes32(
                    self.gyro[i as int] as int,
                )));
            }
            i += 1;
        }
        assert(self.encoded().take(37) =~= self.encoded());
    }
}

/// Decoding an encoded inertial report, whatever follows it, gives back
/// every field.
pub proof fn lemma_imu_report_round_trip(rep: ImuReport, tail: Seq<u8>)
    ensures
        layout_fault(rep.encoded() + tail, 0x49, 0x4D, 0x55, IMU_REPORT_SIZE as int).is_none(),
        rep.held_by(rep.encoded() + tail),
{
    let s = rep.encoded() + tail;
    lemma_bytes_len(rep.tag_addr as int);
    lemma_bytes_len(rep.system_ts as int);
    lemma_le_window(s, 3, bytes16(rep.tag_addr as int), 2);
    lemma_le16_of_bytes16(rep.tag_addr as int);
    lemma_le_window(s, 5, bytes64(rep.system_ts as int), 8);
    lemma_le64_of_bytes64(rep.system_ts as int);
    assert forall|k: int| 0 <= k < 3 implies rep.accel[k] as int == le32(s, 13 + 4 * k) by {
        let v = rep.accel[k] as int;
        lemma_bytes_len(v);
        assert forall|j: int| 0 <= j < 4 implies s[13 + 4 * k + j] == bytes32(v)[j] by {
            assert((13 + 4 * k + j - 13) / 4 == k);
            assert((13 + 4 * k + j - 13) % 4 == j);
        }
        lemma_le_window(s, 13 + 4 * k, bytes32(v), 4);
        lemma_le32_of_bytes32(v);
    }
    assert forall|k: int| 0 <= k < 3 implies rep.gyro[k] as int == le32(s, 25 + 4 * k) by {
        let v = rep.gyro[k] as int;
        lemma_bytes_len(v);
        assert forall|j: int| 0 <= j < 4 implies s[25 + 4 * k + j] == bytes32(v)[j] by {
            assert((25 + 4 * k + j - 25) / 4 == k);
            assert((25 + 4 * k + j - 25) % 4 == j);
        }
        lemma_le_window(s, 25 + 4 * k, bytes32(v), 4);
        lemma_le32_of_bytes32(v);
    }
}

/// Two inertial reports held by the same bytes have the same fields.
pub proof fn lemma_imu_report_unique(a: ImuReport, b: ImuReport, s: Seq<u8>)
    requires
        a.held_by(s),
        b.held_by(s),
    ensures
        a == b,
{
    assert(a.accel@ =~= b.accel@);
    assert(a.accel =~= b.accel);
    assert(a.gyro@ =~= b.gyro@);
    assert(a.gyro =~= b.gyro);
}

impl CirReport {
    /// The byte at position `i` of the encoded record.
    pub open spec fn byte_at(self, i: int) -> u8 {
        if i == 0 {
            0x43
        } else if i == 1 {
            0x49
        } else if i == 2 {
            0x52
        } else if i < 5 {
            bytes16(self.src_addr as int)[i - 3]
        } else if i < 13 {
            bytes64(self.system_ts as int)[i - 5]
        } else if i == 13 {
            self.seq_num
        } else if i < 16 {
            bytes16(self.ip_poa as int)[i - 14]
        } else if i < 18 {
            bytes16(self.fp_index as int)[i - 16]
        } else if i < 20 {
            bytes16(self.start_index as int)[i - 18]
        } else if i < 22 {
            bytes16(self.cir_size as int)[i - 20]
        } else if (i - 22) % 6 < 3 {
            self.cir[(i - 22) / 6].real[(i - 22) % 6]
        } else {
            self.cir[(i - 22) / 6].imag[(i - 22) % 6 - 3]
        }
    }

    /// The encoded record: tag, then the fields in order.
    pub open spec fn encoded(self) -> Seq<u8> {
        Seq::new(CIR_REPORT_SIZE as nat, |i: int| self.byte_at(i))
    }

    /// Whether the fields of `self` are those stored in `s`.
    pub open spec fn held_by(self, s: Seq<u8>) -> bool {
        &&& self.src_addr as int == le16(s, 3)
        &&& self.system_ts as int == le64(s, 5)
        &&& self.seq_num == s[13]
        &&& self.ip_poa as int == le16(s, 14)
        &&& self.fp_index as int == le16(s, 16)
        &&& self.start_index as int == le16(s, 18)
        &&& self.cir_size as int == le16(s, 20)
        &&& forall|k: int, j: int|
            0 <= k < 16 && 0 <= j < 3 ==> #[trigger] self.cir[k].real[j] == s[22 + 6 * k + j]
        &&& forall|k: int, j: int|
            0 <= k < 16 && 0 <= j < 3 ==> #[trigger] self.cir[k].imag[j] == s[25 + 6 * k + j]
    }

    /// Reads a record from the start of `bytes`; what follows the record
    /// is ignored.
    pub fn read(bytes: &Vec<u8>) -> (r: Result<CirReport, LayoutError>)
        ensures
            match r {
                Ok(rep) => layout_fault(bytes@, 0x43, 0x49, 0x52, CIR_REPORT_SIZE as int).is_none()
                    && rep.held_by(bytes@),
                Err(e) => layout_fault(bytes@, 0x43, 0x49, 0x52, CIR_REPORT_SIZE as int) == Some(e),
            },
    {
        match check_layout(bytes, 0x43, 0x49, 0x52, CIR_REPORT_SIZE) {
            Some(e) => Err(e),
            None => {
                let mut cir: [RawCirSample; 16] = [RawCirSample { real: [0u8; 3], imag: [0u8; 3] };
                    16];
                let mut i: usize = 0;
                while i < 16
                    invariant
                        i <= 16,
                        bytes.len() >= 118,
                        forall|k: int, j: int|
                            0 <= k < i && 0 <= j < 3 ==> #[trigger] cir[k].real[j] == bytes@[22 + 6
                                * k + j],
                        forall|k: int, j: int|
                            0 <= k < i && 0 <= j < 3 ==> #[trigger] cir[k].imag[j] == bytes@[25 + 6
                                * k + j],
                    decreases 16 - i,
                {
                    let at: usize = 22 + 6 * i;
                    cir[i] = RawCirSample {
                        real: [bytes[at], bytes[at + 1], bytes[at + 2]],
                        imag: [bytes[at + 3], bytes[at + 4], bytes[at + 5]],
                    };
                    i += 1;
                }
                Ok(
                    CirReport {
                        src_addr: read_u16(bytes, 3),
                        system_ts: read_u64(bytes, 5),
                        seq_num: bytes[13],
                        ip_poa: read_u16(bytes, 14),
                        fp_index: read_u16(bytes, 16),
                        start_index: read_u16(bytes, 18),
                        cir_size: read_u16(bytes, 20),
                        cir,
                    },
                )
            },
        }
    }

    /// The six bytes of sample `k`, real part first.
    pub open spec fn sample_bytes(self, k: int) -> Seq<u8> {
        self.cir[k].real@ + self.cir[k].imag@
    }

    /// The encoding up to an element, followed by that element's bytes, is
    /// the encoding up to the next element.
    proof fn lemma_encoded_grows(self, k: int)
        requires
            0 <= k < 16,
        ensures
            self.encoded().take(22 + 6 * k) + self.sample_bytes(k) == self.encoded().take(
                22 + 6 * (k + 1),
            ),
    {
        let a = self.encoded().take(22 + 6 * k) + self.sample_bytes(k);
        let b = self.encoded().take(22 + 6 * (k + 1));
        assert(a.len() == b.len());
        assert forall|i: int| 0 <= i < a.len() implies a[i] == b[i] by {
            if i >= 22 + 6 * k {
                let j = i - (22 + 6 * k);
                assert((i - 22) / 6 == k);
                assert((i - 22) % 6 == j);
            }
        }
        assert(a =~= b);
    }

    /// Appends the tag and the fields before the array.
    fn write_head(&self, out: &mut Vec<u8>)
        ensures
            final(out)@ == old(out)@ + self.encoded().take(22),
    {
        out.push(0x43);
        out.push(0x49);
        out.push(0x52);
        write_u16(out, self.src_addr);
        write_u64(out, self.system_ts);
        out.push(self.seq_num);
        proof {
            lemma_bytes_len(self.src_addr as int);
            lemma_bytes_len(self.system_ts as int);
            assert(out@ =~= old(out)@ + self.encoded().take(14));
        }
        write_u16(out, self.ip_poa);
        write_u16(out, self.fp_index);
        write_u16(out, self.start_index);
        write_u16(out, self.cir_size);
        proof {
            lemma_bytes_len(self.ip_poa as int);
            lemma_bytes_len(self.fp_index as int);
            lemma_bytes_len(self.start_index as int);
            lemma_bytes_len(self.cir_size as int);
            assert(out@ =~= old(out)@ + self.encoded().take(22));
        }
    }

    /// Appends the encoded record to `out`.
    pub fn write(&self, out: &mut Vec<u8>)
        ensures
            final(out)@ == old(out)@ + self.encoded(),
    {
        self.write_head(out);
        let mut i: usize = 0;
        while i < 16
            invariant
                i <= 16,
                out@ == old(out)@ + self.encoded().take(22 + 6 * i),
            decreases 16 - i,
        {
            let ghost before = out@;
            let sample = self.cir[i];
            out.push(sample.real[0]);
            out.push(sample.real[1]);
            out.push(sample.real[2]);
            out.push(sample.imag[0]);
            out.push(sample.imag[1]);
            out.push(sample.imag[2]);
            proof {
                assert(out@ =~= before + self.sample_bytes(i as int));
                self.lemma_encoded_grows(i as int);
                assert(out@ =~= old(out)@ + self.encoded().take(22 + 6 * (i + 1)));
            }
            i += 1;
        }
        assert(self.encoded().take(118) =~= self.encoded());
    }
}

/// Decoding an encoded impulse-response report, whatever follows it,
/// gives back every field.
pub proof fn lemma_cir_report_round_trip(rep: CirReport, tail: Seq<u8>)
    ensures
        layout_fault(rep.encoded() + tail, 0x43, 0x49, 0x52, CIR_REPORT_SIZE as int).is_none(),
        rep.held_by(rep.encoded() + tail),
{
    let s = rep.encoded() + tail;
    lemma_bytes_len(rep.src_addr as int);
    lemma_bytes_len(rep.system_ts as int);
    lemma_bytes_len(rep.ip_poa as int);
    lemma_bytes_len(rep.fp_index as int);
    lemma_bytes_len(rep.start_index as int);
    lemma_bytes_len(rep.cir_size as int);
    lemma_le_window(s, 3, bytes16(rep.src_addr as int), 2);
    lemma_le16_of_bytes16(rep.src_addr as int);
    lemma_le_window(s, 5, bytes64(rep.system_ts as int), 8);
    lemma_le64_of_bytes64(rep.system_ts as int);
    lemma_le_window(s, 14, bytes16(rep.ip_poa as int), 2);
    lemma_le16_of_bytes16(rep.ip_poa as int);
    lemma_le_window(s, 16, bytes16(rep.fp_index as int), 2);
    lemma_le16_of_bytes16(rep.fp_index as int);
    lemma_le_window(s, 18, bytes16(rep.start_index as int), 2);
    lemma_le16_of_bytes16(rep.start_index as int);
    lemma_le_window(s, 20, bytes16(rep.cir_size as int), 2);
    lemma_le16_of_bytes16(rep.cir_size as int);
    assert forall|k: int, j: int| 0 <= k < 16 && 0 <= j < 3 implies #[trigger] rep.cir[k].real[j]
        == s[22 + 6 * k + j] by {
        assert((22 + 6 * k + j - 22) / 6 == k);
        assert((22 + 6 * k + j - 22) % 6 == j);
    }
    assert forall|k: int, j: int| 0 <= k < 16 && 0 <= j < 3 implies #[trigger] rep.cir[k].imag[j]
        == s[25 + 6 * k + j] by {
        assert((25 + 6 * k + j - 22) / 6 == k);
        assert((25 + 6 * k + j - 22) % 6 == j + 3);
    }
}

/// Two impulse-response reports held by the same bytes have the same
/// fields.
pub proof fn lemma_cir_report_unique(a: CirReport, b: CirReport, s: Seq<u8>)
    requires
        a.held_by(s),
        b.held_by(s),
    ensures
        a == b,
{
    assert forall|k: int| 0 <= k < 16 implies a.cir[k] == b.cir[k] by {
        assert forall|j: int| 0 <= j < 3 implies a.cir[k].real[j] == b.cir[k].real[j] by {
            assert(a.cir[k].real[j] == s[22 + 6 * k + j]);
            assert(b.cir[k].real[j] == s[22 + 6 * k + j]);
        }
        assert forall|j: int| 0 <= j < 3 implies a.cir[k].imag[j] == b.cir[k].imag[j] by {
            assert(a.cir[k].imag[j] == s[25 + 6 * k + j]);
            assert(b.cir[k].imag[j] == s[25 + 6 * k + j]);
        }
        assert(a.cir[k].real@ =~= b.cir[k].real@);
        assert(a.cir[k].real =~= b.cir[k].real);
        assert(a.cir[k].imag@ =~= b.cir[k].imag@);
        assert(a.cir[k].imag =~= b.cir[k].imag);
    }
    assert(a.cir@ =~= b.cir@);
    assert(a.cir =~= b.cir);
}

/// Whatever record is read from an encoded range report, with anything
/// behind it, is the report that was encoded.
pub proof fn lemma_range_report_read_back(rep: RangeReport, tail: Seq<u8>, back: RangeReport)
    requires
        back.held_by(rep.encoded() + tail),
    ensures
        back == rep,
{
    lemma_range_report_round_trip(rep, tail);
    lemma_range_report_unique(rep, back, rep.encoded() + tail);
}

/// Whatever record is read from an encoded inertial report, with anything
/// behind it, is the report that was encoded.
pub proof fn lemma_imu_report_read_back(rep: ImuReport, tail: Seq<u8>, back: ImuReport)
    requires
        back.held_by(rep.encoded() + tail),
    ensures
        back == rep,
{
    lemma_imu_report_round_trip(rep, tail);
    lemma_imu_report_unique(rep, back, rep.encoded() + tail);
}

/// Whatever record is read from an encoded impulse-response report, with
/// anything behind it, is the report that was encoded.
pub proof fn lemma_cir_report_read_back(rep: CirReport, tail: Seq<u8>, back: CirReport)
    requires
        back.held_by(rep.encoded() + tail),
    ensures
        back == rep,
{
    lemma_cir_report_round_trip(rep, tail);
    lemma_cir_report_unique(rep, back, rep.encoded() + tail);
}

impl ConvertedCirReport {
    /// Whether `self` is `report` with every sample sign-extended and
    /// every other field unchanged.
    pub open spec fn converts(self, report: CirReport) -> bool {
        &&& self.src_addr == report.src_addr
        &&& self.system_ts == report.system_ts
        &&& self.seq_num == report.seq_num
        &&& self.ip_poa == report.ip_poa
        &&& self.fp_index == report.fp_index
        &&& self.start_index == report.start_index
        &&& self.cir_size == report.cir_size
        &&& forall|k: int|
            0 <= k < 16 ==> (#[trigger] self.cir[k]).real as int == signed24(
                le24(report.cir[k].real@, 0),
            )
        &&& forall|k: int|
            0 <= k < 16 ==> (#[trigger] self.cir[k]).imag as int == signed24(
                le24(report.cir[k].imag@, 0),
            )
    }

    /// Sign-extends the samples of `report`.
    pub fn from(report: CirReport) -> (c: ConvertedCirReport)
        ensures
            c.converts(report),
    {
        let mut cir: [CirSample; 16] = [CirSample { real: 0, imag: 0 }; 16];
        let mut i: usize = 0;
        while i < 16
            invariant
                i <= 16,
                forall|k: int|
                    0 <= k < i ==> (#[trigger] cir[k]).real as int == signed24(
                        le24(report.cir[k].real@, 0),
                    ),
                forall|k: int|
                    0 <= k < i ==> (#[trigger] cir[k]).imag as int == signed24(
                        le24(report.cir[k].imag@, 0),
                    ),
            decreases 16 - i,
        {
            let sample = report.cir[i];
            cir[i] = CirSample { real: sign_extend(&sample.real), imag: sign_extend(&sample.imag) };
            i += 1;
        }
        ConvertedCirReport {
            src_addr: report.src_addr,
            system_ts: report.system_ts,
            seq_num: report.seq_num,
            ip_poa: report.ip_poa,
            fp_index: report.fp_index,
            start_index: report.start_index,
            cir_size: report.cir_size,
            cir,
        }
    }
}

} // verus!
