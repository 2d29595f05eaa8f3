use magic_loc_central::proto::{
    sign_extend, CirReport, CirSample, ConvertedCirReport, ImuReport, LayoutError, RangeReport,
    RawCirSample, CIR_REPORT_SIZE, IMU_REPORT_SIZE, RANGE_REPORT_SIZE,
};
use magic_loc_central::wire::{read_u16, read_u32, read_u64, write_u16, write_u32, write_u64};

fn sample_range_report() -> RangeReport {
    RangeReport {
        tag_addr: 0x1234,
        system_ts: 0x0102_0304_0506_0708,
        seq_num: 0x9A,
        trigger_txts: 0xFFEE_DDCC_BBAA_9988,
        ranges: [
            1.5f64.to_bits(),
            2.25f64.to_bits(),
            f64::INFINITY.to_bits(),
            0.0f64.to_bits(),
            (-3.0f64).to_bits(),
            1.0e6f64.to_bits(),
            u64::MAX,
            77.125f64.to_bits(),
        ],
    }
}

fn sample_cir_report() -> CirReport {
    let mut cir = [RawCirSample { real: [0; 3], imag: [0; 3] }; 16];
    for i in 0..16 {
        let k = i as u8;
        cir[i] = RawCirSample { real: [k, k + 1, 0x80 | k], imag: [0xFF - k, 3 * k, k] };
    }
    CirReport {
        src_addr: 0xBEEF,
        system_ts: 0x1122_3344_5566_7788,
        seq_num: 7,
        ip_poa: 0x0102,
        fp_index: 0x0304,
        start_index: 0x0506,
        cir_size: 16,
        cir,
    }
}

#[test]
fn wire_reads_little_endian() {
    let bytes: Vec<u8> = vec![0x01, 0x02, 0x03, 0x04, 0x05, 0x06, 0x07, 0x08, 0x09];
    assert_eq!(read_u16(&bytes, 0), 0x0201);
    assert_eq!(read_u16(&bytes, 7), 0x0908);
    assert_eq!(read_u32(&bytes, 2), 0x0605_0403);
    assert_eq!(read_u64(&bytes, 1), 0x0908_0706_0504_0302);
}

#[test]
fn wire_writes_little_endian() {
    let mut out: Vec<u8> = vec![0xEE];
    write_u16(&mut out, 0xA1B2);
    write_u32(&mut out, 0x0102_0304);
    write_u64(&mut out, 0x1122_3344_5566_7788);
    assert_eq!(
        out,
        vec![
            0xEE, 0xB2, 0xA1, 0x04, 0x03, 0x02, 0x01, 0x88, 0x77, 0x66, 0x55, 0x44, 0x33, 0x22,
            0x11
        ]
    );
}

#[test]
fn wire_round_trips_extremes() {
    for v in [0u64, 1, 255, 256, u64::MAX, 0x8000_0000_0000_0000] {
        let mut out: Vec<u8> = Vec::new();
        write_u64(&mut out, v);
        assert_eq!(out, v.to_le_bytes().to_vec());
        assert_eq!(read_u64(&out, 0), v);
    }
    for v in [0u32, 1, 0xFFFF, 0x1_0000, u32::MAX] {
        let mut out: Vec<u8> = Vec::new();
        write_u32(&mut out, v);
        assert_eq!(out, v.to_le_bytes().to_vec());
        assert_eq!(read_u32(&out, 0), v);
    }
    for v in [0u16, 1, 0xFF, 0x100, u16::MAX] {
        let mut out: Vec<u8> = Vec::new();
        write_u16(&mut out, v);
        assert_eq!(out, v.to_le_bytes().to_vec());
        assert_eq!(read_u16(&out, 0), v);
    }
}

#[test]
fn range_report_layout_is_exact() {
    let report = sample_range_report();
    let mut out: Vec<u8> = Vec::new();
    report.write(&mut out);
    assert_eq!(out.len(), RANGE_REPORT_SIZE);
    assert_eq!(&out[0..3], b"RNG");
    assert_eq!(&out[3..5], &[0x34, 0x12]);
    assert_eq!(&out[5..13], &[0x08, 0x07, 0x06, 0x05, 0x04, 0x03, 0x02, 0x01]);
    assert_eq!(out[13], 0x9A);
    assert_eq!(&out[14..22], &[0x88, 0x99, 0xAA, 0xBB, 0xCC, 0xDD, 0xEE, 0xFF]);
    assert_eq!(&out[22..30], &1.5f64.to_le_bytes());
    assert_eq!(&out[78..86], &77.125f64.to_le_bytes());
}

#[test]
fn range_report_round_trips() {
    let report = sample_range_report();
    let mut out: Vec<u8> = Vec::new();
    report.write(&mut out);
    assert_eq!(RangeReport::read(&out), Ok(report));
    out.extend_from_slice(&[0, 0, 0, 9]);
    assert_eq!(RangeReport::read(&out), Ok(report));
}

#[test]
fn range_report_read_errors() {
    let report = sample_range_report();
    let mut out: Vec<u8> = Vec::new();
    report.write(&mut out);
    let short: Vec<u8> = out[..85].to_vec();
    assert_eq!(RangeReport::read(&short), Err(LayoutError::Truncated));
    assert_eq!(RangeReport::read(&vec![0x52, 0x4E]), Err(LayoutError::Truncated));
    assert_eq!(RangeReport::read(&Vec::new()), Err(LayoutError::Truncated));
    let mut other = out.clone();
    other[2] = b'X';
    assert_eq!(RangeReport::read(&other), Err(LayoutError::BadMagic));
    assert_eq!(RangeReport::read(&vec![b'I', b'M', b'U']), Err(LayoutError::BadMagic));
}

#[test]
fn imu_report_round_trips() {
    let report = ImuReport {
        tag_addr: 0xA55A,
        system_ts: 1_700_000_000_123_456,
        accel: [1, 0xFFFF_FFFF, 0x8000_0000],
        gyro: [0, 0x0102_0304, 42],
    };
    let mut out: Vec<u8> = vec![0x77];
    report.write(&mut out);
    assert_eq!(out.len(), 1 + IMU_REPORT_SIZE);
    let payload: Vec<u8> = out[1..].to_vec();
    assert_eq!(&payload[0..3], b"IMU");
    assert_eq!(&payload[13..17], &[1, 0, 0, 0]);
    assert_eq!(&payload[29..33], &[0x04, 0x03, 0x02, 0x01]);
    assert_eq!(ImuReport::read(&payload), Ok(report));
    assert_eq!(ImuReport::read(&payload[..36].to_vec()), Err(LayoutError::Truncated));
    assert_eq!(ImuReport::read(&vec![b'R', b'N', b'G', 0]), Err(LayoutError::BadMagic));
}

#[test]
fn cir_report_round_trips() {
    let report = sample_cir_report();
    let mut out: Vec<u8> = Vec::new();
    report.write(&mut out);
    assert_eq!(out.len(), CIR_REPORT_SIZE);
    assert_eq!(&out[0..3], b"CIR");
    assert_eq!(&out[14..22], &[0x02, 0x01, 0x04, 0x03, 0x06, 0x05, 16, 0]);
    assert_eq!(&out[22..28], &[0, 1, 0x80, 0xFF, 0, 0]);
    assert_eq!(&out[112..118], &[15, 16, 0x8F, 0xF0, 45, 15]);
    let back = CirReport::read(&out).unwrap();
    assert_eq!(back.src_addr, report.src_addr);
    assert_eq!(back.system_ts, report.system_ts);
    assert_eq!(back.seq_num, report.seq_num);
    assert_eq!(back.ip_poa, report.ip_poa);
    assert_eq!(back.fp_index, report.fp_index);
    assert_eq!(back.start_index, report.start_index);
    assert_eq!(back.cir_size, report.cir_size);
    assert_eq!(back.cir, report.cir);
    assert!(matches!(CirReport::read(&out[..117].to_vec()), Err(LayoutError::Truncated)));
    assert!(matches!(CirReport::read(&vec![b'C', b'I', b'X']), Err(LayoutError::BadMagic)));
}

#[test]
fn sign_extension_of_24_bit_values() {
    assert_eq!(sign_extend(&[0x00, 0x00, 0x00]), 0);
    assert_eq!(sign_extend(&[0x01, 0x00, 0x00]), 1);
    assert_eq!(sign_extend(&[0xFF, 0xFF, 0x7F]), 8_388_607);
    assert_eq!(sign_extend(&[0x00, 0x00, 0x80]), -8_388_608);
    assert_eq!(sign_extend(&[0xFF, 0xFF, 0xFF]), -1);
    assert_eq!(sign_extend(&[0x34, 0x12, 0xF0]), i32::from_le_bytes([0x34, 0x12, 0xF0, 0xFF]));
}

#[test]
fn converted_cir_report_sign_extends_every_sample() {
    let report = sample_cir_report();
    let converted = ConvertedCirReport::from(report);
    assert_eq!(converted.src_addr, report.src_addr);
    assert_eq!(converted.system_ts, report.system_ts);
    assert_eq!(converted.seq_num, report.seq_num);
    assert_eq!(converted.ip_poa, report.ip_poa);
    assert_eq!(converted.fp_index, report.fp_index);
    assert_eq!(converted.start_index, report.start_index);
    assert_eq!(converted.cir_size, report.cir_size);
    for i in 0..16 {
        let raw = report.cir[i];
        let real = i32::from_le_bytes([raw.real[0], raw.real[1], raw.real[2], 0xFF]);
        let imag = i32::from_le_bytes([raw.imag[0], raw.imag[1], raw.imag[2], 0x00]);
        assert_eq!(converted.cir[i], CirSample { real, imag });
    }
}

#[test]
fn default_records_are_zero() {
    let r = RangeReport::default();
    assert_eq!(
        r,
        RangeReport { tag_addr: 0, system_ts: 0, seq_num: 0, trigger_txts: 0, ranges: [0; 8] }
    );
    let i = ImuReport::default();
    assert_eq!(i, ImuReport { tag_addr: 0, system_ts: 0, accel: [0; 3], gyro: [0; 3] });
    assert_eq!(RawCirSample::default(), RawCirSample { real: [0; 3], imag: [0; 3] });
}
