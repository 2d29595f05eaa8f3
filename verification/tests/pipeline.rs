use magic_loc_central::packet::{decode_frame, dispatch, Packet, PacketError};
use magic_loc_central::pipeline::{imu_is_late, Pipeline, Reaction, IMU_GAP_LIMIT, RANGE_BIAS};
use magic_loc_central::proto::{
    CirReport, ImuReport, LayoutError, RangeReport, RawCirSample,
};

fn range_report(tag: u16, key: u64) -> RangeReport {
    RangeReport {
        tag_addr: tag,
        system_ts: 1000 + key,
        seq_num: 3,
        trigger_txts: key,
        ranges: [80.5f64.to_bits(); 8],
    }
}

fn imu_report(ts: u64) -> ImuReport {
    ImuReport { tag_addr: 9, system_ts: ts, accel: [1, 2, 3], gyro: [4, 5, 6] }
}

fn frame_around(payload: &[u8]) -> Vec<u8> {
    let mut frame: Vec<u8> = vec![0x00, 0xFF, 0x01, 0x00];
    frame.extend_from_slice(&rzcobs::encode(payload));
    frame
}

fn range_frame(tag: u16, key: u64) -> Vec<u8> {
    let mut payload: Vec<u8> = Vec::new();
    range_report(tag, key).write(&mut payload);
    frame_around(&payload)
}

#[test]
fn frame_with_range_report_decodes() {
    let frame = range_frame(4, 77);
    assert!(!frame[4..].contains(&0));
    match decode_frame(&frame) {
        Ok(Packet::Range(r)) => assert_eq!(r, range_report(4, 77)),
        other => panic!("{:?}", other),
    }
}

#[test]
fn frame_with_imu_report_decodes() {
    let mut payload: Vec<u8> = Vec::new();
    imu_report(123_456).write(&mut payload);
    match decode_frame(&frame_around(&payload)) {
        Ok(Packet::Imu(r)) => assert_eq!(r, imu_report(123_456)),
        other => panic!("{:?}", other),
    }
}

#[test]
fn frame_with_cir_report_decodes() {
    let report = CirReport {
        src_addr: 1,
        system_ts: 2,
        seq_num: 3,
        ip_poa: 4,
        fp_index: 5,
        start_index: 6,
        cir_size: 16,
        cir: [RawCirSample { real: [1, 0, 0x80], imag: [0, 2, 0] }; 16],
    };
    let mut payload: Vec<u8> = Vec::new();
    report.write(&mut payload);
    match decode_frame(&frame_around(&payload)) {
        Ok(Packet::Cir(r)) => {
            assert_eq!(r.src_addr, 1);
            assert_eq!(r.cir_size, 16);
            assert_eq!(r.cir, report.cir);
        }
        other => panic!("{:?}", other),
    }
}

#[test]
fn real_frame_unstuffs_to_a_range_report() {
    let frame: Vec<u8> = vec![
        0, 255, 1, 0, 82, 78, 71, 52, 1, 96, 240, 255, 31, 240, 63, 255, 126, 240, 255, 124, 240,
        255, 121, 240, 255, 115, 240, 255, 103, 240, 255, 79, 240, 255, 31,
    ];
    let unstuffed = rzcobs::decode(&frame[4..]).unwrap();
    let expected = RangeReport::read(&unstuffed);
    match (decode_frame(&frame), expected) {
        (Ok(Packet::Range(r)), Ok(e)) => assert_eq!(r, e),
        (Err(PacketError::Layout(a)), Err(b)) => assert_eq!(a, b),
        (got, _) => panic!("{:?}", got),
    }
}

#[test]
fn frame_errors() {
    assert_eq!(decode_frame(&vec![0x00, 0xFF, 0x01]).unwrap_err(), PacketError::Framing);
    assert_eq!(decode_frame(&Vec::new()).unwrap_err(), PacketError::Framing);
    // a zero byte is never part of a zero-suppressed message
    assert_eq!(
        decode_frame(&vec![0x00, 0xFF, 0x01, 0x00, 0x41, 0x00]).unwrap_err(),
        PacketError::Unstuff
    );
    // a run marker that asks for more bytes than there are
    assert_eq!(decode_frame(&vec![0x00, 0xFF, 0x01, 0x00, 0xFF]).unwrap_err(), PacketError::Unstuff);
    assert_eq!(decode_frame(&frame_around(b"XYZ12345")).unwrap_err(), PacketError::UnknownTag);
    assert_eq!(
        decode_frame(&frame_around(b"RNG\x01\x02")).unwrap_err(),
        PacketError::Layout(LayoutError::Truncated)
    );
    assert_eq!(
        decode_frame(&vec![0x00, 0xFF, 0x01, 0x00]).unwrap_err(),
        PacketError::Layout(LayoutError::Truncated)
    );
}

#[test]
fn dispatch_selects_by_tag() {
    let mut payload: Vec<u8> = Vec::new();
    range_report(1, 2).write(&mut payload);
    assert!(matches!(dispatch(&payload), Ok(Packet::Range(_))));
    assert_eq!(dispatch(&b"IMU".to_vec()).unwrap_err(), PacketError::Layout(LayoutError::Truncated));
    assert_eq!(dispatch(&b"CIR\0".to_vec()).unwrap_err(), PacketError::Layout(LayoutError::Truncated));
    assert_eq!(dispatch(&b"RN".to_vec()).unwrap_err(), PacketError::Layout(LayoutError::Truncated));
    assert_eq!(dispatch(&b"rng".to_vec()).unwrap_err(), PacketError::UnknownTag);
}

#[test]
fn imu_gap_over_limit_is_late() {
    assert!(!imu_is_late(None, 5_000));
    assert!(!imu_is_late(Some(1_000), 2_500));
    assert!(imu_is_late(Some(1_000), 2_501));
    assert!(!imu_is_late(Some(2_000), 1_000));
    assert!(!imu_is_late(Some(u64::MAX), 0));
    assert!(imu_is_late(Some(0), u64::MAX));
}

#[test]
fn pipeline_synchronises_range_frames() {
    let mut pipeline = Pipeline::new(3);
    assert_eq!(pipeline.synchronizer.fifos.len(), 3);
    assert!(pipeline.last_imu_ts.is_none());
    let arrivals: [(usize, u64); 7] = [(0, 5), (0, 7), (2, 7), (0, 9), (1, 9), (1, 10), (2, 9)];
    let mut drawn: Vec<Vec<RangeReport>> = Vec::new();
    for (id, key) in arrivals.iter() {
        match pipeline.on_frame(*id, &range_frame(*id as u16, *key)) {
            Reaction::Batches(batches) => drawn.extend(batches),
            other => panic!("{:?}", other),
        }
    }
    assert_eq!(drawn, vec![vec![range_report(0, 9), range_report(1, 9), range_report(2, 9)]]);
    assert!(pipeline.synchronizer.fifos[0].is_empty());
    assert_eq!(pipeline.synchronizer.fifos[1].len(), 1);
    assert_eq!(pipeline.synchronizer.fifos[1][0].trigger_txts, 10);
    assert!(pipeline.synchronizer.fifos[2].is_empty());
}

#[test]
fn pipeline_tracks_imu_timestamps() {
    let mut pipeline = Pipeline::new(1);
    match pipeline.on_packet(0, Ok(Packet::Imu(imu_report(10_000)))) {
        Reaction::Imu { report, late } => {
            assert_eq!(report, imu_report(10_000));
            assert!(!late);
        }
        other => panic!("{:?}", other),
    }
    assert_eq!(pipeline.last_imu_ts, Some(10_000));
    assert!(matches!(
        pipeline.on_packet(0, Ok(Packet::Imu(imu_report(11_500)))),
        Reaction::Imu { late: false, .. }
    ));
    assert!(matches!(
        pipeline.on_packet(0, Ok(Packet::Imu(imu_report(13_001)))),
        Reaction::Imu { late: true, .. }
    ));
    assert_eq!(pipeline.last_imu_ts, Some(13_001));
    assert!(pipeline.synchronizer.fifos[0].is_empty());
}

#[test]
fn pipeline_drops_bad_frames_and_converts_cir() {
    let mut pipeline = Pipeline::new(2);
    match pipeline.on_frame(1, &vec![0x00, 0xFF, 0x01, 0x00, 0x00]) {
        Reaction::Dropped(e) => assert_eq!(e, PacketError::Unstuff),
        other => panic!("{:?}", other),
    }
    let report = CirReport {
        src_addr: 1,
        system_ts: 2,
        seq_num: 3,
        ip_poa: 4,
        fp_index: 5,
        start_index: 6,
        cir_size: 16,
        cir: [RawCirSample { real: [0xFE, 0xFF, 0xFF], imag: [2, 0, 0] }; 16],
    };
    match pipeline.on_packet(0, Ok(Packet::Cir(report))) {
        Reaction::Cir(c) => {
            assert_eq!(c.cir[15].real, -2);
            assert_eq!(c.cir[15].imag, 2);
            assert_eq!(c.fp_index, 5);
        }
        other => panic!("{:?}", other),
    }
    assert!(pipeline.synchronizer.fifos.iter().all(|f| f.is_empty()));
    assert!(pipeline.last_imu_ts.is_none());
}

#[test]
fn pipeline_constants() {
    assert_eq!(RANGE_BIAS, 76.8f64.to_bits());
    assert_eq!(IMU_GAP_LIMIT, 1500);
}
