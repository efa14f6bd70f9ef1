use apeiron_cipher::persistence::wal::{
    build_frame, decode_frame, latest_segment_index, parse_segment_name, recovery_succeeds,
    resume_sequence, resume_sequence_across, scan_segment, scan_segments, segment_file_name, segment_order, segment_path,
    starting_segment, FrameOutcome, WalWriterState, FRAME_HEADER_LEN, FRAME_MAGIC,
    FSYNC_BYTE_THRESHOLD, SEGMENT_ROTATE_BYTES,
};

#[test]
fn parse_segment_name_valid_and_invalid() {
    assert_eq!(parse_segment_name("wal_0001.bin"), Some(1));
    assert_eq!(parse_segment_name("wal_0042.bin"), Some(42));
    assert_eq!(parse_segment_name("wal_9999.bin"), Some(9999));
    assert_eq!(parse_segment_name("wal_001.bin"), None);
    assert_eq!(parse_segment_name("wal_00001.bin"), None);
    assert_eq!(parse_segment_name("wal_0001.bin.bak"), None);
    assert_eq!(parse_segment_name("snapshot.bin"), None);
    assert_eq!(parse_segment_name(""), None);
}

#[test]
fn parse_segment_name_takes_four_digits_only() {
    assert_eq!(parse_segment_name("wal_+001.bin"), None);
    assert_eq!(parse_segment_name("wal_+123.bin"), None);
    assert_eq!(parse_segment_name("wal_0x01.bin"), None);
    assert_eq!(parse_segment_name("wal_-001.bin"), None);
}

#[test]
fn segment_names_are_zero_padded() {
    assert_eq!(segment_file_name(1), "wal_0001.bin");
    assert_eq!(segment_file_name(42), "wal_0042.bin");
    assert_eq!(segment_file_name(12345), "wal_12345.bin");
    assert_eq!(segment_path("/saves/wal", 3), "/saves/wal/wal_0003.bin");
    assert_eq!(segment_path("/saves/wal/", 3), "/saves/wal/wal_0003.bin");
    assert_eq!(segment_path("", 3), "wal_0003.bin");
}

#[test]
fn segment_name_round_trips_for_four_digit_indices() {
    for i in [0u32, 1, 7, 42, 999, 9999] {
        assert_eq!(parse_segment_name(&segment_file_name(i)), Some(i));
    }
}

fn expected_crc(frame: &[u8]) -> u32 {
    let mut covered = frame[0..24].to_vec();
    covered.extend_from_slice(&frame[28..]);
    crc32fast::hash(&covered)
}

#[test]
fn frame_layout_is_little_endian_with_crc() {
    let payload = vec![1u8, 2, 3];
    let frame = build_frame(0x0102_0304_0506_0708, 0x1122, &payload);
    assert_eq!(frame.len(), FRAME_HEADER_LEN + 3);
    assert_eq!(&frame[0..4], &FRAME_MAGIC);
    assert_eq!(&frame[0..4], b"WAL1");
    assert_eq!(&frame[4..12], &0x0102_0304_0506_0708u64.to_le_bytes());
    assert_eq!(&frame[12..20], &0x1122u64.to_le_bytes());
    assert_eq!(&frame[20..24], &3u32.to_le_bytes());
    assert_eq!(&frame[24..28], &expected_crc(&frame).to_le_bytes());
    assert_eq!(&frame[28..], &payload[..]);
}

#[test]
fn frame_round_trips() {
    let payload = b"hello world".to_vec();
    let mut buf = build_frame(7, 99, &payload);
    buf.extend_from_slice(b"trailing");
    match decode_frame(&buf, 0) {
        FrameOutcome::Entry { seq, timestamp, payload: p, end } => {
            assert_eq!(seq, 7);
            assert_eq!(timestamp, 99);
            assert_eq!(p, payload);
            assert_eq!(end, FRAME_HEADER_LEN + payload.len());
        }
        other => panic!("expected entry, got {other:?}"),
    }
}

#[test]
fn truncated_frames_read_as_torn() {
    let frame = build_frame(5, 1, &[9u8; 10]);
    assert!(matches!(decode_frame(&frame[..0], 0), FrameOutcome::Eof));
    for keep in 1..frame.len() {
        match decode_frame(&frame[..keep], 0) {
            FrameOutcome::Torn { seq } => {
                if keep >= 12 {
                    assert_eq!(seq, Some(5));
                } else {
                    assert_eq!(seq, None);
                }
            }
            other => panic!("keep {keep}: expected torn, got {other:?}"),
        }
    }
}

#[test]
fn corrupt_frames_are_reported() {
    let mut bad_magic = build_frame(1, 1, &[1, 2]);
    bad_magic[0] = b'X';
    match decode_frame(&bad_magic, 0) {
        FrameOutcome::BadMagic { found, offset } => {
            assert_eq!(&found, b"XAL1");
            assert_eq!(offset, 0);
        }
        other => panic!("expected bad magic, got {other:?}"),
    }
    let mut bad_payload = build_frame(3, 1, &[1, 2]);
    let last = bad_payload.len() - 1;
    bad_payload[last] ^= 0xFF;
    assert!(matches!(decode_frame(&bad_payload, 0), FrameOutcome::ChecksumMismatch { seq: 3 }));
}

#[test]
fn segment_scan_discards_torn_tail() {
    let mut seg = Vec::new();
    for i in 0..5u64 {
        seg.extend_from_slice(&build_frame(i, 100 + i, &[i as u8; 3]));
    }
    let len = seg.len();
    seg.truncate(len - 2);
    let scan = scan_segment(&seg);
    assert_eq!(scan.entries.len(), 4);
    for (i, e) in scan.entries.iter().enumerate() {
        assert_eq!(e.seq, i as u64);
        assert_eq!(e.timestamp, 100 + i as u64);
    }
    assert!(matches!(scan.stop, FrameOutcome::Torn { seq: Some(4) }));
    assert!(recovery_succeeds(&scan.stop));
    assert_eq!(resume_sequence(&scan), Some(4));
}

#[test]
fn garbage_tail_is_a_clean_stop() {
    let mut seg = Vec::new();
    for i in 0..3u64 {
        seg.extend_from_slice(&build_frame(i, 0, &[1]));
    }
    seg.extend_from_slice(b"\x00\x01\x02");
    let scan = scan_segment(&seg);
    assert_eq!(scan.entries.len(), 3);
    assert!(matches!(scan.stop, FrameOutcome::Torn { seq: None }));
    assert!(recovery_succeeds(&scan.stop));
}

#[test]
fn recovery_crosses_clean_segments_and_stops_at_corruption() {
    let seg1 = [build_frame(0, 0, &[1]), build_frame(1, 0, &[2])].concat();
    let seg2 = build_frame(2, 0, &[3]);
    let mut seg3 = build_frame(3, 0, &[4]);
    seg3[1] = 0;
    let seg4 = build_frame(4, 0, &[5]);
    let scan = scan_segments(&vec![seg1.clone(), seg2.clone()]);
    assert_eq!(scan.entries.iter().map(|e| e.seq).collect::<Vec<_>>(), vec![0, 1, 2]);
    assert!(matches!(scan.stop, FrameOutcome::Eof));
    let scan = scan_segments(&vec![seg1, seg2, seg3, seg4]);
    assert_eq!(scan.entries.len(), 3);
    assert!(matches!(scan.stop, FrameOutcome::BadMagic { offset: 0, .. }));
    assert!(!recovery_succeeds(&scan.stop));
}

#[test]
fn empty_segment_resumes_at_zero() {
    let scan = scan_segment(&[]);
    assert!(scan.entries.is_empty());
    assert_eq!(resume_sequence(&scan), Some(0));
}

#[test]
fn segments_are_ordered_by_index_then_listing() {
    let names: Vec<String> = ["wal_0003.bin", "notes.txt", "wal_0001.bin", "wal_+003.bin", "wal_0002.bin", "wal_0003.bin"]
        .iter()
        .map(|s| s.to_string())
        .collect();
    assert_eq!(segment_order(&names), vec![(1, 2), (2, 4), (3, 0), (3, 5)]);
    assert_eq!(latest_segment_index(&names), 3);
    assert_eq!(latest_segment_index(&vec!["x".to_string()]), 0);
}

#[test]
fn writer_starts_fresh_or_resumes() {
    assert_eq!(starting_segment(0), (1, false));
    assert_eq!(starting_segment(7), (7, true));
}

#[test]
fn writer_assigns_consecutive_sequence_numbers_and_syncs() {
    let mut w = WalWriterState::opened(1, 0, 0);
    let mut seqs = Vec::new();
    for _ in 0..50 {
        seqs.push(w.record_write(30));
    }
    assert_eq!(seqs, (0..50).collect::<Vec<u64>>());
    assert_eq!(w.unflushed_bytes, 1500);
    assert!(w.needs_sync(0));
    w.record_sync();
    assert_eq!(w.unflushed_bytes, 0);
    assert!(!w.needs_sync(999));
    assert!(w.needs_sync(1000));
    assert!(FSYNC_BYTE_THRESHOLD == 1024);
}

#[test]
fn writer_rotates_at_sixty_four_mebibytes() {
    let mut w = WalWriterState::opened(3, SEGMENT_ROTATE_BYTES - 10, 9);
    assert!(!w.needs_rotation());
    w.record_write(10);
    assert!(w.needs_rotation());
    assert_eq!(w.begin_rotation(), 4);
    w.finish_rotation();
    assert_eq!(w.segment_index, 4);
    assert_eq!(w.segment_bytes, 0);
    assert_eq!(w.next_seq, 10);
}

/// A log kept in memory: each segment's bytes, keyed by index, written
/// through the library's framing and writer bookkeeping.
struct MemLog {
    segments: Vec<(u32, Vec<u8>)>,
    state: WalWriterState,
}

impl MemLog {
    fn names(&self) -> Vec<String> {
        self.segments.iter().map(|(i, _)| segment_file_name(*i)).collect()
    }

    fn open(segments: Vec<(u32, Vec<u8>)>) -> MemLog {
        let mut log = MemLog {
            segments,
            state: WalWriterState::opened(0, 0, 0),
        };
        let (index, resume) = starting_segment(latest_segment_index(&log.names()));
        let existing = log.segments.iter().position(|(i, _)| *i == index);
        let (bytes, next_seq) = match (resume, existing) {
            (true, Some(k)) => {
                let names = log.names();
                let contents: Vec<Vec<u8>> = segment_order(&names)
                    .iter()
                    .map(|(_, j)| log.segments[*j].1.clone())
                    .collect();
                let scan = scan_segments(&contents);
                (
                    log.segments[k].1.len() as u64,
                    resume_sequence_across(&scan).expect("clean log"),
                )
            }
            _ => {
                log.segments.push((index, Vec::new()));
                (0, 0)
            }
        };
        log.state = WalWriterState::opened(index, bytes, next_seq);
        log
    }

    fn append(&mut self, payload: &[u8]) -> u64 {
        let frame = build_frame(self.state.next_seq, 1_700_000_000_000_000, payload);
        let index = self.state.segment_index;
        let seg = self.segments.iter_mut().find(|(i, _)| *i == index).unwrap();
        seg.1.extend_from_slice(&frame);
        let seq = self.state.record_write(frame.len() as u64);
        if self.state.needs_sync(0) {
            self.state.record_sync();
        }
        if self.state.needs_rotation() {
            let next = self.state.begin_rotation();
            self.segments.push((next, Vec::new()));
            self.state.finish_rotation();
        }
        seq
    }

    fn flush(&mut self) {
        self.state.record_sync();
    }

    fn recover(&self) -> Vec<u64> {
        let names = self.names();
        let contents: Vec<Vec<u8>> = segment_order(&names)
            .iter()
            .map(|(_, k)| self.segments[*k].1.clone())
            .collect();
        let scan = scan_segments(&contents);
        assert!(recovery_succeeds(&scan.stop), "recovery failed: {:?}", scan.stop);
        scan.entries.iter().map(|e| e.seq).collect()
    }
}

/// The bytes of a stamina snapshot as the game encodes it.
fn stamina(current: f32) -> Vec<u8> {
    let mut v = vec![4u8];
    v.extend_from_slice(&current.to_le_bytes());
    v.extend_from_slice(&100.0f32.to_le_bytes());
    v
}

fn write_mutations(log: &mut MemLog, count: u64) -> Vec<u64> {
    (0..count).map(|i| log.append(&stamina(i as f32))).collect()
}

#[test]
fn wal_starts_fresh_in_empty_dir() {
    let mut log = MemLog::open(Vec::new());
    assert_eq!(log.state.segment_index, 1);
    assert_eq!(log.state.next_seq, 0);
    assert_eq!(log.append(&stamina(1.0)), 0);
}

#[test]
fn wal_sequence_numbers_are_monotone() {
    let mut log = MemLog::open(Vec::new());
    let seqs = write_mutations(&mut log, 50);
    let expected: Vec<u64> = (0..50).collect();
    assert_eq!(seqs, expected);
}

#[test]
fn wal_roundtrip_recover() {
    let mut log = MemLog::open(Vec::new());
    for i in 0..10 {
        let mut transform = vec![0u8];
        transform.extend_from_slice(&(i as f32).to_le_bytes());
        transform.extend_from_slice(&[0u8; 24]);
        log.append(&transform);
    }
    log.flush();
    let recovered = log.recover();
    assert_eq!(recovered.len(), 10);
    for (i, seq) in recovered.iter().enumerate() {
        assert_eq!(*seq, i as u64);
    }
}

#[test]
fn wal_resumes_sequence_after_reopen() {
    let mut log = MemLog::open(Vec::new());
    write_mutations(&mut log, 5);
    log.flush();
    let mut log2 = MemLog::open(log.segments);
    assert_eq!(log2.state.next_seq, 5, "should resume at seq 5");
    assert_eq!(log2.append(&stamina(99.0)), 5);
    assert_eq!(log2.recover().len(), 6);
}

#[test]
fn wal_torn_entry_is_discarded_on_recovery() {
    let mut log = MemLog::open(Vec::new());
    write_mutations(&mut log, 5);
    log.flush();
    let seg = &mut log.segments[0].1;
    let len = seg.len();
    seg.truncate(len - 4);
    let recovered = log.recover();
    assert_eq!(recovered.len(), 4, "torn final entry must be discarded");
    for (i, seq) in recovered.iter().enumerate() {
        assert_eq!(*seq, i as u64);
    }
}

#[test]
fn wal_empty_tail_is_clean() {
    let mut log = MemLog::open(Vec::new());
    write_mutations(&mut log, 3);
    log.flush();
    log.segments[0].1.extend_from_slice(b"\x00\x01\x02");
    assert_eq!(log.recover().len(), 3);
}

#[test]
fn wal_flush_succeeds() {
    let mut log = MemLog::open(Vec::new());
    write_mutations(&mut log, 3);
    log.flush();
    assert_eq!(log.state.unflushed_bytes, 0);
}

#[test]
fn wal_sequence_continues_after_rotation_and_reopen() {
    let mut seg1 = Vec::new();
    for i in 0..3u64 {
        seg1.extend_from_slice(&build_frame(i, 0, &stamina(i as f32)));
    }
    // The rotation opened segment 2, which is still empty.
    let mut log = MemLog::open(vec![(1, seg1), (2, Vec::new())]);
    assert_eq!(log.state.segment_index, 2);
    assert_eq!(log.state.next_seq, 3, "numbering continues across segments");
    assert_eq!(log.append(&stamina(9.0)), 3);
    assert_eq!(log.recover(), vec![0, 1, 2, 3]);
}

/// The bitwise IEEE CRC-32 the frame checksum is stated as.
fn crc32_bitwise(data: &[u8]) -> u32 {
    let mut c: u32 = 0xFFFF_FFFF;
    for &b in data {
        c ^= b as u32;
        for _ in 0..8 {
            c = if c & 1 == 1 { (c >> 1) ^ 0xEDB8_8320 } else { c >> 1 };
        }
    }
    c ^ 0xFFFF_FFFF
}

#[test]
fn frame_checksum_is_the_ieee_crc32() {
    assert_eq!(crc32_bitwise(b"123456789"), 0xCBF4_3926);
    let frame = build_frame(7, 9, b"123456789");
    let mut covered = frame[0..24].to_vec();
    covered.extend_from_slice(&frame[28..]);
    assert_eq!(&frame[24..28], &crc32_bitwise(&covered).to_le_bytes());
}

#[test]
fn resumed_writer_continues_after_the_last_entry_of_every_segment() {
    let seg1 = [build_frame(0, 1, b"a"), build_frame(1, 1, b"b")].concat();
    let seg2 = build_frame(2, 1, b"c");
    let seg3: Vec<u8> = Vec::new();
    let scan = scan_segments(&vec![seg1, seg2, seg3]);
    let mut w = WalWriterState::resumed(3, 0, &scan).expect("clean log");
    assert_eq!(w.next_seq, 3);
    assert_eq!(w.segment_index, 3);
    assert_eq!(w.unflushed_bytes, 0);
    let seqs: Vec<u64> = (0..4).map(|_| w.record_write(20)).collect();
    assert_eq!(seqs, vec![3, 4, 5, 6]);

    let mut bad = build_frame(0, 1, b"a");
    bad[28] ^= 0xFF;
    let corrupt = scan_segments(&vec![bad, Vec::new()]);
    assert!(WalWriterState::resumed(1, 0, &corrupt).is_none());
}
