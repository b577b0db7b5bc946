use runperf::net::{
    pin, pps_per_worker, read_header, stamp_sequences, stream_buffers, xdp_worker_count, Counters,
    LossTracker, Pacer, SeqOverflow, BATCH, HDR, XDP_FRAME_HDRS,
};

fn payload(sid: u64, seq: u64, len: usize) -> Vec<u8> {
    let mut b = vec![0u8; len];
    b[0..8].copy_from_slice(&sid.to_le_bytes());
    b[8..16].copy_from_slice(&seq.to_le_bytes());
    b
}

#[test]
fn send_buffers_carry_stream_and_sequence() {
    let mut bufs = stream_buffers(7, 100);
    assert_eq!(bufs.len(), BATCH);
    assert!(bufs.iter().all(|b| b.len() == 100));
    let next = stamp_sequences(&mut bufs, 1000);
    assert_eq!(next, 1000 + BATCH as u64);
    for (k, b) in bufs.iter().enumerate() {
        assert_eq!(read_header(b, 0), (7, 1000 + k as u64));
        assert_eq!(&b[0..8], &7u64.to_le_bytes());
        assert_eq!(&b[8..16], &(1000 + k as u64).to_le_bytes());
        assert!(b[16..].iter().all(|&x| x == 0));
    }
}

#[test]
fn short_payloads_are_padded_to_header() {
    let bufs = stream_buffers(0x0102030405060708, 3);
    assert!(bufs.iter().all(|b| b.len() == HDR));
    assert_eq!(bufs[0][0..8], [8, 7, 6, 5, 4, 3, 2, 1]);
}

#[test]
fn loss_from_sequence_gaps() {
    let mut t = LossTracker::new();
    assert_eq!(t.observe(1, 0), Some(0));
    assert_eq!(t.observe(1, 1), Some(0));
    assert_eq!(t.observe(1, 5), Some(3));
    assert_eq!(t.observe(2, 10), Some(0));
    assert_eq!(t.observe(1, 4), Some(0));
    assert_eq!(t.observe(1, 4), Some(0));
    assert_eq!(t.last(1), Some(4));
    assert_eq!(t.last(2), Some(10));
    assert_eq!(t.last(3), None);
}

#[test]
fn loss_increasing_stream_counts_missing() {
    let mut t = LossTracker::new();
    let seqs = [3u64, 4, 9, 10, 20];
    let total: u64 = seqs.iter().map(|&s| t.observe(9, s).unwrap()).sum();
    assert_eq!(total, 20 - 3 + 1 - seqs.len() as u64);
}

#[test]
fn loss_after_max_sequence_overflows() {
    let mut t = LossTracker::new();
    assert_eq!(t.observe(1, u64::MAX), Some(0));
    assert_eq!(t.observe(1, 3), None);
    assert_eq!(t.last(1), Some(3));
}

#[test]
fn counters_record_received_datagrams() {
    let mut t = LossTracker::new();
    let mut c = Counters::new();
    assert_eq!(c.record_datagram(&mut t, &payload(5, 0, 2048), 100, 0), Ok(()));
    assert_eq!(c.record_datagram(&mut t, &payload(5, 4, 2048), 100, 0), Ok(()));
    assert_eq!(c.record_datagram(&mut t, &payload(5, 9, 2048), 10, 0), Ok(()));
    assert_eq!(c, Counters { bytes: 210, packets: 3, drops: 3 });
    assert_eq!(t.last(5), Some(4));
}

#[test]
fn counters_read_xdp_frames_past_headers() {
    let mut t = LossTracker::new();
    let mut c = Counters::default();
    let mut frame = vec![0u8; XDP_FRAME_HDRS];
    frame.extend(payload(2, 0, 16));
    assert_eq!(c.record_datagram(&mut t, &frame, frame.len(), XDP_FRAME_HDRS), Ok(()));
    let mut frame2 = vec![0u8; XDP_FRAME_HDRS];
    frame2.extend(payload(2, 2, 16));
    assert_eq!(c.record_datagram(&mut t, &frame2, frame2.len(), XDP_FRAME_HDRS), Ok(()));
    assert_eq!(c, Counters { bytes: 116, packets: 2, drops: 1 });
    assert_eq!(c.record_datagram(&mut t, &frame2, 57, XDP_FRAME_HDRS), Ok(()));
    assert_eq!(c.drops, 1);
}

#[test]
fn counters_report_overflowing_sequence() {
    let mut t = LossTracker::new();
    let mut c = Counters::new();
    assert_eq!(c.record_datagram(&mut t, &payload(1, u64::MAX, 64), 64, 0), Ok(()));
    assert_eq!(
        c.record_datagram(&mut t, &payload(1, 7, 64), 64, 0),
        Err(SeqOverflow { stream_id: 1 })
    );
    assert_eq!(c.packets, 2);
    assert_eq!(c.bytes, 128);
}

#[test]
fn counters_record_sent_batches() {
    let mut c = Counters::new();
    assert_eq!(c.record_sent(64, 1400), 64);
    assert_eq!(c.record_sent(-1, 1400), 0);
    assert_eq!(c.record_sent(0, 1400), 0);
    assert_eq!(c, Counters { bytes: 64 * 1400, packets: 64, drops: 0 });
    let mut w = Counters { bytes: u64::MAX, packets: u64::MAX, drops: 0 };
    w.record_sent(2, 1);
    assert_eq!(w, Counters { bytes: 1, packets: 1, drops: 0 });
}

#[test]
fn pin_round_robin() {
    assert_eq!(pin(&[], 3), None);
    assert_eq!(pin(&[4, 5, 6], 0), Some(4));
    assert_eq!(pin(&[4, 5, 6], 4), Some(5));
    assert_eq!(pin(&[4, 5, 6], 4 + 3), pin(&[4, 5, 6], 4));
}

#[test]
fn pps_budget_per_worker() {
    assert_eq!(pps_per_worker(0, 8), 0);
    assert_eq!(pps_per_worker(0, 0), 0);
    assert_eq!(pps_per_worker(1000, 8), 125);
    assert_eq!(pps_per_worker(3, 8), 1);
}

#[test]
fn xdp_workers() {
    assert_eq!(xdp_worker_count(8, 4), 4);
    assert_eq!(xdp_worker_count(2, 4), 2);
    assert_eq!(xdp_worker_count(0, 4), 1);
    assert_eq!(xdp_worker_count(3, 0), 1);
}

#[test]
fn pacer_waits_once_budget_used() {
    let mut p = Pacer::new(100);
    assert!(!p.record(64));
    assert!(p.record(64));
    p.restart();
    assert_eq!(p.sent, 0);
    assert!(!p.record(0));
    let mut free = Pacer::new(0);
    assert!(!free.record(1 << 40));
}

#[test]
fn pacer_overshoot_below_one_batch() {
    let mut p = Pacer::new(100);
    let mut total = 0u64;
    loop {
        total += 64;
        if p.record(64) {
            break;
        }
    }
    assert_eq!(total, 128);
    assert!(total <= 100 + BATCH as u64 - 1);
}
