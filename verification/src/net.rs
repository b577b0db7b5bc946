//! The computations of the TCP and UDP engines: which CPU a worker is pinned
//! to, the UDP payload header (first 16 bytes: `[u64 stream_id LE][u64 seq
//! LE]`, the rest padding), per-stream loss from sequence gaps, the byte /
//! packet / drop tallies, and send-rate pacing.
//!
//! Sockets, threads, clocks and shared atomic counters belong to the caller,
//! which hands each batch's results to these functions.
use vstd::prelude::*;
use vstd::bytes::{
    lemma_auto_spec_u64_to_from_le_bytes, spec_u64_from_le_bytes, spec_u64_to_le_bytes,
    u64_from_le_bytes, u64_to_le_bytes,
};
use vstd::slice::slice_subrange;
use std::collections::HashMap;

verus! {

/// Packets per `sendmmsg` / `recvmmsg` batch.
pub const BATCH: usize = 64;

/// Bytes of the payload header: stream id and sequence number.
pub const HDR: usize = 16;

/// Bytes of Ethernet (14), IPv4 (20) and UDP (8) headers in front of the
/// payload of a frame received over AF_XDP.
pub const XDP_FRAME_HDRS: usize = 42;

/// `x + y`, wrapped to 64 bits as an atomic `fetch_add` wraps.
pub open spec fn wrap_add(x: u64, y: int) -> u64 {
    ((x + y) % 0x1_0000_0000_0000_0000int) as u64
}

/// The CPU that worker `i` is pinned to: the CPUs are taken round-robin;
/// none when the list is empty.
pub open spec fn pin_spec(cpus: Seq<usize>, i: int) -> Option<usize> {
    if cpus.len() == 0 {
        None
    } else {
        Some(cpus[i % cpus.len() as int])
    }
}

/// `buf` with the 8 bytes at `off` replaced by `x` in little-endian order.
pub open spec fn put_u64_le(buf: Seq<u8>, off: int, x: u64) -> Seq<u8> {
    buf.take(off) + spec_u64_to_le_bytes(x) + buf.skip(off + 8)
}

/// The little-endian `u64` in the 8 bytes at `off`.
pub open spec fn get_u64_le(buf: Seq<u8>, off: int) -> u64 {
    spec_u64_from_le_bytes(buf.subrange(off, off + 8))
}

/// The (stream id, sequence number) header at `off`.
pub open spec fn header_at(buf: Seq<u8>, off: int) -> (u64, u64) {
    (get_u64_le(buf, off), get_u64_le(buf, off + 8))
}

/// A fresh send buffer of a stream: `len` bytes (at least `HDR`), all zero
/// but the stream id in the first 8.
pub open spec fn fresh_buffer(stream_id: u64, len: nat) -> Seq<u8> {
    put_u64_le(
        Seq::new(if len >= HDR { len } else { HDR as nat }, |i: int| 0u8),
        0,
        stream_id,
    )
}

/// The packets lost between the previous sequence number seen on a stream
/// and the next one: those skipped over when the next one is more than one
/// ahead; none for the first packet of a stream, a repeat or a reordering.
pub open spec fn gap(prev: Option<u64>, seq: u64) -> nat {
    match prev {
        Some(p) => if seq > p + 1 {
            (seq - p - 1) as nat
        } else {
            0
        },
        None => 0,
    }
}

/// The packets per second one of `workers` workers may send when the
/// target is `target_pps` in all (0: no cap).
pub open spec fn pps_per_worker_spec(target_pps: u64, workers: nat) -> u64 {
    if target_pps == 0 {
        0
    } else if target_pps as nat / workers >= 1 {
        (target_pps as nat / workers) as u64
    } else {
        1
    }
}

/// Drops on one stream when sequence numbers `seqs` arrive in this order on
/// a stream not seen before.
pub open spec fn stream_drops(seqs: Seq<u64>) -> nat
    decreases seqs.len(),
{
    if seqs.len() <= 1 {
        0
    } else {
        stream_drops(seqs.drop_last()) + gap(Some(seqs[seqs.len() - 2]), seqs.last())
    }
}

/// Drops that a tracker which has seen `seen` counts on stream `stream_id`
/// as the sequence numbers `seqs` arrive on it in this order.
pub open spec fn tracked_drops(seen: Map<u64, u64>, stream_id: u64, seqs: Seq<u64>) -> nat
    decreases seqs.len(),
{
    if seqs.len() == 0 {
        0
    } else {
        let prev = if seen.contains_key(stream_id) {
            Some(seen[stream_id])
        } else {
            None
        };
        gap(prev, seqs[0]) + tracked_drops(seen.insert(stream_id, seqs[0]), stream_id, seqs.drop_first())
    }
}

/// The CPU that worker `i` is pinned to, if any (round-robin over `cpus`).
pub fn pin(cpus: &[usize], i: usize) -> (r: Option<usize>)
    ensures
        r == pin_spec(cpus@, i as int),
        r matches Some(c) ==> cpus@.contains(c),
        cpus@.len() == 0 <==> r is None,
        cpus@.len() > 0 ==> r == Some(cpus@[(i as int) % (cpus@.len() as int)]),
        i < cpus@.len() ==> r == Some(cpus@[i as int]),
{
    if cpus.len() == 0 {
        None
    } else {
        let c = cpus[i % cpus.len()];
        assert(cpus@[(i % cpus.len()) as int] == c);
        proof {
            if i < cpus@.len() {
                vstd::arithmetic::div_mod::lemma_small_mod(i as nat, cpus@.len());
            }
        }
        Some(c)
    }
}

/// Writes `x` little-endian into the 8 bytes of `buf` at `off`.
fn write_u64_le(buf: &mut Vec<u8>, off: usize, x: u64)
    requires
        off + 8 <= old(buf)@.len(),
    ensures
        final(buf)@ == put_u64_le(old(buf)@, off as int, x),
{
    let bytes = u64_to_le_bytes(x);
    let len = buf.len();
    let mut k: usize = 0;
    while k < 8
        invariant
            bytes@ == spec_u64_to_le_bytes(x),
            bytes@.len() == 8,
            off + 8 <= buf@.len(),
            buf@.len() == old(buf)@.len(),
            len == buf@.len(),
            k <= 8,
            forall|i: int| 0 <= i < off ==> buf@[i] == old(buf)@[i],
            forall|i: int| off + 8 <= i < buf@.len() ==> buf@[i] == old(buf)@[i],
            forall|i: int| 0 <= i < k ==> buf@[off + i] == bytes@[i],
        decreases 8 - k,
    {
        buf.set(off + k, bytes[k]);
        k = k + 1;
    }
    assert(buf@ =~= put_u64_le(old(buf)@, off as int, x));
}

/// Reads the little-endian `u64` at `off`.
fn read_u64_le(buf: &[u8], off: usize) -> (x: u64)
    requires
        off + 8 <= buf@.len(),
    ensures
        x == get_u64_le(buf@, off as int),
{
    let len = buf.len();
    assert(off + 8 <= len);
    u64_from_le_bytes(slice_subrange(buf, off, off + 8))
}

/// The (stream id, sequence number) header at `off` of a payload.
pub fn read_header(buf: &[u8], off: usize) -> (h: (u64, u64))
    requires
        off + HDR <= buf@.len(),
    ensures
        h == header_at(buf@, off as int),
        h.0 == spec_u64_from_le_bytes(buf@.subrange(off as int, off + 8)),
        h.1 == spec_u64_from_le_bytes(buf@.subrange(off + 8, off + 16)),
{
    let len = buf.len();
    assert(off + HDR <= len);
    (read_u64_le(buf, off), read_u64_le(buf, off + 8))
}

/// The `BATCH` send buffers of stream `stream_id`: `max(len, HDR)` bytes
/// each, zero but for the stream id stamped in the first 8.
pub fn stream_buffers(stream_id: u64, len: usize) -> (bufs: Vec<Vec<u8>>)
    ensures
        bufs@.len() == BATCH,
        forall|k: int| 0 <= k < BATCH ==> #[trigger] bufs@[k]@ == fresh_buffer(stream_id, len as nat),
        forall|k: int|
            0 <= k < BATCH ==> #[trigger] bufs@[k]@.len() == (if len >= HDR {
                len as nat
            } else {
                HDR as nat
            }),
        forall|k: int|
            0 <= k < BATCH ==> #[trigger] bufs@[k]@.subrange(0, 8) == spec_u64_to_le_bytes(stream_id),
        forall|k: int, j: int| 0 <= k < BATCH && 8 <= j < bufs@[k]@.len() ==> #[trigger] bufs@[k]@[j] == 0u8,
{
    proof {
        law_fresh_buffer_layout(stream_id, len as nat);
    }
    let n = if len >= HDR {
        len
    } else {
        HDR
    };
    let mut bufs: Vec<Vec<u8>> = Vec::new();
    while bufs.len() < BATCH
        invariant
            n >= HDR,
            n as nat == (if len >= HDR { len as nat } else { HDR as nat }),
            bufs@.len() <= BATCH,
            forall|k: int| 0 <= k < bufs@.len() ==> #[trigger] bufs@[k]@ == fresh_buffer(stream_id, len as nat),
        decreases BATCH - bufs@.len(),
    {
        let mut b: Vec<u8> = Vec::new();
        while b.len() < n
            invariant
                b@.len() <= n,
                forall|i: int| 0 <= i < b@.len() ==> b@[i] == 0u8,
            decreases n - b@.len(),
        {
            b.push(0u8);
        }
        assert(b@ =~= Seq::new(n as nat, |i: int| 0u8));
        write_u64_le(&mut b, 0, stream_id);
        bufs.push(b);
    }
    bufs
}

/// Stamps consecutive sequence numbers `seq, seq + 1, ...` into the headers
/// of a batch of send buffers, leaving every other byte as it was; returns
/// the next sequence number.
pub fn stamp_sequences(bufs: &mut Vec<Vec<u8>>, seq: u64) -> (next: u64)
    requires
        forall|k: int| 0 <= k < old(bufs)@.len() ==> #[trigger] old(bufs)@[k]@.len() >= HDR,
        seq + old(bufs)@.len() <= u64::MAX,
    ensures
        next == seq + old(bufs)@.len(),
        final(bufs)@.len() == old(bufs)@.len(),
        forall|k: int|
            0 <= k < old(bufs)@.len() ==> #[trigger] final(bufs)@[k]@ == put_u64_le(
                old(bufs)@[k]@,
                8,
                (seq + k) as u64,
            ),
        forall|k: int|
            0 <= k < old(bufs)@.len() ==> #[trigger] final(bufs)@[k]@.subrange(8, 16)
                == spec_u64_to_le_bytes((seq + k) as u64),
        forall|k: int, j: int|
            0 <= k < old(bufs)@.len() && 0 <= j < old(bufs)@[k]@.len() && !(8 <= j < 16)
                ==> #[trigger] final(bufs)@[k]@[j] == old(bufs)@[k]@[j],
        forall|k: int| 0 <= k < old(bufs)@.len() ==> #[trigger] final(bufs)@[k]@.len() == old(bufs)@[k]@.len(),
{
    proof {
        lemma_auto_spec_u64_to_from_le_bytes();
    }
    let mut k: usize = 0;
    let mut s = seq;
    while k < bufs.len()
        invariant
            bufs@.len() == old(bufs)@.len(),
            k <= bufs@.len(),
            s == seq + k,
            seq + old(bufs)@.len() <= u64::MAX,
            forall|j: int| 0 <= j < old(bufs)@.len() ==> #[trigger] old(bufs)@[j]@.len() >= HDR,
            forall|j: int|
                0 <= j < k ==> #[trigger] bufs@[j]@ == put_u64_le(old(bufs)@[j]@, 8, (seq + j) as u64),
            forall|j: int| k <= j < bufs@.len() ==> #[trigger] bufs@[j] == old(bufs)@[j],
        decreases bufs@.len() - k,
    {
        let b = &mut bufs[k];
        write_u64_le(b, 8, s);
        s = s + 1;
        k = k + 1;
    }
    s
}

/// Last sequence number seen per stream, for one receiving worker. A given
/// stream always reaches the same worker, so a worker's own view of each
/// stream is complete.
pub struct LossTracker {
    last_seq: HashMap<u64, u64>,
}

impl View for LossTracker {
    type V = Map<u64, u64>;

    closed spec fn view(&self) -> Map<u64, u64> {
        self.last_seq@
    }
}

impl LossTracker {
    /// A tracker that has seen no stream.
    pub fn new() -> (t: Self)
        ensures
            t@ == Map::<u64, u64>::empty(),
    {
        LossTracker { last_seq: HashMap::new() }
    }

    /// The last sequence number seen on `stream_id`.
    pub fn last(&self, stream_id: u64) -> (r: Option<u64>)
        ensures
            r == (if self@.contains_key(stream_id) {
                Some(self@[stream_id])
            } else {
                None
            }),
    {
        match self.last_seq.get(&stream_id) {
            Some(v) => Some(*v),
            None => None,
        }
    }

    /// Records that `seq` arrived on `stream_id` and returns the packets lost
    /// since the previous one (`gap`). `None` when the previous sequence
    /// number is `u64::MAX`, where counting the next one overflows; the
    /// sequence number is recorded either way.
    pub fn observe(&mut self, stream_id: u64, seq: u64) -> (r: Option<u64>)
        ensures
            final(self)@ == old(self)@.insert(stream_id, seq),
            old(self)@.contains_key(stream_id) && old(self)@[stream_id] == u64::MAX ==> r is None,
            !(old(self)@.contains_key(stream_id) && old(self)@[stream_id] == u64::MAX) ==> r
                == Some(
                gap(
                    if old(self)@.contains_key(stream_id) {
                        Some(old(self)@[stream_id])
                    } else {
                        None
                    },
                    seq,
                ) as u64,
            ),
            !old(self)@.contains_key(stream_id) ==> r == Some(0u64),
            old(self)@.contains_key(stream_id) && old(self)@[stream_id] < u64::MAX && seq
                <= old(self)@[stream_id] + 1 ==> r == Some(0u64),
            old(self)@.contains_key(stream_id) && old(self)@[stream_id] < u64::MAX && seq
                > old(self)@[stream_id] + 1 ==> r == Some((seq - old(self)@[stream_id] - 1) as u64),
    {
        match self.last_seq.insert(stream_id, seq) {
            Some(prev) => {
                if prev == u64::MAX {
                    None
                } else if seq > prev + 1 {
                    Some(seq - prev - 1)
                } else {
                    Some(0)
                }
            },
            None => Some(0),
        }
    }
}

/// Why a datagram could not be accounted: its stream's previous sequence
/// number was `u64::MAX`, so the gap to it cannot be counted.
#[derive(Debug, Clone, Copy, PartialEq, Eq)]
pub struct SeqOverflow {
    pub stream_id: u64,
}

/// Bytes, packets and lost packets counted over a run or a batch.
#[derive(Debug, Clone, Copy, PartialEq, Eq)]
pub struct Counters {
    pub bytes: u64,
    pub packets: u64,
    pub drops: u64,
}

impl Counters {
    /// All zero.
    pub fn new() -> (c: Self)
        ensures
            c.bytes == 0 && c.packets == 0 && c.drops == 0,
    {
        Counters { bytes: 0, packets: 0, drops: 0 }
    }

    /// Counts a batch that `sendmmsg` reported as `ret` (packets sent, or a
    /// negative error), each packet `len` bytes; returns the packets sent.
    pub fn record_sent(&mut self, ret: i32, len: usize) -> (n: u64)
        requires
            ret > 0 ==> ret * len <= u64::MAX,
        ensures
            ret > 0 ==> n == ret && final(self).packets == wrap_add(old(self).packets, ret as int)
                && final(self).bytes == wrap_add(old(self).bytes, ret * len),
            ret <= 0 ==> n == 0 && final(self).packets == old(self).packets && final(self).bytes
                == old(self).bytes,
            final(self).drops == old(self).drops,
    {
        if ret > 0 {
            let n = ret as u64;
            self.packets = self.packets.wrapping_add(n);
            self.bytes = self.bytes.wrapping_add(n * len as u64);
            n
        } else {
            0
        }
    }

    /// Counts one received datagram of `n` bytes held in `buf`, whose payload
    /// header, when the datagram reaches past it, sits at `hdr_offset`: the
    /// bytes and the packet are counted, and the packets lost on its stream
    /// since the previous one (per `tracker`) are added to the drops.
    pub fn record_datagram(
        &mut self,
        tracker: &mut LossTracker,
        buf: &[u8],
        n: usize,
        hdr_offset: usize,
    ) -> (r: Result<(), SeqOverflow>)
        requires
            n <= buf@.len(),
            hdr_offset + HDR <= usize::MAX,
        ensures
            final(self).bytes == wrap_add(old(self).bytes, n as int),
            final(self).packets == wrap_add(old(self).packets, 1),
            n < hdr_offset + HDR ==> r is Ok && final(tracker)@ == old(tracker)@ && final(self).drops
                == old(self).drops,
            n >= hdr_offset + HDR ==> ({
                let (sid, seq) = header_at(buf@, hdr_offset as int);
                let prev = if old(tracker)@.contains_key(sid) {
                    Some(old(tracker)@[sid])
                } else {
                    None
                };
                &&& final(tracker)@ == old(tracker)@.insert(sid, seq)
                &&& prev == Some(u64::MAX) ==> r == Err::<(), SeqOverflow>(
                    SeqOverflow { stream_id: sid },
                ) && final(self).drops == old(self).drops
                &&& prev != Some(u64::MAX) ==> r is Ok && final(self).drops == wrap_add(
                    old(self).drops,
                    gap(prev, seq) as int,
                )
            }),
    {
        self.bytes = self.bytes.wrapping_add(n as u64);
        self.packets = self.packets.wrapping_add(1);
        if n >= hdr_offset + HDR {
            let (sid, seq) = read_header(buf, hdr_offset);
            match tracker.observe(sid, seq) {
                Some(d) => {
                    self.drops = self.drops.wrapping_add(d);
                    Ok(())
                },
                None => Err(SeqOverflow { stream_id: sid }),
            }
        } else {
            Ok(())
        }
    }
}

impl Default for Counters {
    fn default() -> (c: Self)
        ensures
            c.bytes == 0 && c.packets == 0 && c.drops == 0,
    {
        Counters::new()
    }
}

/// The packets per second one of `workers` workers may send when the target
/// is `target_pps` in all: 0 (no cap) when the target is 0, else an even
/// share, at least 1.
pub fn pps_per_worker(target_pps: u64, workers: usize) -> (r: u64)
    requires
        target_pps == 0 || workers > 0,
    ensures
        r == pps_per_worker_spec(target_pps, workers as nat),
{
    if target_pps == 0 {
        0
    } else {
        let share = target_pps / workers as u64;
        if share >= 1 {
            share
        } else {
            1
        }
    }
}

/// The AF_XDP workers: one per CPU given, at most one per queue, at least
/// one. The CPU count is taken as a `u32` (truncated).
pub fn xdp_worker_count(cpus: usize, queues: u32) -> (w: u32)
    ensures
        ({
            let c = cpus as u32;
            let m = if c <= queues {
                c
            } else {
                queues
            };
            w == if m >= 1 {
                m
            } else {
                1
            }
        }),
{
    let c = cpus as u32;
    let m = if c <= queues {
        c
    } else {
        queues
    };
    if m >= 1 {
        m
    } else {
        1
    }
}

/// Send-rate pacing within the current second: `budget` packets per second
/// (0: no cap) and the packets `sent` since the second began.
#[derive(Debug, Clone, Copy, PartialEq, Eq)]
pub struct Pacer {
    pub budget: u64,
    pub sent: u64,
}

impl Pacer {
    /// A pacer at the start of a second.
    pub fn new(budget: u64) -> (p: Self)
        ensures
            p.budget == budget,
            p.sent == 0,
    {
        Pacer { budget, sent: 0 }
    }

    /// Counts `n` packets sent; returns whether the sender must now wait for
    /// the rest of the second (a budget is set and it is used up).
    pub fn record(&mut self, n: u64) -> (wait: bool)
        requires
            old(self).sent + n <= u64::MAX,
        ensures
            final(self).budget == old(self).budget,
            final(self).sent == old(self).sent + n,
            wait == (old(self).budget > 0 && old(self).sent + n >= old(self).budget),
    {
        self.sent = self.sent + n;
        self.budget > 0 && self.sent >= self.budget
    }

    /// Starts a new second.
    pub fn restart(&mut self)
        ensures
            final(self).budget == old(self).budget,
            final(self).sent == 0,
    {
        self.sent = 0;
    }
}

/// Layout of a fresh send buffer: `max(len, HDR)` bytes, the stream id
/// little-endian in the first 8, zero after.
pub proof fn law_fresh_buffer_layout(stream_id: u64, len: nat)
    ensures
        fresh_buffer(stream_id, len).len() == (if len >= HDR { len } else { HDR as nat }),
        fresh_buffer(stream_id, len).subrange(0, 8) == spec_u64_to_le_bytes(stream_id),
        forall|j: int|
            8 <= j < fresh_buffer(stream_id, len).len() ==> #[trigger] fresh_buffer(stream_id, len)[j]
                == 0u8,
{
    lemma_auto_spec_u64_to_from_le_bytes();
    let f = fresh_buffer(stream_id, len);
    assert(f.subrange(0, 8) =~= spec_u64_to_le_bytes(stream_id));
}

/// Only forward jumps count as loss: a sequence number that is at most one
/// past the previous one (a repeat, the next one, a reordered or restarted
/// stream) adds no loss; one more than one ahead adds the numbers skipped.
pub proof fn law_gap_forward_only(prev: u64, seq: u64)
    ensures
        seq <= prev + 1 ==> gap(Some(prev), seq) == 0,
        seq > prev + 1 ==> gap(Some(prev), seq) + prev + 1 == seq,
        gap(None, seq) == 0,
{
}

/// Counters add as `u64`s do while the sum fits, and wrap past it.
pub proof fn law_wrap_add(x: u64, y: int)
    requires
        0 <= y <= u64::MAX,
    ensures
        x + y <= u64::MAX ==> wrap_add(x, y) == x + y,
        x + y > u64::MAX ==> wrap_add(x, y) == x + y - 0x1_0000_0000_0000_0000int,
{
}

/// Workers `0..len` are pinned to the CPUs of the list in order, each CPU
/// once; worker `i` is pinned to the CPU at position `i mod len`.
pub proof fn law_pin_in_order(cpus: Seq<usize>, i: int)
    requires
        0 <= i,
    ensures
        i < cpus.len() ==> pin_spec(cpus, i) == Some(cpus[i]),
        cpus.len() > 0 ==> pin_spec(cpus, i) == Some(cpus[i % cpus.len() as int]),
        cpus.len() == 0 ==> pin_spec(cpus, i) is None,
{
    if i < cpus.len() {
        vstd::arithmetic::div_mod::lemma_small_mod(i as nat, cpus.len());
    }
}

/// The per-worker budget: no cap stays no cap; otherwise each worker gets
/// the whole-number share of the target, and never less than one packet.
pub proof fn law_pps_share(target_pps: u64, workers: nat)
    requires
        workers > 0,
    ensures
        target_pps == 0 ==> pps_per_worker_spec(target_pps, workers) == 0,
        target_pps >= workers ==> pps_per_worker_spec(target_pps, workers) * workers <= target_pps
            < (pps_per_worker_spec(target_pps, workers) + 1) * workers,
        0 < target_pps < workers ==> pps_per_worker_spec(target_pps, workers) == 1,
{
    if target_pps >= workers {
        let q = target_pps as nat / workers;
        assert(q * workers <= target_pps < (q + 1) * workers) by (nonlinear_arith)
            requires
                q == target_pps as nat / workers,
                workers > 0,
        ;
        assert(q >= 1) by (nonlinear_arith)
            requires
                q == target_pps as nat / workers,
                workers > 0,
                target_pps >= workers,
        ;
    } else if target_pps > 0 {
        assert(target_pps as nat / workers == 0) by (nonlinear_arith)
            requires
                target_pps < workers,
        ;
    }
}

/// Packets in a sequence of batches.
pub open spec fn batches_total(batches: Seq<u64>) -> nat
    decreases batches.len(),
{
    if batches.len() == 0 {
        0
    } else {
        batches_total(batches.drop_last()) + batches.last() as nat
    }
}

/// What the pacer lets out in one second. The sender asks `Pacer::record`
/// after each batch and keeps sending while it does not ask to wait, so in
/// the batches of one second every batch but the last left the total below
/// the budget. With batches of at most `BATCH` packets, at most `BATCH - 1`
/// more than the budget go out in the second.
pub proof fn law_pacer_caps_second(budget: u64, batches: Seq<u64>)
    requires
        budget > 0,
        batches.len() >= 1,
        forall|i: int| 0 <= i < batches.len() ==> #[trigger] batches[i] <= BATCH,
        batches_total(batches.drop_last()) < budget,
    ensures
        batches_total(batches) <= budget + BATCH - 1,
{
    assert(batches.last() <= BATCH);
}

/// The header read back from a payload is the one stamped into it: a
/// stream id written at byte 0 and a sequence number written at byte 8 are
/// read back as they were written, and no byte past the header changes.
pub proof fn law_header_reads_back(buf: Seq<u8>, stream_id: u64, seq: u64)
    requires
        buf.len() >= HDR,
    ensures
        ({
            let stamped = put_u64_le(put_u64_le(buf, 0, stream_id), 8, seq);
            &&& stamped.len() == buf.len()
            &&& header_at(stamped, 0) == (stream_id, seq)
            &&& stamped.skip(HDR as int) == buf.skip(HDR as int)
        }),
{
    lemma_auto_spec_u64_to_from_le_bytes();
    let b1 = put_u64_le(buf, 0, stream_id);
    let b2 = put_u64_le(b1, 8, seq);
    assert(b2.subrange(0, 8) =~= spec_u64_to_le_bytes(stream_id));
    assert(b2.subrange(8, 16) =~= spec_u64_to_le_bytes(seq));
    assert(b2.skip(HDR as int) =~= buf.skip(HDR as int));
}

/// Every send buffer of a stream, once its sequence number is stamped,
/// carries the stream's id and that sequence number.
pub proof fn law_stamped_buffer_header(stream_id: u64, len: nat, seq: u64)
    ensures
        header_at(put_u64_le(fresh_buffer(stream_id, len), 8, seq), 0) == (stream_id, seq),
{
    let z = Seq::new(if len >= HDR { len } else { HDR as nat }, |i: int| 0u8);
    law_header_reads_back(z, stream_id, seq);
}

/// Loss counted from sequence gaps is exact for a stream whose sequence
/// numbers arrive in increasing order: the drops are the sequence numbers
/// between the first and the last that never arrived.
pub proof fn law_increasing_stream_drops(seqs: Seq<u64>)
    requires
        seqs.len() >= 1,
        forall|i: int, j: int| 0 <= i < j < seqs.len() ==> seqs[i] < seqs[j],
    ensures
        stream_drops(seqs) == seqs.last() - seqs[0] + 1 - seqs.len(),
    decreases seqs.len(),
{
    if seqs.len() > 1 {
        let init = seqs.drop_last();
        assert forall|i: int, j: int| 0 <= i < j < init.len() implies init[i] < init[j] by {
            assert(init[i] == seqs[i] && init[j] == seqs[j]);
        }
        law_increasing_stream_drops(init);
        assert(init.last() == seqs[seqs.len() - 2]);
        assert(seqs[seqs.len() - 2] < seqs.last());
    }
}

/// What a tracker counts on a stream it meets after its sequence number `p`
/// is what the gaps of `p` followed by the arrivals give.
proof fn lemma_tracked_drops_after(seen: Map<u64, u64>, stream_id: u64, p: u64, seqs: Seq<u64>)
    ensures
        tracked_drops(seen.insert(stream_id, p), stream_id, seqs) == stream_drops(seq![p] + seqs),
    decreases seqs.len(),
{
    let full = seq![p] + seqs;
    if seqs.len() == 0 {
        assert(full.len() == 1);
    } else {
        let m = seen.insert(stream_id, p);
        assert(m.contains_key(stream_id) && m[stream_id] == p);
        assert(m.insert(stream_id, seqs[0]) =~= seen.insert(stream_id, seqs[0]));
        lemma_tracked_drops_after(seen, stream_id, seqs[0], seqs.drop_first());
        // both sides count gap(p, seqs[0]) and then the rest from seqs[0]
        lemma_stream_drops_first(full);
        assert(full.drop_first() =~= seq![seqs[0]] + seqs.drop_first());
    }
}

/// `stream_drops` read from the front: the first gap, then the rest.
proof fn lemma_stream_drops_first(s: Seq<u64>)
    requires
        s.len() >= 2,
    ensures
        stream_drops(s) == gap(Some(s[0]), s[1]) + stream_drops(s.drop_first()),
    decreases s.len(),
{
    if s.len() > 2 {
        lemma_stream_drops_first(s.drop_last());
        assert(s.drop_last().drop_first() =~= s.drop_first().drop_last());
        assert(s.drop_last()[0] == s[0] && s.drop_last()[1] == s[1]);
        let t = s.drop_first();
        assert(t[t.len() - 2] == s[s.len() - 2]);
        assert(t.last() == s.last());
        assert(stream_drops(t) == stream_drops(t.drop_last()) + gap(Some(t[t.len() - 2]), t.last()));
        assert(stream_drops(s) == stream_drops(s.drop_last()) + gap(Some(s[s.len() - 2]), s.last()));
    } else {
        assert(s.drop_first().len() == 1);
        assert(s.drop_last().len() == 1);
        assert(stream_drops(s.drop_first()) == 0);
        assert(stream_drops(s.drop_last()) == 0);
        assert(s[s.len() - 2] == s[0]);
        assert(stream_drops(s) == gap(Some(s[0]), s[1]));
    }
}

/// A tracker counts, on a stream it has not seen before, exactly the drops
/// that the stream's sequence gaps give, whatever it knows of other streams.
pub proof fn law_tracker_counts_stream_gaps(seen: Map<u64, u64>, stream_id: u64, seqs: Seq<u64>)
    requires
        !seen.contains_key(stream_id),
    ensures
        tracked_drops(seen, stream_id, seqs) == stream_drops(seqs),
{
    if seqs.len() > 0 {
        lemma_tracked_drops_after(seen, stream_id, seqs[0], seqs.drop_first());
        assert(seq![seqs[0]] + seqs.drop_first() =~= seqs);
    }
}

/// A stream whose consecutive sequence numbers all arrive, in order, shows
/// no loss.
pub proof fn law_consecutive_stream_no_drops(first: u64, n: nat)
    requires
        n >= 1,
        first + n - 1 <= u64::MAX,
    ensures
        stream_drops(Seq::new(n, |i: int| (first + i) as u64)) == 0,
{
    let s = Seq::new(n, |i: int| (first + i) as u64);
    law_increasing_stream_drops(s);
}

/// Each stream's loss is tracked apart: recording a sequence number on one
/// stream leaves what is known of every other stream as it was.
pub proof fn law_streams_independent(seen: Map<u64, u64>, stream_id: u64, seq: u64, other: u64)
    requires
        other != stream_id,
    ensures
        seen.insert(stream_id, seq).contains_key(other) == seen.contains_key(other),
        seen.contains_key(other) ==> seen.insert(stream_id, seq)[other] == seen[other],
{
}

/// Workers are pinned round-robin: worker `i` and worker `i + cpus.len()`
/// share a CPU.
pub proof fn law_pin_round_robin(cpus: Seq<usize>, i: int)
    requires
        i >= 0,
    ensures
        pin_spec(cpus, i + cpus.len()) == pin_spec(cpus, i),
{
    if cpus.len() > 0 {
        assert((i + cpus.len() as int) % (cpus.len() as int) == i % (cpus.len() as int)) by (
        nonlinear_arith)
            requires
                cpus.len() > 0,
                i >= 0,
        ;
    }
}

} // verus!
