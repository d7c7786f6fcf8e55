//! The per-connection TCP state machine (RFC 793, passive open only).
use crate::seq::{lemma_dist_forward, lemma_seq_add_small, lemma_lt_irreflexive, lemma_edge_forward, lemma_add_dist, lemma_forward_not_before, lemma_in_window, lemma_wrapping_sub_one, lemma_seq_add_add, lemma_wrapping_add, is_between_wrapped, seq_add, seq_between, seq_dist, seq_lt, wrapping_lt};
use std::collections::VecDeque;
use vstd::prelude::*;

verus! {

/// Bytes that the retransmission queue may hold.
pub const SENDQUEUE_SIZE: usize = 1024;

/// Window advertised to the peer, and assumed of it.
pub const WINDOW: u16 = 1024;

/// Largest payload that fits a 1500-byte packet behind the two headers.
pub const MAX_PAYLOAD: usize = 1460;

/// Initial smoothed round-trip estimate, in milliseconds.
pub const INITIAL_SRTT_MS: u64 = 60_000;

/// Connection states; `Closed` and `Listen` are held by the connection table.
#[derive(Clone, Copy, Debug, PartialEq, Eq, Structural)]
pub enum State {
    SynRecvd,
    Estab,
    FinWait1,
    FinWait2,
    TimeWait,
}

impl State {
    /// Both sides have exchanged SYNs.
    pub fn is_synchronized(&self) -> (r: bool)
        ensures
            r == !(*self is SynRecvd),
    {
        match *self {
            State::SynRecvd => false,
            State::Estab | State::FinWait1 | State::FinWait2 | State::TimeWait => true,
        }
    }
}

/// What became possible for the application after a segment.
#[derive(Clone, Copy, Debug, PartialEq, Eq, Structural)]
pub struct Available {
    pub read: bool,
    pub write: bool,
}

/// Errors that connections and the connection table report.
#[derive(Clone, Copy, Debug, PartialEq, Eq, Structural)]
pub enum TcpError {
    /// `bind` on a port that already has a listener.
    AddressInUse,
    /// The stream's connection is no longer in the table.
    ConnectionAborted,
    /// `close` on a connection that is already past closing.
    NotConnected,
    /// The send queue is full, or still holds bytes on `flush`.
    WouldBlock,
    /// A FIN arrived in a state whose handling is not implemented.
    UnexpectedFin,
}

/// One TCP segment inside an IPv4 packet, as plain values.
#[derive(Clone, Debug)]
pub struct Segment {
    /// IPv4 addresses, most significant byte first.
    pub src_addr: u32,
    pub dst_addr: u32,
    pub src_port: u16,
    pub dst_port: u16,
    pub seq: u32,
    pub ack: u32,
    pub window: u16,
    pub syn: bool,
    pub ack_flag: bool,
    pub fin: bool,
    pub rst: bool,
    pub payload: Vec<u8>,
}

/// Send sequence space (RFC 793 3.2).
pub struct SendSequenceSpace {
    pub una: u32,
    pub nxt: u32,
    pub wnd: u16,
    pub up: bool,
    pub wl1: usize,
    pub wl2: usize,
    pub iss: u32,
}

/// Receive sequence space (RFC 793 3.2).
pub struct RecvSequenceSpace {
    pub nxt: u32,
    pub wnd: u16,
    pub up: bool,
    pub irs: u32,
}

/// Round-trip bookkeeping; times are milliseconds on a caller-chosen clock.
pub struct Timers {
    /// `(sequence number, time last sent)`, in the order first sent; the
    /// oldest pending entry is the first in sequence order from `una`.
    pub send_times: Vec<(u32, u64)>,
    pub srtt: u64,
}

/// One step of the smoothed round-trip estimator: four fifths of `srtt` plus one fifth of `elapsed`.
pub open spec fn srtt_step(srtt: u64, elapsed: u64) -> int {
    (4 * srtt + elapsed) / 5
}

/// How far `nxt` is ahead of `una`.
pub open spec fn in_flight(c: Connection) -> int {
    seq_dist(c.send.nxt, c.send.una)
}

/// Sequence numbers beyond the queued data that may be in flight: the SYN,
/// and the FIN once `closed_at` is set.
pub open spec fn slack(c: Connection) -> int {
    if c.closed_at is Some {
        2
    } else {
        1
    }
}

/// Sequence numbers that the pending flags take.
pub open spec fn flag_count(c: Connection) -> int {
    (if c.syn_pending { 1int } else { 0 }) + (if c.fin_pending { 1int } else { 0 })
}

/// A segment may be framed at `seq`: it starts at `una` or at `nxt`, and the
/// pending flags leave the bound on `in_flight` intact.
pub open spec fn write_ok(c: Connection, seq: u32) -> bool {
    &&& c.unacked@.len() <= SENDQUEUE_SIZE
    &&& seq == c.send.una || seq == c.send.nxt
    &&& flag_count(c) <= slack(c)
    &&& in_flight(c) <= c.unacked@.len() + slack(c)
    &&& seq == c.send.nxt ==> in_flight(c) + flag_count(c) <= c.unacked@.len() + slack(c)
    &&& !c.closed ==> c.closed_at is None
    &&& (c.state is SynRecvd || c.state is Estab) ==> !c.closed
    &&& c.send.wnd == WINDOW
    &&& unique_keys(c.timers.send_times@)
}

/// The protocol control block of one connection.
pub struct Connection {
    pub state: State,
    pub send: SendSequenceSpace,
    pub recv: RecvSequenceSpace,
    pub local_addr: u32,
    pub remote_addr: u32,
    pub local_port: u16,
    pub remote_port: u16,
    /// Flags that the next emitted segment carries.
    pub syn_pending: bool,
    pub fin_pending: bool,
    pub timers: Timers,
    pub incoming: VecDeque<u8>,
    pub unacked: VecDeque<u8>,
    pub closed: bool,
    pub closed_at: Option<u32>,
}

impl Connection {
    /// The retransmission queue stays within its bound, no flag waits for
    /// the next segment, `nxt` is ahead of `una` by at most the queued bytes
    /// and the SYN and FIN (the FIN once it has a place), the FIN gets a
    /// place only after the application closed, which it has not done in
    /// `SynRecvd` or `Estab`, and the send window is the fixed one.
    pub open spec fn wf(&self) -> bool {
        &&& self.unacked@.len() <= SENDQUEUE_SIZE
        &&& !self.syn_pending
        &&& !self.fin_pending
        &&& in_flight(*self) <= self.unacked@.len() + slack(*self)
        &&& !self.closed ==> self.closed_at is None
        &&& (self.state is SynRecvd || self.state is Estab) ==> !self.closed
        &&& self.send.wnd == WINDOW
        &&& unique_keys(self.timers.send_times@)
    }

    /// The receive side has seen the peer's FIN.
    pub fn is_rcv_closed(&self) -> (r: bool)
        ensures
            r == (self.state is TimeWait),
    {
        if let State::TimeWait = self.state {
            true
        } else {
            false
        }
    }

    /// READ when data waits or the receive side is closed; WRITE as the
    /// caller found it (an ACK that moved `una`).
    pub fn availability(&self, write: bool) -> (r: Available)
        ensures
            r == avail_of(*self, write),
    {
        Available { read: self.is_rcv_closed() || self.incoming.len() > 0, write }
    }

    /// Marks the connection closed by the application; the next tick frames the FIN.
    pub fn close(&mut self) -> (r: Result<(), TcpError>)
        ensures
            old(self).wf() ==> final(self).wf(),
            *final(self) == (Connection { state: final(self).state, closed: true, ..*old(self) }),
            match old(self).state {
                State::SynRecvd | State::Estab => r is Ok && final(self).state is FinWait1,
                State::FinWait1 | State::FinWait2 => r is Ok && final(self).state == old(
                    self,
                ).state,
                State::TimeWait => r == Err::<(), TcpError>(TcpError::NotConnected)
                    && final(self).state is TimeWait,
            },
    {
        self.closed = true;
        match self.state {
            State::SynRecvd | State::Estab => {
                self.state = State::FinWait1;
            },
            State::FinWait1 | State::FinWait2 => {},
            State::TimeWait => {
                return Err(TcpError::NotConnected);
            },
        }
        Ok(())
    }
}


/// Where in `unacked` a segment that starts at `seq` begins.
pub open spec fn emit_offset(c: Connection, seq: u32) -> int {
    if c.closed_at is Some && seq == seq_add(c.closed_at->0, 1) {
        0
    } else if seq_dist(seq, c.send.una) <= c.unacked@.len() {
        seq_dist(seq, c.send.una)
    } else {
        c.unacked@.len() as int
    }
}

/// How many payload bytes a segment at `seq`, asked for at most `limit`, carries.
pub open spec fn emit_len(c: Connection, seq: u32, limit: usize) -> int {
    let lim = if c.closed_at is Some && seq == seq_add(c.closed_at->0, 1) {
        0
    } else {
        limit as int
    };
    let avail = c.unacked@.len() - emit_offset(c, seq);
    let n = if lim < avail {
        lim
    } else {
        avail
    };
    if n < MAX_PAYLOAD {
        n
    } else {
        MAX_PAYLOAD as int
    }
}

/// The sequence number just past a segment at `seq` with `n` payload bytes.
pub open spec fn emit_end(c: Connection, seq: u32, n: int) -> u32 {
    seq_add(seq, n + (if c.syn_pending { 1int } else { 0 }) + (if c.fin_pending { 1int } else { 0 }))
}

/// `send_times` after recording that `seq` left at `now`.
pub open spec fn times_after_send(t: Seq<(u32, u64)>, seq: u32, now: u64) -> Seq<(u32, u64)> {
    if exists|i: int| 0 <= i < t.len() && t[i].0 == seq {
        Seq::new(t.len(), |i: int| if t[i].0 == seq { (seq, now) } else { t[i] })
    } else {
        t.push((seq, now))
    }
}

/// `send.nxt` once a segment at `seq` with `n` data bytes has gone out: it
/// moves to the segment's end if that lies beyond it.
pub open spec fn nxt_after_send(c: Connection, seq: u32, n: int) -> u32 {
    if seq_lt(c.send.nxt, emit_end(c, seq, n)) {
        emit_end(c, seq, n)
    } else {
        c.send.nxt
    }
}

/// `s` is the segment framed from `c` at `seq` with up to `limit` data bytes.
pub open spec fn segment_sent(c: Connection, seq: u32, limit: usize, s: Segment) -> bool {
    let off = emit_offset(c, seq);
    &&& s.seq == seq
    &&& s.ack == c.recv.nxt
    &&& s.ack_flag
    &&& s.syn == c.syn_pending
    &&& s.fin == c.fin_pending
    &&& !s.rst
    &&& s.window == c.send.wnd
    &&& s.src_addr == c.local_addr
    &&& s.dst_addr == c.remote_addr
    &&& s.src_port == c.local_port
    &&& s.dst_port == c.remote_port
    &&& s.payload@ == c.unacked@.subrange(off, off + emit_len(c, seq, limit))
}

/// `c2` is `c` after framing a segment at `seq` sent at `now`: the flags are
/// cleared, `nxt` moves, the send time is recorded, and nothing else changes.
pub open spec fn sent_from(c: Connection, c2: Connection, seq: u32, limit: usize, now: u64) -> bool {
    &&& c2.send == (SendSequenceSpace { nxt: nxt_after_send(c, seq, emit_len(c, seq, limit)), ..c.send })
    &&& !c2.syn_pending
    &&& !c2.fin_pending
    &&& c2.timers.send_times@ == times_after_send(c.timers.send_times@, seq, now)
    &&& c2.timers.srtt == c.timers.srtt
    &&& c2.state == c.state
    &&& c2.recv == c.recv
    &&& c2.unacked@ == c.unacked@
    &&& c2.incoming@ == c.incoming@
    &&& c2.closed == c.closed
    &&& c2.closed_at == c.closed_at
    &&& c2.local_addr == c.local_addr
    &&& c2.remote_addr == c.remote_addr
    &&& c2.local_port == c.local_port
    &&& c2.remote_port == c.remote_port
}

/// No sequence number has two entries.
pub open spec fn unique_keys(t: Seq<(u32, u64)>) -> bool {
    forall|i: int, j: int| 0 <= i < j < t.len() ==> t[i].0 != t[j].0
}

/// Recording a send keeps the keys unique.
proof fn lemma_send_keeps_unique(t: Seq<(u32, u64)>, seq: u32, now: u64)
    requires
        unique_keys(t),
    ensures
        unique_keys(times_after_send(t, seq, now)),
{
    let t1 = times_after_send(t, seq, now);
    if !(exists|i: int| 0 <= i < t.len() && t[i].0 == seq) {
        assert forall|i: int, j: int| 0 <= i < j < t1.len() implies t1[i].0 != t1[j].0 by {
            if j == t.len() {
                assert(t[i].0 != seq);
            }
        }
    }
}

/// Every entry left after an ACK's pruning was there before.
proof fn lemma_ack_keeps_entries(t: Seq<(u32, u64)>, una: u32, ackn: u32)
    ensures
        forall|k: int| 0 <= k < times_after_ack(t, una, ackn).len() ==> exists|i: int|
            0 <= i < t.len() && t[i] == #[trigger] times_after_ack(t, una, ackn)[k],
    decreases t.len(),
{
    if t.len() > 0 {
        let p = t.drop_last();
        lemma_ack_keeps_entries(p, una, ackn);
        let rest = times_after_ack(p, una, ackn);
        assert forall|k: int| 0 <= k < times_after_ack(t, una, ackn).len() implies exists|i: int|
            0 <= i < t.len() && t[i] == #[trigger] times_after_ack(t, una, ackn)[k] by {
            if k < rest.len() {
                let i = choose|i: int| 0 <= i < p.len() && p[i] == #[trigger] rest[k];
                assert(t[i] == p[i]);
            } else {
                assert(t[t.len() - 1] == times_after_ack(t, una, ackn)[k]);
            }
        }
    }
}

/// Pruning keeps the keys unique.
proof fn lemma_ack_keeps_unique(t: Seq<(u32, u64)>, una: u32, ackn: u32)
    requires
        unique_keys(t),
    ensures
        unique_keys(times_after_ack(t, una, ackn)),
    decreases t.len(),
{
    if t.len() > 0 {
        let p = t.drop_last();
        assert(unique_keys(p)) by {
            assert forall|i: int, j: int| 0 <= i < j < p.len() implies p[i].0 != p[j].0 by {
                assert(p[i] == t[i] && p[j] == t[j]);
            }
        }
        lemma_ack_keeps_unique(p, una, ackn);
        lemma_ack_keeps_entries(p, una, ackn);
        let rest = times_after_ack(p, una, ackn);
        if !seq_between(una, t.last().0, ackn) {
            let t1 = times_after_ack(t, una, ackn);
            assert forall|i: int, j: int| 0 <= i < j < t1.len() implies t1[i].0 != t1[j].0 by {
                if j == rest.len() {
                    let m = choose|m: int| 0 <= m < p.len() && p[m] == #[trigger] rest[i];
                    assert(t[m] == p[m]);
                    assert(t1[i] == rest[i]);
                    assert(t1[j] == t[t.len() - 1]);
                } else {
                    assert(t1[i] == rest[i] && t1[j] == rest[j]);
                }
            }
        }
    }
}

impl Connection {
    /// Frames the segment that starts at `seq` with up to `limit` bytes of
    /// queued data, hands it to `out`, and returns how many data bytes it holds.
    fn write(&mut self, out: &mut Vec<Segment>, seq: u32, limit: usize, now: u64) -> (r: usize)
        requires
            old(self).unacked@.len() <= SENDQUEUE_SIZE,
        ensures
            write_ok(*old(self), seq) ==> final(self).wf(),
            r == emit_len(*old(self), seq, limit),
            final(out)@.len() == old(out)@.len() + 1,
            final(out)@.subrange(0, old(out)@.len() as int) == old(out)@,
            segment_sent(*old(self), seq, limit, final(out)@.last()),
            sent_from(*old(self), *final(self), seq, limit, now),
    {
        let (offset, n) = self.emit_range(seq, limit);
        let payload = self.copy_unacked(offset, n);
        let syn = self.syn_pending;
        let fin = self.fin_pending;
        let mut next_seq = seq.wrapping_add(n as u32);
        if self.syn_pending {
            next_seq = next_seq.wrapping_add(1);
            self.syn_pending = false;
        }
        if self.fin_pending {
            next_seq = next_seq.wrapping_add(1);
            self.fin_pending = false;
        }
        proof {
            lemma_wrapping_add(seq, n as u32);
            if syn {
                lemma_wrapping_add(seq_add(seq, n as int), 1);
                lemma_seq_add_add(seq, n as int, 1);
            }
            if fin {
                let base = if syn { n + 1 } else { n as int };
                lemma_wrapping_add(seq_add(seq, base), 1);
                lemma_seq_add_add(seq, base, 1);
            }
            assert(next_seq == emit_end(*old(self), seq, n as int));
            let m = n + flag_count(*old(self));
            let c0 = *old(self);
            if write_ok(c0, seq) {
                if seq == c0.send.una {
                    lemma_forward_not_before(seq, m);
                } else {
                    lemma_dist_forward(seq, c0.send.una, m);
                }
            }
        }
        if wrapping_lt(self.send.nxt, next_seq) {
            self.send.nxt = next_seq;
        }
        self.record_send_time(seq, now);
        proof {
            if write_ok(*old(self), seq) {
                lemma_send_keeps_unique(old(self).timers.send_times@, seq, now);
            }
        }
        out.push(
            Segment {
                src_addr: self.local_addr,
                dst_addr: self.remote_addr,
                src_port: self.local_port,
                dst_port: self.remote_port,
                seq,
                ack: self.recv.nxt,
                window: self.send.wnd,
                syn,
                ack_flag: true,
                fin,
                rst: false,
                payload,
            },
        );
        n
    }

    /// Where the data of a segment at `seq` begins in `unacked`, and how long it is.
    fn emit_range(&self, seq: u32, limit: usize) -> (r: (usize, usize))
        requires
            self.unacked@.len() <= SENDQUEUE_SIZE,
        ensures
            r.0 == emit_offset(*self, seq),
            r.1 == emit_len(*self, seq, limit),
            r.0 + r.1 <= self.unacked@.len(),
    {
        let len = self.unacked.len();
        let mut limit = limit;
        let dist = seq.wrapping_sub(self.send.una) as usize;
        let mut offset: usize = if dist <= len { dist } else { len };
        if let Some(closed_at) = self.closed_at {
            proof { lemma_wrapping_add(closed_at, 1); }
            if seq == closed_at.wrapping_add(1) {
                offset = 0;
                limit = 0;
            }
        }
        let avail = len - offset;
        let mut n: usize = if limit < avail { limit } else { avail };
        if n > MAX_PAYLOAD {
            n = MAX_PAYLOAD;
        }
        (offset, n)
    }

    /// A copy of `unacked[offset..offset + n]`.
    fn copy_unacked(&self, offset: usize, n: usize) -> (r: Vec<u8>)
        requires
            offset + n <= self.unacked@.len(),
        ensures
            r@ == self.unacked@.subrange(offset as int, offset + n),
    {
        let len = self.unacked.len();
        let mut payload: Vec<u8> = Vec::new();
        let mut j: usize = 0;
        while j < n
            invariant
                len == self.unacked@.len(),
                offset + n <= len,
                j <= n,
                payload@ == self.unacked@.subrange(offset as int, offset + j),
            decreases n - j,
        {
            payload.push(self.unacked[offset + j]);
            j = j + 1;
            assert(payload@ =~= self.unacked@.subrange(offset as int, offset + j));
        }
        payload
    }

    /// Records that the segment starting at `seq` left at `now`.
    fn record_send_time(&mut self, seq: u32, now: u64)
        ensures
            final(self).timers.send_times@ == times_after_send(old(self).timers.send_times@, seq, now),
            final(self).timers.srtt == old(self).timers.srtt,
            final(self).state == old(self).state,
            final(self).send == old(self).send,
            final(self).recv == old(self).recv,
            final(self).unacked@ == old(self).unacked@,
            final(self).incoming@ == old(self).incoming@,
            final(self).closed == old(self).closed,
            final(self).closed_at == old(self).closed_at,
            final(self).syn_pending == old(self).syn_pending,
            final(self).fin_pending == old(self).fin_pending,
            final(self).local_addr == old(self).local_addr,
            final(self).remote_addr == old(self).remote_addr,
            final(self).local_port == old(self).local_port,
            final(self).remote_port == old(self).remote_port,
    {
        let ghost t0 = self.timers.send_times@;
        let mut found = false;
        let mut i: usize = 0;
        while i < self.timers.send_times.len()
            invariant
                self.timers.send_times@.len() == t0.len(),
                i <= t0.len(),
                forall|k: int| 0 <= k < i ==> self.timers.send_times@[k] == (if t0[k].0 == seq { (seq, now) } else { t0[k] }),
                forall|k: int| i <= k < t0.len() ==> self.timers.send_times@[k] == t0[k],
                found == exists|k: int| 0 <= k < i && t0[k].0 == seq,
                self.state == old(self).state,
                self.send == old(self).send,
                self.recv == old(self).recv,
                self.unacked@ == old(self).unacked@,
                self.incoming@ == old(self).incoming@,
                self.closed == old(self).closed,
                self.closed_at == old(self).closed_at,
                self.syn_pending == old(self).syn_pending,
                self.fin_pending == old(self).fin_pending,
                self.local_addr == old(self).local_addr,
                self.remote_addr == old(self).remote_addr,
                self.local_port == old(self).local_port,
                self.remote_port == old(self).remote_port,
                self.timers.srtt == old(self).timers.srtt,
            decreases t0.len() - i,
        {
            let e = self.timers.send_times[i];
            proof {
                assert(e == t0[i as int]);
            }
            if e.0 == seq {
                self.timers.send_times.set(i, (seq, now));
                found = true;
            }
            i = i + 1;
        }
        if !found {
            self.timers.send_times.push((seq, now));
            assert(self.timers.send_times@ =~= t0.push((seq, now)));
        } else {
            assert(self.timers.send_times@ =~= Seq::new(t0.len(), |k: int| if t0[k].0 == seq { (seq, now) } else { t0[k] }));
        }
    }
}


/// `c` is the connection opened at `now` by the SYN `seg`, and `sent` the
/// SYN|ACK it answers with: `SynRecvd`, ISS 0 with the SYN sent, window
/// 1024, addresses and ports swapped, empty queues.
pub open spec fn accept_post(seg: Segment, c: Connection, sent: Seq<Segment>, now: u64) -> bool {
    &&& c.wf()
    &&& c.state is SynRecvd
    &&& c.send == (SendSequenceSpace { una: 0, nxt: 1, wnd: WINDOW, up: false, wl1: 0, wl2: 0, iss: 0 })
    &&& c.recv == (RecvSequenceSpace { nxt: seq_add(seg.seq, 1), wnd: seg.window, up: false, irs: seg.seq })
    &&& c.local_addr == seg.dst_addr
    &&& c.remote_addr == seg.src_addr
    &&& c.local_port == seg.dst_port
    &&& c.remote_port == seg.src_port
    &&& c.unacked@.len() == 0
    &&& c.incoming@.len() == 0
    &&& !c.closed
    &&& c.closed_at is None
    &&& !c.syn_pending
    &&& !c.fin_pending
    &&& c.timers.srtt == INITIAL_SRTT_MS
    &&& c.timers.send_times@ == seq![(0u32, now)]
    &&& sent.len() == 1
    &&& sent[0].syn && sent[0].ack_flag && !sent[0].fin && !sent[0].rst
    &&& sent[0].seq == 0
    &&& sent[0].ack == seq_add(seg.seq, 1)
    &&& sent[0].payload@.len() == 0
    &&& sent[0].src_addr == seg.dst_addr
    &&& sent[0].dst_addr == seg.src_addr
    &&& sent[0].src_port == seg.dst_port
    &&& sent[0].dst_port == seg.src_port
    &&& sent[0].window == WINDOW
}

impl Connection {
    /// Opens a connection for a segment that reached a listening port: on a
    /// SYN, answers SYN|ACK and returns the new connection in `SynRecvd`;
    /// otherwise returns `None` and sends nothing.
    pub fn accept(out: &mut Vec<Segment>, seg: &Segment, now: u64) -> (r: Option<Connection>)
        ensures
            !seg.syn ==> r is None && final(out)@ == old(out)@,
            seg.syn ==> r is Some,
            r matches Some(c) ==> {
                &&& final(out)@.len() == old(out)@.len() + 1
                &&& final(out)@.subrange(0, old(out)@.len() as int) == old(out)@
                &&& accept_post(*seg, c, final_added(old(out)@, final(out)@), now)
            },
    {
        if !seg.syn {
            return None;
        }
        let iss: u32 = 0;
        proof {
            lemma_wrapping_add(seg.seq, 1);
        }
        let mut c = Connection {
            state: State::SynRecvd,
            send: SendSequenceSpace { una: iss, nxt: iss, wnd: WINDOW, up: false, wl1: 0, wl2: 0, iss },
            recv: RecvSequenceSpace {
                nxt: seg.seq.wrapping_add(1),
                wnd: seg.window,
                up: false,
                irs: seg.seq,
            },
            local_addr: seg.dst_addr,
            remote_addr: seg.src_addr,
            local_port: seg.dst_port,
            remote_port: seg.src_port,
            syn_pending: true,
            fin_pending: false,
            timers: Timers { send_times: Vec::new(), srtt: INITIAL_SRTT_MS },
            incoming: VecDeque::new(),
            unacked: VecDeque::new(),
            closed: false,
            closed_at: None,
        };
        let nxt = c.send.nxt;
        c.write(out, nxt, 0, now);
        assert(c.timers.send_times@ =~= seq![(0u32, now)]);
        assert(final_added(old(out)@, out@) =~= seq![out@.last()]);
        Some(c)
    }

    /// Sends a single RST with zero sequence and acknowledgment numbers.
    pub fn send_rst(&self, out: &mut Vec<Segment>)
        ensures
            final(out)@.len() == old(out)@.len() + 1,
            final(out)@.subrange(0, old(out)@.len() as int) == old(out)@,
            final(out)@.last().rst,
            final(out)@.last().seq == 0,
            final(out)@.last().ack == 0,
            final(out)@.last().payload@.len() == 0,
            final(out)@.last().src_port == self.local_port,
            final(out)@.last().dst_port == self.remote_port,
    {
        out.push(
            Segment {
                src_addr: self.local_addr,
                dst_addr: self.remote_addr,
                src_port: self.local_port,
                dst_port: self.remote_port,
                seq: 0,
                ack: 0,
                window: self.send.wnd,
                syn: false,
                ack_flag: true,
                fin: false,
                rst: true,
                payload: Vec::new(),
            },
        );
    }
}


/// The entry whose sequence number comes first, in sequence order, among
/// those not before `una` (the first such entry on a tie), if any.
pub open spec fn first_pending(t: Seq<(u32, u64)>, una: u32) -> Option<(u32, u64)>
    decreases t.len(),
{
    if t.len() == 0 {
        None
    } else {
        let rest = first_pending(t.drop_last(), una);
        let e = t.last();
        let better = match rest {
            Some(b) => seq_lt(e.0, b.0),
            None => true,
        };
        if !seq_lt(e.0, una) && better {
            Some(e)
        } else {
            rest
        }
    }
}

/// Milliseconds since the oldest segment still waiting for an ACK was sent.
pub open spec fn waited_for(c: Connection, now: u64) -> Option<int> {
    match first_pending(c.timers.send_times@, c.send.una) {
        Some(e) => Some(if now >= e.1 { now - e.1 } else { 0 }),
        None => None,
    }
}

/// The retransmission timer has fired: more than a second, and more than
/// one and a half smoothed round trips, since the oldest unacknowledged send.
pub open spec fn retransmit_due(c: Connection, now: u64) -> bool {
    match waited_for(c, now) {
        Some(w) => w > 1000 && 2 * w > 3 * c.timers.srtt,
        None => false,
    }
}

/// What `out` gained past `before`.
pub open spec fn final_added(before: Seq<Segment>, after: Seq<Segment>) -> Seq<Segment> {
    after.subrange(before.len() as int, after.len() as int)
}

/// `c` once the FIN has been given its place `at` and waits to be framed.
pub open spec fn with_fin(c: Connection, at: u32) -> Connection {
    Connection { fin_pending: true, closed_at: Some(at), ..c }
}

/// Sequence numbers sent and not yet acknowledged (the FIN counted).
pub open spec fn nunacked(c: Connection) -> int {
    let end = match c.closed_at {
        Some(a) => a,
        None => c.send.nxt,
    };
    seq_dist(end, c.send.una)
}

/// Queued bytes not yet sent.
pub open spec fn nunsent(c: Connection) -> int {
    if nunacked(c) <= c.unacked@.len() {
        c.unacked@.len() - nunacked(c)
    } else {
        0
    }
}

/// What one tick does to `c`, giving `c2` and sending `sent`: nothing in
/// FIN-WAIT-2 and TIME-WAIT; a retransmission from `una` when the timer has
/// fired; otherwise what the window allows of the unsent data from `nxt`,
/// or nothing when there is nothing left to send. The FIN is framed once
/// the application has closed and the segment leaves room in the window.
pub open spec fn tick_post(c: Connection, c2: Connection, sent: Seq<Segment>, now: u64) -> bool {
    let len = c.unacked@.len() as int;
    let wnd = c.send.wnd as int;
    if c.state is FinWait2 || c.state is TimeWait {
        c2 == c && sent.len() == 0
    } else if retransmit_due(c, now) {
        let resend = if len < wnd { len } else { wnd };
        let fin_now = resend < wnd && c.closed;
        let c1 = if fin_now { with_fin(c, seq_add(c.send.una, len)) } else { c };
        &&& sent.len() == 1
        &&& segment_sent(c1, c.send.una, resend as usize, sent[0])
        &&& sent_from(c1, c2, c.send.una, resend as usize, now)
    } else if (nunsent(c) == 0 && c.closed_at is Some) || nunacked(c) >= wnd {
        c2 == c && sent.len() == 0
    } else {
        let allowed = wnd - nunacked(c);
        let send = if nunsent(c) < allowed { nunsent(c) } else { allowed };
        let fin_now = send < allowed && c.closed && c.closed_at is None;
        let c1 = if fin_now { with_fin(c, seq_add(c.send.una, len)) } else { c };
        &&& sent.len() == 1
        &&& segment_sent(c1, c.send.nxt, send as usize, sent[0])
        &&& sent_from(c1, c2, c.send.nxt, send as usize, now)
    }
}

impl Connection {
    /// The time of `first_pending` over `send_times`.
    fn oldest_pending_send(&self) -> (r: Option<u64>)
        ensures
            r == (match first_pending(self.timers.send_times@, self.send.una) {
                Some(e) => Some(e.1),
                None => None::<u64>,
            }),
    {
        let una = self.send.una;
        let mut best: Option<(u32, u64)> = None;
        let mut i: usize = 0;
        while i < self.timers.send_times.len()
            invariant
                i <= self.timers.send_times@.len(),
                una == self.send.una,
                best == first_pending(self.timers.send_times@.subrange(0, i as int), una),
            decreases self.timers.send_times@.len() - i,
        {
            let e = self.timers.send_times[i];
            proof {
                let t = self.timers.send_times@;
                assert(t.subrange(0, i + 1).drop_last() =~= t.subrange(0, i as int));
                assert(t.subrange(0, i + 1).last() == e);
            }
            if !wrapping_lt(e.0, una) {
                match best {
                    None => {
                        best = Some(e);
                    },
                    Some(b) => {
                        if wrapping_lt(e.0, b.0) {
                            best = Some(e);
                        }
                    },
                }
            }
            i = i + 1;
        }
        assert(self.timers.send_times@.subrange(0, i as int) =~= self.timers.send_times@);
        match best {
            Some(b) => Some(b.1),
            None => None,
        }
    }

    /// Timer work, run whenever the ingress loop's poll times out: retransmits
    /// from `una` when the timer has fired, else sends what the window allows
    /// of the unsent data, framing the FIN once the application has closed.
    #[verifier::rlimit(60)]
    pub fn on_tick(&mut self, out: &mut Vec<Segment>, now: u64)
        requires
            old(self).wf(),
        ensures
            final(self).wf(),
            final(out)@.len() >= old(out)@.len(),
            final(out)@.subrange(0, old(out)@.len() as int) == old(out)@,
            tick_post(*old(self), *final(self), final_added(old(out)@, final(out)@), now),
    {
        if let State::FinWait2 | State::TimeWait = self.state {
            return;
        }
        let end = match self.closed_at {
            Some(a) => a,
            None => self.send.nxt,
        };
        let nunacked_data: u32 = end.wrapping_sub(self.send.una);
        let len = self.unacked.len();
        let nunsent_data: usize = if (nunacked_data as usize) <= len {
            len - nunacked_data as usize
        } else {
            0
        };
        let should_retransmit = match self.oldest_pending_send() {
            Some(sent) => {
                let waited: u64 = if now >= sent { now - sent } else { 0 };
                waited > 1000 && 2 * (waited as u128) > 3 * (self.timers.srtt as u128)
            },
            None => false,
        };
        let wnd = self.send.wnd as usize;
        if should_retransmit {
            let resend: usize = if len < wnd { len } else { wnd };
            if resend < wnd && self.closed {
                self.fin_pending = true;
                proof { lemma_wrapping_add(self.send.una, len as u32); }
                self.closed_at = Some(self.send.una.wrapping_add(len as u32));
            }
            let una = self.send.una;
            self.write(out, una, resend, now);
            assert(final_added(old(out)@, out@) =~= seq![out@.last()]);
        } else {
            if nunsent_data == 0 && self.closed_at.is_some() {
                return;
            }
            if nunacked_data as usize >= wnd {
                return;
            }
            let allowed: usize = wnd - nunacked_data as usize;
            let send: usize = if nunsent_data < allowed { nunsent_data } else { allowed };
            if send < allowed && self.closed && self.closed_at.is_none() {
                self.fin_pending = true;
                proof { lemma_wrapping_add(self.send.una, len as u32); }
                self.closed_at = Some(self.send.una.wrapping_add(len as u32));
            }
            let nxt = self.send.nxt;
            self.write(out, nxt, send, now);
            assert(final_added(old(out)@, out@) =~= seq![out@.last()]);
        }
    }
}


/// Sequence numbers a segment occupies: its data, plus one each for SYN and FIN.
pub open spec fn seg_len(seg: Segment) -> int {
    seg.payload@.len() + (if seg.fin { 1int } else { 0 }) + (if seg.syn { 1int } else { 0 })
}

/// The acceptability test of RFC 793 3.3 for a segment at `seq` occupying
/// `slen` sequence numbers, against the window `(nxt - 1, nxt + wnd)`.
pub open spec fn acceptable(nxt: u32, wnd: u16, seq: u32, slen: int) -> bool {
    let lo = seq_add(nxt, 0xFFFF_FFFF);
    let wend = seq_add(nxt, wnd as int);
    if slen == 0 {
        if wnd == 0 {
            seq == nxt
        } else {
            seq_between(lo, seq, wend)
        }
    } else {
        wnd != 0 && (seq_between(lo, seq, wend) || seq_between(lo, seq_add(seq, slen - 1), wend))
    }
}

/// Whether a segment at `seq` occupying `slen` sequence numbers lies in the
/// receive window.
pub fn segment_acceptable(nxt: u32, wnd: u16, seq: u32, slen: u32) -> (r: bool)
    ensures
        r == acceptable(nxt, wnd, seq, slen as int),
{
    proof {
        lemma_wrapping_sub_one(nxt);
        lemma_wrapping_add(nxt, wnd as u32);
    }
    let lo = nxt.wrapping_sub(1);
    let wend = nxt.wrapping_add(wnd as u32);
    if slen == 0 {
        if wnd == 0 {
            seq == nxt
        } else {
            is_between_wrapped(lo, seq, wend)
        }
    } else {
        proof {
            lemma_wrapping_add(seq, (slen - 1) as u32);
        }
        wnd != 0 && (is_between_wrapped(lo, seq, wend) || is_between_wrapped(
            lo,
            seq.wrapping_add(slen - 1),
            wend,
        ))
    }
}

/// The state after the handshake step of an ACK.
pub open spec fn state_on_ack(c: Connection, ackn: u32) -> State {
    if c.state is SynRecvd && seq_between(
        seq_add(c.send.una, 0xFFFF_FFFF),
        ackn,
        seq_add(c.send.nxt, 1),
    ) {
        State::Estab
    } else {
        c.state
    }
}

/// States in which acknowledgments and data are taken.
pub open spec fn takes_data(s: State) -> bool {
    s is Estab || s is FinWait1 || s is FinWait2
}

/// The ACK moves `una` forward.
pub open spec fn ack_advances(c: Connection, ackn: u32) -> bool {
    takes_data(state_on_ack(c, ackn)) && seq_between(c.send.una, ackn, seq_add(c.send.nxt, 1))
}

/// `una` after an ACK.
pub open spec fn una_after_ack(c: Connection, ackn: u32) -> u32 {
    if ack_advances(c, ackn) {
        ackn
    } else {
        c.send.una
    }
}

/// How many queued bytes an ACK releases; the SYN takes the first number.
pub open spec fn acked_bytes(c: Connection, ackn: u32) -> int {
    if ack_advances(c, ackn) {
        let start = if c.send.una == c.send.iss {
            seq_add(c.send.una, 1)
        } else {
            c.send.una
        };
        let d = seq_dist(ackn, start);
        if d < c.unacked@.len() {
            d
        } else {
            c.unacked@.len() as int
        }
    } else {
        0
    }
}

/// The state after an ACK: the handshake step, then FIN-WAIT-1 to
/// FIN-WAIT-2 once the FIN is acknowledged.
pub open spec fn state_after_ack(c: Connection, ackn: u32) -> State {
    let s = state_on_ack(c, ackn);
    if s is FinWait1 && c.closed_at is Some && una_after_ack(c, ackn) == seq_add(
        c.closed_at->0,
        1,
    ) {
        State::FinWait2
    } else {
        s
    }
}

/// `send_times` once the entries strictly between `una` and `ackn` are removed.
pub open spec fn times_after_ack(t: Seq<(u32, u64)>, una: u32, ackn: u32) -> Seq<(u32, u64)>
    decreases t.len(),
{
    if t.len() == 0 {
        t
    } else {
        let rest = times_after_ack(t.drop_last(), una, ackn);
        if seq_between(una, t.last().0, ackn) {
            rest
        } else {
            rest.push(t.last())
        }
    }
}

/// Milliseconds from `sent` to `now`, zero if the clock stood still.
pub open spec fn elapsed(sent: u64, now: u64) -> u64 {
    if now >= sent {
        (now - sent) as u64
    } else {
        0
    }
}

/// `srtt` after one estimator step for each removed entry, in storage order.
pub open spec fn srtt_after_ack(t: Seq<(u32, u64)>, una: u32, ackn: u32, srtt: u64, now: u64) -> u64
    decreases t.len(),
{
    if t.len() == 0 {
        srtt
    } else {
        let s = srtt_after_ack(t.drop_last(), una, ackn, srtt, now);
        if seq_between(una, t.last().0, ackn) {
            srtt_step(s, elapsed(t.last().1, now)) as u64
        } else {
            s
        }
    }
}

/// One estimator step.
pub fn srtt_update(srtt: u64, elapsed: u64) -> (r: u64)
    ensures
        r == srtt_step(srtt, elapsed),
{
    let v: u128 = (4 * (srtt as u128) + elapsed as u128) / 5;
    assert(v <= u64::MAX) by (nonlinear_arith)
        requires v == (4 * (srtt as u128) + elapsed as u128) / 5, srtt <= u64::MAX, elapsed <= u64::MAX;
    v as u64
}

impl Connection {
    /// Removes acknowledged entries from `send_times`, folding each one's
    /// round trip into `srtt`.
    fn prune_send_times(&mut self, ackn: u32, now: u64)
        ensures
            final(self).timers.send_times@ == times_after_ack(old(self).timers.send_times@, old(self).send.una, ackn),
            final(self).timers.srtt == srtt_after_ack(old(self).timers.send_times@, old(self).send.una, ackn, old(self).timers.srtt, now),
            final(self).state == old(self).state,
            final(self).send == old(self).send,
            final(self).recv == old(self).recv,
            final(self).unacked@ == old(self).unacked@,
            final(self).incoming@ == old(self).incoming@,
            final(self).closed == old(self).closed,
            final(self).closed_at == old(self).closed_at,
            final(self).syn_pending == old(self).syn_pending,
            final(self).fin_pending == old(self).fin_pending,
            final(self).local_addr == old(self).local_addr,
            final(self).remote_addr == old(self).remote_addr,
            final(self).local_port == old(self).local_port,
            final(self).remote_port == old(self).remote_port,
    {
        let una = self.send.una;
        let t = &self.timers.send_times;
        let mut kept: Vec<(u32, u64)> = Vec::new();
        let mut srtt = self.timers.srtt;
        let mut i: usize = 0;
        while i < t.len()
            invariant
                i <= t@.len(),
                kept@ == times_after_ack(t@.subrange(0, i as int), una, ackn),
                srtt == srtt_after_ack(t@.subrange(0, i as int), una, ackn, self.timers.srtt, now),
            decreases t@.len() - i,
        {
            let e = t[i];
            proof {
                assert(t@.subrange(0, i + 1).drop_last() =~= t@.subrange(0, i as int));
                assert(t@.subrange(0, i + 1).last() == e);
            }
            if is_between_wrapped(una, e.0, ackn) {
                let el: u64 = if now >= e.1 { now - e.1 } else { 0 };
                srtt = srtt_update(srtt, el);
            } else {
                kept.push(e);
            }
            i = i + 1;
        }
        proof {
            assert(t@.subrange(0, i as int) =~= t@);
        }
        self.timers.send_times = kept;
        self.timers.srtt = srtt;
    }

    /// The acknowledgment part of segment processing.
    fn handle_ack(&mut self, ackn: u32, now: u64)
        requires
            old(self).wf(),
        ensures
            final(self).wf(),
            final(self).state == state_after_ack(*old(self), ackn),
            final(self).send == (SendSequenceSpace { una: una_after_ack(*old(self), ackn), ..old(self).send }),
            final(self).send.iss == old(self).send.iss,
            final(self).send.wnd == old(self).send.wnd,
            final(self).unacked@ == old(self).unacked@.subrange(
                acked_bytes(*old(self), ackn),
                old(self).unacked@.len() as int,
            ),
            ack_advances(*old(self), ackn) && old(self).unacked@.len() > 0 ==> {
                &&& final(self).timers.send_times@ == times_after_ack(old(self).timers.send_times@, old(self).send.una, ackn)
                &&& final(self).timers.srtt == srtt_after_ack(old(self).timers.send_times@, old(self).send.una, ackn, old(self).timers.srtt, now)
            },
            !(ack_advances(*old(self), ackn) && old(self).unacked@.len() > 0) ==> final(self).timers == old(self).timers,
            final(self).recv == old(self).recv,
            final(self).incoming@ == old(self).incoming@,
            final(self).closed == old(self).closed,
            final(self).closed_at == old(self).closed_at,
            final(self).syn_pending == old(self).syn_pending,
            final(self).fin_pending == old(self).fin_pending,
            final(self).local_addr == old(self).local_addr,
            final(self).remote_addr == old(self).remote_addr,
            final(self).local_port == old(self).local_port,
            final(self).remote_port == old(self).remote_port,
    {
        let ghost c = *old(self);
        proof {
            lemma_wrapping_sub_one(self.send.una);
            lemma_wrapping_add(self.send.nxt, 1);
            lemma_wrapping_add(self.send.una, 1);
        }
        if let State::SynRecvd = self.state {
            if is_between_wrapped(
                self.send.una.wrapping_sub(1),
                ackn,
                self.send.nxt.wrapping_add(1),
            ) {
                self.state = State::Estab;
            }
        }
        if let State::Estab | State::FinWait1 | State::FinWait2 = self.state {
            if is_between_wrapped(self.send.una, ackn, self.send.nxt.wrapping_add(1)) {
                if self.unacked.len() > 0 {
                    let start = if self.send.una == self.send.iss {
                        self.send.una.wrapping_add(1)
                    } else {
                        self.send.una
                    };
                    let d = ackn.wrapping_sub(start) as usize;
                    let len = self.unacked.len();
                    let n: usize = if d < len { d } else { len };
                    let mut k: usize = 0;
                    while k < n
                        invariant
                            k <= n,
                            n <= len,
                            len == c.unacked@.len(),
                            self.unacked@ == c.unacked@.subrange(k as int, len as int),
                            self.state == state_on_ack(c, ackn),
                            self.send == c.send,
                            self.recv == c.recv,
                            self.timers == c.timers,
                            self.incoming@ == c.incoming@,
                            self.closed == c.closed,
                            self.closed_at == c.closed_at,
                            self.syn_pending == c.syn_pending,
                            self.fin_pending == c.fin_pending,
                            self.local_addr == c.local_addr,
                            self.remote_addr == c.remote_addr,
                            self.local_port == c.local_port,
                            self.remote_port == c.remote_port,
                        decreases n - k,
                    {
                        self.unacked.pop_front();
                        k = k + 1;
                        assert(self.unacked@ =~= c.unacked@.subrange(k as int, len as int));
                    }
                    self.prune_send_times(ackn, now);
                }
                self.send.una = ackn;
            }
        }
        if let State::FinWait1 = self.state {
            if let Some(closed_at) = self.closed_at {
                proof {
                    lemma_wrapping_add(closed_at, 1);
                }
                if self.send.una == closed_at.wrapping_add(1) {
                    self.state = State::FinWait2;
                }
            }
        }
        proof {
            lemma_ack_keeps_unique(c.timers.send_times@, c.send.una, ackn);
            if !ack_advances(c, ackn) || c.unacked@.len() == 0 {
                assert(self.unacked@ =~= c.unacked@.subrange(acked_bytes(c, ackn), c.unacked@.len() as int));
            }
        }
    }
}


/// Data of a segment is delivered: it has some, the connection takes data
/// after the ACK step, and it does not start beyond `recv.nxt` (no holes).
pub open spec fn delivers(c: Connection, seg: Segment) -> bool {
    &&& seg.payload@.len() > 0
    &&& takes_data(state_after_ack(c, seg.ack))
    &&& !seq_lt(c.recv.nxt, seg.seq)
}

/// Where new data starts in a payload at `seq` when `nxt` is expected; an
/// offset past the payload's end is taken as zero.
pub open spec fn unread_offset(nxt: u32, seg: Segment) -> int {
    let off = seq_dist(nxt, seg.seq);
    if off > seg.payload@.len() {
        0
    } else {
        off
    }
}

/// The bytes a segment appends to `incoming`.
pub open spec fn delivered(c: Connection, seg: Segment) -> Seq<u8> {
    if delivers(c, seg) {
        seg.payload@.subrange(unread_offset(c.recv.nxt, seg), seg.payload@.len() as int)
    } else {
        Seq::empty()
    }
}

/// `recv.nxt` after data delivery.
pub open spec fn nxt_after_data(c: Connection, seg: Segment) -> u32 {
    if delivers(c, seg) {
        seq_add(seg.seq, seg.payload@.len() as int)
    } else {
        c.recv.nxt
    }
}

/// A FIN that closes the receive side: it arrives in FIN-WAIT-2.
pub open spec fn fin_closes(c: Connection, seg: Segment) -> bool {
    seg.fin && state_after_ack(c, seg.ack) is FinWait2
}

/// ACKs that a segment taken past the acceptability test and carrying ACK
/// draws: one for delivered-or-duplicate data, one for a closing FIN.
pub open spec fn acks_sent(c: Connection, seg: Segment) -> int {
    (if seg.payload@.len() > 0 && takes_data(state_after_ack(c, seg.ack)) { 1int } else { 0 })
        + (if fin_closes(c, seg) { 1int } else { 0 })
}

/// `send_times` after an ACK's pruning.
pub open spec fn times_on_ack(c: Connection, ackn: u32) -> Seq<(u32, u64)> {
    if ack_advances(c, ackn) && c.unacked@.len() > 0 {
        times_after_ack(c.timers.send_times@, c.send.una, ackn)
    } else {
        c.timers.send_times@
    }
}

/// `srtt` after an ACK's pruning.
pub open spec fn srtt_on_ack(c: Connection, ackn: u32, now: u64) -> u64 {
    if ack_advances(c, ackn) && c.unacked@.len() > 0 {
        srtt_after_ack(c.timers.send_times@, c.send.una, ackn, c.timers.srtt, now)
    } else {
        c.timers.srtt
    }
}

/// What READ and WRITE report for `c`.
pub open spec fn avail_of(c: Connection, write: bool) -> Available {
    Available { read: c.state is TimeWait || c.incoming@.len() > 0, write }
}

/// What processing `seg` at `now` does to `c`, giving `c2`, sending `sent`
/// and returning `r`: an unacceptable segment draws a bare ACK; one without
/// ACK only takes a SYN; otherwise the ACK, in-order data and a FIN in
/// FIN-WAIT-2 are taken and acknowledged, and WRITE reports an ACK that
/// moved `una`.
pub open spec fn packet_post(
    c: Connection,
    c2: Connection,
    seg: Segment,
    sent: Seq<Segment>,
    r: Result<Available, TcpError>,
    now: u64,
) -> bool {
    if !acceptable(c.recv.nxt, c.recv.wnd, seg.seq, seg_len(seg)) {
        &&& r == Ok::<Available, TcpError>(avail_of(c, false))
        &&& sent.len() == 1
        &&& segment_sent(c, c.send.nxt, 0, sent[0])
        &&& sent_from(c, c2, c.send.nxt, 0, now)
    } else if !seg.ack_flag {
        let nxt = if seg.syn && seg.payload@.len() == 0 {
            seq_add(seg.seq, 1)
        } else {
            c.recv.nxt
        };
        &&& r == Ok::<Available, TcpError>(avail_of(c, false))
        &&& sent.len() == 0
        &&& c2 == (Connection { recv: RecvSequenceSpace { nxt, ..c.recv }, ..c })
    } else {
        let s = state_after_ack(c, seg.ack);
        let n1 = nxt_after_data(c, seg);
        let t1 = times_on_ack(c, seg.ack);
        &&& c2.send == (SendSequenceSpace { una: una_after_ack(c, seg.ack), ..c.send })
        &&& c2.unacked@ == c.unacked@.subrange(acked_bytes(c, seg.ack), c.unacked@.len() as int)
        &&& c2.incoming@ == c.incoming@ + delivered(c, seg)
        &&& c2.recv == (RecvSequenceSpace {
            nxt: if fin_closes(c, seg) { seq_add(n1, 1) } else { n1 },
            ..c.recv
        })
        &&& c2.state == (if fin_closes(c, seg) { State::TimeWait } else { s })
        &&& c2.timers.srtt == srtt_on_ack(c, seg.ack, now)
        &&& c2.timers.send_times@ == (if acks_sent(c, seg) > 0 {
            times_after_send(t1, c.send.nxt, now)
        } else {
            t1
        })
        &&& c2.closed == c.closed
        &&& c2.closed_at == c.closed_at
        &&& c2.syn_pending == c.syn_pending
        &&& c2.fin_pending == c.fin_pending
        &&& c2.local_addr == c.local_addr
        &&& c2.remote_addr == c.remote_addr
        &&& c2.local_port == c.local_port
        &&& c2.remote_port == c.remote_port
        &&& (r is Err <==> seg.fin && !(s is FinWait2))
        &&& r is Err ==> r == Err::<Available, TcpError>(TcpError::UnexpectedFin)
        &&& r is Ok ==> r == Ok::<Available, TcpError>(avail_of(c2, ack_advances(c, seg.ack)))
        &&& sent.len() == acks_sent(c, seg)
        &&& forall|k: int| 0 <= k < sent.len() ==> (#[trigger] sent[k]).seq == c.send.nxt
            && sent[k].ack_flag && sent[k].payload@.len() == 0
        &&& sent.len() > 0 ==> sent.last().ack == c2.recv.nxt
    }
}

/// Recording the same send twice is recording it once.
proof fn lemma_times_after_send_twice(t: Seq<(u32, u64)>, seq: u32, now: u64)
    ensures
        times_after_send(times_after_send(t, seq, now), seq, now) == times_after_send(t, seq, now),
{
    let t1 = times_after_send(t, seq, now);
    if exists|i: int| 0 <= i < t.len() && t[i].0 == seq {
        let i = choose|i: int| 0 <= i < t.len() && t[i].0 == seq;
        assert(t1[i].0 == seq);
    } else {
        assert(t1[t.len() as int].0 == seq);
    }
    assert(times_after_send(t1, seq, now) =~= t1);
}

impl Connection {
    /// Processes one incoming segment of this connection: the acceptability
    /// test, the ACK, in-order data and a FIN in FIN-WAIT-2; answers with
    /// ACKs into `out` and reports what the application may now do.
    #[verifier::rlimit(100)]
    #[verifier::spinoff_prover]
    pub fn on_packet(&mut self, out: &mut Vec<Segment>, seg: &Segment, now: u64) -> (r: Result<Available, TcpError>)
        requires
            old(self).wf(),
            seg.payload@.len() <= 0xFFFF,
        ensures
            final(self).wf(),
            final(out)@.len() >= old(out)@.len(),
            final(out)@.subrange(0, old(out)@.len() as int) == old(out)@,
            packet_post(*old(self), *final(self), *seg, final_added(old(out)@, final(out)@), r, now),
            !(seg.syn && seg.fin && seg.payload@.len() > 0) ==> !seq_lt(final(self).recv.nxt, old(self).recv.nxt),
    {
        let ghost c = *old(self);
        let plen = seg.payload.len();
        let mut slen: u32 = plen as u32;
        if seg.fin {
            slen = slen + 1;
        }
        if seg.syn {
            slen = slen + 1;
        }
        let ok = segment_acceptable(self.recv.nxt, self.recv.wnd, seg.seq, slen);
        proof {
            if ok && !(seg.syn && seg.fin && plen > 0) {
                lemma_packet_nxt_forward(c, *seg);
            }
            lemma_lt_irreflexive(c.recv.nxt);
        }
        if !ok {
            let nxt = self.send.nxt;
            self.write(out, nxt, 0, now);
            assert(final_added(old(out)@, out@) =~= seq![out@.last()]);
            return Ok(self.availability(false));
        }
        if !seg.ack_flag {
            if seg.syn && plen == 0 {
                proof {
                    lemma_wrapping_add(seg.seq, 1);
                }
                self.recv.nxt = seg.seq.wrapping_add(1);
            }
            assert(final_added(old(out)@, out@) =~= Seq::<Segment>::empty());
            return Ok(self.availability(false));
        }
        self.on_acked_segment(out, seg, now)
    }

    /// The part of `on_packet` for an acceptable segment that carries ACK.
    #[verifier::rlimit(100)]
    #[verifier::spinoff_prover]
    fn on_acked_segment(&mut self, out: &mut Vec<Segment>, seg: &Segment, now: u64) -> (r: Result<Available, TcpError>)
        requires
            old(self).wf(),
            seg.payload@.len() <= 0xFFFF,
            acceptable(old(self).recv.nxt, old(self).recv.wnd, seg.seq, seg_len(*seg)),
            seg.ack_flag,
        ensures
            final(self).wf(),
            final(out)@.len() >= old(out)@.len(),
            final(out)@.subrange(0, old(out)@.len() as int) == old(out)@,
            packet_post(*old(self), *final(self), *seg, final_added(old(out)@, final(out)@), r, now),
            !(seg.syn && seg.fin && seg.payload@.len() > 0) ==> !seq_lt(final(self).recv.nxt, old(self).recv.nxt),
    {
        let ghost c = *old(self);
        let plen = seg.payload.len();
        proof {
            if !(seg.syn && seg.fin && plen > 0) {
                lemma_packet_nxt_forward(c, *seg);
            }
        }
        let una0 = self.send.una;
        self.handle_ack(seg.ack, now);
        let advanced = self.send.una != una0;
        proof {
            lemma_lt_irreflexive(una0);
            assert(advanced == ack_advances(c, seg.ack));
            assert(seq_add(c.send.nxt, 0) == c.send.nxt);
        }
        let ghost mid = *self;
        if plen > 0 {
            if let State::Estab | State::FinWait1 | State::FinWait2 = self.state {
                if !wrapping_lt(self.recv.nxt, seg.seq) {
                    let dist = self.recv.nxt.wrapping_sub(seg.seq) as usize;
                    let off: usize = if dist > plen { 0 } else { dist };
                    let mut k: usize = off;
                    while k < plen
                        invariant
                            off <= k <= plen,
                            plen == seg.payload@.len(),
                            self.incoming@ == mid.incoming@ + seg.payload@.subrange(off as int, k as int),
                            self.state == mid.state,
                            self.send == mid.send,
                            self.recv == mid.recv,
                            self.unacked@ == mid.unacked@,
                            self.timers == mid.timers,
                            self.closed == mid.closed,
                            self.closed_at == mid.closed_at,
                            self.syn_pending == mid.syn_pending,
                            self.fin_pending == mid.fin_pending,
                            self.local_addr == mid.local_addr,
                            self.remote_addr == mid.remote_addr,
                            self.local_port == mid.local_port,
                            self.remote_port == mid.remote_port,
                        decreases plen - k,
                    {
                        self.incoming.push_back(seg.payload[k]);
                        k = k + 1;
                        assert(self.incoming@ =~= mid.incoming@ + seg.payload@.subrange(off as int, k as int));
                    }
                    proof {
                        lemma_wrapping_add(seg.seq, plen as u32);
                    }
                    self.recv.nxt = seg.seq.wrapping_add(plen as u32);
                }
                let nxt = self.send.nxt;
                let ghost before = *self;
                proof {
                    lemma_lt_irreflexive(nxt);
                    assert(emit_len(before, nxt, 0) == 0);
                    assert(emit_end(before, nxt, 0) == nxt);
                }
                self.write(out, nxt, 0, now);
                assert(self.send.nxt == nxt);
                assert(final_added(old(out)@, out@) =~= seq![out@.last()]);
            }
        }
        let ghost after_data = out@;
        proof {
            if !delivers(c, *seg) {
                assert(self.incoming@ =~= c.incoming@ + delivered(c, *seg));
            }
        }
        if seg.fin {
            if let State::FinWait2 = self.state {
                proof {
                    lemma_wrapping_add(self.recv.nxt, 1);
                }
                self.recv.nxt = self.recv.nxt.wrapping_add(1);
                let nxt = self.send.nxt;
                let ghost before = *self;
                proof {
                    lemma_lt_irreflexive(nxt);
                    assert(emit_len(before, nxt, 0) == 0);
                    assert(emit_end(before, nxt, 0) == nxt);
                }
                self.write(out, nxt, 0, now);
                assert(self.send.nxt == nxt);
                self.state = State::TimeWait;
                proof {
                    assert(final_added(old(out)@, out@) =~= final_added(old(out)@, after_data).push(out@.last()));
                    if after_data.len() > old(out)@.len() {
                        lemma_times_after_send_twice(times_on_ack(c, seg.ack), c.send.nxt, now);
                    }
                }
            } else {
                return Err(TcpError::UnexpectedFin);
            }
        }
        Ok(self.availability(advanced))
    }
}


impl Connection {
    /// Queues application bytes for sending, as many as the queue's bound
    /// allows; fails with `WouldBlock` when the queue is full.
    pub fn send_data(&mut self, buf: &[u8]) -> (r: Result<usize, TcpError>)
        requires
            old(self).wf(),
        ensures
            final(self).wf(),
            old(self).unacked@.len() >= SENDQUEUE_SIZE ==> r == Err::<usize, TcpError>(TcpError::WouldBlock)
                && final(self).unacked@ == old(self).unacked@,
            old(self).unacked@.len() < SENDQUEUE_SIZE ==> {
                let room = SENDQUEUE_SIZE - old(self).unacked@.len();
                let n = if buf@.len() < room { buf@.len() as int } else { room as int };
                &&& r == Ok::<usize, TcpError>(n as usize)
                &&& final(self).unacked@ == old(self).unacked@ + buf@.subrange(0, n)
            },
            *final(self) == (Connection { unacked: final(self).unacked, ..*old(self) }),
            final(self).state == old(self).state,
            final(self).send == old(self).send,
            final(self).recv == old(self).recv,
            final(self).incoming@ == old(self).incoming@,
            final(self).closed == old(self).closed,
            final(self).closed_at == old(self).closed_at,
    {
        let len = self.unacked.len();
        if len >= SENDQUEUE_SIZE {
            return Err(TcpError::WouldBlock);
        }
        let room = SENDQUEUE_SIZE - len;
        let n: usize = if buf.len() < room { buf.len() } else { room };
        let ghost u0 = self.unacked@;
        let mut k: usize = 0;
        while k < n
            invariant
                k <= n,
                n <= buf@.len(),
                u0.len() + n <= SENDQUEUE_SIZE,
                self.unacked@ == u0 + buf@.subrange(0, k as int),
                *self == (Connection { unacked: self.unacked, ..*old(self) }),
                self.state == old(self).state,
                self.send == old(self).send,
                self.recv == old(self).recv,
                self.incoming@ == old(self).incoming@,
                self.closed == old(self).closed,
                self.closed_at == old(self).closed_at,
                self.syn_pending == old(self).syn_pending,
                self.fin_pending == old(self).fin_pending,
            decreases n - k,
        {
            self.unacked.push_back(buf[k]);
            k = k + 1;
            assert(self.unacked@ =~= u0 + buf@.subrange(0, k as int));
        }
        Ok(n)
    }

    /// Takes up to `max` bytes from the head of the receive queue.
    pub fn read_data(&mut self, max: usize) -> (r: Vec<u8>)
        ensures
            old(self).wf() ==> final(self).wf(),
            ({
                let n = if max < old(self).incoming@.len() { max as int } else { old(self).incoming@.len() as int };
                &&& r@ == old(self).incoming@.subrange(0, n)
                &&& final(self).incoming@ == old(self).incoming@.subrange(n, old(self).incoming@.len() as int)
            }),
            *final(self) == (Connection { incoming: final(self).incoming, ..*old(self) }),
            final(self).state == old(self).state,
            final(self).send == old(self).send,
            final(self).recv == old(self).recv,
            final(self).unacked@ == old(self).unacked@,
            final(self).closed == old(self).closed,
            final(self).closed_at == old(self).closed_at,
    {
        let ghost i0 = self.incoming@;
        let len = self.incoming.len();
        let n: usize = if max < len { max } else { len };
        let mut r: Vec<u8> = Vec::new();
        let mut k: usize = 0;
        while k < n
            invariant
                k <= n,
                n <= i0.len(),
                r@ == i0.subrange(0, k as int),
                self.incoming@ == i0.subrange(k as int, i0.len() as int),
                *self == (Connection { incoming: self.incoming, ..*old(self) }),
                self.state == old(self).state,
                self.send == old(self).send,
                self.recv == old(self).recv,
                self.unacked@ == old(self).unacked@,
                self.closed == old(self).closed,
                self.closed_at == old(self).closed_at,
                self.syn_pending == old(self).syn_pending,
                self.fin_pending == old(self).fin_pending,
            decreases n - k,
        {
            match self.incoming.pop_front() {
                Some(b) => {
                    r.push(b);
                },
                None => {},
            }
            k = k + 1;
            assert(r@ =~= i0.subrange(0, k as int));
            assert(self.incoming@ =~= i0.subrange(k as int, i0.len() as int));
        }
        r
    }
}


/// With a constant round trip `elapsed` below the estimate, each estimator
/// step lowers `srtt` and never below `elapsed`; at `elapsed` it stays.
pub proof fn lemma_srtt_toward_elapsed(srtt: u64, elapsed: u64)
    ensures
        srtt > elapsed ==> elapsed <= srtt_step(srtt, elapsed) < srtt,
        srtt == elapsed ==> srtt_step(srtt, elapsed) == srtt,
{
}

/// With a closed receive window, an empty segment at exactly `recv.nxt`
/// is acceptable.
pub proof fn lemma_zero_window_accepts_nxt(nxt: u32)
    ensures
        acceptable(nxt, 0, nxt, 0),
{
}

/// A segment whose right edge (and, for a segment of at most one sequence
/// number, left edge) is `recv.nxt + recv.wnd` is not acceptable: the
/// window's upper bound is exclusive. (With a closed window the one
/// acceptable place is `recv.nxt` itself, which is also the window's end.)
pub proof fn lemma_window_end_excluded(nxt: u32, wnd: u16, seq: u32, slen: int)
    requires
        wnd > 0,
        0 <= slen <= 1,
        seq == seq_add(nxt, wnd as int),
    ensures
        !acceptable(nxt, wnd, seq, slen),
{
    if slen == 1 {
        assert(seq_add(seq, 0) == seq);
    }
}

/// Once `N` queued bytes (`1 <= N <= 1024`) have all been sent after the
/// handshake, an ACK for all of them empties `unacked` and sets `una` to
/// `iss + 1 + N`.
pub proof fn lemma_ack_drains_queue(c: Connection, n: int)
    requires
        c.wf(),
        takes_data(c.state),
        1 <= n <= SENDQUEUE_SIZE,
        c.unacked@.len() == n,
        c.send.una == seq_add(c.send.iss, 1),
        c.send.nxt == seq_add(c.send.iss, 1 + n),
    ensures
        una_after_ack(c, seq_add(c.send.iss, 1 + n)) == seq_add(c.send.iss, 1 + n),
        acked_bytes(c, seq_add(c.send.iss, 1 + n)) == n,
{
    let ackn = seq_add(c.send.iss, 1 + n);
    lemma_seq_add_add(c.send.iss, 1, n);
    lemma_seq_add_add(c.send.iss, 1 + n, 1);
    assert(seq_dist(ackn, c.send.una) == n);
    assert(seq_dist(seq_add(c.send.nxt, 1), ackn) == 1);
    assert(c.send.una != c.send.iss);
}


/// Data that is delivered moves `recv.nxt` forward by less than `2^16`,
/// unless the segment carries SYN, FIN and data together.
proof fn lemma_delivery_forward(c: Connection, seg: Segment) -> (d: int)
    requires
        seg.payload@.len() <= 0xFFFF,
        acceptable(c.recv.nxt, c.recv.wnd, seg.seq, seg_len(seg)),
        delivers(c, seg),
        !(seg.syn && seg.fin),
    ensures
        0 <= d <= 0xFFFF,
        nxt_after_data(c, seg) == seq_add(c.recv.nxt, d),
{
    let plen = seg.payload@.len() as int;
    let e = seg_len(seg) - 1;
    let d = lemma_edge_forward(c.recv.nxt, seg.seq, c.recv.wnd as int, e, plen);
    assert(unread_offset(c.recv.nxt, seg) == seq_dist(c.recv.nxt, seg.seq));
    d
}


/// `recv.nxt` as `on_packet` leaves it never comes before where it was,
/// unless the segment carries SYN, FIN and data together.
proof fn lemma_packet_nxt_forward(c: Connection, seg: Segment)
    requires
        seg.payload@.len() <= 0xFFFF,
        acceptable(c.recv.nxt, c.recv.wnd, seg.seq, seg_len(seg)),
        !(seg.syn && seg.fin && seg.payload@.len() > 0),
    ensures
        seg.syn && seg.payload@.len() == 0 ==> !seq_lt(seq_add(seg.seq, 1), c.recv.nxt),
        !seq_lt(nxt_after_data(c, seg), c.recv.nxt),
        fin_closes(c, seg) ==> !seq_lt(seq_add(nxt_after_data(c, seg), 1), c.recv.nxt),
{
    let nxt = c.recv.nxt;
    let w = c.recv.wnd as int;
    if seg.syn && seg.payload@.len() == 0 {
        // the SYN, or the FIN after it, lies in the window
        lemma_seq_add_add(seg.seq, 0, 0);
        let x = if seq_between(seq_add(nxt, 0xFFFF_FFFF), seg.seq, seq_add(nxt, w)) {
            seg.seq
        } else {
            seq_add(seg.seq, 1)
        };
        lemma_in_window(nxt, w, x);
        lemma_add_dist(x, nxt);
        let a = seq_dist(x, nxt);
        if x == seg.seq {
            lemma_seq_add_add(nxt, a, 1);
            lemma_forward_not_before(nxt, a + 1);
        } else {
            lemma_forward_not_before(nxt, a);
        }
    }
    let mut d: int = 0;
    if delivers(c, seg) {
        d = lemma_delivery_forward(c, seg);
        lemma_forward_not_before(nxt, d);
    } else {
        lemma_seq_add_add(nxt, 0, 0);
        lemma_forward_not_before(nxt, 0);
    }
    if fin_closes(c, seg) {
        lemma_seq_add_add(nxt, d, 1);
        lemma_forward_not_before(nxt, d + 1);
    }
}



/// Over all the entries one ACK removes, each with the same round trip `r`
/// below the estimate: `srtt` ends between `r` and where it was, strictly
/// lower when at least one entry was removed and the estimate was above `r`.
pub proof fn lemma_srtt_after_ack_toward(t: Seq<(u32, u64)>, una: u32, ackn: u32, srtt: u64, now: u64, r: u64)
    requires
        r <= srtt,
        forall|i: int| 0 <= i < t.len() && seq_between(una, t[i].0, ackn) ==> elapsed(#[trigger] t[i].1, now) == r,
    ensures
        r <= srtt_after_ack(t, una, ackn, srtt, now) <= srtt,
        (exists|i: int| 0 <= i < t.len() && seq_between(una, #[trigger] t[i].0, ackn)) && r < srtt
            ==> srtt_after_ack(t, una, ackn, srtt, now) < srtt,
    decreases t.len(),
{
    if t.len() > 0 {
        let p = t.drop_last();
        assert forall|i: int| 0 <= i < p.len() && seq_between(una, p[i].0, ackn) implies elapsed(#[trigger] p[i].1, now) == r by {
            assert(p[i] == t[i]);
        }
        lemma_srtt_after_ack_toward(p, una, ackn, srtt, now, r);
        let s0 = srtt_after_ack(p, una, ackn, srtt, now);
        if seq_between(una, t.last().0, ackn) {
            assert(elapsed(t[t.len() - 1].1, now) == r);
            lemma_srtt_toward_elapsed(s0, r);
        } else {
            if exists|i: int| 0 <= i < t.len() && seq_between(una, #[trigger] t[i].0, ackn) {
                let i = choose|i: int| 0 <= i < t.len() && seq_between(una, #[trigger] t[i].0, ackn);
                assert(i < p.len());
                assert(p[i] == t[i]);
            }
        }
    }
}

} // verus!
