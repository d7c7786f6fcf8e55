//! The connection table: connections by 4-tuple, and for each listening
//! port the connections accepted but not yet claimed by the application.
use crate::tcp::{accept_post, final_added, packet_post, tick_post, Available, Connection, Segment, TcpError, SENDQUEUE_SIZE};
use std::collections::VecDeque;
use vstd::prelude::*;

verus! {

/// The 4-tuple that names a connection, as the peer sees it.
#[derive(Clone, Copy, Debug, PartialEq, Eq, Hash, Structural)]
pub struct Quad {
    pub src_addr: u32,
    pub src_port: u16,
    pub dst_addr: u32,
    pub dst_port: u16,
}

/// The quad of an incoming segment.
pub open spec fn quad_of(seg: Segment) -> Quad {
    Quad { src_addr: seg.src_addr, src_port: seg.src_port, dst_addr: seg.dst_addr, dst_port: seg.dst_port }
}

/// What a stream read found.
#[derive(Debug)]
pub enum ReadStep {
    /// Bytes taken from the receive queue (none for a zero-length read).
    Data(Vec<u8>),
    /// The peer has closed and everything has been read.
    Eof,
    /// Nothing yet: wait for a READ wake-up and ask again.
    Wait,
}

/// Which waiters a segment should wake.
#[derive(Clone, Copy, Debug, PartialEq, Eq, Structural)]
pub struct Wakeups {
    pub read: bool,
    pub write: bool,
    pub accept: bool,
}

/// The wake-ups for a known connection's answer to a segment.
pub open spec fn wake_of(ra: Result<Available, TcpError>) -> Result<Wakeups, TcpError> {
    match ra {
        Ok(a) => Ok(Wakeups { read: a.read, write: a.write, accept: false }),
        Err(e) => Err(e),
    }
}

/// All connections of one interface.
pub struct ConnectionManager {
    pub terminate: bool,
    /// At most one entry per quad, searched by quad, in order of creation.
    pub connections: Vec<(Quad, Connection)>,
    /// At most one entry per port, in order of binding; each queue in the
    /// order of arrival.
    pub pending: Vec<(u16, VecDeque<Quad>)>,
}

impl ConnectionManager {
    pub open spec fn wf(&self) -> bool {
        &&& forall|i: int, j: int|
            0 <= i < j < self.connections@.len() ==> self.connections@[i].0 != self.connections@[j].0
        &&& forall|i: int|
            0 <= i < self.connections@.len() ==> (#[trigger] self.connections@[i]).1.wf()
        &&& forall|i: int, j: int|
            0 <= i < j < self.pending@.len() ==> self.pending@[i].0 != self.pending@[j].0
        &&& forall|i: int, k: int|
            0 <= i < self.pending@.len() && 0 <= k < self.pending@[i].1@.len() ==> self.has_quad(
                #[trigger] self.pending@[i].1@[k],
            )
    }

    /// A connection for `q` is in the table.
    pub open spec fn has_quad(&self, q: Quad) -> bool {
        exists|i: int| 0 <= i < self.connections@.len() && self.connections@[i].0 == q
    }

    /// A listener holds `port`.
    pub open spec fn listening(&self, port: u16) -> bool {
        exists|i: int| 0 <= i < self.pending@.len() && self.pending@[i].0 == port
    }

    /// An empty table.
    pub fn new() -> (r: ConnectionManager)
        ensures
            r.wf(),
            !r.terminate,
            r.connections@.len() == 0,
            r.pending@.len() == 0,
    {
        ConnectionManager { terminate: false, connections: Vec::new(), pending: Vec::new() }
    }

    /// Where the connection for `q` stands, if it exists.
    pub fn find_connection(&self, q: Quad) -> (r: Option<usize>)
        ensures
            r matches Some(i) ==> i < self.connections@.len() && self.connections@[i as int].0 == q,
            r is None ==> !self.has_quad(q),
    {
        let mut i: usize = 0;
        while i < self.connections.len()
            invariant
                i <= self.connections@.len(),
                forall|k: int| 0 <= k < i ==> self.connections@[k].0 != q,
            decreases self.connections@.len() - i,
        {
            if self.connections[i].0 == q {
                return Some(i);
            }
            i = i + 1;
        }
        None
    }

    /// Where the pending queue of `port` stands, if a listener holds it.
    pub fn find_port(&self, port: u16) -> (r: Option<usize>)
        ensures
            r matches Some(i) ==> i < self.pending@.len() && self.pending@[i as int].0 == port,
            r is None ==> !self.listening(port),
    {
        let mut i: usize = 0;
        while i < self.pending.len()
            invariant
                i <= self.pending@.len(),
                forall|k: int| 0 <= k < i ==> self.pending@[k].0 != port,
            decreases self.pending@.len() - i,
        {
            if self.pending[i].0 == port {
                return Some(i);
            }
            i = i + 1;
        }
        None
    }

    /// Starts listening on `port`; fails with `AddressInUse` if a listener
    /// already holds it.
    pub fn bind(&mut self, port: u16) -> (r: Result<(), TcpError>)
        requires
            old(self).wf(),
        ensures
            final(self).wf(),
            old(self).listening(port) ==> r == Err::<(), TcpError>(TcpError::AddressInUse)
                && final(self).pending@ == old(self).pending@,
            !old(self).listening(port) ==> r is Ok && final(self).pending@.len() == old(self).pending@.len() + 1
                && final(self).pending@.last().0 == port
                && final(self).pending@.last().1@.len() == 0
                && final(self).pending@.subrange(0, old(self).pending@.len() as int) == old(self).pending@,
            final(self).listening(port),
            final(self).connections@ == old(self).connections@,
    {
        match self.find_port(port) {
            Some(_) => Err(TcpError::AddressInUse),
            None => {
                self.pending.push((port, VecDeque::new()));
                assert(self.pending@.subrange(0, old(self).pending@.len() as int) =~= old(self).pending@);
                assert(self.pending@[self.pending@.len() - 1].0 == port);
                Ok(())
            },
        }
    }

    /// Stops listening on `port`, dropping its queue of unclaimed connections.
    pub fn unbind(&mut self, port: u16)
        requires
            old(self).wf(),
        ensures
            final(self).wf(),
            !final(self).listening(port),
            final(self).connections@ == old(self).connections@,
            !old(self).listening(port) ==> final(self).pending@ == old(self).pending@,
            old(self).listening(port) ==> exists|i: int|
                0 <= i < old(self).pending@.len() && old(self).pending@[i].0 == port
                    && final(self).pending@ == old(self).pending@.remove(i),
    {
        match self.find_port(port) {
            Some(i) => {
                self.pending.remove(i);
                assert forall|k: int| 0 <= k < self.pending@.len() implies self.pending@[k].0 != port by {
                    if k < i {
                        assert(self.pending@[k] == old(self).pending@[k]);
                    } else {
                        assert(self.pending@[k] == old(self).pending@[k + 1]);
                    }
                }
                assert(self.pending@ == old(self).pending@.remove(i as int));
                assert forall|a: int, k: int|
                    0 <= a < self.pending@.len() && 0 <= k < self.pending@[a].1@.len() implies self.has_quad(
                        #[trigger] self.pending@[a].1@[k],
                    ) by {
                    if a < i {
                        assert(self.pending@[a] == old(self).pending@[a]);
                        assert(old(self).has_quad(old(self).pending@[a].1@[k]));
                    } else {
                        assert(self.pending@[a] == old(self).pending@[a + 1]);
                        assert(old(self).has_quad(old(self).pending@[a + 1].1@[k]));
                    }
                    self.lemma_has_quad_kept(*old(self), self.pending@[a].1@[k]);
                }
            },
            None => {},
        }
    }

    /// Hands the application the oldest connection accepted on `port`, if any.
    pub fn accept_pending(&mut self, port: u16) -> (r: Option<Quad>)
        requires
            old(self).wf(),
        ensures
            final(self).wf(),
            final(self).connections@ == old(self).connections@,
            !old(self).listening(port) ==> r is None,
            forall|i: int| 0 <= i < old(self).pending@.len() && old(self).pending@[i].0 == port ==> {
                &&& old(self).pending@[i].1@.len() == 0 ==> r is None
                &&& old(self).pending@[i].1@.len() > 0 ==> r == Some(old(self).pending@[i].1@[0])
                    && final(self).pending@[i].1@ == old(self).pending@[i].1@.subrange(1, old(self).pending@[i].1@.len() as int)
            },
            forall|i: int| 0 <= i < old(self).pending@.len() && old(self).pending@[i].0 == port ==>
                final(self).pending@ == old(self).pending@.update(i, (port, final(self).pending@[i].1)),
            !old(self).listening(port) ==> final(self).pending@ == old(self).pending@,
    {
        match self.find_port(port) {
            Some(i) => {
                let (p, mut q) = self.pending.remove(i);
                let r = q.pop_front();
                self.pending.insert(i, (p, q));
                proof {
                    assert forall|a: int, b: int| 0 <= a < b < self.pending@.len() implies self.pending@[a].0 != self.pending@[b].0 by {
                        assert(self.pending@[a].0 == old(self).pending@[a].0);
                        assert(self.pending@[b].0 == old(self).pending@[b].0);
                    }
                    assert(self.pending@ =~= old(self).pending@.update(i as int, (p, self.pending@[i as int].1)));
                    assert forall|a: int, k: int|
                        0 <= a < self.pending@.len() && 0 <= k < self.pending@[a].1@.len() implies self.has_quad(
                            #[trigger] self.pending@[a].1@[k],
                        ) by {
                        if a == i {
                            assert(self.pending@[a].1@[k] == old(self).pending@[a].1@[k + 1]);
                            assert(old(self).has_quad(old(self).pending@[a].1@[k + 1]));
                        } else {
                            assert(self.pending@[a] == old(self).pending@[a]);
                            assert(old(self).has_quad(old(self).pending@[a].1@[k]));
                        }
                        self.lemma_has_quad_kept(*old(self), self.pending@[a].1@[k]);
                    }
                }
                r
            },
            None => None,
        }
    }

    /// Queues application bytes on the stream `q`.
    pub fn stream_write(&mut self, q: Quad, buf: &[u8]) -> (r: Result<usize, TcpError>)
        requires
            old(self).wf(),
        ensures
            final(self).wf(),
            !old(self).has_quad(q) ==> r == Err::<usize, TcpError>(TcpError::ConnectionAborted),
            forall|i: int| 0 <= i < old(self).connections@.len() && old(self).connections@[i].0 == q ==> {
                let u = old(self).connections@[i].1.unacked@;
                let room = SENDQUEUE_SIZE - u.len();
                &&& u.len() >= SENDQUEUE_SIZE ==> r == Err::<usize, TcpError>(TcpError::WouldBlock)
                    && final(self).connections@[i].1.unacked@ == u
                &&& u.len() < SENDQUEUE_SIZE ==> {
                    let n = if buf@.len() < room { buf@.len() as int } else { room as int };
                    &&& r == Ok::<usize, TcpError>(n as usize)
                    &&& final(self).connections@[i].1.unacked@ == u + buf@.subrange(0, n)
                }
                &&& final(self).connections@ == old(self).connections@.update(i, (q, final(self).connections@[i].1))
                &&& final(self).connections@[i].1 == (Connection {
                    unacked: final(self).connections@[i].1.unacked,
                    ..old(self).connections@[i].1
                })
            },
            final(self).pending@ == old(self).pending@,
            !old(self).has_quad(q) ==> final(self).connections@ == old(self).connections@,
    {
        match self.find_connection(q) {
            Some(i) => {
                let (k, mut c) = self.connections.remove(i);
                proof { assert(c == old(self).connections@[i as int].1); }
                let r = c.send_data(buf);
                let ghost e = (k, c);
                self.connections.insert(i, (k, c));
                proof {
                    self.lemma_replaced_wf(*old(self), i as int);
                    assert(self.connections@ =~= old(self).connections@.update(i as int, e));
                }
                r
            },
            None => Err(TcpError::ConnectionAborted),
        }
    }

    /// A quad stays in a table whose earlier entries keep their quads.
    proof fn lemma_has_quad_kept(&self, old: ConnectionManager, x: Quad)
        requires
            old.has_quad(x),
            old.connections@.len() <= self.connections@.len(),
            forall|j: int| 0 <= j < old.connections@.len() ==> self.connections@[j].0 == old.connections@[j].0,
        ensures
            self.has_quad(x),
    {
        let j = choose|j: int| 0 <= j < old.connections@.len() && old.connections@[j].0 == x;
        assert(self.connections@[j].0 == x);
    }

    /// `self` is `old` with the connection at `i` replaced by a well-formed
    /// one under the same quad.
    proof fn lemma_replaced_wf(&self, old: ConnectionManager, i: int)
        requires
            old.wf(),
            0 <= i < old.connections@.len(),
            self.connections@.len() == old.connections@.len(),
            self.connections@[i].0 == old.connections@[i].0,
            self.connections@[i].1.wf(),
            forall|k: int| 0 <= k < old.connections@.len() && k != i ==> self.connections@[k] == old.connections@[k],
            self.pending@ == old.pending@,
        ensures
            self.wf(),
    {
        assert forall|a: int, b: int| 0 <= a < b < self.connections@.len() implies self.connections@[a].0 != self.connections@[b].0 by {
            assert(self.connections@[a].0 == old.connections@[a].0);
            assert(self.connections@[b].0 == old.connections@[b].0);
        }
        assert forall|k: int| 0 <= k < self.connections@.len() implies (#[trigger] self.connections@[k]).1.wf() by {
            if k != i {
                assert(self.connections@[k] == old.connections@[k]);
            }
        }
        assert forall|a: int, k: int|
            0 <= a < self.pending@.len() && 0 <= k < self.pending@[a].1@.len() implies self.has_quad(
                #[trigger] self.pending@[a].1@[k],
            ) by {
            let q = self.pending@[a].1@[k];
            assert(old.has_quad(q));
            let j = choose|j: int| 0 <= j < old.connections@.len() && old.connections@[j].0 == q;
            assert(self.connections@[j].0 == q);
        }
    }
}


impl ConnectionManager {
    /// One attempt to read up to `max` bytes from the stream `q`.
    pub fn stream_read(&mut self, q: Quad, max: usize) -> (r: Result<ReadStep, TcpError>)
        requires
            old(self).wf(),
        ensures
            final(self).wf(),
            !old(self).has_quad(q) ==> r == Err::<ReadStep, TcpError>(TcpError::ConnectionAborted),
            forall|i: int| 0 <= i < old(self).connections@.len() && old(self).connections@[i].0 == q ==> {
                let c = old(self).connections@[i].1;
                let inc = c.incoming@;
                &&& c.state is TimeWait && inc.len() == 0 ==> r is Ok && r->Ok_0 is Eof
                &&& !(c.state is TimeWait) && inc.len() == 0 ==> r is Ok && r->Ok_0 is Wait
                &&& inc.len() > 0 ==> {
                    let n = if max < inc.len() { max as int } else { inc.len() as int };
                    &&& r is Ok && r->Ok_0 is Data && r->Ok_0->Data_0@ == inc.subrange(0, n)
                    &&& final(self).connections@[i].1.incoming@ == inc.subrange(n, inc.len() as int)
                }
                &&& final(self).connections@ == old(self).connections@.update(i, (q, final(self).connections@[i].1))
                &&& final(self).connections@[i].1 == (Connection {
                    incoming: final(self).connections@[i].1.incoming,
                    ..c
                })
            },
            final(self).pending@ == old(self).pending@,
            !old(self).has_quad(q) ==> final(self).connections@ == old(self).connections@,
            r is Ok && !(r->Ok_0 is Data) ==> final(self).connections@ == old(self).connections@,
    {
        match self.find_connection(q) {
            Some(i) => {
                proof {
                    assert(old(self).connections@ =~= old(self).connections@.update(i as int, (q, old(self).connections@[i as int].1)));
                }
                if self.connections[i].1.is_rcv_closed() && self.connections[i].1.incoming.len() == 0 {
                    return Ok(ReadStep::Eof);
                }
                if self.connections[i].1.incoming.len() == 0 {
                    return Ok(ReadStep::Wait);
                }
                let (k, mut c) = self.connections.remove(i);
                proof { assert(c == old(self).connections@[i as int].1); }
                let d = c.read_data(max);
                let ghost e = (k, c);
                self.connections.insert(i, (k, c));
                proof {
                    self.lemma_replaced_wf(*old(self), i as int);
                    assert(self.connections@ =~= old(self).connections@.update(i as int, e));
                }
                Ok(ReadStep::Data(d))
            },
            None => Err(TcpError::ConnectionAborted),
        }
    }

    /// Succeeds once every queued byte of the stream `q` is acknowledged.
    pub fn stream_flush(&self, q: Quad) -> (r: Result<(), TcpError>)
        requires
            self.wf(),
        ensures
            !self.has_quad(q) ==> r == Err::<(), TcpError>(TcpError::ConnectionAborted),
            forall|i: int| 0 <= i < self.connections@.len() && self.connections@[i].0 == q ==> {
                &&& self.connections@[i].1.unacked@.len() == 0 ==> r is Ok
                &&& self.connections@[i].1.unacked@.len() > 0 ==> r == Err::<(), TcpError>(TcpError::WouldBlock)
            },
    {
        match self.find_connection(q) {
            Some(i) => {
                if self.connections[i].1.unacked.len() == 0 {
                    Ok(())
                } else {
                    Err(TcpError::WouldBlock)
                }
            },
            None => Err(TcpError::ConnectionAborted),
        }
    }

    /// Closes the sending side of the stream `q`.
    pub fn stream_shutdown(&mut self, q: Quad) -> (r: Result<(), TcpError>)
        requires
            old(self).wf(),
        ensures
            final(self).wf(),
            !old(self).has_quad(q) ==> r == Err::<(), TcpError>(TcpError::ConnectionAborted),
            forall|i: int| 0 <= i < old(self).connections@.len() && old(self).connections@[i].0 == q ==> {
                let c = old(self).connections@[i].1;
                let f = final(self).connections@[i].1;
                &&& f.closed
                &&& c.state is SynRecvd || c.state is Estab ==> r is Ok && f.state is FinWait1
                &&& c.state is FinWait1 || c.state is FinWait2 ==> r is Ok && f.state == c.state
                &&& c.state is TimeWait ==> r == Err::<(), TcpError>(TcpError::NotConnected)
            
                &&& f == (Connection { state: f.state, closed: true, ..c })
                &&& final(self).connections@ == old(self).connections@.update(i, (q, f))
            },
            final(self).pending@ == old(self).pending@,
            !old(self).has_quad(q) ==> final(self).connections@ == old(self).connections@,
    {
        match self.find_connection(q) {
            Some(i) => {
                let (k, mut c) = self.connections.remove(i);
                proof { assert(c == old(self).connections@[i as int].1); }
                let r = c.close();
                let ghost e = (k, c);
                self.connections.insert(i, (k, c));
                proof {
                    self.lemma_replaced_wf(*old(self), i as int);
                    assert(self.connections@ =~= old(self).connections@.update(i as int, e));
                }
                r
            },
            None => Err(TcpError::ConnectionAborted),
        }
    }

    /// Runs the timers of every connection, in table order: each one's tick
    /// appends its segments to `out` after those of the ones before it.
    pub fn tick_all(&mut self, out: &mut Vec<Segment>, now: u64)
        requires
            old(self).wf(),
        ensures
            final(self).wf(),
            final(self).connections@.len() == old(self).connections@.len(),
            final(self).pending@ == old(self).pending@,
            final(out)@.subrange(0, old(out)@.len() as int) == old(out)@,
            exists|b: Seq<int>| {
                &&& b.len() == old(self).connections@.len() + 1
                &&& b[0] == old(out)@.len()
                &&& b.last() == final(out)@.len()
                &&& forall|k: int| 0 <= k < old(self).connections@.len() ==> {
                    &&& b[k] <= #[trigger] b[k + 1]
                    &&& final(self).connections@[k].0 == old(self).connections@[k].0
                    &&& tick_post(
                        old(self).connections@[k].1,
                        final(self).connections@[k].1,
                        final(out)@.subrange(b[k], b[k + 1]),
                        now,
                    )
                }
            },
    {
        let ghost s0 = *old(self);
        let ghost o0 = out@;
        let ghost mut b: Seq<int> = seq![out@.len() as int];
        let mut i: usize = 0;
        while i < self.connections.len()
            invariant
                self.wf(),
                i <= self.connections@.len(),
                self.connections@.len() == s0.connections@.len(),
                self.pending@ == s0.pending@,
                o0.len() <= out@.len(),
                out@.subrange(0, o0.len() as int) == o0,
                b.len() == i + 1,
                b[0] == o0.len(),
                b.last() == out@.len(),
                forall|k: int| 0 <= k <= i ==> o0.len() <= #[trigger] b[k] <= out@.len(),
                forall|k: int| 0 <= k < i ==> {
                    &&& b[k] <= #[trigger] b[k + 1]
                    &&& self.connections@[k].0 == s0.connections@[k].0
                    &&& tick_post(s0.connections@[k].1, self.connections@[k].1, out@.subrange(b[k], b[k + 1]), now)
                },
                forall|k: int| i <= k < s0.connections@.len() ==> self.connections@[k] == s0.connections@[k],
            decreases s0.connections@.len() - i,
        {
            let ghost before = *self;
            let ghost out_before = out@;
            let (k, mut c) = self.connections.remove(i);
            proof { assert(c == before.connections@[i as int].1); }
            c.on_tick(out, now);
            let ghost e = (k, c);
            self.connections.insert(i, (k, c));
            proof {
                self.lemma_replaced_wf(before, i as int);
                assert(self.connections@ =~= before.connections@.update(i as int, e));
                assert forall|m: int| 0 <= m < out_before.len() implies out@[m] == out_before[m] by {
                    assert(out@.subrange(0, out_before.len() as int)[m] == out@[m]);
                }
                assert forall|x: int, y: int| 0 <= x <= y <= out_before.len() implies out@.subrange(x, y) == out_before.subrange(x, y) by {
                    assert(out@.subrange(x, y) =~= out_before.subrange(x, y));
                }
                assert forall|m: int| 0 <= m < o0.len() implies out@[m] == o0[m] by {
                    assert(out_before.subrange(0, o0.len() as int)[m] == out_before[m]);
                    assert(out@[m] == out_before[m]);
                }
                assert(out@.subrange(0, o0.len() as int) =~= o0);
                let ghost b0 = b;
                b = b.push(out@.len() as int);
                assert(b[i as int] == out_before.len());
                assert forall|k: int| 0 <= k < i + 1 implies {
                    &&& b[k] <= #[trigger] b[k + 1]
                    &&& self.connections@[k].0 == s0.connections@[k].0
                    &&& tick_post(s0.connections@[k].1, self.connections@[k].1, out@.subrange(b[k], b[k + 1]), now)
                } by {
                    if k < i {
                        assert(b[k] == b0[k] && b[k + 1] == b0[k + 1]);
                        assert(b0[k + 1] <= out_before.len());
                        assert(self.connections@[k] == before.connections@[k]);
                        assert(out@.subrange(b[k], b[k + 1]) == out_before.subrange(b[k], b[k + 1]));
                    } else {
                        assert(out@.subrange(b[k], b[k + 1]) == final_added(out_before, out@));
                    }
                }
            }
            i = i + 1;
        }
    }

    /// Routes one incoming segment: to its connection if the quad is known,
    /// else, for a SYN to a listening port, to a new connection queued for
    /// the listener; anything else is dropped.
    pub fn on_segment(&mut self, out: &mut Vec<Segment>, seg: &Segment, now: u64) -> (r: Result<Wakeups, TcpError>)
        requires
            old(self).wf(),
            seg.payload@.len() <= 0xFFFF,
        ensures
            final(self).wf(),
            final(self).has_quad(quad_of(*seg)) == (old(self).has_quad(quad_of(*seg))
                || (old(self).listening(seg.dst_port) && seg.syn)),
            !old(self).has_quad(quad_of(*seg)) && !(old(self).listening(seg.dst_port) && seg.syn) ==> {
                &&& r == Ok::<Wakeups, TcpError>(Wakeups { read: false, write: false, accept: false })
                &&& final(out)@ == old(out)@
                &&& final(self).connections@ == old(self).connections@
                &&& final(self).pending@ == old(self).pending@
            },
            !old(self).has_quad(quad_of(*seg)) && old(self).listening(seg.dst_port) && seg.syn ==> {
                &&& r == Ok::<Wakeups, TcpError>(Wakeups { read: false, write: false, accept: true })
                &&& final(self).connections@.len() == old(self).connections@.len() + 1
                &&& final(self).connections@.last().0 == quad_of(*seg)
                &&& final(self).connections@.subrange(0, old(self).connections@.len() as int) == old(self).connections@
                &&& final(out)@.len() == old(out)@.len() + 1
                &&& final(out)@.subrange(0, old(out)@.len() as int) == old(out)@
                &&& accept_post(*seg, final(self).connections@.last().1, final_added(old(out)@, final(out)@), now)
                &&& forall|i: int| 0 <= i < old(self).pending@.len() && old(self).pending@[i].0 == seg.dst_port ==>
                    final(self).pending@ == old(self).pending@.update(i, (seg.dst_port, final(self).pending@[i].1))
                        && final(self).pending@[i].1@ == old(self).pending@[i].1@.push(quad_of(*seg))
            },
            forall|i: int| 0 <= i < old(self).connections@.len() && old(self).connections@[i].0 == quad_of(*seg) ==> {
                &&& final(self).connections@ == old(self).connections@.update(i, (quad_of(*seg), final(self).connections@[i].1))
                &&& final(self).pending@ == old(self).pending@
                &&& exists|ra: Result<Available, TcpError>| {
                    &&& packet_post(
                        old(self).connections@[i].1,
                        final(self).connections@[i].1,
                        *seg,
                        final_added(old(out)@, final(out)@),
                        ra,
                        now,
                    )
                    &&& r == wake_of(ra)
                }
            },
    {
        let q = Quad { src_addr: seg.src_addr, src_port: seg.src_port, dst_addr: seg.dst_addr, dst_port: seg.dst_port };
        match self.find_connection(q) {
            Some(i) => {
                let (k, mut c) = self.connections.remove(i);
                proof { assert(c == old(self).connections@[i as int].1); }
                let r = c.on_packet(out, seg, now);
                let ghost e = (k, c);
                self.connections.insert(i, (k, c));
                proof {
                    self.lemma_replaced_wf(*old(self), i as int);
                    assert(self.connections@[i as int].0 == q);
                    assert(self.connections@ =~= old(self).connections@.update(i as int, e));
                }
                let res = match r {
                    Ok(a) => Ok(Wakeups { read: a.read, write: a.write, accept: false }),
                    Err(e) => Err(e),
                };
                proof {
                    assert(packet_post(old(self).connections@[i as int].1, self.connections@[i as int].1, *seg, final_added(old(out)@, out@), r, now));
                    assert(res == wake_of(r));
                }
                res
            },
            None => {
                match self.find_port(seg.dst_port) {
                    Some(p) => {
                        if !seg.syn {
                            return Ok(Wakeups { read: false, write: false, accept: false });
                        }
                        match Connection::accept(out, seg, now) {
                            Some(c) => {
                                let ghost cg = c;
                                self.connections.push((q, c));
                                let (port, mut fifo) = self.pending.remove(p);
                                fifo.push_back(q);
                                let ghost fe = (port, fifo);
                                self.pending.insert(p, (port, fifo));
                                proof {
                                    assert(self.connections@.last().1 == cg);
                                    assert(self.connections@.subrange(0, old(self).connections@.len() as int) =~= old(self).connections@);
                                    assert(self.pending@ =~= old(self).pending@.update(p as int, fe));
                                    let n = old(self).connections@.len();
                                    assert(self.connections@[n as int].0 == q);
                                    assert forall|a: int, b: int| 0 <= a < b < self.connections@.len() implies self.connections@[a].0 != self.connections@[b].0 by {
                                        if b < n {
                                            assert(self.connections@[a] == old(self).connections@[a]);
                                            assert(self.connections@[b] == old(self).connections@[b]);
                                        } else {
                                            assert(self.connections@[a] == old(self).connections@[a]);
                                        }
                                    }
                                    assert forall|k: int| 0 <= k < self.connections@.len() implies (#[trigger] self.connections@[k]).1.wf() by {
                                        if k < n {
                                            assert(self.connections@[k] == old(self).connections@[k]);
                                        }
                                    }
                                    assert forall|a: int, b: int| 0 <= a < b < self.pending@.len() implies self.pending@[a].0 != self.pending@[b].0 by {
                                        assert(self.pending@[a].0 == old(self).pending@[a].0);
                                        assert(self.pending@[b].0 == old(self).pending@[b].0);
                                    }
                                    assert forall|j: int| 0 <= j < old(self).pending@.len() && old(self).pending@[j].0 == seg.dst_port implies
                                        self.pending@[j].1@ == old(self).pending@[j].1@.push(q) by {
                                        if j != p {
                                            assert(old(self).pending@[j].0 != old(self).pending@[p as int].0);
                                        }
                                    }
                                    assert(self.has_quad(q));
                                    assert forall|a: int, k: int|
                                        0 <= a < self.pending@.len() && 0 <= k < self.pending@[a].1@.len() implies self.has_quad(
                                            #[trigger] self.pending@[a].1@[k],
                                        ) by {
                                        if a == p && k == old(self).pending@[a].1@.len() {
                                            assert(self.pending@[a].1@[k] == q);
                                        } else {
                                            assert(self.pending@[a].1@[k] == old(self).pending@[a].1@[k]);
                                            assert(old(self).has_quad(old(self).pending@[a].1@[k]));
                                            self.lemma_has_quad_kept(*old(self), self.pending@[a].1@[k]);
                                        }
                                    }
                                }
                                Ok(Wakeups { read: false, write: false, accept: true })
                            },
                            None => Ok(Wakeups { read: false, write: false, accept: false }),
                        }
                    },
                    None => Ok(Wakeups { read: false, write: false, accept: false }),
                }
            },
        }
    }
}

} // verus!
