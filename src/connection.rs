use std::collections::VecDeque;
use vstd::prelude::*;
use crate::buffer::OutBuf;
use crate::interest::Interest;
use crate::protocol::MsgId;
use crate::token::Token;

verus! {

/// A queued write: the bytes still to send and the id echoed back once the
/// last of them has left. The final write of a killed connection has no id.
pub struct OutEntry {
    pub buf: OutBuf,
    pub mid: Option<MsgId>,
}

/// A queue entry as the contracts see it.
pub type EntryView = (Seq<u8>, Option<MsgId>);

pub open spec fn entry_view(e: OutEntry) -> EntryView {
    (e.buf@, e.mid)
}

/// Lifecycle of a connection.
#[derive(Clone, Copy, PartialEq, Eq, Structural, Debug)]
pub enum ConnectionStatus {
    /// Outbound connect issued, not yet confirmed.
    Connecting,
    /// Open in both directions.
    Established,
    /// The peer hung up while bytes were still queued.
    HalfClosed,
    /// Finished; the slot is released at the end of the current dispatch.
    Closed,
}

/// The concatenation of the bytes of every entry, in queue order.
pub open spec fn pending_bytes(q: Seq<EntryView>) -> Seq<u8>
    decreases q.len(),
{
    if q.len() == 0 {
        Seq::empty()
    } else {
        q[0].0 + pending_bytes(q.drop_first())
    }
}

/// The message ids of the entries, in queue order.
pub open spec fn ids_of(q: Seq<EntryView>) -> Seq<MsgId>
    decreases q.len(),
{
    if q.len() == 0 {
        Seq::empty()
    } else {
        let rest = ids_of(q.drop_first());
        match q[0].1 {
            Some(m) => seq![m] + rest,
            None => rest,
        }
    }
}

/// The queue after the socket has taken the first `n` pending bytes: entries
/// wholly sent leave, the first one partly sent keeps its unsent tail.
pub open spec fn drained(q: Seq<EntryView>, n: nat) -> Seq<EntryView>
    decreases q.len(),
{
    if q.len() == 0 {
        q
    } else if q[0].0.len() <= n {
        drained(q.drop_first(), (n - q[0].0.len()) as nat)
    } else {
        q.update(0, (q[0].0.subrange(n as int, q[0].0.len() as int), q[0].1))
    }
}

/// The ids of the entries wholly sent once the socket has taken the first
/// `n` pending bytes, in queue order.
pub open spec fn sent_ids(q: Seq<EntryView>, n: nat) -> Seq<MsgId>
    decreases q.len(),
{
    if q.len() == 0 {
        Seq::empty()
    } else if q[0].0.len() <= n {
        let rest = sent_ids(q.drop_first(), (n - q[0].0.len()) as nat);
        match q[0].1 {
            Some(m) => seq![m] + rest,
            None => rest,
        }
    } else {
        Seq::empty()
    }
}

/// Queuing a write appends its bytes to the pending stream: the stream is
/// the concatenation of the writes in the order they were queued.
pub proof fn lemma_pending_push(q: Seq<EntryView>, e: EntryView)
    ensures
        pending_bytes(q.push(e)) == pending_bytes(q) + e.0,
        ids_of(q.push(e)) == ids_of(q) + (match e.1 {
            Some(m) => seq![m],
            None => Seq::<MsgId>::empty(),
        }),
    decreases q.len(),
{
    if q.len() == 0 {
        assert(q.push(e).drop_first() =~= q);
        assert(pending_bytes(q.push(e)) =~= pending_bytes(q) + e.0);
        assert(ids_of(q.push(e)) =~= ids_of(q) + (match e.1 {
            Some(m) => seq![m],
            None => Seq::<MsgId>::empty(),
        }));
    } else {
        assert(q.push(e).drop_first() =~= q.drop_first().push(e));
        lemma_pending_push(q.drop_first(), e);
        assert(pending_bytes(q.push(e)) =~= pending_bytes(q) + e.0);
        assert(ids_of(q.push(e)) =~= ids_of(q) + (match e.1 {
            Some(m) => seq![m],
            None => Seq::<MsgId>::empty(),
        }));
    }
}

/// The pending stream of two queues one after the other is the first's
/// stream followed by the second's.
pub proof fn lemma_pending_concat(a: Seq<EntryView>, b: Seq<EntryView>)
    ensures
        pending_bytes(a + b) == pending_bytes(a) + pending_bytes(b),
    decreases a.len(),
{
    if a.len() == 0 {
        assert(a + b =~= b);
        assert(pending_bytes(a) + pending_bytes(b) =~= pending_bytes(b));
    } else {
        assert((a + b).drop_first() =~= a.drop_first() + b);
        lemma_pending_concat(a.drop_first(), b);
        assert(pending_bytes(a + b) =~= pending_bytes(a) + pending_bytes(b));
    }
}

/// Bytes leave in stream order: after the socket takes `n` bytes, what
/// remains pending is exactly the stream without its first `n` bytes.
pub proof fn lemma_drained_bytes(q: Seq<EntryView>, n: nat)
    requires
        n <= pending_bytes(q).len(),
    ensures
        pending_bytes(drained(q, n)) == pending_bytes(q).subrange(
            n as int,
            pending_bytes(q).len() as int,
        ),
    decreases q.len(),
{
    let p = pending_bytes(q);
    if q.len() == 0 {
        assert(p.subrange(0, 0) =~= p);
    } else {
        let l0 = q[0].0.len();
        let rest = pending_bytes(q.drop_first());
        if l0 <= n {
            lemma_drained_bytes(q.drop_first(), (n - l0) as nat);
            assert(p.subrange(n as int, p.len() as int) =~= rest.subrange(
                n - l0,
                rest.len() as int,
            ));
        } else {
            let d = drained(q, n);
            assert(d.drop_first() =~= q.drop_first());
            assert(pending_bytes(d) =~= p.subrange(n as int, p.len() as int));
        }
    }
}

/// Draining `a` bytes and then `b` more is draining `a + b` at once, and
/// every wholly sent entry is reported in exactly one of the two steps.
pub proof fn lemma_drain_in_steps(q: Seq<EntryView>, a: nat, b: nat)
    ensures
        drained(drained(q, a), b) == drained(q, a + b),
        sent_ids(q, a) + sent_ids(drained(q, a), b) == sent_ids(q, a + b),
    decreases q.len(),
{
    if q.len() == 0 {
        assert(sent_ids(q, a) + sent_ids(drained(q, a), b) =~= sent_ids(q, a + b));
    } else {
        let l0 = q[0].0.len();
        if l0 <= a {
            lemma_drain_in_steps(q.drop_first(), (a - l0) as nat, b);
            assert((a - l0) as nat + b == (a + b - l0) as nat);
            assert(sent_ids(q, a) + sent_ids(drained(q, a), b) =~= sent_ids(q, a + b));
        } else {
            let d = drained(q, a);
            assert(d.drop_first() =~= q.drop_first());
            if l0 - a <= b {
                assert(sent_ids(q, a) + sent_ids(drained(q, a), b) =~= sent_ids(q, a + b));
            } else {
                assert(d[0].0.subrange(b as int, d[0].0.len() as int) =~= q[0].0.subrange(
                    (a + b) as int,
                    l0 as int,
                ));
                assert(drained(d, b) =~= drained(q, a + b));
                assert(sent_ids(q, a) + sent_ids(drained(q, a), b) =~= sent_ids(q, a + b));
            }
        }
    }
}

/// Once the socket has taken every pending byte the queue is empty, and each
/// queued id has been reported exactly once, in the order of its write.
pub proof fn lemma_drain_all(q: Seq<EntryView>)
    ensures
        drained(q, pending_bytes(q).len()) == Seq::<EntryView>::empty(),
        sent_ids(q, pending_bytes(q).len()) == ids_of(q),
    decreases q.len(),
{
    if q.len() == 0 {
        assert(q =~= Seq::<EntryView>::empty());
    } else {
        lemma_drain_all(q.drop_first());
    }
}

/// Total of a sequence of write sizes.
pub open spec fn total(steps: Seq<nat>) -> nat
    decreases steps.len(),
{
    if steps.len() == 0 {
        0
    } else {
        steps[0] + total(steps.drop_first())
    }
}

/// The queue after the socket has taken `steps[0]` bytes, then `steps[1]`,
/// and so on.
pub open spec fn drained_in(q: Seq<EntryView>, steps: Seq<nat>) -> Seq<EntryView>
    decreases steps.len(),
{
    if steps.len() == 0 {
        q
    } else {
        drained_in(drained(q, steps[0]), steps.drop_first())
    }
}

/// The ids reported over those writes, in the order they were reported.
pub open spec fn sent_in(q: Seq<EntryView>, steps: Seq<nat>) -> Seq<MsgId>
    decreases steps.len(),
{
    if steps.len() == 0 {
        Seq::empty()
    } else {
        sent_ids(q, steps[0]) + sent_in(drained(q, steps[0]), steps.drop_first())
    }
}

/// Writes of any sizes report what one write of their total would.
pub proof fn lemma_steps_as_one(q: Seq<EntryView>, steps: Seq<nat>)
    requires
        steps.len() > 0,
    ensures
        drained_in(q, steps) == drained(q, total(steps)),
        sent_in(q, steps) == sent_ids(q, total(steps)),
    decreases steps.len(),
{
    let rest = steps.drop_first();
    assert(total(steps) == steps[0] + total(rest));
    assert(drained_in(q, steps) == drained_in(drained(q, steps[0]), rest));
    if rest.len() == 0 {
        assert(total(rest) == 0);
        assert(drained_in(drained(q, steps[0]), rest) == drained(q, steps[0]));
        assert(sent_in(drained(q, steps[0]), rest) =~= Seq::<MsgId>::empty());
        assert(sent_in(q, steps) =~= sent_ids(q, steps[0]));
    } else {
        lemma_steps_as_one(drained(q, steps[0]), rest);
        lemma_drain_in_steps(q, steps[0], total(rest));
    }
}

/// However the socket splits the pending bytes into writes, once it has
/// taken all of them the queue is empty and every queued id has been
/// reported exactly once, in the order its write was queued.
pub proof fn lemma_every_write_reported_once(q: Seq<EntryView>, steps: Seq<nat>)
    requires
        steps.len() > 0,
        total(steps) == pending_bytes(q).len(),
    ensures
        drained_in(q, steps) == Seq::<EntryView>::empty(),
        sent_in(q, steps) == ids_of(q),
{
    lemma_steps_as_one(q, steps);
    lemma_drain_all(q);
}

/// Draining fewer bytes than a queue's stream holds never reaches the
/// entries queued behind it: they stay, in order, and none is reported.
pub proof fn lemma_drain_ignores_tail(q: Seq<EntryView>, w: Seq<EntryView>, n: nat)
    requires
        n < pending_bytes(q).len(),
    ensures
        drained(q + w, n) == drained(q, n) + w,
        sent_ids(q + w, n) == sent_ids(q, n),
    decreases q.len(),
{
    assert(q.len() > 0);
    let qw = q + w;
    assert(qw[0] == q[0]);
    let l0 = q[0].0.len();
    if l0 <= n {
        assert(qw.drop_first() =~= q.drop_first() + w);
        lemma_drain_ignores_tail(q.drop_first(), w, (n - l0) as nat);
    } else {
        assert(qw.update(0, (q[0].0.subrange(n as int, l0 as int), q[0].1)) =~= q.update(
            0,
            (q[0].0.subrange(n as int, l0 as int), q[0].1),
        ) + w);
    }
}

/// While some pending byte has not been taken, the queue is not empty.
pub proof fn lemma_drained_nonempty(q: Seq<EntryView>, n: nat)
    requires
        n < pending_bytes(q).len(),
    ensures
        drained(q, n).len() > 0,
    decreases q.len(),
{
    if q.len() > 0 && q[0].0.len() <= n {
        lemma_drained_nonempty(q.drop_first(), (n - q[0].0.len()) as nat);
    }
}

/// A kill's bytes go out after everything queued before it, and the
/// connection cannot run empty (and so close) before the socket has taken
/// every one of them.
pub proof fn lemma_kill_flushes_first(q: Seq<EntryView>, k: Seq<u8>, n: nat)
    requires
        n < pending_bytes(q).len() + k.len(),
    ensures
        pending_bytes(q.push((k, None))) == pending_bytes(q) + k,
        drained(q.push((k, None)), n).len() > 0,
{
    lemma_pending_push(q, (k, None));
    lemma_drained_nonempty(q.push((k, None)), n);
}

/// What a connection is registered for in each state: readable and hangup
/// until closed, writable exactly while bytes are queued.
pub open spec fn spec_interest(status: ConnectionStatus, queued: bool) -> Interest {
    Interest {
        readable: status != ConnectionStatus::Closed,
        writable: queued,
        hup: status != ConnectionStatus::Closed,
    }
}

/// Per-socket state: the FIFO of queued writes, the lifecycle, and the token
/// once one is assigned. The socket itself is held by the caller under the
/// same token.
pub struct Connection {
    token: Option<Token>,
    outbuf: VecDeque<OutEntry>,
    status: ConnectionStatus,
    killed: bool,
}

impl Connection {
    pub closed spec fn queue(&self) -> Seq<EntryView> {
        self.outbuf@.map_values(|e: OutEntry| entry_view(e))
    }

    pub closed spec fn spec_status(&self) -> ConnectionStatus {
        self.status
    }

    pub closed spec fn spec_killed(&self) -> bool {
        self.killed
    }

    pub closed spec fn spec_token(&self) -> Option<Token> {
        self.token
    }

    /// Whether the connection takes no further writes.
    pub open spec fn spec_terminal(&self) -> bool {
        self.spec_killed() || self.spec_status() == ConnectionStatus::Closed
    }

    /// A connection whose outbound connect is in progress.
    pub fn new() -> (r: Connection)
        ensures
            r.queue() == Seq::<EntryView>::empty(),
            r.spec_status() == ConnectionStatus::Connecting,
            !r.spec_killed(),
            r.spec_token() is None,
    {
        Connection {
            token: None,
            outbuf: VecDeque::new(),
            status: ConnectionStatus::Connecting,
            killed: false,
        }
    }

    /// A connection taken from a listener: established from the start.
    pub fn accepted() -> (r: Connection)
        ensures
            r.queue() == Seq::<EntryView>::empty(),
            r.spec_status() == ConnectionStatus::Established,
            !r.spec_killed(),
            r.spec_token() is None,
    {
        Connection {
            token: None,
            outbuf: VecDeque::new(),
            status: ConnectionStatus::Established,
            killed: false,
        }
    }

    pub fn token(&self) -> (r: Option<Token>)
        ensures
            r == self.spec_token(),
    {
        self.token
    }

    pub fn set_token(&mut self, t: Token)
        ensures
            final(self).spec_token() == Some(t),
            final(self).queue() == old(self).queue(),
            final(self).spec_status() == old(self).spec_status(),
            final(self).spec_killed() == old(self).spec_killed(),
    {
        self.token = Some(t);
    }

    pub fn status(&self) -> (r: ConnectionStatus)
        ensures
            r == self.spec_status(),
    {
        self.status
    }

    pub fn is_killed(&self) -> (r: bool)
        ensures
            r == self.spec_killed(),
    {
        self.killed
    }

    /// Number of queued entries.
    pub fn queued(&self) -> (r: usize)
        ensures
            r == self.queue().len(),
    {
        self.outbuf.len()
    }

    /// The readiness events to register for in the current state.
    pub fn interest(&self) -> (r: Interest)
        ensures
            r == spec_interest(self.spec_status(), self.queue().len() > 0),
    {
        Interest {
            readable: self.status != ConnectionStatus::Closed,
            writable: self.outbuf.len() > 0,
            hup: self.status != ConnectionStatus::Closed,
        }
    }

    /// Appends a write behind everything already queued; a write with an id
    /// is reported once sent. Refused (`None`) once the connection is killed
    /// or closed.
    pub fn enqueue(&mut self, buf: OutBuf, mid: Option<MsgId>) -> (r: Option<()>)
        ensures
            r is Some <==> !old(self).spec_terminal(),
            final(self).queue() == (if r is Some {
                old(self).queue().push((buf@, mid))
            } else {
                old(self).queue()
            }),
            final(self).spec_status() == old(self).spec_status(),
            final(self).spec_killed() == old(self).spec_killed(),
            final(self).spec_token() == old(self).spec_token(),
    {
        if self.killed || self.status == ConnectionStatus::Closed {
            return None;
        }
        let ghost bv = buf@;
        self.outbuf.push_back(OutEntry { buf, mid });
        proof {
            assert(self.queue() =~= old(self).queue().push((bv, mid)));
        }
        Some(())
    }

    /// Queues `buf` as the final write and marks the connection killed: it
    /// closes once everything queued, `buf` last, has been sent. A connection
    /// already killed or closed is left as it is.
    pub fn kill(&mut self, buf: OutBuf)
        ensures
            final(self).spec_token() == old(self).spec_token(),
            old(self).spec_terminal() ==> *final(self) == *old(self),
            !old(self).spec_terminal() ==> {
                let q = if buf@.len() > 0 {
                    old(self).queue().push((buf@, None))
                } else {
                    old(self).queue()
                };
                &&& final(self).spec_killed()
                &&& final(self).queue() == q
                &&& final(self).spec_status() == (if q.len() == 0 {
                    ConnectionStatus::Closed
                } else {
                    old(self).spec_status()
                })
            },
    {
        if self.killed || self.status == ConnectionStatus::Closed {
            return ;
        }
        self.killed = true;
        if !buf.is_empty() {
            let ghost bv = buf@;
            self.outbuf.push_back(OutEntry { buf, mid: None });
            proof {
                assert(self.queue() =~= old(self).queue().push((bv, None)));
            }
        }
        if self.outbuf.len() == 0 {
            self.status = ConnectionStatus::Closed;
        }
    }

    /// The bytes to hand to the socket next, if any are queued.
    pub fn front(&self) -> (r: Option<&OutBuf>)
        ensures
            match r {
                Some(b) => self.queue().len() > 0 && b@ == self.queue()[0].0,
                None => self.queue().len() == 0,
            },
    {
        if self.outbuf.len() == 0 {
            None
        } else {
            Some(&self.outbuf[0].buf)
        }
    }

    /// Accounts for `written` bytes taken by the socket from the front of the
    /// queue: wholly sent entries leave in order and their ids are returned,
    /// a partly sent entry keeps its unsent tail. A killed or half-closed
    /// connection whose queue runs empty becomes closed.
    pub fn drain_write_queue_to_socket(&mut self, written: usize) -> (r: Vec<MsgId>)
        ensures
            final(self).queue() == drained(old(self).queue(), written as nat),
            r@ == sent_ids(old(self).queue(), written as nat),
            final(self).spec_killed() == old(self).spec_killed(),
            final(self).spec_token() == old(self).spec_token(),
            final(self).spec_status() == (if final(self).queue().len() == 0 && (
            old(self).spec_killed() || old(self).spec_status() == ConnectionStatus::HalfClosed) {
                ConnectionStatus::Closed
            } else {
                old(self).spec_status()
            }),
    {
        let mut ids: Vec<MsgId> = Vec::new();
        let mut left: usize = written;
        while self.outbuf.len() > 0
            invariant
                self.killed == old(self).killed,
                self.status == old(self).status,
                self.token == old(self).token,
                drained(old(self).queue(), written as nat) == drained(self.queue(), left as nat),
                sent_ids(old(self).queue(), written as nat) == ids@ + sent_ids(
                    self.queue(),
                    left as nat,
                ),
            ensures
                self.killed == old(self).killed,
                self.status == old(self).status,
                self.token == old(self).token,
                drained(old(self).queue(), written as nat) == self.queue(),
                sent_ids(old(self).queue(), written as nat) == ids@,
            decreases self.outbuf@.len(),
        {
            let ghost q = self.queue();
            let front_len = self.outbuf[0].buf.len();
            if front_len <= left {
                let e = self.outbuf.pop_front().unwrap();
                proof {
                    assert(self.queue() =~= q.drop_first());
                    assert(q[0] == entry_view(e));
                }
                left = left - front_len;
                match e.mid {
                    Some(m) => {
                        ids.push(m);
                        proof {
                            assert(sent_ids(q, (left + front_len) as nat) == seq![m]
                                + sent_ids(self.queue(), left as nat));
                        }
                    },
                    None => {},
                }
            } else {
                let mut e = self.outbuf.pop_front().unwrap();
                proof {
                    assert(q[0] == entry_view(e));
                }
                e.buf.advance(left);
                self.outbuf.push_front(e);
                proof {
                    assert(self.queue() =~= drained(q, left as nat));
                    let q2 = self.queue();
                    assert(q2[0].0.subrange(0, q2[0].0.len() as int) =~= q2[0].0);
                    assert(drained(q2, 0) =~= q2);
                    assert(sent_ids(self.queue(), 0) =~= Seq::<MsgId>::empty());
                    assert(sent_ids(q, left as nat) =~= Seq::<MsgId>::empty());
                    assert(ids@ + Seq::<MsgId>::empty() =~= ids@);
                }
                left = 0;
                proof {
                    assert(self.queue() == drained(self.queue(), left as nat));
                }
                break ;
            }
        }
        if self.outbuf.len() == 0 && (self.killed || self.status == ConnectionStatus::HalfClosed) {
            self.status = ConnectionStatus::Closed;
        }
        ids
    }

    /// The outbound connect completed.
    pub fn establish(&mut self)
        ensures
            final(self).queue() == old(self).queue(),
            final(self).spec_killed() == old(self).spec_killed(),
            final(self).spec_token() == old(self).spec_token(),
            final(self).spec_status() == (if old(self).spec_status()
                == ConnectionStatus::Connecting {
                ConnectionStatus::Established
            } else {
                old(self).spec_status()
            }),
    {
        if self.status == ConnectionStatus::Connecting {
            self.status = ConnectionStatus::Established;
        }
    }

    /// The peer hung up: closed at once when nothing is queued, else
    /// half-closed until the queue drains.
    pub fn hangup(&mut self)
        ensures
            final(self).queue() == old(self).queue(),
            final(self).spec_killed() == old(self).spec_killed(),
            final(self).spec_token() == old(self).spec_token(),
            final(self).spec_status() == (if old(self).spec_status() == ConnectionStatus::Closed
                || old(self).queue().len() == 0 {
                ConnectionStatus::Closed
            } else {
                ConnectionStatus::HalfClosed
            }),
    {
        if self.status == ConnectionStatus::Closed || self.outbuf.len() == 0 {
            self.status = ConnectionStatus::Closed;
        } else {
            self.status = ConnectionStatus::HalfClosed;
        }
    }

    /// Closes the connection whatever is queued (a socket error, or an
    /// explicit disconnect).
    pub fn close(&mut self)
        ensures
            final(self).queue() == old(self).queue(),
            final(self).spec_killed() == old(self).spec_killed(),
            final(self).spec_token() == old(self).spec_token(),
            final(self).spec_status() == ConnectionStatus::Closed,
    {
        self.status = ConnectionStatus::Closed;
    }
}

} // verus!
