use vstd::prelude::*;
use crate::buffer::OutBuf;
use crate::connection::{
    drained, EntryView, lemma_pending_concat, lemma_pending_push, pending_bytes, sent_ids, Connection, ConnectionStatus,
};
use crate::protocol::{first_kill, last_timer_command, tree_outs, tree_writes, Command, MsgId, Protocol, TimerId};
use crate::slab::Slab;
use crate::interest::Interest;
use crate::connection::spec_interest;
use crate::timer::{has_timer, lemma_has_timer_after_arm, lemma_has_timer_after_clear, without_owner, TimerEntry, TimerTable};
use crate::token::{spec_class_of, Token, TokenClass, CONNECTION_BASE, LISTENER_BASE, MAX_LISTENERS};

verus! {

/// Why the reactor refused a request.
#[derive(Clone, Copy, PartialEq, Eq, Structural, Debug)]
pub enum ReactorError {
    /// The table the request needed a slot in is full.
    CapacityExceeded,
    /// The token addresses nothing of the kind the request needs.
    UnknownToken,
}

/// A protocol callback, as a connection's history records it.
#[derive(Clone, Copy, PartialEq, Eq, Structural, Debug)]
pub enum Callback {
    Accept,
    Connect,
    Data,
    Sent(MsgId),
    Timer(TimerId),
    Disconnect,
}

pub open spec fn is_opening(c: Callback) -> bool {
    c is Accept || c is Connect
}

/// The history of a live connection: one opening callback (accept or
/// connect) first and nowhere else, and no disconnect.
pub open spec fn live_history_ok(h: Seq<Callback>) -> bool {
    forall|i: int|
        0 <= i < h.len() ==> #[trigger] h[i] != Callback::Disconnect && (is_opening(h[i]) <==> i
            == 0)
}

/// The history of a connection that has left: a live history followed by
/// exactly one disconnect, last.
pub open spec fn retired_history_ok(h: Seq<Callback>) -> bool {
    h.len() >= 1 && h.last() == Callback::Disconnect && live_history_ok(h.drop_last())
}

pub open spec fn opt_bytes(o: Option<OutBuf>) -> Option<Seq<u8>> {
    match o {
        Some(b) => Some(b@),
        None => None,
    }
}

/// A connection's queue after the commands of `c` have been carried out on
/// it: the writes in order, then the bytes of the first kill as the final
/// write. A killed or closed connection takes none of them.
pub open spec fn queue_after<M>(conn: Connection, c: Command<M>) -> Seq<(Seq<u8>, Option<MsgId>)> {
    if conn.spec_terminal() {
        conn.queue()
    } else {
        let q = conn.queue() + tree_writes(c);
        match first_kill(c) {
            Some(k) => if k.len() > 0 {
                q.push((k, None))
            } else {
                q
            },
            None => q,
        }
    }
}

/// An open connection's history stays well formed as callbacks other than
/// the opening one and the disconnect are added.
proof fn lemma_history_grows(h: Seq<Callback>, c: Callback)
    requires
        live_history_ok(h),
        h.len() > 0,
        !is_opening(c),
        c != Callback::Disconnect,
    ensures
        live_history_ok(h.push(c)),
        h.push(c).len() > 0,
{
    assert forall|i: int| 0 <= i < h.push(c).len() implies #[trigger] h.push(c)[i]
        != Callback::Disconnect && (is_opening(h.push(c)[i]) <==> i == 0) by {
        if i < h.len() {
            assert(h.push(c)[i] == h[i]);
        }
    }
}

/// The `on_sent` callbacks for the ids, in order.
pub open spec fn sent_callbacks(ids: Seq<MsgId>) -> Seq<Callback> {
    ids.map_values(|m: MsgId| Callback::Sent(m))
}

/// Every timer of `next` is one of `prev`, unchanged, or falls due no
/// earlier than `now`.
pub open spec fn timers_kept_or_fresh(
    prev: Map<usize, TimerEntry>,
    next: Map<usize, TimerEntry>,
    now: u64,
) -> bool {
    forall|k: usize| #[trigger]
        next.contains_key(k) ==> (prev.contains_key(k) && next[k] == prev[k]) || next[k].deadline
            >= now
}

/// The `on_timer` callbacks the fired timers owed connection `t`, in the
/// order they fired.
pub open spec fn timer_callbacks(fired: Seq<TimerEntry>, t: usize) -> Seq<Callback>
    decreases fired.len(),
{
    if fired.len() == 0 {
        Seq::empty()
    } else {
        let rest = timer_callbacks(fired.drop_last(), t);
        if fired.last().owner.0 == t {
            rest.push(Callback::Timer(fired.last().tid))
        } else {
            rest
        }
    }
}

proof fn lemma_prefix_trans(a: Seq<EntryView>, b: Seq<EntryView>, c: Seq<EntryView>)
    requires
        a.is_prefix_of(b),
        b.is_prefix_of(c),
    ensures
        a.is_prefix_of(c),
{
    assert(a =~= c.subrange(0, a.len() as int)) by {
        assert forall|i: int| 0 <= i < a.len() implies a[i] == c.subrange(0, a.len() as int)[i] by {
            assert(a[i] == b.subrange(0, a.len() as int)[i]);
            assert(b[i] == c.subrange(0, b.len() as int)[i]);
        }
    }
}

/// Carrying out commands only adds to a connection's queue.
pub proof fn lemma_queue_after_extends<M>(conn: Connection, c: Command<M>)
    ensures
        conn.queue().is_prefix_of(queue_after(conn, c)),
{
    let q = conn.queue();
    assert(q =~= q.subrange(0, q.len() as int));
    if !conn.spec_terminal() {
        let q2 = q + tree_writes(c);
        assert(q =~= q2.subrange(0, q.len() as int));
        match first_kill(c) {
            Some(k) => {
                if k.len() > 0 {
                    assert(q =~= q2.push((k, None)).subrange(0, q.len() as int));
                }
            },
            None => {},
        }
    }
}

/// What carrying out the tree `c` for connection `t` does to the timers:
/// other connections' timers stay; a timer id the tree does not mention
/// stays; one it clears last is disarmed; one it arms last is, if armed,
/// due `d` ms after `now`; a killed or closed connection gains no timer.
pub open spec fn timer_effects<M>(
    prev: Map<usize, TimerEntry>,
    next: Map<usize, TimerEntry>,
    t: Token,
    c: Command<M>,
    now: u64,
    terminal: bool,
) -> bool {
    &&& without_owner(next, t) == without_owner(prev, t)
    &&& forall|tid: TimerId, dl: u64|
        #![trigger has_timer(next, t, tid, dl)]
        #![trigger has_timer(prev, t, tid, dl)]
        last_timer_command(c, tid) is None ==> (has_timer(next, t, tid, dl) == has_timer(prev, t, tid, dl))
    &&& forall|tid: TimerId, dl: u64|
        #![trigger has_timer(next, t, tid, dl)]
        last_timer_command(c, tid) == Some(None::<u64>) ==> !has_timer(next, t, tid, dl)
    &&& forall|tid: TimerId, dl: u64|
        #![trigger has_timer(next, t, tid, dl)]
        terminal && has_timer(next, t, tid, dl) ==> has_timer(prev, t, tid, dl)
    &&& forall|tid: TimerId, dl: u64|
        #![trigger has_timer(next, t, tid, dl)]
        !terminal && last_timer_command(c, tid) is Some && last_timer_command(c, tid)->Some_0 is Some
            && has_timer(next, t, tid, dl) ==> dl == crate::timer::deadline_after(
            now,
            last_timer_command(c, tid)->Some_0->Some_0,
        )
}

/// A connection's queue after an optional command tree has been carried
/// out on it.
pub open spec fn queue_after_opt<M>(conn: Connection, cmd: Option<Command<M>>) -> Seq<EntryView> {
    match cmd {
        Some(c) => queue_after(conn, c),
        None => conn.queue(),
    }
}

/// The mailbox messages of an optional command tree.
pub open spec fn outs_opt<M>(cmd: Option<Command<M>>) -> Seq<M> {
    match cmd {
        Some(c) => tree_outs(c),
        None => Seq::empty(),
    }
}

/// Sizes of the reactor's tables and queues.
#[derive(Clone, Copy, PartialEq, Eq, Structural, Debug)]
pub struct ReactorConfig {
    /// Capacity of the cross-thread notify channel.
    pub out_queue_size: usize,
    /// Number of connection slots.
    pub max_connections: usize,
    /// Timer slots per connection or listener slot.
    pub timers_per_connection: usize,
    /// Longest wait for readiness per poll, in ms.
    pub poll_timeout_ms: usize,
}

/// Timer slots for a configuration: one share per connection or listener slot.
pub open spec fn spec_timer_slots(cfg: ReactorConfig) -> int {
    (cfg.max_connections + MAX_LISTENERS) * cfg.timers_per_connection
}

/// Whether the tables of a configuration can be addressed.
pub open spec fn config_fits(cfg: ReactorConfig) -> bool {
    &&& CONNECTION_BASE + cfg.max_connections <= usize::MAX
    &&& spec_timer_slots(cfg) <= usize::MAX
}

impl ReactorConfig {
    /// The defaults: a 524288-message channel, 10240 connections, one timer
    /// per connection, 100 ms polls.
    pub fn defaults() -> (r: ReactorConfig)
        ensures
            r == (ReactorConfig {
                out_queue_size: 524288,
                max_connections: 10240,
                timers_per_connection: 1,
                poll_timeout_ms: 100,
            }),
            config_fits(r),
    {
        ReactorConfig {
            out_queue_size: 524288,
            max_connections: 10240,
            timers_per_connection: 1,
            poll_timeout_ms: 100,
        }
    }

    /// Whether the tables of this configuration can be addressed.
    pub fn fits(&self) -> (r: bool)
        ensures
            r == config_fits(*self),
    {
        if self.max_connections > usize::MAX - CONNECTION_BASE {
            return false;
        }
        let slots = self.max_connections + MAX_LISTENERS;
        if self.timers_per_connection == 0 {
            proof {
                assert(spec_timer_slots(*self) == 0) by (nonlinear_arith)
                    requires
                        self.timers_per_connection == 0,
                        spec_timer_slots(*self) == (self.max_connections + MAX_LISTENERS)
                            * self.timers_per_connection,
                ;
            }
            return true;
        }
        let ok = slots <= usize::MAX / self.timers_per_connection;
        proof {
            let a = slots as int;
            let b = self.timers_per_connection as int;
            let m = usize::MAX as int;
            assert(spec_timer_slots(*self) == a * b);
            assert(a <= m / b ==> a * b <= m) by (nonlinear_arith)
                requires
                    b > 0,
            ;
            assert(a > m / b ==> a * b > m) by (nonlinear_arith)
                requires
                    b > 0,
            ;
        }
        ok
    }

    /// Number of timer slots.
    pub fn timer_slots(&self) -> (r: usize)
        requires
            config_fits(*self),
        ensures
            r == spec_timer_slots(*self),
    {
        (self.max_connections + MAX_LISTENERS) * self.timers_per_connection
    }
}

/// Channel messages handled per turn of the readiness loop.
pub const MESSAGES_PER_TICK: usize = 512;

/// Settings of the readiness loop.
#[derive(Clone, Copy, PartialEq, Eq, Structural, Debug)]
pub struct EventLoopConfig {
    /// Longest wait for readiness per poll, in ms.
    pub io_poll_timeout_ms: usize,
    /// Capacity of the cross-thread notify channel.
    pub notify_capacity: usize,
    /// Channel messages handled per turn.
    pub messages_per_tick: usize,
}

/// The readiness loop's settings for a configuration.
pub fn event_loop_config(cfg: &ReactorConfig) -> (r: EventLoopConfig)
    ensures
        r == (EventLoopConfig {
            io_poll_timeout_ms: cfg.poll_timeout_ms,
            notify_capacity: cfg.out_queue_size,
            messages_per_tick: MESSAGES_PER_TICK,
        }),
{
    EventLoopConfig {
        io_poll_timeout_ms: cfg.poll_timeout_ms,
        notify_capacity: cfg.out_queue_size,
        messages_per_tick: MESSAGES_PER_TICK,
    }
}

/// The reactor's state between readiness events: listener, connection and
/// timer tables, messages waiting for the mailbox, and released tokens
/// whose sockets the caller still has to drop.
///
/// Every event handler runs the protocol callbacks it causes, carries out
/// the commands they return, and releases a connection that closed only once
/// all of that is done.
pub struct ReactorInner<P: Protocol> {
    listeners: Slab<()>,
    conns: Slab<(P, Connection)>,
    timers: TimerTable,
    mailbox: Vec<P::Output>,
    released: Vec<Token>,
    history: Ghost<Map<usize, Seq<Callback>>>,
    retired: Ghost<Seq<Seq<Callback>>>,
}

impl<P: Protocol> ReactorInner<P> {
    /// The live listener tokens.
    pub closed spec fn spec_listeners(&self) -> Set<usize> {
        self.listeners@.dom()
    }

    /// The live connections, by token.
    pub closed spec fn spec_conns(&self) -> Map<usize, Connection> {
        self.conns@.map_values(|e: (P, Connection)| e.1)
    }

    /// The armed timers.
    pub closed spec fn spec_timers(&self) -> Map<usize, crate::timer::TimerEntry> {
        self.timers@
    }

    /// Messages for the mailbox, oldest first.
    pub closed spec fn spec_mailbox(&self) -> Seq<P::Output> {
        self.mailbox@
    }

    /// Connection tokens released and not yet collected, in release order.
    pub closed spec fn spec_released(&self) -> Seq<Token> {
        self.released@
    }

    /// The callbacks each live connection's protocol has had, in order.
    pub closed spec fn spec_history(&self) -> Map<usize, Seq<Callback>> {
        self.history@
    }

    /// The callback histories of the connections that have left, in the
    /// order they left.
    pub closed spec fn spec_retired(&self) -> Seq<Seq<Callback>> {
        self.retired@
    }

    pub closed spec fn spec_max_connections(&self) -> nat {
        self.conns.spec_capacity()
    }

    pub closed spec fn spec_timer_capacity(&self) -> nat {
        self.timers.spec_capacity()
    }

    /// Every connection slot, `CONNECTION_BASE ..` for `max_connections`, is taken.
    pub open spec fn spec_conns_full(&self) -> bool {
        forall|k: usize|
            CONNECTION_BASE <= k < CONNECTION_BASE + self.spec_max_connections() ==> #[trigger] self.spec_conns().contains_key(k)
    }

    /// Every listener slot, `0 .. MAX_LISTENERS`, is taken.
    pub open spec fn spec_listeners_full(&self) -> bool {
        forall|k: usize| k < MAX_LISTENERS ==> #[trigger] self.spec_listeners().contains(k)
    }

    /// Every timer slot, `0 .. timer capacity`, is taken.
    pub open spec fn spec_timers_full(&self) -> bool {
        forall|k: usize| k < self.spec_timer_capacity() ==> #[trigger] self.spec_timers().contains_key(k)
    }

    /// Whether connection `t` is live, past its connect, and not killed:
    /// its protocol still hears callbacks and its commands take effect.
    pub open spec fn spec_open(&self, t: usize) -> bool {
        &&& self.spec_conns().contains_key(t)
        &&& self.spec_conns()[t].spec_status() != ConnectionStatus::Connecting
        &&& !self.spec_conns()[t].spec_killed()
    }

    /// The well-formed state between events includes the state every
    /// handler keeps while it runs.
    pub proof fn lemma_wf_core(&self)
        requires
            self.wf(),
        ensures
            self.wf_core(),
    {
    }

    proof fn lemma_full_views(&self)
        requires
            self.wf_core(),
        ensures
            self.spec_conns_full() == self.conns.is_full(),
            self.spec_listeners_full() == self.listeners.is_full(),
            self.spec_timers_full() == self.timers.spec_full(),
    {
        if self.spec_conns_full() {
            assert forall|k: usize| self.conns.in_range(k) implies #[trigger] self.conns@.contains_key(k) by {
                assert(self.spec_conns().contains_key(k));
            }
        }
        if self.conns.is_full() {
            assert forall|k: usize|
                CONNECTION_BASE <= k < CONNECTION_BASE + self.spec_max_connections() implies #[trigger] self.spec_conns().contains_key(k) by {
                assert(self.conns.in_range(k));
                assert(self.conns@.contains_key(k));
            }
        }
        if self.spec_listeners_full() {
            assert forall|k: usize| self.listeners.in_range(k) implies #[trigger] self.listeners@.contains_key(k) by {
                assert(self.spec_listeners().contains(k));
            }
        }
        if self.listeners.is_full() {
            assert forall|k: usize| k < MAX_LISTENERS implies #[trigger] self.spec_listeners().contains(k) by {
                assert(self.listeners.in_range(k));
            }
        }
        if self.spec_timers_full() {
            assert forall|k: usize| k < self.timers.spec_capacity() implies #[trigger] self.timers@.contains_key(k) by {
                assert(self.spec_timers().contains_key(k));
            }
        }
        if self.timers.spec_full() {
            assert forall|k: usize| k < self.spec_timer_capacity() implies #[trigger] self.spec_timers().contains_key(k) by {
                assert(self.timers@.contains_key(k));
            }
        }
    }

    /// Everything but the rule that no live connection is closed: it holds
    /// while an event is handled.
    pub closed spec fn wf_core(&self) -> bool {
        &&& self.listeners.wf()
        &&& self.listeners.spec_base() == LISTENER_BASE
        &&& self.listeners.spec_capacity() == MAX_LISTENERS
        &&& self.conns.wf()
        &&& self.conns.spec_base() == CONNECTION_BASE
        &&& self.timers.wf()
        &&& forall|t: usize| #[trigger]
            self.conns@.contains_key(t) ==> self.conns@[t].1.spec_token() == Some(Token(t))
        &&& self.history@.dom() == self.conns@.dom()
        &&& forall|t: usize| #[trigger]
            self.conns@.contains_key(t) ==> live_history_ok(self.history@[t]) && (
            self.conns@[t].1.spec_status() == ConnectionStatus::Connecting ==> self.history@[t].len()
                == 0) && (self.history@[t].len() == 0 ==> self.conns@[t].1.spec_status()
                == ConnectionStatus::Connecting || self.conns@[t].1.spec_status()
                == ConnectionStatus::Closed)
        &&& forall|i: int|
            0 <= i < self.retired@.len() ==> retired_history_ok(#[trigger] self.retired@[i])
        &&& forall|k: usize| #[trigger]
            self.timers@.contains_key(k) ==> self.conns@.contains_key(self.timers@[k].owner.0)
                && self.conns@[self.timers@[k].owner.0].1.spec_status()
                != ConnectionStatus::Connecting
    }

    pub closed spec fn none_closed_but(&self, t: usize) -> bool {
        forall|k: usize| #[trigger]
            self.conns@.contains_key(k) && k != t ==> self.conns@[k].1.spec_status()
                != ConnectionStatus::Closed
    }

    /// The state between events: a connection that closes is released
    /// before the event that closed it returns.
    pub closed spec fn wf(&self) -> bool {
        &&& self.wf_core()
        &&& forall|k: usize| #[trigger]
            self.conns@.contains_key(k) ==> self.conns@[k].1.spec_status()
                != ConnectionStatus::Closed
    }

    /// What every event handler keeps: the state stays well formed, no
    /// listener changes, mailbox messages and retired histories are only
    /// added behind those already there, and the only connection that may
    /// leave is the one the event is about.
    pub open spec fn event_frame(&self, next: Self, t: usize) -> bool {
        &&& next.wf()
        &&& next.spec_listeners() == self.spec_listeners()
        &&& next.spec_max_connections() == self.spec_max_connections()
        &&& self.spec_mailbox().is_prefix_of(next.spec_mailbox())
        &&& self.spec_retired().is_prefix_of(next.spec_retired())
        &&& self.spec_released().is_prefix_of(next.spec_released())
        &&& next.spec_conns().dom() == self.spec_conns().dom() || next.spec_conns().dom()
            == self.spec_conns().dom().remove(t)
        &&& forall|k: usize| #[trigger]
            self.spec_conns().contains_key(k) && k != t ==> next.spec_conns()[k]
                == self.spec_conns()[k] && next.spec_history()[k] == self.spec_history()[k]
    }

    /// Every view of the two states is the same.
    pub open spec fn same_views(&self, other: Self) -> bool {
        &&& other.spec_listeners() == self.spec_listeners()
        &&& other.spec_conns() == self.spec_conns()
        &&& other.spec_timers() == self.spec_timers()
        &&& other.spec_mailbox() == self.spec_mailbox()
        &&& other.spec_released() == self.spec_released()
        &&& other.spec_history() == self.spec_history()
        &&& other.spec_retired() == self.spec_retired()
        &&& other.spec_max_connections() == self.spec_max_connections()
        &&& other.spec_timer_capacity() == self.spec_timer_capacity()
    }

    /// Empty tables sized by `cfg`.
    pub fn new(cfg: ReactorConfig) -> (r: Self)
        requires
            config_fits(cfg),
        ensures
            r.wf(),
            r.spec_listeners() == Set::<usize>::empty(),
            r.spec_conns() == Map::<usize, Connection>::empty(),
            r.spec_timers() == Map::<usize, crate::timer::TimerEntry>::empty(),
            r.spec_mailbox() == Seq::<P::Output>::empty(),
            r.spec_released() == Seq::<Token>::empty(),
            r.spec_retired() == Seq::<Seq<Callback>>::empty(),
            r.spec_max_connections() == cfg.max_connections,
            r.spec_timer_capacity() == spec_timer_slots(cfg),
    {
        let r = ReactorInner {
            listeners: Slab::new_starting_at(Token(LISTENER_BASE), MAX_LISTENERS),
            conns: Slab::new_starting_at(Token(CONNECTION_BASE), cfg.max_connections),
            timers: TimerTable::new(cfg.timer_slots()),
            mailbox: Vec::new(),
            released: Vec::new(),
            history: Ghost(Map::empty()),
            retired: Ghost(Seq::empty()),
        };
        proof {
            assert(r.history@.dom() =~= r.conns@.dom());
            assert(r.spec_conns() =~= Map::<usize, Connection>::empty());
        }
        r
    }

    /// Takes a listener slot for a socket the caller has bound.
    pub fn add_listener(&mut self) -> (r: Result<Token, ReactorError>)
        requires
            old(self).wf(),
        ensures
            final(self).wf(),
            r is Err <==> old(self).spec_listeners_full(),
            match r {
                Ok(t) => {
                    &&& !old(self).spec_listeners().contains(t.0)
                    &&& t.0 < MAX_LISTENERS
                    &&& final(self).spec_listeners() == old(self).spec_listeners().insert(t.0)
                },
                Err(e) => e == ReactorError::CapacityExceeded && final(self).spec_listeners()
                    == old(self).spec_listeners(),
            },
            final(self).spec_conns() == old(self).spec_conns(),
            final(self).spec_mailbox() == old(self).spec_mailbox(),
            final(self).spec_released() == old(self).spec_released(),
            final(self).spec_retired() == old(self).spec_retired(),
            final(self).spec_timers() == old(self).spec_timers(),
            final(self).spec_timer_capacity() == old(self).spec_timer_capacity(),
    {
        proof {
            self.lemma_full_views();
        }
        match self.listeners.insert(()) {
            Ok(t) => Ok(t),
            Err(_) => Err(ReactorError::CapacityExceeded),
        }
    }

    /// Whether `t` is a live listener.
    pub fn is_listener(&self, t: Token) -> (r: bool)
        requires
            self.wf(),
        ensures
            r == self.spec_listeners().contains(t.0),
    {
        self.listeners.contains(t)
    }

    /// Whether `t` is a live connection.
    pub fn is_connection(&self, t: Token) -> (r: bool)
        requires
            self.wf(),
        ensures
            r == self.spec_conns().contains_key(t.0),
    {
        self.conns.contains(t)
    }

    /// Takes a connection slot for an outbound socket whose connect is in
    /// progress; `proto` will serve it.
    pub fn connect(&mut self, proto: P) -> (r: Result<Token, ReactorError>)
        requires
            old(self).wf(),
        ensures
            final(self).wf(),
            r is Err <==> old(self).spec_conns_full(),
            match r {
                Ok(t) => {
                    &&& !old(self).spec_conns().contains_key(t.0)
                    &&& CONNECTION_BASE <= t.0 < CONNECTION_BASE + old(self).spec_max_connections()
                    &&& final(self).spec_conns().dom() == old(self).spec_conns().dom().insert(t.0)
                    &&& final(self).spec_conns()[t.0].spec_status() == ConnectionStatus::Connecting
                    &&& final(self).spec_conns()[t.0].queue().len() == 0
                    &&& final(self).spec_conns()[t.0].spec_token() == Some(t)
                    &&& forall|k: usize| #[trigger]
                        old(self).spec_conns().contains_key(k) ==> final(self).spec_conns()[k]
                            == old(self).spec_conns()[k]
                },
                Err(e) => e == ReactorError::CapacityExceeded && final(self).spec_conns()
                    == old(self).spec_conns(),
            },
            final(self).spec_listeners() == old(self).spec_listeners(),
            final(self).spec_max_connections() == old(self).spec_max_connections(),
            final(self).spec_mailbox() == old(self).spec_mailbox(),
            final(self).spec_released() == old(self).spec_released(),
            final(self).spec_retired() == old(self).spec_retired(),
            final(self).spec_timers() == old(self).spec_timers(),
            final(self).spec_timer_capacity() == old(self).spec_timer_capacity(),
    {
        proof {
            self.lemma_full_views();
        }
        match self.conns.insert((proto, Connection::new())) {
            Ok(t) => {
                let entry = self.conns.get_mut(t).unwrap();
                entry.1.set_token(t);
                proof {
                    self.history@ = self.history@.insert(t.0, Seq::empty());
                    assert(self.history@.dom() =~= self.conns@.dom());
                    assert(self.spec_conns().dom() =~= old(self).spec_conns().dom().insert(t.0));
                }
                Ok(t)
            },
            Err(_) => {
                proof {
                    assert(self.spec_conns() =~= old(self).spec_conns());
                }
                Err(ReactorError::CapacityExceeded)
            },
        }
    }

    /// Carries out the simple commands of `c` for connection `t`, depth
    /// first and left to right; the first kill is kept in `kill` for the end.
    fn run_tree(&mut self, t: Token, c: Command<P::Output>, kill: &mut Option<OutBuf>, now: u64)
        requires
            old(self).wf_core(),
            old(self).conns@.contains_key(t.0),
            old(self).conns@[t.0].1.spec_status() != ConnectionStatus::Connecting,
        ensures
            final(self).timers.spec_capacity() == old(self).timers.spec_capacity(),
            final(self).wf_core(),
            final(self).conns@.dom() == old(self).conns@.dom(),
            final(self).conns.spec_capacity() == old(self).conns.spec_capacity(),
            forall|k: usize| #[trigger]
                old(self).conns@.contains_key(k) && k != t.0 ==> final(self).conns@[k].1 == old(
                    self,
                ).conns@[k].1,
            final(self).conns@[t.0].1.spec_status() == old(self).conns@[t.0].1.spec_status(),
            final(self).conns@[t.0].1.spec_killed() == old(self).conns@[t.0].1.spec_killed(),
            final(self).conns@[t.0].1.queue() == (if old(self).conns@[t.0].1.spec_terminal() {
                old(self).conns@[t.0].1.queue()
            } else {
                old(self).conns@[t.0].1.queue() + tree_writes(c)
            }),
            final(self).mailbox@ == old(self).mailbox@ + tree_outs(c),
            opt_bytes(*final(kill)) == (if *old(kill) is Some {
                opt_bytes(*old(kill))
            } else {
                first_kill(c)
            }),
            final(self).history@ == old(self).history@,
            final(self).retired@ == old(self).retired@,
            final(self).released@ == old(self).released@,
            final(self).listeners@ == old(self).listeners@,
            final(self).listeners.wf(),
            timers_kept_or_fresh(old(self).timers@, final(self).timers@, now),
            timer_effects(old(self).timers@, final(self).timers@, t, c, now, old(self).conns@[t.0].1.spec_terminal()),
            match c {
                Command::Timer(d, tid) => !old(self).conns@[t.0].1.spec_terminal() ==> (has_timer(
                    final(self).timers@,
                    t,
                    tid,
                    crate::timer::deadline_after(now, d),
                ) <==> (old(self).timers.is_armed(t, tid) || !old(self).timers.spec_full())),
                _ => true,
            },
        decreases c,
    {
        match c {
            Command::Cons(a, b) => {
                let ghost s0 = *self;
                self.run_tree(t, *a, kill, now);
                let ghost s1 = *self;
                self.run_tree(t, *b, kill, now);
                proof {
                    let p = s0.timers@;
                    let m = s1.timers@;
                    let n = self.timers@;
                    let term = s0.conns@[t.0].1.spec_terminal();
                    assert forall|tid: TimerId, dl: u64|
                        #![trigger has_timer(n, t, tid, dl)]
                        #![trigger has_timer(p, t, tid, dl)]
                        last_timer_command(c, tid) is None implies (has_timer(n, t, tid, dl) == has_timer(p, t, tid, dl)) by {
                        assert(last_timer_command(*b, tid) is None && last_timer_command(*a, tid) is None);
                        assert(has_timer(n, t, tid, dl) == has_timer(m, t, tid, dl));
                        assert(has_timer(m, t, tid, dl) == has_timer(p, t, tid, dl));
                    }
                    assert forall|tid: TimerId, dl: u64|
                        #![trigger has_timer(n, t, tid, dl)]
                        last_timer_command(c, tid) == Some(None::<u64>) implies !has_timer(n, t, tid, dl) by {
                        if last_timer_command(*b, tid) is None {
                            assert(has_timer(n, t, tid, dl) == has_timer(m, t, tid, dl));
                            assert(!has_timer(m, t, tid, dl));
                        }
                    }
                    assert forall|tid: TimerId, dl: u64|
                        #![trigger has_timer(n, t, tid, dl)]
                        term && has_timer(n, t, tid, dl) implies has_timer(p, t, tid, dl) by {
                        assert(has_timer(m, t, tid, dl));
                    }
                    assert forall|tid: TimerId, dl: u64|
                        #![trigger has_timer(n, t, tid, dl)]
                        !term && last_timer_command(c, tid) is Some && last_timer_command(c, tid)->Some_0 is Some
                            && has_timer(n, t, tid, dl) implies dl == crate::timer::deadline_after(
                            now,
                            last_timer_command(c, tid)->Some_0->Some_0,
                        ) by {
                        if last_timer_command(*b, tid) is None {
                            assert(has_timer(n, t, tid, dl) == has_timer(m, t, tid, dl));
                            assert(has_timer(m, t, tid, dl));
                        }
                    }
                    assert(self.mailbox@ =~= s0.mailbox@ + tree_outs(c));
                    if !s0.conns@[t.0].1.spec_terminal() {
                        assert(self.conns@[t.0].1.queue() =~= s0.conns@[t.0].1.queue()
                            + tree_writes(c));
                    }
                }
            },
            Command::Write(b, m) => {
                let ghost bv = b@;
                let entry = self.conns.get_mut(t).unwrap();
                let _ = entry.1.enqueue(b, Some(m));
                proof {
                    assert(self.conns@.dom() =~= old(self).conns@.dom());
                    assert(self.mailbox@ =~= old(self).mailbox@ + tree_outs(c));
                    assert(tree_writes(c) =~= seq![(bv, Some(m))]);
                }
            },
            Command::Timer(delay, tid) => {
                let open = match self.conns.get(t) {
                    Some(e) => !e.1.is_killed() && e.1.status() != ConnectionStatus::Closed,
                    None => false,
                };
                if open {
                    let r = self.timers.arm(t, tid, delay, now);
                    proof {
                        let p = old(self).timers@;
                        let dl0 = crate::timer::deadline_after(now, delay);
                        match r {
                            Ok(k) => {
                                assert forall|x: TimerId, dl: u64| #[trigger] has_timer(self.timers@, t, x, dl)
                                    == (if x == tid {
                                    dl == dl0
                                } else {
                                    has_timer(p, t, x, dl)
                                }) by {
                                    lemma_has_timer_after_arm(p, k.0, t, tid, dl0, t, x, dl);
                                }
                                lemma_has_timer_after_arm(p, k.0, t, tid, dl0, t, tid, dl0);
                            },
                            Err(_) => {
                                assert forall|dl: u64| !has_timer(p, t, tid, dl) by {
                                    if has_timer(p, t, tid, dl) {
                                        let j = choose|j: usize| #[trigger] p.contains_key(j) && p[j] == (TimerEntry { owner: t, tid, deadline: dl });
                                        assert(old(self).timers.is_armed(t, tid));
                                    }
                                }
                            },
                        }
                    }
                }
                proof {
                    assert(self.mailbox@ =~= old(self).mailbox@ + tree_outs(c));
                    assert(old(self).conns@[t.0].1.queue() + tree_writes(c) =~= old(
                        self,
                    ).conns@[t.0].1.queue());
                }
            },
            Command::Clear(tid) => {
                self.timers.clear(t, tid);
                proof {
                    let p = old(self).timers@;
                    assert forall|x: TimerId, dl: u64| #[trigger] has_timer(self.timers@, t, x, dl)
                        == (!(x == tid) && has_timer(p, t, x, dl)) by {
                        lemma_has_timer_after_clear(p, t, tid, t, x, dl);
                    }
                    lemma_has_timer_after_clear(p, t, tid, t, tid, 0);
                    assert(self.mailbox@ =~= old(self).mailbox@ + tree_outs(c));
                    assert(old(self).conns@[t.0].1.queue() + tree_writes(c) =~= old(
                        self,
                    ).conns@[t.0].1.queue());
                }
            },
            Command::Kill(b) => {
                if kill.is_none() {
                    *kill = Some(b);
                }
                proof {
                    assert(self.mailbox@ =~= old(self).mailbox@ + tree_outs(c));
                    assert(old(self).conns@[t.0].1.queue() + tree_writes(c) =~= old(
                        self,
                    ).conns@[t.0].1.queue());
                }
            },
            Command::Out(m) => {
                self.mailbox.push(m);
                proof {
                    assert(self.mailbox@ =~= old(self).mailbox@ + tree_outs(c));
                    assert(old(self).conns@[t.0].1.queue() + tree_writes(c) =~= old(
                        self,
                    ).conns@[t.0].1.queue());
                }
            },
        }
    }

    /// Carries out a callback's commands for connection `t`.
    fn apply(&mut self, t: Token, cmd: Option<Command<P::Output>>, now: u64)
        requires
            old(self).wf_core(),
            old(self).conns@.contains_key(t.0),
            old(self).conns@[t.0].1.spec_status() != ConnectionStatus::Connecting,
        ensures
            final(self).conns@[t.0].1.queue().len() > 0 ==> final(self).conns@[t.0].1.spec_status()
                == old(self).conns@[t.0].1.spec_status(),
            match cmd {
                Some(c) => {
                    &&& final(self).conns@[t.0].1.queue() == queue_after(old(self).conns@[t.0].1, c)
                    &&& timer_effects(old(self).timers@, final(self).timers@, t, c, now, old(self).conns@[t.0].1.spec_terminal())
                    &&& final(self).conns@[t.0].1.spec_status() == (if !old(self).conns@[t.0].1.spec_terminal()
                        && first_kill(c) is Some && queue_after(old(self).conns@[t.0].1, c).len() == 0 {
                        ConnectionStatus::Closed
                    } else {
                        old(self).conns@[t.0].1.spec_status()
                    })
                },
                None => {
                    &&& final(self).conns@[t.0].1.queue() == old(self).conns@[t.0].1.queue()
                    &&& final(self).timers@ == old(self).timers@
                },
            },
            old(self).conns@[t.0].1.spec_killed() ==> final(self).conns@[t.0].1.spec_killed(),
            final(self).timers.spec_capacity() == old(self).timers.spec_capacity(),
            final(self).wf_core(),
            final(self).conns@.dom() == old(self).conns@.dom(),
            final(self).conns.spec_capacity() == old(self).conns.spec_capacity(),
            forall|k: usize| #[trigger]
                old(self).conns@.contains_key(k) && k != t.0 ==> final(self).conns@[k].1 == old(
                    self,
                ).conns@[k].1,
            final(self).conns@[t.0].1.spec_status() != ConnectionStatus::Connecting,
            final(self).conns@[t.0].1.spec_status() == old(self).conns@[t.0].1.spec_status()
                || final(self).conns@[t.0].1.spec_status() == ConnectionStatus::Closed,
            match cmd {
                Some(c) => {
                    &&& final(self).conns@[t.0].1.queue() == queue_after(old(self).conns@[t.0].1, c)
                    &&& final(self).mailbox@ == old(self).mailbox@ + tree_outs(c)
                },
                None => {
                    &&& final(self).conns@[t.0].1 == old(self).conns@[t.0].1
                    &&& final(self).mailbox@ == old(self).mailbox@
                },
            },
            final(self).history@ == old(self).history@,
            final(self).retired@ == old(self).retired@,
            final(self).released@ == old(self).released@,
            final(self).listeners@ == old(self).listeners@,
            timers_kept_or_fresh(old(self).timers@, final(self).timers@, now),
    {
        match cmd {
            None => {},
            Some(c) => {
                let ghost s0 = *self;
                let mut kill: Option<OutBuf> = None;
                self.run_tree(t, c, &mut kill, now);
                match kill {
                    Some(b) => {
                        let entry = self.conns.get_mut(t).unwrap();
                        entry.1.kill(b);
                        proof {
                            assert(self.conns@.dom() =~= s0.conns@.dom());
                        }
                    },
                    None => {},
                }
                proof {
                    if !s0.conns@[t.0].1.spec_terminal() {
                        assert(self.conns@[t.0].1.queue() == queue_after(s0.conns@[t.0].1, c));
                    }
                }
            },
        }
    }

    /// Carries out `cmd`, the commands a callback of connection `t`
    /// returned, depth first and left to right, then releases `t` if they
    /// closed it. Writes are queued behind everything queued, the first kill's
    /// bytes last; timers are armed and cleared; messages go to the mailbox.
    pub fn carry_out(&mut self, t: Token, cmd: Option<Command<P::Output>>, now: u64)
        requires
            old(self).wf(),
            old(self).spec_conns().contains_key(t.0),
            old(self).spec_conns()[t.0].spec_status() != ConnectionStatus::Connecting,
        ensures
            old(self).event_frame(*final(self), t.0),
            final(self).spec_timer_capacity() == old(self).spec_timer_capacity(),
            timers_kept_or_fresh(old(self).spec_timers(), final(self).spec_timers(), now),
            old(self).spec_conns()[t.0].spec_killed() && final(self).spec_conns().contains_key(t.0)
                ==> final(self).spec_conns()[t.0].spec_killed(),
            match cmd {
                Some(c) => {
                    let conn = old(self).spec_conns()[t.0];
                    let q = queue_after(conn, c);
                    let closes = !conn.spec_terminal() && first_kill(c) is Some && q.len() == 0;
                    &&& final(self).spec_conns().contains_key(t.0) == !closes
                    &&& (old(self).spec_mailbox() + tree_outs(c)).is_prefix_of(final(self).spec_mailbox())
                    &&& !closes ==> {
                        &&& final(self).spec_conns()[t.0].queue() == q
                        &&& final(self).spec_conns()[t.0].spec_status() == conn.spec_status()
                        &&& final(self).spec_mailbox() == old(self).spec_mailbox() + tree_outs(c)
                        &&& final(self).spec_history() == old(self).spec_history()
                        &&& final(self).spec_released() == old(self).spec_released()
                        &&& final(self).spec_retired() == old(self).spec_retired()
                        &&& timer_effects(old(self).spec_timers(), final(self).spec_timers(), t, c, now, conn.spec_terminal())
                    }
                    &&& closes ==> {
                        &&& final(self).spec_released() == old(self).spec_released().push(t)
                        &&& final(self).spec_retired() == old(self).spec_retired().push(
                            old(self).spec_history()[t.0].push(Callback::Disconnect),
                        )
                        &&& forall|k: usize| #[trigger] final(self).spec_timers().contains_key(k)
                            ==> final(self).spec_timers()[k].owner != t
                    }
                },
                None => final(self).same_views(*old(self)),
            },
    {
        let ghost gcmd = cmd;
        self.apply(t, cmd, now);
        let ghost s1 = *self;
        self.release_if_closed(t);
        proof {
            assert(self.spec_conns().dom() =~= old(self).spec_conns().dom() || self.spec_conns().dom()
                =~= old(self).spec_conns().dom().remove(t.0));
            assert(old(self).spec_retired().is_prefix_of(self.spec_retired()));
            assert(old(self).spec_released().is_prefix_of(self.spec_released()));
            match gcmd {
                Some(c) => {
                    assert((old(self).spec_mailbox() + tree_outs(c)).is_prefix_of(self.spec_mailbox()));
                    if self.conns@.contains_key(t.0) {
                        assert(self.spec_timers() == s1.timers@);
                    } else {
                        assert forall|k: usize| #[trigger] self.spec_timers().contains_key(k)
                            implies self.spec_timers()[k].owner != t by {
                            assert(s1.timers@.contains_key(k));
                            assert(self.timers@[k].owner.0 != t.0);
                        }
                    }
                },
                None => {
                    assert(self.spec_conns() =~= old(self).spec_conns());
                },
            }
        }
    }

    /// Hands the mailbox messages of `c` on, ignoring the rest: the
    /// connection it came from has already left.
    fn deliver_outs(&mut self, c: Command<P::Output>)
        ensures
            final(self).mailbox@ == old(self).mailbox@ + tree_outs(c),
            final(self).listeners == old(self).listeners,
            final(self).conns == old(self).conns,
            final(self).timers == old(self).timers,
            final(self).released == old(self).released,
            final(self).history == old(self).history,
            final(self).retired == old(self).retired,
        decreases c,
    {
        match c {
            Command::Cons(a, b) => {
                let ghost m0 = self.mailbox@;
                self.deliver_outs(*a);
                self.deliver_outs(*b);
                proof {
                    assert(self.mailbox@ =~= m0 + tree_outs(c));
                }
            },
            Command::Out(m) => {
                self.mailbox.push(m);
                proof {
                    assert(self.mailbox@ =~= old(self).mailbox@ + tree_outs(c));
                }
            },
            _ => {
                proof {
                    assert(self.mailbox@ =~= old(self).mailbox@ + tree_outs(c));
                }
            },
        }
    }

    /// Releases connection `t` if it has closed: its timers are cleared,
    /// its slot freed, and its protocol hears `on_disconnect`, last.
    fn release_if_closed(&mut self, t: Token)
        requires
            old(self).wf_core(),
            old(self).none_closed_but(t.0),
        ensures
            final(self).timers.spec_capacity() == old(self).timers.spec_capacity(),
            final(self).wf(),
            final(self).listeners@ == old(self).listeners@,
            final(self).conns.spec_capacity() == old(self).conns.spec_capacity(),
            old(self).mailbox@.is_prefix_of(final(self).mailbox@),
            forall|k: usize| #[trigger]
                final(self).timers@.contains_key(k) ==> old(self).timers@.contains_key(k)
                    && final(self).timers@[k] == old(self).timers@[k],
            if old(self).conns@.contains_key(t.0) && old(self).conns@[t.0].1.spec_status()
                == ConnectionStatus::Closed {
                &&& final(self).conns@.dom() == old(self).conns@.dom().remove(t.0)
                &&& forall|k: usize| #[trigger]
                    final(self).conns@.contains_key(k) ==> final(self).conns@[k].1 == old(
                        self,
                    ).conns@[k].1
                &&& final(self).released@ == old(self).released@.push(t)
                &&& final(self).retired@ == old(self).retired@.push(
                    old(self).history@[t.0].push(Callback::Disconnect),
                )
                &&& final(self).history@ == old(self).history@.remove(t.0)
            } else {
                *final(self) == *old(self)
            },
    {
        let closed = match self.conns.get(t) {
            Some(e) => e.1.status() == ConnectionStatus::Closed,
            None => false,
        };
        if !closed {
            return ;
        }
        self.timers.clear_owned_by(t);
        let (mut proto, _conn) = self.conns.remove(t).unwrap();
        proof {
            let h = self.history@[t.0];
            self.history@ = self.history@.remove(t.0);
            self.retired@ = self.retired@.push(h.push(Callback::Disconnect));
            assert(self.history@.dom() =~= self.conns@.dom());
            assert(h.push(Callback::Disconnect).drop_last() =~= h);
            assert forall|i: int| 0 <= i < self.retired@.len() implies retired_history_ok(
                #[trigger] self.retired@[i],
            ) by {
                if i < old(self).retired@.len() {
                    assert(self.retired@[i] == old(self).retired@[i]);
                }
            }
        }
        self.released.push(t);
        let cmd = proto.on_disconnect(t);
        match cmd {
            Some(c) => self.deliver_outs(c),
            None => {},
        }
        proof {
            assert(old(self).mailbox@.is_prefix_of(self.mailbox@));
        }
    }

    /// Completes the outbound connect of `t` if it is in progress: the
    /// connection is established and its protocol hears `on_connect`.
    fn open_if_connecting(&mut self, t: Token, now: u64)
        requires
            old(self).wf_core(),
            old(self).none_closed_but(t.0),
            old(self).conns@.contains_key(t.0),
            old(self).conns@[t.0].1.spec_status() != ConnectionStatus::Closed,
        ensures
            final(self).wf_core(),
            final(self).none_closed_but(t.0),
            final(self).history@[t.0].len() > 0,
            old(self).conns@[t.0].1.spec_status() != ConnectionStatus::Connecting ==> *final(self)
                == *old(self),
            old(self).conns@[t.0].1.spec_status() == ConnectionStatus::Connecting ==> final(self).history@[t.0]
                == seq![Callback::Connect],
            forall|k: usize| #[trigger]
                old(self).conns@.contains_key(k) && k != t.0 ==> final(self).conns@[k].1 == old(
                    self,
                ).conns@[k].1 && final(self).history@[k] == old(self).history@[k],
            final(self).conns@.dom() == old(self).conns@.dom(),
            final(self).conns@[t.0].1.spec_status() != ConnectionStatus::Connecting,
            final(self).conns.spec_capacity() == old(self).conns.spec_capacity(),
            final(self).listeners@ == old(self).listeners@,
            final(self).released@ == old(self).released@,
            final(self).retired@ == old(self).retired@,
            old(self).mailbox@.is_prefix_of(final(self).mailbox@),
    {
        let connecting = self.conns.get(t).unwrap().1.status() == ConnectionStatus::Connecting;
        if connecting {
            let entry = self.conns.get_mut(t).unwrap();
            entry.1.establish();
            let cmd = entry.0.on_connect(t);
            proof {
                self.history@ = self.history@.insert(t.0, seq![Callback::Connect]);
                assert(self.history@.dom() =~= self.conns@.dom());
                assert(self.conns@.dom() =~= old(self).conns@.dom());
            }
            self.apply(t, cmd, now);
            proof {
                assert(old(self).mailbox@.is_prefix_of(self.mailbox@));
            }
        } else {
            proof {
                assert(old(self).mailbox@.is_prefix_of(self.mailbox@));
            }
        }
    }

    /// Connection `t` (a live one) is readable: an outbound connect in
    /// progress completes first; then `data`, the bytes read, goes to the
    /// protocol unless the connection is killed; then a hangup closes the
    /// connection, or half-closes it while bytes are queued.
    pub fn readable(&mut self, t: Token, data: &[u8], hup: bool, now: u64)
        requires
            old(self).wf(),
        ensures
            old(self).event_frame(*final(self), t.0),
            !old(self).spec_conns().contains_key(t.0) ==> *final(self) == *old(self),
            old(self).spec_conns().contains_key(t.0) ==> {
                let c = old(self).spec_conns()[t.0];
                let live = final(self).spec_conns().contains_key(t.0);
                &&& c.spec_status() != ConnectionStatus::Connecting ==> {
                    let h = old(self).spec_history()[t.0] + (if data@.len() > 0
                        && !c.spec_killed() {
                        seq![Callback::Data]
                    } else {
                        Seq::<Callback>::empty()
                    });
                    if live {
                        final(self).spec_history()[t.0] == h
                    } else {
                        final(self).spec_retired() == old(self).spec_retired().push(
                            h.push(Callback::Disconnect),
                        )
                    }
                }
                &&& c.spec_status() == ConnectionStatus::Connecting && live ==> final(self).spec_history()[t.0][0] == Callback::Connect
                &&& live ==> final(self).spec_conns()[t.0].spec_status()
                    != ConnectionStatus::Connecting
                &&& hup && live ==> final(self).spec_conns()[t.0].spec_status()
                    == ConnectionStatus::HalfClosed && final(self).spec_conns()[t.0].queue().len()
                    > 0
                &&& !hup && live && c.spec_status() != ConnectionStatus::Connecting ==> final(self).spec_conns()[t.0].spec_status() == c.spec_status()
            },
            old(self).spec_conns().contains_key(t.0) && old(self).spec_conns()[t.0].spec_status()
                != ConnectionStatus::Connecting ==> {
                let c = old(self).spec_conns()[t.0];
                let live = final(self).spec_conns().contains_key(t.0);
                &&& live ==> c.queue().is_prefix_of(final(self).spec_conns()[t.0].queue())
                &&& hup && c.queue().len() > 0 ==> live && final(self).spec_conns()[t.0].spec_status()
                    == ConnectionStatus::HalfClosed
                &&& data@.len() > 0 && !c.spec_killed() && !hup && live ==> exists|cmd: Option<
                    Command<P::Output>,
                >|
                    #![trigger queue_after_opt(c, cmd)]
                    final(self).spec_conns()[t.0].queue() == queue_after_opt(c, cmd)
                        && final(self).spec_mailbox() == old(self).spec_mailbox() + outs_opt(cmd)
                &&& (data@.len() == 0 || c.spec_killed()) ==> {
                    &&& !hup ==> final(self).same_views(*old(self))
                    &&& hup ==> (live <==> c.queue().len() > 0)
                    &&& hup && live ==> final(self).spec_conns()[t.0].queue() == c.queue()
                    &&& hup && !live ==> final(self).spec_released() == old(self).spec_released().push(t)
                }
            },
    {
        if !self.conns.contains(t) {
            return ;
        }
        self.open_if_connecting(t, now);
        let open = {
            let e = self.conns.get(t).unwrap();
            !e.1.is_killed() && e.1.status() != ConnectionStatus::Closed
        };
        if open && data.len() > 0 {
            let ghost s1 = *self;
            let entry = self.conns.get_mut(t).unwrap();
            let cmd = entry.0.on_data(data);
            proof {
                assert(self.conns@.dom() =~= s1.conns@.dom());
                let h = self.history@[t.0];
                lemma_history_grows(h, Callback::Data);
                self.history@ = self.history@.insert(t.0, h.push(Callback::Data));
                assert(self.history@.dom() =~= self.conns@.dom());
            }
            let ghost gcmd = cmd;
            let ghost c0 = self.conns@[t.0].1;
            let ghost m0 = self.mailbox@;
            self.apply(t, cmd, now);
            proof {
                match gcmd {
                    Some(c) => {
                        lemma_queue_after_extends(c0, c);
                    },
                    None => {
                        assert(m0 + outs_opt(gcmd) =~= m0);
                    },
                }
                assert(self.conns@[t.0].1.queue() == queue_after_opt(c0, gcmd));
                assert(self.mailbox@ == m0 + outs_opt(gcmd));
            }
        }
        let ghost s_mid = *self;
        proof {
            let c = old(self).conns@[t.0].1;
            if c.spec_status() != ConnectionStatus::Connecting {
                assert(c.queue() =~= c.queue().subrange(0, c.queue().len() as int));
                assert(c.queue().is_prefix_of(s_mid.conns@[t.0].1.queue()));
            }
        }
        if hup {
            let ghost s2 = *self;
            let entry = self.conns.get_mut(t).unwrap();
            entry.1.hangup();
            proof {
                assert(self.conns@.dom() =~= s2.conns@.dom());
            }
        }
        proof {
            let c = old(self).conns@[t.0].1;
            if c.spec_status() != ConnectionStatus::Connecting {
                let h = old(self).history@[t.0] + (if data@.len() > 0 && !c.spec_killed() {
                    seq![Callback::Data]
                } else {
                    Seq::<Callback>::empty()
                });
                assert(self.history@[t.0] =~= h);
            } else {
                assert(self.history@[t.0][0] == Callback::Connect);
            }
        }
        self.release_if_closed(t);
        proof {
            assert(self.spec_conns().dom() =~= old(self).spec_conns().dom() || self.spec_conns().dom()
                =~= old(self).spec_conns().dom().remove(t.0));
            assert(old(self).spec_retired().is_prefix_of(self.spec_retired()));
            assert(old(self).spec_released().is_prefix_of(self.spec_released()));
        }
    }

    /// The socket of connection `t` took `n` bytes from the front of its
    /// queue (a writable socket of an outbound connect in progress completes
    /// it first). Wholly sent writes leave the queue and the protocol hears
    /// `on_sent` for each, in queue order; a killed or half-closed connection
    /// whose queue runs empty closes.
    pub fn written(&mut self, t: Token, n: usize, now: u64)
        requires
            old(self).wf(),
        ensures
            old(self).event_frame(*final(self), t.0),
            !old(self).spec_conns().contains_key(t.0) ==> *final(self) == *old(self),
            old(self).spec_conns().contains_key(t.0) && old(self).spec_conns()[t.0].spec_status()
                != ConnectionStatus::Connecting ==> {
                let h = old(self).spec_history()[t.0] + sent_callbacks(
                    sent_ids(old(self).spec_conns()[t.0].queue(), n as nat),
                );
                if final(self).spec_conns().contains_key(t.0) {
                    final(self).spec_history()[t.0] == h
                } else {
                    final(self).spec_retired() == old(self).spec_retired().push(
                        h.push(Callback::Disconnect),
                    )
                }
            },
            old(self).spec_conns().contains_key(t.0) && old(self).spec_conns()[t.0].spec_status()
                != ConnectionStatus::Connecting ==> {
                let c = old(self).spec_conns()[t.0];
                let d = drained(c.queue(), n as nat);
                let live = final(self).spec_conns().contains_key(t.0);
                &&& live ==> d.is_prefix_of(final(self).spec_conns()[t.0].queue())
                &&& sent_ids(c.queue(), n as nat).len() == 0 ==> {
                    &&& live <==> !(d.len() == 0 && (c.spec_killed() || c.spec_status()
                        == ConnectionStatus::HalfClosed))
                    &&& live ==> final(self).spec_conns()[t.0].queue() == d && final(
                        self).spec_conns()[t.0].spec_status() == c.spec_status()
                        && final(self).spec_conns()[t.0].spec_killed() == c.spec_killed()
                    &&& !live ==> final(self).spec_released() == old(self).spec_released().push(t)
                    &&& live ==> final(self).spec_mailbox() == old(self).spec_mailbox()
                }
            },
    {
        if !self.conns.contains(t) {
            return ;
        }
        self.open_if_connecting(t, now);
        let ghost s1 = *self;
        let entry = self.conns.get_mut(t).unwrap();
        let ids = entry.1.drain_write_queue_to_socket(n);
        proof {
            assert(self.conns@.dom() =~= s1.conns@.dom());
        }
        let ghost s2 = *self;
        let mut i: usize = 0;
        while i < ids.len()
            invariant
                self.wf_core(),
                self.none_closed_but(t.0),
                self.conns@.dom() == s2.conns@.dom(),
                self.conns@.contains_key(t.0),
                self.conns@[t.0].1.spec_status() != ConnectionStatus::Connecting,
                self.history@[t.0].len() > 0,
                self.conns.spec_capacity() == old(self).conns.spec_capacity(),
                self.listeners@ == old(self).listeners@,
                self.released@ == old(self).released@,
                self.retired@ == old(self).retired@,
                old(self).mailbox@.is_prefix_of(self.mailbox@),
                i <= ids@.len(),
                self.history@[t.0] == s2.history@[t.0] + sent_callbacks(ids@.take(i as int)),
                s2.conns@[t.0].1.queue().is_prefix_of(self.conns@[t.0].1.queue()),
                i <= ids@.len(),
                i == 0 ==> *self == s2,
                forall|k: usize| #[trigger]
                    s2.conns@.contains_key(k) && k != t.0 ==> self.conns@[k].1 == s2.conns@[k].1
                        && self.history@[k] == s2.history@[k],
            decreases ids@.len() - i,
        {
            let ghost s3 = *self;
            let mid = ids[i];
            let entry = self.conns.get_mut(t).unwrap();
            let cmd = entry.0.on_sent(mid);
            proof {
                assert(self.conns@.dom() =~= s3.conns@.dom());
                let h = self.history@[t.0];
                lemma_history_grows(h, Callback::Sent(mid));
                self.history@ = self.history@.insert(t.0, h.push(Callback::Sent(mid)));
                assert(self.history@.dom() =~= self.conns@.dom());
            }
            let ghost m0 = self.mailbox@;
            let ghost c0 = self.conns@[t.0].1;
            let ghost gcmd = cmd;
            self.apply(t, cmd, now);
            proof {
                match gcmd {
                    Some(c) => {
                        lemma_queue_after_extends(c0, c);
                        lemma_prefix_trans(s2.conns@[t.0].1.queue(), c0.queue(), self.conns@[t.0].1.queue());
                    },
                    None => {},
                }
                assert(old(self).mailbox@.is_prefix_of(self.mailbox@)) by {
                    assert(m0.is_prefix_of(self.mailbox@));
                }
                assert(ids@.take(i + 1) =~= ids@.take(i as int).push(mid));
                assert(sent_callbacks(ids@.take(i + 1)) =~= sent_callbacks(ids@.take(i as int)).push(
                    Callback::Sent(mid),
                ));
                assert(self.history@[t.0] =~= s2.history@[t.0] + sent_callbacks(ids@.take(i + 1)));
            }
            i = i + 1;
        }
        proof {
            assert(ids@.take(ids@.len() as int) =~= ids@);
            assert(s2.conns@[t.0].1.queue().is_prefix_of(s2.conns@[t.0].1.queue())) by {
                assert(s2.conns@[t.0].1.queue() =~= s2.conns@[t.0].1.queue().subrange(
                    0,
                    s2.conns@[t.0].1.queue().len() as int,
                ));
            }
        }
        self.release_if_closed(t);
        proof {
            assert(self.spec_conns().dom() =~= old(self).spec_conns().dom() || self.spec_conns().dom()
                =~= old(self).spec_conns().dom().remove(t.0));
            assert(old(self).spec_retired().is_prefix_of(self.spec_retired()));
            assert(old(self).spec_released().is_prefix_of(self.spec_released()));
        }
    }

    /// Reading or writing connection `t` failed: it closes, whatever is
    /// queued, and is released.
    pub fn socket_error(&mut self, t: Token)
        requires
            old(self).wf(),
        ensures
            old(self).event_frame(*final(self), t.0),
            old(self).spec_conns().contains_key(t.0) ==> final(self).spec_conns().dom() == old(
                self,
            ).spec_conns().dom().remove(t.0) && final(self).spec_released() == old(
                self,
            ).spec_released().push(t) && final(self).spec_retired() == old(self).spec_retired().push(
                old(self).spec_history()[t.0].push(Callback::Disconnect),
            ),
            !old(self).spec_conns().contains_key(t.0) ==> *final(self) == *old(self),
    {
        if !self.conns.contains(t) {
            return ;
        }
        let ghost s1 = *self;
        let entry = self.conns.get_mut(t).unwrap();
        entry.1.close();
        proof {
            assert(self.conns@.dom() =~= s1.conns@.dom());
        }
        self.release_if_closed(t);
        proof {
            assert(self.spec_conns().dom() =~= old(self).spec_conns().dom().remove(t.0));
            assert(old(self).spec_retired().is_prefix_of(self.spec_retired()));
            assert(old(self).spec_released().is_prefix_of(self.spec_released()));
        }
    }

    /// Queues `buf` with `mid` behind everything queued on connection `t`.
    fn queue_on(&mut self, t: Token, buf: OutBuf, mid: Option<MsgId>) -> (r: bool)
        requires
            old(self).wf(),
        ensures
            final(self).wf(),
            r == (old(self).spec_conns().contains_key(t.0) && !old(
                self,
            ).spec_conns()[t.0].spec_terminal()),
            final(self).spec_conns().dom() == old(self).spec_conns().dom(),
            forall|k: usize| #[trigger]
                old(self).spec_conns().contains_key(k) && k != t.0 ==> final(self).spec_conns()[k]
                    == old(self).spec_conns()[k],
            r ==> final(self).spec_conns()[t.0].queue() == old(self).spec_conns()[t.0].queue().push(
                (buf@, mid),
            ),
            !r ==> *final(self) == *old(self),
            final(self).spec_listeners() == old(self).spec_listeners(),
            final(self).spec_mailbox() == old(self).spec_mailbox(),
            final(self).spec_released() == old(self).spec_released(),
            final(self).spec_retired() == old(self).spec_retired(),
    {
        let open = match self.conns.get(t) {
            Some(e) => !e.1.is_killed() && e.1.status() != ConnectionStatus::Closed,
            None => false,
        };
        if !open {
            return false;
        }
        let entry = self.conns.get_mut(t).unwrap();
        let _ = entry.1.enqueue(buf, mid);
        proof {
            assert(self.conns@.dom() =~= old(self).conns@.dom());
            assert(self.spec_conns().dom() =~= old(self).spec_conns().dom());
        }
        true
    }

    /// Queues `buf`, which came over the cross-thread channel, behind
    /// everything queued on connection `t`; no `on_sent` follows it. Refused
    /// when `t` is not a live connection, or is killed.
    pub fn notify(&mut self, t: Token, buf: OutBuf) -> (r: bool)
        requires
            old(self).wf(),
        ensures
            final(self).wf(),
            r == (old(self).spec_conns().contains_key(t.0) && !old(
                self,
            ).spec_conns()[t.0].spec_terminal()),
            final(self).spec_conns().dom() == old(self).spec_conns().dom(),
            forall|k: usize| #[trigger]
                old(self).spec_conns().contains_key(k) && k != t.0 ==> final(self).spec_conns()[k]
                    == old(self).spec_conns()[k],
            r ==> final(self).spec_conns()[t.0].queue() == old(self).spec_conns()[t.0].queue().push(
                (buf@, None),
            ),
            !r ==> *final(self) == *old(self),
            final(self).spec_listeners() == old(self).spec_listeners(),
            final(self).spec_mailbox() == old(self).spec_mailbox(),
            final(self).spec_released() == old(self).spec_released(),
            final(self).spec_retired() == old(self).spec_retired(),
    {
        self.queue_on(t, buf, None)
    }

    /// Queues `buf` behind everything queued on connection `t`; its
    /// protocol hears `on_sent(mid)` once the last byte has left. Refused
    /// when `t` is not a live connection, or is killed.
    pub fn write(&mut self, t: Token, buf: OutBuf, mid: MsgId) -> (r: bool)
        requires
            old(self).wf(),
        ensures
            final(self).wf(),
            r == (old(self).spec_conns().contains_key(t.0) && !old(
                self,
            ).spec_conns()[t.0].spec_terminal()),
            final(self).spec_conns().dom() == old(self).spec_conns().dom(),
            forall|k: usize| #[trigger]
                old(self).spec_conns().contains_key(k) && k != t.0 ==> final(self).spec_conns()[k]
                    == old(self).spec_conns()[k],
            r ==> final(self).spec_conns()[t.0].queue() == old(self).spec_conns()[t.0].queue().push(
                (buf@, Some(mid)),
            ),
            !r ==> *final(self) == *old(self),
            final(self).spec_listeners() == old(self).spec_listeners(),
            final(self).spec_mailbox() == old(self).spec_mailbox(),
            final(self).spec_released() == old(self).spec_released(),
            final(self).spec_retired() == old(self).spec_retired(),
    {
        self.queue_on(t, buf, Some(mid))
    }

    /// Fires every timer due at `now` and returns them in the order they
    /// fired: each leaves the table and, if its connection is still open,
    /// that connection's protocol hears `on_timer`, whose commands are
    /// carried out. A timer the protocol arms again starts afresh.
    pub fn timeout(&mut self, now: u64) -> (fired: Vec<TimerEntry>)
        requires
            old(self).wf(),
        ensures
            final(self).wf(),
            fired@.no_duplicates(),
            forall|t: usize| #[trigger]
                final(self).spec_conns().contains_key(t) && old(self).spec_conns()[t].spec_killed()
                    ==> final(self).spec_history()[t] == old(self).spec_history()[t],
            forall|i: int|
                0 <= i < fired@.len() ==> #[trigger] fired@[i].deadline <= now && exists|k: usize|
                    old(self).spec_timers().contains_key(k) && old(self).spec_timers()[k] == fired@[i],
            forall|k: usize| #[trigger]
                old(self).spec_timers().contains_key(k) && old(self).spec_timers()[k].deadline <= now
                    ==> exists|i: int| 0 <= i < fired@.len() && fired@[i] == old(self).spec_timers()[k],
            forall|t: usize| #[trigger]
                final(self).spec_conns().contains_key(t) && !final(self).spec_conns()[t].spec_killed()
                    ==> final(self).spec_history()[t] == old(self).spec_history()[t] + timer_callbacks(
                    fired@,
                    t,
                ),
            final(self).spec_listeners() == old(self).spec_listeners(),
            final(self).spec_max_connections() == old(self).spec_max_connections(),
            final(self).spec_conns().dom().subset_of(old(self).spec_conns().dom()),
            old(self).spec_mailbox().is_prefix_of(final(self).spec_mailbox()),
            old(self).spec_retired().is_prefix_of(final(self).spec_retired()),
            old(self).spec_released().is_prefix_of(final(self).spec_released()),
            forall|k: usize| #[trigger]
                final(self).spec_timers().contains_key(k) ==> final(self).spec_timers()[k].deadline
                    >= now,
            forall|t: usize| #[trigger]
                final(self).spec_conns().contains_key(t) && !(exists|k: usize| #[trigger]
                    old(self).spec_timers().contains_key(k) && old(self).spec_timers()[k].owner.0 == t
                        && old(self).spec_timers()[k].deadline <= now) ==> final(self).spec_conns()[t]
                    == old(self).spec_conns()[t] && final(self).spec_history()[t] == old(
                    self,
                ).spec_history()[t],
    {
        let due = self.timers.expire(now);
        proof {
            assert forall|k: usize| #[trigger] self.timers@.contains_key(k) implies self.conns@.contains_key(
                self.timers@[k].owner.0,
            ) && self.conns@[self.timers@[k].owner.0].1.spec_status()
                != ConnectionStatus::Connecting by {
                assert(old(self).timers@.contains_key(k));
            }
            assert forall|j: int| 0 <= j < due@.len() implies old(self).conns@.contains_key(
                #[trigger] due@[j].owner.0,
            ) && old(self).conns@[due@[j].owner.0].1.spec_status() != ConnectionStatus::Connecting by {
                assert(due@[j].deadline <= now);
                let k = choose|k: usize|
                    old(self).timers@.contains_key(k) && old(self).timers@[k] == due@[j];
                assert(old(self).timers@.contains_key(k));
            }
            assert(due@.take(0) =~= Seq::<TimerEntry>::empty());
            assert forall|t: usize| #[trigger] self.conns@.contains_key(t) && !self.conns@[t].1.spec_killed()
                implies self.history@[t] == old(self).history@[t] + timer_callbacks(due@.take(0), t) by {
                assert(old(self).history@[t] + timer_callbacks(due@.take(0), t) =~= old(self).history@[t]);
            }
        }
        let mut i: usize = 0;
        while i < due.len()
            invariant
                self.wf(),
                self.listeners@ == old(self).listeners@,
                self.conns.spec_capacity() == old(self).conns.spec_capacity(),
                self.conns@.dom().subset_of(old(self).conns@.dom()),
                old(self).mailbox@.is_prefix_of(self.mailbox@),
                old(self).retired@.is_prefix_of(self.retired@),
                old(self).released@.is_prefix_of(self.released@),
                forall|k: usize| #[trigger] self.timers@.contains_key(k) ==> self.timers@[k].deadline >= now,
                i <= due@.len(),
                forall|j: int|
                    0 <= j < due@.len() ==> old(self).conns@.contains_key(#[trigger] due@[j].owner.0)
                        && old(self).conns@[due@[j].owner.0].1.spec_status()
                        != ConnectionStatus::Connecting,
                forall|t: usize| #[trigger]
                    self.conns@.contains_key(t) ==> (old(self).conns@[t].1.spec_status()
                        != ConnectionStatus::Connecting ==> self.conns@[t].1.spec_status()
                        != ConnectionStatus::Connecting),
                forall|t: usize| #[trigger]
                    self.conns@.contains_key(t) && !self.conns@[t].1.spec_killed() ==> self.history@[t]
                        == old(self).history@[t] + timer_callbacks(due@.take(i as int), t),
                forall|t: usize| #[trigger]
                    self.conns@.contains_key(t) && old(self).conns@[t].1.spec_killed() ==> self.conns@[t].1.spec_killed()
                        && self.history@[t] == old(self).history@[t],
                forall|t: usize| #[trigger]
                    self.conns@.contains_key(t) && !(exists|j: int|
                        0 <= j < due@.len() && due@[j].owner.0 == t) ==> self.conns@[t].1 == old(
                        self,
                    ).conns@[t].1 && self.history@[t] == old(self).history@[t],
            decreases due@.len() - i,
        {
            let ghost pre = *self;
            let e: TimerEntry = due[i];
            let t = e.owner;
            let fire = match self.conns.get(t) {
                Some(c) => !c.1.is_killed() && c.1.status() != ConnectionStatus::Connecting,
                None => false,
            };
            if fire {
                let ghost s1 = *self;
                let entry = self.conns.get_mut(t).unwrap();
                let cmd = entry.0.on_timer(e.tid);
                proof {
                    assert(self.conns@.dom() =~= s1.conns@.dom());
                    let h = self.history@[t.0];
                    lemma_history_grows(h, Callback::Timer(e.tid));
                    self.history@ = self.history@.insert(t.0, h.push(Callback::Timer(e.tid)));
                    assert(self.history@.dom() =~= self.conns@.dom());
                }
                let ghost s2 = *self;
                self.carry_out(t, cmd, now);
                proof {
                    assert(self.conns@.dom() =~= self.spec_conns().dom());
                    assert(s2.conns@.dom() =~= s2.spec_conns().dom());
                    assert forall|x: usize| #[trigger] self.conns@.contains_key(x) implies s2.conns@.contains_key(x)
                        && (x != t.0 ==> self.conns@[x].1 == s2.conns@[x].1 && self.history@[x] == s2.history@[x]) by {
                        assert(self.spec_conns().contains_key(x));
                        if x != t.0 {
                            assert(self.spec_conns()[x] == s2.spec_conns()[x]);
                        }
                    }
                    assert(old(self).mailbox@.is_prefix_of(self.mailbox@));
                    assert(old(self).retired@.is_prefix_of(self.retired@));
                    assert(old(self).released@.is_prefix_of(self.released@));
                    assert(self.conns@.dom().subset_of(old(self).conns@.dom()));
                    assert(self.conns@.contains_key(t.0) ==> self.history@[t.0] == s2.history@[t.0]);
                    assert(s2.history@[t.0] == pre.history@[t.0].push(Callback::Timer(e.tid)));
                }
            }
            proof {
                let tk = due@.take(i + 1);
                assert(tk.drop_last() =~= due@.take(i as int));
                assert(tk.last() == due@[i as int]);
                assert forall|x: usize| #[trigger] self.conns@.contains_key(x) && !self.conns@[x].1.spec_killed()
                    implies self.history@[x] == old(self).history@[x] + timer_callbacks(tk, x) by {
                    let before = timer_callbacks(due@.take(i as int), x);
                    if x == t.0 {
                        assert(pre.conns@.contains_key(x));
                        assert(old(self).conns@[x].1.spec_status() != ConnectionStatus::Connecting);
                        if fire {
                            assert(old(self).history@[x] + before.push(Callback::Timer(e.tid)) =~= (
                            old(self).history@[x] + before).push(Callback::Timer(e.tid)));
                        }
                    } else {
                        assert(pre.conns@.contains_key(x));
                    }
                }
            }
            i = i + 1;
        }
        proof {
            assert(self.spec_conns().dom().subset_of(old(self).spec_conns().dom()));
            assert forall|t: usize| #[trigger]
                self.spec_conns().contains_key(t) && !(exists|k: usize| #[trigger]
                    old(self).spec_timers().contains_key(k) && old(self).spec_timers()[k].owner.0 == t
                        && old(self).spec_timers()[k].deadline <= now) implies self.spec_conns()[t]
                == old(self).spec_conns()[t] && self.spec_history()[t] == old(
                self,
            ).spec_history()[t] by {
                if exists|j: int| 0 <= j < due@.len() && due@[j].owner.0 == t {
                    let j = choose|j: int| 0 <= j < due@.len() && due@[j].owner.0 == t;
                    assert(due@[j].deadline <= now);
                    let k = choose|k: usize|
                        old(self).timers@.contains_key(k) && old(self).timers@[k] == due@[j];
                    assert(old(self).spec_timers().contains_key(k));
                }
            }
            assert(due@.take(due@.len() as int) =~= due@);
            assert forall|j: int| 0 <= j < due@.len() implies #[trigger] due@[j].deadline <= now
                && exists|k: usize|
                old(self).spec_timers().contains_key(k) && old(self).spec_timers()[k] == due@[j] by {
                assert(due@[j].deadline <= now);
                let k = choose|k: usize|
                    old(self).timers@.contains_key(k) && old(self).timers@[k] == due@[j];
                assert(old(self).spec_timers().contains_key(k));
            }
            assert forall|k: usize| #[trigger]
                old(self).spec_timers().contains_key(k) && old(self).spec_timers()[k].deadline <= now
                implies exists|j: int| 0 <= j < due@.len() && due@[j] == old(self).spec_timers()[k] by {
                assert(old(self).timers@.contains_key(k));
            }
        }
        due
    }

    /// Stops whatever `t` addresses: a listener leaves at once; a connection
    /// closes, whatever is queued, and is released. Returns whether `t`
    /// addressed anything; a token already gone is left alone.
    pub fn disconnect(&mut self, t: Token) -> (r: bool)
        requires
            old(self).wf(),
        ensures
            final(self).wf(),
            r == (old(self).spec_listeners().contains(t.0) || old(self).spec_conns().contains_key(
                t.0,
            )),
            final(self).spec_listeners() == old(self).spec_listeners().remove(t.0),
            final(self).spec_conns().dom() == old(self).spec_conns().dom().remove(t.0),
            old(self).spec_conns().contains_key(t.0) ==> {
                &&& final(self).spec_released() == old(self).spec_released().push(t)
                &&& final(self).spec_retired() == old(self).spec_retired().push(
                    old(self).spec_history()[t.0].push(Callback::Disconnect),
                )
            },
            !old(self).spec_conns().contains_key(t.0) ==> {
                &&& final(self).spec_released() == old(self).spec_released()
                &&& final(self).spec_retired() == old(self).spec_retired()
                &&& final(self).spec_mailbox() == old(self).spec_mailbox()
            },
            old(self).spec_mailbox().is_prefix_of(final(self).spec_mailbox()),
            final(self).spec_max_connections() == old(self).spec_max_connections(),
    {
        if self.listeners.contains(t) {
            self.listeners.remove(t);
            proof {
                assert(self.spec_listeners() =~= old(self).spec_listeners().remove(t.0));
                assert(!old(self).conns@.contains_key(t.0)) by {
                    old(self).conns.lemma_keys_in_range();
                    old(self).listeners.lemma_keys_in_range();
                }
                assert(self.spec_conns().dom() =~= old(self).spec_conns().dom().remove(t.0));
            }
            return true;
        }
        if !self.conns.contains(t) {
            proof {
                assert(self.spec_listeners() =~= old(self).spec_listeners().remove(t.0));
                assert(self.spec_conns().dom() =~= old(self).spec_conns().dom().remove(t.0));
            }
            return false;
        }
        let ghost s1 = *self;
        let entry = self.conns.get_mut(t).unwrap();
        entry.1.close();
        proof {
            assert(self.conns@.dom() =~= s1.conns@.dom());
        }
        self.release_if_closed(t);
        proof {
            assert(self.spec_listeners() =~= old(self).spec_listeners().remove(t.0));
            assert(self.spec_conns().dom() =~= old(self).spec_conns().dom().remove(t.0));
        }
        true
    }

    /// Takes in an inbound socket from `peer` on listener `l`, which its
    /// protocol `proto` has agreed to take: it gets a connection slot,
    /// established from the start, and its protocol hears `on_accept` before
    /// anything else; the commands that returns are carried out. Fails when
    /// `l` is no live listener, or when every connection slot is taken.
    #[verifier::rlimit(30)]
    pub fn take_in(&mut self, l: Token, peer: crate::protocol::PeerAddr, proto: P, now: u64) -> (r:
        Result<Token, ReactorError>)
        requires
            old(self).wf(),
        ensures
            final(self).wf(),
            final(self).spec_listeners() == old(self).spec_listeners(),
            final(self).spec_max_connections() == old(self).spec_max_connections(),
            final(self).spec_timer_capacity() == old(self).spec_timer_capacity(),
            r is Ok <==> old(self).spec_listeners().contains(l.0) && !old(self).spec_conns_full(),
            r == Err::<Token, ReactorError>(ReactorError::UnknownToken) <==> !old(
                self,
            ).spec_listeners().contains(l.0),
            r == Err::<Token, ReactorError>(ReactorError::CapacityExceeded) <==> old(
                self,
            ).spec_listeners().contains(l.0) && old(self).spec_conns_full(),
            match r {
                Ok(t) => {
                    &&& !old(self).spec_conns().contains_key(t.0)
                    &&& CONNECTION_BASE <= t.0 < CONNECTION_BASE + old(self).spec_max_connections()
                    &&& old(self).spec_mailbox().is_prefix_of(final(self).spec_mailbox())
                    &&& forall|k: usize| #[trigger]
                        old(self).spec_conns().contains_key(k) ==> final(self).spec_conns().contains_key(k)
                            && final(self).spec_conns()[k] == old(self).spec_conns()[k]
                            && final(self).spec_history()[k] == old(self).spec_history()[k]
                    &&& if final(self).spec_conns().contains_key(t.0) {
                        &&& final(self).spec_conns().dom() == old(self).spec_conns().dom().insert(t.0)
                        &&& final(self).spec_history()[t.0] == seq![Callback::Accept]
                        &&& final(self).spec_conns()[t.0].spec_token() == Some(t)
                        &&& final(self).spec_released() == old(self).spec_released()
                        &&& final(self).spec_retired() == old(self).spec_retired()
                    } else {
                        &&& final(self).spec_conns().dom() == old(self).spec_conns().dom()
                        &&& final(self).spec_released() == old(self).spec_released().push(t)
                        &&& final(self).spec_retired() == old(self).spec_retired().push(
                            seq![Callback::Accept, Callback::Disconnect],
                        )
                    }
                },
                Err(_) => old(self).same_views(*final(self)),
            },
    {
        proof {
            self.lemma_full_views();
        }
        if !self.listeners.contains(l) {
            return Err(ReactorError::UnknownToken);
        }
        match self.conns.insert((proto, Connection::accepted())) {
            Err(_) => {
                proof {
                    assert(self.conns@ =~= old(self).conns@);
                }
                Err(ReactorError::CapacityExceeded)
            },
            Ok(t) => {
                let entry = self.conns.get_mut(t).unwrap();
                entry.1.set_token(t);
                let cmd = entry.0.on_accept(t, &peer);
                proof {
                    self.history@ = self.history@.insert(t.0, seq![Callback::Accept]);
                    assert(self.history@.dom() =~= self.conns@.dom());
                    assert(self.conns@.dom() =~= old(self).conns@.dom().insert(t.0));
                    assert forall|k: usize| #[trigger] self.timers@.contains_key(k) implies self.conns@.contains_key(
                        self.timers@[k].owner.0,
                    ) && self.conns@[self.timers@[k].owner.0].1.spec_status()
                        != ConnectionStatus::Connecting by {
                        assert(old(self).conns@.contains_key(self.timers@[k].owner.0));
                    }
                }
                let ghost s2 = *self;
                self.apply(t, cmd, now);
                let ghost s3 = *self;
                self.release_if_closed(t);
                proof {
                    assert(s2.mailbox@.is_prefix_of(s3.mailbox@));
                    assert(old(self).mailbox@.is_prefix_of(self.mailbox@));
                    assert(seq![Callback::Accept].push(Callback::Disconnect) =~= seq![
                        Callback::Accept,
                        Callback::Disconnect,
                    ]);
                    if self.conns@.contains_key(t.0) {
                        assert(self.spec_conns().dom() =~= old(self).spec_conns().dom().insert(t.0));
                        assert(self.spec_history()[t.0] == seq![Callback::Accept]);
                        assert(self.spec_retired() == old(self).spec_retired());
                        assert(self.spec_released() == old(self).spec_released());
                    } else {
                        assert(self.spec_conns().dom() =~= old(self).spec_conns().dom());
                        assert(self.spec_retired() =~= old(self).spec_retired().push(
                            seq![Callback::Accept, Callback::Disconnect],
                        ));
                        assert(self.spec_released() =~= old(self).spec_released().push(t));
                    }
                    assert forall|k: usize| #[trigger]
                        old(self).spec_conns().contains_key(k) implies self.spec_conns().contains_key(k)
                            && self.spec_conns()[k] == old(self).spec_conns()[k]
                            && self.spec_history()[k] == old(self).spec_history()[k] by {
                        assert(k != t.0);
                    }
                }
                Ok(t)
            },
        }
    }

    /// An inbound socket from `peer` waits on listener `l`; `proto` would
    /// serve it. Its protocol may refuse it (`Ok(None)`, nothing changes);
    /// otherwise it is taken in as `take_in` says. Fails when `l` is no live
    /// listener, or when every connection slot is taken.
    pub fn accept(&mut self, l: Token, peer: crate::protocol::PeerAddr, proto: P, now: u64) -> (r:
        Result<Option<Token>, ReactorError>)
        requires
            old(self).wf(),
        ensures
            final(self).wf(),
            final(self).spec_listeners() == old(self).spec_listeners(),
            final(self).spec_max_connections() == old(self).spec_max_connections(),
            r == Err::<Option<Token>, ReactorError>(ReactorError::UnknownToken) <==> !old(
                self,
            ).spec_listeners().contains(l.0),
            r == Err::<Option<Token>, ReactorError>(ReactorError::CapacityExceeded) ==> old(
                self,
            ).spec_listeners().contains(l.0) && old(self).spec_conns_full(),
            old(self).spec_listeners().contains(l.0) && !old(self).spec_conns_full() ==> r is Ok,
            match r {
                Ok(Some(t)) => {
                    &&& !old(self).spec_conns().contains_key(t.0)
                    &&& CONNECTION_BASE <= t.0 < CONNECTION_BASE + old(self).spec_max_connections()
                    &&& old(self).spec_mailbox().is_prefix_of(final(self).spec_mailbox())
                    &&& final(self).spec_conns().contains_key(t.0) ==> final(self).spec_history()[t.0]
                        == seq![Callback::Accept]
                    &&& !final(self).spec_conns().contains_key(t.0) ==> final(self).spec_retired()
                        == old(self).spec_retired().push(seq![Callback::Accept, Callback::Disconnect])
                },
                _ => old(self).same_views(*final(self)),
            },
    {
        if !self.listeners.contains(l) {
            return Err(ReactorError::UnknownToken);
        }
        let mut proto = proto;
        if !proto.on_pre_accept(&peer) {
            return Ok(None);
        }
        match self.take_in(l, peer, proto, now) {
            Ok(t) => Ok(Some(t)),
            Err(e) => Err(e),
        }
    }

    /// Arms timer `tid` of open connection `owner` to fire `delay` ms after
    /// `now`, replacing the timer of that id if it is armed.
    pub fn arm_timer(&mut self, owner: Token, tid: TimerId, delay: u64, now: u64) -> (r: Result<
        Token,
        ReactorError,
    >)
        requires
            old(self).wf(),
        ensures
            final(self).wf(),
            final(self).spec_listeners() == old(self).spec_listeners(),
            final(self).spec_conns() == old(self).spec_conns(),
            final(self).spec_mailbox() == old(self).spec_mailbox(),
            final(self).spec_released() == old(self).spec_released(),
            final(self).spec_retired() == old(self).spec_retired(),
            final(self).spec_max_connections() == old(self).spec_max_connections(),
            !(old(self).spec_conns().contains_key(owner.0) && old(self).spec_conns()[owner.0].spec_status()
                != ConnectionStatus::Connecting && !old(self).spec_conns()[owner.0].spec_killed())
                <==> r == Err::<Token, ReactorError>(ReactorError::UnknownToken),
            r == Err::<Token, ReactorError>(ReactorError::CapacityExceeded) <==> (old(self).spec_open(
                owner.0,
            ) && !(exists|k: usize| #[trigger]
                old(self).spec_timers().contains_key(k) && crate::timer::is_timer(
                    old(self).spec_timers()[k],
                    owner,
                    tid,
                )) && old(self).spec_timers_full()),
            final(self).spec_timer_capacity() == old(self).spec_timer_capacity(),
            match r {
                Ok(k) => final(self).spec_timers() == crate::timer::without_timer(
                    old(self).spec_timers(),
                    owner,
                    tid,
                ).insert(k.0, TimerEntry { owner, tid, deadline: crate::timer::deadline_after(now, delay) }),
                Err(_) => final(self).spec_timers() == old(self).spec_timers(),
            },
    {
        let open = match self.conns.get(owner) {
            Some(c) => !c.1.is_killed() && c.1.status() != ConnectionStatus::Connecting,
            None => false,
        };
        if !open {
            return Err(ReactorError::UnknownToken);
        }
        proof {
            self.lemma_full_views();
            if self.timers.is_armed(owner, tid) {
                let k = choose|k: usize|
                    #[trigger] self.timers@.contains_key(k) && crate::timer::is_timer(self.timers@[k], owner, tid);
                assert(self.spec_timers().contains_key(k));
            }
            if exists|k: usize| #[trigger]
                self.spec_timers().contains_key(k) && crate::timer::is_timer(self.spec_timers()[k], owner, tid) {
                let k = choose|k: usize| #[trigger]
                    self.spec_timers().contains_key(k) && crate::timer::is_timer(self.spec_timers()[k], owner, tid);
                assert(self.timers@.contains_key(k));
            }
        }
        match self.timers.arm(owner, tid, delay, now) {
            Ok(k) => Ok(k),
            Err(_) => Err(ReactorError::CapacityExceeded),
        }
    }

    /// Drops connection `t` while its outbound connect is still in
    /// progress, without a callback: its protocol has heard nothing yet.
    /// Returns whether `t` was such a connection.
    pub fn abandon(&mut self, t: Token) -> (r: bool)
        requires
            old(self).wf(),
        ensures
            final(self).wf(),
            r == (old(self).spec_conns().contains_key(t.0) && old(self).spec_conns()[t.0].spec_status()
                == ConnectionStatus::Connecting),
            r ==> {
                &&& final(self).spec_conns() == old(self).spec_conns().remove(t.0)
                &&& final(self).spec_history() == old(self).spec_history().remove(t.0)
                &&& final(self).spec_listeners() == old(self).spec_listeners()
                &&& final(self).spec_timers() == old(self).spec_timers()
                &&& final(self).spec_mailbox() == old(self).spec_mailbox()
                &&& final(self).spec_released() == old(self).spec_released()
                &&& final(self).spec_retired() == old(self).spec_retired()
                &&& final(self).spec_max_connections() == old(self).spec_max_connections()
                &&& final(self).spec_timer_capacity() == old(self).spec_timer_capacity()
            },
            !r ==> final(self).same_views(*old(self)),
    {
        let connecting = match self.conns.get(t) {
            Some(e) => e.1.status() == ConnectionStatus::Connecting,
            None => false,
        };
        if !connecting {
            return false;
        }
        let _ = self.conns.remove(t);
        proof {
            self.history@ = self.history@.remove(t.0);
            assert(self.history@.dom() =~= self.conns@.dom());
            assert(self.spec_conns() =~= old(self).spec_conns().remove(t.0));
            assert forall|k: usize| #[trigger] self.timers@.contains_key(k) implies self.conns@.contains_key(
                self.timers@[k].owner.0,
            ) && self.conns@[self.timers@[k].owner.0].1.spec_status()
                != ConnectionStatus::Connecting by {
                assert(old(self).conns@.contains_key(self.timers@[k].owner.0));
            }
        }
        true
    }

    /// Takes the messages waiting for the mailbox, oldest first.
    pub fn take_mailbox(&mut self) -> (r: Vec<P::Output>)
        requires
            old(self).wf(),
        ensures
            final(self).wf(),
            r@ == old(self).spec_mailbox(),
            final(self).spec_mailbox() == Seq::<P::Output>::empty(),
            final(self).spec_listeners() == old(self).spec_listeners(),
            final(self).spec_conns() == old(self).spec_conns(),
            final(self).spec_timers() == old(self).spec_timers(),
            final(self).spec_released() == old(self).spec_released(),
            final(self).spec_retired() == old(self).spec_retired(),
            final(self).spec_max_connections() == old(self).spec_max_connections(),
    {
        let mut out: Vec<P::Output> = Vec::new();
        std::mem::swap(&mut self.mailbox, &mut out);
        out
    }

    /// Takes the tokens of the connections released since the last call,
    /// in release order: their sockets are to be dropped.
    pub fn take_released(&mut self) -> (r: Vec<Token>)
        requires
            old(self).wf(),
        ensures
            final(self).wf(),
            r@ == old(self).spec_released(),
            final(self).spec_released() == Seq::<Token>::empty(),
            final(self).spec_listeners() == old(self).spec_listeners(),
            final(self).spec_conns() == old(self).spec_conns(),
            final(self).spec_timers() == old(self).spec_timers(),
            final(self).spec_mailbox() == old(self).spec_mailbox(),
            final(self).spec_retired() == old(self).spec_retired(),
            final(self).spec_max_connections() == old(self).spec_max_connections(),
    {
        let mut out: Vec<Token> = Vec::new();
        std::mem::swap(&mut self.released, &mut out);
        out
    }

    /// The bytes connection `t` should send next, if any are queued.
    pub fn front(&self, t: Token) -> (r: Option<&OutBuf>)
        requires
            self.wf(),
        ensures
            match r {
                Some(b) => {
                    &&& self.spec_conns().contains_key(t.0)
                    &&& self.spec_conns()[t.0].queue().len() > 0
                    &&& b@ == self.spec_conns()[t.0].queue()[0].0
                },
                None => !self.spec_conns().contains_key(t.0) || self.spec_conns()[t.0].queue().len()
                    == 0,
            },
    {
        match self.conns.get(t) {
            Some(e) => e.1.front(),
            None => None,
        }
    }

    /// The readiness events connection `t` is to be registered for.
    pub fn interest(&self, t: Token) -> (r: Option<Interest>)
        requires
            self.wf(),
        ensures
            r == (if self.spec_conns().contains_key(t.0) {
                Some(
                    spec_interest(
                        self.spec_conns()[t.0].spec_status(),
                        self.spec_conns()[t.0].queue().len() > 0,
                    ),
                )
            } else {
                None
            }),
    {
        match self.conns.get(t) {
            Some(e) => Some(e.1.interest()),
            None => None,
        }
    }

    /// The earliest deadline of an armed timer, if any is armed.
    pub fn next_deadline(&self) -> (r: Option<u64>)
        requires
            self.wf(),
        ensures
            match r {
                Some(d) => {
                    &&& exists|k: usize| #[trigger]
                        self.spec_timers().contains_key(k) && self.spec_timers()[k].deadline == d
                    &&& forall|k: usize| #[trigger]
                        self.spec_timers().contains_key(k) ==> d <= self.spec_timers()[k].deadline
                },
                None => self.spec_timers() == Map::<usize, TimerEntry>::empty(),
            },
    {
        let r = self.timers.next_deadline();
        proof {
            if let Some(d) = r {
                let k = choose|k: usize|
                    #[trigger] self.timers@.contains_key(k) && self.timers@[k].deadline == d;
                assert(self.spec_timers().contains_key(k));
            }
        }
        r
    }
}

} // verus!

verus! {

/// Listener and connection tokens never meet: every live listener token is
/// below `CONNECTION_BASE` and every live connection token at or above it,
/// so a token alone says which table it addresses, and no resource is
/// reachable under two tokens.
pub proof fn lemma_tokens_disjoint<P: Protocol>(r: &ReactorInner<P>)
    requires
        r.wf(),
    ensures
        forall|t: usize| #[trigger]
            r.spec_listeners().contains(t) ==> spec_class_of(t) == TokenClass::Listener,
        forall|t: usize| #[trigger]
            r.spec_conns().contains_key(t) ==> spec_class_of(t) == TokenClass::Connection,
        forall|t: usize| !(#[trigger] r.spec_listeners().contains(t) && r.spec_conns().contains_key(t)),
{
    r.listeners.lemma_keys_in_range();
    r.conns.lemma_keys_in_range();
}

/// Every connection's protocol hears one opening callback (accept or
/// connect) before any other, and, once the connection has left, exactly
/// one disconnect after all others; live connections have had none.
pub proof fn lemma_callbacks_bracketed<P: Protocol>(r: &ReactorInner<P>)
    requires
        r.wf(),
    ensures
        forall|t: usize| #[trigger]
            r.spec_conns().contains_key(t) ==> r.spec_history().contains_key(t) && live_history_ok(
                r.spec_history()[t],
            ),
        forall|i: int|
            0 <= i < r.spec_retired().len() ==> retired_history_ok(#[trigger] r.spec_retired()[i]),
{
}

} // verus!

verus! {

/// On a connection that still takes writes, the bytes a command tree leaves
/// to send are those already queued, then the tree's writes in order, then
/// the bytes of its first kill.
pub proof fn lemma_commands_round_trip<M>(conn: Connection, c: Command<M>)
    requires
        !conn.spec_terminal(),
    ensures
        pending_bytes(queue_after(conn, c)) == pending_bytes(conn.queue()) + pending_bytes(
            tree_writes(c),
        ) + (match first_kill(c) {
            Some(k) => k,
            None => Seq::<u8>::empty(),
        }),
{
    let q = conn.queue() + tree_writes(c);
    lemma_pending_concat(conn.queue(), tree_writes(c));
    match first_kill(c) {
        Some(k) => {
            if k.len() > 0 {
                lemma_pending_push(q, (k, None));
            } else {
                assert(pending_bytes(q) + k =~= pending_bytes(q));
            }
        },
        None => {
            assert(pending_bytes(q) + Seq::<u8>::empty() =~= pending_bytes(q));
        },
    }
}

} // verus!
