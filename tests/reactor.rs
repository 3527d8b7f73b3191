use tcp_reactor::buffer::OutBuf;
use tcp_reactor::connection::{Connection, ConnectionStatus};
use tcp_reactor::control::{ReactorConfig, ReactorError, ReactorInner};
use tcp_reactor::interest::Interest;
use tcp_reactor::protocol::{Command, MsgId, PeerAddr, Protocol, TimerId};
use tcp_reactor::token::{class_of, Token, TokenClass, CONNECTION_BASE};

#[derive(Debug, Clone, PartialEq, Eq)]
enum Event {
    Accepted(usize),
    Connected(usize),
    Data(Vec<u8>),
    Sent(MsgId),
    Fired(TimerId),
    Disconnected(usize),
}

#[derive(Clone, Copy, PartialEq, Eq)]
enum Mode {
    Echo,
    Bye,
    Silent,
    Reject,
    Ticker,
}

struct Probe {
    mode: Mode,
}

fn probe(mode: Mode) -> Probe {
    Probe { mode }
}

fn out(e: Event) -> Command<Event> {
    Command::Out(e)
}

fn cons(a: Command<Event>, b: Command<Event>) -> Command<Event> {
    Command::Cons(Box::new(a), Box::new(b))
}

impl Protocol for Probe {
    type Output = Event;

    fn on_pre_accept(&mut self, _peer: &PeerAddr) -> bool {
        self.mode != Mode::Reject
    }

    fn on_accept(&mut self, tok: Token, _peer: &PeerAddr) -> Option<Command<Event>> {
        let c = out(Event::Accepted(tok.0));
        if self.mode == Mode::Ticker {
            Some(cons(c, Command::Timer(50, 7)))
        } else {
            Some(c)
        }
    }

    fn on_connect(&mut self, tok: Token) -> Option<Command<Event>> {
        Some(out(Event::Connected(tok.0)))
    }

    fn on_data(&mut self, data: &[u8]) -> Option<Command<Event>> {
        let seen = out(Event::Data(data.to_vec()));
        match self.mode {
            Mode::Echo => Some(cons(seen, Command::Write(OutBuf::from_vec(data.to_vec()), 0))),
            Mode::Bye => Some(cons(
                seen,
                cons(
                    Command::Write(OutBuf::from_vec(b"bye".to_vec()), 1),
                    Command::Kill(OutBuf::empty()),
                ),
            )),
            _ => Some(seen),
        }
    }

    fn on_sent(&mut self, mid: MsgId) -> Option<Command<Event>> {
        Some(out(Event::Sent(mid)))
    }

    fn on_timer(&mut self, tid: TimerId) -> Option<Command<Event>> {
        Some(cons(out(Event::Fired(tid)), Command::Timer(50, tid)))
    }

    fn on_disconnect(&mut self, tok: Token) -> Option<Command<Event>> {
        Some(out(Event::Disconnected(tok.0)))
    }
}

fn peer() -> PeerAddr {
    PeerAddr::V4([127, 0, 0, 1], 40000)
}

fn small_config(max_connections: usize) -> ReactorConfig {
    ReactorConfig {
        out_queue_size: 16,
        max_connections,
        timers_per_connection: 1,
        poll_timeout_ms: 100,
    }
}

fn reactor_with_listener(max_connections: usize) -> (ReactorInner<Probe>, Token) {
    let mut r: ReactorInner<Probe> = ReactorInner::new(small_config(max_connections));
    let l = r.add_listener().unwrap();
    (r, l)
}

/// Sends everything queued on `t`, `chunk` bytes at a time at most.
fn drain(r: &mut ReactorInner<Probe>, t: Token, chunk: usize) -> (Vec<u8>, usize) {
    let mut sent = Vec::new();
    let mut writes = 0;
    while let Some(b) = r.front(t) {
        let w = b.window();
        let n = w.len().min(chunk);
        sent.extend_from_slice(&w[..n]);
        writes += 1;
        r.written(t, n, 0);
    }
    (sent, writes)
}

#[test]
fn echo_round_trip() {
    let (mut r, l) = reactor_with_listener(8);
    let t = r.accept(l, peer(), probe(Mode::Echo), 0).unwrap().unwrap();
    r.readable(t, b"hello", false, 0);
    let (sent, _) = drain(&mut r, t, 1 << 20);
    assert_eq!(sent, b"hello".to_vec());
    let events = r.take_mailbox();
    assert_eq!(
        events,
        vec![Event::Accepted(t.0), Event::Data(b"hello".to_vec()), Event::Sent(0)]
    );
}

#[test]
fn deferred_drain_of_one_mebibyte() {
    let (mut r, l) = reactor_with_listener(8);
    let t = r.accept(l, peer(), probe(Mode::Echo), 0).unwrap().unwrap();
    let big = vec![0xabu8; 1 << 20];
    r.readable(t, &big, false, 0);
    r.take_mailbox();
    let (sent, writes) = drain(&mut r, t, 64 * 1024);
    assert_eq!(sent.len(), 1 << 20);
    assert_eq!(writes, 16);
    assert_eq!(r.take_mailbox(), vec![Event::Sent(0)]);
}

#[test]
fn timer_rearms_every_fifty_ms() {
    let (mut r, l) = reactor_with_listener(8);
    let t = r.accept(l, peer(), probe(Mode::Ticker), 0).unwrap().unwrap();
    assert_eq!(r.next_deadline(), Some(50));
    let mut now = 0u64;
    while now <= 500 {
        r.timeout(now);
        now += 10;
    }
    let fires = r.take_mailbox().into_iter().filter(|e| *e == Event::Fired(7)).count();
    assert_eq!(fires, 10);
    assert!(r.is_connection(t));
}

#[test]
fn timer_not_due_before_delay() {
    let (mut r, l) = reactor_with_listener(8);
    let _t = r.accept(l, peer(), probe(Mode::Ticker), 1000).unwrap().unwrap();
    r.take_mailbox();
    r.timeout(1049);
    assert!(r.take_mailbox().is_empty());
    r.timeout(1050);
    assert_eq!(r.take_mailbox(), vec![Event::Fired(7)]);
}

#[test]
fn kill_flushes_then_disconnects() {
    let (mut r, l) = reactor_with_listener(8);
    let t = r.accept(l, peer(), probe(Mode::Bye), 0).unwrap().unwrap();
    r.readable(t, b"x", false, 0);
    assert!(r.notify(t, OutBuf::from_vec(b"late".to_vec())) == false);
    let (sent, _) = drain(&mut r, t, 1 << 20);
    assert_eq!(sent, b"bye".to_vec());
    assert!(!r.is_connection(t));
    assert_eq!(r.take_released(), vec![t]);
    assert_eq!(
        r.take_mailbox(),
        vec![
            Event::Accepted(t.0),
            Event::Data(b"x".to_vec()),
            Event::Sent(1),
            Event::Disconnected(t.0)
        ]
    );
}

#[test]
fn kill_buffer_is_the_final_write() {
    let mut c = Connection::accepted();
    assert_eq!(c.enqueue(OutBuf::from_vec(b"ab".to_vec()), Some(1)), Some(()));
    c.kill(OutBuf::from_vec(b"cd".to_vec()));
    assert!(c.is_killed());
    assert_eq!(c.enqueue(OutBuf::from_vec(b"ef".to_vec()), Some(2)), None);
    assert_eq!(c.drain_write_queue_to_socket(3), vec![1]);
    assert_eq!(c.front().unwrap().window(), b"d");
    assert_eq!(c.status(), ConnectionStatus::Established);
    assert_eq!(c.drain_write_queue_to_socket(1), Vec::<MsgId>::new());
    assert_eq!(c.status(), ConnectionStatus::Closed);
}

#[test]
fn rejected_accept_allocates_nothing() {
    let (mut r, l) = reactor_with_listener(8);
    assert_eq!(r.accept(l, peer(), probe(Mode::Reject), 0), Ok(None));
    assert!(!r.is_connection(Token(CONNECTION_BASE)));
    assert!(r.is_listener(l));
    assert!(r.take_mailbox().is_empty());
    let t = r.accept(l, peer(), probe(Mode::Silent), 0).unwrap().unwrap();
    assert_eq!(t, Token(CONNECTION_BASE));
}

#[test]
fn notified_buffers_go_out_in_order() {
    let (mut r, l) = reactor_with_listener(8);
    let t = r.accept(l, peer(), probe(Mode::Silent), 0).unwrap().unwrap();
    assert!(r.notify(t, OutBuf::from_vec(b"one,".to_vec())));
    assert!(r.notify(t, OutBuf::from_vec(b"two,".to_vec())));
    assert!(r.notify(t, OutBuf::from_vec(b"three".to_vec())));
    let (sent, _) = drain(&mut r, t, 3);
    assert_eq!(sent, b"one,two,three".to_vec());
    assert!(!r.notify(Token(CONNECTION_BASE + 5), OutBuf::empty()));
}

#[test]
fn writes_leave_in_concatenation_order() {
    let mut c = Connection::accepted();
    for (i, w) in [&b"abc"[..], b"", b"de", b"fghij"].iter().enumerate() {
        c.enqueue(OutBuf::from_vec(w.to_vec()), Some(i)).unwrap();
    }
    let mut sent = Vec::new();
    let mut ids = Vec::new();
    while let Some(b) = c.front() {
        let w = b.window().to_vec();
        let n = w.len().min(2);
        sent.extend_from_slice(&w[..n]);
        ids.extend(c.drain_write_queue_to_socket(n));
    }
    assert_eq!(sent, b"abcdefghij".to_vec());
    assert_eq!(ids, vec![0, 1, 2, 3]);
}

#[test]
fn drain_across_entries_at_once() {
    let mut c = Connection::new();
    c.enqueue(OutBuf::from_vec(b"abc".to_vec()), Some(10)).unwrap();
    c.enqueue(OutBuf::from_vec(b"de".to_vec()), Some(11)).unwrap();
    c.enqueue(OutBuf::from_vec(b"f".to_vec()), Some(12)).unwrap();
    assert_eq!(c.queued(), 3);
    assert_eq!(c.drain_write_queue_to_socket(5), vec![10, 11]);
    assert_eq!(c.queued(), 1);
    assert_eq!(c.drain_write_queue_to_socket(0), Vec::<MsgId>::new());
    assert_eq!(c.drain_write_queue_to_socket(1), vec![12]);
    assert_eq!(c.queued(), 0);
}

#[test]
fn outbound_connect_completes_on_first_readable() {
    let mut r: ReactorInner<Probe> = ReactorInner::new(small_config(4));
    let t = r.connect(probe(Mode::Silent)).unwrap();
    assert_eq!(
        r.interest(t),
        Some(Interest { readable: true, writable: false, hup: true })
    );
    r.readable(t, b"", false, 0);
    r.readable(t, b"hi", false, 0);
    assert_eq!(
        r.take_mailbox(),
        vec![Event::Connected(t.0), Event::Data(b"hi".to_vec())]
    );
}

#[test]
fn hangup_half_closes_until_drained() {
    let (mut r, l) = reactor_with_listener(8);
    let t = r.accept(l, peer(), probe(Mode::Echo), 0).unwrap().unwrap();
    r.readable(t, b"abcd", true, 0);
    assert!(r.is_connection(t));
    assert_eq!(
        r.interest(t),
        Some(Interest { readable: true, writable: true, hup: true })
    );
    r.written(t, 2, 0);
    assert!(r.is_connection(t));
    r.written(t, 2, 0);
    assert!(!r.is_connection(t));
    let events = r.take_mailbox();
    assert_eq!(events[events.len() - 2..], [Event::Sent(0), Event::Disconnected(t.0)]);
}

#[test]
fn hangup_with_nothing_queued_closes_at_once() {
    let (mut r, l) = reactor_with_listener(8);
    let t = r.accept(l, peer(), probe(Mode::Silent), 0).unwrap().unwrap();
    r.readable(t, b"", true, 0);
    assert!(!r.is_connection(t));
    assert_eq!(r.take_released(), vec![t]);
}

#[test]
fn socket_error_closes_whatever_is_queued() {
    let (mut r, l) = reactor_with_listener(8);
    let t = r.accept(l, peer(), probe(Mode::Echo), 0).unwrap().unwrap();
    r.readable(t, b"pending", false, 0);
    r.socket_error(t);
    assert!(!r.is_connection(t));
    let events = r.take_mailbox();
    assert_eq!(events.last(), Some(&Event::Disconnected(t.0)));
    assert!(!events.contains(&Event::Sent(0)));
}

#[test]
fn full_connection_table_is_refused() {
    let (mut r, l) = reactor_with_listener(1);
    let t = r.accept(l, peer(), probe(Mode::Silent), 0).unwrap().unwrap();
    assert_eq!(
        r.accept(l, peer(), probe(Mode::Silent), 0),
        Err(ReactorError::CapacityExceeded)
    );
    assert!(matches!(r.connect(probe(Mode::Silent)), Err(ReactorError::CapacityExceeded)));
    assert!(r.disconnect(t));
    assert_eq!(r.accept(l, peer(), probe(Mode::Silent), 0).unwrap(), Some(t));
}

#[test]
fn accept_on_unknown_listener() {
    let (mut r, _l) = reactor_with_listener(4);
    assert_eq!(
        r.accept(Token(9), peer(), probe(Mode::Silent), 0),
        Err(ReactorError::UnknownToken)
    );
}

#[test]
fn disconnect_twice_is_harmless() {
    let (mut r, l) = reactor_with_listener(4);
    let t = r.accept(l, peer(), probe(Mode::Silent), 0).unwrap().unwrap();
    assert!(r.disconnect(t));
    assert!(!r.disconnect(t));
    assert_eq!(r.take_released(), vec![t]);
    assert!(r.disconnect(l));
    assert!(!r.is_listener(l));
    assert!(!r.disconnect(l));
}

#[test]
fn listener_and_connection_tokens_are_disjoint() {
    let (mut r, l) = reactor_with_listener(4);
    let t = r.accept(l, peer(), probe(Mode::Silent), 0).unwrap().unwrap();
    assert_eq!(l, Token(0));
    assert_eq!(class_of(l), TokenClass::Listener);
    assert_eq!(class_of(t), TokenClass::Connection);
    assert!(!r.is_connection(l));
    assert!(!r.is_listener(t));
    let mut seen = vec![t];
    for _ in 0..3 {
        let u = r.accept(l, peer(), probe(Mode::Silent), 0).unwrap().unwrap();
        assert!(!seen.contains(&u));
        seen.push(u);
    }
}

#[test]
fn arm_timer_needs_an_open_connection() {
    let (mut r, l) = reactor_with_listener(4);
    assert_eq!(r.arm_timer(Token(300), 1, 10, 0), Err(ReactorError::UnknownToken));
    let t = r.accept(l, peer(), probe(Mode::Silent), 0).unwrap().unwrap();
    assert!(r.arm_timer(t, 1, 10, 5).is_ok());
    assert_eq!(r.next_deadline(), Some(15));
    assert!(r.arm_timer(t, 1, 30, 5).is_ok());
    assert_eq!(r.next_deadline(), Some(35));
    r.disconnect(t);
    assert_eq!(r.next_deadline(), None);
}

#[test]
fn silent_protocol_writes_nothing() {
    let (mut r, l) = reactor_with_listener(4);
    let t = r.accept(l, peer(), probe(Mode::Silent), 0).unwrap().unwrap();
    r.readable(t, b"into the void", false, 0);
    assert!(r.front(t).is_none());
    assert_eq!(r.interest(t), Some(Interest { readable: true, writable: false, hup: true }));
    assert_eq!(r.next_deadline(), None);
}

#[test]
fn default_config_values() {
    let c = ReactorConfig::defaults();
    assert_eq!(c.out_queue_size, 524288);
    assert_eq!(c.max_connections, 10240);
    assert_eq!(c.timers_per_connection, 1);
    assert_eq!(c.poll_timeout_ms, 100);
    assert!(c.fits());
    assert_eq!(c.timer_slots(), 10240 + 256);
    let huge = ReactorConfig { max_connections: usize::MAX, ..c };
    assert!(!huge.fits());
}

#[test]
fn take_in_reports_each_refusal() {
    let (mut r, l) = reactor_with_listener(1);
    assert_eq!(
        r.take_in(Token(7), peer(), probe(Mode::Silent), 0),
        Err(ReactorError::UnknownToken)
    );
    let t = r.take_in(l, peer(), probe(Mode::Silent), 0).unwrap();
    assert_eq!(t, Token(CONNECTION_BASE));
    assert_eq!(r.take_mailbox(), vec![Event::Accepted(t.0)]);
    assert_eq!(
        r.take_in(l, peer(), probe(Mode::Silent), 0),
        Err(ReactorError::CapacityExceeded)
    );
    assert!(r.take_mailbox().is_empty());
}

#[test]
fn carry_out_runs_a_tree_in_order() {
    let (mut r, l) = reactor_with_listener(4);
    let t = r.accept(l, peer(), probe(Mode::Silent), 0).unwrap().unwrap();
    r.take_mailbox();
    let tree = cons(
        cons(Command::Write(OutBuf::from_vec(b"ab".to_vec()), 4), out(Event::Sent(99))),
        cons(Command::Timer(30, 2), cons(Command::Write(OutBuf::from_vec(b"cd".to_vec()), 5), Command::Clear(3))),
    );
    r.carry_out(t, Some(tree), 100);
    assert_eq!(r.take_mailbox(), vec![Event::Sent(99)]);
    assert_eq!(r.next_deadline(), Some(130));
    let (sent, _) = drain(&mut r, t, 1);
    assert_eq!(sent, b"abcd".to_vec());
    r.carry_out(t, Some(Command::Clear(2)), 100);
    assert_eq!(r.next_deadline(), None);
    r.carry_out(t, None, 100);
    assert!(r.is_connection(t));
    r.carry_out(t, Some(Command::Kill(OutBuf::empty())), 100);
    assert!(!r.is_connection(t));
    assert_eq!(r.take_released(), vec![t]);
}

#[test]
fn kill_keeps_writes_of_the_same_tree_before_it() {
    let (mut r, l) = reactor_with_listener(4);
    let t = r.accept(l, peer(), probe(Mode::Silent), 0).unwrap().unwrap();
    let tree = cons(
        Command::Kill(OutBuf::from_vec(b"!".to_vec())),
        Command::Write(OutBuf::from_vec(b"last words".to_vec()), 8),
    );
    r.carry_out(t, Some(tree), 0);
    assert!(!r.notify(t, OutBuf::from_vec(b"x".to_vec())));
    let (sent, _) = drain(&mut r, t, 4);
    assert_eq!(sent, b"last words!".to_vec());
    assert!(!r.is_connection(t));
}

#[test]
fn abandon_drops_a_pending_connect_silently() {
    let mut r: ReactorInner<Probe> = ReactorInner::new(small_config(4));
    let t = r.connect(probe(Mode::Silent)).unwrap();
    assert!(r.abandon(t));
    assert!(!r.is_connection(t));
    assert!(r.take_mailbox().is_empty());
    assert!(r.take_released().is_empty());
    assert!(!r.abandon(t));
}

#[test]
fn arm_timer_with_no_timer_slots() {
    let cfg = ReactorConfig { timers_per_connection: 0, ..small_config(4) };
    let mut r: ReactorInner<Probe> = ReactorInner::new(cfg);
    let l = r.add_listener().unwrap();
    let t = r.accept(l, peer(), probe(Mode::Silent), 0).unwrap().unwrap();
    assert_eq!(r.arm_timer(t, 1, 10, 0), Err(ReactorError::CapacityExceeded));
}

#[test]
fn timeout_returns_what_fired() {
    let (mut r, l) = reactor_with_listener(4);
    let a = r.accept(l, peer(), probe(Mode::Silent), 0).unwrap().unwrap();
    let b = r.accept(l, peer(), probe(Mode::Silent), 0).unwrap().unwrap();
    r.arm_timer(a, 1, 10, 0).unwrap();
    r.arm_timer(b, 2, 20, 0).unwrap();
    r.arm_timer(a, 3, 30, 0).unwrap();
    r.take_mailbox();
    let fired = r.timeout(20);
    let mut ids: Vec<(usize, usize)> = fired.iter().map(|e| (e.owner.0, e.tid)).collect();
    ids.sort();
    assert_eq!(ids, vec![(a.0, 1), (b.0, 2)]);
    assert_eq!(r.next_deadline(), Some(30));
}
