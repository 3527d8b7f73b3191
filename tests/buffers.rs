use tcp_reactor::buffer::OutBuf;
use tcp_reactor::protocol::{Command, TimerCtl};
use tcp_reactor::slab::Slab;
use tcp_reactor::timer::TimerTable;
use tcp_reactor::token::Token;

#[test]
fn shared_buffer_keeps_its_own_cursor() {
    let mut a = OutBuf::from_vec(b"abcdef".to_vec());
    let b = a.share();
    a.advance(4);
    assert_eq!(a.window(), b"ef");
    assert_eq!(a.len(), 2);
    assert_eq!(b.window(), b"abcdef");
    assert_eq!(b.len(), 6);
    let c = a.share();
    assert_eq!(c.window(), b"ef");
    assert!(OutBuf::empty().is_empty());
}

#[test]
fn flatten_is_depth_first_left_to_right() {
    let t: Command<u8> = Command::Cons(
        Box::new(Command::Cons(Box::new(Command::Out(1)), Box::new(Command::Clear(4)))),
        Box::new(Command::Cons(Box::new(Command::Out(2)), Box::new(Command::Timer(9, 3)))),
    );
    let v = t.flatten();
    assert_eq!(v.len(), 4);
    assert!(matches!(v[0], Command::Out(1)));
    assert!(matches!(v[1], Command::Clear(4)));
    assert!(matches!(v[2], Command::Out(2)));
    assert!(matches!(v[3], Command::Timer(9, 3)));
}

#[test]
fn slab_hands_out_tokens_from_its_base() {
    let mut s: Slab<&str> = Slab::new_starting_at(Token(256), 2);
    let a = s.insert("a").unwrap();
    let b = s.insert("b").unwrap();
    assert!(a != b);
    assert!(a.0 >= 256 && a.0 < 258 && b.0 >= 256 && b.0 < 258);
    assert_eq!(s.insert("c"), Err("c"));
    assert_eq!(s.get(a), Some(&"a"));
    *s.get_mut(b).unwrap() = "B";
    assert_eq!(s.remove(b), Some("B"));
    assert_eq!(s.remove(b), None);
    assert!(!s.contains(b));
    assert_eq!(s.get(Token(3)), None);
    assert_eq!(s.keys(), vec![a]);
    assert_eq!(s.insert("d"), Ok(b));
}

#[test]
fn timer_clear_is_idempotent() {
    let mut t = TimerTable::new(4);
    t.arm(Token(300), 1, 10, 0).unwrap();
    t.arm(Token(301), 1, 20, 0).unwrap();
    assert!(t.clear(Token(300), 1));
    assert!(!t.clear(Token(300), 1));
    assert_eq!(t.next_deadline(), Some(20));
    t.clear_owned_by(Token(301));
    assert_eq!(t.next_deadline(), None);
}

#[test]
fn timer_table_full() {
    let mut t = TimerTable::new(1);
    t.arm(Token(300), 1, 10, 0).unwrap();
    assert!(t.arm(Token(300), 2, 10, 0).is_err());
    assert!(t.arm(Token(300), 1, 99, 0).is_ok());
    let due = t.expire(99);
    assert_eq!(due.len(), 1);
    assert_eq!(due[0].deadline, 99);
    assert_eq!(t.expire(1000).len(), 0);
}

#[test]
fn timer_deadline_saturates() {
    let mut t = TimerTable::new(1);
    t.arm(Token(300), 1, u64::MAX, 5).unwrap();
    assert_eq!(t.next_deadline(), Some(u64::MAX));
}

#[test]
fn timer_controls_compare() {
    assert_eq!(TimerCtl::Replace(5), TimerCtl::Replace(5));
    assert_ne!(TimerCtl::Restart, TimerCtl::Clear);
    assert_ne!(TimerCtl::RestartAndAdd(1), TimerCtl::Replace(1));
}
