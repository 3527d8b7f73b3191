use vstd::prelude::*;
use crate::buffer::OutBuf;
use crate::token::Token;

verus! {

/// Id that a protocol attaches to a write; echoed back once it is sent.
pub type MsgId = usize;

/// Id that a protocol gives a timer of its connection.
pub type TimerId = usize;

/// Ways to change an armed timer.
#[derive(Clone, Copy, PartialEq, Eq, Structural, Debug)]
pub enum TimerCtl {
    Replace(u64),
    Restart,
    RestartAndAdd(u64),
    Clear,
}

/// Address of a peer: IP octets and port.
#[derive(Clone, Copy, PartialEq, Eq, Debug)]
pub enum PeerAddr {
    V4([u8; 4], u16),
    V6([u8; 16], u16),
}

/// What a protocol callback asks of the reactor, for its own connection.
pub enum Command<M> {
    /// Queue the bytes behind everything already queued; `on_sent` hears
    /// the id once the last byte has left.
    Write(OutBuf, MsgId),
    /// Arm the timer of this id to fire after the delay in ms, replacing it
    /// if it is armed.
    Timer(u64, TimerId),
    /// Disarm the timer of this id, if it is armed.
    Clear(TimerId),
    /// Queue the bytes as the final write, then close.
    Kill(OutBuf),
    /// Hand a message to the application's mailbox.
    Out(M),
    /// Both commands, left first.
    Cons(Box<Command<M>>, Box<Command<M>>),
}

/// The simple commands of a tree, depth first, left to right.
pub open spec fn leaves<M>(c: Command<M>) -> Seq<Command<M>>
    decreases c,
{
    match c {
        Command::Cons(a, b) => leaves(*a) + leaves(*b),
        _ => seq![c],
    }
}

/// The messages for the mailbox in a tree, in order.
pub open spec fn tree_outs<M>(c: Command<M>) -> Seq<M>
    decreases c,
{
    match c {
        Command::Cons(a, b) => tree_outs(*a) + tree_outs(*b),
        Command::Out(m) => seq![m],
        _ => Seq::empty(),
    }
}

/// The writes in a tree, in order, as queue entries.
pub open spec fn tree_writes<M>(c: Command<M>) -> Seq<(Seq<u8>, Option<MsgId>)>
    decreases c,
{
    match c {
        Command::Cons(a, b) => tree_writes(*a) + tree_writes(*b),
        Command::Write(b, m) => seq![(b@, Some(m))],
        _ => Seq::empty(),
    }
}

/// The bytes of the first kill in a tree, if it holds one.
pub open spec fn first_kill<M>(c: Command<M>) -> Option<Seq<u8>>
    decreases c,
{
    match c {
        Command::Cons(a, b) => if first_kill(*a) is Some {
            first_kill(*a)
        } else {
            first_kill(*b)
        },
        Command::Kill(b) => Some(b@),
        _ => None,
    }
}

/// The last timer command for `tid` in a tree: `Some(Some(d))` for
/// `Timer(d, tid)`, `Some(None)` for `Clear(tid)`, `None` if there is none.
pub open spec fn last_timer_command<M>(c: Command<M>, tid: TimerId) -> Option<Option<u64>>
    decreases c,
{
    match c {
        Command::Cons(a, b) => if last_timer_command(*b, tid) is Some {
            last_timer_command(*b, tid)
        } else {
            last_timer_command(*a, tid)
        },
        Command::Timer(d, x) => if x == tid {
            Some(Some(d))
        } else {
            None
        },
        Command::Clear(x) => if x == tid {
            Some(None)
        } else {
            None
        },
        _ => None,
    }
}

impl<M> Command<M> {
    /// The simple commands of the tree, in the order they are carried out.
    pub fn flatten(self) -> (r: Vec<Command<M>>)
        ensures
            r@ == leaves(self),
            forall|i: int| 0 <= i < r@.len() ==> !(#[trigger] r@[i] is Cons),
        decreases self,
    {
        match self {
            Command::Cons(a, b) => {
                let mut left = (*a).flatten();
                let mut right = (*b).flatten();
                let ghost l0 = left@;
                let ghost r0 = right@;
                left.append(&mut right);
                proof {
                    assert forall|i: int| 0 <= i < left@.len() implies !(#[trigger] left@[i] is Cons) by {
                        if i >= l0.len() {
                            assert(left@[i] == r0[i - l0.len()]);
                        }
                    }
                }
                left
            },
            c => {
                let mut v: Vec<Command<M>> = Vec::new();
                v.push(c);
                proof {
                    assert(v@ =~= seq![c]);
                }
                v
            },
        }
    }
}

/// The user's code for one connection. One instance serves one connection;
/// every callback may hand back a command tree for that connection.
pub trait Protocol: Sized {
    /// Messages for the application's mailbox.
    type Output;

    /// Asked before an inbound connection is taken; `false` refuses it.
    fn on_pre_accept(&mut self, peer: &PeerAddr) -> bool {
        true
    }

    /// The connection was accepted and holds token `tok`.
    fn on_accept(&mut self, tok: Token, peer: &PeerAddr) -> Option<Command<Self::Output>> {
        None
    }

    /// The outbound connection holding `tok` is established.
    fn on_connect(&mut self, tok: Token) -> Option<Command<Self::Output>> {
        None
    }

    /// Bytes arrived.
    fn on_data(&mut self, data: &[u8]) -> Option<Command<Self::Output>> {
        None
    }

    /// The last byte of the write with this id has left.
    fn on_sent(&mut self, mid: MsgId) -> Option<Command<Self::Output>> {
        None
    }

    /// The timer with this id fired.
    fn on_timer(&mut self, tid: TimerId) -> Option<Command<Self::Output>> {
        None
    }

    /// The connection holding `tok` has left the reactor; no callback follows.
    fn on_disconnect(&mut self, tok: Token) -> Option<Command<Self::Output>> {
        None
    }
}

} // verus!
