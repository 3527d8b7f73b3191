use vstd::prelude::*;
use crate::protocol::TimerId;
use crate::slab::{Slab, SlabError};
use crate::token::Token;

verus! {

/// An armed timer: the connection whose protocol hears of it, the id that
/// protocol gave it, and the time (in ms on the caller's clock) it falls due.
#[derive(Clone, Copy, PartialEq, Eq, Structural, Debug)]
pub struct TimerEntry {
    pub owner: Token,
    pub tid: TimerId,
    pub deadline: u64,
}

pub open spec fn is_timer(e: TimerEntry, owner: Token, tid: TimerId) -> bool {
    e.owner == owner && e.tid == tid
}

/// The table without the timer `tid` of `owner`.
pub open spec fn without_timer(m: Map<usize, TimerEntry>, owner: Token, tid: TimerId) -> Map<
    usize,
    TimerEntry,
> {
    m.restrict(m.dom().filter(|k: usize| !is_timer(m[k], owner, tid)))
}

/// The table without any timer of `owner`.
pub open spec fn without_owner(m: Map<usize, TimerEntry>, owner: Token) -> Map<usize, TimerEntry> {
    m.restrict(m.dom().filter(|k: usize| m[k].owner != owner))
}

/// The timers not yet due at `now`.
pub open spec fn not_due(m: Map<usize, TimerEntry>, now: u64) -> Map<usize, TimerEntry> {
    m.restrict(m.dom().filter(|k: usize| m[k].deadline > now))
}

/// Whether the table holds timer `tid` of `owner`, due at `deadline`.
pub open spec fn has_timer(m: Map<usize, TimerEntry>, owner: Token, tid: TimerId, deadline: u64) -> bool {
    exists|k: usize| #[trigger] m.contains_key(k) && m[k] == (TimerEntry { owner, tid, deadline })
}

/// Arming timer `tid` of `owner` at slot `k` (its old slot, or a vacant
/// one) leaves every other timer as it was.
pub proof fn lemma_has_timer_after_arm(
    m: Map<usize, TimerEntry>,
    k: usize,
    owner: Token,
    tid: TimerId,
    d: u64,
    o2: Token,
    x: TimerId,
    dl: u64,
)
    requires
        m.contains_key(k) ==> is_timer(m[k], owner, tid),
    ensures
        has_timer(without_timer(m, owner, tid).insert(k, TimerEntry { owner, tid, deadline: d }), o2, x, dl)
            == (if o2 == owner && x == tid {
            dl == d
        } else {
            has_timer(m, o2, x, dl)
        }),
        without_owner(without_timer(m, owner, tid).insert(k, TimerEntry { owner, tid, deadline: d }), owner)
            == without_owner(m, owner),
{
    let w = without_timer(m, owner, tid).insert(k, TimerEntry { owner, tid, deadline: d });
    if o2 == owner && x == tid {
        if dl == d {
            assert(w.contains_key(k) && w[k] == TimerEntry { owner: o2, tid: x, deadline: dl });
        }
    } else {
        if has_timer(m, o2, x, dl) {
            let j = choose|j: usize| #[trigger] m.contains_key(j) && m[j] == (TimerEntry { owner: o2, tid: x, deadline: dl });
            assert(j != k);
            assert(w.contains_key(j) && w[j] == TimerEntry { owner: o2, tid: x, deadline: dl });
        }
        if has_timer(w, o2, x, dl) {
            let j = choose|j: usize| #[trigger] w.contains_key(j) && w[j] == (TimerEntry { owner: o2, tid: x, deadline: dl });
            assert(m.contains_key(j) && m[j] == TimerEntry { owner: o2, tid: x, deadline: dl });
        }
    }
    assert(without_owner(w, owner) =~= without_owner(m, owner));
}

/// Clearing timer `tid` of `owner` leaves every other timer as it was.
pub proof fn lemma_has_timer_after_clear(
    m: Map<usize, TimerEntry>,
    owner: Token,
    tid: TimerId,
    o2: Token,
    x: TimerId,
    dl: u64,
)
    ensures
        has_timer(without_timer(m, owner, tid), o2, x, dl) == (!(o2 == owner && x == tid)
            && has_timer(m, o2, x, dl)),
        without_owner(without_timer(m, owner, tid), owner) == without_owner(m, owner),
{
    let w = without_timer(m, owner, tid);
    if !(o2 == owner && x == tid) && has_timer(m, o2, x, dl) {
        let j = choose|j: usize| #[trigger] m.contains_key(j) && m[j] == (TimerEntry { owner: o2, tid: x, deadline: dl });
        assert(w.contains_key(j));
    }
    assert(without_owner(w, owner) =~= without_owner(m, owner));
}

/// `delay` ms after `now`, held at the largest time the clock can show.
pub open spec fn deadline_after(now: u64, delay: u64) -> u64 {
    if now + delay > u64::MAX {
        u64::MAX
    } else {
        (now + delay) as u64
    }
}

/// Armed timers, keyed by the slot they occupy. Each (owner, id) pair is
/// armed at most once.
pub struct TimerTable {
    slots: Slab<TimerEntry>,
}

impl View for TimerTable {
    type V = Map<usize, TimerEntry>;

    closed spec fn view(&self) -> Map<usize, TimerEntry> {
        self.slots@
    }
}

impl TimerTable {
    pub closed spec fn wf(&self) -> bool {
        &&& self.slots.wf()
        &&& self.slots.spec_base() == 0
        &&& forall|k1: usize, k2: usize|
            #[trigger] self@.contains_key(k1) && #[trigger] self@.contains_key(k2) && is_timer(
                self@[k1],
                self@[k2].owner,
                self@[k2].tid,
            ) ==> k1 == k2
    }

    /// Every slot holds an armed timer: slots are keyed `0 .. capacity`.
    pub open spec fn spec_full(&self) -> bool {
        forall|k: usize| k < self.spec_capacity() ==> #[trigger] self@.contains_key(k)
    }

    pub closed spec fn spec_capacity(&self) -> nat {
        self.slots.spec_capacity()
    }

    pub open spec fn is_armed(&self, owner: Token, tid: TimerId) -> bool {
        exists|k: usize| #[trigger] self@.contains_key(k) && is_timer(self@[k], owner, tid)
    }

    proof fn lemma_full(&self)
        requires
            self.wf(),
        ensures
            self.spec_full() == self.slots.is_full(),
    {
        if self.spec_full() {
            assert forall|k: usize| self.slots.in_range(k) implies #[trigger] self.slots@.contains_key(k) by {
                assert(k < self.spec_capacity());
                assert(self@.contains_key(k));
            }
        }
        if self.slots.is_full() {
            assert forall|k: usize| k < self.spec_capacity() implies #[trigger] self@.contains_key(k) by {
                assert(self.slots.in_range(k));
            }
        }
    }

    /// A table with room for `capacity` timers.
    pub fn new(capacity: usize) -> (r: TimerTable)
        ensures
            r.wf(),
            r@ == Map::<usize, TimerEntry>::empty(),
            r.spec_capacity() == capacity,
    {
        TimerTable { slots: Slab::new_starting_at(Token(0), capacity) }
    }

    /// Number of timer slots.
    pub fn capacity(&self) -> (r: usize)
        ensures
            r == self.spec_capacity(),
    {
        self.slots.capacity()
    }

    fn find(&self, owner: Token, tid: TimerId) -> (r: Option<Token>)
        requires
            self.wf(),
        ensures
            match r {
                Some(k) => self@.contains_key(k.0) && is_timer(self@[k.0], owner, tid),
                None => !self.is_armed(owner, tid),
            },
    {
        let keys = self.slots.keys();
        let mut j: usize = 0;
        while j < keys.len()
            invariant
                self.wf(),
                j <= keys@.len(),
                forall|i: int| 0 <= i < keys@.len() ==> self@.contains_key(#[trigger] keys@[i].0),
                forall|k: usize|
                    #[trigger] self@.contains_key(k) ==> exists|i: int|
                        0 <= i < keys@.len() && keys@[i].0 == k,
                forall|i: int|
                    0 <= i < j ==> !is_timer(#[trigger] self@[keys@[i].0], owner, tid),
            decreases keys@.len() - j,
        {
            let k = keys[j];
            let e = self.slots.get(k).unwrap();
            if e.owner == owner && e.tid == tid {
                return Some(k);
            }
            j = j + 1;
        }
        proof {
            assert forall|k: usize| #[trigger] self@.contains_key(k) implies !is_timer(
                self@[k],
                owner,
                tid,
            ) by {
                let i = choose|i: int| 0 <= i < keys@.len() && keys@[i].0 == k;
                assert(!is_timer(self@[keys@[i].0], owner, tid));
            }
        }
        None
    }

    /// Arms timer `tid` of `owner` to fall due `delay` ms after `now`,
    /// replacing the timer of that id if it is armed. Refused when it is not
    /// armed and every slot is taken.
    #[verifier::rlimit(40)]
    pub fn arm(&mut self, owner: Token, tid: TimerId, delay: u64, now: u64) -> (r: Result<
        Token,
        SlabError,
    >)
        requires
            old(self).wf(),
        ensures
            final(self).wf(),
            final(self).spec_capacity() == old(self).spec_capacity(),
            r is Err <==> (!old(self).is_armed(owner, tid) && old(self).spec_full()),
            match r {
                Ok(k) => {
                    &&& final(self)@ == without_timer(old(self)@, owner, tid).insert(
                        k.0,
                        TimerEntry { owner, tid, deadline: deadline_after(now, delay) },
                    )
                    &&& old(self)@.contains_key(k.0) ==> is_timer(old(self)@[k.0], owner, tid)
                },
                Err(_) => final(self)@ == old(self)@,
            },
    {
        let deadline: u64 = if delay > u64::MAX - now {
            u64::MAX
        } else {
            now + delay
        };
        let entry = TimerEntry { owner, tid, deadline };
        proof {
            self.lemma_full();
        }
        match self.find(owner, tid) {
            Some(k) => {
                let slot = self.slots.get_mut(k).unwrap();
                *slot = entry;
                proof {
                    assert(self@ =~= without_timer(old(self)@, owner, tid).insert(k.0, entry));
                    assert forall|k1: usize, k2: usize|
                        #[trigger] self@.contains_key(k1) && #[trigger] self@.contains_key(k2) && is_timer(
                            self@[k1],
                            self@[k2].owner,
                            self@[k2].tid,
                        ) implies k1 == k2 by {
                        if k1 != k.0 && k2 != k.0 {
                            assert(old(self)@.contains_key(k1) && old(self)@.contains_key(k2));
                        } else if k1 != k.0 {
                            assert(old(self)@.contains_key(k1));
                        } else if k2 != k.0 {
                            assert(old(self)@.contains_key(k2));
                        }
                    }
                }
                Ok(k)
            },
            None => {
                match self.slots.insert(entry) {
                    Ok(k) => {
                        proof {
                            assert(without_timer(old(self)@, owner, tid) =~= old(self)@);
                            assert forall|k1: usize, k2: usize|
                                #[trigger] self@.contains_key(k1) && #[trigger] self@.contains_key(k2)
                                    && is_timer(self@[k1], self@[k2].owner, self@[k2].tid) implies k1 == k2 by {
                                if k1 != k.0 && k2 != k.0 {
                                    assert(old(self)@.contains_key(k1) && old(self)@.contains_key(k2));
                                } else if k1 != k.0 {
                                    assert(old(self)@.contains_key(k1));
                                } else if k2 != k.0 {
                                    assert(old(self)@.contains_key(k2));
                                }
                            }
                        }
                        Ok(k)
                    },
                    Err(_) => {
                        proof {
                            assert(self@ =~= old(self)@);
                        }
                        Err(SlabError::CapacityExceeded)
                    },
                }
            },
        }
    }

    /// Disarms timer `tid` of `owner`; returns whether it was armed. Doing it
    /// again changes nothing.
    pub fn clear(&mut self, owner: Token, tid: TimerId) -> (r: bool)
        requires
            old(self).wf(),
        ensures
            final(self).wf(),
            final(self).spec_capacity() == old(self).spec_capacity(),
            r == old(self).is_armed(owner, tid),
            final(self)@ == without_timer(old(self)@, owner, tid),
    {
        match self.find(owner, tid) {
            Some(k) => {
                self.slots.remove(k);
                proof {
                    assert(self@ =~= without_timer(old(self)@, owner, tid));
                }
                true
            },
            None => {
                proof {
                    assert(self@ =~= without_timer(old(self)@, owner, tid));
                }
                false
            },
        }
    }

    /// Disarms every timer of `owner`.
    pub fn clear_owned_by(&mut self, owner: Token)
        requires
            old(self).wf(),
        ensures
            final(self).wf(),
            final(self).spec_capacity() == old(self).spec_capacity(),
            final(self)@ == without_owner(old(self)@, owner),
    {
        let keys = self.slots.keys();
        let mut j: usize = 0;
        while j < keys.len()
            invariant
                self.wf(),
                self.spec_capacity() == old(self).spec_capacity(),
                j <= keys@.len(),
                forall|i: int| 0 <= i < keys@.len() ==> old(self)@.contains_key(#[trigger] keys@[i].0),
                forall|k: usize|
                    #[trigger] old(self)@.contains_key(k) ==> exists|i: int|
                        0 <= i < keys@.len() && keys@[i].0 == k,
                forall|i: int, m: int| 0 <= i < m < keys@.len() ==> keys@[i].0 < keys@[m].0,
                forall|k: usize|
                    #[trigger] self@.contains_key(k) <==> (old(self)@.contains_key(k) && !(
                    old(self)@[k].owner == owner && exists|i: int| 0 <= i < j && keys@[i].0 == k)),
                forall|k: usize| #[trigger] self@.contains_key(k) ==> self@[k] == old(self)@[k],
            decreases keys@.len() - j,
        {
            let k = keys[j];
            let ghost before = self@;
            let hit = match self.slots.get(k) {
                Some(e) => e.owner == owner,
                None => false,
            };
            if hit {
                self.slots.remove(k);
            }
            proof {
                assert forall|x: usize| #[trigger] self@.contains_key(x) <==> (old(
                    self,
                )@.contains_key(x) && !(old(self)@[x].owner == owner && exists|i: int|
                    0 <= i < j + 1 && keys@[i].0 == x)) by {
                    if x == k.0 {
                        assert(keys@[j as int].0 == x);
                    } else if exists|i: int| 0 <= i < j + 1 && keys@[i].0 == x {
                        let i = choose|i: int| 0 <= i < j + 1 && keys@[i].0 == x;
                        assert(i != j);
                    }
                }
            }
            j = j + 1;
        }
        proof {
            assert forall|k: usize| #[trigger] old(self)@.contains_key(k) implies exists|i: int|
                0 <= i < j && keys@[i].0 == k by {
                let i = choose|i: int| 0 <= i < keys@.len() && keys@[i].0 == k;
            }
            assert(self@ =~= without_owner(old(self)@, owner));
        }
    }

    /// Takes out every timer due at `now` (deadline at or before it) and
    /// returns them; the others stay armed.
    pub fn expire(&mut self, now: u64) -> (r: Vec<TimerEntry>)
        requires
            old(self).wf(),
        ensures
            final(self).wf(),
            final(self).spec_capacity() == old(self).spec_capacity(),
            final(self)@ == not_due(old(self)@, now),
            forall|i: int|
                0 <= i < r@.len() ==> #[trigger] r@[i].deadline <= now && exists|k: usize|
                    old(self)@.contains_key(k) && old(self)@[k] == r@[i],
            forall|k: usize|
                #[trigger] old(self)@.contains_key(k) && old(self)@[k].deadline <= now ==> exists|
                    i: int,
                | 0 <= i < r@.len() && r@[i] == old(self)@[k],
            r@.no_duplicates(),
    {
        let keys = self.slots.keys();
        let mut due: Vec<TimerEntry> = Vec::new();
        let mut j: usize = 0;
        while j < keys.len()
            invariant
                self.wf(),
                self.spec_capacity() == old(self).spec_capacity(),
                j <= keys@.len(),
                forall|i: int| 0 <= i < keys@.len() ==> old(self)@.contains_key(#[trigger] keys@[i].0),
                forall|k: usize|
                    #[trigger] old(self)@.contains_key(k) ==> exists|i: int|
                        0 <= i < keys@.len() && keys@[i].0 == k,
                forall|i: int, m: int| 0 <= i < m < keys@.len() ==> keys@[i].0 < keys@[m].0,
                forall|k: usize|
                    #[trigger] self@.contains_key(k) <==> (old(self)@.contains_key(k) && !(
                    old(self)@[k].deadline <= now && exists|i: int| 0 <= i < j && keys@[i].0 == k)),
                forall|k: usize| #[trigger] self@.contains_key(k) ==> self@[k] == old(self)@[k],
                forall|i: int|
                    0 <= i < due@.len() ==> #[trigger] due@[i].deadline <= now && exists|k: usize|
                        old(self)@.contains_key(k) && old(self)@[k] == due@[i],
                forall|k: usize|
                    #[trigger] old(self)@.contains_key(k) && old(self)@[k].deadline <= now && (exists|
                        i: int,
                    | 0 <= i < j && keys@[i].0 == k) ==> exists|i: int|
                        0 <= i < due@.len() && due@[i] == old(self)@[k],
                due@.no_duplicates(),
                old(self).wf(),
                forall|i: int|
                    0 <= i < due@.len() ==> exists|n: int|
                        0 <= n < j && #[trigger] due@[i] == old(self)@[keys@[n].0],
            decreases keys@.len() - j,
        {
            let k = keys[j];
            let ghost due0 = due@;
            proof {
                assert forall|i: int| 0 <= i < j implies keys@[i].0 != k.0 by {
                    assert(keys@[i].0 < keys@[j as int].0);
                }
                assert(self@.contains_key(k.0));
            }
            let entry: Option<TimerEntry> = match self.slots.get(k) {
                Some(e) => Some(*e),
                None => None,
            };
            proof {
                assert(entry == Some(old(self)@[k.0]));
            }
            match entry {
                Some(e) => {
                    if e.deadline <= now {
                        self.slots.remove(k);
                        proof {
                            assert forall|i: int| 0 <= i < due0.len() implies due0[i] != e by {
                                let n = choose|n: int|
                                    0 <= n < j && #[trigger] due0[i] == old(self)@[keys@[n].0];
                                if due0[i] == e {
                                    assert(e == old(self)@[k.0]);
                                    assert(old(self)@[keys@[n].0] == old(self)@[k.0]);
                                    assert(old(self)@.contains_key(keys@[n].0));
                                    assert(old(self)@.contains_key(k.0));
                                    assert(is_timer(old(self)@[keys@[n].0], old(self)@[k.0].owner, old(self)@[k.0].tid));
                                    assert(keys@[n].0 == k.0);
                                    assert(keys@[n].0 < keys@[j as int].0);
                                }
                            }
                        }
                        due.push(e);
                    }
                },
                None => {},
            }
            proof {
                assert forall|i: int| 0 <= i < due@.len() implies exists|n: int|
                    0 <= n < j + 1 && #[trigger] due@[i] == old(self)@[keys@[n].0] by {
                    if i < due0.len() {
                        assert(due@[i] == due0[i]);
                        let n = choose|n: int| 0 <= n < j && #[trigger] due0[i] == old(self)@[keys@[n].0];
                        assert(due@[i] == old(self)@[keys@[n].0]);
                    } else {
                        assert(due@[i] == old(self)@[keys@[j as int].0]);
                    }
                }
            }
            proof {
                assert(self@.contains_key(k.0) ==> entry is Some);
                assert forall|x: usize| #[trigger] self@.contains_key(x) <==> (old(
                    self,
                )@.contains_key(x) && !(old(self)@[x].deadline <= now && exists|i: int|
                    0 <= i < j + 1 && keys@[i].0 == x)) by {
                    if x == k.0 {
                        assert(keys@[j as int].0 == x);
                    } else if exists|i: int| 0 <= i < j + 1 && keys@[i].0 == x {
                        let i = choose|i: int| 0 <= i < j + 1 && keys@[i].0 == x;
                        assert(i != j);
                    }
                }
                assert forall|i: int| 0 <= i < due@.len() implies #[trigger] due@[i].deadline
                    <= now && exists|x: usize|
                    old(self)@.contains_key(x) && old(self)@[x] == due@[i] by {
                    if i < due0.len() {
                        assert(due@[i] == due0[i]);
                        assert(due0[i].deadline <= now);
                        let x = choose|x: usize|
                            old(self)@.contains_key(x) && old(self)@[x] == due0[i];
                        assert(old(self)@.contains_key(x) && old(self)@[x] == due@[i]);
                    } else {
                        assert(old(self)@.contains_key(k.0) && old(self)@[k.0] == due@[i]);
                    }
                }
                assert forall|x: usize|
                    #[trigger] old(self)@.contains_key(x) && old(self)@[x].deadline <= now && (exists|
                        i: int,
                    | 0 <= i < j + 1 && keys@[i].0 == x) implies exists|i: int|
                    0 <= i < due@.len() && due@[i] == old(self)@[x] by {
                    if x == k.0 {
                        assert(due@[due@.len() - 1] == old(self)@[x]);
                    } else {
                        let i = choose|i: int| 0 <= i < j + 1 && keys@[i].0 == x;
                        assert(i != j);
                        let n = choose|n: int| 0 <= n < due0.len() && due0[n] == old(self)@[x];
                        assert(due@[n] == due0[n]);
                    }
                }
            }
            j = j + 1;
        }
        proof {
            assert forall|k: usize| #[trigger] old(self)@.contains_key(k) implies exists|i: int|
                0 <= i < j && keys@[i].0 == k by {
                let i = choose|i: int| 0 <= i < keys@.len() && keys@[i].0 == k;
            }
            assert(self@ =~= not_due(old(self)@, now));
        }
        due
    }

    /// The earliest deadline of an armed timer, if any is armed.
    pub fn next_deadline(&self) -> (r: Option<u64>)
        requires
            self.wf(),
        ensures
            match r {
                Some(d) => {
                    &&& exists|k: usize| #[trigger] self@.contains_key(k) && self@[k].deadline == d
                    &&& forall|k: usize| #[trigger] self@.contains_key(k) ==> d <= self@[k].deadline
                },
                None => self@ == Map::<usize, TimerEntry>::empty(),
            },
    {
        let keys = self.slots.keys();
        let mut best: Option<u64> = None;
        let mut j: usize = 0;
        while j < keys.len()
            invariant
                self.wf(),
                j <= keys@.len(),
                forall|i: int| 0 <= i < keys@.len() ==> self@.contains_key(#[trigger] keys@[i].0),
                forall|k: usize|
                    #[trigger] self@.contains_key(k) ==> exists|i: int|
                        0 <= i < keys@.len() && keys@[i].0 == k,
                best is None <==> j == 0,
                match best {
                    Some(d) => {
                        &&& exists|k: usize| #[trigger] self@.contains_key(k) && self@[k].deadline == d
                        &&& forall|i: int| 0 <= i < j ==> d <= #[trigger] self@[keys@[i].0].deadline
                    },
                    None => true,
                },
            decreases keys@.len() - j,
        {
            let e = self.slots.get(keys[j]).unwrap();
            let d = e.deadline;
            best = match best {
                Some(b) => if d < b {
                    Some(d)
                } else {
                    Some(b)
                },
                None => Some(d),
            };
            j = j + 1;
        }
        proof {
            match best {
                Some(d) => {
                    assert forall|k: usize| #[trigger] self@.contains_key(k) implies d
                        <= self@[k].deadline by {
                        let i = choose|i: int| 0 <= i < keys@.len() && keys@[i].0 == k;
                        assert(d <= self@[keys@[i].0].deadline);
                    }
                },
                None => {
                    assert forall|k: usize| !#[trigger] self@.contains_key(k) by {
                        if self@.contains_key(k) {
                            let i = choose|i: int| 0 <= i < keys@.len() && keys@[i].0 == k;
                        }
                    }
                    assert(self@ =~= Map::<usize, TimerEntry>::empty());
                },
            }
        }
        best
    }
}

} // verus!

verus! {

/// Clearing a timer twice leaves the table as clearing it once.
pub proof fn lemma_clear_idempotent(m: Map<usize, TimerEntry>, owner: Token, tid: TimerId)
    ensures
        without_timer(without_timer(m, owner, tid), owner, tid) == without_timer(m, owner, tid),
{
    assert(without_timer(without_timer(m, owner, tid), owner, tid) =~= without_timer(
        m,
        owner,
        tid,
    ));
}

/// A timer armed at `armed_at` with `delay` is never due before `delay` ms
/// have passed on the caller's clock (short of the clock's last value).
pub proof fn lemma_due_not_before_delay(armed_at: u64, delay: u64, now: u64)
    requires
        deadline_after(armed_at, delay) <= now,
    ensures
        now >= armed_at + delay || now == u64::MAX,
{
}

} // verus!
