use vstd::prelude::*;
use crate::token::Token;

verus! {

/// Fixed-capacity table of values addressed by the tokens
/// `base .. base + capacity`, with a free list of vacant slots.
pub struct Slab<T> {
    entries: Vec<Option<T>>,
    free: Vec<usize>,
    base: usize,
}

/// Why an insert was refused.
#[derive(Clone, Copy, PartialEq, Eq, Structural, Debug)]
pub enum SlabError {
    CapacityExceeded,
}

impl<T> View for Slab<T> {
    /// The live entries, keyed by token value.
    type V = Map<usize, T>;

    closed spec fn view(&self) -> Map<usize, T> {
        Map::new(
            |k: usize| self.base <= k < self.base + self.entries@.len() && self.entries@[k - self.base] is Some,
            |k: usize| self.entries@[k - self.base]->Some_0,
        )
    }
}

impl<T> Slab<T> {
    pub closed spec fn spec_base(&self) -> nat {
        self.base as nat
    }

    pub closed spec fn spec_capacity(&self) -> nat {
        self.entries@.len()
    }

    /// Whether `k` is one of the tokens this table hands out.
    pub open spec fn in_range(&self, k: usize) -> bool {
        self.spec_base() <= k < self.spec_base() + self.spec_capacity()
    }

    /// Every slot of the range holds a value.
    pub open spec fn is_full(&self) -> bool {
        forall|k: usize| self.in_range(k) ==> #[trigger] self@.contains_key(k)
    }

    pub closed spec fn wf(&self) -> bool {
        &&& self.base + self.entries@.len() <= usize::MAX
        &&& self.free@.no_duplicates()
        &&& forall|j: int| 0 <= j < self.free@.len() ==> #[trigger] self.free@[j] < self.entries@.len()
        &&& forall|i: int|
            0 <= i < self.entries@.len() ==> (#[trigger] self.entries@[i] is None <==> self.free@.contains(
                i as usize,
            ))
    }

    /// Every live token lies in the table's range.
    pub proof fn lemma_keys_in_range(&self)
        ensures
            forall|k: usize| #[trigger] self@.contains_key(k) ==> self.in_range(k),
    {
    }

    /// An empty table whose tokens are `base.0 .. base.0 + capacity`.
    pub fn new_starting_at(base: Token, capacity: usize) -> (r: Self)
        requires
            base.0 + capacity <= usize::MAX,
        ensures
            r.wf(),
            r@ == Map::<usize, T>::empty(),
            r.spec_base() == base.0,
            r.spec_capacity() == capacity,
    {
        let mut entries: Vec<Option<T>> = Vec::new();
        let mut free: Vec<usize> = Vec::new();
        let mut i: usize = 0;
        while i < capacity
            invariant
                i <= capacity,
                entries@.len() == i,
                free@.len() == i,
                forall|j: int| 0 <= j < i ==> #[trigger] entries@[j] is None,
                forall|j: int| 0 <= j < i ==> #[trigger] free@[j] == (capacity - 1 - j) as usize,
            decreases capacity - i,
        {
            entries.push(None);
            free.push(capacity - 1 - i);
            i = i + 1;
        }
        let r = Slab { entries, free, base: base.0 };
        proof {
            assert forall|j: int| 0 <= j < capacity implies #[trigger] r.free@.contains(j as usize) by {
                assert(r.free@[capacity - 1 - j] == j as usize);
            }
            assert(r@ =~= Map::<usize, T>::empty());
        }
        r
    }

    /// Number of slots.
    pub fn capacity(&self) -> (r: usize)
        ensures
            r == self.spec_capacity(),
    {
        self.entries.len()
    }

    /// Whether `t` addresses a live entry.
    pub fn contains(&self, t: Token) -> (r: bool)
        requires
            self.wf(),
        ensures
            r == self@.contains_key(t.0),
    {
        if t.0 < self.base || t.0 - self.base >= self.entries.len() {
            return false;
        }
        self.entries[t.0 - self.base].is_some()
    }

    /// Stores `value` in a vacant slot and returns its token; hands the value
    /// back when every slot is taken.
    pub fn insert(&mut self, value: T) -> (r: Result<Token, T>)
        requires
            old(self).wf(),
        ensures
            final(self).wf(),
            final(self).spec_base() == old(self).spec_base(),
            final(self).spec_capacity() == old(self).spec_capacity(),
            r is Err <==> old(self).is_full(),
            match r {
                Ok(t) => {
                    &&& old(self).in_range(t.0)
                    &&& !old(self)@.contains_key(t.0)
                    &&& final(self)@ == old(self)@.insert(t.0, value)
                },
                Err(v) => v == value && final(self)@ == old(self)@,
            },
    {
        match self.free.pop() {
            None => {
                proof {
                    assert forall|k: usize| old(self).in_range(k) implies #[trigger] old(
                        self,
                    )@.contains_key(k) by {
                        let i = k - self.base;
                        if self.entries@[i] is None {
                            assert(self.free@.contains(i as usize));
                        }
                    }
                }
                Err(value)
            },
            Some(i) => {
                proof {
                    assert(old(self).free@[old(self).free@.len() - 1] == i);
                    assert(self.free@ =~= old(self).free@.drop_last());
                    assert(!self.free@.contains(i)) by {
                        if self.free@.contains(i) {
                            let j = choose|j: int| 0 <= j < self.free@.len() && self.free@[j] == i;
                            assert(old(self).free@[j] == old(self).free@[old(self).free@.len() - 1]);
                        }
                    }
                    assert(old(self).free@.contains(i));
                    assert(self.entries@[i as int] is None);
                    assert(!old(self).is_full()) by {
                        let k = (self.base + i) as usize;
                        assert(old(self).in_range(k));
                        assert(!old(self)@.contains_key(k));
                    }
                }
                self.entries.set(i, Some(value));
                let t = Token(self.base + i);
                proof {
                    assert forall|j: int| 0 <= j < self.free@.len() implies #[trigger] self.free@[j]
                        < self.entries@.len() by {
                        assert(self.free@[j] == old(self).free@[j]);
                    }
                    assert forall|n: int| 0 <= n < self.entries@.len() implies (
                    #[trigger] self.entries@[n] is None <==> self.free@.contains(n as usize)) by {
                        if n != i {
                            assert(self.entries@[n] == old(self).entries@[n]);
                            if old(self).free@.contains(n as usize) {
                                let j = choose|j: int|
                                    0 <= j < old(self).free@.len() && old(self).free@[j] == n as usize;
                                assert(j != old(self).free@.len() - 1);
                                assert(self.free@[j] == n as usize);
                            }
                        }
                    }
                    assert(self@ =~= old(self)@.insert(t.0, value));
                }
                Ok(t)
            },
        }
    }

    /// The entry addressed by `t`, if live.
    pub fn get(&self, t: Token) -> (r: Option<&T>)
        requires
            self.wf(),
        ensures
            match r {
                Some(v) => self@.contains_key(t.0) && *v == self@[t.0],
                None => !self@.contains_key(t.0),
            },
    {
        if t.0 < self.base || t.0 - self.base >= self.entries.len() {
            return None;
        }
        self.entries[t.0 - self.base].as_ref()
    }

    /// Mutable access to the entry addressed by `t`, if live.
    pub fn get_mut(&mut self, t: Token) -> (r: Option<&mut T>)
        requires
            old(self).wf(),
        ensures
            match r {
                Some(v) => {
                    &&& old(self)@.contains_key(t.0)
                    &&& *v == old(self)@[t.0]
                    &&& final(self).wf()
                    &&& final(self).spec_base() == old(self).spec_base()
                    &&& final(self).spec_capacity() == old(self).spec_capacity()
                    &&& final(self)@ == old(self)@.insert(t.0, *final(v))
                },
                None => !old(self)@.contains_key(t.0) && *final(self) == *old(self),
            },
    {
        if t.0 < self.base || t.0 - self.base >= self.entries.len() {
            return None;
        }
        let i = t.0 - self.base;
        if self.entries[i].is_none() {
            return None;
        }
        self.entries[i].as_mut()
    }

    /// Takes the entry addressed by `t` out of the table, freeing its slot.
    pub fn remove(&mut self, t: Token) -> (r: Option<T>)
        requires
            old(self).wf(),
        ensures
            final(self).wf(),
            final(self).spec_base() == old(self).spec_base(),
            final(self).spec_capacity() == old(self).spec_capacity(),
            final(self)@ == old(self)@.remove(t.0),
            r == (if old(self)@.contains_key(t.0) {
                Some(old(self)@[t.0])
            } else {
                None
            }),
    {
        if t.0 < self.base || t.0 - self.base >= self.entries.len() {
            proof {
                assert(self@ =~= old(self)@.remove(t.0));
            }
            return None;
        }
        let i = t.0 - self.base;
        if self.entries[i].is_none() {
            proof {
                assert(self@ =~= old(self)@.remove(t.0));
            }
            return None;
        }
        let mut slot: Option<T> = None;
        std::mem::swap(&mut self.entries[i], &mut slot);
        proof {
            assert(!self.free@.contains(i));
        }
        self.free.push(i);
        proof {
            assert forall|j: int| 0 <= j < self.free@.len() implies #[trigger] self.free@[j]
                < self.entries@.len() by {
                if j < old(self).free@.len() {
                    assert(self.free@[j] == old(self).free@[j]);
                }
            }
            assert forall|n: int| 0 <= n < self.entries@.len() implies (
            #[trigger] self.entries@[n] is None <==> self.free@.contains(n as usize)) by {
                if n != i {
                    assert(self.entries@[n] == old(self).entries@[n]);
                    if old(self).free@.contains(n as usize) {
                        let j = choose|j: int|
                            0 <= j < old(self).free@.len() && old(self).free@[j] == n as usize;
                        assert(self.free@[j] == n as usize);
                    }
                    if self.free@.contains(n as usize) {
                        let j = choose|j: int|
                            0 <= j < self.free@.len() && self.free@[j] == n as usize;
                        assert(j != self.free@.len() - 1);
                        assert(old(self).free@[j] == n as usize);
                    }
                } else {
                    assert(self.free@[self.free@.len() - 1] == i);
                }
            }
            assert(self@ =~= old(self)@.remove(t.0));
        }
        slot
    }

    /// The live tokens, in increasing order.
    pub fn keys(&self) -> (r: Vec<Token>)
        requires
            self.wf(),
        ensures
            forall|i: int| 0 <= i < r@.len() ==> self@.contains_key(#[trigger] r@[i].0),
            forall|k: usize|
                #[trigger] self@.contains_key(k) ==> exists|i: int| 0 <= i < r@.len() && r@[i].0 == k,
            forall|i: int, j: int| 0 <= i < j < r@.len() ==> r@[i].0 < r@[j].0,
    {
        let mut r: Vec<Token> = Vec::new();
        let mut i: usize = 0;
        while i < self.entries.len()
            invariant
                self.wf(),
                i <= self.entries@.len(),
                forall|n: int| 0 <= n < r@.len() ==> self@.contains_key(#[trigger] r@[n].0),
                forall|n: int| 0 <= n < r@.len() ==> #[trigger] r@[n].0 < self.base + i,
                forall|k: usize|
                    #[trigger] self@.contains_key(k) && k < self.base + i ==> exists|n: int|
                        0 <= n < r@.len() && r@[n].0 == k,
                forall|n: int, m: int| 0 <= n < m < r@.len() ==> r@[n].0 < r@[m].0,
            decreases self.entries@.len() - i,
        {
            if self.entries[i].is_some() {
                let t = Token(self.base + i);
                proof {
                    assert(self@.contains_key(t.0));
                }
                let ghost r0 = r@;
                r.push(t);
                proof {
                    assert forall|k: usize|
                        #[trigger] self@.contains_key(k) && k < self.base + i + 1 implies exists|n: int|
                        0 <= n < r@.len() && r@[n].0 == k by {
                        if k == t.0 {
                            assert(r@[r@.len() - 1].0 == k);
                        } else {
                            assert(k < self.base + i);
                            let n = choose|n: int| 0 <= n < r0.len() && r0[n].0 == k;
                            assert(r@[n].0 == k);
                        }
                    }
                }
            } else {
                proof {
                    assert forall|k: usize|
                        #[trigger] self@.contains_key(k) && k < self.base + i + 1 implies exists|n: int|
                        0 <= n < r@.len() && r@[n].0 == k by {
                        if k == self.base + i {
                            assert(!self@.contains_key(k));
                        }
                    }
                }
            }
            i = i + 1;
        }
        r
    }
}

} // verus!
