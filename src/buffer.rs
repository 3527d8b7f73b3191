use std::sync::Arc;
use vstd::prelude::*;
use vstd::slice::slice_subrange;

verus! {

/// Shared, immutable window over a byte region, with a start cursor that
/// moves forward as bytes are sent. Clones share the storage.
pub struct OutBuf {
    data: Arc<Vec<u8>>,
    start: usize,
}

impl View for OutBuf {
    /// The bytes still to send.
    type V = Seq<u8>;

    closed spec fn view(&self) -> Seq<u8> {
        self.data@.subrange(self.start as int, self.data@.len() as int)
    }
}

/// Relies on `Arc::clone`: the new handle points at the same value.
#[verifier::external_body]
fn share_storage(data: &Arc<Vec<u8>>) -> (r: Arc<Vec<u8>>)
    ensures
        r@ == data@,
{
    Arc::clone(data)
}

impl OutBuf {
    #[verifier::type_invariant]
    spec fn inv(&self) -> bool {
        self.start <= self.data@.len()
    }

    /// A window over all of `bytes`.
    pub fn from_vec(bytes: Vec<u8>) -> (r: OutBuf)
        ensures
            r@ == bytes@,
    {
        let r = OutBuf { data: Arc::new(bytes), start: 0 };
        proof {
            assert(r@ =~= bytes@);
        }
        r
    }

    /// A window with nothing to send.
    pub fn empty() -> (r: OutBuf)
        ensures
            r@ == Seq::<u8>::empty(),
    {
        OutBuf::from_vec(Vec::new())
    }

    /// Bytes remaining to send.
    pub fn len(&self) -> (r: usize)
        ensures
            r == self@.len(),
    {
        proof {
            use_type_invariant(self);
        }
        self.data.len() - self.start
    }

    pub fn is_empty(&self) -> (r: bool)
        ensures
            r == (self@.len() == 0),
    {
        proof {
            use_type_invariant(self);
        }
        self.start == self.data.len()
    }

    /// The bytes still to send.
    pub fn window(&self) -> (r: &[u8])
        ensures
            r@ == self@,
    {
        proof {
            use_type_invariant(self);
        }
        slice_subrange(self.data.as_slice(), self.start, self.data.len())
    }

    /// Moves the start cursor past `n` sent bytes.
    pub fn advance(&mut self, n: usize)
        requires
            n <= old(self)@.len(),
        ensures
            final(self)@ == old(self)@.subrange(n as int, old(self)@.len() as int),
    {
        proof {
            use_type_invariant(&*self);
        }
        let remaining = self.len();
        self.start = self.data.len() - (remaining - n);
        proof {
            assert(self@ =~= old(self)@.subrange(n as int, old(self)@.len() as int));
        }
    }

    /// A second handle on the same bytes; the storage is shared, not copied.
    pub fn share(&self) -> (r: OutBuf)
        ensures
            r@ == self@,
    {
        proof {
            use_type_invariant(self);
        }
        OutBuf { data: share_storage(&self.data), start: self.start }
    }
}

} // verus!
