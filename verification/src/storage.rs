//! Where the bytes of an index live.
use std::sync::Arc;
use vstd::prelude::*;

verus! {

/// The bytes of an index.
pub enum Storage<'a> {
    /// Bytes that someone else keeps, such as a mapped file.
    Mapped(&'a [u8]),
    /// Bytes of its own.
    Owned(Vec<u8>),
    /// Bytes shared with other readers.
    Shared(Arc<[u8]>),
}

impl<'a> View for Storage<'a> {
    type V = Seq<u8>;

    open spec fn view(&self) -> Seq<u8> {
        match self {
            Storage::Mapped(s) => s@,
            Storage::Owned(v) => v@,
            Storage::Shared(a) => a@,
        }
    }
}

impl<'a> Storage<'a> {
    /// The bytes.
    pub fn as_slice(&self) -> (r: &[u8])
        ensures
            r@ == self@,
    {
        match self {
            Storage::Mapped(s) => s,
            Storage::Owned(v) => v.as_slice(),
            Storage::Shared(a) => &**a,
        }
    }

    /// A copy of the bytes.
    pub fn to_vec(&self) -> (r: Vec<u8>)
        ensures
            r@ == self@,
    {
        let s = self.as_slice();
        let mut r: Vec<u8> = Vec::new();
        let mut i: usize = 0;
        while i < s.len()
            invariant
                i <= s@.len(),
                r@ == s@.take(i as int),
            decreases s@.len() - i,
        {
            r.push(s[i]);
            i = i + 1;
            assert(s@.take(i as int) =~= s@.take(i - 1).push(s@[i - 1]));
        }
        assert(s@.take(s@.len() as int) =~= s@);
        r
    }
}

} // verus!
