//! Fixed-capacity text buffer for user programs.
use vstd::prelude::*;
use vstd::slice::slice_subrange;
use vstd::string::StringSliceAdditionalSpecFns;
use vstd::utf8::valid_utf8;
use crate::text::utf8;

verus! {

/// Text buffer of fixed capacity `N`; writes past the capacity are cut off.
pub struct Buf<const N: usize> {
    data: Vec<u8>,
    len: usize,
}

impl<const N: usize> Buf<N> {
    /// The bytes held.
    pub closed spec fn bytes(&self) -> Seq<u8> {
        self.data@.subrange(0, self.len as int)
    }

    /// Capacity and contents fit together.
    pub closed spec fn wf(&self) -> bool {
        self.data@.len() == N && self.len <= N
    }

    /// An empty buffer.
    pub fn new() -> (b: Self)
        ensures
            b.wf(),
            b.bytes() == Seq::<u8>::empty(),
    {
        let mut data: Vec<u8> = Vec::new();
        while data.len() < N
            invariant
                data@.len() <= N,
            decreases N - data.len(),
        {
            data.push(0);
        }
        Buf { data, len: 0 }
    }

    /// The text held; empty when the bytes are not valid UTF-8 (a write cut a character).
    pub fn as_str(&self) -> (r: &str)
        requires
            self.wf(),
        ensures
            valid_utf8(self.bytes()) ==> r.spec_bytes() == self.bytes(),
            !valid_utf8(self.bytes()) ==> r@ == ""@,
    {
        match utf8(slice_subrange(self.data.as_slice(), 0, self.len)) {
            Some(s) => s,
            None => "",
        }
    }

    /// The bytes held.
    pub fn as_bytes(&self) -> (r: &[u8])
        requires
            self.wf(),
        ensures
            r@ == self.bytes(),
    {
        slice_subrange(self.data.as_slice(), 0, self.len)
    }

    /// Empties the buffer.
    pub fn clear(&mut self)
        requires
            old(self).wf(),
        ensures
            final(self).wf(),
            final(self).bytes() == Seq::<u8>::empty(),
    {
        self.len = 0;
    }

    /// Appends as much of `s` as fits.
    pub fn write_str(&mut self, s: &str)
        requires
            old(self).wf(),
        ensures
            final(self).wf(),
            final(self).bytes() == old(self).bytes() + s.spec_bytes().subrange(
                0,
                if s.spec_bytes().len() <= N - old(self).bytes().len() {
                    s.spec_bytes().len() as int
                } else {
                    N - old(self).bytes().len()
                },
            ),
    {
        let b = s.as_bytes();
        let room = N - self.len;
        let n = if b.len() <= room { b.len() } else { room };
        let ghost before = self.data@;
        let mut i: usize = 0;
        while i < n
            invariant
                self.data@.len() == N,
                self.len + n <= N,
                n <= b@.len(),
                i <= n,
                self.len == old(self).len,
                forall|k: int| 0 <= k < self.len ==> #[trigger] self.data@[k] == before[k],
                forall|k: int| 0 <= k < i ==> #[trigger] self.data@[self.len + k] == b@[k],
            decreases n - i,
        {
            let at = self.len + i;
            self.data.set(at, b[i]);
            i += 1;
        }
        let ghost l0 = self.len;
        assert forall|k: int| 0 <= k < l0 + n implies #[trigger] self.data@[k] == (before.subrange(0, l0 as int) + b@.subrange(0, n as int))[k] by {
            if k >= l0 {
                assert(self.data@[l0 + (k - l0)] == b@[k - l0]);
            }
        }
        self.len = self.len + n;
        assert(self.data@.subrange(0, self.len as int) =~= before.subrange(0, old(self).len as int) + b@.subrange(0, n as int));
    }
}

impl<const N: usize> Default for Buf<N> {
    fn default() -> (b: Self)
        ensures
            b.wf(),
            b.bytes() == Seq::<u8>::empty(),
    {
        Self::new()
    }
}

} // verus!
