use vstd::prelude::*;
use crate::read_buf::{filled, ReadBuf};

verus! {

/// A buffer of fixed capacity that owns its storage, filled by one batched
/// directory read at a time.
#[derive(Debug)]
pub struct Buffer {
    data: Vec<u8>,
    initialized: usize,
}

impl Buffer {
    #[verifier::type_invariant]
    spec fn well_formed(&self) -> bool {
        self.initialized <= self.data@.len()
    }

    /// The number of valid bytes; every buffer is well formed.
    pub fn filled_len(&self) -> (r: usize)
        ensures
            self.inv(),
            r == self.init_len_view(),
    {
        proof {
            use_type_invariant(self);
        }
        self.initialized
    }

    /// A buffer of `capacity` bytes with no valid byte yet.
    pub fn allocate(capacity: usize) -> (r: Buffer)
        ensures
            r.inv(),
            r.data_view().len() == capacity,
            r.init_len_view() == 0,
    {
        let mut data: Vec<u8> = Vec::with_capacity(capacity);
        let mut i: usize = 0;
        while i < capacity
            invariant
                i <= capacity,
                data@.len() == i,
            decreases capacity - i,
        {
            data.push(0u8);
            i = i + 1;
        }
        Buffer { data, initialized: 0 }
    }

    /// A buffer whose storage is exactly `bytes`, all of them valid.
    pub fn from_bytes(bytes: &[u8]) -> (r: Buffer)
        ensures
            r.inv(),
            r.data_view() == bytes@,
            r.init_len_view() == bytes@.len(),
    {
        let mut b = Buffer::allocate(bytes.len());
        b.write_uninit(bytes);
        assert(b.data_view() =~= bytes@);
        b
    }
}

impl ReadBuf for Buffer {
    closed spec fn data_view(&self) -> Seq<u8> {
        self.data@
    }

    closed spec fn init_len_view(&self) -> nat {
        self.initialized as nat
    }

    closed spec fn inv(&self) -> bool {
        self.initialized <= self.data@.len()
    }

    closed spec fn origin(&self) -> nat {
        0
    }

    proof fn lemma_init_within(&self) {
        assert(self.data.len() == self.data@.len());
    }

    fn len(&self) -> (r: usize) {
        self.data.len()
    }

    fn init_len(&self) -> (r: usize) {
        self.initialized
    }

    fn uninit_len(&self) -> (r: usize) {
        self.data.len() - self.initialized
    }

    fn byte(&self, i: usize) -> (r: u8) {
        self.data[i]
    }

    fn init(&self) -> (r: Vec<u8>) {
        let mut out: Vec<u8> = Vec::with_capacity(self.initialized);
        let mut i: usize = 0;
        while i < self.initialized
            invariant
                i <= self.initialized <= self.data@.len(),
                out@ == self.data@.take(i as int),
            decreases self.initialized - i,
        {
            out.push(self.data[i]);
            i = i + 1;
            assert(out@ =~= self.data@.take(i as int));
        }
        out
    }

    fn clear(&mut self) {
        self.initialized = 0;
    }

    fn set_init_len(&mut self, len: usize) {
        self.initialized = len;
    }

    fn write_uninit(&mut self, bytes: &[u8]) {
        let ghost start = self.data@;
        proof {
            assert(self.data.len() == self.data@.len());
        }
        let at = self.initialized;
        let mut i: usize = 0;
        while i < bytes.len()
            invariant
                at == self.initialized,
                at + bytes@.len() <= start.len() <= usize::MAX,
                self.data@.len() == start.len(),
                i <= bytes@.len(),
                self.data@ == filled(start, at as int, bytes@.take(i as int)),
            decreases bytes@.len() - i,
        {
            self.data[at + i] = bytes[i];
            i = i + 1;
            assert(self.data@ =~= filled(start, at as int, bytes@.take(i as int)));
        }
        assert(bytes@.take(i as int) =~= bytes@);
        self.initialized = at + bytes.len();
    }
}

/// Between two calls of `clear`, the valid prefix only grows and never passes
/// the capacity: writing after it keeps every byte already valid, and the
/// written bytes follow them.
pub proof fn lemma_buffer_growth<B: ReadBuf>(before: B, after: B, bytes: Seq<u8>)
    requires
        before.inv(),
        before.init_len_view() + bytes.len() <= before.data_view().len(),
        after.inv(),
        after.init_len_view() == before.init_len_view() + bytes.len(),
        after.data_view() == filled(before.data_view(), before.init_len_view() as int, bytes),
    ensures
        before.init_len_view() <= after.init_len_view() <= after.data_view().len(),
        after.data_view().len() == before.data_view().len(),
        after.data_view().take(before.init_len_view() as int) == before.data_view().take(
            before.init_len_view() as int,
        ),
        after.data_view().subrange(
            before.init_len_view() as int,
            after.init_len_view() as int,
        ) == bytes,
{
    after.lemma_init_within();
    let n = before.init_len_view() as int;
    assert(after.data_view().take(n) =~= before.data_view().take(n));
    assert(after.data_view().subrange(n, after.init_len_view() as int) =~= bytes);
}

} // verus!
