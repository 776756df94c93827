use vstd::prelude::*;

verus! {

/// A byte region of fixed capacity whose first `init_len` bytes are valid.
pub trait ReadBuf: Sized {
    /// Every byte of the region, valid or not.
    spec fn data_view(&self) -> Seq<u8>;

    /// How many leading bytes are valid.
    spec fn init_len_view(&self) -> nat;

    /// Well-formedness of the value.
    spec fn inv(&self) -> bool;

    /// Where this buffer's bytes start in the storage beneath it.
    spec fn origin(&self) -> nat;

    proof fn lemma_init_within(&self)
        requires
            self.inv(),
        ensures
            self.init_len_view() <= self.data_view().len() <= usize::MAX,
    ;

    /// The capacity.
    fn len(&self) -> (r: usize)
        requires
            self.inv(),
        ensures
            r == self.data_view().len(),
    ;

    /// The number of valid bytes.
    fn init_len(&self) -> (r: usize)
        requires
            self.inv(),
        ensures
            r == self.init_len_view(),
    ;

    /// The number of bytes past the valid prefix.
    fn uninit_len(&self) -> (r: usize)
        requires
            self.inv(),
        ensures
            r == self.data_view().len() - self.init_len_view(),
    ;

    /// One byte of the region.
    fn byte(&self, i: usize) -> (r: u8)
        requires
            self.inv(),
            i < self.data_view().len(),
        ensures
            r == self.data_view()[i as int],
    ;

    /// A copy of the valid prefix.
    fn init(&self) -> (r: Vec<u8>)
        requires
            self.inv(),
        ensures
            r@ == self.data_view().take(self.init_len_view() as int),
    ;

    /// Forgets every valid byte, keeping the storage.
    fn clear(&mut self)
        requires
            old(self).inv(),
        ensures
            final(self).inv(),
            final(self).data_view() == old(self).data_view(),
            final(self).init_len_view() == 0,
            final(self).origin() == old(self).origin(),
    ;

    /// Declares the first `len` bytes valid.
    fn set_init_len(&mut self, len: usize)
        requires
            old(self).inv(),
            len <= old(self).data_view().len(),
        ensures
            final(self).inv(),
            final(self).data_view() == old(self).data_view(),
            final(self).init_len_view() == len,
            final(self).origin() == old(self).origin(),
    ;

    /// Writes `bytes` right after the valid prefix and declares them valid.
    fn write_uninit(&mut self, bytes: &[u8])
        requires
            old(self).inv(),
            old(self).init_len_view() + bytes@.len() <= old(self).data_view().len(),
        ensures
            final(self).inv(),
            final(self).init_len_view() == old(self).init_len_view() + bytes@.len(),
            final(self).data_view() == filled(
                old(self).data_view(),
                old(self).init_len_view() as int,
                bytes@,
            ),
            final(self).origin() == old(self).origin(),
    ;
}

/// A source that fills the free part of a buffer.
pub trait Read2 {
    /// Reads into the bytes past `buf`'s valid prefix and returns how many were
    /// written, or an OS error code.
    fn read_buf<B: ReadBuf>(&mut self, buf: &mut B) -> (r: Result<usize, i32>)
        requires
            old(buf).inv(),
        ensures
            final(buf).inv(),
            final(buf).data_view().len() == old(buf).data_view().len(),
            r is Ok ==> final(buf).init_len_view() == old(buf).init_len_view() + r->Ok_0,
            r is Err ==> final(buf).init_len_view() == old(buf).init_len_view(),
    ;
}

/// `data` with `bytes` written over it from position `at`.
pub open spec fn filled(data: Seq<u8>, at: int, bytes: Seq<u8>) -> Seq<u8> {
    data.take(at) + bytes + data.skip(at + bytes.len())
}

/// A buffer over storage that it owns.
#[derive(Debug)]
pub struct ReadBuffer {
    data: Vec<u8>,
    initialized: usize,
}

impl ReadBuffer {
    /// Takes `data` as storage, with no byte valid yet.
    pub fn new(data: Vec<u8>) -> (r: ReadBuffer)
        ensures
            r.inv(),
            r.data_view() == data@,
            r.init_len_view() == 0,
    {
        proof {
            assert(data.len() == data@.len());
        }
        ReadBuffer { data, initialized: 0 }
    }
}

impl ReadBuf for ReadBuffer {
    closed spec fn data_view(&self) -> Seq<u8> {
        self.data@
    }

    closed spec fn init_len_view(&self) -> nat {
        self.initialized as nat
    }

    closed spec fn inv(&self) -> bool {
        self.initialized <= self.data@.len() <= usize::MAX
    }

    closed spec fn origin(&self) -> nat {
        0
    }

    proof fn lemma_init_within(&self) {
    }

    fn len(&self) -> (r: usize) {
        self.data.len()
    }

    fn init_len(&self) -> (r: usize) {
        self.initialized
    }

    fn uninit_len(&self) -> (r: usize) {
        self.data.len() - self.initialized
    }

    fn byte(&self, i: usize) -> (r: u8) {
        self.data[i]
    }

    fn init(&self) -> (r: Vec<u8>) {
        let mut out: Vec<u8> = Vec::with_capacity(self.initialized);
        let mut i: usize = 0;
        while i < self.initialized
            invariant
                i <= self.initialized <= self.data@.len(),
                out@ == self.data@.take(i as int),
            decreases self.initialized - i,
        {
            out.push(self.data[i]);
            i = i + 1;
            assert(out@ =~= self.data@.take(i as int));
        }
        out
    }

    fn clear(&mut self) {
        self.initialized = 0;
    }

    fn set_init_len(&mut self, len: usize) {
        self.initialized = len;
    }

    fn write_uninit(&mut self, bytes: &[u8]) {
        let ghost start = self.data@;
        let at = self.initialized;
        let mut i: usize = 0;
        while i < bytes.len()
            invariant
                at == self.initialized,
                at + bytes@.len() <= start.len() <= usize::MAX,
                i <= bytes@.len(),
                self.data@ == filled(start, at as int, bytes@.take(i as int)),
            decreases bytes@.len() - i,
        {
            self.data[at + i] = bytes[i];
            i = i + 1;
            assert(self.data@ =~= filled(start, at as int, bytes@.take(i as int)));
        }
        assert(bytes@.take(i as int) =~= bytes@);
        self.initialized = at + bytes.len();
    }
}

/// A buffer over the free part of another one: what it declares valid
/// extends the valid prefix of the one below.
pub struct SubReadBuffer<T: ReadBuf> {
    offset: usize,
    parent: T,
    initialized: usize,
}

impl<T: ReadBuf> SubReadBuffer<T> {
    /// Opens a view over the bytes past `parent`'s valid prefix.
    pub fn new(parent: T) -> (r: SubReadBuffer<T>)
        requires
            parent.inv(),
        ensures
            r.inv(),
            r.parent_view() == parent,
            r.origin() == parent.init_len_view(),
            r.data_view() == parent.data_view().skip(parent.init_len_view() as int),
            r.init_len_view() == 0,
    {
        let offset = parent.init_len();
        proof {
            parent.lemma_init_within();
        }
        SubReadBuffer { offset, parent, initialized: 0 }
    }

    pub closed spec fn parent_view(&self) -> T {
        self.parent
    }

    /// Gives the buffer below back, with what this view declared valid.
    pub fn into_parent(self) -> (r: T)
        requires
            self.inv(),
        ensures
            r == self.parent_view(),
            r.inv(),
            r.init_len_view() == self.origin() + self.init_len_view(),
            r.data_view().len() == self.origin() + self.data_view().len(),
            r.data_view().skip(self.origin() as int) == self.data_view(),
    {
        self.parent
    }
}

impl<T: ReadBuf> ReadBuf for SubReadBuffer<T> {
    closed spec fn data_view(&self) -> Seq<u8> {
        self.parent.data_view().skip(self.offset as int)
    }

    closed spec fn init_len_view(&self) -> nat {
        self.sub_init()
    }

    closed spec fn inv(&self) -> bool {
        self.sub_inv()
    }

    closed spec fn origin(&self) -> nat {
        self.offset as nat
    }

    proof fn lemma_init_within(&self) {
        self.parent.lemma_init_within();
    }

    fn len(&self) -> (r: usize) {
        self.parent.len() - self.offset
    }

    fn init_len(&self) -> (r: usize) {
        self.initialized
    }

    fn uninit_len(&self) -> (r: usize) {
        self.parent.len() - self.offset - self.initialized
    }

    fn byte(&self, i: usize) -> (r: u8) {
        proof {
            self.parent.lemma_init_within();
        }
        self.parent.byte(self.offset + i)
    }

    fn init(&self) -> (r: Vec<u8>) {
        proof {
            self.parent.lemma_init_within();
        }
        let mut out: Vec<u8> = Vec::with_capacity(self.initialized);
        let mut i: usize = 0;
        while i < self.initialized
            invariant
                self.inv(),
                self.parent.data_view().len() <= usize::MAX,
                i <= self.initialized,
                out@ == self.data_view().take(i as int),
            decreases self.initialized - i,
        {
            out.push(self.parent.byte(self.offset + i));
            i = i + 1;
            assert(out@ =~= self.data_view().take(i as int));
        }
        out
    }

    fn clear(&mut self) {
        self.set_init_len(0);
    }

    fn set_init_len(&mut self, len: usize) {
        proof {
            self.parent.lemma_init_within();
        }
        self.parent.set_init_len(self.offset + len);
        self.initialized = len;
    }

    fn write_uninit(&mut self, bytes: &[u8]) {
        let ghost before = self.parent.data_view();
        proof {
            self.parent.lemma_init_within();
        }
        self.parent.write_uninit(bytes);
        self.initialized = self.initialized + bytes.len();
        assert(self.data_view() =~= filled(
            before.skip(self.offset as int),
            old(self).initialized as int,
            bytes@,
        ));
    }
}

impl<T: ReadBuf> SubReadBuffer<T> {
    pub closed spec fn sub_init(&self) -> nat {
        self.initialized as nat
    }

    pub closed spec fn sub_inv(&self) -> bool {
        &&& self.parent.inv()
        &&& self.offset + self.initialized <= self.parent.data_view().len()
        &&& self.parent.init_len_view() == self.offset + self.initialized
    }
}

} // verus!
