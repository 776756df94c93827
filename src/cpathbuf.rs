use vstd::prelude::*;

verus! {

/// The byte that separates the parts of a path.
pub const SEPARATOR: u8 = 47;

/// A path as a byte string followed by one zero byte, ready for the OS.
pub struct CPathBuf(Vec<u8>);

impl Clone for CPathBuf {
    fn clone(&self) -> (r: Self)
        ensures
            r@ == self@,
    {
        proof {
            use_type_invariant(self);
        }
        CPathBuf(self.0.clone())
    }
}

/// `b` holds no zero byte.
pub open spec fn no_zero(b: Seq<u8>) -> bool {
    forall|k: int| 0 <= k < b.len() ==> b[k] != 0
}

/// The bytes of the path `parent` (terminator included) joined with `name`.
pub open spec fn join_spec(parent: Seq<u8>, name: Seq<u8>) -> Seq<u8> {
    parent.drop_last() + seq![SEPARATOR] + name + seq![0u8]
}

impl View for CPathBuf {
    type V = Seq<u8>;

    /// Every byte, the terminator included.
    closed spec fn view(&self) -> Seq<u8> {
        self.0@
    }
}

impl CPathBuf {
    #[verifier::type_invariant]
    spec fn terminated(&self) -> bool {
        &&& 1 <= self.0@.len() <= usize::MAX
        &&& self.0@.last() == 0
        &&& no_zero(self.0@.drop_last())
    }

    /// The path whose bytes are `src`.
    pub fn from_bytes(src: &[u8]) -> (r: CPathBuf)
        requires
            src@.len() < usize::MAX,
            no_zero(src@),
        ensures
            r@ == src@.push(0u8),
    {
        let mut buf: Vec<u8> = Vec::with_capacity(src.len() + 1);
        let mut i: usize = 0;
        while i < src.len()
            invariant
                i <= src@.len() < usize::MAX,
                buf@ == src@.take(i as int),
            decreases src@.len() - i,
        {
            buf.push(src[i]);
            i = i + 1;
            assert(buf@ =~= src@.take(i as int));
        }
        buf.push(0u8);
        assert(buf@ =~= src@.push(0u8));
        assert(buf@.drop_last() =~= src@);
        CPathBuf(buf)
    }

    /// `self`, a separator, `name` and a terminator, built in one allocation.
    pub fn join(&self, name: &[u8]) -> (r: CPathBuf)
        requires
            self@.len() + name@.len() + 1 <= usize::MAX,
            no_zero(name@),
        ensures
            r@ == join_spec(self@, name@),
    {
        proof {
            use_type_invariant(self);
        }
        let plen = self.0.len() - 1;
        let mut buf: Vec<u8> = Vec::with_capacity(self.0.len() + name.len() + 1);
        let mut i: usize = 0;
        while i < plen
            invariant
                plen == self@.len() - 1,
                i <= plen,
                buf@ == self@.take(i as int),
                self@ == self.0@,
            decreases plen - i,
        {
            buf.push(self.0[i]);
            i = i + 1;
            assert(buf@ =~= self@.take(i as int));
        }
        buf.push(SEPARATOR);
        let mut j: usize = 0;
        while j < name.len()
            invariant
                j <= name@.len(),
                buf@ == self@.drop_last() + seq![SEPARATOR] + name@.take(j as int),
            decreases name@.len() - j,
        {
            buf.push(name[j]);
            j = j + 1;
            assert(buf@ =~= self@.drop_last() + seq![SEPARATOR] + name@.take(j as int));
        }
        buf.push(0u8);
        assert(name@.take(j as int) =~= name@);
        assert(buf@ =~= join_spec(self@, name@));
        assert(buf@.drop_last() =~= self@.drop_last() + seq![SEPARATOR] + name@);
        CPathBuf(buf)
    }

    /// The path's bytes without the terminator.
    pub fn as_slice(&self) -> (r: Vec<u8>)
        ensures
            r@ == self@.drop_last(),
            self@.len() >= 1,
            no_zero(r@),
    {
        proof {
            use_type_invariant(self);
        }
        let plen = self.0.len() - 1;
        let mut out: Vec<u8> = Vec::with_capacity(plen);
        let mut i: usize = 0;
        while i < plen
            invariant
                plen == self@.len() - 1,
                i <= plen,
                out@ == self@.take(i as int),
                self@ == self.0@,
            decreases plen - i,
        {
            out.push(self.0[i]);
            i = i + 1;
            assert(out@ =~= self@.take(i as int));
        }
        assert(out@ =~= self@.drop_last());
        out
    }

    /// Every byte, the terminator included, as the OS takes a path.
    pub fn as_bytes_with_nul(&self) -> (r: &[u8])
        ensures
            r@ == self@,
            r@.len() >= 1,
            r@.last() == 0,
            no_zero(r@.drop_last()),
    {
        proof {
            use_type_invariant(self);
        }
        self.0.as_slice()
    }
}

/// Joining adds exactly one separator and one terminator, and both parts
/// are recovered by taking them back off.
pub proof fn lemma_join_split(parent: Seq<u8>, name: Seq<u8>)
    requires
        parent.len() >= 1,
        parent.last() == 0,
    ensures
        join_spec(parent, name).len() == parent.len() + name.len() + 1,
        join_spec(parent, name).last() == 0,
        join_spec(parent, name)[parent.len() - 1] == SEPARATOR,
        join_spec(parent, name).take(parent.len() - 1) == parent.drop_last(),
        join_spec(parent, name).take(parent.len() - 1).push(0u8) == parent,
        join_spec(parent, name).subrange(
            parent.len() as int,
            join_spec(parent, name).len() - 1,
        ) == name,
{
    let j = join_spec(parent, name);
    let n = parent.len() as int;
    assert(j.take(n - 1) =~= parent.drop_last());
    assert(j.take(n - 1).push(0u8) =~= parent);
    assert(j.subrange(n, j.len() - 1) =~= name);
}

} // verus!
