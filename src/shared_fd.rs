use vstd::prelude::*;

verus! {

/// One step of a handle's count: `true` takes one more owner, `false`
/// releases one. `None` where a release or an acquire finds no owner left;
/// else the final count and how many releases gave the raw handle back.
pub open spec fn run_counts(c: nat, ops: Seq<bool>) -> Option<(nat, nat)>
    decreases ops.len(),
{
    if ops.len() == 0 {
        Some((c, 0))
    } else if c == 0 {
        None
    } else if ops[0] {
        run_counts(c + 1, ops.drop_first())
    } else {
        match run_counts((c - 1) as nat, ops.drop_first()) {
            None => None,
            Some((f, k)) => Some((f, if c == 1 { k + 1 } else { k })),
        }
    }
}

/// How many of `ops` are acquires.
pub open spec fn acquires(ops: Seq<bool>) -> nat
    decreases ops.len(),
{
    if ops.len() == 0 {
        0
    } else {
        (if ops[0] { 1nat } else { 0nat }) + acquires(ops.drop_first())
    }
}

/// How many of `ops` are releases.
pub open spec fn releases(ops: Seq<bool>) -> nat
    decreases ops.len(),
{
    if ops.len() == 0 {
        0
    } else {
        (if ops[0] { 0nat } else { 1nat }) + releases(ops.drop_first())
    }
}

/// Over the life of a handle, whatever its owners do: the count moves by
/// exactly the acquires minus the releases, the raw handle is given back at
/// most once, and it is given back exactly when the releases have caught up
/// with the acquires and the first owner.
pub proof fn lemma_close_once(c: nat, ops: Seq<bool>)
    requires
        run_counts(c, ops) is Some,
    ensures
        ({
            let (f, k) = run_counts(c, ops)->Some_0;
            &&& f + releases(ops) == c + acquires(ops)
            &&& k == (if c > 0 && f == 0 { 1nat } else { 0nat })
        }),
    decreases ops.len(),
{
    if ops.len() > 0 {
        let rest = ops.drop_first();
        if ops[0] {
            lemma_close_once(c + 1, rest);
        } else {
            lemma_close_once((c - 1) as nat, rest);
            if c == 1 && rest.len() > 0 {
                assert(run_counts(0, rest) is None);
            }
        }
    }
}

/// The live owners of every handle opened so far, by slot.
pub struct FdTable {
    counts: Vec<usize>,
}

impl View for FdTable {
    type V = Seq<nat>;

    closed spec fn view(&self) -> Seq<nat> {
        self.counts@.map_values(|c: usize| c as nat)
    }
}

impl FdTable {
    pub fn new() -> (r: FdTable)
        ensures
            r@ == Seq::<nat>::empty(),
    {
        let r = FdTable { counts: Vec::new() };
        assert(r@ =~= Seq::<nat>::empty());
        r
    }

    /// The live owners of `h`'s raw handle.
    pub fn count(&self, h: &SharedFd) -> (r: Option<usize>)
        ensures
            r is Some <==> h.slot() < self@.len(),
            r matches Some(c) ==> c == self@[h.slot() as int],
    {
        if h.slot < self.counts.len() {
            Some(self.counts[h.slot])
        } else {
            None
        }
    }
}

/// The transient use of a raw handle for one OS call.
pub struct FdWrap {
    fd: i32,
}

impl FdWrap {
    pub fn fd(&self) -> (r: i32)
        ensures
            r == self.fd_view(),
    {
        self.fd
    }

    pub closed spec fn fd_view(&self) -> i32 {
        self.fd
    }
}

/// A raw OS handle shared by several owners, whose count is kept in a
/// `FdTable` under `slot`. Only `release` lowers the count: a value dropped
/// without it keeps its owner counted, so its raw handle is never closed.
pub struct SharedFd {
    fd: i32,
    slot: usize,
}

impl SharedFd {
    pub closed spec fn fd_view(&self) -> i32 {
        self.fd
    }

    pub closed spec fn slot(&self) -> nat {
        self.slot as nat
    }

    /// The first owner of `fd`, under a fresh slot of `table` with count 1.
    pub fn new(table: &mut FdTable, fd: i32) -> (r: SharedFd)
        ensures
            final(table)@ == old(table)@.push(1),
            r.fd_view() == fd,
            r.slot() == old(table)@.len(),
    {
        let slot = table.counts.len();
        table.counts.push(1);
        assert(table@ =~= old(table)@.push(1));
        SharedFd { fd, slot }
    }

    /// The raw handle, for one OS call; the ownership stays with `self`.
    pub fn get(&self) -> (r: FdWrap)
        ensures
            r.fd_view() == self.fd_view(),
    {
        FdWrap { fd: self.fd }
    }

    /// A second owner of the same raw handle.
    pub fn acquire(&self, table: &mut FdTable) -> (r: SharedFd)
        requires
            self.slot() < old(table)@.len(),
            1 <= old(table)@[self.slot() as int] < usize::MAX,
        ensures
            final(table)@ == old(table)@.update(
                self.slot() as int,
                old(table)@[self.slot() as int] + 1,
            ),
            r.fd_view() == self.fd_view(),
            r.slot() == self.slot(),
    {
        let c = table.counts[self.slot];
        table.counts.set(self.slot, c + 1);
        assert(table@ =~= old(table)@.update(self.slot() as int, old(table)@[self.slot() as int] + 1));
        SharedFd { fd: self.fd, slot: self.slot }
    }

    /// Gives up this owner; the raw handle comes back to the last one.
    pub fn release(self, table: &mut FdTable) -> (r: Option<i32>)
        requires
            self.slot() < old(table)@.len(),
            old(table)@[self.slot() as int] >= 1,
        ensures
            final(table)@ == old(table)@.update(
                self.slot() as int,
                (old(table)@[self.slot() as int] - 1) as nat,
            ),
            r == (if old(table)@[self.slot() as int] == 1 {
                Some(self.fd_view())
            } else {
                None::<i32>
            }),
    {
        let c = table.counts[self.slot];
        table.counts.set(self.slot, c - 1);
        assert(table@ =~= old(table)@.update(self.slot() as int, (old(table)@[self.slot() as int] - 1) as nat));
        if c == 1 {
            Some(self.fd)
        } else {
            None
        }
    }
}

} // verus!
