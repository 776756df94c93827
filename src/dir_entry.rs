use vstd::prelude::*;
use crate::buffer::Buffer;
use crate::cpathbuf::no_zero;
use crate::read_buf::ReadBuf;

verus! {

/// Bytes before a record's name: inode (8), offset (8), length (2), type (1).
pub const HEADER_LEN: usize = 19;

/// Where a record's length field starts.
pub const RECLEN_AT: usize = 16;

/// Where a record's type tag stands.
pub const TYPE_AT: usize = 18;

/// The byte of `.`.
pub const DOT: u8 = 46;

/// The kind of a directory entry, as the kernel tags it.
#[derive(Clone, Copy, Debug, PartialEq, Eq, Structural)]
pub enum EntryType {
    Unknown,
    Fifo,
    CharDev,
    Dir,
    BlockDev,
    Regular,
    Symlink,
    Socket,
}

/// The kind that the kernel's type tag `code` stands for, if any.
pub open spec fn type_of_code(code: u8) -> Option<EntryType> {
    if code == 0 {
        Some(EntryType::Unknown)
    } else if code == 1 {
        Some(EntryType::Fifo)
    } else if code == 2 {
        Some(EntryType::CharDev)
    } else if code == 4 {
        Some(EntryType::Dir)
    } else if code == 6 {
        Some(EntryType::BlockDev)
    } else if code == 8 {
        Some(EntryType::Regular)
    } else if code == 10 {
        Some(EntryType::Symlink)
    } else if code == 12 {
        Some(EntryType::Socket)
    } else {
        None
    }
}

/// The name of each kind.
pub open spec fn kind_name(t: EntryType) -> Seq<char> {
    match t {
        EntryType::Unknown => "Unknown"@,
        EntryType::Fifo => "Fifo"@,
        EntryType::CharDev => "CharDev"@,
        EntryType::Dir => "Dir"@,
        EntryType::BlockDev => "BlockDev"@,
        EntryType::Regular => "Regular"@,
        EntryType::Symlink => "Symlink"@,
        EntryType::Socket => "Socket"@,
    }
}

impl EntryType {
    /// The name of the kind.
    pub fn as_str(&self) -> (r: &'static str)
        ensures
            r@ == kind_name(*self),
    {
        match self {
            EntryType::Unknown => "Unknown",
            EntryType::Fifo => "Fifo",
            EntryType::CharDev => "CharDev",
            EntryType::Dir => "Dir",
            EntryType::BlockDev => "BlockDev",
            EntryType::Regular => "Regular",
            EntryType::Symlink => "Symlink",
            EntryType::Socket => "Socket",
        }
    }

    /// The kind that the kernel's type tag `code` stands for, if any.
    pub fn from_code(code: u8) -> (r: Option<EntryType>)
        ensures
            r == type_of_code(code),
    {
        match code {
            0 => Some(EntryType::Unknown),
            1 => Some(EntryType::Fifo),
            2 => Some(EntryType::CharDev),
            4 => Some(EntryType::Dir),
            6 => Some(EntryType::BlockDev),
            8 => Some(EntryType::Regular),
            10 => Some(EntryType::Symlink),
            12 => Some(EntryType::Socket),
            _ => None,
        }
    }
}

/// One entry of a directory.
pub struct Entry {
    pub inode: u64,
    pub ty: EntryType,
    /// The name, without its terminator.
    pub name: Vec<u8>,
}

impl View for Entry {
    type V = (u64, EntryType, Seq<u8>);

    open spec fn view(&self) -> (u64, EntryType, Seq<u8>) {
        (self.inode, self.ty, self.name@)
    }
}

impl Entry {
    /// The name, without its terminator.
    pub fn c_name(&self) -> (r: &[u8])
        ensures
            r@ == self.name@,
    {
        self.name.as_slice()
    }
}

/// The number that `t` spells in little-endian order.
pub open spec fn le_value(t: Seq<u8>) -> nat
    decreases t.len(),
{
    if t.len() == 0 {
        0
    } else {
        t[0] as nat + 256 * le_value(t.drop_first())
    }
}

pub open spec fn pow256(n: nat) -> nat
    decreases n,
{
    if n == 0 {
        1
    } else {
        256 * pow256((n - 1) as nat)
    }
}

proof fn lemma_le_value_bound(t: Seq<u8>)
    ensures
        le_value(t) < pow256(t.len()),
    decreases t.len(),
{
    if t.len() > 0 {
        lemma_le_value_bound(t.drop_first());
        let a = t[0] as nat;
        let b = le_value(t.drop_first());
        let p = pow256((t.len() - 1) as nat);
        assert(a + 256 * b < 256 * p) by (nonlinear_arith)
            requires
                a < 256,
                b < p,
        ;
    }
}

/// The declared length of the record at the start of `s`.
pub open spec fn reclen_of(s: Seq<u8>) -> nat {
    s[RECLEN_AT as int] as nat + 256 * (s[RECLEN_AT + 1] as nat)
}

/// The position of the first zero byte of `s` in `[i, end)`, or `end`.
pub open spec fn zero_at(s: Seq<u8>, i: int, end: int) -> int
    decreases end - i,
{
    if i >= end {
        end
    } else if s[i] == 0 {
        i
    } else {
        zero_at(s, i + 1, end)
    }
}

proof fn lemma_zero_at_range(s: Seq<u8>, i: int, end: int)
    requires
        i <= end,
    ensures
        i <= zero_at(s, i, end) <= end,
    decreases end - i,
{
    if i < end && s[i] != 0 {
        lemma_zero_at_range(s, i + 1, end);
    }
}

proof fn lemma_zero_at_before(s: Seq<u8>, i: int, end: int)
    requires
        0 <= i <= end <= s.len(),
    ensures
        forall|k: int| i <= k < zero_at(s, i, end) ==> s[k] != 0,
    decreases end - i,
{
    if i < end && s[i] != 0 {
        lemma_zero_at_before(s, i + 1, end);
    }
}

/// The record at the start of `s` lies within `s`, has a known type tag, and
/// its name ends inside it.
pub open spec fn record_ok(s: Seq<u8>) -> bool {
    &&& s.len() > HEADER_LEN
    &&& HEADER_LEN < reclen_of(s) <= s.len()
    &&& type_of_code(s[TYPE_AT as int]) is Some
    &&& zero_at(s, HEADER_LEN as int, reclen_of(s) as int) < reclen_of(s)
}

/// The name of the record at the start of `s`.
pub open spec fn record_name(s: Seq<u8>) -> Seq<u8> {
    s.subrange(HEADER_LEN as int, zero_at(s, HEADER_LEN as int, reclen_of(s) as int))
}

/// The entry that the record at the start of `s` describes.
pub open spec fn record_entry(s: Seq<u8>) -> (u64, EntryType, Seq<u8>) {
    (le_value(s.take(8)) as u64, type_of_code(s[TYPE_AT as int])->Some_0, record_name(s))
}

/// The names `.` and `..`.
pub open spec fn is_pseudo(name: Seq<u8>) -> bool {
    name == seq![DOT] || name == seq![DOT, DOT]
}

/// The entries that the packed records `s` describe, in record order and
/// without `.` and `..`; `None` where a record is malformed.
pub open spec fn entries_of(s: Seq<u8>) -> Option<Seq<(u64, EntryType, Seq<u8>)>>
    decreases s.len(),
{
    if s.len() == 0 {
        Some(seq![])
    } else if !record_ok(s) {
        None
    } else {
        match entries_of(s.skip(reclen_of(s) as int)) {
            None => None,
            Some(t) => if is_pseudo(record_name(s)) {
                Some(t)
            } else {
                Some(seq![record_entry(s)] + t)
            },
        }
    }
}

/// The first record of `s` that is neither `.` nor `..`: its entry and
/// the bytes up to its end; or `Err` with the bytes before the first
/// malformed record; `None` where only `.` and `..` are left.
pub open spec fn first_entry(s: Seq<u8>) -> Option<Result<((u64, EntryType, Seq<u8>), nat), nat>>
    decreases s.len(),
{
    if s.len() == 0 {
        None
    } else if !record_ok(s) {
        Some(Err(0))
    } else if is_pseudo(record_name(s)) {
        shifted(first_entry(s.skip(reclen_of(s) as int)), reclen_of(s))
    } else {
        Some(Ok((record_entry(s), reclen_of(s))))
    }
}

/// `o` with `k` more bytes used before it.
pub open spec fn shifted(
    o: Option<Result<((u64, EntryType, Seq<u8>), nat), nat>>,
    k: nat,
) -> Option<Result<((u64, EntryType, Seq<u8>), nat), nat>> {
    match o {
        None => None,
        Some(Ok((e, n))) => Some(Ok((e, n + k))),
        Some(Err(n)) => Some(Err(n + k)),
    }
}

/// No name of a decoded entry holds a zero byte.
pub proof fn lemma_names_no_zero(s: Seq<u8>)
    requires
        entries_of(s) is Some,
    ensures
        forall|i: int|
            0 <= i < entries_of(s)->Some_0.len() ==> no_zero(#[trigger] entries_of(s)->Some_0[i].2),
    decreases s.len(),
{
    if s.len() > 0 {
        let rest = s.skip(reclen_of(s) as int);
        lemma_names_no_zero(rest);
        lemma_zero_at_range(s, HEADER_LEN as int, reclen_of(s) as int);
        lemma_zero_at_before(s, HEADER_LEN as int, reclen_of(s) as int);
        let name = record_name(s);
        assert(no_zero(name)) by {
            assert forall|k: int| 0 <= k < name.len() implies name[k] != 0 by {
                assert(name[k] == s[HEADER_LEN + k]);
            }
        }
        let es = entries_of(s)->Some_0;
        let t = entries_of(rest)->Some_0;
        if !is_pseudo(name) {
            assert forall|i: int| 0 <= i < es.len() implies no_zero(#[trigger] es[i].2) by {
                if i > 0 {
                    assert(es[i] == t[i - 1]);
                }
            }
        }
    }
}

/// `pre` put before the entries of `o`, if there are any.
pub open spec fn prepend(
    pre: Seq<(u64, EntryType, Seq<u8>)>,
    o: Option<Seq<(u64, EntryType, Seq<u8>)>>,
) -> Option<Seq<(u64, EntryType, Seq<u8>)>> {
    match o {
        None => None,
        Some(t) => Some(pre + t),
    }
}

/// A record that runs past the valid bytes, has an unknown type tag, or
/// whose name has no terminator.
#[derive(Debug, PartialEq, Eq, Structural)]
pub struct DecodeError {
    /// Where the record starts.
    pub offset: usize,
}

/// Walks the records of a buffer filled by one batched directory read.
pub struct DirEntryIter {
    data: Vec<u8>,
    pos: usize,
}

impl DirEntryIter {
    /// Starts at the first record of `buf`'s valid bytes.
    pub fn new(buf: &Buffer) -> (r: DirEntryIter)
        requires
            buf.inv(),
        ensures
            r.inv(),
            r.rest() == buf.data_view().take(buf.init_len_view() as int),
    {
        let data = buf.init();
        proof {
            assert(data.len() == data@.len());
        }
        let r = DirEntryIter { data, pos: 0 };
        assert(r.rest() =~= data@);
        r
    }

    /// The bytes not yet walked.
    pub closed spec fn rest(&self) -> Seq<u8> {
        self.data@.skip(self.pos as int)
    }

    pub closed spec fn inv(&self) -> bool {
        self.pos <= self.data@.len() <= usize::MAX
    }

    /// Checks the record at `pos` and returns its length and the end of its name.
    fn check_record(&self) -> (r: Option<(usize, usize)>)
        requires
            self.inv(),
            self.pos < self.data@.len(),
        ensures
            r is Some <==> record_ok(self.rest()),
            r matches Some((len, end)) ==> len == reclen_of(self.rest()) && end == zero_at(
                self.rest(),
                HEADER_LEN as int,
                len as int,
            ),
    {
        let ghost s = self.rest();
        let avail = self.data.len() - self.pos;
        if avail <= HEADER_LEN {
            return None;
        }
        let p = self.pos;
        let len = self.data[p + RECLEN_AT] as usize + 256 * (self.data[p + RECLEN_AT + 1] as usize);
        if len <= HEADER_LEN || len > avail {
            return None;
        }
        if EntryType::from_code(self.data[p + TYPE_AT]).is_none() {
            return None;
        }
        let mut i: usize = HEADER_LEN;
        while i < len && self.data[p + i] != 0
            invariant
                s == self.rest(),
                self.inv(),
                p == self.pos,
                len == reclen_of(s),
                len <= s.len(),
                HEADER_LEN <= i <= len,
                zero_at(s, i as int, len as int) == zero_at(s, HEADER_LEN as int, len as int),
            decreases len - i,
        {
            i = i + 1;
        }
        if i == len {
            None
        } else {
            Some((len, i))
        }
    }

    /// The little-endian number in the 8 bytes at `pos`.
    fn read_inode(&self) -> (r: u64)
        requires
            self.inv(),
            self.pos + 8 <= self.data@.len(),
        ensures
            r == le_value(self.rest().take(8)),
    {
        let ghost s = self.rest();
        let p = self.pos;
        let mut v: u64 = 0;
        let mut k: usize = 8;
        while k > 0
            invariant
                s == self.rest(),
                self.inv(),
                p == self.pos,
                p + 8 <= self.data@.len(),
                k <= 8,
                v == le_value(s.subrange(k as int, 8)),
                v < pow256((8 - k) as nat),
            decreases k,
        {
            let b = self.data[p + k - 1];
            proof {
                let t = s.subrange(k - 1, 8);
                assert(t.drop_first() =~= s.subrange(k as int, 8));
                lemma_le_value_bound(t);
                reveal_with_fuel(pow256, 9);
                assert(pow256(8) == 0x1_0000_0000_0000_0000);
                assert(pow256((8 - k + 1) as nat) == 256 * pow256((8 - k) as nat));
                assert(t.len() == 8 - k + 1);
            }
            v = (b as u64) + 256 * v;
            k = k - 1;
        }
        assert(s.subrange(0, 8) =~= s.take(8));
        v
    }

    /// The next entry that is neither `.` nor `..`, or `None` at the end.
    pub fn next(&mut self) -> (r: Option<Result<Entry, DecodeError>>)
        requires
            old(self).inv(),
        ensures
            final(self).inv(),
            r matches Some(Ok(_)) ==> final(self).rest().len() < old(self).rest().len(),
            first_entry(old(self).rest()) matches None ==> r is None && final(self).rest().len()
                == 0,
            first_entry(old(self).rest()) matches Some(Ok((e, n))) ==> r matches Some(Ok(x)) && x@
                == e && final(self).rest() == old(self).rest().skip(n as int),
            first_entry(old(self).rest()) matches Some(Err(n)) ==> r matches Some(Err(_))
                && final(self).rest() == old(self).rest().skip(n as int),
            r is None ==> entries_of(old(self).rest()) == Some(Seq::<(u64, EntryType, Seq<u8>)>::empty()),
            r matches Some(Err(_)) ==> entries_of(old(self).rest()) is None,
            r matches Some(Ok(e)) ==> entries_of(old(self).rest()) == prepend(
                seq![e@],
                entries_of(final(self).rest()),
            ),
    {
        loop
            invariant
                self.inv(),
                self.data@ == old(self).data@,
                self.pos >= old(self).pos,
                entries_of(old(self).rest()) == entries_of(self.rest()),
                first_entry(old(self).rest()) == shifted(
                    first_entry(self.rest()),
                    (self.pos - old(self).pos) as nat,
                ),
                self.rest() == old(self).rest().skip(self.pos - old(self).pos),
            decreases self.data@.len() - self.pos,
        {
            if self.pos == self.data.len() {
                assert(self.rest().len() == 0);
                return None;
            }
            let ghost s = self.rest();
            let (len, end) = match self.check_record() {
                None => {
                    return Some(Err(DecodeError { offset: self.pos }));
                },
                Some(x) => x,
            };
            let p = self.pos;
            proof {
                lemma_zero_at_range(s, HEADER_LEN as int, len as int);
            }
            let inode = self.read_inode();
            let ty = EntryType::from_code(self.data[p + TYPE_AT]).unwrap();
            let mut name: Vec<u8> = Vec::with_capacity(end - HEADER_LEN);
            let mut i: usize = HEADER_LEN;
            while i < end
                invariant
                    s == self.rest(),
                    self.inv(),
                    p == self.pos,
                    HEADER_LEN <= i <= end,
                    end < len <= s.len(),
                    name@ == s.subrange(HEADER_LEN as int, i as int),
                decreases end - i,
            {
                name.push(self.data[p + i]);
                i = i + 1;
                assert(name@ =~= s.subrange(HEADER_LEN as int, i as int));
            }
            self.pos = p + len;
            assert(self.rest() =~= s.skip(len as int));
            assert(self.rest() =~= old(self).rest().skip(self.pos - old(self).pos));
            let pseudo = (name.len() == 1 && name[0] == DOT) || (name.len() == 2 && name[0] == DOT
                && name[1] == DOT);
            proof {
                assert(pseudo == is_pseudo(name@)) by {
                    if name@.len() == 1 && name@[0] == DOT {
                        assert(name@ =~= seq![DOT]);
                    }
                    if name@.len() == 2 && name@[0] == DOT && name@[1] == DOT {
                        assert(name@ =~= seq![DOT, DOT]);
                    }
                }
            }
            if !pseudo {
                let e = Entry { inode, ty, name };
                assert(e@ == record_entry(s));
                return Some(Ok(e));
            }
        }
    }
}

/// Every entry of `buf`'s valid bytes, in record order and without `.` and
/// `..`, or the first malformed record.
pub fn entries(buf: &Buffer) -> (r: Result<Vec<Entry>, DecodeError>)
    requires
        buf.inv(),
    ensures
        r is Ok <==> entries_of(buf.data_view().take(buf.init_len_view() as int)) is Some,
        r matches Ok(v) ==> entries_of(buf.data_view().take(buf.init_len_view() as int))
            == Some(v@.map_values(|e: Entry| e@)),
{
    let ghost whole = buf.data_view().take(buf.init_len_view() as int);
    let mut it = DirEntryIter::new(buf);
    let mut out: Vec<Entry> = Vec::new();
    loop
        invariant
            it.inv(),
            whole == buf.data_view().take(buf.init_len_view() as int),
            entries_of(whole) == prepend(out@.map_values(|e: Entry| e@), entries_of(it.rest())),
        decreases it.rest().len(),
    {
        let ghost before = it.rest();
        match it.next() {
            None => {
                let ghost pre = out@.map_values(|x: Entry| x@);
                assert(pre + Seq::<(u64, EntryType, Seq<u8>)>::empty() =~= pre);
                assert(entries_of(whole) == Some(pre));
                return Ok(out);
            },
            Some(Err(e)) => {
                return Err(e);
            },
            Some(Ok(e)) => {
                let ghost ev = e@;
                let ghost pre = out@.map_values(|x: Entry| x@);
                out.push(e);
                proof {
                    assert(out@.map_values(|x: Entry| x@) =~= pre.push(ev));
                    match entries_of(it.rest()) {
                        None => {},
                        Some(t) => {
                            assert(pre + (seq![ev] + t) =~= pre.push(ev) + t);
                        },
                    }
                }
            },
        }
    }
}

} // verus!
