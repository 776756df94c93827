use vstd::prelude::*;
use crate::buffer::Buffer;
use crate::cpathbuf::{join_spec, no_zero, CPathBuf};
use crate::dir_entry::{entries, entries_of, lemma_names_no_zero, DecodeError, Entry, EntryType};
use crate::error::MyError;
use crate::read_buf::ReadBuf;
use crate::shared_fd::{FdTable, SharedFd};

verus! {

/// The bytes that each batched directory read asks for.
pub const BATCH_SIZE: usize = 1024;

/// What a request asks for, over plain values.
pub enum RequestView {
    Open(Seq<u8>),
    ReadDir(Seq<u8>, i32, nat),
    Close(Seq<u8>, i32),
}

/// Work handed to a worker.
pub enum WorkRequest {
    /// Open the directory at the path.
    Open(CPathBuf),
    /// Read the next batch of the open directory.
    ReadDir(CPathBuf, SharedFd),
    /// Close the raw handle of the directory.
    Close(CPathBuf, i32),
}

impl View for WorkRequest {
    type V = RequestView;

    open spec fn view(&self) -> RequestView {
        match self {
            WorkRequest::Open(p) => RequestView::Open(p@),
            WorkRequest::ReadDir(p, h) => RequestView::ReadDir(p@, h.fd_view(), h.slot()),
            WorkRequest::Close(p, fd) => RequestView::Close(p@, *fd),
        }
    }
}

/// What a worker hands back for one request.
pub enum WorkResponse {
    /// The raw handle of the opened directory, or why it failed.
    Open(CPathBuf, Result<i32, MyError>),
    /// The handle that was read and the filled buffer, or why it failed.
    ReadDir(CPathBuf, SharedFd, Result<Buffer, MyError>),
    /// Whether closing succeeded.
    Close(CPathBuf, Result<(), MyError>),
}

/// A failure on one path; the walk goes on.
pub struct ErrorReport {
    pub path: CPathBuf,
    pub error: MyError,
}

impl View for ErrorReport {
    type V = (Seq<u8>, MyError);

    open spec fn view(&self) -> (Seq<u8>, MyError) {
        (self.path@, self.error)
    }
}

/// What the coordinator decided on one response.
pub struct Step {
    /// Requests to hand to the workers.
    pub requests: Vec<WorkRequest>,
    /// Paths to print, one per line, without the line break.
    pub lines: Vec<Vec<u8>>,
    /// Failures to report.
    pub errors: Vec<ErrorReport>,
}

impl Step {
    pub open spec fn requests_view(&self) -> Seq<RequestView> {
        self.requests@.map_values(|q: WorkRequest| q@)
    }

    pub open spec fn lines_view(&self) -> Seq<Seq<u8>> {
        self.lines@.map_values(|l: Vec<u8>| l@)
    }

    pub open spec fn errors_view(&self) -> Seq<(Seq<u8>, MyError)> {
        self.errors@.map_values(|e: ErrorReport| e@)
    }
}

/// A condition under which the walk cannot go on.
#[derive(Debug)]
pub enum Fatal {
    /// An entry that is neither a directory nor a regular file.
    Unsupported(EntryType),
    /// A malformed record in a read batch.
    Decode(DecodeError),
    /// A handle released more often than it was owned.
    OverRelease,
    /// A count that does not fit in a machine word.
    Overflow,
    /// A joined path that does not fit in a machine word.
    PathTooLong,
}

/// The `Open` requests for the subdirectories among `es`, in order.
pub open spec fn open_requests(path: Seq<u8>, es: Seq<(u64, EntryType, Seq<u8>)>) -> Seq<RequestView>
    decreases es.len(),
{
    if es.len() == 0 {
        Seq::empty()
    } else {
        open_requests(path, es.drop_last()) + if es.last().1 == EntryType::Dir {
            seq![RequestView::Open(join_spec(path, es.last().2))]
        } else {
            Seq::empty()
        }
    }
}

/// Every entry is a directory or a regular file.
pub open spec fn all_supported(es: Seq<(u64, EntryType, Seq<u8>)>) -> bool {
    forall|i: int| 0 <= i < es.len() ==> (es[i].1 == EntryType::Dir || es[i].1 == EntryType::Regular)
}

/// The valid bytes of a filled buffer.
pub open spec fn batch_of(buf: Buffer) -> Seq<u8> {
    buf.data_view().take(buf.init_len_view() as int)
}

/// The dispatch loop's state: the requests not yet answered, and the owners
/// of each open directory handle.
pub struct Coordinator {
    in_flight: usize,
    fds: FdTable,
}

impl Coordinator {
    pub closed spec fn in_flight_view(&self) -> nat {
        self.in_flight as nat
    }

    pub closed spec fn fds_view(&self) -> Seq<nat> {
        self.fds@
    }

    /// A walk of `root`, with its `Open` the one request in flight.
    pub fn new(root: CPathBuf) -> (r: (Coordinator, WorkRequest))
        ensures
            r.0.in_flight_view() == 1,
            r.0.fds_view() == Seq::<nat>::empty(),
            r.1@ == RequestView::Open(root@),
    {
        (Coordinator { in_flight: 1, fds: FdTable::new() }, WorkRequest::Open(root))
    }

    /// The requests dispatched and not yet answered.
    pub fn in_flight(&self) -> (r: usize)
        ensures
            r == self.in_flight_view(),
    {
        self.in_flight
    }

    /// Whether every dispatched request has been answered.
    pub fn is_done(&self) -> (r: bool)
        ensures
            r == (self.in_flight_view() == 0),
    {
        self.in_flight == 0
    }

    /// Whether `h` names a slot of this walk with an owner left.
    pub open spec fn handle_ok(&self, h: SharedFd) -> bool {
        h.slot() < self.fds_view().len() && self.fds_view()[h.slot() as int] >= 1
    }

    /// What one step does with `resp`, when it succeeds.
    pub open spec fn step_effect(&self, resp: WorkResponse, f: Coordinator, st: Step) -> bool {
        &&& f.in_flight_view() + 1 == self.in_flight_view() + st.requests_view().len()
        &&& match resp {
            WorkResponse::Open(p, Ok(fd)) => {
                &&& f.fds_view() == self.fds_view().push(1)
                &&& st.requests_view() == seq![RequestView::ReadDir(p@, fd, self.fds_view().len())]
                &&& st.lines_view() == Seq::<Seq<u8>>::empty()
                &&& st.errors_view() == Seq::<(Seq<u8>, MyError)>::empty()
            },
            WorkResponse::Open(p, Err(e)) => {
                &&& f.fds_view() == self.fds_view()
                &&& st.requests_view() == Seq::<RequestView>::empty()
                &&& st.lines_view() == Seq::<Seq<u8>>::empty()
                &&& st.errors_view() == seq![(p@, e)]
            },
            WorkResponse::ReadDir(p, h, res) => {
                let cnt = self.fds_view()[h.slot() as int];
                &&& self.handle_ok(h)
                &&& if res is Ok && batch_of(res->Ok_0).len() > 0 {
                    let es = entries_of(batch_of(res->Ok_0))->Some_0;
                    &&& entries_of(batch_of(res->Ok_0)) is Some
                    &&& f.fds_view() == self.fds_view()
                    &&& st.requests_view() == seq![RequestView::ReadDir(p@, h.fd_view(), h.slot())]
                        + open_requests(p@, es)
                    &&& st.lines_view() == if es.len() > 0 {
                        seq![p@.drop_last()]
                    } else {
                        Seq::<Seq<u8>>::empty()
                    }
                    &&& st.errors_view() == Seq::<(Seq<u8>, MyError)>::empty()
                } else {
                    &&& f.fds_view() == self.fds_view().update(h.slot() as int, (cnt - 1) as nat)
                    &&& st.requests_view() == if cnt == 1 {
                        seq![RequestView::Close(p@, h.fd_view())]
                    } else {
                        Seq::<RequestView>::empty()
                    }
                    &&& st.lines_view() == Seq::<Seq<u8>>::empty()
                    &&& st.errors_view() == match res {
                        Ok(_) => Seq::<(Seq<u8>, MyError)>::empty(),
                        Err(e) => seq![(p@, e)],
                    }
                }
            },
            WorkResponse::Close(p, res) => {
                &&& f.fds_view() == self.fds_view()
                &&& st.requests_view() == Seq::<RequestView>::empty()
                &&& st.lines_view() == Seq::<Seq<u8>>::empty()
                &&& st.errors_view() == match res {
                    Ok(_) => Seq::<(Seq<u8>, MyError)>::empty(),
                    Err(e) => seq![(p@, e)],
                }
            },
        }
    }

    /// When a step on a `ReadDir` response succeeds, and which fatal
    /// condition it meets otherwise.
    pub open spec fn read_dir_outcome(
        &self,
        p: CPathBuf,
        h: SharedFd,
        res: Result<Buffer, MyError>,
        r: Result<Step, Fatal>,
    ) -> bool {
        let full = res is Ok && batch_of(res->Ok_0).len() > 0;
        let es = entries_of(batch_of(res->Ok_0))->Some_0;
        &&& (r matches Err(Fatal::OverRelease) <==> !self.handle_ok(h))
        &&& (self.handle_ok(h) && !full) ==> r is Ok
        &&& (self.handle_ok(h) && full && entries_of(batch_of(res->Ok_0)) is Some && !all_supported(
            es,
        )) ==> r is Err
        &&& (r matches Err(Fatal::Decode(_)) <==> (self.handle_ok(h) && full && entries_of(
            batch_of(res->Ok_0),
        ) is None))
        &&& (self.handle_ok(h) && full && entries_of(batch_of(res->Ok_0)) is Some && all_supported(
            es,
        ) && self.fds_view()[h.slot() as int] < usize::MAX && self.in_flight_view()
            + open_requests(p@, es).len() <= usize::MAX && (forall|i: int|
            0 <= i < es.len() && es[i].1 == EntryType::Dir ==> p@.len() + es[i].2.len() + 1
                <= usize::MAX)) ==> r is Ok
    }

    /// Handles one response: updates the count of requests in flight and the
    /// handles' owners, and says what to dispatch, print and report.
    pub fn step(&mut self, resp: WorkResponse) -> (r: Result<Step, Fatal>)
        requires
            old(self).in_flight_view() > 0,
        ensures
            r matches Ok(st) ==> old(self).step_effect(resp, *final(self), st),
            !(resp is ReadDir) ==> r is Ok,
            resp matches WorkResponse::ReadDir(p, h, res) ==> old(self).read_dir_outcome(p, h, res, r),
    {
        let ghost c0 = *self;
        match resp {
            WorkResponse::Open(path, Ok(fd)) => {
                let ghost p = path@;
                let h = SharedFd::new(&mut self.fds, fd);
                let mut requests: Vec<WorkRequest> = Vec::new();
                requests.push(WorkRequest::ReadDir(path, h));
                let st = Step { requests, lines: Vec::new(), errors: Vec::new() };
                assert(st.requests_view() =~= seq![RequestView::ReadDir(p, fd, c0.fds_view().len())]);
                assert(st.lines_view() =~= Seq::<Seq<u8>>::empty());
                assert(st.errors_view() =~= Seq::<(Seq<u8>, MyError)>::empty());
                Ok(st)
            },
            WorkResponse::Open(path, Err(e)) => {
                self.in_flight = self.in_flight - 1;
                let ghost p = path@;
                let mut errors: Vec<ErrorReport> = Vec::new();
                errors.push(ErrorReport { path, error: e });
                let st = Step { requests: Vec::new(), lines: Vec::new(), errors };
                assert(st.requests_view() =~= Seq::<RequestView>::empty());
                assert(st.lines_view() =~= Seq::<Seq<u8>>::empty());
                assert(st.errors_view() =~= seq![(p, e)]);
                Ok(st)
            },
            WorkResponse::Close(path, res) => {
                self.in_flight = self.in_flight - 1;
                let ghost p = path@;
                let mut errors: Vec<ErrorReport> = Vec::new();
                if let Err(e) = res {
                    errors.push(ErrorReport { path, error: e });
                    assert(errors@.map_values(|x: ErrorReport| x@) =~= seq![(p, e)]);
                } else {
                    assert(errors@.map_values(|x: ErrorReport| x@) =~= Seq::<
                        (Seq<u8>, MyError),
                    >::empty());
                }
                let st = Step { requests: Vec::new(), lines: Vec::new(), errors };
                assert(st.requests_view() =~= Seq::<RequestView>::empty());
                assert(st.lines_view() =~= Seq::<Seq<u8>>::empty());
                Ok(st)
            },
            WorkResponse::ReadDir(path, h, res) => {
                self.read_dir_done(path, h, res)
            },
        }
    }

    /// The releasing of `h` after its batch, and the `Close` it may call for.
    fn finish_handle(&mut self, path: CPathBuf, h: SharedFd, requests: &mut Vec<WorkRequest>)
        requires
            h.slot() < old(self).fds_view().len(),
            old(self).fds_view()[h.slot() as int] >= 1,
        ensures
            final(self).in_flight_view() == old(self).in_flight_view(),
            final(self).fds_view() == old(self).fds_view().update(
                h.slot() as int,
                (old(self).fds_view()[h.slot() as int] - 1) as nat,
            ),
            final(requests)@.map_values(|q: WorkRequest| q@) == old(requests)@.map_values(
                |q: WorkRequest| q@,
            ) + if old(self).fds_view()[h.slot() as int] == 1 {
                seq![RequestView::Close(path@, h.fd_view())]
            } else {
                Seq::<RequestView>::empty()
            },
    {
        let ghost fd = h.fd_view();
        let ghost before = requests@.map_values(|q: WorkRequest| q@);
        match h.release(&mut self.fds) {
            Some(raw) => {
                let ghost p = path@;
                requests.push(WorkRequest::Close(path, raw));
                assert(requests@.map_values(|q: WorkRequest| q@) =~= before + seq![
                    RequestView::Close(p, fd),
                ]);
            },
            None => {
                assert(requests@.map_values(|q: WorkRequest| q@) =~= before + Seq::<
                    RequestView,
                >::empty());
            },
        }
    }

    /// The end of a batch that read nothing or failed: the handle is
    /// released, and closed if that was its last owner.
    fn exhausted(&mut self, path: CPathBuf, h: SharedFd, err: Option<MyError>) -> (st: Step)
        requires
            old(self).in_flight_view() > 0,
            old(self).handle_ok(h),
        ensures
            final(self).in_flight_view() + 1 == old(self).in_flight_view() + st.requests_view().len(),
            final(self).fds_view() == old(self).fds_view().update(
                h.slot() as int,
                (old(self).fds_view()[h.slot() as int] - 1) as nat,
            ),
            st.requests_view() == if old(self).fds_view()[h.slot() as int] == 1 {
                seq![RequestView::Close(path@, h.fd_view())]
            } else {
                Seq::<RequestView>::empty()
            },
            st.lines_view() == Seq::<Seq<u8>>::empty(),
            st.errors_view() == match err {
                None => Seq::<(Seq<u8>, MyError)>::empty(),
                Some(e) => seq![(path@, e)],
            },
    {
        let ghost p = path@;
        let mut requests: Vec<WorkRequest> = Vec::new();
        let mut errors: Vec<ErrorReport> = Vec::new();
        if let Some(e) = err {
            errors.push(ErrorReport { path: path.clone(), error: e });
            assert(errors@.map_values(|x: ErrorReport| x@) =~= seq![(p, e)]);
        } else {
            assert(errors@.map_values(|x: ErrorReport| x@) =~= Seq::<(Seq<u8>, MyError)>::empty());
        }
        assert(requests@.map_values(|q: WorkRequest| q@) =~= Seq::<RequestView>::empty());
        self.finish_handle(path, h, &mut requests);
        assert(requests@.map_values(|q: WorkRequest| q@).len() == requests@.len());
        self.in_flight = self.in_flight - 1 + requests.len();
        let st = Step { requests, lines: Vec::new(), errors };
        assert(st.lines_view() =~= Seq::<Seq<u8>>::empty());
        st
    }

    /// Handles the answer to a `ReadDir` request.
    fn read_dir_done(&mut self, path: CPathBuf, h: SharedFd, res: Result<Buffer, MyError>) -> (r:
        Result<Step, Fatal>)
        requires
            old(self).in_flight_view() > 0,
        ensures
            r matches Ok(st) ==> old(self).step_effect(
                WorkResponse::ReadDir(path, h, res),
                *final(self),
                st,
            ),
            old(self).read_dir_outcome(path, h, res, r),
    {
        let ghost c0 = *self;
        let ghost p = path@;
        let cnt = match self.fds.count(&h) {
            Some(c) => c,
            None => {
                return Err(Fatal::OverRelease);
            },
        };
        if cnt == 0 {
            return Err(Fatal::OverRelease);
        }
        let buf = match res {
            Ok(b) => b,
            Err(e) => {
                return Ok(self.exhausted(path, h, Some(e)));
            },
        };
        if buf.filled_len() == 0 {
            return Ok(self.exhausted(path, h, None));
        }
        proof {
            buf.lemma_init_within();
        }
        let es = match entries(&buf) {
            Ok(v) => v,
            Err(e) => {
                return Err(Fatal::Decode(e));
            },
        };
        let ghost esv = es@.map_values(|e: Entry| e@);
        proof {
            lemma_names_no_zero(batch_of(buf));
            assert forall|i: int| 0 <= i < es@.len() implies no_zero(#[trigger] es@[i].name@) by {
                assert(esv[i] == es@[i]@);
                assert(entries_of(batch_of(buf))->Some_0[i].2 == es@[i].name@);
            }
        }
        if cnt == usize::MAX {
            return Err(Fatal::Overflow);
        }
        let again = h.acquire(&mut self.fds);
        let mut requests: Vec<WorkRequest> = Vec::new();
        requests.push(WorkRequest::ReadDir(path.clone(), again));
        let ghost first = requests@.map_values(|q: WorkRequest| q@);
        assert(first =~= seq![RequestView::ReadDir(p, h.fd_view(), h.slot())]);
        match push_subdir_requests(&path, &es, &mut requests) {
            Ok(()) => {},
            Err(f) => {
                proof {
                    if f is PathTooLong {
                        let i = choose|i: int|
                            0 <= i < es@.len() && es@[i].ty == EntryType::Dir && path@.len()
                                + es@[i].name@.len() + 1 > usize::MAX;
                        assert(esv[i] == es@[i]@);
                    }
                }
                return Err(f);
            },
        }
        assert(requests@.map_values(|q: WorkRequest| q@).len() == requests@.len());
        if requests.len() - 1 > usize::MAX - self.in_flight {
            return Err(Fatal::Overflow);
        }
        let mut lines: Vec<Vec<u8>> = Vec::new();
        if es.len() > 0 {
            lines.push(path.as_slice());
            assert(lines@.map_values(|l: Vec<u8>| l@) =~= seq![p.drop_last()]);
        } else {
            assert(lines@.map_values(|l: Vec<u8>| l@) =~= Seq::<Seq<u8>>::empty());
        }
        let ghost mid = requests@.map_values(|q: WorkRequest| q@);
        self.finish_handle(path, h, &mut requests);
        assert(mid + Seq::<RequestView>::empty() =~= mid);
        assert(self.fds_view() =~= c0.fds_view());
        self.in_flight = self.in_flight - 1 + requests.len();
        let st = Step { requests, lines, errors: Vec::new() };
        assert(st.errors_view() =~= Seq::<(Seq<u8>, MyError)>::empty());
        Ok(st)
    }
}


/// The `Open` requests for the subdirectories among `es`, put after `out`.
fn push_subdir_requests(path: &CPathBuf, es: &Vec<Entry>, out: &mut Vec<WorkRequest>) -> (r: Result<(), Fatal>)
    requires
        forall|i: int| 0 <= i < es@.len() ==> no_zero(#[trigger] es@[i].name@),
    ensures
        r is Ok ==> all_supported(es@.map_values(|e: Entry| e@)),
        r is Ok ==> final(out)@.map_values(|q: WorkRequest| q@) == old(out)@.map_values(
            |q: WorkRequest| q@,
        ) + open_requests(path@, es@.map_values(|e: Entry| e@)),
        r matches Err(Fatal::Unsupported(_)) ==> !all_supported(es@.map_values(|e: Entry| e@)),
        r matches Err(f) ==> (f is Unsupported || f is PathTooLong),
        r matches Err(Fatal::PathTooLong) ==> exists|i: int|
            0 <= i < es@.len() && es@[i].ty == EntryType::Dir && path@.len() + es@[i].name@.len()
                + 1 > usize::MAX,
{
    let ghost before = out@.map_values(|q: WorkRequest| q@);
    let ghost all = es@.map_values(|e: Entry| e@);
    let plen = path.as_bytes_with_nul().len();
    let mut i: usize = 0;
    while i < es.len()
        invariant
            i <= es@.len(),
            all == es@.map_values(|e: Entry| e@),
            plen == path@.len(),
            forall|k: int| 0 <= k < es@.len() ==> no_zero(#[trigger] es@[k].name@),
            all_supported(all.take(i as int)),
            out@.map_values(|q: WorkRequest| q@) == before + open_requests(path@, all.take(i as int)),
        decreases es@.len() - i,
    {
        let e = &es[i];
        assert(all.take(i as int + 1).drop_last() =~= all.take(i as int));
        assert(all.take(i as int + 1).last() == e@);
        let ghost mid = out@.map_values(|q: WorkRequest| q@);
        if e.ty == EntryType::Dir {
            if e.name.len() >= usize::MAX - plen {
                assert(es@[i as int].ty == EntryType::Dir);
                return Err(Fatal::PathTooLong);
            }
            let child = path.join(e.name.as_slice());
            out.push(WorkRequest::Open(child));
            assert(out@.map_values(|q: WorkRequest| q@) =~= mid + seq![
                RequestView::Open(join_spec(path@, e.name@)),
            ]);
        } else if e.ty != EntryType::Regular {
            assert(!all_supported(all)) by {
                assert(all[i as int] == e@);
            }
            return Err(Fatal::Unsupported(e.ty));
        } else {
            assert(out@.map_values(|q: WorkRequest| q@) =~= mid + Seq::<RequestView>::empty());
        }
        i = i + 1;
        assert(all_supported(all.take(i as int))) by {
            assert forall|j: int| 0 <= j < i implies (all.take(i as int)[j].1 == EntryType::Dir
                || all.take(i as int)[j].1 == EntryType::Regular) by {
                if j < i - 1 {
                    assert(all.take(i as int)[j] == all.take(i - 1)[j]);
                }
            }
        }
    }
    assert(all.take(i as int) =~= all);
    Ok(())
}

/// How many requests the steps `sts` dispatched in all.
pub open spec fn dispatched(sts: Seq<Step>) -> nat
    decreases sts.len(),
{
    if sts.len() == 0 {
        0
    } else {
        dispatched(sts.drop_last()) + sts.last().requests_view().len()
    }
}

/// Over any run of steps, each answering one request and dispatching some:
/// the count in flight is what it started at, plus what was dispatched,
/// minus the steps taken. A walk that starts with one request in flight
/// thus ends (its count is 0) exactly after one step more than it
/// dispatched requests, and a finite number of requests means a finite
/// number of steps.
pub proof fn lemma_walk_count(cs: Seq<Coordinator>, rs: Seq<WorkResponse>, sts: Seq<Step>)
    requires
        cs.len() == sts.len() + 1,
        rs.len() == sts.len(),
        forall|i: int|
            0 <= i < sts.len() ==> #[trigger] cs[i].step_effect(rs[i], cs[i + 1], sts[i]),
    ensures
        cs.last().in_flight_view() + sts.len() == cs[0].in_flight_view() + dispatched(sts),
        sts.len() <= cs[0].in_flight_view() + dispatched(sts),
        cs.last().in_flight_view() == 0 <==> sts.len() == cs[0].in_flight_view() + dispatched(sts),
    decreases sts.len(),
{
    if sts.len() > 0 {
        let n = sts.len() - 1;
        let cs2 = cs.drop_last();
        let rs2 = rs.drop_last();
        let sts2 = sts.drop_last();
        assert forall|i: int| 0 <= i < sts2.len() implies #[trigger] cs2[i].step_effect(
            rs2[i],
            cs2[i + 1],
            sts2[i],
        ) by {
            assert(cs[i].step_effect(rs[i], cs[i + 1], sts[i]));
        }
        lemma_walk_count(cs2, rs2, sts2);
        assert(cs[n].step_effect(rs[n], cs[n + 1], sts[n]));
    }
}

/// The step answered a read of the handle in `slot` and dispatched a
/// `Close`.
pub open spec fn closes_slot(r: WorkResponse, st: Step, slot: nat) -> bool {
    &&& r is ReadDir
    &&& r->ReadDir_1.slot() == slot
    &&& exists|k: int| 0 <= k < st.requests_view().len() && #[trigger] st.requests_view()[k] is Close
}

proof fn lemma_open_requests_open(path: Seq<u8>, es: Seq<(u64, EntryType, Seq<u8>)>)
    ensures
        forall|k: int|
            0 <= k < open_requests(path, es).len() ==> #[trigger] open_requests(path, es)[k] is Open,
    decreases es.len(),
{
    if es.len() > 0 {
        lemma_open_requests_open(path, es.drop_last());
    }
}

/// What one step does to the count of a slot: slots are never taken away,
/// a slot whose count is 0 keeps it and is never closed again, and a
/// `Close` leaves the count of its slot at 0.
proof fn lemma_step_slot(c: Coordinator, r: WorkResponse, f: Coordinator, st: Step, slot: nat)
    requires
        c.step_effect(r, f, st),
    ensures
        f.fds_view().len() >= c.fds_view().len(),
        slot < c.fds_view().len() && c.fds_view()[slot as int] == 0 ==> f.fds_view()[slot as int]
            == 0 && !closes_slot(r, st, slot),
        closes_slot(r, st, slot) ==> slot < f.fds_view().len() && f.fds_view()[slot as int] == 0,
{
    if let WorkResponse::ReadDir(p, h, res) = r {
        if res is Ok && batch_of(res->Ok_0).len() > 0 {
            let es = entries_of(batch_of(res->Ok_0))->Some_0;
            lemma_open_requests_open(p@, es);
            let rv = st.requests_view();
            assert forall|k: int| 0 <= k < rv.len() implies !(#[trigger] rv[k] is Close) by {
                if k > 0 {
                    assert(rv[k] == open_requests(p@, es)[k - 1]);
                }
            }
        }
    }
}

/// Runs of steps keep a slot at 0 once it is there.
proof fn lemma_slot_stays_closed(
    cs: Seq<Coordinator>,
    rs: Seq<WorkResponse>,
    sts: Seq<Step>,
    from: int,
    to: int,
    slot: nat,
)
    requires
        cs.len() == sts.len() + 1,
        rs.len() == sts.len(),
        forall|i: int|
            0 <= i < sts.len() ==> #[trigger] cs[i].step_effect(rs[i], cs[i + 1], sts[i]),
        0 <= from <= to < cs.len(),
        slot < cs[from].fds_view().len(),
        cs[from].fds_view()[slot as int] == 0,
    ensures
        slot < cs[to].fds_view().len(),
        cs[to].fds_view()[slot as int] == 0,
    decreases to - from,
{
    if from < to {
        assert(cs[from].step_effect(rs[from], cs[from + 1], sts[from]));
        lemma_step_slot(cs[from], rs[from], cs[from + 1], sts[from], slot);
        lemma_slot_stays_closed(cs, rs, sts, from + 1, to, slot);
    }
}

/// Over any run of steps, the raw handle of a directory is closed at most
/// once: after the step that dispatches the `Close` of a slot (the one whose
/// release found the last owner), no later step dispatches another for it.
pub proof fn lemma_walk_closes_once(
    cs: Seq<Coordinator>,
    rs: Seq<WorkResponse>,
    sts: Seq<Step>,
    i: int,
    j: int,
    slot: nat,
)
    requires
        cs.len() == sts.len() + 1,
        rs.len() == sts.len(),
        forall|k: int|
            0 <= k < sts.len() ==> #[trigger] cs[k].step_effect(rs[k], cs[k + 1], sts[k]),
        0 <= i < j < sts.len(),
        closes_slot(rs[i], sts[i], slot),
    ensures
        !closes_slot(rs[j], sts[j], slot),
{
    assert(cs[i].step_effect(rs[i], cs[i + 1], sts[i]));
    lemma_step_slot(cs[i], rs[i], cs[i + 1], sts[i], slot);
    lemma_slot_stays_closed(cs, rs, sts, i + 1, j, slot);
    assert(cs[j].step_effect(rs[j], cs[j + 1], sts[j]));
    lemma_step_slot(cs[j], rs[j], cs[j + 1], sts[j], slot);
}

} // verus!
