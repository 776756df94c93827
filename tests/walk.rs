use recursive_dir_walk::buffer::Buffer;
use recursive_dir_walk::coordinator::{Coordinator, Fatal, Step, WorkRequest, WorkResponse};
use recursive_dir_walk::cpathbuf::CPathBuf;
use recursive_dir_walk::dir_entry::{entries, DecodeError, DirEntryIter, EntryType};
use recursive_dir_walk::error::MyError;
use recursive_dir_walk::read_buf::{ReadBuf, ReadBuffer, SubReadBuffer};
use recursive_dir_walk::shared_fd::{FdTable, SharedFd};

const DT_DIR: u8 = 4;
const DT_REG: u8 = 8;
const DT_LNK: u8 = 10;

fn record(ino: u64, ty: u8, name: &[u8]) -> Vec<u8> {
    let mut len = 19 + name.len() + 1;
    len = (len + 7) / 8 * 8;
    let mut r = Vec::new();
    r.extend_from_slice(&ino.to_le_bytes());
    r.extend_from_slice(&(len as i64).to_le_bytes());
    r.extend_from_slice(&(len as u16).to_le_bytes());
    r.push(ty);
    r.extend_from_slice(name);
    while r.len() < len {
        r.push(0);
    }
    r
}

fn batch(records: &[Vec<u8>]) -> Buffer {
    let bytes: Vec<u8> = records.concat();
    Buffer::from_bytes(&bytes)
}

fn path(s: &str) -> CPathBuf {
    CPathBuf::from_bytes(s.as_bytes())
}

fn only_request(st: &mut Step) -> WorkRequest {
    assert_eq!(st.requests.len(), 1);
    st.requests.pop().unwrap()
}

#[test]
fn parser_skips_pseudo_entries() {
    let buf = batch(&[
        record(1, DT_DIR, b"."),
        record(2, DT_DIR, b".."),
        record(10, DT_REG, b"a"),
        record(11, DT_DIR, b"b"),
    ]);
    let es = entries(&buf).unwrap();
    assert_eq!(es.len(), 2);
    assert_eq!(es[0].name, b"a".to_vec());
    assert_eq!(es[0].ty, EntryType::Regular);
    assert_eq!(es[0].inode, 10);
    assert_eq!(es[1].name, b"b".to_vec());
    assert_eq!(es[1].ty, EntryType::Dir);
    assert_eq!(es[1].inode, 11);
}

#[test]
fn parser_keeps_names_starting_with_dots() {
    let buf = batch(&[record(7, DT_REG, b"..x"), record(8, DT_REG, b".y")]);
    let mut it = DirEntryIter::new(&buf);
    let a = it.next().unwrap().unwrap();
    assert_eq!(a.c_name(), b"..x");
    let b = it.next().unwrap().unwrap();
    assert_eq!(b.c_name(), b".y");
    assert!(it.next().is_none());
}

#[test]
fn parser_reads_large_inode() {
    let buf = batch(&[record(0x0102_0304_0506_0708, DT_REG, b"n")]);
    let es = entries(&buf).unwrap();
    assert_eq!(es[0].inode, 0x0102_0304_0506_0708);
}

#[test]
fn parser_rejects_truncated_record() {
    let mut bytes = record(5, DT_REG, b"file");
    bytes.truncate(bytes.len() - 4);
    let buf = Buffer::from_bytes(&bytes);
    assert_eq!(entries(&buf).err(), Some(DecodeError { offset: 0 }));
}

#[test]
fn parser_rejects_unknown_type_tag() {
    let buf = batch(&[record(1, DT_REG, b"ok"), record(2, 3, b"bad")]);
    let mut it = DirEntryIter::new(&buf);
    assert!(it.next().unwrap().is_ok());
    assert_eq!(it.next().unwrap().err(), Some(DecodeError { offset: 24 }));
}

#[test]
fn parser_on_empty_buffer() {
    let buf = Buffer::allocate(64);
    assert_eq!(entries(&buf).unwrap().len(), 0);
}

#[test]
fn join_adds_one_separator() {
    let p = path("/tmp").join(b"child");
    assert_eq!(p.as_bytes_with_nul(), b"/tmp/child\0");
    assert_eq!(p.as_bytes_with_nul().len(), 11);
    assert_eq!(p.as_slice(), b"/tmp/child".to_vec());
}

#[test]
fn path_from_bytes_is_terminated() {
    let p = path("abc");
    assert_eq!(p.as_bytes_with_nul(), b"abc\0");
    assert_eq!(p.as_slice(), b"abc".to_vec());
    assert_eq!(p.clone().as_bytes_with_nul(), b"abc\0");
}

#[test]
fn buffer_grows_until_cleared() {
    let mut b = Buffer::allocate(8);
    assert_eq!(b.len(), 8);
    assert_eq!(b.init_len(), 0);
    b.write_uninit(&[1, 2, 3]);
    assert_eq!(b.init_len(), 3);
    b.write_uninit(&[4, 5]);
    assert_eq!(b.init(), vec![1, 2, 3, 4, 5]);
    assert_eq!(b.uninit_len(), 3);
    b.clear();
    assert_eq!(b.init_len(), 0);
    assert_eq!(b.len(), 8);
    b.set_init_len(2);
    assert_eq!(b.init(), vec![1, 2]);
}

#[test]
fn sub_buffer_extends_parent() {
    let mut rb = ReadBuffer::new(vec![0u8; 6]);
    rb.write_uninit(&[9]);
    let mut sub = SubReadBuffer::new(rb);
    assert_eq!(sub.len(), 5);
    sub.write_uninit(&[7, 8]);
    assert_eq!(sub.init(), vec![7, 8]);
    assert_eq!(sub.byte(1), 8);
    let rb = sub.into_parent();
    assert_eq!(rb.init_len(), 3);
    assert_eq!(rb.init(), vec![9, 7, 8]);
}

#[test]
fn shared_fd_closes_once() {
    let mut t = FdTable::new();
    let h = SharedFd::new(&mut t, 42);
    assert_eq!(h.get().fd(), 42);
    let h2 = h.acquire(&mut t);
    assert_eq!(t.count(&h), Some(2));
    assert_eq!(h.release(&mut t), None);
    assert_eq!(t.count(&h2), Some(1));
    assert_eq!(h2.release(&mut t), Some(42));
}

#[test]
fn walk_of_dir_with_empty_subdir_and_file() {
    let (mut c, first) = Coordinator::new(path("/r"));
    assert!(matches!(first, WorkRequest::Open(_)));
    let mut lines: Vec<Vec<u8>> = Vec::new();
    let mut errors = 0;
    let mut closes = 0;

    let mut st = c.step(WorkResponse::Open(path("/r"), Ok(3))).ok().unwrap();
    let h = match only_request(&mut st) {
        WorkRequest::ReadDir(_, h) => h,
        _ => panic!("expected a read"),
    };
    let mut st = c
        .step(WorkResponse::ReadDir(
            path("/r"),
            h,
            Ok(batch(&[
                record(1, DT_DIR, b"."),
                record(2, DT_DIR, b".."),
                record(3, DT_DIR, b"sub"),
                record(4, DT_REG, b"f.txt"),
            ])),
        ))
        .ok()
        .unwrap();
    lines.extend(st.lines.drain(..));
    assert_eq!(st.requests.len(), 2);
    let open = st.requests.pop().unwrap();
    let again = st.requests.pop().unwrap();
    let sub = match open {
        WorkRequest::Open(p) => p,
        _ => panic!("expected an open"),
    };
    assert_eq!(sub.as_slice(), b"/r/sub".to_vec());
    let h = match again {
        WorkRequest::ReadDir(_, h) => h,
        _ => panic!("expected a read"),
    };
    let mut st = c.step(WorkResponse::ReadDir(path("/r"), h, Ok(Buffer::allocate(1024)))).ok().unwrap();
    match only_request(&mut st) {
        WorkRequest::Close(_, fd) => assert_eq!(fd, 3),
        _ => panic!("expected a close"),
    }
    let mut st = c.step(WorkResponse::Open(sub.clone(), Ok(4))).ok().unwrap();
    let h = match only_request(&mut st) {
        WorkRequest::ReadDir(_, h) => h,
        _ => panic!("expected a read"),
    };
    let mut st = c
        .step(WorkResponse::ReadDir(
            sub.clone(),
            h,
            Ok(batch(&[record(3, DT_DIR, b"."), record(1, DT_DIR, b"..")])),
        ))
        .ok()
        .unwrap();
    assert!(st.lines.is_empty());
    let h = match only_request(&mut st) {
        WorkRequest::ReadDir(_, h) => h,
        _ => panic!("expected a read"),
    };
    let mut st = c.step(WorkResponse::ReadDir(sub.clone(), h, Ok(Buffer::allocate(1024)))).ok().unwrap();
    match only_request(&mut st) {
        WorkRequest::Close(_, fd) => assert_eq!(fd, 4),
        _ => panic!("expected a close"),
    }
    for p in [path("/r"), sub] {
        let st = c.step(WorkResponse::Close(p, Ok(()))).ok().unwrap();
        assert!(st.requests.is_empty());
        errors += st.errors.len();
        closes += 1;
    }
    assert!(c.is_done());
    assert_eq!(c.in_flight(), 0);
    assert_eq!(lines, vec![b"/r".to_vec()]);
    assert_eq!(errors, 0);
    assert_eq!(closes, 2);
}

#[test]
fn walk_of_unreadable_root() {
    let (mut c, _) = Coordinator::new(path("/secret"));
    assert_eq!(c.in_flight(), 1);
    let st = c.step(WorkResponse::Open(path("/secret"), Err(MyError::OpenSubdir(13)))).ok().unwrap();
    assert!(st.requests.is_empty());
    assert!(st.lines.is_empty());
    assert_eq!(st.errors.len(), 1);
    assert_eq!(st.errors[0].path.as_slice(), b"/secret".to_vec());
    assert_eq!(st.errors[0].error, MyError::OpenSubdir(13));
    assert!(c.is_done());
}

#[test]
fn read_error_is_reported_and_handle_closed() {
    let (mut c, _) = Coordinator::new(path("/d"));
    let mut st = c.step(WorkResponse::Open(path("/d"), Ok(9))).ok().unwrap();
    let h = match only_request(&mut st) {
        WorkRequest::ReadDir(_, h) => h,
        _ => panic!("expected a read"),
    };
    let mut st = c.step(WorkResponse::ReadDir(path("/d"), h, Err(MyError::GetDEnts64(5)))).ok().unwrap();
    assert_eq!(st.errors[0].error, MyError::GetDEnts64(5));
    match only_request(&mut st) {
        WorkRequest::Close(_, fd) => assert_eq!(fd, 9),
        _ => panic!("expected a close"),
    }
    let st = c.step(WorkResponse::Close(path("/d"), Err(MyError::Close(5)))).ok().unwrap();
    assert_eq!(st.errors[0].error, MyError::Close(5));
    assert!(c.is_done());
}

#[test]
fn symlink_entry_is_fatal() {
    let (mut c, _) = Coordinator::new(path("/s"));
    let mut st = c.step(WorkResponse::Open(path("/s"), Ok(5))).ok().unwrap();
    let h = match only_request(&mut st) {
        WorkRequest::ReadDir(_, h) => h,
        _ => panic!("expected a read"),
    };
    let r = c.step(WorkResponse::ReadDir(path("/s"), h, Ok(batch(&[record(2, DT_LNK, b"l")]))));
    assert!(matches!(r, Err(Fatal::Unsupported(EntryType::Symlink))));
}

#[test]
fn corrupt_batch_is_fatal() {
    let (mut c, _) = Coordinator::new(path("/s"));
    let mut st = c.step(WorkResponse::Open(path("/s"), Ok(5))).ok().unwrap();
    let h = match only_request(&mut st) {
        WorkRequest::ReadDir(_, h) => h,
        _ => panic!("expected a read"),
    };
    let r = c.step(WorkResponse::ReadDir(path("/s"), h, Ok(Buffer::from_bytes(&[1, 2, 3]))));
    assert!(matches!(r, Err(Fatal::Decode(_))));
}

#[test]
fn foreign_handle_is_fatal() {
    let (mut c, _) = Coordinator::new(path("/s"));
    let mut other = FdTable::new();
    let h = SharedFd::new(&mut other, 8);
    let r = c.step(WorkResponse::ReadDir(path("/s"), h, Ok(Buffer::allocate(4))));
    assert!(matches!(r, Err(Fatal::OverRelease)));
}

#[test]
fn entry_type_names() {
    assert_eq!(EntryType::Dir.as_str(), "Dir");
    assert_eq!(EntryType::Regular.as_str(), "Regular");
    assert_eq!(EntryType::Socket.as_str(), "Socket");
    assert_eq!(EntryType::from_code(4), Some(EntryType::Dir));
    assert_eq!(EntryType::from_code(8), Some(EntryType::Regular));
    assert_eq!(EntryType::from_code(10), Some(EntryType::Symlink));
    assert_eq!(EntryType::from_code(3), None);
}

#[test]
fn join_then_split_recovers_parts() {
    let parent = path("/home/user");
    let joined = parent.join(b"notes");
    let bytes = joined.as_bytes_with_nul();
    let cut = parent.as_slice().len();
    assert_eq!(&bytes[..cut], b"/home/user");
    assert_eq!(bytes[cut], b'/');
    assert_eq!(&bytes[cut + 1..bytes.len() - 1], b"notes");
    assert_eq!(bytes[bytes.len() - 1], 0);
}

#[test]
fn subdirectory_batch_dispatches_opens_in_order() {
    let (mut c, _) = Coordinator::new(path("/a"));
    let mut st = c.step(WorkResponse::Open(path("/a"), Ok(6))).ok().unwrap();
    let h = match only_request(&mut st) {
        WorkRequest::ReadDir(_, h) => h,
        _ => panic!("expected a read"),
    };
    let st = c
        .step(WorkResponse::ReadDir(
            path("/a"),
            h,
            Ok(batch(&[record(1, DT_DIR, b"x"), record(2, DT_REG, b"f"), record(3, DT_DIR, b"y")])),
        ))
        .ok()
        .unwrap();
    assert_eq!(c.in_flight(), 3);
    assert_eq!(st.lines, vec![b"/a".to_vec()]);
    let names: Vec<Vec<u8>> = st
        .requests
        .iter()
        .filter_map(|r| match r {
            WorkRequest::Open(p) => Some(p.as_slice()),
            _ => None,
        })
        .collect();
    assert_eq!(names, vec![b"/a/x".to_vec(), b"/a/y".to_vec()]);
}

#[test]
fn iterator_stays_at_end() {
    let buf = Buffer::allocate(1024);
    let mut it = DirEntryIter::new(&buf);
    assert!(it.next().is_none());
    assert!(it.next().is_none());
    let buf = batch(&[record(1, DT_DIR, b"."), record(2, DT_REG, b"z")]);
    let mut it = DirEntryIter::new(&buf);
    assert_eq!(it.next().unwrap().unwrap().name, b"z".to_vec());
    assert!(it.next().is_none());
    assert!(it.next().is_none());
}

#[test]
fn iterator_reports_short_buffer() {
    let buf = Buffer::from_bytes(&[1, 2, 3, 4, 5]);
    let mut it = DirEntryIter::new(&buf);
    assert_eq!(it.next().unwrap().err(), Some(DecodeError { offset: 0 }));
}

#[test]
fn iterator_reports_zero_length_record() {
    let mut bytes = record(3, DT_REG, b"q");
    bytes[16] = 0;
    bytes[17] = 0;
    let buf = Buffer::from_bytes(&bytes);
    let mut it = DirEntryIter::new(&buf);
    assert!(it.next().unwrap().is_err());
}

#[test]
fn sub_buffer_marks_parent_boundary() {
    let mut b = Buffer::allocate(10);
    b.write_uninit(&[1, 2, 3, 4]);
    let mut sub = SubReadBuffer::new(b);
    assert_eq!(sub.init_len(), 0);
    assert_eq!(sub.len(), 6);
    sub.write_uninit(&[5, 6]);
    sub.set_init_len(3);
    let b = sub.into_parent();
    assert_eq!(b.init_len(), 7);
    assert_eq!(b.init()[..6], [1, 2, 3, 4, 5, 6]);
}
