//! A concurrent directory-tree walk built on batched directory reads: the
//! coordinator's state machine, shared handle counts, fill-once buffers, the
//! kernel record parser and path joining.

pub mod read_buf;
pub mod buffer;
pub mod cpathbuf;
pub mod dir_entry;
pub mod error;
pub mod shared_fd;
pub mod coordinator;
