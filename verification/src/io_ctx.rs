//! What the I/O services have in common.
use vstd::prelude::*;

verus! {

/// How an I/O service learns that a descriptor is ready.
#[derive(Debug)]
pub enum IoMode {
    /// Readiness notification through epoll.
    Epoll,
    /// Completion notification through io_uring.
    IoUring,
}

} // verus!
