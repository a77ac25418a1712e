//! A readiness-based I/O reactor: the bookkeeping that maps file-descriptor
//! interests to the wakers of the tasks waiting on them, the decisions the
//! socket futures take after a nonblocking attempt, and the computation of a
//! descriptor's nonblocking status flags.
pub mod fd_flags;
pub mod history;
pub mod io_ctx;
pub mod reactor;
pub mod tcp;
pub mod waker_map;
