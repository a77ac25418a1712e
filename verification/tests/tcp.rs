use io_reactor::io_ctx::IoMode;
use io_reactor::tcp::{poll_step, Attempt, Interest, PollStep};

#[test]
fn completed_attempt_is_ready() {
    assert_eq!(poll_step(Attempt::Done, Interest::Readable), PollStep::Complete);
    assert_eq!(poll_step(Attempt::Done, Interest::Writable), PollStep::Complete);
}

#[test]
fn blocked_read_parks_on_readability() {
    assert_eq!(
        poll_step(Attempt::WouldBlock, Interest::Readable),
        PollStep::Park(Interest::Readable)
    );
}

#[test]
fn blocked_write_parks_on_writability() {
    assert_eq!(
        poll_step(Attempt::WouldBlock, Interest::Writable),
        PollStep::Park(Interest::Writable)
    );
}

#[test]
fn failed_attempt_is_an_error() {
    assert_eq!(poll_step(Attempt::Failed, Interest::Readable), PollStep::Fail);
    assert_eq!(poll_step(Attempt::Failed, Interest::Writable), PollStep::Fail);
}

#[test]
fn io_modes_are_distinct() {
    assert!(matches!(IoMode::Epoll, IoMode::Epoll));
    assert!(!matches!(IoMode::IoUring, IoMode::Epoll));
    assert_eq!(format!("{:?}", IoMode::IoUring), "IoUring");
}
