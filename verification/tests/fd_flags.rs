use io_reactor::fd_flags::nonblocking_flags;
use nix::fcntl::OFlag;

#[test]
fn nonblocking_is_added_to_known_flags() {
    let nonblock = OFlag::O_NONBLOCK.bits();
    let rdwr = OFlag::O_RDWR.bits();
    assert_eq!(nonblocking_flags(rdwr), Some(rdwr | nonblock));
    assert_eq!(nonblocking_flags(0), Some(nonblock));
}

#[test]
fn nonblocking_flags_on_linux() {
    assert_eq!(nonblocking_flags(2), Some(2 | 0o4000));
}

#[test]
fn already_nonblocking_is_unchanged() {
    let flags = OFlag::O_RDWR.bits() | OFlag::O_NONBLOCK.bits();
    assert_eq!(nonblocking_flags(flags), Some(flags));
}

#[test]
fn unknown_flag_bits_are_refused() {
    assert_eq!(nonblocking_flags(1 << 30), None);
}

#[test]
fn nonblocking_flags_keep_other_known_flags() {
    let flags = OFlag::O_WRONLY.bits() | OFlag::O_APPEND.bits() | OFlag::O_CLOEXEC.bits();
    assert_eq!(nonblocking_flags(flags), Some(flags | OFlag::O_NONBLOCK.bits()));
}
