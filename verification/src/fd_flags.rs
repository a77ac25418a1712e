//! The file status flags that put a descriptor in nonblocking mode.
//!
//! Registering a descriptor with the reactor reads its status flags, checks
//! that `nix` knows every bit of them, and writes them back with
//! `O_NONBLOCK` added. The reading and writing are system calls and stay with
//! the caller; this module computes the flags to write.
use vstd::prelude::*;

use nix::fcntl::OFlag;

verus! {

/// Whether `nix::fcntl::OFlag::from_bits` accepts `bits`: whether every set
/// bit is one of the status flags `nix` defines for the target.
pub uninterp spec fn oflag_accepts(bits: i32) -> bool;

/// Calls `nix::fcntl::OFlag::from_bits` and reads the flags back with
/// `OFlag::bits`; claims the result is `Some` exactly when the bits are
/// accepted, and that an accepted set of flags keeps its bits unchanged.
#[verifier::external_body]
fn oflag_from_bits(bits: i32) -> (flags: Option<i32>)
    ensures
        flags is Some <==> oflag_accepts(bits),
        flags matches Some(f) ==> f == bits,
{
    match OFlag::from_bits(bits) {
        Some(f) => Some(f.bits()),
        None => None,
    }
}

/// What `(OFlag::from_bits_truncate(bits) | OFlag::O_NONBLOCK).bits()`
/// gives: the known flags of `bits` with `O_NONBLOCK` added.
pub uninterp spec fn oflag_with_nonblock(bits: i32) -> i32;

/// Calls `nix::fcntl::OFlag::from_bits_truncate`, adds `OFlag::O_NONBLOCK`
/// with `|` and reads the result back with `OFlag::bits`. Claims, as the
/// bitflags source shows (`from_bits_truncate` keeps `bits & all()`, `|`
/// unites the bit sets), that for accepted bits the result is `bits` united
/// with the flags this gives for no bits, which are those of `O_NONBLOCK`.
#[verifier::external_body]
fn oflag_add_nonblock(bits: i32) -> (flags: i32)
    ensures
        flags == oflag_with_nonblock(bits),
        oflag_accepts(bits) ==> flags == bits | oflag_with_nonblock(0),
{
    (OFlag::from_bits_truncate(bits) | OFlag::O_NONBLOCK).bits()
}

/// The status flags that put a descriptor whose current flags are `current`
/// into nonblocking mode: `current` with `O_NONBLOCK` added. `None` when
/// `nix` does not know every bit of `current`.
pub fn nonblocking_flags(current: i32) -> (flags: Option<i32>)
    ensures
        flags is Some <==> oflag_accepts(current),
        flags matches Some(f) ==> f == oflag_with_nonblock(current),
        flags matches Some(f) ==> f == current | oflag_with_nonblock(0),
        flags matches Some(f) ==> f & current == current,
{
    match oflag_from_bits(current) {
        Some(known) => {
            let f = oflag_add_nonblock(known);
            let ghost nb = oflag_with_nonblock(0);
            assert((known | nb) & known == known) by (bit_vector);
            Some(f)
        },
        None => None,
    }
}

} // verus!
