//! The table from readiness tokens to wakers, kept in `rustc_hash`'s
//! `FxHashMap`, and the trusted items through which the reactor touches it.
use vstd::prelude::*;

use rustc_hash::{FxHashMap, FxHasher};
use std::hash::BuildHasherDefault;
use std::task::Waker;

verus! {

/// `std::task::Waker`, carried through the reactor as an opaque value.
#[verifier::external_type_specification]
#[verifier::external_body]
pub struct ExWaker(Waker);

/// `rustc_hash::FxHasher`, the hasher of the waker table.
#[verifier::external_type_specification]
#[verifier::external_body]
pub struct ExFxHasher(FxHasher);

/// `std::hash::BuildHasherDefault`, which builds the table's hashers.
#[verifier::external_type_specification]
#[verifier::external_body]
#[verifier::reject_recursive_types(H)]
pub struct ExBuildHasherDefault<H>(BuildHasherDefault<H>);

/// Calls `HashMap::insert` on the table (hashed by `FxHasher`, which hashes
/// a key the same way every time); claims that afterwards `token` maps
/// to `waker`, every other entry is unchanged, and the waker it replaced, if
/// any, is returned.
#[verifier::external_body]
pub(crate) fn table_insert(table: &mut FxHashMap<u64, Waker>, token: u64, waker: Waker) -> (prev:
    Option<Waker>)
    ensures
        final(table)@ == old(table)@.insert(token, waker),
        prev == (if old(table)@.contains_key(token) {
            Some(old(table)@[token])
        } else {
            None
        }),
{
    table.insert(token, waker)
}

/// Calls `HashMap::remove` on the table (hashed by `FxHasher`); claims that afterwards `token` is
/// unmapped, every other entry is unchanged, and the waker it held, if any,
/// is returned.
#[verifier::external_body]
pub(crate) fn table_remove(table: &mut FxHashMap<u64, Waker>, token: u64) -> (removed: Option<
    Waker,
>)
    ensures
        final(table)@ == old(table)@.remove(token),
        removed == (if old(table)@.contains_key(token) {
            Some(old(table)@[token])
        } else {
            None
        }),
{
    table.remove(&token)
}

} // verus!
