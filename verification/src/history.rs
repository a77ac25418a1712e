//! Laws of the reactor over any history of calls.
//!
//! A history is a sequence of the calls that change the table, each taken by
//! the effect its contract states. Starting from the empty table of
//! [`Reactor::new`](crate::reactor::Reactor::new), the table after a history
//! holds, under each token, the waker of the latest call that registered
//! that token, unless a later call forgot or woke it.
use vstd::prelude::*;

use std::task::Waker;

use crate::reactor::{
    all_tokens_fit, dispatch, drain_order, lemma_tokens_distinct, lemma_wait_wakes_exactly,
    read_token, touched_tokens, wakes_exactly, write_token, ReadyEvent, Woken,
};

verus! {

/// A call that changes the reactor's table.
pub enum ReactorCall {
    /// `modify_readable(fd, waker)`.
    ParkReader(i32, Waker),
    /// `modify_writable(fd, waker)`.
    ParkWriter(i32, Waker),
    /// `delete(fd)`.
    Forget(i32),
    /// `wait` on a buffer holding these events.
    Wait(Seq<ReadyEvent>),
}

/// The call meets its method's precondition.
pub open spec fn call_allowed(c: ReactorCall) -> bool {
    match c {
        ReactorCall::ParkReader(fd, _) => fd >= 0,
        ReactorCall::ParkWriter(fd, _) => fd >= 0,
        ReactorCall::Forget(fd) => fd >= 0,
        ReactorCall::Wait(s) => all_tokens_fit(s),
    }
}

/// Every call of the history meets its method's precondition.
pub open spec fn history_allowed(cs: Seq<ReactorCall>) -> bool {
    forall|i: int| 0 <= i < cs.len() ==> call_allowed(#[trigger] cs[i])
}

/// The table after the call, as the method's contract states it.
pub open spec fn apply_call(m: Map<u64, Waker>, c: ReactorCall) -> Map<u64, Waker> {
    match c {
        ReactorCall::ParkReader(fd, w) => m.insert(read_token(fd as int) as u64, w),
        ReactorCall::ParkWriter(fd, w) => m.insert(write_token(fd as int) as u64, w),
        ReactorCall::Forget(fd) => m.remove(read_token(fd as int) as u64).remove(
            write_token(fd as int) as u64,
        ),
        ReactorCall::Wait(s) => dispatch(m, drain_order(s)).0,
    }
}

/// The table after the calls of `cs`, in turn, starting from `m`.
pub open spec fn run_calls(m: Map<u64, Waker>, cs: Seq<ReactorCall>) -> Map<u64, Waker>
    decreases cs.len(),
{
    if cs.len() == 0 {
        m
    } else {
        apply_call(run_calls(m, cs.drop_last()), cs.last())
    }
}

/// The call registers, forgets or wakes token `t`.
pub open spec fn call_touches(c: ReactorCall, t: u64) -> bool {
    match c {
        ReactorCall::ParkReader(fd, _) => t as int == read_token(fd as int),
        ReactorCall::ParkWriter(fd, _) => t as int == write_token(fd as int),
        ReactorCall::Forget(fd) => t as int == read_token(fd as int) || t as int == write_token(
            fd as int,
        ),
        ReactorCall::Wait(s) => touched_tokens(s).contains(t),
    }
}

/// What a call that touches a token leaves under it: the waker it
/// registers, or nothing.
pub open spec fn call_leaves(c: ReactorCall) -> Option<Waker> {
    match c {
        ReactorCall::ParkReader(_, w) => Some(w),
        ReactorCall::ParkWriter(_, w) => Some(w),
        _ => None,
    }
}

/// The waker a table holds under `t`, if any.
pub open spec fn lookup(m: Map<u64, Waker>, t: u64) -> Option<Waker> {
    if m.contains_key(t) {
        Some(m[t])
    } else {
        None
    }
}

/// What the latest call of `cs` that touches `t` left under it; what `m`
/// held if no call touches it.
pub open spec fn latest_registration(m: Map<u64, Waker>, cs: Seq<ReactorCall>, t: u64) -> Option<
    Waker,
>
    decreases cs.len(),
{
    if cs.len() == 0 {
        lookup(m, t)
    } else if call_touches(cs.last(), t) {
        call_leaves(cs.last())
    } else {
        latest_registration(m, cs.drop_last(), t)
    }
}

proof fn lemma_apply_call(m: Map<u64, Waker>, c: ReactorCall, t: u64)
    requires
        call_allowed(c),
    ensures
        lookup(apply_call(m, c), t) == (if call_touches(c, t) {
            call_leaves(c)
        } else {
            lookup(m, t)
        }),
{
    match c {
        ReactorCall::Wait(s) => {
            lemma_wait_wakes_exactly(m, s);
        },
        _ => {},
    }
}

proof fn lemma_history_drop_last(cs: Seq<ReactorCall>)
    requires
        history_allowed(cs),
        cs.len() > 0,
    ensures
        history_allowed(cs.drop_last()),
        call_allowed(cs.last()),
{
    assert forall|i: int| 0 <= i < cs.drop_last().len() implies call_allowed(
        #[trigger] cs.drop_last()[i],
    ) by {
        assert(cs.drop_last()[i] == cs[i]);
    }
    assert(call_allowed(cs[cs.len() - 1]));
}

/// After any history of calls, each token holds the waker of the latest call
/// that registered it, unless a later call forgot it or a later wait reported
/// its readiness; from a new reactor, a token no call touched holds nothing.
pub proof fn lemma_history_latest_registration(m: Map<u64, Waker>, cs: Seq<ReactorCall>, t: u64)
    requires
        history_allowed(cs),
    ensures
        lookup(run_calls(m, cs), t) == latest_registration(m, cs, t),
    decreases cs.len(),
{
    if cs.len() > 0 {
        lemma_history_drop_last(cs);
        lemma_history_latest_registration(m, cs.drop_last(), t);
        lemma_apply_call(run_calls(m, cs.drop_last()), cs.last(), t);
    }
}

/// Calls that do not touch a token leave what it holds as it was.
pub proof fn lemma_history_untouched(m: Map<u64, Waker>, cs: Seq<ReactorCall>, t: u64)
    requires
        history_allowed(cs),
        forall|i: int| 0 <= i < cs.len() ==> !call_touches(#[trigger] cs[i], t),
    ensures
        lookup(run_calls(m, cs), t) == lookup(m, t),
    decreases cs.len(),
{
    if cs.len() > 0 {
        lemma_history_drop_last(cs);
        assert(!call_touches(cs[cs.len() - 1], t));
        assert forall|i: int| 0 <= i < cs.drop_last().len() implies !call_touches(
            #[trigger] cs.drop_last()[i],
            t,
        ) by {
            assert(cs.drop_last()[i] == cs[i]);
        }
        lemma_history_untouched(m, cs.drop_last(), t);
        lemma_apply_call(run_calls(m, cs.drop_last()), cs.last(), t);
    }
}

/// The token a parking call registers.
pub open spec fn parked_token(c: ReactorCall) -> u64 {
    match c {
        ReactorCall::ParkReader(fd, _) => read_token(fd as int) as u64,
        ReactorCall::ParkWriter(fd, _) => write_token(fd as int) as u64,
        _ => 0,
    }
}

/// The descriptor of a call.
pub open spec fn call_fd(c: ReactorCall) -> i32 {
    match c {
        ReactorCall::ParkReader(fd, _) => fd,
        ReactorCall::ParkWriter(fd, _) => fd,
        ReactorCall::Forget(fd) => fd,
        ReactorCall::Wait(_) => 0,
    }
}

/// A task parked by `modify_readable` (or `modify_writable`) is woken,
/// exactly once, by the next wait that reports that readiness of its
/// descriptor, whatever calls came between, as long as none of them
/// re-registered, forgot or woke that token.
pub proof fn lemma_parked_task_woken_by_next_event(
    m: Map<u64, Waker>,
    park: ReactorCall,
    between: Seq<ReactorCall>,
    events: Seq<ReadyEvent>,
)
    requires
        park is ParkReader || park is ParkWriter,
        call_allowed(park),
        history_allowed(between),
        forall|i: int| 0 <= i < between.len() ==> !call_touches(#[trigger] between[i], parked_token(park)),
        all_tokens_fit(events),
        touched_tokens(events).contains(parked_token(park)),
    ensures
        ({
            let t = parked_token(park);
            let woken = dispatch(run_calls(apply_call(m, park), between), drain_order(events)).1;
            &&& exists|i: int|
                0 <= i < woken.len() && #[trigger] woken[i] == Woken {
                    fd: call_fd(park) as usize,
                    token: t,
                    waker: call_leaves(park).unwrap(),
                }
            &&& forall|i: int, j: int|
                0 <= i < woken.len() && 0 <= j < woken.len() && #[trigger] woken[i].token == t
                    && #[trigger] woken[j].token == t ==> i == j
        }),
{
    let t = parked_token(park);
    let fd = call_fd(park);
    let m1 = apply_call(m, park);
    lemma_apply_call(m, park, t);
    lemma_history_untouched(m1, between, t);
    let m2 = run_calls(m1, between);
    assert(m2.contains_key(t) && m2[t] == call_leaves(park).unwrap());
    lemma_wait_wakes_exactly(m2, events);
    let woken = dispatch(m2, drain_order(events)).1;
    assert(wakes_exactly(m2, touched_tokens(events), woken));
    let i = choose|i: int| 0 <= i < woken.len() && #[trigger] woken[i].token == t;
    let f = woken[i].fd as int;
    lemma_tokens_distinct(fd as int, f);
    lemma_tokens_distinct(f, fd as int);
    assert(woken[i].fd == fd as usize);
    assert(woken[i] == Woken { fd: fd as usize, token: t, waker: call_leaves(park).unwrap() });
    assert forall|a: int, b: int|
        0 <= a < woken.len() && 0 <= b < woken.len() && #[trigger] woken[a].token == t
            && #[trigger] woken[b].token == t implies a == b by {
        if a < b {
            assert(woken[a].token != woken[b].token);
        } else if b < a {
            assert(woken[b].token != woken[a].token);
        }
    }
}

/// Two reactors whose tables agree, waiting on buffers that hold the same
/// events, end with the same table and hand back the same wakers in the same
/// order: what `wait` does is fixed by the table and the buffer alone.
pub proof fn lemma_wait_is_determined(
    m1: Map<u64, Waker>,
    m2: Map<u64, Waker>,
    s1: Seq<ReadyEvent>,
    s2: Seq<ReadyEvent>,
)
    requires
        m1 == m2,
        s1 == s2,
    ensures
        dispatch(m1, drain_order(s1)) == dispatch(m2, drain_order(s2)),
{
}

} // verus!
