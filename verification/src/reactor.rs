//! The epoll reactor's bookkeeping: which task waits for which readiness of
//! which descriptor, and which of those tasks a batch of readiness events
//! wakes.
//!
//! Each descriptor `fd` owns two tokens: `2 * fd` for readability and
//! `2 * fd + 1` for writability. The reactor maps tokens to the wakers of the
//! tasks parked on them; a readiness event for a descriptor takes the wakers
//! of the matching tokens out of the table and hands them back to be woken.
use vstd::prelude::*;

use rustc_hash::FxHashMap;
use std::task::Waker;

use crate::waker_map::{table_insert, table_remove};
use vstd::seq_lib::lemma_multiset_commutative;

verus! {

/// The token under which a task waits for `fd` to become readable.
pub open spec fn read_token(fd: int) -> int {
    2 * fd
}

/// The token under which a task waits for `fd` to become writable.
pub open spec fn write_token(fd: int) -> int {
    2 * fd + 1
}

/// Readiness of one registered descriptor, as the poller reports it.
#[derive(Clone, Copy, Debug)]
pub struct ReadyEvent {
    /// The key the descriptor was registered with: the descriptor itself.
    pub key: usize,
    /// The descriptor can be read from.
    pub readable: bool,
    /// The descriptor can be written to.
    pub writable: bool,
}

/// A waker taken out of the table by a readiness event, with the descriptor
/// and the token it was registered under.
#[derive(Debug)]
pub struct Woken {
    /// The descriptor that became ready.
    pub fd: usize,
    /// The token the waker was registered under.
    pub token: u64,
    /// The waker of the task to wake.
    pub waker: Waker,
}

/// Both tokens of an event's descriptor fit in a `u64`.
pub open spec fn tokens_fit(e: ReadyEvent) -> bool {
    write_token(e.key as int) <= u64::MAX
}

/// Every event of `s` that reports any readiness has tokens that fit.
pub open spec fn all_tokens_fit(s: Seq<ReadyEvent>) -> bool {
    forall|i: int|
        0 <= i < s.len() && ((#[trigger] s[i]).readable || s[i].writable) ==> tokens_fit(s[i])
}

/// The order in which a drained buffer of events is handled: repeatedly
/// taking out the first slot and moving the last event into it handles the
/// first event, then the others from the last back to the second.
pub open spec fn drain_order(s: Seq<ReadyEvent>) -> Seq<ReadyEvent> {
    if s.len() == 0 {
        s
    } else {
        seq![s[0]] + s.drop_first().reverse()
    }
}

/// Takes the waker registered under `token`, if there is one.
pub open spec fn take_waker(m: Map<u64, Waker>, fd: usize, token: u64) -> (Map<u64, Waker>, Seq<
    Woken,
>) {
    if m.contains_key(token) {
        (m.remove(token), seq![Woken { fd, token, waker: m[token] }])
    } else {
        (m, Seq::empty())
    }
}

/// Handles one event: the read waker of its descriptor if it is readable,
/// then the write waker if it is writable.
pub open spec fn handle_event(m: Map<u64, Waker>, e: ReadyEvent) -> (Map<u64, Waker>, Seq<Woken>) {
    let r = if e.readable {
        take_waker(m, e.key, read_token(e.key as int) as u64)
    } else {
        (m, Seq::empty())
    };
    let w = if e.writable {
        take_waker(r.0, e.key, write_token(e.key as int) as u64)
    } else {
        (r.0, Seq::empty())
    };
    (w.0, r.1 + w.1)
}

/// Handles the events of `s` in turn: the table that is left and the wakers
/// taken, in the order they were taken.
pub open spec fn dispatch(m: Map<u64, Waker>, s: Seq<ReadyEvent>) -> (Map<u64, Waker>, Seq<Woken>)
    decreases s.len(),
{
    if s.len() == 0 {
        (m, Seq::empty())
    } else {
        let before = dispatch(m, s.drop_last());
        let last = handle_event(before.0, s.last());
        (last.0, before.1 + last.1)
    }
}

/// The tasks waiting on descriptor readiness, by token.
pub struct Reactor {
    waker_mapping: FxHashMap<u64, Waker>,
}

impl View for Reactor {
    type V = Map<u64, Waker>;

    closed spec fn view(&self) -> Map<u64, Waker> {
        self.waker_mapping@
    }
}

impl Default for Reactor {
    /// A reactor on which no task waits.
    fn default() -> (r: Reactor)
        ensures
            r@ == Map::<u64, Waker>::empty(),
    {
        Reactor::new()
    }
}

impl Reactor {
    /// A reactor on which no task waits.
    pub fn new() -> (r: Reactor)
        ensures
            r@ == Map::<u64, Waker>::empty(),
    {
        let waker_mapping: FxHashMap<u64, Waker> = FxHashMap::default();
        proof {
            assert(waker_mapping@ =~= Map::<u64, Waker>::empty());
        }
        Reactor { waker_mapping }
    }

    fn push_completion(&mut self, token: u64, waker: Waker)
        ensures
            final(self)@ == old(self)@.insert(token, waker),
    {
        let _ = table_insert(&mut self.waker_mapping, token, waker);
    }

    /// Parks the task of `waker` until `fd` becomes readable, replacing any
    /// task parked there before.
    pub fn modify_readable(&mut self, fd: i32, waker: Waker)
        requires
            fd >= 0,
        ensures
            final(self)@ == old(self)@.insert(read_token(fd as int) as u64, waker),
    {
        self.push_completion(fd as u64 * 2, waker);
    }

    /// Parks the task of `waker` until `fd` becomes writable, replacing any
    /// task parked there before.
    pub fn modify_writable(&mut self, fd: i32, waker: Waker)
        requires
            fd >= 0,
        ensures
            final(self)@ == old(self)@.insert(write_token(fd as int) as u64, waker),
    {
        self.push_completion(fd as u64 * 2 + 1, waker);
    }

    /// Takes a readiness event's wakers out of the table: the read waker of
    /// its descriptor if the event is readable, then the write waker if it is
    /// writable.
    fn wake_event(&mut self, event: ReadyEvent, woken: &mut Vec<Woken>)
        requires
            (event.readable || event.writable) ==> tokens_fit(event),
        ensures
            final(self)@ == handle_event(old(self)@, event).0,
            final(woken)@ == old(woken)@ + handle_event(old(self)@, event).1,
    {
        let ghost m0 = self@;
        let ghost w0 = woken@;
        if event.readable {
            let token = event.key as u64 * 2;
            if let Some(waker) = table_remove(&mut self.waker_mapping, token) {
                woken.push(Woken { fd: event.key, token, waker });
            }
        }
        let ghost r = if event.readable {
            take_waker(m0, event.key, read_token(event.key as int) as u64)
        } else {
            (m0, Seq::<Woken>::empty())
        };
        assert(self@ == r.0);
        assert(woken@ =~= w0 + r.1);
        if event.writable {
            let token = event.key as u64 * 2 + 1;
            if let Some(waker) = table_remove(&mut self.waker_mapping, token) {
                woken.push(Woken { fd: event.key, token, waker });
            }
        }
        assert(woken@ =~= w0 + handle_event(m0, event).1);
    }

    /// Handles a buffer of readiness events and empties it.
    ///
    /// The events are taken out of the buffer the way the poller's buffer is
    /// drained, slot 0 each time (see [`drain_order`]); each takes the wakers
    /// its readiness matches out of the table. The wakers taken are returned
    /// in the order they were taken, each with its descriptor and token, to be
    /// woken by the caller: exactly the tasks parked on a readiness some event
    /// reports, each once. Every other task stays parked.
    pub fn wait(&mut self, events: &mut Vec<ReadyEvent>) -> (woken: Vec<Woken>)
        requires
            all_tokens_fit(old(events)@),
        ensures
            final(events)@.len() == 0,
            final(self)@ == dispatch(old(self)@, drain_order(old(events)@)).0,
            woken@ == dispatch(old(self)@, drain_order(old(events)@)).1,
            final(self)@ == old(self)@.remove_keys(touched_tokens(old(events)@)),
            wakes_exactly(old(self)@, touched_tokens(old(events)@), woken@),
    {
        let ghost m0 = self@;
        let ghost e0 = events@;
        let ghost order = drain_order(e0);
        let n = events.len();
        let mut woken: Vec<Woken> = Vec::new();
        let mut k: usize = 0;
        while k < n
            invariant
                n == e0.len(),
                k <= n,
                order == drain_order(e0),
                all_tokens_fit(e0),
                events@.len() == n - k,
                k == 0 ==> events@ == e0,
                forall|j: int| 1 <= j < events@.len() ==> events@[j] == e0[j],
                k >= 1 && events@.len() >= 1 ==> events@[0] == e0[n - k],
                self@ == dispatch(m0, order.take(k as int)).0,
                woken@ == dispatch(m0, order.take(k as int)).1,
            decreases n - k,
        {
            let event = events.swap_remove(0);
            assert(event == order[k as int]);
            assert(event == e0[0] || event == e0[n - k]);
            self.wake_event(event, &mut woken);
            assert(order.take(k + 1).drop_last() =~= order.take(k as int));
            k = k + 1;
        }
        assert(order.take(n as int) =~= order);
        proof {
            lemma_wait_wakes_exactly(m0, e0);
        }
        woken
    }

    /// Forgets the tasks parked on either readiness of `fd`.
    pub fn delete(&mut self, fd: i32)
        requires
            fd >= 0,
        ensures
            final(self)@ == old(self)@.remove(read_token(fd as int) as u64).remove(
                write_token(fd as int) as u64,
            ),
    {
        let _ = table_remove(&mut self.waker_mapping, fd as u64 * 2);
        let _ = table_remove(&mut self.waker_mapping, fd as u64 * 2 + 1);
    }
}

} // verus!

verus! {

/// The tokens whose readiness an event reports.
pub open spec fn event_tokens(e: ReadyEvent) -> Set<u64> {
    Set::new(
        |t: u64|
            (e.readable && t as int == read_token(e.key as int)) || (e.writable && t as int
                == write_token(e.key as int)),
    )
}

/// The tokens whose readiness some event of `s` reports.
pub open spec fn touched_tokens(s: Seq<ReadyEvent>) -> Set<u64> {
    Set::new(|t: u64| exists|i: int| 0 <= i < s.len() && #[trigger] event_tokens(s[i]).contains(t))
}

/// A descriptor's read and write tokens differ from each other and from
/// every other descriptor's, and each token names its descriptor and its
/// direction.
pub proof fn lemma_tokens_distinct(a: int, b: int)
    requires
        a >= 0,
        b >= 0,
    ensures
        read_token(a) != write_token(b),
        read_token(a) == read_token(b) <==> a == b,
        write_token(a) == write_token(b) <==> a == b,
        read_token(a) / 2 == a && read_token(a) % 2 == 0,
        write_token(a) / 2 == a && write_token(a) % 2 == 1,
{
}

proof fn lemma_handle_event_table(m: Map<u64, Waker>, e: ReadyEvent)
    requires
        (e.readable || e.writable) ==> tokens_fit(e),
    ensures
        handle_event(m, e).0 == m.remove_keys(event_tokens(e)),
{
    let r = if e.readable {
        take_waker(m, e.key, read_token(e.key as int) as u64)
    } else {
        (m, Seq::<Woken>::empty())
    };
    let rt = read_token(e.key as int) as u64;
    let wt = write_token(e.key as int) as u64;
    if e.readable {
        assert(r.0 =~= m.remove(rt));
    }
    if e.writable {
        assert(handle_event(m, e).0 =~= r.0.remove(wt));
    }
    assert(handle_event(m, e).0 =~= m.remove_keys(event_tokens(e)));
}

proof fn lemma_touched_split(s: Seq<ReadyEvent>)
    requires
        s.len() > 0,
    ensures
        forall|t: u64| #[trigger]
            touched_tokens(s).contains(t) == (touched_tokens(s.drop_last()).contains(t)
                || event_tokens(s.last()).contains(t)),
{
    let sp = s.drop_last();
    assert forall|t: u64| #[trigger]
        touched_tokens(s).contains(t) == (touched_tokens(sp).contains(t) || event_tokens(
            s.last(),
        ).contains(t)) by {
        if touched_tokens(s).contains(t) {
            let i = choose|i: int| 0 <= i < s.len() && #[trigger] event_tokens(s[i]).contains(t);
            if i < s.len() - 1 {
                assert(sp[i] == s[i]);
                assert(touched_tokens(sp).contains(t));
            }
        }
        if touched_tokens(sp).contains(t) {
            let i = choose|i: int| 0 <= i < sp.len() && #[trigger] event_tokens(sp[i]).contains(t);
            assert(s[i] == sp[i]);
            assert(event_tokens(s[i]).contains(t));
        }
        if event_tokens(s.last()).contains(t) {
            assert(event_tokens(s[s.len() - 1]).contains(t));
        }
    }
}

/// Handling a batch of events leaves in the table exactly the entries whose
/// token no event of the batch reports.
pub proof fn lemma_dispatch_table(m: Map<u64, Waker>, s: Seq<ReadyEvent>)
    requires
        all_tokens_fit(s),
    ensures
        dispatch(m, s).0 == m.remove_keys(touched_tokens(s)),
    decreases s.len(),
{
    if s.len() == 0 {
        assert(m.remove_keys(touched_tokens(s)) =~= m);
    } else {
        let sp = s.drop_last();
        assert(all_tokens_fit(sp)) by {
            assert forall|i: int| 0 <= i < sp.len() && ((#[trigger] sp[i]).readable
                || sp[i].writable) implies tokens_fit(sp[i]) by {
                assert(sp[i] == s[i]);
            }
        }
        lemma_dispatch_table(m, sp);
        let before = dispatch(m, sp);
        assert(s.last() == s[s.len() - 1]);
        lemma_handle_event_table(before.0, s.last());
        lemma_touched_split(s);
        assert(dispatch(m, s).0 =~= m.remove_keys(touched_tokens(s)));
    }
}

proof fn lemma_drop_last_fits(s: Seq<ReadyEvent>)
    requires
        all_tokens_fit(s),
        s.len() > 0,
    ensures
        all_tokens_fit(s.drop_last()),
        (s.last().readable || s.last().writable) ==> tokens_fit(s.last()),
{
    let sp = s.drop_last();
    assert forall|i: int|
        0 <= i < sp.len() && ((#[trigger] sp[i]).readable || sp[i].writable) implies tokens_fit(
        sp[i],
    ) by {
        assert(sp[i] == s[i]);
    }
    assert(s.last() == s[s.len() - 1]);
}

/// A batch none of whose reported tokens is in the table wakes nothing and
/// leaves the table as it is.
pub proof fn lemma_dispatch_untouched(m: Map<u64, Waker>, s: Seq<ReadyEvent>)
    requires
        all_tokens_fit(s),
        forall|t: u64| #[trigger] touched_tokens(s).contains(t) ==> !m.contains_key(t),
    ensures
        dispatch(m, s).0 == m,
        dispatch(m, s).1 == Seq::<Woken>::empty(),
    decreases s.len(),
{
    if s.len() > 0 {
        let sp = s.drop_last();
        lemma_drop_last_fits(s);
        assert forall|t: u64| #[trigger] touched_tokens(sp).contains(t) implies !m.contains_key(
            t,
        ) by {
            let i = choose|i: int| 0 <= i < sp.len() && #[trigger] event_tokens(sp[i]).contains(t);
            assert(s[i] == sp[i]);
            assert(touched_tokens(s).contains(t));
        }
        lemma_dispatch_untouched(m, sp);
        let e = s.last();
        assert(e == s[s.len() - 1]);
        if e.readable {
            let rt = read_token(e.key as int) as u64;
            assert(event_tokens(s[s.len() - 1]).contains(rt));
            assert(touched_tokens(s).contains(rt));
        }
        if e.writable {
            let wt = write_token(e.key as int) as u64;
            assert(event_tokens(s[s.len() - 1]).contains(wt));
            assert(touched_tokens(s).contains(wt));
        }
        assert(dispatch(m, s).1 =~= Seq::<Woken>::empty());
    }
}

/// Handling the same batch of events a second time wakes no task and
/// changes nothing: every registration the first pass reached was taken out
/// of the table.
pub proof fn lemma_dispatch_replay_wakes_nothing(m: Map<u64, Waker>, s: Seq<ReadyEvent>)
    requires
        all_tokens_fit(s),
    ensures
        dispatch(dispatch(m, s).0, s).1 == Seq::<Woken>::empty(),
        dispatch(dispatch(m, s).0, s).0 == dispatch(m, s).0,
{
    lemma_dispatch_table(m, s);
    lemma_dispatch_untouched(dispatch(m, s).0, s);
}

/// What a list of taken wakers says of the table `m` it was taken from and
/// of the tokens `tokens` that were reported: each entry is the waker `m`
/// held under a reported token of its descriptor, no token is taken twice,
/// and every reported token that `m` holds is taken.
pub open spec fn wakes_exactly(m: Map<u64, Waker>, tokens: Set<u64>, w: Seq<Woken>) -> bool {
    &&& forall|i: int|
        0 <= i < w.len() ==> {
            &&& tokens.contains(#[trigger] w[i].token)
            &&& m.contains_key(w[i].token)
            &&& m[w[i].token] == w[i].waker
            &&& (w[i].token as int == read_token(w[i].fd as int) || w[i].token as int
                == write_token(w[i].fd as int))
        }
    &&& forall|i: int, j: int| 0 <= i < j < w.len() ==> #[trigger] w[i].token != #[trigger] w[j].token
    &&& forall|t: u64|
        tokens.contains(t) && m.contains_key(t) ==> exists|i: int|
            0 <= i < w.len() && #[trigger] w[i].token == t
}

proof fn lemma_handle_event_woken(m: Map<u64, Waker>, e: ReadyEvent)
    requires
        (e.readable || e.writable) ==> tokens_fit(e),
    ensures
        wakes_exactly(m, event_tokens(e), handle_event(m, e).1),
{
    let rt = read_token(e.key as int) as u64;
    let wt = write_token(e.key as int) as u64;
    let h = handle_event(m, e);
    let w = h.1;
    if e.readable || e.writable {
        assert(rt != wt);
    }
    assert forall|t: u64| event_tokens(e).contains(t) && m.contains_key(t) implies exists|i: int|
        0 <= i < w.len() && #[trigger] w[i].token == t by {
        if e.readable && t == rt {
            assert(w[0].token == t);
        } else {
            assert(e.writable && t == wt);
            if e.readable && m.contains_key(rt) {
                assert(w[1].token == t);
            } else {
                assert(w[0].token == t);
            }
        }
    }
}

/// A batch of readiness events wakes exactly the tasks parked on the
/// readiness it reports: every waker handed back is one the table held under
/// a reported token, none is handed back twice, and every task parked on a
/// reported readiness is handed back.
pub proof fn lemma_dispatch_wakes_exactly(m: Map<u64, Waker>, s: Seq<ReadyEvent>)
    requires
        all_tokens_fit(s),
    ensures
        wakes_exactly(m, touched_tokens(s), dispatch(m, s).1),
    decreases s.len(),
{
    if s.len() == 0 {
        assert forall|t: u64| !touched_tokens(s).contains(t) by {}
    } else {
        let sp = s.drop_last();
        let e = s.last();
        lemma_drop_last_fits(s);
        lemma_touched_split(s);
        lemma_dispatch_wakes_exactly(m, sp);
        lemma_dispatch_table(m, sp);
        let before = dispatch(m, sp);
        let mp = before.0;
        lemma_handle_event_woken(mp, e);
        let h = handle_event(mp, e).1;
        let w = dispatch(m, s).1;
        assert(w == before.1 + h);
        let n0 = before.1.len();
        assert forall|i: int| 0 <= i < w.len() implies {
            &&& touched_tokens(s).contains(#[trigger] w[i].token)
            &&& m.contains_key(w[i].token)
            &&& m[w[i].token] == w[i].waker
            &&& (w[i].token as int == read_token(w[i].fd as int) || w[i].token as int
                == write_token(w[i].fd as int))
        } by {
            if i < n0 {
                assert(w[i] == before.1[i]);
            } else {
                assert(w[i] == h[i - n0]);
            }
        }
        assert forall|i: int, j: int| 0 <= i < j < w.len() implies #[trigger] w[i].token
            != #[trigger] w[j].token by {
            if j < n0 {
                assert(w[i] == before.1[i] && w[j] == before.1[j]);
            } else if i >= n0 {
                assert(w[i] == h[i - n0] && w[j] == h[j - n0]);
            } else {
                assert(w[i] == before.1[i] && w[j] == h[j - n0]);
                assert(touched_tokens(sp).contains(w[i].token));
                assert(mp.contains_key(w[j].token));
            }
        }
        assert forall|t: u64| touched_tokens(s).contains(t) && m.contains_key(t) implies exists|
            i: int,
        | 0 <= i < w.len() && #[trigger] w[i].token == t by {
            if touched_tokens(sp).contains(t) {
                let i = choose|i: int| 0 <= i < before.1.len() && #[trigger] before.1[i].token == t;
                assert(w[i] == before.1[i]);
            } else {
                assert(mp.contains_key(t));
                let i = choose|i: int| 0 <= i < h.len() && #[trigger] h[i].token == t;
                assert(w[n0 + i] == h[i]);
            }
        }
    }
}

/// Draining a buffer handles each of its events exactly once: the order
/// is a rearrangement of the buffer.
pub proof fn lemma_drain_order_permutes(s: Seq<ReadyEvent>)
    ensures
        drain_order(s).len() == s.len(),
        drain_order(s).to_multiset() == s.to_multiset(),
        forall|j: int| 0 < j < s.len() ==> #[trigger] drain_order(s)[j] == s[s.len() - j],
        s.len() > 0 ==> drain_order(s)[0] == s[0],
{
    if s.len() > 0 {
        let rest = s.drop_first();
        assert(s =~= seq![s[0]] + rest);
        lemma_multiset_commutative(seq![s[0]], rest);
        lemma_multiset_commutative(seq![s[0]], rest.reverse());
        rest.lemma_reverse_to_multiset();
    }
}

/// Draining a buffer reports the same tokens as the buffer does.
pub proof fn lemma_drain_order_tokens(s: Seq<ReadyEvent>)
    requires
        all_tokens_fit(s),
    ensures
        all_tokens_fit(drain_order(s)),
        touched_tokens(drain_order(s)) == touched_tokens(s),
{
    lemma_drain_order_permutes(s);
    let d = drain_order(s);
    let n = s.len();
    assert forall|i: int| 0 <= i < d.len() && ((#[trigger] d[i]).readable || d[i].writable) implies tokens_fit(d[i]) by {
        if i == 0 {
            assert(d[0] == s[0]);
        } else {
            assert(d[i] == s[n - i]);
        }
    }
    assert forall|t: u64| #[trigger] touched_tokens(d).contains(t) == touched_tokens(s).contains(t) by {
        if touched_tokens(d).contains(t) {
            let i = choose|i: int| 0 <= i < d.len() && #[trigger] event_tokens(d[i]).contains(t);
            if i == 0 {
                assert(event_tokens(s[0]).contains(t));
            } else {
                assert(d[i] == s[n - i]);
                assert(event_tokens(s[n - i]).contains(t));
            }
        }
        if touched_tokens(s).contains(t) {
            let i = choose|i: int| 0 <= i < s.len() && #[trigger] event_tokens(s[i]).contains(t);
            if i == 0 {
                assert(event_tokens(d[0]).contains(t));
            } else {
                assert(d[n - i] == s[i]);
                assert(event_tokens(d[n - i]).contains(t));
            }
        }
    }
    assert(touched_tokens(d) =~= touched_tokens(s));
}

/// Waiting on a buffer of readiness events wakes exactly the tasks parked on
/// a readiness some event of the buffer reports, each once, and leaves every
/// other task parked.
pub proof fn lemma_wait_wakes_exactly(m: Map<u64, Waker>, s: Seq<ReadyEvent>)
    requires
        all_tokens_fit(s),
    ensures
        wakes_exactly(m, touched_tokens(s), dispatch(m, drain_order(s)).1),
        dispatch(m, drain_order(s)).0 == m.remove_keys(touched_tokens(s)),
{
    lemma_drain_order_tokens(s);
    lemma_dispatch_wakes_exactly(m, drain_order(s));
    lemma_dispatch_table(m, drain_order(s));
}

/// A task parked for readability of a descriptor is the one a readable
/// event for that descriptor wakes, and its registration is used up.
pub proof fn lemma_parked_reader_is_woken(m: Map<u64, Waker>, fd: usize, waker: Waker)
    requires
        write_token(fd as int) <= u64::MAX,
    ensures
        ({
            let rt = read_token(fd as int) as u64;
            let e = ReadyEvent { key: fd, readable: true, writable: false };
            &&& dispatch(m.insert(rt, waker), seq![e]).1 == seq![Woken { fd, token: rt, waker }]
            &&& dispatch(m.insert(rt, waker), seq![e]).0 == m.remove(rt)
        }),
{
    let rt = read_token(fd as int) as u64;
    let e = ReadyEvent { key: fd, readable: true, writable: false };
    let s = seq![e];
    assert(s.drop_last() =~= Seq::<ReadyEvent>::empty());
    assert(s.last() == e);
    let mi = m.insert(rt, waker);
    assert(dispatch(mi, s.drop_last()) == (mi, Seq::<Woken>::empty()));
    assert(mi.remove(rt) =~= m.remove(rt));
    assert(dispatch(m.insert(rt, waker), s).1 =~= seq![Woken { fd, token: rt, waker }]);
    assert(dispatch(m.insert(rt, waker), s).0 =~= m.remove(rt));
}

/// A task parked for writability of a descriptor is the one a writable
/// event for that descriptor wakes, and its registration is used up.
pub proof fn lemma_parked_writer_is_woken(m: Map<u64, Waker>, fd: usize, waker: Waker)
    requires
        write_token(fd as int) <= u64::MAX,
    ensures
        ({
            let wt = write_token(fd as int) as u64;
            let e = ReadyEvent { key: fd, readable: false, writable: true };
            &&& dispatch(m.insert(wt, waker), seq![e]).1 == seq![Woken { fd, token: wt, waker }]
            &&& dispatch(m.insert(wt, waker), seq![e]).0 == m.remove(wt)
        }),
{
    let wt = write_token(fd as int) as u64;
    let e = ReadyEvent { key: fd, readable: false, writable: true };
    let s = seq![e];
    assert(s.drop_last() =~= Seq::<ReadyEvent>::empty());
    assert(s.last() == e);
    let mi = m.insert(wt, waker);
    assert(dispatch(mi, s.drop_last()) == (mi, Seq::<Woken>::empty()));
    assert(mi.remove(wt) =~= m.remove(wt));
    assert(dispatch(m.insert(wt, waker), s).1 =~= seq![Woken { fd, token: wt, waker }]);
    assert(dispatch(m.insert(wt, waker), s).0 =~= m.remove(wt));
}

/// Forgetting a descriptor's tasks leaves the tasks parked on every other
/// descriptor where they were.
pub proof fn lemma_delete_keeps_other_descriptors(m: Map<u64, Waker>, fd: int, other: int)
    requires
        0 <= fd,
        0 <= other,
        fd != other,
        write_token(fd) <= u64::MAX,
        write_token(other) <= u64::MAX,
    ensures
        ({
            let after = m.remove(read_token(fd) as u64).remove(write_token(fd) as u64);
            &&& after.contains_key(read_token(other) as u64) == m.contains_key(
                read_token(other) as u64,
            )
            &&& after.contains_key(write_token(other) as u64) == m.contains_key(
                write_token(other) as u64,
            )
            &&& after[read_token(other) as u64] == m[read_token(other) as u64]
            &&& after[write_token(other) as u64] == m[write_token(other) as u64]
        }),
{
    lemma_tokens_distinct(fd, other);
    lemma_tokens_distinct(other, fd);
}

} // verus!
