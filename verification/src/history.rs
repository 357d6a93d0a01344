//! The event-history model of dispatch.
//!
//! Every operation on a delegate is recorded in a ghost sequence of events.
//! The meaning of a history is given by replaying it: the replay yields how
//! many identities were issued, which subscriptions are live, and which
//! callbacks are currently mid-dispatch (the `running` stack). A delegate's
//! well-formedness ties its concrete state to the replay of its history, so
//! the laws of the dispatch protocol can be stated and proved once, over
//! histories, and then apply to every reachable delegate.

use vstd::prelude::*;

verus! {

/// One step in the life of a delegate.
///
/// `Invoked(id, v)` marks the moment a callback is taken out of the live
/// collection to be run with the value `v`; `Kept(id)` marks its reinsertion
/// after it asked to stay subscribed, and `Cancelled(id)` the end of a run
/// after which it is gone for good. `BroadcastStarted(v)` marks the start of
/// one dispatch pass over the subscriptions live at that moment.
pub enum Event<T> {
    Subscribed(u64),
    Unsubscribed(u64),
    BroadcastStarted(T),
    Invoked(u64, T),
    Kept(u64),
    Cancelled(u64),
}

/// The state that replaying a history yields: how many subscription
/// identities this delegate has issued, which identities are live (their
/// callbacks are in the collection), and the stack of identities whose
/// callbacks are currently running, innermost last.
pub struct DispatchState {
    pub issued: int,
    pub live: Set<u64>,
    pub running: Seq<u64>,
}

/// The state of a freshly created delegate: nothing issued, nothing live,
/// nothing running.
pub open spec fn initial_state() -> DispatchState {
    DispatchState { issued: 0, live: Set::empty(), running: Seq::empty() }
}

/// Whether an event may legally follow a history that replays to `s`.
pub open spec fn event_ok<T>(s: DispatchState, e: Event<T>) -> bool {
    match e {
        Event::Subscribed(id) => id == s.issued,
        Event::Unsubscribed(_) => true,
        Event::BroadcastStarted(_) => true,
        Event::Invoked(id, _) => s.live.contains(id),
        Event::Kept(id) => s.running.len() > 0 && s.running.last() == id,
        Event::Cancelled(id) => s.running.len() > 0 && s.running.last() == id,
    }
}

/// The effect of one event on the replayed state.
pub open spec fn apply_event<T>(s: DispatchState, e: Event<T>) -> DispatchState {
    match e {
        Event::Subscribed(id) => (DispatchState {
            issued: id + 1,
            live: s.live.insert(id),
            running: s.running,
        }),
        Event::Unsubscribed(id) => (DispatchState {
            issued: s.issued,
            live: s.live.remove(id),
            running: s.running,
        }),
        Event::BroadcastStarted(_) => s,
        Event::Invoked(id, _) => (DispatchState {
            issued: s.issued,
            live: s.live.remove(id),
            running: s.running.push(id),
        }),
        Event::Kept(id) => (DispatchState {
            issued: s.issued,
            live: s.live.insert(id),
            running: s.running.drop_last(),
        }),
        Event::Cancelled(id) => (DispatchState {
            issued: s.issued,
            live: s.live,
            running: s.running.drop_last(),
        }),
    }
}

/// The replay of a whole history.
pub open spec fn state_of<T>(h: Seq<Event<T>>) -> DispatchState
    decreases h.len(),
{
    if h.len() == 0 {
        initial_state()
    } else {
        apply_event(state_of(h.drop_last()), h.last())
    }
}

/// A history is legal when every event was legal in the state it met.
/// Histories of well-formed delegates are always legal.
pub open spec fn legal<T>(h: Seq<Event<T>>) -> bool
    decreases h.len(),
{
    h.len() == 0 || (legal(h.drop_last()) && event_ok(state_of(h.drop_last()), h.last()))
}

/// Whether `e` records an invocation of the subscription `id`.
pub open spec fn is_invocation_of<T>(e: Event<T>, id: u64) -> bool {
    match e {
        Event::Invoked(i, _) => i == id,
        _ => false,
    }
}

/// How many times the subscription `id` has been invoked over the history.
pub open spec fn invocations<T>(h: Seq<Event<T>>, id: u64) -> nat
    decreases h.len(),
{
    if h.len() == 0 {
        0
    } else {
        invocations(h.drop_last(), id) + if is_invocation_of(h.last(), id) {
            1nat
        } else {
            0nat
        }
    }
}

/// Replay and legality unroll one event at a time over `push`.
pub proof fn lemma_push<T>(h: Seq<Event<T>>, e: Event<T>)
    ensures
        state_of(h.push(e)) == apply_event(state_of(h), e),
        legal(h.push(e)) <==> (legal(h) && event_ok(state_of(h), e)),
        forall|i: u64|
            is_invocation_of(e, i) ==> invocations(h.push(e), i) == invocations(h, i) + 1,
        forall|i: u64|
            !is_invocation_of(e, i) ==> invocations(h.push(e), i) == invocations(h, i),
{
    assert(h.push(e).drop_last() =~= h);
    assert(h.push(e).last() == e);
}

/// Pushing one element extends a sequence: the original is a prefix.
pub proof fn lemma_prefix_push<A>(s: Seq<A>, e: A)
    ensures
        s.is_prefix_of(s.push(e)),
{
    assert(s =~= s.push(e).subrange(0, s.len() as int));
}

/// Being a prefix is transitive.
pub proof fn lemma_prefix_transitive<A>(a: Seq<A>, b: Seq<A>, c: Seq<A>)
    requires
        a.is_prefix_of(b),
        b.is_prefix_of(c),
    ensures
        a.is_prefix_of(c),
{
    assert forall|i: int| 0 <= i < a.len() implies a[i] == c.subrange(0, a.len() as int)[i] by {
        assert(a[i] == b.subrange(0, a.len() as int)[i]);
        assert(b[i] == c.subrange(0, b.len() as int)[i]);
    }
    assert(a =~= c.subrange(0, a.len() as int));
}

/// Invariants that every legal history maintains: only issued identities are
/// live or running, the running stack holds no duplicates, and no identity is
/// live and running at once.
pub proof fn lemma_state_invariants<T>(h: Seq<Event<T>>)
    requires
        legal(h),
    ensures
        state_of(h).issued >= 0,
        forall|i: u64| #[trigger] state_of(h).live.contains(i) ==> (i as int) < state_of(h).issued,
        forall|k: int|
            0 <= k < state_of(h).running.len() ==> (#[trigger] state_of(h).running[k] as int)
                < state_of(h).issued,
        forall|k: int|
            0 <= k < state_of(h).running.len() ==> !state_of(h).live.contains(
                #[trigger] state_of(h).running[k],
            ),
        forall|k1: int, k2: int|
            0 <= k1 < k2 < state_of(h).running.len() ==> #[trigger] state_of(h).running[k1]
                != #[trigger] state_of(h).running[k2],
    decreases h.len(),
{
    if h.len() > 0 {
        let h0 = h.drop_last();
        let e = h.last();
        let s0 = state_of(h0);
        let s = state_of(h);
        lemma_state_invariants(h0);
        match e {
            Event::Subscribed(id) => {
                assert(forall|k: int|
                    0 <= k < s.running.len() ==> !s.live.contains(#[trigger] s.running[k])) by {
                    assert(forall|k: int|
                        0 <= k < s0.running.len() ==> (#[trigger] s0.running[k] as int)
                            < s0.issued);
                }
            },
            Event::Unsubscribed(_) => {},
            Event::BroadcastStarted(_) => {},
            Event::Invoked(id, _) => {
                assert(s.running == s0.running.push(id));
                assert(forall|k: int|
                    0 <= k < s0.running.len() ==> #[trigger] s.running[k] == s0.running[k]);
                assert(s.running[s0.running.len() as int] == id);
            },
            Event::Kept(id) => {
                assert(s.running == s0.running.drop_last());
                assert(id == s0.running[s0.running.len() - 1]);
                assert((id as int) < s0.issued);
                assert(forall|k: int|
                    0 <= k < s.running.len() ==> #[trigger] s.running[k] == s0.running[k]);
                assert(forall|k: int| 0 <= k < s.running.len() ==> s.running[k] != id);
            },
            Event::Cancelled(_) => {
                assert(s.running == s0.running.drop_last());
                assert(forall|k: int|
                    0 <= k < s.running.len() ==> #[trigger] s.running[k] == s0.running[k]);
            },
        }
    }
}

/// Extending a history never loses issued identities or recorded invocations,
/// and every prefix of a legal history is legal.
pub proof fn lemma_history_grows<T>(h1: Seq<Event<T>>, h2: Seq<Event<T>>)
    requires
        legal(h2),
        h1.is_prefix_of(h2),
    ensures
        legal(h1),
        state_of(h1).issued <= state_of(h2).issued,
        forall|i: u64| invocations(h1, i) <= #[trigger] invocations(h2, i),
    decreases h2.len() - h1.len(),
{
    if h1.len() == h2.len() {
        assert(h1 =~= h2);
    } else {
        let h2p = h2.drop_last();
        assert(h1.is_prefix_of(h2p)) by {
            assert(h1 =~= h2p.subrange(0, h1.len() as int));
        }
        lemma_history_grows(h1, h2p);
        assert(h2p.push(h2.last()) =~= h2);
        lemma_push(h2p, h2.last());
    }
}

/// Once an identity has been issued but is neither live nor on the running
/// stack, no legal continuation of the history ever invokes it again, nor
/// brings it back: identities are never reused.
pub proof fn lemma_retired_stays_retired<T>(h1: Seq<Event<T>>, h2: Seq<Event<T>>, id: u64)
    requires
        legal(h2),
        h1.is_prefix_of(h2),
        (id as int) < state_of(h1).issued,
        !state_of(h1).live.contains(id),
        !state_of(h1).running.contains(id),
    ensures
        invocations(h2, id) == invocations(h1, id),
        !state_of(h2).live.contains(id),
        !state_of(h2).running.contains(id),
    decreases h2.len() - h1.len(),
{
    if h1.len() == h2.len() {
        assert(h1 =~= h2);
    } else {
        let h2p = h2.drop_last();
        assert(h1.is_prefix_of(h2p)) by {
            assert(h1 =~= h2p.subrange(0, h1.len() as int));
        }
        lemma_retired_stays_retired(h1, h2p, id);
        lemma_history_grows(h1, h2p);
        lemma_state_invariants(h2p);
        let e = h2.last();
        let s0 = state_of(h2p);
        assert(h2p.push(e) =~= h2);
        lemma_push(h2p, e);
        match e {
            Event::Subscribed(j) => {
                assert(j != id);
            },
            Event::Unsubscribed(_) => {},
            Event::BroadcastStarted(_) => {},
            Event::Invoked(j, _) => {
                assert(j != id);
                assert(!s0.running.push(j).contains(id)) by {
                    assert(forall|k: int|
                        0 <= k < s0.running.len() ==> #[trigger] s0.running.push(j)[k]
                            == s0.running[k]);
                }
            },
            Event::Kept(j) => {
                assert(s0.running.contains(j)) by {
                    assert(s0.running[s0.running.len() - 1] == j);
                }
                assert(j != id);
                assert(!s0.running.drop_last().contains(id)) by {
                    assert(forall|k: int|
                        0 <= k < s0.running.len() - 1 ==> #[trigger] s0.running.drop_last()[k]
                            == s0.running[k]);
                }
            },
            Event::Cancelled(j) => {
                assert(!s0.running.drop_last().contains(id)) by {
                    assert(forall|k: int|
                        0 <= k < s0.running.len() - 1 ==> #[trigger] s0.running.drop_last()[k]
                            == s0.running[k]);
                }
            },
        }
    }
}

/// An identity that has not been issued yet has never been invoked, is not
/// live, and is not running: a callback subscribed during a dispatch pass has
/// not been reached by any invocation recorded so far.
pub proof fn lemma_unissued_never_invoked<T>(h: Seq<Event<T>>, id: u64)
    requires
        legal(h),
        state_of(h).issued <= id as int,
    ensures
        invocations(h, id) == 0,
        !state_of(h).live.contains(id),
        !state_of(h).running.contains(id),
    decreases h.len(),
{
    if h.len() > 0 {
        let h0 = h.drop_last();
        let e = h.last();
        let s0 = state_of(h0);
        assert(s0.issued <= state_of(h).issued);
        lemma_unissued_never_invoked(h0, id);
        lemma_state_invariants(h0);
        assert(h0.push(e) =~= h);
        lemma_push(h0, e);
        match e {
            Event::Subscribed(j) => {
                assert(j != id);
            },
            Event::Unsubscribed(_) => {},
            Event::BroadcastStarted(_) => {},
            Event::Invoked(j, _) => {
                assert(j != id);
                assert(!s0.running.push(j).contains(id)) by {
                    assert(forall|k: int|
                        0 <= k < s0.running.len() ==> #[trigger] s0.running.push(j)[k]
                            == s0.running[k]);
                }
            },
            Event::Kept(j) => {
                assert(s0.running.contains(j)) by {
                    assert(s0.running[s0.running.len() - 1] == j);
                }
                assert(j != id);
                assert(!s0.running.drop_last().contains(id)) by {
                    assert(forall|k: int|
                        0 <= k < s0.running.len() - 1 ==> #[trigger] s0.running.drop_last()[k]
                            == s0.running[k]);
                }
            },
            Event::Cancelled(_) => {
                assert(!s0.running.drop_last().contains(id)) by {
                    assert(forall|k: int|
                        0 <= k < s0.running.len() - 1 ==> #[trigger] s0.running.drop_last()[k]
                            == s0.running[k]);
                }
            },
        }
    }
}

/// One full run of a snapshotted callback as the history shows it: exactly
/// one `Invoked(id, v)`, then whatever the callback's own reentrant calls on
/// the delegate appended (`h_run` extends that point), then `Kept(id)` if the
/// callback chose to stay subscribed and `Cancelled(id)` if not.
pub open spec fn run_shape<T>(
    h_before: Seq<Event<T>>,
    h_run: Seq<Event<T>>,
    h_after: Seq<Event<T>>,
    id: u64,
    v: T,
    stayed: bool,
) -> bool {
    &&& h_before.push(Event::Invoked(id, v)).is_prefix_of(h_run)
    &&& h_after == h_run.push(
        if stayed {
            Event::Kept(id)
        } else {
            Event::Cancelled(id)
        },
    )
}

/// One dispatch step over one snapshotted identity: if `id` is no longer live
/// when reached — unsubscribed or cancelled by an earlier callback of the
/// same pass — nothing is appended and the step is skipped; otherwise the
/// history gains exactly one run of that callback.
pub open spec fn step_shape<T>(
    h_before: Seq<Event<T>>,
    h_after: Seq<Event<T>>,
    id: u64,
    v: T,
) -> bool {
    if !state_of(h_before).live.contains(id) {
        h_after == h_before
    } else {
        exists|h_run: Seq<Event<T>>, stayed: bool|
            #[trigger] run_shape(h_before, h_run, h_after, id, v, stayed)
    }
}

/// One dispatch pass as the history shows it: from `h_start`, the identities
/// of the snapshot `ids` are worked through in order, one `step_shape` each,
/// and nothing else is appended. With `ids` empty the history is untouched.
pub open spec fn pass_shape<T>(
    h_start: Seq<Event<T>>,
    h_end: Seq<Event<T>>,
    ids: Seq<u64>,
    v: T,
) -> bool
    decreases ids.len(),
{
    if ids.len() == 0 {
        h_end == h_start
    } else {
        exists|h_mid: Seq<Event<T>>|
            #[trigger] step_shape(h_mid, h_end, ids.last(), v) && pass_shape(
                h_start,
                h_mid,
                ids.drop_last(),
                v,
            )
    }
}

/// A pass over one more snapshot entry: a pass over the first `k` identities
/// followed by one step over the `k`-th is a pass over the first `k + 1`.
pub proof fn lemma_pass_extend<T>(
    h_start: Seq<Event<T>>,
    h_mid: Seq<Event<T>>,
    h_end: Seq<Event<T>>,
    ids: Seq<u64>,
    k: int,
    v: T,
)
    requires
        0 <= k < ids.len(),
        pass_shape(h_start, h_mid, ids.take(k), v),
        step_shape(h_mid, h_end, ids[k], v),
    ensures
        pass_shape(h_start, h_end, ids.take(k + 1), v),
{
    let w = ids.take(k + 1);
    assert(w.len() == k + 1);
    assert(w.drop_last() =~= ids.take(k));
    assert(w.last() == ids[k]);
    assert(pass_shape(h_start, h_mid, w.drop_last(), v));
    assert(step_shape(h_mid, h_end, w.last(), v));
    assert(pass_shape(h_start, h_end, w, v));
}

/// The events of one quiet dispatch pass over the snapshot `ids`: each
/// snapshotted subscription is invoked once with `value`, in snapshot order,
/// its callback touching nothing, and it stays subscribed exactly when its
/// identity is in `kept`.
pub open spec fn pass_events<T>(ids: Seq<u64>, value: T, kept: Set<u64>) -> Seq<Event<T>>
    decreases ids.len(),
{
    if ids.len() == 0 {
        Seq::empty()
    } else {
        pass_events(ids.drop_last(), value, kept).push(Event::Invoked(ids.last(), value)).push(
            if kept.contains(ids.last()) {
                Event::Kept(ids.last())
            } else {
                Event::Cancelled(ids.last())
            },
        )
    }
}

/// One quiet pass — no callback subscribes, unsubscribes, or broadcasts — over
/// distinct live identities invokes each of them exactly once, in the order
/// the snapshot lists them, invokes nothing else, and leaves live exactly the
/// subscriptions that were live before except those the pass cancelled.
pub proof fn lemma_pass<T>(h: Seq<Event<T>>, ids: Seq<u64>, value: T, kept: Set<u64>)
    requires
        legal(h),
        forall|k: int| 0 <= k < ids.len() ==> state_of(h).live.contains(#[trigger] ids[k]),
        forall|k1: int, k2: int| 0 <= k1 < k2 < ids.len() ==> ids[k1] != ids[k2],
    ensures
        legal(h + pass_events(ids, value, kept)),
        state_of(h + pass_events(ids, value, kept)).issued == state_of(h).issued,
        state_of(h + pass_events(ids, value, kept)).running == state_of(h).running,
        forall|x: u64|
            #[trigger] state_of(h + pass_events(ids, value, kept)).live.contains(x) <==> (
            state_of(h).live.contains(x) && (!ids.contains(x) || kept.contains(x))),
        forall|i: u64|
            ids.contains(i) ==> #[trigger] invocations(h + pass_events(ids, value, kept), i)
                == invocations(h, i) + 1,
        forall|i: u64|
            !ids.contains(i) ==> #[trigger] invocations(h + pass_events(ids, value, kept), i)
                == invocations(h, i),
    decreases ids.len(),
{
    if ids.len() == 0 {
        assert(h + pass_events(ids, value, kept) =~= h);
    } else {
        let rest = ids.drop_last();
        let last = ids.last();
        assert(rest.push(last) =~= ids);
        assert(forall|k: int| 0 <= k < rest.len() ==> rest[k] == #[trigger] ids[k]);
        lemma_pass(h, rest, value, kept);
        let p_rest = pass_events(rest, value, kept);
        let e_inv = Event::Invoked(last, value);
        let e_end: Event<T> = if kept.contains(last) {
            Event::Kept(last)
        } else {
            Event::Cancelled(last)
        };
        assert(pass_events(ids, value, kept) == p_rest.push(e_inv).push(e_end));
        let h1 = h + p_rest;
        let h2 = h1.push(e_inv);
        let h3 = h2.push(e_end);
        assert(h + pass_events(ids, value, kept) =~= h3);
        assert(!rest.contains(last)) by {
            if rest.contains(last) {
                let j = choose|j: int| 0 <= j < rest.len() && rest[j] == last;
                assert(ids[j] == ids[ids.len() - 1]);
            }
        }
        assert(state_of(h).live.contains(last)) by {
            assert(ids[ids.len() - 1] == last);
        }
        assert(state_of(h1).live.contains(last));
        lemma_push(h1, e_inv);
        assert(legal(h2));
        assert(state_of(h2).running == state_of(h).running.push(last));
        lemma_push(h2, e_end);
        assert(state_of(h2).running.last() == last);
        assert(legal(h3));
        assert(state_of(h3).running =~= state_of(h).running);
        assert(state_of(h3).issued == state_of(h).issued);
        assert forall|x: u64| #[trigger] state_of(h3).live.contains(x) <==> (state_of(
            h,
        ).live.contains(x) && (!ids.contains(x) || kept.contains(x))) by {
            vstd::seq_lib::lemma_seq_contains_after_push(rest, last, x);
            assert(ids.contains(x) <==> (rest.contains(x) || x == last));
            assert(state_of(h1).live.contains(x) <==> (state_of(h).live.contains(x) && (
            !rest.contains(x) || kept.contains(x))));
            if kept.contains(last) {
                assert(state_of(h3).live == state_of(h1).live.remove(last).insert(last));
            } else {
                assert(state_of(h3).live == state_of(h1).live.remove(last));
            }
        }
        assert forall|i: u64|
            ids.contains(i) implies #[trigger] invocations(h3, i) == invocations(h, i) + 1 by {
            vstd::seq_lib::lemma_seq_contains_after_push(rest, last, i);
            if i == last {
                assert(invocations(h1, i) == invocations(h, i));
                assert(invocations(h2, i) == invocations(h1, i) + 1);
                assert(invocations(h3, i) == invocations(h2, i));
            } else {
                assert(rest.contains(i));
                assert(invocations(h1, i) == invocations(h, i) + 1);
                assert(invocations(h2, i) == invocations(h1, i));
                assert(invocations(h3, i) == invocations(h2, i));
            }
        }
        assert forall|i: u64|
            !ids.contains(i) implies #[trigger] invocations(h3, i) == invocations(h, i) by {
            vstd::seq_lib::lemma_seq_contains_after_push(rest, last, i);
            assert(!rest.contains(i));
            assert(i != last);
            assert(invocations(h1, i) == invocations(h, i));
            assert(invocations(h2, i) == invocations(h1, i));
            assert(invocations(h3, i) == invocations(h2, i));
        }
    }
}

/// A quiet pass is one instance of the shape `broadcast` guarantees: the
/// history `h + pass_events(ids, v, kept)` satisfies `pass_shape` over the
/// same snapshot — each callback's own extension empty, each bracket closed
/// by `Kept` exactly on the identities of `kept`. So the counting laws proved
/// of `pass_events` speak about histories of the ensured shape.
pub proof fn lemma_pass_events_shape<T>(h: Seq<Event<T>>, ids: Seq<u64>, value: T, kept: Set<u64>)
    requires
        legal(h),
        forall|k: int| 0 <= k < ids.len() ==> state_of(h).live.contains(#[trigger] ids[k]),
        forall|k1: int, k2: int| 0 <= k1 < k2 < ids.len() ==> ids[k1] != ids[k2],
    ensures
        pass_shape(h, h + pass_events(ids, value, kept), ids, value),
    decreases ids.len(),
{
    if ids.len() == 0 {
        assert(h + pass_events(ids, value, kept) =~= h);
    } else {
        let rest = ids.drop_last();
        let last = ids.last();
        assert(forall|k: int| 0 <= k < rest.len() ==> rest[k] == #[trigger] ids[k]);
        lemma_pass_events_shape(h, rest, value, kept);
        lemma_pass(h, rest, value, kept);
        let h1 = h + pass_events(rest, value, kept);
        let e_inv = Event::Invoked(last, value);
        let stayed = kept.contains(last);
        let e_end: Event<T> = if stayed {
            Event::Kept(last)
        } else {
            Event::Cancelled(last)
        };
        let h2 = h1.push(e_inv);
        let h3 = h2.push(e_end);
        assert(h + pass_events(ids, value, kept) =~= h3);
        assert(!rest.contains(last)) by {
            if rest.contains(last) {
                let j = choose|j: int| 0 <= j < rest.len() && rest[j] == last;
                assert(ids[j] == ids[ids.len() - 1]);
            }
        }
        assert(state_of(h).live.contains(last)) by {
            assert(ids[ids.len() - 1] == last);
        }
        assert(state_of(h1).live.contains(last));
        assert(h2.is_prefix_of(h2)) by {
            assert(h2 =~= h2.subrange(0, h2.len() as int));
        }
        assert(run_shape(h1, h2, h3, last, value, stayed));
        assert(step_shape(h1, h3, last, value));
        assert(pass_shape(h, h1, ids.drop_last(), value));
        assert(pass_shape(h, h3, ids, value));
    }
}

/// The events of `values.len()` quiet broadcast passes over one unchanging
/// snapshot `ids`, every callback staying subscribed: one pass per value, in
/// order.
pub open spec fn quiet_rounds<T>(ids: Seq<u64>, values: Seq<T>) -> Seq<Event<T>>
    decreases values.len(),
{
    if values.len() == 0 {
        Seq::empty()
    } else {
        quiet_rounds(ids, values.drop_last()).push(Event::BroadcastStarted(values.last()))
            + pass_events(ids, values.last(), ids.to_set())
    }
}

/// Broadcasting to distinct live subscriptions once per value, with every
/// callback staying subscribed and none of them touching the delegate,
/// invokes each subscription exactly once per broadcast — `values.len()`
/// times in all, within each pass in the order the snapshot lists them — and
/// invokes nothing else; the live set, the running stack, and the issue
/// counter end as they began.
pub proof fn lemma_quiet_rounds<T>(h: Seq<Event<T>>, ids: Seq<u64>, values: Seq<T>)
    requires
        legal(h),
        forall|k: int| 0 <= k < ids.len() ==> state_of(h).live.contains(#[trigger] ids[k]),
        forall|k1: int, k2: int| 0 <= k1 < k2 < ids.len() ==> ids[k1] != ids[k2],
    ensures
        legal(h + quiet_rounds(ids, values)),
        state_of(h + quiet_rounds(ids, values)).issued == state_of(h).issued,
        state_of(h + quiet_rounds(ids, values)).running == state_of(h).running,
        forall|x: u64|
            #[trigger] state_of(h + quiet_rounds(ids, values)).live.contains(x) <==> state_of(
                h,
            ).live.contains(x),
        forall|i: u64|
            ids.contains(i) ==> #[trigger] invocations(h + quiet_rounds(ids, values), i)
                == invocations(h, i) + values.len(),
        forall|i: u64|
            !ids.contains(i) ==> #[trigger] invocations(h + quiet_rounds(ids, values), i)
                == invocations(h, i),
    decreases values.len(),
{
    if values.len() == 0 {
        assert(h + quiet_rounds(ids, values) =~= h);
    } else {
        let vrest = values.drop_last();
        let v = values.last();
        lemma_quiet_rounds(h, ids, vrest);
        let q = quiet_rounds(ids, vrest);
        let h1 = h + q;
        let h2 = h1.push(Event::BroadcastStarted(v));
        lemma_push(h1, Event::<T>::BroadcastStarted(v));
        assert(state_of(h2) == state_of(h1));
        assert(forall|k: int|
            0 <= k < ids.len() ==> state_of(h2).live.contains(#[trigger] ids[k]));
        lemma_pass(h2, ids, v, ids.to_set());
        let h3 = h2 + pass_events(ids, v, ids.to_set());
        assert(h + quiet_rounds(ids, values) =~= h3);
        assert forall|x: u64| #[trigger] state_of(h3).live.contains(x) <==> state_of(
            h,
        ).live.contains(x) by {
            if ids.contains(x) {
                assert(ids.to_set().contains(x));
            }
        }
        assert forall|i: u64|
            ids.contains(i) implies #[trigger] invocations(h3, i) == invocations(h, i)
            + values.len() by {
            assert(invocations(h1, i) == invocations(h, i) + vrest.len());
            assert(invocations(h2, i) == invocations(h1, i));
            assert(invocations(h3, i) == invocations(h2, i) + 1);
        }
        assert forall|i: u64|
            !ids.contains(i) implies #[trigger] invocations(h3, i) == invocations(h, i) by {
            assert(invocations(h1, i) == invocations(h, i));
            assert(invocations(h2, i) == invocations(h1, i));
            assert(invocations(h3, i) == invocations(h2, i));
        }
    }
}

/// A subscription made while a dispatch pass is underway is not in that
/// pass's snapshot, so the rest of the pass does not invoke it — at the pass
/// end it has never been invoked at all — while it is live for the next
/// snapshot, and the next pass, whose snapshot holds it, invokes it exactly
/// once.
///
/// Here `h` is the history just after the new subscription `j` was recorded,
/// `rest` is the not-yet-dispatched part of the running pass's snapshot —
/// every identity in it predates `j` — and `ids2` is the next pass's
/// snapshot.
pub proof fn lemma_subscribed_mid_pass<T>(
    h: Seq<Event<T>>,
    rest: Seq<u64>,
    j: u64,
    value: T,
    kept: Set<u64>,
    ids2: Seq<u64>,
    value2: T,
    kept2: Set<u64>,
)
    requires
        legal(h),
        h.len() > 0,
        h.last() == Event::<T>::Subscribed(j),
        forall|k: int| 0 <= k < rest.len() ==> #[trigger] rest[k] < j,
        forall|k: int| 0 <= k < rest.len() ==> state_of(h).live.contains(#[trigger] rest[k]),
        forall|k1: int, k2: int| 0 <= k1 < k2 < rest.len() ==> rest[k1] != rest[k2],
        forall|k: int|
            0 <= k < ids2.len() ==> state_of(h + pass_events(rest, value, kept)).live.contains(
                #[trigger] ids2[k],
            ),
        forall|k1: int, k2: int| 0 <= k1 < k2 < ids2.len() ==> ids2[k1] != ids2[k2],
        ids2.contains(j),
    ensures
        invocations(h, j) == 0,
        invocations(h + pass_events(rest, value, kept), j) == 0,
        state_of(h + pass_events(rest, value, kept)).live.contains(j),
        invocations(
            (h + pass_events(rest, value, kept)).push(Event::BroadcastStarted(value2))
                + pass_events(ids2, value2, kept2),
            j,
        ) == 1,
{
    let h0 = h.drop_last();
    assert(legal(h0));
    assert(state_of(h0).issued == j as int);
    lemma_unissued_never_invoked(h0, j);
    assert(h0.push(Event::<T>::Subscribed(j)) =~= h);
    lemma_push(h0, Event::<T>::Subscribed(j));
    assert(invocations(h, j) == 0);
    lemma_pass(h, rest, value, kept);
    assert(!rest.contains(j)) by {
        if rest.contains(j) {
            let k = choose|k: int| 0 <= k < rest.len() && rest[k] == j;
            assert(rest[k] < j);
        }
    }
    assert(state_of(h).live.contains(j));
    let hp = h + pass_events(rest, value, kept);
    lemma_push(hp, Event::<T>::BroadcastStarted(value2));
    let hb = hp.push(Event::<T>::BroadcastStarted(value2));
    assert(state_of(hb) == state_of(hp));
    assert(forall|k: int|
        0 <= k < ids2.len() ==> state_of(hb).live.contains(#[trigger] ids2[k]));
    lemma_pass(hb, ids2, value2, kept2);
    assert(invocations(hb, j) == invocations(hp, j));
    assert(invocations(hb + pass_events(ids2, value2, kept2), j) == invocations(hb, j) + 1);
}

/// A subscription whose callback cancels on its first invocation runs exactly
/// once, ever: the pass that reaches it records one invocation, and no legal
/// continuation of the history ever invokes it again.
///
/// Here `h` is the history just after the subscription `j` was recorded,
/// `ids` the snapshot of a later quiet pass that reaches `j`, and `kept` the
/// identities whose callbacks stay — `j` not among them. `h_later` is any
/// later history of the same delegate.
pub proof fn lemma_cancel_runs_exactly_once<T>(
    h: Seq<Event<T>>,
    ids: Seq<u64>,
    j: u64,
    value: T,
    kept: Set<u64>,
    h_later: Seq<Event<T>>,
)
    requires
        legal(h),
        h.len() > 0,
        h.last() == Event::<T>::Subscribed(j),
        forall|k: int| 0 <= k < ids.len() ==> state_of(h).live.contains(#[trigger] ids[k]),
        forall|k1: int, k2: int| 0 <= k1 < k2 < ids.len() ==> ids[k1] != ids[k2],
        ids.contains(j),
        !kept.contains(j),
        legal(h_later),
        (h + pass_events(ids, value, kept)).is_prefix_of(h_later),
    ensures
        invocations(h + pass_events(ids, value, kept), j) == 1,
        invocations(h_later, j) == 1,
        !state_of(h_later).live.contains(j),
{
    let h0 = h.drop_last();
    assert(legal(h0));
    assert(state_of(h0).issued == j as int);
    lemma_unissued_never_invoked(h0, j);
    assert(h0.push(Event::<T>::Subscribed(j)) =~= h);
    lemma_push(h0, Event::<T>::Subscribed(j));
    assert(invocations(h, j) == 0);
    lemma_pass(h, ids, value, kept);
    let hp = h + pass_events(ids, value, kept);
    assert(invocations(hp, j) == 1);
    assert(!state_of(hp).live.contains(j));
    assert(!state_of(hp).running.contains(j)) by {
        lemma_state_invariants(h0);
        assert(state_of(hp).running == state_of(h).running);
        assert(state_of(h).running == state_of(h0).running);
        if state_of(h0).running.contains(j) {
            let k = choose|k: int|
                0 <= k < state_of(h0).running.len() && state_of(h0).running[k] == j;
            assert((state_of(h0).running[k] as int) < state_of(h0).issued);
        }
    }
    assert((j as int) < state_of(hp).issued) by {
        assert(state_of(hp).issued == state_of(h).issued);
    }
    lemma_retired_stays_retired(hp, h_later, j);
}

/// While a callback runs — its identity on top of the running stack — an
/// unsubscribe of its own identity changes nothing: the identity is not in
/// the live set mid-run, so no other subscription is touched, and whether the
/// callback fires again is decided by its response alone — `Kept` still
/// reinstates it after the unsubscribe, `Cancelled` still retires it.
pub proof fn lemma_self_unsubscribe_mid_run<T>(h: Seq<Event<T>>, id: u64)
    requires
        legal(h),
        state_of(h).running.len() > 0,
        state_of(h).running.last() == id,
    ensures
        legal(h.push(Event::Unsubscribed(id))),
        state_of(h.push(Event::Unsubscribed(id))).live == state_of(h).live,
        state_of(h.push(Event::Unsubscribed(id))).running == state_of(h).running,
        legal(h.push(Event::Unsubscribed(id)).push(Event::Kept(id))),
        state_of(h.push(Event::Unsubscribed(id)).push(Event::Kept(id))).live == state_of(
            h,
        ).live.insert(id),
        legal(h.push(Event::Unsubscribed(id)).push(Event::Cancelled(id))),
        state_of(h.push(Event::Unsubscribed(id)).push(Event::Cancelled(id))).live == state_of(
            h,
        ).live,
{
    lemma_state_invariants(h);
    assert(state_of(h).running.contains(id)) by {
        assert(state_of(h).running[state_of(h).running.len() - 1] == id);
    }
    assert(!state_of(h).live.contains(id));
    lemma_push(h, Event::<T>::Unsubscribed(id));
    let h1 = h.push(Event::<T>::Unsubscribed(id));
    assert(state_of(h1).live =~= state_of(h).live);
    lemma_push(h1, Event::<T>::Kept(id));
    lemma_push(h1, Event::<T>::Cancelled(id));
}

/// A run that ends in cancellation leaves the subscription neither live nor
/// running, so by `lemma_retired_stays_retired` it is never invoked again.
pub proof fn lemma_cancelled_retires<T>(h: Seq<Event<T>>, id: u64)
    requires
        legal(h),
        h.len() > 0,
        h.last() == Event::<T>::Cancelled(id),
    ensures
        !state_of(h).live.contains(id),
        !state_of(h).running.contains(id),
        (id as int) < state_of(h).issued,
{
    let h0 = h.drop_last();
    assert(legal(h0));
    lemma_state_invariants(h0);
    let r = state_of(h0).running;
    assert(r.last() == id);
    assert(r.contains(id)) by {
        assert(r[r.len() - 1] == id);
    }
    assert(!state_of(h0).live.contains(id));
    assert(state_of(h).running == r.drop_last());
    assert(!r.drop_last().contains(id)) by {
        if r.drop_last().contains(id) {
            let k = choose|k: int| 0 <= k < r.drop_last().len() && r.drop_last()[k] == id;
            assert(r[k] == id);
            assert(r[k] != r[r.len() - 1]);
        }
    }
    assert((id as int) < state_of(h0).issued) by {
        assert((r[r.len() - 1] as int) < state_of(h0).issued);
    }
}


} // verus!
