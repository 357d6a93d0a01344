//! The delegate: an ordered collection of callbacks with reentrancy-safe
//! dispatch.

use vstd::prelude::*;

use crate::history::Event;
use crate::history::invocations;
use crate::history::legal;
use crate::history::lemma_history_grows;
use crate::history::lemma_prefix_push;
use crate::history::lemma_prefix_transitive;
use crate::history::lemma_push;
use crate::history::lemma_retired_stays_retired;
use crate::history::lemma_pass_extend;
use crate::history::lemma_state_invariants;
use crate::history::pass_shape;
use crate::history::run_shape;
use crate::history::state_of;
use crate::history::step_shape;

verus! {

/// Returned by a callback to decide whether its subscription survives the
/// broadcast that invoked it.
pub enum Response {
    StaySubscribed,
    CancelSubscription,
}

/// A capability token identifying one registered callback within the
/// [`Delegate`] that issued it. Passing it to [`Delegate::unsubscribe`]
/// cancels the subscription; presenting it to any other delegate is a no-op.
#[derive(Clone, Copy, PartialEq, Eq, Hash)]
pub struct Subscription {
    tag: snowflake::ProcessUniqueId,
    id: u64,
}

impl Subscription {
    /// The tag of the delegate that issued this subscription.
    pub closed spec fn tag(&self) -> snowflake::ProcessUniqueId {
        self.tag
    }

    /// The identity of this subscription within its delegate.
    pub closed spec fn id(&self) -> u64 {
        self.id
    }
}

/// A subscriber's behavior, invoked by [`Delegate::broadcast`] with a
/// read-only view of the broadcast value.
///
/// The callback also receives the broadcasting delegate itself, so that it may
/// subscribe, unsubscribe, or broadcast again while dispatch is in progress.
/// The contract states what any sequence of the delegate's own operations
/// guarantees: the delegate stays well formed, its history only grows, and
/// the stack of running callbacks is restored on return. An implementation
/// verified by Verus is held to this contract; one written outside the
/// verified world is trusted to it. Such an implementation could break it
/// without unsafe code — a plain assignment `*delegate = Delegate::new()`
/// swaps in a fresh delegate, which no sequence of the delegate's own
/// operations does — so what is proved through this trait holds only of
/// implementations that keep to it.
pub trait Callback<T>: Sized {
    fn call(&mut self, delegate: &mut Delegate<T, Self>, value: &T) -> (response: Response)
        requires
            old(delegate).wf(),
        ensures
            final(delegate).wf(),
            final(delegate).tag() == old(delegate).tag(),
            old(delegate).history().is_prefix_of(final(delegate).history()),
            final(delegate).running() == old(delegate).running(),
    ;
}

/// The identity type of the process-wide counter behind delegate tags:
/// snowflake::ProcessUniqueId, a global atomic counter combined with a
/// per-thread offset.
#[verifier::external_type_specification]
#[verifier::external_body]
pub struct ExProcessUniqueId(snowflake::ProcessUniqueId);

/// Relies on snowflake::ProcessUniqueId::new: every call in a process returns
/// a value unequal to every other call's, drawn from one process-wide atomic
/// counter and a per-thread offset, never reused for the life of the process.
/// That two calls differ depends on the counter's state, which no contract
/// here can see, so nothing is promised of the result. The call panics only
/// when a thread exhausts its supply of identifiers, which no input can
/// bring about.
pub assume_specification[ snowflake::ProcessUniqueId::new ]() -> (r: snowflake::ProcessUniqueId);

/// Relies on ProcessUniqueId's derived PartialEq: it compares the two fields
/// the value is made of, so it returns true exactly on equal values.
pub assume_specification[ <snowflake::ProcessUniqueId as PartialEq>::eq ](
    a: &snowflake::ProcessUniqueId,
    b: &snowflake::ProcessUniqueId,
) -> (r: bool)
    ensures
        r <==> (a == b),
;

/// The identities of a sequence of entries, in order.
pub open spec fn ids_of<C>(entries: Seq<(u64, C)>) -> Seq<u64> {
    entries.map_values(|p: (u64, C)| p.0)
}

/// Whether a sequence of identities is strictly ascending.
pub open spec fn strictly_sorted(ids: Seq<u64>) -> bool {
    forall|i: int, j: int| 0 <= i < j < ids.len() ==> ids[i] < ids[j]
}

/// The entries with every entry for `id` removed, order preserved.
pub open spec fn without_id<C>(entries: Seq<(u64, C)>, id: u64) -> Seq<(u64, C)>
    decreases entries.len(),
{
    if entries.len() == 0 {
        entries
    } else if entries.last().0 == id {
        without_id(entries.drop_last(), id)
    } else {
        without_id(entries.drop_last(), id).push(entries.last())
    }
}

/// Maintains an ordered collection of callbacks that can be triggered
/// explicitly by calling [`Delegate::broadcast`].
///
/// Each subscription gets a fresh identity from a per-delegate counter, and
/// the delegate itself carries a tag taken at creation from one process-wide
/// counter, so a [`Subscription`] — tag and identity together — names the
/// delegate that issued it and is never reused for the life of the process. Broadcasting walks the
/// subscriptions live at its start in ascending identity order — registration
/// order — and removes each callback from the collection while it runs, so a
/// reentrant broadcast from inside a callback can never invoke that callback
/// a second time.
pub struct Delegate<T, C> {
    tag: snowflake::ProcessUniqueId,
    next_id: u64,
    entries: Vec<(u64, C)>,
    history: Ghost<Seq<Event<T>>>,
}

impl<T, C> Delegate<T, C> {
    /// The ghost history of everything that ever happened to this delegate.
    pub closed spec fn history(&self) -> Seq<Event<T>> {
        self.history@
    }

    /// The tag this delegate stamps on the subscriptions it issues: a
    /// process-unique value, so no two delegates of one process share it.
    pub closed spec fn tag(&self) -> snowflake::ProcessUniqueId {
        self.tag
    }

    /// The identity the next subscription will get.
    pub closed spec fn next_id(&self) -> u64 {
        self.next_id
    }

    /// The live entries: identity and callback, in ascending identity order.
    pub closed spec fn entries_seq(&self) -> Seq<(u64, C)> {
        self.entries@
    }

    /// The identities of the live subscriptions, in ascending order.
    pub open spec fn ids(&self) -> Seq<u64> {
        ids_of(self.entries_seq())
    }

    /// The identities of the callbacks currently mid-dispatch, innermost
    /// last.
    pub open spec fn running(&self) -> Seq<u64> {
        state_of(self.history()).running
    }

    /// Well-formedness: the history is legal and replays to exactly this
    /// delegate's state, and the entries are strictly ordered by identity.
    pub closed spec fn wf(&self) -> bool {
        &&& legal(self.history@)
        &&& strictly_sorted(ids_of(self.entries@))
        &&& state_of(self.history@).live == ids_of(self.entries@).to_set()
        &&& state_of(self.history@).issued == self.next_id as int
    }

    /// What well-formedness gives a caller: the history is legal, replays to
    /// the visible state, and the live identities are strictly ordered.
    pub proof fn lemma_wf(&self)
        requires
            self.wf(),
        ensures
            legal(self.history()),
            strictly_sorted(self.ids()),
            state_of(self.history()).live == self.ids().to_set(),
            state_of(self.history()).issued == self.next_id() as int,
    {
    }

    /// Creates a delegate with no subscriptions and an empty history.
    pub fn new() -> (d: Self)
        ensures
            d.wf(),
            d.history() == Seq::<Event<T>>::empty(),
            d.entries_seq() == Seq::<(u64, C)>::empty(),
            d.next_id() == 0,
    {
        let d = Delegate {
            tag: snowflake::ProcessUniqueId::new(),
            next_id: 0,
            entries: Vec::new(),
            history: Ghost(Seq::empty()),
        };
        proof {
            assert(ids_of(d.entries@) =~= Seq::<u64>::empty());
            assert(state_of(d.history@).live =~= ids_of(d.entries@).to_set());
        }
        d
    }

    /// The number of live subscriptions.
    pub fn subscription_count(&self) -> (n: usize)
        ensures
            n == self.ids().len(),
    {
        self.entries.len()
    }

    /// Registers a callback to be invoked on every later broadcast, under a
    /// fresh identity larger than every identity this delegate issued before.
    pub fn subscribe(&mut self, callback: C) -> (s: Subscription)
        requires
            old(self).wf(),
            old(self).next_id() < u64::MAX,
        ensures
            final(self).wf(),
            s.tag() == old(self).tag(),
            s.id() == old(self).next_id(),
            !old(self).ids().contains(s.id()),
            final(self).tag() == old(self).tag(),
            final(self).next_id() == old(self).next_id() + 1,
            final(self).entries_seq() == old(self).entries_seq().push((s.id(), callback)),
            final(self).history() == old(self).history().push(Event::Subscribed(s.id())),
            final(self).running() == old(self).running(),
    {
        let id = self.next_id;
        self.next_id = self.next_id + 1;
        self.entries.push((id, callback));
        proof {
            let h0 = old(self).history@;
            let es0 = old(self).entries@;
            let ids0 = ids_of(es0);
            lemma_state_invariants(h0);
            lemma_push(h0, Event::<T>::Subscribed(id));
            self.history@ = h0.push(Event::Subscribed(id));
            assert(!ids0.contains(id)) by {
                if ids0.contains(id) {
                    assert(ids0.to_set().contains(id));
                    assert(state_of(h0).live.contains(id));
                }
            }
            assert(ids_of(self.entries@) =~= ids0.push(id));
            assert forall|a: int, b: int|
                0 <= a < b < ids_of(self.entries@).len() implies ids_of(self.entries@)[a]
                < ids_of(self.entries@)[b] by {
                if b < ids0.len() {
                    assert(ids0[a] < ids0[b]);
                } else {
                    assert(ids0.to_set().contains(ids0[a]));
                    assert(state_of(h0).live.contains(ids0[a]));
                }
            }
            assert forall|x: u64|
                #[trigger] state_of(self.history@).live.contains(x) <==> ids_of(
                    self.entries@,
                ).to_set().contains(x) by {
                vstd::seq_lib::lemma_seq_contains_after_push(ids0, id, x);
            }
            assert(state_of(self.history@).live =~= ids_of(self.entries@).to_set());
        }
        Subscription { tag: self.tag, id }
    }

    /// Cancels the subscription if this delegate issued it and it is still
    /// live. Anything else — a token from another delegate, a token already
    /// cancelled, the token of the callback currently running — is a no-op
    /// for every other entry, and never an error.
    pub fn unsubscribe(&mut self, subscription: Subscription)
        requires
            old(self).wf(),
        ensures
            final(self).wf(),
            final(self).tag() == old(self).tag(),
            final(self).next_id() == old(self).next_id(),
            final(self).running() == old(self).running(),
            subscription.tag() == old(self).tag() ==> final(self).entries_seq() == without_id(
                old(self).entries_seq(),
                subscription.id(),
            ),
            subscription.tag() == old(self).tag() ==> final(self).history() == old(
                self,
            ).history().push(Event::Unsubscribed(subscription.id())),
            subscription.tag() != old(self).tag() ==> *final(self) == *old(self),
            subscription.tag() == old(self).tag() ==> !final(self).ids().contains(
                subscription.id(),
            ),
            forall|i: u64|
                i != subscription.id() ==> (final(self).ids().contains(i) <==> old(
                    self,
                ).ids().contains(i)),
    {
        if subscription.tag == self.tag {
            let _removed = self.remove_entry(subscription.id);
            proof {
                let h0 = old(self).history@;
                lemma_push(h0, Event::<T>::Unsubscribed(subscription.id));
                self.history@ = h0.push(Event::Unsubscribed(subscription.id));
                assert(state_of(self.history@).live =~= ids_of(self.entries@).to_set());
            }
        }
    }

    /// Removes and returns the entry for `id` if one is present.
    fn remove_entry(&mut self, id: u64) -> (removed: Option<C>)
        requires
            strictly_sorted(ids_of(old(self).entries@)),
        ensures
            final(self).tag == old(self).tag,
            final(self).next_id == old(self).next_id,
            final(self).history@ == old(self).history@,
            final(self).entries@ == without_id(old(self).entries@, id),
            strictly_sorted(ids_of(final(self).entries@)),
            ids_of(final(self).entries@).to_set() == ids_of(old(self).entries@).to_set().remove(
                id,
            ),
            !ids_of(final(self).entries@).contains(id),
            forall|i: u64|
                i != id ==> (ids_of(final(self).entries@).contains(i) <==> ids_of(
                    old(self).entries@,
                ).contains(i)),
            removed is Some <==> ids_of(old(self).entries@).contains(id),
            removed is None ==> final(self).entries@ == old(self).entries@,
            (removed matches Some(cb) ==> old(self).entries@.contains((id, cb))),
    {
        let n = self.entries.len();
        let mut k: usize = 0;
        while k < n
            invariant
                *self == *old(self),
                n == self.entries@.len(),
                0 <= k <= n,
                forall|j: int| 0 <= j < k ==> (#[trigger] self.entries@[j]).0 != id,
                strictly_sorted(ids_of(self.entries@)),
            decreases n - k,
        {
            if self.entries[k].0 == id {
                let entry = self.entries.remove(k);
                proof {
                    let es0 = old(self).entries@;
                    assert(es0[k as int].0 == id);
                    assert(self.entries@ == es0.remove(k as int));
                    lemma_remove_at_is_without(es0, id, k as int);
                    lemma_without_id_facts(es0, id);
                    assert(ids_of(es0).contains(id)) by {
                        assert(ids_of(es0)[k as int] == id);
                    }
                    assert(es0.contains((id, entry.1))) by {
                        assert(es0[k as int] == (id, entry.1));
                    }
                }
                return Some(entry.1);
            }
            k += 1;
        }
        proof {
            let es0 = old(self).entries@;
            assert(forall|j: int| 0 <= j < es0.len() ==> (#[trigger] es0[j]).0 != id);
            lemma_without_id_absent(es0, id);
            lemma_without_id_facts(es0, id);
            assert(!ids_of(es0).contains(id)) by {
                if ids_of(es0).contains(id) {
                    let j = choose|j: int| 0 <= j < ids_of(es0).len() && ids_of(es0)[j] == id;
                    assert(es0[j].0 == id);
                }
            }
        }
        None
    }

    /// Finds the position at which an entry for `id` keeps the order.
    fn find_insert_pos(&self, id: u64) -> (pos: usize)
        requires
            strictly_sorted(ids_of(self.entries@)),
            !ids_of(self.entries@).contains(id),
        ensures
            0 <= pos <= self.entries@.len(),
            forall|j: int| 0 <= j < pos ==> (#[trigger] self.entries@[j]).0 < id,
            forall|j: int|
                pos <= j < self.entries@.len() ==> (#[trigger] self.entries@[j]).0 > id,
    {
        let n = self.entries.len();
        let mut k: usize = 0;
        while k < n
            invariant
                0 <= k <= n,
                n == self.entries@.len(),
                strictly_sorted(ids_of(self.entries@)),
                !ids_of(self.entries@).contains(id),
                forall|j: int| 0 <= j < k ==> (#[trigger] self.entries@[j]).0 < id,
            decreases n - k,
        {
            if self.entries[k].0 > id {
                proof {
                    assert forall|j: int|
                        k <= j < self.entries@.len() implies (#[trigger] self.entries@[j]).0
                        > id by {
                        if j > k {
                            assert(ids_of(self.entries@)[k as int] < ids_of(self.entries@)[j]);
                            assert(ids_of(self.entries@)[j] == self.entries@[j].0);
                            assert(ids_of(self.entries@)[k as int] == self.entries@[k as int].0);
                        }
                    }
                }
                return k;
            }
            proof {
                assert(self.entries@[k as int].0 != id) by {
                    if self.entries@[k as int].0 == id {
                        assert(ids_of(self.entries@)[k as int] == id);
                        assert(ids_of(self.entries@).contains(id));
                    }
                }
            }
            k += 1;
        }
        n
    }

    /// Inserts an entry for `id` at its ordered position.
    fn insert_entry(&mut self, id: u64, callback: C)
        requires
            strictly_sorted(ids_of(old(self).entries@)),
            !ids_of(old(self).entries@).contains(id),
        ensures
            final(self).tag == old(self).tag,
            final(self).next_id == old(self).next_id,
            final(self).history@ == old(self).history@,
            strictly_sorted(ids_of(final(self).entries@)),
            ids_of(final(self).entries@).to_set() == ids_of(
                old(self).entries@,
            ).to_set().insert(id),
            ids_of(final(self).entries@).contains(id),
            forall|i: u64|
                i != id ==> (ids_of(final(self).entries@).contains(i) <==> ids_of(
                    old(self).entries@,
                ).contains(i)),
    {
        let pos = self.find_insert_pos(id);
        self.entries.insert(pos, (id, callback));
        proof {
            let es0 = old(self).entries@;
            let es = self.entries@;
            let p = pos as int;
            assert(es == es0.insert(p, (id, callback)));
            assert forall|j: int| 0 <= j < es.len() implies #[trigger] es[j] == (if j < p {
                es0[j]
            } else if j == p {
                (id, callback)
            } else {
                es0[j - 1]
            }) by {}
            assert forall|a: int, b: int| 0 <= a < b < ids_of(es).len() implies ids_of(es)[a]
                < ids_of(es)[b] by {
                assert(ids_of(es)[a] == es[a].0);
                assert(ids_of(es)[b] == es[b].0);
                if a < p && b < p {
                    assert(ids_of(es0)[a] < ids_of(es0)[b]);
                } else if a < p && b > p {
                    assert(ids_of(es0)[a] < ids_of(es0)[b - 1] || a == b - 1);
                    assert(es0[a].0 < id);
                    assert(es0[b - 1].0 > id);
                } else if a == p {
                    assert(es0[b - 1].0 > id);
                } else if b == p {
                    assert(es0[a].0 < id);
                } else if a > p {
                    assert(ids_of(es0)[a - 1] < ids_of(es0)[b - 1]);
                }
            }
            assert(strictly_sorted(ids_of(es)));
            assert(ids_of(es)[p] == id);
            assert(ids_of(es).contains(id));
            assert forall|i: u64|
                i != id implies (ids_of(es).contains(i) <==> ids_of(es0).contains(i)) by {
                if ids_of(es).contains(i) {
                    let j = choose|j: int| 0 <= j < ids_of(es).len() && ids_of(es)[j] == i;
                    if j < p {
                        assert(ids_of(es0)[j] == i);
                    } else if j > p {
                        assert(ids_of(es0)[j - 1] == i);
                    }
                }
                if ids_of(es0).contains(i) {
                    let j = choose|j: int| 0 <= j < ids_of(es0).len() && ids_of(es0)[j] == i;
                    if j < p {
                        assert(ids_of(es)[j] == i);
                    } else {
                        assert(ids_of(es)[j + 1] == i);
                    }
                }
            }
            assert forall|x: u64|
                #[trigger] ids_of(es).to_set().contains(x) <==> ids_of(es0).to_set().insert(
                    id,
                ).contains(x) by {
                if x == id {
                    assert(ids_of(es).contains(id));
                }
            }
            assert(ids_of(es).to_set() =~= ids_of(es0).to_set().insert(id));
        }
    }

    /// Copies out the identities live right now, in ascending order: the
    /// snapshot one broadcast pass works through.
    fn snapshot_ids(&self) -> (snap: Vec<u64>)
        ensures
            snap@ == ids_of(self.entries@),
    {
        let n = self.entries.len();
        let mut snap: Vec<u64> = Vec::new();
        let mut k: usize = 0;
        while k < n
            invariant
                0 <= k <= n,
                n == self.entries@.len(),
                snap@ == ids_of(self.entries@).take(k as int),
            decreases n - k,
        {
            let id = self.entries[k].0;
            snap.push(id);
            proof {
                assert(ids_of(self.entries@).take(k as int).push(id) =~= ids_of(
                    self.entries@,
                ).take(k as int + 1));
            }
            k += 1;
        }
        proof {
            assert(ids_of(self.entries@).take(n as int) =~= ids_of(self.entries@));
        }
        snap
    }
}

impl<T, C: Callback<T>> Delegate<T, C> {
    /// Invokes the callbacks of every subscription live when the broadcast
    /// starts, in ascending identity order — registration order — handing
    /// each a read-only view of `value`.
    ///
    /// Each callback is removed from the collection before it runs and
    /// reinserted under its identity afterwards only if it returns
    /// [`Response::StaySubscribed`]; a callback that returns
    /// [`Response::CancelSubscription`] is gone for good. A subscription
    /// unsubscribed by an earlier callback of the same pass is skipped; one
    /// added during the pass was not in the snapshot and is not invoked
    /// before the next broadcast; and a subscription that was neither live
    /// nor mid-run when the pass started is left exactly as it was, never
    /// invoked.
    pub fn broadcast(&mut self, value: &T)
        requires
            old(self).wf(),
        ensures
            final(self).wf(),
            final(self).tag() == old(self).tag(),
            old(self).next_id() <= final(self).next_id(),
            old(self).history().is_prefix_of(final(self).history()),
            final(self).history().len() > old(self).history().len(),
            final(self).history()[old(self).history().len() as int] == Event::BroadcastStarted(
                *value,
            ),
            final(self).running() == old(self).running(),
            forall|i: u64|
                invocations(old(self).history(), i) <= #[trigger] invocations(
                    final(self).history(),
                    i,
                ),
            forall|i: u64|
                ((i as int) < old(self).next_id() && !old(self).ids().contains(i) && !old(
                    self,
                ).running().contains(i)) ==> #[trigger] invocations(final(self).history(), i)
                    == invocations(old(self).history(), i),
            forall|i: u64|
                ((i as int) < old(self).next_id() && !old(self).ids().contains(i) && !old(
                    self,
                ).running().contains(i)) ==> !(#[trigger] final(self).ids().contains(i)),
            old(self).ids().len() > 0 ==> invocations(
                final(self).history(),
                old(self).ids()[0],
            ) >= invocations(old(self).history(), old(self).ids()[0]) + 1,
            pass_shape(
                old(self).history().push(Event::BroadcastStarted(*value)),
                final(self).history(),
                old(self).ids(),
                *value,
            ),
    {
        let ghost h_start = self.history@;
        let ghost ids0 = ids_of(self.entries@);
        let ghost r0 = state_of(self.history@).running;
        let ghost n0 = self.next_id;
        proof {
            lemma_push(self.history@, Event::<T>::BroadcastStarted(*value));
            self.history@ = self.history@.push(Event::BroadcastStarted(*value));
        }
        let ghost hb = self.history@;
        let snapshot = self.snapshot_ids();
        proof {
            assert(snapshot@.take(0) =~= Seq::<u64>::empty());
            assert(pass_shape(hb, self.history@, snapshot@.take(0), *value));
        }
        let n = snapshot.len();
        let mut k: usize = 0;
        while k < n
            invariant
                0 <= k <= n,
                n == snapshot@.len(),
                snapshot@ == ids0,
                strictly_sorted(ids0),
                self.wf(),
                self.tag == old(self).tag,
                n0 == old(self).next_id,
                n0 <= self.next_id,
                h_start == old(self).history@,
                ids0 == ids_of(old(self).entries@),
                r0 == state_of(h_start).running,
                hb == h_start.push(Event::BroadcastStarted(*value)),
                state_of(hb) == state_of(h_start),
                legal(hb),
                hb.is_prefix_of(self.history@),
                state_of(self.history@).running == r0,
                k == 0 ==> self.entries@ == old(self).entries@,
                k == 0 ==> self.history@ == hb,
                forall|i: u64|
                    invocations(h_start, i) <= #[trigger] invocations(self.history@, i),
                forall|i: u64|
                    ((i as int) < n0 && !ids0.contains(i) && !r0.contains(i))
                        ==> #[trigger] invocations(self.history@, i) == invocations(
                        h_start,
                        i,
                    ),
                forall|i: u64|
                    ((i as int) < n0 && !ids0.contains(i) && !r0.contains(i)) ==> !(
                    #[trigger] ids_of(self.entries@).contains(i)),
                k > 0 && n > 0 ==> invocations(self.history@, ids0[0]) >= invocations(
                    h_start,
                    ids0[0],
                ) + 1,
                pass_shape(hb, self.history@, snapshot@.take(k as int), *value),
            decreases n - k,
        {
            let id = snapshot[k];
            proof {
                assert(ids0.contains(id)) by {
                    assert(ids0[k as int] == id);
                }
                lemma_push(h_start, Event::<T>::BroadcastStarted(*value));
            }
            let ghost h_a = self.history@;
            let ghost ids_a = ids_of(self.entries@);
            let removed = self.remove_entry(id);
            match removed {
                None => {
                    proof {
                        if k == 0 {
                            assert(ids_a.contains(id));
                            assert(false);
                        }
                        assert(!state_of(h_a).live.contains(id)) by {
                            if state_of(h_a).live.contains(id) {
                                assert(ids_a.to_set().contains(id));
                            }
                        }
                        assert(step_shape(h_a, self.history@, id, *value));
                        lemma_pass_extend(hb, h_a, self.history@, snapshot@, k as int, *value);
                    }
                },
                Some(cb) => {
                    let mut cb = cb;
                    let ghost ids_r = ids_of(self.entries@);
                    let ghost nid_a = self.next_id;
                    proof {
                        assert(ids_a.contains(id));
                        assert(ids_a.to_set().contains(id));
                        lemma_push(self.history@, Event::Invoked(id, *value));
                        self.history@ = self.history@.push(Event::Invoked(id, *value));
                        assert(state_of(self.history@).live =~= ids_r.to_set());
                        assert(state_of(self.history@).running == r0.push(id));
                        lemma_prefix_push(h_a, Event::Invoked(id, *value));
                        lemma_prefix_transitive(hb, h_a, self.history@);
                        assert(self.wf());
                    }
                    let ghost h_inv = self.history@;
                    let response = cb.call(self, value);
                    let ghost h_ret = self.history@;
                    let ghost ids_ret = ids_of(self.entries@);
                    proof {
                        assert(state_of(h_ret).live == ids_ret.to_set());
                        assert(state_of(h_ret).issued == self.next_id as int);
                        lemma_state_invariants(h_ret);
                        lemma_history_grows(h_inv, h_ret);
                        assert(state_of(h_inv).issued == nid_a as int);
                        assert(n0 <= self.next_id);
                        assert(state_of(h_ret).running == r0.push(id));
                        assert(state_of(h_ret).running.last() == id);
                        assert(state_of(h_ret).running.contains(id)) by {
                            assert(state_of(h_ret).running[r0.len() as int] == id);
                        }
                        assert(!state_of(h_ret).live.contains(id));
                        assert(!ids_ret.contains(id)) by {
                            if ids_ret.contains(id) {
                                assert(ids_ret.to_set().contains(id));
                            }
                        }
                        lemma_prefix_transitive(hb, h_inv, h_ret);
                    }
                    match response {
                        Response::StaySubscribed => {
                            self.insert_entry(id, cb);
                            proof {
                                lemma_push(self.history@, Event::<T>::Kept(id));
                                self.history@ = self.history@.push(Event::Kept(id));
                                assert(state_of(self.history@).running =~= r0);
                                assert(state_of(self.history@).live =~= ids_of(
                                    self.entries@,
                                ).to_set());
                                lemma_prefix_push(h_ret, Event::<T>::Kept(id));
                                lemma_prefix_transitive(hb, h_ret, self.history@);
                                assert(self.wf());
                                assert(run_shape(h_a, h_ret, self.history@, id, *value, true));
                            }
                        },
                        Response::CancelSubscription => {
                            proof {
                                lemma_push(self.history@, Event::<T>::Cancelled(id));
                                self.history@ = self.history@.push(Event::Cancelled(id));
                                assert(state_of(self.history@).running =~= r0);
                                assert(state_of(self.history@).live =~= ids_of(
                                    self.entries@,
                                ).to_set());
                                lemma_prefix_push(h_ret, Event::<T>::Cancelled(id));
                                lemma_prefix_transitive(hb, h_ret, self.history@);
                                assert(self.wf());
                                assert(run_shape(h_a, h_ret, self.history@, id, *value, false));
                            }
                        },
                    }
                    proof {
                        assert(state_of(h_a).live.contains(id)) by {
                            assert(ids_a.to_set().contains(id));
                        }
                        assert(step_shape(h_a, self.history@, id, *value));
                        lemma_pass_extend(hb, h_a, self.history@, snapshot@, k as int, *value);
                        assert forall|i: u64|
                            ((i as int) < n0 && !ids0.contains(i) && !r0.contains(i))
                            implies #[trigger] invocations(self.history@, i) == invocations(
                            h_start,
                            i,
                        ) by {
                            assert(i != id);
                            assert(invocations(h_a, i) == invocations(h_start, i));
                            assert(!ids_a.contains(i));
                            assert(!ids_r.contains(i));
                            assert(invocations(h_inv, i) == invocations(h_a, i));
                            assert(!state_of(h_inv).live.contains(i)) by {
                                if state_of(h_inv).live.contains(i) {
                                    assert(ids_r.to_set().contains(i));
                                }
                            }
                            assert(!state_of(h_inv).running.contains(i)) by {
                                if state_of(h_inv).running.contains(i) {
                                    let j = choose|j: int|
                                        0 <= j < r0.push(id).len() && r0.push(id)[j] == i;
                                    assert(j < r0.len());
                                    assert(r0[j] == i);
                                }
                            }
                            assert((i as int) < state_of(h_inv).issued);
                            lemma_retired_stays_retired(h_inv, h_ret, i);
                            assert(invocations(self.history@, i) == invocations(h_ret, i));
                        }
                        assert forall|i: u64|
                            ((i as int) < n0 && !ids0.contains(i) && !r0.contains(i)) implies !(
                        #[trigger] ids_of(self.entries@).contains(i)) by {
                            assert(i != id);
                            assert(!ids_a.contains(i));
                            assert(!ids_r.contains(i));
                            assert(!state_of(h_inv).live.contains(i)) by {
                                if state_of(h_inv).live.contains(i) {
                                    assert(ids_r.to_set().contains(i));
                                }
                            }
                            assert(!state_of(h_inv).running.contains(i)) by {
                                if state_of(h_inv).running.contains(i) {
                                    let j = choose|j: int|
                                        0 <= j < r0.push(id).len() && r0.push(id)[j] == i;
                                    assert(j < r0.len());
                                    assert(r0[j] == i);
                                }
                            }
                            assert((i as int) < state_of(h_inv).issued);
                            lemma_retired_stays_retired(h_inv, h_ret, i);
                            assert(!ids_ret.contains(i)) by {
                                if ids_ret.contains(i) {
                                    assert(ids_ret.to_set().contains(i));
                                }
                            }
                            assert(!ids_of(self.entries@).contains(i));
                        }
                        assert forall|i: u64|
                            invocations(h_start, i) <= #[trigger] invocations(
                            self.history@,
                            i,
                        ) by {
                            assert(invocations(h_start, i) <= invocations(h_a, i));
                            assert(invocations(h_a, i) <= invocations(h_inv, i));
                            assert(invocations(h_inv, i) <= invocations(h_ret, i));
                            assert(invocations(h_ret, i) <= invocations(self.history@, i));
                        }
                        if n > 0 {
                            if k == 0 {
                                assert(id == ids0[0]) by {
                                    assert(ids0[0] == snapshot@[0]);
                                }
                                assert(invocations(h_a, ids0[0]) == invocations(
                                    h_start,
                                    ids0[0],
                                ));
                                assert(invocations(h_inv, ids0[0]) == invocations(
                                    h_a,
                                    ids0[0],
                                ) + 1);
                                assert(invocations(h_ret, ids0[0]) >= invocations(
                                    h_inv,
                                    ids0[0],
                                ));
                                assert(invocations(self.history@, ids0[0]) >= invocations(
                                    h_start,
                                    ids0[0],
                                ) + 1);
                            } else {
                                assert(invocations(h_a, ids0[0]) >= invocations(
                                    h_start,
                                    ids0[0],
                                ) + 1);
                                assert(invocations(h_inv, ids0[0]) >= invocations(
                                    h_a,
                                    ids0[0],
                                ));
                                assert(invocations(h_ret, ids0[0]) >= invocations(
                                    h_inv,
                                    ids0[0],
                                ));
                                assert(invocations(self.history@, ids0[0]) >= invocations(
                                    h_ret,
                                    ids0[0],
                                ));
                            }
                        }
                    }
                },
            }
            k += 1;
        }
        proof {
            lemma_prefix_push(h_start, Event::<T>::BroadcastStarted(*value));
            lemma_prefix_transitive(h_start, hb, self.history@);
            assert(hb =~= self.history@.subrange(0, hb.len() as int));
            assert(self.history@[h_start.len() as int] == hb[h_start.len() as int]) by {
                assert(hb[h_start.len() as int] == self.history@.subrange(
                    0,
                    hb.len() as int,
                )[h_start.len() as int]);
            }
            if ids_of(old(self).entries@).len() > 0 {
                assert(n > 0);
            }
            assert(snapshot@.take(n as int) =~= snapshot@);
            assert(pass_shape(hb, self.history@, ids_of(old(self).entries@), *value));
        }
    }
}

impl<C: Callback<()>> Delegate<(), C> {
    /// Broadcasts the unit value: a convenience for delegates whose payload
    /// carries no information.
    pub fn notify(&mut self)
        requires
            old(self).wf(),
        ensures
            final(self).wf(),
            final(self).tag() == old(self).tag(),
            old(self).next_id() <= final(self).next_id(),
            old(self).history().is_prefix_of(final(self).history()),
            final(self).history().len() > old(self).history().len(),
            final(self).history()[old(self).history().len() as int]
                == Event::BroadcastStarted(()),
            final(self).running() == old(self).running(),
            forall|i: u64|
                invocations(old(self).history(), i) <= #[trigger] invocations(
                    final(self).history(),
                    i,
                ),
            forall|i: u64|
                ((i as int) < old(self).next_id() && !old(self).ids().contains(i) && !old(
                    self,
                ).running().contains(i)) ==> #[trigger] invocations(final(self).history(), i)
                    == invocations(old(self).history(), i),
            forall|i: u64|
                ((i as int) < old(self).next_id() && !old(self).ids().contains(i) && !old(
                    self,
                ).running().contains(i)) ==> !(#[trigger] final(self).ids().contains(i)),
            old(self).ids().len() > 0 ==> invocations(
                final(self).history(),
                old(self).ids()[0],
            ) >= invocations(old(self).history(), old(self).ids()[0]) + 1,
            pass_shape(
                old(self).history().push(Event::BroadcastStarted(())),
                final(self).history(),
                old(self).ids(),
                (),
            ),
    {
        self.broadcast(&());
    }
}

/// The live identities of a well-formed delegate are distinct and live in its
/// replayed history: exactly what the dispatch-pass lemmas ask of a snapshot,
/// so they apply to every reachable delegate as it stands.
pub proof fn lemma_snapshot_valid<T, C>(d: Delegate<T, C>)
    requires
        d.wf(),
    ensures
        forall|k: int|
            0 <= k < d.ids().len() ==> state_of(d.history()).live.contains(#[trigger] d.ids()[k]),
        forall|k1: int, k2: int| 0 <= k1 < k2 < d.ids().len() ==> d.ids()[k1] != d.ids()[k2],
{
    d.lemma_wf();
    assert forall|k: int|
        0 <= k < d.ids().len() implies state_of(d.history()).live.contains(
        #[trigger] d.ids()[k],
    ) by {
        assert(d.ids().contains(d.ids()[k]));
        assert(d.ids().to_set().contains(d.ids()[k]));
    }
}

/// Once a subscription is gone from a well-formed delegate — cancelled by its
/// own response, unsubscribed outside its own callback, or never issued by
/// this delegate — and its callback is not mid-run, no later state of the
/// same delegate ever invokes it again or holds it again: identities are
/// never reused.
pub proof fn lemma_gone_stays_gone<T, C>(d1: Delegate<T, C>, d2: Delegate<T, C>, id: u64)
    requires
        d1.wf(),
        d2.wf(),
        d1.history().is_prefix_of(d2.history()),
        (id as int) < d1.next_id(),
        !d1.ids().contains(id),
        !d1.running().contains(id),
    ensures
        invocations(d2.history(), id) == invocations(d1.history(), id),
        !d2.ids().contains(id),
        !d2.running().contains(id),
{
    d1.lemma_wf();
    d2.lemma_wf();
    assert(!state_of(d1.history()).live.contains(id)) by {
        if state_of(d1.history()).live.contains(id) {
            assert(d1.ids().to_set().contains(id));
        }
    }
    lemma_retired_stays_retired(d1.history(), d2.history(), id);
    assert(!d2.ids().contains(id)) by {
        if d2.ids().contains(id) {
            assert(d2.ids().to_set().contains(id));
            assert(state_of(d2.history()).live.contains(id));
        }
    }
}

/// With no entry for `id`, removing `id` changes nothing.
proof fn lemma_without_id_absent<C>(entries: Seq<(u64, C)>, id: u64)
    requires
        forall|j: int| 0 <= j < entries.len() ==> (#[trigger] entries[j]).0 != id,
    ensures
        without_id(entries, id) == entries,
    decreases entries.len(),
{
    if entries.len() > 0 {
        lemma_without_id_absent(entries.drop_last(), id);
        assert(entries.drop_last().push(entries.last()) =~= entries);
    } else {
        assert(without_id(entries, id) =~= entries);
    }
}

/// Removing the one entry that carries `id` from an ordered entry sequence is
/// the same as filtering `id` out.
proof fn lemma_remove_at_is_without<C>(entries: Seq<(u64, C)>, id: u64, at: int)
    requires
        strictly_sorted(ids_of(entries)),
        0 <= at < entries.len(),
        entries[at].0 == id,
    ensures
        entries.remove(at) == without_id(entries, id),
    decreases entries.len(),
{
    if at == entries.len() - 1 {
        assert forall|j: int|
            0 <= j < entries.drop_last().len() implies (#[trigger] entries.drop_last()[j]).0
            != id by {
            assert(ids_of(entries)[j] < ids_of(entries)[at]);
            assert(ids_of(entries)[j] == entries[j].0);
        }
        lemma_without_id_absent(entries.drop_last(), id);
        assert(entries.remove(at) =~= entries.drop_last());
    } else {
        assert forall|a: int, b: int|
            0 <= a < b < ids_of(entries.drop_last()).len() implies ids_of(
                entries.drop_last(),
            )[a] < ids_of(entries.drop_last())[b] by {
            assert(ids_of(entries.drop_last())[a] == ids_of(entries)[a]);
            assert(ids_of(entries.drop_last())[b] == ids_of(entries)[b]);
            assert(ids_of(entries)[a] < ids_of(entries)[b]);
        }
        assert(strictly_sorted(ids_of(entries.drop_last())));
        assert(entries.drop_last()[at] == entries[at]);
        lemma_remove_at_is_without(entries.drop_last(), id, at);
        assert(entries.last().0 != id) by {
            assert(ids_of(entries)[at] < ids_of(entries)[entries.len() - 1]);
            assert(ids_of(entries)[entries.len() - 1] == entries[entries.len() - 1].0);
        }
        assert(without_id(entries, id) == without_id(entries.drop_last(), id).push(
            entries.last(),
        ));
        assert(entries.remove(at) =~= entries.drop_last().remove(at).push(entries.last()));
    }
}

/// What removing one identity does to the identity sequence: the other
/// identities keep their presence and order, `id` is gone, and the result is
/// still strictly sorted.
proof fn lemma_without_id_facts<C>(entries: Seq<(u64, C)>, id: u64)
    requires
        strictly_sorted(ids_of(entries)),
    ensures
        strictly_sorted(ids_of(without_id(entries, id))),
        !ids_of(without_id(entries, id)).contains(id),
        forall|i: u64|
            i != id ==> (ids_of(without_id(entries, id)).contains(i) <==> ids_of(
                entries,
            ).contains(i)),
        ids_of(without_id(entries, id)).to_set() == ids_of(entries).to_set().remove(id),
    decreases entries.len(),
{
    broadcast use vstd::prelude::Seq::<_>::lemma_push_map_commute;
    broadcast use vstd::prelude::Seq::<_>::lemma_push_to_set_commute;

    let w = without_id(entries, id);
    if entries.len() == 0 {
        assert(ids_of(w) =~= Seq::<u64>::empty());
        assert(ids_of(w).to_set() =~= ids_of(entries).to_set().remove(id));
    } else {
        let rest = entries.drop_last();
        let last = entries.last();
        assert(rest.push(last) =~= entries);
        assert forall|a: int, b: int|
            0 <= a < b < ids_of(rest).len() implies ids_of(rest)[a] < ids_of(rest)[b] by {
            assert(ids_of(rest)[a] == ids_of(entries)[a]);
            assert(ids_of(rest)[b] == ids_of(entries)[b]);
            assert(ids_of(entries)[a] < ids_of(entries)[b]);
        }
        assert(strictly_sorted(ids_of(rest)));
        lemma_without_id_facts(rest, id);
        let wr = without_id(rest, id);
        assert(ids_of(entries) == ids_of(rest).push(last.0));
        if last.0 == id {
            assert(w == wr);
        } else {
            assert(w == wr.push(last));
            assert(ids_of(w) == ids_of(wr).push(last.0));
            assert forall|a: int, b: int| 0 <= a < b < ids_of(w).len() implies ids_of(w)[a]
                < ids_of(w)[b] by {
                if b == ids_of(w).len() - 1 {
                    let v = ids_of(wr)[a];
                    assert(ids_of(w)[a] == v);
                    assert(ids_of(w)[b] == last.0);
                    assert(ids_of(wr).contains(v));
                    assert(v != id);
                    assert(ids_of(rest).contains(v));
                    let j = choose|j: int| 0 <= j < ids_of(rest).len() && ids_of(rest)[j] == v;
                    assert(ids_of(entries)[j] == v);
                    assert(ids_of(entries)[j] < ids_of(entries)[entries.len() - 1]);
                    assert(ids_of(entries)[entries.len() - 1] == last.0);
                } else {
                    assert(ids_of(w)[a] == ids_of(wr)[a]);
                    assert(ids_of(w)[b] == ids_of(wr)[b]);
                    assert(ids_of(wr)[a] < ids_of(wr)[b]);
                }
            }
            assert(strictly_sorted(ids_of(w)));
        }
        assert forall|i: u64| i != id implies (ids_of(w).contains(i) <==> ids_of(
            entries,
        ).contains(i)) by {
            vstd::seq_lib::lemma_seq_contains_after_push(ids_of(rest), last.0, i);
            if last.0 != id {
                vstd::seq_lib::lemma_seq_contains_after_push(ids_of(wr), last.0, i);
            }
        }
        assert(!ids_of(w).contains(id)) by {
            if last.0 != id {
                vstd::seq_lib::lemma_seq_contains_after_push(ids_of(wr), last.0, id);
            }
        }
        assert(ids_of(w).to_set() =~= ids_of(entries).to_set().remove(id));
    }
}

} // verus!
