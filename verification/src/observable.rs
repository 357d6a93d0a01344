//! A value container that broadcasts its state after every mutation.

use vstd::prelude::*;

use crate::delegate::Callback;
use crate::delegate::Delegate;
use crate::delegate::Subscription;
use crate::delegate::without_id;
use crate::history::Event;
use crate::history::invocations;
use crate::history::pass_shape;

verus! {

/// Owns a value and a [`Delegate`], and hands the value to every subscriber
/// after each call to [`Observable::mutate`] — unconditionally, whether or
/// not the mutation changed anything: no equality check is attempted, since
/// the value's type need not support one.
pub struct Observable<T, C> {
    value: Option<T>,
    delegate: Delegate<T, C>,
}

impl<T, C> Observable<T, C> {
    /// The value this observable holds.
    pub closed spec fn value_spec(&self) -> T {
        self.value->Some_0
    }

    /// The delegate this observable broadcasts through.
    pub closed spec fn delegate_spec(&self) -> Delegate<T, C> {
        self.delegate
    }

    /// Well-formedness: the owned delegate is well formed and a value is
    /// present.
    pub open spec fn wf(&self) -> bool {
        &&& self.inv()
        &&& self.delegate_spec().wf()
    }

    /// The structural invariant: the value slot is filled for the whole of
    /// the observable's life.
    pub closed spec fn inv(&self) -> bool {
        self.value is Some
    }

    /// Creates an observable holding `value`, with no subscribers yet.
    pub fn new(value: T) -> (o: Self)
        ensures
            o.wf(),
            o.value_spec() == value,
            o.delegate_spec().history() == Seq::<Event<T>>::empty(),
            o.delegate_spec().next_id() == 0,
            o.delegate_spec().entries_seq() == Seq::<(u64, C)>::empty(),
    {
        Observable { value: Some(value), delegate: Delegate::new() }
    }

    /// A read-only view of the current value; no broadcast happens.
    pub fn value(&self) -> (v: &T)
        requires
            self.wf(),
        ensures
            *v == self.value_spec(),
    {
        match &self.value {
            Some(v) => v,
            None => unreached(),
        }
    }

    /// A read-only view of the owned delegate, so a containing structure can
    /// expose how many subscriptions are live without exposing mutation.
    pub fn delegate(&self) -> (d: &Delegate<T, C>)
        ensures
            *d == self.delegate_spec(),
    {
        &self.delegate
    }

    /// Registers a callback to be invoked after every later mutation.
    /// Mirrors [`Delegate::subscribe`] on the owned delegate.
    pub fn subscribe(&mut self, callback: C) -> (s: Subscription)
        requires
            old(self).wf(),
            old(self).delegate_spec().next_id() < u64::MAX,
        ensures
            final(self).wf(),
            final(self).value_spec() == old(self).value_spec(),
            s.tag() == old(self).delegate_spec().tag(),
            s.id() == old(self).delegate_spec().next_id(),
            !old(self).delegate_spec().ids().contains(s.id()),
            final(self).delegate_spec().tag() == old(self).delegate_spec().tag(),
            final(self).delegate_spec().next_id() == old(self).delegate_spec().next_id() + 1,
            final(self).delegate_spec().entries_seq() == old(self).delegate_spec().entries_seq().push((s.id(), callback)),
            final(self).delegate_spec().history() == old(self).delegate_spec().history().push(
                Event::Subscribed(s.id()),
            ),
            final(self).delegate_spec().running() == old(self).delegate_spec().running(),
    {
        self.delegate.subscribe(callback)
    }

    /// Cancels a subscription, with the same no-op tolerance as
    /// [`Delegate::unsubscribe`]: foreign and stale tokens do nothing.
    pub fn unsubscribe(&mut self, subscription: Subscription)
        requires
            old(self).wf(),
        ensures
            final(self).wf(),
            final(self).value_spec() == old(self).value_spec(),
            final(self).delegate_spec().tag() == old(self).delegate_spec().tag(),
            final(self).delegate_spec().next_id() == old(self).delegate_spec().next_id(),
            final(self).delegate_spec().running() == old(self).delegate_spec().running(),
            subscription.tag() == old(self).delegate_spec().tag() ==> final(self).delegate_spec().entries_seq() == without_id(
                old(self).delegate_spec().entries_seq(),
                subscription.id(),
            ),
            subscription.tag() == old(self).delegate_spec().tag() ==> final(self).delegate_spec().history() == old(self).delegate_spec().history().push(
                Event::Unsubscribed(subscription.id()),
            ),
            subscription.tag() != old(self).delegate_spec().tag() ==> final(self).delegate_spec() == old(self).delegate_spec(),
            subscription.tag() == old(self).delegate_spec().tag() ==> !final(self).delegate_spec().ids().contains(subscription.id()),
            forall|i: u64|
                i != subscription.id() ==> (final(self).delegate_spec().ids().contains(i)
                    <==> old(self).delegate_spec().ids().contains(i)),
    {
        self.delegate.unsubscribe(subscription)
    }
}

impl<T: Default, C> Default for Observable<T, C> {
    /// An observable holding `T`'s default value, with no subscribers. What
    /// that value is depends on `T`'s own `Default`, of which nothing is
    /// known here.
    fn default() -> (o: Self)
        ensures
            o.wf(),
            o.delegate_spec().history() == Seq::<Event<T>>::empty(),
            o.delegate_spec().next_id() == 0,
            o.delegate_spec().entries_seq() == Seq::<(u64, C)>::empty(),
    {
        Observable::new(T::default())
    }
}

impl<T, C: Callback<T>> Observable<T, C> {
    /// Applies `mutation` to the owned value, then unconditionally broadcasts
    /// the post-mutation value through the owned delegate: exactly one
    /// broadcast pass starts per call, even when the mutation changed
    /// nothing.
    pub fn mutate<F: FnOnce(T) -> T>(&mut self, mutation: F)
        requires
            old(self).wf(),
            call_requires(mutation, (old(self).value_spec(),)),
        ensures
            final(self).wf(),
            call_ensures(mutation, (old(self).value_spec(),), final(self).value_spec()),
            final(self).delegate_spec().tag() == old(self).delegate_spec().tag(),
            old(self).delegate_spec().next_id() <= final(self).delegate_spec().next_id(),
            old(self).delegate_spec().history().is_prefix_of(
                final(self).delegate_spec().history(),
            ),
            final(self).delegate_spec().history().len() > old(self).delegate_spec().history().len(),
            final(self).delegate_spec().history()[old(self).delegate_spec().history().len() as int] == Event::BroadcastStarted(
                final(self).value_spec(),
            ),
            final(self).delegate_spec().running() == old(self).delegate_spec().running(),
            forall|i: u64|
                invocations(old(self).delegate_spec().history(), i) <= #[trigger] invocations(
                    final(self).delegate_spec().history(),
                    i,
                ),
            forall|i: u64|
                ((i as int) < old(self).delegate_spec().next_id() && !old(self).delegate_spec().ids().contains(i) && !old(self).delegate_spec().running().contains(i)) ==> #[trigger] invocations(
                    final(self).delegate_spec().history(),
                    i,
                ) == invocations(old(self).delegate_spec().history(), i),
            forall|i: u64|
                ((i as int) < old(self).delegate_spec().next_id() && !old(self).delegate_spec().ids().contains(i) && !old(self).delegate_spec().running().contains(i)) ==> !(#[trigger] final(self).delegate_spec().ids().contains(i)),
            old(self).delegate_spec().ids().len() > 0 ==> invocations(
                final(self).delegate_spec().history(),
                old(self).delegate_spec().ids()[0],
            ) >= invocations(
                old(self).delegate_spec().history(),
                old(self).delegate_spec().ids()[0],
            ) + 1,
            pass_shape(
                old(self).delegate_spec().history().push(
                    Event::BroadcastStarted(final(self).value_spec()),
                ),
                final(self).delegate_spec().history(),
                old(self).delegate_spec().ids(),
                final(self).value_spec(),
            ),
    {
        let taken = self.value.take();
        let current = match taken {
            Some(v) => v,
            None => unreached(),
        };
        let next = mutation(current);
        self.value = Some(next);
        match &self.value {
            Some(v) => self.delegate.broadcast(v),
            None => unreached(),
        }
    }
}

} // verus!
