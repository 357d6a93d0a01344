use std::cell::Cell;
use std::cell::RefCell;
use std::rc::Rc;

use squeak::Callback;
use squeak::Delegate;
use squeak::Response;
use squeak::Subscription;

/// Counts how often it is invoked and stays subscribed.
struct Counting {
    count: Rc<Cell<u64>>,
}

impl Callback<()> for Counting {
    fn call(&mut self, _delegate: &mut Delegate<(), Counting>, _value: &()) -> Response {
        self.count.set(self.count.get() + 1);
        Response::StaySubscribed
    }
}

/// Counts how often it is invoked and cancels itself on the first run.
struct CountThenCancel {
    count: Rc<Cell<u64>>,
}

impl Callback<()> for CountThenCancel {
    fn call(&mut self, _delegate: &mut Delegate<(), CountThenCancel>, _value: &()) -> Response {
        self.count.set(self.count.get() + 1);
        Response::CancelSubscription
    }
}

#[test]
fn delegate_executes_callbacks() {
    let count = Rc::new(Cell::new(0u64));
    let mut d = Delegate::new();
    d.subscribe(Counting { count: count.clone() });
    d.notify();
    d.notify();
    d.notify();
    assert_eq!(count.get(), 3);
}

#[test]
fn delegate_does_not_execute_unsubscribed_callbacks() {
    let count = Rc::new(Cell::new(0u64));
    let mut d = Delegate::new();
    let subscription = d.subscribe(Counting { count: count.clone() });
    d.unsubscribe(subscription);
    d.notify();
    assert_eq!(count.get(), 0);
}

#[test]
fn cannot_unsubscribe_using_subscription_from_a_different_delegate() {
    let count = Rc::new(Cell::new(0u64));
    let mut d1: Delegate<(), Counting> = Delegate::new();
    let mut d2: Delegate<(), Counting> = Delegate::new();
    let _s1 = d1.subscribe(Counting { count: count.clone() });
    let s2 = d2.subscribe(Counting {
        count: Rc::new(Cell::new(0u64)),
    });
    d1.unsubscribe(s2);
    d1.notify();
    assert_eq!(count.get(), 1);
}

#[test]
fn can_unsubscribe_using_response_value() {
    let count = Rc::new(Cell::new(0u64));
    let mut d = Delegate::new();
    d.subscribe(CountThenCancel { count: count.clone() });
    d.notify();
    d.notify();
    assert_eq!(count.get(), 1);
}

/// An outer callback that subscribes an inner one while running, both
/// cancelling themselves after their first run.
enum Chain {
    Outer {
        outer_count: Rc<Cell<u64>>,
        inner_count: Rc<Cell<u64>>,
    },
    Inner {
        inner_count: Rc<Cell<u64>>,
    },
}

impl Callback<()> for Chain {
    fn call(&mut self, delegate: &mut Delegate<(), Chain>, _value: &()) -> Response {
        match self {
            Chain::Outer {
                outer_count,
                inner_count,
            } => {
                outer_count.set(outer_count.get() + 1);
                delegate.subscribe(Chain::Inner {
                    inner_count: inner_count.clone(),
                });
                Response::CancelSubscription
            }
            Chain::Inner { inner_count } => {
                inner_count.set(inner_count.get() + 1);
                Response::CancelSubscription
            }
        }
    }
}

#[test]
fn can_subscribe_during_callback() {
    let outer_count = Rc::new(Cell::new(0u64));
    let inner_count = Rc::new(Cell::new(0u64));
    let mut d = Delegate::new();
    d.subscribe(Chain::Outer {
        outer_count: outer_count.clone(),
        inner_count: inner_count.clone(),
    });
    d.notify();
    d.notify();
    assert_eq!(outer_count.get(), 1);
    assert_eq!(inner_count.get(), 1);
}

/// Counts its runs, unsubscribes its own subscription from inside the first
/// one, and still asks to stay subscribed.
struct SelfUnsubscriber {
    count: Rc<Cell<u64>>,
    token: Rc<RefCell<Option<Subscription>>>,
}

impl Callback<()> for SelfUnsubscriber {
    fn call(&mut self, delegate: &mut Delegate<(), SelfUnsubscriber>, _value: &()) -> Response {
        self.count.set(self.count.get() + 1);
        if let Some(token) = self.token.borrow_mut().take() {
            delegate.unsubscribe(token);
        }
        Response::StaySubscribed
    }
}

#[test]
fn unsubscribing_within_callback_is_noop() {
    let count = Rc::new(Cell::new(0u64));
    let token = Rc::new(RefCell::new(None));
    let mut d = Delegate::new();
    let subscription = d.subscribe(SelfUnsubscriber {
        count: count.clone(),
        token: token.clone(),
    });
    token.replace(Some(subscription));
    d.notify();
    d.notify();
    assert_eq!(count.get(), 2);
}

/// Appends its label to a shared log on every run.
struct Labelled {
    label: u64,
    log: Rc<RefCell<Vec<u64>>>,
}

impl Callback<()> for Labelled {
    fn call(&mut self, _delegate: &mut Delegate<(), Labelled>, _value: &()) -> Response {
        self.log.borrow_mut().push(self.label);
        Response::StaySubscribed
    }
}

#[test]
fn broadcast_runs_callbacks_in_registration_order() {
    let log = Rc::new(RefCell::new(Vec::new()));
    let mut d = Delegate::new();
    d.subscribe(Labelled {
        label: 10,
        log: log.clone(),
    });
    d.subscribe(Labelled {
        label: 20,
        log: log.clone(),
    });
    d.subscribe(Labelled {
        label: 30,
        log: log.clone(),
    });
    d.notify();
    d.notify();
    assert_eq!(*log.borrow(), vec![10, 20, 30, 10, 20, 30]);
}

/// Remembers the last value it was handed.
struct LastSeen {
    seen: Rc<Cell<u64>>,
    count: Rc<Cell<u64>>,
}

impl Callback<u64> for LastSeen {
    fn call(&mut self, _delegate: &mut Delegate<u64, LastSeen>, value: &u64) -> Response {
        self.seen.set(*value);
        self.count.set(self.count.get() + 1);
        Response::StaySubscribed
    }
}

#[test]
fn broadcast_hands_each_callback_the_value() {
    let seen = Rc::new(Cell::new(0u64));
    let count = Rc::new(Cell::new(0u64));
    let mut d = Delegate::new();
    d.subscribe(LastSeen {
        seen: seen.clone(),
        count: count.clone(),
    });
    d.broadcast(&16);
    d.broadcast(&28);
    assert_eq!(seen.get(), 28);
    assert_eq!(count.get(), 2);
}

/// On its first run, triggers a nested broadcast on the same delegate.
struct NestedBroadcaster {
    count: Rc<Cell<u64>>,
}

impl Callback<()> for NestedBroadcaster {
    fn call(&mut self, delegate: &mut Delegate<(), NestedBroadcaster>, _value: &()) -> Response {
        self.count.set(self.count.get() + 1);
        if self.count.get() == 1 {
            delegate.notify();
        }
        Response::StaySubscribed
    }
}

#[test]
fn nested_broadcast_cannot_reenter_the_running_callback() {
    let count = Rc::new(Cell::new(0u64));
    let mut d = Delegate::new();
    d.subscribe(NestedBroadcaster {
        count: count.clone(),
    });
    // The nested broadcast sees an empty snapshot: the one callback is
    // removed from the collection while it runs.
    d.notify();
    assert_eq!(count.get(), 1);
    d.notify();
    assert_eq!(count.get(), 2);
}

/// Unsubscribes another subscription, handed to it as a token, then stays.
struct Dropper {
    victim: Rc<RefCell<Option<Subscription>>>,
}

/// Either unsubscribes a victim or counts, so one delegate can hold both.
enum DropperOrCounter {
    Dropper(Dropper),
    Counter(Counting),
}

impl Callback<()> for DropperOrCounter {
    fn call(&mut self, delegate: &mut Delegate<(), DropperOrCounter>, value: &()) -> Response {
        match self {
            DropperOrCounter::Dropper(d) => {
                if let Some(token) = d.victim.borrow_mut().take() {
                    delegate.unsubscribe(token);
                }
                Response::StaySubscribed
            }
            DropperOrCounter::Counter(c) => {
                let _ = value;
                c.count.set(c.count.get() + 1);
                Response::StaySubscribed
            }
        }
    }
}

#[test]
fn callback_unsubscribing_a_later_subscription_suppresses_it_in_the_same_pass() {
    let count = Rc::new(Cell::new(0u64));
    let victim = Rc::new(RefCell::new(None));
    let mut d = Delegate::new();
    d.subscribe(DropperOrCounter::Dropper(Dropper {
        victim: victim.clone(),
    }));
    let s = d.subscribe(DropperOrCounter::Counter(Counting {
        count: count.clone(),
    }));
    victim.replace(Some(s));
    d.notify();
    assert_eq!(count.get(), 0);
    assert_eq!(d.subscription_count(), 1);
}

#[test]
fn unsubscribing_twice_has_no_further_effect() {
    let count = Rc::new(Cell::new(0u64));
    let mut d = Delegate::new();
    let s = d.subscribe(Counting {
        count: count.clone(),
    });
    let s_copy = s;
    d.unsubscribe(s);
    d.unsubscribe(s_copy);
    d.notify();
    assert_eq!(count.get(), 0);
    assert_eq!(d.subscription_count(), 0);
}

#[test]
fn subscription_count_follows_subscribe_and_unsubscribe() {
    let mut d: Delegate<(), Counting> = Delegate::new();
    assert_eq!(d.subscription_count(), 0);
    let s1 = d.subscribe(Counting {
        count: Rc::new(Cell::new(0u64)),
    });
    let _s2 = d.subscribe(Counting {
        count: Rc::new(Cell::new(0u64)),
    });
    assert_eq!(d.subscription_count(), 2);
    d.unsubscribe(s1);
    assert_eq!(d.subscription_count(), 1);
}
