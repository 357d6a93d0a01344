use std::cell::Cell;
use std::rc::Rc;

use squeak::Callback;
use squeak::Delegate;
use squeak::Observable;
use squeak::Response;

/// Remembers the last value it saw.
struct Recorder {
    seen: Rc<Cell<i32>>,
}

impl Callback<i32> for Recorder {
    fn call(&mut self, _delegate: &mut Delegate<i32, Recorder>, value: &i32) -> Response {
        self.seen.set(*value);
        Response::StaySubscribed
    }
}

/// Counts how often the value was broadcast.
struct Counting {
    count: Rc<Cell<u64>>,
}

impl Callback<i32> for Counting {
    fn call(&mut self, _delegate: &mut Delegate<i32, Counting>, _value: &i32) -> Response {
        self.count.set(self.count.get() + 1);
        Response::StaySubscribed
    }
}

#[test]
fn observable_broadcasts_new_values() {
    let seen = Rc::new(Cell::new(0));
    let mut o = Observable::new(0);
    o.subscribe(Recorder { seen: seen.clone() });
    o.mutate(|_value| 42);
    assert_eq!(seen.get(), 42);
}

#[test]
fn observable_no_longer_notifies_after_unsubscribe() {
    let count = Rc::new(Cell::new(0u64));
    let mut o = Observable::new(0);
    let s = o.subscribe(Counting {
        count: count.clone(),
    });
    o.mutate(|_value| 42);
    o.unsubscribe(s);
    o.mutate(|_value| 43);
    assert_eq!(count.get(), 1);
}

#[test]
fn recorded_value_survives_unsubscribe() {
    let seen = Rc::new(Cell::new(0));
    let mut o = Observable::new(0);
    let s = o.subscribe(Recorder { seen: seen.clone() });
    o.mutate(|_value| 42);
    assert_eq!(seen.get(), 42);
    o.unsubscribe(s);
    o.mutate(|_value| 43);
    assert_eq!(seen.get(), 42);
    assert_eq!(*o.value(), 43);
}

#[test]
fn mutate_broadcasts_even_when_the_mutation_changes_nothing() {
    let count = Rc::new(Cell::new(0u64));
    let mut o = Observable::new(7);
    o.subscribe(Counting {
        count: count.clone(),
    });
    o.mutate(|value| value);
    assert_eq!(count.get(), 1);
    assert_eq!(*o.value(), 7);
}

#[test]
fn mutate_applies_the_mutation_to_the_value() {
    let mut o: Observable<i32, Counting> = Observable::new(100);
    o.mutate(|health| health - 10);
    o.mutate(|health| health - 5);
    o.mutate(|health| health + 25);
    assert_eq!(*o.value(), 110);
}

#[test]
fn default_observable_holds_the_default_value() {
    let o: Observable<i32, Counting> = Observable::default();
    assert_eq!(*o.value(), 0);
    assert_eq!(o.delegate().subscription_count(), 0);
}

#[test]
fn reading_the_value_does_not_broadcast() {
    let count = Rc::new(Cell::new(0u64));
    let mut o = Observable::new(3);
    o.subscribe(Counting {
        count: count.clone(),
    });
    assert_eq!(*o.value(), 3);
    assert_eq!(o.delegate().subscription_count(), 1);
    assert_eq!(count.get(), 0);
    o.mutate(|value| value + 1);
    assert_eq!(count.get(), 1);
}
