//! Callback registries with reentrancy-safe dispatch.
//!
//! A [`Delegate`] owns an ordered collection of subscriptions and broadcasts
//! values to them on demand; an [`Observable`] owns a value and broadcasts it
//! through its own delegate after every mutation.
//!
//! A callback is free to subscribe, unsubscribe, or broadcast again on the
//! same delegate while a broadcast is in progress. Dispatch stays well defined
//! under such reentrancy because every callback is removed from the live
//! collection before it runs and only reinserted after it returns, so a nested
//! broadcast can never reach the callback that triggered it.

mod delegate;
mod history;
mod observable;

pub use delegate::Callback;
pub use delegate::Delegate;
pub use delegate::Response;
pub use delegate::Subscription;
pub use delegate::ids_of;
pub use delegate::lemma_gone_stays_gone;
pub use delegate::lemma_snapshot_valid;
pub use delegate::strictly_sorted;
pub use delegate::without_id;
pub use history::DispatchState;
pub use history::Event;
pub use history::apply_event;
pub use history::event_ok;
pub use history::initial_state;
pub use history::is_invocation_of;
pub use history::invocations;
pub use history::legal;
pub use history::lemma_cancel_runs_exactly_once;
pub use history::lemma_cancelled_retires;
pub use history::lemma_history_grows;
pub use history::lemma_pass;
pub use history::lemma_pass_events_shape;
pub use history::lemma_pass_extend;
pub use history::lemma_prefix_push;
pub use history::lemma_prefix_transitive;
pub use history::lemma_push;
pub use history::lemma_quiet_rounds;
pub use history::lemma_retired_stays_retired;
pub use history::lemma_self_unsubscribe_mid_run;
pub use history::lemma_state_invariants;
pub use history::lemma_subscribed_mid_pass;
pub use history::lemma_unissued_never_invoked;
pub use history::pass_events;
pub use history::pass_shape;
pub use history::quiet_rounds;
pub use history::run_shape;
pub use history::state_of;
pub use history::step_shape;
pub use observable::Observable;
