//! The event channel: the engine hands trade/placement events to a logger
//! over a bounded crossbeam channel. Emission is non-blocking; a full or
//! disconnected channel degrades observability only and never stalls or
//! fails matching.

use vstd::prelude::*;

use crate::order::LogEvent;

verus! {

#[verifier::external_type_specification]
#[verifier::external_body]
#[verifier::reject_recursive_types(T)]
pub struct ExSender<T>(crossbeam_channel::Sender<T>);

/// Relies on `crossbeam_channel::Sender::try_send`: sends the event without
/// blocking, and reports whether it was accepted; it fails exactly when the
/// channel is full or disconnected, which depends on the receiver's side,
/// so nothing is promised of the outcome.
#[verifier::external_body]
pub(crate) fn try_send_event(sender: &crossbeam_channel::Sender<LogEvent>, event: LogEvent) -> (ok:
    bool) {
    sender.try_send(event).is_ok()
}

} // verus!
