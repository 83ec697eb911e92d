//! The one-shot reply channel, as far as the library needs to know it.
//!
//! The channel comes from the `oneshot` crate. Nothing of its inside is
//! visible to the proofs: a sender is stored, handed on, and fired once.
//! Everything in this file is taken on trust.

use vstd::prelude::*;

verus! {

/// The sending half of a one-shot channel, `oneshot::Sender`.
#[verifier::external_type_specification]
#[verifier::external_body]
#[verifier::reject_recursive_types(T)]
pub struct ExSender<T>(oneshot::Sender<T>);

/// What `oneshot::Sender::send` returns when the receiving half is gone,
/// `oneshot::SendError`. The library only ever drops it.
#[verifier::external_type_specification]
#[verifier::external_body]
#[verifier::reject_recursive_types(T)]
pub struct ExSendError<T>(oneshot::SendError<T>);

/// `oneshot::Sender::send` consumes the channel and the message. Whether the
/// message arrives depends on the receiving half, which another thread may
/// have dropped at any moment, so nothing is claimed of the result.
pub assume_specification<T>[ oneshot::Sender::<T>::send ](
    channel: oneshot::Sender<T>,
    message: T,
) -> (res: Result<(), oneshot::SendError<T>>)
;

} // verus!
