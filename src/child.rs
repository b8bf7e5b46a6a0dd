//! A child: one running user future under a children group.
use crate::message::{BastionId, BastionMessage, Envelope, PathElement};
use vstd::prelude::*;

verus! {

/// The notification that child `id` sends its group when its user future
/// ends. `outcome` is `Some` of what the future returned, or `None` when it
/// panicked and the recoverable handle caught the panic: `Stopped` after
/// `Ok(())`, `Faulted` after `Err(())` or a panic.
pub fn outcome_envelope<M>(id: BastionId, outcome: Option<Result<(), ()>>) -> (r: Envelope<M>)
    ensures
        r.sender == PathElement::Child(id),
        (outcome matches Some(Ok(_))) ==> r.msg == (BastionMessage::<M>::Stopped { id }),
        !(outcome matches Some(Ok(_))) ==> r.msg == (BastionMessage::<M>::Faulted { id }),
{
    let msg = match outcome {
        Some(Ok(_)) => BastionMessage::Stopped { id },
        Some(Err(_)) => BastionMessage::Faulted { id },
        None => BastionMessage::Faulted { id },
    };
    Envelope::new(msg, PathElement::Child(id))
}

} // verus!
