//! Store commands, and the decisions of the publish pipeline: what to do
//! with each command, and what follows each outcome of the signer and the
//! store. The caller performs each step and reports its outcome.
use vstd::prelude::*;
use crate::kind::{is_coalesced_kind, spec_is_coalesced};
use crate::types::{EventId, Scope, SignedEvent, UnsignedEvent};

verus! {

/// How the caller of a signed save wants its answer: through a one-shot
/// completion `O`, or as a protocol `OK` through an outbound sender `M`.
#[derive(Debug)]
pub enum ResponseHandler<O, M> {
    Oneshot(O),
    MessageSender(M),
}

/// One mutation request against the store. `U` completes a save of an
/// unsigned event, `H` answers a signed save, `D` completes a delete, and
/// `F` is the filter type.
#[derive(Debug)]
pub enum StoreCommand<F, U, H, D> {
    SaveUnsignedEvent(UnsignedEvent, Scope, Option<U>),
    SaveSignedEvent(Box<SignedEvent>, Scope, Option<H>),
    DeleteEvents(F, Scope, Option<D>),
}

/// Why a command could not be changed.
#[derive(Clone, Copy, Debug, PartialEq, Eq)]
pub enum CommandError {
    /// Only a signed save can answer through an outbound sender.
    NotASignedSave,
}

/// The scope that a command acts in.
pub open spec fn command_scope<F, U, H, D>(c: StoreCommand<F, U, H, D>) -> Scope {
    match c {
        StoreCommand::SaveUnsignedEvent(_, s, _) => s,
        StoreCommand::SaveSignedEvent(_, s, _) => s,
        StoreCommand::DeleteEvents(_, s, _) => s,
    }
}

impl<F, U, H, D> StoreCommand<F, U, H, D> {
    /// The scope that this command acts in.
    pub fn subdomain_scope(&self) -> (r: &Scope)
        ensures
            *r == command_scope(*self),
    {
        match self {
            StoreCommand::SaveSignedEvent(_, scope, _) => scope,
            StoreCommand::SaveUnsignedEvent(_, scope, _) => scope,
            StoreCommand::DeleteEvents(_, scope, _) => scope,
        }
    }

    /// Whether this command saves a replaceable or addressable event.
    pub fn is_replaceable(&self) -> (r: bool)
        ensures
            r == match *self {
                StoreCommand::SaveUnsignedEvent(e, _, _) => spec_is_coalesced(e.kind),
                StoreCommand::SaveSignedEvent(e, _, _) => spec_is_coalesced(e.kind),
                StoreCommand::DeleteEvents(_, _, _) => false,
            },
    {
        match self {
            StoreCommand::SaveUnsignedEvent(event, _, _) => is_coalesced_kind(event.kind),
            StoreCommand::SaveSignedEvent(event, _, _) => is_coalesced_kind(event.kind),
            StoreCommand::DeleteEvents(_, _, _) => false,
        }
    }
}

impl<F, U, O, M, D> StoreCommand<F, U, ResponseHandler<O, M>, D> {
    /// Makes a signed save answer through `message_sender`, replacing any
    /// earlier handler; any other command is refused and left as it was.
    pub fn set_message_sender(&mut self, message_sender: M) -> (r: Result<(), CommandError>)
        ensures
            match *old(self) {
                StoreCommand::SaveSignedEvent(e, s, _) => r is Ok && *final(self) == StoreCommand::<
                    F,
                    U,
                    ResponseHandler<O, M>,
                    D,
                >::SaveSignedEvent(e, s, Some(ResponseHandler::MessageSender(message_sender))),
                _ => r == Err::<(), CommandError>(CommandError::NotASignedSave) && *final(self) == *old(self),
            },
    {
        match self {
            StoreCommand::SaveSignedEvent(_, _, handler) => {
                *handler = Some(ResponseHandler::MessageSender(message_sender));
                Ok(())
            },
            _ => Err(CommandError::NotASignedSave),
        }
    }
}

/// The first step of publishing a command.
#[derive(Clone, Copy, Debug, PartialEq, Eq)]
pub enum PublishStep {
    /// Queue the unsigned event on the connection's replaceable buffer,
    /// then complete the caller with "accepted for batching".
    EnqueueReplaceable,
    /// Hand the unsigned event to the signer and await it.
    Sign,
    /// Save the signed event in the store.
    Save,
    /// Delete what the filter matches from the store.
    Delete,
}

/// The first step for a command.
pub fn first_step<F, U, H, D>(command: &StoreCommand<F, U, H, D>) -> (r: PublishStep)
    ensures
        r == match *command {
            StoreCommand::SaveUnsignedEvent(e, _, _) => if spec_is_coalesced(e.kind) {
                PublishStep::EnqueueReplaceable
            } else {
                PublishStep::Sign
            },
            StoreCommand::SaveSignedEvent(_, _, _) => PublishStep::Save,
            StoreCommand::DeleteEvents(_, _, _) => PublishStep::Delete,
        },
{
    match command {
        StoreCommand::SaveUnsignedEvent(event, _, _) => {
            if is_coalesced_kind(event.kind) {
                PublishStep::EnqueueReplaceable
            } else {
                PublishStep::Sign
            }
        },
        StoreCommand::SaveSignedEvent(_, _, _) => PublishStep::Save,
        StoreCommand::DeleteEvents(_, _, _) => PublishStep::Delete,
    }
}

/// What the signer handed back for one unsigned event.
#[derive(Clone, Debug, PartialEq, Eq)]
pub enum SignOutcome {
    /// The signed event came back.
    Signed,
    /// The signer reported success but returned no event.
    SignedNotReturned,
    /// The signer reported an error.
    Failed(String),
    /// The signer dropped the reply channel.
    Dropped,
}

/// Internal failures of the publish pipeline.
#[derive(Clone, Debug, PartialEq, Eq)]
pub enum PublishError {
    /// The replaceable buffer's queue is closed.
    QueueClosed,
    /// The signer did not take the event.
    SignerUnavailable(String),
    /// The signer reported an error.
    SignerFailed(String),
    /// The signer reported success but returned no event.
    SignedNotReturned,
    /// The signer dropped the reply channel.
    SignerDropped,
    /// The store refused the save or the delete.
    StoreFailed(String),
}

/// Whether publishing goes on to save after the signer's outcome: only a
/// returned signed event is saved; every other outcome is an internal
/// failure.
pub fn after_signing(outcome: SignOutcome) -> (r: Result<(), PublishError>)
    ensures
        match outcome {
            SignOutcome::Signed => r is Ok,
            SignOutcome::SignedNotReturned => r == Err::<(), PublishError>(PublishError::SignedNotReturned),
            SignOutcome::Failed(e) => r == Err::<(), PublishError>(PublishError::SignerFailed(e)),
            SignOutcome::Dropped => r == Err::<(), PublishError>(PublishError::SignerDropped),
        },
{
    match outcome {
        SignOutcome::Signed => Ok(()),
        SignOutcome::SignedNotReturned => Err(PublishError::SignedNotReturned),
        SignOutcome::Failed(e) => Err(PublishError::SignerFailed(e)),
        SignOutcome::Dropped => Err(PublishError::SignerDropped),
    }
}

/// A protocol `OK` answer.
#[derive(Clone, Debug, PartialEq, Eq)]
pub struct OkReply {
    pub event_id: EventId,
    pub accepted: bool,
    pub reason: String,
}

/// What to do once the store has answered a signed save.
#[derive(Debug)]
pub struct SavedActions {
    /// The `OK` to send, when the caller answers through a sender.
    pub ok_reply: Option<OkReply>,
    /// The outcome for a one-shot completion, when the caller gave one.
    pub complete_oneshot: Option<bool>,
    /// Whether to fan the event out to live subscribers.
    pub distribute: bool,
    /// What the publish returns.
    pub result: Result<(), PublishError>,
}

/// Which kind of answer a signed save asked for.
#[derive(Clone, Copy, Debug, PartialEq, Eq)]
pub enum HandlerKind {
    NoHandler,
    Oneshot,
    MessageSender,
}

/// The kind of answer that an optional handler asks for.
pub fn handler_kind<O, M>(handler: &Option<ResponseHandler<O, M>>) -> (r: HandlerKind)
    ensures
        r == match *handler {
            None => HandlerKind::NoHandler,
            Some(ResponseHandler::Oneshot(_)) => HandlerKind::Oneshot,
            Some(ResponseHandler::MessageSender(_)) => HandlerKind::MessageSender,
        },
{
    match handler {
        None => HandlerKind::NoHandler,
        Some(ResponseHandler::Oneshot(_)) => HandlerKind::Oneshot,
        Some(ResponseHandler::MessageSender(_)) => HandlerKind::MessageSender,
    }
}

/// What follows the store's answer to a signed save: exactly one `OK` when
/// the caller answers through a sender, empty on success and carrying the
/// store's error otherwise; the outcome for a one-shot completion; fan-out
/// only after a successful save.
pub fn after_saving(handler: HandlerKind, event_id: &EventId, store_error: Option<String>) -> (r: SavedActions)
    ensures
        r.ok_reply is Some <==> handler == HandlerKind::MessageSender,
        r.ok_reply matches Some(reply) ==> reply.event_id@ == event_id@
            && reply.accepted == (store_error is None)
            && reply.reason@ == match store_error {
                Some(e) => e@,
                None => Seq::<char>::empty(),
            },
        r.complete_oneshot == if handler == HandlerKind::Oneshot { Some(store_error is None) } else { None },
        r.distribute == (store_error is None),
        match store_error {
            Some(e) => r.result == Err::<(), PublishError>(PublishError::StoreFailed(e)),
            None => r.result is Ok,
        },
{
    let ok_reply = if matches!(handler, HandlerKind::MessageSender) {
        match &store_error {
            Some(e) => Some(OkReply { event_id: event_id.duplicate(), accepted: false, reason: e.clone() }),
            None => Some(OkReply { event_id: event_id.duplicate(), accepted: true, reason: String::new() }),
        }
    } else {
        None
    };
    let complete_oneshot = if matches!(handler, HandlerKind::Oneshot) {
        Some(store_error.is_none())
    } else {
        None
    };
    let distribute = store_error.is_none();
    let result = match store_error {
        Some(e) => Err(PublishError::StoreFailed(e)),
        None => Ok(()),
    };
    SavedActions { ok_reply, complete_oneshot, distribute, result }
}

} // verus!
