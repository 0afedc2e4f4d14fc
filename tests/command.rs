use relay_core::command::{
    after_saving, after_signing, first_step, handler_kind, CommandError, HandlerKind, PublishError, PublishStep,
    ResponseHandler, SignOutcome, StoreCommand,
};
use relay_core::types::{EventId, PublicKey, Scope, SignedEvent, UnsignedEvent};

type Command = StoreCommand<u8, (), ResponseHandler<(), String>, ()>;

fn unsigned(kind: u16) -> UnsignedEvent {
    UnsignedEvent { pubkey: PublicKey::new("aa".into()), created_at: 1, kind, tags: vec![], content: String::new() }
}

fn signed(kind: u16) -> SignedEvent {
    SignedEvent {
        id: EventId::new("ee".into()),
        pubkey: PublicKey::new("aa".into()),
        created_at: 1,
        kind,
        tags: vec![],
        content: String::new(),
        sig: String::new(),
    }
}

#[test]
fn commands_report_scope_and_replaceability() {
    let c: Command = StoreCommand::SaveUnsignedEvent(unsigned(0), Scope::named("t".into()), None);
    assert_eq!(c.subdomain_scope(), &Scope::Named("t".into()));
    assert!(c.is_replaceable());
    assert_eq!(first_step(&c), PublishStep::EnqueueReplaceable);

    let c: Command = StoreCommand::SaveUnsignedEvent(unsigned(1), Scope::Default, None);
    assert!(!c.is_replaceable());
    assert_eq!(first_step(&c), PublishStep::Sign);

    let c: Command = StoreCommand::SaveSignedEvent(Box::new(signed(30_001)), Scope::Default, None);
    assert!(c.is_replaceable());
    assert_eq!(first_step(&c), PublishStep::Save);

    let c: Command = StoreCommand::DeleteEvents(9, Scope::Default, None);
    assert!(!c.is_replaceable());
    assert_eq!(c.subdomain_scope(), &Scope::Default);
    assert_eq!(first_step(&c), PublishStep::Delete);
}

#[test]
fn only_signed_saves_take_a_message_sender() {
    let mut c: Command = StoreCommand::SaveSignedEvent(Box::new(signed(1)), Scope::Default, None);
    assert_eq!(c.set_message_sender("out".to_string()), Ok(()));
    match &c {
        StoreCommand::SaveSignedEvent(_, _, Some(ResponseHandler::MessageSender(s))) => assert_eq!(s, "out"),
        _ => panic!("handler not set"),
    }
    let mut d: Command = StoreCommand::DeleteEvents(1, Scope::Default, None);
    assert_eq!(d.set_message_sender("out".to_string()), Err(CommandError::NotASignedSave));
}

#[test]
fn signer_outcomes() {
    assert_eq!(after_signing(SignOutcome::Signed), Ok(()));
    assert_eq!(after_signing(SignOutcome::SignedNotReturned), Err(PublishError::SignedNotReturned));
    assert_eq!(after_signing(SignOutcome::Failed("x".into())), Err(PublishError::SignerFailed("x".into())));
    assert_eq!(after_signing(SignOutcome::Dropped), Err(PublishError::SignerDropped));
}

#[test]
fn exactly_one_ok_per_signed_save() {
    let id = EventId::new("ee".into());
    let a = after_saving(HandlerKind::MessageSender, &id, None);
    let reply = a.ok_reply.unwrap();
    assert!(reply.accepted);
    assert_eq!(reply.reason, "");
    assert_eq!(reply.event_id, id);
    assert!(a.distribute);
    assert_eq!(a.complete_oneshot, None);
    assert_eq!(a.result, Ok(()));

    let a = after_saving(HandlerKind::MessageSender, &id, Some("disk full".into()));
    let reply = a.ok_reply.unwrap();
    assert!(!reply.accepted);
    assert_eq!(reply.reason, "disk full");
    assert!(!a.distribute);
    assert_eq!(a.result, Err(PublishError::StoreFailed("disk full".into())));

    let a = after_saving(HandlerKind::Oneshot, &id, Some("e".into()));
    assert!(a.ok_reply.is_none());
    assert_eq!(a.complete_oneshot, Some(false));

    let a = after_saving(HandlerKind::NoHandler, &id, None);
    assert!(a.ok_reply.is_none());
    assert_eq!(a.complete_oneshot, None);
    assert!(a.distribute);
}

#[test]
fn handler_kinds() {
    let none: Option<ResponseHandler<(), String>> = None;
    assert_eq!(handler_kind(&none), HandlerKind::NoHandler);
    assert_eq!(handler_kind(&Some(ResponseHandler::<(), String>::Oneshot(()))), HandlerKind::Oneshot);
    assert_eq!(handler_kind(&Some(ResponseHandler::<(), String>::MessageSender("s".into()))), HandlerKind::MessageSender);
}
