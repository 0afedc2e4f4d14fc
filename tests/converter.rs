use nostr::event::{EventId, Kind};
use nostr::message::{ClientMessage, RelayMessage};
use nostr::prelude::SubscriptionId as NostrSubscriptionId;
use relay_core::converter::{inbound_outcome, ConvertError, NostrMessageConverter};

const EVENT_ID: &str = "aaaaaaaaaaaaaaaaaaaaaaaaaaaaaaaaaaaaaaaaaaaaaaaaaaaaaaaaaaaaaaaa";
const PUBKEY: &str = "79be667ef9dcbbac55a06295ce870b07029bfcdb2dce28d959f2815b16f81798";
const SIG: &str = "bbbbbbbbbbbbbbbbbbbbbbbbbbbbbbbbbbbbbbbbbbbbbbbbbbbbbbbbbbbbbbbbbbbbbbbbbbbbbbbbbbbbbbbbbbbbbbbbbbbbbbbbbbbbbbbbbbbbbbbbbbbbbbbb";

fn event_json(kind: u16, content: &str, tags: &str) -> String {
    format!(
        r#"{{"id":"{EVENT_ID}","pubkey":"{PUBKEY}","created_at":1700000000,"kind":{kind},"tags":{tags},"content":"{content}","sig":"{SIG}"}}"#
    )
}

#[test]
fn test_inbound_from_bytes_valid_messages() {
    let converter = NostrMessageConverter;

    let event_json = format!(r#"["EVENT", {}]"#, event_json(1, "Test", "[]"));
    let result = converter.inbound_from_bytes(event_json.as_bytes()).unwrap();
    assert!(result.is_some());
    if let Some(ClientMessage::Event(parsed_event)) = result {
        assert_eq!(parsed_event.id, EventId::from_hex(EVENT_ID).unwrap());
    } else {
        panic!("Expected EVENT message");
    }

    let req_json = r#"["REQ", "sub1", {"kinds": [1], "limit": 10}]"#;
    let result = converter.inbound_from_bytes(req_json.as_bytes()).unwrap();
    assert!(result.is_some());
    if let Some(ClientMessage::Req { subscription_id, filters }) = result {
        assert_eq!(subscription_id.as_str(), "sub1");
        let filter = &filters[0];
        assert!(filter.kinds.as_ref().unwrap().contains(&Kind::TextNote));
        assert_eq!(filter.limit, Some(10));
    } else {
        panic!("Expected REQ message");
    }

    let close_json = r#"["CLOSE", "sub1"]"#;
    let result = converter.inbound_from_bytes(close_json.as_bytes()).unwrap();
    assert!(result.is_some());
    if let Some(ClientMessage::Close(sub_id)) = result {
        assert_eq!(sub_id.as_str(), "sub1");
    } else {
        panic!("Expected CLOSE message");
    }
}

#[test]
fn test_inbound_from_bytes_empty_message() {
    let converter = NostrMessageConverter;

    let result = converter.inbound_from_bytes(&[]).unwrap();
    assert!(result.is_none());

    let result = converter.inbound_from_bytes("   \n\t  ".as_bytes());
    assert!(result.is_err());
    assert!(result
        .unwrap_err()
        .to_string()
        .contains("Failed to parse client message"));
}

#[test]
fn test_inbound_from_bytes_invalid_json() {
    let converter = NostrMessageConverter;

    let result = converter.inbound_from_bytes(b"not json");
    assert!(result.is_err());
    assert!(result
        .unwrap_err()
        .to_string()
        .contains("Failed to parse client message"));

    let result = converter.inbound_from_bytes(br#"{"invalid": "format"}"#);
    assert!(result.is_err());

    let result = converter.inbound_from_bytes(br#"["UNKNOWN", "data"]"#);
    assert!(result.is_err());

    let invalid_utf8 = &[0xFF, 0xFE];
    let result = converter.inbound_from_bytes(invalid_utf8).unwrap();
    assert!(result.is_none());
}

#[test]
fn test_auth_message() {
    let converter = NostrMessageConverter;

    let tags = r#"[["relay","wss://relay.example.com"],["challenge","challenge"]]"#;
    let auth_json = format!(r#"["AUTH", {}]"#, event_json(22242, "", tags));

    let result = converter.inbound_from_bytes(auth_json.as_bytes()).unwrap();
    assert!(result.is_some());
    if let Some(ClientMessage::Auth(event)) = result {
        assert_eq!(event.kind, Kind::Authentication);
    } else {
        panic!("Expected AUTH message");
    }
}

#[test]
fn test_outbound_to_string() {
    let converter = NostrMessageConverter;

    let notice = RelayMessage::notice("Test notice");
    let result = converter.outbound_to_string(notice);
    assert!(result.contains("NOTICE"));
    assert!(result.contains("Test notice"));

    let event_frame = format!(r#"["EVENT", {}]"#, event_json(1, "Hello", "[]"));
    let event = match converter.inbound_from_bytes(event_frame.as_bytes()).unwrap() {
        Some(ClientMessage::Event(e)) => e.into_owned(),
        _ => panic!("Expected EVENT message"),
    };
    let message = RelayMessage::event(NostrSubscriptionId::new("test"), event);
    let result = converter.outbound_to_string(message);
    assert!(result.contains("EVENT"));
    assert!(result.contains("test"));

    let eose = RelayMessage::eose(NostrSubscriptionId::new("sub1"));
    let result = converter.outbound_to_string(eose);
    assert!(result.contains("EOSE"));
    assert!(result.contains("sub1"));

    let ok = RelayMessage::ok(EventId::from_hex(&"0".repeat(64)).unwrap(), true, "saved");
    let result = converter.outbound_to_string(ok);
    assert!(result.contains("OK"));
    assert!(result.contains("true"));
    assert!(result.contains("saved"));
}

#[test]
fn relay_messages_survive_text_round_trip() {
    let converter = NostrMessageConverter;
    let messages = vec![
        RelayMessage::notice("Test notice"),
        RelayMessage::eose(NostrSubscriptionId::new("sub1")),
        RelayMessage::ok(EventId::from_hex(EVENT_ID).unwrap(), false, "blocked: no"),
    ];
    for message in messages {
        let text = converter.outbound_to_string(message.clone());
        let back = RelayMessage::from_json(text.as_bytes()).unwrap();
        assert_eq!(back, message);
    }
}

#[test]
fn empty_frame_is_no_message_and_text_garbage_is_an_error() {
    let converter = NostrMessageConverter;
    assert!(matches!(converter.inbound_from_bytes(b""), Ok(None)));
    match converter.inbound_from_bytes(b"[") {
        Err(ConvertError::Parse(words)) => assert!(!words.is_empty()),
        other => panic!("unexpected {other:?}"),
    }
}

#[test]
fn inbound_outcome_for_each_parser_answer() {
    assert_eq!(inbound_outcome::<u8>(Ok(7), true), Ok(Some(7)));
    assert_eq!(inbound_outcome::<u8>(Ok(7), false), Ok(Some(7)));
    assert_eq!(inbound_outcome::<u8>(Err("bad".to_string()), false), Ok(None));
    assert_eq!(
        inbound_outcome::<u8>(Err("bad".to_string()), true),
        Err(ConvertError::Parse("bad".to_string()))
    );
    assert_eq!(
        ConvertError::Parse("bad".to_string()).to_string(),
        "Failed to parse client message: bad"
    );
}

#[test]
fn outbound_text_is_the_protocol_json() {
    let converter = NostrMessageConverter;
    assert_eq!(converter.outbound_to_string(RelayMessage::notice("hi")), r#"["NOTICE","hi"]"#);
    assert_eq!(
        converter.outbound_to_string(RelayMessage::eose(NostrSubscriptionId::new("s"))),
        r#"["EOSE","s"]"#
    );
}
