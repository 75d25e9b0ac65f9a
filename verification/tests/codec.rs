use signal_relay::codec::{
    decode_client_message, decode_server_message, encode_client_message, encode_server_message,
    DecodeError,
};
use signal_relay::envelope::{
    ClientContent, ClientMessage, Command, GroupStateUpdate, MemberEntry, MemberState,
    ServerMessage,
};

fn field(tag: u8, payload: &[u8]) -> Vec<u8> {
    let mut out = vec![tag];
    out.extend_from_slice(&(payload.len() as u64).to_le_bytes());
    out.extend_from_slice(payload);
    out
}

#[test]
fn server_message_round_trip() {
    let msg = ServerMessage {
        to_user: Some("bob".to_string()),
        content: Some(Command::Offer("sdp-offer".to_string())),
    };
    let bytes = encode_server_message(&msg);
    let back = decode_server_message(&bytes).unwrap();
    assert_eq!(back.to_user.as_deref(), Some("bob"));
    assert!(matches!(back.content, Some(Command::Offer(s)) if s == "sdp-offer"));
}

#[test]
fn server_message_round_trip_empty() {
    let msg = ServerMessage { to_user: None, content: None };
    let bytes = encode_server_message(&msg);
    assert!(bytes.is_empty());
    let back = decode_server_message(&bytes).unwrap();
    assert!(back.to_user.is_none());
    assert!(back.content.is_none());
}

#[test]
fn client_message_round_trip_command() {
    let msg = ClientMessage {
        from_user: Some("alice".to_string()),
        content: Some(ClientContent::Command(Command::IceCandidate("cand-1".to_string()))),
    };
    let bytes = encode_client_message(&msg);
    let back = decode_client_message(&bytes).unwrap();
    assert_eq!(back.from_user.as_deref(), Some("alice"));
    assert!(
        matches!(back.content, Some(ClientContent::Command(Command::IceCandidate(s))) if s == "cand-1")
    );
}

#[test]
fn client_message_round_trip_snapshot() {
    let msg = ClientMessage {
        from_user: None,
        content: Some(ClientContent::StateUpdate(GroupStateUpdate {
            members: vec![
                MemberEntry {
                    user_id: "a".to_string(),
                    state: MemberState { name: "Alice".to_string() },
                },
                MemberEntry {
                    user_id: "b".to_string(),
                    state: MemberState { name: "Bob".to_string() },
                },
            ],
        })),
    };
    let bytes = encode_client_message(&msg);
    let back = decode_client_message(&bytes).unwrap();
    assert!(back.from_user.is_none());
    match back.content {
        Some(ClientContent::StateUpdate(g)) => {
            let pairs: Vec<(String, String)> =
                g.members.iter().map(|e| (e.user_id.clone(), e.state.name.clone())).collect();
            assert_eq!(
                pairs,
                vec![
                    ("a".to_string(), "Alice".to_string()),
                    ("b".to_string(), "Bob".to_string())
                ]
            );
        }
        _ => panic!("expected a snapshot"),
    }
}

#[test]
fn encoding_layout_is_tag_length_payload() {
    let msg = ServerMessage { to_user: Some("b".to_string()), content: None };
    let bytes = encode_server_message(&msg);
    assert_eq!(bytes, field(1, b"b"));
}

#[test]
fn malformed_frame_is_rejected() {
    assert!(decode_server_message(&[0xFF, 0x01, 0x02]).is_err());
}

#[test]
fn truncated_frame() {
    let mut bytes = field(1, b"bob");
    bytes.truncate(5);
    assert!(matches!(decode_server_message(&bytes), Err(DecodeError::Truncated)));
}

#[test]
fn unexpected_tag() {
    let bytes = field(9, b"x");
    assert!(matches!(decode_server_message(&bytes), Err(DecodeError::UnexpectedTag)));
}

#[test]
fn trailing_bytes() {
    let mut bytes = encode_server_message(&ServerMessage {
        to_user: Some("b".to_string()),
        content: Some(Command::Offer("s".to_string())),
    });
    bytes.push(0);
    assert!(matches!(decode_server_message(&bytes), Err(DecodeError::TrailingBytes)));
}

#[test]
fn invalid_utf8_payload() {
    let bytes = field(1, &[0xFF, 0xFE]);
    assert!(matches!(decode_server_message(&bytes), Err(DecodeError::InvalidUtf8)));
}
