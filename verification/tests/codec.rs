use sm64js_core::auth::{validate_session, DbError, Identity};
use sm64js_core::net::{resolve_client_ip, NetworkInfo, WsError};
use sm64js_core::protocol::{decode_frame, encode_frame, InboundMsg, PlayerSnapshot, ProtocolError};

#[test]
fn decode_data_frame() {
    let bytes = vec![0u8, 7, 8, 9];
    match decode_frame(&bytes) {
        Ok(InboundMsg::Data(p)) => assert_eq!(p, vec![7, 8, 9]),
        _ => panic!("expected a state update"),
    }
}

#[test]
fn decode_skin_frame() {
    let bytes = vec![1u8, 42];
    match decode_frame(&bytes) {
        Ok(InboundMsg::Skin(p)) => assert_eq!(p, vec![42]),
        _ => panic!("expected a cosmetic update"),
    }
}

#[test]
fn decode_join_frame() {
    let mut bytes = vec![2u8];
    bytes.extend_from_slice(&[0, 0, 0, 0, 0, 1, 226, 64]);
    match decode_frame(&bytes) {
        Ok(InboundMsg::Join(k)) => assert_eq!(k, 123456),
        _ => panic!("expected a join"),
    }
}

#[test]
fn decode_leave_frame() {
    let bytes = vec![3u8];
    assert!(matches!(decode_frame(&bytes), Ok(InboundMsg::Leave)));
}

#[test]
fn decode_malformed_frames() {
    assert!(matches!(decode_frame(&vec![]), Err(ProtocolError::Malformed)));
    assert!(matches!(decode_frame(&vec![9u8, 1, 2]), Err(ProtocolError::Malformed)));
    assert!(matches!(decode_frame(&vec![2u8, 1, 2]), Err(ProtocolError::Malformed)));
    assert!(matches!(decode_frame(&vec![3u8, 0]), Err(ProtocolError::Malformed)));
}

#[test]
fn encode_one_member_frame() {
    let entries = vec![PlayerSnapshot { id: 1, data: vec![7, 8, 9] }];
    let out = encode_frame(16, &entries).unwrap();
    assert_eq!(out, vec![16u8, 0, 1, 0, 0, 0, 0, 0, 0, 0, 1, 0, 3, 7, 8, 9]);
}

#[test]
fn encode_empty_frame() {
    let entries: Vec<PlayerSnapshot> = Vec::new();
    let out = encode_frame(16, &entries).unwrap();
    assert_eq!(out, vec![16u8, 0, 0]);
}

#[test]
fn encode_oversized_payload_fails() {
    let entries = vec![PlayerSnapshot { id: 1, data: vec![0u8; 70000] }];
    assert_eq!(encode_frame(16, &entries), Err(ProtocolError::PayloadTooLarge));
}

#[test]
fn validate_session_accepts_matching_live_session() {
    let r = validate_session(
        100,
        200,
        &String::from("tok"),
        &String::from("tok"),
        &String::from("acct"),
        &String::from("acct"),
    );
    assert_eq!(r, Ok(()));
}

#[test]
fn validate_session_rejects_expired_first() {
    let r = validate_session(
        200,
        200,
        &String::from("tok"),
        &String::from("other"),
        &String::from("acct"),
        &String::from("acct"),
    );
    assert_eq!(r, Err(DbError::SessionExpired));
}

#[test]
fn validate_session_rejects_token_mismatch() {
    let r = validate_session(
        100,
        200,
        &String::from("tok"),
        &String::from("other"),
        &String::from("acct"),
        &String::from("acct"),
    );
    assert_eq!(r, Err(DbError::AccessTokenInvalid));
}

#[test]
fn validate_session_rejects_account_mismatch() {
    let r = validate_session(
        100,
        200,
        &String::from("tok"),
        &String::from("tok"),
        &String::from("acct"),
        &String::from("other"),
    );
    assert_eq!(r, Err(DbError::AccountIdInvalid));
}

#[test]
fn session_expiry_adds_seconds() {
    assert_eq!(sm64js_core::auth::session_expiry(1000, 3600), Some(4600));
}

#[test]
fn session_expiry_detects_overflow() {
    assert_eq!(sm64js_core::auth::session_expiry(i64::MAX, 1), None);
}

#[test]
fn client_ip_prefers_proxy_header() {
    let r = resolve_client_ip(Some(String::from("10.0.0.9")), Some(String::from("127.0.0.1")));
    assert_eq!(r, Ok(String::from("10.0.0.9")));
}

#[test]
fn client_ip_falls_back_to_peer() {
    let r = resolve_client_ip(None, Some(String::from("127.0.0.1")));
    assert_eq!(r, Ok(String::from("127.0.0.1")));
}

#[test]
fn client_ip_required() {
    assert_eq!(resolve_client_ip(None, None), Err(WsError::IpRequired));
}

#[test]
fn display_tag_joins_name_and_discriminator() {
    assert_eq!(sm64js_core::auth::display_tag("mario", "0007"), "mario#0007");
}

#[test]
fn authorized_user_message_carries_code_one() {
    let m = sm64js_core::auth::authorized_user_message(Some(String::from("mario#0007")));
    assert_eq!(m.code, 1);
    assert_eq!(m.username, Some(String::from("mario#0007")));
    assert!(m.message.is_none());
}

#[test]
fn identity_distinguishes_accounts() {
    assert_ne!(Identity::Authenticated(5), Identity::Anonymous);
    assert_eq!(Identity::Authenticated(5), Identity::Authenticated(5));
    let _net = NetworkInfo { ip: String::from("1.2.3.4"), real_ip: None };
}
