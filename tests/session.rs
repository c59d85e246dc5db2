use nuts_node::protocol::{handshake, negotiate, outbound_message, Message, SessionError, PROTOCOL_VERSION};

const PEER: &str = "67e55044-10b1-426f-9247-bb680e5fe0c8";

#[test]
fn first_message_is_a_query() {
    match outbound_message(0) {
        Message::TransactionListQuery(q) => assert_eq!(q.block_date, 0),
        _ => panic!("expected a query"),
    }
    for tick in [1u64, 2, 100] {
        match outbound_message(tick) {
            Message::TransactionList(l) => {
                assert_eq!(l.block_date, 0);
                assert!(l.transactions.is_empty());
            }
            _ => panic!("expected an advertisement"),
        }
    }
}

#[test]
fn lenient_handshake_defaults_version() {
    let id = handshake(false, Some(PEER), None).unwrap();
    assert_eq!(id, 0x67e55044_10b1_426f_9247_bb680e5fe0c8u128);
    assert_eq!(handshake(false, Some(PEER), Some("1")).unwrap(), id);
    assert_eq!(PROTOCOL_VERSION, "1");
}

#[test]
fn strict_handshake_requires_version_one() {
    assert!(matches!(handshake(true, Some(PEER), None), Err(SessionError::MissingVersion)));
    match handshake(true, Some(PEER), Some("2")) {
        Err(SessionError::UnsupportedProtocolVersion(v)) => assert_eq!(v, "2"),
        _ => panic!("expected a version refusal"),
    }
    assert!(handshake(true, Some(PEER), Some("1")).is_ok());
}

#[test]
fn lenient_handshake_still_refuses_other_versions() {
    assert!(matches!(handshake(false, Some(PEER), Some("2")), Err(SessionError::UnsupportedProtocolVersion(_))));
}

#[test]
fn handshake_needs_a_peer_id() {
    assert!(matches!(handshake(false, None, Some("1")), Err(SessionError::MissingRemotePeerId)));
    assert!(matches!(handshake(false, Some("not-a-uuid"), Some("1")), Err(SessionError::InvalidPeerId)));
}

#[test]
fn negotiate_on_parsed_values() {
    assert_eq!(negotiate(false, Some(5), None).unwrap(), 5);
    assert!(matches!(negotiate(true, Some(5), None), Err(SessionError::MissingVersion)));
    assert!(matches!(negotiate(false, None, Some("1")), Err(SessionError::InvalidPeerId)));
}
