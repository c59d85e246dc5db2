use nuts_node::cmd::graph::find_by_hex;
use nuts_node::graph::{Graph, GraphError, StoredNode};
use nuts_node::jose::{KeyFamily, PublicKey, SignAlgo};
use nuts_node::pki::{KeyStore, KeyStoreError};
use nuts_node::protocol::{Message, Msg, TransactionList, TransactionListQuery};
use nuts_node::server::{DispatchError, Server};
use nuts_node::transaction::{ParseError, Transaction};
use p256::ecdsa::signature::Signer;

const PAYLOAD: &str = "4a1b2c3d4e5f60714a1b2c3d4e5f60714a1b2c3d4e5f60714a1b2c3d4e5f6071";

fn b64(bytes: &[u8]) -> String {
    <Vec<u8> as biscuit::CompactPart>::to_base64(&bytes.to_vec()).unwrap().unwrap()
}

fn signing_key() -> p256::ecdsa::SigningKey {
    p256::ecdsa::SigningKey::from_slice(&[7u8; 32]).unwrap()
}

fn jwk_json(kid: Option<&str>) -> String {
    let point = signing_key().verifying_key().to_encoded_point(false);
    let bytes = point.as_bytes();
    let kid = match kid {
        Some(k) => format!(",\"kid\":\"{}\"", k),
        None => String::new(),
    };
    format!(
        "{{\"kty\":\"EC\",\"crv\":\"P-256\",\"x\":\"{}\",\"y\":\"{}\"{}}}",
        b64(&bytes[1..33]),
        b64(&bytes[33..65]),
        kid
    )
}

fn header(alg: &str, prevs: &[String], key: &str) -> String {
    let prevs: Vec<String> = prevs.iter().map(|p| format!("\"{}\"", p)).collect();
    format!(
        "{{\"alg\":\"{}\",\"cty\":\"application/did+json\",\"ver\":1,\"sigt\":1600000000,\"prevs\":[{}],{}}}",
        alg,
        prevs.join(","),
        key
    )
}

fn sign(header: &str, payload: &str) -> String {
    let input = format!("{}.{}", b64(header.as_bytes()), b64(payload.as_bytes()));
    let sig: p256::ecdsa::Signature = signing_key().sign(input.as_bytes());
    format!("{}.{}", input, b64(&sig.to_bytes()))
}

fn root_jws() -> String {
    sign(&header("ES256", &[], &format!("\"jwk\":{}", jwk_json(Some("k1")))), PAYLOAD)
}

fn child_jws(parent: &str, payload: &str) -> String {
    sign(&header("ES256", &[parent.to_string()], "\"kid\":\"k1\""), payload)
}

fn batch(items: &[&str]) -> Msg {
    Msg {
        peer_id: 1,
        message: Message::TransactionList(TransactionList {
            block_date: 0,
            transactions: items.iter().map(|s| s.as_bytes().to_vec()).collect(),
        }),
    }
}

fn new_server() -> Server {
    Server::new(Graph::new(), KeyStore::new())
}

#[test]
fn parse_unsafe_reads_root_fields() {
    let raw = root_jws();
    let tx = Transaction::parse_unsafe(&raw).unwrap();
    assert!(tx.is_root());
    assert_eq!(tx.data, raw.as_bytes().to_vec());
    assert_eq!(tx.payload.to_hex(), PAYLOAD);
    assert_eq!(tx.payload_type, "application/did+json");
    assert_eq!(tx.version, 1);
    assert_eq!(tx.sign_at, 1600000000);
    assert_eq!(tx.key_id, "k1");
    assert!(matches!(tx.sign_algo, SignAlgo::ES256));
    let key = tx.key.as_ref().unwrap();
    assert!(matches!(key.family(), KeyFamily::EllipticCurve));
    assert_eq!(key.key_id(), Some("k1".to_string()));
}

#[test]
fn id_is_digest_of_data() {
    let raw = root_jws();
    let tx = Transaction::parse_unsafe(&raw).unwrap();
    let expected = nuts_node::hash::Hash::new(raw.as_bytes());
    assert!(tx.id == expected);
    assert_ne!(tx.id.to_hex(), tx.payload.to_hex());
}

#[test]
fn reparse_gives_same_transaction() {
    let raw = child_jws(&"ab".repeat(32), PAYLOAD);
    let first = Transaction::parse_unsafe(&raw).unwrap();
    let again = Transaction::parse_unsafe(std::str::from_utf8(&first.data).unwrap()).unwrap();
    assert!(again.id == first.id);
    assert!(again.payload == first.payload);
    assert_eq!(again.prevs.len(), 1);
    assert!(again.prevs[0] == first.prevs[0]);
    assert_eq!(again.key_id, first.key_id);
    assert_eq!(again.sign_at, first.sign_at);
}

#[test]
fn hs256_is_unsupported_algorithm() {
    let raw = sign(&header("HS256", &[], "\"kid\":\"k1\""), PAYLOAD);
    assert!(matches!(Transaction::parse_unsafe(&raw), Err(ParseError::UnsupportedAlgorithm)));
}

#[test]
fn every_listed_algorithm_is_accepted() {
    for alg in ["ES256", "ES384", "ES512", "PS256", "PS384", "PS512"] {
        let raw = sign(&header(alg, &[], "\"kid\":\"k1\""), PAYLOAD);
        assert!(Transaction::parse_unsafe(&raw).is_ok(), "{}", alg);
    }
    let raw = sign(&header("RS256", &[], "\"kid\":\"k1\""), PAYLOAD);
    assert!(matches!(Transaction::parse_unsafe(&raw), Err(ParseError::UnsupportedAlgorithm)));
}

#[test]
fn missing_payload_type_is_refused() {
    let h = "{\"alg\":\"ES256\",\"ver\":1,\"sigt\":0,\"prevs\":[],\"kid\":\"k1\"}";
    assert!(matches!(Transaction::parse_unsafe(&sign(h, PAYLOAD)), Err(ParseError::MissingPayloadType)));
    let h = "{\"alg\":\"ES256\",\"cty\":\"\",\"ver\":1,\"sigt\":0,\"prevs\":[],\"kid\":\"k1\"}";
    assert!(matches!(Transaction::parse_unsafe(&sign(h, PAYLOAD)), Err(ParseError::MissingPayloadType)));
}

#[test]
fn key_resolution_errors() {
    let raw = sign(&header("ES256", &[], "\"x\":1"), PAYLOAD);
    assert!(matches!(Transaction::parse_unsafe(&raw), Err(ParseError::MissingKeyOrKeyId)));
    let raw = sign(&header("ES256", &[], &format!("\"jwk\":{}", jwk_json(None))), PAYLOAD);
    assert!(matches!(Transaction::parse_unsafe(&raw), Err(ParseError::MissingKeyId)));
}

#[test]
fn header_key_id_names_an_embedded_key_without_one() {
    let raw = sign(&header("ES256", &[], &format!("\"kid\":\"k9\",\"jwk\":{}", jwk_json(None))), PAYLOAD);
    let tx = Transaction::parse_unsafe(&raw).unwrap();
    assert_eq!(tx.key_id, "k9");
    assert!(tx.key.is_some());
}

#[test]
fn malformed_input_errors() {
    assert!(matches!(Transaction::parse_unsafe("abc"), Err(ParseError::BadBase64)));
    assert!(matches!(Transaction::parse_unsafe("a.b.c.d"), Err(ParseError::BadBase64)));
    let not_json = format!("{}.{}.{}", b64(b"not json"), b64(PAYLOAD.as_bytes()), b64(b"sig"));
    assert!(matches!(Transaction::parse_unsafe(&not_json), Err(ParseError::BadJson)));
    let no_ver = "{\"alg\":\"ES256\",\"cty\":\"a\",\"sigt\":0,\"prevs\":[],\"kid\":\"k1\"}";
    assert!(matches!(Transaction::parse_unsafe(&sign(no_ver, PAYLOAD)), Err(ParseError::BadJson)));
    let raw = sign(&header("ES256", &[], "\"kid\":\"k1\""), "xyz");
    assert!(matches!(Transaction::parse_unsafe(&raw), Err(ParseError::BadHexPayload)));
    let raw = sign(&header("ES256", &[], "\"kid\":\"k1\""), "abcd");
    assert!(matches!(Transaction::parse_unsafe(&raw), Err(ParseError::BadHexPayload)));
    let raw = child_jws("1234", PAYLOAD);
    assert!(matches!(Transaction::parse_unsafe(&raw), Err(ParseError::BadParentHash)));
}

#[test]
fn verifying_parse_accepts_valid_es256() {
    let store = KeyStore::new();
    let tx = Transaction::parse(&store, &root_jws()).unwrap();
    assert_eq!(tx.key_id, "k1");
}

#[test]
fn verifying_parse_rejects_tampered_signature() {
    let raw = root_jws();
    let mut parts: Vec<String> = raw.split('.').map(String::from).collect();
    parts[2] = b64(&[0u8; 64]);
    let tampered = parts.join(".");
    assert!(matches!(Transaction::parse(&KeyStore::new(), &tampered), Err(ParseError::SignatureInvalid)));
    parts[2] = b64(&[1u8; 10]);
    let short = parts.join(".");
    assert!(matches!(Transaction::parse(&KeyStore::new(), &short), Err(ParseError::SignatureInvalid)));
}

#[test]
fn verifying_parse_uses_stored_key() {
    let raw = child_jws(&"cd".repeat(32), PAYLOAD);
    match Transaction::parse(&KeyStore::new(), &raw) {
        Err(ParseError::UnknownKey(k)) => assert_eq!(k, "k1"),
        _ => panic!("expected an unknown key"),
    }
    let mut store = KeyStore::new();
    let key = PublicKey::from_jwk(jwk_json(Some("k1")).into_bytes()).unwrap();
    store.add("k1".to_string(), key).unwrap();
    assert!(Transaction::parse(&store, &raw).is_ok());
}

#[test]
fn verifying_parse_refuses_other_curves_algorithms() {
    let raw = sign(&header("ES384", &[], &format!("\"jwk\":{}", jwk_json(Some("k1")))), PAYLOAD);
    assert!(Transaction::parse_unsafe(&raw).is_ok());
    assert!(matches!(Transaction::parse(&KeyStore::new(), &raw), Err(ParseError::UnsupportedAlgorithm)));
}

#[test]
fn key_store_is_insert_once() {
    let mut store = KeyStore::new();
    let key = PublicKey::from_jwk(jwk_json(Some("k1")).into_bytes()).unwrap();
    assert!(store.add("k1".to_string(), key.duplicate()).is_ok());
    match store.add("k1".to_string(), key) {
        Err(KeyStoreError::AlreadyExists(id)) => assert_eq!(id, "k1"),
        _ => panic!("expected a refusal"),
    }
    assert_eq!(store.len(), 1);
    assert!(store.contains("k1"));
    assert!(!store.contains("k2"));
    assert!(store.get("k1").is_some());
    assert!(store.get("k2").is_none());
}

#[test]
fn key_store_open_refuses_repeated_ids() {
    let key = || PublicKey::from_jwk(jwk_json(Some("k1")).into_bytes()).unwrap();
    let entries = vec![("a".to_string(), key()), ("b".to_string(), key())];
    let store = KeyStore::open(&entries).unwrap();
    assert_eq!(store.entry(1).0, "b");
    let entries = vec![("a".to_string(), key()), ("a".to_string(), key())];
    assert!(KeyStore::open(&entries).is_err());
}

#[test]
fn public_key_rejects_non_jwk() {
    assert!(PublicKey::from_jwk(b"{\"kty\":\"nope\"}".to_vec()).is_none());
    assert!(PublicKey::from_jwk(b"[]".to_vec()).is_none());
}

#[test]
fn root_only_insertion() {
    let mut server = new_server();
    let raw = root_jws();
    server.handle(batch(&[&raw])).unwrap();
    let root = Transaction::parse_unsafe(&raw).unwrap();
    assert!(server.graph().root().unwrap().id == root.id);
    assert!(server.key_store().contains("k1"));
    let mut graph = Graph::new();
    graph.add(Transaction::parse_unsafe(&raw).unwrap()).unwrap();
    assert!(matches!(graph.add(root), Err(GraphError::DuplicateTransaction)));
}

#[test]
fn chain_of_two() {
    let mut server = new_server();
    let root = Transaction::parse_unsafe(&root_jws()).unwrap();
    let child_raw = child_jws(&root.id.to_hex(), PAYLOAD);
    let child = Transaction::parse_unsafe(&child_raw).unwrap();
    server.handle(batch(&[&root_jws()])).unwrap();
    server.handle(batch(&[&child_raw])).unwrap();
    let all = server.graph().to_vec();
    assert_eq!(all.len(), 2);
    assert!(all[0].id == root.id);
    assert!(all[1].id == child.id);
}

#[test]
fn missing_parent() {
    let mut graph = Graph::new();
    graph.add(Transaction::parse_unsafe(&root_jws()).unwrap()).unwrap();
    let random = "5a".repeat(32);
    let tx = Transaction::parse_unsafe(&child_jws(&random, PAYLOAD)).unwrap();
    match graph.add(tx) {
        Err(GraphError::MissingParent(h)) => assert_eq!(h.to_hex(), random),
        _ => panic!("expected a missing parent"),
    }
    assert_eq!(graph.len(), 1);
}

#[test]
fn second_root_rejected() {
    let mut graph = Graph::new();
    graph.add(Transaction::parse_unsafe(&root_jws()).unwrap()).unwrap();
    let other = sign(&header("ES256", &[], "\"kid\":\"k1\""), &"00".repeat(32));
    let tx = Transaction::parse_unsafe(&other).unwrap();
    assert!(matches!(graph.add(tx), Err(GraphError::RootAlreadyPresent)));
}

#[test]
fn walk_is_preorder_newest_child_first() {
    let mut graph = Graph::new();
    let root = Transaction::parse_unsafe(&root_jws()).unwrap();
    let root_hex = root.id.to_hex();
    graph.add(root).unwrap();
    let a = Transaction::parse_unsafe(&child_jws(&root_hex, &"01".repeat(32))).unwrap();
    let a_hex = a.id.to_hex();
    graph.add(a).unwrap();
    let b = Transaction::parse_unsafe(&child_jws(&root_hex, &"02".repeat(32))).unwrap();
    graph.add(b).unwrap();
    let c = Transaction::parse_unsafe(&child_jws(&a_hex, &"03".repeat(32))).unwrap();
    graph.add(c).unwrap();
    assert_eq!(graph.walk_order(), vec![0, 2, 1, 3]);
    assert_eq!(graph.find(&graph.transaction(3).id.duplicate()), Some(3));
}

#[test]
fn reload_gives_same_graph() {
    let mut graph = Graph::new();
    let root = Transaction::parse_unsafe(&root_jws()).unwrap();
    let root_hex = root.id.to_hex();
    let mut records: Vec<StoredNode> = vec![graph.add(root).unwrap()];
    for i in 1..4u8 {
        let tx = Transaction::parse_unsafe(&child_jws(&root_hex, &format!("{:02x}", i).repeat(32))).unwrap();
        records.push(graph.add(tx).unwrap());
    }
    assert_eq!(records[2].ordinal, 2);
    records.reverse();
    let reopened = Graph::open(&records).unwrap();
    assert_eq!(reopened.walk_order(), graph.walk_order());
    for i in 0..4 {
        assert!(reopened.transaction(i).id == graph.transaction(i).id);
        assert_eq!(graph.record(i).unwrap().ordinal as usize, i);
    }
}

#[test]
fn reload_sorts_by_ordinal() {
    let mut graph = Graph::new();
    let root = Transaction::parse_unsafe(&root_jws()).unwrap();
    let child = Transaction::parse_unsafe(&child_jws(&root.id.to_hex(), PAYLOAD)).unwrap();
    let child_id = child.id.duplicate();
    let mut root_rec = graph.add(root).unwrap();
    let mut child_rec = graph.add(child).unwrap();
    root_rec.ordinal = 3;
    child_rec.ordinal = 9;
    let reopened = Graph::open(&vec![child_rec, root_rec]).unwrap();
    assert_eq!(reopened.len(), 2);
    assert!(reopened.transaction(1).id == child_id);
}

#[test]
fn reload_with_equal_ordinals_keeps_stored_order() {
    let mut graph = Graph::new();
    let root = Transaction::parse_unsafe(&root_jws()).unwrap();
    let child = Transaction::parse_unsafe(&child_jws(&root.id.to_hex(), PAYLOAD)).unwrap();
    let mut root_rec = graph.add(root).unwrap();
    let mut child_rec = graph.add(child).unwrap();
    root_rec.ordinal = 4;
    child_rec.ordinal = 4;
    let copy = |r: &StoredNode| StoredNode { ordinal: r.ordinal, tx_id: r.tx_id.duplicate(), tx_data: r.tx_data.clone() };
    assert_eq!(Graph::open(&vec![copy(&root_rec), copy(&child_rec)]).unwrap().len(), 2);
    assert!(matches!(Graph::open(&vec![child_rec, root_rec]), Err(GraphError::MissingParent(_))));
}

#[test]
fn reload_refuses_unparsable_records() {
    let bad = StoredNode { ordinal: 0, tx_id: nuts_node::hash::Hash::new(b"x"), tx_data: "x.y.z".to_string() };
    assert!(matches!(Graph::open(&vec![bad]), Err(GraphError::Parse(_))));
}

#[test]
fn batch_without_root_is_refused() {
    let mut server = new_server();
    let tx = child_jws(&"11".repeat(32), PAYLOAD);
    assert!(matches!(server.handle(batch(&[&tx])), Err(DispatchError::MissingRoot)));
    assert_eq!(server.graph().len(), 0);
}

#[test]
fn batch_root_goes_first() {
    let mut server = new_server();
    let root = Transaction::parse_unsafe(&root_jws()).unwrap();
    let child = child_jws(&root.id.to_hex(), PAYLOAD);
    server.handle(batch(&[&child, &root_jws(), &child])).unwrap();
    assert_eq!(server.graph().len(), 2);
    assert!(server.graph().root().unwrap().id == root.id);
}

#[test]
fn batch_parse_failure_changes_nothing() {
    let mut server = new_server();
    let msg = Msg {
        peer_id: 1,
        message: Message::TransactionList(TransactionList {
            block_date: 0,
            transactions: vec![root_jws().into_bytes(), vec![0xff, 0xfe]],
        }),
    };
    assert!(matches!(server.handle(msg), Err(DispatchError::NotText)));
    assert!(matches!(server.handle(batch(&[&root_jws(), "bad"])), Err(DispatchError::Parse(ParseError::BadBase64))));
    assert_eq!(server.graph().len(), 0);
    assert_eq!(server.key_store().len(), 0);
}

#[test]
fn other_messages_are_ignored() {
    let mut server = new_server();
    let query = Msg { peer_id: 2, message: Message::TransactionListQuery(TransactionListQuery { block_date: 0 }) };
    assert!(server.handle(query).is_ok());
    assert!(server.handle(Msg { peer_id: 2, message: Message::Other }).is_ok());
    assert_eq!(server.graph().len(), 0);
    assert!(!server.strict());
}

#[test]
fn find_by_hex_looks_up_ids() {
    let mut graph = Graph::new();
    let root = Transaction::parse_unsafe(&root_jws()).unwrap();
    let hex = root.id.to_hex();
    graph.add(root).unwrap();
    assert!(find_by_hex(&graph, &hex).unwrap().is_some());
    assert!(find_by_hex(&graph, &"00".repeat(32)).unwrap().is_none());
    assert!(find_by_hex(&graph, "zz").is_err());
}

const RSA_JWS: &str = "eyJhbGciOiJQUzI1NiIsImN0eSI6ImFwcGxpY2F0aW9uL2RpZCtqc29uIiwidmVyIjoxLCJzaWd0IjoxNjAwMDAwMDAwLCJwcmV2cyI6W10sImp3ayI6eyJrdHkiOiJSU0EiLCJuIjoibm02eWZPbmpSSG1nZXk0Q3F2OGVydTh1Sk9rR2pLRTkyZzNrR2RCVHhKRmNRUjJXLUxsY3F0WUpyOXZTS0psS0hZWHRESEExT2IzVjZ5aWRKYTBoQ3hsZEQwS2pEanFxZEh5YjRFSjBxY2RuRTRpdncyWVFhN18yNTRDdDdvMGUzRGQ4TFljZHQ2N0J6dnRhXy1hWlZIbGhrRlR5SHA4NHVpTUtGN1JYZmFDZU1qNlBMTUpOOG96VVdaZ1dEMW9YT2NqMTRPSVpYTDVNWEdkQU04bWROMFZaSjN1RjhWTGRaZ3hzelBmZGhQaE5mcFBZdWtqa1ZlaWFGaVVNSGdWRmpkQWxXUmkyYnYtb014aEV0dlROT3lPN2s0WWpVNXowYU12R0R6R3h6WG9fTHpJTzBlcThpb1UyVzFDWmZzUFJHNzlNY2tZN0lwaXFSaW5KNDlxV3Z3IiwiZSI6IkFRQUIiLCJraWQiOiJyMSJ9fQ.NGExYjJjM2Q0ZTVmNjA3MTRhMWIyYzNkNGU1ZjYwNzE0YTFiMmMzZDRlNWY2MDcxNGExYjJjM2Q0ZTVmNjA3MQ.mwPk1oqF8GZuZSAroxkuIX1O7GuJ7nmFIfUe07jKJWGTL8R4Fq-ZO0aPvXsfzv79kVU3hc8EwW1qLp4mkuCRr7S7BFwoUg4rz-G979YA1-mgaorERs-e8oow9QEKXlFpZ_sl0AKiq8S6V-lRLMih2d4qlbMty4KPezaUVCQ0gX5ES2VM62FRjXuoUFT7UpTEEjgl4qaU3xq9tHeaYVn-cqXc_PjnDJ-9QOL6DtO3RcnNgHt7IfNU2qBxlZqwG5YDNCZDP6YcLVw-JLjUHMBeq6r52cNmVAxK2WY3FLHbI4ZObdOkwA0rqRod5f8Y7PR9Og3H6d2ySX0d4Zff0yS0RQ";

#[test]
fn verifying_parse_accepts_valid_ps256() {
    let tx = Transaction::parse(&KeyStore::new(), RSA_JWS).unwrap();
    assert_eq!(tx.key_id, "r1");
    assert!(matches!(tx.sign_algo, SignAlgo::PS256));
    assert!(matches!(tx.key.as_ref().unwrap().family(), KeyFamily::Rsa));
}

#[test]
fn verifying_parse_rejects_bad_ps256_signature() {
    let mut parts: Vec<String> = RSA_JWS.split('.').map(String::from).collect();
    parts[2] = b64(&[3u8; 256]);
    assert!(matches!(Transaction::parse(&KeyStore::new(), &parts.join(".")), Err(ParseError::SignatureInvalid)));
}

#[test]
fn octet_and_unsupported_key_families() {
    let oct = "{\"kty\":\"oct\",\"k\":\"c2VjcmV0\",\"kid\":\"o1\"}";
    let raw = sign(&header("ES256", &[], &format!("\"jwk\":{}", oct)), PAYLOAD);
    assert!(matches!(Transaction::parse(&KeyStore::new(), &raw), Err(ParseError::UnsupportedAlgorithm)));
    let okp = format!("{{\"kty\":\"OKP\",\"crv\":\"Ed25519\",\"x\":\"{}\",\"kid\":\"e1\"}}", b64(&[5u8; 32]));
    let raw = sign(&header("ES256", &[], &format!("\"jwk\":{}", okp)), PAYLOAD);
    assert!(matches!(Transaction::parse(&KeyStore::new(), &raw), Err(ParseError::UnsupportedKeyAlgorithm)));
}

#[test]
fn default_transaction_is_an_empty_root() {
    let tx = Transaction::default();
    assert!(tx.is_root());
    assert_eq!(tx.id.to_hex(), "00".repeat(32));
    assert!(tx.data.is_empty());
    assert!(tx.key.is_none());
}

#[test]
fn null_members_count_as_absent() {
    let h = "{\"alg\":\"ES256\",\"cty\":null,\"ver\":1,\"sigt\":0,\"prevs\":[],\"kid\":\"k1\"}";
    assert!(matches!(Transaction::parse_unsafe(&sign(h, PAYLOAD)), Err(ParseError::MissingPayloadType)));
    let h = "{\"alg\":\"ES256\",\"cty\":\"a\",\"ver\":1,\"sigt\":0,\"prevs\":[],\"kid\":null,\"jwk\":null}";
    assert!(matches!(Transaction::parse_unsafe(&sign(h, PAYLOAD)), Err(ParseError::MissingKeyOrKeyId)));
    let h = "{\"alg\":\"ES256\",\"cty\":\"a\",\"ver\":1,\"sigt\":0,\"prevs\":[],\"kid\":5}";
    assert!(matches!(Transaction::parse_unsafe(&sign(h, PAYLOAD)), Err(ParseError::BadJson)));
    let h = "{\"alg\":\"ES256\",\"cty\":\"a\",\"ver\":1,\"sigt\":0,\"prevs\":[7],\"kid\":\"k1\"}";
    assert!(matches!(Transaction::parse_unsafe(&sign(h, PAYLOAD)), Err(ParseError::BadJson)));
}

fn rsa_header_with(alg: &str) -> String {
    let head = RSA_JWS.split('.').next().unwrap();
    let json = <Vec<u8> as biscuit::CompactPart>::from_base64(&head).unwrap();
    String::from_utf8(json).unwrap().replace("\"alg\":\"PS256\"", &format!("\"alg\":\"{}\"", alg))
}

#[test]
fn rsa_key_with_es_algorithm_is_refused() {
    let raw = sign(&rsa_header_with("ES256"), PAYLOAD);
    assert!(matches!(Transaction::parse(&KeyStore::new(), &raw), Err(ParseError::UnsupportedAlgorithm)));
}

#[test]
fn unsupported_key_family_comes_before_algorithm_and_signature() {
    let okp = format!("{{\"kty\":\"OKP\",\"crv\":\"Ed25519\",\"x\":\"{}\",\"kid\":\"e1\"}}", b64(&[5u8; 32]));
    let raw = sign(&header("HS256", &[], &format!("\"jwk\":{}", okp)), PAYLOAD);
    assert!(matches!(Transaction::parse(&KeyStore::new(), &raw), Err(ParseError::UnsupportedKeyAlgorithm)));
    let mut parts: Vec<String> = raw.split('.').map(String::from).collect();
    parts[2] = "!!".to_string();
    assert!(matches!(Transaction::parse(&KeyStore::new(), &parts.join(".")), Err(ParseError::UnsupportedKeyAlgorithm)));
}

#[test]
fn upper_case_hex_is_refused() {
    let raw = sign(&header("ES256", &[], "\"kid\":\"k1\""), &PAYLOAD.to_uppercase());
    assert!(matches!(Transaction::parse_unsafe(&raw), Err(ParseError::BadHexPayload)));
    let raw = child_jws(&"AB".repeat(32), PAYLOAD);
    assert!(matches!(Transaction::parse_unsafe(&raw), Err(ParseError::BadParentHash)));
}

#[test]
fn server_keeps_its_peer_id() {
    let mut server = new_server();
    let id = server.peer_id();
    server.handle(batch(&[&root_jws()])).unwrap();
    assert_eq!(server.peer_id(), id);
}
