//! The peer protocol: messages, the outbound schedule and the handshake rules.

use vstd::prelude::*;

verus! {

/// The only protocol version spoken.
pub const PROTOCOL_VERSION: &'static str = "1";

/// A query for the transactions of a block date.
pub struct TransactionListQuery {
    pub block_date: i64,
}

/// An advertisement or transfer of transactions; each is compact-JWS bytes.
pub struct TransactionList {
    pub block_date: i64,
    pub transactions: Vec<Vec<u8>>,
}

/// A protocol message.
pub enum Message {
    TransactionList(TransactionList),
    TransactionListQuery(TransactionListQuery),
    /// Any other kind, which the dispatcher ignores.
    Other,
}

/// A message received from a peer.
pub struct Msg {
    pub peer_id: u128,
    pub message: Message,
}

/// The message that a session sends at tick `tick`: the query first, then
/// an empty advertisement at every later tick.
pub fn outbound_message(tick: u64) -> (r: Message)
    ensures
        tick == 0 ==> (r matches Message::TransactionListQuery(q) && q.block_date == 0),
        tick > 0 ==> (r matches Message::TransactionList(l) && l.block_date == 0
            && l.transactions@.len() == 0),
{
    if tick == 0 {
        Message::TransactionListQuery(TransactionListQuery { block_date: 0 })
    } else {
        Message::TransactionList(TransactionList { block_date: 0, transactions: Vec::new() })
    }
}

/// The 128-bit value of a UUID in text form, if it is one.
pub uninterp spec fn uuid_parsed(s: Seq<char>) -> Option<u128>;

/// Relies on uuid's `Uuid::parse_str` and `Uuid::as_u128`.
#[verifier::external_body]
fn parse_uuid(s: &str) -> (r: Option<u128>)
    ensures
        r == uuid_parsed(s@),
{
    uuid::Uuid::parse_str(s).ok().map(|u| u.as_u128())
}

/// Relies on uuid's `Uuid::new_v4`: a fresh random peer id.
#[verifier::external_body]
pub(crate) fn fresh_peer_id() -> (r: u128) {
    uuid::Uuid::new_v4().as_u128()
}

/// Why a session was refused.
#[derive(Debug)]
pub enum SessionError {
    /// The remote sent no peer id.
    MissingRemotePeerId,
    /// The remote's peer id is not a UUID.
    InvalidPeerId,
    /// Strict mode, and the remote sent no protocol version.
    MissingVersion,
    /// The remote speaks another protocol version.
    UnsupportedProtocolVersion(String),
}

pub enum SessionFailure {
    MissingRemotePeerId,
    InvalidPeerId,
    MissingVersion,
    UnsupportedProtocolVersion(Seq<char>),
}

impl View for SessionError {
    type V = SessionFailure;

    open spec fn view(&self) -> SessionFailure {
        match self {
            SessionError::MissingRemotePeerId => SessionFailure::MissingRemotePeerId,
            SessionError::InvalidPeerId => SessionFailure::InvalidPeerId,
            SessionError::MissingVersion => SessionFailure::MissingVersion,
            SessionError::UnsupportedProtocolVersion(v) => SessionFailure::UnsupportedProtocolVersion(v@),
        }
    }
}

pub open spec fn opt_text(o: Option<&str>) -> Option<Seq<char>> {
    match o {
        Some(s) => Some(s@),
        None => None,
    }
}

/// The outcome of a handshake whose peer id parsed to `peer` and whose
/// version header is `version`: outside strict mode a missing version counts
/// as "1"; only "1" is accepted.
pub open spec fn negotiation(strict: bool, peer: Option<u128>, version: Option<Seq<char>>) -> Result<u128, SessionFailure> {
    if strict && version is None {
        Err(SessionFailure::MissingVersion)
    } else {
        let v = match version {
            Some(v) => v,
            None => "1"@,
        };
        match peer {
            None => Err(SessionFailure::InvalidPeerId),
            Some(p) => if v == "1"@ {
                Ok(p)
            } else {
                Err(SessionFailure::UnsupportedProtocolVersion(v))
            },
        }
    }
}

/// Decides a handshake from the parsed peer id and the version header.
pub fn negotiate(strict: bool, peer: Option<u128>, version: Option<&str>) -> (r: Result<u128, SessionError>)
    ensures
        match (r, negotiation(strict, peer, opt_text(version))) {
            (Ok(p), Ok(q)) => p == q,
            (Err(e), Err(f)) => e@ == f,
            _ => false,
        },
{
    if strict && version.is_none() {
        return Err(SessionError::MissingVersion);
    }
    let v = match version {
        Some(v) => v.to_owned(),
        None => PROTOCOL_VERSION.to_owned(),
    };
    match peer {
        None => Err(SessionError::InvalidPeerId),
        Some(p) => {
            if v.eq(&PROTOCOL_VERSION.to_owned()) {
                Ok(p)
            } else {
                Err(SessionError::UnsupportedProtocolVersion(v))
            }
        },
    }
}

/// Decides a handshake from the remote's `peerid` and `version` headers;
/// returns the remote's peer id.
pub fn handshake(strict: bool, peer_id: Option<&str>, version: Option<&str>) -> (r: Result<u128, SessionError>)
    ensures
        match peer_id {
            None => r matches Err(SessionError::MissingRemotePeerId),
            Some(s) => match (r, negotiation(strict, uuid_parsed(s@), opt_text(version))) {
                (Ok(p), Ok(q)) => p == q,
                (Err(e), Err(f)) => e@ == f,
                _ => false,
            },
        },
{
    match peer_id {
        None => Err(SessionError::MissingRemotePeerId),
        Some(s) => negotiate(strict, parse_uuid(s), version),
    }
}

/// In strict mode a handshake is accepted only with version "1".
pub proof fn lemma_version_enforced(peer: Option<u128>, version: Option<Seq<char>>)
    ensures
        negotiation(true, peer, version) is Ok ==> version == Some("1"@),
{
}

} // verus!
