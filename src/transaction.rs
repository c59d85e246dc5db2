//! The transaction codec: compact-JWS transactions, their header fields, the
//! algorithm whitelist, key resolution, signature checks and the derived id.

use crate::hash::{lower_hex_decoded, sha256_of};
use crate::jose::{
    base64url_decode, base64url_decoded, ec_coordinates, family_of, json_int, json_int_member,
    json_member, json_raw, json_text, json_text_list, json_text_list_member, json_text_member,
    json_uint, json_uint_member, jwk_ec_coordinates, jwk_summary, key_id_of,
    p256_signature_valid, rsa_signature_valid, text_view, texts_view, verify_p256, verify_rsa,
    is_pss, KeyFamily, PublicKey, SignAlgo,
};
use crate::pki::{lookup, KeyStore};
use vstd::prelude::*;
use vstd::string::StringSliceAdditionalSpecFns;

verus! {

/// Why a transaction was refused.
#[derive(Debug)]
pub enum ParseError {
    /// Not three base64url segments, or a segment that does not decode.
    BadBase64,
    /// The header is not a JSON object with the fields a transaction needs.
    BadJson,
    /// The payload is not the hex text of 32 bytes.
    BadHexPayload,
    /// The `alg` is not one of ES256, ES384, ES512, PS256, PS384, PS512.
    UnsupportedAlgorithm,
    /// The `cty` is missing or empty.
    MissingPayloadType,
    /// An embedded key without a key id, in the key or in the header.
    MissingKeyId,
    /// Neither an embedded key nor a key id.
    MissingKeyOrKeyId,
    /// A `prevs` entry that is not the hex text of 32 bytes.
    BadParentHash,
    /// No key with this id is known.
    UnknownKey(String),
    /// The signature does not verify.
    SignatureInvalid,
    /// The key's algorithm family cannot verify transactions.
    UnsupportedKeyAlgorithm,
}

/// The mathematical form of a `ParseError`.
pub enum ParseFailure {
    BadBase64,
    BadJson,
    BadHexPayload,
    UnsupportedAlgorithm,
    MissingPayloadType,
    MissingKeyId,
    MissingKeyOrKeyId,
    BadParentHash,
    UnknownKey(Seq<char>),
    SignatureInvalid,
    UnsupportedKeyAlgorithm,
}

impl View for ParseError {
    type V = ParseFailure;

    open spec fn view(&self) -> ParseFailure {
        match self {
            ParseError::BadBase64 => ParseFailure::BadBase64,
            ParseError::BadJson => ParseFailure::BadJson,
            ParseError::BadHexPayload => ParseFailure::BadHexPayload,
            ParseError::UnsupportedAlgorithm => ParseFailure::UnsupportedAlgorithm,
            ParseError::MissingPayloadType => ParseFailure::MissingPayloadType,
            ParseError::MissingKeyId => ParseFailure::MissingKeyId,
            ParseError::MissingKeyOrKeyId => ParseFailure::MissingKeyOrKeyId,
            ParseError::BadParentHash => ParseFailure::BadParentHash,
            ParseError::UnknownKey(k) => ParseFailure::UnknownKey(k@),
            ParseError::SignatureInvalid => ParseFailure::SignatureInvalid,
            ParseError::UnsupportedKeyAlgorithm => ParseFailure::UnsupportedKeyAlgorithm,
        }
    }
}

/// The fields of a transaction's protected header that the codec reads.
pub struct JoseHeader {
    /// `alg`
    pub algorithm: String,
    /// `cty`
    pub content_type: Option<String>,
    /// `kid`
    pub key_id: Option<String>,
    /// `jwk`
    pub web_key: Option<PublicKey>,
    /// `ver`
    pub version: u64,
    /// `sigt`, seconds since the epoch
    pub sign_time: i64,
    /// `prevs`, hex text of the parents' ids
    pub previous: Vec<String>,
}

pub struct HeaderView {
    pub alg: Seq<char>,
    pub cty: Option<Seq<char>>,
    pub kid: Option<Seq<char>>,
    pub jwk: Option<Seq<u8>>,
    pub ver: u64,
    pub sigt: i64,
    pub prevs: Seq<Seq<char>>,
}

pub open spec fn key_view(k: Option<PublicKey>) -> Option<Seq<u8>> {
    match k {
        Some(k) => Some(k@),
        None => None,
    }
}

impl View for JoseHeader {
    type V = HeaderView;

    open spec fn view(&self) -> HeaderView {
        HeaderView {
            alg: self.algorithm@,
            cty: text_view(self.content_type),
            kid: text_view(self.key_id),
            jwk: key_view(self.web_key),
            ver: self.version,
            sigt: self.sign_time,
            prevs: texts_view(self.previous@),
        }
    }
}

/// The JSON text of `null`.
pub open spec fn null_text() -> Seq<u8> {
    seq![110u8, 117u8, 108u8, 108u8]
}

/// The member `key` of `json` is present and not `null`.
pub open spec fn has_member(json: Seq<u8>, key: Seq<char>) -> bool {
    json_member(json, key) is Some && json_member(json, key).unwrap() != null_text()
}

/// The header that the JSON text `json` describes: `alg`, `ver`, `sigt` and
/// `prevs` are required; `cty` and `kid` must be strings where present and
/// not `null`; `jwk` must be a JSON Web Key where present and not `null`.
pub open spec fn header_of(json: Seq<u8>) -> Option<HeaderView> {
    let alg = json_text_member(json, "alg"@);
    let ver = json_uint_member(json, "ver"@);
    let sigt = json_int_member(json, "sigt"@);
    let prevs = json_text_list_member(json, "prevs"@);
    let cty = json_text_member(json, "cty"@);
    let kid = json_text_member(json, "kid"@);
    let jwk = if has_member(json, "jwk"@) {
        json_member(json, "jwk"@)
    } else {
        None
    };
    if alg is None || ver is None || sigt is None || prevs is None {
        None
    } else if has_member(json, "cty"@) && cty is None {
        None
    } else if has_member(json, "kid"@) && kid is None {
        None
    } else if jwk is Some && jwk_summary(jwk.unwrap()) is None {
        None
    } else {
        Some(
            HeaderView {
                alg: alg.unwrap(),
                cty,
                kid,
                jwk,
                ver: ver.unwrap(),
                sigt: sigt.unwrap(),
                prevs: prevs.unwrap(),
            },
        )
    }
}

/// The whitelisted algorithm that `name` names.
pub open spec fn algo_named(name: Seq<char>) -> Option<SignAlgo> {
    if name == "ES256"@ {
        Some(SignAlgo::ES256)
    } else if name == "ES384"@ {
        Some(SignAlgo::ES384)
    } else if name == "ES512"@ {
        Some(SignAlgo::ES512)
    } else if name == "PS256"@ {
        Some(SignAlgo::PS256)
    } else if name == "PS384"@ {
        Some(SignAlgo::PS384)
    } else if name == "PS512"@ {
        Some(SignAlgo::PS512)
    } else {
        None
    }
}

/// The embedded key and the signing key id: the key's own `kid` first, then
/// the header's.
pub open spec fn resolve_key(h: HeaderView) -> Result<(Option<Seq<u8>>, Seq<char>), ParseFailure> {
    match h.jwk {
        Some(j) => match key_id_of(j) {
            Some(k) => Ok((Some(j), k)),
            None => match h.kid {
                Some(k) => Ok((Some(j), k)),
                None => Err(ParseFailure::MissingKeyId),
            },
        },
        None => match h.kid {
            Some(k) => Ok((None, k)),
            None => Err(ParseFailure::MissingKeyOrKeyId),
        },
    }
}

/// The parent ids that the hex texts `prevs` stand for, each of 32 bytes.
pub open spec fn parent_ids(prevs: Seq<Seq<char>>) -> Option<Seq<Seq<u8>>>
    decreases prevs.len(),
{
    if prevs.len() == 0 {
        Some(Seq::<Seq<u8>>::empty())
    } else {
        match (
            parent_ids(prevs.drop_last()),
            lower_hex_decoded(vstd::utf8::encode_utf8(prevs.last())),
        ) {
            (Some(ps), Some(h)) => if h.len() == 32 {
                Some(ps.push(h))
            } else {
                None
            },
            _ => None,
        }
    }
}

pub struct TransactionView {
    pub id: Seq<u8>,
    pub data: Seq<u8>,
    pub prevs: Seq<Seq<u8>>,
    pub payload: Seq<u8>,
    pub payload_type: Seq<char>,
    pub version: u64,
    pub key: Option<Seq<u8>>,
    pub key_id: Seq<char>,
    pub sign_at: i64,
    pub sign_algo: SignAlgo,
}

/// The transaction that the bytes `data` carry, given its decoded header and
/// payload: payload, algorithm, payload type, key and parents are checked in
/// that order, and the id is the digest of `data`.
pub open spec fn complete(data: Seq<u8>, h: HeaderView, payload: Seq<u8>) -> Result<TransactionView, ParseFailure> {
    match lower_hex_decoded(payload) {
        None => Err(ParseFailure::BadHexPayload),
        Some(p) => if p.len() != 32 {
            Err(ParseFailure::BadHexPayload)
        } else {
            match algo_named(h.alg) {
                None => Err(ParseFailure::UnsupportedAlgorithm),
                Some(a) => match h.cty {
                    None => Err(ParseFailure::MissingPayloadType),
                    Some(c) => if c.len() == 0 {
                        Err(ParseFailure::MissingPayloadType)
                    } else {
                        match resolve_key(h) {
                            Err(e) => Err(e),
                            Ok((key, kid)) => match parent_ids(h.prevs) {
                                None => Err(ParseFailure::BadParentHash),
                                Some(ps) => Ok(
                                    TransactionView {
                                        id: sha256_of(data),
                                        data,
                                        prevs: ps,
                                        payload: p,
                                        payload_type: c,
                                        version: h.ver,
                                        key,
                                        key_id: kid,
                                        sign_at: h.sigt,
                                        sign_algo: a,
                                    },
                                ),
                            },
                        }
                    }
                },
            }
        }
    }
}

/// The index of the first `.` at or after `i`, or the length.
pub open spec fn dot_from(s: Seq<u8>, i: int) -> int
    decreases s.len() - i,
{
    if i < 0 || i >= s.len() {
        s.len() as int
    } else if s[i] == 46 {
        i
    } else {
        dot_from(s, i + 1)
    }
}

/// The three segments of a compact JWS: exactly two `.` separators.
pub open spec fn compact_parts(s: Seq<u8>) -> Option<(Seq<u8>, Seq<u8>, Seq<u8>)> {
    let d1 = dot_from(s, 0);
    let d2 = dot_from(s, d1 + 1);
    if d1 >= s.len() || d2 >= s.len() || dot_from(s, d2 + 1) < s.len() {
        None
    } else {
        Some((s.subrange(0, d1), s.subrange(d1 + 1, d2), s.subrange(d2 + 1, s.len() as int)))
    }
}

/// What the signature covers: the header and payload segments with their `.`.
pub open spec fn signing_input(s: Seq<u8>) -> Seq<u8> {
    s.subrange(0, dot_from(s, dot_from(s, 0) + 1))
}

/// The transaction that the compact JWS bytes `data` carry, without checking
/// the signature.
pub open spec fn decode(data: Seq<u8>) -> Result<TransactionView, ParseFailure> {
    match compact_parts(data) {
        None => Err(ParseFailure::BadBase64),
        Some((h64, p64, _)) => match base64url_decoded(h64) {
            None => Err(ParseFailure::BadBase64),
            Some(hj) => match header_of(hj) {
                None => Err(ParseFailure::BadJson),
                Some(h) => match base64url_decoded(p64) {
                    None => Err(ParseFailure::BadBase64),
                    Some(p) => complete(data, h, p),
                },
            },
        },
    }
}

/// Whether the key with JSON text `key` signed `input` with `sig` under `a`:
/// RSA keys through RSA-PSS (PS256, PS384, PS512 only), elliptic-curve keys
/// through ES256 on P-256 only.
pub open spec fn check_with_key(key: Seq<u8>, a: SignAlgo, input: Seq<u8>, sig: Seq<u8>) -> Result<(), ParseFailure> {
    match family_of(key) {
        KeyFamily::Rsa => if !is_pss(a) {
            Err(ParseFailure::UnsupportedAlgorithm)
        } else if rsa_signature_valid(key, a, input, sig) {
            Ok(())
        } else {
            Err(ParseFailure::SignatureInvalid)
        },
        KeyFamily::OctetKey => Err(ParseFailure::UnsupportedAlgorithm),
        KeyFamily::EllipticCurve => if a != SignAlgo::ES256 {
            Err(ParseFailure::UnsupportedAlgorithm)
        } else {
            match jwk_ec_coordinates(key) {
                None => Err(ParseFailure::UnsupportedKeyAlgorithm),
                Some((x, y)) => if x.len() == 32 && y.len() == 32 && p256_signature_valid(
                    x,
                    y,
                    input,
                    sig,
                ) {
                    Ok(())
                } else {
                    Err(ParseFailure::SignatureInvalid)
                },
            }
        },
        KeyFamily::Unsupported => Err(ParseFailure::UnsupportedKeyAlgorithm),
    }
}

/// The outcome of checking the signature of `data` with the embedded key, or
/// else with the key of `keys` that the key id names; a key of unsupported
/// family is refused before the algorithm or the signature is looked at.
pub open spec fn signature_check(keys: Seq<(Seq<char>, Seq<u8>)>, data: Seq<u8>) -> Result<(), ParseFailure> {
    match compact_parts(data) {
        None => Err(ParseFailure::BadBase64),
        Some((h64, _, s64)) => match base64url_decoded(h64) {
            None => Err(ParseFailure::BadBase64),
            Some(hj) => match header_of(hj) {
                None => Err(ParseFailure::BadJson),
                Some(h) => match resolve_key(h) {
                    Err(e) => Err(e),
                    Ok((embedded, kid)) => {
                        let key = match embedded {
                            Some(k) => Some(k),
                            None => lookup(keys, kid),
                        };
                        match key {
                            None => Err(ParseFailure::UnknownKey(kid)),
                            Some(k) => if family_of(k) == KeyFamily::Unsupported {
                                Err(ParseFailure::UnsupportedKeyAlgorithm)
                            } else {
                                match algo_named(h.alg) {
                                    None => Err(ParseFailure::UnsupportedAlgorithm),
                                    Some(a) => match base64url_decoded(s64) {
                                        None => Err(ParseFailure::BadBase64),
                                        Some(sig) => check_with_key(k, a, signing_input(data), sig),
                                    },
                                }
                            },
                        }
                    },
                },
            },
        },
    }
}

/// The transaction that a verifying parse of `data` gives.
pub open spec fn verified_decode(keys: Seq<(Seq<char>, Seq<u8>)>, data: Seq<u8>) -> Result<TransactionView, ParseFailure> {
    match signature_check(keys, data) {
        Err(e) => Err(e),
        Ok(()) => decode(data),
    }
}

/// A transaction of the graph: a signed compact JWS and what its header says.
pub struct Transaction {
    pub id: crate::hash::Hash,
    pub data: Vec<u8>,
    pub prevs: Vec<crate::hash::Hash>,
    pub payload: crate::hash::Hash,
    pub payload_type: String,
    pub version: u64,
    pub key: Option<PublicKey>,
    pub key_id: String,
    pub sign_at: i64,
    pub sign_algo: SignAlgo,
}

pub open spec fn hashes_view(v: Seq<crate::hash::Hash>) -> Seq<Seq<u8>> {
    v.map_values(|h: crate::hash::Hash| h@)
}

impl View for Transaction {
    type V = TransactionView;

    open spec fn view(&self) -> TransactionView {
        TransactionView {
            id: self.id@,
            data: self.data@,
            prevs: hashes_view(self.prevs@),
            payload: self.payload@,
            payload_type: self.payload_type@,
            version: self.version,
            key: key_view(self.key),
            key_id: self.key_id@,
            sign_at: self.sign_at,
            sign_algo: self.sign_algo,
        }
    }
}

pub open spec fn outcome(r: Result<Transaction, ParseError>) -> Result<TransactionView, ParseFailure> {
    match r {
        Ok(t) => Ok(t@),
        Err(e) => Err(e@),
    }
}

impl Default for Transaction {
    /// An empty root transaction: zero hashes, no data, no parents, no key.
    fn default() -> (r: Transaction)
        ensures
            r@.id == Seq::new(32, |i: int| 0u8),
            r@.payload == Seq::new(32, |i: int| 0u8),
            r@.data.len() == 0,
            r@.prevs.len() == 0,
            r@.payload_type.len() == 0,
            r@.version == 0,
            r@.key is None,
            r@.key_id.len() == 0,
            r@.sign_at == 0,
            r@.sign_algo == SignAlgo::ES256,
    {
        let r = Transaction {
            id: crate::hash::Hash::default(),
            data: Vec::new(),
            prevs: Vec::new(),
            payload: crate::hash::Hash::default(),
            payload_type: String::new(),
            version: 0,
            key: None,
            key_id: String::new(),
            sign_at: 0,
            sign_algo: SignAlgo::ES256,
        };
        assert(hashes_view(r.prevs@) =~= Seq::<Seq<u8>>::empty());
        r
    }
}

/// Relies on `std::str::from_utf8`: the text that valid UTF-8 bytes encode.
#[verifier::external_body]
pub(crate) fn utf8_text(bytes: &[u8]) -> (r: Option<&str>)
    ensures
        match r {
            Some(s) => vstd::utf8::valid_utf8(bytes@) && s@ == vstd::utf8::decode_utf8(bytes@),
            None => !vstd::utf8::valid_utf8(bytes@),
        },
{
    std::str::from_utf8(bytes).ok()
}

/// Copies `s[from..to]`.
fn copy_range(s: &[u8], from: usize, to: usize) -> (r: Vec<u8>)
    requires
        from <= to <= s@.len(),
    ensures
        r@ == s@.subrange(from as int, to as int),
{
    let mut out: Vec<u8> = Vec::new();
    let mut i: usize = from;
    while i < to
        invariant
            from <= i <= to <= s@.len(),
            out@ == s@.subrange(from as int, i as int),
        decreases to - i,
    {
        out.push(s[i]);
        i = i + 1;
        assert(out@ =~= s@.subrange(from as int, i as int));
    }
    out
}

/// The index of the first `.` at or after `from`, or the length.
fn find_dot(s: &[u8], from: usize) -> (r: usize)
    ensures
        r == dot_from(s@, from as int),
        r <= s@.len(),
        from <= s@.len() ==> from <= r,
{
    let mut i: usize = from;
    if i >= s.len() {
        return s.len();
    }
    while i < s.len()
        invariant
            from <= i <= s@.len(),
            dot_from(s@, from as int) == dot_from(s@, i as int),
        decreases s@.len() - i,
    {
        if s[i] == 46 {
            return i;
        }
        i = i + 1;
    }
    s.len()
}

/// Whether a member's JSON text is there and is not `null`.
fn is_present(member: &Option<Vec<u8>>) -> (r: bool)
    ensures
        r == (member is Some && member.unwrap()@ != null_text()),
{
    match member {
        None => false,
        Some(m) => {
            if m.len() != 4 {
                assert(m@.len() != null_text().len());
                true
            } else if m[0] == 110 && m[1] == 117 && m[2] == 108 && m[3] == 108 {
                assert(m@ =~= null_text());
                false
            } else {
                true
            }
        },
    }
}

/// Reads the header fields from the header's JSON text.
pub fn read_header(json: &[u8]) -> (r: Result<JoseHeader, ParseError>)
    ensures
        match r {
            Ok(h) => header_of(json@) == Some(h@),
            Err(e) => header_of(json@) is None && e@ == ParseFailure::BadJson,
        },
{
    let algorithm = json_text(json, "alg");
    let version = json_uint(json, "ver");
    let sign_time = json_int(json, "sigt");
    let previous = json_text_list(json, "prevs");
    let content_type = json_text(json, "cty");
    let key_id = json_text(json, "kid");
    let cty_member = json_raw(json, "cty");
    let kid_member = json_raw(json, "kid");
    let jwk_member = json_raw(json, "jwk");
    if algorithm.is_none() || version.is_none() || sign_time.is_none() || previous.is_none() {
        return Err(ParseError::BadJson);
    }
    if is_present(&cty_member) && content_type.is_none() {
        return Err(ParseError::BadJson);
    }
    if is_present(&kid_member) && key_id.is_none() {
        return Err(ParseError::BadJson);
    }
    let web_key = if is_present(&jwk_member) {
        match PublicKey::from_jwk(jwk_member.unwrap()) {
            Some(k) => Some(k),
            None => {
                return Err(ParseError::BadJson);
            },
        }
    } else {
        None
    };
    Ok(
        JoseHeader {
            algorithm: algorithm.unwrap(),
            content_type,
            key_id,
            web_key,
            version: version.unwrap(),
            sign_time: sign_time.unwrap(),
            previous: previous.unwrap(),
        },
    )
}

/// The whitelisted algorithm named `name`, if any.
pub fn algorithm_named(name: &String) -> (r: Option<SignAlgo>)
    ensures
        r == algo_named(name@),
{
    if name.eq(&"ES256".to_owned()) {
        Some(SignAlgo::ES256)
    } else if name.eq(&"ES384".to_owned()) {
        Some(SignAlgo::ES384)
    } else if name.eq(&"ES512".to_owned()) {
        Some(SignAlgo::ES512)
    } else if name.eq(&"PS256".to_owned()) {
        Some(SignAlgo::PS256)
    } else if name.eq(&"PS384".to_owned()) {
        Some(SignAlgo::PS384)
    } else if name.eq(&"PS512".to_owned()) {
        Some(SignAlgo::PS512)
    } else {
        None
    }
}

/// The embedded key, if any, and the id of the signing key.
pub fn parse_key(header: &JoseHeader) -> (r: Result<(Option<PublicKey>, String), ParseError>)
    ensures
        match (r, resolve_key(header@)) {
            (Ok((k, id)), Ok((kv, idv))) => key_view(k) == kv && id@ == idv,
            (Err(e), Err(ev)) => e@ == ev,
            _ => false,
        },
{
    match &header.web_key {
        Some(key) => {
            let key_id = match key.key_id() {
                Some(id) => id,
                None => match &header.key_id {
                    Some(id) => id.clone(),
                    None => {
                        return Err(ParseError::MissingKeyId);
                    },
                },
            };
            Ok((Some(key.duplicate()), key_id))
        },
        None => match &header.key_id {
            Some(id) => Ok((None, id.clone())),
            None => Err(ParseError::MissingKeyOrKeyId),
        },
    }
}

/// Builds the transaction that `data` carries from its decoded header and
/// payload.
pub fn parse_transaction(data: &[u8], header: &JoseHeader, payload: &[u8]) -> (r: Result<Transaction, ParseError>)
    ensures
        outcome(r) == complete(data@, header@, payload@),
{
    let payload = match crate::hash::Hash::parse_hex(payload) {
        Ok(h) => h,
        Err(_) => {
            return Err(ParseError::BadHexPayload);
        },
    };
    let sign_algo = match algorithm_named(&header.algorithm) {
        Some(a) => a,
        None => {
            return Err(ParseError::UnsupportedAlgorithm);
        },
    };
    let payload_type = match &header.content_type {
        Some(c) => {
            if c.as_str().is_empty() {
                return Err(ParseError::MissingPayloadType);
            }
            c.clone()
        },
        None => {
            return Err(ParseError::MissingPayloadType);
        },
    };
    let (key, key_id) = match parse_key(header) {
        Ok(pair) => pair,
        Err(e) => {
            return Err(e);
        },
    };
    let prevs = match parent_hashes(&header.previous) {
        Some(p) => p,
        None => {
            return Err(ParseError::BadParentHash);
        },
    };
    let id = crate::hash::Hash::new(data);
    let data = copy_slice(data);
    Ok(
        Transaction {
            id,
            data,
            prevs,
            payload,
            payload_type,
            version: header.version,
            key,
            key_id,
            sign_at: header.sign_time,
            sign_algo,
        },
    )
}

/// The parent ids that the hex texts `previous` stand for.
pub fn parent_hashes(previous: &Vec<String>) -> (r: Option<Vec<crate::hash::Hash>>)
    ensures
        match r {
            Some(v) => parent_ids(texts_view(previous@)) == Some(hashes_view(v@)),
            None => parent_ids(texts_view(previous@)) is None,
        },
{
    let mut prevs: Vec<crate::hash::Hash> = Vec::new();
    let mut i: usize = 0;
    while i < previous.len()
        invariant
            0 <= i <= previous@.len(),
            parent_ids(texts_view(previous@).subrange(0, i as int)) == Some(hashes_view(prevs@)),
        decreases previous@.len() - i,
    {
        let ghost before = prevs@;
        let ghost texts = texts_view(previous@);
        assert(texts.subrange(0, i + 1).drop_last() =~= texts.subrange(0, i as int));
        assert(texts.subrange(0, i + 1).last() == previous@[i as int]@);
        let text = previous[i].as_str();
        match crate::hash::Hash::parse_hex(text.as_bytes()) {
            Ok(h) => {
                prevs.push(h);
                assert(hashes_view(prevs@) =~= hashes_view(before).push(h@));
            },
            Err(_) => {
                proof {
                    assert(text.spec_bytes() == vstd::utf8::encode_utf8(texts.subrange(0, i + 1).last()));
                    assert(parent_ids(texts.subrange(0, i + 1)) is None);
                    lemma_parent_ids_prefix(texts, i as int + 1);
                }
                return None;
            },
        }
        i = i + 1;
    }
    assert(texts_view(previous@).subrange(0, previous@.len() as int) =~= texts_view(previous@));
    Some(prevs)
}

/// A prefix whose parents do not all decode makes the whole list fail.
proof fn lemma_parent_ids_prefix(prevs: Seq<Seq<char>>, k: int)
    requires
        0 <= k <= prevs.len(),
        parent_ids(prevs.subrange(0, k)) is None,
    ensures
        parent_ids(prevs) is None,
    decreases prevs.len() - k,
{
    if k < prevs.len() {
        assert(prevs.subrange(0, k + 1).drop_last() =~= prevs.subrange(0, k));
        lemma_parent_ids_prefix(prevs, k + 1);
    } else {
        assert(prevs.subrange(0, k) =~= prevs);
    }
}

/// Copies a byte slice.
fn copy_slice(s: &[u8]) -> (r: Vec<u8>)
    ensures
        r@ == s@,
{
    let r = copy_range(s, 0, s.len());
    assert(s@.subrange(0, s@.len() as int) =~= s@);
    r
}

impl Transaction {
    /// A copy of the transaction.
    pub fn duplicate(&self) -> (r: Transaction)
        ensures
            r@ == self@,
    {
        let mut prevs: Vec<crate::hash::Hash> = Vec::new();
        let mut i: usize = 0;
        while i < self.prevs.len()
            invariant
                0 <= i <= self.prevs@.len(),
                hashes_view(prevs@) == hashes_view(self.prevs@).subrange(0, i as int),
            decreases self.prevs@.len() - i,
        {
            let ghost before = prevs@;
            let h = self.prevs[i].duplicate();
            prevs.push(h);
            assert(hashes_view(prevs@) =~= hashes_view(before).push(h@));
            i = i + 1;
            assert(hashes_view(prevs@) =~= hashes_view(self.prevs@).subrange(0, i as int));
        }
        assert(hashes_view(self.prevs@).subrange(0, i as int) =~= hashes_view(self.prevs@));
        let key = match &self.key {
            Some(k) => Some(k.duplicate()),
            None => None,
        };
        Transaction {
            id: self.id.duplicate(),
            data: copy_slice(self.data.as_slice()),
            prevs,
            payload: self.payload.duplicate(),
            payload_type: self.payload_type.clone(),
            version: self.version,
            key,
            key_id: self.key_id.clone(),
            sign_at: self.sign_at,
            sign_algo: self.sign_algo,
        }
    }

    /// A transaction is a root when it has no parents.
    pub fn is_root(&self) -> (r: bool)
        ensures
            r == (self@.prevs.len() == 0),
    {
        self.prevs.len() == 0
    }

    /// Decodes the compact JWS bytes `data` without checking the signature.
    pub fn decode(data: &[u8]) -> (r: Result<Transaction, ParseError>)
        ensures
            outcome(r) == decode(data@),
    {
        let d1 = find_dot(data, 0);
        if d1 >= data.len() {
            return Err(ParseError::BadBase64);
        }
        let d2 = find_dot(data, d1 + 1);
        if d2 >= data.len() {
            return Err(ParseError::BadBase64);
        }
        let d3 = find_dot(data, d2 + 1);
        if d3 < data.len() {
            return Err(ParseError::BadBase64);
        }
        let header_json = match base64url_decode(copy_range(data, 0, d1).as_slice()) {
            Some(j) => j,
            None => {
                return Err(ParseError::BadBase64);
            },
        };
        let header = match read_header(header_json.as_slice()) {
            Ok(h) => h,
            Err(e) => {
                return Err(e);
            },
        };
        let payload = match base64url_decode(copy_range(data, d1 + 1, d2).as_slice()) {
            Some(p) => p,
            None => {
                return Err(ParseError::BadBase64);
            },
        };
        parse_transaction(data, &header, payload.as_slice())
    }

    /// Parses a transaction from its compact JWS text without checking the
    /// signature.
    pub fn parse_unsafe(raw: &str) -> (r: Result<Transaction, ParseError>)
        ensures
            outcome(r) == decode(raw.spec_bytes()),
    {
        Transaction::decode(raw.as_bytes())
    }

    /// Parses a transaction from its compact JWS text and checks its signature
    /// with the embedded key, or else with the stored key that its key id names.
    pub fn parse(store: &KeyStore, raw: &str) -> (r: Result<Transaction, ParseError>)
        ensures
            outcome(r) == verified_decode(store@, raw.spec_bytes()),
    {
        let data = raw.as_bytes();
        match check_signature(store, data) {
            Ok(()) => Transaction::decode(data),
            Err(e) => Err(e),
        }
    }
}

/// Checks the signature of the compact JWS bytes `data`.
pub fn check_signature(store: &KeyStore, data: &[u8]) -> (r: Result<(), ParseError>)
    ensures
        match (r, signature_check(store@, data@)) {
            (Ok(()), Ok(())) => true,
            (Err(e), Err(ev)) => e@ == ev,
            _ => false,
        },
{
    let d1 = find_dot(data, 0);
    if d1 >= data.len() {
        return Err(ParseError::BadBase64);
    }
    let d2 = find_dot(data, d1 + 1);
    if d2 >= data.len() {
        return Err(ParseError::BadBase64);
    }
    let d3 = find_dot(data, d2 + 1);
    if d3 < data.len() {
        return Err(ParseError::BadBase64);
    }
    let header_json = match base64url_decode(copy_range(data, 0, d1).as_slice()) {
        Some(j) => j,
        None => {
            return Err(ParseError::BadBase64);
        },
    };
    let header = match read_header(header_json.as_slice()) {
        Ok(h) => h,
        Err(e) => {
            return Err(e);
        },
    };
    let (embedded, key_id) = match parse_key(&header) {
        Ok(pair) => pair,
        Err(e) => {
            return Err(e);
        },
    };
    let key = match embedded {
        Some(k) => k,
        None => match store.get(key_id.as_str()) {
            Some(k) => k,
            None => {
                return Err(ParseError::UnknownKey(key_id));
            },
        },
    };
    if key.family() == KeyFamily::Unsupported {
        return Err(ParseError::UnsupportedKeyAlgorithm);
    }
    let algo = match algorithm_named(&header.algorithm) {
        Some(a) => a,
        None => {
            return Err(ParseError::UnsupportedAlgorithm);
        },
    };
    let signature = match base64url_decode(copy_range(data, d2 + 1, data.len()).as_slice()) {
        Some(s) => s,
        None => {
            return Err(ParseError::BadBase64);
        },
    };
    let input = copy_range(data, 0, d2);
    verify_with_key(&key, algo, input.as_slice(), signature.as_slice())
}

/// Checks `sig` over `input` with `key` under `algo`.
pub fn verify_with_key(key: &PublicKey, algo: SignAlgo, input: &[u8], sig: &[u8]) -> (r: Result<(), ParseError>)
    ensures
        match (r, check_with_key(key@, algo, input@, sig@)) {
            (Ok(()), Ok(())) => true,
            (Err(e), Err(ev)) => e@ == ev,
            _ => false,
        },
{
    match key.family() {
        KeyFamily::Rsa => {
            if !(algo == SignAlgo::PS256 || algo == SignAlgo::PS384 || algo == SignAlgo::PS512) {
                return Err(ParseError::UnsupportedAlgorithm);
            }
            if verify_rsa(key.jwk().as_slice(), algo, input, sig) {
                Ok(())
            } else {
                Err(ParseError::SignatureInvalid)
            }
        },
        KeyFamily::OctetKey => Err(ParseError::UnsupportedAlgorithm),
        KeyFamily::EllipticCurve => {
            if algo != SignAlgo::ES256 {
                return Err(ParseError::UnsupportedAlgorithm);
            }
            match ec_coordinates(key.jwk().as_slice()) {
                None => Err(ParseError::UnsupportedKeyAlgorithm),
                Some((x, y)) => {
                    if x.len() == 32 && y.len() == 32 && verify_p256(
                        x.as_slice(),
                        y.as_slice(),
                        input,
                        sig,
                    ) {
                        Ok(())
                    } else {
                        Err(ParseError::SignatureInvalid)
                    }
                },
            }
        },
        KeyFamily::Unsupported => Err(ParseError::UnsupportedKeyAlgorithm),
    }
}

/// An accepted transaction's id is the SHA-256 digest of its bytes, whether
/// it was accepted with or without a signature check.
pub proof fn lemma_content_addressing(keys: Seq<(Seq<char>, Seq<u8>)>, data: Seq<u8>)
    ensures
        decode(data) is Ok ==> decode(data)->Ok_0.id == sha256_of(decode(data)->Ok_0.data)
            && decode(data)->Ok_0.data == data,
        verified_decode(keys, data) is Ok ==> verified_decode(keys, data)->Ok_0.id == sha256_of(
            verified_decode(keys, data)->Ok_0.data,
        ),
{
}

/// Parsing the bytes of an accepted transaction again gives the same
/// transaction, id and derived fields included.
pub proof fn lemma_round_trip(keys: Seq<(Seq<char>, Seq<u8>)>, data: Seq<u8>)
    ensures
        decode(data) is Ok ==> decode(decode(data)->Ok_0.data) == decode(data),
        verified_decode(keys, data) is Ok ==> decode(verified_decode(keys, data)->Ok_0.data)
            == verified_decode(keys, data),
{
}

/// Only the six whitelisted algorithms are accepted.
pub proof fn lemma_algorithm_whitelist(data: Seq<u8>)
    ensures
        decode(data) is Ok ==> ({
            let hj = base64url_decoded(compact_parts(data)->Some_0.0)->Some_0;
            let alg = header_of(hj)->Some_0.alg;
            alg == "ES256"@ || alg == "ES384"@ || alg == "ES512"@ || alg == "PS256"@ || alg
                == "PS384"@ || alg == "PS512"@
        }),
{
}

} // verus!
