//! The JOSE pieces that the transaction codec reads: base64url segments, the
//! members of a JSON header, JSON Web Keys, and signature checks.

use biscuit::jwa::SignatureAlgorithm as A;
use biscuit::jwk::AlgorithmParameters as P;
use ecdsa::signature::Verifier;
use vstd::prelude::*;

verus! {

/// The bytes that a base64url segment (no padding) stands for, if it is one.
pub uninterp spec fn base64url_decoded(s: Seq<u8>) -> Option<Seq<u8>>;

/// The string member `key` of the JSON object `json`, if it has one.
pub uninterp spec fn json_text_member(json: Seq<u8>, key: Seq<char>) -> Option<Seq<char>>;

/// The unsigned integer member `key` of the JSON object `json`, if it has one.
pub uninterp spec fn json_uint_member(json: Seq<u8>, key: Seq<char>) -> Option<u64>;

/// The signed integer member `key` of the JSON object `json`, if it has one.
pub uninterp spec fn json_int_member(json: Seq<u8>, key: Seq<char>) -> Option<i64>;

/// The length of the member `key` of the JSON object `json`, if it is an array.
pub uninterp spec fn json_array_len_member(json: Seq<u8>, key: Seq<char>) -> Option<usize>;

/// Item `i` of the array member `key` of the JSON object `json`, if it is a string.
pub uninterp spec fn json_text_item_member(json: Seq<u8>, key: Seq<char>, i: usize) -> Option<Seq<char>>;

/// The member `key` of the JSON object `json`, if it is an array of strings.
pub open spec fn json_text_list_member(json: Seq<u8>, key: Seq<char>) -> Option<Seq<Seq<char>>> {
    match json_array_len_member(json, key) {
        None => None,
        Some(n) => if forall|i: usize| i < n ==> (#[trigger] json_text_item_member(json, key, i)) is Some {
            Some(Seq::new(n as nat, |i: int| json_text_item_member(json, key, i as usize).unwrap()))
        } else {
            None
        },
    }
}

/// The member `key` of the JSON object `json`, whatever its kind, as JSON text.
pub uninterp spec fn json_member(json: Seq<u8>, key: Seq<char>) -> Option<Seq<u8>>;

/// The key id and the algorithm family of the JSON Web Key `jwk`, if it is one.
pub uninterp spec fn jwk_summary(jwk: Seq<u8>) -> Option<(Option<Seq<char>>, KeyFamily)>;

/// The affine coordinates `(x, y)` of the elliptic-curve JSON Web Key `jwk`.
pub uninterp spec fn jwk_ec_coordinates(jwk: Seq<u8>) -> Option<(Seq<u8>, Seq<u8>)>;

/// Whether `sig` is a valid RSA-PSS signature of `input` under the RSA key
/// `jwk`, with the hash that `algo` names.
pub uninterp spec fn rsa_signature_valid(jwk: Seq<u8>, algo: SignAlgo, input: Seq<u8>, sig: Seq<u8>) -> bool;

/// Whether `sig` (`r || s`) is a valid ECDSA P-256 / SHA-256 signature of
/// `input` under the public point `(x, y)`.
pub uninterp spec fn p256_signature_valid(x: Seq<u8>, y: Seq<u8>, input: Seq<u8>, sig: Seq<u8>) -> bool;

pub open spec fn text_view(o: Option<String>) -> Option<Seq<char>> {
    match o {
        Some(s) => Some(s@),
        None => None,
    }
}

pub open spec fn texts_view(v: Seq<String>) -> Seq<Seq<char>> {
    v.map_values(|s: String| s@)
}

pub open spec fn bytes_view(o: Option<Vec<u8>>) -> Option<Seq<u8>> {
    match o {
        Some(v) => Some(v@),
        None => None,
    }
}

/// Relies on biscuit's `CompactPart::from_base64` for `Vec<u8>`: the bytes of
/// one base64url (unpadded) segment of a compact JWS.
#[verifier::external_body]
pub(crate) fn base64url_decode(s: &[u8]) -> (r: Option<Vec<u8>>)
    ensures
        bytes_view(r) == base64url_decoded(s@),
{
    <Vec<u8> as biscuit::CompactPart>::from_base64(&s).ok()
}

/// Relies on serde_json's `from_slice`, `Value::get` and `Value::as_str`.
#[verifier::external_body]
pub(crate) fn json_text(json: &[u8], key: &str) -> (r: Option<String>)
    ensures
        text_view(r) == json_text_member(json@, key@),
{
    serde_json::from_slice::<serde_json::Value>(json).ok()?.get(key)?.as_str().map(String::from)
}

/// Relies on serde_json's `from_slice`, `Value::get` and `Value::as_u64`.
#[verifier::external_body]
pub(crate) fn json_uint(json: &[u8], key: &str) -> (r: Option<u64>)
    ensures
        r == json_uint_member(json@, key@),
{
    serde_json::from_slice::<serde_json::Value>(json).ok()?.get(key)?.as_u64()
}

/// Relies on serde_json's `from_slice`, `Value::get` and `Value::as_i64`.
#[verifier::external_body]
pub(crate) fn json_int(json: &[u8], key: &str) -> (r: Option<i64>)
    ensures
        r == json_int_member(json@, key@),
{
    serde_json::from_slice::<serde_json::Value>(json).ok()?.get(key)?.as_i64()
}

/// Relies on serde_json's `from_slice`, `Value::get` and `Value::as_array`:
/// the array's length.
#[verifier::external_body]
fn json_array_len(json: &[u8], key: &str) -> (r: Option<usize>)
    ensures
        r == json_array_len_member(json@, key@),
{
    Some(serde_json::from_slice::<serde_json::Value>(json).ok()?.get(key)?.as_array()?.len())
}

/// Relies on serde_json's `from_slice`, `Value::get`, `Value::as_array` and
/// `Value::as_str`: item `i` of the array.
#[verifier::external_body]
fn json_text_item(json: &[u8], key: &str, i: usize) -> (r: Option<String>)
    ensures
        text_view(r) == json_text_item_member(json@, key@, i),
{
    let value = serde_json::from_slice::<serde_json::Value>(json).ok()?;
    value.get(key)?.as_array()?.get(i)?.as_str().map(String::from)
}

/// The member `key` of the JSON object `json`, if it is an array of strings.
pub fn json_text_list(json: &[u8], key: &str) -> (r: Option<Vec<String>>)
    ensures
        match r {
            Some(v) => json_text_list_member(json@, key@) == Some(texts_view(v@)),
            None => json_text_list_member(json@, key@) is None,
        },
{
    let n = match json_array_len(json, key) {
        Some(n) => n,
        None => {
            return None;
        },
    };
    let mut out: Vec<String> = Vec::new();
    let mut i: usize = 0;
    while i < n
        invariant
            json_array_len_member(json@, key@) == Some(n),
            0 <= i <= n,
            out@.len() == i,
            forall|k: int| 0 <= k < i ==> json_text_item_member(json@, key@, k as usize) == Some(#[trigger] out@[k]@),
        decreases n - i,
    {
        match json_text_item(json, key, i) {
            Some(s) => {
                out.push(s);
            },
            None => {
                return None;
            },
        }
        i = i + 1;
    }
    assert forall|k: usize| k < n implies (#[trigger] json_text_item_member(json@, key@, k)) is Some by {
        assert(json_text_item_member(json@, key@, k as int as usize) == Some(out@[k as int]@));
    }
    assert(texts_view(out@) =~= Seq::new(n as nat, |k: int| json_text_item_member(json@, key@, k as usize).unwrap()));
    Some(out)
}

/// Relies on serde_json's `from_slice`, `Value::get` and `to_vec`: the member
/// re-encoded as JSON text.
#[verifier::external_body]
pub(crate) fn json_raw(json: &[u8], key: &str) -> (r: Option<Vec<u8>>)
    ensures
        bytes_view(r) == json_member(json@, key@),
{
    let value = serde_json::from_slice::<serde_json::Value>(json).ok()?;
    serde_json::to_vec(value.get(key)?).ok()
}

/// The algorithm family of a JSON Web Key.
#[derive(Debug, Clone, Copy, PartialEq, Eq, Structural)]
pub enum KeyFamily {
    Rsa,
    EllipticCurve,
    OctetKey,
    Unsupported,
}

/// The signature algorithms that a transaction may use.
#[derive(Debug, Clone, Copy, PartialEq, Eq, Structural)]
pub enum SignAlgo {
    ES256,
    ES384,
    ES512,
    PS256,
    PS384,
    PS512,
}

/// Relies on biscuit's `JWK` deserialisation through serde_json's `from_slice`:
/// the key's `kid` and the variant of its algorithm parameters.
#[verifier::external_body]
fn decode_jwk(jwk: &[u8]) -> (r: Option<(Option<String>, KeyFamily)>)
    ensures
        match r {
            Some((kid, family)) => jwk_summary(jwk@) == Some((text_view(kid), family)),
            None => jwk_summary(jwk@) is None,
        },
{
    let key = serde_json::from_slice::<biscuit::jwk::JWK<biscuit::Empty>>(jwk).ok()?;
    let family = match key.algorithm {
        P::RSA(_) => KeyFamily::Rsa,
        P::EllipticCurve(_) => KeyFamily::EllipticCurve,
        P::OctetKey(_) => KeyFamily::OctetKey,
        P::OctetKeyPair(_) => KeyFamily::Unsupported,
    };
    Some((key.common.key_id, family))
}

/// Relies on biscuit's `JWK` deserialisation: the `x` and `y` coordinates of
/// an elliptic-curve key.
#[verifier::external_body]
pub(crate) fn ec_coordinates(jwk: &[u8]) -> (r: Option<(Vec<u8>, Vec<u8>)>)
    ensures
        match r {
            Some((x, y)) => jwk_ec_coordinates(jwk@) == Some((x@, y@)),
            None => jwk_ec_coordinates(jwk@) is None,
        },
{
    let key = serde_json::from_slice::<biscuit::jwk::JWK<biscuit::Empty>>(jwk).ok()?;
    match key.algorithm {
        P::EllipticCurve(p) => Some((p.x, p.y)),
        _ => None,
    }
}

/// The RSA-PSS algorithms.
pub open spec fn is_pss(a: SignAlgo) -> bool {
    a == SignAlgo::PS256 || a == SignAlgo::PS384 || a == SignAlgo::PS512
}

/// Relies on serde_json's `from_slice` for biscuit's `JWK`, biscuit's
/// `RSAKeyParameters::jws_public_key_secret` and `SignatureAlgorithm::verify`,
/// which takes an RSA secret only with a PS or RS algorithm.
#[verifier::external_body]
pub(crate) fn verify_rsa(jwk: &[u8], algo: SignAlgo, input: &[u8], sig: &[u8]) -> (r: bool)
    requires
        is_pss(algo),
    ensures
        r == rsa_signature_valid(jwk@, algo, input@, sig@),
{
    let Ok(key) = serde_json::from_slice::<biscuit::jwk::JWK<biscuit::Empty>>(jwk) else { return false };
    let P::RSA(rsa) = key.algorithm else { return false };
    let algorithm = match algo {
        SignAlgo::ES256 => A::ES256,
        SignAlgo::ES384 => A::ES384,
        SignAlgo::ES512 => A::ES512,
        SignAlgo::PS256 => A::PS256,
        SignAlgo::PS384 => A::PS384,
        SignAlgo::PS512 => A::PS512,
    };
    algorithm.verify(sig, input, &rsa.jws_public_key_secret()).is_ok()
}

/// Relies on p256's `EncodedPoint::from_affine_coordinates`, ecdsa's
/// `VerifyingKey::from_encoded_point`, `Signature::from_slice` and `verify`.
#[verifier::external_body]
pub(crate) fn verify_p256(x: &[u8], y: &[u8], input: &[u8], sig: &[u8]) -> (r: bool)
    requires
        x@.len() == 32,
        y@.len() == 32,
    ensures
        r == p256_signature_valid(x@, y@, input@, sig@),
{
    let point = p256::EncodedPoint::from_affine_coordinates(x.into(), y.into(), false);
    let Ok(key) = ecdsa::VerifyingKey::<p256::NistP256>::from_encoded_point(&point) else { return false };
    let Ok(sig) = ecdsa::Signature::<p256::NistP256>::from_slice(sig) else { return false };
    key.verify(input, &sig).is_ok()
}

/// A public JSON Web Key, kept as its JSON text, with its key id and family.
pub struct PublicKey {
    jwk: Vec<u8>,
    key_id: Option<String>,
    family: KeyFamily,
}

impl View for PublicKey {
    type V = Seq<u8>;

    closed spec fn view(&self) -> Seq<u8> {
        self.jwk@
    }
}

/// The key id of the key whose JSON text is `jwk`.
pub open spec fn key_id_of(jwk: Seq<u8>) -> Option<Seq<char>> {
    jwk_summary(jwk).unwrap().0
}

/// The family of the key whose JSON text is `jwk`.
pub open spec fn family_of(jwk: Seq<u8>) -> KeyFamily {
    jwk_summary(jwk).unwrap().1
}

impl PublicKey {
    #[verifier::type_invariant]
    spec fn inv(&self) -> bool {
        jwk_summary(self.jwk@) == Some((text_view(self.key_id), self.family))
    }

    /// Reads a JSON Web Key; `None` where the text is not one.
    pub fn from_jwk(jwk: Vec<u8>) -> (r: Option<PublicKey>)
        ensures
            match r {
                Some(k) => k@ == jwk@ && jwk_summary(jwk@) is Some,
                None => jwk_summary(jwk@) is None,
            },
    {
        match decode_jwk(jwk.as_slice()) {
            Some((key_id, family)) => Some(PublicKey { jwk, key_id, family }),
            None => None,
        }
    }

    /// The JSON text of the key.
    pub fn jwk(&self) -> (r: &Vec<u8>)
        ensures
            r@ == self@,
    {
        &self.jwk
    }

    /// The key's own `kid`, if it has one.
    pub fn key_id(&self) -> (r: Option<String>)
        ensures
            text_view(r) == key_id_of(self@),
    {
        proof {
            use_type_invariant(self);
        }
        match &self.key_id {
            Some(s) => Some(s.clone()),
            None => None,
        }
    }

    /// The key's algorithm family.
    pub fn family(&self) -> (r: KeyFamily)
        ensures
            r == family_of(self@),
    {
        proof {
            use_type_invariant(self);
        }
        self.family
    }

    /// A copy of the key.
    pub fn duplicate(&self) -> (r: PublicKey)
        ensures
            r@ == self@,
    {
        proof {
            use_type_invariant(self);
        }
        let key_id = match &self.key_id {
            Some(s) => Some(s.clone()),
            None => None,
        };
        PublicKey { jwk: self.jwk.clone(), key_id, family: self.family }
    }
}

} // verus!
