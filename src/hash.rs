//! 32-byte SHA-256 digests: construction, hex codec and comparison.

use sha2::Digest;
use vstd::prelude::*;

verus! {

/// The value of one ASCII hex digit, either case.
pub open spec fn hex_digit_value(c: u8) -> Option<u8> {
    if 0x30 <= c <= 0x39 {
        Some((c - 0x30) as u8)
    } else if 0x61 <= c <= 0x66 {
        Some((c - 0x61 + 10) as u8)
    } else if 0x41 <= c <= 0x46 {
        Some((c - 0x41 + 10) as u8)
    } else {
        None
    }
}

/// The bytes that a hex text stands for: two digits per byte, high digit first.
pub open spec fn hex_decoded(s: Seq<u8>) -> Option<Seq<u8>>
    decreases s.len(),
{
    if s.len() == 0 {
        Some(Seq::<u8>::empty())
    } else if s.len() == 1 {
        None
    } else {
        match (hex_digit_value(s[0]), hex_digit_value(s[1]), hex_decoded(s.subrange(2, s.len() as int))) {
            (Some(hi), Some(lo), Some(rest)) => Some(seq![(hi * 16 + lo) as u8] + rest),
            _ => None,
        }
    }
}

/// Some byte of `s` is an upper-case hex letter.
pub open spec fn has_upper_hex(s: Seq<u8>) -> bool {
    exists|i: int| 0 <= i < s.len() && 0x41 <= #[trigger] s[i] <= 0x46
}

/// The bytes that a lower-case hex text stands for; upper-case letters are
/// refused.
pub open spec fn lower_hex_decoded(s: Seq<u8>) -> Option<Seq<u8>> {
    if has_upper_hex(s) {
        None
    } else {
        hex_decoded(s)
    }
}

/// The lower-case hex digit for a value below 16.
pub open spec fn lower_hex_digit(v: u8) -> char {
    if v < 10 {
        ((v + 0x30) as u8) as char
    } else {
        ((v - 10 + 0x61) as u8) as char
    }
}

/// The lower-case hex text of some bytes, without separators.
pub open spec fn lower_hex(b: Seq<u8>) -> Seq<char>
    decreases b.len(),
{
    if b.len() == 0 {
        Seq::<char>::empty()
    } else {
        seq![lower_hex_digit(b[0] / 16), lower_hex_digit(b[0] % 16)] + lower_hex(
            b.subrange(1, b.len() as int),
        )
    }
}

/// The SHA-256 digest of a byte sequence.
pub uninterp spec fn sha256_of(data: Seq<u8>) -> Seq<u8>;

/// Relies on sha2's `Sha256::digest`: the 32-byte SHA-256 digest of the input.
#[verifier::external_body]
fn sha256(data: &[u8]) -> (r: [u8; 32])
    ensures
        r@ == sha256_of(data@),
{
    sha2::Sha256::digest(data).into()
}

/// Relies on hex's `decode`: an even number of hex digits of either case,
/// decoded two per byte; anything else is refused.
#[verifier::external_body]
fn decode_hex(s: &[u8]) -> (r: Result<Vec<u8>, hex::FromHexError>)
    ensures
        match r {
            Ok(v) => hex_decoded(s@) == Some(v@),
            Err(_) => hex_decoded(s@) is None,
        },
{
    hex::decode(s)
}

/// Relies on hex's `encode`: two lower-case hex digits per byte.
#[verifier::external_body]
fn encode_hex(b: &[u8]) -> (r: String)
    ensures
        r@ == lower_hex(b@),
{
    hex::encode(b)
}

#[verifier::external_type_specification]
#[verifier::external_body]
pub struct ExFromHexError(hex::FromHexError);

/// Why bytes or text were not a hash.
#[derive(Debug, Clone, Copy, PartialEq, Eq, Structural)]
pub enum HashError {
    /// The input did not hold exactly 32 bytes.
    InvalidLength,
    /// The input was not hex text.
    InvalidHex,
}

/// Copies a 32-byte vector into an array; any other length is refused.
pub fn to_fixed(bytes: Vec<u8>) -> (r: Result<[u8; 32], HashError>)
    ensures
        match r {
            Ok(a) => bytes@.len() == 32 && a@ == bytes@,
            Err(e) => bytes@.len() != 32 && e == HashError::InvalidLength,
        },
{
    if bytes.len() != 32 {
        return Err(HashError::InvalidLength);
    }
    let mut out: [u8; 32] = [0u8; 32];
    let mut i: usize = 0;
    while i < 32
        invariant
            bytes@.len() == 32,
            0 <= i <= 32,
            forall|j: int| 0 <= j < i ==> out@[j] == bytes@[j],
        decreases 32 - i,
    {
        out[i] = bytes[i];
        i = i + 1;
    }
    assert(out@ =~= bytes@);
    Ok(out)
}

/// A 32-byte SHA-256 digest.
#[derive(Debug)]
pub struct Hash(pub [u8; 32]);

impl View for Hash {
    type V = Seq<u8>;

    open spec fn view(&self) -> Seq<u8> {
        self.0@
    }
}

impl Hash {
    /// The SHA-256 digest of `data`.
    pub fn new(data: &[u8]) -> (r: Hash)
        ensures
            r@ == sha256_of(data@),
    {
        Hash(sha256(data))
    }

    /// A hash from exactly 32 raw bytes.
    pub fn parse(source: Vec<u8>) -> (r: Result<Hash, HashError>)
        ensures
            match r {
                Ok(h) => source@.len() == 32 && h@ == source@,
                Err(e) => source@.len() != 32 && e == HashError::InvalidLength,
            },
    {
        match to_fixed(source) {
            Ok(a) => Ok(Hash(a)),
            Err(e) => Err(e),
        }
    }

    /// A hash from lower-case hex text that decodes to exactly 32 bytes.
    pub fn parse_hex(source: &[u8]) -> (r: Result<Hash, HashError>)
        ensures
            match r {
                Ok(h) => lower_hex_decoded(source@) == Some(h@),
                Err(e) => match lower_hex_decoded(source@) {
                    Some(b) => b.len() != 32 && e == HashError::InvalidLength,
                    None => e == HashError::InvalidHex,
                },
            },
    {
        let mut i: usize = 0;
        while i < source.len()
            invariant
                0 <= i <= source@.len(),
                forall|j: int| 0 <= j < i ==> !(0x41 <= #[trigger] source@[j] <= 0x46),
            decreases source@.len() - i,
        {
            if 0x41 <= source[i] && source[i] <= 0x46 {
                return Err(HashError::InvalidHex);
            }
            i = i + 1;
        }
        match decode_hex(source) {
            Ok(bytes) => Hash::parse(bytes),
            Err(_) => Err(HashError::InvalidHex),
        }
    }

    /// The lower-case hex text of the digest.
    pub fn to_hex(&self) -> (r: String)
        ensures
            r@ == lower_hex(self@),
    {
        encode_hex(self.0.as_slice())
    }

    /// The raw digest bytes.
    pub fn as_bytes(&self) -> (r: &[u8])
        ensures
            r@ == self@,
    {
        self.0.as_slice()
    }

    /// A copy of the hash.
    pub fn duplicate(&self) -> (r: Hash)
        ensures
            r@ == self@,
    {
        Hash(self.0)
    }

    /// Whether both hashes hold the same bytes.
    pub fn equals(&self, other: &Hash) -> (r: bool)
        ensures
            r == (self@ == other@),
    {
        let mut i: usize = 0;
        while i < 32
            invariant
                0 <= i <= 32,
                self@.len() == 32,
                other@.len() == 32,
                forall|j: int| 0 <= j < i ==> self@[j] == other@[j],
            decreases 32 - i,
        {
            if self.0[i] != other.0[i] {
                return false;
            }
            i = i + 1;
        }
        assert(self@ =~= other@);
        true
    }
}

impl Default for Hash {
    /// The all-zero hash.
    fn default() -> (r: Hash)
        ensures
            r@ == Seq::new(32, |i: int| 0u8),
    {
        let r = Hash([0u8; 32]);
        assert(r@ =~= Seq::new(32, |i: int| 0u8));
        r
    }
}

impl PartialEq for Hash {
    fn eq(&self, other: &Hash) -> (r: bool) {
        self.equals(other)
    }
}

impl vstd::std_specs::cmp::PartialEqSpecImpl for Hash {
    open spec fn obeys_eq_spec() -> bool {
        true
    }

    open spec fn eq_spec(&self, other: &Hash) -> bool {
        self@ == other@
    }
}

} // verus!
