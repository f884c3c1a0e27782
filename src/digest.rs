//! 256-bit digests, their hex form, and the hash function behind them.
use vstd::prelude::*;

verus! {

/// Number of bytes in a digest.
pub const DIGEST_LEN: usize = 32;

/// What BLAKE3 gives for the given input bytes (32 bytes).
pub uninterp spec fn blake3_of(data: Seq<u8>) -> Seq<u8>;

/// The lowercase hex digit of a value below 16.
pub open spec fn hex_digit(v: u8) -> char {
    seq!['0', '1', '2', '3', '4', '5', '6', '7', '8', '9', 'a', 'b', 'c', 'd', 'e', 'f'][v as int]
}

/// Two lowercase hex digits per byte, high half first.
pub open spec fn hex_lower(data: Seq<u8>) -> Seq<char> {
    Seq::new(
        2 * data.len(),
        |i: int|
            if i % 2 == 0 {
                hex_digit(data[i / 2] / 16)
            } else {
                hex_digit(data[i / 2] % 16)
            },
    )
}

/// The value of a hex digit of either case, `None` for any other character.
pub open spec fn hex_value(c: char) -> Option<u8> {
    if '0' <= c && c <= '9' {
        Some((c as u32 - '0' as u32) as u8)
    } else if 'a' <= c && c <= 'f' {
        Some((c as u32 - 'a' as u32 + 10) as u8)
    } else if 'A' <= c && c <= 'F' {
        Some((c as u32 - 'A' as u32 + 10) as u8)
    } else {
        None
    }
}

/// Exactly 64 hex digits.
pub open spec fn is_hex_digest(s: Seq<char>) -> bool {
    &&& s.len() == 2 * DIGEST_LEN
    &&& forall|i: int| 0 <= i < s.len() ==> (#[trigger] hex_value(s[i])) is Some
}

/// The bytes that 64 hex digits stand for, two digits per byte.
pub open spec fn hex_decode(s: Seq<char>) -> Seq<u8> {
    Seq::new(
        DIGEST_LEN as nat,
        |i: int| (16 * hex_value(s[2 * i])->0 + hex_value(s[2 * i + 1])->0) as u8,
    )
}

/// A string that is not 64 hex digits was given as a digest.
#[derive(Debug, PartialEq, Eq, Structural)]
pub struct MalformedHash;

#[verifier::external_type_specification]
#[verifier::external_body]
pub struct ExHexError(blake3::HexError);

/// A 256-bit digest, held as its raw bytes.
#[derive(Clone, Copy, Debug)]
pub struct Digest {
    pub bytes: [u8; 32],
}

/// The byte sequences of a sequence of digests.
pub open spec fn digests_view(v: Seq<Digest>) -> Seq<Seq<u8>> {
    v.map_values(|d: Digest| d@)
}

impl View for Digest {
    type V = Seq<u8>;

    open spec fn view(&self) -> Seq<u8> {
        self.bytes@
    }
}

impl PartialEq for Digest {
    fn eq(&self, other: &Digest) -> (r: bool)
        ensures
            r == (self@ == other@),
    {
        self.same_as(other)
    }
}

impl vstd::std_specs::cmp::PartialEqSpecImpl for Digest {
    open spec fn obeys_eq_spec() -> bool {
        true
    }

    open spec fn eq_spec(&self, other: &Digest) -> bool {
        self@ == other@
    }
}

impl Eq for Digest {
}

impl Digest {
    /// Wraps raw digest bytes.
    pub fn from_bytes(bytes: [u8; 32]) -> (r: Digest)
        ensures
            r@ == bytes@,
    {
        Digest { bytes }
    }

    /// The raw bytes of the digest.
    pub fn as_bytes(&self) -> (r: &[u8; 32])
        ensures
            r@ == self@,
    {
        &self.bytes
    }

    /// The BLAKE3 digest of `data`.
    pub fn of(data: &[u8]) -> (r: Digest)
        ensures
            r@ == blake3_of(data@),
    {
        blake3_hash(data)
    }

    /// The digest in lowercase hex, 64 characters.
    pub fn to_hex(&self) -> (r: String)
        ensures
            r@ == hex_lower(self@),
    {
        blake3_to_hex(self)
    }

    /// Reads a digest from 64 hex digits of either case.
    pub fn from_hex(s: &str) -> (r: Result<Digest, MalformedHash>)
        ensures
            r is Ok <==> is_hex_digest(s@),
            r matches Ok(d) ==> d@ == hex_decode(s@),
    {
        match blake3_from_hex(s) {
            Ok(d) => Ok(d),
            Err(_) => Err(MalformedHash),
        }
    }

    /// Byte-wise comparison of two digests.
    pub fn same_as(&self, other: &Digest) -> (r: bool)
        ensures
            r == (self@ == other@),
    {
        let mut i: usize = 0;
        while i < DIGEST_LEN
            invariant
                i <= DIGEST_LEN,
                self@.len() == DIGEST_LEN,
                other@.len() == DIGEST_LEN,
                forall|k: int| 0 <= k < i ==> self@[k] == other@[k],
            decreases DIGEST_LEN - i,
        {
            if self.bytes[i] != other.bytes[i] {
                return false;
            }
            i = i + 1;
        }
        assert(self@ =~= other@);
        true
    }
}

/// Relies on `blake3::hash`: the BLAKE3 digest of `data`.
#[verifier::external_body]
pub(crate) fn blake3_hash(data: &[u8]) -> (r: Digest)
    ensures
        r@ == blake3_of(data@),
{
    Digest { bytes: *blake3::hash(data).as_bytes() }
}

/// Relies on `blake3::Hash::to_hex`: two lowercase hex digits per byte,
/// high half first.
#[verifier::external_body]
fn blake3_to_hex(d: &Digest) -> (r: String)
    ensures
        r@ == hex_lower(d@),
{
    blake3::Hash::from_bytes(d.bytes).to_hex().to_string()
}

/// Relies on `blake3::Hash::from_hex`: it accepts exactly 64 hex digits of
/// either case and reads each pair as one byte, high half first.
#[verifier::external_body]
fn blake3_from_hex(s: &str) -> (r: Result<Digest, blake3::HexError>)
    ensures
        r is Ok <==> is_hex_digest(s@),
        r matches Ok(d) ==> d@ == hex_decode(s@),
{
    match blake3::Hash::from_hex(s) {
        Ok(h) => Ok(Digest { bytes: *h.as_bytes() }),
        Err(e) => Err(e),
    }
}

/// Relies on `blake3::Hasher`: two `update` calls followed by `finalize`
/// give the BLAKE3 digest of the two inputs laid end to end.
#[verifier::external_body]
pub(crate) fn blake3_hash_pair(first: &Digest, second: &Digest) -> (r: Digest)
    ensures
        r@ == blake3_of(first@ + second@),
{
    let mut hasher = blake3::Hasher::new();
    hasher.update(&first.bytes);
    hasher.update(&second.bytes);
    Digest { bytes: *hasher.finalize().as_bytes() }
}

} // verus!
