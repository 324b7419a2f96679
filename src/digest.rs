//! 256-bit digests: the content hash of a blob and the keyed hash of a tree.
use vstd::prelude::*;

verus! {

/// Number of bytes in a digest.
pub const DIGEST_LEN: usize = 32;

/// A 256-bit digest, held as its raw bytes.
#[derive(Clone, Copy, Debug, PartialEq, Eq, Hash)]
pub struct Digest {
    pub bytes: [u8; 32],
}

impl View for Digest {
    type V = Seq<u8>;

    open spec fn view(&self) -> Seq<u8> {
        self.bytes@
    }
}

/// What BLAKE3 returns for `input` in its plain (unkeyed) mode.
pub uninterp spec fn blake3_of(input: Seq<u8>) -> Seq<u8>;

/// What BLAKE3 returns in key-derivation mode for `context` and `material`.
pub uninterp spec fn derive_key_of(context: Seq<char>, material: Seq<u8>) -> Seq<u8>;

/// The lowercase hexadecimal digit of a value below sixteen.
pub open spec fn hex_digit(v: u8) -> char {
    if v < 10 {
        (('0' as u8) + v) as char
    } else {
        (('a' as u8) + (v - 10)) as char
    }
}

/// Two lowercase hexadecimal digits per byte, high nibble first.
pub open spec fn hex_of(b: Seq<u8>) -> Seq<char>
    decreases b.len(),
{
    if b.len() == 0 {
        Seq::empty()
    } else {
        seq![hex_digit(b[0] / 16), hex_digit(b[0] % 16)] + hex_of(b.drop_first())
    }
}

/// Relies on blake3::hash: the 32-byte plain hash of the input.
#[verifier::external_body]
fn blake3_hash(input: &[u8]) -> (r: [u8; 32])
    ensures
        r@ == blake3_of(input@),
{
    *blake3::hash(input).as_bytes()
}

/// Relies on blake3::derive_key: the 32-byte key-derivation hash of the
/// material under the context string.
#[verifier::external_body]
fn blake3_derive_key(context: &str, material: &[u8]) -> (r: [u8; 32])
    ensures
        r@ == derive_key_of(context@, material@),
{
    blake3::derive_key(context, material)
}

/// Relies on blake3::Hash::to_hex: lowercase hexadecimal, two digits per
/// byte, in byte order.
#[verifier::external_body]
fn blake3_hex(bytes: [u8; 32]) -> (r: String)
    ensures
        r@ == hex_of(bytes@),
{
    blake3::Hash::from_bytes(bytes).to_hex().as_str().to_string()
}

impl Digest {
    /// The digest with the given raw bytes.
    pub fn from_bytes(bytes: [u8; 32]) -> (r: Digest)
        ensures
            r@ == bytes@,
    {
        Digest { bytes }
    }

    /// The raw bytes of the digest.
    pub fn as_bytes(&self) -> (r: [u8; 32])
        ensures
            r@ == self@,
    {
        self.bytes
    }

    /// The content digest of a blob.
    pub fn of_blob(blob: &[u8]) -> (r: Digest)
        ensures
            r@ == blake3_of(blob@),
    {
        Digest { bytes: blake3_hash(blob) }
    }

    /// The key-derivation digest of `material` under the domain `context`.
    pub fn derive(context: &str, material: &[u8]) -> (r: Digest)
        ensures
            r@ == derive_key_of(context@, material@),
    {
        Digest { bytes: blake3_derive_key(context, material) }
    }

    /// The digest as 64 lowercase hexadecimal characters; this is also the
    /// name of a blob's sidecar file.
    pub fn to_hex(&self) -> (r: String)
        ensures
            r@ == hex_of(self@),
            r@.len() == 2 * DIGEST_LEN,
    {
        let r = blake3_hex(self.bytes);
        proof {
            lemma_hex_len(self@);
        }
        r
    }
}

/// The hexadecimal form has two characters per byte.
pub proof fn lemma_hex_len(b: Seq<u8>)
    ensures
        hex_of(b).len() == 2 * b.len(),
    decreases b.len(),
{
    if b.len() > 0 {
        lemma_hex_len(b.drop_first());
    }
}

} // verus!
