//! 32-byte digests and account keys.
//!
//! A digest is held as four 64-bit words, most significant first, so that
//! comparing the words in turn is the lexicographic order of the bytes and
//! also the order of the digest read as one big-endian integer.

use vstd::prelude::*;

verus! {

/// 2^64.
pub open spec fn pow64() -> int {
    18446744073709551616int
}

/// 2^128.
pub open spec fn pow128() -> int {
    340282366920938463463374607431768211456int
}

/// 2^192.
pub open spec fn pow192() -> int {
    6277101735386680763835789423207666416102355444464034512896int
}

/// 2^256.
pub open spec fn pow256() -> int {
    115792089237316195423570985008687907853269984665640564039457584007913129639936int
}

/// The big-endian value of the eight bytes of `b` that start at `start`.
pub open spec fn be_word(b: Seq<u8>, start: int) -> int {
    ((((((b[start] as int * 256 + b[start + 1] as int) * 256 + b[start + 2] as int) * 256
        + b[start + 3] as int) * 256 + b[start + 4] as int) * 256 + b[start + 5] as int) * 256
        + b[start + 6] as int) * 256 + b[start + 7] as int
}

/// A 32-byte digest.
#[derive(Clone, Copy, Debug, PartialEq, Eq, Structural, Hash)]
pub struct Hash {
    pub w0: u64,
    pub w1: u64,
    pub w2: u64,
    pub w3: u64,
}

/// The key of an account: the 32 bytes of a compressed public key.
#[derive(Clone, Copy, Debug, PartialEq, Eq, Structural, Hash)]
pub struct PublicKey {
    pub id: Hash,
}

fn read_word(bytes: &[u8; 32], start: usize) -> (w: u64)
    requires
        start + 8 <= 32,
    ensures
        w as int == be_word(bytes@, start as int),
{
    let d0: u64 = bytes[start] as u64;
    let d1: u64 = bytes[start + 1] as u64;
    let d2: u64 = bytes[start + 2] as u64;
    let d3: u64 = bytes[start + 3] as u64;
    let d4: u64 = bytes[start + 4] as u64;
    let d5: u64 = bytes[start + 5] as u64;
    let d6: u64 = bytes[start + 6] as u64;
    let d7: u64 = bytes[start + 7] as u64;
    let a1: u64 = d0 * 256 + d1;
    let a2: u64 = a1 * 256 + d2;
    let a3: u64 = a2 * 256 + d3;
    let a4: u64 = a3 * 256 + d4;
    let a5: u64 = a4 * 256 + d5;
    let a6: u64 = a5 * 256 + d6;
    a6 * 256 + d7
}

fn write_word(w: u64) -> (b: [u8; 8])
    ensures
        be_word(b@, 0) == w as int,
{
    let d7: u8 = (w % 256) as u8;
    let q6: u64 = w / 256;
    let d6: u8 = (q6 % 256) as u8;
    let q5: u64 = q6 / 256;
    let d5: u8 = (q5 % 256) as u8;
    let q4: u64 = q5 / 256;
    let d4: u8 = (q4 % 256) as u8;
    let q3: u64 = q4 / 256;
    let d3: u8 = (q3 % 256) as u8;
    let q2: u64 = q3 / 256;
    let d2: u8 = (q2 % 256) as u8;
    let q1: u64 = q2 / 256;
    let d1: u8 = (q1 % 256) as u8;
    let q0: u64 = q1 / 256;
    let d0: u8 = q0 as u8;
    [d0, d1, d2, d3, d4, d5, d6, d7]
}

impl Hash {
    /// The digest read as one big-endian integer.
    pub open spec fn value(self) -> int {
        self.w0 as int * pow192() + self.w1 as int * pow128() + self.w2 as int * pow64()
            + self.w3 as int
    }

    /// Whether `bytes` are the 32 bytes of this digest.
    pub open spec fn has_bytes(self, bytes: Seq<u8>) -> bool {
        &&& bytes.len() == 32
        &&& self.w0 as int == be_word(bytes, 0)
        &&& self.w1 as int == be_word(bytes, 8)
        &&& self.w2 as int == be_word(bytes, 16)
        &&& self.w3 as int == be_word(bytes, 24)
    }

    /// Lexicographic order of the bytes: the first word that differs decides.
    pub open spec fn precedes(self, other: Hash) -> bool {
        if self.w0 != other.w0 {
            self.w0 < other.w0
        } else if self.w1 != other.w1 {
            self.w1 < other.w1
        } else if self.w2 != other.w2 {
            self.w2 < other.w2
        } else {
            self.w3 < other.w3
        }
    }

    /// The digest whose bytes are all zero.
    pub fn zero() -> (h: Hash)
        ensures
            h == (Hash { w0: 0, w1: 0, w2: 0, w3: 0 }),
    {
        Hash { w0: 0, w1: 0, w2: 0, w3: 0 }
    }

    /// Builds the digest from its 32 bytes.
    pub fn new(bytes: [u8; 32]) -> (h: Hash)
        ensures
            h.has_bytes(bytes@),
    {
        Hash {
            w0: read_word(&bytes, 0),
            w1: read_word(&bytes, 8),
            w2: read_word(&bytes, 16),
            w3: read_word(&bytes, 24),
        }
    }

    /// The 32 bytes of the digest.
    pub fn to_bytes(&self) -> (bytes: [u8; 32])
        ensures
            self.has_bytes(bytes@),
    {
        let a = write_word(self.w0);
        let b = write_word(self.w1);
        let c = write_word(self.w2);
        let d = write_word(self.w3);
        let bytes: [u8; 32] = [
            a[0], a[1], a[2], a[3], a[4], a[5], a[6], a[7],
            b[0], b[1], b[2], b[3], b[4], b[5], b[6], b[7],
            c[0], c[1], c[2], c[3], c[4], c[5], c[6], c[7],
            d[0], d[1], d[2], d[3], d[4], d[5], d[6], d[7],
        ];
        bytes
    }

    /// Whether this digest comes before `other` in lexicographic order.
    pub fn lt(&self, other: &Hash) -> (r: bool)
        ensures
            r == self.precedes(*other),
    {
        if self.w0 != other.w0 {
            self.w0 < other.w0
        } else if self.w1 != other.w1 {
            self.w1 < other.w1
        } else if self.w2 != other.w2 {
            self.w2 < other.w2
        } else {
            self.w3 < other.w3
        }
    }
}

impl PublicKey {
    /// Builds the key from its 32 bytes.
    pub fn new(bytes: [u8; 32]) -> (k: PublicKey)
        ensures
            k.id.has_bytes(bytes@),
    {
        PublicKey { id: Hash::new(bytes) }
    }

    /// The 32 bytes of the key.
    pub fn to_bytes(&self) -> (bytes: [u8; 32])
        ensures
            self.id.has_bytes(bytes@),
    {
        self.id.to_bytes()
    }
}

/// A digest is fixed by its bytes: two digests with the same 32 bytes are equal.
pub proof fn lemma_bytes_fix_digest(a: Hash, b: Hash, bytes: Seq<u8>)
    requires
        a.has_bytes(bytes),
        b.has_bytes(bytes),
    ensures
        a == b,
{
}

/// The order is strict and total: of two different digests exactly one
/// precedes the other, and no digest precedes itself.
pub proof fn lemma_precedes_total(a: Hash, b: Hash)
    ensures
        !a.precedes(a),
        a != b ==> (a.precedes(b) != b.precedes(a)),
        a == b ==> !a.precedes(b),
{
}

/// The order is transitive.
pub proof fn lemma_precedes_transitive(a: Hash, b: Hash, c: Hash)
    requires
        a.precedes(b),
        b.precedes(c),
    ensures
        a.precedes(c),
{
}

} // verus!
