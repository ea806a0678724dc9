//! Twisted ElGamal over the Ristretto group: keys, Pedersen commitments and
//! ciphertexts that add up.
//!
//! Points and scalars are held as their 32 bytes. The arithmetic of the group
//! is not proved here: each operation is a call into `curve25519_dalek`, and
//! the contracts say which operations a result is made of.

use vstd::prelude::*;
use crate::hash;

verus! {

/// Whether the bytes are the encoding of a point of the group: whether
/// `CompressedRistretto::decompress` gives a point for them.
pub uninterp spec fn is_point(bytes: Seq<u8>) -> bool;

/// Whether the bytes are the canonical encoding of a scalar: whether
/// `Scalar::from_canonical_bytes` gives a scalar for them.
pub uninterp spec fn is_scalar(bytes: Seq<u8>) -> bool;

/// The encoding of the sum of two points (`RistrettoPoint + RistrettoPoint`).
pub uninterp spec fn point_sum(a: Seq<u8>, b: Seq<u8>) -> Seq<u8>;

/// The encoding of the difference of two points (`RistrettoPoint - RistrettoPoint`).
pub uninterp spec fn point_difference(a: Seq<u8>, b: Seq<u8>) -> Seq<u8>;

/// The encoding of a multiple of a point (`Scalar * RistrettoPoint`).
pub uninterp spec fn point_multiple(scalar: Seq<u8>, point: Seq<u8>) -> Seq<u8>;

/// The encoding of the inverse of a scalar (`Scalar::invert`).
pub uninterp spec fn scalar_inverse(scalar: Seq<u8>) -> Seq<u8>;

/// The encoding of the point that 64 bytes are mapped to
/// (`RistrettoPoint::from_uniform_bytes`).
pub uninterp spec fn uniform_point(seed: Seq<u8>) -> Seq<u8>;

/// The encoding of the base point of the group.
pub open spec fn base_point() -> Seq<u8> {
    seq![
        0xe2u8, 0xf2u8, 0xaeu8, 0x0au8, 0x6au8, 0xbcu8, 0x4eu8, 0x71u8, 0xa8u8, 0x84u8, 0xa9u8,
        0x61u8, 0xc5u8, 0x00u8, 0x51u8, 0x5fu8, 0x58u8, 0xe3u8, 0x0bu8, 0x6au8, 0xa5u8, 0x82u8,
        0xddu8, 0x8du8, 0xb6u8, 0xa6u8, 0x59u8, 0x45u8, 0xe0u8, 0x8du8, 0x2du8, 0x76u8,
    ]
}

/// The bytes that the second generator is mapped from: the letters of
/// `blinding generator of the pedersen commitments of this chain` and zeros.
pub const BLINDING_SEED: [u8; 64] = [
    98, 108, 105, 110, 100, 105, 110, 103, 32, 103, 101, 110, 101, 114, 97, 116, 111, 114, 32, 111,
    102, 32, 116, 104, 101, 32, 112, 101, 100, 101, 114, 115, 101, 110, 32, 99, 111, 109, 109, 105,
    116, 109, 101, 110, 116, 115, 32, 111, 102, 32, 116, 104, 105, 115, 32, 99, 104, 97, 105, 110,
    0, 0, 0, 0,
];

/// The encoding of the second generator, which blinds commitments.
pub open spec fn blinding_point() -> Seq<u8> {
    uniform_point(BLINDING_SEED@)
}

/// Byte `i` of an amount, the least first.
pub open spec fn amount_byte(amount: u64, i: int) -> u8 {
    if i == 0 {
        (amount % 256) as u8
    } else if i == 1 {
        (amount / 256 % 256) as u8
    } else if i == 2 {
        (amount / 65536 % 256) as u8
    } else if i == 3 {
        (amount / 16777216 % 256) as u8
    } else if i == 4 {
        (amount / 4294967296 % 256) as u8
    } else if i == 5 {
        (amount / 1099511627776 % 256) as u8
    } else if i == 6 {
        (amount / 281474976710656 % 256) as u8
    } else if i == 7 {
        (amount / 72057594037927936 % 256) as u8
    } else {
        0
    }
}

/// The encoding of an amount as a scalar: its eight bytes, the least first,
/// and zeros.
pub open spec fn amount_bytes(amount: u64) -> Seq<u8> {
    Seq::new(32, |i: int| amount_byte(amount, i))
}

/// The encoding of the neutral point: zeros.
pub open spec fn neutral_point() -> Seq<u8> {
    Seq::new(32, |i: int| 0u8)
}

/// Tells whether the bytes encode a point (`CompressedRistretto::decompress`
/// gives a point exactly for the canonical encodings of points).
#[verifier::external_body]
fn decodes_to_point(bytes: &[u8; 32]) -> (ok: bool)
    ensures
        ok == is_point(bytes@),
{
    curve25519_dalek::ristretto::CompressedRistretto(*bytes).decompress().is_some()
}

/// Tells whether the bytes encode a scalar (`Scalar::from_canonical_bytes`
/// gives a scalar exactly for the canonical encodings of scalars).
#[verifier::external_body]
fn decodes_to_scalar(bytes: &[u8; 32]) -> (ok: bool)
    ensures
        ok == is_scalar(bytes@),
{
    let scalar: Option<curve25519_dalek::scalar::Scalar> =
        curve25519_dalek::scalar::Scalar::from_canonical_bytes(*bytes).into();
    scalar.is_some()
}

/// Adds two points (`RistrettoPoint + RistrettoPoint`). A result is given
/// exactly where both encodings are those of points; it is the encoding of
/// their sum, which is the encoding of a point.
#[verifier::external_body]
fn add_points(a: &[u8; 32], b: &[u8; 32]) -> (r: Option<[u8; 32]>)
    ensures
        match r {
            Some(p) => is_point(a@) && is_point(b@) && p@ == point_sum(a@, b@) && is_point(p@),
            None => !(is_point(a@) && is_point(b@)),
        },
{
    let a = curve25519_dalek::ristretto::CompressedRistretto(*a).decompress()?;
    let b = curve25519_dalek::ristretto::CompressedRistretto(*b).decompress()?;
    Some((a + b).compress().to_bytes())
}

/// Subtracts a point from a point (`RistrettoPoint - RistrettoPoint`). A
/// result is given exactly where both encodings are those of points; it is
/// the encoding of their difference, which is the encoding of a point.
#[verifier::external_body]
fn subtract_points(a: &[u8; 32], b: &[u8; 32]) -> (r: Option<[u8; 32]>)
    ensures
        match r {
            Some(p) => is_point(a@) && is_point(b@) && p@ == point_difference(a@, b@) && is_point(
                p@,
            ),
            None => !(is_point(a@) && is_point(b@)),
        },
{
    let a = curve25519_dalek::ristretto::CompressedRistretto(*a).decompress()?;
    let b = curve25519_dalek::ristretto::CompressedRistretto(*b).decompress()?;
    Some((a - b).compress().to_bytes())
}

/// Multiplies a point by a scalar (`Scalar * RistrettoPoint`). A result is
/// given exactly where the encodings are those of a scalar and of a point;
/// it is the encoding of the multiple, which is the encoding of a point.
#[verifier::external_body]
fn multiply_point(scalar: &[u8; 32], point: &[u8; 32]) -> (r: Option<[u8; 32]>)
    ensures
        match r {
            Some(p) => is_scalar(scalar@) && is_point(point@) && p@ == point_multiple(
                scalar@,
                point@,
            ) && is_point(p@),
            None => !(is_scalar(scalar@) && is_point(point@)),
        },
{
    let s: Option<curve25519_dalek::scalar::Scalar> =
        curve25519_dalek::scalar::Scalar::from_canonical_bytes(*scalar).into();
    let p = curve25519_dalek::ristretto::CompressedRistretto(*point).decompress()?;
    Some((s? * p).compress().to_bytes())
}

/// Inverts a scalar (`Scalar::invert`). A result is given exactly where the
/// encoding is that of a scalar; it is the encoding of the inverse, which is
/// the encoding of a scalar.
#[verifier::external_body]
fn invert_scalar(scalar: &[u8; 32]) -> (r: Option<[u8; 32]>)
    ensures
        match r {
            Some(i) => is_scalar(scalar@) && i@ == scalar_inverse(scalar@) && is_scalar(i@),
            None => !is_scalar(scalar@),
        },
{
    let s: Option<curve25519_dalek::scalar::Scalar> =
        curve25519_dalek::scalar::Scalar::from_canonical_bytes(*scalar).into();
    Some(s?.invert().to_bytes())
}

/// The scalar of an amount (`Scalar::from` of a `u64`): its eight bytes, the
/// least first, and zeros, which is the encoding of a scalar.
#[verifier::external_body]
fn scalar_of_amount(amount: u64) -> (r: [u8; 32])
    ensures
        r@ == amount_bytes(amount),
        is_scalar(r@),
{
    curve25519_dalek::scalar::Scalar::from(amount).to_bytes()
}

/// A scalar drawn from the generator of the operating system
/// (`Scalar::random` with `OsRng`). Of the scalar drawn only this is
/// claimed: its bytes are the encoding of a scalar.
#[verifier::external_body]
fn random_scalar() -> (r: [u8; 32])
    ensures
        is_scalar(r@),
{
    curve25519_dalek::scalar::Scalar::random(&mut rand::rngs::OsRng).to_bytes()
}

/// The base point of the group (`RISTRETTO_BASEPOINT_COMPRESSED`): the
/// bytes of its encoding, which is the encoding of a point.
#[verifier::external_body]
fn base_point_bytes() -> (r: [u8; 32])
    ensures
        r@ == base_point(),
        is_point(r@),
{
    curve25519_dalek::constants::RISTRETTO_BASEPOINT_COMPRESSED.to_bytes()
}

/// The point that 64 bytes are mapped to
/// (`RistrettoPoint::from_uniform_bytes`): its encoding, which is the
/// encoding of a point.
#[verifier::external_body]
fn point_from_uniform_bytes(seed: &[u8; 64]) -> (r: [u8; 32])
    ensures
        r@ == uniform_point(seed@),
        is_point(r@),
{
    curve25519_dalek::ristretto::RistrettoPoint::from_uniform_bytes(seed).compress().to_bytes()
}

/// The secret key: a scalar that is not zero.
pub struct PrivateKey {
    scalar: [u8; 32],
}

/// The public key: a point.
#[derive(Clone, Copy)]
pub struct PublicKey {
    point: [u8; 32],
}

/// A public key with its secret key.
pub struct KeyPair {
    public_key: PublicKey,
    private_key: PrivateKey,
}

/// The scalar that blinds a commitment.
pub struct PedersenOpening {
    scalar: [u8; 32],
}

/// A commitment to an amount: a point.
#[derive(Clone, Copy)]
pub struct PedersenCommitment {
    point: [u8; 32],
}

/// What lets the owner of a key open a commitment: a point.
#[derive(Clone, Copy)]
pub struct DecryptHandle {
    point: [u8; 32],
}

/// An amount encrypted under a public key: a commitment and a handle.
#[derive(Clone, Copy)]
pub struct Ciphertext {
    commitment: PedersenCommitment,
    handle: DecryptHandle,
}

/// What an address is for.
pub enum AddressType {
    /// Payments.
    Normal,
    /// Payments that carry data.
    Data(Vec<u8>),
}

/// The address of an account on a network.
pub struct Address {
    pub mainnet: bool,
    pub addr_type: AddressType,
    pub key: hash::PublicKey,
}

/// Whether every byte is zero.
pub open spec fn all_zero(bytes: Seq<u8>) -> bool {
    forall|i: int| 0 <= i < bytes.len() ==> bytes[i] == 0
}

fn is_zero(bytes: &[u8; 32]) -> (r: bool)
    ensures
        r == all_zero(bytes@),
{
    let mut i: usize = 0;
    while i < 32
        invariant
            i <= 32,
            forall|j: int| 0 <= j < i ==> bytes@[j] == 0,
        decreases 32 - i,
    {
        if bytes[i] != 0 {
            return false;
        }
        i = i + 1;
    }
    true
}

/// The multiple of the base point by an amount.
pub open spec fn amount_point_of(amount: u64) -> Seq<u8> {
    point_multiple(amount_bytes(amount), base_point())
}

/// The commitment to an amount under an opening: the amount times the base
/// point plus the opening times the second generator.
pub open spec fn commitment_of(amount: u64, opening: Seq<u8>) -> Seq<u8> {
    point_sum(amount_point_of(amount), point_multiple(opening, blinding_point()))
}

/// The encoding of the multiple of the base point by an amount.
pub fn amount_point(amount: u64) -> (r: [u8; 32])
    ensures
        r@ == amount_point_of(amount),
        is_point(r@),
{
    let scalar = scalar_of_amount(amount);
    let base = base_point_bytes();
    match multiply_point(&scalar, &base) {
        Some(point) => point,
        None => {
            assert(false);
            base
        },
    }
}

fn blinding() -> (r: [u8; 32])
    ensures
        r@ == blinding_point(),
        is_point(r@),
{
    point_from_uniform_bytes(&BLINDING_SEED)
}

impl PrivateKey {
    #[verifier::type_invariant]
    spec fn valid(self) -> bool {
        is_scalar(self.scalar@) && !all_zero(self.scalar@)
    }

    /// The bytes of the scalar.
    pub closed spec fn view(self) -> Seq<u8> {
        self.scalar@
    }

    /// The secret key of a scalar, which must be the encoding of a scalar
    /// and not zero.
    pub fn from_scalar(scalar: [u8; 32]) -> (r: Option<PrivateKey>)
        ensures
            r is Some <==> is_scalar(scalar@) && !all_zero(scalar@),
            r matches Some(key) ==> key.view() == scalar@,
    {
        if decodes_to_scalar(&scalar) && !is_zero(&scalar) {
            Some(PrivateKey { scalar })
        } else {
            None
        }
    }

    /// The scalar.
    pub fn as_scalar(&self) -> (scalar: &[u8; 32])
        ensures
            scalar@ == self.view(),
            is_scalar(scalar@),
            !all_zero(scalar@),
    {
        proof {
            use_type_invariant(self);
        }
        &self.scalar
    }

    /// Opens a ciphertext to the point of its amount: the commitment less
    /// the handle times the secret.
    pub fn decrypt_to_point(&self, ciphertext: &Ciphertext) -> (point: [u8; 32])
        ensures
            point@ == point_difference(
                ciphertext.commitment().view(),
                point_multiple(self.view(), ciphertext.handle().view()),
            ),
            is_point(point@),
    {
        proof {
            use_type_invariant(self);
            use_type_invariant(&ciphertext.commitment);
            use_type_invariant(&ciphertext.handle);
        }
        let masked = match multiply_point(&self.scalar, &ciphertext.handle.point) {
            Some(point) => point,
            None => {
                assert(false);
                self.scalar
            },
        };
        match subtract_points(&ciphertext.commitment.point, &masked) {
            Some(point) => point,
            None => {
                assert(false);
                masked
            },
        }
    }
}

impl PublicKey {
    #[verifier::type_invariant]
    spec fn valid(self) -> bool {
        is_point(self.point@)
    }

    /// The bytes of the point.
    pub closed spec fn view(self) -> Seq<u8> {
        self.point@
    }

    /// The public key of a point, which must be the encoding of a point.
    pub fn from_point(point: [u8; 32]) -> (r: Option<PublicKey>)
        ensures
            r is Some <==> is_point(point@),
            r matches Some(key) ==> key.view() == point@,
    {
        if decodes_to_point(&point) {
            Some(PublicKey { point })
        } else {
            None
        }
    }

    /// The public key of a secret key: the second generator times the
    /// inverse of the secret.
    pub fn new(secret: &PrivateKey) -> (key: PublicKey)
        ensures
            key.view() == point_multiple(scalar_inverse(secret.view()), blinding_point()),
    {
        proof {
            use_type_invariant(secret);
        }
        let generator = blinding();
        let inverse = match invert_scalar(&secret.scalar) {
            Some(inverse) => inverse,
            None => {
                assert(false);
                secret.scalar
            },
        };
        match multiply_point(&inverse, &generator) {
            Some(point) => PublicKey { point },
            None => {
                assert(false);
                PublicKey { point: generator }
            },
        }
    }

    /// Encrypts an amount under a fresh opening.
    pub fn encrypt(&self, amount: u64) -> (ciphertext: Ciphertext)
        ensures
            exists|opening: Seq<u8>|
                is_scalar(opening) && ciphertext.commitment().view() == #[trigger] commitment_of(
                    amount,
                    opening,
                ) && ciphertext.handle().view() == point_multiple(opening, self.view()),
    {
        let opening = PedersenOpening::generate();
        let ciphertext = self.encrypt_with_opening(amount, &opening);
        proof {
            use_type_invariant(&opening);
            assert(ciphertext.commitment().view() == commitment_of(amount, opening.view()));
        }
        ciphertext
    }

    /// Encrypts an amount under an opening: the commitment to the amount
    /// under the opening, and the handle of the opening for this key.
    pub fn encrypt_with_opening(&self, amount: u64, opening: &PedersenOpening) -> (ciphertext:
        Ciphertext)
        ensures
            ciphertext.commitment().view() == commitment_of(amount, opening.view()),
            ciphertext.handle().view() == point_multiple(opening.view(), self.view()),
    {
        let commitment = PedersenCommitment::new_with_opening(amount, opening);
        let handle = self.decrypt_handle(opening);
        Ciphertext::new(commitment, handle)
    }

    /// The handle of an opening for this key: the key times the opening.
    pub fn decrypt_handle(&self, opening: &PedersenOpening) -> (handle: DecryptHandle)
        ensures
            handle.view() == point_multiple(opening.view(), self.view()),
    {
        proof {
            use_type_invariant(self);
            use_type_invariant(opening);
        }
        match multiply_point(&opening.scalar, &self.point) {
            Some(point) => DecryptHandle { point },
            None => {
                assert(false);
                DecryptHandle { point: self.point }
            },
        }
    }

    /// The key of the account: the 32 bytes of the point.
    pub fn compress(&self) -> (key: hash::PublicKey)
        ensures
            key.id.has_bytes(self.view()),
    {
        hash::PublicKey::new(self.point)
    }

    /// The point.
    pub fn as_point(&self) -> (point: &[u8; 32])
        ensures
            point@ == self.view(),
            is_point(point@),
    {
        proof {
            use_type_invariant(self);
        }
        &self.point
    }

    /// The address of the account for payments.
    pub fn to_address(&self, mainnet: bool) -> (address: Address)
        ensures
            address.mainnet == mainnet,
            address.addr_type is Normal,
            address.key.id.has_bytes(self.view()),
    {
        Address { mainnet, addr_type: AddressType::Normal, key: self.compress() }
    }

    /// The address of the account for payments that carry `data`.
    pub fn to_address_with(&self, mainnet: bool, data: Vec<u8>) -> (address: Address)
        ensures
            address.mainnet == mainnet,
            address.addr_type == AddressType::Data(data),
            address.key.id.has_bytes(self.view()),
    {
        Address { mainnet, addr_type: AddressType::Data(data), key: self.compress() }
    }
}

impl KeyPair {
    /// A pair with a secret key drawn from the generator of the operating
    /// system; nothing where the scalar drawn is zero.
    pub fn new() -> (r: Option<KeyPair>)
        ensures
            r matches Some(pair) ==> pair.spec_public_key().view() == point_multiple(
                scalar_inverse(pair.spec_private_key().view()),
                blinding_point(),
            ),
    {
        let scalar = random_scalar();
        match PrivateKey::from_scalar(scalar) {
            Some(private_key) => Some(KeyPair::from_private_key(private_key)),
            None => None,
        }
    }

    /// The pair of a secret key, with the public key that belongs to it.
    pub fn from_private_key(private_key: PrivateKey) -> (pair: KeyPair)
        ensures
            pair.spec_private_key() == private_key,
            pair.spec_public_key().view() == point_multiple(
                scalar_inverse(private_key.view()),
                blinding_point(),
            ),
    {
        let public_key = PublicKey::new(&private_key);
        KeyPair { public_key, private_key }
    }

    /// The pair of a public key and a secret key.
    pub fn from_keys(public_key: PublicKey, private_key: PrivateKey) -> (pair: KeyPair)
        ensures
            pair.spec_public_key() == public_key,
            pair.spec_private_key() == private_key,
    {
        KeyPair { public_key, private_key }
    }

    /// The public key.
    pub closed spec fn spec_public_key(&self) -> PublicKey {
        self.public_key
    }

    /// The secret key.
    pub closed spec fn spec_private_key(&self) -> PrivateKey {
        self.private_key
    }

    /// The public key.
    pub fn get_public_key(&self) -> (key: &PublicKey)
        ensures
            *key == self.spec_public_key(),
    {
        &self.public_key
    }

    /// The secret key.
    pub fn get_private_key(&self) -> (key: &PrivateKey)
        ensures
            *key == self.spec_private_key(),
    {
        &self.private_key
    }
}

impl PedersenOpening {
    #[verifier::type_invariant]
    spec fn valid(self) -> bool {
        is_scalar(self.scalar@)
    }

    /// The bytes of the scalar.
    pub closed spec fn view(self) -> Seq<u8> {
        self.scalar@
    }

    /// An opening drawn from the generator of the operating system.
    pub fn generate() -> (opening: PedersenOpening)
        ensures
            is_scalar(opening.view()),
    {
        PedersenOpening { scalar: random_scalar() }
    }

    /// The opening of a scalar, which must be the encoding of a scalar.
    pub fn from_scalar(scalar: [u8; 32]) -> (r: Option<PedersenOpening>)
        ensures
            r is Some <==> is_scalar(scalar@),
            r matches Some(opening) ==> opening.view() == scalar@,
    {
        if decodes_to_scalar(&scalar) {
            Some(PedersenOpening { scalar })
        } else {
            None
        }
    }
}

impl PedersenCommitment {
    #[verifier::type_invariant]
    spec fn valid(self) -> bool {
        is_point(self.point@)
    }

    /// The bytes of the point.
    pub closed spec fn view(self) -> Seq<u8> {
        self.point@
    }

    /// A commitment to an amount under a fresh opening, with the opening.
    pub fn new(amount: u64) -> (r: (PedersenCommitment, PedersenOpening))
        ensures
            r.0.view() == commitment_of(amount, r.1.view()),
    {
        let opening = PedersenOpening::generate();
        let commitment = PedersenCommitment::new_with_opening(amount, &opening);
        (commitment, opening)
    }

    /// The commitment to an amount under an opening.
    pub fn new_with_opening(amount: u64, opening: &PedersenOpening) -> (commitment:
        PedersenCommitment)
        ensures
            commitment.view() == commitment_of(amount, opening.view()),
    {
        proof {
            use_type_invariant(opening);
        }
        let amount_part = amount_point(amount);
        let generator = blinding();
        let blind = match multiply_point(&opening.scalar, &generator) {
            Some(point) => point,
            None => {
                assert(false);
                generator
            },
        };
        match add_points(&amount_part, &blind) {
            Some(point) => PedersenCommitment { point },
            None => {
                assert(false);
                PedersenCommitment { point: generator }
            },
        }
    }

    /// The point.
    pub fn as_point(&self) -> (point: &[u8; 32])
        ensures
            point@ == self.view(),
    {
        &self.point
    }
}

impl DecryptHandle {
    #[verifier::type_invariant]
    spec fn valid(self) -> bool {
        is_point(self.point@)
    }

    /// The bytes of the point.
    pub closed spec fn view(self) -> Seq<u8> {
        self.point@
    }

    /// The point.
    pub fn as_point(&self) -> (point: &[u8; 32])
        ensures
            point@ == self.view(),
    {
        &self.point
    }
}

impl Ciphertext {
    pub closed spec fn commitment(&self) -> PedersenCommitment {
        self.commitment
    }

    pub closed spec fn handle(&self) -> DecryptHandle {
        self.handle
    }

    /// The ciphertext of a commitment and a handle.
    pub fn new(commitment: PedersenCommitment, handle: DecryptHandle) -> (ciphertext: Ciphertext)
        ensures
            ciphertext.commitment() == commitment,
            ciphertext.handle() == handle,
    {
        Ciphertext { commitment, handle }
    }

    /// The ciphertext of nothing under every key: the neutral point twice.
    pub fn zero() -> (r: Option<Ciphertext>)
        ensures
            r is Some <==> is_point(neutral_point()),
            r matches Some(ciphertext) ==> ciphertext.commitment().view() == neutral_point()
                && ciphertext.handle().view() == neutral_point(),
    {
        let point: [u8; 32] = [
            0, 0, 0, 0, 0, 0, 0, 0, 0, 0, 0, 0, 0, 0, 0, 0, 0, 0, 0, 0, 0, 0, 0, 0, 0, 0, 0, 0, 0, 0, 0, 0,
        ];
        proof {
            assert(point@ =~= neutral_point());
        }
        if decodes_to_point(&point) {
            Some(
                Ciphertext {
                    commitment: PedersenCommitment { point },
                    handle: DecryptHandle { point },
                },
            )
        } else {
            None
        }
    }

    /// The sum of two ciphertexts: the sums of their commitments and of
    /// their handles.
    pub fn plus(&self, other: &Ciphertext) -> (sum: Ciphertext)
        ensures
            sum.commitment().view() == point_sum(
                self.commitment().view(),
                other.commitment().view(),
            ),
            sum.handle().view() == point_sum(self.handle().view(), other.handle().view()),
    {
        proof {
            use_type_invariant(&self.commitment);
            use_type_invariant(&self.handle);
            use_type_invariant(&other.commitment);
            use_type_invariant(&other.handle);
        }
        let commitment = match add_points(&self.commitment.point, &other.commitment.point) {
            Some(point) => point,
            None => {
                assert(false);
                self.commitment.point
            },
        };
        let handle = match add_points(&self.handle.point, &other.handle.point) {
            Some(point) => point,
            None => {
                assert(false);
                self.handle.point
            },
        };
        Ciphertext {
            commitment: PedersenCommitment { point: commitment },
            handle: DecryptHandle { point: handle },
        }
    }

    /// The difference of two ciphertexts: the differences of their
    /// commitments and of their handles.
    pub fn minus(&self, other: &Ciphertext) -> (difference: Ciphertext)
        ensures
            difference.commitment().view() == point_difference(
                self.commitment().view(),
                other.commitment().view(),
            ),
            difference.handle().view() == point_difference(
                self.handle().view(),
                other.handle().view(),
            ),
    {
        proof {
            use_type_invariant(&self.commitment);
            use_type_invariant(&self.handle);
            use_type_invariant(&other.commitment);
            use_type_invariant(&other.handle);
        }
        let commitment = match subtract_points(&self.commitment.point, &other.commitment.point) {
            Some(point) => point,
            None => {
                assert(false);
                self.commitment.point
            },
        };
        let handle = match subtract_points(&self.handle.point, &other.handle.point) {
            Some(point) => point,
            None => {
                assert(false);
                self.handle.point
            },
        };
        Ciphertext {
            commitment: PedersenCommitment { point: commitment },
            handle: DecryptHandle { point: handle },
        }
    }

    /// The ciphertext with an amount added: the point of the amount is added
    /// to the commitment.
    pub fn plus_amount(&self, amount: u64) -> (sum: Ciphertext)
        ensures
            sum.commitment().view() == point_sum(self.commitment().view(), amount_point_of(amount)),
            sum.handle() == self.handle(),
    {
        proof {
            use_type_invariant(&self.commitment);
        }
        let added = amount_point(amount);
        match add_points(&self.commitment.point, &added) {
            Some(point) => Ciphertext {
                commitment: PedersenCommitment { point },
                handle: self.handle,
            },
            None => {
                assert(false);
                *self
            },
        }
    }

    /// The ciphertext with an amount taken off: the point of the amount is
    /// taken off the commitment.
    pub fn minus_amount(&self, amount: u64) -> (difference: Ciphertext)
        ensures
            difference.commitment().view() == point_difference(
                self.commitment().view(),
                amount_point_of(amount),
            ),
            difference.handle() == self.handle(),
    {
        proof {
            use_type_invariant(&self.commitment);
        }
        let taken = amount_point(amount);
        match subtract_points(&self.commitment.point, &taken) {
            Some(point) => Ciphertext {
                commitment: PedersenCommitment { point },
                handle: self.handle,
            },
            None => {
                assert(false);
                *self
            },
        }
    }

    /// The commitment.
    pub fn get_commitment(&self) -> (commitment: &PedersenCommitment)
        ensures
            *commitment == self.commitment(),
    {
        &self.commitment
    }

    /// The handle.
    pub fn get_handle(&self) -> (handle: &DecryptHandle)
        ensures
            *handle == self.handle(),
    {
        &self.handle
    }
}

} // verus!
