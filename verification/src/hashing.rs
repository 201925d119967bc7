//! Content hashes of chunks and digests of whole files.

use vstd::prelude::*;

verus! {

/// The seed for cutting files into chunks and for hashing the chunks. It is
/// fixed, so that the same file always yields the same chunks and hashes.
pub const SS_SEED: u64 = 0x4202803010192019;

/// The 64-bit XXH3 hash of a byte string under a seed.
pub uninterp spec fn xxh3_64(bytes: Seq<u8>, seed: u64) -> u64;

/// The 128-bit XXH3 hash of a byte string under a seed.
pub uninterp spec fn xxh3_128(bytes: Seq<u8>, seed: u64) -> u128;

/// `xxhash_rust::xxh3::xxh3_64_with_seed`: its result is a function of the
/// bytes and the seed.
pub assume_specification[ xxhash_rust::xxh3::xxh3_64_with_seed ](input: &[u8], seed: u64) -> (hash:
    u64)
    ensures
        hash == xxh3_64(input@, seed),
;

/// `xxhash_rust::xxh3::xxh3_128_with_seed`: its result is a function of the
/// bytes and the seed.
pub assume_specification[ xxhash_rust::xxh3::xxh3_128_with_seed ](input: &[u8], seed: u64) -> (hash:
    u128)
    ensures
        hash == xxh3_128(input@, seed),
;

/// What can serve as the hash of a chunk.
pub trait Hashable: Copy + Eq + std::hash::Hash {
    /// The hash of a byte string.
    spec fn hash_of(bytes: Seq<u8>) -> Self;

    /// The hash as a number.
    spec fn number(&self) -> nat;

    /// Hashes a byte string with the library's seed.
    fn from_bytes_with_seed(bytes: &[u8]) -> (hash: Self)
        ensures
            hash == Self::hash_of(bytes@),
    ;

    /// Whether two hashes are the same.
    fn same(&self, other: &Self) -> (yes: bool)
        ensures
            yes == (*self == *other),
    ;

    /// The hash in decimal digits.
    fn to_decimal(&self) -> (digits: String)
        ensures
            digits@ == crate::text::decimal(self.number()),
    ;

    /// A hash map can be keyed by it.
    proof fn lemma_key_model()
        ensures
            vstd::std_specs::hash::obeys_key_model::<Self>(),
    ;
}

impl Hashable for u64 {
    open spec fn hash_of(bytes: Seq<u8>) -> u64 {
        xxh3_64(bytes, SS_SEED)
    }

    open spec fn number(&self) -> nat {
        *self as nat
    }

    fn from_bytes_with_seed(bytes: &[u8]) -> (hash: u64) {
        xxhash_rust::xxh3::xxh3_64_with_seed(bytes, SS_SEED)
    }

    fn same(&self, other: &u64) -> (yes: bool) {
        *self == *other
    }

    fn to_decimal(&self) -> (digits: String) {
        crate::text::decimal_text(*self as u128)
    }

    proof fn lemma_key_model() {
        broadcast use vstd::std_specs::hash::group_hash_axioms;

    }
}

impl Hashable for u128 {
    open spec fn hash_of(bytes: Seq<u8>) -> u128 {
        xxh3_128(bytes, SS_SEED)
    }

    open spec fn number(&self) -> nat {
        *self as nat
    }

    fn from_bytes_with_seed(bytes: &[u8]) -> (hash: u128) {
        xxhash_rust::xxh3::xxh3_128_with_seed(bytes, SS_SEED)
    }

    fn same(&self, other: &u128) -> (yes: bool) {
        *self == *other
    }

    fn to_decimal(&self) -> (digits: String) {
        crate::text::decimal_text(*self)
    }

    proof fn lemma_key_model() {
        broadcast use vstd::std_specs::hash::group_hash_axioms;

    }
}

// ---------------------------------------------------------------------------
// SHA-512
// ---------------------------------------------------------------------------

/// A running SHA-512 computation.
#[verifier::external_type_specification]
#[verifier::external_body]
pub struct ExSha512(sha2::Sha512);

/// The bytes that a running computation has been fed.
pub uninterp spec fn sha512_input(hasher: sha2::Sha512) -> Seq<u8>;

/// The SHA-512 digest of a byte string.
pub uninterp spec fn sha512(bytes: Seq<u8>) -> Seq<u8>;

/// `Sha512::new`: a computation that has been fed nothing.
#[verifier::external_body]
pub(crate) fn sha512_start() -> (hasher: sha2::Sha512)
    ensures
        sha512_input(hasher) == Seq::<u8>::empty(),
{
    sha2::Digest::new()
}

/// `Sha512::update`: feeds the given bytes after those fed before.
#[verifier::external_body]
pub(crate) fn sha512_update(hasher: &mut sha2::Sha512, bytes: &[u8])
    ensures
        sha512_input(*final(hasher)) == sha512_input(*old(hasher)) + bytes@,
{
    sha2::Digest::update(hasher, bytes)
}

/// `Sha512::finalize`: the digest of all bytes fed, 64 bytes long.
#[verifier::external_body]
pub(crate) fn sha512_finish(hasher: sha2::Sha512) -> (digest: [u8; 64])
    ensures
        digest@ == sha512(sha512_input(hasher)),
{
    sha2::Digest::finalize(hasher).into()
}

/// The SHA-512 digest of a byte string.
pub fn generate_sha_512(data: &[u8]) -> (digest: [u8; 64])
    ensures
        digest@ == sha512(data@),
{
    let mut hasher = sha512_start();
    sha512_update(&mut hasher, data);
    assert(Seq::<u8>::empty() + data@ =~= data@);
    sha512_finish(hasher)
}

// ---------------------------------------------------------------------------
// Running XXH3
// ---------------------------------------------------------------------------

/// A running XXH3 computation.
#[verifier::external_type_specification]
#[verifier::external_body]
pub struct ExXxh3(xxhash_rust::xxh3::Xxh3);

/// The bytes that a running computation has been fed.
pub uninterp spec fn xxh3_input(hasher: xxhash_rust::xxh3::Xxh3) -> Seq<u8>;

/// `Xxh3::new`: a computation with seed zero that has been fed nothing.
#[verifier::external_body]
pub(crate) fn xxh3_start() -> (hasher: xxhash_rust::xxh3::Xxh3)
    ensures
        xxh3_input(hasher) == Seq::<u8>::empty(),
{
    xxhash_rust::xxh3::Xxh3::new()
}

/// `Xxh3::update`: feeds the given bytes after those fed before.
#[verifier::external_body]
pub(crate) fn xxh3_update(hasher: &mut xxhash_rust::xxh3::Xxh3, bytes: &[u8])
    ensures
        xxh3_input(*final(hasher)) == xxh3_input(*old(hasher)) + bytes@,
{
    hasher.update(bytes)
}

/// `Xxh3::digest`, which is also what `Hasher::finish` returns: the 64-bit hash
/// of all bytes fed, with seed zero.
#[verifier::external_body]
pub(crate) fn xxh3_digest(hasher: &xxhash_rust::xxh3::Xxh3) -> (hash: u64)
    ensures
        hash == xxh3_64(xxh3_input(*hasher), 0),
{
    hasher.digest()
}

} // verus!
