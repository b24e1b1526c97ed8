//! Digests, the difficulty predicate and signatures.
//!
//! SHA-256 and Ed25519 are computed by outside code; this module gives each a
//! name in specifications, so that contracts can say which digest or which
//! signature a value holds, and proves the difficulty predicate itself.

use crate::state::{transactions_view, Transaction, TransactionView};
use sha2::Digest;
use ursa::signatures::SignatureScheme;
use vstd::prelude::*;

verus! {

/// The number of leading zero bytes that a block hash must have.
pub const DIFFICULTY: usize = 2;

/// The length of a digest in bytes.
pub const DIGEST_LENGTH: usize = 32;

/// The length of a public key in bytes.
pub const PUBLIC_KEY_LENGTH: usize = 32;

/// The length of a private key in bytes: the secret half and the public half.
pub const PRIVATE_KEY_LENGTH: usize = 64;

/// The SHA-256 digest of `data`.
pub uninterp spec fn sha256(data: Seq<u8>) -> Seq<u8>;

/// Computes the SHA-256 digest of `hash_data` with `sha2::Sha256` (`new`,
/// `update`, `finalize`). The contract names the digest and states its length,
/// 32 bytes; nothing else about the digest is assumed.
#[verifier::external_body]
pub fn hash(hash_data: &[u8]) -> (digest: Vec<u8>)
    ensures
        digest@ == sha256(hash_data@),
        digest@.len() == DIGEST_LENGTH,
{
    let mut hasher = sha2::Sha256::new();
    hasher.update(hash_data);
    hasher.finalize().as_slice().to_owned()
}

/// The number of zero bytes at the front of `hash`.
pub open spec fn leading_zero_bytes(hash: Seq<u8>) -> nat
    decreases hash.len(),
{
    if hash.len() > 0 && hash[0] == 0 {
        1 + leading_zero_bytes(hash.drop_first())
    } else {
        0
    }
}

/// The difficulty predicate: at least `zero_count` leading zero bytes.
pub open spec fn meets_difficulty(hash: Seq<u8>, zero_count: nat) -> bool {
    leading_zero_bytes(hash) >= zero_count
}

/// The leading zero bytes are a run of zeros that ends with the hash or with
/// a byte that is not zero.
pub proof fn lemma_leading_zero_bytes(hash: Seq<u8>)
    ensures
        leading_zero_bytes(hash) <= hash.len(),
        forall|i: int| 0 <= i < leading_zero_bytes(hash) ==> hash[i] == 0,
        leading_zero_bytes(hash) < hash.len() ==> hash[leading_zero_bytes(hash) as int] != 0,
    decreases hash.len(),
{
    if hash.len() > 0 && hash[0] == 0 {
        let rest = hash.drop_first();
        lemma_leading_zero_bytes(rest);
        assert forall|i: int| 0 <= i < leading_zero_bytes(hash) implies hash[i] == 0 by {
            if i > 0 {
                assert(hash[i] == rest[i - 1]);
            }
        }
        if leading_zero_bytes(hash) < hash.len() {
            assert(hash[leading_zero_bytes(hash) as int] == rest[leading_zero_bytes(rest) as int]);
        }
    }
}

/// A run of zeros at the front, ended by the hash or by another byte, is the
/// run of leading zero bytes.
pub proof fn lemma_leading_zero_bytes_is(hash: Seq<u8>, count: nat)
    requires
        count <= hash.len(),
        forall|i: int| 0 <= i < count ==> hash[i] == 0,
        count < hash.len() ==> hash[count as int] != 0,
    ensures
        leading_zero_bytes(hash) == count,
    decreases hash.len(),
{
    if count > 0 {
        let rest = hash.drop_first();
        assert forall|i: int| 0 <= i < count - 1 implies rest[i] == 0 by {
            assert(rest[i] == hash[i + 1]);
        }
        lemma_leading_zero_bytes_is(rest, (count - 1) as nat);
    }
}

/// A hash meets a difficulty exactly when it is at least that long and
/// starts with that many zero bytes.
pub proof fn lemma_meets_difficulty(hash: Seq<u8>, zero_count: nat)
    ensures
        meets_difficulty(hash, zero_count) <==> (zero_count <= hash.len() && forall|i: int|
            0 <= i < zero_count ==> hash[i] == 0),
{
    lemma_leading_zero_bytes(hash);
}

/// Whether `hash` starts with at least `target_hash_zero_count` zero bytes.
pub fn is_hash_valid(hash: &Vec<u8>, target_hash_zero_count: usize) -> (valid: bool)
    ensures
        valid == meets_difficulty(hash@, target_hash_zero_count as nat),
{
    let mut count: usize = 0;
    while count < hash.len() && hash[count] == 0
        invariant
            count <= hash.len(),
            forall|i: int| 0 <= i < count ==> hash@[i] == 0,
        decreases hash.len() - count,
    {
        count += 1;
    }
    proof {
        lemma_leading_zero_bytes_is(hash@, count as nat);
    }
    count >= target_hash_zero_count
}

/// A private signing key: the 64 bytes of an Ed25519 key pair, the secret
/// half first.
#[derive(Debug)]
pub struct PrivateKey {
    bytes: Vec<u8>,
}

impl View for PrivateKey {
    type V = Seq<u8>;

    closed spec fn view(&self) -> Seq<u8> {
        self.bytes@
    }
}

impl PrivateKey {
    /// The key that `bytes` spell.
    pub fn from_bytes(bytes: Vec<u8>) -> (key: PrivateKey)
        ensures
            key@ == bytes@,
    {
        PrivateKey { bytes }
    }

    /// The bytes of the key.
    pub fn as_bytes(&self) -> (bytes: &Vec<u8>)
        ensures
            bytes@ == self@,
    {
        &self.bytes
    }
}

impl Clone for PrivateKey {
    fn clone(&self) -> (copy: PrivateKey)
        ensures
            copy@ == self@,
    {
        PrivateKey { bytes: self.bytes.clone() }
    }
}

/// The error of the signature library; nothing is known of what it holds.
#[verifier::external_type_specification]
#[verifier::external_body]
pub struct ExCryptoError(ursa::CryptoError);

/// The Ed25519 signature of `message` under the key pair `key`, or `None`
/// where `key` is no key pair.
pub uninterp spec fn ed25519_signature(message: Seq<u8>, key: Seq<u8>) -> Option<Seq<u8>>;

/// Signs `message` with `ursa`'s `Ed25519Sha512::sign`. The signature is a
/// function of the message and the key bytes alone: the contract names it and
/// says that the call fails exactly where there is none.
#[verifier::external_body]
fn ed25519_sign(message: &[u8], key: &Vec<u8>) -> (result: Result<Vec<u8>, ursa::CryptoError>)
    ensures
        match result {
            Ok(signature) => ed25519_signature(message@, key@) == Some(signature@),
            Err(_) => ed25519_signature(message@, key@) is None,
        },
{
    let key = ursa::keys::PrivateKey(key.clone());
    ursa::signatures::ed25519::Ed25519Sha512::new().sign(message, &key)
}

/// What makes two byte strings the halves of a key pair as it is laid out
/// in memory: the public key has 32 bytes, the private key 64, and the second
/// half of the private key is the public key.
pub open spec fn paired(public_key: Seq<u8>, private_key: Seq<u8>) -> bool {
    &&& public_key.len() == PUBLIC_KEY_LENGTH
    &&& private_key.len() == PRIVATE_KEY_LENGTH
    &&& private_key.subrange(PUBLIC_KEY_LENGTH as int, PRIVATE_KEY_LENGTH as int) == public_key
}

/// Draws a fresh key pair with `ursa`'s `Ed25519Sha512::keypair`, asked for
/// keys from the system's random source: the public key and the private key,
/// as bytes. Which keys come is left open. What the contract claims is what
/// the library does whatever the random source gives: without a seed or a
/// given secret its code has no failing path, the public key is the 32 bytes
/// of the generated pair, and the private key is the pair's 64 bytes, the
/// secret half followed by those same 32 bytes.
#[verifier::external_body]
fn ed25519_keypair() -> (keys: Result<(Vec<u8>, Vec<u8>), ursa::CryptoError>)
    ensures
        keys is Ok,
        keys matches Ok((public_key, private_key)) ==> paired(public_key@, private_key@),
{
    match ursa::signatures::ed25519::Ed25519Sha512::new().keypair(None) {
        Ok((public, private)) => Ok((public.0.clone(), private.0.clone())),
        Err(error) => Err(error),
    }
}

/// Signs `message` with `key`; `None` where `key` is no key pair.
pub fn sign(message: &[u8], key: &PrivateKey) -> (signature: Option<Vec<u8>>)
    ensures
        match signature {
            Some(bytes) => ed25519_signature(message@, key@) == Some(bytes@),
            None => ed25519_signature(message@, key@) is None,
        },
{
    match ed25519_sign(message, &key.bytes) {
        Ok(bytes) => Some(bytes),
        Err(_) => None,
    }
}

/// A public key and the private key that belongs to it.
#[derive(Debug)]
pub struct KeyPair {
    pub public_key: Vec<u8>,
    pub private_key: PrivateKey,
}

/// Draws a fresh key pair from the system's random source. There always is
/// one: the signature library has no way to fail here. The public key has 32
/// bytes and the private key 64, of which the second half is the public key;
/// which keys they are is up to the random source.
pub fn generate_key_pair() -> (keys: Option<KeyPair>)
    ensures
        keys is Some,
        keys matches Some(pair) ==> paired(pair.public_key@, pair.private_key@),
{
    match ed25519_keypair() {
        Ok((public_key, private)) => Some(
            KeyPair { public_key, private_key: PrivateKey::from_bytes(private) },
        ),
        Err(_) => None,
    }
}

/// The text that `{:?}` prints for a list of transactions, as bytes.
pub uninterp spec fn debug_text(transactions: Seq<TransactionView>) -> Seq<u8>;

/// Formats a list of transactions with the standard library's `format!` and
/// the derived `Debug` of [`Transaction`]: the bytes that a miner signs. The
/// text shows the fee and the commands of each transaction and nothing else,
/// so the contract names it by what the transactions say.
#[verifier::external_body]
pub(crate) fn transactions_debug_text(transactions: &Vec<Transaction>) -> (text: Vec<u8>)
    ensures
        text@ == debug_text(transactions_view(transactions@)),
{
    format!("{:?}", transactions).into_bytes()
}

} // verus!
