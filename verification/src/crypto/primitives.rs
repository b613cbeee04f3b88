//! The outside crates that this library computes with: the cipher, the hash,
//! the key derivation, the random generators and the wiping of memory.

use vstd::prelude::*;
use argon2::password_hash::{PasswordHasher, SaltString};
use argon2::{Algorithm, Argon2, Params, Version};
use chacha20poly1305::aead::{Aead, KeyInit, OsRng};
use chacha20poly1305::{XChaCha20Poly1305, XNonce};
use rand::distributions::Alphanumeric;
use rand::{Rng, RngCore};
use sha2::{Digest, Sha256};
use zeroize::Zeroize;

verus! {

/// The error of the cipher, which carries nothing.
#[verifier::external_type_specification]
#[verifier::external_body]
pub struct ExAeadError(chacha20poly1305::aead::Error);

/// The bytes that sealing adds to a message.
pub const TAG_LEN: usize = 16;

/// The length of the key of the cipher.
pub const KEY_LEN: usize = 32;

/// The length of the nonce of the cipher.
pub const NONCE_LEN: usize = 24;

/// The length of a SHA-256 digest.
pub const DIGEST_LEN: usize = 32;

/// Whether the cipher seals a message of `n` bytes: its block counter has room
/// for all blocks of the message.
pub open spec fn cipher_accepts(n: nat) -> bool {
    n <= 64 * (u32::MAX - 1)
}

/// Whether the cipher returns when given a message of `n` bytes. It refuses
/// from `64 * u32::MAX` bytes on, and panics on the lengths in between, and
/// where the sealed message would not fit in memory.
pub open spec fn cipher_returns(n: nat) -> bool {
    &&& cipher_accepts(n) || n >= 64 * u32::MAX
    &&& n + TAG_LEN <= isize::MAX
}

/// Whether the cipher returns when given a message of `n` bytes.
pub fn cipher_takes(n: usize) -> (b: bool)
    ensures
        b == cipher_returns(n as nat),
{
    let n: u64 = n as u64;
    (n <= 64 * (u32::MAX as u64 - 1) || n >= 64 * u32::MAX as u64) && n <= isize::MAX as u64
        - TAG_LEN as u64
}

/// What XChaCha20-Poly1305 makes of `message` under `key` and `nonce`, without
/// associated data.
pub uninterp spec fn xchacha_sealed(key: Seq<u8>, nonce: Seq<u8>, message: Seq<u8>) -> Seq<u8>;

/// The message that XChaCha20-Poly1305 finds in `sealed` under `key` and
/// `nonce`, or `None` where the tag does not match.
pub uninterp spec fn xchacha_opened(key: Seq<u8>, nonce: Seq<u8>, sealed: Seq<u8>) -> Option<
    Seq<u8>,
>;

/// `Aead::encrypt` of `XChaCha20Poly1305`: seals every message that the block
/// counter has room for, appends a tag of 16 bytes, and `Aead::decrypt` under
/// the same key and nonce gives the message back.
#[verifier::external_body]
pub(crate) fn seal(key: &[u8; 32], nonce: &[u8; 24], message: &[u8]) -> (r: Result<
    Vec<u8>,
    chacha20poly1305::aead::Error,
>)
    requires
        cipher_returns(message@.len()),
    ensures
        r is Ok <==> cipher_accepts(message@.len()),
        r matches Ok(sealed) ==> sealed@ == xchacha_sealed(key@, nonce@, message@),
        r matches Ok(sealed) ==> sealed@.len() == message@.len() + TAG_LEN,
        r matches Ok(sealed) ==> xchacha_opened(key@, nonce@, sealed@) == Some(message@),
{
    XChaCha20Poly1305::new(key.into()).encrypt(XNonce::from_slice(nonce), message)
}

/// `Aead::decrypt` of `XChaCha20Poly1305`: succeeds exactly where the tag
/// matches. What it returns is 16 bytes shorter than what it was given, and
/// `Aead::encrypt` under the same key and nonce makes the same bytes of it.
#[verifier::external_body]
pub(crate) fn unseal(key: &[u8; 32], nonce: &[u8; 24], sealed: &[u8]) -> (r: Result<
    Vec<u8>,
    chacha20poly1305::aead::Error,
>)
    requires
        sealed@.len() >= TAG_LEN ==> cipher_returns((sealed@.len() - TAG_LEN) as nat),
    ensures
        r is Ok <==> xchacha_opened(key@, nonce@, sealed@) is Some,
        r matches Ok(message) ==> xchacha_opened(key@, nonce@, sealed@) == Some(message@),
        r matches Ok(message) ==> message@.len() + TAG_LEN == sealed@.len(),
        r matches Ok(message) ==> xchacha_sealed(key@, nonce@, message@) == sealed@,
{
    XChaCha20Poly1305::new(key.into()).decrypt(XNonce::from_slice(nonce), sealed)
}

/// The state of a SHA-256 computation.
#[verifier::external_body]
pub struct Sha256Hasher {
    inner: Sha256,
}

/// The bytes that a SHA-256 computation has taken in.
pub uninterp spec fn hashed_bytes(hasher: Sha256Hasher) -> Seq<u8>;

/// The SHA-256 digest of `data`.
pub uninterp spec fn sha256(data: Seq<u8>) -> Seq<u8>;

/// The number of bytes from which on the length of a SHA-256 input, in bits,
/// no longer fits its 64-bit counter.
pub const HASH_LIMIT: u64 = 0x2000_0000_0000_0000;

/// `Digest::new` of `Sha256`: has taken in nothing.
#[verifier::external_body]
pub(crate) fn sha256_begin() -> (hasher: Sha256Hasher)
    ensures
        hashed_bytes(hasher) == Seq::<u8>::empty(),
{
    Sha256Hasher { inner: Sha256::new() }
}

/// `Digest::update` of `Sha256`: takes in `data` behind what it has.
#[verifier::external_body]
pub(crate) fn sha256_update(hasher: &mut Sha256Hasher, data: &[u8])
    requires
        hashed_bytes(*old(hasher)).len() + data@.len() < HASH_LIMIT,
    ensures
        hashed_bytes(*final(hasher)) == hashed_bytes(*old(hasher)) + data@,
{
    hasher.inner.update(data)
}

/// `Digest::finalize` of `Sha256`: the digest, of 32 bytes, of what was taken
/// in.
#[verifier::external_body]
pub(crate) fn sha256_finish(hasher: Sha256Hasher) -> (digest: Vec<u8>)
    requires
        hashed_bytes(hasher).len() < HASH_LIMIT,
    ensures
        digest@ == sha256(hashed_bytes(hasher)),
        digest@.len() == DIGEST_LEN,
{
    hasher.inner.finalize().to_vec()
}

/// Whether Argon2 takes these costs: at least one pass, between one and
/// `2^24 - 1` lanes, and at least eight blocks of memory for each lane.
pub open spec fn argon2_costs_valid(memory_kib: u32, iterations: u32, parallelism: u32) -> bool {
    &&& memory_kib >= 8 * parallelism
    &&& iterations >= 1
    &&& 1 <= parallelism <= 0xFF_FFFF
}

/// `Params::new` without an output length: keeps the costs it is given, and
/// fails where they are not valid.
#[verifier::external_body]
pub(crate) fn argon2_costs(memory_kib: u32, iterations: u32, parallelism: u32) -> (r: Result<
    (u32, u32, u32),
    argon2::Error,
>)
    requires
        8 * parallelism <= u32::MAX,
    ensures
        r is Ok <==> argon2_costs_valid(memory_kib, iterations, parallelism),
        r matches Ok(costs) ==> costs == (memory_kib, iterations, parallelism),
{
    Params::new(memory_kib, iterations, parallelism, None).map(
        |p: Params| (p.m_cost(), p.t_cost(), p.p_cost()),
    )
}

/// Whether `c` may stand in a salt string.
pub open spec fn salt_char(c: char) -> bool {
    ||| 'a' <= c <= 'z'
    ||| 'A' <= c <= 'Z'
    ||| '0' <= c <= '9'
    ||| c == '/'
    ||| c == '+'
    ||| c == '.'
    ||| c == '-'
}

/// Whether `salt` is a salt string: 4 to 64 characters out of those allowed.
pub open spec fn salt_string_valid(salt: Seq<char>) -> bool {
    &&& 4 <= salt.len() <= 64
    &&& forall|i: int| 0 <= i < salt.len() ==> salt_char(#[trigger] salt[i])
}

/// Whether `salt` is the unpadded Base64 form of 16 bytes: 22 characters of
/// the alphabet, the last of which stands for two bits followed by zeros.
pub open spec fn salt_of_16_bytes(salt: Seq<char>) -> bool {
    &&& salt.len() == 22
    &&& forall|i: int|
        0 <= i < salt.len() ==> salt_char(#[trigger] salt[i]) && salt[i] != '.' && salt[i] != '-'
    &&& salt[21] == 'A' || salt[21] == 'Q' || salt[21] == 'g' || salt[21] == 'w'
}

/// `SaltString::generate` with the generator of the operating system: the
/// Base64 form of 16 random bytes. It panics where the operating system gives
/// no random bytes.
#[verifier::external_body]
pub(crate) fn generate_salt_string() -> (salt: String)
    ensures
        salt_of_16_bytes(salt@),
{
    SaltString::generate(&mut OsRng).as_str().to_owned()
}

/// `SaltString::from_b64`: keeps the text of a salt string, and refuses any
/// other text.
#[verifier::external_body]
pub(crate) fn parse_salt_string(text: &str) -> (r: Result<String, argon2::password_hash::Error>)
    ensures
        r is Ok <==> salt_string_valid(text@),
        r matches Ok(salt) ==> salt@ == text@,
{
    SaltString::from_b64(text).map(|salt: SaltString| salt.as_str().to_owned())
}

/// What Argon2id, version 0x13, derives from `password` and the salt string
/// `salt` at these costs, or `None` where it refuses them.
pub uninterp spec fn argon2id(
    password: Seq<u8>,
    salt: Seq<char>,
    memory_kib: u32,
    iterations: u32,
    parallelism: u32,
) -> Option<Seq<u8>>;

/// `PasswordHasher::hash_password` of `Argon2` with Argon2id, version 0x13:
/// derives 32 bytes. It does so from every password of at most `u32::MAX` bytes
/// with a salt of 16 bytes, and refuses every longer password. It panics where
/// the memory that it is to use does not fit in the address space.
#[verifier::external_body]
pub(crate) fn argon2id_hash(
    password: &[u8],
    salt: &str,
    memory_kib: u32,
    iterations: u32,
    parallelism: u32,
) -> (r: Result<Option<Vec<u8>>, argon2::password_hash::Error>)
    requires
        salt_string_valid(salt@),
        argon2_costs_valid(memory_kib, iterations, parallelism),
        memory_kib * 1024 <= isize::MAX,
    ensures
        r is Ok <==> argon2id(password@, salt@, memory_kib, iterations, parallelism) is Some,
        r matches Ok(hash) ==> hash is Some,
        r matches Ok(Some(hash)) ==> hash@.len() == 32 && argon2id(
            password@,
            salt@,
            memory_kib,
            iterations,
            parallelism,
        ) == Some(hash@),
        password@.len() <= u32::MAX && salt_of_16_bytes(salt@) ==> r is Ok,
        password@.len() > u32::MAX ==> r is Err,
{
    let params = Params::new(memory_kib, iterations, parallelism, None)?;
    let salt = SaltString::from_b64(salt)?;
    let hash = Argon2::new(Algorithm::Argon2id, Version::V0x13, params).hash_password(
        password,
        &salt,
    )?;
    Ok(hash.hash.map(|output| output.as_bytes().to_vec()))
}

/// `RngCore::fill_bytes` of the generator of the operating system. Nothing is
/// known of the bytes. It panics where the operating system gives none.
#[verifier::external_body]
pub(crate) fn fill_random(buffer: &mut [u8])
    ensures
        final(buffer)@.len() == old(buffer)@.len(),
{
    OsRng.fill_bytes(buffer)
}

/// Whether `c` is an ASCII letter or digit.
pub open spec fn ascii_alphanumeric(c: char) -> bool {
    'a' <= c <= 'z' || 'A' <= c <= 'Z' || '0' <= c <= '9'
}

/// `Rng::sample` of the thread's generator with `Alphanumeric`: an ASCII
/// letter or digit.
#[verifier::external_body]
pub(crate) fn random_alphanumeric() -> (c: u8)
    ensures
        ascii_alphanumeric(c as char),
{
    rand::thread_rng().sample(Alphanumeric)
}

/// `Zeroize::zeroize` of an array: all bytes become zero.
#[verifier::external_body]
pub(crate) fn wipe_key(key: &mut [u8; 32])
    ensures
        forall|i: int| 0 <= i < 32 ==> final(key)@[i] == 0,
    opens_invariants none
    no_unwind
{
    key.zeroize()
}

/// `Zeroize::zeroize` of a vector: the bytes become zero, then the vector
/// empty.
#[verifier::external_body]
pub(crate) fn wipe_buffer(buffer: &mut Vec<u8>)
    ensures
        final(buffer)@ == Seq::<u8>::empty(),
{
    buffer.zeroize()
}

/// `Zeroize::zeroize` of a text: the bytes become zero, then the text empty.
#[verifier::external_body]
pub(crate) fn wipe_text(text: &mut String)
    ensures
        final(text)@ == Seq::<char>::empty(),
{
    text.zeroize()
}

} // verus!
