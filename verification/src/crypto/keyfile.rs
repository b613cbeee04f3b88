//! The key file: the master key, sealed under a key that is derived from a
//! password.
//!
//! `salt length u32 | salt | sealed master key`

use vstd::prelude::*;
use vstd::utf8::{
    decode_utf8, encode_utf8, encode_utf8_decode_utf8, encode_utf8_valid_utf8,
    is_ascii_chars_encode_utf8, valid_utf8,
};
use crate::bytes::{
    append, law_le32_is_little_endian, law_le32_roundtrip, law_le32_value_is_little_endian, le32,
    le32_value, u32_from_le, u32_to_le,
};
use crate::crypto::error::CryptoError;
use crate::crypto::key::{
    simple_decrypt_data, simple_encrypt_with_nonce, simple_opened, simple_sealed, SecureKey,
};
use crate::crypto::primitives::{
    argon2_costs, argon2id, argon2id_hash, cipher_returns, fill_random, generate_salt_string,
    parse_salt_string, salt_of_16_bytes, salt_string_valid, wipe_buffer, wipe_key,
    xchacha_opened, xchacha_sealed, KEY_LEN, NONCE_LEN, TAG_LEN,
};
use crate::text::str_from_utf8;

verus! {

/// The salt length that a key file may claim.
pub const MAX_KEYFILE_SALT_LEN: usize = 128;

/// The memory that Argon2id uses, in KiB.
pub const ARGON2_MEMORY_KIB: u32 = 65536;

/// The number of passes that Argon2id makes.
pub const ARGON2_ITERATIONS: u32 = 4;

/// The number of lanes that Argon2id uses.
pub const ARGON2_PARALLELISM: u32 = 4;

/// The key derived from `password` and `salt`, or `None` where the derivation
/// refuses them.
pub open spec fn derived_from(password: Seq<u8>, salt: Seq<char>) -> Option<Seq<u8>> {
    argon2id(password, salt, ARGON2_MEMORY_KIB, ARGON2_ITERATIONS, ARGON2_PARALLELISM)
}

/// The key file that consists of `salt` and `sealed`.
pub open spec fn key_file_of(salt: Seq<u8>, sealed: Seq<u8>) -> Seq<u8> {
    le32(salt.len() as u32) + salt + sealed
}

/// The salt and the sealed master key of a key file.
pub open spec fn key_file_parts(file: Seq<u8>) -> Result<(Seq<u8>, Seq<u8>), CryptoError> {
    if file.len() < 4 {
        Err(CryptoError::InvalidKeyFile)
    } else {
        let n = le32_value(file.subrange(0, 4));
        if n == 0 || n > MAX_KEYFILE_SALT_LEN {
            Err(CryptoError::InvalidSaltLength)
        } else if file.len() < 4 + n {
            Err(CryptoError::KeyFileTruncated)
        } else {
            Ok((file.subrange(4, 4 + n), file.skip(4 + n)))
        }
    }
}

/// The master key in what the sealed part of a key file opened to.
pub open spec fn master_key_in(opened: Result<Seq<u8>, CryptoError>) -> Result<
    Seq<u8>,
    CryptoError,
> {
    match opened {
        Err(_) => Err(CryptoError::KeyRejected),
        Ok(plain) => if plain.len() == KEY_LEN {
            Ok(plain)
        } else {
            Err(CryptoError::InvalidKeyLength)
        },
    }
}

/// Whether `r` is what comes of opening the key file `file` with `password`.
/// Of the errors about the salt it is not said which detail they carry.
pub open spec fn recovers(
    file: Seq<u8>,
    password: Seq<u8>,
    r: Result<Seq<u8>, CryptoError>,
) -> bool {
    match key_file_parts(file) {
        Err(e) => r == Err::<Seq<u8>, CryptoError>(e),
        Ok((salt, sealed)) => if !valid_utf8(salt) {
            r matches Err(CryptoError::SaltNotUtf8(_))
        } else if !salt_string_valid(decode_utf8(salt)) {
            r matches Err(CryptoError::InvalidSalt(_))
        } else {
            match derived_from(password, decode_utf8(salt)) {
                None => r == Err::<Seq<u8>, CryptoError>(CryptoError::WrongPassword),
                Some(key) => r == master_key_in(simple_opened(sealed, key)),
            }
        },
    }
}

/// What recovering a key returned, as contracts speak of it.
pub open spec fn recovered_view(r: Result<SecureKey, CryptoError>) -> Result<Seq<u8>, CryptoError> {
    match r {
        Ok(key) => Ok(key@),
        Err(e) => Err(e),
    }
}

/// Whether `file` is a key file with a salt of 16 bytes that holds `key`,
/// sealed under what is derived from `password`.
pub open spec fn protects(file: Seq<u8>, password: Seq<u8>, key: Seq<u8>) -> bool {
    match key_file_parts(file) {
        Err(_) => false,
        Ok((salt, sealed)) => {
            let text = decode_utf8(salt);
            &&& salt == encode_utf8(text)
            &&& salt_of_16_bytes(text)
            &&& derived_from(password, text) matches Some(derived)
            &&& sealed == simple_sealed(key, derived, sealed.subrange(0, NONCE_LEN as int))
        },
    }
}

/// Whether the cipher returns when given the sealed part of `file`.
pub open spec fn key_file_returns(file: Seq<u8>) -> bool {
    match key_file_parts(file) {
        Err(_) => true,
        Ok((_, sealed)) => sealed.len() >= NONCE_LEN + TAG_LEN ==> cipher_returns(
            (sealed.len() - NONCE_LEN - TAG_LEN) as nat,
        ),
    }
}

/// What a key file is made of comes back when it is taken apart.
pub proof fn law_key_file_parts(salt: Seq<u8>, sealed: Seq<u8>)
    requires
        1 <= salt.len() <= MAX_KEYFILE_SALT_LEN,
    ensures
        key_file_parts(key_file_of(salt, sealed)) == Ok::<(Seq<u8>, Seq<u8>), CryptoError>(
            (salt, sealed),
        ),
{
    let file = key_file_of(salt, sealed);
    let n = salt.len() as u32;
    law_le32_roundtrip(n);
    assert(file.subrange(0, 4) =~= le32(n));
    assert(file.subrange(4, 4 + n) =~= salt);
    assert(file.skip(4 + n) =~= sealed);
}

/// A key file that gives `key` back under `password` gives nothing else.
pub proof fn law_recovery_is_unique(
    file: Seq<u8>,
    password: Seq<u8>,
    key: Seq<u8>,
    r: Result<Seq<u8>, CryptoError>,
)
    requires
        recovers(file, password, Ok(key)),
        recovers(file, password, r),
    ensures
        r == Ok::<Seq<u8>, CryptoError>(key),
{
}

/// The costs of the key derivation.
pub fn argon2_params() -> (r: Result<(u32, u32, u32), CryptoError>)
    ensures
        r == Ok::<(u32, u32, u32), CryptoError>(
            (ARGON2_MEMORY_KIB, ARGON2_ITERATIONS, ARGON2_PARALLELISM),
        ),
{
    match argon2_costs(ARGON2_MEMORY_KIB, ARGON2_ITERATIONS, ARGON2_PARALLELISM) {
        Ok(costs) => Ok(costs),
        Err(e) => Err(CryptoError::KdfParams(e)),
    }
}

/// The first 32 bytes of `bytes`, as a key.
fn key_from(bytes: &[u8]) -> (key: SecureKey)
    requires
        bytes@.len() >= KEY_LEN,
    ensures
        key@ == bytes@.subrange(0, KEY_LEN as int),
{
    let mut copy: [u8; 32] = [0u8; 32];
    let mut i: usize = 0;
    while i < 32
        invariant
            i <= 32,
            bytes@.len() >= 32,
            forall|j: int| 0 <= j < i ==> copy@[j] == bytes@[j],
        decreases 32 - i,
    {
        copy[i] = bytes[i];
        i = i + 1;
    }
    assert(copy@ =~= bytes@.subrange(0, 32));
    let key = SecureKey::new(copy);
    wipe_key(&mut copy);
    key
}

/// The key that a key derivation returned.
pub fn derived_key(hash: Option<Vec<u8>>) -> (r: Result<SecureKey, CryptoError>)
    requires
        hash matches Some(bytes) ==> bytes@.len() >= KEY_LEN,
    ensures
        match hash {
            Some(bytes) => r matches Ok(key) && key@ == bytes@.subrange(0, KEY_LEN as int),
            None => r == Err::<SecureKey, CryptoError>(CryptoError::KdfEmpty),
        },
{
    match hash {
        Some(bytes) => Ok(key_from(bytes.as_slice())),
        None => Err(CryptoError::KdfEmpty),
    }
}

/// The key file that consists of `salt` and `sealed`.
pub fn key_file(salt: &[u8], sealed: &[u8]) -> (file: Vec<u8>)
    requires
        salt@.len() <= u32::MAX,
    ensures
        file@ == key_file_of(salt@, sealed@),
{
    let mut file: Vec<u8> = Vec::new();
    append(&mut file, &u32_to_le(salt.len() as u32));
    append(&mut file, salt);
    append(&mut file, sealed);
    file
}

/// The salt and the sealed master key of a key file.
pub fn split_key_file(file: &[u8]) -> (r: Result<(&[u8], &[u8]), CryptoError>)
    ensures
        match r {
            Ok((salt, sealed)) => key_file_parts(file@) == Ok::<(Seq<u8>, Seq<u8>), CryptoError>(
                (salt@, sealed@),
            ),
            Err(e) => key_file_parts(file@) == Err::<(Seq<u8>, Seq<u8>), CryptoError>(e),
        },
{
    if file.len() < 4 {
        return Err(CryptoError::InvalidKeyFile);
    }
    let (front, rest) = file.split_at(4);
    let n: usize = u32_from_le(front) as usize;
    if n == 0 || n > MAX_KEYFILE_SALT_LEN {
        return Err(CryptoError::InvalidSaltLength);
    }
    if rest.len() < n {
        return Err(CryptoError::KeyFileTruncated);
    }
    let (salt, sealed) = rest.split_at(n);
    assert(salt@ =~= file@.subrange(4, 4 + n));
    assert(sealed@ =~= file@.skip(4 + n));
    Ok((salt, sealed))
}

/// The master key in what the sealed part of a key file opened to.
pub fn master_key(opened: Result<Vec<u8>, CryptoError>) -> (r: Result<SecureKey, CryptoError>)
    ensures
        match opened {
            Ok(plain) => match r {
                Ok(key) => plain@.len() == KEY_LEN && key@ == plain@,
                Err(e) => plain@.len() != KEY_LEN && e == CryptoError::InvalidKeyLength,
            },
            Err(_) => r == Err::<SecureKey, CryptoError>(CryptoError::KeyRejected),
        },
{
    let mut plain = match opened {
        Ok(plain) => plain,
        Err(_) => return Err(CryptoError::KeyRejected),
    };
    if plain.len() != KEY_LEN {
        return Err(CryptoError::InvalidKeyLength);
    }
    let key = key_from(plain.as_slice());
    assert(key@ =~= plain@);
    wipe_buffer(&mut plain);
    Ok(key)
}

/// The key file that protects `key` with `password`, this salt and this nonce.
pub fn protect_key_with_salt(
    key: &SecureKey,
    password: &str,
    salt: &str,
    nonce: &[u8; 24],
) -> (r: Result<Vec<u8>, CryptoError>)
    requires
        salt_string_valid(salt@),
    ensures
        match derived_from(encode_utf8(password@), salt@) {
            Some(derived) => {
                &&& r matches Ok(file)
                &&& file@ == key_file_of(encode_utf8(salt@), simple_sealed(key@, derived, nonce@))
                &&& file@.len() == 4 + salt@.len() + NONCE_LEN + KEY_LEN + TAG_LEN
                &&& recovers(file@, encode_utf8(password@), Ok(key@))
            },
            None => r matches Err(CryptoError::KdfFailed(_)),
        },
        salt_of_16_bytes(salt@) ==> (r is Ok <==> encode_utf8(password@).len() <= u32::MAX),
{
    let (memory_kib, iterations, parallelism) = match argon2_params() {
        Ok(costs) => costs,
        Err(e) => return Err(e),
    };
    let hash = match argon2id_hash(password.as_bytes(), salt, memory_kib, iterations, parallelism) {
        Ok(hash) => hash,
        Err(e) => return Err(CryptoError::KdfFailed(e)),
    };
    let ghost bytes = hash->Some_0@;
    let derived = match derived_key(hash) {
        Ok(derived) => derived,
        Err(e) => return Err(e),
    };
    assert(derived@ =~= bytes);
    let sealed = match simple_encrypt_with_nonce(key.as_bytes(), &derived, nonce) {
        Ok(sealed) => sealed,
        Err(e) => return Err(e),
    };
    proof {
        is_ascii_chars_encode_utf8(salt@);
        encode_utf8_valid_utf8(salt@);
        encode_utf8_decode_utf8(salt@);
        law_key_file_parts(encode_utf8(salt@), sealed@);
    }
    Ok(key_file(salt.as_bytes(), sealed.as_slice()))
}

/// The key file that protects `key` with `password`, a random salt and a random
/// nonce. It gives `key` back under the same password.
pub fn protect_key_with_password(key: &SecureKey, password: &str) -> (r: Result<
    Vec<u8>,
    CryptoError,
>)
    ensures
        r is Ok <==> encode_utf8(password@).len() <= u32::MAX,
        match r {
            Ok(file) => {
                &&& file@.len() == 4 + 22 + NONCE_LEN + KEY_LEN + TAG_LEN
                &&& protects(file@, encode_utf8(password@), key@)
                &&& recovers(file@, encode_utf8(password@), Ok(key@))
            },
            Err(e) => e is KdfFailed,
        },
{
    let salt = generate_salt_string();
    let mut nonce: [u8; 24] = [0u8; 24];
    fill_random(&mut nonce);
    let r = protect_key_with_salt(key, password, salt.as_str(), &nonce);
    proof {
        if r is Ok {
            let derived = derived_from(encode_utf8(password@), salt@)->Some_0;
            let sealed = simple_sealed(key@, derived, nonce@);
            is_ascii_chars_encode_utf8(salt@);
            encode_utf8_decode_utf8(salt@);
            law_key_file_parts(encode_utf8(salt@), sealed);
            assert(sealed.subrange(0, NONCE_LEN as int) =~= nonce@);
        }
    }
    r
}

/// The master key in the key file `file`, opened with `password`.
pub fn recover_key_from_password(file: &[u8], password: &str) -> (r: Result<
    SecureKey,
    CryptoError,
>)
    requires
        key_file_returns(file@),
    ensures
        recovers(file@, encode_utf8(password@), recovered_view(r)),
{
    let (salt_bytes, sealed) = match split_key_file(file) {
        Ok(parts) => parts,
        Err(e) => return Err(e),
    };
    let text = match str_from_utf8(salt_bytes) {
        Ok(text) => text,
        Err(e) => return Err(CryptoError::SaltNotUtf8(e)),
    };
    let salt = match parse_salt_string(text) {
        Ok(salt) => salt,
        Err(e) => return Err(CryptoError::InvalidSalt(e)),
    };
    let (memory_kib, iterations, parallelism) = match argon2_params() {
        Ok(costs) => costs,
        Err(e) => return Err(e),
    };
    let hash = match argon2id_hash(
        password.as_bytes(),
        salt.as_str(),
        memory_kib,
        iterations,
        parallelism,
    ) {
        Ok(hash) => hash,
        Err(_) => return Err(CryptoError::WrongPassword),
    };
    let ghost bytes = hash->Some_0@;
    let derived = match derived_key(hash) {
        Ok(derived) => derived,
        Err(e) => return Err(e),
    };
    assert(derived@ =~= bytes);
    master_key(simple_decrypt_data(sealed, &derived))
}

/// A key file is the length of the salt, as four bytes with the last one first, the
/// salt, and what was sealed.
pub proof fn law_key_file_layout(salt: Seq<u8>, sealed: Seq<u8>)
    requires
        salt.len() <= u32::MAX,
    ensures
        ({
            let file = key_file_of(salt, sealed);
            let n = salt.len() as int;
            &&& n == file[0] + file[1] * 0x100 + file[2] * 0x1_0000 + file[3] * 0x100_0000
            &&& file.subrange(4, 4 + n) == salt
            &&& file.skip(4 + n) == sealed
        }),
{
    let file = key_file_of(salt, sealed);
    let n = salt.len() as int;
    law_le32_is_little_endian(n as u32);
    assert(file.subrange(0, 4) =~= le32(n as u32));
    assert(file[0] == le32(n as u32)[0] && file[1] == le32(n as u32)[1] && file[2]
        == le32(n as u32)[2] && file[3] == le32(n as u32)[3]);
    assert(file.subrange(4, 4 + n) =~= salt);
    assert(file.skip(4 + n) =~= sealed);
}

/// A key file gives up a key exactly where the whole password, with the salt in the
/// file and at the full costs, derives what the key was sealed under: no other
/// password will do, whatever the length of either.
pub proof fn law_only_the_password_recovers(file: Seq<u8>, password: Seq<u8>, key: Seq<u8>)
    ensures
        ({
            let n = file[0] + file[1] * 0x100 + file[2] * 0x1_0000 + file[3] * 0x100_0000;
            let salt = file.subrange(4, 4 + n);
            let sealed = file.skip(4 + n);
            let derived = argon2id(password, decode_utf8(salt), 65536, 4, 4);
            recovers(file, password, Ok(key)) <==> {
                &&& file.len() >= 4
                &&& 1 <= n <= 128
                &&& file.len() >= 4 + n
                &&& valid_utf8(salt)
                &&& salt_string_valid(decode_utf8(salt))
                &&& derived is Some
                &&& sealed.len() >= 24
                &&& xchacha_opened(derived->Some_0, sealed.subrange(0, 24), sealed.skip(24))
                    == Some(key)
                &&& key.len() == 32
            }
        }),
{
    if file.len() >= 4 {
        let bytes = file.subrange(0, 4);
        law_le32_value_is_little_endian(bytes);
        assert(bytes[0] == file[0] && bytes[1] == file[1] && bytes[2] == file[2] && bytes[3]
            == file[3]);
    }
}

/// Why a key file gives up no key: it is too short, its salt is too long or empty,
/// cut off, no text or no salt string, the password cannot be taken, or what was
/// sealed does not open, or not to a key.
pub proof fn law_refused_key_files(file: Seq<u8>, password: Seq<u8>, e: CryptoError)
    requires
        recovers(file, password, Err(e)),
    ensures
        ({
            let n = file[0] + file[1] * 0x100 + file[2] * 0x1_0000 + file[3] * 0x100_0000;
            let salt = file.subrange(4, 4 + n);
            let sealed = file.skip(4 + n);
            let derived = argon2id(password, decode_utf8(salt), 65536, 4, 4);
            if file.len() < 4 {
                e == CryptoError::InvalidKeyFile
            } else if n == 0 || n > 128 {
                e == CryptoError::InvalidSaltLength
            } else if file.len() < 4 + n {
                e == CryptoError::KeyFileTruncated
            } else if !valid_utf8(salt) {
                e is SaltNotUtf8
            } else if !salt_string_valid(decode_utf8(salt)) {
                e is InvalidSalt
            } else if derived is None {
                e == CryptoError::WrongPassword
            } else if sealed.len() < 24 || xchacha_opened(
                derived->Some_0,
                sealed.subrange(0, 24),
                sealed.skip(24),
            ) is None {
                e == CryptoError::KeyRejected
            } else {
                e == CryptoError::InvalidKeyLength
            }
        }),
{
    if file.len() >= 4 {
        let bytes = file.subrange(0, 4);
        law_le32_value_is_little_endian(bytes);
        assert(bytes[0] == file[0] && bytes[1] == file[1] && bytes[2] == file[2] && bytes[3]
            == file[3]);
    }
}

/// A key file that protects a key has a salt of 22 characters, and behind it the
/// key, sealed under what the whole password derives with that salt.
pub proof fn law_protected_key_is_sealed(file: Seq<u8>, password: Seq<u8>, key: Seq<u8>)
    requires
        protects(file, password, key),
        file.len() >= 50,
    ensures
        ({
            let salt = file.subrange(4, 26);
            let nonce = file.subrange(26, 50);
            let derived = argon2id(password, decode_utf8(salt), 65536, 4, 4);
            &&& file[0] == 22
            &&& file[1] == 0 && file[2] == 0 && file[3] == 0
            &&& derived is Some
            &&& file.skip(26) == nonce + xchacha_sealed(derived->Some_0, nonce, key)
        }),
{
    let bytes = file.subrange(0, 4);
    law_le32_value_is_little_endian(bytes);
    assert(bytes[0] == file[0] && bytes[1] == file[1] && bytes[2] == file[2] && bytes[3]
        == file[3]);
    let parts = key_file_parts(file)->Ok_0;
    let text = decode_utf8(parts.0);
    is_ascii_chars_encode_utf8(text);
    assert(parts.0.len() == 22);
    assert(parts.1.subrange(0, 24) =~= file.subrange(26, 50));
}

} // verus!
