//! The master key, nonces, random names, and sealing of small pieces of data.

use vstd::prelude::*;
use crate::bytes::{append, be64, law_be64_injective, law_be64_is_big_endian, u64_to_be};
use crate::crypto::error::CryptoError;
use crate::crypto::primitives::{
    ascii_alphanumeric, cipher_accepts, cipher_returns, fill_random, random_alphanumeric, seal,
    unseal, wipe_key, xchacha_opened, xchacha_sealed, NONCE_LEN, TAG_LEN,
};

verus! {

/// The length of the salt of a container.
pub const SALT_LEN: usize = 16;

/// A key of the cipher, wiped from memory when it is dropped.
pub struct SecureKey {
    key: [u8; 32],
}

impl View for SecureKey {
    type V = Seq<u8>;

    closed spec fn view(&self) -> Seq<u8> {
        self.key@
    }
}

impl Drop for SecureKey {
    /// Wipes the key: all bytes become zero.
    fn drop(&mut self)
        ensures
            final(self)@.len() == 32,
            forall|i: int| 0 <= i < 32 ==> final(self)@[i] == 0,
        opens_invariants none
        no_unwind
    {
        wipe_key(&mut self.key)
    }
}

impl SecureKey {
    /// The key that consists of `data`.
    pub fn new(data: [u8; 32]) -> (key: Self)
        ensures
            key@ == data@,
    {
        SecureKey { key: data }
    }

    /// A random key: [`SecureKey::new`] of 32 bytes from the generator of the
    /// operating system. Nothing is known of the bytes.
    pub fn generate() -> (key: Self)
        ensures
            key@.len() == 32,
    {
        let mut bytes: [u8; 32] = [0u8; 32];
        fill_random(&mut bytes);
        SecureKey::new(bytes)
    }

    /// The bytes of the key.
    pub fn as_bytes(&self) -> (bytes: &[u8; 32])
        ensures
            bytes@ == self@,
    {
        &self.key
    }

    /// Another copy of the key.
    pub(crate) fn duplicate(&self) -> (key: Self)
        ensures
            key@ == self@,
    {
        SecureKey { key: self.key }
    }
}

/// The length of a random name.
pub const RANDOM_NAME_LEN: usize = 16;

/// Whether `name` is as [`random_name`] draws it for that length.
pub open spec fn is_random_name(name: Seq<char>) -> bool {
    &&& name.len() == RANDOM_NAME_LEN
    &&& forall|i: int| 0 <= i < name.len() ==> ascii_alphanumeric(#[trigger] name[i])
}

/// A name of `len` random letters and digits, for ciphertexts, temporary files
/// and keys.
pub fn random_name(len: usize) -> (name: String)
    ensures
        name@.len() == len,
        forall|i: int| 0 <= i < len ==> ascii_alphanumeric(#[trigger] name@[i]),
{
    let mut name = String::new();
    let mut i: usize = 0;
    while i < len
        invariant
            i <= len,
            name@.len() == i,
            forall|j: int| 0 <= j < i ==> ascii_alphanumeric(#[trigger] name@[j]),
        decreases len - i,
    {
        name.push(random_alphanumeric() as char);
        i = i + 1;
    }
    name
}

/// The nonce of the block with number `counter` in a container with this salt.
pub open spec fn block_nonce(salt: Seq<u8>, counter: u64) -> Seq<u8> {
    salt + be64(counter)
}

/// The nonce of the block with number `counter` in a container with this salt.
pub fn create_nonce(salt: &[u8; 16], counter: u64) -> (nonce: [u8; 24])
    ensures
        nonce@ == block_nonce(salt@, counter),
{
    let number: [u8; 8] = u64_to_be(counter);
    let mut nonce: [u8; 24] = [0u8; 24];
    let mut i: usize = 0;
    while i < 16
        invariant
            i <= 16,
            forall|j: int| 0 <= j < i ==> nonce@[j] == salt@[j],
        decreases 16 - i,
    {
        nonce[i] = salt[i];
        i = i + 1;
    }
    i = 0;
    while i < 8
        invariant
            i <= 8,
            forall|j: int| 0 <= j < 16 ==> nonce@[j] == salt@[j],
            forall|j: int| 0 <= j < i ==> nonce@[16 + j] == number@[j],
        decreases 8 - i,
    {
        nonce[16 + i] = number[i];
        i = i + 1;
    }
    assert(nonce@ =~= block_nonce(salt@, counter)) by {
        assert forall|j: int| 16 <= j < 24 implies nonce@[j] == number@[j - 16] by {
            assert(nonce@[16 + (j - 16)] == number@[j - 16]);
        }
    }
    nonce
}

/// Blocks with different numbers have different nonces.
pub proof fn law_nonces_distinct(salt: Seq<u8>, a: u64, b: u64)
    requires
        a != b,
    ensures
        block_nonce(salt, a) != block_nonce(salt, b),
{
    if block_nonce(salt, a) == block_nonce(salt, b) {
        let n = salt.len() as int;
        assert(block_nonce(salt, a).subrange(n, n + 8) =~= be64(a));
        assert(block_nonce(salt, b).subrange(n, n + 8) =~= be64(b));
        law_be64_injective(a, b);
    }
}

/// The first 24 bytes of `data`.
fn nonce_array(data: &[u8]) -> (nonce: [u8; 24])
    requires
        data@.len() >= NONCE_LEN,
    ensures
        nonce@ == data@.subrange(0, NONCE_LEN as int),
{
    let mut nonce: [u8; 24] = [0u8; 24];
    let mut i: usize = 0;
    while i < 24
        invariant
            i <= 24,
            data@.len() >= 24,
            forall|j: int| 0 <= j < i ==> nonce@[j] == data@[j],
        decreases 24 - i,
    {
        nonce[i] = data[i];
        i = i + 1;
    }
    assert(nonce@ =~= data@.subrange(0, 24));
    nonce
}

/// What [`simple_encrypt_data`] makes of `data` when it draws `nonce`.
pub open spec fn simple_sealed(data: Seq<u8>, key: Seq<u8>, nonce: Seq<u8>) -> Seq<u8> {
    nonce + xchacha_sealed(key, nonce, data)
}

/// What [`simple_decrypt_data`] returns.
pub open spec fn simple_opened(data: Seq<u8>, key: Seq<u8>) -> Result<Seq<u8>, CryptoError> {
    if data.len() < NONCE_LEN {
        Err(CryptoError::DataTooShort)
    } else {
        match xchacha_opened(key, data.subrange(0, NONCE_LEN as int), data.skip(NONCE_LEN as int)) {
            Some(plain) => Ok(plain),
            None => Err(CryptoError::DecryptData),
        }
    }
}

/// What sealing or opening returned, as contracts speak of it.
pub open spec fn bytes_view(r: Result<Vec<u8>, CryptoError>) -> Result<Seq<u8>, CryptoError> {
    match r {
        Ok(bytes) => Ok(bytes@),
        Err(e) => Err(e),
    }
}

/// Seals `data` under `key` and `nonce`, and puts the nonce in front.
pub fn simple_encrypt_with_nonce(data: &[u8], key: &SecureKey, nonce: &[u8; 24]) -> (r: Result<
    Vec<u8>,
    CryptoError,
>)
    requires
        cipher_returns(data@.len()),
    ensures
        r is Ok <==> cipher_accepts(data@.len()),
        r matches Ok(out) ==> out@ == simple_sealed(data@, key@, nonce@),
        r matches Ok(out) ==> out@.len() == NONCE_LEN + data@.len() + TAG_LEN,
        r matches Ok(out) ==> simple_opened(out@, key@) == Ok::<Seq<u8>, CryptoError>(data@),
        r matches Err(e) ==> e == CryptoError::EncryptData,
{
    match seal(key.as_bytes(), nonce, data) {
        Ok(sealed) => {
            let mut out: Vec<u8> = Vec::new();
            append(&mut out, nonce);
            append(&mut out, sealed.as_slice());
            assert(out@ =~= nonce@ + sealed@);
            assert(out@.subrange(0, NONCE_LEN as int) =~= nonce@);
            assert(out@.skip(NONCE_LEN as int) =~= sealed@);
            Ok(out)
        },
        Err(_) => Err(CryptoError::EncryptData),
    }
}

/// Seals `data` under `key` and a random nonce, which stands in front.
pub fn simple_encrypt_data(data: &[u8], key: &SecureKey) -> (r: Result<Vec<u8>, CryptoError>)
    requires
        cipher_returns(data@.len()),
    ensures
        r is Ok <==> cipher_accepts(data@.len()),
        r matches Ok(out) ==> out@.len() == NONCE_LEN + data@.len() + TAG_LEN,
        r matches Ok(out) ==> out@ == simple_sealed(
            data@,
            key@,
            out@.subrange(0, NONCE_LEN as int),
        ),
        r matches Ok(out) ==> simple_opened(out@, key@) == Ok::<Seq<u8>, CryptoError>(data@),
        r matches Err(e) ==> e == CryptoError::EncryptData,
{
    let mut nonce: [u8; 24] = [0u8; 24];
    fill_random(&mut nonce);
    let r = simple_encrypt_with_nonce(data, key, &nonce);
    proof {
        if r is Ok {
            assert(r->Ok_0@.subrange(0, NONCE_LEN as int) =~= nonce@);
        }
    }
    r
}

/// Opens what [`simple_encrypt_data`] made.
pub fn simple_decrypt_data(data: &[u8], key: &SecureKey) -> (r: Result<Vec<u8>, CryptoError>)
    requires
        data@.len() >= NONCE_LEN + TAG_LEN ==> cipher_returns(
            (data@.len() - NONCE_LEN - TAG_LEN) as nat,
        ),
    ensures
        bytes_view(r) == simple_opened(data@, key@),
        r matches Ok(plain) ==> plain@.len() + NONCE_LEN + TAG_LEN == data@.len(),
{
    if data.len() < NONCE_LEN {
        return Err(CryptoError::DataTooShort);
    }
    let (front, sealed) = data.split_at(NONCE_LEN);
    let nonce = nonce_array(front);
    assert(nonce@ =~= data@.subrange(0, NONCE_LEN as int));
    assert(sealed@ =~= data@.skip(NONCE_LEN as int));
    match unseal(key.as_bytes(), &nonce, sealed) {
        Ok(plain) => Ok(plain),
        Err(_) => Err(CryptoError::DecryptData),
    }
}

/// A nonce begins with the salt, and ends with the number of the block to the base
/// 256, the first digit first.
pub proof fn law_nonce_is_salt_and_number(salt: Seq<u8>, counter: u64)
    requires
        salt.len() == 16,
    ensures
        ({
            let nonce = block_nonce(salt, counter);
            &&& nonce.len() == 24
            &&& nonce.subrange(0, 16) == salt
            &&& counter == nonce[23] + nonce[22] * 0x100 + nonce[21] * 0x1_0000 + nonce[20]
                * 0x100_0000 + nonce[19] * 0x1_0000_0000 + nonce[18] * 0x100_0000_0000 + nonce[17]
                * 0x1_0000_0000_0000 + nonce[16] * 0x100_0000_0000_0000
        }),
{
    law_be64_is_big_endian(counter);
    assert(block_nonce(salt, counter).subrange(0, 16) =~= salt);
}

/// Sealed data opens to what the cipher finds behind the nonce in front, and to
/// nothing else, whatever its length.
pub proof fn law_sealed_data_opens_behind_its_nonce(data: Seq<u8>, key: Seq<u8>, plain: Seq<u8>)
    ensures
        simple_opened(data, key) == Ok::<Seq<u8>, CryptoError>(plain) <==> data.len() >= 24
            && xchacha_opened(key, data.subrange(0, 24), data.skip(24)) == Some(plain),
        simple_opened(data, key) matches Err(e) ==> e == if data.len() < 24 {
            CryptoError::DataTooShort
        } else {
            CryptoError::DecryptData
        },
{
}

/// Data is sealed under the nonce that stands in front of it.
pub proof fn law_nonce_stands_in_front(data: Seq<u8>, key: Seq<u8>, nonce: Seq<u8>)
    requires
        nonce.len() == 24,
    ensures
        simple_sealed(data, key, nonce).subrange(0, 24) == nonce,
        simple_sealed(data, key, nonce).skip(24) == xchacha_sealed(key, nonce, data),
{
    let sealed = simple_sealed(data, key, nonce);
    assert(sealed.subrange(0, 24) =~= nonce);
    assert(sealed.skip(24) =~= xchacha_sealed(key, nonce, data));
}

} // verus!
