//! The answer to an upload: the ciphertext, and the key file that goes with it.

use vstd::prelude::*;
use vstd::utf8::encode_utf8;
use base64::engine::general_purpose::STANDARD;
use base64::Engine;
use crate::crypto::container::{
    body_of, chunk_count, container, container_opens, decrypts_to, header_of, law_container_len,
    law_decrypted_is_what_is_read, MAX_METADATA_LEN,
};
use crate::crypto::keyfile::{protects, recovers};
use crate::crypto::primitives::{
    cipher_accepts, cipher_returns, wipe_text, HASH_LIMIT, KEY_LEN, NONCE_LEN, TAG_LEN,
};
use crate::crypto::{encrypt_stream, protect_key_with_password, random_name, CryptoError, SecureKey};
use crate::crypto::key::{is_random_name, RANDOM_NAME_LEN, SALT_LEN};
use crate::text::joined;
use crate::web::error::{
    refusal, ApiError, Refusal, INTERNAL_SERVER_ERROR, REQUEST_TIMEOUT, SERVICE_UNAVAILABLE,
};
use crate::web::guard::{header, headers_view};
use crate::web::upload::{accepted, law_accepted_upload_fits, FormView, Upload};

verus! {

/// The character of the Base64 alphabet with index `v`.
pub open spec fn base64_char(v: int) -> char {
    if v < 26 {
        (65 + v) as char
    } else if v < 52 {
        (97 + v - 26) as char
    } else if v < 62 {
        (48 + v - 52) as char
    } else if v == 62 {
        '+'
    } else {
        '/'
    }
}

/// `bytes` in Base64 with padding: four characters for every three bytes, of six
/// bits each.
pub open spec fn base64_of(bytes: Seq<u8>) -> Seq<char>
    decreases bytes.len(),
{
    if bytes.len() == 0 {
        Seq::empty()
    } else {
        let a = bytes[0] as int;
        let b = if bytes.len() > 1 {
            bytes[1] as int
        } else {
            0
        };
        let c = if bytes.len() > 2 {
            bytes[2] as int
        } else {
            0
        };
        seq![
            base64_char(a / 4),
            base64_char(a % 4 * 16 + b / 16),
            if bytes.len() > 1 {
                base64_char(b % 16 * 4 + c / 64)
            } else {
                '='
            },
            if bytes.len() > 2 {
                base64_char(c % 64)
            } else {
                '='
            },
        ] + if bytes.len() > 3 {
            base64_of(bytes.skip(3))
        } else {
            Seq::empty()
        }
    }
}

/// `Engine::encode` of the engine `STANDARD`: the bytes in the standard Base64
/// alphabet with padding. It panics where the text would not fit in memory.
#[verifier::external_body]
pub(crate) fn base64_text(bytes: &[u8]) -> (text: String)
    requires
        bytes@.len() + 2 <= isize::MAX / 2,
    ensures
        text@ == base64_of(bytes@),
{
    STANDARD.encode(bytes)
}

/// Whether `ciphertext` is the container of `data` and `filename` under `key` and
/// `salt`.
pub open spec fn is_container(
    ciphertext: Seq<u8>,
    key: Seq<u8>,
    salt: Seq<u8>,
    filename: Seq<char>,
    data: Seq<u8>,
) -> bool {
    &&& salt.len() == SALT_LEN
    &&& ciphertext == container(key, salt, encode_utf8(filename), data)
    &&& container_opens(key, salt, encode_utf8(filename), data)
}

/// Whether `ciphertext` and `key_file` hold `data` and `filename`: the password
/// recovers a key from the key file, the ciphertext is a container under the key,
/// and the key decrypts it.
pub open spec fn holds_upload(
    ciphertext: Seq<u8>,
    key_file: Seq<u8>,
    password: Seq<char>,
    filename: Seq<char>,
    data: Seq<u8>,
    key: Seq<u8>,
) -> bool {
    &&& protects(key_file, encode_utf8(password), key)
    &&& recovers(key_file, encode_utf8(password), Ok(key))
    &&& exists|salt: Seq<u8>| is_container(ciphertext, key, salt, filename, data)
    &&& decrypts_to(key, ciphertext, filename, data)
}

/// Whether `ciphertext` and `key_file` hold `data` and `filename` under some key.
pub open spec fn keeps_upload(
    ciphertext: Seq<u8>,
    key_file: Seq<u8>,
    password: Seq<char>,
    filename: Seq<char>,
    data: Seq<u8>,
) -> bool {
    exists|key: Seq<u8>| holds_upload(ciphertext, key_file, password, filename, data, key)
}

/// The container of `data` under `key`, in a vector of its own.
fn encrypt_data(key: &SecureKey, filename: &str, data: &[u8]) -> (r: Result<Vec<u8>, CryptoError>)
    requires
        cipher_returns(encode_utf8(filename@).len()),
        data@.len() < HASH_LIMIT,
    ensures
        r is Ok <==> encode_utf8(filename@).len() + TAG_LEN <= MAX_METADATA_LEN,
        match r {
            Ok(ciphertext) => {
                &&& exists|salt: Seq<u8>|
                    is_container(ciphertext@, key@, salt, filename@, data@)
                &&& decrypts_to(key@, ciphertext@, filename@, data@)
            },
            Err(e) => e == if cipher_accepts(encode_utf8(filename@).len()) {
                CryptoError::FilenameTooLong
            } else {
                CryptoError::EncryptMetadata
            },
        },
{
    let mut ciphertext: Vec<u8> = Vec::new();
    let mut progress: Vec<u64> = Vec::new();
    match encrypt_stream(data, &mut ciphertext, key, filename, &mut progress) {
        Ok(()) => {
            assert(ciphertext@.skip(0) =~= ciphertext@);
            assert(is_container(
                ciphertext@,
                key@,
                ciphertext@.subrange(0, SALT_LEN as int),
                filename@,
                data@,
            ));
            Ok(ciphertext)
        },
        Err(e) => Err(e),
    }
}

/// Encrypts `data` under a new key, and protects the key with `password`: gives
/// the ciphertext and the key file.
pub fn encrypt_in_memory(password: &str, filename: &str, data: &[u8]) -> (r: Result<
    (Vec<u8>, Vec<u8>),
    CryptoError,
>)
    requires
        cipher_returns(encode_utf8(filename@).len()),
        data@.len() < HASH_LIMIT,
    ensures
        r is Ok <==> encode_utf8(password@).len() <= u32::MAX && encode_utf8(filename@).len()
            + TAG_LEN <= MAX_METADATA_LEN,
        match r {
            Ok((ciphertext, key_file)) => {
                &&& key_file@.len() == 4 + 22 + NONCE_LEN + KEY_LEN + TAG_LEN
                &&& ciphertext@.len() == encode_utf8(filename@).len() + data@.len() + 21
                    * chunk_count(data@.len()) + 86
                &&& keeps_upload(ciphertext@, key_file@, password@, filename@, data@)
            },
            Err(e) => if encode_utf8(password@).len() > u32::MAX {
                e is KdfFailed
            } else if cipher_accepts(encode_utf8(filename@).len()) {
                e == CryptoError::FilenameTooLong
            } else {
                e == CryptoError::EncryptMetadata
            },
        },
{
    let key = SecureKey::generate();
    let key_file = match protect_key_with_password(&key, password) {
        Ok(key_file) => key_file,
        Err(e) => return Err(e),
    };
    match encrypt_data(&key, filename, data) {
        Ok(ciphertext) => {
            assert(holds_upload(ciphertext@, key_file@, password@, filename@, data@, key@));
            proof {
                let salt = choose|salt: Seq<u8>|
                    is_container(ciphertext@, key@, salt, filename@, data@);
                law_container_len(key@, salt, encode_utf8(filename@), data@);
            }
            assert(keeps_upload(ciphertext@, key_file@, password@, filename@, data@));
            Ok((ciphertext, key_file))
        },
        Err(e) => Err(e),
    }
}

/// The answer to an upload.
#[derive(Debug)]
pub struct EncryptedReply {
    /// The headers.
    pub headers: Vec<(String, String)>,
    /// The body.
    pub body: Vec<u8>,
}

/// The headers of the answer that carries the key file `key_file`. The names of
/// the two downloads share a stem.
pub open spec fn reply_headers(stem: Seq<char>, key_file: Seq<u8>) -> Seq<(Seq<char>, Seq<char>)> {
    seq![
        ("content-type"@, "application/octet-stream"@),
        ("content-disposition"@, "attachment; filename=\""@ + stem + ".enc\""@),
        ("x-encrypt-key"@, base64_of(key_file)),
        ("x-encrypt-key-filename"@, stem + ".key"@),
    ]
}

/// The answer that carries `ciphertext` and `key_file`, under names with this
/// stem.
pub fn encrypted_reply(stem: &str, ciphertext: Vec<u8>, key_file: &[u8]) -> (reply: EncryptedReply)
    requires
        key_file@.len() + 2 <= isize::MAX / 2,
    ensures
        headers_view(reply.headers@) == reply_headers(stem@, key_file@),
        reply.body@ == ciphertext@,
{
    let mut headers: Vec<(String, String)> = Vec::new();
    headers.push(header("content-type", "application/octet-stream"));
    let mut disposition = joined("attachment; filename=\"", stem);
    disposition.append(".enc\"");
    headers.push(header("content-disposition", disposition.as_str()));
    headers.push(header("x-encrypt-key", base64_text(key_file).as_str()));
    headers.push(header("x-encrypt-key-filename", joined(stem, ".key").as_str()));
    assert(headers_view(headers@) =~= reply_headers(stem@, key_file@));
    EncryptedReply { headers, body: ciphertext }
}

/// Answers an upload when the encryption has succeeded or failed.
pub fn encrypt_handler(outcome: Result<(Vec<u8>, Vec<u8>), CryptoError>) -> (r: Result<
    EncryptedReply,
    ApiError,
>)
    requires
        outcome matches Ok((_, key_file)) ==> key_file@.len() + 2 <= isize::MAX / 2,
    ensures
        match outcome {
            Ok((ciphertext, key_file)) => {
                &&& r matches Ok(reply)
                &&& reply.body@ == ciphertext@
                &&& exists|stem: Seq<char>| #[trigger]
                    is_random_name(stem) && headers_view(reply.headers@) == reply_headers(
                        stem,
                        key_file@,
                    )
            },
            Err(_) => r matches Err(e) && e@ == refusal(
                INTERNAL_SERVER_ERROR,
                "Encryption failed"@,
            ),
        },
{
    match outcome {
        Ok((ciphertext, key_file)) => {
            let stem = random_name(RANDOM_NAME_LEN);
            assert(is_random_name(stem@));
            Ok(encrypted_reply(stem.as_str(), ciphertext, key_file.as_slice()))
        },
        Err(_) => Err(ApiError::new(INTERNAL_SERVER_ERROR, "Encryption failed")),
    }
}

/// Whether `reply` answers an upload: for one random stem and one key file, its
/// headers carry them, and its body and the key file hold the upload.
pub open spec fn answers_upload(
    reply: EncryptedReply,
    password: Seq<char>,
    filename: Seq<char>,
    data: Seq<u8>,
    stem: Seq<char>,
    key_file: Seq<u8>,
) -> bool {
    &&& is_random_name(stem)
    &&& headers_view(reply.headers@) == reply_headers(stem, key_file)
    &&& keeps_upload(reply.body@, key_file, password, filename, data)
}

/// Encrypts an upload and answers it, and wipes its password. What was accepted
/// is answered with its ciphertext and its key file.
pub fn answer_upload(upload: Upload<String, Vec<u8>>) -> (r: Result<EncryptedReply, ApiError>)
    requires
        cipher_returns(encode_utf8(upload.filename@).len()),
        upload.data@.len() < HASH_LIMIT,
    ensures
        r is Ok <==> encode_utf8(upload.password@).len() <= u32::MAX && encode_utf8(
            upload.filename@,
        ).len() + TAG_LEN <= MAX_METADATA_LEN,
        match r {
            Ok(reply) => exists|stem: Seq<char>, key_file: Seq<u8>| #[trigger]
                answers_upload(
                    reply,
                    upload.password@,
                    upload.filename@,
                    upload.data@,
                    stem,
                    key_file,
                ),
            Err(e) => e@ == refusal(INTERNAL_SERVER_ERROR, "Encryption failed"@),
        },
{
    let mut password = upload.password;
    let outcome = encrypt_in_memory(
        password.as_str(),
        upload.filename.as_str(),
        upload.data.as_slice(),
    );
    let ghost made = outcome->Ok_0;
    wipe_text(&mut password);
    let r = encrypt_handler(outcome);
    proof {
        if r is Ok {
            let reply = r->Ok_0;
            let stem = choose|stem: Seq<char>| #[trigger]
                is_random_name(stem) && headers_view(reply.headers@) == reply_headers(
                    stem,
                    made.1@,
                );
            assert(answers_upload(
                reply,
                upload.password@,
                upload.filename@,
                upload.data@,
                stem,
                made.1@,
            ));
        }
    }
    r
}

/// Every upload that is accepted, and that the hash has room for, is one that
/// [`answer_upload`] answers with its ciphertext and its key file.
pub proof fn law_accepted_upload_is_answered(form: FormView)
    requires
        accepted(form) is Ok,
    ensures
        ({
            let upload = accepted(form)->Ok_0;
            &&& cipher_returns(encode_utf8(upload.filename).len())
            &&& encode_utf8(upload.password).len() <= u32::MAX
            &&& encode_utf8(upload.filename).len() + TAG_LEN <= MAX_METADATA_LEN
        }),
{
    law_accepted_upload_fits(form);
}

proof fn lemma_base64_char(a: int, b: int)
    requires
        0 <= a < 64,
        0 <= b < 64,
        base64_char(a) == base64_char(b),
    ensures
        a == b,
        base64_char(a) != '=',
{
    assert(base64_char(a) as int == base64_char(b) as int);
}

/// The first three bytes behind the first four characters of a Base64 form.
proof fn lemma_base64_front(bytes: Seq<u8>)
    requires
        bytes.len() > 0,
    ensures
        ({
            let text = base64_of(bytes);
            let a = bytes[0] as int;
            let b = if bytes.len() > 1 {
                bytes[1] as int
            } else {
                0
            };
            let c = if bytes.len() > 2 {
                bytes[2] as int
            } else {
                0
            };
            &&& text.len() >= 4
            &&& text[0] == base64_char(a / 4)
            &&& text[1] == base64_char(a % 4 * 16 + b / 16)
            &&& text[2] == if bytes.len() > 1 {
                base64_char(b % 16 * 4 + c / 64)
            } else {
                '='
            }
            &&& text[3] == if bytes.len() > 2 {
                base64_char(c % 64)
            } else {
                '='
            }
            &&& text.skip(4) == if bytes.len() > 3 {
                base64_of(bytes.skip(3))
            } else {
                Seq::empty()
            }
        }),
{
    let rest = if bytes.len() > 3 {
        base64_of(bytes.skip(3))
    } else {
        Seq::empty()
    };
    assert(base64_of(bytes).skip(4) =~= rest);
}

/// Different bytes have different Base64 forms: whoever decodes the key header
/// finds the key file.
pub proof fn law_base64_injective(a: Seq<u8>, b: Seq<u8>)
    requires
        base64_of(a) == base64_of(b),
    ensures
        a == b,
    decreases a.len(),
{
    if a.len() > 0 {
        lemma_base64_front(a);
    }
    if b.len() > 0 {
        lemma_base64_front(b);
    }
    if a.len() == 0 || b.len() == 0 {
        assert(a =~= b);
    } else {
        let (a0, b0) = (a[0] as int, b[0] as int);
        let a1 = if a.len() > 1 {
            a[1] as int
        } else {
            0
        };
        let b1 = if b.len() > 1 {
            b[1] as int
        } else {
            0
        };
        let a2 = if a.len() > 2 {
            a[2] as int
        } else {
            0
        };
        let b2 = if b.len() > 2 {
            b[2] as int
        } else {
            0
        };
        lemma_base64_char(a0 / 4, b0 / 4);
        lemma_base64_char(a0 % 4 * 16 + a1 / 16, b0 % 4 * 16 + b1 / 16);
        lemma_base64_char(a1 % 16 * 4 + a2 / 64, a1 % 16 * 4 + a2 / 64);
        lemma_base64_char(b1 % 16 * 4 + b2 / 64, b1 % 16 * 4 + b2 / 64);
        lemma_base64_char(a2 % 64, a2 % 64);
        lemma_base64_char(b2 % 64, b2 % 64);
        if a.len() > 1 {
            lemma_base64_char(a1 % 16 * 4 + a2 / 64, b1 % 16 * 4 + b2 / 64);
        }
        if a.len() > 2 {
            lemma_base64_char(a2 % 64, b2 % 64);
        }
        if a.len() > 3 {
            lemma_base64_front(a.skip(3));
        }
        if b.len() > 3 {
            lemma_base64_front(b.skip(3));
        }
        if a.len() > 3 {
            law_base64_injective(a.skip(3), b.skip(3));
            assert forall|i: int| 3 <= i < a.len() implies a[i] == b[i] by {
                assert(a.skip(3)[i - 3] == b.skip(3)[i - 3]);
            }
            assert(a.skip(3).len() == b.skip(3).len());
        }
        assert(a =~= b);
    }
}

/// Why a request was not worked on to its end.
#[derive(Clone, Copy, Debug, PartialEq, Eq, Structural)]
pub enum Interruption {
    /// No worker became free in time.
    Busy,
    /// The service is about to end.
    ShuttingDown,
    /// The upload took too long.
    TimedOut,
    /// The worker failed.
    TaskFailed,
}

/// The refusal that answers an interruption.
pub open spec fn interrupted(why: Interruption) -> Refusal {
    match why {
        Interruption::Busy => refusal(SERVICE_UNAVAILABLE, "Server busy, retry shortly"@),
        Interruption::ShuttingDown => refusal(SERVICE_UNAVAILABLE, "Server is shutting down"@),
        Interruption::TimedOut => refusal(REQUEST_TIMEOUT, "Upload timed out"@),
        Interruption::TaskFailed => refusal(INTERNAL_SERVER_ERROR, "Encryption task failed"@),
    }
}

/// The refusal that answers an interruption.
pub fn interruption(why: Interruption) -> (e: ApiError)
    ensures
        e@ == interrupted(why),
{
    match why {
        Interruption::Busy => ApiError::new(SERVICE_UNAVAILABLE, "Server busy, retry shortly"),
        Interruption::ShuttingDown => {
            ApiError::new(SERVICE_UNAVAILABLE, "Server is shutting down")
        },
        Interruption::TimedOut => ApiError::new(REQUEST_TIMEOUT, "Upload timed out"),
        Interruption::TaskFailed => {
            ApiError::new(INTERNAL_SERVER_ERROR, "Encryption task failed")
        },
    }
}

/// The answer to an upload offers the ciphertext and the key file under one name,
/// and carries the key file in full.
pub proof fn law_downloads_share_a_name(stem: Seq<char>, key_file: Seq<u8>)
    ensures
        ({
            let headers = reply_headers(stem, key_file);
            &&& headers.len() == 4
            &&& headers[0] == ("content-type"@, "application/octet-stream"@)
            &&& headers[1].0 == "content-disposition"@
            &&& headers[1].1 == "attachment; filename=\""@ + stem + ".enc"@ + "\""@
            &&& headers[2] == ("x-encrypt-key"@, base64_of(key_file))
            &&& headers[3].0 == "x-encrypt-key-filename"@
            &&& headers[3].1 == stem + ".key"@
        }),
{
    reveal_strlit(".enc\"");
    reveal_strlit(".enc");
    reveal_strlit("\"");
    assert("attachment; filename=\""@ + stem + ".enc\""@ =~= "attachment; filename=\""@ + stem
        + ".enc"@ + "\""@);
}

/// Base64 takes four characters for every three bytes, also for the last ones, and
/// what stands in front does not depend on what follows.
pub proof fn law_base64_goes_by_threes(front: Seq<u8>, rest: Seq<u8>)
    requires
        front.len() == 3,
    ensures
        base64_of(front + rest) == base64_of(front) + base64_of(rest),
        base64_of(front).len() == 4,
        base64_of(rest).len() == 4 * ((rest.len() + 2) / 3),
{
    let whole = front + rest;
    assert(whole.skip(3) =~= rest);
    assert(base64_of(front) + base64_of(rest) =~= base64_of(whole));
    lemma_base64_len(rest);
}

proof fn lemma_base64_len(bytes: Seq<u8>)
    ensures
        base64_of(bytes).len() == 4 * ((bytes.len() + 2) / 3),
    decreases bytes.len(),
{
    if bytes.len() > 3 {
        lemma_base64_len(bytes.skip(3));
    }
}

/// Every interruption is answered with a status that says whose fault it is: the
/// service cannot be had, the upload took too long, or the service failed.
pub proof fn law_interruptions_have_their_status(why: Interruption)
    ensures
        why == Interruption::Busy || why == Interruption::ShuttingDown ==> interrupted(why).status
            == 503,
        why == Interruption::TimedOut ==> interrupted(why).status == 408,
        why == Interruption::TaskFailed ==> interrupted(why).status == 500,
{
}

/// The number that a character of Base64 stands for.
pub open spec fn sextet(c: char) -> int {
    if 'A' <= c <= 'Z' {
        c as int - 65
    } else if 'a' <= c <= 'z' {
        c as int - 71
    } else if '0' <= c <= '9' {
        c as int + 4
    } else if c == '+' {
        62
    } else if c == '/' {
        63
    } else {
        -1
    }
}

/// Three bytes can be read from the four characters that they are written as, and so
/// can the one byte or the two that are left at the end, where `=` fills up.
pub proof fn law_base64_can_be_read(bytes: Seq<u8>)
    requires
        1 <= bytes.len() <= 3,
    ensures
        ({
            let s = base64_of(bytes);
            let a = bytes[0] as int;
            let b = bytes[1] as int;
            let c = bytes[2] as int;
            &&& s.len() == 4
            &&& 0 <= sextet(s[0]) < 64
            &&& 0 <= sextet(s[1]) < 64
            &&& bytes.len() == 3 ==> 0 <= sextet(s[2]) && 0 <= sextet(s[3]) && ((sextet(s[0]) * 64
                + sextet(s[1])) * 64 + sextet(s[2])) * 64 + sextet(s[3]) == (a * 256 + b) * 256 + c
            &&& bytes.len() == 2 ==> s[3] == '=' && 0 <= sextet(s[2]) && (sextet(s[0]) * 64
                + sextet(s[1])) * 64 + sextet(s[2]) == (a * 256 + b) * 4
            &&& bytes.len() == 1 ==> s[2] == '=' && s[3] == '=' && sextet(s[0]) * 64 + sextet(s[1])
                == a * 16
        }),
{
    let s = base64_of(bytes);
    let a = bytes[0] as int;
    let b = if bytes.len() > 1 {
        bytes[1] as int
    } else {
        0
    };
    let c = if bytes.len() > 2 {
        bytes[2] as int
    } else {
        0
    };
    lemma_sextet(a / 4);
    lemma_sextet(a % 4 * 16 + b / 16);
    lemma_sextet(b % 16 * 4 + c / 64);
    lemma_sextet(c % 64);
}

proof fn lemma_sextet(v: int)
    requires
        0 <= v < 64,
    ensures
        sextet(base64_char(v)) == v,
{
}

/// Whoever has the answer to an upload and the password gets the upload back: the
/// key file in the headers gives up a key, and with it the body is read as the file
/// name and the content that were uploaded, from the first byte to the last.
pub proof fn law_answered_upload_comes_back(
    reply: EncryptedReply,
    password: Seq<char>,
    filename: Seq<char>,
    data: Seq<u8>,
    stem: Seq<char>,
    key_file: Seq<u8>,
)
    requires
        answers_upload(reply, password, filename, data, stem, key_file),
    ensures
        headers_view(reply.headers@)[2].1 == base64_of(key_file),
        exists|key: Seq<u8>|
            {
                let header = header_of(key, reply.body@)->Ok_0;
                let body = body_of(
                    key,
                    header.salt,
                    1,
                    Seq::empty(),
                    reply.body@.skip(header.used as int),
                );
                &&& #[trigger] recovers(key_file, encode_utf8(password), Ok(key))
                &&& header_of(key, reply.body@) is Ok
                &&& header.name == filename
                &&& body.outcome is Ok
                &&& body.written == data
            },
{
    let key = choose|key: Seq<u8>|
        holds_upload(reply.body@, key_file, password, filename, data, key);
    law_decrypted_is_what_is_read(key, reply.body@, filename, data);
    assert(recovers(key_file, encode_utf8(password), Ok(key)));
}

} // verus!
