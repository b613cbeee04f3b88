use chacha20poly1305::aead::{Aead, KeyInit};
use chacha20poly1305::{XChaCha20Poly1305, XNonce};
use encrypt::crypto::container::{check_footer, data_block, filename_block, filename_of, footer_block};
use encrypt::crypto::decryptor::{BodyStep, HeaderReader, HeaderStep};
use encrypt::crypto::encryptor::encrypt_stream_with_salt;
use encrypt::crypto::primitives::cipher_takes;
use encrypt::crypto::{
    create_nonce, encrypt_stream, CryptoError, SecureKey, StreamDecryptor, StreamEncryptor,
    CHUNK_SIZE, CHUNK_TYPE_DATA, CHUNK_TYPE_EOF,
};
use sha2::{Digest, Sha256};

const KEY: [u8; 32] = [5u8; 32];
const SALT: [u8; 16] = *b"saltsaltsaltsalt";

fn sealed(counter: u64, plain: &[u8]) -> Vec<u8> {
    let cipher = XChaCha20Poly1305::new(&KEY.into());
    cipher.encrypt(XNonce::from_slice(&create_nonce(&SALT, counter)), plain).unwrap()
}

fn block(counter: u64, plain: &[u8]) -> Vec<u8> {
    let sealed = sealed(counter, plain);
    let mut out = vec![0u8];
    out.extend_from_slice(&(sealed.len() as u32).to_le_bytes());
    out.extend_from_slice(&sealed);
    out
}

fn footer(counter: u64, content: &[u8]) -> Vec<u8> {
    let mut out = vec![1u8];
    out.extend_from_slice(&sealed(counter, &Sha256::digest(content)));
    out
}

fn reference(name: &str, content: &[u8]) -> Vec<u8> {
    let mut out = SALT.to_vec();
    out.extend(block(0, name.as_bytes()));
    let mut counter = 1;
    for chunk in content.chunks(CHUNK_SIZE) {
        out.extend(block(counter, chunk));
        counter += 1;
    }
    out.extend(footer(counter, content));
    out
}

fn content(len: usize) -> Vec<u8> {
    (0..len).map(|i| (i * 31 + i / 251) as u8).collect()
}

fn made(name: &str, content: &[u8]) -> Vec<u8> {
    let mut out = Vec::new();
    let mut progress = Vec::new();
    let key = SecureKey::new(KEY);
    encrypt_stream_with_salt(content, &mut out, &key, name, &SALT, &mut progress).unwrap();
    out
}

fn opened(container: &[u8]) -> Result<(String, Vec<u8>, Vec<u64>), (CryptoError, Vec<u8>)> {
    let key = SecureKey::new(KEY);
    let (decryptor, name, used) =
        StreamDecryptor::open(container, &key).map_err(|e| (e, Vec::new()))?;
    let mut out = Vec::new();
    let mut progress = Vec::new();
    match decryptor.decrypt_body(&container[used..], &mut out, &mut progress) {
        Ok(()) => Ok((name, out, progress)),
        Err(e) => Err((e, out)),
    }
}

#[test]
fn constants_are_those_of_the_format() {
    assert_eq!(CHUNK_SIZE, 4194304);
    assert_eq!(CHUNK_TYPE_DATA, 0);
    assert_eq!(CHUNK_TYPE_EOF, 1);
}

#[test]
fn small_container_is_laid_out_as_described() {
    assert_eq!(made("report.pdf", b"hello world"), reference("report.pdf", b"hello world"));
}

#[test]
fn empty_content_has_no_chunk() {
    let container = made("empty", b"");
    assert_eq!(container, reference("empty", b""));
    assert_eq!(container.len(), 16 + 5 + 5 + 16 + 1 + 48);
    let (name, out, progress) = opened(&container).unwrap();
    assert_eq!(name, "empty");
    assert!(out.is_empty());
    assert!(progress.is_empty());
}

#[test]
fn full_chunk_is_followed_by_the_footer() {
    let content = content(CHUNK_SIZE);
    let container = made("full", &content);
    assert_eq!(container, reference("full", &content));
    let (_, out, progress) = opened(&container).unwrap();
    assert!(out == content);
    assert_eq!(progress, vec![CHUNK_SIZE as u64]);
}

#[test]
fn one_byte_more_makes_another_chunk() {
    let content = content(CHUNK_SIZE + 1);
    let mut container = Vec::new();
    let mut progress = Vec::new();
    let key = SecureKey::new(KEY);
    encrypt_stream_with_salt(&content, &mut container, &key, "more", &SALT, &mut progress).unwrap();
    assert_eq!(progress, vec![CHUNK_SIZE as u64, 1]);
    assert!(container == reference("more", &content));
    let (_, out, progress) = opened(&container).unwrap();
    assert!(out == content);
    assert_eq!(progress, vec![CHUNK_SIZE as u64, 1]);
}

#[test]
fn random_salts_differ_and_decrypt() {
    let key = SecureKey::new(KEY);
    let mut a = b"front".to_vec();
    let mut b = Vec::new();
    encrypt_stream(b"content", &mut a, &key, "name", &mut Vec::new()).unwrap();
    encrypt_stream(b"content", &mut b, &key, "name", &mut Vec::new()).unwrap();
    assert_eq!(&a[..5], b"front");
    assert_ne!(a[5..21], b[..16]);
    let (name, out, _) = opened(&a[5..]).unwrap();
    assert_eq!((name.as_str(), &out[..]), ("name", &b"content"[..]));
}

#[test]
fn unicode_names_come_back() {
    let name = "Übersicht 2024 – naïve 🦀.txt";
    let (back, out, _) = opened(&made(name, b"x")).unwrap();
    assert_eq!(back, name);
    assert_eq!(out, b"x");
}

#[test]
fn name_may_fill_the_metadata_block() {
    let name = "n".repeat(4096 - 16);
    assert_eq!(opened(&made(&name, b"x")).unwrap().0, name);
    let key = SecureKey::new(KEY);
    let mut out = Vec::new();
    let mut progress = Vec::new();
    let long = "n".repeat(4096 - 15);
    let r = encrypt_stream_with_salt(b"x", &mut out, &key, &long, &SALT, &mut progress);
    assert!(matches!(r, Err(CryptoError::FilenameTooLong)));
    assert_eq!(out, SALT);
    assert!(progress.is_empty());
}

#[test]
fn pieces_of_any_size_make_the_same_container() {
    let content = content(CHUNK_SIZE + 70000);
    let key = SecureKey::new(KEY);
    let (mut encryptor, first) = StreamEncryptor::begin(&key, &SALT, "p").unwrap();
    let mut out = SALT.to_vec();
    out.extend(first);
    assert_eq!(encryptor.wanted(), CHUNK_SIZE);
    for piece in content.chunks(60001) {
        out.extend(encryptor.push(piece).unwrap());
    }
    assert_eq!(encryptor.wanted(), CHUNK_SIZE - 70000);
    out.extend(encryptor.finish().unwrap());
    assert!(out == made("p", &content));
}

#[test]
fn incremental_reading_gives_the_same() {
    let container = made("name", b"some content");
    let key = SecureKey::new(KEY);
    let mut reader = HeaderReader::new(&key);
    let mut pos = 0;
    let mut decryptor = loop {
        let n = reader.wanted();
        let piece = &container[pos..pos + n];
        pos += n;
        match reader.feed(piece).unwrap() {
            HeaderStep::More(next) => reader = next,
            HeaderStep::Opened(decryptor, name) => {
                assert_eq!(name, "name");
                break decryptor;
            }
        }
    };
    let mut out = Vec::new();
    loop {
        let n = decryptor.wanted();
        let piece = &container[pos..pos + n];
        pos += n;
        match decryptor.feed(piece).unwrap() {
            BodyStep::More(next) => decryptor = next,
            BodyStep::Plain(plain, next) => {
                out.extend(plain);
                decryptor = next;
            }
            BodyStep::Verified => break,
        }
    }
    assert_eq!(out, b"some content");
    assert_eq!(pos, container.len());
}

#[test]
fn reader_says_how_it_ends_too_early() {
    let key = SecureKey::new(KEY);
    let reader = HeaderReader::new(&key);
    assert!(matches!(reader.ended(), CryptoError::FileTooSmall));
    match reader.feed(&SALT).unwrap() {
        HeaderStep::More(next) => {
            assert_eq!(next.wanted(), 1);
            assert!(matches!(next.ended(), CryptoError::UnexpectedEnd));
        }
        HeaderStep::Opened(_, _) => panic!("opened by its salt"),
    }
}

#[test]
fn beginnings_that_are_cut_off_are_refused() {
    let container = made("name", b"content");
    assert!(matches!(opened(&container[..0]), Err((CryptoError::FileTooSmall, _))));
    assert!(matches!(opened(&container[..15]), Err((CryptoError::FileTooSmall, _))));
    assert!(matches!(opened(&container[..16]), Err((CryptoError::UnexpectedEnd, _))));
    assert!(matches!(opened(&container[..20]), Err((CryptoError::UnexpectedEnd, _))));
    assert!(matches!(opened(&container[..30]), Err((CryptoError::UnexpectedEnd, _))));
}

#[test]
fn no_truncated_container_is_taken() {
    let container = made("name", b"content");
    for n in 0..container.len() {
        assert!(opened(&container[..n]).is_err());
    }
    assert!(opened(&container).is_ok());
}

#[test]
fn lost_footer_is_reported_as_truncation() {
    let container = made("name", b"content");
    let n = container.len() - 49;
    assert!(matches!(opened(&container[..n]), Err((CryptoError::FooterMissing, _))));
    match opened(&container[..n]) {
        Err((e, written)) => {
            assert_eq!(e.message(), "CRITICAL: Truncated file. Integrity footer missing.");
            assert_eq!(written, b"content");
        }
        Ok(_) => panic!("taken"),
    }
    assert!(matches!(opened(&container[..n + 1]), Err((CryptoError::UnexpectedEnd, _))));
}

#[test]
fn every_flipped_bit_is_noticed() {
    let container = made("name", b"content");
    for i in 0..container.len() {
        let mut changed = container.clone();
        changed[i] ^= 4;
        assert!(opened(&changed).is_err(), "byte {}", i);
    }
}

#[test]
fn metadata_has_to_come_first() {
    let mut container = made("name", b"content");
    container[16] = 1;
    assert!(matches!(opened(&container), Err((CryptoError::MissingMetadata, _))));
}

#[test]
fn metadata_must_not_be_too_large() {
    let mut container = SALT.to_vec();
    container.push(0);
    container.extend_from_slice(&4097u32.to_le_bytes());
    assert!(matches!(opened(&container), Err((CryptoError::MetadataTooLarge, _))));
    container[17..21].copy_from_slice(&4096u32.to_le_bytes());
    assert!(matches!(opened(&container), Err((CryptoError::UnexpectedEnd, _))));
}

#[test]
fn other_key_is_refused_at_the_metadata() {
    let container = made("name", b"content");
    let other = SecureKey::new([6u8; 32]);
    match StreamDecryptor::open(&container, &other) {
        Err(e) => {
            assert!(matches!(e, CryptoError::MetadataRejected));
            assert_eq!(e.message(), "Decryption failed (Metadata): Wrong key or corrupt header");
        }
        Ok(_) => panic!("opened"),
    }
}

#[test]
fn name_that_is_not_utf8_is_refused() {
    let mut container = SALT.to_vec();
    container.extend(block(0, &[0xff, 0xfe]));
    assert!(matches!(opened(&container), Err((CryptoError::FilenameNotUtf8, _))));
}

#[test]
fn chunk_must_not_be_too_large() {
    let mut container = SALT.to_vec();
    container.extend(block(0, b"name"));
    container.push(0);
    container.extend_from_slice(&((CHUNK_SIZE + 1025) as u32).to_le_bytes());
    assert!(matches!(opened(&container), Err((CryptoError::InvalidChunkSize, _))));
}

#[test]
fn chunk_of_another_place_is_refused() {
    let mut container = SALT.to_vec();
    container.extend(block(0, b"name"));
    container.extend(block(1, b"first"));
    container.extend(block(3, b"third"));
    match opened(&container) {
        Err((e, written)) => {
            assert!(matches!(e, CryptoError::ChunkRejected(2)));
            assert_eq!(e.message(), "Decryption failed at chunk 2");
            assert_eq!(written, b"first");
        }
        Ok(_) => panic!("taken"),
    }
}

#[test]
fn unknown_block_is_refused() {
    let mut container = SALT.to_vec();
    container.extend(block(0, b"name"));
    container.push(2);
    assert!(matches!(opened(&container), Err((CryptoError::UnknownChunkType, _))));
}

#[test]
fn footer_of_another_content_is_refused() {
    let mut container = SALT.to_vec();
    container.extend(block(0, b"name"));
    container.extend(block(1, b"content"));
    container.extend(footer(2, b"another"));
    assert!(matches!(opened(&container), Err((CryptoError::IntegrityMismatch, _))));
}

#[test]
fn damaged_footer_is_refused() {
    let mut container = made("name", b"content");
    let last = container.len() - 1;
    container[last] ^= 1;
    assert!(matches!(opened(&container), Err((CryptoError::FooterCorrupted, _))));
}

#[test]
fn bytes_behind_the_footer_are_not_read() {
    let mut container = made("name", b"content");
    container.extend_from_slice(b"trailing");
    assert_eq!(opened(&container).unwrap().1, b"content");
}

#[test]
fn blocks_have_their_parts() {
    assert_eq!(data_block(b"abc"), vec![0, 3, 0, 0, 0, b'a', b'b', b'c']);
    assert_eq!(footer_block(b"abc"), vec![1, b'a', b'b', b'c']);
    assert!(matches!(filename_block(&[0u8; 4097]), Err(CryptoError::FilenameTooLong)));
    assert_eq!(filename_block(&[7u8; 4096]).unwrap().len(), 4101);
}

#[test]
fn outcomes_of_opening_are_judged() {
    assert_eq!(filename_of(Some(b"a.txt".to_vec())).unwrap(), "a.txt");
    assert!(matches!(filename_of(None), Err(CryptoError::MetadataRejected)));
    assert!(matches!(filename_of(Some(vec![0x80])), Err(CryptoError::FilenameNotUtf8)));
    assert!(check_footer(Some(vec![1, 2]), &[1, 2]).is_ok());
    assert!(matches!(check_footer(Some(vec![1]), &[1, 2]), Err(CryptoError::IntegrityMismatch)));
    assert!(matches!(check_footer(None, &[1, 2]), Err(CryptoError::FooterCorrupted)));
}

#[test]
fn messages_are_those_shown_to_users() {
    assert_eq!(CryptoError::StreamTooLong.message(), "File too large (counter overflow)");
    assert_eq!(CryptoError::EncryptMetadata.message(), "Encryption error (metadata): aead::Error");
    assert_eq!(CryptoError::EncryptChunk(12).message(), "Encryption error (chunk 12): aead::Error");
    assert_eq!(CryptoError::EncryptFooter.message(), "Encryption error (hash): aead::Error");
    assert_eq!(CryptoError::FilenameTooLong.message(), "Filename too long to store in metadata");
    assert_eq!(CryptoError::FileTooSmall.message(), "File too small");
    assert_eq!(CryptoError::CounterOverflow.message(), "Counter overflow");
    assert_eq!(CryptoError::EncryptData.message(), "Encryption error: aead::Error");
    assert_eq!(CryptoError::DataTooShort.message(), "Data too short");
    assert_eq!(CryptoError::DecryptData.message(), "Decryption failed");
    assert_eq!(CryptoError::KdfEmpty.message(), "Hash failed");
    assert_eq!(CryptoError::KeyRejected.message(), "Wrong password or corrupted key");
}

#[test]
fn container_begins_with_the_salt_that_was_drawn() {
    let key = SecureKey::new([3u8; 32]);
    let (salt, begun) = StreamEncryptor::begin_with_random_salt(&key, "a.txt");
    let (encryptor, block) = begun.unwrap();
    let mut whole = salt.to_vec();
    whole.extend_from_slice(&block);
    whole.extend_from_slice(&encryptor.finish().unwrap());
    let (decryptor, name, used) = StreamDecryptor::open(&whole, &key).unwrap();
    assert_eq!(name, "a.txt");
    let mut plain = Vec::new();
    decryptor.decrypt_body(&whole[used..], &mut plain, &mut Vec::new()).unwrap();
    assert!(plain.is_empty());
    let (other, _) = StreamEncryptor::begin_with_random_salt(&key, "a.txt");
    assert_ne!(salt, other);
    let (_, refused) = StreamEncryptor::begin_with_random_salt(&key, &"n".repeat(4081));
    assert_eq!(refused.err().unwrap().message(), "Filename too long to store in metadata");
}

#[test]
fn cipher_has_room_for_its_blocks() {
    assert!(cipher_takes(0));
    assert!(cipher_takes(274_877_906_816));
    assert!(!cipher_takes(274_877_906_817));
    assert!(!cipher_takes(274_877_906_879));
    assert!(cipher_takes(274_877_906_880));
    assert!(!cipher_takes(isize::MAX as usize));
    assert!(cipher_takes(isize::MAX as usize - 16));
}

#[test]
fn cut_behind_a_chunk_misses_the_footer() {
    let key = SecureKey::new(KEY);
    let mut whole = Vec::new();
    let mut sent = Vec::new();
    let data = vec![9u8; CHUNK_SIZE + 3];
    encrypt_stream(&data, &mut whole, &key, "n", &mut sent).unwrap();
    assert_eq!(whole.len(), 1 + data.len() + 2 * 21 + 86);
    assert_eq!(sent, vec![CHUNK_SIZE as u64, 3]);
    let open = |source: &[u8]| {
        let (decryptor, _, used) = StreamDecryptor::open(source, &key).unwrap();
        let (mut out, mut seen) = (Vec::new(), Vec::new());
        let r = decryptor.decrypt_body(&source[used..], &mut out, &mut seen);
        (r.err().map(|e| e.message()), out.len(), seen)
    };
    assert_eq!(open(&whole), (None, data.len(), sent.clone()));
    let missing = Some("CRITICAL: Truncated file. Integrity footer missing.".to_string());
    assert_eq!(open(&whole[..whole.len() - 49]), (missing.clone(), data.len(), sent));
    let one = 16 + 5 + 17 + 5 + CHUNK_SIZE + 16;
    assert_eq!(open(&whole[..one]), (missing, CHUNK_SIZE, vec![CHUNK_SIZE as u64]));
}

#[test]
fn footer_given_as_a_chunk_is_found_out() {
    let key = SecureKey::new(KEY);
    let mut whole = Vec::new();
    encrypt_stream(b"abc", &mut whole, &key, "n", &mut Vec::new()).unwrap();
    let at = whole.len() - 49;
    let mut forged = whole[..at].to_vec();
    forged.extend_from_slice(&data_block(&whole[at + 1..]));
    let (decryptor, _, used) = StreamDecryptor::open(&forged, &key).unwrap();
    let mut out = Vec::new();
    let r = decryptor.decrypt_body(&forged[used..], &mut out, &mut Vec::new());
    assert!(matches!(r, Err(CryptoError::FooterMissing)));
    assert_eq!(&out[..3], b"abc");
    assert_eq!(out[3..], Sha256::digest(b"abc")[..]);
}
