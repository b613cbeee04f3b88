//! The container format.
//!
//! `salt(16) | [0][len u32][sealed file name] | ([0][len u32][sealed chunk])* |
//! [1][sealed SHA-256 of the content]`
//!
//! The blocks are numbered from zero in the order in which they stand. A block
//! is sealed under the nonce that consists of the salt and the block's number.

use vstd::prelude::*;
use vstd::utf8::{
    decode_utf8, encode_utf8, encode_utf8_decode_utf8, encode_utf8_valid_utf8, valid_utf8,
};
use crate::bytes::{
    append, law_le32_is_little_endian, law_le32_roundtrip, law_le32_value_is_little_endian, le32,
    le32_value, same_bytes, u32_to_le,
};
use crate::crypto::error::CryptoError;
use crate::crypto::key::{block_nonce, SALT_LEN};
use crate::crypto::primitives::{sha256, xchacha_opened, xchacha_sealed, DIGEST_LEN, TAG_LEN};
use crate::text::str_from_utf8;

verus! {

/// The number of content bytes in every chunk but the last.
pub const CHUNK_SIZE: usize = 4096 * 1024;

/// [`CHUNK_SIZE`] as a number.
#[verifier::inline]
pub open spec fn chunk_size() -> int {
    4_194_304
}

/// The first byte of a block that holds the file name or a chunk.
pub const CHUNK_TYPE_DATA: u8 = 0;

/// The first byte of the integrity footer.
pub const CHUNK_TYPE_EOF: u8 = 1;

/// The sealed length of the integrity footer.
pub const HASH_FOOTER_LEN: usize = 32 + 16;

/// The sealed length that a file name may have. It bounds what a forged length
/// can make a reader allocate.
pub const MAX_METADATA_LEN: usize = 4096;

/// The sealed length that a chunk may have.
pub const MAX_CHUNK_LEN: usize = CHUNK_SIZE + 1024;

/// A block that holds `sealed`, with its type and its length in front.
pub open spec fn data_block_of(sealed: Seq<u8>) -> Seq<u8> {
    seq![CHUNK_TYPE_DATA] + le32(sealed.len() as u32) + sealed
}

/// A footer that holds `sealed`, with its type in front.
pub open spec fn footer_block_of(sealed: Seq<u8>) -> Seq<u8> {
    seq![CHUNK_TYPE_EOF] + sealed
}

/// `plain` sealed as the block with number `counter`.
pub open spec fn sealed_at(key: Seq<u8>, salt: Seq<u8>, counter: u64, plain: Seq<u8>) -> Seq<u8> {
    xchacha_sealed(key, block_nonce(salt, counter), plain)
}

/// The number of chunks of a content of `len` bytes.
pub open spec fn chunk_count(len: nat) -> nat {
    ((len + chunk_size() - 1) / chunk_size()) as nat
}

/// Where the chunk with index `i` begins in a content of `len` bytes.
pub open spec fn chunk_start(len: nat, i: int) -> int {
    if i * chunk_size() <= len {
        i * chunk_size()
    } else {
        len as int
    }
}

/// The chunk of `data` with index `i`.
pub open spec fn chunk_of(data: Seq<u8>, i: int) -> Seq<u8> {
    data.subrange(chunk_start(data.len(), i), chunk_start(data.len(), i + 1))
}

/// The lengths of the chunks of a content of `len` bytes.
pub open spec fn chunk_lengths(len: nat) -> Seq<u64> {
    Seq::new(chunk_count(len), |i: int| (chunk_start(len, i + 1) - chunk_start(len, i)) as u64)
}

/// The blocks of the chunks of `data` with indices from `from` up to `to`.
pub open spec fn chunk_blocks(
    key: Seq<u8>,
    salt: Seq<u8>,
    data: Seq<u8>,
    from: nat,
    to: nat,
) -> Seq<u8>
    decreases to,
{
    if to <= from {
        Seq::empty()
    } else {
        chunk_blocks(key, salt, data, from, (to - 1) as nat) + data_block_of(
            sealed_at(key, salt, to as u64, chunk_of(data, to - 1)),
        )
    }
}

/// The block of the file name.
pub open spec fn metadata_block(key: Seq<u8>, salt: Seq<u8>, name: Seq<u8>) -> Seq<u8> {
    data_block_of(sealed_at(key, salt, 0, name))
}

/// The integrity footer of `data`.
pub open spec fn footer(key: Seq<u8>, salt: Seq<u8>, data: Seq<u8>) -> Seq<u8> {
    footer_block_of(
        sealed_at(key, salt, (chunk_count(data.len()) + 1) as u64, sha256(data)),
    )
}

/// What follows the block of the file name.
pub open spec fn container_body(key: Seq<u8>, salt: Seq<u8>, data: Seq<u8>) -> Seq<u8> {
    chunk_blocks(key, salt, data, 0, chunk_count(data.len())) + footer(key, salt, data)
}

/// The container of `data` with the file name `name`, in UTF-8.
pub open spec fn container(
    key: Seq<u8>,
    salt: Seq<u8>,
    name: Seq<u8>,
    data: Seq<u8>,
) -> Seq<u8> {
    salt + metadata_block(key, salt, name) + container_body(key, salt, data)
}

/// The blocks that hold `chunks`, the first of them with number `counter`.
pub open spec fn sealed_blocks(
    key: Seq<u8>,
    salt: Seq<u8>,
    counter: u64,
    chunks: Seq<Seq<u8>>,
) -> Seq<u8>
    decreases chunks.len(),
{
    if chunks.len() == 0 {
        Seq::empty()
    } else {
        sealed_blocks(key, salt, counter, chunks.drop_last()) + data_block_of(
            sealed_at(key, salt, (counter + chunks.len() - 1) as u64, chunks.last()),
        )
    }
}

/// Whether `src` begins with the blocks that hold `chunks`, the first of them
/// with number `counter`, followed by the footer of `seen` and the chunks.
pub open spec fn is_sealed_from(
    key: Seq<u8>,
    salt: Seq<u8>,
    counter: u64,
    seen: Seq<u8>,
    src: Seq<u8>,
    chunks: Seq<Seq<u8>>,
) -> bool {
    let content = seen + chunks.flatten();
    let whole = sealed_blocks(key, salt, counter, chunks) + footer_block_of(
        sealed_at(key, salt, (counter + chunks.len()) as u64, sha256(content)),
    );
    &&& whole.len() <= src.len()
    &&& src.subrange(0, whole.len() as int) == whole
}

/// Whether the block with number `counter` that holds `plain` opens to `plain`.
pub open spec fn block_opens(key: Seq<u8>, salt: Seq<u8>, counter: u64, plain: Seq<u8>) -> bool {
    let sealed = sealed_at(key, salt, counter, plain);
    &&& xchacha_opened(key, block_nonce(salt, counter), sealed) == Some(plain)
    &&& sealed.len() == plain.len() + TAG_LEN
}

/// Whether the chunks of `data` with indices from `from` up to `to` open.
pub open spec fn chunks_open(
    key: Seq<u8>,
    salt: Seq<u8>,
    data: Seq<u8>,
    from: nat,
    to: nat,
) -> bool {
    forall|i: int|
        from <= i < to ==> #[trigger] block_opens(key, salt, (i + 1) as u64, chunk_of(data, i))
}

/// Whether the footer of `data` opens.
pub open spec fn footer_opens(key: Seq<u8>, salt: Seq<u8>, data: Seq<u8>) -> bool {
    &&& block_opens(key, salt, (chunk_count(data.len()) + 1) as u64, sha256(data))
    &&& sha256(data).len() == DIGEST_LEN
}

/// Whether all blocks of the container of `data` with the file name `name`, in
/// UTF-8, open to what they hold.
#[verifier::opaque]
pub open spec fn container_opens(
    key: Seq<u8>,
    salt: Seq<u8>,
    name: Seq<u8>,
    data: Seq<u8>,
) -> bool {
    &&& block_opens(key, salt, 0, name)
    &&& chunks_open(key, salt, data, 0, chunk_count(data.len()))
    &&& footer_opens(key, salt, data)
}

/// What the beginning of a container says.
pub ghost struct OpenedHeader {
    /// The salt.
    pub salt: Seq<u8>,
    /// The file name.
    pub name: Seq<char>,
    /// The number of bytes that the beginning takes up.
    pub used: nat,
}

/// What is read from the opened metadata block.
pub open spec fn metadata_name(opened: Option<Seq<u8>>) -> Result<Seq<char>, CryptoError> {
    match opened {
        None => Err(CryptoError::MetadataRejected),
        Some(name) => if valid_utf8(name) {
            Ok(decode_utf8(name))
        } else {
            Err(CryptoError::FilenameNotUtf8)
        },
    }
}

/// What the beginning of the container `src` says under `key`.
pub open spec fn header_of(key: Seq<u8>, src: Seq<u8>) -> Result<OpenedHeader, CryptoError> {
    if src.len() < SALT_LEN {
        Err(CryptoError::FileTooSmall)
    } else if src.len() < SALT_LEN + 1 {
        Err(CryptoError::UnexpectedEnd)
    } else if src[SALT_LEN as int] != CHUNK_TYPE_DATA {
        Err(CryptoError::MissingMetadata)
    } else if src.len() < SALT_LEN + 5 {
        Err(CryptoError::UnexpectedEnd)
    } else {
        let salt = src.subrange(0, SALT_LEN as int);
        let len = le32_value(src.subrange(SALT_LEN + 1, SALT_LEN + 5));
        let used = SALT_LEN + 5 + len;
        if len > MAX_METADATA_LEN {
            Err(CryptoError::MetadataTooLarge)
        } else if src.len() < used {
            Err(CryptoError::UnexpectedEnd)
        } else {
            let opened = xchacha_opened(
                key,
                block_nonce(salt, 0),
                src.subrange(SALT_LEN + 5, used),
            );
            match metadata_name(opened) {
                Ok(name) => Ok(OpenedHeader { salt, name, used: used as nat }),
                Err(e) => Err(e),
            }
        }
    }
}

/// What becomes of the blocks behind the file name.
pub ghost struct BodyReading {
    /// The content that is written out.
    pub written: Seq<u8>,
    /// Whether the content was found to be whole and unchanged.
    pub outcome: Result<(), CryptoError>,
    /// The number of bytes that are read.
    pub used: nat,
    /// The number of content bytes of each chunk that is written out.
    pub pieces: Seq<u64>,
}

/// The verdict on an opened footer, for a content with this digest.
pub open spec fn footer_verdict(opened: Option<Seq<u8>>, digest: Seq<u8>) -> Result<
    (),
    CryptoError,
> {
    match opened {
        None => Err(CryptoError::FooterCorrupted),
        Some(stored) => if stored == digest {
            Ok(())
        } else {
            Err(CryptoError::IntegrityMismatch)
        },
    }
}

/// Reading ends here with this error.
pub open spec fn body_fails(e: CryptoError) -> BodyReading {
    BodyReading { written: Seq::empty(), outcome: Err(e), used: 0, pieces: Seq::empty() }
}

/// `more`, read behind `used` bytes that gave `plain`.
pub open spec fn body_continues(plain: Seq<u8>, used: nat, more: BodyReading) -> BodyReading {
    BodyReading {
        written: plain + more.written,
        outcome: more.outcome,
        used: used + more.used,
        pieces: seq![plain.len() as u64] + more.pieces,
    }
}

/// What becomes of the blocks `src` when the next block has number `counter`
/// and `seen` was written out before.
#[verifier::opaque]
pub open spec fn body_of(
    key: Seq<u8>,
    salt: Seq<u8>,
    counter: u64,
    seen: Seq<u8>,
    src: Seq<u8>,
) -> BodyReading
    decreases src.len(),
{
    let nonce = block_nonce(salt, counter);
    if src.len() == 0 {
        body_fails(CryptoError::FooterMissing)
    } else if src[0] == CHUNK_TYPE_EOF {
        if src.len() < 1 + HASH_FOOTER_LEN {
            body_fails(CryptoError::UnexpectedEnd)
        } else {
            let opened = xchacha_opened(key, nonce, src.subrange(1, 1 + HASH_FOOTER_LEN));
            BodyReading {
                written: Seq::empty(),
                outcome: footer_verdict(opened, sha256(seen)),
                used: (1 + HASH_FOOTER_LEN) as nat,
                pieces: Seq::empty(),
            }
        }
    } else if src[0] == CHUNK_TYPE_DATA {
        if src.len() < 5 {
            body_fails(CryptoError::UnexpectedEnd)
        } else {
            let len = le32_value(src.subrange(1, 5));
            if len > MAX_CHUNK_LEN {
                body_fails(CryptoError::InvalidChunkSize)
            } else if src.len() < 5 + len {
                body_fails(CryptoError::UnexpectedEnd)
            } else {
                match xchacha_opened(key, nonce, src.subrange(5, 5 + len)) {
                    None => body_fails(CryptoError::ChunkRejected(counter)),
                    Some(plain) => body_continues(
                        plain,
                        (5 + len) as nat,
                        if counter == u64::MAX {
                            body_fails(CryptoError::CounterOverflow)
                        } else {
                            body_of(key, salt, (counter + 1) as u64, seen + plain, src.skip(5 + len))
                        },
                    ),
                }
            }
        }
    } else {
        body_fails(CryptoError::UnknownChunkType)
    }
}

/// Whether the container `src` decrypts under `key` to the file name `name`
/// and the content `data`.
#[verifier::opaque]
pub open spec fn decrypts_to(
    key: Seq<u8>,
    src: Seq<u8>,
    name: Seq<char>,
    data: Seq<u8>,
) -> bool {
    match header_of(key, src) {
        Ok(header) => {
            let body = body_of(key, header.salt, 1, Seq::empty(), src.skip(header.used as int));
            &&& header.name == name
            &&& body.outcome is Ok
            &&& body.written == data
        },
        Err(_) => false,
    }
}

/// A chunk that is full, and the blocks up to it, do not change when content is
/// put behind it.
pub proof fn lemma_chunk_blocks_extend(
    key: Seq<u8>,
    salt: Seq<u8>,
    data: Seq<u8>,
    more: Seq<u8>,
    from: nat,
    to: nat,
)
    requires
        to * chunk_size() <= data.len(),
    ensures
        chunk_blocks(key, salt, data + more, from, to) == chunk_blocks(key, salt, data, from, to),
        forall|i: int|
            0 <= i < to ==> #[trigger] chunk_of(data + more, i) == chunk_of(data, i),
    decreases to,
{
    assert forall|i: int| 0 <= i < to implies #[trigger] chunk_of(data + more, i) == chunk_of(
        data,
        i,
    ) by {
        assert(i * chunk_size() + chunk_size() <= to * chunk_size());
        assert(chunk_of(data + more, i) =~= chunk_of(data, i));
    }
    if to > from {
        lemma_chunk_blocks_extend(key, salt, data, more, from, (to - 1) as nat);
        assert(chunk_of(data + more, to - 1) == chunk_of(data, to - 1));
    }
}

/// The blocks of two adjacent ranges of chunks, put together.
pub proof fn lemma_chunk_blocks_join(
    key: Seq<u8>,
    salt: Seq<u8>,
    data: Seq<u8>,
    from: nat,
    mid: nat,
    to: nat,
)
    requires
        from <= mid <= to,
    ensures
        chunk_blocks(key, salt, data, from, mid) + chunk_blocks(key, salt, data, mid, to)
            == chunk_blocks(key, salt, data, from, to),
    decreases to,
{
    if mid < to {
        lemma_chunk_blocks_join(key, salt, data, from, mid, (to - 1) as nat);
        let last = data_block_of(sealed_at(key, salt, to as u64, chunk_of(data, to - 1)));
        assert(chunk_blocks(key, salt, data, from, mid) + (chunk_blocks(
            key,
            salt,
            data,
            mid,
            (to - 1) as nat,
        ) + last) =~= (chunk_blocks(key, salt, data, from, mid) + chunk_blocks(
            key,
            salt,
            data,
            mid,
            (to - 1) as nat,
        )) + last);
    } else {
        assert(chunk_blocks(key, salt, data, from, mid) + Seq::<u8>::empty() =~= chunk_blocks(
            key,
            salt,
            data,
            from,
            mid,
        ));
    }
}

/// Reading a chunk's block gives the chunk, and goes on behind it.
proof fn lemma_body_of_block(
    key: Seq<u8>,
    salt: Seq<u8>,
    counter: u64,
    seen: Seq<u8>,
    plain: Seq<u8>,
    rest: Seq<u8>,
)
    requires
        block_opens(key, salt, counter, plain),
        plain.len() <= chunk_size(),
        counter < u64::MAX,
    ensures
        ({
            let sealed = sealed_at(key, salt, counter, plain);
            body_of(key, salt, counter, seen, data_block_of(sealed) + rest) == body_continues(
                plain,
                data_block_of(sealed).len(),
                body_of(key, salt, (counter + 1) as u64, seen + plain, rest),
            )
        }),
{
    reveal(body_of);
    let sealed = sealed_at(key, salt, counter, plain);
    let src = data_block_of(sealed) + rest;
    let n = sealed.len() as u32;
    law_le32_roundtrip(n);
    assert(src.subrange(1, 5) =~= le32(n));
    assert(src.subrange(5, 5 + n) =~= sealed);
    assert(src.skip(5 + n) =~= rest);
}

/// Reading the body of a container from the chunk with index `k` on gives the
/// content from that chunk on.
proof fn lemma_body_roundtrip(key: Seq<u8>, salt: Seq<u8>, data: Seq<u8>, k: nat)
    requires
        chunks_open(key, salt, data, 0, chunk_count(data.len())),
        footer_opens(key, salt, data),
        k <= chunk_count(data.len()) < u64::MAX,
    ensures
        ({
            let start = chunk_start(data.len(), k as int);
            let src = chunk_blocks(key, salt, data, k, chunk_count(data.len())) + footer(
                key,
                salt,
                data,
            );
            let body = body_of(key, salt, (k + 1) as u64, data.subrange(0, start), src);
            &&& body.outcome is Ok
            &&& body.written == data.skip(start)
            &&& body.used == src.len()
            &&& body.pieces == chunk_lengths(data.len()).skip(k as int)
        }),
    decreases chunk_count(data.len()) - k,
{
    let count = chunk_count(data.len());
    let start = chunk_start(data.len(), k as int);
    let foot = footer(key, salt, data);
    let src = chunk_blocks(key, salt, data, k, count) + foot;
    if k == count {
        reveal(body_of);
        assert(start == data.len());
        assert(src =~= foot);
        assert(data.subrange(0, start) =~= data);
        assert(src.subrange(1, 1 + HASH_FOOTER_LEN) =~= sealed_at(
            key,
            salt,
            (count + 1) as u64,
            sha256(data),
        ));
        assert(data.skip(start) =~= Seq::<u8>::empty());
        assert(chunk_lengths(data.len()).skip(k as int) =~= Seq::<u64>::empty());
    } else {
        let plain = chunk_of(data, k as int);
        let sealed = sealed_at(key, salt, (k + 1) as u64, plain);
        let next = chunk_start(data.len(), k as int + 1);
        let rest = chunk_blocks(key, salt, data, k + 1, count) + foot;
        assert(block_opens(key, salt, (k as int + 1) as u64, chunk_of(data, k as int)));
        lemma_chunk_blocks_join(key, salt, data, k, k + 1, count);
        assert(chunk_blocks(key, salt, data, k, k) =~= Seq::<u8>::empty());
        assert(chunk_blocks(key, salt, data, k, k + 1) =~= data_block_of(sealed));
        assert(src =~= data_block_of(sealed) + rest);
        lemma_body_of_block(key, salt, (k + 1) as u64, data.subrange(0, start), plain, rest);
        assert(data.subrange(0, start) + plain =~= data.subrange(0, next));
        lemma_body_roundtrip(key, salt, data, k + 1);
        assert(plain + data.skip(next) =~= data.skip(start));
        let lengths = chunk_lengths(data.len());
        assert(seq![plain.len() as u64] + lengths.skip(k as int + 1) =~= lengths.skip(k as int));
    }
}

/// A container decrypts to the file name and the content that it was made of.
pub proof fn law_container_decrypts(
    key: Seq<u8>,
    salt: Seq<u8>,
    name: Seq<char>,
    data: Seq<u8>,
)
    requires
        salt.len() == SALT_LEN,
        encode_utf8(name).len() + TAG_LEN <= MAX_METADATA_LEN,
        chunk_count(data.len()) < u64::MAX,
        container_opens(key, salt, encode_utf8(name), data),
    ensures
        decrypts_to(key, container(key, salt, encode_utf8(name), data), name, data),
{
    reveal(container_opens);
    reveal(decrypts_to);
    let bytes = encode_utf8(name);
    let sealed = sealed_at(key, salt, 0, bytes);
    let body = container_body(key, salt, data);
    let src = container(key, salt, bytes, data);
    let n = sealed.len() as u32;
    law_le32_roundtrip(n);
    assert(src[SALT_LEN as int] == CHUNK_TYPE_DATA);
    assert(src.subrange(0, SALT_LEN as int) =~= salt);
    assert(src.subrange(SALT_LEN + 1, SALT_LEN + 5) =~= le32(n));
    assert(src.subrange(SALT_LEN + 5, SALT_LEN + 5 + n) =~= sealed);
    assert(src.skip(SALT_LEN + 5 + n) =~= body);
    encode_utf8_valid_utf8(name);
    encode_utf8_decode_utf8(name);
    lemma_body_roundtrip(key, salt, data, 0);
    assert(data.subrange(0, 0) =~= Seq::<u8>::empty());
    assert(data.skip(0) =~= data);
}

/// The sum of `pieces`.
pub open spec fn total_of(pieces: Seq<u64>) -> nat
    decreases pieces.len(),
{
    if pieces.len() == 0 {
        0
    } else {
        total_of(pieces.drop_last()) + pieces.last() as nat
    }
}

proof fn lemma_lengths_total(len: nat, k: nat)
    requires
        k <= chunk_count(len),
    ensures
        total_of(chunk_lengths(len).subrange(0, k as int)) == chunk_start(len, k as int),
    decreases k,
{
    let front = chunk_lengths(len).subrange(0, k as int);
    if k > 0 {
        lemma_lengths_total(len, (k - 1) as nat);
        assert(front.drop_last() =~= chunk_lengths(len).subrange(0, k - 1));
    }
}

/// Encryption and decryption report the same progress: reading a container
/// writes chunks of the lengths that encryption cut the content into, and these
/// add up to the length of the content.
pub proof fn law_progress_agrees(key: Seq<u8>, salt: Seq<u8>, name: Seq<char>, data: Seq<u8>)
    requires
        salt.len() == SALT_LEN,
        encode_utf8(name).len() + TAG_LEN <= MAX_METADATA_LEN,
        chunk_count(data.len()) < u64::MAX,
        container_opens(key, salt, encode_utf8(name), data),
    ensures
        ({
            let src = container(key, salt, encode_utf8(name), data);
            &&& header_of(key, src) matches Ok(header)
            &&& body_of(key, header.salt, 1, Seq::empty(), src.skip(header.used as int)).pieces
                == chunk_lengths(data.len())
        }),
        total_of(chunk_lengths(data.len())) == data.len(),
{
    reveal(container_opens);
    let bytes = encode_utf8(name);
    let sealed = sealed_at(key, salt, 0, bytes);
    let src = container(key, salt, bytes, data);
    let n = sealed.len() as u32;
    let lengths = chunk_lengths(data.len());
    law_le32_roundtrip(n);
    assert(src[SALT_LEN as int] == CHUNK_TYPE_DATA);
    assert(src.subrange(0, SALT_LEN as int) =~= salt);
    assert(src.subrange(SALT_LEN + 1, SALT_LEN + 5) =~= le32(n));
    assert(src.subrange(SALT_LEN + 5, SALT_LEN + 5 + n) =~= sealed);
    assert(src.skip(SALT_LEN + 5 + n) =~= container_body(key, salt, data));
    encode_utf8_valid_utf8(name);
    encode_utf8_decode_utf8(name);
    lemma_body_roundtrip(key, salt, data, 0);
    assert(data.subrange(0, 0) =~= Seq::<u8>::empty());
    assert(lengths.skip(0) =~= lengths);
    lemma_lengths_total(data.len(), chunk_count(data.len()));
    assert(lengths.subrange(0, lengths.len() as int) =~= lengths);
}

proof fn lemma_chunk_blocks_len(key: Seq<u8>, salt: Seq<u8>, data: Seq<u8>, k: nat)
    requires
        k <= chunk_count(data.len()),
        chunks_open(key, salt, data, 0, chunk_count(data.len())),
    ensures
        chunk_blocks(key, salt, data, 0, k).len() == chunk_start(data.len(), k as int) + (5
            + TAG_LEN) * k,
    decreases k,
{
    if k > 0 {
        lemma_chunk_blocks_len(key, salt, data, (k - 1) as nat);
        let i = k - 1;
        assert(block_opens(key, salt, (i + 1) as u64, chunk_of(data, i)));
    }
}

/// The length of a container: the salt, the file name, the content, the footer,
/// and what every block has beside what it holds.
pub proof fn law_container_len(key: Seq<u8>, salt: Seq<u8>, name: Seq<u8>, data: Seq<u8>)
    requires
        salt.len() == SALT_LEN,
        container_opens(key, salt, name, data),
    ensures
        container(key, salt, name, data).len() == name.len() + data.len() + 21 * chunk_count(
            data.len(),
        ) + 86,
{
    reveal(container_opens);
    lemma_chunk_blocks_len(key, salt, data, chunk_count(data.len()));
}

proof fn lemma_cut_behind_chunk(
    key: Seq<u8>,
    salt: Seq<u8>,
    data: Seq<u8>,
    from: nat,
    to: nat,
)
    requires
        chunks_open(key, salt, data, 0, chunk_count(data.len())),
        from <= to <= chunk_count(data.len()) < u64::MAX,
    ensures
        ({
            let start = chunk_start(data.len(), from as int);
            let src = chunk_blocks(key, salt, data, from, to);
            let body = body_of(key, salt, (from + 1) as u64, data.subrange(0, start), src);
            &&& body.outcome == Err::<(), CryptoError>(CryptoError::FooterMissing)
            &&& body.written == data.subrange(start, chunk_start(data.len(), to as int))
        }),
    decreases to - from,
{
    let start = chunk_start(data.len(), from as int);
    let end = chunk_start(data.len(), to as int);
    let src = chunk_blocks(key, salt, data, from, to);
    if from == to {
        reveal(body_of);
        assert(data.subrange(start, end) =~= Seq::<u8>::empty());
    } else {
        let plain = chunk_of(data, from as int);
        let sealed = sealed_at(key, salt, (from + 1) as u64, plain);
        let next = chunk_start(data.len(), from as int + 1);
        let rest = chunk_blocks(key, salt, data, from + 1, to);
        assert(block_opens(key, salt, (from as int + 1) as u64, chunk_of(data, from as int)));
        lemma_chunk_blocks_join(key, salt, data, from, from + 1, to);
        assert(chunk_blocks(key, salt, data, from, from) =~= Seq::<u8>::empty());
        assert(chunk_blocks(key, salt, data, from, from + 1) =~= data_block_of(sealed));
        assert(src =~= data_block_of(sealed) + rest);
        lemma_body_of_block(key, salt, (from + 1) as u64, data.subrange(0, start), plain, rest);
        assert(data.subrange(0, start) + plain =~= data.subrange(0, next));
        lemma_cut_behind_chunk(key, salt, data, from + 1, to);
        assert(next <= end) by {
            assert((from + 1) * chunk_size() <= to * chunk_size());
        }
        assert(plain + data.subrange(next, end) =~= data.subrange(start, end));
    }
}

/// The body of a container that is cut off behind any number of its chunks is
/// found to have lost its footer, after those chunks were written out.
pub proof fn law_cut_between_blocks(key: Seq<u8>, salt: Seq<u8>, data: Seq<u8>, chunks: nat)
    requires
        chunks <= chunk_count(data.len()) < u64::MAX,
        chunks_open(key, salt, data, 0, chunk_count(data.len())),
    ensures
        ({
            let n = chunk_blocks(key, salt, data, 0, chunks).len() as int;
            let cut = container_body(key, salt, data).subrange(0, n);
            let body = body_of(key, salt, 1, Seq::empty(), cut);
            &&& body.outcome == Err::<(), CryptoError>(CryptoError::FooterMissing)
            &&& body.written == data.subrange(0, chunk_start(data.len(), chunks as int))
        }),
{
    let count = chunk_count(data.len());
    let front = chunk_blocks(key, salt, data, 0, chunks);
    lemma_chunk_blocks_join(key, salt, data, 0, chunks, count);
    assert(container_body(key, salt, data).subrange(0, front.len() as int) =~= front);
    lemma_cut_behind_chunk(key, salt, data, 0, chunks);
    assert(data.subrange(0, 0) =~= Seq::<u8>::empty());
}

/// Whether nothing in `src` opens, under the key and the salt of a container of
/// `data`, as the block with a number above zero but what was sealed in the
/// container as that block. It is what the cipher's tag stands for, where whoever
/// made `src` did not have the key.
pub open spec fn authentic(key: Seq<u8>, salt: Seq<u8>, data: Seq<u8>, src: Seq<u8>) -> bool {
    forall|counter: u64, i: int, j: int|
        counter > 0 && 0 <= i <= j <= src.len() ==> (#[trigger] xchacha_opened(
            key,
            block_nonce(salt, counter),
            src.subrange(i, j),
        ) matches Some(plain) ==> {
            &&& counter <= chunk_count(data.len()) + 1
            &&& plain == if counter <= chunk_count(data.len()) {
                chunk_of(data, counter - 1)
            } else {
                sha256(data)
            }
        })
}

proof fn lemma_authentic_rest(
    key: Seq<u8>,
    salt: Seq<u8>,
    data: Seq<u8>,
    src: Seq<u8>,
    n: int,
)
    requires
        authentic(key, salt, data, src),
        0 <= n <= src.len(),
    ensures
        authentic(key, salt, data, src.skip(n)),
{
    let rest = src.skip(n);
    assert forall|counter: u64, i: int, j: int|
        counter > 0 && 0 <= i <= j <= rest.len() implies (#[trigger] xchacha_opened(
        key,
        block_nonce(salt, counter),
        rest.subrange(i, j),
    ) matches Some(plain) ==> {
        &&& counter <= chunk_count(data.len()) + 1
        &&& plain == if counter <= chunk_count(data.len()) {
            chunk_of(data, counter - 1)
        } else {
            sha256(data)
        }
    }) by {
        assert(rest.subrange(i, j) =~= src.subrange(n + i, n + j));
    }
}

/// Whether `body` has written out the chunks of `data` from the one with index
/// `from` up to the one with index `to`.
pub open spec fn wrote_chunks(data: Seq<u8>, from: int, to: int, body: BodyReading) -> bool {
    &&& from <= to <= chunk_count(data.len())
    &&& body.written == data.subrange(
        chunk_start(data.len(), from),
        chunk_start(data.len(), to),
    )
    &&& body.pieces == chunk_lengths(data.len()).subrange(from, to)
}

/// Whether `body` has written out the chunks of `data` from the one with index
/// `from` on, and then the digest in the footer, which was given as a chunk.
pub open spec fn wrote_footer(data: Seq<u8>, from: int, body: BodyReading) -> bool {
    &&& body.written == data.skip(chunk_start(data.len(), from)) + sha256(data)
    &&& body.pieces == chunk_lengths(data.len()).skip(from).push(sha256(data).len() as u64)
}

/// Whether `body` has written out chunks of `data` from the one with index
/// `from` on, and nothing else but perhaps the digest in the footer.
pub open spec fn wrote_only(data: Seq<u8>, from: int, body: BodyReading) -> bool {
    ||| exists|to: int| wrote_chunks(data, from, to, body)
    ||| wrote_footer(data, from, body)
}

proof fn lemma_wrote_only(
    key: Seq<u8>,
    salt: Seq<u8>,
    data: Seq<u8>,
    k: nat,
    src: Seq<u8>,
)
    requires
        authentic(key, salt, data, src),
        k <= chunk_count(data.len()) < u64::MAX - 1,
    ensures
        wrote_only(
            data,
            k as int,
            body_of(
                key,
                salt,
                (k + 1) as u64,
                data.subrange(0, chunk_start(data.len(), k as int)),
                src,
            ),
        ),
    decreases chunk_count(data.len()) - k,
{
    reveal(body_of);
    let count = chunk_count(data.len());
    let counter = (k + 1) as u64;
    let start = chunk_start(data.len(), k as int);
    let seen = data.subrange(0, start);
    let lengths = chunk_lengths(data.len());
    let body = body_of(key, salt, counter, seen, src);
    if body.pieces.len() == 0 && body.written.len() == 0 {
        assert(data.subrange(start, start) =~= body.written);
        assert(lengths.subrange(k as int, k as int) =~= body.pieces);
        assert(wrote_chunks(data, k as int, k as int, body));
    } else {
        let len = le32_value(src.subrange(1, 5));
        let sealed = src.subrange(5, 5 + len);
        let plain = xchacha_opened(key, block_nonce(salt, counter), sealed)->Some_0;
        let rest = src.skip(5 + len);
        let more = body_of(key, salt, (counter + 1) as u64, seen + plain, rest);
        assert(body == body_continues(plain, (5 + len) as nat, more));
        lemma_authentic_rest(key, salt, data, src, 5 + len);
        if k < count {
            let after = k as int + 1;
            let next = chunk_start(data.len(), after);
            assert(plain == chunk_of(data, k as int));
            assert(seen + plain =~= data.subrange(0, next));
            lemma_wrote_only(key, salt, data, k + 1, rest);
            if wrote_footer(data, after, more) {
                assert(plain + (data.skip(next) + sha256(data)) =~= data.skip(start) + sha256(data));
                assert(body.pieces =~= lengths.skip(k as int).push(sha256(data).len() as u64));
                assert(wrote_footer(data, k as int, body));
            } else {
                let to = choose|to: int| wrote_chunks(data, after, to, more);
                assert(next <= chunk_start(data.len(), to)) by {
                    assert((k + 1) * chunk_size() <= to * chunk_size());
                }
                assert(body.written =~= data.subrange(start, chunk_start(data.len(), to)));
                assert(body.pieces =~= lengths.subrange(k as int, to));
                assert(wrote_chunks(data, k as int, to, body));
            }
        } else {
            assert(plain == sha256(data));
            assert(start == data.len());
            if more.written.len() > 0 || more.pieces.len() > 0 {
                let more_len = le32_value(rest.subrange(1, 5));
                assert(xchacha_opened(
                    key,
                    block_nonce(salt, (counter + 1) as u64),
                    rest.subrange(5, 5 + more_len),
                ) is Some);
            }
            assert(body.written =~= data.skip(start) + sha256(data));
            assert(body.pieces =~= lengths.skip(k as int).push(sha256(data).len() as u64));
            assert(wrote_footer(data, k as int, body));
        }
    }
}

/// Whatever is made of the blocks of a container, what is written out of them is
/// made of whole chunks of the content, in their order and from the first on,
/// provided that they are authentic. Only a footer that is given as a chunk
/// brings its digest behind the whole content.
pub proof fn law_only_chunks_are_written(
    key: Seq<u8>,
    salt: Seq<u8>,
    data: Seq<u8>,
    src: Seq<u8>,
)
    requires
        authentic(key, salt, data, src),
        chunk_count(data.len()) < u64::MAX - 1,
    ensures
        wrote_only(data, 0, body_of(key, salt, 1, Seq::empty(), src)),
{
    lemma_wrote_only(key, salt, data, 0, src);
    assert(data.subrange(0, 0) =~= Seq::<u8>::empty());
}

/// Reading a body takes no more bytes than there are.
proof fn lemma_body_used(
    key: Seq<u8>,
    salt: Seq<u8>,
    counter: u64,
    seen: Seq<u8>,
    src: Seq<u8>,
)
    ensures
        body_of(key, salt, counter, seen, src).used <= src.len(),
    decreases src.len(),
{
    reveal(body_of);
    if src.len() >= 5 && src[0] == CHUNK_TYPE_DATA {
        let len = le32_value(src.subrange(1, 5));
        if len <= MAX_CHUNK_LEN && src.len() >= 5 + len && counter < u64::MAX {
            let plain = xchacha_opened(
                key,
                block_nonce(salt, counter),
                src.subrange(5, 5 + len),
            )->Some_0;
            lemma_body_used(key, salt, (counter + 1) as u64, seen + plain, src.skip(5 + len));
        }
    }
}

/// No container that has lost bytes at its end is found to be whole.
pub proof fn law_truncated_body_fails(
    key: Seq<u8>,
    salt: Seq<u8>,
    counter: u64,
    seen: Seq<u8>,
    src: Seq<u8>,
    n: int,
)
    requires
        body_of(key, salt, counter, seen, src).outcome is Ok,
        0 <= n < body_of(key, salt, counter, seen, src).used,
    ensures
        body_of(key, salt, counter, seen, src.subrange(0, n)).outcome is Err,
    decreases src.len(),
{
    reveal(body_of);
    lemma_body_used(key, salt, counter, seen, src);
    let cut = src.subrange(0, n);
    let nonce = block_nonce(salt, counter);
    if n > 0 && src[0] == CHUNK_TYPE_DATA && n >= 5 {
        let len = le32_value(src.subrange(1, 5));
        assert(cut.subrange(1, 5) =~= src.subrange(1, 5));
        if n >= 5 + len {
            assert(cut.subrange(5, 5 + len) =~= src.subrange(5, 5 + len));
            let plain = xchacha_opened(key, nonce, src.subrange(5, 5 + len))->Some_0;
            law_truncated_body_fails(
                key,
                salt,
                (counter + 1) as u64,
                seen + plain,
                src.skip(5 + len),
                n - 5 - len,
            );
            assert(cut.skip(5 + len) =~= src.skip(5 + len).subrange(0, n - 5 - len));
        }
    }
}

/// No container that has lost bytes at its end decrypts to anything.
pub proof fn law_truncated_container_fails(
    key: Seq<u8>,
    salt: Seq<u8>,
    name: Seq<char>,
    data: Seq<u8>,
    n: int,
    other_name: Seq<char>,
    other_data: Seq<u8>,
)
    requires
        salt.len() == SALT_LEN,
        encode_utf8(name).len() + TAG_LEN <= MAX_METADATA_LEN,
        chunk_count(data.len()) < u64::MAX,
        container_opens(key, salt, encode_utf8(name), data),
        0 <= n < container(key, salt, encode_utf8(name), data).len(),
    ensures
        !decrypts_to(
            key,
            container(key, salt, encode_utf8(name), data).subrange(0, n),
            other_name,
            other_data,
        ),
{
    reveal(container_opens);
    reveal(decrypts_to);
    let bytes = encode_utf8(name);
    let sealed = sealed_at(key, salt, 0, bytes);
    let body = container_body(key, salt, data);
    let src = container(key, salt, bytes, data);
    let cut = src.subrange(0, n);
    let used = SALT_LEN + 5 + sealed.len();
    law_le32_roundtrip(sealed.len() as u32);
    assert(src.subrange(SALT_LEN + 1, SALT_LEN + 5) =~= le32(sealed.len() as u32));
    if n >= SALT_LEN + 5 {
        assert(cut.subrange(SALT_LEN + 1, SALT_LEN + 5) =~= src.subrange(SALT_LEN + 1, SALT_LEN + 5));
    }
    if n >= used {
        let rest = n - used;
        assert(src.skip(used as int) =~= body);
        assert(cut.subrange(0, SALT_LEN as int) =~= salt);
        lemma_body_roundtrip(key, salt, data, 0);
        assert(data.subrange(0, 0) =~= Seq::<u8>::empty());
        assert(chunk_blocks(key, salt, data, 0, chunk_count(data.len())) + footer(key, salt, data)
            == body);
        law_truncated_body_fails(key, salt, 1, Seq::empty(), body, rest);
        assert(cut.skip(used as int) =~= body.subrange(0, rest));
    }
}

/// A block that holds `sealed`, with its type and its length in front.
pub fn data_block(sealed: &[u8]) -> (block: Vec<u8>)
    requires
        sealed@.len() <= u32::MAX,
    ensures
        block@ == data_block_of(sealed@),
{
    let mut block: Vec<u8> = Vec::new();
    block.push(CHUNK_TYPE_DATA);
    append(&mut block, &u32_to_le(sealed.len() as u32));
    append(&mut block, sealed);
    assert(block@ =~= data_block_of(sealed@));
    block
}

/// A footer that holds `sealed`, with its type in front.
pub fn footer_block(sealed: &[u8]) -> (block: Vec<u8>)
    ensures
        block@ == footer_block_of(sealed@),
{
    let mut block: Vec<u8> = Vec::new();
    block.push(CHUNK_TYPE_EOF);
    append(&mut block, sealed);
    assert(block@ =~= footer_block_of(sealed@));
    block
}

/// The block of a sealed file name. Refuses one that no reader would take.
pub fn filename_block(sealed: &[u8]) -> (r: Result<Vec<u8>, CryptoError>)
    ensures
        match r {
            Ok(block) => sealed@.len() <= MAX_METADATA_LEN && block@ == data_block_of(sealed@),
            Err(e) => sealed@.len() > MAX_METADATA_LEN && e == CryptoError::FilenameTooLong,
        },
{
    if sealed.len() > MAX_METADATA_LEN {
        return Err(CryptoError::FilenameTooLong);
    }
    Ok(data_block(sealed))
}

/// The bytes behind an `Option`.
pub open spec fn option_view(bytes: Option<Vec<u8>>) -> Option<Seq<u8>> {
    match bytes {
        Some(b) => Some(b@),
        None => None,
    }
}

/// The file name in an opened metadata block.
pub fn filename_of(opened: Option<Vec<u8>>) -> (r: Result<String, CryptoError>)
    ensures
        match r {
            Ok(name) => metadata_name(option_view(opened)) == Ok::<Seq<char>, CryptoError>(name@),
            Err(e) => metadata_name(option_view(opened)) == Err::<Seq<char>, CryptoError>(e),
        },
{
    match opened {
        None => Err(CryptoError::MetadataRejected),
        Some(name) => match str_from_utf8(name.as_slice()) {
            Ok(text) => Ok(text.to_owned()),
            Err(_) => Err(CryptoError::FilenameNotUtf8),
        },
    }
}

/// Compares an opened footer with the digest of what was written out.
pub fn check_footer(opened: Option<Vec<u8>>, digest: &[u8]) -> (r: Result<(), CryptoError>)
    ensures
        r == footer_verdict(option_view(opened), digest@),
{
    match opened {
        None => Err(CryptoError::FooterCorrupted),
        Some(stored) => if same_bytes(stored.as_slice(), digest) {
            Ok(())
        } else {
            Err(CryptoError::IntegrityMismatch)
        },
    }
}

/// Whether a block with number `counter` that holds `plain` stands at `at` in
/// `src`: a zero, the length of what was sealed, as four bytes with the last one
/// first, and what was sealed.
pub open spec fn block_stands_at(
    key: Seq<u8>,
    salt: Seq<u8>,
    counter: u64,
    plain: Seq<u8>,
    src: Seq<u8>,
    at: int,
) -> bool {
    let n = plain.len() + 16;
    &&& 0 <= at
    &&& at + 5 + n <= src.len()
    &&& src[at] == 0
    &&& n == src[at + 1] + src[at + 2] * 0x100 + src[at + 3] * 0x1_0000 + src[at + 4] * 0x100_0000
    &&& src.subrange(at + 5, at + 5 + n) == xchacha_sealed(key, block_nonce(salt, counter), plain)
}

/// Where the chunk with index `k` of `data` begins and ends.
pub open spec fn is_chunk(data: Seq<u8>, k: int, chunk: Seq<u8>) -> bool {
    let start = k * 4194304;
    &&& 0 <= start < data.len()
    &&& chunk == data.subrange(
        start,
        if start + 4194304 <= data.len() {
            start + 4194304
        } else {
            data.len() as int
        },
    )
}

proof fn lemma_block_stands(
    key: Seq<u8>,
    salt: Seq<u8>,
    counter: u64,
    plain: Seq<u8>,
    src: Seq<u8>,
    at: int,
)
    requires
        block_opens(key, salt, counter, plain),
        plain.len() + 16 <= u32::MAX,
        0 <= at,
        at + 5 + plain.len() + 16 <= src.len(),
        src.subrange(at, at + 5 + plain.len() + 16) == data_block_of(
            sealed_at(key, salt, counter, plain),
        ),
    ensures
        block_stands_at(key, salt, counter, plain, src, at),
{
    let sealed = sealed_at(key, salt, counter, plain);
    let block = data_block_of(sealed);
    let n = sealed.len() as u32;
    law_le32_is_little_endian(n);
    assert(block[0] == 0);
    assert(block[1] == le32(n)[0] && block[2] == le32(n)[1] && block[3] == le32(n)[2] && block[4]
        == le32(n)[3]);
    assert forall|i: int| 0 <= i < block.len() implies src[at + i] == block[i] by {
        assert(src.subrange(at, at + 5 + plain.len() + 16)[i] == block[i]);
    }
    assert(src[at] == block[0] && src[at + 1] == block[1] && src[at + 2] == block[2] && src[at + 3]
        == block[3] && src[at + 4] == block[4]) by {
        assert(src[at + 0] == block[0]);
    }
    assert(src.subrange(at + 5, at + 5 + plain.len() + 16) =~= sealed) by {
        assert forall|i: int| 0 <= i < sealed.len() implies src[at + 5 + i] == sealed[i] by {
            assert(src[at + (5 + i)] == block[5 + i]);
        }
    }
}

/// The layout of a container: the salt, the file name as the block with number
/// zero, every 4 MiB of the content as a block of their own, numbered from one and
/// in their order, the last one perhaps shorter, and behind a one the sealed digest
/// of the whole content, under the next number.
pub proof fn law_container_layout(
    key: Seq<u8>,
    salt: Seq<u8>,
    name: Seq<u8>,
    data: Seq<u8>,
    k: nat,
)
    requires
        salt.len() == 16,
        name.len() + 16 <= 4096,
        container_opens(key, salt, name, data),
    ensures
        ({
            let src = container(key, salt, name, data);
            let count = (data.len() + 4194303) / 4194304;
            let body = 37 + name.len() as int;
            &&& src.subrange(0, 16) == salt
            &&& block_stands_at(key, salt, 0, name, src, 16)
            &&& k < count ==> exists|chunk: Seq<u8>| #[trigger]
                is_chunk(data, k as int, chunk) && block_stands_at(
                    key,
                    salt,
                    (k + 1) as u64,
                    chunk,
                    src,
                    body + k * (4194304 + 21),
                )
            &&& src.len() == body + data.len() + 21 * count + 49
            &&& src[src.len() - 49] == 1
            &&& src.subrange(src.len() - 48, src.len() as int) == xchacha_sealed(
                key,
                block_nonce(salt, (count + 1) as u64),
                sha256(data),
            )
        }),
{
    law_container_len(key, salt, name, data);
    lemma_layout_ends(key, salt, name, data);
    if k < chunk_count(data.len()) {
        lemma_layout_chunk(key, salt, name, data, k);
    }
}

proof fn lemma_layout_ends(key: Seq<u8>, salt: Seq<u8>, name: Seq<u8>, data: Seq<u8>)
    requires
        salt.len() == 16,
        name.len() + 16 <= 4096,
        container_opens(key, salt, name, data),
    ensures
        ({
            let src = container(key, salt, name, data);
            &&& src.len() >= 49
            &&& src.subrange(0, 16) == salt
            &&& block_stands_at(key, salt, 0, name, src, 16)
            &&& src[src.len() - 49] == 1
            &&& src.subrange(src.len() - 48, src.len() as int) == xchacha_sealed(
                key,
                block_nonce(salt, (chunk_count(data.len()) + 1) as u64),
                sha256(data),
            )
        }),
{
    let src = container(key, salt, name, data);
    let count = chunk_count(data.len());
    reveal(container_opens);
    let sealed_name = sealed_at(key, salt, 0, name);
    let foot = footer(key, salt, data);
    let front = salt + metadata_block(key, salt, name) + chunk_blocks(key, salt, data, 0, count);
    assert(src =~= front + foot);
    assert(foot.len() == 49);
    assert(src.subrange(0, 16) =~= salt);
    assert(src.subrange(16, 37 + name.len() as int) =~= data_block_of(sealed_name));
    lemma_block_stands(key, salt, 0, name, src, 16);
    assert(src.subrange(src.len() - 49, src.len() as int) =~= foot);
    assert(src[src.len() - 49] == foot[0]);
    assert(src.subrange(src.len() - 48, src.len() as int) =~= foot.skip(1));
    assert(foot.skip(1) =~= sealed_at(key, salt, (count + 1) as u64, sha256(data)));
}

proof fn lemma_layout_chunk(
    key: Seq<u8>,
    salt: Seq<u8>,
    name: Seq<u8>,
    data: Seq<u8>,
    k: nat,
)
    requires
        salt.len() == 16,
        name.len() + 16 <= 4096,
        container_opens(key, salt, name, data),
        k < chunk_count(data.len()),
    ensures
        is_chunk(data, k as int, chunk_of(data, k as int)),
        block_stands_at(
            key,
            salt,
            (k + 1) as u64,
            chunk_of(data, k as int),
            container(key, salt, name, data),
            37 + name.len() as int + k * (4194304 + 21),
        ),
{
    reveal(container_opens);
    let src = container(key, salt, name, data);
    let chunk = chunk_of(data, k as int);
    let start = salt + metadata_block(key, salt, name);
    let front = chunk_blocks(key, salt, data, 0, k);
    let block = data_block_of(sealed_at(key, salt, (k + 1) as u64, chunk));
    let behind = chunk_blocks(key, salt, data, k + 1, chunk_count(data.len())) + footer(
        key,
        salt,
        data,
    );
    let at = 37 + name.len() as int + k * (4194304 + 21);
    assert(src == start + container_body(key, salt, data));
    lemma_body_around_chunk(key, salt, data, k);
    lemma_assoc(start, front, block + behind);
    lemma_middle(start + front, block, behind);
    let j = k as int;
    assert(block_opens(key, salt, (j + 1) as u64, chunk_of(data, j)));
    lemma_chunk_place(key, salt, name, data, k);
    lemma_block_stands(key, salt, (k + 1) as u64, chunk, src, at);
}

proof fn lemma_chunk_place(key: Seq<u8>, salt: Seq<u8>, name: Seq<u8>, data: Seq<u8>, k: nat)
    requires
        salt.len() == 16,
        block_opens(key, salt, 0, name),
        chunks_open(key, salt, data, 0, chunk_count(data.len())),
        k < chunk_count(data.len()),
    ensures
        (salt + metadata_block(key, salt, name) + chunk_blocks(key, salt, data, 0, k)).len() == 37
            + name.len() + k * (4194304 + 21),
        is_chunk(data, k as int, chunk_of(data, k as int)),
        chunk_of(data, k as int).len() <= 4194304,
{
    lemma_chunk_range(data, k);
    let blocks = chunk_blocks(key, salt, data, 0, k);
    assert(blocks.len() == k * (4194304 + 21)) by {
        lemma_chunk_blocks_len(key, salt, data, k);
        assert((5 + TAG_LEN) * k == 21 * k);
        assert(k * (4194304 + 21) == k * 4194304 + 21 * k) by (nonlinear_arith);
    }
    let block = metadata_block(key, salt, name);
    assert(block.len() == 21 + name.len());
    assert((salt + block + blocks).len() == salt.len() + block.len() + blocks.len());
}

proof fn lemma_chunk_range(data: Seq<u8>, k: nat)
    requires
        k < chunk_count(data.len()),
    ensures
        chunk_start(data.len(), k as int) == k * 4194304,
        is_chunk(data, k as int, chunk_of(data, k as int)),
        chunk_of(data, k as int).len() <= 4194304,
{
    assert(k * 4194304 < data.len());
}

proof fn lemma_assoc(a: Seq<u8>, b: Seq<u8>, c: Seq<u8>)
    ensures
        a + (b + c) == a + b + c,
{
    assert(a + (b + c) =~= a + b + c);
}

proof fn lemma_middle(before: Seq<u8>, block: Seq<u8>, behind: Seq<u8>)
    ensures
        (before + (block + behind)).subrange(
            before.len() as int,
            before.len() + block.len() as int,
        ) == block,
{
    assert((before + (block + behind)).subrange(
        before.len() as int,
        before.len() + block.len() as int,
    ) =~= block);
}

/// The body of a container before, in and behind the block of the chunk with index
/// `k`.
proof fn lemma_body_around_chunk(key: Seq<u8>, salt: Seq<u8>, data: Seq<u8>, k: nat)
    requires
        k < chunk_count(data.len()),
    ensures
        container_body(key, salt, data) == chunk_blocks(key, salt, data, 0, k) + (data_block_of(
            sealed_at(key, salt, (k + 1) as u64, chunk_of(data, k as int)),
        ) + (chunk_blocks(key, salt, data, k + 1, chunk_count(data.len())) + footer(
            key,
            salt,
            data,
        ))),
{
    let count = chunk_count(data.len());
    let block = data_block_of(sealed_at(key, salt, (k + 1) as u64, chunk_of(data, k as int)));
    let front = chunk_blocks(key, salt, data, 0, k);
    let rest = chunk_blocks(key, salt, data, k + 1, count);
    let foot = footer(key, salt, data);
    lemma_chunk_blocks_join(key, salt, data, 0, k, count);
    lemma_chunk_blocks_join(key, salt, data, k, k + 1, count);
    assert(chunk_blocks(key, salt, data, k, k) =~= Seq::<u8>::empty());
    assert(chunk_blocks(key, salt, data, k, k + 1) =~= block);
    assert(front + (block + rest) + foot =~= front + (block + (rest + foot)));
}

/// The number behind the four bytes from `at` on, the last one first.
pub open spec fn length_at(src: Seq<u8>, at: int) -> int {
    src[at] + src[at + 1] * 0x100 + src[at + 2] * 0x1_0000 + src[at + 3] * 0x100_0000
}

/// The beginning of a container is read from its place: the salt from the first 16
/// bytes, and the file name, in UTF-8, from the block behind them. Anything else is
/// refused.
pub proof fn law_header_is_read_from_its_place(key: Seq<u8>, src: Seq<u8>)
    ensures
        ({
            let n = length_at(src, 17);
            let opened = xchacha_opened(
                key,
                block_nonce(src.subrange(0, 16), 0),
                src.subrange(21, 21 + n),
            );
            let whole = src.len() >= 21 && src[16] == 0 && n <= 4096 && src.len() >= 21 + n;
            &&& header_of(key, src) is Ok <==> whole && (opened matches Some(name) && valid_utf8(
                name,
            ))
            &&& header_of(key, src) matches Ok(header) ==> header.salt == src.subrange(0, 16)
                && header.used == 21 + n && header.name == decode_utf8(opened->Some_0)
            &&& header_of(key, src) matches Err(e) ==> e == if src.len() < 16 {
                CryptoError::FileTooSmall
            } else if src.len() == 16 {
                CryptoError::UnexpectedEnd
            } else if src[16] != 0 {
                CryptoError::MissingMetadata
            } else if src.len() < 21 {
                CryptoError::UnexpectedEnd
            } else if n > 4096 {
                CryptoError::MetadataTooLarge
            } else if src.len() < 21 + n {
                CryptoError::UnexpectedEnd
            } else if opened is None {
                CryptoError::MetadataRejected
            } else {
                CryptoError::FilenameNotUtf8
            }
        }),
{
    if src.len() >= 21 {
        let bytes = src.subrange(17, 21);
        law_le32_value_is_little_endian(bytes);
        assert(bytes[0] == src[17] && bytes[1] == src[18] && bytes[2] == src[19] && bytes[3]
            == src[20]);
    }
}

/// The blocks behind the file name are read one by one. A chunk that opens under
/// its number is written out, whatever its length, and the rest is read behind it;
/// the footer has to hold the digest of everything that was written out. Whatever
/// does not open, is cut off, too long or of no known type ends the reading with its
/// error, and nothing of it is written out.
pub proof fn law_body_is_read_block_by_block(
    key: Seq<u8>,
    salt: Seq<u8>,
    counter: u64,
    seen: Seq<u8>,
    src: Seq<u8>,
)
    ensures
        ({
            let body = body_of(key, salt, counter, seen, src);
            let n = length_at(src, 1);
            let nonce = block_nonce(salt, counter);
            let opened = xchacha_opened(key, nonce, src.subrange(5, 5 + n));
            let digest = xchacha_opened(key, nonce, src.subrange(1, 49));
            let rest = body_of(
                key,
                salt,
                (counter + 1) as u64,
                seen + opened->Some_0,
                src.skip(5 + n),
            );
            let is_chunk = src.len() >= 5 && src[0] == 0 && n <= 4194304 + 1024 && src.len() >= 5
                + n && opened is Some;
            let is_footer = src.len() >= 49 && src[0] == 1;
            if is_chunk {
                &&& counter < u64::MAX ==> {
                    &&& body.written == opened->Some_0 + rest.written
                    &&& body.outcome == rest.outcome
                    &&& body.used == 5 + n + rest.used
                    &&& body.pieces == seq![opened->Some_0.len() as u64] + rest.pieces
                }
                &&& counter == u64::MAX ==> {
                    &&& body.written == opened->Some_0
                    &&& body.outcome == Err::<(), CryptoError>(CryptoError::CounterOverflow)
                    &&& body.pieces == seq![opened->Some_0.len() as u64]
                }
            } else {
                &&& body.written.len() == 0
                &&& body.pieces.len() == 0
                &&& body.outcome is Ok <==> is_footer && digest == Some(sha256(seen))
                &&& body.outcome is Ok ==> body.used == 49
                &&& body.outcome matches Err(e) ==> e == if src.len() == 0 {
                    CryptoError::FooterMissing
                } else if src[0] == 1 {
                    if src.len() < 49 {
                        CryptoError::UnexpectedEnd
                    } else if digest is None {
                        CryptoError::FooterCorrupted
                    } else {
                        CryptoError::IntegrityMismatch
                    }
                } else if src[0] == 0 {
                    if src.len() < 5 {
                        CryptoError::UnexpectedEnd
                    } else if n > 4194304 + 1024 {
                        CryptoError::InvalidChunkSize
                    } else if src.len() < 5 + n {
                        CryptoError::UnexpectedEnd
                    } else {
                        CryptoError::ChunkRejected(counter)
                    }
                } else {
                    CryptoError::UnknownChunkType
                }
            }
        }),
{
    reveal(body_of);
    if src.len() >= 5 {
        let bytes = src.subrange(1, 5);
        law_le32_value_is_little_endian(bytes);
        assert(bytes[0] == src[1] && bytes[1] == src[2] && bytes[2] == src[3] && bytes[3]
            == src[4]);
    }
    let n = length_at(src, 1);
    let opened = xchacha_opened(key, block_nonce(salt, counter), src.subrange(5, 5 + n));
    if counter == u64::MAX && opened is Some {
        assert(opened->Some_0 + Seq::<u8>::empty() =~= opened->Some_0);
        assert(seq![opened->Some_0.len() as u64] + Seq::<u64>::empty() =~= seq![
            opened->Some_0.len() as u64,
        ]);
    }
}

/// A container that decrypts to a name and a content is read to its end: what its
/// beginning says is the name, and what its blocks hold is the content, all of it.
pub proof fn law_decrypted_is_what_is_read(
    key: Seq<u8>,
    src: Seq<u8>,
    name: Seq<char>,
    data: Seq<u8>,
)
    ensures
        decrypts_to(key, src, name, data) <==> {
            let header = header_of(key, src)->Ok_0;
            let body = body_of(key, header.salt, 1, Seq::empty(), src.skip(header.used as int));
            &&& header_of(key, src) is Ok
            &&& header.name == name
            &&& body.outcome is Ok
            &&& body.written == data
        },
{
    reveal(decrypts_to);
}

} // verus!
