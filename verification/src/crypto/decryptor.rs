//! Decryption of a container, in two phases: the caller learns the file name
//! before it has to choose a place for the content.

use vstd::prelude::*;
use vstd::slice::slice_subrange;
use crate::bytes::{append, law_le32_of_value, le32_value, u32_from_le};
use crate::crypto::container::{
    body_continues, body_fails, body_of, check_footer, data_block_of, filename_of, footer_block_of,
    footer_verdict, header_of, is_sealed_from, metadata_name, sealed_at, sealed_blocks,
    BodyReading, CHUNK_TYPE_DATA, CHUNK_TYPE_EOF, HASH_FOOTER_LEN,
    MAX_CHUNK_LEN, MAX_METADATA_LEN,
};
use crate::crypto::error::CryptoError;
use crate::crypto::key::{block_nonce, create_nonce, SecureKey, SALT_LEN};
use crate::crypto::primitives::{
    hashed_bytes, sha256, sha256_begin, sha256_finish, sha256_update, unseal, wipe_buffer,
    xchacha_opened, xchacha_sealed, Sha256Hasher, HASH_LIMIT, TAG_LEN,
};

verus! {

/// Which part of the beginning of a container is read next.
#[derive(Clone, Copy, Debug, PartialEq, Eq, Structural)]
pub enum HeaderPart {
    /// The salt.
    Salt,
    /// The type of the metadata block.
    Kind,
    /// The length of the metadata block.
    Length,
    /// The metadata block, of this length.
    Name(usize),
}

/// Reads the beginning of a container. It is given exactly the bytes that it
/// asks for.
pub struct HeaderReader {
    key: SecureKey,
    salt: [u8; 16],
    part: HeaderPart,
}

/// What comes of a piece of the beginning of a container.
pub enum HeaderStep {
    /// More is to be read.
    More(HeaderReader),
    /// The beginning is read: the reader of the rest, and the file name.
    Opened(StreamDecryptor, String),
}

/// Which part of a block is read next.
#[derive(Clone, Copy, Debug, PartialEq, Eq, Structural)]
pub enum BodyPart {
    /// The type of the next block.
    Kind,
    /// The length of a chunk.
    Length,
    /// A chunk of this sealed length.
    Chunk(usize),
    /// The integrity footer.
    Footer,
    /// Nothing: the blocks can no longer be numbered.
    Exhausted,
}

/// Reads the blocks behind the file name. It is given exactly the bytes that it
/// asks for.
pub struct StreamDecryptor {
    key: SecureKey,
    salt: [u8; 16],
    counter: u64,
    hasher: Sha256Hasher,
    part: BodyPart,
}

/// What comes of a piece of a block.
pub enum BodyStep {
    /// More is to be read.
    More(StreamDecryptor),
    /// A piece of the content, not yet known to be unchanged as a whole.
    Plain(Vec<u8>, StreamDecryptor),
    /// The content is whole and unchanged.
    Verified,
}

impl HeaderReader {
    /// The key that the container is opened with.
    pub closed spec fn key_bytes(self) -> Seq<u8> {
        self.key@
    }

    /// The salt, once it was read.
    pub closed spec fn salt_bytes(self) -> Seq<u8> {
        self.salt@
    }

    /// The part that is read next.
    pub closed spec fn next_part(self) -> HeaderPart {
        self.part
    }

    /// Whether the part that is read next is of a size that is allowed.
    pub open spec fn wf(self) -> bool {
        self.next_part() matches HeaderPart::Name(n) ==> n <= MAX_METADATA_LEN
    }

    /// The number of bytes that are read next.
    pub open spec fn wanted_bytes(self) -> nat {
        match self.next_part() {
            HeaderPart::Salt => SALT_LEN as nat,
            HeaderPart::Kind => 1,
            HeaderPart::Length => 4,
            HeaderPart::Name(n) => n as nat,
        }
    }

    /// Begins to read a container.
    pub fn new(key: &SecureKey) -> (reader: Self)
        ensures
            reader.wf(),
            reader.key_bytes() == key@,
            reader.next_part() == HeaderPart::Salt,
    {
        HeaderReader { key: key.duplicate(), salt: [0u8; 16], part: HeaderPart::Salt }
    }

    /// The number of bytes to read next.
    pub fn wanted(&self) -> (n: usize)
        requires
            self.wf(),
        ensures
            n == self.wanted_bytes(),
    {
        match self.part {
            HeaderPart::Salt => SALT_LEN,
            HeaderPart::Kind => 1,
            HeaderPart::Length => 4,
            HeaderPart::Name(n) => n,
        }
    }

    /// The error to report when the container ends before the bytes asked for
    /// were read.
    pub fn ended(&self) -> (e: CryptoError)
        ensures
            e == if self.next_part() == HeaderPart::Salt {
                CryptoError::FileTooSmall
            } else {
                CryptoError::UnexpectedEnd
            },
    {
        match self.part {
            HeaderPart::Salt => CryptoError::FileTooSmall,
            _ => CryptoError::UnexpectedEnd,
        }
    }

    /// Takes the bytes asked for.
    pub fn feed(self, input: &[u8]) -> (r: Result<HeaderStep, CryptoError>)
        requires
            self.wf(),
            input@.len() == self.wanted_bytes(),
        ensures
            match self.next_part() {
                HeaderPart::Salt => {
                    &&& r matches Ok(HeaderStep::More(next))
                    &&& next.wf()
                    &&& next.key_bytes() == self.key_bytes()
                    &&& next.salt_bytes() == input@
                    &&& next.next_part() == HeaderPart::Kind
                },
                HeaderPart::Kind => if input@[0] == CHUNK_TYPE_DATA {
                    &&& r matches Ok(HeaderStep::More(next))
                    &&& next.wf()
                    &&& next.key_bytes() == self.key_bytes()
                    &&& next.salt_bytes() == self.salt_bytes()
                    &&& next.next_part() == HeaderPart::Length
                } else {
                    r == Err::<HeaderStep, CryptoError>(CryptoError::MissingMetadata)
                },
                HeaderPart::Length => if le32_value(input@) <= MAX_METADATA_LEN {
                    &&& r matches Ok(HeaderStep::More(next))
                    &&& next.wf()
                    &&& next.key_bytes() == self.key_bytes()
                    &&& next.salt_bytes() == self.salt_bytes()
                    &&& next.next_part() == HeaderPart::Name(le32_value(input@) as usize)
                } else {
                    r == Err::<HeaderStep, CryptoError>(CryptoError::MetadataTooLarge)
                },
                HeaderPart::Name(_) => {
                    let opened = xchacha_opened(
                        self.key_bytes(),
                        block_nonce(self.salt_bytes(), 0),
                        input@,
                    );
                    match metadata_name(opened) {
                        Ok(name) => {
                            &&& r matches Ok(HeaderStep::Opened(decryptor, found))
                            &&& found@ == name
                            &&& decryptor.wf()
                            &&& decryptor.key_bytes() == self.key_bytes()
                            &&& decryptor.salt_bytes() == self.salt_bytes()
                            &&& decryptor.block_number() == 1
                            &&& decryptor.seen() == Seq::<u8>::empty()
                            &&& decryptor.next_part() == BodyPart::Kind
                        },
                        Err(e) => r == Err::<HeaderStep, CryptoError>(e),
                    }
                },
            },
    {
        match self.part {
            HeaderPart::Salt => {
                let mut salt: [u8; 16] = [0u8; 16];
                let mut i: usize = 0;
                while i < 16
                    invariant
                        i <= 16,
                        input@.len() == 16,
                        forall|j: int| 0 <= j < i ==> salt@[j] == input@[j],
                    decreases 16 - i,
                {
                    salt[i] = input[i];
                    i = i + 1;
                }
                assert(salt@ =~= input@);
                Ok(HeaderStep::More(HeaderReader { key: self.key, salt, part: HeaderPart::Kind }))
            },
            HeaderPart::Kind => {
                if input[0] != CHUNK_TYPE_DATA {
                    return Err(CryptoError::MissingMetadata);
                }
                Ok(
                    HeaderStep::More(
                        HeaderReader { key: self.key, salt: self.salt, part: HeaderPart::Length },
                    ),
                )
            },
            HeaderPart::Length => {
                let len: usize = u32_from_le(input) as usize;
                if len > MAX_METADATA_LEN {
                    return Err(CryptoError::MetadataTooLarge);
                }
                Ok(
                    HeaderStep::More(
                        HeaderReader {
                            key: self.key,
                            salt: self.salt,
                            part: HeaderPart::Name(len),
                        },
                    ),
                )
            },
            HeaderPart::Name(_) => {
                let nonce = create_nonce(&self.salt, 0);
                let opened = match unseal(self.key.as_bytes(), &nonce, input) {
                    Ok(name) => Some(name),
                    Err(_) => None,
                };
                match filename_of(opened) {
                    Ok(name) => {
                        let decryptor = StreamDecryptor {
                            key: self.key,
                            salt: self.salt,
                            counter: 1,
                            hasher: sha256_begin(),
                            part: BodyPart::Kind,
                        };
                        Ok(HeaderStep::Opened(decryptor, name))
                    },
                    Err(e) => Err(e),
                }
            },
        }
    }
}

impl StreamDecryptor {
    /// The key that the container is opened with.
    pub closed spec fn key_bytes(self) -> Seq<u8> {
        self.key@
    }

    /// The salt of the container.
    pub closed spec fn salt_bytes(self) -> Seq<u8> {
        self.salt@
    }

    /// The number of the next block.
    pub closed spec fn block_number(self) -> u64 {
        self.counter
    }

    /// The content handed out so far.
    pub closed spec fn seen(self) -> Seq<u8> {
        hashed_bytes(self.hasher)
    }

    /// The part that is read next.
    pub closed spec fn next_part(self) -> BodyPart {
        self.part
    }

    /// Whether the part that is read next is of a size that is allowed, and the
    /// content so far can be hashed.
    pub open spec fn wf(self) -> bool {
        &&& self.next_part() matches BodyPart::Chunk(n) ==> n <= MAX_CHUNK_LEN
        &&& self.seen().len() < HASH_LIMIT
    }

    /// The number of bytes that are read next. Where the type of a block is
    /// read, there may be none left.
    pub open spec fn wanted_bytes(self) -> nat {
        match self.next_part() {
            BodyPart::Kind => 1,
            BodyPart::Length => 4,
            BodyPart::Chunk(n) => n as nat,
            BodyPart::Footer => HASH_FOOTER_LEN as nat,
            BodyPart::Exhausted => 0,
        }
    }

    /// The number of bytes to read next.
    pub fn wanted(&self) -> (n: usize)
        ensures
            n == self.wanted_bytes(),
    {
        match self.part {
            BodyPart::Kind => 1,
            BodyPart::Length => 4,
            BodyPart::Chunk(n) => n,
            BodyPart::Footer => HASH_FOOTER_LEN,
            BodyPart::Exhausted => 0,
        }
    }

    /// Whether the container may end here without the reader having been given
    /// the bytes that it asked for.
    pub fn may_end(&self) -> (b: bool)
        ensures
            b == (self.next_part() == BodyPart::Kind),
    {
        match self.part {
            BodyPart::Kind => true,
            _ => false,
        }
    }

    /// Whether `self` has come out of `before` with this part to read next, and
    /// otherwise unchanged.
    pub open spec fn turned_to(self, before: StreamDecryptor, part: BodyPart) -> bool {
        &&& self.wf()
        &&& self.key_bytes() == before.key_bytes()
        &&& self.salt_bytes() == before.salt_bytes()
        &&& self.block_number() == before.block_number()
        &&& self.seen() == before.seen()
        &&& self.next_part() == part
    }

    /// Takes the bytes asked for, or none where the container has ended before
    /// a block.
    pub fn feed(self, input: &[u8]) -> (r: Result<BodyStep, CryptoError>)
        requires
            self.wf(),
            input@.len() == self.wanted_bytes() || (input@.len() == 0 && self.next_part()
                == BodyPart::Kind),
            self.seen().len() + input@.len() < HASH_LIMIT,
        ensures
            match self.next_part() {
                BodyPart::Kind => if input@.len() == 0 {
                    r == Err::<BodyStep, CryptoError>(CryptoError::FooterMissing)
                } else if input@[0] == CHUNK_TYPE_EOF {
                    r matches Ok(BodyStep::More(next)) && next.turned_to(self, BodyPart::Footer)
                } else if input@[0] == CHUNK_TYPE_DATA {
                    r matches Ok(BodyStep::More(next)) && next.turned_to(self, BodyPart::Length)
                } else {
                    r == Err::<BodyStep, CryptoError>(CryptoError::UnknownChunkType)
                },
                BodyPart::Length => if le32_value(input@) > MAX_CHUNK_LEN {
                    r == Err::<BodyStep, CryptoError>(CryptoError::InvalidChunkSize)
                } else {
                    r matches Ok(BodyStep::More(next)) && next.turned_to(
                        self,
                        BodyPart::Chunk(le32_value(input@) as usize),
                    )
                },
                BodyPart::Chunk(_) => {
                    let number = self.block_number();
                    let nonce = block_nonce(self.salt_bytes(), number);
                    match xchacha_opened(self.key_bytes(), nonce, input@) {
                        None => r == Err::<BodyStep, CryptoError>(
                            CryptoError::ChunkRejected(number),
                        ),
                        Some(plain) => {
                            &&& r matches Ok(BodyStep::Plain(piece, next))
                            &&& piece@ == plain
                            &&& plain.len() + TAG_LEN == input@.len()
                            &&& xchacha_sealed(self.key_bytes(), nonce, plain) == input@
                            &&& next.wf()
                            &&& next.key_bytes() == self.key_bytes()
                            &&& next.salt_bytes() == self.salt_bytes()
                            &&& next.seen() == self.seen() + plain
                            &&& if number == u64::MAX {
                                next.next_part() == BodyPart::Exhausted
                            } else {
                                &&& next.next_part() == BodyPart::Kind
                                &&& next.block_number() == number + 1
                            }
                        },
                    }
                },
                BodyPart::Footer => {
                    let nonce = block_nonce(self.salt_bytes(), self.block_number());
                    let opened = xchacha_opened(self.key_bytes(), nonce, input@);
                    match footer_verdict(opened, sha256(self.seen())) {
                        Ok(()) => {
                            &&& r == Ok::<BodyStep, CryptoError>(BodyStep::Verified)
                            &&& xchacha_sealed(self.key_bytes(), nonce, sha256(self.seen()))
                                == input@
                        },
                        Err(e) => r == Err::<BodyStep, CryptoError>(e),
                    }
                },
                BodyPart::Exhausted => r == Err::<BodyStep, CryptoError>(
                    CryptoError::CounterOverflow,
                ),
            },
    {
        let mut state = self;
        match state.part {
            BodyPart::Kind => {
                if input.len() == 0 {
                    return Err(CryptoError::FooterMissing);
                }
                if input[0] == CHUNK_TYPE_EOF {
                    state.part = BodyPart::Footer;
                    Ok(BodyStep::More(state))
                } else if input[0] == CHUNK_TYPE_DATA {
                    state.part = BodyPart::Length;
                    Ok(BodyStep::More(state))
                } else {
                    Err(CryptoError::UnknownChunkType)
                }
            },
            BodyPart::Length => {
                let len: usize = u32_from_le(input) as usize;
                if len > MAX_CHUNK_LEN {
                    return Err(CryptoError::InvalidChunkSize);
                }
                state.part = BodyPart::Chunk(len);
                Ok(BodyStep::More(state))
            },
            BodyPart::Chunk(_) => {
                let nonce = create_nonce(&state.salt, state.counter);
                let plain = match unseal(state.key.as_bytes(), &nonce, input) {
                    Ok(plain) => plain,
                    Err(_) => return Err(CryptoError::ChunkRejected(state.counter)),
                };
                sha256_update(&mut state.hasher, plain.as_slice());
                match state.counter.checked_add(1) {
                    Some(counter) => {
                        state.counter = counter;
                        state.part = BodyPart::Kind;
                    },
                    None => {
                        state.part = BodyPart::Exhausted;
                    },
                }
                Ok(BodyStep::Plain(plain, state))
            },
            BodyPart::Footer => {
                let nonce = create_nonce(&state.salt, state.counter);
                let opened = match unseal(state.key.as_bytes(), &nonce, input) {
                    Ok(stored) => Some(stored),
                    Err(_) => None,
                };
                let digest = sha256_finish(state.hasher);
                match check_footer(opened, digest.as_slice()) {
                    Ok(()) => Ok(BodyStep::Verified),
                    Err(e) => Err(e),
                }
            },
            BodyPart::Exhausted => Err(CryptoError::CounterOverflow),
        }
    }

    /// Reads the beginning of the container `source`: gives the reader of the
    /// rest, the file name, and the number of bytes read.
    pub fn open(source: &[u8], key: &SecureKey) -> (r: Result<
        (StreamDecryptor, String, usize),
        CryptoError,
    >)
        ensures
            match header_of(key@, source@) {
                Ok(header) => {
                    &&& r matches Ok((decryptor, name, used))
                    &&& name@ == header.name
                    &&& used == header.used
                    &&& used <= source@.len()
                    &&& decryptor.wf()
                    &&& decryptor.key_bytes() == key@
                    &&& decryptor.salt_bytes() == header.salt
                    &&& decryptor.block_number() == 1
                    &&& decryptor.seen() == Seq::<u8>::empty()
                    &&& decryptor.next_part() == BodyPart::Kind
                },
                Err(e) => r == Err::<(StreamDecryptor, String, usize), CryptoError>(e),
            },
    {
        let mut reader = HeaderReader::new(key);
        let mut pos: usize = 0;
        loop
            invariant
                reader.wf(),
                reader.key_bytes() == key@,
                pos <= source@.len(),
                match reader.next_part() {
                    HeaderPart::Salt => pos == 0,
                    HeaderPart::Kind => pos == SALT_LEN && reader.salt_bytes()
                        == source@.subrange(0, SALT_LEN as int),
                    HeaderPart::Length => pos == SALT_LEN + 1 && reader.salt_bytes()
                        == source@.subrange(0, SALT_LEN as int) && source@[SALT_LEN as int]
                        == CHUNK_TYPE_DATA,
                    HeaderPart::Name(n) => pos == SALT_LEN + 5 && reader.salt_bytes()
                        == source@.subrange(0, SALT_LEN as int) && source@[SALT_LEN as int]
                        == CHUNK_TYPE_DATA && n == le32_value(
                        source@.subrange(SALT_LEN + 1, SALT_LEN + 5),
                    ),
                },
            decreases
                    match reader.next_part() {
                        HeaderPart::Salt => 3int,
                        HeaderPart::Kind => 2int,
                        HeaderPart::Length => 1int,
                        HeaderPart::Name(_) => 0int,
                    },
        {
            let n: usize = reader.wanted();
            if source.len() - pos < n {
                return Err(reader.ended());
            }
            let piece = slice_subrange(source, pos, pos + n);
            match reader.feed(piece) {
                Ok(HeaderStep::More(next)) => {
                    reader = next;
                },
                Ok(HeaderStep::Opened(decryptor, name)) => {
                    return Ok((decryptor, name, pos + n));
                },
                Err(e) => return Err(e),
            }
            pos = pos + n;
        }
    }

    /// What becomes of the rest of a container that goes on with `src`.
    pub open spec fn rest_of(self, src: Seq<u8>) -> BodyReading {
        if self.next_part() == BodyPart::Exhausted {
            body_fails(CryptoError::CounterOverflow)
        } else {
            body_of(self.key_bytes(), self.salt_bytes(), self.block_number(), self.seen(), src)
        }
    }

    /// Reads the block of `source` that begins at `pos`: gives a chunk's content,
    /// the reader of what follows and the place where it begins, or nothing
    /// behind a footer that matches.
    #[verifier::loop_isolation(false)]
    fn read_block(self, source: &[u8], pos: usize) -> (r: Result<
        Option<(Vec<u8>, StreamDecryptor, usize)>,
        CryptoError,
    >)
        requires
            self.wf(),
            self.next_part() == BodyPart::Kind || self.next_part() == BodyPart::Exhausted,
            pos <= source@.len(),
            self.seen().len() + source@.len() - pos < HASH_LIMIT,
        ensures
            ({
                let body = self.rest_of(source@.skip(pos as int));
                match r {
                    Err(e) => body.outcome == Err::<(), CryptoError>(e) && body.written.len() == 0
                        && body.pieces.len() == 0,
                    Ok(None) => {
                        let block = footer_block_of(
                            sealed_at(
                                self.key_bytes(),
                                self.salt_bytes(),
                                self.block_number(),
                                sha256(self.seen()),
                            ),
                        );
                        &&& body.outcome == Ok::<(), CryptoError>(())
                        &&& body.written.len() == 0
                        &&& body.pieces.len() == 0
                        &&& pos + block.len() <= source@.len()
                        &&& source@.subrange(pos as int, pos + block.len()) == block
                    },
                    Ok(Some((plain, next, end))) => {
                        &&& pos < end <= source@.len()
                        &&& source@.subrange(pos as int, end as int) == data_block_of(
                            sealed_at(
                                self.key_bytes(),
                                self.salt_bytes(),
                                self.block_number(),
                                plain@,
                            ),
                        )
                        &&& next.key_bytes() == self.key_bytes()
                        &&& next.salt_bytes() == self.salt_bytes()
                        &&& next.seen() == self.seen() + plain@
                        &&& next.next_part() == BodyPart::Kind ==> next.block_number()
                            == self.block_number() + 1
                        &&& next.wf()
                        &&& next.next_part() == BodyPart::Kind || next.next_part()
                            == BodyPart::Exhausted
                        &&& next.seen().len() + source@.len() - end < HASH_LIMIT
                        &&& body == body_continues(
                            plain@,
                            (end - pos) as nat,
                            next.rest_of(source@.skip(end as int)),
                        )
                    },
                }
            }),
    {
        let ghost src = source@.skip(pos as int);
        let ghost first = self;
        let mut state = self;
        let mut at: usize = pos;
        loop
            invariant
                first.wf(),
                src == source@.skip(pos as int),
                pos <= at <= source@.len(),
                state.wf(),
                state.key_bytes() == first.key_bytes(),
                state.salt_bytes() == first.salt_bytes(),
                state.block_number() == first.block_number(),
                state.seen() == first.seen(),
                first.seen().len() + source@.len() - pos < HASH_LIMIT,
                first.next_part() == BodyPart::Kind || first.next_part() == BodyPart::Exhausted,
                match state.next_part() {
                    BodyPart::Kind => at == pos && first.next_part() == BodyPart::Kind,
                    BodyPart::Exhausted => at == pos && first.next_part() == BodyPart::Exhausted,
                    BodyPart::Footer => at == pos + 1 && first.next_part() == BodyPart::Kind
                        && src[0] == CHUNK_TYPE_EOF,
                    BodyPart::Length => at == pos + 1 && first.next_part() == BodyPart::Kind
                        && src[0] == CHUNK_TYPE_DATA,
                    BodyPart::Chunk(n) => at == pos + 5 && first.next_part() == BodyPart::Kind
                        && src[0] == CHUNK_TYPE_DATA && n == le32_value(src.subrange(1, 5)) && n
                        <= MAX_CHUNK_LEN,
                },
            decreases
                    match state.next_part() {
                        BodyPart::Kind => 2int,
                        BodyPart::Length => 1int,
                        _ => 0int,
                    },
        {
            let mut n: usize = state.wanted();
            if source.len() - at < n {
                if !state.may_end() {
                    assert(first.rest_of(src) == body_fails(CryptoError::UnexpectedEnd)) by {
                        reveal(body_of);
                    }
                    return Err(CryptoError::UnexpectedEnd);
                }
                n = 0;
            }
            let piece = slice_subrange(source, at, at + n);
            proof {
                assert(piece@ =~= src.subrange(at - pos, at - pos + n));
            }
            match state.feed(piece) {
                Ok(BodyStep::More(next)) => {
                    state = next;
                },
                Ok(BodyStep::Plain(plain, next)) => {
                    proof {
                        assert(src.skip(at - pos + n) =~= source@.skip(at + n));
                        let rest = next.rest_of(source@.skip(at + n));
                        assert(first.rest_of(src) == body_continues(
                            plain@,
                            (at + n - pos) as nat,
                            rest,
                        )) by {
                            reveal(body_of);
                        }
                        let sealed = src.subrange(5, 5 + n);
                        law_le32_of_value(src.subrange(1, 5));
                        assert(source@.subrange(pos as int, at + n) =~= data_block_of(sealed));
                    }
                    return Ok(Some((plain, next, at + n)));
                },
                Ok(BodyStep::Verified) => {
                    proof {
                        reveal(body_of);
                        let sealed = src.subrange(1, 1 + n);
                        assert(source@.subrange(pos as int, pos + 1 + n) =~= footer_block_of(
                            sealed,
                        ));
                    }
                    return Ok(None);
                },
                Err(e) => {
                    proof {
                        reveal(body_of);
                    }
                    return Err(e);
                },
            }
            at = at + n;
        }
    }

    /// Reads the blocks `source`, writes the content behind `dest`, and the
    /// number of content bytes of each chunk behind `progress`. Content is
    /// written before it is known to be whole and unchanged: on an error the
    /// caller has to discard it.
    #[verifier::loop_isolation(false)]
    pub fn decrypt_body(
        self,
        source: &[u8],
        dest: &mut Vec<u8>,
        progress: &mut Vec<u64>,
    ) -> (r: Result<(), CryptoError>)
        requires
            self.wf(),
            self.next_part() == BodyPart::Kind,
            self.seen().len() + source@.len() < HASH_LIMIT,
        ensures
            ({
                let body = body_of(
                    self.key_bytes(),
                    self.salt_bytes(),
                    self.block_number(),
                    self.seen(),
                    source@,
                );
                &&& r == body.outcome
                &&& final(dest)@ == old(dest)@ + body.written
                &&& final(progress)@ == old(progress)@ + body.pieces
            }),
            r is Ok ==> exists|chunks: Seq<Seq<u8>>|
                final(dest)@ == old(dest)@ + chunks.flatten() && #[trigger] is_sealed_from(
                    self.key_bytes(),
                    self.salt_bytes(),
                    self.block_number(),
                    self.seen(),
                    source@,
                    chunks,
                ),
    {
        let ghost key = self.key_bytes();
        let ghost salt = self.salt_bytes();
        let ghost first = self.block_number();
        let ghost before = self.seen();
        let ghost mut chunks = Seq::<Seq<u8>>::empty();
        let ghost whole = self.rest_of(source@);
        let ghost mut written = Seq::<u8>::empty();
        let ghost mut pieces = Seq::<u64>::empty();
        let mut state = self;
        let mut pos: usize = 0;
        assert(source@.skip(0) =~= source@);
        assert(source@.subrange(0, 0) =~= Seq::<u8>::empty());
        assert(before + Seq::<u8>::empty() =~= before);
        loop
            invariant
                state.wf(),
                state.next_part() == BodyPart::Kind || state.next_part() == BodyPart::Exhausted,
                pos <= source@.len(),
                state.seen().len() + source@.len() - pos < HASH_LIMIT,
                dest@ == old(dest)@ + written,
                progress@ == old(progress)@ + pieces,
                state.key_bytes() == key,
                state.salt_bytes() == salt,
                written == chunks.flatten(),
                state.seen() == before + written,
                state.next_part() == BodyPart::Kind ==> state.block_number() == first
                    + chunks.len(),
                source@.subrange(0, pos as int) == sealed_blocks(key, salt, first, chunks),
                ({
                    let rest = state.rest_of(source@.skip(pos as int));
                    &&& whole.written == written + rest.written
                    &&& whole.pieces == pieces + rest.pieces
                    &&& whole.outcome == rest.outcome
                }),
            decreases source@.len() - pos,
        {
            match state.read_block(source, pos) {
                Ok(Some((plain, next, end))) => {
                    let mut plain = plain;
                    append(dest, plain.as_slice());
                    progress.push(plain.len() as u64);
                    proof {
                        let rest = next.rest_of(source@.skip(end as int));
                        let one = plain@.len() as u64;
                        assert(written + (plain@ + rest.written) =~= (written + plain@)
                            + rest.written);
                        assert(pieces + (seq![one] + rest.pieces) =~= pieces.push(one)
                            + rest.pieces);
                        chunks.lemma_flatten_push(plain@);
                        let with = chunks.push(plain@);
                        assert(with.drop_last() =~= chunks);
                        assert(source@.subrange(0, end as int) =~= source@.subrange(0, pos as int)
                            + source@.subrange(pos as int, end as int));
                        assert(before + written + plain@ =~= before + (written + plain@));
                        written = written + plain@;
                        pieces = pieces.push(one);
                        chunks = with;
                    }
                    wipe_buffer(&mut plain);
                    state = next;
                    pos = end;
                },
                Ok(None) => {
                    proof {
                        assert(written + Seq::<u8>::empty() =~= written);
                        let block = footer_block_of(
                            sealed_at(key, salt, (first + chunks.len()) as u64, sha256(
                                before + chunks.flatten(),
                            )),
                        );
                        let end = pos + block.len();
                        assert(source@.subrange(0, end) =~= source@.subrange(0, pos as int)
                            + source@.subrange(pos as int, end));
                        assert(is_sealed_from(key, salt, first, before, source@, chunks));
                    }
                    return Ok(());
                },
                Err(e) => return Err(e),
            }
        }
    }
}

/// The beginning of a container is read in pieces of 16 bytes, one, and four, and
/// then of the length that was read.
pub proof fn law_header_pieces(reader: HeaderReader)
    ensures
        match reader.next_part() {
            HeaderPart::Salt => reader.wanted_bytes() == 16,
            HeaderPart::Kind => reader.wanted_bytes() == 1,
            HeaderPart::Length => reader.wanted_bytes() == 4,
            HeaderPart::Name(n) => reader.wanted_bytes() == n,
        },
{
}

/// The blocks behind the file name are read in pieces of one byte and four, and then
/// of the length that was read. The last block is read in a piece of 48 bytes.
pub proof fn law_body_pieces(reader: StreamDecryptor)
    ensures
        match reader.next_part() {
            BodyPart::Kind => reader.wanted_bytes() == 1,
            BodyPart::Length => reader.wanted_bytes() == 4,
            BodyPart::Chunk(n) => reader.wanted_bytes() == n,
            BodyPart::Footer => reader.wanted_bytes() == 48,
            BodyPart::Exhausted => reader.wanted_bytes() == 0,
        },
{
}

} // verus!
