//! Encryption of a stream, piece by piece or at once.

use vstd::prelude::*;
use vstd::utf8::encode_utf8;
use crate::bytes::append;
use crate::crypto::container::{
    block_opens, chunk_blocks, chunk_count, chunk_lengths, chunk_of, chunk_size, chunk_start,
    chunks_open, container, container_opens, data_block, data_block_of, decrypts_to,
    filename_block, footer, footer_block, footer_opens, law_container_decrypts,
    lemma_chunk_blocks_extend, lemma_chunk_blocks_join, metadata_block, sealed_at, CHUNK_SIZE,
    MAX_METADATA_LEN,
};
use crate::crypto::error::CryptoError;
use crate::crypto::key::{create_nonce, SecureKey, SALT_LEN};
use crate::crypto::primitives::{
    cipher_accepts, cipher_returns, fill_random, hashed_bytes, seal, sha256_begin,
    sha256_finish, sha256_update, wipe_buffer, Sha256Hasher, HASH_LIMIT, TAG_LEN,
};

verus! {

/// Encryption of one stream. It takes the content in pieces of any size, and
/// hands out the blocks of the container as they become complete.
pub struct StreamEncryptor {
    key: SecureKey,
    salt: [u8; 16],
    counter: u64,
    hasher: Sha256Hasher,
    pending: Vec<u8>,
}

impl StreamEncryptor {
    /// The key that the blocks are sealed under.
    pub closed spec fn key_bytes(self) -> Seq<u8> {
        self.key@
    }

    /// The salt of the container.
    pub closed spec fn salt_bytes(self) -> Seq<u8> {
        self.salt@
    }

    /// The content taken so far.
    pub closed spec fn received(self) -> Seq<u8> {
        hashed_bytes(self.hasher) + self.pending@
    }

    /// Whether the chunks handed out are those that the content taken so far
    /// fills.
    pub closed spec fn wf(self) -> bool {
        &&& self.counter >= 1
        &&& hashed_bytes(self.hasher).len() == (self.counter - 1) * chunk_size()
        &&& self.pending@.len() < CHUNK_SIZE
        &&& self.received().len() < HASH_LIMIT
    }

    /// The number of chunks handed out.
    pub open spec fn chunks_out(self) -> nat {
        (self.received().len() as int / chunk_size()) as nat
    }

    /// Begins a container with this salt, and gives the block of the file name.
    pub fn begin(key: &SecureKey, salt: &[u8; 16], filename: &str) -> (r: Result<
        (StreamEncryptor, Vec<u8>),
        CryptoError,
    >)
        requires
            cipher_returns(encode_utf8(filename@).len()),
        ensures
            ({
                let name = encode_utf8(filename@);
                match r {
                    Ok((encryptor, block)) => {
                        &&& name.len() + TAG_LEN <= MAX_METADATA_LEN
                        &&& encryptor.wf()
                        &&& encryptor.key_bytes() == key@
                        &&& encryptor.salt_bytes() == salt@
                        &&& encryptor.received() == Seq::<u8>::empty()
                        &&& block@ == metadata_block(key@, salt@, name)
                        &&& block_opens(key@, salt@, 0, name)
                    },
                    Err(e) => {
                        &&& name.len() + TAG_LEN > MAX_METADATA_LEN
                        &&& e == if cipher_accepts(name.len()) {
                            CryptoError::FilenameTooLong
                        } else {
                            CryptoError::EncryptMetadata
                        }
                    },
                }
            }),
    {
        let nonce = create_nonce(salt, 0);
        let sealed = match seal(key.as_bytes(), &nonce, filename.as_bytes()) {
            Ok(sealed) => sealed,
            Err(_) => return Err(CryptoError::EncryptMetadata),
        };
        let block = match filename_block(sealed.as_slice()) {
            Ok(block) => block,
            Err(e) => return Err(e),
        };
        let encryptor = StreamEncryptor {
            key: key.duplicate(),
            salt: *salt,
            counter: 1,
            hasher: sha256_begin(),
            pending: Vec::new(),
        };
        assert(encryptor.received() =~= Seq::<u8>::empty());
        Ok((encryptor, block))
    }

    /// Begins a container with a random salt: gives the salt, and then what
    /// [`StreamEncryptor::begin`] gives for it.
    pub fn begin_with_random_salt(key: &SecureKey, filename: &str) -> (r: (
        [u8; 16],
        Result<(StreamEncryptor, Vec<u8>), CryptoError>,
    ))
        requires
            cipher_returns(encode_utf8(filename@).len()),
        ensures
            ({
                let name = encode_utf8(filename@);
                match r.1 {
                    Ok((encryptor, block)) => {
                        &&& name.len() + TAG_LEN <= MAX_METADATA_LEN
                        &&& encryptor.wf()
                        &&& encryptor.key_bytes() == key@
                        &&& encryptor.salt_bytes() == r.0@
                        &&& encryptor.received() == Seq::<u8>::empty()
                        &&& block@ == metadata_block(key@, r.0@, name)
                        &&& block_opens(key@, r.0@, 0, name)
                    },
                    Err(e) => {
                        &&& name.len() + TAG_LEN > MAX_METADATA_LEN
                        &&& e == if cipher_accepts(name.len()) {
                            CryptoError::FilenameTooLong
                        } else {
                            CryptoError::EncryptMetadata
                        }
                    },
                }
            }),
    {
        let mut salt: [u8; 16] = [0u8; 16];
        fill_random(&mut salt);
        let begun = StreamEncryptor::begin(key, &salt, filename);
        (salt, begun)
    }

    /// The number of bytes that complete the current chunk.
    pub fn wanted(&self) -> (n: usize)
        requires
            self.wf(),
        ensures
            1 <= n <= CHUNK_SIZE,
            n == CHUNK_SIZE - self.received().len() as int % chunk_size(),
    {
        proof {
            let full = self.counter - 1;
            assert(self.received().len() == full * chunk_size() + self.pending@.len());
        }
        CHUNK_SIZE - self.pending.len()
    }

    /// Seals the pending bytes as a chunk.
    fn seal_pending(&mut self) -> (r: Result<Vec<u8>, CryptoError>)
        requires
            1 <= old(self).pending@.len() <= CHUNK_SIZE,
            old(self).counter >= 1,
            hashed_bytes(old(self).hasher).len() == (old(self).counter - 1) * chunk_size(),
            old(self).received().len() < HASH_LIMIT,
        ensures
            r is Ok,
            final(self).key@ == old(self).key@,
            final(self).salt == old(self).salt,
            final(self).counter == old(self).counter + 1,
            final(self).pending@ == Seq::<u8>::empty(),
            hashed_bytes(final(self).hasher) == hashed_bytes(old(self).hasher)
                + old(self).pending@,
            r matches Ok(block) ==> block@ == data_block_of(
                sealed_at(old(self).key@, old(self).salt@, old(self).counter, old(self).pending@),
            ),
            block_opens(old(self).key@, old(self).salt@, old(self).counter, old(self).pending@),
    {
        sha256_update(&mut self.hasher, self.pending.as_slice());
        let nonce = create_nonce(&self.salt, self.counter);
        let sealed = match seal(self.key.as_bytes(), &nonce, self.pending.as_slice()) {
            Ok(sealed) => sealed,
            Err(_) => return Err(CryptoError::EncryptChunk(self.counter)),
        };
        let block = data_block(sealed.as_slice());
        wipe_buffer(&mut self.pending);
        self.counter = match self.counter.checked_add(1) {
            Some(counter) => counter,
            None => return Err(CryptoError::StreamTooLong),
        };
        Ok(block)
    }

    /// Takes `input`, and gives the blocks of the chunks that it completes.
    pub fn push(&mut self, input: &[u8]) -> (r: Result<Vec<u8>, CryptoError>)
        requires
            old(self).wf(),
            old(self).received().len() + input@.len() < HASH_LIMIT,
        ensures
            r is Ok,
            final(self).wf(),
            final(self).key_bytes() == old(self).key_bytes(),
            final(self).salt_bytes() == old(self).salt_bytes(),
            final(self).received() == old(self).received() + input@,
            r matches Ok(blocks) ==> blocks@ == chunk_blocks(
                old(self).key_bytes(),
                old(self).salt_bytes(),
                final(self).received(),
                old(self).chunks_out(),
                final(self).chunks_out(),
            ),
            chunks_open(
                old(self).key_bytes(),
                old(self).salt_bytes(),
                final(self).received(),
                old(self).chunks_out(),
                final(self).chunks_out(),
            ),
    {
        let ghost all = old(self).received() + input@;
        let ghost key = old(self).key_bytes();
        let ghost salt = old(self).salt_bytes();
        let ghost first = old(self).chunks_out();
        let mut blocks: Vec<u8> = Vec::new();
        let mut pos: usize = 0;
        assert(input@.subrange(0, 0) =~= Seq::<u8>::empty());
        assert(old(self).received() + Seq::<u8>::empty() =~= old(self).received());
        while pos < input.len()
            invariant
                pos <= input@.len(),
                self.wf(),
                self.key_bytes() == key,
                self.salt_bytes() == salt,
                all == old(self).received() + input@,
                all.len() < HASH_LIMIT,
                self.received() == old(self).received() + input@.subrange(0, pos as int),
                first == old(self).chunks_out() <= self.chunks_out(),
                blocks@ == chunk_blocks(key, salt, all, first, self.chunks_out()),
                chunks_open(key, salt, all, first, self.chunks_out()),
            decreases input@.len() - pos,
        {
            let ghost before = *self;
            let room: usize = CHUNK_SIZE - self.pending.len();
            let left: usize = input.len() - pos;
            let take: usize = if left < room {
                left
            } else {
                room
            };
            let piece = vstd::slice::slice_subrange(input, pos, pos + take);
            append(&mut self.pending, piece);
            proof {
                assert(self.received() =~= before.received() + piece@);
                assert(input@.subrange(0, pos as int) + piece@ =~= input@.subrange(0, pos + take));
                assert(self.received() =~= old(self).received() + input@.subrange(0, pos + take));
            }
            pos = pos + take;
            let ghost filled = *self;
            proof {
                let full = self.counter - 1;
                assert(before.received().len() == full * chunk_size() + before.pending@.len());
                assert(self.received().len() == full * chunk_size() + self.pending@.len());
                assert(before.chunks_out() == full);
            }
            if self.pending.len() == CHUNK_SIZE {
                proof {
                    let full = self.counter - 1;
                    assert(chunk_of(all, full) =~= self.pending@) by {
                        assert(all =~= self.received() + input@.skip(pos as int));
                    }
                }
                match self.seal_pending() {
                    Ok(block) => append(&mut blocks, block.as_slice()),
                    Err(e) => return Err(e),
                }
                proof {
                    assert(self.received() =~= filled.received());
                    assert(self.chunks_out() == before.chunks_out() + 1);
                }
            }
        }
        assert(input@.subrange(0, pos as int) =~= input@);
        Ok(blocks)
    }

    /// Ends the container: gives the block of the last chunk, if it is not
    /// complete, and the integrity footer.
    pub fn finish(self) -> (r: Result<Vec<u8>, CryptoError>)
        requires
            self.wf(),
        ensures
            r is Ok,
            r matches Ok(blocks) ==> blocks@ == chunk_blocks(
                self.key_bytes(),
                self.salt_bytes(),
                self.received(),
                self.chunks_out(),
                chunk_count(self.received().len()),
            ) + footer(self.key_bytes(), self.salt_bytes(), self.received()),
            chunks_open(
                self.key_bytes(),
                self.salt_bytes(),
                self.received(),
                self.chunks_out(),
                chunk_count(self.received().len()),
            ),
            footer_opens(self.key_bytes(), self.salt_bytes(), self.received()),
    {
        let ghost data = self.received();
        let ghost first = self.chunks_out();
        let ghost key = self.key_bytes();
        let ghost salt = self.salt_bytes();
        let ghost count = chunk_count(data.len());
        let mut state = self;
        let mut blocks: Vec<u8> = Vec::new();
        proof {
            let full = state.counter - 1;
            assert(data.len() == full * chunk_size() + state.pending@.len());
            assert(first == full);
        }
        if state.pending.len() > 0 {
            proof {
                assert(count == first + 1);
                assert(chunk_of(data, first as int) =~= state.pending@);
            }
            match state.seal_pending() {
                Ok(block) => append(&mut blocks, block.as_slice()),
                Err(e) => return Err(e),
            }
            proof {
                assert(chunk_blocks(key, salt, data, first, first) =~= Seq::<u8>::empty());
                assert(blocks@ =~= chunk_blocks(key, salt, data, first, count));
            }
        } else {
            proof {
                assert(count == first);
                assert(data =~= hashed_bytes(state.hasher));
            }
        }
        assert(hashed_bytes(state.hasher) =~= data);
        let nonce = create_nonce(&state.salt, state.counter);
        let digest = sha256_finish(state.hasher);
        let sealed = match seal(state.key.as_bytes(), &nonce, digest.as_slice()) {
            Ok(sealed) => sealed,
            Err(_) => return Err(CryptoError::EncryptFooter),
        };
        append(&mut blocks, footer_block(sealed.as_slice()).as_slice());
        Ok(blocks)
    }
}

/// How the content is cut into pieces does not show: the blocks handed out for
/// `data`, followed by those handed out when `more` is pushed behind it, are
/// those handed out for both at once.
pub proof fn law_pieces_do_not_show(key: Seq<u8>, salt: Seq<u8>, data: Seq<u8>, more: Seq<u8>)
    ensures
        ({
            let out = (data.len() as int / chunk_size()) as nat;
            let all_out = ((data.len() + more.len()) as int / chunk_size()) as nat;
            chunk_blocks(key, salt, data, 0, out) + chunk_blocks(
                key,
                salt,
                data + more,
                out,
                all_out,
            ) == chunk_blocks(key, salt, data + more, 0, all_out)
        }),
{
    let out = (data.len() as int / chunk_size()) as nat;
    let all_out = ((data.len() + more.len()) as int / chunk_size()) as nat;
    lemma_chunk_blocks_extend(key, salt, data, more, 0, out);
    lemma_chunk_blocks_join(key, salt, data + more, 0, out, all_out);
}

/// Puts the lengths of the chunks of a content of `len` bytes behind
/// `progress`.
fn report_chunks(len: usize, progress: &mut Vec<u64>)
    ensures
        final(progress)@ == old(progress)@ + chunk_lengths(len as nat),
{
    let mut left: usize = len;
    let ghost mut done: nat = 0;
    while left > 0
        invariant
            left <= len,
            done <= chunk_count(len as nat),
            len - left == chunk_start(len as nat, done as int),
            progress@ == old(progress)@ + chunk_lengths(len as nat).subrange(0, done as int),
        decreases left,
    {
        let piece: usize = if left < CHUNK_SIZE {
            left
        } else {
            CHUNK_SIZE
        };
        progress.push(piece as u64);
        left = left - piece;
        proof {
            assert(chunk_lengths(len as nat).subrange(0, done as int + 1) =~= chunk_lengths(
                len as nat,
            ).subrange(0, done as int).push(piece as u64));
            done = done + 1;
        }
    }
    assert(chunk_lengths(len as nat).subrange(0, done as int) =~= chunk_lengths(len as nat));
}

/// Writes the container of `source`, with this salt and this file name, behind
/// `dest`, and the number of content bytes of each chunk behind `progress`. A
/// file name that is too long leaves only the salt.
pub fn encrypt_stream_with_salt(
    source: &[u8],
    dest: &mut Vec<u8>,
    key: &SecureKey,
    filename: &str,
    salt: &[u8; 16],
    progress: &mut Vec<u64>,
) -> (r: Result<(), CryptoError>)
    requires
        cipher_returns(encode_utf8(filename@).len()),
        source@.len() < HASH_LIMIT,
    ensures
        ({
            let name = encode_utf8(filename@);
            match r {
                Ok(()) => {
                    let made = container(key@, salt@, name, source@);
                    &&& name.len() + TAG_LEN <= MAX_METADATA_LEN
                    &&& final(dest)@ == old(dest)@ + made
                    &&& final(progress)@ == old(progress)@ + chunk_lengths(source@.len())
                    &&& container_opens(key@, salt@, name, source@)
                    &&& decrypts_to(key@, made, filename@, source@)
                },
                Err(e) => {
                    &&& name.len() + TAG_LEN > MAX_METADATA_LEN
                    &&& final(dest)@ == old(dest)@ + salt@
                    &&& final(progress)@ == old(progress)@
                    &&& e == if cipher_accepts(name.len()) {
                        CryptoError::FilenameTooLong
                    } else {
                        CryptoError::EncryptMetadata
                    }
                },
            }
        }),
{
    append(dest, salt);
    let (mut encryptor, block) = match StreamEncryptor::begin(key, salt, filename) {
        Ok(begun) => begun,
        Err(e) => return Err(e),
    };
    append(dest, block.as_slice());
    let blocks = match encryptor.push(source) {
        Ok(blocks) => blocks,
        Err(e) => return Err(e),
    };
    append(dest, blocks.as_slice());
    let ghost out = encryptor.chunks_out();
    assert(encryptor.received() =~= source@);
    let last = match encryptor.finish() {
        Ok(last) => last,
        Err(e) => return Err(e),
    };
    append(dest, last.as_slice());
    report_chunks(source.len(), progress);
    proof {
        let name = encode_utf8(filename@);
        let count = chunk_count(source@.len());
        lemma_chunk_blocks_join(key@, salt@, source@, 0, out, count);
        assert(chunks_open(key@, salt@, source@, 0, count));
        assert(container_opens(key@, salt@, name, source@)) by {
            reveal(container_opens);
        }
        law_container_decrypts(key@, salt@, filename@, source@);
        assert(dest@ =~= old(dest)@ + container(key@, salt@, name, source@));
    }
    Ok(())
}

/// Writes the container of `source`, with a random salt and this file name,
/// behind `dest`, and the number of content bytes of each chunk behind
/// `progress`. A file name that is too long leaves only the salt.
pub fn encrypt_stream(
    source: &[u8],
    dest: &mut Vec<u8>,
    key: &SecureKey,
    filename: &str,
    progress: &mut Vec<u64>,
) -> (r: Result<(), CryptoError>)
    requires
        cipher_returns(encode_utf8(filename@).len()),
        source@.len() < HASH_LIMIT,
    ensures
        ({
            let name = encode_utf8(filename@);
            let start = old(dest)@.len() as int;
            let salt = final(dest)@.subrange(start, start + SALT_LEN);
            let made = final(dest)@.skip(start);
            &&& final(dest)@.len() >= start + SALT_LEN
            &&& final(dest)@.subrange(0, start) == old(dest)@
            &&& match r {
                Ok(()) => {
                    &&& name.len() + TAG_LEN <= MAX_METADATA_LEN
                    &&& made == container(key@, salt, name, source@)
                    &&& final(progress)@ == old(progress)@ + chunk_lengths(source@.len())
                    &&& container_opens(key@, salt, name, source@)
                    &&& decrypts_to(key@, made, filename@, source@)
                },
                Err(e) => {
                    &&& name.len() + TAG_LEN > MAX_METADATA_LEN
                    &&& made == salt
                    &&& final(progress)@ == old(progress)@
                    &&& e == if cipher_accepts(name.len()) {
                        CryptoError::FilenameTooLong
                    } else {
                        CryptoError::EncryptMetadata
                    }
                },
            }
        }),
{
    let mut salt: [u8; 16] = [0u8; 16];
    fill_random(&mut salt);
    let r = encrypt_stream_with_salt(source, dest, key, filename, &salt, progress);
    proof {
        let start = old(dest)@.len() as int;
        assert(dest@.subrange(0, start) =~= old(dest)@);
        assert(dest@.subrange(start, start + SALT_LEN) =~= salt@);
        if r is Ok {
            let made = container(key@, salt@, encode_utf8(filename@), source@);
            assert(dest@.skip(start) =~= made);
        } else {
            assert(dest@.skip(start) =~= salt@);
        }
    }
    r
}

} // verus!
