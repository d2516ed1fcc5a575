//! The encrypting side of the frame layer.
use rayon::iter::{IndexedParallelIterator, ParallelIterator};
use rayon::slice::ParallelSlice;
use vstd::bytes::u32_to_le_bytes;
use vstd::prelude::*;
use vstd::string::StringSliceAdditionalSpecFns;

use crate::aead::seal;
use crate::error::CryptoError;
use crate::frame::{
    chunk_count, counter_nonce, decode_frames, encode_frame, encode_frames, frame_chunks,
    frame_opens, lemma_append_frame,
    lemma_frame_chunks, lemma_frame_chunks_split, FRAME_PLAINTEXT_LEN, KEY_LEN, SALT_LEN,
};
use crate::kdf::{derive_key, secret_bytes, spec_derive_key, SecretKey};

verus! {

/// How many frames one `write` of `len` bytes emits when the next frame is at
/// position `counter`. Two or more whole frames are sealed together, all or
/// none, and the rest follows; fewer are sealed one after the other until the
/// counter runs out.
pub open spec fn frames_accepted(counter: u64, len: nat) -> nat {
    let n = chunk_count(len);
    let whole = len / (FRAME_PLAINTEXT_LEN as nat);
    let room = (u64::MAX - counter) as nat;
    if whole >= 2 {
        if whole > room {
            0
        } else if n > room {
            whole
        } else {
            n
        }
    } else if n > room {
        room
    } else {
        n
    }
}

/// A buffer of `len` bytes is cut into the ceiling of `len / 64 KiB` frames.
pub proof fn lemma_chunk_count_is_ceiling(len: nat)
    ensures
        chunk_count(len) * FRAME_PLAINTEXT_LEN >= len,
        len > 0 ==> (chunk_count(len) - 1) * FRAME_PLAINTEXT_LEN < len,
        len == 0 ==> chunk_count(len) == 0,
{
    let n = chunk_count(len);
    assert(n == (len + 65535) / 65536);
    assert(n * 65536 >= len && (len > 0 ==> (n - 1) * 65536 < len)) by (nonlinear_arith)
        requires
            n == (len + 65535) / 65536,
    ;
}

/// When the counter has room for every frame of a buffer, one `write` seals
/// them all, however many there are.
pub proof fn lemma_all_frames_accepted_when_room(counter: u64, len: nat)
    requires
        counter + chunk_count(len) <= u64::MAX,
    ensures
        frames_accepted(counter, len) == chunk_count(len),
{
    let n = chunk_count(len);
    let whole = len / (FRAME_PLAINTEXT_LEN as nat);
    assert(whole <= n) by (nonlinear_arith)
        requires
            whole == len / 65536,
            n == (len + 65535) / 65536,
    ;
}

/// How many frames sealing `n` pieces one after the other emits before the
/// counter, at `counter`, runs out.
pub open spec fn frames_before_exhaustion(counter: u64, n: nat) -> nat {
    let room = (u64::MAX - counter) as nat;
    if n > room {
        room
    } else {
        n
    }
}

/// The pieces of `data` that one `write` turns into frames.
pub open spec fn accepted_chunks(counter: u64, data: Seq<u8>) -> Seq<Seq<u8>> {
    frame_chunks(data).take(frames_accepted(counter, data.len()) as int)
}

/// Seals one frame at position `counter`: its length, then the ciphertext.
fn seal_frame(key: &SecretKey, counter: u64, plaintext: &[u8]) -> (out: Vec<u8>)
    requires
        secret_bytes(*key).len() == KEY_LEN,
        plaintext@.len() <= FRAME_PLAINTEXT_LEN,
    ensures
        out@ == encode_frame(secret_bytes(*key), counter, plaintext@),
        frame_opens(secret_bytes(*key), counter, plaintext@),
{
    let nonce = counter_nonce(counter);
    let mut sealed = match seal(key, &nonce, plaintext) {
        Ok(c) => c,
        Err(_) => {
            // unreachable: a frame is far below the cipher's message limit
            proof {
                assert(false);
            }
            Vec::new()
        },
    };
    let mut out = u32_to_le_bytes(plaintext.len() as u32);
    out.append(&mut sealed);
    out
}

/// Seals the piece with index `index` of a batch whose first frame is at
/// position `base_counter`.
fn seal_frame_at(key: &SecretKey, base_counter: u64, index: usize, plaintext: &[u8]) -> (out: Vec<u8>)
    requires
        secret_bytes(*key).len() == KEY_LEN,
        plaintext@.len() <= FRAME_PLAINTEXT_LEN,
        base_counter + index <= u64::MAX,
    ensures
        out@ == encode_frame(secret_bytes(*key), (base_counter + index) as u64, plaintext@),
        frame_opens(secret_bytes(*key), (base_counter + index) as u64, plaintext@),
{
    seal_frame(key, base_counter + index as u64, plaintext)
}

/// Seals the pieces of `frames` on rayon's thread pool: `par_chunks`,
/// `enumerate`, `map` and `collect` (crate rayon).
///
/// Trusted: `par_chunks(frame_len)` cuts `frames` as `frame_chunks` does,
/// `enumerate` numbers the pieces from zero and `collect` into a `Vec` keeps
/// their order, so entry `i` is what `seal_frame_at` returns for piece `i`.
#[verifier::external_body]
fn seal_frames_in_parallel(key: &SecretKey, base_counter: u64, frames: &[u8], frame_len: usize) -> (r: Vec<Vec<u8>>)
    requires
        secret_bytes(*key).len() == KEY_LEN,
        frame_len == FRAME_PLAINTEXT_LEN,
        base_counter + frame_chunks(frames@).len() <= u64::MAX,
    ensures
        r@.len() == frame_chunks(frames@).len(),
        forall|i: int|
            0 <= i < r@.len() ==> (#[trigger] r@[i])@ == encode_frame(
                secret_bytes(*key),
                (base_counter + i) as u64,
                frame_chunks(frames@)[i],
            ) && frame_opens(secret_bytes(*key), (base_counter + i) as u64, frame_chunks(frames@)[i]),
{
    frames.par_chunks(frame_len).enumerate().map(
        |(i, chunk)| seal_frame_at(key, base_counter, i, chunk),
    ).collect()
}

/// The encrypting writer: it turns plaintext into frames, numbering them from
/// zero. The frames it returns go, in order, after the salt.
pub struct CryptoWriter {
    key: SecretKey,
    /// Position of the next frame; it is also that frame's nonce.
    frame_counter: u64,
}

impl CryptoWriter {
    #[verifier::type_invariant]
    spec fn key_is_full(self) -> bool {
        secret_bytes(self.key).len() == KEY_LEN
    }

    /// The ChaCha20-Poly1305 key.
    pub closed spec fn key_bytes(self) -> Seq<u8> {
        secret_bytes(self.key)
    }

    /// Position of the next frame.
    pub closed spec fn counter(self) -> u64 {
        self.frame_counter
    }

    /// Starts with a derived key; the first frame is at position zero.
    pub fn with_key(key: SecretKey) -> (w: Self)
        requires
            secret_bytes(key).len() == KEY_LEN,
        ensures
            w.key_bytes() == secret_bytes(key),
            w.counter() == 0,
    {
        CryptoWriter { key, frame_counter: 0 }
    }

    /// Derives the key from the password and salt; the first frame is at
    /// position zero.
    pub fn new(password: &str, salt: &[u8; SALT_LEN]) -> (r: Result<Self, CryptoError>)
        ensures
            r is Ok <==> password.spec_bytes().len() <= 0xffff_ffff,
            r matches Ok(w) ==> w.key_bytes() == spec_derive_key(password.spec_bytes(), salt@)
                && w.counter() == 0,
            r matches Err(e) ==> e == CryptoError::KeyDerivation,
    {
        let key = derive_key(password, salt)?;
        Ok(Self::with_key(key))
    }

    /// Seals one piece as the next frame. An empty piece gives no frame. The
    /// position is taken before sealing; a piece the cipher refuses, or whose
    /// length does not fit the `u32` header, is an error.
    fn write_frame(&mut self, plaintext: &[u8]) -> (r: Result<Vec<u8>, CryptoError>)
        requires
            plaintext@.len() + 16 <= isize::MAX,
        ensures
            final(self).key_bytes() == old(self).key_bytes(),
            plaintext@.len() == 0 ==> (r matches Ok(out) && out@.len() == 0) && final(self).counter()
                == old(self).counter(),
            plaintext@.len() > 0 && old(self).counter() == u64::MAX ==> r == Err::<Vec<u8>, CryptoError>(
                CryptoError::FrameCounterOverflow,
            ) && final(self).counter() == old(self).counter(),
            plaintext@.len() > 0 && old(self).counter() < u64::MAX ==> final(self).counter() == old(self).counter() + 1,
            plaintext@.len() > 0 && old(self).counter() < u64::MAX && plaintext@.len() / 64
                >= 0xffff_ffff ==> r == Err::<Vec<u8>, CryptoError>(CryptoError::Encryption),
            plaintext@.len() > 0 && old(self).counter() < u64::MAX && plaintext@.len() / 64
                < 0xffff_ffff && plaintext@.len() > u32::MAX ==> r == Err::<Vec<u8>, CryptoError>(
                CryptoError::PlaintextTooLong,
            ),
            plaintext@.len() > 0 && old(self).counter() < u64::MAX && plaintext@.len() <= u32::MAX
                ==> (r matches Ok(out) && out@ == encode_frame(
                old(self).key_bytes(),
                old(self).counter(),
                plaintext@,
            )) && frame_opens(old(self).key_bytes(), old(self).counter(), plaintext@),
    {
        proof {
            use_type_invariant(&*self);
        }
        if plaintext.len() == 0 {
            return Ok(Vec::new());
        }
        let counter = self.frame_counter;
        self.frame_counter = match counter.checked_add(1) {
            Some(next) => next,
            None => return Err(CryptoError::FrameCounterOverflow),
        };
        let nonce = counter_nonce(counter);
        let mut sealed = match seal(&self.key, &nonce, plaintext) {
            Ok(c) => c,
            Err(_) => return Err(CryptoError::Encryption),
        };
        if plaintext.len() > u32::MAX as usize {
            return Err(CryptoError::PlaintextTooLong);
        }
        let mut out = u32_to_le_bytes(plaintext.len() as u32);
        out.append(&mut sealed);
        Ok(out)
    }

    /// Seals `buf` as frames of at most 64 KiB, in order, and returns them with
    /// the outcome: `Ok(buf.len())`, or the counter overflow error after the
    /// frames sealed before it. Two or more whole 64 KiB pieces are sealed in
    /// parallel; the frames are the same as when sealed one by one.
    pub fn write(&mut self, buf: &[u8]) -> (r: (Vec<u8>, Result<usize, CryptoError>))
        ensures
            final(self).key_bytes() == old(self).key_bytes(),
            final(self).counter() == old(self).counter() + frames_accepted(
                old(self).counter(),
                buf@.len(),
            ),
            r.0@ == encode_frames(
                old(self).key_bytes(),
                old(self).counter() as nat,
                accepted_chunks(old(self).counter(), buf@),
            ),
            decode_frames(old(self).key_bytes(), old(self).counter() as nat, r.0@) == Some(
                (
                    accepted_chunks(old(self).counter(), buf@).flatten(),
                    frames_accepted(old(self).counter(), buf@.len()),
                ),
            ),
            frames_accepted(old(self).counter(), buf@.len()) == chunk_count(buf@.len()) ==> r.1
                == Ok::<usize, CryptoError>(buf@.len() as usize),
            frames_accepted(old(self).counter(), buf@.len()) < chunk_count(buf@.len()) ==> r.1
                == Err::<usize, CryptoError>(CryptoError::FrameCounterOverflow),
            r.1 is Ok ==> decode_frames(old(self).key_bytes(), old(self).counter() as nat, r.0@)
                == Some((buf@, chunk_count(buf@.len()))),
            old(self).counter() + chunk_count(buf@.len()) <= u64::MAX ==> r.1 == Ok::<
                usize,
                CryptoError,
            >(buf@.len() as usize) && final(self).counter() == old(self).counter() + chunk_count(
                buf@.len(),
            ) && r.0@ == encode_frames(
                old(self).key_bytes(),
                old(self).counter() as nat,
                frame_chunks(buf@),
            ),
            forall|i: int|
                0 <= i < frames_accepted(old(self).counter(), buf@.len()) ==> frame_opens(
                    old(self).key_bytes(),
                    (old(self).counter() + i) as u64,
                    #[trigger] accepted_chunks(old(self).counter(), buf@)[i],
                ),
    {
        proof {
            lemma_frame_chunks(buf@);
        }
        let ghost key = self.key_bytes();
        let ghost c0 = self.counter();
        let ghost chunks = frame_chunks(buf@);
        proof {
            assert(chunks.take(chunks.len() as int) =~= chunks);
            if c0 + chunk_count(buf@.len()) <= u64::MAX {
                lemma_all_frames_accepted_when_room(c0, buf@.len());
            }
        }
        if buf.len() == 0 {
            proof {
                assert(chunks.take(0) =~= Seq::<Seq<u8>>::empty());
                assert(buf@ =~= Seq::<u8>::empty());
            }
            return (Vec::new(), Ok(0));
        }
        // Two or more complete frames are sealed in parallel; fewer are not
        // worth the thread pool.
        let complete_len = (buf.len() / FRAME_PLAINTEXT_LEN) * FRAME_PLAINTEXT_LEN;
        if complete_len >= 2 * FRAME_PLAINTEXT_LEN {
            let whole = &buf[0..complete_len];
            let tail = &buf[complete_len..buf.len()];
            proof {
                assert(whole@ =~= buf@.take(complete_len as int));
                assert(tail@ =~= buf@.skip(complete_len as int));
                lemma_frame_chunks_split(buf@, complete_len as nat);
                lemma_frame_chunks(whole@);
                lemma_frame_chunks(tail@);
                assert(chunks.take(frame_chunks(whole@).len() as int) =~= frame_chunks(whole@));
            }
            let mut out = match self.write_frames_parallel(whole) {
                Ok(out) => out,
                Err(e) => {
                    proof {
                        assert(chunks.take(0) =~= Seq::<Seq<u8>>::empty());
                    }
                    return (Vec::new(), Err(e));
                },
            };
            proof {
                frame_chunks(whole@).lemma_flatten_and_flatten_alt_are_equivalent();
            }
            if complete_len < buf.len() {
                let ghost before = out@;
                match self.write_frame(tail) {
                    Ok(mut t) => {
                        out.append(&mut t);
                    },
                    Err(e) => {
                        return (out, Err(e));
                    },
                }
                proof {
                    let n = frame_chunks(whole@).len();
                    assert(frame_chunks(tail@) =~= seq![tail@]);
                    assert(chunks =~= frame_chunks(whole@).push(tail@));
                    assert(chunks.take(chunks.len() as int) =~= chunks);
                    lemma_append_frame(key, c0 as nat, frame_chunks(whole@), tail@);
                    chunks.lemma_flatten_and_flatten_alt_are_equivalent();
                    assert(chunks.drop_last() =~= frame_chunks(whole@));
                }
            } else {
                proof {
                    assert(tail@ =~= Seq::<u8>::empty());
                    assert(chunks =~= frame_chunks(whole@));
                }
            }
            (out, Ok(buf.len()))
        } else {
            self.write_frames_sequential(buf)
        }
    }

    /// Seals `buf` piece by piece, 64 KiB at a time, in order; when the counter
    /// runs out, the frames sealed so far come back with the error.
    fn write_frames_sequential(&mut self, buf: &[u8]) -> (r: (Vec<u8>, Result<usize, CryptoError>))
        ensures
            final(self).key_bytes() == old(self).key_bytes(),
            final(self).counter() == old(self).counter() + frames_before_exhaustion(
                old(self).counter(),
                frame_chunks(buf@).len(),
            ),
            r.0@ == encode_frames(
                old(self).key_bytes(),
                old(self).counter() as nat,
                frame_chunks(buf@).take(
                    frames_before_exhaustion(old(self).counter(), frame_chunks(buf@).len()) as int,
                ),
            ),
            decode_frames(old(self).key_bytes(), old(self).counter() as nat, r.0@) == Some(
                (
                    frame_chunks(buf@).take(
                        frames_before_exhaustion(old(self).counter(), frame_chunks(buf@).len())
                            as int,
                    ).flatten(),
                    frames_before_exhaustion(old(self).counter(), frame_chunks(buf@).len()),
                ),
            ),
            frames_before_exhaustion(old(self).counter(), frame_chunks(buf@).len())
                == frame_chunks(buf@).len() ==> r.1 == Ok::<usize, CryptoError>(buf@.len() as usize),
            frames_before_exhaustion(old(self).counter(), frame_chunks(buf@).len())
                < frame_chunks(buf@).len() ==> r.1 == Err::<usize, CryptoError>(
                CryptoError::FrameCounterOverflow,
            ),
            forall|i: int|
                0 <= i < frames_before_exhaustion(old(self).counter(), frame_chunks(buf@).len())
                    ==> frame_opens(
                    old(self).key_bytes(),
                    (old(self).counter() + i) as u64,
                    #[trigger] frame_chunks(buf@)[i],
                ),
    {
        proof {
            lemma_frame_chunks(buf@);
        }
        let ghost key = self.key_bytes();
        let ghost c0 = self.counter();
        let ghost chunks = frame_chunks(buf@);
        let mut out: Vec<u8> = Vec::new();
        let mut offset: usize = 0;
        let ghost mut i: nat = 0;
        proof {
            assert(chunks.take(0).flatten_alt() =~= Seq::<u8>::empty());
            assert(encode_frames(key, c0 as nat, chunks.take(0)) =~= out@);
            assert(buf@.take(0) =~= Seq::<u8>::empty());
            assert(buf@.skip(0) =~= buf@);
            assert(chunks.skip(0) =~= chunks);
        }
        while offset < buf.len()
            invariant
                key == self.key_bytes(),
                key == old(self).key_bytes(),
                c0 == old(self).counter(),
                chunks == frame_chunks(buf@),
                forall|j: int|
                    0 <= j < chunks.len() ==> 0 < (#[trigger] chunks[j]).len()
                        <= FRAME_PLAINTEXT_LEN,
                offset <= buf@.len(),
                i <= chunks.len(),
                chunks.skip(i as int) == frame_chunks(buf@.skip(offset as int)),
                chunks.take(i as int).flatten_alt() == buf@.take(offset as int),
                self.counter() == c0 + i,
                forall|j: int|
                    0 <= j < i ==> frame_opens(key, (c0 + j) as u64, #[trigger] chunks[j]),
                out@ == encode_frames(key, c0 as nat, chunks.take(i as int)),
                decode_frames(key, c0 as nat, out@) == Some(
                    (chunks.take(i as int).flatten_alt(), i),
                ),
            decreases buf@.len() - offset,
        {
            let end = if buf.len() - offset > FRAME_PLAINTEXT_LEN {
                offset + FRAME_PLAINTEXT_LEN
            } else {
                buf.len()
            };
            let frame = &buf[offset..end];
            let ghost rest = buf@.skip(offset as int);
            proof {
                lemma_frame_chunks(rest);
                assert(rest.skip(end - offset) =~= buf@.skip(end as int));
                if rest.len() > FRAME_PLAINTEXT_LEN {
                    assert(frame@ =~= rest.take(FRAME_PLAINTEXT_LEN as int));
                } else {
                    assert(frame@ =~= rest);
                    assert(buf@.skip(end as int) =~= Seq::<u8>::empty());
                }
                assert(chunks.skip(i as int)[0] == chunks[i as int]);
                assert(frame@ == chunks[i as int]);
                assert(chunks.skip(i as int + 1) =~= chunks.skip(i as int).drop_first());
            }
            let ghost before = out@;
            match self.write_frame(frame) {
                Ok(mut bytes) => {
                    out.append(&mut bytes);
                },
                Err(e) => {
                    proof {
                        chunks.take(i as int).lemma_flatten_and_flatten_alt_are_equivalent();
                    }
                    return (out, Err(e));
                },
            }
            proof {
                let c = chunks[i as int];
                assert(chunks.take(i as int + 1) =~= chunks.take(i as int).push(c));
                lemma_append_frame(key, c0 as nat, chunks.take(i as int), c);
                assert(buf@.take(end as int) =~= buf@.take(offset as int) + frame@);
                i = i + 1;
            }
            offset = end;
        }
        proof {
            assert(buf@.skip(offset as int) =~= Seq::<u8>::empty());
            assert(chunks.take(i as int) =~= chunks);
            chunks.lemma_flatten_and_flatten_alt_are_equivalent();
        }
        (out, Ok(buf.len()))
    }

    /// Seals a whole number of 64 KiB pieces together on the thread pool and
    /// returns their frames in order; if the counter cannot cover all of them,
    /// none is sealed.
    fn write_frames_parallel(&mut self, buf: &[u8]) -> (r: Result<Vec<u8>, CryptoError>)
        requires
            buf@.len() % (FRAME_PLAINTEXT_LEN as nat) == 0,
        ensures
            final(self).key_bytes() == old(self).key_bytes(),
            old(self).counter() + frame_chunks(buf@).len() > u64::MAX ==> r == Err::<
                Vec<u8>,
                CryptoError,
            >(CryptoError::FrameCounterOverflow) && final(self).counter() == old(self).counter(),
            old(self).counter() + frame_chunks(buf@).len() <= u64::MAX ==> (r matches Ok(out)
                && out@ == encode_frames(
                old(self).key_bytes(),
                old(self).counter() as nat,
                frame_chunks(buf@),
            ) && decode_frames(old(self).key_bytes(), old(self).counter() as nat, out@) == Some(
                (buf@, frame_chunks(buf@).len()),
            )) && final(self).counter() == old(self).counter() + frame_chunks(buf@).len(),
            old(self).counter() + frame_chunks(buf@).len() <= u64::MAX ==> forall|i: int|
                0 <= i < frame_chunks(buf@).len() ==> frame_opens(
                    old(self).key_bytes(),
                    (old(self).counter() + i) as u64,
                    #[trigger] frame_chunks(buf@)[i],
                ),
    {
        proof {
            use_type_invariant(&*self);
            lemma_frame_chunks(buf@);
        }
        let ghost key = secret_bytes(self.key);
        let ghost chunks = frame_chunks(buf@);
        let n = (buf.len() / FRAME_PLAINTEXT_LEN) as u64;
        let base_counter = self.frame_counter;
        // Check that the counter covers every frame before doing any work.
        if base_counter.checked_add(n).is_none() {
            return Err(CryptoError::FrameCounterOverflow);
        }
        let mut sealed = seal_frames_in_parallel(
            &self.key,
            base_counter,
            buf,
            FRAME_PLAINTEXT_LEN,
        );
        let ghost all = sealed@;
        let mut out: Vec<u8> = Vec::new();
        let mut i: usize = 0;
        proof {
            assert(chunks.take(0).flatten_alt() =~= Seq::<u8>::empty());
            assert(encode_frames(key, base_counter as nat, chunks.take(0)) =~= out@);
        }
        while sealed.len() > 0
            invariant
                key == secret_bytes(self.key),
                chunks == frame_chunks(buf@),
                all.len() == chunks.len(),
                base_counter + chunks.len() <= u64::MAX,
                forall|j: int|
                    0 <= j < all.len() ==> (#[trigger] all[j])@ == encode_frame(
                        key,
                        (base_counter + j) as u64,
                        chunks[j],
                    ) && frame_opens(key, (base_counter + j) as u64, chunks[j]),
                forall|j: int|
                    0 <= j < chunks.len() ==> 0 < (#[trigger] chunks[j]).len()
                        <= FRAME_PLAINTEXT_LEN,
                i <= all.len(),
                all.len() <= usize::MAX,
                sealed@ == all.skip(i as int),
                out@ == encode_frames(key, base_counter as nat, chunks.take(i as int)),
                decode_frames(key, base_counter as nat, out@) == Some(
                    (chunks.take(i as int).flatten_alt(), i as nat),
                ),
            decreases sealed@.len(),
        {
            let ghost before = out@;
            let mut frame = sealed.remove(0);
            assert(frame == all[i as int]);
            out.append(&mut frame);
            proof {
                let c = chunks[i as int];
                let counter = (base_counter + i) as u64;
                assert(chunks.take(i as int + 1) =~= chunks.take(i as int).push(c));
                lemma_append_frame(key, base_counter as nat, chunks.take(i as int), c);
                assert(sealed@ =~= all.skip(i + 1));
            }
            i = i + 1;
        }
        self.frame_counter = base_counter + n;
        proof {
            assert forall|j: int| 0 <= j < chunks.len() implies frame_opens(
                key,
                (base_counter + j) as u64,
                #[trigger] chunks[j],
            ) by {
                assert(all[j]@ == encode_frame(key, (base_counter + j) as u64, chunks[j]));
            }
            assert(chunks.take(i as int) =~= chunks);
            chunks.lemma_flatten_and_flatten_alt_are_equivalent();
        }
        Ok(out)
    }
}

} // verus!
