//! The on-disk frame format.
//!
//! An encrypted stream is a sequence of frames
//! `[plaintext_len: u32 LE] [ciphertext + tag: plaintext_len + 16 bytes]`.
//! The nonce of a frame is its position in the stream (a `u64` counter,
//! little endian, padded with four zero bytes); it is never stored.
use vstd::bytes::{
    lemma_auto_spec_u32_to_from_le_bytes, lemma_auto_spec_u64_to_from_le_bytes,
    spec_u32_from_le_bytes, spec_u32_to_le_bytes, spec_u64_from_le_bytes, spec_u64_to_le_bytes,
    u64_to_le_bytes,
};
use vstd::prelude::*;

use crate::aead::{chacha20poly1305_open, chacha20poly1305_seal};

verus! {

/// Length of the public salt stored in front of an encrypted stream.
pub const SALT_LEN: usize = 32;

/// Length of a ChaCha20-Poly1305 nonce.
pub const NONCE_LEN: usize = 12;

/// Length of the Poly1305 tag that follows each frame's ciphertext.
pub const TAG_LEN: usize = 16;

/// Length of the little-endian plaintext length in front of each frame.
pub const HEADER_LEN: usize = 4;

/// Largest plaintext a frame carries (64 KiB).
pub const FRAME_PLAINTEXT_LEN: usize = 65536;

/// Length of the derived ChaCha20-Poly1305 key.
pub const KEY_LEN: usize = 32;

/// The nonce of the frame at position `counter`: the counter in little endian,
/// padded with zeros to twelve bytes.
pub open spec fn spec_counter_nonce(counter: u64) -> Seq<u8> {
    spec_u64_to_le_bytes(counter) + seq![0u8, 0u8, 0u8, 0u8]
}

/// Builds the 12-byte nonce of the frame at position `frame_counter`.
pub fn counter_nonce(frame_counter: u64) -> (nonce: [u8; NONCE_LEN])
    ensures
        nonce@ == spec_counter_nonce(frame_counter),
        spec_u64_from_le_bytes(nonce@.take(8)) == frame_counter,
        forall|i: int| 8 <= i < NONCE_LEN ==> nonce@[i] == 0u8,
{
    let b = u64_to_le_bytes(frame_counter);
    let nonce = [b[0], b[1], b[2], b[3], b[4], b[5], b[6], b[7], 0u8, 0u8, 0u8, 0u8];
    proof {
        lemma_auto_spec_u64_to_from_le_bytes();
        assert(nonce@.take(8) =~= spec_u64_to_le_bytes(frame_counter));
    }
    assert(nonce@ =~= spec_counter_nonce(frame_counter));
    nonce
}

/// The nonce of a frame is twelve bytes: the first eight read back, little
/// endian, as the frame's position, and the last four are zero.
pub proof fn lemma_counter_nonce_layout(counter: u64)
    ensures
        spec_counter_nonce(counter).len() == NONCE_LEN,
        spec_u64_from_le_bytes(spec_counter_nonce(counter).take(8)) == counter,
        forall|i: int| 8 <= i < NONCE_LEN ==> #[trigger] spec_counter_nonce(counter)[i] == 0u8,
{
    lemma_auto_spec_u64_to_from_le_bytes();
    assert(spec_counter_nonce(counter).take(8) =~= spec_u64_to_le_bytes(counter));
}

/// Distinct frame positions never share a nonce.
pub proof fn lemma_counter_nonce_unique(a: u64, b: u64)
    requires
        a != b,
    ensures
        spec_counter_nonce(a) != spec_counter_nonce(b),
{
    lemma_auto_spec_u64_to_from_le_bytes();
    if spec_counter_nonce(a) == spec_counter_nonce(b) {
        assert(spec_counter_nonce(a).take(8) =~= spec_u64_to_le_bytes(a));
        assert(spec_counter_nonce(b).take(8) =~= spec_u64_to_le_bytes(b));
    }
}

/// How a buffer is cut into frames: pieces of `FRAME_PLAINTEXT_LEN` bytes,
/// the last one possibly shorter; an empty buffer gives no frame.
pub open spec fn frame_chunks(data: Seq<u8>) -> Seq<Seq<u8>>
    decreases data.len(),
{
    if data.len() == 0 {
        Seq::empty()
    } else if data.len() <= FRAME_PLAINTEXT_LEN {
        seq![data]
    } else {
        seq![data.take(FRAME_PLAINTEXT_LEN as int)] + frame_chunks(
            data.skip(FRAME_PLAINTEXT_LEN as int),
        )
    }
}

/// Number of frames a buffer of `len` bytes is cut into.
pub open spec fn chunk_count(len: nat) -> nat {
    ((len + FRAME_PLAINTEXT_LEN - 1) / (FRAME_PLAINTEXT_LEN as int)) as nat
}

/// One encoded frame: the plaintext length, then the sealed plaintext.
pub open spec fn encode_frame(key: Seq<u8>, counter: u64, plaintext: Seq<u8>) -> Seq<u8> {
    spec_u32_to_le_bytes(plaintext.len() as u32) + chacha20poly1305_seal(
        key,
        spec_counter_nonce(counter),
        plaintext,
    )
}

/// The frames of `chunks`, in order, the first one at position `counter`.
pub open spec fn encode_frames(key: Seq<u8>, counter: nat, chunks: Seq<Seq<u8>>) -> Seq<u8>
    decreases chunks.len(),
{
    if chunks.len() == 0 {
        Seq::empty()
    } else {
        encode_frames(key, counter, chunks.drop_last()) + encode_frame(
            key,
            (counter + chunks.len() - 1) as u64,
            chunks.last(),
        )
    }
}

/// What a reader recovers from `stream` when its next frame is at position
/// `counter`: the concatenated plaintexts and the number of frames, or `None`
/// when a header is cut short, a frame is longer than `FRAME_PLAINTEXT_LEN`,
/// the counter is exhausted, a frame is cut short or a tag does not
/// authenticate.
pub open spec fn decode_frames(key: Seq<u8>, counter: nat, stream: Seq<u8>) -> Option<(Seq<u8>, nat)>
    decreases stream.len(),
{
    if stream.len() == 0 {
        Some((Seq::empty(), 0))
    } else if stream.len() < HEADER_LEN {
        None
    } else {
        let len = spec_u32_from_le_bytes(stream.take(HEADER_LEN as int)) as int;
        let end = HEADER_LEN + len + TAG_LEN;
        if len > FRAME_PLAINTEXT_LEN || counter >= u64::MAX || stream.len() < end {
            None
        } else {
            match chacha20poly1305_open(
                key,
                spec_counter_nonce(counter as u64),
                stream.subrange(HEADER_LEN as int, end),
            ) {
                None => None,
                Some(p) => match decode_frames(key, counter + 1, stream.skip(end)) {
                    None => None,
                    Some((rest, n)) => Some((p + rest, n + 1)),
                },
            }
        }
    }
}

/// The sealed form of `plaintext` at position `counter` opens back to it and
/// is 16 bytes longer.
pub open spec fn frame_opens(key: Seq<u8>, counter: u64, plaintext: Seq<u8>) -> bool {
    let nonce = spec_counter_nonce(counter);
    &&& chacha20poly1305_open(key, nonce, chacha20poly1305_seal(key, nonce, plaintext)) == Some(
        plaintext,
    )
    &&& chacha20poly1305_seal(key, nonce, plaintext).len() == plaintext.len() + TAG_LEN
}

/// A frame is the plaintext length as four little-endian bytes, then the
/// plaintext sealed under the nonce of the frame's position.
pub proof fn lemma_encode_frame_layout(key: Seq<u8>, counter: u64, plaintext: Seq<u8>)
    requires
        plaintext.len() <= u32::MAX,
    ensures
        spec_u32_from_le_bytes(encode_frame(key, counter, plaintext).take(HEADER_LEN as int))
            == plaintext.len(),
        encode_frame(key, counter, plaintext).skip(HEADER_LEN as int) == chacha20poly1305_seal(
            key,
            spec_counter_nonce(counter),
            plaintext,
        ),
{
    lemma_auto_spec_u32_to_from_le_bytes();
    let f = encode_frame(key, counter, plaintext);
    assert(f.take(4) =~= spec_u32_to_le_bytes(plaintext.len() as u32));
    assert(f.skip(4) =~= chacha20poly1305_seal(key, spec_counter_nonce(counter), plaintext));
}

/// A single frame that opens decodes to its plaintext.
pub proof fn lemma_decode_one_frame(key: Seq<u8>, counter: u64, plaintext: Seq<u8>)
    requires
        frame_opens(key, counter, plaintext),
        plaintext.len() <= FRAME_PLAINTEXT_LEN,
        counter < u64::MAX,
    ensures
        decode_frames(key, counter as nat, encode_frame(key, counter, plaintext)) == Some(
            (plaintext, 1nat),
        ),
{
    lemma_auto_spec_u32_to_from_le_bytes();
    let f = encode_frame(key, counter, plaintext);
    let header = spec_u32_to_le_bytes(plaintext.len() as u32);
    let sealed = chacha20poly1305_seal(key, spec_counter_nonce(counter), plaintext);
    assert(f.take(4) =~= header);
    let end = 4 + plaintext.len() as int + 16;
    assert(f.subrange(4, end) =~= sealed);
    assert(f.skip(end) =~= Seq::<u8>::empty());
    assert(decode_frames(key, counter as nat + 1, f.skip(end)) == Some((Seq::<u8>::empty(), 0nat)));
    assert(plaintext + Seq::<u8>::empty() =~= plaintext);
}


/// `frame_chunks` cuts a buffer into `chunk_count` non-empty pieces, each
/// exactly `FRAME_PLAINTEXT_LEN` bytes but the last, which is at most that;
/// put back together they give the buffer.
pub proof fn lemma_frame_chunks(data: Seq<u8>)
    ensures
        frame_chunks(data).len() == chunk_count(data.len()),
        forall|i: int|
            0 <= i < frame_chunks(data).len() ==> 0 < (#[trigger] frame_chunks(data)[i]).len()
                <= FRAME_PLAINTEXT_LEN,
        forall|i: int|
            0 <= i < frame_chunks(data).len() - 1 ==> (#[trigger] frame_chunks(data)[i]).len()
                == FRAME_PLAINTEXT_LEN,
        frame_chunks(data).flatten() == data,
    decreases data.len(),
{
    if data.len() == 0 {
        assert(data =~= Seq::<u8>::empty());
        assert(frame_chunks(data).flatten() == Seq::<u8>::empty());
    } else if data.len() <= FRAME_PLAINTEXT_LEN {
        let c = frame_chunks(data);
        assert(c.drop_first() =~= Seq::<Seq<u8>>::empty());
        assert(c.drop_first().flatten() == Seq::<u8>::empty());
        assert(data + Seq::<u8>::empty() =~= data);
        assert(c.flatten() == c.first() + c.drop_first().flatten());
    } else {
        let rest = data.skip(FRAME_PLAINTEXT_LEN as int);
        lemma_frame_chunks(rest);
        let c = frame_chunks(data);
        assert(c.drop_first() =~= frame_chunks(rest));
        assert forall|i: int| 0 <= i < c.len() implies 0 < (#[trigger] c[i]).len()
            <= FRAME_PLAINTEXT_LEN by {
            if i > 0 {
                assert(c[i] == frame_chunks(rest)[i - 1]);
            }
        }
        assert forall|i: int| 0 <= i < c.len() - 1 implies (#[trigger] c[i]).len()
            == FRAME_PLAINTEXT_LEN by {
            if i > 0 {
                assert(c[i] == frame_chunks(rest)[i - 1]);
            }
        }
        assert(data.take(FRAME_PLAINTEXT_LEN as int) + rest =~= data);
        assert(c.first() == data.take(FRAME_PLAINTEXT_LEN as int));
        assert(c.flatten() == c.first() + c.drop_first().flatten());
    }
}

/// Cutting a buffer at a whole number of frames and cutting the two parts
/// gives the same pieces as cutting the buffer.
pub proof fn lemma_frame_chunks_split(data: Seq<u8>, at: nat)
    requires
        at % (FRAME_PLAINTEXT_LEN as nat) == 0,
        at <= data.len(),
    ensures
        frame_chunks(data) == frame_chunks(data.take(at as int)) + frame_chunks(
            data.skip(at as int),
        ),
    decreases at,
{
    let f = FRAME_PLAINTEXT_LEN as int;
    if at == 0 {
        assert(data.take(0) =~= Seq::<u8>::empty());
        assert(data.skip(0) =~= data);
        assert(Seq::<Seq<u8>>::empty() + frame_chunks(data) =~= frame_chunks(data));
    } else if data.len() == f {
        assert(data.take(at as int) =~= data);
        assert(data.skip(at as int) =~= Seq::<u8>::empty());
        assert(frame_chunks(data) + Seq::<Seq<u8>>::empty() =~= frame_chunks(data));
    } else {
        let rest = data.skip(f);
        lemma_frame_chunks_split(rest, (at - f) as nat);
        let head = data.take(at as int);
        assert(head.take(f) =~= data.take(f));
        assert(head.skip(f) =~= rest.take(at - f));
        assert(rest.skip(at - f) =~= data.skip(at as int));
        if at == f {
            assert(head =~= data.take(f));
            assert(rest.take(0) =~= Seq::<u8>::empty());
        }
        assert(frame_chunks(data) =~= frame_chunks(head) + frame_chunks(data.skip(at as int)));
    }
}


/// Appending a chunk appends its frame, at the next position.
pub proof fn lemma_encode_frames_push(key: Seq<u8>, counter: nat, chunks: Seq<Seq<u8>>, last: Seq<u8>)
    ensures
        encode_frames(key, counter, chunks.push(last)) == encode_frames(key, counter, chunks)
            + encode_frame(key, (counter + chunks.len()) as u64, last),
{
    assert(chunks.push(last).drop_last() =~= chunks);
}


/// A stream that decodes starts with a frame that a reader accepts: its
/// header announces at most 64 KiB, a position is left, the ciphertext is all
/// there and opens, and the rest of the stream decodes from the next position
/// to the rest of the plaintext.
pub proof fn lemma_decode_first_frame(key: Seq<u8>, counter: nat, stream: Seq<u8>)
    requires
        decode_frames(key, counter, stream) is Some,
        stream.len() > 0,
    ensures
        ({
            let len = spec_u32_from_le_bytes(stream.take(HEADER_LEN as int)) as int;
            let end = HEADER_LEN + len + TAG_LEN;
            let whole = decode_frames(key, counter, stream).unwrap();
            &&& stream.len() >= HEADER_LEN
            &&& len <= FRAME_PLAINTEXT_LEN
            &&& counter < u64::MAX
            &&& stream.len() >= end
            &&& chacha20poly1305_open(
                key,
                spec_counter_nonce(counter as u64),
                stream.subrange(HEADER_LEN as int, end),
            ) is Some
            &&& decode_frames(key, counter + 1, stream.skip(end)) is Some
            &&& whole.0 == chacha20poly1305_open(
                key,
                spec_counter_nonce(counter as u64),
                stream.subrange(HEADER_LEN as int, end),
            ).unwrap() + decode_frames(key, counter + 1, stream.skip(end)).unwrap().0
            &&& whole.1 == decode_frames(key, counter + 1, stream.skip(end)).unwrap().1 + 1
        }),
{
}


/// The frames of two lists of pieces, one after the other, are the frames of
/// the joined list: the second list's frames start where the first one's end.
pub proof fn lemma_encode_frames_append(
    key: Seq<u8>,
    counter: nat,
    first: Seq<Seq<u8>>,
    second: Seq<Seq<u8>>,
)
    ensures
        encode_frames(key, counter, first + second) == encode_frames(key, counter, first)
            + encode_frames(key, counter + first.len(), second),
    decreases second.len(),
{
    if second.len() == 0 {
        assert(first + second =~= first);
        assert(encode_frames(key, counter, first) + Seq::<u8>::empty() =~= encode_frames(
            key,
            counter,
            first,
        ));
    } else {
        let joined = first + second;
        assert(joined.drop_last() =~= first + second.drop_last());
        assert(joined.last() == second.last());
        lemma_encode_frames_append(key, counter, first, second.drop_last());
        assert(encode_frames(key, counter, joined) =~= encode_frames(key, counter, first)
            + encode_frames(key, counter + first.len(), second));
    }
}

/// Sealing a buffer in one go gives the same bytes as sealing a whole number
/// of 64 KiB frames of it first and the rest after, from the next position.
/// So the frames do not depend on whether whole frames are sealed together
/// (in parallel) or one by one.
pub proof fn lemma_seal_in_aligned_pieces(key: Seq<u8>, counter: nat, first: Seq<u8>, rest: Seq<u8>)
    requires
        first.len() % (FRAME_PLAINTEXT_LEN as nat) == 0,
    ensures
        encode_frames(key, counter, frame_chunks(first + rest)) == encode_frames(
            key,
            counter,
            frame_chunks(first),
        ) + encode_frames(key, counter + frame_chunks(first).len(), frame_chunks(rest)),
{
    let data = first + rest;
    lemma_frame_chunks_split(data, first.len());
    assert(data.take(first.len() as int) =~= first);
    assert(data.skip(first.len() as int) =~= rest);
    lemma_encode_frames_append(key, counter, frame_chunks(first), frame_chunks(rest));
}

/// Frames sealed by successive writes never share a nonce: a write seals at
/// the positions from its starting counter on, and leaves the counter past
/// all of them.
pub proof fn lemma_writes_use_fresh_nonces(first_start: u64, first_frames: nat, second_start: u64, second_frames: nat)
    requires
        second_start >= first_start + first_frames,
        second_start + second_frames <= u64::MAX,
    ensures
        forall|a: u64, b: u64|
            first_start <= a < first_start + first_frames && second_start <= b < second_start
                + second_frames ==> #[trigger] spec_counter_nonce(a) != #[trigger] spec_counter_nonce(
                b,
            ),
{
    assert forall|a: u64, b: u64|
        first_start <= a < first_start + first_frames && second_start <= b < second_start
            + second_frames implies #[trigger] spec_counter_nonce(a) != #[trigger] spec_counter_nonce(
        b,
    ) by {
        lemma_counter_nonce_unique(a, b);
    }
}


/// Appending the frame of one more piece to the frames of a list of pieces
/// gives the frames of the longer list, and they decode to its plaintext.
pub proof fn lemma_append_frame(key: Seq<u8>, counter: nat, done: Seq<Seq<u8>>, piece: Seq<u8>)
    requires
        decode_frames(key, counter, encode_frames(key, counter, done)) == Some(
            (done.flatten_alt(), done.len()),
        ),
        frame_opens(key, (counter + done.len()) as u64, piece),
        piece.len() <= FRAME_PLAINTEXT_LEN,
        counter + done.len() < u64::MAX,
    ensures
        encode_frames(key, counter, done.push(piece)) == encode_frames(key, counter, done)
            + encode_frame(key, (counter + done.len()) as u64, piece),
        decode_frames(key, counter, encode_frames(key, counter, done.push(piece))) == Some(
            (done.push(piece).flatten_alt(), done.len() + 1),
        ),
        done.push(piece).flatten_alt() == done.flatten_alt() + piece,
{
    let at = (counter + done.len()) as u64;
    lemma_encode_frames_push(key, counter, done, piece);
    lemma_decode_one_frame(key, at, piece);
    lemma_decode_concat(key, counter, encode_frames(key, counter, done), encode_frame(key, at, piece));
    assert(done.push(piece).drop_last() =~= done);
}

/// Decoding a concatenation of two streams gives the concatenation of what
/// each decodes to, the second one taken up at the position where the first
/// one ends.
pub proof fn lemma_decode_concat(key: Seq<u8>, counter: nat, a: Seq<u8>, b: Seq<u8>)
    requires
        decode_frames(key, counter, a) is Some,
        decode_frames(key, counter + decode_frames(key, counter, a).unwrap().1, b) is Some,
    ensures
        decode_frames(key, counter, a + b) == Some(
            (
                decode_frames(key, counter, a).unwrap().0 + decode_frames(
                    key,
                    counter + decode_frames(key, counter, a).unwrap().1,
                    b,
                ).unwrap().0,
                decode_frames(key, counter, a).unwrap().1 + decode_frames(
                    key,
                    counter + decode_frames(key, counter, a).unwrap().1,
                    b,
                ).unwrap().1,
            ),
        ),
    decreases a.len(),
{
    if a.len() == 0 {
        assert(a + b =~= b);
        assert(Seq::<u8>::empty() + decode_frames(key, counter, b).unwrap().0 =~= decode_frames(
            key,
            counter,
            b,
        ).unwrap().0);
    } else {
        let ab = a + b;
        let len = spec_u32_from_le_bytes(a.take(4)) as int;
        let end = 4 + len + 16;
        assert(ab.take(4) =~= a.take(4));
        assert(ab.subrange(4, end) =~= a.subrange(4, end));
        assert(ab.skip(end) =~= a.skip(end) + b);
        let p = chacha20poly1305_open(key, spec_counter_nonce(counter as u64), a.subrange(4, end)).unwrap();
        let rest = decode_frames(key, counter + 1, a.skip(end)).unwrap();
        lemma_decode_concat(key, counter + 1, a.skip(end), b);
        let db = decode_frames(key, counter + decode_frames(key, counter, a).unwrap().1, b).unwrap();
        assert(p + (rest.0 + db.0) =~= (p + rest.0) + db.0);
    }
}

/// The sum of a list of frame counts.
pub open spec fn count_total(counts: Seq<nat>) -> nat
    decreases counts.len(),
{
    if counts.len() == 0 {
        0
    } else {
        count_total(counts.drop_last()) + counts.last()
    }
}

/// Outputs of successive writes, each decoding from the position where the
/// previous ones end, decode together to the concatenation of their
/// plaintexts.
pub proof fn lemma_decode_writes(
    key: Seq<u8>,
    counter: nat,
    outputs: Seq<Seq<u8>>,
    inputs: Seq<Seq<u8>>,
    counts: Seq<nat>,
)
    requires
        outputs.len() == inputs.len(),
        outputs.len() == counts.len(),
        forall|i: int|
            0 <= i < outputs.len() ==> decode_frames(
                key,
                counter + count_total(counts.take(i)),
                #[trigger] outputs[i],
            ) == Some((inputs[i], counts[i])),
    ensures
        decode_frames(key, counter, outputs.flatten_alt()) == Some(
            (inputs.flatten_alt(), count_total(counts)),
        ),
    decreases outputs.len(),
{
    if outputs.len() == 0 {
        assert(outputs.flatten_alt() =~= Seq::<u8>::empty());
        assert(inputs.flatten_alt() =~= Seq::<u8>::empty());
    } else {
        let n = outputs.len() - 1;
        let (o, d, c) = (outputs.drop_last(), inputs.drop_last(), counts.drop_last());
        assert forall|i: int| 0 <= i < o.len() implies decode_frames(
            key,
            counter + count_total(c.take(i)),
            #[trigger] o[i],
        ) == Some((d[i], c[i])) by {
            assert(c.take(i) =~= counts.take(i));
            assert(decode_frames(key, counter + count_total(counts.take(i)), outputs[i]) == Some(
                (inputs[i], counts[i]),
            ));
        }
        lemma_decode_writes(key, counter, o, d, c);
        assert(counts.take(n) =~= c);
        assert(decode_frames(key, counter + count_total(counts.take(n)), outputs[n]) == Some(
            (inputs[n], counts[n]),
        ));
        lemma_decode_concat(key, counter, o.flatten_alt(), outputs.last());
    }
}

} // verus!
