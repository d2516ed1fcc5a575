//! The decrypting side of the frame layer.
//!
//! The reader is fed the stream in pieces, each no longer than what it asks
//! for next (`wanted`): the rest of a frame header, then the rest of that
//! frame's ciphertext. Whatever the pieces, its state is the scan of all the
//! bytes it was fed since it started or last refused the stream.
use std::collections::VecDeque;
use vstd::bytes::{spec_u32_from_le_bytes, u32_from_le_bytes};
use vstd::prelude::*;
use vstd::string::StringSliceAdditionalSpecFns;

use crate::aead::{chacha20poly1305_open, chacha20poly1305_seal, open};
use crate::error::CryptoError;
use crate::frame::{
    counter_nonce, decode_frames, spec_counter_nonce, FRAME_PLAINTEXT_LEN, HEADER_LEN, KEY_LEN,
    SALT_LEN, TAG_LEN,
};
use crate::kdf::{derive_key, secret_bytes, spec_derive_key, SecretKey};

verus! {

/// A frame whose header has been accepted: its position (the nonce) and how
/// many ciphertext bytes follow the header.
#[derive(Debug, Clone, Copy, PartialEq, Eq, Structural)]
pub struct PendingFrame {
    pub nonce_counter: u64,
    pub ciphertext_len: usize,
}

/// What one piece of input did.
#[derive(Debug, Clone, Copy, PartialEq, Eq, Structural)]
pub enum ReadEvent {
    /// The piece was taken; the frame it belongs to is not complete yet.
    NeedMore,
    /// The piece completed a frame, whose plaintext is now buffered.
    FrameOpened,
    /// The source ended cleanly, between frames.
    EndOfStream,
}

/// Where reading stands after some input: the plaintext opened, the next
/// frame position, and the frame being gathered (header bytes, or an accepted
/// header and ciphertext bytes).
pub struct ScanState {
    pub opened: Seq<u8>,
    pub counter: u64,
    pub header: Seq<u8>,
    pub pending: Option<PendingFrame>,
    pub ciphertext: Seq<u8>,
}

/// What reading `input` from frame position `counter` gives: the state after
/// it, or the reason the stream is refused (a header announcing more than
/// 64 KiB, no position left, or a tag that does not authenticate).
pub open spec fn scan(key: Seq<u8>, counter: u64, input: Seq<u8>) -> Result<ScanState, CryptoError>
    decreases input.len(),
{
    if input.len() < HEADER_LEN {
        Ok(
            ScanState {
                opened: Seq::empty(),
                counter,
                header: input,
                pending: None,
                ciphertext: Seq::empty(),
            },
        )
    } else {
        let len = spec_u32_from_le_bytes(input.take(HEADER_LEN as int)) as int;
        if len > FRAME_PLAINTEXT_LEN {
            Err(CryptoError::FrameTooLarge)
        } else if counter == u64::MAX {
            Err(CryptoError::FrameCounterOverflow)
        } else {
            let end = HEADER_LEN + len + TAG_LEN;
            if input.len() < end {
                Ok(
                    ScanState {
                        opened: Seq::empty(),
                        counter: (counter + 1) as u64,
                        header: Seq::empty(),
                        pending: Some(
                            PendingFrame {
                                nonce_counter: counter,
                                ciphertext_len: (len + TAG_LEN) as usize,
                            },
                        ),
                        ciphertext: input.skip(HEADER_LEN as int),
                    },
                )
            } else {
                match chacha20poly1305_open(
                    key,
                    spec_counter_nonce(counter),
                    input.subrange(HEADER_LEN as int, end),
                ) {
                    None => Err(CryptoError::Decryption),
                    Some(p) => match scan(key, (counter + 1) as u64, input.skip(end)) {
                        Err(e) => Err(e),
                        Ok(s) => Ok(
                            ScanState {
                                opened: p + s.opened,
                                counter: s.counter,
                                header: s.header,
                                pending: s.pending,
                                ciphertext: s.ciphertext,
                            },
                        ),
                    },
                }
            }
        }
    }
}

/// How many bytes a reader in state `s` takes next: the rest of the header,
/// or the rest of the pending frame's ciphertext.
pub open spec fn wanted_in(s: ScanState) -> int {
    match s.pending {
        Some(f) => f.ciphertext_len - s.ciphertext.len(),
        None => HEADER_LEN - s.header.len(),
    }
}

/// One piece of at most `wanted_in(s)` bytes taken in state `s`.
pub open spec fn advance(key: Seq<u8>, s: ScanState, bytes: Seq<u8>) -> Result<ScanState, CryptoError> {
    match s.pending {
        None => {
            let header = s.header + bytes;
            if header.len() < HEADER_LEN {
                Ok(ScanState { header, ..s })
            } else {
                let len = spec_u32_from_le_bytes(header) as int;
                if len > FRAME_PLAINTEXT_LEN {
                    Err(CryptoError::FrameTooLarge)
                } else if s.counter == u64::MAX {
                    Err(CryptoError::FrameCounterOverflow)
                } else {
                    Ok(
                        ScanState {
                            counter: (s.counter + 1) as u64,
                            header: Seq::empty(),
                            pending: Some(
                                PendingFrame {
                                    nonce_counter: s.counter,
                                    ciphertext_len: (len + TAG_LEN) as usize,
                                },
                            ),
                            ciphertext: Seq::empty(),
                            ..s
                        },
                    )
                }
            }
        },
        Some(f) => {
            let ciphertext = s.ciphertext + bytes;
            if ciphertext.len() < f.ciphertext_len {
                Ok(ScanState { ciphertext, ..s })
            } else {
                match chacha20poly1305_open(key, spec_counter_nonce(f.nonce_counter), ciphertext) {
                    None => Err(CryptoError::Decryption),
                    Some(p) => Ok(
                        ScanState {
                            opened: s.opened + p,
                            pending: None,
                            ciphertext: Seq::empty(),
                            ..s
                        },
                    ),
                }
            }
        },
    }
}

/// Scanning never stops inside a complete unit: the reader always wants at
/// least one byte, and a pending frame's counter is the one after its own.
pub proof fn lemma_scan_wants_more(key: Seq<u8>, counter: u64, input: Seq<u8>)
    requires
        scan(key, counter, input) is Ok,
    ensures
        ({
            let s = scan(key, counter, input)->Ok_0;
            &&& wanted_in(s) > 0
            &&& s.header.len() < HEADER_LEN
            &&& s.pending is Some ==> s.header.len() == 0 && s.ciphertext.len() < s.pending->Some_0.ciphertext_len
                && s.pending->Some_0.ciphertext_len <= FRAME_PLAINTEXT_LEN + TAG_LEN
                && s.counter == s.pending->Some_0.nonce_counter + 1
            &&& s.pending is None ==> s.ciphertext.len() == 0
        }),
    decreases input.len(),
{
    if input.len() >= HEADER_LEN {
        let len = spec_u32_from_le_bytes(input.take(HEADER_LEN as int)) as int;
        let end = HEADER_LEN + len + TAG_LEN;
        if input.len() >= end {
            lemma_scan_wants_more(key, (counter + 1) as u64, input.skip(end));
        }
    }
}

/// Feeding one piece of at most what the reader wants gives the scan of the
/// longer input: a reader's state depends only on the bytes fed, not on how
/// they were split.
pub proof fn lemma_scan_advance(key: Seq<u8>, counter: u64, input: Seq<u8>, bytes: Seq<u8>)
    requires
        scan(key, counter, input) is Ok,
        0 < bytes.len() <= wanted_in(scan(key, counter, input)->Ok_0),
    ensures
        scan(key, counter, input + bytes) == advance(key, scan(key, counter, input)->Ok_0, bytes),
    decreases input.len(),
{
    lemma_scan_wants_more(key, counter, input);
    let joined = input + bytes;
    if input.len() < HEADER_LEN {
        if joined.len() >= HEADER_LEN {
            assert(joined.take(HEADER_LEN as int) =~= joined);
            assert(joined.skip(HEADER_LEN as int) =~= Seq::<u8>::empty());
        }
    } else {
        let len = spec_u32_from_le_bytes(input.take(HEADER_LEN as int)) as int;
        let end = HEADER_LEN + len + TAG_LEN;
        assert(joined.take(HEADER_LEN as int) =~= input.take(HEADER_LEN as int));
        if input.len() < end {
            assert(joined.skip(HEADER_LEN as int) =~= input.skip(HEADER_LEN as int) + bytes);
            if joined.len() >= end {
                assert(joined.subrange(HEADER_LEN as int, end) =~= input.skip(HEADER_LEN as int)
                    + bytes);
                assert(joined.skip(end) =~= Seq::<u8>::empty());
                let p = chacha20poly1305_open(
                    key,
                    spec_counter_nonce(counter),
                    joined.subrange(HEADER_LEN as int, end),
                );
                if p is Some {
                    assert(p->Some_0 + Seq::<u8>::empty() =~= Seq::<u8>::empty() + p->Some_0);
                }
            }
        } else {
            assert(joined.subrange(HEADER_LEN as int, end) =~= input.subrange(
                HEADER_LEN as int,
                end,
            ));
            assert(joined.skip(end) =~= input.skip(end) + bytes);
            let rest = scan(key, (counter + 1) as u64, input.skip(end));
            lemma_scan_advance(key, (counter + 1) as u64, input.skip(end), bytes);
            let p = chacha20poly1305_open(
                key,
                spec_counter_nonce(counter),
                input.subrange(HEADER_LEN as int, end),
            )->Some_0;
            let r = rest->Ok_0;
            if r.pending is Some {
                let ct = r.ciphertext + bytes;
                if ct.len() >= r.pending->Some_0.ciphertext_len {
                    let opened = chacha20poly1305_open(
                        key,
                        spec_counter_nonce(r.pending->Some_0.nonce_counter),
                        ct,
                    );
                    if opened is Some {
                        assert((p + r.opened) + opened->Some_0 =~= p + (r.opened
                            + opened->Some_0));
                    }
                }
            }
        }
    }
}

/// A stream that decodes is scanned to the same plaintext, ending between
/// frames at the position after its last frame.
pub proof fn lemma_scan_whole_frames(key: Seq<u8>, counter: u64, stream: Seq<u8>)
    requires
        decode_frames(key, counter as nat, stream) is Some,
    ensures
        scan(key, counter, stream) == Ok::<ScanState, CryptoError>(
            ScanState {
                opened: decode_frames(key, counter as nat, stream)->Some_0.0,
                counter: (counter + decode_frames(key, counter as nat, stream)->Some_0.1) as u64,
                header: Seq::empty(),
                pending: None,
                ciphertext: Seq::empty(),
            },
        ),
    decreases stream.len(),
{
    if stream.len() == 0 {
        assert(stream =~= Seq::<u8>::empty());
    } else {
        let len = spec_u32_from_le_bytes(stream.take(HEADER_LEN as int)) as int;
        let end = HEADER_LEN + len + TAG_LEN;
        lemma_scan_whole_frames(key, (counter + 1) as u64, stream.skip(end));
    }
}

/// The state after taking `pieces` one after the other from state `s`, or
/// the first refusal.
pub open spec fn feed(key: Seq<u8>, s: ScanState, pieces: Seq<Seq<u8>>) -> Result<ScanState, CryptoError>
    decreases pieces.len(),
{
    if pieces.len() == 0 {
        Ok(s)
    } else {
        match feed(key, s, pieces.drop_last()) {
            Err(e) => Err(e),
            Ok(t) => advance(key, t, pieces.last()),
        }
    }
}

/// Each piece is taken without a refusal before it, and is non-empty and no
/// longer than what the reader wants at that point.
pub open spec fn pieces_fit(key: Seq<u8>, s: ScanState, pieces: Seq<Seq<u8>>) -> bool {
    forall|i: int|
        0 <= i < pieces.len() ==> (feed(key, s, #[trigger] pieces.take(i)) matches Ok(t) && 0
            < pieces[i].len() <= wanted_in(t))
}

/// Taking bytes in pieces that the reader accepts, however they are cut,
/// ends in the scan of all the bytes: the same state, or the same refusal.
pub proof fn lemma_feed_pieces(key: Seq<u8>, counter: u64, input: Seq<u8>, pieces: Seq<Seq<u8>>)
    requires
        scan(key, counter, input) is Ok,
        pieces_fit(key, scan(key, counter, input)->Ok_0, pieces),
    ensures
        feed(key, scan(key, counter, input)->Ok_0, pieces) == scan(
            key,
            counter,
            input + pieces.flatten_alt(),
        ),
    decreases pieces.len(),
{
    let s = scan(key, counter, input)->Ok_0;
    if pieces.len() == 0 {
        assert(input + pieces.flatten_alt() =~= input);
    } else {
        let n = pieces.len() - 1;
        let init = pieces.drop_last();
        assert forall|i: int| 0 <= i < init.len() implies (feed(key, s, #[trigger] init.take(i)) matches Ok(
            t,
        ) && 0 < init[i].len() <= wanted_in(t)) by {
            assert(init.take(i) =~= pieces.take(i));
            assert(feed(key, s, pieces.take(i)) is Ok);
        }
        lemma_feed_pieces(key, counter, input, init);
        assert(pieces.take(n) =~= init);
        assert(feed(key, s, pieces.take(n)) is Ok);
        lemma_scan_advance(key, counter, input + init.flatten_alt(), pieces.last());
        assert((input + init.flatten_alt()) + pieces.last() =~= input + pieces.flatten_alt());
    }
}

/// Two ways of cutting the same bytes into pieces that the reader accepts
/// end alike: in the same state, or with the same refusal.
pub proof fn lemma_split_independent(
    key: Seq<u8>,
    counter: u64,
    input: Seq<u8>,
    pieces: Seq<Seq<u8>>,
    other: Seq<Seq<u8>>,
)
    requires
        scan(key, counter, input) is Ok,
        pieces_fit(key, scan(key, counter, input)->Ok_0, pieces),
        pieces_fit(key, scan(key, counter, input)->Ok_0, other),
        pieces.flatten_alt() == other.flatten_alt(),
    ensures
        feed(key, scan(key, counter, input)->Ok_0, pieces) == feed(
            key,
            scan(key, counter, input)->Ok_0,
            other,
        ),
{
    lemma_feed_pieces(key, counter, input, pieces);
    lemma_feed_pieces(key, counter, input, other);
}

/// Appends `bytes` to `v`.
fn append_bytes(v: &mut Vec<u8>, bytes: &[u8])
    ensures
        final(v)@ == old(v)@ + bytes@,
{
    let mut i: usize = 0;
    while i < bytes.len()
        invariant
            i <= bytes@.len(),
            v@ == old(v)@ + bytes@.take(i as int),
        decreases bytes@.len() - i,
    {
        v.push(bytes[i]);
        proof {
            assert(bytes@.take(i + 1) =~= bytes@.take(i as int).push(bytes@[i as int]));
        }
        i = i + 1;
    }
    proof {
        assert(bytes@.take(i as int) =~= bytes@);
    }
}

/// Queues `bytes` at the back of `queue`.
fn queue_bytes(queue: &mut VecDeque<u8>, bytes: &Vec<u8>)
    ensures
        final(queue)@ == old(queue)@ + bytes@,
{
    let mut i: usize = 0;
    while i < bytes.len()
        invariant
            i <= bytes@.len(),
            queue@ == old(queue)@ + bytes@.take(i as int),
        decreases bytes@.len() - i,
    {
        queue.push_back(bytes[i]);
        proof {
            assert(bytes@.take(i + 1) =~= bytes@.take(i as int).push(bytes@[i as int]));
        }
        i = i + 1;
    }
    proof {
        assert(bytes@.take(i as int) =~= bytes@);
    }
}

/// A reader that refused the stream starts over: from the position it had
/// reached, with nothing fed since, keeping the plaintext opened so far.
pub open spec fn restarted(before: CryptoReader, after: CryptoReader) -> bool {
    &&& after.start() == before.counter()
    &&& after.consumed() == Seq::<u8>::empty()
    &&& after.opened_earlier() == before.opened()
}

/// The decrypting reader: it checks and opens frames in order, numbering
/// them from zero, and hands out their plaintext.
pub struct CryptoReader {
    key: SecretKey,
    /// Position of the next frame; it must advance in step with the writer.
    frame_counter: u64,
    /// Decrypted bytes not yet handed out.
    internal_buffer: VecDeque<u8>,
    /// Bytes of the header being gathered.
    header: Vec<u8>,
    /// The frame whose ciphertext is being gathered.
    pending: Option<PendingFrame>,
    /// Bytes of that ciphertext gathered so far.
    ciphertext: Vec<u8>,
    /// Frame position when the reader started or last started over.
    start: Ghost<u64>,
    /// Bytes fed since then.
    consumed: Ghost<Seq<u8>>,
    /// Plaintext opened before then.
    opened_earlier: Ghost<Seq<u8>>,
    /// Number of plaintext bytes handed out.
    delivered: Ghost<nat>,
}

impl CryptoReader {
    /// The ChaCha20-Poly1305 key.
    pub closed spec fn key_bytes(self) -> Seq<u8> {
        secret_bytes(self.key)
    }

    /// Position of the next frame to be accepted.
    pub closed spec fn counter(self) -> u64 {
        self.frame_counter
    }

    /// Plaintext opened but not yet handed out.
    pub closed spec fn buffered(self) -> Seq<u8> {
        self.internal_buffer@
    }

    /// Header bytes gathered for the next frame.
    pub closed spec fn header_bytes(self) -> Seq<u8> {
        self.header@
    }

    /// The accepted frame whose ciphertext is being gathered.
    pub closed spec fn pending(self) -> Option<PendingFrame> {
        self.pending
    }

    /// Ciphertext bytes of that frame gathered so far.
    pub closed spec fn gathered(self) -> Seq<u8> {
        self.ciphertext@
    }

    /// Frame position when the reader started or last started over.
    pub closed spec fn start(self) -> u64 {
        self.start@
    }

    /// Bytes fed since then.
    pub closed spec fn consumed(self) -> Seq<u8> {
        self.consumed@
    }

    /// Plaintext opened before then.
    pub closed spec fn opened_earlier(self) -> Seq<u8> {
        self.opened_earlier@
    }

    /// Number of plaintext bytes handed out.
    pub closed spec fn delivered(self) -> nat {
        self.delivered@
    }

    /// The scan of the bytes fed since the last start.
    pub open spec fn state(self) -> ScanState {
        scan(self.key_bytes(), self.start(), self.consumed())->Ok_0
    }

    /// All plaintext opened.
    pub open spec fn opened(self) -> Seq<u8> {
        self.opened_earlier() + self.state().opened
    }

    /// All plaintext handed out, in order.
    pub open spec fn handed_out(self) -> Seq<u8> {
        self.opened().take(self.delivered() as int)
    }

    /// How many bytes the reader takes next.
    pub open spec fn wanted_spec(self) -> int {
        wanted_in(self.state())
    }

    /// The reader's state is the scan of what it was fed, and its buffer is
    /// the opened plaintext not yet handed out.
    pub open spec fn inv(self) -> bool {
        &&& self.key_bytes().len() == KEY_LEN
        &&& scan(self.key_bytes(), self.start(), self.consumed()) is Ok
        &&& self.state().counter == self.counter()
        &&& self.state().header == self.header_bytes()
        &&& self.state().pending == self.pending()
        &&& self.state().ciphertext == self.gathered()
        &&& self.delivered() <= self.opened().len()
        &&& self.buffered() == self.opened().skip(self.delivered() as int)
    }

    /// Starts with a derived key; the first frame is expected at position zero.
    pub fn with_key(key: SecretKey) -> (rd: Self)
        requires
            secret_bytes(key).len() == KEY_LEN,
        ensures
            rd.inv(),
            rd.key_bytes() == secret_bytes(key),
            rd.start() == 0,
            rd.consumed() == Seq::<u8>::empty(),
            rd.opened_earlier() == Seq::<u8>::empty(),
            rd.delivered() == 0,
    {
        let rd = CryptoReader {
            key,
            frame_counter: 0,
            internal_buffer: VecDeque::new(),
            header: Vec::new(),
            pending: None,
            ciphertext: Vec::new(),
            start: Ghost(0),
            consumed: Ghost(Seq::empty()),
            opened_earlier: Ghost(Seq::empty()),
            delivered: Ghost(0),
        };
        proof {
            assert(rd.opened() =~= Seq::<u8>::empty());
            assert(rd.opened().skip(0) =~= Seq::<u8>::empty());
        }
        rd
    }

    /// Derives the key from the password and salt; the first frame is
    /// expected at position zero.
    pub fn new(password: &str, salt: &[u8; SALT_LEN]) -> (r: Result<Self, CryptoError>)
        ensures
            r is Ok <==> password.spec_bytes().len() <= 0xffff_ffff,
            r matches Ok(rd) ==> rd.inv() && rd.key_bytes() == spec_derive_key(
                password.spec_bytes(),
                salt@,
            ) && rd.start() == 0 && rd.consumed() == Seq::<u8>::empty() && rd.opened_earlier()
                == Seq::<u8>::empty() && rd.delivered() == 0,
            r matches Err(e) ==> e == CryptoError::KeyDerivation,
    {
        let key = derive_key(password, salt)?;
        Ok(Self::with_key(key))
    }

    /// Whether all opened plaintext has been handed out.
    pub fn buffer_is_empty(&self) -> (b: bool)
        ensures
            b == (self.buffered().len() == 0),
    {
        self.internal_buffer.len() == 0
    }

    /// How many bytes the reader takes next: the rest of the frame header, or
    /// the rest of the accepted frame's ciphertext. Never zero.
    pub fn wanted(&self) -> (n: usize)
        requires
            self.inv(),
        ensures
            n == self.wanted_spec(),
            n > 0,
    {
        proof {
            lemma_scan_wants_more(self.key_bytes(), self.start(), self.consumed());
        }
        match self.pending {
            Some(frame) => frame.ciphertext_len - self.ciphertext.len(),
            None => HEADER_LEN - self.header.len(),
        }
    }

    /// Whether the reader is gathering an accepted frame's ciphertext (rather
    /// than a header).
    pub fn gathering_ciphertext(&self) -> (b: bool)
        ensures
            b == (self.pending() is Some),
    {
        self.pending.is_some()
    }

    /// Drops the partly gathered header or ciphertext after the source failed
    /// while it was being read: the next piece starts a new header, at the
    /// position reached (a frame whose header was accepted keeps its
    /// position). Opened plaintext is kept.
    pub fn abandon_partial_frame(&mut self)
        requires
            old(self).inv(),
        ensures
            final(self).inv(),
            final(self).key_bytes() == old(self).key_bytes(),
            final(self).counter() == old(self).counter(),
            final(self).buffered() == old(self).buffered(),
            final(self).delivered() == old(self).delivered(),
            restarted(*old(self), *final(self)),
    {
        let ghost opened = self.opened();
        proof {
            assert(self.buffered().len() + self.delivered() == opened.len());
        }
        self.start_over(Ghost(opened));
    }

    /// Starts over after refusing the stream.
    fn start_over(&mut self, opened: Ghost<Seq<u8>>)
        requires
            secret_bytes(old(self).key).len() == KEY_LEN,
            old(self).buffered().len() + old(self).delivered() == opened@.len(),
            old(self).delivered() <= opened@.len(),
            old(self).buffered() == opened@.skip(old(self).delivered() as int),
        ensures
            final(self).inv(),
            final(self).key_bytes() == old(self).key_bytes(),
            final(self).counter() == old(self).counter(),
            final(self).buffered() == old(self).buffered(),
            final(self).delivered() == old(self).delivered(),
            final(self).start() == old(self).counter(),
            final(self).consumed() == Seq::<u8>::empty(),
            final(self).opened_earlier() == opened@,
    {
        self.header = Vec::new();
        self.pending = None;
        self.ciphertext = Vec::new();
        self.start = Ghost(self.frame_counter);
        self.consumed = Ghost(Seq::empty());
        self.opened_earlier = opened;
        proof {
            assert(self.opened() =~= opened@);
        }
    }

    /// Feeds the next piece of the stream, of at most `wanted()` bytes; an
    /// empty piece means the source has ended. A piece that completes a
    /// header has it checked; one that completes a frame has it opened and its
    /// plaintext buffered. A source that ends inside a frame, and a refused
    /// frame, are errors, after which the reader starts over.
    pub fn supply(&mut self, bytes: &[u8]) -> (r: Result<ReadEvent, CryptoError>)
        requires
            old(self).inv(),
            bytes@.len() <= old(self).wanted_spec(),
        ensures
            final(self).inv(),
            final(self).key_bytes() == old(self).key_bytes(),
            final(self).delivered() == old(self).delivered(),
            bytes@.len() == 0 && old(self).header_bytes().len() == 0 && old(self).pending() is None
                ==> r == Ok::<ReadEvent, CryptoError>(ReadEvent::EndOfStream) && final(self).start()
                == old(self).start() && final(self).consumed() == old(self).consumed() && final(self).opened_earlier() == old(self).opened_earlier(),
            bytes@.len() == 0 && old(self).header_bytes().len() > 0 ==> r == Err::<
                ReadEvent,
                CryptoError,
            >(CryptoError::TruncatedHeader) && restarted(*old(self), *final(self)),
            bytes@.len() == 0 && old(self).pending() is Some ==> r == Err::<ReadEvent, CryptoError>(
                CryptoError::TruncatedFrame,
            ) && restarted(*old(self), *final(self)),
            bytes@.len() > 0 ==> match scan(
                old(self).key_bytes(),
                old(self).start(),
                old(self).consumed() + bytes@,
            ) {
                Ok(s) => final(self).start() == old(self).start() && final(self).consumed() == old(self).consumed() + bytes@ && final(self).opened_earlier() == old(self).opened_earlier()
                    && r == Ok::<ReadEvent, CryptoError>(
                    if old(self).pending() is Some && s.pending is None {
                        ReadEvent::FrameOpened
                    } else {
                        ReadEvent::NeedMore
                    },
                ),
                Err(e) => r == Err::<ReadEvent, CryptoError>(e) && restarted(*old(self), *final(self)),
            },
            r != Ok::<ReadEvent, CryptoError>(ReadEvent::FrameOpened) ==> final(self).opened()
                == old(self).opened(),
            r == Ok::<ReadEvent, CryptoError>(ReadEvent::FrameOpened) ==> ({
                let frame = old(self).pending()->Some_0;
                let added = final(self).opened().skip(old(self).opened().len() as int);
                &&& old(self).pending() is Some
                &&& final(self).opened() == old(self).opened() + added
                &&& added.len() + TAG_LEN == frame.ciphertext_len
                &&& added.len() <= FRAME_PLAINTEXT_LEN
                &&& old(self).gathered() + bytes@ == chacha20poly1305_seal(
                    old(self).key_bytes(),
                    spec_counter_nonce(frame.nonce_counter),
                    added,
                )
            }),
    {
        let ghost key = self.key_bytes();
        let ghost before = self.state();
        let ghost opened = self.opened();
        proof {
            lemma_scan_wants_more(key, self.start(), self.consumed());
            assert(self.buffered().len() + self.delivered() == opened.len());
        }
        if bytes.len() == 0 {
            if self.pending.is_some() {
                self.start_over(Ghost(opened));
                return Err(CryptoError::TruncatedFrame);
            }
            if self.header.len() > 0 {
                self.start_over(Ghost(opened));
                return Err(CryptoError::TruncatedHeader);
            }
            return Ok(ReadEvent::EndOfStream);
        }
        proof {
            lemma_scan_advance(key, self.start(), self.consumed(), bytes@);
        }
        let ghost fed = self.consumed() + bytes@;
        match self.pending {
            None => {
                append_bytes(&mut self.header, bytes);
                if self.header.len() < HEADER_LEN {
                    self.consumed = Ghost(fed);
                    return Ok(ReadEvent::NeedMore);
                }
                let plaintext_len = u32_from_le_bytes(self.header.as_slice()) as usize;
                if plaintext_len > FRAME_PLAINTEXT_LEN {
                    self.start_over(Ghost(opened));
                    return Err(CryptoError::FrameTooLarge);
                }
                let nonce_counter = self.frame_counter;
                let next_counter = match nonce_counter.checked_add(1) {
                    Some(next) => next,
                    None => {
                        self.start_over(Ghost(opened));
                        return Err(CryptoError::FrameCounterOverflow);
                    },
                };
                self.frame_counter = next_counter;
                self.header = Vec::new();
                self.pending = Some(
                    PendingFrame { nonce_counter, ciphertext_len: plaintext_len + TAG_LEN },
                );
                self.ciphertext = Vec::new();
                self.consumed = Ghost(fed);
                Ok(ReadEvent::NeedMore)
            },
            Some(frame) => {
                append_bytes(&mut self.ciphertext, bytes);
                if self.ciphertext.len() < frame.ciphertext_len {
                    self.consumed = Ghost(fed);
                    return Ok(ReadEvent::NeedMore);
                }
                let nonce = counter_nonce(frame.nonce_counter);
                let plaintext = match open(&self.key, &nonce, self.ciphertext.as_slice()) {
                    Ok(p) => p,
                    Err(_) => {
                        self.start_over(Ghost(opened));
                        return Err(CryptoError::Decryption);
                    },
                };
                let ghost queued = self.internal_buffer@;
                queue_bytes(&mut self.internal_buffer, &plaintext);
                self.pending = None;
                self.ciphertext = Vec::new();
                self.consumed = Ghost(fed);
                proof {
                    assert(self.opened() =~= opened + plaintext@);
                    assert(self.opened().skip(opened.len() as int) =~= plaintext@);
                    assert(self.buffered() =~= self.opened().skip(self.delivered() as int));
                }
                Ok(ReadEvent::FrameOpened)
            },
        }
    }

    /// Moves up to `buf.len()` buffered bytes, oldest first, to the front of
    /// `buf` and returns how many it moved; they are the next bytes of the
    /// opened plaintext.
    pub fn consume_buffer(&mut self, buf: &mut [u8]) -> (n: usize)
        requires
            old(self).inv(),
        ensures
            final(self).inv(),
            n == if old(buf)@.len() < old(self).buffered().len() {
                old(buf)@.len()
            } else {
                old(self).buffered().len()
            },
            final(buf)@ == old(self).buffered().take(n as int) + old(buf)@.skip(n as int),
            final(self).buffered() == old(self).buffered().skip(n as int),
            final(self).delivered() == old(self).delivered() + n,
            final(self).handed_out() == old(self).handed_out() + final(buf)@.take(n as int),
            final(self).key_bytes() == old(self).key_bytes(),
            final(self).counter() == old(self).counter(),
            final(self).start() == old(self).start(),
            final(self).consumed() == old(self).consumed(),
            final(self).opened_earlier() == old(self).opened_earlier(),
    {
        let to_read = if buf.len() < self.internal_buffer.len() {
            buf.len()
        } else {
            self.internal_buffer.len()
        };
        let ghost queued = self.internal_buffer@;
        let ghost original = buf@;
        let ghost opened = self.opened();
        let ghost delivered = self.delivered();
        let mut i: usize = 0;
        while i < to_read
            invariant
                to_read <= queued.len(),
                to_read <= original.len(),
                i <= to_read,
                buf@.len() == original.len(),
                self.internal_buffer@ == queued.skip(i as int),
                buf@ == queued.take(i as int) + original.skip(i as int),
                self.key == old(self).key,
                self.frame_counter == old(self).frame_counter,
                self.header == old(self).header,
                self.pending == old(self).pending,
                self.ciphertext == old(self).ciphertext,
                self.start == old(self).start,
                self.consumed == old(self).consumed,
                self.opened_earlier == old(self).opened_earlier,
                self.delivered == old(self).delivered,
            decreases to_read - i,
        {
            let byte = match self.internal_buffer.pop_front() {
                Some(b) => b,
                None => {
                    proof {
                        assert(false);
                    }
                    0u8
                },
            };
            buf[i] = byte;
            proof {
                assert(byte == queued[i as int]);
                assert(self.internal_buffer@ =~= queued.skip(i + 1));
                assert(buf@ =~= queued.take(i + 1) + original.skip(i + 1));
            }
            i = i + 1;
        }
        self.delivered = Ghost(delivered + to_read as nat);
        proof {
            assert(self.opened() == opened);
            assert(queued =~= opened.skip(delivered as int));
            assert(self.buffered() =~= opened.skip(self.delivered() as int));
            assert(buf@.take(to_read as int) =~= queued.take(to_read as int));
            assert(self.handed_out() =~= opened.take(delivered as int) + queued.take(
                to_read as int,
            ));
        }
        to_read
    }
}

/// Fed a stream that decodes, from a fresh reader, the reader has opened
/// exactly the decoded plaintext, ends between frames (so the end of the
/// source is a clean end of stream), and once its buffer is drained it has
/// handed out exactly that plaintext.
pub proof fn lemma_read_round_trip(reader: CryptoReader, stream: Seq<u8>)
    requires
        reader.inv(),
        reader.start() == 0,
        reader.opened_earlier() == Seq::<u8>::empty(),
        reader.consumed() == stream,
        decode_frames(reader.key_bytes(), 0, stream) is Some,
    ensures
        reader.opened() == decode_frames(reader.key_bytes(), 0, stream)->Some_0.0,
        reader.header_bytes().len() == 0,
        reader.pending() is None,
        reader.buffered().len() == 0 ==> reader.handed_out() == decode_frames(
            reader.key_bytes(),
            0,
            stream,
        )->Some_0.0,
{
    lemma_scan_whole_frames(reader.key_bytes(), 0, stream);
    assert(reader.opened() =~= reader.state().opened);
    if reader.buffered().len() == 0 {
        assert(reader.opened().take(reader.delivered() as int) =~= reader.opened());
    }
}

} // verus!
