use riftx::{
    counter_nonce, derive_key, CryptoError, CryptoReader, CryptoWriter, ReadEvent, SecretKey,
};

const SALT: [u8; 32] = [7u8; 32];

// Argon2id with the archive's costs is slow in an unoptimised build, so each
// test derives as few keys as it can, and two at a time in parallel.
fn key(password: &str) -> SecretKey {
    derive_key(password, &SALT).unwrap()
}

fn two_keys(a: &str, b: &str) -> (SecretKey, SecretKey) {
    rayon::join(|| key(a), || key(b))
}

fn writer_and_reader(password: &str) -> (CryptoWriter, CryptoReader) {
    let (a, b) = two_keys(password, password);
    (CryptoWriter::with_key(a), CryptoReader::with_key(b))
}

/// Feeds a whole encrypted stream to the reader in pieces of at most
/// `piece` bytes (and what it wants), draining the plaintext after each frame,
/// up to the end of the stream.
fn open_stream_in_pieces(
    reader: &mut CryptoReader,
    stream: &[u8],
    piece: usize,
) -> Result<Vec<u8>, CryptoError> {
    let mut pos = 0;
    let mut plaintext = Vec::new();
    loop {
        let n = reader.wanted().min(piece).min(stream.len() - pos);
        let event = reader.supply(&stream[pos..pos + n])?;
        pos += n;
        let mut buf = [0u8; 4096];
        loop {
            let got = reader.consume_buffer(&mut buf);
            if got == 0 {
                break;
            }
            plaintext.extend_from_slice(&buf[..got]);
        }
        if event == ReadEvent::EndOfStream {
            return Ok(plaintext);
        }
    }
}

fn open_stream(reader: &mut CryptoReader, stream: &[u8]) -> Result<Vec<u8>, CryptoError> {
    open_stream_in_pieces(reader, stream, usize::MAX)
}

fn sample(len: usize) -> Vec<u8> {
    (0..len).map(|i| (i * 31 % 251) as u8).collect()
}

#[test]
fn round_trip_across_frame_sizes() {
    let (mut writer, mut reader) = writer_and_reader("correct_password");
    let mut stream = Vec::new();
    let inputs = [sample(13), sample(65536), sample(100_000), sample(3 * 65536 + 10)];
    for input in inputs.iter() {
        let (bytes, status) = writer.write(input);
        assert_eq!(status, Ok(input.len()));
        stream.extend_from_slice(&bytes);
    }
    let expected: Vec<u8> = inputs.concat();
    assert_eq!(open_stream(&mut reader, &stream).unwrap(), expected);
}

#[test]
fn wrong_password_is_rejected_by_the_reader() {
    let (right, wrong) = two_keys("correct_password", "wrong_password");
    let mut writer = CryptoWriter::with_key(right);
    let (stream, status) = writer.write(b"top secret");
    assert_eq!(status, Ok(10));
    let mut reader = CryptoReader::with_key(wrong);
    assert_eq!(open_stream(&mut reader, &stream), Err(CryptoError::Decryption));
}

#[test]
fn nonce_is_little_endian_counter_padded_with_zeros() {
    assert_eq!(
        counter_nonce(0x0102_0304_0506_0708),
        [8, 7, 6, 5, 4, 3, 2, 1, 0, 0, 0, 0]
    );
    assert_eq!(counter_nonce(0), [0u8; 12]);
}

#[test]
fn reader_events_and_truncation() {
    let (mut writer, mut reader) = writer_and_reader("pw");
    let (stream, _) = writer.write(b"0123456789");
    assert_eq!(reader.wanted(), 4);
    assert_eq!(reader.supply(&[]), Ok(ReadEvent::EndOfStream));
    assert_eq!(reader.supply(&stream[..3]), Ok(ReadEvent::NeedMore));
    assert_eq!(reader.wanted(), 1);
    assert_eq!(reader.supply(&[]), Err(CryptoError::TruncatedHeader));
    // After starting over the reader wants a whole header again.
    assert_eq!(reader.wanted(), 4);
    assert_eq!(reader.supply(&stream[..4]), Ok(ReadEvent::NeedMore));
    assert!(reader.gathering_ciphertext());
    assert_eq!(reader.wanted(), 26);
    assert_eq!(reader.supply(&stream[4..10]), Ok(ReadEvent::NeedMore));
    assert_eq!(reader.supply(&[]), Err(CryptoError::TruncatedFrame));
    assert!(!reader.gathering_ciphertext());
}

#[test]
fn a_failed_source_drops_the_partial_frame() {
    let (mut writer, mut reader) = writer_and_reader("pw");
    let (first, _) = writer.write(b"first");
    let (second, _) = writer.write(b"second");
    // The source fails in the middle of the first header.
    assert_eq!(reader.supply(&first[..2]), Ok(ReadEvent::NeedMore));
    reader.abandon_partial_frame();
    assert_eq!(reader.wanted(), 4);
    // Then in the middle of the first frame's ciphertext: its position is used up.
    assert_eq!(reader.supply(&first[..4]), Ok(ReadEvent::NeedMore));
    assert_eq!(reader.supply(&first[4..7]), Ok(ReadEvent::NeedMore));
    reader.abandon_partial_frame();
    assert!(!reader.gathering_ciphertext());
    assert_eq!(reader.wanted(), 4);
    // The next frame is read at the next position.
    assert_eq!(open_stream(&mut reader, &second).unwrap(), b"second".to_vec());
}

#[test]
fn same_password_and_salt_give_the_same_key() {
    let (a, b) = two_keys("pw", "pw");
    assert!(a == b);
}

#[test]
fn another_password_gives_another_key() {
    let (a, b) = two_keys("pw", "pw2");
    assert!(a != b);
}

#[test]
fn another_salt_gives_another_key() {
    let (a, b) = rayon::join(|| key("pw"), || derive_key("pw", &[8u8; 32]).unwrap());
    assert!(a != b);
}

#[test]
fn one_large_write_gives_the_frames_of_many_small_ones() {
    let data = sample(3 * 65536 + 10);
    let (k1, k2) = two_keys("pw", "pw");
    let mut at_once = CryptoWriter::with_key(k1);
    let (parallel, status) = at_once.write(&data);
    assert_eq!(status, Ok(data.len()));

    let mut piecewise = CryptoWriter::with_key(k2);
    let mut sequential = Vec::new();
    for piece in data.chunks(65536) {
        let (bytes, status) = piecewise.write(piece);
        assert_eq!(status, Ok(piece.len()));
        sequential.extend_from_slice(&bytes);
    }
    assert_eq!(parallel, sequential);
    assert_eq!(parallel.len(), 4 * (4 + 16) + data.len());
}

#[test]
fn frame_layout_is_length_then_sealed_bytes() {
    let mut writer = CryptoWriter::with_key(key("pw"));
    let plaintext = b"Hello, RiftX!";
    let (frame, status) = writer.write(plaintext);
    assert_eq!(status, Ok(13));
    assert_eq!(frame.len(), 4 + 13 + 16);
    assert_eq!(&frame[..4], &[13, 0, 0, 0]);
    assert_ne!(&frame[4..17], &plaintext[..]);

    // 100 000 bytes: one full frame, then the remaining 34 464 bytes.
    let (two, status) = writer.write(&sample(100_000));
    assert_eq!(status, Ok(100_000));
    assert_eq!(&two[..4], &[0, 0, 1, 0]);
    let second = 4 + 65536 + 16;
    assert_eq!(&two[second..second + 4], &34464u32.to_le_bytes());
    assert_eq!(two.len(), second + 4 + 34464 + 16);
}

#[test]
fn empty_write_emits_nothing() {
    let mut writer = CryptoWriter::new("pw", &SALT).unwrap();
    let (bytes, status) = writer.write(&[]);
    assert!(bytes.is_empty());
    assert_eq!(status, Ok(0));
}

#[test]
fn oversized_frame_header_is_refused() {
    let mut reader = CryptoReader::new("pw", &SALT).unwrap();
    assert!(reader.buffer_is_empty());
    assert_eq!(reader.supply(&[1, 0, 1, 0]), Err(CryptoError::FrameTooLarge));
    assert_eq!(reader.supply(&[0, 0, 1, 0]), Ok(ReadEvent::NeedMore));
    assert_eq!(reader.wanted(), 65536 + 16);
}

#[test]
fn one_byte_at_a_time_reads_the_same() {
    let (mut writer, mut reader) = writer_and_reader("pw");
    let data = sample(70_000);
    let (stream, _) = writer.write(&data);
    assert_eq!(open_stream_in_pieces(&mut reader, &stream, 1).unwrap(), data);
}

#[test]
fn tampered_frame_is_rejected() {
    let (mut writer, mut reader) = writer_and_reader("pw");
    let (mut stream, _) = writer.write(b"first frame");
    let last = stream.len() - 1;
    stream[last] ^= 1;
    assert_eq!(open_stream(&mut reader, &stream), Err(CryptoError::Decryption));
}

#[test]
fn reordered_frames_are_rejected() {
    let (mut writer, mut reader) = writer_and_reader("pw");
    let (first, _) = writer.write(b"first frame");
    let (second, _) = writer.write(b"second frame");
    let mut swapped = second.clone();
    swapped.extend_from_slice(&first);
    assert_eq!(open_stream(&mut reader, &swapped), Err(CryptoError::Decryption));
}

#[test]
fn consume_buffer_hands_out_bytes_in_order() {
    let (mut writer, mut reader) = writer_and_reader("pw");
    let (stream, _) = writer.write(b"0123456789");
    assert!(reader.buffer_is_empty());
    assert_eq!(reader.supply(&stream[..4]), Ok(ReadEvent::NeedMore));
    assert_eq!(reader.supply(&stream[4..]), Ok(ReadEvent::FrameOpened));
    assert!(!reader.buffer_is_empty());
    let mut buf = [0xffu8; 4];
    assert_eq!(reader.consume_buffer(&mut buf), 4);
    assert_eq!(&buf, b"0123");
    assert_eq!(reader.consume_buffer(&mut buf), 4);
    assert_eq!(&buf, b"4567");
    assert_eq!(reader.consume_buffer(&mut buf), 2);
    assert_eq!(&buf, b"8967");
    assert_eq!(reader.consume_buffer(&mut buf), 0);
    assert!(reader.buffer_is_empty());
    assert_eq!(reader.supply(&[]), Ok(ReadEvent::EndOfStream));
}

#[test]
fn salts_are_drawn_fresh() {
    assert_ne!(riftx::generate_salt(), riftx::generate_salt());
}
