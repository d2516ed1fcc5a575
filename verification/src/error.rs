use vstd::prelude::*;

verus! {

/// Why the encryption layer refused to go on.
#[derive(Debug, Clone, Copy, PartialEq, Eq, Structural)]
pub enum CryptoError {
    /// Argon2id refused its inputs (a password longer than `u32::MAX` bytes).
    KeyDerivation,
    /// Every frame position (`u64` counter) has been used.
    FrameCounterOverflow,
    /// The cipher refused to encrypt a frame.
    Encryption,
    /// A frame's plaintext is longer than its `u32` header can say.
    PlaintextTooLong,
    /// A frame header announces more than 64 KiB of plaintext.
    FrameTooLarge,
    /// The stream ended inside a frame header.
    TruncatedHeader,
    /// The stream ended inside a frame's ciphertext.
    TruncatedFrame,
    /// A frame's tag did not authenticate (wrong password or altered data).
    Decryption,
}

} // verus!
