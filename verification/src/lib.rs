//! Encrypted archive framing: key derivation, counter nonces, the
//! length-prefixed ChaCha20-Poly1305 frame format, and the decisions of the
//! command line front end.

pub mod aead;
pub mod error;
pub mod frame;
pub mod kdf;
pub mod notice;
pub mod password;
pub mod paths;
pub mod progress;
pub mod reader;
pub mod writer;

pub use error::CryptoError;
pub use frame::counter_nonce;
pub use kdf::{derive_key, generate_salt, SecretKey};
pub use notice::disclaimer;
pub use password::{
    check_confirmation, check_new_password, password_from_env, resolve_password, PasswordError,
};
pub use paths::{default_pack_output, default_unpack_output};
pub use progress::ByteCounter;
pub use reader::{CryptoReader, PendingFrame, ReadEvent};
pub use writer::CryptoWriter;
