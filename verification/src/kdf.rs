//! Key derivation (Argon2id) and the public salt.
use argon2::{Algorithm, Argon2, Params, Version};
use zeroize::Zeroizing;
use vstd::prelude::*;
use vstd::string::StringSliceAdditionalSpecFns;

use crate::error::CryptoError;
use crate::frame::{KEY_LEN, SALT_LEN};

verus! {

#[verifier::external_type_specification]
#[verifier::external_body]
pub struct ExArgon2Error(argon2::Error);

/// A derived key, held in a `zeroize::Zeroizing` buffer that overwrites the
/// bytes with zeros when the key is dropped.
///
/// Trusted: Verus sees nothing inside; `secret_bytes` names the bytes, and the
/// items of this crate that make or read a key (`argon2id_hash`, `seal`,
/// `open`) speak of them.
#[verifier::external_body]
#[derive(PartialEq, Eq)]
pub struct SecretKey {
    pub(crate) bytes: Zeroizing<Vec<u8>>,
}

/// The bytes a key holds.
pub uninterp spec fn secret_bytes(key: SecretKey) -> Seq<u8>;

/// Argon2id memory cost in KiB (64 MiB).
pub const ARGON2_M_COST: u32 = 65536;

/// Argon2id passes. An offline archiving tool can afford a high count.
pub const ARGON2_T_COST: u32 = 8;

/// Argon2id lanes.
pub const ARGON2_P_COST: u32 = 1;

/// The `out_len`-byte output of Argon2id, version 0x13, with the given costs,
/// password and salt, and no secret or associated data.
pub uninterp spec fn argon2id_v13_hash(
    m_cost: u32,
    t_cost: u32,
    p_cost: u32,
    out_len: usize,
    password: Seq<u8>,
    salt: Seq<u8>,
) -> Seq<u8>;

/// The inputs that the argon2 crate accepts: the bounds its `Params::new`
/// and `Argon2::hash_password_into` check.
pub open spec fn argon2_accepts(
    m_cost: u32,
    t_cost: u32,
    p_cost: u32,
    out_len: usize,
    password_len: nat,
    salt_len: nat,
) -> bool {
    &&& m_cost >= 8
    &&& m_cost >= 8 * p_cost
    &&& t_cost >= 1
    &&& p_cost >= 1
    &&& p_cost <= 0xff_ffff
    &&& 4 <= out_len <= 0xffff_ffff
    &&& password_len <= 0xffff_ffff
    &&& 8 <= salt_len <= 0xffff_ffff
}

/// Runs `Params::new`, `Argon2::new(Algorithm::Argon2id, Version::V0x13, ..)`
/// and `Argon2::hash_password_into` (crate argon2) into a fresh buffer of
/// `out_len` bytes, held in a `Zeroizing` (crate zeroize).
///
/// Trusted: the crate's source returns an error exactly when one of the
/// bounds of `argon2_accepts` is broken, and otherwise fills the buffer with
/// the Argon2id output; `Zeroizing::new` keeps the buffer's bytes.
#[verifier::external_body]
fn argon2id_hash(
    m_cost: u32,
    t_cost: u32,
    p_cost: u32,
    out_len: usize,
    password: &[u8],
    salt: &[u8],
) -> (r: Result<SecretKey, argon2::Error>)
    requires
        8 * p_cost <= u32::MAX,
    ensures
        r is Ok <==> argon2_accepts(m_cost, t_cost, p_cost, out_len, password@.len(), salt@.len()),
        r matches Ok(k) ==> secret_bytes(k) == argon2id_v13_hash(
            m_cost,
            t_cost,
            p_cost,
            out_len,
            password@,
            salt@,
        ),
        r matches Ok(k) ==> secret_bytes(k).len() == out_len,
{
    let params = Params::new(m_cost, t_cost, p_cost, Some(out_len))?;
    let mut out = Zeroizing::new(vec![0u8; out_len]);
    Argon2::new(Algorithm::Argon2id, Version::V0x13, params).hash_password_into(
        password,
        salt,
        &mut out,
    )?;
    Ok(SecretKey { bytes: out })
}

/// The key that the password and salt give.
pub open spec fn spec_derive_key(password: Seq<u8>, salt: Seq<u8>) -> Seq<u8> {
    argon2id_v13_hash(ARGON2_M_COST, ARGON2_T_COST, ARGON2_P_COST, KEY_LEN, password, salt)
}

/// The stream key is the 32-byte Argon2id (version 0x13) output over the
/// password and the whole salt, with 64 MiB of memory, eight passes and one
/// lane.
pub proof fn lemma_derive_key_parameters(password: Seq<u8>, salt: Seq<u8>)
    ensures
        spec_derive_key(password, salt) == argon2id_v13_hash(65536, 8, 1, 32, password, salt),
{
}

/// Derives the 32-byte stream key from the password (its UTF-8 bytes) and the
/// salt. Only a password longer than `u32::MAX` bytes is refused.
pub fn derive_key(password: &str, salt: &[u8; SALT_LEN]) -> (r: Result<SecretKey, CryptoError>)
    ensures
        r is Ok <==> password.spec_bytes().len() <= 0xffff_ffff,
        r matches Ok(k) ==> secret_bytes(k) == spec_derive_key(password.spec_bytes(), salt@),
        r matches Ok(k) ==> secret_bytes(k) == argon2id_v13_hash(
            ARGON2_M_COST,
            ARGON2_T_COST,
            ARGON2_P_COST,
            KEY_LEN,
            password.spec_bytes(),
            salt@,
        ),
        r matches Ok(k) ==> secret_bytes(k).len() == KEY_LEN,
        r matches Err(e) ==> e == CryptoError::KeyDerivation,
{
    match argon2id_hash(
        ARGON2_M_COST,
        ARGON2_T_COST,
        ARGON2_P_COST,
        KEY_LEN,
        password.as_bytes(),
        salt.as_slice(),
    ) {
        Ok(key) => Ok(key),
        Err(_) => Err(CryptoError::KeyDerivation),
    }
}

/// Draws the 32-byte public salt with `rand::random` (crate rand).
///
/// Trusted: nothing is promised of the bytes.
#[verifier::external_body]
pub fn generate_salt() -> [u8; SALT_LEN] {
    rand::random()
}

} // verus!
