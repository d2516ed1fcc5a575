//! The password rules of the command line: where a password comes from and
//! when a new one is accepted.
use vstd::prelude::*;

verus! {

/// Why a new password was refused.
#[derive(Debug, Clone, Copy, PartialEq, Eq, Structural)]
pub enum PasswordError {
    /// The password is empty.
    Empty,
    /// The confirmation differs from the password.
    Mismatch,
}

/// The password that an environment variable holding `value` supplies: an
/// empty value counts as unset.
pub open spec fn env_password(value: Option<Seq<char>>) -> Option<Seq<char>> {
    match value {
        Some(v) => if v.len() > 0 {
            Some(v)
        } else {
            None
        },
        None => None,
    }
}

/// Any non-empty environment value is the password, whatever its length; an
/// empty value, or none, leaves the password to be asked for.
pub proof fn lemma_env_password_nonempty(v: Seq<char>)
    ensures
        v.len() > 0 ==> env_password(Some(v)) == Some(v),
        v.len() == 0 ==> env_password(Some(v)) is None,
        env_password(None) is None,
{
}

/// The view of an optional string.
pub open spec fn opt_view(value: Option<String>) -> Option<Seq<char>> {
    match value {
        Some(v) => Some(v@),
        None => None,
    }
}

/// Keeps the environment variable's value unless it is empty.
pub fn password_from_env(value: Option<String>) -> (r: Option<String>)
    ensures
        opt_view(r) == env_password(opt_view(value)),
        r is Some <==> (value is Some && value->0@.len() > 0),
        r is Some ==> opt_view(r) == opt_view(value),
{
    match value {
        Some(v) => if v.as_str().is_empty() {
            None
        } else {
            Some(v)
        },
        None => None,
    }
}

/// Picks the password without asking: the flag's value first, then a
/// non-empty environment value. `None` means the user must be asked.
pub fn resolve_password(provided: Option<&str>, env_value: Option<String>) -> (r: Option<String>)
    ensures
        provided matches Some(p) ==> opt_view(r) == Some(p@),
        provided is None ==> opt_view(r) == env_password(opt_view(env_value)),
        provided is None ==> (r is Some <==> (env_value is Some && env_value->0@.len() > 0)),
        provided is None && r is Some ==> opt_view(r) == opt_view(env_value),
{
    match provided {
        Some(p) => Some(p.to_owned()),
        None => password_from_env(env_value),
    }
}

/// A password typed for a new archive must not be empty.
pub fn check_new_password(password: &str) -> (r: Result<(), PasswordError>)
    ensures
        r is Ok <==> password@.len() > 0,
        r matches Err(e) ==> e == PasswordError::Empty,
{
    if password.is_empty() {
        Err(PasswordError::Empty)
    } else {
        Ok(())
    }
}

/// The confirmation must repeat the password exactly.
pub fn check_confirmation(password: &str, confirmation: &str) -> (r: Result<(), PasswordError>)
    ensures
        r is Ok <==> password@ == confirmation@,
        r matches Err(e) ==> e == PasswordError::Mismatch,
{
    let first = password.to_owned();
    let second = confirmation.to_owned();
    if first == second {
        Ok(())
    } else {
        Err(PasswordError::Mismatch)
    }
}

} // verus!
