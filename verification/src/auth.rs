//! Account and bank-record data shapes, and the validation the
//! registration and login requests must pass before any credential
//! work happens.
//!
//! Password hashing and token issuance are outside the core; the
//! driver performs them and only their outcomes reach the session
//! machine.

use vstd::prelude::*;
use vstd::string::StrSliceExecFns;
use crate::errors::EngineError;

verus! {

/// A registration submission.
pub struct RegisterRequest {
    pub email: String,
    pub username: String,
    pub password: String,
}

/// A login submission.
pub struct LoginRequest {
    pub email: String,
    pub password: String,
}

/// A successful login reply.
pub struct LoginResponse {
    pub token: String,
    pub id: i64,
    pub email: String,
    pub username: String,
}

/// A bare issued-token reply.
pub struct AuthResponse {
    pub token: String,
}

/// An error reply body.
pub struct ErrorResponse {
    pub error: String,
}

/// A reply that is either a payload or an error body.
pub enum AuthApiResponse<T> {
    Success(T),
    Error(ErrorResponse),
}

/// A profile update: each field changes only when given.
pub struct UpdateUserRequest {
    pub username: Option<String>,
    pub email: Option<String>,
}

/// A user's bank record.
pub struct BankList {
    pub id: i64,
    pub user_id: i64,
    pub bank_name: String,
    pub account_number: String,
    pub account_name: String,
}

/// Whether the characters form a well-formed email address; fixed by
/// the characters alone.
pub uninterp spec fn is_valid_email(s: Seq<char>) -> bool;

/// Relies on validator::ValidateEmail for String: the verdict is a
/// function of the characters alone.
#[verifier::external_body]
fn email_ok(s: &String) -> (r: bool)
    ensures
        r == is_valid_email(s@),
{
    validator::ValidateEmail::validate_email(s)
}

/// Validates a registration: a well-formed email, a username of at
/// least three characters, a password of at least six.  Exactly the
/// requests meeting all three pass.
pub fn validate_register(req: &RegisterRequest) -> (r: Result<(), EngineError>)
    ensures
        (is_valid_email(req.email@) && req.username@.len() >= 3 && req.password@.len() >= 6) <==> r
            is Ok,
        r is Err ==> r == Err::<(), EngineError>(EngineError::Validation),
{
    if !email_ok(&req.email) {
        return Err(EngineError::Validation);
    }
    if req.username.as_str().unicode_len() < 3 {
        return Err(EngineError::Validation);
    }
    if req.password.as_str().unicode_len() < 6 {
        return Err(EngineError::Validation);
    }
    Ok(())
}

/// Validates a login: a well-formed email and a password of at least
/// six characters.  Exactly the requests meeting both pass.
pub fn validate_login(req: &LoginRequest) -> (r: Result<(), EngineError>)
    ensures
        (is_valid_email(req.email@) && req.password@.len() >= 6) <==> r is Ok,
        r is Err ==> r == Err::<(), EngineError>(EngineError::Validation),
{
    if !email_ok(&req.email) {
        return Err(EngineError::Validation);
    }
    if req.password.as_str().unicode_len() < 6 {
        return Err(EngineError::Validation);
    }
    Ok(())
}

} // verus!
