//! Identity of a connection and the checks the account/session layer runs
//! before the gateway hands a connection to the core.

use vstd::prelude::*;
use vstd::string::StringExecFns;

verus! {

/// Who a connection speaks for: a signed-in account, or an anonymous guest.
#[derive(Clone, Copy, PartialEq, Eq, Structural, Debug)]
pub enum Identity {
    Authenticated(i64),
    Anonymous,
}

/// Claims of a decoded OpenID token, as the login flow hands them over.
pub struct IdToken {
    pub iss: String,
    pub sub: String,
    pub azp: String,
    pub aud: String,
    pub iat: String,
    pub exp: String,
    pub hd: Option<String>,
    pub email: Option<String>,
    pub email_verified: Option<String>,
    pub name: Option<String>,
    pub picture: Option<String>,
    pub given_name: Option<String>,
    pub family_name: Option<String>,
    pub locale: Option<String>,
}

/// Why a stored login session was rejected.
#[derive(Clone, Copy, PartialEq, Eq, Structural, Debug)]
pub enum DbError {
    SessionExpired,
    AccessTokenInvalid,
    AccountIdInvalid,
}

/// Decides whether a stored login session still authenticates a request.
///
/// Checked in this order: an expired session is rejected first, then a token
/// mismatch, then an account-id mismatch; a session passing all three is
/// accepted.
pub fn validate_session(
    now: i64,
    expires_at: i64,
    stored_token: &String,
    token: &String,
    stored_account_id: &String,
    account_id: &String,
) -> (r: Result<(), DbError>)
    ensures
        r == Ok::<(), DbError>(()) <==> (now < expires_at && stored_token@ == token@
            && stored_account_id@ == account_id@),
        r == Err::<(), DbError>(DbError::SessionExpired) <==> now >= expires_at,
        r == Err::<(), DbError>(DbError::AccessTokenInvalid) <==> (now < expires_at
            && stored_token@ != token@),
        r == Err::<(), DbError>(DbError::AccountIdInvalid) <==> (now < expires_at
            && stored_token@ == token@ && stored_account_id@ != account_id@),
{
    if now >= expires_at {
        return Err(DbError::SessionExpired);
    }
    if !(*stored_token == *token) {
        return Err(DbError::AccessTokenInvalid);
    }
    if !(*stored_account_id == *account_id) {
        return Err(DbError::AccountIdInvalid);
    }
    Ok(())
}

/// What a login flow reports back to an authorized user.
pub struct AuthorizedUserMessage {
    pub username: Option<String>,
    pub code: u8,
    pub message: Option<String>,
}

/// The display tag of an account: its name and discriminator, joined by a
/// number sign.
pub fn display_tag(username: &str, discriminator: &str) -> (r: String)
    ensures
        r@ == username@ + seq!['#'] + discriminator@,
{
    proof {
        reveal_strlit("#");
    }
    let mut out = String::from_str(username);
    out.append("#");
    out.append(discriminator);
    out
}

/// The body a login flow answers with once the identity provider accepted
/// the code.
pub fn authorized_user_message(username: Option<String>) -> (r: AuthorizedUserMessage)
    ensures
        r.code == 1,
        r.username == username,
        r.message is None,
{
    AuthorizedUserMessage { username, code: 1, message: None }
}

/// When a login session granted at `now` for `expires_in` seconds lapses;
/// `None` when the sum leaves the representable range.
pub fn session_expiry(now: i64, expires_in: i64) -> (r: Option<i64>)
    ensures
        i64::MIN <= now + expires_in <= i64::MAX ==> r == Some((now + expires_in) as i64),
        !(i64::MIN <= now + expires_in <= i64::MAX) ==> r is None,
{
    now.checked_add(expires_in)
}

} // verus!
