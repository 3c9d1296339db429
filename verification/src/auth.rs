//! Session-status resolution and credential-form checks. The auth
//! endpoints themselves are collaborators outside this engine; only the
//! decisions they feed are modelled here.

use vstd::prelude::*;
use vstd::string::StringSliceAdditionalSpecFns;
use crate::text;

verus! {

/// The three states the client's view tree switches on.
#[derive(Clone, Copy, PartialEq, Eq, Structural, Debug)]
pub enum AuthStatus {
    Checking,
    Authenticated,
    Unauthenticated,
}

/// Decides the session state once the boot-time token refresh resolves: a
/// successful refresh authenticates; otherwise a non-empty stored access
/// token keeps the user signed in; else the sign-in screen shows.
pub fn resolve_session(refresh_ok: bool, stored_token: Option<&str>) -> (r: AuthStatus)
    ensures
        r == if refresh_ok {
            AuthStatus::Authenticated
        } else if stored_token matches Some(t) && t@.len() > 0 {
            AuthStatus::Authenticated
        } else {
            AuthStatus::Unauthenticated
        },
{
    if refresh_ok {
        return AuthStatus::Authenticated;
    }
    match stored_token {
        Some(t) if !t.is_empty() => AuthStatus::Authenticated,
        _ => AuthStatus::Unauthenticated,
    }
}

/// The Authorization header a ledger request carries: a bearer credential
/// built from the stored access token whenever one is present, nothing
/// otherwise.
pub fn bearer_header(stored_token: Option<&str>) -> (r: Option<String>)
    ensures
        match stored_token {
            Some(t) => r matches Some(h) && h@ == "Bearer "@ + t@,
            None => r is None,
        },
{
    match stored_token {
        Some(t) => {
            let mut h = String::new();
            h.append("Bearer ");
            h.append(t);
            proof {
                assert(h@ =~= "Bearer "@ + t@);
            }
            Some(h)
        },
        None => None,
    }
}

/// Checks the credential form before any request goes out: both fields
/// present, the password at least eight bytes, and, when registering, the
/// confirmation matching. `None` means the form may be submitted.
pub fn validate_credentials(email: &str, password: &str, confirm: &str, is_login: bool) -> (r:
    Option<String>)
    ensures
        ({
            if email@.len() == 0 || password@.len() == 0 {
                r matches Some(m) && m@ == "Email and password are required"@
            } else if password.spec_bytes().len() < 8 {
                r matches Some(m) && m@ == "Password must be at least 8 characters"@
            } else if !is_login && password@ != confirm@ {
                r matches Some(m) && m@ == "Passwords do not match"@
            } else {
                r is None
            }
        }),
{
    if email.is_empty() || password.is_empty() {
        return Some("Email and password are required".to_owned());
    }
    if password.as_bytes().len() < 8 {
        return Some("Password must be at least 8 characters".to_owned());
    }
    if !is_login && !text::str_eq(password, confirm) {
        return Some("Passwords do not match".to_owned());
    }
    None
}

} // verus!
