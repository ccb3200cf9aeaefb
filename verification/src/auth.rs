//! The decision half of authentication.
//!
//! Fetching a session or querying an identity provider is I/O and lives
//! outside the library; what is verified here is the data it hands
//! back: how a user's account name is formed, and whether that name is
//! on the list of accounts with permission.

use vstd::prelude::*;
use vstd::string::StringExecFns;
use crate::error::AppError;
use crate::text::contains_str;

verus! {

/// An authenticated user as the identity provider reports it.
#[derive(Clone, Debug, Hash)]
pub struct AuthUser {
    pub id: String,
    pub avatar: Option<String>,
    pub username: String,
    pub discriminator: String,
}

/// A session user; same shape, delivered through a session store
/// instead of a bearer token.
#[derive(Clone, Debug)]
pub struct User {
    pub id: String,
    pub avatar: Option<String>,
    pub username: String,
    pub discriminator: String,
}

/// The rejection raised when a request carries no permitted user.
pub struct AuthRedirect;

/// Query parameters of the provider's redirect back to us.
pub struct AuthRequestQuery {
    pub code: String,
    pub state: String,
}

/// Query parameters of the login entry point.
pub struct AuthRequestParams {
    pub origin_uri: String,
}

/// `username#discriminator`.
pub open spec fn account_name_of(username: Seq<char>, discriminator: Seq<char>) -> Seq<char> {
    username + "#"@ + discriminator
}

impl AuthUser {
    /// The account name this user goes by: `username#discriminator`.
    pub fn account_name(&self) -> (r: String)
        ensures
            r@ == account_name_of(self.username@, self.discriminator@),
    {
        proof {
            reveal_strlit("#");
        }
        let mut s = self.username.clone();
        s.append("#");
        s.append(self.discriminator.as_str());
        s
    }
}

impl AuthUser {
    /// A bearer token for this user: the decimal rendering of an
    /// entropy word.  Gathering the entropy (hashing the user together
    /// with the clock) is the caller's unverified business; turning it
    /// into the token text is exact.
    pub fn generate_access_token(&self, entropy: u64) -> (r: String)
        ensures
            r@ == crate::text::dec_str(entropy as int),
    {
        crate::text::i128_to_string(entropy as i128)
    }
}

impl User {
    /// The account name this user goes by: `username#discriminator`.
    pub fn account_name(&self) -> (r: String)
        ensures
            r@ == account_name_of(self.username@, self.discriminator@),
    {
        proof {
            reveal_strlit("#");
        }
        let mut s = self.username.clone();
        s.append("#");
        s.append(self.discriminator.as_str());
        s
    }
}

/// Whether `user`'s account name is on the list of accounts with
/// permission; `Forbidden` exactly when it is not.
pub fn check_permission(user: &AuthUser, accounts_with_permission: &Vec<String>) -> (r: Result<
    (),
    AppError,
>)
    ensures
        r is Ok <==> contains_str(
            accounts_with_permission@,
            account_name_of(user.username@, user.discriminator@),
        ),
        r is Err ==> r->Err_0 is Forbidden,
{
    let name = user.account_name();
    let mut i: usize = 0;
    while i < accounts_with_permission.len()
        invariant
            0 <= i <= accounts_with_permission@.len(),
            name@ == account_name_of(user.username@, user.discriminator@),
            forall|k: int| 0 <= k < i ==> accounts_with_permission@[k]@ != name@,
        decreases accounts_with_permission@.len() - i,
    {
        if accounts_with_permission[i].eq(&name) {
            return Ok(());
        }
        i = i + 1;
    }
    Err(AppError::Forbidden)
}

/// The same decision for a session `User`, rejected with
/// `AuthRedirect` as the session extractor does.
pub fn authorize_user(user: &User, accounts_with_permission: &Vec<String>) -> (r: Result<
    (),
    AuthRedirect,
>)
    ensures
        r is Ok <==> contains_str(
            accounts_with_permission@,
            account_name_of(user.username@, user.discriminator@),
        ),
{
    let name = user.account_name();
    let mut i: usize = 0;
    while i < accounts_with_permission.len()
        invariant
            0 <= i <= accounts_with_permission@.len(),
            name@ == account_name_of(user.username@, user.discriminator@),
            forall|k: int| 0 <= k < i ==> accounts_with_permission@[k]@ != name@,
        decreases accounts_with_permission@.len() - i,
    {
        if accounts_with_permission[i].eq(&name) {
            return Ok(());
        }
        i = i + 1;
    }
    Err(AuthRedirect)
}

} // verus!
