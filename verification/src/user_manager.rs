//! The typestate session core: a user-account record statically tagged as
//! unauthorized or authorized. A value tagged `Unauthorized` exposes only a
//! login operation; one tagged `Authorized` exposes only logout and read-only
//! accessors. Transitions consume the old value and produce a fresh one, so a
//! stale handle cannot be replayed after a transition.

use vstd::prelude::*;

use crate::date::Date;
use crate::hashing::hash_password;
use crate::hashing::spec_password_digest;

verus! {

/// Marker tag for a session that has not passed a credential check.
#[derive(Clone, Copy)]
pub struct Unauthorized;

/// Marker tag for a session that has passed a credential check.
#[derive(Clone, Copy)]
pub struct Authorized;

/// The mathematical content of an account record. The record holds the
/// password digest and never the plaintext; authorization is recorded only in
/// the tag wrapped around the record, never in the record itself.
#[verifier::ext_equal]
pub struct AccountView {
    pub username: Seq<char>,
    pub email: Seq<char>,
    pub password_hash: Seq<char>,
    pub name: Seq<char>,
    pub birthday: Date,
}

impl AccountView {
    /// Well-formedness: the birthday is a real calendar date.
    pub open spec fn wf(self) -> bool {
        self.birthday.is_valid()
    }
}

/// An account record together with a compile-time witness of its
/// authorization tag. Which operations are callable is fixed by the tag.
pub struct UserManager<State = Unauthorized> {
    state: core::marker::PhantomData<State>,
    username: String,
    email: String,
    password_hash: String,
    name: String,
    birthday: Date,
}

impl<State> View for UserManager<State> {
    type V = AccountView;

    closed spec fn view(&self) -> AccountView {
        AccountView {
            username: self.username@,
            email: self.email@,
            password_hash: self.password_hash@,
            name: self.name@,
            birthday: self.birthday,
        }
    }
}

impl<State> UserManager<State> {
    /// Reassemble a record from its persisted fields. Only the persistence
    /// codec uses this; everything else must go through `new`, `login` and
    /// `logout`.
    pub(crate) fn from_stored(
        username: String,
        email: String,
        password_hash: String,
        name: String,
        birthday: Date,
    ) -> (r: UserManager<State>)
        ensures
            r@ == (AccountView {
                username: username@,
                email: email@,
                password_hash: password_hash@,
                name: name@,
                birthday,
            }),
    {
        UserManager {
            state: core::marker::PhantomData,
            username,
            email,
            password_hash,
            name,
            birthday,
        }
    }

    pub(crate) fn stored_username(&self) -> (r: &String)
        ensures
            r@ == self@.username,
    {
        &self.username
    }

    pub(crate) fn stored_email(&self) -> (r: &String)
        ensures
            r@ == self@.email,
    {
        &self.email
    }

    pub(crate) fn stored_password_hash(&self) -> (r: &String)
        ensures
            r@ == self@.password_hash,
    {
        &self.password_hash
    }

    pub(crate) fn stored_name(&self) -> (r: &String)
        ensures
            r@ == self@.name,
    {
        &self.name
    }

    pub(crate) fn stored_birthday(&self) -> (r: Date)
        ensures
            r == self@.birthday,
    {
        self.birthday
    }
}

impl<State> Clone for UserManager<State> {
    /// Cloning keeps every account field; the tag is part of the type.
    fn clone(&self) -> (r: Self)
        ensures
            r@ == self@,
    {
        UserManager {
            state: core::marker::PhantomData,
            username: self.username.clone(),
            email: self.email.clone(),
            password_hash: self.password_hash.clone(),
            name: self.name.clone(),
            birthday: self.birthday,
        }
    }
}

/// The session as a whole: exactly two variants, each wrapping an account.
pub enum UserState {
    Unauthorized(UserManager<Unauthorized>),
    Authorized(UserManager<Authorized>),
}

impl Clone for UserState {
    /// Cloning keeps the tag and every account field.
    fn clone(&self) -> (r: Self)
        ensures
            r@ == self@,
    {
        match self {
            UserState::Unauthorized(m) => UserState::Unauthorized(m.clone()),
            UserState::Authorized(m) => UserState::Authorized(m.clone()),
        }
    }
}

/// The mathematical content of a session: the tag and the account it wraps.
#[verifier::ext_equal]
pub enum StateView {
    Unauthorized(AccountView),
    Authorized(AccountView),
}

impl StateView {
    /// The wrapped account, whatever the tag.
    pub open spec fn account(self) -> AccountView {
        match self {
            StateView::Unauthorized(a) => a,
            StateView::Authorized(a) => a,
        }
    }

    /// Well-formedness of the wrapped account.
    pub open spec fn wf(self) -> bool {
        self.account().wf()
    }
}

impl View for UserState {
    type V = StateView;

    open spec fn view(&self) -> StateView {
        match self {
            UserState::Unauthorized(m) => StateView::Unauthorized(m@),
            UserState::Authorized(m) => StateView::Authorized(m@),
        }
    }
}

/// The one way a login can fail. It deliberately does not say whether the
/// email or the password was at fault, so a caller cannot probe which
/// accounts exist.
#[derive(Clone, Copy, PartialEq, Eq, Structural, Debug)]
pub enum AuthError {
    InvalidCredentials,
}

/// The fixed, non-discriminating message shown for any failed login.
pub open spec fn spec_invalid_credentials_message() -> Seq<char> {
    "Feil e-post eller passord"@
}

impl AuthError {
    /// The user-facing message: one constant string for every failure cause.
    pub fn message(&self) -> (r: &'static str)
        ensures
            r@ == spec_invalid_credentials_message(),
    {
        "Feil e-post eller passord"
    }
}

/// The account that creation builds: the given fields verbatim, except that
/// the password is replaced by its digest.
pub open spec fn spec_create(
    username: Seq<char>,
    email: Seq<char>,
    password: Seq<char>,
    name: Seq<char>,
    birthday: Date,
) -> AccountView {
    AccountView {
        username,
        email,
        password_hash: spec_password_digest(password),
        name,
        birthday,
    }
}

/// When a login attempt succeeds: the email matches the account's email and
/// the digest of the offered password matches the stored digest.
pub open spec fn spec_login_ok(account: AccountView, email: Seq<char>, password: Seq<char>) -> bool {
    email == account.email && spec_password_digest(password) == account.password_hash
}

/// What a login attempt yields: the same account under the `Authorized` tag
/// on success, `InvalidCredentials` otherwise.
pub open spec fn spec_login(account: AccountView, email: Seq<char>, password: Seq<char>) -> Result<
    StateView,
    AuthError,
> {
    if spec_login_ok(account, email, password) {
        Result::Ok(StateView::Authorized(account))
    } else {
        Result::Err(AuthError::InvalidCredentials)
    }
}

/// What logout yields: the same account under the `Unauthorized` tag. Total.
pub open spec fn spec_logout(account: AccountView) -> StateView {
    StateView::Unauthorized(account)
}

impl UserManager {
    /// Create an account. The result always carries the `Unauthorized` tag;
    /// the plaintext password is digested once and then dropped.
    pub fn new(username: String, email: String, password: String, name: String, birthday: Date) -> (r:
        UserState)
        requires
            birthday.is_valid(),
        ensures
            r@ == StateView::Unauthorized(spec_create(username@, email@, password@, name@, birthday)),
            r@.wf(),
    {
        let password_hash = hash_password(password.as_str());
        UserState::Unauthorized(
            UserManager {
                state: core::marker::PhantomData,
                username,
                email,
                password_hash,
                name,
                birthday,
            },
        )
    }
}

impl UserManager<Unauthorized> {
    /// Attempt to log in. Consumes the unauthorized value; on success the
    /// account reappears, fields verbatim, under the `Authorized` tag, and on
    /// failure only `InvalidCredentials` comes back.
    pub fn login(self, email: &str, password: &str) -> (r: Result<UserState, AuthError>)
        ensures
            spec_login_ok(self@, email@, password@) ==> (r matches Ok(s) && s@ == StateView::Authorized(
                self@,
            )),
            !spec_login_ok(self@, email@, password@) ==> r == Err::<UserState, AuthError>(
                AuthError::InvalidCredentials,
            ),
    {
        if email.to_owned() != self.email || hash_password(password) != self.password_hash {
            Err(AuthError::InvalidCredentials)
        } else {
            Ok(
                UserState::Authorized(
                    UserManager {
                        state: core::marker::PhantomData,
                        username: self.username,
                        email: self.email,
                        password_hash: self.password_hash,
                        name: self.name,
                        birthday: self.birthday,
                    },
                ),
            )
        }
    }
}

impl UserManager<Authorized> {
    /// The display name of the logged-in user. Read-only; callable only on an
    /// authorized value.
    pub fn get_name(&self) -> (r: &str)
        ensures
            r@ == self@.name,
    {
        self.name.as_str()
    }

    /// Log out. Consumes the authorized value; the account reappears, fields
    /// verbatim, under the `Unauthorized` tag. Total: no error path.
    pub fn logout(self) -> (r: UserState)
        ensures
            r@ == spec_logout(self@),
    {
        UserState::Unauthorized(
            UserManager {
                state: core::marker::PhantomData,
                username: self.username,
                email: self.email,
                password_hash: self.password_hash,
                name: self.name,
                birthday: self.birthday,
            },
        )
    }
}

/// Logging in with an account's own email and its original password succeeds,
/// and the authorized value carries the very same account fields.
pub proof fn lemma_login_round_trip(account: AccountView, password: Seq<char>)
    requires
        account.password_hash == spec_password_digest(password),
    ensures
        spec_login(account, account.email, password) == Ok::<StateView, AuthError>(
            StateView::Authorized(account),
        ),
{
}

/// A password whose digest differs from the digest of the account's own
/// password is rejected with `InvalidCredentials`, under any email.
pub proof fn lemma_login_rejects_wrong_password(
    account: AccountView,
    email: Seq<char>,
    original: Seq<char>,
    offered: Seq<char>,
)
    requires
        account.password_hash == spec_password_digest(original),
        spec_password_digest(offered) != spec_password_digest(original),
    ensures
        spec_login(account, email, offered) == Err::<StateView, AuthError>(
            AuthError::InvalidCredentials,
        ),
{
}

/// A login under any email other than the account's own is rejected with
/// `InvalidCredentials`, whatever the password.
pub proof fn lemma_login_rejects_wrong_email(
    account: AccountView,
    email: Seq<char>,
    password: Seq<char>,
)
    requires
        email != account.email,
    ensures
        spec_login(account, email, password) == Err::<StateView, AuthError>(
            AuthError::InvalidCredentials,
        ),
{
}

/// Cycle idempotence: logging out of the state that a successful login
/// produced restores a value field-equal to the original unauthorized one.
pub proof fn lemma_login_logout_cycle(account: AccountView, email: Seq<char>, password: Seq<char>)
    requires
        spec_login_ok(account, email, password),
    ensures
        spec_login(account, email, password) == Ok::<StateView, AuthError>(
            StateView::Authorized(account),
        ),
        spec_logout(account) == StateView::Unauthorized(account),
{
}

} // verus!
