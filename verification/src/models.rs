//! Data model of the directory: permissions, users, and the error taxonomy.

use vstd::prelude::*;

verus! {

/// Every failure the directory can report, returned as a value, never thrown.
///
/// `LockUnavailable` belongs to the taxonomy for the sake of the embedding
/// program: the library itself performs no locking, so only the code that
/// wraps it in a lock ever constructs that variant.
#[derive(Debug)]
pub enum IamError {
    /// A referenced permission name is absent from the registry.
    PermissionNotFound(String),
    /// Registration of a name that is already present.
    PermissionAlreadyExists(String),
    /// An operation targeted a user identifier that is not in the directory.
    UserNotFound(String),
    /// All 64 bit positions are occupied; no permission can be registered.
    SlotsExhausted,
    /// The shared state could not be safely accessed (poisoned lock).
    LockUnavailable,
    /// The external password-hashing primitive failed.
    CredentialDerivationFailed,
}

/// A registered permission: a unique human-readable name bound to a 64-bit
/// mask value with exactly one bit set.
#[derive(Debug)]
pub struct Permission {
    pub name: String,
    pub value: u64,
}

/// Mathematical image of a `Permission`.
pub ghost struct PermissionView {
    pub name: Seq<char>,
    pub value: u64,
}

impl View for Permission {
    type V = PermissionView;

    open spec fn view(&self) -> PermissionView {
        PermissionView { name: self.name@, value: self.value }
    }
}

impl Permission {
    pub fn new(name: String, value: u64) -> (r: Permission)
        ensures
            r@.name == name@,
            r@.value == value,
    {
        Permission { name, value }
    }
}

impl Clone for Permission {
    fn clone(&self) -> (r: Self)
        ensures
            r == *self,
    {
        Permission { name: self.name.clone(), value: self.value }
    }
}

/// A user record. The permission mask is a snapshot resolved against the
/// registry at creation or update time; it is never revalidated afterwards.
#[derive(Debug)]
pub struct User {
    pub id: String,
    pub name: String,
    pub email: String,
    pub password_hash: String,
    pub permissions: u64,
}

/// Mathematical image of a `User`.
pub ghost struct UserView {
    pub id: Seq<char>,
    pub name: Seq<char>,
    pub email: Seq<char>,
    pub password_hash: Seq<char>,
    pub permissions: u64,
}

impl View for User {
    type V = UserView;

    open spec fn view(&self) -> UserView {
        UserView {
            id: self.id@,
            name: self.name@,
            email: self.email@,
            password_hash: self.password_hash@,
            permissions: self.permissions,
        }
    }
}

impl Clone for User {
    fn clone(&self) -> (r: Self)
        ensures
            r == *self,
    {
        User {
            id: self.id.clone(),
            name: self.name.clone(),
            email: self.email.clone(),
            password_hash: self.password_hash.clone(),
            permissions: self.permissions,
        }
    }
}

/// Relies on `bcrypt::hash` with `bcrypt::DEFAULT_COST`: derives a one-way
/// credential from the secret. The default cost is always admissible and the
/// salt is drawn from OS randomness, so nothing is promised of the digest.
#[verifier::external_body]
fn derive_credential(secret: &str) -> (r: Result<String, IamError>)
    ensures
        r matches Err(e) ==> e matches IamError::CredentialDerivationFailed,
{
    match bcrypt::hash(secret, bcrypt::DEFAULT_COST) {
        Ok(h) => Ok(h),
        Err(_) => Err(IamError::CredentialDerivationFailed),
    }
}

/// Relies on `uuid::Uuid::new_v4`: a random version-4 identifier rendered in
/// its canonical text form. The value is random, so nothing is promised of it.
#[verifier::external_body]
fn fresh_user_id() -> String {
    uuid::Uuid::new_v4().to_string()
}

impl User {
    /// Derives the credential, draws a fresh identifier, and assembles the
    /// record. The identifier and digest come from random primitives, so the
    /// contract fixes every other field and says which error a failed
    /// derivation yields.
    pub fn new(name: String, email: String, password: String, permissions: u64) -> (r: Result<
        User,
        IamError,
    >)
        ensures
            r matches Ok(u) ==> u@.name == name@ && u@.email == email@ && u@.permissions
                == permissions,
            r matches Err(e) ==> e matches IamError::CredentialDerivationFailed,
    {
        let password_hash = match derive_credential(password.as_str()) {
            Ok(h) => h,
            Err(e) => {
                return Err(e);
            },
        };
        let id = fresh_user_id();
        Ok(User { id, name, email, password_hash, permissions })
    }
}

} // verus!
