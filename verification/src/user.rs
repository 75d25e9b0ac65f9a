//! Client identity: who a connection belongs to.
//!
//! Identity is supplied out-of-band (two request headers) and trusted as-is.
//! The transport hands over whatever header values it found; [`User::resolve`]
//! decides whether they form a usable identity and which rejection applies
//! when they do not.

use vstd::prelude::*;

verus! {

/// A client's identity within a room: an id unique to the user and a
/// human-readable display name.
#[derive(Debug, Clone)]
pub struct User {
    pub id: String,
    pub name: String,
}

/// Why a connection request carried no usable identity.
#[derive(Debug, Clone, PartialEq, Eq)]
pub enum IdentityError {
    /// The user-id header was missing or unreadable.
    MissingId,
    /// The display-name header was missing or unreadable.
    MissingName,
}

impl User {
    /// Decides whether the header values the transport extracted form an
    /// identity. The id is checked first, as the id header is the more
    /// fundamental of the two.
    pub fn resolve(id: Option<String>, name: Option<String>) -> (r: Result<User, IdentityError>)
        ensures
            id is None ==> r == Err::<User, IdentityError>(IdentityError::MissingId),
            id is Some && name is None ==> r == Err::<User, IdentityError>(IdentityError::MissingName),
            id matches Some(i) ==> name matches Some(n) ==> (r matches Ok(u)
                && u.id@ == i@
                && u.name@ == n@),
    {
        match (id, name) {
            (None, _) => Err(IdentityError::MissingId),
            (Some(_), None) => Err(IdentityError::MissingName),
            (Some(id), Some(name)) => Ok(User { id, name }),
        }
    }
}

} // verus!
