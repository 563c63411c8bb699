//! The OpenID credentials exchange of the widget API.

use vstd::prelude::*;

verus! {

/// A widget's request for OpenID credentials.
pub struct Request {
    pub id: String,
}

/// Credentials handed to a widget.
pub struct State {
    /// The id of the request that these credentials answer.
    pub id: String,
    pub token: String,
    pub expires_in_seconds: usize,
    pub server: String,
    pub kind: String,
}

/// The answer to a request for credentials.
pub enum Response {
    Allowed(State),
    Blocked,
    Pending,
}

} // verus!
