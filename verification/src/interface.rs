//! Plain data types of the client/server wire interface.
//!
//! These carry the request and response payloads of the message-board HTTP
//! API.  The surrounding application owns serialization and transport; this
//! module only fixes the shapes and the two canned responses.

use vstd::prelude::*;

verus! {

/// HTTP Methods.
#[derive(Debug, Clone, Copy, PartialEq, Eq, Hash, Structural)]
pub enum HttpMethod {
    Get,
    Post,
    Put,
    Delete,
    Head,
    Options,
    Connect,
    Patch,
    Trace,
    /// Anything other than the common 9 HTTP methods.
    Unknown,
}

/// Error of turning [`HttpMethod::Unknown`] into a concrete wire method.
#[derive(Debug, Clone, Copy, PartialEq, Eq, Structural)]
pub struct UnknownHttpMethod;

/// Request payload for submitting one message.
#[derive(Debug, Clone)]
pub struct SendMessageForm {
    pub content: String,
}

/// Response payload for submitting one message.
#[derive(Debug, Clone, Copy, PartialEq, Eq, Structural)]
pub struct SendMessageResponse {
    pub ok: bool,
}

impl SendMessageResponse {
    /// The affirmative response.
    pub fn ok() -> (r: Self)
        ensures
            r.ok,
    {
        Self { ok: true }
    }

    /// The negative response.
    pub fn not_ok() -> (r: Self)
        ensures
            !r.ok,
    {
        Self { ok: false }
    }
}

/// Request payload for asking when the message log last changed; it carries
/// no data.
#[derive(Debug, Clone, Copy, PartialEq, Eq, Structural)]
pub struct FetchLatestUpdateDateForm {}

} // verus!
