//! The message envelope exchanged over the framed channel.
//!
//! An envelope is a tagged union. A client sends a login request with a
//! username; the server answers with a login response carrying a success
//! flag. The username is kept as the bytes that travel on the wire: a
//! valid username consists of printable ASCII bytes, and the codec
//! escapes the two bytes (quote and backslash) that the wire syntax
//! reserves.

use vstd::prelude::*;

verus! {

/// A byte that may appear in a username: printable ASCII.
pub open spec fn valid_username_byte(b: u8) -> bool {
    0x20 <= b <= 0x7e
}

/// A username is a sequence of printable ASCII bytes.
pub open spec fn valid_username(s: Seq<u8>) -> bool {
    forall|i: int| 0 <= i < s.len() ==> valid_username_byte(s[i])
}

/// The messages exchanged over the wire.
#[derive(Debug, PartialEq, Eq)]
pub enum Envelope {
    /// A client asks to log in under a username.
    LoginRequest { username: Vec<u8> },
    /// The server reports whether the login succeeded.
    LoginResponse { success: bool },
}

/// The mathematical model of an [`Envelope`].
#[verifier::ext_equal]
pub enum EnvelopeView {
    LoginRequest { username: Seq<u8> },
    LoginResponse { success: bool },
}

impl View for Envelope {
    type V = EnvelopeView;

    open spec fn view(&self) -> EnvelopeView {
        match self {
            Envelope::LoginRequest { username } => {
                EnvelopeView::LoginRequest { username: username@ }
            },
            Envelope::LoginResponse { success } => {
                EnvelopeView::LoginResponse { success: *success }
            },
        }
    }
}

impl EnvelopeView {
    /// A well-formed envelope: any username it carries is valid.
    pub open spec fn wf(self) -> bool {
        match self {
            EnvelopeView::LoginRequest { username } => valid_username(username),
            EnvelopeView::LoginResponse { .. } => true,
        }
    }
}

} // verus!
