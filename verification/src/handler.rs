//! Per-connection dispatch: frames in, response bytes out.
//!
//! A connection delivers a stream of events: a frame arrived, or the read
//! failed. Only a binary frame that decodes to a login request draws a
//! response — the encoded login response, always successful, since this
//! core checks no credentials. Everything else (text and control frames,
//! payloads that do not decode, decodable envelopes of a variant the
//! server does not handle) is discarded and the connection stays open;
//! only a read failure closes it. The handler keeps no state: what a
//! frame draws depends on that frame alone, never on earlier traffic or
//! on other connections.

use vstd::prelude::*;

use crate::codec::decode;
use crate::codec::decode_spec;
use crate::codec::lemma_decode_encode;
use crate::envelope::valid_username;
use crate::codec::encode;
use crate::codec::encode_spec;
use crate::envelope::Envelope;
use crate::envelope::EnvelopeView;

verus! {

/// One frame delivered by the framed transport.
#[derive(Debug, PartialEq, Eq)]
pub enum Frame {
    /// A text frame; the server does not interpret it.
    Text(String),
    /// A binary frame; its payload may encode an envelope.
    Binary(Vec<u8>),
    /// A ping control frame.
    Ping(Vec<u8>),
    /// A pong control frame.
    Pong(Vec<u8>),
    /// A close control frame.
    Close,
}

/// The mathematical model of a [`Frame`].
#[verifier::ext_equal]
pub enum FrameView {
    Text(Seq<char>),
    Binary(Seq<u8>),
    Ping(Seq<u8>),
    Pong(Seq<u8>),
    Close,
}

impl View for Frame {
    type V = FrameView;

    open spec fn view(&self) -> FrameView {
        match self {
            Frame::Text(s) => FrameView::Text(s@),
            Frame::Binary(b) => FrameView::Binary(b@),
            Frame::Ping(b) => FrameView::Ping(b@),
            Frame::Pong(b) => FrameView::Pong(b@),
            Frame::Close => FrameView::Close,
        }
    }
}

/// What one read on a connection produced.
#[derive(Debug, PartialEq, Eq)]
pub enum Event {
    /// A frame arrived.
    Received(Frame),
    /// The read failed: the peer reset, closed, or broke the protocol.
    ReadError,
}

/// The mathematical model of an [`Event`].
#[verifier::ext_equal]
pub enum EventView {
    Received(FrameView),
    ReadError,
}

impl View for Event {
    type V = EventView;

    open spec fn view(&self) -> EventView {
        match self {
            Event::Received(f) => EventView::Received(f@),
            Event::ReadError => EventView::ReadError,
        }
    }
}

/// The reply a decoded envelope draws: a login request draws a successful
/// login response, every other variant draws nothing.
pub open spec fn dispatch_spec(e: EnvelopeView) -> Option<EnvelopeView> {
    match e {
        EnvelopeView::LoginRequest { .. } => Some(
            EnvelopeView::LoginResponse { success: true },
        ),
        _ => None,
    }
}

/// The response bytes a frame draws: only a binary frame whose payload
/// decodes to an envelope the server handles draws any.
pub open spec fn response_spec(f: FrameView) -> Option<Seq<u8>> {
    match f {
        FrameView::Binary(b) => match decode_spec(b) {
            Some(e) => match dispatch_spec(e) {
                Some(resp) => Some(encode_spec(resp)),
                None => None,
            },
            None => None,
        },
        _ => None,
    }
}

/// What one event makes the connection do: the response to write, if
/// any, and whether the connection stays open.
pub open spec fn step_spec(ev: EventView) -> (Option<Seq<u8>>, bool) {
    match ev {
        EventView::Received(f) => (response_spec(f), true),
        EventView::ReadError => (None, false),
    }
}

/// Dispatches one decoded envelope to its handler. The login handler is
/// a stub that accepts every request.
pub fn dispatch(e: &Envelope) -> (r: Option<Envelope>)
    ensures
        match r {
            Some(resp) => dispatch_spec(e@) == Some(resp@) && resp@.wf(),
            None => dispatch_spec(e@) is None,
        },
{
    match e {
        Envelope::LoginRequest { .. } => Some(Envelope::LoginResponse { success: true }),
        _ => None,
    }
}

/// Handles one frame: decodes a binary payload, dispatches the envelope,
/// and returns the encoded response, if the frame draws one.
pub fn handle_message(msg: &Frame) -> (r: Option<Vec<u8>>)
    ensures
        match r {
            Some(v) => response_spec(msg@) == Some(v@),
            None => response_spec(msg@) is None,
        },
{
    match msg {
        Frame::Binary(payload) => match decode(payload.as_slice()) {
            Some(request) => match dispatch(&request) {
                Some(response) => Some(encode(&response)),
                None => None,
            },
            None => None,
        },
        _ => None,
    }
}

/// Handles one read event: the response to write back, if any, and
/// whether to keep reading on this connection.
pub fn handle_event(ev: &Event) -> (r: (Option<Vec<u8>>, bool))
    ensures
        r.1 == step_spec(ev@).1,
        match r.0 {
            Some(v) => step_spec(ev@).0 == Some(v@),
            None => step_spec(ev@).0 is None,
        },
{
    match ev {
        Event::Received(frame) => (handle_message(frame), true),
        Event::ReadError => (None, false),
    }
}

/// A login request draws exactly one message: for every valid username,
/// the binary frame carrying the encoded request draws the encoded
/// successful login response and nothing else, and the connection stays
/// open.
pub proof fn lemma_login_draws_success(u: Seq<u8>)
    requires
        valid_username(u),
    ensures
        step_spec(
            EventView::Received(
                FrameView::Binary(encode_spec(EnvelopeView::LoginRequest { username: u })),
            ),
        ) == (
            Some(encode_spec(EnvelopeView::LoginResponse { success: true })),
            true,
        ),
{
    lemma_decode_encode(EnvelopeView::LoginRequest { username: u });
}

/// A frame that is not binary draws no response and leaves the
/// connection open; and since a step depends on its event alone, a valid
/// login request that follows on the same connection still draws the
/// successful response.
pub proof fn lemma_non_binary_ignored(f: FrameView)
    requires
        !(f is Binary),
    ensures
        step_spec(EventView::Received(f)) == (None::<Seq<u8>>, true),
{
}

/// A binary frame whose payload does not decode draws no response and
/// leaves the connection open.
pub proof fn lemma_undecodable_ignored(b: Seq<u8>)
    requires
        decode_spec(b) is None,
    ensures
        step_spec(EventView::Received(FrameView::Binary(b))) == (None::<Seq<u8>>, true),
{
}

/// A binary frame that decodes to an envelope of a variant the server
/// does not handle draws no response and leaves the connection open.
pub proof fn lemma_unhandled_variant_ignored(b: Seq<u8>, e: EnvelopeView)
    requires
        decode_spec(b) == Some(e),
        !(e is LoginRequest),
    ensures
        step_spec(EventView::Received(FrameView::Binary(b))) == (None::<Seq<u8>>, true),
{
}

} // verus!
