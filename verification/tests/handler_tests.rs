use login_server::envelope::Envelope;
use login_server::handler::dispatch;
use login_server::handler::handle_event;
use login_server::handler::handle_message;
use login_server::handler::Event;
use login_server::handler::Frame;

const LOGIN_ALICE: &[u8] = b"{\"type\":\"LoginRequest\",\"username\":\"alice\"}";
const RESPONSE_OK: &[u8] = b"{\"type\":\"LoginResponse\",\"success\":true}";

#[test]
fn dispatch_login_request_always_succeeds() {
    let reply = dispatch(&Envelope::LoginRequest { username: b"alice".to_vec() });
    assert_eq!(reply, Some(Envelope::LoginResponse { success: true }));
}

#[test]
fn dispatch_ignores_other_variants() {
    assert_eq!(dispatch(&Envelope::LoginResponse { success: true }), None);
    assert_eq!(dispatch(&Envelope::LoginResponse { success: false }), None);
}

#[test]
fn login_request_draws_one_success_response() {
    let reply = handle_message(&Frame::Binary(LOGIN_ALICE.to_vec()));
    assert_eq!(reply, Some(RESPONSE_OK.to_vec()));
}

#[test]
fn text_frame_draws_no_response_and_login_still_works() {
    let reply = handle_message(&Frame::Text(String::from("hello")));
    assert_eq!(reply, None);
    let reply = handle_message(&Frame::Binary(LOGIN_ALICE.to_vec()));
    assert_eq!(reply, Some(RESPONSE_OK.to_vec()));
}

#[test]
fn control_frames_draw_no_response() {
    assert_eq!(handle_message(&Frame::Ping(b"ping".to_vec())), None);
    assert_eq!(handle_message(&Frame::Pong(b"pong".to_vec())), None);
    assert_eq!(handle_message(&Frame::Close), None);
}

#[test]
fn undecodable_binary_frame_draws_no_response() {
    let reply = handle_message(&Frame::Binary(b"not an envelope".to_vec()));
    assert_eq!(reply, None);
    let reply = handle_message(&Frame::Binary(LOGIN_ALICE.to_vec()));
    assert_eq!(reply, Some(RESPONSE_OK.to_vec()));
}

#[test]
fn unhandled_variant_draws_no_response() {
    let reply = handle_message(&Frame::Binary(RESPONSE_OK.to_vec()));
    assert_eq!(reply, None);
}

#[test]
fn received_frame_keeps_the_connection_open() {
    let (reply, keep_open) = handle_event(&Event::Received(Frame::Binary(LOGIN_ALICE.to_vec())));
    assert_eq!(reply, Some(RESPONSE_OK.to_vec()));
    assert!(keep_open);
    let (reply, keep_open) = handle_event(&Event::Received(Frame::Text(String::from("hi"))));
    assert_eq!(reply, None);
    assert!(keep_open);
    let (reply, keep_open) = handle_event(&Event::Received(Frame::Binary(b"garbage".to_vec())));
    assert_eq!(reply, None);
    assert!(keep_open);
}

#[test]
fn read_error_closes_the_connection() {
    let (reply, keep_open) = handle_event(&Event::ReadError);
    assert_eq!(reply, None);
    assert!(!keep_open);
}

#[test]
fn login_exchange_scenario() {
    // A client connects, logs in as alice, and disconnects; the
    // connection answers once and then closes on the failed read.
    let (reply, keep_open) = handle_event(&Event::Received(Frame::Binary(LOGIN_ALICE.to_vec())));
    assert_eq!(reply, Some(RESPONSE_OK.to_vec()));
    assert!(keep_open);
    let (reply, keep_open) = handle_event(&Event::ReadError);
    assert_eq!(reply, None);
    assert!(!keep_open);
}

#[test]
fn two_connections_are_independent() {
    // Two connections interleaved: malformed traffic on the first never
    // changes what the second is answered.
    let first_garbage = handle_event(&Event::Received(Frame::Binary(b"\x00\xff".to_vec())));
    let second_login = handle_event(&Event::Received(Frame::Binary(LOGIN_ALICE.to_vec())));
    let first_login = handle_event(&Event::Received(Frame::Binary(
        b"{\"type\":\"LoginRequest\",\"username\":\"bob\"}".to_vec(),
    )));
    assert_eq!(first_garbage, (None, true));
    assert_eq!(second_login, (Some(RESPONSE_OK.to_vec()), true));
    assert_eq!(first_login, (Some(RESPONSE_OK.to_vec()), true));
}
