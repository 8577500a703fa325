//! The wire bytes this crate produces must be real JSON: an independent
//! JSON parser reads the fields back.

use login_server::codec::encode;
use login_server::envelope::Envelope;

#[test]
fn encoded_login_request_is_json() {
    let bytes = encode(&Envelope::LoginRequest { username: b"alice".to_vec() });
    let value: serde_json::Value = serde_json::from_slice(&bytes).expect("must parse as JSON");
    assert_eq!(value["type"], serde_json::Value::String(String::from("LoginRequest")));
    assert_eq!(value["username"], serde_json::Value::String(String::from("alice")));
}

#[test]
fn encoded_escapes_read_back_as_the_raw_username() {
    let bytes = encode(&Envelope::LoginRequest { username: b"a\"b\\c".to_vec() });
    let value: serde_json::Value = serde_json::from_slice(&bytes).expect("must parse as JSON");
    assert_eq!(value["username"], serde_json::Value::String(String::from("a\"b\\c")));
}

#[test]
fn encoded_login_response_is_json() {
    let bytes = encode(&Envelope::LoginResponse { success: true });
    let value: serde_json::Value = serde_json::from_slice(&bytes).expect("must parse as JSON");
    assert_eq!(value["type"], serde_json::Value::String(String::from("LoginResponse")));
    assert_eq!(value["success"], serde_json::Value::Bool(true));
}
