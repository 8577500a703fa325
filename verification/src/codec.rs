//! The wire codec for the message envelope.
//!
//! An envelope travels as the payload of a binary frame, in a
//! self-describing tagged object with a fixed, canonical shape:
//!
//! - `{"type":"LoginRequest","username":"<escaped bytes>"}`
//! - `{"type":"LoginResponse","success":true}` (or `false`)
//!
//! Inside the username, a quote or a backslash is escaped with a
//! backslash; every other printable ASCII byte stands for itself. The
//! decoder accepts exactly the encoder's output, so that encoding and
//! decoding invert each other byte for byte.

use vstd::prelude::*;

use crate::envelope::Envelope;
use crate::envelope::EnvelopeView;
use crate::envelope::valid_username;
use crate::envelope::valid_username_byte;

verus! {

/// The quote byte, `"`.
pub const QUOTE: u8 = 0x22;

/// The backslash byte, `\`.
pub const BACKSLASH: u8 = 0x5c;

/// The closing brace byte, `}`.
pub const RBRACE: u8 = 0x7d;

/// The bytes of `{"type":"LoginRequest","username":"`.
pub open spec fn request_prefix() -> Seq<u8> {
    seq![
        123u8, 34, 116, 121, 112, 101, 34, 58, 34, 76, 111, 103, 105, 110, 82, 101, 113, 117, 101,
        115, 116, 34, 44, 34, 117, 115, 101, 114, 110, 97, 109, 101, 34, 58, 34,
    ]
}

/// The bytes of `"}` that close a login request.
pub open spec fn request_suffix() -> Seq<u8> {
    seq![34u8, 125]
}

/// The bytes of `{"type":"LoginResponse","success":true}`.
pub open spec fn response_true() -> Seq<u8> {
    seq![
        123u8, 34, 116, 121, 112, 101, 34, 58, 34, 76, 111, 103, 105, 110, 82, 101, 115, 112, 111,
        110, 115, 101, 34, 44, 34, 115, 117, 99, 99, 101, 115, 115, 34, 58, 116, 114, 117, 101,
        125,
    ]
}

/// The bytes of `{"type":"LoginResponse","success":false}`.
pub open spec fn response_false() -> Seq<u8> {
    seq![
        123u8, 34, 116, 121, 112, 101, 34, 58, 34, 76, 111, 103, 105, 110, 82, 101, 115, 112, 111,
        110, 115, 101, 34, 44, 34, 115, 117, 99, 99, 101, 115, 115, 34, 58, 102, 97, 108, 115,
        101, 125,
    ]
}

/// The escape of one username byte: quote and backslash get a leading
/// backslash, every other byte stands for itself.
pub open spec fn escape_byte(b: u8) -> Seq<u8> {
    if b == QUOTE || b == BACKSLASH {
        seq![BACKSLASH, b]
    } else {
        seq![b]
    }
}

/// The escape of a whole username.
pub open spec fn escape(s: Seq<u8>) -> Seq<u8>
    decreases s.len(),
{
    if s.len() == 0 {
        Seq::empty()
    } else {
        escape_byte(s[0]) + escape(s.drop_first())
    }
}

/// The canonical wire bytes of an envelope.
pub open spec fn encode_spec(e: EnvelopeView) -> Seq<u8> {
    match e {
        EnvelopeView::LoginRequest { username } => {
            request_prefix() + escape(username) + request_suffix()
        },
        EnvelopeView::LoginResponse { success } => {
            if success {
                response_true()
            } else {
                response_false()
            }
        },
    }
}

/// Reads a username out of the bytes that follow the request prefix.
/// Succeeds exactly on `escape(u) + request_suffix()` for a valid `u`.
pub open spec fn unescape(s: Seq<u8>) -> Option<Seq<u8>>
    decreases s.len(),
{
    if s.len() < 2 {
        None
    } else if s[0] == QUOTE {
        if s.len() == 2 && s[1] == RBRACE {
            Some(Seq::empty())
        } else {
            None
        }
    } else if s[0] == BACKSLASH {
        if s[1] == QUOTE || s[1] == BACKSLASH {
            match unescape(s.skip(2)) {
                Some(u) => Some(seq![s[1]] + u),
                None => None,
            }
        } else {
            None
        }
    } else if valid_username_byte(s[0]) {
        match unescape(s.skip(1)) {
            Some(u) => Some(seq![s[0]] + u),
            None => None,
        }
    } else {
        None
    }
}

/// The envelope a byte string stands for, if it is the canonical wire
/// encoding of one.
pub open spec fn decode_spec(b: Seq<u8>) -> Option<EnvelopeView> {
    if b == response_true() {
        Some(EnvelopeView::LoginResponse { success: true })
    } else if b == response_false() {
        Some(EnvelopeView::LoginResponse { success: false })
    } else if b.len() >= request_prefix().len() && b.take(request_prefix().len() as int)
        == request_prefix() {
        match unescape(b.skip(request_prefix().len() as int)) {
            Some(u) => Some(EnvelopeView::LoginRequest { username: u }),
            None => None,
        }
    } else {
        None
    }
}

/// The request prefix as an executable value.
fn request_prefix_vec() -> (r: Vec<u8>)
    ensures
        r@ == request_prefix(),
{
    let r: Vec<u8> = vec![
        123u8, 34, 116, 121, 112, 101, 34, 58, 34, 76, 111, 103, 105, 110, 82, 101, 113, 117, 101,
        115, 116, 34, 44, 34, 117, 115, 101, 114, 110, 97, 109, 101, 34, 58, 34,
    ];
    proof {
        assert(r@ =~= request_prefix());
    }
    r
}

/// The encoding of a successful login response as an executable value.
fn response_true_vec() -> (r: Vec<u8>)
    ensures
        r@ == response_true(),
{
    let r: Vec<u8> = vec![
        123u8, 34, 116, 121, 112, 101, 34, 58, 34, 76, 111, 103, 105, 110, 82, 101, 115, 112, 111,
        110, 115, 101, 34, 44, 34, 115, 117, 99, 99, 101, 115, 115, 34, 58, 116, 114, 117, 101,
        125,
    ];
    proof {
        assert(r@ =~= response_true());
    }
    r
}

/// The encoding of a failed login response as an executable value.
fn response_false_vec() -> (r: Vec<u8>)
    ensures
        r@ == response_false(),
{
    let r: Vec<u8> = vec![
        123u8, 34, 116, 121, 112, 101, 34, 58, 34, 76, 111, 103, 105, 110, 82, 101, 115, 112, 111,
        110, 115, 101, 34, 44, 34, 115, 117, 99, 99, 101, 115, 115, 34, 58, 102, 97, 108, 115,
        101, 125,
    ];
    proof {
        assert(r@ =~= response_false());
    }
    r
}

/// Appending one byte to a username appends its escape to the escaped form.
proof fn lemma_escape_push(s: Seq<u8>, b: u8)
    ensures
        escape(s.push(b)) == escape(s) + escape_byte(b),
    decreases s.len(),
{
    if s.len() == 0 {
        assert(s.push(b)[0] == b);
        assert(s.push(b).drop_first() =~= Seq::<u8>::empty());
        assert(escape(s.push(b)) =~= escape(s) + escape_byte(b));
    } else {
        let t = s.drop_first();
        assert(s.push(b).drop_first() =~= t.push(b));
        lemma_escape_push(t, b);
        assert(escape(s.push(b)) == escape_byte(s.push(b)[0]) + escape(s.push(b).drop_first()));
        assert(s.push(b)[0] == s[0]);
        assert(escape(s.push(b)) == escape_byte(s[0]) + (escape(t) + escape_byte(b)));
        assert(escape(s) == escape_byte(s[0]) + escape(t));
        assert(escape(s.push(b)) =~= escape(s) + escape_byte(b));
    }
}

/// Whether two byte strings are equal.
fn bytes_eq(a: &[u8], b: &Vec<u8>) -> (r: bool)
    ensures
        r == (a@ == b@),
{
    if a.len() != b.len() {
        proof {
            assert(a@.len() != b@.len());
        }
        return false;
    }
    let mut i: usize = 0;
    while i < a.len()
        invariant
            i <= a.len(),
            a@.len() == b@.len(),
            forall|k: int| 0 <= k < i ==> a@[k] == b@[k],
        decreases a.len() - i,
    {
        if a[i] != b[i] {
            proof {
                assert(a@[i as int] != b@[i as int]);
            }
            return false;
        }
        i = i + 1;
    }
    proof {
        assert(a@ =~= b@);
    }
    true
}

/// Whether a byte string starts with the given prefix.
fn starts_with(a: &[u8], pre: &Vec<u8>) -> (r: bool)
    ensures
        r == (a@.len() >= pre@.len() && a@.take(pre@.len() as int) == pre@),
{
    if a.len() < pre.len() {
        return false;
    }
    let mut i: usize = 0;
    while i < pre.len()
        invariant
            i <= pre.len(),
            a@.len() >= pre@.len(),
            forall|k: int| 0 <= k < i ==> a@[k] == pre@[k],
        decreases pre.len() - i,
    {
        if a[i] != pre[i] {
            proof {
                assert(a@.take(pre@.len() as int)[i as int] != pre@[i as int]);
            }
            return false;
        }
        i = i + 1;
    }
    proof {
        assert(a@.take(pre@.len() as int) =~= pre@);
    }
    true
}

/// Prepends a prefix to a parse result that may have failed.
spec fn opt_prepend(a: Seq<u8>, o: Option<Seq<u8>>) -> Option<Seq<u8>> {
    match o {
        Some(u) => Some(a + u),
        None => None,
    }
}

/// Turns wire bytes back into the envelope they encode, if any.
pub fn decode(bytes: &[u8]) -> (r: Option<Envelope>)
    ensures
        match r {
            Some(e) => decode_spec(bytes@) == Some(e@) && e@.wf(),
            None => decode_spec(bytes@) is None,
        },
{
    let rt = response_true_vec();
    if bytes_eq(bytes, &rt) {
        return Some(Envelope::LoginResponse { success: true });
    }
    let rf = response_false_vec();
    if bytes_eq(bytes, &rf) {
        return Some(Envelope::LoginResponse { success: false });
    }
    let pre = request_prefix_vec();
    if !starts_with(bytes, &pre) {
        return None;
    }
    let plen: usize = pre.len();
    proof {
        assert(plen == request_prefix().len());
    }
    let mut acc: Vec<u8> = Vec::new();
    let mut i: usize = plen;
    loop
        invariant
            plen == request_prefix().len(),
            plen <= i <= bytes@.len(),
            bytes@.len() >= plen,
            bytes@.take(plen as int) == request_prefix(),
            bytes@ != response_true(),
            bytes@ != response_false(),
            valid_username(acc@),
            unescape(bytes@.skip(plen as int)) == opt_prepend(acc@, unescape(bytes@.skip(i as int))),
        decreases bytes@.len() - i,
    {
        if i >= bytes.len() {
            proof {
                assert(bytes@.skip(i as int).len() < 2);
            }
            return None;
        }
        let b: u8 = bytes[i];
        proof {
            assert(bytes@.skip(i as int)[0] == b);
        }
        if b == QUOTE {
            if bytes.len() - i == 2 && bytes[i + 1] == RBRACE {
                proof {
                    assert(bytes@.skip(i as int).len() == 2);
                    assert(bytes@.skip(i as int)[1] == RBRACE);
                    assert(unescape(bytes@.skip(i as int)) == Some(Seq::<u8>::empty()));
                    assert(acc@ + Seq::<u8>::empty() =~= acc@);
                    assert(unescape(bytes@.skip(plen as int)) == Some(acc@));
                }
                return Some(Envelope::LoginRequest { username: acc });
            } else {
                proof {
                    let s = bytes@.skip(i as int);
                    assert(s.len() == bytes@.len() - i);
                    if s.len() >= 2 {
                        assert(s[1] == bytes@[i + 1]);
                        assert(!(s.len() == 2 && s[1] == RBRACE));
                    }
                    assert(unescape(s) is None);
                }
                return None;
            }
        } else if b == BACKSLASH {
            if i + 1 < bytes.len() {
                let nb: u8 = bytes[i + 1];
                proof {
                    assert(bytes@.skip(i as int)[1] == nb);
                }
                if nb == QUOTE || nb == BACKSLASH {
                    proof {
                        let s = bytes@.skip(i as int);
                        assert(s.skip(2) =~= bytes@.skip(i + 2));
                        assert(unescape(s) == opt_prepend(seq![nb], unescape(bytes@.skip(i + 2))));
                        assert(acc@.push(nb) =~= acc@ + seq![nb]);
                        assert(unescape(bytes@.skip(plen as int)) == opt_prepend(
                            acc@.push(nb),
                            unescape(bytes@.skip(i + 2)),
                        )) by {
                            if unescape(bytes@.skip(i + 2)) is Some {
                                let u = unescape(bytes@.skip(i + 2))->Some_0;
                                assert(acc@ + (seq![nb] + u) =~= acc@.push(nb) + u);
                            }
                        }
                    }
                    acc.push(nb);
                    i = i + 2;
                } else {
                    proof {
                        assert(unescape(bytes@.skip(i as int)) is None);
                    }
                    return None;
                }
            } else {
                proof {
                    assert(bytes@.skip(i as int).len() < 2);
                }
                return None;
            }
        } else if 0x20 <= b && b <= 0x7e {
            proof {
                let s = bytes@.skip(i as int);
                assert(s.skip(1) =~= bytes@.skip(i + 1));
                if s.len() < 2 {
                    assert(unescape(s) is None);
                    assert(bytes@.skip(i + 1).len() < 2);
                    assert(unescape(bytes@.skip(i + 1)) is None);
                } else {
                    assert(unescape(s) == opt_prepend(seq![b], unescape(bytes@.skip(i + 1))));
                }
                assert(acc@.push(b) =~= acc@ + seq![b]);
                assert(unescape(bytes@.skip(plen as int)) == opt_prepend(
                    acc@.push(b),
                    unescape(bytes@.skip(i + 1)),
                )) by {
                    if unescape(bytes@.skip(i + 1)) is Some {
                        let u = unescape(bytes@.skip(i + 1))->Some_0;
                        assert(acc@ + (seq![b] + u) =~= acc@.push(b) + u);
                    }
                }
            }
            acc.push(b);
            i = i + 1;
        } else {
            proof {
                assert(unescape(bytes@.skip(i as int)) is None);
            }
            return None;
        }
    }
}

/// Turns an envelope into its canonical wire bytes.
pub fn encode(e: &Envelope) -> (r: Vec<u8>)
    requires
        e@.wf(),
    ensures
        r@ == encode_spec(e@),
{
    match e {
        Envelope::LoginRequest { username } => {
            let mut r = request_prefix_vec();
            let mut i: usize = 0;
            while i < username.len()
                invariant
                    i <= username.len(),
                    valid_username(username@),
                    r@ == request_prefix() + escape(username@.take(i as int)),
                decreases username.len() - i,
            {
                let b: u8 = username[i];
                if b == QUOTE || b == BACKSLASH {
                    r.push(BACKSLASH);
                    r.push(b);
                } else {
                    r.push(b);
                }
                proof {
                    assert(username@.take(i + 1) =~= username@.take(i as int).push(username@[i as int]));
                    lemma_escape_push(username@.take(i as int), username@[i as int]);
                    assert(r@ =~= request_prefix() + escape(username@.take(i + 1)));
                }
                i = i + 1;
            }
            r.push(QUOTE);
            r.push(RBRACE);
            proof {
                assert(username@.take(username@.len() as int) =~= username@);
                assert(r@ =~= request_prefix() + escape(username@) + request_suffix());
            }
            r
        },
        Envelope::LoginResponse { success } => {
            if *success {
                response_true_vec()
            } else {
                response_false_vec()
            }
        },
    }
}

/// Unescaping undoes escaping: the bytes of an escaped valid username,
/// closed by the request suffix, read back as that username.
proof fn lemma_unescape_escape(u: Seq<u8>)
    requires
        valid_username(u),
    ensures
        unescape(escape(u) + request_suffix()) == Some(u),
    decreases u.len(),
{
    let s = escape(u) + request_suffix();
    if u.len() == 0 {
        assert(escape(u) =~= Seq::<u8>::empty());
        assert(s =~= request_suffix());
        assert(s.len() == 2 && s[0] == QUOTE && s[1] == RBRACE);
        assert(unescape(s) == Some(Seq::<u8>::empty()));
        assert(u =~= Seq::<u8>::empty());
    } else {
        let b = u[0];
        let t = u.drop_first();
        assert(valid_username_byte(b));
        assert(valid_username(t)) by {
            assert forall|i: int| 0 <= i < t.len() implies valid_username_byte(t[i]) by {
                assert(t[i] == u[i + 1]);
            }
        }
        lemma_unescape_escape(t);
        assert(escape(u) == escape_byte(b) + escape(t));
        if b == QUOTE || b == BACKSLASH {
            assert(s =~= seq![BACKSLASH, b] + (escape(t) + request_suffix()));
            assert(s[0] == BACKSLASH && s[1] == b);
            assert(s.skip(2) =~= escape(t) + request_suffix());
            assert(unescape(s) == Some(seq![b] + t));
            assert(seq![b] + t =~= u);
        } else {
            assert(s =~= seq![b] + (escape(t) + request_suffix()));
            assert(s[0] == b);
            assert(s.skip(1) =~= escape(t) + request_suffix());
            assert(unescape(s) == Some(seq![b] + t));
            assert(seq![b] + t =~= u);
        }
    }
}

/// Whatever unescaping accepts is the escape of a valid username,
/// closed by the request suffix.
proof fn lemma_unescape_sound(s: Seq<u8>)
    ensures
        unescape(s) matches Some(u) ==> valid_username(u) && escape(u) + request_suffix() == s,
    decreases s.len(),
{
    if s.len() < 2 {
    } else if s[0] == QUOTE {
        if s.len() == 2 && s[1] == RBRACE {
            let u = Seq::<u8>::empty();
            assert(escape(u) + request_suffix() =~= s);
        }
    } else if s[0] == BACKSLASH {
        if s[1] == QUOTE || s[1] == BACKSLASH {
            lemma_unescape_sound(s.skip(2));
            if unescape(s.skip(2)) is Some {
                let t = unescape(s.skip(2))->Some_0;
                let u = seq![s[1]] + t;
                assert(valid_username(u)) by {
                    assert forall|i: int| 0 <= i < u.len() implies valid_username_byte(u[i]) by {
                        if i > 0 {
                            assert(u[i] == t[i - 1]);
                        }
                    }
                }
                assert(u.drop_first() =~= t);
                assert(escape(u) == escape_byte(s[1]) + escape(t));
                assert(escape_byte(s[1]) =~= seq![BACKSLASH, s[1]]);
                assert(escape(u) + request_suffix() =~= seq![BACKSLASH, s[1]] + (escape(t)
                    + request_suffix()));
                assert(seq![BACKSLASH, s[1]] + s.skip(2) =~= s);
                assert(unescape(s) == Some(u));
            }
        }
    } else if valid_username_byte(s[0]) {
        lemma_unescape_sound(s.skip(1));
        if unescape(s.skip(1)) is Some {
            let t = unescape(s.skip(1))->Some_0;
            let u = seq![s[0]] + t;
            assert(valid_username(u)) by {
                assert forall|i: int| 0 <= i < u.len() implies valid_username_byte(u[i]) by {
                    if i > 0 {
                        assert(u[i] == t[i - 1]);
                    }
                }
            }
            assert(u.drop_first() =~= t);
            assert(escape(u) == escape_byte(s[0]) + escape(t));
            assert(escape_byte(s[0]) =~= seq![s[0]]);
            assert(escape(u) + request_suffix() =~= seq![s[0]] + (escape(t) + request_suffix()));
            assert(seq![s[0]] + s.skip(1) =~= s);
            assert(unescape(s) == Some(u));
        }
    }
}

/// Round trip through values: decoding the encoding of any well-formed
/// envelope gives that envelope back.
pub proof fn lemma_decode_encode(e: EnvelopeView)
    requires
        e.wf(),
    ensures
        decode_spec(encode_spec(e)) == Some(e),
{
    match e {
        EnvelopeView::LoginRequest { username } => {
            let enc = encode_spec(e);
            assert(enc[16] == request_prefix()[16]);
            assert(request_prefix()[16] == 113);
            assert(response_true()[16] == 115);
            assert(response_false()[16] == 115);
            assert(enc != response_true());
            assert(enc != response_false());
            assert(enc.len() >= request_prefix().len());
            assert(enc.take(request_prefix().len() as int) =~= request_prefix());
            assert(enc.skip(request_prefix().len() as int) =~= escape(username)
                + request_suffix());
            lemma_unescape_escape(username);
        },
        EnvelopeView::LoginResponse { success } => {
            assert(response_true().len() != response_false().len());
        },
    }
}

/// Round trip through bytes: any byte string that decodes came from the
/// encoder, byte for byte, and decodes to a well-formed envelope.
pub proof fn lemma_encode_decode(b: Seq<u8>, e: EnvelopeView)
    requires
        decode_spec(b) == Some(e),
    ensures
        e.wf(),
        encode_spec(e) == b,
{
    if b == response_true() {
    } else if b == response_false() {
    } else {
        let plen = request_prefix().len() as int;
        lemma_unescape_sound(b.skip(plen));
        let u = unescape(b.skip(plen))->Some_0;
        assert(e == EnvelopeView::LoginRequest { username: u });
        assert(encode_spec(e) == request_prefix() + escape(u) + request_suffix());
        assert(escape(u) + request_suffix() == b.skip(plen));
        assert(b.take(plen) == request_prefix());
        assert(encode_spec(e) =~= b.take(plen) + b.skip(plen));
        assert(b.take(plen) + b.skip(plen) =~= b);
    }
}

} // verus!
