use fakehttp_tunnel::frame::{
    find_eoh, read_msg, read_reply, read_request, write_msg, write_msg_with_nonce, Payload,
    MAX_HEADER_LEN, MAX_MSG_LEN,
};
use fakehttp_tunnel::handshake::{client_step, server_step, Action, ClientState, Event, ServerState};
use fakehttp_tunnel::header::{fake_req_header, fake_resp_header, get_fake_header};
use fakehttp_tunnel::key::{gen_psk, init_cipher, nonce_size, trimmed_ascii, Cipher, NONCE_LEN};
use fakehttp_tunnel::payload::{Req, Resp, REP_OK};
use chacha20poly1305::aead::OsRng;
use chacha20poly1305::{AeadCore, AeadInPlace, ChaCha20Poly1305, KeyInit};

fn new_cipher() -> Cipher {
    init_cipher(gen_psk().as_bytes()).unwrap()
}

fn zero_cipher() -> Cipher {
    Cipher::from_key(vec![0u8; 32]).unwrap()
}

fn request(host: &str, port: u16) -> Payload {
    Payload::Request(Req { host: host.to_owned(), port })
}

/// Runs a client and a server against each other in memory; returns what
/// each side ends with.
fn run_pair(client: &Cipher, server: &Cipher, host: &str, port: u16) -> (Option<()>, Option<(String, u16)>) {
    let header = fake_req_header();
    let (mut cs, a) = client_step(client, header, host, port, ClientState::Idle, Event::Start);
    let (mut ss, b) = server_step(server, fake_resp_header(), ServerState::Idle, Event::Start);
    assert!(matches!(b, Action::Receive));
    let msg = match a {
        Action::Send(m) => m,
        _ => return (None, None),
    };
    let (c2, a2) = client_step(client, header, host, port, cs, Event::Sent);
    cs = c2;
    assert!(matches!(a2, Action::Receive));
    let (s2, b2) = server_step(server, fake_resp_header(), ss, Event::Received(msg));
    ss = s2;
    let reply = match b2 {
        Action::Send(m) => m,
        _ => {
            assert!(matches!(ss, ServerState::Failed));
            return (None, None);
        }
    };
    let (s3, _) = server_step(server, fake_resp_header(), ss, Event::Sent);
    let (c3, a3) = client_step(client, header, host, port, cs, Event::Received(reply));
    assert!(matches!(a3, Action::Close));
    let c = if c3 == ClientState::Established { Some(()) } else { None };
    let s = match s3 {
        ServerState::Established(h, p) => Some((h, p)),
        _ => None,
    };
    (c, s)
}

#[test]
fn test_payload() {
    let cipher = new_cipher();
    let nonce = ChaCha20Poly1305::generate_nonce(&mut OsRng);
    assert_eq!(nonce.len(), NONCE_LEN);
    assert_eq!(nonce_size(), NONCE_LEN);

    let mut buf: Vec<u8> = Vec::with_capacity(1024);
    let req = Req { host: "example.com".to_owned(), port: 443 };
    write_msg(&mut buf, &cipher, &fake_req_header(), &Payload::Request(req.clone()));
    let req_r: Req = read_request(&buf, &cipher).unwrap();
    assert_eq!(req, req_r);
}

#[test]
fn test_handshake() {
    let cipher = new_cipher();
    let (c, s) = run_pair(&cipher, &cipher, "example.com", 443);
    assert_eq!(Some(()), c);
    assert_eq!(Some(("example.com".to_owned(), 443)), s);
}

#[test]
fn request_round_trip() {
    let long = "h".repeat(255);
    for (host, port) in [("a", 0u16), ("example.com", 443), ("b\u{e9}\u{4e2d}", 65535), (long.as_str(), 1)] {
        let q = Req { host: host.to_owned(), port };
        let mut b = Vec::new();
        q.write(&mut b);
        assert_eq!(b.len(), 4 + host.len());
        assert_eq!(q.len(), b.len());
        assert_eq!(Req::read(&b), Some(q));
    }
}

#[test]
fn request_exact_bytes() {
    let mut b = Vec::new();
    Req { host: "ab".to_owned(), port: 0x1bb }.write(&mut b);
    assert_eq!(b, vec![0, 2, b'a', b'b', 0x01, 0xbb]);
}

#[test]
fn request_decode_rejects() {
    assert_eq!(Req::read(&[1, 1, b'a', 0, 80]), None);
    assert_eq!(Req::read(&[0, 2, b'a', 0, 80]), None);
    assert_eq!(Req::read(&[0, 1, b'a', 0, 80, 0]), None);
    assert_eq!(Req::read(&[0, 1, 0xff, 0, 80]), None);
    assert_eq!(Req::read(&[0, 0, 0]), None);
    assert_eq!(Req::read(&[]), None);
    assert_eq!(
        Req::read(&[0, 1, b'a', 0, 80]),
        Some(Req { host: "a".to_owned(), port: 80 })
    );
}

#[test]
fn reply_round_trip() {
    for code in [0u8, 1, 7, 255] {
        let mut b = Vec::new();
        Resp(code).write(&mut b);
        assert_eq!(b, vec![code]);
        assert_eq!(Resp(code).len(), 1);
        assert_eq!(Resp::read(&b), Some(Resp(code)));
    }
    assert_eq!(Resp::read(&[]), None);
    assert_eq!(Resp::read(&[0, 0]), None);
}

#[test]
fn reply_through_cipher() {
    let cipher = new_cipher();
    for code in [0u8, 3, 255] {
        let mut buf = Vec::new();
        write_msg(&mut buf, &cipher, fake_resp_header(), &Payload::Reply(Resp(code)));
        assert_eq!(read_reply(&buf, &cipher), Some(Resp(code)));
        assert_eq!(read_request(&buf, &cipher), None);
    }
}

#[test]
fn message_layout() {
    let cipher = zero_cipher();
    let nonce = [7u8; 12];
    let mut buf = vec![9u8];
    let header = fake_req_header();
    write_msg_with_nonce(&mut buf, &cipher, header, &request("ab", 80), &nonce);
    assert_eq!(buf[0], 9);
    assert_eq!(&buf[1..1 + header.len()], header);
    let n = 1 + header.len();
    assert_eq!(&buf[n..n + 12], &nonce);
    assert_eq!(&buf[n + 12..n + 14], &[0, 6 + 16]);
    assert_eq!(buf.len(), n + 14 + 6 + 16);
    // the plaintext does not appear in clear
    assert_ne!(&buf[n + 14..n + 20], &[0, 2, b'a', b'b', 0, 80]);
    assert_eq!(read_request(&buf[1..], &cipher), Some(Req { host: "ab".to_owned(), port: 80 }));
    assert_eq!(read_msg(&buf[1..], &cipher), Some(vec![0, 2, b'a', b'b', 0, 80]));
}

#[test]
fn same_nonce_same_message() {
    let cipher = zero_cipher();
    let nonce = [1u8; 12];
    let mut a = Vec::new();
    let mut b = Vec::new();
    write_msg_with_nonce(&mut a, &cipher, fake_resp_header(), &Payload::Reply(Resp(0)), &nonce);
    write_msg_with_nonce(&mut b, &cipher, fake_resp_header(), &Payload::Reply(Resp(0)), &nonce);
    assert_eq!(a, b);
    let mut c = Vec::new();
    write_msg(&mut c, &cipher, fake_resp_header(), &Payload::Reply(Resp(0)));
    assert_eq!(c.len(), a.len());
}

#[test]
fn tamper_detection() {
    let cipher = new_cipher();
    let header = fake_req_header();
    let mut buf = Vec::new();
    write_msg(&mut buf, &cipher, header, &request("example.com", 443));
    for i in header.len()..buf.len() {
        for bit in 0..8 {
            let mut t = buf.clone();
            t[i] ^= 1 << bit;
            assert_eq!(read_request(&t, &cipher), None, "byte {} bit {}", i, bit);
        }
    }
    assert!(read_request(&buf, &cipher).is_some());
}

#[test]
fn truncated_or_headerless_messages_fail() {
    let cipher = new_cipher();
    let mut buf = Vec::new();
    write_msg(&mut buf, &cipher, fake_req_header(), &request("example.com", 443));
    for n in 0..buf.len() {
        assert_eq!(read_request(&buf[..n], &cipher), None);
    }
    assert_eq!(read_msg(b"GET / HTTP/1.1\r\n", &cipher), None);
    assert_eq!(read_msg(b"\r\n\r\nshort", &cipher), None);
}

#[test]
fn find_eoh_first_occurrence() {
    assert_eq!(find_eoh(b"ab\r\n\r\ncd\r\n\r\n"), Some(2));
    assert_eq!(find_eoh(b"\r\n\r\n"), Some(0));
    assert_eq!(find_eoh(b"\r\n\r"), None);
    assert_eq!(find_eoh(b""), None);
}

#[test]
fn builtin_headers() {
    assert_eq!(fake_req_header(), b"POST /upload HTTP/1.1\r\nHOST: www.apple.com\r\n\r\n");
    assert_eq!(fake_resp_header(), b"HTTP/1.1 200 OK\r\n\r\n");
    assert_eq!(find_eoh(fake_req_header()), Some(fake_req_header().len() - 4));
    assert_eq!(find_eoh(fake_resp_header()), Some(fake_resp_header().len() - 4));
}

#[test]
fn loaded_header_normalized() {
    let h = get_fake_header("\n  GET /index.html HTTP/1.1  \r\n\n\t\nHost: example.org\n   \n");
    assert_eq!(h, b"GET /index.html HTTP/1.1\r\nHost: example.org\r\n\r\n".to_vec());
    assert_eq!(find_eoh(&h), Some(h.len() - 4));
    let h2 = get_fake_header("\u{3000}x\u{a0}\r\n\r\n");
    assert_eq!(h2, b"x\r\n\r\n".to_vec());
    assert_eq!(get_fake_header(""), b"\r\n".to_vec());
}

#[test]
fn handshake_with_wrong_key_fails_silently() {
    let client = new_cipher();
    let server = new_cipher();
    let mut buf = Vec::new();
    write_msg(&mut buf, &client, fake_req_header(), &request("example.com", 443));
    let (s, a) = server_step(&server, fake_resp_header(), ServerState::AwaitingRequest, Event::Received(buf));
    assert!(matches!(s, ServerState::Failed));
    assert!(matches!(a, Action::Close));
    assert_eq!(run_pair(&client, &server, "example.com", 443), (None, None));
}

#[test]
fn client_rejects_failure_code() {
    let cipher = new_cipher();
    let mut buf = Vec::new();
    write_msg(&mut buf, &cipher, fake_resp_header(), &Payload::Reply(Resp(1)));
    let (s, a) = client_step(&cipher, fake_req_header(), "a", 1, ClientState::AwaitingReply, Event::Received(buf));
    assert_eq!(s, ClientState::Failed);
    assert!(matches!(a, Action::Close));
    let mut ok = Vec::new();
    write_msg(&mut ok, &cipher, fake_resp_header(), &Payload::Reply(Resp(REP_OK)));
    let (s, _) = client_step(&cipher, fake_req_header(), "a", 1, ClientState::AwaitingReply, Event::Received(ok));
    assert_eq!(s, ClientState::Established);
}

#[test]
fn io_errors_and_unexpected_events_fail() {
    let cipher = new_cipher();
    let (s, a) = client_step(&cipher, fake_req_header(), "a", 1, ClientState::SendingRequest, Event::IoError);
    assert_eq!(s, ClientState::Failed);
    assert!(matches!(a, Action::Close));
    let (s, _) = client_step(&cipher, fake_req_header(), "a", 1, ClientState::Idle, Event::Sent);
    assert_eq!(s, ClientState::Failed);
    let (s, a) = server_step(&cipher, fake_resp_header(), ServerState::AwaitingRequest, Event::IoError);
    assert!(matches!(s, ServerState::Failed));
    assert!(matches!(a, Action::Close));
    let (s, _) = server_step(&cipher, fake_resp_header(), ServerState::SendingReply("a".to_owned(), 1), Event::IoError);
    assert!(matches!(s, ServerState::Failed));
}

#[test]
fn client_refuses_oversized_input() {
    let cipher = new_cipher();
    let long = "h".repeat(256);
    let (s, a) = client_step(&cipher, fake_req_header(), &long, 1, ClientState::Idle, Event::Start);
    assert_eq!(s, ClientState::Failed);
    assert!(matches!(a, Action::Close));
    let big = vec![b'a'; MAX_HEADER_LEN + 1];
    let (s, _) = client_step(&cipher, &big, "a", 1, ClientState::Idle, Event::Start);
    assert_eq!(s, ClientState::Failed);
}

#[test]
fn size_bound_at_limits() {
    let cipher = new_cipher();
    let mut header = vec![b'x'; MAX_HEADER_LEN - 4];
    header.extend_from_slice(b"\r\n\r\n");
    let host = "h".repeat(255);
    let mut buf = Vec::new();
    write_msg(&mut buf, &cipher, &header, &request(&host, 65535));
    assert!(buf.len() <= MAX_MSG_LEN);
    assert_eq!(buf.len(), MAX_MSG_LEN);
    assert_eq!(read_request(&buf, &cipher), Some(Req { host, port: 65535 }));
}

#[test]
fn psk_loading() {
    let psk = gen_psk();
    assert_eq!(psk.len(), 43);
    assert!(init_cipher(format!("  {}\n", psk).as_bytes()).is_some());
    assert!(init_cipher(b"not base64!").is_none());
    assert!(init_cipher(b"AAAA").is_none());
    let zeros = "A".repeat(43);
    let a = init_cipher(zeros.as_bytes()).unwrap();
    let b = zero_cipher();
    let mut buf = Vec::new();
    write_msg(&mut buf, &a, fake_resp_header(), &Payload::Reply(Resp(5)));
    assert_eq!(read_reply(&buf, &b), Some(Resp(5)));
    assert!(Cipher::from_key(vec![0u8; 31]).is_none());
    assert_eq!(gen_psk() == psk, false);
}

#[test]
fn ascii_trim() {
    assert_eq!(trimmed_ascii(b" \t\r\nab c\n\x0c"), b"ab c".to_vec());
    assert_eq!(trimmed_ascii(b"   "), Vec::<u8>::new());
    assert_eq!(trimmed_ascii(b"\x0bx"), b"\x0bx".to_vec());
}

/// Builds a reply message by hand, sealing with `aad` as associated data and
/// writing `field` as the length field.
fn hand_sealed_reply(field: [u8; 2], aad: [u8; 2], code: u8) -> Vec<u8> {
    let c = ChaCha20Poly1305::new(chacha20poly1305::Key::from_slice(&[0u8; 32]));
    let nonce = [3u8; 12];
    let mut sealed = vec![code];
    c.encrypt_in_place(chacha20poly1305::Nonce::from_slice(&nonce), &aad, &mut sealed).unwrap();
    let mut m = fake_resp_header().to_vec();
    m.extend_from_slice(&nonce);
    m.extend_from_slice(&field);
    m.extend_from_slice(&sealed);
    m
}

#[test]
fn length_field_must_match_sealed_bytes() {
    let cipher = zero_cipher();
    let good = hand_sealed_reply([0, 17], [0, 17], 0);
    assert_eq!(read_reply(&good, &cipher), Some(Resp(0)));
    // authentic under its own associated data, but the field is off by one
    let off = hand_sealed_reply([0, 18], [0, 18], 0);
    assert_eq!(read_msg(&off, &cipher), None);
    assert_eq!(read_reply(&off, &cipher), None);
    let mut trailing = good.clone();
    trailing.push(0);
    assert_eq!(read_reply(&trailing, &cipher), None);
}
