//! The client and server handshake as state machines. Each step takes the
//! current state and what the transport reported, and returns the next state
//! and what the transport must do next; the caller performs the I/O.
use vstd::prelude::*;
use vstd::utf8::encode_utf8;
use crate::frame::{
    is_fake_header, lemma_reply_delivered, lemma_request_delivered,
    carries_reply, carries_request, frames, message_bytes, read_reply, read_request, write_msg,
    sealed_len_ok, Payload, MAX_HEADER_LEN, MAX_MSG_LEN, MAX_READ_LEN,
};
use crate::key::{Cipher, NONCE_LEN};
use crate::payload::{reply_bytes, reply_of, request_bytes, request_of, Req, Resp, REP_OK};

verus! {

/// What the transport must do next.
pub enum Action {
    /// Write these bytes in one call.
    Send(Vec<u8>),
    /// Perform one read and report what arrived.
    Receive,
    /// The handshake is over; the outcome is in the state.
    Close,
}

/// What the transport reports to the state machine.
pub enum Event {
    /// The connection is ready; the handshake begins.
    Start,
    /// The last `Send` was written in full.
    Sent,
    /// One read delivered these bytes.
    Received(Vec<u8>),
    /// A read or write failed.
    IoError,
}

/// Client side: `Idle`, then `SendingRequest`, `AwaitingReply`, and
/// `Established` or `Failed`.
#[derive(PartialEq, Eq, Structural, Clone, Copy, Debug)]
pub enum ClientState {
    Idle,
    SendingRequest,
    AwaitingReply,
    Established,
    Failed,
}

/// Server side: `Idle`, then `AwaitingRequest`, `SendingReply` with the
/// requested destination, and `Established` with it, or `Failed`.
pub enum ServerState {
    Idle,
    AwaitingRequest,
    SendingReply(String, u16),
    Established(String, u16),
    Failed,
}

/// `m` is a message for `plain` under `key` behind `header`, with some nonce,
/// at most `MAX_MSG_LEN` bytes long.
pub open spec fn is_message_for(key: Seq<u8>, header: Seq<u8>, plain: Seq<u8>, m: Seq<u8>) -> bool {
    &&& m.len() <= MAX_MSG_LEN
    &&& exists|nonce: Seq<u8>|
        nonce.len() == NONCE_LEN && sealed_len_ok(key, nonce, plain) && m == #[trigger] message_bytes(
            key,
            header,
            nonce,
            plain,
        )
}

/// One step of the client handshake towards `host` and `port`. Any I/O
/// failure, unexpected event, unreadable reply or non-success code fails the
/// handshake for good.
pub fn client_step(
    cipher: &Cipher,
    header: &[u8],
    host: &str,
    port: u16,
    state: ClientState,
    event: Event,
) -> (r: (ClientState, Action))
    ensures
        state is Idle && event is Start ==> if encode_utf8(host@).len() <= 255 && header@.len()
            <= MAX_HEADER_LEN {
            r.0 is SendingRequest && (r.1 matches Action::Send(m) && is_message_for(
                cipher.key(),
                header@,
                request_bytes(encode_utf8(host@), port),
                m@,
            ))
        } else {
            r.0 is Failed && r.1 is Close
        },
        state is SendingRequest && event is Sent ==> r.0 is AwaitingReply && r.1 is Receive,
        state is AwaitingReply ==> (event matches Event::Received(b) ==> r.1 is Close && (r.0
            is Established <==> b@.len() <= MAX_READ_LEN && carries_reply(cipher.key(), b@, REP_OK))
            && (r.0 is Established ==> forall|q: Seq<u8>|
                #[trigger] frames(cipher.key(), b@, q) ==> reply_of(q) == Some(REP_OK))
            && (r.0 is Established || r.0 is Failed)),
        !(state is Idle && event is Start) && !(state is SendingRequest && event is Sent) && !(
        state is AwaitingReply && event is Received) ==> r.0 == (if state is Established {
            ClientState::Established
        } else {
            ClientState::Failed
        }) && r.1 is Close,
{
    match (state, event) {
        (ClientState::Idle, Event::Start) => {
            if host.as_bytes().len() > 255 || header.len() > MAX_HEADER_LEN {
                return (ClientState::Failed, Action::Close);
            }
            let req = Req { host: host.to_owned(), port };
            assert(req.host@ == host@);
            let mut buf: Vec<u8> = Vec::new();
            write_msg(&mut buf, cipher, header, &Payload::Request(req));
            proof {
                let ghost n = choose|nonce: Seq<u8>|
                    nonce.len() == NONCE_LEN && sealed_len_ok(cipher.key(), nonce, request_bytes(encode_utf8(host@), port)) && buf@ == Seq::<u8>::empty() + message_bytes(
                        cipher.key(),
                        header@,
                        nonce,
                        request_bytes(encode_utf8(host@), port),
                    );
                assert(buf@ =~= message_bytes(cipher.key(), header@, n, request_bytes(encode_utf8(host@), port)));
            }
            (ClientState::SendingRequest, Action::Send(buf))
        },
        (ClientState::SendingRequest, Event::Sent) => (ClientState::AwaitingReply, Action::Receive),
        (ClientState::AwaitingReply, Event::Received(b)) => {
            match read_reply(b.as_slice(), cipher) {
                Some(p) => {
                    if p.0 == REP_OK {
                        (ClientState::Established, Action::Close)
                    } else {
                        (ClientState::Failed, Action::Close)
                    }
                },
                None => (ClientState::Failed, Action::Close),
            }
        },
        (ClientState::Established, _) => (ClientState::Established, Action::Close),
        _ => (ClientState::Failed, Action::Close),
    }
}

/// One step of the server handshake. On a valid request the server replies
/// with success at once and keeps the destination; on anything else it fails
/// without sending a byte.
pub fn server_step(cipher: &Cipher, header: &[u8], state: ServerState, event: Event) -> (r: (
    ServerState,
    Action,
))
    ensures
        state is Idle && event is Start ==> r.0 is AwaitingRequest && r.1 is Receive,
        state is AwaitingRequest ==> (event matches Event::Received(b) ==> match r.0 {
            ServerState::SendingReply(h, p) => b@.len() <= MAX_READ_LEN && carries_request(
                cipher.key(),
                b@,
                h@,
                p,
            ) && (forall|q: Seq<u8>| #[trigger] frames(cipher.key(), b@, q) ==> request_of(q) == Some((h@, p)))
                && header@.len() <= MAX_HEADER_LEN && (r.1 matches Action::Send(m) && is_message_for(
                cipher.key(),
                header@,
                reply_bytes(REP_OK),
                m@,
            )),
            ServerState::Failed => r.1 is Close && (b@.len() > MAX_READ_LEN || header@.len()
                > MAX_HEADER_LEN || forall|p: Seq<u8>|
                #[trigger] frames(cipher.key(), b@, p) ==> request_of(p) is None),
            _ => false,
        }),
        state matches ServerState::SendingReply(h, p) ==> (event is Sent ==> r.0 == ServerState::Established(h, p) && r.1 is Close),
        !(state is Idle && event is Start) && !(state is AwaitingRequest && event is Received) && !(
        state is SendingReply && event is Sent) ==> r.1 is Close && (if state is Established {
            r.0 == state
        } else {
            r.0 is Failed
        }),
{
    match (state, event) {
        (ServerState::Idle, Event::Start) => (ServerState::AwaitingRequest, Action::Receive),
        (ServerState::AwaitingRequest, Event::Received(b)) => {
            if header.len() > MAX_HEADER_LEN {
                return (ServerState::Failed, Action::Close);
            }
            match read_request(b.as_slice(), cipher) {
                Some(q) => {
                    let mut buf: Vec<u8> = Vec::new();
                    write_msg(&mut buf, cipher, header, &Payload::Reply(Resp(REP_OK)));
                    proof {
                        let ghost n = choose|nonce: Seq<u8>|
                            nonce.len() == NONCE_LEN && sealed_len_ok(cipher.key(), nonce, reply_bytes(REP_OK)) && buf@ == Seq::<u8>::empty() + message_bytes(
                                cipher.key(),
                                header@,
                                nonce,
                                reply_bytes(REP_OK),
                            );
                        assert(buf@ =~= message_bytes(cipher.key(), header@, n, reply_bytes(REP_OK)));
                    }
                    (ServerState::SendingReply(q.host, q.port), Action::Send(buf))
                },
                None => (ServerState::Failed, Action::Close),
            }
        },
        (ServerState::SendingReply(h, p), Event::Sent) => (ServerState::Established(h, p), Action::Close),
        (ServerState::Established(h, p), _) => (ServerState::Established(h, p), Action::Close),
        _ => (ServerState::Failed, Action::Close),
    }
}

/// The request that a client step sends behind a usable fake header, for a
/// host of one to 255 UTF-8 bytes, fits the server's read limit and carries
/// exactly that host and port under the shared key. By `server_step`'s
/// contract the server then moves to `SendingReply` with that destination.
pub proof fn lemma_client_request_accepted(
    key: Seq<u8>,
    header: Seq<u8>,
    host: Seq<char>,
    port: u16,
    m: Seq<u8>,
)
    requires
        is_fake_header(header),
        1 <= encode_utf8(host).len() <= 255,
        is_message_for(key, header, request_bytes(encode_utf8(host), port), m),
    ensures
        m.len() <= MAX_READ_LEN,
        carries_request(key, m, host, port),
{
    let plain = request_bytes(encode_utf8(host), port);
    let n = choose|nonce: Seq<u8>|
        nonce.len() == NONCE_LEN && sealed_len_ok(key, nonce, plain) && m == #[trigger] message_bytes(key, header, nonce, plain);
    lemma_request_delivered(key, header, n, host, port);
}

/// The success reply that a server step sends behind a usable fake header fits
/// the client's read limit and carries code `REP_OK` under the shared key. By
/// `client_step`'s contract the client then becomes `Established`.
pub proof fn lemma_server_reply_accepted(key: Seq<u8>, header: Seq<u8>, m: Seq<u8>)
    requires
        is_fake_header(header),
        is_message_for(key, header, reply_bytes(REP_OK), m),
    ensures
        m.len() <= MAX_READ_LEN,
        carries_reply(key, m, REP_OK),
{
    let plain = reply_bytes(REP_OK);
    let n = choose|nonce: Seq<u8>|
        nonce.len() == NONCE_LEN && sealed_len_ok(key, nonce, plain) && m == #[trigger] message_bytes(key, header, nonce, plain);
    lemma_reply_delivered(key, header, n, REP_OK);
}

} // verus!
