//! Handshake messages on the wire: fake header, nonce, length field and the
//! sealed payload.
use vstd::prelude::*;
use vstd::slice::{slice_subrange, slice_to_vec};
use crate::key::{Cipher, sealed_of, random_nonce, NONCE_LEN, OVERHEAD_LEN};
use crate::payload::{be16, from_be16, request_bytes, reply_bytes, request_of, reply_of, Req, Resp};
use vstd::utf8::encode_utf8;

verus! {

/// Hard cap on the size of a handshake message.
pub const MAX_MSG_LEN: usize = 1280;

/// Longest plaintext a payload can have: a request for a 255-byte host.
pub const MAX_PLAIN_LEN: usize = 259;

/// Longest fake header that still lets every message fit under `MAX_MSG_LEN`.
pub const MAX_HEADER_LEN: usize = 991;

/// Longest input that `read_msg` tries to open.
pub const MAX_READ_LEN: usize = 65536;

/// The end-of-header terminator CR LF CR LF starts at `i` in `b`.
pub open spec fn is_eoh_at(b: Seq<u8>, i: int) -> bool {
    0 <= i && i + 4 <= b.len() && b[i] == 13 && b[i + 1] == 10 && b[i + 2] == 13 && b[i + 3]
        == 10
}

/// `e` is the first position of the terminator in `b`.
pub open spec fn first_eoh_at(b: Seq<u8>, e: int) -> bool {
    is_eoh_at(b, e) && forall|j: int| 0 <= j < e ==> !#[trigger] is_eoh_at(b, j)
}

/// A usable fake header: it ends with the terminator and holds no earlier one.
pub open spec fn is_fake_header(h: Seq<u8>) -> bool {
    h.len() >= 4 && first_eoh_at(h, h.len() - 4)
}

/// The message that carries `plain` sealed under `key` with `nonce`, behind
/// `header`.
pub open spec fn message_bytes(key: Seq<u8>, header: Seq<u8>, nonce: Seq<u8>, plain: Seq<u8>) -> Seq<u8> {
    let len = be16((plain.len() + OVERHEAD_LEN) as u16);
    header + nonce + len + sealed_of(key, nonce, len, plain)
}

/// Sealing `plain` for a message left ciphertext and tag, `OVERHEAD_LEN` bytes
/// longer than `plain`, as `Cipher::seal_in_place` always does.
pub open spec fn sealed_len_ok(key: Seq<u8>, nonce: Seq<u8>, plain: Seq<u8>) -> bool {
    sealed_of(key, nonce, be16((plain.len() + OVERHEAD_LEN) as u16), plain).len() == plain.len()
        + OVERHEAD_LEN
}

/// The terminator at `e` is followed in `b` by a nonce, a length field equal
/// to the number of bytes after it, and a sealed part that opens under `key`
/// to `plain`.
pub open spec fn frames_at(key: Seq<u8>, b: Seq<u8>, e: int, plain: Seq<u8>) -> bool {
    &&& e + 18 <= b.len()
    &&& b.len() == e + 18 + from_be16(b[e + 16], b[e + 17])
    &&& sealed_of(key, b.subrange(e + 4, e + 16), b.subrange(e + 16, e + 18), plain) == b.subrange(
        e + 18,
        b.len() as int,
    )
}

/// `b` is a message whose sealed part, found after the first terminator, opens
/// under `key` to `plain`.
pub open spec fn frames(key: Seq<u8>, b: Seq<u8>, plain: Seq<u8>) -> bool {
    exists|e: int| #![trigger first_eoh_at(b, e)] first_eoh_at(b, e) && frames_at(key, b, e, plain)
}

/// `b` is a message that carries a request for `host` and `port` under `key`.
pub open spec fn carries_request(key: Seq<u8>, b: Seq<u8>, host: Seq<char>, port: u16) -> bool {
    exists|p: Seq<u8>| #[trigger] frames(key, b, p) && request_of(p) == Some((host, port))
}

/// `b` is a message that carries a reply with `code` under `key`.
pub open spec fn carries_reply(key: Seq<u8>, b: Seq<u8>, code: u8) -> bool {
    exists|p: Seq<u8>| #[trigger] frames(key, b, p) && reply_of(p) == Some(code)
}

/// The two payload kinds that a handshake message carries.
pub enum Payload {
    Request(Req),
    Reply(Resp),
}

impl Payload {
    pub open spec fn wf(&self) -> bool {
        match self {
            Payload::Request(q) => q.wf(),
            Payload::Reply(_) => true,
        }
    }

    /// The payload's plaintext.
    pub open spec fn spec_bytes(&self) -> Seq<u8> {
        match self {
            Payload::Request(q) => q.spec_bytes(),
            Payload::Reply(p) => p.spec_bytes(),
        }
    }

    /// Length of the plaintext.
    pub fn len(&self) -> (r: usize)
        requires
            self.wf(),
        ensures
            r == self.spec_bytes().len(),
            r <= MAX_PLAIN_LEN,
    {
        match self {
            Payload::Request(q) => q.len(),
            Payload::Reply(p) => p.len(),
        }
    }

    /// Appends the plaintext to `buf`.
    pub fn write(&self, buf: &mut Vec<u8>)
        requires
            self.wf(),
        ensures
            final(buf)@ == old(buf)@ + self.spec_bytes(),
    {
        match self {
            Payload::Request(q) => q.write(buf),
            Payload::Reply(p) => p.write(buf),
        }
    }
}

fn append(buf: &mut Vec<u8>, s: &[u8])
    ensures
        final(buf)@ == old(buf)@ + s@,
{
    let mut i: usize = 0;
    while i < s.len()
        invariant
            i <= s@.len(),
            buf@ == old(buf)@ + s@.subrange(0, i as int),
        decreases s@.len() - i,
    {
        buf.push(s[i]);
        assert(s@.subrange(0, i + 1) =~= s@.subrange(0, i as int).push(s@[i as int]));
        i += 1;
    }
    assert(s@.subrange(0, s@.len() as int) =~= s@);
}

/// Appends to `buf` the message for `payload` sealed with the given nonce:
/// `header`, nonce, big-endian length of ciphertext and tag, then ciphertext
/// and tag, the length field serving as associated data.
pub fn write_msg_with_nonce(
    buf: &mut Vec<u8>,
    cipher: &Cipher,
    header: &[u8],
    payload: &Payload,
    nonce: &[u8],
)
    requires
        payload.wf(),
        header@.len() <= MAX_HEADER_LEN,
        nonce@.len() == NONCE_LEN,
    ensures
        final(buf)@ == old(buf)@ + message_bytes(cipher.key(), header@, nonce@, payload.spec_bytes()),
        sealed_len_ok(cipher.key(), nonce@, payload.spec_bytes()),
        final(buf)@.len() == old(buf)@.len() + header@.len() + NONCE_LEN + 2 + payload.spec_bytes().len()
            + OVERHEAD_LEN,
        message_bytes(cipher.key(), header@, nonce@, payload.spec_bytes()).len() <= MAX_MSG_LEN,
{
    append(buf, header);
    append(buf, nonce);
    let len = (payload.len() + OVERHEAD_LEN) as u16;
    let mut aad: Vec<u8> = Vec::new();
    aad.push((len / 256) as u8);
    aad.push((len % 256) as u8);
    assert(aad@ =~= be16(len));
    append(buf, aad.as_slice());
    let mut plain: Vec<u8> = Vec::new();
    payload.write(&mut plain);
    assert(plain@ =~= payload.spec_bytes());
    cipher.seal_in_place(nonce, aad.as_slice(), &mut plain);
    append(buf, plain.as_slice());
    assert(final(buf)@ =~= old(buf)@ + message_bytes(cipher.key(), header@, nonce@, payload.spec_bytes()));
}

/// Appends to `buf` the message for `payload`, sealed under a fresh random
/// nonce.
pub fn write_msg(buf: &mut Vec<u8>, cipher: &Cipher, header: &[u8], payload: &Payload)
    requires
        payload.wf(),
        header@.len() <= MAX_HEADER_LEN,
    ensures
        exists|nonce: Seq<u8>|
            nonce.len() == NONCE_LEN && sealed_len_ok(cipher.key(), nonce, payload.spec_bytes())
                && final(buf)@ == old(buf)@ + message_bytes(
                cipher.key(),
                header@,
                nonce,
                payload.spec_bytes(),
            ),
        final(buf)@.len() == old(buf)@.len() + header@.len() + NONCE_LEN + 2 + payload.spec_bytes().len()
            + OVERHEAD_LEN,
        final(buf)@.len() <= old(buf)@.len() + MAX_MSG_LEN,
{
    let nonce = random_nonce();
    write_msg_with_nonce(buf, cipher, header, payload, nonce.as_slice());
}

/// Position of the first terminator in `b`, if any.
pub fn find_eoh(b: &[u8]) -> (r: Option<usize>)
    ensures
        match r {
            Some(e) => first_eoh_at(b@, e as int),
            None => forall|j: int| !#[trigger] is_eoh_at(b@, j),
        },
{
    let n = b.len();
    let mut i: usize = 0;
    while n >= 4 && i <= n - 4
        invariant
            i <= n == b@.len(),
            forall|j: int| 0 <= j < i ==> !#[trigger] is_eoh_at(b@, j),
        decreases n - i,
    {
        if b[i] == 13 && b[i + 1] == 10 && b[i + 2] == 13 && b[i + 3] == 10 {
            return Some(i);
        }
        i += 1;
    }
    None
}

proof fn lemma_first_eoh_unique(b: Seq<u8>, e1: int, e2: int)
    requires
        first_eoh_at(b, e1),
        first_eoh_at(b, e2),
    ensures
        e1 == e2,
{
    if e1 < e2 {
        assert(!is_eoh_at(b, e1));
    } else if e2 < e1 {
        assert(!is_eoh_at(b, e2));
    }
}

/// Tells whether `h` ends with the terminator and holds no earlier one.
pub fn valid_fake_header(h: &[u8]) -> (r: bool)
    ensures
        r == is_fake_header(h@),
{
    match find_eoh(h) {
        Some(e) => {
            proof {
                if h@.len() >= 4 && is_fake_header(h@) {
                    lemma_first_eoh_unique(h@, e as int, h@.len() - 4);
                }
            }
            h.len() >= 4 && e == h.len() - 4
        },
        None => false,
    }
}

/// Locates the sealed payload after the first terminator, checks the length
/// field against it and opens it. The result is the one plaintext that `buf`
/// frames, if there is one.
pub fn read_msg(buf: &[u8], cipher: &Cipher) -> (r: Option<Vec<u8>>)
    ensures
        buf@.len() > MAX_READ_LEN ==> r is None,
        match r {
            Some(p) => frames(cipher.key(), buf@, p@) && forall|q: Seq<u8>|
                #[trigger] frames(cipher.key(), buf@, q) ==> q == p@,
            None => buf@.len() > MAX_READ_LEN || forall|q: Seq<u8>| !#[trigger] frames(cipher.key(), buf@, q),
        },
{
    if buf.len() > MAX_READ_LEN {
        return None;
    }
    let ghost key = cipher.key();
    let e = match find_eoh(buf) {
        Some(e) => e,
        None => {
            assert forall|q: Seq<u8>| !#[trigger] frames(key, buf@, q) by {
                if frames(key, buf@, q) {
                    let e2 = choose|e2: int| #[trigger] first_eoh_at(buf@, e2) && frames_at(key, buf@, e2, q);
                    assert(is_eoh_at(buf@, e2));
                }
            }
            return None;
        },
    };
    let n = buf.len();
    if e + 4 + NONCE_LEN + 2 > n || buf[e + 16] as usize * 256 + buf[e + 17] as usize != n - (e + 18) {
        assert forall|q: Seq<u8>| !#[trigger] frames(key, buf@, q) by {
            if frames(key, buf@, q) {
                let e2 = choose|e2: int| #[trigger] first_eoh_at(buf@, e2) && frames_at(key, buf@, e2, q);
                lemma_first_eoh_unique(buf@, e as int, e2);
            }
        }
        return None;
    }
    let nonce = slice_subrange(buf, e + 4, e + 16);
    let aad = slice_subrange(buf, e + 16, e + 18);
    let mut plain = slice_to_vec(slice_subrange(buf, e + 18, n));
    let ghost sealed = plain@;
    if cipher.open_in_place(nonce, aad, &mut plain) {
        assert(frames(key, buf@, plain@)) by {
            assert(first_eoh_at(buf@, e as int) && frames_at(key, buf@, e as int, plain@));
        }
        assert forall|q: Seq<u8>| #[trigger] frames(key, buf@, q) implies q == plain@ by {
            let e2 = choose|e2: int| #[trigger] first_eoh_at(buf@, e2) && frames_at(key, buf@, e2, q);
            lemma_first_eoh_unique(buf@, e as int, e2);
            assert(sealed_of(key, nonce@, aad@, q) == sealed);
        }
        Some(plain)
    } else {
        assert forall|q: Seq<u8>| !#[trigger] frames(key, buf@, q) by {
            if frames(key, buf@, q) {
                let e2 = choose|e2: int| #[trigger] first_eoh_at(buf@, e2) && frames_at(key, buf@, e2, q);
                lemma_first_eoh_unique(buf@, e as int, e2);
                assert(sealed_of(key, nonce@, aad@, q) == sealed);
            }
        }
        None
    }
}

/// Reads a message that carries a request; `None` when no header terminator,
/// no authentic sealed part or no valid request is found.
pub fn read_request(buf: &[u8], cipher: &Cipher) -> (r: Option<Req>)
    ensures
        buf@.len() > MAX_READ_LEN ==> r is None,
        match r {
            Some(q) => q.wf() && carries_request(cipher.key(), buf@, q.host@, q.port) && forall|p: Seq<u8>|
                #[trigger] frames(cipher.key(), buf@, p) ==> request_of(p) == Some((q.host@, q.port)),
            None => buf@.len() > MAX_READ_LEN || forall|p: Seq<u8>|
                #[trigger] frames(cipher.key(), buf@, p) ==> request_of(p) is None,
        },
{
    match read_msg(buf, cipher) {
        Some(plain) => {
            let r = Req::read(plain.as_slice());
            proof {
                assert(frames(cipher.key(), buf@, plain@));
            }
            r
        },
        None => None,
    }
}

/// Reads a message that carries a reply; `None` when no header terminator, no
/// authentic sealed part or no valid reply is found.
pub fn read_reply(buf: &[u8], cipher: &Cipher) -> (r: Option<Resp>)
    ensures
        buf@.len() > MAX_READ_LEN ==> r is None,
        match r {
            Some(p) => carries_reply(cipher.key(), buf@, p.0) && forall|q: Seq<u8>|
                #[trigger] frames(cipher.key(), buf@, q) ==> reply_of(q) == Some(p.0),
            None => buf@.len() > MAX_READ_LEN || forall|p: Seq<u8>|
                #[trigger] frames(cipher.key(), buf@, p) ==> reply_of(p) is None,
        },
{
    match read_msg(buf, cipher) {
        Some(plain) => {
            let r = Resp::read(plain.as_slice());
            proof {
                assert(frames(cipher.key(), buf@, plain@));
            }
            r
        },
        None => None,
    }
}

/// Every message written behind a usable fake header frames the plaintext it
/// was built from, under the same key.
pub proof fn lemma_message_frames(key: Seq<u8>, header: Seq<u8>, nonce: Seq<u8>, plain: Seq<u8>)
    requires
        is_fake_header(header),
        nonce.len() == NONCE_LEN,
        plain.len() <= MAX_PLAIN_LEN,
        sealed_len_ok(key, nonce, plain),
    ensures
        frames(key, message_bytes(key, header, nonce, plain), plain),
{
    let m = message_bytes(key, header, nonce, plain);
    let e = header.len() - 4;
    let len = be16((plain.len() + OVERHEAD_LEN) as u16);
    assert(m.subrange(0, header.len() as int) =~= header);
    assert forall|j: int| 0 <= j < e implies !#[trigger] is_eoh_at(m, j) by {
        assert(!is_eoh_at(header, j));
        assert(m[j] == header[j] && m[j + 1] == header[j + 1] && m[j + 2] == header[j + 2] && m[j + 3] == header[j + 3]);
    }
    assert(is_eoh_at(header, e));
    assert(m[e] == header[e] && m[e + 1] == header[e + 1] && m[e + 2] == header[e + 2] && m[e + 3] == header[e + 3]);
    assert(first_eoh_at(m, e));
    assert(m.subrange(e + 4, e + 16) =~= nonce);
    assert(m.subrange(e + 16, e + 18) =~= len);
    assert(m.subrange(e + 18, m.len() as int) =~= sealed_of(key, nonce, len, plain));
    let v = (plain.len() + OVERHEAD_LEN) as u16;
    assert(from_be16((v / 256) as u8, (v % 256) as u8) == v);
    assert(frames_at(key, m, e, plain));
}

/// A request message that a client builds for a host of one to 255 UTF-8
/// bytes and a port, behind a usable fake header, carries exactly that host
/// and port to a server holding the same key, and no other.
pub proof fn lemma_request_delivered(key: Seq<u8>, header: Seq<u8>, nonce: Seq<u8>, host: Seq<char>, port: u16)
    requires
        is_fake_header(header),
        nonce.len() == NONCE_LEN,
        1 <= encode_utf8(host).len() <= 255,
        sealed_len_ok(key, nonce, request_bytes(encode_utf8(host), port)),
    ensures
        carries_request(key, message_bytes(key, header, nonce, request_bytes(encode_utf8(host), port)), host, port),
{
    let p = request_bytes(encode_utf8(host), port);
    crate::payload::lemma_request_round_trip(host, port);
    lemma_message_frames(key, header, nonce, p);
}

/// A reply message built behind a usable fake header carries exactly its code
/// to a client holding the same key.
pub proof fn lemma_reply_delivered(key: Seq<u8>, header: Seq<u8>, nonce: Seq<u8>, code: u8)
    requires
        is_fake_header(header),
        nonce.len() == NONCE_LEN,
        sealed_len_ok(key, nonce, reply_bytes(code)),
    ensures
        carries_reply(key, message_bytes(key, header, nonce, reply_bytes(code)), code),
{
    let p = reply_bytes(code);
    lemma_message_frames(key, header, nonce, p);
}

/// Whatever destination a server reads from a client's request message, as the
/// one request that the message frames, is the host and port the client put
/// in.
pub proof fn lemma_request_recovered(
    key: Seq<u8>,
    header: Seq<u8>,
    nonce: Seq<u8>,
    host: Seq<char>,
    port: u16,
    h: Seq<char>,
    p: u16,
)
    requires
        is_fake_header(header),
        nonce.len() == NONCE_LEN,
        1 <= encode_utf8(host).len() <= 255,
        sealed_len_ok(key, nonce, request_bytes(encode_utf8(host), port)),
        forall|q: Seq<u8>|
            #[trigger] frames(key, message_bytes(key, header, nonce, request_bytes(encode_utf8(host), port)), q)
                ==> request_of(q) == Some((h, p)),
    ensures
        h == host,
        p == port,
{
    lemma_request_delivered(key, header, nonce, host, port);
}

} // verus!
