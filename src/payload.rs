//! Binary layout of the two handshake payloads, independent of encryption.
use vstd::prelude::*;
use vstd::utf8::{decode_utf8, encode_utf8, valid_utf8};

verus! {

broadcast use vstd::utf8::encode_utf8_valid_utf8, vstd::utf8::encode_utf8_decode_utf8;

/// Protocol version carried in the first byte of a request.
pub const VER: u8 = 0;

/// Reply code that means success.
pub const REP_OK: u8 = 0;

/// Big-endian encoding of a 16-bit value.
pub open spec fn be16(v: u16) -> Seq<u8> {
    seq![(v / 256) as u8, (v % 256) as u8]
}

/// Value of two bytes read big-endian.
pub open spec fn from_be16(hi: u8, lo: u8) -> u16 {
    (hi as int * 256 + lo as int) as u16
}

/// Plaintext of a request for `host` (its UTF-8 bytes) and `port`.
pub open spec fn request_bytes(host: Seq<u8>, port: u16) -> Seq<u8> {
    seq![VER, host.len() as u8] + host + be16(port)
}

/// Plaintext of a reply with the given code.
pub open spec fn reply_bytes(code: u8) -> Seq<u8> {
    seq![code]
}

/// Host bytes and port of a well-framed request plaintext, before the host is
/// checked to be UTF-8.
pub open spec fn request_fields(b: Seq<u8>) -> Option<(Seq<u8>, u16)> {
    if b.len() >= 4 && b[0] == VER && b.len() == b[1] as int + 4 {
        Some((b.subrange(2, b.len() - 2), from_be16(b[b.len() - 2], b[b.len() - 1])))
    } else {
        None
    }
}

/// The host and port that a request plaintext carries, if it is valid.
pub open spec fn request_of(b: Seq<u8>) -> Option<(Seq<char>, u16)> {
    match request_fields(b) {
        Some((h, p)) => if valid_utf8(h) {
            Some((decode_utf8(h), p))
        } else {
            None
        },
        None => None,
    }
}

/// The code that a reply plaintext carries, if it is valid.
pub open spec fn reply_of(b: Seq<u8>) -> Option<u8> {
    if b.len() == 1 {
        Some(b[0])
    } else {
        None
    }
}

/// Relies on `std::str::from_utf8`: it succeeds exactly on valid UTF-8 and then
/// yields the characters that the bytes encode.
#[verifier::external_body]
fn utf8_string(b: &[u8]) -> (r: Option<String>)
    ensures
        r is Some <==> valid_utf8(b@),
        r matches Some(s) ==> s@ == decode_utf8(b@),
{
    match std::str::from_utf8(b) {
        Ok(s) => Some(s.to_owned()),
        Err(_) => None,
    }
}

/// A connection request: the destination the server should reach.
#[derive(Debug, PartialEq, Eq)]
pub struct Req {
    pub host: String,
    pub port: u16,
}

impl Clone for Req {
    fn clone(&self) -> (r: Self)
        ensures
            r.host@ == self.host@,
            r.port == self.port,
    {
        Req { host: self.host.clone(), port: self.port }
    }
}

/// A connection reply: `REP_OK` or an application-defined failure code.
#[derive(PartialEq, Eq, Structural, Clone, Copy, Debug)]
pub struct Resp(pub u8);

impl Req {
    /// UTF-8 bytes of the host.
    pub open spec fn host_bytes(&self) -> Seq<u8> {
        encode_utf8(self.host@)
    }

    /// The host fits the one-byte length field.
    pub open spec fn wf(&self) -> bool {
        self.host_bytes().len() <= 255
    }

    /// The plaintext this request encodes to.
    pub open spec fn spec_bytes(&self) -> Seq<u8> {
        request_bytes(self.host_bytes(), self.port)
    }

    /// Length of the encoded plaintext.
    pub fn len(&self) -> (r: usize)
        requires
            self.wf(),
        ensures
            r == self.spec_bytes().len(),
    {
        1 + 1 + self.host.as_str().len() + 2
    }

    /// Appends the encoded plaintext to `buf`.
    pub fn write(&self, buf: &mut Vec<u8>)
        requires
            self.wf(),
        ensures
            final(buf)@ == old(buf)@ + self.spec_bytes(),
    {
        let hb = self.host.as_str().as_bytes();
        buf.push(VER);
        buf.push(hb.len() as u8);
        let mut i: usize = 0;
        while i < hb.len()
            invariant
                i <= hb@.len(),
                hb@ == self.host_bytes(),
                buf@ == old(buf)@ + seq![VER, hb@.len() as u8] + hb@.subrange(0, i as int),
            decreases hb@.len() - i,
        {
            buf.push(hb[i]);
            assert(hb@.subrange(0, i + 1) =~= hb@.subrange(0, i as int).push(hb@[i as int]));
            i += 1;
        }
        buf.push((self.port / 256) as u8);
        buf.push((self.port % 256) as u8);
        assert(hb@.subrange(0, hb@.len() as int) =~= hb@);
        assert(buf@ =~= old(buf)@ + self.spec_bytes());
    }

    /// Decodes a request plaintext; any length, version or UTF-8 violation
    /// gives `None`.
    pub fn read(buf: &[u8]) -> (r: Option<Req>)
        ensures
            match r {
                Some(q) => request_of(buf@) == Some((q.host@, q.port)) && q.wf(),
                None => request_of(buf@) is None,
            },
    {
        if buf.len() < 4 {
            return None;
        }
        if buf[0] != VER {
            return None;
        }
        let len = buf[1] as usize;
        if buf.len() != 2 + len + 2 {
            return None;
        }
        let mut host: Vec<u8> = Vec::new();
        let mut i: usize = 2;
        while i < 2 + len
            invariant
                len <= 255,
                2 <= i <= 2 + len,
                2 + len + 2 == buf@.len(),
                host@ == buf@.subrange(2, i as int),
            decreases 2 + len - i,
        {
            host.push(buf[i]);
            assert(buf@.subrange(2, i + 1) =~= buf@.subrange(2, i as int).push(buf@[i as int]));
            i += 1;
        }
        let port = buf[2 + len] as u16 * 256 + buf[3 + len] as u16;
        match utf8_string(host.as_slice()) {
            Some(s) => {
                proof {
                    vstd::utf8::decode_utf8_encode_utf8(host@);
                }
                Some(Req { host: s, port })
            },
            None => None,
        }
    }
}

impl Resp {
    /// The plaintext this reply encodes to.
    pub open spec fn spec_bytes(&self) -> Seq<u8> {
        reply_bytes(self.0)
    }

    /// Length of the encoded plaintext.
    pub fn len(&self) -> (r: usize)
        ensures
            r == self.spec_bytes().len(),
    {
        1
    }

    /// Appends the encoded plaintext to `buf`.
    pub fn write(&self, buf: &mut Vec<u8>)
        ensures
            final(buf)@ == old(buf)@ + self.spec_bytes(),
    {
        buf.push(self.0);
        assert(final(buf)@ =~= old(buf)@ + self.spec_bytes());
    }

    /// Decodes a reply plaintext, which must be exactly one byte.
    pub fn read(buf: &[u8]) -> (r: Option<Resp>)
        ensures
            match r {
                Some(p) => reply_of(buf@) == Some(p.0),
                None => reply_of(buf@) is None,
            },
    {
        if buf.len() != 1 {
            return None;
        }
        Some(Resp(buf[0]))
    }
}

/// Encoding a request and decoding it again gives back the same host and port,
/// for every host of one to 255 UTF-8 bytes and every port.
pub proof fn lemma_request_round_trip(host: Seq<char>, port: u16)
    requires
        1 <= encode_utf8(host).len() <= 255,
    ensures
        request_of(request_bytes(encode_utf8(host), port)) == Some((host, port)),
{
    let h = encode_utf8(host);
    let b = request_bytes(h, port);
    assert(b.subrange(2, b.len() - 2) =~= h);
    assert(b[b.len() - 2] == (port / 256) as u8);
    assert(b[b.len() - 1] == (port % 256) as u8);
    assert(from_be16((port / 256) as u8, (port % 256) as u8) == port);
}

/// Encoding a reply and decoding it again gives back the same code, for every
/// code.
pub proof fn lemma_reply_round_trip(code: u8)
    ensures
        reply_of(reply_bytes(code)) == Some(code),
{
}

} // verus!
