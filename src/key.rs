//! Key material and the AEAD cipher (ChaCha20-Poly1305) built from it.
use vstd::prelude::*;
use vstd::utf8::encode_utf8;

verus! {

/// Key length of the cipher, in bytes.
pub const KEY_LEN: usize = 32;

/// Nonce length of the cipher, in bytes.
pub const NONCE_LEN: usize = 12;

/// Length of the authentication tag that sealing appends.
pub const OVERHEAD_LEN: usize = 16;

/// Longest plaintext this library seals or opens; far below the cipher's own
/// limit.
pub const MAX_SEAL_LEN: usize = 65536;

/// Ciphertext followed by tag that ChaCha20-Poly1305 produces for the given
/// key, nonce, associated data and plaintext.
pub uninterp spec fn sealed_of(key: Seq<u8>, nonce: Seq<u8>, aad: Seq<u8>, plain: Seq<u8>) -> Seq<u8>;

/// Standard base64 text, without padding, of the given bytes.
pub uninterp spec fn base64_encoded(b: Seq<u8>) -> Seq<char>;

/// Bytes that standard base64 text without padding decodes to, if it is valid.
pub uninterp spec fn base64_decoded(t: Seq<u8>) -> Option<Seq<u8>>;

/// Relies on `AeadInPlace::encrypt_in_place` of `ChaCha20Poly1305` (built with
/// `KeyInit::new`, which only stores the key): the buffer is replaced by the
/// ciphertext and the 16-byte tag. It fails only past 2^32 blocks of input,
/// which `requires` rules out.
#[verifier::external_body]
fn chacha_seal(key: &[u8], nonce: &[u8], aad: &[u8], buf: &mut Vec<u8>)
    requires
        key@.len() == KEY_LEN,
        nonce@.len() == NONCE_LEN,
        old(buf)@.len() <= MAX_SEAL_LEN,
    ensures
        final(buf)@ == sealed_of(key@, nonce@, aad@, old(buf)@),
        final(buf)@.len() == old(buf)@.len() + OVERHEAD_LEN,
{
    let cipher = <chacha20poly1305::ChaCha20Poly1305 as chacha20poly1305::KeyInit>::new(
        chacha20poly1305::Key::from_slice(key),
    );
    let nonce = chacha20poly1305::Nonce::from_slice(nonce);
    let _ = chacha20poly1305::AeadInPlace::encrypt_in_place(&cipher, nonce, aad, buf);
}

/// Relies on `AeadInPlace::decrypt_in_place` of `ChaCha20Poly1305`: it succeeds
/// exactly when the last 16 bytes are the tag of the rest, and the plaintext it
/// then leaves seals back to the input; the keystream makes that plaintext the
/// only one.
#[verifier::external_body]
fn chacha_open(key: &[u8], nonce: &[u8], aad: &[u8], buf: &mut Vec<u8>) -> (ok: bool)
    requires
        key@.len() == KEY_LEN,
        nonce@.len() == NONCE_LEN,
        old(buf)@.len() <= MAX_SEAL_LEN + OVERHEAD_LEN,
    ensures
        ok ==> sealed_of(key@, nonce@, aad@, final(buf)@) == old(buf)@,
        ok ==> forall|q: Seq<u8>| #[trigger] sealed_of(key@, nonce@, aad@, q) == old(buf)@ ==> q == final(buf)@,
        !ok ==> forall|q: Seq<u8>| #[trigger] sealed_of(key@, nonce@, aad@, q) != old(buf)@,
{
    let cipher = <chacha20poly1305::ChaCha20Poly1305 as chacha20poly1305::KeyInit>::new(
        chacha20poly1305::Key::from_slice(key),
    );
    let nonce = chacha20poly1305::Nonce::from_slice(nonce);
    chacha20poly1305::AeadInPlace::decrypt_in_place(&cipher, nonce, aad, buf).is_ok()
}

/// Relies on `AeadCore::generate_nonce` with the operating system's random
/// source: a fresh nonce of the cipher's length.
#[verifier::external_body]
pub(crate) fn random_nonce() -> (r: Vec<u8>)
    ensures
        r@.len() == NONCE_LEN,
{
    let rng = &mut chacha20poly1305::aead::OsRng;
    <chacha20poly1305::ChaCha20Poly1305 as chacha20poly1305::AeadCore>::generate_nonce(rng).to_vec()
}

/// Relies on `KeyInit::generate_key` with the operating system's random source:
/// a fresh key of the cipher's length.
#[verifier::external_body]
fn random_key() -> (r: Vec<u8>)
    ensures
        r@.len() == KEY_LEN,
{
    let rng = &mut chacha20poly1305::aead::OsRng;
    <chacha20poly1305::ChaCha20Poly1305 as chacha20poly1305::KeyInit>::generate_key(rng).to_vec()
}

/// Characters of the standard base64 alphabet.
pub open spec fn is_base64_char(c: char) -> bool {
    ('A' <= c <= 'Z') || ('a' <= c <= 'z') || ('0' <= c <= '9') || c == '+' || c == '/'
}

/// Relies on `base64::Engine::encode` with `BASE64_STANDARD_NO_PAD`: four
/// characters of the standard alphabet for every three bytes, two or three for
/// a last partial group, and no padding; the engine's own decoder reads the
/// text back. It panics only when the output length overflows, which the
/// bound rules out.
#[verifier::external_body]
fn encode_base64(b: &[u8]) -> (r: String)
    requires
        b@.len() <= MAX_SEAL_LEN,
    ensures
        r@ == base64_encoded(b@),
        r@.len() == (4 * b@.len() + 2) / 3,
        forall|i: int| 0 <= i < r@.len() ==> is_base64_char(#[trigger] r@[i]),
        base64_decoded(encode_utf8(r@)) == Some(b@),
{
    base64::Engine::encode(&base64::prelude::BASE64_STANDARD_NO_PAD, b)
}

/// Relies on `base64::Engine::decode` with `BASE64_STANDARD_NO_PAD`; any
/// `DecodeError` becomes `None`.
#[verifier::external_body]
fn decode_base64(t: &[u8]) -> (r: Option<Vec<u8>>)
    ensures
        match r {
            Some(v) => base64_decoded(t@) == Some(v@),
            None => base64_decoded(t@) is None,
        },
{
    match base64::Engine::decode(&base64::prelude::BASE64_STANDARD_NO_PAD, t) {
        Ok(v) => Some(v),
        Err(_) => None,
    }
}

/// The whitespace that `<[u8]>::trim_ascii` removes.
pub open spec fn is_ascii_ws(b: u8) -> bool {
    b == 0x20 || b == 0x09 || b == 0x0a || b == 0x0c || b == 0x0d
}

/// `b` without leading ASCII whitespace.
pub open spec fn trim_start(b: Seq<u8>) -> Seq<u8>
    decreases b.len(),
{
    if b.len() > 0 && is_ascii_ws(b[0]) {
        trim_start(b.drop_first())
    } else {
        b
    }
}

/// `b` without trailing ASCII whitespace.
pub open spec fn trim_end(b: Seq<u8>) -> Seq<u8>
    decreases b.len(),
{
    if b.len() > 0 && is_ascii_ws(b.last()) {
        trim_end(b.drop_last())
    } else {
        b
    }
}

/// `b` without surrounding ASCII whitespace.
pub open spec fn trim_ascii(b: Seq<u8>) -> Seq<u8> {
    trim_end(trim_start(b))
}

/// Copy of `b` without surrounding ASCII whitespace.
pub fn trimmed_ascii(b: &[u8]) -> (r: Vec<u8>)
    ensures
        r@ == trim_ascii(b@),
{
    let n = b.len();
    let mut s: usize = 0;
    assert(b@.subrange(0, n as int) =~= b@);
    while s < n && is_ws(b[s])
        invariant
            s <= n == b@.len(),
            trim_start(b@) == trim_start(b@.subrange(s as int, n as int)),
        decreases n - s,
    {
        assert(b@.subrange(s as int, n as int).drop_first() =~= b@.subrange(s + 1, n as int));
        s += 1;
    }
    assert(trim_start(b@) == b@.subrange(s as int, n as int));
    let mut e: usize = n;
    while e > s && is_ws(b[e - 1])
        invariant
            s <= e <= n == b@.len(),
            trim_ascii(b@) == trim_end(b@.subrange(s as int, e as int)),
        decreases e,
    {
        assert(b@.subrange(s as int, e as int).drop_last() =~= b@.subrange(s as int, e - 1));
        e -= 1;
    }
    assert(trim_ascii(b@) == b@.subrange(s as int, e as int));
    let mut r: Vec<u8> = Vec::new();
    let mut i: usize = s;
    while i < e
        invariant
            s <= i <= e <= n == b@.len(),
            r@ == b@.subrange(s as int, i as int),
        decreases e - i,
    {
        r.push(b[i]);
        assert(b@.subrange(s as int, i + 1) =~= b@.subrange(s as int, i as int).push(b@[i as int]));
        i += 1;
    }
    r
}

fn is_ws(b: u8) -> (r: bool)
    ensures
        r == is_ascii_ws(b),
{
    b == 0x20 || b == 0x09 || b == 0x0a || b == 0x0c || b == 0x0d
}

/// The AEAD cipher, holding its key. Immutable once built; clones share
/// nothing mutable.
pub struct Cipher {
    key: Vec<u8>,
}

impl Clone for Cipher {
    fn clone(&self) -> (r: Self)
        ensures
            r.key() == self.key(),
    {
        proof {
            use_type_invariant(self);
        }
        Cipher { key: self.key.clone() }
    }
}

impl Cipher {
    #[verifier::type_invariant]
    spec fn inv(&self) -> bool {
        self.key@.len() == KEY_LEN
    }

    /// The key bytes.
    pub closed spec fn key(&self) -> Seq<u8> {
        self.key@
    }

    /// Builds a cipher from raw key bytes; only a key of `KEY_LEN` bytes is
    /// accepted.
    pub fn from_key(key: Vec<u8>) -> (r: Option<Cipher>)
        ensures
            r is Some <==> key@.len() == KEY_LEN,
            r matches Some(c) ==> c.key() == key@,
    {
        if key.len() == KEY_LEN {
            Some(Cipher { key })
        } else {
            None
        }
    }

    /// Seals `buf` in place: it becomes ciphertext followed by the tag.
    pub fn seal_in_place(&self, nonce: &[u8], aad: &[u8], buf: &mut Vec<u8>)
        requires
            nonce@.len() == NONCE_LEN,
            old(buf)@.len() <= MAX_SEAL_LEN,
        ensures
            final(buf)@ == sealed_of(self.key(), nonce@, aad@, old(buf)@),
            final(buf)@.len() == old(buf)@.len() + OVERHEAD_LEN,
    {
        proof {
            use_type_invariant(self);
        }
        chacha_seal(self.key.as_slice(), nonce, aad, buf);
    }

    /// Opens `buf` in place. On success it holds the one plaintext that seals
    /// to the input; on failure no plaintext does.
    pub fn open_in_place(&self, nonce: &[u8], aad: &[u8], buf: &mut Vec<u8>) -> (ok: bool)
        requires
            nonce@.len() == NONCE_LEN,
            old(buf)@.len() <= MAX_SEAL_LEN + OVERHEAD_LEN,
        ensures
            ok ==> sealed_of(self.key(), nonce@, aad@, final(buf)@) == old(buf)@,
            ok ==> forall|q: Seq<u8>| #[trigger] sealed_of(self.key(), nonce@, aad@, q) == old(buf)@ ==> q == final(buf)@,
            !ok ==> forall|q: Seq<u8>| #[trigger] sealed_of(self.key(), nonce@, aad@, q) != old(buf)@,
    {
        proof {
            use_type_invariant(self);
        }
        chacha_open(self.key.as_slice(), nonce, aad, buf)
    }
}

/// Length of the nonce that every handshake message carries.
pub fn nonce_size() -> (r: usize)
    ensures
        r == NONCE_LEN,
{
    NONCE_LEN
}

/// Builds the cipher from the contents of a key file: base64 (standard
/// alphabet, no padding) of exactly `KEY_LEN` bytes, with surrounding ASCII
/// whitespace ignored.
pub fn init_cipher(psk: &[u8]) -> (r: Option<Cipher>)
    ensures
        r is Some <==> (base64_decoded(trim_ascii(psk@)) matches Some(k) && k.len() == KEY_LEN),
        r matches Some(c) ==> base64_decoded(trim_ascii(psk@)) == Some(c.key()),
{
    let text = trimmed_ascii(psk);
    match decode_base64(text.as_slice()) {
        Some(key) => Cipher::from_key(key),
        None => None,
    }
}

/// A fresh random key, as base64 text (standard alphabet, no padding) that
/// decodes back to the key.
pub fn gen_psk() -> (r: String)
    ensures
        r@.len() == 43,
        forall|i: int| 0 <= i < r@.len() ==> is_base64_char(#[trigger] r@[i]),
        exists|k: Seq<u8>|
            k.len() == KEY_LEN && r@ == base64_encoded(k) && base64_decoded(encode_utf8(r@)) == Some(k),
{
    let key = random_key();
    encode_base64(key.as_slice())
}

/// Text of the standard base64 alphabet that decodes to a key of `KEY_LEN`
/// bytes, as `gen_psk` writes it, loads back through `init_cipher` to that
/// key.
pub proof fn lemma_psk_loads(s: Seq<char>, k: Seq<u8>)
    requires
        forall|i: int| 0 <= i < s.len() ==> is_base64_char(#[trigger] s[i]),
        base64_decoded(encode_utf8(s)) == Some(k),
        k.len() == KEY_LEN,
    ensures
        base64_decoded(trim_ascii(encode_utf8(s))) == Some(k),
{
    let b = encode_utf8(s);
    assert(vstd::utf8::is_ascii_chars(s));
    vstd::utf8::is_ascii_chars_encode_utf8(s);
    assert forall|i: int| 0 <= i < b.len() implies !is_ascii_ws(#[trigger] b[i]) by {
        assert(s[i] as u8 == b[i]);
        assert(is_base64_char(s[i]));
    }
    assert(trim_start(b) == b);
    assert(trim_end(b) == b);
}

} // verus!
