//! Fake headers: the decoy HTTP text in front of every handshake message.
use vstd::prelude::*;
use vstd::string::is_ascii;
use vstd::utf8::{encode_utf8, encode_scalar, has_width_1_encoding};
use crate::frame::{is_eoh_at, is_fake_header, MAX_HEADER_LEN};

verus! {

broadcast use vstd::string::is_ascii_spec_bytes;

/// Bytes of the built-in client header.
pub open spec fn fake_req_bytes() -> Seq<u8> {
    seq![80u8, 79, 83, 84, 32, 47, 117, 112, 108, 111, 97, 100, 32, 72, 84, 84, 80, 47, 49, 46, 49, 13, 10, 72, 79, 83, 84, 58, 32, 119, 119, 119, 46, 97, 112, 112, 108, 101, 46, 99, 111, 109, 13, 10, 13, 10]
}

/// Bytes of the built-in server header.
pub open spec fn fake_resp_bytes() -> Seq<u8> {
    seq![72u8, 84, 84, 80, 47, 49, 46, 49, 32, 50, 48, 48, 32, 79, 75, 13, 10, 13, 10]
}

/// No terminator starts before position `k` of `h`.
pub open spec fn no_eoh_before(h: Seq<u8>, k: int) -> bool
    decreases k,
{
    k <= 0 || (!(h[k - 1] == 13 && h[k] == 10 && h[k + 1] == 13 && h[k + 2] == 10) && no_eoh_before(h, k - 1))
}

proof fn lemma_no_eoh_before(h: Seq<u8>, k: int)
    requires
        no_eoh_before(h, k),
        k + 3 <= h.len(),
    ensures
        forall|j: int| 0 <= j < k ==> !#[trigger] is_eoh_at(h, j),
    decreases k,
{
    if k > 0 {
        lemma_no_eoh_before(h, k - 1);
    }
}

/// Built-in client header: a minimal HTTP POST request.
pub fn fake_req_header() -> (r: &'static [u8])
    ensures
        r@ == fake_req_bytes(),
        is_fake_header(r@),
        r@.len() <= MAX_HEADER_LEN,
{
    let s: &'static str = "POST /upload HTTP/1.1\r\nHOST: www.apple.com\r\n\r\n";
    proof {
        reveal_strlit("POST /upload HTTP/1.1\r\nHOST: www.apple.com\r\n\r\n");
    }
    assert(s@ =~= seq!['P', 'O', 'S', 'T', ' ', '/', 'u', 'p', 'l', 'o', 'a', 'd', ' ', 'H', 'T', 'T', 'P', '/', '1', '.', '1', '\r', '\n', 'H', 'O', 'S', 'T', ':', ' ', 'w', 'w', 'w', '.', 'a', 'p', 'p', 'l', 'e', '.', 'c', 'o', 'm', '\r', '\n', '\r', '\n']);
    assert(is_ascii(s));
    let r = s.as_bytes();
    assert(r@ =~= fake_req_bytes());
    assert(no_eoh_before(r@, 42)) by {
        reveal_with_fuel(no_eoh_before, 43);
    }
    proof {
        lemma_no_eoh_before(r@, 42);
    }
    r
}

/// Built-in server header: a minimal HTTP 200 status line.
pub fn fake_resp_header() -> (r: &'static [u8])
    ensures
        r@ == fake_resp_bytes(),
        is_fake_header(r@),
        r@.len() <= MAX_HEADER_LEN,
{
    let s: &'static str = "HTTP/1.1 200 OK\r\n\r\n";
    proof {
        reveal_strlit("HTTP/1.1 200 OK\r\n\r\n");
    }
    assert(s@ =~= seq!['H', 'T', 'T', 'P', '/', '1', '.', '1', ' ', '2', '0', '0', ' ', 'O', 'K', '\r', '\n', '\r', '\n']);
    assert(is_ascii(s));
    let r = s.as_bytes();
    assert(r@ =~= fake_resp_bytes());
    assert(no_eoh_before(r@, 15)) by {
        reveal_with_fuel(no_eoh_before, 16);
    }
    proof {
        lemma_no_eoh_before(r@, 15);
    }
    r
}

/// A line without its terminator: a carriage return right before the line
/// feed belongs to the terminator.
pub open spec fn strip_cr(l: Seq<char>) -> Seq<char> {
    if l.len() > 0 && l.last() == '\r' {
        l.drop_last()
    } else {
        l
    }
}

/// Lines of `s` from position `i` on, the current line having begun at
/// `start`.
pub open spec fn lines_from(s: Seq<char>, start: int, i: int) -> Seq<Seq<char>>
    decreases s.len() - i,
{
    if i >= s.len() {
        if start < s.len() {
            seq![s.subrange(start, s.len() as int)]
        } else {
            seq![]
        }
    } else if s[i] == '\n' {
        seq![strip_cr(s.subrange(start, i))] + lines_from(s, i + 1, i + 1)
    } else {
        lines_from(s, start, i + 1)
    }
}

/// Lines of `s` as `str::lines` yields them: split at `\n` or `\r\n`, with
/// the terminators removed and no empty line after a final terminator.
pub open spec fn lines_of(s: Seq<char>) -> Seq<Seq<char>> {
    lines_from(s, 0, 0)
}

proof fn lemma_lines_from_no_lf(s: Seq<char>, start: int, i: int)
    requires
        0 <= start <= i <= s.len(),
        forall|k: int| start <= k < i ==> s[k] != '\n',
    ensures
        forall|j: int| 0 <= j < lines_from(s, start, i).len() ==> !(#[trigger] lines_from(s, start, i)[j]).contains('\n'),
    decreases s.len() - i,
{
    if i >= s.len() {
        if start < s.len() {
            let l = s.subrange(start, s.len() as int);
            assert(!l.contains('\n')) by {
                if l.contains('\n') {
                    let k = choose|k: int| 0 <= k < l.len() && l[k] == '\n';
                    assert(s[start + k] == '\n');
                }
            }
            assert(lines_from(s, start, i) == seq![l]);
        } else {
            assert(lines_from(s, start, i).len() == 0);
        }
    } else if s[i] == '\n' {
        let l = s.subrange(start, i);
        let sl = strip_cr(l);
        assert(!sl.contains('\n')) by {
            if sl.contains('\n') {
                let k = choose|k: int| 0 <= k < sl.len() && sl[k] == '\n';
                assert(l[k] == '\n');
                assert(s[start + k] == '\n');
            }
        }
        lemma_lines_from_no_lf(s, i + 1, i + 1);
        let rest = lines_from(s, i + 1, i + 1);
        assert forall|j: int| 0 <= j < lines_from(s, start, i).len() implies !(#[trigger] lines_from(s, start, i)[j]).contains('\n') by {
            if j == 0 {
                assert(lines_from(s, start, i)[0] == sl);
            } else {
                assert(lines_from(s, start, i)[j] == rest[j - 1]);
            }
        }
    } else {
        assert(lines_from(s, start, i) == lines_from(s, start, i + 1));
        lemma_lines_from_no_lf(s, start, i + 1);
    }
}

/// No line of `s` holds a line feed.
pub proof fn lemma_lines_no_lf(s: Seq<char>)
    ensures
        forall|j: int| 0 <= j < lines_of(s).len() ==> !(#[trigger] lines_of(s)[j]).contains('\n'),
{
    lemma_lines_from_no_lf(s, 0, 0);
}

/// The characters that `char::is_whitespace` accepts (Unicode `White_Space`).
pub open spec fn is_ws_char(c: char) -> bool {
    let u = c as u32;
    (0x09 <= u <= 0x0d) || u == 0x20 || u == 0x85 || u == 0xa0 || u == 0x1680 || (0x2000 <= u
        <= 0x200a) || u == 0x2028 || u == 0x2029 || u == 0x202f || u == 0x205f || u == 0x3000
}

/// `s` without leading whitespace.
pub open spec fn trim_start_ws(s: Seq<char>) -> Seq<char>
    decreases s.len(),
{
    if s.len() > 0 && is_ws_char(s[0]) {
        trim_start_ws(s.drop_first())
    } else {
        s
    }
}

/// `s` without trailing whitespace.
pub open spec fn trim_end_ws(s: Seq<char>) -> Seq<char>
    decreases s.len(),
{
    if s.len() > 0 && is_ws_char(s.last()) {
        trim_end_ws(s.drop_last())
    } else {
        s
    }
}

/// `s` without surrounding whitespace, as `str::trim` leaves it.
pub open spec fn trim_ws(s: Seq<char>) -> Seq<char> {
    trim_end_ws(trim_start_ws(s))
}

/// CR LF.
pub open spec fn crlf() -> Seq<u8> {
    seq![13u8, 10u8]
}

/// The non-blank lines, trimmed, each followed by CR LF.
pub open spec fn header_body(lines: Seq<Seq<char>>) -> Seq<u8>
    decreases lines.len(),
{
    if lines.len() == 0 {
        seq![]
    } else {
        let t = trim_ws(lines.last());
        header_body(lines.drop_last()) + if t.len() == 0 {
            Seq::<u8>::empty()
        } else {
            encode_utf8(t) + crlf()
        }
    }
}

/// The header that a template made of `lines` normalizes to.
pub open spec fn header_of(lines: Seq<Seq<char>>) -> Seq<u8> {
    header_body(lines) + crlf()
}

/// Relies on `str::lines`: the lines of `s`.
#[verifier::external_body]
fn split_lines(s: &str) -> (r: Vec<String>)
    ensures
        r@.map_values(|l: String| l@) == lines_of(s@),
{
    s.lines().map(String::from).collect()
}

/// Relies on `str::trim`: `s` without leading and trailing whitespace.
#[verifier::external_body]
fn trim(s: &str) -> (r: &str)
    ensures
        r@ == trim_ws(s@),
{
    s.trim()
}

/// Normalizes a header template: each line is trimmed, blank lines are
/// dropped, the rest are joined with CR LF, and one more CR LF ends the header.
pub fn get_fake_header(text: &str) -> (r: Vec<u8>)
    ensures
        r@ == header_of(lines_of(text@)),
        (exists|i: int| 0 <= i < lines_of(text@).len() && #[trigger] trim_ws(lines_of(text@)[i]).len() > 0)
            ==> is_fake_header(r@),
{
    let lines = split_lines(text);
    let ghost ls = lines@.map_values(|l: String| l@);
    let mut res: Vec<u8> = Vec::new();
    let mut i: usize = 0;
    while i < lines.len()
        invariant
            i <= lines@.len(),
            ls == lines@.map_values(|l: String| l@),
            res@ == header_body(ls.subrange(0, i as int)),
        decreases lines@.len() - i,
    {
        let t = trim(lines[i].as_str());
        let tb = t.as_bytes();
        assert(ls.subrange(0, i + 1).drop_last() =~= ls.subrange(0, i as int));
        if tb.len() > 0 {
            let mut j: usize = 0;
            while j < tb.len()
                invariant
                    j <= tb@.len(),
                    res@ == header_body(ls.subrange(0, i as int)) + tb@.subrange(0, j as int),
                decreases tb@.len() - j,
            {
                res.push(tb[j]);
                assert(tb@.subrange(0, j + 1) =~= tb@.subrange(0, j as int).push(tb@[j as int]));
                j += 1;
            }
            res.push(13);
            res.push(10);
            assert(tb@.subrange(0, tb@.len() as int) =~= tb@);
            assert(res@ =~= header_body(ls.subrange(0, i + 1)));
        } else {
            assert(res@ =~= header_body(ls.subrange(0, i + 1)));
        }
        i += 1;
    }
    assert(ls.subrange(0, lines@.len() as int) =~= ls);
    res.push(13);
    res.push(10);
    assert(res@ =~= header_of(ls));
    proof {
        if exists|i: int| 0 <= i < ls.len() && #[trigger] trim_ws(ls[i]).len() > 0 {
            lemma_loaded_header_boundary(text@);
        }
    }
    res
}

/// Every line feed in `s` that has a successor is not followed by a carriage
/// return.
pub open spec fn lf_not_before_cr(s: Seq<u8>) -> bool {
    forall|j: int| 0 <= j < s.len() - 1 && #[trigger] s[j] == 10 ==> s[j + 1] != 13
}

proof fn lemma_scalar_bytes(c: char)
    ensures
        forall|i: int| 0 <= i < encode_scalar(c as u32).len() && #[trigger] encode_scalar(c as u32)[i] == 10 ==> c == '\n',
        encode_scalar(c as u32)[0] == 13 ==> c == '\r',
{
    let v = c as u32;
    if has_width_1_encoding(v) {
        assert(v <= 0x7f ==> (v & 0x7f) == v) by (bit_vector);
        vstd::utf8::char_u32_cast(c, v);
        vstd::utf8::char_u32_cast('\n', 10u32);
        vstd::utf8::char_u32_cast('\r', 13u32);
    } else {
        let a = ((v >> 6) & 0x1F) as u8;
        let b = ((v >> 12) & 0x0F) as u8;
        let d = ((v >> 18) & 0x7) as u8;
        let x = (v & 0x3F) as u8;
        let y = ((v >> 6) & 0x3F) as u8;
        let z = ((v >> 12) & 0x3F) as u8;
        assert(forall|q: u8| (0xC0u8 | q) >= 0xC0) by (bit_vector);
        assert(forall|q: u8| (0xE0u8 | q) >= 0xE0) by (bit_vector);
        assert(forall|q: u8| (0xF0u8 | q) >= 0xF0) by (bit_vector);
        assert(forall|q: u8| (0x80u8 | q) >= 0x80) by (bit_vector);
        assert((0xC0u8 | a) >= 0xC0 && (0xE0u8 | b) >= 0xE0 && (0xF0u8 | d) >= 0xF0);
        assert((0x80u8 | x) >= 0x80 && (0x80u8 | y) >= 0x80 && (0x80u8 | z) >= 0x80);
    }
}

proof fn lemma_encode_no_lf(t: Seq<char>)
    requires
        !t.contains('\n'),
    ensures
        forall|i: int| 0 <= i < encode_utf8(t).len() ==> #[trigger] encode_utf8(t)[i] != 10,
        t.len() > 0 && t[0] != '\r' ==> encode_utf8(t).len() > 0 && encode_utf8(t)[0] != 13,
    decreases t.len(),
{
    if t.len() > 0 {
        let e = encode_scalar(t[0] as u32);
        let rest = t.drop_first();
        assert(!rest.contains('\n')) by {
            if rest.contains('\n') {
                let k = choose|k: int| 0 <= k < rest.len() && rest[k] == '\n';
                assert(t[k + 1] == '\n');
            }
        }
        lemma_encode_no_lf(rest);
        lemma_scalar_bytes(t[0]);
        assert(t[0] != '\n') by {
            if t[0] == '\n' {
                assert(t.contains('\n'));
            }
        }
        vstd::utf8::char_is_scalar(t[0]);
        assert(e.len() > 0);
        assert forall|i: int| 0 <= i < encode_utf8(t).len() implies #[trigger] encode_utf8(t)[i] != 10 by {
            if i < e.len() {
                assert(encode_utf8(t)[i] == e[i]);
            } else {
                assert(encode_utf8(t)[i] == encode_utf8(rest)[i - e.len()]);
            }
        }
        assert(encode_utf8(t)[0] == e[0]);
    }
}

proof fn lemma_trim_start(s: Seq<char>)
    ensures
        !s.contains('\n') ==> !trim_start_ws(s).contains('\n'),
        trim_start_ws(s).len() > 0 ==> !is_ws_char(trim_start_ws(s)[0]),
    decreases s.len(),
{
    if s.len() > 0 && is_ws_char(s[0]) {
        let r = s.drop_first();
        if !s.contains('\n') {
            assert(!r.contains('\n')) by {
                if r.contains('\n') {
                    let k = choose|k: int| 0 <= k < r.len() && r[k] == '\n';
                    assert(s[k + 1] == '\n');
                }
            }
        }
        lemma_trim_start(r);
    }
}

proof fn lemma_trim_end(s: Seq<char>)
    ensures
        !s.contains('\n') ==> !trim_end_ws(s).contains('\n'),
        trim_end_ws(s).len() > 0 ==> trim_end_ws(s)[0] == s[0],
    decreases s.len(),
{
    if s.len() > 0 && is_ws_char(s.last()) {
        let r = s.drop_last();
        if !s.contains('\n') {
            assert(!r.contains('\n')) by {
                if r.contains('\n') {
                    let k = choose|k: int| 0 <= k < r.len() && r[k] == '\n';
                    assert(s[k] == '\n');
                }
            }
        }
        lemma_trim_end(r);
    }
}

/// A trimmed line without line feed encodes to bytes without line feed that do
/// not start with a carriage return.
proof fn lemma_trimmed_line_bytes(line: Seq<char>)
    requires
        !line.contains('\n'),
    ensures
        forall|i: int| 0 <= i < encode_utf8(trim_ws(line)).len() ==> #[trigger] encode_utf8(trim_ws(line))[i] != 10,
        trim_ws(line).len() > 0 ==> encode_utf8(trim_ws(line)).len() > 0 && encode_utf8(trim_ws(line))[0] != 13,
{
    let u = trim_start_ws(line);
    lemma_trim_start(line);
    lemma_trim_end(u);
    let t = trim_ws(line);
    if t.len() > 0 {
        assert(t[0] == u[0]);
        assert(t[0] != '\r') by {
            vstd::utf8::char_u32_cast('\r', 13u32);
        }
    }
    lemma_encode_no_lf(t);
}

proof fn lemma_header_body(lines: Seq<Seq<char>>)
    requires
        forall|i: int| 0 <= i < lines.len() ==> !(#[trigger] lines[i]).contains('\n'),
    ensures
        lf_not_before_cr(header_body(lines)),
        header_body(lines).len() > 0 ==> header_body(lines).len() >= 2 && header_body(lines).last() == 10
            && header_body(lines)[header_body(lines).len() - 2] == 13,
        (exists|i: int| 0 <= i < lines.len() && #[trigger] trim_ws(lines[i]).len() > 0) ==> header_body(lines).len() > 0,
    decreases lines.len(),
{
    if lines.len() > 0 {
        let prev = lines.drop_last();
        assert forall|i: int| 0 <= i < prev.len() implies !(#[trigger] prev[i]).contains('\n') by {
            assert(prev[i] == lines[i]);
        }
        lemma_header_body(prev);
        let b = header_body(prev);
        let t = trim_ws(lines.last());
        assert(!lines[lines.len() - 1].contains('\n'));
        lemma_trimmed_line_bytes(lines.last());
        let h = header_body(lines);
        if t.len() > 0 {
            let e = encode_utf8(t);
            assert(h == b + e + crlf());
            assert forall|j: int| 0 <= j < h.len() - 1 && #[trigger] h[j] == 10 implies h[j + 1] != 13 by {
                if j < b.len() - 1 {
                    assert(h[j] == b[j] && h[j + 1] == b[j + 1]);
                } else if j == b.len() - 1 {
                    assert(h[j + 1] == e[0]);
                } else if j < b.len() + e.len() {
                    assert(h[j] == e[j - b.len()]);
                } else {
                    assert(h[j] == 13);
                }
            }
        } else {
            assert(h =~= b);
            if exists|i: int| 0 <= i < lines.len() && #[trigger] trim_ws(lines[i]).len() > 0 {
                let i = choose|i: int| 0 <= i < lines.len() && #[trigger] trim_ws(lines[i]).len() > 0;
                assert(i != lines.len() - 1);
                assert(prev[i] == lines[i]);
            }
        }
    }
}

/// A template with at least one non-blank line normalizes to a usable fake
/// header: it ends with CR LF CR LF and holds no earlier terminator, whatever
/// blank lines and surrounding whitespace the template has.
pub proof fn lemma_loaded_header_boundary(text: Seq<char>)
    requires
        exists|i: int| 0 <= i < lines_of(text).len() && #[trigger] trim_ws(lines_of(text)[i]).len() > 0,
    ensures
        is_fake_header(header_of(lines_of(text))),
{
    let lines = lines_of(text);
    lemma_lines_no_lf(text);
    lemma_header_body(lines);
    let b = header_body(lines);
    let h = header_of(lines);
    let n = h.len();
    assert(h[n - 4] == b[b.len() - 2] && h[n - 3] == b[b.len() - 1]);
    assert(is_eoh_at(h, n - 4));
    assert forall|j: int| 0 <= j < n - 4 implies !#[trigger] is_eoh_at(h, j) by {
        if is_eoh_at(h, j) {
            assert(h[j + 1] == b[j + 1] && h[j + 2] == b[j + 2]);
            assert(b[j + 1] == 10);
        }
    }
}

} // verus!
