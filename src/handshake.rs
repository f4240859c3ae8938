//! The HTTP upgrade handshake: finding the client's key in the request and
//! writing the `101 Switching Protocols` response with its accept key.

use crypto::digest::Digest;
use crypto::sha1::Sha1;
use rustc_serialize::base64;
use rustc_serialize::base64::ToBase64;
use vstd::prelude::*;
use vstd::string::*;
use vstd::utf8::encode_utf8;

verus! {

/// The fixed protocol GUID appended to the client's key.
pub const WEBSOCKET_GUID: &'static str = "258EAFA5-E914-47DA-95CA-C5AB0DC85B11";

/// Text whose presence marks a request as an upgrade to WebSocket.
pub const UPGRADE_HEADER: &'static str = "Upgrade: websocket";

/// The name of the header line that carries the client's key.
pub const KEY_HEADER: &'static str = "Sec-WebSocket-Key";

/// The response up to the accept key.
pub const RESPONSE_HEAD: &'static str =
    "HTTP/1.1 101 Switching Protocols\r\nUpgrade: websocket\r\nConnection: Upgrade\r\nSec-WebSocket-Accept: ";

/// The end of the response, after the accept key.
pub const RESPONSE_TAIL: &'static str = "\r\n\r\n";

/// Why a request cannot be answered with an upgrade.
#[derive(Debug, PartialEq, Eq, Clone, Copy)]
pub enum HandshakeError {
    /// The request does not ask for an upgrade to WebSocket.
    InvalidUpgrade,
    /// The request has no `Sec-WebSocket-Key` line.
    MissingKey,
}

/// The SHA-1 digest of a byte sequence.
pub uninterp spec fn sha1_of(data: Seq<u8>) -> Seq<u8>;

/// The base64 text of a byte sequence (standard alphabet, padded, lines of
/// at most 76 characters).
pub uninterp spec fn base64_mime_of(data: Seq<u8>) -> Seq<char>;

/// Relies on crypto::sha1::Sha1 (`input`, then `result` into 20 bytes): the
/// SHA-1 digest of `data`, which depends on `data` alone.
#[verifier::external_body]
fn sha1_digest(data: &[u8]) -> (r: Vec<u8>)
    ensures
        r@ == sha1_of(data@),
{
    let mut hasher = Sha1::new();
    hasher.input(data);
    let mut out = [0u8; 20];
    hasher.result(&mut out);
    out.to_vec()
}

/// Relies on rustc_serialize::base64::ToBase64::to_base64 with the MIME
/// configuration: the base64 text of `data`, which depends on `data` alone.
#[verifier::external_body]
fn to_base64(data: &[u8]) -> (r: String)
    ensures
        r@ == base64_mime_of(data@),
{
    data.to_base64(base64::MIME)
}

/// `pat` stands in `s` at position `i`.
pub open spec fn occurs_at(s: Seq<char>, pat: Seq<char>, i: int) -> bool {
    0 <= i && i + pat.len() <= s.len() && s.subrange(i, i + pat.len()) == pat
}

pub open spec fn contains(s: Seq<char>, pat: Seq<char>) -> bool {
    exists|i: int| occurs_at(s, pat, i)
}

/// A request asks for an upgrade when it contains the upgrade header.
pub open spec fn upgrade_requested(s: Seq<char>) -> bool {
    contains(s, UPGRADE_HEADER@)
}

pub open spec fn is_line_start(s: Seq<char>, p: int) -> bool {
    p == 0 || (0 < p <= s.len() && s[p - 1] == '\n')
}

/// A line begins at `p` with the key header's name (which holds no newline).
pub open spec fn is_key_line(s: Seq<char>, p: int) -> bool {
    is_line_start(s, p) && occurs_at(s, KEY_HEADER@, p)
}

pub open spec fn is_first_key_line(s: Seq<char>, p: int) -> bool {
    is_key_line(s, p) && forall|q: int| 0 <= q < p ==> !is_key_line(s, q)
}

pub open spec fn has_key_line(s: Seq<char>) -> bool {
    exists|p: int| is_key_line(s, p)
}

/// Where the line that holds position `p` ends: the next newline, or the end.
pub open spec fn line_end(s: Seq<char>, p: int) -> int
    decreases s.len() - p,
{
    if p >= s.len() || p < 0 {
        s.len() as int
    } else if s[p] == '\n' {
        p
    } else {
        line_end(s, p + 1)
    }
}

/// What follows the last colon of a line; the whole line if it has none.
pub open spec fn after_last_colon(l: Seq<char>) -> Seq<char>
    decreases l.len(),
{
    if l.len() == 0 {
        l
    } else if l.last() == ':' {
        Seq::empty()
    } else {
        after_last_colon(l.drop_last()).push(l.last())
    }
}

/// The characters that Unicode marks `White_Space`.
pub open spec fn is_white(c: char) -> bool {
    ('\u{9}' <= c && c <= '\u{d}') || c == ' ' || c == '\u{85}' || c == '\u{a0}' || c
        == '\u{1680}' || ('\u{2000}' <= c && c <= '\u{200a}') || c == '\u{2028}' || c
        == '\u{2029}' || c == '\u{202f}' || c == '\u{205f}' || c == '\u{3000}'
}

pub open spec fn trim_end(s: Seq<char>) -> Seq<char>
    decreases s.len(),
{
    if s.len() > 0 && is_white(s.last()) {
        trim_end(s.drop_last())
    } else {
        s
    }
}

pub open spec fn trim_start(s: Seq<char>) -> Seq<char>
    decreases s.len(),
{
    if s.len() > 0 && is_white(s[0]) {
        trim_start(s.drop_first())
    } else {
        s
    }
}

pub open spec fn trim(s: Seq<char>) -> Seq<char> {
    trim_start(trim_end(s))
}

/// The key that the line at `p` carries: what follows its last colon,
/// without surrounding white space.
pub open spec fn key_value(s: Seq<char>, p: int) -> Seq<char> {
    trim(after_last_colon(s.subrange(p, line_end(s, p))))
}

/// The accept key for a client's key.
pub open spec fn accept_key(key: Seq<char>) -> Seq<char> {
    base64_mime_of(sha1_of(encode_utf8(key + WEBSOCKET_GUID@)))
}

pub open spec fn response_text(accept: Seq<char>) -> Seq<char> {
    RESPONSE_HEAD@ + accept + RESPONSE_TAIL@
}

/// The start of the first line that carries the key.
pub open spec fn first_key_line_of(s: Seq<char>) -> int {
    choose|p: int| is_first_key_line(s, p)
}

/// The answer to an upgrade request: the response text, or why there is none.
pub open spec fn handshake_result(s: Seq<char>) -> Result<Seq<char>, HandshakeError> {
    if !upgrade_requested(s) {
        Err(HandshakeError::InvalidUpgrade)
    } else if !has_key_line(s) {
        Err(HandshakeError::MissingKey)
    } else {
        Ok(response_text(accept_key(key_value(s, first_key_line_of(s)))))
    }
}

/// Only one line is the first to carry the key.
pub proof fn lemma_first_key_line_unique(s: Seq<char>, p: int)
    requires
        is_first_key_line(s, p),
    ensures
        has_key_line(s),
        first_key_line_of(s) == p,
{
    let q = first_key_line_of(s);
    assert(is_first_key_line(s, q));
    if q < p {
        assert(!is_key_line(s, q));
    } else if p < q {
        assert(!is_key_line(s, p));
    }
}

pub fn is_whitespace(c: char) -> (r: bool)
    ensures
        r == is_white(c),
{
    ('\u{9}' <= c && c <= '\u{d}') || c == ' ' || c == '\u{85}' || c == '\u{a0}' || c
        == '\u{1680}' || ('\u{2000}' <= c && c <= '\u{200a}') || c == '\u{2028}' || c
        == '\u{2029}' || c == '\u{202f}' || c == '\u{205f}' || c == '\u{3000}'
}

/// The characters of `s`, one by one.
fn chars_of(s: &str) -> (r: Vec<char>)
    ensures
        r@ == s@,
{
    let n: usize = s.unicode_len();
    let mut out: Vec<char> = Vec::new();
    let mut i: usize = 0;
    while i < n
        invariant
            i <= n,
            n == s@.len(),
            out@ == s@.subrange(0, i as int),
        decreases n - i,
    {
        out.push(s.get_char(i));
        i = i + 1;
        assert(out@ =~= s@.subrange(0, i as int));
    }
    assert(out@ =~= s@);
    out
}

/// Whether `pat` stands in `s` at position `i`.
fn occurs_at_exec(s: &Vec<char>, pat: &Vec<char>, i: usize) -> (r: bool)
    ensures
        r == occurs_at(s@, pat@, i as int),
{
    let n: usize = s.len();
    let m: usize = pat.len();
    if i > n || m > n - i {
        return false;
    }
    let mut j: usize = 0;
    while j < m
        invariant
            j <= m,
            m == pat@.len(),
            n == s@.len(),
            i + m <= n,
            forall|k: int| 0 <= k < j ==> s@[i + k] == pat@[k],
        decreases m - j,
    {
        if s[i + j] != pat[j] {
            assert(s@.subrange(i as int, i + m)[j as int] != pat@[j as int]);
            return false;
        }
        j = j + 1;
    }
    assert(s@.subrange(i as int, i + m) =~= pat@);
    true
}

/// Whether `pat` stands anywhere in `s`.
fn contains_exec(s: &Vec<char>, pat: &Vec<char>) -> (r: bool)
    ensures
        r == contains(s@, pat@),
{
    let n: usize = s.len();
    let mut i: usize = 0;
    while i < n
        invariant
            i <= n,
            n == s@.len(),
            forall|q: int| 0 <= q < i ==> !occurs_at(s@, pat@, q),
        decreases n - i,
    {
        if occurs_at_exec(s, pat, i) {
            return true;
        }
        i = i + 1;
    }
    occurs_at_exec(s, pat, n)
}

/// The start of the first line that carries the key, if any.
fn first_key_line(s: &Vec<char>, key: &Vec<char>) -> (r: Option<usize>)
    requires
        key@ == KEY_HEADER@,
    ensures
        match r {
            Some(p) => is_first_key_line(s@, p as int),
            None => !has_key_line(s@),
        },
{
    let n: usize = s.len();
    let mut p: usize = 0;
    while p < n
        invariant
            p <= n,
            n == s@.len(),
            key@ == KEY_HEADER@,
            forall|q: int| 0 <= q < p ==> !is_key_line(s@, q),
        decreases n - p,
    {
        let starts: bool = p == 0 || s[p - 1] == '\n';
        if starts && occurs_at_exec(s, key, p) {
            return Some(p);
        }
        p = p + 1;
    }
    let starts: bool = n == 0 || s[n - 1] == '\n';
    if starts && occurs_at_exec(s, key, n) {
        return Some(n);
    }
    None
}

/// The span `[b, e)` of the key on the line that starts at `p`.
fn key_span(s: &Vec<char>, p: usize) -> (r: (usize, usize))
    requires
        p <= s@.len(),
    ensures
        r.0 <= r.1 <= s@.len(),
        s@.subrange(r.0 as int, r.1 as int) == key_value(s@, p as int),
{
    let n: usize = s.len();
    let mut e: usize = p;
    while e < n && s[e] != '\n'
        invariant
            p <= e <= n,
            n == s@.len(),
            line_end(s@, p as int) == line_end(s@, e as int),
        decreases n - e,
    {
        e = e + 1;
    }
    assert(line_end(s@, e as int) == e);
    let ghost line = s@.subrange(p as int, e as int);
    let mut c: usize = e;
    while c > p && s[c - 1] != ':'
        invariant
            p <= c <= e <= n,
            n == s@.len(),
            after_last_colon(line) == after_last_colon(s@.subrange(p as int, c as int))
                + s@.subrange(c as int, e as int),
        decreases c,
    {
        let ghost before = s@.subrange(p as int, c as int);
        assert(before.drop_last() =~= s@.subrange(p as int, c - 1));
        assert(s@.subrange(c - 1, e as int) =~= seq![before.last()] + s@.subrange(c as int, e as int));
        assert(after_last_colon(before) == after_last_colon(before.drop_last()).push(before.last()));
        assert(after_last_colon(before.drop_last()).push(before.last()) + s@.subrange(c as int, e as int)
            =~= after_last_colon(before.drop_last()) + s@.subrange(c - 1, e as int));
        c = c - 1;
    }
    assert(after_last_colon(s@.subrange(p as int, c as int)) =~= Seq::<char>::empty());
    assert(after_last_colon(line) =~= s@.subrange(c as int, e as int));
    let mut hi: usize = e;
    while hi > c && is_whitespace(s[hi - 1])
        invariant
            c <= hi <= e <= n,
            n == s@.len(),
            trim_end(s@.subrange(c as int, e as int)) == trim_end(s@.subrange(c as int, hi as int)),
        decreases hi,
    {
        assert(s@.subrange(c as int, hi as int).drop_last() =~= s@.subrange(c as int, hi - 1));
        hi = hi - 1;
    }
    assert(trim_end(s@.subrange(c as int, hi as int)) == s@.subrange(c as int, hi as int));
    let mut lo: usize = c;
    while lo < hi && is_whitespace(s[lo])
        invariant
            c <= lo <= hi <= e <= n,
            n == s@.len(),
            trim_start(s@.subrange(c as int, hi as int)) == trim_start(s@.subrange(lo as int, hi as int)),
        decreases hi - lo,
    {
        assert(s@.subrange(lo as int, hi as int).drop_first() =~= s@.subrange(lo + 1, hi as int));
        lo = lo + 1;
    }
    assert(trim_start(s@.subrange(lo as int, hi as int)) == s@.subrange(lo as int, hi as int));
    (lo, hi)
}

/// The response that accepts an upgrade with the given accept key.
pub fn handshake_response(accept: &str) -> (r: String)
    ensures
        r@ == response_text(accept@),
{
    let mut out = String::from_str(RESPONSE_HEAD);
    out.append(accept);
    out.append(RESPONSE_TAIL);
    out
}

/// Finds the client's key in an upgrade request: the text after the last
/// colon of the first `Sec-WebSocket-Key` line, trimmed.
pub fn find_key(request: &str) -> (r: Result<String, HandshakeError>)
    ensures
        match r {
            Ok(key) => upgrade_requested(request@) && exists|p: int|
                is_first_key_line(request@, p) && key@ == key_value(request@, p),
            Err(e) => {
                &&& !upgrade_requested(request@) ==> e == HandshakeError::InvalidUpgrade
                &&& upgrade_requested(request@) ==> e == HandshakeError::MissingKey
                    && !has_key_line(request@)
            },
        },
{
    let s = chars_of(request);
    let upgrade = chars_of(UPGRADE_HEADER);
    if !contains_exec(&s, &upgrade) {
        return Err(HandshakeError::InvalidUpgrade);
    }
    let key = chars_of(KEY_HEADER);
    match first_key_line(&s, &key) {
        None => Err(HandshakeError::MissingKey),
        Some(p) => {
            let (lo, hi) = key_span(&s, p);
            Ok(String::from_str(request.substring_char(lo, hi)))
        },
    }
}

/// The accept key for a client's key: the base64 text of the SHA-1 digest
/// of the key followed by the protocol GUID.
pub fn compute_accept_key(key: &str) -> (r: String)
    ensures
        r@ == accept_key(key@),
{
    let mut keyed = String::from_str(key);
    keyed.append(WEBSOCKET_GUID);
    let digest = sha1_digest(keyed.as_str().as_bytes());
    to_base64(digest.as_slice())
}

} // verus!
