//! Parsing an HTTP request head from the bytes read so far.
use vstd::prelude::*;
use crate::wire::{
    check_no_line_break, is_ows, lemma_find_first, lemma_line_end_first, ows_back, ows_front, CR,
    LF, check_token, copy_range, find_byte, find_line_end, find_spec, is_token, lemma_find_bounds,
    lemma_line_end_bounds, line_end, no_line_break, trim, trim_ows, COLON, SP, decimal_value,
    parse_decimal,
};
use vstd::utf8::{decode_utf8, valid_utf8};

verus! {

/// The most header lines a request head may carry.
pub const MAX_HEADERS: usize = 100;

/// Why a request could not be read.
#[derive(Debug, Clone, Copy, PartialEq, Eq, Structural)]
pub enum ReqError {
    /// The head has not ended yet: read another line and try again.
    Incomplete,
    /// The request line or a header line does not have the required shape.
    Malformed,
    /// The head has more header lines than `MAX_HEADERS`.
    HeaderOverflow,
    /// The body had to be text and is not valid UTF-8.
    BodyEncoding,
    /// Reading from the connection failed or ended early.
    Io,
}

/// A header as it stands on the wire: the name before the first colon, the
/// value after it without surrounding spaces and tabs.
#[derive(Debug, Clone)]
pub struct Header {
    pub name: Vec<u8>,
    pub value: Vec<u8>,
}

impl View for Header {
    type V = (Seq<u8>, Seq<u8>);

    open spec fn view(&self) -> (Seq<u8>, Seq<u8>) {
        (self.name@, self.value@)
    }
}

pub open spec fn headers_view(hs: Seq<Header>) -> Seq<(Seq<u8>, Seq<u8>)> {
    hs.map_values(|h: Header| h@)
}

#[derive(Debug, Clone)]
pub struct Request {
    pub method: Vec<u8>,
    pub target: Vec<u8>,
    pub version: Vec<u8>,
    pub headers: Vec<Header>,
    pub body: Vec<u8>,
}

pub struct RequestView {
    pub method: Seq<u8>,
    pub target: Seq<u8>,
    pub version: Seq<u8>,
    pub headers: Seq<(Seq<u8>, Seq<u8>)>,
    pub body: Seq<u8>,
}

impl View for Request {
    type V = RequestView;

    open spec fn view(&self) -> RequestView {
        RequestView {
            method: self.method@,
            target: self.target@,
            version: self.version@,
            headers: headers_view(self.headers@),
            body: self.body@,
        }
    }
}

/// `METHOD SP TARGET SP VERSION`: exactly three tokens, each separated by
/// one space.
pub open spec fn request_line_spec(l: Seq<u8>) -> Option<(Seq<u8>, Seq<u8>, Seq<u8>)> {
    match find_spec(l, SP, 0) {
        None => None,
        Some(a) => match find_spec(l, SP, a + 1) {
            None => None,
            Some(b) => {
                let m = l.subrange(0, a);
                let t = l.subrange(a + 1, b);
                let v = l.subrange(b + 1, l.len() as int);
                if is_token(m) && is_token(t) && is_token(v) {
                    Some((m, t, v))
                } else {
                    None
                }
            },
        },
    }
}

/// `NAME: value`: split on the first colon; the name is a token, the value is
/// trimmed of spaces and tabs and holds no line break.
pub open spec fn header_line_spec(l: Seq<u8>) -> Option<(Seq<u8>, Seq<u8>)> {
    match find_spec(l, COLON, 0) {
        None => None,
        Some(k) => {
            let name = l.subrange(0, k);
            let value = trim_ows(l.subrange(k + 1, l.len() as int));
            if is_token(name) && no_line_break(value) {
                Some((name, value))
            } else {
                None
            }
        },
    }
}

/// The header lines that start at `pos`, `n` of them read before: the headers
/// and the position just past the blank line that ends the head.
pub open spec fn headers_spec(s: Seq<u8>, pos: int, n: nat) -> Result<
    (Seq<(Seq<u8>, Seq<u8>)>, int),
    ReqError,
>
    decreases s.len() - pos,
{
    match line_end(s, pos) {
        None => Err(ReqError::Incomplete),
        Some(e) => if e < pos || s.len() < e + 2 {
            Err(ReqError::Malformed)
        } else if e == pos {
            Ok((Seq::empty(), e + 2))
        } else if n >= MAX_HEADERS {
            Err(ReqError::HeaderOverflow)
        } else {
            match header_line_spec(s.subrange(pos, e)) {
                None => Err(ReqError::Malformed),
                Some(h) => match headers_spec(s, e + 2, n + 1) {
                    Ok((hs, end)) => Ok((seq![h] + hs, end)),
                    Err(x) => Err(x),
                },
            }
        },
    }
}

/// The request head at the start of `s`, and where it ends.
pub open spec fn head_spec(s: Seq<u8>) -> Result<(RequestView, int), ReqError> {
    match line_end(s, 0) {
        None => Err(ReqError::Incomplete),
        Some(e) => match request_line_spec(s.subrange(0, e)) {
            None => Err(ReqError::Malformed),
            Some((m, t, v)) => match headers_spec(s, e + 2, 0) {
                Ok((hs, end)) => Ok(
                    (
                        RequestView {
                            method: m,
                            target: t,
                            version: v,
                            headers: hs,
                            body: Seq::empty(),
                        },
                        end,
                    ),
                ),
                Err(x) => Err(x),
            },
        },
    }
}

/// Splits a request line into its three tokens.
pub fn parse_request_line(l: &[u8]) -> (r: Option<(Vec<u8>, Vec<u8>, Vec<u8>)>)
    ensures
        match r {
            Some((m, t, v)) => request_line_spec(l@) == Some((m@, t@, v@)),
            None => request_line_spec(l@).is_none(),
        },
{
    let a = match find_byte(l, SP, 0) {
        None => return None,
        Some(a) => a,
    };
    proof {
        lemma_find_bounds(l@, SP, 0);
        assert(find_spec(l@, SP, 0) == Some(a as int));
        assert(l@.len() == l.len());
    }
    let b = match find_byte(l, SP, a + 1) {
        None => return None,
        Some(b) => b,
    };
    proof {
        lemma_find_bounds(l@, SP, a + 1);
    }
    let m = copy_range(l, 0, a);
    let t = copy_range(l, a + 1, b);
    let v = copy_range(l, b + 1, l.len());
    if check_token(m.as_slice()) && check_token(t.as_slice()) && check_token(v.as_slice()) {
        Some((m, t, v))
    } else {
        None
    }
}

/// Splits a header line on its first colon.
pub fn parse_header_line(l: &[u8]) -> (r: Option<Header>)
    ensures
        match r {
            Some(h) => header_line_spec(l@) == Some(h@),
            None => header_line_spec(l@).is_none(),
        },
{
    let k = match find_byte(l, COLON, 0) {
        None => return None,
        Some(k) => k,
    };
    proof {
        lemma_find_bounds(l@, COLON, 0);
        assert(find_spec(l@, COLON, 0) == Some(k as int));
        assert(l@.len() == l.len());
    }
    let name = copy_range(l, 0, k);
    let rest = copy_range(l, k + 1, l.len());
    let value = trim(rest.as_slice());
    if check_token(name.as_slice()) && check_no_line_break(value.as_slice()) {
        Some(Header { name, value })
    } else {
        None
    }
}

/// Reads the header lines from `pos` on, `n` of them read before.
pub(crate) fn parse_header_lines(buf: &[u8], pos: usize, n: usize) -> (r: Result<(Vec<Header>, usize), ReqError>)
    requires
        n <= MAX_HEADERS,
    ensures
        match r {
            Ok((hs, end)) => headers_spec(buf@, pos as int, n as nat) matches Ok((v, e)) && v
                == headers_view(hs@) && e == end,
            Err(x) => headers_spec(buf@, pos as int, n as nat) matches Err(y) && y == x,
        },
    decreases buf.len() - pos,
{
    let e = match find_line_end(buf, pos) {
        None => return Err(ReqError::Incomplete),
        Some(e) => e,
    };
    proof {
        lemma_line_end_bounds(buf@, pos as int);
    }
    if e == pos {
        proof {
            assert(headers_view(Seq::<Header>::empty()) =~= Seq::empty());
        }
        return Ok((Vec::new(), e + 2));
    }
    if n >= MAX_HEADERS {
        return Err(ReqError::HeaderOverflow);
    }
    let line = copy_range(buf, pos, e);
    let h = match parse_header_line(line.as_slice()) {
        None => return Err(ReqError::Malformed),
        Some(h) => h,
    };
    match parse_header_lines(buf, e + 2, n + 1) {
        Ok((rest, end)) => {
            let ghost old_rest = rest@;
            let mut hs = rest;
            hs.insert(0, h);
            proof {
                assert(headers_view(hs@) =~= seq![h@] + headers_view(old_rest));
            }
            Ok((hs, end))
        },
        Err(x) => Err(x),
    }
}

/// Parses a complete request head: the request line, then header lines up to
/// the blank line. Bytes after the blank line are not part of the head, and
/// the body is left empty.
///
/// Fails with `Incomplete` while the head has not ended, with `Malformed` on
/// the first line out of shape, and with `HeaderOverflow` on the header line
/// after the first `MAX_HEADERS`.
pub fn parse_headers(buf: &[u8]) -> (r: Result<Request, ReqError>)
    ensures
        match r {
            Ok(req) => head_spec(buf@) matches Ok((v, _)) && req@ == v,
            Err(x) => head_spec(buf@) matches Err(y) && y == x,
        },
{
    let e = match find_line_end(buf, 0) {
        None => return Err(ReqError::Incomplete),
        Some(e) => e,
    };
    proof {
        lemma_line_end_bounds(buf@, 0);
        assert(line_end(buf@, 0) == Some(e as int));
        assert(buf@.len() == buf.len());
    }
    let line = copy_range(buf, 0, e);
    let (method, target, version) = match parse_request_line(line.as_slice()) {
        None => return Err(ReqError::Malformed),
        Some(parts) => parts,
    };
    match parse_header_lines(buf, e + 2, 0) {
        Ok((headers, _end)) => Ok(Request { method, target, version, headers, body: Vec::new() }),
        Err(x) => Err(x),
    }
}

/// A header that reads back as itself: a name of visible bytes without a
/// colon, and a value with no line break and no space or tab at either end.
pub open spec fn header_fits(h: (Seq<u8>, Seq<u8>)) -> bool {
    &&& is_token(h.0)
    &&& forall|i: int| 0 <= i < h.0.len() ==> #[trigger] h.0[i] != COLON
    &&& no_line_break(h.1)
    &&& h.1.len() > 0 ==> !is_ows(h.1[0]) && !is_ows(h.1.last())
}

/// `name: value` followed by CRLF.
pub open spec fn header_line_bytes(h: (Seq<u8>, Seq<u8>)) -> Seq<u8> {
    h.0 + seq![COLON, SP] + h.1 + seq![CR, LF]
}

/// The header lines of `hs`, one after the other.
pub open spec fn header_block(hs: Seq<(Seq<u8>, Seq<u8>)>) -> Seq<u8>
    decreases hs.len(),
{
    if hs.len() == 0 {
        Seq::empty()
    } else {
        header_line_bytes(hs[0]) + header_block(hs.drop_first())
    }
}

/// `METHOD SP TARGET SP VERSION` followed by CRLF.
pub open spec fn request_line_bytes(m: Seq<u8>, t: Seq<u8>, v: Seq<u8>) -> Seq<u8> {
    m + seq![SP] + t + seq![SP] + v + seq![CR, LF]
}

/// `hs` put in front of the headers of a parse result.
pub open spec fn prepend_headers(
    hs: Seq<(Seq<u8>, Seq<u8>)>,
    r: Result<(Seq<(Seq<u8>, Seq<u8>)>, int), ReqError>,
) -> Result<(Seq<(Seq<u8>, Seq<u8>)>, int), ReqError> {
    match r {
        Ok((t, e)) => Ok((hs + t, e)),
        Err(x) => Err(x),
    }
}

proof fn lemma_header_line_reads_back(h: (Seq<u8>, Seq<u8>))
    requires
        header_fits(h),
    ensures
        header_line_spec(h.0 + seq![COLON, SP] + h.1) == Some(h),
{
    let l = h.0 + seq![COLON, SP] + h.1;
    assert(l[h.0.len() as int] == COLON);
    lemma_find_first(l, COLON, 0, h.0.len() as int);
    let rest = l.subrange(h.0.len() + 1int, l.len() as int);
    assert(rest =~= seq![SP] + h.1);
    assert(ows_front(rest, 1) == 1);
    assert(ows_front(rest, 0) == 1);
    if h.1.len() > 0 {
        assert(rest[rest.len() - 1] == h.1.last());
    }
    assert(ows_back(rest, 1, rest.len() as int) == rest.len());
    assert(trim_ows(rest) =~= h.1);
    assert(l.subrange(0, h.0.len() as int) =~= h.0);
}

/// A line laid in `s` at `pos` with no carriage return before its CRLF ends there.
pub proof fn lemma_line_at(s: Seq<u8>, pos: int, line: Seq<u8>)
    requires
        0 <= pos,
        line.len() >= 2,
        pos + line.len() <= s.len(),
        s.subrange(pos, pos + line.len()) == line,
        line[line.len() - 2] == CR,
        line[line.len() - 1] == LF,
        forall|j: int| 0 <= j < line.len() - 2 ==> line[j] != CR,
    ensures
        line_end(s, pos) == Some(pos + line.len() - 2),
{
    let k = pos + line.len() - 2;
    assert(s[k] == line[line.len() - 2]);
    assert(s[k + 1] == line[line.len() - 1]);
    assert forall|j: int| pos <= j < k implies s[j] != CR by {
        assert(s[j] == s.subrange(pos, pos + line.len())[j - pos]);
    }
    lemma_line_end_first(s, pos, k);
}

/// Reading a block of well-formed header lines at `pos`, `n` of them read
/// before: the header past the first `MAX_HEADERS` overflows; otherwise the
/// block reads back as `hs`, followed by whatever comes after it.
pub proof fn lemma_header_block_reads_back(
    s: Seq<u8>,
    pos: int,
    n: nat,
    hs: Seq<(Seq<u8>, Seq<u8>)>,
)
    requires
        0 <= pos,
        n <= MAX_HEADERS,
        pos + header_block(hs).len() <= s.len(),
        s.subrange(pos, pos + header_block(hs).len()) == header_block(hs),
        forall|i: int| 0 <= i < hs.len() ==> header_fits(#[trigger] hs[i]),
    ensures
        n + hs.len() > MAX_HEADERS ==> headers_spec(s, pos, n) == Err::<
            (Seq<(Seq<u8>, Seq<u8>)>, int),
            ReqError,
        >(ReqError::HeaderOverflow),
        n + hs.len() <= MAX_HEADERS ==> headers_spec(s, pos, n) == prepend_headers(
            hs,
            headers_spec(s, pos + header_block(hs).len(), n + hs.len()),
        ),
    decreases hs.len(),
{
    if hs.len() == 0 {
        assert(header_block(hs).len() == 0);
        match headers_spec(s, pos, n) {
            Ok((t, e)) => {
                assert(hs + t =~= t);
            },
            Err(_) => {},
        }
    } else {
        let h = hs[0];
        let line = header_line_bytes(h);
        let tail = hs.drop_first();
        let block = header_block(hs);
        assert(block == line + header_block(tail));
        assert(header_fits(h));
        assert(s.subrange(pos, pos + line.len()) =~= line) by {
            assert forall|j: int| 0 <= j < line.len() implies #[trigger] s.subrange(
                pos,
                pos + line.len(),
            )[j] == line[j] by {
                assert(s[pos + j] == s.subrange(pos, pos + block.len())[j]);
            }
        }
        assert forall|j: int| 0 <= j < line.len() - 2 implies line[j] != CR by {
            if j < h.0.len() {
                assert(line[j] == h.0[j]);
            } else if j >= h.0.len() + 2 {
                assert(line[j] == h.1[j - h.0.len() - 2]);
            }
        }
        lemma_line_at(s, pos, line);
        let e = pos + line.len() - 2;
        lemma_header_line_reads_back(h);
        assert(s.subrange(pos, e) =~= h.0 + seq![COLON, SP] + h.1) by {
            assert(s.subrange(pos, e) =~= s.subrange(pos, pos + line.len()).subrange(
                0,
                line.len() - 2,
            ));
        }
        let next = e + 2;
        assert(s.subrange(next, next + header_block(tail).len()) =~= header_block(tail)) by {
            assert forall|j: int| 0 <= j < header_block(tail).len() implies #[trigger] s.subrange(
                next,
                next + header_block(tail).len(),
            )[j] == header_block(tail)[j] by {
                assert(s[next + j] == s.subrange(pos, pos + block.len())[line.len() + j]);
                assert(block[line.len() + j] == header_block(tail)[j]);
            }
        }
        if n < MAX_HEADERS {
            lemma_header_block_reads_back(s, next, n + 1, tail);
            assert(next + header_block(tail).len() == pos + block.len());
            match headers_spec(s, pos + block.len(), n + hs.len()) {
                Ok((t, end)) => {
                    assert(hs + t =~= seq![h] + (tail + t));
                },
                Err(_) => {},
            }
        }
    }
}

/// A request line of three tokens reads back as those tokens, with the
/// headers of the block that follows it, up to the blank line.
pub proof fn lemma_request_line_recovered(
    m: Seq<u8>,
    t: Seq<u8>,
    v: Seq<u8>,
    hs: Seq<(Seq<u8>, Seq<u8>)>,
    rest: Seq<u8>,
)
    requires
        is_token(m),
        is_token(t),
        is_token(v),
        hs.len() <= MAX_HEADERS,
        forall|i: int| 0 <= i < hs.len() ==> header_fits(#[trigger] hs[i]),
    ensures
        ({
            let head = request_line_bytes(m, t, v) + header_block(hs) + seq![CR, LF];
            head_spec(head + rest) == Ok::<(RequestView, int), ReqError>(
                (
                    RequestView {
                        method: m,
                        target: t,
                        version: v,
                        headers: hs,
                        body: Seq::empty(),
                    },
                    head.len() as int,
                ),
            )
        }),
{
    let rl = request_line_bytes(m, t, v);
    let head = rl + header_block(hs) + seq![CR, LF];
    let s = head + rest;
    assert(s.subrange(0, rl.len() as int) =~= rl);
    lemma_request_line_start(m, t, v, s);
    let pos = rl.len() as int;
    assert(s.subrange(pos, pos + header_block(hs).len()) =~= header_block(hs));
    lemma_header_block_reads_back(s, pos, 0, hs);
    let end = pos + header_block(hs).len();
    assert(s[end] == CR && s[end + 1] == LF);
    assert(headers_spec(s, end, hs.len()) == Ok::<(Seq<(Seq<u8>, Seq<u8>)>, int), ReqError>(
        (Seq::empty(), end + 2),
    ));
    assert(hs + Seq::<(Seq<u8>, Seq<u8>)>::empty() =~= hs);
}

/// A head with more header lines than `MAX_HEADERS` is refused with
/// `HeaderOverflow`, whatever follows them.
pub proof fn lemma_too_many_headers(
    m: Seq<u8>,
    t: Seq<u8>,
    v: Seq<u8>,
    hs: Seq<(Seq<u8>, Seq<u8>)>,
    rest: Seq<u8>,
)
    requires
        is_token(m),
        is_token(t),
        is_token(v),
        hs.len() > MAX_HEADERS,
        forall|i: int| 0 <= i < hs.len() ==> header_fits(#[trigger] hs[i]),
    ensures
        head_spec(request_line_bytes(m, t, v) + header_block(hs) + rest) == Err::<
            (RequestView, int),
            ReqError,
        >(ReqError::HeaderOverflow),
{
    let rl = request_line_bytes(m, t, v);
    let s = rl + header_block(hs) + rest;
    assert(s.subrange(0, rl.len() as int) =~= rl);
    lemma_request_line_start(m, t, v, s);
    let pos = rl.len() as int;
    assert(s.subrange(pos, pos + header_block(hs).len()) =~= header_block(hs));
    lemma_header_block_reads_back(s, pos, 0, hs);
}

/// The request line at the start of `s` is found and split into its tokens.
proof fn lemma_request_line_start(m: Seq<u8>, t: Seq<u8>, v: Seq<u8>, s: Seq<u8>)
    requires
        is_token(m),
        is_token(t),
        is_token(v),
        s.len() >= request_line_bytes(m, t, v).len(),
        s.subrange(0, request_line_bytes(m, t, v).len() as int) == request_line_bytes(m, t, v),
    ensures
        line_end(s, 0) == Some(request_line_bytes(m, t, v).len() - 2),
        request_line_spec(s.subrange(0, request_line_bytes(m, t, v).len() - 2)) == Some(
            (m, t, v),
        ),
{
    let rl = request_line_bytes(m, t, v);
    let l = m + seq![SP] + t + seq![SP] + v;
    assert(rl == l + seq![CR, LF]);
    assert forall|j: int| 0 <= j < rl.len() - 2 implies rl[j] != CR by {
        assert(rl[j] == l[j]);
        if j < m.len() {
            assert(l[j] == m[j]);
        } else if m.len() < j < m.len() + 1 + t.len() {
            assert(l[j] == t[j - m.len() - 1]);
        } else if j > m.len() + 1 + t.len() {
            assert(l[j] == v[j - m.len() - t.len() - 2]);
        }
    }
    lemma_line_at(s, 0, rl);
    assert(s.subrange(0, rl.len() - 2) =~= l) by {
        assert(s.subrange(0, rl.len() - 2) =~= s.subrange(0, rl.len() as int).subrange(
            0,
            rl.len() - 2,
        ));
        assert(rl.subrange(0, rl.len() - 2) =~= l);
    }
    let a = m.len() as int;
    let b = a + 1 + t.len();
    assert forall|j: int| 0 <= j < a implies l[j] != SP by {
        assert(l[j] == m[j]);
    }
    lemma_find_first(l, SP, 0, a);
    assert forall|j: int| a + 1 <= j < b implies l[j] != SP by {
        assert(l[j] == t[j - a - 1]);
    }
    lemma_find_first(l, SP, a + 1, b);
    assert(l.subrange(0, a) =~= m);
    assert(l.subrange(a + 1, b) =~= t);
    assert(l.subrange(b + 1, l.len() as int) =~= v);
}

/// Relies on `String::from_utf8`: it fails exactly when the bytes are not
/// valid UTF-8, and otherwise holds the characters they encode.
#[verifier::external_body]
pub(crate) fn string_from_utf8(bytes: Vec<u8>) -> (r: Option<String>)
    ensures
        match r {
            Some(s) => valid_utf8(bytes@) && s@ == decode_utf8(bytes@),
            None => !valid_utf8(bytes@),
        },
{
    match String::from_utf8(bytes) {
        Ok(s) => Some(s),
        Err(_) => None,
    }
}

/// An ASCII letter in lower case; other bytes as they are.
pub open spec fn ascii_lower(b: u8) -> u8 {
    if 65 <= b && b <= 90 {
        (b + 32) as u8
    } else {
        b
    }
}

/// Two header names that are the same but for ASCII case.
pub open spec fn same_name(a: Seq<u8>, b: Seq<u8>) -> bool {
    a.len() == b.len() && forall|i: int| 0 <= i < a.len() ==> ascii_lower(#[trigger] a[i]) == ascii_lower(b[i])
}

/// The value of the first header from `i` on whose name is `name`, ignoring case.
pub open spec fn header_value_from(hs: Seq<(Seq<u8>, Seq<u8>)>, name: Seq<u8>, i: int) -> Option<Seq<u8>>
    decreases hs.len() - i,
{
    if i < 0 || i >= hs.len() {
        None
    } else if same_name(hs[i].0, name) {
        Some(hs[i].1)
    } else {
        header_value_from(hs, name, i + 1)
    }
}

pub open spec fn header_value(hs: Seq<(Seq<u8>, Seq<u8>)>, name: Seq<u8>) -> Option<Seq<u8>> {
    header_value_from(hs, name, 0)
}

fn lower(b: u8) -> (r: u8)
    ensures
        r == ascii_lower(b),
{
    if 65 <= b && b <= 90 {
        b + 32
    } else {
        b
    }
}

fn names_match(a: &[u8], b: &[u8]) -> (r: bool)
    ensures
        r == same_name(a@, b@),
{
    if a.len() != b.len() {
        return false;
    }
    let mut i: usize = 0;
    while i < a.len()
        invariant
            a@.len() == b@.len(),
            i <= a.len(),
            forall|j: int| 0 <= j < i ==> ascii_lower(#[trigger] a@[j]) == ascii_lower(b@[j]),
        decreases a.len() - i,
    {
        if lower(a[i]) != lower(b[i]) {
            return false;
        }
        i = i + 1;
    }
    true
}

/// `Content-Length`, in lower case.
pub open spec fn content_length_key() -> Seq<u8> {
    seq![99u8, 111, 110, 116, 101, 110, 116, 45, 108, 101, 110, 103, 116, 104]
}

/// The length of the body that a head announces: none without
/// `Content-Length`, else its decimal value.
pub open spec fn body_length_spec(hs: Seq<(Seq<u8>, Seq<u8>)>) -> Result<nat, ReqError> {
    match header_value(hs, content_length_key()) {
        None => Ok(0),
        Some(v) => match decimal_value(v) {
            Some(n) => Ok(n),
            None => Err(ReqError::Malformed),
        },
    }
}

impl Request {
    /// The value of the first header called `name`, ignoring ASCII case.
    pub fn header(&self, name: &[u8]) -> (r: Option<&Vec<u8>>)
        ensures
            match r {
                Some(v) => header_value(self@.headers, name@) == Some(v@),
                None => header_value(self@.headers, name@).is_none(),
            },
    {
        let mut i: usize = 0;
        while i < self.headers.len()
            invariant
                i <= self.headers@.len(),
                header_value(self@.headers, name@) == header_value_from(self@.headers, name@, i as int),
            decreases self.headers.len() - i,
        {
            if names_match(self.headers[i].name.as_slice(), name) {
                return Some(&self.headers[i].value);
            }
            i = i + 1;
        }
        None
    }

    /// How many body bytes follow the head: zero without `Content-Length`;
    /// `Malformed` where its value is not one to nineteen decimal digits.
    pub fn content_length(&self) -> (r: Result<u64, ReqError>)
        ensures
            match r {
                Ok(n) => body_length_spec(self@.headers) == Ok::<nat, ReqError>(n as nat),
                Err(x) => body_length_spec(self@.headers) == Err::<nat, ReqError>(x),
            },
    {
        let key: Vec<u8> = vec![99u8, 111, 110, 116, 101, 110, 116, 45, 108, 101, 110, 103, 116, 104];
        proof {
            assert(key@ =~= content_length_key());
        }
        match self.header(key.as_slice()) {
            None => Ok(0),
            Some(v) => match parse_decimal(v.as_slice()) {
                Some(n) => Ok(n),
                None => Err(ReqError::Malformed),
            },
        }
    }

    /// Takes the body from the bytes read after the head: exactly the
    /// announced length of them; `Io` where fewer arrived before the stream
    /// ended.
    pub fn take_body(self, available: Vec<u8>, len: u64) -> (r: Result<Request, ReqError>)
        ensures
            match r {
                Ok(req) => available@.len() >= len && req@.body == available@.subrange(0, len as int)
                    && req@.method == self@.method && req@.target == self@.target && req@.version
                    == self@.version && req@.headers == self@.headers,
                Err(x) => available@.len() < len && x == ReqError::Io,
            },
    {
        if (available.len() as u64) < len {
            return Err(ReqError::Io);
        }
        let body = copy_range(available.as_slice(), 0, len as usize);
        Ok(Request { body, ..self })
    }

    /// The body as text; `BodyEncoding` where it is not valid UTF-8.
    pub fn body_text(&self) -> (r: Result<String, ReqError>)
        ensures
            match r {
                Ok(s) => valid_utf8(self@.body) && s@ == decode_utf8(self@.body),
                Err(x) => !valid_utf8(self@.body) && x == ReqError::BodyEncoding,
            },
    {
        let bytes = copy_range(self.body.as_slice(), 0, self.body.len());
        proof {
            assert(bytes@ =~= self.body@);
        }
        match string_from_utf8(bytes) {
            Some(s) => Ok(s),
            None => Err(ReqError::BodyEncoding),
        }
    }
}

} // verus!
