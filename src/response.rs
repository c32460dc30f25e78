//! Responses and their encoding on the wire.
use vstd::prelude::*;
use crate::request::{
    header_block, header_fits, header_line_bytes, headers_spec, headers_view,
    lemma_header_block_reads_back, lemma_line_at, parse_header_lines, Header, ReqError,
    MAX_HEADERS,
};
use crate::wire::{
    copy_range, decimal, decimal_value, find_byte, find_line_end, find_spec, is_token,
    lemma_decimal_reads_back, lemma_find_bounds, lemma_find_first, lemma_line_end_bounds, line_end,
    no_line_break, parse_decimal, pow10, push_decimal, check_no_line_break, check_token, COLON, CR,
    LF, SP,
};

verus! {

/// The reason phrase that the `http` crate registers for a status code.
pub uninterp spec fn reason_of(code: u16) -> Option<Seq<u8>>;

/// Relies on `http::StatusCode::from_u16`, which takes the codes 100 to 999,
/// and `StatusCode::canonical_reason`, which looks the code up in the table of
/// registered phrases; every phrase there is printable ASCII.
#[verifier::external_body]
fn canonical_reason(code: u16) -> (r: Option<Vec<u8>>)
    ensures
        match r {
            Some(p) => reason_of(code) == Some(p@),
            None => reason_of(code).is_none(),
        },
        r matches Some(p) ==> forall|i: int| 0 <= i < p@.len() ==> 32 <= #[trigger] p@[i] <= 126,
        !(100 <= code <= 999) ==> r.is_none(),
{
    match http::StatusCode::from_u16(code) {
        Ok(status) => match status.canonical_reason() {
            Some(phrase) => Some(phrase.as_bytes().to_vec()),
            None => None,
        },
        Err(_) => None,
    }
}

pub struct Response {
    pub status: u16,
    pub headers: Vec<Header>,
    pub body: Vec<u8>,
}

pub struct ResponseView {
    pub status: u16,
    pub headers: Seq<(Seq<u8>, Seq<u8>)>,
    pub body: Seq<u8>,
}

impl View for Response {
    type V = ResponseView;

    open spec fn view(&self) -> ResponseView {
        ResponseView { status: self.status, headers: headers_view(self.headers@), body: self.body@ }
    }
}

/// `HTTP/1.1`
pub open spec fn version_bytes() -> Seq<u8> {
    seq![72u8, 84, 84, 80, 47, 49, 46, 49]
}

/// `Content-Length`
pub open spec fn content_length_name() -> Seq<u8> {
    seq![67u8, 111, 110, 116, 101, 110, 116, 45, 76, 101, 110, 103, 116, 104]
}

/// The reason phrase written for `code`: the registered one, else none.
pub open spec fn reason_bytes(code: u16) -> Seq<u8> {
    match reason_of(code) {
        Some(p) => p,
        None => Seq::empty(),
    }
}

/// `HTTP/1.1 SP code SP reason CRLF`
pub open spec fn status_line_bytes(code: u16) -> Seq<u8> {
    version_bytes() + seq![SP] + decimal(code as nat) + seq![SP] + reason_bytes(code) + seq![CR, LF]
}

/// The status line and header lines of a response.
pub open spec fn head_bytes(r: ResponseView) -> Seq<u8> {
    status_line_bytes(r.status) + header_block(r.headers)
}

/// The whole response: head, blank line, body.
pub open spec fn wire_bytes(r: ResponseView) -> Seq<u8> {
    head_bytes(r) + seq![CR, LF] + r.body
}

/// A status line: a version token, a decimal code up to 65535, and a reason
/// phrase that is the rest of the line.
pub open spec fn status_line_spec(l: Seq<u8>) -> Option<u16> {
    match find_spec(l, SP, 0) {
        None => None,
        Some(a) => match find_spec(l, SP, a + 1) {
            None => None,
            Some(b) => match decimal_value(l.subrange(a + 1, b)) {
                Some(code) => if is_token(l.subrange(0, a)) && code <= 65535 && no_line_break(
                    l.subrange(b + 1, l.len() as int),
                ) {
                    Some(code as u16)
                } else {
                    None
                },
                None => None,
            },
        },
    }
}

/// The response head at the start of `s`: status code, headers, and where the
/// head ends.
pub open spec fn response_head_spec(s: Seq<u8>) -> Result<
    (u16, Seq<(Seq<u8>, Seq<u8>)>, int),
    ReqError,
> {
    match line_end(s, 0) {
        None => Err(ReqError::Incomplete),
        Some(e) => match status_line_spec(s.subrange(0, e)) {
            None => Err(ReqError::Malformed),
            Some(code) => match headers_spec(s, e + 2, 0) {
                Ok((hs, end)) => Ok((code, hs, end)),
                Err(x) => Err(x),
            },
        },
    }
}

/// The headers that a response can carry and read back unchanged.
pub open spec fn headers_fit(hs: Seq<(Seq<u8>, Seq<u8>)>) -> bool {
    &&& hs.len() <= MAX_HEADERS
    &&& forall|i: int| 0 <= i < hs.len() ==> header_fits(#[trigger] hs[i])
}

pub(crate) fn push_all(out: &mut Vec<u8>, s: &[u8])
    ensures
        final(out)@ == old(out)@ + s@,
{
    let mut i: usize = 0;
    while i < s.len()
        invariant
            i <= s.len(),
            out@ == old(out)@ + s@.subrange(0, i as int),
        decreases s.len() - i,
    {
        out.push(s[i]);
        i = i + 1;
        proof {
            assert(s@.subrange(0, i as int) =~= s@.subrange(0, i - 1) + seq![s@[i - 1]]);
        }
    }
    proof {
        assert(s@.subrange(0, s@.len() as int) =~= s@);
    }
}

fn push_header_line(out: &mut Vec<u8>, h: &Header)
    ensures
        final(out)@ == old(out)@ + header_line_bytes(h@),
{
    push_all(out, h.name.as_slice());
    out.push(COLON);
    out.push(SP);
    push_all(out, h.value.as_slice());
    out.push(CR);
    out.push(LF);
    proof {
        assert(final(out)@ =~= old(out)@ + header_line_bytes(h@));
    }
}

proof fn lemma_header_block_push(hs: Seq<(Seq<u8>, Seq<u8>)>, h: (Seq<u8>, Seq<u8>))
    ensures
        header_block(hs.push(h)) == header_block(hs) + header_line_bytes(h),
    decreases hs.len(),
{
    if hs.len() == 0 {
        assert(hs.push(h).drop_first() =~= Seq::<(Seq<u8>, Seq<u8>)>::empty());
        assert(header_block(Seq::<(Seq<u8>, Seq<u8>)>::empty()) =~= Seq::empty());
        assert(hs.push(h)[0] == h);
        assert(header_block(hs.push(h)) =~= header_line_bytes(h));
    } else {
        assert(hs.push(h).drop_first() =~= hs.drop_first().push(h));
        lemma_header_block_push(hs.drop_first(), h);
        assert(header_block(hs.push(h)) =~= header_block(hs) + header_line_bytes(h));
    }
}

/// Writes the status line and the header lines of a response.
pub fn encode_header(resp: &Response) -> (r: Vec<u8>)
    ensures
        r@ == head_bytes(resp@),
        forall|i: int| 0 <= i < reason_bytes(resp.status).len() ==> 32 <= #[trigger] reason_bytes(
            resp.status,
        )[i] <= 126,
{
    let mut out: Vec<u8> = statusline(resp.status);
    let mut i: usize = 0;
    while i < resp.headers.len()
        invariant
            i <= resp.headers.len(),
            out@ == status_line_bytes(resp.status) + header_block(
                headers_view(resp.headers@.subrange(0, i as int)),
            ),
        decreases resp.headers.len() - i,
    {
        push_header_line(&mut out, &resp.headers[i]);
        proof {
            let hv = headers_view(resp.headers@.subrange(0, i as int));
            assert(headers_view(resp.headers@.subrange(0, i + 1)) =~= hv.push(resp.headers@[i as int]@));
            lemma_header_block_push(hv, resp.headers@[i as int]@);
        }
        i = i + 1;
    }
    proof {
        assert(resp.headers@.subrange(0, resp.headers@.len() as int) =~= resp.headers@);
    }
    out
}

/// The status line of a response with this code.
fn statusline(code: u16) -> (r: Vec<u8>)
    ensures
        r@ == status_line_bytes(code),
        forall|i: int| 0 <= i < reason_bytes(code).len() ==> 32 <= #[trigger] reason_bytes(code)[i]
            <= 126,
{
    let mut out: Vec<u8> = vec![72u8, 84, 84, 80, 47, 49, 46, 49];
    out.push(SP);
    push_decimal(&mut out, code as u64);
    out.push(SP);
    match canonical_reason(code) {
        Some(p) => push_all(&mut out, p.as_slice()),
        None => {},
    }
    out.push(CR);
    out.push(LF);
    proof {
        assert(out@ =~= status_line_bytes(code));
    }
    out
}

/// Reads back the status code and the headers of a response head.
pub fn parse_response_head(buf: &[u8]) -> (r: Result<(u16, Vec<Header>), ReqError>)
    ensures
        match r {
            Ok((code, hs)) => response_head_spec(buf@) matches Ok((c, v, _)) && c == code && v
                == headers_view(hs@),
            Err(x) => response_head_spec(buf@) matches Err(y) && y == x,
        },
{
    let e = match find_line_end(buf, 0) {
        None => return Err(ReqError::Incomplete),
        Some(e) => e,
    };
    proof {
        lemma_line_end_bounds(buf@, 0);
        assert(line_end(buf@, 0) == Some(e as int));
        assert(buf@.len() == buf.len());
    }
    let line = copy_range(buf, 0, e);
    let code = match parse_status_line(line.as_slice()) {
        None => return Err(ReqError::Malformed),
        Some(code) => code,
    };
    match parse_header_lines(buf, e + 2, 0) {
        Ok((headers, _end)) => Ok((code, headers)),
        Err(x) => Err(x),
    }
}

fn parse_status_line(l: &[u8]) -> (r: Option<u16>)
    ensures
        r == status_line_spec(l@),
{
    let a = match find_byte(l, SP, 0) {
        None => return None,
        Some(a) => a,
    };
    proof {
        lemma_find_bounds(l@, SP, 0);
        assert(find_spec(l@, SP, 0) == Some(a as int));
        assert(l@.len() == l.len());
    }
    let b = match find_byte(l, SP, a + 1) {
        None => return None,
        Some(b) => b,
    };
    proof {
        lemma_find_bounds(l@, SP, a + 1);
        assert(find_spec(l@, SP, a + 1) == Some(b as int));
    }
    let version = copy_range(l, 0, a);
    let digits = copy_range(l, a + 1, b);
    let reason = copy_range(l, b + 1, l.len());
    match parse_decimal(digits.as_slice()) {
        Some(code) => if check_token(version.as_slice()) && code <= 65535 && check_no_line_break(
            reason.as_slice(),
        ) {
            Some(code as u16)
        } else {
            None
        },
        None => None,
    }
}

/// The status line at the start of `s` is found and read back as `code`.
proof fn lemma_status_line_start(code: u16, s: Seq<u8>)
    requires
        forall|i: int| 0 <= i < reason_bytes(code).len() ==> 32 <= #[trigger] reason_bytes(code)[i]
            <= 126,
        s.len() >= status_line_bytes(code).len(),
        s.subrange(0, status_line_bytes(code).len() as int) == status_line_bytes(code),
    ensures
        line_end(s, 0) == Some(status_line_bytes(code).len() - 2),
        status_line_spec(s.subrange(0, status_line_bytes(code).len() - 2)) == Some(code),
{
    let sl = status_line_bytes(code);
    let v = version_bytes();
    let d = decimal(code as nat);
    let p = reason_bytes(code);
    let l = v + seq![SP] + d + seq![SP] + p;
    assert(sl == l + seq![CR, LF]);
    lemma_decimal_reads_back(code as nat);
    assert(pow10(5) == 100000) by {
        reveal_with_fuel(pow10, 6);
    }
    crate::wire::lemma_pow10_grows(5, 19);
    assert forall|j: int| 0 <= j < sl.len() - 2 implies sl[j] != CR by {
        assert(sl[j] == l[j]);
        if 9 <= j < 9 + d.len() {
            assert(l[j] == d[j - 9]);
        } else if j > 9 + d.len() {
            assert(l[j] == p[j - 10 - d.len()]);
        }
    }
    lemma_line_at(s, 0, sl);
    assert(s.subrange(0, sl.len() - 2) =~= l) by {
        assert(s.subrange(0, sl.len() - 2) =~= s.subrange(0, sl.len() as int).subrange(
            0,
            sl.len() - 2,
        ));
    }
    let b = 9 + d.len() as int;
    lemma_find_first(l, SP, 0, 8);
    assert forall|j: int| 9 <= j < b implies l[j] != SP by {
        assert(l[j] == d[j - 9]);
    }
    lemma_find_first(l, SP, 9, b);
    assert(l.subrange(0, 8) =~= v);
    assert(l.subrange(9, b) =~= d);
    assert(l.subrange(b + 1, l.len() as int) =~= p);
}

/// Re-reading the head of an encoded response gives back its status code and
/// its headers.
proof fn lemma_response_head_reads_back(r: ResponseView)
    requires
        forall|i: int| 0 <= i < reason_bytes(r.status).len() ==> 32 <= #[trigger] reason_bytes(
            r.status,
        )[i] <= 126,
        headers_fit(r.headers),
    ensures
        response_head_spec(wire_bytes(r)) == Ok::<(u16, Seq<(Seq<u8>, Seq<u8>)>, int), ReqError>(
            (r.status, r.headers, head_bytes(r).len() + 2int),
        ),
{
    let s = wire_bytes(r);
    let sl = status_line_bytes(r.status);
    let hb = header_block(r.headers);
    assert(s =~= sl + hb + seq![CR, LF] + r.body);
    assert(s.subrange(0, sl.len() as int) =~= sl);
    lemma_status_line_start(r.status, s);
    let pos = sl.len() as int;
    assert(s.subrange(pos, pos + hb.len()) =~= hb);
    lemma_header_block_reads_back(s, pos, 0, r.headers);
    let end = pos + hb.len();
    assert(s[end] == CR && s[end + 1] == LF);
    assert(headers_spec(s, end, r.headers.len()) == Ok::<
        (Seq<(Seq<u8>, Seq<u8>)>, int),
        ReqError,
    >((Seq::empty(), end + 2)));
    assert(r.headers + Seq::<(Seq<u8>, Seq<u8>)>::empty() =~= r.headers);
}

/// Turns a value into the bytes sent on the wire.
pub trait IntoBytes: Sized {
    spec fn wire_view(&self) -> Seq<u8>;

    fn into_bytes(self) -> (r: Vec<u8>)
        ensures
            r@ == self.wire_view(),
    ;
}

impl IntoBytes for Response {
    open spec fn wire_view(&self) -> Seq<u8> {
        wire_bytes(self@)
    }

    fn into_bytes(self) -> (r: Vec<u8>) {
        self.encode()
    }
}

/// `Content-Length` with the decimal length of `body`.
pub open spec fn length_header(body: Seq<u8>) -> (Seq<u8>, Seq<u8>) {
    (content_length_name(), decimal(body.len()))
}

fn content_length(n: usize) -> (h: Header)
    ensures
        h@ == (content_length_name(), decimal(n as nat)),
{
    let name: Vec<u8> = vec![67u8, 111, 110, 116, 101, 110, 116, 45, 76, 101, 110, 103, 116, 104];
    let mut value: Vec<u8> = Vec::new();
    push_decimal(&mut value, n as u64);
    proof {
        assert(name@ =~= content_length_name());
        assert(value@ =~= decimal(n as nat));
    }
    Header { name, value }
}

impl Response {
    /// A response with this status and body, its one header the length of the
    /// body.
    pub fn from_bytes(status: u16, body: Vec<u8>) -> (r: Response)
        ensures
            r@.status == status,
            r@.body == body@,
            r@.headers == seq![length_header(body@)],
    {
        let h = content_length(body.len());
        let mut headers: Vec<Header> = Vec::new();
        headers.push(h);
        proof {
            assert(headers_view(headers@) =~= seq![length_header(body@)]);
        }
        Response { status, headers, body }
    }

    /// The bytes of the whole response; its head reads back as the same status
    /// and headers.
    pub fn encode(self) -> (r: Vec<u8>)
        ensures
            r@ == wire_bytes(self@),
            headers_fit(self@.headers) ==> response_head_spec(r@) == Ok::<
                (u16, Seq<(Seq<u8>, Seq<u8>)>, int),
                ReqError,
            >((self.status, self@.headers, head_bytes(self@).len() + 2int)),
    {
        let mut out = encode_header(&self);
        out.push(CR);
        out.push(LF);
        push_all(&mut out, self.body.as_slice());
        proof {
            assert(out@ =~= wire_bytes(self@));
            if headers_fit(self@.headers) {
                lemma_response_head_reads_back(self@);
            }
        }
        out
    }
}

/// A response to a method that this server does not implement.
pub fn unimplemented() -> (r: Response)
    ensures
        r@.status == 501,
        r@.body == Seq::<u8>::empty(),
        r@.headers == seq![length_header(Seq::empty())],
{
    Response::from_bytes(501, Vec::new())
}

/// A response to a method that the resource does not allow.
pub fn not_allowed() -> (r: Response)
    ensures
        r@.status == 405,
        r@.body == Seq::<u8>::empty(),
        r@.headers == seq![length_header(Seq::empty())],
{
    Response::from_bytes(405, Vec::new())
}

/// A response for a failure on the server's side; the cause is not told.
pub fn server_error() -> (r: Response)
    ensures
        r@.status == 500,
        r@.body == Seq::<u8>::empty(),
        r@.headers == seq![length_header(Seq::empty())],
{
    Response::from_bytes(500, Vec::new())
}

/// A response to a request that could not be read.
pub fn bad_request() -> (r: Response)
    ensures
        r@.status == 400,
        r@.body == Seq::<u8>::empty(),
        r@.headers == seq![length_header(Seq::empty())],
{
    Response::from_bytes(400, Vec::new())
}

} // verus!
