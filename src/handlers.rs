//! Deciding what to do with a request.
//!
//! A request is handled in steps, the caller doing the outside work in
//! between: `Handler::handle_request` reads the request and names the paths to
//! look at; `Handler::handle_get` decides from what was found there; the
//! functions that build responses take what was read or rendered; and
//! `handle_head` strips the body of a response to a `HEAD` request.
use vstd::prelude::*;
use vstd::string::*;
use vstd::utf8::{decode_utf8, encode_utf8, valid_utf8};
use crate::config::Config;
use crate::request::{string_from_utf8, Request};
use crate::response::{length_header, push_all, Response};
use crate::uri::{
    candidates_spec, resolve_spec, Candidates, Probed, Resolved, ResolvedView, Resolver,
};
use crate::wire::{find_byte, find_spec};

verus! {

/// The name of the HTML produced from a Markdown text.
pub uninterp spec fn markdown_html_of(text: Seq<char>) -> Seq<char>;

/// Relies on `pulldown_cmark::Parser::new_ext`, with tables, footnotes,
/// strikethrough, task lists and heading attributes on and smart punctuation
/// off (it would mangle LaTeX), and `pulldown_cmark::html::push_html`, which
/// writes the HTML of the events into an empty string: the HTML depends on the
/// text alone, and an empty text gives none.
#[verifier::external_body]
fn markdown_to_html(text: &str) -> (r: String)
    ensures
        r@ == markdown_html_of(text@),
        text@.len() == 0 ==> r@.len() == 0,
{
    let options = pulldown_cmark::Options::from_bits_truncate(0b1011110);
    let parser = pulldown_cmark::Parser::new_ext(text, options);
    let mut out = String::new();
    pulldown_cmark::html::push_html(&mut out, parser);
    out
}

/// The HTML of a Markdown document.
pub fn render_markdown(text: &str) -> (r: String)
    ensures
        r@ == markdown_html_of(text@),
        text@.len() == 0 ==> r@.len() == 0,
{
    markdown_to_html(text)
}

/// A kind of content that a client accepts.
#[derive(Debug, Clone, Copy, PartialEq, Eq, Structural)]
pub enum AcceptFormat {
    Html,
    Json,
    Any,
}

/// How a directory listing is sent.
#[derive(Debug, Clone, Copy, PartialEq, Eq, Structural)]
pub enum ListingFormat {
    /// Rendered through the directory template.
    Html,
    /// The tree as a JSON document.
    Json,
}

/// What the request method asks for.
#[derive(Debug, Clone, Copy, PartialEq, Eq, Structural)]
pub enum Route {
    Get,
    Head,
    Other,
}

/// `json`, `html` and `*/*`
pub open spec fn json_bytes() -> Seq<u8> {
    seq![106u8, 115, 111, 110]
}

pub open spec fn html_bytes() -> Seq<u8> {
    seq![104u8, 116, 109, 108]
}

pub open spec fn any_bytes() -> Seq<u8> {
    seq![42u8, 47, 42]
}

/// `pat` occurs in `s` at `i`.
pub open spec fn occurs_at(s: Seq<u8>, pat: Seq<u8>, i: int) -> bool {
    0 <= i && i + pat.len() <= s.len() && s.subrange(i, i + pat.len()) == pat
}

pub open spec fn contains(s: Seq<u8>, pat: Seq<u8>) -> bool {
    exists|i: int| occurs_at(s, pat, i)
}

/// What one clause of an `Accept` value asks for, looked for in this order.
pub open spec fn clause_format(c: Seq<u8>) -> Option<AcceptFormat> {
    if contains(c, json_bytes()) {
        Some(AcceptFormat::Json)
    } else if contains(c, html_bytes()) {
        Some(AcceptFormat::Html)
    } else if contains(c, any_bytes()) {
        Some(AcceptFormat::Any)
    } else {
        None
    }
}

/// The end of the comma-separated clause that starts at `pos`.
pub open spec fn clause_end(v: Seq<u8>, pos: int) -> int {
    match find_spec(v, 44, pos) {
        Some(k) => k,
        None => v.len() as int,
    }
}

/// The formats of the clauses from `pos` on, in order, where they ask for one.
pub open spec fn formats_from(v: Seq<u8>, pos: int) -> Seq<AcceptFormat>
    decreases v.len() - pos,
{
    if pos < 0 || pos > v.len() {
        Seq::empty()
    } else {
        let end = clause_end(v, pos);
        let rest = if pos <= end < v.len() {
            formats_from(v, end + 1)
        } else {
            Seq::empty()
        };
        match clause_format(v.subrange(pos, end)) {
            Some(f) => seq![f] + rest,
            None => rest,
        }
    }
}

/// The formats an `Accept` value asks for; without the header, anything.
pub open spec fn preferred_spec(accept: Option<Seq<u8>>) -> Seq<AcceptFormat> {
    match accept {
        None => seq![AcceptFormat::Any],
        Some(v) => formats_from(v, 0),
    }
}

/// The first format asked for decides; HTML where none is.
pub open spec fn listing_spec(prefs: Seq<AcceptFormat>) -> ListingFormat {
    if prefs.len() > 0 && prefs[0] == AcceptFormat::Json {
        ListingFormat::Json
    } else {
        ListingFormat::Html
    }
}

pub open spec fn route_spec(method: Seq<u8>) -> Route {
    if method == seq![71u8, 69, 84] {
        Route::Get
    } else if method == seq![72u8, 69, 65, 68] {
        Route::Head
    } else {
        Route::Other
    }
}

/// The target without its query.
pub open spec fn target_path(t: Seq<u8>) -> Seq<u8> {
    match find_spec(t, 63, 0) {
        Some(q) => t.subrange(0, q),
        None => t,
    }
}

/// The request path, where the target has one: valid text that starts with `/`.
pub open spec fn request_path(t: Seq<u8>) -> Option<Seq<char>> {
    let p = target_path(t);
    if valid_utf8(p) && decode_utf8(p).len() > 0 && decode_utf8(p)[0] == '/' {
        Some(decode_utf8(p))
    } else {
        None
    }
}

/// `File not found: `
pub open spec fn not_found_prefix() -> Seq<u8> {
    seq![70u8, 105, 108, 101, 32, 110, 111, 116, 32, 102, 111, 117, 110, 100, 58, 32]
}

pub open spec fn not_found_body(path: Seq<char>) -> Seq<u8> {
    not_found_prefix() + encode_utf8(path)
}

/// A response that a request leads to: its status and its body.
pub open spec fn responds(r: Response, status: u16, body: Seq<u8>) -> bool {
    r@.status == status && r@.body == body && r@.headers == seq![length_header(body)]
}

fn occurs(s: &[u8], pat: &[u8]) -> (r: bool)
    ensures
        r == contains(s@, pat@),
{
    if pat.len() > s.len() {
        proof {
            assert forall|i: int| !occurs_at(s@, pat@, i) by {}
        }
        return false;
    }
    let mut i: usize = 0;
    proof {
        assert(s@.len() == s.len());
        assert(pat@.len() == pat.len());
    }
    while i <= s.len() - pat.len()
        invariant
            pat@.len() <= s@.len(),
            s@.len() == s.len(),
            pat@.len() == pat.len(),
            i <= s@.len() - pat@.len() + 1,
            forall|j: int| 0 <= j < i ==> !occurs_at(s@, pat@, j),
        decreases s.len() - i,
    {
        let mut k: usize = 0;
        while k < pat.len() && s[i + k] == pat[k]
            invariant
                i + pat@.len() <= s@.len(),
                s@.len() == s.len(),
                pat@.len() == pat.len(),
                k <= pat@.len(),
                forall|m: int| 0 <= m < k ==> s@[i + m] == pat@[m],
            decreases pat.len() - k,
        {
            k = k + 1;
        }
        if k == pat.len() {
            proof {
                assert(s@.subrange(i as int, i + pat@.len()) =~= pat@);
                assert(occurs_at(s@, pat@, i as int));
            }
            return true;
        }
        proof {
            if occurs_at(s@, pat@, i as int) {
                assert(s@.subrange(i as int, i + pat@.len())[k as int] == pat@[k as int]);
            }
        }
        i = i + 1;
    }
    proof {
        assert forall|j: int| !occurs_at(s@, pat@, j) by {
            if occurs_at(s@, pat@, j) {
                assert(j < i);
            }
        }
    }
    false
}

fn clause_format_exec(c: &[u8]) -> (r: Option<AcceptFormat>)
    ensures
        r == clause_format(c@),
{
    let json: Vec<u8> = vec![106u8, 115, 111, 110];
    let html: Vec<u8> = vec![104u8, 116, 109, 108];
    let any: Vec<u8> = vec![42u8, 47, 42];
    proof {
        assert(json@ =~= json_bytes());
        assert(html@ =~= html_bytes());
        assert(any@ =~= any_bytes());
    }
    if occurs(c, json.as_slice()) {
        Some(AcceptFormat::Json)
    } else if occurs(c, html.as_slice()) {
        Some(AcceptFormat::Html)
    } else if occurs(c, any.as_slice()) {
        Some(AcceptFormat::Any)
    } else {
        None
    }
}

/// The formats that an `Accept` header value asks for, clause by clause in
/// the order given: a clause that mentions `json` asks for JSON, else one
/// that mentions `html` for HTML, else one with `*/*` for anything. Without
/// the header, anything.
pub fn preferred_format(accept: Option<&Vec<u8>>) -> (r: Vec<AcceptFormat>)
    ensures
        r@ == preferred_spec(
            match accept {
                Some(v) => Some(v@),
                None => None,
            },
        ),
{
    match accept {
        None => {
            let mut r: Vec<AcceptFormat> = Vec::new();
            r.push(AcceptFormat::Any);
            proof {
                assert(r@ =~= seq![AcceptFormat::Any]);
            }
            r
        },
        Some(v) => formats_of(v),
    }
}

fn formats_of(v: &Vec<u8>) -> (r: Vec<AcceptFormat>)
    ensures
        r@ == formats_from(v@, 0),
{
    let mut out: Vec<AcceptFormat> = Vec::new();
    let mut pos: usize = 0;
    proof {
        assert(out@ + formats_from(v@, 0) =~= formats_from(v@, 0));
    }
    loop
        invariant
            pos <= v@.len(),
            formats_from(v@, 0) == out@ + formats_from(v@, pos as int),
        decreases v@.len() - pos,
    {
        let end = match find_byte(v.as_slice(), 44, pos) {
            Some(k) => k,
            None => v.len(),
        };
        proof {
            crate::wire::lemma_find_bounds(v@, 44, pos as int);
            assert(end == clause_end(v@, pos as int));
        }
        let clause = crate::wire::copy_range(v.as_slice(), pos, end);
        let ghost rest = if pos <= end < v@.len() {
            formats_from(v@, end + 1)
        } else {
            Seq::empty()
        };
        proof {
            assert(formats_from(v@, pos as int) == match clause_format(clause@) {
                Some(f) => seq![f] + rest,
                None => rest,
            });
        }
        let ghost before = out@;
        match clause_format_exec(clause.as_slice()) {
            Some(f) => {
                out.push(f);
                proof {
                    assert(out@ + rest =~= before + (seq![f] + rest));
                }
            },
            None => {},
        }
        proof {
            assert(formats_from(v@, 0) =~= out@ + rest);
        }
        if end >= v.len() {
            proof {
                assert(out@ + rest =~= out@);
            }
            return out;
        }
        pos = end + 1;
    }
}

/// How to send a directory listing: as JSON where the first format asked for
/// is JSON, else as HTML.
pub fn listing_format(prefs: &Vec<AcceptFormat>) -> (r: ListingFormat)
    ensures
        r == listing_spec(prefs@),
{
    if prefs.len() > 0 && prefs[0] == AcceptFormat::Json {
        ListingFormat::Json
    } else {
        ListingFormat::Html
    }
}

pub fn route(method: &[u8]) -> (r: Route)
    ensures
        r == route_spec(method@),
{
    if method.len() == 3 && method[0] == 71 && method[1] == 69 && method[2] == 84 {
        proof {
            assert(method@ =~= seq![71u8, 69, 84]);
        }
        Route::Get
    } else if method.len() == 4 && method[0] == 72 && method[1] == 69 && method[2] == 65 && method[3]
        == 68 {
        proof {
            assert(method@ =~= seq![72u8, 69, 65, 68]);
        }
        Route::Head
    } else {
        proof {
            if method@ == seq![71u8, 69, 84] {
                assert(method@[0] == 71u8 && method@[1] == 69u8 && method@[2] == 84u8);
            }
            if method@ == seq![72u8, 69, 65, 68] {
                assert(method@[0] == 72u8 && method@[1] == 69u8 && method@[2] == 65u8 && method@[3]
                    == 68u8);
            }
        }
        Route::Other
    }
}

fn path_of_target(t: &[u8]) -> (r: Option<String>)
    ensures
        match r {
            Some(p) => request_path(t@) == Some(p@),
            None => request_path(t@).is_none(),
        },
{
    let end = match find_byte(t, 63, 0) {
        Some(q) => q,
        None => t.len(),
    };
    proof {
        crate::wire::lemma_find_bounds(t@, 63, 0);
    }
    let bytes = crate::wire::copy_range(t, 0, end);
    proof {
        assert(bytes@ =~= target_path(t@));
    }
    let s = match string_from_utf8(bytes) {
        None => return None,
        Some(s) => s,
    };
    if s.as_str().unicode_len() > 0 && s.as_str().get_char(0) == '/' {
        Some(s)
    } else {
        None
    }
}

/// A response naming the path that was not found.
pub fn not_found_response(path: &str) -> (r: Response)
    ensures
        responds(r, 404, not_found_body(path@)),
{
    let mut body: Vec<u8> = vec![70u8, 105, 108, 101, 32, 110, 111, 116, 32, 102, 111, 117, 110, 100, 58, 32];
    proof {
        assert(body@ =~= not_found_prefix());
    }
    push_all(&mut body, path.as_bytes());
    Response::from_bytes(404, body)
}

/// A response with the bytes of a file.
pub fn file_response(contents: Vec<u8>) -> (r: Response)
    ensures
        responds(r, 200, contents@),
{
    Response::from_bytes(200, contents)
}

/// A response with a rendered page, or a server error where rendering failed.
pub fn page_response(rendered: Option<String>) -> (r: Response)
    ensures
        match rendered {
            Some(s) => responds(r, 200, encode_utf8(s@)),
            None => responds(r, 500, Seq::empty()),
        },
{
    match rendered {
        Some(s) => {
            let mut body: Vec<u8> = Vec::new();
            push_all(&mut body, s.as_str().as_bytes());
            proof {
                assert(body@ =~= encode_utf8(s@));
            }
            Response::from_bytes(200, body)
        },
        None => crate::response::server_error(),
    }
}

/// The same response with its body left out, for a `HEAD` request. The
/// declared length stays that of the body that a `GET` would carry.
pub fn handle_head(resp: Response) -> (r: Response)
    ensures
        r@.status == resp@.status,
        r@.headers == resp@.headers,
        r@.body.len() == 0,
{
    Response { status: resp.status, headers: resp.headers, body: Vec::new() }
}

/// The next step for a request.
pub enum Action {
    /// Send this response; the request is done.
    Respond(Response),
    /// Look at the candidate paths and hand what was found to
    /// `Handler::handle_get`; `head` tells to send no body at the end.
    Probe { candidates: Candidates, path: String, head: bool },
}

/// The outside work that a resolved request needs.
pub enum Work {
    /// Send the bytes of the file at this path.
    ReadFile(String),
    /// Render the Markdown document at this path.
    RenderMarkdown(String),
    /// List the directory at this path in this format.
    ListDirectory(String, ListingFormat),
    /// Send this response.
    Respond(Response),
}

/// Handles the requests of one server, sharing its configuration.
pub struct Handler {
    pub resolver: Resolver,
}

impl Handler {
    pub fn new(config: Config) -> (r: Handler)
        ensures
            r.resolver.root() == config.rootdir@,
            r.resolver.static_root() == config.staticdir@,
    {
        Handler { resolver: Resolver::new(&config) }
    }

    /// The first step for a request: a method other than `GET` and `HEAD` is
    /// not implemented; a target without a request path is a bad request; a
    /// path that leads out of the roots is not found; any other names the paths
    /// to look at.
    pub fn handle_request(&self, req: &Request) -> (r: Action)
        ensures
            route_spec(req@.method) == Route::Other ==> (r matches Action::Respond(resp) && responds(
                resp,
                501,
                Seq::empty(),
            )),
            route_spec(req@.method) != Route::Other && request_path(req@.target).is_none()
                ==> (r matches Action::Respond(resp) && responds(resp, 400, Seq::empty())),
            route_spec(req@.method) != Route::Other && request_path(req@.target).is_some()
                ==> match candidates_spec(
                self.resolver.root(),
                self.resolver.static_root(),
                request_path(req@.target).unwrap(),
            ) {
                None => r matches Action::Respond(resp) && responds(
                    resp,
                    404,
                    not_found_body(request_path(req@.target).unwrap()),
                ),
                Some(c) => r matches Action::Probe { candidates, path, head } && candidates@ == c
                    && path@ == request_path(req@.target).unwrap() && head == (route_spec(
                    req@.method,
                ) == Route::Head),
            },
    {
        let route = route(req.method.as_slice());
        if route == Route::Other {
            return Action::Respond(crate::response::unimplemented());
        }
        let path = match path_of_target(req.target.as_slice()) {
            None => return Action::Respond(crate::response::bad_request()),
            Some(p) => p,
        };
        match self.resolver.candidates(path.as_str()) {
            None => Action::Respond(not_found_response(path.as_str())),
            Some(candidates) => Action::Probe { candidates, path, head: route == Route::Head },
        }
    }

    /// Decides from what was found at the candidates of the request path
    /// `path`: a file is read, a Markdown document rendered, a directory
    /// listed in the format the `Accept` value asks for, and a path that names
    /// nothing is not found.
    pub fn handle_get(&self, c: &Candidates, path: &str, found: Probed, accept: Option<&Vec<u8>>) -> (r: Work)
        ensures
            match resolve_spec(c@, found) {
                ResolvedView::File(p) => r matches Work::ReadFile(q) && q@ == p,
                ResolvedView::Markdown(p) => r matches Work::RenderMarkdown(q) && q@ == p,
                ResolvedView::Directory(p) => r matches Work::ListDirectory(q, f) && q@ == p && f
                    == listing_spec(
                    preferred_spec(
                        match accept {
                            Some(v) => Some(v@),
                            None => None,
                        },
                    ),
                ),
                ResolvedView::NotFound => r matches Work::Respond(resp) && responds(
                    resp,
                    404,
                    not_found_body(path@),
                ),
            },
    {
        match c.resolve(found) {
            Resolved::File(p) => Work::ReadFile(p),
            Resolved::Markdown(p) => Work::RenderMarkdown(p),
            Resolved::Directory(p) => {
                let prefs = preferred_format(accept);
                Work::ListDirectory(p, listing_format(&prefs))
            },
            Resolved::NotFound => Work::Respond(not_found_response(path)),
        }
    }
}

} // verus!
