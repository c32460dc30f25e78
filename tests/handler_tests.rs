use zettel_web::config::ConfigBuilder;
use zettel_web::handlers::{
    file_response, handle_head, listing_format, not_found_response, page_response, preferred_format,
    render_markdown, route, AcceptFormat, Action, Handler, ListingFormat, Route, Work,
};
use zettel_web::request::parse_headers;
use zettel_web::response::IntoBytes;
use zettel_web::uri::{FileKind, Probed};

fn handler() -> Handler {
    Handler::new(ConfigBuilder::new().set_root("content").set_static("static").build())
}

fn request(line: &str, extra: &[&str]) -> Vec<u8> {
    let mut s = format!("{line}\r\n");
    for h in extra {
        s.push_str(h);
        s.push_str("\r\n");
    }
    s.push_str("\r\n");
    s.into_bytes()
}

#[test]
fn accept_clauses_are_read_in_order() {
    let v = b"text/html, application/json;q=0.9, */*;q=0.1, image/png".to_vec();
    assert_eq!(preferred_format(Some(&v)), vec![AcceptFormat::Html, AcceptFormat::Json, AcceptFormat::Any]);
    let j = b"application/json".to_vec();
    assert_eq!(preferred_format(Some(&j)), vec![AcceptFormat::Json]);
    assert_eq!(preferred_format(None), vec![AcceptFormat::Any]);
    let nothing = b"image/png".to_vec();
    assert_eq!(preferred_format(Some(&nothing)), Vec::<AcceptFormat>::new());
    let both = b"application/json+html".to_vec();
    assert_eq!(preferred_format(Some(&both)), vec![AcceptFormat::Json]);
}

#[test]
fn first_preference_decides_the_listing() {
    assert_eq!(listing_format(&vec![AcceptFormat::Json, AcceptFormat::Html]), ListingFormat::Json);
    assert_eq!(listing_format(&vec![AcceptFormat::Any, AcceptFormat::Json]), ListingFormat::Html);
    assert_eq!(listing_format(&vec![]), ListingFormat::Html);
}

#[test]
fn methods_are_routed() {
    assert_eq!(route(b"GET"), Route::Get);
    assert_eq!(route(b"HEAD"), Route::Head);
    assert_eq!(route(b"POST"), Route::Other);
    assert_eq!(route(b"get"), Route::Other);
}

#[test]
fn other_methods_are_not_implemented() {
    let req = parse_headers(&request("DELETE /page HTTP/1.1", &[])).unwrap();
    match handler().handle_request(&req) {
        Action::Respond(r) => assert_eq!(r.status, 501),
        _ => panic!("expected a response"),
    }
}

#[test]
fn target_without_path_is_bad_request() {
    let req = parse_headers(&request("GET page HTTP/1.1", &[])).unwrap();
    match handler().handle_request(&req) {
        Action::Respond(r) => assert_eq!(r.status, 400),
        _ => panic!("expected a response"),
    }
}

#[test]
fn escaping_path_is_not_found() {
    let req = parse_headers(&request("GET /../secret HTTP/1.1", &[])).unwrap();
    match handler().handle_request(&req) {
        Action::Respond(r) => {
            assert_eq!(r.status, 404);
            assert_eq!(r.body, b"File not found: /../secret".to_vec());
        }
        _ => panic!("expected a response"),
    }
}

#[test]
fn query_is_left_out_of_the_path() {
    let req = parse_headers(&request("HEAD /page?x=1 HTTP/1.1", &[])).unwrap();
    match handler().handle_request(&req) {
        Action::Probe { candidates, path, head } => {
            assert_eq!(path, "/page");
            assert_eq!(candidates.content, "content/page");
            assert!(head);
        }
        _ => panic!("expected a probe"),
    }
}

#[test]
fn resolved_requests_lead_to_their_work() {
    let h = handler();
    let c = h.resolver.candidates("/notes").unwrap();
    let json = b"application/json".to_vec();
    match h.handle_get(&c, "/notes", Probed { content: FileKind::Directory, markdown: FileKind::Missing, fallback: FileKind::Missing }, Some(&json)) {
        Work::ListDirectory(p, f) => {
            assert_eq!(p, "content/notes");
            assert_eq!(f, ListingFormat::Json);
        }
        _ => panic!("expected a listing"),
    }
    match h.handle_get(&c, "/notes", Probed { content: FileKind::Missing, markdown: FileKind::File, fallback: FileKind::Missing }, None) {
        Work::RenderMarkdown(p) => assert_eq!(p, "content/notes.md"),
        _ => panic!("expected markdown"),
    }
    match h.handle_get(&c, "/notes", Probed { content: FileKind::Missing, markdown: FileKind::Missing, fallback: FileKind::File }, None) {
        Work::ReadFile(p) => assert_eq!(p, "static/notes"),
        _ => panic!("expected a file"),
    }
    match h.handle_get(&c, "/notes", Probed { content: FileKind::Missing, markdown: FileKind::Missing, fallback: FileKind::Missing }, None) {
        Work::Respond(r) => {
            assert_eq!(r.status, 404);
            assert_eq!(r.body, b"File not found: /notes".to_vec());
        }
        _ => panic!("expected not found"),
    }
}

#[test]
fn head_keeps_the_length_of_the_body() {
    let resp = handle_head(file_response(b"twelve bytes".to_vec()));
    assert!(resp.body.is_empty());
    assert_eq!(resp.into_bytes(), b"HTTP/1.1 200 OK\r\nContent-Length: 12\r\n\r\n".to_vec());
}

#[test]
fn markdown_becomes_html() {
    assert_eq!(render_markdown("# Hi"), "<h1>Hi</h1>\n");
    assert_eq!(render_markdown(""), "");
    assert_eq!(render_markdown("a ~~b~~"), "<p>a <del>b</del></p>\n");
}

#[test]
fn rendered_pages_and_failures() {
    let ok = page_response(Some("<p>é</p>".to_string()));
    assert_eq!(ok.status, 200);
    assert_eq!(ok.body, "<p>é</p>".as_bytes().to_vec());
    assert_eq!(page_response(None).status, 500);
    assert_eq!(not_found_response("/x").body, b"File not found: /x".to_vec());
}

#[test]
fn malformed_request_leaves_others_alone() {
    let h = handler();
    let inputs = vec![
        request("GET /a HTTP/1.1", &[]),
        request("GARBAGE", &[]),
        request("GET /b HTTP/1.1", &["Accept: text/html"]),
        request("PUT /c HTTP/1.1", &[]),
    ];
    let mut outcomes: Vec<String> = Vec::new();
    for bytes in &inputs {
        let outcome = match parse_headers(bytes) {
            Err(e) => format!("error {e:?}"),
            Ok(req) => match h.handle_request(&req) {
                Action::Respond(r) => format!("status {}", r.status),
                Action::Probe { path, .. } => format!("probe {path}"),
            },
        };
        outcomes.push(outcome);
    }
    assert_eq!(outcomes, vec!["probe /a", "error Malformed", "probe /b", "status 501"]);
}
