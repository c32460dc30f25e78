use zettel_web::config::ConfigBuilder;
use zettel_web::uri::{FileKind, Probed, Resolved, Resolver};

fn resolver() -> Resolver {
    let config = ConfigBuilder::new().set_root("content").set_static("static").build();
    Resolver::new(&config)
}

fn probed(content: FileKind, markdown: FileKind, fallback: FileKind) -> Probed {
    Probed { content, markdown, fallback }
}

fn path_of(r: &Resolved) -> (&'static str, String) {
    match r {
        Resolved::File(p) => ("file", p.clone()),
        Resolved::Markdown(p) => ("markdown", p.clone()),
        Resolved::Directory(p) => ("directory", p.clone()),
        Resolved::NotFound => ("none", String::new()),
    }
}

#[test]
fn markdown_variant_is_found_without_extension() {
    let r = resolver();
    let c = r.candidates("/page").unwrap();
    assert_eq!(c.content, "content/page");
    assert_eq!(c.markdown, Some("content/page.md".to_string()));
    assert_eq!(c.fallback, "static/page");
    let found = r.lookup("/page", probed(FileKind::Missing, FileKind::File, FileKind::Missing));
    assert_eq!(path_of(&found), ("markdown", "content/page.md".to_string()));
}

#[test]
fn static_root_is_the_fallback() {
    let r = resolver();
    let found = r.lookup("/style.css", probed(FileKind::Missing, FileKind::Missing, FileKind::File));
    assert_eq!(path_of(&found), ("file", "static/style.css".to_string()));
}

#[test]
fn absent_everywhere_is_not_found() {
    let r = resolver();
    let found = r.lookup("/nothing", probed(FileKind::Missing, FileKind::Missing, FileKind::Missing));
    assert_eq!(path_of(&found), ("none", String::new()));
    let dir_in_static = r.lookup("/nothing", probed(FileKind::Missing, FileKind::Directory, FileKind::Directory));
    assert_eq!(path_of(&dir_in_static), ("none", String::new()));
}

#[test]
fn content_root_comes_first() {
    let r = resolver();
    let dir = r.lookup("/notes", probed(FileKind::Directory, FileKind::File, FileKind::File));
    assert_eq!(path_of(&dir), ("directory", "content/notes".to_string()));
    let md = r.lookup("/page.md", probed(FileKind::File, FileKind::Missing, FileKind::File));
    assert_eq!(path_of(&md), ("markdown", "content/page.md".to_string()));
    let plain = r.lookup("/image.png", probed(FileKind::File, FileKind::Missing, FileKind::File));
    assert_eq!(path_of(&plain), ("file", "content/image.png".to_string()));
}

#[test]
fn extension_must_be_exactly_md() {
    let r = resolver();
    let hidden = r.lookup("/.md", probed(FileKind::File, FileKind::Missing, FileKind::Missing));
    assert_eq!(path_of(&hidden), ("file", "content/.md".to_string()));
    let other = r.lookup("/notes.mdx", probed(FileKind::File, FileKind::Missing, FileKind::Missing));
    assert_eq!(path_of(&other), ("file", "content/notes.mdx".to_string()));
}

#[test]
fn root_and_trailing_slash_have_no_markdown_variant() {
    let r = resolver();
    let root = r.candidates("/").unwrap();
    assert_eq!(root.content, "content");
    assert_eq!(root.markdown, None);
    let dir = r.candidates("/notes/").unwrap();
    assert_eq!(dir.content, "content/notes/");
    assert_eq!(dir.markdown, None);
}

#[test]
fn parent_segments_are_refused() {
    let r = resolver();
    assert!(r.candidates("/../secret").is_none());
    assert!(r.candidates("/a/../../b").is_none());
    assert!(r.candidates("/a/..").is_none());
    assert!(r.candidates("/a..b/c").is_some());
    let found = r.lookup("/../etc/passwd", probed(FileKind::File, FileKind::File, FileKind::File));
    assert_eq!(path_of(&found), ("none", String::new()));
}

#[test]
fn root_with_trailing_slash_joins_once() {
    let config = ConfigBuilder::new().build();
    assert_eq!(config.rootdir, "./");
    let r = Resolver::new(&config);
    let c = r.candidates("/page").unwrap();
    assert_eq!(c.content, "./page");
    assert_eq!(c.fallback, "./sample/static/page");
}
