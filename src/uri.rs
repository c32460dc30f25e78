//! Resolving a request path against the content root and the static root.
//!
//! - An existing directory or file under the content root comes first.
//! - Failing that, the same path with `.md` appended to its last segment.
//! - Failing that, a file under the static root.
//!
//! The filesystem is asked by the caller: `candidates` names the paths to look
//! at, and `Candidates::resolve` decides from what was found there.
use vstd::prelude::*;
use vstd::string::*;
use crate::config::Config;

verus! {

/// What a look at one path found.
#[derive(Debug, Clone, Copy, PartialEq, Eq, Structural)]
pub enum FileKind {
    Directory,
    File,
    Missing,
}

/// The resource that a request path names.
#[derive(Debug, Clone)]
pub enum Resolved {
    File(String),
    Markdown(String),
    Directory(String),
    NotFound,
}

pub enum ResolvedView {
    File(Seq<char>),
    Markdown(Seq<char>),
    Directory(Seq<char>),
    NotFound,
}

impl View for Resolved {
    type V = ResolvedView;

    open spec fn view(&self) -> ResolvedView {
        match self {
            Resolved::File(p) => ResolvedView::File(p@),
            Resolved::Markdown(p) => ResolvedView::Markdown(p@),
            Resolved::Directory(p) => ResolvedView::Directory(p@),
            Resolved::NotFound => ResolvedView::NotFound,
        }
    }
}

/// The paths to look at for one request, in the order they are tried.
#[derive(Debug, Clone)]
pub struct Candidates {
    pub content: String,
    pub markdown: Option<String>,
    pub fallback: String,
}

pub struct CandidatesView {
    pub content: Seq<char>,
    pub markdown: Option<Seq<char>>,
    pub fallback: Seq<char>,
}

impl View for Candidates {
    type V = CandidatesView;

    open spec fn view(&self) -> CandidatesView {
        CandidatesView {
            content: self.content@,
            markdown: match self.markdown {
                Some(m) => Some(m@),
                None => None,
            },
            fallback: self.fallback@,
        }
    }
}

/// What was found at each of the candidate paths.
#[derive(Debug, Clone, Copy)]
pub struct Probed {
    pub content: FileKind,
    pub markdown: FileKind,
    pub fallback: FileKind,
}

/// Where the last segment of `p` starts: just past its last `/`.
pub open spec fn last_segment_start(p: Seq<char>, j: int) -> int
    decreases j,
{
    if j <= 0 || j > p.len() {
        0
    } else if p[j - 1] == '/' {
        j
    } else {
        last_segment_start(p, j - 1)
    }
}

pub open spec fn last_segment(p: Seq<char>) -> Seq<char> {
    p.subrange(last_segment_start(p, p.len() as int), p.len() as int)
}

/// A file name whose extension is exactly `md`: it ends in `.md` and has a
/// stem before that.
pub open spec fn is_md_name(name: Seq<char>) -> bool {
    name.len() > 3 && name.subrange(name.len() - 3, name.len() as int) == seq!['.', 'm', 'd']
}

/// A `..` segment starts at `i`.
pub open spec fn parent_segment_at(p: Seq<char>, i: int) -> bool {
    &&& 0 <= i && i + 2 <= p.len()
    &&& p[i] == '.' && p[i + 1] == '.'
    &&& i == 0 || p[i - 1] == '/'
    &&& i + 2 == p.len() || p[i + 2] == '/'
}

/// `p` has a `..` segment, which could lead out of a root.
pub open spec fn escapes(p: Seq<char>) -> bool {
    exists|i: int| parent_segment_at(p, i)
}

/// `rel` under `root`, with one `/` between them.
pub open spec fn join(root: Seq<char>, rel: Seq<char>) -> Seq<char> {
    if rel.len() == 0 {
        root
    } else if root.len() == 0 || root.last() == '/' {
        root + rel
    } else {
        root + seq!['/'] + rel
    }
}

/// The paths looked at for the request path `uri`, or none where it has a
/// `..` segment.
pub open spec fn candidates_spec(root: Seq<char>, fallback_root: Seq<char>, uri: Seq<char>) -> Option<
    CandidatesView,
> {
    let rel = uri.subrange(1, uri.len() as int);
    if escapes(rel) {
        None
    } else {
        Some(
            CandidatesView {
                content: join(root, rel),
                markdown: if last_segment(rel).len() > 0 {
                    Some(join(root, rel) + seq!['.', 'm', 'd'])
                } else {
                    None
                },
                fallback: join(fallback_root, rel),
            },
        )
    }
}

/// The first of the candidates that matches, in order.
pub open spec fn resolve_spec(c: CandidatesView, k: Probed) -> ResolvedView {
    match k.content {
        FileKind::Directory => ResolvedView::Directory(c.content),
        FileKind::File => if is_md_name(last_segment(c.content)) {
            ResolvedView::Markdown(c.content)
        } else {
            ResolvedView::File(c.content)
        },
        FileKind::Missing => if c.markdown.is_some() && k.markdown == FileKind::File {
            ResolvedView::Markdown(c.markdown.unwrap())
        } else if k.fallback == FileKind::File {
            ResolvedView::File(c.fallback)
        } else {
            ResolvedView::NotFound
        },
    }
}

/// The request path `uri` resolved, given what was found at its candidates.
pub open spec fn lookup_spec(root: Seq<char>, fallback_root: Seq<char>, uri: Seq<char>, k: Probed) -> ResolvedView {
    match candidates_spec(root, fallback_root, uri) {
        None => ResolvedView::NotFound,
        Some(c) => resolve_spec(c, k),
    }
}

fn last_segment_index(p: &str) -> (r: usize)
    ensures
        r == last_segment_start(p@, p@.len() as int),
        r <= p@.len(),
{
    let n = p.unicode_len();
    let mut j: usize = n;
    while j > 0
        invariant
            j <= n == p@.len(),
            last_segment_start(p@, n as int) == last_segment_start(p@, j as int),
        decreases j,
    {
        if p.get_char(j - 1) == '/' {
            return j;
        }
        j = j - 1;
    }
    0
}

fn md_name(p: &str) -> (r: bool)
    ensures
        r == is_md_name(last_segment(p@)),
{
    let n = p.unicode_len();
    let start = last_segment_index(p);
    if n - start <= 3 {
        return false;
    }
    let ghost name = last_segment(p@);
    let a = p.get_char(n - 3);
    let b = p.get_char(n - 2);
    let c = p.get_char(n - 1);
    proof {
        assert(name.subrange(name.len() - 3, name.len() as int) =~= seq![a, b, c]);
        if seq![a, b, c] == seq!['.', 'm', 'd'] {
            assert(seq![a, b, c][0] == '.' && seq![a, b, c][1] == 'm' && seq![a, b, c][2] == 'd');
        }
    }
    a == '.' && b == 'm' && c == 'd'
}

fn has_parent_segment(p: &str) -> (r: bool)
    ensures
        r == escapes(p@),
{
    let n = p.unicode_len();
    let mut i: usize = 0;
    while i < n && n - i >= 2
        invariant
            n == p@.len(),
            forall|j: int| 0 <= j < i ==> !parent_segment_at(p@, j),
        decreases n - i,
    {
        if p.get_char(i) == '.' && p.get_char(i + 1) == '.' && (i == 0 || p.get_char(i - 1) == '/')
            && (i + 2 == n || p.get_char(i + 2) == '/') {
            assert(parent_segment_at(p@, i as int));
            return true;
        }
        i = i + 1;
    }
    assert forall|j: int| !parent_segment_at(p@, j) by {
        if 0 <= j && j + 2 <= n {
            assert(j < i);
        } else {
            assert(!parent_segment_at(p@, j));
        }
    }
    false
}

fn join_paths(root: &str, rel: &str) -> (r: String)
    ensures
        r@ == join(root@, rel@),
{
    let mut out = String::from_str(root);
    let rn = root.unicode_len();
    if rel.unicode_len() == 0 {
        return out;
    }
    if rn == 0 || root.get_char(rn - 1) == '/' {
        out.append(rel);
    } else {
        proof {
            reveal_strlit("/");
        }
        out.append("/");
        out.append(rel);
        proof {
            assert(out@ =~= root@ + seq!['/'] + rel@);
        }
    }
    out
}

/// The absolute request path `uri` without its leading `/`.
pub fn force_relative(uri: &str) -> (r: String)
    requires
        uri@.len() > 0,
        uri@[0] == '/',
    ensures
        r@ == uri@.subrange(1, uri@.len() as int),
{
    String::from_str(uri.substring_char(1, uri.unicode_len()))
}

/// Resolves request paths against the configured roots.
pub struct Resolver {
    pub config: Config,
}

impl Resolver {
    pub open spec fn root(&self) -> Seq<char> {
        self.config.rootdir@
    }

    pub open spec fn static_root(&self) -> Seq<char> {
        self.config.staticdir@
    }

    pub fn new(config: &Config) -> (r: Resolver)
        ensures
            r.root() == config.rootdir@,
            r.static_root() == config.staticdir@,
    {
        Resolver { config: config.duplicate() }
    }

    pub fn config(&self) -> (r: &Config)
        ensures
            r.rootdir@ == self.root(),
            r.staticdir@ == self.static_root(),
    {
        &self.config
    }

    /// The paths to look at for the absolute request path `uri`, or none where
    /// it has a `..` segment.
    pub fn candidates(&self, uri: &str) -> (r: Option<Candidates>)
        requires
            uri@.len() > 0,
            uri@[0] == '/',
        ensures
            match r {
                Some(c) => candidates_spec(self.root(), self.static_root(), uri@) == Some(c@),
                None => candidates_spec(self.root(), self.static_root(), uri@).is_none(),
            },
    {
        let rel_path = force_relative(uri);
        let rel = rel_path.as_str();
        if has_parent_segment(rel) {
            return None;
        }
        let content = join_paths(self.config.rootdir.as_str(), rel);
        let markdown = if last_segment_index(rel) < rel.unicode_len() {
            let mut m = content.clone();
            m.append(".md");
            proof {
                reveal_strlit(".md");
            }
            Some(m)
        } else {
            None
        };
        let fallback = join_paths(self.config.staticdir.as_str(), rel);
        let c = Candidates { content, markdown, fallback };
        proof {
            assert(c@.markdown == candidates_spec(self.root(), self.static_root(), uri@).unwrap().markdown);
        }
        Some(c)
    }

    /// Resolves the absolute request path `uri`, given what was found at each
    /// of its candidates.
    pub fn lookup(&self, uri: &str, found: Probed) -> (r: Resolved)
        requires
            uri@.len() > 0,
            uri@[0] == '/',
        ensures
            r@ == lookup_spec(self.root(), self.static_root(), uri@, found),
    {
        match self.candidates(uri) {
            None => Resolved::NotFound,
            Some(c) => c.resolve(found),
        }
    }
}

impl Candidates {
    /// The first candidate that matches: a directory or file under the content
    /// root (a file with extension `md` is a Markdown document), then the
    /// Markdown variant, then a file under the static root.
    pub fn resolve(&self, found: Probed) -> (r: Resolved)
        ensures
            r@ == resolve_spec(self@, found),
    {
        match found.content {
            FileKind::Directory => Resolved::Directory(self.content.clone()),
            FileKind::File => if md_name(self.content.as_str()) {
                Resolved::Markdown(self.content.clone())
            } else {
                Resolved::File(self.content.clone())
            },
            FileKind::Missing => {
                if let Some(m) = &self.markdown {
                    if found.markdown == FileKind::File {
                        return Resolved::Markdown(m.clone());
                    }
                }
                if found.fallback == FileKind::File {
                    Resolved::File(self.fallback.clone())
                } else {
                    Resolved::NotFound
                }
            },
        }
    }
}

} // verus!
