//! Rebuilding a directory tree from a flat, depth-first walk.
//!
//! A walk lists the root first, then every entry below it, each directory
//! followed by what it holds. The tree is built with an explicit stack of the
//! directories still being filled: an entry outside the current directory
//! closes it and hands it to its parent, until the entry fits again. Each
//! directory keeps its subdirectories and its files in two lists, each in
//! order of names, whatever the order of the walk.
use vstd::prelude::*;
use vstd::string::*;
use vstd::multiset::Multiset;
use crate::directory::{chars_le, lemma_chars_le_total, path_le};

verus! {

/// What a walk entry is.
#[derive(Debug, Clone, Copy, PartialEq, Eq, Structural)]
pub enum EntryKind {
    Dir,
    File,
    /// A link or anything else; it is left out of the tree.
    Other,
}

/// One entry of a walk: its path below the walk's root, one component per
/// segment, and what it is.
#[derive(Debug, Clone)]
pub struct WalkEntry {
    pub path: Vec<String>,
    pub kind: EntryKind,
}

/// A file of the tree: its name and its path below the root.
#[derive(Debug, Clone)]
pub struct File {
    pub name: String,
    pub path: Vec<String>,
}

/// A directory of the tree, its subdirectories and files kept apart, each in
/// order of names.
#[derive(Debug)]
pub struct Directory {
    pub name: String,
    pub path: Vec<String>,
    pub dirs: Vec<Directory>,
    pub files: Vec<File>,
}

/// Why a walk could not be made into a tree.
#[derive(Debug, Clone, Copy, PartialEq, Eq, Structural)]
pub enum TreeError {
    /// An entry is not directly inside an open directory: the walk is not
    /// depth-first.
    OutOfOrder,
}

pub open spec fn comps(v: Seq<String>) -> Seq<Seq<char>> {
    v.map_values(|s: String| s@)
}

/// `c` is `p` with one more component, `name`.
pub open spec fn extends(p: Seq<String>, c: Seq<String>, name: String) -> bool {
    comps(c) == comps(p).push(name@)
}

/// Files in order of their names.
pub open spec fn files_by_name(fs: Seq<File>) -> bool {
    forall|i: int| 0 <= i < fs.len() - 1 ==> chars_le(#[trigger] fs[i].name@, fs[i + 1].name@)
}

/// Directories in order of their names.
pub open spec fn dirs_by_name(ds: Seq<Directory>) -> bool {
    forall|i: int| 0 <= i < ds.len() - 1 ==> chars_le(#[trigger] ds[i].name@, ds[i + 1].name@)
}

/// Every file and every subdirectory sits one component below its directory,
/// and each list is in order of names, all the way down.
pub open spec fn wf_dir(d: Directory) -> bool
    decreases d,
{
    &&& files_by_name(d.files@)
    &&& dirs_by_name(d.dirs@)
    &&& forall|i: int| 0 <= i < d.files@.len() ==> extends(d.path@, #[trigger] d.files@[i].path@, d.files@[i].name)
    &&& forall|i: int|
        0 <= i < d.dirs@.len() ==> extends(d.path@, #[trigger] d.dirs@[i].path@, d.dirs@[i].name)
            && wf_dir(d.dirs@[i])
}

/// The paths of these files.
pub open spec fn leaf_paths(fs: Seq<File>) -> Multiset<Seq<Seq<char>>> {
    fs.map_values(|f: File| comps(f.path@)).to_multiset()
}

/// The paths of these directories.
pub open spec fn subdir_paths(ds: Seq<Directory>) -> Multiset<Seq<Seq<char>>> {
    ds.map_values(|d: Directory| comps(d.path@)).to_multiset()
}

/// The paths of the files in `d` and below.
pub open spec fn file_paths(d: Directory) -> Multiset<Seq<Seq<char>>>
    decreases d,
{
    leaf_paths(d.files@).add(files_in(d.dirs@))
}

pub open spec fn files_in(ds: Seq<Directory>) -> Multiset<Seq<Seq<char>>>
    decreases ds,
{
    if ds.len() == 0 {
        Multiset::empty()
    } else {
        files_in(ds.drop_last()).add(file_paths(ds.last()))
    }
}

/// The paths of the directories below `d`.
pub open spec fn dir_paths(d: Directory) -> Multiset<Seq<Seq<char>>>
    decreases d,
{
    subdir_paths(d.dirs@).add(dirs_in(d.dirs@))
}

pub open spec fn dirs_in(ds: Seq<Directory>) -> Multiset<Seq<Seq<char>>>
    decreases ds,
{
    if ds.len() == 0 {
        Multiset::empty()
    } else {
        dirs_in(ds.drop_last()).add(dir_paths(ds.last()))
    }
}

/// The paths of the entries of `es` of kind `k`.
pub open spec fn walk_paths(es: Seq<WalkEntry>, k: EntryKind) -> Multiset<Seq<Seq<char>>>
    decreases es.len(),
{
    if es.len() == 0 {
        Multiset::empty()
    } else {
        let rest = walk_paths(es.drop_last(), k);
        if es.last().kind == k {
            rest.insert(comps(es.last().path@))
        } else {
            rest
        }
    }
}

/// The paths of the open directories below the root, not yet handed to
/// their parents.
pub open spec fn pending(stack: Seq<Directory>, cur: Directory) -> Multiset<Seq<Seq<char>>> {
    if stack.len() == 0 {
        Multiset::empty()
    } else {
        subdir_paths(stack.drop_first()).insert(comps(cur.path@))
    }
}

/// The entries of a walk below its root.
pub open spec fn below_root(es: Seq<WalkEntry>) -> Seq<WalkEntry> {
    if es.len() == 0 {
        Seq::empty()
    } else {
        es.subrange(1, es.len() as int)
    }
}

/// `/`
pub open spec fn root_name() -> Seq<char> {
    seq!['/']
}

/// The stack of open directories and the current one: each is filled
/// consistently, and each is one component below the one under it.
pub open spec fn open_chain(stack: Seq<Directory>, cur: Directory) -> bool {
    &&& forall|i: int| 0 <= i < stack.len() ==> wf_dir(#[trigger] stack[i])
    &&& forall|i: int|
        0 < i < stack.len() ==> extends(stack[i - 1].path@, #[trigger] stack[i].path@, stack[i].name)
    &&& wf_dir(cur)
    &&& stack.len() > 0 ==> extends(stack.last().path@, cur.path@, cur.name)
}

/// `a` is a leading part of `b`, component by component.
pub open spec fn prefix_of(a: Seq<String>, b: Seq<String>) -> bool {
    a.len() <= b.len() && comps(b).subrange(0, a.len() as int) == comps(a)
}

/// Before entry `i`, the entry at `j` is a directory still being filled:
/// every entry since lies inside it. The root is open throughout.
pub open spec fn open_at(es: Seq<WalkEntry>, j: int, i: int) -> bool {
    j == 0 || (es[j].kind == EntryKind::Dir && forall|m: int|
        j < m < i ==> prefix_of(es[j].path@, #[trigger] es[m].path@))
}

/// Entry `i` lies directly inside a directory open before it, and does not
/// repeat the path of one.
pub open spec fn placed(es: Seq<WalkEntry>, i: int) -> bool {
    &&& exists|j: int|
        0 <= j < i && open_at(es, j, i) && #[trigger] es[i].path@.len() > 0 && comps(es[i].path@)
            == comps(es[j].path@).push(es[i].path@.last()@)
    &&& forall|j: int|
        0 <= j < i && open_at(es, j, i) ==> comps(#[trigger] es[j].path@) != comps(es[i].path@)
}

/// A depth-first walk: each entry after the root lies directly inside a
/// directory that is still open, and repeats the path of none.
pub open spec fn depth_first(es: Seq<WalkEntry>) -> bool {
    forall|i: int| 1 <= i < es.len() ==> #[trigger] placed(es, i)
}

/// The path of the `k`-th open directory, the current one last.
pub open spec fn open_path(stack: Seq<Directory>, cur: Directory, k: int) -> Seq<String> {
    if k < stack.len() {
        stack[k].path@
    } else {
        cur.path@
    }
}

/// `ch` holds the walk indices of the open directories, root first, before
/// entry `i`: exactly the directories open there.
pub open spec fn chain_matches(
    es: Seq<WalkEntry>,
    i: int,
    stack: Seq<Directory>,
    cur: Directory,
    ch: Seq<int>,
) -> bool {
    &&& ch.len() == stack.len() + 1
    &&& ch[0] == 0
    &&& forall|k: int| 0 <= k < ch.len() ==> 0 <= #[trigger] ch[k] < i
    &&& forall|k: int| 0 <= k < ch.len() ==> open_path(stack, cur, k) == es[#[trigger] ch[k]].path@
    &&& forall|j: int| 0 <= j < i ==> (open_at(es, j, i) <==> ch.contains(j))
}

proof fn lemma_extends_prefix(p: Seq<String>, c: Seq<String>, name: String)
    requires
        extends(p, c, name),
    ensures
        prefix_of(p, c),
        c.len() == p.len() + 1,
{
    assert(comps(c).len() == c.len());
    assert(comps(c).subrange(0, p.len() as int) =~= comps(p));
}

proof fn lemma_prefix_trans(a: Seq<String>, b: Seq<String>, c: Seq<String>)
    requires
        prefix_of(a, b),
        prefix_of(b, c),
    ensures
        prefix_of(a, c),
{
    assert(comps(c).subrange(0, a.len() as int) =~= comps(c).subrange(0, b.len() as int).subrange(
        0,
        a.len() as int,
    ));
    assert(comps(b).subrange(0, a.len() as int) =~= comps(a));
}

/// Along the open chain, each directory's path leads the paths of those
/// opened after it.
proof fn lemma_chain_nested(stack: Seq<Directory>, cur: Directory, k1: int, k2: int)
    requires
        open_chain(stack, cur),
        0 <= k1 <= k2 <= stack.len(),
    ensures
        prefix_of(open_path(stack, cur, k1), open_path(stack, cur, k2)),
        open_path(stack, cur, k1).len() + (k2 - k1) == open_path(stack, cur, k2).len(),
    decreases k2 - k1,
{
    if k1 == k2 {
        let p = open_path(stack, cur, k1);
        assert(comps(p).subrange(0, p.len() as int) =~= comps(p));
    } else {
        lemma_chain_nested(stack, cur, k1, k2 - 1);
        if k2 < stack.len() {
            lemma_extends_prefix(stack[k2 - 1].path@, stack[k2].path@, stack[k2].name);
        } else {
            lemma_extends_prefix(stack.last().path@, cur.path@, cur.name);
        }
        lemma_prefix_trans(
            open_path(stack, cur, k1),
            open_path(stack, cur, k2 - 1),
            open_path(stack, cur, k2),
        );
    }
}

/// Two leading parts of one path: the shorter leads the longer.
proof fn lemma_prefix_common(a: Seq<String>, b: Seq<String>, c: Seq<String>)
    requires
        prefix_of(a, c),
        prefix_of(b, c),
        a.len() <= b.len(),
    ensures
        prefix_of(a, b),
{
    assert(comps(b).subrange(0, a.len() as int) =~= comps(c).subrange(0, b.len() as int).subrange(
        0,
        a.len() as int,
    ));
    assert(comps(c).subrange(0, a.len() as int) =~= comps(c).subrange(0, b.len() as int).subrange(
        0,
        a.len() as int,
    ));
}

fn copy_path(v: &Vec<String>) -> (r: Vec<String>)
    ensures
        r@ == v@,
{
    let mut r: Vec<String> = Vec::new();
    let mut i: usize = 0;
    while i < v.len()
        invariant
            i <= v.len(),
            r@ == v@.subrange(0, i as int),
        decreases v.len() - i,
    {
        r.push(v[i].clone());
        i = i + 1;
        proof {
            assert(r@ =~= v@.subrange(0, i as int));
        }
    }
    proof {
        assert(v@.subrange(0, v@.len() as int) =~= v@);
    }
    r
}

/// `b` is `a` with one more component.
fn one_below(a: &Vec<String>, b: &Vec<String>) -> (r: bool)
    ensures
        r <==> b@.len() > 0 && comps(b@) == comps(a@).push(b@.last()@),
{
    if b.len() == 0 || b.len() - 1 != a.len() {
        proof {
            if b@.len() > 0 && comps(b@) == comps(a@).push(b@.last()@) {
                assert(comps(b@).len() == comps(a@).len() + 1);
            }
        }
        return false;
    }
    let mut i: usize = 0;
    while i < a.len()
        invariant
            b@.len() == a@.len() + 1,
            i <= a.len(),
            forall|j: int| 0 <= j < i ==> a@[j]@ == b@[j]@,
        decreases a.len() - i,
    {
        if a[i] != b[i] {
            proof {
                assert(comps(a@)[i as int] == a@[i as int]@);
                if comps(b@) == comps(a@).push(b@.last()@) {
                    assert(comps(b@)[i as int] == b@[i as int]@);
                }
            }
            return false;
        }
        i = i + 1;
    }
    proof {
        assert(comps(b@) =~= comps(a@).push(b@.last()@));
    }
    true
}

/// `a` is a leading part of `b`.
fn starts_with(b: &Vec<String>, a: &Vec<String>) -> (r: bool)
    ensures
        r <==> a@.len() <= b@.len() && comps(b@).subrange(0, a@.len() as int) == comps(a@),
{
    if a.len() > b.len() {
        return false;
    }
    let mut i: usize = 0;
    while i < a.len()
        invariant
            a@.len() <= b@.len(),
            i <= a.len(),
            forall|j: int| 0 <= j < i ==> a@[j]@ == b@[j]@,
        decreases a.len() - i,
    {
        if a[i] != b[i] {
            proof {
                if comps(b@).subrange(0, a@.len() as int) == comps(a@) {
                    assert(comps(b@).subrange(0, a@.len() as int)[i as int] == comps(a@)[i as int]);
                }
            }
            return false;
        }
        i = i + 1;
    }
    proof {
        assert(comps(b@).subrange(0, a@.len() as int) =~= comps(a@));
    }
    true
}

proof fn lemma_files_in_push(ds: Seq<Directory>, d: Directory)
    ensures
        files_in(ds.push(d)) == files_in(ds).add(file_paths(d)),
        dirs_in(ds.push(d)) == dirs_in(ds).add(dir_paths(d)),
        subdir_paths(ds.push(d)) == subdir_paths(ds).insert(comps(d.path@)),
{
    assert(ds.push(d).drop_last() =~= ds);
    assert(ds.push(d).map_values(|x: Directory| comps(x.path@)) =~= ds.map_values(
        |x: Directory| comps(x.path@),
    ).push(comps(d.path@)));
    vstd::seq_lib::to_multiset_build(ds.map_values(|x: Directory| comps(x.path@)), comps(d.path@));
}

proof fn lemma_leaf_insert(fs: Seq<File>, j: int, f: File)
    requires
        0 <= j <= fs.len(),
    ensures
        leaf_paths(fs.insert(j, f)) == leaf_paths(fs).insert(comps(f.path@)),
{
    let m = fs.map_values(|x: File| comps(x.path@));
    assert(fs.insert(j, f).map_values(|x: File| comps(x.path@)) =~= m.insert(j, comps(f.path@)));
    vstd::seq_lib::to_multiset_insert(m, j, comps(f.path@));
}

/// Putting `d` anywhere among `ds` adds its paths, wherever it goes.
proof fn lemma_dirs_insert(ds: Seq<Directory>, j: int, d: Directory)
    requires
        0 <= j <= ds.len(),
    ensures
        files_in(ds.insert(j, d)) == files_in(ds).add(file_paths(d)),
        dirs_in(ds.insert(j, d)) == dirs_in(ds).add(dir_paths(d)),
        subdir_paths(ds.insert(j, d)) == subdir_paths(ds).insert(comps(d.path@)),
    decreases ds.len(),
{
    let t = ds.insert(j, d);
    let m = ds.map_values(|x: Directory| comps(x.path@));
    assert(t.map_values(|x: Directory| comps(x.path@)) =~= m.insert(j, comps(d.path@)));
    vstd::seq_lib::to_multiset_insert(m, j, comps(d.path@));
    if j == ds.len() {
        assert(t =~= ds.push(d));
        lemma_files_in_push(ds, d);
    } else {
        assert(t.drop_last() =~= ds.drop_last().insert(j, d));
        assert(t.last() == ds.last());
        lemma_dirs_insert(ds.drop_last(), j, d);
        assert(files_in(t) =~= files_in(ds).add(file_paths(d)));
        assert(dirs_in(t) =~= dirs_in(ds).add(dir_paths(d)));
    }
}

/// Where `j` is just past the names not after `name`.
pub open spec fn file_slot_ok(fs: Seq<File>, name: Seq<char>, j: int) -> bool {
    &&& 0 <= j <= fs.len()
    &&& forall|k: int| 0 <= k < j ==> chars_le(#[trigger] fs[k].name@, name)
    &&& j < fs.len() ==> !chars_le(fs[j].name@, name)
}

pub open spec fn dir_slot_ok(ds: Seq<Directory>, name: Seq<char>, j: int) -> bool {
    &&& 0 <= j <= ds.len()
    &&& forall|k: int| 0 <= k < j ==> chars_le(#[trigger] ds[k].name@, name)
    &&& j < ds.len() ==> !chars_le(ds[j].name@, name)
}

fn file_slot(fs: &Vec<File>, name: &String) -> (j: usize)
    ensures
        file_slot_ok(fs@, name@, j as int),
{
    let mut j: usize = 0;
    while j < fs.len() && path_le(fs[j].name.as_str(), name.as_str())
        invariant
            j <= fs@.len(),
            forall|k: int| 0 <= k < j ==> chars_le(#[trigger] fs@[k].name@, name@),
        decreases fs@.len() - j,
    {
        j = j + 1;
    }
    j
}

fn dir_slot(ds: &Vec<Directory>, name: &String) -> (j: usize)
    ensures
        dir_slot_ok(ds@, name@, j as int),
{
    let mut j: usize = 0;
    while j < ds.len() && path_le(ds[j].name.as_str(), name.as_str())
        invariant
            j <= ds@.len(),
            forall|k: int| 0 <= k < j ==> chars_le(#[trigger] ds@[k].name@, name@),
        decreases ds@.len() - j,
    {
        j = j + 1;
    }
    j
}

proof fn lemma_files_sorted_insert(fs: Seq<File>, j: int, f: File)
    requires
        files_by_name(fs),
        file_slot_ok(fs, f.name@, j),
    ensures
        files_by_name(fs.insert(j, f)),
{
    let t = fs.insert(j, f);
    if j < fs.len() {
        lemma_chars_le_total(fs[j].name@, f.name@);
    }
    assert forall|i: int| 0 <= i < t.len() - 1 implies chars_le(#[trigger] t[i].name@, t[i + 1].name@) by {
        if i + 1 < j {
            assert(t[i] == fs[i] && t[i + 1] == fs[i + 1]);
        } else if i + 1 == j {
            assert(t[i] == fs[i]);
        } else if i == j {
            assert(t[i + 1] == fs[i]);
        } else {
            assert(t[i] == fs[i - 1] && t[i + 1] == fs[i]);
        }
    }
}

proof fn lemma_dirs_sorted_insert(ds: Seq<Directory>, j: int, d: Directory)
    requires
        dirs_by_name(ds),
        dir_slot_ok(ds, d.name@, j),
    ensures
        dirs_by_name(ds.insert(j, d)),
{
    let t = ds.insert(j, d);
    if j < ds.len() {
        lemma_chars_le_total(ds[j].name@, d.name@);
    }
    assert forall|i: int| 0 <= i < t.len() - 1 implies chars_le(#[trigger] t[i].name@, t[i + 1].name@) by {
        if i + 1 < j {
            assert(t[i] == ds[i] && t[i + 1] == ds[i + 1]);
        } else if i + 1 == j {
            assert(t[i] == ds[i]);
        } else if i == j {
            assert(t[i + 1] == ds[i]);
        } else {
            assert(t[i] == ds[i - 1] && t[i + 1] == ds[i]);
        }
    }
}

proof fn lemma_empty_paths(d: Directory)
    requires
        d.dirs@.len() == 0,
        d.files@.len() == 0,
    ensures
        file_paths(d) == Multiset::<Seq<Seq<char>>>::empty(),
        dir_paths(d) == Multiset::<Seq<Seq<char>>>::empty(),
{
    assert(d.files@.map_values(|x: File| comps(x.path@)) =~= Seq::<Seq<Seq<char>>>::empty());
    assert(d.dirs@.map_values(|x: Directory| comps(x.path@)) =~= Seq::<Seq<Seq<char>>>::empty());
    vstd::seq_lib::to_multiset_len(d.files@.map_values(|x: File| comps(x.path@)));
    vstd::seq_lib::to_multiset_len(d.dirs@.map_values(|x: Directory| comps(x.path@)));
    vstd::multiset::lemma_multiset_empty_len(leaf_paths(d.files@));
    vstd::multiset::lemma_multiset_empty_len(subdir_paths(d.dirs@));
    assert(file_paths(d) =~= Multiset::<Seq<Seq<char>>>::empty());
    assert(dir_paths(d) =~= Multiset::<Seq<Seq<char>>>::empty());
}

proof fn lemma_walk_paths_step(es: Seq<WalkEntry>, i: int, k: EntryKind)
    requires
        1 <= i < es.len(),
    ensures
        walk_paths(es.subrange(1, i + 1), k) == if es[i].kind == k {
            walk_paths(es.subrange(1, i), k).insert(comps(es[i].path@))
        } else {
            walk_paths(es.subrange(1, i), k)
        },
{
    assert(es.subrange(1, i + 1).drop_last() =~= es.subrange(1, i));
}

proof fn lemma_subdir_empty()
    ensures
        subdir_paths(Seq::<Directory>::empty()) == Multiset::<Seq<Seq<char>>>::empty(),
{
    let m = Seq::<Directory>::empty().map_values(|x: Directory| comps(x.path@));
    assert(m =~= Seq::<Seq<Seq<char>>>::empty());
    vstd::seq_lib::to_multiset_len(m);
    vstd::multiset::lemma_multiset_empty_len(subdir_paths(Seq::<Directory>::empty()));
}

/// Opening `next` above `cur` adds its path to the pending ones.
proof fn lemma_pending_push(stack: Seq<Directory>, cur: Directory, next: Directory)
    ensures
        pending(stack.push(cur), next) == pending(stack, cur).insert(comps(next.path@)),
{
    if stack.len() == 0 {
        assert(stack.push(cur).drop_first() =~= Seq::<Directory>::empty());
        lemma_subdir_empty();
        assert(pending(stack.push(cur), next) =~= pending(stack, cur).insert(comps(next.path@)));
    } else {
        assert(stack.push(cur).drop_first() =~= stack.drop_first().push(cur));
        lemma_files_in_push(stack.drop_first(), cur);
        assert(pending(stack.push(cur), next) =~= pending(stack, cur).insert(comps(next.path@)));
    }
}

/// Closing `cur` into `parent`, the directory under it on the stack: no path
/// is gained or lost.
proof fn lemma_close_totals(stack: Seq<Directory>, prev: Directory, cur: Directory, parent: Directory, j: int)
    requires
        parent.path == prev.path,
        parent.files == prev.files,
        0 <= j <= prev.dirs@.len(),
        parent.dirs@ == prev.dirs@.insert(j, cur),
    ensures
        files_in(stack).add(file_paths(parent)) == files_in(stack.push(prev)).add(file_paths(cur)),
        dirs_in(stack).add(dir_paths(parent)).add(pending(stack, parent)) == dirs_in(stack.push(prev)).add(
            dir_paths(cur),
        ).add(pending(stack.push(prev), cur)),
{
    lemma_files_in_push(stack, prev);
    lemma_dirs_insert(prev.dirs@, j, cur);
    lemma_pending_push(stack, prev, cur);
    assert(file_paths(parent) =~= file_paths(prev).add(file_paths(cur)));
    assert(dir_paths(parent) =~= dir_paths(prev).insert(comps(cur.path@)).add(dir_paths(cur)));
    assert(pending(stack, parent) == pending(stack, prev));
    assert(files_in(stack).add(file_paths(parent)) =~= files_in(stack.push(prev)).add(file_paths(cur)));
    assert(dirs_in(stack).add(dir_paths(parent)).add(pending(stack, parent)) =~= dirs_in(stack.push(prev)).add(
        dir_paths(cur),
    ).add(pending(stack.push(prev), cur)));
}

/// Hands the current directory to its parent on the stack, which becomes
/// current.
fn close_current(stack: &mut Vec<Directory>, cur: Directory) -> (parent: Directory)
    requires
        old(stack)@.len() > 0,
        open_chain(old(stack)@, cur),
    ensures
        final(stack)@ == old(stack)@.drop_last(),
        open_chain(final(stack)@, parent),
        parent.name == old(stack)@.last().name,
        parent.path == old(stack)@.last().path,
        files_in(final(stack)@).add(file_paths(parent)) == files_in(old(stack)@).add(file_paths(cur)),
        dirs_in(final(stack)@).add(dir_paths(parent)).add(pending(final(stack)@, parent)) == dirs_in(
            old(stack)@,
        ).add(dir_paths(cur)).add(pending(old(stack)@, cur)),
{
    let ghost s0 = stack@;
    let mut parent = stack.pop().unwrap();
    let ghost prev = parent;
    let j = dir_slot(&parent.dirs, &cur.name);
    parent.dirs.insert(j, cur);
    proof {
        assert(prev == s0[s0.len() - 1]);
        assert(s0 =~= stack@.push(prev));
        lemma_close_totals(stack@, prev, cur, parent, j as int);
        assert(wf_dir(s0[s0.len() - 1]));
        lemma_dirs_sorted_insert(prev.dirs@, j as int, cur);
        assert forall|i: int| 0 <= i < parent.dirs@.len() implies extends(
            parent.path@,
            #[trigger] parent.dirs@[i].path@,
            parent.dirs@[i].name,
        ) && wf_dir(parent.dirs@[i]) by {
            if i < j {
                assert(parent.dirs@[i] == prev.dirs@[i]);
            } else if i > j {
                assert(parent.dirs@[i] == prev.dirs@[i - 1]);
            }
        }
        assert(wf_dir(parent));
        assert forall|i: int| 0 <= i < stack@.len() implies wf_dir(#[trigger] stack@[i]) by {
            assert(stack@[i] == s0[i]);
        }
        assert forall|i: int| 0 < i < stack@.len() implies extends(
            stack@[i - 1].path@,
            #[trigger] stack@[i].path@,
            stack@[i].name,
        ) by {
            assert(stack@[i] == s0[i]);
            assert(stack@[i - 1] == s0[i - 1]);
        }
        if stack@.len() > 0 {
            assert(stack@.last() == s0[s0.len() - 2]);
            assert(extends(s0[s0.len() - 2].path@, s0[s0.len() - 1].path@, s0[s0.len() - 1].name));
        }
    }
    parent
}

/// After the directories that entry `i` is not inside of are closed, the
/// check that it lies directly inside the current one holds exactly when the
/// entry is placed.
proof fn lemma_placed_iff(
    es: Seq<WalkEntry>,
    i: int,
    stack: Seq<Directory>,
    cur: Directory,
    ch: Seq<int>,
    ch0: Seq<int>,
    ok: bool,
)
    requires
        1 <= i < es.len(),
        open_chain(stack, cur),
        ch.len() == stack.len() + 1,
        ch.len() <= ch0.len(),
        ch == ch0.subrange(0, ch.len() as int),
        ch0[0] == 0,
        forall|k: int| 0 <= k < ch0.len() ==> 0 <= #[trigger] ch0[k] < i,
        forall|k: int| 0 <= k < ch.len() ==> open_path(stack, cur, k) == es[#[trigger] ch[k]].path@,
        forall|k: int| ch.len() <= k < ch0.len() ==> !prefix_of(es[#[trigger] ch0[k]].path@, es[i].path@),
        forall|j: int| 0 <= j < i ==> (open_at(es, j, i) <==> ch0.contains(j)),
        prefix_of(cur.path@, es[i].path@) || stack.len() == 0,
        ok <==> es[i].path@.len() > 0 && comps(es[i].path@) == comps(cur.path@).push(es[i].path@.last()@),
    ensures
        ok <==> placed(es, i),
        ok ==> forall|k: int| 0 <= k < ch.len() ==> prefix_of(es[#[trigger] ch[k]].path@, es[i].path@),
{
    let e = es[i].path@;
    let n = ch.len() as int;
    let cj = ch[n - 1];
    assert(open_path(stack, cur, n - 1) == cur.path@);
    assert(ch0[n - 1] == cj);
    assert(ch0.contains(cj));
    assert(open_at(es, cj, i));
    assert(comps(e).len() == e.len());
    if ok {
        lemma_extends_prefix(cur.path@, e, e.last());
        assert(0 <= cj < i && open_at(es, cj, i) && es[i].path@.len() > 0 && comps(es[i].path@)
            == comps(es[cj].path@).push(es[i].path@.last()@));
        assert forall|j: int| 0 <= j < i && open_at(es, j, i) implies comps(#[trigger] es[j].path@)
            != comps(es[i].path@) by {
            if comps(es[j].path@) == comps(e) {
                assert(ch0.contains(j));
                let k0 = choose|k0: int| 0 <= k0 < ch0.len() && ch0[k0] == j;
                assert(comps(es[j].path@).len() == es[j].path@.len());
                if k0 >= n {
                    assert(comps(e).subrange(0, e.len() as int) =~= comps(e));
                    assert(prefix_of(es[j].path@, e));
                } else {
                    assert(ch[k0] == j);
                    lemma_chain_nested(stack, cur, k0, n - 1);
                }
            }
        }
        assert forall|k: int| 0 <= k < ch.len() implies prefix_of(es[#[trigger] ch[k]].path@, es[i].path@) by {
            lemma_chain_nested(stack, cur, k, n - 1);
            lemma_prefix_trans(es[ch[k]].path@, cur.path@, e);
        }
    } else {
        if placed(es, i) {
            let j = choose|j: int|
                0 <= j < i && open_at(es, j, i) && #[trigger] es[i].path@.len() > 0 && comps(es[i].path@)
                    == comps(es[j].path@).push(es[i].path@.last()@);
            lemma_extends_prefix(es[j].path@, e, e.last());
            assert(ch0.contains(j));
            let k0 = choose|k0: int| 0 <= k0 < ch0.len() && ch0[k0] == j;
            assert(k0 < n);
            assert(ch[k0] == j);
            lemma_chain_nested(stack, cur, k0, n - 1);
            if stack.len() == 0 {
                assert(k0 == 0 && j == cj);
            } else {
                let cp = cur.path@;
                assert(comps(cp).len() == cp.len());
                if cp.len() + 1 == e.len() {
                    lemma_prefix_common(es[j].path@, cp, e);
                    assert(comps(cp) =~= comps(es[j].path@)) by {
                        assert(comps(cp).subrange(0, es[j].path@.len() as int) =~= comps(cp));
                    }
                } else {
                    assert(cp.len() == e.len());
                    assert(comps(cp) =~= comps(e)) by {
                        assert(comps(e).subrange(0, cp.len() as int) =~= comps(e));
                    }
                    assert(comps(es[cj].path@) != comps(es[i].path@));
                }
            }
        }
    }
}

/// Once entry `i` is placed, the open directories before the next entry are
/// those still open that hold it, and the entry itself where it is a
/// directory.
proof fn lemma_chain_advances(es: Seq<WalkEntry>, i: int, ch: Seq<int>, ch0: Seq<int>, ch1: Seq<int>)
    requires
        1 <= i < es.len(),
        1 <= ch.len() <= ch0.len(),
        ch == ch0.subrange(0, ch.len() as int),
        ch0[0] == 0,
        forall|k: int| 0 <= k < ch0.len() ==> 0 <= #[trigger] ch0[k] < i,
        forall|k: int| ch.len() <= k < ch0.len() ==> !prefix_of(es[#[trigger] ch0[k]].path@, es[i].path@),
        forall|k: int| 0 <= k < ch.len() ==> prefix_of(es[#[trigger] ch[k]].path@, es[i].path@),
        forall|j: int| 0 <= j < i ==> (open_at(es, j, i) <==> ch0.contains(j)),
        es[i].kind == EntryKind::Dir ==> ch1 == ch.push(i),
        es[i].kind != EntryKind::Dir ==> ch1 == ch,
    ensures
        ch1[0] == 0,
        forall|k: int| 0 <= k < ch1.len() ==> 0 <= #[trigger] ch1[k] < i + 1,
        forall|j: int| 0 <= j < i + 1 ==> (open_at(es, j, i + 1) <==> ch1.contains(j)),
{
    assert(ch[0] == 0);
    assert forall|k: int| 0 <= k < ch1.len() implies 0 <= #[trigger] ch1[k] < i + 1 by {
        if k < ch.len() {
            assert(ch1[k] == ch[k] && ch[k] == ch0[k]);
        }
    }
    assert forall|j: int| 0 <= j < i + 1 implies (open_at(es, j, i + 1) <==> ch1.contains(j)) by {
        if j == i {
            if es[i].kind == EntryKind::Dir {
                assert(ch1[ch.len() as int] == i);
            } else {
                if ch1.contains(j) {
                    let k = choose|k: int| 0 <= k < ch1.len() && ch1[k] == j;
                    assert(ch[k] == ch0[k]);
                }
            }
        } else if j == 0 {
            assert(ch1[0] == 0);
        } else {
            if open_at(es, j, i + 1) {
                assert(open_at(es, j, i));
                assert(prefix_of(es[j].path@, es[i].path@));
                assert(ch0.contains(j));
                let k0 = choose|k0: int| 0 <= k0 < ch0.len() && ch0[k0] == j;
                assert(k0 < ch.len());
                assert(ch1[k0] == j);
            }
            if ch1.contains(j) {
                let k = choose|k: int| 0 <= k < ch1.len() && ch1[k] == j;
                assert(k < ch.len());
                assert(ch[k] == j && ch0[k] == j);
                assert(ch0.contains(j));
                assert(prefix_of(es[j].path@, es[i].path@));
                assert forall|m: int| j < m < i + 1 implies prefix_of(es[j].path@, #[trigger] es[m].path@) by {
                    if m < i {
                        assert(open_at(es, j, i));
                    }
                }
            }
        }
    }
}

/// Rebuilds the tree of a depth-first walk whose first entry is its root.
///
/// Each entry after the first closes the open directories that it is not
/// inside of, then must lie directly inside the current one: a file joins its
/// files, a directory opens below it and joins its subdirectories when it is
/// closed, each in order of names. At the end the open directories are closed
/// down to the root, which is named `/`. A walk that is not depth-first gives
/// `OutOfOrder`.
pub fn walk_dir(entries: &Vec<WalkEntry>) -> (r: Result<Directory, TreeError>)
    ensures
        r is Ok <==> depth_first(entries@),
        match r {
            Ok(root) => {
                &&& root.name@ == root_name()
                &&& entries@.len() > 0 ==> root.path@ == entries@[0].path@
                &&& entries@.len() == 0 ==> root.path@.len() == 0
                &&& wf_dir(root)
                &&& file_paths(root) == walk_paths(below_root(entries@), EntryKind::File)
                &&& dir_paths(root) == walk_paths(below_root(entries@), EntryKind::Dir)
            },
            Err(x) => x == TreeError::OutOfOrder,
        },
{
    proof {
        reveal_strlit("/");
    }
    let root_path = if entries.len() > 0 {
        copy_path(&entries[0].path)
    } else {
        Vec::new()
    };
    let mut cur = Directory::new(String::from_str("/"), root_path);
    if entries.len() == 0 {
        proof {
            lemma_empty_paths(cur);
        }
        return Ok(cur);
    }
    let mut stack: Vec<Directory> = Vec::new();
    let ghost root = cur;
    let ghost mut ch: Seq<int> = seq![0int];
    proof {
        lemma_empty_paths(cur);
        assert(entries@.subrange(1, 1) =~= Seq::<WalkEntry>::empty());
        assert(files_in(stack@).add(file_paths(cur)) =~= Multiset::empty());
        assert(dirs_in(stack@).add(dir_paths(cur)).add(pending(stack@, cur)) =~= Multiset::empty());
        assert forall|j: int| 0 <= j < 1 implies (open_at(entries@, j, 1) <==> ch.contains(j)) by {
            assert(ch[0] == 0);
        }
    }
    let mut i: usize = 1;
    while i < entries.len()
        invariant
            1 <= i <= entries.len(),
            open_chain(stack@, cur),
            chain_matches(entries@, i as int, stack@, cur, ch),
            forall|k: int| 1 <= k < i ==> #[trigger] placed(entries@, k),
            stack@.len() > 0 ==> stack@[0].name == root.name && stack@[0].path == root.path,
            stack@.len() == 0 ==> cur.name == root.name && cur.path == root.path,
            root.name@ == root_name(),
            root.path@ == entries@[0].path@,
            files_in(stack@).add(file_paths(cur)) == walk_paths(entries@.subrange(1, i as int), EntryKind::File),
            dirs_in(stack@).add(dir_paths(cur)).add(pending(stack@, cur)) == walk_paths(
                entries@.subrange(1, i as int),
                EntryKind::Dir,
            ),
        decreases entries.len() - i,
    {
        let e = &entries[i];
        let ghost ch0 = ch;
        while !starts_with(&e.path, &cur.path) && stack.len() > 0
            invariant
                open_chain(stack@, cur),
                ch.len() == stack@.len() + 1,
                ch.len() <= ch0.len(),
                ch == ch0.subrange(0, ch.len() as int),
                ch0[0] == 0,
                forall|k: int| 0 <= k < ch0.len() ==> 0 <= #[trigger] ch0[k] < i,
                forall|j: int| 0 <= j < i ==> (open_at(entries@, j, i as int) <==> ch0.contains(j)),
                forall|k: int| 0 <= k < ch.len() ==> open_path(stack@, cur, k) == entries@[#[trigger] ch[k]].path@,
                forall|k: int|
                    ch.len() <= k < ch0.len() ==> !prefix_of(entries@[#[trigger] ch0[k]].path@, e.path@),
                e == entries@[i as int],
                stack@.len() > 0 ==> stack@[0].name == root.name && stack@[0].path == root.path,
                stack@.len() == 0 ==> cur.name == root.name && cur.path == root.path,
                files_in(stack@).add(file_paths(cur)) == walk_paths(
                    entries@.subrange(1, i as int),
                    EntryKind::File,
                ),
                dirs_in(stack@).add(dir_paths(cur)).add(pending(stack@, cur)) == walk_paths(
                    entries@.subrange(1, i as int),
                    EntryKind::Dir,
                ),
            decreases stack@.len(),
        {
            let ghost n = ch.len();
            proof {
                assert(open_path(stack@, cur, n - 1) == cur.path@);
                assert(entries@[ch[n - 1]].path@ == cur.path@);
            }
            cur = close_current(&mut stack, cur);
            proof {
                ch = ch.drop_last();
                assert forall|k: int| 0 <= k < ch.len() implies open_path(stack@, cur, k) == entries@[
                    #[trigger] ch[k]].path@ by {
                    assert(ch[k] == ch0[k]);
                }
            }
        }
        let ok = one_below(&cur.path, &e.path);
        proof {
            lemma_placed_iff(entries@, i as int, stack@, cur, ch, ch0, ok);
        }
        if !ok {
            return Err(TreeError::OutOfOrder);
        }
        proof {
            lemma_walk_paths_step(entries@, i as int, EntryKind::File);
            lemma_walk_paths_step(entries@, i as int, EntryKind::Dir);
        }
        let name = e.path[e.path.len() - 1].clone();
        let ghost chain_before = ch;
        match e.kind {
            EntryKind::File => {
                let ghost c0 = cur;
                let slot = file_slot(&cur.files, &name);
                let f = File::new(name, copy_path(&e.path));
                let ghost fv = f;
                cur.files.insert(slot, f);
                proof {
                    lemma_files_sorted_insert(c0.files@, slot as int, fv);
                    assert forall|j: int| 0 <= j < cur.files@.len() implies extends(
                        cur.path@,
                        #[trigger] cur.files@[j].path@,
                        cur.files@[j].name,
                    ) by {
                        if j < slot {
                            assert(cur.files@[j] == c0.files@[j]);
                        } else if j > slot {
                            assert(cur.files@[j] == c0.files@[j - 1]);
                        }
                    }
                    assert(cur.dirs == c0.dirs);
                    lemma_leaf_insert(c0.files@, slot as int, fv);
                    assert(file_paths(cur) =~= file_paths(c0).insert(comps(entries@[i as int].path@)));
                    assert(dir_paths(cur) == dir_paths(c0));
                    assert(pending(stack@, cur) == pending(stack@, c0));
                    assert(wf_dir(cur));
                    assert(open_chain(stack@, cur));
                    assert forall|k: int| 0 <= k < ch.len() implies open_path(stack@, cur, k)
                        == entries@[#[trigger] ch[k]].path@ by {
                        assert(open_path(stack@, c0, k) == entries@[ch[k]].path@);
                    }
                }
            },
            EntryKind::Dir => {
                let ghost s0 = stack@;
                let ghost c0 = cur;
                let path = copy_path(&e.path);
                let next = Directory::new(name, path);
                proof {
                    lemma_empty_paths(next);
                    lemma_files_in_push(stack@, cur);
                    lemma_pending_push(stack@, cur, next);
                }
                stack.push(cur);
                cur = next;
                proof {
                    ch = ch.push(i as int);
                    assert forall|j: int| 0 <= j < stack@.len() implies wf_dir(#[trigger] stack@[j]) by {
                        if j < s0.len() {
                            assert(stack@[j] == s0[j]);
                        }
                    }
                    assert forall|j: int| 0 < j < stack@.len() implies extends(
                        stack@[j - 1].path@,
                        #[trigger] stack@[j].path@,
                        stack@[j].name,
                    ) by {
                        if j < s0.len() {
                            assert(stack@[j] == s0[j]);
                            assert(stack@[j - 1] == s0[j - 1]);
                        } else {
                            assert(stack@[j] == c0);
                            assert(stack@[j - 1] == s0.last());
                        }
                    }
                    if s0.len() > 0 {
                        assert(stack@[0] == s0[0]);
                    }
                    assert(wf_dir(cur));
                    assert(extends(stack@.last().path@, cur.path@, cur.name));
                    assert(open_chain(stack@, cur));
                    assert forall|k: int| 0 <= k < ch.len() implies open_path(stack@, cur, k)
                        == entries@[#[trigger] ch[k]].path@ by {
                        if k < s0.len() {
                            assert(stack@[k] == s0[k]);
                            assert(open_path(s0, c0, k) == entries@[chain_before[k]].path@);
                        } else if k == s0.len() {
                            assert(stack@[k] == c0);
                            assert(open_path(s0, c0, k) == entries@[chain_before[k]].path@);
                        }
                    }
                }
            },
            EntryKind::Other => {},
        }
        proof {
            lemma_chain_advances(entries@, i as int, chain_before, ch0, ch);
            assert(placed(entries@, i as int));
        }
        i = i + 1;
    }
    while stack.len() > 0
        invariant
            open_chain(stack@, cur),
            stack@.len() > 0 ==> stack@[0].name == root.name && stack@[0].path == root.path,
            stack@.len() == 0 ==> cur.name == root.name && cur.path == root.path,
            files_in(stack@).add(file_paths(cur)) == walk_paths(
                entries@.subrange(1, entries@.len() as int),
                EntryKind::File,
            ),
            dirs_in(stack@).add(dir_paths(cur)).add(pending(stack@, cur)) == walk_paths(
                entries@.subrange(1, entries@.len() as int),
                EntryKind::Dir,
            ),
        decreases stack@.len(),
    {
        cur = close_current(&mut stack, cur);
    }
    Ok(cur)
}

/// The components of a path joined by `/`.
pub open spec fn joined(cs: Seq<Seq<char>>) -> Seq<char>
    decreases cs.len(),
{
    if cs.len() == 0 {
        Seq::empty()
    } else if cs.len() == 1 {
        cs[0]
    } else {
        joined(cs.drop_last()) + seq!['/'] + cs.last()
    }
}

/// A path as text: its components joined by `/`, led by `/` where it is
/// taken from the site's root, and ended by `/` where it names a directory.
pub open spec fn path_text(cs: Seq<Seq<char>>, is_dir: bool, absolute: bool) -> Seq<char> {
    (if absolute {
        seq!['/']
    } else {
        Seq::empty()
    }) + joined(cs) + (if is_dir && cs.len() > 0 {
        seq!['/']
    } else {
        Seq::empty()
    })
}

/// Writes a path of the tree as text.
pub fn format_path(path: &Vec<String>, is_dir: bool, absolute: bool) -> (r: String)
    ensures
        r@ == path_text(comps(path@), is_dir, absolute),
{
    proof {
        reveal_strlit("/");
        reveal_strlit("");
    }
    let mut out = if absolute {
        String::from_str("/")
    } else {
        String::from_str("")
    };
    let ghost lead = out@;
    let mut i: usize = 0;
    while i < path.len()
        invariant
            i <= path@.len(),
            out@ == lead + joined(comps(path@.subrange(0, i as int))),
        decreases path.len() - i,
    {
        let ghost prev = out@;
        let ghost cs = comps(path@.subrange(0, i + 1));
        proof {
            assert(cs.drop_last() =~= comps(path@.subrange(0, i as int)));
            assert(cs.last() == path@[i as int]@);
            assert(cs.len() == i + 1);
        }
        if i > 0 {
            proof {
                reveal_strlit("/");
            }
            out.append("/");
            proof {
                assert(out@ == prev + seq!['/']);
            }
        }
        let ghost mid = out@;
        out.append(path[i].as_str());
        proof {
            if i == 0 {
                assert(comps(path@.subrange(0, 0)).len() == 0);
                assert(joined(comps(path@.subrange(0, 0))) =~= Seq::<char>::empty());
                assert(prev =~= lead);
                assert(out@ == prev + path@[0]@);
                assert(cs[0] == path@[0]@);
                assert(joined(cs) == cs[0]);
                assert(out@ =~= lead + joined(cs));
            } else {
                assert(joined(cs) == joined(cs.drop_last()) + seq!['/'] + cs.last());
                assert(out@ == mid + path@[i as int]@);
                assert(out@ =~= lead + joined(cs));
            }
        }
        i = i + 1;
    }
    if is_dir && path.len() > 0 {
        out.append("/");
    }
    proof {
        assert(path@.subrange(0, path@.len() as int) =~= path@);
        assert(out@ =~= path_text(comps(path@), is_dir, absolute));
    }
    out
}

impl Directory {
    /// An empty directory with this name and path.
    pub fn new(name: String, path: Vec<String>) -> (r: Directory)
        ensures
            r.name == name,
            r.path == path,
            r.dirs@.len() == 0,
            r.files@.len() == 0,
    {
        Directory { name, path, dirs: Vec::new(), files: Vec::new() }
    }
}

impl File {
    pub fn new(name: String, path: Vec<String>) -> (r: File)
        ensures
            r.name == name,
            r.path == path,
    {
        File { name, path }
    }
}

} // verus!
