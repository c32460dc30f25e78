//! The flat listing of one directory: tagged entries, their paths made
//! relative to the directory, in a fixed order.
use vstd::prelude::*;
use vstd::string::*;

verus! {

broadcast use vstd::seq_lib::to_multiset_insert;

/// One entry of a listing, tagged with what it is. Directory paths end in `/`.
#[derive(PartialEq, Eq, PartialOrd, Ord, Debug, Clone)]
pub enum Entry {
    Dir(String),
    File(String),
    Link(String),
    Other(String),
}

impl Entry {
    /// Directories first, then files, links and the rest.
    pub open spec fn rank(&self) -> nat {
        match self {
            Entry::Dir(_) => 0,
            Entry::File(_) => 1,
            Entry::Link(_) => 2,
            Entry::Other(_) => 3,
        }
    }

    pub open spec fn spec_path(&self) -> Seq<char> {
        match self {
            Entry::Dir(p) => p@,
            Entry::File(p) => p@,
            Entry::Link(p) => p@,
            Entry::Other(p) => p@,
        }
    }

    fn path(&self) -> (r: &String)
        ensures
            r@ == self.spec_path(),
    {
        match self {
            Entry::Dir(p) => p,
            Entry::File(p) => p,
            Entry::Link(p) => p,
            Entry::Other(p) => p,
        }
    }

    /// The same entry with `base` taken off the front of its path, or none
    /// where the path does not start with `base`.
    pub fn strip_prefix(self, base: &str) -> (r: Option<Entry>)
        ensures
            match r {
                Some(e) => starts_with(self.spec_path(), base@) && e.rank() == self.rank()
                    && e.spec_path() == self.spec_path().subrange(
                    base@.len() as int,
                    self.spec_path().len() as int,
                ),
                None => !starts_with(self.spec_path(), base@),
            },
    {
        let rest = match strip_str(self.path().as_str(), base) {
            None => return None,
            Some(rest) => rest,
        };
        Some(
            match self {
                Entry::Dir(_) => Entry::Dir(rest),
                Entry::File(_) => Entry::File(rest),
                Entry::Link(_) => Entry::Link(rest),
                Entry::Other(_) => Entry::Other(rest),
            },
        )
    }
}

pub open spec fn starts_with(p: Seq<char>, base: Seq<char>) -> bool {
    base.len() <= p.len() && p.subrange(0, base.len() as int) == base
}

/// Character-wise order of two paths, a path before any longer one that
/// continues it.
pub open spec fn chars_le(a: Seq<char>, b: Seq<char>) -> bool
    decreases a.len(),
{
    if a.len() == 0 {
        true
    } else if b.len() == 0 {
        false
    } else if a[0] != b[0] {
        a[0] < b[0]
    } else {
        chars_le(a.drop_first(), b.drop_first())
    }
}

/// The order of a listing: by kind, then by path.
pub open spec fn entry_le(a: Entry, b: Entry) -> bool {
    a.rank() < b.rank() || (a.rank() == b.rank() && chars_le(a.spec_path(), b.spec_path()))
}

pub open spec fn sorted(s: Seq<Entry>) -> bool {
    forall|i: int| 0 <= i < s.len() - 1 ==> entry_le(#[trigger] s[i], s[i + 1])
}

/// The entries of `s` that start with `base`, in order, with `base` taken off.
pub open spec fn stripped(s: Seq<Entry>, base: Seq<char>) -> Seq<(nat, Seq<char>)>
    decreases s.len(),
{
    if s.len() == 0 {
        Seq::empty()
    } else {
        let e = s[0];
        let rest = stripped(s.drop_first(), base);
        if starts_with(e.spec_path(), base) {
            seq![(e.rank(), e.spec_path().subrange(base.len() as int, e.spec_path().len() as int))]
                + rest
        } else {
            rest
        }
    }
}

pub open spec fn entry_view(e: Entry) -> (nat, Seq<char>) {
    (e.rank(), e.spec_path())
}

pub proof fn lemma_chars_le_total(a: Seq<char>, b: Seq<char>)
    ensures
        chars_le(a, b) || chars_le(b, a),
    decreases a.len(),
{
    if a.len() > 0 && b.len() > 0 {
        if a[0] == b[0] {
            lemma_chars_le_total(a.drop_first(), b.drop_first());
        }
    }
}

fn strip_str(p: &str, base: &str) -> (r: Option<String>)
    ensures
        match r {
            Some(s) => starts_with(p@, base@) && s@ == p@.subrange(base@.len() as int, p@.len() as int),
            None => !starts_with(p@, base@),
        },
{
    let n = p.unicode_len();
    let k = base.unicode_len();
    if k > n {
        return None;
    }
    let mut i: usize = 0;
    while i < k
        invariant
            k == base@.len() <= n == p@.len(),
            i <= k,
            forall|j: int| 0 <= j < i ==> p@[j] == base@[j],
        decreases k - i,
    {
        if p.get_char(i) != base.get_char(i) {
            proof {
                if starts_with(p@, base@) {
                    assert(p@.subrange(0, k as int)[i as int] == p@[i as int]);
                }
            }
            return None;
        }
        i = i + 1;
    }
    proof {
        assert(p@.subrange(0, k as int) =~= base@);
    }
    Some(String::from_str(p.substring_char(k, n)))
}

pub fn path_le(a: &str, b: &str) -> (r: bool)
    ensures
        r == chars_le(a@, b@),
{
    let n = a.unicode_len();
    let m = b.unicode_len();
    let mut i: usize = 0;
    proof {
        assert(a@.subrange(0, n as int) =~= a@);
        assert(b@.subrange(0, m as int) =~= b@);
    }
    while i < n && i < m && a.get_char(i) == b.get_char(i)
        invariant
            n == a@.len(),
            m == b@.len(),
            i <= n,
            i <= m,
            chars_le(a@, b@) == chars_le(a@.subrange(i as int, n as int), b@.subrange(i as int, m as int)),
        decreases n - i,
    {
        proof {
            assert(a@.subrange(i as int, n as int).drop_first() =~= a@.subrange(i + 1, n as int));
            assert(b@.subrange(i as int, m as int).drop_first() =~= b@.subrange(i + 1, m as int));
        }
        i = i + 1;
    }
    if i == n {
        return true;
    }
    if i == m {
        return false;
    }
    let x = a.get_char(i);
    let y = b.get_char(i);
    proof {
        assert(a@.subrange(i as int, n as int)[0] == x);
        assert(b@.subrange(i as int, m as int)[0] == y);
    }
    x < y
}

fn entry_le_exec(a: &Entry, b: &Entry) -> (r: bool)
    ensures
        r == entry_le(*a, *b),
{
    let ra = rank_of(a);
    let rb = rank_of(b);
    if ra != rb {
        return ra < rb;
    }
    path_le(a.path().as_str(), b.path().as_str())
}

fn rank_of(e: &Entry) -> (r: u8)
    ensures
        r as nat == e.rank(),
{
    match e {
        Entry::Dir(_) => 0,
        Entry::File(_) => 1,
        Entry::Link(_) => 2,
        Entry::Other(_) => 3,
    }
}

/// Puts `e` into the sorted `out` after every entry that is not after it.
fn insert_sorted(out: &mut Vec<Entry>, e: Entry) -> (j: usize)
    requires
        sorted(old(out)@),
    ensures
        sorted(final(out)@),
        j <= old(out)@.len(),
        final(out)@ == old(out)@.insert(j as int, e),
{
    let mut j: usize = 0;
    while j < out.len() && entry_le_exec(&out[j], &e)
        invariant
            j <= out@.len(),
            out@ == old(out)@,
            forall|k: int| 0 <= k < j ==> entry_le(#[trigger] out@[k], e),
        decreases out@.len() - j,
    {
        j = j + 1;
    }
    let ghost before = out@;
    if j < out.len() {
        proof {
            lemma_entry_le_total(before[j as int], e);
        }
    }
    out.insert(j, e);
    proof {
        assert forall|i: int| 0 <= i < out@.len() - 1 implies entry_le(#[trigger] out@[i], out@[i + 1]) by {
            if i + 1 < j {
                assert(out@[i] == before[i] && out@[i + 1] == before[i + 1]);
            } else if i + 1 == j {
                assert(out@[i] == before[i]);
            } else if i == j {
                assert(out@[i + 1] == before[i]);
            } else {
                assert(out@[i] == before[i - 1] && out@[i + 1] == before[i]);
            }
        }
    }
    j
}

proof fn lemma_entry_le_total(a: Entry, b: Entry)
    ensures
        entry_le(a, b) || entry_le(b, a),
{
    lemma_chars_le_total(a.spec_path(), b.spec_path());
}

/// The listing of the directory at `base`, from its raw entries: each path
/// with `base` taken off its front (an entry whose path does not start with
/// `base` is left out), ordered by kind and then by path.
pub fn read_contents(base: &str, entries: Vec<Entry>) -> (r: Vec<Entry>)
    ensures
        sorted(r@),
        r@.map_values(|e: Entry| entry_view(e)).to_multiset() == stripped(entries@, base@).to_multiset(),
{
    let ghost all = entries@;
    let mut entries = entries;
    let mut out: Vec<Entry> = Vec::new();
    proof {
        assert(all.subrange(all.len() as int, all.len() as int) =~= Seq::<Entry>::empty());
        assert(out@.map_values(|e: Entry| entry_view(e)) =~= Seq::<(nat, Seq<char>)>::empty());
    }
    while entries.len() > 0
        invariant
            entries@.len() <= all.len(),
            entries@ == all.subrange(0, entries@.len() as int),
            sorted(out@),
            out@.map_values(|e: Entry| entry_view(e)).to_multiset() == stripped(
                all.subrange(entries@.len() as int, all.len() as int),
                base@,
            ).to_multiset(),
        decreases entries@.len(),
    {
        let ghost n = entries@.len() as int;
        let e = entries.pop().unwrap();
        proof {
            assert(e == all[n - 1]);
            assert(all.subrange(n - 1, all.len() as int).drop_first() =~= all.subrange(n, all.len() as int));
            assert(all.subrange(n - 1, all.len() as int)[0] == e);
        }
        let ghost before = out@;
        if let Some(s) = e.strip_prefix(base) {
            let j = insert_sorted(&mut out, s);
            proof {
                let mb = before.map_values(|e: Entry| entry_view(e));
                let rest = stripped(all.subrange(n, all.len() as int), base@);
                assert(out@.map_values(|e: Entry| entry_view(e)) =~= mb.insert(j as int, entry_view(s)));
                assert(rest.insert(0, entry_view(s)) =~= seq![entry_view(s)] + rest);
            }
        }
    }
    proof {
        assert(all.subrange(0, all.len() as int) =~= all);
    }
    out
}

} // verus!
