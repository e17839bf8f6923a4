use vstd::prelude::*;
use crate::pattern::{lemma_directory_pattern_selects, raw_anchored, raw_segments, Pattern};
use crate::text::{chars_of, seqs_of};

verus! {

/// The kind of object a tree entry names.
#[derive(Debug, Clone, Copy, PartialEq, Eq, Structural)]
pub enum EntryKind {
    Blob,
    Tree,
    /// A submodule's commit.
    Commit,
}

/// One entry of a tree object, as read from the object store.
#[derive(Debug, Clone)]
pub struct TreeEntry {
    pub name: String,
    pub mode: u32,
    pub kind: EntryKind,
    /// The id of the object the entry names.
    pub oid: String,
    /// For a `Tree` entry: the index of its contents in the store.
    pub subtree: usize,
}

/// A snapshot of tree objects: `trees[i]` holds the entries of tree `i`.
/// A `Tree` entry of tree `i` points to a tree of higher index, so the trees
/// reachable from any one of them form no cycle.
#[derive(Debug, Clone)]
pub struct TreeStore {
    pub trees: Vec<Vec<TreeEntry>>,
}

/// The entry `k` of tree `t`.
pub open spec fn entry_at(st: TreeStore, t: int, k: int) -> TreeEntry {
    st.trees@[t]@[k]
}

impl TreeStore {
    /// Every subtree index points past its parent and into the store.
    pub open spec fn wf(&self) -> bool {
        forall|t: int, k: int|
            0 <= t < self.trees@.len() && 0 <= k < self.trees@[t]@.len() && (#[trigger] entry_at(
                *self,
                t,
                k,
            )).kind == EntryKind::Tree ==> t < entry_at(*self, t, k).subtree < self.trees@.len()
    }
}

/// Some pattern of `ps` matches `path`.
pub open spec fn any_matches(ps: Seq<Pattern>, path: Seq<Seq<char>>) -> bool {
    exists|i: int| 0 <= i < ps.len() && #[trigger] ps[i].matches_path(path)
}

/// Some pattern of `ps` selects the directory at `path` whole.
pub open spec fn any_selects(ps: Seq<Pattern>, path: Seq<Seq<char>>) -> bool {
    exists|i: int| 0 <= i < ps.len() && #[trigger] ps[i].selects_subtree(path)
}

/// Every pattern of `ps` is well formed.
pub open spec fn patterns_wf(ps: Seq<Pattern>) -> bool {
    forall|i: int| 0 <= i < ps.len() ==> (#[trigger] ps[i]).wf()
}

/// An entry of a filtered tree, as values.
pub enum FilteredNode {
    /// An entry taken over with its original object id.
    Kept { name: Seq<char>, mode: u32, kind: EntryKind, oid: Seq<char> },
    /// A directory written anew with the entries that remain of it.
    Rebuilt { name: Seq<char>, mode: u32, entries: Seq<FilteredNode> },
}

/// An entry taken over unchanged.
pub open spec fn kept_node(e: TreeEntry) -> FilteredNode {
    FilteredNode::Kept { name: e.name@, mode: e.mode, kind: e.kind, oid: e.oid@ }
}

/// The filtered entries of the first `n` entries of tree `t`, found at `dir`:
/// a blob or submodule stays iff a pattern matches its path; a directory that
/// a pattern selects whole stays with its id; any other directory is
/// filtered in turn and stays, rebuilt, iff something remains of it.
pub open spec fn filter_prefix(
    st: TreeStore,
    t: int,
    n: int,
    dir: Seq<Seq<char>>,
    ps: Seq<Pattern>,
) -> Seq<FilteredNode>
    decreases st.trees@.len() - t, n,
{
    if !(0 <= t < st.trees@.len()) || n <= 0 || n > st.trees@[t]@.len() {
        seq![]
    } else {
        let prev = filter_prefix(st, t, n - 1, dir, ps);
        let e = entry_at(st, t, n - 1);
        let path = dir.push(e.name@);
        if e.kind == EntryKind::Tree {
            if any_selects(ps, path) {
                prev.push(kept_node(e))
            } else if t < e.subtree < st.trees@.len() {
                let sub = filter_prefix(
                    st,
                    e.subtree as int,
                    st.trees@[e.subtree as int]@.len() as int,
                    path,
                    ps,
                );
                if sub.len() > 0 {
                    prev.push(FilteredNode::Rebuilt { name: e.name@, mode: e.mode, entries: sub })
                } else {
                    prev
                }
            } else {
                prev
            }
        } else if any_matches(ps, path) {
            prev.push(kept_node(e))
        } else {
            prev
        }
    }
}

/// The filtered entries of tree `t` found at `dir`.
pub open spec fn filter_at(st: TreeStore, t: int, dir: Seq<Seq<char>>, ps: Seq<Pattern>) -> Seq<
    FilteredNode,
> {
    filter_prefix(st, t, st.trees@[t]@.len() as int, dir, ps)
}

/// One entry of a filtered tree.
#[derive(Debug, Clone)]
pub struct FilteredEntry {
    pub name: String,
    pub mode: u32,
    pub kind: EntryKind,
    /// The original object id; it stays valid where `rebuilt` is `None`.
    pub oid: String,
    /// The index of the tree written anew for this directory, if it is one.
    pub rebuilt: Option<usize>,
}

/// The trees to write for a filter's result, children before parents, and
/// the index of the root among them.
#[derive(Debug, Clone)]
pub struct FilteredTree {
    pub trees: Vec<Vec<FilteredEntry>>,
    pub root: usize,
}

/// Every rebuilt directory in `row` points below `b`.
pub open spec fn children_below(row: Seq<FilteredEntry>, b: int) -> bool {
    forall|k: int| 0 <= k < row.len() ==> ((#[trigger] row[k]).rebuilt matches Some(c) ==> c < b)
}

/// Every tree of `out` points only to trees written before it.
pub open spec fn closed(out: Seq<Vec<FilteredEntry>>) -> bool {
    forall|o: int| 0 <= o < out.len() ==> children_below(#[trigger] out[o]@, o)
}

/// The entries of tree `o` of `out`, as values.
pub open spec fn node_view(out: Seq<Vec<FilteredEntry>>, o: int) -> Seq<FilteredNode>
    decreases o + 1, 0int,
{
    if 0 <= o < out.len() {
        row_view(out, out[o]@, o)
    } else {
        seq![]
    }
}

/// The entries `row`, as values, where rebuilt directories point below `b`.
pub open spec fn row_view(out: Seq<Vec<FilteredEntry>>, row: Seq<FilteredEntry>, b: int) -> Seq<
    FilteredNode,
>
    decreases b, row.len() + 1,
{
    if row.len() == 0 {
        seq![]
    } else {
        let prev = row_view(out, row.drop_last(), b);
        let e = row.last();
        match e.rebuilt {
            Some(c) => if 0 <= c < b {
                prev.push(
                    FilteredNode::Rebuilt { name: e.name@, mode: e.mode, entries: node_view(out, c as int) },
                )
            } else {
                prev
            },
            None => prev.push(FilteredNode::Kept { name: e.name@, mode: e.mode, kind: e.kind, oid: e.oid@ }),
        }
    }
}

impl FilteredTree {
    /// The root is among the trees, and each tree points only to earlier ones.
    pub open spec fn wf(&self) -> bool {
        self.root < self.trees@.len() && closed(self.trees@)
    }

    /// The entries of the root, as values.
    pub open spec fn entries(&self) -> Seq<FilteredNode> {
        node_view(self.trees@, self.root as int)
    }
}


/// `out1` is a prefix of `out2`.
pub open spec fn extends(out1: Seq<Vec<FilteredEntry>>, out2: Seq<Vec<FilteredEntry>>) -> bool {
    out1.len() <= out2.len() && forall|o: int| 0 <= o < out1.len() ==> out2[o] == #[trigger] out1[o]
}

/// Appending trees leaves the view of earlier ones unchanged.
proof fn lemma_node_view_extend(out1: Seq<Vec<FilteredEntry>>, out2: Seq<Vec<FilteredEntry>>, o: int)
    requires
        extends(out1, out2),
        0 <= o < out1.len(),
    ensures
        node_view(out2, o) == node_view(out1, o),
    decreases o + 1, 0int,
{
    assert(out2[o] == out1[o]);
    lemma_row_view_extend(out1, out2, out1[o]@, o);
}

/// Appending trees leaves the view of a row pointing into the old ones
/// unchanged.
proof fn lemma_row_view_extend(
    out1: Seq<Vec<FilteredEntry>>,
    out2: Seq<Vec<FilteredEntry>>,
    row: Seq<FilteredEntry>,
    b: int,
)
    requires
        extends(out1, out2),
        0 <= b <= out1.len(),
    ensures
        row_view(out2, row, b) == row_view(out1, row, b),
    decreases b, row.len() + 1,
{
    if row.len() > 0 {
        lemma_row_view_extend(out1, out2, row.drop_last(), b);
        match row.last().rebuilt {
            Some(c) => {
                if 0 <= c < b {
                    lemma_node_view_extend(out1, out2, c as int);
                }
            },
            None => {},
        }
    }
}

/// The bound of a row matters not, as long as its children lie below it.
proof fn lemma_row_view_bound(out: Seq<Vec<FilteredEntry>>, row: Seq<FilteredEntry>, b1: int, b2: int)
    requires
        children_below(row, b1),
        children_below(row, b2),
    ensures
        row_view(out, row, b1) == row_view(out, row, b2),
    decreases row.len(),
{
    if row.len() > 0 {
        assert(row.last() == row[row.len() - 1]);
        assert(children_below(row.drop_last(), b1));
        assert(children_below(row.drop_last(), b2));
        lemma_row_view_bound(out, row.drop_last(), b1, b2);
    }
}

/// Whether some pattern of `ps` matches `path`.
fn any_match(ps: &Vec<Pattern>, path: &Vec<Vec<char>>) -> (r: bool)
    requires
        patterns_wf(ps@),
    ensures
        r == any_matches(ps@, seqs_of(path@)),
{
    let mut i: usize = 0;
    while i < ps.len()
        invariant
            i <= ps.len(),
            patterns_wf(ps@),
            forall|j: int| 0 <= j < i ==> !(#[trigger] ps@[j]).matches_path(seqs_of(path@)),
        decreases ps.len() - i,
    {
        assert(ps@[i as int].wf());
        if ps[i].matches(path) {
            return true;
        }
        i = i + 1;
    }
    false
}

/// Whether some pattern of `ps` selects the directory `path` whole.
fn any_select(ps: &Vec<Pattern>, path: &Vec<Vec<char>>) -> (r: bool)
    requires
        patterns_wf(ps@),
    ensures
        r == any_selects(ps@, seqs_of(path@)),
{
    let mut i: usize = 0;
    while i < ps.len()
        invariant
            i <= ps.len(),
            patterns_wf(ps@),
            forall|j: int| 0 <= j < i ==> !(#[trigger] ps@[j]).selects_subtree(seqs_of(path@)),
        decreases ps.len() - i,
    {
        assert(ps@[i as int].wf());
        if ps[i].selects(path) {
            return true;
        }
        i = i + 1;
    }
    false
}

/// An entry taken over with its original id.
fn kept_entry(e: &TreeEntry) -> (r: FilteredEntry)
    ensures
        r.name@ == e.name@,
        r.mode == e.mode,
        r.kind == e.kind,
        r.oid@ == e.oid@,
        r.rebuilt is None,
{
    FilteredEntry {
        name: e.name.clone(),
        mode: e.mode,
        kind: e.kind,
        oid: e.oid.clone(),
        rebuilt: None,
    }
}

/// Why a tree could not be filtered.
#[derive(Debug, Clone, Copy, PartialEq, Eq, Structural)]
pub enum FilterError {
    /// The given root is no tree of the store.
    InvalidTreeish,
    /// A subtree index of the store points back or out of the store.
    MalformedStore,
}

/// Whether every subtree index of the store points past its parent and into
/// the store.
pub fn store_is_wf(st: &TreeStore) -> (r: bool)
    ensures
        r == st.wf(),
{
    let mut t: usize = 0;
    while t < st.trees.len()
        invariant
            t <= st.trees@.len(),
            forall|u: int, k: int|
                0 <= u < t && 0 <= k < st.trees@[u]@.len() && (#[trigger] entry_at(*st, u, k)).kind
                    == EntryKind::Tree ==> u < entry_at(*st, u, k).subtree < st.trees@.len(),
        decreases st.trees@.len() - t,
    {
        let row = &st.trees[t];
        let mut k: usize = 0;
        while k < row.len()
            invariant
                t < st.trees@.len(),
                row == st.trees@[t as int],
                k <= row@.len(),
                forall|u: int, j: int|
                    0 <= u < t && 0 <= j < st.trees@[u]@.len() && (#[trigger] entry_at(*st, u, j)).kind
                        == EntryKind::Tree ==> u < entry_at(*st, u, j).subtree < st.trees@.len(),
                forall|j: int|
                    0 <= j < k && (#[trigger] entry_at(*st, t as int, j)).kind == EntryKind::Tree
                        ==> t < entry_at(*st, t as int, j).subtree < st.trees@.len(),
            decreases row@.len() - k,
        {
            let e = &row[k];
            assert(*e == entry_at(*st, t as int, k as int));
            if e.kind == EntryKind::Tree && !(t < e.subtree && e.subtree < st.trees.len()) {
                return false;
            }
            k = k + 1;
        }
        t = t + 1;
    }
    true
}

/// A pattern of one of two permuted sequences is in the other.
proof fn lemma_permuted_contains(ps1: Seq<Pattern>, ps2: Seq<Pattern>, i: int)
    requires
        ps1.to_multiset() == ps2.to_multiset(),
        0 <= i < ps1.len(),
    ensures
        exists|j: int| 0 <= j < ps2.len() && ps2[j] == ps1[i],
{
    ps1.to_multiset_ensures();
    ps2.to_multiset_ensures();
    assert(ps1.contains(ps1[i]));
    assert(ps1.to_multiset().count(ps1[i]) > 0);
    assert(ps2.contains(ps1[i]));
}

/// Pattern sequences that hold the same patterns match and select alike.
proof fn lemma_same_patterns(ps1: Seq<Pattern>, ps2: Seq<Pattern>, path: Seq<Seq<char>>)
    requires
        ps1.to_multiset() == ps2.to_multiset(),
    ensures
        any_matches(ps1, path) == any_matches(ps2, path),
        any_selects(ps1, path) == any_selects(ps2, path),
{
    if any_matches(ps1, path) {
        let i = choose|i: int| 0 <= i < ps1.len() && #[trigger] ps1[i].matches_path(path);
        lemma_permuted_contains(ps1, ps2, i);
        let j = choose|j: int| 0 <= j < ps2.len() && ps2[j] == ps1[i];
        assert(ps2[j].matches_path(path));
    }
    if any_matches(ps2, path) {
        let i = choose|i: int| 0 <= i < ps2.len() && #[trigger] ps2[i].matches_path(path);
        lemma_permuted_contains(ps2, ps1, i);
        let j = choose|j: int| 0 <= j < ps1.len() && ps1[j] == ps2[i];
        assert(ps1[j].matches_path(path));
    }
    if any_selects(ps1, path) {
        let i = choose|i: int| 0 <= i < ps1.len() && #[trigger] ps1[i].selects_subtree(path);
        lemma_permuted_contains(ps1, ps2, i);
        let j = choose|j: int| 0 <= j < ps2.len() && ps2[j] == ps1[i];
        assert(ps2[j].selects_subtree(path));
    }
    if any_selects(ps2, path) {
        let i = choose|i: int| 0 <= i < ps2.len() && #[trigger] ps2[i].selects_subtree(path);
        lemma_permuted_contains(ps2, ps1, i);
        let j = choose|j: int| 0 <= j < ps1.len() && ps1[j] == ps2[i];
        assert(ps1[j].selects_subtree(path));
    }
}

/// Filtering does not depend on the order of the patterns: any permutation
/// of the pattern set gives the same result.
pub proof fn lemma_filter_order_independent(
    st: TreeStore,
    t: int,
    n: int,
    dir: Seq<Seq<char>>,
    ps1: Seq<Pattern>,
    ps2: Seq<Pattern>,
)
    requires
        ps1.to_multiset() == ps2.to_multiset(),
    ensures
        filter_prefix(st, t, n, dir, ps1) == filter_prefix(st, t, n, dir, ps2),
    decreases st.trees@.len() - t, n,
{
    if 0 <= t < st.trees@.len() && 0 < n <= st.trees@[t]@.len() {
        lemma_filter_order_independent(st, t, n - 1, dir, ps1, ps2);
        let e = entry_at(st, t, n - 1);
        let path = dir.push(e.name@);
        lemma_same_patterns(ps1, ps2, path);
        if e.kind == EntryKind::Tree && t < e.subtree < st.trees@.len() {
            lemma_filter_order_independent(
                st,
                e.subtree as int,
                st.trees@[e.subtree as int]@.len() as int,
                path,
                ps1,
                ps2,
            );
        }
    }
}

/// Pattern sequences whose patterns have the same matchers, one for one,
/// match and select alike.
proof fn lemma_same_matchers(ps1: Seq<Pattern>, ps2: Seq<Pattern>, path: Seq<Seq<char>>)
    requires
        ps1.len() == ps2.len(),
        forall|i: int|
            0 <= i < ps1.len() ==> (#[trigger] ps1[i]).segs() == ps2[i].segs() && ps1[i].anchored
                == ps2[i].anchored,
    ensures
        any_matches(ps1, path) == any_matches(ps2, path),
        any_selects(ps1, path) == any_selects(ps2, path),
{
    if any_matches(ps1, path) {
        let i = choose|i: int| 0 <= i < ps1.len() && #[trigger] ps1[i].matches_path(path);
        assert(ps2[i].matches_path(path));
    }
    if any_matches(ps2, path) {
        let i = choose|i: int| 0 <= i < ps2.len() && #[trigger] ps2[i].matches_path(path);
        assert(ps1[i].segs() == ps2[i].segs());
        assert(ps1[i].matches_path(path));
    }
    if any_selects(ps1, path) {
        let i = choose|i: int| 0 <= i < ps1.len() && #[trigger] ps1[i].selects_subtree(path);
        assert(ps2[i].selects_subtree(path));
    }
    if any_selects(ps2, path) {
        let i = choose|i: int| 0 <= i < ps2.len() && #[trigger] ps2[i].selects_subtree(path);
        assert(ps1[i].segs() == ps2[i].segs());
        assert(ps1[i].selects_subtree(path));
    }
}

/// Patterns that differ only in how they were written filter alike: with
/// `dir/` in place of `dir/**` (the same matchers) the filtered tree is the
/// same.
pub proof fn lemma_filter_same_matchers(
    st: TreeStore,
    t: int,
    n: int,
    dir: Seq<Seq<char>>,
    ps1: Seq<Pattern>,
    ps2: Seq<Pattern>,
)
    requires
        ps1.len() == ps2.len(),
        forall|i: int|
            0 <= i < ps1.len() ==> (#[trigger] ps1[i]).segs() == ps2[i].segs() && ps1[i].anchored
                == ps2[i].anchored,
    ensures
        filter_prefix(st, t, n, dir, ps1) == filter_prefix(st, t, n, dir, ps2),
    decreases st.trees@.len() - t, n,
{
    if 0 <= t < st.trees@.len() && 0 < n <= st.trees@[t]@.len() {
        lemma_filter_same_matchers(st, t, n - 1, dir, ps1, ps2);
        let e = entry_at(st, t, n - 1);
        let path = dir.push(e.name@);
        lemma_same_matchers(ps1, ps2, path);
        if e.kind == EntryKind::Tree && t < e.subtree < st.trees@.len() {
            lemma_filter_same_matchers(
                st,
                e.subtree as int,
                st.trees@[e.subtree as int]@.len() as int,
                path,
                ps1,
                ps2,
            );
        }
    }
}

/// A filtered entry, once present, stays among the filtered entries of every
/// longer prefix of the tree.
proof fn lemma_filter_prefix_grows(
    st: TreeStore,
    t: int,
    m: int,
    n: int,
    dir: Seq<Seq<char>>,
    ps: Seq<Pattern>,
    x: FilteredNode,
)
    requires
        0 <= t < st.trees@.len(),
        0 <= m <= n <= st.trees@[t]@.len(),
        filter_prefix(st, t, m, dir, ps).contains(x),
    ensures
        filter_prefix(st, t, n, dir, ps).contains(x),
    decreases n - m,
{
    if m < n {
        lemma_filter_prefix_grows(st, t, m, n - 1, dir, ps, x);
        let prev = filter_prefix(st, t, n - 1, dir, ps);
        let i = choose|i: int| 0 <= i < prev.len() && prev[i] == x;
        let cur = filter_prefix(st, t, n, dir, ps);
        assert(cur[i] == x);
    }
}

/// A directory that a pattern selects whole appears in the filtered tree with
/// its original, unrewritten object id.
pub proof fn lemma_selected_directory_shared(
    st: TreeStore,
    t: int,
    k: int,
    dir: Seq<Seq<char>>,
    ps: Seq<Pattern>,
)
    requires
        0 <= t < st.trees@.len(),
        0 <= k < st.trees@[t]@.len(),
        entry_at(st, t, k).kind == EntryKind::Tree,
        any_selects(ps, dir.push(entry_at(st, t, k).name@)),
    ensures
        filter_at(st, t, dir, ps).contains(kept_node(entry_at(st, t, k))),
{
    let x = kept_node(entry_at(st, t, k));
    let s = filter_prefix(st, t, k + 1, dir, ps);
    assert(s[s.len() - 1] == x);
    lemma_filter_prefix_grows(st, t, k + 1, st.trees@[t]@.len() as int, dir, ps, x);
}

/// A directory that a directory-level pattern (`name/`) selects appears in
/// the filtered tree with its original, unrewritten object id.
pub proof fn lemma_directory_pattern_shared(st: TreeStore, t: int, k: int, p: Pattern)
    requires
        0 <= t < st.trees@.len(),
        0 <= k < st.trees@[t]@.len(),
        entry_at(st, t, k).kind == EntryKind::Tree,
        entry_at(st, t, k).name@.len() > 0,
        !entry_at(st, t, k).name@.contains('/'),
        p.segs() == raw_segments(entry_at(st, t, k).name@.push('/')),
        p.anchored == raw_anchored(entry_at(st, t, k).name@.push('/')),
    ensures
        filter_at(st, t, seq![], seq![p]).contains(kept_node(entry_at(st, t, k))),
{
    let name = entry_at(st, t, k).name@;
    lemma_directory_pattern_selects(name, p);
    assert(Seq::<Seq<char>>::empty().push(name) =~= seq![name]);
    assert(seq![p][0] == p);
    assert(any_selects(seq![p], Seq::<Seq<char>>::empty().push(name)));
    lemma_selected_directory_shared(st, t, k, seq![], seq![p]);
}

/// Filtering is a function of the tree and the patterns: two filterings of
/// the same tree with the same patterns describe the same trees, and so, as
/// objects are content-addressed, the same tree id.
pub proof fn lemma_filter_deterministic(
    st: TreeStore,
    root: usize,
    ps: Seq<Pattern>,
    f1: FilteredTree,
    f2: FilteredTree,
)
    requires
        f1.entries() == filter_at(st, root as int, seq![], ps),
        f2.entries() == filter_at(st, root as int, seq![], ps),
    ensures
        f1.entries() == f2.entries(),
{
}


/// The work left in tree `t` from entry `k` on: each entry counts one step,
/// and a directory two more plus the work in its tree.
pub open spec fn work(st: TreeStore, t: int, k: int) -> nat
    decreases st.trees@.len() - t, st.trees@[t]@.len() - k,
{
    if !(0 <= t < st.trees@.len()) || k < 0 || k >= st.trees@[t]@.len() {
        0
    } else {
        let e = entry_at(st, t, k);
        let here: nat = if e.kind == EntryKind::Tree && t < e.subtree < st.trees@.len() {
            2 + work(st, e.subtree as int, 0)
        } else {
            1
        };
        here + work(st, t, k + 1)
    }
}

/// A directory being filtered: tree `t`, its next entry `k`, and the
/// filtered entries found so far.
struct Frame {
    t: usize,
    k: usize,
    row: Vec<FilteredEntry>,
}

/// The work left in frames that wait for a subtree: past their current entry.
spec fn waiting_work(st: TreeStore, fs: Seq<Frame>) -> nat
    decreases fs.len(),
{
    if fs.len() == 0 {
        0
    } else {
        waiting_work(st, fs.drop_last()) + work(st, fs.last().t as int, fs.last().k + 1) + 1
    }
}

/// The work left on a stack of frames.
spec fn stack_work(st: TreeStore, fs: Seq<Frame>) -> nat {
    if fs.len() == 0 {
        0
    } else {
        waiting_work(st, fs.drop_last()) + work(st, fs.last().t as int, fs.last().k as int)
    }
}

/// Frame `i` of the stack holds the filtered prefix of its tree, at the path
/// `dir[..i]`.
spec fn frame_ok(
    st: TreeStore,
    f: Frame,
    i: int,
    dir: Seq<Seq<char>>,
    ps: Seq<Pattern>,
    out: Seq<Vec<FilteredEntry>>,
) -> bool {
    &&& f.t < st.trees@.len()
    &&& f.k <= st.trees@[f.t as int]@.len()
    &&& children_below(f.row@, out.len() as int)
    &&& row_view(out, f.row@, out.len() as int) == filter_prefix(
        st,
        f.t as int,
        f.k as int,
        dir.subrange(0, i),
        ps,
    )
}

/// Frame `f` at depth `i` waits for the directory at its entry `k`, whose
/// tree frame `g` filters and whose name is `dir[i]`.
spec fn frame_waits(st: TreeStore, f: Frame, g: Frame, i: int, dir: Seq<Seq<char>>, ps: Seq<Pattern>) -> bool {
    &&& f.k < st.trees@[f.t as int]@.len()
    &&& entry_at(st, f.t as int, f.k as int).kind == EntryKind::Tree
    &&& !any_selects(ps, dir.subrange(0, i).push(entry_at(st, f.t as int, f.k as int).name@))
    &&& g.t == entry_at(st, f.t as int, f.k as int).subtree
    &&& dir[i] == entry_at(st, f.t as int, f.k as int).name@
}

/// The stack is consistent: one frame per level of `dir` and one more.
#[verifier::opaque]
spec fn stack_ok(
    st: TreeStore,
    fs: Seq<Frame>,
    dir: Seq<Seq<char>>,
    ps: Seq<Pattern>,
    out: Seq<Vec<FilteredEntry>>,
) -> bool {
    &&& fs.len() == dir.len() + 1
    &&& forall|i: int| 0 <= i < fs.len() ==> frame_ok(st, #[trigger] fs[i], i, dir, ps, out)
    &&& forall|i: int| 0 <= i < fs.len() - 1 ==> frame_waits(st, #[trigger] fs[i], fs[i + 1], i, dir, ps)
}

/// Appending trees to `out` keeps every frame consistent.
proof fn lemma_stack_extend(
    st: TreeStore,
    fs: Seq<Frame>,
    dir: Seq<Seq<char>>,
    ps: Seq<Pattern>,
    out1: Seq<Vec<FilteredEntry>>,
    out2: Seq<Vec<FilteredEntry>>,
)
    requires
        stack_ok(st, fs, dir, ps, out1),
        extends(out1, out2),
    ensures
        stack_ok(st, fs, dir, ps, out2),
{
    reveal(stack_ok);
    assert forall|i: int| 0 <= i < fs.len() implies frame_ok(st, #[trigger] fs[i], i, dir, ps, out2) by {
        assert(frame_ok(st, fs[i], i, dir, ps, out1));
        lemma_row_view_extend(out1, out2, fs[i].row@, out1.len() as int);
        lemma_row_view_bound(out2, fs[i].row@, out1.len() as int, out2.len() as int);
    }
}

/// The waiting work of a stack grows by the frames pushed on it.
proof fn lemma_waiting_push(st: TreeStore, fs: Seq<Frame>, f: Frame)
    ensures
        waiting_work(st, fs.push(f)) == waiting_work(st, fs) + work(st, f.t as int, f.k + 1) + 1,
{
    assert(fs.push(f).drop_last() =~= fs);
}


/// What the filter has produced once the root's frame is closed.
spec fn filter_done(st: TreeStore, root: int, ps: Seq<Pattern>, out: Seq<Vec<FilteredEntry>>, res: Option<usize>) -> bool {
    match res {
        Some(o) => o < out.len() && node_view(out, o as int) == filter_at(st, root, seq![], ps),
        None => filter_at(st, root, seq![], ps).len() == 0,
    }
}

/// Replacing the top frame by a consistent one for the same tree keeps the
/// stack consistent.
proof fn lemma_stack_replace_top(
    st: TreeStore,
    fs: Seq<Frame>,
    d: Seq<Seq<char>>,
    ps: Seq<Pattern>,
    out: Seq<Vec<FilteredEntry>>,
    f: Frame,
)
    requires
        stack_ok(st, fs, d, ps, out),
        fs.len() >= 1,
        f.t == fs.last().t,
        frame_ok(st, f, fs.len() - 1, d, ps, out),
    ensures
        stack_ok(st, fs.drop_last().push(f), d, ps, out),
        fs.drop_last().push(f)[0].t == fs[0].t,
{
    reveal(stack_ok);
    let fs2 = fs.drop_last().push(f);
    let n = fs.len() as int;
    assert forall|i: int| 0 <= i < fs2.len() implies frame_ok(st, #[trigger] fs2[i], i, d, ps, out) by {
        if i < n - 1 {
            assert(fs2[i] == fs[i]);
        }
    }
    assert forall|i: int| 0 <= i < fs2.len() - 1 implies frame_waits(st, #[trigger] fs2[i], fs2[i + 1], i, d, ps) by {
        assert(fs2[i] == fs[i]);
        assert(frame_waits(st, fs[i], fs[i + 1], i, d, ps));
        if i + 1 < n - 1 {
            assert(fs2[i + 1] == fs[i + 1]);
        }
    }
    if n > 1 {
        assert(fs2[0] == fs[0]);
    }
}

/// Dropping the top frame, and the last level of the path, keeps the stack
/// consistent.
proof fn lemma_stack_pop(
    st: TreeStore,
    fs: Seq<Frame>,
    d: Seq<Seq<char>>,
    ps: Seq<Pattern>,
    out: Seq<Vec<FilteredEntry>>,
)
    requires
        stack_ok(st, fs, d, ps, out),
        fs.len() >= 2,
    ensures
        stack_ok(st, fs.drop_last(), d.drop_last(), ps, out),
        fs.drop_last()[0] == fs[0],
{
    reveal(stack_ok);
    let fs2 = fs.drop_last();
    let d2 = d.drop_last();
    assert forall|i: int| 0 <= i < fs2.len() implies frame_ok(st, #[trigger] fs2[i], i, d2, ps, out) by {
        assert(fs2[i] == fs[i]);
        assert(frame_ok(st, fs[i], i, d, ps, out));
        assert(d2.subrange(0, i) =~= d.subrange(0, i));
    }
    assert forall|i: int| 0 <= i < fs2.len() - 1 implies frame_waits(st, #[trigger] fs2[i], fs2[i + 1], i, d2, ps) by {
        assert(fs2[i] == fs[i]);
        assert(fs2[i + 1] == fs[i + 1]);
        assert(frame_waits(st, fs[i], fs[i + 1], i, d, ps));
        assert(d2.subrange(0, i) =~= d.subrange(0, i));
    }
}

/// Opening a frame for the directory at the top frame's entry keeps the
/// stack consistent.
proof fn lemma_stack_push(
    st: TreeStore,
    fs: Seq<Frame>,
    d: Seq<Seq<char>>,
    ps: Seq<Pattern>,
    out: Seq<Vec<FilteredEntry>>,
    name: Seq<char>,
    f: Frame,
)
    requires
        stack_ok(st, fs, d, ps, out),
        frame_waits(st, fs.last(), f, fs.len() - 1, d.push(name), ps),
        frame_ok(st, f, fs.len() as int, d.push(name), ps, out),
    ensures
        stack_ok(st, fs.push(f), d.push(name), ps, out),
        fs.push(f)[0] == fs[0],
{
    reveal(stack_ok);
    let fs2 = fs.push(f);
    let d2 = d.push(name);
    let n = fs.len() as int;
    assert forall|i: int| 0 <= i < fs2.len() implies frame_ok(st, #[trigger] fs2[i], i, d2, ps, out) by {
        if i < n {
            assert(fs2[i] == fs[i]);
            assert(frame_ok(st, fs[i], i, d, ps, out));
            assert(d2.subrange(0, i) =~= d.subrange(0, i));
        }
    }
    assert forall|i: int| 0 <= i < fs2.len() - 1 implies frame_waits(st, #[trigger] fs2[i], fs2[i + 1], i, d2, ps) by {
        assert(fs2[i] == fs[i]);
        if i < n - 1 {
            assert(fs2[i + 1] == fs[i + 1]);
            assert(frame_waits(st, fs[i], fs[i + 1], i, d, ps));
            assert(d2.subrange(0, i) =~= d.subrange(0, i));
            assert(d2[i] == d[i]);
        }
    }
}

/// What the stack says of its top frame and of the one below it.
proof fn lemma_stack_top(
    st: TreeStore,
    fs: Seq<Frame>,
    d: Seq<Seq<char>>,
    ps: Seq<Pattern>,
    out: Seq<Vec<FilteredEntry>>,
)
    requires
        stack_ok(st, fs, d, ps, out),
    ensures
        fs.len() == d.len() + 1,
        frame_ok(st, fs.last(), fs.len() - 1, d, ps, out),
        fs.len() >= 2 ==> frame_ok(st, fs[fs.len() - 2], fs.len() - 2, d, ps, out),
        fs.len() >= 2 ==> frame_waits(st, fs[fs.len() - 2], fs.last(), fs.len() - 2, d, ps),
{
    reveal(stack_ok);
    assert(frame_ok(st, fs[fs.len() - 1], fs.len() - 1, d, ps, out));
    if fs.len() >= 2 {
        assert(frame_ok(st, fs[fs.len() - 2], fs.len() - 2, d, ps, out));
        assert(frame_waits(st, fs[fs.len() - 2], fs[fs.len() - 1], fs.len() - 2, d, ps));
    }
}

/// The frame below a finished one takes the finished directory's result and
/// moves past its entry.
proof fn lemma_parent_takes_child(
    st: TreeStore,
    parent: Frame,
    child: Frame,
    i: int,
    d: Seq<Seq<char>>,
    ps: Seq<Pattern>,
    out0: Seq<Vec<FilteredEntry>>,
    out1: Seq<Vec<FilteredEntry>>,
    done: Option<usize>,
    updated: Frame,
)
    requires
        st.wf(),
        i >= 0,
        d.len() == i + 1,
        frame_ok(st, parent, i, d, ps, out0),
        frame_waits(st, parent, child, i, d, ps),
        frame_ok(st, child, i + 1, d, ps, out0),
        child.k == st.trees@[child.t as int]@.len(),
        extends(out0, out1),
        match done {
            Some(o) => o < out1.len() && node_view(out1, o as int) == row_view(out0, child.row@, out0.len() as int)
                && row_view(out0, child.row@, out0.len() as int).len() > 0,
            None => row_view(out0, child.row@, out0.len() as int).len() == 0,
        },
        updated.t == parent.t,
        updated.k == parent.k + 1,
        updated.row@ == match done {
            Some(o) => parent.row@.push(
                FilteredEntry {
                    name: entry_at(st, parent.t as int, parent.k as int).name,
                    mode: entry_at(st, parent.t as int, parent.k as int).mode,
                    kind: entry_at(st, parent.t as int, parent.k as int).kind,
                    oid: entry_at(st, parent.t as int, parent.k as int).oid,
                    rebuilt: Some(o),
                },
            ),
            None => parent.row@,
        },
    ensures
        frame_ok(st, updated, i, d.drop_last(), ps, out1),
{
    let d1 = d.drop_last();
    let e = entry_at(st, parent.t as int, parent.k as int);
    assert(d.subrange(0, i) =~= d1);
    assert(d1.subrange(0, i) =~= d1);
    assert(d.subrange(0, i + 1) =~= d);
    assert(d1.push(e.name@) =~= d);
    lemma_row_view_extend(out0, out1, parent.row@, out0.len() as int);
    lemma_row_view_bound(out1, parent.row@, out0.len() as int, out1.len() as int);
    assert(parent.t < e.subtree < st.trees@.len());
    if done is Some {
        assert(updated.row@.drop_last() =~= parent.row@);
    }
    assert(children_below(updated.row@, out1.len() as int)) by {
        assert forall|x: int| 0 <= x < updated.row@.len() implies ((#[trigger] updated.row@[x]).rebuilt matches Some(c) ==> c < out1.len()) by {
            if x < parent.row@.len() {
                assert(updated.row@[x] == parent.row@[x]);
            }
        }
    }
}

/// `res` is the result of filtering tree `t` at `dir` into `out`: the index
/// of its written tree, or `None` where nothing of it remains.
spec fn result_ok(
    st: TreeStore,
    t: int,
    dir: Seq<Seq<char>>,
    ps: Seq<Pattern>,
    out: Seq<Vec<FilteredEntry>>,
    res: Option<usize>,
) -> bool {
    match res {
        Some(o) => o < out.len() && node_view(out, o as int) == filter_at(st, t, dir, ps) && filter_at(
            st,
            t,
            dir,
            ps,
        ).len() > 0,
        None => filter_at(st, t, dir, ps).len() == 0,
    }
}

/// Closes the frame on top of the stack, whose entries are all done: writes
/// its tree if anything remains of it, and hands the result to the frame
/// below; returns the result where the top frame was the root's, and else
/// the closed frame's own result.
fn close_frame(
    st: &TreeStore,
    root: usize,
    stack: &mut Vec<Frame>,
    dir: &mut Vec<Vec<char>>,
    ps: &Vec<Pattern>,
    out: &mut Vec<Vec<FilteredEntry>>,
) -> (r: (Option<Option<usize>>, Option<usize>))
    requires
        st.wf(),
        patterns_wf(ps@),
        closed(old(out)@),
        stack_ok(*st, old(stack)@, seqs_of(old(dir)@), ps@, old(out)@),
        old(stack)@.len() > 0,
        old(stack)@[0].t == root,
        old(stack)@.last().k == st.trees@[old(stack)@.last().t as int]@.len(),
    ensures
        closed(final(out)@),
        extends(old(out)@, final(out)@),
        match r.0 {
            Some(res) => filter_done(*st, root as int, ps@, final(out)@, res),
            None => {
                &&& stack_ok(*st, final(stack)@, seqs_of(final(dir)@), ps@, final(out)@)
                &&& final(stack)@[0].t == root
                &&& stack_work(*st, final(stack)@) < stack_work(*st, old(stack)@)
                &&& result_ok(
                    *st,
                    old(stack)@.last().t as int,
                    seqs_of(old(dir)@),
                    ps@,
                    final(out)@,
                    r.1,
                )
            },
        },
{
    let ghost fs0 = stack@;
    let ghost d0 = seqs_of(dir@);
    let ghost out0 = out@;
    let ghost n = fs0.len() as int;
    proof {
        lemma_stack_top(*st, fs0, d0, ps@, out0);
    }
    let top = stack.pop().unwrap();
    assert(top == fs0[n - 1]);
    let row = top.row;
    let ghost rowv = row@;
    let done: Option<usize> = if row.len() == 0 {
        None
    } else {
        let o = out.len();
        out.push(row);
        proof {
            lemma_row_view_extend(out0, out@, rowv, o as int);
            assert(closed(out@)) by {
                assert forall|x: int| 0 <= x < out@.len() implies children_below(#[trigger] out@[x]@, x) by {
                    if x < o {
                        assert(out@[x] == out0[x]);
                    }
                }
            }
        }
        Some(o)
    };
    let ghost out1 = out@;
    assert(extends(out0, out1));
    if stack.len() == 0 {
        assert(d0.subrange(0, 0) =~= Seq::<Seq<char>>::empty());
        return (Some(done), done);
    }
    proof {
        lemma_stack_pop(*st, fs0, d0, ps@, out0);
        lemma_stack_extend(*st, fs0.drop_last(), d0.drop_last(), ps@, out0, out1);
    }
    let ghost fs1 = stack@;
    let parent = stack.pop().unwrap();
    let ghost pv = parent;
    assert(pv == fs0[n - 2]);
    dir.pop();
    assert(seqs_of(dir@) =~= d0.drop_last());
    let plen = st.trees[parent.t].len();
    assert(parent.k < plen);
    let e = &st.trees[parent.t][parent.k];
    assert(*e == entry_at(*st, parent.t as int, parent.k as int));
    let mut updated = parent;
    match done {
        Some(o) => {
            updated.row.push(
                FilteredEntry {
                    name: e.name.clone(),
                    mode: e.mode,
                    kind: e.kind,
                    oid: e.oid.clone(),
                    rebuilt: Some(o),
                },
            );
        },
        None => {},
    }
    updated.k = updated.k + 1;
    proof {
        assert(d0.subrange(0, n - 1) =~= d0);
        lemma_parent_takes_child(*st, pv, fs0[n - 1], n - 2, d0, ps@, out0, out1, done, updated);
        lemma_stack_replace_top(*st, fs1, d0.drop_last(), ps@, out1, updated);
        assert(fs1.drop_last().push(updated) == stack@.push(updated));
        assert(fs0.drop_last() == fs1);
        lemma_waiting_push(*st, fs1.drop_last(), pv);
        assert(fs1.drop_last().push(pv) =~= fs1);
    }
    let ghost uv = updated;
    stack.push(updated);
    proof {
        assert(stack@ == fs1.drop_last().push(uv));
        assert(stack_ok(*st, stack@, seqs_of(dir@), ps@, out@));
        assert(stack@[0].t == root);
        assert(stack_work(*st, fs0) == waiting_work(*st, fs1) + work(*st, fs0[n - 1].t as int, fs0[n - 1].k as int));
        assert(work(*st, fs0[n - 1].t as int, fs0[n - 1].k as int) == 0);
        assert(stack@.drop_last() =~= fs1.drop_last());
        assert(stack@.last() == uv);
        assert(stack_work(*st, stack@) == waiting_work(*st, fs1.drop_last()) + work(*st, uv.t as int, uv.k as int));
        assert(stack_work(*st, stack@) < stack_work(*st, fs0));
        assert(d0.subrange(0, n - 1) =~= d0);
        assert(result_ok(*st, fs0[n - 1].t as int, d0, ps@, out@, done));
    }
    (None, done)
}

/// Takes the next entry of the frame on top of the stack: keeps it, drops
/// it, or opens a frame for its directory.
fn advance_frame(
    st: &TreeStore,
    root: usize,
    stack: &mut Vec<Frame>,
    dir: &mut Vec<Vec<char>>,
    ps: &Vec<Pattern>,
    out: &Vec<Vec<FilteredEntry>>,
)
    requires
        st.wf(),
        patterns_wf(ps@),
        stack_ok(*st, old(stack)@, seqs_of(old(dir)@), ps@, out@),
        old(stack)@.len() > 0,
        old(stack)@[0].t == root,
        old(stack)@.last().k < st.trees@[old(stack)@.last().t as int]@.len(),
    ensures
        stack_ok(*st, final(stack)@, seqs_of(final(dir)@), ps@, out@),
        final(stack)@[0].t == root,
        stack_work(*st, final(stack)@) < stack_work(*st, old(stack)@),
{
    let ghost fs0 = stack@;
    let ghost d0 = seqs_of(dir@);
    let ghost n = fs0.len() as int;
    proof {
        lemma_stack_top(*st, fs0, d0, ps@, out@);
    }
    let top = stack.pop().unwrap();
    assert(top == fs0[n - 1]);
    assert(d0.subrange(0, n - 1) =~= d0);
    let t = top.t;
    let k = top.k;
    let e = &st.trees[t][k];
    assert(*e == entry_at(*st, t as int, k as int));
    let name = chars_of(e.name.as_str());
    dir.push(name);
    assert(seqs_of(dir@) =~= d0.push(e.name@));
    let is_tree = e.kind == EntryKind::Tree;
    let selected = if is_tree {
        any_select(ps, &dir)
    } else {
        false
    };
    if is_tree && !selected {
        let sub = e.subtree;
        stack.push(top);
        let fresh = Frame { t: sub, k: 0, row: Vec::new() };
        let ghost fresh_v = fresh;
        stack.push(fresh);
        proof {
            assert(fs0.drop_last().push(fs0[n - 1]) =~= fs0);
            assert(fresh_v.row@ =~= Seq::<FilteredEntry>::empty());
            assert(d0.push(e.name@).subrange(0, n - 1) =~= d0);
            lemma_stack_push(*st, fs0, d0, ps@, out@, e.name@, fresh_v);
            assert(stack@ =~= fs0.push(fresh_v));
            assert(fs0.push(fresh_v).drop_last() =~= fs0);
            lemma_waiting_push(*st, fs0.drop_last(), fs0[n - 1]);
        }
    } else {
        let keep = selected || (!is_tree && any_match(ps, &dir));
        let mut top = top;
        let ghost trow = top.row@;
        if keep {
            top.row.push(kept_entry(e));
            assert(top.row@.drop_last() =~= trow);
        }
        dir.pop();
        assert(seqs_of(dir@) =~= d0);
        let len = st.trees[t].len();
        assert(k < len);
        top.k = k + 1;
        let ghost tv = top;
        stack.push(top);
        proof {
            lemma_stack_replace_top(*st, fs0, d0, ps@, out@, tv);
            assert(stack@ =~= fs0.drop_last().push(tv));
            assert(stack@.drop_last() =~= fs0.drop_last());
        }
    }
}

/// Every pattern of `ps` is unanchored: it looks at the last segment only.
spec fn all_unanchored(ps: Seq<Pattern>) -> bool {
    forall|i: int| 0 <= i < ps.len() ==> !(#[trigger] ps[i]).anchored
}

/// Unanchored patterns treat a name alike wherever it lies.
proof fn lemma_unanchored_alike(ps: Seq<Pattern>, d1: Seq<Seq<char>>, d2: Seq<Seq<char>>, x: Seq<char>)
    requires
        all_unanchored(ps),
    ensures
        any_matches(ps, d1.push(x)) == any_matches(ps, d2.push(x)),
        !any_selects(ps, d1.push(x)),
        !any_selects(ps, d2.push(x)),
{
    if any_matches(ps, d1.push(x)) {
        let i = choose|i: int| 0 <= i < ps.len() && #[trigger] ps[i].matches_path(d1.push(x));
        assert(d1.push(x).last() == x && d2.push(x).last() == x);
        assert(ps[i].matches_path(d2.push(x)));
    }
    if any_matches(ps, d2.push(x)) {
        let i = choose|i: int| 0 <= i < ps.len() && #[trigger] ps[i].matches_path(d2.push(x));
        assert(d1.push(x).last() == x && d2.push(x).last() == x);
        assert(ps[i].matches_path(d1.push(x)));
    }
    if any_selects(ps, d1.push(x)) {
        let i = choose|i: int| 0 <= i < ps.len() && #[trigger] ps[i].selects_subtree(d1.push(x));
        assert(!ps[i].anchored);
    }
    if any_selects(ps, d2.push(x)) {
        let i = choose|i: int| 0 <= i < ps.len() && #[trigger] ps[i].selects_subtree(d2.push(x));
        assert(!ps[i].anchored);
    }
}

/// With unanchored patterns only, a tree filters alike wherever it lies;
/// so its result may be kept and reused.
proof fn lemma_unanchored_path_free(
    st: TreeStore,
    t: int,
    n: int,
    d1: Seq<Seq<char>>,
    d2: Seq<Seq<char>>,
    ps: Seq<Pattern>,
)
    requires
        all_unanchored(ps),
    ensures
        filter_prefix(st, t, n, d1, ps) == filter_prefix(st, t, n, d2, ps),
    decreases st.trees@.len() - t, n,
{
    if 0 <= t < st.trees@.len() && 0 < n <= st.trees@[t]@.len() {
        lemma_unanchored_path_free(st, t, n - 1, d1, d2, ps);
        let e = entry_at(st, t, n - 1);
        lemma_unanchored_alike(ps, d1, d2, e.name@);
        if e.kind == EntryKind::Tree && t < e.subtree < st.trees@.len() {
            lemma_unanchored_path_free(
                st,
                e.subtree as int,
                st.trees@[e.subtree as int]@.len() as int,
                d1.push(e.name@),
                d2.push(e.name@),
                ps,
            );
        }
    }
}

/// The memo table: the results kept for trees already filtered, valid where
/// all patterns are unanchored.
spec fn memo_ok(
    st: TreeStore,
    ps: Seq<Pattern>,
    out: Seq<Vec<FilteredEntry>>,
    memo: Seq<Option<Option<usize>>>,
) -> bool {
    &&& memo.len() == st.trees@.len()
    &&& forall|s: int|
        0 <= s < memo.len() && (#[trigger] memo[s]) is Some ==> all_unanchored(ps) && result_ok(
            st,
            s,
            seq![],
            ps,
            out,
            memo[s]->0,
        )
}

/// Appending trees keeps the memo table valid.
proof fn lemma_memo_extend(
    st: TreeStore,
    ps: Seq<Pattern>,
    out1: Seq<Vec<FilteredEntry>>,
    out2: Seq<Vec<FilteredEntry>>,
    memo: Seq<Option<Option<usize>>>,
)
    requires
        memo_ok(st, ps, out1, memo),
        extends(out1, out2),
    ensures
        memo_ok(st, ps, out2, memo),
{
    assert forall|s: int| 0 <= s < memo.len() && (#[trigger] memo[s]) is Some implies all_unanchored(ps)
        && result_ok(st, s, seq![], ps, out2, memo[s]->0) by {
        if memo[s]->0 is Some {
            lemma_node_view_extend(out1, out2, (memo[s]->0)->0 as int);
        }
    }
}

/// Takes the next entry of the top frame, a directory whose tree was filtered
/// before, from the memo table.
fn take_memo(
    st: &TreeStore,
    root: usize,
    stack: &mut Vec<Frame>,
    dir: &Vec<Vec<char>>,
    ps: &Vec<Pattern>,
    out: &Vec<Vec<FilteredEntry>>,
    res: Option<usize>,
)
    requires
        st.wf(),
        stack_ok(*st, old(stack)@, seqs_of(dir@), ps@, out@),
        old(stack)@.len() > 0,
        old(stack)@[0].t == root,
        old(stack)@.last().k < st.trees@[old(stack)@.last().t as int]@.len(),
        entry_at(*st, old(stack)@.last().t as int, old(stack)@.last().k as int).kind == EntryKind::Tree,
        all_unanchored(ps@),
        result_ok(
            *st,
            entry_at(*st, old(stack)@.last().t as int, old(stack)@.last().k as int).subtree as int,
            seq![],
            ps@,
            out@,
            res,
        ),
    ensures
        stack_ok(*st, final(stack)@, seqs_of(dir@), ps@, out@),
        final(stack)@[0].t == root,
        stack_work(*st, final(stack)@) < stack_work(*st, old(stack)@),
{
    let ghost fs0 = stack@;
    let ghost d0 = seqs_of(dir@);
    let ghost n = fs0.len() as int;
    proof {
        lemma_stack_top(*st, fs0, d0, ps@, out@);
    }
    let top = stack.pop().unwrap();
    assert(top == fs0[n - 1]);
    assert(d0.subrange(0, n - 1) =~= d0);
    let t = top.t;
    let k = top.k;
    let e = &st.trees[t][k];
    assert(*e == entry_at(*st, t as int, k as int));
    let len = st.trees[t].len();
    let mut top = top;
    let ghost trow = top.row@;
    proof {
        lemma_unanchored_alike(ps@, d0, d0, e.name@);
        lemma_unanchored_path_free(
            *st,
            e.subtree as int,
            st.trees@[e.subtree as int]@.len() as int,
            d0.push(e.name@),
            seq![],
            ps@,
        );
    }
    match res {
        Some(o) => {
            top.row.push(
                FilteredEntry {
                    name: e.name.clone(),
                    mode: e.mode,
                    kind: e.kind,
                    oid: e.oid.clone(),
                    rebuilt: Some(o),
                },
            );
            assert(top.row@.drop_last() =~= trow);
        },
        None => {},
    }
    assert(k < len);
    top.k = k + 1;
    let ghost tv = top;
    proof {
        assert(children_below(tv.row@, out@.len() as int)) by {
            assert forall|x: int| 0 <= x < tv.row@.len() implies ((#[trigger] tv.row@[x]).rebuilt matches Some(c) ==> c < out@.len()) by {
                if x < trow.len() {
                    assert(tv.row@[x] == trow[x]);
                }
            }
        }
        assert(frame_ok(*st, tv, n - 1, d0, ps@, out@));
        lemma_stack_replace_top(*st, fs0, d0, ps@, out@, tv);
    }
    stack.push(top);
    assert(stack@ =~= fs0.drop_last().push(tv));
    assert(stack@.drop_last() =~= fs0.drop_last());
}

/// Whether every pattern is unanchored.
fn unanchored_only(ps: &Vec<Pattern>) -> (r: bool)
    ensures
        r == all_unanchored(ps@),
{
    let mut i: usize = 0;
    while i < ps.len()
        invariant
            i <= ps@.len(),
            forall|j: int| 0 <= j < i ==> !(#[trigger] ps@[j]).anchored,
        decreases ps@.len() - i,
    {
        if ps[i].anchored {
            return false;
        }
        i = i + 1;
    }
    true
}

/// Filters tree `root` with an explicit stack of frames, one per directory
/// on the current path; returns the trees to write and the index of the
/// root's own, or `None` where nothing of it remains. Where all patterns are
/// unanchored, a tree's result does not depend on where it lies, and a memo
/// table indexed by tree serves every further occurrence of it.
fn filter_stack(st: &TreeStore, root: usize, ps: &Vec<Pattern>) -> (r: (
    Vec<Vec<FilteredEntry>>,
    Option<usize>,
))
    requires
        st.wf(),
        root < st.trees@.len(),
        patterns_wf(ps@),
    ensures
        closed(r.0@),
        filter_done(*st, root as int, ps@, r.0@, r.1),
{
    let mut out: Vec<Vec<FilteredEntry>> = Vec::new();
    let mut dir: Vec<Vec<char>> = Vec::new();
    let mut stack: Vec<Frame> = Vec::new();
    stack.push(Frame { t: root, k: 0, row: Vec::new() });
    let mut result: Option<usize> = None;
    let unanchored = unanchored_only(ps);
    let mut memo: Vec<Option<Option<usize>>> = Vec::new();
    let mut m: usize = 0;
    while m < st.trees.len()
        invariant
            m <= st.trees@.len(),
            memo@.len() == m,
            forall|s: int| 0 <= s < m ==> (#[trigger] memo@[s]) is None,
        decreases st.trees@.len() - m,
    {
        memo.push(None);
        m = m + 1;
    }
    proof {
        reveal(stack_ok);
        assert(seqs_of(dir@) =~= Seq::<Seq<char>>::empty());
        assert(stack@[0].row@ =~= Seq::<FilteredEntry>::empty());
        assert(frame_ok(*st, stack@[0], 0, seqs_of(dir@), ps@, out@));
    }
    loop
        invariant_except_break
            stack_ok(*st, stack@, seqs_of(dir@), ps@, out@),
            stack@[0].t == root,
        invariant
            st.wf(),
            root < st.trees@.len(),
            patterns_wf(ps@),
            closed(out@),
            unanchored == all_unanchored(ps@),
            memo_ok(*st, ps@, out@, memo@),
        ensures
            filter_done(*st, root as int, ps@, out@, result),
        decreases stack_work(*st, stack@),
    {
        proof {
            lemma_stack_top(*st, stack@, seqs_of(dir@), ps@, out@);
        }
        let n = stack.len();
        let t = stack[n - 1].t;
        let k = stack[n - 1].k;
        if k == st.trees[t].len() {
            let ghost d0 = seqs_of(dir@);
            let ghost out0 = out@;
            let (finished, res) = close_frame(st, root, &mut stack, &mut dir, ps, &mut out);
            proof {
                lemma_memo_extend(*st, ps@, out0, out@, memo@);
            }
            match finished {
                Some(r) => {
                    result = r;
                    break;
                },
                None => {
                    if unanchored {
                        proof {
                            lemma_unanchored_path_free(
                                *st,
                                t as int,
                                st.trees@[t as int]@.len() as int,
                                d0,
                                seq![],
                                ps@,
                            );
                        }
                        let ghost before = memo@;
                        memo.set(t, Some(res));
                        assert forall|s: int| 0 <= s < memo@.len() && (#[trigger] memo@[s]) is Some implies all_unanchored(ps@)
                            && result_ok(*st, s, seq![], ps@, out@, memo@[s]->0) by {
                            if s != t {
                                assert(memo@[s] == before[s]);
                            }
                        }
                    }
                },
            }
        } else {
            let e = &st.trees[t][k];
            assert(*e == entry_at(*st, t as int, k as int));
            if unanchored && e.kind == EntryKind::Tree && memo[e.subtree].is_some() {
                let res = memo[e.subtree].unwrap();
                assert(memo@[e.subtree as int] is Some);
                take_memo(st, root, &mut stack, &dir, ps, &out, res);
            } else {
                advance_frame(st, root, &mut stack, &mut dir, ps, &out);
            }
        }
    }
    (out, result)
}

/// The name of an entry kind in listings.
pub open spec fn kind_name(k: EntryKind) -> Seq<char> {
    match k {
        EntryKind::Blob => "blob"@,
        EntryKind::Tree => "tree"@,
        EntryKind::Commit => "commit"@,
    }
}

/// The name of an entry kind in listings.
pub fn kind_label(k: EntryKind) -> (r: String)
    ensures
        r@ == kind_name(k),
{
    match k {
        EntryKind::Blob => "blob".to_owned(),
        EntryKind::Tree => "tree".to_owned(),
        EntryKind::Commit => "commit".to_owned(),
    }
}

/// The octal digit of `d`, below 8.
pub open spec fn octal_digit(d: nat) -> char {
    if d == 0 {
        '0'
    } else if d == 1 {
        '1'
    } else if d == 2 {
        '2'
    } else if d == 3 {
        '3'
    } else if d == 4 {
        '4'
    } else if d == 5 {
        '5'
    } else if d == 6 {
        '6'
    } else {
        '7'
    }
}

/// The octal numeral of `m`, zero-padded to at least `width` digits.
pub open spec fn octal(m: nat, width: nat) -> Seq<char>
    decreases m + width,
{
    if m < 8 && width <= 1 {
        seq![octal_digit(m)]
    } else {
        octal(m / 8, if width > 0 { (width - 1) as nat } else { 0 }).push(octal_digit(m % 8))
    }
}

/// The octal digit of `d` as a string.
fn octal_str(d: u32) -> (r: &'static str)
    requires
        d < 8,
    ensures
        r@ == seq![octal_digit(d as nat)],
{
    proof {
        reveal_strlit("0");
        reveal_strlit("1");
        reveal_strlit("2");
        reveal_strlit("3");
        reveal_strlit("4");
        reveal_strlit("5");
        reveal_strlit("6");
        reveal_strlit("7");
    }
    let r = if d == 0 {
        "0"
    } else if d == 1 {
        "1"
    } else if d == 2 {
        "2"
    } else if d == 3 {
        "3"
    } else if d == 4 {
        "4"
    } else if d == 5 {
        "5"
    } else if d == 6 {
        "6"
    } else {
        "7"
    };
    assert(r@ =~= seq![octal_digit(d as nat)]);
    r
}

/// The octal numeral of `m`, zero-padded to at least `width` digits.
fn octal_string(m: u32, width: u32) -> (r: String)
    ensures
        r@ == octal(m as nat, width as nat),
    decreases m + width,
{
    if m < 8 && width <= 1 {
        octal_str(m).to_owned()
    } else {
        let next = if width > 0 {
            width - 1
        } else {
            0
        };
        let mut r = octal_string(m / 8, next);
        r.append(octal_str(m % 8));
        r
    }
}

/// A file mode as tree listings print it: octal, at least six digits.
pub fn mode_label(mode: u32) -> (r: String)
    ensures
        r@ == octal(mode as nat, 6),
{
    octal_string(mode, 6)
}

/// Restricts tree `root` of the store to the paths that the patterns select.
///
/// The result lists the trees to write, children first; a directory that a
/// pattern selects whole keeps its original id, and directories with nothing
/// left are dropped. The walk keeps the directories of the current path on
/// an explicit stack, so deep trees do not deepen the call stack.
pub fn filter_tree(st: &TreeStore, root: usize, ps: &Vec<Pattern>) -> (r: Result<
    FilteredTree,
    FilterError,
>)
    requires
        patterns_wf(ps@),
    ensures
        r matches Err(FilterError::InvalidTreeish) <==> root >= st.trees@.len(),
        r matches Err(FilterError::MalformedStore) <==> root < st.trees@.len() && !st.wf(),
        r matches Ok(f) ==> f.wf() && f.entries() == filter_at(*st, root as int, seq![], ps@),
{
    if root >= st.trees.len() {
        return Err(FilterError::InvalidTreeish);
    }
    if !store_is_wf(st) {
        return Err(FilterError::MalformedStore);
    }
    let (mut out, res) = filter_stack(st, root, ps);
    match res {
        Some(o) => Ok(FilteredTree { trees: out, root: o }),
        None => {
            let ghost out1 = out@;
            let o = out.len();
            out.push(Vec::new());
            proof {
                assert(closed(out@)) by {
                    assert forall|x: int| 0 <= x < out@.len() implies children_below(#[trigger] out@[x]@, x) by {
                        if x < o {
                            assert(out@[x] == out1[x]);
                        }
                    }
                }
                assert(node_view(out@, o as int) =~= Seq::<FilteredNode>::empty());
            }
            Ok(FilteredTree { trees: out, root: o })
        },
    }
}


} // verus!
