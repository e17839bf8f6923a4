use vstd::prelude::*;
use vstd::multiset::Multiset;
use crate::attributes::{filter_deps, opt_str_view, selected_deps, VendorDep};
use crate::pattern::Pattern;
use crate::tree::{entry_at, store_is_wf, EntryKind, FilterError, TreeStore};
use crate::text::{chars_of, words};
use crate::attributes::opt_view;

verus! {

/// The operations of the tool.
#[derive(Debug, Clone, Copy, PartialEq, Eq, Structural)]
pub enum Operation {
    Track,
    Untrack,
    Status,
    Fetch,
    Merge,
}

/// Why an operation was refused or failed.
#[derive(Debug, Clone, Copy, PartialEq, Eq, Structural)]
pub enum VendorError {
    /// The repository has no working tree.
    BareRepository,
    /// No declared dependency is selected; the operation is named.
    NoDependencies(Operation),
    /// The index differs from the tree of `HEAD`.
    DirtyIndex,
    /// A dependency to merge has not been fetched.
    MissingFetch,
    /// A pattern is empty.
    InvalidPattern,
    /// A name does not resolve to a tree.
    InvalidTreeish,
    /// The object store holds a malformed tree.
    ObjectStore,
}

/// The message reported for an error.
pub open spec fn error_message(e: VendorError) -> Seq<char> {
    match e {
        VendorError::BareRepository => "This operation is not supported in a bare repository"@,
        VendorError::NoDependencies(Operation::Fetch) => "No vendored dependencies to fetch"@,
        VendorError::NoDependencies(Operation::Merge) => "No vendored dependencies to merge"@,
        VendorError::NoDependencies(_) => "No vendored dependencies"@,
        VendorError::DirtyIndex => "Cannot merge: the index has uncommitted changes"@,
        VendorError::MissingFetch => "Dependency has not been fetched"@,
        VendorError::InvalidPattern => "Invalid pattern: it is empty"@,
        VendorError::InvalidTreeish => "The given object is not a tree"@,
        VendorError::ObjectStore => "The object store holds a malformed tree"@,
    }
}

impl VendorError {
    /// The one-line message for this error.
    pub fn message(&self) -> (r: String)
        ensures
            r@ == error_message(*self),
    {
        match self {
            VendorError::BareRepository => "This operation is not supported in a bare repository".to_owned(),
            VendorError::NoDependencies(Operation::Fetch) => "No vendored dependencies to fetch".to_owned(),
            VendorError::NoDependencies(Operation::Merge) => "No vendored dependencies to merge".to_owned(),
            VendorError::NoDependencies(_) => "No vendored dependencies".to_owned(),
            VendorError::DirtyIndex => "Cannot merge: the index has uncommitted changes".to_owned(),
            VendorError::MissingFetch => "Dependency has not been fetched".to_owned(),
            VendorError::InvalidPattern => "Invalid pattern: it is empty".to_owned(),
            VendorError::InvalidTreeish => "The given object is not a tree".to_owned(),
            VendorError::ObjectStore => "The object store holds a malformed tree".to_owned(),
        }
    }
}

/// Refuses a bare repository.
pub fn require_non_bare(is_bare: bool) -> (r: Result<(), VendorError>)
    ensures
        r == if is_bare {
            Err::<(), VendorError>(VendorError::BareRepository)
        } else {
            Ok(())
        },
{
    if is_bare {
        Err(VendorError::BareRepository)
    } else {
        Ok(())
    }
}

/// The outcome of the checks that precede `op`, over the declared
/// dependencies: a bare repository is refused; fetch and merge need a
/// selected dependency; merge needs an index equal to `HEAD`'s tree.
pub open spec fn preflight_outcome(
    op: Operation,
    is_bare: bool,
    selected: Seq<VendorDep>,
    index_clean: bool,
) -> Result<(), VendorError> {
    if is_bare {
        Err(VendorError::BareRepository)
    } else if (op == Operation::Fetch || op == Operation::Merge) && selected.len() == 0 {
        Err(VendorError::NoDependencies(op))
    } else if op == Operation::Merge && !index_clean {
        Err(VendorError::DirtyIndex)
    } else {
        Ok(())
    }
}

/// Every operation is refused on a bare repository, whatever else holds.
pub proof fn lemma_bare_repository_rejected(
    op: Operation,
    selected: Seq<VendorDep>,
    index_clean: bool,
)
    ensures
        preflight_outcome(op, true, selected, index_clean) == Err::<(), VendorError>(
            VendorError::BareRepository,
        ),
{
}

/// Runs the checks that precede `op` and selects the dependencies it works
/// on: those whose pattern is `filter`, or all of them.
pub fn preflight<'a>(
    op: Operation,
    is_bare: bool,
    deps: &'a [VendorDep],
    filter: Option<&str>,
    index_clean: bool,
) -> (r: Result<Vec<&'a VendorDep>, VendorError>)
    ensures
        match r {
            Ok(v) => preflight_outcome(op, is_bare, selected_deps(deps@, opt_str_view(filter)), index_clean) is Ok
                && v@.map_values(|d: &VendorDep| *d) == selected_deps(deps@, opt_str_view(filter)),
            Err(e) => preflight_outcome(op, is_bare, selected_deps(deps@, opt_str_view(filter)), index_clean) == Err::<(), VendorError>(e),
        },
{
    require_non_bare(is_bare)?;
    let selected = filter_deps(deps, filter);
    assert(selected@.map_values(|d: &VendorDep| *d).len() == selected@.len());
    if (op == Operation::Fetch || op == Operation::Merge) && selected.len() == 0 {
        return Err(VendorError::NoDependencies(op));
    }
    if op == Operation::Merge && !index_clean {
        return Err(VendorError::DirtyIndex);
    }
    Ok(selected)
}


/// A file of a flattened tree: its path from the root, mode and blob id.
#[derive(Debug, Clone)]
pub struct PathEntry {
    pub path: String,
    pub mode: u32,
    pub oid: String,
}

/// The content of an entry: its mode and object id.
pub open spec fn version(e: PathEntry) -> (u32, Seq<char>) {
    (e.mode, e.oid@)
}

/// The content recorded for `p` in a listing: that of its last entry for `p`.
pub open spec fn lookup(s: Seq<PathEntry>, p: Seq<char>) -> Option<(u32, Seq<char>)>
    decreases s.len(),
{
    if s.len() == 0 {
        None
    } else if s.last().path@ == p {
        Some(version(s.last()))
    } else {
        lookup(s.drop_last(), p)
    }
}

/// No two entries of the listing share a path.
pub open spec fn paths_unique(s: Seq<PathEntry>) -> bool {
    forall|i: int, j: int| 0 <= i < j < s.len() ==> (#[trigger] s[i]).path@ != (#[trigger] s[j]).path@
}

/// How the merge settles one path.
pub enum Resolution {
    /// The path takes this content, or is absent.
    Take(Option<(u32, Seq<char>)>),
    /// Both sides changed the path, differently.
    Conflict,
}

/// The three-way rule for one path: unchanged upstream keeps ours; changed
/// upstream only takes theirs (additions and deletions included); changed
/// alike on both sides keeps it; changed differently is a conflict.
pub open spec fn three_way(
    base: Option<(u32, Seq<char>)>,
    ours: Option<(u32, Seq<char>)>,
    theirs: Option<(u32, Seq<char>)>,
) -> Resolution {
    if theirs == base {
        Resolution::Take(ours)
    } else if ours == base {
        Resolution::Take(theirs)
    } else if ours == theirs {
        Resolution::Take(ours)
    } else {
        Resolution::Conflict
    }
}

/// How the merge settles path `p`: inside the destination (the paths the
/// pattern matches) by the three-way rule; elsewhere the host stays.
pub open spec fn merged_at(
    head: Seq<PathEntry>,
    base: Seq<PathEntry>,
    theirs: Seq<PathEntry>,
    pattern: Pattern,
    p: Seq<char>,
) -> Resolution {
    if pattern.matches_path(words(p, true)) {
        three_way(lookup(base, p), lookup(head, p), lookup(theirs, p))
    } else {
        Resolution::Take(lookup(head, p))
    }
}

/// The content that path `p` has after the merge; a conflicted path is not
/// written.
pub open spec fn merged_content(
    head: Seq<PathEntry>,
    base: Seq<PathEntry>,
    theirs: Seq<PathEntry>,
    pattern: Pattern,
    p: Seq<char>,
) -> Option<(u32, Seq<char>)> {
    match merged_at(head, base, theirs, pattern, p) {
        Resolution::Take(v) => v,
        Resolution::Conflict => None,
    }
}

/// The content of a file at one side of a merge: its mode and blob id.
#[derive(Debug, Clone)]
pub struct Version {
    pub mode: u32,
    pub oid: String,
}

/// The content of an optional version, as values.
pub open spec fn version_of(v: Option<Version>) -> Option<(u32, Seq<char>)> {
    match v {
        Some(x) => Some((x.mode, x.oid@)),
        None => None,
    }
}

/// A path left in conflict, with what the base, the host and upstream hold
/// there (absent where a side has no file).
#[derive(Debug, Clone)]
pub struct Conflict {
    pub path: String,
    pub base: Option<Version>,
    pub ours: Option<Version>,
    pub theirs: Option<Version>,
}

/// The paths of a list of conflicts.
pub open spec fn conflict_paths(cs: Seq<Conflict>) -> Seq<Seq<char>> {
    cs.map_values(|c: Conflict| c.path@)
}

/// A conflict records the three sides' content at its path.
pub open spec fn conflict_ok(
    head: Seq<PathEntry>,
    base: Seq<PathEntry>,
    theirs: Seq<PathEntry>,
    c: Conflict,
) -> bool {
    &&& version_of(c.base) == lookup(base, c.path@)
    &&& version_of(c.ours) == lookup(head, c.path@)
    &&& version_of(c.theirs) == lookup(theirs, c.path@)
}

/// The content of an optional entry, copied.
fn version_copy(e: Option<&PathEntry>) -> (r: Option<Version>)
    ensures
        version_of(r) == opt_version(e),
{
    match e {
        Some(x) => Some(Version { mode: x.mode, oid: x.oid.clone() }),
        None => None,
    }
}

/// The result of merging one dependency into the host tree.
#[derive(Debug, Clone)]
pub struct MergeResult {
    /// The files of the merged tree.
    pub entries: Vec<PathEntry>,
    /// The paths left in conflict, with the content of each side.
    pub conflicts: Vec<Conflict>,
}

/// The character sequences of a list of strings.
pub open spec fn strings_view(v: Seq<String>) -> Seq<Seq<char>> {
    v.map_values(|s: String| s@)
}

/// The content of an optional entry.
pub open spec fn opt_version(e: Option<&PathEntry>) -> Option<(u32, Seq<char>)> {
    match e {
        Some(x) => Some(version(*x)),
        None => None,
    }
}

/// The last entry of `s` for path `p`.
fn find_path<'a>(s: &'a Vec<PathEntry>, p: &String) -> (r: Option<&'a PathEntry>)
    ensures
        opt_version(r) == lookup(s@, p@),
{
    let mut i = s.len();
    assert(s@.subrange(0, i as int) =~= s@);
    while i > 0
        invariant
            i <= s@.len(),
            lookup(s@, p@) == lookup(s@.subrange(0, i as int), p@),
        decreases i,
    {
        let e = &s[i - 1];
        assert(s@.subrange(0, i as int).drop_last() =~= s@.subrange(0, i - 1));
        if e.path == *p {
            return Some(e);
        }
        i = i - 1;
    }
    None
}

/// Whether two optional entries have the same content.
fn same_version(a: Option<&PathEntry>, b: Option<&PathEntry>) -> (r: bool)
    ensures
        r == (opt_version(a) == opt_version(b)),
{
    match (a, b) {
        (Some(x), Some(y)) => x.mode == y.mode && x.oid == y.oid,
        (None, None) => true,
        _ => false,
    }
}

/// The three-way rule on entries: `None` for a conflict, else the entry
/// whose content the path takes.
fn resolve<'a>(
    base: Option<&'a PathEntry>,
    ours: Option<&'a PathEntry>,
    theirs: Option<&'a PathEntry>,
) -> (r: Option<Option<&'a PathEntry>>)
    ensures
        match r {
            None => three_way(opt_version(base), opt_version(ours), opt_version(theirs)) is Conflict,
            Some(x) => three_way(opt_version(base), opt_version(ours), opt_version(theirs))
                == Resolution::Take(opt_version(x)),
        },
{
    if same_version(theirs, base) {
        Some(ours)
    } else if same_version(ours, base) {
        Some(theirs)
    } else if same_version(ours, theirs) {
        Some(ours)
    } else {
        None
    }
}

/// The state of the merge after the paths of `done` were settled.
pub open spec fn settled(
    head: Seq<PathEntry>,
    base: Seq<PathEntry>,
    theirs: Seq<PathEntry>,
    pattern: Pattern,
    done: Seq<Seq<char>>,
    entries: Seq<PathEntry>,
    conflicts: Seq<Conflict>,
) -> bool {
    &&& paths_unique(entries)
    &&& forall|p: Seq<char>|
        #[trigger] lookup(entries, p) == if done.contains(p) {
            merged_content(head, base, theirs, pattern, p)
        } else {
            None
        }
    &&& forall|i: int| 0 <= i < conflicts.len() ==> conflict_ok(head, base, theirs, #[trigger] conflicts[i])
    &&& forall|p: Seq<char>|
        #[trigger] conflict_paths(conflicts).contains(p) <==> done.contains(p) && merged_at(
            head,
            base,
            theirs,
            pattern,
            p,
        ) is Conflict
}

/// A listing holds path `p` exactly where `lookup` finds it.
proof fn lemma_lookup_contains(s: Seq<PathEntry>, p: Seq<char>)
    ensures
        lookup(s, p) is Some <==> exists|i: int| 0 <= i < s.len() && (#[trigger] s[i]).path@ == p,
    decreases s.len(),
{
    if s.len() > 0 {
        lemma_lookup_contains(s.drop_last(), p);
        if lookup(s.drop_last(), p) is Some {
            let i = choose|i: int| 0 <= i < s.drop_last().len() && (#[trigger] s.drop_last()[i]).path@ == p;
            assert(s[i] == s.drop_last()[i]);
        }
        if exists|i: int| 0 <= i < s.len() && (#[trigger] s[i]).path@ == p {
            let i = choose|i: int| 0 <= i < s.len() && (#[trigger] s[i]).path@ == p;
            if i < s.len() - 1 {
                assert(s.drop_last()[i] == s[i]);
            }
        }
    }
}

/// Settles path `p`, not settled before, by the rule.
fn settle(
    head: &Vec<PathEntry>,
    base: &Vec<PathEntry>,
    theirs: &Vec<PathEntry>,
    pattern: &Pattern,
    p: &String,
    entries: &mut Vec<PathEntry>,
    conflicts: &mut Vec<Conflict>,
    seen: &mut Vec<String>,
)
    requires
        pattern.wf(),
        !strings_view(old(seen)@).contains(p@),
        settled(head@, base@, theirs@, *pattern, strings_view(old(seen)@), old(entries)@, old(conflicts)@),
    ensures
        strings_view(final(seen)@) == strings_view(old(seen)@).push(p@),
        settled(head@, base@, theirs@, *pattern, strings_view(final(seen)@), final(entries)@, final(conflicts)@),
{
    let ghost done = strings_view(seen@);
    let ghost done2 = done.push(p@);
    assert forall|q: Seq<char>| done2.contains(q) <==> (done.contains(q) || q == p@) by {
        if done2.contains(q) && q != p@ {
            let i = choose|i: int| 0 <= i < done2.len() && done2[i] == q;
            assert(done[i] == q);
        }
        if done.contains(q) {
            let i = choose|i: int| 0 <= i < done.len() && done[i] == q;
            assert(done2[i] == q);
        }
        if q == p@ {
            assert(done2[done.len() as int] == q);
        }
    }
    let ghost e0 = entries@;
    let ghost c0 = conflict_paths(conflicts@);
    let ghost cs0 = conflicts@;
    let ours = find_path(head, p);
    let base_entry = find_path(base, p);
    let theirs_entry = find_path(theirs, p);
    let in_dest = pattern.matches_str(p.as_str());
    let pick = if in_dest {
        resolve(base_entry, ours, theirs_entry)
    } else {
        Some(ours)
    };
    assert(match pick {
        None => merged_at(head@, base@, theirs@, *pattern, p@) is Conflict,
        Some(x) => merged_at(head@, base@, theirs@, *pattern, p@) == Resolution::Take(opt_version(x)),
    });
    match pick {
        None => {
            conflicts.push(
                Conflict {
                    path: p.clone(),
                    base: version_copy(base_entry),
                    ours: version_copy(ours),
                    theirs: version_copy(theirs_entry),
                },
            );
            assert(conflict_paths(conflicts@) =~= c0.push(p@));
            assert forall|i: int| 0 <= i < conflicts@.len() implies conflict_ok(head@, base@, theirs@, #[trigger] conflicts@[i]) by {
                if i < cs0.len() {
                    assert(conflicts@[i] == cs0[i]);
                }
            }
        },
        Some(Some(x)) => {
            entries.push(PathEntry { path: p.clone(), mode: x.mode, oid: x.oid.clone() });
            assert(entries@.drop_last() =~= e0);
            assert(lookup(e0, p@) is None);
            proof {
                lemma_lookup_contains(e0, p@);
                assert forall|i: int, j: int| 0 <= i < j < entries@.len() implies (#[trigger] entries@[i]).path@ != (#[trigger] entries@[j]).path@ by {
                    if j == entries@.len() - 1 {
                        assert(entries@[i] == e0[i]);
                    } else {
                        assert(entries@[i] == e0[i]);
                        assert(entries@[j] == e0[j]);
                    }
                }
            }
        },
        Some(None) => {},
    }
    assert forall|q: Seq<char>| #[trigger] lookup(entries@, q) == if done2.contains(q) {
        merged_content(head@, base@, theirs@, *pattern, q)
    } else {
        None
    } by {
        assert(lookup(e0, q) == if done.contains(q) {
            merged_content(head@, base@, theirs@, *pattern, q)
        } else {
            None
        });
        if pick matches Some(Some(x)) {
            assert(entries@.drop_last() =~= e0);
            assert(entries@.last().path@ == p@);
        } else {
            assert(entries@ == e0);
        }
    }
    assert forall|q: Seq<char>| #[trigger] conflict_paths(conflicts@).contains(q) <==> done2.contains(q) && merged_at(head@, base@, theirs@, *pattern, q) is Conflict by {
        if pick is None {
            if conflict_paths(conflicts@).contains(q) && q != p@ {
                let i = choose|i: int| 0 <= i < conflict_paths(conflicts@).len() && conflict_paths(conflicts@)[i] == q;
                assert(c0[i] == q);
            }
            if c0.contains(q) {
                let i = choose|i: int| 0 <= i < c0.len() && c0[i] == q;
                assert(conflict_paths(conflicts@)[i] == q);
            }
            if q == p@ {
                assert(conflict_paths(conflicts@)[c0.len() as int] == q);
            }
        } else {
            assert(conflict_paths(conflicts@) == c0);
        }
    }
    seen.push(p.clone());
    assert(strings_view(seen@) =~= done2);
}

/// Whether `p` is among `seen`.
fn seen_contains(seen: &Vec<String>, p: &String) -> (r: bool)
    ensures
        r == strings_view(seen@).contains(p@),
{
    let mut i: usize = 0;
    while i < seen.len()
        invariant
            i <= seen@.len(),
            forall|k: int| 0 <= k < i ==> seen@[k]@ != p@,
        decreases seen@.len() - i,
    {
        if seen[i] == *p {
            assert(strings_view(seen@)[i as int] == p@);
            return true;
        }
        i = i + 1;
    }
    assert(!strings_view(seen@).contains(p@)) by {
        if strings_view(seen@).contains(p@) {
            let k = choose|k: int| 0 <= k < strings_view(seen@).len() && strings_view(seen@)[k] == p@;
            assert(seen@[k]@ == p@);
        }
    }
    false
}

/// Settles every path of `src` not settled before.
fn settle_listing(
    src: &Vec<PathEntry>,
    head: &Vec<PathEntry>,
    base: &Vec<PathEntry>,
    theirs: &Vec<PathEntry>,
    pattern: &Pattern,
    entries: &mut Vec<PathEntry>,
    conflicts: &mut Vec<Conflict>,
    seen: &mut Vec<String>,
)
    requires
        pattern.wf(),
        settled(head@, base@, theirs@, *pattern, strings_view(old(seen)@), old(entries)@, old(conflicts)@),
    ensures
        settled(head@, base@, theirs@, *pattern, strings_view(final(seen)@), final(entries)@, final(conflicts)@),
        forall|q: Seq<char>| strings_view(old(seen)@).contains(q) ==> #[trigger] strings_view(final(seen)@).contains(q),
        forall|k: int| 0 <= k < src@.len() ==> strings_view(final(seen)@).contains(#[trigger] src@[k].path@),
{
    let ghost seen0 = strings_view(seen@);
    let mut i: usize = 0;
    while i < src.len()
        invariant
            i <= src@.len(),
            pattern.wf(),
            settled(head@, base@, theirs@, *pattern, strings_view(seen@), entries@, conflicts@),
            forall|q: Seq<char>| seen0.contains(q) ==> #[trigger] strings_view(seen@).contains(q),
            forall|k: int| 0 <= k < i ==> strings_view(seen@).contains(#[trigger] src@[k].path@),
        decreases src@.len() - i,
    {
        let p = &src[i].path;
        if !seen_contains(seen, p) {
            let ghost before = strings_view(seen@);
            settle(head, base, theirs, pattern, p, entries, conflicts, seen);
            assert forall|q: Seq<char>| before.contains(q) implies #[trigger] strings_view(seen@).contains(q) by {
                let j = choose|j: int| 0 <= j < before.len() && before[j] == q;
                assert(strings_view(seen@)[j] == q);
            }
            assert(strings_view(seen@)[before.len() as int] == p@);
        }
        i = i + 1;
    }
}

/// Merges upstream content into the host listing `head`: paths inside the
/// destination (those `pattern` matches) go by the three-way rule over
/// `base`, `head` and `theirs`; every other path of the host stays as it is.
/// Conflicted paths are reported and not written.
pub fn merge_listing(
    head: &Vec<PathEntry>,
    base: &Vec<PathEntry>,
    theirs: &Vec<PathEntry>,
    pattern: &Pattern,
) -> (r: MergeResult)
    requires
        pattern.wf(),
    ensures
        paths_unique(r.entries@),
        forall|p: Seq<char>|
            #[trigger] lookup(r.entries@, p) == merged_content(head@, base@, theirs@, *pattern, p),
        forall|i: int|
            0 <= i < r.conflicts@.len() ==> conflict_ok(head@, base@, theirs@, #[trigger] r.conflicts@[i]),
        forall|p: Seq<char>|
            #[trigger] conflict_paths(r.conflicts@).contains(p) <==> merged_at(
                head@,
                base@,
                theirs@,
                *pattern,
                p,
            ) is Conflict,
{
    let mut entries: Vec<PathEntry> = Vec::new();
    let mut conflicts: Vec<Conflict> = Vec::new();
    let mut seen: Vec<String> = Vec::new();
    assert(conflict_paths(conflicts@) =~= Seq::<Seq<char>>::empty());
    assert(strings_view(seen@) =~= Seq::<Seq<char>>::empty());
    settle_listing(head, head, base, theirs, pattern, &mut entries, &mut conflicts, &mut seen);
    let ghost s1 = strings_view(seen@);
    settle_listing(theirs, head, base, theirs, pattern, &mut entries, &mut conflicts, &mut seen);
    let ghost s2 = strings_view(seen@);
    settle_listing(base, head, base, theirs, pattern, &mut entries, &mut conflicts, &mut seen);
    proof {
        let done = strings_view(seen@);
        assert forall|p: Seq<char>| !done.contains(p) implies merged_content(head@, base@, theirs@, *pattern, p) is None && !(merged_at(head@, base@, theirs@, *pattern, p) is Conflict) by {
            lemma_lookup_contains(head@, p);
            lemma_lookup_contains(theirs@, p);
            lemma_lookup_contains(base@, p);
            if lookup(head@, p) is Some {
                let k = choose|k: int| 0 <= k < head@.len() && (#[trigger] head@[k]).path@ == p;
                assert(s1.contains(head@[k].path@));
                assert(s2.contains(p));
            }
            if lookup(theirs@, p) is Some {
                let k = choose|k: int| 0 <= k < theirs@.len() && (#[trigger] theirs@[k]).path@ == p;
                assert(s2.contains(theirs@[k].path@));
            }
            if lookup(base@, p) is Some {
                let k = choose|k: int| 0 <= k < base@.len() && (#[trigger] base@[k]).path@ == p;
                assert(done.contains(base@[k].path@));
            }
        }
    }
    MergeResult { entries, conflicts }
}

/// How a merge is to be completed.
#[derive(Debug, Clone, Copy, PartialEq, Eq, Structural)]
pub enum Completion {
    /// Conflicts remain: nothing is committed and the merge state is kept
    /// for a later commit.
    Conflicted,
    /// The result is staged and not committed.
    Staged,
    /// The result is committed; `squash` gives it the host's head as only
    /// parent, else the vendor commit is its second parent.
    Commit { squash: bool },
}

/// How a merge with or without conflicts completes under the options.
pub open spec fn completion_of(has_conflicts: bool, no_commit: bool, squash: bool) -> Completion {
    if has_conflicts {
        Completion::Conflicted
    } else if no_commit {
        Completion::Staged
    } else {
        Completion::Commit { squash }
    }
}

/// Decides how a merge completes: conflicts stop it before any commit;
/// otherwise it is staged only, or committed.
pub fn complete_merge(has_conflicts: bool, no_commit: bool, squash: bool) -> (r: Completion)
    ensures
        r == completion_of(has_conflicts, no_commit, squash),
{
    if has_conflicts {
        Completion::Conflicted
    } else if no_commit {
        Completion::Staged
    } else {
        Completion::Commit { squash }
    }
}

/// The parents of the commit that records a merge: the host's head, then,
/// unless the merge is squashed, the vendor commits in merge order.
pub fn commit_parents(squash: bool, head: &String, vendors: &Vec<String>) -> (r: Vec<String>)
    ensures
        strings_view(r@) == if squash {
            seq![head@]
        } else {
            seq![head@] + strings_view(vendors@)
        },
{
    let mut parents: Vec<String> = Vec::new();
    parents.push(head.clone());
    assert(strings_view(parents@) =~= seq![head@]);
    if !squash {
        let mut i: usize = 0;
        while i < vendors.len()
            invariant
                i <= vendors@.len(),
                strings_view(parents@) == seq![head@] + strings_view(vendors@.subrange(0, i as int)),
            decreases vendors@.len() - i,
        {
            let ghost before = strings_view(parents@);
            parents.push(vendors[i].clone());
            assert(strings_view(parents@) =~= before.push(vendors@[i as int]@));
            assert(strings_view(vendors@.subrange(0, i + 1)) =~= strings_view(
                vendors@.subrange(0, i as int),
            ).push(vendors@[i as int]@));
            i = i + 1;
        }
        assert(vendors@.subrange(0, vendors@.len() as int) =~= vendors@);
    }
    parents
}

/// The message of the commit that merges `dep`: the caller's, else a summary
/// that names the dependency and where it comes from.
pub open spec fn merge_message_of(message: Option<Seq<char>>, dep: VendorDep) -> Seq<char> {
    match message {
        Some(m) => m,
        None => "Merge vendored dependency '"@ + dep.pattern@ + "' from "@ + dep.url@ + match opt_view(
            dep.reference,
        ) {
            Some(b) => " ("@ + b + ")"@,
            None => Seq::empty(),
        },
    }
}

/// The message of the commit that merges `dep`.
pub fn merge_message(message: Option<&str>, dep: &VendorDep) -> (r: String)
    ensures
        r@ == merge_message_of(opt_str_view(message), *dep),
{
    match message {
        Some(m) => m.to_owned(),
        None => {
            let mut r = "Merge vendored dependency '".to_owned();
            r.append(dep.pattern.as_str());
            r.append("' from ");
            r.append(dep.url.as_str());
            match &dep.reference {
                Some(b) => {
                    r.append(" (");
                    r.append(b.as_str());
                    r.append(")");
                },
                None => {},
            }
            assert(r@ =~= merge_message_of(opt_str_view(message), *dep));
            r
        },
    }
}

/// The summaries of merging `deps`, one line each.
pub open spec fn summaries(deps: Seq<&VendorDep>) -> Seq<char>
    decreases deps.len(),
{
    if deps.len() == 0 {
        seq![]
    } else if deps.len() == 1 {
        merge_message_of(None, *deps[0])
    } else {
        summaries(deps.drop_last()) + seq!['\n'] + merge_message_of(None, *deps.last())
    }
}

/// The message of the commit that records a merge of `deps`: the caller's,
/// else one summary line per dependency.
pub fn merge_commit_message(message: Option<&str>, deps: &Vec<&VendorDep>) -> (r: String)
    ensures
        r@ == match message {
            Some(m) => m@,
            None => summaries(deps@),
        },
{
    match message {
        Some(m) => m.to_owned(),
        None => {
            let newline = "\n";
            proof {
                reveal_strlit("\n");
                assert(newline@ =~= seq!['\n']);
            }
            let mut r = String::new();
            let mut i: usize = 0;
            assert(deps@.subrange(0, 0) =~= Seq::<&VendorDep>::empty());
            while i < deps.len()
                invariant
                    i <= deps@.len(),
                    newline@ == seq!['\n'],
                    r@ == summaries(deps@.subrange(0, i as int)),
                decreases deps@.len() - i,
            {
                if i > 0 {
                    r.append(newline);
                }
                let line = merge_message(None, deps[i]);
                r.append(line.as_str());
                assert(deps@.subrange(0, i + 1).drop_last() =~= deps@.subrange(0, i as int));
                assert(r@ =~= summaries(deps@.subrange(0, i + 1)));
                i = i + 1;
            }
            assert(deps@.subrange(0, deps@.len() as int) =~= deps@);
            r
        },
    }
}

/// What a merge reports: the conflicted paths, whether the result was
/// applied, and the commit made, if any.
#[derive(Debug, Clone)]
pub struct MergeReport {
    pub conflicts: Vec<String>,
    pub applied: bool,
    pub commit_id: Option<String>,
}


/// Lexical order of character sequences, by code point.
pub open spec fn lex_le(a: Seq<char>, b: Seq<char>) -> bool
    decreases a.len(),
{
    if a.len() == 0 {
        true
    } else if b.len() == 0 {
        false
    } else if a[0] != b[0] {
        a[0] < b[0]
    } else {
        lex_le(a.drop_first(), b.drop_first())
    }
}

/// Any two sequences are ordered one way or the other.
proof fn lemma_lex_total(a: Seq<char>, b: Seq<char>)
    ensures
        lex_le(a, b) || lex_le(b, a),
    decreases a.len(),
{
    if a.len() > 0 && b.len() > 0 && a[0] == b[0] {
        lemma_lex_total(a.drop_first(), b.drop_first());
    }
}

/// The lexical order is transitive.
proof fn lemma_lex_trans(a: Seq<char>, b: Seq<char>, c: Seq<char>)
    requires
        lex_le(a, b),
        lex_le(b, c),
    ensures
        lex_le(a, c),
    decreases a.len(),
{
    if a.len() > 0 && b.len() > 0 && c.len() > 0 && a[0] == b[0] && b[0] == c[0] {
        lemma_lex_trans(a.drop_first(), b.drop_first(), c.drop_first());
    }
}

/// Whether `a` comes before `b`, or equals it, in lexical order.
fn chars_le(a: &Vec<char>, b: &Vec<char>) -> (r: bool)
    ensures
        r == lex_le(a@, b@),
{
    let mut i: usize = 0;
    assert(a@.skip(0) =~= a@);
    assert(b@.skip(0) =~= b@);
    while i < a.len() && i < b.len() && a[i] == b[i]
        invariant
            i <= a@.len(),
            i <= b@.len(),
            lex_le(a@, b@) == lex_le(a@.skip(i as int), b@.skip(i as int)),
        decreases a@.len() - i,
    {
        assert(a@.skip(i as int).drop_first() =~= a@.skip(i + 1));
        assert(b@.skip(i as int).drop_first() =~= b@.skip(i + 1));
        i = i + 1;
    }
    if i == a.len() {
        true
    } else if i == b.len() {
        false
    } else {
        assert(a@.skip(i as int)[0] == a@[i as int]);
        assert(b@.skip(i as int)[0] == b@[i as int]);
        a[i] < b[i]
    }
}

/// Whether the dependencies are in lexical order of their patterns.
pub open spec fn sorted_by_pattern(s: Seq<&VendorDep>) -> bool {
    forall|i: int, j: int| 0 <= i < j < s.len() ==> lex_le((#[trigger] s[i]).pattern@, (#[trigger] s[j]).pattern@)
}

/// Puts the dependencies in the order a merge processes them: lexical order
/// of their patterns.
pub fn merge_order<'a>(deps: Vec<&'a VendorDep>) -> (r: Vec<&'a VendorDep>)
    ensures
        r@.to_multiset() == deps@.to_multiset(),
        sorted_by_pattern(r@),
{
    let mut rest = deps;
    let mut keys: Vec<Vec<char>> = Vec::new();
    let mut i: usize = 0;
    while i < rest.len()
        invariant
            i <= rest@.len(),
            keys@.len() == i,
            forall|k: int| 0 <= k < i ==> (#[trigger] keys@[k])@ == rest@[k].pattern@,
        decreases rest@.len() - i,
    {
        keys.push(chars_of(rest[i].pattern.as_str()));
        i = i + 1;
    }
    let ghost all = rest@;
    let mut out: Vec<&'a VendorDep> = Vec::new();
    proof {
        out@.to_multiset_ensures();
        assert(out@.to_multiset() =~= Multiset::empty());
        assert(out@.to_multiset().add(rest@.to_multiset()) =~= all.to_multiset());
    }
    while rest.len() > 0
        invariant
            keys@.len() == rest@.len(),
            forall|k: int| 0 <= k < rest@.len() ==> (#[trigger] keys@[k])@ == rest@[k].pattern@,
            out@.to_multiset().add(rest@.to_multiset()) == all.to_multiset(),
            sorted_by_pattern(out@),
            forall|a: int, b: int| 0 <= a < out@.len() && 0 <= b < rest@.len() ==> lex_le((#[trigger] out@[a]).pattern@, (#[trigger] rest@[b]).pattern@),
        decreases rest@.len(),
    {
        let mut m: usize = 0;
        let mut j: usize = 1;
        proof {
            lemma_lex_total(rest@[0].pattern@, rest@[0].pattern@);
        }
        while j < rest.len()
            invariant
                keys@.len() == rest@.len(),
                forall|k: int| 0 <= k < rest@.len() ==> (#[trigger] keys@[k])@ == rest@[k].pattern@,
                rest@.len() > 0,
                m < j <= rest@.len(),
                forall|k: int| 0 <= k < j ==> lex_le(rest@[m as int].pattern@, (#[trigger] rest@[k]).pattern@),
            decreases rest@.len() - j,
        {
            if !chars_le(&keys[m], &keys[j]) {
                proof {
                    lemma_lex_total(keys@[m as int]@, keys@[j as int]@);
                    assert forall|k: int| 0 <= k < j + 1 implies lex_le(rest@[j as int].pattern@, (#[trigger] rest@[k]).pattern@) by {
                        if k < j {
                            lemma_lex_trans(rest@[j as int].pattern@, rest@[m as int].pattern@, rest@[k].pattern@);
                        } else {
                            lemma_lex_total(rest@[j as int].pattern@, rest@[j as int].pattern@);
                        }
                    }
                }
                m = j;
            }
            j = j + 1;
        }
        let ghost before = rest@;
        let ghost out0 = out@;
        let d = rest.remove(m);
        keys.remove(m);
        out.push(d);
        proof {
            before.to_multiset_ensures();
            out0.to_multiset_ensures();
            assert(before.remove(m as int) == rest@);
            assert(out@ == out0.push(d));
            assert(out@.to_multiset().add(rest@.to_multiset()) =~= all.to_multiset());
            assert forall|k: int| 0 <= k < keys@.len() implies (#[trigger] keys@[k])@ == rest@[k].pattern@ by {
                if k < m {
                    assert(rest@[k] == before[k]);
                } else {
                    assert(rest@[k] == before[k + 1]);
                }
            }
            assert forall|a: int, b: int| 0 <= a < out@.len() && 0 <= b < rest@.len() implies lex_le((#[trigger] out@[a]).pattern@, (#[trigger] rest@[b]).pattern@) by {
                let bb = if b < m { b } else { b + 1 };
                assert(rest@[b] == before[bb]);
                if a < out0.len() {
                    assert(out@[a] == out0[a]);
                } else {
                    assert(out@[a] == before[m as int]);
                }
            }
            assert forall|a: int, b: int| 0 <= a < b < out@.len() implies lex_le((#[trigger] out@[a]).pattern@, (#[trigger] out@[b]).pattern@) by {
                if b < out0.len() {
                    assert(out@[a] == out0[a]);
                    assert(out@[b] == out0[b]);
                } else {
                    assert(out@[a] == out0[a]);
                    assert(out@[b] == before[m as int]);
                }
            }
        }
    }
    proof {
        rest@.to_multiset_ensures();
        assert(rest@.to_multiset() =~= Multiset::empty());
        assert(out@.to_multiset() =~= all.to_multiset());
    }
    out
}


/// The files beneath the first `n` entries of tree `t`, whose path starts
/// with `dir`: each blob or submodule with its full path, mode and id, in
/// tree order, subtrees expanded in place.
pub open spec fn flat_prefix(st: TreeStore, t: int, n: int, dir: Seq<char>) -> Seq<
    (Seq<char>, u32, Seq<char>),
>
    decreases st.trees@.len() - t, n,
{
    if !(0 <= t < st.trees@.len()) || n <= 0 || n > st.trees@[t]@.len() {
        seq![]
    } else {
        let prev = flat_prefix(st, t, n - 1, dir);
        let e = entry_at(st, t, n - 1);
        let path = dir + e.name@;
        if e.kind == EntryKind::Tree {
            if t < e.subtree < st.trees@.len() {
                prev + flat_prefix(
                    st,
                    e.subtree as int,
                    st.trees@[e.subtree as int]@.len() as int,
                    path.push('/'),
                )
            } else {
                prev
            }
        } else {
            prev.push((path, e.mode, e.oid@))
        }
    }
}

/// The files beneath tree `t`, whose paths start with `dir`.
pub open spec fn flat_at(st: TreeStore, t: int, dir: Seq<char>) -> Seq<(Seq<char>, u32, Seq<char>)> {
    flat_prefix(st, t, st.trees@[t]@.len() as int, dir)
}

/// A listing as values.
pub open spec fn listing_view(s: Seq<PathEntry>) -> Seq<(Seq<char>, u32, Seq<char>)> {
    s.map_values(|e: PathEntry| (e.path@, e.mode, e.oid@))
}

/// Appends to `out` the files beneath tree `t`, with paths under `dir`.
fn flatten_node(st: &TreeStore, t: usize, dir: &String, out: &mut Vec<PathEntry>)
    requires
        st.wf(),
        t < st.trees@.len(),
    ensures
        listing_view(final(out)@) == listing_view(old(out)@) + flat_at(*st, t as int, dir@),
    decreases st.trees@.len() - t,
{
    let ghost out0 = listing_view(out@);
    let entries = &st.trees[t];
    let mut k: usize = 0;
    assert(out0 + flat_prefix(*st, t as int, 0, dir@) =~= out0);
    while k < entries.len()
        invariant
            st.wf(),
            t < st.trees@.len(),
            entries == st.trees@[t as int],
            k <= entries@.len(),
            listing_view(out@) == out0 + flat_prefix(*st, t as int, k as int, dir@),
        decreases entries@.len() - k,
    {
        let e = &entries[k];
        assert(*e == entry_at(*st, t as int, k as int));
        let ghost before = listing_view(out@);
        let mut path = dir.clone();
        path.append(e.name.as_str());
        if e.kind == EntryKind::Tree {
            path.append("/");
            proof {
                reveal_strlit("/");
            }
            assert(path@ =~= (dir@ + e.name@).push('/'));
            flatten_node(st, e.subtree, &path, out);
            assert(listing_view(out@) =~= out0 + flat_prefix(*st, t as int, k + 1, dir@));
        } else {
            let ghost o = out@;
            out.push(PathEntry { path, mode: e.mode, oid: e.oid.clone() });
            assert(listing_view(out@) =~= listing_view(o).push((dir@ + e.name@, e.mode, e.oid@)));
            assert(listing_view(out@) =~= out0 + flat_prefix(*st, t as int, k + 1, dir@));
        }
        k = k + 1;
    }
}

/// Lists the files beneath tree `root` of the store, with their full paths.
pub fn flatten(st: &TreeStore, root: usize) -> (r: Result<Vec<PathEntry>, FilterError>)
    ensures
        r matches Err(FilterError::InvalidTreeish) <==> root >= st.trees@.len(),
        r matches Err(FilterError::MalformedStore) <==> root < st.trees@.len() && !st.wf(),
        r matches Ok(v) ==> listing_view(v@) == flat_at(*st, root as int, seq![]),
{
    if root >= st.trees.len() {
        return Err(FilterError::InvalidTreeish);
    }
    if !store_is_wf(st) {
        return Err(FilterError::MalformedStore);
    }
    let mut out: Vec<PathEntry> = Vec::new();
    let dir = String::new();
    assert(listing_view(out@) =~= Seq::empty());
    flatten_node(st, root, &dir, &mut out);
    assert(dir@ =~= Seq::<char>::empty());
    assert(listing_view(out@) =~= flat_at(*st, root as int, seq![]));
    Ok(out)
}

/// A merge leaves every path outside the destination as the host has it,
/// and on a first merge (no base, nothing at the destination) brings in
/// exactly the upstream content there.
pub proof fn lemma_merge_preserves_unrelated(
    head: Seq<PathEntry>,
    base: Seq<PathEntry>,
    theirs: Seq<PathEntry>,
    pattern: Pattern,
    merged: Seq<PathEntry>,
    p: Seq<char>,
)
    requires
        forall|q: Seq<char>|
            #[trigger] lookup(merged, q) == merged_content(head, base, theirs, pattern, q),
    ensures
        !pattern.matches_path(words(p, true)) ==> lookup(merged, p) == lookup(head, p),
        pattern.matches_path(words(p, true)) && lookup(base, p) is None && lookup(head, p) is None
            ==> lookup(merged, p) == lookup(theirs, p),
{
    assert(lookup(merged, p) == merged_content(head, base, theirs, pattern, p));
}


/// Whether upstream content differs from the host's at the destination: some
/// path that the pattern matches has other content, or is present on one
/// side only.
pub open spec fn differs_at_destination(
    head: Seq<PathEntry>,
    theirs: Seq<PathEntry>,
    pattern: Pattern,
) -> bool {
    exists|p: Seq<char>|
        pattern.matches_path(words(p, true)) && #[trigger] lookup(head, p) != lookup(theirs, p)
}

/// Whether a path of `src` lies at the destination and has other content
/// in `head` than in `theirs`.
fn differs_on_listing(
    src: &Vec<PathEntry>,
    head: &Vec<PathEntry>,
    theirs: &Vec<PathEntry>,
    pattern: &Pattern,
) -> (r: bool)
    requires
        pattern.wf(),
    ensures
        r ==> differs_at_destination(head@, theirs@, *pattern),
        !r ==> forall|k: int|
            0 <= k < src@.len() ==> !(pattern.matches_path(words(#[trigger] src@[k].path@, true))
                && lookup(head@, src@[k].path@) != lookup(theirs@, src@[k].path@)),
{
    let mut i: usize = 0;
    while i < src.len()
        invariant
            i <= src@.len(),
            pattern.wf(),
            forall|k: int|
                0 <= k < i ==> !(pattern.matches_path(words(#[trigger] src@[k].path@, true))
                    && lookup(head@, src@[k].path@) != lookup(theirs@, src@[k].path@)),
        decreases src@.len() - i,
    {
        let p = &src[i].path;
        if pattern.matches_str(p.as_str()) && !same_version(find_path(head, p), find_path(theirs, p)) {
            return true;
        }
        i = i + 1;
    }
    false
}

/// Whether upstream content differs from the host's at the destination.
pub fn destination_differs(head: &Vec<PathEntry>, theirs: &Vec<PathEntry>, pattern: &Pattern) -> (r: bool)
    requires
        pattern.wf(),
    ensures
        r == differs_at_destination(head@, theirs@, *pattern),
{
    if differs_on_listing(head, head, theirs, pattern) {
        return true;
    }
    if differs_on_listing(theirs, head, theirs, pattern) {
        return true;
    }
    proof {
        if differs_at_destination(head@, theirs@, *pattern) {
            let p = choose|p: Seq<char>|
                pattern.matches_path(words(p, true)) && #[trigger] lookup(head@, p) != lookup(theirs@, p);
            lemma_lookup_contains(head@, p);
            lemma_lookup_contains(theirs@, p);
            if lookup(head@, p) is Some {
                let k = choose|k: int| 0 <= k < head@.len() && (#[trigger] head@[k]).path@ == p;
                assert(head@[k].path@ == p);
            } else {
                let k = choose|k: int| 0 <= k < theirs@.len() && (#[trigger] theirs@[k]).path@ == p;
                assert(theirs@[k].path@ == p);
            }
        }
    }
    false
}

} // verus!
