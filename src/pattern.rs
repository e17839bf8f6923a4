use vstd::prelude::*;
use crate::text::{chars_of, seqs_of, split_state, split_words, words};

verus! {

/// The segment `**`, which matches zero or more whole path segments.
pub open spec fn globstar() -> Seq<char> {
    seq!['*', '*']
}

/// Glob matching of `p[i..]` against `s[j..]`: `*` matches any run of
/// characters, `?` matches one character, any other character itself.
pub open spec fn glob_from(p: Seq<char>, i: int, s: Seq<char>, j: int) -> bool
    decreases p.len() - i, s.len() - j,
{
    if i >= p.len() {
        j >= s.len()
    } else if p[i] == '*' {
        glob_from(p, i + 1, s, j) || (j < s.len() && glob_from(p, i, s, j + 1))
    } else {
        j < s.len() && (p[i] == '?' || p[i] == s[j]) && glob_from(p, i + 1, s, j + 1)
    }
}

/// Whether the glob `p` matches the whole of `s`.
pub open spec fn glob(p: Seq<char>, s: Seq<char>) -> bool {
    glob_from(p, 0, s, 0)
}

/// Matching of the segment matchers `ps[i..]` against the path segments
/// `path[j..]`, with `**` standing for zero or more segments.
pub open spec fn segments_from(ps: Seq<Seq<char>>, i: int, path: Seq<Seq<char>>, j: int) -> bool
    decreases ps.len() - i, path.len() - j,
{
    if i >= ps.len() {
        j >= path.len()
    } else if ps[i] == globstar() {
        segments_from(ps, i + 1, path, j) || (j < path.len() && segments_from(ps, i, path, j + 1))
    } else {
        j < path.len() && glob(ps[i], path[j]) && segments_from(ps, i + 1, path, j + 1)
    }
}


/// Whether the compiled segments `segs` match the path `path`; `anchored`
/// patterns are matched from the root, others against the last segment.
pub open spec fn segments_match(segs: Seq<Seq<char>>, anchored: bool, path: Seq<Seq<char>>) -> bool {
    path.len() > 0 && if anchored {
        segments_from(segs, 0, path, 0)
    } else {
        segs.len() == 1 && glob(segs[0], path.last())
    }
}

/// Whether the raw pattern ends with `/`, that is names a directory.
pub open spec fn raw_directory_only(raw: Seq<char>) -> bool {
    raw.len() > 0 && raw.last() == '/'
}

/// Whether the raw pattern holds a `/`, and so is matched from the root.
pub open spec fn raw_anchored(raw: Seq<char>) -> bool {
    raw.contains('/')
}

/// The segment matchers of a raw pattern: its `/`-separated words, with `**`
/// appended where the pattern ends with `/`.
pub open spec fn raw_segments(raw: Seq<char>) -> Seq<Seq<char>> {
    if raw_directory_only(raw) {
        words(raw.drop_last(), true).push(globstar())
    } else {
        words(raw, true)
    }
}

/// Whether the raw pattern `raw` matches `path`.
pub open spec fn raw_matches(raw: Seq<char>, path: Seq<Seq<char>>) -> bool {
    segments_match(raw_segments(raw), raw_anchored(raw), path)
}

/// Why a pattern could not be compiled.
#[derive(Debug, Clone, Copy, PartialEq, Eq, Structural)]
pub enum PatternError {
    /// The pattern text is empty.
    InvalidPattern,
}

/// A compiled gitattributes-style path pattern.
#[derive(Debug, Clone)]
pub struct Pattern {
    /// One matcher per path segment: a glob over characters, or `**`.
    pub segments: Vec<Vec<char>>,
    /// The pattern holds a `/` and is matched from the root.
    pub anchored: bool,
    /// The pattern ends with `/`: it names a directory and all beneath it.
    pub directory_only: bool,
}

impl Pattern {
    /// The segment matchers as character sequences.
    pub open spec fn segs(&self) -> Seq<Seq<char>> {
        seqs_of(self.segments@)
    }

    /// An unanchored pattern has a single segment matcher.
    pub open spec fn wf(&self) -> bool {
        !self.anchored ==> self.segments@.len() == 1
    }

    /// Whether the pattern matches the path given by its segments.
    pub open spec fn matches_path(&self, path: Seq<Seq<char>>) -> bool {
        segments_match(self.segs(), self.anchored, path)
    }

    /// Whether the pattern selects the directory at `dir` whole, with all
    /// that lies beneath it: it is anchored (or names a directory) and
    /// matches `dir` itself.
    pub open spec fn selects_subtree(&self, dir: Seq<Seq<char>>) -> bool {
        self.anchored && self.matches_path(dir)
    }

    /// Compiles a raw pattern; an empty one is refused.
    pub fn compile(raw: &str) -> (r: Result<Pattern, PatternError>)
        ensures
            raw@.len() == 0 <==> r is Err,
            r is Err ==> r == Err::<Pattern, PatternError>(PatternError::InvalidPattern),
            r matches Ok(p) ==> {
                &&& p.wf()
                &&& p.segs() == raw_segments(raw@)
                &&& p.anchored == raw_anchored(raw@)
                &&& p.directory_only == raw_directory_only(raw@)
            },
    {
        let chars = chars_of(raw);
        if chars.len() == 0 {
            return Err(PatternError::InvalidPattern);
        }
        let directory_only = chars[chars.len() - 1] == '/';
        let mut anchored = false;
        let mut i: usize = 0;
        while i < chars.len()
            invariant
                i <= chars.len(),
                anchored == (exists|k: int| 0 <= k < i && chars@[k] == '/'),
            decreases chars.len() - i,
        {
            if chars[i] == '/' {
                anchored = true;
            }
            i = i + 1;
        }
        proof {
            if anchored {
                let k = choose|k: int| 0 <= k < chars@.len() && chars@[k] == '/';
                assert(chars@[k] == '/');
            }
        }
        let mut body = chars.clone();
        if directory_only {
            body.pop();
            assert(body@ =~= chars@.drop_last());
        } else {
            assert(body@ =~= chars@);
        }
        let mut segments = split_words(&body, true);
        if directory_only {
            let star = vec!['*', '*'];
            segments.push(star);
            assert(seqs_of(segments@) =~= raw_segments(raw@));
        }
        proof {
            assert(anchored == raw_anchored(raw@));
            if !anchored {
                assert(!directory_only);
                lemma_words_without_separator(chars@);
                assert(words(body@, true) == seq![chars@]);
                assert(seqs_of(segments@).len() == segments@.len());
                assert(segments@.len() == 1);
            }
            assert(seqs_of(segments@) == raw_segments(raw@));
        }
        Ok(Pattern { segments, anchored, directory_only })
    }

    /// Whether the pattern matches the path given by its segments. Whether
    /// the path names a directory does not change the result: a pattern
    /// ending in `/` matches the directory and all beneath it.
    pub fn matches(&self, path: &Vec<Vec<char>>) -> (r: bool)
        requires
            self.wf(),
        ensures
            r == self.matches_path(seqs_of(path@)),
    {
        if path.len() == 0 {
            return false;
        }
        if self.anchored {
            segments_at(&self.segments, 0, path, 0)
        } else {
            glob_at(&self.segments[0], 0, &path[path.len() - 1], 0)
        }
    }

    /// Whether the pattern matches the slash-separated path `path`.
    pub fn matches_str(&self, path: &str) -> (r: bool)
        requires
            self.wf(),
        ensures
            r == self.matches_path(words(path@, true)),
    {
        let chars = chars_of(path);
        let segs = split_words(&chars, true);
        self.matches(&segs)
    }

    /// Whether the pattern selects the directory `dir` with all beneath it.
    pub fn selects(&self, dir: &Vec<Vec<char>>) -> (r: bool)
        requires
            self.wf(),
        ensures
            r == self.selects_subtree(seqs_of(dir@)),
    {
        self.anchored && self.matches(dir)
    }
}

/// Glob matching of `p[i..]` against `s[j..]`.
fn glob_at(p: &Vec<char>, i: usize, s: &Vec<char>, j: usize) -> (r: bool)
    requires
        i <= p.len(),
        j <= s.len(),
    ensures
        r == glob_from(p@, i as int, s@, j as int),
    decreases p.len() - i, s.len() - j,
{
    if i >= p.len() {
        j >= s.len()
    } else if p[i] == '*' {
        glob_at(p, i + 1, s, j) || (j < s.len() && glob_at(p, i, s, j + 1))
    } else {
        j < s.len() && (p[i] == '?' || p[i] == s[j]) && glob_at(p, i + 1, s, j + 1)
    }
}

/// Matching of the segment matchers `ps[i..]` against the path `path[j..]`.
fn segments_at(ps: &Vec<Vec<char>>, i: usize, path: &Vec<Vec<char>>, j: usize) -> (r: bool)
    requires
        i <= ps.len(),
        j <= path.len(),
    ensures
        r == segments_from(seqs_of(ps@), i as int, seqs_of(path@), j as int),
    decreases ps.len() - i, path.len() - j,
{
    if i >= ps.len() {
        j >= path.len()
    } else {
        let seg = &ps[i];
        let is_globstar = seg.len() == 2 && seg[0] == '*' && seg[1] == '*';
        assert(is_globstar == (seqs_of(ps@)[i as int] == globstar())) by {
            if seg@.len() == 2 && seg@[0] == '*' && seg@[1] == '*' {
                assert(seg@ =~= globstar());
            }
        }
        if is_globstar {
            segments_at(ps, i + 1, path, j) || (j < path.len() && segments_at(ps, i, path, j + 1))
        } else {
            j < path.len() && glob_at(seg, 0, &path[j], 0) && segments_at(ps, i + 1, path, j + 1)
        }
    }
}

/// A sequence without `/` is a single word, unless it is empty.
pub proof fn lemma_words_without_separator(s: Seq<char>)
    requires
        s.len() > 0,
        !s.contains('/'),
    ensures
        words(s, true) == seq![s],
{
    assert forall|n: int| 0 <= n <= s.len() implies split_state(s, n, true) == (
    Seq::<Seq<char>>::empty(), s.subrange(0, n)) by {
        lemma_split_state_no_separator(s, n);
    }
    assert(s.subrange(0, s.len() as int) =~= s);
    assert(words(s, true) =~= seq![s]);
}

proof fn lemma_split_state_no_separator(s: Seq<char>, n: int)
    requires
        0 <= n <= s.len(),
        !s.contains('/'),
    ensures
        split_state(s, n, true) == (Seq::<Seq<char>>::empty(), s.subrange(0, n)),
    decreases n,
{
    if n > 0 {
        lemma_split_state_no_separator(s, n - 1);
        assert(s[n - 1] != '/');
        assert(s.subrange(0, n - 1).push(s[n - 1]) =~= s.subrange(0, n));
    } else {
        assert(s.subrange(0, 0) =~= Seq::<char>::empty());
    }
}


/// A pattern ending with `/` behaves exactly as the same pattern ending with
/// `/**`: both match the directory itself and every path beneath it, and
/// nothing else.
pub proof fn lemma_trailing_slash_is_globstar(base: Seq<char>)
    ensures
        raw_segments(base.push('/')) == raw_segments(base + seq!['/', '*', '*']),
        raw_anchored(base.push('/')) && raw_anchored(base + seq!['/', '*', '*']),
        forall|path: Seq<Seq<char>>|
            raw_matches(base.push('/'), path) == raw_matches(base + seq!['/', '*', '*'], path),
{
    let dir = base.push('/');
    let star = base + seq!['/', '*', '*'];
    let n = base.len() as int;
    assert(dir[n] == '/');
    assert(star[n] == '/');
    assert(dir.drop_last() =~= base);
    lemma_split_state_prefix(base, seq!['/', '*', '*'], n);
    let (done, cur) = split_state(base, n, true);
    assert(split_state(star, n + 1, true) == (words(base, true), Seq::<char>::empty()));
    assert(split_state(star, n + 2, true) == (words(base, true), seq!['*']));
    assert(seq!['*'].push('*') =~= globstar());
    assert(split_state(star, n + 3, true) == (words(base, true), globstar()));
    assert(star.len() == n + 3);
    assert(star.last() != '/');
    assert(raw_segments(star) == words(base, true).push(globstar()));
}

/// The words read in a prefix of `s` do not depend on what follows it.
proof fn lemma_split_state_prefix(s: Seq<char>, t: Seq<char>, n: int)
    requires
        0 <= n <= s.len(),
    ensures
        split_state(s + t, n, true) == split_state(s, n, true),
    decreases n,
{
    if n > 0 {
        lemma_split_state_prefix(s, t, n - 1);
        assert((s + t)[n - 1] == s[n - 1]);
    }
}

/// A `**` as the last matcher matches whatever remains of the path.
proof fn lemma_globstar_matches_rest(ps: Seq<Seq<char>>, path: Seq<Seq<char>>, j: int)
    requires
        ps.len() > 0,
        ps.last() == globstar(),
        0 <= j <= path.len(),
    ensures
        segments_from(ps, ps.len() - 1, path, j),
    decreases path.len() - j,
{
    assert(ps[ps.len() - 1] == globstar());
    if j < path.len() {
        lemma_globstar_matches_rest(ps, path, j + 1);
    } else {
        assert(segments_from(ps, ps.len() as int, path, j));
    }
}

/// Matchers that end with `**` and match `path[j..]` match it with anything
/// appended.
proof fn lemma_globstar_tail_extends(
    ps: Seq<Seq<char>>,
    i: int,
    path: Seq<Seq<char>>,
    j: int,
    extra: Seq<Seq<char>>,
)
    requires
        ps.len() > 0,
        ps.last() == globstar(),
        0 <= i < ps.len(),
        0 <= j <= path.len(),
        segments_from(ps, i, path, j),
    ensures
        segments_from(ps, i, path + extra, j),
    decreases ps.len() - i, path.len() - j,
{
    if i == ps.len() - 1 {
        lemma_globstar_matches_rest(ps, path + extra, j);
    } else if ps[i] == globstar() {
        if segments_from(ps, i + 1, path, j) {
            lemma_globstar_tail_extends(ps, i + 1, path, j, extra);
        } else {
            lemma_globstar_tail_extends(ps, i, path, j + 1, extra);
        }
    } else {
        assert((path + extra)[j] == path[j]);
        lemma_globstar_tail_extends(ps, i + 1, path, j + 1, extra);
    }
}

/// A pattern that ends with `**` (as every pattern naming a directory does)
/// and selects a directory matches every path beneath it as well.
pub proof fn lemma_globstar_selection_matches_all(
    p: Pattern,
    dir: Seq<Seq<char>>,
    rest: Seq<Seq<char>>,
)
    requires
        p.selects_subtree(dir),
        p.segs().len() > 0,
        p.segs().last() == globstar(),
    ensures
        p.matches_path(dir + rest),
{
    lemma_globstar_tail_extends(p.segs(), 0, dir, 0, rest);
}

/// Every glob matches its own text: `*` and `?` match themselves too.
pub proof fn lemma_glob_matches_itself(p: Seq<char>, i: int)
    requires
        0 <= i <= p.len(),
    ensures
        glob_from(p, i, p, i),
    decreases p.len() - i,
{
    if i < p.len() {
        lemma_glob_matches_itself(p, i + 1);
        if p[i] == '*' {
            assert(glob_from(p, i, p, i + 1));
        }
    }
}

/// A directory pattern `name/` selects the directory `name` at the root.
pub proof fn lemma_directory_pattern_selects(name: Seq<char>, p: Pattern)
    requires
        name.len() > 0,
        !name.contains('/'),
        p.segs() == raw_segments(name.push('/')),
        p.anchored == raw_anchored(name.push('/')),
    ensures
        p.selects_subtree(seq![name]),
{
    let raw = name.push('/');
    assert(raw[name.len() as int] == '/');
    assert(raw.drop_last() =~= name);
    lemma_words_without_separator(name);
    let ps = seq![name, globstar()];
    assert(p.segs() =~= ps);
    let path = seq![name];
    lemma_globstar_matches_rest(ps, path, 1);
    lemma_globstar_matches_rest(ps, path, 0);
    if name == globstar() {
        assert(segments_from(ps, 0, path, 0));
    } else {
        lemma_glob_matches_itself(name, 0);
        assert(segments_from(ps, 0, path, 0));
    }
}

} // verus!
