use vstd::prelude::*;
use crate::merge::{listing_view, PathEntry};
use crate::pattern::{globstar, Pattern};
use crate::text::{chars_of, seqs_of, span_equals, spans_match, word_spans, words};

verus! {

/// Whether a segment matcher holds no wildcard.
pub open spec fn is_literal(seg: Seq<char>) -> bool {
    !seg.contains('*') && !seg.contains('?')
}

/// The end of the run of literal segments of `segs` that starts at `i` and
/// stops before `limit`.
pub open spec fn literal_run(segs: Seq<Seq<char>>, i: int, limit: int) -> int
    decreases limit - i,
{
    if 0 <= i < limit && is_literal(segs[i]) {
        literal_run(segs, i + 1, limit)
    } else {
        i
    }
}

/// The number of segments of the pattern's literal directory prefix: the
/// leading segments without wildcard of an anchored pattern, the last one
/// excepted.
pub open spec fn static_len(p: Pattern) -> int {
    if p.anchored && p.segs().len() > 0 {
        literal_run(p.segs(), 0, p.segs().len() - 1)
    } else {
        0
    }
}

/// The pattern's literal directory prefix.
pub open spec fn static_prefix(p: Pattern) -> Seq<Seq<char>> {
    p.segs().subrange(0, static_len(p))
}

/// Path segments joined by `/`.
pub open spec fn join(ws: Seq<Seq<char>>) -> Seq<char>
    decreases ws.len(),
{
    if ws.len() == 0 {
        seq![]
    } else if ws.len() == 1 {
        ws[0]
    } else {
        join(ws.drop_last()) + seq!['/'] + ws.last()
    }
}

/// The path moved from under `from` to under `to`, where it lies under `from`.
pub open spec fn relocate_path(path: Seq<char>, from: Seq<Seq<char>>, to: Seq<Seq<char>>) -> Option<
    Seq<char>,
> {
    let ws = words(path, true);
    if from.len() <= ws.len() && ws.subrange(0, from.len() as int) == from {
        Some(join(to + ws.skip(from.len() as int)))
    } else {
        None
    }
}

/// The matchers of the pattern moved to the destination `to`: an anchored
/// pattern has its literal prefix replaced, an unanchored one matches at any
/// depth beneath `to`.
pub open spec fn relocated_segments(p: Pattern, to: Seq<Seq<char>>) -> Seq<Seq<char>> {
    if p.anchored {
        to + p.segs().skip(static_len(p))
    } else {
        to + seq![globstar()] + p.segs()
    }
}

/// The upstream files the pattern selects, moved to the destination `to`.
pub open spec fn relocated_listing(s: Seq<PathEntry>, p: Pattern, to: Seq<Seq<char>>) -> Seq<
    (Seq<char>, u32, Seq<char>),
>
    decreases s.len(),
{
    if s.len() == 0 {
        seq![]
    } else {
        let prev = relocated_listing(s.drop_last(), p, to);
        let e = s.last();
        match relocate_path(e.path@, static_prefix(p), to) {
            Some(q) => if p.matches_path(words(e.path@, true)) {
                prev.push((q, e.mode, e.oid@))
            } else {
                prev
            },
            None => prev,
        }
    }
}

/// A copy of a character vector.
fn copy_chars(v: &Vec<char>) -> (r: Vec<char>)
    ensures
        r@ == v@,
{
    let mut r: Vec<char> = Vec::new();
    let mut i: usize = 0;
    while i < v.len()
        invariant
            i <= v@.len(),
            r@ == v@.subrange(0, i as int),
        decreases v@.len() - i,
    {
        r.push(v[i]);
        i = i + 1;
        assert(r@ =~= v@.subrange(0, i as int));
    }
    assert(r@ =~= v@);
    r
}

/// Whether a segment matcher holds no wildcard.
fn literal(seg: &Vec<char>) -> (r: bool)
    ensures
        r == is_literal(seg@),
{
    let mut i: usize = 0;
    while i < seg.len()
        invariant
            i <= seg@.len(),
            forall|k: int| 0 <= k < i ==> seg@[k] != '*' && seg@[k] != '?',
        decreases seg@.len() - i,
    {
        if seg[i] == '*' || seg[i] == '?' {
            assert(seg@.contains(seg@[i as int]));
            return false;
        }
        i = i + 1;
    }
    true
}

/// The number of segments of the pattern's literal directory prefix.
pub fn static_prefix_len(p: &Pattern) -> (r: usize)
    ensures
        r == static_len(*p),
        r <= p.segments@.len(),
{
    if !p.anchored || p.segments.len() == 0 {
        return 0;
    }
    let limit = p.segments.len() - 1;
    let mut i: usize = 0;
    while i < limit && literal(&p.segments[i])
        invariant
            limit == p.segs().len() - 1,
            i <= limit,
            literal_run(p.segs(), 0, limit as int) == literal_run(p.segs(), i as int, limit as int),
        decreases limit - i,
    {
        i = i + 1;
    }
    i
}

impl Pattern {
    /// The pattern moved to the destination directory `to`.
    pub fn relocate(&self, to: &str) -> (r: Pattern)
        ensures
            r.wf(),
            r.anchored,
            r.directory_only == self.directory_only,
            r.segs() == relocated_segments(*self, words(to@, true)),
    {
        let mut segments = crate::text::split_words(&chars_of(to), true);
        let ghost dest = seqs_of(segments@);
        let start = static_prefix_len(self);
        if !self.anchored {
            segments.push(vec!['*', '*']);
        }
        let ghost before = seqs_of(segments@);
        let mut i: usize = if self.anchored {
            start
        } else {
            0
        };
        let ghost first = i as int;
        assert(seqs_of(segments@) =~= before + self.segs().subrange(first, i as int));
        while i < self.segments.len()
            invariant
                0 <= first <= i <= self.segments@.len(),
                seqs_of(segments@) == before + self.segs().subrange(first, i as int),
            decreases self.segments@.len() - i,
        {
            let seg = copy_chars(&self.segments[i]);
            assert(self.segs()[i as int] == self.segments@[i as int]@);
            let ghost old_v = seqs_of(segments@);
            segments.push(seg);
            assert(seqs_of(segments@) =~= old_v.push(seg@));
            assert(self.segs().subrange(first, i + 1) =~= self.segs().subrange(first, i as int).push(
                self.segs()[i as int],
            ));
            i = i + 1;
            assert(seqs_of(segments@) =~= before + self.segs().subrange(first, i as int));
        }
        assert(self.segs().subrange(first, self.segs().len() as int) =~= self.segs().skip(first));
        assert(seqs_of(segments@) =~= relocated_segments(*self, words(to@, true)));
        Pattern { segments, anchored: true, directory_only: self.directory_only }
    }
}

/// The segment at `part` (in `to` or in `path`, between two positions) is `w`.
pub open spec fn part_ok(part: (bool, usize, usize), path: Seq<char>, to: Seq<char>, w: Seq<char>) -> bool {
    let src = if part.0 {
        to
    } else {
        path
    };
    part.1 <= part.2 <= src.len() && src.subrange(part.1 as int, part.2 as int) == w
}

/// Appends `w` to a path being joined from `all`, of which `c` segments are
/// already in `out`.
fn append_segment(out: &mut String, w: &str, Ghost(all): Ghost<Seq<Seq<char>>>, c: usize)
    requires
        c < all.len(),
        all[c as int] == w@,
        old(out)@ == join(all.subrange(0, c as int)),
    ensures
        final(out)@ == join(all.subrange(0, c + 1)),
{
    let sep = "/";
    proof {
        reveal_strlit("/");
        assert(sep@ =~= seq!['/']);
    }
    assert(all.subrange(0, c + 1).drop_last() =~= all.subrange(0, c as int));
    if c > 0 {
        out.append(sep);
    }
    out.append(w);
    if c == 0 {
        assert(out@ =~= join(all.subrange(0, 1)));
    } else {
        assert(out@ =~= join(all.subrange(0, c + 1)));
    }
}

/// Moves `path` from under the segments `from` to under the directory `to`;
/// `None` where it does not lie under `from`.
pub fn relocate(path: &str, from: &Vec<Vec<char>>, to: &str) -> (r: Option<String>)
    ensures
        match r {
            Some(q) => relocate_path(path@, seqs_of(from@), words(to@, true)) == Some(q@),
            None => relocate_path(path@, seqs_of(from@), words(to@, true)) is None,
        },
{
    let chars = chars_of(path);
    let spans = word_spans(&chars, true);
    let ghost ws = words(path@, true);
    let ghost fr = seqs_of(from@);
    if from.len() > spans.len() {
        return None;
    }
    let mut i: usize = 0;
    while i < from.len()
        invariant
            i <= from@.len() <= spans@.len(),
            chars@ == path@,
            ws == words(path@, true),
            fr == seqs_of(from@),
            spans_match(chars@, spans@, ws),
            forall|k: int| 0 <= k < i ==> ws[k] == fr[k],
        decreases from@.len() - i,
    {
        let (a, b) = spans[i];
        assert(chars@.subrange(a as int, b as int) == ws[i as int]);
        assert(fr[i as int] == from@[i as int]@);
        if !span_equals(&chars, a, b, &from[i]) {
            assert(ws.subrange(0, fr.len() as int)[i as int] == ws[i as int]);
            return None;
        }
        i = i + 1;
    }
    assert(ws.subrange(0, fr.len() as int) =~= fr);
    let to_chars = chars_of(to);
    let to_spans = word_spans(&to_chars, true);
    let ghost tw = words(to@, true);
    let ghost all = tw + ws.skip(fr.len() as int);
    // Where each segment of the result lies: in `to`, or in `path`.
    let mut parts: Vec<(bool, usize, usize)> = Vec::new();
    let mut c: usize = 0;
    while c < to_spans.len()
        invariant
            c <= to_spans@.len(),
            to_chars@ == to@,
            tw == words(to@, true),
            spans_match(to_chars@, to_spans@, tw),
            parts@.len() == c,
            forall|x: int| 0 <= x < c ==> part_ok(#[trigger] parts@[x], path@, to@, all[x]),
            all == tw + ws.skip(fr.len() as int),
        decreases to_spans@.len() - c,
    {
        let (a, b) = to_spans[c];
        assert(to_chars@.subrange(a as int, b as int) == tw[c as int]);
        parts.push((true, a, b));
        c = c + 1;
    }
    let mut j: usize = from.len();
    while j < spans.len()
        invariant
            fr.len() <= j <= spans@.len(),
            from@.len() == fr.len(),
            chars@ == path@,
            spans_match(chars@, spans@, ws),
            tw.len() == to_spans@.len(),
            all == tw + ws.skip(fr.len() as int),
            parts@.len() == tw.len() + j - fr.len(),
            forall|x: int| 0 <= x < parts@.len() ==> part_ok(#[trigger] parts@[x], path@, to@, all[x]),
        decreases spans@.len() - j,
    {
        let (a, b) = spans[j];
        assert(chars@.subrange(a as int, b as int) == ws[j as int]);
        assert(all[(tw.len() + j - fr.len()) as int] == ws[j as int]);
        parts.push((false, a, b));
        j = j + 1;
    }
    assert(parts@.len() == all.len());
    let mut out = String::new();
    assert(out@ =~= join(all.subrange(0, 0)));
    let mut x: usize = 0;
    while x < parts.len()
        invariant
            x <= parts@.len(),
            parts@.len() == all.len(),
            forall|y: int| 0 <= y < parts@.len() ==> part_ok(#[trigger] parts@[y], path@, to@, all[y]),
            out@ == join(all.subrange(0, x as int)),
        decreases parts@.len() - x,
    {
        let (in_to, a, b) = parts[x];
        assert(part_ok(parts@[x as int], path@, to@, all[x as int]));
        let w = if in_to {
            to.substring_char(a, b)
        } else {
            path.substring_char(a, b)
        };
        append_segment(&mut out, w, Ghost(all), x);
        x = x + 1;
    }
    assert(all.subrange(0, all.len() as int) =~= all);
    Some(out)
}

/// The upstream files the pattern selects, moved to the destination `to`:
/// the pattern's literal directory prefix is replaced by `to`.
pub fn relocate_listing(s: &Vec<PathEntry>, p: &Pattern, to: &str) -> (r: Vec<PathEntry>)
    requires
        p.wf(),
    ensures
        listing_view(r@) == relocated_listing(s@, *p, words(to@, true)),
{
    let k = static_prefix_len(p);
    let mut from: Vec<Vec<char>> = Vec::new();
    let mut i: usize = 0;
    while i < k
        invariant
            k == static_len(*p),
            k <= p.segments@.len(),
            i <= k,
            seqs_of(from@) == p.segs().subrange(0, i as int),
        decreases k - i,
    {
        assert(p.segs()[i as int] == p.segments@[i as int]@);
        let ghost old_v = seqs_of(from@);
        let seg = copy_chars(&p.segments[i]);
        from.push(seg);
        assert(seqs_of(from@) =~= old_v.push(seg@));
        assert(p.segs().subrange(0, i + 1) =~= p.segs().subrange(0, i as int).push(p.segs()[i as int]));
        i = i + 1;
        assert(seqs_of(from@) =~= p.segs().subrange(0, i as int));
    }
    let mut out: Vec<PathEntry> = Vec::new();
    let mut j: usize = 0;
    assert(s@.subrange(0, 0) =~= Seq::<PathEntry>::empty());
    assert(listing_view(out@) =~= Seq::empty());
    while j < s.len()
        invariant
            p.wf(),
            j <= s@.len(),
            seqs_of(from@) == static_prefix(*p),
            listing_view(out@) == relocated_listing(s@.subrange(0, j as int), *p, words(to@, true)),
        decreases s@.len() - j,
    {
        let e = &s[j];
        assert(s@.subrange(0, j + 1).drop_last() =~= s@.subrange(0, j as int));
        assert(s@.subrange(0, j + 1).last() == *e);
        match relocate(e.path.as_str(), &from, to) {
            Some(q) => {
                if p.matches_str(e.path.as_str()) {
                    let ghost o = out@;
                    out.push(PathEntry { path: q, mode: e.mode, oid: e.oid.clone() });
                    assert(listing_view(out@) =~= listing_view(o).push((q@, e.mode, e.oid@)));
                }
            },
            None => {},
        }
        j = j + 1;
    }
    assert(s@.subrange(0, s@.len() as int) =~= s@);
    out
}

} // verus!
