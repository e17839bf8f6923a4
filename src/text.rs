use vstd::prelude::*;

verus! {

/// Unicode `White_Space`: the characters that `char::is_whitespace` accepts.
pub open spec fn is_ws(c: char) -> bool {
    ('\u{9}' <= c && c <= '\u{d}') || c == ' ' || c == '\u{85}' || c == '\u{a0}'
        || c == '\u{1680}' || ('\u{2000}' <= c && c <= '\u{200a}') || c == '\u{2028}'
        || c == '\u{2029}' || c == '\u{202f}' || c == '\u{205f}' || c == '\u{3000}'
}

/// Whether `c` separates words: `/` in a path, white space in a line.
pub open spec fn is_sep(c: char, slash: bool) -> bool {
    if slash {
        c == '/'
    } else {
        is_ws(c)
    }
}

/// The words found in the first `n` characters of `s`, and the word still
/// being read at that point.
pub open spec fn split_state(s: Seq<char>, n: int, slash: bool) -> (Seq<Seq<char>>, Seq<char>)
    decreases n,
{
    if n <= 0 {
        (seq![], seq![])
    } else {
        let (done, cur) = split_state(s, n - 1, slash);
        if is_sep(s[n - 1], slash) {
            if cur.len() > 0 {
                (done.push(cur), seq![])
            } else {
                (done, seq![])
            }
        } else {
            (done, cur.push(s[n - 1]))
        }
    }
}

/// The maximal non-empty runs of non-separator characters of `s`, in order.
pub open spec fn words(s: Seq<char>, slash: bool) -> Seq<Seq<char>> {
    let (done, cur) = split_state(s, s.len() as int, slash);
    if cur.len() > 0 {
        done.push(cur)
    } else {
        done
    }
}

/// The character sequences held by a sequence of character vectors.
pub open spec fn seqs_of(v: Seq<Vec<char>>) -> Seq<Seq<char>> {
    v.map_values(|w: Vec<char>| w@)
}

/// Whether `w` begins with `p`.
pub open spec fn has_prefix(w: Seq<char>, p: Seq<char>) -> bool {
    p.len() <= w.len() && w.subrange(0, p.len() as int) == p
}

/// Tests `c` for white space as `char::is_whitespace` does.
pub fn is_whitespace(c: char) -> (r: bool)
    ensures
        r == is_ws(c),
{
    ('\u{9}' <= c && c <= '\u{d}') || c == ' ' || c == '\u{85}' || c == '\u{a0}'
        || c == '\u{1680}' || ('\u{2000}' <= c && c <= '\u{200a}') || c == '\u{2028}'
        || c == '\u{2029}' || c == '\u{202f}' || c == '\u{205f}' || c == '\u{3000}'
}

/// The characters of `s`.
pub fn chars_of(s: &str) -> (r: Vec<char>)
    ensures
        r@ == s@,
{
    let n = s.unicode_len();
    let mut r: Vec<char> = Vec::new();
    let mut i: usize = 0;
    while i < n
        invariant
            n == s@.len(),
            i <= n,
            r@ == s@.subrange(0, i as int),
        decreases n - i,
    {
        let c = s.get_char(i);
        r.push(c);
        i = i + 1;
        assert(r@ =~= s@.subrange(0, i as int));
    }
    assert(r@ =~= s@);
    r
}

/// Splits `s` into its words: at `/` when `slash` holds, else at white space.
pub fn split_words(s: &Vec<char>, slash: bool) -> (r: Vec<Vec<char>>)
    ensures
        seqs_of(r@) == words(s@, slash),
{
    let mut done: Vec<Vec<char>> = Vec::new();
    let mut cur: Vec<char> = Vec::new();
    let mut i: usize = 0;
    while i < s.len()
        invariant
            i <= s.len(),
            split_state(s@, i as int, slash) == (seqs_of(done@), cur@),
        decreases s.len() - i,
    {
        let c = s[i];
        let sep = if slash {
            c == '/'
        } else {
            is_whitespace(c)
        };
        if sep {
            if cur.len() > 0 {
                let w = cur;
                cur = Vec::new();
                done.push(w);
                assert(seqs_of(done@) =~= split_state(s@, i + 1, slash).0);
            }
        } else {
            cur.push(c);
        }
        i = i + 1;
    }
    if cur.len() > 0 {
        done.push(cur);
        assert(seqs_of(done@) =~= words(s@, slash));
    }
    done
}

/// Whether `a` and `b` hold the same characters.
pub fn same_chars(a: &Vec<char>, b: &Vec<char>) -> (r: bool)
    ensures
        r == (a@ == b@),
{
    if a.len() != b.len() {
        return false;
    }
    let mut i: usize = 0;
    while i < a.len()
        invariant
            a.len() == b.len(),
            i <= a.len(),
            forall|k: int| 0 <= k < i ==> a@[k] == b@[k],
        decreases a.len() - i,
    {
        if a[i] != b[i] {
            return false;
        }
        i = i + 1;
    }
    assert(a@ =~= b@);
    true
}


/// Each span in `spans` covers in `s` the word of `ws` at the same position.
pub open spec fn spans_match(s: Seq<char>, spans: Seq<(usize, usize)>, ws: Seq<Seq<char>>) -> bool {
    &&& spans.len() == ws.len()
    &&& forall|k: int|
        0 <= k < spans.len() ==> {
            &&& (#[trigger] spans[k]).0 <= spans[k].1 <= s.len()
            &&& s.subrange(spans[k].0 as int, spans[k].1 as int) == ws[k]
        }
}

/// The spans of the words of `s`, as pairs of start and end positions.
pub fn word_spans(s: &Vec<char>, slash: bool) -> (r: Vec<(usize, usize)>)
    ensures
        spans_match(s@, r@, words(s@, slash)),
{
    let mut done: Vec<(usize, usize)> = Vec::new();
    let mut start: usize = 0;
    let mut i: usize = 0;
    while i < s.len()
        invariant
            start <= i <= s.len(),
            split_state(s@, i as int, slash).1 == s@.subrange(start as int, i as int),
            spans_match(s@, done@, split_state(s@, i as int, slash).0),
        decreases s.len() - i,
    {
        let c = s[i];
        let sep = if slash {
            c == '/'
        } else {
            is_whitespace(c)
        };
        let ghost prev = done@;
        let ghost st = split_state(s@, i as int, slash);
        if sep {
            if start < i {
                done.push((start, i));
                assert forall|k: int| 0 <= k < done@.len() implies {
                    &&& (#[trigger] done@[k]).0 <= done@[k].1 <= s@.len()
                    &&& s@.subrange(done@[k].0 as int, done@[k].1 as int) == st.0.push(st.1)[k]
                } by {
                    if k < prev.len() {
                        assert(done@[k] == prev[k]);
                    }
                }
            }
            start = i + 1;
            assert(s@.subrange(start as int, i + 1) =~= Seq::<char>::empty());
        } else {
            assert(s@.subrange(start as int, i + 1) =~= s@.subrange(start as int, i as int).push(c));
        }
        i = i + 1;
    }
    let ghost prev = done@;
    let ghost st = split_state(s@, i as int, slash);
    if start < i {
        done.push((start, i));
        assert forall|k: int| 0 <= k < done@.len() implies {
            &&& (#[trigger] done@[k]).0 <= done@[k].1 <= s@.len()
            &&& s@.subrange(done@[k].0 as int, done@[k].1 as int) == st.0.push(st.1)[k]
        } by {
            if k < prev.len() {
                assert(done@[k] == prev[k]);
            }
        }
    }
    done
}

/// The words read before position `n` are non-empty.
proof fn lemma_split_state_nonempty(s: Seq<char>, n: int, slash: bool)
    ensures
        forall|k: int|
            0 <= k < split_state(s, n, slash).0.len() ==> #[trigger] split_state(
                s,
                n,
                slash,
            ).0[k].len() > 0,
    decreases n,
{
    if n > 0 {
        lemma_split_state_nonempty(s, n - 1, slash);
        let prev = split_state(s, n - 1, slash);
        let cur = split_state(s, n, slash);
        assert forall|k: int| 0 <= k < cur.0.len() implies #[trigger] cur.0[k].len() > 0 by {
            if k < prev.0.len() {
                assert(prev.0[k].len() > 0);
                assert(cur.0[k] == prev.0[k]);
            }
        }
    }
}

/// Every word is non-empty.
pub proof fn lemma_words_nonempty(s: Seq<char>, slash: bool)
    ensures
        forall|k: int| 0 <= k < words(s, slash).len() ==> #[trigger] words(s, slash)[k].len() > 0,
{
    lemma_split_state_nonempty(s, s.len() as int, slash);
    let st = split_state(s, s.len() as int, slash);
    assert forall|k: int| 0 <= k < words(s, slash).len() implies #[trigger] words(s, slash)[k].len() > 0 by {
        if k < st.0.len() {
            assert(st.0[k].len() > 0);
        }
    }
}


/// Whether the characters of `s` from `a` to `b` begin with `p`.
pub fn span_has_prefix(s: &Vec<char>, a: usize, b: usize, p: &Vec<char>) -> (r: bool)
    requires
        a <= b <= s.len(),
    ensures
        r == has_prefix(s@.subrange(a as int, b as int), p@),
{
    if p.len() > b - a {
        return false;
    }
    let mut i: usize = 0;
    while i < p.len()
        invariant
            a <= b <= s.len(),
            p.len() <= b - a,
            i <= p.len(),
            forall|k: int| 0 <= k < i ==> s@[a + k] == p@[k],
        decreases p.len() - i,
    {
        if s[a + i] != p[i] {
            assert(s@.subrange(a as int, b as int)[i as int] == s@[a + i]);
            return false;
        }
        i = i + 1;
    }
    assert(s@.subrange(a as int, b as int).subrange(0, p@.len() as int) =~= p@);
    true
}

/// Whether the characters of `s` from `a` to `b` are exactly `p`.
pub fn span_equals(s: &Vec<char>, a: usize, b: usize, p: &Vec<char>) -> (r: bool)
    requires
        a <= b <= s.len(),
    ensures
        r == (s@.subrange(a as int, b as int) == p@),
{
    if p.len() != b - a {
        return false;
    }
    let r = span_has_prefix(s, a, b, p);
    assert(s@.subrange(a as int, b as int).subrange(0, p@.len() as int) =~= s@.subrange(
        a as int,
        b as int,
    ));
    r
}

} // verus!
