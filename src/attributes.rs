use vstd::prelude::*;
use crate::text::{
    chars_of, has_prefix, lemma_words_nonempty, same_chars, seqs_of, span_equals, span_has_prefix,
    spans_match, split_words, word_spans, words,
};

verus! {

/// The attribute that marks a line as a vendored dependency.
pub open spec fn lit_vendored() -> Seq<char> {
    seq!['v', 'e', 'n', 'd', 'o', 'r', 'e', 'd']
}

/// The key of the dependency's name.
pub open spec fn key_name() -> Seq<char> {
    seq!['n', 'a', 'm', 'e', '=']
}

/// The key of the upstream URL.
pub open spec fn key_url() -> Seq<char> {
    seq!['u', 'r', 'l', '=']
}

/// The key of the tracked branch.
pub open spec fn key_branch() -> Seq<char> {
    seq!['b', 'r', 'a', 'n', 'c', 'h', '=']
}

/// The key of the destination prefix.
pub open spec fn key_prefix() -> Seq<char> {
    seq!['p', 'r', 'e', 'f', 'i', 'x', '=']
}

/// Whether an attribute belongs to a vendor declaration.
pub open spec fn is_vendor_attr(a: Seq<char>) -> bool {
    a == lit_vendored() || has_prefix(a, key_name()) || has_prefix(a, key_url()) || has_prefix(
        a,
        key_branch(),
    )
}

/// Whether the words of a line make a declaration: there is one, and the
/// line is no comment.
pub open spec fn is_declaration(ws: Seq<Seq<char>>) -> bool {
    ws.len() > 0 && !(ws[0].len() > 0 && ws[0][0] == '#')
}

/// Whether `line` declares `pattern` with at least one vendor attribute.
pub open spec fn vendor_line_for(line: Seq<char>, pattern: Seq<char>) -> bool {
    let ws = words(line, false);
    &&& is_declaration(ws)
    &&& ws[0] == pattern
    &&& exists|i: int| 1 <= i < ws.len() && #[trigger] is_vendor_attr(ws[i])
}

/// The value of the last attribute among `ws[1..n]` that begins with `key`.
pub open spec fn last_value(ws: Seq<Seq<char>>, key: Seq<char>, n: int) -> Option<Seq<char>>
    decreases n,
{
    if n <= 1 || n > ws.len() {
        None
    } else if has_prefix(ws[n - 1], key) {
        Some(ws[n - 1].subrange(key.len() as int, ws[n - 1].len() as int))
    } else {
        last_value(ws, key, n - 1)
    }
}

/// A vendored dependency as values.
pub struct DepModel {
    pub pattern: Seq<char>,
    pub url: Seq<char>,
    pub reference: Option<Seq<char>>,
    pub prefix: Option<Seq<char>>,
}

/// The dependency that `line` declares: one with the `vendored` marker and
/// a `url=`; a later attribute of the same key wins over an earlier one.
pub open spec fn line_dep(line: Seq<char>) -> Option<DepModel> {
    let ws = words(line, false);
    if is_declaration(ws) && (exists|i: int| 1 <= i < ws.len() && ws[i] == lit_vendored())
        && last_value(ws, key_url(), ws.len() as int) is Some {
        Some(
            DepModel {
                pattern: ws[0],
                url: last_value(ws, key_url(), ws.len() as int)->0,
                reference: last_value(ws, key_branch(), ws.len() as int),
                prefix: last_value(ws, key_prefix(), ws.len() as int),
            },
        )
    } else {
        None
    }
}

/// Drops one carriage return that ends a line.
pub open spec fn strip_cr(l: Seq<char>) -> Seq<char> {
    if l.len() > 0 && l.last() == '\r' {
        l.drop_last()
    } else {
        l
    }
}

/// The lines ended in the first `n` characters of `s`, and the line begun.
pub open spec fn line_state(s: Seq<char>, n: int) -> (Seq<Seq<char>>, Seq<char>)
    decreases n,
{
    if n <= 0 {
        (seq![], seq![])
    } else {
        let (done, cur) = line_state(s, n - 1);
        if s[n - 1] == '\n' {
            (done.push(strip_cr(cur)), seq![])
        } else {
            (done, cur.push(s[n - 1]))
        }
    }
}

/// The lines of a text as `str::lines` gives them: split at `\n` or `\r\n`,
/// with no empty line after a final line ending.
pub open spec fn lines_of(s: Seq<char>) -> Seq<Seq<char>> {
    let (done, cur) = line_state(s, s.len() as int);
    if cur.len() > 0 {
        done.push(cur)
    } else {
        done
    }
}

/// The dependencies that the lines declare, in order.
pub open spec fn deps_of(lines: Seq<Seq<char>>) -> Seq<DepModel>
    decreases lines.len(),
{
    if lines.len() == 0 {
        seq![]
    } else {
        let prev = deps_of(lines.drop_last());
        match line_dep(lines.last()) {
            Some(d) => prev.push(d),
            None => prev,
        }
    }
}

/// Whether an attribute is removed when a pattern is untracked: a vendor
/// attribute or `prefix=`.
pub open spec fn is_removed_attr(a: Seq<char>) -> bool {
    is_vendor_attr(a) || has_prefix(a, key_prefix())
}

/// The attributes among `ws[1..n]` that untracking keeps, in order.
pub open spec fn kept_attrs(ws: Seq<Seq<char>>, n: int) -> Seq<Seq<char>>
    decreases n,
{
    if n <= 1 || n > ws.len() {
        seq![]
    } else if is_removed_attr(ws[n - 1]) {
        kept_attrs(ws, n - 1)
    } else {
        kept_attrs(ws, n - 1).push(ws[n - 1])
    }
}

/// Words joined by single spaces.
pub open spec fn join_words(ws: Seq<Seq<char>>) -> Seq<char>
    decreases ws.len(),
{
    if ws.len() == 0 {
        seq![]
    } else if ws.len() == 1 {
        ws[0]
    } else {
        join_words(ws.drop_last()) + seq![' '] + ws.last()
    }
}

/// What untracking `pattern` leaves of a line: a declaration of `pattern`
/// that carries vendor attributes keeps its other attributes, and goes
/// (`None`) where none is left; every other line stays as it is.
pub open spec fn untracked_line(line: Seq<char>, pattern: Seq<char>) -> Option<Seq<char>> {
    let ws = words(line, false);
    if is_declaration(ws) && ws[0] == pattern && (exists|i: int|
        1 <= i < ws.len() && #[trigger] is_removed_attr(ws[i])) {
        let rest = kept_attrs(ws, ws.len() as int);
        if rest.len() == 0 {
            None
        } else {
            Some(join_words(seq![ws[0]] + rest))
        }
    } else {
        Some(line)
    }
}

/// What untracking `pattern` leaves of the lines, each ended by `\n`.
pub open spec fn kept_text(lines: Seq<Seq<char>>, pattern: Seq<char>) -> Seq<char>
    decreases lines.len(),
{
    if lines.len() == 0 {
        seq![]
    } else {
        let prev = kept_text(lines.drop_last(), pattern);
        match untracked_line(lines.last(), pattern) {
            Some(l) => prev + l.push('\n'),
            None => prev,
        }
    }
}

/// The values of an optional string.
pub open spec fn opt_view(o: Option<String>) -> Option<Seq<char>> {
    match o {
        Some(s) => Some(s@),
        None => None,
    }
}

/// A vendored dependency parsed from `.gitattributes`.
#[derive(Debug, Clone, PartialEq, Eq)]
pub struct VendorDep {
    pub pattern: String,
    pub url: String,
    pub reference: Option<String>,
    pub prefix: Option<String>,
}

impl View for VendorDep {
    type V = DepModel;

    open spec fn view(&self) -> DepModel {
        DepModel {
            pattern: self.pattern@,
            url: self.url@,
            reference: opt_view(self.reference),
            prefix: opt_view(self.prefix),
        }
    }
}

/// The value of the attribute in `s` from `a` to `b`, past its key of
/// `klen` characters.
fn value_of(line: &str, a: usize, b: usize, klen: usize) -> (r: String)
    requires
        a + klen <= b <= line@.len(),
    ensures
        r@ == line@.subrange(a as int, b as int).subrange(klen as int, (b - a) as int),
{
    let v = line.substring_char(a + klen, b);
    assert(line@.subrange(a as int, b as int).subrange(klen as int, (b - a) as int) =~= line@.subrange(
        (a + klen) as int,
        b as int,
    ));
    v.to_owned()
}

/// Returns `true` if `line` declares `pattern` and carries at least one
/// vendor attribute (`vendored`, `name=`, `url=` or `branch=`).
pub fn is_vendor_line_for_pattern(line: &str, pattern: &str) -> (r: bool)
    ensures
        r == vendor_line_for(line@, pattern@),
{
    let chars = chars_of(line);
    let pat = chars_of(pattern);
    let spans = word_spans(&chars, false);
    let ghost ws = words(line@, false);
    proof {
        lemma_words_nonempty(line@, false);
    }
    if spans.len() == 0 {
        return false;
    }
    let (a0, b0) = spans[0];
    assert(chars@.subrange(a0 as int, b0 as int) == ws[0]);
    if a0 < b0 && chars[a0] == '#' {
        assert(ws[0][0] == chars@[a0 as int]);
        return false;
    }
    if a0 >= b0 {
        assert(ws[0].len() > 0);
        return false;
    }
    assert(ws[0][0] == chars@[a0 as int]);
    if !span_equals(&chars, a0, b0, &pat) {
        return false;
    }
    let vendored = vec!['v', 'e', 'n', 'd', 'o', 'r', 'e', 'd'];
    let k_name = vec!['n', 'a', 'm', 'e', '='];
    let k_url = vec!['u', 'r', 'l', '='];
    let k_branch = vec!['b', 'r', 'a', 'n', 'c', 'h', '='];
    let mut i: usize = 1;
    while i < spans.len()
        invariant
            1 <= i <= spans.len(),
            spans_match(chars@, spans@, ws),
            chars@ == line@,
            ws == words(line@, false),
            ws.len() > 0,
            ws[0] == pattern@,
            is_declaration(ws),
            vendored@ == lit_vendored(),
            k_name@ == key_name(),
            k_url@ == key_url(),
            k_branch@ == key_branch(),
            forall|j: int| 1 <= j < i ==> !#[trigger] is_vendor_attr(ws[j]),
        decreases spans.len() - i,
    {
        let (a, b) = spans[i];
        assert(chars@.subrange(a as int, b as int) == ws[i as int]);
        if span_equals(&chars, a, b, &vendored) || span_has_prefix(&chars, a, b, &k_name)
            || span_has_prefix(&chars, a, b, &k_url) || span_has_prefix(&chars, a, b, &k_branch) {
            assert(is_vendor_attr(ws[i as int]));
            return true;
        }
        i = i + 1;
    }
    false
}


/// The value held by an optional attribute span of `s`, past a key of `k`
/// characters.
pub open spec fn span_value(s: Seq<char>, o: Option<(usize, usize)>, k: int) -> Option<Seq<char>> {
    match o {
        Some((a, b)) => Some(s.subrange(a as int, b as int).subrange(k, b - a)),
        None => None,
    }
}

/// An optional attribute span of `s` that leaves room for a key of `k`
/// characters.
pub open spec fn span_fits(s: Seq<char>, o: Option<(usize, usize)>, k: int) -> bool {
    o matches Some((a, b)) ==> a + k <= b <= s.len()
}

/// The value of an optional attribute span, as a string.
fn opt_value_of(line: &str, o: Option<(usize, usize)>, klen: usize) -> (r: Option<String>)
    requires
        span_fits(line@, o, klen as int),
    ensures
        opt_view(r) == span_value(line@, o, klen as int),
{
    match o {
        Some((a, b)) => Some(value_of(line, a, b, klen)),
        None => None,
    }
}

/// Parses one declaration line: the dependency it declares, if any.
pub fn parse_vendor_line(line: &str) -> (r: Option<VendorDep>)
    ensures
        match r {
            Some(d) => line_dep(line@) == Some(d@),
            None => line_dep(line@) is None,
        },
{
    let chars = chars_of(line);
    let spans = word_spans(&chars, false);
    let ghost ws = words(line@, false);
    proof {
        lemma_words_nonempty(line@, false);
    }
    if spans.len() == 0 {
        return None;
    }
    let (a0, b0) = spans[0];
    assert(chars@.subrange(a0 as int, b0 as int) == ws[0]);
    assert(ws[0].len() > 0);
    assert(ws[0][0] == chars@[a0 as int]);
    if chars[a0] == '#' {
        return None;
    }
    let vendored = vec!['v', 'e', 'n', 'd', 'o', 'r', 'e', 'd'];
    let k_url = vec!['u', 'r', 'l', '='];
    let k_branch = vec!['b', 'r', 'a', 'n', 'c', 'h', '='];
    let k_prefix = vec!['p', 'r', 'e', 'f', 'i', 'x', '='];
    let mut is_vendored = false;
    let mut url: Option<(usize, usize)> = None;
    let mut branch: Option<(usize, usize)> = None;
    let mut prefix: Option<(usize, usize)> = None;
    let mut i: usize = 1;
    while i < spans.len()
        invariant
            1 <= i <= spans.len(),
            spans_match(chars@, spans@, ws),
            chars@ == line@,
            ws == words(line@, false),
            vendored@ == lit_vendored(),
            k_url@ == key_url(),
            k_branch@ == key_branch(),
            k_prefix@ == key_prefix(),
            is_vendored == (exists|j: int| 1 <= j < i && #[trigger] ws[j] == lit_vendored()),
            span_fits(line@, url, 4),
            span_fits(line@, branch, 7),
            span_fits(line@, prefix, 7),
            span_value(line@, url, 4) == last_value(ws, key_url(), i as int),
            span_value(line@, branch, 7) == last_value(ws, key_branch(), i as int),
            span_value(line@, prefix, 7) == last_value(ws, key_prefix(), i as int),
        decreases spans.len() - i,
    {
        let (a, b) = spans[i];
        assert(chars@.subrange(a as int, b as int) == ws[i as int]);
        if span_equals(&chars, a, b, &vendored) {
            is_vendored = true;
        }
        if span_has_prefix(&chars, a, b, &k_url) {
            url = Some((a, b));
        }
        if span_has_prefix(&chars, a, b, &k_branch) {
            branch = Some((a, b));
        }
        if span_has_prefix(&chars, a, b, &k_prefix) {
            prefix = Some((a, b));
        }
        i = i + 1;
    }
    if !is_vendored {
        return None;
    }
    match url {
        None => None,
        Some(_) => {
            let pattern = line.substring_char(a0, b0).to_owned();
            let url_value = opt_value_of(line, url, 4);
            let reference = opt_value_of(line, branch, 7);
            let prefix_value = opt_value_of(line, prefix, 7);
            match url_value {
                Some(u) => Some(
                    VendorDep { pattern, url: u, reference, prefix: prefix_value },
                ),
                None => None,
            }
        },
    }
}

/// Each span in `spans` covers in `s` the line of `ls` at the same position.
proof fn lemma_strip_cr_span(s: Seq<char>, start: int, i: int)
    requires
        0 <= start <= i <= s.len(),
    ensures
        strip_cr(s.subrange(start, i)) == if start < i && s[i - 1] == '\r' {
            s.subrange(start, i - 1)
        } else {
            s.subrange(start, i)
        },
{
    if start < i && s[i - 1] == '\r' {
        assert(s.subrange(start, i).drop_last() =~= s.subrange(start, i - 1));
    }
}

/// The spans of the lines of `s`, as `str::lines` splits it.
pub fn line_spans(s: &Vec<char>) -> (r: Vec<(usize, usize)>)
    ensures
        spans_match(s@, r@, lines_of(s@)),
{
    let mut done: Vec<(usize, usize)> = Vec::new();
    let mut start: usize = 0;
    let mut i: usize = 0;
    while i < s.len()
        invariant
            start <= i <= s.len(),
            line_state(s@, i as int).1 == s@.subrange(start as int, i as int),
            spans_match(s@, done@, line_state(s@, i as int).0),
        decreases s.len() - i,
    {
        let c = s[i];
        let ghost prev = done@;
        let ghost st = line_state(s@, i as int);
        if c == '\n' {
            let end = if start < i && s[i - 1] == '\r' {
                i - 1
            } else {
                i
            };
            proof {
                lemma_strip_cr_span(s@, start as int, i as int);
            }
            done.push((start, end));
            assert forall|k: int| 0 <= k < done@.len() implies {
                &&& (#[trigger] done@[k]).0 <= done@[k].1 <= s@.len()
                &&& s@.subrange(done@[k].0 as int, done@[k].1 as int) == st.0.push(
                    strip_cr(st.1),
                )[k]
            } by {
                if k < prev.len() {
                    assert(done@[k] == prev[k]);
                }
            }
            start = i + 1;
            assert(s@.subrange(start as int, i + 1) =~= Seq::<char>::empty());
        } else {
            assert(s@.subrange(start as int, i + 1) =~= s@.subrange(start as int, i as int).push(c));
        }
        i = i + 1;
    }
    let ghost prev = done@;
    let ghost st = line_state(s@, i as int);
    if start < i {
        done.push((start, i));
        assert forall|k: int| 0 <= k < done@.len() implies {
            &&& (#[trigger] done@[k]).0 <= done@[k].1 <= s@.len()
            &&& s@.subrange(done@[k].0 as int, done@[k].1 as int) == st.0.push(st.1)[k]
        } by {
            if k < prev.len() {
                assert(done@[k] == prev[k]);
            }
        }
    }
    done
}

/// Parses the vendored dependencies that a `.gitattributes` text declares.
///
/// A line declares one when it carries the `vendored` marker and a `url=`;
/// `branch=` and `prefix=` are optional. Other lines are skipped.
pub fn parse_vendor_deps(content: &str) -> (r: Vec<VendorDep>)
    ensures
        r@.map_values(|d: VendorDep| d@) == deps_of(lines_of(content@)),
{
    let chars = chars_of(content);
    let spans = line_spans(&chars);
    let ghost ls = lines_of(content@);
    let mut deps: Vec<VendorDep> = Vec::new();
    let mut k: usize = 0;
    while k < spans.len()
        invariant
            k <= spans.len(),
            chars@ == content@,
            ls == lines_of(content@),
            spans_match(chars@, spans@, ls),
            deps@.map_values(|d: VendorDep| d@) == deps_of(ls.subrange(0, k as int)),
        decreases spans.len() - k,
    {
        let (a, b) = spans[k];
        let line = content.substring_char(a, b);
        assert(line@ == ls[k as int]);
        assert(ls.subrange(0, k + 1).drop_last() =~= ls.subrange(0, k as int));
        match parse_vendor_line(line) {
            Some(d) => {
                deps.push(d);
                assert(deps@.map_values(|d: VendorDep| d@) =~= deps_of(ls.subrange(0, k + 1)));
            },
            None => {},
        }
        k = k + 1;
    }
    assert(ls.subrange(0, spans@.len() as int) =~= ls);
    deps
}

/// Removes the vendor attributes of `pattern` from one line; `None` where
/// nothing but the pattern would be left.
pub fn untrack_line(line: &str, pattern: &str) -> (r: Option<String>)
    ensures
        match r {
            Some(l) => untracked_line(line@, pattern@) == Some(l@),
            None => untracked_line(line@, pattern@) is None,
        },
{
    let chars = chars_of(line);
    let pat = chars_of(pattern);
    let spans = word_spans(&chars, false);
    let ghost ws = words(line@, false);
    proof {
        lemma_words_nonempty(line@, false);
    }
    if spans.len() == 0 {
        return Some(line.to_owned());
    }
    let (a0, b0) = spans[0];
    assert(chars@.subrange(a0 as int, b0 as int) == ws[0]);
    assert(ws[0].len() > 0);
    assert(ws[0][0] == chars@[a0 as int]);
    if chars[a0] == '#' || !span_equals(&chars, a0, b0, &pat) {
        return Some(line.to_owned());
    }
    let vendored = vec!['v', 'e', 'n', 'd', 'o', 'r', 'e', 'd'];
    let k_name = vec!['n', 'a', 'm', 'e', '='];
    let k_url = vec!['u', 'r', 'l', '='];
    let k_branch = vec!['b', 'r', 'a', 'n', 'c', 'h', '='];
    let k_prefix = vec!['p', 'r', 'e', 'f', 'i', 'x', '='];
    let sep = " ";
    proof {
        reveal_strlit(" ");
        assert(sep@ =~= seq![' ']);
    }
    let mut out = line.substring_char(a0, b0).to_owned();
    let mut removed = false;
    let mut kept: usize = 0;
    assert(seq![ws[0]] + kept_attrs(ws, 1) =~= seq![ws[0]]);
    let mut i: usize = 1;
    while i < spans.len()
        invariant
            1 <= i <= spans.len(),
            spans_match(chars@, spans@, ws),
            chars@ == line@,
            ws == words(line@, false),
            ws.len() > 0,
            sep@ == seq![' '],
            vendored@ == lit_vendored(),
            k_name@ == key_name(),
            k_url@ == key_url(),
            k_branch@ == key_branch(),
            k_prefix@ == key_prefix(),
            removed == (exists|j: int| 1 <= j < i && #[trigger] is_removed_attr(ws[j])),
            kept == kept_attrs(ws, i as int).len(),
            kept <= i,
            out@ == join_words(seq![ws[0]] + kept_attrs(ws, i as int)),
        decreases spans.len() - i,
    {
        let (a, b) = spans[i];
        assert(chars@.subrange(a as int, b as int) == ws[i as int]);
        let ghost before = seq![ws[0]] + kept_attrs(ws, i as int);
        if span_equals(&chars, a, b, &vendored) || span_has_prefix(&chars, a, b, &k_name)
            || span_has_prefix(&chars, a, b, &k_url) || span_has_prefix(&chars, a, b, &k_branch)
            || span_has_prefix(&chars, a, b, &k_prefix) {
            assert(is_removed_attr(ws[i as int]));
            removed = true;
        } else {
            out.append(sep);
            out.append(line.substring_char(a, b));
            kept = kept + 1;
            assert(seq![ws[0]] + kept_attrs(ws, i + 1) =~= before.push(ws[i as int]));
            assert(before.push(ws[i as int]).drop_last() =~= before);
        }
        i = i + 1;
    }
    if !removed {
        return Some(line.to_owned());
    }
    if kept == 0 {
        return None;
    }
    Some(out)
}

/// Removes the vendor attributes of `pattern` from a `.gitattributes` text:
/// a line that declares `pattern` with vendor attributes keeps its other
/// attributes, and goes where none is left; every other line is kept. Each
/// line is ended by a newline.
pub fn remove_vendor_lines(content: &str, pattern: &str) -> (r: String)
    ensures
        r@ == kept_text(lines_of(content@), pattern@),
{
    let chars = chars_of(content);
    let spans = line_spans(&chars);
    let ghost ls = lines_of(content@);
    let mut out = String::new();
    let newline = "\n";
    proof {
        reveal_strlit("\n");
    }
    let mut k: usize = 0;
    while k < spans.len()
        invariant
            k <= spans.len(),
            chars@ == content@,
            ls == lines_of(content@),
            newline@ == seq!['\n'],
            spans_match(chars@, spans@, ls),
            out@ == kept_text(ls.subrange(0, k as int), pattern@),
        decreases spans.len() - k,
    {
        let (a, b) = spans[k];
        let line = content.substring_char(a, b);
        assert(line@ == ls[k as int]);
        assert(ls.subrange(0, k + 1).drop_last() =~= ls.subrange(0, k as int));
        match untrack_line(line, pattern) {
            Some(l) => {
                out.append(l.as_str());
                out.append(newline);
                assert(out@ =~= kept_text(ls.subrange(0, k + 1), pattern@));
            },
            None => {},
        }
        k = k + 1;
    }
    assert(ls.subrange(0, spans@.len() as int) =~= ls);
    out
}


/// The first position at or after `i` where `s` holds `c`.
pub open spec fn find_from(s: Seq<char>, c: char, i: int) -> Option<int>
    decreases s.len() - i,
{
    if i < 0 || i >= s.len() {
        None
    } else if s[i] == c {
        Some(i)
    } else {
        find_from(s, c, i + 1)
    }
}

/// Whether `s` holds `://`.
pub open spec fn has_scheme_separator(s: Seq<char>) -> bool {
    exists|i: int| 0 <= i && i + 3 <= s.len() && s[i] == ':' && s[i + 1] == '/' && #[trigger] s[i + 2] == '/'
}

/// Whether `url` names a remote rather than a local path: it has a scheme
/// (`scheme://...`), or is SCP-style (`user@host:path`: no `/` before the
/// first `@`, and a `:` after it that is not the last character).
pub open spec fn remote_url(url: Seq<char>) -> bool {
    has_scheme_separator(url) || match find_from(url, '@', 0) {
        Some(at) => match find_from(url, ':', at) {
            Some(colon) => !url.subrange(0, at).contains('/') && colon + 1 < url.len(),
            None => false,
        },
        None => false,
    }
}

/// The first position at or after `i` where `s` holds `c`.
fn find_char(s: &Vec<char>, c: char, i: usize) -> (r: Option<usize>)
    requires
        i <= s.len(),
    ensures
        match r {
            Some(k) => find_from(s@, c, i as int) == Some(k as int) && i <= k < s.len(),
            None => find_from(s@, c, i as int) is None,
        },
{
    let mut k = i;
    while k < s.len()
        invariant
            i <= k <= s.len(),
            find_from(s@, c, i as int) == find_from(s@, c, k as int),
        decreases s.len() - k,
    {
        if s[k] == c {
            return Some(k);
        }
        k = k + 1;
    }
    None
}

/// Returns `true` if `url` looks like a remote URL rather than a local path.
///
/// Recognizes `scheme://...` and SCP-style `user@host:path`.
pub fn is_remote_url(url: &str) -> (r: bool)
    ensures
        r == remote_url(url@),
{
    let s = chars_of(url);
    let mut i: usize = 0;
    while s.len() >= 3 && i < s.len() - 2
        invariant
            s@ == url@,
            i <= s.len(),
            forall|j: int|
                0 <= j < i && j + 3 <= s@.len() ==> !(s@[j] == ':' && s@[j + 1] == '/' && #[trigger] s@[j + 2] == '/'),
        decreases s.len() - i,
    {
        if s[i] == ':' && s[i + 1] == '/' && s[i + 2] == '/' {
            return true;
        }
        i = i + 1;
    }
    assert(!has_scheme_separator(url@)) by {
        if has_scheme_separator(url@) {
            let j = choose|j: int| 0 <= j && j + 3 <= s@.len() && s@[j] == ':' && s@[j + 1] == '/' && #[trigger] s@[j + 2] == '/';
            assert(j < i);
        }
    }
    match find_char(&s, '@', 0) {
        None => false,
        Some(at) => match find_char(&s, ':', at) {
            None => false,
            Some(colon) => {
                let mut slash_before = false;
                let mut j: usize = 0;
                while j < at
                    invariant
                        at <= s.len(),
                        j <= at,
                        slash_before == (exists|k: int| 0 <= k < j && s@[k] == '/'),
                    decreases at - j,
                {
                    if s[j] == '/' {
                        slash_before = true;
                    }
                    j = j + 1;
                }
                proof {
                    let pre = url@.subrange(0, at as int);
                    if slash_before {
                        let k = choose|k: int| 0 <= k < at && s@[k] == '/';
                        assert(pre[k] == '/');
                    } else {
                        assert forall|k: int| 0 <= k < pre.len() implies pre[k] != '/' by {
                            assert(pre[k] == s@[k]);
                        }
                    }
                }
                !slash_before && colon + 1 < s.len()
            },
        },
    }
}

/// The values of an optional string slice.
pub open spec fn opt_str_view(o: Option<&str>) -> Option<Seq<char>> {
    match o {
        Some(s) => Some(s@),
        None => None,
    }
}

/// The attributes that declare a vendored dependency: the `vendored` marker,
/// `url=`, then `prefix=` and `branch=` where given.
pub open spec fn tracked_attrs(
    url: Seq<char>,
    reference: Option<Seq<char>>,
    prefix: Option<Seq<char>>,
) -> Seq<Seq<char>> {
    let base = seq![lit_vendored(), key_url() + url];
    let with_prefix = match prefix {
        Some(p) => base.push(key_prefix() + p),
        None => base,
    };
    match reference {
        Some(b) => with_prefix.push(key_branch() + b),
        None => with_prefix,
    }
}

/// `key` followed by `value`.
fn keyed(key: &str, value: &str) -> (r: String)
    ensures
        r@ == key@ + value@,
{
    let mut r = key.to_owned();
    r.append(value);
    r
}

/// The attributes to record for a tracked pattern.
pub fn vendor_attributes(url: &str, reference: Option<&str>, prefix: Option<&str>) -> (r: Vec<
    String,
>)
    ensures
        r@.map_values(|a: String| a@) == tracked_attrs(url@, opt_str_view(reference), opt_str_view(
            prefix,
        )),
{
    proof {
        reveal_strlit("vendored");
        reveal_strlit("url=");
        reveal_strlit("prefix=");
        reveal_strlit("branch=");
    }
    assert("vendored"@ =~= lit_vendored());
    assert("url="@ =~= key_url());
    assert("prefix="@ =~= key_prefix());
    assert("branch="@ =~= key_branch());
    let mut attrs: Vec<String> = Vec::new();
    attrs.push("vendored".to_owned());
    attrs.push(keyed("url=", url));
    match prefix {
        Some(p) => attrs.push(keyed("prefix=", p)),
        None => {},
    }
    match reference {
        Some(b) => attrs.push(keyed("branch=", b)),
        None => {},
    }
    assert(attrs@.map_values(|a: String| a@) =~= tracked_attrs(
        url@,
        opt_str_view(reference),
        opt_str_view(prefix),
    ));
    attrs
}

/// The dependencies whose pattern is exactly `filter`, or all of them when
/// there is none, in their order.
pub open spec fn selected_deps(deps: Seq<VendorDep>, filter: Option<Seq<char>>) -> Seq<VendorDep>
    decreases deps.len(),
{
    if deps.len() == 0 {
        seq![]
    } else {
        let prev = selected_deps(deps.drop_last(), filter);
        match filter {
            Some(f) => if deps.last().pattern@ == f {
                prev.push(deps.last())
            } else {
                prev
            },
            None => prev.push(deps.last()),
        }
    }
}

/// Filters dependencies by exact pattern match.
pub fn filter_deps<'a>(deps: &'a [VendorDep], filter: Option<&str>) -> (r: Vec<&'a VendorDep>)
    ensures
        r@.map_values(|d: &VendorDep| *d) == selected_deps(deps@, opt_str_view(filter)),
{
    let f = match filter {
        Some(f) => Some(chars_of(f)),
        None => None,
    };
    let mut r: Vec<&'a VendorDep> = Vec::new();
    let mut i: usize = 0;
    while i < deps.len()
        invariant
            i <= deps@.len(),
            match f {
                Some(v) => opt_str_view(filter) == Some(v@),
                None => filter is None,
            },
            r@.map_values(|d: &VendorDep| *d) == selected_deps(deps@.subrange(0, i as int), opt_str_view(filter)),
        decreases deps.len() - i,
    {
        let d = &deps[i];
        assert(deps@.subrange(0, i + 1).drop_last() =~= deps@.subrange(0, i as int));
        let keep = match &f {
            Some(v) => {
                let p = chars_of(d.pattern.as_str());
                same_chars(&p, v)
            },
            None => true,
        };
        if keep {
            r.push(d);
        }
        assert(r@.map_values(|d: &VendorDep| *d) =~= selected_deps(deps@.subrange(0, i + 1), opt_str_view(filter)));
        i = i + 1;
    }
    assert(deps@.subrange(0, deps@.len() as int) =~= deps@);
    r
}


/// The directory made of the first `k` components, as an absolute path
/// (`""` for the root).
pub open spec fn dir_string(comps: Seq<Seq<char>>, k: int) -> Seq<char>
    decreases k,
{
    if k <= 0 {
        seq![]
    } else {
        dir_string(comps, k - 1) + seq!['/'] + comps[k - 1]
    }
}

/// The `.gitattributes` file in the directory of the first `k` components.
pub open spec fn gitattributes_at(comps: Seq<Seq<char>>, k: int) -> Seq<char> {
    dir_string(comps, k) + "/.gitattributes"@
}

/// Whether the components `cur` lie under (or are) the directory `wd`.
pub open spec fn lies_under(cur: Seq<Seq<char>>, wd: Seq<Seq<char>>) -> bool {
    wd.len() <= cur.len() && cur.subrange(0, wd.len() as int) == wd
}

/// The `.gitattributes` files to look for, in order: in `current`, then in
/// each parent up to and including `workdir`; none where `current` does not
/// lie under `workdir`.
pub open spec fn gitattributes_search(workdir: Seq<char>, current: Seq<char>) -> Seq<Seq<char>> {
    let cur = words(current, true);
    let wd = words(workdir, true);
    if lies_under(cur, wd) {
        Seq::new(
            (cur.len() - wd.len() + 1) as nat,
            |i: int| gitattributes_at(cur, cur.len() - i),
        )
    } else {
        seq![]
    }
}

/// The `.gitattributes` files to look for when walking up from `current`
/// to the repository root `workdir`; both are absolute paths.
pub fn gitattributes_candidates(workdir: &str, current: &str) -> (r: Vec<String>)
    ensures
        r@.map_values(|s: String| s@) == gitattributes_search(workdir@, current@),
{
    let cur_chars = chars_of(current);
    let spans = word_spans(&cur_chars, true);
    let wd = split_words(&chars_of(workdir), true);
    let ghost cur = words(current@, true);
    let ghost wdv = words(workdir@, true);
    let mut out: Vec<String> = Vec::new();
    assert(seqs_of(wd@).len() == wd@.len());
    assert(out@.map_values(|s: String| s@) =~= Seq::<Seq<char>>::empty());
    if wd.len() > spans.len() {
        return out;
    }
    let mut i: usize = 0;
    while i < wd.len()
        invariant
            i <= wd@.len(),
            wd@.len() <= spans@.len(),
            seqs_of(wd@) == wdv,
            wdv == words(workdir@, true),
            out@.len() == 0,
            cur_chars@ == current@,
            cur == words(current@, true),
            spans_match(cur_chars@, spans@, cur),
            forall|k: int| 0 <= k < i ==> cur[k] == wdv[k],
        decreases wd@.len() - i,
    {
        let (a, b) = spans[i];
        let comp = current.substring_char(a, b);
        let c = chars_of(comp);
        assert(c@ == cur[i as int]);
        assert(seqs_of(wd@)[i as int] == wd@[i as int]@);
        let eq = same_chars(&c, &wd[i]);
        if !eq {
            assert(!lies_under(cur, wdv)) by {
                if lies_under(cur, wdv) {
                    assert(cur.subrange(0, wdv.len() as int)[i as int] == cur[i as int]);
                    assert(wdv[i as int] == wd@[i as int]@);
                    assert(c@ == wd@[i as int]@);
                }
            }
            assert(gitattributes_search(workdir@, current@) =~= Seq::<Seq<char>>::empty());
            assert(out@.map_values(|s: String| s@) =~= Seq::<Seq<char>>::empty());
            return out;
        }
        i = i + 1;
    }
    assert(cur.subrange(0, wdv.len() as int) =~= wdv);
    // The files of every directory from the root down to `current`.
    let mut files: Vec<String> = Vec::new();
    let mut dir = String::new();
    proof {
        reveal_strlit("/.gitattributes");
        reveal_strlit("/");
        assert("/"@ =~= seq!['/']);
    }
    let mut k: usize = 0;
    let mut first = dir.clone();
    first.append("/.gitattributes");
    files.push(first);
    assert(dir@ =~= dir_string(cur, 0));
    while k < spans.len()
        invariant
            k <= spans@.len(),
            cur_chars@ == current@,
            spans_match(cur_chars@, spans@, cur),
            dir@ == dir_string(cur, k as int),
            files@.len() == k + 1,
            forall|j: int| 0 <= j <= k ==> (#[trigger] files@[j])@ == gitattributes_at(cur, j),
        decreases spans@.len() - k,
    {
        let (a, b) = spans[k];
        let comp = current.substring_char(a, b);
        assert(comp@ == cur[k as int]);
        proof {
            reveal_strlit("/");
            assert("/"@ =~= seq!['/']);
        }
        dir.append("/");
        dir.append(comp);
        k = k + 1;
        assert(dir@ =~= dir_string(cur, k as int));
        let mut f = dir.clone();
        f.append("/.gitattributes");
        files.push(f);
    }
    // Walk up from `current` to `workdir`.
    let n = spans.len();
    let m = wd.len();
    let mut x: usize = n;
    loop
        invariant_except_break
            out@.len() == n - x,
            forall|y: int| 0 <= y < n - x ==> (#[trigger] out@[y])@ == gitattributes_at(cur, n - y),
        invariant
            m <= x <= n,
            n == cur.len(),
            m == wdv.len(),
            files@.len() == n + 1,
            forall|y: int| 0 <= y <= n ==> (#[trigger] files@[y])@ == gitattributes_at(cur, y),
        ensures
            out@.len() == n - m + 1,
            forall|y: int| 0 <= y < n - m + 1 ==> (#[trigger] out@[y])@ == gitattributes_at(cur, n - y),
        decreases x,
    {
        out.push(files[x].clone());
        if x == m {
            break;
        }
        x = x - 1;
    }
    assert(out@.map_values(|s: String| s@) =~= gitattributes_search(workdir@, current@));
    out
}

/// The `.gitattributes` file of the directory `current` itself, used where
/// none is found.
pub fn default_gitattributes(current: &str) -> (r: String)
    ensures
        r@ == gitattributes_at(words(current@, true), words(current@, true).len() as int),
{
    let cur_chars = chars_of(current);
    let spans = word_spans(&cur_chars, true);
    let ghost cur = words(current@, true);
    let mut dir = String::new();
    proof {
        reveal_strlit("/.gitattributes");
        reveal_strlit("/");
        assert("/"@ =~= seq!['/']);
    }
    let mut k: usize = 0;
    while k < spans.len()
        invariant
            k <= spans@.len(),
            cur_chars@ == current@,
            spans_match(cur_chars@, spans@, cur),
            dir@ == dir_string(cur, k as int),
        decreases spans@.len() - k,
    {
        let (a, b) = spans[k];
        let comp = current.substring_char(a, b);
        assert(comp@ == cur[k as int]);
        proof {
            reveal_strlit("/");
            assert("/"@ =~= seq!['/']);
        }
        dir.append("/");
        dir.append(comp);
        k = k + 1;
        assert(dir@ =~= dir_string(cur, k as int));
    }
    dir.append("/.gitattributes");
    dir
}

} // verus!
