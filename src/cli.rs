use vstd::prelude::*;
use crate::attributes::{opt_view, VendorDep};
use crate::merge::Operation;

verus! {

/// The command line: one subcommand.
pub struct Cli {
    pub command: Commands,
}

/// The subcommands of the tool.
pub enum Commands {
    /// Track a new vendored dependency pattern.
    Track { pattern: String, url: String, branch: Option<String>, prefix: Option<String> },
    /// Untrack a vendored dependency pattern.
    Untrack { pattern: String },
    /// Show the status of vendored dependencies.
    Status { pattern: Option<String> },
    /// Fetch the latest content from vendored dependency sources.
    Fetch { pattern: Option<String> },
    /// Merge the latest content from vendored dependency sources.
    Merge { pattern: Option<String>, no_commit: bool, squash: bool, message: Option<String> },
}

impl Commands {
    /// The operation a subcommand runs.
    pub open spec fn operation_of(&self) -> Operation {
        match self {
            Commands::Track { .. } => Operation::Track,
            Commands::Untrack { .. } => Operation::Untrack,
            Commands::Status { .. } => Operation::Status,
            Commands::Fetch { .. } => Operation::Fetch,
            Commands::Merge { .. } => Operation::Merge,
        }
    }

    /// The operation this subcommand runs.
    pub fn operation(&self) -> (r: Operation)
        ensures
            r == self.operation_of(),
    {
        match self {
            Commands::Track { .. } => Operation::Track,
            Commands::Untrack { .. } => Operation::Untrack,
            Commands::Status { .. } => Operation::Status,
            Commands::Fetch { .. } => Operation::Fetch,
            Commands::Merge { .. } => Operation::Merge,
        }
    }
}

/// The lines that report a tracked pattern: the pattern, its prefix if any,
/// its URL, its branch if any.
pub open spec fn track_summary_of(
    pattern: Seq<char>,
    url: Seq<char>,
    branch: Option<Seq<char>>,
    prefix: Option<Seq<char>>,
) -> Seq<Seq<char>> {
    let head = seq!["Tracked pattern: "@ + pattern];
    let with_prefix = match prefix {
        Some(p) => head.push("  prefix: "@ + p),
        None => head,
    };
    let with_url = with_prefix.push("  url: "@ + url);
    match branch {
        Some(b) => with_url.push("  branch: "@ + b),
        None => with_url,
    }
}

/// `label` followed by `value`.
fn labelled(label: &str, value: &str) -> (r: String)
    ensures
        r@ == label@ + value@,
{
    let mut r = label.to_owned();
    r.append(value);
    r
}

/// The lines printed after a pattern was tracked.
pub fn track_summary(pattern: &str, url: &str, branch: Option<&str>, prefix: Option<&str>) -> (r: Vec<
    String,
>)
    ensures
        r@.map_values(|s: String| s@) == track_summary_of(
            pattern@,
            url@,
            crate::attributes::opt_str_view(branch),
            crate::attributes::opt_str_view(prefix),
        ),
{
    let mut lines: Vec<String> = Vec::new();
    lines.push(labelled("Tracked pattern: ", pattern));
    match prefix {
        Some(p) => lines.push(labelled("  prefix: ", p)),
        None => {},
    }
    lines.push(labelled("  url: ", url));
    match branch {
        Some(b) => lines.push(labelled("  branch: ", b)),
        None => {},
    }
    assert(lines@.map_values(|s: String| s@) =~= track_summary_of(
        pattern@,
        url@,
        crate::attributes::opt_str_view(branch),
        crate::attributes::opt_str_view(prefix),
    ));
    lines
}

/// Whether `c` may stand as it is in the name of a vendor reference.
pub open spec fn ref_safe(c: char) -> bool {
    ('a' <= c && c <= 'z') || ('A' <= c && c <= 'Z') || ('0' <= c && c <= '9') || c == '-'
}

/// The hexadecimal digit of `d`, below 16.
pub open spec fn hex_digit(d: u32) -> char {
    if d == 0 {
        '0'
    } else if d == 1 {
        '1'
    } else if d == 2 {
        '2'
    } else if d == 3 {
        '3'
    } else if d == 4 {
        '4'
    } else if d == 5 {
        '5'
    } else if d == 6 {
        '6'
    } else if d == 7 {
        '7'
    } else if d == 8 {
        '8'
    } else if d == 9 {
        '9'
    } else if d == 10 {
        'a'
    } else if d == 11 {
        'b'
    } else if d == 12 {
        'c'
    } else if d == 13 {
        'd'
    } else if d == 14 {
        'e'
    } else {
        'f'
    }
}

/// The eight hexadecimal digits of `n`, most significant first.
pub open spec fn hex8(n: u32) -> Seq<char> {
    seq![
        hex_digit((n >> 28u32) & 15u32),
        hex_digit((n >> 24u32) & 15u32),
        hex_digit((n >> 20u32) & 15u32),
        hex_digit((n >> 16u32) & 15u32),
        hex_digit((n >> 12u32) & 15u32),
        hex_digit((n >> 8u32) & 15u32),
        hex_digit((n >> 4u32) & 15u32),
        hex_digit(n & 15u32),
    ]
}

/// How a character is written in a reference name: as itself where it is
/// safe there, else as `_` and the eight hex digits of its code point.
pub open spec fn ref_code(c: char) -> Seq<char> {
    if ref_safe(c) {
        seq![c]
    } else {
        seq!['_'] + hex8(c as u32)
    }
}

/// A text written for a reference name, character by character.
pub open spec fn ref_encode(s: Seq<char>) -> Seq<char>
    decreases s.len(),
{
    if s.len() == 0 {
        seq![]
    } else {
        ref_code(s[0]) + ref_encode(s.drop_first())
    }
}

/// The reference under which the upstream commit of a pattern is kept.
pub open spec fn vendor_ref_of(pattern: Seq<char>) -> Seq<char> {
    "refs/vendor/"@ + ref_encode(pattern)
}

/// The reference that records the base of the next merge of a pattern.
pub open spec fn base_ref_of(pattern: Seq<char>) -> Seq<char> {
    "refs/vendor-base/"@ + ref_encode(pattern)
}

/// Writing a concatenation writes its parts one after the other.
proof fn lemma_ref_encode_concat(x: Seq<char>, y: Seq<char>)
    ensures
        ref_encode(x + y) == ref_encode(x) + ref_encode(y),
    decreases x.len(),
{
    if x.len() == 0 {
        assert(x + y =~= y);
        assert(ref_encode(x) + ref_encode(y) =~= ref_encode(y));
    } else {
        assert((x + y)[0] == x[0]);
        assert((x + y).drop_first() =~= x.drop_first() + y);
        lemma_ref_encode_concat(x.drop_first(), y);
        assert(ref_code(x[0]) + (ref_encode(x.drop_first()) + ref_encode(y)) =~= (ref_code(x[0])
            + ref_encode(x.drop_first())) + ref_encode(y));
    }
}

/// Different digits below 16 are written differently.
proof fn lemma_hex_digit_injective(a: u32, b: u32)
    requires
        a < 16,
        b < 16,
        hex_digit(a) == hex_digit(b),
    ensures
        a == b,
{
}

/// Numbers with the same eight hex digits are equal.
proof fn lemma_hex8_injective(n: u32, m: u32)
    requires
        hex8(n) == hex8(m),
    ensures
        n == m,
{
    assert(forall|x: u32| #![auto] x & 15u32 < 16) by (bit_vector);
    assert(hex8(n)[0] == hex8(m)[0]);
    assert(hex8(n)[1] == hex8(m)[1]);
    assert(hex8(n)[2] == hex8(m)[2]);
    assert(hex8(n)[3] == hex8(m)[3]);
    assert(hex8(n)[4] == hex8(m)[4]);
    assert(hex8(n)[5] == hex8(m)[5]);
    assert(hex8(n)[6] == hex8(m)[6]);
    assert(hex8(n)[7] == hex8(m)[7]);
    lemma_hex_digit_injective((n >> 28u32) & 15u32, (m >> 28u32) & 15u32);
    lemma_hex_digit_injective((n >> 24u32) & 15u32, (m >> 24u32) & 15u32);
    lemma_hex_digit_injective((n >> 20u32) & 15u32, (m >> 20u32) & 15u32);
    lemma_hex_digit_injective((n >> 16u32) & 15u32, (m >> 16u32) & 15u32);
    lemma_hex_digit_injective((n >> 12u32) & 15u32, (m >> 12u32) & 15u32);
    lemma_hex_digit_injective((n >> 8u32) & 15u32, (m >> 8u32) & 15u32);
    lemma_hex_digit_injective((n >> 4u32) & 15u32, (m >> 4u32) & 15u32);
    lemma_hex_digit_injective(n & 15u32, m & 15u32);
    assert(n == m) by (bit_vector)
        requires
            n & 15 == m & 15,
            (n >> 4) & 15 == (m >> 4) & 15,
            (n >> 8) & 15 == (m >> 8) & 15,
            (n >> 12) & 15 == (m >> 12) & 15,
            (n >> 16) & 15 == (m >> 16) & 15,
            (n >> 20) & 15 == (m >> 20) & 15,
            (n >> 24) & 15 == (m >> 24) & 15,
            (n >> 28) & 15 == (m >> 28) & 15,
    ;
}

/// Characters with the same code point are equal.
proof fn lemma_same_code_point(a: char, b: char)
    requires
        (a as u32) == (b as u32),
    ensures
        a == b,
{
}

/// Different texts are written differently.
pub proof fn lemma_ref_encode_injective(a: Seq<char>, b: Seq<char>)
    requires
        ref_encode(a) == ref_encode(b),
    ensures
        a == b,
    decreases a.len(),
{
    if a.len() == 0 {
        if b.len() > 0 {
            assert(ref_encode(b).len() > 0);
        }
        assert(b =~= a);
    } else if b.len() == 0 {
        assert(ref_encode(a).len() > 0);
    } else {
        let ca = ref_code(a[0]);
        let cb = ref_code(b[0]);
        let ra = ref_encode(a.drop_first());
        let rb = ref_encode(b.drop_first());
        assert(ref_encode(a) == ca + ra);
        assert(ref_encode(b) == cb + rb);
        assert((ca + ra)[0] == ca[0]);
        assert((cb + rb)[0] == cb[0]);
        if ref_safe(a[0]) != ref_safe(b[0]) {
            assert(ca[0] != cb[0]);
        }
        assert(ca.len() == cb.len());
        assert((ca + ra).subrange(0, ca.len() as int) =~= ca);
        assert((cb + rb).subrange(0, cb.len() as int) =~= cb);
        assert((ca + ra).skip(ca.len() as int) =~= ra);
        assert((cb + rb).skip(cb.len() as int) =~= rb);
        assert(ca == cb);
        assert(ra == rb);
        if !ref_safe(a[0]) {
            assert(ca.skip(1) =~= hex8(a[0] as u32));
            assert(cb.skip(1) =~= hex8(b[0] as u32));
            assert(hex8(a[0] as u32) == hex8(b[0] as u32));
            lemma_hex8_injective(a[0] as u32, b[0] as u32);
            lemma_same_code_point(a[0], b[0]);
        } else {
            assert(ref_safe(b[0]));
            assert(ca =~= seq![a[0]]);
            assert(cb =~= seq![b[0]]);
            assert(ca[0] == a[0]);
            assert(cb[0] == b[0]);
        }
        assert(a[0] == b[0]);
        lemma_ref_encode_injective(a.drop_first(), b.drop_first());
        assert(a =~= seq![a[0]] + a.drop_first());
        assert(b =~= seq![b[0]] + b.drop_first());
    }
}

/// Different patterns keep their upstream commits, and their merge bases,
/// under different references.
pub proof fn lemma_refs_distinct(a: Seq<char>, b: Seq<char>)
    requires
        a != b,
    ensures
        vendor_ref_of(a) != vendor_ref_of(b),
        base_ref_of(a) != base_ref_of(b),
{
    let v = "refs/vendor/"@;
    let w = "refs/vendor-base/"@;
    if vendor_ref_of(a) == vendor_ref_of(b) {
        assert((v + ref_encode(a)).skip(v.len() as int) =~= ref_encode(a));
        assert((v + ref_encode(b)).skip(v.len() as int) =~= ref_encode(b));
        lemma_ref_encode_injective(a, b);
    }
    if base_ref_of(a) == base_ref_of(b) {
        assert((w + ref_encode(a)).skip(w.len() as int) =~= ref_encode(a));
        assert((w + ref_encode(b)).skip(w.len() as int) =~= ref_encode(b));
        lemma_ref_encode_injective(a, b);
    }
}

/// The hexadecimal digit of `d` as a string.
fn hex_str(d: u32) -> (r: &'static str)
    requires
        d < 16,
    ensures
        r@ == seq![hex_digit(d)],
{
    proof {
        reveal_strlit("0");
        reveal_strlit("1");
        reveal_strlit("2");
        reveal_strlit("3");
        reveal_strlit("4");
        reveal_strlit("5");
        reveal_strlit("6");
        reveal_strlit("7");
        reveal_strlit("8");
        reveal_strlit("9");
        reveal_strlit("a");
        reveal_strlit("b");
        reveal_strlit("c");
        reveal_strlit("d");
        reveal_strlit("e");
        reveal_strlit("f");
    }
    let r = if d == 0 {
        "0"
    } else if d == 1 {
        "1"
    } else if d == 2 {
        "2"
    } else if d == 3 {
        "3"
    } else if d == 4 {
        "4"
    } else if d == 5 {
        "5"
    } else if d == 6 {
        "6"
    } else if d == 7 {
        "7"
    } else if d == 8 {
        "8"
    } else if d == 9 {
        "9"
    } else if d == 10 {
        "a"
    } else if d == 11 {
        "b"
    } else if d == 12 {
        "c"
    } else if d == 13 {
        "d"
    } else if d == 14 {
        "e"
    } else {
        "f"
    };
    assert(r@ =~= seq![hex_digit(d)]);
    r
}

/// Appends the writing of `text` for a reference name to `out`.
fn append_encoded(out: &mut String, text: &str)
    ensures
        final(out)@ == old(out)@ + ref_encode(text@),
{
    let ghost start = out@;
    let n = text.unicode_len();
    let mut i: usize = 0;
    proof {
        reveal_strlit("_");
        assert(text@.subrange(0, 0) =~= Seq::<char>::empty());
    }
    while i < n
        invariant
            n == text@.len(),
            i <= n,
            "_"@ == seq!['_'],
            out@ == start + ref_encode(text@.subrange(0, i as int)),
        decreases n - i,
    {
        let c = text.get_char(i);
        let ghost before = out@;
        if ('a' <= c && c <= 'z') || ('A' <= c && c <= 'Z') || ('0' <= c && c <= '9') || c == '-' {
            out.append(text.substring_char(i, i + 1));
        } else {
            let v = c as u32;
            assert(forall|x: u32| #![auto] x & 15u32 < 16) by (bit_vector);
            out.append("_");
            out.append(hex_str((v >> 28u32) & 15u32));
            out.append(hex_str((v >> 24u32) & 15u32));
            out.append(hex_str((v >> 20u32) & 15u32));
            out.append(hex_str((v >> 16u32) & 15u32));
            out.append(hex_str((v >> 12u32) & 15u32));
            out.append(hex_str((v >> 8u32) & 15u32));
            out.append(hex_str((v >> 4u32) & 15u32));
            out.append(hex_str(v & 15u32));
        }
        assert(out@ =~= before + ref_code(c));
        proof {
            assert(text@.subrange(0, i + 1) =~= text@.subrange(0, i as int) + seq![c]);
            lemma_ref_encode_concat(text@.subrange(0, i as int), seq![c]);
            assert(seq![c].drop_first() =~= Seq::<char>::empty());
            assert(seq![c][0] == c);
            assert(ref_encode(Seq::<char>::empty()) == Seq::<char>::empty());
            assert(ref_encode(seq![c]) == ref_code(c) + ref_encode(Seq::<char>::empty()));
            assert(ref_encode(seq![c]) =~= ref_code(c));
        }
        i = i + 1;
    }
    assert(text@.subrange(0, n as int) =~= text@);
}

/// The reference under which the upstream commit of `pattern` is kept.
pub fn vendor_ref_name(pattern: &str) -> (r: String)
    ensures
        r@ == vendor_ref_of(pattern@),
{
    let mut r = "refs/vendor/".to_owned();
    append_encoded(&mut r, pattern);
    r
}

/// The reference that records the base of the next merge of `pattern`.
pub fn base_ref_name(pattern: &str) -> (r: String)
    ensures
        r@ == base_ref_of(pattern@),
{
    let mut r = "refs/vendor-base/".to_owned();
    append_encoded(&mut r, pattern);
    r
}

/// The refspec that fetches a dependency: its branch, or the remote's
/// `HEAD` where it names none, forced into its vendor reference.
pub open spec fn fetch_refspec_of(dep: VendorDep) -> Seq<char> {
    let source = match opt_view(dep.reference) {
        Some(b) => "refs/heads/"@ + b,
        None => "HEAD"@,
    };
    "+"@ + source + ":"@ + vendor_ref_of(dep.pattern@)
}

/// The refspec that fetches `dep` into its vendor reference.
pub fn fetch_refspec(dep: &VendorDep) -> (r: String)
    ensures
        r@ == fetch_refspec_of(*dep),
{
    let mut r = "+".to_owned();
    match &dep.reference {
        Some(b) => {
            r.append("refs/heads/");
            r.append(b.as_str());
        },
        None => r.append("HEAD"),
    }
    r.append(":");
    let name = vendor_ref_name(dep.pattern.as_str());
    r.append(name.as_str());
    assert(r@ =~= fetch_refspec_of(*dep));
    r
}

} // verus!
