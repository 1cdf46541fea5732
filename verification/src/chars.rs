use vstd::prelude::*;

verus! {

/// The character classes that the grammar scans runs of.
#[derive(Clone, Copy, PartialEq, Eq, Debug)]
pub enum CharClass {
    /// Any character but `=`, ` `, `}`, `\t`, `\n`, `\r` (attribute keys, formats).
    KeyChar,
    /// Any character but ` `, `}`, `\t`, `\n`, `\r`, `\\` (unescaped attribute values).
    ValueChar,
    /// Any character but ` `, `\t`, `\r`, `\n`, `]` (div names).
    FieldChar,
    /// Any character but ` `, `\t`, `\n`, `\r`, `]`, `#` (first word of a hash).
    HashHead,
    /// Any character but `\t`, `\r`, `\n`, `]`, `#` (rest of a hash).
    HashTail,
    /// Any character but `|` and `]` (link locations).
    LocatorChar,
    /// One of `*`, `_`, `=`, `+`, `-`, `^`, `~` (bracket tags).
    BracketTag,
    /// The backtick.
    Backtick,
    /// The hash sign.
    HashSign,
    /// A space or a tab.
    Space,
    /// An ASCII digit.
    Digit,
    /// An ASCII letter.
    Alpha,
    /// A space, a tab, a carriage return or a line feed.
    MultiSpace,
    /// Any character but `\r` and `\n`.
    NotLineEnd,
}

pub open spec fn in_class(k: CharClass, c: char) -> bool {
    match k {
        CharClass::KeyChar => !(c == '=' || c == ' ' || c == '}' || c == '\t' || c == '\n' || c == '\r'),
        CharClass::ValueChar => !(c == ' ' || c == '}' || c == '\t' || c == '\n' || c == '\r' || c == '\\'),
        CharClass::FieldChar => !(c == ' ' || c == '\t' || c == '\r' || c == '\n' || c == ']'),
        CharClass::HashHead => !(c == ' ' || c == '\t' || c == '\n' || c == '\r' || c == ']' || c == '#'),
        CharClass::HashTail => !(c == '\t' || c == '\r' || c == '\n' || c == ']' || c == '#'),
        CharClass::LocatorChar => !(c == '|' || c == ']'),
        CharClass::BracketTag => c == '*' || c == '_' || c == '=' || c == '+' || c == '-' || c == '^' || c == '~',
        CharClass::Backtick => c == '`',
        CharClass::HashSign => c == '#',
        CharClass::Space => c == ' ' || c == '\t',
        CharClass::Digit => '0' <= c && c <= '9',
        CharClass::Alpha => ('a' <= c && c <= 'z') || ('A' <= c && c <= 'Z'),
        CharClass::MultiSpace => c == ' ' || c == '\t' || c == '\r' || c == '\n',
        CharClass::NotLineEnd => !(c == '\r' || c == '\n'),
    }
}

pub fn class_has(k: CharClass, c: char) -> (r: bool)
    ensures
        r == in_class(k, c),
{
    match k {
        CharClass::KeyChar => !(c == '=' || c == ' ' || c == '}' || c == '\t' || c == '\n' || c == '\r'),
        CharClass::ValueChar => !(c == ' ' || c == '}' || c == '\t' || c == '\n' || c == '\r' || c == '\\'),
        CharClass::FieldChar => !(c == ' ' || c == '\t' || c == '\r' || c == '\n' || c == ']'),
        CharClass::HashHead => !(c == ' ' || c == '\t' || c == '\n' || c == '\r' || c == ']' || c == '#'),
        CharClass::HashTail => !(c == '\t' || c == '\r' || c == '\n' || c == ']' || c == '#'),
        CharClass::LocatorChar => !(c == '|' || c == ']'),
        CharClass::BracketTag => c == '*' || c == '_' || c == '=' || c == '+' || c == '-' || c == '^' || c == '~',
        CharClass::Backtick => c == '`',
        CharClass::HashSign => c == '#',
        CharClass::Space => c == ' ' || c == '\t',
        CharClass::Digit => '0' <= c && c <= '9',
        CharClass::Alpha => ('a' <= c && c <= 'z') || ('A' <= c && c <= 'Z'),
        CharClass::MultiSpace => c == ' ' || c == '\t' || c == '\r' || c == '\n',
        CharClass::NotLineEnd => !(c == '\r' || c == '\n'),
    }
}

/// `s[p] == c`, with `p` in bounds.
pub open spec fn char_at(s: Seq<char>, p: int, c: char) -> bool {
    0 <= p < s.len() && s[p] == c
}

/// `s` holds `t` at position `p`.
pub open spec fn has_tag(s: Seq<char>, p: int, t: Seq<char>) -> bool {
    0 <= p && p + t.len() <= s.len() && s.subrange(p, p + t.len()) == t
}

/// The end of the longest run of characters of class `k` that starts at `p`.
pub open spec fn scan(s: Seq<char>, p: int, k: CharClass) -> int
    decreases s.len() - p,
{
    if 0 <= p < s.len() && in_class(k, s[p]) {
        scan(s, p + 1, k)
    } else {
        p
    }
}

/// The end of the line ending (`\n` or `\r\n`) that starts at `p`, if there is one.
pub open spec fn line_ending(s: Seq<char>, p: int) -> Option<int> {
    if char_at(s, p, '\n') {
        Some(p + 1)
    } else if char_at(s, p, '\r') && char_at(s, p + 1, '\n') {
        Some(p + 2)
    } else {
        None
    }
}

/// The position after all the line endings that follow one another from `p`.
pub open spec fn skip_line_endings(s: Seq<char>, p: int) -> int
    decreases s.len() - p,
{
    match line_ending(s, p) {
        Some(q) => skip_line_endings(s, q),
        None => p,
    }
}

/// The end of the first line from `p`: the next line ending or the end of input.
/// A carriage return that no line feed follows makes it fail.
pub open spec fn not_line_ending(s: Seq<char>, p: int) -> Option<int> {
    let e = scan(s, p, CharClass::NotLineEnd);
    if e >= s.len() || s[e] == '\n' || char_at(s, e + 1, '\n') {
        Some(e)
    } else {
        None
    }
}

pub proof fn lemma_scan_bounds(s: Seq<char>, p: int, k: CharClass)
    requires
        0 <= p <= s.len(),
    ensures
        p <= scan(s, p, k) <= s.len(),
        forall|j: int| p <= j < scan(s, p, k) ==> in_class(k, #[trigger] s[j]),
        scan(s, p, k) < s.len() ==> !in_class(k, s[scan(s, p, k)]),
    decreases s.len() - p,
{
    if p < s.len() && in_class(k, s[p]) {
        lemma_scan_bounds(s, p + 1, k);
    }
}

/// A scan over a run of characters of class `k` that ends at `e` ends at `e`.
pub proof fn lemma_scan_run(s: Seq<char>, p: int, e: int, k: CharClass)
    requires
        0 <= p <= e <= s.len(),
        forall|j: int| p <= j < e ==> in_class(k, #[trigger] s[j]),
        e < s.len() ==> !in_class(k, s[e]),
    ensures
        scan(s, p, k) == e,
    decreases e - p,
{
    if p < e {
        assert(in_class(k, s[p]));
        lemma_scan_run(s, p + 1, e, k);
    }
}

pub proof fn lemma_skip_line_endings(s: Seq<char>, p: int)
    requires
        0 <= p <= s.len(),
    ensures
        p <= skip_line_endings(s, p) <= s.len(),
        line_ending(s, skip_line_endings(s, p)) is None,
    decreases s.len() - p,
{
    if let Some(q) = line_ending(s, p) {
        lemma_skip_line_endings(s, q);
    }
}

/// The length of a vector fits in `usize`.
pub proof fn lemma_len_fits(s: &Vec<char>)
    ensures
        s@.len() <= usize::MAX,
{
    vstd::std_specs::vec::axiom_spec_len(s);
}

pub fn char_at_exec(s: &Vec<char>, p: usize, c: char) -> (r: bool)
    ensures
        r == char_at(s@, p as int, c),
{
    p < s.len() && s[p] == c
}

pub fn has_tag_exec(s: &Vec<char>, p: usize, t: &Vec<char>) -> (r: bool)
    ensures
        r == has_tag(s@, p as int, t@),
{
    if p > s.len() || t.len() > s.len() - p {
        return false;
    }
    let n = s.len();
    let mut j: usize = 0;
    while j < t.len()
        invariant
            n == s@.len(),
            p + t@.len() <= s@.len(),
            j <= t@.len(),
            forall|k: int| 0 <= k < j ==> s@[p + k] == t@[k],
        decreases t.len() - j,
    {
        if s[p + j] != t[j] {
            assert(s@.subrange(p as int, p + t@.len())[j as int] != t@[j as int]);
            return false;
        }
        j = j + 1;
    }
    assert(s@.subrange(p as int, p + t@.len()) =~= t@);
    true
}

pub fn scan_exec(s: &Vec<char>, p: usize, k: CharClass) -> (r: usize)
    requires
        p <= s@.len(),
    ensures
        r == scan(s@, p as int, k),
        p <= r <= s@.len(),
        p < s@.len() && in_class(k, s@[p as int]) ==> p < r,
{
    let mut i = p;
    while i < s.len() && class_has(k, s[i])
        invariant
            p <= i <= s@.len(),
            scan(s@, i as int, k) == scan(s@, p as int, k),
        decreases s@.len() - i,
    {
        i = i + 1;
    }
    i
}

pub fn line_ending_exec(s: &Vec<char>, p: usize) -> (r: Option<usize>)
    ensures
        match r {
            Some(q) => line_ending(s@, p as int) == Some(q as int) && p < q <= s@.len(),
            None => line_ending(s@, p as int) is None,
        },
{
    if p < s.len() && s[p] == '\n' {
        Some(p + 1)
    } else if p < s.len() && s[p] == '\r' && p + 1 < s.len() && s[p + 1] == '\n' {
        Some(p + 2)
    } else {
        None
    }
}

pub fn skip_line_endings_exec(s: &Vec<char>, p: usize) -> (r: usize)
    requires
        p <= s@.len(),
    ensures
        r == skip_line_endings(s@, p as int),
        p <= r <= s@.len(),
        line_ending(s@, r as int) is None,
{
    let mut i = p;
    loop
        invariant
            p <= i <= s@.len(),
            skip_line_endings(s@, i as int) == skip_line_endings(s@, p as int),
        decreases s@.len() - i,
    {
        match line_ending_exec(s, i) {
            Some(q) => {
                i = q;
            },
            None => {
                proof {
                    lemma_skip_line_endings(s@, i as int);
                }
                return i;
            },
        }
    }
}

pub fn not_line_ending_exec(s: &Vec<char>, p: usize) -> (r: Option<usize>)
    requires
        p <= s@.len(),
    ensures
        match r {
            Some(e) => not_line_ending(s@, p as int) == Some(e as int) && p <= e <= s@.len(),
            None => not_line_ending(s@, p as int) is None,
        },
{
    let e = scan_exec(s, p, CharClass::NotLineEnd);
    if e >= s.len() || s[e] == '\n' || (e + 1 < s.len() && s[e + 1] == '\n') {
        Some(e)
    } else {
        None
    }
}

/// Unicode's White_Space property, the one `char::is_whitespace` reports:
/// U+0009 to U+000D, U+0020, U+0085, U+00A0, U+1680, U+2000 to U+200A,
/// U+2028, U+2029, U+202F, U+205F and U+3000.
pub open spec fn white_space(c: char) -> bool {
    ||| ('\u{9}' <= c && c <= '\u{D}')
    ||| c == ' '
    ||| c == '\u{85}'
    ||| c == '\u{A0}'
    ||| c == '\u{1680}'
    ||| ('\u{2000}' <= c && c <= '\u{200A}')
    ||| c == '\u{2028}'
    ||| c == '\u{2029}'
    ||| c == '\u{202F}'
    ||| c == '\u{205F}'
    ||| c == '\u{3000}'
}

/// Whether `c` is white space in Unicode's sense.
pub fn is_white_space(c: char) -> (r: bool)
    ensures
        r == white_space(c),
{
    ('\u{9}' <= c && c <= '\u{D}') || c == ' ' || c == '\u{85}' || c == '\u{A0}' || c
        == '\u{1680}' || ('\u{2000}' <= c && c <= '\u{200A}') || c == '\u{2028}' || c
        == '\u{2029}' || c == '\u{202F}' || c == '\u{205F}' || c == '\u{3000}'
}

/// Collects `cs` into a `String` with the same characters, by `FromIterator`.
#[verifier::external_body]
pub fn string_from_chars(cs: &[char]) -> (r: String)
    ensures
        r@ == cs@,
{
    cs.iter().collect()
}

/// The characters of `s`, in order.
pub fn chars_of(s: &str) -> (r: Vec<char>)
    ensures
        r@ == s@,
{
    broadcast use vstd::string::group_string_axioms;

    let mut v: Vec<char> = Vec::new();
    for c in it: s.chars()
        invariant
            v@ == it.seq().take(it.index() as int),
            it.seq() == s@,
    {
        v.push(c);
    }
    v
}

/// The text of `s` from `a` to `b` as a `String`.
pub fn text(s: &Vec<char>, a: usize, b: usize) -> (r: String)
    requires
        a <= b <= s@.len(),
    ensures
        r@ == s@.subrange(a as int, b as int),
{
    let sl = vstd::slice::slice_subrange(s.as_slice(), a, b);
    string_from_chars(sl)
}

/// Where `c` starts once leading white space is removed.
pub open spec fn trim_start(c: Seq<char>, i: int) -> int
    decreases c.len() - i,
{
    if 0 <= i < c.len() && white_space(c[i]) {
        trim_start(c, i + 1)
    } else {
        i
    }
}

/// Where `c` ends once trailing white space after `lo` is removed.
pub open spec fn trim_end(c: Seq<char>, lo: int, j: int) -> int
    decreases j - lo,
{
    if lo < j && j <= c.len() && white_space(c[j - 1]) {
        trim_end(c, lo, j - 1)
    } else {
        j
    }
}

/// `c` with leading and trailing white space removed, as `str::trim` does.
pub open spec fn trim(c: Seq<char>) -> Seq<char> {
    let lo = trim_start(c, 0);
    c.subrange(lo, trim_end(c, lo, c.len() as int))
}

/// The positions within `s` between which the trimmed text of `s[a..b]` lies.
pub fn trim_bounds(s: &Vec<char>, a: usize, b: usize) -> (r: (usize, usize))
    requires
        a <= b <= s@.len(),
    ensures
        a <= r.0 <= r.1 <= b,
        s@.subrange(r.0 as int, r.1 as int) == trim(s@.subrange(a as int, b as int)),
{
    let ghost c = s@.subrange(a as int, b as int);
    let mut lo = a;
    while lo < b && is_white_space(s[lo])
        invariant
            a <= lo <= b <= s@.len(),
            c == s@.subrange(a as int, b as int),
            trim_start(c, lo - a) == trim_start(c, 0),
        decreases b - lo,
    {
        lo = lo + 1;
    }
    let mut hi = b;
    while hi > lo && is_white_space(s[hi - 1])
        invariant
            a <= lo <= hi <= b <= s@.len(),
            c == s@.subrange(a as int, b as int),
            trim_start(c, 0) == lo - a,
            trim_end(c, lo - a, hi - a) == trim_end(c, lo - a, c.len() as int),
        decreases hi - lo,
    {
        hi = hi - 1;
    }
    assert(s@.subrange(lo as int, hi as int) =~= c.subrange(lo - a, hi - a));
    (lo, hi)
}

} // verus!
