use vstd::prelude::*;

use crate::attrs::{
    attributes, attributes_exec, key, key_exec, lemma_attributes_bounds, lemma_key_bounds,
};
use crate::chars::{
    char_at, char_at_exec, has_tag, has_tag_exec, in_class, lemma_len_fits, lemma_scan_bounds,
    lemma_scan_run,
    line_ending,
    line_ending_exec, scan, scan_exec, text, trim, trim_bounds, CharClass,
};
use crate::index::{list_singleline_tag, list_singleline_tag_exec};
use crate::model::{
    attrs_view, lemma_spans_view_push, span_view, spans_view, Attrs, AttrsModel,
    Span, SpanModel,
};

verus! {

/// The closing tag that ends a run of spans, if any.
pub open spec fn closer_view(c: Option<Vec<char>>) -> Option<Seq<char>> {
    match c {
        Some(v) => Some(v@),
        None => None,
    }
}

/// `sp` with `kvs` as its attributes, for the spans that carry attributes;
/// any other span unchanged.
pub open spec fn with_attrs(sp: SpanModel, kvs: AttrsModel) -> SpanModel {
    match sp {
        SpanModel::Link(l, e, ss, _) => SpanModel::Link(l, e, ss, Some(kvs)),
        SpanModel::Verbatim(t, f, _) => SpanModel::Verbatim(t, f, Some(kvs)),
        SpanModel::Strong(ss, _) => SpanModel::Strong(ss, Some(kvs)),
        SpanModel::Emphasis(ss, _) => SpanModel::Emphasis(ss, Some(kvs)),
        SpanModel::Superscript(ss, _) => SpanModel::Superscript(ss, Some(kvs)),
        SpanModel::Subscript(ss, _) => SpanModel::Subscript(ss, Some(kvs)),
        SpanModel::Highlight(ss, _) => SpanModel::Highlight(ss, Some(kvs)),
        SpanModel::Insert(ss, _) => SpanModel::Insert(ss, Some(kvs)),
        SpanModel::Delete(ss, _) => SpanModel::Delete(ss, Some(kvs)),
        _ => sp,
    }
}

/// End of mark: the end of input, or two line endings (which stay unconsumed).
pub open spec fn eom(s: Seq<char>, p: int) -> Option<(int, SpanModel)> {
    if p == s.len() {
        Some((p, SpanModel::EOM))
    } else {
        match line_ending(s, p) {
            Some(q) => if line_ending(s, q) is Some {
                Some((p, SpanModel::EOM))
            } else {
                None
            },
            None => None,
        }
    }
}

/// A backslash and what it escapes: a space (non-breaking space), a line
/// ending (line break), or any other character.
pub open spec fn esc(s: Seq<char>, p: int) -> Option<(int, SpanModel)> {
    if char_at(s, p, '\\') && p + 1 < s.len() {
        if s[p + 1] == ' ' {
            Some((p + 2, SpanModel::NBWS(seq![' '])))
        } else {
            match line_ending(s, p + 1) {
                Some(q) => Some((q, SpanModel::LineBreak(s.subrange(p + 1, q)))),
                None => Some((p + 2, SpanModel::Esc(seq![s[p + 1]]))),
            }
        }
    } else {
        None
    }
}

/// Verbatim content enclosed in backticks: when trimming white space leaves
/// text that starts and ends with a backtick, the trimmed text.
pub open spec fn trim_ticked(c: Seq<char>) -> Seq<char> {
    let t = trim(c);
    if t.len() > 0 && t[0] == '`' && t[t.len() - 1] == '`' {
        t
    } else {
        c
    }
}

/// Verbatim content from `a`, opened by `n` backticks, scanned from `i`: it ends
/// at a line feed (consumed), at a run of exactly `n` backticks (consumed), or at
/// the end of input.
pub open spec fn verbatim_body(s: Seq<char>, a: int, n: int, i: int) -> (int, Seq<char>)
    decreases s.len() - i,
{
    if !(0 <= i < s.len()) {
        (i, s.subrange(a, i))
    } else if s[i] == '\n' {
        (i + 1, s.subrange(a, i))
    } else if s[i] == '`' {
        let t = scan(s, i, CharClass::Backtick);
        if t - i == n {
            (t, trim_ticked(s.subrange(a, i)))
        } else if i < t <= s.len() {
            verbatim_body(s, a, n, t)
        } else {
            (i, s.subrange(a, i))
        }
    } else {
        verbatim_body(s, a, n, i + 1)
    }
}

/// A run of backticks and the verbatim content that follows it.
pub open spec fn verbatim(s: Seq<char>, p: int) -> Option<(int, SpanModel)> {
    let a = scan(s, p, CharClass::Backtick);
    if a > p {
        let (e, c) = verbatim_body(s, a, a - p, a);
        Some((e, SpanModel::Verbatim(c, None, None)))
    } else {
        None
    }
}

/// `#` followed by a hash field: a first word, then the rest of the line up to
/// a tab, `]` or `#`, trimmed.
pub open spec fn hash(s: Seq<char>, p: int) -> Option<(int, SpanModel)> {
    if char_at(s, p, '#') {
        let e1 = scan(s, p + 1, CharClass::HashHead);
        if e1 > p + 1 {
            let e2 = scan(s, e1, CharClass::HashTail);
            Some((e2, SpanModel::Hash(trim(s.subrange(p + 1, e2)))))
        } else {
            None
        }
    } else {
        None
    }
}

/// What may follow the closing tag of an edge span: the end of input, or
/// one of the characters below.
pub open spec fn edge_follows(s: Seq<char>, q: int) -> bool {
    ||| q == s.len()
    ||| char_at(s, q, ' ')
    ||| char_at(s, q, '\t')
    ||| char_at(s, q, '\n')
    ||| char_at(s, q, '\r')
    ||| char_at(s, q, '*')
    ||| char_at(s, q, '_')
    ||| (char_at(s, q, '=') && char_at(s, q + 1, ']'))
    ||| (char_at(s, q, '+') && char_at(s, q + 1, ']'))
    ||| (char_at(s, q, '-') && char_at(s, q + 1, ']'))
    ||| char_at(s, q, '^')
    ||| char_at(s, q, '~')
    ||| (char_at(s, q, ']') && char_at(s, q + 1, ']'))
    ||| char_at(s, q, '{')
}

/// The closer at `p`, followed by what may follow an edge span.
pub open spec fn at_boundary_end(s: Seq<char>, p: int, c: Seq<char>) -> bool {
    has_tag(s, p, c) && edge_follows(s, p + c.len())
}

/// Whether the closer stops the run at `i`: it stands there and, for an edge
/// closer (`*` or `_`) after a word, what follows it may follow an edge span.
pub open spec fn closer_stops(s: Seq<char>, i: int, boundary: bool, closer: Option<Seq<char>>) -> bool {
    match closer {
        Some(c) => has_tag(s, i, c) && (if !boundary && c.len() == 1 && (c[0] == '*' || c[0]
            == '_') {
            at_boundary_end(s, i, c)
        } else {
            true
        }),
        None => false,
    }
}

/// The characters after which an edge span may start.
pub open spec fn is_edge_space(c: char) -> bool {
    c == ' ' || c == '\n' || c == '\t' || c == '\r'
}

/// `*` (strong) or `_` (emphasis) not followed by white space, then spans up to the same tag.
pub open spec fn edge(s: Seq<char>, p: int) -> Option<(int, SpanModel)>
    decreases s.len() - p, 1int,
{
    if (char_at(s, p, '*') || char_at(s, p, '_')) && !(p + 1 < s.len() && is_edge_space(
        s[p + 1],
    )) {
        let (e, ss) = spans(s, p + 1, Some(seq![s[p]]), None);
        Some(
            (
                e,
                if s[p] == '*' {
                    SpanModel::Strong(ss, None)
                } else {
                    SpanModel::Emphasis(ss, None)
                },
            ),
        )
    } else {
        None
    }
}

/// `[[location|spans]]`, embedded when preceded by `!`.
pub open spec fn link(s: Seq<char>, p: int) -> Option<(int, SpanModel)>
    decreases s.len() - p, 1int,
{
    let q = if char_at(s, p, '!') {
        p + 1
    } else {
        p
    };
    if char_at(s, q, '[') && char_at(s, q + 1, '[') {
        let l0 = q + 2;
        let le = scan(s, l0, CharClass::LocatorChar);
        let r = if char_at(s, le, '|') {
            le + 1
        } else {
            le
        };
        if le > l0 && r <= s.len() {
            let (e, ss) = spans(s, r, Some(seq![']', ']']), None);
            Some((e, SpanModel::Link(s.subrange(l0, le), q > p, ss, None)))
        } else {
            None
        }
    } else {
        None
    }
}

/// The span a bracket tag character stands for.
pub open spec fn bracket_span(t: char, ss: Seq<SpanModel>) -> SpanModel {
    if t == '*' {
        SpanModel::Strong(ss, None)
    } else if t == '_' {
        SpanModel::Emphasis(ss, None)
    } else if t == '=' {
        SpanModel::Highlight(ss, None)
    } else if t == '+' {
        SpanModel::Insert(ss, None)
    } else if t == '-' {
        SpanModel::Delete(ss, None)
    } else if t == '^' {
        SpanModel::Superscript(ss, None)
    } else {
        SpanModel::Subscript(ss, None)
    }
}

/// `[` and exactly one bracket tag character, then spans up to that character and `]`.
pub open spec fn bracket(s: Seq<char>, p: int) -> Option<(int, SpanModel)>
    decreases s.len() - p, 1int,
{
    if char_at(s, p, '[') && p + 1 < s.len() && in_class(CharClass::BracketTag, s[p + 1]) && !(p
        + 2 < s.len() && in_class(CharClass::BracketTag, s[p + 2])) {
        let (e, ss) = spans(s, p + 2, Some(seq![s[p + 1], ']']), None);
        Some((e, bracket_span(s[p + 1], ss)))
    } else {
        None
    }
}

/// `^` (superscript) or `~` (subscript), then spans up to the same character.
pub open spec fn nobracket(s: Seq<char>, p: int) -> Option<(int, SpanModel)>
    decreases s.len() - p, 1int,
{
    if char_at(s, p, '^') || char_at(s, p, '~') {
        let (e, ss) = spans(s, p + 1, Some(seq![s[p]]), None);
        Some(
            (
                e,
                if s[p] == '^' {
                    SpanModel::Superscript(ss, None)
                } else {
                    SpanModel::Subscript(ss, None)
                },
            ),
        )
    } else {
        None
    }
}

/// The first of end of mark, escape, verbatim, hash (only at an edge, where
/// `boundary` holds), link, bracket tag and unbracketed tag that parses at `p`.
pub open spec fn span_tag(s: Seq<char>, p: int, boundary: bool) -> Option<(int, SpanModel)>
    decreases s.len() - p, 2int,
{
    if eom(s, p) is Some {
        eom(s, p)
    } else if esc(s, p) is Some {
        esc(s, p)
    } else if verbatim(s, p) is Some {
        verbatim(s, p)
    } else if boundary && hash(s, p) is Some {
        hash(s, p)
    } else if link(s, p) is Some {
        link(s, p)
    } else if bracket(s, p) is Some {
        bracket(s, p)
    } else {
        nobracket(s, p)
    }
}

/// What follows a tag ending at `e`: attributes for spans that take them, or
/// for verbatim without attributes `=format`.
pub open spec fn after_tag(s: Seq<char>, e: int, sp: SpanModel) -> (int, SpanModel) {
    if sp is Hash || sp is Esc {
        (e, sp)
    } else {
        match attributes(s, e) {
            Some((e2, kvs)) => (e2, with_attrs(sp, kvs)),
            None => match sp {
                SpanModel::Verbatim(c, _, _) => if char_at(s, e, '=') {
                    match key(s, e + 1) {
                        Some(k) => (k, SpanModel::Verbatim(c, Some(s.subrange(e + 1, k)), None)),
                        None => (e, sp),
                    }
                } else {
                    (e, sp)
                },
                _ => (e, sp),
            },
        }
    }
}

/// The spans so far, with the pending text from `start` to `i` appended when there is some.
pub open spec fn flush(s: Seq<char>, i: int, start: int, ss: Seq<SpanModel>) -> Seq<SpanModel> {
    if start < i {
        ss.push(SpanModel::Text(s.subrange(start, i)))
    } else {
        ss
    }
}

/// The loop of `spans` at position `i`: `boundary` tells whether an edge span
/// may start here, `start` where the pending text began, `ss` the spans so far.
pub open spec fn spans_loop(
    s: Seq<char>,
    i: int,
    boundary: bool,
    start: int,
    ss: Seq<SpanModel>,
    closer: Option<Seq<char>>,
    inlist: Option<bool>,
) -> (int, Seq<SpanModel>)
    decreases s.len() - i, 3int,
{
    if !(0 <= i < s.len()) {
        (i, flush(s, i, start, ss))
    } else if closer_stops(s, i, boundary, closer) {
        (i + closer->0.len(), flush(s, i, start, ss))
    } else if inlist is Some && list_singleline_tag(s, i, inlist->0) {
        (i, flush(s, i, start, ss))
    } else if boundary && edge(s, i) is Some {
        let (e, sp) = edge(s, i)->0;
        let ss2 = flush(s, i, start, ss).push(sp);
        if i < e <= s.len() {
            spans_loop(s, e, false, e, ss2, closer, inlist)
        } else {
            (i, ss2)
        }
    } else if span_tag(s, i, boundary) is Some {
        let (e, sp) = span_tag(s, i, boundary)->0;
        let ss1 = flush(s, i, start, ss);
        if sp is EOM {
            (e, ss1)
        } else {
            let (e2, sp2) = after_tag(s, e, sp);
            if i < e2 <= s.len() {
                spans_loop(s, e2, false, e2, ss1.push(sp2), closer, inlist)
            } else {
                (i, ss1.push(sp2))
            }
        }
    } else {
        spans_loop(s, i + 1, is_edge_space(s[i]), start, ss, closer, inlist)
    }
}

/// Spans from `p` up to the closer (consumed), the end of mark, the end of
/// input, or (in lists) the start of a new list item.
pub open spec fn spans(s: Seq<char>, p: int, closer: Option<Seq<char>>, inlist: Option<bool>) -> (
    int,
    Seq<SpanModel>,
)
    decreases s.len() - p, 4int,
{
    spans_loop(s, p, true, p, Seq::empty(), closer, inlist)
}

/// A parsed span agrees with the model and ends within the input, not before `p`.
pub open spec fn span_ok(s: Seq<char>, p: int, r: Option<(usize, Span)>, m: Option<(int, SpanModel)>) -> bool {
    match r {
        Some((e, sp)) => m == Some((e as int, span_view(sp))) && p <= e <= s.len(),
        None => m is None,
    }
}

/// Gives `span` the attributes `kvs` when it is a span that carries
/// attributes; returns any other span unchanged.
pub fn span_with_attributes(span: Span, kvs: Attrs) -> (r: Span)
    ensures
        span_view(r) == with_attrs(span_view(span), attrs_view(kvs)),
{
    match span {
        Span::Link(loc, e, ss, _) => Span::Link(loc, e, ss, Some(kvs)),
        Span::Verbatim(t, format, _) => Span::Verbatim(t, format, Some(kvs)),
        Span::Strong(ss, _) => Span::Strong(ss, Some(kvs)),
        Span::Emphasis(ss, _) => Span::Emphasis(ss, Some(kvs)),
        Span::Superscript(ss, _) => Span::Superscript(ss, Some(kvs)),
        Span::Subscript(ss, _) => Span::Subscript(ss, Some(kvs)),
        Span::Highlight(ss, _) => Span::Highlight(ss, Some(kvs)),
        Span::Insert(ss, _) => Span::Insert(ss, Some(kvs)),
        Span::Delete(ss, _) => Span::Delete(ss, Some(kvs)),
        Span::LineBreak(_) | Span::NBWS(_) | Span::Esc(_) | Span::Text(_) | Span::Hash(_)
        | Span::EOM => span,
    }
}

fn eom_exec(s: &Vec<char>, p: usize) -> (r: Option<(usize, Span)>)
    requires
        p <= s@.len(),
    ensures
        span_ok(s@, p as int, r, eom(s@, p as int)),
        r matches Some((e, _)) ==> e == p,
{
    if p == s.len() {
        return Some((p, Span::EOM));
    }
    match line_ending_exec(s, p) {
        Some(q) => if line_ending_exec(s, q).is_some() {
            Some((p, Span::EOM))
        } else {
            None
        },
        None => None,
    }
}

fn esc_exec(s: &Vec<char>, p: usize) -> (r: Option<(usize, Span)>)
    requires
        p <= s@.len(),
    ensures
        span_ok(s@, p as int, r, esc(s@, p as int)),
        r matches Some((e, sp)) ==> p < e && !(sp is EOM),
{
    proof {
        lemma_len_fits(s);
    }
    if !(char_at_exec(s, p, '\\') && p + 1 < s.len()) {
        return None;
    }
    if s[p + 1] == ' ' {
        let t = text(s, p + 1, p + 2);
        assert(t@ =~= seq![' ']);
        return Some((p + 2, Span::NBWS(t)));
    }
    match line_ending_exec(s, p + 1) {
        Some(q) => Some((q, Span::LineBreak(text(s, p + 1, q)))),
        None => {
            let t = text(s, p + 1, p + 2);
            assert(t@ =~= seq![s@[p + 1]]);
            Some((p + 2, Span::Esc(t)))
        },
    }
}

fn verbatim_exec(s: &Vec<char>, p: usize) -> (r: Option<(usize, Span)>)
    requires
        p <= s@.len(),
    ensures
        span_ok(s@, p as int, r, verbatim(s@, p as int)),
        r matches Some((e, sp)) ==> p < e && !(sp is EOM),
{
    let a = scan_exec(s, p, CharClass::Backtick);
    if a == p {
        return None;
    }
    let n = a - p;
    let mut i = a;
    while i < s.len()
        invariant
            p < a <= i <= s@.len(),
            n == a - p,
            a == scan(s@, p as int, CharClass::Backtick),
            verbatim_body(s@, a as int, n as int, i as int) == verbatim_body(
                s@,
                a as int,
                n as int,
                a as int,
            ),
        decreases s@.len() - i,
    {
        if s[i] == '\n' {
            return Some((i + 1, Span::Verbatim(text(s, a, i), None, None)));
        } else if s[i] == '`' {
            let t = scan_exec(s, i, CharClass::Backtick);
            if t - i == n {
                let (lo, hi) = trim_bounds(s, a, i);
                if lo < hi && s[lo] == '`' && s[hi - 1] == '`' {
                    return Some((t, Span::Verbatim(text(s, lo, hi), None, None)));
                } else {
                    return Some((t, Span::Verbatim(text(s, a, i), None, None)));
                }
            } else {
                i = t;
            }
        } else {
            i = i + 1;
        }
    }
    Some((i, Span::Verbatim(text(s, a, i), None, None)))
}

fn hash_exec(s: &Vec<char>, p: usize) -> (r: Option<(usize, Span)>)
    requires
        p <= s@.len(),
    ensures
        span_ok(s@, p as int, r, hash(s@, p as int)),
        r matches Some((e, sp)) ==> p < e && !(sp is EOM),
{
    proof {
        lemma_len_fits(s);
    }
    if !char_at_exec(s, p, '#') {
        return None;
    }
    let e1 = scan_exec(s, p + 1, CharClass::HashHead);
    if e1 > p + 1 {
        let e2 = scan_exec(s, e1, CharClass::HashTail);
        let (lo, hi) = trim_bounds(s, p + 1, e2);
        Some((e2, Span::Hash(text(s, lo, hi))))
    } else {
        None
    }
}

fn at_boundary_end_exec(s: &Vec<char>, p: usize, c: &Vec<char>) -> (r: bool)
    requires
        p <= s@.len(),
    ensures
        r == at_boundary_end(s@, p as int, c@),
{
    proof {
        lemma_len_fits(s);
    }
    if !has_tag_exec(s, p, c) {
        return false;
    }
    let q = p + c.len();
    q == s.len() || char_at_exec(s, q, ' ') || char_at_exec(s, q, '\t') || char_at_exec(s, q, '\n')
        || char_at_exec(s, q, '\r') || char_at_exec(s, q, '*') || char_at_exec(s, q, '_') || (
    char_at_exec(s, q, '=') && char_at_exec(s, q + 1, ']')) || (char_at_exec(s, q, '+')
        && char_at_exec(s, q + 1, ']')) || (char_at_exec(s, q, '-') && char_at_exec(s, q + 1, ']'))
        || char_at_exec(s, q, '^') || char_at_exec(s, q, '~') || (char_at_exec(s, q, ']')
        && char_at_exec(s, q + 1, ']')) || char_at_exec(s, q, '{')
}

fn closer_stops_exec(s: &Vec<char>, i: usize, boundary: bool, closer: &Option<Vec<char>>) -> (r:
    bool)
    requires
        i <= s@.len(),
    ensures
        r == closer_stops(s@, i as int, boundary, closer_view(*closer)),
{
    match closer {
        Some(c) => {
            if !has_tag_exec(s, i, c) {
                false
            } else if !boundary && c.len() == 1 && (c[0] == '*' || c[0] == '_') {
                at_boundary_end_exec(s, i, c)
            } else {
                true
            }
        },
        None => false,
    }
}

fn edge_exec(s: &Vec<char>, p: usize) -> (r: Option<(usize, Span)>)
    requires
        p <= s@.len(),
    ensures
        span_ok(s@, p as int, r, edge(s@, p as int)),
        r matches Some((e, sp)) ==> p < e && !(sp is EOM),
    decreases s@.len() - p, 1int,
{
    proof {
        lemma_len_fits(s);
    }
    if !(char_at_exec(s, p, '*') || char_at_exec(s, p, '_')) {
        return None;
    }
    if p + 1 < s.len() && (s[p + 1] == ' ' || s[p + 1] == '\n' || s[p + 1] == '\t' || s[p + 1]
        == '\r') {
        return None;
    }
    let t = s[p];
    let closer = Some(vec![t]);
    assert(closer_view(closer) == Some(seq![s@[p as int]]));
    let (e, ss) = spans_exec(s, p + 1, &closer, None);
    if t == '*' {
        Some((e, Span::Strong(ss, None)))
    } else {
        Some((e, Span::Emphasis(ss, None)))
    }
}

fn link_exec(s: &Vec<char>, p: usize) -> (r: Option<(usize, Span)>)
    requires
        p <= s@.len(),
    ensures
        span_ok(s@, p as int, r, link(s@, p as int)),
        r matches Some((e, sp)) ==> p < e && !(sp is EOM),
    decreases s@.len() - p, 1int,
{
    proof {
        lemma_len_fits(s);
    }
    let q = if char_at_exec(s, p, '!') {
        p + 1
    } else {
        p
    };
    if !(char_at_exec(s, q, '[') && char_at_exec(s, q + 1, '[')) {
        return None;
    }
    let l0 = q + 2;
    let le = scan_exec(s, l0, CharClass::LocatorChar);
    let r = if char_at_exec(s, le, '|') {
        le + 1
    } else {
        le
    };
    if le == l0 {
        return None;
    }
    let closer = Some(vec![']', ']']);
    assert(closer_view(closer) == Some(seq![']', ']']));
    let (e, ss) = spans_exec(s, r, &closer, None);
    Some((e, Span::Link(text(s, l0, le), q > p, ss, None)))
}

fn bracket_exec(s: &Vec<char>, p: usize) -> (r: Option<(usize, Span)>)
    requires
        p <= s@.len(),
    ensures
        span_ok(s@, p as int, r, bracket(s@, p as int)),
        r matches Some((e, sp)) ==> p < e && !(sp is EOM),
    decreases s@.len() - p, 1int,
{
    proof {
        lemma_len_fits(s);
    }
    if !(char_at_exec(s, p, '[') && p + 1 < s.len() && class_has_tag(s[p + 1])) {
        return None;
    }
    if p + 2 < s.len() && class_has_tag(s[p + 2]) {
        return None;
    }
    let t = s[p + 1];
    let closer = Some(vec![t, ']']);
    assert(closer_view(closer) == Some(seq![s@[p + 1], ']']));
    let (e, ss) = spans_exec(s, p + 2, &closer, None);
    let sp = if t == '*' {
        Span::Strong(ss, None)
    } else if t == '_' {
        Span::Emphasis(ss, None)
    } else if t == '=' {
        Span::Highlight(ss, None)
    } else if t == '+' {
        Span::Insert(ss, None)
    } else if t == '-' {
        Span::Delete(ss, None)
    } else if t == '^' {
        Span::Superscript(ss, None)
    } else {
        Span::Subscript(ss, None)
    };
    Some((e, sp))
}

fn class_has_tag(c: char) -> (r: bool)
    ensures
        r == in_class(CharClass::BracketTag, c),
{
    crate::chars::class_has(CharClass::BracketTag, c)
}

fn nobracket_exec(s: &Vec<char>, p: usize) -> (r: Option<(usize, Span)>)
    requires
        p <= s@.len(),
    ensures
        span_ok(s@, p as int, r, nobracket(s@, p as int)),
        r matches Some((e, sp)) ==> p < e && !(sp is EOM),
    decreases s@.len() - p, 1int,
{
    proof {
        lemma_len_fits(s);
    }
    if !(char_at_exec(s, p, '^') || char_at_exec(s, p, '~')) {
        return None;
    }
    let t = s[p];
    let closer = Some(vec![t]);
    assert(closer_view(closer) == Some(seq![s@[p as int]]));
    let (e, ss) = spans_exec(s, p + 1, &closer, None);
    if t == '^' {
        Some((e, Span::Superscript(ss, None)))
    } else {
        Some((e, Span::Subscript(ss, None)))
    }
}

fn span_tag_exec(s: &Vec<char>, p: usize, boundary: bool) -> (r: Option<(usize, Span)>)
    requires
        p <= s@.len(),
    ensures
        span_ok(s@, p as int, r, span_tag(s@, p as int, boundary)),
        r matches Some((e, sp)) ==> (p < e && !(sp is EOM)) || (e == p && sp is EOM && eom(
            s@,
            p as int,
        ) is Some),
    decreases s@.len() - p, 2int,
{
    if let Some(x) = eom_exec(s, p) {
        return Some(x);
    }
    if let Some(x) = esc_exec(s, p) {
        return Some(x);
    }
    if let Some(x) = verbatim_exec(s, p) {
        return Some(x);
    }
    if boundary {
        if let Some(x) = hash_exec(s, p) {
            return Some(x);
        }
    }
    if let Some(x) = link_exec(s, p) {
        return Some(x);
    }
    if let Some(x) = bracket_exec(s, p) {
        return Some(x);
    }
    nobracket_exec(s, p)
}

fn after_tag_exec(s: &Vec<char>, e: usize, sp: Span) -> (r: (usize, Span))
    requires
        e <= s@.len(),
    ensures
        after_tag(s@, e as int, span_view(sp)) == (r.0 as int, span_view(r.1)),
        e <= r.0 <= s@.len(),
{
    proof {
        lemma_len_fits(s);
    }
    match sp {
        Span::Hash(_) | Span::Esc(_) => {
            return (e, sp);
        },
        _ => {},
    }
    match attributes_exec(s, e) {
        Some((e2, kvs)) => (e2, span_with_attributes(sp, kvs)),
        None => match sp {
            Span::Verbatim(content, f, a) => {
                if char_at_exec(s, e, '=') {
                    match key_exec(s, e + 1) {
                        Some(k) => (k, Span::Verbatim(content, Some(text(s, e + 1, k)), None)),
                        None => (e, Span::Verbatim(content, f, a)),
                    }
                } else {
                    (e, Span::Verbatim(content, f, a))
                }
            },
            other => (e, other),
        },
    }
}

fn flush_exec(s: &Vec<char>, i: usize, start: usize, ss: &mut Vec<Span>)
    requires
        start <= i <= s@.len(),
    ensures
        spans_view(final(ss)@) == flush(s@, i as int, start as int, spans_view(old(ss)@)),
{
    if start < i {
        let t = Span::Text(text(s, start, i));
        proof {
            lemma_spans_view_push(ss@, t);
        }
        ss.push(t);
    }
}

fn push_span(ss: &mut Vec<Span>, sp: Span)
    ensures
        spans_view(final(ss)@) == spans_view(old(ss)@).push(span_view(sp)),
{
    proof {
        lemma_spans_view_push(ss@, sp);
    }
    ss.push(sp);
}

/// Parses spans from `p` until the closer (which is consumed), an end of mark,
/// the end of input or, in lists, the start of a new item.
pub fn spans_exec(s: &Vec<char>, p: usize, closer: &Option<Vec<char>>, inlist: Option<bool>) -> (r: (
    usize,
    Vec<Span>,
))
    requires
        p <= s@.len(),
    ensures
        spans(s@, p as int, closer_view(*closer), inlist) == (r.0 as int, spans_view(r.1@)),
        p <= r.0 <= s@.len(),
        closer_view(*closer) is None && inlist is None && p < s@.len() && line_ending(
            s@,
            p as int,
        ) is None ==> p < r.0,
    decreases s@.len() - p, 4int,
{
    proof {
        lemma_len_fits(s);
    }
    let ghost c = closer_view(*closer);
    let mut ss: Vec<Span> = Vec::new();
    let mut i = p;
    let mut boundary = true;
    let mut start = p;
    proof {
        assert(spans_view(ss@) =~= Seq::<SpanModel>::empty());
    }
    loop
        invariant
            p <= start <= i <= s@.len(),
            c == closer_view(*closer),
            c is None && inlist is None && p < s@.len() && line_ending(s@, p as int) is None && i
                == p ==> start == p && boundary,
            s@.len() <= usize::MAX,
            spans_loop(s@, i as int, boundary, start as int, spans_view(ss@), c, inlist) == spans(
                s@,
                p as int,
                c,
                inlist,
            ),
        decreases s@.len() - i,
    {
        if i >= s.len() {
            flush_exec(s, i, start, &mut ss);
            return (i, ss);
        }
        if closer_stops_exec(s, i, boundary, closer) {
            flush_exec(s, i, start, &mut ss);
            let n = match closer {
                Some(cv) => cv.len(),
                None => 0,
            };
            return (i + n, ss);
        }
        match inlist {
            Some(new) => {
                if list_singleline_tag_exec(s, i, new) {
                    flush_exec(s, i, start, &mut ss);
                    return (i, ss);
                }
            },
            None => {},
        }
        let edge_r = if boundary {
            edge_exec(s, i)
        } else {
            None
        };
        match edge_r {
            Some((e, sp)) => {
                flush_exec(s, i, start, &mut ss);
                push_span(&mut ss, sp);
                i = e;
                start = e;
                boundary = false;
            },
            None => {
                match span_tag_exec(s, i, boundary) {
                    Some((e, sp)) => {
                        flush_exec(s, i, start, &mut ss);
                        if let Span::EOM = sp {
                            return (e, ss);
                        }
                        let (e2, sp2) = after_tag_exec(s, e, sp);
                        push_span(&mut ss, sp2);
                        i = e2;
                        start = e2;
                        boundary = false;
                    },
                    None => {
                        let ch = s[i];
                        boundary = ch == ' ' || ch == '\n' || ch == '\t' || ch == '\r';
                        i = i + 1;
                    },
                }
            },
        }
    }
}

/// Attributes given to a span twice: the later ones replace the earlier ones.
pub proof fn law_with_attrs_last_wins(sp: SpanModel, a: AttrsModel, b: AttrsModel)
    ensures
        with_attrs(with_attrs(sp, a), b) == with_attrs(sp, b),
{
}

/// Spans that carry no attributes (breaks, escapes, text, hashes, the end of
/// mark) are left unchanged by attributes.
pub proof fn law_with_attrs_plain(sp: SpanModel, a: AttrsModel)
    requires
        sp is LineBreak || sp is NBWS || sp is Esc || sp is Text || sp is Hash || sp is EOM,
    ensures
        with_attrs(sp, a) == sp,
{
}

/// Text spans are non-empty and never stand next to each other.
pub open spec fn texts_joined(ss: Seq<SpanModel>) -> bool {
    &&& forall|j: int| 0 <= j < ss.len() ==> (#[trigger] ss[j] matches SpanModel::Text(t) ==> t.len() > 0)
    &&& forall|i: int, j: int|
        #![trigger ss[i], ss[j]]
        0 <= i && j == i + 1 && j < ss.len() ==> !(ss[i] is Text && ss[j] is Text)
}

proof fn lemma_push_not_text(ss: Seq<SpanModel>, sp: SpanModel)
    requires
        texts_joined(ss),
        !(sp is Text),
    ensures
        texts_joined(ss.push(sp)),
        !(ss.push(sp).last() is Text),
{
    let n = ss.push(sp);
    assert forall|j: int| 0 <= j < n.len() implies (#[trigger] n[j] matches SpanModel::Text(t)
        ==> t.len() > 0) by {
        if j < ss.len() {
            assert(n[j] == ss[j]);
        }
    }
    assert forall|i: int, j: int| 0 <= i && j == i + 1 && j < n.len() implies !(#[trigger] n[i] is Text
        && #[trigger] n[j] is Text) by {
        if j < ss.len() {
            assert(n[i] == ss[i] && n[j] == ss[j]);
        }
    }
}

proof fn lemma_flush_joined(s: Seq<char>, i: int, start: int, ss: Seq<SpanModel>)
    requires
        texts_joined(ss),
        ss.len() == 0 || !(ss.last() is Text),
        start <= i,
        start < i ==> 0 <= start && i <= s.len(),
    ensures
        texts_joined(flush(s, i, start, ss)),
{
    if start < i {
        let n = ss.push(SpanModel::Text(s.subrange(start, i)));
        assert forall|j: int| 0 <= j < n.len() implies (#[trigger] n[j] matches SpanModel::Text(t)
            ==> t.len() > 0) by {
            if j < ss.len() {
                assert(n[j] == ss[j]);
            }
        }
        assert forall|a: int, b: int| 0 <= a && b == a + 1 && b < n.len() implies !(
        #[trigger] n[a] is Text && #[trigger] n[b] is Text) by {
            if b < ss.len() {
                assert(n[a] == ss[a] && n[b] == ss[b]);
            } else {
                assert(n[a] == ss.last());
            }
        }
    }
}

proof fn lemma_tags_not_text(s: Seq<char>, i: int, boundary: bool)
    ensures
        edge(s, i) matches Some((_, sp)) ==> !(sp is Text),
        span_tag(s, i, boundary) matches Some((_, sp)) ==> !(sp is Text),
{
    if let Some((_, sp)) = bracket(s, i) {
        let t = s[i + 1];
        let ss = spans(s, i + 2, Some(seq![t, ']']), None).1;
        assert(!(bracket_span(t, ss) is Text));
    }
}

proof fn lemma_after_tag_not_text(s: Seq<char>, e: int, sp: SpanModel)
    requires
        !(sp is Text),
    ensures
        !(after_tag(s, e, sp).1 is Text),
{
}

proof fn lemma_spans_loop_joined(
    s: Seq<char>,
    i: int,
    boundary: bool,
    start: int,
    ss: Seq<SpanModel>,
    closer: Option<Seq<char>>,
    inlist: Option<bool>,
)
    requires
        texts_joined(ss),
        ss.len() == 0 || !(ss.last() is Text),
        start <= i,
        start < i ==> 0 <= start && i <= s.len(),
    ensures
        texts_joined(spans_loop(s, i, boundary, start, ss, closer, inlist).1),
    decreases s.len() - i,
{
    lemma_flush_joined(s, i, start, ss);
    lemma_tags_not_text(s, i, boundary);
    if !(0 <= i < s.len()) {
    } else if closer_stops(s, i, boundary, closer) {
    } else if inlist is Some && list_singleline_tag(s, i, inlist->0) {
    } else if boundary && edge(s, i) is Some {
        let (e, sp) = edge(s, i)->0;
        lemma_push_not_text(flush(s, i, start, ss), sp);
        let ss2 = flush(s, i, start, ss).push(sp);
        if i < e <= s.len() {
            lemma_spans_loop_joined(s, e, false, e, ss2, closer, inlist);
        }
    } else if span_tag(s, i, boundary) is Some {
        let (e, sp) = span_tag(s, i, boundary)->0;
        let ss1 = flush(s, i, start, ss);
        if !(sp is EOM) {
            let (e2, sp2) = after_tag(s, e, sp);
            lemma_after_tag_not_text(s, e, sp);
            lemma_push_not_text(ss1, sp2);
            if i < e2 <= s.len() {
                lemma_spans_loop_joined(s, e2, false, e2, ss1.push(sp2), closer, inlist);
            }
        }
    } else {
        lemma_spans_loop_joined(s, i + 1, is_edge_space(s[i]), start, ss, closer, inlist);
    }
}

/// Text is the span that joins runs of characters: in any run of spans, text
/// spans are non-empty and no two of them stand next to each other.
pub proof fn law_texts_joined(s: Seq<char>, p: int, closer: Option<Seq<char>>, inlist: Option<bool>)
    ensures
        texts_joined(spans(s, p, closer, inlist).1),
{
    lemma_spans_loop_joined(s, p, true, p, Seq::empty(), closer, inlist);
}

/// A span as spans come out of parsing: no end of mark, a text span holds
/// text, and every run of spans nested in it is sound and has its texts joined.
pub open spec fn span_sound(sp: SpanModel) -> bool
    decreases sp,
{
    match sp {
        SpanModel::EOM => false,
        SpanModel::Text(t) => t.len() > 0,
        SpanModel::Link(_, _, vs, _) => texts_joined(vs) && all_sound(vs),
        SpanModel::Strong(vs, _) => texts_joined(vs) && all_sound(vs),
        SpanModel::Emphasis(vs, _) => texts_joined(vs) && all_sound(vs),
        SpanModel::Superscript(vs, _) => texts_joined(vs) && all_sound(vs),
        SpanModel::Subscript(vs, _) => texts_joined(vs) && all_sound(vs),
        SpanModel::Highlight(vs, _) => texts_joined(vs) && all_sound(vs),
        SpanModel::Insert(vs, _) => texts_joined(vs) && all_sound(vs),
        SpanModel::Delete(vs, _) => texts_joined(vs) && all_sound(vs),
        _ => true,
    }
}

/// Every span of `ss` is sound.
pub open spec fn all_sound(ss: Seq<SpanModel>) -> bool
    decreases ss,
{
    if ss.len() == 0 {
        true
    } else {
        all_sound(ss.drop_last()) && span_sound(ss.last())
    }
}

proof fn lemma_all_sound_push(ss: Seq<SpanModel>, sp: SpanModel)
    requires
        all_sound(ss),
        span_sound(sp),
    ensures
        all_sound(ss.push(sp)),
{
    assert(ss.push(sp).drop_last() =~= ss);
}

proof fn lemma_flush_sound(s: Seq<char>, i: int, start: int, ss: Seq<SpanModel>)
    requires
        all_sound(ss),
        start < i ==> 0 <= start && i <= s.len(),
    ensures
        all_sound(flush(s, i, start, ss)),
{
    if start < i {
        lemma_all_sound_push(ss, SpanModel::Text(s.subrange(start, i)));
    }
}

proof fn lemma_edge_sound(s: Seq<char>, p: int)
    requires
        0 <= p <= s.len(),
    ensures
        edge(s, p) matches Some((_, sp)) ==> span_sound(sp),
    decreases s.len() - p, 1int,
{
    if char_at(s, p, '*') || char_at(s, p, '_') {
        lemma_spans_sound(s, p + 1, Some(seq![s[p]]), None);
        law_texts_joined(s, p + 1, Some(seq![s[p]]), None);
    }
}

proof fn lemma_link_sound(s: Seq<char>, p: int)
    requires
        0 <= p <= s.len(),
    ensures
        link(s, p) matches Some((_, sp)) ==> span_sound(sp),
    decreases s.len() - p, 1int,
{
    let q = if char_at(s, p, '!') {
        p + 1
    } else {
        p
    };
    if char_at(s, q, '[') && char_at(s, q + 1, '[') {
        let l0 = q + 2;
        lemma_scan_bounds(s, l0, CharClass::LocatorChar);
        let le = scan(s, l0, CharClass::LocatorChar);
        let r = if char_at(s, le, '|') {
            le + 1
        } else {
            le
        };
        if le > l0 && r <= s.len() {
            lemma_spans_sound(s, r, Some(seq![']', ']']), None);
            law_texts_joined(s, r, Some(seq![']', ']']), None);
        }
    }
}

proof fn lemma_bracket_sound(s: Seq<char>, p: int)
    requires
        0 <= p <= s.len(),
    ensures
        bracket(s, p) matches Some((_, sp)) ==> span_sound(sp),
    decreases s.len() - p, 1int,
{
    if bracket(s, p) is Some {
        let t = s[p + 1];
        lemma_spans_sound(s, p + 2, Some(seq![t, ']']), None);
        law_texts_joined(s, p + 2, Some(seq![t, ']']), None);
        let ss = spans(s, p + 2, Some(seq![t, ']']), None).1;
        assert(span_sound(bracket_span(t, ss)));
    }
}

proof fn lemma_nobracket_sound(s: Seq<char>, p: int)
    requires
        0 <= p <= s.len(),
    ensures
        nobracket(s, p) matches Some((_, sp)) ==> span_sound(sp),
    decreases s.len() - p, 1int,
{
    if char_at(s, p, '^') || char_at(s, p, '~') {
        lemma_spans_sound(s, p + 1, Some(seq![s[p]]), None);
        law_texts_joined(s, p + 1, Some(seq![s[p]]), None);
    }
}

proof fn lemma_span_tag_sound(s: Seq<char>, p: int, boundary: bool)
    requires
        0 <= p <= s.len(),
    ensures
        span_tag(s, p, boundary) matches Some((_, sp)) ==> (sp is EOM || span_sound(sp)),
    decreases s.len() - p, 2int,
{
    lemma_link_sound(s, p);
    lemma_bracket_sound(s, p);
    lemma_nobracket_sound(s, p);
}

proof fn lemma_after_tag_sound(s: Seq<char>, e: int, sp: SpanModel)
    requires
        span_sound(sp),
    ensures
        span_sound(after_tag(s, e, sp).1),
{
}

proof fn lemma_spans_loop_sound(
    s: Seq<char>,
    i: int,
    boundary: bool,
    start: int,
    ss: Seq<SpanModel>,
    closer: Option<Seq<char>>,
    inlist: Option<bool>,
)
    requires
        0 <= start <= i <= s.len(),
        all_sound(ss),
    ensures
        all_sound(spans_loop(s, i, boundary, start, ss, closer, inlist).1),
    decreases s.len() - i, 3int,
{
    lemma_flush_sound(s, i, start, ss);
    if !(0 <= i < s.len()) {
    } else if closer_stops(s, i, boundary, closer) {
    } else if inlist is Some && list_singleline_tag(s, i, inlist->0) {
    } else if boundary && edge(s, i) is Some {
        lemma_edge_bounds(s, i);
        lemma_edge_sound(s, i);
        let (e, sp) = edge(s, i)->0;
        lemma_all_sound_push(flush(s, i, start, ss), sp);
        lemma_spans_loop_sound(s, e, false, e, flush(s, i, start, ss).push(sp), closer, inlist);
    } else if span_tag(s, i, boundary) is Some {
        lemma_span_tag_bounds(s, i, boundary);
        lemma_span_tag_sound(s, i, boundary);
        let (e, sp) = span_tag(s, i, boundary)->0;
        let ss1 = flush(s, i, start, ss);
        if !(sp is EOM) {
            lemma_after_tag_bounds(s, e, sp);
            lemma_after_tag_sound(s, e, sp);
            let (e2, sp2) = after_tag(s, e, sp);
            lemma_all_sound_push(ss1, sp2);
            lemma_spans_loop_sound(s, e2, false, e2, ss1.push(sp2), closer, inlist);
        }
    } else {
        lemma_spans_loop_sound(s, i + 1, is_edge_space(s[i]), start, ss, closer, inlist);
    }
}

proof fn lemma_spans_sound(s: Seq<char>, p: int, closer: Option<Seq<char>>, inlist: Option<bool>)
    requires
        0 <= p <= s.len(),
    ensures
        all_sound(spans(s, p, closer, inlist).1),
    decreases s.len() - p, 4int,
{
    lemma_spans_loop_sound(s, p, true, p, Seq::empty(), closer, inlist);
}

/// No run of spans, nested runs included, keeps an end of mark; in each of
/// them text spans are non-empty and never stand next to each other.
pub proof fn law_spans_sound(s: Seq<char>, p: int, closer: Option<Seq<char>>, inlist: Option<bool>)
    requires
        0 <= p <= s.len(),
    ensures
        texts_joined(spans(s, p, closer, inlist).1),
        all_sound(spans(s, p, closer, inlist).1),
{
    law_texts_joined(s, p, closer, inlist);
    lemma_spans_sound(s, p, closer, inlist);
}

/// `[` and one bracket tag character (not followed by another) open a span
/// whose kind the character names, holding the spans up to that character
/// and `]`: `*` strong, `_` emphasis, `=` highlight, `+` insert, `-` delete,
/// `^` superscript, `~` subscript.
pub proof fn law_bracket_kinds(s: Seq<char>, p: int)
    requires
        0 <= p,
        p + 1 < s.len(),
        s[p] == '[',
        in_class(CharClass::BracketTag, s[p + 1]),
        !(p + 2 < s.len() && in_class(CharClass::BracketTag, s[p + 2])),
    ensures
        ({
            let t = s[p + 1];
            let ss = spans(s, p + 2, Some(seq![t, ']']), None).1;
            &&& bracket(s, p) matches Some((_, sp))
            &&& t == '*' ==> sp == SpanModel::Strong(ss, None)
            &&& t == '_' ==> sp == SpanModel::Emphasis(ss, None)
            &&& t == '=' ==> sp == SpanModel::Highlight(ss, None)
            &&& t == '+' ==> sp == SpanModel::Insert(ss, None)
            &&& t == '-' ==> sp == SpanModel::Delete(ss, None)
            &&& t == '^' ==> sp == SpanModel::Superscript(ss, None)
            &&& t == '~' ==> sp == SpanModel::Subscript(ss, None)
        }),
{
}

/// `*` or `_` not followed by white space opens an edge span: `*` strong and
/// `_` emphasis, holding the spans up to the same character.
pub proof fn law_edge_kinds(s: Seq<char>, p: int)
    requires
        0 <= p < s.len(),
        s[p] == '*' || s[p] == '_',
        !(p + 1 < s.len() && is_edge_space(s[p + 1])),
    ensures
        ({
            let (e, ss) = spans(s, p + 1, Some(seq![s[p]]), None);
            &&& s[p] == '*' ==> edge(s, p) == Some((e, SpanModel::Strong(ss, None)))
            &&& s[p] == '_' ==> edge(s, p) == Some((e, SpanModel::Emphasis(ss, None)))
        }),
{
}

/// `^` opens a superscript and `~` a subscript, holding the spans up to the
/// same character.
pub proof fn law_nobracket_kinds(s: Seq<char>, p: int)
    requires
        0 <= p < s.len(),
        s[p] == '^' || s[p] == '~',
    ensures
        ({
            let (e, ss) = spans(s, p + 1, Some(seq![s[p]]), None);
            &&& s[p] == '^' ==> nobracket(s, p) == Some((e, SpanModel::Superscript(ss, None)))
            &&& s[p] == '~' ==> nobracket(s, p) == Some((e, SpanModel::Subscript(ss, None)))
        }),
{
}

/// A backslash escapes the next character: a space becomes a non-breaking
/// space, a line ending a line break holding it, anything else an escape of
/// that character.
pub proof fn law_esc_kinds(s: Seq<char>, p: int)
    requires
        0 <= p,
        p + 1 < s.len(),
        s[p] == '\\',
    ensures
        s[p + 1] == ' ' ==> esc(s, p) == Some((p + 2, SpanModel::NBWS(seq![' ']))),
        s[p + 1] == '\n' ==> esc(s, p) == Some((p + 2, SpanModel::LineBreak(seq!['\n']))),
        (s[p + 1] == '\r' && p + 2 < s.len() && s[p + 2] == '\n') ==> esc(s, p) == Some(
            (p + 3, SpanModel::LineBreak(seq!['\r', '\n'])),
        ),
        (s[p + 1] != ' ' && s[p + 1] != '\n' && !(s[p + 1] == '\r' && p + 2 < s.len() && s[p + 2]
            == '\n')) ==> esc(s, p) == Some((p + 2, SpanModel::Esc(seq![s[p + 1]]))),
{
    if s[p + 1] == '\n' {
        assert(s.subrange(p + 1, p + 2) =~= seq!['\n']);
    }
    if s[p + 1] == '\r' && p + 2 < s.len() && s[p + 2] == '\n' {
        assert(s.subrange(p + 1, p + 3) =~= seq!['\r', '\n']);
    }
}

/// `[[location|spans]]` is a link to the location (the text up to `|` or
/// `]`), embedded exactly when `!` precedes it, holding the spans up to `]]`.
pub proof fn law_link_shape(s: Seq<char>, p: int)
    requires
        0 <= p,
    ensures
        link(s, p) matches Some((e, SpanModel::Link(l, embed, ss, a))) ==> {
            let q = if char_at(s, p, '!') {
                p + 1
            } else {
                p
            };
            &&& embed == char_at(s, p, '!')
            &&& char_at(s, q, '[') && char_at(s, q + 1, '[')
            &&& l.len() > 0
            &&& l == s.subrange(q + 2, q + 2 + l.len())
            &&& forall|j: int| 0 <= j < l.len() ==> #[trigger] l[j] != '|' && l[j] != ']'
            &&& a is None
        },
{
    let q = if char_at(s, p, '!') {
        p + 1
    } else {
        p
    };
    if char_at(s, q, '[') && char_at(s, q + 1, '[') {
        lemma_scan_bounds(s, q + 2, CharClass::LocatorChar);
        let le = scan(s, q + 2, CharClass::LocatorChar);
        if let Some((e, SpanModel::Link(l, embed, ss, a))) = link(s, p) {
            assert forall|j: int| 0 <= j < l.len() implies #[trigger] l[j] != '|' && l[j] != ']' by {
                assert(l[j] == s[q + 2 + j]);
                assert(in_class(CharClass::LocatorChar, s[q + 2 + j]));
            }
        }
    }
}

/// `n` backticks.
pub open spec fn backticks(n: nat) -> Seq<char> {
    Seq::new(n, |_j: int| '`')
}

proof fn lemma_trim_bounds(c: Seq<char>)
    ensures
        0 <= crate::chars::trim_start(c, 0) <= c.len(),
        crate::chars::trim_start(c, 0) <= crate::chars::trim_end(
            c,
            crate::chars::trim_start(c, 0),
            c.len() as int,
        ) <= c.len(),
{
    lemma_trim_start_bounds(c, 0);
    let lo = crate::chars::trim_start(c, 0);
    lemma_trim_end_bounds(c, lo, c.len() as int);
}

proof fn lemma_trim_start_bounds(c: Seq<char>, i: int)
    requires
        0 <= i <= c.len(),
    ensures
        i <= crate::chars::trim_start(c, i) <= c.len(),
    decreases c.len() - i,
{
    if i < c.len() && crate::chars::white_space(c[i]) {
        lemma_trim_start_bounds(c, i + 1);
    }
}

proof fn lemma_trim_end_bounds(c: Seq<char>, lo: int, j: int)
    requires
        0 <= lo <= j <= c.len(),
    ensures
        lo <= crate::chars::trim_end(c, lo, j) <= j,
    decreases j - lo,
{
    if lo < j && crate::chars::white_space(c[j - 1]) {
        lemma_trim_end_bounds(c, lo, j - 1);
    }
}

proof fn lemma_verbatim_run(s: Seq<char>, a: int, n: int, i: int, e: int)
    requires
        0 <= i <= e < s.len(),
        forall|j: int| i <= j < e ==> #[trigger] s[j] != '\n' && s[j] != '`',
    ensures
        verbatim_body(s, a, n, i) == verbatim_body(s, a, n, e),
    decreases e - i,
{
    if i < e {
        assert(s[i] != '\n' && s[i] != '`');
        lemma_verbatim_run(s, a, n, i + 1, e);
    }
}

/// Text without backticks or line feeds between two equal runs of
/// backticks is verbatim, kept as it is, and the closing run is consumed.
pub proof fn law_verbatim_plain(n: nat, x: Seq<char>)
    requires
        n > 0,
        x.len() > 0,
        forall|j: int| 0 <= j < x.len() ==> #[trigger] x[j] != '`' && x[j] != '\n',
    ensures
        ({
            let s = backticks(n) + x + backticks(n);
            verbatim(s, 0) == Some((s.len() as int, SpanModel::Verbatim(x, None, None)))
        }),
{
    let s = backticks(n) + x + backticks(n);
    let a = n as int;
    let e = a + x.len();
    assert forall|j: int| 0 <= j < a implies in_class(CharClass::Backtick, #[trigger] s[j]) by {
        assert(s[j] == backticks(n)[j]);
    }
    assert(s[a] == x[0]);
    lemma_scan_run(s, 0, a, CharClass::Backtick);
    assert forall|j: int| a <= j < e implies #[trigger] s[j] != '\n' && s[j] != '`' by {
        assert(s[j] == x[j - a]);
    }
    lemma_verbatim_run(s, a, a, a, e);
    assert forall|j: int| e <= j < s.len() implies in_class(CharClass::Backtick, #[trigger] s[j]) by {
        assert(s[j] == backticks(n)[j - e]);
    }
    lemma_scan_run(s, e, s.len() as int, CharClass::Backtick);
    assert(s[e] == '`');
    assert(s.subrange(a, e) =~= x);
    lemma_trim_bounds(x);
    let t = trim(x);
    if t.len() > 0 {
        let lo = crate::chars::trim_start(x, 0);
        assert(t[0] == x[lo]);
    }
}

/// `#` and a word (no white space, `]` or `#` in it) is a hash tag holding
/// the word.
pub proof fn law_hash_word(w: Seq<char>)
    requires
        w.len() > 0,
        forall|j: int| 0 <= j < w.len() ==> in_class(CharClass::HashHead, #[trigger] w[j])
            && !crate::chars::white_space(w[j]),
    ensures
        hash(seq!['#'] + w, 0) == Some(((w.len() + 1) as int, SpanModel::Hash(w))),
{
    let s = seq!['#'] + w;
    assert forall|j: int| 1 <= j < s.len() implies in_class(CharClass::HashHead, #[trigger] s[j]) by {
        assert(s[j] == w[j - 1]);
    }
    lemma_scan_run(s, 1, s.len() as int, CharClass::HashHead);
    assert(s.subrange(1, s.len() as int) =~= w);
    assert(!crate::chars::white_space(w[0]));
    assert(!crate::chars::white_space(w[w.len() - 1]));
    assert(crate::chars::trim_start(w, 0) == 0);
    assert(crate::chars::trim_end(w, 0, w.len() as int) == w.len());
    assert(trim(w) =~= w);
}

/// A character that starts no span and no end of mark: none of `*`, `_`,
/// a backtick, `\`, `#`, `[`, `^`, `~` or a line feed.
pub open spec fn quiet_char(c: char) -> bool {
    !(c == '*' || c == '_' || c == '`' || c == '\\' || c == '#' || c == '[' || c == '^' || c == '~'
        || c == '\n')
}

/// From `i` to `e` the input holds only quiet characters, and when the run
/// is followed by more input it does not end in a carriage return (which
/// would join the line ending after it).
pub open spec fn quiet_run(s: Seq<char>, i: int, e: int) -> bool {
    &&& 0 <= i <= e <= s.len()
    &&& forall|j: int| i <= j < e ==> quiet_char(#[trigger] s[j])
    &&& (0 < e < s.len() ==> s[e - 1] != '\r')
}

proof fn lemma_quiet_spans_loop(
    s: Seq<char>,
    i: int,
    e: int,
    boundary: bool,
    start: int,
    ss: Seq<SpanModel>,
    inlist: Option<bool>,
)
    requires
        quiet_run(s, i, e),
        0 <= start <= i,
        eom(s, e) is Some,
    ensures
        spans_loop(s, i, boundary, start, ss, None, inlist) == (e, flush(s, e, start, ss)),
    decreases e - i,
{
    if i < e {
        assert(quiet_char(s[i]));
        if i + 1 < e {
            assert(quiet_char(s[i + 1]));
        } else if e < s.len() {
            assert(line_ending(s, e) is Some);
        }
        assert(scan(s, i, CharClass::Backtick) == i);
        assert(edge(s, i) is None);
        assert(line_ending(s, i) is None);
        assert(eom(s, i) is None);
        assert(verbatim(s, i) is None);
        assert(link(s, i) is None);
        assert(bracket(s, i) is None);
        assert(nobracket(s, i) is None);
        assert(span_tag(s, i, boundary) is None);
        assert(!list_singleline_tag(s, i, true) && !list_singleline_tag(s, i, false));
        lemma_quiet_spans_loop(s, i + 1, e, is_edge_space(s[i]), start, ss, inlist);
    } else if e < s.len() {
        assert(line_ending(s, e) is Some);
        assert(edge(s, e) is None);
        assert(span_tag(s, e, boundary) == eom(s, e));
    }
}

/// Spans over quiet characters up to an end of mark, in lists or not, are
/// one text span.
pub proof fn lemma_quiet_spans(s: Seq<char>, i: int, e: int, inlist: Option<bool>)
    requires
        quiet_run(s, i, e),
        i < e,
        eom(s, e) is Some,
    ensures
        spans(s, i, None, inlist) == (e, seq![SpanModel::Text(s.subrange(i, e))]),
{
    lemma_quiet_spans_loop(s, i, e, true, i, Seq::empty(), inlist);
    assert(flush(s, e, i, Seq::empty()) =~= seq![SpanModel::Text(s.subrange(i, e))]);
}

/// Text that holds none of the characters that start a span or end a mark
/// (`*`, `_`, a backtick, `\`, `#`, `[`, `^`, `~`, a line feed) parses, without
/// a closer and outside lists, as one text span holding all of it.
pub proof fn law_quiet_spans(s: Seq<char>)
    requires
        s.len() > 0,
        forall|j: int| 0 <= j < s.len() ==> quiet_char(#[trigger] s[j]),
    ensures
        spans(s, 0, None, None) == (s.len() as int, seq![SpanModel::Text(s)]),
{
    lemma_quiet_spans(s, 0, s.len() as int, None);
    assert(s.subrange(0, s.len() as int) =~= s);
}

proof fn lemma_verbatim_body_bounds(s: Seq<char>, a: int, n: int, i: int)
    requires
        0 <= i <= s.len(),
    ensures
        i <= verbatim_body(s, a, n, i).0 <= s.len(),
    decreases s.len() - i,
{
    if 0 <= i < s.len() {
        if s[i] == '`' {
            let t = scan(s, i, CharClass::Backtick);
            lemma_scan_bounds(s, i, CharClass::Backtick);
            if t - i != n && i < t <= s.len() {
                lemma_verbatim_body_bounds(s, a, n, t);
            }
        } else if s[i] != '\n' {
            lemma_verbatim_body_bounds(s, a, n, i + 1);
        }
    }
}

proof fn lemma_leaf_tags_bounds(s: Seq<char>, p: int)
    requires
        0 <= p <= s.len(),
    ensures
        eom(s, p) matches Some((e, sp)) ==> e == p && sp is EOM,
        esc(s, p) matches Some((e, _)) ==> p < e <= s.len(),
        verbatim(s, p) matches Some((e, _)) ==> p < e <= s.len(),
        hash(s, p) matches Some((e, _)) ==> p < e <= s.len(),
{
    lemma_scan_bounds(s, p, CharClass::Backtick);
    let a = scan(s, p, CharClass::Backtick);
    if a > p {
        lemma_verbatim_body_bounds(s, a, a - p, a);
    }
    if char_at(s, p, '#') {
        lemma_scan_bounds(s, p + 1, CharClass::HashHead);
        let e1 = scan(s, p + 1, CharClass::HashHead);
        lemma_scan_bounds(s, e1, CharClass::HashTail);
    }
}

proof fn lemma_after_tag_bounds(s: Seq<char>, e: int, sp: SpanModel)
    requires
        0 <= e <= s.len(),
    ensures
        e <= after_tag(s, e, sp).0 <= s.len(),
{
    lemma_attributes_bounds(s, e);
    if e + 1 <= s.len() {
        lemma_key_bounds(s, e + 1);
    }
}

proof fn lemma_edge_bounds(s: Seq<char>, p: int)
    requires
        0 <= p <= s.len(),
    ensures
        edge(s, p) matches Some((e, _)) ==> p < e <= s.len(),
    decreases s.len() - p, 1int,
{
    if char_at(s, p, '*') || char_at(s, p, '_') {
        lemma_spans_bounds(s, p + 1, Some(seq![s[p]]), None);
    }
}

proof fn lemma_link_bounds(s: Seq<char>, p: int)
    requires
        0 <= p <= s.len(),
    ensures
        link(s, p) matches Some((e, _)) ==> p < e <= s.len(),
    decreases s.len() - p, 1int,
{
    let q = if char_at(s, p, '!') {
        p + 1
    } else {
        p
    };
    if char_at(s, q, '[') && char_at(s, q + 1, '[') {
        let l0 = q + 2;
        let le = scan(s, l0, CharClass::LocatorChar);
        let r = if char_at(s, le, '|') {
            le + 1
        } else {
            le
        };
        if le > l0 && r <= s.len() {
            lemma_spans_bounds(s, r, Some(seq![']', ']']), None);
        }
    }
}

proof fn lemma_bracket_bounds(s: Seq<char>, p: int)
    requires
        0 <= p <= s.len(),
    ensures
        bracket(s, p) matches Some((e, _)) ==> p < e <= s.len(),
    decreases s.len() - p, 1int,
{
    if char_at(s, p, '[') && p + 1 < s.len() {
        lemma_spans_bounds(s, p + 2, Some(seq![s[p + 1], ']']), None);
    }
}

proof fn lemma_nobracket_bounds(s: Seq<char>, p: int)
    requires
        0 <= p <= s.len(),
    ensures
        nobracket(s, p) matches Some((e, _)) ==> p < e <= s.len(),
    decreases s.len() - p, 1int,
{
    if char_at(s, p, '^') || char_at(s, p, '~') {
        lemma_spans_bounds(s, p + 1, Some(seq![s[p]]), None);
    }
}

proof fn lemma_span_tag_bounds(s: Seq<char>, p: int, boundary: bool)
    requires
        0 <= p <= s.len(),
    ensures
        span_tag(s, p, boundary) matches Some((e, sp)) ==> (p < e <= s.len() && !(sp is EOM)) || (e == p
            && sp is EOM),
    decreases s.len() - p, 2int,
{
    lemma_leaf_tags_bounds(s, p);
    lemma_link_bounds(s, p);
    lemma_bracket_bounds(s, p);
    lemma_nobracket_bounds(s, p);
    lemma_tags_not_eom(s, p);
}

proof fn lemma_tags_not_eom(s: Seq<char>, p: int)
    ensures
        esc(s, p) matches Some((_, sp)) ==> !(sp is EOM),
        verbatim(s, p) matches Some((_, sp)) ==> !(sp is EOM),
        hash(s, p) matches Some((_, sp)) ==> !(sp is EOM),
        link(s, p) matches Some((_, sp)) ==> !(sp is EOM),
        bracket(s, p) matches Some((_, sp)) ==> !(sp is EOM),
        nobracket(s, p) matches Some((_, sp)) ==> !(sp is EOM),
{
    if let Some((_, sp)) = bracket(s, p) {
        let t = s[p + 1];
        let ss = spans(s, p + 2, Some(seq![t, ']']), None).1;
        assert(!(bracket_span(t, ss) is EOM));
    }
}

proof fn lemma_spans_loop_bounds(
    s: Seq<char>,
    i: int,
    boundary: bool,
    start: int,
    ss: Seq<SpanModel>,
    closer: Option<Seq<char>>,
    inlist: Option<bool>,
)
    requires
        0 <= i <= s.len(),
    ensures
        i <= spans_loop(s, i, boundary, start, ss, closer, inlist).0 <= s.len(),
    decreases s.len() - i, 3int,
{
    if !(0 <= i < s.len()) {
    } else if closer_stops(s, i, boundary, closer) {
    } else if inlist is Some && list_singleline_tag(s, i, inlist->0) {
    } else if boundary && edge(s, i) is Some {
        lemma_edge_bounds(s, i);
        let (e, sp) = edge(s, i)->0;
        let ss2 = flush(s, i, start, ss).push(sp);
        lemma_spans_loop_bounds(s, e, false, e, ss2, closer, inlist);
    } else if span_tag(s, i, boundary) is Some {
        lemma_span_tag_bounds(s, i, boundary);
        let (e, sp) = span_tag(s, i, boundary)->0;
        let ss1 = flush(s, i, start, ss);
        if !(sp is EOM) {
            lemma_after_tag_bounds(s, e, sp);
            let (e2, sp2) = after_tag(s, e, sp);
            lemma_spans_loop_bounds(s, e2, false, e2, ss1.push(sp2), closer, inlist);
        }
    } else {
        lemma_spans_loop_bounds(s, i + 1, is_edge_space(s[i]), start, ss, closer, inlist);
    }
}

/// Spans end within the input, never before where they start.
pub proof fn lemma_spans_bounds(s: Seq<char>, p: int, closer: Option<Seq<char>>, inlist: Option<bool>)
    requires
        0 <= p <= s.len(),
    ensures
        p <= spans(s, p, closer, inlist).0 <= s.len(),
    decreases s.len() - p, 4int,
{
    lemma_spans_loop_bounds(s, p, true, p, Seq::empty(), closer, inlist);
}

proof fn lemma_spans_loop_rest(s: Seq<char>, i: int, boundary: bool, start: int, ss: Seq<SpanModel>)
    requires
        0 <= i <= s.len(),
    ensures
        eom(s, spans_loop(s, i, boundary, start, ss, None, None).0) is Some,
    decreases s.len() - i,
{
    if 0 <= i < s.len() {
        if boundary && edge(s, i) is Some {
            lemma_edge_bounds(s, i);
            let (e, sp) = edge(s, i)->0;
            lemma_spans_loop_rest(s, e, false, e, flush(s, i, start, ss).push(sp));
        } else if span_tag(s, i, boundary) is Some {
            lemma_span_tag_bounds(s, i, boundary);
            lemma_tags_not_eom(s, i);
            let (e, sp) = span_tag(s, i, boundary)->0;
            let ss1 = flush(s, i, start, ss);
            if !(sp is EOM) {
                lemma_after_tag_bounds(s, e, sp);
                let (e2, sp2) = after_tag(s, e, sp);
                lemma_spans_loop_rest(s, e2, false, e2, ss1.push(sp2));
            }
        } else {
            lemma_spans_loop_rest(s, i + 1, is_edge_space(s[i]), start, ss);
        }
    }
}

/// Spans without a closer, outside lists, stop at an end of mark: what they
/// leave is empty or starts with two line endings.
pub proof fn law_spans_rest(s: Seq<char>, p: int)
    requires
        0 <= p <= s.len(),
    ensures
        eom(s, spans(s, p, None, None).0) is Some,
{
    lemma_spans_loop_rest(s, p, true, p, Seq::empty());
}

/// Spans without a closer, outside lists, from a position that is neither
/// the end of input nor a line ending, consume at least one character.
pub proof fn lemma_spans_progress(s: Seq<char>, p: int)
    requires
        0 <= p < s.len(),
        line_ending(s, p) is None,
    ensures
        p < spans(s, p, None, None).0,
{
    let ss: Seq<SpanModel> = Seq::empty();
    lemma_edge_bounds(s, p);
    lemma_span_tag_bounds(s, p, true);
    lemma_leaf_tags_bounds(s, p);
    lemma_tags_not_eom(s, p);
    if edge(s, p) is Some {
        let (e, sp) = edge(s, p)->0;
        lemma_spans_loop_bounds(s, e, false, e, flush(s, p, p, ss).push(sp), None, None);
    } else if span_tag(s, p, true) is Some {
        let (e, sp) = span_tag(s, p, true)->0;
        assert(!(sp is EOM));
        lemma_after_tag_bounds(s, e, sp);
        let (e2, sp2) = after_tag(s, e, sp);
        lemma_spans_loop_bounds(s, e2, false, e2, flush(s, p, p, ss).push(sp2), None, None);
    } else {
        lemma_spans_loop_bounds(s, p + 1, is_edge_space(s[p]), p, ss, None, None);
    }
}

} // verus!
