use vstd::prelude::*;

use crate::chars::{
    char_at, char_at_exec, in_class, lemma_len_fits, lemma_scan_bounds, lemma_scan_run,
    lemma_skip_line_endings, line_ending, line_ending_exec, not_line_ending,
    not_line_ending_exec, scan, scan_exec, skip_line_endings, skip_line_endings_exec, text,
    CharClass,
};
use crate::model::{index_view, Enumerator, EnumeratorModel, Index, IndexModel};

verus! {

/// `digits:digits`
pub open spec fn ratio(s: Seq<char>, p: int) -> Option<int> {
    let d1 = scan(s, p, CharClass::Digit);
    if d1 > p && char_at(s, d1, ':') {
        let d2 = scan(s, d1 + 1, CharClass::Digit);
        if d2 > d1 + 1 {
            Some(d2)
        } else {
            None
        }
    } else {
        None
    }
}

/// What stands between the brackets of a task: a space, `x`, `X`, a ratio or digits.
pub open spec fn task_mark(s: Seq<char>, q: int) -> Option<int> {
    if char_at(s, q, ' ') || char_at(s, q, 'x') || char_at(s, q, 'X') {
        Some(q + 1)
    } else {
        match ratio(s, q) {
            Some(r) => Some(r),
            None => {
                let d = scan(s, q, CharClass::Digit);
                if d > q {
                    Some(d)
                } else {
                    None
                }
            },
        }
    }
}

/// `- [mark]`
pub open spec fn task(s: Seq<char>, p: int) -> Option<(int, IndexModel)> {
    if char_at(s, p, '-') && char_at(s, p + 1, ' ') && char_at(s, p + 2, '[') {
        match task_mark(s, p + 3) {
            Some(b) => if char_at(s, b, ']') {
                Some((b + 1, IndexModel::Task(s.subrange(p + 3, b))))
            } else {
                None
            },
            None => None,
        }
    } else {
        None
    }
}

/// `*`, `-` or `+`
pub open spec fn unordered(s: Seq<char>, p: int) -> Option<(int, IndexModel)> {
    if char_at(s, p, '*') || char_at(s, p, '-') || char_at(s, p, '+') {
        Some((p + 1, IndexModel::Unordered(seq![s[p]])))
    } else {
        None
    }
}

/// Letters or digits, closed by `)` or `.`; an opening `(` asks for `)`.
pub open spec fn ordered(s: Seq<char>, p: int) -> Option<(int, IndexModel)> {
    let open = char_at(s, p, '(');
    let q = if open {
        p + 1
    } else {
        p
    };
    let a = scan(s, q, CharClass::Alpha);
    let d = scan(s, q, CharClass::Digit);
    let o = if a > q {
        a
    } else {
        d
    };
    let en = if a > q {
        EnumeratorModel::Alpha(s.subrange(q, o))
    } else {
        EnumeratorModel::Digit(s.subrange(q, o))
    };
    if o == q {
        None
    } else if char_at(s, o, ')') || (!open && char_at(s, o, '.')) {
        Some((o + 1, IndexModel::Ordered(en)))
    } else {
        None
    }
}

/// An ordered index is the whole run of digits, or of letters, between an
/// optional `(` and the closing `)` or `.` (after `(` only `)`), which it
/// consumes.
pub proof fn law_ordered_enumerator(s: Seq<char>, p: int)
    requires
        0 <= p <= s.len(),
    ensures
        ordered(s, p) matches Some((e, idx)) ==> {
            let q = if char_at(s, p, '(') {
                p + 1
            } else {
                p
            };
            &&& q < e - 1 < s.len()
            &&& (s[e - 1] == ')' || (!char_at(s, p, '(') && s[e - 1] == '.'))
            &&& match idx {
                IndexModel::Ordered(EnumeratorModel::Digit(d)) => d == s.subrange(q, e - 1) && forall|
                    j: int,
                | 0 <= j < d.len() ==> '0' <= #[trigger] d[j] <= '9',
                IndexModel::Ordered(EnumeratorModel::Alpha(a)) => a == s.subrange(q, e - 1) && forall|
                    j: int,
                | 0 <= j < a.len() ==> in_class(CharClass::Alpha, #[trigger] a[j]),
                _ => false,
            }
        },
{
    let q = if char_at(s, p, '(') {
        p + 1
    } else {
        p
    };
    if q <= s.len() {
        lemma_scan_bounds(s, q, CharClass::Alpha);
        lemma_scan_bounds(s, q, CharClass::Digit);
        let a = scan(s, q, CharClass::Alpha);
        let d = scan(s, q, CharClass::Digit);
        if let Some((e, idx)) = ordered(s, p) {
            let o = if a > q {
                a
            } else {
                d
            };
            let t = s.subrange(q, o);
            assert forall|j: int| 0 <= j < t.len() implies if a > q {
                in_class(CharClass::Alpha, #[trigger] t[j])
            } else {
                '0' <= t[j] <= '9'
            } by {
                assert(t[j] == s[q + j]);
            }
        }
    }
}

/// Digits followed by `.` or `)` are an ordered index holding all the digits.
pub proof fn law_ordered_digits(s: Seq<char>, p: int, o: int)
    requires
        0 <= p < o < s.len(),
        forall|j: int| p <= j < o ==> '0' <= #[trigger] s[j] <= '9',
        s[o] == '.' || s[o] == ')',
    ensures
        ordered(s, p) == Some((o + 1, IndexModel::Ordered(EnumeratorModel::Digit(s.subrange(p, o))))),
{
    assert forall|j: int| p <= j < o implies in_class(CharClass::Digit, #[trigger] s[j]) by {
        assert('0' <= s[j] <= '9');
    }
    lemma_scan_run(s, p, o, CharClass::Digit);
    assert('0' <= s[p] <= '9');
    assert(scan(s, p, CharClass::Alpha) == p);
}

/// An unordered index is its one marker, `*`, `-` or `+`, kept as it is.
pub proof fn law_unordered_marker(s: Seq<char>, p: int)
    ensures
        unordered(s, p) matches Some((e, idx)) ==> e == p + 1 && (s[p] == '*' || s[p] == '-' || s[p]
            == '+') && idx == IndexModel::Unordered(seq![s[p]]),
        0 <= p < s.len() && (s[p] == '*' || s[p] == '-' || s[p] == '+') ==> unordered(s, p) is Some,
{
}

/// A task index is `- [`, its mark, and `]`; the mark is all the text between
/// the brackets: a space, `x`, `X`, digits, or digits `:` digits.
pub proof fn law_task_mark(s: Seq<char>, p: int)
    requires
        0 <= p <= s.len(),
    ensures
        task(s, p) matches Some((e, idx)) ==> {
            &&& p + 3 < e <= s.len()
            &&& s[p] == '-' && s[p + 1] == ' ' && s[p + 2] == '[' && s[e - 1] == ']'
            &&& idx == IndexModel::Task(s.subrange(p + 3, e - 1))
        },
{
    if char_at(s, p, '-') && char_at(s, p + 1, ' ') && char_at(s, p + 2, '[') {
        lemma_scan_bounds(s, p + 3, CharClass::Digit);
        let d1 = scan(s, p + 3, CharClass::Digit);
        if char_at(s, d1, ':') {
            lemma_scan_bounds(s, d1 + 1, CharClass::Digit);
        }
    }
}

/// A definition index is `:`, spaces, and the term: the rest of the line,
/// without its line ending, which is left unconsumed.
pub proof fn law_definition_term(s: Seq<char>, p: int)
    requires
        0 <= p <= s.len(),
    ensures
        definition(s, p) matches Some((e, IndexModel::Definition(t))) ==> {
            &&& s[p] == ':'
            &&& e <= s.len()
            &&& t == s.subrange(e - t.len(), e)
            &&& forall|j: int| 0 <= j < t.len() ==> #[trigger] t[j] != '\n' && t[j] != '\r'
            &&& (e == s.len() || s[e] == '\n' || s[e] == '\r')
        },
{
    if char_at(s, p, ':') {
        lemma_scan_bounds(s, p + 1, CharClass::Space);
        let r = scan(s, p + 1, CharClass::Space);
        lemma_scan_bounds(s, r, CharClass::NotLineEnd);
        if let Some((e, IndexModel::Definition(t))) = definition(s, p) {
            assert forall|j: int| 0 <= j < t.len() implies #[trigger] t[j] != '\n' && t[j] != '\r' by {
                assert(t[j] == s[r + j]);
                assert(in_class(CharClass::NotLineEnd, s[r + j]));
            }
        }
    }
}

/// `: term`, the term running to the end of the line.
pub open spec fn definition(s: Seq<char>, p: int) -> Option<(int, IndexModel)> {
    if char_at(s, p, ':') {
        let r = scan(s, p + 1, CharClass::Space);
        if r > p + 1 {
            match not_line_ending(s, r) {
                Some(e) => Some((e, IndexModel::Definition(s.subrange(r, e)))),
                None => None,
            }
        } else {
            None
        }
    } else {
        None
    }
}

/// A lone `:`.
pub open spec fn definition_simple(s: Seq<char>, p: int) -> Option<(int, IndexModel)> {
    if char_at(s, p, ':') {
        Some((p + 1, IndexModel::Definition(Seq::empty())))
    } else {
        None
    }
}

/// A parsed index followed by at least one space; the end is after the spaces.
pub open spec fn then_space1(s: Seq<char>, x: Option<(int, IndexModel)>) -> Option<(int, IndexModel)> {
    match x {
        Some((t, idx)) => {
            let u = scan(s, t, CharClass::Space);
            if u > t {
                Some((u, idx))
            } else {
                None
            }
        },
        None => None,
    }
}

/// The start of a list item: line endings, indentation (the depth), and a task,
/// unordered or ordered index followed by spaces, or a definition followed by a
/// line ending (which is left unconsumed).
pub open spec fn list_tag(s: Seq<char>, p: int) -> Option<(int, Seq<char>, IndexModel)> {
    let q = skip_line_endings(s, p);
    let r = scan(s, q, CharClass::Space);
    let d = s.subrange(q, r);
    let t = then_space1(s, task(s, r));
    let u = then_space1(s, unordered(s, r));
    let o = then_space1(s, ordered(s, r));
    match t {
        Some((e, idx)) => Some((e, d, idx)),
        None => match u {
            Some((e, idx)) => Some((e, d, idx)),
            None => match o {
                Some((e, idx)) => Some((e, d, idx)),
                None => match definition(s, r) {
                    Some((e, idx)) => if line_ending(s, e) is Some {
                        Some((e, d, idx))
                    } else {
                        None
                    },
                    None => None,
                },
            },
        },
    }
}

/// The first index that parses at `r`, trying task, unordered, ordered, then a lone `:`.
pub open spec fn first_index(s: Seq<char>, r: int) -> Option<(int, IndexModel)> {
    if task(s, r) is Some {
        task(s, r)
    } else if unordered(s, r) is Some {
        unordered(s, r)
    } else if ordered(s, r) is Some {
        ordered(s, r)
    } else {
        definition_simple(s, r)
    }
}

/// Whether a new list item (or its attributes) starts on the next line: a line
/// ending, indentation when `new` holds, then an index followed by a space, or `{`.
pub open spec fn list_singleline_tag(s: Seq<char>, p: int, new: bool) -> bool {
    match line_ending(s, p) {
        Some(q) => {
            let r = if new {
                scan(s, q, CharClass::Space)
            } else {
                q
            };
            then_space1(s, first_index(s, r)) is Some || char_at(s, r, '{')
        },
        None => false,
    }
}

/// The end of a parsed index lies after its start and within the input.
pub open spec fn index_ok(s: Seq<char>, p: int, r: Option<(usize, Index)>, m: Option<(int, IndexModel)>) -> bool {
    match r {
        Some((e, idx)) => m == Some((e as int, index_view(idx))) && p < e <= s.len(),
        None => m is None,
    }
}

fn ratio_exec(s: &Vec<char>, p: usize) -> (r: Option<usize>)
    requires
        p <= s@.len(),
    ensures
        match r {
            Some(e) => ratio(s@, p as int) == Some(e as int) && p < e <= s@.len(),
            None => ratio(s@, p as int) is None,
        },
{
    proof {
        lemma_len_fits(s);
    }
    let d1 = scan_exec(s, p, CharClass::Digit);
    if d1 > p && char_at_exec(s, d1, ':') {
        let d2 = scan_exec(s, d1 + 1, CharClass::Digit);
        if d2 > d1 + 1 {
            Some(d2)
        } else {
            None
        }
    } else {
        None
    }
}

fn task_exec(s: &Vec<char>, p: usize) -> (r: Option<(usize, Index)>)
    requires
        p <= s@.len(),
    ensures
        index_ok(s@, p as int, r, task(s@, p as int)),
{
    proof {
        lemma_len_fits(s);
    }
    if !(char_at_exec(s, p, '-') && char_at_exec(s, p + 1, ' ') && char_at_exec(s, p + 2, '[')) {
        return None;
    }
    let q = p + 3;
    let b = if char_at_exec(s, q, ' ') || char_at_exec(s, q, 'x') || char_at_exec(s, q, 'X') {
        q + 1
    } else {
        match ratio_exec(s, q) {
            Some(r) => r,
            None => {
                let d = scan_exec(s, q, CharClass::Digit);
                if d > q {
                    d
                } else {
                    return None;
                }
            },
        }
    };
    assert(task_mark(s@, q as int) == Some(b as int));
    if char_at_exec(s, b, ']') {
        Some((b + 1, Index::Task(text(s, q, b))))
    } else {
        None
    }
}

fn unordered_exec(s: &Vec<char>, p: usize) -> (r: Option<(usize, Index)>)
    requires
        p <= s@.len(),
    ensures
        index_ok(s@, p as int, r, unordered(s@, p as int)),
{
    proof {
        lemma_len_fits(s);
    }
    if char_at_exec(s, p, '*') || char_at_exec(s, p, '-') || char_at_exec(s, p, '+') {
        let t = text(s, p, p + 1);
        assert(s@.subrange(p as int, p + 1) =~= seq![s@[p as int]]);
        Some((p + 1, Index::Unordered(t)))
    } else {
        None
    }
}

fn ordered_exec(s: &Vec<char>, p: usize) -> (r: Option<(usize, Index)>)
    requires
        p <= s@.len(),
    ensures
        index_ok(s@, p as int, r, ordered(s@, p as int)),
{
    proof {
        lemma_len_fits(s);
    }
    let open = char_at_exec(s, p, '(');
    let q = if open {
        p + 1
    } else {
        p
    };
    let a = scan_exec(s, q, CharClass::Alpha);
    let d = scan_exec(s, q, CharClass::Digit);
    let o = if a > q {
        a
    } else {
        d
    };
    if o == q {
        return None;
    }
    if char_at_exec(s, o, ')') || (!open && char_at_exec(s, o, '.')) {
        let en = if a > q {
            Enumerator::Alpha(text(s, q, o))
        } else {
            Enumerator::Digit(text(s, q, o))
        };
        Some((o + 1, Index::Ordered(en)))
    } else {
        None
    }
}

fn definition_exec(s: &Vec<char>, p: usize) -> (r: Option<(usize, Index)>)
    requires
        p <= s@.len(),
    ensures
        index_ok(s@, p as int, r, definition(s@, p as int)),
{
    proof {
        lemma_len_fits(s);
    }
    if !char_at_exec(s, p, ':') {
        return None;
    }
    let r = scan_exec(s, p + 1, CharClass::Space);
    if r > p + 1 {
        match not_line_ending_exec(s, r) {
            Some(e) => Some((e, Index::Definition(text(s, r, e)))),
            None => None,
        }
    } else {
        None
    }
}

fn definition_simple_exec(s: &Vec<char>, p: usize) -> (r: Option<(usize, Index)>)
    requires
        p <= s@.len(),
    ensures
        index_ok(s@, p as int, r, definition_simple(s@, p as int)),
{
    proof {
        lemma_len_fits(s);
    }
    if char_at_exec(s, p, ':') {
        let t = text(s, p, p);
        assert(t@ =~= Seq::<char>::empty());
        Some((p + 1, Index::Definition(t)))
    } else {
        None
    }
}

fn then_space1_exec(s: &Vec<char>, p: usize, x: Option<(usize, Index)>) -> (r: Option<(usize, Index)>)
    requires
        p <= s@.len(),
        match x {
            Some((e, _)) => p < e <= s@.len(),
            None => true,
        },
    ensures
        index_ok(s@, p as int, r, then_space1(s@, index_model(x))),
{
    match x {
        Some((t, idx)) => {
            let u = scan_exec(s, t, CharClass::Space);
            if u > t {
                Some((u, idx))
            } else {
                None
            }
        },
        None => None,
    }
}

pub open spec fn index_model(x: Option<(usize, Index)>) -> Option<(int, IndexModel)> {
    match x {
        Some((e, idx)) => Some((e as int, index_view(idx))),
        None => None,
    }
}

/// Parses the start of a list item at `p`: on success the end, the
/// indentation and the index.
pub fn list_tag_exec(s: &Vec<char>, p: usize) -> (r: Option<(usize, Vec<char>, Index)>)
    requires
        p <= s@.len(),
    ensures
        match r {
            Some((e, d, idx)) => list_tag(s@, p as int) == Some((e as int, d@, index_view(idx)))
                && p < e <= s@.len(),
            None => list_tag(s@, p as int) is None,
        },
{
    let q = skip_line_endings_exec(s, p);
    let r = scan_exec(s, q, CharClass::Space);
    let t = then_space1_exec(s, r, task_exec(s, r));
    if let Some((e, idx)) = t {
        return Some((e, chars_between(s, q, r), idx));
    }
    let u = then_space1_exec(s, r, unordered_exec(s, r));
    if let Some((e, idx)) = u {
        return Some((e, chars_between(s, q, r), idx));
    }
    let o = then_space1_exec(s, r, ordered_exec(s, r));
    if let Some((e, idx)) = o {
        return Some((e, chars_between(s, q, r), idx));
    }
    match definition_exec(s, r) {
        Some((e, idx)) => {
            if line_ending_exec(s, e).is_some() {
                Some((e, chars_between(s, q, r), idx))
            } else {
                None
            }
        },
        None => None,
    }
}

/// The characters of `s` from `a` to `b`.
pub fn chars_between(s: &Vec<char>, a: usize, b: usize) -> (r: Vec<char>)
    requires
        a <= b <= s@.len(),
    ensures
        r@ == s@.subrange(a as int, b as int),
{
    vstd::slice::slice_to_vec(vstd::slice::slice_subrange(s.as_slice(), a, b))
}

/// Whether two character sequences are equal.
pub fn same_chars(a: &Vec<char>, b: &Vec<char>) -> (r: bool)
    ensures
        r == (a@ == b@),
{
    if a.len() != b.len() {
        return false;
    }
    let mut j: usize = 0;
    while j < a.len()
        invariant
            a@.len() == b@.len(),
            j <= a@.len(),
            forall|k: int| 0 <= k < j ==> a@[k] == b@[k],
        decreases a.len() - j,
    {
        if a[j] != b[j] {
            return false;
        }
        j = j + 1;
    }
    assert(a@ =~= b@);
    true
}

/// Whether a list item (or attributes) starts on the line after `p`.
pub fn list_singleline_tag_exec(s: &Vec<char>, p: usize, new: bool) -> (r: bool)
    requires
        p <= s@.len(),
    ensures
        r == list_singleline_tag(s@, p as int, new),
{
    match line_ending_exec(s, p) {
        Some(q) => {
            let r = if new {
                scan_exec(s, q, CharClass::Space)
            } else {
                q
            };
            let first = match task_exec(s, r) {
                Some(x) => Some(x),
                None => match unordered_exec(s, r) {
                    Some(x) => Some(x),
                    None => match ordered_exec(s, r) {
                        Some(x) => Some(x),
                        None => definition_simple_exec(s, r),
                    },
                },
            };
            then_space1_exec(s, r, first).is_some() || char_at_exec(s, r, '{')
        },
        None => false,
    }
}

proof fn lemma_index_bounds(s: Seq<char>, r: int)
    requires
        0 <= r <= s.len(),
    ensures
        task(s, r) matches Some((e, _)) ==> r < e <= s.len(),
        unordered(s, r) matches Some((e, _)) ==> r < e <= s.len(),
        ordered(s, r) matches Some((e, _)) ==> r < e <= s.len(),
        definition(s, r) matches Some((e, _)) ==> r < e <= s.len(),
        definition_simple(s, r) matches Some((e, _)) ==> r < e <= s.len(),
{
    if r + 3 <= s.len() {
        lemma_scan_bounds(s, r + 3, CharClass::Digit);
        let d1 = scan(s, r + 3, CharClass::Digit);
        if d1 + 1 <= s.len() {
            lemma_scan_bounds(s, d1 + 1, CharClass::Digit);
        }
    }
    let q = if char_at(s, r, '(') {
        r + 1
    } else {
        r
    };
    lemma_scan_bounds(s, q, CharClass::Alpha);
    lemma_scan_bounds(s, q, CharClass::Digit);
    if char_at(s, r, ':') {
        lemma_scan_bounds(s, r + 1, CharClass::Space);
        let t = scan(s, r + 1, CharClass::Space);
        lemma_scan_bounds(s, t, CharClass::NotLineEnd);
    }
}

proof fn lemma_then_space1_bounds(s: Seq<char>, r: int, x: Option<(int, IndexModel)>)
    requires
        0 <= r <= s.len(),
        x matches Some((e, _)) ==> r < e <= s.len(),
    ensures
        then_space1(s, x) matches Some((e, _)) ==> r < e <= s.len(),
{
    if let Some((t, _)) = x {
        lemma_scan_bounds(s, t, CharClass::Space);
    }
}

/// A list tag ends after its start and within the input.
pub proof fn lemma_list_tag_bounds(s: Seq<char>, p: int)
    requires
        0 <= p <= s.len(),
    ensures
        list_tag(s, p) matches Some((e, _, _)) ==> p < e <= s.len(),
{
    lemma_skip_line_endings(s, p);
    let q = skip_line_endings(s, p);
    lemma_scan_bounds(s, q, CharClass::Space);
    let r = scan(s, q, CharClass::Space);
    lemma_index_bounds(s, r);
    lemma_then_space1_bounds(s, r, task(s, r));
    lemma_then_space1_bounds(s, r, unordered(s, r));
    lemma_then_space1_bounds(s, r, ordered(s, r));
}

} // verus!
