use vstd::prelude::*;

use crate::chars::{
    char_at, char_at_exec, class_has, in_class, lemma_len_fits, lemma_scan_bounds, lemma_scan_run,
    line_ending,
    line_ending_exec, scan, scan_exec, text, CharClass,
};
use crate::model::{attrs_view, Attrs, AttrsModel};

verus! {

/// An attribute key (or a format name): a non-empty run of `KeyChar`s.
pub open spec fn key(s: Seq<char>, p: int) -> Option<int> {
    let e = scan(s, p, CharClass::KeyChar);
    if e > p {
        Some(e)
    } else {
        None
    }
}

/// The end of an attribute value from `p`: escaped characters (`\` and any
/// character) and `ValueChar`s.
pub open spec fn value_end(s: Seq<char>, p: int) -> int
    decreases s.len() - p,
{
    if 0 <= p && p + 1 < s.len() && s[p] == '\\' {
        value_end(s, p + 2)
    } else if 0 <= p < s.len() && in_class(CharClass::ValueChar, s[p]) {
        value_end(s, p + 1)
    } else {
        p
    }
}

/// An attribute value: a non-empty run as `value_end` takes it.
pub open spec fn key_value(s: Seq<char>, p: int) -> Option<int> {
    let e = value_end(s, p);
    if e > p {
        Some(e)
    } else {
        None
    }
}

/// `key=value`, giving its end and the pair's texts.
pub open spec fn attr_pair(s: Seq<char>, p: int) -> Option<(int, (Seq<char>, Seq<char>))> {
    match key(s, p) {
        Some(k) => if char_at(s, k, '=') {
            match key_value(s, k + 1) {
                Some(v) => Some((v, (s.subrange(p, k), s.subrange(k + 1, v)))),
                None => None,
            }
        } else {
            None
        },
        None => None,
    }
}

/// The separator between two pairs: an optional line ending, then at least one space.
pub open spec fn attr_sep(s: Seq<char>, p: int) -> Option<int> {
    let q = match line_ending(s, p) {
        Some(e) => e,
        None => p,
    };
    let r = scan(s, q, CharClass::Space);
    if r > q {
        Some(r)
    } else {
        None
    }
}

/// The pairs that follow the first one, each after a separator; a separator
/// that no pair follows is left unconsumed.
pub open spec fn attr_list(s: Seq<char>, p: int, acc: Seq<(Seq<char>, Seq<char>)>) -> (int, Seq<
    (Seq<char>, Seq<char>),
>)
    decreases s.len() - p,
{
    match attr_sep(s, p) {
        Some(q) => match attr_pair(s, q) {
            Some((r, kv)) => if p < r <= s.len() {
                attr_list(s, r, acc.push(kv))
            } else {
                (p, acc)
            },
            None => (p, acc),
        },
        None => (p, acc),
    }
}

/// Whether `m` has a pair with key `k`.
pub open spec fn has_key(m: AttrsModel, k: Seq<char>) -> bool {
    exists|j: int| 0 <= j < m.len() && (#[trigger] m[j]).0 == k
}

/// Adds a pair unless its key is already there.
pub open spec fn add_attr(m: AttrsModel, kv: (Seq<char>, Seq<char>)) -> AttrsModel {
    if has_key(m, kv.0) {
        m
    } else {
        m.push(kv)
    }
}

/// The pairs of `list` in order, where only the first pair with a given key counts.
pub open spec fn first_wins(list: Seq<(Seq<char>, Seq<char>)>) -> AttrsModel
    decreases list.len(),
{
    if list.len() == 0 {
        Seq::empty()
    } else {
        add_attr(first_wins(list.drop_last()), list.last())
    }
}

/// `{k=v ...}`: an opening brace, spaces, one or more pairs, spaces, a closing brace.
pub open spec fn attributes(s: Seq<char>, p: int) -> Option<(int, AttrsModel)> {
    if char_at(s, p, '{') {
        let q = scan(s, p + 1, CharClass::Space);
        match attr_pair(s, q) {
            Some((r, kv)) => {
                let (e, list) = attr_list(s, r, seq![kv]);
                let t = scan(s, e, CharClass::Space);
                if char_at(s, t, '}') {
                    Some((t + 1, first_wins(list)))
                } else {
                    None
                }
            },
            None => None,
        }
    } else {
        None
    }
}

proof fn lemma_value_end_run(s: Seq<char>, p: int, e: int)
    requires
        0 <= p <= e <= s.len(),
        forall|j: int| p <= j < e ==> in_class(CharClass::ValueChar, #[trigger] s[j]),
        e < s.len() ==> !in_class(CharClass::ValueChar, s[e]) && s[e] != '\\',
    ensures
        value_end(s, p) == e,
    decreases e - p,
{
    if p < e {
        assert(in_class(CharClass::ValueChar, s[p]));
        lemma_value_end_run(s, p + 1, e);
    }
}

/// One pair in braces, `{key=value}`, with a key of key characters and a
/// value of plain value characters, gives that key and that value, and the
/// whole of it is consumed.
pub proof fn law_single_attribute(k: Seq<char>, v: Seq<char>)
    requires
        k.len() > 0,
        forall|j: int| 0 <= j < k.len() ==> in_class(CharClass::KeyChar, #[trigger] k[j]),
        v.len() > 0,
        forall|j: int| 0 <= j < v.len() ==> in_class(CharClass::ValueChar, #[trigger] v[j]),
    ensures
        ({
            let s = seq!['{'] + k + seq!['='] + v + seq!['}'];
            attributes(s, 0) == Some((s.len() as int, seq![(k, v)]))
        }),
{
    let s = seq!['{'] + k + seq!['='] + v + seq!['}'];
    let ke: int = 1 + k.len() as int;
    let ve: int = ke + 1 + v.len();
    assert(s[0] == '{');
    assert(s[1] == k[0]);
    assert(in_class(CharClass::KeyChar, k[0]));
    assert(scan(s, 1, CharClass::Space) == 1);
    assert forall|j: int| 1 <= j < ke implies in_class(CharClass::KeyChar, #[trigger] s[j]) by {
        assert(s[j] == k[j - 1]);
    }
    assert(s[ke] == '=');
    lemma_scan_run(s, 1, ke, CharClass::KeyChar);
    assert forall|j: int| ke + 1 <= j < ve implies in_class(CharClass::ValueChar, #[trigger] s[j]) by {
        assert(s[j] == v[j - ke - 1]);
    }
    assert(s[ve] == '}');
    lemma_value_end_run(s, ke + 1, ve);
    assert(s.subrange(1, ke) =~= k);
    assert(s.subrange(ke + 1, ve) =~= v);
    assert(line_ending(s, ve) is None);
    assert(scan(s, ve, CharClass::Space) == ve);
    assert(attr_sep(s, ve) is None);
    let list = seq![(k, v)];
    assert(list.drop_last() =~= Seq::<(Seq<char>, Seq<char>)>::empty());
    assert(!has_key(Seq::<(Seq<char>, Seq<char>)>::empty(), k));
    let e = Seq::<(Seq<char>, Seq<char>)>::empty();
    assert(first_wins(e) == e);
    assert(list.last() == (k, v));
    assert(first_wins(list) == add_attr(first_wins(e), (k, v)));
    assert(add_attr(e, (k, v)) == e.push((k, v)));
    assert(e.push((k, v)) =~= list);
}

/// No key occurs twice.
pub open spec fn distinct_keys(m: AttrsModel) -> bool {
    forall|i: int, j: int| 0 <= i < j < m.len() ==> (#[trigger] m[i]).0 != (#[trigger] m[j]).0
}

pub fn key_exec(s: &Vec<char>, p: usize) -> (r: Option<usize>)
    requires
        p <= s@.len(),
    ensures
        match r {
            Some(e) => key(s@, p as int) == Some(e as int) && p < e <= s@.len(),
            None => key(s@, p as int) is None,
        },
{
    let e = scan_exec(s, p, CharClass::KeyChar);
    if e > p {
        Some(e)
    } else {
        None
    }
}

fn key_value_exec(s: &Vec<char>, p: usize) -> (r: Option<usize>)
    requires
        p <= s@.len(),
    ensures
        match r {
            Some(e) => key_value(s@, p as int) == Some(e as int) && p < e <= s@.len(),
            None => key_value(s@, p as int) is None,
        },
{
    let mut i = p;
    loop
        invariant
            p <= i <= s@.len(),
            value_end(s@, i as int) == value_end(s@, p as int),
        ensures
            p <= i <= s@.len(),
            value_end(s@, i as int) == i,
            value_end(s@, i as int) == value_end(s@, p as int),
        decreases s@.len() - i,
    {
        if i < s.len() && s[i] == '\\' && i + 1 < s.len() {
            i = i + 2;
        } else if i < s.len() && class_has(CharClass::ValueChar, s[i]) {
            i = i + 1;
        } else {
            break;
        }
    }
    if i > p {
        Some(i)
    } else {
        None
    }
}

fn attr_pair_exec(s: &Vec<char>, p: usize) -> (r: Option<(usize, (String, String))>)
    requires
        p <= s@.len(),
    ensures
        match r {
            Some((e, kv)) => attr_pair(s@, p as int) == Some((e as int, (kv.0@, kv.1@))) && p < e
                <= s@.len(),
            None => attr_pair(s@, p as int) is None,
        },
{
    proof {
        lemma_len_fits(s);
    }
    match key_exec(s, p) {
        Some(k) => {
            if char_at_exec(s, k, '=') {
                match key_value_exec(s, k + 1) {
                    Some(v) => Some((v, (text(s, p, k), text(s, k + 1, v)))),
                    None => None,
                }
            } else {
                None
            }
        },
        None => None,
    }
}

fn attr_sep_exec(s: &Vec<char>, p: usize) -> (r: Option<usize>)
    requires
        p <= s@.len(),
    ensures
        match r {
            Some(e) => attr_sep(s@, p as int) == Some(e as int) && p < e <= s@.len(),
            None => attr_sep(s@, p as int) is None,
        },
{
    let q = match line_ending_exec(s, p) {
        Some(e) => e,
        None => p,
    };
    let r = scan_exec(s, q, CharClass::Space);
    if r > q {
        Some(r)
    } else {
        None
    }
}

/// Adds `kv` to `out` unless its key is already there.
fn add_attr_exec(out: &mut Attrs, kv: (String, String))
    ensures
        attrs_view(*final(out)) == add_attr(attrs_view(*old(out)), (kv.0@, kv.1@)),
{
    let ghost m = attrs_view(*out);
    let mut j: usize = 0;
    while j < out.len()
        invariant
            m == attrs_view(*out),
            j <= out@.len(),
            m.len() == out@.len(),
            forall|i: int| 0 <= i < j ==> m[i].0 != kv.0@,
        decreases out.len() - j,
    {
        if out[j].0 == kv.0 {
            assert(m[j as int].0 == kv.0@);
            return;
        }
        j = j + 1;
    }
    assert(!has_key(m, kv.0@));
    let ghost kvv = (kv.0@, kv.1@);
    out.push(kv);
    assert(attrs_view(*out) =~= m.push(kvv));
}

/// Parses `{k=v ...}` at `p`: on success, the end and the pairs in order of
/// first appearance, where the first value given for a key is the one kept.
pub fn attributes_exec(s: &Vec<char>, p: usize) -> (r: Option<(usize, Attrs)>)
    requires
        p <= s@.len(),
    ensures
        match r {
            Some((e, kvs)) => attributes(s@, p as int) == Some((e as int, attrs_view(kvs))) && p
                < e <= s@.len(),
            None => attributes(s@, p as int) is None,
        },
{
    proof {
        lemma_len_fits(s);
    }
    if !char_at_exec(s, p, '{') {
        return None;
    }
    let q = scan_exec(s, p + 1, CharClass::Space);
    let (r, kv) = match attr_pair_exec(s, q) {
        Some(x) => x,
        None => {
            return None;
        },
    };
    let ghost kvv = (kv.0@, kv.1@);
    let ghost mut list: Seq<(Seq<char>, Seq<char>)> = seq![kvv];
    let mut out: Attrs = Vec::new();
    proof {
        assert(list.drop_last() =~= Seq::<(Seq<char>, Seq<char>)>::empty());
        assert(attrs_view(out) =~= Seq::<(Seq<char>, Seq<char>)>::empty());
    }
    add_attr_exec(&mut out, kv);
    proof {
        assert(first_wins(list.drop_last()) == Seq::<(Seq<char>, Seq<char>)>::empty());
    }
    let mut i = r;
    loop
        invariant
            p < i <= s@.len(),
            attr_list(s@, i as int, list) == attr_list(s@, r as int, seq![kvv]),
            attrs_view(out) == first_wins(list),
        ensures
            p < i <= s@.len(),
            attr_list(s@, i as int, list) == (i as int, list),
            attr_list(s@, i as int, list) == attr_list(s@, r as int, seq![kvv]),
            attrs_view(out) == first_wins(list),
        decreases s@.len() - i,
    {
        let q = match attr_sep_exec(s, i) {
            Some(q) => q,
            None => {
                break;
            },
        };
        match attr_pair_exec(s, q) {
            Some((e, kv)) => {
                proof {
                    let kvv = (kv.0@, kv.1@);
                    assert(list.push(kvv).drop_last() =~= list);
                    list = list.push(kvv);
                }
                add_attr_exec(&mut out, kv);
                i = e;
            },
            None => {
                break;
            },
        }
    }
    let t = scan_exec(s, i, CharClass::Space);
    if char_at_exec(s, t, '}') {
        Some((t + 1, out))
    } else {
        None
    }
}

pub proof fn lemma_add_attr_distinct(m: AttrsModel, kv: (Seq<char>, Seq<char>))
    requires
        distinct_keys(m),
    ensures
        distinct_keys(add_attr(m, kv)),
{
    if !has_key(m, kv.0) {
        let n = m.push(kv);
        assert forall|i: int, j: int| 0 <= i < j < n.len() implies (#[trigger] n[i]).0 != (
        #[trigger] n[j]).0 by {
            if j == m.len() {
                assert(n[i] == m[i]);
            }
        }
    }
}

/// Keys of attributes are distinct.
pub proof fn lemma_first_wins_distinct(list: Seq<(Seq<char>, Seq<char>)>)
    ensures
        distinct_keys(first_wins(list)),
    decreases list.len(),
{
    if list.len() > 0 {
        lemma_first_wins_distinct(list.drop_last());
        lemma_add_attr_distinct(first_wins(list.drop_last()), list.last());
    }
}

/// Only the first value given for a key is kept: the keys of parsed
/// attributes are distinct.
pub proof fn law_attributes_distinct_keys(s: Seq<char>, p: int)
    ensures
        attributes(s, p) matches Some((_, m)) ==> distinct_keys(m),
{
    if char_at(s, p, '{') {
        let q = scan(s, p + 1, CharClass::Space);
        if let Some((r, kv)) = attr_pair(s, q) {
            let (e, list) = attr_list(s, r, seq![kv]);
            lemma_first_wins_distinct(list);
        }
    }
}

proof fn lemma_value_end_bounds(s: Seq<char>, p: int)
    requires
        0 <= p <= s.len(),
    ensures
        p <= value_end(s, p) <= s.len(),
    decreases s.len() - p,
{
    if 0 <= p && p + 1 < s.len() && s[p] == '\\' {
        lemma_value_end_bounds(s, p + 2);
    } else if 0 <= p < s.len() && in_class(CharClass::ValueChar, s[p]) {
        lemma_value_end_bounds(s, p + 1);
    }
}

proof fn lemma_attr_list_bounds(s: Seq<char>, p: int, acc: Seq<(Seq<char>, Seq<char>)>)
    requires
        0 <= p <= s.len(),
    ensures
        p <= attr_list(s, p, acc).0 <= s.len(),
    decreases s.len() - p,
{
    if let Some(q) = attr_sep(s, p) {
        if let Some((r, kv)) = attr_pair(s, q) {
            if p < r <= s.len() {
                lemma_attr_list_bounds(s, r, acc.push(kv));
            }
        }
    }
}

/// Attributes end after their start and within the input.
pub proof fn lemma_attributes_bounds(s: Seq<char>, p: int)
    requires
        0 <= p <= s.len(),
    ensures
        attributes(s, p) matches Some((e, _)) ==> p < e <= s.len(),
{
    if char_at(s, p, '{') {
        let q = scan(s, p + 1, CharClass::Space);
        lemma_scan_bounds(s, p + 1, CharClass::Space);
        lemma_scan_bounds(s, q, CharClass::KeyChar);
        if let Some((r, kv)) = attr_pair(s, q) {
            let k = scan(s, q, CharClass::KeyChar);
            lemma_value_end_bounds(s, k + 1);
            lemma_attr_list_bounds(s, r, seq![kv]);
            let e = attr_list(s, r, seq![kv]).0;
            lemma_scan_bounds(s, e, CharClass::Space);
        }
    }
}

/// A key ends after its start and within the input.
pub proof fn lemma_key_bounds(s: Seq<char>, p: int)
    requires
        0 <= p <= s.len(),
    ensures
        key(s, p) matches Some(e) ==> p < e <= s.len(),
{
    lemma_scan_bounds(s, p, CharClass::KeyChar);
}

} // verus!
