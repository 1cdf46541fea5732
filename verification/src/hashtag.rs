use vstd::prelude::*;

use crate::chars::{
    chars_of, in_class, lemma_len_fits, lemma_scan_bounds, lemma_scan_run, scan, scan_exec, string_from_chars, text, CharClass,
};
use crate::model::{lemma_spans_view_len, spans_view, AttrsModel, Span, SpanModel};

verus! {

/// A piece of an index string made from text.
#[derive(Debug, PartialEq, Eq, PartialOrd, Clone)]
pub enum HashTag {
    /// A run of content that is neither letters nor numbers, written as one `-`.
    Space,
    /// Adjacent letters (and numbers too large for an integer), concatenated.
    Str(String),
    /// A number, negative when a `-` precedes its digits.
    Num(isize),
}

pub enum HashTagModel {
    Space,
    Str(Seq<char>),
    Num(int),
}

pub open spec fn tag_view(h: HashTag) -> HashTagModel {
    match h {
        HashTag::Space => HashTagModel::Space,
        HashTag::Str(s) => HashTagModel::Str(s@),
        HashTag::Num(n) => HashTagModel::Num(n as int),
    }
}

pub open spec fn tags_view(hs: Seq<HashTag>) -> Seq<HashTagModel> {
    hs.map_values(|h: HashTag| tag_view(h))
}

pub open spec fn opt_tag_view(h: Option<HashTag>) -> Option<HashTagModel> {
    match h {
        Some(x) => Some(tag_view(x)),
        None => None,
    }
}

pub open spec fn strings_view(v: Seq<String>) -> Seq<Seq<char>> {
    v.map_values(|t: String| t@)
}

/// The lowercase form of `s`, as `str::to_lowercase` computes it.
pub uninterp spec fn lowercase(s: Seq<char>) -> Seq<char>;

/// Calls `str::to_lowercase`; its result is named `lowercase`.
#[verifier::external_body]
fn lowercase_of(s: &str) -> (r: String)
    ensures
        r@ == lowercase(s@),
{
    s.to_lowercase()
}

/// `c` with `A` to `Z` mapped to `a` to `z`.
pub open spec fn ascii_lower_char(c: char) -> char {
    if 'A' <= c && c <= 'Z' {
        ((c as int) + 32) as char
    } else {
        c
    }
}

/// `t` with ASCII capitals made small and every other character kept.
pub open spec fn ascii_lower(t: Seq<char>) -> Seq<char> {
    t.map_values(|c: char| ascii_lower_char(c))
}

/// Every character of `t` is ASCII.
pub open spec fn ascii_text(t: Seq<char>) -> bool {
    forall|j: int| 0 <= j < t.len() ==> (#[trigger] t[j] as int) < 128
}

fn ascii_lower_char_exec(c: char) -> (r: char)
    ensures
        r == ascii_lower_char(c),
{
    if 'A' <= c && c <= 'Z' {
        let b: u8 = c as u8;
        (b + 32) as char
    } else {
        c
    }
}

/// The text of `s` with ASCII capitals made small.
fn ascii_lower_exec(s: &str) -> (r: String)
    ensures
        r@ == ascii_lower(s@),
{
    let cs = chars_of(s);
    let mut out: Vec<char> = Vec::new();
    let mut i: usize = 0;
    while i < cs.len()
        invariant
            i <= cs@.len(),
            out@ == ascii_lower(cs@.take(i as int)),
        decreases cs.len() - i,
    {
        out.push(ascii_lower_char_exec(cs[i]));
        proof {
            assert(ascii_lower(cs@.take(i + 1)) =~= ascii_lower(cs@.take(i as int)).push(
                ascii_lower_char(cs@[i as int]),
            ));
        }
        i = i + 1;
    }
    proof {
        assert(cs@.take(cs@.len() as int) =~= cs@);
    }
    string_from_chars(out.as_slice())
}

/// Whether every character of `s` is ASCII.
fn ascii_exec(s: &str) -> (r: bool)
    ensures
        r == ascii_text(s@),
{
    let cs = chars_of(s);
    let mut i: usize = 0;
    while i < cs.len()
        invariant
            i <= cs@.len(),
            cs@ == s@,
            forall|j: int| 0 <= j < i ==> (#[trigger] cs@[j] as int) < 128,
        decreases cs.len() - i,
    {
        if cs[i] >= '\u{80}' {
            return false;
        }
        i = i + 1;
    }
    true
}

/// The character of a decimal digit.
pub open spec fn digit_char(d: int) -> char {
    (d + 48) as char
}

/// The decimal digits of `n`, without leading zeros.
pub open spec fn digits_text(n: nat) -> Seq<char>
    decreases n,
{
    if n < 10 {
        seq![digit_char(n as int)]
    } else {
        digits_text((n / 10) as nat).push(digit_char((n % 10) as int))
    }
}

/// The decimal text of `n`, with a leading `-` when negative.
pub open spec fn decimal_text(n: int) -> Seq<char> {
    if n < 0 {
        seq!['-'] + digits_text((-n) as nat)
    } else {
        digits_text(n as nat)
    }
}

/// The decimal text of `n`, as its `Display` implementation writes it.
fn isize_text(n: isize) -> (r: String)
    ensures
        r@ == decimal_text(n as int),
{
    let m: u128 = if n < 0 {
        (-(n as i128)) as u128
    } else {
        n as u128
    };
    let mut x: u128 = m;
    let mut acc: Vec<char> = Vec::new();
    while x >= 10
        invariant
            digits_text(m as nat) == digits_text(x as nat) + acc@,
        decreases x,
    {
        let d: u8 = (x % 10) as u8;
        let c: char = (d + 48) as char;
        proof {
            assert(c == digit_char((x % 10) as int));
            assert(digits_text(x as nat) == digits_text((x / 10) as nat).push(c));
            assert(digits_text((x / 10) as nat).push(c) + acc@ =~= digits_text((x / 10) as nat) + (
            seq![c] + acc@));
        }
        acc.insert(0, c);
        x = x / 10;
    }
    let d: u8 = x as u8;
    let c: char = (d + 48) as char;
    acc.insert(0, c);
    proof {
        assert(digits_text(x as nat) == seq![digit_char(x as int)]);
        assert(acc@ =~= digits_text(m as nat));
    }
    if n < 0 {
        acc.insert(0, '-');
        proof {
            assert(acc@ =~= seq!['-'] + digits_text((-(n as int)) as nat));
        }
    }
    string_from_chars(acc.as_slice())
}

/// The value of a digit character.
pub open spec fn digit_value(c: char) -> int {
    c as int - 48
}

/// The value of a sequence of decimal digits.
pub open spec fn digits_value(d: Seq<char>) -> int
    decreases d.len(),
{
    if d.len() == 0 {
        0
    } else {
        digits_value(d.drop_last()) * 10 + digit_value(d.last())
    }
}

/// Whether `t` is an optional `-` followed by one or more ASCII digits.
pub open spec fn is_signed_digits(t: Seq<char>) -> bool {
    let b: int = if t.len() > 0 && t[0] == '-' {
        1
    } else {
        0
    };
    t.len() > b && forall|j: int| b <= j < t.len() ==> '0' <= #[trigger] t[j] <= '9'
}

/// The value of an optional `-` followed by decimal digits.
pub open spec fn signed_value(t: Seq<char>) -> int {
    if t.len() > 0 && t[0] == '-' {
        -digits_value(t.drop_first())
    } else {
        digits_value(t)
    }
}

pub open spec fn fits_isize(v: int) -> bool {
    isize::MIN <= v <= isize::MAX
}

proof fn lemma_digits_prefix(x: Seq<char>, j: int)
    requires
        0 <= j <= x.len(),
        forall|k: int| 0 <= k < x.len() ==> is_digit(#[trigger] x[k]),
    ensures
        0 <= digits_value(x.take(j)) <= digits_value(x),
    decreases x.len() - j,
{
    let p = x.take(j);
    assert forall|k: int| 0 <= k < p.len() implies is_digit(#[trigger] p[k]) by {
        assert(p[k] == x[k]);
    }
    lemma_digits_value_bound(p);
    if j < x.len() {
        lemma_digits_prefix(x, j + 1);
        assert(x.take(j + 1).drop_last() =~= p);
        assert(is_digit(x[j]));
    } else {
        assert(p =~= x);
    }
}

/// An optional `-` and decimal digits as an `isize`: the value when it fits,
/// else nothing (as `isize::from_str_radix` in base 10 gives an overflow).
fn parse_isize(t: &str) -> (r: Option<isize>)
    requires
        is_signed_digits(t@),
    ensures
        match r {
            Some(v) => fits_isize(signed_value(t@)) && v == signed_value(t@),
            None => !fits_isize(signed_value(t@)),
        },
{
    let cs = chars_of(t);
    let neg: bool = cs[0] == '-';
    let b: usize = if neg {
        1
    } else {
        0
    };
    let ghost x = cs@.subrange(b as int, cs@.len() as int);
    proof {
        assert forall|k: int| 0 <= k < x.len() implies is_digit(#[trigger] x[k]) by {
            assert(x[k] == t@[b + k]);
        }
        assert(x.take(0) =~= Seq::<char>::empty());
    }
    let mut i: usize = b;
    let mut v: isize = 0;
    while i < cs.len()
        invariant
            cs@ == t@,
            t@.len() > 0,
            neg == (t@[0] == '-'),
            b == (if neg {
                1int
            } else {
                0int
            }),
            b <= i <= cs@.len(),
            x == cs@.subrange(b as int, cs@.len() as int),
            forall|k: int| 0 <= k < x.len() ==> is_digit(#[trigger] x[k]),
            v == (if neg {
                -digits_value(x.take(i - b))
            } else {
                digits_value(x.take(i - b))
            }),
        decreases cs.len() - i,
    {
        let c = cs[i];
        proof {
            assert(x[i - b] == c);
            assert(is_digit(x[i - b]));
        }
        let d: isize = ((c as u8) - 48) as isize;
        proof {
            assert(d == digit_value(x[i - b]));
            assert(x.take(i - b + 1).drop_last() =~= x.take(i - b));
            lemma_digits_prefix(x, i - b + 1);
            lemma_digits_prefix(x, i - b);
        }
        let m = v.checked_mul(10);
        let w = match m {
            Some(m) => if neg {
                m.checked_sub(d)
            } else {
                m.checked_add(d)
            },
            None => None,
        };
        match w {
            Some(w) => {
                v = w;
            },
            None => {
                proof {
                    assert(!fits_isize(if neg {
                        -digits_value(x.take(i - b + 1))
                    } else {
                        digits_value(x.take(i - b + 1))
                    }));
                    if neg {
                        assert(t@.drop_first() =~= x);
                    } else {
                        assert(t@ =~= x);
                    }
                }
                return None;
            },
        }
        i = i + 1;
    }
    proof {
        assert(x.take(i - b) =~= x);
        if neg {
            assert(t@.drop_first() =~= x);
        } else {
            assert(t@ =~= x);
        }
    }
    Some(v)
}

/// The tags so far and the tag being built (a string or a space).
pub type HtState = (Seq<HashTagModel>, Option<HashTagModel>);

/// Appends a finished tag; a string is appended in lowercase (its text is
/// ASCII, letters, digits and dashes, so lowering ASCII capitals is all there
/// is to it).
pub open spec fn emit(hts: Seq<HashTagModel>, ht: HashTagModel) -> Seq<HashTagModel> {
    match ht {
        HashTagModel::Str(s) => hts.push(HashTagModel::Str(ascii_lower(s))),
        _ => hts.push(ht),
    }
}

/// A number `v` that fits, with `neg` telling whether a `-` preceded its digits:
/// the pending tag is finished (a `-` after a string stands for a space), and
/// before anything else a `-` stands for a space as well.
pub open spec fn num_step(st: HtState, neg: bool, v: int) -> HtState {
    let hts = st.0;
    let hts2 = match st.1 {
        Some(x) => if x is Str && neg {
            emit(hts, x).push(HashTagModel::Space)
        } else {
            emit(hts, x)
        },
        None => if neg && hts.len() == 0 {
            hts.push(HashTagModel::Space)
        } else {
            hts
        },
    };
    (hts2.push(HashTagModel::Num(v)), None)
}

/// Text `t` joins the pending string, or starts one (after a pending space).
pub open spec fn extend_str(st: HtState, t: Seq<char>) -> HtState {
    match st.1 {
        Some(HashTagModel::Str(nas)) => (st.0, Some(HashTagModel::Str(nas + t))),
        Some(HashTagModel::Space) => (st.0.push(HashTagModel::Space), Some(HashTagModel::Str(t))),
        _ => (st.0, Some(HashTagModel::Str(t))),
    }
}

/// White space or another character: the pending string is finished and a space is pending.
pub open spec fn space_step(st: HtState) -> HtState {
    match st.1 {
        Some(HashTagModel::Str(s)) => (
            st.0.push(HashTagModel::Str(ascii_lower(s))),
            Some(HashTagModel::Space),
        ),
        Some(HashTagModel::Space) => st,
        _ => (st.0, Some(HashTagModel::Space)),
    }
}

/// Reads the text `c` from `i` into the state: numbers (an optional `-` and
/// digits), runs of letters, and anything else.
pub open spec fn ht_scan(c: Seq<char>, i: int, st: HtState) -> HtState
    decreases c.len() - i,
{
    if !(0 <= i < c.len()) {
        st
    } else {
        let ds = if c[i] == '-' {
            i + 1
        } else {
            i
        };
        let de = scan(c, ds, CharClass::Digit);
        let ae = scan(c, i, CharClass::Alpha);
        let m = scan(c, i, CharClass::MultiSpace);
        proof {
            lemma_scan_bounds(c, ds, CharClass::Digit);
            lemma_scan_bounds(c, i, CharClass::Alpha);
            lemma_scan_bounds(c, i, CharClass::MultiSpace);
        }
        if de > ds {
            let txt = if st.1 matches Some(HashTagModel::Str(_)) {
                c.subrange(ds, de)
            } else {
                c.subrange(i, de)
            };
            let v = signed_value(txt);
            let st2 = if fits_isize(v) {
                num_step(st, ds > i, v)
            } else {
                extend_str(st, c.subrange(i, de))
            };
            ht_scan(c, de, st2)
        } else if ae > i {
            ht_scan(c, ae, extend_str(st, c.subrange(i, ae)))
        } else {
            let e = if m > i {
                m
            } else {
                i + 1
            };
            ht_scan(c, e, space_step(st))
        }
    }
}

/// Reads the texts `cs` one after the other.
pub open spec fn ht_fold(cs: Seq<Seq<char>>, st: HtState) -> HtState
    decreases cs.len(),
{
    if cs.len() == 0 {
        st
    } else {
        ht_scan(cs.last(), 0, ht_fold(cs.drop_last(), st))
    }
}

/// The hash tags of the texts `cs`: a pending string is kept at the end, a
/// pending space is not.
pub open spec fn hashtags_of(cs: Seq<Seq<char>>) -> Seq<HashTagModel> {
    let (hts, ht) = ht_fold(cs, (Seq::empty(), None));
    match ht {
        Some(HashTagModel::Str(s)) => hts.push(HashTagModel::Str(ascii_lower(s))),
        _ => hts,
    }
}

fn push_tag(hts: &mut Vec<HashTag>, h: HashTag)
    ensures
        tags_view(final(hts)@) == tags_view(old(hts)@).push(tag_view(h)),
{
    hts.push(h);
    assert(tags_view(hts@) =~= tags_view(old(hts)@).push(tag_view(h)));
}

fn emit_exec(hts: &mut Vec<HashTag>, ht: HashTag)
    ensures
        tags_view(final(hts)@) == emit(tags_view(old(hts)@), tag_view(ht)),
{
    match ht {
        HashTag::Str(s) => push_tag(hts, HashTag::Str(ascii_lower_exec(s.as_str()))),
        other => push_tag(hts, other),
    }
}

fn num_step_exec(hts: &mut Vec<HashTag>, ht: Option<HashTag>, neg: bool, v: isize) -> (r: Option<
    HashTag,
>)
    ensures
        (tags_view(final(hts)@), opt_tag_view(r)) == num_step(
            (tags_view(old(hts)@), opt_tag_view(ht)),
            neg,
            v as int,
        ),
{
    match ht {
        Some(x) => {
            let is_str = if let HashTag::Str(_) = &x {
                true
            } else {
                false
            };
            emit_exec(hts, x);
            if is_str && neg {
                push_tag(hts, HashTag::Space);
            }
        },
        None => {
            if neg && hts.len() == 0 {
                push_tag(hts, HashTag::Space);
            }
        },
    }
    push_tag(hts, HashTag::Num(v));
    None
}

fn extend_exec(hts: &mut Vec<HashTag>, ht: Option<HashTag>, t: String) -> (r: Option<HashTag>)
    ensures
        (tags_view(final(hts)@), opt_tag_view(r)) == extend_str(
            (tags_view(old(hts)@), opt_tag_view(ht)),
            t@,
        ),
{
    match ht {
        Some(HashTag::Str(nas)) => Some(HashTag::Str(nas.concat(t.as_str()))),
        Some(HashTag::Space) => {
            push_tag(hts, HashTag::Space);
            Some(HashTag::Str(t))
        },
        _ => Some(HashTag::Str(t)),
    }
}

fn space_exec(hts: &mut Vec<HashTag>, ht: Option<HashTag>) -> (r: Option<HashTag>)
    ensures
        (tags_view(final(hts)@), opt_tag_view(r)) == space_step(
            (tags_view(old(hts)@), opt_tag_view(ht)),
        ),
{
    match ht {
        Some(HashTag::Str(s)) => {
            push_tag(hts, HashTag::Str(ascii_lower_exec(s.as_str())));
            Some(HashTag::Space)
        },
        _ => Some(HashTag::Space),
    }
}

/// Turns texts into hash tags, which serve to build index strings for
/// references, or for ordering and filtering: runs of letters become lowercase
/// strings, numbers become integers, and whatever lies between becomes a space.
pub fn hashtags(contents: Vec<String>) -> (r: Vec<HashTag>)
    ensures
        tags_view(r@) == hashtags_of(strings_view(contents@)),
{
    let mut hts: Vec<HashTag> = Vec::new();
    let mut ht: Option<HashTag> = None;
    let mut k: usize = 0;
    let ghost cs = strings_view(contents@);
    proof {
        assert(cs.take(0) =~= Seq::<Seq<char>>::empty());
        assert(tags_view(hts@) =~= Seq::<HashTagModel>::empty());
    }
    while k < contents.len()
        invariant
            k <= contents@.len(),
            cs == strings_view(contents@),
            ht_fold(cs.take(k as int), (Seq::empty(), None)) == (tags_view(hts@), opt_tag_view(ht)),
        decreases contents.len() - k,
    {
        let c = chars_of(contents[k].as_str());
        let ghost st0 = (tags_view(hts@), opt_tag_view(ht));
        let mut i: usize = 0;
        while i < c.len()
            invariant
                i <= c@.len(),
                ht_scan(c@, i as int, (tags_view(hts@), opt_tag_view(ht))) == ht_scan(c@, 0, st0),
            decreases c.len() - i,
        {
            proof {
                lemma_len_fits(&c);
            }
            let ds = if c[i] == '-' {
                i + 1
            } else {
                i
            };
            let de = scan_exec(&c, ds, CharClass::Digit);
            let ae = scan_exec(&c, i, CharClass::Alpha);
            let m = scan_exec(&c, i, CharClass::MultiSpace);
            if de > ds {
                let is_str = if let Some(HashTag::Str(_)) = &ht {
                    true
                } else {
                    false
                };
                let txt = if is_str {
                    text(&c, ds, de)
                } else {
                    text(&c, i, de)
                };
                proof {
                    lemma_scan_bounds(c@, ds as int, CharClass::Digit);
                    assert forall|j: int| 0 <= j < de - ds implies '0' <= #[trigger] c@.subrange(
                        ds as int,
                        de as int,
                    )[j] <= '9' by {
                        assert(c@.subrange(ds as int, de as int)[j] == c@[ds + j]);
                    }
                    assert forall|j: int| ds - i <= j < de - i implies '0' <= #[trigger] c@.subrange(
                        i as int,
                        de as int,
                    )[j] <= '9' by {
                        assert(c@.subrange(i as int, de as int)[j] == c@[i + j]);
                    }
                }
                match parse_isize(txt.as_str()) {
                    Some(v) => {
                        ht = num_step_exec(&mut hts, ht, ds > i, v);
                    },
                    None => {
                        ht = extend_exec(&mut hts, ht, text(&c, i, de));
                    },
                }
                i = de;
            } else if ae > i {
                ht = extend_exec(&mut hts, ht, text(&c, i, ae));
                i = ae;
            } else {
                let e = if m > i {
                    m
                } else {
                    i + 1
                };
                ht = space_exec(&mut hts, ht);
                i = e;
            }
        }
        proof {
            assert(cs.take(k + 1).drop_last() =~= cs.take(k as int));
        }
        k = k + 1;
    }
    proof {
        assert(cs.take(contents@.len() as int) =~= cs);
    }
    match ht {
        Some(HashTag::Str(s)) => push_tag(&mut hts, HashTag::Str(ascii_lower_exec(s.as_str()))),
        _ => {},
    }
    hts
}

/// The text that a hash tag contributes to an index string.
pub open spec fn index_piece(h: HashTagModel) -> Seq<char> {
    match h {
        HashTagModel::Space => seq!['-'],
        HashTagModel::Str(a) => if ascii_text(a) {
            ascii_lower(a)
        } else {
            lowercase(a)
        },
        HashTagModel::Num(n) => decimal_text(n),
    }
}

/// The index string of hash tags: their pieces joined.
pub open spec fn index_of(hs: Seq<HashTagModel>) -> Seq<char>
    decreases hs.len(),
{
    if hs.len() == 0 {
        Seq::empty()
    } else {
        index_of(hs.drop_last()) + index_piece(hs.last())
    }
}

/// The text of a hash tag shown on its own: `-`, the string, or the number.
pub open spec fn display_text(h: HashTagModel) -> Seq<char> {
    match h {
        HashTagModel::Space => seq!['-'],
        HashTagModel::Str(a) => a,
        HashTagModel::Num(n) => decimal_text(n),
    }
}

impl HashTag {
    /// The text of the hash tag: `-` for a space, the string, or the number.
    pub fn to_string(&self) -> (r: String)
        ensures
            r@ == display_text(tag_view(*self)),
    {
        match self {
            HashTag::Space => {
                let t = String::from_str("-");
                proof {
                    reveal_strlit("-");
                }
                t
            },
            HashTag::Str(s) => s.clone(),
            HashTag::Num(n) => isize_text(*n),
        }
    }
}

/// Joins the index pieces of hash tags: `-` for a space, a string in
/// lowercase, a number in decimal.
pub fn htindex(hts: Vec<HashTag>) -> (r: String)
    ensures
        r@ == index_of(tags_view(hts@)),
{
    let mut s = String::new();
    let mut i: usize = 0;
    proof {
        reveal_strlit("-");
        assert(tags_view(hts@).take(0) =~= Seq::<HashTagModel>::empty());
    }
    while i < hts.len()
        invariant
            i <= hts@.len(),
            s@ == index_of(tags_view(hts@).take(i as int)),
        decreases hts.len() - i,
    {
        let ghost before = tags_view(hts@).take(i as int);
        let ghost s0 = s@;
        match &hts[i] {
            HashTag::Space => {
                proof {
                    reveal_strlit("-");
                }
                s.append("-");
            },
            HashTag::Str(a) => {
                let l = if ascii_exec(a.as_str()) {
                    ascii_lower_exec(a.as_str())
                } else {
                    lowercase_of(a.as_str())
                };
                s.append(l.as_str());
            },
            HashTag::Num(n) => {
                let t = isize_text(*n);
                s.append(t.as_str());
            },
        }
        proof {
            assert(tags_view(hts@).take(i + 1).drop_last() =~= before);
            assert(tags_view(hts@).take(i + 1).last() == tag_view(hts@[i as int]));
            assert(s@ == s0 + index_piece(tag_view(hts@[i as int])));
        }
        i = i + 1;
    }
    proof {
        assert(tags_view(hts@).take(hts@.len() as int) =~= tags_view(hts@));
    }
    s
}

/// The texts that a span holds.
pub open spec fn span_contents(sp: SpanModel) -> Seq<Seq<char>>
    decreases sp,
{
    match sp {
        SpanModel::Text(t) => seq![t],
        SpanModel::Verbatim(t, _, _) => seq![t],
        SpanModel::Hash(t) => seq![t],
        SpanModel::Link(l, _, vs, _) => if vs.len() > 0 {
            contents_of(vs)
        } else {
            seq![l]
        },
        SpanModel::Strong(vs, _) => contents_of(vs),
        SpanModel::Emphasis(vs, _) => contents_of(vs),
        SpanModel::Superscript(vs, _) => contents_of(vs),
        SpanModel::Subscript(vs, _) => contents_of(vs),
        SpanModel::Highlight(vs, _) => contents_of(vs),
        SpanModel::Insert(vs, _) => contents_of(vs),
        SpanModel::Delete(vs, _) => contents_of(vs),
        SpanModel::LineBreak(t) => seq![t],
        SpanModel::NBWS(t) => seq![t],
        SpanModel::Esc(t) => seq![t],
        SpanModel::EOM => Seq::empty(),
    }
}

/// The texts that spans hold, in order.
pub open spec fn contents_of(ss: Seq<SpanModel>) -> Seq<Seq<char>>
    decreases ss,
{
    if ss.len() == 0 {
        Seq::empty()
    } else {
        contents_of(ss.drop_last()) + span_contents(ss.last())
    }
}

fn push_string(out: &mut Vec<String>, t: &String)
    ensures
        strings_view(final(out)@) == strings_view(old(out)@).push(t@),
{
    let c = t.clone();
    out.push(c);
    assert(strings_view(out@) =~= strings_view(old(out)@).push(t@));
}

fn contents_into(ss: &Vec<Span>, out: &mut Vec<String>)
    ensures
        strings_view(final(out)@) == strings_view(old(out)@) + contents_of(spans_view(ss@)),
    decreases ss,
{
    let ghost base = strings_view(out@);
    let mut i: usize = 0;
    proof {
        assert(ss@.take(0) =~= Seq::<Span>::empty());
        assert(spans_view(ss@.take(0)) =~= Seq::<SpanModel>::empty());
        assert(base + contents_of(spans_view(ss@.take(0))) =~= base);
    }
    while i < ss.len()
        invariant
            i <= ss@.len(),
            strings_view(out@) == base + contents_of(spans_view(ss@.take(i as int))),
        decreases ss.len() - i,
    {
        let ghost before = strings_view(out@);
        proof {
            vstd::std_specs::vec::axiom_vec_index_decreases(*ss, i as int);
        }
        match &ss[i] {
            Span::Text(t) | Span::Verbatim(t, _, _) | Span::Hash(t) | Span::LineBreak(t) | Span::NBWS(t)
            | Span::Esc(t) => {
                push_string(out, t);
            },
            Span::Link(l, _, vs, _) => {
                proof {
                    lemma_spans_view_len(vs@);
                }
                if vs.len() > 0 {
                    contents_into(vs, out);
                } else {
                    push_string(out, l);
                }
            },
            Span::Strong(vs, _) | Span::Emphasis(vs, _) | Span::Superscript(vs, _) | Span::Subscript(
                vs,
                _,
            ) | Span::Highlight(vs, _) | Span::Insert(vs, _) | Span::Delete(vs, _) => {
                contents_into(vs, out);
            },
            Span::EOM => {},
        }
        proof {
            let t = ss@.take(i + 1);
            assert(t.drop_last() =~= ss@.take(i as int));
            crate::model::lemma_spans_view_push(ss@.take(i as int), ss@[i as int]);
            assert(t =~= ss@.take(i as int).push(ss@[i as int]));
            let sv = spans_view(t);
            assert(sv.drop_last() =~= spans_view(ss@.take(i as int)));
            assert(contents_of(sv) == contents_of(sv.drop_last()) + span_contents(sv.last()));
            assert(strings_view(out@) =~= base + contents_of(spans_view(t)));
        }
        i = i + 1;
    }
    proof {
        assert(ss@.take(ss@.len() as int) =~= ss@);
    }
}

/// The texts held within spans, nested spans included, in order.
pub fn contents(outer: Vec<Span>) -> (r: Vec<String>)
    ensures
        strings_view(r@) == contents_of(spans_view(outer@)),
{
    let mut out: Vec<String> = Vec::new();
    proof {
        assert(strings_view(out@) =~= Seq::<Seq<char>>::empty());
    }
    contents_into(&outer, &mut out);
    proof {
        assert(Seq::<Seq<char>>::empty() + contents_of(spans_view(outer@)) =~= contents_of(
            spans_view(outer@),
        ));
    }
    out
}

/// The contents of spans one after the other are the contents of each, one
/// after the other.
pub proof fn law_contents_concat(a: Seq<SpanModel>, b: Seq<SpanModel>)
    ensures
        contents_of(a + b) == contents_of(a) + contents_of(b),
    decreases b.len(),
{
    if b.len() == 0 {
        assert(a + b =~= a);
        assert(contents_of(a) + contents_of(b) =~= contents_of(a));
    } else {
        law_contents_concat(a, b.drop_last());
        assert((a + b).drop_last() =~= a + b.drop_last());
        assert((a + b).last() == b.last());
        assert(contents_of(a + b) =~= contents_of(a) + contents_of(b));
    }
}

proof fn lemma_contents_flat_alt(ss: Seq<SpanModel>)
    ensures
        contents_of(ss) == ss.map_values(|sp: SpanModel| span_contents(sp)).flatten_alt(),
    decreases ss.len(),
{
    let m = ss.map_values(|sp: SpanModel| span_contents(sp));
    if ss.len() > 0 {
        lemma_contents_flat_alt(ss.drop_last());
        assert(m.drop_last() =~= ss.drop_last().map_values(|sp: SpanModel| span_contents(sp)));
    }
}

/// The contents of spans are the contents of each span, one after the other:
/// the texts of text, verbatim, hash, line break, non-breaking space and
/// escape spans, nothing for an end of mark, the contents of the spans nested
/// in a tag, and for a link without spans its location.
pub proof fn law_contents_flat(ss: Seq<SpanModel>)
    ensures
        contents_of(ss) == ss.map_values(|sp: SpanModel| span_contents(sp)).flatten(),
{
    lemma_contents_flat_alt(ss);
    ss.map_values(|sp: SpanModel| span_contents(sp)).lemma_flatten_and_flatten_alt_are_equivalent();
}

proof fn lemma_digits_roundtrip(n: nat)
    ensures
        digits_value(digits_text(n)) == n,
        digits_text(n).len() > 0,
        forall|j: int| 0 <= j < digits_text(n).len() ==> is_digit(#[trigger] digits_text(n)[j]),
    decreases n,
{
    lemma_digits_text(n);
    let c = digit_char((n % 10) as int);
    assert((((n % 10) as int) + 48) as char as int == ((n % 10) as int) + 48);
    if n >= 10 {
        lemma_digits_roundtrip((n / 10) as nat);
        let t = digits_text(n);
        assert(t.drop_last() =~= digits_text((n / 10) as nat));
        assert(t.last() == c);
        assert(digit_value(c) == n % 10);
        assert(digits_value(t) == digits_value(t.drop_last()) * 10 + digit_value(t.last()));
        assert((n / 10) * 10 + n % 10 == n);
    } else {
        let t = digits_text(n);
        assert(t.drop_last() =~= Seq::<char>::empty());
        assert((n as int + 48) as char as int == n as int + 48);
        assert(t.last() == digit_char(n as int));
        assert(digit_value(t.last()) == n);
        assert(digits_value(t) == digits_value(t.drop_last()) * 10 + digit_value(t.last()));
    }
}

/// The decimal text of a number is a sign and digits that read back as the
/// number: formatting and parsing undo each other.
pub proof fn law_decimal_roundtrip(n: int)
    ensures
        is_signed_digits(decimal_text(n)),
        signed_value(decimal_text(n)) == n,
{
    let m: nat = if n < 0 {
        (-n) as nat
    } else {
        n as nat
    };
    lemma_digits_roundtrip(m);
    let t = decimal_text(n);
    let d = digits_text(m);
    if n < 0 {
        assert(t.drop_first() =~= d);
        assert forall|j: int| 1 <= j < t.len() implies '0' <= #[trigger] t[j] <= '9' by {
            assert(t[j] == d[j - 1]);
            assert(is_digit(d[j - 1]));
        }
    } else {
        assert(t[0] == d[0]);
        assert(is_digit(d[0]));
        assert forall|j: int| 0 <= j < t.len() implies '0' <= #[trigger] t[j] <= '9' by {
            assert(is_digit(d[j]));
        }
    }
}

proof fn lemma_contents_one(sp: SpanModel)
    ensures
        contents_of(seq![sp]) == span_contents(sp),
{
    let ss = seq![sp];
    assert(ss.drop_last() =~= Seq::<SpanModel>::empty());
    assert(ss.last() == sp);
    assert(contents_of(ss.drop_last()) == Seq::<Seq<char>>::empty());
    assert(contents_of(ss) == contents_of(ss.drop_last()) + span_contents(ss.last()));
    assert(Seq::<Seq<char>>::empty() + span_contents(sp) =~= span_contents(sp));
}

/// What one span holds: a tag span (strong, emphasis, superscript,
/// subscript, highlight, insert, delete) holds exactly the contents of the
/// spans nested in it, whatever its attributes; a link holds the contents of
/// its spans, or its location when it has none; text, verbatim, hash, line
/// break, non-breaking space and escape spans hold their one text; an end of
/// mark holds nothing.
pub proof fn law_contents_of_span(vs: Seq<SpanModel>, a: Option<AttrsModel>, t: Seq<char>, f: Option<
    Seq<char>,
>, embed: bool)
    ensures
        contents_of(seq![SpanModel::Strong(vs, a)]) == contents_of(vs),
        contents_of(seq![SpanModel::Emphasis(vs, a)]) == contents_of(vs),
        contents_of(seq![SpanModel::Superscript(vs, a)]) == contents_of(vs),
        contents_of(seq![SpanModel::Subscript(vs, a)]) == contents_of(vs),
        contents_of(seq![SpanModel::Highlight(vs, a)]) == contents_of(vs),
        contents_of(seq![SpanModel::Insert(vs, a)]) == contents_of(vs),
        contents_of(seq![SpanModel::Delete(vs, a)]) == contents_of(vs),
        contents_of(seq![SpanModel::Link(t, embed, vs, a)]) == if vs.len() > 0 {
            contents_of(vs)
        } else {
            seq![t]
        },
        contents_of(seq![SpanModel::Text(t)]) == seq![t],
        contents_of(seq![SpanModel::Verbatim(t, f, a)]) == seq![t],
        contents_of(seq![SpanModel::Hash(t)]) == seq![t],
        contents_of(seq![SpanModel::LineBreak(t)]) == seq![t],
        contents_of(seq![SpanModel::NBWS(t)]) == seq![t],
        contents_of(seq![SpanModel::Esc(t)]) == seq![t],
        contents_of(seq![SpanModel::EOM]) == Seq::<Seq<char>>::empty(),
{
    lemma_contents_one(SpanModel::Strong(vs, a));
    lemma_contents_one(SpanModel::Emphasis(vs, a));
    lemma_contents_one(SpanModel::Superscript(vs, a));
    lemma_contents_one(SpanModel::Subscript(vs, a));
    lemma_contents_one(SpanModel::Highlight(vs, a));
    lemma_contents_one(SpanModel::Insert(vs, a));
    lemma_contents_one(SpanModel::Delete(vs, a));
    lemma_contents_one(SpanModel::Link(t, embed, vs, a));
    lemma_contents_one(SpanModel::Text(t));
    lemma_contents_one(SpanModel::Verbatim(t, f, a));
    lemma_contents_one(SpanModel::Hash(t));
    lemma_contents_one(SpanModel::LineBreak(t));
    lemma_contents_one(SpanModel::NBWS(t));
    lemma_contents_one(SpanModel::Esc(t));
    lemma_contents_one(SpanModel::EOM);
}

/// The index string of hash tags one after the other is their index strings
/// one after the other.
pub proof fn law_index_concat(a: Seq<HashTagModel>, b: Seq<HashTagModel>)
    ensures
        index_of(a + b) == index_of(a) + index_of(b),
    decreases b.len(),
{
    if b.len() == 0 {
        assert(a + b =~= a);
        assert(index_of(a) + index_of(b) =~= index_of(a));
    } else {
        law_index_concat(a, b.drop_last());
        assert((a + b).drop_last() =~= a + b.drop_last());
        assert((a + b).last() == b.last());
        assert(index_of(a + b) =~= index_of(a) + index_of(b));
    }
}

/// Two hash tags that may stand next to each other: not two spaces and not two strings.
pub open spec fn compatible(a: HashTagModel, b: HashTagModel) -> bool {
    !(a is Space && b is Space) && !(a is Str && b is Str)
}

/// No two spaces and no two strings stand next to each other.
pub open spec fn no_repeats(hs: Seq<HashTagModel>) -> bool {
    forall|i: int, j: int|
        #![trigger hs[i], hs[j]]
        0 <= i && j == i + 1 && j < hs.len() ==> compatible(hs[i], hs[j])
}

/// An ASCII digit.
pub open spec fn is_digit(c: char) -> bool {
    '0' <= c && c <= '9'
}

/// An ASCII capital.
pub open spec fn is_capital(c: char) -> bool {
    'A' <= c && c <= 'Z'
}

/// At `j`, `t` holds an ASCII letter or digit, or a dash that a digit follows.
pub open spec fn tag_char_at(t: Seq<char>, j: int) -> bool {
    ||| ('a' <= t[j] && t[j] <= 'z')
    ||| is_capital(t[j])
    ||| is_digit(t[j])
    ||| (t[j] == '-' && j + 1 < t.len() && is_digit(t[j + 1]))
}

/// The text of a string tag: not empty, ASCII letters, digits, and dashes
/// each followed by a digit (a dash comes in only with a number too large
/// for an integer).
pub open spec fn tag_text(t: Seq<char>) -> bool {
    t.len() > 0 && forall|j: int| 0 <= j < t.len() ==> #[trigger] tag_char_at(t, j)
}

/// A tag text without capitals.
pub open spec fn lower_tag_text(t: Seq<char>) -> bool {
    tag_text(t) && forall|j: int| 0 <= j < t.len() ==> !is_capital(#[trigger] t[j])
}

/// A tag that is a string holds a lowercase tag text.
pub open spec fn lower_tag(h: HashTagModel) -> bool {
    h matches HashTagModel::Str(t) ==> lower_tag_text(t)
}

/// Every string among the tags holds a lowercase tag text.
pub open spec fn all_lower_tags(hs: Seq<HashTagModel>) -> bool {
    forall|j: int| 0 <= j < hs.len() ==> lower_tag(#[trigger] hs[j])
}

/// What holds of the tags so far and the pending tag between two steps.
pub open spec fn ht_inv(st: HtState) -> bool {
    let hts = st.0;
    &&& no_repeats(hts)
    &&& all_lower_tags(hts)
    &&& match st.1 {
        Some(HashTagModel::Space) => hts.len() == 0 || !(hts.last() is Space),
        Some(HashTagModel::Str(p)) => tag_text(p) && (hts.len() == 0 || !(hts.last() is Str)),
        Some(HashTagModel::Num(_)) => false,
        None => hts.len() == 0 || hts.last() is Num,
    }
}

proof fn lemma_tag_text_concat(a: Seq<char>, b: Seq<char>)
    requires
        tag_text(a),
        tag_text(b),
    ensures
        tag_text(a + b),
{
    let c = a + b;
    assert forall|j: int| 0 <= j < c.len() implies #[trigger] tag_char_at(c, j) by {
        if j < a.len() {
            assert(tag_char_at(a, j));
            assert(c[j] == a[j]);
            if j + 1 < a.len() {
                assert(c[j + 1] == a[j + 1]);
            }
        } else {
            assert(tag_char_at(b, j - a.len()));
            assert(c[j] == b[j - a.len()]);
            if j + 1 < c.len() {
                assert(c[j + 1] == b[j + 1 - a.len()]);
            }
        }
    }
}

proof fn lemma_ascii_lower_tag(t: Seq<char>)
    requires
        tag_text(t),
    ensures
        lower_tag_text(ascii_lower(t)),
        ascii_text(ascii_lower(t)),
        ascii_lower(ascii_lower(t)) == ascii_lower(t),
{
    let l = ascii_lower(t);
    assert forall|j: int| 0 <= j < l.len() implies #[trigger] tag_char_at(l, j) && !is_capital(l[j])
        && (l[j] as int) < 128 && ascii_lower_char(l[j]) == l[j] by {
        assert(tag_char_at(t, j));
        assert(l[j] == ascii_lower_char(t[j]));
        if is_capital(t[j]) {
            assert(((t[j] as int) + 32) as char as int == (t[j] as int) + 32);
        }
        if j + 1 < t.len() {
            assert(l[j + 1] == ascii_lower_char(t[j + 1]));
        }
    }
    assert forall|j: int| 0 <= j < l.len() implies (#[trigger] l[j] as int) < 128 by {
        assert(tag_char_at(l, j));
    }
    assert(ascii_lower(l) =~= l);
}

proof fn lemma_lower_tag_fixed(t: Seq<char>)
    requires
        lower_tag_text(t),
    ensures
        ascii_text(t),
        ascii_lower(t) == t,
{
    assert forall|j: int| 0 <= j < t.len() implies (#[trigger] t[j] as int) < 128 by {
        assert(tag_char_at(t, j));
    }
    assert forall|j: int| 0 <= j < t.len() implies #[trigger] ascii_lower(t)[j] == t[j] by {
        assert(!is_capital(t[j]));
    }
    assert(ascii_lower(t) =~= t);
}

proof fn lemma_token_tag_text(c: Seq<char>, i: int, e: int)
    requires
        0 <= i < e <= c.len(),
        (forall|j: int| i <= j < e ==> in_class(CharClass::Alpha, #[trigger] c[j])) || (forall|
            j: int,
        | (if c[i] == '-' { i + 1 } else { i }) <= j < e ==> in_class(CharClass::Digit, #[trigger] c[j]))
            && (c[i] == '-' ==> i + 1 < e),
    ensures
        tag_text(c.subrange(i, e)),
{
    let t = c.subrange(i, e);
    assert forall|j: int| 0 <= j < t.len() implies #[trigger] tag_char_at(t, j) by {
        assert(t[j] == c[i + j]);
        if j + 1 < t.len() {
            assert(t[j + 1] == c[i + j + 1]);
        }
    }
}

proof fn lemma_push_compatible(hs: Seq<HashTagModel>, x: HashTagModel)
    requires
        no_repeats(hs),
        all_lower_tags(hs),
        hs.len() == 0 || compatible(hs.last(), x),
        lower_tag(x),
    ensures
        no_repeats(hs.push(x)),
        all_lower_tags(hs.push(x)),
{
    assert forall|j: int| 0 <= j < hs.push(x).len() implies lower_tag(#[trigger] hs.push(x)[j]) by {
        if j < hs.len() {
            assert(hs.push(x)[j] == hs[j]);
        }
    }
    let n = hs.push(x);
    assert forall|i: int, j: int| 0 <= i && j == i + 1 && j < n.len() implies compatible(
        #[trigger] n[i],
        #[trigger] n[j],
    ) by {
        if j < hs.len() {
            assert(n[i] == hs[i] && n[j] == hs[j]);
        } else {
            assert(n[i] == hs.last());
        }
    }
}

proof fn lemma_steps_keep_inv(st: HtState, neg: bool, v: int, t: Seq<char>)
    requires
        ht_inv(st),
        tag_text(t),
    ensures
        ht_inv(num_step(st, neg, v)),
        ht_inv(extend_str(st, t)),
        ht_inv(space_step(st)),
{
    let hts = st.0;
    match st.1 {
        Some(HashTagModel::Str(s)) => {
            lemma_ascii_lower_tag(s);
            let h1 = hts.push(HashTagModel::Str(ascii_lower(s)));
            lemma_tag_text_concat(s, t);
            lemma_push_compatible(hts, HashTagModel::Str(ascii_lower(s)));
            lemma_push_compatible(h1, HashTagModel::Space);
            let h2 = h1.push(HashTagModel::Space);
            lemma_push_compatible(h2, HashTagModel::Num(v));
            lemma_push_compatible(h1, HashTagModel::Num(v));
        },
        Some(HashTagModel::Space) => {
            let h1 = hts.push(HashTagModel::Space);
            lemma_push_compatible(hts, HashTagModel::Space);
            lemma_push_compatible(h1, HashTagModel::Num(v));
        },
        _ => {
            let h1 = hts.push(HashTagModel::Space);
            lemma_push_compatible(hts, HashTagModel::Space);
            lemma_push_compatible(h1, HashTagModel::Num(v));
            lemma_push_compatible(hts, HashTagModel::Num(v));
        },
    }
}

proof fn lemma_ht_scan_inv(c: Seq<char>, i: int, st: HtState)
    requires
        ht_inv(st),
    ensures
        ht_inv(ht_scan(c, i, st)),
    decreases c.len() - i,
{
    if 0 <= i < c.len() {
        let ds = if c[i] == '-' {
            i + 1
        } else {
            i
        };
        let de = scan(c, ds, CharClass::Digit);
        let ae = scan(c, i, CharClass::Alpha);
        let m = scan(c, i, CharClass::MultiSpace);
        lemma_scan_bounds(c, ds, CharClass::Digit);
        lemma_scan_bounds(c, i, CharClass::Alpha);
        lemma_scan_bounds(c, i, CharClass::MultiSpace);
        if de > ds {
            let txt = if st.1 matches Some(HashTagModel::Str(_)) {
                c.subrange(ds, de)
            } else {
                c.subrange(i, de)
            };
            let v = signed_value(txt);
            lemma_token_tag_text(c, i, de);
            lemma_steps_keep_inv(st, ds > i, v, c.subrange(i, de));
            let st2 = if fits_isize(v) {
                num_step(st, ds > i, v)
            } else {
                extend_str(st, c.subrange(i, de))
            };
            lemma_ht_scan_inv(c, de, st2);
        } else if ae > i {
            lemma_token_tag_text(c, i, ae);
            lemma_steps_keep_inv(st, false, 0, c.subrange(i, ae));
            lemma_ht_scan_inv(c, ae, extend_str(st, c.subrange(i, ae)));
        } else {
            let e = if m > i {
                m
            } else {
                i + 1
            };
            assert(tag_char_at(seq!['a'], 0));
            lemma_steps_keep_inv(st, false, 0, seq!['a']);
            lemma_ht_scan_inv(c, e, space_step(st));
        }
    }
}

proof fn lemma_ht_fold_inv(cs: Seq<Seq<char>>, st: HtState)
    requires
        ht_inv(st),
    ensures
        ht_inv(ht_fold(cs, st)),
    decreases cs.len(),
{
    if cs.len() > 0 {
        lemma_ht_fold_inv(cs.drop_last(), st);
        lemma_ht_scan_inv(cs.last(), 0, ht_fold(cs.drop_last(), st));
    }
}

/// Adjacent non-alphanumeric content becomes a single space, adjacent letters
/// a single lowercase string, and a trailing space is dropped: in the hash
/// tags of any texts no two spaces and no two strings are adjacent, the last
/// tag is not a space, and every string is non-empty, its own lowercase, and
/// made of lowercase ASCII letters, digits, and dashes each followed by a
/// digit (digits and dashes come in only with numbers too large for an
/// integer).
pub proof fn law_hashtags_shape(cs: Seq<Seq<char>>)
    ensures
        no_repeats(hashtags_of(cs)),
        all_lower_tags(hashtags_of(cs)),
        hashtags_of(cs).len() > 0 ==> !(hashtags_of(cs).last() is Space),
        forall|j: int|
            0 <= j < hashtags_of(cs).len() ==> (#[trigger] hashtags_of(cs)[j] matches HashTagModel::Str(
                t,
            ) ==> ascii_lower(t) == t),
{
    let st0: HtState = (Seq::empty(), None);
    assert(no_repeats(st0.0));
    lemma_ht_fold_inv(cs, st0);
    let (hts, ht) = ht_fold(cs, st0);
    if let Some(HashTagModel::Str(s)) = ht {
        lemma_ascii_lower_tag(s);
        lemma_push_compatible(hts, HashTagModel::Str(ascii_lower(s)));
    }
    let hs = hashtags_of(cs);
    assert forall|j: int| 0 <= j < hs.len() implies (#[trigger] hs[j] matches HashTagModel::Str(t)
        ==> ascii_lower(t) == t) by {
        assert(lower_tag(hs[j]));
        if let HashTagModel::Str(t) = hs[j] {
            lemma_lower_tag_fixed(t);
        }
    }
}

proof fn lemma_scan_shift(a: Seq<char>, b: Seq<char>, q: int, k: CharClass)
    requires
        a.len() <= q <= a.len() + b.len(),
    ensures
        scan(a + b, q, k) == a.len() + scan(b, q - a.len(), k),
    decreases a.len() + b.len() - q,
{
    if q < a.len() + b.len() {
        assert((a + b)[q] == b[q - a.len()]);
        lemma_scan_shift(a, b, q + 1, k);
    }
}

proof fn lemma_scan_concat(a: Seq<char>, b: Seq<char>, p: int, k: CharClass)
    requires
        0 <= p <= a.len(),
    ensures
        scan(a + b, p, k) == if scan(a, p, k) < a.len() {
            scan(a, p, k)
        } else {
            a.len() + scan(b, 0, k)
        },
    decreases a.len() - p,
{
    if p == a.len() {
        lemma_scan_shift(a, b, p, k);
    } else {
        assert((a + b)[p] == a[p]);
        lemma_scan_concat(a, b, p + 1, k);
    }
}

proof fn lemma_ht_scan_shift(a: Seq<char>, b: Seq<char>, k: int, st: HtState)
    requires
        0 <= k <= b.len(),
    ensures
        ht_scan(a + b, a.len() + k, st) == ht_scan(b, k, st),
    decreases b.len() - k,
{
    let c = a + b;
    let n = a.len() as int;
    let q = n + k;
    if k < b.len() {
        assert(c[q] == b[k]);
        let dsb = if b[k] == '-' {
            k + 1
        } else {
            k
        };
        lemma_scan_shift(a, b, n + dsb, CharClass::Digit);
        lemma_scan_shift(a, b, q, CharClass::Alpha);
        lemma_scan_shift(a, b, q, CharClass::MultiSpace);
        lemma_scan_bounds(b, dsb, CharClass::Digit);
        lemma_scan_bounds(b, k, CharClass::Alpha);
        lemma_scan_bounds(b, k, CharClass::MultiSpace);
        let deb = scan(b, dsb, CharClass::Digit);
        let aeb = scan(b, k, CharClass::Alpha);
        let mb = scan(b, k, CharClass::MultiSpace);
        assert(c.subrange(n + dsb, n + deb) =~= b.subrange(dsb, deb));
        assert(c.subrange(q, n + deb) =~= b.subrange(k, deb));
        assert(c.subrange(q, n + aeb) =~= b.subrange(k, aeb));
        if deb > dsb {
            let txt = if st.1 matches Some(HashTagModel::Str(_)) {
                b.subrange(dsb, deb)
            } else {
                b.subrange(k, deb)
            };
            let v = signed_value(txt);
            let st2 = if fits_isize(v) {
                num_step(st, dsb > k, v)
            } else {
                extend_str(st, b.subrange(k, deb))
            };
            lemma_ht_scan_shift(a, b, deb, st2);
        } else if aeb > k {
            lemma_ht_scan_shift(a, b, aeb, extend_str(st, b.subrange(k, aeb)));
        } else {
            let e = if mb > k {
                mb
            } else {
                k + 1
            };
            lemma_ht_scan_shift(a, b, e, space_step(st));
        }
    }
}

proof fn lemma_extend_assoc(st: HtState, x: Seq<char>, y: Seq<char>)
    requires
        x.len() > 0,
    ensures
        extend_str(extend_str(st, x), y) == extend_str(st, x + y),
{
    if let Some(HashTagModel::Str(nas)) = st.1 {
        assert(nas + x + y =~= nas + (x + y));
    }
}

/// Splitting text between `a` and `b` keeps every number whole: `b` does not
/// start with a digit right after a digit or a dash that ends `a`.
pub open spec fn split_keeps_numbers(a: Seq<char>, b: Seq<char>) -> bool {
    !(b.len() > 0 && is_digit(b[0]) && a.len() > 0 && (is_digit(a.last()) || a.last() == '-'))
}

proof fn lemma_ht_scan_split(a: Seq<char>, b: Seq<char>, i: int, st: HtState)
    requires
        0 <= i <= a.len(),
        split_keeps_numbers(a, b),
    ensures
        ht_scan(a + b, i, st) == ht_scan(b, 0, ht_scan(a, i, st)),
    decreases a.len() - i,
{
    let c = a + b;
    let n = a.len() as int;
    if i == n {
        lemma_ht_scan_shift(a, b, 0, st);
    } else {
        assert(c[i] == a[i]);
        let ds = if a[i] == '-' {
            i + 1
        } else {
            i
        };
        lemma_scan_concat(a, b, ds, CharClass::Digit);
        lemma_scan_concat(a, b, i, CharClass::Alpha);
        lemma_scan_concat(a, b, i, CharClass::MultiSpace);
        lemma_scan_bounds(a, ds, CharClass::Digit);
        lemma_scan_bounds(a, i, CharClass::Alpha);
        lemma_scan_bounds(a, i, CharClass::MultiSpace);
        let de = scan(a, ds, CharClass::Digit);
        let ae = scan(a, i, CharClass::Alpha);
        let m = scan(a, i, CharClass::MultiSpace);
        if de == n {
            if b.len() > 0 && is_digit(b[0]) {
                if de > ds {
                    assert(in_class(CharClass::Digit, a[n - 1]));
                } else {
                    assert(a.last() == '-');
                }
                assert(false);
            }
            assert(scan(b, 0, CharClass::Digit) == 0);
        }
        assert(scan(c, ds, CharClass::Digit) == de);
        if de > ds {
            assert(c.subrange(ds, de) =~= a.subrange(ds, de));
            assert(c.subrange(i, de) =~= a.subrange(i, de));
            let txt = if st.1 matches Some(HashTagModel::Str(_)) {
                a.subrange(ds, de)
            } else {
                a.subrange(i, de)
            };
            let v = signed_value(txt);
            let st2 = if fits_isize(v) {
                num_step(st, ds > i, v)
            } else {
                extend_str(st, a.subrange(i, de))
            };
            lemma_ht_scan_split(a, b, de, st2);
        } else if ae > i {
            if ae < n {
                assert(c.subrange(i, ae) =~= a.subrange(i, ae));
                lemma_ht_scan_split(a, b, ae, extend_str(st, a.subrange(i, ae)));
            } else {
                let k = scan(b, 0, CharClass::Alpha);
                lemma_scan_bounds(b, 0, CharClass::Alpha);
                let s1 = extend_str(st, a.subrange(i, n));
                lemma_ht_scan_split(a, b, n, s1);
                if k == 0 {
                    assert(c.subrange(i, n) =~= a.subrange(i, n));
                    lemma_ht_scan_shift(a, b, 0, s1);
                } else {
                    assert(in_class(CharClass::Alpha, b[0]));
                    assert(scan(b, 0, CharClass::Digit) == 0);
                    assert(c.subrange(i, n + k) =~= a.subrange(i, n) + b.subrange(0, k));
                    lemma_extend_assoc(st, a.subrange(i, n), b.subrange(0, k));
                    lemma_ht_scan_shift(a, b, k, extend_str(s1, b.subrange(0, k)));
                }
            }
        } else {
            let e = if m > i {
                m
            } else {
                i + 1
            };
            if e < n || m == i {
                lemma_ht_scan_split(a, b, e, space_step(st));
            } else {
                let k = scan(b, 0, CharClass::MultiSpace);
                lemma_scan_bounds(b, 0, CharClass::MultiSpace);
                let s1 = space_step(st);
                lemma_ht_scan_split(a, b, n, s1);
                if k == 0 {
                    lemma_ht_scan_shift(a, b, 0, s1);
                } else {
                    assert(in_class(CharClass::MultiSpace, b[0]));
                    assert(scan(b, 0, CharClass::Digit) == 0);
                    assert(scan(b, 0, CharClass::Alpha) == 0);
                    assert(space_step(s1) == s1);
                    lemma_ht_scan_shift(a, b, k, s1);
                }
            }
        }
    }
}

/// Texts are read as one stream: after any texts `pre`, reading `a` and then
/// `b` gives the same hash tags as reading `a` and `b` joined, unless the
/// split falls inside a number.
pub proof fn law_hashtags_split(pre: Seq<Seq<char>>, a: Seq<char>, b: Seq<char>)
    requires
        split_keeps_numbers(a, b),
    ensures
        hashtags_of(pre.push(a).push(b)) == hashtags_of(pre.push(a + b)),
{
    let st0: HtState = (Seq::empty(), None);
    assert(pre.push(a).push(b).drop_last() == pre.push(a));
    assert(pre.push(a).drop_last() == pre);
    assert(pre.push(a + b).drop_last() == pre);
    let f = ht_fold(pre, st0);
    lemma_ht_scan_split(a, b, 0, f);
    assert(ht_fold(pre.push(a), st0) == ht_scan(a, 0, f));
    assert(ht_fold(pre.push(a).push(b), st0) == ht_scan(b, 0, ht_scan(a, 0, f)));
    assert(ht_fold(pre.push(a + b), st0) == ht_scan(a + b, 0, f));
}

/// Ten to the power `n`.
pub open spec fn pow10(n: nat) -> nat
    decreases n,
{
    if n == 0 {
        1
    } else {
        10 * pow10((n - 1) as nat)
    }
}

proof fn lemma_digits_value_bound(d: Seq<char>)
    requires
        forall|j: int| 0 <= j < d.len() ==> is_digit(#[trigger] d[j]),
    ensures
        0 <= digits_value(d) < pow10(d.len()),
    decreases d.len(),
{
    if d.len() > 0 {
        let p = d.drop_last();
        assert forall|j: int| 0 <= j < p.len() implies is_digit(#[trigger] p[j]) by {
            assert(p[j] == d[j]);
        }
        lemma_digits_value_bound(p);
        assert(is_digit(d[d.len() - 1]));
        let x = digits_value(p);
        let y = digit_value(d.last());
        let q = pow10(p.len());
        assert(x * 10 + y < 10 * q) by (nonlinear_arith)
            requires
                0 <= x < q,
                0 <= y < 10,
        ;
    }
}

proof fn lemma_pow10_mono(a: nat, b: nat)
    requires
        a <= b,
    ensures
        pow10(a) <= pow10(b),
    decreases b,
{
    if a < b {
        lemma_pow10_mono(a, (b - 1) as nat);
    }
}

/// Every character of `t` is an ASCII letter.
pub open spec fn letters(t: Seq<char>) -> bool {
    forall|j: int| 0 <= j < t.len() ==> in_class(CharClass::Alpha, #[trigger] t[j])
}

/// Every string among the tags holds letters only.
pub open spec fn all_letter_tags(hs: Seq<HashTagModel>) -> bool {
    forall|j: int| 0 <= j < hs.len() ==> (#[trigger] hs[j] matches HashTagModel::Str(t) ==> letters(t))
}

/// The strings of a state, finished or pending, hold letters only.
pub open spec fn ht_letters(st: HtState) -> bool {
    all_letter_tags(st.0) && (st.1 matches Some(HashTagModel::Str(p)) ==> letters(p))
}

/// No run of digits in `c` is longer than `n`.
pub open spec fn short_numbers(c: Seq<char>, n: nat) -> bool {
    forall|j: int| 0 <= j < c.len() ==> #[trigger] scan(c, j, CharClass::Digit) - j <= n
}

proof fn lemma_letters_lower(t: Seq<char>)
    requires
        letters(t),
    ensures
        letters(ascii_lower(t)),
{
    let l = ascii_lower(t);
    assert forall|j: int| 0 <= j < l.len() implies in_class(CharClass::Alpha, #[trigger] l[j]) by {
        assert(l[j] == ascii_lower_char(t[j]));
        assert(in_class(CharClass::Alpha, t[j]));
        if is_capital(t[j]) {
            assert(((t[j] as int) + 32) as char as int == (t[j] as int) + 32);
        }
    }
}

proof fn lemma_push_letter_tag(hs: Seq<HashTagModel>, x: HashTagModel)
    requires
        all_letter_tags(hs),
        x matches HashTagModel::Str(t) ==> letters(t),
    ensures
        all_letter_tags(hs.push(x)),
{
    assert forall|j: int| 0 <= j < hs.push(x).len() implies (#[trigger] hs.push(x)[j] matches HashTagModel::Str(
        t,
    ) ==> letters(t)) by {
        if j < hs.len() {
            assert(hs.push(x)[j] == hs[j]);
        }
    }
}

proof fn lemma_emit_letters(st: HtState)
    requires
        ht_letters(st),
    ensures
        st.1 matches Some(x) ==> all_letter_tags(emit(st.0, x)),
        all_letter_tags(space_step(st).0),
        all_letter_tags(st.0.push(HashTagModel::Space)),
{
    lemma_push_letter_tag(st.0, HashTagModel::Space);
    if let Some(x) = st.1 {
        if let HashTagModel::Str(t) = x {
            lemma_letters_lower(t);
            lemma_push_letter_tag(st.0, HashTagModel::Str(ascii_lower(t)));
        } else {
            lemma_push_letter_tag(st.0, x);
        }
    }
}

proof fn lemma_ht_scan_letters(c: Seq<char>, n: nat, i: int, st: HtState)
    requires
        ht_letters(st),
        short_numbers(c, n),
        pow10(n) <= isize::MAX + 1,
    ensures
        ht_letters(ht_scan(c, i, st)),
    decreases c.len() - i,
{
    if 0 <= i < c.len() {
        let ds = if c[i] == '-' {
            i + 1
        } else {
            i
        };
        let de = scan(c, ds, CharClass::Digit);
        let ae = scan(c, i, CharClass::Alpha);
        let m = scan(c, i, CharClass::MultiSpace);
        lemma_scan_bounds(c, ds, CharClass::Digit);
        lemma_scan_bounds(c, i, CharClass::Alpha);
        lemma_scan_bounds(c, i, CharClass::MultiSpace);
        lemma_emit_letters(st);
        if de > ds {
            assert(de - ds <= n);
            let d = c.subrange(ds, de);
            assert forall|j: int| 0 <= j < d.len() implies is_digit(#[trigger] d[j]) by {
                assert(d[j] == c[ds + j]);
            }
            lemma_digits_value_bound(d);
            lemma_pow10_mono(d.len(), n);
            assert(d[0] != '-');
            if ds > i {
                assert(c.subrange(i, de).drop_first() =~= d);
                assert(c.subrange(i, de)[0] == '-');
            }
            let txt = if st.1 matches Some(HashTagModel::Str(_)) {
                d
            } else {
                c.subrange(i, de)
            };
            let v = signed_value(txt);
            assert(fits_isize(v));
            let st2 = num_step(st, ds > i, v);
            if st.1 is Some {
                lemma_push_letter_tag(emit(st.0, st.1->0), HashTagModel::Space);
                lemma_push_letter_tag(
                    emit(st.0, st.1->0).push(HashTagModel::Space),
                    HashTagModel::Num(v),
                );
                lemma_push_letter_tag(emit(st.0, st.1->0), HashTagModel::Num(v));
            } else {
                lemma_push_letter_tag(st.0.push(HashTagModel::Space), HashTagModel::Num(v));
                lemma_push_letter_tag(st.0, HashTagModel::Num(v));
            }
            lemma_ht_scan_letters(c, n, de, st2);
        } else if ae > i {
            let t = c.subrange(i, ae);
            assert forall|j: int| 0 <= j < t.len() implies in_class(CharClass::Alpha, #[trigger] t[j]) by {
                assert(t[j] == c[i + j]);
            }
            if let Some(HashTagModel::Str(nas)) = st.1 {
                assert forall|j: int| 0 <= j < (nas + t).len() implies in_class(
                    CharClass::Alpha,
                    #[trigger] (nas + t)[j],
                ) by {
                    if j < nas.len() {
                        assert((nas + t)[j] == nas[j]);
                    } else {
                        assert((nas + t)[j] == t[j - nas.len()]);
                    }
                }
            }
            lemma_ht_scan_letters(c, n, ae, extend_str(st, t));
        } else {
            let e = if m > i {
                m
            } else {
                i + 1
            };
            lemma_ht_scan_letters(c, n, e, space_step(st));
        }
    }
}

proof fn lemma_ht_fold_letters(cs: Seq<Seq<char>>, n: nat, st: HtState)
    requires
        ht_letters(st),
        forall|k: int| 0 <= k < cs.len() ==> short_numbers(#[trigger] cs[k], n),
        pow10(n) <= isize::MAX + 1,
    ensures
        ht_letters(ht_fold(cs, st)),
    decreases cs.len(),
{
    if cs.len() > 0 {
        let p = cs.drop_last();
        assert forall|k: int| 0 <= k < p.len() implies short_numbers(#[trigger] p[k], n) by {
            assert(p[k] == cs[k]);
        }
        lemma_ht_fold_letters(p, n, st);
        assert(short_numbers(cs[cs.len() - 1], n));
        lemma_ht_scan_letters(cs.last(), n, 0, ht_fold(p, st));
    }
}

/// When no number in the texts is longer than `n` digits, and every number
/// of `n` digits fits an integer, every string among their hash tags holds
/// only `a` to `z`.
pub proof fn law_hashtags_letters(cs: Seq<Seq<char>>, n: nat)
    requires
        forall|k: int| 0 <= k < cs.len() ==> short_numbers(#[trigger] cs[k], n),
        pow10(n) <= isize::MAX + 1,
    ensures
        forall|j: int|
            0 <= j < hashtags_of(cs).len() ==> (#[trigger] hashtags_of(cs)[j] matches HashTagModel::Str(
                t,
            ) ==> forall|x: int| 0 <= x < t.len() ==> 'a' <= #[trigger] t[x] <= 'z'),
{
    let st0: HtState = (Seq::empty(), None);
    lemma_ht_fold_letters(cs, n, st0);
    let (hts, ht) = ht_fold(cs, st0);
    lemma_emit_letters(ht_fold(cs, st0));
    if let Some(HashTagModel::Str(s)) = ht {
        lemma_letters_lower(s);
        lemma_push_letter_tag(hts, HashTagModel::Str(ascii_lower(s)));
    }
    law_hashtags_shape(cs);
    let hs = hashtags_of(cs);
    assert forall|j: int| 0 <= j < hs.len() implies (#[trigger] hs[j] matches HashTagModel::Str(t)
        ==> forall|x: int| 0 <= x < t.len() ==> 'a' <= #[trigger] t[x] <= 'z') by {
        assert(lower_tag(hs[j]));
        if let HashTagModel::Str(t) = hs[j] {
            assert forall|x: int| 0 <= x < t.len() implies 'a' <= #[trigger] t[x] <= 'z' by {
                assert(!is_capital(t[x]));
                assert(in_class(CharClass::Alpha, t[x]));
            }
        }
    }
}

/// Where `isize` has 64 bits, numbers of up to eighteen digits fit it: when
/// no number in the texts is longer, every string among their hash tags
/// holds only `a` to `z`. (Nine digits fit on every target.)
pub proof fn law_hashtags_letters_18(cs: Seq<Seq<char>>)
    requires
        isize::MAX == 0x7fff_ffff_ffff_ffff,
        forall|k: int| 0 <= k < cs.len() ==> short_numbers(#[trigger] cs[k], 18),
    ensures
        forall|j: int|
            0 <= j < hashtags_of(cs).len() ==> (#[trigger] hashtags_of(cs)[j] matches HashTagModel::Str(
                t,
            ) ==> forall|x: int| 0 <= x < t.len() ==> 'a' <= #[trigger] t[x] <= 'z'),
{
    assert(pow10(18) == 1_000_000_000_000_000_000) by {
        reveal_with_fuel(pow10, 19);
    }
    law_hashtags_letters(cs, 18);
}

proof fn lemma_ht_fold_one(c: Seq<char>)
    ensures
        ht_fold(seq![c], (Seq::empty(), None)) == ht_scan(c, 0, (Seq::empty(), None)),
{
    let st0: HtState = (Seq::empty(), None);
    let cs = seq![c];
    assert(cs.drop_last() =~= Seq::<Seq<char>>::empty());
    assert(cs.last() == c);
    assert(ht_fold(cs.drop_last(), st0) == st0);
    assert(ht_fold(cs, st0) == ht_scan(c, 0, st0));
}

/// Letters followed by a number (its digits fitting an integer) give the
/// letters in lowercase as a string and then the number, with nothing between
/// them; a dash between the letters and the digits stands for a space, so the
/// number stays positive and a space tag comes between.
pub proof fn law_letters_then_number(l: Seq<char>, d: Seq<char>, dash: bool)
    requires
        l.len() > 0,
        letters(l),
        d.len() > 0,
        forall|j: int| 0 <= j < d.len() ==> is_digit(#[trigger] d[j]),
        digits_value(d) <= isize::MAX,
    ensures
        ({
            let m: Seq<char> = if dash {
                seq!['-']
            } else {
                Seq::empty()
            };
            hashtags_of(seq![l + m + d]) == if dash {
                seq![
                    HashTagModel::Str(ascii_lower(l)),
                    HashTagModel::Space,
                    HashTagModel::Num(digits_value(d)),
                ]
            } else {
                seq![HashTagModel::Str(ascii_lower(l)), HashTagModel::Num(digits_value(d))]
            }
        }),
{
    let m: Seq<char> = if dash {
        seq!['-']
    } else {
        Seq::empty()
    };
    let c = l + m + d;
    let n = l.len() as int;
    let ds = n + m.len();
    let st0: HtState = (Seq::empty(), None);
    lemma_ht_fold_one(c);
    // the letters
    assert forall|j: int| 0 <= j < n implies in_class(CharClass::Alpha, #[trigger] c[j]) by {
        assert(c[j] == l[j]);
    }
    assert(!in_class(CharClass::Alpha, c[n])) by {
        if dash {
            assert(c[n] == '-');
        } else {
            assert(c[n] == d[0]);
            assert(is_digit(d[0]));
        }
    }
    lemma_scan_run(c, 0, n, CharClass::Alpha);
    assert(c[0] == l[0]);
    assert(in_class(CharClass::Alpha, l[0]));
    assert(scan(c, 0, CharClass::Digit) == 0);
    assert(c.subrange(0, n) =~= l);
    let st1: HtState = (Seq::empty(), Some(HashTagModel::Str(l)));
    assert(ht_scan(c, 0, st0) == ht_scan(c, n, st1));
    // the number
    assert forall|j: int| ds <= j < c.len() implies in_class(CharClass::Digit, #[trigger] c[j]) by {
        assert(c[j] == d[j - ds]);
        assert(is_digit(d[j - ds]));
    }
    lemma_scan_run(c, ds, c.len() as int, CharClass::Digit);
    assert(c.subrange(ds, c.len() as int) =~= d);
    assert(c[n] == if dash { '-' } else { d[0] });
    assert(is_digit(d[0]));
    assert(d[0] != '-');
    lemma_digits_value_bound(d);
    assert(signed_value(d) == digits_value(d));
    assert(fits_isize(digits_value(d)));
    let st2 = num_step(st1, dash, digits_value(d));
    assert(ht_scan(c, n, st1) == ht_scan(c, c.len() as int, st2));
    assert(ht_scan(c, c.len() as int, st2) == st2);
}

/// A character that separates words in hash tags: neither an ASCII letter,
/// nor a digit, nor a dash.
pub open spec fn separator(c: char) -> bool {
    !in_class(CharClass::Alpha, c) && !is_digit(c) && c != '-'
}

proof fn lemma_scan_separators(c: Seq<char>, i: int, k: int, st: HtState)
    requires
        0 <= i < k <= c.len(),
        forall|j: int| i <= j < k ==> separator(#[trigger] c[j]),
        k < c.len() ==> !separator(c[k]),
    ensures
        ht_scan(c, i, st) == ht_scan(c, k, space_step(st)),
    decreases k - i,
{
    assert(separator(c[i]));
    assert(scan(c, i, CharClass::Digit) == i);
    assert(scan(c, i, CharClass::Alpha) == i);
    lemma_scan_bounds(c, i, CharClass::MultiSpace);
    let m = scan(c, i, CharClass::MultiSpace);
    assert(m <= k) by {
        if m > k {
            assert(in_class(CharClass::MultiSpace, c[k]));
        }
    }
    let e = if m > i {
        m
    } else {
        i + 1
    };
    if e < k {
        lemma_scan_separators(c, e, k, space_step(st));
        assert(space_step(space_step(st)) == space_step(st));
    }
}

proof fn lemma_scan_letters(c: Seq<char>, i: int, k: int, st: HtState)
    requires
        0 <= i < k <= c.len(),
        forall|j: int| i <= j < k ==> in_class(CharClass::Alpha, #[trigger] c[j]),
        k < c.len() ==> !in_class(CharClass::Alpha, c[k]),
    ensures
        ht_scan(c, i, st) == ht_scan(c, k, extend_str(st, c.subrange(i, k))),
{
    assert(in_class(CharClass::Alpha, c[i]));
    assert(scan(c, i, CharClass::Digit) == i);
    lemma_scan_run(c, i, k, CharClass::Alpha);
}

/// Two words with only separators (white space or other characters that are
/// no letter, digit or dash) between them give the first word in lowercase,
/// one space, and the second word in lowercase.
pub proof fn law_words_and_separators(a: Seq<char>, sep: Seq<char>, b: Seq<char>)
    requires
        a.len() > 0,
        letters(a),
        sep.len() > 0,
        forall|j: int| 0 <= j < sep.len() ==> separator(#[trigger] sep[j]),
        b.len() > 0,
        letters(b),
    ensures
        hashtags_of(seq![a + sep + b]) == seq![
            HashTagModel::Str(ascii_lower(a)),
            HashTagModel::Space,
            HashTagModel::Str(ascii_lower(b)),
        ],
{
    let c = a + sep + b;
    let n1 = a.len() as int;
    let n2 = n1 + sep.len();
    let st0: HtState = (Seq::empty(), None);
    lemma_ht_fold_one(c);
    assert forall|j: int| 0 <= j < n1 implies in_class(CharClass::Alpha, #[trigger] c[j]) by {
        assert(c[j] == a[j]);
    }
    assert forall|j: int| n1 <= j < n2 implies separator(#[trigger] c[j]) by {
        assert(c[j] == sep[j - n1]);
    }
    assert forall|j: int| n2 <= j < c.len() implies in_class(CharClass::Alpha, #[trigger] c[j]) by {
        assert(c[j] == b[j - n2]);
    }
    assert(c[n1] == sep[0]);
    assert(separator(c[n1]));
    assert(c[n2] == b[0]);
    assert(in_class(CharClass::Alpha, c[n2]));
    assert(!separator(c[n2]));
    lemma_scan_letters(c, 0, n1, st0);
    assert(c.subrange(0, n1) =~= a);
    let st1 = extend_str(st0, a);
    lemma_scan_separators(c, n1, n2, st1);
    let st2 = space_step(st1);
    lemma_scan_letters(c, n2, c.len() as int, st2);
    assert(c.subrange(n2, c.len() as int) =~= b);
    let st3 = extend_str(st2, b);
    assert(ht_scan(c, c.len() as int, st3) == st3);
}

/// A dash and digits that open the texts (their value fitting an integer)
/// give a space and then the negative number.
pub proof fn law_leading_negative(d: Seq<char>)
    requires
        d.len() > 0,
        forall|j: int| 0 <= j < d.len() ==> is_digit(#[trigger] d[j]),
        digits_value(d) <= isize::MAX,
    ensures
        hashtags_of(seq![seq!['-'] + d]) == seq![HashTagModel::Space, HashTagModel::Num(-digits_value(d))],
{
    let c = seq!['-'] + d;
    let st0: HtState = (Seq::empty(), None);
    lemma_ht_fold_one(c);
    assert forall|j: int| 1 <= j < c.len() implies in_class(CharClass::Digit, #[trigger] c[j]) by {
        assert(c[j] == d[j - 1]);
        assert(is_digit(d[j - 1]));
    }
    lemma_scan_run(c, 1, c.len() as int, CharClass::Digit);
    assert(c.subrange(0, c.len() as int) =~= c);
    assert(c.drop_first() =~= d);
    lemma_digits_value_bound(d);
    let st1 = num_step(st0, true, -digits_value(d));
    assert(ht_scan(c, c.len() as int, st1) == st1);
}

/// The index piece of each tag: a space is one dash, a number its decimal
/// text (which reads back as the number), an ASCII string the string with
/// capitals made small.
pub proof fn law_index_pieces(n: int, a: Seq<char>)
    ensures
        index_of(seq![HashTagModel::Space]) == seq!['-'],
        is_signed_digits(index_of(seq![HashTagModel::Num(n)])),
        signed_value(index_of(seq![HashTagModel::Num(n)])) == n,
        ascii_text(a) ==> index_of(seq![HashTagModel::Str(a)]).len() == a.len() && forall|j: int|
            0 <= j < a.len() ==> #[trigger] index_of(seq![HashTagModel::Str(a)])[j] == if 'A' <= a[j]
                <= 'Z' {
                ((a[j] as int) + 32) as char
            } else {
                a[j]
            },
{
    let hs = seq![HashTagModel::Space];
    let hn = seq![HashTagModel::Num(n)];
    let ha = seq![HashTagModel::Str(a)];
    assert(hs.drop_last() =~= Seq::<HashTagModel>::empty());
    assert(hn.drop_last() =~= Seq::<HashTagModel>::empty());
    assert(ha.drop_last() =~= Seq::<HashTagModel>::empty());
    assert(index_of(Seq::<HashTagModel>::empty()) == Seq::<char>::empty());
    assert(hs.last() == HashTagModel::Space);
    assert(hn.last() == HashTagModel::Num(n));
    assert(ha.last() == HashTagModel::Str(a));
    assert(index_of(hs) == index_of(hs.drop_last()) + index_piece(hs.last()));
    assert(index_of(hn) == index_of(hn.drop_last()) + index_piece(hn.last()));
    assert(index_of(ha) == index_of(ha.drop_last()) + index_piece(ha.last()));
    assert(index_of(hs) =~= seq!['-']);
    assert(index_of(hn) =~= decimal_text(n));
    assert(index_of(ha) =~= index_piece(HashTagModel::Str(a)));
    law_decimal_roundtrip(n);
}

/// The text of a tag shown on its own: a space is one dash, a string itself,
/// and a number a decimal text that reads back as the number.
pub proof fn law_display_text(n: int, a: Seq<char>)
    ensures
        display_text(HashTagModel::Space) == seq!['-'],
        display_text(HashTagModel::Str(a)) == a,
        is_signed_digits(display_text(HashTagModel::Num(n))),
        signed_value(display_text(HashTagModel::Num(n))) == n,
{
    law_decimal_roundtrip(n);
}

/// Two dashes stand next to each other at `k`.
pub open spec fn double_dash_at(x: Seq<char>, k: int) -> bool {
    0 <= k && k + 1 < x.len() && x[k] == '-' && x[k + 1] == '-'
}

/// Wherever two dashes stand next to each other, a digit follows them.
pub open spec fn dashes_before_digits(x: Seq<char>) -> bool {
    forall|k: int| #[trigger] double_dash_at(x, k) ==> k + 2 < x.len() && is_digit(x[k + 2])
}

/// A piece of an index that is no space: not empty, and each of its dashes
/// followed by a digit.
pub open spec fn piece_ok(p: Seq<char>) -> bool {
    p.len() > 0 && forall|j: int| 0 <= j < p.len() && #[trigger] p[j] == '-' ==> j + 1 < p.len()
        && is_digit(p[j + 1])
}

proof fn lemma_digits_text(n: nat)
    ensures
        digits_text(n).len() > 0,
        forall|j: int| 0 <= j < digits_text(n).len() ==> is_digit(#[trigger] digits_text(n)[j]),
    decreases n,
{
    if n >= 10 {
        lemma_digits_text((n / 10) as nat);
    }
    let d = digits_text(n);
    let c = digit_char((n % 10) as int);
    assert((((n % 10) as int) + 48) as char as int == ((n % 10) as int) + 48);
    assert(is_digit(c));
    if n < 10 {
        assert((n as int + 48) as char as int == n as int + 48);
    } else {
        assert forall|j: int| 0 <= j < d.len() implies is_digit(#[trigger] d[j]) by {
            if j < d.len() - 1 {
                assert(d[j] == digits_text((n / 10) as nat)[j]);
            }
        }
    }
}

proof fn lemma_decimal_piece(n: int)
    ensures
        piece_ok(decimal_text(n)),
{
    let d = if n < 0 {
        digits_text((-n) as nat)
    } else {
        digits_text(n as nat)
    };
    if n < 0 {
        lemma_digits_text((-n) as nat);
    } else {
        lemma_digits_text(n as nat);
    }
    let x = decimal_text(n);
    assert forall|j: int| 0 <= j < x.len() && #[trigger] x[j] == '-' implies j + 1 < x.len()
        && is_digit(x[j + 1]) by {
        if n < 0 {
            if j > 0 {
                assert(x[j] == d[j - 1]);
            }
            assert(x[1] == d[0]);
        } else {
            assert(x[j] == d[j]);
        }
    }
}

proof fn lemma_dashes_append(x: Seq<char>, p: Seq<char>)
    requires
        dashes_before_digits(x),
        piece_ok(p),
    ensures
        dashes_before_digits(x + p),
        (x + p).last() != '-',
{
    let y = x + p;
    assert forall|k: int| #[trigger] double_dash_at(y, k) implies k + 2 < y.len() && is_digit(
        y[k + 2],
    ) by {
        if k + 1 < x.len() {
            assert(y[k] == x[k] && y[k + 1] == x[k + 1]);
            assert(double_dash_at(x, k));
            assert(y[k + 2] == if k + 2 < x.len() { x[k + 2] } else { p[0] });
        } else if k + 1 == x.len() {
            assert(y[k + 1] == p[0]);
            assert(y[k + 2] == p[1]);
        } else {
            let j = k - x.len();
            assert(y[k] == p[j]);
            assert(y[k + 1] == p[j + 1]);
        }
    }
    let l = p.len() - 1;
    assert(y.last() == p[l]);
}

proof fn lemma_dashes_space(x: Seq<char>)
    requires
        dashes_before_digits(x),
        x.len() == 0 || x.last() != '-',
    ensures
        dashes_before_digits(x + seq!['-']),
{
    let y = x + seq!['-'];
    assert forall|k: int| #[trigger] double_dash_at(y, k) implies k + 2 < y.len() && is_digit(
        y[k + 2],
    ) by {
        assert(y[k] == x[k] && y[k + 1] == x[k + 1]);
        assert(double_dash_at(x, k));
    }
}

proof fn lemma_index_dashes(hs: Seq<HashTagModel>)
    requires
        no_repeats(hs),
        all_lower_tags(hs),
    ensures
        dashes_before_digits(index_of(hs)),
        index_of(hs).len() > 0 && index_of(hs).last() == '-' ==> hs.last() is Space,
    decreases hs.len(),
{
    if hs.len() > 0 {
        let pre = hs.drop_last();
        let h = hs.last();
        assert forall|i: int, j: int| 0 <= i && j == i + 1 && j < pre.len() implies compatible(
            #[trigger] pre[i],
            #[trigger] pre[j],
        ) by {
            assert(pre[i] == hs[i] && pre[j] == hs[j]);
        }
        assert forall|j: int| 0 <= j < pre.len() implies lower_tag(#[trigger] pre[j]) by {
            assert(pre[j] == hs[j]);
        }
        lemma_index_dashes(pre);
        let x = index_of(pre);
        assert(lower_tag(hs[hs.len() - 1]));
        match h {
            HashTagModel::Space => {
                if pre.len() > 0 {
                    assert(compatible(hs[hs.len() - 2], hs[hs.len() - 1]));
                }
                lemma_dashes_space(x);
            },
            HashTagModel::Num(n) => {
                lemma_decimal_piece(n);
                lemma_dashes_append(x, decimal_text(n));
            },
            HashTagModel::Str(t) => {
                lemma_lower_tag_fixed(t);
                assert(piece_ok(t)) by {
                    assert forall|j: int| 0 <= j < t.len() && #[trigger] t[j] == '-' implies j + 1
                        < t.len() && is_digit(t[j + 1]) by {
                        assert(tag_char_at(t, j));
                    }
                }
                lemma_dashes_append(x, t);
            },
        }
    }
}

/// Two dashes stand next to each other in the index string of hash tags only
/// where a space comes before a negative number (or before a number too large
/// for an integer that a dash precedes): a digit always follows them.
pub proof fn law_index_dashes(cs: Seq<Seq<char>>)
    ensures
        dashes_before_digits(index_of(hashtags_of(cs))),
{
    law_hashtags_shape(cs);
    lemma_index_dashes(hashtags_of(cs));
}

} // verus!
