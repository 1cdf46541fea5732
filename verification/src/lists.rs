use vstd::prelude::*;

use crate::attrs::{attributes, attributes_exec};
use crate::chars::{lemma_len_fits, line_ending, line_ending_exec, scan, scan_exec, CharClass};
use crate::index::{chars_between, lemma_list_tag_bounds, list_tag, list_tag_exec, same_chars};
use crate::model::{
    attrs_view, index_view, item_view, items_view, lemma_items_view_push, opt_attrs_view,
    Attrs, AttrsModel, Block, BlockModel, Index, IndexModel, ListItem, ListItemModel,
};
use crate::spans::{lemma_spans_bounds, spans, spans_exec};

verus! {

/// The loop of `list_block` at `i`: parses an item with index `idx`, then goes
/// on while the next list tag has the same depth.
pub open spec fn list_block_loop(
    s: Seq<char>,
    i: int,
    depth: Seq<char>,
    idx: IndexModel,
    lis: Seq<ListItemModel>,
    attrs: Option<AttrsModel>,
) -> (int, BlockModel)
    decreases s.len() - i, 2int,
{
    let (i2, li) = list_item(s, i, depth, idx);
    let lis2 = lis.push(li);
    match list_tag(s, i2) {
        Some((i3, d, index)) => if d != depth {
            (i2, BlockModel::List(lis2, attrs))
        } else if i < i3 <= s.len() {
            list_block_loop(s, i3, depth, index, lis2, attrs)
        } else {
            (i2, BlockModel::List(lis2, attrs))
        },
        None => (i2, BlockModel::List(lis2, attrs)),
    }
}

/// A list whose items sit at indentation `depth`, the first with index `index`.
pub open spec fn list_block(
    s: Seq<char>,
    p: int,
    depth: Seq<char>,
    index: IndexModel,
    attrs: Option<AttrsModel>,
) -> (int, BlockModel)
    decreases s.len() - p, 3int,
{
    list_block_loop(s, p, depth, index, Seq::empty(), attrs)
}

/// Attributes on a line of their own before a nested list: a line ending,
/// indentation, attributes and a line ending; gives the end, the indentation
/// and the attributes.
pub open spec fn depth_attrs(s: Seq<char>, p: int) -> Option<(int, Seq<char>, AttrsModel)> {
    match line_ending(s, p) {
        Some(q) => {
            let r = scan(s, q, CharClass::Space);
            match attributes(s, r) {
                Some((t, ah)) => match line_ending(s, t) {
                    Some(u) => Some((u, s.subrange(q, r), ah)),
                    None => None,
                },
                None => None,
            }
        },
        None => None,
    }
}

/// A list nested deeper than `depth`, possibly preceded by its attributes
/// (whose indentation must match the list's); nothing is consumed when there is none.
pub open spec fn nested_list_block(s: Seq<char>, p: int, depth: Seq<char>) -> (int, Option<BlockModel>)
    decreases s.len() - p, 0int,
{
    let da = depth_attrs(s, p);
    let i = match da {
        Some((u, _, _)) => u,
        None => p,
    };
    match list_tag(s, i) {
        Some((j, d, index)) => {
            let attrs_fit = match da {
                Some((_, ad, _)) => ad.len() == d.len(),
                None => true,
            };
            let attrs = match da {
                Some((_, _, ah)) => Some(ah),
                None => None,
            };
            if attrs_fit && d.len() > depth.len() && p < j <= s.len() {
                let (e, b) = list_block(s, j, d, index, attrs);
                (e, Some(b))
            } else {
                (p, None)
            }
        },
        None => (p, None),
    }
}

/// A list item: spans up to a new item, then a nested list if there is one.
pub open spec fn list_item(s: Seq<char>, p: int, depth: Seq<char>, index: IndexModel) -> (
    int,
    ListItemModel,
)
    decreases s.len() - p, 1int,
{
    let (q, ss) = spans(s, p, None, Some(true));
    if p <= q <= s.len() {
        let (r, sub) = nested_list_block(s, q, depth);
        (r, ListItemModel { index, spans: ss, sub })
    } else {
        (q, ListItemModel { index, spans: ss, sub: None })
    }
}

/// Parses a list whose items sit at indentation `depth`, from the item after
/// its first index `index`.
pub fn list_block_exec(
    s: &Vec<char>,
    p: usize,
    depth: &Vec<char>,
    index: Index,
    attrs: Option<Attrs>,
) -> (r: (usize, Block))
    requires
        p <= s@.len(),
    ensures
        list_block(s@, p as int, depth@, index_view(index), opt_attrs_view(attrs)) == (
            r.0 as int,
            crate::model::block_view(r.1),
        ),
        p <= r.0 <= s@.len(),
    decreases s@.len() - p, 3int,
{
    let ghost am = opt_attrs_view(attrs);
    let mut lis: Vec<ListItem> = Vec::new();
    let mut i = p;
    let mut idx = index;
    proof {
        assert(items_view(lis@) =~= Seq::<ListItemModel>::empty());
    }
    loop
        invariant
            p <= i <= s@.len(),
            am == opt_attrs_view(attrs),
            list_block_loop(s@, i as int, depth@, index_view(idx), items_view(lis@), am)
                == list_block(s@, p as int, depth@, index_view(index), am),
        decreases s@.len() - i,
    {
        let (i2, li) = list_item_exec(s, i, depth, idx);
        proof {
            lemma_items_view_push(lis@, li);
        }
        lis.push(li);
        match list_tag_exec(s, i2) {
            Some((i3, d, index)) => {
                if !same_chars(&d, depth) {
                    return (i2, Block::List(lis, attrs));
                }
                idx = index;
                i = i3;
            },
            None => {
                return (i2, Block::List(lis, attrs));
            },
        }
    }
}

fn depth_attrs_exec(s: &Vec<char>, p: usize) -> (r: Option<(usize, Vec<char>, Attrs)>)
    requires
        p <= s@.len(),
    ensures
        match r {
            Some((u, ad, ah)) => depth_attrs(s@, p as int) == Some((u as int, ad@, attrs_view(ah)))
                && p < u <= s@.len(),
            None => depth_attrs(s@, p as int) is None,
        },
{
    match line_ending_exec(s, p) {
        Some(q) => {
            let r = scan_exec(s, q, CharClass::Space);
            match attributes_exec(s, r) {
                Some((t, ah)) => match line_ending_exec(s, t) {
                    Some(u) => Some((u, chars_between(s, q, r), ah)),
                    None => None,
                },
                None => None,
            }
        },
        None => None,
    }
}

fn nested_list_block_exec(s: &Vec<char>, p: usize, depth: &Vec<char>) -> (r: (usize, Option<Block>))
    requires
        p <= s@.len(),
    ensures
        nested_list_block(s@, p as int, depth@) == (r.0 as int, match r.1 {
            Some(b) => Some(crate::model::block_view(b)),
            None => None,
        }),
        p <= r.0 <= s@.len(),
    decreases s@.len() - p, 0int,
{
    proof {
        lemma_len_fits(s);
    }
    let da = depth_attrs_exec(s, p);
    let i = match &da {
        Some((u, _, _)) => *u,
        None => p,
    };
    match list_tag_exec(s, i) {
        Some((j, d, index)) => {
            let attrs_fit = match &da {
                Some((_, ad, _)) => ad.len() == d.len(),
                None => true,
            };
            if attrs_fit && d.len() > depth.len() {
                let attrs = match da {
                    Some((_, _, ah)) => Some(ah),
                    None => None,
                };
                let (e, b) = list_block_exec(s, j, &d, index, attrs);
                (e, Some(b))
            } else {
                (p, None)
            }
        },
        None => (p, None),
    }
}

fn list_item_exec(s: &Vec<char>, p: usize, depth: &Vec<char>, index: Index) -> (r: (usize, ListItem))
    requires
        p <= s@.len(),
    ensures
        list_item(s@, p as int, depth@, index_view(index)) == (r.0 as int, item_view(r.1)),
        p <= r.0 <= s@.len(),
    decreases s@.len() - p, 1int,
{
    let (q, ss) = spans_exec(s, p, &None, Some(true));
    let (r, sub) = nested_list_block_exec(s, q, depth);
    (r, ListItem(index, ss, sub))
}

proof fn lemma_list_block_loop_is_list(
    s: Seq<char>,
    i: int,
    depth: Seq<char>,
    idx: IndexModel,
    lis: Seq<ListItemModel>,
    attrs: Option<AttrsModel>,
)
    ensures
        list_block_loop(s, i, depth, idx, lis, attrs).1 is List,
    decreases s.len() - i,
{
    let (i2, li) = list_item(s, i, depth, idx);
    let lis2 = lis.push(li);
    if let Some((i3, d, index)) = list_tag(s, i2) {
        if d == depth && i < i3 <= s.len() {
            lemma_list_block_loop_is_list(s, i3, depth, index, lis2, attrs);
        }
    }
}

/// A list block is a list.
pub proof fn lemma_list_block_is_list(
    s: Seq<char>,
    p: int,
    depth: Seq<char>,
    index: IndexModel,
    attrs: Option<AttrsModel>,
)
    ensures
        list_block(s, p, depth, index, attrs).1 is List,
{
    lemma_list_block_loop_is_list(s, p, depth, index, Seq::empty(), attrs);
}

proof fn lemma_list_block_loop_bounds(
    s: Seq<char>,
    i: int,
    depth: Seq<char>,
    idx: IndexModel,
    lis: Seq<ListItemModel>,
    attrs: Option<AttrsModel>,
)
    requires
        0 <= i <= s.len(),
    ensures
        i <= list_block_loop(s, i, depth, idx, lis, attrs).0 <= s.len(),
    decreases s.len() - i, 2int,
{
    lemma_list_item_bounds(s, i, depth, idx);
    let (i2, li) = list_item(s, i, depth, idx);
    let lis2 = lis.push(li);
    lemma_list_tag_bounds(s, i2);
    if let Some((i3, d, index)) = list_tag(s, i2) {
        if d == depth {
            lemma_list_block_loop_bounds(s, i3, depth, index, lis2, attrs);
        }
    }
}

/// A list block ends within the input, not before its start.
pub proof fn lemma_list_block_bounds(
    s: Seq<char>,
    p: int,
    depth: Seq<char>,
    index: IndexModel,
    attrs: Option<AttrsModel>,
)
    requires
        0 <= p <= s.len(),
    ensures
        p <= list_block(s, p, depth, index, attrs).0 <= s.len(),
    decreases s.len() - p, 3int,
{
    lemma_list_block_loop_bounds(s, p, depth, index, Seq::empty(), attrs);
}

proof fn lemma_depth_attrs_bounds(s: Seq<char>, p: int)
    requires
        0 <= p <= s.len(),
    ensures
        depth_attrs(s, p) matches Some((u, _, _)) ==> p < u <= s.len(),
{
    if let Some(q) = line_ending(s, p) {
        crate::chars::lemma_scan_bounds(s, q, CharClass::Space);
        let r = scan(s, q, CharClass::Space);
        crate::attrs::lemma_attributes_bounds(s, r);
    }
}

proof fn lemma_nested_list_block_bounds(s: Seq<char>, p: int, depth: Seq<char>)
    requires
        0 <= p <= s.len(),
    ensures
        p <= nested_list_block(s, p, depth).0 <= s.len(),
    decreases s.len() - p, 0int,
{
    lemma_depth_attrs_bounds(s, p);
    let da = depth_attrs(s, p);
    let i = match da {
        Some((u, _, _)) => u,
        None => p,
    };
    lemma_list_tag_bounds(s, i);
    if let Some((j, d, index)) = list_tag(s, i) {
        let attrs = match da {
            Some((_, _, ah)) => Some(ah),
            None => None,
        };
        lemma_list_block_bounds(s, j, d, index, attrs);
    }
}

proof fn lemma_list_item_bounds(s: Seq<char>, p: int, depth: Seq<char>, index: IndexModel)
    requires
        0 <= p <= s.len(),
    ensures
        p <= list_item(s, p, depth, index).0 <= s.len(),
    decreases s.len() - p, 1int,
{
    lemma_spans_bounds(s, p, None, Some(true));
    let q = spans(s, p, None, Some(true)).0;
    lemma_nested_list_block_bounds(s, q, depth);
}

} // verus!
