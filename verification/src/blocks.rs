use vstd::prelude::*;

use crate::attrs::{
    attributes, attributes_exec, key, key_exec, lemma_attributes_bounds, lemma_key_bounds,
};
use crate::chars::{
    char_at, char_at_exec, chars_of, in_class, lemma_len_fits, lemma_scan_bounds, lemma_scan_run,
    lemma_skip_line_endings,
    line_ending, line_ending_exec, scan,
    scan_exec, skip_line_endings, skip_line_endings_exec, text, CharClass,
};
use crate::index::{lemma_list_tag_bounds, list_tag, list_tag_exec};
use crate::lists::{lemma_list_block_bounds, lemma_list_block_is_list, list_block, list_block_exec};
use crate::model::{
    block_view, blocks_view, lemma_blocks_view_push, opt_attrs_view, Attrs, AttrsModel, Block,
    BlockModel, HLevel, HLevelModel,
};
use crate::spans::{
    eom, lemma_quiet_spans, lemma_spans_bounds, lemma_spans_progress, quiet_char, quiet_run, spans,
    spans_exec,
};
use crate::model::{IndexModel, ListItemModel, SpanModel};

verus! {

/// `::: name`: three colons, spaces, and the div's name.
pub open spec fn div_start(s: Seq<char>, p: int) -> Option<(int, Seq<char>)> {
    if char_at(s, p, ':') && char_at(s, p + 1, ':') && char_at(s, p + 2, ':') {
        let q = scan(s, p + 3, CharClass::Space);
        let f = scan(s, q, CharClass::FieldChar);
        if q > p + 3 && f > q {
            Some((f, s.subrange(q, f)))
        } else {
            None
        }
    } else {
        None
    }
}

/// `:::` followed by a line ending or the end of input.
pub open spec fn div_close(s: Seq<char>, p: int) -> Option<int> {
    if char_at(s, p, ':') && char_at(s, p + 1, ':') && char_at(s, p + 2, ':') {
        if p + 3 == s.len() {
            Some(p + 3)
        } else {
            line_ending(s, p + 3)
        }
    } else {
        None
    }
}

/// One to six `#` followed by spaces: the end and the level.
pub open spec fn head_start(s: Seq<char>, p: int) -> Option<(int, int)> {
    let h = scan(s, p, CharClass::HashSign);
    let n = if h - p > 6 {
        6
    } else {
        h - p
    };
    let r = scan(s, p + n, CharClass::Space);
    if n >= 1 && r > p + n {
        Some((r, n))
    } else {
        None
    }
}

/// The heading level of a count of `#`.
pub open spec fn level_model(n: int) -> HLevelModel {
    if n == 1 {
        HLevelModel::H1
    } else if n == 2 {
        HLevelModel::H2
    } else if n == 3 {
        HLevelModel::H3
    } else if n == 4 {
        HLevelModel::H4
    } else if n == 5 {
        HLevelModel::H5
    } else {
        HLevelModel::H6
    }
}

/// The closing fence of a code block at `i`: a line ending, exactly `n`
/// backticks, then a line ending or the end of input.
pub open spec fn code_close(s: Seq<char>, i: int, n: int) -> Option<int> {
    match line_ending(s, i) {
        Some(q) => if q + n <= s.len() && scan(s, q, CharClass::Backtick) >= q + n {
            let r = q + n;
            if r == s.len() {
                Some(r)
            } else {
                line_ending(s, r)
            }
        } else {
            None
        },
        None => None,
    }
}

/// The content of a code block from `c0`, scanned from `i`: it ends at the
/// closing fence (consumed) or the end of input.
pub open spec fn code_body(s: Seq<char>, c0: int, n: int, i: int) -> (int, Seq<char>)
    decreases s.len() - i,
{
    if !(0 <= i < s.len()) {
        (i, s.subrange(c0, i))
    } else {
        match code_close(s, i, n) {
            Some(e) => (e, s.subrange(c0, i)),
            None => code_body(s, c0, n, i + 1),
        }
    }
}

/// A code block: a fence of three to sixteen backticks, an optional `=format`,
/// an optional line ending, then the content up to the closing fence.
pub open spec fn code(s: Seq<char>, p: int) -> Option<(int, BlockModel)> {
    let h = scan(s, p, CharClass::Backtick);
    let run = h - p;
    if 3 <= run <= 16 {
        let k = if char_at(s, h, '=') {
            key(s, h + 1)
        } else {
            None
        };
        let fmt = match k {
            Some(ke) => Some(s.subrange(h + 1, ke)),
            None => None,
        };
        let f = match k {
            Some(ke) => ke,
            None => h,
        };
        let c0 = match line_ending(s, f) {
            Some(e) => e,
            None => f,
        };
        let (e, content) = code_body(s, c0, run, c0);
        Some((e, BlockModel::Code(fmt, content, None)))
    } else {
        None
    }
}

/// A list that starts without indentation.
pub open spec fn list(s: Seq<char>, p: int) -> Option<(int, BlockModel)> {
    match list_tag(s, p) {
        Some((q, d, idx)) => if d.len() == 0 {
            Some(list_block(s, q, d, idx, None))
        } else {
            None
        },
        None => None,
    }
}

/// A paragraph: the spans up to the end of mark.
pub open spec fn paragraph(s: Seq<char>, p: int) -> (int, BlockModel) {
    let (e, ss) = spans(s, p, None, None);
    (e, BlockModel::Paragraph(ss, None))
}

/// A code block, else a list, else a paragraph.
pub open spec fn leaf_block(s: Seq<char>, p: int) -> (int, BlockModel) {
    if code(s, p) is Some {
        code(s, p)->0
    } else if list(s, p) is Some {
        list(s, p)->0
    } else {
        paragraph(s, p)
    }
}

/// A leaf block with the attributes that preceded it.
pub open spec fn with_block_attrs(b: BlockModel, attrs: Option<AttrsModel>) -> BlockModel {
    match b {
        BlockModel::Code(f, c, _) => BlockModel::Code(f, c, attrs),
        BlockModel::List(ls, _) => BlockModel::List(ls, attrs),
        BlockModel::Paragraph(ss, _) => BlockModel::Paragraph(ss, attrs),
        _ => b,
    }
}

/// Attributes on a line of their own before a block; the end and the attributes.
pub open spec fn block_attrs(s: Seq<char>, p: int) -> (int, Option<AttrsModel>) {
    match attributes(s, p) {
        Some((q, kv)) => match line_ending(s, q) {
            Some(r) => (r, Some(kv)),
            None => (p, None),
        },
        None => (p, None),
    }
}

/// The loop of `blocks` at `i`. Inside a div (`divs`) a closing `:::` ends
/// the blocks, and under a heading of level `refs` a heading of that level or
/// higher does; neither is consumed.
pub open spec fn blocks_loop(
    s: Seq<char>,
    i: int,
    divs: bool,
    refs: Option<int>,
    bs: Seq<BlockModel>,
) -> (int, Seq<BlockModel>)
    decreases s.len() - i, 1int,
{
    let i1 = skip_line_endings(s, i);
    if !(0 <= i1 < s.len()) {
        (i1, bs)
    } else if divs && div_close(s, i1) is Some {
        (i1, bs)
    } else {
        let (i2, attrs) = block_attrs(s, i1);
        match div_start(s, i2) {
            Some((q, name)) => if i < q <= s.len() {
                let (r, dbs) = blocks(s, q, true, refs);
                let r2 = match div_close(s, r) {
                    Some(t) => t,
                    None => r,
                };
                if i < r2 <= s.len() {
                    blocks_loop(s, r2, divs, refs, bs.push(BlockModel::Div(name, dbs, attrs)))
                } else {
                    (i, bs)
                }
            } else {
                (i, bs)
            },
            None => match head_start(s, i2) {
                Some((q, hl)) => if refs is Some && refs->0 >= hl {
                    (i2, bs)
                } else {
                    let (r, hss) = spans(s, q, None, Some(false));
                    if i < q <= r <= s.len() {
                        let (t, hbs) = blocks(s, r, divs, Some(hl));
                        if i < t <= s.len() {
                            blocks_loop(
                                s,
                                t,
                                divs,
                                refs,
                                bs.push(BlockModel::Heading(level_model(hl), hss, hbs, attrs)),
                            )
                        } else {
                            (i, bs)
                        }
                    } else {
                        (i, bs)
                    }
                },
                None => {
                    let (q, b) = leaf_block(s, i2);
                    if i < q <= s.len() {
                        blocks_loop(s, q, divs, refs, bs.push(with_block_attrs(b, attrs)))
                    } else {
                        (i, bs)
                    }
                },
            },
        }
    }
}

/// The blocks from `p`: divs, headings (which hold the blocks under them),
/// code blocks, lists and paragraphs, each possibly preceded by attributes.
pub open spec fn blocks(s: Seq<char>, p: int, divs: bool, refs: Option<int>) -> (int, Seq<BlockModel>)
    decreases s.len() - p, 2int,
{
    blocks_loop(s, p, divs, refs, Seq::empty())
}

/// The blocks of a whole document.
pub open spec fn document_blocks(input: Seq<char>) -> Seq<BlockModel> {
    blocks(input, 0, false, None).1
}

fn div_start_exec(s: &Vec<char>, p: usize) -> (r: Option<(usize, String)>)
    requires
        p <= s@.len(),
    ensures
        match r {
            Some((e, name)) => div_start(s@, p as int) == Some((e as int, name@)) && p < e <= s@.len(),
            None => div_start(s@, p as int) is None,
        },
{
    proof {
        lemma_len_fits(s);
    }
    if !(char_at_exec(s, p, ':') && char_at_exec(s, p + 1, ':') && char_at_exec(s, p + 2, ':')) {
        return None;
    }
    let q = scan_exec(s, p + 3, CharClass::Space);
    let f = scan_exec(s, q, CharClass::FieldChar);
    if q > p + 3 && f > q {
        Some((f, text(s, q, f)))
    } else {
        None
    }
}

fn div_close_exec(s: &Vec<char>, p: usize) -> (r: Option<usize>)
    requires
        p <= s@.len(),
    ensures
        match r {
            Some(e) => div_close(s@, p as int) == Some(e as int) && p < e <= s@.len(),
            None => div_close(s@, p as int) is None,
        },
{
    proof {
        lemma_len_fits(s);
    }
    if !(char_at_exec(s, p, ':') && char_at_exec(s, p + 1, ':') && char_at_exec(s, p + 2, ':')) {
        return None;
    }
    if p + 3 == s.len() {
        Some(p + 3)
    } else {
        line_ending_exec(s, p + 3)
    }
}

fn head_start_exec(s: &Vec<char>, p: usize) -> (r: Option<(usize, u8)>)
    requires
        p <= s@.len(),
    ensures
        match r {
            Some((e, n)) => head_start(s@, p as int) == Some((e as int, n as int)) && p < e
                <= s@.len() && 1 <= n <= 6,
            None => head_start(s@, p as int) is None,
        },
{
    let h = scan_exec(s, p, CharClass::HashSign);
    let n: usize = if h - p > 6 {
        6
    } else {
        h - p
    };
    let r = scan_exec(s, p + n, CharClass::Space);
    if n >= 1 && r > p + n {
        Some((r, n as u8))
    } else {
        None
    }
}

fn hlevel_of(n: u8) -> (r: HLevel)
    requires
        1 <= n <= 6,
    ensures
        crate::model::hlevel_view(r) == level_model(n as int),
{
    if n == 1 {
        HLevel::H1
    } else if n == 2 {
        HLevel::H2
    } else if n == 3 {
        HLevel::H3
    } else if n == 4 {
        HLevel::H4
    } else if n == 5 {
        HLevel::H5
    } else {
        HLevel::H6
    }
}

fn code_close_exec(s: &Vec<char>, i: usize, n: usize) -> (r: Option<usize>)
    requires
        i <= s@.len(),
    ensures
        match r {
            Some(e) => code_close(s@, i as int, n as int) == Some(e as int) && i < e <= s@.len(),
            None => code_close(s@, i as int, n as int) is None,
        },
{
    match line_ending_exec(s, i) {
        Some(q) => {
            if n <= s.len() - q && scan_exec(s, q, CharClass::Backtick) >= q + n {
                let r = q + n;
                if r == s.len() {
                    Some(r)
                } else {
                    line_ending_exec(s, r)
                }
            } else {
                None
            }
        },
        None => None,
    }
}

fn code_exec(s: &Vec<char>, p: usize) -> (r: Option<(usize, Block)>)
    requires
        p <= s@.len(),
    ensures
        match r {
            Some((e, b)) => code(s@, p as int) == Some((e as int, block_view(b))) && p < e
                <= s@.len(),
            None => code(s@, p as int) is None,
        },
{
    proof {
        lemma_len_fits(s);
    }
    let h = scan_exec(s, p, CharClass::Backtick);
    let run = h - p;
    if !(3 <= run && run <= 16) {
        return None;
    }
    let k = if char_at_exec(s, h, '=') {
        key_exec(s, h + 1)
    } else {
        None
    };
    let fmt = match k {
        Some(ke) => Some(text(s, h + 1, ke)),
        None => None,
    };
    let f = match k {
        Some(ke) => ke,
        None => h,
    };
    let c0 = match line_ending_exec(s, f) {
        Some(e) => e,
        None => f,
    };
    let ghost fm = crate::model::opt_str_view(fmt);
    assert(code(s@, p as int) == Some(
        (
            code_body(s@, c0 as int, run as int, c0 as int).0,
            BlockModel::Code(fm, code_body(s@, c0 as int, run as int, c0 as int).1, None),
        ),
    ));
    let mut i = c0;
    while i < s.len()
        invariant
            p < h <= c0 <= i <= s@.len(),
            run == h - p,
            3 <= run <= 16,
            fm == crate::model::opt_str_view(fmt),
            code(s@, p as int) == Some(
                (
                    code_body(s@, c0 as int, run as int, c0 as int).0,
                    BlockModel::Code(fm, code_body(s@, c0 as int, run as int, c0 as int).1, None),
                ),
            ),
            code_body(s@, c0 as int, run as int, i as int) == code_body(
                s@,
                c0 as int,
                run as int,
                c0 as int,
            ),
        decreases s@.len() - i,
    {
        match code_close_exec(s, i, run) {
            Some(e) => {
                let b = Block::Code(fmt, text(s, c0, i), None);
                assert(code(s@, p as int) == Some((e as int, block_view(b))));
                return Some((e, b));
            },
            None => {
                i = i + 1;
            },
        }
    }
    let b = Block::Code(fmt, text(s, c0, i), None);
    assert(code(s@, p as int) == Some((i as int, block_view(b))));
    Some((i, b))
}

fn list_exec(s: &Vec<char>, p: usize) -> (r: Option<(usize, Block)>)
    requires
        p <= s@.len(),
    ensures
        match r {
            Some((e, b)) => list(s@, p as int) == Some((e as int, block_view(b))) && p < e
                <= s@.len(),
            None => list(s@, p as int) is None,
        },
{
    match list_tag_exec(s, p) {
        Some((q, d, idx)) => {
            if d.len() == 0 {
                let (e, b) = list_block_exec(s, q, &d, idx, None);
                Some((e, b))
            } else {
                None
            }
        },
        None => None,
    }
}

fn leaf_block_exec(s: &Vec<char>, p: usize) -> (r: (usize, Block))
    requires
        p <= s@.len(),
    ensures
        leaf_block(s@, p as int) == (r.0 as int, block_view(r.1)),
        p <= r.0 <= s@.len(),
        p < s@.len() && line_ending(s@, p as int) is None ==> p < r.0,
{
    if let Some(x) = code_exec(s, p) {
        return x;
    }
    if let Some(x) = list_exec(s, p) {
        return x;
    }
    let (e, ss) = spans_exec(s, p, &None, None);
    (e, Block::Paragraph(ss, None))
}

fn set_block_attrs(b: Block, attrs: Option<Attrs>) -> (r: Block)
    ensures
        block_view(r) == with_block_attrs(block_view(b), opt_attrs_view(attrs)),
{
    match b {
        Block::Code(f, c, _) => Block::Code(f, c, attrs),
        Block::List(ls, _) => Block::List(ls, attrs),
        Block::Paragraph(ss, _) => Block::Paragraph(ss, attrs),
        other => other,
    }
}

fn block_attrs_exec(s: &Vec<char>, p: usize) -> (r: (usize, Option<Attrs>))
    requires
        p <= s@.len(),
    ensures
        block_attrs(s@, p as int) == (r.0 as int, opt_attrs_view(r.1)),
        p <= r.0 <= s@.len(),
{
    match attributes_exec(s, p) {
        Some((q, kv)) => match line_ending_exec(s, q) {
            Some(r) => (r, Some(kv)),
            None => (p, None),
        },
        None => (p, None),
    }
}

pub open spec fn refs_model(refs: Option<u8>) -> Option<int> {
    match refs {
        Some(r) => Some(r as int),
        None => None,
    }
}

fn push_block(bs: &mut Vec<Block>, b: Block)
    ensures
        blocks_view(final(bs)@) == blocks_view(old(bs)@).push(block_view(b)),
{
    proof {
        lemma_blocks_view_push(bs@, b);
    }
    bs.push(b);
}

/// Parses blocks from `p` until the end of input or, inside a div, its
/// closing `:::`, or under a heading of level `refs`, a heading of that
/// level or a higher one.
pub fn blocks_exec(s: &Vec<char>, p: usize, divs: bool, refs: Option<u8>) -> (r: (usize, Vec<Block>))
    requires
        p <= s@.len(),
    ensures
        blocks(s@, p as int, divs, refs_model(refs)) == (r.0 as int, blocks_view(r.1@)),
        p <= r.0 <= s@.len(),
    decreases s@.len() - p, 2int,
{
    let mut bs: Vec<Block> = Vec::new();
    let mut i = p;
    proof {
        assert(blocks_view(bs@) =~= Seq::<BlockModel>::empty());
    }
    loop
        invariant
            p <= i <= s@.len(),
            blocks_loop(s@, i as int, divs, refs_model(refs), blocks_view(bs@)) == blocks(
                s@,
                p as int,
                divs,
                refs_model(refs),
            ),
        decreases s@.len() - i,
    {
        let i1 = skip_line_endings_exec(s, i);
        if i1 >= s.len() {
            return (i1, bs);
        }
        if divs && div_close_exec(s, i1).is_some() {
            return (i1, bs);
        }
        let (i2, attrs) = block_attrs_exec(s, i1);
        match div_start_exec(s, i2) {
            Some((q, name)) => {
                let (r, dbs) = blocks_exec(s, q, true, refs);
                let r2 = match div_close_exec(s, r) {
                    Some(t) => t,
                    None => r,
                };
                push_block(&mut bs, Block::Div(name, dbs, attrs));
                i = r2;
            },
            None => match head_start_exec(s, i2) {
                Some((q, hl)) => {
                    match refs {
                        Some(level) => {
                            if level >= hl {
                                return (i2, bs);
                            }
                        },
                        None => {},
                    }
                    let (r, hss) = spans_exec(s, q, &None, Some(false));
                    let (t, hbs) = blocks_exec(s, r, divs, Some(hl));
                    push_block(&mut bs, Block::Heading(hlevel_of(hl), hss, hbs, attrs));
                    i = t;
                },
                None => {
                    let (q, b) = leaf_block_exec(s, i2);
                    push_block(&mut bs, set_block_attrs(b, attrs));
                    i = q;
                },
            },
        }
    }
}

/// A parsed document: its blocks; references and tags are not collected.
#[derive(Debug, PartialEq, Eq)]
pub struct Document {
    pub blocks: Vec<Block>,
    pub refs: Option<Vec<(String, Block)>>,
    pub tags: Option<Vec<(String, Vec<String>)>>,
}

/// Parsing a document does not fail; this error is never returned.
#[derive(Debug, PartialEq, Eq)]
pub struct DocumentError;

/// Parses a whole document into its blocks.
pub fn document(input: &str) -> (r: Result<Document, DocumentError>)
    ensures
        r matches Ok(d) && blocks_view(d.blocks@) == document_blocks(input@) && d.refs is None
            && d.tags is None,
{
    let s = chars_of(input);
    let (_, bs) = blocks_exec(&s, 0, false, None);
    Ok(Document { blocks: bs, refs: None, tags: None })
}

/// The rank of a heading level: 1 to 6 for `#` to `######`, 0 for a div.
pub open spec fn rank(l: HLevelModel) -> int {
    match l {
        HLevelModel::DIV(_) => 0,
        HLevelModel::H1 => 1,
        HLevelModel::H2 => 2,
        HLevelModel::H3 => 3,
        HLevelModel::H4 => 4,
        HLevelModel::H5 => 5,
        HLevelModel::H6 => 6,
    }
}

/// Headings in `b`, a block placed under a heading of rank `h`, are deeper
/// than `h`, and so are the headings under them, recursively; divs are
/// transparent.
pub open spec fn heading_ok(b: BlockModel, h: int) -> bool
    decreases b,
{
    match b {
        BlockModel::Heading(l, _, cs, _) => rank(l) > h && headings_ok(cs, rank(l)),
        BlockModel::Div(_, cs, _) => headings_ok(cs, h),
        _ => true,
    }
}

/// Every block of `bs` satisfies `heading_ok` under rank `h`.
pub open spec fn headings_ok(bs: Seq<BlockModel>, h: int) -> bool
    decreases bs,
{
    if bs.len() == 0 {
        true
    } else {
        headings_ok(bs.drop_last(), h) && heading_ok(bs.last(), h)
    }
}

pub open spec fn refs_rank(refs: Option<int>) -> int {
    match refs {
        Some(r) => r,
        None => 0,
    }
}

proof fn lemma_headings_push(bs: Seq<BlockModel>, b: BlockModel, h: int)
    requires
        headings_ok(bs, h),
        heading_ok(b, h),
    ensures
        headings_ok(bs.push(b), h),
{
    assert(bs.push(b).drop_last() =~= bs);
}

proof fn lemma_leaf_not_nesting(s: Seq<char>, p: int)
    ensures
        !(leaf_block(s, p).1 is Heading) && !(leaf_block(s, p).1 is Div),
{
    if let Some((q, d, idx)) = list_tag(s, p) {
        lemma_list_block_is_list(s, q, d, idx, None);
    }
}

proof fn lemma_blocks_loop_nest(s: Seq<char>, i: int, divs: bool, refs: Option<int>, bs: Seq<BlockModel>)
    requires
        headings_ok(bs, refs_rank(refs)),
        refs_rank(refs) >= 0,
    ensures
        headings_ok(blocks_loop(s, i, divs, refs, bs).1, refs_rank(refs)),
    decreases s.len() - i, 1int,
{
    let h = refs_rank(refs);
    let i1 = skip_line_endings(s, i);
    if !(0 <= i1 < s.len()) {
    } else if divs && div_close(s, i1) is Some {
    } else {
        let (i2, attrs) = block_attrs(s, i1);
        match div_start(s, i2) {
            Some((q, name)) => if i < q <= s.len() {
                lemma_blocks_nest(s, q, true, refs);
                let (r, dbs) = blocks(s, q, true, refs);
                let r2 = match div_close(s, r) {
                    Some(t) => t,
                    None => r,
                };
                let b = BlockModel::Div(name, dbs, attrs);
                lemma_headings_push(bs, b, h);
                if i < r2 <= s.len() {
                    lemma_blocks_loop_nest(s, r2, divs, refs, bs.push(b));
                }
            },
            None => match head_start(s, i2) {
                Some((q, hl)) => if refs is Some && refs->0 >= hl {
                } else {
                    let (r, hss) = spans(s, q, None, Some(false));
                    if i < q <= r <= s.len() {
                        lemma_blocks_nest(s, r, divs, Some(hl));
                        let (t, hbs) = blocks(s, r, divs, Some(hl));
                        let b = BlockModel::Heading(level_model(hl), hss, hbs, attrs);
                        assert(rank(level_model(hl)) == hl);
                        lemma_headings_push(bs, b, h);
                        if i < t <= s.len() {
                            lemma_blocks_loop_nest(s, t, divs, refs, bs.push(b));
                        }
                    }
                },
                None => {
                    let (q, b) = leaf_block(s, i2);
                    lemma_leaf_not_nesting(s, i2);
                    lemma_headings_push(bs, with_block_attrs(b, attrs), h);
                    if i < q <= s.len() {
                        lemma_blocks_loop_nest(s, q, divs, refs, bs.push(with_block_attrs(b, attrs)));
                    }
                },
            },
        }
    }
}

proof fn lemma_blocks_nest(s: Seq<char>, p: int, divs: bool, refs: Option<int>)
    requires
        refs_rank(refs) >= 0,
    ensures
        headings_ok(blocks(s, p, divs, refs).1, refs_rank(refs)),
    decreases s.len() - p, 2int,
{
    lemma_blocks_loop_nest(s, p, divs, refs, Seq::empty());
}

/// Headings nest by level: every heading of a document holds (directly or
/// within divs) only headings of a deeper level, and so on down the tree.
pub proof fn law_headings_nest(input: Seq<char>)
    ensures
        headings_ok(document_blocks(input), 0),
{
    lemma_blocks_nest(input, 0, false, None);
}

proof fn lemma_code_body_bounds(s: Seq<char>, c0: int, n: int, i: int)
    requires
        0 <= i <= s.len(),
        n >= 0,
    ensures
        i <= code_body(s, c0, n, i).0 <= s.len(),
    decreases s.len() - i,
{
    if 0 <= i < s.len() {
        if code_close(s, i, n) is None {
            lemma_code_body_bounds(s, c0, n, i + 1);
        }
    }
}

proof fn lemma_leaf_block_bounds(s: Seq<char>, p: int)
    requires
        0 <= p <= s.len(),
    ensures
        p <= leaf_block(s, p).0 <= s.len(),
        p < s.len() && line_ending(s, p) is None ==> p < leaf_block(s, p).0,
{
    lemma_scan_bounds(s, p, CharClass::Backtick);
    let h = scan(s, p, CharClass::Backtick);
    if h + 1 <= s.len() {
        lemma_key_bounds(s, h + 1);
    }
    let k = if char_at(s, h, '=') {
        key(s, h + 1)
    } else {
        None
    };
    let f = match k {
        Some(ke) => ke,
        None => h,
    };
    let c0 = match line_ending(s, f) {
        Some(e) => e,
        None => f,
    };
    lemma_code_body_bounds(s, c0, h - p, c0);
    lemma_list_tag_bounds(s, p);
    if let Some((q, d, idx)) = list_tag(s, p) {
        lemma_list_block_bounds(s, q, d, idx, None);
    }
    lemma_spans_bounds(s, p, None, None);
    if p < s.len() && line_ending(s, p) is None {
        lemma_spans_progress(s, p);
    }
}

proof fn lemma_block_start_bounds(s: Seq<char>, p: int)
    requires
        0 <= p <= s.len(),
    ensures
        p <= block_attrs(s, p).0 <= s.len(),
        block_attrs(s, p).1 is Some ==> p < block_attrs(s, p).0,
        div_start(s, p) matches Some((e, _)) ==> p < e <= s.len(),
        div_close(s, p) matches Some(e) ==> p < e <= s.len(),
        head_start(s, p) matches Some((e, n)) ==> p < e <= s.len() && 1 <= n <= 6,
{
    lemma_attributes_bounds(s, p);
    if p + 3 <= s.len() {
        lemma_scan_bounds(s, p + 3, CharClass::Space);
        lemma_scan_bounds(s, scan(s, p + 3, CharClass::Space), CharClass::FieldChar);
    }
    lemma_scan_bounds(s, p, CharClass::HashSign);
    let h = scan(s, p, CharClass::HashSign);
    let n = if h - p > 6 {
        6
    } else {
        h - p
    };
    lemma_scan_bounds(s, p + n, CharClass::Space);
}

proof fn lemma_blocks_loop_bounds(s: Seq<char>, i: int, divs: bool, refs: Option<int>, bs: Seq<BlockModel>)
    requires
        0 <= i <= s.len(),
    ensures
        i <= blocks_loop(s, i, divs, refs, bs).0 <= s.len(),
    decreases s.len() - i, 1int,
{
    lemma_skip_line_endings(s, i);
    let i1 = skip_line_endings(s, i);
    if !(0 <= i1 < s.len()) {
    } else if divs && div_close(s, i1) is Some {
    } else {
        lemma_block_start_bounds(s, i1);
        let (i2, attrs) = block_attrs(s, i1);
        lemma_block_start_bounds(s, i2);
        match div_start(s, i2) {
            Some((q, name)) => {
                lemma_blocks_bounds(s, q, true, refs);
                let (r, dbs) = blocks(s, q, true, refs);
                lemma_block_start_bounds(s, r);
                let r2 = match div_close(s, r) {
                    Some(t) => t,
                    None => r,
                };
                lemma_blocks_loop_bounds(s, r2, divs, refs, bs.push(BlockModel::Div(name, dbs, attrs)));
            },
            None => match head_start(s, i2) {
                Some((q, hl)) => if refs is Some && refs->0 >= hl {
                } else {
                    lemma_spans_bounds(s, q, None, Some(false));
                    let (r, hss) = spans(s, q, None, Some(false));
                    lemma_blocks_bounds(s, r, divs, Some(hl));
                    let (t, hbs) = blocks(s, r, divs, Some(hl));
                    lemma_blocks_loop_bounds(
                        s,
                        t,
                        divs,
                        refs,
                        bs.push(BlockModel::Heading(level_model(hl), hss, hbs, attrs)),
                    );
                },
                None => {
                    lemma_leaf_block_bounds(s, i2);
                    let (q, b) = leaf_block(s, i2);
                    lemma_blocks_loop_bounds(s, q, divs, refs, bs.push(with_block_attrs(b, attrs)));
                },
            },
        }
    }
}

/// Blocks end within the input, not before their start; on the way every
/// block consumes input.
pub proof fn lemma_blocks_bounds(s: Seq<char>, p: int, divs: bool, refs: Option<int>)
    requires
        0 <= p <= s.len(),
    ensures
        p <= blocks(s, p, divs, refs).0 <= s.len(),
    decreases s.len() - p, 2int,
{
    lemma_blocks_loop_bounds(s, p, divs, refs, Seq::empty());
}

proof fn lemma_top_loop_consumes(s: Seq<char>, i: int, bs: Seq<BlockModel>)
    requires
        0 <= i <= s.len(),
    ensures
        blocks_loop(s, i, false, None, bs).0 == s.len(),
    decreases s.len() - i,
{
    lemma_skip_line_endings(s, i);
    let i1 = skip_line_endings(s, i);
    if 0 <= i1 < s.len() {
        lemma_block_start_bounds(s, i1);
        let (i2, attrs) = block_attrs(s, i1);
        lemma_block_start_bounds(s, i2);
        match div_start(s, i2) {
            Some((q, name)) => {
                lemma_blocks_bounds(s, q, true, None);
                let (r, dbs) = blocks(s, q, true, None);
                lemma_block_start_bounds(s, r);
                let r2 = match div_close(s, r) {
                    Some(t) => t,
                    None => r,
                };
                lemma_top_loop_consumes(s, r2, bs.push(BlockModel::Div(name, dbs, attrs)));
            },
            None => match head_start(s, i2) {
                Some((q, hl)) => {
                    lemma_spans_bounds(s, q, None, Some(false));
                    let (r, hss) = spans(s, q, None, Some(false));
                    lemma_blocks_bounds(s, r, false, Some(hl));
                    let (t, hbs) = blocks(s, r, false, Some(hl));
                    lemma_top_loop_consumes(
                        s,
                        t,
                        bs.push(BlockModel::Heading(level_model(hl), hss, hbs, attrs)),
                    );
                },
                None => {
                    lemma_leaf_block_bounds(s, i2);
                    let (q, b) = leaf_block(s, i2);
                    lemma_top_loop_consumes(s, q, bs.push(with_block_attrs(b, attrs)));
                },
            },
        }
    }
}

/// A heading opens with one to six `#` and a space or tab; its level is the
/// number of `#`: `head_start` finds that count, the heading level it maps to
/// has that rank (`H1` for one, ..., `H6` for six), and the spaces after the
/// signs are consumed.
pub proof fn law_heading_level(s: Seq<char>, p: int, n: int)
    requires
        0 <= p,
        1 <= n <= 6,
        p + n < s.len(),
        forall|j: int| p <= j < p + n ==> #[trigger] s[j] == '#',
        s[p + n] == ' ' || s[p + n] == '\t',
    ensures
        head_start(s, p) matches Some((e, m)) && m == n && e == scan(s, p + n, CharClass::Space)
            && e > p + n,
        rank(level_model(n)) == n,
{
    assert forall|j: int| p <= j < p + n implies in_class(CharClass::HashSign, #[trigger] s[j]) by {
        assert(s[j] == '#');
    }
    lemma_scan_run(s, p, p + n, CharClass::HashSign);
    lemma_scan_bounds(s, p + n, CharClass::Space);
}

proof fn lemma_code_body_run(s: Seq<char>, c0: int, n: int, i: int, e: int)
    requires
        0 <= i <= e < s.len(),
        forall|j: int| i <= j < e ==> #[trigger] s[j] != '\n' && s[j] != '\r',
    ensures
        code_body(s, c0, n, i) == code_body(s, c0, n, e),
    decreases e - i,
{
    if i < e {
        assert(s[i] != '\n' && s[i] != '\r');
        assert(line_ending(s, i) is None);
        lemma_code_body_run(s, c0, n, i + 1, e);
    }
}

/// A fence of three to sixteen backticks, a line ending, one line of code,
/// a line ending and the same fence is a code block without a format that
/// holds exactly that line, and it is consumed whole.
pub proof fn law_code_block(k: nat, body: Seq<char>)
    requires
        3 <= k <= 16,
        forall|j: int| 0 <= j < body.len() ==> #[trigger] body[j] != '\n' && body[j] != '\r',
    ensures
        ({
            let s = crate::spans::backticks(k) + seq!['\n'] + body + seq!['\n'] + crate::spans::backticks(k);
            code(s, 0) == Some((s.len() as int, BlockModel::Code(None, body, None)))
        }),
{
    let s = crate::spans::backticks(k) + seq!['\n'] + body + seq!['\n'] + crate::spans::backticks(k);
    let h = k as int;
    let c0 = h + 1;
    let i = c0 + body.len();
    let q = i + 1;
    assert forall|j: int| 0 <= j < h implies in_class(CharClass::Backtick, #[trigger] s[j]) by {
        assert(s[j] == crate::spans::backticks(k)[j]);
    }
    assert(s[h] == '\n');
    lemma_scan_run(s, 0, h, CharClass::Backtick);
    assert(line_ending(s, h) == Some(c0));
    assert forall|j: int| c0 <= j < i implies #[trigger] s[j] != '\n' && s[j] != '\r' by {
        assert(s[j] == body[j - c0]);
    }
    lemma_code_body_run(s, c0, h, c0, i);
    assert(s[i] == '\n');
    assert forall|j: int| q <= j < s.len() implies in_class(CharClass::Backtick, #[trigger] s[j]) by {
        assert(s[j] == crate::spans::backticks(k)[j - q]);
    }
    lemma_scan_run(s, q, s.len() as int, CharClass::Backtick);
    assert(code_close(s, i, h) == Some(s.len() as int));
    assert(s.subrange(c0, i) =~= body);
}

/// `:::`, spaces, and a name (no white space or `]` in it) open a div with
/// that name.
pub proof fn law_div_name(sp: nat, name: Seq<char>)
    requires
        sp > 0,
        name.len() > 0,
        forall|j: int| 0 <= j < name.len() ==> in_class(CharClass::FieldChar, #[trigger] name[j])
            && name[j] != ' ' && name[j] != '\t',
    ensures
        ({
            let s = seq![':', ':', ':'] + Seq::new(sp, |_j: int| ' ') + name;
            div_start(s, 0) == Some((s.len() as int, name))
        }),
{
    let s = seq![':', ':', ':'] + Seq::new(sp, |_j: int| ' ') + name;
    let q = 3 + sp as int;
    assert forall|j: int| 3 <= j < q implies in_class(CharClass::Space, #[trigger] s[j]) by {
        assert(s[j] == ' ');
    }
    assert(s[q] == name[0]);
    lemma_scan_run(s, 3, q, CharClass::Space);
    assert forall|j: int| q <= j < s.len() implies in_class(CharClass::FieldChar, #[trigger] s[j]) by {
        assert(s[j] == name[j - q]);
    }
    lemma_scan_run(s, q, s.len() as int, CharClass::FieldChar);
    assert(s.subrange(q, s.len() as int) =~= name);
}

/// A list item marker (`*`, `-` or `+`), a space, and words of lowercase
/// letters and spaces (starting with a letter) are a list of one item: an
/// unordered index holding the marker, one text span holding the words, and
/// no nested list.
#[verifier::spinoff_prover]
#[verifier::rlimit(50)]
pub proof fn law_single_item_list(m: char, item: Seq<char>)
    requires
        m == '*' || m == '-' || m == '+',
        item.len() > 0,
        forall|j: int| 0 <= j < item.len() ==> plain_char(#[trigger] item[j]),
        item[0] != ' ',
    ensures
        document_blocks(seq![m, ' '] + item) == seq![
            BlockModel::List(
                seq![
                    ListItemModel {
                        index: IndexModel::Unordered(seq![m]),
                        spans: seq![SpanModel::Text(item)],
                        sub: None,
                    },
                ],
                None,
            ),
        ],
{
    let s = seq![m, ' '] + item;
    let n = s.len() as int;
    assert(s[0] == m && s[1] == ' ' && s[2] == item[0]);
    assert(plain_char(item[0]));
    assert(skip_line_endings(s, 0) == 0);
    assert(block_attrs(s, 0) == (0int, None::<AttrsModel>));
    assert(div_start(s, 0) is None);
    assert(scan(s, 0, CharClass::HashSign) == 0);
    assert(head_start(s, 0) is None);
    assert(scan(s, 0, CharClass::Backtick) == 0);
    assert(code(s, 0) is None);
    assert(scan(s, 0, CharClass::Space) == 0);
    assert(crate::index::task(s, 0) is None);
    lemma_scan_run(s, 1, 2, CharClass::Space);
    let idx = IndexModel::Unordered(seq![m]);
    assert(crate::index::unordered(s, 0) == Some((1int, idx)));
    assert(s.subrange(0, 0) =~= Seq::<char>::empty());
    assert(list_tag(s, 0) == Some((2int, Seq::<char>::empty(), idx)));
    assert(quiet_run(s, 2, n)) by {
        assert forall|j: int| 2 <= j < n implies quiet_char(#[trigger] s[j]) by {
            assert(s[j] == item[j - 2]);
            assert(plain_char(item[j - 2]));
        }
    }
    lemma_quiet_spans(s, 2, n, Some(true));
    assert(s.subrange(2, n) =~= item);
    assert(skip_line_endings(s, n) == n);
    assert(scan(s, n, CharClass::Space) == n);
    assert(scan(s, n, CharClass::Alpha) == n);
    assert(scan(s, n, CharClass::Digit) == n);
    assert(list_tag(s, n) is None);
    assert(crate::lists::depth_attrs(s, n) is None);
    let depth = Seq::<char>::empty();
    assert(crate::lists::nested_list_block(s, n, depth) == (n, None::<BlockModel>));
    let li = ListItemModel { index: idx, spans: seq![SpanModel::Text(item)], sub: None };
    assert(crate::lists::list_item(s, 2, depth, idx) == (n, li));
    let lis = Seq::<ListItemModel>::empty().push(li);
    assert(crate::lists::list_block_loop(s, 2, depth, idx, Seq::empty(), None) == (
        n,
        BlockModel::List(lis, None),
    ));
    assert(list_block(s, 2, depth, idx, None) == (n, BlockModel::List(lis, None)));
    assert(list(s, 0) == Some((n, BlockModel::List(lis, None))));
    assert(leaf_block(s, 0) == (n, BlockModel::List(lis, None)));
    let bs = Seq::<BlockModel>::empty().push(BlockModel::List(lis, None));
    assert(blocks_loop(s, n, false, None, bs) == (n, bs));
    assert(blocks_loop(s, 0, false, None, Seq::empty()) == (n, bs));
    assert(lis =~= seq![li]);
    assert(bs =~= seq![BlockModel::List(seq![li], None)]);
}

/// A lowercase ASCII letter or a space: characters that start no block and no span.
pub open spec fn plain_char(c: char) -> bool {
    ('a' <= c && c <= 'z') || c == ' '
}

/// From `i` to `e` the input holds only plain characters.
pub open spec fn plain_run(s: Seq<char>, i: int, e: int) -> bool {
    0 <= i <= e <= s.len() && forall|j: int| i <= j < e ==> plain_char(#[trigger] s[j])
}

proof fn lemma_plain_leaf(s: Seq<char>, i: int, e: int)
    requires
        plain_run(s, i, e),
        i < e,
        eom(s, e) is Some,
    ensures
        leaf_block(s, i) == (e, BlockModel::Paragraph(seq![SpanModel::Text(s.subrange(i, e))], None)),
{
    assert(plain_char(s[i]));
    assert(scan(s, i, CharClass::Backtick) == i);
    assert(code(s, i) is None);
    assert(skip_line_endings(s, i) == i);
    lemma_scan_bounds(s, i, CharClass::Space);
    let r = scan(s, i, CharClass::Space);
    if r < e {
        assert(plain_char(s[r]));
    }
    assert(r <= e) by {
        if r > e {
            assert(in_class(CharClass::Space, s[e]));
        }
    }
    lemma_scan_bounds(s, r, CharClass::Alpha);
    lemma_scan_bounds(s, r, CharClass::Digit);
    let a = scan(s, r, CharClass::Alpha);
    assert(a <= e) by {
        if a > e {
            assert(in_class(CharClass::Alpha, s[e]));
        }
    }
    if a < e {
        assert(plain_char(s[a]));
    }
    if r < e {
        assert(scan(s, r, CharClass::Digit) == r);
    }
    assert(list_tag(s, i) is None);
    assert(list(s, i) is None);
    assert(quiet_run(s, i, e)) by {
        assert forall|j: int| i <= j < e implies quiet_char(#[trigger] s[j]) by {
            assert(plain_char(s[j]));
        }
        assert(plain_char(s[e - 1]));
    }
    lemma_quiet_spans(s, i, e, None);
}

proof fn lemma_plain_block_step(s: Seq<char>, i: int, i1: int, e: int, bs: Seq<BlockModel>)
    requires
        0 <= i <= i1,
        skip_line_endings(s, i) == i1,
        plain_run(s, i1, e),
        i1 < e,
        eom(s, e) is Some,
    ensures
        blocks_loop(s, i, false, None, bs) == blocks_loop(
            s,
            e,
            false,
            None,
            bs.push(BlockModel::Paragraph(seq![SpanModel::Text(s.subrange(i1, e))], None)),
        ),
{
    assert(plain_char(s[i1]));
    assert(attributes(s, i1) is None);
    assert(block_attrs(s, i1) == (i1, None::<AttrsModel>));
    assert(div_start(s, i1) is None);
    assert(scan(s, i1, CharClass::HashSign) == i1);
    assert(head_start(s, i1) is None);
    lemma_plain_leaf(s, i1, e);
}

/// Two runs of lowercase letters and spaces separated by a blank line are two
/// paragraphs, each one text span.
#[verifier::spinoff_prover]
#[verifier::rlimit(50)]
pub proof fn law_two_paragraphs(a: Seq<char>, b: Seq<char>)
    requires
        a.len() > 0,
        b.len() > 0,
        forall|j: int| 0 <= j < a.len() ==> plain_char(#[trigger] a[j]),
        forall|j: int| 0 <= j < b.len() ==> plain_char(#[trigger] b[j]),
    ensures
        document_blocks(a + seq!['\n', '\n'] + b) == seq![
            BlockModel::Paragraph(seq![SpanModel::Text(a)], None),
            BlockModel::Paragraph(seq![SpanModel::Text(b)], None),
        ],
{
    let s = a + seq!['\n', '\n'] + b;
    let n = a.len() as int;
    let m = s.len() as int;
    assert(plain_run(s, 0, n)) by {
        assert forall|j: int| 0 <= j < n implies plain_char(#[trigger] s[j]) by {
            assert(s[j] == a[j]);
        }
    }
    assert(plain_run(s, n + 2, m)) by {
        assert forall|j: int| n + 2 <= j < m implies plain_char(#[trigger] s[j]) by {
            assert(s[j] == b[j - n - 2]);
        }
    }
    assert(s[n] == '\n' && s[n + 1] == '\n');
    assert(eom(s, n) is Some);
    assert(eom(s, m) is Some);
    assert(s[0] == a[0]);
    assert(plain_char(s[0]));
    assert(skip_line_endings(s, 0) == 0);
    assert(s[n + 2] == b[0]);
    assert(plain_char(s[n + 2]));
    assert(skip_line_endings(s, n + 2) == n + 2);
    assert(skip_line_endings(s, n + 1) == n + 2);
    assert(skip_line_endings(s, n) == n + 2);
    assert(skip_line_endings(s, m) == m);
    let p1 = BlockModel::Paragraph(seq![SpanModel::Text(s.subrange(0, n))], None);
    let p2 = BlockModel::Paragraph(seq![SpanModel::Text(s.subrange(n + 2, m))], None);
    lemma_plain_block_step(s, 0, 0, n, Seq::empty());
    lemma_plain_block_step(s, n, n + 2, m, seq![p1]);
    assert(blocks_loop(s, m, false, None, seq![p1].push(p2)) == (m, seq![p1].push(p2)));
    assert(s.subrange(0, n) =~= a);
    assert(s.subrange(n + 2, m) =~= b);
    assert(seq![p1].push(p2) =~= seq![
        BlockModel::Paragraph(seq![SpanModel::Text(a)], None),
        BlockModel::Paragraph(seq![SpanModel::Text(b)], None),
    ]);
}

/// A document takes in the whole input: at the top level, outside any div
/// or heading, the blocks end only at the end of the input.
pub proof fn law_document_consumes_input(input: Seq<char>)
    ensures
        blocks(input, 0, false, None).0 == input.len(),
{
    lemma_top_loop_consumes(input, 0, Seq::empty());
}

} // verus!
