use vstd::prelude::*;

verus! {

/// Key/value attributes attached to a span or block, in order of first
/// appearance; a key occurs at most once.
pub type Attrs = Vec<(String, String)>;

pub type AttrsModel = Seq<(Seq<char>, Seq<char>)>;

#[derive(Debug, PartialEq, Eq)]
pub enum Span {
    LineBreak(String),
    NBWS(String),
    Esc(String),
    Text(String),
    Hash(String),
    EOM,
    Link(String, bool, Vec<Span>, Option<Attrs>),
    Verbatim(String, Option<String>, Option<Attrs>),
    Strong(Vec<Span>, Option<Attrs>),
    Emphasis(Vec<Span>, Option<Attrs>),
    Superscript(Vec<Span>, Option<Attrs>),
    Subscript(Vec<Span>, Option<Attrs>),
    Highlight(Vec<Span>, Option<Attrs>),
    Insert(Vec<Span>, Option<Attrs>),
    Delete(Vec<Span>, Option<Attrs>),
}

pub enum SpanModel {
    LineBreak(Seq<char>),
    NBWS(Seq<char>),
    Esc(Seq<char>),
    Text(Seq<char>),
    Hash(Seq<char>),
    EOM,
    Link(Seq<char>, bool, Seq<SpanModel>, Option<AttrsModel>),
    Verbatim(Seq<char>, Option<Seq<char>>, Option<AttrsModel>),
    Strong(Seq<SpanModel>, Option<AttrsModel>),
    Emphasis(Seq<SpanModel>, Option<AttrsModel>),
    Superscript(Seq<SpanModel>, Option<AttrsModel>),
    Subscript(Seq<SpanModel>, Option<AttrsModel>),
    Highlight(Seq<SpanModel>, Option<AttrsModel>),
    Insert(Seq<SpanModel>, Option<AttrsModel>),
    Delete(Seq<SpanModel>, Option<AttrsModel>),
}

pub open spec fn attrs_view(a: Attrs) -> AttrsModel {
    a@.map_values(|kv: (String, String)| (kv.0@, kv.1@))
}

pub open spec fn opt_attrs_view(a: Option<Attrs>) -> Option<AttrsModel> {
    match a {
        Some(v) => Some(attrs_view(v)),
        None => None,
    }
}

pub open spec fn opt_str_view(a: Option<String>) -> Option<Seq<char>> {
    match a {
        Some(v) => Some(v@),
        None => None,
    }
}

pub open spec fn span_view(sp: Span) -> SpanModel
    decreases sp,
{
    match sp {
        Span::LineBreak(t) => SpanModel::LineBreak(t@),
        Span::NBWS(t) => SpanModel::NBWS(t@),
        Span::Esc(t) => SpanModel::Esc(t@),
        Span::Text(t) => SpanModel::Text(t@),
        Span::Hash(t) => SpanModel::Hash(t@),
        Span::EOM => SpanModel::EOM,
        Span::Link(l, e, v, a) => SpanModel::Link(l@, e, spans_view(v@), opt_attrs_view(a)),
        Span::Verbatim(t, f, a) => SpanModel::Verbatim(t@, opt_str_view(f), opt_attrs_view(a)),
        Span::Strong(v, a) => SpanModel::Strong(spans_view(v@), opt_attrs_view(a)),
        Span::Emphasis(v, a) => SpanModel::Emphasis(spans_view(v@), opt_attrs_view(a)),
        Span::Superscript(v, a) => SpanModel::Superscript(spans_view(v@), opt_attrs_view(a)),
        Span::Subscript(v, a) => SpanModel::Subscript(spans_view(v@), opt_attrs_view(a)),
        Span::Highlight(v, a) => SpanModel::Highlight(spans_view(v@), opt_attrs_view(a)),
        Span::Insert(v, a) => SpanModel::Insert(spans_view(v@), opt_attrs_view(a)),
        Span::Delete(v, a) => SpanModel::Delete(spans_view(v@), opt_attrs_view(a)),
    }
}

pub open spec fn spans_view(ss: Seq<Span>) -> Seq<SpanModel>
    decreases ss,
{
    if ss.len() == 0 {
        Seq::empty()
    } else {
        spans_view(ss.drop_last()).push(span_view(ss.last()))
    }
}

pub proof fn lemma_spans_view_push(ss: Seq<Span>, x: Span)
    ensures
        spans_view(ss.push(x)) == spans_view(ss).push(span_view(x)),
        spans_view(ss).len() == ss.len(),
{
    assert(ss.push(x).drop_last() =~= ss);
    lemma_spans_view_len(ss);
}

pub proof fn lemma_spans_view_len(ss: Seq<Span>)
    ensures
        spans_view(ss).len() == ss.len(),
    decreases ss.len(),
{
    if ss.len() > 0 {
        lemma_spans_view_len(ss.drop_last());
    }
}

fn clone_attrs(a: &Attrs) -> (r: Attrs)
    ensures
        r@ == a@,
{
    let mut r: Attrs = Vec::new();
    let mut i: usize = 0;
    while i < a.len()
        invariant
            i <= a@.len(),
            r@ == a@.take(i as int),
        decreases a.len() - i,
    {
        let k = a[i].0.clone();
        let v = a[i].1.clone();
        r.push((k, v));
        proof {
            assert(a@.take(i + 1) =~= a@.take(i as int).push(a@[i as int]));
        }
        i = i + 1;
    }
    proof {
        assert(a@.take(a@.len() as int) =~= a@);
    }
    r
}

fn clone_opt_attrs(a: &Option<Attrs>) -> (r: Option<Attrs>)
    ensures
        opt_attrs_view(r) == opt_attrs_view(*a),
{
    match a {
        Some(v) => {
            let c = clone_attrs(v);
            proof {
                assert(c@ =~= v@);
            }
            Some(c)
        },
        None => None,
    }
}

/// A copy of a run of spans, span by span.
pub fn clone_spans(v: &Vec<Span>) -> (r: Vec<Span>)
    ensures
        spans_view(r@) == spans_view(v@),
    decreases v,
{
    let mut r: Vec<Span> = Vec::new();
    let mut i: usize = 0;
    proof {
        assert(v@.take(0) =~= Seq::<Span>::empty());
        assert(r@ =~= Seq::<Span>::empty());
    }
    while i < v.len()
        invariant
            i <= v@.len(),
            spans_view(r@) == spans_view(v@.take(i as int)),
        decreases v.len() - i,
    {
        proof {
            vstd::std_specs::vec::axiom_vec_index_decreases(*v, i as int);
        }
        let c = clone_span(&v[i]);
        let ghost r0 = r@;
        r.push(c);
        proof {
            lemma_spans_view_push(r0, c);
            lemma_spans_view_push(v@.take(i as int), v@[i as int]);
            assert(r@ =~= r0.push(c));
            assert(v@.take(i + 1) =~= v@.take(i as int).push(v@[i as int]));
        }
        i = i + 1;
    }
    proof {
        assert(v@.take(v@.len() as int) =~= v@);
    }
    r
}

/// A copy of a span, nested spans included.
pub fn clone_span(sp: &Span) -> (r: Span)
    ensures
        span_view(r) == span_view(*sp),
    decreases sp,
{
    match sp {
        Span::LineBreak(t) => Span::LineBreak(t.clone()),
        Span::NBWS(t) => Span::NBWS(t.clone()),
        Span::Esc(t) => Span::Esc(t.clone()),
        Span::Text(t) => Span::Text(t.clone()),
        Span::Hash(t) => Span::Hash(t.clone()),
        Span::EOM => Span::EOM,
        Span::Link(l, e, vs, a) => Span::Link(l.clone(), *e, clone_spans(vs), clone_opt_attrs(a)),
        Span::Verbatim(t, f, a) => {
            let f2 = match f {
                Some(x) => Some(x.clone()),
                None => None,
            };
            Span::Verbatim(t.clone(), f2, clone_opt_attrs(a))
        },
        Span::Strong(vs, a) => Span::Strong(clone_spans(vs), clone_opt_attrs(a)),
        Span::Emphasis(vs, a) => Span::Emphasis(clone_spans(vs), clone_opt_attrs(a)),
        Span::Superscript(vs, a) => Span::Superscript(clone_spans(vs), clone_opt_attrs(a)),
        Span::Subscript(vs, a) => Span::Subscript(clone_spans(vs), clone_opt_attrs(a)),
        Span::Highlight(vs, a) => Span::Highlight(clone_spans(vs), clone_opt_attrs(a)),
        Span::Insert(vs, a) => Span::Insert(clone_spans(vs), clone_opt_attrs(a)),
        Span::Delete(vs, a) => Span::Delete(clone_spans(vs), clone_opt_attrs(a)),
    }
}

impl Clone for Span {
    fn clone(&self) -> (r: Self)
        ensures
            span_view(r) == span_view(*self),
    {
        clone_span(self)
    }
}

/// How a list item is numbered or marked.
#[derive(Debug, PartialEq, Eq)]
pub enum Enumerator {
    /// Letters (which include roman numerals).
    Alpha(String),
    /// Digits.
    Digit(String),
}

#[derive(Debug, PartialEq, Eq)]
pub enum Index {
    /// `: term`
    Definition(String),
    /// `e)`, `(e)`, `e.`
    Ordered(Enumerator),
    /// `- [ ]`: a checkbox (space, `x`, `X`) or an input field (digits or a ratio).
    Task(String),
    /// `-`, `+`, `*`
    Unordered(String),
}

pub enum EnumeratorModel {
    Alpha(Seq<char>),
    Digit(Seq<char>),
}

pub enum IndexModel {
    Definition(Seq<char>),
    Ordered(EnumeratorModel),
    Task(Seq<char>),
    Unordered(Seq<char>),
}

pub open spec fn index_view(i: Index) -> IndexModel {
    match i {
        Index::Definition(t) => IndexModel::Definition(t@),
        Index::Ordered(Enumerator::Alpha(t)) => IndexModel::Ordered(EnumeratorModel::Alpha(t@)),
        Index::Ordered(Enumerator::Digit(t)) => IndexModel::Ordered(EnumeratorModel::Digit(t@)),
        Index::Task(t) => IndexModel::Task(t@),
        Index::Unordered(t) => IndexModel::Unordered(t@),
    }
}

/// The alignment of a table column: `--:`, `---`, `:-:`, `:--`.
#[derive(Debug, PartialEq, Eq)]
pub enum Align {
    Right,
    Default,
    Center,
    Left,
}

/// The level of a heading, or a div with its name. Levels are ordered from
/// a div, through `H1`, to `H6`.
#[derive(Debug, PartialEq, Eq, PartialOrd, Clone)]
pub enum HLevel {
    DIV(String),
    H1,
    H2,
    H3,
    H4,
    H5,
    H6,
}

#[derive(Debug, PartialEq, Eq)]
pub enum Block {
    /// Div(name, blocks, attributes)
    Div(String, Vec<Block>, Option<Attrs>),
    /// Heading(level, spans, blocks under the heading, attributes)
    Heading(HLevel, Vec<Span>, Vec<Block>, Option<Attrs>),
    /// Code(format, content, attributes)
    Code(Option<String>, String, Option<Attrs>),
    /// List(items, attributes)
    List(Vec<ListItem>, Option<Attrs>),
    /// Paragraph(spans, attributes)
    Paragraph(Vec<Span>, Option<Attrs>),
}

/// A list item: its index, its spans, and the list nested under it, if any.
#[derive(Debug, PartialEq, Eq)]
pub struct ListItem(pub Index, pub Vec<Span>, pub Option<Block>);

pub enum HLevelModel {
    DIV(Seq<char>),
    H1,
    H2,
    H3,
    H4,
    H5,
    H6,
}

pub enum BlockModel {
    Div(Seq<char>, Seq<BlockModel>, Option<AttrsModel>),
    Heading(HLevelModel, Seq<SpanModel>, Seq<BlockModel>, Option<AttrsModel>),
    Code(Option<Seq<char>>, Seq<char>, Option<AttrsModel>),
    List(Seq<ListItemModel>, Option<AttrsModel>),
    Paragraph(Seq<SpanModel>, Option<AttrsModel>),
}

pub struct ListItemModel {
    pub index: IndexModel,
    pub spans: Seq<SpanModel>,
    pub sub: Option<BlockModel>,
}

pub open spec fn hlevel_view(l: HLevel) -> HLevelModel {
    match l {
        HLevel::DIV(n) => HLevelModel::DIV(n@),
        HLevel::H1 => HLevelModel::H1,
        HLevel::H2 => HLevelModel::H2,
        HLevel::H3 => HLevelModel::H3,
        HLevel::H4 => HLevelModel::H4,
        HLevel::H5 => HLevelModel::H5,
        HLevel::H6 => HLevelModel::H6,
    }
}

pub open spec fn block_view(b: Block) -> BlockModel
    decreases b,
{
    match b {
        Block::Div(n, bs, a) => BlockModel::Div(n@, blocks_view(bs@), opt_attrs_view(a)),
        Block::Heading(l, ss, bs, a) => BlockModel::Heading(
            hlevel_view(l),
            spans_view(ss@),
            blocks_view(bs@),
            opt_attrs_view(a),
        ),
        Block::Code(f, c, a) => BlockModel::Code(opt_str_view(f), c@, opt_attrs_view(a)),
        Block::List(items, a) => BlockModel::List(items_view(items@), opt_attrs_view(a)),
        Block::Paragraph(ss, a) => BlockModel::Paragraph(spans_view(ss@), opt_attrs_view(a)),
    }
}

pub open spec fn blocks_view(bs: Seq<Block>) -> Seq<BlockModel>
    decreases bs,
{
    if bs.len() == 0 {
        Seq::empty()
    } else {
        blocks_view(bs.drop_last()).push(block_view(bs.last()))
    }
}

pub open spec fn item_view(li: ListItem) -> ListItemModel
    decreases li,
{
    ListItemModel {
        index: index_view(li.0),
        spans: spans_view(li.1@),
        sub: match li.2 {
            Some(b) => Some(block_view(b)),
            None => None,
        },
    }
}

pub open spec fn items_view(is: Seq<ListItem>) -> Seq<ListItemModel>
    decreases is,
{
    if is.len() == 0 {
        Seq::empty()
    } else {
        items_view(is.drop_last()).push(item_view(is.last()))
    }
}

pub proof fn lemma_blocks_view_push(bs: Seq<Block>, b: Block)
    ensures
        blocks_view(bs.push(b)) == blocks_view(bs).push(block_view(b)),
{
    assert(bs.push(b).drop_last() =~= bs);
}

pub proof fn lemma_items_view_push(is: Seq<ListItem>, li: ListItem)
    ensures
        items_view(is.push(li)) == items_view(is).push(item_view(li)),
{
    assert(is.push(li).drop_last() =~= is);
}

} // verus!
