use qwikmark::{
    contents, document, hashtags, htindex, span_with_attributes, Block, Enumerator, HLevel,
    HashTag, Index, ListItem, Span,
};

fn ast(input: &str) -> Vec<Block> {
    document(input).unwrap().blocks
}

fn t(s: &str) -> String {
    s.to_string()
}

fn text(s: &str) -> Span {
    Span::Text(t(s))
}

fn kv(pairs: &[(&str, &str)]) -> Option<Vec<(String, String)>> {
    Some(pairs.iter().map(|(k, v)| (k.to_string(), v.to_string())).collect())
}

fn strings(v: &[&str]) -> Vec<String> {
    v.iter().map(|s| s.to_string()).collect()
}

#[test]
fn attributes_keep_first_value_of_a_key() {
    assert_eq!(
        ast("x [[l]]{k=1 k=2 j=3}"),
        vec![Block::Paragraph(
            vec![text("x "), Span::Link(t("l"), false, vec![], kv(&[("k", "1"), ("j", "3")]))],
            None
        )]
    );
}

#[test]
fn attributes_given_twice_keep_the_later() {
    let once = span_with_attributes(Span::Strong(vec![text("x")], None), kv(&[("a", "1")]).unwrap());
    let twice = span_with_attributes(once, kv(&[("b", "2")]).unwrap());
    assert_eq!(twice, Span::Strong(vec![text("x")], kv(&[("b", "2")])));
}

#[test]
fn attributes_leave_plain_spans_unchanged() {
    assert_eq!(span_with_attributes(text("x"), kv(&[("a", "1")]).unwrap()), text("x"));
    assert_eq!(span_with_attributes(Span::EOM, kv(&[("a", "1")]).unwrap()), Span::EOM);
    assert_eq!(
        span_with_attributes(Span::Hash(t("h")), kv(&[("a", "1")]).unwrap()),
        Span::Hash(t("h"))
    );
}

#[test]
fn contents_of_joined_spans_are_joined_contents() {
    let a = vec![text("a"), Span::Strong(vec![text("b"), Span::Emphasis(vec![text("c")], None)], None)];
    let b = vec![Span::Link(t("loc"), false, vec![], None), Span::EOM, Span::NBWS(t(" "))];
    let ca = contents(a);
    let cb = contents(b);
    assert_eq!(ca, strings(&["a", "b", "c"]));
    assert_eq!(cb, strings(&["loc", " "]));
    let ab = vec![
        text("a"),
        Span::Strong(vec![text("b"), Span::Emphasis(vec![text("c")], None)], None),
        Span::Link(t("loc"), false, vec![], None),
        Span::EOM,
        Span::NBWS(t(" ")),
    ];
    let mut joined = ca.clone();
    joined.extend(cb);
    assert_eq!(contents(ab), joined);
}

#[test]
fn index_of_joined_tags_is_joined_index() {
    let a = vec![HashTag::Str(t("Ab")), HashTag::Space];
    let b = vec![HashTag::Num(-3), HashTag::Str(t("c"))];
    let mut ab = a.clone();
    ab.extend(b.clone());
    let ia = htindex(a);
    let ib = htindex(b);
    assert_eq!(ia, "ab-");
    assert_eq!(ib, "-3c");
    assert_eq!(htindex(ab), ia + &ib);
}

#[test]
fn hashtags_join_runs_and_drop_trailing_space() {
    let hts = hashtags(strings(&["Hello,   World!!"]));
    assert_eq!(hts, vec![HashTag::Str(t("hello")), HashTag::Space, HashTag::Str(t("world"))]);
    assert_eq!(htindex(hts), "hello-world");
}

#[test]
fn hashtags_across_texts() {
    let hts = hashtags(strings(&["ab", "CD ", " ", "7"]));
    assert_eq!(hts, vec![HashTag::Str(t("abcd")), HashTag::Space, HashTag::Num(7)]);
}

#[test]
fn hashtags_decimal_point_is_a_space() {
    let hts = hashtags(strings(&["1.5"]));
    assert_eq!(hts, vec![HashTag::Num(1), HashTag::Space, HashTag::Num(5)]);
    assert_eq!(htindex(hts), "1-5");
}

#[test]
fn hashtags_number_too_large_is_a_string() {
    let hts = hashtags(strings(&["99999999999999999999"]));
    assert_eq!(hts, vec![HashTag::Str(t("99999999999999999999"))]);
}

#[test]
fn hashtags_of_nothing() {
    assert_eq!(hashtags(vec![]), Vec::<HashTag>::new());
    assert_eq!(hashtags(strings(&["  ", "!"])), Vec::<HashTag>::new());
}

#[test]
fn htindex_lowercases_and_formats_numbers() {
    assert_eq!(
        htindex(vec![HashTag::Str(t("ABC")), HashTag::Space, HashTag::Num(-12), HashTag::Num(0)]),
        "abc--120"
    );
    assert_eq!(htindex(vec![HashTag::Str(t("ÄB"))]), "äb");
    assert_eq!(htindex(vec![]), "");
}

#[test]
fn hashtag_to_string() {
    assert_eq!(HashTag::Str(t("ABC")).to_string(), "ABC");
    assert_eq!(HashTag::Space.to_string(), "-");
    assert_eq!(HashTag::Num(-7).to_string(), "-7");
    assert_eq!(HashTag::Num(isize::MAX).to_string(), isize::MAX.to_string());
}

#[test]
fn texts_are_joined_between_other_spans() {
    assert_eq!(
        ast("a\\*b"),
        vec![Block::Paragraph(vec![text("a"), Span::Esc(t("*")), text("b")], None)]
    );
}

#[test]
fn headings_nest_by_level() {
    assert_eq!(
        ast("## a\n\n# b"),
        vec![
            Block::Heading(HLevel::H2, vec![text("a")], vec![], None),
            Block::Heading(HLevel::H1, vec![text("b")], vec![], None)
        ]
    );
    assert_eq!(
        ast("# a\n\n## b\n\n# c"),
        vec![
            Block::Heading(
                HLevel::H1,
                vec![text("a")],
                vec![Block::Heading(HLevel::H2, vec![text("b")], vec![], None)],
                None
            ),
            Block::Heading(HLevel::H1, vec![text("c")], vec![], None)
        ]
    );
}

#[test]
fn empty_documents() {
    assert_eq!(ast(""), vec![]);
    assert_eq!(ast("\n\n\r\n"), vec![]);
    let doc = document("x").unwrap();
    assert_eq!(doc.refs, None);
    assert_eq!(doc.tags, None);
}

#[test]
fn code_fence_too_long_is_verbatim() {
    let input = "`".repeat(17) + "x";
    assert_eq!(
        ast(&input),
        vec![Block::Paragraph(vec![Span::Verbatim(t("x"), None, None)], None)]
    );
}

#[test]
fn code_block_plain() {
    assert_eq!(ast("```\ncode\n```"), vec![Block::Code(None, t("code"), None)]);
    assert_eq!(ast("```\nunclosed"), vec![Block::Code(None, t("unclosed"), None)]);
}

#[test]
fn seven_hashes_are_text() {
    assert_eq!(ast("####### x"), vec![Block::Paragraph(vec![text("####### x")], None)]);
}

#[test]
fn unclosed_spans_run_to_the_end() {
    assert_eq!(
        ast("*a"),
        vec![Block::Paragraph(vec![Span::Strong(vec![text("a")], None)], None)]
    );
    assert_eq!(
        ast("[+a b"),
        vec![Block::Paragraph(vec![Span::Insert(vec![text("a b")], None)], None)]
    );
}

#[test]
fn backslash_at_end_is_text() {
    assert_eq!(ast("a\\"), vec![Block::Paragraph(vec![text("a\\")], None)]);
}

#[test]
fn non_ascii_text() {
    assert_eq!(ast("héllo wörld"), vec![Block::Paragraph(vec![text("héllo wörld")], None)]);
}

#[test]
fn verbatim_trims_unicode_white_space() {
    assert_eq!(
        ast("`` \u{a0}`x`\u{a0} `` y"),
        vec![Block::Paragraph(vec![Span::Verbatim(t("`x`"), None, None), text(" y")], None)]
    );
}

#[test]
fn open_paren_with_dot_is_no_list() {
    assert_eq!(ast("(a. x"), vec![Block::Paragraph(vec![text("(a. x")], None)]);
}

#[test]
fn task_with_ratio() {
    assert_eq!(
        ast("- [1:2] t"),
        vec![Block::List(vec![ListItem(Index::Task(t("1:2")), vec![text("t")], None)], None)]
    );
}

#[test]
fn mixed_unordered_markers() {
    assert_eq!(
        ast("* a\n+ b"),
        vec![Block::List(
            vec![
                ListItem(Index::Unordered(t("*")), vec![text("a")], None),
                ListItem(Index::Unordered(t("+")), vec![text("b")], None)
            ],
            None
        )]
    );
}

#[test]
fn ordered_digits() {
    assert_eq!(
        ast("1. one"),
        vec![Block::List(
            vec![ListItem(Index::Ordered(Enumerator::Digit(t("1"))), vec![text("one")], None)],
            None
        )]
    );
}

#[test]
fn div_closed_at_end_of_input() {
    assert_eq!(
        ast("::: d\n\npara\n\n:::"),
        vec![Block::Div(t("d"), vec![Block::Paragraph(vec![text("para")], None)], None)]
    );
}

#[test]
fn document_takes_in_the_whole_input() {
    assert_eq!(
        ast("a\n\n:::\n\nb"),
        vec![
            Block::Paragraph(vec![text("a")], None),
            Block::Paragraph(vec![text(":::")], None),
            Block::Paragraph(vec![text("b")], None)
        ]
    );
    assert_eq!(
        ast("### x\n\n## y\n\nz"),
        vec![
            Block::Heading(HLevel::H3, vec![text("x")], vec![], None),
            Block::Heading(
                HLevel::H2,
                vec![text("y")],
                vec![Block::Paragraph(vec![text("z")], None)],
                None
            )
        ]
    );
}

#[test]
fn heading_levels_are_ordered() {
    assert!(HLevel::DIV(t("d")) < HLevel::H1);
    assert!(HLevel::H1 < HLevel::H2);
    assert!(HLevel::H5 < HLevel::H6);
    assert_eq!(HLevel::H3.clone(), HLevel::H3);
}

#[test]
fn edge_span_closes_at_end_of_input() {
    assert_eq!(
        ast("*s*"),
        vec![Block::Paragraph(vec![Span::Strong(vec![text("s")], None)], None)]
    );
    assert_eq!(
        ast("l _e_"),
        vec![Block::Paragraph(vec![text("l "), Span::Emphasis(vec![text("e")], None)], None)]
    );
}

#[test]
fn hash_starts_only_at_an_edge() {
    assert_eq!(ast("a#b"), vec![Block::Paragraph(vec![text("a#b")], None)]);
    assert_eq!(
        ast("a #b"),
        vec![Block::Paragraph(vec![text("a "), Span::Hash(t("b"))], None)]
    );
}

#[test]
fn white_space_agrees_with_char_is_whitespace() {
    for n in 0u32..=0x10FFFF {
        if let Some(c) = char::from_u32(n) {
            assert_eq!(qwikmark::chars::is_white_space(c), c.is_whitespace(), "{:?}", c);
        }
    }
}

#[test]
fn two_plain_paragraphs() {
    assert_eq!(
        ast("ab cd\n\nef"),
        vec![
            Block::Paragraph(vec![text("ab cd")], None),
            Block::Paragraph(vec![text("ef")], None)
        ]
    );
}

#[test]
fn nested_spans_stop_at_end_of_mark_without_keeping_it() {
    assert_eq!(
        ast("[*a\n\nb"),
        vec![
            Block::Paragraph(vec![Span::Strong(vec![text("a")], None)], None),
            Block::Paragraph(vec![text("b")], None)
        ]
    );
}

#[test]
fn hashtags_read_texts_as_one_stream() {
    assert_eq!(hashtags(strings(&["ab", "cd 1"])), hashtags(strings(&["abcd 1"])));
    assert_eq!(hashtags(strings(&["x ", " y"])), hashtags(strings(&["x  y"])));
    assert_eq!(hashtags(strings(&["1", "2"])), vec![HashTag::Num(1), HashTag::Num(2)]);
    assert_eq!(hashtags(strings(&["12"])), vec![HashTag::Num(12)]);
}

#[test]
fn index_double_dash_only_before_digits() {
    assert_eq!(htindex(hashtags(strings(&["x -3"]))), "x--3");
    assert_eq!(
        htindex(hashtags(strings(&["x -99999999999999999999"]))),
        "x--99999999999999999999"
    );
    assert_eq!(htindex(hashtags(strings(&["a - b"]))), "a-b");
}

#[test]
fn hashtag_strings_are_lowercase_letters() {
    assert_eq!(
        hashtags(strings(&["Hello World 42"])),
        vec![
            HashTag::Str(t("hello")),
            HashTag::Space,
            HashTag::Str(t("world")),
            HashTag::Space,
            HashTag::Num(42)
        ]
    );
}

#[test]
fn numbers_format_in_decimal() {
    assert_eq!(HashTag::Num(0).to_string(), "0");
    assert_eq!(HashTag::Num(-45).to_string(), "-45");
    assert_eq!(HashTag::Num(isize::MIN).to_string(), format!("{}", isize::MIN));
    assert_eq!(HashTag::Num(isize::MAX).to_string(), format!("{}", isize::MAX));
    assert_eq!(htindex(vec![HashTag::Num(isize::MIN)]), format!("{}", isize::MIN));
}

#[test]
fn htindex_lowercases_ascii_and_unicode() {
    assert_eq!(htindex(vec![HashTag::Str(t("AbC"))]), "abc");
    assert_eq!(htindex(vec![HashTag::Str(t("ÄÖ"))]), "äö");
}

#[test]
fn spans_clone() {
    let sp = Span::Strong(
        vec![
            text("a"),
            Span::Link(t("l"), true, vec![Span::Emphasis(vec![text("e")], None)], kv(&[("k", "v")])),
            Span::Verbatim(t("v"), Some(t("f")), None),
            Span::EOM,
        ],
        kv(&[("x", "1"), ("y", "2")]),
    );
    assert_eq!(sp.clone(), sp);
}

#[test]
fn text_without_tag_characters_is_one_span() {
    let input = "Hello, World! (x) 1.5 = ok-go {a} | ]";
    assert_eq!(ast(input), vec![Block::Paragraph(vec![text(input)], None)]);
}

#[test]
fn numbers_at_the_edges_of_isize() {
    assert_eq!(
        hashtags(strings(&["9223372036854775807"])),
        vec![HashTag::Num(9223372036854775807)]
    );
    assert_eq!(
        hashtags(strings(&["-9223372036854775808"])),
        vec![HashTag::Space, HashTag::Num(isize::MIN)]
    );
    assert_eq!(
        hashtags(strings(&["9223372036854775808"])),
        vec![HashTag::Str(t("9223372036854775808"))]
    );
    assert_eq!(
        hashtags(strings(&["Ab 123456789012345678 cd"])),
        vec![
            HashTag::Str(t("ab")),
            HashTag::Space,
            HashTag::Num(123456789012345678),
            HashTag::Space,
            HashTag::Str(t("cd"))
        ]
    );
}
