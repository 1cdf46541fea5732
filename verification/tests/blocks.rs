use qwikmark::{contents, document, hashtags, htindex, Block, Enumerator, HLevel, HashTag, Index, ListItem, Span};

fn ast(input: &str) -> Vec<Block> {
    let doc = document(input).unwrap();
    doc.blocks
}

fn t(s: &str) -> String {
    s.to_string()
}

fn kv(pairs: &[(&str, &str)]) -> Option<Vec<(String, String)>> {
    Some(pairs.iter().map(|(k, v)| (k.to_string(), v.to_string())).collect())
}

fn text(s: &str) -> Span {
    Span::Text(t(s))
}

fn item(index: Index, spans: Vec<Span>, sub: Option<Block>) -> ListItem {
    ListItem(index, spans, sub)
}

fn dash() -> Index {
    Index::Unordered(t("-"))
}

#[test]
fn test_block_paragraph_text_line_break() {
    assert_eq!(
        ast("line\\\n"),
        vec![Block::Paragraph(vec![text("line"), Span::LineBreak(t("\n"))], None)]
    );
}

#[test]
fn test_block_paragraph_nbsp() {
    assert_eq!(
        ast("left\\ right"),
        vec![Block::Paragraph(vec![text("left"), Span::NBWS(t(" ")), text("right")], None)]
    );
}

#[test]
fn test_block_paragraph_text_edge_text() {
    assert_eq!(
        ast("left *strong* right"),
        vec![Block::Paragraph(
            vec![text("left "), Span::Strong(vec![text("strong")], None), text(" right")],
            None
        )]
    );
}

#[test]
fn test_block_paragraph_text_edge_textedge_text() {
    assert_eq!(
        ast("l _*s* e_ r"),
        vec![Block::Paragraph(
            vec![
                text("l "),
                Span::Emphasis(vec![Span::Strong(vec![text("s")], None), text(" e")], None),
                text(" r")
            ],
            None
        )]
    );
}

#[test]
fn test_block_paragraph_text_edgetext_textedge_text() {
    assert_eq!(
        ast("l _e1 *s* e2_ r"),
        vec![Block::Paragraph(
            vec![
                text("l "),
                Span::Emphasis(
                    vec![text("e1 "), Span::Strong(vec![text("s")], None), text(" e2")],
                    None
                ),
                text(" r")
            ],
            None
        )]
    );
}

#[test]
fn test_block_paragraph_text_edge_edge_text() {
    assert_eq!(
        ast("l _*s*_ r"),
        vec![Block::Paragraph(
            vec![
                text("l "),
                Span::Emphasis(vec![Span::Strong(vec![text("s")], None)], None),
                text(" r")
            ],
            None
        )]
    );
}

#[test]
fn test_block_paragraph_text_verbatim_text() {
    assert_eq!(
        ast("left ``verbatim``=fmt right"),
        vec![Block::Paragraph(
            vec![text("left "), Span::Verbatim(t("verbatim"), Some(t("fmt")), None), text(" right")],
            None
        )]
    );
}

#[test]
fn test_block_paragraph_text_verbatim_newline() {
    assert_eq!(
        ast("left ``verbatim\n right"),
        vec![Block::Paragraph(
            vec![text("left "), Span::Verbatim(t("verbatim"), None, None), text(" right")],
            None
        )]
    );
}

#[test]
fn test_block_paragraph_text_verbatim_with_nonmatching_backtick() {
    assert_eq!(
        ast("left ``ver```batim``{format=fmt} right"),
        vec![Block::Paragraph(
            vec![
                text("left "),
                Span::Verbatim(t("ver```batim"), None, kv(&[("format", "fmt")])),
                text(" right")
            ],
            None
        )]
    );
}

#[test]
fn test_block_paragraph_text_verbatim_with_enclosing_backtick() {
    assert_eq!(
        ast("left `` `verbatim` `` right"),
        vec![Block::Paragraph(
            vec![text("left "), Span::Verbatim(t("`verbatim`"), None, None), text(" right")],
            None
        )]
    );
}

#[test]
fn test_block_paragraph_hash_empty_eom() {
    assert_eq!(ast("left #"), vec![Block::Paragraph(vec![text("left #")], None)]);
}

#[test]
fn test_block_paragraph_hash_empty_space() {
    assert_eq!(ast("left # "), vec![Block::Paragraph(vec![text("left # ")], None)]);
}

#[test]
fn test_block_paragraph_hash_field_eom() {
    assert_eq!(
        ast("left #hash"),
        vec![Block::Paragraph(vec![text("left "), Span::Hash(t("hash"))], None)]
    );
}

#[test]
fn test_block_paragraph_hash_field_newline() {
    assert_eq!(
        ast("left #hash 1 \nnext line"),
        vec![Block::Paragraph(
            vec![text("left "), Span::Hash(t("hash 1")), text("\nnext line")],
            None
        )]
    );
}

#[test]
fn test_block_paragraph_link_location() {
    assert_eq!(
        ast("left ![[loc]]"),
        vec![Block::Paragraph(vec![text("left "), Span::Link(t("loc"), true, vec![], None)], None)]
    );
}

#[test]
fn test_block_paragraph_link_with_location_and_text_super() {
    assert_eq!(
        ast("left [[loc|text^sup^]] right"),
        vec![Block::Paragraph(
            vec![
                text("left "),
                Span::Link(
                    t("loc"),
                    false,
                    vec![text("text"), Span::Superscript(vec![text("sup")], None)],
                    None
                ),
                text(" right")
            ],
            None
        )]
    );
}

#[test]
fn test_block_paragraph_link_with_location_and_span() {
    assert_eq!(
        ast("left ![[loc|text `verbatim`]] right"),
        vec![Block::Paragraph(
            vec![
                text("left "),
                Span::Link(
                    t("loc"),
                    true,
                    vec![text("text "), Span::Verbatim(t("verbatim"), None, None)],
                    None
                ),
                text(" right")
            ],
            None
        )]
    );
}

#[test]
fn test_block_paragraph_nested_spans() {
    assert_eq!(
        ast("text-left [*strong-left [_emphasis-center_]\t[+insert-left [^superscript-center^] insert-right+] strong-right*] text-right"),
        vec![Block::Paragraph(
            vec![
                text("text-left "),
                Span::Strong(
                    vec![
                        text("strong-left "),
                        Span::Emphasis(vec![text("emphasis-center")], None),
                        text("\t"),
                        Span::Insert(
                            vec![
                                text("insert-left "),
                                Span::Superscript(vec![text("superscript-center")], None),
                                text(" insert-right")
                            ],
                            None
                        ),
                        text(" strong-right")
                    ],
                    None
                ),
                text(" text-right")
            ],
            None
        )]
    );
}

#[test]
fn test_block_paragraph_link_attributes() {
    let doc = ast("left ![[loc]]{k1=v1 k_2=v_2}");
    assert_eq!(
        doc,
        vec![Block::Paragraph(
            vec![
                text("left "),
                Span::Link(t("loc"), true, vec![], kv(&[("k1", "v1"), ("k_2", "v_2")]))
            ],
            None
        )]
    );
}

#[test]
fn test_block_paragraph_link_multiline_attributes() {
    let doc = ast("left [[loc]]{k1=v1\n               k_2=v_2}");
    assert_eq!(
        doc,
        vec![Block::Paragraph(
            vec![
                text("left "),
                Span::Link(t("loc"), false, vec![], kv(&[("k1", "v1"), ("k_2", "v_2")])),
            ],
            None
        )]
    );
}

#[test]
fn test_block_paragraph_link_space_valued_attributes() {
    let doc = ast(r#"left [[loc]]{k1=v1 k_2=v\ 2}"#);
    assert_eq!(
        doc,
        vec![Block::Paragraph(
            vec![
                text("left "),
                Span::Link(t("loc"), false, vec![], kv(&[("k1", "v1"), ("k_2", r#"v\ 2"#)])),
            ],
            None
        )]
    );
}

#[test]
fn test_block_header_field_paragraph() {
    assert_eq!(
        ast("## [*strong heading*]"),
        vec![Block::Heading(
            HLevel::H2,
            vec![Span::Strong(vec![text("strong heading")], None)],
            vec![],
            None
        )]
    );
}

#[test]
fn test_block_header_field_paragraph_starting_text() {
    assert_eq!(
        ast("## header\nnext line [*strong*]\n\nnew paragraph"),
        vec![Block::Heading(
            HLevel::H2,
            vec![text("header\nnext line "), Span::Strong(vec![text("strong")], None)],
            vec![Block::Paragraph(vec![text("new paragraph")], None)],
            None
        )]
    );
}

#[test]
fn test_block_div_w_para_in_div_w_heading() {
    assert_eq!(
        ast("::: div1\n\n## [*strong heading*]\n\n::: div2\n\n  line"),
        vec![Block::Div(
            t("div1"),
            vec![Block::Heading(
                HLevel::H2,
                vec![Span::Strong(vec![text("strong heading")], None)],
                vec![Block::Div(
                    t("div2"),
                    vec![Block::Paragraph(vec![text("  line")], None)],
                    None
                )],
                None
            )],
            None
        )]
    );
}

#[test]
fn test_block_div_w_code() {
    assert_eq!(
        ast("::: div1\n\n```=code\nline1\n````\nline3\n```\n\n:::\n"),
        vec![Block::Div(
            t("div1"),
            vec![Block::Code(Some(t("code")), t("line1\n````\nline3"), None)],
            None
        )]
    );
}

#[test]
fn test_block_div_w_codeattrs() {
    assert_eq!(
        ast("::: div1\n\n{format=code}\n```=fmt\nline1\n````\nline3\n```\n\n:::\n"),
        vec![Block::Div(
            t("div1"),
            vec![Block::Code(Some(t("fmt")), t("line1\n````\nline3"), kv(&[("format", "code")]))],
            None,
        )]
    );
}

#[test]
fn test_block_div_para_attrs() {
    assert_eq!(
        ast("::: div1\n\n{format=code}\ntest paragraph"),
        vec![Block::Div(
            t("div1"),
            vec![Block::Paragraph(vec![text("test paragraph")], kv(&[("format", "code")]))],
            None
        )]
    );
}

fn nested_unordered(outer: Option<Vec<(String, String)>>, inner: Option<Vec<(String, String)>>) -> Vec<Block> {
    vec![Block::List(
        vec![
            item(dash(), vec![text("l1")], None),
            item(
                dash(),
                vec![text("l2")],
                Some(Block::List(
                    vec![
                        item(dash(), vec![text("l2,1")], None),
                        item(
                            dash(),
                            vec![text("l2,2")],
                            Some(Block::List(vec![item(dash(), vec![text("l2,2,1")], None)], None)),
                        ),
                        item(dash(), vec![text("l2,3")], None),
                    ],
                    inner,
                )),
            ),
            item(dash(), vec![text("l3")], None),
        ],
        outer,
    )]
}

#[test]
fn test_block_unordered_list() {
    assert_eq!(
        ast("- l1\n\n- l2\n\n  - l2,1\n\n  - l2,2\n\n    - l2,2,1\n\n  - l2,3\n\n- l3"),
        nested_unordered(None, None)
    );
}

#[test]
fn test_block_unordered_list_singleline_w_attrs() {
    assert_eq!(
        ast(r#"{k1=v1}
- l1
- l2
  {k2=v2}
  - l2,1
  - l2,2
    - l2,2,1
  - l2,3
- l3"#),
        nested_unordered(kv(&[("k1", "v1")]), kv(&[("k2", "v2")]))
    );
}

#[test]
fn test_block_unordered_list_singleline() {
    assert_eq!(
        ast("- l1\n- l2\n  - l2,1\n  - l2,2\n    - l2,2,1\n  - l2,3\n- l3"),
        nested_unordered(None, None)
    );
}

#[test]
fn test_block_ordered_list() {
    assert_eq!(
        ast("a) l1\n\n(B) l2\n\n  1. l2,1"),
        vec![Block::List(
            vec![
                item(Index::Ordered(Enumerator::Alpha(t("a"))), vec![text("l1")], None),
                item(
                    Index::Ordered(Enumerator::Alpha(t("B"))),
                    vec![text("l2")],
                    Some(Block::List(
                        vec![item(Index::Ordered(Enumerator::Digit(t("1"))), vec![text("l2,1")], None)],
                        None
                    ))
                )
            ],
            None
        )]
    )
}

#[test]
fn test_block_definition_list() {
    assert_eq!(
        ast(": ab\n  alpha\n\n: 12\n  digit\n\n  : iv\n    roman"),
        vec![Block::List(
            vec![
                item(Index::Definition(t("ab")), vec![text("\n  alpha")], None),
                item(
                    Index::Definition(t("12")),
                    vec![text("\n  digit")],
                    Some(Block::List(
                        vec![item(Index::Definition(t("iv")), vec![text("\n    roman")], None)],
                        None
                    ))
                )
            ],
            None
        )]
    )
}

#[test]
fn test_block_header_sigleline_unordered_list() {
    assert_eq!(
        ast("## [*strong heading*]\n- l1\n- l2"),
        vec![Block::Heading(
            HLevel::H2,
            vec![Span::Strong(vec![text("strong heading")], None)],
            vec![Block::List(
                vec![item(dash(), vec![text("l1")], None), item(dash(), vec![text("l2")], None)],
                None
            )],
            None
        )]
    )
}

#[test]
fn test_block_header_sigleline_span_not_list() {
    assert_eq!(
        ast("## [*strong heading\n  - l1*]\n  - l2"),
        vec![Block::Heading(
            HLevel::H2,
            vec![Span::Strong(vec![text("strong heading\n  - l1")], None), text("\n  - l2")],
            vec![],
            None
        )]
    )
}

#[test]
fn test_block_task_list() {
    assert_eq!(
        ast(": ab\n  - [ ] alpha"),
        vec![Block::List(
            vec![item(
                Index::Definition(t("ab")),
                vec![],
                Some(Block::List(vec![item(Index::Task(t(" ")), vec![text("alpha")], None)], None)),
            )],
            None
        )]
    )
}

fn para(s: &str) -> Block {
    Block::Paragraph(vec![text(s)], None)
}

#[test]
fn test_nested_divs_and_headers() {
    let doc = ast("# h1\n\ndoc > h1\n\n## h2a\n\ndoc > h1 > h2a\n\n::: d1\n\ndoc > h1 > h2a > d1\n\n### h3a\n\ndoc > h1 > h2a > d1 > h3a\n\n#### h4a\n\ndoc > h1 > h2a > d1 > h3a > h4a\n\n#### h4b\n\ndoc > h1 > h2a > d1 > h3a > h4b\n\n:::\n\ndoc > h1 > h2a\n\n### h3b\n\ndoc > h1 > h2a > h3b\n\n::: d2\ndoc > h1 > h2a > h3b > d2\n\n#### h4b\n\ndoc > h1 > h2a > h3b > d2 > h4b\n\n## h2a\n\ndoc > h1 > h2b\n\n:::\ndoc > h1 > h2b // No change\n");
    assert_eq!(
        doc,
        vec![Block::Heading(
            HLevel::H1,
            vec![text("h1")],
            vec![
                para("doc > h1"),
                Block::Heading(
                    HLevel::H2,
                    vec![text("h2a")],
                    vec![
                        para("doc > h1 > h2a"),
                        Block::Div(
                            t("d1"),
                            vec![
                                para("doc > h1 > h2a > d1"),
                                Block::Heading(
                                    HLevel::H3,
                                    vec![text("h3a")],
                                    vec![
                                        para("doc > h1 > h2a > d1 > h3a"),
                                        Block::Heading(
                                            HLevel::H4,
                                            vec![text("h4a")],
                                            vec![para("doc > h1 > h2a > d1 > h3a > h4a")],
                                            None
                                        ),
                                        Block::Heading(
                                            HLevel::H4,
                                            vec![text("h4b")],
                                            vec![para("doc > h1 > h2a > d1 > h3a > h4b")],
                                            None
                                        )
                                    ],
                                    None
                                )
                            ],
                            None
                        ),
                        para("doc > h1 > h2a"),
                        Block::Heading(
                            HLevel::H3,
                            vec![text("h3b")],
                            vec![
                                para("doc > h1 > h2a > h3b"),
                                Block::Div(
                                    t("d2"),
                                    vec![
                                        para("doc > h1 > h2a > h3b > d2"),
                                        Block::Heading(
                                            HLevel::H4,
                                            vec![text("h4b")],
                                            vec![para("doc > h1 > h2a > h3b > d2 > h4b")],
                                            None
                                        )
                                    ],
                                    None
                                )
                            ],
                            None
                        )
                    ],
                    None
                ),
                Block::Heading(
                    HLevel::H2,
                    vec![text("h2a")],
                    vec![para("doc > h1 > h2b"), para(":::\ndoc > h1 > h2b // No change\n")],
                    None
                )
            ],
            None
        )]
    );
}

#[test]
fn test_content_and_hashtag_index_of_block_paragraph_link_with_location_and_span() {
    let doc = ast("Left \\\n![[loc|text-32 `-32v` [*a[_B_]*]]] Right #Level 1 \n");
    assert_eq!(
        doc,
        vec![Block::Paragraph(
            vec![
                text("Left "),
                Span::LineBreak(t("\n")),
                Span::Link(
                    t("loc"),
                    true,
                    vec![
                        text("text-32 "),
                        Span::Verbatim(t("-32v"), None, None),
                        text(" "),
                        Span::Strong(
                            vec![text("a"), Span::Emphasis(vec![text("B"),], None)],
                            None
                        )
                    ],
                    None
                ),
                text(" Right "),
                Span::Hash(t("Level 1")),
                text("\n")
            ],
            None
        )]
    );
    if let Some(Block::Paragraph(ss, _)) = doc.into_iter().next() {
        let ts = contents(ss);
        assert_eq!(
            ts,
            vec!["Left ", "\n", "text-32 ", "-32v", " ", "a", "B", " Right ", "Level 1", "\n"]
        );
        let hts = hashtags(ts);
        assert_eq!(
            hts,
            vec![
                HashTag::Str("left".to_string()),
                HashTag::Space,
                HashTag::Str("text".to_string()),
                HashTag::Space,
                HashTag::Num(32),
                HashTag::Space,
                HashTag::Num(-32),
                HashTag::Str("v".to_string()),
                HashTag::Space,
                HashTag::Str("ab".to_string()),
                HashTag::Space,
                HashTag::Str("right".to_string()),
                HashTag::Space,
                HashTag::Str("level".to_string()),
                HashTag::Space,
                HashTag::Num(1)
            ]
        );
        let s = htindex(hts);
        assert_eq!(s, "left-text-32--32v-ab-right-level-1")
    } else {
        panic!("Not able to get span from paragragh within vector");
    }
}

#[test]
fn test_hashtag_index_of_block_heading_link_span() {
    let doc = ast("# ![[loc|Level 0]]");
    if let Some(Block::Heading(_, ss, _, _)) = doc.into_iter().next() {
        let ts = contents(ss);
        let hts = hashtags(ts);
        let s = htindex(hts);
        assert_eq!(s, "level-0");
    } else {
        panic!("Not able to get span from heading");
    }
}

#[test]
fn test_hashtag_index_of_block_heading_negative_digit_only() {
    let doc = ast("# -33-32 31 -30");
    if let Some(Block::Heading(_, ss, _, _)) = doc.into_iter().next() {
        let ts = contents(ss);
        let hts = hashtags(ts);
        let s = htindex(hts);
        assert_eq!(s, "--33-32-31--30");
    } else {
        panic!("Not able to get span from heading");
    }
}
