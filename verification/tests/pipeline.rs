use markdown_blog::html_generator::generate_about_page;
use markdown_blog::html_parser::HtmlParser;
use markdown_blog::lexer::{tokenize, try_tokenize};
use markdown_blog::markdown_parser::MarkdownParser;
use markdown_blog::token::{
    HtmlToken, MarkdownHeaderToken, MarkdownToken, PhrasingHtmlContent, Token,
};

#[test]
fn ordinary_text_is_one_plain_text_token_per_byte() {
    let info = tokenize(b"Hello, world!".to_vec());
    let expected: Vec<MarkdownToken> = b"Hello, world!"
        .iter()
        .map(|b| MarkdownToken::PlainText(*b))
        .collect();
    assert_eq!(info.tokens, expected);
    assert!(info.front_matter.is_none());
}

#[test]
fn ordinary_text_becomes_one_paragraph() {
    let info = tokenize(b"just words".to_vec());
    let mut parser = HtmlParser::new(info.tokens);
    let nodes = parser.parse();
    assert_eq!(
        nodes,
        vec![HtmlToken::Paragraph(vec![PhrasingHtmlContent::ParagraphPlainText(
            b"just words".to_vec()
        )])]
    );
    let html = generate_about_page(nodes, "").unwrap();
    assert!(html.ends_with("<article><p>just words</p></article></body></html>"));
}

#[test]
fn header_and_paragraph_end_to_end() {
    let info = tokenize(b"# Title\nsome *em* and **bold** `code` [l](u)".to_vec());
    let mut parser = HtmlParser::new(info.tokens);
    let nodes = parser.parse();
    assert_eq!(
        nodes,
        vec![
            HtmlToken::Heading1(b"Title".to_vec()),
            HtmlToken::Paragraph(vec![
                PhrasingHtmlContent::ParagraphPlainText(b"some ".to_vec()),
                PhrasingHtmlContent::Italic(b"em".to_vec()),
                PhrasingHtmlContent::ParagraphPlainText(b" and ".to_vec()),
                PhrasingHtmlContent::Strong(b"bold".to_vec()),
                PhrasingHtmlContent::ParagraphPlainText(b" ".to_vec()),
                PhrasingHtmlContent::Code(b"code".to_vec()),
                PhrasingHtmlContent::ParagraphPlainText(b" ".to_vec()),
                PhrasingHtmlContent::Link(b"l".to_vec(), b"u".to_vec()),
            ]),
        ]
    );
}

#[test]
fn newlines_become_breaks_and_code_blocks_become_pre() {
    let info = tokenize(b"\n```rs\nlet x;\n```".to_vec());
    let mut parser = HtmlParser::new(info.tokens);
    assert_eq!(
        parser.parse(),
        vec![
            HtmlToken::Break,
            HtmlToken::Pre(PhrasingHtmlContent::Code(b"\nlet x;\n".to_vec())),
        ]
    );
}

#[test]
fn block_quote_keeps_no_text() {
    let info = tokenize(b"> quoted".to_vec());
    assert_eq!(info.tokens, vec![MarkdownToken::BlockQuote(b" quoted".to_vec())]);
    let mut parser = HtmlParser::new(info.tokens);
    assert_eq!(parser.parse(), vec![HtmlToken::BlockQuote(vec![])]);
}

#[test]
fn seven_hashes_are_refused() {
    assert!(try_tokenize(b"####### too deep".to_vec()).is_none());
    assert!(try_tokenize(b"text\n####### x".to_vec()).is_none());
    let info = try_tokenize(b"###### six".to_vec()).unwrap();
    assert_eq!(
        info.tokens,
        vec![MarkdownToken::Header(MarkdownHeaderToken::Header6(b"six".to_vec()))]
    );
}

#[test]
fn hashes_before_text_are_plain_text() {
    let info = tokenize(b"#######x".to_vec());
    assert_eq!(info.tokens[0], MarkdownToken::PlainText(b'#'));
    assert_eq!(info.tokens.len(), 8);
}

#[test]
fn header_at_end_of_input_is_empty() {
    let info = tokenize(b"##".to_vec());
    assert_eq!(
        info.tokens,
        vec![MarkdownToken::Header(MarkdownHeaderToken::Header2(vec![]))]
    );
}

#[test]
fn list_items_are_refused_by_the_parser() {
    let info = tokenize(b"\n- item".to_vec());
    assert_eq!(info.tokens[1], MarkdownToken::Dash);
    let mut parser = HtmlParser::new(info.tokens);
    assert!(parser.try_parse().is_none());
}

#[test]
fn stuck_emphasis_is_refused_by_the_parser() {
    let mut parser = HtmlParser::new(vec![
        MarkdownToken::PlainText(b'a'),
        MarkdownToken::Asterik,
        MarkdownToken::Newline,
    ]);
    assert!(parser.try_parse().is_none());
}

#[test]
fn try_parse_agrees_with_parse() {
    let tokens = tokenize(b"# a\nb *c*\n".to_vec()).tokens;
    let mut p1 = HtmlParser::new(tokens.clone());
    let mut p2 = HtmlParser::new(tokens);
    assert_eq!(p1.try_parse(), Some(p2.parse()));
}

#[test]
fn lone_trailing_asterisk_and_bracket_are_plain_text() {
    let mut parser = HtmlParser::new(vec![MarkdownToken::PlainText(b'x'), MarkdownToken::Asterik]);
    assert_eq!(
        parser.parse(),
        vec![HtmlToken::Paragraph(vec![
            PhrasingHtmlContent::ParagraphPlainText(b"x".to_vec()),
            PhrasingHtmlContent::ParagraphPlainText(b"*".to_vec()),
        ])]
    );
    let mut parser = HtmlParser::new(vec![MarkdownToken::SquareBracketOpen]);
    assert_eq!(
        parser.parse(),
        vec![HtmlToken::Paragraph(vec![PhrasingHtmlContent::ParagraphPlainText(
            b"[".to_vec()
        )])]
    );
}

#[test]
fn numbers_before_a_dot_are_number_tokens() {
    let info = tokenize(b"1. a 2".to_vec());
    assert_eq!(
        info.tokens,
        vec![
            MarkdownToken::Number(b'1'),
            MarkdownToken::PlainText(b' '),
            MarkdownToken::PlainText(b'a'),
            MarkdownToken::PlainText(b' '),
            MarkdownToken::PlainText(b'2'),
        ]
    );
}

#[test]
fn paragraph_contents_only_for_paragraphs() {
    let p = HtmlToken::Paragraph(vec![PhrasingHtmlContent::Break]);
    assert_eq!(p.get_paragraph_contents(), Some(vec![PhrasingHtmlContent::Break]));
    assert_eq!(HtmlToken::Break.get_paragraph_contents(), None);
    assert_eq!(HtmlToken::Heading1(vec![]).get_paragraph_contents(), None);
}

#[test]
fn tokens_stand_for_their_bytes() {
    assert_eq!(MarkdownToken::Newline.into_byte(), b'\n');
    assert_eq!(MarkdownToken::PlainText(b'q').into_byte(), b'q');
    assert_eq!(MarkdownToken::Number(b'7').into_byte(), b'7');
    assert_eq!(
        MarkdownToken::Header(MarkdownHeaderToken::Header3(vec![])).into_byte(),
        b'#'
    );
    assert_eq!(MarkdownToken::Dash.into_byte(), b'-');
    assert_eq!(MarkdownToken::Tab.into_byte(), b'\t');
}

#[test]
fn first_generation_parser_skips_newlines() {
    let mut parser = MarkdownParser::new(vec![
        Token::Header(markdown_blog::token::HeaderToken::Header2(b"h".to_vec())),
        Token::Newline,
        Token::PlainText(b'x'),
        Token::Code,
        Token::PlainText(b'c'),
        Token::Code,
    ]);
    assert_eq!(
        parser.parse(),
        vec![
            HtmlToken::Heading2(b"h".to_vec()),
            HtmlToken::Paragraph(vec![
                PhrasingHtmlContent::ParagraphPlainText(b"x".to_vec()),
                PhrasingHtmlContent::Code(b"c".to_vec()),
            ]),
        ]
    );
}

#[test]
fn header_line_is_one_token_then_the_rest() {
    let rest = b"a *b*\n- c".to_vec();
    let mut input = b"### Some title\n".to_vec();
    input.extend_from_slice(&rest);
    let mut expected = vec![MarkdownToken::Header(MarkdownHeaderToken::Header3(
        b"Some title".to_vec(),
    ))];
    expected.extend(tokenize(rest).tokens);
    assert_eq!(tokenize(input).tokens, expected);
}

#[test]
fn header_line_before_refused_rest_is_refused() {
    assert!(try_tokenize(b"# t\n####### x".to_vec()).is_none());
}

#[test]
fn tokens_give_back_their_bytes() {
    let input = b"a *b* [c](d)\n\te <f ! ".to_vec();
    let bytes: Vec<u8> = tokenize(input.clone())
        .tokens
        .into_iter()
        .map(|t| t.into_byte())
        .collect();
    assert_eq!(bytes, input);
}

#[test]
fn at_most_one_node_per_token_and_nothing_after() {
    let tokens = tokenize(b"# a\n\n```\nx\n```b\n> q\n*i*".to_vec()).tokens;
    let n = tokens.len();
    let mut parser = HtmlParser::new(tokens);
    let nodes = parser.parse();
    assert!(nodes.len() <= n);
    assert_eq!(parser.parse(), vec![]);
}

#[test]
fn cloned_nodes_are_equal() {
    let post = markdown_blog::token::BlogPost {
        title: "t".to_string(),
        date: 0,
        children: vec![
            HtmlToken::Article(vec![HtmlToken::Heading2(b"x".to_vec()), HtmlToken::Break]),
            HtmlToken::Paragraph(vec![PhrasingHtmlContent::Italic(b"i".to_vec())]),
        ],
    };
    assert_eq!(post.clone(), post);
}
