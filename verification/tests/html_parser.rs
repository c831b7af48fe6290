use markdown_blog::html_parser::HtmlParser;
use markdown_blog::token::HtmlToken::Paragraph;
use markdown_blog::token::MarkdownToken::{
    Asterik, CodeBlock, CurveBracketClose, CurveBracketOpen, MultilineCode, PlainText,
    SquareBracketClose, SquareBracketOpen,
};
use markdown_blog::token::PhrasingHtmlContent::{Code, Italic, Link, ParagraphPlainText};
use markdown_blog::token::{HtmlToken, PhrasingHtmlContent};

#[test]
fn html_parser_test_parse_paragraph_for_link() {
    let mut parser = HtmlParser::new(vec![
        SquareBracketOpen,
        PlainText(b'a'),
        SquareBracketClose,
        CurveBracketOpen,
        PlainText(b'h'),
        PlainText(b't'),
        CurveBracketClose,
    ]);

    let token = parser.parse_paragraph();
    let expected_token = Paragraph(vec![Link(vec![b'a'], vec![b'h', b't'])]);
    assert_eq!(token, expected_token);
}

#[test]
fn html_parser_test_parse_paragraph_for_incorrect_link_as_plain_text() {
    let mut parser = HtmlParser::new(vec![
        SquareBracketOpen,
        PlainText(b'a'),
        CurveBracketOpen,
        PlainText(b'h'),
        PlainText(b't'),
        CurveBracketClose,
    ]);

    let token = parser.parse_paragraph();
    let expected_token =
        Paragraph(vec![ParagraphPlainText(vec![b'[', b'a', b'(', b'h', b't'])]);
    assert_eq!(token, expected_token);
}

#[test]
fn test_parse_bold_correct() {
    let mut parser = HtmlParser::new(vec![
        Asterik,
        Asterik,
        PlainText(b'a'),
        Asterik,
        Asterik,
    ]);
    let token = parser.parse_paragraph();
    let expected_token = Paragraph(vec![PhrasingHtmlContent::Strong(vec![b'a'])]);
    assert_eq!(token, expected_token);
}

#[test]
fn html_parser_test_parse_italic_correct() {
    let mut parser = HtmlParser::new(vec![
        Asterik,
        PlainText(b' '),
        PlainText(b'a'),
        PlainText(b'b'),
        Asterik,
    ]);
    let token = parser.parse_paragraph();
    let expected_token = Paragraph(vec![Italic(vec![b' ', b'a', b'b'])]);
    assert_eq!(token, expected_token);
}

#[test]
fn html_parser_test_parse_italic_incorrect_parse_as_plain_text() {
    let mut parser = HtmlParser::new(vec![
        Asterik,
        PlainText(b' '),
        PlainText(b'a'),
        PlainText(b'b'),
    ]);
    let token = parser.parse_paragraph();
    let expected_token = Paragraph(vec![ParagraphPlainText(vec![b'*', b' ', b'a', b'b'])]);
    assert_eq!(token, expected_token);
}

#[test]
fn html_parser_test_parse_italic_incorrect_parse_missing_close_as_plain_text() {
    let mut parser = HtmlParser::new(vec![
        PlainText(b' '),
        PlainText(b'a'),
        PlainText(b'b'),
        Asterik,
    ]);
    let token = parser.parse_paragraph();
    let expected_token = Paragraph(vec![
        ParagraphPlainText(vec![b' ', b'a', b'b']),
        ParagraphPlainText(vec![b'*']),
    ]);
    assert_eq!(token, expected_token);
}

#[test]
fn test_multiline_code_block_correct() {
    let mut parser = HtmlParser::new(vec![
        MultilineCode(vec![]),
        CodeBlock(vec![b'd', b'(', b')', b'\t', b']']),
        MultilineCode(vec![]),
    ]);

    let token = parser.parse();
    let expected_token = vec![HtmlToken::Pre(Code(vec![b'd', b'(', b')', b'\t', b']']))];
    assert_eq!(token, expected_token);
}
