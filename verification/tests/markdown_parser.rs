use markdown_blog::markdown_parser::MarkdownParser;
use markdown_blog::token::HtmlToken::Paragraph;
use markdown_blog::token::PhrasingHtmlContent::{Italic, Link, ParagraphPlainText};
use markdown_blog::token::Token;
use markdown_blog::token::Token::{Asterik, PlainText};

#[test]
fn markdown_parser_test_parse_paragraph_for_link() {
    let mut parser = MarkdownParser::new(vec![
        Token::SquareBracketOpen,
        Token::PlainText(b'a'),
        Token::SquareBracketClose,
        Token::CurveBracketOpen,
        Token::PlainText(b'h'),
        Token::PlainText(b't'),
        Token::CurveBracketClose,
    ]);

    let token = parser.parse_paragraph();
    let expected_token = Paragraph(vec![Link(vec![b'a'], vec![b'h', b't'])]);
    assert_eq!(token, expected_token);
}

#[test]
fn markdown_parser_test_parse_paragraph_for_incorrect_link_as_plain_text() {
    let mut parser = MarkdownParser::new(vec![
        Token::SquareBracketOpen,
        Token::PlainText(b'a'),
        Token::CurveBracketOpen,
        Token::PlainText(b'h'),
        Token::PlainText(b't'),
        Token::CurveBracketClose,
    ]);

    let token = parser.parse_paragraph();
    let expected_token =
        Paragraph(vec![ParagraphPlainText(vec![b'[', b'a', b'(', b'h', b't'])]);
    assert_eq!(token, expected_token);
}

#[test]
fn markdown_parser_test_parse_italic_correct() {
    let mut parser = MarkdownParser::new(vec![
        Asterik,
        PlainText(b' '),
        PlainText(b'a'),
        PlainText(b'b'),
        Asterik,
    ]);
    let token = parser.parse_paragraph();
    let expected_token = Paragraph(vec![Italic(vec![b' ', b'a', b'b'])]);
    assert_eq!(token, expected_token);
}

#[test]
fn markdown_parser_test_parse_italic_incorrect_parse_as_plain_text() {
    let mut parser = MarkdownParser::new(vec![
        Asterik,
        PlainText(b' '),
        PlainText(b'a'),
        PlainText(b'b'),
    ]);
    let token = parser.parse_paragraph();
    let expected_token = Paragraph(vec![ParagraphPlainText(vec![b'*', b' ', b'a', b'b'])]);
    assert_eq!(token, expected_token);
}

#[test]
fn markdown_parser_test_parse_italic_incorrect_parse_missing_close_as_plain_text() {
    let mut parser = MarkdownParser::new(vec![
        PlainText(b' '),
        PlainText(b'a'),
        PlainText(b'b'),
        Asterik,
    ]);
    let token = parser.parse_paragraph();
    let expected_token = Paragraph(vec![
        ParagraphPlainText(vec![b' ', b'a', b'b']),
        ParagraphPlainText(vec![b'*']),
    ]);
    assert_eq!(token, expected_token);
}
