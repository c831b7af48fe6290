use markdown_blog::lexer::tokenize;
use markdown_blog::token::MarkdownToken::{
    BackTick, CodeBlock, CurveBracketClose, CurveBracketOpen, Dash, MultilineCode, Newline, Number,
    PlainText, Tab,
};
use markdown_blog::token::{MarkdownHeaderToken, MarkdownToken};

#[test]
fn tokenize_headers() {
    let input = "# Header 1
## a
### bc
#### d
##### e
###### 6"
        .as_bytes()
        .to_vec();

    let expected_output = vec![
        MarkdownToken::Header(MarkdownHeaderToken::Header1("Header 1".into())),
        MarkdownToken::Header(MarkdownHeaderToken::Header2("a".into())),
        MarkdownToken::Header(MarkdownHeaderToken::Header3("bc".into())),
        MarkdownToken::Header(MarkdownHeaderToken::Header4("d".into())),
        MarkdownToken::Header(MarkdownHeaderToken::Header5("e".into())),
        MarkdownToken::Header(MarkdownHeaderToken::Header6("6".into())),
    ];
    let info = tokenize(input);
    assert_eq!(info.tokens.len(), 6);
    assert_eq!(info.tokens, expected_output);
}

#[test]
fn tokenize_multiline_code() {
    let input = "```py
def foo()
```"
    .as_bytes()
    .to_vec();

    let expected_output = vec![
        MultilineCode(vec![b'p', b'y']),
        CodeBlock(vec![
            b'\n', b'd', b'e', b'f', b' ', b'f', b'o', b'o', b'(', b')', b'\n',
        ]),
        MultilineCode(vec![]),
    ];
    let info = tokenize(input);
    assert_eq!(info.tokens.len(), 3);
    assert_eq!(info.tokens, expected_output);
}

#[test]
fn tokenize_multiline_code_no_language_marker() {
    let input = "```
a
```"
    .as_bytes()
    .to_vec();

    let expected_output = vec![
        MultilineCode(vec![]),
        CodeBlock(vec![b'\n', b'a', b'\n']),
        MultilineCode(vec![]),
    ];
    let info = tokenize(input);
    assert_eq!(info.tokens.len(), 3);
    assert_eq!(info.tokens, expected_output);
}

#[test]
fn tokenize_incomplete_multiline_code() {
    let input = "```py
def("
    .as_bytes()
    .to_vec();

    let expected_output = vec![
        PlainText(b'`'),
        PlainText(b'`'),
        PlainText(b'`'),
        PlainText(b'p'),
        PlainText(b'y'),
        PlainText(b'\n'),
        PlainText(b'd'),
        PlainText(b'e'),
        PlainText(b'f'),
        PlainText(b'('),
    ];
    let info = tokenize(input);
    assert_eq!(info.tokens.len(), 10);
    assert_eq!(info.tokens, expected_output);
}

#[test]
fn tokenize_single_line_code() {
    let input = "`()`".as_bytes().to_vec();
    let expected_output = vec![BackTick, CurveBracketOpen, CurveBracketClose, BackTick];
    let info = tokenize(input);
    assert_eq!(info.tokens.len(), 4);
    assert_eq!(info.tokens, expected_output);
}

#[test]
fn tokenize_single_line_blockquote() {
    let input = ">  a q!".as_bytes().to_vec();

    let expected_output = vec![MarkdownToken::BlockQuote(vec![
        b' ', b' ', b'a', b' ', b'q', b'!',
    ])];
    let info = tokenize(input);
    assert_eq!(info.tokens.len(), 1);
    assert_eq!(info.tokens, expected_output);
}

#[test]
fn tokenize_multi_line_blockquote() {
    let input = ">abc
>def
"
    .as_bytes()
    .to_vec();

    let expected_output = vec![
        MarkdownToken::BlockQuote(vec![b'a', b'b', b'c']),
        MarkdownToken::BlockQuote(vec![b'd', b'e', b'f']),
    ];
    let info = tokenize(input);
    assert_eq!(info.tokens.len(), 2);
    assert_eq!(info.tokens, expected_output);
}

#[test]
fn tokenize_invalid_headers_as_plain_text() {
    let input = "#H 1".as_bytes().to_vec();

    let expected_output = vec![
        PlainText(b'#'),
        PlainText(b'H'),
        PlainText(b' '),
        PlainText(b'1'),
    ];
    let info = tokenize(input);
    assert_eq!(info.tokens.len(), 4);
    assert_eq!(info.tokens, expected_output);
}

#[test]
fn tokenize_numbered_list() {
    let input = "1. h\
    2.e"
    .as_bytes()
    .to_vec();
    let expected_output = vec![
        Number(b'1'),
        PlainText(b' '),
        PlainText(b'h'),
        Number(b'2'),
        PlainText(b'e'),
    ];
    let info = tokenize(input);
    assert_eq!(info.tokens.len(), 5);
    assert_eq!(info.tokens, expected_output);
}

#[test]
fn tokenize_unordered_list() {
    let input = "\n- y\n- n".as_bytes().to_vec();
    let expected_output = vec![
        Newline,
        Dash,
        PlainText(b'y'),
        Newline,
        Dash,
        PlainText(b'n'),
    ];
    let info = tokenize(input);
    assert_eq!(info.tokens.len(), 6);
    assert_eq!(info.tokens, expected_output);
}

#[test]
fn tokenize_unordered_list_with_child_list() {
    let input = "\n- y\n\t- n".as_bytes().to_vec();
    let expected_output = vec![
        Newline,
        Dash,
        PlainText(b'y'),
        Newline,
        Tab,
        Dash,
        PlainText(b'n'),
    ];
    let info = tokenize(input);
    assert_eq!(info.tokens.len(), 7);
    assert_eq!(info.tokens, expected_output);
}
