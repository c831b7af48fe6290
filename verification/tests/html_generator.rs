use build_html::Html;
use markdown_blog::html_generator::{
    generate_about_page, generate_article, generate_home_page, generate_page, GenerateError,
};
use markdown_blog::token::{BlogPost, BlogPostMeta, HtmlToken, OrderedListItem, PhrasingHtmlContent};

const STYLE: &str = "body{margin:0}";

fn frame() -> String {
    "<!DOCTYPE html><html><head>\
<meta charset=\"utf-8\">\
<meta description=\"Personal Blog for Software and among other things - Full-Stack Software Engineer / Developer based in Singapore\">\
<title>onefangg blog</title>\
<style>body{margin:0}</style>\
</head><body>\
<meta name=\"viewport\" content=\"width=device-width, initial-scale=1.0\">\
<nav class=\"navbar\"><ul>\
<li><a href=\"./index.html\">Home</a></li>\
<li><a href=\"./about.html\">About</a></li>\
</ul></nav>"
        .to_string()
}

fn page(body: &str) -> String {
    format!("{}{}</body></html>", frame(), body)
}

// 2023-03-17T12:55:00Z
const DATE: i64 = 1679057700;

#[test]
fn about_page_renders_every_kind_of_node() {
    let nodes = vec![
        HtmlToken::Heading1(b"One".to_vec()),
        HtmlToken::Heading2(b"Two".to_vec()),
        HtmlToken::Heading3(b"Three".to_vec()),
        HtmlToken::Heading4(b"Four".to_vec()),
        HtmlToken::Heading5(b"Five".to_vec()),
        HtmlToken::Heading6(b"Six".to_vec()),
        HtmlToken::Paragraph(vec![
            PhrasingHtmlContent::ParagraphPlainText(b"a ".to_vec()),
            PhrasingHtmlContent::Strong(b"b".to_vec()),
            PhrasingHtmlContent::Italic(b"c".to_vec()),
            PhrasingHtmlContent::Code(b"d()".to_vec()),
            PhrasingHtmlContent::Link(b"e".to_vec(), b"http://f".to_vec()),
            PhrasingHtmlContent::Break,
        ]),
        HtmlToken::BlockQuote(vec![PhrasingHtmlContent::ParagraphPlainText(b"q".to_vec())]),
        HtmlToken::Pre(PhrasingHtmlContent::Code(b"x = 1".to_vec())),
    ];
    let expected = page(
        "<article>\
<h1>One</h1><h2>Two</h2><h3>Three</h3><h4>Four</h4><h5>Five</h5><h6>Six</h6>\
<p>a <strong>b</strong><i>c</i><code class=\"code-block\">d()</code><a href=\"http://f\">e</a><br/></p>\
<blockquote>q</blockquote>\
<pre><code class=\"code-block\">x = 1</code></pre>\
</article>",
    );
    assert_eq!(generate_about_page(nodes, STYLE), Ok(expected));
}

#[test]
fn about_page_of_no_nodes_has_an_empty_article() {
    assert_eq!(generate_about_page(vec![], STYLE), Ok(page("<article/>")));
}

#[test]
fn silent_nodes_add_nothing() {
    let with = vec![
        HtmlToken::Break,
        HtmlToken::Heading1(b"T".to_vec()),
        HtmlToken::Article(vec![HtmlToken::Heading1(b"inner".to_vec())]),
        HtmlToken::OrderedList(vec![OrderedListItem {
            order: 1,
            content: vec![PhrasingHtmlContent::ParagraphPlainText(b"item".to_vec())],
        }]),
        HtmlToken::Break,
    ];
    let without = vec![HtmlToken::Heading1(b"T".to_vec())];
    assert_eq!(
        generate_about_page(with, STYLE),
        generate_about_page(without, STYLE)
    );
}

#[test]
fn invalid_utf8_is_refused() {
    assert_eq!(
        generate_about_page(vec![HtmlToken::Heading1(vec![0xff])], STYLE),
        Err(GenerateError::InvalidUtf8)
    );
    assert_eq!(
        generate_about_page(
            vec![HtmlToken::Paragraph(vec![PhrasingHtmlContent::Link(
                b"ok".to_vec(),
                vec![0xc3]
            )])],
            STYLE
        ),
        Err(GenerateError::InvalidUtf8)
    );
    let post = BlogPost {
        title: "t".to_string(),
        date: DATE,
        children: vec![HtmlToken::Pre(PhrasingHtmlContent::Code(vec![0x80]))],
    };
    assert_eq!(generate_page(post, STYLE), Err(GenerateError::InvalidUtf8));
}

#[test]
fn post_page_has_header_then_article() {
    let post = BlogPost {
        title: "My post".to_string(),
        date: DATE,
        children: vec![HtmlToken::Paragraph(vec![
            PhrasingHtmlContent::ParagraphPlainText("héllo".as_bytes().to_vec()),
        ])],
    };
    let expected = page(
        "<header><h1>My post</h1><p>Updated: 17 Mar 2023 - 12:55:00</p></header>\
<article><p>héllo</p></article>",
    );
    assert_eq!(generate_page(post, STYLE), Ok(expected));
}

#[test]
fn home_page_lists_posts_in_order() {
    let posts = vec![
        BlogPostMeta {
            title: "First".to_string(),
            date: DATE,
            link: "post_0.html".to_string(),
        },
        BlogPostMeta {
            title: "Second".to_string(),
            date: 0,
            link: "post_1.html".to_string(),
        },
    ];
    let expected = page(
        "<div class=\"post-container\">\
<a href=\"post_0.html\" class=\"post-link\"><h1>First</h1><p>17 Mar 2023</p></a>\
<a href=\"post_1.html\" class=\"post-link\"><h1>Second</h1><p>01 Jan 1970</p></a>\
</div>",
    );
    assert_eq!(generate_home_page(posts, STYLE), Ok(expected));
}

#[test]
fn home_page_without_posts_has_an_empty_container() {
    assert_eq!(
        generate_home_page(vec![], STYLE),
        Ok(page("<div class=\"post-container\"/>"))
    );
}

#[test]
fn article_ignores_breaks_and_nested_articles() {
    let plain = vec![
        HtmlToken::Heading1(b"A".to_vec()),
        HtmlToken::Paragraph(vec![PhrasingHtmlContent::ParagraphPlainText(b"b".to_vec())]),
    ];
    let noisy = vec![
        HtmlToken::Heading1(b"A".to_vec()),
        HtmlToken::Break,
        HtmlToken::Article(vec![HtmlToken::Heading1(vec![0xff])]),
        HtmlToken::Paragraph(vec![PhrasingHtmlContent::ParagraphPlainText(b"b".to_vec())]),
    ];
    let a = generate_article(&plain).unwrap().to_html_string();
    let b = generate_article(&noisy).unwrap().to_html_string();
    assert_eq!(a, "<article><h1>A</h1><p>b</p></article>");
    assert_eq!(a, b);
    assert_eq!(
        generate_article(&vec![HtmlToken::Break, HtmlToken::Heading1(vec![0xff])]).err(),
        Some(GenerateError::InvalidUtf8)
    );
}
