//! Renders parsed posts into HTML pages with `build_html`.

use vstd::prelude::*;

use build_html::{HtmlElement, HtmlPage};

use crate::dates::{format_timestamp, formatted_timestamp, timestamp_in_range};
use crate::html_builder::{
    element_add_attribute, element_add_child, element_attributes, element_children,
    element_markup, element_new, element_tag, meta_markup, page_add_element, page_add_meta,
    page_add_raw, page_add_style, page_add_title, page_body, page_head, page_markup, page_new,
    page_to_string, render_element, style_markup, title_markup, Child,
    page_is_html5,
};
use crate::html_parser::{document, items_of, plain_text_is_one_paragraph};
use crate::lexer::{is_ordinary_byte, lex, ordinary_text_lexes_as_plain_text};
use crate::text::{text_of, utf8_string};
use crate::token::{
    html_nodes, phrs, BlogPost, BlogPostMeta, HtmlNode, HtmlToken, Phr, PhrasingHtmlContent,
};

verus! {

/// Why a page could not be rendered.
#[derive(Debug, PartialEq, Eq, Structural)]
pub enum GenerateError {
    /// Some text of the post is not valid UTF-8.
    InvalidUtf8,
}

// ---------------------------------------------------------------------------
// Specification of the rendering
// ---------------------------------------------------------------------------

/// An element with no attributes and one text child.
pub open spec fn text_element(tag: Seq<char>, text: Seq<char>) -> Seq<char> {
    render_element(tag, Seq::empty(), seq![text])
}

/// The markup that an inline content adds to its parent, or `None` when its
/// text is not UTF-8.
pub open spec fn phr_markup(p: Phr) -> Option<Seq<char>> {
    match p {
        Phr::PlainText(b) => text_of(b),
        Phr::Strong(b) => match text_of(b) {
            Some(t) => Some(text_element("strong"@, t)),
            None => None,
        },
        Phr::Italic(b) => match text_of(b) {
            Some(t) => Some(text_element("i"@, t)),
            None => None,
        },
        Phr::Code(b) => match text_of(b) {
            Some(t) => Some(render_element("code"@, seq![("class"@, "code-block"@)], seq![t])),
            None => None,
        },
        Phr::Link(text, url) => match (text_of(text), text_of(url)) {
            (Some(t), Some(u)) => Some(render_element("a"@, seq![("href"@, u)], seq![t])),
            _ => None,
        },
        Phr::Break => Some(render_element("br"@, Seq::empty(), Seq::empty())),
    }
}

/// The markups of a list of inline contents, or `None` when one of them is
/// not UTF-8.
pub open spec fn phrs_markup(c: Seq<Phr>) -> Option<Seq<Seq<char>>>
    decreases c.len(),
{
    if c.len() == 0 {
        Some(Seq::empty())
    } else {
        match (phrs_markup(c.drop_last()), phr_markup(c.last())) {
            (Some(a), Some(m)) => Some(a.push(m)),
            _ => None,
        }
    }
}

/// The tag of a heading of the given level.
pub open spec fn heading_tag(level: int) -> Seq<char> {
    if level == 1 {
        "h1"@
    } else if level == 2 {
        "h2"@
    } else if level == 3 {
        "h3"@
    } else if level == 4 {
        "h4"@
    } else if level == 5 {
        "h5"@
    } else {
        "h6"@
    }
}

/// An element with the given inline contents as children.
pub open spec fn block_markup(tag: Seq<char>, c: Seq<Phr>) -> Option<Seq<char>> {
    match phrs_markup(c) {
        Some(ms) => Some(render_element(tag, Seq::empty(), ms)),
        None => None,
    }
}

/// The children that an HTML node adds to an article (none for line breaks,
/// nested articles and ordered lists), or `None` when some text of it is not
/// UTF-8.
pub open spec fn node_markup(n: HtmlNode) -> Option<Seq<Seq<char>>> {
    match n {
        HtmlNode::Heading(l, b) => match text_of(b) {
            Some(t) => Some(seq![text_element(heading_tag(l), t)]),
            None => None,
        },
        HtmlNode::Paragraph(c) => match block_markup("p"@, c) {
            Some(m) => Some(seq![m]),
            None => None,
        },
        HtmlNode::BlockQuote(c) => match block_markup("blockquote"@, c) {
            Some(m) => Some(seq![m]),
            None => None,
        },
        HtmlNode::Pre(p) => match phr_markup(p) {
            Some(m) => Some(seq![render_element("pre"@, Seq::empty(), seq![m])]),
            None => None,
        },
        _ => Some(Seq::empty()),
    }
}

/// The children of the article for the given nodes, or `None` when some
/// text is not UTF-8.
pub open spec fn article_children(nodes: Seq<HtmlNode>) -> Option<Seq<Seq<char>>>
    decreases nodes.len(),
{
    if nodes.len() == 0 {
        Some(Seq::empty())
    } else {
        match (article_children(nodes.drop_last()), node_markup(nodes.last())) {
            (Some(a), Some(m)) => Some(a + m),
            _ => None,
        }
    }
}

/// The `<article>` for the given nodes, or `None` when some text is not
/// UTF-8.
pub open spec fn article_markup(nodes: Seq<HtmlNode>) -> Option<Seq<char>> {
    match article_children(nodes) {
        Some(c) => Some(render_element("article"@, Seq::empty(), c)),
        None => None,
    }
}

/// A list entry holding one link.
pub open spec fn nav_entry(href: Seq<char>, label: Seq<char>) -> Seq<char> {
    render_element(
        "li"@,
        Seq::empty(),
        seq![render_element("a"@, seq![("href"@, href)], seq![label])],
    )
}

/// The navigation bar: links to the home page and to the about page.
pub open spec fn navbar_markup() -> Seq<char> {
    render_element(
        "nav"@,
        seq![("class"@, "navbar"@)],
        seq![
            render_element(
                "ul"@,
                Seq::empty(),
                seq![nav_entry("./index.html"@, "Home"@), nav_entry("./about.html"@, "About"@)],
            ),
        ],
    )
}

/// The head every page shares: the character set, the description, the
/// title and the style sheet.
pub open spec fn base_head(style: Seq<char>) -> Seq<char> {
    meta_markup("charset"@, "utf-8"@) + meta_markup(
        "description"@,
        "Personal Blog for Software and among other things - Full-Stack Software Engineer / Developer based in Singapore"@,
    ) + title_markup("onefangg blog"@) + style_markup(style)
}

/// The start of the body every page shares: the viewport tag and the
/// navigation bar.
pub open spec fn base_body() -> Seq<char> {
    "<meta name=\"viewport\" content=\"width=device-width, initial-scale=1.0\">"@ + navbar_markup()
}

/// The header of a post: its title and the date it was updated.
pub open spec fn header_markup(title: Seq<char>, date: i64) -> Seq<char> {
    render_element(
        "header"@,
        Seq::empty(),
        seq![
            text_element("h1"@, title),
            text_element("p"@, "Updated: "@ + formatted_timestamp(date, "%d %b %Y - %H:%M:%S"@)),
        ],
    )
}

/// The entry of the home page for one post: a link holding its title and
/// its date.
pub open spec fn post_link_markup(title: Seq<char>, date: i64, link: Seq<char>) -> Seq<char> {
    render_element(
        "a"@,
        seq![("href"@, link), ("class"@, "post-link"@)],
        seq![text_element("h1"@, title), text_element("p"@, formatted_timestamp(date, "%d %b %Y"@))],
    )
}

/// The entries of the home page, in the order of the posts.
pub open spec fn post_links(posts: Seq<BlogPostMeta>) -> Seq<Seq<char>> {
    posts.map_values(|p: BlogPostMeta| post_link_markup(p.title@, p.date, p.link@))
}

/// Every post's date lies within chrono's range.
pub open spec fn dates_in_range(posts: Seq<BlogPostMeta>) -> bool {
    forall|i: int| 0 <= i < posts.len() ==> timestamp_in_range(#[trigger] posts[i].date)
}

// ---------------------------------------------------------------------------
// Lemmas
// ---------------------------------------------------------------------------

/// Once a prefix of the contents fails, every longer prefix fails.
proof fn lemma_phrs_markup_fails(c: Seq<Phr>, i: int)
    requires
        0 <= i <= c.len(),
        phrs_markup(c.take(i)) is None,
    ensures
        phrs_markup(c) is None,
    decreases c.len() - i,
{
    if i < c.len() {
        assert(c.take(i + 1).drop_last() =~= c.take(i));
        lemma_phrs_markup_fails(c, i + 1);
    } else {
        assert(c.take(i) =~= c);
    }
}

/// Once a prefix of the nodes fails, every longer prefix fails.
proof fn lemma_article_children_fails(n: Seq<HtmlNode>, i: int)
    requires
        0 <= i <= n.len(),
        article_children(n.take(i)) is None,
    ensures
        article_children(n) is None,
    decreases n.len() - i,
{
    if i < n.len() {
        assert(n.take(i + 1).drop_last() =~= n.take(i));
        lemma_article_children_fails(n, i + 1);
    } else {
        assert(n.take(i) =~= n);
    }
}

/// Each inline content adds its own markup, in order, with nothing skipped
/// or merged: the contents render exactly when each of them does, and then
/// the `i`-th child is the markup of the `i`-th content.
pub proof fn each_inline_adds_its_own_markup(c: Seq<Phr>)
    ensures
        phrs_markup(c) is Some <==> forall|i: int|
            0 <= i < c.len() ==> #[trigger] phr_markup(c[i]) is Some,
        phrs_markup(c) is Some ==> phrs_markup(c)->0.len() == c.len() && forall|i: int|
            0 <= i < c.len() ==> phrs_markup(c)->0[i] == #[trigger] phr_markup(c[i])->0,
    decreases c.len(),
{
    if c.len() > 0 {
        let d = c.drop_last();
        each_inline_adds_its_own_markup(d);
        assert forall|i: int| 0 <= i < d.len() implies d[i] == c[i] by {}
        if phrs_markup(c) is Some {
            let ms = phrs_markup(c)->0;
            assert forall|i: int| 0 <= i < c.len() implies #[trigger] phr_markup(c[i]) is Some
                && ms[i] == phr_markup(c[i])->0 by {
                if i < c.len() - 1 {
                    assert(d[i] == c[i]);
                    assert(phr_markup(d[i]) is Some);
                }
            }
        } else {
            if forall|i: int| 0 <= i < c.len() ==> #[trigger] phr_markup(c[i]) is Some {
                assert forall|i: int| 0 <= i < d.len() implies #[trigger] phr_markup(d[i]) is Some by {
                    assert(d[i] == c[i]);
                    assert(phr_markup(c[i]) is Some);
                }
                assert(phr_markup(c[c.len() - 1]) is Some);
                assert(false);
            }
        }
    }
}

/// The start of every page: the doctype, the shared head and the start of
/// the shared body.
pub open spec fn page_frame(style: Seq<char>) -> Seq<char> {
    "<!DOCTYPE html><html><head>"@ + base_head(style) + "</head><body>"@ + base_body()
}

/// Every page opens with the same frame: a page whose body is the shared
/// start followed by `x` is the frame, then `x`, then the closing tags.
pub proof fn pages_share_frame(style: Seq<char>, x: Seq<char>)
    ensures
        page_markup(base_head(style), base_body() + x) == page_frame(style) + x
            + "</body></html>"@,
{
    assert(page_markup(base_head(style), base_body() + x) =~= page_frame(style) + x
        + "</body></html>"@);
}

/// Each run of nodes adds its own children to the article: the children for
/// two runs, one after the other, are those of the first run followed by
/// those of the second (and none where either run fails).
pub proof fn lemma_article_children_concat(x: Seq<HtmlNode>, y: Seq<HtmlNode>)
    ensures
        article_children(x + y) == (match (article_children(x), article_children(y)) {
            (Some(a), Some(b)) => Some(a + b),
            _ => None,
        }),
    decreases y.len(),
{
    if y.len() == 0 {
        assert(x + y =~= x);
        match article_children(x) {
            Some(a) => {
                assert(a + Seq::<Seq<char>>::empty() =~= a);
            },
            None => {},
        }
    } else {
        assert((x + y).drop_last() =~= x + y.drop_last());
        assert((x + y).last() == y.last());
        lemma_article_children_concat(x, y.drop_last());
        match (article_children(x), article_children(y.drop_last()), node_markup(y.last())) {
            (Some(a), Some(b), Some(m)) => {
                assert(a + b + m =~= a + (b + m));
            },
            _ => {},
        }
    }
}

/// A single node adds exactly its own markup to the article.
pub proof fn single_node_adds_its_markup(n: HtmlNode)
    ensures
        article_children(seq![n]) == node_markup(n),
{
    assert(seq![n].drop_last() =~= Seq::<HtmlNode>::empty());
    assert(seq![n].last() == n);
    assert(article_children(Seq::<HtmlNode>::empty()) == Some(Seq::<Seq<char>>::empty()));
    match node_markup(n) {
        Some(m) => {
            assert(Seq::<Seq<char>>::empty() + m =~= m);
        },
        None => {},
    }
}

/// A heading of level `l` renders as an `h` element numbered `l`, holding
/// its text.
pub proof fn heading_renders_with_its_level(l: int, b: Seq<u8>)
    requires
        1 <= l <= 6,
        text_of(b) is Some,
    ensures
        node_markup(HtmlNode::Heading(l, b)) == Some(
            seq![render_element(seq!['h', (48 + l) as char], Seq::empty(), seq![text_of(b)->0])],
        ),
{
    reveal_strlit("h1");
    reveal_strlit("h2");
    reveal_strlit("h3");
    reveal_strlit("h4");
    reveal_strlit("h5");
    reveal_strlit("h6");
    assert(heading_tag(l) =~= seq!['h', (48 + l) as char]);
}

/// Line breaks, nested articles and ordered lists add nothing to a page:
/// taking such a node out of the nodes leaves the article as it was.
pub proof fn silent_nodes_render_nothing(a: Seq<HtmlNode>, n: HtmlNode, b: Seq<HtmlNode>)
    requires
        n is Break || n is Article || n is OrderedList,
    ensures
        article_markup(a + seq![n] + b) == article_markup(a + b),
{
    lemma_article_children_concat(a, seq![n]);
    lemma_article_children_concat(a + seq![n], b);
    lemma_article_children_concat(a, b);
    assert(seq![n].drop_last() =~= Seq::<HtmlNode>::empty());
    assert(seq![n].last() == n);
    assert(article_children(Seq::<HtmlNode>::empty()) == Some(Seq::<Seq<char>>::empty()));
    assert(Seq::<Seq<char>>::empty() + Seq::<Seq<char>>::empty() =~= Seq::<Seq<char>>::empty());
    assert(article_children(seq![n]) == Some(Seq::<Seq<char>>::empty()));
    match article_children(a) {
        Some(x) => {
            assert(x + Seq::<Seq<char>>::empty() =~= x);
        },
        None => {},
    }
}

/// Ordinary text becomes one paragraph of the article: where no byte is
/// Markdown syntax or a digit and the bytes are UTF-8, the lexer and the
/// parser accept the text, and the article holds one `<p>` with the text.
pub proof fn ordinary_text_renders_as_one_paragraph(s: Seq<u8>)
    requires
        s.len() > 0,
        forall|i: int| 0 <= i < s.len() ==> is_ordinary_byte(#[trigger] s[i]),
        text_of(s) is Some,
    ensures
        lex(s) is Some,
        document(lex(s)->0, 0) is Some,
        items_of(document(lex(s)->0, 0)) == seq![HtmlNode::Paragraph(seq![Phr::PlainText(s)])],
        article_markup(items_of(document(lex(s)->0, 0))) == Some(
            render_element(
                "article"@,
                Seq::empty(),
                seq![render_element("p"@, Seq::empty(), seq![text_of(s)->0])],
            ),
        ),
{
    ordinary_text_lexes_as_plain_text(s);
    plain_text_is_one_paragraph(s);
    let c = seq![Phr::PlainText(s)];
    assert(c.drop_last() =~= Seq::<Phr>::empty());
    assert(c.last() == Phr::PlainText(s));
    assert(phrs_markup(Seq::<Phr>::empty()) == Some(Seq::<Seq<char>>::empty()));
    assert(Seq::<Seq<char>>::empty().push(text_of(s)->0) =~= seq![text_of(s)->0]);
    assert(phrs_markup(c) == Some(seq![text_of(s)->0]));
    let n = seq![HtmlNode::Paragraph(c)];
    assert(n.drop_last() =~= Seq::<HtmlNode>::empty());
    assert(n.last() == HtmlNode::Paragraph(c));
    assert(article_children(Seq::<HtmlNode>::empty()) == Some(Seq::<Seq<char>>::empty()));
    let p = render_element("p"@, Seq::empty(), seq![text_of(s)->0]);
    assert(Seq::<Seq<char>>::empty() + seq![p] =~= seq![p]);
    assert(article_children(n) == Some(seq![p]));
}

// ---------------------------------------------------------------------------
// Rendering
// ---------------------------------------------------------------------------

/// An element with one text child.
fn text_child_element(tag: &str, bytes: &Vec<u8>) -> (r: Result<HtmlElement, GenerateError>)
    requires
        crate::html_builder::is_known_tag(tag@),
    ensures
        r is Ok <==> text_of(bytes@) is Some,
        r matches Ok(e) ==> text_of(bytes@) matches Some(t) && element_markup(e) == text_element(
            tag@,
            t,
        ),
{
    match utf8_string(bytes.as_slice()) {
        Some(s) => {
            let mut e = element_new(tag);
            element_add_child(&mut e, Child::Text(s));
            Ok(e)
        },
        None => Err(GenerateError::InvalidUtf8),
    }
}

/// Appends one inline content to `parent`.
fn parse_format(parent: HtmlElement, t: &PhrasingHtmlContent) -> (r: Result<
    HtmlElement,
    GenerateError,
>)
    ensures
        r is Ok <==> phr_markup(t@) is Some,
        r matches Ok(e) ==> phr_markup(t@) matches Some(m) && element_tag(e) == element_tag(parent)
            && element_attributes(e) == element_attributes(parent) && element_children(e)
            == element_children(parent).push(m),
{
    let mut parent = parent;
    match t {
        PhrasingHtmlContent::ParagraphPlainText(p) => match utf8_string(p.as_slice()) {
            Some(s) => {
                element_add_child(&mut parent, Child::Text(s));
                Ok(parent)
            },
            None => Err(GenerateError::InvalidUtf8),
        },
        PhrasingHtmlContent::Strong(p) => match text_child_element("strong", p) {
            Ok(e) => {
                element_add_child(&mut parent, Child::Element(e));
                Ok(parent)
            },
            Err(err) => Err(err),
        },
        PhrasingHtmlContent::Italic(p) => match text_child_element("i", p) {
            Ok(e) => {
                element_add_child(&mut parent, Child::Element(e));
                Ok(parent)
            },
            Err(err) => Err(err),
        },
        PhrasingHtmlContent::Code(p) => match utf8_string(p.as_slice()) {
            Some(s) => {
                let mut e = element_new("code");
                element_add_attribute(&mut e, "class", "code-block");
                element_add_child(&mut e, Child::Text(s));
                element_add_child(&mut parent, Child::Element(e));
                Ok(parent)
            },
            None => Err(GenerateError::InvalidUtf8),
        },
        PhrasingHtmlContent::Link(p, l) => match utf8_str_pair(l, p) {
            Some((href, text)) => {
                let mut e = element_new("a");
                element_add_attribute(&mut e, "href", href.as_str());
                element_add_child(&mut e, Child::Text(text));
                element_add_child(&mut parent, Child::Element(e));
                Ok(parent)
            },
            None => Err(GenerateError::InvalidUtf8),
        },
        PhrasingHtmlContent::Break => {
            let e = element_new("br");
            element_add_child(&mut parent, Child::Element(e));
            Ok(parent)
        },
    }
}

/// The strings that two byte vectors encode, where both are valid UTF-8.
fn utf8_str_pair(a: &Vec<u8>, b: &Vec<u8>) -> (r: Option<(String, String)>)
    ensures
        r is Some <==> text_of(a@) is Some && text_of(b@) is Some,
        r matches Some((x, y)) ==> text_of(a@) == Some(x@) && text_of(b@) == Some(y@),
{
    match utf8_string(a.as_slice()) {
        Some(x) => match utf8_string(b.as_slice()) {
            Some(y) => Some((x, y)),
            None => None,
        },
        None => None,
    }
}

/// Appends each inline content to `parent`, in order.
fn append_phrasings(parent: HtmlElement, c: &Vec<PhrasingHtmlContent>) -> (r: Result<
    HtmlElement,
    GenerateError,
>)
    ensures
        r is Ok <==> phrs_markup(phrs(c@)) is Some,
        r matches Ok(e) ==> phrs_markup(phrs(c@)) matches Some(ms) && element_tag(e)
            == element_tag(parent) && element_attributes(e) == element_attributes(parent)
            && element_children(e) == element_children(parent) + ms,
{
    let ghost cs = phrs(c@);
    let mut parent = parent;
    let ghost tag = element_tag(parent);
    let ghost attrs = element_attributes(parent);
    let ghost start = element_children(parent);
    let mut i: usize = 0;
    assert(cs.take(0) =~= Seq::<Phr>::empty());
    assert(start + Seq::<Seq<char>>::empty() =~= start);
    while i < c.len()
        invariant
            i <= c.len(),
            cs == phrs(c@),
            element_tag(parent) == tag,
            element_attributes(parent) == attrs,
            phrs_markup(cs.take(i as int)) matches Some(ms) && element_children(parent) == start
                + ms,
        decreases c.len() - i,
    {
        assert(cs.take(i + 1).drop_last() =~= cs.take(i as int));
        assert(cs.take(i + 1).last() == c@[i as int]@);
        match parse_format(parent, &c[i]) {
            Ok(e) => {
                parent = e;
            },
            Err(err) => {
                proof {
                    lemma_phrs_markup_fails(cs, i + 1);
                }
                return Err(err);
            },
        }
        i += 1;
    }
    assert(cs.take(c.len() as int) =~= cs);
    Ok(parent)
}

/// The children that one node adds to the article.
fn append_node(article: &mut HtmlElement, ele: &HtmlToken) -> (r: Result<(), GenerateError>)
    ensures
        r is Ok <==> node_markup(ele@) is Some,
        element_tag(*final(article)) == element_tag(*old(article)),
        element_attributes(*final(article)) == element_attributes(*old(article)),
        r is Ok ==> (node_markup(ele@) matches Some(ms) && element_children(*final(article))
            == element_children(*old(article)) + ms),
{
    let ghost before = element_children(*article);
    let child = match ele {
        HtmlToken::Heading1(t) => text_child_element("h1", t),
        HtmlToken::Heading2(t) => text_child_element("h2", t),
        HtmlToken::Heading3(t) => text_child_element("h3", t),
        HtmlToken::Heading4(t) => text_child_element("h4", t),
        HtmlToken::Heading5(t) => text_child_element("h5", t),
        HtmlToken::Heading6(t) => text_child_element("h6", t),
        HtmlToken::Paragraph(t) => append_phrasings(element_new("p"), t),
        HtmlToken::BlockQuote(content) => append_phrasings(element_new("blockquote"), content),
        HtmlToken::Pre(t) => parse_format(element_new("pre"), t),
        HtmlToken::Break | HtmlToken::Article(_) | HtmlToken::OrderedList(_) => {
            // nothing to render
            assert(before + Seq::<Seq<char>>::empty() =~= before);
            return Ok(());
        },
    };
    match child {
        Ok(e) => {
            element_add_child(article, Child::Element(e));
            assert(before.push(element_markup(e)) =~= before + seq![element_markup(e)]);
            Ok(())
        },
        Err(err) => Err(err),
    }
}

/// The `<article>` holding the rendered nodes.
pub fn generate_article(parsed_body: &Vec<HtmlToken>) -> (r: Result<HtmlElement, GenerateError>)
    ensures
        r is Ok <==> article_markup(html_nodes(parsed_body@)) is Some,
        r matches Ok(e) ==> article_markup(html_nodes(parsed_body@)) == Some(element_markup(e)),
{
    let ghost nodes = html_nodes(parsed_body@);
    let mut build_element = element_new("article");
    let mut i: usize = 0;
    assert(nodes.take(0) =~= Seq::<HtmlNode>::empty());
    while i < parsed_body.len()
        invariant
            i <= parsed_body.len(),
            nodes == html_nodes(parsed_body@),
            element_tag(build_element) == "article"@,
            element_attributes(build_element) == Seq::<(Seq<char>, Seq<char>)>::empty(),
            article_children(nodes.take(i as int)) == Some(element_children(build_element)),
        decreases parsed_body.len() - i,
    {
        assert(nodes.take(i + 1).drop_last() =~= nodes.take(i as int));
        assert(nodes.take(i + 1).last() == parsed_body@[i as int]@);
        match append_node(&mut build_element, &parsed_body[i]) {
            Ok(()) => {},
            Err(err) => {
                proof {
                    lemma_article_children_fails(nodes, i + 1);
                }
                return Err(err);
            },
        }
        i += 1;
    }
    assert(nodes.take(parsed_body.len() as int) =~= nodes);
    Ok(build_element)
}

/// A list entry holding one link.
fn nav_link(href: &str, label: &str) -> (e: HtmlElement)
    ensures
        element_markup(e) == nav_entry(href@, label@),
{
    let mut a = element_new("a");
    element_add_attribute(&mut a, "href", href);
    element_add_child(&mut a, Child::Text(label.to_owned()));
    let mut li = element_new("li");
    element_add_child(&mut li, Child::Element(a));
    li
}

/// The navigation bar.
fn generate_navbar() -> (e: HtmlElement)
    ensures
        element_markup(e) == navbar_markup(),
{
    let mut navbar = element_new("nav");
    element_add_attribute(&mut navbar, "class", "navbar");
    let mut navlinks = element_new("ul");
    element_add_child(&mut navlinks, Child::Element(nav_link("./index.html", "Home")));
    element_add_child(&mut navlinks, Child::Element(nav_link("./about.html", "About")));
    assert(element_children(navlinks) =~= seq![
        nav_entry("./index.html"@, "Home"@),
        nav_entry("./about.html"@, "About"@),
    ]);
    element_add_child(&mut navbar, Child::Element(navlinks));
    assert(element_attributes(navbar) =~= seq![("class"@, "navbar"@)]);
    assert(element_children(navbar) =~= seq![element_markup(navlinks)]);
    navbar
}

/// The header of a post.
fn generate_header(title: &String, date: i64) -> (e: HtmlElement)
    requires
        timestamp_in_range(date),
    ensures
        element_markup(e) == header_markup(title@, date),
{
    let mut header = element_new("header");
    let mut h1 = element_new("h1");
    element_add_child(&mut h1, Child::Text(title.clone()));
    element_add_child(&mut header, Child::Element(h1));
    let mut updated = "Updated: ".to_owned();
    let date_text = format_timestamp(date, "%d %b %Y - %H:%M:%S");
    updated.append(date_text.as_str());
    let mut p = element_new("p");
    element_add_child(&mut p, Child::Text(updated));
    element_add_child(&mut header, Child::Element(p));
    assert(element_children(h1) =~= seq![title@]);
    assert(element_children(p) =~= seq![
        "Updated: "@ + formatted_timestamp(date, "%d %b %Y - %H:%M:%S"@),
    ]);
    assert(element_children(header) =~= seq![element_markup(h1), element_markup(p)]);
    header
}

/// A page with the shared head and the start of the shared body.
fn create_base_page(style: &str) -> (p: HtmlPage)
    ensures
        page_is_html5(p),
        page_head(p) == base_head(style@),
        page_body(p) == base_body(),
{
    let mut page = page_new();
    page_add_meta(&mut page, "charset", "utf-8");
    page_add_raw(
        &mut page,
        "<meta name=\"viewport\" content=\"width=device-width, initial-scale=1.0\">",
    );
    page_add_meta(
        &mut page,
        "description",
        "Personal Blog for Software and among other things - Full-Stack Software Engineer / Developer based in Singapore",
    );
    page_add_title(&mut page, "onefangg blog");
    page_add_style(&mut page, style);
    page_add_element(&mut page, generate_navbar());
    page
}

/// The page of a post: the shared page, then the post's header and its
/// article. Fails when some text of the post is not UTF-8.
pub fn generate_page(parsed_tags: BlogPost, style: &str) -> (r: Result<String, GenerateError>)
    requires
        timestamp_in_range(parsed_tags.date),
    ensures
        r is Ok <==> article_markup(html_nodes(parsed_tags.children@)) is Some,
        r matches Ok(s) ==> article_markup(html_nodes(parsed_tags.children@)) matches Some(a)
            && s@ == page_markup(
            base_head(style@),
            base_body() + header_markup(parsed_tags.title@, parsed_tags.date) + a,
        ),
{
    let header_content = generate_header(&parsed_tags.title, parsed_tags.date);
    let body_content = match generate_article(&parsed_tags.children) {
        Ok(e) => e,
        Err(err) => return Err(err),
    };
    let mut page = create_base_page(style);
    page_add_element(&mut page, header_content);
    page_add_element(&mut page, body_content);
    Ok(page_to_string(&page))
}

/// The about page: the shared page, then the article. Fails when some text
/// is not UTF-8.
pub fn generate_about_page(parsed_tags: Vec<HtmlToken>, style: &str) -> (r: Result<
    String,
    GenerateError,
>)
    ensures
        r is Ok <==> article_markup(html_nodes(parsed_tags@)) is Some,
        r matches Ok(s) ==> article_markup(html_nodes(parsed_tags@)) matches Some(a) && s@
            == page_markup(base_head(style@), base_body() + a),
{
    let mut page = create_base_page(style);
    let body_content = match generate_article(&parsed_tags) {
        Ok(e) => e,
        Err(err) => return Err(err),
    };
    page_add_element(&mut page, body_content);
    Ok(page_to_string(&page))
}

/// The home page: the shared page, then one link for each post, in order.
pub fn generate_home_page(posts: Vec<BlogPostMeta>, style: &str) -> (r: Result<
    String,
    GenerateError,
>)
    requires
        dates_in_range(posts@),
    ensures
        r matches Ok(s) && s@ == page_markup(
            base_head(style@),
            base_body() + render_element(
                "div"@,
                seq![("class"@, "post-container"@)],
                post_links(posts@),
            ),
        ),
{
    let mut page = create_base_page(style);
    let mut container = element_new("div");
    element_add_attribute(&mut container, "class", "post-container");
    let mut i: usize = 0;
    while i < posts.len()
        invariant
            i <= posts.len(),
            dates_in_range(posts@),
            page_is_html5(page),
            page_head(page) == base_head(style@),
            page_body(page) == base_body(),
            element_tag(container) == "div"@,
            element_attributes(container) == seq![("class"@, "post-container"@)],
            element_children(container) == post_links(posts@).take(i as int),
        decreases posts.len() - i,
    {
        let p = &posts[i];
        let mut post_link = element_new("a");
        element_add_attribute(&mut post_link, "href", p.link.as_str());
        element_add_attribute(&mut post_link, "class", "post-link");
        let mut title = element_new("h1");
        element_add_child(&mut title, Child::Text(p.title.clone()));
        element_add_child(&mut post_link, Child::Element(title));
        assert(timestamp_in_range(posts@[i as int].date));
        let mut date = element_new("p");
        element_add_child(&mut date, Child::Text(format_timestamp(p.date, "%d %b %Y")));
        element_add_child(&mut post_link, Child::Element(date));
        assert(element_attributes(post_link) =~= seq![("href"@, p.link@), ("class"@, "post-link"@)]);
        assert(element_children(title) =~= seq![p.title@]);
        assert(element_children(date) =~= seq![formatted_timestamp(p.date, "%d %b %Y"@)]);
        assert(element_children(post_link) =~= seq![element_markup(title), element_markup(date)]);
        assert(element_markup(post_link) == post_link_markup(p.title@, p.date, p.link@));
        element_add_child(&mut container, Child::Element(post_link));
        assert(post_links(posts@).take(i + 1) =~= post_links(posts@).take(i as int).push(
            post_link_markup(p.title@, p.date, p.link@),
        ));
        i += 1;
    }
    assert(post_links(posts@).take(posts.len() as int) =~= post_links(posts@));
    page_add_element(&mut page, container);
    Ok(page_to_string(&page))
}

} // verus!
