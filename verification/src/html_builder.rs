//! The HTML builder of the `build_html` crate, seen through the contents of
//! its elements and pages.
//!
//! An [`HtmlElement`] holds a tag, a list of attributes and a list of
//! children; a child renders as its own markup. An [`HtmlPage`] holds the
//! markup of its head and of its body. The functions below state how each
//! call of `build_html` changes those contents, and how a page renders, as
//! `build_html` 2.8 writes them (`elements.rs`, `html_page/`).

use vstd::prelude::*;

use build_html::{Html, HtmlChild, HtmlContainer, HtmlElement, HtmlPage, HtmlTag};

verus! {

/// `build_html::HtmlElement`, opaque to the verifier; its contents are seen
/// through the names below.
#[verifier::external_type_specification]
#[verifier::external_body]
pub struct ExHtmlElement(HtmlElement);

/// `build_html::HtmlPage`, opaque to the verifier; its contents are seen
/// through the names below.
#[verifier::external_type_specification]
#[verifier::external_body]
pub struct ExHtmlPage(HtmlPage);

/// The tag name of an element.
pub uninterp spec fn element_tag(e: HtmlElement) -> Seq<char>;

/// The attributes of an element, as `(name, value)` pairs in the order they
/// were added.
pub uninterp spec fn element_attributes(e: HtmlElement) -> Seq<(Seq<char>, Seq<char>)>;

/// The markup of each child of an element, in the order they were added.
pub uninterp spec fn element_children(e: HtmlElement) -> Seq<Seq<char>>;

/// The markup of a page's head.
pub uninterp spec fn page_head(p: HtmlPage) -> Seq<char>;

/// The markup of a page's body.
pub uninterp spec fn page_body(p: HtmlPage) -> Seq<char>;

/// The page is an HTML5 page (its `version` field): it renders with the
/// `<!DOCTYPE html>` doctype and no attributes on `<html>`.
pub uninterp spec fn page_is_html5(p: HtmlPage) -> bool;

/// The tag names this crate builds elements with; `build_html` parses each
/// of them into its `HtmlTag` and renders that tag by the same name.
pub open spec fn is_known_tag(name: Seq<char>) -> bool {
    name == "header"@ || name == "h1"@ || name == "h2"@ || name == "h3"@ || name == "h4"@ || name
        == "h5"@ || name == "h6"@ || name == "p"@ || name == "strong"@ || name == "i"@ || name
        == "code"@ || name == "a"@ || name == "br"@ || name == "nav"@ || name == "ul"@ || name
        == "li"@ || name == "article"@ || name == "blockquote"@ || name == "pre"@ || name
        == "div"@
}

/// The concatenation of a list of strings.
pub open spec fn concat(parts: Seq<Seq<char>>) -> Seq<char>
    decreases parts.len(),
{
    if parts.len() == 0 {
        Seq::empty()
    } else {
        concat(parts.drop_last()) + parts.last()
    }
}

/// ` name="value"` for each attribute.
pub open spec fn render_attributes(attrs: Seq<(Seq<char>, Seq<char>)>) -> Seq<char>
    decreases attrs.len(),
{
    if attrs.len() == 0 {
        Seq::empty()
    } else {
        render_attributes(attrs.drop_last()) + " "@ + attrs.last().0 + "=\""@ + attrs.last().1
            + "\""@
    }
}

/// How an element renders: `<tag attrs/>` without children,
/// `<tag attrs>children</tag>` with them.
pub open spec fn render_element(
    tag: Seq<char>,
    attrs: Seq<(Seq<char>, Seq<char>)>,
    children: Seq<Seq<char>>,
) -> Seq<char> {
    if children.len() == 0 {
        "<"@ + tag + render_attributes(attrs) + "/>"@
    } else {
        "<"@ + tag + render_attributes(attrs) + ">"@ + concat(children) + "</"@ + tag + ">"@
    }
}

/// The markup of an element.
pub open spec fn element_markup(e: HtmlElement) -> Seq<char> {
    render_element(element_tag(e), element_attributes(e), element_children(e))
}

/// How a `<meta>` head entry with one attribute renders.
pub open spec fn meta_markup(name: Seq<char>, value: Seq<char>) -> Seq<char> {
    "<meta"@ + render_attributes(seq![(name, value)]) + ">"@
}

/// How a `<title>` head entry renders.
pub open spec fn title_markup(title: Seq<char>) -> Seq<char> {
    "<title>"@ + title + "</title>"@
}

/// How a `<style>` head entry without attributes renders.
pub open spec fn style_markup(css: Seq<char>) -> Seq<char> {
    "<style>"@ + css + "</style>"@
}

/// How an HTML5 page renders.
pub open spec fn page_markup(head: Seq<char>, body: Seq<char>) -> Seq<char> {
    "<!DOCTYPE html><html><head>"@ + head + "</head><body>"@ + body + "</body></html>"@
}

/// A child to add to an element: another element, or raw text.
pub enum Child {
    Element(HtmlElement),
    Text(String),
}

/// The markup of a child.
pub open spec fn child_markup(c: Child) -> Seq<char> {
    match c {
        Child::Element(e) => element_markup(e),
        Child::Text(s) => s@,
    }
}

/// `HtmlElement::new`, with the tag parsed from its name (`HtmlTag`'s
/// `FromStr`): an element with that tag and nothing else.
#[verifier::external_body]
pub(crate) fn element_new(tag: &str) -> (e: HtmlElement)
    requires
        is_known_tag(tag@),
    ensures
        element_tag(e) == tag@,
        element_attributes(e) == Seq::<(Seq<char>, Seq<char>)>::empty(),
        element_children(e) == Seq::<Seq<char>>::empty(),
{
    HtmlElement::new(tag.parse::<HtmlTag>().unwrap())
}

/// `HtmlElement::add_child`: appends the child; a raw text child renders as
/// the text itself.
#[verifier::external_body]
pub(crate) fn element_add_child(parent: &mut HtmlElement, child: Child)
    ensures
        element_tag(*final(parent)) == element_tag(*old(parent)),
        element_attributes(*final(parent)) == element_attributes(*old(parent)),
        element_children(*final(parent)) == element_children(*old(parent)).push(
            child_markup(child),
        ),
{
    let c = match child {
        Child::Element(e) => HtmlChild::Element(e),
        Child::Text(s) => HtmlChild::Raw(s),
    };
    parent.add_child(c)
}

/// `HtmlElement::add_attribute`: appends the attribute.
#[verifier::external_body]
pub(crate) fn element_add_attribute(e: &mut HtmlElement, name: &str, value: &str)
    ensures
        element_tag(*final(e)) == element_tag(*old(e)),
        element_attributes(*final(e)) == element_attributes(*old(e)).push((name@, value@)),
        element_children(*final(e)) == element_children(*old(e)),
{
    e.add_attribute(name, value)
}

/// `HtmlPage::new`: an HTML5 page with an empty head and body.
#[verifier::external_body]
pub(crate) fn page_new() -> (p: HtmlPage)
    ensures
        page_is_html5(p),
        page_head(p) == Seq::<char>::empty(),
        page_body(p) == Seq::<char>::empty(),
{
    HtmlPage::new()
}

/// `HtmlPage::add_meta` with one attribute: appends a `<meta>` entry to the
/// head.
#[verifier::external_body]
pub(crate) fn page_add_meta(p: &mut HtmlPage, name: &str, value: &str)
    ensures
        page_is_html5(*final(p)) == page_is_html5(*old(p)),
        page_head(*final(p)) == page_head(*old(p)) + meta_markup(name@, value@),
        page_body(*final(p)) == page_body(*old(p)),
{
    p.add_meta([(name, value)])
}

/// `HtmlContainer::add_raw` on a page: appends the text to the body.
#[verifier::external_body]
pub(crate) fn page_add_raw(p: &mut HtmlPage, content: &str)
    ensures
        page_is_html5(*final(p)) == page_is_html5(*old(p)),
        page_head(*final(p)) == page_head(*old(p)),
        page_body(*final(p)) == page_body(*old(p)) + content@,
{
    p.add_raw(content)
}

/// `HtmlPage::add_title`: appends a `<title>` entry to the head.
#[verifier::external_body]
pub(crate) fn page_add_title(p: &mut HtmlPage, title: &str)
    ensures
        page_is_html5(*final(p)) == page_is_html5(*old(p)),
        page_head(*final(p)) == page_head(*old(p)) + title_markup(title@),
        page_body(*final(p)) == page_body(*old(p)),
{
    p.add_title(title)
}

/// `HtmlPage::add_style`: appends a `<style>` entry to the head.
#[verifier::external_body]
pub(crate) fn page_add_style(p: &mut HtmlPage, css: &str)
    ensures
        page_is_html5(*final(p)) == page_is_html5(*old(p)),
        page_head(*final(p)) == page_head(*old(p)) + style_markup(css@),
        page_body(*final(p)) == page_body(*old(p)),
{
    p.add_style(css)
}

/// `HtmlContainer::add_html` on a page with an element: appends the
/// element's markup to the body.
#[verifier::external_body]
pub(crate) fn page_add_element(p: &mut HtmlPage, e: HtmlElement)
    ensures
        page_is_html5(*final(p)) == page_is_html5(*old(p)),
        page_head(*final(p)) == page_head(*old(p)),
        page_body(*final(p)) == page_body(*old(p)) + element_markup(e),
{
    p.add_html(e)
}

/// `Html::to_html_string` on an HTML5 page: the HTML5 doctype, then the head
/// and the body. Pages of other versions render another doctype and are left
/// out.
#[verifier::external_body]
pub(crate) fn page_to_string(p: &HtmlPage) -> (s: String)
    requires
        page_is_html5(*p),
    ensures
        s@ == page_markup(page_head(*p), page_body(*p)),
{
    p.to_html_string()
}

} // verus!
