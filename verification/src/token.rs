//! Token types shared by the lexer, the parsers and the page generator,
//! together with their mathematical models.

use vstd::prelude::*;

verus! {

// ---------------------------------------------------------------------------
// Markdown tokens
// ---------------------------------------------------------------------------

/// A header line of level one to six, holding the header text.
#[derive(Clone, Debug, PartialEq)]
pub enum MarkdownHeaderToken {
    Header1(Vec<u8>),
    Header2(Vec<u8>),
    Header3(Vec<u8>),
    Header4(Vec<u8>),
    Header5(Vec<u8>),
    Header6(Vec<u8>),
}

/// The tokens that the lexer produces from Markdown source bytes.
#[derive(Clone, Debug, PartialEq)]
pub enum MarkdownToken {
    Header(MarkdownHeaderToken),
    Newline,
    BackTick,
    MultilineCode(Vec<u8>),
    CodeBlock(Vec<u8>),
    BlockQuote(Vec<u8>),
    Asterik,
    PlainText(u8),
    SquareBracketOpen,
    SquareBracketClose,
    CurveBracketOpen,
    CurveBracketClose,
    Number(u8),
    Dash,
    Tab,
}

/// Mathematical model of a [`MarkdownToken`]: byte vectors become sequences
/// and the six header variants become one variant with a level.
pub enum MdTok {
    Header(int, Seq<u8>),
    Newline,
    BackTick,
    MultilineCode(Seq<u8>),
    CodeBlock(Seq<u8>),
    BlockQuote(Seq<u8>),
    Asterik,
    PlainText(u8),
    SquareBracketOpen,
    SquareBracketClose,
    CurveBracketOpen,
    CurveBracketClose,
    Number(u8),
    Dash,
    Tab,
}

impl MarkdownHeaderToken {
    /// The header level, from 1 to 6.
    pub open spec fn level(&self) -> int {
        match self {
            MarkdownHeaderToken::Header1(_) => 1,
            MarkdownHeaderToken::Header2(_) => 2,
            MarkdownHeaderToken::Header3(_) => 3,
            MarkdownHeaderToken::Header4(_) => 4,
            MarkdownHeaderToken::Header5(_) => 5,
            MarkdownHeaderToken::Header6(_) => 6,
        }
    }

    /// The header text.
    pub open spec fn text(&self) -> Seq<u8> {
        match self {
            MarkdownHeaderToken::Header1(t) => t@,
            MarkdownHeaderToken::Header2(t) => t@,
            MarkdownHeaderToken::Header3(t) => t@,
            MarkdownHeaderToken::Header4(t) => t@,
            MarkdownHeaderToken::Header5(t) => t@,
            MarkdownHeaderToken::Header6(t) => t@,
        }
    }

    /// Builds the header token of the given level.
    pub fn from_level(level: usize, text: Vec<u8>) -> (h: MarkdownHeaderToken)
        requires
            1 <= level <= 6,
        ensures
            h.level() == level,
            h.text() == text@,
    {
        if level == 1 {
            MarkdownHeaderToken::Header1(text)
        } else if level == 2 {
            MarkdownHeaderToken::Header2(text)
        } else if level == 3 {
            MarkdownHeaderToken::Header3(text)
        } else if level == 4 {
            MarkdownHeaderToken::Header4(text)
        } else if level == 5 {
            MarkdownHeaderToken::Header5(text)
        } else {
            MarkdownHeaderToken::Header6(text)
        }
    }
}

impl View for MarkdownToken {
    type V = MdTok;

    open spec fn view(&self) -> MdTok {
        match self {
            MarkdownToken::Header(h) => MdTok::Header(h.level(), h.text()),
            MarkdownToken::Newline => MdTok::Newline,
            MarkdownToken::BackTick => MdTok::BackTick,
            MarkdownToken::MultilineCode(v) => MdTok::MultilineCode(v@),
            MarkdownToken::CodeBlock(v) => MdTok::CodeBlock(v@),
            MarkdownToken::BlockQuote(v) => MdTok::BlockQuote(v@),
            MarkdownToken::Asterik => MdTok::Asterik,
            MarkdownToken::PlainText(x) => MdTok::PlainText(*x),
            MarkdownToken::SquareBracketOpen => MdTok::SquareBracketOpen,
            MarkdownToken::SquareBracketClose => MdTok::SquareBracketClose,
            MarkdownToken::CurveBracketOpen => MdTok::CurveBracketOpen,
            MarkdownToken::CurveBracketClose => MdTok::CurveBracketClose,
            MarkdownToken::Number(x) => MdTok::Number(*x),
            MarkdownToken::Dash => MdTok::Dash,
            MarkdownToken::Tab => MdTok::Tab,
        }
    }
}

/// The models of a sequence of Markdown tokens.
pub open spec fn md_toks(v: Seq<MarkdownToken>) -> Seq<MdTok> {
    v.map_values(|t: MarkdownToken| t@)
}

/// The byte that a token stands for, where it stands for exactly one
/// (a header stands for its leading `#`).
pub open spec fn token_byte(t: MdTok) -> u8 {
    match t {
        MdTok::Header(_, _) => 35,
        MdTok::Newline => 10,
        MdTok::BackTick => 96,
        MdTok::BlockQuote(_) => 62,
        MdTok::Asterik => 42,
        MdTok::PlainText(x) => x,
        MdTok::SquareBracketOpen => 91,
        MdTok::SquareBracketClose => 93,
        MdTok::CurveBracketOpen => 40,
        MdTok::CurveBracketClose => 41,
        MdTok::Number(x) => x,
        MdTok::Dash => 45,
        MdTok::Tab => 9,
        MdTok::MultilineCode(_) => 0,
        MdTok::CodeBlock(_) => 0,
    }
}

/// A copy of a byte vector.
pub fn copy_bytes(v: &Vec<u8>) -> (r: Vec<u8>)
    ensures
        r@ == v@,
{
    let mut r: Vec<u8> = Vec::new();
    let mut i: usize = 0;
    while i < v.len()
        invariant
            i <= v.len(),
            r@ == v@.subrange(0, i as int),
        decreases v.len() - i,
    {
        r.push(v[i]);
        i = i + 1;
    }
    r
}

/// Byte-wise equality of two byte vectors.
pub fn bytes_equal(a: &Vec<u8>, b: &Vec<u8>) -> (r: bool)
    ensures
        r == (a@ == b@),
{
    if a.len() != b.len() {
        return false;
    }
    let mut i: usize = 0;
    while i < a.len()
        invariant
            a.len() == b.len(),
            i <= a.len(),
            a@.subrange(0, i as int) == b@.subrange(0, i as int),
        decreases a.len() - i,
    {
        if a[i] != b[i] {
            assert(a@[i as int] != b@[i as int]);
            return false;
        }
        assert(a@.subrange(0, i + 1) == a@.subrange(0, i as int).push(a@[i as int]));
        assert(b@.subrange(0, i + 1) == b@.subrange(0, i as int).push(b@[i as int]));
        i = i + 1;
    }
    assert(a@ == a@.subrange(0, a.len() as int));
    assert(b@ == b@.subrange(0, b.len() as int));
    true
}

impl MarkdownToken {
    /// The byte that this token stands for. Code blocks stand for no single
    /// byte and are left out.
    pub fn into_byte(self) -> (b: u8)
        requires
            !(self is MultilineCode),
            !(self is CodeBlock),
        ensures
            b == token_byte(self@),
    {
        match self {
            MarkdownToken::Header(_) => 35u8,
            MarkdownToken::Newline => 10u8,
            MarkdownToken::BackTick => 96u8,
            MarkdownToken::BlockQuote(_) => 62u8,
            MarkdownToken::Asterik => 42u8,
            MarkdownToken::PlainText(x) => x,
            MarkdownToken::SquareBracketOpen => 91u8,
            MarkdownToken::SquareBracketClose => 93u8,
            MarkdownToken::CurveBracketOpen => 40u8,
            MarkdownToken::CurveBracketClose => 41u8,
            MarkdownToken::Number(x) => x,
            MarkdownToken::Dash => 45u8,
            MarkdownToken::Tab => 9u8,
            MarkdownToken::MultilineCode(_) => 0u8,
            MarkdownToken::CodeBlock(_) => 0u8,
        }
    }

    /// Structural equality of two tokens.
    pub fn same_as(&self, other: &MarkdownToken) -> (r: bool)
        ensures
            r == (self@ == other@),
    {
        match (self, other) {
            (MarkdownToken::Header(a), MarkdownToken::Header(b)) => {
                let (la, ta) = header_parts(a);
                let (lb, tb) = header_parts(b);
                la == lb && bytes_equal(ta, tb)
            },
            (MarkdownToken::Newline, MarkdownToken::Newline) => true,
            (MarkdownToken::BackTick, MarkdownToken::BackTick) => true,
            (MarkdownToken::MultilineCode(a), MarkdownToken::MultilineCode(b)) => bytes_equal(a, b),
            (MarkdownToken::CodeBlock(a), MarkdownToken::CodeBlock(b)) => bytes_equal(a, b),
            (MarkdownToken::BlockQuote(a), MarkdownToken::BlockQuote(b)) => bytes_equal(a, b),
            (MarkdownToken::Asterik, MarkdownToken::Asterik) => true,
            (MarkdownToken::PlainText(a), MarkdownToken::PlainText(b)) => *a == *b,
            (MarkdownToken::SquareBracketOpen, MarkdownToken::SquareBracketOpen) => true,
            (MarkdownToken::SquareBracketClose, MarkdownToken::SquareBracketClose) => true,
            (MarkdownToken::CurveBracketOpen, MarkdownToken::CurveBracketOpen) => true,
            (MarkdownToken::CurveBracketClose, MarkdownToken::CurveBracketClose) => true,
            (MarkdownToken::Number(a), MarkdownToken::Number(b)) => *a == *b,
            (MarkdownToken::Dash, MarkdownToken::Dash) => true,
            (MarkdownToken::Tab, MarkdownToken::Tab) => true,
            _ => false,
        }
    }
}

/// The level and the text of a header token.
pub fn header_parts(h: &MarkdownHeaderToken) -> (r: (usize, &Vec<u8>))
    ensures
        r.0 == h.level(),
        r.1@ == h.text(),
{
    match h {
        MarkdownHeaderToken::Header1(t) => (1, t),
        MarkdownHeaderToken::Header2(t) => (2, t),
        MarkdownHeaderToken::Header3(t) => (3, t),
        MarkdownHeaderToken::Header4(t) => (4, t),
        MarkdownHeaderToken::Header5(t) => (5, t),
        MarkdownHeaderToken::Header6(t) => (6, t),
    }
}

/// What the lexer hands on: the tokens and the (never filled) front matter.
pub struct MarkdownInformation {
    pub front_matter: Option<Vec<(String, String)>>,
    pub tokens: Vec<MarkdownToken>,
}

// ---------------------------------------------------------------------------
// HTML tokens
// ---------------------------------------------------------------------------

/// Inline content of a paragraph, a block quote or a list item.
#[derive(Clone, Debug, PartialEq)]
pub enum PhrasingHtmlContent {
    ParagraphPlainText(Vec<u8>),
    Strong(Vec<u8>),
    Italic(Vec<u8>),
    Code(Vec<u8>),
    Link(Vec<u8>, Vec<u8>),
    Break,
}

/// Mathematical model of a [`PhrasingHtmlContent`].
pub enum Phr {
    PlainText(Seq<u8>),
    Strong(Seq<u8>),
    Italic(Seq<u8>),
    Code(Seq<u8>),
    Link(Seq<u8>, Seq<u8>),
    Break,
}

impl View for PhrasingHtmlContent {
    type V = Phr;

    open spec fn view(&self) -> Phr {
        match self {
            PhrasingHtmlContent::ParagraphPlainText(v) => Phr::PlainText(v@),
            PhrasingHtmlContent::Strong(v) => Phr::Strong(v@),
            PhrasingHtmlContent::Italic(v) => Phr::Italic(v@),
            PhrasingHtmlContent::Code(v) => Phr::Code(v@),
            PhrasingHtmlContent::Link(t, u) => Phr::Link(t@, u@),
            PhrasingHtmlContent::Break => Phr::Break,
        }
    }
}

/// The models of a sequence of inline contents.
pub open spec fn phrs(v: Seq<PhrasingHtmlContent>) -> Seq<Phr> {
    v.map_values(|p: PhrasingHtmlContent| p@)
}

/// An item of an ordered list.
#[derive(Clone, Debug, PartialEq)]
pub struct OrderedListItem {
    pub order: u8,
    pub content: Vec<PhrasingHtmlContent>,
}

/// The nodes that the HTML parser produces.
#[derive(Debug, PartialEq)]
pub enum HtmlToken {
    Heading1(Vec<u8>),
    Heading2(Vec<u8>),
    Heading3(Vec<u8>),
    Heading4(Vec<u8>),
    Heading5(Vec<u8>),
    Heading6(Vec<u8>),
    Pre(PhrasingHtmlContent),
    Break,
    Paragraph(Vec<PhrasingHtmlContent>),
    Article(Vec<HtmlToken>),
    BlockQuote(Vec<PhrasingHtmlContent>),
    OrderedList(Vec<OrderedListItem>),
}

/// Mathematical model of an [`HtmlToken`]; the six headings become one
/// variant with a level. An article keeps its nodes as they are.
pub enum HtmlNode {
    Heading(int, Seq<u8>),
    Pre(Phr),
    Break,
    Paragraph(Seq<Phr>),
    Article(Seq<HtmlToken>),
    BlockQuote(Seq<Phr>),
    OrderedList(Seq<(u8, Seq<Phr>)>),
}

impl View for HtmlToken {
    type V = HtmlNode;

    open spec fn view(&self) -> HtmlNode {
        match self {
            HtmlToken::Heading1(v) => HtmlNode::Heading(1, v@),
            HtmlToken::Heading2(v) => HtmlNode::Heading(2, v@),
            HtmlToken::Heading3(v) => HtmlNode::Heading(3, v@),
            HtmlToken::Heading4(v) => HtmlNode::Heading(4, v@),
            HtmlToken::Heading5(v) => HtmlNode::Heading(5, v@),
            HtmlToken::Heading6(v) => HtmlNode::Heading(6, v@),
            HtmlToken::Pre(p) => HtmlNode::Pre(p@),
            HtmlToken::Break => HtmlNode::Break,
            HtmlToken::Paragraph(c) => HtmlNode::Paragraph(phrs(c@)),
            HtmlToken::Article(c) => HtmlNode::Article(c@),
            HtmlToken::BlockQuote(c) => HtmlNode::BlockQuote(phrs(c@)),
            HtmlToken::OrderedList(items) => HtmlNode::OrderedList(
                items@.map_values(|it: OrderedListItem| (it.order, phrs(it.content@))),
            ),
        }
    }
}

/// The models of a sequence of HTML nodes.
pub open spec fn html_nodes(v: Seq<HtmlToken>) -> Seq<HtmlNode> {
    v.map_values(|t: HtmlToken| t@)
}

/// A copy of an inline content.
pub fn copy_phrasing(p: &PhrasingHtmlContent) -> (r: PhrasingHtmlContent)
    ensures
        r@ == p@,
{
    match p {
        PhrasingHtmlContent::ParagraphPlainText(v) => PhrasingHtmlContent::ParagraphPlainText(
            copy_bytes(v),
        ),
        PhrasingHtmlContent::Strong(v) => PhrasingHtmlContent::Strong(copy_bytes(v)),
        PhrasingHtmlContent::Italic(v) => PhrasingHtmlContent::Italic(copy_bytes(v)),
        PhrasingHtmlContent::Code(v) => PhrasingHtmlContent::Code(copy_bytes(v)),
        PhrasingHtmlContent::Link(t, u) => PhrasingHtmlContent::Link(copy_bytes(t), copy_bytes(u)),
        PhrasingHtmlContent::Break => PhrasingHtmlContent::Break,
    }
}

/// A copy of a sequence of inline contents.
pub fn copy_phrasings(v: &Vec<PhrasingHtmlContent>) -> (r: Vec<PhrasingHtmlContent>)
    ensures
        phrs(r@) == phrs(v@),
{
    let mut r: Vec<PhrasingHtmlContent> = Vec::new();
    let mut i: usize = 0;
    while i < v.len()
        invariant
            i <= v.len(),
            phrs(r@) == phrs(v@.subrange(0, i as int)),
        decreases v.len() - i,
    {
        let c = copy_phrasing(&v[i]);
        proof {
            assert(phrs(r@.push(c)) =~= phrs(r@).push(c@));
            assert(phrs(v@.subrange(0, i + 1)) =~= phrs(v@.subrange(0, i as int)).push(v@[i as int]@));
        }
        r.push(c);
        i += 1;
    }
    assert(v@.subrange(0, v.len() as int) == v@);
    r
}

impl Clone for HtmlToken {
    /// A copy of the node; every node but an article or an ordered list
    /// keeps its model.
    fn clone(&self) -> (r: Self)
        ensures
            !(self is Article) && !(self is OrderedList) ==> r@ == self@,
        decreases self,
    {
        match self {
            HtmlToken::Heading1(t) => HtmlToken::Heading1(copy_bytes(t)),
            HtmlToken::Heading2(t) => HtmlToken::Heading2(copy_bytes(t)),
            HtmlToken::Heading3(t) => HtmlToken::Heading3(copy_bytes(t)),
            HtmlToken::Heading4(t) => HtmlToken::Heading4(copy_bytes(t)),
            HtmlToken::Heading5(t) => HtmlToken::Heading5(copy_bytes(t)),
            HtmlToken::Heading6(t) => HtmlToken::Heading6(copy_bytes(t)),
            HtmlToken::Pre(p) => HtmlToken::Pre(copy_phrasing(p)),
            HtmlToken::Break => HtmlToken::Break,
            HtmlToken::Paragraph(c) => HtmlToken::Paragraph(copy_phrasings(c)),
            HtmlToken::Article(v) => HtmlToken::Article(clone_tokens(v)),
            HtmlToken::BlockQuote(c) => HtmlToken::BlockQuote(copy_phrasings(c)),
            HtmlToken::OrderedList(items) => HtmlToken::OrderedList(items.clone()),
        }
    }
}

/// A copy of each node, in order.
fn clone_tokens(v: &Vec<HtmlToken>) -> (r: Vec<HtmlToken>)
    ensures
        r@.len() == v@.len(),
    decreases v,
{
    let mut r: Vec<HtmlToken> = Vec::new();
    let mut i: usize = 0;
    while i < v.len()
        invariant
            i <= v.len(),
            r@.len() == i,
        decreases v.len() - i,
    {
        proof {
            assert(decreases_to!(v => v@));
            assert(decreases_to!(v@ => v@[i as int]));
        }
        r.push(v[i].clone());
        i += 1;
    }
    r
}

impl HtmlToken {
    /// The inline contents of a paragraph; `None` for every other node.
    pub fn get_paragraph_contents(&self) -> (r: Option<Vec<PhrasingHtmlContent>>)
        ensures
            r is Some <==> self is Paragraph,
            r matches Some(c) ==> self@ == HtmlNode::Paragraph(phrs(c@)),
    {
        match self {
            HtmlToken::Paragraph(c) => Some(copy_phrasings(c)),
            _ => None,
        }
    }
}

// ---------------------------------------------------------------------------
// Tokens of the simpler parser
// ---------------------------------------------------------------------------

/// A header of level one to six, as the simpler parser reads it.
#[derive(Clone, Debug, PartialEq)]
pub enum HeaderToken {
    Header1(Vec<u8>),
    Header2(Vec<u8>),
    Header3(Vec<u8>),
    Header4(Vec<u8>),
    Header5(Vec<u8>),
    Header6(Vec<u8>),
}

/// The tokens that the simpler parser ([`crate::markdown_parser`])
/// reads. `Code` is a back tick.
#[derive(Clone, Debug, PartialEq)]
pub enum Token {
    Header(HeaderToken),
    PlainText(u8),
    Number(u8),
    SquareBracketOpen,
    SquareBracketClose,
    CurveBracketOpen,
    CurveBracketClose,
    Code,
    Asterik,
    Newline,
}

impl HeaderToken {
    /// The header level, from 1 to 6.
    pub open spec fn level(&self) -> int {
        match self {
            HeaderToken::Header1(_) => 1,
            HeaderToken::Header2(_) => 2,
            HeaderToken::Header3(_) => 3,
            HeaderToken::Header4(_) => 4,
            HeaderToken::Header5(_) => 5,
            HeaderToken::Header6(_) => 6,
        }
    }

    /// The header text.
    pub open spec fn text(&self) -> Seq<u8> {
        match self {
            HeaderToken::Header1(t) => t@,
            HeaderToken::Header2(t) => t@,
            HeaderToken::Header3(t) => t@,
            HeaderToken::Header4(t) => t@,
            HeaderToken::Header5(t) => t@,
            HeaderToken::Header6(t) => t@,
        }
    }

    /// The level and the text of the header.
    pub fn parts(&self) -> (r: (usize, &Vec<u8>))
        ensures
            r.0 == self.level(),
            r.1@ == self.text(),
    {
        match self {
            HeaderToken::Header1(t) => (1, t),
            HeaderToken::Header2(t) => (2, t),
            HeaderToken::Header3(t) => (3, t),
            HeaderToken::Header4(t) => (4, t),
            HeaderToken::Header5(t) => (5, t),
            HeaderToken::Header6(t) => (6, t),
        }
    }
}

impl View for Token {
    type V = MdTok;

    /// A simple token is modelled by the Markdown token it stands
    /// for; `Code` stands for a back tick.
    open spec fn view(&self) -> MdTok {
        match self {
            Token::Header(h) => MdTok::Header(h.level(), h.text()),
            Token::PlainText(x) => MdTok::PlainText(*x),
            Token::Number(x) => MdTok::Number(*x),
            Token::SquareBracketOpen => MdTok::SquareBracketOpen,
            Token::SquareBracketClose => MdTok::SquareBracketClose,
            Token::CurveBracketOpen => MdTok::CurveBracketOpen,
            Token::CurveBracketClose => MdTok::CurveBracketClose,
            Token::Code => MdTok::BackTick,
            Token::Asterik => MdTok::Asterik,
            Token::Newline => MdTok::Newline,
        }
    }
}

/// The models of a sequence of simple tokens.
pub open spec fn toks(v: Seq<Token>) -> Seq<MdTok> {
    v.map_values(|t: Token| t@)
}

// ---------------------------------------------------------------------------
// Posts
// ---------------------------------------------------------------------------

/// A blog post: its title, its date (a UNIX timestamp in seconds, UTC) and
/// its parsed body.
#[derive(Clone, Debug, PartialEq)]
pub struct BlogPost {
    pub title: String,
    pub date: i64,
    pub children: Vec<HtmlToken>,
}

/// What the home page lists of a post: its title, its date (a UNIX
/// timestamp in seconds, UTC) and the page it links to.
#[derive(Clone, Debug, PartialEq)]
pub struct BlogPostMeta {
    pub title: String,
    pub date: i64,
    pub link: String,
}

} // verus!
