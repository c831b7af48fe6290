//! A simpler parser: turns [`Token`]s into [`HtmlToken`]s. It
//! reads a narrower token set than [`crate::html_parser`] and handles
//! headers, paragraphs and line breaks only.

use vstd::prelude::*;

use crate::html_parser::{
    end_of, heading, is_word_tok, items_of, lemma_payloads_push, lemma_run_bounds, payloads,
    pt_run_end, push_node, push_phrasing, tok_payload, word_run_end, ParaStep,
};
use crate::token::{copy_bytes, html_nodes, phrs, toks, HtmlNode, HtmlToken, MdTok, Phr, PhrasingHtmlContent, Token};

verus! {

// ---------------------------------------------------------------------------
// Specification of the parser
// ---------------------------------------------------------------------------

/// A link `[text](url)` that starts with the `[` at `pos`; the url holds
/// plain text only.
pub open spec fn simple_link_step(t: Seq<MdTok>, pos: int) -> ParaStep {
    let p = pos + 1;
    let k = pt_run_end(t, p);
    let text = payloads(t, p, k);
    let q = if k < t.len() && t[k] is SquareBracketClose {
        k + 1
    } else {
        k
    };
    let lt = if k >= t.len() || t[k] is SquareBracketClose {
        text
    } else {
        Seq::empty()
    };
    let pt0 = if k >= t.len() || t[k] is SquareBracketClose {
        Seq::empty()
    } else {
        seq![91u8] + text
    };
    if q < t.len() && t[q] is CurveBracketOpen {
        let r = q + 1;
        let m = pt_run_end(t, r);
        let url = payloads(t, r, m);
        let closed = m < t.len() && t[m] is CurveBracketClose;
        let q2 = if closed {
            m + 1
        } else {
            m
        };
        let url_dropped = m < t.len() && (!closed || lt.len() == 0);
        let url2 = if url_dropped {
            Seq::empty()
        } else {
            url
        };
        let pt1 = if url_dropped {
            pt0 + seq![40u8] + url
        } else {
            pt0
        };
        if lt.len() == 0 || url2.len() == 0 {
            ParaStep::Go(q2, seq![Phr::PlainText(pt1)])
        } else {
            ParaStep::Go(q2, seq![Phr::Link(lt, url2)])
        }
    } else {
        ParaStep::Go(q, Seq::empty())
    }
}

/// A `*` at `pos`: italic text when plain text follows; the parser makes no
/// progress when another token follows.
pub open spec fn simple_emphasis_step(t: Seq<MdTok>, pos: int) -> ParaStep {
    if pos + 1 >= t.len() {
        ParaStep::Go(pos + 1, seq![Phr::PlainText(seq![42u8])])
    } else if t[pos + 1] is PlainText {
        let k = pt_run_end(t, pos + 1);
        let text = payloads(t, pos + 1, k);
        if k < t.len() && t[k] is Asterik {
            ParaStep::Go(k + 1, seq![Phr::Italic(text)])
        } else {
            ParaStep::Go(k + 1, seq![Phr::PlainText(seq![42u8] + text)])
        }
    } else {
        ParaStep::Stuck
    }
}

/// One step of the paragraph parser at `pos` (which holds a token).
pub open spec fn simple_para_step(t: Seq<MdTok>, pos: int) -> ParaStep {
    match t[pos] {
        MdTok::SquareBracketOpen => simple_link_step(t, pos),
        MdTok::PlainText(_) => {
            let e = word_run_end(t, pos);
            ParaStep::Go(e, seq![Phr::PlainText(payloads(t, pos, e))])
        },
        MdTok::Number(_) => {
            let e = word_run_end(t, pos);
            ParaStep::Go(e, seq![Phr::PlainText(payloads(t, pos, e))])
        },
        MdTok::BackTick => {
            let k = pt_run_end(t, pos + 1);
            let code = payloads(t, pos + 1, k);
            if k < t.len() && t[k] is BackTick {
                ParaStep::Go(k + 1, seq![Phr::Code(code)])
            } else {
                ParaStep::Go(k, seq![Phr::Code(code)])
            }
        },
        MdTok::Asterik => simple_emphasis_step(t, pos),
        _ => ParaStep::Stop,
    }
}

/// The paragraph parsed from `pos` on, after the contents `acc`, or `None`
/// where the parser makes no progress.
pub open spec fn simple_para_from(t: Seq<MdTok>, pos: int, acc: Seq<Phr>) -> Option<(int, Seq<Phr>)>
    decreases t.len() - pos,
{
    if pos < 0 || pos >= t.len() {
        Some((pos, acc))
    } else {
        match simple_para_step(t, pos) {
            ParaStep::Go(p, out) => {
                if p >= t.len() {
                    Some((p, acc + out))
                } else if p > pos {
                    simple_para_from(t, p, acc + out)
                } else {
                    None
                }
            },
            ParaStep::Stuck => None,
            _ => Some((pos, acc)),
        }
    }
}

/// The paragraph that starts at `pos`.
pub open spec fn simple_paragraph(t: Seq<MdTok>, pos: int) -> Option<(int, Seq<Phr>)> {
    simple_para_from(t, pos, Seq::empty())
}

/// One step of the document parser, or `None` where it refuses the token
/// at `pos` or makes no progress inside a paragraph.
pub open spec fn simple_doc_step(t: Seq<MdTok>, pos: int) -> Option<(int, Seq<HtmlNode>)> {
    match t[pos] {
        MdTok::Header(l, s) => Some((pos + 1, seq![HtmlNode::Heading(l, s)])),
        MdTok::Newline => Some((pos + 1, Seq::empty())),
        MdTok::PlainText(_) => simple_paragraph_node(t, pos),
        MdTok::Number(_) => simple_paragraph_node(t, pos),
        MdTok::Asterik => simple_paragraph_node(t, pos),
        _ => None,
    }
}

/// A paragraph node followed by one skipped token.
pub open spec fn simple_paragraph_node(t: Seq<MdTok>, pos: int) -> Option<(int, Seq<HtmlNode>)> {
    match simple_paragraph(t, pos) {
        None => None,
        Some((p, c)) => Some((p + 1, seq![HtmlNode::Paragraph(c)])),
    }
}

/// The nodes parsed from `pos` on, after the nodes `acc`, or `None` where
/// the parser refuses the tokens.
pub open spec fn simple_doc_from(t: Seq<MdTok>, pos: int, acc: Seq<HtmlNode>) -> Option<(int, Seq<HtmlNode>)>
    decreases t.len() - pos,
{
    if pos < 0 || pos >= t.len() {
        Some((pos, acc))
    } else {
        match simple_doc_step(t, pos) {
            None => None,
            Some((p, out)) => {
                if p >= t.len() {
                    Some((p, acc + out))
                } else if p > pos {
                    simple_doc_from(t, p, acc + out)
                } else {
                    None
                }
            },
        }
    }
}

/// The nodes of the tokens from `pos` on.
pub open spec fn simple_document(t: Seq<MdTok>, pos: int) -> Option<(int, Seq<HtmlNode>)> {
    simple_doc_from(t, pos, Seq::empty())
}

/// Each step of the paragraph parser moves forward.
pub proof fn lemma_simple_para_step_progress(t: Seq<MdTok>, pos: int)
    requires
        0 <= pos < t.len(),
    ensures
        simple_para_step(t, pos) matches ParaStep::Go(p, _) ==> pos < p <= t.len() + 1,
        !(simple_para_step(t, pos) is Last),
{
    lemma_run_bounds(t, pos, MdTok::Newline);
    lemma_run_bounds(t, pos + 1, MdTok::Newline);
    let k = pt_run_end(t, pos + 1);
    let q = if k < t.len() && t[k] is SquareBracketClose {
        k + 1
    } else {
        k
    };
    lemma_run_bounds(t, q + 1, MdTok::Newline);
}

/// A paragraph ends at or after its start, and at most one past the end.
pub proof fn lemma_simple_para_from_end(t: Seq<MdTok>, pos: int, acc: Seq<Phr>)
    requires
        0 <= pos,
        simple_para_from(t, pos, acc) is Some,
    ensures
        pos <= end_of(simple_para_from(t, pos, acc)),
        pos <= t.len() ==> end_of(simple_para_from(t, pos, acc)) <= t.len() + 1,
    decreases t.len() - pos,
{
    if pos < t.len() {
        lemma_simple_para_step_progress(t, pos);
        match simple_para_step(t, pos) {
            ParaStep::Go(p, out) => {
                if p < t.len() {
                    lemma_simple_para_from_end(t, p, acc + out);
                }
            },
            _ => {},
        }
    }
}

/// Each step of the document parser moves forward, at most two past the end.
pub proof fn lemma_simple_doc_step_progress(t: Seq<MdTok>, pos: int)
    requires
        0 <= pos < t.len(),
        simple_doc_step(t, pos) is Some,
    ensures
        pos < end_of(simple_doc_step(t, pos)) <= t.len() + 2,
{
    if simple_paragraph(t, pos) is Some {
        lemma_simple_para_from_end(t, pos, Seq::empty());
    }
}

// ---------------------------------------------------------------------------
// The parser
// ---------------------------------------------------------------------------

/// A cursor over simple tokens that builds HTML nodes.
#[derive(Debug)]
pub struct MarkdownParser {
    tokens: Vec<Token>,
    position: usize,
}

/// The byte of a plain text token.
fn text_payload(tok: &Token) -> (r: Option<u8>)
    ensures
        r == (if tok@ is PlainText {
            Some(tok_payload(tok@))
        } else {
            None
        }),
{
    match tok {
        Token::PlainText(x) => Some(*x),
        _ => None,
    }
}

/// The byte of a plain text or a number token.
fn word_payload(tok: &Token) -> (r: Option<u8>)
    ensures
        r == (if is_word_tok(tok@) {
            Some(tok_payload(tok@))
        } else {
            None
        }),
{
    match tok {
        Token::PlainText(x) => Some(*x),
        Token::Number(x) => Some(*x),
        _ => None,
    }
}

impl MarkdownParser {
    /// The models of the tokens.
    pub closed spec fn tokens_model(&self) -> Seq<MdTok> {
        toks(self.tokens@)
    }

    /// The position of the cursor.
    pub closed spec fn pos(&self) -> int {
        self.position as int
    }

    /// The cursor stays within two past the end, and no position overflows.
    pub closed spec fn wf(&self) -> bool {
        self.position <= self.tokens@.len() + 2 && self.tokens@.len() + 3 <= usize::MAX
    }

    /// A parser at the start of the tokens.
    pub fn new(tokens: Vec<Token>) -> (p: MarkdownParser)
        requires
            tokens@.len() + 3 <= usize::MAX,
        ensures
            p.wf(),
            p.tokens_model() == toks(tokens@),
            p.pos() == 0,
    {
        MarkdownParser { tokens: tokens, position: 0 }
    }

    fn current(&self) -> (r: Option<&Token>)
        ensures
            r == (if self.position < self.tokens@.len() {
                Some(&self.tokens@[self.position as int])
            } else {
                None
            }),
    {
        if self.position >= self.tokens.len() {
            None
        } else {
            Some(&self.tokens[self.position])
        }
    }

    fn advance(&mut self)
        requires
            old(self).position < usize::MAX,
        ensures
            final(self).position == old(self).position + 1,
            final(self).tokens == old(self).tokens,
    {
        self.position += 1;
    }

    fn peek(&self) -> (r: Option<&Token>)
        requires
            self.position < usize::MAX,
        ensures
            r == (if self.position + 1 < self.tokens@.len() {
                Some(&self.tokens@[self.position + 1])
            } else {
                None
            }),
    {
        if self.position + 1 >= self.tokens.len() {
            None
        } else {
            Some(&self.tokens[self.position + 1])
        }
    }

    /// Reads the run of plain text tokens at the cursor.
    fn parse_plain_text_until(&mut self) -> (text: Vec<u8>)
        requires
            old(self).wf(),
        ensures
            final(self).wf(),
            final(self).tokens == old(self).tokens,
            final(self).pos() == pt_run_end(old(self).tokens_model(), old(self).pos()),
            text@ == payloads(old(self).tokens_model(), old(self).pos(), final(self).pos()),
    {
        let ghost t = self.tokens_model();
        let ghost toks0 = self.tokens;
        let ghost start = self.pos();
        let mut text: Vec<u8> = Vec::new();
        loop
            invariant
                self.wf(),
                self.tokens == toks0,
                self.tokens_model() == t,
                0 <= start <= self.pos(),
                pt_run_end(t, self.pos()) == pt_run_end(t, start),
                text@ == payloads(t, start, self.pos()),
            ensures
                self.wf(),
                self.tokens == toks0,
                self.tokens_model() == t,
                self.pos() == pt_run_end(t, start),
                text@ == payloads(t, start, self.pos()),
            decreases self.tokens@.len() - self.position,
        {
            match self.current() {
                None => break,
                Some(tok) => {
                    match text_payload(tok) {
                        Some(x) => {
                            proof {
                                lemma_payloads_push(t, start, self.pos());
                            }
                            text.push(x);
                            self.advance();
                        },
                        None => break,
                    }
                },
            }
        }
        text
    }

    /// A run of plain text and numbers becomes one plain text content.
    fn step_word(&mut self, html_value: &mut Vec<PhrasingHtmlContent>)
        requires
            old(self).wf(),
            0 <= old(self).pos() < old(self).tokens_model().len(),
            is_word_tok(old(self).tokens_model()[old(self).pos()]),
        ensures
            final(self).wf(),
            final(self).tokens == old(self).tokens,
            simple_para_step(old(self).tokens_model(), old(self).pos()) matches ParaStep::Go(p, out)
                && final(self).pos() == p && phrs(final(html_value)@) == phrs(old(html_value)@)
                + out,
    {
        let ghost t = self.tokens_model();
        let ghost toks0 = self.tokens;
        let ghost start = self.pos();
        let c = match word_payload(&self.tokens[self.position]) {
            Some(c) => c,
            None => 0u8,
        };
        let mut pt: Vec<u8> = Vec::new();
        pt.push(c);
        proof {
            lemma_run_bounds(t, start, MdTok::Newline);
            assert(pt@ =~= payloads(t, start, start + 1));
        }
        loop
            invariant
                self.wf(),
                self.tokens == toks0,
                self.tokens_model() == t,
                0 <= start <= self.pos() < t.len(),
                word_run_end(t, self.pos() + 1) == word_run_end(t, start),
                pt@ == payloads(t, start, self.pos() + 1),
            ensures
                self.wf(),
                self.tokens == toks0,
                self.pos() + 1 == word_run_end(t, start),
                pt@ == payloads(t, start, self.pos() + 1),
            decreases self.tokens@.len() - self.position,
        {
            match self.peek() {
                Some(tok) => match word_payload(tok) {
                    Some(nc) => {
                        proof {
                            lemma_payloads_push(t, start, self.pos() + 1);
                        }
                        pt.push(nc);
                        self.advance();
                    },
                    None => break,
                },
                None => break,
            }
        }
        let ghost before = html_value@;
        push_phrasing(html_value, PhrasingHtmlContent::ParagraphPlainText(pt));
        self.advance();
        assert(phrs(html_value@) =~= phrs(before) + seq![
            Phr::PlainText(payloads(t, start, self.pos())),
        ]);
    }

    /// Inline code between back ticks.
    fn step_code(&mut self, html_value: &mut Vec<PhrasingHtmlContent>)
        requires
            old(self).wf(),
            0 <= old(self).pos() < old(self).tokens_model().len(),
            old(self).tokens_model()[old(self).pos()] is BackTick,
        ensures
            final(self).wf(),
            final(self).tokens == old(self).tokens,
            simple_para_step(old(self).tokens_model(), old(self).pos()) matches ParaStep::Go(p, out)
                && final(self).pos() == p && phrs(final(html_value)@) == phrs(old(html_value)@)
                + out,
    {
        let ghost t = self.tokens_model();
        let ghost toks0 = self.tokens;
        let ghost start = self.pos();
        let mut pt: Vec<u8> = Vec::new();
        proof {
            lemma_run_bounds(t, start + 1, MdTok::Newline);
        }
        loop
            invariant
                self.wf(),
                self.tokens == toks0,
                self.tokens_model() == t,
                0 <= start <= self.pos() < t.len(),
                pt_run_end(t, self.pos() + 1) == pt_run_end(t, start + 1),
                pt@ == payloads(t, start + 1, self.pos() + 1),
            ensures
                self.wf(),
                self.tokens == toks0,
                self.pos() < t.len(),
                self.pos() + 1 == pt_run_end(t, start + 1),
                pt@ == payloads(t, start + 1, self.pos() + 1),
            decreases self.tokens@.len() - self.position,
        {
            match self.peek() {
                Some(tok) => match text_payload(tok) {
                    Some(nc) => {
                        proof {
                            lemma_payloads_push(t, start + 1, self.pos() + 1);
                        }
                        pt.push(nc);
                        self.advance();
                    },
                    None => break,
                },
                None => break,
            }
        }
        let closing = match self.peek() {
            Some(Token::Code) => true,
            _ => false,
        };
        if closing {
            self.advance();
        }
        let ghost before = html_value@;
        push_phrasing(html_value, PhrasingHtmlContent::Code(pt));
        self.advance();
        assert(phrs(html_value@) =~= phrs(before) + seq![
            Phr::Code(payloads(t, start + 1, pt_run_end(t, start + 1))),
        ]);
    }

    /// A `*` before plain text opens italic text; a `*` at the end stays
    /// plain text.
    fn step_emphasis(&mut self, html_value: &mut Vec<PhrasingHtmlContent>)
        requires
            old(self).wf(),
            0 <= old(self).pos() < old(self).tokens_model().len(),
            old(self).tokens_model()[old(self).pos()] is Asterik,
            !(simple_emphasis_step(old(self).tokens_model(), old(self).pos()) is Stuck),
        ensures
            final(self).wf(),
            final(self).tokens == old(self).tokens,
            simple_emphasis_step(old(self).tokens_model(), old(self).pos()) matches ParaStep::Go(p, out)
                && final(self).pos() == p && phrs(final(html_value)@) == phrs(old(html_value)@)
                + out,
    {
        let ghost t = self.tokens_model();
        let ghost start = self.pos();
        let ghost before = html_value@;
        proof {
            lemma_run_bounds(t, start + 1, MdTok::Newline);
        }
        if self.peek().is_none() {
            let mut star: Vec<u8> = Vec::new();
            star.push(42u8);
            push_phrasing(html_value, PhrasingHtmlContent::ParagraphPlainText(star));
            self.advance();
            assert(phrs(html_value@) =~= phrs(before) + seq![Phr::PlainText(seq![42u8])]);
            return;
        }
        self.advance();
        let mut text = self.parse_plain_text_until();
        let ghost tv = text@;
        let closed = match self.current() {
            Some(Token::Asterik) => true,
            _ => false,
        };
        if closed {
            push_phrasing(html_value, PhrasingHtmlContent::Italic(text));
            assert(phrs(html_value@) =~= phrs(before) + seq![Phr::Italic(tv)]);
        } else {
            let mut plain_text: Vec<u8> = Vec::new();
            plain_text.push(42u8);
            plain_text.append(&mut text);
            push_phrasing(html_value, PhrasingHtmlContent::ParagraphPlainText(plain_text));
            assert(phrs(html_value@) =~= phrs(before) + seq![Phr::PlainText(seq![42u8] + tv)]);
        }
        self.advance();
    }

    /// A `[` opens a link `[text](url)`. Where the brackets are not closed
    /// as expected, the text read so far is kept as plain text.
    fn step_link(&mut self, html_value: &mut Vec<PhrasingHtmlContent>)
        requires
            old(self).wf(),
            0 <= old(self).pos() < old(self).tokens_model().len(),
            old(self).tokens_model()[old(self).pos()] is SquareBracketOpen,
        ensures
            final(self).wf(),
            final(self).tokens == old(self).tokens,
            simple_link_step(old(self).tokens_model(), old(self).pos()) matches ParaStep::Go(p, out)
                && final(self).pos() == p && phrs(final(html_value)@) == phrs(old(html_value)@)
                + out,
    {
        let ghost t = self.tokens_model();
        let ghost start = self.pos();
        let ghost before = html_value@;
        proof {
            lemma_run_bounds(t, start + 1, MdTok::Newline);
        }
        self.advance();
        let mut link_text = self.parse_plain_text_until();
        let ghost text = link_text@;
        let ghost k = self.pos();
        let mut plain_text: Vec<u8> = Vec::new();
        let after_text = match self.current() {
            None => 0u8,
            Some(Token::SquareBracketClose) => 1u8,
            Some(_) => 2u8,
        };
        if after_text == 1 {
            self.advance();
        } else if after_text == 2 {
            plain_text.push(91u8);
            plain_text.append(&mut link_text);
        }
        let ghost q = self.pos();
        let ghost lt = link_text@;
        let ghost pt0 = plain_text@;
        assert(pt0 == (if k >= t.len() || t[k] is SquareBracketClose {
            Seq::empty()
        } else {
            seq![91u8] + text
        }));
        assert(lt == (if k >= t.len() || t[k] is SquareBracketClose {
            text
        } else {
            Seq::empty()
        }));
        let url_follows = match self.current() {
            Some(Token::CurveBracketOpen) => true,
            _ => false,
        };
        if url_follows {
            self.advance();
            proof {
                lemma_run_bounds(t, q + 1, MdTok::Newline);
            }
            let mut link_url = self.parse_plain_text_until();
            let ghost url = link_url@;
            let ghost m = self.pos();
            let after_url = match self.current() {
                None => 0u8,
                Some(Token::CurveBracketClose) => 1u8,
                Some(_) => 2u8,
            };
            if after_url == 1 {
                self.advance();
                if link_text.len() == 0 {
                    plain_text.push(40u8);
                    plain_text.append(&mut link_url);
                }
            } else if after_url == 2 {
                plain_text.push(40u8);
                plain_text.append(&mut link_url);
            }
            proof {
                let closed = m < t.len() && t[m] is CurveBracketClose;
                let url_dropped = m < t.len() && (!closed || lt.len() == 0);
                assert(self.pos() == (if closed { m + 1 } else { m }));
                assert(link_url@ == (if url_dropped { Seq::empty() } else { url }));
                assert(plain_text@ == (if url_dropped { pt0 + seq![40u8] + url } else { pt0 }));
            }
            if link_text.len() == 0 || link_url.len() == 0 {
                let ghost pt1 = plain_text@;
                push_phrasing(html_value, PhrasingHtmlContent::ParagraphPlainText(plain_text));
                assert(phrs(html_value@) =~= phrs(before) + seq![Phr::PlainText(pt1)]);
            } else {
                let ghost url2 = link_url@;
                push_phrasing(html_value, PhrasingHtmlContent::Link(link_text, link_url));
                assert(phrs(html_value@) =~= phrs(before) + seq![Phr::Link(lt, url2)]);
            }
        } else {
            assert(phrs(html_value@) =~= phrs(before) + Seq::<Phr>::empty());
        }
    }

    /// One step of the paragraph parser. Returns whether the paragraph goes
    /// on.
    fn paragraph_step(&mut self, html_value: &mut Vec<PhrasingHtmlContent>) -> (go: bool)
        requires
            old(self).wf(),
            0 <= old(self).pos() < old(self).tokens_model().len(),
            !(simple_para_step(old(self).tokens_model(), old(self).pos()) is Stuck),
        ensures
            final(self).wf(),
            final(self).tokens == old(self).tokens,
            match simple_para_step(old(self).tokens_model(), old(self).pos()) {
                ParaStep::Stop => !go && final(self).pos() == old(self).pos()
                    && final(html_value)@ == old(html_value)@,
                ParaStep::Go(p, out) => go && final(self).pos() == p && phrs(final(html_value)@)
                    == phrs(old(html_value)@) + out,
                _ => false,
            },
    {
        let ghost t = self.tokens_model();
        let tok = &self.tokens[self.position];
        assert(tok@ == t[self.pos()]);
        if matches!(tok, Token::SquareBracketOpen) {
            self.step_link(html_value);
            true
        } else if matches!(tok, Token::PlainText(_)) || matches!(tok, Token::Number(_)) {
            self.step_word(html_value);
            true
        } else if matches!(tok, Token::Code) {
            self.step_code(html_value);
            true
        } else if matches!(tok, Token::Asterik) {
            self.step_emphasis(html_value);
            true
        } else {
            false
        }
    }

    /// Parses a paragraph: inline contents up to the first token that cannot
    /// belong to one.
    pub fn parse_paragraph(&mut self) -> (h: HtmlToken)
        requires
            old(self).wf(),
            simple_paragraph(old(self).tokens_model(), old(self).pos()) is Some,
        ensures
            final(self).wf(),
            final(self).tokens_model() == old(self).tokens_model(),
            final(self).pos() == end_of(simple_paragraph(old(self).tokens_model(), old(self).pos())),
            h@ == HtmlNode::Paragraph(items_of(simple_paragraph(old(self).tokens_model(), old(self).pos()))),
    {
        let ghost t = self.tokens_model();
        let ghost toks0 = self.tokens;
        let ghost r = simple_paragraph(t, self.pos());
        let mut html_value: Vec<PhrasingHtmlContent> = Vec::new();
        assert(phrs(html_value@) =~= Seq::<Phr>::empty());
        while self.position < self.tokens.len()
            invariant_except_break
                simple_para_from(t, self.pos(), phrs(html_value@)) == r,
            invariant
                self.wf(),
                self.tokens == toks0,
                self.tokens_model() == t,
                r is Some,
            ensures
                self.wf(),
                self.tokens == toks0,
                r == Some((self.pos(), phrs(html_value@))),
            decreases self.tokens@.len() + 2 - self.position,
        {
            let ghost pos = self.pos();
            let ghost acc = phrs(html_value@);
            proof {
                lemma_simple_para_step_progress(t, pos);
            }
            let go = self.paragraph_step(&mut html_value);
            if !go {
                break;
            }
        }
        HtmlToken::Paragraph(html_value)
    }

    /// Parses all tokens from the cursor on into HTML nodes. Only headers,
    /// paragraphs and line breaks are handled; any other token at the start
    /// of a block is refused (`requires` leaves it out).
    pub fn parse(&mut self) -> (nodes: Vec<HtmlToken>)
        requires
            old(self).wf(),
            simple_document(old(self).tokens_model(), old(self).pos()) is Some,
        ensures
            final(self).wf(),
            final(self).tokens_model() == old(self).tokens_model(),
            final(self).pos() == end_of(simple_document(old(self).tokens_model(), old(self).pos())),
            html_nodes(nodes@) == items_of(simple_document(old(self).tokens_model(), old(self).pos())),
    {
        let ghost t = self.tokens_model();
        let ghost r = simple_document(t, self.pos());
        let mut html_value: Vec<HtmlToken> = Vec::new();
        assert(html_nodes(html_value@) =~= Seq::<HtmlNode>::empty());
        while self.position < self.tokens.len()
            invariant
                self.wf(),
                self.tokens_model() == t,
                simple_doc_from(t, self.pos(), html_nodes(html_value@)) == r,
                r is Some,
            decreases self.tokens@.len() + 2 - self.position,
        {
            let ghost pos = self.pos();
            let ghost acc = html_nodes(html_value@);
            let ghost step = simple_doc_step(t, pos);
            proof {
                lemma_simple_doc_step_progress(t, pos);
            }
            let tok = &self.tokens[self.position];
            assert(tok@ == t[pos]);
            match tok {
                Token::Header(h) => {
                    let (level, text) = h.parts();
                    let node = heading(level, copy_bytes(text));
                    push_node(&mut html_value, node);
                    self.advance();
                },
                Token::PlainText(_) | Token::Number(_) | Token::Asterik => {
                    let node = self.parse_paragraph();
                    push_node(&mut html_value, node);
                    self.advance();
                },
                Token::Newline => {
                    self.advance();
                    assert(html_nodes(html_value@) =~= acc + Seq::<HtmlNode>::empty());
                },
                _ => {
                    // refused; `requires` leaves such tokens out
                    assert(false);
                },
            }
            assert(self.pos() == end_of(step));
            assert(html_nodes(html_value@) == acc + items_of(step));
        }
        html_value
    }
}

} // verus!
