//! The HTML parser: turns [`MarkdownToken`]s into [`HtmlToken`]s.

use vstd::prelude::*;

use crate::lexer::plain_texts;
use crate::token::{
    copy_bytes, header_parts, html_nodes, md_toks, phrs, HtmlNode, HtmlToken, MarkdownToken, MdTok,
    Phr, PhrasingHtmlContent,
};

verus! {

// ---------------------------------------------------------------------------
// Specification of the parser
// ---------------------------------------------------------------------------

/// The byte that a plain text or a number token holds.
pub open spec fn tok_payload(x: MdTok) -> u8 {
    match x {
        MdTok::PlainText(b) => b,
        MdTok::Number(b) => b,
        _ => 0,
    }
}

/// A plain text or a number token.
pub open spec fn is_word_tok(x: MdTok) -> bool {
    x is PlainText || x is Number
}

/// First index at or after `i` that holds no plain text token (or the end).
pub open spec fn pt_run_end(t: Seq<MdTok>, i: int) -> int
    decreases t.len() - i,
{
    if i < 0 || i >= t.len() || !(t[i] is PlainText) {
        i
    } else {
        pt_run_end(t, i + 1)
    }
}

/// First index at or after `i` that holds neither a plain text nor a number
/// token (or the end).
pub open spec fn word_run_end(t: Seq<MdTok>, i: int) -> int
    decreases t.len() - i,
{
    if i < 0 || i >= t.len() || !is_word_tok(t[i]) {
        i
    } else {
        word_run_end(t, i + 1)
    }
}

/// First index at or after `i` that holds no plain text token or holds
/// `stop` (or the end).
pub open spec fn pt_until_end(t: Seq<MdTok>, i: int, stop: MdTok) -> int
    decreases t.len() - i,
{
    if i < 0 || i >= t.len() || !(t[i] is PlainText) || t[i] == stop {
        i
    } else {
        pt_until_end(t, i + 1, stop)
    }
}

/// The bytes that the tokens from `i` up to `j` hold.
pub open spec fn payloads(t: Seq<MdTok>, i: int, j: int) -> Seq<u8> {
    if i < j {
        t.subrange(i, j).map_values(|x: MdTok| tok_payload(x))
    } else {
        Seq::empty()
    }
}

/// What one step of the paragraph parser does.
pub enum ParaStep {
    /// The paragraph ends before the current token.
    Stop,
    /// Emits the contents and ends the paragraph at the position.
    Last(int, Seq<Phr>),
    /// Emits the contents and goes on at the position.
    Go(int, Seq<Phr>),
    /// The parser makes no progress (an asterisk before a token that is
    /// neither an asterisk nor plain text).
    Stuck,
}

/// A link `[text](url)` that starts with the `[` at `pos`.
pub open spec fn link_step(t: Seq<MdTok>, pos: int) -> ParaStep {
    let p = pos + 1;
    if p + 1 >= t.len() {
        ParaStep::Last(p, seq![Phr::PlainText(seq![91u8])])
    } else {
        let k = pt_run_end(t, p);
        let text = payloads(t, p, k);
        // position after the link text, the link text, and the text kept as plain text
        let q = if k < t.len() && t[k] is SquareBracketClose {
            k + 1
        } else {
            k
        };
        let lt = if k >= t.len() || t[k] is SquareBracketClose {
            text
        } else {
            Seq::empty()
        };
        let pt0 = if k >= t.len() || t[k] is SquareBracketClose {
            Seq::empty()
        } else {
            seq![91u8] + text
        };
        if q < t.len() && t[q] is CurveBracketOpen {
            let r = q + 1;
            let m = word_run_end(t, r);
            let url = payloads(t, r, m);
            let closed = m < t.len() && t[m] is CurveBracketClose;
            let q2 = if closed {
                m + 1
            } else {
                m
            };
            let url_dropped = m < t.len() && (!closed || lt.len() == 0);
            let url2 = if url_dropped {
                Seq::empty()
            } else {
                url
            };
            let pt1 = if url_dropped {
                pt0 + seq![40u8] + url
            } else {
                pt0
            };
            if lt.len() == 0 || url2.len() == 0 {
                ParaStep::Go(q2, seq![Phr::PlainText(pt1)])
            } else {
                ParaStep::Go(q2, seq![Phr::Link(lt, url2)])
            }
        } else {
            ParaStep::Go(q, Seq::empty())
        }
    }
}

/// Emphasis that starts with the `*` at `pos`.
pub open spec fn emphasis_step(t: Seq<MdTok>, pos: int) -> ParaStep {
    if pos + 1 >= t.len() {
        ParaStep::Go(pos + 1, seq![Phr::PlainText(seq![42u8])])
    } else if t[pos + 1] is Asterik {
        let p = pos + 2;
        let k = pt_run_end(t, p);
        let text = payloads(t, p, k);
        if k + 1 < t.len() && t[k] is Asterik && t[k + 1] is Asterik {
            ParaStep::Go(k + 2, seq![Phr::Strong(text)])
        } else {
            ParaStep::Go(k + 1, seq![Phr::PlainText(seq![42u8] + text)])
        }
    } else if t[pos + 1] is PlainText {
        let k = pt_run_end(t, pos + 1);
        let text = payloads(t, pos + 1, k);
        if k < t.len() && t[k] is Asterik {
            ParaStep::Go(k + 1, seq![Phr::Italic(text)])
        } else {
            ParaStep::Go(k + 1, seq![Phr::PlainText(seq![42u8] + text)])
        }
    } else {
        ParaStep::Stuck
    }
}

/// One step of the paragraph parser at `pos` (which holds a token).
pub open spec fn para_step(t: Seq<MdTok>, pos: int) -> ParaStep {
    match t[pos] {
        MdTok::SquareBracketOpen => link_step(t, pos),
        MdTok::PlainText(_) => {
            let e = word_run_end(t, pos);
            ParaStep::Go(e, seq![Phr::PlainText(payloads(t, pos, e))])
        },
        MdTok::Number(_) => {
            let e = word_run_end(t, pos);
            ParaStep::Go(e, seq![Phr::PlainText(payloads(t, pos, e))])
        },
        MdTok::BackTick => {
            let k = pt_run_end(t, pos + 1);
            let code = payloads(t, pos + 1, k);
            if k < t.len() && t[k] is BackTick {
                ParaStep::Go(k + 1, seq![Phr::Code(code)])
            } else {
                ParaStep::Go(k, seq![Phr::Code(code)])
            }
        },
        MdTok::Asterik => emphasis_step(t, pos),
        _ => ParaStep::Stop,
    }
}

/// The paragraph parsed from `pos` on, after the contents `acc`: the
/// position where it ends and its contents, or `None` where the parser
/// makes no progress.
pub open spec fn para_from(t: Seq<MdTok>, pos: int, acc: Seq<Phr>) -> Option<(int, Seq<Phr>)>
    decreases t.len() - pos,
{
    if pos < 0 || pos >= t.len() {
        Some((pos, acc))
    } else {
        match para_step(t, pos) {
            ParaStep::Stop => Some((pos, acc)),
            ParaStep::Last(p, out) => Some((p, acc + out)),
            ParaStep::Stuck => None,
            ParaStep::Go(p, out) => {
                if p >= t.len() {
                    Some((p, acc + out))
                } else if p > pos {
                    para_from(t, p, acc + out)
                } else {
                    None
                }
            },
        }
    }
}

/// The paragraph that starts at `pos`.
pub open spec fn paragraph(t: Seq<MdTok>, pos: int) -> Option<(int, Seq<Phr>)> {
    para_from(t, pos, Seq::empty())
}

/// What one step of the document parser does: the position after it and
/// the nodes it emits, or `None` where the parser refuses the tokens (a
/// list item) or makes no progress inside a paragraph.
pub open spec fn doc_step(t: Seq<MdTok>, pos: int) -> Option<(int, Seq<HtmlNode>)> {
    match t[pos] {
        MdTok::Header(l, s) => Some((pos + 1, seq![HtmlNode::Heading(l, s)])),
        MdTok::Newline => Some((pos + 1, seq![HtmlNode::Break])),
        MdTok::MultilineCode(_) => {
            if pos + 1 < t.len() && t[pos + 1] is CodeBlock {
                Some((pos + 3, seq![HtmlNode::Pre(Phr::Code(t[pos + 1]->CodeBlock_0))]))
            } else {
                Some((pos + 1, Seq::empty()))
            }
        },
        MdTok::BlockQuote(_) => Some((pos + 1, seq![HtmlNode::BlockQuote(Seq::empty())])),
        MdTok::Dash => None,
        _ => match paragraph(t, pos) {
            None => None,
            Some((p, c)) => Some((p + 1, seq![HtmlNode::Paragraph(c)])),
        },
    }
}

/// The nodes parsed from `pos` on, after the nodes `acc`: the final position
/// and the nodes, or `None` where the parser refuses the tokens.
pub open spec fn doc_from(t: Seq<MdTok>, pos: int, acc: Seq<HtmlNode>) -> Option<(int, Seq<HtmlNode>)>
    decreases t.len() - pos,
{
    if pos < 0 || pos >= t.len() {
        Some((pos, acc))
    } else {
        match doc_step(t, pos) {
            None => None,
            Some((p, out)) => {
                if p >= t.len() {
                    Some((p, acc + out))
                } else if p > pos {
                    doc_from(t, p, acc + out)
                } else {
                    None
                }
            },
        }
    }
}

/// The nodes of the tokens from `pos` on.
pub open spec fn document(t: Seq<MdTok>, pos: int) -> Option<(int, Seq<HtmlNode>)> {
    doc_from(t, pos, Seq::empty())
}

/// The end position of a parse result.
pub open spec fn end_of<X>(r: Option<(int, Seq<X>)>) -> int {
    match r {
        Some((p, _)) => p,
        None => 0,
    }
}

/// The items of a parse result.
pub open spec fn items_of<X>(r: Option<(int, Seq<X>)>) -> Seq<X> {
    match r {
        Some((_, items)) => items,
        None => Seq::empty(),
    }
}

// ---------------------------------------------------------------------------
// Lemmas
// ---------------------------------------------------------------------------

/// Bounds of the run scanners.
pub proof fn lemma_run_bounds(t: Seq<MdTok>, i: int, stop: MdTok)
    requires
        0 <= i,
    ensures
        i <= pt_run_end(t, i),
        i <= t.len() ==> pt_run_end(t, i) <= t.len(),
        t.len() <= i ==> pt_run_end(t, i) == i,
        i <= word_run_end(t, i),
        i <= t.len() ==> word_run_end(t, i) <= t.len(),
        t.len() <= i ==> word_run_end(t, i) == i,
        i <= pt_until_end(t, i, stop),
        i <= t.len() ==> pt_until_end(t, i, stop) <= t.len(),
        t.len() <= i ==> pt_until_end(t, i, stop) == i,
    decreases t.len() - i,
{
    if i < t.len() {
        lemma_run_bounds(t, i + 1, stop);
    }
}

/// Each step of the paragraph parser moves forward.
pub proof fn lemma_para_step_progress(t: Seq<MdTok>, pos: int)
    requires
        0 <= pos < t.len(),
    ensures
        para_step(t, pos) matches ParaStep::Go(p, _) ==> pos < p <= t.len() + 1,
        para_step(t, pos) matches ParaStep::Last(p, _) ==> pos < p <= t.len(),
{
    lemma_run_bounds(t, pos, MdTok::Newline);
    lemma_run_bounds(t, pos + 1, MdTok::Newline);
    lemma_run_bounds(t, pos + 2, MdTok::Newline);
    let k = pt_run_end(t, pos + 1);
    let q = if k < t.len() && t[k] is SquareBracketClose {
        k + 1
    } else {
        k
    };
    lemma_run_bounds(t, q + 1, MdTok::Newline);
}

/// A paragraph ends at or after its start, and at most one past the end.
pub proof fn lemma_para_from_end(t: Seq<MdTok>, pos: int, acc: Seq<Phr>)
    requires
        0 <= pos,
        para_from(t, pos, acc) is Some,
    ensures
        pos <= end_of(para_from(t, pos, acc)),
        pos <= t.len() ==> end_of(para_from(t, pos, acc)) <= t.len() + 1,
        t.len() <= pos ==> end_of(para_from(t, pos, acc)) == pos,
    decreases t.len() - pos,
{
    if pos < t.len() {
        lemma_para_step_progress(t, pos);
        match para_step(t, pos) {
            ParaStep::Go(p, out) => {
                if p < t.len() {
                    lemma_para_from_end(t, p, acc + out);
                }
            },
            _ => {},
        }
    }
}

/// Each step of the document parser moves forward, at most two past the end.
pub proof fn lemma_doc_step_progress(t: Seq<MdTok>, pos: int)
    requires
        0 <= pos < t.len(),
        doc_step(t, pos) is Some,
    ensures
        pos < end_of(doc_step(t, pos)) <= t.len() + 2,
{
    if paragraph(t, pos) is Some {
        lemma_para_from_end(t, pos, Seq::empty());
    }
}

proof fn lemma_word_run_of_plain_texts(s: Seq<u8>, i: int)
    requires
        0 <= i <= s.len(),
    ensures
        word_run_end(plain_texts(s), i) == s.len(),
    decreases s.len() - i,
{
    if i < s.len() {
        lemma_word_run_of_plain_texts(s, i + 1);
    }
}

/// A run of plain text is one paragraph: the parser reads all of it (and one
/// position past it) and emits a single paragraph holding the bytes as
/// plain text.
pub proof fn plain_text_is_one_paragraph(s: Seq<u8>)
    requires
        s.len() > 0,
    ensures
        document(plain_texts(s), 0) == Some(
            (s.len() + 1 as int, seq![HtmlNode::Paragraph(seq![Phr::PlainText(s)])]),
        ),
{
    let t = plain_texts(s);
    lemma_word_run_of_plain_texts(s, 0);
    assert(payloads(t, 0, s.len() as int) =~= s);
    assert(para_step(t, 0) == ParaStep::Go(s.len() as int, seq![Phr::PlainText(s)]));
    assert(Seq::<Phr>::empty() + seq![Phr::PlainText(s)] =~= seq![Phr::PlainText(s)]);
    assert(paragraph(t, 0) == Some((s.len() as int, seq![Phr::PlainText(s)])));
    let nodes = seq![HtmlNode::Paragraph(seq![Phr::PlainText(s)])];
    assert(doc_step(t, 0) == Some((s.len() + 1 as int, nodes)));
    assert(Seq::<HtmlNode>::empty() + nodes =~= nodes);
}

proof fn lemma_doc_from_reads_all(t: Seq<MdTok>, pos: int, acc: Seq<HtmlNode>)
    requires
        0 <= pos,
        doc_from(t, pos, acc) is Some,
    ensures
        t.len() <= end_of(doc_from(t, pos, acc)),
        pos <= t.len() ==> end_of(doc_from(t, pos, acc)) <= t.len() + 2,
    decreases t.len() - pos,
{
    if pos < t.len() {
        lemma_doc_step_progress(t, pos);
        match doc_step(t, pos) {
            Some((p, out)) => {
                if p < t.len() {
                    lemma_doc_from_reads_all(t, p, acc + out);
                }
            },
            None => {},
        }
    }
}

/// The parser reads every token: where it accepts the tokens from `pos` on,
/// it stops at or past their end (and at most two positions past it).
pub proof fn document_reads_every_token(t: Seq<MdTok>, pos: int)
    requires
        0 <= pos <= t.len(),
        document(t, pos) is Some,
    ensures
        t.len() <= end_of(document(t, pos)) <= t.len() + 2,
{
    lemma_doc_from_reads_all(t, pos, Seq::empty());
}

proof fn lemma_doc_from_count(t: Seq<MdTok>, pos: int, acc: Seq<HtmlNode>)
    requires
        0 <= pos <= t.len(),
        doc_from(t, pos, acc) is Some,
    ensures
        items_of(doc_from(t, pos, acc)).len() <= acc.len() + t.len() - pos,
    decreases t.len() - pos,
{
    if pos < t.len() {
        lemma_doc_step_progress(t, pos);
        match doc_step(t, pos) {
            Some((p, out)) => {
                assert(out.len() <= 1);
                if p < t.len() {
                    lemma_doc_from_count(t, p, acc + out);
                }
            },
            None => {},
        }
    }
}

/// The parser gives at most one node per token, and once it has read the
/// tokens, parsing again from where it stopped gives no node.
pub proof fn at_most_one_node_per_token(t: Seq<MdTok>, pos: int)
    requires
        0 <= pos <= t.len(),
        document(t, pos) is Some,
    ensures
        items_of(document(t, pos)).len() <= t.len() - pos,
        document(t, end_of(document(t, pos))) == Some(
            (end_of(document(t, pos)), Seq::<HtmlNode>::empty()),
        ),
{
    lemma_doc_from_count(t, pos, Seq::empty());
    lemma_doc_from_reads_all(t, pos, Seq::empty());
}

/// The nodes `pre` put before a parse result.
pub open spec fn before_nodes(
    pre: Seq<HtmlNode>,
    r: Option<(int, Seq<HtmlNode>)>,
) -> Option<(int, Seq<HtmlNode>)> {
    match r {
        Some((p, x)) => Some((p, pre + x)),
        None => None,
    }
}

proof fn lemma_doc_from_acc(t: Seq<MdTok>, pos: int, acc: Seq<HtmlNode>)
    requires
        0 <= pos,
    ensures
        doc_from(t, pos, acc) == before_nodes(acc, doc_from(t, pos, Seq::empty())),
    decreases t.len() - pos,
{
    if pos >= t.len() {
        assert(acc + Seq::<HtmlNode>::empty() =~= acc);
    } else {
        match doc_step(t, pos) {
            Some((p, out)) => {
                assert(Seq::<HtmlNode>::empty() + out =~= out);
                if p >= t.len() {
                } else if p > pos {
                    lemma_doc_from_acc(t, p, acc + out);
                    lemma_doc_from_acc(t, p, out);
                    match doc_from(t, p, Seq::empty()) {
                        Some((q, x)) => {
                            assert(acc + out + x =~= acc + (out + x));
                        },
                        None => {},
                    }
                }
            },
            None => {},
        }
    }
}

proof fn lemma_doc_step_then_rest(t: Seq<MdTok>, pos: int)
    requires
        0 <= pos < t.len(),
        doc_step(t, pos) matches Some((p, _)) && p > pos,
    ensures
        document(t, pos) == before_nodes(items_of(doc_step(t, pos)), document(t, end_of(doc_step(t, pos)))),
{
    let p = end_of(doc_step(t, pos));
    let out = items_of(doc_step(t, pos));
    assert(Seq::<HtmlNode>::empty() + out =~= out);
    if p >= t.len() {
        assert(out + Seq::<HtmlNode>::empty() =~= out);
    } else {
        lemma_doc_from_acc(t, p, out);
    }
}

/// A header token becomes a heading of the same level and text: the nodes
/// from a header token on are that heading, then the nodes of the tokens
/// after it.
pub proof fn header_becomes_heading_of_its_level(t: Seq<MdTok>, pos: int, l: int, text: Seq<u8>)
    requires
        0 <= pos < t.len(),
        t[pos] == MdTok::Header(l, text),
    ensures
        document(t, pos) == before_nodes(seq![HtmlNode::Heading(l, text)], document(t, pos + 1)),
{
    lemma_doc_step_then_rest(t, pos);
}

/// A line break token becomes a break node, and the parser goes on after it.
pub proof fn newline_becomes_break(t: Seq<MdTok>, pos: int)
    requires
        0 <= pos < t.len(),
        t[pos] is Newline,
    ensures
        document(t, pos) == before_nodes(seq![HtmlNode::Break], document(t, pos + 1)),
{
    lemma_doc_step_then_rest(t, pos);
}

/// A fenced code block (its opening fence, its code and its closing fence)
/// becomes one preformatted node holding the code, and the parser goes on
/// after the closing fence.
pub proof fn code_block_becomes_pre(t: Seq<MdTok>, pos: int, lang: Seq<u8>, code: Seq<u8>)
    requires
        0 <= pos,
        pos + 1 < t.len(),
        t[pos] == MdTok::MultilineCode(lang),
        t[pos + 1] == MdTok::CodeBlock(code),
    ensures
        document(t, pos) == before_nodes(
            seq![HtmlNode::Pre(Phr::Code(code))],
            document(t, pos + 3),
        ),
{
    lemma_doc_step_then_rest(t, pos);
}

/// A block quote token becomes an empty block quote node (its text is not
/// kept), and the parser goes on after it.
pub proof fn block_quote_becomes_empty_quote(t: Seq<MdTok>, pos: int)
    requires
        0 <= pos < t.len(),
        t[pos] is BlockQuote,
    ensures
        document(t, pos) == before_nodes(
            seq![HtmlNode::BlockQuote(Seq::empty())],
            document(t, pos + 1),
        ),
{
    lemma_doc_step_then_rest(t, pos);
}

/// A list item marker at the start of a block is refused.
pub proof fn list_item_is_refused(t: Seq<MdTok>, pos: int)
    requires
        0 <= pos < t.len(),
        t[pos] is Dash,
    ensures
        document(t, pos) is None,
{
}

proof fn lemma_pt_run(t: Seq<MdTok>, i: int, e: int)
    requires
        0 <= i <= e <= t.len(),
        forall|j: int| i <= j < e ==> #[trigger] t[j] is PlainText,
        e < t.len() ==> !(t[e] is PlainText),
    ensures
        pt_run_end(t, i) == e,
    decreases e - i,
{
    if i < e {
        lemma_pt_run(t, i + 1, e);
    }
}

proof fn lemma_word_run(t: Seq<MdTok>, i: int, e: int)
    requires
        0 <= i <= e <= t.len(),
        forall|j: int| i <= j < e ==> is_word_tok(#[trigger] t[j]),
        e < t.len() ==> !is_word_tok(t[e]),
    ensures
        word_run_end(t, i) == e,
    decreases e - i,
{
    if i < e {
        lemma_word_run(t, i + 1, e);
    }
}

proof fn lemma_payloads_of_text(t: Seq<MdTok>, i: int, x: Seq<u8>)
    requires
        0 <= i,
        i + x.len() <= t.len(),
        forall|j: int| 0 <= j < x.len() ==> #[trigger] t[i + j] == MdTok::PlainText(x[j]),
    ensures
        payloads(t, i, i + x.len()) == x,
{
    if x.len() > 0 {
        assert forall|j: int| 0 <= j < x.len() implies payloads(t, i, i + x.len())[j] == x[j] by {
            assert(t[i + j] == MdTok::PlainText(x[j]));
        }
        assert(payloads(t, i, i + x.len()) =~= x);
    }
}

/// A closed link `[text](url)` does not end the paragraph: the paragraph
/// from the `[` is the link, then the paragraph from the token after the
/// `)`.
pub proof fn closed_link_continues_paragraph(
    t: Seq<MdTok>,
    pos: int,
    x: Seq<u8>,
    u: Seq<u8>,
    acc: Seq<Phr>,
)
    requires
        0 <= pos,
        x.len() > 0,
        u.len() > 0,
        pos + x.len() + u.len() + 4 <= t.len(),
        t[pos] is SquareBracketOpen,
        forall|j: int| 0 <= j < x.len() ==> #[trigger] t[pos + 1 + j] == MdTok::PlainText(x[j]),
        t[pos + 1 + x.len()] is SquareBracketClose,
        t[pos + 2 + x.len()] is CurveBracketOpen,
        forall|j: int|
            0 <= j < u.len() ==> #[trigger] t[pos + 3 + x.len() + j] == MdTok::PlainText(u[j]),
        t[pos + 3 + x.len() + u.len()] is CurveBracketClose,
    ensures
        para_from(t, pos, acc) == para_from(
            t,
            pos + x.len() + u.len() + 4,
            acc.push(Phr::Link(x, u)),
        ),
{
    let k = pos + 1 + x.len();
    let r = k + 2;
    let m = r + u.len();
    assert forall|j: int| pos + 1 <= j < k implies #[trigger] t[j] is PlainText by {
        assert(t[pos + 1 + (j - pos - 1)] == MdTok::PlainText(x[j - pos - 1]));
    }
    lemma_pt_run(t, pos + 1, k);
    lemma_payloads_of_text(t, pos + 1, x);
    assert forall|j: int| r <= j < m implies is_word_tok(#[trigger] t[j]) by {
        assert(t[pos + 3 + x.len() + (j - r)] == MdTok::PlainText(u[j - r]));
    }
    lemma_word_run(t, r, m);
    assert forall|j: int| 0 <= j < u.len() implies #[trigger] t[r + j] == MdTok::PlainText(u[j]) by {
        assert(t[pos + 3 + x.len() + j] == MdTok::PlainText(u[j]));
    }
    lemma_payloads_of_text(t, r, u);
    assert(link_step(t, pos) == ParaStep::Go(m + 1, seq![Phr::Link(x, u)]));
    assert(acc + seq![Phr::Link(x, u)] =~= acc.push(Phr::Link(x, u)));
}

/// A run of plain text is one text content of the paragraph, and the
/// paragraph goes on after it.
pub proof fn plain_run_continues_paragraph(t: Seq<MdTok>, pos: int, x: Seq<u8>, acc: Seq<Phr>)
    requires
        0 <= pos,
        x.len() > 0,
        pos + x.len() <= t.len(),
        forall|j: int| 0 <= j < x.len() ==> #[trigger] t[pos + j] == MdTok::PlainText(x[j]),
        pos + x.len() < t.len() ==> !is_word_tok(t[pos + x.len()]),
    ensures
        para_from(t, pos, acc) == para_from(t, pos + x.len(), acc.push(Phr::PlainText(x))),
{
    let e = pos + x.len();
    assert forall|j: int| pos <= j < e implies is_word_tok(#[trigger] t[j]) by {
        assert(t[pos + (j - pos)] == MdTok::PlainText(x[j - pos]));
    }
    lemma_word_run(t, pos, e);
    lemma_payloads_of_text(t, pos, x);
    assert(t[pos + 0] == MdTok::PlainText(x[0]));
    assert(acc + seq![Phr::PlainText(x)] =~= acc.push(Phr::PlainText(x)));
}

proof fn lemma_text_tokens(t: Seq<MdTok>, i: int, x: Seq<u8>)
    requires
        0 <= i,
        i + x.len() <= t.len(),
        forall|j: int| 0 <= j < x.len() ==> #[trigger] t[i + j] == MdTok::PlainText(x[j]),
        i + x.len() < t.len() ==> !(t[i + x.len()] is PlainText),
    ensures
        pt_run_end(t, i) == i + x.len(),
        payloads(t, i, i + x.len()) == x,
{
    assert forall|j: int| i <= j < i + x.len() implies #[trigger] t[j] is PlainText by {
        assert(t[i + (j - i)] == MdTok::PlainText(x[j - i]));
    }
    lemma_pt_run(t, i, i + x.len());
    lemma_payloads_of_text(t, i, x);
}

/// `**text**` is strong text, and the paragraph goes on after it.
pub proof fn strong_continues_paragraph(t: Seq<MdTok>, pos: int, x: Seq<u8>, acc: Seq<Phr>)
    requires
        0 <= pos,
        pos + x.len() + 4 <= t.len(),
        t[pos] is Asterik,
        t[pos + 1] is Asterik,
        forall|j: int| 0 <= j < x.len() ==> #[trigger] t[pos + 2 + j] == MdTok::PlainText(x[j]),
        t[pos + 2 + x.len()] is Asterik,
        t[pos + 3 + x.len()] is Asterik,
    ensures
        para_from(t, pos, acc) == para_from(t, pos + x.len() + 4, acc.push(Phr::Strong(x))),
{
    lemma_text_tokens(t, pos + 2, x);
    assert(emphasis_step(t, pos) == ParaStep::Go(pos + x.len() + 4, seq![Phr::Strong(x)]));
    assert(acc + seq![Phr::Strong(x)] =~= acc.push(Phr::Strong(x)));
}

/// `*text*` is italic text, and the paragraph goes on after it.
pub proof fn italic_continues_paragraph(t: Seq<MdTok>, pos: int, x: Seq<u8>, acc: Seq<Phr>)
    requires
        0 <= pos,
        x.len() > 0,
        pos + x.len() + 2 <= t.len(),
        t[pos] is Asterik,
        forall|j: int| 0 <= j < x.len() ==> #[trigger] t[pos + 1 + j] == MdTok::PlainText(x[j]),
        t[pos + 1 + x.len()] is Asterik,
    ensures
        para_from(t, pos, acc) == para_from(t, pos + x.len() + 2, acc.push(Phr::Italic(x))),
{
    lemma_text_tokens(t, pos + 1, x);
    assert(t[pos + 1 + 0] == MdTok::PlainText(x[0]));
    assert(emphasis_step(t, pos) == ParaStep::Go(pos + x.len() + 2, seq![Phr::Italic(x)]));
    assert(acc + seq![Phr::Italic(x)] =~= acc.push(Phr::Italic(x)));
}

/// `` `text` `` is code, and the paragraph goes on after it.
pub proof fn code_span_continues_paragraph(t: Seq<MdTok>, pos: int, x: Seq<u8>, acc: Seq<Phr>)
    requires
        0 <= pos,
        pos + x.len() + 2 <= t.len(),
        t[pos] is BackTick,
        forall|j: int| 0 <= j < x.len() ==> #[trigger] t[pos + 1 + j] == MdTok::PlainText(x[j]),
        t[pos + 1 + x.len()] is BackTick,
    ensures
        para_from(t, pos, acc) == para_from(t, pos + x.len() + 2, acc.push(Phr::Code(x))),
{
    lemma_text_tokens(t, pos + 1, x);
    assert(para_step(t, pos) == ParaStep::Go(pos + x.len() + 2, seq![Phr::Code(x)]));
    assert(acc + seq![Phr::Code(x)] =~= acc.push(Phr::Code(x)));
}

/// A paragraph ends at the first token that cannot belong to it (a line
/// break, a header, a block quote, a code fence, a list marker, a tab, a
/// closing bracket): the paragraph is what was read so far.
pub proof fn paragraph_ends_at_block_token(t: Seq<MdTok>, pos: int, acc: Seq<Phr>)
    requires
        0 <= pos < t.len(),
        !(t[pos] is SquareBracketOpen || t[pos] is PlainText || t[pos] is Number
            || t[pos] is BackTick || t[pos] is Asterik),
    ensures
        para_from(t, pos, acc) == Some((pos, acc)),
{
}

/// The token that ends a paragraph is read with it: a paragraph that ends
/// at `p` gives one paragraph node, and the parser goes on at `p + 1` (so a
/// line break right after a paragraph gives no break node).
pub proof fn paragraph_takes_its_end_token(t: Seq<MdTok>, pos: int)
    requires
        0 <= pos < t.len(),
        t[pos] is SquareBracketOpen || t[pos] is PlainText || t[pos] is Number
            || t[pos] is BackTick || t[pos] is Asterik,
        paragraph(t, pos) is Some,
    ensures
        document(t, pos) == before_nodes(
            seq![HtmlNode::Paragraph(items_of(paragraph(t, pos)))],
            document(t, end_of(paragraph(t, pos)) + 1),
        ),
{
    lemma_para_from_end(t, pos, Seq::empty());
    lemma_doc_step_then_rest(t, pos);
}

// ---------------------------------------------------------------------------
// The parser
// ---------------------------------------------------------------------------

/// A cursor over Markdown tokens that builds HTML nodes.
#[derive(Debug)]
pub struct HtmlParser {
    tokens: Vec<MarkdownToken>,
    position: usize,
}

/// The byte of a plain text token.
fn text_payload(tok: &MarkdownToken) -> (r: Option<u8>)
    ensures
        r == (if tok@ is PlainText {
            Some(tok_payload(tok@))
        } else {
            None
        }),
{
    match tok {
        MarkdownToken::PlainText(x) => Some(*x),
        _ => None,
    }
}

/// The byte of a plain text or a number token.
fn word_payload(tok: &MarkdownToken) -> (r: Option<u8>)
    ensures
        r == (if is_word_tok(tok@) {
            Some(tok_payload(tok@))
        } else {
            None
        }),
{
    match tok {
        MarkdownToken::PlainText(x) => Some(*x),
        MarkdownToken::Number(x) => Some(*x),
        _ => None,
    }
}

/// The heading node of the given level.
pub(crate) fn heading(level: usize, text: Vec<u8>) -> (h: HtmlToken)
    requires
        1 <= level <= 6,
    ensures
        h@ == HtmlNode::Heading(level as int, text@),
{
    if level == 1 {
        HtmlToken::Heading1(text)
    } else if level == 2 {
        HtmlToken::Heading2(text)
    } else if level == 3 {
        HtmlToken::Heading3(text)
    } else if level == 4 {
        HtmlToken::Heading4(text)
    } else if level == 5 {
        HtmlToken::Heading5(text)
    } else {
        HtmlToken::Heading6(text)
    }
}

proof fn lemma_phrs_push(v: Seq<PhrasingHtmlContent>, p: PhrasingHtmlContent)
    ensures
        phrs(v.push(p)) == phrs(v).push(p@),
{
    assert(phrs(v.push(p)) =~= phrs(v).push(p@));
}

/// Pushes an inline content and keeps the models in step.
pub(crate) fn push_phrasing(v: &mut Vec<PhrasingHtmlContent>, p: PhrasingHtmlContent)
    ensures
        phrs(final(v)@) == phrs(old(v)@).push(p@),
{
    proof {
        lemma_phrs_push(v@, p);
    }
    v.push(p);
}

/// Pushes an HTML node and keeps the models in step.
pub(crate) fn push_node(v: &mut Vec<HtmlToken>, n: HtmlToken)
    ensures
        html_nodes(final(v)@) == html_nodes(old(v)@).push(n@),
{
    proof {
        assert(html_nodes(v@.push(n)) =~= html_nodes(v@).push(n@));
    }
    v.push(n);
}

pub(crate) proof fn lemma_payloads_push(t: Seq<MdTok>, i: int, j: int)
    requires
        0 <= i <= j < t.len(),
    ensures
        payloads(t, i, j + 1) == payloads(t, i, j).push(tok_payload(t[j])),
{
    assert(payloads(t, i, j + 1) =~= payloads(t, i, j).push(tok_payload(t[j])));
}

impl HtmlParser {
    /// The models of the tokens.
    pub closed spec fn tokens_model(&self) -> Seq<MdTok> {
        md_toks(self.tokens@)
    }

    /// The position of the cursor.
    pub closed spec fn pos(&self) -> int {
        self.position as int
    }

    /// The cursor stays within two past the end, and no position overflows.
    pub closed spec fn wf(&self) -> bool {
        self.position <= self.tokens@.len() + 2 && self.tokens@.len() + 3 <= usize::MAX
    }

    /// A parser at the start of the tokens.
    pub fn new(tokens: Vec<MarkdownToken>) -> (p: HtmlParser)
        requires
            tokens@.len() + 3 <= usize::MAX,
        ensures
            p.wf(),
            p.tokens_model() == md_toks(tokens@),
            p.pos() == 0,
    {
        HtmlParser { tokens: tokens, position: 0 }
    }

    fn current(&self) -> (r: Option<&MarkdownToken>)
        ensures
            r == (if self.position < self.tokens@.len() {
                Some(&self.tokens@[self.position as int])
            } else {
                None
            }),
    {
        if self.position >= self.tokens.len() {
            None
        } else {
            Some(&self.tokens[self.position])
        }
    }

    fn advance(&mut self)
        requires
            old(self).position < usize::MAX,
        ensures
            final(self).position == old(self).position + 1,
            final(self).tokens == old(self).tokens,
    {
        self.position += 1;
    }

    fn peek(&self) -> (r: Option<&MarkdownToken>)
        requires
            self.position < usize::MAX,
        ensures
            r == (if self.position + 1 < self.tokens@.len() {
                Some(&self.tokens@[self.position + 1])
            } else {
                None
            }),
    {
        if self.position + 1 >= self.tokens.len() {
            None
        } else {
            Some(&self.tokens[self.position + 1])
        }
    }

    fn peek_ahead(&self, n: usize) -> (r: Option<&MarkdownToken>)
        requires
            self.position + n <= usize::MAX,
        ensures
            r == (if self.position + n < self.tokens@.len() {
                Some(&self.tokens@[self.position + n])
            } else {
                None
            }),
    {
        if self.position + n >= self.tokens.len() {
            None
        } else {
            Some(&self.tokens[self.position + n])
        }
    }

    /// Reads the run of plain text tokens at the cursor.
    fn parse_plain_text_until(&mut self) -> (text: Vec<u8>)
        requires
            old(self).wf(),
        ensures
            final(self).wf(),
            final(self).tokens == old(self).tokens,
            final(self).pos() == pt_run_end(old(self).tokens_model(), old(self).pos()),
            text@ == payloads(old(self).tokens_model(), old(self).pos(), final(self).pos()),
    {
        let ghost t = self.tokens_model();
        let ghost toks0 = self.tokens;
        let ghost start = self.pos();
        let mut text: Vec<u8> = Vec::new();
        loop
            invariant
                self.wf(),
                self.tokens == toks0,
                self.tokens_model() == t,
                0 <= start <= self.pos(),
                pt_run_end(t, self.pos()) == pt_run_end(t, start),
                text@ == payloads(t, start, self.pos()),
            ensures
                self.wf(),
                self.tokens == toks0,
                self.tokens_model() == t,
                self.pos() == pt_run_end(t, start),
                text@ == payloads(t, start, self.pos()),
            decreases self.tokens@.len() - self.position,
        {
            match self.current() {
                None => break,
                Some(tok) => {
                    match text_payload(tok) {
                        Some(x) => {
                            proof {
                                lemma_payloads_push(t, start, self.pos());
                            }
                            text.push(x);
                            self.advance();
                        },
                        None => break,
                    }
                },
            }
        }
        text
    }

    /// Reads plain text tokens at the cursor up to the first token equal to
    /// `token`.
    fn parse_plain_text_until_specific_token(&mut self, token: MarkdownToken) -> (text: Vec<u8>)
        requires
            old(self).wf(),
        ensures
            final(self).wf(),
            final(self).tokens == old(self).tokens,
            final(self).pos() == pt_until_end(old(self).tokens_model(), old(self).pos(), token@),
            text@ == payloads(old(self).tokens_model(), old(self).pos(), final(self).pos()),
    {
        let ghost t = self.tokens_model();
        let ghost toks0 = self.tokens;
        let ghost start = self.pos();
        let mut text: Vec<u8> = Vec::new();
        loop
            invariant
                self.wf(),
                self.tokens == toks0,
                self.tokens_model() == t,
                0 <= start <= self.pos(),
                pt_until_end(t, self.pos(), token@) == pt_until_end(t, start, token@),
                text@ == payloads(t, start, self.pos()),
            ensures
                self.wf(),
                self.tokens == toks0,
                self.tokens_model() == t,
                self.pos() == pt_until_end(t, start, token@),
                text@ == payloads(t, start, self.pos()),
            decreases self.tokens@.len() - self.position,
        {
            match self.current() {
                None => break,
                Some(tok) => {
                    if tok.same_as(&token) {
                        break;
                    }
                    match text_payload(tok) {
                        Some(x) => {
                            proof {
                                lemma_payloads_push(t, start, self.pos());
                            }
                            text.push(x);
                            self.advance();
                        },
                        None => break,
                    }
                },
            }
        }
        text
    }

    /// A run of plain text and numbers becomes one plain text content.
    fn step_word(&mut self, html_value: &mut Vec<PhrasingHtmlContent>)
        requires
            old(self).wf(),
            0 <= old(self).pos() < old(self).tokens_model().len(),
            is_word_tok(old(self).tokens_model()[old(self).pos()]),
        ensures
            final(self).wf(),
            final(self).tokens == old(self).tokens,
            para_step(old(self).tokens_model(), old(self).pos()) matches ParaStep::Go(p, out)
                && final(self).pos() == p && phrs(final(html_value)@) == phrs(old(html_value)@)
                + out,
    {
        let ghost t = self.tokens_model();
        let ghost toks0 = self.tokens;
        let ghost start = self.pos();
        let c = match word_payload(&self.tokens[self.position]) {
            Some(c) => c,
            None => 0u8,
        };
        let mut pt: Vec<u8> = Vec::new();
        pt.push(c);
        proof {
            lemma_run_bounds(t, start, MdTok::Newline);
            assert(pt@ =~= payloads(t, start, start + 1));
        }
        loop
            invariant
                self.wf(),
                self.tokens == toks0,
                self.tokens_model() == t,
                0 <= start <= self.pos() < t.len(),
                word_run_end(t, self.pos() + 1) == word_run_end(t, start),
                pt@ == payloads(t, start, self.pos() + 1),
            ensures
                self.wf(),
                self.tokens == toks0,
                self.pos() + 1 == word_run_end(t, start),
                pt@ == payloads(t, start, self.pos() + 1),
            decreases self.tokens@.len() - self.position,
        {
            match self.peek() {
                Some(tok) => match word_payload(tok) {
                    Some(nc) => {
                        proof {
                            lemma_payloads_push(t, start, self.pos() + 1);
                        }
                        pt.push(nc);
                        self.advance();
                    },
                    None => break,
                },
                None => break,
            }
        }
        let ghost before = html_value@;
        push_phrasing(html_value, PhrasingHtmlContent::ParagraphPlainText(pt));
        self.advance();
        assert(phrs(html_value@) =~= phrs(before) + seq![
            Phr::PlainText(payloads(t, start, self.pos())),
        ]);
    }

    /// Inline code between back ticks.
    fn step_code(&mut self, html_value: &mut Vec<PhrasingHtmlContent>)
        requires
            old(self).wf(),
            0 <= old(self).pos() < old(self).tokens_model().len(),
            old(self).tokens_model()[old(self).pos()] is BackTick,
        ensures
            final(self).wf(),
            final(self).tokens == old(self).tokens,
            para_step(old(self).tokens_model(), old(self).pos()) matches ParaStep::Go(p, out)
                && final(self).pos() == p && phrs(final(html_value)@) == phrs(old(html_value)@)
                + out,
    {
        let ghost t = self.tokens_model();
        let ghost toks0 = self.tokens;
        let ghost start = self.pos();
        let mut pt: Vec<u8> = Vec::new();
        proof {
            lemma_run_bounds(t, start + 1, MdTok::Newline);
        }
        loop
            invariant
                self.wf(),
                self.tokens == toks0,
                self.tokens_model() == t,
                0 <= start <= self.pos() < t.len(),
                pt_run_end(t, self.pos() + 1) == pt_run_end(t, start + 1),
                pt@ == payloads(t, start + 1, self.pos() + 1),
            ensures
                self.wf(),
                self.tokens == toks0,
                self.pos() < t.len(),
                self.pos() + 1 == pt_run_end(t, start + 1),
                pt@ == payloads(t, start + 1, self.pos() + 1),
            decreases self.tokens@.len() - self.position,
        {
            match self.peek() {
                Some(tok) => match text_payload(tok) {
                    Some(nc) => {
                        proof {
                            lemma_payloads_push(t, start + 1, self.pos() + 1);
                        }
                        pt.push(nc);
                        self.advance();
                    },
                    None => break,
                },
                None => break,
            }
        }
        let closing = match self.peek() {
            Some(MarkdownToken::BackTick) => true,
            _ => false,
        };
        if closing {
            self.advance();
        }
        let ghost before = html_value@;
        push_phrasing(html_value, PhrasingHtmlContent::Code(pt));
        self.advance();
        assert(phrs(html_value@) =~= phrs(before) + seq![
            Phr::Code(payloads(t, start + 1, pt_run_end(t, start + 1))),
        ]);
    }

    /// A `*` opens emphasis: `**strong**` or `*italic*`; otherwise it stays
    /// plain text.
    fn step_emphasis(&mut self, html_value: &mut Vec<PhrasingHtmlContent>)
        requires
            old(self).wf(),
            0 <= old(self).pos() < old(self).tokens_model().len(),
            old(self).tokens_model()[old(self).pos()] is Asterik,
            !(emphasis_step(old(self).tokens_model(), old(self).pos()) is Stuck),
        ensures
            final(self).wf(),
            final(self).tokens == old(self).tokens,
            emphasis_step(old(self).tokens_model(), old(self).pos()) matches ParaStep::Go(p, out)
                && final(self).pos() == p && phrs(final(html_value)@) == phrs(old(html_value)@)
                + out,
    {
        let ghost t = self.tokens_model();
        let ghost start = self.pos();
        let ghost before = html_value@;
        proof {
            lemma_run_bounds(t, start + 1, MdTok::Newline);
            lemma_run_bounds(t, start + 2, MdTok::Newline);
        }
        let next_is_asterisk = match self.peek() {
            None => {
                let mut star: Vec<u8> = Vec::new();
                star.push(42u8);
                push_phrasing(html_value, PhrasingHtmlContent::ParagraphPlainText(star));
                self.advance();
                assert(phrs(html_value@) =~= phrs(before) + seq![Phr::PlainText(seq![42u8])]);
                return;
            },
            Some(MarkdownToken::Asterik) => true,
            Some(_) => false,
        };
        if next_is_asterisk {
            self.advance();
            self.advance();
            let mut text = self.parse_plain_text_until();
            let ghost tv = text@;
            let closed = match (self.current(), self.peek()) {
                (Some(MarkdownToken::Asterik), Some(MarkdownToken::Asterik)) => true,
                _ => false,
            };
            if closed {
                push_phrasing(html_value, PhrasingHtmlContent::Strong(text));
                self.advance();
                assert(phrs(html_value@) =~= phrs(before) + seq![Phr::Strong(tv)]);
            } else {
                let mut plain_text: Vec<u8> = Vec::new();
                plain_text.push(42u8);
                plain_text.append(&mut text);
                push_phrasing(html_value, PhrasingHtmlContent::ParagraphPlainText(plain_text));
                assert(phrs(html_value@) =~= phrs(before) + seq![Phr::PlainText(seq![42u8] + tv)]);
            }
            self.advance();
        } else {
            self.advance();
            let mut text = self.parse_plain_text_until();
            let ghost tv = text@;
            let closed = match self.current() {
                Some(MarkdownToken::Asterik) => true,
                _ => false,
            };
            if closed {
                push_phrasing(html_value, PhrasingHtmlContent::Italic(text));
                assert(phrs(html_value@) =~= phrs(before) + seq![Phr::Italic(tv)]);
            } else {
                let mut plain_text: Vec<u8> = Vec::new();
                plain_text.push(42u8);
                plain_text.append(&mut text);
                push_phrasing(html_value, PhrasingHtmlContent::ParagraphPlainText(plain_text));
                assert(phrs(html_value@) =~= phrs(before) + seq![Phr::PlainText(seq![42u8] + tv)]);
            }
            self.advance();
        }
    }

    /// A `[` opens a link `[text](url)`. Where the brackets are not closed
    /// as expected, the text read so far is kept as plain text.
    /// Returns whether the paragraph goes on.
    fn step_link(&mut self, html_value: &mut Vec<PhrasingHtmlContent>) -> (go: bool)
        requires
            old(self).wf(),
            0 <= old(self).pos() < old(self).tokens_model().len(),
            old(self).tokens_model()[old(self).pos()] is SquareBracketOpen,
        ensures
            final(self).wf(),
            final(self).tokens == old(self).tokens,
            match link_step(old(self).tokens_model(), old(self).pos()) {
                ParaStep::Go(p, out) => go && final(self).pos() == p && phrs(final(html_value)@)
                    == phrs(old(html_value)@) + out,
                ParaStep::Last(p, out) => !go && final(self).pos() == p && phrs(final(html_value)@)
                    == phrs(old(html_value)@) + out,
                _ => false,
            },
    {
        let ghost t = self.tokens_model();
        let ghost start = self.pos();
        let ghost before = html_value@;
        proof {
            lemma_run_bounds(t, start + 1, MdTok::Newline);
        }
        self.advance();
        if self.peek().is_none() {
            let mut bracket: Vec<u8> = Vec::new();
            bracket.push(91u8);
            push_phrasing(html_value, PhrasingHtmlContent::ParagraphPlainText(bracket));
            assert(phrs(html_value@) =~= phrs(before) + seq![Phr::PlainText(seq![91u8])]);
            return false;
        }
        let mut link_text = self.parse_plain_text_until();
        let ghost text = link_text@;
        let ghost k = self.pos();
        let mut plain_text: Vec<u8> = Vec::new();
        let after_text = match self.current() {
            None => 0u8,
            Some(MarkdownToken::SquareBracketClose) => 1u8,
            Some(_) => 2u8,
        };
        if after_text == 1 {
            self.advance();
        } else if after_text == 2 {
            plain_text.push(91u8);
            plain_text.append(&mut link_text);
        }
        let ghost q = self.pos();
        let ghost lt = link_text@;
        let ghost pt0 = plain_text@;
        assert(pt0 == (if k >= t.len() || t[k] is SquareBracketClose {
            Seq::empty()
        } else {
            seq![91u8] + text
        }));
        assert(lt == (if k >= t.len() || t[k] is SquareBracketClose {
            text
        } else {
            Seq::empty()
        }));
        assert(q == (if k < t.len() && t[k] is SquareBracketClose {
            k + 1
        } else {
            k
        }));
        let url_follows = match self.current() {
            Some(MarkdownToken::CurveBracketOpen) => true,
            _ => false,
        };
        if url_follows {
            self.advance();
            proof {
                lemma_run_bounds(t, q + 1, MdTok::Newline);
            }
            let mut link_url = self.parse_word_run();
            let ghost url = link_url@;
            let ghost m = self.pos();
            let after_url = match self.current() {
                None => 0u8,
                Some(MarkdownToken::CurveBracketClose) => 1u8,
                Some(_) => 2u8,
            };
            if after_url == 1 {
                self.advance();
                if link_text.len() == 0 {
                    plain_text.push(40u8);
                    plain_text.append(&mut link_url);
                }
            } else if after_url == 2 {
                plain_text.push(40u8);
                plain_text.append(&mut link_url);
            }
            proof {
                let closed = m < t.len() && t[m] is CurveBracketClose;
                let url_dropped = m < t.len() && (!closed || lt.len() == 0);
                assert(self.pos() == (if closed { m + 1 } else { m }));
                assert(link_url@ == (if url_dropped { Seq::empty() } else { url }));
                assert(plain_text@ == (if url_dropped { pt0 + seq![40u8] + url } else { pt0 }));
            }
            if link_text.len() == 0 || link_url.len() == 0 {
                let ghost pt1 = plain_text@;
                push_phrasing(html_value, PhrasingHtmlContent::ParagraphPlainText(plain_text));
                assert(phrs(html_value@) =~= phrs(before) + seq![Phr::PlainText(pt1)]);
            } else {
                let ghost url2 = link_url@;
                push_phrasing(html_value, PhrasingHtmlContent::Link(link_text, link_url));
                assert(phrs(html_value@) =~= phrs(before) + seq![Phr::Link(lt, url2)]);
            }
        } else {
            assert(phrs(html_value@) =~= phrs(before) + Seq::<Phr>::empty());
        }
        true
    }

    /// One step of the paragraph parser. Returns whether the paragraph goes
    /// on.
    fn paragraph_step(&mut self, html_value: &mut Vec<PhrasingHtmlContent>) -> (go: bool)
        requires
            old(self).wf(),
            0 <= old(self).pos() < old(self).tokens_model().len(),
            !(para_step(old(self).tokens_model(), old(self).pos()) is Stuck),
        ensures
            final(self).wf(),
            final(self).tokens == old(self).tokens,
            match para_step(old(self).tokens_model(), old(self).pos()) {
                ParaStep::Stop => !go && final(self).pos() == old(self).pos()
                    && final(html_value)@ == old(html_value)@,
                ParaStep::Last(p, out) => !go && final(self).pos() == p && phrs(final(html_value)@)
                    == phrs(old(html_value)@) + out,
                ParaStep::Go(p, out) => go && final(self).pos() == p && phrs(final(html_value)@)
                    == phrs(old(html_value)@) + out,
                ParaStep::Stuck => false,
            },
    {
        let ghost t = self.tokens_model();
        let tok = &self.tokens[self.position];
        assert(tok@ == t[self.pos()]);
        if matches!(tok, MarkdownToken::SquareBracketOpen) {
            self.step_link(html_value)
        } else if matches!(tok, MarkdownToken::PlainText(_)) || matches!(tok, MarkdownToken::Number(_)) {
            self.step_word(html_value);
            true
        } else if matches!(tok, MarkdownToken::BackTick) {
            self.step_code(html_value);
            true
        } else if matches!(tok, MarkdownToken::Asterik) {
            self.step_emphasis(html_value);
            true
        } else {
            false
        }
    }

    /// Whether the paragraph parser makes no progress at the cursor: an
    /// asterisk before a token that is neither an asterisk nor plain text.
    fn at_stuck_emphasis(&self) -> (r: bool)
        requires
            self.wf(),
            0 <= self.pos() < self.tokens_model().len(),
        ensures
            r == (para_step(self.tokens_model(), self.pos()) is Stuck),
    {
        let ghost t = self.tokens_model();
        assert(self.tokens@[self.pos()]@ == t[self.pos()]);
        if !matches!(self.tokens[self.position], MarkdownToken::Asterik) {
            return false;
        }
        match self.peek() {
            None => false,
            Some(MarkdownToken::Asterik) => false,
            Some(MarkdownToken::PlainText(_)) => false,
            Some(_) => true,
        }
    }

    /// Parses a paragraph, or returns `None` (with the cursor anywhere) where
    /// the paragraph parser makes no progress.
    fn paragraph_or_stuck(&mut self) -> (r: Option<HtmlToken>)
        requires
            old(self).wf(),
        ensures
            final(self).wf(),
            final(self).tokens_model() == old(self).tokens_model(),
            r is Some <==> paragraph(old(self).tokens_model(), old(self).pos()) is Some,
            r matches Some(h) ==> final(self).pos() == end_of(
                paragraph(old(self).tokens_model(), old(self).pos()),
            ) && h@ == HtmlNode::Paragraph(
                items_of(paragraph(old(self).tokens_model(), old(self).pos())),
            ),
    {
        let ghost t = self.tokens_model();
        let ghost toks0 = self.tokens;
        let ghost r = paragraph(t, self.pos());
        let mut html_value: Vec<PhrasingHtmlContent> = Vec::new();
        assert(phrs(html_value@) =~= Seq::<Phr>::empty());
        while self.position < self.tokens.len()
            invariant_except_break
                para_from(t, self.pos(), phrs(html_value@)) == r,
            invariant
                self.wf(),
                self.tokens == toks0,
                self.tokens_model() == t,
                t == old(self).tokens_model(),
                r == paragraph(old(self).tokens_model(), old(self).pos()),
            ensures
                self.wf(),
                self.tokens == toks0,
                r == Some((self.pos(), phrs(html_value@))),
            decreases self.tokens@.len() + 2 - self.position,
        {
            let ghost pos = self.pos();
            let ghost acc = phrs(html_value@);
            proof {
                lemma_para_step_progress(t, pos);
            }
            if self.at_stuck_emphasis() {
                return None;
            }
            let go = self.paragraph_step(&mut html_value);
            if !go {
                break;
            }
        }
        Some(HtmlToken::Paragraph(html_value))
    }

    /// Parses a paragraph: inline contents up to the first token that cannot
    /// belong to one.
    ///
    /// An asterisk before a token that is neither an asterisk nor plain text
    /// stops the parser from making progress; `requires` leaves such tokens
    /// out.
    pub fn parse_paragraph(&mut self) -> (h: HtmlToken)
        requires
            old(self).wf(),
            paragraph(old(self).tokens_model(), old(self).pos()) is Some,
        ensures
            final(self).wf(),
            final(self).tokens_model() == old(self).tokens_model(),
            final(self).pos() == end_of(paragraph(old(self).tokens_model(), old(self).pos())),
            h@ == HtmlNode::Paragraph(items_of(paragraph(old(self).tokens_model(), old(self).pos()))),
    {
        match self.paragraph_or_stuck() {
            Some(h) => h,
            None => {
                assert(false);
                HtmlToken::Break
            },
        }
    }

    /// Parses all tokens from the cursor on into HTML nodes, or returns
    /// `None` (with the cursor anywhere) where the tokens are refused: a list
    /// item (`-`) at the start of a block, or emphasis that makes no progress.
    pub fn try_parse(&mut self) -> (r: Option<Vec<HtmlToken>>)
        requires
            old(self).wf(),
        ensures
            final(self).wf(),
            final(self).tokens_model() == old(self).tokens_model(),
            r is Some <==> document(old(self).tokens_model(), old(self).pos()) is Some,
            r matches Some(nodes) ==> final(self).pos() == end_of(
                document(old(self).tokens_model(), old(self).pos()),
            ) && html_nodes(nodes@) == items_of(
                document(old(self).tokens_model(), old(self).pos()),
            ),
    {
        let ghost t = self.tokens_model();
        let ghost r = document(t, self.pos());
        let mut html_value: Vec<HtmlToken> = Vec::new();
        assert(html_nodes(html_value@) =~= Seq::<HtmlNode>::empty());
        while self.position < self.tokens.len()
            invariant
                self.wf(),
                self.tokens_model() == t,
                doc_from(t, self.pos(), html_nodes(html_value@)) == r,
                t == old(self).tokens_model(),
                r == document(old(self).tokens_model(), old(self).pos()),
            decreases self.tokens@.len() + 2 - self.position,
        {
            let ghost pos = self.pos();
            let ghost acc = html_nodes(html_value@);
            let ghost step = doc_step(t, pos);
            proof {
                if step is Some {
                    lemma_doc_step_progress(t, pos);
                }
            }
            let tok = &self.tokens[self.position];
            assert(tok@ == t[pos]);
            match tok {
                MarkdownToken::Header(h) => {
                    let (level, text) = header_parts(h);
                    let node = heading(level, copy_bytes(text));
                    push_node(&mut html_value, node);
                    self.advance();
                },
                MarkdownToken::Newline => {
                    push_node(&mut html_value, HtmlToken::Break);
                    self.advance();
                },
                MarkdownToken::MultilineCode(_) => {
                    self.advance();
                    let code = match self.current() {
                        Some(MarkdownToken::CodeBlock(code)) => Some(copy_bytes(code)),
                        _ => None,
                    };
                    match code {
                        Some(code) => {
                            push_node(&mut html_value, HtmlToken::Pre(PhrasingHtmlContent::Code(code)));
                            self.advance();
                            self.advance();
                        },
                        None => {
                            assert(html_nodes(html_value@) =~= acc + Seq::<HtmlNode>::empty());
                        },
                    }
                },
                MarkdownToken::BlockQuote(_) => {
                    // the quoted text is not carried into the node
                    let text = self.parse_paragraph();
                    match text.get_paragraph_contents() {
                        Some(content) => {
                            push_node(&mut html_value, HtmlToken::BlockQuote(content));
                        },
                        None => {},
                    }
                    self.advance();
                },
                MarkdownToken::Dash => {
                    // lists are not rendered
                    return None;
                },
                _ => {
                    match self.paragraph_or_stuck() {
                        Some(node) => {
                            push_node(&mut html_value, node);
                            self.advance();
                        },
                        None => {
                            return None;
                        },
                    }
                },
            }
            assert(self.pos() == end_of(step));
            assert(html_nodes(html_value@) == acc + items_of(step));
        }
        Some(html_value)
    }

    /// Parses all tokens from the cursor on into HTML nodes.
    ///
    /// A list item (`-`) at the start of a block is refused, and so is
    /// emphasis that makes no progress; `requires` leaves such tokens out, and
    /// [`HtmlParser::try_parse`] returns `None` for them.
    pub fn parse(&mut self) -> (nodes: Vec<HtmlToken>)
        requires
            old(self).wf(),
            document(old(self).tokens_model(), old(self).pos()) is Some,
        ensures
            final(self).wf(),
            final(self).tokens_model() == old(self).tokens_model(),
            final(self).pos() == end_of(document(old(self).tokens_model(), old(self).pos())),
            html_nodes(nodes@) == items_of(document(old(self).tokens_model(), old(self).pos())),
    {
        match self.try_parse() {
            Some(nodes) => nodes,
            None => {
                assert(false);
                Vec::new()
            },
        }
    }

    /// Reads the run of plain text and number tokens at the cursor.
    fn parse_word_run(&mut self) -> (text: Vec<u8>)
        requires
            old(self).wf(),
        ensures
            final(self).wf(),
            final(self).tokens == old(self).tokens,
            final(self).pos() == word_run_end(old(self).tokens_model(), old(self).pos()),
            text@ == payloads(old(self).tokens_model(), old(self).pos(), final(self).pos()),
    {
        let ghost t = self.tokens_model();
        let ghost toks0 = self.tokens;
        let ghost start = self.pos();
        let mut text: Vec<u8> = Vec::new();
        loop
            invariant
                self.wf(),
                self.tokens == toks0,
                self.tokens_model() == t,
                0 <= start <= self.pos(),
                word_run_end(t, self.pos()) == word_run_end(t, start),
                text@ == payloads(t, start, self.pos()),
            ensures
                self.wf(),
                self.tokens == toks0,
                self.tokens_model() == t,
                self.pos() == word_run_end(t, start),
                text@ == payloads(t, start, self.pos()),
            decreases self.tokens@.len() - self.position,
        {
            match self.current() {
                None => break,
                Some(tok) => {
                    match word_payload(tok) {
                        Some(x) => {
                            proof {
                                lemma_payloads_push(t, start, self.pos());
                            }
                            text.push(x);
                            self.advance();
                        },
                        None => break,
                    }
                },
            }
        }
        text
    }
}

} // verus!
