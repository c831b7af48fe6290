//! The Markdown lexer: turns source bytes into [`MarkdownToken`]s.

use vstd::prelude::*;

use crate::token::{md_toks, token_byte, MarkdownHeaderToken, MarkdownInformation, MarkdownToken, MdTok};

verus! {

// ---------------------------------------------------------------------------
// Specification of the lexer
// ---------------------------------------------------------------------------

/// The bytes at which a run of ordinary text ends.
pub open spec fn is_text_stop(b: u8) -> bool {
    b == 96 || b == 13 || b == 10 || b == 42 || b == 91 || b == 93 || b == 40 || b == 41
        || b == 60 || b == 62
}

/// First index at or after `i` that holds a text stop byte, or `i` when `i`
/// is already past the end, or the length when no stop byte follows.
pub open spec fn text_end(s: Seq<u8>, i: int) -> int
    decreases s.len() - i,
{
    if i < 0 || i >= s.len() || is_text_stop(s[i]) {
        i
    } else {
        text_end(s, i + 1)
    }
}

/// First index at or after `i` that holds a back tick (or the end).
pub open spec fn code_end(s: Seq<u8>, i: int) -> int
    decreases s.len() - i,
{
    if i < 0 || i >= s.len() || s[i] == 96 {
        i
    } else {
        code_end(s, i + 1)
    }
}

/// First index at or after `i` that holds a line break byte (or the end).
pub open spec fn line_end(s: Seq<u8>, i: int) -> int
    decreases s.len() - i,
{
    if i < 0 || i >= s.len() || s[i] == 10 || s[i] == 13 {
        i
    } else {
        line_end(s, i + 1)
    }
}

/// First index at or after `i` that does not hold a `#` (or the end).
pub open spec fn hash_end(s: Seq<u8>, i: int) -> int
    decreases s.len() - i,
{
    if i < 0 || i >= s.len() || s[i] != 35 {
        i
    } else {
        hash_end(s, i + 1)
    }
}

/// The bytes from `i` up to `j`, empty when `j <= i`.
pub open spec fn slice(s: Seq<u8>, i: int, j: int) -> Seq<u8> {
    if i < j {
        s.subrange(i, j)
    } else {
        Seq::empty()
    }
}

/// One plain text token for each byte.
pub open spec fn plain_texts(b: Seq<u8>) -> Seq<MdTok> {
    b.map_values(|x: u8| MdTok::PlainText(x))
}

/// The last token emitted so far.
pub open spec fn last_tok(toks: Seq<MdTok>) -> Option<MdTok> {
    if toks.len() > 0 {
        Some(toks.last())
    } else {
        None
    }
}

pub open spec fn is_digit(b: u8) -> bool {
    48 <= b <= 57
}

/// One step of the lexer at position `pos` (which holds a byte): the position
/// after the step and the tokens it emits, or `None` where the lexer refuses
/// the input (a header of more than six `#`).
pub open spec fn lex_step(s: Seq<u8>, pos: int, last: Option<MdTok>) -> Option<(int, Seq<MdTok>)> {
    let c = s[pos];
    if c == 35 {
        // `#`: a header when the run of `#` ends at a space or at the end
        let j = hash_end(s, pos);
        if j >= s.len() || s[j] == 32 {
            if j - pos <= 6 {
                let e = text_end(s, j + 1);
                Some((e + 1, seq![MdTok::Header(j - pos, slice(s, j + 1, e))]))
            } else {
                None
            }
        } else {
            Some((pos + 1, seq![MdTok::PlainText(35)]))
        }
    } else if c == 96 {
        // back tick: a fenced code block opens with three of them
        if pos + 2 < s.len() && s[pos + 1] == 96 && s[pos + 2] == 96 {
            let e1 = text_end(s, pos + 3);
            let e2 = code_end(s, e1);
            let lang = slice(s, pos + 3, e1);
            let code = slice(s, e1, e2);
            if e2 + 2 < s.len() && s[e2] == 96 && s[e2 + 1] == 96 && s[e2 + 2] == 96 {
                Some(
                    (
                        e2 + 3,
                        seq![
                            MdTok::MultilineCode(lang),
                            MdTok::CodeBlock(code),
                            MdTok::MultilineCode(Seq::empty()),
                        ],
                    ),
                )
            } else {
                Some(
                    (
                        e2,
                        seq![MdTok::PlainText(96), MdTok::PlainText(96), MdTok::PlainText(96)]
                            + plain_texts(lang) + plain_texts(code),
                    ),
                )
            }
        } else {
            Some((pos + 1, seq![MdTok::BackTick]))
        }
    } else if c == 10 || c == 13 {
        Some((pos + 1, seq![MdTok::Newline]))
    } else if c == 62 {
        let e = line_end(s, pos + 1);
        Some((e + 1, seq![MdTok::BlockQuote(slice(s, pos + 1, e))]))
    } else if c == 42 {
        Some((pos + 1, seq![MdTok::Asterik]))
    } else if c == 9 {
        Some((pos + 1, seq![MdTok::Tab]))
    } else if c == 45 {
        if pos + 1 < s.len() && s[pos + 1] == 32 && (last == Some(MdTok::Tab) || last == Some(
            MdTok::Newline,
        )) {
            Some((pos + 2, seq![MdTok::Dash]))
        } else {
            Some((pos + 1, seq![MdTok::PlainText(45)]))
        }
    } else if c == 91 {
        Some((pos + 1, seq![MdTok::SquareBracketOpen]))
    } else if c == 93 {
        Some((pos + 1, seq![MdTok::SquareBracketClose]))
    } else if c == 40 {
        Some((pos + 1, seq![MdTok::CurveBracketOpen]))
    } else if c == 41 {
        Some((pos + 1, seq![MdTok::CurveBracketClose]))
    } else if is_digit(c) {
        if pos + 1 < s.len() && (s[pos + 1] == 46 || s[pos + 1] == 41) {
            Some((pos + 2, seq![MdTok::Number(c)]))
        } else {
            Some((pos + 1, seq![MdTok::PlainText(c)]))
        }
    } else {
        Some((pos + 1, seq![MdTok::PlainText(c)]))
    }
}

/// The position after a step.
pub open spec fn step_pos(step: Option<(int, Seq<MdTok>)>) -> int {
    match step {
        Some((p, _)) => p,
        None => 0,
    }
}

/// The tokens a step emits.
pub open spec fn step_out(step: Option<(int, Seq<MdTok>)>) -> Seq<MdTok> {
    match step {
        Some((_, out)) => out,
        None => Seq::empty(),
    }
}

/// The tokens of `s` from position `pos` on, appended to `toks`; `None`
/// where the lexer refuses the input.
pub open spec fn lex_from(s: Seq<u8>, pos: int, toks: Seq<MdTok>) -> Option<Seq<MdTok>>
    decreases s.len() - pos,
{
    if pos < 0 || pos >= s.len() {
        Some(toks)
    } else {
        match lex_step(s, pos, last_tok(toks)) {
            None => None,
            Some((p, out)) => {
                if p >= s.len() {
                    Some(toks + out)
                } else if p > pos {
                    lex_from(s, p, toks + out)
                } else {
                    None
                }
            },
        }
    }
}

/// The tokens of the whole input, or `None` where the lexer refuses it.
pub open spec fn lex(s: Seq<u8>) -> Option<Seq<MdTok>> {
    lex_from(s, 0, Seq::empty())
}

/// Bounds of the scanning functions.
pub proof fn lemma_scan_bounds(s: Seq<u8>, i: int)
    requires
        0 <= i,
    ensures
        i <= text_end(s, i),
        i <= s.len() ==> text_end(s, i) <= s.len(),
        i <= code_end(s, i),
        i <= s.len() ==> code_end(s, i) <= s.len(),
        i <= line_end(s, i),
        i <= s.len() ==> line_end(s, i) <= s.len(),
        i <= hash_end(s, i),
        i <= s.len() ==> hash_end(s, i) <= s.len(),
        s.len() <= i ==> text_end(s, i) == i && code_end(s, i) == i && line_end(s, i) == i
            && hash_end(s, i) == i,
    decreases s.len() - i,
{
    if i < s.len() {
        lemma_scan_bounds(s, i + 1);
    }
}

/// Each step of the lexer moves forward, and never more than two bytes past
/// the end.
pub proof fn lemma_step_progress(s: Seq<u8>, pos: int, last: Option<MdTok>)
    requires
        0 <= pos < s.len(),
        lex_step(s, pos, last) is Some,
    ensures
        pos < step_pos(lex_step(s, pos, last)) <= s.len() + 2,
{
    lemma_scan_bounds(s, pos);
    lemma_scan_bounds(s, pos + 1);
    let j = hash_end(s, pos);
    if 0 <= j + 1 {
        lemma_scan_bounds(s, j + 1);
    }
    lemma_scan_bounds(s, pos + 3);
    let e1 = text_end(s, pos + 3);
    if 0 <= e1 {
        lemma_scan_bounds(s, e1);
    }
}

/// A byte that the lexer passes through as plain text wherever it stands: no
/// byte of Markdown syntax and no digit.
pub open spec fn is_ordinary_byte(b: u8) -> bool {
    !(b == 35 || b == 96 || b == 10 || b == 13 || b == 62 || b == 42 || b == 9 || b == 45 || b
        == 91 || b == 93 || b == 40 || b == 41 || is_digit(b))
}

proof fn lemma_lex_from_ordinary(s: Seq<u8>, pos: int, toks: Seq<MdTok>)
    requires
        0 <= pos < s.len(),
        forall|i: int| 0 <= i < s.len() ==> is_ordinary_byte(#[trigger] s[i]),
    ensures
        lex_from(s, pos, toks) == Some(toks + plain_texts(s.subrange(pos, s.len() as int))),
    decreases s.len() - pos,
{
    assert(is_ordinary_byte(s[pos]));
    assert(lex_step(s, pos, last_tok(toks)) == Some((pos + 1, seq![MdTok::PlainText(s[pos])])));
    let out = seq![MdTok::PlainText(s[pos])];
    if pos + 1 >= s.len() {
        assert(plain_texts(s.subrange(pos, s.len() as int)) =~= out);
    } else {
        lemma_lex_from_ordinary(s, pos + 1, toks + out);
        assert(toks + out + plain_texts(s.subrange(pos + 1, s.len() as int)) =~= toks
            + plain_texts(s.subrange(pos, s.len() as int)));
    }
}

/// Ordinary text passes through the lexer byte for byte: where no byte is
/// Markdown syntax or a digit, the lexer accepts the input and emits one
/// plain text token for each byte, in order.
pub proof fn ordinary_text_lexes_as_plain_text(s: Seq<u8>)
    requires
        forall|i: int| 0 <= i < s.len() ==> is_ordinary_byte(#[trigger] s[i]),
    ensures
        lex(s) == Some(plain_texts(s)),
{
    if s.len() == 0 {
        assert(plain_texts(s) =~= Seq::<MdTok>::empty());
    } else {
        lemma_lex_from_ordinary(s, 0, Seq::empty());
        assert(Seq::<MdTok>::empty() + plain_texts(s.subrange(0, s.len() as int)) =~= plain_texts(
            s,
        ));
    }
}

/// A byte that the lexer turns into exactly one token standing for it: no
/// `#`, back tick, `>`, `-`, `\r` or digit.
pub open spec fn is_single_token_byte(b: u8) -> bool {
    !(b == 35 || b == 96 || b == 62 || b == 45 || b == 13 || is_digit(b))
}

/// The token that a single-token byte becomes.
pub open spec fn byte_token(b: u8) -> MdTok {
    if b == 10 {
        MdTok::Newline
    } else if b == 42 {
        MdTok::Asterik
    } else if b == 9 {
        MdTok::Tab
    } else if b == 91 {
        MdTok::SquareBracketOpen
    } else if b == 93 {
        MdTok::SquareBracketClose
    } else if b == 40 {
        MdTok::CurveBracketOpen
    } else if b == 41 {
        MdTok::CurveBracketClose
    } else {
        MdTok::PlainText(b)
    }
}

proof fn lemma_lex_from_single_tokens(s: Seq<u8>, pos: int, toks: Seq<MdTok>)
    requires
        0 <= pos < s.len(),
        forall|i: int| 0 <= i < s.len() ==> is_single_token_byte(#[trigger] s[i]),
    ensures
        lex_from(s, pos, toks) == Some(
            toks + s.subrange(pos, s.len() as int).map_values(|b: u8| byte_token(b)),
        ),
    decreases s.len() - pos,
{
    assert(is_single_token_byte(s[pos]));
    let out = seq![byte_token(s[pos])];
    assert(lex_step(s, pos, last_tok(toks)) == Some((pos + 1, out)));
    if pos + 1 >= s.len() {
        assert(s.subrange(pos, s.len() as int).map_values(|b: u8| byte_token(b)) =~= out);
    } else {
        lemma_lex_from_single_tokens(s, pos + 1, toks + out);
        assert(toks + out + s.subrange(pos + 1, s.len() as int).map_values(|b: u8| byte_token(b))
            =~= toks + s.subrange(pos, s.len() as int).map_values(|b: u8| byte_token(b)));
    }
}

/// Turning tokens back into their bytes undoes the lexer on input without
/// `#`, back ticks, `>`, `-`, `\r` or digits: the lexer accepts such input,
/// emits one token per byte (never a code block), and the byte of each token
/// is the byte it was read from.
pub proof fn tokens_give_back_their_bytes(s: Seq<u8>)
    requires
        forall|i: int| 0 <= i < s.len() ==> is_single_token_byte(#[trigger] s[i]),
    ensures
        lex(s) == Some(s.map_values(|b: u8| byte_token(b))),
        forall|i: int|
            0 <= i < s.len() ==> !(#[trigger] lex(s)->0[i] is MultilineCode) && !(lex(
                s,
            )->0[i] is CodeBlock),
        lex(s)->0.map_values(|t: MdTok| token_byte(t)) == s,
{
    if s.len() == 0 {
        assert(s.map_values(|b: u8| byte_token(b)) =~= Seq::<MdTok>::empty());
    } else {
        lemma_lex_from_single_tokens(s, 0, Seq::empty());
        assert(Seq::<MdTok>::empty() + s.subrange(0, s.len() as int).map_values(
            |b: u8| byte_token(b),
        ) =~= s.map_values(|b: u8| byte_token(b)));
    }
    let t = s.map_values(|b: u8| byte_token(b));
    assert forall|i: int| 0 <= i < s.len() implies token_byte(t[i]) == s[i] by {
        assert(is_single_token_byte(s[i]));
    }
    assert(t.map_values(|x: MdTok| token_byte(x)) =~= s);
}

// Shifting the input: the scanners, the steps and the whole lexer look only
// forward, so behind a prefix `a` they run as on the rest alone.

proof fn lemma_scan_shift(a: Seq<u8>, r: Seq<u8>, i: int)
    requires
        0 <= i,
    ensures
        text_end(a + r, a.len() + i) == a.len() + text_end(r, i),
        code_end(a + r, a.len() + i) == a.len() + code_end(r, i),
        line_end(a + r, a.len() + i) == a.len() + line_end(r, i),
        hash_end(a + r, a.len() + i) == a.len() + hash_end(r, i),
    decreases r.len() - i,
{
    if i < r.len() {
        assert((a + r)[a.len() + i] == r[i]);
        lemma_scan_shift(a, r, i + 1);
    }
}

proof fn lemma_slice_shift(a: Seq<u8>, r: Seq<u8>, x: int, y: int)
    requires
        0 <= x,
        x >= y || y <= r.len(),
    ensures
        slice(a + r, a.len() + x, a.len() + y) == slice(r, x, y),
{
    if x < y {
        assert((a + r).subrange(a.len() + x, a.len() + y) =~= r.subrange(x, y));
    }
}

/// A step moved `k` positions on.
pub open spec fn shift_step(k: int, st: Option<(int, Seq<MdTok>)>) -> Option<(int, Seq<MdTok>)> {
    match st {
        Some((p, out)) => Some((p + k, out)),
        None => None,
    }
}

/// Whether the last token lets a `-` open a list item.
pub open spec fn after_break(last: Option<MdTok>) -> bool {
    last == Some(MdTok::Tab) || last == Some(MdTok::Newline)
}

#[verifier::rlimit(40)]
proof fn lemma_step_shift(a: Seq<u8>, r: Seq<u8>, i: int, l1: Option<MdTok>, l2: Option<MdTok>)
    requires
        0 <= i < r.len(),
        after_break(l1) == after_break(l2) || r[i] != 45,
    ensures
        lex_step(a + r, a.len() + i, l1) == shift_step(a.len() as int, lex_step(r, i, l2)),
{
    let s = a + r;
    let k = a.len() as int;
    assert(s[k + i] == r[i]);
    lemma_scan_bounds(r, i);
    lemma_scan_bounds(r, i + 1);
    lemma_scan_bounds(r, i + 3);
    lemma_scan_shift(a, r, i);
    lemma_scan_shift(a, r, i + 1);
    lemma_scan_shift(a, r, i + 3);
    let j = hash_end(r, i);
    lemma_scan_bounds(r, j + 1);
    lemma_scan_shift(a, r, j + 1);
    let e = text_end(r, j + 1);
    lemma_slice_shift(a, r, j + 1, e);
    let e1 = text_end(r, i + 3);
    lemma_scan_bounds(r, e1);
    lemma_scan_shift(a, r, e1);
    let e2 = code_end(r, e1);
    lemma_slice_shift(a, r, i + 3, e1);
    lemma_slice_shift(a, r, e1, e2);
    let le = line_end(r, i + 1);
    lemma_slice_shift(a, r, i + 1, le);
    if j < r.len() {
        assert(s[k + j] == r[j]);
    }
    if i + 2 < r.len() {
        assert(s[k + i + 1] == r[i + 1]);
        assert(s[k + i + 2] == r[i + 2]);
    } else if i + 1 < r.len() {
        assert(s[k + i + 1] == r[i + 1]);
    }
    if e2 + 2 < r.len() {
        assert(s[k + e2] == r[e2]);
        assert(s[k + e2 + 1] == r[e2 + 1]);
        assert(s[k + e2 + 2] == r[e2 + 2]);
    }
}

/// The tokens `pre` put before a lexer result.
pub open spec fn after_tokens(pre: Seq<MdTok>, res: Option<Seq<MdTok>>) -> Option<Seq<MdTok>> {
    match res {
        Some(x) => Some(pre + x),
        None => None,
    }
}

proof fn lemma_lex_from_shift(a: Seq<u8>, r: Seq<u8>, i: int, pre: Seq<MdTok>, t: Seq<MdTok>)
    requires
        0 <= i,
        after_break(last_tok(pre + t)) == after_break(last_tok(t)) || (i < r.len() ==> r[i]
            != 45),
    ensures
        lex_from(a + r, a.len() + i, pre + t) == after_tokens(pre, lex_from(r, i, t)),
    decreases r.len() - i,
{
    if i < r.len() {
        lemma_step_shift(a, r, i, last_tok(pre + t), last_tok(t));
        match lex_step(r, i, last_tok(t)) {
            Some((p, out)) => {
                assert(out.len() > 0);
                assert(pre + t + out =~= pre + (t + out));
                if p < r.len() && p > i {
                    assert((pre + (t + out)).last() == (t + out).last());
                    lemma_lex_from_shift(a, r, p, pre, t + out);
                }
            },
            None => {},
        }
    }
}

/// A header line: `n` times `#`, a space, the text and a line break.
pub open spec fn header_line(n: nat, text: Seq<u8>) -> Seq<u8> {
    Seq::new(n, |i: int| 35u8) + seq![32u8] + text + seq![10u8]
}

proof fn lemma_hash_run(s: Seq<u8>, n: int, i: int)
    requires
        0 <= i <= n < s.len(),
        forall|x: int| 0 <= x < n ==> s[x] == 35,
        s[n] == 32,
    ensures
        hash_end(s, i) == n,
    decreases n - i,
{
    if i < n {
        lemma_hash_run(s, n, i + 1);
    }
}

proof fn lemma_text_run(s: Seq<u8>, i: int, e: int)
    requires
        0 <= i <= e < s.len(),
        forall|x: int| i <= x < e ==> !is_text_stop(#[trigger] s[x]),
        is_text_stop(s[e]),
    ensures
        text_end(s, i) == e,
    decreases e - i,
{
    if i < e {
        lemma_text_run(s, i + 1, e);
    }
}

/// A header line gives exactly one header token, and the lexer goes on with
/// the rest as if it stood alone: the tokens of a header line followed by
/// `rest` are the header, then the tokens of `rest` (and the input is
/// refused exactly when `rest` is).
pub proof fn header_line_is_one_token(n: nat, text: Seq<u8>, rest: Seq<u8>)
    requires
        1 <= n <= 6,
        forall|i: int| 0 <= i < text.len() ==> !is_text_stop(#[trigger] text[i]),
    ensures
        lex(header_line(n, text) + rest) == after_tokens(
            seq![MdTok::Header(n as int, text)],
            lex(rest),
        ),
{
    let line = header_line(n, text);
    let s = line + rest;
    let k = line.len() as int;
    let e = (n + 1 + text.len()) as int;
    let h = (n + 1) as int;
    assert(k == e + 1);
    assert forall|x: int| 0 <= x < n implies s[x] == 35 by {
        assert(s[x] == line[x]);
    }
    assert(s[n as int] == 32);
    lemma_hash_run(s, n as int, 0);
    assert forall|x: int| n + 1 <= x < e implies !is_text_stop(#[trigger] s[x]) by {
        assert(s[x] == text[x - n - 1]);
    }
    assert(s[e] == 10);
    lemma_text_run(s, h, e);
    assert(slice(s, h, e) =~= text);
    let out = seq![MdTok::Header(n as int, text)];
    assert(s[0] == 35);
    assert(lex_step(s, 0, None) == Some((k, out)));
    assert(last_tok(Seq::<MdTok>::empty()) == None::<MdTok>);
    assert(Seq::<MdTok>::empty() + out =~= out);
    if rest.len() == 0 {
        assert(out + Seq::<MdTok>::empty() =~= out);
    } else {
        assert(out + Seq::<MdTok>::empty() =~= out);
        assert(last_tok(out) == Some(MdTok::Header(n as int, text)));
        lemma_lex_from_shift(line, rest, 0, out, Seq::empty());
        assert(line.len() + 0 == k);
    }
}

/// A digit followed by `.` or `)` is one number token that takes the mark
/// with it, and the lexer goes on with the rest as if it stood alone.
pub proof fn numbered_mark_is_one_token(d: u8, mark: u8, rest: Seq<u8>)
    requires
        is_digit(d),
        mark == 46 || mark == 41,
    ensures
        lex(seq![d, mark] + rest) == after_tokens(seq![MdTok::Number(d)], lex(rest)),
{
    let a = seq![d, mark];
    let s = a + rest;
    let out = seq![MdTok::Number(d)];
    assert(s[0] == d);
    assert(s[1] == mark);
    assert(lex_step(s, 0, None) == Some((2int, out)));
    assert(last_tok(Seq::<MdTok>::empty()) == None::<MdTok>);
    assert(Seq::<MdTok>::empty() + out =~= out);
    assert(out + Seq::<MdTok>::empty() =~= out);
    if rest.len() > 0 {
        assert(last_tok(out) == Some(MdTok::Number(d)));
        lemma_lex_from_shift(a, rest, 0, out, Seq::empty());
    }
}

proof fn lemma_prefix_then_rest(a: Seq<u8>, rest: Seq<u8>, out: Seq<MdTok>)
    requires
        a.len() > 0,
        lex_step(a + rest, 0, None) == Some((a.len() as int, out)),
        out.len() > 0,
        !after_break(Some(out.last())) || rest.len() == 0 || rest[0] != 45,
    ensures
        lex(a + rest) == after_tokens(out, lex(rest)),
{
    assert(last_tok(Seq::<MdTok>::empty()) == None::<MdTok>);
    assert(Seq::<MdTok>::empty() + out =~= out);
    assert(out + Seq::<MdTok>::empty() =~= out);
    if rest.len() > 0 {
        assert(last_tok(out) == Some(out.last()));
        lemma_lex_from_shift(a, rest, 0, out, Seq::empty());
    }
}

/// A line break is one line break token, and the lexer goes on with the
/// rest as if it stood alone (unless the rest opens a list item, which only
/// a line break or a tab lets it do).
pub proof fn line_break_is_one_token(b: u8, rest: Seq<u8>)
    requires
        b == 10 || b == 13,
        rest.len() == 0 || rest[0] != 45,
    ensures
        lex(seq![b] + rest) == after_tokens(seq![MdTok::Newline], lex(rest)),
{
    assert((seq![b] + rest)[0] == b);
    lemma_prefix_then_rest(seq![b], rest, seq![MdTok::Newline]);
}

/// After a line break or a tab, `- ` is one list item marker.
pub proof fn dash_after_break_is_list_marker(b: u8, rest: Seq<u8>)
    requires
        b == 10 || b == 9,
    ensures
        lex(seq![b, 45u8, 32u8] + rest) == after_tokens(
            seq![byte_token(b), MdTok::Dash],
            lex(rest),
        ),
{
    let a = seq![b, 45u8, 32u8];
    let s = a + rest;
    let t0 = byte_token(b);
    let out = seq![t0, MdTok::Dash];
    assert(s[0] == b && s[1] == 45 && s[2] == 32);
    assert(lex_step(s, 0, None) == Some((1int, seq![t0])));
    assert(last_tok(Seq::<MdTok>::empty()) == None::<MdTok>);
    assert(Seq::<MdTok>::empty() + seq![t0] =~= seq![t0]);
    assert(last_tok(seq![t0]) == Some(t0));
    assert(lex_step(s, 1, Some(t0)) == Some((3int, seq![MdTok::Dash])));
    assert(seq![t0] + seq![MdTok::Dash] =~= out);
    assert(out + Seq::<MdTok>::empty() =~= out);
    assert(lex_from(s, 0, Seq::empty()) == lex_from(s, 1, seq![t0]));
    if rest.len() > 0 {
        assert(lex_from(s, 1, seq![t0]) == lex_from(s, 3, out));
        assert(last_tok(out) == Some(MdTok::Dash));
        lemma_lex_from_shift(a, rest, 0, out, Seq::empty());
    } else {
        assert(lex_from(s, 1, seq![t0]) == Some(out));
    }
}

/// A `>` line is one block quote token holding the rest of the line; the
/// line break that ends it is read with it.
pub proof fn quote_line_is_one_token(line: Seq<u8>, rest: Seq<u8>)
    requires
        forall|i: int| 0 <= i < line.len() ==> #[trigger] line[i] != 10 && line[i] != 13,
    ensures
        lex(seq![62u8] + line + seq![10u8] + rest) == after_tokens(
            seq![MdTok::BlockQuote(line)],
            lex(rest),
        ),
{
    let a = seq![62u8] + line + seq![10u8];
    let s = a + rest;
    let e = (line.len() + 1) as int;
    assert(s[0] == 62);
    assert forall|x: int| 1 <= x < e implies s[x] != 10 && s[x] != 13 by {
        assert(s[x] == line[x - 1]);
    }
    assert(s[e] == 10);
    lemma_line_run(s, 1, e);
    assert(slice(s, 1, e) =~= line);
    lemma_prefix_then_rest(a, rest, seq![MdTok::BlockQuote(line)]);
}

proof fn lemma_line_run(s: Seq<u8>, i: int, e: int)
    requires
        0 <= i <= e < s.len(),
        forall|x: int| i <= x < e ==> s[x] != 10 && s[x] != 13,
        s[e] == 10 || s[e] == 13,
    ensures
        line_end(s, i) == e,
    decreases e - i,
{
    if i < e {
        lemma_line_run(s, i + 1, e);
    }
}

proof fn lemma_code_run(s: Seq<u8>, i: int, e: int)
    requires
        0 <= i <= e < s.len(),
        forall|x: int| i <= x < e ==> s[x] != 96,
        s[e] == 96,
    ensures
        code_end(s, i) == e,
    decreases e - i,
{
    if i < e {
        lemma_code_run(s, i + 1, e);
    }
}

/// A fenced code block is three tokens: the opening fence with its language
/// marker, the code, and the closing fence; the lexer goes on after it.
pub proof fn code_fence_is_three_tokens(lang: Seq<u8>, code: Seq<u8>, rest: Seq<u8>)
    requires
        forall|i: int| 0 <= i < lang.len() ==> !is_text_stop(#[trigger] lang[i]),
        forall|i: int| 0 <= i < code.len() ==> #[trigger] code[i] != 96,
        code.len() == 0 || is_text_stop(code[0]),
    ensures
        lex(seq![96u8, 96u8, 96u8] + lang + code + seq![96u8, 96u8, 96u8] + rest) == after_tokens(
            seq![
                MdTok::MultilineCode(lang),
                MdTok::CodeBlock(code),
                MdTok::MultilineCode(Seq::empty()),
            ],
            lex(rest),
        ),
{
    let a = seq![96u8, 96u8, 96u8] + lang + code + seq![96u8, 96u8, 96u8];
    let s = a + rest;
    let e1 = (3 + lang.len()) as int;
    let e2 = (e1 + code.len()) as int;
    assert(s[0] == 96 && s[1] == 96 && s[2] == 96);
    assert forall|x: int| 3 <= x < e1 implies !is_text_stop(#[trigger] s[x]) by {
        assert(s[x] == lang[x - 3]);
    }
    assert(is_text_stop(s[e1])) by {
        if code.len() > 0 {
            assert(s[e1] == code[0]);
        } else {
            assert(s[e1] == 96);
        }
    }
    lemma_text_run(s, 3, e1);
    assert forall|x: int| e1 <= x < e2 implies s[x] != 96 by {
        assert(s[x] == code[x - e1]);
    }
    assert(s[e2] == 96 && s[e2 + 1] == 96 && s[e2 + 2] == 96);
    lemma_code_run(s, e1, e2);
    assert(slice(s, 3, e1) =~= lang);
    assert(slice(s, e1, e2) =~= code);
    lemma_prefix_then_rest(
        a,
        rest,
        seq![
            MdTok::MultilineCode(lang),
            MdTok::CodeBlock(code),
            MdTok::MultilineCode(Seq::empty()),
        ],
    );
}

/// A `#` that a byte other than `#` or a space follows is plain text, and
/// the lexer goes on with the rest as if it stood alone.
pub proof fn hash_before_text_is_plain(rest: Seq<u8>)
    requires
        rest.len() > 0,
        rest[0] != 35 && rest[0] != 32,
    ensures
        lex(seq![35u8] + rest) == after_tokens(seq![MdTok::PlainText(35)], lex(rest)),
{
    let s = seq![35u8] + rest;
    assert(s[0] == 35 && s[1] == rest[0]);
    assert(hash_end(s, 1) == 1);
    assert(hash_end(s, 0) == 1);
    lemma_prefix_then_rest(seq![35u8], rest, seq![MdTok::PlainText(35)]);
}

/// A code fence that is never closed is plain text: the three back ticks,
/// the language marker and the code each give one plain text token per byte.
pub proof fn unclosed_fence_is_plain_text(lang: Seq<u8>, code: Seq<u8>)
    requires
        forall|i: int| 0 <= i < lang.len() ==> !is_text_stop(#[trigger] lang[i]),
        forall|i: int| 0 <= i < code.len() ==> #[trigger] code[i] != 96,
        code.len() == 0 || is_text_stop(code[0]),
    ensures
        lex(seq![96u8, 96u8, 96u8] + lang + code) == Some(
            plain_texts(seq![96u8, 96u8, 96u8] + lang + code),
        ),
{
    let s = seq![96u8, 96u8, 96u8] + lang + code;
    let e1 = (3 + lang.len()) as int;
    let e2 = s.len() as int;
    assert(s[0] == 96 && s[1] == 96 && s[2] == 96);
    assert forall|x: int| 3 <= x < e1 implies !is_text_stop(#[trigger] s[x]) by {
        assert(s[x] == lang[x - 3]);
    }
    if code.len() > 0 {
        assert(s[e1] == code[0]);
        lemma_text_run(s, 3, e1);
    } else {
        lemma_text_run_to_end(s, 3);
    }
    assert forall|x: int| e1 <= x < e2 implies s[x] != 96 by {
        assert(s[x] == code[x - e1]);
    }
    lemma_code_run_to_end(s, e1);
    assert(slice(s, 3, e1) =~= lang);
    assert(slice(s, e1, e2) =~= code);
    assert(seq![MdTok::PlainText(96), MdTok::PlainText(96), MdTok::PlainText(96)] + plain_texts(
        lang,
    ) + plain_texts(code) =~= plain_texts(s));
    assert(Seq::<MdTok>::empty() + plain_texts(s) =~= plain_texts(s));
}

proof fn lemma_text_run_to_end(s: Seq<u8>, i: int)
    requires
        0 <= i <= s.len(),
        forall|x: int| i <= x < s.len() ==> !is_text_stop(#[trigger] s[x]),
    ensures
        text_end(s, i) == s.len(),
    decreases s.len() - i,
{
    if i < s.len() {
        lemma_text_run_to_end(s, i + 1);
    }
}

proof fn lemma_code_run_to_end(s: Seq<u8>, i: int)
    requires
        0 <= i <= s.len(),
        forall|x: int| i <= x < s.len() ==> s[x] != 96,
    ensures
        code_end(s, i) == s.len(),
    decreases s.len() - i,
{
    if i < s.len() {
        lemma_code_run_to_end(s, i + 1);
    }
}

// ---------------------------------------------------------------------------
// The lexer
// ---------------------------------------------------------------------------

/// A cursor over the source bytes.
pub struct Lexer {
    input: Vec<u8>,
    position: usize,
}

impl Lexer {
    fn new(input: Vec<u8>) -> (l: Lexer)
        ensures
            l.input@ == input@,
            l.position == 0,
    {
        Lexer { input: input, position: 0 }
    }

    fn advance(&mut self)
        requires
            old(self).position < usize::MAX,
        ensures
            final(self).position == old(self).position + 1,
            final(self).input@ == old(self).input@,
    {
        self.position += 1;
    }

    fn move_back(&mut self)
        requires
            old(self).position > 0,
        ensures
            final(self).position == old(self).position - 1,
            final(self).input@ == old(self).input@,
    {
        self.position -= 1;
    }

    fn current(&self) -> (r: Option<u8>)
        ensures
            r == (if self.position < self.input@.len() {
                Some(self.input@[self.position as int])
            } else {
                None
            }),
    {
        if self.position < self.input.len() {
            Some(self.input[self.position])
        } else {
            None
        }
    }

    fn peek(&self) -> (r: Option<u8>)
        requires
            self.position < usize::MAX,
        ensures
            r == (if self.position + 1 < self.input@.len() {
                Some(self.input@[self.position + 1])
            } else {
                None
            }),
    {
        if self.position + 1 >= self.input.len() {
            None
        } else {
            Some(self.input[self.position + 1])
        }
    }

    fn peek_ahead(&self, peek_ahead: usize) -> (r: Option<u8>)
        requires
            self.position + peek_ahead <= usize::MAX,
        ensures
            r == (if self.position + peek_ahead < self.input@.len() {
                Some(self.input@[self.position + peek_ahead])
            } else {
                None
            }),
    {
        if self.position + peek_ahead >= self.input.len() {
            None
        } else {
            Some(self.input[self.position + peek_ahead])
        }
    }

    /// Looks at the byte with index `position + size` when `position` plus
    /// that index is within the input.
    fn peek_back(&self, size: i32) -> (r: Option<u8>)
        requires
            self.position <= i32::MAX,
            0 <= self.position + size <= i32::MAX,
            self.position + (self.position + size) <= usize::MAX,
        ensures
            r == (if self.position + (self.position + size) >= self.input@.len() {
                None
            } else {
                Some(self.input@[self.position + size])
            }),
    {
        let idx: i32 = self.position as i32 + size;
        if self.position + idx as usize >= self.input.len() {
            None
        } else {
            Some(self.input[idx as usize])
        }
    }

    /// Reads ordinary text up to the next stop byte.
    fn read_text(&mut self) -> (text: Vec<u8>)
        ensures
            final(self).input@ == old(self).input@,
            final(self).position == text_end(old(self).input@, old(self).position as int),
            text@ == slice(old(self).input@, old(self).position as int, final(self).position as int),
    {
        let ghost s = self.input@;
        let ghost start = self.position as int;
        let mut text: Vec<u8> = Vec::new();
        while self.position < self.input.len() && !is_text_stop_byte(self.input[self.position])
            invariant
                self.input@ == s,
                0 <= start <= self.position,
                text_end(s, self.position as int) == text_end(s, start),
                text@ == slice(s, start, self.position as int),
            decreases s.len() - self.position,
        {
            let x = self.input[self.position];
            text.push(x);
            assert(slice(s, start, self.position + 1) =~= slice(s, start, self.position as int).push(x));
            self.advance();
        }
        text
    }

    /// Reads the body of a fenced code block up to the next back tick.
    fn read_code_text(&mut self) -> (text: Vec<u8>)
        ensures
            final(self).input@ == old(self).input@,
            final(self).position == code_end(old(self).input@, old(self).position as int),
            text@ == slice(old(self).input@, old(self).position as int, final(self).position as int),
    {
        let ghost s = self.input@;
        let ghost start = self.position as int;
        let mut text: Vec<u8> = Vec::new();
        while self.position < self.input.len() && self.input[self.position] != 96u8
            invariant
                self.input@ == s,
                0 <= start <= self.position,
                code_end(s, self.position as int) == code_end(s, start),
                text@ == slice(s, start, self.position as int),
            decreases s.len() - self.position,
        {
            let x = self.input[self.position];
            text.push(x);
            assert(slice(s, start, self.position + 1) =~= slice(s, start, self.position as int).push(x));
            self.advance();
        }
        text
    }

    /// Reads the rest of the line.
    fn read_line(&mut self) -> (text: Vec<u8>)
        ensures
            final(self).input@ == old(self).input@,
            final(self).position == line_end(old(self).input@, old(self).position as int),
            text@ == slice(old(self).input@, old(self).position as int, final(self).position as int),
    {
        let ghost s = self.input@;
        let ghost start = self.position as int;
        let mut text: Vec<u8> = Vec::new();
        while self.position < self.input.len() && self.input[self.position] != 10u8
            && self.input[self.position] != 13u8
            invariant
                self.input@ == s,
                0 <= start <= self.position,
                line_end(s, self.position as int) == line_end(s, start),
                text@ == slice(s, start, self.position as int),
            decreases s.len() - self.position,
        {
            let x = self.input[self.position];
            text.push(x);
            assert(slice(s, start, self.position + 1) =~= slice(s, start, self.position as int).push(x));
            self.advance();
        }
        text
    }

    /// Counts the `#` of a header. A run of `#` that ends neither at a space
    /// nor at the end of the input is no header: the position is restored.
    fn read_header(&mut self) -> (r: Option<usize>)
        ensures
            final(self).input@ == old(self).input@,
            ({
                let s = old(self).input@;
                let j = hash_end(s, old(self).position as int);
                if j >= s.len() || s[j] == 32 {
                    r == Some((j - old(self).position) as usize) && final(self).position == j
                } else {
                    r is None && final(self).position == old(self).position
                }
            }),
    {
        let ghost s = self.input@;
        let ghost start = self.position as int;
        let mut count: usize = 0;
        while self.position < self.input.len() && self.input[self.position] == 35u8
            invariant
                self.input@ == s,
                0 <= start,
                self.position == start + count,
                hash_end(s, self.position as int) == hash_end(s, start),
            decreases s.len() - self.position,
        {
            count += 1;
            self.advance();
        }
        if self.position < self.input.len() && self.input[self.position] != 32u8 {
            let mut k: usize = 0;
            while k < count
                invariant
                    self.input@ == s,
                    0 <= start,
                    k <= count,
                    self.position == start + count - k,
                decreases count - k,
            {
                self.move_back();
                k += 1;
            }
            return None;
        }
        Some(count)
    }
}

fn is_text_stop_byte(b: u8) -> (r: bool)
    ensures
        r == is_text_stop(b),
{
    b == 96u8 || b == 13u8 || b == 10u8 || b == 42u8 || b == 91u8 || b == 93u8 || b == 40u8
        || b == 41u8 || b == 60u8 || b == 62u8
}

proof fn lemma_md_toks_push(v: Seq<MarkdownToken>, t: MarkdownToken)
    ensures
        md_toks(v.push(t)) == md_toks(v).push(t@),
{
    assert(md_toks(v.push(t)) =~= md_toks(v).push(t@));
}

/// Pushes a token and keeps the token models in step.
fn push_token(tokens: &mut Vec<MarkdownToken>, t: MarkdownToken)
    ensures
        md_toks(final(tokens)@) == md_toks(old(tokens)@).push(t@),
{
    proof {
        lemma_md_toks_push(tokens@, t);
    }
    tokens.push(t);
}

/// Pushes one plain text token for each byte.
fn push_plain_texts(tokens: &mut Vec<MarkdownToken>, bytes: &Vec<u8>)
    ensures
        md_toks(final(tokens)@) == md_toks(old(tokens)@) + plain_texts(bytes@),
{
    let ghost start = md_toks(tokens@);
    let mut i: usize = 0;
    while i < bytes.len()
        invariant
            i <= bytes.len(),
            md_toks(tokens@) == start + plain_texts(bytes@.subrange(0, i as int)),
        decreases bytes.len() - i,
    {
        push_token(tokens, MarkdownToken::PlainText(bytes[i]));
        assert(plain_texts(bytes@.subrange(0, i + 1)) =~= plain_texts(
            bytes@.subrange(0, i as int),
        ).push(MdTok::PlainText(bytes@[i as int])));
        i += 1;
    }
    assert(bytes@.subrange(0, bytes.len() as int) == bytes@);
}

/// Splits Markdown source bytes into tokens, or `None` where the input is
/// refused: where a header line starts with more than six `#`.
pub fn try_tokenize(input: Vec<u8>) -> (r: Option<MarkdownInformation>)
    requires
        input@.len() < usize::MAX - 2,
    ensures
        r is Some <==> lex(input@) is Some,
        r matches Some(info) ==> md_toks(info.tokens@) == lex(input@)->0 && info.front_matter is None,
{
    let ghost s = input@;
    let mut lexer = Lexer::new(input);
    let mut tokens: Vec<MarkdownToken> = Vec::new();
    assert(md_toks(tokens@) =~= Seq::<MdTok>::empty());
    while lexer.position < lexer.input.len()
        invariant
            lexer.input@ == s,
            s.len() < usize::MAX - 2,
            lexer.position <= s.len() + 2,
            lex_from(s, lexer.position as int, md_toks(tokens@)) == lex(s),
            s == input@,
        decreases s.len() + 2 - lexer.position,
    {
        let ghost pos = lexer.position as int;
        let ghost toks = md_toks(tokens@);
        let c = lexer.input[lexer.position];
        let ghost step = lex_step(s, pos, last_tok(toks));
        proof {
            lemma_scan_bounds(s, pos);
            lemma_scan_bounds(s, pos + 1);
        }
        if c == 35u8 {
            let header_count = lexer.read_header();
            match header_count {
                Some(count) => {
                    if count > 6 {
                        assert(step is None);
                        assert(lex_from(s, pos, toks) is None);
                        return None;
                    }
                    proof {
                        lemma_scan_bounds(s, hash_end(s, pos) + 1);
                    }
                    lexer.advance();
                    let text = lexer.read_text();
                    let h = MarkdownHeaderToken::from_level(count, text);
                    push_token(&mut tokens, MarkdownToken::Header(h));
                },
                None => {
                    push_token(&mut tokens, MarkdownToken::PlainText(35u8));
                },
            }
            lexer.advance();
        } else if c == 96u8 {
            if lexer.peek() == Some(96u8) && lexer.peek_ahead(2) == Some(96u8) {
                lexer.advance();
                lexer.advance();
                lexer.advance();
                let lang = lexer.read_text();
                let code_block = lexer.read_code_text();
                if lexer.current() == Some(96u8) && lexer.peek() == Some(96u8) && lexer.peek_ahead(2)
                    == Some(96u8) {
                    push_token(&mut tokens, MarkdownToken::MultilineCode(lang));
                    push_token(&mut tokens, MarkdownToken::CodeBlock(code_block));
                    push_token(&mut tokens, MarkdownToken::MultilineCode(Vec::new()));
                    assert(md_toks(tokens@) =~= toks + step_out(step));
                    lexer.advance();
                    lexer.advance();
                    lexer.advance();
                } else {
                    push_token(&mut tokens, MarkdownToken::PlainText(96u8));
                    push_token(&mut tokens, MarkdownToken::PlainText(96u8));
                    push_token(&mut tokens, MarkdownToken::PlainText(96u8));
                    push_plain_texts(&mut tokens, &lang);
                    push_plain_texts(&mut tokens, &code_block);
                    assert(md_toks(tokens@) =~= toks + step_out(step));
                }
            } else {
                push_token(&mut tokens, MarkdownToken::BackTick);
                lexer.advance();
            }
        } else if c == 10u8 || c == 13u8 {
            push_token(&mut tokens, MarkdownToken::Newline);
            lexer.advance();
        } else if c == 62u8 {
            lexer.advance();
            let text = lexer.read_line();
            push_token(&mut tokens, MarkdownToken::BlockQuote(text));
            lexer.advance();
        } else if c == 42u8 {
            push_token(&mut tokens, MarkdownToken::Asterik);
            lexer.advance();
        } else if c == 9u8 {
            push_token(&mut tokens, MarkdownToken::Tab);
            lexer.advance();
        } else if c == 45u8 {
            let n = tokens.len();
            let after_break = n > 0 && (matches!(tokens[n - 1], MarkdownToken::Tab) || matches!(
                tokens[n - 1],
                MarkdownToken::Newline
            ));
            proof {
                if n > 0 {
                    assert(toks.last() == tokens@[n - 1]@);
                }
            }
            if lexer.peek() == Some(32u8) && after_break {
                push_token(&mut tokens, MarkdownToken::Dash);
                lexer.advance();
            } else {
                push_token(&mut tokens, MarkdownToken::PlainText(45u8));
            }
            lexer.advance();
        } else if c == 91u8 {
            push_token(&mut tokens, MarkdownToken::SquareBracketOpen);
            lexer.advance();
        } else if c == 93u8 {
            push_token(&mut tokens, MarkdownToken::SquareBracketClose);
            lexer.advance();
        } else if c == 40u8 {
            push_token(&mut tokens, MarkdownToken::CurveBracketOpen);
            lexer.advance();
        } else if c == 41u8 {
            push_token(&mut tokens, MarkdownToken::CurveBracketClose);
            lexer.advance();
        } else if 48u8 <= c && c <= 57u8 {
            if lexer.peek() == Some(46u8) || lexer.peek() == Some(41u8) {
                push_token(&mut tokens, MarkdownToken::Number(c));
                lexer.advance();
                lexer.advance();
            } else {
                push_token(&mut tokens, MarkdownToken::PlainText(c));
                lexer.advance();
            }
        } else {
            push_token(&mut tokens, MarkdownToken::PlainText(c));
            lexer.advance();
        }
        assert(step is Some);
        proof {
            lemma_step_progress(s, pos, last_tok(toks));
        }
        assert(lexer.position == step_pos(step));
        assert(md_toks(tokens@) == toks + step_out(step));
    }
    Some(MarkdownInformation { tokens, front_matter: None })
}

/// Splits Markdown source bytes into tokens.
///
/// A header line that starts with more than six `#` is refused: `requires`
/// leaves such input out, and [`try_tokenize`] returns `None` for it.
pub fn tokenize(input: Vec<u8>) -> (info: MarkdownInformation)
    requires
        input@.len() < usize::MAX - 2,
        lex(input@) is Some,
    ensures
        md_toks(info.tokens@) == lex(input@)->0,
        info.front_matter is None,
{
    match try_tokenize(input) {
        Some(info) => info,
        None => {
            assert(false);
            MarkdownInformation { tokens: Vec::new(), front_matter: None }
        },
    }
}

} // verus!
