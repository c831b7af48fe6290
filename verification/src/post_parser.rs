//! The front matter of a post: a block between `---` fences at the start of
//! the file, holding `key: value` lines such as the title and the date.

use vstd::prelude::*;

use crate::dates::{now_timestamp, parse_timestamp, parsed_timestamp, timestamp_in_range};
use crate::text::{push_char, str_chars, text_of, utf8_str};

verus! {

// ---------------------------------------------------------------------------
// Specification
// ---------------------------------------------------------------------------

/// Three `-` start at `i`.
pub open spec fn fence_at(s: Seq<u8>, i: int) -> bool {
    0 <= i && i + 3 <= s.len() && s[i] == 45 && s[i + 1] == 45 && s[i + 2] == 45
}

/// The file opens a front matter: it starts with a fence and is longer than
/// it.
pub open spec fn has_front_matter(s: Seq<u8>) -> bool {
    s.len() > 3 && fence_at(s, 0)
}

/// The first index from `i` on, before the last three bytes, where a fence
/// starts; the length of the file where there is none.
pub open spec fn closing_fence(s: Seq<u8>, i: int) -> int
    decreases s.len() - i,
{
    if i < 0 || i >= s.len() - 3 {
        s.len() as int
    } else if fence_at(s, i) {
        i
    } else {
        closing_fence(s, i + 1)
    }
}

/// The bytes between the fences, without the byte just before the closing
/// fence (the line break).
pub open spec fn front_matter_bytes(s: Seq<u8>) -> Seq<u8> {
    s.subrange(3, closing_fence(s, 3) - 1)
}

/// What follows the closing fence.
pub open spec fn body_bytes(s: Seq<u8>) -> Seq<u8> {
    s.subrange(closing_fence(s, 3) + 3, s.len() as int)
}

/// The lines of `b` from `i` on, where `cur` holds the part of the current
/// line read so far; lines are split at `\n`.
pub open spec fn lines_from(b: Seq<u8>, i: int, cur: Seq<u8>) -> Seq<Seq<u8>>
    decreases b.len() - i,
{
    if i < 0 || i >= b.len() {
        seq![cur]
    } else if b[i] == 10 {
        seq![cur] + lines_from(b, i + 1, Seq::empty())
    } else {
        lines_from(b, i + 1, cur.push(b[i]))
    }
}

/// The lines of `b`: the pieces between `\n` bytes (one empty line for empty
/// input).
pub open spec fn split_lines(b: Seq<u8>) -> Seq<Seq<u8>> {
    lines_from(b, 0, Seq::empty())
}

/// A line without a trailing `\r`.
pub open spec fn strip_cr(line: Seq<u8>) -> Seq<u8> {
    if line.len() > 0 && line.last() == 13 {
        line.drop_last()
    } else {
        line
    }
}

/// Unicode White_Space, the characters that `str::trim` removes.
pub open spec fn is_ws(c: char) -> bool {
    let u = c as u32;
    (9 <= u <= 13) || u == 32 || u == 0x85 || u == 0xA0 || u == 0x1680 || (0x2000 <= u <= 0x200A)
        || u == 0x2028 || u == 0x2029 || u == 0x202F || u == 0x205F || u == 0x3000
}

pub open spec fn trim_start(s: Seq<char>) -> Seq<char>
    decreases s.len(),
{
    if s.len() > 0 && is_ws(s[0]) {
        trim_start(s.drop_first())
    } else {
        s
    }
}

pub open spec fn trim_end(s: Seq<char>) -> Seq<char>
    decreases s.len(),
{
    if s.len() > 0 && is_ws(s.last()) {
        trim_end(s.drop_last())
    } else {
        s
    }
}

/// The text without leading and trailing white space.
pub open spec fn trim(s: Seq<char>) -> Seq<char> {
    trim_end(trim_start(s))
}

pub open spec fn is_quote(c: char) -> bool {
    c == '"' || c == '\''
}

/// The text without its `"` and `'` characters.
pub open spec fn remove_quotes(s: Seq<char>) -> Seq<char>
    decreases s.len(),
{
    if s.len() == 0 {
        Seq::empty()
    } else if is_quote(s.last()) {
        remove_quotes(s.drop_last())
    } else {
        remove_quotes(s.drop_last()).push(s.last())
    }
}

/// The first index from `i` on that holds a `:`, or the length.
pub open spec fn colon_index(cs: Seq<char>, i: int) -> int
    decreases cs.len() - i,
{
    if i < 0 || i >= cs.len() || cs[i] == ':' {
        i
    } else {
        colon_index(cs, i + 1)
    }
}

/// The entry a line gives: the text before its first `:` as the key, and
/// the text after it, trimmed and without quotes, as the value. A line gives
/// none where it is no UTF-8, has no `:`, or has an empty key.
pub open spec fn line_entry(line: Seq<u8>) -> Option<(Seq<char>, Seq<char>)> {
    match text_of(strip_cr(line)) {
        None => None,
        Some(cs) => {
            let c = colon_index(cs, 0);
            if c >= cs.len() || c == 0 {
                None
            } else {
                Some((cs.subrange(0, c), remove_quotes(trim(cs.subrange(c + 1, cs.len() as int)))))
            }
        },
    }
}

/// The entries of the lines, in order.
pub open spec fn entries(lines: Seq<Seq<u8>>) -> Seq<(Seq<char>, Seq<char>)>
    decreases lines.len(),
{
    if lines.len() == 0 {
        Seq::empty()
    } else {
        match line_entry(lines[0]) {
            Some(e) => seq![e] + entries(lines.drop_first()),
            None => entries(lines.drop_first()),
        }
    }
}

/// The map of the entries from index `i` on, where the last entry of a key
/// wins.
pub open spec fn map_from(es: Seq<(Seq<char>, Seq<char>)>, i: int) -> Map<Seq<char>, Seq<char>>
    decreases es.len() - i,
{
    if i < 0 || i >= es.len() {
        Map::empty()
    } else {
        let m = map_from(es, i + 1);
        if m.contains_key(es[i].0) {
            m
        } else {
            m.insert(es[i].0, es[i].1)
        }
    }
}

/// The entries of the front matter of a file.
pub open spec fn front_matter_entries(s: Seq<u8>) -> Seq<(Seq<char>, Seq<char>)> {
    entries(split_lines(front_matter_bytes(s)))
}

/// The front matter of a file as a map.
pub open spec fn front_matter(s: Seq<u8>) -> Map<Seq<char>, Seq<char>> {
    map_from(front_matter_entries(s), 0)
}

/// The title the front matter gives, `Untitled` where it gives none.
pub open spec fn fm_title(m: Map<Seq<char>, Seq<char>>) -> Seq<char> {
    if m.contains_key("title"@) {
        m["title"@]
    } else {
        "Untitled"@
    }
}

/// The layout of the date in the front matter.
pub open spec fn date_layout() -> Seq<char> {
    "%Y-%m-%dT%H:%M:%S%z"@
}

/// The files that the parser accepts: without a front matter, or with one
/// that is closed by a fence (not right after the opening one) and gives a
/// date in the expected layout.
pub open spec fn parse_accepted(s: Seq<u8>) -> bool {
    has_front_matter(s) ==> {
        let j = closing_fence(s, 3);
        &&& 3 < j < s.len() - 3
        &&& front_matter(s).contains_key("date"@)
        &&& parsed_timestamp(front_matter(s)["date"@], date_layout()) is Some
    }
}

/// `v` lists the map: no key twice, each pair is in the map, and each key of
/// the map is listed.
pub open spec fn lists_map(v: Seq<(String, String)>, m: Map<Seq<char>, Seq<char>>) -> bool {
    &&& forall|i: int, j: int| 0 <= i < j < v.len() ==> v[i].0@ != v[j].0@
    &&& forall|i: int|
        0 <= i < v.len() ==> m.contains_key(#[trigger] v[i].0@) && m[v[i].0@] == v[i].1@
    &&& forall|k: Seq<char>| m.contains_key(k) ==> exists|i: int| 0 <= i < v.len() && v[i].0@ == k
}

/// The models of pairs of strings.
pub open spec fn pairs_view(v: Seq<(String, String)>) -> Seq<(Seq<char>, Seq<char>)> {
    v.map_values(|p: (String, String)| (p.0@, p.1@))
}

// ---------------------------------------------------------------------------
// Front matter
// ---------------------------------------------------------------------------

/// The front matter of a post.
pub struct YamlFrontMatter {
    pub title: String,
    /// A UNIX timestamp in seconds, UTC.
    pub date: i64,
    /// The other entries, each key once.
    pub metadata: Vec<(String, String)>,
}

impl Default for YamlFrontMatter {
    /// An untitled front matter dated now.
    fn default() -> (r: Self)
        ensures
            r.title@ == "Untitled"@,
            timestamp_in_range(r.date),
            r.metadata@.len() == 0,
    {
        YamlFrontMatter {
            title: "Untitled".to_owned(),
            date: now_timestamp(),
            metadata: Vec::new(),
        }
    }
}

impl YamlFrontMatter {
    pub fn new(title: String, date: i64, metadata: Vec<(String, String)>) -> (r: YamlFrontMatter)
        ensures
            r.title == title,
            r.date == date,
            r.metadata == metadata,
    {
        YamlFrontMatter { title, date, metadata }
    }
}

/// What the parser returns for the file `s`: the front matter and the rest
/// of the file. Without a front matter the title is `Untitled`, the date is
/// the current time and the rest is the whole file.
pub open spec fn parsed_as(s: Seq<u8>, fm: YamlFrontMatter, rest: Seq<u8>) -> bool {
    if has_front_matter(s) {
        &&& rest == body_bytes(s)
        &&& fm.title@ == fm_title(front_matter(s))
        &&& parsed_timestamp(front_matter(s)["date"@], date_layout()) == Some(fm.date)
        &&& timestamp_in_range(fm.date)
        &&& lists_map(fm.metadata@, front_matter(s).remove("title"@).remove("date"@))
    } else {
        &&& rest == s
        &&& fm.title@ == "Untitled"@
        &&& timestamp_in_range(fm.date)
        &&& fm.metadata@.len() == 0
    }
}

// ---------------------------------------------------------------------------
// Lemmas
// ---------------------------------------------------------------------------

proof fn lemma_entries_cons(x: Seq<u8>, rest: Seq<Seq<u8>>)
    ensures
        entries(seq![x] + rest) == (match line_entry(x) {
            Some(e) => seq![e] + entries(rest),
            None => entries(rest),
        }),
{
    assert((seq![x] + rest).drop_first() =~= rest);
    assert((seq![x] + rest)[0] == x);
}

proof fn lemma_entries_single(x: Seq<u8>)
    ensures
        entries(seq![x]) == (match line_entry(x) {
            Some(e) => seq![e],
            None => Seq::<(Seq<char>, Seq<char>)>::empty(),
        }),
{
    assert(seq![x] == seq![x] + Seq::<Seq<u8>>::empty());
    lemma_entries_cons(x, Seq::empty());
    assert(entries(Seq::<Seq<u8>>::empty()) == Seq::<(Seq<char>, Seq<char>)>::empty());
    assert(seq![(Seq::<char>::empty(), Seq::<char>::empty())] + Seq::<(Seq<char>, Seq<char>)>::empty()
        =~= seq![(Seq::<char>::empty(), Seq::<char>::empty())]);
    match line_entry(x) {
        Some(e) => {
            assert(seq![e] + Seq::<(Seq<char>, Seq<char>)>::empty() =~= seq![e]);
        },
        None => {},
    }
}

proof fn lemma_colon_index(cs: Seq<char>, i: int, c: int)
    requires
        0 <= i <= c < cs.len(),
        cs[c] == ':',
        forall|j: int| i <= j < c ==> cs[j] != ':',
    ensures
        colon_index(cs, i) == c,
    decreases c - i,
{
    if i < c {
        lemma_colon_index(cs, i + 1, c);
    }
}

/// Every front-matter line with a key gives an entry, whatever its value:
/// for a UTF-8 line whose first `:` comes after at least one character, the
/// key is the text before that `:` and the value is the text after it,
/// trimmed and without quotes (empty where nothing but white space follows).
pub proof fn keyed_line_gives_entry(line: Seq<u8>, cs: Seq<char>, c: int)
    requires
        text_of(strip_cr(line)) == Some(cs),
        0 < c < cs.len(),
        cs[c] == ':',
        forall|j: int| 0 <= j < c ==> cs[j] != ':',
    ensures
        line_entry(line) == Some(
            (cs.subrange(0, c), remove_quotes(trim(cs.subrange(c + 1, cs.len() as int)))),
        ),
{
    lemma_colon_index(cs, 0, c);
}

/// A line without a `:`, or whose first character is the `:`, gives no entry.
pub proof fn unkeyed_line_gives_no_entry(line: Seq<u8>, cs: Seq<char>)
    requires
        text_of(strip_cr(line)) == Some(cs),
        cs.len() == 0 || cs[0] == ':' || forall|j: int| 0 <= j < cs.len() ==> cs[j] != ':',
    ensures
        line_entry(line) is None,
{
    if cs.len() > 0 && cs[0] != ':' {
        lemma_no_colon(cs, 0);
    }
}

proof fn lemma_no_colon(cs: Seq<char>, i: int)
    requires
        0 <= i <= cs.len(),
        forall|j: int| 0 <= j < cs.len() ==> cs[j] != ':',
    ensures
        colon_index(cs, i) == cs.len(),
    decreases cs.len() - i,
{
    if i < cs.len() {
        lemma_no_colon(cs, i + 1);
    }
}

proof fn lemma_map_from(es: Seq<(Seq<char>, Seq<char>)>, i: int, k: Seq<char>)
    requires
        0 <= i <= es.len(),
    ensures
        map_from(es, i).contains_key(k) <==> exists|j: int| i <= j < es.len() && es[j].0 == k,
        forall|j: int|
            i <= j < es.len() && es[j].0 == k && (forall|x: int| j < x < es.len() ==> es[x].0 != k)
                ==> map_from(es, i)[k] == #[trigger] es[j].1,
    decreases es.len() - i,
{
    if i < es.len() {
        lemma_map_from(es, i + 1, k);
        if es[i].0 == k {
            assert(map_from(es, i).contains_key(k));
        }
        if map_from(es, i).contains_key(k) && !map_from(es, i + 1).contains_key(k) {
            assert(es[i].0 == k);
        }
        assert forall|j: int|
            i <= j < es.len() && es[j].0 == k && (forall|x: int| j < x < es.len() ==> es[x].0 != k)
                implies map_from(es, i)[k] == #[trigger] es[j].1 by {
            if j == i {
                assert(!map_from(es, i + 1).contains_key(k));
            } else {
                assert(map_from(es, i + 1).contains_key(k));
            }
        }
    }
}

/// The front-matter map holds a key exactly when some entry has it, and then
/// the value of the last entry with that key: a later line overrides an
/// earlier one.
pub proof fn last_entry_of_a_key_wins(es: Seq<(Seq<char>, Seq<char>)>, k: Seq<char>, j: int)
    requires
        0 <= j < es.len(),
        es[j].0 == k,
        forall|x: int| j < x < es.len() ==> es[x].0 != k,
    ensures
        map_from(es, 0).contains_key(k),
        map_from(es, 0)[k] == es[j].1,
{
    lemma_map_from(es, 0, k);
    assert(es[j].1 == es[j].1);
}

/// A key that no entry has is not in the front-matter map.
pub proof fn unlisted_key_is_absent(es: Seq<(Seq<char>, Seq<char>)>, k: Seq<char>)
    requires
        forall|x: int| 0 <= x < es.len() ==> es[x].0 != k,
    ensures
        !map_from(es, 0).contains_key(k),
{
    lemma_map_from(es, 0, k);
}

proof fn lemma_closing_fence(s: Seq<u8>, i: int)
    requires
        0 <= i,
    ensures
        ({
            let j = closing_fence(s, i);
            ||| (j == s.len() && forall|x: int| i <= x < s.len() - 3 ==> !fence_at(s, x))
            ||| (i <= j < s.len() - 3 && fence_at(s, j) && forall|x: int|
                i <= x < j ==> !fence_at(s, x))
        }),
    decreases s.len() - i,
{
    if i < s.len() - 3 && !fence_at(s, i) {
        lemma_closing_fence(s, i + 1);
    }
}

/// The closing fence is the first `---` after the opening one that starts
/// before the last three bytes; where there is none, the file is not
/// closed.
pub proof fn closing_fence_is_first_fence(s: Seq<u8>)
    ensures
        ({
            let j = closing_fence(s, 3);
            ||| (j == s.len() && forall|x: int| 3 <= x < s.len() - 3 ==> !fence_at(s, x))
            ||| (3 <= j < s.len() - 3 && fence_at(s, j) && forall|x: int|
                3 <= x < j ==> !fence_at(s, x))
        }),
{
    lemma_closing_fence(s, 3);
}

// ---------------------------------------------------------------------------
// Parsing
// ---------------------------------------------------------------------------

/// Whether the character is Unicode White_Space.
fn is_ws_char(c: char) -> (r: bool)
    ensures
        r == is_ws(c),
{
    let u = c as u32;
    (9 <= u && u <= 13) || u == 32 || u == 0x85 || u == 0xA0 || u == 0x1680 || (0x2000 <= u && u
        <= 0x200A) || u == 0x2028 || u == 0x2029 || u == 0x202F || u == 0x205F || u == 0x3000
}

/// The characters from `lo` up to `hi` as a string.
fn chars_to_string(cs: &Vec<char>, lo: usize, hi: usize) -> (r: String)
    requires
        lo <= hi <= cs.len(),
    ensures
        r@ == cs@.subrange(lo as int, hi as int),
{
    let mut r = String::new();
    let mut i = lo;
    while i < hi
        invariant
            lo <= i <= hi <= cs.len(),
            r@ == cs@.subrange(lo as int, i as int),
        decreases hi - i,
    {
        push_char(&mut r, cs[i]);
        assert(cs@.subrange(lo as int, i + 1) =~= cs@.subrange(lo as int, i as int).push(cs@[i as int]));
        i += 1;
    }
    r
}

/// The characters from `lo` up to `hi`, without quotes, as a string.
fn unquoted_string(cs: &Vec<char>, lo: usize, hi: usize) -> (r: String)
    requires
        lo <= hi <= cs.len(),
    ensures
        r@ == remove_quotes(cs@.subrange(lo as int, hi as int)),
{
    let mut r = String::new();
    let mut i = lo;
    assert(cs@.subrange(lo as int, lo as int) =~= Seq::<char>::empty());
    while i < hi
        invariant
            lo <= i <= hi <= cs.len(),
            r@ == remove_quotes(cs@.subrange(lo as int, i as int)),
        decreases hi - i,
    {
        let c = cs[i];
        assert(cs@.subrange(lo as int, i + 1).drop_last() =~= cs@.subrange(lo as int, i as int));
        assert(cs@.subrange(lo as int, i + 1).last() == c);
        if !(c == '"' || c == '\'') {
            push_char(&mut r, c);
        }
        i += 1;
    }
    r
}

/// The entry that one line gives.
fn line_entry_of(line: Vec<u8>) -> (r: Option<(String, String)>)
    ensures
        r is Some <==> line_entry(line@) is Some,
        r matches Some((k, v)) ==> line_entry(line@) == Some((k@, v@)),
{
    let ghost orig = line@;
    let mut line = line;
    let n = line.len();
    if n > 0 && line[n - 1] == 13u8 {
        line.pop();
    }
    assert(line@ =~= strip_cr(orig));
    let s = match utf8_str(line.as_slice()) {
        Some(s) => s,
        None => return None,
    };
    let cs = str_chars(s);
    let ghost t = cs@;
    assert(text_of(strip_cr(orig)) == Some(t));
    let mut c: usize = 0;
    while c < cs.len() && cs[c] != ':'
        invariant
            c <= cs.len(),
            cs@ == t,
            colon_index(t, c as int) == colon_index(t, 0),
        decreases cs.len() - c,
    {
        c += 1;
    }
    if c >= cs.len() || c == 0 {
        return None;
    }
    let key = chars_to_string(&cs, 0, c);
    let mut lo = c + 1;
    while lo < cs.len() && is_ws_char(cs[lo])
        invariant
            c + 1 <= lo <= cs.len(),
            cs@ == t,
            trim_start(t.subrange(c + 1, t.len() as int)) == trim_start(
                t.subrange(lo as int, t.len() as int),
            ),
        decreases cs.len() - lo,
    {
        assert(t.subrange(lo as int, t.len() as int).drop_first() =~= t.subrange(
            lo + 1,
            t.len() as int,
        ));
        lo += 1;
    }
    assert(trim_start(t.subrange(c + 1, t.len() as int)) == t.subrange(lo as int, t.len() as int));
    let mut hi = cs.len();
    while hi > lo && is_ws_char(cs[hi - 1])
        invariant
            lo <= hi <= cs.len(),
            cs@ == t,
            trim_end(t.subrange(lo as int, t.len() as int)) == trim_end(
                t.subrange(lo as int, hi as int),
            ),
        decreases hi - lo,
    {
        assert(t.subrange(lo as int, hi as int).drop_last() =~= t.subrange(lo as int, hi - 1));
        hi -= 1;
    }
    assert(trim(t.subrange(c + 1, t.len() as int)) == t.subrange(lo as int, hi as int));
    let value = unquoted_string(&cs, lo, hi);
    Some((key, value))
}

proof fn lemma_pairs_view_push(v: Seq<(String, String)>, p: (String, String))
    ensures
        pairs_view(v.push(p)) == pairs_view(v).push((p.0@, p.1@)),
{
    assert(pairs_view(v.push(p)) =~= pairs_view(v).push((p.0@, p.1@)));
}

/// The entries of the lines of `b` from `lo` up to `hi`.
fn front_matter_lines(b: &Vec<u8>, lo: usize, hi: usize) -> (r: Vec<(String, String)>)
    requires
        lo <= hi <= b.len(),
    ensures
        pairs_view(r@) == entries(split_lines(b@.subrange(lo as int, hi as int))),
{
    let ghost fm = b@.subrange(lo as int, hi as int);
    let mut all: Vec<(String, String)> = Vec::new();
    let mut cur: Vec<u8> = Vec::new();
    let mut i = lo;
    assert(pairs_view(all@) =~= Seq::<(Seq<char>, Seq<char>)>::empty());
    assert(entries(split_lines(fm)) =~= pairs_view(all@) + entries(lines_from(fm, 0, cur@)));
    while i < hi
        invariant
            lo <= i <= hi <= b.len(),
            fm == b@.subrange(lo as int, hi as int),
            entries(split_lines(fm)) == pairs_view(all@) + entries(lines_from(fm, i - lo, cur@)),
        decreases hi - i,
    {
        let x = b[i];
        assert(fm[i - lo] == x);
        if x == 10u8 {
            let ghost line = cur@;
            let ghost rest = lines_from(fm, i - lo + 1, Seq::empty());
            assert(lines_from(fm, i - lo, line) == seq![line] + rest);
            proof {
                lemma_entries_cons(line, rest);
            }
            let ghost before = pairs_view(all@);
            match line_entry_of(cur) {
                Some(e) => {
                    proof {
                        lemma_pairs_view_push(all@, e);
                    }
                    all.push(e);
                    assert(before + (seq![line_entry(line)->0] + entries(rest)) =~= pairs_view(all@)
                        + entries(rest));
                },
                None => {},
            }
            cur = Vec::new();
        } else {
            cur.push(x);
        }
        i += 1;
    }
    proof {
        lemma_entries_single(cur@);
    }
    let ghost before = pairs_view(all@);
    match line_entry_of(cur) {
        Some(e) => {
            proof {
                lemma_pairs_view_push(all@, e);
            }
            all.push(e);
            assert(before + seq![line_entry(cur@)->0] =~= pairs_view(all@));
        },
        None => {
            assert(before + Seq::<(Seq<char>, Seq<char>)>::empty() =~= before);
        },
    }
    all
}

/// The index where the closing fence starts, or the length where there is
/// none.
fn find_closing_fence(b: &Vec<u8>) -> (j: usize)
    requires
        b@.len() > 3,
    ensures
        j == closing_fence(b@, 3),
{
    let n = b.len();
    let mut i: usize = 3;
    while i < n - 3
        invariant
            3 <= i,
            n == b@.len() > 3,
            closing_fence(b@, i as int) == closing_fence(b@, 3),
        decreases n - i,
    {
        if b[i] == 45u8 && b[i + 1] == 45u8 && b[i + 2] == 45u8 {
            return i;
        }
        i += 1;
    }
    n
}

/// Whether a key is listed.
fn lists_key(meta: &Vec<(String, String)>, k: &String) -> (r: bool)
    ensures
        r == exists|i: int| 0 <= i < meta@.len() && meta@[i].0@ == k@,
{
    let mut i: usize = 0;
    while i < meta.len()
        invariant
            i <= meta.len(),
            forall|j: int| 0 <= j < i ==> meta@[j].0@ != k@,
        decreases meta.len() - i,
    {
        if meta[i].0 == *k {
            return true;
        }
        i += 1;
    }
    false
}

/// The title, the date and the other entries of the map of `es` (the last
/// entry of a key wins).
fn collect_entries(es: &Vec<(String, String)>) -> (r: (Option<String>, Option<String>, Vec<(String, String)>))
    ensures
        ({
            let m = map_from(pairs_view(es@), 0);
            &&& r.0 is Some <==> m.contains_key("title"@)
            &&& r.0 matches Some(t) ==> m["title"@] == t@
            &&& r.1 is Some <==> m.contains_key("date"@)
            &&& r.1 matches Some(d) ==> m["date"@] == d@
            &&& lists_map(r.2@, m.remove("title"@).remove("date"@))
        }),
{
    let ghost e = pairs_view(es@);
    let title_key = "title".to_owned();
    let date_key = "date".to_owned();
    let mut title: Option<String> = None;
    let mut date: Option<String> = None;
    let mut meta: Vec<(String, String)> = Vec::new();
    let mut i = es.len();
    assert(map_from(e, i as int) =~= Map::<Seq<char>, Seq<char>>::empty());
    assert(meta@.len() == 0);
    assert(map_from(e, i as int).remove("title"@).remove("date"@) =~= Map::<Seq<char>, Seq<char>>::empty());
    while i > 0
        invariant
            i <= es.len(),
            e == pairs_view(es@),
            title_key@ == "title"@,
            date_key@ == "date"@,
            title is Some <==> map_from(e, i as int).contains_key("title"@),
            title matches Some(t) ==> map_from(e, i as int)["title"@] == t@,
            date is Some <==> map_from(e, i as int).contains_key("date"@),
            date matches Some(d) ==> map_from(e, i as int)["date"@] == d@,
            lists_map(meta@, map_from(e, i as int).remove("title"@).remove("date"@)),
        decreases i,
    {
        proof {
            reveal_strlit("title");
            reveal_strlit("date");
            assert("title"@.len() != "date"@.len());
        }
        let ghost old_map = map_from(e, i as int);
        let ghost old_meta = meta@;
        let k = &es[i - 1].0;
        let v = &es[i - 1].1;
        assert(e[i - 1] == (k@, v@));
        assert(map_from(e, i - 1) == if old_map.contains_key(k@) {
            old_map
        } else {
            old_map.insert(k@, v@)
        });
        if *k == title_key {
            if title.is_none() {
                title = Some(v.clone());
            }
            assert(map_from(e, i - 1).remove("title"@).remove("date"@) =~= old_map.remove(
                "title"@,
            ).remove("date"@));
        } else if *k == date_key {
            if date.is_none() {
                date = Some(v.clone());
            }
            assert(map_from(e, i - 1).remove("title"@).remove("date"@) =~= old_map.remove(
                "title"@,
            ).remove("date"@));
        } else {
            let ghost old_rest = old_map.remove("title"@).remove("date"@);
            if !lists_key(&meta, k) {
                proof {
                    if old_rest.contains_key(k@) {
                        let j = choose|j: int| 0 <= j < old_meta.len() && old_meta[j].0@ == k@;
                        assert(false);
                    }
                }
                assert(!old_map.contains_key(k@));
                let pair = (k.clone(), v.clone());
                meta.push(pair);
                assert(map_from(e, i - 1) == old_map.insert(k@, v@));
                assert(map_from(e, i - 1).remove("title"@).remove("date"@) =~= old_rest.insert(
                    k@,
                    v@,
                ));
                assert forall|kk: Seq<char>| #[trigger]
                    old_rest.insert(k@, v@).contains_key(kk) implies exists|j: int|
                    0 <= j < meta@.len() && meta@[j].0@ == kk by {
                    if kk == k@ {
                        assert(meta@[meta@.len() - 1].0@ == kk);
                    } else {
                        assert(old_rest.contains_key(kk));
                        let j = choose|j: int| 0 <= j < old_meta.len() && old_meta[j].0@ == kk;
                        assert(meta@[j] == old_meta[j]);
                    }
                }
                assert forall|a: int, b: int| 0 <= a < b < meta@.len() implies meta@[a].0@
                    != meta@[b].0@ by {
                    if b == meta@.len() - 1 {
                        assert(meta@[a] == old_meta[a]);
                    }
                }
                assert forall|a: int| 0 <= a < meta@.len() implies old_rest.insert(
                    k@,
                    v@,
                ).contains_key(#[trigger] meta@[a].0@) && old_rest.insert(k@, v@)[meta@[a].0@]
                    == meta@[a].1@ by {
                    if a < meta@.len() - 1 {
                        assert(meta@[a] == old_meta[a]);
                    }
                }
            } else {
                assert(old_rest.contains_key(k@));
                assert(map_from(e, i - 1) == old_map);
            }
        }
        i -= 1;
    }
    (title, date, meta)
}

/// The bytes from `lo` on.
fn copy_from(b: &Vec<u8>, lo: usize) -> (r: Vec<u8>)
    requires
        lo <= b.len(),
    ensures
        r@ == b@.subrange(lo as int, b@.len() as int),
{
    let mut r: Vec<u8> = Vec::new();
    let mut i = lo;
    while i < b.len()
        invariant
            lo <= i <= b.len(),
            r@ == b@.subrange(lo as int, i as int),
        decreases b.len() - i,
    {
        r.push(b[i]);
        assert(b@.subrange(lo as int, i + 1) =~= b@.subrange(lo as int, i as int).push(b@[i as int]));
        i += 1;
    }
    r
}

/// Splits a post into its front matter and the rest of the file.
///
/// A file that starts with `---` (and is longer than it) opens a front
/// matter, closed by the next `---` before the last three bytes; each line
/// in between gives an entry `key: value`. Where the file opens a front
/// matter but does not close it, or gives no date in the layout
/// `%Y-%m-%dT%H:%M:%S%z`, it is refused: `requires` leaves such files out,
/// and [`try_parse_markdown`] returns `None` for them.
pub fn parse_markdown(file_bytes: Vec<u8>) -> (r: (YamlFrontMatter, Vec<u8>))
    requires
        parse_accepted(file_bytes@),
    ensures
        parsed_as(file_bytes@, r.0, r.1@),
{
    let ghost s = file_bytes@;
    let n = file_bytes.len();
    if n <= 3 || !(file_bytes[0] == 45u8 && file_bytes[1] == 45u8 && file_bytes[2] == 45u8) {
        return (YamlFrontMatter::default(), file_bytes);
    }
    let j = find_closing_fence(&file_bytes);
    let es = front_matter_lines(&file_bytes, 3, j - 1);
    let (title, date, metadata) = collect_entries(&es);
    let title = match title {
        Some(t) => t,
        None => "Untitled".to_owned(),
    };
    let date = match date {
        Some(d) => match parse_timestamp(d.as_str(), "%Y-%m-%dT%H:%M:%S%z") {
            Some(ts) => ts,
            None => {
                assert(false);
                0
            },
        },
        None => {
            assert(false);
            0
        },
    };
    let rest = copy_from(&file_bytes, j + 3);
    (YamlFrontMatter { title, date, metadata }, rest)
}

/// Splits a post into its front matter and the rest of the file, or `None`
/// where [`parse_markdown`] refuses the file.
pub fn try_parse_markdown(file_bytes: Vec<u8>) -> (r: Option<(YamlFrontMatter, Vec<u8>)>)
    ensures
        r is Some <==> parse_accepted(file_bytes@),
        r matches Some((fm, rest)) ==> parsed_as(file_bytes@, fm, rest@),
{
    let n = file_bytes.len();
    if n <= 3 || !(file_bytes[0] == 45u8 && file_bytes[1] == 45u8 && file_bytes[2] == 45u8) {
        return Some(parse_markdown(file_bytes));
    }
    let j = find_closing_fence(&file_bytes);
    if !(3 < j && j < n - 3) {
        return None;
    }
    let es = front_matter_lines(&file_bytes, 3, j - 1);
    let (_, date, _) = collect_entries(&es);
    match date {
        Some(d) => match parse_timestamp(d.as_str(), "%Y-%m-%dT%H:%M:%S%z") {
            Some(_) => Some(parse_markdown(file_bytes)),
            None => None,
        },
        None => None,
    }
}

} // verus!
