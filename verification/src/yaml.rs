//! Repair of a `settings.yaml` whose mapping colons lost their space.
//!
//! `key:value` is no YAML mapping. The repair inserts the missing space, line
//! by line, and leaves the content of block scalars alone. A full parse before
//! and after guards it: a healthy file is not touched, and nothing that does
//! not parse is ever written back.

use vstd::prelude::*;

use crate::text::{chars_of, find_from, is_at, split_lines, split_words, string_from, sub_chars, trim_chars, white, white_prefix};

verus! {

// ---------------------------------------------------------------------------
// One line
// ---------------------------------------------------------------------------

/// The bytes of a character in UTF-8.
pub open spec fn utf8_width(c: char) -> nat {
    let n = c as int;
    if n < 0x80 {
        1
    } else if n < 0x800 {
        2
    } else if n < 0x10000 {
        3
    } else {
        4
    }
}

/// The bytes of the first `n` characters.
pub open spec fn bytes_before(s: Seq<char>, n: int) -> nat
    decreases n,
{
    if n <= 0 {
        0
    } else {
        bytes_before(s, n - 1) + utf8_width(s[n - 1])
    }
}

/// The indentation of a line: the bytes of its leading whitespace.
pub open spec fn indent(line: Seq<char>) -> nat {
    bytes_before(line, crate::text::skip_white(line, 0))
}

/// Where the key of a line starts: behind the indentation and a list dash.
pub open spec fn key_start(line: Seq<char>) -> int {
    let a = crate::text::skip_white(line, 0);
    if crate::text::occurs_at(line, "- "@, a) {
        a + 2
    } else {
        a
    }
}

/// Whether the colon at `colon` is one to mend: it ends a key that is neither
/// empty nor quoted, and a value follows it without a space.
pub open spec fn colon_to_mend(line: Seq<char>, colon: int) -> bool {
    let key = line.subrange(key_start(line), colon);
    &&& colon + 1 < line.len()
    &&& line[colon + 1] != ' ' && line[colon + 1] != '\t' && line[colon + 1] != '#'
    &&& !crate::text::blank(key)
    &&& !key.contains('"')
    &&& !key.contains('\'')
}

/// The line with a space behind the character at `colon`.
pub open spec fn spaced(line: Seq<char>, colon: int) -> Seq<char> {
    line.take(colon + 1) + seq![' '] + line.skip(colon + 1)
}

/// `key:value` as `key: value`; `None` where the line needs no such repair.
pub open spec fn mended(line: Seq<char>) -> Option<Seq<char>> {
    match crate::text::index_from(line, ":"@, key_start(line)) {
        Some(colon) => if colon_to_mend(line, colon) {
            Some(spaced(line, colon))
        } else {
            None
        },
        None => None,
    }
}

fn bytes_to(line: &Vec<char>, to: usize) -> (n: u128)
    requires
        to <= line@.len(),
    ensures
        n == bytes_before(line@, to as int),
{
    let mut i: usize = 0;
    let mut n: u128 = 0;
    while i < to
        invariant
            i <= to <= line@.len(),
            n == bytes_before(line@, i as int),
            n <= 4 * i,
        decreases to - i,
    {
        let c = line[i];
        n = n + if '\u{80}' > c {
            1
        } else if '\u{800}' > c {
            2
        } else if '\u{10000}' > c {
            3
        } else {
            4
        };
        i = i + 1;
    }
    n
}

fn has_char(s: &[char], from: usize, to: usize, c: char) -> (yes: bool)
    requires
        from <= to <= s@.len(),
    ensures
        yes == s@.subrange(from as int, to as int).contains(c),
{
    let mut i: usize = from;
    while i < to
        invariant
            from <= i <= to <= s@.len(),
            forall|k: int| from <= k < i ==> s@[k] != c,
        decreases to - i,
    {
        if s[i] == c {
            assert(s@.subrange(from as int, to as int)[i - from] == c);
            return true;
        }
        i = i + 1;
    }
    assert forall|k: int| 0 <= k < to - from implies s@.subrange(from as int, to as int)[k] != c by {
        assert(s@.subrange(from as int, to as int)[k] == s@[from + k]);
    }
    false
}

fn start_of_key(line: &Vec<char>) -> (n: usize)
    ensures
        n == key_start(line@),
        n <= line@.len(),
{
    let a = white_prefix(line);
    proof {
        reveal_strlit("- ");
    }
    if is_at(line, &chars_of("- "), a) {
        let len: usize = line.len();
        assert(a + 2 <= len);
        a + 2
    } else {
        a
    }
}

/// Mends one line: `key:value` becomes `key: value` when the first colon is
/// directly followed by a value. Quoted keys are left alone.
pub fn fix_one_colon(line: &Vec<char>) -> (out: Option<Vec<char>>)
    ensures
        match out {
            Some(l) => mended(line@) == Some(l@),
            None => mended(line@) is None,
        },
{
    let start = start_of_key(line);
    proof {
        reveal_strlit(":");
    }
    match find_from(line, &chars_of(":"), start) {
        None => None,
        Some(colon) => {
            let len: usize = line.len();
            if colon + 1 >= len {
                return None;
            }
            let next = line[colon + 1];
            if next == ' ' || next == '\t' || next == '#' {
                return None;
            }
            let key = sub_chars(line, start, colon);
            if trim_chars(&key).len() == 0 || has_char(line, start, colon, '"') || has_char(
                line,
                start,
                colon,
                '\'',
            ) {
                return None;
            }
            let mut out = sub_chars(line, 0, colon + 1);
            out.push(' ');
            let mut rest = sub_chars(line, colon + 1, len);
            out.append(&mut rest);
            assert(out@ =~= spaced(line@, colon as int));
            Some(out)
        },
    }
}

// ---------------------------------------------------------------------------
// Block scalars
// ---------------------------------------------------------------------------

/// The characters that may follow the sign of a block scalar.
pub open spec fn is_block_hint(c: char) -> bool {
    '0' <= c <= '9' || c == '+' || c == '-'
}

/// Whether the character before position `n` is the sign of a block scalar.
pub open spec fn block_sign_before(s: Seq<char>, n: int) -> bool {
    0 < n <= s.len() && (s[n - 1] == '|' || s[n - 1] == '>')
}

/// Whether a word is the sign of a block scalar, alone or with one or two
/// hints, as in `|-` and `>2+`.
pub open spec fn is_sign_word(w: Seq<char>) -> bool {
    &&& 1 <= w.len() <= 3
    &&& w[0] == '|' || w[0] == '>'
    &&& forall|k: int| 0 < k < w.len() ==> is_block_hint(#[trigger] w[k])
}

/// Whether a word is a tag or an anchor, which may come before a value.
pub open spec fn is_property(w: Seq<char>) -> bool {
    w.len() > 0 && (w[0] == '!' || w[0] == '&')
}

/// Whether some words name a block scalar: its sign, with nothing but tags and
/// anchors before it.
pub open spec fn names_block(words: Seq<Seq<char>>) -> bool {
    &&& words.len() > 0
    &&& is_sign_word(words.last())
    &&& forall|k: int| 0 <= k < words.len() - 1 ==> is_property(#[trigger] words[k])
}

/// Where a position of a line stands: in plain text, inside single or double
/// quotes, behind a backslash inside double quotes, or right behind a closing
/// single quote.
#[derive(Clone, Copy)]
pub enum Quoting {
    Plain,
    Single,
    Double,
    Escaped,
    Closed,
}

/// Whether a position is inside quotes.
pub open spec fn is_quoted(q: Quoting) -> bool {
    q is Single || q is Double || q is Escaped
}

/// Whether a character is a space or a tab.
pub open spec fn is_gap(c: char) -> bool {
    c == ' ' || c == '\t'
}

/// Whether a quote at position `i` opens a quoted text: it stands at the
/// start, behind a space or tab, or behind a sign of a flow collection.
pub open spec fn opens_quote(s: Seq<char>, i: int) -> bool {
    i == 0 || is_gap(s[i - 1]) || s[i - 1] == ',' || s[i - 1] == '[' || s[i - 1] == '{'
}

/// What the character at position `i` makes of the quoting before it. Two
/// single quotes inside single quotes stand for one.
pub open spec fn quoting_after(q: Quoting, s: Seq<char>, i: int) -> Quoting {
    let c = s[i];
    if q is Single {
        if c == '\'' {
            Quoting::Closed
        } else {
            Quoting::Single
        }
    } else if q is Double {
        if c == '"' {
            Quoting::Plain
        } else if c == '\\' {
            Quoting::Escaped
        } else {
            Quoting::Double
        }
    } else if q is Escaped {
        Quoting::Double
    } else if c == '\'' && (q is Closed || opens_quote(s, i)) {
        Quoting::Single
    } else if c == '"' && opens_quote(s, i) {
        Quoting::Double
    } else {
        Quoting::Plain
    }
}

/// The quoting before position `i`.
pub open spec fn quoting(s: Seq<char>, i: int) -> Quoting
    decreases i,
{
    if i <= 0 {
        Quoting::Plain
    } else {
        quoting_after(quoting(s, i - 1), s, i - 1)
    }
}

/// Whether a comment starts at position `i`: a `#` outside quotes, at the
/// start of the line or behind a space or tab.
pub open spec fn comment_at(s: Seq<char>, i: int) -> bool {
    s[i] == '#' && (i == 0 || is_gap(s[i - 1])) && !is_quoted(quoting(s, i))
}

/// The first position at or after `i` where a comment starts. The length
/// where there is none.
pub open spec fn comment_from(s: Seq<char>, i: int) -> int
    decreases s.len() - i,
{
    if i < 0 || i >= s.len() {
        s.len() as int
    } else if comment_at(s, i) {
        i
    } else {
        comment_from(s, i + 1)
    }
}

/// Whether the character at position `i` ends a key, where the line counts up
/// to `end`: a colon outside quotes, at the end or before a space or tab.
pub open spec fn separates(s: Seq<char>, i: int, end: int) -> bool {
    s[i] == ':' && (i + 1 == end || is_gap(s[i + 1])) && !is_quoted(quoting(s, i))
}

/// The first position at or after `i` that ends a key, where the line counts
/// up to `end`.
pub open spec fn separator_from(s: Seq<char>, i: int, end: int) -> Option<int>
    decreases end - i,
{
    if i < 0 || i >= end {
        None
    } else if separates(s, i, end) {
        Some(i)
    } else {
        separator_from(s, i + 1, end)
    }
}

/// Whether the sign of a list item or of a key stands at position `i`.
pub open spec fn item_sign_at(s: Seq<char>, i: int) -> bool {
    0 <= i && i + 1 < s.len() && (s[i] == '-' || s[i] == '?') && is_gap(s[i + 1])
}

/// The first position at or after `i` behind whitespace and the signs of list
/// items.
pub open spec fn item_start(s: Seq<char>, i: int) -> int
    decreases s.len() - i,
{
    let a = crate::text::skip_white(s, i);
    if i <= a && item_sign_at(s, a) {
        item_start(s, a + 1)
    } else {
        a
    }
}

/// The position of the last of the signs of list items that follow `i`, or
/// where the text starts that follows `i`.
pub open spec fn last_sign(s: Seq<char>, i: int) -> int
    decreases s.len() - i,
{
    let a = crate::text::skip_white(s, i);
    if i <= a && item_sign_at(s, a) && item_sign_at(s, crate::text::skip_white(s, a + 1)) {
        last_sign(s, a + 1)
    } else {
        a
    }
}

/// The key of a line and its colon, if it has one: where the colon stands that
/// ends it. Comments do not count.
pub open spec fn key_end(line: Seq<char>) -> Option<int> {
    separator_from(line, 0, comment_from(line, 0))
}

/// Whether a line is the header of a block scalar: the value behind its key,
/// or its list item, is the sign of one. A comment may follow.
pub open spec fn is_header(line: Seq<char>) -> bool {
    let end = comment_from(line, 0);
    let first = item_start(line, 0);
    &&& !is_quoted(quoting(line, end))
    &&& !(first < line.len() && (line[first] == '[' || line[first] == '{'))
    &&& match key_end(line) {
        Some(colon) => names_block(crate::text::words(line.subrange(colon + 1, end))),
        None => first <= end && names_block(crate::text::words(line.subrange(first, end))),
    }
}

/// The column, in bytes, of what holds the value of a header: of its key, or
/// of the sign of its list item.
pub open spec fn column(line: Seq<char>) -> nat {
    bytes_before(
        line,
        if key_end(line) is Some {
            item_start(line, 0)
        } else {
            last_sign(line, 0)
        },
    )
}

/// The depth of the block scalar that a line starts, if it starts one. As it
/// stands, a line with any `|` or `>` at its end starts one at its
/// indentation. Any other header, mended or not, starts one at its column.
pub open spec fn block_depth(line: Seq<char>) -> Option<nat> {
    let end = crate::text::trim_end(line);
    match mended(line) {
        Some(now) => if is_header(now) {
            Some(column(now))
        } else {
            None
        },
        None => if block_sign_before(end, end.len() as int) {
            Some(indent(line))
        } else if is_header(line) {
            Some(column(line))
        } else {
            None
        },
    }
}

fn sign_before(s: &Vec<char>, n: usize) -> (yes: bool)
    requires
        n <= s@.len(),
    ensures
        yes == block_sign_before(s@, n as int),
{
    n > 0 && (s[n - 1] == '|' || s[n - 1] == '>')
}

fn sign_word(w: &Vec<char>) -> (yes: bool)
    ensures
        yes == is_sign_word(w@),
{
    let n: usize = w.len();
    if n < 1 || n > 3 || (w[0] != '|' && w[0] != '>') {
        return false;
    }
    if n > 1 && !hint(w[1]) {
        assert(!is_block_hint(w@[1]));
        return false;
    }
    if n > 2 && !hint(w[2]) {
        assert(!is_block_hint(w@[2]));
        return false;
    }
    assert forall|k: int| 0 < k < w@.len() implies is_block_hint(#[trigger] w@[k]) by {
        assert(k == 1 || k == 2);
    }
    true
}

fn block_named(words: &Vec<Vec<char>>) -> (yes: bool)
    ensures
        yes == names_block(crate::text::texts(words@)),
{
    let ghost all = crate::text::texts(words@);
    let n: usize = words.len();
    if n == 0 {
        return false;
    }
    assert(all.last() == words@[n - 1]@);
    if !sign_word(&words[n - 1]) {
        return false;
    }
    let mut i: usize = 0;
    while i < n - 1
        invariant
            0 < n == words@.len(),
            i <= n - 1,
            all == crate::text::texts(words@),
            forall|k: int| 0 <= k < i ==> is_property(#[trigger] all[k]),
        decreases n - i,
    {
        let w = &words[i];
        assert(all[i as int] == w@);
        if !(w.len() > 0 && (w[0] == '!' || w[0] == '&')) {
            return false;
        }
        i = i + 1;
    }
    true
}

fn gap(c: char) -> (yes: bool)
    ensures
        yes == is_gap(c),
{
    c == ' ' || c == '\t'
}

fn quoted(q: Quoting) -> (yes: bool)
    ensures
        yes == is_quoted(q),
{
    match q {
        Quoting::Single | Quoting::Double | Quoting::Escaped => true,
        Quoting::Plain | Quoting::Closed => false,
    }
}

fn quote_opens(s: &Vec<char>, i: usize) -> (yes: bool)
    requires
        i < s@.len(),
    ensures
        yes == opens_quote(s@, i as int),
{
    i == 0 || gap(s[i - 1]) || s[i - 1] == ',' || s[i - 1] == '[' || s[i - 1] == '{'
}

fn next_quoting(q: Quoting, s: &Vec<char>, i: usize) -> (out: Quoting)
    requires
        i < s@.len(),
    ensures
        out == quoting_after(q, s@, i as int),
{
    let c = s[i];
    match q {
        Quoting::Single => if c == '\'' {
            Quoting::Closed
        } else {
            Quoting::Single
        },
        Quoting::Double => if c == '"' {
            Quoting::Plain
        } else if c == '\\' {
            Quoting::Escaped
        } else {
            Quoting::Double
        },
        Quoting::Escaped => Quoting::Double,
        Quoting::Closed if c == '\'' => Quoting::Single,
        Quoting::Plain | Quoting::Closed => if c == '\'' && quote_opens(s, i) {
            Quoting::Single
        } else if c == '"' && quote_opens(s, i) {
            Quoting::Double
        } else {
            Quoting::Plain
        },
    }
}

/// Where the part of a line ends that is no comment, and whether a quote is
/// open there.
fn content_end(line: &Vec<char>) -> (out: (usize, bool))
    ensures
        out.0 == comment_from(line@, 0),
        out.0 <= line@.len(),
        out.1 == is_quoted(quoting(line@, out.0 as int)),
{
    let len: usize = line.len();
    let mut q = Quoting::Plain;
    let mut i: usize = 0;
    while i < len && !(line[i] == '#' && (i == 0 || gap(line[i - 1])) && !quoted(q))
        invariant
            i <= len == line@.len(),
            q == quoting(line@, i as int),
            comment_from(line@, i as int) == comment_from(line@, 0),
        decreases len - i,
    {
        q = next_quoting(q, line, i);
        i = i + 1;
    }
    (i, quoted(q))
}

fn separator(line: &Vec<char>, end: usize) -> (out: Option<usize>)
    requires
        end <= line@.len(),
    ensures
        match out {
            Some(c) => separator_from(line@, 0, end as int) == Some(c as int) && c < end,
            None => separator_from(line@, 0, end as int) is None,
        },
{
    let mut q = Quoting::Plain;
    let mut i: usize = 0;
    while i < end
        invariant
            i <= end <= line@.len(),
            q == quoting(line@, i as int),
            separator_from(line@, i as int, end as int) == separator_from(line@, 0, end as int),
        decreases end - i,
    {
        if line[i] == ':' && (i + 1 == end || gap(line[i + 1])) && !quoted(q) {
            return Some(i);
        }
        q = next_quoting(q, line, i);
        i = i + 1;
    }
    None
}

fn white_end(line: &Vec<char>, from: usize) -> (n: usize)
    requires
        from <= line@.len(),
    ensures
        n == crate::text::skip_white(line@, from as int),
        from <= n <= line@.len(),
{
    let mut i: usize = from;
    while i < line.len() && white(line[i])
        invariant
            from <= i <= line@.len(),
            crate::text::skip_white(line@, i as int) == crate::text::skip_white(
                line@,
                from as int,
            ),
        decreases line@.len() - i,
    {
        i = i + 1;
    }
    i
}

fn sign_at(line: &Vec<char>, i: usize) -> (yes: bool)
    requires
        i <= line@.len(),
    ensures
        yes == item_sign_at(line@, i as int),
{
    let len: usize = line.len();
    i < len && i + 1 < len && (line[i] == '-' || line[i] == '?') && gap(line[i + 1])
}

/// Where the text behind the signs of list items starts, and the last of
/// these signs.
fn item(line: &Vec<char>) -> (out: (usize, usize))
    ensures
        out.0 == item_start(line@, 0),
        out.1 == last_sign(line@, 0),
        out.0 <= line@.len(),
        out.1 <= line@.len(),
{
    let len: usize = line.len();
    let mut last: usize = white_end(line, 0);
    if !sign_at(line, last) {
        return (last, last);
    }
    let ghost mut at: int = 0;
    let mut next: usize = white_end(line, last + 1);
    while sign_at(line, next)
        invariant
            0 <= at <= last < next <= len == line@.len(),
            last == crate::text::skip_white(line@, at),
            next == crate::text::skip_white(line@, last + 1),
            item_sign_at(line@, last as int),
            item_start(line@, at) == item_start(line@, 0),
            last_sign(line@, at) == last_sign(line@, 0),
        decreases line@.len() - next,
    {
        proof {
            at = last + 1;
        }
        last = next;
        next = white_end(line, last + 1);
    }
    assert(item_start(line@, at) == item_start(line@, last + 1));
    (next, last)
}

fn hint(c: char) -> (yes: bool)
    ensures
        yes == is_block_hint(c),
{
    ('0' <= c && c <= '9') || c == '+' || c == '-'
}

fn trimmed_end(s: &Vec<char>, to: usize) -> (out: Vec<char>)
    requires
        to <= s@.len(),
    ensures
        out@ == crate::text::trim_end(s@.take(to as int)),
{
    let front = sub_chars(s, 0, to);
    assert(front@ =~= s@.take(to as int));
    let n = crate::text::trimmed_len(&front);
    let out = sub_chars(&front, 0, n);
    assert(out@ =~= crate::text::trim_end(front@));
    out
}

/// The column of a header; `None` for any other line.
fn header(line: &Vec<char>) -> (out: Option<u128>)
    ensures
        match out {
            Some(n) => is_header(line@) && n == column(line@),
            None => !is_header(line@),
        },
{
    let (end, open) = content_end(line);
    let (first, last) = item(line);
    if open || (first < line.len() && (line[first] == '[' || line[first] == '{')) {
        return None;
    }
    match separator(line, end) {
        Some(colon) => if block_named(&split_words(&sub_chars(line, colon + 1, end))) {
            Some(bytes_to(line, first))
        } else {
            None
        },
        None => if first <= end && block_named(&split_words(&sub_chars(line, first, end))) {
            Some(bytes_to(line, last))
        } else {
            None
        },
    }
}

fn sign_ends(line: &Vec<char>) -> (yes: bool)
    ensures
        yes == block_sign_before(
            crate::text::trim_end(line@),
            crate::text::trim_end(line@).len() as int,
        ),
{
    let end = trimmed_end(line, line.len());
    assert(line@.take(line@.len() as int) =~= line@);
    sign_before(&end, end.len())
}

// ---------------------------------------------------------------------------
// The whole text
// ---------------------------------------------------------------------------

/// Whether a line belongs to the block scalar that was opened at `depth`.
pub open spec fn in_block(line: Seq<char>, depth: Option<nat>) -> bool {
    depth matches Some(d) && (crate::text::blank(line) || indent(line) > d)
}

/// A line after the repair, where the open block scalar is known.
pub open spec fn line_after(line: Seq<char>, depth: Option<nat>) -> Seq<char> {
    if in_block(line, depth) {
        line
    } else {
        match mended(line) {
            Some(l) => l,
            None => line,
        }
    }
}

/// The block scalar that is open after a line.
pub open spec fn depth_after(line: Seq<char>, depth: Option<nat>) -> Option<nat> {
    if in_block(line, depth) {
        depth
    } else {
        block_depth(line)
    }
}

/// The block scalar that is open before line `n`.
pub open spec fn depth_before(lines: Seq<Seq<char>>, n: nat) -> Option<nat>
    decreases n,
{
    if n == 0 {
        None
    } else {
        depth_after(lines[n - 1], depth_before(lines, (n - 1) as nat))
    }
}

/// Line `i` after the repair.
pub open spec fn fixed_line(lines: Seq<Seq<char>>, i: int) -> Seq<char> {
    line_after(lines[i], depth_before(lines, i as nat))
}

/// The first `n` lines after the repair, each with a line feed.
pub open spec fn fixed_text(lines: Seq<Seq<char>>, n: nat) -> Seq<char>
    decreases n,
{
    if n == 0 {
        Seq::empty()
    } else {
        fixed_text(lines, (n - 1) as nat) + fixed_line(lines, n - 1) + seq!['\n']
    }
}

/// A text after the repair.
pub open spec fn fixed(text: Seq<char>) -> Seq<char> {
    let lines = crate::text::lines(text);
    fixed_text(lines, lines.len())
}

fn fix_chars(text: &Vec<char>) -> (out: Vec<char>)
    ensures
        out@ == fixed(text@),
{
    let lines = split_lines(text);
    let ghost all = crate::text::texts(lines@);
    let mut out: Vec<char> = Vec::new();
    let mut block: Option<u128> = None;
    let mut i: usize = 0;
    while i < lines.len()
        invariant
            i <= lines@.len(),
            all == crate::text::texts(lines@),
            all == crate::text::lines(text@),
            out@ == fixed_text(all, i as nat),
            depth_before(all, i as nat) == (match block {
                Some(d) => Some(d as nat),
                None => None,
            }),
        decreases lines@.len() - i,
    {
        let line = &lines[i];
        assert(all[i as int] == line@);
        let depth = bytes_to(line, white_prefix(line));
        let inside = match block {
            Some(d) => trim_chars(line).len() == 0 || depth > d,
            None => false,
        };
        let ghost before = out@;
        if inside {
            let mut same = sub_chars(line, 0, line.len());
            assert(same@ =~= line@);
            out.append(&mut same);
        } else {
            let mended_line = fix_one_colon(line);
            block = match &mended_line {
                Some(l) => header(l),
                None => if sign_ends(line) {
                    Some(depth)
                } else {
                    header(line)
                },
            };
            let mut now = match mended_line {
                Some(l) => l,
                None => {
                    let same = sub_chars(line, 0, line.len());
                    assert(same@ =~= line@);
                    same
                },
            };
            out.append(&mut now);
        }
        out.push('\n');
        assert(out@ =~= before + fixed_line(all, i as int) + seq!['\n']);
        i = i + 1;
    }
    out
}

/// Inserts the missing space in `key:value` lines. Lines inside block scalars
/// stay as they are, so string content is never rewritten.
pub fn fix_yaml_colon_spacing(text: &str) -> (out: String)
    ensures
        out@ == fixed(text@),
{
    let chars = fix_chars(&chars_of(text));
    let out = string_from(&chars, 0, chars.len());
    assert(out@ =~= chars@);
    out
}

// ---------------------------------------------------------------------------
// The guarded repair
// ---------------------------------------------------------------------------

/// Whether `serde_yaml` reads a text as a YAML document.
pub uninterp spec fn yaml_valid(text: Seq<char>) -> bool;

/// `serde_yaml::from_str` as a `Value`: whether the text is read without an
/// error, which depends on the text alone.
#[verifier::external_body]
pub(crate) fn yaml_parses(text: &str) -> (ok: bool)
    ensures
        ok == yaml_valid(text@),
{
    serde_yaml::from_str::<serde_yaml::Value>(text).is_ok()
}

/// What to do about a settings file.
pub enum Heal {
    /// It parses; whatever the trouble is, it is something else.
    Healthy,
    /// It does not parse, and the repair does not make it parse.
    Hopeless,
    /// It does not parse, and this text, which does, takes its place.
    Repaired(String),
}

/// The meaning of a decision.
pub enum HealView {
    Healthy,
    Hopeless,
    Repaired { text: Seq<char> },
}

impl Heal {
    /// The meaning of the decision.
    pub open spec fn view(&self) -> HealView {
        match *self {
            Heal::Healthy => HealView::Healthy,
            Heal::Hopeless => HealView::Hopeless,
            Heal::Repaired(t) => HealView::Repaired { text: t@ },
        }
    }
}

/// The decision, given whether the file and its repaired text parse.
pub open spec fn heal_choice(valid: bool, repaired: Seq<char>, repaired_valid: bool) -> HealView {
    if valid {
        HealView::Healthy
    } else if !repaired_valid {
        HealView::Hopeless
    } else {
        HealView::Repaired { text: repaired }
    }
}

/// The decision about a settings file.
pub open spec fn heal_of(text: Seq<char>) -> HealView {
    heal_choice(yaml_valid(text), fixed(text), yaml_valid(fixed(text)))
}

/// The decision, given whether the file and its repaired text parse.
pub fn heal_decision(valid: bool, repaired: String, repaired_valid: bool) -> (out: Heal)
    ensures
        out@ == heal_choice(valid, repaired@, repaired_valid),
        valid ==> out is Healthy,
        !valid && !repaired_valid ==> out is Hopeless,
        !valid && repaired_valid ==> (out matches Heal::Repaired(t) && t@ == repaired@),
{
    if valid {
        Heal::Healthy
    } else if !repaired_valid {
        Heal::Hopeless
    } else {
        Heal::Repaired(repaired)
    }
}

/// Decides about a settings file. What is written back always parses, and a
/// file that parses is never written.
pub fn heal_settings(text: &str) -> (out: Heal)
    ensures
        out@ == heal_of(text@),
        yaml_valid(text@) <==> out is Healthy,
        !yaml_valid(text@) && !yaml_valid(fixed(text@)) <==> out is Hopeless,
        out matches Heal::Repaired(t) ==> t@ == fixed(text@) && yaml_valid(t@),
{
    let valid = yaml_parses(text);
    if valid {
        return Heal::Healthy;
    }
    let repaired = fix_yaml_colon_spacing(text);
    let repaired_valid = yaml_parses(repaired.as_str());
    heal_decision(valid, repaired, repaired_valid)
}

// ---------------------------------------------------------------------------
// What the repair guarantees
// ---------------------------------------------------------------------------

/// The repair changes a line in one way only: it puts a single space behind
/// one colon. No other character is added, dropped or moved.
pub proof fn law_repair_only_inserts_a_space(lines: Seq<Seq<char>>, i: int)
    requires
        0 <= i < lines.len(),
    ensures
        fixed_line(lines, i) == lines[i] || exists|colon: int|
            0 <= colon < lines[i].len() && lines[i][colon] == ':' && fixed_line(lines, i)
                == #[trigger] spaced(lines[i], colon),
{
    let line = lines[i];
    crate::text::lemma_skip_white(line, 0);
    lemma_key_start(line);
    crate::text::lemma_index_from(line, ":"@, key_start(line));
    if mended(line) is Some {
        let colon = crate::text::index_from(line, ":"@, key_start(line))->0;
        lemma_colon_at(line, colon);
        assert(mended(line)->0 == spaced(line, colon));
    }
}

/// Lines inside a block scalar are left untouched: behind a line that starts
/// one, every line that is blank or indented deeper stays as it is, up to the
/// first line that is neither.
pub proof fn law_block_scalars_are_untouched(lines: Seq<Seq<char>>, header: int, i: int)
    requires
        0 <= header < i < lines.len(),
        !in_block(lines[header], depth_before(lines, header as nat)),
        forall|k: int| header < k <= i ==> in_block(#[trigger] lines[k], block_depth(lines[header])),
    ensures
        fixed_line(lines, i) == lines[i],
{
    lemma_block_stays_open(lines, header, i);
    assert(in_block(lines[i], block_depth(lines[header])));
}

proof fn lemma_block_stays_open(lines: Seq<Seq<char>>, header: int, i: int)
    requires
        0 <= header < i <= lines.len(),
        !in_block(lines[header], depth_before(lines, header as nat)),
        forall|k: int| header < k < i ==> in_block(#[trigger] lines[k], block_depth(lines[header])),
    ensures
        depth_before(lines, i as nat) == block_depth(lines[header]),
    decreases i - header,
{
    if i > header + 1 {
        lemma_block_stays_open(lines, header, i - 1);
        assert(in_block(lines[i - 1], block_depth(lines[header])));
    }
}

proof fn lemma_key_start(line: Seq<char>)
    ensures
        0 <= crate::text::skip_white(line, 0) <= key_start(line) <= line.len(),
{
    crate::text::lemma_skip_white(line, 0);
    reveal_strlit("- ");
}

proof fn lemma_colon_at(line: Seq<char>, i: int)
    ensures
        crate::text::occurs_at(line, ":"@, i) <==> 0 <= i < line.len() && line[i] == ':',
{
    reveal_strlit(":");
    if 0 <= i < line.len() {
        let piece = line.subrange(i, i + 1);
        assert(piece[0] == line[i]);
        if line[i] == ':' {
            assert(piece =~= ":"@);
        } else {
            assert(":"@[0] == ':');
        }
    }
}

/// Two texts with the same characters up to `n` have the same leading
/// whitespace, where that ends before `n`.
proof fn lemma_same_white(a: Seq<char>, b: Seq<char>, i: int, n: int)
    requires
        0 <= i <= crate::text::skip_white(a, i) < n,
        n <= a.len(),
        n <= b.len(),
        forall|k: int| 0 <= k < n ==> a[k] == b[k],
    ensures
        crate::text::skip_white(b, i) == crate::text::skip_white(a, i),
    decreases a.len() - i,
{
    if crate::text::is_white(a[i]) {
        crate::text::lemma_skip_white(a, i + 1);
        lemma_same_white(a, b, i + 1, n);
    }
}

proof fn lemma_same_bytes(a: Seq<char>, b: Seq<char>, n: int)
    requires
        forall|k: int| 0 <= k < n ==> a[k] == b[k],
    ensures
        bytes_before(a, n) == bytes_before(b, n),
    decreases n,
{
    if n > 0 {
        lemma_same_bytes(a, b, n - 1);
    }
}

/// A text that is not blank has a character other than whitespace.
proof fn lemma_not_blank(s: Seq<char>)
    ensures
        crate::text::blank(s) <==> forall|k: int| 0 <= k < s.len() ==> crate::text::is_white(s[k]),
{
    crate::text::lemma_skip_white(s, 0);
    let rest = crate::text::trim_start(s);
    crate::text::lemma_back_white(rest, rest.len() as int);
    let a = crate::text::skip_white(s, 0);
    if a < s.len() {
        assert(rest[0] == s[a]);
        assert(!crate::text::is_white(rest[0]));
        if crate::text::blank(s) {
            assert(crate::text::back_white(rest, rest.len() as int) == 0);
            assert(crate::text::is_white(rest[0]));
        }
    } else {
        assert(rest.len() == 0);
    }
}

/// A mended line keeps its indentation and needs no second repair.
proof fn lemma_mended_is_settled(line: Seq<char>)
    requires
        mended(line) is Some,
    ensures
        ({
            let now = mended(line)->0;
            &&& indent(now) == indent(line)
            &&& !crate::text::blank(line)
            &&& !crate::text::blank(now)
            &&& mended(now) is None
            &&& now.len() > 0 && line.len() > 0 && now.last() == line.last()
        }),
{
    let now = mended(line)->0;
    let a = crate::text::skip_white(line, 0);
    let start = key_start(line);
    lemma_key_start(line);
    crate::text::lemma_skip_white(line, 0);
    crate::text::lemma_index_from(line, ":"@, start);
    let colon = crate::text::index_from(line, ":"@, start)->0;
    lemma_colon_at(line, colon);
    let key = line.subrange(start, colon);
    lemma_not_blank(key);
    let k = choose|k: int| 0 <= k < key.len() && !crate::text::is_white(key[k]);
    assert(key[k] == line[start + k]);
    assert(a < colon);
    assert(now == spaced(line, colon));
    assert forall|j: int| 0 <= j < colon + 1 implies line[j] == now[j] by {}
    assert(now[colon + 1] == ' ');
    lemma_same_white(line, now, 0, colon);
    lemma_same_bytes(line, now, a);
    lemma_not_blank(line);
    lemma_not_blank(now);
    assert(!crate::text::is_white(line[start + k]));
    assert(!crate::text::is_white(now[start + k]));
    // The key starts at the same place.
    reveal_strlit("- ");
    assert(line.subrange(a, a + 2) =~= now.subrange(a, a + 2)) by {
        assert(a + 2 <= colon + 1);
    }
    assert(key_start(now) == start);
    // The first colon is the same, and a space follows it.
    crate::text::lemma_index_from(now, ":"@, start);
    lemma_colon_at(now, colon);
    assert forall|j: int| start <= j < colon implies !crate::text::occurs_at(now, ":"@, j) by {
        lemma_colon_at(now, j);
        lemma_colon_at(line, j);
        assert(!crate::text::occurs_at(line, ":"@, j));
    }
    assert(crate::text::occurs_at(now, ":"@, colon));
    assert(crate::text::index_from(now, ":"@, start) == Some(colon));
    assert(now.last() == line.last());
}

proof fn lemma_bytes_grow(s: Seq<char>, m: int, n: int)
    requires
        m <= n,
    ensures
        bytes_before(s, m) <= bytes_before(s, n),
    decreases n - m,
{
    if m < n {
        lemma_bytes_grow(s, m, n - 1);
    }
}

proof fn lemma_item_start(s: Seq<char>, i: int)
    requires
        0 <= i <= s.len(),
    ensures
        crate::text::skip_white(s, i) <= item_start(s, i),
        crate::text::skip_white(s, i) <= last_sign(s, i),
    decreases s.len() - i,
{
    let a = crate::text::skip_white(s, i);
    crate::text::lemma_skip_white(s, i);
    if item_sign_at(s, a) {
        crate::text::lemma_skip_white(s, a + 1);
        lemma_item_start(s, a + 1);
    }
}

/// The column of a line is not before its indentation.
proof fn lemma_column(line: Seq<char>)
    ensures
        indent(line) <= column(line),
{
    lemma_item_start(line, 0);
    lemma_bytes_grow(line, crate::text::skip_white(line, 0), item_start(line, 0));
    lemma_bytes_grow(line, crate::text::skip_white(line, 0), last_sign(line, 0));
}

proof fn lemma_no_separator(s: Seq<char>, i: int, end: int)
    requires
        0 <= i,
        end <= s.len(),
        forall|k: int| 0 <= k < s.len() ==> crate::text::is_white(#[trigger] s[k]),
    ensures
        separator_from(s, i, end) is None,
    decreases end - i,
{
    if i < end {
        assert(crate::text::is_white(s[i]));
        lemma_no_separator(s, i + 1, end);
    }
}

proof fn lemma_comment_from(s: Seq<char>, i: int)
    requires
        0 <= i <= s.len(),
    ensures
        i <= comment_from(s, i) <= s.len(),
    decreases s.len() - i,
{
    if i < s.len() {
        lemma_comment_from(s, i + 1);
    }
}

/// A blank line starts no block scalar.
proof fn lemma_blank_opens_nothing(line: Seq<char>)
    requires
        crate::text::blank(line),
    ensures
        block_depth(line) is None,
{
    lemma_not_blank(line);
    if mended(line) is Some {
        lemma_mended_is_settled(line);
    }
    let end = comment_from(line, 0);
    let first = item_start(line, 0);
    lemma_comment_from(line, 0);
    lemma_no_separator(line, 0, end);
    crate::text::lemma_skip_white(line, 0);
    lemma_item_start(line, 0);
    crate::text::lemma_back_white(line, line.len() as int);
    assert(crate::text::trim_end(line).len() == 0);
    if first <= end {
        let rest = line.subrange(first, end);
        assert forall|k: int| 0 <= k < rest.len() implies crate::text::is_white(rest[k]) by {
            assert(rest[k] == line[first + k]);
        }
        lemma_no_words(rest, 0);
    }
}

proof fn lemma_no_words(s: Seq<char>, i: int)
    requires
        0 <= i <= s.len(),
        forall|k: int| 0 <= k < s.len() ==> crate::text::is_white(#[trigger] s[k]),
    ensures
        crate::text::words_from(s, i).len() == 0,
    decreases s.len() - i,
{
    if i < s.len() {
        lemma_no_words(s, i + 1);
    }
}

/// Whether every line inside the block scalar at depth `a` is inside the one
/// at depth `b` too.
spec fn covered(a: Option<nat>, b: Option<nat>) -> bool {
    a matches Some(d) ==> b matches Some(e) && e <= d
}

/// A line after the repair stays as it is in a second repair, and what is
/// inside a block scalar in the first one is so in the second.
proof fn lemma_line_is_settled(line: Seq<char>, first: Option<nat>, second: Option<nat>)
    requires
        covered(first, second),
    ensures
        line_after(line_after(line, first), second) == line_after(line, first),
        covered(depth_after(line, first), depth_after(line_after(line, first), second)),
{
    if !in_block(line, first) {
        lemma_column(line_after(line, first));
        if mended(line) is Some {
            lemma_mended_is_settled(line);
        }
        if crate::text::blank(line) {
            lemma_blank_opens_nothing(line);
        }
    }
}

/// The lines of a repaired text.
pub open spec fn fixed_lines(lines: Seq<Seq<char>>) -> Seq<Seq<char>> {
    Seq::new(lines.len(), |i: int| fixed_line(lines, i))
}

proof fn lemma_depths_are_settled(lines: Seq<Seq<char>>, n: nat)
    requires
        n <= lines.len(),
    ensures
        covered(depth_before(lines, n), depth_before(fixed_lines(lines), n)),
    decreases n,
{
    if n > 0 {
        let m = (n - 1) as nat;
        lemma_depths_are_settled(lines, m);
        lemma_line_is_settled(
            lines[n - 1],
            depth_before(lines, m),
            depth_before(fixed_lines(lines), m),
        );
    }
}

proof fn lemma_text_is_settled(lines: Seq<Seq<char>>, n: nat)
    requires
        n <= lines.len(),
    ensures
        fixed_text(fixed_lines(lines), n) == fixed_text(lines, n),
        fixed_text(lines, n) == crate::text::unlines(fixed_lines(lines).take(n as int)),
    decreases n,
{
    let now = fixed_lines(lines);
    if n > 0 {
        let m = (n - 1) as nat;
        lemma_text_is_settled(lines, m);
        lemma_depths_are_settled(lines, m);
        lemma_line_is_settled(lines[n - 1], depth_before(lines, m), depth_before(now, m));
        assert(fixed_line(now, n - 1) == now[n - 1]);
        assert(now.take(n as int).drop_last() =~= now.take(m as int));
    } else {
        assert(now.take(0) =~= Seq::<Seq<char>>::empty());
    }
}

/// A second repair changes nothing, on a text without a line that ends with a
/// stray carriage return.
pub proof fn law_second_repair_changes_nothing(text: Seq<char>)
    requires
        forall|k: int|
            0 <= k < crate::text::lines(text).len() && (#[trigger] crate::text::lines(
                text,
            )[k]).len() > 0 ==> crate::text::lines(text)[k].last() != '\r',
    ensures
        fixed(fixed(text)) == fixed(text),
{
    let lines = crate::text::lines(text);
    let now = fixed_lines(lines);
    lemma_text_is_settled(lines, lines.len());
    assert(now.take(lines.len() as int) =~= now);
    assert forall|k: int| 0 <= k < now.len() implies !(#[trigger] now[k]).contains('\n') by {
        crate::text::lemma_lines_hold_no_feed(text, 0, k);
        law_repair_only_inserts_a_space(lines, k);
        let line = lines[k];
        if now[k] != line {
            let colon = choose|colon: int|
                0 <= colon < line.len() && line[colon] == ':' && now[k] == #[trigger] spaced(
                    line,
                    colon,
                );
            assert forall|j: int| 0 <= j < now[k].len() implies now[k][j] != '\n' by {
                if j <= colon {
                    assert(now[k][j] == line[j]);
                } else if j > colon + 1 {
                    assert(now[k][j] == line[j - 1]);
                }
            }
        }
    }
    assert forall|k: int| 0 <= k < now.len() && (#[trigger] now[k]).len() > 0 implies now[k].last()
        != '\r' by {
        if now[k] != lines[k] {
            lemma_mended_is_settled(lines[k]);
        }
        assert(lines[k].len() > 0);
    }
    crate::text::lemma_lines_of_unlines(now, 0);
    assert(now.take(0) =~= Seq::<Seq<char>>::empty());
    assert(now.skip(0) =~= now);
    assert(crate::text::lines(fixed(text)) == now);
}

// ---------------------------------------------------------------------------
// What the repair does
// ---------------------------------------------------------------------------

/// Whether a text is made of whitespace.
pub open spec fn is_all_white(s: Seq<char>) -> bool {
    forall|k: int| 0 <= k < s.len() ==> crate::text::is_white(#[trigger] s[k])
}

/// Whether a text may stand as the key of a line behind some whitespace and,
/// where `dashed`, a list dash: it holds no colon, and neither whitespace nor
/// another dash leads it where these would count as the line's own.
pub open spec fn is_key_place(key: Seq<char>, dashed: bool) -> bool {
    &&& !key.contains(':')
    &&& !dashed && key.len() > 0 ==> !crate::text::is_white(key[0])
    &&& !dashed && key.len() > 1 ==> !(key[0] == '-' && key[1] == ' ')
}

/// A list dash and the space behind it, or nothing.
pub open spec fn dash_if(dashed: bool) -> Seq<char> {
    if dashed {
        seq!['-', ' ']
    } else {
        Seq::empty()
    }
}

/// Whether a key is one that is mended: it has something in it and no quotes.
pub open spec fn is_bare_key(key: Seq<char>) -> bool {
    &&& !is_all_white(key)
    &&& !key.contains('"')
    &&& !key.contains('\'')
}

proof fn lemma_key_place(white: Seq<char>, dashed: bool, key: Seq<char>, rest: Seq<char>)
    requires
        is_all_white(white),
        is_key_place(key, dashed),
    ensures
        ({
            let line = white + dash_if(dashed) + key + seq![':'] + rest;
            &&& crate::text::skip_white(line, 0) == white.len()
            &&& key_start(line) == white.len() + dash_if(dashed).len()
            &&& crate::text::index_from(line, ":"@, key_start(line)) == Some(
                (white.len() + dash_if(dashed).len() + key.len()) as int,
            )
        }),
{
    let line = white + dash_if(dashed) + key + seq![':'] + rest;
    let a = white.len() as int;
    crate::text::lemma_skip_white(line, 0);
    let w = crate::text::skip_white(line, 0);
    if w < a {
        assert(line[w] == white[w]);
    }
    crate::text::law_visible_characters_are_no_whitespace('-');
    crate::text::law_visible_characters_are_no_whitespace(':');
    assert(!crate::text::is_white(line[a])) by {
        if dashed {
            assert(line[a] == '-');
        } else if key.len() > 0 {
            assert(line[a] == key[0]);
        } else {
            assert(line[a] == ':');
        }
    }
    assert(w == a);
    reveal_strlit("- ");
    let piece = line.subrange(a, a + 2);
    if dashed {
        assert(piece =~= "- "@);
    } else if line.len() >= a + 2 {
        assert(piece[0] == line[a] && piece[1] == line[a + 1]);
        if piece == "- "@ {
            assert(line[a] == '-' && line[a + 1] == ' ');
            assert(key.len() > 0);
            if key.len() == 1 {
                assert(line[a + 1] == ':');
            } else {
                assert(line[a + 1] == key[1]);
            }
        }
    }
    let start = a + dash_if(dashed).len();
    assert(key_start(line) == start);
    reveal_strlit(":");
    let colon = start + key.len();
    assert(line.subrange(colon, colon + 1) =~= ":"@);
    assert forall|j: int| start <= j < colon implies #[trigger] line.subrange(j, j + 1) != ":"@ by {
        assert(line.subrange(j, j + 1)[0] == key[j - start]);
    }
    crate::text::law_a_search_finds_the_first_place(line, ":"@, start, colon);
}

/// A line gets a space behind its first colon exactly where that colon ends a
/// key without quotes and a value follows at once: any character but a space,
/// a tab and the sign of a comment, a quote as much as any other. Nothing else
/// of the line changes, and every other line stays as it is.
pub proof fn law_a_missing_space_is_put_in(
    white: Seq<char>,
    dashed: bool,
    key: Seq<char>,
    value: Seq<char>,
)
    requires
        is_all_white(white),
        is_key_place(key, dashed),
    ensures
        ({
            let front = white + dash_if(dashed) + key;
            let line = front + seq![':'] + value;
            mended(line) == (if is_bare_key(key) && value.len() > 0 && value[0] != ' ' && value[0]
                != '\t' && value[0] != '#' {
                Some(front + seq![':', ' '] + value)
            } else {
                None
            })
        }),
{
    let front = white + dash_if(dashed) + key;
    let line = front + seq![':'] + value;
    lemma_key_place(white, dashed, key, value);
    let start = key_start(line);
    let colon = front.len() as int;
    assert(line.subrange(start, colon) =~= key);
    lemma_not_blank(key);
    assert(crate::text::blank(key) <==> is_all_white(key)) by {
        if is_all_white(key) {
            assert forall|k: int| 0 <= k < key.len() implies crate::text::is_white(key[k]) by {}
        }
    }
    if value.len() > 0 {
        assert(line[colon + 1] == value[0]);
    }
    assert(spaced(line, colon) =~= front + seq![':', ' '] + value);
}

/// A line without a colon stays as it is.
pub proof fn law_a_line_without_a_colon_stays(line: Seq<char>)
    requires
        !line.contains(':'),
    ensures
        mended(line) is None,
{
    lemma_key_start(line);
    crate::text::lemma_index_from(line, ":"@, key_start(line));
    if crate::text::index_from(line, ":"@, key_start(line)) is Some {
        let k = crate::text::index_from(line, ":"@, key_start(line))->0;
        lemma_colon_at(line, k);
        assert(line.contains(line[k]));
    }
}

/// A line after the repair where no block scalar is open.
pub open spec fn mended_or_same(line: Seq<char>) -> Seq<char> {
    match mended(line) {
        Some(now) => now,
        None => line,
    }
}

/// Whether a line holds no sign of a block scalar.
pub open spec fn is_signless(line: Seq<char>) -> bool {
    !line.contains('|') && !line.contains('>')
}

proof fn lemma_words_from_text(s: Seq<char>, i: int)
    requires
        0 <= i <= s.len(),
    ensures
        forall|n: int, k: int|
            0 <= n < crate::text::words_from(s, i).len() && 0 <= k < crate::text::words_from(s, i)[n].len()
                ==> s.contains(#[trigger] crate::text::words_from(s, i)[n][k]),
    decreases s.len() - i,
{
    if i < s.len() {
        if crate::text::is_white(s[i]) {
            lemma_words_from_text(s, i + 1);
            assert(crate::text::words_from(s, i) == crate::text::words_from(s, i + 1));
        } else {
            let e = crate::text::word_end(s, i);
            let all = crate::text::words_from(s, i);
            if i < e && e <= s.len() {
                lemma_words_from_text(s, e);
                let rest = crate::text::words_from(s, e);
                assert forall|n: int, k: int|
                    0 <= n < all.len() && 0 <= k < all[n].len() implies s.contains(
                    #[trigger] all[n][k],
                ) by {
                    if n == 0 {
                        assert(all[0][k] == s[i + k]);
                    } else {
                        assert(all[n] == rest[n - 1]);
                        assert(s.contains(rest[n - 1][k]));
                    }
                }
            } else {
                assert(all.len() == 0);
            }
        }
    }
}

proof fn lemma_no_sign_no_block(s: Seq<char>)
    requires
        is_signless(s),
    ensures
        !names_block(crate::text::words(s)),
{
    let words = crate::text::words(s);
    lemma_words_from_text(s, 0);
    if words.len() > 0 && words.last().len() > 0 {
        assert(s.contains(words[words.len() - 1][0]));
    }
}

proof fn lemma_signless_header(line: Seq<char>)
    requires
        is_signless(line),
    ensures
        !is_header(line),
{
    let end = comment_from(line, 0);
    let first = item_start(line, 0);
    lemma_comment_from(line, 0);
    lemma_separator_from(line, 0, end);
    crate::text::lemma_skip_white(line, 0);
    lemma_item_start(line, 0);
    match key_end(line) {
        Some(colon) => {
            lemma_signless_part(line, colon + 1, end);
            lemma_no_sign_no_block(line.subrange(colon + 1, end));
        },
        None => {
            if first <= end {
                lemma_signless_part(line, first, end);
                lemma_no_sign_no_block(line.subrange(first, end));
            }
        },
    }
}

proof fn lemma_signless_part(line: Seq<char>, a: int, b: int)
    requires
        is_signless(line),
        0 <= a <= b <= line.len(),
    ensures
        is_signless(line.subrange(a, b)),
{
    let part = line.subrange(a, b);
    assert forall|k: int| 0 <= k < part.len() implies line.contains(part[k]) by {
        assert(part[k] == line[a + k]);
    }
    if part.contains('|') {
        let k = choose|k: int| 0 <= k < part.len() && part[k] == '|';
        assert(line.contains(part[k]));
    }
    if part.contains('>') {
        let k = choose|k: int| 0 <= k < part.len() && part[k] == '>';
        assert(line.contains(part[k]));
    }
}

proof fn lemma_separator_from(s: Seq<char>, i: int, end: int)
    requires
        0 <= i,
    ensures
        separator_from(s, i, end) matches Some(c) ==> i <= c < end && separates(s, c, end),
    decreases end - i,
{
    if i < end {
        lemma_separator_from(s, i + 1, end);
    }
}

proof fn lemma_signless_opens_nothing(line: Seq<char>)
    requires
        is_signless(line),
    ensures
        block_depth(line) is None,
{
    crate::text::lemma_back_white(line, line.len() as int);
    let end = crate::text::trim_end(line);
    if end.len() > 0 {
        assert(line.contains(line[end.len() - 1]));
        assert(end[end.len() - 1] == line[end.len() - 1]);
    }
    if mended(line) is Some {
        lemma_key_start(line);
        crate::text::lemma_index_from(line, ":"@, key_start(line));
        let colon = crate::text::index_from(line, ":"@, key_start(line))->0;
        lemma_colon_at(line, colon);
        let now = spaced(line, colon);
        assert forall|k: int| 0 <= k < now.len() implies now[k] == ' ' || line.contains(now[k]) by {
            if k <= colon {
                assert(now[k] == line[k]);
            } else if k > colon + 1 {
                assert(now[k] == line[k - 1]);
            }
        }
        if now.contains('|') {
            let k = choose|k: int| 0 <= k < now.len() && now[k] == '|';
            assert(now[k] == ' ' || line.contains(now[k]));
        }
        if now.contains('>') {
            let k = choose|k: int| 0 <= k < now.len() && now[k] == '>';
            assert(now[k] == ' ' || line.contains(now[k]));
        }
        lemma_signless_header(now);
    }
    lemma_signless_header(line);
}

proof fn lemma_signless_depth(lines: Seq<Seq<char>>, n: nat)
    requires
        n <= lines.len(),
        forall|k: int| 0 <= k < n ==> is_signless(#[trigger] lines[k]),
    ensures
        depth_before(lines, n) is None,
    decreases n,
{
    if n > 0 {
        lemma_signless_depth(lines, (n - 1) as nat);
        assert(is_signless(lines[n - 1]));
        lemma_signless_opens_nothing(lines[n - 1]);
    }
}

/// The repair goes line by line: each line of the text is one line of the
/// repaired text, in order, and ends with a line feed.
pub proof fn law_the_repair_goes_line_by_line(text: Seq<char>)
    ensures
        fixed(text) == crate::text::unlines(fixed_lines(crate::text::lines(text))),
        fixed_lines(crate::text::lines(text)).len() == crate::text::lines(text).len(),
{
    let lines = crate::text::lines(text);
    lemma_text_is_settled(lines, lines.len());
    assert(fixed_lines(lines).take(lines.len() as int) =~= fixed_lines(lines));
}

/// In a text without block scalars, every line is mended on its own.
pub proof fn law_plain_lines_are_mended_one_by_one(lines: Seq<Seq<char>>, i: int)
    requires
        0 <= i < lines.len(),
        forall|k: int| 0 <= k < i ==> is_signless(#[trigger] lines[k]),
    ensures
        fixed_line(lines, i) == mended_or_same(lines[i]),
{
    lemma_signless_depth(lines, i as nat);
}

/// A run of spaces.
pub open spec fn spaces(n: nat) -> Seq<char> {
    Seq::new(n, |i: int| ' ')
}

/// Whether a line is blank or begins with more than `n` spaces or other
/// whitespace.
pub open spec fn is_deeper(line: Seq<char>, n: nat) -> bool {
    is_all_white(line) || line.len() > n && forall|k: int|
        0 <= k <= n ==> crate::text::is_white(#[trigger] line[k])
}

proof fn lemma_bytes_at_least(s: Seq<char>, n: int)
    requires
        0 <= n <= s.len(),
    ensures
        bytes_before(s, n) >= n,
    decreases n,
{
    if n > 0 {
        lemma_bytes_at_least(s, n - 1);
    }
}

proof fn lemma_bytes_of_spaces(s: Seq<char>, n: int)
    requires
        0 <= n <= s.len(),
        forall|k: int| 0 <= k < n ==> #[trigger] s[k] == ' ',
    ensures
        bytes_before(s, n) == n,
    decreases n,
{
    if n > 0 {
        lemma_bytes_of_spaces(s, n - 1);
        assert(s[n - 1] == ' ');
    }
}

proof fn lemma_deeper_is_inside(line: Seq<char>, n: nat)
    requires
        is_deeper(line, n),
    ensures
        in_block(line, Some(n)),
{
    lemma_not_blank(line);
    if is_all_white(line) {
        assert forall|k: int| 0 <= k < line.len() implies crate::text::is_white(line[k]) by {}
    } else {
        crate::text::lemma_skip_white(line, 0);
        let a = crate::text::skip_white(line, 0);
        if a <= n {
            assert(crate::text::is_white(line[a]));
        }
        lemma_bytes_at_least(line, a);
    }
}

/// Whether a line is neither blank nor indented by more than `n` spaces.
pub open spec fn is_shallow(line: Seq<char>, n: nat) -> bool {
    exists|m: nat, rest: Seq<char>|
        m <= n && rest.len() > 0 && !crate::text::is_white(rest[0]) && line == #[trigger] (spaces(m)
            + rest)
}

proof fn lemma_shallow_is_outside(line: Seq<char>, n: nat)
    requires
        is_shallow(line, n),
    ensures
        !in_block(line, Some(n)),
{
    let (m, rest) = choose|m: nat, rest: Seq<char>|
        m <= n && rest.len() > 0 && !crate::text::is_white(rest[0]) && line == #[trigger] (spaces(m)
            + rest);
    crate::text::lemma_skip_white(line, 0);
    let a = crate::text::skip_white(line, 0);
    assert(line[m as int] == rest[0]);
    if a < m {
        assert(line[a] == ' ');
    }
    assert(a == m);
    lemma_bytes_of_spaces(line, a);
    lemma_not_blank(line);
}

/// Whether a line is a key with the sign of a block scalar behind it, at some
/// indentation: `key: |` or `key: >`, and perhaps something before the sign.
pub open spec fn is_signed_key(line: Seq<char>, depth: nat, key: Seq<char>, middle: Seq<char>, sign: char) -> bool {
    &&& is_key_place(key, false)
    &&& sign == '|' || sign == '>'
    &&& line == spaces(depth) + key + seq![':', ' '] + middle + seq![sign]
}

/// What a key with `|` or `>` at the end of its line introduces is left alone:
/// all lines behind it that are blank or indented deeper stay as they are.
/// The first other line is mended like any line again.
pub proof fn law_the_content_of_a_block_stays(
    lines: Seq<Seq<char>>,
    header: int,
    depth: nat,
    key: Seq<char>,
    middle: Seq<char>,
    sign: char,
    i: int,
)
    requires
        0 <= header < i < lines.len(),
        forall|k: int| 0 <= k < header ==> is_signless(#[trigger] lines[k]),
        is_signed_key(lines[header], depth, key, middle, sign),
        forall|k: int| header < k < i ==> is_deeper(#[trigger] lines[k], depth),
    ensures
        fixed_line(lines, header) == lines[header],
        is_deeper(lines[i], depth) ==> fixed_line(lines, i) == lines[i],
        is_shallow(lines[i], depth) ==> fixed_line(lines, i) == mended_or_same(lines[i]),
{
    let line = lines[header];
    let white = spaces(depth);
    let value = seq![' '] + middle + seq![sign];
    assert(is_all_white(white)) by {
        assert forall|k: int| 0 <= k < white.len() implies crate::text::is_white(
            #[trigger] white[k],
        ) by {
            crate::text::law_visible_characters_are_no_whitespace(white[k]);
        }
    }
    assert(line =~= white + dash_if(false) + key + seq![':'] + value);
    law_a_missing_space_is_put_in(white, false, key, value);
    assert(value[0] == ' ');
    assert(mended(line) is None);
    lemma_key_place(white, false, key, value);
    lemma_bytes_of_spaces(line, depth as int);
    assert(indent(line) == depth);
    crate::text::law_visible_characters_are_no_whitespace(sign);
    crate::text::law_visible_characters_are_no_whitespace(key[0]);
    let none = Seq::<char>::empty();
    let n = line.len() as int;
    crate::text::lemma_back_white(line, n);
    assert(line[n - 1] == sign);
    if crate::text::back_white(line, n) < n {
        assert(crate::text::is_white(line[n - 1]));
    }
    assert(crate::text::trim_end(line) =~= line);
    assert(block_depth(line) == Some(depth));
    lemma_signless_depth(lines, header as nat);
    lemma_open_block(lines, header, depth, i);
    if is_deeper(lines[i], depth) {
        lemma_deeper_is_inside(lines[i], depth);
    }
    if is_shallow(lines[i], depth) {
        lemma_shallow_is_outside(lines[i], depth);
    }
}

proof fn lemma_open_block(lines: Seq<Seq<char>>, header: int, depth: nat, i: int)
    requires
        0 <= header < i <= lines.len(),
        depth_before(lines, header as nat) is None,
        block_depth(lines[header]) == Some(depth),
        forall|k: int| header < k < i ==> is_deeper(#[trigger] lines[k], depth),
    ensures
        depth_before(lines, i as nat) == Some(depth),
    decreases i - header,
{
    if i > header + 1 {
        lemma_open_block(lines, header, depth, i - 1);
        assert(is_deeper(lines[i - 1], depth));
        lemma_deeper_is_inside(lines[i - 1], depth);
    }
}

// Headers with hints.

/// Whether a text holds no quote and no sign of a comment.
pub open spec fn is_unmarked(s: Seq<char>) -> bool {
    !s.contains('"') && !s.contains('\'') && !s.contains('#')
}

proof fn lemma_unquoted(s: Seq<char>, i: int)
    requires
        0 <= i <= s.len(),
        forall|k: int| 0 <= k < i ==> #[trigger] s[k] != '"' && s[k] != '\'',
    ensures
        quoting(s, i) is Plain,
    decreases i,
{
    if i > 0 {
        lemma_unquoted(s, i - 1);
        assert(s[i - 1] != '"');
    }
}

proof fn lemma_first_comment(s: Seq<char>, i: int, e: int)
    requires
        0 <= i <= e <= s.len(),
        forall|k: int| i <= k < e ==> #[trigger] s[k] != '#',
        e == s.len() || comment_at(s, e),
    ensures
        comment_from(s, i) == e,
    decreases e - i,
{
    if i < e {
        assert(s[i] != '#');
        lemma_first_comment(s, i + 1, e);
    }
}

proof fn lemma_first_separator(s: Seq<char>, i: int, c: int, end: int)
    requires
        0 <= i <= c,
        c + 1 < end <= s.len(),
        forall|k: int| 0 <= k < c ==> #[trigger] s[k] != '"' && s[k] != '\'',
        forall|k: int| i <= k < c ==> #[trigger] s[k] != ':',
        s[c] == ':',
        s[c + 1] == ' ' || s[c + 1] == '\t',
    ensures
        separator_from(s, i, end) == Some(c),
    decreases c - i,
{
    if i < c {
        assert(s[i] != ':');
        lemma_first_separator(s, i + 1, c, end);
    } else {
        lemma_unquoted(s, c);
    }
}

proof fn lemma_no_separator_before(s: Seq<char>, i: int, end: int)
    requires
        0 <= i <= end <= s.len(),
        forall|k: int| i <= k < end ==> #[trigger] s[k] != ':',
    ensures
        separator_from(s, i, end) is None,
    decreases end - i,
{
    if i < end {
        assert(s[i] != ':');
        lemma_no_separator_before(s, i + 1, end);
    }
}

/// Whether a text is what may follow the header of a block scalar: nothing, or
/// a comment.
pub open spec fn is_remark(s: Seq<char>) -> bool {
    s.len() == 0 || s.len() > 2 && s[0] == ' ' && s[1] == '#'
}

/// The sign of a block scalar and its hints: up to two, each a digit, a plus
/// or a minus.
pub open spec fn is_hinted_sign(s: Seq<char>) -> bool {
    &&& 1 <= s.len() <= 3
    &&& s[0] == '|' || s[0] == '>'
    &&& forall|k: int| 0 < k < s.len() ==> 0x30 <= (#[trigger] s[k]) as int <= 0x39 || s[k] == '+' || s[k] == '-'
}

/// A header: a key, or only a list dash where there is none, the sign, and
/// perhaps a remark.
proof fn lemma_hinted_header(
    depth: nat,
    dashed: bool,
    key: Seq<char>,
    sign: Seq<char>,
    remark: Seq<char>,
)
    requires
        is_key_place(key, dashed),
        key.len() > 0,
        !crate::text::is_white(key[0]),
        key[0] != '[' && key[0] != '{' && key[0] != '-' && key[0] != '?',
        is_unmarked(key),
        is_hinted_sign(sign),
        is_remark(remark),
    ensures
        ({
            let line = spaces(depth) + dash_if(dashed) + key + seq![':', ' '] + sign + remark;
            &&& is_header(line)
            &&& column(line) == depth + dash_if(dashed).len()
            &&& mended(line) is None
            &&& indent(line) == depth
        }),
{
    let white = spaces(depth);
    let front = white + dash_if(dashed) + key;
    let line = front + seq![':', ' '] + sign + remark;
    let n = line.len() as int;
    let d = depth as int;
    let k0 = d + dash_if(dashed).len();
    let c = front.len() as int;
    let s0 = c + 2;
    let s1 = s0 + sign.len();
    lemma_spaces_are_white(depth);
    assert forall|k: int| 0 <= k < s1 implies #[trigger] line[k] != '"' && line[k] != '\'' && line[k]
        != '#' by {
        if k < d {
            assert(line[k] == ' ');
        } else if k < k0 {
            assert(line[k] == dash_if(dashed)[k - d]);
        } else if k < c {
            assert(line[k] == key[k - k0]);
            assert(key.contains(key[k - k0]));
        } else if k >= s0 {
            assert(line[k] == sign[k - s0]);
        }
    }
    assert forall|k: int| 0 <= k < c implies #[trigger] line[k] != ':' by {
        if k < d {
            assert(line[k] == ' ');
        } else if k < k0 {
            assert(line[k] == dash_if(dashed)[k - d]);
        } else {
            assert(line[k] == key[k - k0]);
            assert(key.contains(key[k - k0]));
        }
    }
    // What counts ends with the sign, or with the space before a remark.
    let end = if remark.len() == 0 {
        s1
    } else {
        s1 + 1
    };
    if remark.len() > 0 {
        assert(line[s1] == ' ' && line[s1 + 1] == '#');
    }
    lemma_unquoted(line, end);
    lemma_first_comment(line, 0, end);
    lemma_first_separator(line, 0, c, end);
    assert(key_end(line) == Some(c));
    // The key stands behind the dash.
    let value = seq![' '] + sign + remark;
    assert(line =~= white + dash_if(dashed) + key + seq![':'] + value);
    lemma_key_place(white, dashed, key, value);
    law_a_missing_space_is_put_in(white, dashed, key, value);
    assert(line[k0] == key[0]);
    lemma_bytes_of_spaces(line, d);
    if dashed {
        assert(line[d] == '-' && line[d + 1] == ' ');
        assert(item_sign_at(line, d));
        crate::text::law_visible_characters_are_no_whitespace(' ');
        lemma_white_stops(line, d + 1, k0);
        assert(item_start(line, d + 1) == k0);
        assert(item_start(line, 0) == k0);
        assert(bytes_before(line, d + 1) == d + 1);
        assert(bytes_before(line, d + 2) == d + 2);
    } else {
        assert(item_start(line, 0) == k0);
    }
    assert(line.subrange(c + 2, c + 2 + sign.len()) =~= sign);
    lemma_sign_names_block(line, c + 1, sign, end);
}

proof fn lemma_spaces_are_white(n: nat)
    ensures
        is_all_white(spaces(n)),
{
    let white = spaces(n);
    assert forall|k: int| 0 <= k < white.len() implies crate::text::is_white(
        #[trigger] white[k],
    ) by {
        crate::text::law_visible_characters_are_no_whitespace(white[k]);
    }
}

/// A sign with a space on one or both sides is the only word there.
proof fn lemma_sign_names_block(line: Seq<char>, from: int, sign: Seq<char>, end: int)
    requires
        is_hinted_sign(sign),
        0 <= from < line.len(),
        line[from] == ' ',
        from + 1 + sign.len() <= end <= line.len(),
        end <= from + 2 + sign.len(),
        line.subrange(from + 1, from + 1 + sign.len()) == sign,
        end == from + 2 + sign.len() ==> line[end - 1] == ' ',
    ensures
        names_block(crate::text::words(line.subrange(from, end))),
        names_block(crate::text::words(line.subrange(from + 1, end))),
{
    assert forall|k: int| 0 <= k < sign.len() implies !crate::text::is_white(#[trigger] sign[k]) by {
        crate::text::law_visible_characters_are_no_whitespace(sign[k]);
    }
    crate::text::law_visible_characters_are_no_whitespace(' ');
    let none = Seq::<char>::empty();
    let rest = line.subrange(from + 1, end);
    assert forall|k: int| 0 <= k < sign.len() implies line[from + 1 + k] == sign[k] by {
        assert(line.subrange(from + 1, from + 1 + sign.len())[k] == sign[k]);
    }
    crate::text::law_words_stand_between_whitespace(sign, ' ', none);
    crate::text::law_words_stand_between_whitespace(sign, ' ', rest);
    if end == from + 1 + sign.len() {
        assert(rest =~= sign);
    } else {
        assert(rest =~= sign + seq![' '] + none);
    }
    assert(crate::text::words(rest) =~= seq![sign]);
    assert(line.subrange(from, end) =~= seq![' '] + rest);
    assert(is_sign_word(sign)) by {
        assert forall|k: int| 0 < k < sign.len() implies is_block_hint(#[trigger] sign[k]) by {}
    }
    assert(seq![sign].last() == sign);
    assert(names_block(seq![sign]));
}

proof fn lemma_white_stops(s: Seq<char>, i: int, e: int)
    requires
        0 <= i <= e < s.len(),
        forall|k: int| i <= k < e ==> crate::text::is_white(#[trigger] s[k]),
        !crate::text::is_white(s[e]),
    ensures
        crate::text::skip_white(s, i) == e,
    decreases e - i,
{
    if i < e {
        assert(crate::text::is_white(s[i]));
        lemma_white_stops(s, i + 1, e);
    }
}

/// Whether a line ends with something other than whitespace and the signs of
/// block scalars.
pub open spec fn ends_unsigned(line: Seq<char>) -> bool {
    line.len() > 0 && !crate::text::is_white(line.last()) && line.last() != '|' && line.last() != '>'
}

proof fn lemma_ends_unsigned(line: Seq<char>)
    requires
        ends_unsigned(line),
    ensures
        crate::text::trim_end(line) == line,
{
    let n = line.len() as int;
    crate::text::lemma_back_white(line, n);
    if crate::text::back_white(line, n) < n {
        assert(crate::text::is_white(line[n - 1]));
    }
    assert(crate::text::trim_end(line) =~= line);
}

/// A sign with hints, such as `|-` or `>2+`, or with a comment behind it,
/// introduces a block scalar too, behind a key or a key of a list item. Its
/// content is what is indented deeper than the key; a line at the key's own
/// column, such as the next key of the item, is mended.
pub proof fn law_the_content_of_a_hinted_block_stays(
    lines: Seq<Seq<char>>,
    header: int,
    depth: nat,
    dashed: bool,
    key: Seq<char>,
    sign: Seq<char>,
    remark: Seq<char>,
    i: int,
)
    requires
        0 <= header < i < lines.len(),
        forall|k: int| 0 <= k < header ==> is_signless(#[trigger] lines[k]),
        is_key_place(key, dashed),
        key.len() > 0,
        !crate::text::is_white(key[0]),
        key[0] != '[' && key[0] != '{' && key[0] != '-' && key[0] != '?',
        is_unmarked(key),
        is_hinted_sign(sign),
        is_remark(remark),
        lines[header] == spaces(depth) + dash_if(dashed) + key + seq![':', ' '] + sign + remark,
        ends_unsigned(lines[header]),
        forall|k: int|
            header < k < i ==> is_deeper(#[trigger] lines[k], depth + dash_if(dashed).len()),
    ensures
        fixed_line(lines, header) == lines[header],
        is_deeper(lines[i], depth + dash_if(dashed).len()) ==> fixed_line(lines, i) == lines[i],
        is_shallow(lines[i], depth + dash_if(dashed).len()) ==> fixed_line(lines, i)
            == mended_or_same(lines[i]),
{
    let col = depth + dash_if(dashed).len();
    lemma_hinted_header(depth, dashed, key, sign, remark);
    lemma_ends_unsigned(lines[header]);
    lemma_block_goes_on(lines, header, col, i);
}

/// A header that lost its space is mended, and what it introduces is left
/// alone as behind any header.
pub proof fn law_the_content_behind_a_mended_header_stays(
    lines: Seq<Seq<char>>,
    header: int,
    depth: nat,
    dashed: bool,
    key: Seq<char>,
    sign: Seq<char>,
    remark: Seq<char>,
    i: int,
)
    requires
        0 <= header < i < lines.len(),
        forall|k: int| 0 <= k < header ==> is_signless(#[trigger] lines[k]),
        is_key_place(key, dashed),
        key.len() > 0,
        !crate::text::is_white(key[0]),
        key[0] != '[' && key[0] != '{' && key[0] != '-' && key[0] != '?',
        is_unmarked(key),
        is_hinted_sign(sign),
        is_remark(remark),
        lines[header] == spaces(depth) + dash_if(dashed) + key + seq![':'] + (sign + remark),
        forall|k: int|
            header < k < i ==> is_deeper(#[trigger] lines[k], depth + dash_if(dashed).len()),
    ensures
        fixed_line(lines, header) == spaces(depth) + dash_if(dashed) + key + seq![':', ' '] + (sign
            + remark),
        is_deeper(lines[i], depth + dash_if(dashed).len()) ==> fixed_line(lines, i) == lines[i],
        is_shallow(lines[i], depth + dash_if(dashed).len()) ==> fixed_line(lines, i)
            == mended_or_same(lines[i]),
{
    let col = depth + dash_if(dashed).len();
    let front = spaces(depth) + dash_if(dashed) + key;
    let value = sign + remark;
    lemma_spaces_are_white(depth);
    law_a_missing_space_is_put_in(spaces(depth), dashed, key, value);
    assert(value[0] == sign[0]);
    assert(!is_all_white(key)) by {
        assert(!crate::text::is_white(key[0]));
    }
    lemma_hinted_header(depth, dashed, key, sign, remark);
    let now = front + seq![':', ' '] + value;
    assert(now =~= front + seq![':', ' '] + sign + remark);
    lemma_block_goes_on(lines, header, col, i);
}

proof fn lemma_block_goes_on(lines: Seq<Seq<char>>, header: int, col: nat, i: int)
    requires
        0 <= header < i < lines.len(),
        forall|k: int| 0 <= k < header ==> is_signless(#[trigger] lines[k]),
        block_depth(lines[header]) == Some(col),
        forall|k: int| header < k < i ==> is_deeper(#[trigger] lines[k], col),
    ensures
        fixed_line(lines, header) == mended_or_same(lines[header]),
        is_deeper(lines[i], col) ==> fixed_line(lines, i) == lines[i],
        is_shallow(lines[i], col) ==> fixed_line(lines, i) == mended_or_same(lines[i]),
{
    lemma_signless_depth(lines, header as nat);
    lemma_open_block(lines, header, col, i);
    if is_deeper(lines[i], col) {
        lemma_deeper_is_inside(lines[i], col);
    }
    if is_shallow(lines[i], col) {
        lemma_shallow_is_outside(lines[i], col);
    }
}

/// The sign of a block scalar may be the whole of a list item. What is
/// indented deeper than the dash is its content.
pub proof fn law_the_content_of_a_list_block_stays(
    lines: Seq<Seq<char>>,
    header: int,
    depth: nat,
    sign: Seq<char>,
    remark: Seq<char>,
    i: int,
)
    requires
        0 <= header < i < lines.len(),
        forall|k: int| 0 <= k < header ==> is_signless(#[trigger] lines[k]),
        is_hinted_sign(sign),
        is_remark(remark),
        !remark.contains(':'),
        lines[header] == spaces(depth) + seq!['-', ' '] + sign + remark,
        ends_unsigned(lines[header]),
        forall|k: int| header < k < i ==> is_deeper(#[trigger] lines[k], depth),
    ensures
        fixed_line(lines, header) == lines[header],
        is_deeper(lines[i], depth) ==> fixed_line(lines, i) == lines[i],
        is_shallow(lines[i], depth) ==> fixed_line(lines, i) == mended_or_same(lines[i]),
{
    let line = lines[header];
    let d = depth as int;
    let s0 = d + 2;
    let s1 = s0 + sign.len();
    let n = line.len() as int;
    lemma_spaces_are_white(depth);
    assert forall|k: int| 0 <= k < n implies #[trigger] line[k] != ':' by {
        if k < d {
            assert(line[k] == ' ');
        } else if s0 <= k < s1 {
            assert(line[k] == sign[k - s0]);
        } else if k >= s1 {
            assert(line[k] == remark[k - s1]);
            assert(remark.contains(remark[k - s1]));
        }
    }
    assert forall|k: int| 0 <= k < s1 implies #[trigger] line[k] != '"' && line[k] != '\'' && line[k]
        != '#' by {
        if k < d {
            assert(line[k] == ' ');
        } else if s0 <= k {
            assert(line[k] == sign[k - s0]);
        }
    }
    let end = if remark.len() == 0 {
        s1
    } else {
        s1 + 1
    };
    if remark.len() > 0 {
        assert(line[s1] == remark[0] && line[s1 + 1] == remark[1]);
    }
    lemma_unquoted(line, end);
    lemma_first_comment(line, 0, end);
    lemma_no_separator_before(line, 0, end);
    if line.contains(':') {
        let k = choose|k: int| 0 <= k < line.len() && line[k] == ':';
        assert(line[k] != ':');
    }
    law_a_line_without_a_colon_stays(line);
    crate::text::law_visible_characters_are_no_whitespace('-');
    crate::text::law_visible_characters_are_no_whitespace(' ');
    crate::text::law_visible_characters_are_no_whitespace(sign[0]);
    assert forall|k: int| 0 <= k < d implies crate::text::is_white(#[trigger] line[k]) by {
        assert(line[k] == ' ');
    }
    assert(line[d] == '-' && line[d + 1] == ' ' && line[s0] == sign[0]);
    lemma_white_stops(line, 0, d);
    assert(item_sign_at(line, d));
    lemma_white_stops(line, d + 1, s0);
    assert(!item_sign_at(line, s0));
    assert(item_start(line, d + 1) == s0);
    assert(item_start(line, 0) == s0);
    assert(last_sign(line, 0) == d);
    lemma_bytes_of_spaces(line, d);
    assert(line.subrange(d + 2, d + 2 + sign.len()) =~= sign);
    lemma_sign_names_block(line, d + 1, sign, end);
    lemma_ends_unsigned(line);
    assert(is_header(line));
    lemma_block_goes_on(lines, header, depth, i);
}

/// A settings file that parses is left alone. One that does not is replaced
/// only by its repaired text, and only where that parses; else it is left,
/// too.
pub proof fn law_nothing_that_does_not_parse_is_written(text: Seq<char>)
    ensures
        yaml_valid(text) <==> heal_of(text) is Healthy,
        heal_of(text) matches HealView::Repaired { text: now } ==> yaml_valid(now) && !yaml_valid(text)
            && now == fixed(text),
        !yaml_valid(text) && yaml_valid(fixed(text)) ==> heal_of(text) is Repaired,
{
}

} // verus!
