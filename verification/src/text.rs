//! Text as sequences of characters.
//!
//! The rules of the shell are stated over `Seq<char>`. The functions here
//! carry strings in and out of that model and provide the searches, splits
//! and numerals that the other modules build on.

use vstd::prelude::*;

verus! {

/// `String::push` appends one character to the end of the string.
pub assume_specification[ String::push ](s: &mut String, c: char)
    ensures
        final(s)@ == old(s)@.push(c),
;

/// The characters of a string, in order.
pub fn chars_of(s: &str) -> (out: Vec<char>)
    ensures
        out@ == s@,
{
    let mut out: Vec<char> = Vec::new();
    for c in it: s.chars()
        invariant
            it.seq() == s@,
            out@ == s@.take(it.index()),
    {
        out.push(c);
        assert(s@.take(it.index() + 1) =~= s@.take(it.index()).push(c));
    }
    assert(s@.take(s@.len() as int) =~= s@);
    out
}

/// The string made of `chars[from..to]`.
pub fn string_from(chars: &[char], from: usize, to: usize) -> (out: String)
    requires
        from <= to <= chars@.len(),
    ensures
        out@ == chars@.subrange(from as int, to as int),
{
    let mut out = String::new();
    let mut i: usize = from;
    while i < to
        invariant
            from <= i <= to <= chars@.len(),
            out@ == chars@.subrange(from as int, i as int),
        decreases to - i,
    {
        out.push(chars[i]);
        i = i + 1;
        assert(chars@.subrange(from as int, i as int) =~= chars@.subrange(from as int, i - 1).push(
            chars@[i - 1],
        ));
    }
    out
}

/// The views of a sequence of character vectors.
pub open spec fn texts(v: Seq<Vec<char>>) -> Seq<Seq<char>> {
    v.map_values(|t: Vec<char>| t@)
}

/// The views of a sequence of strings.
pub open spec fn strings(v: Seq<String>) -> Seq<Seq<char>> {
    v.map_values(|t: String| t@)
}

/// The view of an optional string.
pub open spec fn opt_text(s: Option<String>) -> Option<Seq<char>> {
    match s {
        Some(t) => Some(t@),
        None => None,
    }
}

/// Equality of two character slices.
pub fn chars_eq(a: &[char], b: &[char]) -> (eq: bool)
    ensures
        eq == (a@ == b@),
{
    if a.len() != b.len() {
        return false;
    }
    let mut i: usize = 0;
    while i < a.len()
        invariant
            i <= a@.len() == b@.len(),
            forall|k: int| 0 <= k < i ==> a@[k] == b@[k],
        decreases a@.len() - i,
    {
        if a[i] != b[i] {
            return false;
        }
        i = i + 1;
    }
    assert(a@ =~= b@);
    true
}

/// Equality of two strings.
pub fn str_eq(a: &str, b: &str) -> (eq: bool)
    ensures
        eq == (a@ == b@),
{
    let x = chars_of(a);
    let y = chars_of(b);
    chars_eq(&x, &y)
}

// ---------------------------------------------------------------------------
// Whitespace
// ---------------------------------------------------------------------------

/// The characters with the Unicode `White_Space` property.
pub open spec fn is_white(c: char) -> bool {
    let n = c as int;
    ||| 0x09 <= n <= 0x0d
    ||| n == 0x20
    ||| n == 0x85
    ||| n == 0xa0
    ||| n == 0x1680
    ||| 0x2000 <= n <= 0x200a
    ||| n == 0x2028
    ||| n == 0x2029
    ||| n == 0x202f
    ||| n == 0x205f
    ||| n == 0x3000
}

/// Whether a character is whitespace.
pub fn white(c: char) -> (b: bool)
    ensures
        b == is_white(c),
{
    let n: u32 = c as u32;
    (0x09 <= n && n <= 0x0d) || n == 0x20 || n == 0x85 || n == 0xa0 || n == 0x1680 || (0x2000 <= n
        && n <= 0x200a) || n == 0x2028 || n == 0x2029 || n == 0x202f || n == 0x205f || n == 0x3000
}

/// The first position at or after `i` that does not hold whitespace.
pub open spec fn skip_white(s: Seq<char>, i: int) -> int
    decreases s.len() - i,
{
    if 0 <= i < s.len() && is_white(s[i]) {
        skip_white(s, i + 1)
    } else {
        i
    }
}

/// The last position at or before `j` whose predecessor is not whitespace.
pub open spec fn back_white(s: Seq<char>, j: int) -> int
    decreases j,
{
    if 0 < j <= s.len() && is_white(s[j - 1]) {
        back_white(s, j - 1)
    } else {
        j
    }
}

/// The text without leading whitespace.
pub open spec fn trim_start(s: Seq<char>) -> Seq<char> {
    s.skip(skip_white(s, 0))
}

/// The text without trailing whitespace.
pub open spec fn trim_end(s: Seq<char>) -> Seq<char> {
    s.take(back_white(s, s.len() as int))
}

/// The text without leading and trailing whitespace.
pub open spec fn trim(s: Seq<char>) -> Seq<char> {
    trim_end(trim_start(s))
}

/// Skipping whitespace stays in bounds and stops on the first other character.
pub proof fn lemma_skip_white(s: Seq<char>, i: int)
    requires
        0 <= i <= s.len(),
    ensures
        i <= skip_white(s, i) <= s.len(),
        forall|k: int| i <= k < skip_white(s, i) ==> is_white(s[k]),
        skip_white(s, i) < s.len() ==> !is_white(s[skip_white(s, i)]),
    decreases s.len() - i,
{
    if i < s.len() && is_white(s[i]) {
        lemma_skip_white(s, i + 1);
    }
}

/// Stepping back over whitespace stays in bounds and stops after the last other character.
pub proof fn lemma_back_white(s: Seq<char>, j: int)
    requires
        0 <= j <= s.len(),
    ensures
        0 <= back_white(s, j) <= j,
        forall|k: int| back_white(s, j) <= k < j ==> is_white(s[k]),
        back_white(s, j) > 0 ==> !is_white(s[back_white(s, j) - 1]),
    decreases j,
{
    if 0 < j && is_white(s[j - 1]) {
        lemma_back_white(s, j - 1);
    }
}

/// The number of leading whitespace characters.
pub fn white_prefix(s: &[char]) -> (n: usize)
    ensures
        n <= s@.len(),
        n == skip_white(s@, 0),
{
    let mut i: usize = 0;
    while i < s.len() && white(s[i])
        invariant
            i <= s@.len(),
            skip_white(s@, i as int) == skip_white(s@, 0),
        decreases s@.len() - i,
    {
        i = i + 1;
    }
    i
}

/// The length of the text without its trailing whitespace.
pub fn trimmed_len(s: &[char]) -> (n: usize)
    ensures
        n <= s@.len(),
        n == back_white(s@, s@.len() as int),
{
    let mut j: usize = s.len();
    while j > 0 && white(s[j - 1])
        invariant
            j <= s@.len(),
            back_white(s@, j as int) == back_white(s@, s@.len() as int),
        decreases j,
    {
        j = j - 1;
    }
    j
}

/// The characters `s[from..to]`.
pub fn sub_chars(s: &[char], from: usize, to: usize) -> (out: Vec<char>)
    requires
        from <= to <= s@.len(),
    ensures
        out@ == s@.subrange(from as int, to as int),
{
    let mut out: Vec<char> = Vec::new();
    let mut i: usize = from;
    while i < to
        invariant
            from <= i <= to <= s@.len(),
            out@ == s@.subrange(from as int, i as int),
        decreases to - i,
    {
        out.push(s[i]);
        i = i + 1;
        assert(s@.subrange(from as int, i as int) =~= s@.subrange(from as int, i - 1).push(
            s@[i - 1],
        ));
    }
    out
}

/// The characters without leading and trailing whitespace.
pub fn trim_chars(s: &[char]) -> (out: Vec<char>)
    ensures
        out@ == trim(s@),
{
    let a = white_prefix(s);
    let rest = sub_chars(s, a, s.len());
    assert(rest@ =~= trim_start(s@));
    let b = trimmed_len(&rest);
    let out = sub_chars(&rest, 0, b);
    assert(out@ =~= trim(s@));
    out
}

/// The string without leading and trailing whitespace.
pub fn trim_string(s: &str) -> (out: String)
    ensures
        out@ == trim(s@),
{
    let t = trim_chars(&chars_of(s));
    let out = string_from(&t, 0, t.len());
    assert(out@ =~= t@);
    out
}

/// Whether a string holds nothing but whitespace.
pub open spec fn blank(s: Seq<char>) -> bool {
    trim(s).len() == 0
}

/// Whether a string holds nothing but whitespace.
pub fn is_blank(s: &str) -> (b: bool)
    ensures
        b == blank(s@),
{
    trim_chars(&chars_of(s)).len() == 0
}

// ---------------------------------------------------------------------------
// Searching
// ---------------------------------------------------------------------------

/// Whether `pat` stands in `s` at position `i`.
pub open spec fn occurs_at(s: Seq<char>, pat: Seq<char>, i: int) -> bool {
    &&& 0 <= i
    &&& i + pat.len() <= s.len()
    &&& s.subrange(i, i + pat.len()) == pat
}

/// The first position at or after `i` where `pat` occurs.
pub open spec fn index_from(s: Seq<char>, pat: Seq<char>, i: int) -> Option<int>
    decreases s.len() + 1 - i,
{
    if i < 0 || i + pat.len() > s.len() {
        None
    } else if occurs_at(s, pat, i) {
        Some(i)
    } else {
        index_from(s, pat, i + 1)
    }
}

/// The first position where `pat` occurs.
pub open spec fn index_of(s: Seq<char>, pat: Seq<char>) -> Option<int> {
    index_from(s, pat, 0)
}

/// Whether `pat` occurs anywhere in `s`.
pub open spec fn contains(s: Seq<char>, pat: Seq<char>) -> bool {
    index_of(s, pat) is Some
}

/// Whether `s` begins with `pat`.
pub open spec fn starts_with(s: Seq<char>, pat: Seq<char>) -> bool {
    occurs_at(s, pat, 0)
}

/// Whether `s` ends with `pat`.
pub open spec fn ends_with(s: Seq<char>, pat: Seq<char>) -> bool {
    occurs_at(s, pat, s.len() - pat.len())
}

/// `index_from` yields the least occurrence, and yields one whenever there is one.
pub proof fn lemma_index_from(s: Seq<char>, pat: Seq<char>, i: int)
    requires
        0 <= i,
    ensures
        index_from(s, pat, i) matches Some(k) ==> i <= k && occurs_at(s, pat, k),
        index_from(s, pat, i) matches Some(k) ==> forall|j: int|
            i <= j < k ==> !occurs_at(s, pat, j),
        index_from(s, pat, i) is None ==> forall|j: int| i <= j ==> !occurs_at(s, pat, j),
    decreases s.len() + 1 - i,
{
    if i + pat.len() <= s.len() && !occurs_at(s, pat, i) {
        lemma_index_from(s, pat, i + 1);
    }
}

/// Whether `pat` stands in `s` at position `i`.
pub fn is_at(s: &[char], pat: &[char], i: usize) -> (b: bool)
    ensures
        b == occurs_at(s@, pat@, i as int),
{
    let len: usize = s.len();
    if i > len || pat.len() > len - i {
        return false;
    }
    let mut k: usize = 0;
    while k < pat.len()
        invariant
            k <= pat@.len(),
            i + pat@.len() <= len == s@.len(),
            forall|j: int| 0 <= j < k ==> s@[i + j] == pat@[j],
        decreases pat@.len() - k,
    {
        if s[i + k] != pat[k] {
            assert(s@.subrange(i as int, i + pat@.len())[k as int] != pat@[k as int]);
            return false;
        }
        k = k + 1;
    }
    assert(s@.subrange(i as int, i + pat@.len()) =~= pat@);
    true
}

/// The first position where `pat` occurs in `s`.
pub fn find(s: &[char], pat: &[char]) -> (at: Option<usize>)
    ensures
        match at {
            Some(k) => index_of(s@, pat@) == Some(k as int) && k + pat@.len() <= s@.len()
                <= usize::MAX,
            None => index_of(s@, pat@) is None,
        },
{
    find_from(s, pat, 0)
}

/// Whether a string contains another.
pub fn str_contains(s: &str, pat: &str) -> (b: bool)
    ensures
        b == contains(s@, pat@),
{
    find(&chars_of(s), &chars_of(pat)).is_some()
}

/// Whether a string begins with another.
pub fn str_starts_with(s: &str, pat: &str) -> (b: bool)
    ensures
        b == starts_with(s@, pat@),
{
    is_at(&chars_of(s), &chars_of(pat), 0)
}

/// Whether the characters end with `pat`.
pub fn chars_end_with(s: &[char], pat: &[char]) -> (b: bool)
    ensures
        b == ends_with(s@, pat@),
{
    if pat.len() > s.len() {
        return false;
    }
    is_at(s, pat, s.len() - pat.len())
}

// ---------------------------------------------------------------------------
// Lines, words, joining
// ---------------------------------------------------------------------------

/// The position of the first line feed at or after `i`, or the length.
pub open spec fn newline_from(s: Seq<char>, i: int) -> int
    decreases s.len() - i,
{
    if 0 <= i < s.len() && s[i] != '\n' {
        newline_from(s, i + 1)
    } else {
        i
    }
}

/// A line without the carriage return that precedes its line feed.
pub open spec fn strip_cr(line: Seq<char>) -> Seq<char> {
    if line.len() > 0 && line.last() == '\r' {
        line.drop_last()
    } else {
        line
    }
}

/// The lines from position `i` on. A line ends at a line feed or at the end
/// of the text; the line feed and a carriage return before it are left out.
pub open spec fn lines_from(s: Seq<char>, i: int) -> Seq<Seq<char>>
    decreases s.len() - i,
{
    if i < 0 || i >= s.len() {
        Seq::empty()
    } else {
        let n = newline_from(s, i);
        if n < i {
            Seq::empty()
        } else if n >= s.len() {
            seq![s.subrange(i, s.len() as int)]
        } else {
            seq![strip_cr(s.subrange(i, n))] + lines_from(s, n + 1)
        }
    }
}

/// The lines of a text.
pub open spec fn lines(s: Seq<char>) -> Seq<Seq<char>> {
    lines_from(s, 0)
}

/// `newline_from` stays in bounds, and passes over characters other than line feeds only.
pub proof fn lemma_newline_from(s: Seq<char>, i: int)
    requires
        0 <= i <= s.len(),
    ensures
        i <= newline_from(s, i) <= s.len(),
        forall|k: int| i <= k < newline_from(s, i) ==> s[k] != '\n',
        newline_from(s, i) < s.len() ==> s[newline_from(s, i)] == '\n',
    decreases s.len() - i,
{
    if i < s.len() && s[i] != '\n' {
        lemma_newline_from(s, i + 1);
    }
}

/// The lines of a text.
pub fn split_lines(s: &[char]) -> (out: Vec<Vec<char>>)
    ensures
        texts(out@) == lines(s@),
{
    let mut out: Vec<Vec<char>> = Vec::new();
    let mut i: usize = 0;
    assert(texts(out@) + lines_from(s@, 0) =~= lines(s@));
    while i < s.len()
        invariant
            i <= s@.len(),
            texts(out@) + lines_from(s@, i as int) == lines(s@),
        decreases s@.len() - i,
    {
        let mut n: usize = i;
        while n < s.len() && s[n] != '\n'
            invariant
                i <= n <= s@.len(),
                newline_from(s@, n as int) == newline_from(s@, i as int),
            decreases s@.len() - n,
        {
            n = n + 1;
        }
        let ghost before = out@;
        if n == s.len() {
            out.push(sub_chars(s, i, n));
            assert(texts(out@) =~= texts(before).push(s@.subrange(i as int, n as int)));
            assert(texts(out@) =~= texts(before) + lines_from(s@, i as int));
            assert(texts(out@) + lines_from(s@, n as int) =~= texts(out@));
            i = n;
        } else {
            let mut end: usize = n;
            if end > i && s[end - 1] == '\r' {
                end = end - 1;
            }
            out.push(sub_chars(s, i, end));
            assert(s@.subrange(i as int, end as int) =~= strip_cr(s@.subrange(i as int, n as int)));
            assert(texts(out@) =~= texts(before).push(strip_cr(s@.subrange(i as int, n as int))));
            assert(texts(out@) + lines_from(s@, n + 1) =~= texts(before) + lines_from(
                s@,
                i as int,
            ));
            i = n + 1;
        }
    }
    assert(texts(out@) + lines_from(s@, i as int) =~= texts(out@));
    out
}

/// No line holds a line feed.
pub proof fn lemma_lines_hold_no_feed(s: Seq<char>, i: int, k: int)
    requires
        0 <= i,
        0 <= k < lines_from(s, i).len(),
    ensures
        !lines_from(s, i)[k].contains('\n'),
    decreases s.len() - i,
{
    lemma_newline_from(s, i);
    let n = newline_from(s, i);
    if n < s.len() && k > 0 {
        lemma_lines_hold_no_feed(s, n + 1, k - 1);
    } else {
        let line = lines_from(s, i)[0];
        assert forall|j: int| 0 <= j < line.len() implies line[j] != '\n' by {
            assert(line[j] == s[i + j]);
        }
    }
}

/// The lines, each with a line feed behind it.
pub open spec fn unlines(lines: Seq<Seq<char>>) -> Seq<char>
    decreases lines.len(),
{
    if lines.len() == 0 {
        Seq::empty()
    } else {
        unlines(lines.drop_last()) + lines.last() + seq!['\n']
    }
}

proof fn lemma_unlines_at(lines: Seq<Seq<char>>, j: int)
    requires
        0 <= j < lines.len(),
    ensures
        ({
            let s = unlines(lines);
            let at = unlines(lines.take(j)).len() as int;
            &&& at + lines[j].len() < s.len()
            &&& s.subrange(at, at + lines[j].len()) == lines[j]
            &&& s[at + lines[j].len()] == '\n'
            &&& unlines(lines.take(j + 1)).len() == at + lines[j].len() + 1
        }),
    decreases lines.len(),
{
    let s = unlines(lines);
    let front = lines.drop_last();
    let at = unlines(lines.take(j)).len() as int;
    assert(lines.take(j + 1).drop_last() =~= lines.take(j));
    if j < lines.len() - 1 {
        lemma_unlines_at(front, j);
        assert(front.take(j) =~= lines.take(j));
        assert(front[j] == lines[j]);
        assert(s.subrange(at, at + lines[j].len()) =~= unlines(front).subrange(
            at,
            at + lines[j].len(),
        ));
    } else {
        assert(lines.take(j) =~= front);
        assert(s.subrange(at, at + lines[j].len()) =~= lines[j]);
    }
}

/// Splitting the text made of some lines yields those lines again, where none
/// of them holds a line feed or ends with a carriage return.
pub proof fn lemma_lines_of_unlines(lines: Seq<Seq<char>>, j: int)
    requires
        0 <= j <= lines.len(),
        forall|k: int| 0 <= k < lines.len() ==> !(#[trigger] lines[k]).contains('\n'),
        forall|k: int|
            0 <= k < lines.len() && (#[trigger] lines[k]).len() > 0 ==> lines[k].last() != '\r',
    ensures
        lines_from(unlines(lines), unlines(lines.take(j)).len() as int) == lines.skip(j),
    decreases lines.len() - j,
{
    let s = unlines(lines);
    let at = unlines(lines.take(j)).len() as int;
    if j == lines.len() {
        assert(lines.take(j) =~= lines);
        assert(lines.skip(j) =~= Seq::<Seq<char>>::empty());
    } else {
        lemma_unlines_at(lines, j);
        lemma_lines_of_unlines(lines, j + 1);
        let line = lines[j];
        let n = at + line.len();
        lemma_newline_from(s, at);
        let m = newline_from(s, at);
        if m < n {
            assert(s.subrange(at, n)[m - at] == '\n');
            assert(line.contains('\n'));
        }
        assert(m == n);
        assert(strip_cr(s.subrange(at, n)) == line);
        assert(lines.skip(j) =~= seq![line] + lines.skip(j + 1));
    }
}

/// The pieces of `s` from position `i` on, split at every occurrence of `sep`.
pub open spec fn pieces_from(s: Seq<char>, sep: Seq<char>, i: int) -> Seq<Seq<char>>
    decreases s.len() - i,
{
    match index_from(s, sep, i) {
        Some(k) => if sep.len() == 0 || k < i || k + sep.len() > s.len() {
            Seq::empty()
        } else {
            seq![s.subrange(i, k)] + pieces_from(s, sep, k + sep.len())
        },
        None => seq![s.subrange(i, s.len() as int)],
    }
}

/// The pieces of `s`, split at every occurrence of `sep`.
pub open spec fn pieces(s: Seq<char>, sep: Seq<char>) -> Seq<Seq<char>> {
    pieces_from(s, sep, 0)
}

/// The first position at or after `from` where `pat` occurs in `s`.
pub fn find_from(s: &[char], pat: &[char], from: usize) -> (at: Option<usize>)
    requires
        from <= s@.len(),
    ensures
        match at {
            Some(k) => index_from(s@, pat@, from as int) == Some(k as int) && from <= k && k
                + pat@.len() <= s@.len() <= usize::MAX,
            None => index_from(s@, pat@, from as int) is None,
        },
{
    if pat.len() > s.len() - from {
        return None;
    }
    let last: usize = s.len() - pat.len();
    let mut i: usize = from;
    loop
        invariant
            from <= i <= last,
            last + pat@.len() == s@.len() <= usize::MAX,
            index_from(s@, pat@, i as int) == index_from(s@, pat@, from as int),
        decreases last - i,
    {
        if is_at(s, pat, i) {
            return Some(i);
        }
        if i == last {
            assert(index_from(s@, pat@, i as int + 1) is None);
            return None;
        }
        i = i + 1;
    }
}

/// The pieces of `s`, split at every occurrence of `sep`.
pub fn split_pieces(s: &[char], sep: &[char]) -> (out: Vec<Vec<char>>)
    requires
        sep@.len() > 0,
    ensures
        texts(out@) == pieces(s@, sep@),
{
    let mut out: Vec<Vec<char>> = Vec::new();
    let length: usize = s.len();
    let mut i: usize = 0;
    assert(texts(out@) + pieces_from(s@, sep@, 0) =~= pieces(s@, sep@));
    loop
        invariant
            i <= length == s@.len(),
            sep@.len() > 0,
            texts(out@) + pieces_from(s@, sep@, i as int) == pieces(s@, sep@),
        decreases s@.len() - i,
    {
        let ghost before = out@;
        match find_from(s, sep, i) {
            Some(k) => {
                out.push(sub_chars(s, i, k));
                assert(texts(out@) =~= texts(before).push(s@.subrange(i as int, k as int)));
                assert(texts(out@) + pieces_from(s@, sep@, k + sep@.len()) =~= texts(before)
                    + pieces_from(s@, sep@, i as int));
                i = k + sep.len();
            },
            None => {
                out.push(sub_chars(s, i, s.len()));
                assert(texts(out@) =~= texts(before).push(
                    s@.subrange(i as int, s@.len() as int),
                ));
                assert(texts(out@) =~= texts(before) + pieces_from(s@, sep@, i as int));
                return out;
            },
        }
    }
}

/// The first position at or after `i` that holds whitespace, or the length.
pub open spec fn word_end(s: Seq<char>, i: int) -> int
    decreases s.len() - i,
{
    if 0 <= i < s.len() && !is_white(s[i]) {
        word_end(s, i + 1)
    } else {
        i
    }
}

/// The maximal runs of characters other than whitespace from position `i` on.
pub open spec fn words_from(s: Seq<char>, i: int) -> Seq<Seq<char>>
    decreases s.len() - i,
{
    if i < 0 || i >= s.len() {
        Seq::empty()
    } else if is_white(s[i]) {
        words_from(s, i + 1)
    } else {
        let e = word_end(s, i);
        if e <= i || e > s.len() {
            Seq::empty()
        } else {
            seq![s.subrange(i, e)] + words_from(s, e)
        }
    }
}

/// The words of a line: its maximal runs of characters other than whitespace.
pub open spec fn words(s: Seq<char>) -> Seq<Seq<char>> {
    words_from(s, 0)
}

/// The words of a line.
pub fn split_words(s: &[char]) -> (out: Vec<Vec<char>>)
    ensures
        texts(out@) == words(s@),
{
    let mut out: Vec<Vec<char>> = Vec::new();
    let mut i: usize = 0;
    assert(texts(out@) + words_from(s@, 0) =~= words(s@));
    while i < s.len()
        invariant
            i <= s@.len(),
            texts(out@) + words_from(s@, i as int) == words(s@),
        decreases s@.len() - i,
    {
        if white(s[i]) {
            i = i + 1;
        } else {
            let mut e: usize = i + 1;
            while e < s.len() && !white(s[e])
                invariant
                    i < e <= s@.len(),
                    word_end(s@, e as int) == word_end(s@, i as int),
                decreases s@.len() - e,
            {
                e = e + 1;
            }
            let ghost before = out@;
            out.push(sub_chars(s, i, e));
            assert(texts(out@) =~= texts(before).push(s@.subrange(i as int, e as int)));
            assert(texts(out@) + words_from(s@, e as int) =~= texts(before) + words_from(
                s@,
                i as int,
            ));
            i = e;
        }
    }
    assert(texts(out@) + words_from(s@, i as int) =~= texts(out@));
    out
}

/// The parts, with `sep` between each two.
pub open spec fn join(parts: Seq<Seq<char>>, sep: Seq<char>) -> Seq<char>
    decreases parts.len(),
{
    if parts.len() == 0 {
        Seq::empty()
    } else if parts.len() == 1 {
        parts[0]
    } else {
        join(parts.drop_last(), sep) + sep + parts.last()
    }
}

/// The strings, with `sep` between each two.
pub fn join_strings(parts: &[String], sep: &str) -> (out: String)
    ensures
        out@ == join(strings(parts@), sep@),
{
    let mut out = String::new();
    let mut i: usize = 0;
    let ghost all = strings(parts@);
    while i < parts.len()
        invariant
            i <= parts@.len(),
            all == strings(parts@),
            out@ == join(all.take(i as int), sep@),
        decreases parts@.len() - i,
    {
        let ghost before = out@;
        if i > 0 {
            out.append(sep);
        }
        out.append(parts[i].as_str());
        proof {
            let next = all.take(i + 1);
            assert(next.drop_last() =~= all.take(i as int));
            assert(next.last() == parts@[i as int]@);
            if i == 0 {
                assert(out@ =~= next[0]);
            }
        }
        i = i + 1;
    }
    assert(all.take(parts@.len() as int) =~= all);
    out
}

/// The ASCII lower case of a character.
pub open spec fn lower_char(c: char) -> char {
    if 'A' <= c <= 'Z' {
        (c as int + 32) as char
    } else {
        c
    }
}

/// The ASCII lower case of a text.
pub open spec fn lower(s: Seq<char>) -> Seq<char> {
    s.map_values(|c: char| lower_char(c))
}

/// The ASCII lower case of a text.
pub fn lower_chars(s: &[char]) -> (out: Vec<char>)
    ensures
        out@ == lower(s@),
{
    let mut out: Vec<char> = Vec::new();
    let mut i: usize = 0;
    while i < s.len()
        invariant
            i <= s@.len(),
            out@ == lower(s@.take(i as int)),
        decreases s@.len() - i,
    {
        let c = s[i];
        if 'A' <= c && c <= 'Z' {
            out.push((c as u8 + 32) as char);
        } else {
            out.push(c);
        }
        i = i + 1;
        assert(out@ =~= lower(s@.take(i as int)));
    }
    assert(s@.take(s@.len() as int) =~= s@);
    out
}

// ---------------------------------------------------------------------------
// Numerals
// ---------------------------------------------------------------------------

/// Whether a character is an ASCII digit.
pub open spec fn is_digit(c: char) -> bool {
    '0' <= c <= '9'
}

/// The number that a sequence of digits denotes.
pub open spec fn digits_value(s: Seq<char>) -> nat
    decreases s.len(),
{
    if s.len() == 0 {
        0
    } else {
        digits_value(s.drop_last()) * 10 + (s.last() as int - '0' as int) as nat
    }
}

/// Whether every character is an ASCII digit.
pub open spec fn all_digits(s: Seq<char>) -> bool {
    forall|i: int| 0 <= i < s.len() ==> is_digit(#[trigger] s[i])
}

/// A decimal numeral, with an optional leading plus sign, of a 32-bit number.
pub open spec fn parse_u32(s: Seq<char>) -> Option<u32> {
    let d = if s.len() > 0 && s[0] == '+' {
        s.skip(1)
    } else {
        s
    };
    if d.len() > 0 && all_digits(d) && digits_value(d) <= u32::MAX {
        Some(digits_value(d) as u32)
    } else {
        None
    }
}

proof fn lemma_digits_value_grows(s: Seq<char>, i: int)
    requires
        0 <= i <= s.len(),
        all_digits(s),
    ensures
        digits_value(s.take(i)) <= digits_value(s),
    decreases s.len(),
{
    if i < s.len() {
        assert(s.drop_last().take(i) =~= s.take(i));
        lemma_digits_value_grows(s.drop_last(), i);
        assert(is_digit(s[s.len() - 1]));
    } else {
        assert(s.take(i) =~= s);
    }
}

/// Reads a decimal numeral of a 32-bit number.
pub fn read_u32(s: &[char]) -> (n: Option<u32>)
    ensures
        n == parse_u32(s@),
{
    let start: usize = if s.len() > 0 && s[0] == '+' {
        1
    } else {
        0
    };
    let ghost d = s@.skip(start as int);
    proof {
        assert(s@.skip(0) =~= s@);
    }
    if start == s.len() {
        return None;
    }
    let mut i: usize = start;
    let mut value: u32 = 0;
    assert(d.take(0) =~= Seq::<char>::empty());
    while i < s.len()
        invariant
            start <= i <= s@.len(),
            start < s@.len(),
            d == s@.skip(start as int),
            all_digits(d.take(i - start)),
            value == digits_value(d.take(i - start)),
            parse_u32(s@) == (if all_digits(d) && digits_value(d) <= u32::MAX {
                Some(digits_value(d) as u32)
            } else {
                None
            }),
        decreases s@.len() - i,
    {
        let c = s[i];
        assert(c == d[i - start]);
        if !('0' <= c && c <= '9') {
            return None;
        }
        let digit: u32 = c as u32 - '0' as u32;
        proof {
            let next = d.take(i - start + 1);
            assert(next.drop_last() =~= d.take(i - start));
            assert(next.last() == c);
            assert(digits_value(next) == value * 10 + digit);
            if all_digits(d) {
                lemma_digits_value_grows(d, i - start + 1);
            }
            assert forall|k: int| 0 <= k < next.len() implies is_digit(#[trigger] next[k]) by {
                if k < i - start {
                    assert(next[k] == d.take(i - start)[k]);
                }
            }
        }
        let wide: u64 = value as u64 * 10 + digit as u64;
        if wide > u32::MAX as u64 {
            return None;
        }
        value = wide as u32;
        i = i + 1;
    }
    assert(d.take(i - start) =~= d);
    Some(value)
}

/// The character of a digit.
pub open spec fn digit_char(n: nat) -> char {
    (('0' as int) + n) as char
}

/// The decimal numeral of a number, without leading zeros.
pub open spec fn decimal(n: nat) -> Seq<char>
    decreases n,
{
    if n < 10 {
        seq![digit_char(n)]
    } else {
        decimal(n / 10).push(digit_char(n % 10))
    }
}

/// A numeral with zeros in front, at least `width` long.
pub open spec fn padded(n: nat, width: nat) -> Seq<char> {
    let d = decimal(n);
    if d.len() < width {
        Seq::new((width - d.len()) as nat, |i: int| '0') + d
    } else {
        d
    }
}

/// The decimal numeral of an integer, with a minus sign when it is negative.
pub open spec fn signed_decimal(n: int) -> Seq<char> {
    if n < 0 {
        seq!['-'] + decimal((-n) as nat)
    } else {
        decimal(n as nat)
    }
}

fn push_decimal(n: u64, out: &mut String)
    ensures
        final(out)@ == old(out)@ + decimal(n as nat),
    decreases n,
{
    if n >= 10 {
        push_decimal(n / 10, out);
    }
    let digit: u8 = (n % 10) as u8;
    out.push((0x30u8 + digit) as char);
    assert(out@ =~= old(out)@ + decimal(n as nat));
}

/// The decimal numeral of a number.
pub fn decimal_string(n: u64) -> (out: String)
    ensures
        out@ == decimal(n as nat),
{
    let mut out = String::new();
    push_decimal(n, &mut out);
    assert(out@ =~= decimal(n as nat));
    out
}

/// The decimal numeral of a number with zeros in front, at least `width` long.
pub fn padded_string(n: u64, width: usize) -> (out: String)
    ensures
        out@ == padded(n as nat, width as nat),
{
    let digits = decimal_string(n);
    let len = chars_of(&digits).len();
    let mut out = String::new();
    let mut i: usize = len;
    let ghost zeros = |k: int| '0';
    while i < width
        invariant
            len <= i,
            i <= width || i == len,
            out@ == Seq::new((i - len) as nat, zeros),
            zeros == (|k: int| '0'),
        decreases width - i,
    {
        out.push('0');
        i = i + 1;
        assert(out@ =~= Seq::new((i - len) as nat, zeros));
    }
    out.append(digits.as_str());
    assert(out@ =~= padded(n as nat, width as nat));
    out
}

/// The decimal numeral of an integer.
pub fn signed_string(n: i32) -> (out: String)
    ensures
        out@ == signed_decimal(n as int),
{
    if n < 0 {
        let mut out = String::new();
        out.push('-');
        let magnitude: u64 = (-(n as i64)) as u64;
        push_decimal(magnitude, &mut out);
        assert(out@ =~= signed_decimal(n as int));
        out
    } else {
        decimal_string(n as u64)
    }
}

// ---------------------------------------------------------------------------
// Concatenation
// ---------------------------------------------------------------------------

/// Two strings in a row.
pub fn cat(a: &str, b: &str) -> (out: String)
    ensures
        out@ == a@ + b@,
{
    let mut out = String::new();
    out.append(a);
    out.append(b);
    assert(out@ =~= a@ + b@);
    out
}

/// Three strings in a row.
pub fn cat3(a: &str, b: &str, c: &str) -> (out: String)
    ensures
        out@ == a@ + b@ + c@,
{
    let mut out = cat(a, b);
    out.append(c);
    out
}

// ---------------------------------------------------------------------------
// What holds of texts
// ---------------------------------------------------------------------------

/// The code points of the 25 characters that are whitespace.
pub open spec fn white_points() -> Seq<int> {
    seq![
        9,
        10,
        11,
        12,
        13,
        32,
        133,
        160,
        5760,
        8192,
        8193,
        8194,
        8195,
        8196,
        8197,
        8198,
        8199,
        8200,
        8201,
        8202,
        8232,
        8233,
        8239,
        8287,
        12288,
    ]
}

/// Exactly these are whitespace.
pub proof fn law_there_are_25_white_characters(c: char)
    ensures
        is_white(c) <==> exists|i: int| 0 <= i < 25 && #[trigger] white_points()[i] == c as int,
{
    let n = c as int;
    let w = white_points();
    if is_white(c) {
        let i = if n <= 13 {
            n - 9
        } else if n == 32 {
            5
        } else if n == 133 {
            6
        } else if n == 160 {
            7
        } else if n == 5760 {
            8
        } else if n <= 8202 {
            n - 8192 + 9
        } else if n == 8232 {
            20
        } else if n == 8233 {
            21
        } else if n == 8239 {
            22
        } else if n == 8287 {
            23
        } else {
            24
        };
        assert(w[i] == n);
    }
}

/// Space, tab, line feed and carriage return are whitespace. No visible ASCII
/// character is.
pub proof fn law_visible_characters_are_no_whitespace(c: char)
    ensures
        c == ' ' || c == '\t' || c == '\n' || c == '\r' ==> is_white(c),
        0x21 <= c as int <= 0x7e ==> !is_white(c),
{
}

/// Trimming takes off the whitespace on both sides and nothing else: what is
/// left is a text without whitespace at its ends.
pub proof fn law_trimming_takes_off_the_whitespace(
    left: Seq<char>,
    core: Seq<char>,
    right: Seq<char>,
)
    requires
        forall|k: int| 0 <= k < left.len() ==> is_white(#[trigger] left[k]),
        forall|k: int| 0 <= k < right.len() ==> is_white(#[trigger] right[k]),
        core.len() > 0 ==> !is_white(core[0]) && !is_white(core.last()),
    ensures
        trim(left + core + right) == core,
        trim_end(core + right) == core,
        trim_start(left + core) == core,
        core.len() > 0 ==> trim_start(left + core + right) == core + right,
        blank(left + core + right) <==> core.len() == 0,
{
    let s = left + core + right;
    lemma_skip_white(s, 0);
    let a = skip_white(s, 0);
    if a < left.len() {
        assert(s[a] == left[a]);
    }
    if core.len() > 0 {
        assert(s[left.len() as int] == core[0]);
        assert(a == left.len());
        assert(s.skip(a) =~= core + right);
        lemma_trim_end_exact(core, right);
    } else {
        if a < s.len() {
            assert(s[a] == right[a - left.len()]);
        }
        assert(s.skip(a) =~= Seq::<char>::empty());
        assert(core =~= Seq::<char>::empty());
    }
    lemma_trim_end_exact(core, right);
    let t = left + core;
    lemma_skip_white(t, 0);
    let b = skip_white(t, 0);
    if b < left.len() {
        assert(t[b] == left[b]);
    }
    if core.len() > 0 {
        assert(t[left.len() as int] == core[0]);
    }
    assert(t.skip(b) =~= core);
}

proof fn lemma_trim_end_exact(core: Seq<char>, right: Seq<char>)
    requires
        forall|k: int| 0 <= k < right.len() ==> is_white(#[trigger] right[k]),
        core.len() > 0 ==> !is_white(core.last()),
    ensures
        trim_end(core + right) == core,
{
    let s = core + right;
    lemma_back_white(s, s.len() as int);
    let b = back_white(s, s.len() as int);
    if b > core.len() {
        assert(s[b - 1] == right[b - 1 - core.len()]);
    }
    if b < core.len() {
        assert(s[core.len() - 1] == core.last());
    }
    assert(s.take(b) =~= core);
}

/// A text contains another exactly where it can be cut into what stands before
/// it, the other, and what stands behind it.
pub proof fn law_containing_is_being_cut_around(s: Seq<char>, pat: Seq<char>)
    ensures
        contains(s, pat) <==> exists|before: Seq<char>, behind: Seq<char>|
            s == #[trigger] (before + pat + behind),
        starts_with(s, pat) <==> exists|behind: Seq<char>| s == #[trigger] (pat + behind),
        ends_with(s, pat) <==> exists|before: Seq<char>| s == #[trigger] (before + pat),
{
    lemma_index_from(s, pat, 0);
    if contains(s, pat) {
        let k = index_of(s, pat)->0;
        assert(s =~= s.take(k) + pat + s.skip(k + pat.len())) by {
            assert(s.subrange(k, k + pat.len()) =~= pat);
            assert forall|j: int| 0 <= j < pat.len() implies s[k + j] == pat[j] by {
                assert(s.subrange(k, k + pat.len())[j] == pat[j]);
            }
        }
    }
    if exists|before: Seq<char>, behind: Seq<char>| s == #[trigger] (before + pat + behind) {
        let (before, behind) = choose|before: Seq<char>, behind: Seq<char>|
            s == #[trigger] (before + pat + behind);
        assert(s.subrange(before.len() as int, (before.len() + pat.len()) as int) =~= pat);
        assert(occurs_at(s, pat, before.len() as int));
    }
    if starts_with(s, pat) {
        assert forall|j: int| 0 <= j < pat.len() implies s[j] == pat[j] by {
            assert(s.subrange(0, pat.len() as int)[j] == pat[j]);
        }
        assert(s =~= pat + s.skip(pat.len() as int));
    }
    if exists|behind: Seq<char>| s == #[trigger] (pat + behind) {
        let behind = choose|behind: Seq<char>| s == #[trigger] (pat + behind);
        assert(s.subrange(0, pat.len() as int) =~= pat);
    }
    if ends_with(s, pat) {
        let k = s.len() - pat.len();
        assert forall|j: int| 0 <= j < pat.len() implies s[k + j] == pat[j] by {
            assert(s.subrange(k, k + pat.len())[j] == pat[j]);
        }
        assert(s =~= s.take(k) + pat);
    }
    if exists|before: Seq<char>| s == #[trigger] (before + pat) {
        let before = choose|before: Seq<char>| s == #[trigger] (before + pat);
        assert(s.subrange(before.len() as int, (before.len() + pat.len()) as int) =~= pat);
    }
}

/// A search finds the first place where a text stands: before it, no place
/// holds the text.
pub proof fn law_a_search_finds_the_first_place(s: Seq<char>, pat: Seq<char>, from: int, at: int)
    requires
        0 <= from <= at,
        at + pat.len() <= s.len(),
        s.subrange(at, at + pat.len()) == pat,
        forall|j: int| from <= j < at ==> #[trigger] s.subrange(j, j + pat.len()) != pat,
    ensures
        index_from(s, pat, from) == Some(at),
{
    lemma_index_from(s, pat, from);
    assert(occurs_at(s, pat, at));
    let k = index_from(s, pat, from)->0;
    if k < at {
        assert(s.subrange(k, k + pat.len()) != pat);
    }
}

/// The lower case of a text has its length; the letters `A` to `Z` become `a`
/// to `z`, and every other character stays.
pub proof fn law_lower_case_changes_capitals_only(s: Seq<char>, i: int)
    requires
        0 <= i < s.len(),
    ensures
        lower(s).len() == s.len(),
        0x41 <= s[i] as int <= 0x5a ==> lower(s)[i] as int == s[i] as int + 32,
        !(0x41 <= s[i] as int <= 0x5a) ==> lower(s)[i] == s[i],
{
}

/// Whether a separator cannot overlap itself: its first character stands
/// nowhere else in it.
pub open spec fn is_plain_separator(sep: Seq<char>) -> bool {
    sep.len() > 0 && forall|d: int| 0 < d < sep.len() ==> #[trigger] sep[d] != sep[0]
}

/// Whether a text holds a separator nowhere.
pub open spec fn is_free_of(s: Seq<char>, sep: Seq<char>) -> bool {
    forall|p: int| 0 <= p && p + sep.len() <= s.len() ==> #[trigger] s.subrange(p, p + sep.len()) != sep
}

/// Before a separator, a text without it is passed over whole.
pub proof fn lemma_first_break(before: Seq<char>, line: Seq<char>, sep: Seq<char>, rest: Seq<char>)
    requires
        is_plain_separator(sep),
        is_free_of(line, sep),
    ensures
        index_from(before + line + sep + rest, sep, before.len() as int) == Some(
            (before.len() + line.len()) as int,
        ),
        index_from(before + line, sep, before.len() as int) is None,
{
    let s = before + line + sep + rest;
    let n = before.len() as int;
    let at = n + line.len();
    assert(s.subrange(at, at + sep.len()) =~= sep);
    assert forall|j: int| n <= j < at implies #[trigger] s.subrange(j, j + sep.len()) != sep by {
        let piece = s.subrange(j, j + sep.len());
        if piece == sep {
            if j + sep.len() <= at {
                assert(line.subrange(j - n, j - n + sep.len()) =~= piece);
            } else {
                let d = at - j;
                assert(piece[d] == s[at]);
                assert(s[at] == sep[0]);
                assert(sep[d] != sep[0]);
            }
        }
    }
    law_a_search_finds_the_first_place(s, sep, n, at);
    let t = before + line;
    lemma_index_from(t, sep, n);
    if index_from(t, sep, n) is Some {
        let k = index_from(t, sep, n)->0;
        assert(line.subrange(k - n, k - n + sep.len()) =~= t.subrange(k, k + sep.len()));
    }
}

/// Splitting cuts at a separator: a text without one is one piece, and the
/// text before the first one is the first piece, with the pieces of what is
/// behind it following.
pub proof fn law_a_split_cuts_at_the_separator(line: Seq<char>, sep: Seq<char>, rest: Seq<char>)
    requires
        is_plain_separator(sep),
        is_free_of(line, sep),
    ensures
        pieces(line, sep) == seq![line],
        pieces(line + sep + rest, sep) == seq![line] + pieces(rest, sep),
{
    let none = Seq::<char>::empty();
    lemma_first_break(none, line, sep, rest);
    assert(none + line =~= line);
    assert(none + line + sep + rest =~= line + sep + rest);
    assert(line.subrange(0, line.len() as int) =~= line);
    let s = line + sep + rest;
    assert(s.subrange(0, line.len() as int) =~= line);
    lemma_pieces_shift(line + sep, rest, sep, 0);
}

proof fn lemma_index_shift(before: Seq<char>, s: Seq<char>, pat: Seq<char>, i: int)
    requires
        0 <= i,
    ensures
        index_from(before + s, pat, before.len() + i) == (match index_from(s, pat, i) {
            Some(k) => Some(before.len() + k),
            None => None,
        }),
    decreases s.len() + 1 - i,
{
    let t = before + s;
    let n = before.len() as int;
    if i + pat.len() <= s.len() {
        assert(t.subrange(n + i, n + i + pat.len()) =~= s.subrange(i, i + pat.len()));
        assert(occurs_at(t, pat, n + i) <==> occurs_at(s, pat, i));
        lemma_index_shift(before, s, pat, i + 1);
        assert(n + (i + 1) == (n + i) + 1);
    }
}

proof fn lemma_pieces_shift(before: Seq<char>, s: Seq<char>, sep: Seq<char>, i: int)
    requires
        0 <= i <= s.len(),
        sep.len() > 0,
    ensures
        pieces_from(before + s, sep, before.len() + i) == pieces_from(s, sep, i),
    decreases s.len() - i,
{
    let t = before + s;
    let n = before.len() as int;
    lemma_index_shift(before, s, sep, i);
    lemma_index_from(s, sep, i);
    match index_from(s, sep, i) {
        Some(k) => {
            assert(t.subrange(n + i, n + k) =~= s.subrange(i, k));
            lemma_pieces_shift(before, s, sep, k + sep.len());
            assert(n + (k + sep.len()) == (n + k) + sep.len());
        },
        None => {
            assert(t.subrange(n + i, t.len() as int) =~= s.subrange(i, s.len() as int));
        },
    }
}

/// Joining two lists of parts puts the separator between them too.
pub proof fn law_joins_are_joined(a: Seq<Seq<char>>, b: Seq<Seq<char>>, sep: Seq<char>)
    requires
        a.len() > 0,
        b.len() > 0,
    ensures
        join(seq![a[0]], sep) == a[0],
        join(a + b, sep) == join(a, sep) + sep + join(b, sep),
    decreases b.len(),
{
    let all = a + b;
    assert(all.drop_last() =~= a + b.drop_last());
    if b.len() == 1 {
        assert(a + b.drop_last() =~= a);
    } else {
        law_joins_are_joined(a, b.drop_last(), sep);
        assert(join(all, sep) =~= join(a, sep) + sep + join(b, sep));
    }
}

/// Splitting undoes joining, where no part holds the separator.
pub proof fn law_splitting_undoes_joining(parts: Seq<Seq<char>>, sep: Seq<char>)
    requires
        parts.len() > 0,
        is_plain_separator(sep),
        forall|k: int| 0 <= k < parts.len() ==> is_free_of(#[trigger] parts[k], sep),
    ensures
        pieces(join(parts, sep), sep) == parts,
    decreases parts.len(),
{
    let first = parts[0];
    assert(is_free_of(first, sep));
    if parts.len() == 1 {
        law_a_split_cuts_at_the_separator(first, sep, Seq::empty());
        assert(parts =~= seq![first]);
    } else {
        let rest = parts.skip(1);
        assert forall|k: int| 0 <= k < rest.len() implies is_free_of(#[trigger] rest[k], sep) by {
            assert(rest[k] == parts[k + 1]);
        }
        law_splitting_undoes_joining(rest, sep);
        law_joins_are_joined(seq![first], rest, sep);
        assert(seq![first] + rest =~= parts);
        law_a_split_cuts_at_the_separator(first, sep, join(rest, sep));
    }
}

/// Joining undoes splitting, and no piece holds the separator.
pub proof fn law_joining_undoes_splitting(s: Seq<char>, sep: Seq<char>)
    requires
        sep.len() > 0,
    ensures
        join(pieces(s, sep), sep) == s,
        forall|k: int| 0 <= k < pieces(s, sep).len() ==> is_free_of(#[trigger] pieces(s, sep)[k], sep),
        pieces(s, sep).len() > 0,
{
    lemma_pieces_join(s, sep, 0);
    assert(s.subrange(0, s.len() as int) =~= s);
}

proof fn lemma_pieces_join(s: Seq<char>, sep: Seq<char>, i: int)
    requires
        sep.len() > 0,
        0 <= i <= s.len(),
    ensures
        pieces_from(s, sep, i).len() > 0,
        join(pieces_from(s, sep, i), sep) == s.subrange(i, s.len() as int),
        forall|k: int|
            0 <= k < pieces_from(s, sep, i).len() ==> is_free_of(
                #[trigger] pieces_from(s, sep, i)[k],
                sep,
            ),
    decreases s.len() - i,
{
    lemma_index_from(s, sep, i);
    let all = pieces_from(s, sep, i);
    match index_from(s, sep, i) {
        Some(k) => {
            let first = s.subrange(i, k);
            let rest = pieces_from(s, sep, k + sep.len());
            lemma_pieces_join(s, sep, k + sep.len());
            law_joins_are_joined(seq![first], rest, sep);
            assert(first + sep + s.subrange(k + sep.len(), s.len() as int) =~= s.subrange(
                i,
                s.len() as int,
            )) by {
                assert forall|j: int| 0 <= j < sep.len() implies s[k + j] == sep[j] by {
                    assert(s.subrange(k, k + sep.len())[j] == sep[j]);
                }
            }
            assert forall|p: int| 0 <= p && p + sep.len() <= first.len() implies
                #[trigger] first.subrange(p, p + sep.len()) != sep by {
                assert(!occurs_at(s, sep, i + p));
                assert(first.subrange(p, p + sep.len()) =~= s.subrange(i + p, i + p + sep.len()));
            }
            assert forall|n: int| 0 <= n < all.len() implies is_free_of(#[trigger] all[n], sep) by {
                if n > 0 {
                    assert(all[n] == rest[n - 1]);
                }
            }
        },
        None => {
            let last = s.subrange(i, s.len() as int);
            assert forall|p: int| 0 <= p && p + sep.len() <= last.len() implies
                #[trigger] last.subrange(p, p + sep.len()) != sep by {
                assert(!occurs_at(s, sep, i + p));
                assert(last.subrange(p, p + sep.len()) =~= s.subrange(i + p, i + p + sep.len()));
            }
            assert(all =~= seq![last]);
        },
    }
}

proof fn lemma_newline_at(s: Seq<char>, i: int, n: int)
    requires
        0 <= i <= n <= s.len(),
        forall|k: int| i <= k < n ==> #[trigger] s[k] != '\n',
        n == s.len() || s[n] == '\n',
    ensures
        newline_from(s, i) == n,
{
    lemma_newline_from(s, i);
    let m = newline_from(s, i);
    if m < n {
        assert(s[m] != '\n');
    }
}

proof fn lemma_lines_shift(before: Seq<char>, s: Seq<char>, i: int)
    requires
        0 <= i <= s.len(),
    ensures
        lines_from(before + s, before.len() + i) == lines_from(s, i),
    decreases s.len() - i,
{
    let t = before + s;
    let b = before.len() as int;
    if i < s.len() {
        lemma_newline_from(s, i);
        let n = newline_from(s, i);
        assert forall|k: int| b + i <= k < b + n implies #[trigger] t[k] != '\n' by {
            assert(t[k] == s[k - b]);
        }
        lemma_newline_at(t, b + i, b + n);
        assert(t.subrange(b + i, b + n) =~= s.subrange(i, n));
        if n < s.len() {
            lemma_lines_shift(before, s, n + 1);
            assert(b + (n + 1) == (b + n) + 1);
        }
    }
}

/// A text falls into lines at its line feeds. A carriage return before a line
/// feed belongs to the break, and the last line needs no break.
pub proof fn law_lines_end_at_line_feeds(line: Seq<char>, rest: Seq<char>)
    requires
        !line.contains('\n'),
    ensures
        lines(Seq::empty()) == Seq::<Seq<char>>::empty(),
        line.len() > 0 ==> lines(line) == seq![line],
        line.len() == 0 || line.last() != '\r' ==> lines(line + seq!['\n'] + rest) == seq![line] + lines(
            rest,
        ),
        lines(line + seq!['\r', '\n'] + rest) == seq![line] + lines(rest),
{
    if line.len() > 0 {
        lemma_newline_at(line, 0, line.len() as int);
        assert(line.subrange(0, line.len() as int) =~= line);
    }
    let n = line.len() as int;
    let s = line + seq!['\n'] + rest;
    assert forall|k: int| 0 <= k < n implies #[trigger] s[k] != '\n' by {
        assert(s[k] == line[k]);
    }
    assert(s[n] == '\n');
    lemma_newline_at(s, 0, n);
    assert(s.subrange(0, n) =~= line);
    lemma_lines_shift(line + seq!['\n'], rest, 0);
    let t = line + seq!['\r', '\n'] + rest;
    assert forall|k: int| 0 <= k < n + 1 implies #[trigger] t[k] != '\n' by {
        if k < n {
            assert(t[k] == line[k]);
        }
    }
    assert(t[n + 1] == '\n');
    lemma_newline_at(t, 0, n + 1);
    assert(t.subrange(0, n + 1) =~= line.push('\r'));
    assert(line.push('\r').drop_last() =~= line);
    lemma_lines_shift(line + seq!['\r', '\n'], rest, 0);
}

proof fn lemma_word_end_at(s: Seq<char>, i: int, e: int)
    requires
        0 <= i <= e <= s.len(),
        forall|k: int| i <= k < e ==> !is_white(#[trigger] s[k]),
        e == s.len() || is_white(s[e]),
    ensures
        word_end(s, i) == e,
    decreases e - i,
{
    if i < e {
        assert(!is_white(s[i]));
        lemma_word_end_at(s, i + 1, e);
    }
}

proof fn lemma_word_end_bounds(s: Seq<char>, i: int)
    requires
        0 <= i <= s.len(),
    ensures
        i <= word_end(s, i) <= s.len(),
        forall|k: int| i <= k < word_end(s, i) ==> !is_white(#[trigger] s[k]),
        word_end(s, i) < s.len() ==> is_white(s[word_end(s, i)]),
    decreases s.len() - i,
{
    if i < s.len() && !is_white(s[i]) {
        lemma_word_end_bounds(s, i + 1);
    }
}

proof fn lemma_words_shift(before: Seq<char>, s: Seq<char>, i: int)
    requires
        0 <= i <= s.len(),
    ensures
        words_from(before + s, before.len() + i) == words_from(s, i),
    decreases s.len() - i,
{
    let t = before + s;
    let b = before.len() as int;
    if i < s.len() {
        assert(t[b + i] == s[i]);
        if is_white(s[i]) {
            lemma_words_shift(before, s, i + 1);
            assert(b + (i + 1) == (b + i) + 1);
        } else {
            lemma_word_end_bounds(s, i);
            let e = word_end(s, i);
            assert forall|k: int| b + i <= k < b + e implies !is_white(#[trigger] t[k]) by {
                assert(t[k] == s[k - b]);
            }
            lemma_word_end_at(t, b + i, b + e);
            assert(e > i);
            assert(t.subrange(b + i, b + e) =~= s.subrange(i, e));
            lemma_words_shift(before, s, e);
        }
    }
}

/// The words of a text are what stands between whitespace, in order.
pub proof fn law_words_stand_between_whitespace(word: Seq<char>, gap: char, rest: Seq<char>)
    requires
        word.len() > 0,
        forall|k: int| 0 <= k < word.len() ==> !is_white(#[trigger] word[k]),
        is_white(gap),
    ensures
        words(Seq::empty()) == Seq::<Seq<char>>::empty(),
        words(word) == seq![word],
        words(word + seq![gap] + rest) == seq![word] + words(rest),
        words(seq![gap] + rest) == words(rest),
{
    let n = word.len() as int;
    assert(!is_white(word[0]));
    lemma_word_end_at(word, 0, n);
    assert(word.subrange(0, n) =~= word);
    assert(words_from(word, n) =~= Seq::<Seq<char>>::empty());
    assert(words(word) =~= seq![word]);
    let s = word + seq![gap] + rest;
    assert forall|k: int| 0 <= k < n implies !is_white(#[trigger] s[k]) by {
        assert(s[k] == word[k]);
    }
    assert(s[n] == gap);
    lemma_word_end_at(s, 0, n);
    assert(s.subrange(0, n) =~= word);
    assert(words_from(s, n) == words_from(s, n + 1));
    lemma_words_shift(word + seq![gap], rest, 0);
    lemma_words_shift(seq![gap], rest, 0);
    assert((seq![gap] + rest)[0] == gap);
}

/// A numeral is read digit by digit: a digit is its own value, a further digit
/// counts behind ten times what was read, and what exceeds 32 bits is refused.
pub proof fn law_numerals_are_read_digit_by_digit(s: Seq<char>, c: char)
    requires
        '0' <= c <= '9',
    ensures
        parse_u32(seq![c]) == Some((c as int - 0x30) as u32),
        parse_u32(seq!['+', c]) == parse_u32(seq![c]),
        parse_u32(s) matches Some(n) ==> parse_u32(s.push(c)) == (if n * 10 + (c as int - 0x30)
            <= u32::MAX {
            Some((n * 10 + (c as int - 0x30)) as u32)
        } else {
            None
        }),
{
    let one = seq![c];
    assert(one.drop_last() =~= Seq::<char>::empty());
    assert(digits_value(Seq::<char>::empty()) == 0);
    assert(digits_value(one) == (c as int - '0' as int) as nat);
    assert(all_digits(one));
    let plus = seq!['+', c];
    assert(plus.skip(1) =~= one);
    if parse_u32(s) is Some {
        let d = if s[0] == '+' {
            s.skip(1)
        } else {
            s
        };
        let t = s.push(c);
        let e = if t[0] == '+' {
            t.skip(1)
        } else {
            t
        };
        assert(e =~= d.push(c));
        assert(e.drop_last() =~= d);
        assert forall|i: int| 0 <= i < e.len() implies is_digit(#[trigger] e[i]) by {
            if i < d.len() {
                assert(e[i] == d[i]);
            }
        }
    }
}

/// What is no numeral is not read: nothing, a sign alone, and whatever holds a
/// character other than a digit behind its first one.
pub proof fn law_only_numerals_are_read(s: Seq<char>, i: int)
    requires
        0 <= i < s.len(),
        !('0' <= s[i] <= '9'),
        i > 0 || s[i] != '+' || s.len() == 1,
    ensures
        parse_u32(s) is None,
        parse_u32(Seq::empty()) is None,
{
    let d = if s[0] == '+' {
        s.skip(1)
    } else {
        s
    };
    if s[0] == '+' && i > 0 {
        assert(d[i - 1] == s[i]);
        assert(!is_digit(d[i - 1]));
    } else if i == 0 && s[0] != '+' {
        assert(!is_digit(d[0]));
    } else if s[0] != '+' {
        assert(!is_digit(d[i]));
    }
}

/// The numeral of a number is made of digits, has no zero in front, and reads
/// back as the number.
pub proof fn law_numerals_read_back(n: nat)
    ensures
        decimal(n).len() > 0,
        forall|i: int| 0 <= i < decimal(n).len() ==> '0' <= #[trigger] decimal(n)[i] <= '9',
        decimal(n)[0] == '0' ==> n == 0 && decimal(n).len() == 1,
        digits_value(decimal(n)) == n,
        n <= u32::MAX ==> parse_u32(decimal(n)) == Some(n as u32),
        n < 10 ==> decimal(n).len() == 1,
    decreases n,
{
    if n < 10 {
        let one = seq![digit_char(n)];
        assert(one.drop_last() =~= Seq::<char>::empty());
        assert(digits_value(Seq::<char>::empty()) == 0);
        assert(digits_value(one) == n);
    } else {
        law_numerals_read_back(n / 10);
        let d = decimal(n / 10);
        assert(decimal(n).drop_last() =~= d);
        assert forall|i: int| 0 <= i < decimal(n).len() implies '0' <= #[trigger] decimal(n)[i] <= '9' by {
            if i < d.len() {
                assert(decimal(n)[i] == d[i]);
            }
        }
        assert(decimal(n)[0] == d[0]);
    }
    let d = decimal(n);
    assert(d[0] != '+');
    assert forall|i: int| 0 <= i < d.len() implies is_digit(#[trigger] d[i]) by {}
}

/// A negative number is written as a minus sign and its amount; a padded
/// numeral is as long as asked, or longer, and stands for the same number.
pub proof fn law_signs_and_zeros_stand_in_front(n: nat, width: nat)
    ensures
        signed_decimal(n as int) == decimal(n),
        n > 0 ==> signed_decimal(-n) == seq!['-'] + decimal(n),
        padded(n, width).len() >= width,
        padded(n, width).len() == width || padded(n, width) == decimal(n),
        padded(n, width).skip(padded(n, width).len() - decimal(n).len()) == decimal(n),
        forall|i: int|
            0 <= i < padded(n, width).len() - decimal(n).len() ==> #[trigger] padded(n, width)[i]
                == '0',
{
    let p = padded(n, width);
    assert(p.skip(p.len() - decimal(n).len()) =~= decimal(n));
}

/// What a text contains, every longer text round it contains.
pub proof fn law_containing_carries_over(
    left: Seq<char>,
    s: Seq<char>,
    right: Seq<char>,
    pat: Seq<char>,
)
    requires
        contains(s, pat),
    ensures
        contains(left + s + right, pat),
        contains(left + s, pat),
        contains(s + right, pat),
{
    lemma_index_from(s, pat, 0);
    let k = index_of(s, pat)->0;
    let n = left.len() as int;
    let piece = s.subrange(k, k + pat.len());
    let a = left + s + right;
    let b = left + s;
    let c = s + right;
    assert(a.subrange(n + k, n + k + pat.len()) =~= piece);
    assert(b.subrange(n + k, n + k + pat.len()) =~= piece);
    assert(c.subrange(k, k + pat.len()) =~= piece);
    assert(occurs_at(a, pat, n + k) && occurs_at(b, pat, n + k) && occurs_at(c, pat, k));
    lemma_index_from(a, pat, 0);
    lemma_index_from(b, pat, 0);
    lemma_index_from(c, pat, 0);
}

} // verus!
