//! The console output of the DSH child.
//!
//! Only its last lines are kept, in memory. They name the cause when the child
//! dies, and the launch line among them carries the browser token.

use std::collections::VecDeque;
use vstd::prelude::*;

use crate::text::{cat, chars_of, find, find_from, join_strings, string_from};

verus! {

/// How many lines of console output are kept.
pub const CHILD_TAIL_CAP: usize = 60;

/// The last `n` elements, or all where there are fewer.
pub open spec fn last_n(s: Seq<Seq<char>>, n: nat) -> Seq<Seq<char>> {
    if s.len() <= n {
        s
    } else {
        s.skip(s.len() - n)
    }
}

/// The last lines of the child's console output.
pub struct ChildTail {
    lines: VecDeque<String>,
}

impl ChildTail {
    /// The lines that are kept, the oldest first.
    pub closed spec fn view(&self) -> Seq<Seq<char>> {
        crate::text::strings(self.lines@)
    }

    #[verifier::type_invariant]
    spec fn bounded(&self) -> bool {
        self.lines@.len() <= CHILD_TAIL_CAP
    }

    /// A tail without lines.
    pub fn new() -> (out: ChildTail)
        ensures
            out@ == Seq::<Seq<char>>::empty(),
    {
        let out = ChildTail { lines: VecDeque::new() };
        assert(out@ =~= Seq::<Seq<char>>::empty());
        out
    }

    /// Takes in a line; the oldest one goes when the tail is full.
    pub fn push(&mut self, line: String)
        ensures
            final(self)@ == last_n(old(self)@.push(line@), CHILD_TAIL_CAP as nat),
    {
        proof {
            use_type_invariant(&*self);
        }
        let mut lines: VecDeque<String> = VecDeque::new();
        std::mem::swap(&mut lines, &mut self.lines);
        if lines.len() >= CHILD_TAIL_CAP {
            let _ = lines.pop_front();
        }
        lines.push_back(line);
        self.lines = lines;
        assert(self@ =~= last_n(old(self)@.push(line@), CHILD_TAIL_CAP as nat));
    }

    /// The last `n` lines, the oldest first.
    pub fn last(&self, n: usize) -> (out: Vec<String>)
        ensures
            crate::text::strings(out@) == last_n(self@, n as nat),
    {
        let len: usize = self.lines.len();
        let start: usize = if len > n {
            len - n
        } else {
            0
        };
        let mut out: Vec<String> = Vec::new();
        let mut i: usize = start;
        while i < len
            invariant
                start <= i <= len == self.lines@.len(),
                crate::text::strings(out@) == self@.subrange(start as int, i as int),
            decreases len - i,
        {
            let ghost before = out@;
            out.push(self.lines[i].clone());
            assert(crate::text::strings(out@) =~= crate::text::strings(before).push(
                self@[i as int],
            ));
            i = i + 1;
            assert(crate::text::strings(out@) =~= self@.subrange(start as int, i as int));
        }
        assert(crate::text::strings(out@) =~= last_n(self@, n as nat));
        out
    }

    /// Forgets all lines.
    pub fn clear(&mut self)
        ensures
            final(self)@ == Seq::<Seq<char>>::empty(),
    {
        self.lines = VecDeque::new();
        assert(self@ =~= Seq::<Seq<char>>::empty());
    }

    /// The last lines in one line, for the log.
    pub fn excerpt(&self, max_lines: usize) -> (out: String)
        ensures
            out@ == crate::text::join(last_n(self@, max_lines as nat), " ⏎ "@),
    {
        let last = self.last(max_lines);
        join_strings(last.as_slice(), " ⏎ ")
    }
}

/// A line without its line feed, and without the carriage return before that.
pub open spec fn line_text(raw: Seq<char>) -> Seq<char> {
    if raw.len() > 0 && raw.last() == '\n' {
        crate::text::strip_cr(raw.drop_last())
    } else {
        raw
    }
}

/// A line as it was read, up to its line feed or the end of the stream,
/// without what ends it.
pub fn console_line(raw: &str) -> (out: String)
    ensures
        out@ == line_text(raw@),
{
    let chars = chars_of(raw);
    let mut n: usize = chars.len();
    if n > 0 && chars[n - 1] == '\n' {
        n = n - 1;
        if n > 0 && chars[n - 1] == '\r' {
            n = n - 1;
        }
    }
    let out = string_from(&chars, 0, n);
    assert(out@ =~= line_text(raw@));
    out
}

/// The tail after a run of lines went into an empty one.
pub open spec fn tail_after(lines: Seq<Seq<char>>) -> Seq<Seq<char>>
    decreases lines.len(),
{
    if lines.len() == 0 {
        Seq::empty()
    } else {
        last_n(tail_after(lines.drop_last()).push(lines.last()), CHILD_TAIL_CAP as nat)
    }
}

/// However much the child prints, the tail holds exactly its last lines.
pub proof fn law_tail_holds_the_last_lines(lines: Seq<Seq<char>>)
    ensures
        tail_after(lines) == last_n(lines, CHILD_TAIL_CAP as nat),
    decreases lines.len(),
{
    if lines.len() > 0 {
        law_tail_holds_the_last_lines(lines.drop_last());
        assert(tail_after(lines) =~= last_n(lines, CHILD_TAIL_CAP as nat));
    }
}

// ---------------------------------------------------------------------------
// The launch URL
// ---------------------------------------------------------------------------

/// Whether a character can stand in a token: base64url.
pub open spec fn is_token_char(c: char) -> bool {
    ||| 'a' <= c <= 'z'
    ||| 'A' <= c <= 'Z'
    ||| '0' <= c <= '9'
    ||| c == '-'
    ||| c == '_'
}

fn token_char(c: char) -> (yes: bool)
    ensures
        yes == is_token_char(c),
{
    ('a' <= c && c <= 'z') || ('A' <= c && c <= 'Z') || ('0' <= c && c <= '9') || c == '-' || c
        == '_'
}

/// The first position at or after `i` that holds no token character.
pub open spec fn token_end(s: Seq<char>, i: int) -> int
    decreases s.len() - i,
{
    if 0 <= i < s.len() && is_token_char(s[i]) {
        token_end(s, i + 1)
    } else {
        i
    }
}

/// The start of the launch URL, up to the token.
pub open spec fn launch_anchor() -> Seq<char> {
    "http://127.0.0.1:3080/?token="@
}

/// The launch URL that a line carries: the first anchor and the token behind it.
pub open spec fn launch_url_in(line: Seq<char>) -> Option<Seq<char>> {
    match crate::text::index_of(line, launch_anchor()) {
        Some(pos) => {
            let start = pos + launch_anchor().len();
            let end = token_end(line, start);
            if end > start {
                Some(launch_anchor() + line.subrange(start, end))
            } else {
                None
            }
        },
        None => None,
    }
}

/// The launch URL of the first of the lines, from `i` on, that carries one.
pub open spec fn launch_url_from(lines: Seq<Seq<char>>, i: int) -> Option<Seq<char>>
    decreases lines.len() - i,
{
    if i < 0 || i >= lines.len() {
        None
    } else if launch_url_in(lines[i]) is Some {
        launch_url_in(lines[i])
    } else {
        launch_url_from(lines, i + 1)
    }
}

fn read_launch_url(line: &str, anchor: &Vec<char>) -> (out: Option<String>)
    requires
        anchor@ == launch_anchor(),
    ensures
        crate::text::opt_text(out) == launch_url_in(line@),
{
    let chars = chars_of(line);
    match find(&chars, anchor) {
        Some(pos) => {
            let start: usize = pos + anchor.len();
            let mut end: usize = start;
            while end < chars.len() && token_char(chars[end])
                invariant
                    start <= end <= chars@.len(),
                    token_end(chars@, end as int) == token_end(chars@, start as int),
                decreases chars@.len() - end,
            {
                end = end + 1;
            }
            if end > start {
                let token = string_from(&chars, start, end);
                Some(cat("http://127.0.0.1:3080/?token=", token.as_str()))
            } else {
                None
            }
        },
        None => None,
    }
}

/// The authenticated webchat URL out of the child's console output. Versions
/// without the browser token print no such line.
pub fn resolve_launch_url(tail: &Vec<String>) -> (out: Option<String>)
    ensures
        crate::text::opt_text(out) == launch_url_from(crate::text::strings(tail@), 0),
{
    let anchor = chars_of("http://127.0.0.1:3080/?token=");
    let ghost lines = crate::text::strings(tail@);
    let mut i: usize = 0;
    while i < tail.len()
        invariant
            i <= tail@.len(),
            anchor@ == launch_anchor(),
            lines == crate::text::strings(tail@),
            launch_url_from(lines, i as int) == launch_url_from(lines, 0),
        decreases tail@.len() - i,
    {
        assert(lines[i as int] == tail@[i as int]@);
        match read_launch_url(tail[i].as_str(), &anchor) {
            Some(url) => {
                return Some(url);
            },
            None => {},
        }
        i = i + 1;
    }
    None
}

proof fn lemma_token_end(s: Seq<char>, i: int)
    requires
        0 <= i <= s.len(),
    ensures
        i <= token_end(s, i) <= s.len(),
        forall|k: int| i <= k < token_end(s, i) ==> is_token_char(s[k]),
    decreases s.len() - i,
{
    if i < s.len() && is_token_char(s[i]) {
        lemma_token_end(s, i + 1);
    }
}

/// Whatever the child prints, a launch URL is the loopback address followed by
/// a token that is not empty and holds nothing but base64url characters.
pub proof fn law_launch_url_is_address_and_token(line: Seq<char>)
    ensures
        launch_url_in(line) matches Some(url) ==> exists|token: Seq<char>|
            url == launch_anchor() + token && token.len() > 0 && forall|k: int|
                0 <= k < token.len() ==> is_token_char(#[trigger] token[k]),
{
    if launch_url_in(line) is Some {
        crate::text::lemma_index_from(line, launch_anchor(), 0);
        let start = crate::text::index_of(line, launch_anchor())->0 + launch_anchor().len();
        lemma_token_end(line, start);
        let token = line.subrange(start, token_end(line, start));
        assert(launch_url_in(line)->0 == launch_anchor() + token);
        assert forall|k: int| 0 <= k < token.len() implies is_token_char(#[trigger] token[k]) by {
            assert(token[k] == line[start + k]);
        }
    }
}

/// A launch line yields its token, whatever stands before the address, as long
/// as the address is the first one on the line, and whatever character other
/// than a token's own follows it.
pub proof fn law_launch_line_yields_its_token(
    before: Seq<char>,
    token: Seq<char>,
    after: Seq<char>,
)
    requires
        token.len() > 0,
        forall|k: int| 0 <= k < token.len() ==> is_token_char(#[trigger] token[k]),
        after.len() > 0 ==> !is_token_char(after[0]),
        forall|i: int|
            0 <= i < before.len() ==> !crate::text::occurs_at(
                before + launch_anchor() + token + after,
                launch_anchor(),
                i,
            ),
    ensures
        launch_url_in(before + launch_anchor() + token + after) == Some(launch_anchor() + token),
{
    let line = before + launch_anchor() + token + after;
    let pos = before.len() as int;
    assert(line.subrange(pos, pos + launch_anchor().len()) =~= launch_anchor());
    crate::text::lemma_index_from(line, launch_anchor(), 0);
    assert(crate::text::occurs_at(line, launch_anchor(), pos));
    assert(crate::text::index_of(line, launch_anchor()) == Some(pos));
    let start = pos + launch_anchor().len();
    lemma_token_run(line, start, start + token.len());
    assert(line.subrange(start, start + token.len()) =~= token);
}

proof fn lemma_token_run(s: Seq<char>, i: int, e: int)
    requires
        0 <= i <= e <= s.len(),
        forall|k: int| i <= k < e ==> is_token_char(#[trigger] s[k]),
        e < s.len() ==> !is_token_char(s[e]),
    ensures
        token_end(s, i) == e,
    decreases e - i,
{
    if i < e {
        assert(is_token_char(s[i]));
        lemma_token_run(s, i + 1, e);
    }
}

// ---------------------------------------------------------------------------
// A missing bundle
// ---------------------------------------------------------------------------

/// The words in front of the name of a bundle that is not there.
pub open spec fn bundle_marker() -> Seq<char> {
    "cannot resolve profile bundle \""@
}

/// The bundle that a line calls missing: what stands between the first marker
/// and the next quote, unless that is nothing.
pub open spec fn bundle_in(line: Seq<char>) -> Option<Seq<char>> {
    match crate::text::index_of(line, bundle_marker()) {
        Some(pos) => {
            let start = pos + bundle_marker().len();
            match crate::text::index_from(line, "\""@, start) {
                Some(end) => if end > start {
                    Some(line.subrange(start, end))
                } else {
                    None
                },
                None => None,
            }
        },
        None => None,
    }
}

/// The bundle named by the last of the first `n` lines that names one.
pub open spec fn bundle_upto(lines: Seq<Seq<char>>, n: nat) -> Option<Seq<char>>
    decreases n,
{
    if n == 0 {
        None
    } else if bundle_in(lines[n - 1]) is Some {
        bundle_in(lines[n - 1])
    } else {
        bundle_upto(lines, (n - 1) as nat)
    }
}

fn read_bundle(line: &str, marker: &Vec<char>) -> (out: Option<String>)
    requires
        marker@ == bundle_marker(),
    ensures
        crate::text::opt_text(out) == bundle_in(line@),
{
    let chars = chars_of(line);
    match find(&chars, marker) {
        Some(pos) => {
            let start: usize = pos + marker.len();
            match find_from(&chars, &chars_of("\""), start) {
                Some(end) => if end > start {
                    Some(string_from(&chars, start, end))
                } else {
                    None
                },
                None => None,
            }
        },
        None => None,
    }
}

/// The package that the child's last words call missing.
pub fn missing_bundle(tail: &Vec<String>) -> (out: Option<String>)
    ensures
        crate::text::opt_text(out) == bundle_upto(crate::text::strings(tail@), tail@.len()),
{
    let marker = chars_of("cannot resolve profile bundle \"");
    let ghost lines = crate::text::strings(tail@);
    let mut i: usize = tail.len();
    while i > 0
        invariant
            i <= tail@.len(),
            marker@ == bundle_marker(),
            lines == crate::text::strings(tail@),
            bundle_upto(lines, i as nat) == bundle_upto(lines, tail@.len()),
        decreases i,
    {
        assert(lines[i - 1] == tail@[i - 1]@);
        match read_bundle(tail[i - 1].as_str(), &marker) {
            Some(pkg) => {
                return Some(pkg);
            },
            None => {},
        }
        i = i - 1;
    }
    None
}

// ---------------------------------------------------------------------------
// What is read from the output
// ---------------------------------------------------------------------------

/// The last lines are the end of what was printed, in order: as many as asked
/// for, or all where there are fewer.
pub proof fn law_the_last_lines_are_the_end(a: Seq<Seq<char>>, b: Seq<Seq<char>>, n: nat)
    ensures
        last_n(a + b, b.len()) == b,
        n >= b.len() ==> last_n(b, n) == b,
        n <= b.len() ==> last_n(b, n).len() == n,
{
    assert(last_n(a + b, b.len()) =~= b);
}

/// A line is what was printed before its line feed. A carriage return before
/// that belongs to the break, and a last line without a break is complete.
pub proof fn law_a_line_is_what_stands_before_its_break(line: Seq<char>)
    requires
        !line.contains('\n'),
    ensures
        line_text(line) == line,
        line_text(line + seq!['\r', '\n']) == line,
        line.len() == 0 || line.last() != '\r' ==> line_text(line + seq!['\n']) == line,
{
    if line.len() > 0 {
        assert(line.contains(line.last()));
    }
    let s = line + seq!['\r', '\n'];
    assert(s.drop_last() =~= line.push('\r'));
    assert(line.push('\r').drop_last() =~= line);
    assert((line + seq!['\n']).drop_last() =~= line);
}

/// Whether a character is one of the 64 of a token.
pub open spec fn is_one_of_64(c: char) -> bool {
    let n = c as int;
    0x61 <= n <= 0x7a || 0x41 <= n <= 0x5a || 0x30 <= n <= 0x39 || n == 0x2d || n == 0x5f
}

/// The webchat goes to the address that DSH prints with its token: the first
/// line that has one counts, the token is taken up to its last character, and
/// neither earlier lines without it nor anything later matter.
pub proof fn law_the_printed_address_is_found(
    earlier: Seq<Seq<char>>,
    before: Seq<char>,
    token: Seq<char>,
    after: Seq<char>,
    later: Seq<Seq<char>>,
)
    requires
        forall|i: int|
            0 <= i < earlier.len() ==> crate::text::is_free_of(
                #[trigger] earlier[i],
                "http://127.0.0.1:3080/?token="@,
            ),
        crate::text::is_free_of(before, "http://127.0.0.1:3080/?token="@),
        token.len() > 0,
        forall|k: int| 0 <= k < token.len() ==> is_one_of_64(#[trigger] token[k]),
        after.len() > 0 ==> !is_one_of_64(after[0]),
    ensures
        ({
            let anchor = "http://127.0.0.1:3080/?token="@;
            let line = before + anchor + token + after;
            launch_url_from(earlier + seq![line] + later, 0) == Some(anchor + token)
        }),
        launch_url_from(earlier, 0) is None,
{
    let anchor = "http://127.0.0.1:3080/?token="@;
    reveal_strlit("http://127.0.0.1:3080/?token=");
    let line = before + anchor + token + after;
    let rest = token + after;
    let none = Seq::<char>::empty();
    crate::text::lemma_first_break(none, before, anchor, rest);
    assert(none + before + anchor + rest =~= line);
    let start = (before.len() + anchor.len()) as int;
    assert forall|k: int| start <= k < start + token.len() implies is_token_char(
        #[trigger] line[k],
    ) by {
        assert(line[k] == token[k - start]);
    }
    lemma_token_run(line, start, start + token.len());
    assert(line.subrange(start, start + token.len()) =~= token);
    assert(launch_url_in(line) == Some(anchor + token));
    let all = earlier + seq![line] + later;
    assert forall|i: int| 0 <= i < earlier.len() implies launch_url_in(#[trigger] all[i]) is None by {
        assert(all[i] == earlier[i]);
        crate::text::lemma_first_break(none, earlier[i], anchor, none);
        assert(none + earlier[i] =~= earlier[i]);
    }
    lemma_first_url(all, 0, earlier.len() as int);
    assert(all[earlier.len() as int] == line);
    assert forall|i: int| 0 <= i < earlier.len() implies launch_url_in(#[trigger] earlier[i]) is None by {
        assert(all[i] == earlier[i]);
    }
    lemma_no_url(earlier, 0);
}

proof fn lemma_first_url(lines: Seq<Seq<char>>, i: int, n: int)
    requires
        0 <= i <= n < lines.len(),
        forall|k: int| i <= k < n ==> launch_url_in(#[trigger] lines[k]) is None,
        launch_url_in(lines[n]) is Some,
    ensures
        launch_url_from(lines, i) == launch_url_in(lines[n]),
    decreases n - i,
{
    if i < n {
        assert(launch_url_in(lines[i]) is None);
        lemma_first_url(lines, i + 1, n);
    }
}

proof fn lemma_no_url(lines: Seq<Seq<char>>, i: int)
    requires
        0 <= i <= lines.len(),
        forall|k: int| i <= k < lines.len() ==> launch_url_in(#[trigger] lines[k]) is None,
    ensures
        launch_url_from(lines, i) is None,
    decreases lines.len() - i,
{
    if i < lines.len() {
        assert(launch_url_in(lines[i]) is None);
        lemma_no_url(lines, i + 1);
    }
}

/// The missing package is the one that the last line that names one puts in
/// quotes. Lines that name none do not matter, before it or behind it.
pub proof fn law_the_missing_package_is_the_quoted_one(
    earlier: Seq<Seq<char>>,
    before: Seq<char>,
    name: Seq<char>,
    after: Seq<char>,
    later: Seq<Seq<char>>,
)
    requires
        forall|i: int|
            0 <= i < later.len() ==> crate::text::is_free_of(
                #[trigger] later[i],
                "cannot resolve profile bundle \""@,
            ),
        crate::text::is_free_of(before, "cannot resolve profile bundle \""@),
        name.len() > 0,
        !name.contains('"'),
    ensures
        ({
            let marker = "cannot resolve profile bundle \""@;
            let line = before + marker + name + seq!['"'] + after;
            let all = earlier + seq![line] + later;
            bundle_upto(all, all.len()) == Some(name)
        }),
        bundle_upto(later, later.len()) is None,
{
    let marker = "cannot resolve profile bundle \""@;
    reveal_strlit("cannot resolve profile bundle \"");
    reveal_strlit("\"");
    let line = before + marker + name + seq!['"'] + after;
    let rest = name + seq!['"'] + after;
    let none = Seq::<char>::empty();
    crate::text::lemma_first_break(none, before, marker, rest);
    assert(none + before + marker + rest =~= line);
    let start = (before.len() + marker.len()) as int;
    let end = start + name.len();
    let quote = "\""@;
    assert(line.subrange(end, end + 1) =~= quote);
    assert forall|j: int| start <= j < end implies #[trigger] line.subrange(j, j + 1) != quote by {
        assert(line.subrange(j, j + 1)[0] == name[j - start]);
    }
    crate::text::law_a_search_finds_the_first_place(line, quote, start, end);
    assert(line.subrange(start, end) =~= name);
    assert(bundle_in(line) == Some(name));
    let all = earlier + seq![line] + later;
    assert forall|i: int| 0 <= i < later.len() implies bundle_in(#[trigger] later[i]) is None by {
        crate::text::lemma_first_break(none, later[i], marker, none);
        assert(none + later[i] =~= later[i]);
    }
    assert forall|i: int| earlier.len() < i < all.len() implies bundle_in(#[trigger] all[i]) is None by {
        assert(all[i] == later[i - earlier.len() - 1]);
    }
    assert(all[earlier.len() as int] == line);
    lemma_last_bundle(all, all.len(), earlier.len() as int);
    lemma_no_bundle(later, later.len());
}

proof fn lemma_last_bundle(lines: Seq<Seq<char>>, n: nat, at: int)
    requires
        0 <= at < n <= lines.len(),
        bundle_in(lines[at]) is Some,
        forall|k: int| at < k < n ==> bundle_in(#[trigger] lines[k]) is None,
    ensures
        bundle_upto(lines, n) == bundle_in(lines[at]),
    decreases n,
{
    if at < n - 1 {
        assert(bundle_in(lines[n - 1]) is None);
        lemma_last_bundle(lines, (n - 1) as nat, at);
    }
}

proof fn lemma_no_bundle(lines: Seq<Seq<char>>, n: nat)
    requires
        n <= lines.len(),
        forall|k: int| 0 <= k < n ==> bundle_in(#[trigger] lines[k]) is None,
    ensures
        bundle_upto(lines, n) is None,
    decreases n,
{
    if n > 0 {
        assert(bundle_in(lines[n - 1]) is None);
        lemma_no_bundle(lines, (n - 1) as nat);
    }
}

} // verus!
