//! Launch tokens in raw memory.
//!
//! `dsh web` mints one random launch token per process: 32 random bytes in
//! base64url, which is 43 characters. The collectors here harvest every byte
//! run of that shape from a buffer, either anywhere or right behind a marker
//! such as the `token=` of the printed launch URL. Shape is never proof: a
//! candidate counts only after the server has exchanged it for a session.

use vstd::prelude::*;

verus! {

/// The length of the base64url form of 32 bytes.
pub const TOKEN_LEN: usize = 43;

/// Whether a byte belongs to the base64url alphabet.
pub open spec fn is_base64url(b: u8) -> bool {
    ||| 0x41 <= b <= 0x5a
    ||| 0x61 <= b <= 0x7a
    ||| 0x30 <= b <= 0x39
    ||| b == 0x2d
    ||| b == 0x5f
}

/// The character with a given 6-bit value.
pub open spec fn base64url_char(v: int) -> u8 {
    if v < 26 {
        (0x41 + v) as u8
    } else if v < 52 {
        (0x61 + v - 26) as u8
    } else if v < 62 {
        (0x30 + v - 52) as u8
    } else if v == 62 {
        0x2d
    } else {
        0x5f
    }
}

/// Whether a byte can end a token: its 6-bit value is a multiple of four,
/// because only four input bits are left for the last of 43 characters.
pub open spec fn is_tail(b: u8) -> bool {
    exists|q: int| 0 <= q < 16 && b == #[trigger] base64url_char(4 * q)
}

/// The characters `AEIMQUYcgkosw048`.
pub open spec fn tail_alphabet() -> Seq<u8> {
    seq![
        0x41u8,
        0x45u8,
        0x49u8,
        0x4du8,
        0x51u8,
        0x55u8,
        0x59u8,
        0x63u8,
        0x67u8,
        0x6bu8,
        0x6fu8,
        0x73u8,
        0x77u8,
        0x30u8,
        0x34u8,
        0x38u8,
    ]
}

/// The characters that can end a token are exactly `AEIMQUYcgkosw048`.
pub proof fn lemma_tail_alphabet(b: u8)
    ensures
        is_tail(b) <==> tail_alphabet().contains(b),
{
    assert forall|q: int| 0 <= q < 16 implies #[trigger] base64url_char(4 * q)
        == tail_alphabet()[q] by {}
    if is_tail(b) {
        let q = choose|q: int| 0 <= q < 16 && b == #[trigger] base64url_char(4 * q);
        assert(tail_alphabet()[q] == b);
    }
    if tail_alphabet().contains(b) {
        let q = choose|q: int| 0 <= q < 16 && tail_alphabet()[q] == b;
        assert(base64url_char(4 * q) == b);
    }
}

/// Membership of every byte in the base64url alphabet, as a table.
pub fn base64url_table() -> (table: [bool; 256])
    ensures
        forall|b: u8| #[trigger] table@[b as int] == is_base64url(b),
{
    let mut table: [bool; 256] = [false; 256];
    let mut i: usize = 0;
    while i < 256
        invariant
            i <= 256,
            forall|b: u8| b < i ==> #[trigger] table@[b as int] == is_base64url(b),
        decreases 256 - i,
    {
        let c: u8 = i as u8;
        table[i] = (0x41 <= c && c <= 0x5a) || (0x61 <= c && c <= 0x7a) || (0x30 <= c && c <= 0x39)
            || c == 0x2d || c == 0x5f;
        i = i + 1;
    }
    table
}

/// Membership of every byte in the set of token-ending characters, as a table.
pub fn tail_table() -> (table: [bool; 256])
    ensures
        forall|b: u8| #[trigger] table@[b as int] == is_tail(b),
{
    let alphabet: [u8; 16] = [
        0x41,
        0x45,
        0x49,
        0x4d,
        0x51,
        0x55,
        0x59,
        0x63,
        0x67,
        0x6b,
        0x6f,
        0x73,
        0x77,
        0x30,
        0x34,
        0x38,
    ];
    assert(alphabet@ =~= tail_alphabet());
    let mut table: [bool; 256] = [false; 256];
    let mut i: usize = 0;
    while i < 16
        invariant
            i <= 16,
            alphabet@ == tail_alphabet(),
            forall|b: u8| #[trigger] table@[b as int] == alphabet@.take(i as int).contains(b),
        decreases 16 - i,
    {
        let ghost before = table@;
        table[alphabet[i] as usize] = true;
        proof {
            let next = alphabet@.take(i + 1);
            assert(next =~= alphabet@.take(i as int).push(alphabet@[i as int]));
            assert forall|b: u8| #[trigger] table@[b as int] == next.contains(b) by {
                if b == alphabet@[i as int] {
                    assert(next[i as int] == b);
                } else {
                    assert(table@[b as int] == before[b as int]);
                    if next.contains(b) {
                        let k = choose|k: int| 0 <= k < next.len() && next[k] == b;
                        assert(alphabet@.take(i as int)[k] == b);
                    }
                    if alphabet@.take(i as int).contains(b) {
                        let k = choose|k: int| 0 <= k < i && alphabet@.take(i as int)[k] == b;
                        assert(next[k] == b);
                    }
                }
            }
        }
        i = i + 1;
    }
    proof {
        assert(alphabet@.take(16) =~= alphabet@);
        assert forall|b: u8| #[trigger] table@[b as int] == is_tail(b) by {
            lemma_tail_alphabet(b);
        }
    }
    table
}

/// The two alphabets of the collectors.
pub struct Alphabets {
    base64url: [bool; 256],
    tail: [bool; 256],
}

impl Alphabets {
    #[verifier::type_invariant]
    spec fn inv(self) -> bool {
        &&& forall|b: u8| #[trigger] self.base64url@[b as int] == is_base64url(b)
        &&& forall|b: u8| #[trigger] self.tail@[b as int] == is_tail(b)
    }

    /// What the table of the base64url alphabet holds for a byte.
    pub closed spec fn base64url_entry(self, b: u8) -> bool {
        self.base64url@[b as int]
    }

    /// What the table of the last characters holds for a byte.
    pub closed spec fn tail_entry(self, b: u8) -> bool {
        self.tail@[b as int]
    }

    /// Builds both tables.
    pub fn new() -> (out: Alphabets)
        ensures
            forall|b: u8| #[trigger] out.base64url_entry(b) == is_base64url(b),
            forall|b: u8| #[trigger] out.tail_entry(b) == is_tail(b),
    {
        Alphabets { base64url: base64url_table(), tail: tail_table() }
    }

    /// Whether a byte belongs to the base64url alphabet.
    pub fn base64url(&self, b: u8) -> (yes: bool)
        ensures
            yes == self.base64url_entry(b),
            yes == is_base64url(b),
    {
        proof {
            use_type_invariant(self);
        }
        self.base64url[b as usize]
    }

    /// Whether a byte can end a token.
    pub fn tail(&self, b: u8) -> (yes: bool)
        ensures
            yes == self.tail_entry(b),
            yes == is_tail(b),
    {
        proof {
            use_type_invariant(self);
        }
        self.tail[b as usize]
    }
}

/// Bytes read as Latin-1 text; on ASCII bytes this is the text they encode.
pub open spec fn bytes_text(s: Seq<u8>) -> Seq<char> {
    s.map_values(|b: u8| b as char)
}

/// Whether every byte of `buffer[start..end]` is base64url.
pub open spec fn is_shaped(buffer: Seq<u8>, start: int, end: int) -> bool {
    forall|k: int| start <= k < end ==> is_base64url(#[trigger] buffer[k])
}

/// Whether a token-shaped piece stands at `start` and is not continued
/// behind its end.
pub open spec fn piece_at(buffer: Seq<u8>, start: int, tail_filter: bool) -> bool {
    let end = start + TOKEN_LEN;
    &&& 0 <= start
    &&& end <= buffer.len()
    &&& is_shaped(buffer, start, end)
    &&& end < buffer.len() ==> !is_base64url(buffer[end])
    &&& tail_filter ==> is_tail(buffer[end - 1])
}

/// Whether a maximal base64url run of exactly the token length starts at `i`.
pub open spec fn run_at(buffer: Seq<u8>, i: int, tail_filter: bool) -> bool {
    &&& piece_at(buffer, i, tail_filter)
    &&& i > 0 ==> !is_base64url(buffer[i - 1])
}

/// Whether `marker` stands at `i` with a token right behind it.
pub open spec fn anchored_at(buffer: Seq<u8>, marker: Seq<u8>, i: int, tail_filter: bool) -> bool {
    &&& 0 <= i
    &&& i + marker.len() <= buffer.len()
    &&& buffer.subrange(i, i + marker.len()) == marker
    &&& piece_at(buffer, i + marker.len(), tail_filter)
}

/// The text of the token at `start`.
pub open spec fn token_text(buffer: Seq<u8>, start: int) -> Seq<char> {
    bytes_text(buffer.subrange(start, start + TOKEN_LEN))
}

/// The tokens of the runs that start before position `n`, in order.
pub open spec fn runs(buffer: Seq<u8>, n: nat, tail_filter: bool) -> Seq<Seq<char>>
    decreases n,
{
    if n == 0 {
        Seq::empty()
    } else {
        let rest = runs(buffer, (n - 1) as nat, tail_filter);
        if run_at(buffer, n - 1, tail_filter) {
            rest.push(token_text(buffer, n - 1))
        } else {
            rest
        }
    }
}

/// The tokens behind the markers that start before position `n`, in order.
pub open spec fn anchored(
    buffer: Seq<u8>,
    marker: Seq<u8>,
    n: nat,
    tail_filter: bool,
) -> Seq<Seq<char>>
    decreases n,
{
    if n == 0 {
        Seq::empty()
    } else {
        let rest = anchored(buffer, marker, (n - 1) as nat, tail_filter);
        if anchored_at(buffer, marker, n - 1, tail_filter) {
            rest.push(token_text(buffer, n - 1 + marker.len()))
        } else {
            rest
        }
    }
}

/// Whether every byte of `buffer[start..end]` is base64url.
pub fn shaped(tables: &Alphabets, buffer: &[u8], start: usize, end: usize) -> (yes: bool)
    requires
        start <= end <= buffer@.len(),
    ensures
        yes == is_shaped(buffer@, start as int, end as int),
{
    let mut at: usize = start;
    while at < end
        invariant
            start <= at <= end <= buffer@.len(),
            is_shaped(buffer@, start as int, at as int),
        decreases end - at,
    {
        if !tables.base64url(buffer[at]) {
            return false;
        }
        at = at + 1;
    }
    true
}

/// Applies the tail filter to the token at `start`, which has the shape of
/// one, and appends it when it passes.
pub fn accepted(
    tables: &Alphabets,
    buffer: &[u8],
    start: usize,
    end: usize,
    tail_filter: bool,
    out: &mut Vec<String>,
)
    requires
        start < end <= buffer@.len(),
        is_shaped(buffer@, start as int, end as int),
    ensures
        crate::text::strings(final(out)@) == (if tail_filter && !is_tail(buffer@[end - 1]) {
            crate::text::strings(old(out)@)
        } else {
            crate::text::strings(old(out)@).push(
                bytes_text(buffer@.subrange(start as int, end as int)),
            )
        }),
{
    if tail_filter && !tables.tail(buffer[end - 1]) {
        return;
    }
    let mut token = String::new();
    let mut i: usize = start;
    while i < end
        invariant
            start <= i <= end <= buffer@.len(),
            token@ == bytes_text(buffer@.subrange(start as int, i as int)),
        decreases end - i,
    {
        token.push(buffer[i] as char);
        i = i + 1;
        assert(token@ =~= bytes_text(buffer@.subrange(start as int, i as int)));
    }
    out.push(token);
    assert(crate::text::strings(out@) =~= crate::text::strings(old(out)@).push(
        bytes_text(buffer@.subrange(start as int, end as int)),
    ));
}

/// Appends every maximal base64url run of exactly the token length.
///
/// Maximality keeps ordinary hashes and ids out. With `tail_filter` the last
/// character must also be one that a 32-byte payload can end with.
pub fn collect_runs(tables: &Alphabets, buffer: &[u8], tail_filter: bool, out: &mut Vec<String>)
    ensures
        crate::text::strings(final(out)@) == crate::text::strings(old(out)@) + runs(
            buffer@,
            buffer@.len(),
            tail_filter,
        ),
{
    let length: usize = buffer.len();
    let mut i: usize = 0;
    while i < length
        invariant
            i <= length == buffer@.len(),
            crate::text::strings(out@) == crate::text::strings(old(out)@) + runs(
                buffer@,
                i as nat,
                tail_filter,
            ),
        decreases length - i,
    {
        if length - i < TOKEN_LEN {
            proof {
                lemma_no_late_runs(buffer@, i as nat, length as nat, tail_filter);
            }
            return;
        }
        let end: usize = i + TOKEN_LEN;
        let first = tables.base64url(buffer[i]) && !(i > 0 && tables.base64url(buffer[i - 1]));
        if first && shaped(tables, buffer, i, end) && !(end < length && tables.base64url(
            buffer[end],
        )) {
            accepted(tables, buffer, i, end, tail_filter, out);
        } else {
            assert(!is_base64url(buffer@[i as int]) ==> !is_shaped(buffer@, i as int, end as int));
        }
        proof {
            assert(runs(buffer@, (i + 1) as nat, tail_filter) == if run_at(
                buffer@,
                i as int,
                tail_filter,
            ) {
                runs(buffer@, i as nat, tail_filter).push(token_text(buffer@, i as int))
            } else {
                runs(buffer@, i as nat, tail_filter)
            });
            assert(crate::text::strings(out@) =~= crate::text::strings(old(out)@) + runs(
                buffer@,
                (i + 1) as nat,
                tail_filter,
            ));
        }
        i = i + 1;
    }
}

/// No run starts where less than a token is left.
proof fn lemma_no_late_runs(buffer: Seq<u8>, i: nat, n: nat, tail_filter: bool)
    requires
        i <= n,
        buffer.len() < i + TOKEN_LEN,
    ensures
        runs(buffer, n, tail_filter) == runs(buffer, i, tail_filter),
    decreases n,
{
    if i < n {
        lemma_no_late_runs(buffer, i, (n - 1) as nat, tail_filter);
    }
}

/// No token fits behind a marker that starts too close to the end.
proof fn lemma_no_late_anchors(buffer: Seq<u8>, marker: Seq<u8>, i: nat, n: nat, tail_filter: bool)
    requires
        i <= n,
        buffer.len() < i + marker.len() + TOKEN_LEN,
    ensures
        anchored(buffer, marker, n, tail_filter) == anchored(buffer, marker, i, tail_filter),
    decreases n,
{
    if i < n {
        lemma_no_late_anchors(buffer, marker, i, (n - 1) as nat, tail_filter);
    }
}

/// Whether `marker` stands in `buffer` at `i`.
pub fn marker_at(buffer: &[u8], marker: &[u8], i: usize) -> (yes: bool)
    requires
        i + marker@.len() <= buffer@.len(),
    ensures
        yes == (buffer@.subrange(i as int, i + marker@.len()) == marker@),
{
    let length: usize = buffer.len();
    let mut k: usize = 0;
    while k < marker.len()
        invariant
            k <= marker@.len(),
            i + marker@.len() <= length == buffer@.len(),
            forall|j: int| 0 <= j < k ==> buffer@[i + j] == marker@[j],
        decreases marker@.len() - k,
    {
        if buffer[i + k] != marker[k] {
            assert(buffer@.subrange(i as int, i + marker@.len())[k as int] != marker@[k as int]);
            return false;
        }
        k = k + 1;
    }
    assert(buffer@.subrange(i as int, i + marker@.len()) =~= marker@);
    true
}

/// Appends every token that starts right behind `marker`.
pub fn collect_anchored(
    tables: &Alphabets,
    buffer: &[u8],
    marker: &[u8],
    tail_filter: bool,
    out: &mut Vec<String>,
)
    ensures
        crate::text::strings(final(out)@) == crate::text::strings(old(out)@) + anchored(
            buffer@,
            marker@,
            buffer@.len(),
            tail_filter,
        ),
{
    let length: usize = buffer.len();
    let width: usize = marker.len();
    let mut i: usize = 0;
    while i < length
        invariant
            i <= length == buffer@.len(),
            width == marker@.len(),
            crate::text::strings(out@) == crate::text::strings(old(out)@) + anchored(
                buffer@,
                marker@,
                i as nat,
                tail_filter,
            ),
        decreases length - i,
    {
        if length - i < width || length - i - width < TOKEN_LEN {
            proof {
                lemma_no_late_anchors(buffer@, marker@, i as nat, length as nat, tail_filter);
            }
            return;
        }
        let start: usize = i + width;
        let end: usize = start + TOKEN_LEN;
        if marker_at(buffer, marker, i) && shaped(tables, buffer, start, end) && !(end < length
            && tables.base64url(buffer[end])) {
            accepted(tables, buffer, start, end, tail_filter, out);
        }
        proof {
            assert(anchored(buffer@, marker@, (i + 1) as nat, tail_filter) == if anchored_at(
                buffer@,
                marker@,
                i as int,
                tail_filter,
            ) {
                anchored(buffer@, marker@, i as nat, tail_filter).push(
                    token_text(buffer@, start as int),
                )
            } else {
                anchored(buffer@, marker@, i as nat, tail_filter)
            });
            assert(crate::text::strings(out@) =~= crate::text::strings(old(out)@) + anchored(
                buffer@,
                marker@,
                (i + 1) as nat,
                tail_filter,
            ));
        }
        i = i + 1;
    }
}

// ---------------------------------------------------------------------------
// What the collectors guarantee
// ---------------------------------------------------------------------------

/// The `i`-th 6-bit group of a byte string, zero bits behind its end.
pub open spec fn sextet(bytes: Seq<u8>, i: int) -> int {
    let at = 6 * i / 8;
    let high = bytes[at] as int;
    let low = if at + 1 < bytes.len() {
        bytes[at + 1] as int
    } else {
        0
    };
    let word = high * 256 + low;
    let skip = 6 * i % 8;
    if skip == 0 {
        word / 1024 % 64
    } else if skip == 2 {
        word / 256 % 64
    } else if skip == 4 {
        word / 64 % 64
    } else {
        word / 16 % 64
    }
}

/// The base64url form of a 32-byte payload, without padding.
pub open spec fn encode_payload(bytes: Seq<u8>) -> Seq<u8> {
    Seq::new(TOKEN_LEN as nat, |i: int| base64url_char(sextet(bytes, i)))
}

/// Every launch token has the shape that the collectors look for, and its
/// last character passes the tail filter: the filter is a consequence of the
/// token's length, not an assumption about its content.
pub proof fn law_every_payload_has_token_shape(bytes: Seq<u8>)
    requires
        bytes.len() == 32,
    ensures
        encode_payload(bytes).len() == TOKEN_LEN,
        is_shaped(encode_payload(bytes), 0, TOKEN_LEN as int),
        is_tail(encode_payload(bytes)[TOKEN_LEN - 1]),
{
    let e = encode_payload(bytes);
    assert forall|k: int| 0 <= k < TOKEN_LEN implies is_base64url(#[trigger] e[k]) by {
        assert(0 <= sextet(bytes, k) < 64);
    }
    let last = bytes[31] as int;
    assert(sextet(bytes, 42) == last * 256 / 64 % 64);
    assert(last * 256 / 64 == last * 4);
    let q = last % 16;
    assert(last * 4 % 64 == 4 * q);
    assert(e[42] == base64url_char(4 * q));
}

proof fn lemma_runs_members(buffer: Seq<u8>, n: nat, tail_filter: bool, t: Seq<char>)
    ensures
        runs(buffer, n, tail_filter).contains(t) <==> exists|i: int|
            0 <= i < n && #[trigger] run_at(buffer, i, tail_filter) && t == token_text(buffer, i),
    decreases n,
{
    if n > 0 {
        let m = (n - 1) as nat;
        lemma_runs_members(buffer, m, tail_filter, t);
        let rest = runs(buffer, m, tail_filter);
        let all = runs(buffer, n, tail_filter);
        if all.contains(t) {
            let k = choose|k: int| 0 <= k < all.len() && all[k] == t;
            if k < rest.len() {
                assert(rest[k] == t);
                assert(rest.contains(t));
            } else {
                assert(run_at(buffer, n - 1, tail_filter));
            }
        }
        if exists|i: int|
            0 <= i < n && #[trigger] run_at(buffer, i, tail_filter) && t == token_text(buffer, i) {
            let i = choose|i: int|
                0 <= i < n && #[trigger] run_at(buffer, i, tail_filter) && t == token_text(
                    buffer,
                    i,
                );
            if i < m {
                assert(rest.contains(t));
                let k = choose|k: int| 0 <= k < rest.len() && rest[k] == t;
                assert(all[k] == t);
            } else {
                assert(all[rest.len() as int] == t);
            }
        }
    }
}

/// `collect_runs` harvests a text exactly when it stands in the buffer as a
/// maximal base64url run of the token length (that passes the tail filter,
/// where the filter is on).
pub proof fn law_runs_are_the_maximal_runs(buffer: Seq<u8>, tail_filter: bool, t: Seq<char>)
    ensures
        runs(buffer, buffer.len(), tail_filter).contains(t) <==> exists|i: int|
            #[trigger] run_at(buffer, i, tail_filter) && t == token_text(buffer, i),
{
    lemma_runs_members(buffer, buffer.len(), tail_filter, t);
    if exists|i: int| #[trigger] run_at(buffer, i, tail_filter) && t == token_text(buffer, i) {
        let i = choose|i: int| #[trigger]
            run_at(buffer, i, tail_filter) && t == token_text(buffer, i);
        assert(0 <= i < buffer.len());
    }
}

proof fn lemma_anchored_members(
    buffer: Seq<u8>,
    marker: Seq<u8>,
    n: nat,
    tail_filter: bool,
    t: Seq<char>,
)
    ensures
        anchored(buffer, marker, n, tail_filter).contains(t) <==> exists|i: int|
            0 <= i < n && #[trigger] anchored_at(buffer, marker, i, tail_filter) && t
                == token_text(buffer, i + marker.len()),
    decreases n,
{
    if n > 0 {
        let m = (n - 1) as nat;
        lemma_anchored_members(buffer, marker, m, tail_filter, t);
        let rest = anchored(buffer, marker, m, tail_filter);
        let all = anchored(buffer, marker, n, tail_filter);
        if all.contains(t) {
            let k = choose|k: int| 0 <= k < all.len() && all[k] == t;
            if k < rest.len() {
                assert(rest[k] == t);
                assert(rest.contains(t));
            } else {
                assert(anchored_at(buffer, marker, n - 1, tail_filter));
            }
        }
        if exists|i: int|
            0 <= i < n && #[trigger] anchored_at(buffer, marker, i, tail_filter) && t
                == token_text(buffer, i + marker.len()) {
            let i = choose|i: int|
                0 <= i < n && #[trigger] anchored_at(buffer, marker, i, tail_filter) && t
                    == token_text(buffer, i + marker.len());
            if i < m {
                assert(rest.contains(t));
                let k = choose|k: int| 0 <= k < rest.len() && rest[k] == t;
                assert(all[k] == t);
            } else {
                assert(all[rest.len() as int] == t);
            }
        }
    }
}

/// Behind a marker that ends outside the base64url alphabet, every anchored
/// token is the start of its run: the anchored pass sees nothing that the
/// pass over all runs would not see.
pub proof fn law_anchored_tokens_are_runs(
    buffer: Seq<u8>,
    marker: Seq<u8>,
    tail_filter: bool,
    t: Seq<char>,
)
    requires
        marker.len() > 0,
        !is_base64url(marker.last()),
        anchored(buffer, marker, buffer.len(), tail_filter).contains(t),
    ensures
        runs(buffer, buffer.len(), tail_filter).contains(t),
{
    lemma_anchored_members(buffer, marker, buffer.len(), tail_filter, t);
    let i = choose|i: int|
        0 <= i < buffer.len() && #[trigger] anchored_at(buffer, marker, i, tail_filter) && t
            == token_text(buffer, i + marker.len());
    let start = i + marker.len();
    assert(buffer.subrange(i, start)[marker.len() - 1] == buffer[start - 1]);
    assert(run_at(buffer, start, tail_filter));
    law_runs_are_the_maximal_runs(buffer, tail_filter, t);
}

/// Whether the marker stands right before position `start`.
pub open spec fn behind_marker(buffer: Seq<u8>, marker: Seq<u8>, start: int) -> bool {
    marker.len() <= start <= buffer.len() && buffer.subrange(start - marker.len(), start) == marker
}

/// The tokens of the runs that start before position `n` right behind the
/// marker, in order.
pub open spec fn runs_behind(
    buffer: Seq<u8>,
    marker: Seq<u8>,
    n: nat,
    tail_filter: bool,
) -> Seq<Seq<char>>
    decreases n,
{
    if n == 0 {
        Seq::empty()
    } else {
        let rest = runs_behind(buffer, marker, (n - 1) as nat, tail_filter);
        if run_at(buffer, n - 1, tail_filter) && behind_marker(buffer, marker, n - 1) {
            rest.push(token_text(buffer, n - 1))
        } else {
            rest
        }
    }
}

proof fn lemma_no_room_for_marker(buffer: Seq<u8>, marker: Seq<u8>, n: nat, tail_filter: bool)
    requires
        n <= marker.len(),
    ensures
        runs_behind(buffer, marker, n, tail_filter) == Seq::<Seq<char>>::empty(),
    decreases n,
{
    if n > 0 {
        lemma_no_room_for_marker(buffer, marker, (n - 1) as nat, tail_filter);
    }
}

proof fn lemma_anchored_shift(buffer: Seq<u8>, marker: Seq<u8>, n: nat, tail_filter: bool)
    requires
        marker.len() > 0,
        !is_base64url(marker.last()),
    ensures
        anchored(buffer, marker, n, tail_filter) == runs_behind(
            buffer,
            marker,
            n + marker.len(),
            tail_filter,
        ),
    decreases n,
{
    if n == 0 {
        lemma_no_room_for_marker(buffer, marker, marker.len(), tail_filter);
    } else {
        lemma_anchored_shift(buffer, marker, (n - 1) as nat, tail_filter);
        let i = n - 1;
        let start = i + marker.len();
        if start <= buffer.len() && buffer.subrange(i, start) == marker {
            assert(buffer.subrange(i, start)[marker.len() - 1] == buffer[start - 1]);
        }
        assert(anchored_at(buffer, marker, i, tail_filter) <==> run_at(buffer, start, tail_filter)
            && behind_marker(buffer, marker, start));
        assert(((n + marker.len()) as nat - 1) as nat == (n - 1) as nat + marker.len());
    }
}

proof fn lemma_no_runs_past_the_end(
    buffer: Seq<u8>,
    marker: Seq<u8>,
    more: nat,
    tail_filter: bool,
)
    ensures
        runs_behind(buffer, marker, buffer.len() + more, tail_filter) == runs_behind(
            buffer,
            marker,
            buffer.len(),
            tail_filter,
        ),
    decreases more,
{
    if more > 0 {
        lemma_no_runs_past_the_end(buffer, marker, (more - 1) as nat, tail_filter);
        assert(!run_at(buffer, buffer.len() + more - 1, tail_filter));
    }
}

/// The anchored pass harvests, in order, exactly the runs that start right
/// behind the marker, where the marker ends outside the base64url alphabet.
pub proof fn law_anchored_tokens_are_the_runs_behind_the_marker(
    buffer: Seq<u8>,
    marker: Seq<u8>,
    tail_filter: bool,
)
    requires
        marker.len() > 0,
        !is_base64url(marker.last()),
    ensures
        anchored(buffer, marker, buffer.len(), tail_filter) == runs_behind(
            buffer,
            marker,
            buffer.len(),
            tail_filter,
        ),
{
    lemma_anchored_shift(buffer, marker, buffer.len(), tail_filter);
    lemma_no_runs_past_the_end(buffer, marker, marker.len(), tail_filter);
}

/// Dropping the tail filter only adds candidates.
pub proof fn law_tail_filter_only_narrows(buffer: Seq<u8>, t: Seq<char>)
    requires
        runs(buffer, buffer.len(), true).contains(t),
    ensures
        runs(buffer, buffer.len(), false).contains(t),
{
    law_runs_are_the_maximal_runs(buffer, true, t);
    let i = choose|i: int| #[trigger] run_at(buffer, i, true) && t == token_text(buffer, i);
    assert(run_at(buffer, i, false));
    law_runs_are_the_maximal_runs(buffer, false, t);
}

/// A launch token that stands alone in a buffer, with no base64url byte on
/// either side, is harvested, with the tail filter on or off.
pub proof fn law_lone_token_is_harvested(
    before: Seq<u8>,
    payload: Seq<u8>,
    after: Seq<u8>,
    tail_filter: bool,
)
    requires
        payload.len() == 32,
        before.len() > 0 ==> !is_base64url(before.last()),
        after.len() > 0 ==> !is_base64url(after[0]),
    ensures
        ({
            let buffer = before + encode_payload(payload) + after;
            runs(buffer, buffer.len(), tail_filter).contains(bytes_text(encode_payload(payload)))
        }),
{
    let e = encode_payload(payload);
    let buffer = before + e + after;
    let i = before.len() as int;
    law_every_payload_has_token_shape(payload);
    assert forall|k: int| i <= k < i + TOKEN_LEN implies is_base64url(#[trigger] buffer[k]) by {
        assert(buffer[k] == e[k - i]);
    }
    assert(buffer[i + TOKEN_LEN - 1] == e[TOKEN_LEN - 1]);
    assert(run_at(buffer, i, tail_filter));
    assert(buffer.subrange(i, i + TOKEN_LEN) =~= e);
    law_runs_are_the_maximal_runs(buffer, tail_filter, bytes_text(e));
}

/// A launch token right behind the marker is harvested by the anchored pass,
/// wherever the marker stands.
pub proof fn law_printed_token_is_harvested(
    before: Seq<u8>,
    marker: Seq<u8>,
    payload: Seq<u8>,
    after: Seq<u8>,
    tail_filter: bool,
)
    requires
        payload.len() == 32,
        after.len() > 0 ==> !is_base64url(after[0]),
    ensures
        ({
            let buffer = before + marker + encode_payload(payload) + after;
            anchored(buffer, marker, buffer.len(), tail_filter).contains(
                bytes_text(encode_payload(payload)),
            )
        }),
{
    let e = encode_payload(payload);
    let buffer = before + marker + e + after;
    let i = before.len() as int;
    let start = i + marker.len();
    law_every_payload_has_token_shape(payload);
    assert forall|k: int| start <= k < start + TOKEN_LEN implies is_base64url(
        #[trigger] buffer[k],
    ) by {
        assert(buffer[k] == e[k - start]);
    }
    assert(buffer[start + TOKEN_LEN - 1] == e[TOKEN_LEN - 1]);
    assert(buffer.subrange(i, start) =~= marker);
    assert(buffer.subrange(start, start + TOKEN_LEN) =~= e);
    assert(anchored_at(buffer, marker, i, tail_filter));
    lemma_anchored_members(buffer, marker, buffer.len(), tail_filter, bytes_text(e));
}

/// The alphabet has 64 characters, one for each value of six bits, and no two
/// values have the same.
pub proof fn law_the_alphabet_has_64_characters(v: int, w: int, b: u8)
    requires
        0 <= v < 64,
        0 <= w < 64,
    ensures
        is_base64url(base64url_char(v)),
        base64url_char(v) == base64url_char(w) ==> v == w,
        is_base64url(b) ==> exists|x: int| 0 <= x < 64 && b == #[trigger] base64url_char(x),
{
    if is_base64url(b) {
        let x = if 0x41 <= b <= 0x5a {
            b - 0x41
        } else if 0x61 <= b <= 0x7a {
            b - 0x61 + 26
        } else if 0x30 <= b <= 0x39 {
            b - 0x30 + 52
        } else if b == 0x2d {
            62
        } else {
            63
        };
        assert(0 <= x < 64 && b == base64url_char(x));
    }
}

/// Letters, digits, the minus and the underscore are in the alphabet. What
/// ends a token where it is printed or sent is not: a space, a quote, an
/// ampersand, an equals sign, a slash, a colon, a break or a zero byte.
pub proof fn law_what_ends_a_token_is_not_in_the_alphabet(b: u8)
    ensures
        b == 0x20 || b == 0x22 || b == 0x27 || b == 0x26 || b == 0x3d || b == 0x2f || b == 0x3a || b
            == 0x0d || b == 0x0a || b == 0x00 || b == 0x2b || b == 0x2e || b >= 0x80
            ==> !is_base64url(b),
        0x61 <= b <= 0x7a || 0x41 <= b <= 0x5a || 0x30 <= b <= 0x39 || b == 0x2d || b == 0x5f
            ==> is_base64url(b),
{
}

/// Bytes are read one character each, in order.
pub proof fn law_bytes_are_read_one_by_one(s: Seq<u8>, i: int)
    requires
        0 <= i < s.len(),
    ensures
        bytes_text(s).len() == s.len(),
        bytes_text(s)[i] as int == s[i],
{
}

/// A run of exactly 43 characters of the alphabet, with none on either side,
/// is harvested as it stands; with the filter, where its last character can
/// end a token. A longer run is not, as a whole or in part.
pub proof fn law_a_run_is_harvested_whole_or_not_at_all(
    before: Seq<u8>,
    run: Seq<u8>,
    after: Seq<u8>,
    tail_filter: bool,
    i: int,
)
    requires
        run.len() > 0,
        forall|k: int| 0 <= k < run.len() ==> is_base64url(#[trigger] run[k]),
        before.len() > 0 ==> !is_base64url(before.last()),
        after.len() > 0 ==> !is_base64url(after[0]),
    ensures
        run.len() == 43 && (tail_filter ==> is_tail(run.last())) ==> ({
            let buffer = before + run + after;
            runs(buffer, buffer.len(), tail_filter).contains(bytes_text(run))
        }),
        before.len() <= i < before.len() + run.len() && !(run.len() == 43 && i == before.len() && (
        tail_filter ==> is_tail(run.last()))) ==> !run_at(before + run + after, i, tail_filter),
{
    let buffer = before + run + after;
    let b = before.len() as int;
    let e = b + run.len();
    if run.len() == 43 && (tail_filter ==> is_tail(run.last())) {
        assert(buffer.subrange(b, b + TOKEN_LEN) =~= run);
        assert forall|k: int| b <= k < b + TOKEN_LEN implies is_base64url(#[trigger] buffer[k]) by {
            assert(buffer[k] == run[k - b]);
        }
        if e < buffer.len() {
            assert(buffer[e] == after[0]);
        }
        if b > 0 {
            assert(buffer[b - 1] == before.last());
        }
        assert(buffer[e - 1] == run.last());
        assert(run_at(buffer, b, tail_filter));
        law_runs_are_the_maximal_runs(buffer, tail_filter, bytes_text(run));
    }
    if b <= i < e && run_at(buffer, i, tail_filter) {
        if i > b {
            assert(buffer[i - 1] == run[i - 1 - b]);
        }
        assert(i == b);
        let end = i + TOKEN_LEN;
        if end < e {
            assert(buffer[end] == run[end - b]);
        }
        if end > e {
            assert(buffer[e] == after[0]);
            assert(is_base64url(buffer[e]));
        }
        assert(end == e);
        assert(buffer[end - 1] == run.last());
    }
}

} // verus!
