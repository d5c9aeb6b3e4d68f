//! Recovering the launch token of a running `dsh web` process.
//!
//! The reader of foreign memory and the sockets live outside; every decision
//! is here: which regions to read, how to cut them into chunks, which
//! candidates still need an exchange, whether an answer proves a candidate,
//! and in which order the passes run.

use vstd::hash_set::StringHashSet;
use vstd::prelude::*;

use crate::text::{cat, chars_of, decimal_string, find, is_at, join_strings, lower_chars, split_pieces};
use crate::token::{collect_anchored, collect_runs, Alphabets, TOKEN_LEN};

verus! {

/// Bytes per read. Each read also takes `TOKEN_LEN` bytes of the next chunk.
pub const CHUNK_BYTES: usize = 4194304;

/// Candidates that a worker gathers before it exchanges them.
pub const BATCH_SIZE: usize = 16;

/// Candidates that are exchanged at once.
pub const PROBE_LANES: usize = 8;

/// The most workers of one pass.
pub const MAX_WORKERS: usize = 8;

/// Response bytes after which the header is given up on.
pub const HEAD_LIMIT: usize = 16384;

/// State of a region whose pages are committed.
pub const MEM_COMMIT: u32 = 0x1000;

/// Type flag of a region that maps an image.
pub const MEM_IMAGE: u32 = 0x0100_0000;

/// Protection flag of a guard page.
pub const PAGE_GUARD: u32 = 0x100;

/// Protection of a page without access.
pub const PAGE_NOACCESS: u32 = 0x01;

// ---------------------------------------------------------------------------
// Regions
// ---------------------------------------------------------------------------

/// What the system says of one region of the address space.
#[derive(Clone, Copy)]
pub struct Region {
    pub base: usize,
    pub size: usize,
    pub state: u32,
    pub protect: u32,
    pub ty: u32,
}

impl Region {
    /// Committed, no guard page, and with some access.
    pub open spec fn readable(self) -> bool {
        &&& self.state == MEM_COMMIT
        &&& self.protect & PAGE_GUARD == 0
        &&& self.protect & 0xff != 0
        &&& self.protect & 0xff != PAGE_NOACCESS
    }

    /// A mapped image: executable code, which cannot hold a script string.
    pub open spec fn image(self) -> bool {
        self.ty & MEM_IMAGE != 0
    }

    /// The address behind the region, at most the last address.
    pub open spec fn next(self) -> int {
        if self.base + self.size > usize::MAX {
            usize::MAX as int
        } else {
            self.base + self.size
        }
    }

    /// Whether a pass reads the region.
    pub open spec fn wanted(self, skip_images: bool) -> bool {
        self.readable() && self.size > 0 && !(skip_images && self.image())
    }

    /// Whether a pass leaves the region out because it maps an image.
    pub open spec fn skipped(self, skip_images: bool) -> bool {
        self.readable() && self.size > 0 && skip_images && self.image()
    }
}

/// Whether the pages of a region can be read.
pub fn is_readable(info: &Region) -> (yes: bool)
    ensures
        yes == info.readable(),
{
    let protect: u32 = info.protect & 0xff;
    info.state == MEM_COMMIT && (info.protect & PAGE_GUARD) == 0 && protect != 0 && protect
        != PAGE_NOACCESS
}

/// The address to ask about next, after a region that was shown for an
/// address; `None` where the enumeration ends.
pub open spec fn survey_next(address: usize, info: Region) -> Option<int> {
    if info.next() > address {
        Some(info.next())
    } else {
        None
    }
}

/// The enumeration of a process's regions for one pass.
pub struct Survey {
    pub skip_images: bool,
    /// The address to ask about next.
    pub address: usize,
    /// Base and size of the regions to read.
    pub ranges: Vec<(usize, usize)>,
    pub images_skipped: usize,
    pub image_bytes: u64,
}

impl Survey {
    /// An enumeration that has seen nothing yet.
    pub fn new(skip_images: bool) -> (out: Survey)
        ensures
            out.skip_images == skip_images,
            out.address == 0,
            out.ranges@.len() == 0,
            out.images_skipped == 0,
            out.image_bytes == 0,
    {
        Survey { skip_images, address: 0, ranges: Vec::new(), images_skipped: 0, image_bytes: 0 }
    }

    /// Takes in the region at the current address. Returns whether the
    /// enumeration goes on; it does only as long as the address rises.
    pub fn step(&mut self, info: &Region) -> (more: bool)
        requires
            info.skipped(old(self).skip_images) ==> old(self).images_skipped < usize::MAX,
            info.skipped(old(self).skip_images) ==> old(self).image_bytes + info.size <= u64::MAX,
        ensures
            final(self).skip_images == old(self).skip_images,
            final(self).ranges@ == (if info.wanted(old(self).skip_images) {
                old(self).ranges@.push((info.base, info.size))
            } else {
                old(self).ranges@
            }),
            final(self).images_skipped == old(self).images_skipped + (if info.skipped(
                old(self).skip_images,
            ) {
                1int
            } else {
                0
            }),
            final(self).image_bytes == old(self).image_bytes + (if info.skipped(
                old(self).skip_images,
            ) {
                info.size as int
            } else {
                0
            }),
            match survey_next(old(self).address, *info) {
                Some(next) => more && final(self).address == next,
                None => !more && final(self).address == old(self).address,
            },
            more == (info.next() > old(self).address),
            final(self).address == (if more {
                info.next()
            } else {
                old(self).address as int
            }),
    {
        let next: usize = if info.size > usize::MAX - info.base {
            usize::MAX
        } else {
            info.base + info.size
        };
        if is_readable(info) && info.size > 0 {
            if self.skip_images && (info.ty & MEM_IMAGE) != 0 {
                self.images_skipped = self.images_skipped + 1;
                self.image_bytes = self.image_bytes + info.size as u64;
            } else {
                self.ranges.push((info.base, info.size));
            }
        }
        if next <= self.address {
            return false;
        }
        self.address = next;
        true
    }
}

/// The ranges that a pass reads, out of the regions it was shown.
pub open spec fn survey_ranges(infos: Seq<Region>, skip_images: bool) -> Seq<(usize, usize)>
    decreases infos.len(),
{
    if infos.len() == 0 {
        Seq::empty()
    } else {
        let rest = survey_ranges(infos.drop_last(), skip_images);
        if infos.last().wanted(skip_images) {
            rest.push((infos.last().base, infos.last().size))
        } else {
            rest
        }
    }
}

/// A pass reads every readable region it was shown, except mapped images
/// where it skips those, and it reads nothing else.
pub proof fn law_survey_reads_exactly_the_readable_regions(
    infos: Seq<Region>,
    skip_images: bool,
    base: usize,
    size: usize,
)
    ensures
        survey_ranges(infos, skip_images).contains((base, size)) <==> exists|i: int|
            0 <= i < infos.len() && #[trigger] infos[i].wanted(skip_images) && infos[i].base == base
                && infos[i].size == size,
    decreases infos.len(),
{
    if infos.len() > 0 {
        let front = infos.drop_last();
        let rest = survey_ranges(front, skip_images);
        let all = survey_ranges(infos, skip_images);
        let last = infos.len() - 1;
        law_survey_reads_exactly_the_readable_regions(front, skip_images, base, size);
        if all.contains((base, size)) {
            let k = choose|k: int| 0 <= k < all.len() && all[k] == (base, size);
            if k < rest.len() {
                assert(rest[k] == (base, size));
                assert(rest.contains((base, size)));
                let i = choose|i: int|
                    0 <= i < front.len() && #[trigger] front[i].wanted(skip_images)
                        && front[i].base == base && front[i].size == size;
                assert(infos[i].wanted(skip_images));
            } else {
                assert(infos[last].wanted(skip_images));
            }
        }
        if exists|i: int|
            0 <= i < infos.len() && #[trigger] infos[i].wanted(skip_images) && infos[i].base == base
                && infos[i].size == size {
            let i = choose|i: int|
                0 <= i < infos.len() && #[trigger] infos[i].wanted(skip_images) && infos[i].base
                    == base && infos[i].size == size;
            if i < last {
                assert(front[i].wanted(skip_images));
                assert(rest.contains((base, size)));
                let k = choose|k: int| 0 <= k < rest.len() && rest[k] == (base, size);
                assert(all[k] == (base, size));
            } else {
                assert(all[rest.len() as int] == (base, size));
            }
        }
    }
}

// ---------------------------------------------------------------------------
// Chunks
// ---------------------------------------------------------------------------

/// How many bytes are read at `offset` of a region of `size` bytes.
pub open spec fn chunk_len(size: int, offset: int) -> int {
    if size - offset < CHUNK_BYTES + TOKEN_LEN {
        size - offset
    } else {
        CHUNK_BYTES + TOKEN_LEN
    }
}

/// Whether a region of `size` bytes is read at `offset`.
pub open spec fn chunk_starts(size: int, offset: int) -> bool {
    0 <= offset < size && offset % (CHUNK_BYTES as int) == 0
}

/// The offset of the chunk after the one at `offset`, if there is one.
pub open spec fn chunk_next(size: int, offset: int) -> Option<int> {
    if offset + CHUNK_BYTES < size {
        Some(offset + CHUNK_BYTES)
    } else {
        None
    }
}

/// The offset that a reader of the region reaches after `k` steps from offset 0.
pub open spec fn chunk_walk(size: int, k: nat) -> Option<int>
    decreases k,
{
    if k == 0 {
        if size > 0 {
            Some(0)
        } else {
            None
        }
    } else {
        match chunk_walk(size, (k - 1) as nat) {
            Some(offset) => chunk_next(size, offset),
            None => None,
        }
    }
}

/// How many bytes to read at `offset` of a region of `size` bytes.
pub fn chunk_want(size: usize, offset: usize) -> (want: usize)
    requires
        offset < size,
    ensures
        want == chunk_len(size as int, offset as int),
        0 < want <= CHUNK_BYTES + TOKEN_LEN,
{
    let left: usize = size - offset;
    if left < CHUNK_BYTES + TOKEN_LEN {
        left
    } else {
        CHUNK_BYTES + TOKEN_LEN
    }
}

/// The offset of the chunk after the one at `offset`, if there is one.
pub fn chunk_after(size: usize, offset: usize) -> (next: Option<usize>)
    requires
        offset < size,
    ensures
        match next {
            Some(n) => chunk_next(size as int, offset as int) == Some(n as int) && n < size,
            None => chunk_next(size as int, offset as int) is None,
        },
{
    if size - offset > CHUNK_BYTES {
        Some(offset + CHUNK_BYTES)
    } else {
        None
    }
}

/// A token that straddles a chunk boundary is still seen whole: every stretch
/// of the token length lies within a single read.
pub proof fn law_no_token_is_cut(size: int, p: int)
    requires
        0 <= p,
        p + TOKEN_LEN <= size,
    ensures
        exists|offset: int| #[trigger]
            chunk_starts(size, offset) && offset <= p && p + TOKEN_LEN <= offset + chunk_len(
                size,
                offset,
            ),
{
    let offset = p - p % (CHUNK_BYTES as int);
    assert(offset % (CHUNK_BYTES as int) == 0);
    assert(chunk_starts(size, offset));
}

/// The bytes of a region that are read at an offset.
pub open spec fn chunk_of(memory: Seq<u8>, offset: int) -> Seq<u8> {
    memory.subrange(offset, offset + chunk_len(memory.len() as int, offset))
}

/// A token that stands anywhere in a region, with nothing of its alphabet on
/// either side, is harvested from one of the region's chunks.
pub proof fn law_every_token_of_a_region_is_harvested(
    memory: Seq<u8>,
    p: int,
    tail_filter: bool,
)
    requires
        crate::token::run_at(memory, p, tail_filter),
    ensures
        exists|offset: int| #[trigger]
            chunk_starts(memory.len() as int, offset) && crate::token::runs(
                chunk_of(memory, offset),
                chunk_of(memory, offset).len(),
                tail_filter,
            ).contains(crate::token::token_text(memory, p)),
{
    let size = memory.len() as int;
    law_no_token_is_cut(size, p);
    let offset = choose|offset: int| #[trigger]
        chunk_starts(size, offset) && offset <= p && p + TOKEN_LEN <= offset + chunk_len(
            size,
            offset,
        );
    let chunk = chunk_of(memory, offset);
    let i = p - offset;
    assert forall|k: int| i <= k < i + TOKEN_LEN implies crate::token::is_base64url(
        #[trigger] chunk[k],
    ) by {
        assert(chunk[k] == memory[k + offset]);
    }
    assert(chunk[i + TOKEN_LEN - 1] == memory[p + TOKEN_LEN - 1]);
    assert(i > 0 ==> chunk[i - 1] == memory[p - 1]);
    assert(i + TOKEN_LEN < chunk.len() ==> chunk[i + TOKEN_LEN] == memory[p + TOKEN_LEN]);
    assert(crate::token::run_at(chunk, i, tail_filter));
    assert(chunk.subrange(i, i + TOKEN_LEN) =~= memory.subrange(p, p + TOKEN_LEN));
    crate::token::law_runs_are_the_maximal_runs(
        chunk,
        tail_filter,
        crate::token::token_text(memory, p),
    );
}

/// A reader that starts at offset 0 and goes from chunk to chunk reaches
/// every chunk of the region, and nothing but chunks.
pub proof fn law_chunk_walk_reaches_every_chunk(size: int, offset: int)
    ensures
        chunk_starts(size, offset) <==> exists|k: nat| #[trigger]
            chunk_walk(size, k) == Some(offset),
{
    if chunk_starts(size, offset) {
        let k = (offset / (CHUNK_BYTES as int)) as nat;
        lemma_chunk_walk(size, k);
        assert(chunk_walk(size, k) == Some(offset));
    }
    if exists|k: nat| #[trigger] chunk_walk(size, k) == Some(offset) {
        let k = choose|k: nat| #[trigger] chunk_walk(size, k) == Some(offset);
        lemma_chunk_walk(size, k);
    }
}

proof fn lemma_chunk_walk(size: int, k: nat)
    ensures
        chunk_walk(size, k) == (if k * CHUNK_BYTES < size {
            Some(k * CHUNK_BYTES)
        } else {
            None::<int>
        }),
    decreases k,
{
    if k > 0 {
        lemma_chunk_walk(size, (k - 1) as nat);
    }
}

/// Harvests the candidates of one chunk that was read.
pub fn harvest(
    tables: &Alphabets,
    anchor: &Option<Vec<u8>>,
    chunk: &[u8],
    tail_filter: bool,
    batch: &mut Vec<String>,
)
    ensures
        crate::text::strings(final(batch)@) == crate::text::strings(old(batch)@) + (match anchor {
            Some(marker) => crate::token::anchored(chunk@, marker@, chunk@.len(), tail_filter),
            None => crate::token::runs(chunk@, chunk@.len(), tail_filter),
        }),
{
    match anchor {
        Some(marker) => collect_anchored(tables, chunk, marker.as_slice(), tail_filter, batch),
        None => collect_runs(tables, chunk, tail_filter, batch),
    }
}

/// Whether a batch is large enough to be exchanged.
pub fn batch_due(batch: &Vec<String>) -> (due: bool)
    ensures
        due == (batch@.len() >= BATCH_SIZE),
{
    batch.len() >= BATCH_SIZE
}

/// The number of lanes that exchange `fresh` candidates.
pub fn lanes(fresh: usize) -> (n: usize)
    ensures
        n == (if fresh < PROBE_LANES {
            fresh
        } else {
            PROBE_LANES
        }),
{
    if fresh < PROBE_LANES {
        fresh
    } else {
        PROBE_LANES
    }
}

/// The number of workers on a machine that runs `parallel` threads at once;
/// one where that number is unknown.
pub fn workers(parallel: Option<usize>) -> (n: usize)
    ensures
        n == (match parallel {
            Some(p) => if p < MAX_WORKERS {
                p
            } else {
                MAX_WORKERS
            },
            None => 1,
        }),
{
    match parallel {
        Some(p) => if p < MAX_WORKERS {
            p
        } else {
            MAX_WORKERS
        },
        None => 1,
    }
}

// ---------------------------------------------------------------------------
// Candidates
// ---------------------------------------------------------------------------

/// The candidates among the first `n` of a batch that were not seen before,
/// each once, in order.
pub open spec fn unseen(
    seen: Set<Seq<char>>,
    batch: Seq<Seq<char>>,
    n: nat,
) -> Seq<Seq<char>>
    decreases n,
{
    if n == 0 {
        Seq::empty()
    } else {
        let rest = unseen(seen, batch, (n - 1) as nat);
        let candidate = batch[n - 1];
        if seen.contains(candidate) || rest.contains(candidate) {
            rest
        } else {
            rest.push(candidate)
        }
    }
}

/// The candidates that some worker of a pass has taken up.
pub struct Seen {
    set: StringHashSet,
}

impl Seen {
    /// The candidates.
    pub closed spec fn view(&self) -> Set<Seq<char>> {
        self.set@
    }

    /// None yet.
    pub fn new() -> (out: Seen)
        ensures
            out@ == Set::<Seq<char>>::empty(),
    {
        Seen { set: StringHashSet::new() }
    }
}

/// Picks the candidates of a batch that no worker has exchanged yet, and
/// marks them as seen.
pub fn fresh_candidates(seen: &mut Seen, batch: &Vec<String>) -> (fresh: Vec<String>)
    ensures
        crate::text::strings(fresh@) == unseen(
            old(seen)@,
            crate::text::strings(batch@),
            batch@.len(),
        ),
        final(seen)@ == old(seen)@.union(crate::text::strings(fresh@).to_set()),
{
    let mut fresh: Vec<String> = Vec::new();
    let mut i: usize = 0;
    let ghost start = seen@;
    let ghost all = crate::text::strings(batch@);
    assert(crate::text::strings(fresh@) =~= Seq::<Seq<char>>::empty());
    assert(start =~= start.union(crate::text::strings(fresh@).to_set()));
    while i < batch.len()
        invariant
            i <= batch@.len(),
            start == old(seen)@,
            all == crate::text::strings(batch@),
            crate::text::strings(fresh@) == unseen(start, all, i as nat),
            seen@ == start.union(crate::text::strings(fresh@).to_set()),
        decreases batch@.len() - i,
    {
        let ghost before = crate::text::strings(fresh@);
        let ghost marked = seen@;
        assert(all[i as int] == batch@[i as int]@);
        if seen.set.insert(batch[i].clone()) {
            fresh.push(batch[i].clone());
            assert(crate::text::strings(fresh@) =~= before.push(all[i as int]));
            proof {
                before.lemma_push_to_set_commute(all[i as int]);
            }
            assert(seen@ =~= start.union(crate::text::strings(fresh@).to_set()));
        } else {
            assert(seen@ =~= marked);
        }
        i = i + 1;
    }
    fresh
}

proof fn lemma_unseen(seen: Set<Seq<char>>, batch: Seq<Seq<char>>, n: nat)
    requires
        n <= batch.len(),
    ensures
        unseen(seen, batch, n).no_duplicates(),
        forall|k: int|
            0 <= k < unseen(seen, batch, n).len() ==> !seen.contains(
                #[trigger] unseen(seen, batch, n)[k],
            ),
        forall|j: int|
            0 <= j < n ==> seen.contains(#[trigger] batch[j]) || unseen(seen, batch, n).contains(
                batch[j],
            ),
    decreases n,
{
    if n > 0 {
        let m = (n - 1) as nat;
        lemma_unseen(seen, batch, m);
        let rest = unseen(seen, batch, m);
        let all = unseen(seen, batch, n);
        assert forall|j: int| 0 <= j < n implies seen.contains(#[trigger] batch[j]) || all.contains(
            batch[j],
        ) by {
            if j < m {
                if !seen.contains(batch[j]) {
                    let k = choose|k: int| 0 <= k < rest.len() && rest[k] == batch[j];
                    assert(all[k] == batch[j]);
                }
            } else if all.len() > rest.len() {
                assert(all[rest.len() as int] == batch[j]);
            }
        }
        if all.len() > rest.len() {
            assert forall|a: int, b: int|
                0 <= a < all.len() && 0 <= b < all.len() && a != b implies all[a] != all[b] by {
                if a < rest.len() && b < rest.len() {
                    assert(rest[a] != rest[b]);
                } else if a < rest.len() {
                    assert(rest.contains(rest[a]));
                } else {
                    assert(rest.contains(rest[b]));
                }
            }
        }
    }
}

/// No candidate is exchanged twice: what a batch still has to exchange was
/// never seen before and holds nothing twice, and afterwards the whole batch
/// counts as seen.
pub proof fn law_no_candidate_is_exchanged_twice(seen: Set<Seq<char>>, batch: Seq<Seq<char>>)
    ensures
        ({
            let fresh = unseen(seen, batch, batch.len());
            &&& fresh.no_duplicates()
            &&& forall|k: int| 0 <= k < fresh.len() ==> !seen.contains(#[trigger] fresh[k])
            &&& forall|j: int|
                0 <= j < batch.len() ==> seen.union(fresh.to_set()).contains(#[trigger] batch[j])
        }),
{
    lemma_unseen(seen, batch, batch.len());
}

// ---------------------------------------------------------------------------
// The exchange
// ---------------------------------------------------------------------------

/// The request that exchanges a candidate for a browser session.
pub open spec fn probe_request_text(token: Seq<char>, port: u16) -> Seq<char> {
    "GET /?token="@ + token + " HTTP/1.1\r\nHost: 127.0.0.1:"@ + crate::text::decimal(port as nat)
        + "\r\nAccept: */*\r\nConnection: close\r\n\r\n"@
}

/// The request that exchanges a candidate for a browser session. The `Host`
/// header is mandatory: the cookie name and its audience derive from it.
pub fn probe_request(token: &str, port: u16) -> (out: String)
    ensures
        out@ == probe_request_text(token@, port),
{
    let mut out = cat("GET /?token=", token);
    out.append(" HTTP/1.1\r\nHost: 127.0.0.1:");
    out.append(decimal_string(port as u64).as_str());
    out.append("\r\nAccept: */*\r\nConnection: close\r\n\r\n");
    out
}

/// Bytes as Latin-1 characters.
pub fn latin1(bytes: &[u8]) -> (out: Vec<char>)
    ensures
        out@ == crate::token::bytes_text(bytes@),
{
    let mut out: Vec<char> = Vec::new();
    let mut i: usize = 0;
    while i < bytes.len()
        invariant
            i <= bytes@.len(),
            out@ == crate::token::bytes_text(bytes@.take(i as int)),
        decreases bytes@.len() - i,
    {
        out.push(bytes[i] as char);
        i = i + 1;
        assert(out@ =~= crate::token::bytes_text(bytes@.take(i as int)));
    }
    assert(bytes@.take(bytes@.len() as int) =~= bytes@);
    out
}

/// Whether the response header is complete, or too long to be waited for.
pub open spec fn head_complete(head: Seq<u8>) -> bool {
    crate::text::contains(crate::token::bytes_text(head), "\r\n\r\n"@) || head.len() > HEAD_LIMIT
}

/// Whether to stop reading the response.
pub fn head_done(head: &[u8]) -> (done: bool)
    ensures
        done == head_complete(head@),
{
    find(&latin1(head), &chars_of("\r\n\r\n")).is_some() || head.len() > HEAD_LIMIT
}

/// A header line that sets a `dsh-auth-` cookie.
pub open spec fn is_session_cookie(line: Seq<char>) -> bool {
    let l = crate::text::lower(line);
    crate::text::starts_with(l, "set-cookie:"@) && crate::text::contains(l, "dsh-auth-"@)
}

/// Where the header lines of an answer end: at the first empty line from `i`
/// on. What comes behind it is the body.
pub open spec fn header_end(parts: Seq<Seq<char>>, i: int) -> int
    decreases parts.len() - i,
{
    if i < 0 || i >= parts.len() || parts[i].len() == 0 {
        i
    } else {
        header_end(parts, i + 1)
    }
}

/// A `303` answer with a header line that sets a `dsh-auth-` cookie. What the
/// body holds does not matter.
pub open spec fn mints_session(head: Seq<u8>) -> bool {
    let parts = crate::text::pieces(crate::token::bytes_text(head), "\r\n"@);
    &&& crate::text::starts_with(parts[0], "HTTP/1.1 303"@) || crate::text::starts_with(
        parts[0],
        "HTTP/1.0 303"@,
    )
    &&& exists|i: int| 0 < i < header_end(parts, 0) && is_session_cookie(#[trigger] parts[i])
}

/// Whether an answer proves the candidate: status `303` and a header line with
/// a `dsh-auth-` cookie. Every other candidate is answered `401`.
pub fn session_minted(head: &[u8]) -> (yes: bool)
    ensures
        yes == mints_session(head@),
{
    let crlf = chars_of("\r\n");
    proof {
        reveal_strlit("\r\n");
    }
    let lines = split_pieces(&latin1(head), &crlf);
    let ghost parts = crate::text::texts(lines@);
    if lines.len() == 0 {
        proof {
            let s = crate::token::bytes_text(head@);
            assert(crate::text::pieces_from(s, crlf@, 0).len() > 0) by {
                crate::text::lemma_index_from(s, crlf@, 0);
            }
        }
        return false;
    }
    assert(parts[0] == lines@[0]@);
    if !is_at(&lines[0], &chars_of("HTTP/1.1 303"), 0) && !is_at(
        &lines[0],
        &chars_of("HTTP/1.0 303"),
        0,
    ) {
        return false;
    }
    let name = chars_of("set-cookie:");
    let session = chars_of("dsh-auth-");
    proof {
        reveal_strlit("HTTP/1.1 303");
        reveal_strlit("HTTP/1.0 303");
    }
    let mut i: usize = 1;
    while i < lines.len() && lines[i].len() > 0
        invariant
            1 <= i <= lines@.len(),
            parts == crate::text::texts(lines@),
            parts == crate::text::pieces(crate::token::bytes_text(head@), "\r\n"@),
            crate::text::starts_with(parts[0], "HTTP/1.1 303"@) || crate::text::starts_with(
                parts[0],
                "HTTP/1.0 303"@,
            ),
            name@ == "set-cookie:"@,
            session@ == "dsh-auth-"@,
            header_end(parts, i as int) == header_end(parts, 0),
            forall|k: int| 0 < k < i ==> !is_session_cookie(#[trigger] parts[k]),
        decreases lines@.len() - i,
    {
        let line = lower_chars(&lines[i]);
        assert(parts[i as int] == lines@[i as int]@);
        if is_at(&line, &name, 0) && find(&line, &session).is_some() {
            proof {
                lemma_header_end(parts, i + 1);
            }
            assert(is_session_cookie(parts[i as int]));
            return true;
        }
        i = i + 1;
    }
    assert(i < lines@.len() ==> parts[i as int] == lines@[i as int]@);
    assert(header_end(parts, 0) == i);
    false
}

proof fn lemma_header_end(parts: Seq<Seq<char>>, i: int)
    requires
        0 <= i <= parts.len(),
    ensures
        i <= header_end(parts, i) <= parts.len(),
    decreases parts.len() - i,
{
    if i < parts.len() && parts[i].len() > 0 {
        lemma_header_end(parts, i + 1);
    }
}

/// A candidate on its way to the server.
pub struct Probe {
    token: String,
    port: u16,
}

impl Probe {
    /// The candidate.
    pub closed spec fn token(&self) -> Seq<char> {
        self.token@
    }

    /// The port that it goes to.
    pub closed spec fn port(&self) -> u16 {
        self.port
    }

    /// Takes up a candidate.
    pub fn new(token: &str, port: u16) -> (out: Probe)
        ensures
            out.token() == token@,
            out.port() == port,
    {
        Probe { token: token.to_string(), port }
    }

    /// The request that is sent for it.
    pub fn request(&self) -> (out: String)
        ensures
            out@ == probe_request_text(self.token(), self.port()),
    {
        probe_request(self.token.as_str(), self.port)
    }

    /// Judges the answer to that request, where there was one: the candidate
    /// is accepted exactly where the answer mints a session.
    pub fn judge(self, answer: Option<Vec<u8>>) -> (out: Option<Accepted>)
        ensures
            match (answer, out) {
                (Some(head), Some(hit)) => mints_session(head@) && hit.token() == self.token()
                    && hit.answer() == head@,
                (Some(head), None) => !mints_session(head@),
                (None, hit) => hit is None,
            },
    {
        match answer {
            Some(head) => if session_minted(head.as_slice()) {
                Some(Accepted { token: self.token, head })
            } else {
                None
            },
            None => None,
        }
    }
}

/// A candidate that the server has accepted, with the answer that shows it.
/// There is no other way to one than through a judged answer.
pub struct Accepted {
    token: String,
    head: Vec<u8>,
}

impl Accepted {
    /// The token.
    pub closed spec fn token(&self) -> Seq<char> {
        self.token@
    }

    /// The answer of the server to it.
    pub closed spec fn answer(&self) -> Seq<u8> {
        self.head@
    }

    /// The answer has minted a session.
    #[verifier::type_invariant]
    pub open spec fn shown(&self) -> bool {
        mints_session(self.answer())
    }
}

// ---------------------------------------------------------------------------
// The passes
// ---------------------------------------------------------------------------

/// The `token=` of the printed launch URL.
pub fn token_anchor() -> (marker: Vec<u8>)
    ensures
        crate::token::bytes_text(marker@) == "token="@,
        marker@.len() > 0,
        !crate::token::is_base64url(marker@.last()),
{
    let mut marker: Vec<u8> = Vec::new();
    marker.push(0x74);
    marker.push(0x6f);
    marker.push(0x6b);
    marker.push(0x65);
    marker.push(0x6e);
    marker.push(0x3d);
    proof {
        reveal_strlit("token=");
    }
    assert(crate::token::bytes_text(marker@) =~= "token="@);
    marker
}

/// How one pass over the process reads.
#[derive(Clone, Copy, PartialEq, Eq, Structural)]
pub struct Pass {
    /// Only what stands behind the `token=` of the printed URL.
    pub anchored: bool,
    /// Leave mapped images out.
    pub skip_images: bool,
    /// Require a last character that a 32-byte payload can have.
    pub tail_filter: bool,
}

/// The passes in order, the cheapest and most specific first.
pub open spec fn pass_plan(index: int) -> Option<Pass> {
    if index == 0 {
        Some(Pass { anchored: true, skip_images: true, tail_filter: true })
    } else if index == 1 {
        Some(Pass { anchored: false, skip_images: true, tail_filter: true })
    } else if index == 2 {
        Some(Pass { anchored: false, skip_images: false, tail_filter: true })
    } else if index == 3 {
        Some(Pass { anchored: false, skip_images: false, tail_filter: false })
    } else {
        None
    }
}

/// Whatever one pass reads and accepts, each later unanchored pass reads and
/// accepts too: the passes only widen.
pub proof fn law_passes_only_widen(i: int, j: int, info: Region)
    requires
        0 <= i < j < 4,
    ensures
        pass_plan(i) matches Some(a) && pass_plan(j) matches Some(b) && !b.anchored && (info.wanted(
            a.skip_images,
        ) ==> info.wanted(b.skip_images)) && (b.tail_filter ==> a.tail_filter),
{
}

/// The result of one recovery attempt.
pub enum Outcome {
    /// A candidate that was exchanged for a browser session.
    Found { token: String, stats: String },
    /// Nothing verified, and what was tried.
    NotFound { detail: String },
}

/// The report line of one pass.
pub open spec fn pass_line(index: int, anchored: bool, stats: Seq<char>) -> Seq<char> {
    "pass"@ + crate::text::decimal((index + 1) as nat) + "["@ + (if anchored {
        "anchor"@
    } else {
        "runs"@
    }) + "] "@ + stats
}

/// How a recovery attempt stands after a pass.
pub enum RecoveryVerdict {
    Found,
    NotFound,
    GoOn,
}

/// How a recovery attempt stands after a pass, by its position, that had a hit
/// or not.
pub open spec fn recovery_verdict(index: int, hit: bool) -> RecoveryVerdict {
    if hit {
        RecoveryVerdict::Found
    } else if pass_plan(index + 1) is None {
        RecoveryVerdict::NotFound
    } else {
        RecoveryVerdict::GoOn
    }
}

/// A recovery attempt: the passes that have been made so far.
pub struct Recovery {
    report: Vec<String>,
}

impl Recovery {
    /// The report lines of the passes made so far.
    pub closed spec fn lines(self) -> Seq<Seq<char>> {
        crate::text::strings(self.report@)
    }

    /// The number of passes made so far.
    pub open spec fn done(self) -> int {
        self.lines().len() as int
    }

    /// An attempt before its first pass.
    pub fn new() -> (out: Recovery)
        ensures
            out.lines() == Seq::<Seq<char>>::empty(),
    {
        let out = Recovery { report: Vec::new() };
        assert(out.lines() =~= Seq::<Seq<char>>::empty());
        out
    }

    /// The pass to make next.
    pub fn next_pass(&self) -> (pass: Option<Pass>)
        ensures
            pass == pass_plan(self.done()),
    {
        let n: usize = self.report.len();
        if n == 0 {
            Some(Pass { anchored: true, skip_images: true, tail_filter: true })
        } else if n == 1 {
            Some(Pass { anchored: false, skip_images: true, tail_filter: true })
        } else if n == 2 {
            Some(Pass { anchored: false, skip_images: false, tail_filter: true })
        } else if n == 3 {
            Some(Pass { anchored: false, skip_images: false, tail_filter: false })
        } else {
            None
        }
    }

    /// Takes in the result of the pass that `next_pass` named: the candidate
    /// that was accepted, if any, and the statistics. Returns the outcome
    /// once there is one: with the first hit, or when no pass is left. A token
    /// that is found is one whose answer has minted a session.
    pub fn finish_pass(&mut self, hit: Option<Accepted>, stats: &str) -> (outcome: Option<Outcome>)
        requires
            pass_plan(old(self).done()) is Some,
        ensures
            final(self).lines() == old(self).lines().push(
                pass_line(old(self).done(), pass_plan(old(self).done())->0.anchored, stats@),
            ),
            match recovery_verdict(old(self).done(), hit is Some) {
                RecoveryVerdict::Found => outcome matches Some(Outcome::Found { .. }),
                RecoveryVerdict::NotFound => outcome matches Some(Outcome::NotFound { .. }),
                RecoveryVerdict::GoOn => outcome is None,
            },
            match hit {
                Some(t) => mints_session(t.answer()) && (outcome matches Some(
                    Outcome::Found { token, stats: all },
                ) && token@ == t.token() && all@ == crate::text::join(final(self).lines(), "; "@)),
                None => if pass_plan(final(self).done()) is None {
                    outcome matches Some(Outcome::NotFound { detail }) && detail@
                        == crate::text::join(final(self).lines(), "; "@)
                } else {
                    outcome is None
                },
            },
    {
        let n: usize = self.report.len();
        let mut line = cat("pass", decimal_string((n + 1) as u64).as_str());
        line.append("[");
        line.append(
            if n == 0 {
                "anchor"
            } else {
                "runs"
            },
        );
        line.append("] ");
        line.append(stats);
        self.report.push(line);
        assert(self.lines() =~= old(self).lines().push(
            pass_line(old(self).done(), pass_plan(old(self).done())->0.anchored, stats@),
        ));
        match hit {
            Some(accepted) => {
                proof {
                    use_type_invariant(&accepted);
                }
                Some(
                    Outcome::Found {
                        token: accepted.token,
                        stats: join_strings(self.report.as_slice(), "; "),
                    },
                )
            },
            None => if n + 1 == 4 {
                Some(Outcome::NotFound { detail: join_strings(self.report.as_slice(), "; ") })
            } else {
                None
            },
        }
    }
}

/// The outcome where the process cannot be opened.
pub fn open_failed(error: u32) -> (outcome: Outcome)
    ensures
        outcome matches Outcome::NotFound { detail } && detail@ == "OpenProcess 失败(Win32 错误 "@
            + crate::text::decimal(error as nat) + "), 目标进程可能属于其他用户或已退出"@,
{
    let mut detail = cat("OpenProcess 失败(Win32 错误 ", decimal_string(error as u64).as_str());
    detail.append("), 目标进程可能属于其他用户或已退出");
    Outcome::NotFound { detail }
}

/// The outcome on a system without a memory reader.
pub fn unsupported() -> (outcome: Outcome)
    ensures
        outcome matches Outcome::NotFound { detail } && detail@ == "内存恢复仅 Windows 可用"@,
{
    Outcome::NotFound { detail: "内存恢复仅 Windows 可用".to_string() }
}

// ---------------------------------------------------------------------------
// What the exchange guarantees
// ---------------------------------------------------------------------------

/// Whether a character is a letter given in lower case, capital or not, or
/// exactly the given character where that is no letter.
pub open spec fn is_letter_of(c: char, small: char) -> bool {
    c == small || 0x41 <= c as int <= 0x5a && c as int + 32 == small as int
}

/// Whether a word, given without capitals, is read at a position of a line,
/// where capitals do not matter.
pub open spec fn reads_at(line: Seq<char>, at: int, word: Seq<char>) -> bool {
    &&& 0 <= at
    &&& at + word.len() <= line.len()
    &&& forall|k: int| 0 <= k < word.len() ==> is_letter_of(line[at + k], #[trigger] word[k])
}

/// Whether a header line sets a session cookie: it is a `Set-Cookie` header
/// with `dsh-auth-` somewhere in it.
pub open spec fn sets_session(line: Seq<char>) -> bool {
    reads_at(line, 0, "set-cookie:"@) && exists|at: int| #[trigger] reads_at(line, at, "dsh-auth-"@)
}

proof fn lemma_reads_at(line: Seq<char>, at: int, word: Seq<char>)
    requires
        forall|k: int| 0 <= k < word.len() ==> !(0x41 <= (#[trigger] word[k]) as int <= 0x5a),
    ensures
        crate::text::occurs_at(crate::text::lower(line), word, at) <==> reads_at(line, at, word),
{
    let l = crate::text::lower(line);
    if 0 <= at && at + word.len() <= line.len() {
        let piece = l.subrange(at, at + word.len());
        if piece == word {
            assert forall|k: int| 0 <= k < word.len() implies is_letter_of(
                line[at + k],
                #[trigger] word[k],
            ) by {
                assert(piece[k] == word[k]);
                crate::text::law_lower_case_changes_capitals_only(line, at + k);
            }
        }
        if reads_at(line, at, word) {
            assert forall|k: int| 0 <= k < word.len() implies piece[k] == word[k] by {
                assert(is_letter_of(line[at + k], word[k]));
                crate::text::law_lower_case_changes_capitals_only(line, at + k);
            }
            assert(piece =~= word);
        }
    }
}

proof fn lemma_sets_session(line: Seq<char>)
    ensures
        is_session_cookie(line) <==> sets_session(line),
{
    reveal_strlit("set-cookie:");
    reveal_strlit("dsh-auth-");
    let l = crate::text::lower(line);
    let mark = "dsh-auth-"@;
    lemma_reads_at(line, 0, "set-cookie:"@);
    crate::text::lemma_index_from(l, mark, 0);
    if crate::text::contains(l, mark) {
        lemma_reads_at(line, crate::text::index_of(l, mark)->0, mark);
    }
    if exists|at: int| #[trigger] reads_at(line, at, mark) {
        let at = choose|at: int| #[trigger] reads_at(line, at, mark);
        lemma_reads_at(line, at, mark);
    }
}

proof fn lemma_header_end_at(parts: Seq<Seq<char>>, i: int, n: int)
    requires
        0 <= i <= n <= parts.len(),
        forall|k: int| i <= k < n ==> (#[trigger] parts[k]).len() > 0,
        n == parts.len() || parts[n].len() == 0,
    ensures
        header_end(parts, i) == n,
    decreases n - i,
{
    if i < n {
        assert(parts[i].len() > 0);
        lemma_header_end_at(parts, i + 1, n);
    }
}

/// An answer proves a candidate exactly where its status is `303` and any of
/// its header lines, wherever it stands among them, sets a session cookie.
/// Header lines end at the first empty line, or where the answer ends; what
/// the body holds does not matter.
pub proof fn law_any_header_line_may_set_the_session(
    head: Seq<u8>,
    status: Seq<char>,
    headers: Seq<Seq<char>>,
    rest: Seq<char>,
)
    requires
        crate::token::bytes_text(head) == crate::text::join(seq![status] + headers, "\r\n"@) + rest,
        rest.len() == 0 || rest == "\r\n"@ || exists|body: Seq<char>|
            rest == #[trigger] ("\r\n\r\n"@ + body),
        status.len() > 0,
        crate::text::is_free_of(status, "\r\n"@),
        forall|k: int|
            0 <= k < headers.len() ==> (#[trigger] headers[k]).len() > 0 && crate::text::is_free_of(
                headers[k],
                "\r\n"@,
            ),
    ensures
        mints_session(head) <==> {
            &&& status.len() >= 12
            &&& status.take(12) == "HTTP/1.1 303"@ || status.take(12) == "HTTP/1.0 303"@
            &&& exists|i: int| 0 <= i < headers.len() && sets_session(#[trigger] headers[i])
        },
{
    let sep = "\r\n"@;
    reveal_strlit("\r\n");
    reveal_strlit("\r\n\r\n");
    reveal_strlit("HTTP/1.1 303");
    reveal_strlit("HTTP/1.0 303");
    let lines = seq![status] + headers;
    let parts = crate::text::pieces(crate::token::bytes_text(head), sep);
    assert forall|k: int| 0 <= k < lines.len() implies crate::text::is_free_of(
        #[trigger] lines[k],
        sep,
    ) && lines[k].len() > 0 by {
        if k > 0 {
            assert(lines[k] == headers[k - 1]);
        }
    }
    if rest.len() == 0 {
        assert(crate::text::join(lines, sep) + rest =~= crate::text::join(lines, sep));
        crate::text::law_splitting_undoes_joining(lines, sep);
        assert(parts == lines);
    } else if rest == sep {
        let none = Seq::<char>::empty();
        let all = lines + seq![none];
        crate::text::law_joins_are_joined(lines, seq![none], sep);
        assert(crate::text::join(seq![none], sep) =~= none);
        assert(crate::text::join(all, sep) =~= crate::text::join(lines, sep) + rest);
        assert forall|k: int| 0 <= k < all.len() implies crate::text::is_free_of(
            #[trigger] all[k],
            sep,
        ) by {
            if k < lines.len() {
                assert(all[k] == lines[k]);
            }
        }
        crate::text::law_splitting_undoes_joining(all, sep);
        assert(parts == all);
    } else {
        let body = choose|body: Seq<char>| rest == #[trigger] ("\r\n\r\n"@ + body);
        assert("\r\n\r\n"@ =~= sep + sep);
        let tail = crate::text::pieces(body, sep);
        let none = Seq::<char>::empty();
        crate::text::law_joining_undoes_splitting(body, sep);
        let all = lines + (seq![none] + tail);
        assert(crate::text::join(all, sep) =~= crate::text::join(lines, sep) + rest) by {
            crate::text::law_joins_are_joined(lines, seq![none] + tail, sep);
            crate::text::law_joins_are_joined(seq![none], tail, sep);
            assert(sep + (none + sep + body) =~= rest);
        }
        assert forall|k: int| 0 <= k < all.len() implies crate::text::is_free_of(
            #[trigger] all[k],
            sep,
        ) by {
            if k < lines.len() {
                assert(all[k] == lines[k]);
            } else if k > lines.len() {
                assert(all[k] == tail[k - lines.len() - 1]);
            }
        }
        crate::text::law_splitting_undoes_joining(all, sep);
        assert(parts == all);
    }
    let n = lines.len() as int;
    assert forall|k: int| 0 <= k < n implies (#[trigger] parts[k]).len() > 0 by {
        assert(parts[k] == lines[k]);
    }
    lemma_header_end_at(parts, 0, n);
    assert(parts[0] == status);
    if status.len() >= 12 {
        assert(status.subrange(0, 12) =~= status.take(12));
    }
    if mints_session(head) {
        let i = choose|i: int| 0 < i < header_end(parts, 0) && is_session_cookie(#[trigger] parts[i]);
        assert(parts[i] == headers[i - 1]);
        lemma_sets_session(headers[i - 1]);
    }
    if exists|i: int| 0 <= i < headers.len() && sets_session(#[trigger] headers[i]) {
        let i = choose|i: int| 0 <= i < headers.len() && sets_session(#[trigger] headers[i]);
        lemma_sets_session(headers[i]);
        assert(parts[i + 1] == headers[i]);
        assert(is_session_cookie(parts[i + 1]));
    }
}

/// The head of an answer is complete as soon as it holds the empty line that
/// ends it, or where it is longer than 16 KB; before that it is not.
pub proof fn law_the_head_ends_with_the_empty_line(head: Seq<u8>)
    ensures
        head_complete(head) <==> {
            ||| head.len() > 16384
            ||| exists|before: Seq<char>, behind: Seq<char>|
                crate::token::bytes_text(head) == #[trigger] (before + "\r\n\r\n"@ + behind)
        },
{
    crate::text::law_containing_is_being_cut_around(
        crate::token::bytes_text(head),
        "\r\n\r\n"@,
    );
}

/// The request of an exchange has the candidate, and nothing else, as the
/// token of its target, names the host and its port, and ends with an empty
/// line.
pub proof fn law_the_request_carries_the_candidate(token: Seq<char>, port: u16)
    requires
        crate::text::is_free_of(token, "\r\n"@),
    ensures
        crate::text::pieces(probe_request_text(token, port), "\r\n"@) == seq![
            "GET /?token="@ + token + " HTTP/1.1"@,
            "Host: 127.0.0.1:"@ + crate::text::decimal(port as nat),
            "Accept: */*"@,
            "Connection: close"@,
            ""@,
            ""@,
        ],
{
    let sep = "\r\n"@;
    reveal_strlit("\r\n");
    reveal_strlit("GET /?token=");
    reveal_strlit(" HTTP/1.1");
    reveal_strlit(" HTTP/1.1\r\nHost: 127.0.0.1:");
    reveal_strlit("Host: 127.0.0.1:");
    reveal_strlit("Accept: */*");
    reveal_strlit("Connection: close");
    reveal_strlit("\r\nAccept: */*\r\nConnection: close\r\n\r\n");
    reveal_strlit("");
    let first = "GET /?token="@ + token + " HTTP/1.1"@;
    let host = "Host: 127.0.0.1:"@ + crate::text::decimal(port as nat);
    let a = "Accept: */*"@;
    let c = "Connection: close"@;
    let e = ""@;
    crate::text::law_numerals_read_back(port as nat);
    assert forall|p: int| 0 <= p && p + sep.len() <= first.len() implies #[trigger] first.subrange(
        p,
        p + sep.len(),
    ) != sep by {
        let piece = first.subrange(p, p + sep.len());
        if piece == sep {
            assert(piece[0] == '\r' && piece[1] == '\n');
            assert(first[p] == '\r' && first[p + 1] == '\n');
            assert(token.subrange(p - 12, p - 12 + 2) =~= sep);
        }
    }
    lemma_free_without_return(host);
    lemma_free_without_return(a);
    lemma_free_without_return(c);
    lemma_free_without_return(e);
    let parts = seq![first, host, a, c, e, e];
    crate::text::law_splitting_undoes_joining(parts, sep);
    let r = probe_request_text(token, port);
    assert(crate::text::join(parts, sep) =~= r) by {
        let p5 = parts.drop_last();
        let p4 = p5.drop_last();
        let p3 = p4.drop_last();
        let p2 = p3.drop_last();
        let p1 = p2.drop_last();
        assert(crate::text::join(p1, sep) =~= first);
        assert(crate::text::join(p2, sep) =~= first + sep + host);
        assert(crate::text::join(p3, sep) =~= first + sep + host + sep + a);
        assert(crate::text::join(p4, sep) =~= first + sep + host + sep + a + sep + c);
        assert(crate::text::join(p5, sep) =~= first + sep + host + sep + a + sep + c + sep + e);
        let front = "GET /?token="@ + token + " HTTP/1.1\r\nHost: 127.0.0.1:"@ + crate::text::decimal(
            port as nat,
        );
        assert(front =~= first + sep + host);
        assert("\r\nAccept: */*\r\nConnection: close\r\n\r\n"@ =~= sep + a + sep + c + sep + e + sep
            + e);
    }
}

proof fn lemma_free_without_return(s: Seq<char>)
    requires
        forall|k: int| 0 <= k < s.len() ==> #[trigger] s[k] != '\r',
    ensures
        crate::text::is_free_of(s, "\r\n"@),
{
    reveal_strlit("\r\n");
    assert forall|p: int| 0 <= p && p + 2 <= s.len() implies #[trigger] s.subrange(p, p + 2)
        != "\r\n"@ by {
        assert(s.subrange(p, p + 2)[0] == s[p]);
    }
}

/// Committed memory that can be read, written or executed is read, unless it
/// maps an image and the pass leaves those out. Memory that is free or only
/// reserved, guarded, or without access is not.
pub proof fn law_accessible_memory_is_read(info: Region, skip_images: bool)
    requires
        info.size > 0,
    ensures
        info.state == 0x1000 && (info.protect == 0x02 || info.protect == 0x04 || info.protect
            == 0x08 || info.protect == 0x20 || info.protect == 0x40 || info.protect == 0x80) && (
        !skip_images || info.ty == 0x20000 || info.ty == 0x40000) ==> info.wanted(skip_images),
        info.wanted(skip_images) ==> info.state == 0x1000 && info.protect != 0 && info.protect
            != 0x01,
        info.protect & 0x100 != 0 ==> !info.wanted(skip_images),
        skip_images && info.ty == 0x1000000 ==> !info.wanted(skip_images),
{
    let p = info.protect;
    let t = info.ty;
    assert((p == 0x02 || p == 0x04 || p == 0x08 || p == 0x20 || p == 0x40 || p == 0x80) ==> p & 0x100
        == 0 && p & 0xff != 0 && p & 0xff != 1) by (bit_vector);
    assert(p == 0 || p == 1 ==> p & 0xff == p) by (bit_vector);
    assert(t == 0x20000 || t == 0x40000 ==> t & 0x100_0000 == 0) by (bit_vector);
    assert(t == 0x1000000 ==> t & 0x100_0000 != 0) by (bit_vector);
}

/// The candidates that are still to be exchanged come out of the batch, in its
/// order, and those that were not seen all come out.
pub proof fn law_fresh_candidates_come_from_the_batch(
    seen: Set<Seq<char>>,
    batch: Seq<Seq<char>>,
    more: Seq<char>,
)
    ensures
        ({
            let fresh = unseen(seen, batch, batch.len());
            let longer = unseen(seen, batch.push(more), batch.len() + 1);
            &&& forall|k: int| 0 <= k < fresh.len() ==> batch.contains(#[trigger] fresh[k])
            &&& longer == (if seen.contains(more) || batch.contains(more) {
                fresh
            } else {
                fresh.push(more)
            })
        }),
{
    lemma_unseen_in_batch(seen, batch, batch.len());
    lemma_unseen_prefix(seen, batch, more, batch.len());
    lemma_unseen(seen, batch, batch.len());
    let fresh = unseen(seen, batch, batch.len());
    if batch.contains(more) {
        let j = choose|j: int| 0 <= j < batch.len() && batch[j] == more;
        assert(seen.contains(batch[j]) || fresh.contains(batch[j]));
    }
    if fresh.contains(more) {
        let k = choose|k: int| 0 <= k < fresh.len() && fresh[k] == more;
        assert(batch.contains(fresh[k]));
    }
}

proof fn lemma_unseen_in_batch(seen: Set<Seq<char>>, batch: Seq<Seq<char>>, n: nat)
    requires
        n <= batch.len(),
    ensures
        forall|k: int|
            0 <= k < unseen(seen, batch, n).len() ==> batch.contains(
                #[trigger] unseen(seen, batch, n)[k],
            ),
    decreases n,
{
    if n > 0 {
        lemma_unseen_in_batch(seen, batch, (n - 1) as nat);
        let rest = unseen(seen, batch, (n - 1) as nat);
        let all = unseen(seen, batch, n);
        assert forall|k: int| 0 <= k < all.len() implies batch.contains(#[trigger] all[k]) by {
            if k < rest.len() {
                assert(all[k] == rest[k]);
            } else {
                assert(all[k] == batch[n - 1]);
            }
        }
    }
}

proof fn lemma_unseen_prefix(
    seen: Set<Seq<char>>,
    batch: Seq<Seq<char>>,
    more: Seq<char>,
    n: nat,
)
    requires
        n <= batch.len(),
    ensures
        unseen(seen, batch.push(more), n) == unseen(seen, batch, n),
    decreases n,
{
    if n > 0 {
        lemma_unseen_prefix(seen, batch, more, (n - 1) as nat);
        assert(batch.push(more)[n - 1] == batch[n - 1]);
    }
}

/// There are four passes. The first looks behind the marker only, the last
/// reads all memory and takes every candidate of the right shape, and each one
/// gives up a single restriction.
pub proof fn law_the_last_pass_leaves_nothing_out(i: int)
    ensures
        pass_plan(i) is Some <==> 0 <= i < 4,
        pass_plan(0) matches Some(p) && p.anchored && p.skip_images && p.tail_filter,
        pass_plan(3) matches Some(p) && !p.anchored && !p.skip_images && !p.tail_filter,
        0 <= i < 3 ==> (pass_plan(i) matches Some(a) && pass_plan(i + 1) matches Some(b) && {
            let given_up = (if a.anchored && !b.anchored {
                1int
            } else {
                0int
            }) + (if a.skip_images && !b.skip_images {
                1int
            } else {
                0int
            }) + (if a.tail_filter && !b.tail_filter {
                1int
            } else {
                0int
            });
            given_up == 1
        }),
{
}

/// The enumeration goes from region to region: behind a region that begins at
/// the address and has an extent, it goes on right behind it, and at the last
/// address at most. It ends where the address would not rise.
pub proof fn law_the_enumeration_goes_from_region_to_region(address: usize, info: Region)
    ensures
        info.base == address && info.size > 0 && address + info.size <= usize::MAX ==> survey_next(
            address,
            info,
        ) == Some(address + info.size),
        info.base + info.size <= address ==> survey_next(address, info) is None,
        survey_next(address, info) matches Some(next) ==> address < next <= usize::MAX,
        info.base + info.size > usize::MAX && address < usize::MAX ==> survey_next(address, info)
            == Some(usize::MAX as int),
{
}

/// A recovery ends with the first hit. Without one it goes on to the next
/// pass, and ends in vain only after the fourth.
pub proof fn law_a_recovery_ends_with_a_hit_or_after_four_passes(index: int)
    requires
        0 <= index < 4,
    ensures
        recovery_verdict(index, true) is Found,
        recovery_verdict(index, false) is GoOn <==> index < 3,
        recovery_verdict(index, false) is NotFound <==> index == 3,
{
}

/// The report of a pass names its number, counted from one, and holds its
/// statistics.
pub proof fn law_a_pass_is_reported_with_its_number(index: int, anchored: bool, stats: Seq<char>)
    requires
        0 <= index,
    ensures
        crate::text::ends_with(pass_line(index, anchored, stats), stats),
        crate::text::starts_with(
            pass_line(index, anchored, stats),
            "pass"@ + crate::text::decimal((index + 1) as nat) + "["@,
        ),
{
    let line = pass_line(index, anchored, stats);
    let head = "pass"@ + crate::text::decimal((index + 1) as nat) + "["@;
    let kind = if anchored {
        "anchor"@
    } else {
        "runs"@
    };
    assert(line =~= (head + kind + "] "@) + stats);
    assert(line =~= head + (kind + "] "@ + stats));
    crate::text::law_containing_is_being_cut_around(line, stats);
    crate::text::law_containing_is_being_cut_around(line, head);
}

/// Whether memory is read depends on its state, the low byte of its
/// protection, the guard bit of that and the image bit of its type, and on
/// nothing else.
pub proof fn law_readable_memory_by_its_flags(info: Region, skip_images: bool)
    ensures
        info.wanted(skip_images) <==> {
            &&& info.size > 0
            &&& info.state == 0x1000
            &&& info.protect as int % 256 >= 2
            &&& info.protect as int / 256 % 2 == 0
            &&& !skip_images || info.ty as int / 0x1000000 % 2 == 0
        },
{
    let p = info.protect;
    let t = info.ty;
    assert(p & 0xff == p % 256) by (bit_vector);
    assert((p & 0x100 == 0) <==> (p / 256) % 2 == 0) by (bit_vector);
    assert((t & 0x100_0000 == 0) <==> (t / 0x1000000) % 2 == 0) by (bit_vector);
}

} // verus!
