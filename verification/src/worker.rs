//! One worker of a pass over the memory of a process.
//!
//! Workers share the list of regions. Each takes a region, reads it chunk by
//! chunk, gathers candidates and has them exchanged in batches, until the
//! regions are used up or some worker has found the token. What it has
//! gathered by then is still exchanged, unless the token was found.

use vstd::prelude::*;

use crate::scan::{batch_due, chunk_after, chunk_want, harvest, Accepted, BATCH_SIZE};
use crate::token::Alphabets;

verus! {

/// What a pass looks for.
pub struct Search {
    pub tables: Alphabets,
    /// What stands before a token, where only such tokens are looked for.
    pub anchor: Option<Vec<u8>>,
    /// Whether a token's last character must be one that a 32-byte payload
    /// can have.
    pub tail_filter: bool,
}

impl Search {
    /// The candidates in the bytes that were read.
    pub open spec fn found(&self, bytes: Seq<u8>) -> Seq<Seq<char>> {
        match self.anchor {
            Some(marker) => crate::token::anchored(
                bytes,
                marker@,
                bytes.len(),
                self.tail_filter,
            ),
            None => crate::token::runs(bytes, bytes.len(), self.tail_filter),
        }
    }
}

/// Where a worker stands.
#[derive(Clone, Copy)]
pub enum Stage {
    /// It asks for a region.
    Asking,
    /// It reads a chunk of a region.
    Reading { base: usize, size: usize, offset: usize },
    /// It has a batch exchanged after that chunk.
    Exchanging { base: usize, size: usize, offset: usize },
    /// It has its last batch exchanged.
    Closing,
    /// It is done.
    Over,
}

/// What a worker learns.
pub enum Event {
    /// The next region, where one is left.
    Region { next: Option<(usize, usize)> },
    /// The bytes that were read; none where reading failed.
    Bytes { bytes: Vec<u8> },
    /// The candidate of the batch that the server has accepted, if any.
    Exchanged { hit: Option<Accepted> },
}

/// What a worker does.
pub enum Action {
    /// Asks for the next region.
    Ask,
    /// Reads so many bytes at an offset of a region.
    Read { base: usize, offset: usize, want: usize },
    /// Has a batch exchanged.
    Exchange { batch: Vec<String> },
    /// Reports the token, and stops.
    Report { hit: Accepted },
    /// Stops.
    Stop,
}

/// The meaning of an action.
pub enum ActionView {
    Ask,
    Read { base: usize, offset: usize, want: usize },
    Exchange { batch: Seq<Seq<char>> },
    Report { token: Seq<char>, answer: Seq<u8> },
    Stop,
}

impl Action {
    /// The meaning of the action.
    pub open spec fn view(&self) -> ActionView {
        match self {
            Action::Ask => ActionView::Ask,
            Action::Read { base, offset, want } => ActionView::Read {
                base: *base,
                offset: *offset,
                want: *want,
            },
            Action::Exchange { batch } => ActionView::Exchange {
                batch: crate::text::strings(batch@),
            },
            Action::Report { hit } => ActionView::Report {
                token: hit.token(),
                answer: hit.answer(),
            },
            Action::Stop => ActionView::Stop,
        }
    }
}

/// One worker.
pub struct Worker {
    stage: Stage,
    batch: Vec<String>,
}

/// The meaning of a worker.
pub struct WorkerView {
    pub stage: Stage,
    /// The candidates that wait for their exchange.
    pub batch: Seq<Seq<char>>,
}

/// A worker and what it does next.
pub type Move = (WorkerView, ActionView);

/// The worker has no region left: it has its last batch exchanged, unless the
/// token was found.
pub open spec fn close(batch: Seq<Seq<char>>, solved: bool) -> Move {
    if batch.len() > 0 && !solved {
        (
            WorkerView { stage: Stage::Closing, batch: Seq::empty() },
            ActionView::Exchange { batch },
        )
    } else {
        (WorkerView { stage: Stage::Over, batch }, ActionView::Stop)
    }
}

/// The worker is done with a region.
pub open spec fn next_region(batch: Seq<Seq<char>>, solved: bool) -> Move {
    if solved {
        close(batch, solved)
    } else {
        (WorkerView { stage: Stage::Asking, batch }, ActionView::Ask)
    }
}

/// The worker goes on at an offset of a region.
pub open spec fn read_at(
    batch: Seq<Seq<char>>,
    base: usize,
    size: usize,
    offset: usize,
    solved: bool,
) -> Move {
    if offset < size && !solved {
        (
            WorkerView { stage: Stage::Reading { base, size, offset }, batch },
            ActionView::Read {
                base,
                offset,
                want: crate::scan::chunk_len(size as int, offset as int) as usize,
            },
        )
    } else {
        next_region(batch, solved)
    }
}

/// The worker is done with a chunk.
pub open spec fn next_chunk(
    batch: Seq<Seq<char>>,
    base: usize,
    size: usize,
    offset: usize,
    solved: bool,
) -> Move {
    match crate::scan::chunk_next(size as int, offset as int) {
        Some(next) => read_at(batch, base, size, next as usize, solved),
        None => next_region(batch, solved),
    }
}

/// The worker has the token.
pub open spec fn report(batch: Seq<Seq<char>>, hit: Accepted) -> Move {
    (
        WorkerView { stage: Stage::Over, batch },
        ActionView::Report { token: hit.token(), answer: hit.answer() },
    )
}

/// What a worker does when it learns something. `solved` tells whether the
/// token was found by then. `None` where what it learns does not belong to
/// what it did.
pub open spec fn worker_step(w: WorkerView, event: Event, solved: bool, search: Search) -> Option<
    Move,
> {
    match (w.stage, event) {
        (Stage::Asking, Event::Region { next: Some((base, size)) }) => Some(
            read_at(w.batch, base, size, 0, solved),
        ),
        (Stage::Asking, Event::Region { next: None }) => Some(close(w.batch, solved)),
        (Stage::Reading { base, size, offset }, Event::Bytes { bytes }) => {
            let batch = w.batch + search.found(bytes@);
            if batch.len() >= BATCH_SIZE {
                Some(
                    (
                        WorkerView {
                            stage: Stage::Exchanging { base, size, offset },
                            batch: Seq::empty(),
                        },
                        ActionView::Exchange { batch },
                    ),
                )
            } else {
                Some(next_chunk(batch, base, size, offset, solved))
            }
        },
        (Stage::Exchanging { .. }, Event::Exchanged { hit: Some(hit) }) => Some(
            report(w.batch, hit),
        ),
        (Stage::Exchanging { base, size, offset }, Event::Exchanged { hit: None }) => Some(
            next_chunk(w.batch, base, size, offset, solved),
        ),
        (Stage::Closing, Event::Exchanged { hit: Some(hit) }) => Some(report(w.batch, hit)),
        (Stage::Closing, Event::Exchanged { hit: None }) => Some(
            (WorkerView { stage: Stage::Over, batch: w.batch }, ActionView::Stop),
        ),
        _ => None,
    }
}

impl Worker {
    /// The meaning of the worker.
    pub closed spec fn view(&self) -> WorkerView {
        WorkerView { stage: self.stage, batch: crate::text::strings(self.batch@) }
    }

    #[verifier::type_invariant]
    spec fn inside(&self) -> bool {
        match self.stage {
            Stage::Reading { base, size, offset } => offset < size,
            Stage::Exchanging { base, size, offset } => offset < size,
            _ => true,
        }
    }

    /// A worker, and what it does first.
    pub fn new(solved: bool) -> (out: (Worker, Action))
        ensures
            (out.0@, out.1@) == next_region(Seq::empty(), solved),
    {
        let batch: Vec<String> = Vec::new();
        assert(crate::text::strings(batch@) =~= Seq::<Seq<char>>::empty());
        Worker::next_region(batch, solved)
    }

    fn close(batch: Vec<String>, solved: bool) -> (out: (Worker, Action))
        ensures
            (out.0@, out.1@) == close(crate::text::strings(batch@), solved),
    {
        if batch.len() > 0 && !solved {
            let rest: Vec<String> = Vec::new();
            assert(crate::text::strings(rest@) =~= Seq::<Seq<char>>::empty());
            (Worker { stage: Stage::Closing, batch: rest }, Action::Exchange { batch })
        } else {
            (Worker { stage: Stage::Over, batch }, Action::Stop)
        }
    }

    fn next_region(batch: Vec<String>, solved: bool) -> (out: (Worker, Action))
        ensures
            (out.0@, out.1@) == next_region(crate::text::strings(batch@), solved),
    {
        if solved {
            Worker::close(batch, solved)
        } else {
            (Worker { stage: Stage::Asking, batch }, Action::Ask)
        }
    }

    fn read_at(batch: Vec<String>, base: usize, size: usize, offset: usize, solved: bool) -> (out: (
        Worker,
        Action,
    ))
        ensures
            (out.0@, out.1@) == read_at(crate::text::strings(batch@), base, size, offset, solved),
    {
        if offset < size && !solved {
            let want: usize = chunk_want(size, offset);
            (
                Worker { stage: Stage::Reading { base, size, offset }, batch },
                Action::Read { base, offset, want },
            )
        } else {
            Worker::next_region(batch, solved)
        }
    }

    fn next_chunk(
        batch: Vec<String>,
        base: usize,
        size: usize,
        offset: usize,
        solved: bool,
    ) -> (out: (Worker, Action))
        requires
            offset < size,
        ensures
            (out.0@, out.1@) == next_chunk(
                crate::text::strings(batch@),
                base,
                size,
                offset,
                solved,
            ),
    {
        match chunk_after(size, offset) {
            Some(next) => Worker::read_at(batch, base, size, next, solved),
            None => Worker::next_region(batch, solved),
        }
    }

    /// Takes in what the worker learns, and tells what it does next. `None`
    /// where that does not belong to what it did. A token is reported only
    /// where the answer to it has minted a session.
    pub fn step(self, event: Event, solved: bool, search: &Search) -> (out: Option<
        (Worker, Action),
    >)
        ensures
            match out {
                Some((next, action)) => worker_step(self@, event, solved, *search) == Some(
                    (next@, action@),
                ) && (action@ matches ActionView::Report { answer, .. }
                    ==> crate::scan::mints_session(answer)),
                None => worker_step(self@, event, solved, *search) is None,
            },
    {
        proof {
            use_type_invariant(&self);
        }
        match (self.stage, event) {
            (Stage::Asking, Event::Region { next }) => match next {
                Some((base, size)) => Some(Worker::read_at(self.batch, base, size, 0, solved)),
                None => Some(Worker::close(self.batch, solved)),
            },
            (Stage::Reading { base, size, offset }, Event::Bytes { bytes }) => {
                let mut batch = self.batch;
                harvest(
                    &search.tables,
                    &search.anchor,
                    bytes.as_slice(),
                    search.tail_filter,
                    &mut batch,
                );
                if batch_due(&batch) {
                    let rest: Vec<String> = Vec::new();
                    assert(crate::text::strings(rest@) =~= Seq::<Seq<char>>::empty());
                    let stage = Stage::Exchanging { base, size, offset };
                    Some((Worker { stage, batch: rest }, Action::Exchange { batch }))
                } else {
                    Some(Worker::next_chunk(batch, base, size, offset, solved))
                }
            },
            (Stage::Exchanging { base, size, offset }, Event::Exchanged { hit }) => match hit {
                Some(hit) => {
                    proof {
                        use_type_invariant(&hit);
                    }
                    Some((Worker { stage: Stage::Over, batch: self.batch }, Action::Report { hit }))
                },
                None => Some(Worker::next_chunk(self.batch, base, size, offset, solved)),
            },
            (Stage::Closing, Event::Exchanged { hit }) => match hit {
                Some(hit) => {
                    proof {
                        use_type_invariant(&hit);
                    }
                    Some((Worker { stage: Stage::Over, batch: self.batch }, Action::Report { hit }))
                },
                None => Some((Worker { stage: Stage::Over, batch: self.batch }, Action::Stop)),
            },
            _ => None,
        }
    }
}

// ---------------------------------------------------------------------------
// What a worker guarantees
// ---------------------------------------------------------------------------

/// The candidates that a worker finds in what it learns.
pub open spec fn gathered(w: WorkerView, event: Event, search: Search) -> Seq<Seq<char>> {
    match (w.stage, event) {
        (Stage::Reading { .. }, Event::Bytes { bytes }) => search.found(bytes@),
        _ => Seq::empty(),
    }
}

/// The candidates that an action has exchanged.
pub open spec fn handed_in(action: ActionView) -> Seq<Seq<char>> {
    match action {
        ActionView::Exchange { batch } => batch,
        _ => Seq::empty(),
    }
}

/// A worker's way through what it learns: the candidates that it finds, those
/// that it has exchanged, and where it stands at the end.
pub struct Way {
    pub found: Seq<Seq<char>>,
    pub exchanged: Seq<Seq<char>>,
    pub end: WorkerView,
}

/// The way of a worker while nobody has found the token. It stops where
/// something does not belong to what the worker did.
pub open spec fn way(w: WorkerView, events: Seq<Event>, search: Search) -> Way
    decreases events.len(),
{
    if events.len() == 0 {
        Way { found: Seq::empty(), exchanged: Seq::empty(), end: w }
    } else {
        let before = way(w, events.drop_last(), search);
        match worker_step(before.end, events.last(), false, search) {
            Some((next, action)) => Way {
                found: before.found + gathered(before.end, events.last(), search),
                exchanged: before.exchanged + handed_in(action),
                end: next,
            },
            None => before,
        }
    }
}

/// While nobody has found the token, nothing that a worker gathers is lost:
/// what was exchanged and what still waits is exactly what was found, in
/// order.
pub proof fn law_no_candidate_is_lost(events: Seq<Event>, search: Search)
    ensures
        ({
            let start = WorkerView { stage: Stage::Asking, batch: Seq::empty() };
            let w = way(start, events, search);
            &&& w.exchanged + w.end.batch == w.found
            &&& (w.end.stage is Exchanging || w.end.stage is Closing) ==> w.end.batch.len() == 0
        }),
    decreases events.len(),
{
    let start = WorkerView { stage: Stage::Asking, batch: Seq::empty() };
    if events.len() == 0 {
        assert(Seq::<Seq<char>>::empty() + Seq::<Seq<char>>::empty() =~= Seq::<Seq<char>>::empty());
    } else {
        law_no_candidate_is_lost(events.drop_last(), search);
        let before = way(start, events.drop_last(), search);
        match worker_step(before.end, events.last(), false, search) {
            Some((next, action)) => {
                let more = gathered(before.end, events.last(), search);
                assert(handed_in(action) + next.batch =~= before.end.batch + more);
                assert((before.exchanged + handed_in(action)) + next.batch =~= before.exchanged + (
                before.end.batch + more));
                assert(before.exchanged + (before.end.batch + more) =~= (before.exchanged
                    + before.end.batch) + more);
            },
            None => {},
        }
    }
}

/// A worker that ran out of regions, while nobody found the token, has had
/// everything exchanged.
pub proof fn law_a_worker_ends_with_nothing_waiting(
    w: WorkerView,
    event: Event,
    search: Search,
)
    requires
        w.stage is Closing ==> w.batch.len() == 0,
        w.stage is Exchanging ==> w.batch.len() == 0,
    ensures
        match worker_step(w, event, false, search) {
            Some((next, ActionView::Stop)) => next.batch.len() == 0,
            _ => true,
        },
{
}

/// Once the token is found, a worker reads nothing more and asks for no other
/// region.
pub proof fn law_a_solved_pass_winds_down(w: WorkerView, event: Event, search: Search)
    ensures
        match worker_step(w, event, true, search) {
            Some((_, action)) => action is Stop || action is Exchange || action is Report,
            None => true,
        },
{
}

/// A region is read from its start, chunk by chunk, until its end: behind each
/// chunk of 4 MB comes the next one of the same region, and behind the last
/// one the next region. Each read also takes the first bytes of the next
/// chunk, as far as there are some.
pub proof fn law_a_region_is_read_from_start_to_end(
    batch: Seq<Seq<char>>,
    base: usize,
    size: usize,
    offset: usize,
    bytes: Vec<u8>,
    search: Search,
)
    requires
        offset < size,
        batch.len() + search.found(bytes@).len() < 16,
    ensures
        worker_step(
            WorkerView { stage: Stage::Asking, batch },
            Event::Region { next: Some((base, size)) },
            false,
            search,
        ) matches Some((next, action)) && action == (ActionView::Read {
            base,
            offset: 0,
            want: if size < 4194347 {
                size
            } else {
                4194347usize
            },
        }) && next.batch == batch,
        worker_step(
            WorkerView { stage: Stage::Reading { base, size, offset }, batch },
            Event::Bytes { bytes },
            false,
            search,
        ) matches Some((next, action)) && next.batch == batch + search.found(bytes@) && {
            &&& offset + 4194304 < size ==> (action matches ActionView::Read {
                base: b,
                offset: o,
                want,
            } && b == base && o == offset + 4194304 && 0 < want <= 4194347 && (want == size - o
                || want == 4194347))
            &&& offset + 4194304 >= size ==> action is Ask
        },
{
}

/// As soon as sixteen candidates are gathered, all of them are exchanged. So
/// is what is left when there are no more regions, however little it is.
pub proof fn law_gathered_candidates_are_exchanged(
    batch: Seq<Seq<char>>,
    base: usize,
    size: usize,
    offset: usize,
    bytes: Vec<u8>,
    solved: bool,
    search: Search,
)
    ensures
        batch.len() + search.found(bytes@).len() >= 16 ==> (worker_step(
            WorkerView { stage: Stage::Reading { base, size, offset }, batch },
            Event::Bytes { bytes },
            solved,
            search,
        ) matches Some((next, action)) && action == (ActionView::Exchange {
            batch: batch + search.found(bytes@),
        }) && next.batch.len() == 0 && next.stage is Exchanging),
        batch.len() > 0 ==> (worker_step(
            WorkerView { stage: Stage::Asking, batch },
            Event::Region { next: None },
            false,
            search,
        ) matches Some((next, action)) && action == (ActionView::Exchange { batch })
            && next.stage is Closing),
        batch.len() == 0 ==> (worker_step(
            WorkerView { stage: Stage::Asking, batch },
            Event::Region { next: None },
            false,
            search,
        ) matches Some((next, action)) && action is Stop && next.stage is Over),
{
}

/// The token that the server has accepted is reported, and the worker is over.
/// Without one it goes on where it was.
pub proof fn law_an_accepted_token_is_reported(
    batch: Seq<Seq<char>>,
    base: usize,
    size: usize,
    offset: usize,
    hit: Accepted,
    solved: bool,
    search: Search,
)
    requires
        offset < size,
    ensures
        worker_step(
            WorkerView { stage: Stage::Exchanging { base, size, offset }, batch },
            Event::Exchanged { hit: Some(hit) },
            solved,
            search,
        ) matches Some((next, action)) && next.stage is Over && action == (ActionView::Report {
            token: hit.token(),
            answer: hit.answer(),
        }),
        worker_step(
            WorkerView { stage: Stage::Closing, batch },
            Event::Exchanged { hit: Some(hit) },
            solved,
            search,
        ) matches Some((next, action)) && next.stage is Over && action == (ActionView::Report {
            token: hit.token(),
            answer: hit.answer(),
        }),
        worker_step(
            WorkerView { stage: Stage::Exchanging { base, size, offset }, batch },
            Event::Exchanged { hit: None },
            false,
            search,
        ) matches Some((next, action)) && {
            &&& offset + 4194304 < size ==> (action matches ActionView::Read {
                base: b,
                offset: o,
                ..
            } && b == base && o == offset + 4194304)
            &&& offset + 4194304 >= size ==> action is Ask
        },
        worker_step(
            WorkerView { stage: Stage::Closing, batch },
            Event::Exchanged { hit: None },
            solved,
            search,
        ) matches Some((next, action)) && next.stage is Over && action is Stop,
{
}

/// A search without a marker takes every run of the right shape, and one with
/// a marker those behind it.
pub proof fn law_a_search_finds_what_it_looks_for(search: Search, bytes: Seq<u8>, t: Seq<char>)
    ensures
        search.anchor is None ==> (search.found(bytes).contains(t) <==> exists|i: int|
            #[trigger] crate::token::run_at(bytes, i, search.tail_filter) && t
                == crate::token::token_text(bytes, i)),
        search.anchor matches Some(marker) ==> (marker@.len() > 0 && !crate::token::is_base64url(
            marker@.last(),
        ) ==> search.found(bytes) == crate::token::runs_behind(
            bytes,
            marker@,
            bytes.len(),
            search.tail_filter,
        )),
{
    crate::token::law_runs_are_the_maximal_runs(bytes, search.tail_filter, t);
    match search.anchor {
        Some(marker) => {
            if marker@.len() > 0 && !crate::token::is_base64url(marker@.last()) {
                crate::token::law_anchored_tokens_are_the_runs_behind_the_marker(
                    bytes,
                    marker@,
                    search.tail_filter,
                );
            }
        },
        None => {},
    }
}

} // verus!
