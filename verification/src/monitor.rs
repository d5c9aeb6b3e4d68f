//! The watch on the DSH host's event stream.
//!
//! A session that goes from running to idle is finished, and the user is told.
//! The first status of a session only sets its baseline, so a session that was
//! idle all along never counts as finished.

use vstd::hash_map::StringHashMap;
use vstd::prelude::*;

use crate::json::{Json, JsonView};
use crate::text::{cat, str_eq};

verus! {

// ---------------------------------------------------------------------------
// Frames
// ---------------------------------------------------------------------------

/// What a frame of the event stream says of a session.
pub enum FrameView {
    /// Nothing that matters here.
    Ignored,
    /// The session runs, or is idle.
    Status { id: Seq<char>, running: bool },
    /// The session is new.
    Added { id: Seq<char> },
    /// The session is gone.
    Removed { id: Seq<char> },
}

/// What the payload of a server request says.
pub open spec fn payload_view(payload: JsonView) -> FrameView {
    let kind = crate::json::get_text(payload, "type"@);
    let session = crate::json::get_text(payload, "sessionId"@);
    if kind == Some("host/session-status"@) {
        match (session, crate::json::get_truth(payload, "running"@)) {
            (Some(id), Some(running)) => FrameView::Status { id, running },
            _ => FrameView::Ignored,
        }
    } else if kind == Some("host/session-added"@) {
        match session {
            Some(id) => FrameView::Added { id },
            None => FrameView::Ignored,
        }
    } else if kind == Some("host/session-removed"@) {
        match session {
            Some(id) => FrameView::Removed { id },
            None => FrameView::Ignored,
        }
    } else {
        FrameView::Ignored
    }
}

/// What a frame says: only server requests with a payload matter.
pub open spec fn frame_view(frame: JsonView) -> FrameView {
    if crate::json::get_text(frame, "type"@) == Some("server-request"@) {
        match frame.get("payload"@) {
            Some(payload) => payload_view(payload),
            None => FrameView::Ignored,
        }
    } else {
        FrameView::Ignored
    }
}

/// What a text says; a text that is no JSON says nothing.
pub open spec fn text_frame(frame: Option<JsonView>) -> FrameView {
    match frame {
        Some(j) => frame_view(j),
        None => FrameView::Ignored,
    }
}

/// What is known of each session: whether it was running when last heard of.
pub type Known = Map<Seq<char>, bool>;

/// What is known after a frame.
pub open spec fn known_after(known: Known, frame: FrameView) -> Known {
    match frame {
        FrameView::Ignored => known,
        FrameView::Status { id, running } => known.insert(id, running),
        FrameView::Added { id } => known.insert(id, false),
        FrameView::Removed { id } => known.remove(id),
    }
}

/// The session that a frame shows to be finished: it was known to be running
/// and is idle now.
pub open spec fn finished_by(known: Known, frame: FrameView) -> Option<Seq<char>> {
    match frame {
        FrameView::Status { id, running } => if !running && known.dom().contains(id) && known[id] {
            Some(id)
        } else {
            None
        },
        _ => None,
    }
}

/// What is known of each session.
pub struct Baseline {
    map: StringHashMap<bool>,
}

impl Baseline {
    /// What is known of each session.
    pub closed spec fn view(&self) -> Known {
        self.map@
    }

    /// Nothing is known yet.
    pub fn new() -> (out: Baseline)
        ensures
            out@ == Map::<Seq<char>, bool>::empty(),
    {
        Baseline { map: StringHashMap::new() }
    }

    /// Forgets everything, as after a lost connection: the next first wave of
    /// frames sets the baseline anew.
    pub fn clear(&mut self)
        ensures
            final(self)@ == Map::<Seq<char>, bool>::empty(),
    {
        self.map.clear();
    }

    fn status(&mut self, id: String, running: bool) -> (finished: Option<String>)
        ensures
            final(self)@ == old(self)@.insert(id@, running),
            crate::text::opt_text(finished) == finished_by(
                old(self)@,
                FrameView::Status { id: id@, running },
            ),
    {
        let was_running = match self.map.get(id.as_str()) {
            Some(b) => *b,
            None => false,
        };
        let finished = if was_running && !running {
            Some(id.clone())
        } else {
            None
        };
        self.map.insert(id, running);
        finished
    }

    /// Takes in a frame that was read. Returns the session that is finished.
    pub fn take_frame(&mut self, frame: &Json) -> (finished: Option<String>)
        ensures
            final(self)@ == known_after(old(self)@, frame_view(frame@)),
            crate::text::opt_text(finished) == finished_by(old(self)@, frame_view(frame@)),
    {
        match frame.get_str("type") {
            Some(t) => {
                if !str_eq(t.as_str(), "server-request") {
                    return None;
                }
            },
            None => {
                return None;
            },
        }
        let payload = match frame.get("payload") {
            Some(p) => p,
            None => {
                return None;
            },
        };
        let kind = match payload.get_str("type") {
            Some(k) => k,
            None => {
                return None;
            },
        };
        let id = match payload.get_str("sessionId") {
            Some(id) => id,
            None => {
                return None;
            },
        };
        proof {
            lemma_kinds_differ();
        }
        if str_eq(kind.as_str(), "host/session-status") {
            match payload.get_bool("running") {
                Some(running) => self.status(id, running),
                None => None,
            }
        } else if str_eq(kind.as_str(), "host/session-added") {
            self.map.insert(id, false);
            None
        } else if str_eq(kind.as_str(), "host/session-removed") {
            self.map.remove(id.as_str());
            None
        } else {
            None
        }
    }

    /// Takes in one frame of the event stream. Returns the session that is
    /// finished.
    pub fn handle_frame(&mut self, text: &str) -> (finished: Option<String>)
        ensures
            final(self)@ == known_after(
                old(self)@,
                text_frame(crate::json::json_parse(text@)),
            ),
            crate::text::opt_text(finished) == finished_by(
                old(self)@,
                text_frame(crate::json::json_parse(text@)),
            ),
    {
        match Json::parse(text) {
            Some(frame) => self.take_frame(&frame),
            None => None,
        }
    }
}

proof fn lemma_kinds_differ()
    ensures
        "host/session-status"@ != "host/session-added"@,
        "host/session-status"@ != "host/session-removed"@,
        "host/session-added"@ != "host/session-removed"@,
{
    reveal_strlit("host/session-status");
    reveal_strlit("host/session-added");
    reveal_strlit("host/session-removed");
    assert("host/session-status"@.len() == 19);
    assert("host/session-added"@.len() == 18);
    assert("host/session-removed"@.len() == 20);
}

// ---------------------------------------------------------------------------
// What the watch guarantees
// ---------------------------------------------------------------------------

/// Whether a frame is about a session.
pub open spec fn about(frame: FrameView, id: Seq<char>) -> bool {
    match frame {
        FrameView::Ignored => false,
        FrameView::Status { id: s, running: _ } => s == id,
        FrameView::Added { id: s } => s == id,
        FrameView::Removed { id: s } => s == id,
    }
}

/// What is known after a run of frames on a fresh connection.
pub open spec fn known_from(frames: Seq<FrameView>) -> Known
    decreases frames.len(),
{
    if frames.len() == 0 {
        Map::empty()
    } else {
        known_after(known_from(frames.drop_last()), frames.last())
    }
}

/// Whether the last of the frames about a session says that it runs.
pub open spec fn last_seen_running(frames: Seq<FrameView>, id: Seq<char>) -> bool {
    exists|k: int|
        0 <= k < frames.len() && #[trigger] frames[k] == (FrameView::Status { id, running: true })
            && forall|j: int| k < j < frames.len() ==> !about(#[trigger] frames[j], id)
}

proof fn lemma_known_running(frames: Seq<FrameView>, id: Seq<char>)
    ensures
        known_from(frames).dom().contains(id) && known_from(frames)[id] <==> last_seen_running(
            frames,
            id,
        ),
    decreases frames.len(),
{
    if frames.len() > 0 {
        let front = frames.drop_last();
        let last = frames.len() - 1;
        lemma_known_running(front, id);
        if last_seen_running(frames, id) {
            let k = choose|k: int|
                0 <= k < frames.len() && #[trigger] frames[k] == (FrameView::Status {
                    id,
                    running: true,
                }) && forall|j: int| k < j < frames.len() ==> !about(#[trigger] frames[j], id);
            if k < last {
                assert(!about(frames[last], id));
                assert(front[k] == frames[k]);
                assert forall|j: int| k < j < front.len() implies !about(#[trigger] front[j], id) by {
                    assert(front[j] == frames[j]);
                }
                assert(last_seen_running(front, id));
            }
        }
        if known_from(frames).dom().contains(id) && known_from(frames)[id] {
            if about(frames[last], id) {
                assert(frames[last] == (FrameView::Status { id, running: true }));
            } else {
                let k = choose|k: int|
                    0 <= k < front.len() && #[trigger] front[k] == (FrameView::Status {
                        id,
                        running: true,
                    }) && forall|j: int| k < j < front.len() ==> !about(#[trigger] front[j], id);
                assert(frames[k] == front[k]);
                assert forall|j: int| k < j < frames.len() implies !about(
                    #[trigger] frames[j],
                    id,
                ) by {
                    if j < last {
                        assert(front[j] == frames[j]);
                    }
                }
                assert(last_seen_running(frames, id));
            }
        }
    }
}

/// Over a whole connection, a frame announces a finished session exactly when
/// it calls the session idle and the last word on that session before it was
/// that it runs.
pub proof fn law_finished_means_running_before_and_idle_now(
    frames: Seq<FrameView>,
    frame: FrameView,
    id: Seq<char>,
)
    ensures
        finished_by(known_from(frames), frame) == Some(id) <==> frame == (FrameView::Status {
            id,
            running: false,
        }) && last_seen_running(frames, id),
{
    lemma_known_running(frames, id);
}

/// The first word on a session never announces it as finished.
pub proof fn law_first_wave_announces_nothing(
    frames: Seq<FrameView>,
    frame: FrameView,
    id: Seq<char>,
)
    requires
        forall|k: int| 0 <= k < frames.len() ==> !about(#[trigger] frames[k], id),
    ensures
        finished_by(known_from(frames), frame) != Some(id),
{
    lemma_known_running(frames, id);
}

/// A session that stays idle is announced no second time.
pub proof fn law_steady_idle_announces_once(known: Known, id: Seq<char>)
    ensures
        finished_by(
            known_after(known, FrameView::Status { id, running: false }),
            FrameView::Status { id, running: false },
        ) is None,
{
}

// ---------------------------------------------------------------------------
// Reconnecting
// ---------------------------------------------------------------------------

/// The pause before the next attempt, in milliseconds: half a second at
/// first, then twice as long each time, up to eight seconds.
pub open spec fn backoff_delay(attempt: u32) -> u64 {
    if attempt <= 1 {
        500
    } else if attempt == 2 {
        1000
    } else if attempt == 3 {
        2000
    } else if attempt == 4 {
        4000
    } else {
        8000
    }
}

/// The count of attempts after one more, which ended in an orderly close or
/// not.
pub open spec fn attempts_after(attempt: u32, orderly: bool) -> u32 {
    if orderly {
        0
    } else if attempt == u32::MAX {
        u32::MAX
    } else {
        (attempt + 1) as u32
    }
}

/// The count of attempts after some in a row that failed, behind an orderly
/// close.
pub open spec fn attempts_failed(n: nat) -> u32
    decreases n,
{
    if n == 0 {
        attempts_after(0, true)
    } else {
        attempts_after(attempts_failed((n - 1) as nat), false)
    }
}

/// The count of attempts since the last orderly close.
pub struct Backoff {
    pub attempt: u32,
}

impl Backoff {
    /// No attempt was made yet.
    pub fn new() -> (out: Backoff)
        ensures
            out.attempt == 0,
    {
        Backoff { attempt: 0 }
    }

    /// Takes in the end of a connection attempt and returns the pause before
    /// the next one. An orderly close starts the count afresh.
    pub fn pause(&mut self, orderly: bool) -> (ms: u64)
        ensures
            final(self).attempt == attempts_after(old(self).attempt, orderly),
            ms == backoff_delay(final(self).attempt),
    {
        if orderly {
            self.attempt = 0;
        } else if self.attempt < u32::MAX {
            self.attempt = self.attempt + 1;
        }
        let mut ms: u64 = 500;
        let mut k: u32 = 1;
        while k < self.attempt && k < 5
            invariant
                1 <= k <= 5,
                k <= self.attempt || k == 1,
                ms == backoff_delay(k),
                self.attempt == final(self).attempt,
            decreases 5 - k,
        {
            ms = ms * 2;
            k = k + 1;
        }
        ms
    }
}

/// The pause never falls while attempts fail, and stays between half a second
/// and ten seconds.
pub proof fn law_pauses_grow_up_to_the_cap(a: u32, b: u32)
    requires
        a <= b,
    ensures
        500 <= backoff_delay(a) <= backoff_delay(b) <= 10_000,
{
}

// ---------------------------------------------------------------------------
// The title of a session
// ---------------------------------------------------------------------------

/// The title of a listed session.
pub open spec fn title_of(item: JsonView) -> Option<Seq<char>> {
    match item.get("projections"@) {
        Some(p) => match p.get("values"@) {
            Some(v) => crate::json::get_text(v, "title"@),
            None => None,
        },
        None => None,
    }
}

/// The title of the first of the listed sessions, from `i` on, with a given id.
pub open spec fn title_from(items: Seq<JsonView>, id: Seq<char>, i: int) -> Option<Seq<char>>
    decreases items.len() - i,
{
    if i < 0 || i >= items.len() {
        None
    } else if crate::json::get_text(items[i], "sessionId"@) == Some(id) {
        title_of(items[i])
    } else {
        title_from(items, id, i + 1)
    }
}

/// The title of a session in the answer to a `session.list` request.
pub open spec fn title_in(answer: JsonView, id: Seq<char>) -> Option<Seq<char>> {
    match answer.get("result"@) {
        Some(r) => match r.get("value"@) {
            Some(v) => match v.get("items"@) {
                Some(JsonView::Arr(items)) => title_from(items, id, 0),
                _ => None,
            },
            None => None,
        },
        None => None,
    }
}

fn read_title(item: &Json) -> (out: Option<String>)
    ensures
        crate::text::opt_text(out) == title_of(item@),
{
    match item.get("projections") {
        Some(p) => match p.get("values") {
            Some(v) => v.get_str("title"),
            None => None,
        },
        None => None,
    }
}

fn find_title(items: &Vec<Json>, id: &str) -> (out: Option<String>)
    ensures
        crate::text::opt_text(out) == title_from(crate::json::arr_view(items@), id@, 0),
{
    let ghost views = crate::json::arr_view(items@);
    proof {
        crate::json::lemma_arr_view(items@);
    }
    let mut i: usize = 0;
    while i < items.len()
        invariant
            i <= items@.len(),
            views == crate::json::arr_view(items@),
            views.len() == items@.len(),
            forall|k: int| 0 <= k < items@.len() ==> #[trigger] views[k] == items@[k]@,
            title_from(views, id@, i as int) == title_from(views, id@, 0),
        decreases items@.len() - i,
    {
        assert(views[i as int] == items@[i as int]@);
        match items[i].get_str("sessionId") {
            Some(s) => {
                if str_eq(s.as_str(), id) {
                    return read_title(&items[i]);
                }
            },
            None => {},
        }
        i = i + 1;
    }
    None
}

/// The title of a session in an answer that was read.
pub fn session_title(answer: &Json, id: &str) -> (out: Option<String>)
    ensures
        crate::text::opt_text(out) == title_in(answer@, id@),
{
    match answer.get("result") {
        Some(r) => match r.get("value") {
            Some(v) => match v.get("items") {
                Some(Json::Arr(items)) => find_title(items, id),
                _ => None,
            },
            None => None,
        },
        None => None,
    }
}

/// The title of a session in the text of an answer.
pub fn resolve_session_title(answer: &str, id: &str) -> (out: Option<String>)
    ensures
        crate::text::opt_text(out) == (match crate::json::json_parse(answer@) {
            Some(j) => title_in(j, id@),
            None => None,
        }),
{
    match Json::parse(answer) {
        Some(j) => session_title(&j, id),
        None => None,
    }
}

/// The request for the list of sessions.
pub open spec fn list_request(rpc_id: Seq<char>) -> JsonView {
    JsonView::Obj(
        map![
            "type"@ => JsonView::Str("client-request"@),
            "rpcId"@ => JsonView::Str(rpc_id),
            "method"@ => JsonView::Str("session.list"@),
            "payload"@ => JsonView::Obj(Map::empty()),
        ],
    )
}

/// The request for the list of sessions, under a given request id.
pub fn list_request_with(rpc_id: &str) -> (out: Json)
    ensures
        out@ == list_request(rpc_id@),
{
    Json::object().with("type", Json::str("client-request")).with("rpcId", Json::str(rpc_id)).with(
        "method",
        Json::str("session.list"),
    ).with("payload", Json::object())
}

/// Whether a character is a lower-case hexadecimal digit.
pub open spec fn is_hex(c: char) -> bool {
    '0' <= c <= '9' || 'a' <= c <= 'f'
}

/// The hyphenated lower-case form of a random UUID.
pub open spec fn is_random_uuid(s: Seq<char>) -> bool {
    &&& s.len() == 36
    &&& forall|i: int|
        0 <= i < 36 ==> if i == 8 || i == 13 || i == 18 || i == 23 {
            #[trigger] s[i] == '-'
        } else {
            is_hex(s[i])
        }
    &&& s[14] == '4'
    &&& s[19] == '8' || s[19] == '9' || s[19] == 'a' || s[19] == 'b'
}

/// `uuid::Uuid::new_v4` and its `to_string`: a fresh random UUID, of which
/// nothing is known but its form. It panics where the system has no random
/// bytes to give.
#[verifier::external_body]
fn new_rpc_id() -> (id: String)
    ensures
        is_random_uuid(id@),
{
    uuid::Uuid::new_v4().to_string()
}

/// The text of a request for the list of sessions, under a fresh request id.
pub fn session_list_request() -> (out: String)
    ensures
        exists|id: Seq<char>| #[trigger]
            is_random_uuid(id) && out@ == crate::json::json_text(list_request(id))
                && crate::json::json_parse(out@) == Some(list_request(id)),
{
    let id = new_rpc_id();
    let request = list_request_with(id.as_str());
    proof {
        let m = list_request(id@)->Obj_0;
        let n = (crate::json::max_depth() - 1) as nat;
        assert forall|k: Seq<char>| #[trigger] m.dom().contains(k) implies m[k].nested(n)
            && m[k].integral(n) by {
            if m[k] is Obj {
                assert(m[k] == JsonView::Obj(Map::empty()));
            }
        }
    }
    proof {
        crate::json::lemma_nested_deeper(
            request@,
            crate::json::max_depth(),
            crate::json::WRITE_DEPTH as nat,
        );
    }
    let out = request.to_text();
    assert(is_random_uuid(id@));
    out
}

/// The session to notify of: the finished one, unless the main window is
/// visible and the user sees it anyway.
pub fn session_to_announce(finished: Option<String>, visible: bool) -> (out: Option<String>)
    ensures
        out == (if visible {
            None
        } else {
            finished
        }),
{
    if visible {
        None
    } else {
        finished
    }
}

/// Whether the button that was pressed on the notification opens the window.
pub fn opens_window(action: &Option<String>) -> (yes: bool)
    ensures
        yes == (crate::text::opt_text(*action) == Some("open"@)),
{
    match action {
        Some(a) => str_eq(a.as_str(), "open"),
        None => false,
    }
}

/// The text of the notification: the title of the session, or words that stand
/// for it.
pub fn finished_notice(title: &Option<String>) -> (out: String)
    ensures
        out@ == "任务已完成:"@ + (match title {
            Some(t) => t@,
            None => "一个会话"@,
        }),
{
    match title {
        Some(t) => cat("任务已完成:", t.as_str()),
        None => cat("任务已完成:", "一个会话"),
    }
}

// ---------------------------------------------------------------------------
// What frames and answers say
// ---------------------------------------------------------------------------

/// Whether an object has a text under a key.
pub open spec fn has_text(m: Map<Seq<char>, JsonView>, key: Seq<char>, value: Seq<char>) -> bool {
    m.dom().contains(key) && m[key] == JsonView::Str(value)
}

/// A server request that carries the status of a session, or that a session is
/// there or gone, is understood, whatever else it holds.
pub proof fn law_session_frames_are_understood(
    frame: Map<Seq<char>, JsonView>,
    payload: Map<Seq<char>, JsonView>,
    id: Seq<char>,
    running: bool,
)
    requires
        has_text(frame, "type"@, "server-request"@),
        frame.dom().contains("payload"@),
        frame["payload"@] == JsonView::Obj(payload),
        has_text(payload, "sessionId"@, id),
    ensures
        has_text(payload, "type"@, "host/session-status"@) && payload.dom().contains("running"@)
            && payload["running"@] == JsonView::Bool(running) ==> frame_view(JsonView::Obj(frame))
            == (FrameView::Status { id, running }),
        has_text(payload, "type"@, "host/session-added"@) ==> frame_view(JsonView::Obj(frame)) == (
        FrameView::Added { id }),
        has_text(payload, "type"@, "host/session-removed"@) ==> frame_view(JsonView::Obj(frame)) == (
        FrameView::Removed { id }),
{
    lemma_kinds_differ();
}

/// Nothing else is heard: a frame that says something of a session is a server
/// request with a payload of one of the three kinds, and names the session.
pub proof fn law_other_frames_are_ignored(frame: JsonView)
    requires
        !(frame_view(frame) is Ignored),
    ensures
        frame matches JsonView::Obj(m) && has_text(m, "type"@, "server-request"@)
            && m.dom().contains("payload"@) && (m["payload"@] matches JsonView::Obj(p) && {
            &&& has_text(p, "type"@, "host/session-status"@) || has_text(
                p,
                "type"@,
                "host/session-added"@,
            ) || has_text(p, "type"@, "host/session-removed"@)
            &&& p.dom().contains("sessionId"@)
        }),
        text_frame(None) is Ignored,
        text_frame(Some(frame)) == frame_view(frame),
{
}

/// What is known of one session does not depend on another. Its last status is
/// what is known of it; one that is new counts as idle, and of one that is
/// gone nothing is known.
pub proof fn law_sessions_are_known_one_by_one(
    known: Known,
    frame: FrameView,
    id: Seq<char>,
    other: Seq<char>,
)
    ensures
        !about(frame, other) ==> (known_after(known, frame).dom().contains(other)
            <==> known.dom().contains(other)),
        !about(frame, other) && known.dom().contains(other) ==> known_after(known, frame)[other]
            == known[other],
        frame matches FrameView::Status { id: s, running } ==> known_after(known, frame).dom().contains(
            s,
        ) && known_after(known, frame)[s] == running,
        frame == (FrameView::Added { id }) ==> known_after(known, frame).dom().contains(id)
            && !known_after(known, frame)[id],
        frame == (FrameView::Removed { id }) ==> !known_after(known, frame).dom().contains(id),
{
}

/// A session is announced when it goes idle after it ran, and the next time
/// only after it ran again.
pub proof fn law_every_run_is_announced_once(known: Known, id: Seq<char>)
    ensures
        ({
            let ran = known_after(known, FrameView::Status { id, running: true });
            let idle = FrameView::Status { id, running: false };
            &&& finished_by(ran, idle) == Some(id)
            &&& finished_by(known_after(ran, idle), idle) is None
            &&& finished_by(known, FrameView::Status { id, running: true }) is None
        }),
{
}

/// Each pause is twice the one before, up to eight seconds.
pub proof fn law_pauses_double(attempt: u32)
    requires
        1 <= attempt < u32::MAX,
    ensures
        backoff_delay(1) == 500,
        backoff_delay((attempt + 1) as u32) == (if 2 * backoff_delay(attempt) <= 8000 {
            2 * backoff_delay(attempt)
        } else {
            8000
        }),
{
}

/// The title of a session is that of the first listed one with its id, where
/// it has one; sessions with other ids do not matter.
pub proof fn law_the_title_is_found_by_id(
    answer: Map<Seq<char>, JsonView>,
    result: Map<Seq<char>, JsonView>,
    value: Map<Seq<char>, JsonView>,
    earlier: Seq<JsonView>,
    item: Map<Seq<char>, JsonView>,
    projections: Map<Seq<char>, JsonView>,
    values: Map<Seq<char>, JsonView>,
    later: Seq<JsonView>,
    id: Seq<char>,
    title: Seq<char>,
)
    requires
        answer.dom().contains("result"@) && answer["result"@] == JsonView::Obj(result),
        result.dom().contains("value"@) && result["value"@] == JsonView::Obj(value),
        value.dom().contains("items"@) && value["items"@] == JsonView::Arr(
            earlier + seq![JsonView::Obj(item)] + later,
        ),
        forall|i: int|
            0 <= i < earlier.len() ==> ((#[trigger] earlier[i]) matches JsonView::Obj(m)
                ==> !has_text(m, "sessionId"@, id)),
        has_text(item, "sessionId"@, id),
        item.dom().contains("projections"@) && item["projections"@] == JsonView::Obj(projections),
        projections.dom().contains("values"@) && projections["values"@] == JsonView::Obj(values),
        has_text(values, "title"@, title),
    ensures
        title_in(JsonView::Obj(answer), id) == Some(title),
{
    let items = earlier + seq![JsonView::Obj(item)] + later;
    assert forall|i: int| 0 <= i < earlier.len() implies crate::json::get_text(
        #[trigger] items[i],
        "sessionId"@,
    ) != Some(id) by {
        assert(items[i] == earlier[i]);
        match earlier[i] {
            JsonView::Obj(m) => {
                assert(!has_text(m, "sessionId"@, id));
            },
            _ => {},
        }
    }
    assert(items[earlier.len() as int] == JsonView::Obj(item));
    assert(title_of(JsonView::Obj(item)) == Some(title));
    lemma_title_from(items, id, 0, earlier.len() as int);
}

proof fn lemma_title_from(items: Seq<JsonView>, id: Seq<char>, i: int, n: int)
    requires
        0 <= i <= n < items.len(),
        forall|k: int|
            i <= k < n ==> crate::json::get_text(#[trigger] items[k], "sessionId"@) != Some(id),
        crate::json::get_text(items[n], "sessionId"@) == Some(id),
    ensures
        title_from(items, id, i) == title_of(items[n]),
    decreases n - i,
{
    if i < n {
        assert(crate::json::get_text(items[i], "sessionId"@) != Some(id));
        lemma_title_from(items, id, i + 1, n);
    }
}

/// The request asks for the list of sessions, under the given id.
pub proof fn law_the_request_asks_for_the_sessions(rpc_id: Seq<char>)
    ensures
        ({
            let request = list_request(rpc_id);
            &&& crate::json::get_text(request, "type"@) == Some("client-request"@)
            &&& crate::json::get_text(request, "method"@) == Some("session.list"@)
            &&& crate::json::get_text(request, "rpcId"@) == Some(rpc_id)
            &&& request.get("payload"@) == Some(JsonView::Obj(Map::empty()))
        }),
{
    reveal_strlit("type");
    reveal_strlit("rpcId");
    reveal_strlit("method");
    reveal_strlit("payload");
    assert("type"@.len() == 4 && "rpcId"@.len() == 5 && "method"@.len() == 6 && "payload"@.len()
        == 7);
}

/// After an orderly close the pause is half a second, as after the first
/// failure. The second, third and fourth failure in a row double it, and from
/// the fifth on it is eight seconds.
pub proof fn law_an_orderly_close_starts_afresh(attempt: u32, n: nat)
    ensures
        backoff_delay(attempts_after(attempt, true)) == 500,
        backoff_delay(attempts_failed(1)) == 500,
        backoff_delay(attempts_failed(2)) == 1000,
        backoff_delay(attempts_failed(3)) == 2000,
        backoff_delay(attempts_failed(4)) == 4000,
        n >= 5 ==> backoff_delay(attempts_failed(n)) == 8000,
    decreases n,
{
    reveal_with_fuel(attempts_failed, 6);
    lemma_attempts_failed(n);
}

proof fn lemma_attempts_failed(n: nat)
    ensures
        attempts_failed(n) == n || n > attempts_failed(n) == u32::MAX,
    decreases n,
{
    if n > 0 {
        lemma_attempts_failed((n - 1) as nat);
    }
}

} // verus!
