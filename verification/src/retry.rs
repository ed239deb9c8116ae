//! The attempts of an HTTP request to a translation service: at most three,
//! with waits that grow between them, and for the OpenAI-compatible services
//! a second try without `response_format` when the service refuses it.

use crate::text::{chars_of, owned, starts_at, starts_with_at, str_eq, strings_view};
use vstd::prelude::*;

verus! {

/// What one attempt of an OpenAI-compatible request brought back.
pub enum Reply {
    /// The request did not reach the service.
    Network { message: String },
    /// The service answered with a failure status `code`; `message` is the
    /// report of it (`HTTP <status>: <body>`).
    Status { code: u16, body: String, message: String },
    /// The service answered with success, but the answer could not be read.
    Unreadable { message: String },
    /// The service answered with a JSON object with the keys `keys`.
    Answer { keys: Vec<String> },
}

pub enum ReplyView {
    Network(Seq<char>),
    Status(u16, Seq<char>, Seq<char>),
    Unreadable(Seq<char>),
    Answer(Seq<Seq<char>>),
}


impl View for Reply {
    type V = ReplyView;

    open spec fn view(&self) -> ReplyView {
        match self {
            Reply::Network { message } => ReplyView::Network(message@),
            Reply::Status { code, body, message } => ReplyView::Status(*code, body@, message@),
            Reply::Unreadable { message } => ReplyView::Unreadable(message@),
            Reply::Answer { keys } => ReplyView::Answer(strings_view(keys@)),
        }
    }
}

/// What to do after an attempt.
pub enum Step {
    /// Send the next attempt at once.
    Send,
    /// Wait `millis` milliseconds, then send the next attempt.
    Wait(u64),
    /// The request succeeded.
    Succeeded,
    /// The request failed with this message.
    Failed(String),
}

pub enum StepView {
    Send,
    Wait(nat),
    Succeeded,
    Failed(Seq<char>),
}

impl View for Step {
    type V = StepView;

    open spec fn view(&self) -> StepView {
        match self {
            Step::Send => StepView::Send,
            Step::Wait(m) => StepView::Wait(*m as nat),
            Step::Succeeded => StepView::Succeeded,
            Step::Failed(m) => StepView::Failed(m@),
        }
    }
}

/// Where an OpenAI-compatible request stands: the attempt about to be judged
/// (counted from 0), whether it asked for `response_format`, and the report
/// of the last failure.
pub struct OpenAiState {
    pub attempt: u64,
    pub use_format: bool,
    pub last: String,
}

pub struct OpenAiStateView {
    pub attempt: nat,
    pub use_format: bool,
    pub last: Seq<char>,
}

impl View for OpenAiState {
    type V = OpenAiStateView;

    open spec fn view(&self) -> OpenAiStateView {
        OpenAiStateView { attempt: self.attempt as nat, use_format: self.use_format, last: self.last@ }
    }
}

/// `w` occurs in `t`.
pub open spec fn mentions(t: Seq<char>, w: Seq<char>) -> bool {
    exists|p: int| starts_at(t, p, w)
}

/// The service refused the `response_format` field: HTTP 400 or 422 with a
/// body that names it.
pub open spec fn refuses_format(code: u16, body: Seq<char>) -> bool {
    (code == 400 || code == 422) && (mentions(body, "response_format"@) || mentions(body, "json_object"@))
}

/// Every id of the batch came back.
pub open spec fn all_returned(ids: Seq<Seq<char>>, keys: Seq<Seq<char>>) -> bool {
    forall|i: int| 0 <= i < ids.len() ==> keys.contains(#[trigger] ids[i])
}

pub open spec fn missing_entries_message() -> Seq<char> {
    "OpenAI 兼容接口返回内容缺少条目"@
}

/// After a failed attempt with the report `last`: wait 800 ms times the
/// number of attempts made, or give up after the third.
pub open spec fn openai_after_failure(attempt: nat, use_format: bool, last: Seq<char>) -> (StepView, OpenAiStateView) {
    if attempt < 2 {
        (StepView::Wait(800 * (attempt + 1)), OpenAiStateView { attempt: attempt + 1, use_format, last })
    } else {
        (StepView::Failed(last), OpenAiStateView { attempt: attempt + 1, use_format, last })
    }
}

/// The decision after attempt `s.attempt` of an OpenAI-compatible request for
/// the units `ids`, and the state for the next attempt.
pub open spec fn openai_next(s: OpenAiStateView, reply: ReplyView, ids: Seq<Seq<char>>) -> (StepView, OpenAiStateView) {
    match reply {
        ReplyView::Status(code, body, message) => if s.use_format && refuses_format(code, body) {
            if s.attempt < 2 {
                (StepView::Send, OpenAiStateView { attempt: s.attempt + 1, use_format: false, last: s.last })
            } else {
                (StepView::Failed(s.last), OpenAiStateView { attempt: s.attempt + 1, use_format: false, last: s.last })
            }
        } else {
            openai_after_failure(s.attempt, s.use_format, message)
        },
        ReplyView::Network(message) => openai_after_failure(s.attempt, s.use_format, message),
        ReplyView::Unreadable(message) => (StepView::Failed(message), OpenAiStateView { attempt: s.attempt + 1, ..s }),
        ReplyView::Answer(keys) => if all_returned(ids, keys) {
            (StepView::Succeeded, OpenAiStateView { attempt: s.attempt + 1, ..s })
        } else {
            openai_after_failure(s.attempt, s.use_format, missing_entries_message())
        },
    }
}

/// The first attempt asks for `response_format`; no failure yet.
pub fn openai_start() -> (s: OpenAiState)
    ensures
        s@ == (OpenAiStateView { attempt: 0, use_format: true, last: Seq::empty() }),
{
    OpenAiState { attempt: 0, use_format: true, last: String::new() }
}

/// Whether `w` occurs in `t`.
pub fn mentions_exec(t: &str, w: &str) -> (r: bool)
    ensures
        r == mentions(t@, w@),
{
    let tv = chars_of(t);
    let wv = chars_of(w);
    let mut p: usize = 0;
    loop
        invariant
            p <= tv.len(),
            tv@ == t@,
            wv@ == w@,
            forall|q: int| 0 <= q < p ==> !starts_at(t@, q, w@),
        decreases tv.len() - p,
    {
        if starts_with_at(&tv, p, &wv) {
            return true;
        }
        if p == tv.len() {
            assert forall|q: int| !starts_at(t@, q, w@) by {
                if q > p {
                    assert(q + w@.len() > t@.len());
                }
            }
            return false;
        }
        p += 1;
    }
}

fn is_returned(keys: &Vec<String>, id: &str) -> (r: bool)
    ensures
        r == strings_view(keys@).contains(id@),
{
    let mut i: usize = 0;
    while i < keys.len()
        invariant
            i <= keys.len(),
            forall|k: int| 0 <= k < i ==> strings_view(keys@)[k] != id@,
        decreases keys.len() - i,
    {
        if str_eq(keys[i].as_str(), id) {
            assert(strings_view(keys@)[i as int] == id@);
            return true;
        }
        i += 1;
    }
    false
}

fn every_returned(ids: &Vec<String>, keys: &Vec<String>) -> (r: bool)
    ensures
        r == all_returned(strings_view(ids@), strings_view(keys@)),
{
    let mut i: usize = 0;
    while i < ids.len()
        invariant
            i <= ids.len(),
            forall|k: int| 0 <= k < i ==> strings_view(keys@).contains(#[trigger] strings_view(ids@)[k]),
        decreases ids.len() - i,
    {
        if !is_returned(keys, ids[i].as_str()) {
            assert(strings_view(ids@)[i as int] == ids@[i as int]@);
            assert(!strings_view(keys@).contains(strings_view(ids@)[i as int]));
            return false;
        }
        i += 1;
    }
    true
}

fn openai_failure(attempt: u64, use_format: bool, last: String) -> (r: (Step, OpenAiState))
    requires
        attempt < 3,
    ensures
        (r.0@, r.1@) == openai_after_failure(attempt as nat, use_format, last@),
{
    if attempt < 2 {
        (Step::Wait(800 * (attempt + 1)), OpenAiState { attempt: attempt + 1, use_format, last })
    } else {
        let m = last.clone();
        (Step::Failed(m), OpenAiState { attempt: attempt + 1, use_format, last })
    }
}

/// Judges attempt `state.attempt` of an OpenAI-compatible request for the
/// units `ids`: what to do next, and the state for the next attempt.
pub fn openai_step(state: &OpenAiState, reply: &Reply, ids: &Vec<String>) -> (r: (Step, OpenAiState))
    requires
        state.attempt < 3,
    ensures
        (r.0@, r.1@) == openai_next(state@, reply@, strings_view(ids@)),
{
    let attempt = state.attempt;
    let use_format = state.use_format;
    match reply {
        Reply::Status { code, body, message } => {
            let refused = (*code == 400 || *code == 422) && (mentions_exec(body.as_str(), "response_format")
                || mentions_exec(body.as_str(), "json_object"));
            if use_format && refused {
                if attempt < 2 {
                    (Step::Send, OpenAiState { attempt: attempt + 1, use_format: false, last: state.last.clone() })
                } else {
                    (Step::Failed(state.last.clone()), OpenAiState { attempt: attempt + 1, use_format: false, last: state.last.clone() })
                }
            } else {
                openai_failure(attempt, use_format, message.clone())
            }
        },
        Reply::Network { message } => openai_failure(attempt, use_format, message.clone()),
        Reply::Unreadable { message } => (
            Step::Failed(message.clone()),
            OpenAiState { attempt: attempt + 1, use_format, last: state.last.clone() },
        ),
        Reply::Answer { keys } => {
            if every_returned(ids, keys) {
                (Step::Succeeded, OpenAiState { attempt: attempt + 1, use_format, last: state.last.clone() })
            } else {
                openai_failure(attempt, use_format, owned("OpenAI 兼容接口返回内容缺少条目"))
            }
        },
    }
}

/// The decision after attempt `attempt` of a request to the other services:
/// success ends it; a failure with the report `failure` waits 1000 ms times
/// the number of attempts made, and the third failure gives up with it.
pub open spec fn retry_next(attempt: nat, succeeded: bool, failure: Seq<char>) -> StepView {
    if succeeded {
        StepView::Succeeded
    } else if attempt < 2 {
        StepView::Wait(1000 * (attempt + 1))
    } else {
        StepView::Failed(failure)
    }
}

/// Judges attempt `attempt` of a request to the other services.
pub fn retry_step(attempt: u64, succeeded: bool, failure: &str) -> (r: Step)
    requires
        attempt < 3,
    ensures
        r@ == retry_next(attempt as nat, succeeded, failure@),
{
    if succeeded {
        Step::Succeeded
    } else if attempt < 2 {
        Step::Wait(1000 * (attempt + 1))
    } else {
        Step::Failed(owned(failure))
    }
}

} // verus!
