//! The decision logic of one bot run.
//!
//! A run is: load the state file, or register when none exists; pick the next
//! unposted line; submit it; and persist the outcome. The reading, the
//! network calls and the writing happen outside the library; the decisions
//! between them are made here, and each carries its contract. A failed post
//! never directs a save, so a failed run leaves the state file untouched.

use crate::state::State;
use vstd::prelude::*;

verus! {

/// What loading the state file yielded.
pub enum LoadResult {
    /// The file existed and held a well-formed record.
    Loaded(State),
    /// The file does not exist.
    NotFound,
    /// The file exists but could not be read or was not a well-formed record.
    Unreadable,
}

/// How a run begins.
pub enum RunStart {
    /// No state yet: perform the one-time registration, save its record, and
    /// end the run without posting.
    Register,
    /// A record was loaded: attempt the next post.
    Proceed(State),
    /// The state file was present but unusable: stop, touching nothing.
    Abort,
}

/// Decides how the run begins. Registration is chosen exactly when the state
/// file is absent; a present but unusable file stops the run; otherwise the
/// loaded record is carried forward unchanged.
pub fn begin_run(load: LoadResult) -> (r: RunStart)
    ensures
        (load matches LoadResult::Loaded(s) ==> r == RunStart::Proceed(s)),
        load is NotFound ==> r == RunStart::Register,
        load is Unreadable ==> r == RunStart::Abort,
{
    match load {
        LoadResult::Loaded(s) => RunStart::Proceed(s),
        LoadResult::NotFound => RunStart::Register,
        LoadResult::Unreadable => RunStart::Abort,
    }
}

/// The record a fresh registration produces: the issued credential, and no
/// post made yet, so the next run posts the first line.
pub fn initial_state(credential: Vec<u8>) -> (s: State)
    ensures
        s.credential@ == credential@,
        s.last_successful_index is None,
{
    State { credential, last_successful_index: None }
}

/// The next action of a loaded run.
pub enum Action {
    /// Post `text`, the line standing at `index`.
    Publish { index: usize, text: String },
    /// Every line has been posted already; there is nothing to do.
    OutOfContent,
}

/// Chooses the next action: post the line one past the last success (the
/// first line when nothing was posted yet), or report the content exhausted
/// when no such line exists. A blank line is as valid a payload as any.
pub fn plan_post(state: &State, lines: &Vec<String>) -> (a: Action)
    ensures
        state.spec_next_index() < lines@.len() ==> (a matches Action::Publish { index, text }
            && index == state.spec_next_index()
            && text@ == lines@[state.spec_next_index() as int]@),
        state.spec_next_index() >= lines@.len() ==> a is OutOfContent,
{
    match state.last_successful_index {
        None => {
            if lines.len() > 0 {
                Action::Publish { index: 0, text: lines[0].clone() }
            } else {
                Action::OutOfContent
            }
        },
        Some(k) => {
            if k < lines.len() {
                let next = k + 1;
                if next < lines.len() {
                    Action::Publish { index: next, text: lines[next].clone() }
                } else {
                    Action::OutOfContent
                }
            } else {
                Action::OutOfContent
            }
        },
    }
}

/// What the attempted action produced.
pub enum RunEvent {
    /// The line at `index` was posted successfully.
    Delivered { index: usize },
    /// The submission failed.
    DeliveryFailed,
    /// There was no line left to post.
    NoContent,
}

/// How the run ends.
pub enum Disposition {
    /// Write this record to the state file and exit successfully.
    Save(State),
    /// Exit with an error; the state file keeps its previous content.
    Fatal,
}

/// Concludes the run. A successful post advances the index to the posted
/// line and is persisted; exhausted content persists the record unchanged (a
/// value-equal rewrite); a failed post persists nothing, so the same line is
/// retried on the next run.
pub fn finish_run(state: State, event: RunEvent) -> (d: Disposition)
    ensures
        (event matches RunEvent::Delivered { index } ==> (d matches Disposition::Save(s2)
            && s2.credential@ == state.credential@
            && s2.last_successful_index == Some(index))),
        event is DeliveryFailed ==> d is Fatal,
        event is NoContent ==> (d matches Disposition::Save(s2)
            && s2.credential@ == state.credential@
            && s2.last_successful_index == state.last_successful_index),
{
    match event {
        RunEvent::Delivered { index } => Disposition::Save(
            State { credential: state.credential, last_successful_index: Some(index) },
        ),
        RunEvent::DeliveryFailed => Disposition::Fatal,
        RunEvent::NoContent => Disposition::Save(state),
    }
}

/// `last_successful_index`, once set, never decreases: a success recorded at
/// the planned next index is strictly past the previous index.
pub proof fn lemma_index_monotone(state: State, index: usize)
    requires
        index == state.spec_next_index(),
    ensures
        (match state.last_successful_index {
            Option::Some(k) => k < index,
            Option::None => true,
        }),
{
}

} // verus!
