//! Human input during agent execution.

use vstd::prelude::*;

use crate::text::{is_blank, trim_spec};

verus! {

/// Human input from the console, handled in a loop of prompts.
#[derive(Debug)]
pub struct SyncHumanInputProvider;

/// What the feedback loop does with one answer: the answer after it and
/// whether to ask again. Blank feedback keeps the answer and stops; other
/// feedback becomes the answer, and the loop goes on unless in training.
pub open spec fn feedback_step_spec(current: Seq<char>, feedback: Seq<char>, is_training_mode: bool) -> (Seq<char>, bool) {
    if trim_spec(feedback).len() == 0 {
        (current, false)
    } else {
        (feedback, !is_training_mode)
    }
}

/// In training mode the loop asks once: no answer asks again. Outside it,
/// the loop goes on exactly while feedback is not blank, and blank feedback
/// keeps the answer.
pub proof fn lemma_feedback_loop_stops(current: Seq<char>, feedback: Seq<char>, is_training_mode: bool)
    ensures
        is_training_mode ==> !feedback_step_spec(current, feedback, is_training_mode).1,
        !is_training_mode ==> feedback_step_spec(current, feedback, is_training_mode).1 == (trim_spec(feedback).len()
            > 0),
        trim_spec(feedback).len() == 0 ==> feedback_step_spec(current, feedback, is_training_mode).0 == current,
        trim_spec(feedback).len() > 0 ==> feedback_step_spec(current, feedback, is_training_mode).0 == feedback,
{
}

impl SyncHumanInputProvider {
    /// The console provider uses the standard message setup.
    pub fn setup_messages(&self) -> (r: bool)
        ensures
            !r,
    {
        false
    }

    /// Nothing to do after the standard message setup.
    pub fn post_setup_messages(&self) {
    }

    /// One round of the feedback loop (see `feedback_step_spec`).
    pub fn feedback_step(current: String, feedback: String, is_training_mode: bool) -> (r: (String, bool))
        ensures
            (r.0@, r.1) == feedback_step_spec(current@, feedback@, is_training_mode),
    {
        if is_blank(feedback.as_str()) {
            (current, false)
        } else {
            (feedback, !is_training_mode)
        }
    }
}

/// The human input provider in use, installing the console provider when
/// none is set.
pub fn get_provider<P>(slot: &mut Option<P>, console: P) -> (r: &P)
    ensures
        (*old(slot)) is Some ==> *final(slot) == *old(slot),
        (*old(slot)) is None ==> *final(slot) == Some(console),
        Some(*r) == *final(slot),
{
    if slot.is_none() {
        *slot = Some(console);
    }
    slot.as_ref().unwrap()
}

/// Make `provider` the provider in use.
pub fn set_provider<P>(slot: &mut Option<P>, provider: P)
    ensures
        *final(slot) == Some(provider),
{
    *slot = Some(provider);
}

/// Remove the provider in use.
pub fn reset_provider<P>(slot: &mut Option<P>)
    ensures
        *final(slot) is None,
{
    *slot = None;
}

} // verus!
