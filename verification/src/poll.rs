//! The decisions of the Bot API long-polling loop.
use vstd::prelude::*;

use crate::text::{chars_of, string_from_chars};

verus! {

/// How long one `getUpdates` call waits for updates, in seconds.
pub const POLL_TIMEOUT_SECONDS: u32 = 25;

/// How long the loop waits after a failed poll or a failed update, in seconds.
pub const RETRY_SECONDS: u64 = 5;

/// The parameters of a `getUpdates` call.
pub struct PollParams {
    pub timeout: u32,
    pub allowed_updates: Vec<String>,
    pub offset: Option<i64>,
}

/// The parameters of the next poll: a 25-second wait, message updates only, and the stored
/// offset when there is one.
pub fn poll_params(offset: Option<i64>) -> (p: PollParams)
    ensures
        p.timeout == POLL_TIMEOUT_SECONDS,
        p.allowed_updates@.len() == 1,
        p.allowed_updates@[0]@ == "message"@,
        p.offset == offset,
{
    let mut allowed: Vec<String> = Vec::new();
    let m = chars_of("message");
    allowed.push(string_from_chars(&m));
    PollParams { timeout: POLL_TIMEOUT_SECONDS, allowed_updates: allowed, offset }
}

/// How handling one update ended.
pub enum UpdateOutcome {
    /// The update had no message, or its message was handled.
    Handled,
    /// Handling its message failed.
    Failed,
}

/// What the loop does after an update.
pub enum PollStep {
    /// Store `offset` as the next poll's offset, save the state, and go on with the batch.
    SaveAndContinue { offset: i64 },
    /// Leave the offset as it is, wait, and poll again: the update is read once more.
    StopBatch,
}

/// The step after an update: a handled update moves the offset past itself, a failure stops the
/// batch.
pub open spec fn step_spec(update_id: i64, outcome: UpdateOutcome) -> PollStep {
    match outcome {
        UpdateOutcome::Handled => PollStep::SaveAndContinue { offset: (update_id + 1) as i64 },
        UpdateOutcome::Failed => PollStep::StopBatch,
    }
}

/// After a handled update the next poll starts after it; after a failure the batch stops and the
/// offset stays, so that the update is retried.
pub fn after_update(update_id: i64, outcome: UpdateOutcome) -> (s: PollStep)
    requires
        outcome is Handled ==> update_id < i64::MAX,
    ensures
        s == step_spec(update_id, outcome),
        (outcome is Failed) <==> (s is StopBatch),
        outcome is Handled ==> s == (PollStep::SaveAndContinue { offset: (update_id + 1) as i64 }),
{
    match outcome {
        UpdateOutcome::Handled => PollStep::SaveAndContinue { offset: update_id + 1 },
        UpdateOutcome::Failed => PollStep::StopBatch,
    }
}

/// The stored offset after a batch of updates with these ids and outcomes, from `offset`: each
/// step as `after_update` decides it, until the first failure.
pub open spec fn batch_offset(ids: Seq<i64>, outcomes: Seq<UpdateOutcome>, offset: Option<i64>) -> Option<
    i64,
>
    decreases ids.len(),
{
    if ids.len() == 0 || outcomes.len() == 0 {
        offset
    } else {
        match step_spec(ids[0], outcomes[0]) {
            PollStep::SaveAndContinue { offset: o } => batch_offset(
                ids.drop_first(),
                outcomes.drop_first(),
                Some(o),
            ),
            PollStep::StopBatch => offset,
        }
    }
}

/// A failed update is delivered again: when the updates of a batch (ids ascending, as Telegram
/// sends them) are handled up to the first failure at `j`, the stored offset is the one the batch
/// started with (for `j == 0`) or the one past update `j - 1`, which is not past update `j`; so the
/// next poll asks for update `j` again. Without a failure the offset ends past the last update.
pub proof fn lemma_failed_update_redelivered(
    ids: Seq<i64>,
    outcomes: Seq<UpdateOutcome>,
    offset: Option<i64>,
    j: int,
)
    requires
        ids.len() == outcomes.len(),
        forall|a: int, b: int| 0 <= a < b < ids.len() ==> ids[a] < ids[b],
        forall|k: int| 0 <= k < ids.len() ==> ids[k] < i64::MAX,
        0 <= j <= ids.len(),
        forall|k: int| 0 <= k < j ==> outcomes[k] is Handled,
        j < ids.len() ==> outcomes[j] is Failed,
    ensures
        batch_offset(ids, outcomes, offset) == if j == 0 {
            offset
        } else {
            Some((ids[j - 1] + 1) as i64)
        },
        j > 0 && j < ids.len() ==> ids[j - 1] + 1 <= ids[j],
    decreases j,
{
    if j > 0 {
        let i1 = ids.drop_first();
        let o1 = outcomes.drop_first();
        assert(outcomes[0] is Handled);
        lemma_failed_update_redelivered(i1, o1, Some((ids[0] + 1) as i64), j - 1);
        if j > 1 {
            assert(i1[j - 2] == ids[j - 1]);
        }
    }
}

} // verus!
