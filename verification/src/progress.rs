//! Pipeline stage tracking and per-stage progress reporting.
//!
//! A run moves through the stages of [`PipelineState`] in a fixed linear
//! order. The worker owns a [`ProgressChannel`], resets its progress on stage
//! entry, drives it while the stage runs and completes it before moving on; a
//! front end polls a copy of the pair to render status. Progress is kept in
//! permille (0 to 1000) so that the fraction `done / total` has an exact
//! integer representation.

use vstd::prelude::*;

verus! {

/// Progress at stage completion, in permille.
pub const PROGRESS_DONE: u16 = 1000;

/// The stages of one pipeline run, in execution order.
#[derive(Clone, Copy, Debug, PartialEq, Eq, Structural)]
pub enum PipelineState {
    Idle,
    Resampling,
    Segmenting,
    Transcribing,
    Saving,
    Finished,
}

/// The stage that follows `s`: stages are visited in a fixed linear order,
/// and a finished run returns to `Idle` when the next run begins.
pub open spec fn next_pipeline_state(s: PipelineState) -> PipelineState {
    match s {
        PipelineState::Idle => PipelineState::Resampling,
        PipelineState::Resampling => PipelineState::Segmenting,
        PipelineState::Segmenting => PipelineState::Transcribing,
        PipelineState::Transcribing => PipelineState::Saving,
        PipelineState::Saving => PipelineState::Finished,
        PipelineState::Finished => PipelineState::Idle,
    }
}

impl PipelineState {
    /// The stage that follows `self` in the linear run order.
    pub fn successor(self) -> (next: PipelineState)
        ensures
            next == next_pipeline_state(self),
    {
        match self {
            PipelineState::Idle => PipelineState::Resampling,
            PipelineState::Resampling => PipelineState::Segmenting,
            PipelineState::Segmenting => PipelineState::Transcribing,
            PipelineState::Transcribing => PipelineState::Saving,
            PipelineState::Saving => PipelineState::Finished,
            PipelineState::Finished => PipelineState::Idle,
        }
    }
}

impl Default for PipelineState {
    /// A pipeline starts idle.
    fn default() -> (s: Self)
        ensures
            s == PipelineState::Idle,
    {
        PipelineState::Idle
    }
}

/// The current stage of a run together with that stage's fractional progress.
///
/// The pair is written by the single worker driving the run and read by any
/// number of observers; a caller that shares it across threads wraps it in a
/// lock, since only the plain single-writer transitions are modelled here.
#[derive(Clone, Copy, Debug)]
pub struct ProgressChannel {
    stage: PipelineState,
    permille: u16,
}

impl ProgressChannel {
    /// The current stage, as an abstract value.
    pub closed spec fn stage_spec(self) -> PipelineState {
        self.stage
    }

    /// The current progress in permille, as an abstract value.
    pub closed spec fn permille_spec(self) -> u16 {
        self.permille
    }

    /// Progress never exceeds the completed value.
    pub closed spec fn wf(self) -> bool {
        self.permille <= PROGRESS_DONE
    }

    /// A fresh channel: idle, no progress.
    pub fn new() -> (c: ProgressChannel)
        ensures
            c.stage_spec() == PipelineState::Idle,
            c.permille_spec() == 0,
            c.wf(),
    {
        ProgressChannel { stage: PipelineState::Idle, permille: 0 }
    }

    /// The current stage.
    pub fn stage(&self) -> (s: PipelineState)
        ensures
            s == self.stage_spec(),
    {
        self.stage
    }

    /// The current progress in permille.
    pub fn permille(&self) -> (p: u16)
        ensures
            p == self.permille_spec(),
    {
        self.permille
    }

    /// Moves to the next stage in the linear order and resets progress,
    /// as happens on stage entry.
    pub fn enter_next_stage(&mut self)
        ensures
            final(self).stage_spec() == next_pipeline_state(old(self).stage_spec()),
            final(self).permille_spec() == 0,
            final(self).wf(),
    {
        self.stage = self.stage.successor();
        self.permille = 0;
    }

    /// Records that `done` of `total` units of the current stage are finished.
    pub fn report(&mut self, done: usize, total: usize)
        requires
            0 < total,
            done <= total,
        ensures
            final(self).stage_spec() == old(self).stage_spec(),
            final(self).permille_spec() == 1000 * (done as int) / (total as int),
            final(self).wf(),
    {
        let ratio: u128 = (done as u128) * 1000 / (total as u128);
        proof {
            assert(1000 * (done as int) <= 1000 * (total as int)) by (nonlinear_arith)
                requires
                    done <= total,
            ;
            assert(1000 * (done as int) / (total as int) <= 1000 * (total as int) / (total as int))
                by (nonlinear_arith)
                requires
                    0 < total,
                    1000 * (done as int) <= 1000 * (total as int),
            ;
            assert(1000 * (total as int) / (total as int) == 1000) by (nonlinear_arith)
                requires
                    0 < total,
            ;
        }
        self.permille = ratio as u16;
    }

    /// Marks the current stage as completed, as happens just before the
    /// worker leaves the stage.
    pub fn finish_stage(&mut self)
        ensures
            final(self).stage_spec() == old(self).stage_spec(),
            final(self).permille_spec() == PROGRESS_DONE,
            final(self).wf(),
    {
        self.permille = PROGRESS_DONE;
    }
}

} // verus!
