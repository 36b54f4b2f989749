use vstd::prelude::*;

use crate::parser::Command;
use crate::text::push_text;

verus! {

/// Where a stage's standard input comes from.
#[derive(Debug, Clone, Copy, PartialEq, Eq, Structural)]
pub enum StdinSource {
    /// The shell's own input (the first stage).
    Inherit,
    /// The output of the stage before.
    Previous,
    /// Nothing: the stage before gave no output to read.
    Null,
}

/// Where a stage's standard output goes.
#[derive(Debug, Clone, Copy, PartialEq, Eq, Structural)]
pub enum StdoutTarget {
    /// The shell's own output (the last stage).
    Inherit,
    /// A pipe that the next stage reads.
    Piped,
    /// The file of the command's output redirect at this index.
    File(usize),
}

/// How one stage is to be started.
#[derive(Debug, Clone, Copy, PartialEq, Eq, Structural)]
pub struct StagePlan {
    pub stdin: StdinSource,
    pub stdout: StdoutTarget,
}

/// How far the running of a pipeline has come.
#[derive(Debug, Clone, Copy, PartialEq, Eq, Structural)]
pub struct Execution {
    /// The stage to start next.
    pub stage: usize,
    /// Whether the stage before left an output for this one to read.
    pub has_previous: bool,
}

/// The plan of stage `e.stage` of a pipeline of `n` stages, whose command has
/// `redirects` output redirects: input from the stage before when it left an
/// output, null input when it did not; output to the last redirect if there is
/// one, else to a pipe unless the stage is the last.
pub open spec fn stage_plan(e: Execution, n: int, redirects: int) -> StagePlan {
    StagePlan {
        stdin: if e.stage == 0 {
            StdinSource::Inherit
        } else if e.has_previous {
            StdinSource::Previous
        } else {
            StdinSource::Null
        },
        stdout: if redirects > 0 {
            StdoutTarget::File((redirects - 1) as usize)
        } else if e.stage + 1 < n {
            StdoutTarget::Piped
        } else {
            StdoutTarget::Inherit
        },
    }
}

/// The state after the stage planned by `p` was started (`spawned`) or failed to
/// start: the next stage has an output to read only from a started stage whose
/// output went to a pipe.
pub open spec fn next_state(e: Execution, p: StagePlan, spawned: bool) -> Execution {
    Execution { stage: (e.stage + 1) as usize, has_previous: spawned && p.stdout == StdoutTarget::Piped }
}

impl Execution {
    /// The state before any stage is started.
    pub fn begin() -> (e: Execution)
        ensures
            e.stage == 0,
            !e.has_previous,
    {
        Execution { stage: 0, has_previous: false }
    }

    /// Whether every stage of the pipeline has been dealt with.
    pub fn is_done(&self, pipeline: &Vec<Command>) -> (r: bool)
        ensures
            r == (self.stage >= pipeline@.len()),
    {
        self.stage >= pipeline.len()
    }

    /// How to start the next stage.
    pub fn plan(&self, pipeline: &Vec<Command>) -> (p: StagePlan)
        requires
            self.stage < pipeline@.len(),
        ensures
            p == stage_plan(
                *self,
                pipeline@.len() as int,
                pipeline@[self.stage as int].output_redirects@.len() as int,
            ),
    {
        let n = pipeline.len();
        let redirects = pipeline[self.stage].output_redirects.len();
        let stdin = if self.stage == 0 {
            StdinSource::Inherit
        } else if self.has_previous {
            StdinSource::Previous
        } else {
            StdinSource::Null
        };
        let stdout = if redirects > 0 {
            StdoutTarget::File(redirects - 1)
        } else if self.stage + 1 < n {
            StdoutTarget::Piped
        } else {
            StdoutTarget::Inherit
        };
        StagePlan { stdin, stdout }
    }

    /// The state once the stage planned by `p` has been started, or has failed
    /// to start; either way the run goes on with the next stage.
    pub fn after_spawn(&self, p: StagePlan, spawned: bool) -> (e: Execution)
        requires
            self.stage < usize::MAX,
        ensures
            e == next_state(*self, p, spawned),
            e.stage == self.stage + 1,
    {
        Execution { stage: self.stage + 1, has_previous: spawned && p.stdout == StdoutTarget::Piped }
    }
}

/// A stage that fails to start does not stop the run: the next stage is still
/// started, and it reads null input instead of waiting for output that will
/// never come.
pub proof fn lemma_failed_stage_gives_null_input(e: Execution, p: StagePlan, n: int, redirects: int)
    requires
        e.stage + 1 < n <= usize::MAX,
    ensures
        next_state(e, p, false).stage == e.stage + 1,
        stage_plan(next_state(e, p, false), n, redirects).stdin == StdinSource::Null,
{
}

/// The state after the first `outcomes.len()` stages of a pipeline of `n` stages
/// were started or failed to start, as `outcomes` says; `redirects[i]` is the
/// number of output redirects of stage `i`.
pub open spec fn replay(n: int, redirects: Seq<int>, outcomes: Seq<bool>) -> Execution
    decreases outcomes.len(),
{
    if outcomes.len() == 0 {
        Execution { stage: 0, has_previous: false }
    } else {
        let e = replay(n, redirects, outcomes.drop_last());
        next_state(e, stage_plan(e, n, redirects[e.stage as int]), outcomes.last())
    }
}

/// Whatever the outcome of each stage, the run reaches the end of the
/// pipeline after one event per stage.
pub proof fn lemma_run_completes(n: int, redirects: Seq<int>, outcomes: Seq<bool>)
    requires
        outcomes.len() <= n <= usize::MAX,
    ensures
        replay(n, redirects, outcomes).stage == outcomes.len(),
    decreases outcomes.len(),
{
    if outcomes.len() > 0 {
        lemma_run_completes(n, redirects, outcomes.drop_last());
    }
}

/// The diagnostic for a program that could not be started.
pub fn not_found_message(program: &str) -> (m: String)
    ensures
        m@ == program@ + ": command not found"@,
{
    let mut m = String::new();
    push_text(&mut m, program);
    push_text(&mut m, ": command not found");
    proof {
        assert(m@ =~= program@ + ": command not found"@);
    }
    m
}

} // verus!
