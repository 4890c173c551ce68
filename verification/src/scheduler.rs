//! The frame scheduler: which of the game's callbacks is due, given how the
//! last one ended and whether the host has asked for a shutdown.

use vstd::prelude::*;

verus! {

/// Where a run of the game stands.
#[derive(Clone, Copy, Debug, PartialEq, Eq, Structural)]
pub enum Phase {
    /// The game's setup has not run yet.
    Initializing,
    /// Frames are being produced.
    Running,
    /// The run is to end, and the game's teardown is due.
    ShuttingDown,
    /// The run is over.
    Terminated,
}

/// What the host is to do next.
#[derive(Clone, Copy, Debug, PartialEq, Eq, Structural)]
pub enum Action {
    /// Call the game's setup.
    Setup,
    /// Measure the time, refresh the input, call the game's update and
    /// present the screen.
    Frame,
    /// Call the game's teardown.
    Teardown,
    /// Leave the loop.
    Stop,
}

/// The step that is due in a phase.
pub open spec fn action_of(phase: Phase) -> Action {
    match phase {
        Phase::Initializing => Action::Setup,
        Phase::Running => Action::Frame,
        Phase::ShuttingDown => Action::Teardown,
        Phase::Terminated => Action::Stop,
    }
}

/// The phase that follows `phase` once its step has been done. `outcome` is
/// what the game's callback returned, and `close_requested` says whether the
/// host has asked for a shutdown. Setup and frames go on to the next frame
/// if the callback succeeded and no shutdown was asked for, and to the
/// teardown otherwise. A teardown that agrees ends the run; one that refuses
/// sends it back to the frames.
pub open spec fn next_phase(phase: Phase, outcome: bool, close_requested: bool) -> Phase {
    match phase {
        Phase::Initializing | Phase::Running => if outcome && !close_requested {
            Phase::Running
        } else {
            Phase::ShuttingDown
        },
        Phase::ShuttingDown => if outcome {
            Phase::Terminated
        } else {
            Phase::Running
        },
        Phase::Terminated => Phase::Terminated,
    }
}

/// The phase reached from `phase` after the steps whose outcomes and
/// shutdown requests are listed in `steps`, in their order.
pub open spec fn phase_after(phase: Phase, steps: Seq<(bool, bool)>) -> Phase
    decreases steps.len(),
{
    if steps.len() == 0 {
        phase
    } else {
        next_phase(phase_after(phase, steps.drop_last()), steps.last().0, steps.last().1)
    }
}

/// A run ends only through a teardown that agreed to it.
pub proof fn lemma_teardown_before_end(phase: Phase, outcome: bool, close_requested: bool)
    requires
        phase != Phase::Terminated,
        next_phase(phase, outcome, close_requested) == Phase::Terminated,
    ensures
        phase == Phase::ShuttingDown,
        outcome,
{
}

/// A run that is over stays over, whatever is reported to it.
pub proof fn lemma_terminated_stays(steps: Seq<(bool, bool)>)
    ensures
        phase_after(Phase::Terminated, steps) == Phase::Terminated,
    decreases steps.len(),
{
    if steps.len() > 0 {
        lemma_terminated_stays(steps.drop_last());
    }
}

/// A failed callback or a request for shutdown always leads to the teardown,
/// from setup as from a frame.
pub proof fn lemma_failure_leads_to_teardown(phase: Phase, outcome: bool, close_requested: bool)
    requires
        phase == Phase::Initializing || phase == Phase::Running,
        !outcome || close_requested,
    ensures
        next_phase(phase, outcome, close_requested) == Phase::ShuttingDown,
{
}

/// The scheduler of one run.
#[derive(Debug)]
pub struct FrameScheduler {
    phase: Phase,
}

impl View for FrameScheduler {
    type V = Phase;

    closed spec fn view(&self) -> Phase {
        self.phase
    }
}

impl FrameScheduler {
    /// A scheduler whose run has not begun.
    pub fn new() -> (s: Self)
        ensures
            s@ == Phase::Initializing,
    {
        FrameScheduler { phase: Phase::Initializing }
    }

    /// Starts a run and takes it through the steps whose ends are recorded
    /// in `steps`, each as what the callback returned and whether a shutdown
    /// had been asked for. Returns the scheduler as the run has left it.
    pub fn start(steps: &Vec<(bool, bool)>) -> (s: Self)
        ensures
            s@ == phase_after(Phase::Initializing, steps@),
    {
        let mut s = FrameScheduler::new();
        let mut i: usize = 0;
        while i < steps.len()
            invariant
                i <= steps.len(),
                s@ == phase_after(Phase::Initializing, steps@.take(i as int)),
            decreases steps.len() - i,
        {
            proof {
                assert(steps@.take(i + 1).drop_last() =~= steps@.take(i as int));
            }
            let step = steps[i];
            s.advance(step.0, step.1);
            i += 1;
        }
        proof {
            assert(steps@.take(i as int) =~= steps@);
        }
        s
    }

    /// The phase that the run is in.
    pub fn phase(&self) -> (p: Phase)
        ensures
            p == self@,
    {
        self.phase
    }

    /// The step that the host is to do now.
    pub fn action(&self) -> (a: Action)
        ensures
            a == action_of(self@),
    {
        match self.phase {
            Phase::Initializing => Action::Setup,
            Phase::Running => Action::Frame,
            Phase::ShuttingDown => Action::Teardown,
            Phase::Terminated => Action::Stop,
        }
    }

    /// Takes note of how the step that was due has ended, and returns the
    /// step that is due next.
    pub fn advance(&mut self, outcome: bool, close_requested: bool) -> (a: Action)
        ensures
            final(self)@ == next_phase(old(self)@, outcome, close_requested),
            a == action_of(final(self)@),
    {
        let next = match self.phase {
            Phase::Initializing | Phase::Running => {
                if outcome && !close_requested {
                    Phase::Running
                } else {
                    Phase::ShuttingDown
                }
            },
            Phase::ShuttingDown => {
                if outcome {
                    Phase::Terminated
                } else {
                    Phase::Running
                }
            },
            Phase::Terminated => Phase::Terminated,
        };
        self.phase = next;
        self.action()
    }
}

} // verus!
