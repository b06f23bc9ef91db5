//! The decisions of the simulation loop: how a command changes the loop state
//! and what work it calls for, and what each iteration does.
use vstd::prelude::*;

verus! {

/// Iterations between two resampling passes of the running simulation.
pub const RESAMPLE_PERIOD: u64 = 8;

/// Whether the loop keeps running and whether it is paused.
#[derive(Clone, Copy, Debug, PartialEq, Eq)]
pub struct LoopState {
    pub running: bool,
    pub paused: bool,
}

/// A command, as far as the loop's decisions depend on it. For new settings,
/// whether the via fixing and the segment size differ from the current ones.
#[derive(Clone, Copy, Debug, PartialEq, Eq)]
pub enum Control {
    Kill,
    Import,
    Pause,
    Resume,
    Reset,
    UpdateSettings { fix_vias_changed: bool, segment_size_changed: bool },
}

/// The work a command calls for.
#[derive(Clone, Copy, Debug, PartialEq, Eq)]
pub enum ControlAction {
    /// Nothing beyond the state change.
    Nothing,
    /// Import the board and send a snapshot.
    ImportAndSend,
    /// Start from fresh data, import the board and send a snapshot.
    ResetAndImport,
    /// Adopt the new settings; first put the vias at rest with the new fixing
    /// if it changed, and resample the curves if the segment size changed.
    AdoptSettings { release_vias: bool, resample: bool },
}

/// What one iteration of the loop does.
#[derive(Clone, Copy, Debug, PartialEq, Eq)]
pub enum Step {
    /// Paused: wait a frame.
    Sleep,
    /// Simulate iteration number `iterations`, resampling first if `resample`.
    Advance { iterations: u64, resample: bool },
}

/// The loop state after a command: a kill stops the loop, a pause or a resume
/// sets the pause flag, every other command leaves the state as it is.
pub open spec fn next_state(s: LoopState, cmd: Control) -> LoopState {
    LoopState {
        running: s.running && cmd != Control::Kill,
        paused: match cmd {
            Control::Pause => true,
            Control::Resume => false,
            _ => s.paused,
        },
    }
}

/// Only a kill, a pause or a resume changes the loop state; any other
/// command (an import, a reset, new settings) leaves it as it was.
pub proof fn law_other_commands_keep_state(s: LoopState, cmd: Control)
    requires
        cmd != Control::Kill,
        cmd != Control::Pause,
        cmd != Control::Resume,
    ensures
        next_state(s, cmd) == s,
{
}

/// A kill stops the loop and keeps the pause flag; a pause or a resume sets
/// the pause flag and keeps the loop running as it was.
pub proof fn law_kill_pause_resume(s: LoopState)
    ensures
        !next_state(s, Control::Kill).running && next_state(s, Control::Kill).paused == s.paused,
        next_state(s, Control::Pause) == (LoopState { running: s.running, paused: true }),
        next_state(s, Control::Resume) == (LoopState { running: s.running, paused: false }),
{
}

/// The work a command calls for.
pub open spec fn action_of(cmd: Control) -> ControlAction {
    match cmd {
        Control::Kill | Control::Pause | Control::Resume => ControlAction::Nothing,
        Control::Import => ControlAction::ImportAndSend,
        Control::Reset => ControlAction::ResetAndImport,
        Control::UpdateSettings { fix_vias_changed, segment_size_changed } => ControlAction::AdoptSettings {
            release_vias: fix_vias_changed,
            resample: segment_size_changed,
        },
    }
}

/// Applies a command to the loop state and tells what work it calls for.
pub fn handle_command(state: &mut LoopState, cmd: Control) -> (r: ControlAction)
    ensures
        *final(state) == next_state(*old(state), cmd),
        r == action_of(cmd),
        cmd != Control::Kill && cmd != Control::Pause && cmd != Control::Resume ==> *final(state) == *old(state),
        cmd == Control::Kill ==> !final(state).running && final(state).paused == old(state).paused,
        cmd == Control::Pause ==> final(state).paused && final(state).running == old(state).running,
        cmd == Control::Resume ==> !final(state).paused && final(state).running == old(state).running,
{
    match cmd {
        Control::Kill => {
            state.running = false;
            ControlAction::Nothing
        },
        Control::Import => ControlAction::ImportAndSend,
        Control::Pause => {
            state.paused = true;
            ControlAction::Nothing
        },
        Control::Resume => {
            state.paused = false;
            ControlAction::Nothing
        },
        Control::UpdateSettings { fix_vias_changed, segment_size_changed } => {
            ControlAction::AdoptSettings { release_vias: fix_vias_changed, resample: segment_size_changed }
        },
        Control::Reset => ControlAction::ResetAndImport,
    }
}

/// Plans the next iteration: a paused loop sleeps; otherwise the iteration
/// count goes up by one and every `RESAMPLE_PERIOD`-th iteration resamples.
pub fn plan_step(paused: bool, iterations: u64) -> (r: Step)
    requires
        !paused ==> iterations < u64::MAX,
    ensures
        paused ==> r == Step::Sleep,
        !paused ==> r == (Step::Advance {
            iterations: (iterations + 1) as u64,
            resample: (iterations + 1) % (RESAMPLE_PERIOD as int) == 0,
        }),
{
    if paused {
        Step::Sleep
    } else {
        let next = iterations + 1;
        Step::Advance { iterations: next, resample: next % RESAMPLE_PERIOD == 0 }
    }
}

/// Whether collision sweep `iteration` goes through the collisions in order
/// (odd sweeps) rather than in reverse (even sweeps).
pub fn sweep_forward(iteration: usize) -> (r: bool)
    ensures
        r == (iteration % 2 == 1),
{
    iteration % 2 == 1
}

/// Pausing and then resuming gives back the loop state of before, unless the
/// loop was paused already; a killed loop stays stopped whatever follows.
pub proof fn law_pause_resume(s: LoopState, cmd: Control)
    ensures
        !s.paused ==> next_state(next_state(s, Control::Pause), Control::Resume) == s,
        !next_state(s, Control::Kill).running,
        !s.running ==> !next_state(s, cmd).running,
{
}

} // verus!
