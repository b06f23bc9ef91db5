use kicad_spaghetti::control::handle_command;
use kicad_spaghetti::control::plan_step;
use kicad_spaghetti::control::sweep_forward;
use kicad_spaghetti::control::Control;
use kicad_spaghetti::control::ControlAction;
use kicad_spaghetti::control::LoopState;
use kicad_spaghetti::control::Step;
use kicad_spaghetti::control::RESAMPLE_PERIOD;

#[test]
fn commands_change_the_loop_state() {
    let mut s = LoopState { running: true, paused: false };
    assert_eq!(handle_command(&mut s, Control::Pause), ControlAction::Nothing);
    assert!(s.paused && s.running);
    assert_eq!(handle_command(&mut s, Control::Import), ControlAction::ImportAndSend);
    assert!(s.paused);
    assert_eq!(handle_command(&mut s, Control::Resume), ControlAction::Nothing);
    assert!(!s.paused);
    assert_eq!(handle_command(&mut s, Control::Reset), ControlAction::ResetAndImport);
    assert_eq!(handle_command(&mut s, Control::Kill), ControlAction::Nothing);
    assert!(!s.running);
    handle_command(&mut s, Control::Resume);
    handle_command(&mut s, Control::Import);
    assert!(!s.running);
}

#[test]
fn settings_update_asks_for_what_changed() {
    let mut s = LoopState { running: true, paused: true };
    let a = handle_command(
        &mut s,
        Control::UpdateSettings { fix_vias_changed: true, segment_size_changed: false },
    );
    assert_eq!(a, ControlAction::AdoptSettings { release_vias: true, resample: false });
    assert_eq!(s, LoopState { running: true, paused: true });
}

#[test]
fn pause_then_resume_restores_state() {
    let s0 = LoopState { running: true, paused: false };
    let mut s = s0;
    handle_command(&mut s, Control::Pause);
    handle_command(&mut s, Control::Resume);
    assert_eq!(s, s0);
}

#[test]
fn steps_resample_every_period() {
    assert_eq!(plan_step(true, 5), Step::Sleep);
    assert_eq!(plan_step(false, 0), Step::Advance { iterations: 1, resample: false });
    assert_eq!(
        plan_step(false, RESAMPLE_PERIOD - 1),
        Step::Advance { iterations: RESAMPLE_PERIOD, resample: true }
    );
    assert_eq!(plan_step(false, 15), Step::Advance { iterations: 16, resample: true });
    assert_eq!(plan_step(false, 16), Step::Advance { iterations: 17, resample: false });
}

#[test]
fn sweeps_alternate_direction() {
    assert!(!sweep_forward(0));
    assert!(sweep_forward(1));
    assert!(!sweep_forward(2));
    assert!(sweep_forward(7));
}
