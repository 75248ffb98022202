use cc_cockpit::awake::caffeinate_args;
use cc_cockpit::awake::helper_args;
use cc_cockpit::awake::AwakePayload;
use cc_cockpit::awake::Lever;
use cc_cockpit::awake::LeverAction;
use cc_cockpit::awake::HELPER;

#[test]
fn args_bind_assertion_to_watched_pid() {
    assert_eq!(caffeinate_args(4242), ["-is", "-w", "4242"]);
}

#[test]
fn helper_args_never_prompt_and_pass_pid_only_for_on() {
    assert_eq!(helper_args("on", Some(7)), ["-n", HELPER, "on", "7"]);
    assert_eq!(helper_args("off", None), ["-n", HELPER, "off"]);
}

#[test]
fn reap_clears_exited_child_and_keeps_live_one() {
    let mut done = Lever::new();
    assert_eq!(done.awake_set(true), LeverAction::Start);
    done.started(false);
    done.reap_dead(true);
    assert!(!done.payload().on, "exited child must be reaped");

    let mut live = Lever::new();
    live.awake_set(true);
    live.started(false);
    live.reap_dead(false);
    assert!(live.payload().on, "live child must survive reap");
}

#[test]
fn lever_goes_on_and_off() {
    let mut l = Lever::new();
    assert_eq!(l.payload(), AwakePayload { on: false, lid_proof: false });
    assert_eq!(l.awake_set(false), LeverAction::Rest);
    assert_eq!(l.awake_set(true), LeverAction::Start);
    l.started(true);
    assert_eq!(l.payload(), AwakePayload { on: true, lid_proof: true });
    assert_eq!(l.awake_set(true), LeverAction::Rest);
    assert_eq!(l.awake_set(false), LeverAction::Stop { end_child: true, helper_off: true });
    assert_eq!(l.payload(), AwakePayload { on: false, lid_proof: false });
}
