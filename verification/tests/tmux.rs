use cc_cockpit::tmux::default_cwd_impl;
use cc_cockpit::tmux::ensure_healthy_session;
use cc_cockpit::tmux::ensure_session;
use cc_cockpit::tmux::has_session;
use cc_cockpit::tmux::server_healthy;
use cc_cockpit::tmux::set_configured_cwd;
use cc_cockpit::tmux::shq;
use cc_cockpit::tmux::shq_words;
use cc_cockpit::tmux::tmux_argv;
use cc_cockpit::tmux::tmux_ok;
use cc_cockpit::tmux::EnsureAction;
use cc_cockpit::tmux::EnsureStage;
use cc_cockpit::tmux::HealAction;
use cc_cockpit::tmux::TmuxOut;
use cc_cockpit::tmux::TmuxResult;

#[test]
fn shq_escapes_quotes_and_spaces() {
    assert_eq!(shq("/tmp/a b"), "'/tmp/a b'");
    assert_eq!(shq("it's"), "'it'\\''s'");
    assert_eq!(shq(""), "''");
}

#[test]
fn default_cwd_prefers_workflows_then_home_then_root() {
    let home = Some("/Users/u".to_string());
    assert_eq!(
        default_cwd_impl(None, home.clone(), |p| p == "/Users/u/Workflows"),
        "/Users/u/Workflows"
    );
    assert_eq!(default_cwd_impl(None, home, |_| false), "/Users/u");
    assert_eq!(default_cwd_impl(None, None, |_| true), "/");
}

#[test]
fn configured_cwd_wins_over_workflows_and_home() {
    let home = Some("/Users/u".to_string());
    assert_eq!(
        default_cwd_impl(Some("/Users/u/Code".into()), home, |_| true),
        "/Users/u/Code"
    );
}

#[test]
fn stale_configured_cwd_falls_back_instead_of_breaking_tmux() {
    let home = Some("/Users/u".to_string());
    assert_eq!(
        default_cwd_impl(Some("/Users/u/Gone".into()), home.clone(), |p| p
            == "/Users/u/Workflows"),
        "/Users/u/Workflows"
    );
    assert_eq!(
        default_cwd_impl(Some("/Users/u/Gone".into()), home, |_| false),
        "/Users/u"
    );
}


#[test]
fn configured_cwd_global_round_trip_and_real_resolution() {
    let mut slot = None;
    set_configured_cwd(&mut slot, Some("   ".into()));
    assert_eq!(slot, None);
    set_configured_cwd(&mut slot, Some("/Users/u/Code".into()));
    assert_eq!(slot, Some("/Users/u/Code".into()));
    set_configured_cwd(&mut slot, None);
    assert_eq!(slot, None);

    let real = "/tmp".to_string();
    set_configured_cwd(&mut slot, Some(real.clone()));
    let there = |p: &str| p == "/tmp" || p == "/home/u";
    assert_eq!(default_cwd_impl(slot.clone(), Some("/home/u".into()), there), real);
    let gone = format!("{real}/does-not-exist-9f3a");
    set_configured_cwd(&mut slot, Some(gone.clone()));
    assert_eq!(default_cwd_impl(slot, Some("/home/u".into()), there), "/home/u");
}

fn out(status: i32, stdout: &str, stderr: &str) -> TmuxResult {
    Ok(TmuxOut { status, stdout: stdout.into(), stderr: stderr.into() })
}

#[test]
fn commands_go_to_the_private_socket() {
    assert_eq!(tmux_argv(&["list-panes", "-s"]), vec!["-L", "cockpit", "list-panes", "-s"]);
}

#[test]
fn failed_command_is_an_error() {
    assert_eq!(tmux_ok(&["a"], &out(0, " x \n", "")).unwrap().trimmed(), "x");
    assert_eq!(
        tmux_ok(&["a", "b\"c"], &out(-1, "", " bad \n")).err().unwrap(),
        "tmux [\"a\", \"b\\\"c\"] failed (exit -1): bad"
    );
    assert_eq!(tmux_ok(&["a"], &Err("spawn tmux: x".into())).err().unwrap(), "spawn tmux: x");
}

#[test]
fn healthy_server_has_a_pane() {
    assert!(server_healthy(&out(0, "%0\n", "")));
    assert!(!server_healthy(&out(0, " \n", "")));
    assert!(!server_healthy(&out(1, "%0\n", "")));
    assert!(!server_healthy(&Err("x".into())));
    assert!(has_session(&out(0, "", "")));
    assert!(!has_session(&out(1, "", "")));
}

#[test]
fn session_is_made_step_by_step() {
    let none = || Err("nothing was run".to_string());
    match ensure_session(EnsureStage::Start, none(), "/w") {
        EnsureAction::Run(EnsureStage::Probed, a) => {
            assert_eq!(a, vec!["has-session", "-t", "cockpit-main"])
        }
        other => panic!("{other:?}"),
    }
    assert_eq!(
        ensure_session(EnsureStage::Probed, out(0, "", ""), "/w"),
        EnsureAction::Done(Ok(()))
    );
    match ensure_session(EnsureStage::Probed, out(1, "", ""), "/w") {
        EnsureAction::Run(EnsureStage::Created, a) => assert_eq!(
            a,
            vec![
                "new-session", "-d", "-s", "cockpit-main", "-x", "200", "-y", "50", "-c", "/w"
            ]
        ),
        other => panic!("{other:?}"),
    }
    match ensure_session(EnsureStage::Created, out(0, "", ""), "/w") {
        EnsureAction::Run(EnsureStage::Configured, a) => {
            assert_eq!(a, vec!["set-option", "-t", "cockpit-main", "remain-on-exit", "on"])
        }
        other => panic!("{other:?}"),
    }
    assert!(matches!(
        ensure_session(EnsureStage::Created, out(1, "", "no"), "/w"),
        EnsureAction::Done(Err(_))
    ));
    assert_eq!(
        ensure_session(EnsureStage::Configured, out(1, "", "no"), "/w"),
        EnsureAction::Done(Ok(()))
    );
}

#[test]
fn server_is_reset_at_most_three_times() {
    for round in 0..3 {
        assert_eq!(ensure_healthy_session(round, Err("x".into()), false), HealAction::Reset);
        assert_eq!(ensure_healthy_session(round, Err("x".into()), true), HealAction::Done(Ok(())));
    }
    assert_eq!(ensure_healthy_session(3, Ok(()), true), HealAction::Done(Ok(())));
    assert_eq!(
        ensure_healthy_session(3, Err("x".into()), true),
        HealAction::Done(Err("x".into()))
    );
    assert_eq!(
        ensure_healthy_session(3, Ok(()), false),
        HealAction::Done(Err("cockpit tmux server is unhealthy after reset attempts".into()))
    );
}

#[test]
fn words_are_quoted_one_by_one() {
    assert_eq!(shq_words(&["a".to_string(), "it's; b".to_string()]), "'a' 'it'\\''s; b'");
    assert_eq!(shq_words(&[]), "");
}
