use cc_cockpit::engine::Outbound;
use cc_cockpit::manager::CloseTabResult;
use cc_cockpit::manager::CockpitState;
use cc_cockpit::manager::CreateTabResult;
use cc_cockpit::manager::PaneInfo;
use cc_cockpit::manager::PaneStatusPayload;
use cc_cockpit::manager::TabInfo;
use cc_cockpit::smoke::close_faults;
use cc_cockpit::smoke::exit_code;
use cc_cockpit::smoke::is_dead_or_gone;
use cc_cockpit::smoke::reconnect_faults;
use cc_cockpit::smoke::recreate_faults;
use cc_cockpit::smoke::reported_dead;
use cc_cockpit::smoke::saw_token;
use cc_cockpit::smoke::state_faults;
use cc_cockpit::smoke::windows_of;

fn tab(n: u32) -> TabInfo {
    TabInfo {
        tab_id: format!("tab-{n}"),
        tmux_window_id: format!("@{n}"),
        index: n,
        name: "x".into(),
        layout: "".into(),
        geometry: None,
        pane_ids: vec![],
    }
}

fn pane(id: &str, dead: bool) -> PaneInfo {
    PaneInfo {
        pane_id: id.into(),
        tab_id: "tab-0".into(),
        cwd: "/".into(),
        title: "".into(),
        dead,
        status: "UNKNOWN".into(),
        ambiguous: true,
    }
}

fn state(tabs: u32, panes: Vec<PaneInfo>) -> Result<CockpitState, String> {
    Ok(CockpitState {
        socket: "cockpit".into(),
        session: "cockpit-main".into(),
        tabs: (0..tabs).map(tab).collect(),
        panes,
    })
}

fn made(n: u32) -> CreateTabResult {
    CreateTabResult {
        tab_id: format!("tab-{n}"),
        tmux_window_id: format!("@{n}"),
        pane_id: "%9".into(),
    }
}

#[test]
fn token_is_seen_in_the_decoded_output() {
    let data = |b64: &str| Outbound::PaneData { pane_id: "%0".into(), bytes_b64: b64.into() };
    assert!(saw_token(&data("b2sgQ09DS1BJVF9TTU9LRV9PSw0K")));
    assert!(!saw_token(&data("Q09DS1BJVF9TTU9LRV9PSS4=")));
    assert!(!saw_token(&data("COCKPIT_SMOKE_OK")));
    assert!(!saw_token(&Outbound::Exit { reason: Some("COCKPIT_SMOKE_OK".into()) }));
}

#[test]
fn state_needs_two_tabs_and_the_new_pane() {
    assert_eq!(state_faults(&state(2, vec![pane("%2", false)]), "%2"), 0);
    assert_eq!(state_faults(&state(1, vec![pane("%2", false)]), "%2"), 1);
    assert_eq!(state_faults(&state(1, vec![]), "%2"), 2);
    assert_eq!(state_faults(&Err("x".into()), "%2"), 1);
}

#[test]
fn dead_pane_is_reported_or_shown() {
    let sent = |status: &str| {
        vec![PaneStatusPayload {
            pane_id: "%2".into(),
            status: status.into(),
            ambiguous: false,
            recency_ms: 0,
        }]
    };
    assert!(reported_dead(&sent("DEAD"), "%2"));
    assert!(!reported_dead(&sent("DEAD"), "%3"));
    assert!(!reported_dead(&sent("IDLE"), "%2"));
    assert!(is_dead_or_gone(&state(1, vec![pane("%1", false), pane("%2", true)]), "%2"));
    assert!(!is_dead_or_gone(&state(1, vec![pane("%2", false), pane("%2", true)]), "%2"));
    assert!(is_dead_or_gone(&state(1, vec![]), "%2"));
    assert!(!is_dead_or_gone(&Err("x".into()), "%2"));
}

#[test]
fn reconnecting_attaches_anew_and_shows_the_tab() {
    assert_eq!(reconnect_faults(&Ok((made(1), true)), &state(2, vec![])), 0);
    assert_eq!(reconnect_faults(&Ok((made(1), false)), &state(2, vec![])), 1);
    assert_eq!(reconnect_faults(&Ok((made(5), false)), &state(2, vec![])), 2);
    assert_eq!(reconnect_faults(&Ok((made(1), true)), &Err("x".into())), 1);
    assert_eq!(reconnect_faults(&Err("x".into()), &Err("x".into())), 1);
}

#[test]
fn closing_is_judged() {
    let closed = |ok| Ok(CloseTabResult { ok, live_panes: vec![] });
    let refused = || Err("bad window id".to_string());
    assert_eq!(close_faults(&closed(true), &refused()), 0);
    assert_eq!(close_faults(&closed(false), &refused()), 1);
    assert_eq!(close_faults(&refused(), &closed(true)), 2);
}

#[test]
fn one_tab_is_left_in_the_end() {
    assert_eq!(windows_of(&state(3, vec![])), vec!["@0", "@1", "@2"]);
    assert!(windows_of(&Err("x".into())).is_empty());
    assert_eq!(recreate_faults(&Ok(made(0)), &state(1, vec![])), 0);
    assert_eq!(recreate_faults(&Ok(made(0)), &state(2, vec![])), 1);
    assert_eq!(recreate_faults(&Err("x".into()), &state(1, vec![])), 1);
    assert_eq!((exit_code(0), exit_code(3)), (0, 1));
}
