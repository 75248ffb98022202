use cc_cockpit::engine::EngineError;
use cc_cockpit::manager::activity_epoch_secs;
use cc_cockpit::manager::capture_command;
use cc_cockpit::manager::capture_pane;
use cc_cockpit::manager::is_missing_target;
use cc_cockpit::manager::is_pane_id;
use cc_cockpit::manager::is_server_gone;
use cc_cockpit::manager::is_valid_agent_name;
use cc_cockpit::manager::is_window_id;
use cc_cockpit::manager::pane_poll_rows;
use cc_cockpit::manager::poll_command;
use cc_cockpit::manager::tab_id_for_index;
use cc_cockpit::manager::Attempt;
use cc_cockpit::manager::PollRow;
use cc_cockpit::manager::SessionManager;
use cc_cockpit::manager::Step;
use cc_cockpit::manager::TabPlan;
use cc_cockpit::tmux::TmuxOut;
use cc_cockpit::tmux::TmuxResult;

fn ok(stdout: &str) -> TmuxResult {
    Ok(TmuxOut { status: 0, stdout: stdout.into(), stderr: String::new() })
}

fn failed(stderr: &str) -> TmuxResult {
    Ok(TmuxOut { status: 1, stdout: String::new(), stderr: stderr.into() })
}

fn args<T>(step: Step<T>) -> Vec<String> {
    match step {
        Step::Run(a) => a,
        Step::Done(_) => panic!("the operation has ended"),
    }
}

fn result<T>(step: Step<T>) -> Result<T, String> {
    match step {
        Step::Run(a) => panic!("the operation goes on with {a:?}"),
        Step::Done(r) => r,
    }
}

fn attached() -> SessionManager {
    let mut m = SessionManager::new("agent");
    m.init(Ok(()), Ok(())).unwrap();
    m
}

#[test]
fn tab_id_roundtrip() {
    assert_eq!(tab_id_for_index(0), "tab-0");
    assert_eq!(tab_id_for_index(7), "tab-7");
}

#[test]
fn manager_pane_id_validation() {
    assert!(is_pane_id("%0"));
    assert!(is_pane_id("%137"));
    assert!(!is_pane_id("%"));
    assert!(!is_pane_id("0"));
    assert!(!is_pane_id(""));
    assert!(!is_pane_id("%2_2_/_example-host.local_0"));
    assert!(!is_pane_id("%2\t2\t/"));
}

#[test]
fn window_id_validation() {
    assert!(is_window_id("@0"));
    assert!(is_window_id("@42"));
    assert!(!is_window_id("@"));
    assert!(!is_window_id("0"));
    assert!(!is_window_id("tab-1"));
    assert!(!is_window_id("cockpit-main:1"));
    assert!(!is_window_id("@1 -k"));
    assert!(!is_window_id("@-1"));
    assert!(!is_window_id(""));
}

#[test]
fn missing_target_is_idempotent_close() {
    assert!(is_missing_target("can't find window: 1"));
    assert!(is_missing_target("can't find pane %9"));
    assert!(is_missing_target("can't find window @7"));
    assert!(!is_missing_target("no server running on /tmp/tmux/cockpit"));
    assert!(!is_missing_target("server exited unexpectedly"));
}

#[test]
fn agent_name_validation_blocks_injection() {
    assert!(is_valid_agent_name("dev-agent"));
    assert!(is_valid_agent_name("qa_agent.v2"));
    assert!(!is_valid_agent_name(""));
    assert!(!is_valid_agent_name("dev --dangerously-skip-permissions"));
    assert!(!is_valid_agent_name("a; rm -rf ~"));
    assert!(!is_valid_agent_name("a$(id)"));
    assert!(!is_valid_agent_name("a`whoami`"));
    assert!(!is_valid_agent_name("a b"));
}

#[test]
fn activity_epoch_normalises() {
    assert_eq!(activity_epoch_secs(""), None);
    assert_eq!(activity_epoch_secs("0"), None);
    assert_eq!(activity_epoch_secs("1781869938"), Some(1781869938)); // seconds
    assert_eq!(activity_epoch_secs("1781869938370"), Some(1781869938)); // ms -> s
}

#[test]
fn server_gone_detection() {
    assert!(is_server_gone(
        "tmux [\"new-window\"] failed (exit 1): no server running on /private/tmp/tmux-501/cockpit"
    ));
    assert!(is_server_gone("can't find session: cockpit-main"));
    assert!(is_server_gone("server exited unexpectedly"));
    assert!(!is_server_gone("can't find window: cockpit-main:7"));
    assert!(!is_server_gone("can't find pane: %42"));
    assert!(!is_server_gone("duplicate session: cockpit-main"));
}

#[test]
fn agent_name_may_be_long_but_not_too_long() {
    assert!(is_valid_agent_name(&"a".repeat(120)));
    assert!(!is_valid_agent_name(&"a".repeat(121)));
    assert!(!is_valid_agent_name("agént"));
}

#[test]
fn new_tab_is_made_in_the_given_directory() {
    assert_eq!(
        args(SessionManager::create_tab(Some("work"), "/w", &[])),
        vec![
            "new-window",
            "-t",
            "cockpit-main:",
            "-c",
            "/w",
            "-P",
            "-F",
            "#{window_id} #{window_index} #{pane_id}",
            "-n",
            "work"
        ]
    );
    let t = result(SessionManager::create_tab(None, "/w", &[ok("@3 2 %7\n")])).unwrap();
    assert_eq!(t.tab_id, "tab-2");
    assert_eq!(t.tmux_window_id, "@3");
    assert_eq!(t.pane_id, "%7");
    let e = result(SessionManager::create_tab(None, "/w", &[failed(" no server running \n")]));
    assert_eq!(
        e.unwrap_err(),
        "tmux [\"new-window\", \"-t\", \"cockpit-main:\", \"-c\", \"/w\", \"-P\", \"-F\", \
         \"#{window_id} #{window_index} #{pane_id}\"] failed (exit 1): no server running"
    );
    let e = result(SessionManager::create_tab(None, "/w", &[Err("spawn tmux: x".into())]));
    assert_eq!(e.unwrap_err(), "spawn tmux: x");
}

const WINDOWS: &str = "@1\t0\tmain\ta9ad,189x109,0,0,0\n@2\t1\tbuild\tgarbage\n";
const PAIRS: &str = "@1\t%0\n@2\t%1\n@2\t%2\nmangled_line\n";
const PANES: &str = "%0\t0\t/a\ttitle a\t0\n%1\t1\t/b\ttitle b\t1\n%2_1_/b_title_0\n";

#[test]
fn state_lists_tabs_and_panes() {
    let m = attached();
    assert_eq!(args(m.list_state(&[]))[0], "list-windows");
    let outs = [ok(WINDOWS), ok(PAIRS), ok(PANES)];
    assert_eq!(args(m.list_state(&outs[..1]))[5], "#{window_id}\t#{pane_id}");
    assert_eq!(
        args(m.list_state(&outs[..2]))[5],
        "#{pane_id}\t#{window_index}\t#{pane_current_path}\t#{pane_title}\t#{pane_dead}"
    );
    let s = result(m.list_state(&outs)).unwrap();
    assert_eq!((s.socket.as_str(), s.session.as_str()), ("cockpit", "cockpit-main"));
    assert_eq!(s.tabs.len(), 2);
    assert_eq!(s.tabs[0].tab_id, "tab-0");
    assert_eq!(s.tabs[0].geometry.as_ref().unwrap().width, 189);
    assert_eq!(s.tabs[1].name, "build");
    assert!(s.tabs[1].geometry.is_none());
    assert_eq!(s.tabs[1].pane_ids, vec!["%1", "%2"]);
    assert_eq!(s.panes.len(), 2, "a fused line is no pane");
    assert_eq!(s.panes[0].cwd, "/a");
    assert_eq!(s.panes[0].status, "UNKNOWN");
    assert!(s.panes[0].ambiguous);
    assert_eq!(s.panes[1].status, "DEAD");
    assert!(s.panes[1].dead);
}

#[test]
fn state_without_windows_still_lists_panes() {
    let m = SessionManager::new("agent");
    let outs = [failed("no server"), ok(PANES)];
    assert_eq!(args(m.list_state(&outs[..1]))[0], "list-panes");
    let s = result(m.list_state(&outs)).unwrap();
    assert!(s.tabs.is_empty());
    assert_eq!(s.panes.len(), 2);
    let s = result(m.list_state(&[failed("x"), failed("x")])).unwrap();
    assert!(s.panes.is_empty());
    assert_eq!(result(m.list_state(&[Err("e".into())])).unwrap_err(), "e");
}

#[test]
fn bootstrap_window_is_adopted() {
    let outs = [ok(WINDOWS), ok(PAIRS), ok("")];
    assert_eq!(
        args(SessionManager::adopt_bootstrap_tab(Some("n"), &outs[..2])),
        vec!["rename-window", "-t", "@1", "n"]
    );
    let t = result(SessionManager::adopt_bootstrap_tab(Some("n"), &outs)).unwrap();
    assert_eq!((t.tab_id.as_str(), t.pane_id.as_str()), ("tab-0", "%0"));
    assert!(result(SessionManager::adopt_bootstrap_tab(None, &outs[..2])).is_ok());
    assert!(result(SessionManager::adopt_bootstrap_tab(Some(""), &outs[..2])).is_ok());
    assert_eq!(
        result(SessionManager::adopt_bootstrap_tab(None, &[failed("x")])).unwrap_err(),
        "re-healed session has no window to adopt"
    );
}

#[test]
fn gone_session_is_adopted_and_live_one_extended() {
    assert_eq!(
        args(SessionManager::create_tab_healing(&[])),
        vec!["has-session", "-t", "cockpit-main"]
    );
    assert_eq!(result(SessionManager::create_tab_healing(&[failed("")])), Ok(TabPlan::Adopt));
    let outs = [ok(""), ok("%0\n")];
    assert_eq!(args(SessionManager::create_tab_healing(&outs[..1]))[0], "list-panes");
    assert_eq!(result(SessionManager::create_tab_healing(&outs)), Ok(TabPlan::NewWindow));
    let poisoned = [ok(""), failed("server exited unexpectedly")];
    assert_eq!(result(SessionManager::create_tab_healing(&poisoned)), Ok(TabPlan::Adopt));
}

#[test]
fn tab_is_closed_by_its_window_id_only() {
    assert_eq!(
        result(SessionManager::close_tab("tab-1", true, &[])).unwrap_err(),
        "bad window id \"tab-1\", want @<n>"
    );
    assert_eq!(
        args(SessionManager::close_tab("@3", false, &[])),
        vec!["list-panes", "-t", "@3", "-F", "#{pane_id} #{pane_dead}"]
    );
}

#[test]
fn live_tab_is_closed_only_by_force() {
    let outs = [ok("%1 0\n%2 1\n"), ok("")];
    let r = result(SessionManager::close_tab("@3", false, &outs[..1])).unwrap();
    assert!(!r.ok);
    assert_eq!(r.live_panes, vec!["%1"]);
    assert_eq!(
        args(SessionManager::close_tab("@3", true, &outs[..1])),
        vec!["kill-window", "-t", "@3"]
    );
    let r = result(SessionManager::close_tab("@3", true, &outs)).unwrap();
    assert!(r.ok && r.live_panes.is_empty());
}

#[test]
fn window_that_is_gone_counts_as_closed() {
    let outs = [failed("can't find window: @9"), failed("can't find window: @9")];
    assert!(result(SessionManager::close_tab("@9", false, &outs)).unwrap().ok);
    let outs = [ok("%1 1\n"), failed(" server exited \n")];
    assert_eq!(
        result(SessionManager::close_tab("@9", false, &outs)).unwrap_err(),
        "tmux kill-window -t @9 failed (exit 1): server exited"
    );
}

#[test]
fn pane_is_split_in_one_of_two_directions() {
    assert_eq!(
        result(SessionManager::split_pane("%1", "x", &[])).unwrap_err(),
        "bad split dir \"x\", want 'h' or 'v'"
    );
    assert_eq!(args(SessionManager::split_pane("%1", "v", &[]))[1], "-v");
    let outs = [ok("%5\n"), ok("abcd,1x1,0,0,5\n")];
    assert_eq!(
        args(SessionManager::split_pane("%1", "h", &outs[..1])),
        vec!["display-message", "-p", "-t", "%5", "-F", "#{window_layout}"]
    );
    let r = result(SessionManager::split_pane("%1", "h", &outs)).unwrap();
    assert_eq!((r.pane_id.as_str(), r.layout.as_str()), ("%5", "abcd,1x1,0,0,5"));
    let r = result(SessionManager::split_pane("%1", "h", &[ok("%5\n"), failed("")])).unwrap();
    assert_eq!(r.layout, "");
}

#[test]
fn closed_pane_is_forgotten() {
    let mut m = attached();
    let rows = [PollRow { pane_id: "%1".into(), dead: true, activity_age_secs: None }];
    assert_eq!(m.poll_statuses(&rows, &[Ok("".into())]).len(), 1);
    assert_eq!(args(m.close_pane("%1", "detach", &[])), vec!["break-pane", "-d", "-s", "%1"]);
    assert!(result(m.close_pane("%1", "kill", &[failed("x")])).is_err());
    assert_eq!(m.poll_statuses(&rows, &[Ok("".into())]).len(), 0);
    assert!(result(m.close_pane("%1", "kill", &[ok("")])).is_ok());
    assert_eq!(m.poll_statuses(&rows, &[Ok("".into())]).len(), 1);
    assert_eq!(
        result(m.close_pane("%1", "hide", &[])).unwrap_err(),
        "bad close mode \"hide\", want 'kill' or 'detach'"
    );
}

#[test]
fn broken_out_pane_gives_its_window() {
    assert_eq!(
        args(SessionManager::break_pane("%1", &[])),
        vec!["break-pane", "-s", "%1", "-P", "-F", "#{window_id}"]
    );
    assert_eq!(result(SessionManager::break_pane("%1", &[ok("@8\n")])).unwrap(), "@8");
}

#[test]
fn launch_types_the_line_and_ends_it() {
    let mut m = attached();
    m.launch_cc("%1", "/w x", Some("big"), Some("  --verbose ")).unwrap();
    assert_eq!(
        m.take_commands().unwrap(),
        "send-keys -t %1 -l 'cd '\\''/w x'\\'' && COCKPIT_PANE_ID=%1 agent \
         --model '\\''big'\\'' '\\''--verbose'\\'''\nsend-keys -t %1 -H 0d\n"
    );
    m.launch_cc("%1", "/w", None, Some("  ")).unwrap();
    assert_eq!(
        m.take_commands().unwrap(),
        "send-keys -t %1 -l 'cd '\\''/w'\\'' && COCKPIT_PANE_ID=%1 agent'\nsend-keys -t %1 -H 0d\n"
    );
    m.launch_shell("%2", "/w").unwrap();
    assert_eq!(
        m.take_commands().unwrap(),
        "send-keys -t %2 -l 'cd '\\''/w'\\'''\nsend-keys -t %2 -H 0d\n"
    );
    m.launch_agent("%3", "/w", "dev-agent").unwrap();
    assert_eq!(
        m.take_commands().unwrap(),
        "send-keys -t %3 -l 'cd '\\''/w'\\'' && COCKPIT_PANE_ID=%3 agent --agent \
         '\\''dev-agent'\\'''\nsend-keys -t %3 -H 0d\n"
    );
    assert_eq!(m.take_commands().as_deref(), Some(""));
}

#[test]
fn keys_and_bad_names_are_refused() {
    let mut m = attached();
    for flags in ["--api-key x", "--apiKey=x", "ANTHROPIC_API_KEY=x"] {
        assert_eq!(
            m.launch_cc("%1", "/w", None, Some(flags)).unwrap_err(),
            "api-key flags are not permitted"
        );
    }
    assert_eq!(m.launch_agent("%1", "/w", "a b").unwrap_err(), "invalid agent name: a b");
    assert_eq!(m.take_commands().as_deref(), Some(""));
}

#[test]
fn without_a_client_nothing_is_sent() {
    let mut m = SessionManager::new("agent");
    assert!(!m.is_attached());
    assert_eq!(m.pane_send_keys("%1", "x").unwrap_err(), "not attached");
    assert_eq!(m.pane_run_line("%1", "x").unwrap_err(), "not attached");
    assert_eq!(m.interrupt_pane("%1").unwrap_err(), "not attached");
    assert_eq!(m.pane_resize("%1", 1, 1).unwrap_err(), "not attached");
    assert_eq!(m.set_grid("@1", 1, 1, "tiled").unwrap_err(), "not attached");
    assert_eq!(m.take_commands(), None);
    let e = m.init(Ok(()), Err(EngineError::Spawn("x".into())));
    assert_eq!(e.unwrap_err(), "spawn control client: x");
    assert_eq!(m.init(Err("sick".into()), Ok(())).unwrap_err(), "sick");
    assert!(!m.is_attached());
}

#[test]
fn grid_is_bounded_and_laid_out_by_name() {
    let mut m = attached();
    m.set_grid("@1", 1, 1, "rm -rf").unwrap();
    assert_eq!(m.take_commands().unwrap(), "refresh-client -C 20,5\nselect-layout tiled\n");
    m.set_grid("@1", 9999, 9999, "main-vertical").unwrap();
    assert_eq!(
        m.take_commands().unwrap(),
        "refresh-client -C 2000,500\nselect-layout main-vertical\n"
    );
    m.set_grid("@1", 100, 40, "none").unwrap();
    assert_eq!(m.take_commands().unwrap(), "refresh-client -C 100,40\n");
}

#[test]
fn raw_input_goes_to_the_client() {
    let mut m = attached();
    m.pane_send_keys("%1", "x").unwrap();
    m.pane_resize("%1", 80, 24).unwrap();
    m.interrupt_pane("%1").unwrap();
    assert_eq!(
        m.take_commands().unwrap(),
        "send-keys -t %1 -l 'x'\nresize-pane -t %1 -x 80 -y 24\nrefresh-client -C 80,24\n\
         send-keys -t %1 -H 03\n"
    );
}

#[test]
fn server_that_is_gone_is_attached_to_once() {
    let mut m = attached();
    let gone = || Err::<(), String>("no server running on x".into());
    assert!(matches!(m.with_reattach(false, gone()), Attempt::Reattach));
    assert!(!m.is_attached());
    assert!(matches!(m.with_reattach(true, gone()), Attempt::Done(Err(_))));
    let mut m = attached();
    let stale = Err::<(), String>("can't find pane: %4".into());
    assert!(matches!(m.with_reattach(false, stale), Attempt::Done(Err(_))));
    assert!(matches!(m.with_reattach(false, Ok(7)), Attempt::Done(Ok(7))));
    assert!(m.is_attached());
}

#[test]
fn poll_reads_rows() {
    assert_eq!(poll_command()[5], "#{pane_id}\t#{pane_dead}\t#{pane_activity}");
    let list = "%1\t0\t 100 \n%2\t1\t\nfused_%3\n%4\t0\t500\n";
    let rows = pane_poll_rows(&ok(list), 160).unwrap();
    assert_eq!(rows.len(), 3);
    assert_eq!(rows[0].activity_age_secs, Some(60));
    assert!(!rows[0].dead);
    assert!(rows[1].dead);
    assert_eq!(rows[1].activity_age_secs, None);
    assert_eq!(rows[2].activity_age_secs, Some(0));
    assert!(pane_poll_rows(&failed("x"), 0).unwrap().is_empty());
    assert!(pane_poll_rows(&Err("x".into()), 0).is_err());
}

#[test]
fn status_is_sent_when_it_changes() {
    let mut m = attached();
    let row = |age| PollRow { pane_id: "%1".into(), dead: false, activity_age_secs: age };
    let busy = vec![Ok("✽ Cooking…\n".to_string())];
    let sent = m.poll_statuses(&[row(Some(2))], &busy);
    assert_eq!(sent.len(), 1);
    assert_eq!(sent[0].status, "WORKING");
    assert_eq!(sent[0].recency_ms, 2000);
    assert!(!sent[0].ambiguous);
    assert!(m.poll_statuses(&[row(Some(3))], &busy).is_empty());
    let sent = m.poll_statuses(&[row(None)], &[Err("gone".into())]);
    assert_eq!((sent[0].status.as_str(), sent[0].recency_ms), ("UNKNOWN", 0));
    assert!(sent[0].ambiguous);
    let sent = m.poll_statuses(&[row(Some(u64::MAX))], &busy);
    assert_eq!(sent[0].recency_ms, u64::MAX);
    m.forget_pane("%1");
    assert_eq!(m.poll_statuses(&[row(Some(2))], &busy).len(), 1);
}

#[test]
fn last_status_is_shown_in_the_state() {
    let mut m = attached();
    let row = PollRow { pane_id: "%0".into(), dead: false, activity_age_secs: None };
    m.poll_statuses(&[row], &[Ok("✽ Cooking…\n".into())]);
    let s = result(m.list_state(&[ok(WINDOWS), ok(PAIRS), ok(PANES)])).unwrap();
    assert_eq!(s.panes[0].status, "WORKING");
    assert!(!s.panes[0].ambiguous);
}

#[test]
fn recent_output_is_captured() {
    assert_eq!(
        capture_command("%1"),
        vec!["capture-pane", "-p", "-e", "-S", "-120", "-t", "%1"]
    );
    assert_eq!(capture_pane(&ok("x")), Ok("x".into()));
    assert_eq!(capture_pane(&failed("y")), Err("y".into()));
    assert_eq!(capture_pane(&Err("z".into())), Err("z".into()));
}

#[test]
fn warm_start_is_encoded() {
    assert_eq!(
        args(SessionManager::warm_start("%1", &[])),
        vec!["capture-pane", "-p", "-e", "-S", "-", "-t", "%1"]
    );
    let outs = [ok("h\na\nb\n"), ok("2 1 0\n")];
    assert_eq!(
        args(SessionManager::warm_start("%1", &outs[..1]))[4],
        "#{pane_height} #{cursor_x} #{cursor_y}"
    );
    // "h\r\na\r\nb" and the cursor at row 1, column 2
    assert_eq!(
        result(SessionManager::warm_start("%1", &outs)).unwrap(),
        "aA0KYQ0KYhtbMTsySA=="
    );
    let blind = [ok("\na\n\n"), failed("")];
    assert_eq!(result(SessionManager::warm_start("%1", &blind)).unwrap(), "YQ==");
    assert_eq!(result(SessionManager::warm_start("%1", &[failed(" gone ")])).unwrap_err(), "gone");
}

#[test]
fn warm_start_of_the_screen_is_encoded() {
    assert_eq!(
        args(SessionManager::warm_start_screen("%1", &[])),
        vec!["capture-pane", "-p", "-e", "-t", "%1"]
    );
    let outs = [ok("a\nb\n"), ok("3 1\n")];
    assert_eq!(
        args(SessionManager::warm_start_screen("%1", &outs[..1]))[4],
        "#{cursor_x} #{cursor_y}"
    );
    assert_eq!(
        result(SessionManager::warm_start_screen("%1", &outs)).unwrap(),
        "YQ0KYhtbMjs0SA=="
    );
    let blind = [ok("a\nb\n"), ok("")];
    assert_eq!(result(SessionManager::warm_start_screen("%1", &blind)).unwrap(), "YQ0KYg==");
}

#[test]
fn teardown_kills_the_session_only() {
    let mut m = attached();
    m.pane_send_keys("%1", "x").unwrap();
    let (farewell, args) = m.teardown();
    assert_eq!(farewell.as_deref(), Some("send-keys -t %1 -l 'x'\ndetach-client\n"));
    assert_eq!(args, vec!["kill-session", "-t", "cockpit-main"]);
    assert!(!m.is_attached());
    assert_eq!(m.teardown().0, None);
}

#[test]
fn launch_flags_reach_the_shell_as_words() {
    let mut m = attached();
    m.launch_cc("%3", "/w", None, Some("--verbose; rm x")).unwrap();
    assert_eq!(
        m.take_commands().unwrap(),
        "send-keys -t %3 -l 'cd '\\''/w'\\'' && COCKPIT_PANE_ID=%3 agent \
         '\\''--verbose;'\\'' '\\''rm'\\'' '\\''x'\\'''\nsend-keys -t %3 -H 0d\n"
    );
}

#[test]
fn agent_name_is_no_flag() {
    assert!(!is_valid_agent_name("--dangerously-skip-permissions"));
    assert!(!is_valid_agent_name("-a"));
    assert!(is_valid_agent_name("a-"));
}
