use cc_cockpit::cli::age;
use cc_cockpit::cli::pane_line;
use cc_cockpit::cli::pane_tsv;
use cc_cockpit::cli::parse_args;
use cc_cockpit::cli::session_line;
use cc_cockpit::cli::session_tsv;
use cc_cockpit::cli::sort_panes;
use cc_cockpit::cli::Format;
use cc_cockpit::cli::Options;
use cc_cockpit::cli::Request;
use cc_cockpit::sessions::find_pane;
use cc_cockpit::sessions::index_sessions;
use cc_cockpit::sessions::read_pane_map;
use cc_cockpit::sessions::scan_transcript;
use cc_cockpit::sessions::PaneFile;
use cc_cockpit::sessions::PaneSession;
use cc_cockpit::sessions::SessionRow;
use cc_cockpit::sessions::TranscriptFile;

fn session(pane: &str, session: &str, pid: &str) -> PaneSession {
    PaneSession {
        tmux_pane: pane.into(),
        session_id: session.into(),
        cwd: "/w".into(),
        transcript_path: format!("/t/{session}.jsonl"),
        tmux_server_pid: pid.into(),
        started_at: "2026-08-17T12:00:00Z".into(),
    }
}

fn entry(name: &str, s: Option<PaneSession>) -> PaneFile {
    PaneFile { name: name.into(), session: s }
}

#[test]
fn maps_a_live_pane_to_its_session_id() {
    let map =
        read_pane_map(&[entry("56.json", Some(session("%56", "aaaa-1111", "1497")))], "1497");
    assert_eq!(map.len(), 1);
    assert_eq!(find_pane(&map, "%56").unwrap().session_id, "aaaa-1111");
}

#[test]
fn drops_entries_left_behind_by_a_dead_tmux_server() {
    let map = read_pane_map(
        &[
            entry("56.json", Some(session("%56", "old-session", "1111"))),
            entry("57.json", Some(session("%57", "new-session", "2222"))),
        ],
        "2222",
    );
    assert!(find_pane(&map, "%56").is_none(), "stale server entry must not survive");
    assert_eq!(find_pane(&map, "%57").unwrap().session_id, "new-session");
}

#[test]
fn one_corrupt_file_does_not_blank_the_map() {
    let map = read_pane_map(
        &[entry("56.json", None), entry("57.json", Some(session("%57", "good", "1497")))],
        "1497",
    );
    assert_eq!(map.len(), 1);
    assert_eq!(find_pane(&map, "%57").unwrap().session_id, "good");
}

#[test]
fn missing_map_dir_is_empty_not_an_error() {
    assert!(read_pane_map(&[], "1497").is_empty());
}

#[test]
fn other_files_are_no_entries() {
    let s = session("%1", "x", "1");
    assert!(read_pane_map(&[entry("1.txt", Some(s))], "1").is_empty());
}

fn transcript(dir: &str, name: &str, modified: u64) -> TranscriptFile {
    TranscriptFile {
        path: format!("{dir}/{name}"),
        project_dir: dir.into(),
        file_name: name.into(),
        modified_epoch: modified,
        bytes: 1,
    }
}

fn rows_of(dir: &str, name: &str, text: &str) -> Vec<SessionRow> {
    index_sessions(&[transcript(dir, name, 1)], 10, |_| text.lines().map(String::from).collect())
}

#[test]
fn reads_cwd_from_inside_the_transcript_not_the_directory_name() {
    let rows = rows_of(
        "-Users-me-Workflows-cc-cockpit",
        "uuid-1.jsonl",
        "{\"type\":\"mode\",\"mode\":\"normal\"}\n\
         {\"cwd\":\"/Users/me/Workflows/cc-cockpit\",\"type\":\"user\"}\n",
    );
    assert_eq!(rows.len(), 1);
    assert_eq!(rows[0].session_id, "uuid-1");
    assert_eq!(rows[0].cwd, "/Users/me/Workflows/cc-cockpit");
    assert_eq!(rows[0].project_dir, "-Users-me-Workflows-cc-cockpit");
}

#[test]
fn first_prompt_is_the_first_real_user_message() {
    let rows = rows_of(
        "p",
        "uuid-2.jsonl",
        "{\"type\":\"mode\",\"mode\":\"normal\"}\n\
         {\"type\":\"assistant\",\"message\":{\"content\":[]}}\n\
         {\"type\":\"user\",\"cwd\":\"/w\",\"message\":{\"role\":\"user\",\"content\":\"fix the booking form\"}}\n\
         {\"type\":\"user\",\"message\":{\"role\":\"user\",\"content\":\"second one\"}}\n",
    );
    assert_eq!(rows[0].first_prompt, "fix the booking form");
}

#[test]
fn skips_slash_command_wrappers_to_reach_the_real_prompt() {
    let rows = rows_of(
        "p",
        "uuid-4.jsonl",
        "{\"type\":\"user\",\"message\":{\"content\":\"<local-command-caveat>Caveat: the messages below were generated while running local commands.</local-command-caveat>\"}}\n\
         {\"type\":\"user\",\"message\":{\"content\":\"research what makes a good website\"}}\n",
    );
    assert_eq!(rows[0].first_prompt, "research what makes a good website");
}

#[test]
fn skips_injected_non_user_messages() {
    let rows = rows_of(
        "p",
        "uuid-5.jsonl",
        "{\"type\":\"user\",\"message\":{\"content\":\"[MESSAGE FROM NON-USER SOURCE - NOT USER INPUT] Hello memory agent\"}}\n\
         {\"type\":\"user\",\"message\":{\"content\":\"<system-reminder>background context</system-reminder>\"}}\n\
         {\"type\":\"user\",\"message\":{\"content\":\"actually fix the booking form\"}}\n",
    );
    assert_eq!(rows[0].first_prompt, "actually fix the booking form");
}

#[test]
fn an_all_noise_transcript_reports_no_prompt_rather_than_noise() {
    let rows = rows_of(
        "p",
        "uuid-6.jsonl",
        "{\"type\":\"user\",\"message\":{\"content\":\"<system-reminder>only noise here</system-reminder>\"}}\n",
    );
    assert_eq!(rows[0].first_prompt, "", "a wrapper is worse than a blank");
}

#[test]
fn newest_transcript_sorts_first() {
    let files = [transcript("p", "older.jsonl", 100), transcript("p", "newer.jsonl", 101)];
    let rows = index_sessions(&files, 10, |_| vec!["{\"cwd\":\"/w\"}".to_string()]);
    assert_eq!(rows[0].session_id, "newer");
    assert_eq!(rows[1].session_id, "older");
}

#[test]
fn limit_caps_the_row_count() {
    let files: Vec<TranscriptFile> =
        (0..5).map(|i| transcript("p", &format!("s{i}.jsonl"), i)).collect();
    let rows = index_sessions(&files, 2, |_| vec!["{\"cwd\":\"/w\"}".to_string()]);
    assert_eq!(rows.len(), 2);
}

#[test]
fn non_jsonl_files_are_ignored() {
    let files = [transcript("p", "notes.md", 9), transcript("p", "uuid-3.jsonl", 1)];
    let rows = index_sessions(&files, 10, |_| vec!["{\"cwd\":\"/w\"}".to_string()]);
    assert_eq!(rows.len(), 1);
    assert_eq!(rows[0].session_id, "uuid-3");
}

#[test]
fn prompt_is_one_line() {
    let lines = vec![
        "broken".to_string(),
        "{\"type\":\"user\",\"message\":{\"content\":[{\"type\":\"text\",\"text\":\"a\\n  b\"}]}}".to_string(),
    ];
    assert_eq!(scan_transcript(&lines), (String::new(), "a b".to_string()));
}

fn request(args: &[&str]) -> Request {
    let owned: Vec<String> = args.iter().map(|a| a.to_string()).collect();
    parse_args(&owned)
}

#[test]
fn arguments_are_read() {
    assert_eq!(
        request(&[]),
        Request::Run(Options { format: Format::Table, limit: 20, current: false, panes: false })
    );
    assert_eq!(
        request(&["--json", "--tsv", "--limit", "5", "--current", "--panes"]),
        Request::Run(Options { format: Format::Tsv, limit: 5, current: true, panes: true })
    );
    assert_eq!(request(&["-h", "--bad"]), Request::Help);
    assert_eq!(request(&["--limit"]), Request::Fail("--limit needs a number".into()));
    assert_eq!(request(&["--limit", "x"]), Request::Fail("--limit needs a number".into()));
    assert_eq!(request(&["--bad"]), Request::Fail("unknown option: --bad".into()));
}

#[test]
fn ages_are_rounded_down() {
    assert_eq!(age(100, 41), "just now");
    assert_eq!(age(100, 200), "just now");
    assert_eq!(age(3700, 100), "1h ago");
    assert_eq!(age(3699, 100), "59m ago");
    assert_eq!(age(200_000, 0), "2d ago");
}

#[test]
fn rows_are_printed() {
    let row = SessionRow {
        session_id: "id".into(),
        cwd: "/w".into(),
        project_dir: "-w".into(),
        first_prompt: "fix".into(),
        modified_epoch: 40,
        bytes: 9,
    };
    assert_eq!(session_tsv(&row), "id\t40\t/w\t-w\tfix");
    assert_eq!(session_line(&row, 100), "id    1m ago  /w  fix");
    let p = session("%5", "s", "1");
    assert_eq!(pane_tsv(&p), "%5\ts\t/w");
    assert_eq!(pane_line(&p), "   %5  s  /w");
}

#[test]
fn panes_are_sorted_by_number() {
    let sorted =
        sort_panes(vec![session("%10", "a", "1"), session("x", "b", "1"), session("%2", "c", "1")]);
    let panes: Vec<&str> = sorted.iter().map(|p| p.tmux_pane.as_str()).collect();
    assert_eq!(panes, vec!["%2", "%10", "x"]);
}

#[test]
fn only_listed_transcripts_are_read() {
    let files: Vec<TranscriptFile> =
        (0..5).map(|i| transcript("p", &format!("s{i}.jsonl"), i)).collect();
    let listed: Vec<String> = files[3..].iter().map(|f| f.path.clone()).collect();
    let rows = index_sessions(&files, 2, |path| {
        assert!(listed.iter().any(|p| p == path));
        vec![]
    });
    let ids: Vec<&str> = rows.iter().map(|r| r.session_id.as_str()).collect();
    assert_eq!(ids, vec!["s4", "s3"]);
}
