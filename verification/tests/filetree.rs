use cc_cockpit::filetree::active_pane_cwd;
use cc_cockpit::filetree::changed_dirs;
use cc_cockpit::filetree::create_entry;
use cc_cockpit::filetree::is_safe_segment;
use cc_cockpit::filetree::list_dir;
use cc_cockpit::filetree::pane_command;
use cc_cockpit::filetree::reveal_in_finder;
use cc_cockpit::filetree::trash_path;
use cc_cockpit::filetree::EntryAction;
use cc_cockpit::filetree::EntryFacts;
use cc_cockpit::filetree::FileEntry;
use cc_cockpit::filetree::PathAction;
use cc_cockpit::filetree::Walked;
use cc_cockpit::filetree::WatchSet;
use cc_cockpit::manager::is_pane_id;
use cc_cockpit::manager::Step;
use cc_cockpit::tmux::TmuxOut;
use cc_cockpit::tmux::TmuxResult;

fn walked(depth: usize, name: &str, is_dir: bool) -> Walked {
    Walked { depth, name: Some(name.into()), path: format!("/d/{name}"), is_dir }
}

fn names(entries: &[FileEntry]) -> Vec<&str> {
    entries.iter().map(|e| e.name.as_str()).collect()
}

fn ok(stdout: &str) -> TmuxResult {
    Ok(TmuxOut { status: 0, stdout: stdout.into(), stderr: String::new() })
}

fn failed(stderr: &str) -> TmuxResult {
    Ok(TmuxOut { status: 1, stdout: String::new(), stderr: stderr.into() })
}

fn fails(step: Step<String>) -> bool {
    matches!(step, Step::Done(Err(_)))
}

fn error(step: Step<String>) -> String {
    match step {
        Step::Done(Err(e)) => e,
        _ => panic!("no error"),
    }
}

#[test]
fn lists_filtered_and_sorted() {
    let found = vec![
        Walked { depth: 0, name: Some("d".into()), path: "/d".into(), is_dir: true },
        walked(1, "README.md", false),
        walked(1, "a.txt", false),
        walked(1, "src", true),
        Walked { depth: 1, name: None, path: "/d/..".into(), is_dir: true },
    ];
    let entries = list_dir("/d", true, found).unwrap();
    assert_eq!(names(&entries), vec!["src", "a.txt", "README.md"]);
    assert!(entries[0].is_dir);
    assert!(!entries[1].is_dir);
    assert!(entries[0].path.ends_with("/src"));
}

#[test]
fn errors_on_non_dir_and_missing() {
    assert_eq!(list_dir("/d/file.txt", false, vec![]).unwrap_err(), "not a directory: /d/file.txt");
    assert!(list_dir("/d/nope", false, vec![]).is_err());
}

#[test]
fn listing_ignores_case_and_keeps_the_order_of_equals() {
    let found = vec![
        walked(1, "b", false),
        walked(1, "Äa", false),
        walked(1, "A", false),
        walked(1, "a", false),
        walked(1, "Z", true),
        walked(1, "äA", false),
    ];
    let entries = list_dir("/d", true, found).unwrap();
    assert_eq!(names(&entries), vec!["Z", "A", "a", "b", "Äa", "äA"]);
}

#[test]
fn filetree_pane_id_validation() {
    assert!(is_pane_id("%0"));
    assert!(is_pane_id("%42"));
    assert!(!is_pane_id("%"));
    assert!(!is_pane_id("0"));
    assert!(!is_pane_id("%1 kill-server"));
    assert!(!is_pane_id("%1;x"));
    assert!(!is_pane_id("-t"));
    assert!(!is_pane_id(""));
}

#[test]
fn bad_pane_id_rejected_before_tmux() {
    assert!(fails(active_pane_cwd("--kill-server", &[])));
    assert!(fails(active_pane_cwd("; rm -rf /", &[])));
    assert!(fails(pane_command("$(whoami)", &[])));
    assert!(fails(pane_command("-X", &[])));
    assert_eq!(error(pane_command("-X", &[])), "bad pane id: -X");
}

#[test]
fn pane_is_asked_for_its_directory_and_command() {
    match active_pane_cwd("%1", &[]) {
        Step::Run(a) => {
            assert_eq!(a, vec!["display-message", "-p", "-t", "%1", "#{pane_current_path}"])
        }
        Step::Done(_) => panic!("tmux was not asked"),
    }
    assert!(matches!(active_pane_cwd("%1", &[ok("/w\n")]), Step::Done(Ok(d)) if d == "/w"));
    assert_eq!(error(active_pane_cwd("%1", &[ok(" \n")])), "empty pane cwd");
    assert_eq!(error(active_pane_cwd("%1", &[failed("x\n")])), "pane cwd query failed: x");
    assert_eq!(error(active_pane_cwd("%1", &[Err("y".into())])), "y");
    match pane_command("%1", &[]) {
        Step::Run(a) => assert_eq!(a[4], "#{pane_current_command}"),
        Step::Done(_) => panic!("tmux was not asked"),
    }
    assert!(matches!(pane_command("%1", &[ok("zsh\n")]), Step::Done(Ok(c)) if c == "zsh"));
    assert_eq!(error(pane_command("%1", &[failed("x\n")])), "pane command query failed: x");
}

#[test]
fn safe_segment_rejects_traversal() {
    assert!(is_safe_segment("file.txt"));
    assert!(is_safe_segment("my-dir"));
    assert!(!is_safe_segment(""));
    assert!(!is_safe_segment("."));
    assert!(!is_safe_segment(".."));
    assert!(!is_safe_segment("a/b"));
    assert!(!is_safe_segment("../escape"));
    assert!(!is_safe_segment(" leading"));
    assert!(!is_safe_segment("trailing "));
    assert!(!is_safe_segment("nul\0byte"));
}

fn facts(
    parent_is_dir: Option<bool>,
    exists: Option<bool>,
    made: Option<Result<(), String>>,
) -> EntryFacts {
    EntryFacts { parent_is_dir, exists, made }
}

#[test]
fn create_entry_file_and_dir() {
    let t = Some(true);
    let f = Some(false);
    assert_eq!(create_entry("/d", "new.txt", false, facts(None, None, None)), EntryAction::AskParent);
    assert_eq!(
        create_entry("/d", "new.txt", false, facts(t, None, None)),
        EntryAction::AskExists("/d/new.txt".into())
    );
    assert_eq!(
        create_entry("/d/", "sub", true, facts(t, f, None)),
        EntryAction::Make("/d/sub".into())
    );
    assert_eq!(
        create_entry("/d", "sub", true, facts(t, f, Some(Ok(())))),
        EntryAction::Done(Ok("/d/sub".into()))
    );
    assert_eq!(
        create_entry("/d", "new.txt", false, facts(t, t, None)),
        EntryAction::Done(Err("already exists: new.txt".into()))
    );
    assert_eq!(
        create_entry("/d", "../evil", false, facts(t, None, None)),
        EntryAction::Done(Err("invalid name: ../evil".into()))
    );
    assert_eq!(
        create_entry("/d", "x", false, facts(f, None, None)),
        EntryAction::Done(Err("not a directory: /d".into()))
    );
    assert_eq!(
        create_entry("/d", "x", true, facts(t, f, Some(Err("no".into())))),
        EntryAction::Done(Err("create dir: no".into()))
    );
    assert_eq!(
        create_entry("/d", "x", false, facts(t, f, Some(Err("no".into())))),
        EntryAction::Done(Err("create file: no".into()))
    );
}

#[test]
fn reveal_validates_existence() {
    assert_eq!(
        reveal_in_finder("/d/nope", false, None),
        PathAction::Done(Err("no such path: /d/nope".into()))
    );
    assert_eq!(reveal_in_finder("/d", true, None), PathAction::Act);
    assert_eq!(reveal_in_finder("/d", true, Some(Ok(true))), PathAction::Done(Ok(())));
    assert_eq!(
        reveal_in_finder("/d", true, Some(Ok(false))),
        PathAction::Done(Err("open -R failed".into()))
    );
    assert_eq!(
        reveal_in_finder("/d", true, Some(Err("x".into()))),
        PathAction::Done(Err("spawn open: x".into()))
    );
}

#[test]
fn trash_moves_existing_file() {
    assert_eq!(trash_path("/d/doomed.txt", true, None), PathAction::Act);
    assert_eq!(trash_path("/d/doomed.txt", true, Some(Ok(()))), PathAction::Done(Ok(())));
    assert_eq!(
        trash_path("/d/doomed.txt", true, Some(Err("x".into()))),
        PathAction::Done(Err("trash: x".into()))
    );
    assert_eq!(
        trash_path("/d/ghost", false, None),
        PathAction::Done(Err("no such path: /d/ghost".into()))
    );
}

#[test]
fn changes_are_told_once_for_each_directory() {
    let c = changed_dirs(&["/a".into(), "/b".into(), "/a".into()]);
    let dirs: Vec<&str> = c.iter().map(|c| c.dir.as_str()).collect();
    assert_eq!(dirs, vec!["/a", "/b"]);
}

#[test]
fn watched_directories_follow_what_is_wanted() {
    let mut w = WatchSet::new();
    let want = [("/a".to_string(), true), ("/b".to_string(), true), ("/gone".to_string(), false)];
    let plan = w.set_watched(&want);
    assert!(plan.unwatch.is_empty());
    assert_eq!(plan.watch, vec!["/a", "/b"]);
    w.watched("/a");
    w.watched("/b");
    let plan = w.set_watched(&[("/b".to_string(), true), ("/c".to_string(), true)]);
    assert_eq!(plan.unwatch, vec!["/a"]);
    assert_eq!(plan.watch, vec!["/c"]);
    w.unwatched("/a");
    let plan = w.set_watched(&[]);
    assert_eq!(plan.unwatch, vec!["/b"]);
}

#[test]
fn one_directory_may_be_written_in_several_ways() {
    let mut w = WatchSet::new();
    let want: Vec<(String, bool)> =
        ["/a/", "/a", "//a", "/a/.", "/a/b/../", "./c"].map(|d| (d.to_string(), true)).to_vec();
    let plan = w.set_watched(&want);
    assert_eq!(plan.watch, vec!["/a/", "/a/b/../", "./c"]);
    w.watched("/a");
    w.watched("c");
    let plan = w.set_watched(&[("/./a/".to_string(), true), ("./c".to_string(), true)]);
    assert_eq!(plan.watch, vec!["./c"]);
    assert_eq!(plan.unwatch, vec!["c"]);
    w.unwatched("/a//");
    assert_eq!(w.set_watched(&[]).unwatch, vec!["c"]);
}
