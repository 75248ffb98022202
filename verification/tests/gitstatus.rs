use cc_cockpit::gitstatus::git_status_outcome;
use cc_cockpit::gitstatus::parse_porcelain_v2;
use cc_cockpit::gitstatus::GitStatus;

    #[test]
    fn clean_repo_is_not_dirty() {
        let out = "\
# branch.oid 1111111111111111111111111111111111111111
# branch.head main
# branch.upstream origin/main
# branch.ab +0 -0
";
        let s = parse_porcelain_v2(out);
        assert_eq!(
            s,
            GitStatus {
                branch: "main".into(),
                ahead: 0,
                behind: 0,
                dirty: false,
                changed: 0,
                untracked: 0,
            }
        );
    }

    #[test]
    fn changed_entries_count_as_dirty() {
        let out = "\
# branch.oid 1111111111111111111111111111111111111111
# branch.head main
# branch.upstream origin/main
# branch.ab +0 -0
1 .M N... 100644 100644 100644 aaaa aaaa src/main.rs
1 M. N... 100644 100644 100644 bbbb cccc README.md
2 R. N... 100644 100644 100644 dddd eeee R100 new.rs\told.rs
";
        let s = parse_porcelain_v2(out);
        assert_eq!(s.branch, "main");
        assert_eq!(s.changed, 3);
        assert_eq!(s.untracked, 0);
        assert!(s.dirty);
    }

    #[test]
    fn untracked_only_is_dirty() {
        let out = "\
# branch.oid 1111111111111111111111111111111111111111
# branch.head main
# branch.ab +0 -0
? newfile.txt
? logs/another.log
";
        let s = parse_porcelain_v2(out);
        assert_eq!(s.changed, 0);
        assert_eq!(s.untracked, 2);
        assert!(s.dirty);
    }

    #[test]
    fn ahead_behind_parsed() {
        let out = "\
# branch.oid 1111111111111111111111111111111111111111
# branch.head feature
# branch.upstream origin/feature
# branch.ab +2 -3
";
        let s = parse_porcelain_v2(out);
        assert_eq!(s.branch, "feature");
        assert_eq!(s.ahead, 2);
        assert_eq!(s.behind, 3);
        assert!(!s.dirty);
    }

    #[test]
    fn detached_head_reports_detached_branch() {
        let out = "\
# branch.oid 1111111111111111111111111111111111111111
# branch.head (detached)
";
        let s = parse_porcelain_v2(out);
        assert_eq!(s.branch, "(detached)");
        assert_eq!(s.ahead, 0);
        assert_eq!(s.behind, 0);
        assert!(!s.dirty);
    }

    #[test]
    fn unmerged_lines_count_as_changed() {
        let out = "\
# branch.head main
# branch.ab +0 -0
u UU N... 100644 100644 100644 100644 aaaa bbbb cccc conflict.rs
";
        let s = parse_porcelain_v2(out);
        assert_eq!(s.changed, 1);
        assert!(s.dirty);
    }

    #[test]
    fn empty_input_is_clean_with_empty_branch() {
        let s = parse_porcelain_v2("");
        assert_eq!(s.branch, "");
        assert!(!s.dirty);
        assert_eq!(s.changed, 0);
        assert_eq!(s.untracked, 0);
    }

#[test]
fn failed_git_gives_no_status() {
    assert_eq!(git_status_outcome(false, "# branch.head main\n"), None);
    assert_eq!(git_status_outcome(true, "# branch.head main\n").unwrap().branch, "main");
}

#[test]
fn dirty_exactly_with_entries() {
    let s = parse_porcelain_v2("# branch.head main\n! ignored\n");
    assert!(!s.dirty);
    let s = parse_porcelain_v2("? new\n1 .M N... x\n2 R. N... y\nu UU N... z\n");
    assert!(s.dirty);
    assert_eq!((s.changed, s.untracked), (3, 1));
}
