use cc_cockpit::environment::needs_utf8_locale;
use cc_cockpit::environment::parse_path_capture;
use cc_cockpit::environment::repair_path_for_gui;

#[test]
fn locale_needed_when_env_empty() {
    assert!(needs_utf8_locale(&[None, None, None]));
}

#[test]
fn locale_needed_when_only_c_locale() {
    assert!(needs_utf8_locale(&[Some("C".into()), None, None]));
    assert!(needs_utf8_locale(&[None, None, Some("POSIX".into())]));
}

#[test]
fn locale_ok_when_any_var_is_utf8() {
    assert!(!needs_utf8_locale(&[None, None, Some("en_US.UTF-8".into())]));
    assert!(!needs_utf8_locale(&[Some("hy_AM.UTF-8".into()), None, None]));
    assert!(!needs_utf8_locale(&[None, Some("en_US.utf8".into()), None]));
    assert!(!needs_utf8_locale(&[None, Some("UTF-8".into()), None]));
}

#[test]
fn parse_extracts_between_sentinels() {
    let s = "rc-noise\n__CCPATH__/opt/homebrew/bin:/usr/bin:/bin__CCEND__";
    assert_eq!(parse_path_capture(s, |_| false).as_deref(), Some("/opt/homebrew/bin:/usr/bin:/bin"));
}

#[test]
fn parse_rejects_reversed_sentinels_without_panic() {
    assert_eq!(parse_path_capture("__CCEND__junk__CCPATH__", |_| false), None);
}

#[test]
fn parse_rejects_empty_capture() {
    assert_eq!(parse_path_capture("__CCPATH____CCEND__", |_| false), None);
}

#[test]
fn parse_rejects_space_joined_fish_path() {
    assert_eq!(parse_path_capture("__CCPATH__/opt/homebrew/bin /usr/bin__CCEND__", |_| false), None);
}

#[test]
fn parse_accepts_colonless_but_real_single_dir() {
    let d = "/tmp";
    let s = format!("__CCPATH__{d}__CCEND__");
    assert_eq!(parse_path_capture(&s, |p| p == d).as_deref(), Some(d));
}

#[test]
fn widened_path_keeps_what_was_there() {
    assert_eq!(
        repair_path_for_gui(None, "/usr/bin::/bin:"),
        "/usr/bin:/bin:/opt/homebrew/bin:/usr/local/bin"
    );
    assert_eq!(
        repair_path_for_gui(None, "/usr/local/bin:/bin"),
        "/usr/local/bin:/bin:/opt/homebrew/bin"
    );
    assert_eq!(repair_path_for_gui(None, ""), "/opt/homebrew/bin:/usr/local/bin");
}

#[test]
fn captured_path_wins() {
    assert_eq!(repair_path_for_gui(Some("/x:/y".into()), "/bin"), "/x:/y");
}

#[test]
fn first_marks_decide() {
    assert_eq!(
        parse_path_capture("__CCPATH__/a:/b__CCEND__ __CCPATH__/c:/d__CCEND__", |_| false).as_deref(),
        Some("/a:/b")
    );
    assert_eq!(parse_path_capture("no marks", |_| true), None);
}
