use cc_cockpit::replay::compose_plain;
use cc_cockpit::replay::compose_screen_replay;
use cc_cockpit::replay::compose_warm_start;
use cc_cockpit::replay::parse_u32_fields;
use cc_cockpit::replay::trim_blank_edges;

#[test]
fn trim_blank_edges_drops_fresh_pane_padding() {
    let mut s = String::from("\nuser@host repo % ");
    for _ in 0..45 {
        s.push('\n');
    }
    assert_eq!(trim_blank_edges(&s), "user@host repo % ");
}

#[test]
fn trim_blank_edges_keeps_interior_blanks() {
    assert_eq!(trim_blank_edges("\n\na\n\nb\n\n"), "a\n\nb");
}

#[test]
fn trim_blank_edges_all_blank_is_empty() {
    assert_eq!(trim_blank_edges("\n\n\n"), "");
    assert_eq!(trim_blank_edges("\x1b[0m\n  \n"), "");
}

#[test]
fn compose_screen_replay_converts_lf_and_restores_cursor() {
    let out = compose_screen_replay("a\nb\n", Some((3, 1)));
    assert_eq!(out, "a\r\nb\x1b[2;4H");
}

#[test]
fn compose_screen_replay_keeps_leading_blank_rows() {
    let out = compose_screen_replay("\n\nprompt %\n", None);
    assert_eq!(out, "\r\n\r\nprompt %");
}

#[test]
fn compose_screen_replay_never_scrolls_full_grid() {
    let r: usize = 24;
    let capture = (0..r).map(|i| format!("row{i}")).collect::<Vec<_>>().join("\n") + "\n";
    let out = compose_screen_replay(&capture, None);
    assert_eq!(out.matches("\r\n").count(), r - 1);
    assert!(!out.ends_with('\n'));
    assert!(out.starts_with("row0\r\n"));
    assert!(out.ends_with("row23"));
}

#[test]
fn compose_screen_replay_without_trailing_newline_is_unchanged() {
    let out = compose_screen_replay("a\nb", Some((0, 0)));
    assert_eq!(out, "a\r\nb\x1b[1;1H");
    let out = compose_screen_replay("a\nb\n\n", None);
    assert_eq!(out, "a\r\nb\r\n");
}

#[test]
fn compose_warm_start_splits_history_and_grid() {
    let capture = "h1\nh2\ng1\ng2\ng3\n";
    let out = compose_warm_start(capture, 3, Some((2, 2)));
    assert_eq!(out, "h1\r\nh2\r\ng1\r\ng2\r\ng3\x1b[3;3H");
}

#[test]
fn compose_warm_start_short_capture_is_all_grid() {
    let out = compose_warm_start("a\nb\n", 24, Some((1, 1)));
    assert_eq!(out, "a\r\nb\x1b[2;2H");
    let out = compose_warm_start("a\nb\nc\n", 3, None);
    assert_eq!(out, "a\r\nb\r\nc");
}

#[test]
fn compose_warm_start_trims_history_blanks_keeps_grid_blanks() {
    let capture = "\n\nreal history\n\n\n\ntop\n\nbottom\n";
    let out = compose_warm_start(capture, 4, None);
    assert_eq!(out, "real history\r\n\r\ntop\r\n\r\nbottom");
    let out = compose_warm_start("\n\n\ngrid\n", 1, None);
    assert_eq!(out, "grid");
}

#[test]
fn compose_warm_start_never_scrolls() {
    let h: usize = 24;
    let grid_blanks: usize = 22;
    let mut capture = String::from("h0\nh1\n\n\n\n\n"); // 6 history rows, 4 blank
    capture.push_str("g0\ng1"); // first 2 of the h grid rows
    capture.push_str(&"\n".repeat(grid_blanks)); // grid_blanks blank rows
    capture.push('\n'); // capture-pane's terminator
    let out = compose_warm_start(&capture, h, None);
    assert_eq!(out.matches("\r\n").count(), 1 + 1 + h - 1);
    assert_eq!(
        out,
        format!("h0\r\nh1\r\ng0\r\ng1{}", "\r\n".repeat(grid_blanks))
    );
}

#[test]
fn parse_u32_fields_needs_every_field() {
    assert_eq!(parse_u32_fields("3 7\n", 2), Some(vec![3, 7]));
    assert_eq!(parse_u32_fields(" 24 0 12 \n", 3), Some(vec![24, 0, 12]));
    assert_eq!(parse_u32_fields("3", 2), None);
    assert_eq!(parse_u32_fields("", 1), None);
    assert_eq!(parse_u32_fields("x y", 2), None);
    assert_eq!(parse_u32_fields("1 2 3", 2), Some(vec![1, 2]));
}

#[test]
fn full_screen_ends_in_its_last_row() {
    let capture = "h\n1\n2\n3\n";
    let out = compose_warm_start(capture, 3, None);
    assert!(out.ends_with("1\r\n2\r\n3"));
    assert_eq!(out, "h\r\n1\r\n2\r\n3");
}

#[test]
fn height_of_nothing_counts_as_one_row() {
    assert_eq!(compose_warm_start("a\nb\n", 0, None), "a\r\nb");
}

#[test]
fn plain_replay_drops_the_edges() {
    assert_eq!(compose_plain("\n\na\n\nb\n\n"), "a\r\n\r\nb");
    assert_eq!(compose_plain("\n \n"), "");
}

#[test]
fn numbers_must_fit() {
    assert_eq!(parse_u32_fields("4294967295", 1), Some(vec![4294967295]));
    assert_eq!(parse_u32_fields("4294967296", 1), None);
    assert_eq!(parse_u32_fields("", 0), Some(vec![]));
}

#[test]
fn cursor_counts_from_one() {
    assert_eq!(compose_screen_replay("", Some((4294967295, 0))), "\x1b[1;4294967296H");
}

#[test]
fn replay_takes_at_most_twice_its_capture() {
    let capture = "é\n".to_string() + &"\n".repeat(999) + "x";
    let bound = 2 * capture.len() + 100;
    let cursor = Some((u32::MAX, u32::MAX));
    assert!(compose_screen_replay(&capture, cursor).len() <= bound);
    assert!(compose_warm_start(&capture, 1, cursor).len() <= bound);
    assert!(compose_plain(&capture).len() <= bound);
    assert!(compose_plain(&capture).len() > capture.len());
}
