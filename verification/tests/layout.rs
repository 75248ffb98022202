use cc_cockpit::layout::parse_window_layout;
use cc_cockpit::layout::LayoutRect;

fn rect(id: &str, x: u16, y: u16, w: u16, h: u16) -> LayoutRect {
    LayoutRect {
        pane_id: id.into(),
        x,
        y,
        w,
        h,
    }
}

#[test]
fn single_pane() {
    let l = parse_window_layout("a9ad,189x109,0,0,0").unwrap();
    assert_eq!((l.width, l.height), (189, 109));
    assert_eq!(l.rects, vec![rect("%0", 0, 0, 189, 109)]);
}

#[test]
fn two_panes_vertical() {
    let l = parse_window_layout("4d2b,189x109,0,0[189x54,0,0,0,189x54,0,55,1]").unwrap();
    assert_eq!((l.width, l.height), (189, 109));
    assert_eq!(
        l.rects,
        vec![rect("%0", 0, 0, 189, 54), rect("%1", 0, 55, 189, 54)]
    );
}

#[test]
fn three_panes_tiled_bottom_full_width() {
    let l = parse_window_layout(
        "24f8,189x109,0,0[189x54,0,0{94x54,0,0,0,94x54,95,0,1},189x54,0,55,2]",
    )
    .unwrap();
    assert_eq!(
        l.rects,
        vec![
            rect("%0", 0, 0, 94, 54),
            rect("%1", 95, 0, 94, 54),
            rect("%2", 0, 55, 189, 54),
        ]
    );
}

#[test]
fn five_panes_tiled_two_plus_two_plus_one() {
    let l = parse_window_layout(
        "2d1f,189x109,0,0[189x35,0,0{94x35,0,0,0,94x35,95,0,1},189x35,0,36{94x35,0,36,2,94x35,95,36,3},189x37,0,72,4]",
    )
    .unwrap();
    assert_eq!(l.rects.len(), 5);
    assert_eq!(l.rects[4], rect("%4", 0, 72, 189, 37));
    let mut ys: Vec<u16> = l.rects.iter().map(|r| r.y).collect();
    ys.sort_unstable();
    ys.dedup();
    assert_eq!(ys, vec![0, 36, 72]);
}

#[test]
fn even_horizontal_row() {
    let l = parse_window_layout(
        "0303,100x40,0,0{20x40,0,0,0,19x40,21,0,1,19x40,41,0,2,19x40,61,0,3,19x40,81,0,4}",
    )
    .unwrap();
    assert_eq!(l.rects.len(), 5);
    assert_eq!(l.rects[0], rect("%0", 0, 0, 20, 40));
    assert_eq!(l.rects[4], rect("%4", 81, 0, 19, 40));
}

#[test]
fn pane_numbers_are_ids_not_indices() {
    let l = parse_window_layout(
        "cc97,100x40,0,0[100x19,0,0{49x19,0,0,0,50x19,50,0,2},100x20,0,20,3]",
    )
    .unwrap();
    let ids: Vec<&str> = l.rects.iter().map(|r| r.pane_id.as_str()).collect();
    assert_eq!(ids, vec!["%0", "%2", "%3"]);
}

#[test]
fn manual_split_left_full_height_right_stacked() {
    let l = parse_window_layout(
        "b1c2,100x40,0,0{49x40,0,0,0,50x40,50,0[50x19,50,0,1,50x20,50,20,2]}",
    )
    .unwrap();
    assert_eq!(
        l.rects,
        vec![
            rect("%0", 0, 0, 49, 40),
            rect("%1", 50, 0, 50, 19),
            rect("%2", 50, 20, 50, 20),
        ]
    );
}

#[test]
fn malformed_inputs_return_none() {
    for bad in [
        "",
        "a9ad",
        "a9ad,",
        "not-a-layout",
        "zzzz,189x109,0,0,0",            // bad checksum chars
        "a9ad,189x109,0,0",              // geom with no leaf/container
        "a9ad,189x109,0,0[189x54,0,0,0", // unclosed container
        "a9ad,189x109,0,0,0trailing",    // trailing garbage
        "a9adx,189x109,0,0,0",           // 5-char checksum
    ] {
        assert!(parse_window_layout(bad).is_none(), "accepted: {bad}");
    }
}

#[test]
fn nested_depth_and_empty_container_rejected() {
    assert!(parse_window_layout("a9ad,10x10,0,0[]").is_none());
    let l = parse_window_layout(
        "abcd,100x40,0,0{50x40,0,0[50x19,0,0,0,50x20,0,20{24x20,0,20,1,25x20,25,20,2}],49x40,51,0,3}",
    )
    .unwrap();
    assert_eq!(l.rects.len(), 4);
}

#[test]
fn container_of_one_is_rejected() {
    assert!(parse_window_layout("a9ad,10x10,0,0[10x10,0,0,0]").is_none());
    assert!(parse_window_layout("a9ad,10x10,0,0{10x10,0,0,0}").is_none());
    assert!(parse_window_layout("a9ad,10x10,0,0[10x4,0,0,0,10x5,0,5{10x5,0,5,1}]").is_none());
}
