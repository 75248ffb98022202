use cc_cockpit::bridge::Bridge;
use cc_cockpit::bridge::BridgeAction;
use cc_cockpit::engine::Outbound;
use cc_cockpit::engine::TopologyEvent;

fn output(pane: &str, b64: &str) -> Outbound {
    Outbound::PaneData { pane_id: pane.into(), bytes_b64: b64.into() }
}

#[test]
fn trial_does_each_thing_once() {
    let mut b = Bridge::new("TOKEN".into());
    assert_eq!(b.due(5000), vec![BridgeAction::Split], "no pane is known yet");
    assert!(!b.observe(output("%1", "")));
    assert_eq!(b.due(799), vec![]);
    assert_eq!(
        b.due(2200),
        vec![
            BridgeAction::Keys { pane_id: "%1".into(), line: "echo TOKEN".into() },
            BridgeAction::Resize { pane_id: "%1".into(), cols: 100, rows: 30 },
        ]
    );
    assert_eq!(b.due(9000), vec![]);
}

#[test]
fn way_is_proven_by_output_round_trip_and_size() {
    let mut b = Bridge::new("TOKEN".into());
    assert!(!b.proven());
    // "x"
    b.observe(output("%1", "eA=="));
    assert!(b.saw_output && !b.round_trip);
    // 255, "aTOKEN"
    b.observe(output("%1", "/2FUT0tFTg=="));
    assert!(b.round_trip && !b.proven());
    b.observe(Outbound::Topology(TopologyEvent::LayoutChange {
        window_id: "@1".into(),
        layout: "abcd,100x30,0,0,1".into(),
    }));
    assert!(b.proven());
}

#[test]
fn second_pane_is_the_one_that_becomes_active() {
    let mut b = Bridge::new("T".into());
    b.observe(output("%1", "eA=="));
    let active = |p: &str| {
        Outbound::Topology(TopologyEvent::ActivePaneChanged {
            window_id: "@1".into(),
            pane_id: p.into(),
        })
    };
    b.observe(active("%1"));
    assert_eq!(b.second_pane, None);
    b.observe(active("%2"));
    assert_eq!(b.second_pane.as_deref(), Some("%2"));
    assert!(!b.split_output);
    b.observe(output("%2", "not base64!"));
    assert!(b.split_output);
    assert!(b.observe(Outbound::Exit { reason: None }));
}
