use cc_cockpit::engine::Outbound;
use cc_cockpit::engine::TopologyEvent;
use cc_cockpit::forward::gather_ms;
use cc_cockpit::forward::topology_payload;
use cc_cockpit::forward::ForwardEvent;
use cc_cockpit::forward::Forwarder;
use cc_cockpit::forward::Message;
use cc_cockpit::forward::PaneTopologyPayload;

fn data(pane: &str, b64: &str) -> ForwardEvent {
    ForwardEvent::Received(Outbound::PaneData { pane_id: pane.into(), bytes_b64: b64.into() })
}

fn sent(pane: &str, b64: &str) -> Message {
    Message::PaneData { pane_id: pane.into(), bytes_b64: b64.into() }
}

fn topology(
    kind: &str,
    window_id: Option<&str>,
    pane_id: Option<&str>,
    layout: Option<&str>,
) -> PaneTopologyPayload {
    PaneTopologyPayload {
        kind: kind.into(),
        tab_id: None,
        window_id: window_id.map(String::from),
        pane_id: pane_id.map(String::from),
        layout: layout.map(String::from),
    }
}

#[test]
fn output_of_a_pane_is_sent_in_one_piece() {
    let mut f = Forwarder::new();
    // "hel", "A" for another pane, "lo"
    assert_eq!(f.step(data("%1", "aGVs")), (vec![], false));
    assert_eq!(f.step(data("%2", "QQ==")), (vec![], false));
    assert_eq!(f.step(data("%1", "bG8=")), (vec![], false));
    assert_eq!(
        f.step(ForwardEvent::Timeout),
        (vec![sent("%1", "aGVsbG8="), sent("%2", "QQ==")], false)
    );
    assert_eq!(f.step(ForwardEvent::Timeout), (vec![], false));
}

#[test]
fn change_is_sent_behind_the_output_before_it() {
    let mut f = Forwarder::new();
    f.step(data("%1", "QQ=="));
    let ev = TopologyEvent::WindowAdd { window_id: "@1".into() };
    let (out, last) = f.step(ForwardEvent::Received(Outbound::Topology(ev)));
    assert!(!last);
    assert_eq!(
        out,
        vec![
            sent("%1", "QQ=="),
            Message::Topology(topology("windowAdd", Some("@1"), None, None))
        ]
    );
}

#[test]
fn exit_ends_the_forwarding() {
    let mut f = Forwarder::new();
    f.step(data("%1", "QQ=="));
    let (out, last) = f.step(ForwardEvent::Received(Outbound::Exit { reason: Some("eof".into()) }));
    assert!(last);
    assert_eq!(
        out,
        vec![sent("%1", "QQ=="), Message::Topology(topology("exit", None, None, Some("eof")))]
    );
    f.step(data("%1", "QQ=="));
    assert_eq!(f.step(ForwardEvent::Disconnected), (vec![sent("%1", "QQ==")], true));
}

#[test]
fn what_cannot_be_decoded_is_passed_on() {
    let mut f = Forwarder::new();
    f.step(data("%1", "QQ=="));
    assert_eq!(f.step(data("%1", "not base64!")), (vec![sent("%1", "not base64!")], false));
    assert_eq!(f.step(ForwardEvent::Timeout), (vec![sent("%1", "QQ==")], false));
}

#[test]
fn empty_output_is_not_sent() {
    let mut f = Forwarder::new();
    f.step(data("%1", ""));
    assert_eq!(f.step(ForwardEvent::Timeout), (vec![], false));
}

#[test]
fn every_change_has_its_payload() {
    assert_eq!(
        topology_payload(TopologyEvent::WindowClose { window_id: "@1".into() }),
        topology("windowClose", Some("@1"), None, None)
    );
    assert_eq!(
        topology_payload(TopologyEvent::LayoutChange { window_id: "@1".into(), layout: "l".into() }),
        topology("layoutChange", Some("@1"), None, Some("l"))
    );
    assert_eq!(
        topology_payload(TopologyEvent::ActivePaneChanged {
            window_id: "@1".into(),
            pane_id: "%2".into()
        }),
        topology("activePaneChanged", Some("@1"), Some("%2"), None)
    );
    assert_eq!(
        topology_payload(TopologyEvent::PaneModeChanged { pane_id: "%2".into() }),
        topology("paneModeChanged", None, Some("%2"), None)
    );
}

#[test]
fn output_is_gathered_for_sixteen_milliseconds() {
    assert_eq!(gather_ms(0), Some(16));
    assert_eq!(gather_ms(15), Some(1));
    assert_eq!(gather_ms(16), None);
    assert_eq!(gather_ms(u64::MAX), None);
}
