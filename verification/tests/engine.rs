use cc_cockpit::engine::end_of_output;
use cc_cockpit::engine::hex_pairs;
use cc_cockpit::engine::pump;
use cc_cockpit::engine::route;
use cc_cockpit::engine::shell_single_quote;
use cc_cockpit::engine::ControlClient;
use cc_cockpit::engine::EngineError;
use cc_cockpit::engine::Event;
use cc_cockpit::engine::Outbound;
use cc_cockpit::engine::TopologyEvent;

#[test]
fn single_quote_escapes_embedded_quote() {
    assert_eq!(shell_single_quote("ab"), "'ab'");
    assert_eq!(shell_single_quote("a'b"), "'a'\\''b'");
}

#[test]
fn hex_path_is_used_for_control_bytes_conceptually() {
    let bytes = [0x03u8, 0x1b, 0x5b, 0x41];
    assert_eq!(hex_pairs(&bytes), "03 1b 5b 41");
}

#[test]
fn every_byte_is_written_as_two_digits() {
    let all: Vec<u8> = (0..=255).collect();
    let want: Vec<String> = all.iter().map(|b| format!("{b:02x}")).collect();
    assert_eq!(hex_pairs(&all), want.join(" "));
    assert_eq!(hex_pairs(&[]), "");
}

#[test]
fn output_is_sent_in_base64() {
    let ev = Event::Output { pane_id: "%1".into(), data: vec![0, 255, 10] };
    assert_eq!(
        route(ev),
        Some(Outbound::PaneData { pane_id: "%1".into(), bytes_b64: "AP8K".into() })
    );
}

#[test]
fn topology_goes_on_and_replies_stay() {
    let out = pump(vec![
        Event::WindowAdd { window_id: "@1".into() },
        Event::Other,
        Event::WindowClose { window_id: "@1".into() },
        Event::LayoutChange { window_id: "@2".into(), layout: "l".into() },
        Event::WindowPaneChanged { window_id: "@2".into(), pane_id: "%3".into() },
        Event::PaneModeChanged { pane_id: "%3".into() },
        Event::Exit { reason: None },
    ]);
    assert_eq!(
        out,
        vec![
            Outbound::Topology(TopologyEvent::WindowAdd { window_id: "@1".into() }),
            Outbound::Topology(TopologyEvent::WindowClose { window_id: "@1".into() }),
            Outbound::Topology(TopologyEvent::LayoutChange {
                window_id: "@2".into(),
                layout: "l".into()
            }),
            Outbound::Topology(TopologyEvent::ActivePaneChanged {
                window_id: "@2".into(),
                pane_id: "%3".into()
            }),
            Outbound::Topology(TopologyEvent::PaneModeChanged { pane_id: "%3".into() }),
            Outbound::Exit { reason: None },
        ]
    );
    assert_eq!(end_of_output(), Outbound::Exit { reason: Some("eof".into()) });
}

#[test]
fn commands_are_kept_in_order() {
    let mut c = ControlClient::new();
    c.pane_send_keys("%1", "it's");
    c.pane_send_keys_hex("%1", &[13]);
    c.pane_resize("%1", 100, 30);
    c.set_grid(120, 40, "tiled");
    c.set_client_size(80, 24);
    c.interrupt_pane("%2");
    c.shutdown();
    assert_eq!(
        c.take(),
        "send-keys -t %1 -l 'it'\\''s'\n\
         send-keys -t %1 -H 0d\n\
         resize-pane -t %1 -x 100 -y 30\nrefresh-client -C 100,30\n\
         refresh-client -C 120,40\nselect-layout tiled\n\
         refresh-client -C 80,24\n\
         send-keys -t %2 -H 03\n\
         detach-client\n"
    );
    assert_eq!(c.take(), "");
}

#[test]
fn client_attaches_on_the_given_socket() {
    assert_eq!(
        ControlClient::attach_args("cockpit", "cockpit-main"),
        vec!["-L", "cockpit", "-C", "attach", "-t", "cockpit-main"]
    );
}

#[test]
fn engine_errors_say_what_failed() {
    assert_eq!(EngineError::Spawn("x".into()).message(), "spawn control client: x");
    assert_eq!(EngineError::NotAttached.message(), "no control client attached");
    assert_eq!(EngineError::Write("y".into()).message(), "write to control client: y");
}

#[test]
fn reads_add_up_to_the_whole_output() {
    let events = || {
        vec![
            Event::Output { pane_id: "%1".into(), data: vec![0, 255, 10] },
            Event::Other,
            Event::WindowAdd { window_id: "@1".into() },
            Event::Output { pane_id: "%1".into(), data: vec![65] },
        ]
    };
    let whole = pump(events());
    assert_eq!(whole.len(), 3);
    for cut in 0..=events().len() {
        let mut first = events();
        let second = first.split_off(cut);
        let mut out = pump(first);
        out.extend(pump(second));
        assert_eq!(out, whole);
    }
}
