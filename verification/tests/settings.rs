use cc_cockpit::persist::load_layout;
use cc_cockpit::persist::save_layout;
use cc_cockpit::persist::FileRead;
use cc_cockpit::persist::LayoutSnapshot;
use cc_cockpit::persist::TabLayout;
use cc_cockpit::settings::apply_at_startup;
use cc_cockpit::settings::load_settings;
use cc_cockpit::settings::read_settings_in;
use cc_cockpit::settings::save_settings;
use cc_cockpit::settings::CockpitSettings;

fn settings(cwd: Option<&str>) -> CockpitSettings {
    CockpitSettings { schema_version: 1, default_cwd: cwd.map(String::from) }
}

#[test]
fn reads_the_three_real_disk_states() {
    assert_eq!(read_settings_in(FileRead::Missing).unwrap(), None);
    assert_eq!(
        read_settings_in(FileRead::Parsed(Ok(settings(Some("/Users/u/Code")))))
            .unwrap()
            .unwrap()
            .default_cwd,
        Some("/Users/u/Code".into())
    );
    assert_eq!(
        read_settings_in(FileRead::Parsed(Err("bad".into()))).unwrap_err(),
        "parse settings: bad"
    );
    assert_eq!(
        read_settings_in(FileRead::Failed("denied".into())).unwrap_err(),
        "read settings: denied"
    );
}

#[test]
fn first_run_has_default_settings() {
    assert_eq!(
        load_settings(FileRead::Missing).unwrap(),
        CockpitSettings { schema_version: 0, default_cwd: None }
    );
    assert!(load_settings(FileRead::Parsed(Err("x".into()))).is_err());
    assert_eq!(load_settings(FileRead::Parsed(Ok(settings(None)))).unwrap(), settings(None));
}

#[test]
fn saved_settings_carry_the_version_and_take_effect() {
    let mut configured = None;
    let given = CockpitSettings { schema_version: 9, default_cwd: Some("/w".into()) };
    assert_eq!(save_settings(given, &mut configured), settings(Some("/w")));
    assert_eq!(configured.as_deref(), Some("/w"));
    save_settings(settings(Some("  ")), &mut configured);
    assert_eq!(configured, None);
}

#[test]
fn broken_settings_do_not_block_the_start() {
    let mut configured = Some("/old".to_string());
    apply_at_startup(FileRead::Parsed(Ok(settings(Some("/w")))), &mut configured);
    assert_eq!(configured.as_deref(), Some("/w"));
    apply_at_startup(FileRead::Parsed(Err("x".into())), &mut configured);
    assert_eq!(configured, None);
    apply_at_startup(FileRead::Missing, &mut configured);
    assert_eq!(configured, None);
}

#[test]
fn written_layout_carries_the_version() {
    let tabs = vec![TabLayout {
        index: 0,
        cwd: "/repo/a".into(),
        window_id: Some("@4".into()),
        custom_title: Some("Alpha".into()),
    }];
    let given =
        LayoutSnapshot { schema_version: 7, active_tab_id: Some("tab-2".into()), tabs: tabs.clone() };
    assert_eq!(
        save_layout(given),
        LayoutSnapshot { schema_version: 1, active_tab_id: Some("tab-2".into()), tabs }
    );
}

#[test]
fn layout_is_missing_broken_or_there() {
    assert_eq!(load_layout(FileRead::Missing).unwrap(), None);
    assert_eq!(load_layout(FileRead::Parsed(Err("x".into()))).unwrap_err(), "parse layout: x");
    assert_eq!(load_layout(FileRead::Failed("y".into())).unwrap_err(), "read layout: y");
    let snap = LayoutSnapshot { schema_version: 1, active_tab_id: None, tabs: vec![] };
    assert_eq!(load_layout(FileRead::Parsed(Ok(snap.clone()))).unwrap(), Some(snap));
}
