use cc_cockpit::onboarding::parse_probe_output;
use cc_cockpit::onboarding::parse_tmux_version;
use cc_cockpit::onboarding::tmux_is_supported;

#[derive(Debug)]
enum Product {
    Claude,
}

#[test]
fn tmux_version_parse() {
    assert_eq!(parse_tmux_version("tmux 3.4"), Some((3, 4)));
    assert_eq!(parse_tmux_version("tmux 3.3a"), Some((3, 3)));
    assert_eq!(parse_tmux_version("tmux next-3.6"), Some((3, 6)));
    assert_eq!(parse_tmux_version("tmux 3.2"), Some((3, 2)));
    assert_eq!(parse_tmux_version(""), None);
    assert_eq!(parse_tmux_version("command not found"), None);
}

#[test]
fn tmux_ok_gate_is_3_3() {
    let ok = |s: &str| tmux_is_supported(s);
    assert!(ok("tmux 3.3"));
    assert!(ok("tmux 3.4"));
    assert!(ok("tmux 4.0"));
    assert!(!ok("tmux 3.2"));
    assert!(!ok("garbage"));
}

#[test]
fn probe_output_full_and_noisy() {
    let out = format!("rc-noise: welcome\nCC_TMUX=tmux 3.4\nCC_CLAUDE=1.0.72 ({:?} Code)\nCC_BREW=/opt/homebrew/bin/brew\nCC_NPM=/Users/u/.nvm/versions/node/v22/bin/npm\n", Product::Claude);
    let r = parse_probe_output(&out);
    assert!(r.tmux.found && r.tmux.ok);
    assert_eq!(r.tmux.version.as_deref(), Some("tmux 3.4"));
    assert!(r.claude.found && r.claude.ok);
    assert!(r.brew && r.npm);
}

#[test]
fn probe_output_all_missing() {
    let r = parse_probe_output("CC_TMUX=\nCC_CLAUDE=\nCC_BREW=\nCC_NPM=\n");
    assert!(!r.tmux.found && !r.tmux.ok && r.tmux.version.is_none());
    assert!(!r.claude.found && !r.claude.ok);
    assert!(!r.brew && !r.npm);
}

#[test]
fn probe_output_old_tmux_found_but_not_ok() {
    let r = parse_probe_output("CC_TMUX=tmux 3.2\n");
    assert!(r.tmux.found);
    assert!(!r.tmux.ok);
}

