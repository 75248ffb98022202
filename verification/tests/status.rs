use cc_cockpit::status::classify;
use cc_cockpit::status::strip_ansi;
use cc_cockpit::status::Status;

#[derive(Debug)]
enum Product {
    Claude,
}

#[test]
fn dead_short_circuits() {
    assert_eq!(classify(true, "anything", None), Status::Dead);
}

#[test]
fn working_live_timer() {
    let snap = "✽ Transmuting… (30m 50s · ⎈ 137.1k tokens)\n   Running…\n";
    assert_eq!(classify(false, snap, None), Status::Working);
}

#[test]
fn working_glyph_alone() {
    let snap = "some output\n✽ Cooking…\n";
    assert_eq!(classify(false, snap, None), Status::Working);
}

#[test]
fn working_timer_without_parens() {
    let snap = "  ◯ dev-agent  Run D6 live-state spike     25s · ↓ 31.7k tokens\n";
    assert_eq!(classify(false, snap, None), Status::Working);
}

#[test]
fn idle_prompt_footer() {
    let snap = "⏺ Standing down.\n✻ Baked for 3s\n❯ \n⏵⏵ auto mode on (shift+tab to cycle)\n";
    assert_eq!(classify(false, snap, None), Status::Idle);
}

#[test]
fn shell_prompt_is_idle_not_unknown() {
    let snap = "Last login: …\narmanshatvoran@MacBook-Air-Arman src-tauri % \n";
    assert_eq!(classify(false, snap, None), Status::Idle);
}

#[test]
fn shell_prompt_variants() {
    assert_eq!(classify(false, "user@host ~ $ \n", None), Status::Idle);
    assert_eq!(classify(false, "root@box:/etc# \n", None), Status::Idle);
    assert_eq!(classify(false, "~/repo ❯ \n", None), Status::Idle);
}

#[test]
fn active_spinner_beats_persistent_footer() {
    let snap = "⏺ working...\n✽ Evaporating…\n────\n❯ \n────\n  ⏵⏵ auto mode on (shift+tab to cycle)\n";
    assert_eq!(classify(false, snap, None), Status::Working);
}

#[test]
fn needs_input_beats_active_spinner_override() {
    let snap = "✽ Working…\n╭ Do you want to proceed?\n❯ 1. Yes\n  2. No\n";
    assert_eq!(classify(false, snap, None), Status::NeedsInput);
}

#[test]
fn truly_unknown_stays_unknown() {
    let snap = "building target/release\ncompiling foo v0.1.0\n";
    assert_eq!(classify(false, snap, None), Status::Unknown);
}

#[test]
fn settled_spinner_is_not_working() {
    let snap = "✻ Baked for 3s\n❯ \n⏵⏵ auto mode on (shift+tab to cycle)\n";
    assert_eq!(classify(false, snap, None), Status::Idle);
}

#[test]
fn needs_input_box() {
    let snap = format!("╭─────────╮\n│ Do you want to run this tool? │\n│ ❯ 1. Yes │\n│   2. Yes, and don't ask again │\n│   3. No, and tell {:?} what to do │\n╰─────────╯\n", Product::Claude);
    assert_eq!(classify(false, &snap, None), Status::NeedsInput);
}

#[test]
fn empty_snapshot_is_unknown() {
    assert_eq!(classify(false, "\n\n   \n", None), Status::Unknown);
}

#[test]
fn stale_box_above_fresh_prompt_is_idle() {
    let snap = "│ Do you want to X? │\n│ ❯ 1. Yes │\n│   2. No │\n(turn finished)\n❯ \n⏵⏵ auto mode on (shift+tab to cycle)\n";
    assert_eq!(classify(false, snap, None), Status::Idle);
}

#[test]
fn idle_debounce_holds_working_when_fresh() {
    let snap = "  ◯ agent  building  5s · 1k tokens\n❯ \n⏵⏵ auto mode on (shift+tab to cycle)\n";
    assert_eq!(classify(false, snap, Some(1)), Status::Working);
    assert_eq!(classify(false, snap, Some(10)), Status::Idle);
}

#[test]
fn ansi_is_stripped_before_matching() {
    let snap = "\x1b[1;32m✽ Baking…\x1b[0m (5s · 1k tokens)\n";
    assert_eq!(classify(false, snap, None), Status::Working);
}

#[test]
fn only_complete_escapes_are_stripped() {
    assert_eq!(strip_ansi("a\x1b[1;31mb\x1b[0m"), "ab");
    assert_eq!(strip_ansi("a\x1b[1!x"), "a\x1b[1!x");
    assert_eq!(strip_ansi("a\x1b[12"), "a\x1b[12");
}

#[test]
fn timer_stands_apart_from_its_tokens() {
    assert_eq!(classify(false, "  5s · 1k tokens\n", None), Status::Working);
    assert_ne!(classify(false, "  5s·1k tokens\n", None), Status::Working);
}
