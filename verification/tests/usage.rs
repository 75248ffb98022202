use cc_cockpit::time::parse_iso8601_ms;
use cc_cockpit::usage::FileTail;
use cc_cockpit::usage::UsageScanner;
use cc_cockpit::usage::UsageSnapshot;

const NOW: i64 = 1_786_824_000_000;
const MIN: i64 = 60 * 1000;
const HOUR: i64 = 60 * MIN;
const DAY: i64 = 24 * HOUR;

#[derive(Debug)]
enum Product {
    Claude,
}

fn opus() -> String {
    format!("{:?}", Product::Claude).to_lowercase() + "-opus-5"
}

fn sonnet() -> String {
    format!("{:?}", Product::Claude).to_lowercase() + "-sonnet-4"
}

fn iso(ms: i64) -> String {
    let days = ms.div_euclid(86_400_000);
    let rem = ms.rem_euclid(86_400_000);
    let z = days + 719_468;
    let era = if z >= 0 { z } else { z - 146_096 } / 146_097;
    let doe = z - era * 146_097;
    let yoe = (doe - doe / 1460 + doe / 36524 - doe / 146_096) / 365;
    let y = yoe + era * 400;
    let doy = doe - (365 * yoe + yoe / 4 - yoe / 100);
    let mp = (5 * doy + 2) / 153;
    let d = doy - (153 * mp + 2) / 5 + 1;
    let m = if mp < 10 { mp + 3 } else { mp - 9 };
    let y = if m <= 2 { y + 1 } else { y };
    let (h, mi, s, milli) = (
        rem / 3_600_000,
        (rem / 60_000) % 60,
        (rem / 1000) % 60,
        rem % 1000,
    );
    format!("{y:04}-{m:02}-{d:02}T{h:02}:{mi:02}:{s:02}.{milli:03}Z")
}

fn line(id: &str, ago_ms: i64, model: &str, input: u64, output: u64, cache: u64) -> String {
    format!(
        r#"{{"type":"assistant","uuid":"u-{id}","timestamp":"{ts}","sessionId":"s","message":{{"id":"{id}","model":"{model}","role":"assistant","type":"message","content":[],"usage":{{"input_tokens":{input},"output_tokens":{output},"cache_creation_input_tokens":{cache},"cache_read_input_tokens":0}}}}}}"#,
        ts = iso(NOW - ago_ms)
    ) + "\n"
}

/// Transcripts as they lie on disk: path, contents, time of the last change.
struct Corpus {
    files: Vec<(String, String, i64)>,
}

impl Corpus {
    fn new() -> Self {
        Corpus { files: vec![] }
    }

    fn write(&mut self, name: &str, body: &str, mtime: i64) {
        self.files.retain(|f| f.0 != name);
        self.files.push((name.into(), body.into(), mtime));
    }

    /// One pass: of each file what the scanner asks for is read.
    fn scan(&self, sc: &mut UsageScanner, now: i64) -> UsageSnapshot {
        let mut tails = vec![];
        for (path, body, mtime) in &self.files {
            let len = body.len() as u64;
            let tail = if UsageScanner::wants(*mtime, now) {
                sc.read_start(path, len, *mtime).map(|at| body.as_bytes()[at as usize..].to_vec())
            } else {
                None
            };
            tails.push(FileTail { path: path.clone(), len, mtime_ms: *mtime, tail });
        }
        sc.scan(&tails, now)
    }
}

#[test]
fn aggregates_five_hour_and_week_windows_with_model_split() {
    let mut c = Corpus::new();
    c.write(
        "proj-a/s1",
        &(line("m1", HOUR, &opus(), 10, 100, 1000)
            + &line("m2", 4 * HOUR, &sonnet(), 5, 50, 500)
            + &line("m3", 3 * DAY, &opus(), 1, 10, 100)
            + &line("m4", 9 * DAY, &opus(), 999, 999, 999)),
        NOW,
    );
    let mut sc = UsageScanner::new();
    let snap = c.scan(&mut sc, NOW);

    assert_eq!(snap.five_hour.messages, 2);
    assert_eq!(snap.five_hour.input_tokens, 15);
    assert_eq!(snap.five_hour.output_tokens, 150);
    assert_eq!(snap.five_hour.cache_tokens, 1500);
    assert_eq!(snap.five_hour.total_tokens, 1665);
    assert_eq!(snap.five_hour.by_model.len(), 2);
    assert_eq!(snap.five_hour.by_model[0].model, opus());
    assert_eq!(snap.five_hour.by_model[0].total_tokens, 1110);
    assert_eq!(snap.five_hour.by_model[0].messages, 1);
    assert_eq!(snap.five_hour.by_model[1].model, sonnet());
    assert_eq!(snap.five_hour.by_model[1].total_tokens, 555);

    assert_eq!(snap.week.messages, 3);
    assert_eq!(snap.week.total_tokens, 1665 + 111);
    assert_eq!(snap.computed_at_ms, NOW);
}

#[test]
fn dedups_repeated_message_ids_across_files() {
    let mut c = Corpus::new();
    c.write("proj-a/s1", &line("dup", 10 * MIN, &opus(), 1, 2, 3), NOW);
    c.write("proj-a/s2", &line("dup", 10 * MIN, &opus(), 1, 2, 3), NOW);
    c.write("proj-b/s3", &line("uniq", 10 * MIN, &opus(), 1, 2, 3), NOW);
    let mut sc = UsageScanner::new();
    let snap = c.scan(&mut sc, NOW);
    assert_eq!(snap.five_hour.messages, 2, "the duplicate id counts once");
    assert_eq!(snap.five_hour.total_tokens, 12);
}

#[test]
fn dedups_across_repeated_scans_of_a_rewritten_file() {
    let mut c = Corpus::new();
    c.write("proj/s", &line("a", 5 * MIN, "m", 1, 1, 1), NOW);
    let mut sc = UsageScanner::new();
    assert_eq!(c.scan(&mut sc, NOW).five_hour.messages, 1);
    c.write(
        "proj/s",
        &(line("a", 5 * MIN, "m", 1, 1, 1) + &line("b", 5 * MIN, "m", 1, 1, 1)),
        NOW + 1,
    );
    let snap = c.scan(&mut sc, NOW + 1000);
    assert_eq!(snap.five_hour.messages, 2, "'a' must not be double counted");
}

#[test]
fn tolerates_malformed_and_irrelevant_lines() {
    let body = String::new()
        + "not json at all\n"
        + "{\"type\":\"assistant\",\"message\":{\"usage\":{\n"
        + "{\"type\":\"user\",\"message\":{\"role\":\"user\"}}\n"
        + "{\"type\":\"assistant\",\"message\":{\"id\":\"x\",\"usage\":{}}}\n"
        + "\n"
        + &line("good", 5 * MIN, &opus(), 1, 1, 1)
        + "{\"type\":\"assistant\",\"timestamp\":\"nope\",\"message\":{\"id\":\"y\",\"usage\":{\"output_tokens\":5}}}\n"
        + &line("good2", 5 * MIN, &opus(), 1, 1, 1);
    let mut c = Corpus::new();
    c.write("proj/s", &body, NOW);
    let mut sc = UsageScanner::new();
    let snap = c.scan(&mut sc, NOW);
    assert_eq!(snap.five_hour.messages, 2, "only the two well-formed records");
    assert_eq!(snap.five_hour.total_tokens, 6);
}

#[test]
fn incremental_tail_read_never_rereads_unchanged_bytes() {
    let mut c = Corpus::new();
    let first = line("a", 5 * MIN, "m", 1, 1, 1);
    c.write("proj/s", &first, NOW);
    let mut sc = UsageScanner::new();
    let snap1 = c.scan(&mut sc, NOW);
    let after_first = sc.bytes_read();
    assert_eq!(snap1.five_hour.messages, 1);
    assert_eq!(after_first, first.len() as u64, "first pass reads the file once");

    let snap2 = c.scan(&mut sc, NOW + 1000);
    assert_eq!(sc.bytes_read(), after_first, "unchanged file must not be re-read");
    assert_eq!(snap2.five_hour.messages, 1);

    let second = line("b", 4 * MIN, "m", 2, 2, 2);
    c.write("proj/s", &(first + &second), NOW + 1);
    let snap3 = c.scan(&mut sc, NOW + 2000);
    assert_eq!(
        sc.bytes_read(),
        after_first + second.len() as u64,
        "tail read only covers the appended bytes"
    );
    assert_eq!(snap3.five_hour.messages, 2);
    assert_eq!(snap3.five_hour.total_tokens, 3 + 6);
}

#[test]
fn partial_trailing_line_is_not_consumed_until_complete() {
    let full = line("a", 5 * MIN, "m", 1, 1, 1);
    let (head, _) = full.split_at(full.len() / 2);
    let mut c = Corpus::new();
    c.write("proj/s", head, NOW);
    let mut sc = UsageScanner::new();
    assert_eq!(c.scan(&mut sc, NOW).five_hour.messages, 0, "half a record is not a record");

    c.write("proj/s", &full, NOW + 1);
    let snap = c.scan(&mut sc, NOW + 1000);
    assert_eq!(snap.five_hour.messages, 1, "completed record counted once");
    assert_eq!(snap.five_hour.total_tokens, 3);
}

#[test]
fn truncation_triggers_full_rescan() {
    let long = line("a", 5 * MIN, "m", 1, 1, 1) + &line("b", 5 * MIN, "m", 1, 1, 1);
    let mut c = Corpus::new();
    c.write("proj/s", &long, NOW);
    let mut sc = UsageScanner::new();
    assert_eq!(c.scan(&mut sc, NOW).five_hour.messages, 2);

    let short = line("c", 5 * MIN, "m", 4, 0, 0);
    assert!(short.len() < long.len());
    c.write("proj/s", &short, NOW + 1);
    let before = sc.bytes_read();
    let snap = c.scan(&mut sc, NOW + 1000);
    assert_eq!(
        sc.bytes_read() - before,
        short.len() as u64,
        "a shrunken file is re-read from byte 0"
    );
    assert_eq!(snap.five_hour.messages, 3);
    assert_eq!(snap.five_hour.total_tokens, 3 + 3 + 4);
}

#[test]
fn skips_files_whose_mtime_predates_the_window() {
    let mut c = Corpus::new();
    c.write("proj/old", &line("old", 30 * MIN, "m", 1, 1, 1), NOW - 30 * DAY);
    let mut sc = UsageScanner::new();
    let snap = c.scan(&mut sc, NOW);
    assert_eq!(snap.week.messages, 0, "stale file is never opened");
    assert_eq!(sc.bytes_read(), 0, "not one byte read from a stale file");
}

#[test]
fn records_age_out_of_the_week_window_on_a_later_pass() {
    let mut c = Corpus::new();
    c.write("proj/s", &line("a", 6 * DAY, "m", 1, 1, 1), NOW);
    let mut sc = UsageScanner::new();
    assert_eq!(c.scan(&mut sc, NOW).week.messages, 1);
    assert_eq!(c.scan(&mut sc, NOW + 2 * DAY).week.messages, 0);
}

#[test]
fn velocity_counts_only_the_trailing_thirty_minutes() {
    let mut c = Corpus::new();
    c.write(
        "proj/s",
        &(line("hot", 10 * MIN, "m", 100, 200, 300) + &line("warm", 45 * MIN, "m", 999, 999, 999)),
        NOW,
    );
    let mut sc = UsageScanner::new();
    let snap = c.scan(&mut sc, NOW);
    assert_eq!(snap.velocity_tokens as f64 / 30.0, 300.0 / 30.0);
    assert_eq!(snap.five_hour.total_tokens, 600 + 2997);
}

#[test]
fn empty_corpus_is_a_zero_snapshot_not_an_error() {
    let mut sc = UsageScanner::new();
    let snap = Corpus::new().scan(&mut sc, NOW);
    assert_eq!(snap.five_hour.total_tokens, 0);
    assert_eq!(snap.five_hour.messages, 0);
    assert!(snap.five_hour.by_model.is_empty());
    assert_eq!(snap.week.total_tokens, 0);
    assert_eq!(snap.computed_at_ms, NOW);
    assert_eq!(sc.bytes_read(), 0);
}

#[test]
fn unreadable_file_is_tried_again() {
    let mut sc = UsageScanner::new();
    let tail = |t| FileTail { path: "p".into(), len: 3, mtime_ms: NOW, tail: t };
    sc.scan(&[tail(None)], NOW);
    assert_eq!(sc.read_start("p", 3, NOW), Some(0));
    sc.scan(&[tail(Some(b"{}\n".to_vec()))], NOW);
    assert_eq!(sc.read_start("p", 3, NOW), None);
    assert_eq!(sc.read_start("p", 9, NOW), Some(3));
    assert_eq!(sc.read_start("p", 2, NOW), Some(0));
}

#[test]
fn models_of_one_weight_are_ordered_by_name() {
    let mut c = Corpus::new();
    c.write(
        "s",
        &(line("1", MIN, "b", 1, 1, 1) + &line("2", MIN, "a", 1, 1, 1) + &line("3", MIN, "c", 9, 1, 1)),
        NOW,
    );
    let mut sc = UsageScanner::new();
    let snap = c.scan(&mut sc, NOW);
    let names: Vec<&str> = snap.week.by_model.iter().map(|m| m.model.as_str()).collect();
    assert_eq!(names, vec!["c", "a", "b"]);
}

#[test]
fn line_of_bad_bytes_costs_only_itself() {
    let mut sc = UsageScanner::new();
    let mut body = vec![0xff, 0xfe, b'\n'];
    body.extend_from_slice(line("ok", MIN, "m", 1, 1, 1).as_bytes());
    let len = body.len() as u64;
    let snap = sc.scan(&[FileTail { path: "p".into(), len, mtime_ms: NOW, tail: Some(body) }], NOW);
    assert_eq!(snap.week.messages, 1);
}

#[test]
fn parses_transcript_timestamps() {
    assert_eq!(parse_iso8601_ms("1970-01-01T00:00:00.000Z"), Some(0));
    let t = parse_iso8601_ms("2026-08-14T14:26:44.209Z").unwrap();
    assert_eq!(iso(t), "2026-08-14T14:26:44.209Z");
    assert_eq!(
        parse_iso8601_ms("2026-08-14T14:26:44Z"),
        Some(t - 209),
    );
    for bad in ["", "nope", "2026-13-01T00:00:00Z", "2026-08-14X00:00:00Z", "20260814"] {
        assert_eq!(parse_iso8601_ms(bad), None, "{bad} should not parse");
    }
}

#[test]
fn days_follow_each_other_across_months() {
    let day = |s: &str| parse_iso8601_ms(&format!("{s}T00:00:00Z")).unwrap() / 86_400_000;
    assert_eq!(day("2024-02-29") + 1, day("2024-03-01"));
    assert_eq!(day("2023-02-28") + 1, day("2023-03-01"));
    assert_eq!(day("1999-12-31") + 1, day("2000-01-01"));
    assert_eq!(day("1970-01-02"), 1);
}

#[test]
fn second_pass_over_unchanged_files_reads_nothing() {
    let mut c = Corpus::new();
    c.write("p/a", &line("a", 5 * MIN, "m", 1, 2, 3), NOW);
    c.write("p/b", &(line("b", 6 * MIN, "m", 4, 5, 6) + "unfinished"), NOW);
    let mut sc = UsageScanner::new();
    let first = c.scan(&mut sc, NOW);
    let read = sc.bytes_read();
    let second = c.scan(&mut sc, NOW + MIN);
    assert_eq!(sc.bytes_read(), read);
    assert_eq!(second.week, first.week);
    assert_eq!(second.week.messages, 2);
}

#[test]
fn no_count_of_the_short_window_is_larger() {
    let mut c = Corpus::new();
    let body = line("a", 5 * MIN, "m", 1, 2, 3) + &line("b", 600 * MIN, "m", 4, 5, 6);
    c.write("p/a", &body, NOW);
    let snap = c.scan(&mut UsageScanner::new(), NOW);
    assert_eq!((snap.five_hour.input_tokens, snap.week.input_tokens), (1, 5));
    assert_eq!((snap.five_hour.output_tokens, snap.week.output_tokens), (2, 7));
    assert_eq!((snap.five_hour.cache_tokens, snap.week.cache_tokens), (3, 9));
}

#[test]
fn escaped_letters_are_letters() {
    let mut c = Corpus::new();
    let body = line("a", 5 * MIN, "m", 1, 1, 1)
        .replace("usage", "us\\u0061ge")
        .replace("assistant", "\\u0061ssistant");
    c.write("p/a", &body, NOW);
    let snap = c.scan(&mut UsageScanner::new(), NOW);
    assert_eq!(snap.week.messages, 1);
}
