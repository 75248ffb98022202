//! What a pane is doing, judged by what stands on its screen.
//!
//! The last lines of a capture are searched for markers. Of competing markers the one drawn
//! lowest decides, since the program draws from the bottom up; an active spinner decides
//! alone, unless a question is open. What matches nothing is `Unknown`, never a guess.
use crate::seqs;
use crate::text;
use vstd::prelude::*;

verus! {

#[derive(Debug, Clone, Copy, PartialEq, Eq, Structural)]
pub enum Status {
    Idle,
    Working,
    NeedsInput,
    Dead,
    Unknown,
}

pub open spec fn status_name(s: Status) -> Seq<char> {
    match s {
        Status::Idle => "IDLE"@,
        Status::Working => "WORKING"@,
        Status::NeedsInput => "NEEDS_INPUT"@,
        Status::Dead => "DEAD"@,
        Status::Unknown => "UNKNOWN"@,
    }
}

impl Status {
    pub fn as_str(self) -> (r: &'static str)
        ensures
            r@ == status_name(self),
    {
        match self {
            Status::Idle => "IDLE",
            Status::Working => "WORKING",
            Status::NeedsInput => "NEEDS_INPUT",
            Status::Dead => "DEAD",
            Status::Unknown => "UNKNOWN",
        }
    }
}

/// Seconds without activity before an idle prompt is believed.
pub const IDLE_SECS: u64 = 3;

// ── Escape sequences ────────────────────────────────────────────────────────────────────

pub open spec fn is_letter(c: char) -> bool {
    'a' <= c <= 'z' || 'A' <= c <= 'Z'
}

pub open spec fn is_param(c: char) -> bool {
    seqs::is_digit(c) || c == ';' || c == '?'
}

/// Where the escape sequence ends whose parameters go on at `j`; `None` where no letter
/// finishes it.
pub open spec fn escape_end(s: Seq<char>, j: int) -> Option<int>
    decreases s.len() - j,
{
    if j < 0 || j >= s.len() {
        None
    } else if is_letter(s[j]) {
        Some(j + 1)
    } else if is_param(s[j]) {
        escape_end(s, j + 1)
    } else {
        None
    }
}

pub proof fn escape_end_bounds(s: Seq<char>, j: int)
    requires
        0 <= j <= s.len(),
    ensures
        escape_end(s, j) matches Some(e) ==> j < e <= s.len(),
    decreases s.len() - j,
{
    if j < s.len() && !is_letter(s[j]) && is_param(s[j]) {
        escape_end_bounds(s, j + 1);
    }
}

/// The two characters with which an escape sequence begins stand at the beginning of `s`.
pub open spec fn is_escape(s: Seq<char>) -> bool {
    s.len() > 1 && s[0] == '\u{1b}' && s[1] == '['
}

/// `s` without its complete escape sequences. What no letter finishes is no sequence, and
/// stays.
pub open spec fn visible(s: Seq<char>) -> Seq<char>
    decreases s.len(),
    via visible_decreases
{
    if s.len() == 0 {
        Seq::empty()
    } else if is_escape(s) && escape_end(s, 2) is Some {
        visible(s.skip(escape_end(s, 2)->0))
    } else {
        seq![s[0]] + visible(s.drop_first())
    }
}

#[via_fn]
proof fn visible_decreases(s: Seq<char>) {
    if is_escape(s) {
        escape_end_bounds(s, 2);
    }
}

/// Where the escape sequence ends that begins at position `i`, where one does.
fn escape_at(cs: &[char], i: usize) -> (r: Option<usize>)
    requires
        i < cs@.len(),
    ensures
        ({
            let rest = cs@.skip(i as int);
            match r {
                Some(e) => i < e <= cs@.len() && is_escape(rest) && escape_end(rest, 2) == Some(
                    e - i,
                ),
                None => !is_escape(rest) || escape_end(rest, 2) is None,
            }
        }),
{
    let n: usize = cs.len();
    let ghost rest = cs@.skip(i as int);
    if cs[i] != '\u{1b}' || n - i < 2 || cs[i + 1] != '[' {
        assert(rest.len() > 1 ==> rest[1] == cs@[i + 1]);
        return None;
    }
    assert(rest[1] == cs@[i + 1]);
    let mut j: usize = i + 2;
    while j < n && text::is_digit(cs[j]) || j < n && (cs[j] == ';' || cs[j] == '?')
        invariant
            i + 2 <= j <= n,
            n == cs@.len(),
            rest == cs@.skip(i as int),
            escape_end(rest, 2) == escape_end(rest, j - i),
        decreases n - j,
    {
        assert(rest[j - i] == cs@[j as int]);
        j += 1;
    }
    if j < n {
        assert(rest[j - i] == cs@[j as int]);
        let c = cs[j];
        if (c >= 'a' && c <= 'z') || (c >= 'A' && c <= 'Z') {
            return Some(j + 1);
        }
    }
    None
}

/// `s` without its complete escape sequences.
pub fn strip_ansi(s: &str) -> (r: String)
    ensures
        r@ == visible(s@),
{
    let cs = text::chars_of(s);
    let n: usize = cs.len();
    let mut out = String::new();
    let mut i: usize = 0;
    assert(s@.skip(0) =~= s@);
    assert(out@ + visible(s@) =~= visible(s@));
    while i < n
        invariant
            i <= n,
            n == cs@.len(),
            cs@ == s@,
            visible(s@) == out@ + visible(s@.skip(i as int)),
        decreases n - i,
    {
        let ghost rest = s@.skip(i as int);
        assert(rest.len() == n - i);
        if let Some(e) = escape_at(&cs, i) {
            assert(rest.skip(e - i) =~= s@.skip(e as int));
            i = e;
        } else {
            let ghost before = out@;
            out.push(cs[i]);
            proof {
                assert(rest.drop_first() =~= s@.skip(i + 1));
                assert(before + (seq![rest[0]] + visible(rest.drop_first())) =~= out@ + visible(
                    rest.drop_first(),
                ));
            }
            i += 1;
        }
    }
    assert(s@.skip(n as int) =~= Seq::empty());
    assert(out@ + Seq::<char>::empty() =~= out@);
    out
}

// ── Markers ─────────────────────────────────────────────────────────────────────────────

/// The seconds of a running timer end at position `k`: `<digit>s`, directly behind it ` · `,
/// and later on `tokens`.
pub open spec fn timer_at(line: Seq<char>, k: int) -> bool {
    1 <= k < line.len() && line[k] == 's' && seqs::is_digit(line[k - 1]) && ({
        let rest = line.skip(k + 1);
        seqs::starts_with(rest, " · "@) && seqs::has_text(rest.skip(3), "tokens"@)
    })
}

pub open spec fn has_timer(line: Seq<char>) -> bool {
    exists|k: int| #[trigger] timer_at(line, k)
}

/// The spinner of a running turn.
pub open spec fn has_spinner(line: Seq<char>) -> bool {
    seqs::has_text(line, "✽"@)
}

/// A sign that can only stand on the screen in the middle of a turn.
pub open spec fn is_active(line: Seq<char>) -> bool {
    has_spinner(line) || seqs::has_text(line, "esc to interrupt"@)
}

pub open spec fn is_working(line: Seq<char>) -> bool {
    ||| has_timer(line)
    ||| has_spinner(line)
    ||| seqs::has_text(line, "to run in background"@)
    ||| seqs::has_text(line, "esc to interrupt"@)
    ||| seqs::has_text(line, "Running…"@)
    ||| seqs::has_text(line, "Transmuting…"@)
    ||| seqs::has_text(line, "Baking…"@)
    ||| seqs::has_text(line, "Cooking…"@)
    ||| seqs::has_text(line, "Simmering…"@)
    ||| seqs::has_text(line, "Initializing…"@)
    ||| seqs::has_text(line, "Resolving…"@)
}

/// A question to the user.
pub open spec fn is_question(line: Seq<char>) -> bool {
    ||| seqs::has_text(line, "Do you want"@)
    ||| seqs::has_text(line, "Would you like"@)
    ||| seqs::has_text(line, "Do you trust"@)
    ||| seqs::has_text(line, "wants to"@)
    ||| seqs::has_text(line, "Allow "@) && seqs::has_text(line, " to"@)
}

/// An answer that the user can choose: a numbered line, with or without the caret before
/// it, or one of the fixed phrases.
pub open spec fn is_option(line: Seq<char>) -> bool {
    let t = seqs::trim_start(line);
    let after = if seqs::starts_with(t, "❯"@) {
        seqs::trim_start(t.skip(1))
    } else {
        t
    };
    ||| seqs::has_text(t, "Yes, and"@)
    ||| seqs::has_text(t, "No, and tell"@)
    ||| after.len() >= 2 && seqs::is_digit(after[0]) && after[1] == '.'
}

/// The footer of an empty input prompt.
pub open spec fn is_idle(line: Seq<char>) -> bool {
    ||| seqs::has_text(line, "auto mode on"@)
    ||| seqs::has_text(line, "shift+tab to cycle"@)
    ||| seqs::has_text(line, "⏵⏵"@)
}

/// The prompt of a shell: a line that ends in `$`, `%`, `#` or `❯`.
pub open spec fn is_prompt(line: Seq<char>) -> bool {
    let t = seqs::trim_end(line);
    t.len() > 0 && (t.last() == '$' || t.last() == '%' || t.last() == '#' || t.last() == '❯')
}

/// One more than the position of the last line that `pred` holds of, or 0.
pub open spec fn last_matching(lines: Seq<Seq<char>>, pred: spec_fn(Seq<char>) -> bool) -> nat
    decreases lines.len(),
{
    if lines.len() == 0 {
        0
    } else if pred(lines.last()) {
        lines.len()
    } else {
        last_matching(lines.drop_last(), pred)
    }
}

/// The last line that is not blank is the prompt of a shell.
pub open spec fn ends_in_prompt(lines: Seq<Seq<char>>) -> bool
    decreases lines.len(),
{
    if lines.len() == 0 {
        false
    } else if seqs::trim(lines.last()).len() > 0 {
        is_prompt(lines.last())
    } else {
        ends_in_prompt(lines.drop_last())
    }
}

/// The last 25 of `lines`.
pub open spec fn tail_of(lines: Seq<Seq<char>>) -> Seq<Seq<char>> {
    if lines.len() > 25 {
        lines.skip(lines.len() - 25)
    } else {
        lines
    }
}

/// Where the lowest question stands; 0 unless there is both a question and an answer.
pub open spec fn question_line(tail: Seq<Seq<char>>) -> nat {
    let q = last_matching(tail, |l: Seq<char>| is_question(l));
    let o = last_matching(tail, |l: Seq<char>| is_option(l));
    if q > 0 && o > 0 {
        if q > o {
            q
        } else {
            o
        }
    } else {
        0
    }
}

pub open spec fn any_active(tail: Seq<Seq<char>>) -> bool {
    exists|i: int| 0 <= i < tail.len() && is_active(#[trigger] tail[i])
}

/// What the markers at the lines `n` (question), `w` (work) and `idle` say: the lowest
/// decides, of equals the question before the work before the prompt. A prompt is not yet
/// believed where there is a sign of work and the pane was active just now.
pub open spec fn lowest(n: nat, w: nat, idle: nat, age: Option<u64>) -> Status {
    if n >= w && n >= idle {
        Status::NeedsInput
    } else if w >= idle {
        Status::Working
    } else if w > 0 && (age matches Some(a) && a < IDLE_SECS) {
        Status::Working
    } else {
        Status::Idle
    }
}

/// The status that the last lines of a screen show.
pub open spec fn status_of_tail(tail: Seq<Seq<char>>, age: Option<u64>) -> Status {
    let w = last_matching(tail, |l: Seq<char>| is_working(l));
    let n = question_line(tail);
    let idle = last_matching(tail, |l: Seq<char>| is_idle(l));
    if n == 0 && any_active(tail) {
        Status::Working
    } else if w == 0 && n == 0 && idle == 0 {
        if ends_in_prompt(tail) {
            Status::Idle
        } else {
            Status::Unknown
        }
    } else {
        lowest(n, w, idle, age)
    }
}

/// The status of a pane.
pub open spec fn status_of(dead: bool, raw: Seq<char>, age: Option<u64>) -> Status {
    if dead {
        Status::Dead
    } else {
        status_of_tail(tail_of(seqs::lines(visible(raw))), age)
    }
}

fn has_working_timer(line: &str) -> (r: bool)
    ensures
        r == has_timer(line@),
{
    let cs = text::chars_of(line);
    let n: usize = cs.len();
    let mut k: usize = 1;
    while k < n
        invariant
            1 <= k,
            n == cs@.len(),
            cs@ == line@,
            forall|j: int| j < k ==> !#[trigger] timer_at(line@, j),
        decreases n - k,
    {
        if cs[k] == 's' && text::is_digit(cs[k - 1]) {
            let rest = text::string_of(&cs, k + 1, n);
            assert(rest@ =~= line@.skip(k + 1));
            if let Some(after) = text::strip_prefix(rest.as_str(), " · ") {
                proof {
                    reveal_strlit(" · ");
                }
                assert(after@ == rest@.skip(3));
                if text::has_text(after.as_str(), "tokens") {
                    assert(timer_at(line@, k as int));
                    return true;
                }
            }
        }
        k += 1;
    }
    false
}

fn has_working_glyph(line: &str) -> (r: bool)
    ensures
        r == has_spinner(line@),
{
    text::has_text(line, "✽")
}

fn is_active_line(line: &str) -> (r: bool)
    ensures
        r == is_active(line@),
{
    has_working_glyph(line) || text::has_text(line, "esc to interrupt")
}

fn is_working_line(line: &str) -> (r: bool)
    ensures
        r == is_working(line@),
{
    has_working_timer(line) || has_working_glyph(line) || text::has_text(
        line,
        "to run in background",
    ) || text::has_text(line, "esc to interrupt") || text::has_text(line, "Running…")
        || text::has_text(line, "Transmuting…") || text::has_text(line, "Baking…")
        || text::has_text(line, "Cooking…") || text::has_text(line, "Simmering…")
        || text::has_text(line, "Initializing…") || text::has_text(line, "Resolving…")
}

fn is_needs_question(line: &str) -> (r: bool)
    ensures
        r == is_question(line@),
{
    text::has_text(line, "Do you want") || text::has_text(line, "Would you like")
        || text::has_text(line, "Do you trust") || text::has_text(line, "wants to") || (
    text::has_text(line, "Allow ") && text::has_text(line, " to"))
}

fn is_needs_option(line: &str) -> (r: bool)
    ensures
        r == is_option(line@),
{
    let t = text::trim_start(line);
    if text::has_text(t.as_str(), "Yes, and") || text::has_text(t.as_str(), "No, and tell") {
        return true;
    }
    proof {
        reveal_strlit("❯");
    }
    let after = match text::strip_prefix(t.as_str(), "❯") {
        Some(s) => text::trim_start(s.as_str()),
        None => t,
    };
    let cs = text::chars_of(after.as_str());
    cs.len() >= 2 && text::is_digit(cs[0]) && cs[1] == '.'
}

fn is_shell_prompt(line: &str) -> (r: bool)
    ensures
        r == is_prompt(line@),
{
    let cs = text::chars_of(text::trim_end(line).as_str());
    let n: usize = cs.len();
    n > 0 && (cs[n - 1] == '$' || cs[n - 1] == '%' || cs[n - 1] == '#' || cs[n - 1] == '❯')
}

fn is_idle_marker(line: &str) -> (r: bool)
    ensures
        r == is_idle(line@),
{
    text::has_text(line, "auto mode on") || text::has_text(line, "shift+tab to cycle")
        || text::has_text(line, "⏵⏵")
}

/// One more than the position of the last line that `pred` holds of, or 0.
fn last_line_matching<F: Fn(&str) -> bool>(lines: &[String], pred: F, Ghost(p): Ghost<
    spec_fn(Seq<char>) -> bool,
>) -> (r: usize)
    requires
        forall|l: &str| call_requires(pred, (l,)),
        forall|l: &str, o: bool| call_ensures(pred, (l,), o) ==> o == p(l@),
    ensures
        r == last_matching(seqs::views(lines@), p),
{
    let ghost all = seqs::views(lines@);
    let mut k: usize = lines.len();
    assert(all.take(k as int) =~= all);
    while k > 0
        invariant
            k <= lines@.len(),
            all == seqs::views(lines@),
            last_matching(all, p) == last_matching(all.take(k as int), p),
            forall|l: &str| call_requires(pred, (l,)),
            forall|l: &str, o: bool| call_ensures(pred, (l,), o) ==> o == p(l@),
        decreases k,
    {
        assert(all.take(k as int).last() == lines@[k - 1]@);
        assert(all.take(k as int).drop_last() =~= all.take(k - 1));
        if pred(lines[k - 1].as_str()) {
            return k;
        }
        k -= 1;
    }
    0
}

fn shows_prompt(lines: &[String]) -> (r: bool)
    ensures
        r == ends_in_prompt(seqs::views(lines@)),
{
    let ghost all = seqs::views(lines@);
    let mut k: usize = lines.len();
    assert(all.take(k as int) =~= all);
    while k > 0
        invariant
            k <= lines@.len(),
            all == seqs::views(lines@),
            ends_in_prompt(all) == ends_in_prompt(all.take(k as int)),
        decreases k,
    {
        let line = lines[k - 1].as_str();
        assert(all.take(k as int).last() == line@);
        assert(all.take(k as int).drop_last() =~= all.take(k - 1));
        if text::chars_of(text::trim(line).as_str()).len() > 0 {
            return is_shell_prompt(line);
        }
        k -= 1;
    }
    false
}

fn has_active(lines: &[String]) -> (r: bool)
    ensures
        r == any_active(seqs::views(lines@)),
{
    let ghost all = seqs::views(lines@);
    let mut i: usize = 0;
    while i < lines.len()
        invariant
            i <= lines@.len(),
            all == seqs::views(lines@),
            forall|j: int| 0 <= j < i ==> !is_active(#[trigger] all[j]),
        decreases lines@.len() - i,
    {
        assert(all[i as int] == lines@[i as int]@);
        if is_active_line(lines[i].as_str()) {
            return true;
        }
        i += 1;
    }
    false
}

/// The status of a pane: whether its program has ended, a capture of its screen, and the
/// seconds since it was last active, where they are known.
pub fn classify(dead: bool, raw: &str, last_activity_age: Option<u64>) -> (r: Status)
    ensures
        r == status_of(dead, raw@, last_activity_age),
{
    if dead {
        return Status::Dead;
    }
    let shown = strip_ansi(raw);
    let lines = text::lines(shown.as_str());
    let start: usize = if lines.len() > 25 {
        lines.len() - 25
    } else {
        0
    };
    let tail = vstd::slice::slice_subrange(lines.as_slice(), start, lines.len());
    let ghost t = tail_of(seqs::lines(visible(raw@)));
    proof {
        assert(seqs::views(tail@) =~= t);
    }
    let working = |l: &str| -> (o: bool)
        ensures
            o == is_working(l@),
        { is_working_line(l) };
    let question = |l: &str| -> (o: bool)
        ensures
            o == is_question(l@),
        { is_needs_question(l) };
    let option = |l: &str| -> (o: bool)
        ensures
            o == is_option(l@),
        { is_needs_option(l) };
    let idle_mark = |l: &str| -> (o: bool)
        ensures
            o == is_idle(l@),
        { is_idle_marker(l) };
    let w = last_line_matching(tail, working, Ghost(|l: Seq<char>| is_working(l)));
    let nq = last_line_matching(tail, question, Ghost(|l: Seq<char>| is_question(l)));
    let no = last_line_matching(tail, option, Ghost(|l: Seq<char>| is_option(l)));
    let n: usize = if nq > 0 && no > 0 {
        if nq > no {
            nq
        } else {
            no
        }
    } else {
        0
    };
    let idle = last_line_matching(tail, idle_mark, Ghost(|l: Seq<char>| is_idle(l)));
    if n == 0 && has_active(tail) {
        return Status::Working;
    }
    if w == 0 && n == 0 && idle == 0 {
        if shows_prompt(tail) {
            return Status::Idle;
        }
        return Status::Unknown;
    }
    if n >= w && n >= idle {
        return Status::NeedsInput;
    }
    if w >= idle {
        return Status::Working;
    }
    match last_activity_age {
        Some(age) => if w > 0 && age < IDLE_SECS {
            Status::Working
        } else {
            Status::Idle
        },
        None => Status::Idle,
    }
}

// ── What holds of every screen ──────────────────────────────────────────────────────────

/// A pane whose program has ended is dead, whatever its screen shows.
pub proof fn dead_is_dead(raw: Seq<char>, age: Option<u64>)
    ensures
        status_of(true, raw, age) == Status::Dead,
{
}

/// A question with its answers, drawn no higher than any other marker, is what the pane
/// waits for, however active it looks.
pub proof fn open_question_wins(tail: Seq<Seq<char>>, age: Option<u64>)
    requires
        question_line(tail) > 0,
        question_line(tail) >= last_matching(tail, |l: Seq<char>| is_working(l)),
        question_line(tail) >= last_matching(tail, |l: Seq<char>| is_idle(l)),
    ensures
        status_of_tail(tail, age) == Status::NeedsInput,
{
}

/// An active spinner means work, wherever the idle footer stands, unless a question is open.
pub proof fn spinner_beats_footer(tail: Seq<Seq<char>>, age: Option<u64>)
    requires
        question_line(tail) == 0,
        any_active(tail),
    ensures
        status_of_tail(tail, age) == Status::Working,
{
}

/// Where no marker is seen and the screen does not end in a shell prompt, nothing is
/// claimed; and nothing else is left unclaimed.
pub proof fn unknown_iff_no_sign(tail: Seq<Seq<char>>, age: Option<u64>)
    ensures
        status_of_tail(tail, age) == Status::Unknown <==> last_matching(
            tail,
            |l: Seq<char>| is_working(l),
        ) == 0 && question_line(tail) == 0 && last_matching(tail, |l: Seq<char>| is_idle(l)) == 0
            && !any_active(tail) && !ends_in_prompt(tail),
{
}

/// A complete escape sequence.
pub open spec fn is_whole_escape(e: Seq<char>) -> bool {
    &&& e.len() >= 3
    &&& is_escape(e)
    &&& is_letter(e.last())
    &&& forall|j: int| 2 <= j < e.len() - 1 ==> is_param(#[trigger] e[j])
}

proof fn whole_escape_end(e: Seq<char>, b: Seq<char>, j: int)
    requires
        is_whole_escape(e),
        2 <= j < e.len(),
    ensures
        escape_end(e + b, j) == Some(e.len() as int),
    decreases e.len() - j,
{
    assert((e + b)[j] == e[j]);
    if j < e.len() - 1 {
        assert(is_param(e[j]));
        whole_escape_end(e, b, j + 1);
    }
}

/// Escape sequences are invisible: text `a` without escapes, then a sequence, then `b`,
/// reads as `a` followed by what is visible of `b`.
pub proof fn escapes_are_invisible(a: Seq<char>, e: Seq<char>, b: Seq<char>)
    requires
        !a.contains('\u{1b}'),
        is_whole_escape(e),
    ensures
        visible(a + e + b) == a + visible(b),
    decreases a.len(),
{
    let s = a + e + b;
    if a.len() == 0 {
        assert(s =~= e + b);
        whole_escape_end(e, b, 2);
        assert(is_escape(s));
        assert(s.skip(e.len() as int) =~= b);
        assert(a + visible(b) =~= visible(b));
    } else {
        let t = a.drop_first();
        assert(!t.contains('\u{1b}')) by {
            if t.contains('\u{1b}') {
                let i = choose|i: int| 0 <= i < t.len() && t[i] == '\u{1b}';
                assert(a[i + 1] == '\u{1b}');
            }
        }
        assert(a[0] != '\u{1b}') by {
            assert(a.contains(a[0]));
        }
        escapes_are_invisible(t, e, b);
        assert(s.drop_first() =~= t + e + b);
        assert(seq![a[0]] + (t + visible(b)) =~= a + visible(b));
    }
}

proof fn escape_end_is_whole(s: Seq<char>, j: int)
    requires
        is_escape(s),
        2 <= j <= s.len(),
        forall|k: int| 2 <= k < j ==> is_param(#[trigger] s[k]),
    ensures
        escape_end(s, j) matches Some(e) ==> is_whole_escape(s.take(e)),
    decreases s.len() - j,
{
    escape_end_bounds(s, j);
    if j < s.len() && is_letter(s[j]) {
        let e = s.take(j + 1);
        assert(e.last() == s[j]);
        assert forall|k: int| 2 <= k < e.len() - 1 implies is_param(#[trigger] e[k]) by {
            assert(is_param(s[k]));
        }
    } else if j < s.len() && is_param(s[j]) {
        escape_end_is_whole(s, j + 1);
    }
}

/// All else is visible: a text in which no complete escape sequence stands is left as it is.
pub proof fn all_else_is_visible(s: Seq<char>)
    requires
        forall|i: int, j: int|
            0 <= i <= j <= s.len() ==> !is_whole_escape(#[trigger] s.subrange(i, j)),
    ensures
        visible(s) == s,
    decreases s.len(),
{
    if s.len() > 0 {
        if is_escape(s) {
            escape_end_is_whole(s, 2);
            escape_end_bounds(s, 2);
            if let Some(e) = escape_end(s, 2) {
                assert(s.subrange(0, e) =~= s.take(e));
            }
        }
        let t = s.drop_first();
        assert forall|i: int, j: int| 0 <= i <= j <= t.len() implies !is_whole_escape(
            #[trigger] t.subrange(i, j),
        ) by {
            assert(t.subrange(i, j) =~= s.subrange(i + 1, j + 1));
        }
        all_else_is_visible(t);
        assert(seq![s[0]] + t =~= s);
    }
}

proof fn plain_text_is_visible(s: Seq<char>)
    requires
        !s.contains('\u{1b}'),
    ensures
        visible(s) == s,
    decreases s.len(),
{
    if s.len() > 0 {
        assert(s.contains(s[0]));
        let t = s.drop_first();
        assert(!t.contains('\u{1b}')) by {
            if t.contains('\u{1b}') {
                let i = choose|i: int| 0 <= i < t.len() && t[i] == '\u{1b}';
                assert(s[i + 1] == '\u{1b}');
            }
        }
        plain_text_is_visible(t);
        assert(seq![s[0]] + t =~= s);
    } else {
        assert(s =~= Seq::empty());
    }
}

/// Lines that can stand on a screen as they are: without line breaks and escape characters.
pub open spec fn are_plain(lines: Seq<Seq<char>>) -> bool {
    forall|i: int|
        0 <= i < lines.len() ==> seqs::is_line(#[trigger] lines[i]) && !lines[i].contains(
            '\u{1b}',
        )
}

proof fn screen_is_read(lines: Seq<Seq<char>>, age: Option<u64>)
    requires
        are_plain(lines),
    ensures
        status_of(false, seqs::written(lines), age) == status_of_tail(tail_of(lines), age),
{
    seqs::written_holds(lines, '\u{1b}');
    plain_text_is_visible(seqs::written(lines));
    seqs::lines_read_back(lines);
}

/// The status of a live pane depends on nothing above the last 25 lines of its screen:
/// whatever lines stand above 25 others, the status is that of the 25 alone.
pub proof fn only_the_last_lines_count(above: Seq<Seq<char>>, last: Seq<Seq<char>>, age: Option<u64>)
    requires
        last.len() == 25,
        are_plain(above),
        are_plain(last),
    ensures
        status_of(false, seqs::written(above + last), age) == status_of(
            false,
            seqs::written(last),
            age,
        ),
{
    let all = above + last;
    assert forall|i: int| 0 <= i < all.len() implies seqs::is_line(#[trigger] all[i])
        && !all[i].contains('\u{1b}') by {
        if i < above.len() {
            assert(all[i] == above[i]);
        } else {
            assert(all[i] == last[i - above.len()]);
        }
    }
    screen_is_read(all, age);
    screen_is_read(last, age);
    assert(tail_of(all) =~= last);
}

/// A line asks the user something.
pub open spec fn asks(line: Seq<char>) -> bool {
    ||| seqs::has_text(line, "Do you want"@)
    ||| seqs::has_text(line, "Would you like"@)
    ||| seqs::has_text(line, "Do you trust"@)
    ||| seqs::has_text(line, "wants to"@)
    ||| seqs::has_text(line, "Allow "@) && seqs::has_text(line, " to"@)
}

/// A line offers the user an answer: a digit and a dot, behind white space and perhaps a
/// caret; or one of two phrases at the beginning or later.
pub open spec fn offers(line: Seq<char>) -> bool {
    ||| exists|i: int| #[trigger] offers_at(line, i)
    ||| seqs::has_text(line, "Yes, and"@)
    ||| seqs::has_text(line, "No, and tell"@)
}

/// A numbered answer stands at position `i`, with nothing before it but white space and at
/// most one caret.
pub open spec fn offers_at(line: Seq<char>, i: int) -> bool {
    &&& 0 <= i
    &&& i + 1 < line.len()
    &&& '0' <= line[i] <= '9'
    &&& line[i + 1] == '.'
    &&& forall|j: int| 0 <= j < i ==> seqs::is_white(#[trigger] line[j]) || line[j] == '❯'
    &&& forall|j: int, k: int| 0 <= j < k < i && line[j] == '❯' ==> #[trigger] line[k] != #[trigger] line[j]
}

proof fn trim_start_keeps(line: Seq<char>, p: Seq<char>)
    requires
        seqs::has_text(line, p),
        p.len() > 0,
        !seqs::is_white(p[0]),
    ensures
        seqs::has_text(seqs::trim_start(line), p),
    decreases line.len(),
{
    let i = choose|i: int| #[trigger] seqs::occurs_at(line, p, i);
    if line.len() > 0 && seqs::is_white(line[0]) {
        assert(line.subrange(i, i + p.len())[0] == line[i]);
        assert(i > 0);
        let t = line.drop_first();
        assert(t.subrange(i - 1, i - 1 + p.len()) =~= line.subrange(i, i + p.len()));
        assert(seqs::occurs_at(t, p, i - 1));
        trim_start_keeps(t, p);
    }
}

proof fn white_before(line: Seq<char>, i: int)
    requires
        0 <= i < line.len(),
        !seqs::is_white(line[i]),
        forall|j: int| 0 <= j < i ==> seqs::is_white(#[trigger] line[j]),
    ensures
        seqs::trim_start(line) == line.skip(i),
    decreases i,
{
    if i > 0 {
        assert(seqs::is_white(line[0]));
        let t = line.drop_first();
        assert forall|j: int| 0 <= j < i - 1 implies seqs::is_white(#[trigger] t[j]) by {
            assert(t[j] == line[j + 1]);
        }
        white_before(t, i - 1);
        assert(t.skip(i - 1) =~= line.skip(i));
    } else {
        assert(line.skip(0) =~= line);
    }
}

proof fn offers_are_options(line: Seq<char>)
    requires
        offers(line),
    ensures
        is_option(line),
{
    reveal_strlit("❯");
    reveal_strlit("Yes, and");
    reveal_strlit("No, and tell");
    if seqs::has_text(line, "Yes, and"@) {
        trim_start_keeps(line, "Yes, and"@);
    } else if seqs::has_text(line, "No, and tell"@) {
        trim_start_keeps(line, "No, and tell"@);
    } else {
        let i = choose|i: int| #[trigger] offers_at(line, i);
        if exists|j: int| 0 <= j < i && line[j] == '❯' {
            let j = choose|j: int| 0 <= j < i && line[j] == '❯';
            assert forall|k: int| 0 <= k < j implies seqs::is_white(#[trigger] line[k]) by {
                if line[k] == '❯' {
                    assert(line[j] != line[k]);
                }
            }
            white_before(line, j);
            let t = line.skip(j);
            assert(t.take(1) =~= "❯"@);
            let u = t.skip(1);
            assert forall|k: int| 0 <= k < i - j - 1 implies seqs::is_white(#[trigger] u[k]) by {
                assert(u[k] == line[k + j + 1]);
                if line[k + j + 1] == '❯' {
                    assert(line[k + j + 1] != line[j]);
                }
            }
            assert(u[i - j - 1] == line[i]);
            white_before(u, i - j - 1);
            assert(u.skip(i - j - 1)[0] == line[i]);
            assert(u.skip(i - j - 1)[1] == line[i + 1]);
        } else {
            assert forall|k: int| 0 <= k < i implies seqs::is_white(#[trigger] line[k]) by {}
            white_before(line, i);
            let t = line.skip(i);
            assert(t[0] == line[i]);
            assert(t[1] == line[i + 1]);
            if seqs::starts_with(t, "❯"@) {
                assert(t.take(1)[0] == t[0]);
            }
        }
    }
}

proof fn last_matching_reaches(
    lines: Seq<Seq<char>>,
    pred: spec_fn(Seq<char>) -> bool,
    i: int,
)
    requires
        0 <= i < lines.len(),
        pred(lines[i]),
    ensures
        i < last_matching(lines, pred) <= lines.len(),
        pred(lines[last_matching(lines, pred) - 1]),
    decreases lines.len(),
{
    if !pred(lines.last()) {
        last_matching_reaches(lines.drop_last(), pred, i);
    }
}

proof fn last_matching_none(lines: Seq<Seq<char>>, pred: spec_fn(Seq<char>) -> bool, n: int)
    requires
        0 <= n <= lines.len(),
        forall|i: int| n <= i < lines.len() ==> !pred(#[trigger] lines[i]),
    ensures
        last_matching(lines, pred) <= n,
    decreases lines.len(),
{
    if lines.len() > n {
        assert(!pred(lines[lines.len() - 1]));
        let head = lines.drop_last();
        assert forall|i: int| n <= i < head.len() implies !pred(#[trigger] head[i]) by {
            assert(head[i] == lines[i]);
        }
        last_matching_none(head, pred, n);
    } else {
        last_matching_bound(lines, pred);
    }
}

proof fn last_matching_bound(lines: Seq<Seq<char>>, pred: spec_fn(Seq<char>) -> bool)
    ensures
        last_matching(lines, pred) <= lines.len(),
    decreases lines.len(),
{
    if lines.len() > 0 {
        last_matching_bound(lines.drop_last(), pred);
    }
}

/// The line at position `i` is one of the last 25 of a screen.
pub open spec fn is_seen(lines: Seq<Seq<char>>, i: int) -> bool {
    0 <= i < lines.len() && i + 25 >= lines.len()
}

proof fn seen_in_tail(lines: Seq<Seq<char>>, i: int) -> (k: int)
    requires
        is_seen(lines, i),
    ensures
        0 <= k < tail_of(lines).len(),
        tail_of(lines)[k] == lines[i],
        k == tail_of(lines).len() - (lines.len() - i),
{
    i - (lines.len() - tail_of(lines).len())
}

/// A question within the last 25 lines, with an answer to choose on the last line, is waited
/// for; and so is a question on the last line with an answer above it. It does not matter
/// what else the screen shows, how active it looks or how much stands above.
pub proof fn open_question_needs_input(lines: Seq<Seq<char>>, q: int, o: int, age: Option<u64>)
    requires
        are_plain(lines),
        is_seen(lines, q),
        is_seen(lines, o),
        asks(lines[q]),
        offers(lines[o]),
        q == lines.len() - 1 || o == lines.len() - 1,
    ensures
        status_of(false, seqs::written(lines), age) == Status::NeedsInput,
{
    screen_is_read(lines, age);
    let tail = tail_of(lines);
    let a = seen_in_tail(lines, q);
    let b = seen_in_tail(lines, o);
    offers_are_options(lines[o]);
    let pq = |l: Seq<char>| is_question(l);
    let po = |l: Seq<char>| is_option(l);
    assert(pq(tail[a]));
    assert(po(tail[b]));
    last_matching_reaches(tail, pq, a);
    last_matching_reaches(tail, po, b);
    last_matching_bound(tail, |l: Seq<char>| is_working(l));
    last_matching_bound(tail, |l: Seq<char>| is_idle(l));
}

/// A spinner or the offer to interrupt within the last 25 lines means work, wherever it
/// stands and whatever stands below it, as long as none of these lines asks anything.
pub proof fn spinner_means_work(lines: Seq<Seq<char>>, i: int, age: Option<u64>)
    requires
        are_plain(lines),
        is_seen(lines, i),
        seqs::has_text(lines[i], "✽"@) || seqs::has_text(lines[i], "esc to interrupt"@),
        forall|j: int| is_seen(lines, j) ==> !asks(#[trigger] lines[j]),
    ensures
        status_of(false, seqs::written(lines), age) == Status::Working,
{
    screen_is_read(lines, age);
    let tail = tail_of(lines);
    let a = seen_in_tail(lines, i);
    assert(is_active(tail[a]));
    no_question(lines);
}

proof fn no_question(lines: Seq<Seq<char>>)
    requires
        forall|j: int| is_seen(lines, j) ==> !asks(#[trigger] lines[j]),
    ensures
        question_line(tail_of(lines)) == 0,
{
    let tail = tail_of(lines);
    let pq = |l: Seq<char>| is_question(l);
    assert forall|k: int| 0 <= k < tail.len() implies !pq(#[trigger] tail[k]) by {
        let j = k + (lines.len() - tail.len());
        assert(tail[k] == lines[j]);
        assert(is_seen(lines, j));
    }
    last_matching_none(tail, pq, 0);
}

/// A line shows that work goes on: one of the phrases of a running turn, or a timer, that is
/// a digit, `s`, ` · ` and later `tokens`.
pub open spec fn shows_work(line: Seq<char>) -> bool {
    ||| seqs::has_text(line, "✽"@)
    ||| seqs::has_text(line, "to run in background"@)
    ||| seqs::has_text(line, "esc to interrupt"@)
    ||| seqs::has_text(line, "Running…"@)
    ||| seqs::has_text(line, "Transmuting…"@)
    ||| seqs::has_text(line, "Baking…"@)
    ||| seqs::has_text(line, "Cooking…"@)
    ||| seqs::has_text(line, "Simmering…"@)
    ||| seqs::has_text(line, "Initializing…"@)
    ||| seqs::has_text(line, "Resolving…"@)
    ||| shows_timer(line)
}

pub open spec fn is_timer(line: Seq<char>, a: Seq<char>, d: char, b: Seq<char>, c: Seq<char>) -> bool {
    '0' <= d <= '9' && line == a + seq![d] + "s · "@ + b + "tokens"@ + c
}

pub open spec fn shows_timer(line: Seq<char>) -> bool {
    exists|a: Seq<char>, d: char, b: Seq<char>, c: Seq<char>| #[trigger] is_timer(line, a, d, b, c)
}

proof fn timer_is_shown(line: Seq<char>, k: int)
    requires
        timer_at(line, k),
    ensures
        shows_timer(line),
{
    let rest = line.skip(k + 1);
    let tail = rest.skip(3);
    let t = "tokens"@;
    let p = choose|p: int| #[trigger] seqs::occurs_at(tail, t, p);
    let a = line.take(k - 1);
    let d = line[k - 1];
    let b = tail.take(p);
    let c = tail.skip(p + t.len());
    reveal_strlit("s · ");
    reveal_strlit(" · ");
    assert(tail =~= b + t + c) by {
        assert(tail =~= b + tail.subrange(p, p + t.len()) + c);
    }
    assert(rest =~= " · "@ + tail) by {
        assert(rest =~= rest.take(3) + tail);
    }
    assert("s · "@ =~= seq!['s'] + " · "@);
    assert(line =~= a + seq![d] + seq!['s'] + rest);
    let x = a + seq![d];
    assert(x + seq!['s'] + (" · "@ + (b + t + c)) =~= x + "s · "@ + b + t + c);
    assert(is_timer(line, a, d, b, c));
}

proof fn shown_timer_is_timer(line: Seq<char>, a: Seq<char>, d: char, b: Seq<char>, c: Seq<char>)
    requires
        is_timer(line, a, d, b, c),
    ensures
        has_timer(line),
{
    reveal_strlit("s · ");
    reveal_strlit(" · ");
    let t = "tokens"@;
    let k = a.len() as int + 1;
    let end = b + t + c;
    let x = a + seq![d];
    assert(line =~= x + "s · "@ + end);
    assert(line[k] == 's');
    assert(line[k - 1] == d);
    let rest = line.skip(k + 1);
    assert(rest.take(3) =~= " · "@);
    assert(rest.skip(3) =~= end);
    assert(end.subrange(b.len() as int, b.len() as int + t.len()) =~= t);
    assert(seqs::occurs_at(rest.skip(3), t, b.len() as int));
    assert(timer_at(line, k));
}

proof fn work_is_work(line: Seq<char>)
    ensures
        shows_work(line) <==> is_working(line),
{
    if has_timer(line) {
        timer_is_shown(line, choose|k: int| #[trigger] timer_at(line, k));
    }
    if shows_timer(line) {
        let (a, d, b, c) = choose|a: Seq<char>, d: char, b: Seq<char>, c: Seq<char>| #[trigger]
            is_timer(line, a, d, b, c);
        shown_timer_is_timer(line, a, d, b, c);
    }
}

/// A line that shows work is believed where it is the last of the screen and none of the
/// last 25 lines asks anything.
pub proof fn work_on_the_last_line_is_work(lines: Seq<Seq<char>>, age: Option<u64>)
    requires
        are_plain(lines),
        lines.len() > 0,
        shows_work(lines.last()),
        forall|j: int| is_seen(lines, j) ==> !asks(#[trigger] lines[j]),
    ensures
        status_of(false, seqs::written(lines), age) == Status::Working,
{
    screen_is_read(lines, age);
    let tail = tail_of(lines);
    work_is_work(lines.last());
    let k = seen_in_tail(lines, lines.len() - 1);
    let pw = |l: Seq<char>| is_working(l);
    assert(pw(tail[k]));
    last_matching_reaches(tail, pw, k);
    last_matching_bound(tail, |l: Seq<char>| is_idle(l));
    no_question(lines);
}

/// A line is the footer of an empty input prompt.
pub open spec fn shows_footer(line: Seq<char>) -> bool {
    ||| seqs::has_text(line, "auto mode on"@)
    ||| seqs::has_text(line, "shift+tab to cycle"@)
    ||| seqs::has_text(line, "⏵⏵"@)
}

/// The footer of an empty prompt on the last line means that the pane is idle, where nothing
/// within the last 25 lines is asked or shows a turn that runs; but a pane with a sign of
/// work above it that was active less than three seconds ago still counts as working.
pub proof fn footer_on_the_last_line_is_idle(lines: Seq<Seq<char>>, age: Option<u64>)
    requires
        are_plain(lines),
        lines.len() > 0,
        shows_footer(lines.last()),
        !shows_work(lines.last()),
        forall|j: int|
            is_seen(lines, j) ==> !asks(#[trigger] lines[j]) && !seqs::has_text(lines[j], "✽"@)
                && !seqs::has_text(lines[j], "esc to interrupt"@),
    ensures
        age is None || age->0 >= 3 ==> status_of(false, seqs::written(lines), age)
            == Status::Idle,
        (exists|j: int| is_seen(lines, j) && shows_work(#[trigger] lines[j])) && age is Some
            && age->0 < 3 ==> status_of(false, seqs::written(lines), age) == Status::Working,
        (forall|j: int| is_seen(lines, j) ==> !shows_work(#[trigger] lines[j])) ==> status_of(
            false,
            seqs::written(lines),
            age,
        ) == Status::Idle,
{
    screen_is_read(lines, age);
    let tail = tail_of(lines);
    let k = seen_in_tail(lines, lines.len() - 1);
    let pi = |l: Seq<char>| is_idle(l);
    let pw = |l: Seq<char>| is_working(l);
    assert(pi(tail[k]));
    last_matching_reaches(tail, pi, k);
    no_question(lines);
    assert(!any_active(tail)) by {
        if any_active(tail) {
            let m = choose|m: int| 0 <= m < tail.len() && is_active(#[trigger] tail[m]);
            let j = m + (lines.len() - tail.len());
            assert(tail[m] == lines[j]);
            assert(is_seen(lines, j));
        }
    }
    work_is_work(lines.last());
    assert(!pw(tail[k]));
    assert(last_matching(tail, pw) < tail.len()) by {
        last_matching_none(tail, pw, k);
    }
    if exists|j: int| is_seen(lines, j) && shows_work(#[trigger] lines[j]) {
        let j = choose|j: int| is_seen(lines, j) && shows_work(#[trigger] lines[j]);
        work_is_work(lines[j]);
        let m = seen_in_tail(lines, j);
        assert(pw(tail[m]));
        last_matching_reaches(tail, pw, m);
    }
    if forall|j: int| is_seen(lines, j) ==> !shows_work(#[trigger] lines[j]) {
        assert forall|m: int| 0 <= m < tail.len() implies !pw(#[trigger] tail[m]) by {
            let j = m + (lines.len() - tail.len());
            assert(tail[m] == lines[j]);
            assert(is_seen(lines, j));
            work_is_work(lines[j]);
        }
        last_matching_none(tail, pw, 0);
    }
}

/// A line that shows none of the signs.
pub open spec fn shows_nothing(line: Seq<char>) -> bool {
    !asks(line) && !shows_work(line) && !shows_footer(line)
}

proof fn no_signs(lines: Seq<Seq<char>>)
    requires
        forall|j: int| is_seen(lines, j) ==> shows_nothing(#[trigger] lines[j]),
    ensures
        ({
            let tail = tail_of(lines);
            &&& last_matching(tail, |l: Seq<char>| is_working(l)) == 0
            &&& last_matching(tail, |l: Seq<char>| is_idle(l)) == 0
            &&& question_line(tail) == 0
            &&& !any_active(tail)
        }),
{
    let tail = tail_of(lines);
    let pw = |l: Seq<char>| is_working(l);
    let pi = |l: Seq<char>| is_idle(l);
    assert forall|m: int| 0 <= m < tail.len() implies !pw(#[trigger] tail[m]) && !pi(tail[m])
        && !is_active(tail[m]) by {
        let j = m + (lines.len() - tail.len());
        assert(tail[m] == lines[j]);
        assert(is_seen(lines, j));
        work_is_work(lines[j]);
    }
    last_matching_none(tail, pw, 0);
    last_matching_none(tail, pi, 0);
    no_question(lines);
}

proof fn prompt_behind_blanks(lines: Seq<Seq<char>>, i: int)
    requires
        0 <= i < lines.len(),
        seqs::trim(lines[i]).len() > 0,
        forall|j: int| i < j < lines.len() ==> seqs::trim(#[trigger] lines[j]).len() == 0,
    ensures
        ends_in_prompt(lines) == is_prompt(lines[i]),
    decreases lines.len(),
{
    if i < lines.len() - 1 {
        assert(seqs::trim(lines[lines.len() - 1]).len() == 0);
        let head = lines.drop_last();
        assert forall|j: int| i < j < head.len() implies seqs::trim(#[trigger] head[j]).len()
            == 0 by {
            assert(head[j] == lines[j]);
        }
        prompt_behind_blanks(head, i);
    }
}

proof fn prompt_characters(a: Seq<char>, c: char, after: Seq<char>)
    requires
        !seqs::is_white(c),
        forall|i: int| 0 <= i < after.len() ==> seqs::is_white(#[trigger] after[i]),
    ensures
        is_prompt(a.push(c) + after) <==> c == '$' || c == '%' || c == '#' || c == '❯',
        seqs::trim(a.push(c) + after).len() > 0,
    decreases after.len(),
{
    let line = a.push(c) + after;
    if after.len() == 0 {
        assert(line =~= a.push(c));
        assert(line.last() == c);
        trim_has(line, a.len() as int);
    } else {
        assert(seqs::is_white(after[after.len() - 1]));
        assert(line.last() == after[after.len() - 1]);
        let less = after.drop_last();
        assert forall|i: int| 0 <= i < less.len() implies seqs::is_white(#[trigger] less[i]) by {
            assert(less[i] == after[i]);
        }
        prompt_characters(a, c, less);
        assert(line.drop_last() =~= a.push(c) + less);
        assert(line[a.len() as int] == c);
        trim_has(line, a.len() as int);
    }
}

proof fn trim_has(s: Seq<char>, i: int)
    requires
        0 <= i < s.len(),
        !seqs::is_white(s[i]),
    ensures
        seqs::trim(s).len() > 0,
    decreases s.len(),
{
    if seqs::is_white(s[0]) {
        assert(s.drop_first()[i - 1] == s[i]);
        trim_has(s.drop_first(), i - 1);
    } else {
        trim_end_has(s, i);
    }
}

proof fn trim_end_has(s: Seq<char>, i: int)
    requires
        0 <= i < s.len(),
        !seqs::is_white(s[i]),
    ensures
        seqs::trim_end(s).len() > 0,
    decreases s.len(),
{
    if seqs::is_white(s.last()) {
        assert(s.drop_last()[i] == s[i]);
        trim_end_has(s.drop_last(), i);
    }
}

/// Where none of the last 25 lines shows a sign, the last character on the screen decides:
/// the pane is idle where it is the end of a shell prompt, `$`, `%`, `#` or `❯`, and of
/// unknown status where it is anything else.
pub proof fn last_character_tells_a_prompt(
    lines: Seq<Seq<char>>,
    i: int,
    a: Seq<char>,
    c: char,
    after: Seq<char>,
    age: Option<u64>,
)
    requires
        are_plain(lines),
        forall|j: int| is_seen(lines, j) ==> shows_nothing(#[trigger] lines[j]),
        is_seen(lines, i),
        lines[i] == a.push(c) + after,
        !seqs::is_white(c),
        forall|k: int| 0 <= k < after.len() ==> seqs::is_white(#[trigger] after[k]),
        forall|j: int| i < j < lines.len() ==> seqs::trim(#[trigger] lines[j]).len() == 0,
    ensures
        status_of(false, seqs::written(lines), age) == (if c == '$' || c == '%' || c == '#' || c
            == '❯' {
            Status::Idle
        } else {
            Status::Unknown
        }),
{
    screen_is_read(lines, age);
    no_signs(lines);
    prompt_characters(a, c, after);
    let tail = tail_of(lines);
    let k = seen_in_tail(lines, i);
    assert forall|j: int| k < j < tail.len() implies seqs::trim(#[trigger] tail[j]).len() == 0 by {
        assert(tail[j] == lines[j + (lines.len() - tail.len())]);
    }
    prompt_behind_blanks(tail, k);
}

/// Each status has a name of its own.
pub proof fn statuses_have_their_names()
    ensures
        status_name(Status::Idle) == "IDLE"@,
        status_name(Status::Working) == "WORKING"@,
        status_name(Status::NeedsInput) == "NEEDS_INPUT"@,
        status_name(Status::Dead) == "DEAD"@,
        status_name(Status::Unknown) == "UNKNOWN"@,
{
}

} // verus!
