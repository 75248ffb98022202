//! The tmux commands of the cockpit: their arguments, and what their outcomes mean.
//!
//! All of them go to the private socket, never to the default one.
use crate::seqs;
use crate::text;
use vstd::prelude::*;

verus! {

/// The private socket.
pub const SOCKET: &'static str = "cockpit";

/// The session that holds all tabs.
pub const SESSION: &'static str = "cockpit-main";

/// Where new tabs start, under the home directory, unless something else is configured.
pub const DEFAULT_DIR_UNDER_HOME: &'static str = "Workflows";

// ── The start directory ─────────────────────────────────────────────────────────────────

/// The directory that counts as configured: a blank one does not.
pub open spec fn configured_of(dir: Option<Seq<char>>) -> Option<Seq<char>> {
    match dir {
        Some(d) => if seqs::trim(d).len() == 0 {
            None
        } else {
            Some(d)
        },
        None => None,
    }
}

/// Sets the configured start directory; a blank one unsets it.
pub fn set_configured_cwd(slot: &mut Option<String>, dir: Option<String>)
    ensures
        seqs::opt_view(*final(slot)) == configured_of(seqs::opt_view(dir)),
{
    match dir {
        Some(d) => {
            if text::chars_of(text::trim(d.as_str()).as_str()).len() == 0 {
                *slot = None;
            } else {
                *slot = Some(d);
            }
        },
        None => {
            *slot = None;
        },
    }
}

/// `is_dir` answered `answer` when asked for the path `p`.
pub open spec fn answered<F: Fn(&str) -> bool>(is_dir: F, p: Seq<char>, answer: bool) -> bool {
    exists|s: &str| s@ == p && #[trigger] call_ensures(is_dir, (s,), answer)
}

/// The start directory where nothing usable is configured: the preferred one under the
/// home directory where that exists, else the home directory, else the root.
pub open spec fn is_fallback<F: Fn(&str) -> bool>(
    is_dir: F,
    home: Option<Seq<char>>,
    r: Seq<char>,
) -> bool {
    match home {
        Some(h) => {
            let preferred = h + "/"@ + "Workflows"@;
            ||| r == preferred && answered(is_dir, preferred, true)
            ||| r == h && answered(is_dir, preferred, false)
        },
        None => r == "/"@,
    }
}

/// The start directory: the configured one where it exists, else the fallback. `is_dir`
/// tells whether a path is an existing directory.
pub fn default_cwd_impl<F: Fn(&str) -> bool>(
    configured: Option<String>,
    home: Option<String>,
    is_dir: F,
) -> (r: String)
    requires
        forall|p: &str| call_requires(is_dir, (p,)),
    ensures
        (match configured {
            Some(c) => {
                ||| r@ == c@ && answered(is_dir, c@, true)
                ||| answered(is_dir, c@, false) && is_fallback(is_dir, seqs::opt_view(home), r@)
            },
            None => is_fallback(is_dir, seqs::opt_view(home), r@),
        }),
{
    if let Some(c) = &configured {
        let there = is_dir(c.as_str());
        if there {
            return c.clone();
        }
    }
    match home {
        Some(h) => {
            let mut preferred = h.clone();
            preferred.append("/");
            preferred.append(DEFAULT_DIR_UNDER_HOME);
            let there = is_dir(preferred.as_str());
            if there {
                preferred
            } else {
                h
            }
        },
        None => "/".to_owned(),
    }
}

// ── Running a command ───────────────────────────────────────────────────────────────────

/// What a finished command left behind.
pub struct TmuxOut {
    pub status: i32,
    pub stdout: String,
    pub stderr: String,
}

impl TmuxOut {
    pub fn ok(&self) -> (r: bool)
        ensures
            r == (self.status == 0),
    {
        self.status == 0
    }

    /// The output without the white space around it.
    pub fn trimmed(&self) -> (r: String)
        ensures
            r@ == seqs::trim(self.stdout@),
    {
        text::trim(self.stdout.as_str())
    }
}

/// The outcome of a command; an error says why it could not be run.
pub type TmuxResult = Result<TmuxOut, String>;

/// The texts of a list of string slices.
pub open spec fn slices(v: Seq<&str>) -> Seq<Seq<char>> {
    v.map_values(|s: &str| s@)
}

/// The arguments with which tmux is run: the private socket, then those of the command.
pub fn tmux_argv(args: &[&str]) -> (r: Vec<String>)
    ensures
        seqs::views(r@) == seq!["-L"@, "cockpit"@] + slices(args@),
{
    let mut full: Vec<String> = Vec::new();
    full.push("-L".to_owned());
    full.push(SOCKET.to_owned());
    let ghost head = seq!["-L"@, "cockpit"@];
    let mut i: usize = 0;
    assert(seqs::views(full@) =~= head + slices(args@).take(0));
    while i < args.len()
        invariant
            i <= args@.len(),
            seqs::views(full@) == head + slices(args@).take(i as int),
        decreases args@.len() - i,
    {
        let ghost before = full@;
        full.push(args[i].to_owned());
        proof {
            assert(seqs::views(full@) =~= seqs::views(before).push(args@[i as int]@));
            assert(head + slices(args@).take(i + 1) =~= (head + slices(args@).take(i as int)).push(
                args@[i as int]@,
            ));
        }
        i += 1;
    }
    assert(slices(args@).take(args@.len() as int) =~= slices(args@));
    full
}

/// What `{:?}` writes for a list of strings.
pub uninterp spec fn debug_list(args: Seq<Seq<char>>) -> Seq<char>;

/// The `Debug` form of a slice of strings, as `format!` writes it for `{:?}`.
#[verifier::external_body]
fn debug_args(args: &[&str]) -> (r: String)
    ensures
        r@ == debug_list(slices(args@)),
{
    format!("{:?}", args)
}

/// What `{:?}` writes for a string.
pub uninterp spec fn debug_text(s: Seq<char>) -> Seq<char>;

/// The `Debug` form of a string, as `format!` writes it for `{:?}`.
#[verifier::external_body]
pub(crate) fn debug_str(s: &str) -> (r: String)
    ensures
        r@ == debug_text(s@),
{
    format!("{:?}", s)
}

/// The message for a command that did not succeed.
pub open spec fn failure_text(args: Seq<Seq<char>>, status: int, stderr: Seq<char>) -> Seq<char> {
    "tmux "@ + debug_list(args) + " failed (exit "@ + seqs::signed_decimal(status) + "): "@
        + seqs::trim(stderr)
}

/// The outcome of the command `args`, where anything but success is an error.
pub open spec fn required(args: Seq<Seq<char>>, out: TmuxResult) -> Result<TmuxOut, Seq<char>> {
    match out {
        Ok(o) => if o.status == 0 {
            Ok(o)
        } else {
            Err(failure_text(args, o.status as int, o.stderr@))
        },
        Err(e) => Err(e@),
    }
}

/// The outcome of the command `args`, where anything but success is an error.
pub fn tmux_ok<'a>(args: &[&str], out: &'a TmuxResult) -> (r: Result<&'a TmuxOut, String>)
    ensures
        (match r {
            Ok(o) => required(slices(args@), *out) == Ok::<TmuxOut, Seq<char>>(*o),
            Err(e) => required(slices(args@), *out) == Err::<TmuxOut, Seq<char>>(e@),
        }),
{
    match out {
        Ok(o) => {
            if o.ok() {
                return Ok(o);
            }
            let mut e = "tmux ".to_owned();
            e.append(debug_args(args).as_str());
            e.append(" failed (exit ");
            e.append(text::signed_decimal(o.status as i64).as_str());
            e.append("): ");
            e.append(text::trim(o.stderr.as_str()).as_str());
            Err(e)
        },
        Err(e) => Err(e.clone()),
    }
}

/// Whether the outcome of `has-session` says that the session is there.
pub fn has_session(out: &TmuxResult) -> (r: bool)
    ensures
        r == (out matches Ok(o) && o.status == 0),
{
    match out {
        Ok(o) => o.ok(),
        Err(_) => false,
    }
}

/// Whether the outcome of listing the panes says that the server answers: it succeeded and
/// there is a pane.
pub fn server_healthy(out: &TmuxResult) -> (r: bool)
    ensures
        r == (out matches Ok(o) && o.status == 0 && seqs::trim(o.stdout@).len() > 0),
{
    match out {
        Ok(o) => o.ok() && text::chars_of(o.trimmed().as_str()).len() > 0,
        Err(_) => false,
    }
}

// ── Making sure of the session ──────────────────────────────────────────────────────────

/// How far [`ensure_session`] has got: which command was run last.
#[derive(Clone, Copy, Debug, PartialEq, Eq, Structural)]
pub enum EnsureStage {
    /// Nothing was run yet.
    Start,
    /// `has-session` was run.
    Probed,
    /// `new-session` was run.
    Created,
    /// `set-option` was run.
    Configured,
}

/// What is to be done next.
#[derive(Debug, PartialEq)]
pub enum EnsureAction {
    /// Run tmux with these arguments, and report in the given stage.
    Run(EnsureStage, Vec<String>),
    /// The session is there, or could not be made.
    Done(Result<(), String>),
}

pub enum EnsureView {
    Run(EnsureStage, Seq<Seq<char>>),
    Done(Result<(), Seq<char>>),
}

impl View for EnsureAction {
    type V = EnsureView;

    open spec fn view(&self) -> EnsureView {
        match self {
            EnsureAction::Run(s, v) => EnsureView::Run(*s, seqs::views(v@)),
            EnsureAction::Done(r) => EnsureView::Done(
                match r {
                    Ok(_) => Ok(()),
                    Err(e) => Err(e@),
                },
            ),
        }
    }
}

pub open spec fn has_session_args() -> Seq<Seq<char>> {
    seq!["has-session"@, "-t"@, "cockpit-main"@]
}

/// A detached session of 200 by 50 cells that starts in `cwd`.
pub open spec fn new_session_args(cwd: Seq<char>) -> Seq<Seq<char>> {
    seq![
        "new-session"@,
        "-d"@,
        "-s"@,
        "cockpit-main"@,
        "-x"@,
        "200"@,
        "-y"@,
        "50"@,
        "-c"@,
        cwd,
    ]
}

/// Panes whose program has ended stay.
pub open spec fn remain_args() -> Seq<Seq<char>> {
    seq!["set-option"@, "-t"@, "cockpit-main"@, "remain-on-exit"@, "on"@]
}

/// What follows the outcome `out` of the command of `stage`.
pub open spec fn ensure_next(
    stage: EnsureStage,
    out: TmuxResult,
    cwd: Seq<char>,
) -> EnsureView {
    match stage {
        EnsureStage::Start => EnsureView::Run(EnsureStage::Probed, has_session_args()),
        EnsureStage::Probed => if out matches Ok(o) && o.status == 0 {
            EnsureView::Done(Ok(()))
        } else {
            EnsureView::Run(EnsureStage::Created, new_session_args(cwd))
        },
        EnsureStage::Created => match required(new_session_args(cwd), out) {
            Ok(_) => EnsureView::Run(EnsureStage::Configured, remain_args()),
            Err(e) => EnsureView::Done(Err(e)),
        },
        EnsureStage::Configured => EnsureView::Done(Ok(())),
    }
}

/// The arguments, each a string of its own.
pub(crate) fn owned(args: &[&str]) -> (r: Vec<String>)
    ensures
        seqs::views(r@) == slices(args@),
{
    let mut out: Vec<String> = Vec::new();
    let mut i: usize = 0;
    assert(seqs::views(out@) =~= slices(args@).take(0));
    while i < args.len()
        invariant
            i <= args@.len(),
            seqs::views(out@) == slices(args@).take(i as int),
        decreases args@.len() - i,
    {
        let ghost before = out@;
        out.push(args[i].to_owned());
        proof {
            assert(seqs::views(out@) =~= seqs::views(before).push(args@[i as int]@));
            assert(slices(args@).take(i + 1) =~= slices(args@).take(i as int).push(
                args@[i as int]@,
            ));
        }
        i += 1;
    }
    assert(slices(args@).take(args@.len() as int) =~= slices(args@));
    out
}

/// Makes sure, step by step, that the session exists: each call takes the outcome of the
/// command that the last one asked for. Before the first command there is none, and any
/// outcome may be given.
pub fn ensure_session(stage: EnsureStage, out: TmuxResult, cwd: &str) -> (r: EnsureAction)
    ensures
        r@ == ensure_next(stage, out, cwd@),
{
    match stage {
        EnsureStage::Start => {
            let args = owned(&["has-session", "-t", SESSION]);
            assert(seqs::views(args@) =~= has_session_args());
            EnsureAction::Run(EnsureStage::Probed, args)
        },
        EnsureStage::Probed => {
            if has_session(&out) {
                return EnsureAction::Done(Ok(()));
            }
            let args = owned(
                &["new-session", "-d", "-s", SESSION, "-x", "200", "-y", "50", "-c", cwd],
            );
            assert(seqs::views(args@) =~= new_session_args(cwd@));
            EnsureAction::Run(EnsureStage::Created, args)
        },
        EnsureStage::Created => {
            let given = ["new-session", "-d", "-s", SESSION, "-x", "200", "-y", "50", "-c", cwd];
            assert(slices(given@) =~= new_session_args(cwd@));
            match tmux_ok(&given, &out) {
                Err(e) => EnsureAction::Done(Err(e)),
                Ok(_) => {
                    let args = owned(&["set-option", "-t", SESSION, "remain-on-exit", "on"]);
                    assert(seqs::views(args@) =~= remain_args());
                    EnsureAction::Run(EnsureStage::Configured, args)
                },
            }
        },
        EnsureStage::Configured => EnsureAction::Done(Ok(())),
    }
}

/// What is to be done after a round of making the session and asking the server.
#[derive(Debug, PartialEq)]
pub enum HealAction {
    /// Reset the server, wait, and try another round.
    Reset,
    Done(Result<(), String>),
}

/// What follows round number `round`, counted from 0, in which making the session ended in
/// `ensured` and the server was `healthy` or not. After three rounds the server has been
/// reset each time; the fourth decides.
pub open spec fn heal_next(round: u32, ensured: Result<(), String>, healthy: bool, r: HealAction) -> bool {
    if round < 3 {
        if healthy {
            r == HealAction::Done(Ok(()))
        } else {
            r == HealAction::Reset
        }
    } else {
        match ensured {
            Err(e) => r matches HealAction::Done(Err(m)) && m@ == e@,
            Ok(_) => if healthy {
                r == HealAction::Done(Ok(()))
            } else {
                r matches HealAction::Done(Err(m)) && m@
                    == "cockpit tmux server is unhealthy after reset attempts"@
            },
        }
    }
}

/// One step of making sure of a server that answers, healing a socket that a crash left
/// behind.
pub fn ensure_healthy_session(round: u32, ensured: Result<(), String>, healthy: bool) -> (r:
    HealAction)
    ensures
        heal_next(round, ensured, healthy, r),
{
    if round < 3 {
        if healthy {
            HealAction::Done(Ok(()))
        } else {
            HealAction::Reset
        }
    } else {
        match ensured {
            Err(e) => HealAction::Done(Err(e)),
            Ok(_) => if healthy {
                HealAction::Done(Ok(()))
            } else {
                HealAction::Done(
                    Err("cockpit tmux server is unhealthy after reset attempts".to_owned()),
                )
            },
        }
    }
}

/// Healing ends: a server is reset at most three times.
pub proof fn healing_ends(round: u32, ensured: Result<(), String>, healthy: bool, r: HealAction)
    requires
        heal_next(round, ensured, healthy, r),
    ensures
        r == HealAction::Reset ==> round < 3,
        round >= 3 ==> r is Done,
        healthy && ensured is Ok ==> r == HealAction::Done(Ok(())),
{
}

// ── Quoting ─────────────────────────────────────────────────────────────────────────────

/// `s` with each single quote closed, escaped and opened again.
pub open spec fn quote_body(s: Seq<char>) -> Seq<char>
    decreases s.len(),
{
    if s.len() == 0 {
        Seq::empty()
    } else {
        quote_body(s.drop_last()) + (if s.last() == '\'' {
            "'\\''"@
        } else {
            seq![s.last()]
        })
    }
}

/// `s` in single quotes.
pub open spec fn quoted(s: Seq<char>) -> Seq<char> {
    seq!['\''] + quote_body(s) + seq!['\'']
}

/// `s` in single quotes, for a shell command line.
pub fn shq(s: &str) -> (r: String)
    ensures
        r@ == quoted(s@),
{
    let cs = text::chars_of(s);
    let mut out = String::new();
    out.push('\'');
    let mut i: usize = 0;
    assert(s@.take(0) =~= Seq::empty());
    assert(out@ =~= seq!['\''] + quote_body(s@.take(0)));
    while i < cs.len()
        invariant
            i <= cs@.len(),
            cs@ == s@,
            out@ == seq!['\''] + quote_body(s@.take(i as int)),
        decreases cs@.len() - i,
    {
        let ghost before = out@;
        assert(s@.take(i + 1).drop_last() =~= s@.take(i as int));
        if cs[i] == '\'' {
            out.append("'\\''");
        } else {
            out.push(cs[i]);
        }
        proof {
            let last = if cs@[i as int] == '\'' {
                "'\\''"@
            } else {
                seq![cs@[i as int]]
            };
            assert(out@ =~= before + last);
            assert((seq!['\''] + quote_body(s@.take(i as int))) + last =~= seq!['\''] + (quote_body(
                s@.take(i as int),
            ) + last));
        }
        i += 1;
    }
    assert(s@.take(s@.len() as int) =~= s@);
    let ghost before = out@;
    out.push('\'');
    assert(out@ =~= before + seq!['\'']);
    out
}

/// How a POSIX shell reads a word, from inside single quotes or from outside: inside, all
/// characters but the closing quote stand for themselves; outside, a backslash stands for
/// the character behind it, and a quote opens. Anything else outside is not read here.
pub open spec fn shell_word(s: Seq<char>, inside: bool) -> Option<Seq<char>>
    decreases s.len(),
{
    if s.len() == 0 {
        if inside {
            None
        } else {
            Some(Seq::empty())
        }
    } else if inside {
        if s[0] == '\'' {
            shell_word(s.drop_first(), false)
        } else {
            match shell_word(s.drop_first(), true) {
                Some(rest) => Some(seq![s[0]] + rest),
                None => None,
            }
        }
    } else if s[0] == '\'' {
        shell_word(s.drop_first(), true)
    } else if s[0] == '\\' && s.len() > 1 {
        match shell_word(s.skip(2), false) {
            Some(rest) => Some(seq![s[1]] + rest),
            None => None,
        }
    } else {
        None
    }
}

proof fn quote_body_reads(s: Seq<char>, tail: Seq<char>)
    ensures
        shell_word(quote_body(s) + tail, true) == (match shell_word(tail, true) {
            Some(rest) => Some(s + rest),
            None => None,
        }),
    decreases s.len(),
{
    if s.len() == 0 {
        assert(quote_body(s) + tail =~= tail);
        if let Some(rest) = shell_word(tail, true) {
            assert(s + rest =~= rest);
        }
    } else {
        let head = s.drop_last();
        let c = s.last();
        reveal_strlit("'\\''");
        let piece = if c == '\'' {
            "'\\''"@
        } else {
            seq![c]
        };
        let t = piece + tail;
        assert(quote_body(s) + tail =~= quote_body(head) + t);
        quote_body_reads(head, t);
        if c == '\'' {
            let t1 = t.drop_first();
            assert(t1[0] == '\\' && t1[1] == '\'');
            let t2 = t1.skip(2);
            assert(t2[0] == '\'');
            assert(t2.drop_first() =~= tail);
            assert(shell_word(t2, false) == shell_word(tail, true));
            assert(shell_word(t, true) == shell_word(t1, false));
            assert(shell_word(t1, false) == (match shell_word(tail, true) {
                Some(rest) => Some(seq![c] + rest),
                None => None,
            }));
        } else {
            assert(t.drop_first() =~= tail);
        }
        assert(shell_word(t, true) == (match shell_word(tail, true) {
            Some(rest) => Some(seq![c] + rest),
            None => None,
        }));
        if let Some(rest) = shell_word(tail, true) {
            assert(head + (seq![c] + rest) =~= s + rest);
        }
    }
}

/// A shell reads a quoted string back as one word that is exactly that string, whatever it
/// holds: nothing in it can end the word or be taken for a command.
pub proof fn quoting_is_exact(s: Seq<char>)
    ensures
        shell_word(quoted(s), false) == Some(s),
{
    let q = quoted(s);
    let tail = seq!['\''];
    assert(q.drop_first() =~= quote_body(s) + tail);
    quote_body_reads(s, tail);
    assert(tail.drop_first() =~= Seq::empty());
    assert(shell_word(Seq::<char>::empty(), false) == Some(Seq::<char>::empty()));
    assert(shell_word(tail, true) == Some(Seq::<char>::empty()));
    assert(s + Seq::<char>::empty() =~= s);
}

/// Words in single quotes, with a space between each two.
pub open spec fn quoted_words(words: Seq<Seq<char>>) -> Seq<char> {
    seqs::join(words.map_values(|w: Seq<char>| quoted(w)), " "@)
}

/// `words` in single quotes, with a space between each two, for a shell command line.
pub fn shq_words(words: &[String]) -> (r: String)
    ensures
        r@ == quoted_words(seqs::views(words@)),
{
    let ghost all = seqs::views(words@).map_values(|w: Seq<char>| quoted(w));
    let mut parts: Vec<String> = Vec::new();
    let mut i: usize = 0;
    assert(seqs::views(parts@) =~= all.take(0));
    while i < words.len()
        invariant
            i <= words@.len(),
            all == seqs::views(words@).map_values(|w: Seq<char>| quoted(w)),
            seqs::views(parts@) == all.take(i as int),
        decreases words@.len() - i,
    {
        let ghost before = parts@;
        let word = shq(words[i].as_str());
        parts.push(word);
        assert(seqs::views(parts@) =~= seqs::views(before).push(word@));
        assert(all.take(i + 1) =~= all.take(i as int).push(word@));
        i += 1;
    }
    assert(all.take(all.len() as int) =~= all);
    text::join(&parts, " ")
}

/// The characters of a command line that stand neither in single quotes nor behind a
/// backslash, so that a shell may take them for more than themselves. `inside` tells whether
/// the line begins inside quotes.
pub open spec fn bare(s: Seq<char>, inside: bool) -> Seq<char>
    decreases s.len(),
{
    if s.len() == 0 {
        Seq::empty()
    } else if inside {
        bare(s.drop_first(), s[0] != '\'')
    } else if s[0] == '\'' {
        bare(s.drop_first(), true)
    } else if s[0] == '\\' && s.len() > 1 {
        bare(s.skip(2), false)
    } else {
        seq![s[0]] + bare(s.drop_first(), false)
    }
}

proof fn quote_body_is_not_bare(s: Seq<char>, tail: Seq<char>)
    ensures
        bare(quote_body(s) + tail, true) == bare(tail, true),
    decreases s.len(),
{
    if s.len() == 0 {
        assert(quote_body(s) + tail =~= tail);
    } else {
        let c = s.last();
        reveal_strlit("'\\''");
        let piece = if c == '\'' {
            "'\\''"@
        } else {
            seq![c]
        };
        let t = piece + tail;
        assert(quote_body(s) + tail =~= quote_body(s.drop_last()) + t);
        quote_body_is_not_bare(s.drop_last(), t);
        if c == '\'' {
            let t1 = t.drop_first();
            assert(t1[0] == '\\' && t1[1] == '\'');
            let t2 = t1.skip(2);
            assert(t2[0] == '\'');
            assert(t2.drop_first() =~= tail);
            assert(bare(t2, false) == bare(tail, true));
            assert(bare(t1, false) == bare(t2, false));
        } else {
            assert(t.drop_first() =~= tail);
        }
    }
}

proof fn quoted_is_not_bare(s: Seq<char>, tail: Seq<char>)
    ensures
        bare(quoted(s) + tail, false) == bare(tail, false),
{
    let t = seq!['\''] + tail;
    let q = quoted(s) + tail;
    assert(q.drop_first() =~= quote_body(s) + t);
    quote_body_is_not_bare(s, t);
    assert(t.drop_first() =~= tail);
}

proof fn only_spaces_are_bare(words: Seq<Seq<char>>, tail: Seq<char>)
    requires
        words.len() > 0,
    ensures
        bare(quoted_words(words) + tail, false) == Seq::new(
            (words.len() - 1) as nat,
            |i: int| ' ',
        ) + bare(tail, false),
    decreases words.len(),
{
    let parts = words.map_values(|w: Seq<char>| quoted(w));
    let last = words.last();
    if words.len() == 1 {
        assert(quoted_words(words) + tail =~= quoted(last) + tail);
        quoted_is_not_bare(last, tail);
        assert(Seq::new(0nat, |i: int| ' ') + bare(tail, false) =~= bare(tail, false));
    } else {
        let head = words.drop_last();
        assert(parts.drop_last() =~= head.map_values(|w: Seq<char>| quoted(w)));
        assert(parts.last() == quoted(last));
        let rest = " "@ + quoted(last) + tail;
        assert(quoted_words(words) + tail =~= quoted_words(head) + rest);
        only_spaces_are_bare(head, rest);
        reveal_strlit(" ");
        assert(rest[0] == ' ');
        assert(rest.drop_first() =~= quoted(last) + tail);
        quoted_is_not_bare(last, tail);
        assert(bare(rest, false) =~= seq![' '] + bare(tail, false));
        assert(Seq::new((head.len() - 1) as nat, |i: int| ' ') + (seq![' '] + bare(tail, false))
            =~= Seq::new((words.len() - 1) as nat, |i: int| ' ') + bare(tail, false));
    }
}

/// Of quoted words nothing stands outside quotes but the spaces between them, whatever the
/// words hold.
pub proof fn quoted_words_stay_quoted(words: Seq<Seq<char>>)
    ensures
        forall|i: int|
            0 <= i < bare(quoted_words(words), false).len() ==> #[trigger] bare(
                quoted_words(words),
                false,
            )[i] == ' ',
{
    let none = Seq::<char>::empty();
    if words.len() > 0 {
        only_spaces_are_bare(words, none);
        assert(quoted_words(words) + none =~= quoted_words(words));
    }
}

// ── What is run ─────────────────────────────────────────────────────────────────────────

/// A session that is not there is made, detached, under the name that was asked for and in
/// the directory that was given, and is told to keep the panes whose program has ended; one
/// that is there is left alone; and one that could not be made is an error.
pub proof fn missing_sessions_are_made(out: TmuxResult, cwd: Seq<char>)
    ensures
        ensure_next(EnsureStage::Start, out, cwd) matches EnsureView::Run(next, args) && next
            == EnsureStage::Probed && args.len() == 3 && args[0] == "has-session"@ && args[1]
            == "-t"@ && args[2] == "cockpit-main"@,
        (out matches Ok(o) && o.status == 0) ==> ensure_next(EnsureStage::Probed, out, cwd)
            == EnsureView::Done(Ok(())),
        !(out matches Ok(o) && o.status == 0) ==> (ensure_next(EnsureStage::Probed, out, cwd)
            matches EnsureView::Run(next, args) && next == EnsureStage::Created && args.len() == 10
            && args[0] == "new-session"@ && args[1] == "-d"@ && args[2] == "-s"@ && args[3]
            == "cockpit-main"@ && args[4] == "-x"@ && args[5] == "200"@ && args[6] == "-y"@
            && args[7] == "50"@ && args[8] == "-c"@ && args[9] == cwd),
        (out matches Ok(o) && o.status == 0) ==> (ensure_next(EnsureStage::Created, out, cwd)
            matches EnsureView::Run(next, args) && next == EnsureStage::Configured && args.len()
            == 5 && args[0] == "set-option"@ && args[2] == "cockpit-main"@ && args[3]
            == "remain-on-exit"@ && args[4] == "on"@),
        !(out matches Ok(o) && o.status == 0) ==> ensure_next(EnsureStage::Created, out, cwd)
            matches EnsureView::Done(Err(_)),
        ensure_next(EnsureStage::Configured, out, cwd) == EnsureView::Done(Ok(())),
{
}

/// A command succeeded exactly if it ended with status 0, and what it left is then handed on
/// as it is; the error of one that could not be run is handed on as it is; and that of one that
/// failed ends in what the command complained of.
pub proof fn only_status_zero_is_success(args: Seq<Seq<char>>, out: TmuxResult)
    ensures
        out matches Ok(o) ==> o.status == 0 ==> required(args, out) == Ok::<TmuxOut, Seq<char>>(o),
        out matches Ok(o) ==> o.status != 0 ==> (required(args, out) matches Err(e)
            && seqs::starts_with(e, "tmux "@) && seqs::ends_with(e, seqs::trim(o.stderr@))),
        out matches Err(m) ==> required(args, out) == Err::<TmuxOut, Seq<char>>(m@),
{
    if let Ok(o) = out {
        let tail = debug_list(args) + " failed (exit "@ + seqs::signed_decimal(o.status as int)
            + "): "@ + seqs::trim(o.stderr@);
        let head = "tmux "@ + debug_list(args) + " failed (exit "@ + seqs::signed_decimal(
            o.status as int,
        ) + "): "@;
        let e = failure_text(args, o.status as int, o.stderr@);
        assert(e =~= "tmux "@ + tail);
        assert(e =~= head + seqs::trim(o.stderr@));
        seqs::ends_of_concat("tmux "@, tail);
        seqs::ends_of_concat(head, seqs::trim(o.stderr@));
    }
}

/// A blank start directory is none, and any other is taken as it is.
pub proof fn blank_directories_are_none(dir: Seq<char>)
    ensures
        configured_of(Some(dir)) is Some ==> configured_of(Some(dir)) == Some(dir),
        configured_of(Some(dir)) is None <==> seqs::trim(dir).len() == 0,
        configured_of(None) is None,
{
}

/// A server that does not answer is reset, up to the third round; one that answers is left
/// alone.
pub proof fn broken_servers_are_reset(
    round: u32,
    ensured: Result<(), String>,
    healthy: bool,
    r: HealAction,
)
    requires
        heal_next(round, ensured, healthy, r),
    ensures
        round < 3 ==> (r == HealAction::Reset <==> !healthy),
        round < 3 && healthy ==> r == HealAction::Done(Ok(())),
        round >= 3 && !healthy ==> r matches HealAction::Done(Err(_)),
        round >= 3 && ensured is Err ==> (r matches HealAction::Done(Err(m)) && m@
            == ensured->Err_0@),
{
}

/// Every command goes to the private socket, with its own arguments behind that as they are.
pub proof fn commands_go_to_the_private_socket(args: &[&str], r: Vec<String>)
    requires
        call_ensures(tmux_argv, (args,), r),
    ensures
        seqs::views(r@).len() == args@.len() + 2,
        seqs::views(r@)[0] == "-L"@,
        seqs::views(r@)[1] == "cockpit"@,
        forall|i: int|
            0 <= i < args@.len() ==> seqs::views(r@)[i + 2] == (#[trigger] args@[i])@,
{
    assert forall|i: int| 0 <= i < args@.len() implies seqs::views(r@)[i + 2] == (
    #[trigger] args@[i])@ by {
        assert(slices(args@)[i] == args@[i]@);
    }
}

} // verus!
