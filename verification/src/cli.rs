//! The command line of the session lister: its options, and the lines that it prints.
use crate::seqs;
use crate::sessions;
use crate::sessions::PaneSession;
use crate::sessions::PaneView;
use crate::sessions::SessionRow;
use crate::sort;
use crate::text;
use vstd::prelude::*;

verus! {

/// How the listing is printed.
#[derive(Clone, Copy, Debug, PartialEq, Eq, Structural)]
pub enum Format {
    Table,
    Json,
    Tsv,
}

/// The options of a run.
#[derive(Clone, Copy, Debug, PartialEq, Eq, Structural)]
pub struct Options {
    pub format: Format,
    pub limit: usize,
    pub current: bool,
    pub panes: bool,
}

/// What the arguments ask for.
#[derive(Debug, PartialEq)]
pub enum Request {
    Run(Options),
    Help,
    /// The arguments are wrong; the message says how.
    Fail(String),
}

pub enum RequestView {
    Run(Options),
    Help,
    Fail(Seq<char>),
}

impl View for Request {
    type V = RequestView;

    open spec fn view(&self) -> RequestView {
        match self {
            Request::Run(o) => RequestView::Run(*o),
            Request::Help => RequestView::Help,
            Request::Fail(m) => RequestView::Fail(m@),
        }
    }
}

/// The options that hold where no argument says otherwise.
pub open spec fn default_options() -> Options {
    Options { format: Format::Table, limit: 20, current: false, panes: false }
}

/// What the arguments from position `i` on make of the options `o`.
pub open spec fn request_of(args: Seq<Seq<char>>, i: int, o: Options) -> RequestView
    decreases args.len() - i,
{
    if i < 0 || i >= args.len() {
        RequestView::Run(o)
    } else {
        let a = args[i];
        if a == "--json"@ {
            request_of(args, i + 1, Options { format: Format::Json, ..o })
        } else if a == "--tsv"@ {
            request_of(args, i + 1, Options { format: Format::Tsv, ..o })
        } else if a == "--current"@ {
            request_of(args, i + 1, Options { current: true, ..o })
        } else if a == "--panes"@ {
            request_of(args, i + 1, Options { panes: true, ..o })
        } else if a == "--limit"@ {
            if i + 1 >= args.len() {
                RequestView::Fail("--limit needs a number"@)
            } else {
                match seqs::parse_uint(args[i + 1], usize::MAX as nat) {
                    Some(n) => request_of(args, i + 2, Options { limit: n as usize, ..o }),
                    None => RequestView::Fail("--limit needs a number"@),
                }
            }
        } else if a == "-h"@ || a == "--help"@ {
            RequestView::Help
        } else {
            RequestView::Fail("unknown option: "@ + a)
        }
    }
}

/// Reads the arguments, the program's name not among them.
pub fn parse_args(args: &[String]) -> (r: Request)
    ensures
        r@ == request_of(seqs::views(args@), 0, default_options()),
{
    let ghost all = seqs::views(args@);
    let mut o = Options { format: Format::Table, limit: 20, current: false, panes: false };
    let mut i: usize = 0;
    while i < args.len()
        invariant
            i <= args@.len(),
            all == seqs::views(args@),
            request_of(all, 0, default_options()) == request_of(all, i as int, o),
        decreases args@.len() - i,
    {
        let a = args[i].as_str();
        let n: usize = args.len();
        assert(all[i as int] == a@);
        if text::same(a, "--json") {
            o.format = Format::Json;
        } else if text::same(a, "--tsv") {
            o.format = Format::Tsv;
        } else if text::same(a, "--current") {
            o.current = true;
        } else if text::same(a, "--panes") {
            o.panes = true;
        } else if text::same(a, "--limit") {
            i += 1;
            if i >= n {
                return Request::Fail("--limit needs a number".to_owned());
            }
            assert(all[i as int] == args@[i as int]@);
            match text::parse_uint(args[i].as_str(), usize::MAX as u64) {
                Some(limit) => {
                    o.limit = limit as usize;
                },
                None => return Request::Fail("--limit needs a number".to_owned()),
            }
        } else if text::same(a, "-h") || text::same(a, "--help") {
            return Request::Help;
        } else {
            let mut m = "unknown option: ".to_owned();
            m.append(a);
            return Request::Fail(m);
        }
        i += 1;
    }
    Request::Run(o)
}

/// How long ago, in words, something happened `secs` seconds ago.
pub open spec fn age_text(secs: nat) -> Seq<char> {
    if secs < 60 {
        "just now"@
    } else if secs < 3600 {
        seqs::decimal(secs / 60) + "m ago"@
    } else if secs < 86400 {
        seqs::decimal(secs / 3600) + "h ago"@
    } else {
        seqs::decimal(secs / 86400) + "d ago"@
    }
}

/// How long before `now` the time `epoch` was, both in seconds. A time after `now` was just
/// now.
pub fn age(now: u64, epoch: u64) -> (r: String)
    ensures
        r@ == age_text(
            if now > epoch {
                (now - epoch) as nat
            } else {
                0
            },
        ),
{
    let secs: u64 = if now > epoch {
        now - epoch
    } else {
        0
    };
    if secs < 60 {
        return "just now".to_owned();
    }
    if secs < 3600 {
        let mut s = text::decimal(secs / 60);
        s.append("m ago");
        s
    } else if secs < 86400 {
        let mut s = text::decimal(secs / 3600);
        s.append("h ago");
        s
    } else {
        let mut s = text::decimal(secs / 86400);
        s.append("d ago");
        s
    }
}

/// `s` with spaces before it, up to `width` characters in all.
pub open spec fn padded(s: Seq<char>, width: int) -> Seq<char>
    decreases width - s.len(),
{
    if s.len() >= width {
        s
    } else {
        padded(seq![' '] + s, width)
    }
}

fn pad_left(s: &str, width: usize) -> (r: String)
    ensures
        r@ == padded(s@, width as int),
{
    let mut out = s.to_owned();
    while text::chars_of(out.as_str()).len() < width
        invariant
            padded(s@, width as int) == padded(out@, width as int),
        decreases width - out@.len(),
    {
        let mut longer = String::new();
        longer.push(' ');
        longer.append(out.as_str());
        assert(longer@ =~= seq![' '] + out@);
        out = longer;
    }
    out
}

/// A row with tabs between its fields.
pub fn session_tsv(row: &SessionRow) -> (r: String)
    ensures
        r@ == row.session_id@ + "\t"@ + seqs::decimal(row.modified_epoch as nat) + "\t"@ + row.cwd@
            + "\t"@ + row.project_dir@ + "\t"@ + row.first_prompt@,
{
    let mut s = row.session_id.clone();
    s.append("\t");
    s.append(text::decimal(row.modified_epoch).as_str());
    s.append("\t");
    s.append(row.cwd.as_str());
    s.append("\t");
    s.append(row.project_dir.as_str());
    s.append("\t");
    s.append(row.first_prompt.as_str());
    s
}

/// A row of the table, at the time `now`.
pub fn session_line(row: &SessionRow, now: u64) -> (r: String)
    ensures
        r@ == row.session_id@ + "  "@ + padded(
            age_text(
                if now > row.modified_epoch {
                    (now - row.modified_epoch) as nat
                } else {
                    0
                },
            ),
            8,
        ) + "  "@ + row.cwd@ + "  "@ + row.first_prompt@,
{
    let mut s = row.session_id.clone();
    s.append("  ");
    s.append(pad_left(age(now, row.modified_epoch).as_str(), 8).as_str());
    s.append("  ");
    s.append(row.cwd.as_str());
    s.append("  ");
    s.append(row.first_prompt.as_str());
    s
}

/// A pane with tabs between its fields.
pub fn pane_tsv(p: &PaneSession) -> (r: String)
    ensures
        r@ == p.tmux_pane@ + "\t"@ + p.session_id@ + "\t"@ + p.cwd@,
{
    let mut s = p.tmux_pane.clone();
    s.append("\t");
    s.append(p.session_id.as_str());
    s.append("\t");
    s.append(p.cwd.as_str());
    s
}

/// A pane of the table.
pub fn pane_line(p: &PaneSession) -> (r: String)
    ensures
        r@ == padded(p.tmux_pane@, 5) + "  "@ + p.session_id@ + "  "@ + p.cwd@,
{
    let mut s = pad_left(p.tmux_pane.as_str(), 5);
    s.append("  ");
    s.append(p.session_id.as_str());
    s.append("  ");
    s.append(p.cwd.as_str());
    s
}

/// `s` without the `%` signs that it begins with.
pub open spec fn without_sigil(s: Seq<char>) -> Seq<char>
    decreases s.len(),
{
    if s.len() > 0 && s[0] == '%' {
        without_sigil(s.drop_first())
    } else {
        s
    }
}

/// The number of a pane id; the largest there is where the id has none.
pub open spec fn pane_number(pane: Seq<char>) -> nat {
    match seqs::parse_uint(without_sigil(pane), u64::MAX as nat) {
        Some(n) => n,
        None => u64::MAX as nat,
    }
}

/// The order of the panes: by number.
pub open spec fn by_pane_number() -> spec_fn(PaneView, PaneView) -> bool {
    |a: PaneView, b: PaneView| pane_number(a.tmux_pane) <= pane_number(b.tmux_pane)
}

fn number_of_pane(pane: &str) -> (r: u64)
    ensures
        r == pane_number(pane@),
{
    let cs = text::chars_of(pane);
    let mut i: usize = 0;
    assert(pane@.skip(0) =~= pane@);
    while i < cs.len() && cs[i] == '%'
        invariant
            i <= cs@.len(),
            cs@ == pane@,
            without_sigil(pane@) == without_sigil(pane@.skip(i as int)),
        decreases cs@.len() - i,
    {
        assert(pane@.skip(i as int).drop_first() =~= pane@.skip(i + 1));
        i += 1;
    }
    let rest = text::string_of(&cs, i, cs.len());
    assert(rest@ =~= pane@.skip(i as int));
    match text::parse_uint(rest.as_str(), u64::MAX) {
        Some(n) => n,
        None => u64::MAX,
    }
}

/// The panes in the order of their numbers: `%2` before `%10`.
pub fn sort_panes(panes: Vec<PaneSession>) -> (r: Vec<PaneSession>)
    ensures
        sessions::pane_views(r@) == sort::sorted(sessions::pane_views(panes@), by_pane_number()),
{
    let le = |a: &PaneSession, b: &PaneSession| -> (o: bool)
        ensures
            o == by_pane_number()(a@, b@),
        { number_of_pane(a.tmux_pane.as_str()) <= number_of_pane(b.tmux_pane.as_str()) };
    let ghost order = |a: PaneSession, b: PaneSession| by_pane_number()(a@, b@);
    proof {
        sort::sorted_map(panes@, |p: PaneSession| p@, order, by_pane_number());
    }
    sort::sort_by(panes, le, Ghost(order))
}

/// Arguments are taken in whatever order they come: one that stands before the others sets
/// what it is for and nothing else; a limit is the number behind `--limit`; asking for help is
/// answered by it; and an unknown argument is named in the error.
pub proof fn arguments_set_what_they_are_for(rest: Seq<Seq<char>>, o: Options, n: usize, a: Seq<char>)
    ensures
        request_of(seq!["--json"@] + rest, 0, o) == request_of(
            rest,
            0,
            Options { format: Format::Json, ..o },
        ),
        request_of(seq!["--tsv"@] + rest, 0, o) == request_of(
            rest,
            0,
            Options { format: Format::Tsv, ..o },
        ),
        request_of(seq!["--current"@] + rest, 0, o) == request_of(
            rest,
            0,
            Options { current: true, ..o },
        ),
        request_of(seq!["--panes"@] + rest, 0, o) == request_of(
            rest,
            0,
            Options { panes: true, ..o },
        ),
        request_of(seq!["--limit"@, seqs::decimal(n as nat)] + rest, 0, o) == request_of(
            rest,
            0,
            Options { limit: n, ..o },
        ),
        request_of(seq!["--limit"@], 0, o) is Fail,
        request_of(seq!["--help"@] + rest, 0, o) is Help,
        request_of(seq!["-h"@] + rest, 0, o) is Help,
        request_of(Seq::empty(), 0, o) == RequestView::Run(o),
        a.len() > 0 && a[0] != '-' ==> request_of(seq![a] + rest, 0, o) == RequestView::Fail(
            "unknown option: "@ + a,
        ),
        default_options() == (Options {
            format: Format::Table,
            limit: 20,
            current: false,
            panes: false,
        }),
{
    reveal_strlit("--json");
    reveal_strlit("--tsv");
    reveal_strlit("--current");
    reveal_strlit("--panes");
    reveal_strlit("--limit");
    reveal_strlit("--help");
    reveal_strlit("-h");
    assert("--json"@[2] == 'j' && "--tsv"@[2] == 't' && "--current"@[2] == 'c' && "--panes"@[2]
        == 'p' && "--limit"@[2] == 'l' && "--help"@[2] == 'h');
    behind_one("--json"@, rest, 0, Options { format: Format::Json, ..o });
    behind_one("--tsv"@, rest, 0, Options { format: Format::Tsv, ..o });
    behind_one("--current"@, rest, 0, Options { current: true, ..o });
    behind_one("--panes"@, rest, 0, Options { panes: true, ..o });
    let number = seqs::decimal(n as nat);
    seqs::decimal_reads_back(n as nat);
    assert(seqs::parse_uint(number, usize::MAX as nat) == Some(n as nat));
    let two = seq!["--limit"@, number] + rest;
    assert(two =~= seq!["--limit"@] + (seq![number] + rest));
    behind_one("--limit"@, seq![number] + rest, 1, Options { limit: n, ..o });
    behind_one(number, rest, 0, Options { limit: n, ..o });
    assert(two[0] == "--limit"@ && two[1] == number);
    assert((seq!["--help"@] + rest)[0] == "--help"@);
    assert((seq!["-h"@] + rest)[0] == "-h"@);
    assert("-h"@.len() == 2);
    assert((seq![a] + rest)[0] == a);
}

/// What stands behind an argument is read as if it stood alone.
proof fn behind_one(a: Seq<char>, rest: Seq<Seq<char>>, i: int, o: Options)
    requires
        0 <= i,
    ensures
        request_of(seq![a] + rest, i + 1, o) == request_of(rest, i, o),
    decreases rest.len() - i,
{
    let all = seq![a] + rest;
    if i < rest.len() {
        assert(all[i + 1] == rest[i]);
        behind_one(a, rest, i + 1, Options { format: Format::Json, ..o });
        behind_one(a, rest, i + 1, Options { format: Format::Tsv, ..o });
        behind_one(a, rest, i + 1, Options { current: true, ..o });
        behind_one(a, rest, i + 1, Options { panes: true, ..o });
        if i + 1 < rest.len() {
            assert(all[i + 2] == rest[i + 1]);
            if let Some(n) = seqs::parse_uint(rest[i + 1], usize::MAX as nat) {
                behind_one(a, rest, i + 2, Options { limit: n as usize, ..o });
            }
        }
    }
}

/// An age is given in the largest unit of which a whole one has passed: minutes, hours or
/// days, and as many of it as have passed in full.
pub proof fn ages_are_in_whole_units(n: nat, rest: nat)
    requires
        n > 0,
    ensures
        n < 60 && rest < 60 ==> age_text(n * 60 + rest) == seqs::decimal(n) + "m ago"@,
        n < 24 && rest < 3600 ==> age_text(n * 3600 + rest) == seqs::decimal(n) + "h ago"@,
        rest < 86400 ==> age_text(n * 86400 + rest) == seqs::decimal(n) + "d ago"@,
        rest < 60 ==> age_text(rest) == "just now"@,
{
    if n < 60 && rest < 60 {
        assert((n * 60 + rest) / 60 == n);
    }
    if n < 24 && rest < 3600 {
        assert((n * 3600 + rest) / 3600 == n);
    }
    if rest < 86400 {
        assert((n * 86400 + rest) / 86400 == n);
    }
}

/// A padded text stands at the right of its column: it ends the column, and what is before it
/// is spaces; one that is too wide is not cut.
pub proof fn padding_stands_in_front(s: Seq<char>, width: int)
    ensures
        padded(s, width).len() == (if s.len() < width {
            width
        } else {
            s.len() as int
        }),
        padded(s, width).skip(padded(s, width).len() - s.len()) == s,
        forall|i: int|
            0 <= i < padded(s, width).len() - s.len() ==> #[trigger] padded(s, width)[i] == ' ',
    decreases width - s.len(),
{
    if s.len() < width {
        let t = seq![' '] + s;
        padding_stands_in_front(t, width);
        let p = padded(t, width);
        let k = p.len() - t.len();
        assert(p.skip(k) == t);
        assert(p[k] == p.skip(k)[0]);
        assert(p.skip(k + 1) =~= t.skip(1));
        assert(t.skip(1) =~= s);
    } else {
        assert(s.skip(0) =~= s);
    }
}

/// The panes stand by number: none stands before one of a smaller number, and the number is
/// what stands behind the percent sign.
pub proof fn panes_stand_by_number(panes: Seq<PaneView>, i: int, j: int, a: u64, b: u64)
    requires
        0 <= i < j < sort::sorted(panes, by_pane_number()).len(),
        sort::sorted(panes, by_pane_number())[i].tmux_pane == seq!['%'] + seqs::decimal(a as nat),
        sort::sorted(panes, by_pane_number())[j].tmux_pane == seq!['%'] + seqs::decimal(b as nat),
    ensures
        a <= b,
{
    let le = by_pane_number();
    sort::sorted_sound(panes, le);
    let all = sort::sorted(panes, le);
    assert(le(all[i], all[j]));
    number_behind_sigil(a);
    number_behind_sigil(b);
}

proof fn number_behind_sigil(a: u64)
    ensures
        pane_number(seq!['%'] + seqs::decimal(a as nat)) == a,
{
    let d = seqs::decimal(a as nat);
    let s = seq!['%'] + d;
    seqs::decimal_reads_back(a as nat);
    assert(s.drop_first() =~= d);
    assert(d[0] != '%');
    assert(without_sigil(s) == without_sigil(d));
}

/// The fields of a row are read back from its line: the session, when it changed, where it
/// works, its project and its first prompt; and those of a pane: the pane, its session and
/// where it works.
pub proof fn lines_hold_their_fields(row: &SessionRow, line: String, pane: &PaneSession, other: String)
    requires
        call_ensures(session_tsv, (row,), line),
        call_ensures(pane_tsv, (pane,), other),
        !row.session_id@.contains('\t'),
        !row.cwd@.contains('\t'),
        !row.project_dir@.contains('\t'),
        !row.first_prompt@.contains('\t'),
        !pane.tmux_pane@.contains('\t'),
        !pane.session_id@.contains('\t'),
        !pane.cwd@.contains('\t'),
    ensures
        seqs::split(line@, '\t') == seq![
            row.session_id@,
            seqs::decimal(row.modified_epoch as nat),
            row.cwd@,
            row.project_dir@,
            row.first_prompt@,
        ],
        seqs::split(other@, '\t') == seq![pane.tmux_pane@, pane.session_id@, pane.cwd@],
{
    reveal_strlit("\t");
    assert("\t"@ =~= seq!['\t']);
    let when = seqs::decimal(row.modified_epoch as nat);
    seqs::decimal_reads_back(row.modified_epoch as nat);
    assert(!when.contains('\t')) by {
        if when.contains('\t') {
            let i = choose|i: int| 0 <= i < when.len() && when[i] == '\t';
            assert(seqs::is_digit(when[i]));
        }
    }
    let parts = seq![row.session_id@, when, row.cwd@, row.project_dir@, row.first_prompt@];
    assert(parts.drop_last() =~= seq![row.session_id@, when, row.cwd@, row.project_dir@]);
    assert(parts.drop_last().drop_last() =~= seq![row.session_id@, when, row.cwd@]);
    assert(parts.drop_last().drop_last().drop_last() =~= seq![row.session_id@, when]);
    assert(parts.drop_last().drop_last().drop_last().drop_last() =~= seq![row.session_id@]);
    reveal_with_fuel(seqs::join, 6);
    assert(seqs::join(parts, seq!['\t']) =~= line@);
    seqs::split_undoes_join(parts, '\t');
    let three = seq![pane.tmux_pane@, pane.session_id@, pane.cwd@];
    assert(three.drop_last() =~= seq![pane.tmux_pane@, pane.session_id@]);
    assert(three.drop_last().drop_last() =~= seq![pane.tmux_pane@]);
    assert(seqs::join(three, seq!['\t']) =~= other@);
    seqs::split_undoes_join(three, '\t');
}

} // verus!
