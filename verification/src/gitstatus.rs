//! The state of a git worktree, from `git status --porcelain=v2 --branch`.
use crate::seqs;
use crate::text;
use vstd::prelude::*;

verus! {

/// The state of one worktree.
#[derive(Clone, Debug, PartialEq)]
pub struct GitStatus {
    /// The branch, or `(detached)`.
    pub branch: String,
    pub ahead: u32,
    pub behind: u32,
    /// There is a changed or an untracked path.
    pub dirty: bool,
    pub changed: u32,
    pub untracked: u32,
}

#[verifier::ext_equal]
pub struct GitView {
    pub branch: Seq<char>,
    pub ahead: nat,
    pub behind: nat,
    pub changed: nat,
    pub untracked: nat,
}

/// The count that a token writes; 0 where it writes none.
pub open spec fn count_of(s: Seq<char>) -> nat {
    match seqs::parse_uint(s, u32::MAX as nat) {
        Some(n) => n,
        None => 0,
    }
}

/// What the tokens of a `branch.ab` line say: `+A` is how far ahead, `-B` how far behind.
pub open spec fn with_tokens(g: GitView, tokens: Seq<Seq<char>>) -> GitView
    decreases tokens.len(),
{
    if tokens.len() == 0 {
        g
    } else {
        let head = with_tokens(g, tokens.drop_last());
        let t = tokens.last();
        if seqs::starts_with(t, "+"@) {
            GitView { ahead: count_of(t.skip(1)), ..head }
        } else if seqs::starts_with(t, "-"@) {
            GitView { behind: count_of(t.skip(1)), ..head }
        } else {
            head
        }
    }
}

/// What one more line adds.
pub open spec fn with_line(g: GitView, line: Seq<char>) -> GitView {
    match seqs::strip_prefix(line, "# branch.head "@) {
        Some(rest) => GitView { branch: seqs::trim(rest), ..g },
        None => match seqs::strip_prefix(line, "# branch.ab "@) {
            Some(rest) => with_tokens(g, seqs::words(rest)),
            None => if seqs::starts_with(line, "1 "@) || seqs::starts_with(line, "2 "@)
                || seqs::starts_with(line, "u "@) {
                GitView { changed: g.changed + 1, ..g }
            } else if seqs::starts_with(line, "? "@) {
                GitView { untracked: g.untracked + 1, ..g }
            } else {
                g
            },
        },
    }
}

pub open spec fn with_lines(g: GitView, lines: Seq<Seq<char>>) -> GitView
    decreases lines.len(),
{
    if lines.len() == 0 {
        g
    } else {
        with_line(with_lines(g, lines.drop_last()), lines.last())
    }
}

/// No branch, and all counts 0.
pub open spec fn clean() -> GitView {
    GitView { branch: Seq::empty(), ahead: 0, behind: 0, changed: 0, untracked: 0 }
}

/// What the output of the command says.
pub open spec fn git_status_of(out: Seq<char>) -> GitView {
    with_lines(clean(), seqs::lines(out))
}

spec fn view_of(branch: String, ahead: u32, behind: u32, changed: u32, untracked: u32) -> GitView {
    GitView {
        branch: branch@,
        ahead: ahead as nat,
        behind: behind as nat,
        changed: changed as nat,
        untracked: untracked as nat,
    }
}

fn count(s: &str) -> (r: u32)
    ensures
        r == count_of(s@),
{
    match text::parse_uint(s, u32::MAX as u64) {
        Some(n) => n as u32,
        None => 0,
    }
}

fn read_tokens(rest: &str, ahead: u32, behind: u32, Ghost(g): Ghost<GitView>) -> (r: (u32, u32))
    requires
        g.ahead == ahead,
        g.behind == behind,
    ensures
        with_tokens(g, seqs::words(rest@)) == (GitView {
            ahead: r.0 as nat,
            behind: r.1 as nat,
            ..g
        }),
{
    let tokens = text::words(rest);
    let ghost all = seqs::words(rest@);
    let mut a: u32 = ahead;
    let mut b: u32 = behind;
    let mut i: usize = 0;
    assert(all.take(0) =~= Seq::empty());
    while i < tokens.len()
        invariant
            i <= tokens@.len(),
            all == seqs::views(tokens@),
            with_tokens(g, all.take(i as int)) == (GitView {
                ahead: a as nat,
                behind: b as nat,
                ..g
            }),
        decreases tokens@.len() - i,
    {
        let t = tokens[i].as_str();
        proof {
            assert(all.take(i + 1).drop_last() =~= all.take(i as int));
            assert(all.take(i + 1).last() == t@);
            reveal_strlit("+");
            reveal_strlit("-");
        }
        if let Some(n) = text::strip_prefix(t, "+") {
            a = count(n.as_str());
        } else if let Some(n) = text::strip_prefix(t, "-") {
            b = count(n.as_str());
        }
        i += 1;
    }
    assert(all.take(tokens@.len() as int) =~= all);
    (a, b)
}

proof fn tokens_keep_counts(g: GitView, tokens: Seq<Seq<char>>)
    ensures
        with_tokens(g, tokens).changed == g.changed,
        with_tokens(g, tokens).untracked == g.untracked,
    decreases tokens.len(),
{
    if tokens.len() > 0 {
        tokens_keep_counts(g, tokens.drop_last());
    }
}

/// Reads the output of the command. Lines that it does not know are passed over.
pub fn parse_porcelain_v2(out: &str) -> (r: GitStatus)
    requires
        seqs::lines(out@).len() <= u32::MAX,
    ensures
        git_status_of(out@) == (GitView {
            branch: r.branch@,
            ahead: r.ahead as nat,
            behind: r.behind as nat,
            changed: r.changed as nat,
            untracked: r.untracked as nat,
        }),
        r.dirty == (r.changed > 0 || r.untracked > 0),
{
    let lines = text::lines(out);
    let ghost all = seqs::lines(out@);
    let mut branch = String::new();
    let mut ahead: u32 = 0;
    let mut behind: u32 = 0;
    let mut changed: u32 = 0;
    let mut untracked: u32 = 0;
    let mut i: usize = 0;
    proof {
        assert(all.take(0) =~= Seq::empty());
        assert(branch@ =~= Seq::empty());
    }
    while i < lines.len()
        invariant
            i <= lines@.len(),
            all == seqs::views(lines@),
            lines@.len() <= u32::MAX,
            changed <= i,
            untracked <= i,
            with_lines(clean(), all.take(i as int)) == view_of(
                branch,
                ahead,
                behind,
                changed,
                untracked,
            ),
        decreases lines@.len() - i,
    {
        let line = lines[i].as_str();
        let ghost g = view_of(branch, ahead, behind, changed, untracked);
        proof {
            assert(all.take(i + 1).drop_last() =~= all.take(i as int));
            assert(all.take(i + 1).last() == line@);
        }
        if let Some(rest) = text::strip_prefix(line, "# branch.head ") {
            branch = text::trim(rest.as_str());
        } else if let Some(rest) = text::strip_prefix(line, "# branch.ab ") {
            let (a, b) = read_tokens(rest.as_str(), ahead, behind, Ghost(g));
            ahead = a;
            behind = b;
        } else if text::starts_with(line, "1 ") || text::starts_with(line, "2 ")
            || text::starts_with(line, "u ") {
            changed = changed + 1;
        } else if text::starts_with(line, "? ") {
            untracked = untracked + 1;
        }
        i += 1;
    }
    assert(all.take(lines@.len() as int) =~= all);
    GitStatus {
        branch,
        ahead,
        behind,
        dirty: changed > 0 || untracked > 0,
        changed,
        untracked,
    }
}

/// What the outcome of the command means: no status where it failed, since the directory
/// is then no repository.
pub fn git_status_outcome(success: bool, stdout: &str) -> (r: Option<GitStatus>)
    requires
        seqs::lines(stdout@).len() <= u32::MAX,
    ensures
        r is Some <==> success,
        r matches Some(s) ==> git_status_of(stdout@) == (GitView {
            branch: s.branch@,
            ahead: s.ahead as nat,
            behind: s.behind as nat,
            changed: s.changed as nat,
            untracked: s.untracked as nat,
        }) && s.dirty == (s.changed > 0 || s.untracked > 0),
{
    if success {
        Some(parse_porcelain_v2(stdout))
    } else {
        None
    }
}

/// Whether a line is that of a tracked change or of an untracked path.
pub open spec fn is_entry(line: Seq<char>) -> bool {
    ||| seqs::starts_with(line, "1 "@)
    ||| seqs::starts_with(line, "2 "@)
    ||| seqs::starts_with(line, "u "@)
    ||| seqs::starts_with(line, "? "@)
}

proof fn headers_are_no_entries(line: Seq<char>)
    requires
        is_entry(line),
    ensures
        !seqs::starts_with(line, "# branch.head "@),
        !seqs::starts_with(line, "# branch.ab "@),
{
    reveal_strlit("1 ");
    reveal_strlit("2 ");
    reveal_strlit("u ");
    reveal_strlit("? ");
    reveal_strlit("# branch.head ");
    reveal_strlit("# branch.ab ");
    if seqs::starts_with(line, "# branch.head "@) {
        assert(line.take("# branch.head "@.len() as int)[0] == '#');
    }
    if seqs::starts_with(line, "# branch.ab "@) {
        assert(line.take("# branch.ab "@.len() as int)[0] == '#');
    }
    if seqs::starts_with(line, "1 "@) {
        assert(line.take(2)[0] == '1');
    }
    if seqs::starts_with(line, "2 "@) {
        assert(line.take(2)[0] == '2');
    }
    if seqs::starts_with(line, "u "@) {
        assert(line.take(2)[0] == 'u');
    }
    if seqs::starts_with(line, "? "@) {
        assert(line.take(2)[0] == '?');
    }
}

/// A worktree is dirty exactly if some line of the output is that of a tracked change or of
/// an untracked path; headers and ignored paths never make it so.
pub proof fn dirty_iff_entries(lines: Seq<Seq<char>>)
    ensures
        with_lines(clean(), lines).changed + with_lines(clean(), lines).untracked > 0
            <==> exists|i: int| 0 <= i < lines.len() && is_entry(#[trigger] lines[i]),
    decreases lines.len(),
{
    if lines.len() > 0 {
        let head = lines.drop_last();
        let g = with_lines(clean(), head);
        dirty_iff_entries(head);
        if let Some(rest) = seqs::strip_prefix(lines.last(), "# branch.ab "@) {
            tokens_keep_counts(g, seqs::words(rest));
        }
        if is_entry(lines.last()) {
            headers_are_no_entries(lines.last());
            assert(is_entry(lines[lines.len() - 1]));
        }
        if exists|i: int| 0 <= i < head.len() && is_entry(#[trigger] head[i]) {
            let i = choose|i: int| 0 <= i < head.len() && is_entry(#[trigger] head[i]);
            assert(is_entry(lines[i]));
        }
        if exists|i: int| 0 <= i < lines.len() && is_entry(#[trigger] lines[i]) {
            let i = choose|i: int| 0 <= i < lines.len() && is_entry(#[trigger] lines[i]);
            if i < head.len() {
                assert(is_entry(head[i]));
            }
        }
    }
}

/// The line tells of a path that was changed, renamed or left unmerged.
pub open spec fn tells_of_change(line: Seq<char>) -> bool {
    line.len() >= 2 && (line[0] == '1' || line[0] == '2' || line[0] == 'u') && line[1] == ' '
}

/// The line tells of a path that git does not track.
pub open spec fn tells_of_untracked(line: Seq<char>) -> bool {
    line.len() >= 2 && line[0] == '?' && line[1] == ' '
}

proof fn marks_are_their_characters(line: Seq<char>, c: char, mark: Seq<char>)
    requires
        mark == seq![c, ' '],
    ensures
        seqs::starts_with(line, mark) <==> line.len() >= 2 && line[0] == c && line[1] == ' ',
{
    if line.len() >= 2 {
        assert(line.take(2)[0] == line[0] && line.take(2)[1] == line[1]);
        if line[0] == c && line[1] == ' ' {
            assert(line.take(2) =~= mark);
        }
    }
}

proof fn lines_are_told_apart(line: Seq<char>)
    ensures
        tells_of_change(line) <==> seqs::starts_with(line, "1 "@) || seqs::starts_with(line, "2 "@)
            || seqs::starts_with(line, "u "@),
        tells_of_untracked(line) <==> seqs::starts_with(line, "? "@),
        tells_of_change(line) || tells_of_untracked(line) ==> !seqs::starts_with(
            line,
            "# branch.head "@,
        ) && !seqs::starts_with(line, "# branch.ab "@),
{
    reveal_strlit("1 ");
    reveal_strlit("2 ");
    reveal_strlit("u ");
    reveal_strlit("? ");
    reveal_strlit("# branch.head ");
    reveal_strlit("# branch.ab ");
    assert("1 "@ =~= seq!['1', ' ']);
    assert("2 "@ =~= seq!['2', ' ']);
    assert("u "@ =~= seq!['u', ' ']);
    assert("? "@ =~= seq!['?', ' ']);
    marks_are_their_characters(line, '1', "1 "@);
    marks_are_their_characters(line, '2', "2 "@);
    marks_are_their_characters(line, 'u', "u "@);
    marks_are_their_characters(line, '?', "? "@);
    if seqs::starts_with(line, "# branch.head "@) {
        assert(line.take("# branch.head "@.len() as int)[0] == line[0]);
    }
    if seqs::starts_with(line, "# branch.ab "@) {
        assert(line.take("# branch.ab "@.len() as int)[0] == line[0]);
    }
}

/// The changed paths and the untracked ones are counted, each by the lines that tell of it,
/// and nothing else is.
pub proof fn paths_are_counted_by_kind(lines: Seq<Seq<char>>)
    ensures
        with_lines(clean(), lines).changed == lines.filter(
            |l: Seq<char>| tells_of_change(l),
        ).len(),
        with_lines(clean(), lines).untracked == lines.filter(
            |l: Seq<char>| tells_of_untracked(l),
        ).len(),
    decreases lines.len(),
{
    reveal(Seq::filter);
    if lines.len() > 0 {
        paths_are_counted_by_kind(lines.drop_last());
        lines_are_told_apart(lines.last());
        let before = with_lines(clean(), lines.drop_last());
        if let Some(rest) = seqs::strip_prefix(lines.last(), "# branch.ab "@) {
            tokens_leave_paths(before, seqs::words(rest));
        }
    }
}

proof fn tokens_leave_paths(g: GitView, tokens: Seq<Seq<char>>)
    ensures
        with_tokens(g, tokens).changed == g.changed,
        with_tokens(g, tokens).untracked == g.untracked,
        with_tokens(g, tokens).branch == g.branch,
    decreases tokens.len(),
{
    if tokens.len() > 0 {
        tokens_leave_paths(g, tokens.drop_last());
    }
}

proof fn signed_is_word(sign: char, n: nat)
    requires
        !seqs::is_white(sign),
    ensures
        seqs::is_word(seq![sign] + seqs::decimal(n)),
{
    seqs::decimal_reads_back(n);
    let x = seq![sign] + seqs::decimal(n);
    assert forall|i: int| 0 <= i < x.len() implies !seqs::is_white(#[trigger] x[i]) by {
        if i > 0 {
            assert(x[i] == seqs::decimal(n)[i - 1]);
        }
    }
}

proof fn two_words(x: Seq<char>, y: Seq<char>)
    requires
        seqs::is_word(x),
        seqs::is_word(y),
    ensures
        seqs::words(x + " "@ + y) == seq![x, y],
{
    let ws = seq![x, y];
    reveal_strlit(" ");
    assert(" "@ =~= seq![' ']);
    assert(ws.drop_last() =~= seq![x]);
    assert(seqs::join(seq![x], seq![' ']) == x);
    assert(seqs::join(ws, seq![' ']) =~= x + " "@ + y);
    seqs::words_undo_join(ws);
}

proof fn counts_are_taken(g: GitView, a: nat, b: nat)
    requires
        a <= u32::MAX,
        b <= u32::MAX,
    ensures
        with_tokens(g, seq![seq!['+'] + seqs::decimal(a), seq!['-'] + seqs::decimal(b)]) == (
        GitView { ahead: a, behind: b, ..g }),
{
    reveal_strlit("+");
    reveal_strlit("-");
    seqs::decimal_reads_back(a);
    seqs::decimal_reads_back(b);
    let x = seq!['+'] + seqs::decimal(a);
    let y = seq!['-'] + seqs::decimal(b);
    let ws = seq![x, y];
    assert(ws.drop_last() =~= seq![x]);
    assert(ws.drop_last().drop_last() =~= Seq::empty());
    assert("+"@ =~= seq!['+'] && "-"@ =~= seq!['-']);
    assert(x.take(1) =~= "+"@);
    assert(y.take(1) =~= "-"@);
    assert(y.take(1)[0] == '-');
    assert(x.skip(1) =~= seqs::decimal(a));
    assert(y.skip(1) =~= seqs::decimal(b));
    assert(seqs::is_digit(seqs::decimal(a)[0]) && seqs::is_digit(seqs::decimal(b)[0]));
    assert(with_tokens(g, Seq::empty()) == g);
    assert(with_tokens(g, seq![x]) == (GitView { ahead: a, ..g }));
}

proof fn heads_are_no_counts(rest: Seq<char>)
    ensures
        !seqs::starts_with("# branch.ab "@ + rest, "# branch.head "@),
{
    reveal_strlit("# branch.head ");
    reveal_strlit("# branch.ab ");
    let p = "# branch.head "@;
    let line = "# branch.ab "@ + rest;
    if seqs::starts_with(line, p) {
        assert(line.take(p.len() as int)[9] == line[9]);
        assert(line[9] == "# branch.ab "@[9]);
    }
}

/// The header of the branch gives its name, and the one of the upstream how far the branch is
/// ahead, behind the plus sign, and how far it is behind, behind the minus sign; neither
/// changes anything else.
pub proof fn headers_are_read_back(g: GitView, name: Seq<char>, a: nat, b: nat)
    requires
        name.len() > 0 ==> !seqs::is_white(name[0]) && !seqs::is_white(name.last()),
        a <= u32::MAX,
        b <= u32::MAX,
    ensures
        with_line(g, "# branch.head "@ + name) == (GitView { branch: name, ..g }),
        with_line(g, "# branch.ab "@ + (seq!['+'] + seqs::decimal(a)) + " "@ + (seq!['-']
            + seqs::decimal(b))) == (GitView { ahead: a, behind: b, ..g }),
{
    let p = "# branch.head "@;
    let q = "# branch.ab "@;
    seqs::ends_of_concat(p, name);
    seqs::trim_takes_white_ends(Seq::empty(), name, Seq::empty());
    assert(Seq::<char>::empty() + name + Seq::<char>::empty() =~= name);
    let x = seq!['+'] + seqs::decimal(a);
    let y = seq!['-'] + seqs::decimal(b);
    let line = q + x + " "@ + y;
    let rest = x + " "@ + y;
    assert(line =~= q + rest);
    seqs::ends_of_concat(q, rest);
    heads_are_no_counts(rest);
    signed_is_word('+', a);
    signed_is_word('-', b);
    two_words(x, y);
    counts_are_taken(g, a, b);
    assert((q + rest).skip(q.len() as int) =~= rest);
    assert((p + name).skip(p.len() as int) =~= name);
}

} // verus!
