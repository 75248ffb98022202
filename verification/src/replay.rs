//! What is written to a terminal to show a pane as tmux has it: the screen alone, or the
//! screen below its history.
use crate::b64;
use crate::seqs;
use crate::status;
use crate::text;
use vstd::prelude::*;

verus! {

/// The longest capture, in bytes, of which a replay is made.
pub const CAPTURE_MAX: usize = 268_435_456;

// ── Rows ────────────────────────────────────────────────────────────────────────────────

/// The rows of a capture, which ends each row, the last one too, with a line feed.
pub open spec fn rows_of(capture: Seq<char>) -> Seq<Seq<char>> {
    seqs::split(
        match seqs::strip_suffix(capture, seq!['\n']) {
            Some(body) => body,
            None => capture,
        },
        '\n',
    )
}

/// A row that shows nothing.
pub open spec fn is_blank(row: Seq<char>) -> bool {
    seqs::trim(status::visible(row)).len() == 0
}

/// The rows without the blank ones in front.
pub open spec fn drop_blank_front(rows: Seq<Seq<char>>) -> Seq<Seq<char>>
    decreases rows.len(),
{
    if rows.len() > 0 && is_blank(rows[0]) {
        drop_blank_front(rows.drop_first())
    } else {
        rows
    }
}

/// The rows without the blank ones at the end.
pub open spec fn drop_blank_back(rows: Seq<Seq<char>>) -> Seq<Seq<char>>
    decreases rows.len(),
{
    if rows.len() > 0 && is_blank(rows.last()) {
        drop_blank_back(rows.drop_last())
    } else {
        rows
    }
}

/// The rows from the first that shows something to the last.
pub open spec fn filled(rows: Seq<Seq<char>>) -> Seq<Seq<char>> {
    drop_blank_back(drop_blank_front(rows))
}

fn row_is_blank(row: &str) -> (r: bool)
    ensures
        r == is_blank(row@),
{
    text::chars_of(text::trim(status::strip_ansi(row).as_str()).as_str()).len() == 0
}

/// The bounds between which [`filled`] rows lie.
fn filled_range(rows: &[String]) -> (r: (usize, usize))
    ensures
        r.0 <= r.1 <= rows@.len(),
        filled(seqs::views(rows@)) == seqs::views(rows@).subrange(r.0 as int, r.1 as int),
{
    let ghost all = seqs::views(rows@);
    let n: usize = rows.len();
    let mut a: usize = 0;
    assert(all.skip(0) =~= all);
    while a < n && row_is_blank(rows[a].as_str())
        invariant
            a <= n,
            n == rows@.len(),
            all == seqs::views(rows@),
            drop_blank_front(all) == drop_blank_front(all.skip(a as int)),
        decreases n - a,
    {
        assert(all.skip(a as int)[0] == rows@[a as int]@);
        assert(all.skip(a as int).drop_first() =~= all.skip(a + 1));
        a += 1;
    }
    proof {
        if a < n {
            assert(all.skip(a as int)[0] == rows@[a as int]@);
        }
        assert(drop_blank_front(all) == all.skip(a as int));
        assert(all.skip(a as int) =~= all.subrange(a as int, n as int));
    }
    let mut b: usize = n;
    while b > a && row_is_blank(rows[b - 1].as_str())
        invariant
            a <= b <= n,
            n == rows@.len(),
            all == seqs::views(rows@),
            filled(all) == drop_blank_back(all.subrange(a as int, b as int)),
        decreases b,
    {
        assert(all.subrange(a as int, b as int).last() == rows@[b - 1]@);
        assert(all.subrange(a as int, b as int).drop_last() =~= all.subrange(a as int, b - 1));
        b -= 1;
    }
    proof {
        if b > a {
            assert(all.subrange(a as int, b as int).last() == rows@[b - 1]@);
        }
    }
    (a, b)
}

/// The rows from `a` up to `b` with `sep` between each two.
fn join_rows(rows: &[String], a: usize, b: usize, sep: &str) -> (r: String)
    requires
        a <= b <= rows@.len(),
    ensures
        r@ == seqs::join(seqs::views(rows@).subrange(a as int, b as int), sep@),
{
    let mut out = String::new();
    let mut i: usize = a;
    let ghost all = seqs::views(rows@);
    assert(all.subrange(a as int, a as int) =~= Seq::<Seq<char>>::empty());
    while i < b
        invariant
            a <= i <= b <= rows@.len(),
            all == seqs::views(rows@),
            out@ == seqs::join(all.subrange(a as int, i as int), sep@),
        decreases b - i,
    {
        if i > a {
            out.append(sep);
        }
        out.append(rows[i].as_str());
        proof {
            let next = all.subrange(a as int, i + 1);
            assert(next.drop_last() =~= all.subrange(a as int, i as int));
            assert(next.last() == rows@[i as int]@);
            if i == a {
                assert(out@ =~= next[0]);
            }
        }
        i += 1;
    }
    out
}

fn capture_rows(capture: &str) -> (r: Vec<String>)
    ensures
        seqs::views(r@) == rows_of(capture@),
{
    proof {
        reveal_strlit("\n");
        assert("\n"@ =~= seq!['\n']);
    }
    match text::strip_suffix(capture, "\n") {
        Some(body) => text::split(body.as_str(), '\n'),
        None => text::split(capture, '\n'),
    }
}

/// The text without the blank lines before its first and after its last line that shows
/// something. Blank lines in between stay.
pub fn trim_blank_edges(s: &str) -> (r: String)
    ensures
        r@ == seqs::join(filled(seqs::split(s@, '\n')), "\n"@),
{
    let rows = text::split(s, '\n');
    let (a, b) = filled_range(&rows);
    join_rows(&rows, a, b, "\n")
}

// ── Replays ─────────────────────────────────────────────────────────────────────────────

/// Puts the cursor at (x, y), which count from 0; the terminal's own count starts at 1.
pub open spec fn cursor_text(cursor: Option<(u32, u32)>) -> Seq<char> {
    match cursor {
        Some((x, y)) => "\x1b["@ + seqs::decimal((y + 1) as nat) + ";"@ + seqs::decimal(
            (x + 1) as nat,
        ) + "H"@,
        None => Seq::empty(),
    }
}

/// Rows as a terminal takes them: each on a line of its own, and no line end after the last,
/// which would scroll the terminal.
pub open spec fn grid_text(rows: Seq<Seq<char>>) -> Seq<char> {
    seqs::join(rows, "\r\n"@)
}

/// What shows a capture of the screen.
pub open spec fn screen_text(capture: Seq<char>, cursor: Option<(u32, u32)>) -> Seq<char> {
    grid_text(rows_of(capture)) + cursor_text(cursor)
}

/// How many rows of a capture of `len` rows are history above a screen of `height` rows.
pub open spec fn history_len(len: nat, height: nat) -> nat {
    let shown = if height == 0 {
        1
    } else {
        height
    };
    if len > shown {
        (len - shown) as nat
    } else {
        0
    }
}

/// What shows the history: its filled rows, each with a line end; nothing where there are
/// none.
pub open spec fn history_text(rows: Seq<Seq<char>>) -> Seq<char> {
    if filled(rows).len() == 0 {
        Seq::empty()
    } else {
        grid_text(filled(rows)) + "\r\n"@
    }
}

/// What shows a capture of the history and, in its last `height` rows, of the screen.
pub open spec fn warm_text(capture: Seq<char>, height: nat, cursor: Option<(u32, u32)>) -> Seq<
    char,
> {
    let rows = rows_of(capture);
    let cut = history_len(rows.len(), height) as int;
    history_text(rows.take(cut)) + grid_text(rows.skip(cut)) + cursor_text(cursor)
}

/// What shows a capture of history and screen where the size of the screen is not known.
pub open spec fn plain_text(capture: Seq<char>) -> Seq<char> {
    grid_text(filled(seqs::split(capture, '\n')))
}

fn append_cursor(out: &mut String, cursor: Option<(u32, u32)>)
    ensures
        final(out)@ == old(out)@ + cursor_text(cursor),
{
    if let Some((x, y)) = cursor {
        let mut at = "\x1b[".to_owned();
        at.append(text::decimal(y as u64 + 1).as_str());
        at.append(";");
        at.append(text::decimal(x as u64 + 1).as_str());
        at.append("H");
        out.append(at.as_str());
    } else {
        assert(out@ + cursor_text(cursor) =~= out@);
    }
}

/// What shows a capture of the screen: its rows as they are, blank ones too, then the
/// cursor.
pub fn compose_screen_replay(capture: &str, cursor: Option<(u32, u32)>) -> (r: String)
    ensures
        r@ == screen_text(capture@, cursor),
{
    let rows = capture_rows(capture);
    let mut out = text::join(&rows, "\r\n");
    append_cursor(&mut out, cursor);
    out
}

/// What shows a capture of the whole history and the screen: the last `pane_height` rows
/// are the screen and are shown as they are; of the rows above, the blank ones at the edges
/// are left out.
pub fn compose_warm_start(capture: &str, pane_height: usize, cursor: Option<(u32, u32)>) -> (r:
    String)
    ensures
        r@ == warm_text(capture@, pane_height as nat, cursor),
{
    let rows = capture_rows(capture);
    let n: usize = rows.len();
    let shown: usize = if pane_height == 0 {
        1
    } else {
        pane_height
    };
    let cut: usize = if n > shown {
        n - shown
    } else {
        0
    };
    let ghost all = seqs::views(rows@);
    let head = vstd::slice::slice_subrange(rows.as_slice(), 0, cut);
    assert(seqs::views(head@) =~= all.take(cut as int));
    let (a, b) = filled_range(head);
    let mut out = String::new();
    if a < b {
        out = join_rows(head, a, b, "\r\n");
        out.append("\r\n");
    }
    assert(out@ =~= history_text(all.take(cut as int)));
    let grid = join_rows(&rows, cut, n, "\r\n");
    assert(all.subrange(cut as int, n as int) =~= all.skip(cut as int));
    out.append(grid.as_str());
    append_cursor(&mut out, cursor);
    out
}

/// What shows a capture where the size of the screen is not known: all of it but the blank
/// lines at the edges.
pub fn compose_plain(capture: &str) -> (r: String)
    ensures
        r@ == plain_text(capture@),
{
    let rows = text::split(capture, '\n');
    let (a, b) = filled_range(&rows);
    join_rows(&rows, a, b, "\r\n")
}

// ── Numbers that tmux prints ────────────────────────────────────────────────────────────

/// The first `n` words as numbers that fit in 32 bits; `None` where there are fewer or one
/// is no such number.
pub open spec fn numbers(words: Seq<Seq<char>>, n: nat) -> Option<Seq<u32>>
    decreases n,
{
    if n == 0 {
        Some(Seq::empty())
    } else if words.len() < n {
        None
    } else {
        match (numbers(words, (n - 1) as nat), seqs::parse_uint(words[n - 1], u32::MAX as nat)) {
            (Some(head), Some(v)) => Some(head.push(v as u32)),
            _ => None,
        }
    }
}

proof fn numbers_fail(words: Seq<Seq<char>>, m: nat, n: nat)
    requires
        m <= n,
        numbers(words, m) is None,
    ensures
        numbers(words, n) is None,
    decreases n,
{
    if m < n {
        numbers_fail(words, m, (n - 1) as nat);
    }
}

/// The first `n` words of `s` as numbers. Words beyond are ignored.
pub fn parse_u32_fields(s: &str, n: usize) -> (r: Option<Vec<u32>>)
    ensures
        (match r {
            Some(v) => numbers(seqs::words(s@), n as nat) == Some(v@),
            None => numbers(seqs::words(s@), n as nat) is None,
        }),
{
    let words = text::words(s);
    if words.len() < n {
        return None;
    }
    let mut out: Vec<u32> = Vec::new();
    let mut i: usize = 0;
    assert(out@ =~= Seq::<u32>::empty());
    while i < n
        invariant
            i <= n <= words@.len(),
            seqs::views(words@) == seqs::words(s@),
            numbers(seqs::words(s@), i as nat) == Some(out@),
        decreases n - i,
    {
        assert(seqs::words(s@)[i as int] == words@[i as int]@);
        match text::parse_uint(words[i].as_str(), 0xffff_ffff) {
            Some(v) => {
                out.push(v as u32);
            },
            None => {
                proof {
                    numbers_fail(seqs::words(s@), (i + 1) as nat, n as nat);
                }
                return None;
            },
        }
        i += 1;
    }
    Some(out)
}

// ── What holds of replays ───────────────────────────────────────────────────────────────

/// How many line feeds `s` holds.
pub open spec fn line_feeds(s: Seq<char>) -> nat
    decreases s.len(),
{
    if s.len() == 0 {
        0
    } else {
        line_feeds(s.drop_last()) + (if s.last() == '\n' {
            1nat
        } else {
            0
        })
    }
}

proof fn line_feeds_concat(a: Seq<char>, b: Seq<char>)
    ensures
        line_feeds(a + b) == line_feeds(a) + line_feeds(b),
    decreases b.len(),
{
    if b.len() == 0 {
        assert(a + b =~= a);
    } else {
        assert((a + b).drop_last() =~= a + b.drop_last());
        line_feeds_concat(a, b.drop_last());
    }
}

proof fn no_line_feeds(s: Seq<char>)
    requires
        !s.contains('\n'),
    ensures
        line_feeds(s) == 0,
    decreases s.len(),
{
    if s.len() > 0 {
        assert(s.last() == s[s.len() - 1]);
        assert forall|i: int| 0 <= i < s.drop_last().len() implies s.drop_last()[i] != '\n' by {
            assert(s.drop_last()[i] == s[i]);
        }
        no_line_feeds(s.drop_last());
    }
}

/// No row holds a line feed.
pub open spec fn are_rows(rows: Seq<Seq<char>>) -> bool {
    forall|i: int| 0 <= i < rows.len() ==> !(#[trigger] rows[i]).contains('\n')
}

proof fn split_gives_rows(s: Seq<char>)
    ensures
        are_rows(seqs::split(s, '\n')),
        seqs::split(s, '\n').len() > 0,
    decreases s.len(),
{
    seqs::index_of_bounds(s, '\n');
    let k = seqs::index_of(s, '\n');
    let rows = seqs::split(s, '\n');
    if k < s.len() {
        let rest = s.skip(k + 1);
        split_gives_rows(rest);
        let tail = seqs::split(rest, '\n');
        assert(rows =~= seq![s.take(k)] + tail);
        assert forall|i: int| 0 <= i < rows.len() implies !(#[trigger] rows[i]).contains('\n') by {
            if i == 0 {
                assert forall|j: int| 0 <= j < k implies s.take(k)[j] != '\n' by {
                    assert(s.take(k)[j] == s[j]);
                }
            } else {
                assert(rows[i] == tail[i - 1]);
            }
        }
    } else {
        assert(rows =~= seq![s]);
    }
}

/// Rows are written with one line feed fewer than there are rows, so that as many rows as
/// the terminal has never scroll it.
pub proof fn grid_never_scrolls(rows: Seq<Seq<char>>)
    requires
        are_rows(rows),
        rows.len() > 0,
    ensures
        line_feeds(grid_text(rows)) == rows.len() - 1,
    decreases rows.len(),
{
    no_line_feeds(rows.last());
    if rows.len() == 1 {
        assert(rows[0] == rows.last());
    } else {
        let head = rows.drop_last();
        assert forall|i: int| 0 <= i < head.len() implies !(#[trigger] head[i]).contains('\n') by {
            assert(head[i] == rows[i]);
        }
        grid_never_scrolls(head);
        reveal_strlit("\r\n");
        assert("\r\n"@ =~= seq!['\r', '\n']);
        let sep = "\r\n"@;
        assert(sep.drop_last() =~= seq!['\r']);
        assert(seq!['\r'].drop_last() =~= Seq::<char>::empty());
        assert(line_feeds(Seq::<char>::empty()) == 0);
        assert(line_feeds(seq!['\r']) == 0);
        assert(line_feeds(sep) == 1);
        line_feeds_concat(grid_text(head), sep);
        line_feeds_concat(grid_text(head) + sep, rows.last());
    }
}

/// A warm start ends in the last rows of the capture, at most as many as the screen has and
/// all of them where there are no more; none of them is left out or moved, and they do not
/// scroll the screen.
pub proof fn warm_start_ends_in_the_screen(
    capture: Seq<char>,
    height: nat,
    cursor: Option<(u32, u32)>,
)
    requires
        height > 0,
    ensures
        ({
            let rows = rows_of(capture);
            let cut = history_len(rows.len(), height);
            let screen = rows.skip(cut as int);
            &&& seqs::ends_with(
                warm_text(capture, height, cursor),
                grid_text(screen) + cursor_text(cursor),
            )
            &&& 0 < screen.len() <= height
            &&& rows.len() <= height ==> screen == rows
            &&& line_feeds(grid_text(screen)) == screen.len() - 1 < height
        }),
{
    let rows = rows_of(capture);
    let cut = history_len(rows.len(), height) as int;
    let screen = rows.skip(cut);
    let body = match seqs::strip_suffix(capture, seq!['\n']) {
        Some(body) => body,
        None => capture,
    };
    split_gives_rows(body);
    assert forall|i: int| 0 <= i < screen.len() implies !(#[trigger] screen[i]).contains('\n') by {
        assert(screen[i] == rows[cut + i]);
    }
    grid_never_scrolls(screen);
    let head = history_text(rows.take(cut));
    let tail = grid_text(screen) + cursor_text(cursor);
    let all = warm_text(capture, height, cursor);
    assert(all =~= head + tail);
    assert(all.skip(all.len() - tail.len()) =~= tail);
    if rows.len() <= height {
        assert(screen =~= rows);
    }
}

/// The characters of all rows.
spec fn total(rows: Seq<Seq<char>>) -> nat
    decreases rows.len(),
{
    if rows.len() == 0 {
        0
    } else {
        total(rows.drop_last()) + seqs::byte_len(rows.last())
    }
}

proof fn total_concat(a: Seq<Seq<char>>, b: Seq<Seq<char>>)
    ensures
        total(a + b) == total(a) + total(b),
    decreases b.len(),
{
    if b.len() == 0 {
        assert(a + b =~= a);
    } else {
        assert((a + b).drop_last() =~= a + b.drop_last());
        total_concat(a, b.drop_last());
    }
}

proof fn byte_len_one(c: char)
    requires
        c == '\n' || c == '\r',
    ensures
        seqs::byte_len(seq![c]) == 1,
{
    seqs::byte_len_first(seq![c]);
    assert(seq![c].drop_first() =~= Seq::empty());
}

proof fn total_of_split(s: Seq<char>)
    ensures
        total(seqs::split(s, '\n')) + seqs::split(s, '\n').len() == seqs::byte_len(s) + 1,
    decreases s.len(),
{
    seqs::index_of_bounds(s, '\n');
    let k = seqs::index_of(s, '\n');
    reveal_with_fuel(total, 2);
    if k < s.len() {
        let rest = s.skip(k + 1);
        total_of_split(rest);
        total_concat(seq![s.take(k)], seqs::split(rest, '\n'));
        assert(seq![s.take(k)].drop_last() =~= Seq::<Seq<char>>::empty());
        assert(s =~= s.take(k) + seq!['\n'] + rest);
        byte_len_one('\n');
        seqs::byte_len_concat(s.take(k), seq!['\n']);
        seqs::byte_len_concat(s.take(k) + seq!['\n'], rest);
    } else {
        assert(seq![s].drop_last() =~= Seq::<Seq<char>>::empty());
    }
}

proof fn line_end_len()
    ensures
        seqs::byte_len("\r\n"@) == 2,
{
    reveal_strlit("\r\n");
    assert("\r\n"@ =~= seq!['\r'] + seq!['\n']);
    byte_len_one('\r');
    byte_len_one('\n');
    seqs::byte_len_concat(seq!['\r'], seq!['\n']);
}

proof fn grid_len(rows: Seq<Seq<char>>)
    ensures
        seqs::byte_len(grid_text(rows)) <= total(rows) + 2 * rows.len(),
    decreases rows.len(),
{
    if rows.len() == 1 {
        assert(rows[0] == rows.last());
    } else if rows.len() > 1 {
        let head = grid_text(rows.drop_last());
        grid_len(rows.drop_last());
        line_end_len();
        seqs::byte_len_concat(head, "\r\n"@);
        seqs::byte_len_concat(head + "\r\n"@, rows.last());
    }
}

proof fn filled_len(rows: Seq<Seq<char>>)
    ensures
        filled(rows).len() <= rows.len(),
        total(filled(rows)) <= total(rows),
{
    drop_front_len(rows);
    drop_back_len(drop_blank_front(rows));
}

proof fn drop_front_len(rows: Seq<Seq<char>>)
    ensures
        drop_blank_front(rows).len() <= rows.len(),
        total(drop_blank_front(rows)) <= total(rows),
    decreases rows.len(),
{
    if rows.len() > 0 && is_blank(rows[0]) {
        drop_front_len(rows.drop_first());
        assert(seq![rows[0]] + rows.drop_first() =~= rows);
        total_concat(seq![rows[0]], rows.drop_first());
    }
}

proof fn drop_back_len(rows: Seq<Seq<char>>)
    ensures
        drop_blank_back(rows).len() <= rows.len(),
        total(drop_blank_back(rows)) <= total(rows),
    decreases rows.len(),
{
    if rows.len() > 0 && is_blank(rows.last()) {
        drop_back_len(rows.drop_last());
    }
}

proof fn decimal_len(n: nat)
    requires
        n <= 0x1_0000_0000,
    ensures
        seqs::decimal(n).len() <= 10,
{
    reveal_with_fuel(seqs::decimal, 11);
}

proof fn byte_len_bound(s: Seq<char>)
    ensures
        seqs::byte_len(s) <= 4 * s.len(),
    decreases s.len(),
{
    if s.len() > 0 {
        seqs::byte_len_first(s);
        byte_len_bound(s.drop_first());
    }
}

proof fn cursor_len(cursor: Option<(u32, u32)>)
    ensures
        seqs::byte_len(cursor_text(cursor)) <= 96,
{
    if let Some((x, y)) = cursor {
        decimal_len((x + 1) as nat);
        decimal_len((y + 1) as nat);
        reveal_strlit("\x1b[");
        reveal_strlit(";");
        reveal_strlit("H");
    }
    assert(cursor_text(cursor).len() <= 24);
    byte_len_bound(cursor_text(cursor));
}

/// A replay takes at most twice the bytes of its capture, and a few for the cursor.
pub proof fn replays_are_short(capture: Seq<char>, height: nat, cursor: Option<(u32, u32)>)
    ensures
        seqs::byte_len(screen_text(capture, cursor)) <= 2 * seqs::byte_len(capture) + 100,
        seqs::byte_len(warm_text(capture, height, cursor)) <= 2 * seqs::byte_len(capture) + 100,
        seqs::byte_len(plain_text(capture)) <= 2 * seqs::byte_len(capture) + 100,
{
    let body = match seqs::strip_suffix(capture, seq!['\n']) {
        Some(body) => body,
        None => capture,
    };
    assert(seqs::byte_len(body) <= seqs::byte_len(capture)) by {
        if seqs::strip_suffix(capture, seq!['\n']) is Some {
            assert(capture =~= body + seq!['\n']);
            seqs::byte_len_concat(body, seq!['\n']);
        }
    }
    let rows = rows_of(capture);
    total_of_split(body);
    grid_len(rows);
    cursor_len(cursor);
    seqs::byte_len_concat(grid_text(rows), cursor_text(cursor));
    let cut = history_len(rows.len(), height) as int;
    let head = rows.take(cut);
    let tail = rows.skip(cut);
    assert(head + tail =~= rows);
    total_concat(head, tail);
    filled_len(head);
    grid_len(filled(head));
    grid_len(tail);
    line_end_len();
    seqs::byte_len_concat(grid_text(filled(head)), "\r\n"@);
    seqs::byte_len_concat(history_text(head), grid_text(tail));
    seqs::byte_len_concat(history_text(head) + grid_text(tail), cursor_text(cursor));
    let lines = seqs::split(capture, '\n');
    total_of_split(capture);
    filled_len(lines);
    grid_len(filled(lines));
}

/// What shows a capture of up to [`CAPTURE_MAX`] bytes, with its history or without, can be
/// encoded on any machine.
pub proof fn captures_fit(capture: Seq<char>, height: nat, cursor: Option<(u32, u32)>)
    requires
        seqs::byte_len(capture) <= CAPTURE_MAX,
    ensures
        b64::can_encode(seqs::byte_len(screen_text(capture, cursor))),
        b64::can_encode(seqs::byte_len(warm_text(capture, height, cursor))),
        b64::can_encode(seqs::byte_len(plain_text(capture))),
{
    replays_are_short(capture, height, cursor);
}

/// A capture of rows is shown row by row, in their order; then the cursor is put into the row
/// and the column that were given, which the terminal counts from 1.
pub proof fn screens_are_shown_row_by_row(rows: Seq<Seq<char>>, x: u32, y: u32)
    requires
        rows.len() > 0,
        are_rows(rows),
    ensures
        rows_of(seqs::join(rows, seq!['\n']) + seq!['\n']) == rows,
        screen_text(seqs::join(rows, seq!['\n']) + seq!['\n'], None) == seqs::join(rows, "\r\n"@),
        screen_text(seqs::join(rows, seq!['\n']) + seq!['\n'], Some((x, y))) == seqs::join(
            rows,
            "\r\n"@,
        ) + "\x1b["@ + seqs::decimal((y + 1) as nat) + ";"@ + seqs::decimal((x + 1) as nat) + "H"@,
{
    let body = seqs::join(rows, seq!['\n']);
    let capture = body + seq!['\n'];
    captured(rows);
    let grid = seqs::join(rows, "\r\n"@);
    assert(grid + Seq::<char>::empty() =~= grid);
    assert(screen_text(capture, Some((x, y))) =~= grid + "\x1b["@ + seqs::decimal((y + 1) as nat)
        + ";"@ + seqs::decimal((x + 1) as nat) + "H"@);
}

proof fn captured(rows: Seq<Seq<char>>)
    requires
        rows.len() > 0,
        are_rows(rows),
    ensures
        rows_of(seqs::join(rows, seq!['\n']) + seq!['\n']) == rows,
{
    let body = seqs::join(rows, seq!['\n']);
    let capture = body + seq!['\n'];
    assert(capture.skip(capture.len() - 1) =~= seq!['\n']);
    assert(capture.take(capture.len() - 1) =~= body);
    assert(seqs::strip_suffix(capture, seq!['\n']) == Some(body));
    seqs::split_undoes_join(rows, '\n');
}

proof fn blank_front(blank: Seq<Seq<char>>, rows: Seq<Seq<char>>)
    requires
        forall|i: int| 0 <= i < blank.len() ==> is_blank(#[trigger] blank[i]),
        rows.len() > 0,
        !is_blank(rows[0]),
    ensures
        drop_blank_front(blank + rows) == rows,
    decreases blank.len(),
{
    if blank.len() > 0 {
        let all = blank + rows;
        let rest = blank.drop_first();
        assert(all[0] == blank[0]);
        assert(all.drop_first() =~= rest + rows);
        assert forall|i: int| 0 <= i < rest.len() implies is_blank(#[trigger] rest[i]) by {
            assert(rest[i] == blank[i + 1]);
        }
        blank_front(rest, rows);
    } else {
        assert(blank + rows =~= rows);
    }
}

proof fn blank_back(rows: Seq<Seq<char>>, blank: Seq<Seq<char>>)
    requires
        forall|i: int| 0 <= i < blank.len() ==> is_blank(#[trigger] blank[i]),
        rows.len() > 0,
        !is_blank(rows.last()),
    ensures
        drop_blank_back(rows + blank) == rows,
    decreases blank.len(),
{
    if blank.len() > 0 {
        let all = rows + blank;
        let rest = blank.drop_last();
        assert(all.last() == blank[blank.len() - 1]);
        assert(all.drop_last() =~= rows + rest);
        assert forall|i: int| 0 <= i < rest.len() implies is_blank(#[trigger] rest[i]) by {
            assert(rest[i] == blank[i]);
        }
        blank_back(rows, rest);
    } else {
        assert(rows + blank =~= rows);
    }
}

/// A warm start shows the history, without the blank rows at its edges, and below it, as it
/// is, the screen: the last rows of the capture, as many as the pane is high.
pub proof fn history_stands_above_the_screen(
    before: Seq<Seq<char>>,
    history: Seq<Seq<char>>,
    after: Seq<Seq<char>>,
    screen: Seq<Seq<char>>,
)
    requires
        are_rows(before + history + after + screen),
        forall|i: int| 0 <= i < before.len() ==> is_blank(#[trigger] before[i]),
        forall|i: int| 0 <= i < after.len() ==> is_blank(#[trigger] after[i]),
        history.len() > 0,
        !is_blank(history[0]),
        !is_blank(history.last()),
        screen.len() > 0,
    ensures
        warm_text(
            seqs::join(before + history + after + screen, seq!['\n']) + seq!['\n'],
            screen.len(),
            None,
        ) == seqs::join(history, "\r\n"@) + "\r\n"@ + seqs::join(screen, "\r\n"@),
{
    let above = before + history + after;
    let rows = above + screen;
    captured(rows);
    assert(rows.take(above.len() as int) =~= above);
    assert(rows.skip(above.len() as int) =~= screen);
    assert(above =~= before + (history + after));
    assert((history + after)[0] == history[0]);
    blank_front(before, history + after);
    blank_back(history, after);
    let text = seqs::join(history, "\r\n"@) + "\r\n"@ + seqs::join(screen, "\r\n"@);
    assert(text + Seq::<char>::empty() =~= text);
}

/// Without a screen to go by, all rows from the first that shows something to the last are
/// shown.
pub proof fn plain_replays_show_what_is_filled(
    before: Seq<Seq<char>>,
    rows: Seq<Seq<char>>,
    after: Seq<Seq<char>>,
)
    requires
        are_rows(before + rows + after),
        forall|i: int| 0 <= i < before.len() ==> is_blank(#[trigger] before[i]),
        forall|i: int| 0 <= i < after.len() ==> is_blank(#[trigger] after[i]),
        rows.len() > 0,
        !is_blank(rows[0]),
        !is_blank(rows.last()),
    ensures
        plain_text(seqs::join(before + rows + after, seq!['\n'])) == seqs::join(rows, "\r\n"@),
{
    let all = before + rows + after;
    seqs::split_undoes_join(all, '\n');
    assert(all =~= before + (rows + after));
    assert((rows + after)[0] == rows[0]);
    blank_front(before, rows + after);
    blank_back(rows, after);
}

/// Numbers that tmux prints with a space between each two are read back, in their order.
pub proof fn printed_numbers_are_read_back(ns: Seq<u32>)
    ensures
        numbers(ns.map_values(|n: u32| seqs::decimal(n as nat)), ns.len()) == Some(ns),
    decreases ns.len(),
{
    numbers_from(ns, ns.len());
    assert(ns.take(ns.len() as int) =~= ns);
}

proof fn numbers_from(ns: Seq<u32>, k: nat)
    requires
        k <= ns.len(),
    ensures
        numbers(ns.map_values(|n: u32| seqs::decimal(n as nat)), k) == Some(ns.take(k as int)),
    decreases k,
{
    let ws = ns.map_values(|n: u32| seqs::decimal(n as nat));
    if k > 0 {
        numbers_from(ns, (k - 1) as nat);
        let n = ns[k - 1];
        seqs::decimal_reads_back(n as nat);
        assert(ws[k - 1] == seqs::decimal(n as nat));
        assert(seqs::parse_uint(ws[k - 1], u32::MAX as nat) == Some(n as nat));
        assert(ns.take(k as int) =~= ns.take(k - 1).push(n));
    } else {
        assert(ns.take(0) =~= Seq::empty());
    }
}

} // verus!
