//! What a program started from the desktop has to mend in its environment: a `PATH` that
//! finds its tools, and a locale in which tmux leaves tabs alone.
use crate::seqs;
use crate::text;
use crate::tmux;
use vstd::prelude::*;

verus! {

/// What the shell is asked to print before and after its `PATH`.
pub const OPEN: &'static str = "__CCPATH__";

pub const CLOSE: &'static str = "__CCEND__";

/// The text between the first opening mark and the first closing one; `None` where one is
/// missing or there is nothing between them.
pub open spec fn captured(stdout: Seq<char>) -> Option<Seq<char>> {
    match (seqs::find_from(stdout, "__CCPATH__"@, 0), seqs::find_from(stdout, "__CCEND__"@, 0)) {
        (Some(a), Some(b)) => if b <= a + 10 {
            None
        } else {
            Some(stdout.subrange(a + 10, b))
        },
        _ => None,
    }
}

/// The `PATH` that a login shell printed between the marks. One entry alone is believed only
/// where it is a directory, as `is_dir` tells: a shell may have joined its entries with
/// spaces.
pub fn parse_path_capture<F: Fn(&str) -> bool>(stdout: &str, is_dir: F) -> (r: Option<String>)
    requires
        forall|p: &str| call_requires(is_dir, (p,)),
    ensures
        (match captured(stdout@) {
            None => r is None,
            Some(path) => if path.contains(':') {
                seqs::opt_view(r) == Some(path)
            } else {
                ||| seqs::opt_view(r) == Some(path) && tmux::answered(is_dir, path, true)
                ||| r is None && tmux::answered(is_dir, path, false)
            },
        }),
{
    let a = match text::find(stdout, OPEN) {
        Some(a) => a,
        None => {
            return None;
        },
    };
    let b = match text::find(stdout, CLOSE) {
        Some(b) => b,
        None => {
            return None;
        },
    };
    proof {
        reveal_strlit("__CCPATH__");
        seqs::find_from_meaning(stdout@, "__CCPATH__"@, 0);
        seqs::find_from_meaning(stdout@, "__CCEND__"@, 0);
    }
    let cs = text::chars_of(stdout);
    let n: usize = cs.len();
    assert(a + 10 <= n);
    let start: usize = a + 10;
    if b <= start {
        return None;
    }
    let path = text::string_of(&cs, start, b);
    let colon = text::index_from(&text::chars_of(path.as_str()), ':', 0);
    proof {
        assert(path@.skip(0) =~= path@);
        seqs::index_of_bounds(path@, ':');
        if colon < path@.len() {
            assert(path@[colon as int] == ':');
        }
    }
    if colon < text::chars_of(path.as_str()).len() {
        return Some(path);
    }
    let there = is_dir(path.as_str());
    if there {
        Some(path)
    } else {
        None
    }
}

/// The parts that are not empty.
pub open spec fn non_empty(parts: Seq<Seq<char>>) -> Seq<Seq<char>>
    decreases parts.len(),
{
    if parts.len() == 0 {
        Seq::empty()
    } else {
        let head = non_empty(parts.drop_last());
        if parts.last().len() > 0 {
            head.push(parts.last())
        } else {
            head
        }
    }
}

/// The parts with `dir` behind them, unless it is among them.
pub open spec fn with_dir(parts: Seq<Seq<char>>, dir: Seq<char>) -> Seq<Seq<char>> {
    if parts.contains(dir) {
        parts
    } else {
        parts.push(dir)
    }
}

/// The entries of a `PATH`, with the usual directories of package managers behind them.
pub open spec fn widened(path: Seq<char>) -> Seq<Seq<char>> {
    with_dir(
        with_dir(non_empty(seqs::split(path, ':')), "/opt/homebrew/bin"@),
        "/usr/local/bin"@,
    )
}

/// The `PATH` to be set: what the login shell printed, where that could be read; otherwise
/// the current one, widened.
pub fn repair_path_for_gui(captured: Option<String>, current: &str) -> (r: String)
    ensures
        (match captured {
            Some(path) => r@ == path@,
            None => r@ == seqs::join(widened(current@), ":"@),
        }),
{
    if let Some(path) = captured {
        return path;
    }
    let all = text::split(current, ':');
    let ghost parts_seq = seqs::views(all@);
    let mut parts: Vec<String> = Vec::new();
    let mut i: usize = 0;
    assert(seqs::views(parts@) =~= Seq::empty());
    assert(parts_seq.take(0) =~= Seq::empty());
    while i < all.len()
        invariant
            i <= all@.len(),
            parts_seq == seqs::views(all@),
            seqs::views(parts@) == non_empty(parts_seq.take(i as int)),
        decreases all@.len() - i,
    {
        let ghost before = parts@;
        proof {
            assert(parts_seq.take(i + 1).drop_last() =~= parts_seq.take(i as int));
            assert(parts_seq.take(i + 1).last() == all@[i as int]@);
        }
        if text::chars_of(all[i].as_str()).len() > 0 {
            parts.push(all[i].clone());
            assert(seqs::views(parts@) =~= seqs::views(before).push(all@[i as int]@));
        }
        i += 1;
    }
    assert(parts_seq.take(parts_seq.len() as int) =~= parts_seq);
    push_dir(&mut parts, "/opt/homebrew/bin");
    push_dir(&mut parts, "/usr/local/bin");
    text::join(&parts, ":")
}

fn push_dir(parts: &mut Vec<String>, dir: &str)
    ensures
        seqs::views(final(parts)@) == with_dir(seqs::views(old(parts)@), dir@),
{
    if !text::has_string(parts.as_slice(), dir) {
        let ghost before = parts@;
        parts.push(dir.to_owned());
        assert(seqs::views(parts@) =~= seqs::views(before).push(dir@));
    }
}

/// Widening a `PATH` takes nothing away and changes no order: the entries that were there
/// come first, and both directories are among the result.
pub proof fn widening_only_adds(path: Seq<char>)
    ensures
        ({
            let before = non_empty(seqs::split(path, ':'));
            let after = widened(path);
            &&& before.len() <= after.len() <= before.len() + 2
            &&& after.take(before.len() as int) == before
            &&& after.contains("/opt/homebrew/bin"@)
            &&& after.contains("/usr/local/bin"@)
        }),
{
    let before = non_empty(seqs::split(path, ':'));
    let a = "/opt/homebrew/bin"@;
    let b = "/usr/local/bin"@;
    let mid = with_dir(before, a);
    let after = with_dir(mid, b);
    assert(after.take(before.len() as int) =~= before);
    assert(mid.contains(a)) by {
        if !before.contains(a) {
            assert(mid[before.len() as int] == a);
        }
    }
    let i = choose|i: int| 0 <= i < mid.len() && mid[i] == a;
    assert(after[i] == a);
    if !mid.contains(b) {
        assert(after[mid.len() as int] == b);
    }
}

/// A locale that is in UTF-8, whatever the case of its letters.
pub open spec fn is_utf8_locale(v: Seq<char>) -> bool {
    seqs::has_text(seqs::ascii_lower(v), "utf-8"@) || seqs::has_text(
        seqs::ascii_lower(v),
        "utf8"@,
    )
}

/// Whether none of the values of the locale's variables is in UTF-8.
pub fn needs_utf8_locale(vals: &[Option<String>]) -> (r: bool)
    ensures
        r == (forall|i: int|
            0 <= i < vals@.len() ==> ((#[trigger] vals@[i]) matches Some(v) ==> !is_utf8_locale(
                v@,
            ))),
{
    let mut i: usize = 0;
    while i < vals.len()
        invariant
            i <= vals@.len(),
            forall|j: int|
                0 <= j < i ==> ((#[trigger] vals@[j]) matches Some(v) ==> !is_utf8_locale(v@)),
        decreases vals@.len() - i,
    {
        if let Some(v) = &vals[i] {
            let low = text::ascii_lower(v.as_str());
            if text::has_text(low.as_str(), "utf-8") || text::has_text(low.as_str(), "utf8") {
                assert(vals@[i as int] is Some && is_utf8_locale(vals@[i as int]->0@));
                return false;
            }
        }
        i += 1;
    }
    true
}

/// The entries of a `PATH` stay, in their order, and in front: what is added stands behind
/// them.
pub proof fn entries_of_a_path_stay(parts: Seq<Seq<char>>)
    requires
        parts.len() > 0,
        forall|i: int|
            0 <= i < parts.len() ==> (#[trigger] parts[i]).len() > 0 && !parts[i].contains(':'),
    ensures
        widened(seqs::join(parts, seq![':'])).take(parts.len() as int) == parts,
        parts.contains("/opt/homebrew/bin"@) && parts.contains("/usr/local/bin"@) ==> widened(
            seqs::join(parts, seq![':']),
        ) == parts,
        !parts.contains("/opt/homebrew/bin"@) && !parts.contains("/usr/local/bin"@) ==> widened(
            seqs::join(parts, seq![':']),
        ) == parts + seq!["/opt/homebrew/bin"@, "/usr/local/bin"@],
{
    let path = seqs::join(parts, seq![':']);
    seqs::split_undoes_join(parts, ':');
    none_is_empty(parts);
    widening_only_adds(path);
    assert(non_empty(seqs::split(path, ':')) == parts);
    reveal_strlit("/opt/homebrew/bin");
    reveal_strlit("/usr/local/bin");
    let a = "/opt/homebrew/bin"@;
    let b = "/usr/local/bin"@;
    assert(a.len() != b.len());
    if !parts.contains(a) && !parts.contains(b) {
        let one = parts.push(a);
        assert(!one.contains(b)) by {
            if one.contains(b) {
                let i = choose|i: int| 0 <= i < one.len() && one[i] == b;
                if i < parts.len() {
                    assert(parts[i] == b);
                }
            }
        }
        assert(parts.push(a).push(b) =~= parts + seq![a, b]);
    }
}

proof fn none_is_empty(parts: Seq<Seq<char>>)
    requires
        forall|i: int| 0 <= i < parts.len() ==> (#[trigger] parts[i]).len() > 0,
    ensures
        non_empty(parts) == parts,
    decreases parts.len(),
{
    if parts.len() > 0 {
        let head = parts.drop_last();
        assert forall|i: int| 0 <= i < head.len() implies (#[trigger] head[i]).len() > 0 by {
            assert(head[i] == parts[i]);
        }
        none_is_empty(head);
        assert(parts[parts.len() - 1].len() > 0);
    }
    assert(non_empty(parts) =~= parts);
}

/// What a shell prints between the marks is what is read, whatever else it prints before and
/// behind them, as long as no mark stands before or in it.
pub proof fn printed_path_is_read_back(before: Seq<char>, path: Seq<char>, after: Seq<char>)
    requires
        path.len() > 0,
        path[0] == '/',
        !before.contains('_'),
        !path.contains('_'),
    ensures
        captured(before + "__CCPATH__"@ + path + "__CCEND__"@ + after) == Some(path),
{
    reveal_strlit("__CCPATH__");
    reveal_strlit("__CCEND__");
    let open = "__CCPATH__"@;
    let close = "__CCEND__"@;
    let s = before + open + path + close + after;
    let a = before.len() as int;
    let b = a + 10 + path.len();
    assert(s.subrange(a, a + 10) =~= open);
    assert(s.subrange(b, b + 9) =~= close);
    assert(s.subrange(a + 10, b) =~= path);
    assert forall|j: int| 0 <= j < a implies #[trigger] s[j] != '_' by {
        assert(s[j] == before[j]);
        assert(before.contains(before[j]));
    }
    assert forall|j: int| a + 10 <= j < b implies #[trigger] s[j] != '_' by {
        assert(s[j] == path[j - a - 10]);
        assert(path.contains(path[j - a - 10]));
    }
    assert(s[a + 2] == 'C' && s[a + 3] == 'C' && s[a + 4] == 'P' && s[a + 5] == 'A' && s[a + 6]
        == 'T' && s[a + 7] == 'H' && s[a + 8] == '_' && s[a + 9] == '_' && s[a + 10] == '/');
    marks_stand_there(s, open, close, a, b);
}

proof fn marks_stand_there(s: Seq<char>, open: Seq<char>, close: Seq<char>, a: int, b: int)
    requires
        0 <= a,
        a + 10 < b,
        b + 9 <= s.len(),
        open == "__CCPATH__"@,
        close == "__CCEND__"@,
        s.subrange(a, a + 10) == open,
        s.subrange(b, b + 9) == close,
        forall|j: int| 0 <= j < a ==> #[trigger] s[j] != '_',
        forall|j: int| a + 10 <= j < b ==> #[trigger] s[j] != '_',
        s[a + 2] == 'C' && s[a + 3] == 'C' && s[a + 4] == 'P' && s[a + 5] == 'A' && s[a + 6] == 'T'
            && s[a + 7] == 'H' && s[a + 8] == '_' && s[a + 9] == '_' && s[a + 10] == '/',
    ensures
        seqs::find_from(s, "__CCPATH__"@, 0) == Some(a),
        seqs::find_from(s, "__CCEND__"@, 0) == Some(b),
{
    reveal_strlit("__CCPATH__");
    reveal_strlit("__CCEND__");
    seqs::find_from_meaning(s, open, 0);
    seqs::find_from_meaning(s, close, 0);
    assert(seqs::occurs_at(s, open, a));
    assert(seqs::occurs_at(s, close, b));
    assert forall|j: int| 0 <= j < a implies !#[trigger] seqs::occurs_at(s, open, j) by {
        if seqs::occurs_at(s, open, j) {
            assert(s.subrange(j, j + 10)[0] == s[j]);
        }
    }
    assert forall|j: int| 0 <= j < b implies !#[trigger] seqs::occurs_at(s, close, j) by {
        if seqs::occurs_at(s, close, j) {
            let t = s.subrange(j, j + 9);
            assert(t[0] == s[j] && t[1] == s[j + 1] && t[2] == s[j + 2] && t[4] == s[j + 4]);
            assert(s[j] == '_' && s[j + 1] == '_' && s[j + 2] == 'C' && s[j + 4] == 'E');
            assert(a <= j < a + 10);
            assert(j == a || j == a + 1 || j == a + 8 || j == a + 9);
        }
    }
}

/// A path that was captured is set as it is; without one, the current path is set with all its
/// entries, in their order, and the usual directories behind them.
pub proof fn repaired_path_keeps_what_was_there(
    captured: Option<String>,
    parts: Seq<Seq<char>>,
    current: &str,
    r: String,
)
    requires
        call_ensures(repair_path_for_gui, (captured, current), r),
        parts.len() > 0,
        forall|i: int|
            0 <= i < parts.len() ==> (#[trigger] parts[i]).len() > 0 && !parts[i].contains(':'),
        current@ == seqs::join(parts, seq![':']),
        !parts.contains("/opt/homebrew/bin"@),
        !parts.contains("/usr/local/bin"@),
    ensures
        captured matches Some(c) ==> r@ == c@,
        captured is None ==> seqs::split(r@, ':') == parts + seq![
            "/opt/homebrew/bin"@,
            "/usr/local/bin"@,
        ],
{
    entries_of_a_path_stay(parts);
    let all = parts + seq!["/opt/homebrew/bin"@, "/usr/local/bin"@];
    reveal_strlit("/opt/homebrew/bin");
    reveal_strlit("/usr/local/bin");
    reveal_strlit(":");
    assert(":"@ =~= seq![':']);
    assert forall|i: int| 0 <= i < all.len() implies !(#[trigger] all[i]).contains(':') by {
        if i < parts.len() {
            assert(all[i] == parts[i]);
        }
    }
    seqs::split_undoes_join(all, ':');
}

} // verus!
