//! Which of the programs that are needed are there, from the output of a probe.
use crate::seqs;
use crate::text;
use vstd::prelude::*;

verus! {

/// One program.
#[derive(Clone, Debug, PartialEq)]
pub struct ToolStatus {
    pub found: bool,
    /// What the program printed for its version.
    pub version: Option<String>,
    /// It is there, and new enough.
    pub ok: bool,
}

/// All programs that are asked for.
#[derive(Clone, Debug, PartialEq)]
pub struct PrereqReport {
    pub tmux: ToolStatus,
    pub claude: ToolStatus,
    pub brew: bool,
    pub npm: bool,
}

/// `s` without `p` in front, where it has it there.
pub open spec fn without_prefix(s: Seq<char>, p: Seq<char>) -> Seq<char> {
    match seqs::strip_prefix(s, p) {
        Some(rest) => rest,
        None => s,
    }
}

/// The digits that `s` begins with.
pub open spec fn leading_digits(s: Seq<char>) -> Seq<char>
    decreases s.len(),
{
    if s.len() > 0 && seqs::is_digit(s[0]) {
        seq![s[0]] + leading_digits(s.drop_first())
    } else {
        Seq::empty()
    }
}

pub open spec fn leading_number(s: Seq<char>) -> Option<nat> {
    seqs::parse_uint(leading_digits(s), u32::MAX as nat)
}

/// The major and minor number of a tmux version, with or without `tmux ` and `next-` before
/// it. A missing minor number is 0.
pub open spec fn tmux_version_of(s: Seq<char>) -> Option<(nat, nat)> {
    let rest = without_prefix(without_prefix(seqs::trim(s), "tmux "@), "next-"@);
    let parts = seqs::split(rest, '.');
    match leading_number(parts[0]) {
        None => None,
        Some(major) => Some(
            (
                major,
                if parts.len() > 1 {
                    match leading_number(parts[1]) {
                        Some(minor) => minor,
                        None => 0,
                    }
                } else {
                    0
                },
            ),
        ),
    }
}

/// The version is 3.3 or later.
pub open spec fn is_new_enough(v: Option<(nat, nat)>) -> bool {
    match v {
        Some((major, minor)) => major > 3 || (major == 3 && minor >= 3),
        None => false,
    }
}

/// The trimmed value of the last line that begins with `key`; nothing where there is none.
pub open spec fn probe_value(lines: Seq<Seq<char>>, key: Seq<char>) -> Seq<char>
    decreases lines.len(),
{
    if lines.len() == 0 {
        Seq::empty()
    } else if seqs::starts_with(lines.last(), key) {
        seqs::trim(lines.last().skip(key.len() as int))
    } else {
        probe_value(lines.drop_last(), key)
    }
}

fn number_in_front(s: &str) -> (r: Option<u32>)
    ensures
        (match r {
            Some(n) => leading_number(s@) == Some(n as nat),
            None => leading_number(s@) is None,
        }),
{
    let cs = text::chars_of(s);
    let mut digits = String::new();
    let mut i: usize = 0;
    assert(s@.skip(0) =~= s@);
    assert(digits@ + leading_digits(s@) =~= leading_digits(s@));
    while i < cs.len() && text::is_digit(cs[i])
        invariant
            i <= cs@.len(),
            cs@ == s@,
            leading_digits(s@) == digits@ + leading_digits(s@.skip(i as int)),
        decreases cs@.len() - i,
    {
        let ghost rest = s@.skip(i as int);
        let ghost before = digits@;
        digits.push(cs[i]);
        proof {
            assert(rest.drop_first() =~= s@.skip(i + 1));
            assert(before + (seq![rest[0]] + leading_digits(rest.drop_first())) =~= digits@
                + leading_digits(rest.drop_first()));
        }
        i += 1;
    }
    assert(digits@ + Seq::<char>::empty() =~= digits@);
    match text::parse_uint(digits.as_str(), u32::MAX as u64) {
        Some(n) => Some(n as u32),
        None => None,
    }
}

fn drop_prefix(s: &str, p: &str) -> (r: String)
    ensures
        r@ == without_prefix(s@, p@),
{
    match text::strip_prefix(s, p) {
        Some(rest) => rest,
        None => s.to_owned(),
    }
}

proof fn split_is_not_empty(s: Seq<char>, c: char)
    ensures
        seqs::split(s, c).len() > 0,
{
}

/// The major and minor number of a tmux version.
pub fn parse_tmux_version(s: &str) -> (r: Option<(u32, u32)>)
    ensures
        (match r {
            Some((major, minor)) => tmux_version_of(s@) == Some((major as nat, minor as nat)),
            None => tmux_version_of(s@) is None,
        }),
{
    let trimmed = text::trim(s);
    let rest = drop_prefix(drop_prefix(trimmed.as_str(), "tmux ").as_str(), "next-");
    let parts = text::split(rest.as_str(), '.');
    let ghost all = seqs::split(rest@, '.');
    proof {
        split_is_not_empty(rest@, '.');
        assert(all.len() == parts@.len());
        assert(all[0] == parts@[0]@);
    }
    let major: u32 = match number_in_front(parts[0].as_str()) {
        Some(n) => n,
        None => return None,
    };
    let minor: u32 = if parts.len() > 1 {
        assert(all[1] == parts@[1]@);
        match number_in_front(parts[1].as_str()) {
            Some(n) => n,
            None => 0,
        }
    } else {
        0
    };
    Some((major, minor))
}

/// Whether a tmux of this version can be used.
pub fn tmux_is_supported(version: &str) -> (r: bool)
    ensures
        r == is_new_enough(tmux_version_of(version@)),
{
    match parse_tmux_version(version) {
        Some((major, minor)) => major > 3 || (major == 3 && minor >= 3),
        None => false,
    }
}

fn value_of(lines: &[String], key: &str) -> (r: String)
    ensures
        r@ == probe_value(seqs::views(lines@), key@),
{
    let ghost all = seqs::views(lines@);
    let mut k: usize = lines.len();
    assert(all.take(k as int) =~= all);
    while k > 0
        invariant
            k <= lines@.len(),
            all == seqs::views(lines@),
            probe_value(all, key@) == probe_value(all.take(k as int), key@),
        decreases k,
    {
        assert(all.take(k as int).last() == lines@[k - 1]@);
        assert(all.take(k as int).drop_last() =~= all.take(k - 1));
        if let Some(v) = text::strip_prefix(lines[k - 1].as_str(), key) {
            return text::trim(v.as_str());
        }
        k -= 1;
    }
    String::new()
}

/// `t` reports the program whose version line is `v`, which is empty where the program was
/// not found.
pub open spec fn is_tool(t: ToolStatus, v: Seq<char>, ok: bool) -> bool {
    &&& t.found == (v.len() > 0)
    &&& t.ok == ok
    &&& seqs::opt_view(t.version) == (if v.len() > 0 {
        Some(v)
    } else {
        None
    })
}

fn tool(version: String, ok: bool) -> (r: ToolStatus)
    ensures
        is_tool(r, version@, ok),
{
    if text::chars_of(version.as_str()).len() > 0 {
        ToolStatus { found: true, version: Some(version), ok }
    } else {
        ToolStatus { found: false, version: None, ok }
    }
}

/// Reads the output of the probe. Only lines that begin with a known key count, and of
/// several the last; an empty value means that the program was not found.
pub fn parse_probe_output(out: &str) -> (r: PrereqReport)
    ensures
        ({
            let lines = seqs::lines(out@);
            let tmux = probe_value(lines, "CC_TMUX="@);
            let claude = probe_value(lines, "CC_CLAUDE="@);
            &&& is_tool(r.tmux, tmux, is_new_enough(tmux_version_of(tmux)))
            &&& is_tool(r.claude, claude, claude.len() > 0)
            &&& r.brew == (probe_value(lines, "CC_BREW="@).len() > 0)
            &&& r.npm == (probe_value(lines, "CC_NPM="@).len() > 0)
        }),
{
    let lines = text::lines(out);
    let tmux = value_of(&lines, "CC_TMUX=");
    let claude = value_of(&lines, "CC_CLAUDE=");
    let brew = value_of(&lines, "CC_BREW=");
    let npm = value_of(&lines, "CC_NPM=");
    let tmux_ok = tmux_is_supported(tmux.as_str());
    let claude_ok = text::chars_of(claude.as_str()).len() > 0;
    PrereqReport {
        tmux: tool(tmux, tmux_ok),
        claude: tool(claude, claude_ok),
        brew: text::chars_of(brew.as_str()).len() > 0,
        npm: text::chars_of(npm.as_str()).len() > 0,
    }
}

/// Only a tmux that is there is accepted, whatever the probe printed.
pub proof fn accepted_tmux_is_there(t: ToolStatus, v: Seq<char>)
    requires
        is_tool(t, v, is_new_enough(tmux_version_of(v))),
    ensures
        t.ok ==> t.found,
{
    if v.len() == 0 {
        let e = Seq::<char>::empty();
        assert(v =~= e);
        reveal_strlit("tmux ");
        reveal_strlit("next-");
        assert(seqs::trim(e) =~= e);
        assert(without_prefix(e, "tmux "@) == e);
        assert(without_prefix(e, "next-"@) == e);
        assert(seqs::split(e, '.')[0] =~= e);
        assert(leading_digits(e) =~= e);
    }
}

/// The version that tmux prints is read back, with or without the words in front of it and the
/// letter behind it.
pub proof fn versions_are_read_back(major: u32, minor: u32, letter: Seq<char>)
    requires
        letter.len() <= 1,
        letter.len() == 1 ==> 'a' <= letter[0] <= 'z',
    ensures
        tmux_version_of(
            "tmux "@ + seqs::decimal(major as nat) + "."@ + seqs::decimal(minor as nat) + letter,
        ) == Some((major as nat, minor as nat)),
        tmux_version_of(
            seqs::decimal(major as nat) + "."@ + seqs::decimal(minor as nat) + letter,
        ) == Some((major as nat, minor as nat)),
        tmux_version_of(
            "tmux next-"@ + seqs::decimal(major as nat) + "."@ + seqs::decimal(minor as nat)
                + letter,
        ) == Some((major as nat, minor as nat)),
{
    reveal_strlit("tmux ");
    reveal_strlit("next-");
    reveal_strlit("tmux next-");
    reveal_strlit(".");
    let x = seqs::decimal(major as nat);
    let y = seqs::decimal(minor as nat);
    seqs::decimal_reads_back(major as nat);
    seqs::decimal_reads_back(minor as nat);
    let rest = x + "."@ + y + letter;
    let tail = y + letter;
    assert(rest =~= x + seq!['.'] + tail);
    assert(!x.contains('.'));
    assert(!tail.contains('.')) by {
        seqs::concat_holds(y, letter, '.');
    }
    seqs::split_undoes_join(seq![x, tail], '.');
    reveal_with_fuel(seqs::join, 3);
    assert(seq![x, tail].drop_first() =~= seq![tail]);
    assert(seqs::join(seq![x, tail], seq!['.']) =~= rest);
    assert(seqs::split(rest, '.') == seq![x, tail]);
    digits_lead(x, Seq::empty());
    assert(x + Seq::<char>::empty() =~= x);
    digits_lead(y, letter);
    assert(rest[0] == x[0]);
    assert(rest.last() == tail.last());
    assert(seqs::trim(rest) == rest);
    no_such_prefix(rest, "tmux "@);
    no_such_prefix(rest, "next-"@);
    let a = "tmux "@ + x + "."@ + y + letter;
    assert(a =~= "tmux "@ + rest);
    assert(seqs::trim(a) == a);
    prefix_is_dropped("tmux "@, rest);
    let b = "tmux next-"@ + x + "."@ + y + letter;
    assert(b =~= "tmux "@ + ("next-"@ + rest));
    assert(seqs::trim(b) == b);
    prefix_is_dropped("tmux "@, "next-"@ + rest);
    prefix_is_dropped("next-"@, rest);
}

proof fn prefix_is_dropped(p: Seq<char>, rest: Seq<char>)
    ensures
        without_prefix(p + rest, p) == rest,
{
    assert((p + rest).take(p.len() as int) =~= p);
    assert((p + rest).skip(p.len() as int) =~= rest);
}

proof fn no_such_prefix(s: Seq<char>, p: Seq<char>)
    requires
        p.len() > 0,
        s.len() > 0,
        s[0] != p[0],
    ensures
        without_prefix(s, p) == s,
{
    if s.len() >= p.len() && s.take(p.len() as int) == p {
        assert(s.take(p.len() as int)[0] == p[0]);
    }
}

proof fn digits_lead(d: Seq<char>, rest: Seq<char>)
    requires
        forall|i: int| 0 <= i < d.len() ==> seqs::is_digit(#[trigger] d[i]),
        rest.len() > 0 ==> !seqs::is_digit(rest[0]),
    ensures
        leading_digits(d + rest) == d,
    decreases d.len(),
{
    if d.len() > 0 {
        let s = d + rest;
        assert(s[0] == d[0]);
        assert(s.drop_first() =~= d.drop_first() + rest);
        assert forall|i: int| 0 <= i < d.drop_first().len() implies seqs::is_digit(
            #[trigger] d.drop_first()[i],
        ) by {
            assert(d.drop_first()[i] == d[i + 1]);
        }
        digits_lead(d.drop_first(), rest);
        assert(seq![d[0]] + d.drop_first() =~= d);
    } else {
        assert(d + rest =~= rest);
    }
}

/// A version is new enough exactly from 3.3 on.
pub proof fn new_enough_is_from_three_three_on(major: nat, minor: nat)
    ensures
        is_new_enough(Some((major, minor))) <==> 10 * major + (if minor < 10 {
            minor
        } else {
            9
        }) >= 33,
        !is_new_enough(None),
{
}

/// The probe's last line for a program tells of it: what stands behind the key is what the
/// program printed, and where no line has the key the program is not there.
pub proof fn probes_are_read_back(
    before: Seq<Seq<char>>,
    key: Seq<char>,
    value: Seq<char>,
    after: Seq<Seq<char>>,
)
    requires
        forall|i: int| 0 <= i < after.len() ==> !seqs::starts_with(#[trigger] after[i], key),
        value.len() > 0,
        !seqs::is_white(value[0]),
        !seqs::is_white(value.last()),
    ensures
        probe_value(before.push(key + value) + after, key) == value,
        probe_value(after, key).len() == 0,
    decreases after.len(),
{
    let all = before.push(key + value) + after;
    if after.len() == 0 {
        assert(all =~= before.push(key + value));
        assert((key + value).take(key.len() as int) =~= key);
        assert((key + value).skip(key.len() as int) =~= value);
        assert(seqs::trim(value) == value);
    } else {
        let head = after.drop_last();
        assert(all.drop_last() =~= before.push(key + value) + head);
        assert(all.last() == after[after.len() - 1]);
        assert forall|i: int| 0 <= i < head.len() implies !seqs::starts_with(
            #[trigger] head[i],
            key,
        ) by {
            assert(head[i] == after[i]);
        }
        probes_are_read_back(before, key, value, head);
    }
}

} // verus!
