//! A small block-YAML reader for the template files.
//!
//! * Indentation is in spaces; a tab in it is an error.
//! * Blank lines and `#` comments are ignored. An inline comment begins with a `#` that
//!   white space precedes, outside quotes and flow brackets. The lines of a block scalar keep
//!   their `#`, also where it stands first.
//! * A mapping entry is `key: value`, `key:` with a deeper block below, or `key: >` /
//!   `key: |` with a block scalar below: the deeper lines, without the indentation that all of
//!   them share.
//! * A sequence entry is `- value` or `- key: value`, whose further keys stand on the deeper
//!   lines below.
//! * `[a, b]` is a sequence. Matching quotes around a scalar are dropped, and a bare `true`
//!   or `false` is a boolean.
use crate::seqs;
use crate::text;
use vstd::prelude::*;

verus! {

/// A parsed node. The entries of a mapping stand in the order of the text.
#[derive(Debug, PartialEq)]
pub enum Yaml {
    Scalar(String),
    Bool(bool),
    Mapping(Vec<(String, Yaml)>),
    Sequence(Vec<Yaml>),
}

/// What a [`Yaml`] node holds.
pub enum YamlView {
    Scalar(Seq<char>),
    Bool(bool),
    Mapping(Seq<(Seq<char>, YamlView)>),
    Sequence(Seq<YamlView>),
}

pub open spec fn yaml_view(y: Yaml) -> YamlView
    decreases y,
{
    match y {
        Yaml::Scalar(s) => YamlView::Scalar(s@),
        Yaml::Bool(b) => YamlView::Bool(b),
        Yaml::Mapping(m) => YamlView::Mapping(entries_view(m@)),
        Yaml::Sequence(v) => YamlView::Sequence(nodes_view(v@)),
    }
}

pub open spec fn entries_view(s: Seq<(String, Yaml)>) -> Seq<(Seq<char>, YamlView)>
    decreases s,
{
    if s.len() == 0 {
        Seq::empty()
    } else {
        entries_view(s.drop_last()).push((s.last().0@, yaml_view(s.last().1)))
    }
}

pub open spec fn nodes_view(s: Seq<Yaml>) -> Seq<YamlView>
    decreases s,
{
    if s.len() == 0 {
        Seq::empty()
    } else {
        nodes_view(s.drop_last()).push(yaml_view(s.last()))
    }
}

impl View for Yaml {
    type V = YamlView;

    open spec fn view(&self) -> YamlView {
        yaml_view(*self)
    }
}

pub proof fn entries_view_at(s: Seq<(String, Yaml)>)
    ensures
        entries_view(s).len() == s.len(),
        forall|i: int|
            0 <= i < s.len() ==> #[trigger] entries_view(s)[i] == (s[i].0@, yaml_view(s[i].1)),
    decreases s,
{
    if s.len() > 0 {
        let head = s.drop_last();
        entries_view_at(head);
        assert forall|i: int| 0 <= i < s.len() implies #[trigger] entries_view(s)[i] == (
            s[i].0@,
            yaml_view(s[i].1),
        ) by {
            if i < s.len() - 1 {
                assert(entries_view(head)[i] == (head[i].0@, yaml_view(head[i].1)));
            }
        }
    }
}

pub proof fn nodes_view_at(s: Seq<Yaml>)
    ensures
        nodes_view(s).len() == s.len(),
        forall|i: int| 0 <= i < s.len() ==> #[trigger] nodes_view(s)[i] == yaml_view(s[i]),
    decreases s,
{
    if s.len() > 0 {
        let head = s.drop_last();
        nodes_view_at(head);
        assert forall|i: int| 0 <= i < s.len() implies #[trigger] nodes_view(s)[i] == yaml_view(
            s[i],
        ) by {
            if i < s.len() - 1 {
                assert(nodes_view(head)[i] == yaml_view(head[i]));
            }
        }
    }
}

proof fn entries_view_push(s: Seq<(String, Yaml)>, e: (String, Yaml))
    ensures
        entries_view(s.push(e)) == entries_view(s).push((e.0@, e.1@)),
{
    assert(s.push(e).drop_last() =~= s);
}

proof fn nodes_view_push(s: Seq<Yaml>, y: Yaml)
    ensures
        nodes_view(s.push(y)) == nodes_view(s).push(y@),
{
    assert(s.push(y).drop_last() =~= s);
}

impl YamlView {
    /// The text of a scalar; a boolean reads back as the word for it.
    pub open spec fn as_str(self) -> Option<Seq<char>> {
        match self {
            YamlView::Scalar(s) => Some(s),
            YamlView::Bool(b) => Some(
                if b {
                    "true"@
                } else {
                    "false"@
                },
            ),
            _ => None,
        }
    }

    pub open spec fn as_map(self) -> Option<Seq<(Seq<char>, YamlView)>> {
        match self {
            YamlView::Mapping(m) => Some(m),
            _ => None,
        }
    }

    pub open spec fn as_seq(self) -> Option<Seq<YamlView>> {
        match self {
            YamlView::Sequence(v) => Some(v),
            _ => None,
        }
    }
}

/// The value of the first entry for `key`.
pub open spec fn entry(map: Seq<(Seq<char>, YamlView)>, key: Seq<char>) -> Option<YamlView>
    decreases map.len(),
{
    if map.len() == 0 {
        None
    } else if map[0].0 == key {
        Some(map[0].1)
    } else {
        entry(map.drop_first(), key)
    }
}

/// The text of the first entry for `key`, where that is a scalar.
pub open spec fn entry_str(map: Seq<(Seq<char>, YamlView)>, key: Seq<char>) -> Option<Seq<char>> {
    match entry(map, key) {
        Some(v) => v.as_str(),
        None => None,
    }
}

/// Whether the first entry for `key` is `true`.
pub open spec fn entry_bool(map: Seq<(Seq<char>, YamlView)>, key: Seq<char>) -> bool {
    entry(map, key) == Some(YamlView::Bool(true))
}

impl Yaml {
    pub fn as_str(&self) -> (r: Option<&str>)
        ensures
            (match r {
                Some(s) => self@.as_str() == Some(s@),
                None => self@.as_str() is None,
            }),
    {
        match self {
            Yaml::Scalar(s) => Some(s.as_str()),
            Yaml::Bool(b) => if *b {
                Some("true")
            } else {
                Some("false")
            },
            _ => None,
        }
    }

    pub fn as_bool(&self) -> (r: Option<bool>)
        ensures
            r == (match self@ {
                YamlView::Bool(b) => Some(b),
                _ => None,
            }),
    {
        match self {
            Yaml::Bool(b) => Some(*b),
            _ => None,
        }
    }

    pub fn as_map(&self) -> (r: Option<&Vec<(String, Yaml)>>)
        ensures
            (match r {
                Some(m) => self@.as_map() == Some(entries_view(m@)),
                None => self@.as_map() is None,
            }),
    {
        match self {
            Yaml::Mapping(m) => Some(m),
            _ => None,
        }
    }

    pub fn as_seq(&self) -> (r: Option<&Vec<Yaml>>)
        ensures
            (match r {
                Some(v) => self@.as_seq() == Some(nodes_view(v@)),
                None => self@.as_seq() is None,
            }),
    {
        match self {
            Yaml::Sequence(v) => Some(v),
            _ => None,
        }
    }
}

/// The value of the first entry for `key`.
pub fn map_get<'a>(map: &'a [(String, Yaml)], key: &str) -> (r: Option<&'a Yaml>)
    ensures
        (match r {
            Some(v) => entry(entries_view(map@), key@) == Some(v@),
            None => entry(entries_view(map@), key@) is None,
        }),
{
    let ghost all = entries_view(map@);
    let mut i: usize = 0;
    proof {
        entries_view_at(map@);
        assert(all.skip(0) =~= all);
    }
    while i < map.len()
        invariant
            i <= map@.len(),
            all == entries_view(map@),
            all.len() == map@.len(),
            forall|j: int|
                0 <= j < map@.len() ==> #[trigger] all[j] == (map@[j].0@, yaml_view(map@[j].1)),
            entry(all, key@) == entry(all.skip(i as int), key@),
        decreases map@.len() - i,
    {
        assert(all.skip(i as int)[0] == all[i as int]);
        if text::same(map[i].0.as_str(), key) {
            return Some(&map[i].1);
        }
        assert(all.skip(i as int).drop_first() =~= all.skip(i + 1));
        i += 1;
    }
    None
}

/// The text of the first entry for `key`, where that is a scalar.
pub fn map_str(map: &[(String, Yaml)], key: &str) -> (r: Option<String>)
    ensures
        seqs::opt_view(r) == entry_str(entries_view(map@), key@),
{
    match map_get(map, key) {
        Some(v) => match v.as_str() {
            Some(s) => Some(s.to_owned()),
            None => None,
        },
        None => None,
    }
}

/// Whether the first entry for `key` is `true`.
pub fn map_bool(map: &[(String, Yaml)], key: &str) -> (r: bool)
    ensures
        r == entry_bool(entries_view(map@), key@),
{
    match map_get(map, key) {
        Some(v) => match v.as_bool() {
            Some(b) => b,
            None => false,
        },
        None => false,
    }
}

// ── Scanning a line ─────────────────────────────────────────────────────────────────────

/// Where a scan of a line stands: inside which quotes, and in how many open brackets.
pub struct Scan {
    pub quote: Option<char>,
    pub depth: int,
}

/// The scan after one more character.
pub open spec fn scan_step(s: Scan, c: char) -> Scan {
    match s.quote {
        Some(q) => if c == q {
            Scan { quote: None, depth: s.depth }
        } else {
            s
        },
        None => if c == '"' || c == '\'' {
            Scan { quote: Some(c), depth: s.depth }
        } else if c == '[' {
            Scan { quote: None, depth: s.depth + 1 }
        } else if c == ']' {
            Scan { quote: None, depth: s.depth - 1 }
        } else {
            s
        },
    }
}

/// The scan after the first `i` characters of `s`.
pub open spec fn scan_to(s: Seq<char>, i: int) -> Scan
    decreases i,
{
    if i <= 0 {
        Scan { quote: None, depth: 0 }
    } else {
        scan_step(scan_to(s, i - 1), s[i - 1])
    }
}

/// Position `i` of `s` stands outside quotes and brackets.
pub open spec fn is_open(s: Seq<char>, i: int) -> bool {
    scan_to(s, i).quote is None && scan_to(s, i).depth == 0
}

/// An inline comment begins at position `i` of `s`.
pub open spec fn comment_at(s: Seq<char>, i: int) -> bool {
    0 <= i < s.len() && s[i] == '#' && is_open(s, i) && (i == 0 || s[i - 1] == ' ' || s[i - 1]
        == '\t')
}

/// The colon at position `i` of `s` ends a mapping key.
pub open spec fn key_colon_at(s: Seq<char>, i: int) -> bool {
    0 <= i < s.len() && s[i] == ':' && is_open(s, i) && (i + 1 == s.len() || s[i + 1] == ' ')
}

/// Where the first inline comment of `s` at or after `i` begins, or the length of `s`.
pub open spec fn comment_from(s: Seq<char>, i: int) -> int
    decreases s.len() - i,
{
    if i >= s.len() || comment_at(s, i) {
        i
    } else {
        comment_from(s, i + 1)
    }
}

/// `s` without its inline comment and the white space before it.
pub open spec fn without_comment(s: Seq<char>) -> Seq<char> {
    seqs::trim_end(s.take(comment_from(s, 0)))
}

/// Where the first colon of `s` at or after `i` that ends a key stands.
pub open spec fn colon_from(s: Seq<char>, i: int) -> Option<int>
    decreases s.len() - i,
{
    if i >= s.len() {
        None
    } else if key_colon_at(s, i) {
        Some(i)
    } else {
        colon_from(s, i + 1)
    }
}

/// The executable form of [`Scan`].
struct Scanner {
    quote: Option<char>,
    depth: i128,
}

impl Scanner {
    spec fn scan(self) -> Scan {
        Scan { quote: self.quote, depth: self.depth as int }
    }

    fn step(&mut self, c: char)
        requires
            -0x1_0000_0000_0000_0000 < old(self).depth < 0x1_0000_0000_0000_0000,
        ensures
            final(self).scan() == scan_step(old(self).scan(), c),
    {
        match self.quote {
            Some(q) => {
                if c == q {
                    self.quote = None;
                }
            },
            None => {
                if c == '"' || c == '\'' {
                    self.quote = Some(c);
                } else if c == '[' {
                    self.depth = self.depth + 1;
                } else if c == ']' {
                    self.depth = self.depth - 1;
                }
            },
        }
    }
}

proof fn scan_depth_bound(s: Seq<char>, i: int)
    requires
        0 <= i,
    ensures
        -i <= scan_to(s, i).depth <= i,
    decreases i,
{
    if i > 0 {
        scan_depth_bound(s, i - 1);
    }
}

/// `s` without its inline comment and the white space before it.
pub fn strip_comment(s: &str) -> (r: String)
    ensures
        r@ == without_comment(s@),
{
    let cs = text::chars_of(s);
    let mut scan = Scanner { quote: None, depth: 0 };
    let mut i: usize = 0;
    while i < cs.len()
        invariant
            i <= cs@.len(),
            cs@ == s@,
            scan.scan() == scan_to(s@, i as int),
            comment_from(s@, 0) == comment_from(s@, i as int),
        decreases cs@.len() - i,
    {
        if cs[i] == '#' && scan.quote.is_none() && scan.depth == 0 && (i == 0 || cs[i - 1] == ' '
            || cs[i - 1] == '\t') {
            assert(comment_at(s@, i as int));
            let head = text::string_of(&cs, 0, i);
            assert(head@ =~= s@.take(i as int));
            return text::trim_end(head.as_str());
        }
        proof {
            scan_depth_bound(s@, i as int);
        }
        scan.step(cs[i]);
        i += 1;
    }
    assert(s@.take(s@.len() as int) =~= s@);
    text::trim_end(s)
}

/// Where, in characters, the colon of `cs` that ends a key stands.
fn key_colon(cs: &[char]) -> (r: Option<usize>)
    ensures
        (match r {
            Some(k) => k < cs@.len() && colon_from(cs@, 0) == Some(k as int),
            None => colon_from(cs@, 0) is None,
        }),
{
    let n: usize = cs.len();
    let mut scan = Scanner { quote: None, depth: 0 };
    let mut i: usize = 0;
    while i < n
        invariant
            i <= n,
            n == cs@.len(),
            scan.scan() == scan_to(cs@, i as int),
            colon_from(cs@, 0) == colon_from(cs@, i as int),
        decreases n - i,
    {
        if cs[i] == ':' && scan.quote.is_none() && scan.depth == 0 && (i + 1 == n || cs[i + 1]
            == ' ') {
            assert(key_colon_at(cs@, i as int));
            return Some(i);
        }
        proof {
            scan_depth_bound(cs@, i as int);
        }
        scan.step(cs[i]);
        i += 1;
    }
    None
}

/// The byte position of the colon of `s` that ends a mapping key: the first one outside
/// quotes and brackets that a space follows or that ends `s`.
pub fn find_key_colon(s: &str) -> (r: Option<usize>)
    ensures
        (match colon_from(s@, 0) {
            Some(k) => r matches Some(b) && b == seqs::byte_len(s@.take(k)),
            None => r is None,
        }),
{
    let cs = text::chars_of(s);
    match key_colon(&cs) {
        Some(k) => {
            let head = text::string_of(&cs, 0, k);
            assert(head@ =~= s@.take(k as int));
            Some(text::byte_len(head.as_str()))
        },
        None => None,
    }
}

// ── Values on one line ──────────────────────────────────────────────────────────────────

/// What a bare token writes.
pub open spec fn scalar_of(tok: Seq<char>) -> YamlView {
    let t = seqs::trim(tok);
    if t.len() >= 2 && (t[0] == '"' || t[0] == '\'') && t.last() == t[0] {
        YamlView::Scalar(t.subrange(1, t.len() - 1))
    } else if seqs::ascii_lower(t) == "true"@ {
        YamlView::Bool(true)
    } else if seqs::ascii_lower(t) == "false"@ {
        YamlView::Bool(false)
    } else {
        YamlView::Scalar(t)
    }
}

/// The values of the pieces that are not blank.
pub open spec fn flow_items(pieces: Seq<Seq<char>>) -> Seq<YamlView>
    decreases pieces.len(),
{
    if pieces.len() == 0 {
        Seq::empty()
    } else {
        let head = flow_items(pieces.drop_last());
        let p = seqs::trim(pieces.last());
        if p.len() == 0 {
            head
        } else {
            head.push(scalar_of(p))
        }
    }
}

/// What the value part of a line writes: a flow sequence or a scalar.
pub open spec fn inline_of(raw: Seq<char>) -> YamlView {
    let s = seqs::trim(raw);
    if s.len() >= 2 && s[0] == '[' && s.last() == ']' {
        YamlView::Sequence(flow_items(seqs::split(s.subrange(1, s.len() - 1), ',')))
    } else {
        scalar_of(s)
    }
}

/// A single token: matching quotes are dropped, a bare `true` or `false` is a boolean.
pub fn parse_scalar(tok: &str) -> (r: Yaml)
    ensures
        r@ == scalar_of(tok@),
{
    let t = text::trim(tok);
    let cs = text::chars_of(t.as_str());
    let n: usize = cs.len();
    if n >= 2 && (cs[0] == '"' || cs[0] == '\'') && cs[n - 1] == cs[0] {
        return Yaml::Scalar(text::string_of(&cs, 1, n - 1));
    }
    let low = text::ascii_lower(t.as_str());
    if text::same(low.as_str(), "true") {
        Yaml::Bool(true)
    } else if text::same(low.as_str(), "false") {
        Yaml::Bool(false)
    } else {
        Yaml::Scalar(t)
    }
}

/// The value part of a line: a flow sequence or a scalar.
pub fn parse_inline(raw: &str) -> (r: Yaml)
    ensures
        r@ == inline_of(raw@),
{
    let s = text::trim(raw);
    let cs = text::chars_of(s.as_str());
    let n: usize = cs.len();
    if n >= 2 && cs[0] == '[' && cs[n - 1] == ']' {
        let inner = text::string_of(&cs, 1, n - 1);
        let pieces = text::split(inner.as_str(), ',');
        let ghost all = seqs::views(pieces@);
        let mut items: Vec<Yaml> = Vec::new();
        let mut i: usize = 0;
        assert(all.take(0) =~= Seq::empty());
        while i < pieces.len()
            invariant
                i <= pieces@.len(),
                all == seqs::views(pieces@),
                nodes_view(items@) == flow_items(all.take(i as int)),
            decreases pieces@.len() - i,
        {
            proof {
                assert(all.take(i + 1).drop_last() =~= all.take(i as int));
                assert(all.take(i + 1).last() == pieces@[i as int]@);
            }
            let p = text::trim(pieces[i].as_str());
            if text::chars_of(p.as_str()).len() > 0 {
                let y = parse_scalar(p.as_str());
                proof {
                    nodes_view_push(items@, y);
                }
                items.push(y);
            }
            i += 1;
        }
        assert(all.take(pieces@.len() as int) =~= all);
        return Yaml::Sequence(items);
    }
    parse_scalar(s.as_str())
}

// ── Blocks ──────────────────────────────────────────────────────────────────────────────

/// A line that counts: its indentation and its trimmed text.
pub struct Line {
    pub indent: usize,
    pub content: String,
}

#[verifier::ext_equal]
pub struct LineView {
    pub indent: nat,
    pub content: Seq<char>,
}

pub open spec fn lines_view(v: Seq<Line>) -> Seq<LineView> {
    v.map_values(|l: Line| LineView { indent: l.indent as nat, content: l.content@ })
}

/// A line that begins a sequence entry.
pub open spec fn is_item(content: Seq<char>) -> bool {
    seqs::starts_with(content, "- "@) || content == "-"@
}

/// The value part of a line announces a block scalar.
pub open spec fn is_block_mark(rest: Seq<char>) -> bool {
    rest == ">"@ || rest == "|"@ || rest == ">-"@ || rest == "|-"@
}

/// Where the lines from `i` on that are deeper than `indent` end.
pub open spec fn deeper_end(ls: Seq<LineView>, i: int, indent: nat) -> int
    decreases ls.len() - i,
{
    if 0 <= i < ls.len() && ls[i].indent > indent {
        deeper_end(ls, i + 1, indent)
    } else {
        i
    }
}

/// The indentation that all the lines have.
pub open spec fn common_indent(ls: Seq<LineView>) -> nat
    decreases ls.len(),
{
    if ls.len() == 0 {
        0
    } else if ls.len() == 1 || ls.last().indent < common_indent(ls.drop_last()) {
        ls.last().indent
    } else {
        common_indent(ls.drop_last())
    }
}

/// A line of a block scalar whose lines have the indentation `base` in common: its text,
/// behind what it is indented beyond that.
pub open spec fn prose_line(l: LineView, base: nat) -> Seq<char> {
    Seq::new((l.indent - base) as nat, |i: int| ' ') + l.content
}

pub open spec fn prose(ls: Seq<LineView>, base: nat) -> Seq<Seq<char>> {
    ls.map_values(|l: LineView| prose_line(l, base))
}

/// The text of the block scalar that begins at line `i`, below a key at `indent`: its
/// lines, without the indentation that they have in common, joined by line breaks where it
/// is literal, by spaces where it is folded.
pub open spec fn block_scalar(ls: Seq<LineView>, i: int, indent: nat, literal: bool) -> Seq<char> {
    let own = ls.subrange(i, deeper_end(ls, i, indent));
    seqs::trim(
        seqs::join(
            prose(own, common_indent(own)),
            if literal {
                "\n"@
            } else {
                " "@
            },
        ),
    )
}

pub proof fn deeper_end_bound(ls: Seq<LineView>, i: int, indent: nat)
    requires
        0 <= i <= ls.len(),
    ensures
        i <= deeper_end(ls, i, indent) <= ls.len(),
    decreases ls.len() - i,
{
    if i < ls.len() && ls[i].indent > indent {
        deeper_end_bound(ls, i + 1, indent);
    }
}

proof fn common_indent_is_least(ls: Seq<LineView>)
    ensures
        forall|i: int| 0 <= i < ls.len() ==> common_indent(ls) <= (#[trigger] ls[i]).indent,
    decreases ls.len(),
{
    if ls.len() > 0 {
        common_indent_is_least(ls.drop_last());
        assert forall|i: int| 0 <= i < ls.len() implies common_indent(ls) <= (
        #[trigger] ls[i]).indent by {
            if i < ls.len() - 1 {
                assert(ls.drop_last()[i] == ls[i]);
            }
        }
    }
}

/// What reading from a line on gives: the node and the line after it, or an error.
pub type Node = Result<(YamlView, int), Seq<char>>;

/// As [`Node`], for the entries of a mapping.
pub type Entries = Result<(Seq<(Seq<char>, YamlView)>, int), Seq<char>>;

/// As [`Node`], for the entries of a sequence.
pub type Nodes = Result<(Seq<YamlView>, int), Seq<char>>;

/// `head` in front of the entries read after it.
pub open spec fn with_entries(head: Seq<(Seq<char>, YamlView)>, tail: Entries) -> Entries {
    match tail {
        Ok((es, k)) => Ok((head + es, k)),
        Err(e) => Err(e),
    }
}

pub open spec fn with_nodes(head: Seq<YamlView>, tail: Nodes) -> Nodes {
    match tail {
        Ok((ns, k)) => Ok((head + ns, k)),
        Err(e) => Err(e),
    }
}

/// The mapping or sequence whose entries stand at `indent`, from line `i` on.
pub open spec fn block_at(ls: Seq<LineView>, i: int, indent: nat) -> Node
    decreases ls.len() - i, 1int,
{
    if is_item(ls[i].content) {
        match seq_at(ls, i, indent) {
            Ok((ns, k)) => Ok((YamlView::Sequence(ns), k)),
            Err(e) => Err(e),
        }
    } else {
        match map_at(ls, i, indent) {
            Ok((es, k)) => Ok((YamlView::Mapping(es), k)),
            Err(e) => Err(e),
        }
    }
}

/// The block below a line at `indent`, from line `j` on; an empty scalar where line `j` is
/// not deeper.
pub open spec fn nested_at(ls: Seq<LineView>, j: int, indent: nat) -> Node
    decreases ls.len() - j, 2int,
{
    if 0 <= j < ls.len() && ls[j].indent > indent {
        block_at(ls, j, ls[j].indent)
    } else {
        Ok((YamlView::Scalar(Seq::empty()), j))
    }
}

/// The value of a key at `indent` whose line ends in `rest`, with the lines below from `j` on.
pub open spec fn value_at(ls: Seq<LineView>, j: int, indent: nat, rest: Seq<char>) -> Node
    decreases ls.len() - j, 3int,
{
    if is_block_mark(rest) {
        Ok(
            (
                YamlView::Scalar(block_scalar(ls, j, indent, rest[0] == '|')),
                deeper_end(ls, j, indent),
            ),
        )
    } else if rest.len() == 0 {
        nested_at(ls, j, indent)
    } else {
        Ok((inline_of(rest), j))
    }
}

/// The mapping entries at `indent`, from line `i` on.
pub open spec fn map_at(ls: Seq<LineView>, i: int, indent: nat) -> Entries
    decreases ls.len() - i, 0int,
{
    if !(0 <= i < ls.len()) || ls[i].indent != indent {
        Ok((Seq::empty(), i))
    } else {
        let content = without_comment(ls[i].content);
        if is_item(content) {
            Ok((Seq::empty(), i))
        } else {
            match colon_from(content, 0) {
                None => Err("expected `key: value`, got `"@ + content + "`"@),
                Some(c) => {
                    let key = seqs::trim(content.take(c));
                    let rest = seqs::trim(content.skip(c + 1));
                    match value_at(ls, i + 1, indent, rest) {
                        Err(e) => Err(e),
                        Ok((v, j)) => if i < j <= ls.len() {
                            with_entries(seq![(key, v)], map_at(ls, j, indent))
                        } else {
                            Ok((seq![(key, v)], j))
                        },
                    }
                },
            }
        }
    }
}

/// The sequence entry whose marker stands at `indent` and whose line goes on with `rest`.
pub open spec fn item_at(ls: Seq<LineView>, j: int, indent: nat, rest: Seq<char>) -> Node
    decreases ls.len() - j, 3int,
{
    if rest.len() == 0 {
        nested_at(ls, j, indent)
    } else {
        match colon_from(rest, 0) {
            None => Ok((inline_of(rest), j)),
            Some(c) => {
                let key = seqs::trim(rest.take(c));
                let raw = seqs::trim(rest.skip(c + 1));
                let first = if raw.len() == 0 {
                    nested_at(ls, j, indent)
                } else {
                    Ok((inline_of(raw), j))
                };
                match first {
                    Err(e) => Err(e),
                    Ok((v, k)) => if j <= k < ls.len() && ls[k].indent > indent {
                        match with_entries(seq![(key, v)], map_at(ls, k, ls[k].indent)) {
                            Err(e) => Err(e),
                            Ok((es, m)) => Ok((YamlView::Mapping(es), m)),
                        }
                    } else {
                        Ok((YamlView::Mapping(seq![(key, v)]), k))
                    },
                }
            },
        }
    }
}

/// The sequence entries at `indent`, from line `i` on.
pub open spec fn seq_at(ls: Seq<LineView>, i: int, indent: nat) -> Nodes
    decreases ls.len() - i, 0int,
{
    if !(0 <= i < ls.len()) || ls[i].indent != indent {
        Ok((Seq::empty(), i))
    } else {
        let content = without_comment(ls[i].content);
        if !is_item(content) {
            Ok((Seq::empty(), i))
        } else {
            let rest = if content == "-"@ {
                Seq::empty()
            } else {
                seqs::trim(content.skip(2))
            };
            match item_at(ls, i + 1, indent, rest) {
                Err(e) => Err(e),
                Ok((v, j)) => if i < j <= ls.len() {
                    with_nodes(seq![v], seq_at(ls, j, indent))
                } else {
                    Ok((seq![v], j))
                },
            }
        }
    }
}

// Reading never goes back, and never past the last line.

proof fn block_bound(ls: Seq<LineView>, i: int, indent: nat)
    requires
        0 <= i < ls.len(),
    ensures
        block_at(ls, i, indent) matches Ok((_, k)) ==> i <= k <= ls.len(),
    decreases ls.len() - i, 1int,
{
    seq_bound(ls, i, indent);
    map_bound(ls, i, indent);
}

proof fn nested_bound(ls: Seq<LineView>, j: int, indent: nat)
    requires
        0 <= j <= ls.len(),
    ensures
        nested_at(ls, j, indent) matches Ok((_, k)) ==> j <= k <= ls.len(),
    decreases ls.len() - j, 2int,
{
    if j < ls.len() {
        block_bound(ls, j, ls[j].indent);
    }
}

proof fn value_bound(ls: Seq<LineView>, j: int, indent: nat, rest: Seq<char>)
    requires
        0 <= j <= ls.len(),
    ensures
        value_at(ls, j, indent, rest) matches Ok((_, k)) ==> j <= k <= ls.len(),
    decreases ls.len() - j, 3int,
{
    deeper_end_bound(ls, j, indent);
    nested_bound(ls, j, indent);
}

proof fn map_bound(ls: Seq<LineView>, i: int, indent: nat)
    requires
        0 <= i <= ls.len(),
    ensures
        map_at(ls, i, indent) matches Ok((_, k)) ==> i <= k <= ls.len(),
    decreases ls.len() - i, 0int,
{
    if i < ls.len() {
        let content = without_comment(ls[i].content);
        if let Some(c) = colon_from(content, 0) {
            let rest = seqs::trim(content.skip(c + 1));
            value_bound(ls, i + 1, indent, rest);
            if let Ok((_, j)) = value_at(ls, i + 1, indent, rest) {
                map_bound(ls, j, indent);
            }
        }
    }
}

proof fn item_bound(ls: Seq<LineView>, j: int, indent: nat, rest: Seq<char>)
    requires
        0 <= j <= ls.len(),
    ensures
        item_at(ls, j, indent, rest) matches Ok((_, k)) ==> j <= k <= ls.len(),
    decreases ls.len() - j, 3int,
{
    nested_bound(ls, j, indent);
    if let Some(c) = colon_from(rest, 0) {
        let raw = seqs::trim(rest.skip(c + 1));
        let first = if raw.len() == 0 {
            nested_at(ls, j, indent)
        } else {
            Ok((inline_of(raw), j))
        };
        if let Ok((_, k)) = first {
            if j <= k < ls.len() {
                map_bound(ls, k, ls[k].indent);
            }
        }
    }
}

proof fn seq_bound(ls: Seq<LineView>, i: int, indent: nat)
    requires
        0 <= i <= ls.len(),
    ensures
        seq_at(ls, i, indent) matches Ok((_, k)) ==> i <= k <= ls.len(),
    decreases ls.len() - i, 0int,
{
    if i < ls.len() {
        let content = without_comment(ls[i].content);
        let rest = if content == "-"@ {
            Seq::empty()
        } else {
            seqs::trim(content.skip(2))
        };
        item_bound(ls, i + 1, indent, rest);
        if let Ok((_, j)) = item_at(ls, i + 1, indent, rest) {
            if i < j <= ls.len() {
                seq_bound(ls, j, indent);
            }
        }
    }
}

/// A line that announces a block scalar below it.
pub open spec fn opens_scalar(line: Seq<char>) -> bool {
    let content = without_comment(line);
    !is_item(content) && (colon_from(content, 0) matches Some(c) && is_block_mark(
        seqs::trim(content.skip(c + 1)),
    ))
}

/// The indentation of the key whose block scalar is still open behind the lines `ls`. What
/// follows belongs to the scalar as long as it is deeper than that key.
pub open spec fn open_scalar(ls: Seq<LineView>) -> Option<nat>
    decreases ls.len(),
{
    if ls.len() == 0 {
        None
    } else {
        let l = ls.last();
        match open_scalar(ls.drop_last()) {
            Some(k) if l.indent > k => Some(k),
            _ => if opens_scalar(l.content) {
                Some(l.indent)
            } else {
                None
            },
        }
    }
}

/// The white space that a line begins with.
pub open spec fn indentation(line: Seq<char>) -> Seq<char> {
    line.take(line.len() - seqs::trim_start(line).len())
}

pub open spec fn is_blank(line: Seq<char>) -> bool {
    seqs::trim(line).len() == 0
}

/// A line as the reader takes it.
pub open spec fn line_of(line: Seq<char>) -> LineView {
    LineView { indent: seqs::byte_len(indentation(line)), content: seqs::trim(line) }
}

/// A line that does not count behind the lines `ls`: a blank line; or a comment line, unless
/// it is a line of the open block scalar.
pub open spec fn is_ignored(ls: Seq<LineView>, line: Seq<char>) -> bool {
    is_blank(line) || (seqs::trim(line)[0] == '#' && !(open_scalar(ls) matches Some(k)
        && line_of(line).indent > k))
}

/// The lines of a text that count, or the error for a tab in an indentation. `raw` holds
/// the lines of the text as they stand.
pub open spec fn source_lines(raw: Seq<Seq<char>>) -> Result<Seq<LineView>, Seq<char>>
    decreases raw.len(),
{
    if raw.len() == 0 {
        Ok(Seq::empty())
    } else {
        match source_lines(raw.drop_last()) {
            Err(e) => Err(e),
            Ok(ls) => if indentation(raw.last()).contains('\t') {
                Err("tab in indentation on line "@ + seqs::decimal(raw.len()))
            } else if is_ignored(ls, raw.last()) {
                Ok(ls)
            } else {
                Ok(ls.push(line_of(raw.last())))
            },
        }
    }
}

/// What a text writes.
pub open spec fn yaml_of(text: Seq<char>) -> Result<YamlView, Seq<char>> {
    match source_lines(seqs::lines(text)) {
        Err(e) => Err(e),
        Ok(ls) => if ls.len() == 0 {
            Ok(YamlView::Mapping(Seq::empty()))
        } else {
            match block_at(ls, 0, ls[0].indent) {
                Err(e) => Err(e),
                Ok((node, k)) => if k == ls.len() {
                    Ok(node)
                } else {
                    Err("unexpected indentation at line content `"@ + ls[k].content + "`"@)
                },
            }
        },
    }
}

/// What a step of the reader returns.
spec fn node_result(r: Result<(Yaml, usize), String>) -> Node {
    match r {
        Ok((y, k)) => Ok((y@, k as int)),
        Err(e) => Err(e@),
    }
}

fn starts_item(content: &str) -> (r: bool)
    ensures
        r == is_item(content@),
{
    text::starts_with(content, "- ") || text::same(content, "-")
}

fn marks_block(rest: &str) -> (r: bool)
    ensures
        r == is_block_mark(rest@),
        r ==> rest@.len() > 0,
{
    proof {
        reveal_strlit("|");
        reveal_strlit("|-");
        reveal_strlit(">");
        reveal_strlit(">-");
    }
    text::same(rest, ">") || text::same(rest, "|") || text::same(rest, ">-") || text::same(
        rest,
        "|-",
    )
}

/// The line announces a block scalar.
fn announces_scalar(line: &str) -> (r: bool)
    ensures
        r == opens_scalar(line@),
{
    let content = strip_comment(line);
    if starts_item(content.as_str()) {
        return false;
    }
    let cs = text::chars_of(content.as_str());
    let n: usize = cs.len();
    match key_colon(&cs) {
        Some(c) => {
            assert(content@.subrange(c + 1, content@.len() as int) =~= content@.skip(c + 1));
            marks_block(text::trim(text::string_of(&cs, c + 1, n).as_str()).as_str())
        },
        None => false,
    }
}

/// The line behind `extra` spaces.
fn indented(extra: usize, content: &str) -> (r: String)
    ensures
        r@ == Seq::new(extra as nat, |i: int| ' ') + content@,
{
    let mut out = String::new();
    let mut i: usize = 0;
    assert(out@ =~= Seq::new(0, |i: int| ' '));
    while i < extra
        invariant
            i <= extra,
            out@ == Seq::new(i as nat, |i: int| ' '),
        decreases extra - i,
    {
        proof {
            reveal_strlit(" ");
        }
        out.append(" ");
        i += 1;
        assert(out@ =~= Seq::new(i as nat, |i: int| ' '));
    }
    out.append(content);
    out
}

/// The block scalar from line `j` on, below a key at `indent`, and the line after it.
fn parse_block_scalar(lines: &[Line], j: usize, indent: usize, literal: bool) -> (r: (Yaml, usize))
    requires
        j <= lines@.len(),
    ensures
        r.0@ == YamlView::Scalar(
            block_scalar(lines_view(lines@), j as int, indent as nat, literal),
        ),
        r.1 == deeper_end(lines_view(lines@), j as int, indent as nat),
{
    let ghost ls = lines_view(lines@);
    let mut base: usize = 0;
    let mut end: usize = j;
    while end < lines.len() && lines[end].indent > indent
        invariant
            j <= end <= lines@.len(),
            ls == lines_view(lines@),
            deeper_end(ls, j as int, indent as nat) == deeper_end(ls, end as int, indent as nat),
            base == common_indent(ls.subrange(j as int, end as int)),
        decreases lines@.len() - end,
    {
        proof {
            let longer = ls.subrange(j as int, end + 1);
            assert(longer.drop_last() =~= ls.subrange(j as int, end as int));
            assert(longer.last() == ls[end as int]);
        }
        if end == j || lines[end].indent < base {
            base = lines[end].indent;
        }
        end += 1;
    }
    let ghost own = ls.subrange(j as int, end as int);
    let mut collected: Vec<String> = Vec::new();
    let mut i: usize = j;
    proof {
        common_indent_is_least(own);
        assert(seqs::views(collected@) =~= prose(own, base as nat).take(0));
    }
    while i < end
        invariant
            j <= i <= end <= lines@.len(),
            ls == lines_view(lines@),
            own == ls.subrange(j as int, end as int),
            forall|k: int| 0 <= k < own.len() ==> base <= (#[trigger] own[k]).indent,
            seqs::views(collected@) == prose(own, base as nat).take(i - j),
        decreases end - i,
    {
        let ghost before = collected@;
        assert(own[i - j] == ls[i as int]);
        let line = indented(lines[i].indent - base, lines[i].content.as_str());
        collected.push(line);
        proof {
            let all = prose(own, base as nat);
            assert(line@ == all[i - j]);
            assert(seqs::views(collected@) =~= seqs::views(before).push(line@));
            assert(all.take(i + 1 - j) =~= all.take(i - j).push(all[i - j]));
        }
        i += 1;
    }
    assert(prose(own, base as nat).take(end - j) =~= prose(own, base as nat));
    let joined = if literal {
        text::join(&collected, "\n")
    } else {
        text::join(&collected, " ")
    };
    (Yaml::Scalar(text::trim(joined.as_str())), end)
}

/// The mapping or sequence at `indent`, from line `i` on.
fn parse_block(lines: &[Line], i: usize, indent: usize) -> (r: Result<(Yaml, usize), String>)
    requires
        i < lines@.len(),
    ensures
        node_result(r) == block_at(lines_view(lines@), i as int, indent as nat),
    decreases lines@.len() - i, 1int,
{
    if starts_item(lines[i].content.as_str()) {
        match parse_seq(lines, i, indent) {
            Ok((v, k)) => Ok((Yaml::Sequence(v), k)),
            Err(e) => Err(e),
        }
    } else {
        match parse_map(lines, i, indent) {
            Ok((m, k)) => Ok((Yaml::Mapping(m), k)),
            Err(e) => Err(e),
        }
    }
}

/// The block below a line at `indent`, or an empty scalar.
fn parse_nested(lines: &[Line], j: usize, indent: usize) -> (r: Result<(Yaml, usize), String>)
    requires
        j <= lines@.len(),
    ensures
        node_result(r) == nested_at(lines_view(lines@), j as int, indent as nat),
    decreases lines@.len() - j, 2int,
{
    if j < lines.len() && lines[j].indent > indent {
        parse_block(lines, j, lines[j].indent)
    } else {
        let empty = String::new();
        assert(empty@ =~= Seq::empty());
        Ok((Yaml::Scalar(empty), j))
    }
}

/// The value of a key at `indent`.
fn parse_value(lines: &[Line], j: usize, indent: usize, rest: &str) -> (r: Result<
    (Yaml, usize),
    String,
>)
    requires
        j <= lines@.len(),
    ensures
        node_result(r) == value_at(lines_view(lines@), j as int, indent as nat, rest@),
    decreases lines@.len() - j, 3int,
{
    if marks_block(rest) {
        let literal = text::chars_of(rest)[0] == '|';
        Ok(parse_block_scalar(lines, j, indent, literal))
    } else if text::chars_of(rest).len() == 0 {
        parse_nested(lines, j, indent)
    } else {
        Ok((parse_inline(rest), j))
    }
}

/// The mapping entries at `indent`, from line `start` on, and the line after them.
fn parse_map(lines: &[Line], start: usize, indent: usize) -> (r: Result<
    (Vec<(String, Yaml)>, usize),
    String,
>)
    requires
        start <= lines@.len(),
    ensures
        (match r {
            Ok((m, k)) => map_at(lines_view(lines@), start as int, indent as nat) == Entries::Ok(
                (entries_view(m@), k as int),
            ) && start <= k <= lines@.len(),
            Err(e) => map_at(lines_view(lines@), start as int, indent as nat) == Entries::Err(e@),
        }),
    decreases lines@.len() - start, 0int,
{
    let ghost ls = lines_view(lines@);
    let mut entries: Vec<(String, Yaml)> = Vec::new();
    let mut i: usize = start;
    proof {
        let tail = map_at(ls, start as int, indent as nat);
        if let Ok((es, _)) = tail {
            assert(entries_view(entries@) + es =~= es);
        }
    }
    while i < lines.len() && lines[i].indent == indent
        invariant
            start <= i <= lines@.len(),
            ls == lines_view(lines@),
            map_at(ls, start as int, indent as nat) == with_entries(
                entries_view(entries@),
                map_at(ls, i as int, indent as nat),
            ),
        decreases lines@.len() - i,
    {
        let content = strip_comment(lines[i].content.as_str());
        assert(content@ == without_comment(ls[i as int].content));
        if starts_item(content.as_str()) {
            assert(entries_view(entries@) + Seq::<(Seq<char>, YamlView)>::empty() =~= entries_view(
                entries@,
            ));
            return Ok((entries, i));
        }
        let cs = text::chars_of(content.as_str());
        let n: usize = cs.len();
        let c: usize = match key_colon(&cs) {
            Some(c) => c,
            None => {
                let mut e = "expected `key: value`, got `".to_owned();
                e.append(content.as_str());
                e.append("`");
                return Err(e);
            },
        };
        let key = text::trim(text::string_of(&cs, 0, c).as_str());
        let rest = text::trim(text::string_of(&cs, c + 1, n).as_str());
        proof {
            assert(content@.subrange(0, c as int) =~= content@.take(c as int));
            assert(content@.subrange(c + 1, content@.len() as int) =~= content@.skip(c + 1));
            value_bound(ls, i + 1, indent as nat, rest@);
        }
        match parse_value(lines, i + 1, indent, rest.as_str()) {
            Err(e) => return Err(e),
            Ok((v, j)) => {
                proof {
                    let e = (key, v);
                    entries_view_push(entries@, e);
                    let tail = map_at(ls, j as int, indent as nat);
                    if let Ok((es, _)) = tail {
                        assert(entries_view(entries@) + (seq![(key@, v@)] + es)
                            =~= entries_view(entries@).push((key@, v@)) + es);
                    }
                }
                entries.push((key, v));
                i = j;
            },
        }
    }
    assert(entries_view(entries@) + Seq::<(Seq<char>, YamlView)>::empty() =~= entries_view(
        entries@,
    ));
    Ok((entries, i))
}

/// The sequence entry whose line goes on with `rest`.
fn parse_item(lines: &[Line], j: usize, indent: usize, rest: &str) -> (r: Result<
    (Yaml, usize),
    String,
>)
    requires
        j <= lines@.len(),
    ensures
        node_result(r) == item_at(lines_view(lines@), j as int, indent as nat, rest@),
    decreases lines@.len() - j, 3int,
{
    let ghost ls = lines_view(lines@);
    let cs = text::chars_of(rest);
    let n: usize = cs.len();
    if n == 0 {
        return parse_nested(lines, j, indent);
    }
    let c: usize = match key_colon(&cs) {
        Some(c) => c,
        None => return Ok((parse_inline(rest), j)),
    };
    let key = text::trim(text::string_of(&cs, 0, c).as_str());
    let raw = text::trim(text::string_of(&cs, c + 1, n).as_str());
    proof {
        assert(rest@.subrange(0, c as int) =~= rest@.take(c as int));
        assert(rest@.subrange(c + 1, rest@.len() as int) =~= rest@.skip(c + 1));
        nested_bound(ls, j as int, indent as nat);
    }
    let first = if text::chars_of(raw.as_str()).len() == 0 {
        parse_nested(lines, j, indent)
    } else {
        Ok((parse_inline(raw.as_str()), j))
    };
    let (v, k) = match first {
        Ok(p) => p,
        Err(e) => return Err(e),
    };
    let mut entries: Vec<(String, Yaml)> = Vec::new();
    let ghost none = entries@;
    entries.push((key, v));
    proof {
        entries_view_push(none, (key, v));
        assert(entries_view(entries@) =~= seq![(key@, v@)]);
    }
    if k < lines.len() && lines[k].indent > indent {
        match parse_map(lines, k, lines[k].indent) {
            Err(e) => Err(e),
            Ok((more, m)) => {
                append_entries(&mut entries, more);
                Ok((Yaml::Mapping(entries), m))
            },
        }
    } else {
        Ok((Yaml::Mapping(entries), k))
    }
}

fn append_entries(entries: &mut Vec<(String, Yaml)>, more: Vec<(String, Yaml)>)
    ensures
        entries_view(final(entries)@) == entries_view(old(entries)@) + entries_view(more@),
{
    let ghost head = entries@;
    let mut tail = more;
    entries.append(&mut tail);
    proof {
        entries_view_at(head);
        entries_view_at(more@);
        entries_view_at(entries@);
        assert(entries@ =~= head + more@);
        assert(entries_view(entries@) =~= entries_view(head) + entries_view(more@));
    }
}

/// The sequence entries at `indent`, from line `start` on, and the line after them.
fn parse_seq(lines: &[Line], start: usize, indent: usize) -> (r: Result<(Vec<Yaml>, usize), String>)
    requires
        start <= lines@.len(),
    ensures
        (match r {
            Ok((v, k)) => seq_at(lines_view(lines@), start as int, indent as nat) == Nodes::Ok(
                (nodes_view(v@), k as int),
            ) && start <= k <= lines@.len(),
            Err(e) => seq_at(lines_view(lines@), start as int, indent as nat) == Nodes::Err(e@),
        }),
    decreases lines@.len() - start, 0int,
{
    let ghost ls = lines_view(lines@);
    let mut items: Vec<Yaml> = Vec::new();
    let mut i: usize = start;
    proof {
        let tail = seq_at(ls, start as int, indent as nat);
        if let Ok((ns, _)) = tail {
            assert(nodes_view(items@) + ns =~= ns);
        }
    }
    while i < lines.len() && lines[i].indent == indent
        invariant
            start <= i <= lines@.len(),
            ls == lines_view(lines@),
            seq_at(ls, start as int, indent as nat) == with_nodes(
                nodes_view(items@),
                seq_at(ls, i as int, indent as nat),
            ),
        decreases lines@.len() - i,
    {
        let content = strip_comment(lines[i].content.as_str());
        assert(content@ == without_comment(ls[i as int].content));
        if !starts_item(content.as_str()) {
            assert(nodes_view(items@) + Seq::<YamlView>::empty() =~= nodes_view(items@));
            return Ok((items, i));
        }
        let rest = if text::same(content.as_str(), "-") {
            String::new()
        } else {
            proof {
                reveal_strlit("- ");
            }
            text::trim(text::skip(content.as_str(), 2).as_str())
        };
        proof {
            item_bound(ls, i + 1, indent as nat, rest@);
        }
        match parse_item(lines, i + 1, indent, rest.as_str()) {
            Err(e) => return Err(e),
            Ok((v, j)) => {
                proof {
                    nodes_view_push(items@, v);
                    let tail = seq_at(ls, j as int, indent as nat);
                    if let Ok((ns, _)) = tail {
                        assert(nodes_view(items@) + (seq![v@] + ns) =~= nodes_view(items@).push(v@)
                            + ns);
                    }
                }
                items.push(v);
                i = j;
            },
        }
    }
    assert(nodes_view(items@) + Seq::<YamlView>::empty() =~= nodes_view(items@));
    Ok((items, i))
}

fn has_tab(s: &str) -> (r: bool)
    ensures
        r == s@.contains('\t'),
{
    let cs = text::chars_of(s);
    let i = text::index_from(&cs, '\t', 0);
    proof {
        assert(cs@.skip(0) =~= s@);
        seqs::index_of_bounds(s@, '\t');
        if i < cs.len() {
            assert(s@[i as int] == '\t');
        }
    }
    i < cs.len()
}

/// The lines of `input` that count.
fn read_lines(input: &str) -> (r: Result<Vec<Line>, String>)
    ensures
        (match r {
            Ok(v) => source_lines(seqs::lines(input@)) == Ok::<Seq<LineView>, Seq<char>>(
                lines_view(v@),
            ),
            Err(e) => source_lines(seqs::lines(input@)) == Err::<Seq<LineView>, Seq<char>>(e@),
        }),
{
    let raws = text::lines(input);
    let ghost all = seqs::lines(input@);
    let mut lines: Vec<Line> = Vec::new();
    let mut open: Option<usize> = None;
    let mut n: usize = 0;
    proof {
        assert(all.take(0) =~= Seq::empty());
        assert(lines_view(lines@) =~= Seq::empty());
    }
    while n < raws.len()
        invariant
            n <= raws@.len(),
            all == seqs::views(raws@),
            all == seqs::lines(input@),
            source_lines(all.take(n as int)) == Ok::<Seq<LineView>, Seq<char>>(lines_view(lines@)),
            open_scalar(lines_view(lines@)) == (match open {
                Some(k) => Some(k as nat),
                None => None,
            }),
        decreases raws@.len() - n,
    {
        let raw = raws[n].as_str();
        let cs = text::chars_of(raw);
        let body = text::chars_of(text::trim_start(raw).as_str());
        proof {
            assert(all.take(n + 1).drop_last() =~= all.take(n as int));
            assert(all.take(n + 1).last() == raw@);
            seqs::trim_start_len(raw@);
        }
        let leading = text::string_of(&cs, 0, cs.len() - body.len());
        assert(leading@ =~= indentation(raw@));
        if has_tab(leading.as_str()) {
            let mut e = "tab in indentation on line ".to_owned();
            e.append(text::decimal(n as u64 + 1).as_str());
            proof {
                source_lines_error(all, n + 1);
            }
            return Err(e);
        }
        let trimmed = text::trim(raw);
        let ts = text::chars_of(trimmed.as_str());
        let indent: usize = text::byte_len(leading.as_str());
        let inside = match open {
            Some(k) => indent > k,
            None => false,
        };
        if ts.len() > 0 && (inside || ts[0] != '#') {
            if !inside {
                open = if announces_scalar(trimmed.as_str()) {
                    Some(indent)
                } else {
                    None
                };
            }
            let line = Line { indent, content: trimmed };
            let ghost before = lines@;
            lines.push(line);
            proof {
                let longer = lines_view(lines@);
                assert(longer =~= lines_view(before).push(line_of(raw@)));
                assert(longer.drop_last() =~= lines_view(before));
            }
        }
        n += 1;
    }
    assert(all.take(raws@.len() as int) =~= all);
    Ok(lines)
}

/// The first error of a text stands, whatever lines follow it.
proof fn source_lines_error(raw: Seq<Seq<char>>, n: int)
    requires
        0 <= n <= raw.len(),
        source_lines(raw.take(n)) is Err,
    ensures
        source_lines(raw) == source_lines(raw.take(n)),
    decreases raw.len(),
{
    if n == raw.len() {
        assert(raw.take(n) =~= raw);
    } else {
        assert(raw.drop_last().take(n) =~= raw.take(n));
        source_lines_error(raw.drop_last(), n);
    }
}

/// Reads a text of the grammar above.
pub fn parse_yaml(input: &str) -> (r: Result<Yaml, String>)
    ensures
        (match r {
            Ok(y) => yaml_of(input@) == Ok::<YamlView, Seq<char>>(y@),
            Err(e) => yaml_of(input@) == Err::<YamlView, Seq<char>>(e@),
        }),
{
    let lines = match read_lines(input) {
        Ok(v) => v,
        Err(e) => return Err(e),
    };
    if lines.len() == 0 {
        let none: Vec<(String, Yaml)> = Vec::new();
        return Ok(Yaml::Mapping(none));
    }
    let ghost ls = lines_view(lines@);
    proof {
        block_bound(ls, 0, ls[0].indent);
    }
    match parse_block(&lines, 0, lines[0].indent) {
        Err(e) => Err(e),
        Ok((node, k)) => if k == lines.len() {
            Ok(node)
        } else {
            let mut e = "unexpected indentation at line content `".to_owned();
            e.append(lines[k].content.as_str());
            e.append("`");
            Err(e)
        },
    }
}

// ── What holds of every text ────────────────────────────────────────────────────────────

/// A line that does not count may stand between the lines `a` and `b` of a text that has no
/// tab in its indentation, that is a blank line anywhere and a comment line outside block
/// scalars: the lines that count are the same with and without it.
pub proof fn ignored_lines_change_nothing(a: Seq<Seq<char>>, line: Seq<char>, b: Seq<Seq<char>>)
    requires
        source_lines(a) matches Ok(ls) && is_ignored(ls, line),
        !indentation(line).contains('\t'),
        source_lines(a + b) is Ok,
    ensures
        source_lines(a.push(line) + b) == source_lines(a + b),
    decreases b.len(),
{
    if b.len() == 0 {
        assert(a + b =~= a);
        assert(a.push(line) + b =~= a.push(line));
        assert(a.push(line).drop_last() =~= a);
    } else {
        let whole = a + b;
        let longer = a.push(line) + b;
        assert(whole.drop_last() =~= a + b.drop_last());
        assert(longer.drop_last() =~= a.push(line) + b.drop_last());
        ignored_lines_change_nothing(a, line, b.drop_last());
        assert(whole.last() == longer.last());
    }
}

/// Each of the lines as the reader takes it.
pub open spec fn lines_of(raw: Seq<Seq<char>>) -> Seq<LineView> {
    raw.map_values(|line: Seq<char>| line_of(line))
}

/// The lines `raw` are the line of a key that announces a block scalar and, below it, lines
/// that are deeper than it, none of them blank and none indented by a tab.
pub open spec fn is_prose_below_key(raw: Seq<Seq<char>>) -> bool {
    &&& raw.len() > 0
    &&& opens_scalar(seqs::trim(raw[0]))
    &&& forall|i: int|
        0 <= i < raw.len() ==> !is_blank(#[trigger] raw[i]) && !indentation(raw[i]).contains('\t')
    &&& forall|i: int|
        1 <= i < raw.len() ==> line_of(#[trigger] raw[i]).indent > line_of(raw[0]).indent
}

/// Every line of a block scalar counts, also one that begins with `#`; and they are read as
/// its text.
pub proof fn prose_keeps_its_lines(raw: Seq<Seq<char>>)
    requires
        is_prose_below_key(raw),
    ensures
        ({
            let ls = lines_of(raw);
            &&& source_lines(raw) == Ok::<Seq<LineView>, Seq<char>>(ls)
            &&& open_scalar(ls) == Some(ls[0].indent)
            &&& deeper_end(ls, 1, ls[0].indent) == raw.len()
        }),
    decreases raw.len(),
{
    let ls = lines_of(raw);
    let head = raw.drop_last();
    let before = lines_of(head);
    assert(ls =~= before.push(line_of(raw.last())));
    assert(ls.drop_last() =~= before);
    if head.len() == 0 {
        assert(raw.last() == raw[0]);
        assert(before =~= Seq::empty());
        assert(source_lines(head) == Ok::<Seq<LineView>, Seq<char>>(before));
        assert(open_scalar(before) is None);
        let t = seqs::trim(raw[0]);
        if t[0] == '#' {
            assert(comment_at(t, 0));
            assert(t.take(0) =~= Seq::empty());
            assert(without_comment(t) =~= Seq::empty());
        }
    } else {
        assert(head[0] == raw[0]);
        assert forall|i: int| 0 <= i < head.len() implies !is_blank(#[trigger] head[i])
            && !indentation(head[i]).contains('\t') by {
            assert(head[i] == raw[i]);
        }
        assert forall|i: int| 1 <= i < head.len() implies line_of(#[trigger] head[i]).indent
            > line_of(head[0]).indent by {
            assert(head[i] == raw[i]);
        }
        prose_keeps_its_lines(head);
        assert(ls.last().indent > ls[0].indent);
    }
    assert(!is_ignored(before, raw.last()));
    assert(source_lines(raw) == Ok::<Seq<LineView>, Seq<char>>(ls));
    assert(open_scalar(ls) == Some(ls[0].indent));
    all_deeper(ls, 1, ls[0].indent);
}

proof fn all_deeper(ls: Seq<LineView>, i: int, indent: nat)
    requires
        0 <= i <= ls.len(),
        forall|j: int| i <= j < ls.len() ==> (#[trigger] ls[j]).indent > indent,
    ensures
        deeper_end(ls, i, indent) == ls.len(),
    decreases ls.len() - i,
{
    if i < ls.len() {
        all_deeper(ls, i + 1, indent);
    }
}

/// A tab in the indentation of any line makes the whole text an error.
pub proof fn tabs_are_refused(text: Seq<char>, n: int)
    requires
        0 <= n < seqs::lines(text).len(),
        indentation(seqs::lines(text)[n]).contains('\t'),
    ensures
        yaml_of(text) is Err,
{
    let raw = seqs::lines(text);
    assert(raw.take(n + 1).last() == raw[n]);
    source_lines_error(raw, n + 1);
}

/// An entry of a mapping is found by its key: the first that has it, and none where none has.
pub proof fn entries_are_found_by_key(map: Seq<(Seq<char>, YamlView)>, key: Seq<char>, i: int)
    ensures
        0 <= i < map.len() && map[i].0 == key && (forall|j: int|
            0 <= j < i ==> (#[trigger] map[j]).0 != key) ==> entry(map, key) == Some(map[i].1),
        (forall|j: int| 0 <= j < map.len() ==> (#[trigger] map[j]).0 != key) ==> entry(map, key) is None,
        entry_bool(map, key) <==> entry(map, key) == Some(YamlView::Bool(true)),
        entry(map, key) matches Some(YamlView::Scalar(s)) ==> entry_str(map, key) == Some(s),
        entry(map, key) == Some(YamlView::Bool(true)) ==> entry_str(map, key) == Some("true"@),
        entry(map, key) == Some(YamlView::Bool(false)) ==> entry_str(map, key) == Some("false"@),
    decreases map.len(),
{
    if map.len() > 0 {
        let rest = map.drop_first();
        entries_are_found_by_key(rest, key, i - 1);
        if 0 < i < map.len() && map[i].0 == key && (forall|j: int|
            0 <= j < i ==> (#[trigger] map[j]).0 != key) {
            assert(map[0].0 != key);
            assert(rest[i - 1] == map[i]);
            assert forall|j: int| 0 <= j < i - 1 implies (#[trigger] rest[j]).0 != key by {
                assert(rest[j] == map[j + 1]);
            }
        }
        if forall|j: int| 0 <= j < map.len() ==> (#[trigger] map[j]).0 != key {
            assert(map[0].0 != key);
            assert forall|j: int| 0 <= j < rest.len() implies (#[trigger] rest[j]).0 != key by {
                assert(rest[j] == map[j + 1]);
            }
        }
    }
}

/// Text that stands for itself on a line: it does not begin or end in white space, and holds
/// no quote, no bracket, no colon and no comment mark.
pub open spec fn is_plain(s: Seq<char>) -> bool {
    &&& s.len() > 0
    &&& !seqs::is_white(s[0])
    &&& !seqs::is_white(s.last())
    &&& forall|i: int|
        0 <= i < s.len() ==> #[trigger] s[i] != '"' && s[i] != '\'' && s[i] != '[' && s[i] != ']'
            && s[i] != '#' && s[i] != ':' && s[i] != ',' && s[i] != '\n' && s[i] != '\r'
    &&& s[0] != '-'
    &&& s[0] != '>'
    &&& s[0] != '|'
}

/// A value that is its own text: plain, and no word for a boolean.
pub open spec fn is_plain_text(s: Seq<char>) -> bool {
    is_plain(s) && seqs::ascii_lower(s) != "true"@ && seqs::ascii_lower(s) != "false"@
}

proof fn plain_is_trimmed(s: Seq<char>)
    requires
        s.len() > 0,
        !seqs::is_white(s[0]),
        !seqs::is_white(s.last()),
    ensures
        seqs::trim(s) == s,
        seqs::trim_start(s) == s,
        seqs::trim_end(s) == s,
{
}

/// A plain text is read as itself, a quoted text as what stands between the quotes, and the
/// bare words `true` and `false` as what they say.
pub proof fn values_are_read_back(s: Seq<char>, quoted: Seq<char>)
    ensures
        is_plain_text(s) ==> inline_of(s) == YamlView::Scalar(s),
        inline_of(seq!['"'] + quoted + seq!['"']) == YamlView::Scalar(quoted),
        inline_of(seq!['\''] + quoted + seq!['\'']) == YamlView::Scalar(quoted),
        inline_of("true"@) == YamlView::Bool(true),
        inline_of("false"@) == YamlView::Bool(false),
{
    if is_plain_text(s) {
        plain_is_trimmed(s);
    }
    let a = seq!['"'] + quoted + seq!['"'];
    plain_is_trimmed(a);
    assert(a.subrange(1, a.len() - 1) =~= quoted);
    let b = seq!['\''] + quoted + seq!['\''];
    plain_is_trimmed(b);
    assert(b.subrange(1, b.len() - 1) =~= quoted);
    reveal_strlit("true");
    reveal_strlit("false");
    plain_is_trimmed("true"@);
    plain_is_trimmed("false"@);
    assert(seqs::ascii_lower("true"@) =~= "true"@);
    assert(seqs::ascii_lower("false"@) =~= "false"@);
    assert("true"@.len() != "false"@.len());
}

/// `[a, b, c]` is read as the sequence of the texts between the commas, in their order.
pub proof fn lists_are_read_back(items: Seq<Seq<char>>)
    requires
        forall|i: int| 0 <= i < items.len() ==> is_plain_text(#[trigger] items[i]),
    ensures
        inline_of(seq!['['] + seqs::join(items, ", "@) + seq![']']) == YamlView::Sequence(
            items.map_values(|s: Seq<char>| YamlView::Scalar(s)),
        ),
{
    let inner = seqs::join(items, ", "@);
    let whole = seq!['['] + inner + seq![']'];
    plain_is_trimmed(whole);
    assert(whole.subrange(1, whole.len() - 1) =~= inner);
    reveal_strlit(", ");
    if items.len() == 0 {
        assert(inner =~= Seq::empty());
        let pieces = seqs::split(inner, ',');
        assert(pieces =~= seq![Seq::<char>::empty()]);
        assert(pieces.drop_last() =~= Seq::empty());
        assert(flow_items(pieces.drop_last()) =~= Seq::empty());
        assert(flow_items(pieces) =~= items.map_values(|s: Seq<char>| YamlView::Scalar(s)));
    } else {
        let pieces = spaced(items);
        join_of_spaced(items);
        assert forall|i: int| 0 <= i < pieces.len() implies !(#[trigger] pieces[i]).contains(
            ',',
        ) by {
            assert(is_plain_text(items[i]));
            seqs::concat_holds(seq![' '], items[i], ',');
        }
        seqs::split_undoes_join(pieces, ',');
        spaced_items(items, pieces);
    }
}

/// The items as they stand between the commas: each but the first behind a space.
spec fn spaced(items: Seq<Seq<char>>) -> Seq<Seq<char>> {
    Seq::new(
        items.len(),
        |i: int|
            if i == 0 {
                items[0]
            } else {
                seq![' '] + items[i]
            },
    )
}

/// Joined by a comma, items behind a space each are what is joined by a comma and a space.
proof fn join_of_spaced(items: Seq<Seq<char>>)
    requires
        items.len() > 0,
    ensures
        seqs::join(spaced(items), seq![',']) == seqs::join(items, ", "@),
    decreases items.len(),
{
    reveal_strlit(", ");
    let a = spaced(items);
    if items.len() == 1 {
        assert(a =~= items);
    } else {
        let head = items.drop_last();
        join_of_spaced(head);
        assert(a.drop_last() =~= spaced(head));
        assert(a.last() == seq![' '] + items.last());
        let j = seqs::join(head, ", "@);
        assert(j + seq![','] + (seq![' '] + items.last()) =~= j + ", "@ + items.last());
    }
}

proof fn spaced_items(items: Seq<Seq<char>>, pieces: Seq<Seq<char>>)
    requires
        forall|i: int| 0 <= i < items.len() ==> is_plain_text(#[trigger] items[i]),
        pieces.len() == items.len(),
        forall|i: int|
            0 <= i < items.len() ==> #[trigger] pieces[i] == items[i] || pieces[i] == seq![' ']
                + items[i],
    ensures
        flow_items(pieces) == items.map_values(|s: Seq<char>| YamlView::Scalar(s)),
    decreases items.len(),
{
    let f = |s: Seq<char>| YamlView::Scalar(s);
    if items.len() > 0 {
        let n = items.len() - 1;
        let last = items[n];
        assert(is_plain_text(last));
        spaced_items(items.drop_last(), pieces.drop_last());
        plain_is_trimmed(last);
        let p = pieces[n];
        assert(pieces.last() == p);
        if p != last {
            assert(p.drop_first() =~= last);
            assert(p[0] == ' ');
            assert(seqs::trim_start(p) == seqs::trim_start(p.drop_first()));
        }
        assert(seqs::trim(p) == last);
        assert(scalar_of(last) == YamlView::Scalar(last));
    }
    assert(flow_items(pieces) =~= items.map_values(f));
}

proof fn plain_scan(s: Seq<char>, i: int)
    requires
        0 <= i <= s.len(),
        forall|j: int|
            0 <= j < i ==> #[trigger] s[j] != '"' && s[j] != '\'' && s[j] != '[' && s[j] != ']',
    ensures
        scan_to(s, i) == (Scan { quote: None, depth: 0 }),
    decreases i,
{
    if i > 0 {
        plain_scan(s, i - 1);
        assert(s[i - 1] != '"');
    }
}

proof fn no_comment(s: Seq<char>, i: int)
    requires
        0 <= i <= s.len(),
        forall|j: int| 0 <= j < s.len() ==> #[trigger] s[j] != '#',
    ensures
        comment_from(s, i) == s.len(),
    decreases s.len() - i,
{
    if i < s.len() {
        assert(s[i] != '#');
        no_comment(s, i + 1);
    }
}

proof fn colon_is_at(s: Seq<char>, i: int, k: int)
    requires
        0 <= i <= k < s.len(),
        key_colon_at(s, k),
        forall|j: int| 0 <= j < k ==> #[trigger] s[j] != ':',
    ensures
        colon_from(s, i) == Some(k),
    decreases k - i,
{
    if i < k {
        assert(s[i] != ':');
        colon_is_at(s, i + 1, k);
    }
}

proof fn no_colon(s: Seq<char>, i: int)
    requires
        0 <= i <= s.len(),
        forall|j: int| 0 <= j < s.len() ==> #[trigger] s[j] != ':',
    ensures
        colon_from(s, i) is None,
    decreases s.len() - i,
{
    if i < s.len() {
        assert(s[i] != ':');
        no_colon(s, i + 1);
    }
}

/// The line of an entry.
pub open spec fn entry_line(key: Seq<char>, value: Seq<char>) -> Seq<char> {
    key + seq![':', ' '] + value
}

proof fn entry_line_parts(key: Seq<char>, value: Seq<char>)
    requires
        is_plain(key),
        is_plain_text(value),
    ensures
        ({
            let l = entry_line(key, value);
            &&& without_comment(l) == l
            &&& !is_item(l)
            &&& colon_from(l, 0) == Some(key.len() as int)
            &&& seqs::trim(l.take(key.len() as int)) == key
            &&& seqs::trim(l.skip(key.len() as int + 1)) == value
            &&& !is_block_mark(value)
            &&& inline_of(value) == YamlView::Scalar(value)
            &&& line_of(l) == (LineView { indent: 0, content: l })
            &&& indentation(l).len() == 0
            &&& !is_blank(l)
            &&& seqs::is_line(l)
            &&& seqs::trim(l)[0] != '#'
        }),
{
    let l = entry_line(key, value);
    let k = key.len() as int;
    assert forall|j: int| 0 <= j < l.len() implies #[trigger] l[j] != '"' && l[j] != '\'' && l[j]
        != '[' && l[j] != ']' && l[j] != '#' && l[j] != '\n' && l[j] != '\r' by {
        if j < k {
            assert(l[j] == key[j]);
        } else if j >= k + 2 {
            assert(l[j] == value[j - k - 2]);
        }
    }
    assert forall|j: int| 0 <= j < k implies #[trigger] l[j] != ':' by {
        assert(l[j] == key[j]);
    }
    assert(l[0] == key[0]);
    assert(l.last() == value.last());
    no_comment(l, 0);
    assert(l.take(l.len() as int) =~= l);
    plain_is_trimmed(l);
    reveal_strlit("- ");
    reveal_strlit("-");
    if seqs::starts_with(l, "- "@) {
        assert(l.take(2)[0] == '-');
    }
    assert(!is_item(l)) by {
        if l == "-"@ {
            assert(l[0] == '-');
        }
    }
    plain_scan(l, k);
    assert(l[k] == ':' && l[k + 1] == ' ');
    colon_is_at(l, 0, k);
    assert(l.take(k) =~= key);
    plain_is_trimmed(key);
    let rest = l.skip(k + 1);
    assert(rest =~= seq![' '] + value);
    assert(rest.drop_first() =~= value);
    plain_is_trimmed(value);
    assert(seqs::trim_start(rest) == seqs::trim_start(rest.drop_first()));
    reveal_strlit(">");
    reveal_strlit("|");
    reveal_strlit(">-");
    reveal_strlit("|-");
    values_are_read_back(value, value);
    assert(l.take(0) =~= Seq::empty());
    assert(seqs::byte_len(Seq::empty()) == 0);
}

/// The lines of the entries.
pub open spec fn entry_lines(keys: Seq<Seq<char>>, values: Seq<Seq<char>>) -> Seq<Seq<char>> {
    Seq::new(keys.len(), |i: int| entry_line(keys[i], values[i]))
}

/// A text of lines `key: value` is read as the mapping of these keys to these values, in
/// their order.
pub proof fn mappings_are_read_back(keys: Seq<Seq<char>>, values: Seq<Seq<char>>)
    requires
        keys.len() == values.len(),
        forall|i: int| 0 <= i < keys.len() ==> is_plain(#[trigger] keys[i]),
        forall|i: int| 0 <= i < values.len() ==> is_plain_text(#[trigger] values[i]),
    ensures
        yaml_of(seqs::written(entry_lines(keys, values))) == Ok::<YamlView, Seq<char>>(
            YamlView::Mapping(
                Seq::new(keys.len(), |i: int| (keys[i], YamlView::Scalar(values[i]))),
            ),
        ),
{
    let raw = entry_lines(keys, values);
    let ls = raw.map_values(|l: Seq<char>| LineView { indent: 0, content: l });
    assert forall|i: int| 0 <= i < raw.len() implies seqs::is_line(#[trigger] raw[i])
        && indentation(raw[i]).len() == 0 && !is_blank(raw[i]) && seqs::trim(raw[i])[0] != '#'
        && line_of(raw[i]) == (LineView { indent: 0, content: raw[i] }) by {
        assert(is_plain(keys[i]) && is_plain_text(values[i]));
        entry_line_parts(keys[i], values[i]);
    }
    seqs::lines_read_back(raw);
    flush_lines(raw);
    let es = Seq::new(keys.len(), |i: int| (keys[i], YamlView::Scalar(values[i])));
    if keys.len() == 0 {
        assert(es =~= Seq::empty());
    } else {
        entries_from(keys, values, ls, 0);
        assert(es.skip(0) =~= es);
        assert(is_plain(keys[0]) && is_plain_text(values[0]));
        entry_line_parts(keys[0], values[0]);
        assert(ls[0].content == raw[0]);
    }
}

proof fn flush_lines(raw: Seq<Seq<char>>)
    requires
        forall|i: int|
            0 <= i < raw.len() ==> indentation(#[trigger] raw[i]).len() == 0 && !is_blank(raw[i])
                && seqs::trim(raw[i])[0] != '#' && line_of(raw[i]) == (LineView {
                indent: 0,
                content: raw[i],
            }),
    ensures
        source_lines(raw) == Ok::<Seq<LineView>, Seq<char>>(
            raw.map_values(|l: Seq<char>| LineView { indent: 0, content: l }),
        ),
    decreases raw.len(),
{
    let f = |l: Seq<char>| LineView { indent: 0, content: l };
    if raw.len() > 0 {
        let head = raw.drop_last();
        assert forall|i: int| 0 <= i < head.len() implies indentation(#[trigger] head[i]).len() == 0
            && !is_blank(head[i]) && seqs::trim(head[i])[0] != '#' && line_of(head[i]) == (LineView {
            indent: 0,
            content: head[i],
        }) by {
            assert(head[i] == raw[i]);
        }
        flush_lines(head);
        assert(raw.last() == raw[raw.len() - 1]);
        assert(raw.map_values(f) =~= head.map_values(f).push(line_of(raw.last())));
    } else {
        assert(raw.map_values(f) =~= Seq::empty());
    }
}

proof fn entries_from(
    keys: Seq<Seq<char>>,
    values: Seq<Seq<char>>,
    ls: Seq<LineView>,
    i: int,
)
    requires
        0 <= i <= keys.len(),
        keys.len() == values.len(),
        forall|j: int| 0 <= j < keys.len() ==> is_plain(#[trigger] keys[j]),
        forall|j: int| 0 <= j < values.len() ==> is_plain_text(#[trigger] values[j]),
        ls == entry_lines(keys, values).map_values(
            |l: Seq<char>| LineView { indent: 0, content: l },
        ),
    ensures
        map_at(ls, i, 0) == Ok::<(Seq<(Seq<char>, YamlView)>, int), Seq<char>>(
            (
                Seq::new(keys.len(), |j: int| (keys[j], YamlView::Scalar(values[j]))).skip(i),
                keys.len() as int,
            ),
        ),
    decreases keys.len() - i,
{
    let es = Seq::new(keys.len(), |j: int| (keys[j], YamlView::Scalar(values[j])));
    if i == keys.len() {
        assert(es.skip(i) =~= Seq::empty());
    } else {
        assert(is_plain(keys[i]) && is_plain_text(values[i]));
        entry_line_parts(keys[i], values[i]);
        assert(ls[i].content == entry_line(keys[i], values[i]));
        entries_from(keys, values, ls, i + 1);
        assert(value_at(ls, i + 1, 0, values[i]) == Ok::<(YamlView, int), Seq<char>>(
            (YamlView::Scalar(values[i]), i + 1),
        ));
        assert(seq![(keys[i], YamlView::Scalar(values[i]))] + es.skip(i + 1) =~= es.skip(i));
    }
}

/// The line of an item.
pub open spec fn item_line(value: Seq<char>) -> Seq<char> {
    seq!['-', ' '] + value
}

proof fn item_line_parts(value: Seq<char>)
    requires
        is_plain_text(value),
    ensures
        ({
            let l = item_line(value);
            &&& without_comment(l) == l
            &&& is_item(l)
            &&& l != "-"@
            &&& seqs::trim(l.skip(2)) == value
            &&& colon_from(value, 0) is None
            &&& inline_of(value) == YamlView::Scalar(value)
            &&& line_of(l) == (LineView { indent: 0, content: l })
            &&& indentation(l).len() == 0
            &&& !is_blank(l)
            &&& seqs::is_line(l)
            &&& seqs::trim(l)[0] != '#'
        }),
{
    let l = item_line(value);
    assert forall|j: int| 0 <= j < l.len() implies #[trigger] l[j] != '#' && l[j] != '\n' && l[j]
        != '\r' by {
        if j >= 2 {
            assert(l[j] == value[j - 2]);
        }
    }
    assert(l.last() == value.last());
    no_comment(l, 0);
    assert(l.take(l.len() as int) =~= l);
    plain_is_trimmed(l);
    reveal_strlit("- ");
    reveal_strlit("-");
    assert(l.take(2) =~= "- "@);
    assert(l.skip(2) =~= value);
    plain_is_trimmed(value);
    no_colon(value, 0);
    values_are_read_back(value, value);
    assert(l.take(0) =~= Seq::empty());
    assert(seqs::byte_len(Seq::empty()) == 0);
}

/// The lines of the items.
pub open spec fn item_lines(values: Seq<Seq<char>>) -> Seq<Seq<char>> {
    values.map_values(|v: Seq<char>| item_line(v))
}

/// A text of lines `- value` is read as the sequence of these values, in their order.
pub proof fn sequences_are_read_back(values: Seq<Seq<char>>)
    requires
        values.len() > 0,
        forall|i: int| 0 <= i < values.len() ==> is_plain_text(#[trigger] values[i]),
    ensures
        yaml_of(seqs::written(item_lines(values))) == Ok::<YamlView, Seq<char>>(
            YamlView::Sequence(values.map_values(|s: Seq<char>| YamlView::Scalar(s))),
        ),
{
    let raw = item_lines(values);
    let ls = raw.map_values(|l: Seq<char>| LineView { indent: 0, content: l });
    assert forall|i: int| 0 <= i < raw.len() implies seqs::is_line(#[trigger] raw[i])
        && indentation(raw[i]).len() == 0 && !is_blank(raw[i]) && seqs::trim(raw[i])[0] != '#'
        && line_of(raw[i]) == (LineView { indent: 0, content: raw[i] }) by {
        assert(is_plain_text(values[i]));
        item_line_parts(values[i]);
    }
    seqs::lines_read_back(raw);
    flush_lines(raw);
    items_from(values, ls, 0);
    let ns = values.map_values(|s: Seq<char>| YamlView::Scalar(s));
    assert(ns.skip(0) =~= ns);
    assert(is_plain_text(values[0]));
    item_line_parts(values[0]);
    assert(ls[0].content == raw[0]);
}

proof fn items_from(values: Seq<Seq<char>>, ls: Seq<LineView>, i: int)
    requires
        0 <= i <= values.len(),
        forall|j: int| 0 <= j < values.len() ==> is_plain_text(#[trigger] values[j]),
        ls == item_lines(values).map_values(|l: Seq<char>| LineView { indent: 0, content: l }),
    ensures
        seq_at(ls, i, 0) == Ok::<(Seq<YamlView>, int), Seq<char>>(
            (
                values.map_values(|s: Seq<char>| YamlView::Scalar(s)).skip(i),
                values.len() as int,
            ),
        ),
    decreases values.len() - i,
{
    let ns = values.map_values(|s: Seq<char>| YamlView::Scalar(s));
    if i == values.len() {
        assert(ns.skip(i) =~= Seq::empty());
    } else {
        assert(is_plain_text(values[i]));
        item_line_parts(values[i]);
        assert(ls[i].content == item_line(values[i]));
        items_from(values, ls, i + 1);
        assert(item_at(ls, i + 1, 0, values[i]) == Ok::<(YamlView, int), Seq<char>>(
            (YamlView::Scalar(values[i]), i + 1),
        ));
        assert(seq![YamlView::Scalar(values[i])] + ns.skip(i + 1) =~= ns.skip(i));
    }
}

/// The text before an inline comment is what counts of a line; a `#` inside quotes, or right
/// behind another character, begins none.
pub proof fn comments_are_dropped(s: Seq<char>, comment: Seq<char>)
    requires
        is_plain(s),
    ensures
        without_comment(s + seq![' ', '#'] + comment) == s,
        without_comment(s) == s,
{
    let whole = s + seq![' ', '#'] + comment;
    let k = s.len() as int;
    assert forall|j: int| 0 <= j < k implies #[trigger] whole[j] != '"' && whole[j] != '\''
        && whole[j] != '[' && whole[j] != ']' && whole[j] != '#' by {
        assert(whole[j] == s[j]);
    }
    assert(whole[k] == ' ' && whole[k + 1] == '#');
    plain_scan(whole, k + 1);
    comment_is_at(whole, 0, k + 1);
    let before = whole.take(k + 1);
    assert(before.last() == ' ');
    assert(before.drop_last() =~= s);
    plain_is_trimmed(s);
    no_comment(s, 0);
    assert(s.take(k) =~= s);
}

proof fn comment_is_at(s: Seq<char>, i: int, k: int)
    requires
        0 <= i <= k < s.len(),
        comment_at(s, k),
        forall|j: int| 0 <= j < k ==> #[trigger] s[j] != '#',
    ensures
        comment_from(s, i) == k,
    decreases k - i,
{
    if i < k {
        assert(s[i] != '#');
        comment_is_at(s, i + 1, k);
    }
}

} // verus!
