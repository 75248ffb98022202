//! Pane rectangles from a tmux `window_layout` string.
//!
//! ```text
//! layout    := checksum "," node
//! node      := geom ( "," pane-number | container )
//! geom      := W "x" H "," X "," Y
//! container := "{" node ("," node)+ "}"     a row
//!            | "[" node ("," node)+ "]"     a column
//! ```
//!
//! A pane number is the number of the pane's id: `3` stands for `%3`.
use crate::seqs;
use crate::text;
use vstd::prelude::*;

verus! {

/// The rectangle of one pane, in cells.
#[derive(Debug, Clone, PartialEq, Eq)]
pub struct LayoutRect {
    pub pane_id: String,
    pub x: u16,
    pub y: u16,
    pub w: u16,
    pub h: u16,
}

/// The size of a window and the rectangles of its panes.
#[derive(Debug, Clone, PartialEq, Eq)]
pub struct WindowLayout {
    pub width: u16,
    pub height: u16,
    pub rects: Vec<LayoutRect>,
}

#[verifier::ext_equal]
pub struct RectView {
    pub pane_id: Seq<char>,
    pub x: nat,
    pub y: nat,
    pub w: nat,
    pub h: nat,
}

impl View for LayoutRect {
    type V = RectView;

    open spec fn view(&self) -> RectView {
        RectView {
            pane_id: self.pane_id@,
            x: self.x as nat,
            y: self.y as nat,
            w: self.w as nat,
            h: self.h as nat,
        }
    }
}

pub open spec fn rect_views(v: Seq<LayoutRect>) -> Seq<RectView> {
    v.map_values(|r: LayoutRect| r@)
}

#[verifier::ext_equal]
pub struct LayoutView {
    pub width: nat,
    pub height: nat,
    pub rects: Seq<RectView>,
}

impl View for WindowLayout {
    type V = LayoutView;

    open spec fn view(&self) -> LayoutView {
        LayoutView {
            width: self.width as nat,
            height: self.height as nat,
            rects: rect_views(self.rects@),
        }
    }
}

// ── The grammar ─────────────────────────────────────────────────────────────────────────

/// Where the digits that begin at `i` end.
pub open spec fn digits_end(s: Seq<char>, i: int) -> int
    decreases s.len() - i,
{
    if 0 <= i < s.len() && seqs::is_digit(s[i]) {
        digits_end(s, i + 1)
    } else {
        i
    }
}

/// The number that stands at `i`, and where it ends.
pub open spec fn number_at(s: Seq<char>, i: int) -> Option<(nat, int)> {
    let e = digits_end(s, i);
    if e > i && seqs::digits_value(s.subrange(i, e)) <= 65535 {
        Some((seqs::digits_value(s.subrange(i, e)), e))
    } else {
        None
    }
}

pub open spec fn char_at(s: Seq<char>, i: int, c: char) -> bool {
    0 <= i < s.len() && s[i] == c
}

/// The width, height, left and top that stand at `i`, and where they end.
pub open spec fn geom_at(s: Seq<char>, i: int) -> Option<(nat, nat, nat, nat, int)> {
    match number_at(s, i) {
        None => None,
        Some((w, a)) => if !char_at(s, a, 'x') {
            None
        } else {
            match number_at(s, a + 1) {
                None => None,
                Some((h, b)) => if !char_at(s, b, ',') {
                    None
                } else {
                    match number_at(s, b + 1) {
                        None => None,
                        Some((x, c)) => if !char_at(s, c, ',') {
                            None
                        } else {
                            match number_at(s, c + 1) {
                                None => None,
                                Some((y, d)) => Some((w, h, x, y, d)),
                            }
                        },
                    }
                },
            }
        },
    }
}

/// What reading a node gives: its width and height, the rectangles in it, and its end.
pub type NodeAt = Option<(nat, nat, Seq<RectView>, int)>;

/// The node that stands at `i`.
pub open spec fn node_at(s: Seq<char>, i: int) -> NodeAt
    decreases s.len() - i, 0int,
{
    match geom_at(s, i) {
        None => None,
        Some((w, h, x, y, d)) => if !(i < d < s.len()) {
            None
        } else if s[d] == '{' || s[d] == '[' {
            let close = if s[d] == '{' {
                '}'
            } else {
                ']'
            };
            match nodes_at(s, d + 1) {
                None => None,
                Some((rects, e, n)) => if n >= 2 && char_at(s, e, close) {
                    Some((w, h, rects, e + 1))
                } else {
                    None
                },
            }
        } else if s[d] == ',' {
            match number_at(s, d + 1) {
                None => None,
                Some((id, e)) => Some(
                    (w, h, seq![RectView { pane_id: "%"@ + seqs::decimal(id), x, y, w, h }], e),
                ),
            }
        } else {
            None
        },
    }
}

/// The nodes, with commas between them, that stand at `i`: their rectangles, their end and
/// how many they are.
pub open spec fn nodes_at(s: Seq<char>, i: int) -> Option<(Seq<RectView>, int, nat)>
    decreases s.len() - i, 1int,
{
    match node_at(s, i) {
        None => None,
        Some((_, _, rects, e)) => if char_at(s, e, ',') && i <= e {
            match nodes_at(s, e + 1) {
                None => None,
                Some((more, k, n)) => Some((rects + more, k, n + 1)),
            }
        } else {
            Some((rects, e, 1))
        },
    }
}

pub open spec fn is_hex(c: char) -> bool {
    seqs::is_digit(c) || 'a' <= c <= 'f' || 'A' <= c <= 'F'
}

pub open spec fn is_checksum(s: Seq<char>) -> bool {
    s.len() == 4 && is_hex(s[0]) && is_hex(s[1]) && is_hex(s[2]) && is_hex(s[3])
}

/// The layout that a string writes.
pub open spec fn layout_of(text: Seq<char>) -> Option<LayoutView> {
    let s = seqs::trim(text);
    let comma = seqs::index_of(s, ',');
    if comma == s.len() || !is_checksum(s.take(comma)) {
        None
    } else {
        let body = s.skip(comma + 1);
        match node_at(body, 0) {
            None => None,
            Some((width, height, rects, e)) => if e == body.len() {
                Some(LayoutView { width, height, rects })
            } else {
                None
            },
        }
    }
}

pub proof fn digits_end_bounds(s: Seq<char>, i: int)
    requires
        0 <= i <= s.len(),
    ensures
        i <= digits_end(s, i) <= s.len(),
        forall|j: int| i <= j < digits_end(s, i) ==> seqs::is_digit(#[trigger] s[j]),
        digits_end(s, i) < s.len() ==> !seqs::is_digit(s[digits_end(s, i)]),
    decreases s.len() - i,
{
    if i < s.len() && seqs::is_digit(s[i]) {
        digits_end_bounds(s, i + 1);
    }
}

proof fn number_bounds(s: Seq<char>, i: int)
    requires
        0 <= i <= s.len(),
    ensures
        number_at(s, i) matches Some((_, e)) ==> i < e <= s.len(),
{
    digits_end_bounds(s, i);
}

proof fn geom_bounds(s: Seq<char>, i: int)
    requires
        0 <= i <= s.len(),
    ensures
        geom_at(s, i) matches Some((_, _, _, _, d)) ==> i < d <= s.len(),
{
    number_bounds(s, i);
    if let Some((_, a)) = number_at(s, i) {
        if char_at(s, a, 'x') {
            number_bounds(s, a + 1);
            if let Some((_, b)) = number_at(s, a + 1) {
                if char_at(s, b, ',') {
                    number_bounds(s, b + 1);
                    if let Some((_, c)) = number_at(s, b + 1) {
                        if char_at(s, c, ',') {
                            number_bounds(s, c + 1);
                        }
                    }
                }
            }
        }
    }
}

proof fn node_bounds(s: Seq<char>, i: int)
    requires
        0 <= i <= s.len(),
    ensures
        node_at(s, i) matches Some((_, _, _, e)) ==> i < e <= s.len(),
    decreases s.len() - i, 0int,
{
    geom_bounds(s, i);
    if let Some((_, _, _, _, d)) = geom_at(s, i) {
        if d < s.len() {
            nodes_bounds(s, d + 1);
            number_bounds(s, d + 1);
        }
    }
}

proof fn nodes_bounds(s: Seq<char>, i: int)
    requires
        0 <= i <= s.len(),
    ensures
        nodes_at(s, i) matches Some((_, e, n)) ==> i < e <= s.len() && n > 0,
    decreases s.len() - i, 1int,
{
    node_bounds(s, i);
    if let Some((_, _, _, e)) = node_at(s, i) {
        if char_at(s, e, ',') {
            nodes_bounds(s, e + 1);
        }
    }
}

// ── The parser ──────────────────────────────────────────────────────────────────────────

fn number(cs: &[char], i: usize) -> (r: Option<(u16, usize)>)
    requires
        i <= cs@.len(),
    ensures
        (match r {
            Some((n, e)) => number_at(cs@, i as int) == Some((n as nat, e as int)) && i < e
                <= cs@.len(),
            None => number_at(cs@, i as int) is None,
        }),
{
    let ghost end = digits_end(cs@, i as int);
    let mut k: usize = i;
    let mut value: u32 = 0;
    let mut fits = true;
    proof {
        digits_end_bounds(cs@, i as int);
        assert(cs@.subrange(i as int, i as int) =~= Seq::empty());
    }
    while k < cs.len() && text::is_digit(cs[k])
        invariant
            i <= k <= end <= cs@.len(),
            end == digits_end(cs@, i as int),
            digits_end(cs@, i as int) == digits_end(cs@, k as int),
            fits ==> value <= 65535 && value == seqs::digits_value(cs@.subrange(i as int, k as int)),
            !fits ==> seqs::digits_value(cs@.subrange(i as int, k as int)) > 65535,
        decreases cs@.len() - k,
    {
        let ghost head = cs@.subrange(i as int, k + 1);
        proof {
            digits_end_bounds(cs@, k as int);
            assert(head.drop_last() =~= cs@.subrange(i as int, k as int));
            assert(head.last() == cs@[k as int]);
        }
        if fits {
            value = value * 10 + (cs[k] as u32 - 48);
            fits = value <= 65535;
        }
        k += 1;
    }
    if k == i || !fits {
        None
    } else {
        Some((value as u16, k))
    }
}

fn is_char(cs: &[char], i: usize, c: char) -> (r: bool)
    ensures
        r == char_at(cs@, i as int, c),
        r ==> i < usize::MAX,
{
    i < cs.len() && cs[i] == c
}

fn geom(cs: &[char], i: usize) -> (r: Option<(u16, u16, u16, u16, usize)>)
    requires
        i <= cs@.len(),
    ensures
        (match r {
            Some((w, h, x, y, d)) => geom_at(cs@, i as int) == Some(
                (w as nat, h as nat, x as nat, y as nat, d as int),
            ) && i < d <= cs@.len(),
            None => geom_at(cs@, i as int) is None,
        }),
{
    let (w, a) = match number(cs, i) {
        Some(p) => p,
        None => return None,
    };
    if !is_char(cs, a, 'x') {
        return None;
    }
    let (h, b) = match number(cs, a + 1) {
        Some(p) => p,
        None => return None,
    };
    if !is_char(cs, b, ',') {
        return None;
    }
    let (x, c) = match number(cs, b + 1) {
        Some(p) => p,
        None => return None,
    };
    if !is_char(cs, c, ',') {
        return None;
    }
    let (y, d) = match number(cs, c + 1) {
        Some(p) => p,
        None => return None,
    };
    Some((w, h, x, y, d))
}

/// Reads the node at `i`: adds its rectangles to `rects`, and returns its width, its height
/// and its end.
fn node(cs: &[char], i: usize, rects: &mut Vec<LayoutRect>) -> (r: Option<(u16, u16, usize)>)
    requires
        i <= cs@.len(),
    ensures
        (match r {
            Some((w, h, e)) => i < e <= cs@.len() && (node_at(cs@, i as int) matches Some(
                (ww, hh, rs, ee),
            ) && ww == w && hh == h && ee == e && rect_views(final(rects)@) == rect_views(
                old(rects)@,
            ) + rs),
            None => node_at(cs@, i as int) is None,
        }),
    decreases cs@.len() - i, 0int,
{
    let ghost before = rect_views(rects@);
    let (w, h, x, y, d) = match geom(cs, i) {
        Some(g) => g,
        None => return None,
    };
    proof {
        node_bounds(cs@, i as int);
    }
    if d >= cs.len() {
        return None;
    }
    if cs[d] == '{' || cs[d] == '[' {
        let close = if cs[d] == '{' {
            '}'
        } else {
            ']'
        };
        let (e, many) = match nodes(cs, d + 1, rects) {
            Some(p) => p,
            None => return None,
        };
        if !many || !is_char(cs, e, close) {
            return None;
        }
        Some((w, h, e + 1))
    } else if cs[d] == ',' {
        let (id, e) = match number(cs, d + 1) {
            Some(p) => p,
            None => return None,
        };
        let mut pane_id = "%".to_owned();
        pane_id.append(text::decimal(id as u64).as_str());
        let rect = LayoutRect { pane_id, x, y, w, h };
        rects.push(rect);
        assert(rect_views(rects@) =~= before + seq![rect@]);
        Some((w, h, e))
    } else {
        None
    }
}

/// Reads the nodes at `start`, and returns their end and whether there are two or more.
fn nodes(cs: &[char], start: usize, rects: &mut Vec<LayoutRect>) -> (r: Option<(usize, bool)>)
    requires
        start <= cs@.len(),
    ensures
        (match r {
            Some((e, many)) => start < e <= cs@.len() && (nodes_at(cs@, start as int) matches Some(
                (rs, ee, n),
            ) && ee == e && many == (n >= 2) && rect_views(final(rects)@) == rect_views(old(rects)@) + rs),
            None => nodes_at(cs@, start as int) is None,
        }),
    decreases cs@.len() - start, 1int,
{
    let ghost before = rect_views(rects@);
    let e: usize = match node(cs, start, rects) {
        Some((_, _, e)) => e,
        None => return None,
    };
    proof {
        nodes_bounds(cs@, start as int);
    }
    if is_char(cs, e, ',') {
        match nodes(cs, e + 1, rects) {
            Some((k, _)) => {
                proof {
                    nodes_bounds(cs@, e + 1);
                    if let Some((_, _, rs, _)) = node_at(cs@, start as int) {
                        if let Some((more, _, _)) = nodes_at(cs@, e + 1) {
                            assert((before + rs) + more =~= before + (rs + more));
                        }
                    }
                }
                return Some((k, true));
            },
            None => return None,
        }
    }
    Some((e, false))
}

fn hex_digit(c: char) -> (r: bool)
    ensures
        r == is_hex(c),
{
    text::is_digit(c) || (c >= 'a' && c <= 'f') || (c >= 'A' && c <= 'F')
}

/// Reads a tmux `window_layout`. Whatever is not one gives `None`.
pub fn parse_window_layout(s: &str) -> (r: Option<WindowLayout>)
    ensures
        (match r {
            Some(l) => layout_of(s@) == Some(l@),
            None => layout_of(s@) is None,
        }),
{
    let trimmed = text::trim(s);
    let cs = text::chars_of(trimmed.as_str());
    let n: usize = cs.len();
    let comma = text::index_from(&cs, ',', 0);
    assert(cs@.skip(0) =~= cs@);
    assert(comma <= n);
    if comma == n || comma != 4 || !hex_digit(cs[0]) || !hex_digit(cs[1]) || !hex_digit(cs[2])
        || !hex_digit(cs[3]) {
        return None;
    }
    let body = text::chars_of(text::string_of(&cs, 5, n).as_str());
    assert(body@ =~= cs@.skip(5));
    let mut rects: Vec<LayoutRect> = Vec::new();
    assert(rect_views(rects@) =~= Seq::empty());
    let (width, height, e) = match node(&body, 0, &mut rects) {
        Some(x) => x,
        None => return None,
    };
    if e != body.len() {
        return None;
    }
    proof {
        if let Some((_, _, rs, _)) = node_at(body@, 0) {
            assert(Seq::<RectView>::empty() + rs =~= rs);
        }
    }
    Some(WindowLayout { width, height, rects })
}

// ── Layouts as trees ────────────────────────────────────────────────────────────────────

/// A layout as a tree of rows and columns of panes.
pub enum Tree {
    Pane { w: nat, h: nat, x: nat, y: nat, id: nat },
    Row { w: nat, h: nat, x: nat, y: nat, children: Seq<Tree> },
    Column { w: nat, h: nat, x: nat, y: nat, children: Seq<Tree> },
}

/// Every number of the tree fits into the grammar, and a row or column has two children or
/// more.
pub open spec fn is_tree(t: Tree) -> bool
    decreases t,
{
    match t {
        Tree::Pane { w, h, x, y, id } => w <= 65535 && h <= 65535 && x <= 65535 && y <= 65535 && id
            <= 65535,
        Tree::Row { w, h, x, y, children } => w <= 65535 && h <= 65535 && x <= 65535 && y <= 65535
            && children.len() >= 2 && are_trees(children),
        Tree::Column { w, h, x, y, children } => w <= 65535 && h <= 65535 && x <= 65535 && y
            <= 65535 && children.len() >= 2 && are_trees(children),
    }
}

pub open spec fn are_trees(ts: Seq<Tree>) -> bool
    decreases ts,
{
    ts.len() == 0 || (is_tree(ts[0]) && are_trees(ts.drop_first()))
}

pub open spec fn geom_text(w: nat, h: nat, x: nat, y: nat) -> Seq<char> {
    seqs::decimal(w) + seq!['x'] + seqs::decimal(h) + seq![','] + seqs::decimal(x) + seq![',']
        + seqs::decimal(y)
}

/// How tmux writes a tree.
pub open spec fn tree_text(t: Tree) -> Seq<char>
    decreases t,
{
    match t {
        Tree::Pane { w, h, x, y, id } => geom_text(w, h, x, y) + seq![','] + seqs::decimal(id),
        Tree::Row { w, h, x, y, children } => geom_text(w, h, x, y) + seq!['{'] + trees_text(
            children,
        ) + seq!['}'],
        Tree::Column { w, h, x, y, children } => geom_text(w, h, x, y) + seq!['['] + trees_text(
            children,
        ) + seq![']'],
    }
}

pub open spec fn trees_text(ts: Seq<Tree>) -> Seq<char>
    decreases ts,
{
    if ts.len() == 0 {
        Seq::empty()
    } else if ts.len() == 1 {
        tree_text(ts[0])
    } else {
        tree_text(ts[0]) + seq![','] + trees_text(ts.drop_first())
    }
}

/// The rectangles of the panes of a tree.
pub open spec fn tree_rects(t: Tree) -> Seq<RectView>
    decreases t,
{
    match t {
        Tree::Pane { w, h, x, y, id } => seq![
            RectView { pane_id: "%"@ + seqs::decimal(id), x, y, w, h },
        ],
        Tree::Row { children, .. } => trees_rects(children),
        Tree::Column { children, .. } => trees_rects(children),
    }
}

pub open spec fn trees_rects(ts: Seq<Tree>) -> Seq<RectView>
    decreases ts,
{
    if ts.len() == 0 {
        Seq::empty()
    } else {
        tree_rects(ts[0]) + trees_rects(ts.drop_first())
    }
}

pub open spec fn tree_size(t: Tree) -> (nat, nat) {
    match t {
        Tree::Pane { w, h, .. } => (w, h),
        Tree::Row { w, h, .. } => (w, h),
        Tree::Column { w, h, .. } => (w, h),
    }
}

/// `t` stands in `s` at `i`, and no digit follows it.
spec fn stands_at(s: Seq<char>, i: int, t: Seq<char>) -> bool {
    &&& 0 <= i
    &&& i + t.len() <= s.len()
    &&& s.subrange(i, i + t.len()) == t
    &&& i + t.len() < s.len() ==> !seqs::is_digit(s[i + t.len()])
}

proof fn decimal_number(n: nat)
    ensures
        seqs::decimal(n).len() > 0,
        seqs::all_digits(seqs::decimal(n)),
        seqs::digits_value(seqs::decimal(n)) == n,
    decreases n,
{
    let s = seqs::decimal(n);
    if n < 10 {
        assert(s.drop_last() =~= Seq::empty());
        assert(seqs::digits_value(s.drop_last()) == 0);
    } else {
        decimal_number(n / 10);
        assert(s.drop_last() =~= seqs::decimal(n / 10));
    }
}

proof fn digits_end_is(s: Seq<char>, i: int, e: int)
    requires
        0 <= i <= e <= s.len(),
        forall|j: int| i <= j < e ==> seqs::is_digit(#[trigger] s[j]),
        e < s.len() ==> !seqs::is_digit(s[e]),
    ensures
        digits_end(s, i) == e,
    decreases e - i,
{
    if i < e {
        assert(seqs::is_digit(s[i]));
        digits_end_is(s, i + 1, e);
    }
}

proof fn number_reads(s: Seq<char>, i: int, n: nat)
    requires
        stands_at(s, i, seqs::decimal(n)),
        n <= 65535,
    ensures
        number_at(s, i) == Some((n, i + seqs::decimal(n).len())),
{
    let t = seqs::decimal(n);
    decimal_number(n);
    assert forall|j: int| i <= j < i + t.len() implies seqs::is_digit(#[trigger] s[j]) by {
        assert(t[j - i] == s.subrange(i, i + t.len())[j - i]);
    }
    digits_end_is(s, i, i + t.len());
}

/// A part of a text that stands somewhere stands there too.
proof fn part_stands(s: Seq<char>, i: int, whole: Seq<char>, k: int, part: Seq<char>)
    requires
        0 <= i,
        i + whole.len() <= s.len(),
        s.subrange(i, i + whole.len()) == whole,
        0 <= k,
        k + part.len() <= whole.len(),
        whole.subrange(k, k + part.len()) == part,
    ensures
        s.subrange(i + k, i + k + part.len()) == part,
        k + part.len() < whole.len() ==> s[i + k + part.len()] == whole[k + part.len() as int],
{
    assert(s.subrange(i + k, i + k + part.len()) =~= whole.subrange(k, k + part.len()));
    if k + part.len() < whole.len() {
        assert(s.subrange(i, i + whole.len())[k + part.len() as int] == s[i + k + part.len()]);
    }
}

proof fn geom_reads(s: Seq<char>, i: int, w: nat, h: nat, x: nat, y: nat)
    requires
        stands_at(s, i, geom_text(w, h, x, y)),
        w <= 65535,
        h <= 65535,
        x <= 65535,
        y <= 65535,
    ensures
        geom_at(s, i) == Some((w, h, x, y, i + geom_text(w, h, x, y).len())),
{
    let whole = geom_text(w, h, x, y);
    let dw = seqs::decimal(w);
    let dh = seqs::decimal(h);
    let dx = seqs::decimal(x);
    let dy = seqs::decimal(y);
    let a = dw.len() as int;
    let b = a + 1 + dh.len();
    let c = b + 1 + dx.len();
    let d = c + 1 + dy.len();
    assert(whole.len() == d);
    assert(whole.subrange(0, a) =~= dw);
    assert(whole.subrange(a + 1, b) =~= dh);
    assert(whole.subrange(b + 1, c) =~= dx);
    assert(whole.subrange(c + 1, d) =~= dy);
    assert(whole[a] == 'x');
    assert(whole[b] == ',');
    assert(whole[c] == ',');
    part_stands(s, i, whole, 0, dw);
    part_stands(s, i, whole, a + 1, dh);
    part_stands(s, i, whole, b + 1, dx);
    part_stands(s, i, whole, c + 1, dy);
    number_reads(s, i, w);
    number_reads(s, i + a + 1, h);
    number_reads(s, i + b + 1, x);
    number_reads(s, i + c + 1, y);
}

#[verifier::rlimit(60)]
#[verifier::spinoff_prover]
proof fn tree_reads(s: Seq<char>, i: int, t: Tree)
    requires
        stands_at(s, i, tree_text(t)),
        is_tree(t),
    ensures
        node_at(s, i) == NodeAt::Some(
            (tree_size(t).0, tree_size(t).1, tree_rects(t), i + tree_text(t).len()),
        ),
    decreases t, 0int,
{
    let whole = tree_text(t);
    match t {
        Tree::Pane { w, h, x, y, id } => {
            let g = geom_text(w, h, x, y);
            let gl = g.len() as int;
            let n = seqs::decimal(id);
            assert(whole.subrange(0, gl) =~= g);
            assert(whole[gl] == ',');
            assert(whole.subrange(gl + 1, whole.len() as int) =~= n);
            part_stands(s, i, whole, 0, g);
            part_stands(s, i, whole, gl + 1, n);
            geom_reads(s, i, w, h, x, y);
            number_reads(s, i + gl + 1, id);
            decimal_number(w);
        },
        Tree::Row { w, h, x, y, children } => {
            let g = geom_text(w, h, x, y);
            let gl = g.len() as int;
            let inner = trees_text(children);
            assert(whole.subrange(0, gl) =~= g);
            assert(whole[gl] == '{');
            assert(whole.subrange(gl + 1, gl + 1 + inner.len()) =~= inner);
            assert(whole[gl + 1 + inner.len()] == '}');
            part_stands(s, i, whole, 0, g);
            part_stands(s, i, whole, gl + 1, inner);
            geom_reads(s, i, w, h, x, y);
            trees_read(s, i + gl + 1, children);
            decimal_number(w);
        },
        Tree::Column { w, h, x, y, children } => {
            let g = geom_text(w, h, x, y);
            let gl = g.len() as int;
            let inner = trees_text(children);
            assert(whole.subrange(0, gl) =~= g);
            assert(whole[gl] == '[');
            assert(whole.subrange(gl + 1, gl + 1 + inner.len()) =~= inner);
            assert(whole[gl + 1 + inner.len()] == ']');
            part_stands(s, i, whole, 0, g);
            part_stands(s, i, whole, gl + 1, inner);
            geom_reads(s, i, w, h, x, y);
            trees_read(s, i + gl + 1, children);
            decimal_number(w);
        },
    }
}

proof fn trees_read(s: Seq<char>, i: int, ts: Seq<Tree>)
    requires
        stands_at(s, i, trees_text(ts)),
        i + trees_text(ts).len() < s.len(),
        s[i + trees_text(ts).len()] != ',',
        ts.len() > 0,
        are_trees(ts),
    ensures
        nodes_at(s, i) == Some((trees_rects(ts), i + trees_text(ts).len(), ts.len())),
    decreases ts, 1int,
{
    let whole = trees_text(ts);
    let first = tree_text(ts[0]);
    let fl = first.len() as int;
    if ts.len() == 1 {
        tree_reads(s, i, ts[0]);
        assert(ts.drop_first() =~= Seq::empty());
        assert(trees_rects(ts.drop_first()) =~= Seq::empty());
        assert(tree_rects(ts[0]) + Seq::<RectView>::empty() =~= tree_rects(ts[0]));
    } else {
        let rest = trees_text(ts.drop_first());
        assert(whole.subrange(0, fl) =~= first);
        assert(whole[fl] == ',');
        assert(whole.subrange(fl + 1, whole.len() as int) =~= rest);
        part_stands(s, i, whole, 0, first);
        part_stands(s, i, whole, fl + 1, rest);
        tree_reads(s, i, ts[0]);
        trees_read(s, i + fl + 1, ts.drop_first());
    }
}

proof fn no_white_ends(s: Seq<char>)
    requires
        s.len() > 0,
        !seqs::is_white(s[0]),
        !seqs::is_white(s.last()),
    ensures
        seqs::trim(s) == s,
{
}

proof fn tree_text_ends(t: Tree)
    ensures
        tree_text(t).len() > 0,
        !seqs::is_white(tree_text(t).last()),
{
    match t {
        Tree::Pane { w, h, x, y, id } => {
            decimal_number(id);
            let n = seqs::decimal(id);
            assert(tree_text(t).last() == n.last());
            assert(seqs::is_digit(n[n.len() - 1]));
        },
        _ => {},
    }
}

/// Every layout that tmux can write is read back exactly: the window has the size of the
/// tree, and the rectangles are those of its panes, in their order. White space around the
/// string does not count.
pub proof fn layouts_read_back(checksum: Seq<char>, t: Tree)
    requires
        is_checksum(checksum),
        is_tree(t),
    ensures
        layout_of(checksum + seq![','] + tree_text(t)) == Some(
            LayoutView { width: tree_size(t).0, height: tree_size(t).1, rects: tree_rects(t) },
        ),
{
    let s = checksum + seq![','] + tree_text(t);
    tree_text_ends(t);
    no_white_ends(s);
    seqs::index_of_is(s, ',', 4);
    assert(s.take(4) =~= checksum);
    assert(s.skip(5) =~= tree_text(t));
    assert(tree_text(t).subrange(0, tree_text(t).len() as int) =~= tree_text(t));
    tree_reads(tree_text(t), 0, t);
}

} // verus!
