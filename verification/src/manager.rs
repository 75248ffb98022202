//! The tabs and panes of the cockpit: what is asked of tmux for each operation, and what its
//! answers mean.
//!
//! An operation takes the outcomes of the commands that it has asked for so far, in their
//! order, and gives the next command or its result.
use crate::b64;
use crate::engine;
use crate::engine::ControlClient;
use crate::engine::EngineError;
use crate::layout;
use crate::layout::WindowLayout;
use crate::replay;
use crate::seqs;
use crate::status;
use crate::status::Status;
use crate::text;
use crate::tmux;
use crate::tmux::TmuxOut;
use crate::tmux::TmuxResult;
use vstd::hash_map::StringHashMap;
use vstd::prelude::*;

verus! {

// ── Ids and messages ────────────────────────────────────────────────────────────────────

pub open spec fn tab_id(index: nat) -> Seq<char> {
    "tab-"@ + seqs::decimal(index)
}

/// The id of the tab that is the window with this index.
pub fn tab_id_for_index(index: u32) -> (r: String)
    ensures
        r@ == tab_id(index as nat),
{
    let mut id = "tab-".to_owned();
    id.append(text::decimal(index as u64).as_str());
    id
}

/// The character `tag`, then one or more digits.
pub open spec fn is_tagged(s: Seq<char>, tag: char) -> bool {
    s.len() >= 2 && s[0] == tag && forall|i: int|
        1 <= i < s.len() ==> seqs::is_digit(#[trigger] s[i])
}

fn tagged(s: &str, tag: char) -> (r: bool)
    ensures
        r == is_tagged(s@, tag),
{
    let cs = text::chars_of(s);
    if cs.len() < 2 || cs[0] != tag {
        return false;
    }
    let mut i: usize = 1;
    while i < cs.len()
        invariant
            1 <= i <= cs@.len(),
            cs@ == s@,
            forall|j: int| 1 <= j < i ==> seqs::is_digit(#[trigger] s@[j]),
        decreases cs@.len() - i,
    {
        if !text::is_digit(cs[i]) {
            assert(!seqs::is_digit(s@[i as int]));
            return false;
        }
        i += 1;
    }
    true
}

/// Whether `s` is a window id: `@`, then digits.
pub fn is_window_id(s: &str) -> (r: bool)
    ensures
        r == is_tagged(s@, '@'),
{
    tagged(s, '@')
}

/// Whether `s` is a pane id: `%`, then digits.
pub fn is_pane_id(s: &str) -> (r: bool)
    ensures
        r == is_tagged(s@, '%'),
{
    tagged(s, '%')
}

pub open spec fn says_missing(stderr: Seq<char>) -> bool {
    let e = seqs::ascii_lower(stderr);
    seqs::has_text(e, "can't find window"@) || seqs::has_text(e, "can't find pane"@)
}

/// Whether tmux says that the window or pane is not there.
pub fn is_missing_target(stderr: &str) -> (r: bool)
    ensures
        r == says_missing(stderr@),
{
    let e = text::ascii_lower(stderr);
    text::has_text(e.as_str(), "can't find window") || text::has_text(e.as_str(), "can't find pane")
}

pub open spec fn says_gone(err: Seq<char>) -> bool {
    let e = seqs::ascii_lower(err);
    ||| seqs::has_text(e, "no server running"@)
    ||| seqs::has_text(e, "can't find session"@)
    ||| seqs::has_text(e, "session not found"@)
    ||| seqs::has_text(e, "no current session"@)
    ||| seqs::has_text(e, "lost server"@)
    ||| seqs::has_text(e, "server exited"@)
}

/// Whether the error says that the server or the session is gone, so that attaching anew
/// would help. A window or pane that is not there is another matter.
pub fn is_server_gone(err: &str) -> (r: bool)
    ensures
        r == says_gone(err@),
{
    let e = text::ascii_lower(err);
    let e = e.as_str();
    text::has_text(e, "no server running") || text::has_text(e, "can't find session")
        || text::has_text(e, "session not found") || text::has_text(e, "no current session")
        || text::has_text(e, "lost server") || text::has_text(e, "server exited")
}

pub open spec fn is_name_char(c: char) -> bool {
    seqs::is_ascii_alnum(c) || c == '.' || c == '_' || c == '-'
}

/// A name of 1 to 120 ASCII letters, digits, dots, underscores and hyphens, which does not
/// begin with a hyphen and so is no flag.
pub open spec fn is_agent_name(name: Seq<char>) -> bool {
    0 < name.len() <= 120 && name[0] != '-' && seqs::all_chars(name, |c: char| is_name_char(c))
}

/// Whether `name` may stand on a command line as the name of an agent.
pub fn is_valid_agent_name(name: &str) -> (r: bool)
    ensures
        r == is_agent_name(name@),
{
    let cs = text::chars_of(name);
    if cs.len() == 0 || cs.len() > 120 || cs[0] == '-' {
        return false;
    }
    let ghost ok = |c: char| is_name_char(c);
    let mut i: usize = 0;
    while i < cs.len()
        invariant
            i <= cs@.len(),
            cs@ == name@,
            ok == (|c: char| is_name_char(c)),
            forall|j: int| 0 <= j < i ==> ok(#[trigger] name@[j]),
        decreases cs@.len() - i,
    {
        let c = cs[i];
        if !(text::is_ascii_alnum(c) || c == '.' || c == '_' || c == '-') {
            assert(!ok(name@[i as int]));
            return false;
        }
        i += 1;
    }
    true
}

/// The name of an agent needs no escaping: in quotes it stands as it is, and a shell reads
/// it as one word that is that name.
pub proof fn agent_names_need_no_escape(name: Seq<char>)
    requires
        is_agent_name(name),
    ensures
        tmux::quoted(name) == seq!['\''] + name + seq!['\''],
        tmux::shell_word(tmux::quoted(name), false) == Some(name),
{
    plain_quote_body(name);
    tmux::quoting_is_exact(name);
}

proof fn plain_quote_body(name: Seq<char>)
    requires
        seqs::all_chars(name, |c: char| is_name_char(c)),
    ensures
        tmux::quote_body(name) == name,
    decreases name.len(),
{
    let ok = |c: char| is_name_char(c);
    if name.len() > 0 {
        assert(ok(name[name.len() - 1]));
        assert forall|j: int| 0 <= j < name.drop_last().len() implies ok(
            #[trigger] name.drop_last()[j],
        ) by {
            assert(ok(name[j]));
        }
        plain_quote_body(name.drop_last());
        assert(name.drop_last() + seq![name.last()] =~= name);
    }
}

/// When a pane was last active, in seconds: a number too large for seconds is in
/// milliseconds, and 0 says nothing.
pub open spec fn activity(raw: Seq<char>) -> Option<nat> {
    match seqs::parse_uint(raw, u64::MAX as nat) {
        Some(v) => if v == 0 {
            None
        } else if v > 100_000_000_000 {
            Some(v / 1000)
        } else {
            Some(v)
        },
        None => None,
    }
}

/// When a pane was last active, in seconds since the epoch; `None` where tmux does not say.
pub fn activity_epoch_secs(raw: &str) -> (r: Option<u64>)
    ensures
        (match r {
            Some(v) => activity(raw@) == Some(v as nat),
            None => activity(raw@) is None,
        }),
{
    match text::parse_uint(raw, u64::MAX) {
        Some(v) => if v == 0 {
            None
        } else if v > 100_000_000_000 {
            Some(v / 1000)
        } else {
            Some(v)
        },
        None => None,
    }
}

// ── What the screen gets ────────────────────────────────────────────────────────────────

/// A pane, as the screen shows it.
#[derive(Debug, Clone)]
pub struct PaneInfo {
    pub pane_id: String,
    pub tab_id: String,
    pub cwd: String,
    pub title: String,
    pub dead: bool,
    pub status: String,
    /// The status is not known.
    pub ambiguous: bool,
}

#[verifier::ext_equal]
pub struct PaneView {
    pub pane_id: Seq<char>,
    pub tab_id: Seq<char>,
    pub cwd: Seq<char>,
    pub title: Seq<char>,
    pub dead: bool,
    pub status: Seq<char>,
    pub ambiguous: bool,
}

impl View for PaneInfo {
    type V = PaneView;

    open spec fn view(&self) -> PaneView {
        PaneView {
            pane_id: self.pane_id@,
            tab_id: self.tab_id@,
            cwd: self.cwd@,
            title: self.title@,
            dead: self.dead,
            status: self.status@,
            ambiguous: self.ambiguous,
        }
    }
}

/// A tab, which is a tmux window.
#[derive(Debug, Clone)]
pub struct TabInfo {
    pub tab_id: String,
    pub tmux_window_id: String,
    pub index: u32,
    pub name: String,
    /// The layout as tmux writes it.
    pub layout: String,
    /// The same layout as rectangles, where it can be read.
    pub geometry: Option<WindowLayout>,
    pub pane_ids: Vec<String>,
}

#[verifier::ext_equal]
pub struct TabView {
    pub tab_id: Seq<char>,
    pub tmux_window_id: Seq<char>,
    pub index: nat,
    pub name: Seq<char>,
    pub layout: Seq<char>,
    pub geometry: Option<layout::LayoutView>,
    pub pane_ids: Seq<Seq<char>>,
}

impl View for TabInfo {
    type V = TabView;

    open spec fn view(&self) -> TabView {
        TabView {
            tab_id: self.tab_id@,
            tmux_window_id: self.tmux_window_id@,
            index: self.index as nat,
            name: self.name@,
            layout: self.layout@,
            geometry: match self.geometry {
                Some(g) => Some(g@),
                None => None,
            },
            pane_ids: seqs::views(self.pane_ids@),
        }
    }
}

/// All tabs and panes.
#[derive(Debug, Clone)]
pub struct CockpitState {
    pub socket: String,
    pub session: String,
    pub tabs: Vec<TabInfo>,
    pub panes: Vec<PaneInfo>,
}

#[verifier::ext_equal]
pub struct StateView {
    pub socket: Seq<char>,
    pub session: Seq<char>,
    pub tabs: Seq<TabView>,
    pub panes: Seq<PaneView>,
}

pub open spec fn tab_views(v: Seq<TabInfo>) -> Seq<TabView> {
    v.map_values(|t: TabInfo| t@)
}

pub open spec fn pane_views(v: Seq<PaneInfo>) -> Seq<PaneView> {
    v.map_values(|p: PaneInfo| p@)
}

impl View for CockpitState {
    type V = StateView;

    open spec fn view(&self) -> StateView {
        StateView {
            socket: self.socket@,
            session: self.session@,
            tabs: tab_views(self.tabs@),
            panes: pane_views(self.panes@),
        }
    }
}

#[derive(Debug, Clone)]
pub struct CreateTabResult {
    pub tab_id: String,
    pub tmux_window_id: String,
    pub pane_id: String,
}

#[verifier::ext_equal]
pub struct CreatedView {
    pub tab_id: Seq<char>,
    pub tmux_window_id: Seq<char>,
    pub pane_id: Seq<char>,
}

impl View for CreateTabResult {
    type V = CreatedView;

    open spec fn view(&self) -> CreatedView {
        CreatedView {
            tab_id: self.tab_id@,
            tmux_window_id: self.tmux_window_id@,
            pane_id: self.pane_id@,
        }
    }
}

#[derive(Debug, Clone)]
pub struct CloseTabResult {
    pub ok: bool,
    /// Where the tab was not closed: the panes in it that still run.
    pub live_panes: Vec<String>,
}

#[verifier::ext_equal]
pub struct ClosedView {
    pub ok: bool,
    pub live_panes: Seq<Seq<char>>,
}

impl View for CloseTabResult {
    type V = ClosedView;

    open spec fn view(&self) -> ClosedView {
        ClosedView { ok: self.ok, live_panes: seqs::views(self.live_panes@) }
    }
}

#[derive(Debug, Clone)]
pub struct SplitPaneResult {
    pub pane_id: String,
    pub layout: String,
}

#[verifier::ext_equal]
pub struct SplitView {
    pub pane_id: Seq<char>,
    pub layout: Seq<char>,
}

impl View for SplitPaneResult {
    type V = SplitView;

    open spec fn view(&self) -> SplitView {
        SplitView { pane_id: self.pane_id@, layout: self.layout@ }
    }
}

/// The status of a pane, sent when it changes.
#[derive(Debug, Clone)]
pub struct PaneStatusPayload {
    pub pane_id: String,
    pub status: String,
    pub ambiguous: bool,
    /// Milliseconds since the pane was last active; 0 where that is not known.
    pub recency_ms: u64,
}

#[verifier::ext_equal]
pub struct PayloadView {
    pub pane_id: Seq<char>,
    pub status: Seq<char>,
    pub ambiguous: bool,
    pub recency_ms: u64,
}

impl View for PaneStatusPayload {
    type V = PayloadView;

    open spec fn view(&self) -> PayloadView {
        PayloadView {
            pane_id: self.pane_id@,
            status: self.status@,
            ambiguous: self.ambiguous,
            recency_ms: self.recency_ms,
        }
    }
}

pub open spec fn payload_views(v: Seq<PaneStatusPayload>) -> Seq<PayloadView> {
    v.map_values(|p: PaneStatusPayload| p@)
}

// ── Lists that tmux prints ──────────────────────────────────────────────────────────────

/// The part with number `i`, or `default` where there is none.
pub open spec fn field(parts: Seq<Seq<char>>, i: int, default: Seq<char>) -> Seq<char> {
    if 0 <= i < parts.len() {
        parts[i]
    } else {
        default
    }
}

fn part(parts: &[String], i: usize, default: &str) -> (r: String)
    ensures
        r@ == field(seqs::views(parts@), i as int, default@),
{
    if i < parts.len() {
        parts[i].clone()
    } else {
        default.to_owned()
    }
}

/// A window index; 0 where there is none.
pub open spec fn index_field(parts: Seq<Seq<char>>, i: int) -> nat {
    match seqs::parse_uint(field(parts, i, "0"@), u32::MAX as nat) {
        Some(v) => v,
        None => 0,
    }
}

fn index_part(parts: &[String], i: usize) -> (r: u32)
    ensures
        r as nat == index_field(seqs::views(parts@), i as int),
{
    match text::parse_uint(part(parts, i, "0").as_str(), 0xffff_ffff) {
        Some(v) => v as u32,
        None => 0,
    }
}

/// The window and the pane of a line; `None` where it does not hold the ids of both.
pub open spec fn pair_of(line: Seq<char>) -> Option<(Seq<char>, Seq<char>)> {
    let p = seqs::split(line, '\t');
    let win = field(p, 0, ""@);
    let pane = field(p, 1, ""@);
    if is_tagged(win, '@') && is_tagged(pane, '%') {
        Some((win, pane))
    } else {
        None
    }
}

pub open spec fn pairs_of(lines: Seq<Seq<char>>) -> Seq<(Seq<char>, Seq<char>)>
    decreases lines.len(),
{
    if lines.len() == 0 {
        Seq::empty()
    } else {
        let head = pairs_of(lines.drop_last());
        match pair_of(lines.last()) {
            Some(pair) => head.push(pair),
            None => head,
        }
    }
}

pub open spec fn pair_views(v: Seq<(String, String)>) -> Seq<(Seq<char>, Seq<char>)> {
    v.map_values(|p: (String, String)| (p.0@, p.1@))
}

/// The panes that are paired with the window `win`.
pub open spec fn panes_with(pairs: Seq<(Seq<char>, Seq<char>)>, win: Seq<char>) -> Seq<Seq<char>>
    decreases pairs.len(),
{
    if pairs.len() == 0 {
        Seq::empty()
    } else {
        let head = panes_with(pairs.drop_last(), win);
        if pairs.last().0 == win {
            head.push(pairs.last().1)
        } else {
            head
        }
    }
}

/// The pairs of a window and a pane in it that a successful outcome lists; otherwise none.
pub open spec fn pairs_in(out: TmuxOut) -> Seq<(Seq<char>, Seq<char>)> {
    if out.status == 0 {
        pairs_of(seqs::lines(out.stdout@))
    } else {
        Seq::empty()
    }
}

fn window_to_panes(out: &TmuxOut) -> (r: Vec<(String, String)>)
    ensures
        pair_views(r@) == pairs_in(*out),
{
    let mut pairs: Vec<(String, String)> = Vec::new();
    assert(pair_views(pairs@) =~= Seq::empty());
    if !out.ok() {
        return pairs;
    }
    let lines = text::lines(out.stdout.as_str());
    let ghost all = seqs::views(lines@);
    let mut i: usize = 0;
    assert(all.take(0) =~= Seq::empty());
    while i < lines.len()
        invariant
            i <= lines@.len(),
            all == seqs::views(lines@),
            pair_views(pairs@) == pairs_of(all.take(i as int)),
        decreases lines@.len() - i,
    {
        let ghost before = pairs@;
        let parts = text::split(lines[i].as_str(), '\t');
        let win = part(&parts, 0, "");
        let pane = part(&parts, 1, "");
        proof {
            assert(all.take(i + 1).drop_last() =~= all.take(i as int));
            assert(all.take(i + 1).last() == lines@[i as int]@);
        }
        if is_window_id(win.as_str()) && is_pane_id(pane.as_str()) {
            pairs.push((win, pane));
            assert(pair_views(pairs@) =~= pair_views(before).push((win@, pane@)));
        }
        i += 1;
    }
    assert(all.take(all.len() as int) =~= all);
    pairs
}

fn panes_of_window(pairs: &[(String, String)], win: &str) -> (r: Vec<String>)
    ensures
        seqs::views(r@) == panes_with(pair_views(pairs@), win@),
{
    let ghost all = pair_views(pairs@);
    let mut out: Vec<String> = Vec::new();
    let mut i: usize = 0;
    assert(seqs::views(out@) =~= Seq::empty());
    assert(all.take(0) =~= Seq::empty());
    while i < pairs.len()
        invariant
            i <= pairs@.len(),
            all == pair_views(pairs@),
            seqs::views(out@) == panes_with(all.take(i as int), win@),
        decreases pairs@.len() - i,
    {
        let ghost before = out@;
        proof {
            assert(all.take(i + 1).drop_last() =~= all.take(i as int));
            assert(all.take(i + 1).last() == (pairs@[i as int].0@, pairs@[i as int].1@));
        }
        if text::same(pairs[i].0.as_str(), win) {
            out.push(pairs[i].1.clone());
            assert(seqs::views(out@) =~= seqs::views(before).push(pairs@[i as int].1@));
        }
        i += 1;
    }
    assert(all.take(all.len() as int) =~= all);
    out
}

/// The tab of a line that gives a window's id, index, name and layout.
pub open spec fn tab_of(line: Seq<char>, pairs: Seq<(Seq<char>, Seq<char>)>) -> TabView {
    let p = seqs::split(line, '\t');
    TabView {
        tab_id: tab_id(index_field(p, 1)),
        tmux_window_id: field(p, 0, ""@),
        index: index_field(p, 1),
        name: field(p, 2, ""@),
        layout: field(p, 3, ""@),
        geometry: layout::layout_of(field(p, 3, ""@)),
        pane_ids: panes_with(pairs, field(p, 0, ""@)),
    }
}

/// The tabs that a list of windows gives, in its order.
pub open spec fn tabs_of(windows: Seq<char>, pairs: Seq<(Seq<char>, Seq<char>)>) -> Seq<TabView> {
    seqs::lines(windows).map_values(|line: Seq<char>| tab_of(line, pairs))
}

fn read_tab(line: &str, pairs: &[(String, String)]) -> (r: TabInfo)
    ensures
        r@ == tab_of(line@, pair_views(pairs@)),
{
    let parts = text::split(line, '\t');
    let win = part(&parts, 0, "");
    let index = index_part(&parts, 1);
    let layout_text = part(&parts, 3, "");
    let geometry = layout::parse_window_layout(layout_text.as_str());
    let pane_ids = panes_of_window(pairs, win.as_str());
    TabInfo {
        tab_id: tab_id_for_index(index),
        tmux_window_id: win,
        index,
        name: part(&parts, 2, ""),
        layout: layout_text,
        geometry,
        pane_ids,
    }
}

/// The tabs that a list of windows gives, each with its panes.
fn collect_tabs(windows: &str, panes: &TmuxOut) -> (r: Vec<TabInfo>)
    ensures
        tab_views(r@) == tabs_of(windows@, pairs_in(*panes)),
{
    let pairs = window_to_panes(panes);
    let ghost pv = pair_views(pairs@);
    let lines = text::lines(windows);
    let ghost all = tabs_of(windows@, pv);
    let mut tabs: Vec<TabInfo> = Vec::new();
    let mut i: usize = 0;
    assert(tab_views(tabs@) =~= all.take(0));
    while i < lines.len()
        invariant
            i <= lines@.len(),
            pv == pair_views(pairs@),
            seqs::views(lines@) == seqs::lines(windows@),
            all == tabs_of(windows@, pv),
            tab_views(tabs@) == all.take(i as int),
        decreases lines@.len() - i,
    {
        let ghost before = tabs@;
        let tab = read_tab(lines[i].as_str(), &pairs);
        proof {
            assert(seqs::lines(windows@)[i as int] == lines@[i as int]@);
            assert(all[i as int] == tab@);
            assert(all.take(i + 1) =~= all.take(i as int).push(tab@));
        }
        tabs.push(tab);
        assert(tab_views(tabs@) =~= tab_views(before).push(tab@));
        i += 1;
    }
    assert(all.take(all.len() as int) =~= all);
    tabs
}

/// The status last seen of a pane; before that, what is known of it.
pub open spec fn known_status(statuses: Map<Seq<char>, Status>, pane: Seq<char>, dead: bool) -> Status {
    if statuses.contains_key(pane) {
        statuses[pane]
    } else if dead {
        Status::Dead
    } else {
        Status::Unknown
    }
}

/// The pane of a line that gives its id, its window's index, its directory, its title and
/// whether it is dead; `None` where the line does not begin with a pane's id.
pub open spec fn pane_of(line: Seq<char>, statuses: Map<Seq<char>, Status>) -> Option<PaneView> {
    let p = seqs::split(line, '\t');
    let pane = field(p, 0, ""@);
    let dead = field(p, 4, "0"@) == "1"@;
    let status = known_status(statuses, pane, dead);
    if is_tagged(pane, '%') {
        Some(
            PaneView {
                pane_id: pane,
                tab_id: tab_id(index_field(p, 1)),
                cwd: field(p, 2, ""@),
                title: field(p, 3, ""@),
                dead,
                status: status::status_name(status),
                ambiguous: status == Status::Unknown,
            },
        )
    } else {
        None
    }
}

pub open spec fn panes_of(lines: Seq<Seq<char>>, statuses: Map<Seq<char>, Status>) -> Seq<PaneView>
    decreases lines.len(),
{
    if lines.len() == 0 {
        Seq::empty()
    } else {
        let head = panes_of(lines.drop_last(), statuses);
        match pane_of(lines.last(), statuses) {
            Some(p) => head.push(p),
            None => head,
        }
    }
}

fn read_pane(line: &str, statuses: &StringHashMap<Status>) -> (r: Option<PaneInfo>)
    ensures
        (match r {
            Some(p) => pane_of(line@, statuses@) == Some(p@),
            None => pane_of(line@, statuses@) is None,
        }),
{
    let parts = text::split(line, '\t');
    let pane = part(&parts, 0, "");
    if !is_pane_id(pane.as_str()) {
        return None;
    }
    let dead = text::same(part(&parts, 4, "0").as_str(), "1");
    let status = match statuses.get(pane.as_str()) {
        Some(s) => *s,
        None => if dead {
            Status::Dead
        } else {
            Status::Unknown
        },
    };
    Some(
        PaneInfo {
            pane_id: pane,
            tab_id: tab_id_for_index(index_part(&parts, 1)),
            cwd: part(&parts, 2, ""),
            title: part(&parts, 3, ""),
            dead,
            status: status.as_str().to_owned(),
            ambiguous: status == Status::Unknown,
        },
    )
}

fn collect_panes(panes: &str, statuses: &StringHashMap<Status>) -> (r: Vec<PaneInfo>)
    ensures
        pane_views(r@) == panes_of(seqs::lines(panes@), statuses@),
{
    let lines = text::lines(panes);
    let ghost all = seqs::views(lines@);
    let mut out: Vec<PaneInfo> = Vec::new();
    let mut i: usize = 0;
    assert(pane_views(out@) =~= Seq::empty());
    assert(all.take(0) =~= Seq::empty());
    while i < lines.len()
        invariant
            i <= lines@.len(),
            all == seqs::views(lines@),
            pane_views(out@) == panes_of(all.take(i as int), statuses@),
        decreases lines@.len() - i,
    {
        let ghost before = out@;
        proof {
            assert(all.take(i + 1).drop_last() =~= all.take(i as int));
            assert(all.take(i + 1).last() == lines@[i as int]@);
        }
        if let Some(p) = read_pane(lines[i].as_str(), statuses) {
            out.push(p);
            assert(pane_views(out@) =~= pane_views(before).push(p@));
        }
        i += 1;
    }
    assert(all.take(all.len() as int) =~= all);
    out
}

/// The panes in a list of panes, each with whether it is dead, that are not.
pub open spec fn live_of(lines: Seq<Seq<char>>) -> Seq<Seq<char>>
    decreases lines.len(),
{
    if lines.len() == 0 {
        Seq::empty()
    } else {
        let head = live_of(lines.drop_last());
        let w = seqs::words(lines.last());
        if field(w, 0, ""@).len() > 0 && field(w, 1, "0"@) != "1"@ {
            head.push(field(w, 0, ""@))
        } else {
            head
        }
    }
}

fn live_panes(list: &str) -> (r: Vec<String>)
    ensures
        seqs::views(r@) == live_of(seqs::lines(list@)),
{
    let lines = text::lines(list);
    let ghost all = seqs::views(lines@);
    let mut out: Vec<String> = Vec::new();
    let mut i: usize = 0;
    assert(seqs::views(out@) =~= Seq::empty());
    assert(all.take(0) =~= Seq::empty());
    while i < lines.len()
        invariant
            i <= lines@.len(),
            all == seqs::views(lines@),
            seqs::views(out@) == live_of(all.take(i as int)),
        decreases lines@.len() - i,
    {
        let ghost before = out@;
        proof {
            assert(all.take(i + 1).drop_last() =~= all.take(i as int));
            assert(all.take(i + 1).last() == lines@[i as int]@);
        }
        let words = text::words(lines[i].as_str());
        let pane = part(&words, 0, "");
        let dead = part(&words, 1, "0");
        if text::chars_of(pane.as_str()).len() > 0 && !text::same(dead.as_str(), "1") {
            out.push(pane);
            assert(seqs::views(out@) =~= seqs::views(before).push(pane@));
        }
        i += 1;
    }
    assert(all.take(all.len() as int) =~= all);
    out
}

// ── Steps ───────────────────────────────────────────────────────────────────────────────

/// What an operation needs next.
#[derive(Debug)]
pub enum Step<T> {
    /// The outcome of tmux, run with these arguments on the private socket.
    Run(Vec<String>),
    Done(Result<T, String>),
}

pub enum StepView<V> {
    Run(Seq<Seq<char>>),
    Done(Result<V, Seq<char>>),
}

impl<T: View> View for Step<T> {
    type V = StepView<T::V>;

    open spec fn view(&self) -> StepView<T::V> {
        match self {
            Step::Run(args) => StepView::Run(seqs::views(args@)),
            Step::Done(Ok(v)) => StepView::Done(Ok(v@)),
            Step::Done(Err(e)) => StepView::Done(Err(e@)),
        }
    }
}

fn run<T: View>(args: &[&str]) -> (r: Step<T>)
    ensures
        r@ == StepView::<T::V>::Run(tmux::slices(args@)),
{
    Step::Run(tmux::owned(args))
}

fn fail<T: View>(e: &str) -> (r: Step<T>)
    ensures
        r@ == StepView::<T::V>::Done(Err(e@)),
{
    Step::Done(Err(e.to_owned()))
}

/// The arguments that make a window which starts in `cwd`.
pub open spec fn new_window_args(name: Option<Seq<char>>, cwd: Seq<char>) -> Seq<Seq<char>> {
    let base = seq![
        "new-window"@,
        "-t"@,
        "cockpit-main:"@,
        "-c"@,
        cwd,
        "-P"@,
        "-F"@,
        "#{window_id} #{window_index} #{pane_id}"@,
    ];
    match name {
        Some(n) => base + seq!["-n"@, n],
        None => base,
    }
}

/// The tab that tmux says it has made.
pub open spec fn created_of(stdout: Seq<char>) -> CreatedView {
    let w = seqs::words(seqs::trim(stdout));
    CreatedView {
        tab_id: tab_id(index_field(w, 1)),
        tmux_window_id: field(w, 0, ""@),
        pane_id: field(w, 2, ""@),
    }
}

pub open spec fn create_tab_step(name: Option<Seq<char>>, cwd: Seq<char>, outs: Seq<TmuxResult>) -> StepView<
    CreatedView,
> {
    let args = new_window_args(name, cwd);
    if outs.len() == 0 {
        StepView::Run(args)
    } else {
        match tmux::required(args, outs[0]) {
            Ok(o) => StepView::Done(Ok(created_of(o.stdout@))),
            Err(e) => StepView::Done(Err(e)),
        }
    }
}

pub open spec fn windows_args() -> Seq<Seq<char>> {
    seq![
        "list-windows"@,
        "-t"@,
        "cockpit-main"@,
        "-F"@,
        "#{window_id}\t#{window_index}\t#{window_name}\t#{window_layout}"@,
    ]
}

pub open spec fn pairs_args() -> Seq<Seq<char>> {
    seq!["list-panes"@, "-s"@, "-t"@, "cockpit-main"@, "-F"@, "#{window_id}\t#{pane_id}"@]
}

pub open spec fn panes_args() -> Seq<Seq<char>> {
    seq![
        "list-panes"@,
        "-s"@,
        "-t"@,
        "cockpit-main"@,
        "-F"@,
        "#{pane_id}\t#{window_index}\t#{pane_current_path}\t#{pane_title}\t#{pane_dead}"@,
    ]
}

/// Reading the tabs: the windows, then the panes of each. Where tmux has no windows to
/// list, there are no tabs.
pub enum TabsRead<V> {
    Run(Seq<Seq<char>>),
    /// The tabs, and how many outcomes they took.
    Got(V, nat),
    Failed(Seq<char>),
}

pub open spec fn tabs_read(outs: Seq<TmuxResult>) -> TabsRead<Seq<TabView>> {
    if outs.len() == 0 {
        TabsRead::Run(windows_args())
    } else {
        match outs[0] {
            Err(e) => TabsRead::Failed(e@),
            Ok(w) => if w.status != 0 {
                TabsRead::Got(Seq::empty(), 1)
            } else if outs.len() == 1 {
                TabsRead::Run(pairs_args())
            } else {
                match outs[1] {
                    Err(e) => TabsRead::Failed(e@),
                    Ok(m) => TabsRead::Got(tabs_of(w.stdout@, pairs_in(m)), 2),
                }
            },
        }
    }
}

enum Tabs {
    Run(Vec<String>),
    Got(Vec<TabInfo>, usize),
    Failed(String),
}

impl View for Tabs {
    type V = TabsRead<Seq<TabView>>;

    closed spec fn view(&self) -> TabsRead<Seq<TabView>> {
        match self {
            Tabs::Run(args) => TabsRead::Run(seqs::views(args@)),
            Tabs::Got(tabs, n) => TabsRead::Got(tab_views(tabs@), *n as nat),
            Tabs::Failed(e) => TabsRead::Failed(e@),
        }
    }
}

fn read_tabs(outs: &[TmuxResult]) -> (r: Tabs)
    ensures
        r@ == tabs_read(outs@),
        r matches Tabs::Got(_, n) ==> n <= outs@.len(),
{
    if outs.len() == 0 {
        let args = [
            "list-windows",
            "-t",
            tmux::SESSION,
            "-F",
            "#{window_id}\t#{window_index}\t#{window_name}\t#{window_layout}",
        ];
        assert(tmux::slices(args@) =~= windows_args());
        return Tabs::Run(tmux::owned(&args));
    }
    match &outs[0] {
        Err(e) => Tabs::Failed(e.clone()),
        Ok(w) => {
            if !w.ok() {
                let none: Vec<TabInfo> = Vec::new();
                assert(tab_views(none@) =~= Seq::empty());
                return Tabs::Got(none, 1);
            }
            if outs.len() == 1 {
                let args = [
                    "list-panes",
                    "-s",
                    "-t",
                    tmux::SESSION,
                    "-F",
                    "#{window_id}\t#{pane_id}",
                ];
                assert(tmux::slices(args@) =~= pairs_args());
                return Tabs::Run(tmux::owned(&args));
            }
            match &outs[1] {
                Err(e) => Tabs::Failed(e.clone()),
                Ok(m) => Tabs::Got(collect_tabs(w.stdout.as_str(), m), 2),
            }
        },
    }
}

pub open spec fn list_state_step(statuses: Map<Seq<char>, Status>, outs: Seq<TmuxResult>) -> StepView<
    StateView,
> {
    match tabs_read(outs) {
        TabsRead::Run(args) => StepView::Run(args),
        TabsRead::Failed(e) => StepView::Done(Err(e)),
        TabsRead::Got(tabs, n) => if outs.len() == n {
            StepView::Run(panes_args())
        } else {
            match outs[n as int] {
                Err(e) => StepView::Done(Err(e@)),
                Ok(p) => StepView::Done(
                    Ok(
                        StateView {
                            socket: "cockpit"@,
                            session: "cockpit-main"@,
                            tabs,
                            panes: if p.status == 0 {
                                panes_of(seqs::lines(p.stdout@), statuses)
                            } else {
                                Seq::empty()
                            },
                        },
                    ),
                ),
            }
        },
    }
}

pub open spec fn rename_args(win: Seq<char>, name: Seq<char>) -> Seq<Seq<char>> {
    seq!["rename-window"@, "-t"@, win, name]
}

pub open spec fn adopt_step(name: Option<Seq<char>>, outs: Seq<TmuxResult>) -> StepView<
    CreatedView,
> {
    match tabs_read(outs) {
        TabsRead::Run(args) => StepView::Run(args),
        TabsRead::Failed(e) => StepView::Done(Err(e)),
        TabsRead::Got(tabs, n) => if tabs.len() == 0 {
            StepView::Done(Err("re-healed session has no window to adopt"@))
        } else if name is Some && name->0.len() > 0 && outs.len() == n {
            StepView::Run(rename_args(tabs[0].tmux_window_id, name->0))
        } else {
            StepView::Done(
                Ok(
                    CreatedView {
                        tab_id: tabs[0].tab_id,
                        tmux_window_id: tabs[0].tmux_window_id,
                        pane_id: field(tabs[0].pane_ids, 0, ""@),
                    },
                ),
            )
        },
    }
}

/// How a new tab is made.
#[derive(Debug, Clone, Copy, PartialEq, Eq, Structural)]
pub enum TabPlan {
    /// The session lives: a window is added to it.
    NewWindow,
    /// The session is gone: it is made and attached to anew, and the window that it begins
    /// with is the tab.
    Adopt,
}

impl View for TabPlan {
    type V = TabPlan;

    open spec fn view(&self) -> TabPlan {
        *self
    }
}

pub open spec fn health_args() -> Seq<Seq<char>> {
    seq!["list-panes"@, "-t"@, "cockpit-main"@, "-F"@, "#{pane_id}"@]
}

pub open spec fn succeeded(out: TmuxResult) -> bool {
    out matches Ok(o) && o.status == 0
}

pub open spec fn healing_step(outs: Seq<TmuxResult>) -> StepView<TabPlan> {
    if outs.len() == 0 {
        StepView::Run(tmux::has_session_args())
    } else if !succeeded(outs[0]) {
        StepView::Done(Ok(TabPlan::Adopt))
    } else if outs.len() == 1 {
        StepView::Run(health_args())
    } else if outs[1] matches Ok(o) && o.status == 0 && seqs::trim(o.stdout@).len() > 0 {
        StepView::Done(Ok(TabPlan::NewWindow))
    } else {
        StepView::Done(Ok(TabPlan::Adopt))
    }
}

pub open spec fn live_args(win: Seq<char>) -> Seq<Seq<char>> {
    seq!["list-panes"@, "-t"@, win, "-F"@, "#{pane_id} #{pane_dead}"@]
}

pub open spec fn kill_window_args(win: Seq<char>) -> Seq<Seq<char>> {
    seq!["kill-window"@, "-t"@, win]
}

/// The panes that still run in a window; none where the window is gone.
pub open spec fn live_in(out: TmuxOut) -> Seq<Seq<char>> {
    if out.status == 0 {
        live_of(seqs::lines(out.stdout@))
    } else {
        Seq::empty()
    }
}

pub open spec fn close_tab_step(win: Seq<char>, force: bool, outs: Seq<TmuxResult>) -> StepView<
    ClosedView,
> {
    if !is_tagged(win, '@') {
        StepView::Done(Err("bad window id "@ + tmux::debug_text(win) + ", want @<n>"@))
    } else if outs.len() == 0 {
        StepView::Run(live_args(win))
    } else {
        match outs[0] {
            Err(e) => StepView::Done(Err(e@)),
            Ok(o) => if !force && live_in(o).len() > 0 {
                StepView::Done(Ok(ClosedView { ok: false, live_panes: live_in(o) }))
            } else if outs.len() == 1 {
                StepView::Run(kill_window_args(win))
            } else {
                match outs[1] {
                    Err(e) => StepView::Done(Err(e@)),
                    Ok(k) => if k.status != 0 && !says_missing(k.stderr@) {
                        StepView::Done(
                            Err(
                                "tmux kill-window -t "@ + win + " failed (exit "@
                                    + seqs::signed_decimal(k.status as int) + "): "@ + seqs::trim(
                                    k.stderr@,
                                ),
                            ),
                        )
                    } else {
                        StepView::Done(Ok(ClosedView { ok: true, live_panes: Seq::empty() }))
                    },
                }
            },
        }
    }
}

pub open spec fn split_flag(dir: Seq<char>) -> Option<Seq<char>> {
    if dir == "h"@ {
        Some("-h"@)
    } else if dir == "v"@ {
        Some("-v"@)
    } else {
        None
    }
}

pub open spec fn split_args(flag: Seq<char>, pane: Seq<char>) -> Seq<Seq<char>> {
    seq![
        "split-window"@,
        flag,
        "-t"@,
        pane,
        "-c"@,
        "#{pane_current_path}"@,
        "-P"@,
        "-F"@,
        "#{pane_id}"@,
    ]
}

pub open spec fn layout_args(pane: Seq<char>) -> Seq<Seq<char>> {
    seq!["display-message"@, "-p"@, "-t"@, pane, "-F"@, "#{window_layout}"@]
}

pub open spec fn split_step(pane: Seq<char>, dir: Seq<char>, outs: Seq<TmuxResult>) -> StepView<
    SplitView,
> {
    match split_flag(dir) {
        None => StepView::Done(
            Err("bad split dir "@ + tmux::debug_text(dir) + ", want 'h' or 'v'"@),
        ),
        Some(flag) => if outs.len() == 0 {
            StepView::Run(split_args(flag, pane))
        } else {
            match tmux::required(split_args(flag, pane), outs[0]) {
                Err(e) => StepView::Done(Err(e)),
                Ok(o) => {
                    let new_pane = seqs::trim(o.stdout@);
                    if outs.len() == 1 {
                        StepView::Run(layout_args(new_pane))
                    } else {
                        StepView::Done(
                            Ok(
                                SplitView {
                                    pane_id: new_pane,
                                    layout: match outs[1] {
                                        Ok(l) => if l.status == 0 {
                                            seqs::trim(l.stdout@)
                                        } else {
                                            ""@
                                        },
                                        Err(_) => ""@,
                                    },
                                },
                            ),
                        )
                    }
                },
            }
        },
    }
}

pub open spec fn close_args(pane: Seq<char>, mode: Seq<char>) -> Option<Seq<Seq<char>>> {
    if mode == "kill"@ {
        Some(seq!["kill-pane"@, "-t"@, pane])
    } else if mode == "detach"@ {
        Some(seq!["break-pane"@, "-d"@, "-s"@, pane])
    } else {
        None
    }
}

pub open spec fn close_pane_step(pane: Seq<char>, mode: Seq<char>, outs: Seq<TmuxResult>) -> StepView<
    (),
> {
    match close_args(pane, mode) {
        None => StepView::Done(
            Err("bad close mode "@ + tmux::debug_text(mode) + ", want 'kill' or 'detach'"@),
        ),
        Some(args) => if outs.len() == 0 {
            StepView::Run(args)
        } else {
            match tmux::required(args, outs[0]) {
                Err(e) => StepView::Done(Err(e)),
                Ok(_) => StepView::Done(Ok(())),
            }
        },
    }
}

pub open spec fn break_args(pane: Seq<char>) -> Seq<Seq<char>> {
    seq!["break-pane"@, "-s"@, pane, "-P"@, "-F"@, "#{window_id}"@]
}

pub open spec fn break_step(pane: Seq<char>, outs: Seq<TmuxResult>) -> StepView<Seq<char>> {
    if outs.len() == 0 {
        StepView::Run(break_args(pane))
    } else {
        match tmux::required(break_args(pane), outs[0]) {
            Err(e) => StepView::Done(Err(e)),
            Ok(o) => StepView::Done(Ok(seqs::trim(o.stdout@))),
        }
    }
}

// ── Captures ────────────────────────────────────────────────────────────────────────────

/// The numbers that tmux printed, where it did.
pub open spec fn numbers_in(out: TmuxResult, n: nat) -> Option<Seq<u32>> {
    match out {
        Ok(o) => if o.status == 0 {
            replay::numbers(seqs::words(o.stdout@), n)
        } else {
            None
        },
        Err(_) => None,
    }
}

fn pane_numbers(out: &TmuxResult, n: usize) -> (r: Option<Vec<u32>>)
    ensures
        (match r {
            Some(v) => numbers_in(*out, n as nat) == Some(v@),
            None => numbers_in(*out, n as nat) is None,
        }),
{
    match out {
        Ok(o) => if o.ok() {
            replay::parse_u32_fields(o.stdout.as_str(), n)
        } else {
            None
        },
        Err(_) => None,
    }
}

proof fn numbers_count(words: Seq<Seq<char>>, n: nat)
    ensures
        replay::numbers(words, n) matches Some(v) ==> v.len() == n,
    decreases n,
{
    if n > 0 {
        numbers_count(words, (n - 1) as nat);
    }
}

pub open spec fn history_args(pane: Seq<char>) -> Seq<Seq<char>> {
    seq!["capture-pane"@, "-p"@, "-e"@, "-S"@, "-"@, "-t"@, pane]
}

pub open spec fn screen_args(pane: Seq<char>) -> Seq<Seq<char>> {
    seq!["capture-pane"@, "-p"@, "-e"@, "-t"@, pane]
}

pub open spec fn recent_args(pane: Seq<char>) -> Seq<Seq<char>> {
    seq!["capture-pane"@, "-p"@, "-e"@, "-S"@, "-120"@, "-t"@, pane]
}

pub open spec fn numbers_args(pane: Seq<char>, format: Seq<char>) -> Seq<Seq<char>> {
    seq!["display-message"@, "-p"@, "-t"@, pane, format]
}

/// What shows a capture of history and screen, where `numbers` is the outcome of asking
/// for the height of the pane and its cursor.
pub open spec fn warm_replay(capture: Seq<char>, numbers: TmuxResult) -> Seq<char> {
    match numbers_in(numbers, 3) {
        Some(v) => replay::warm_text(capture, v[0] as nat, Some((v[1], v[2]))),
        None => replay::plain_text(capture),
    }
}

/// What shows a capture of the screen, where `numbers` is the outcome of asking for the
/// cursor.
pub open spec fn screen_replay(capture: Seq<char>, numbers: TmuxResult) -> Seq<char> {
    match numbers_in(numbers, 2) {
        Some(v) => replay::screen_text(capture, Some((v[0], v[1]))),
        None => replay::screen_text(capture, None),
    }
}

/// A text in base64.
pub open spec fn encoded(s: Seq<char>) -> Seq<char> {
    b64::b64_encode(vstd::utf8::encode_utf8(s))
}

/// What is to be shown can be encoded.
pub open spec fn replay_fits(s: Seq<char>) -> bool {
    b64::can_encode(seqs::byte_len(s))
}

/// Capturing with the command `capture`, asking for numbers in the format `format`, and
/// encoding what `show` makes of the two.
pub open spec fn warm_step(
    capture: Seq<Seq<char>>,
    numbers: Seq<Seq<char>>,
    show: spec_fn(Seq<char>, TmuxResult) -> Seq<char>,
    outs: Seq<TmuxResult>,
) -> StepView<Seq<char>> {
    if outs.len() == 0 {
        StepView::Run(capture)
    } else {
        match outs[0] {
            Err(e) => StepView::Done(Err(e@)),
            Ok(o) => if o.status != 0 {
                StepView::Done(Err(seqs::trim(o.stderr@)))
            } else if outs.len() == 1 {
                StepView::Run(numbers)
            } else {
                StepView::Done(Ok(encoded(show(o.stdout@, outs[1]))))
            },
        }
    }
}

pub open spec fn warm_start_step(pane: Seq<char>, outs: Seq<TmuxResult>) -> StepView<Seq<char>> {
    warm_step(
        history_args(pane),
        numbers_args(pane, "#{pane_height} #{cursor_x} #{cursor_y}"@),
        |capture: Seq<char>, numbers: TmuxResult| warm_replay(capture, numbers),
        outs,
    )
}

pub open spec fn warm_start_screen_step(pane: Seq<char>, outs: Seq<TmuxResult>) -> StepView<
    Seq<char>,
> {
    warm_step(
        screen_args(pane),
        numbers_args(pane, "#{cursor_x} #{cursor_y}"@),
        |capture: Seq<char>, numbers: TmuxResult| screen_replay(capture, numbers),
        outs,
    )
}

// ── Polling ─────────────────────────────────────────────────────────────────────────────

/// A pane, as a poll finds it.
#[derive(Debug, Clone)]
pub struct PollRow {
    pub pane_id: String,
    pub dead: bool,
    /// Seconds since it was last active, where tmux says so.
    pub activity_age_secs: Option<u64>,
}

#[verifier::ext_equal]
pub struct PollView {
    pub pane_id: Seq<char>,
    pub dead: bool,
    pub age: Option<u64>,
}

impl View for PollRow {
    type V = PollView;

    open spec fn view(&self) -> PollView {
        PollView { pane_id: self.pane_id@, dead: self.dead, age: self.activity_age_secs }
    }
}

pub open spec fn poll_views(v: Seq<PollRow>) -> Seq<PollView> {
    v.map_values(|r: PollRow| r@)
}

/// Seconds from `epoch` to `now`; 0 where `now` comes first.
pub open spec fn age_at(now: u64, epoch: nat) -> u64 {
    if now >= epoch {
        (now - epoch) as u64
    } else {
        0
    }
}

/// The row of a line that gives a pane's id, whether it is dead, and when it was last
/// active; `None` where the line does not begin with a pane's id.
pub open spec fn poll_row(line: Seq<char>, now: u64) -> Option<PollView> {
    let p = seqs::split(line, '\t');
    let pane = field(p, 0, ""@);
    if is_tagged(pane, '%') {
        Some(
            PollView {
                pane_id: pane,
                dead: field(p, 1, "0"@) == "1"@,
                age: match activity(seqs::trim(field(p, 2, ""@))) {
                    Some(epoch) => Some(age_at(now, epoch)),
                    None => None,
                },
            },
        )
    } else {
        None
    }
}

pub open spec fn poll_rows(lines: Seq<Seq<char>>, now: u64) -> Seq<PollView>
    decreases lines.len(),
{
    if lines.len() == 0 {
        Seq::empty()
    } else {
        let head = poll_rows(lines.drop_last(), now);
        match poll_row(lines.last(), now) {
            Some(r) => head.push(r),
            None => head,
        }
    }
}

/// The rows of a poll at the time `now`; none where tmux has no panes to list.
pub open spec fn polled_rows(out: TmuxOut, now: u64) -> Seq<PollView> {
    if out.status == 0 {
        poll_rows(seqs::lines(out.stdout@), now)
    } else {
        Seq::empty()
    }
}

/// The command whose outcome [`pane_poll_rows`] reads.
pub fn poll_command() -> (r: Vec<String>)
    ensures
        seqs::views(r@) == seq![
            "list-panes"@,
            "-s"@,
            "-t"@,
            "cockpit-main"@,
            "-F"@,
            "#{pane_id}\t#{pane_dead}\t#{pane_activity}"@,
        ],
{
    let args = [
        "list-panes",
        "-s",
        "-t",
        tmux::SESSION,
        "-F",
        "#{pane_id}\t#{pane_dead}\t#{pane_activity}",
    ];
    assert(tmux::slices(args@) =~= seq![
        "list-panes"@,
        "-s"@,
        "-t"@,
        "cockpit-main"@,
        "-F"@,
        "#{pane_id}\t#{pane_dead}\t#{pane_activity}"@,
    ]);
    tmux::owned(&args)
}

fn read_poll_row(line: &str, now: u64) -> (r: Option<PollRow>)
    ensures
        (match r {
            Some(row) => poll_row(line@, now) == Some(row@),
            None => poll_row(line@, now) is None,
        }),
{
    let parts = text::split(line, '\t');
    let pane = part(&parts, 0, "");
    if !is_pane_id(pane.as_str()) {
        return None;
    }
    let dead = text::same(part(&parts, 1, "0").as_str(), "1");
    let raw = text::trim(part(&parts, 2, "").as_str());
    let age: Option<u64> = match activity_epoch_secs(raw.as_str()) {
        Some(epoch) => if now >= epoch {
            Some(now - epoch)
        } else {
            Some(0)
        },
        None => None,
    };
    Some(PollRow { pane_id: pane, dead, activity_age_secs: age })
}

/// The rows of a poll, from the outcome of [`poll_command`] at the time `now`, in seconds
/// since the epoch.
pub fn pane_poll_rows(out: &TmuxResult, now: u64) -> (r: Result<Vec<PollRow>, String>)
    ensures
        (match out {
            Ok(o) => r matches Ok(v) && poll_views(v@) == polled_rows(*o, now),
            Err(e) => r matches Err(m) && m@ == e@,
        }),
{
    let o = match out {
        Ok(o) => o,
        Err(e) => {
            return Err(e.clone());
        },
    };
    let mut rows: Vec<PollRow> = Vec::new();
    assert(poll_views(rows@) =~= Seq::empty());
    if !o.ok() {
        return Ok(rows);
    }
    let lines = text::lines(o.stdout.as_str());
    let ghost all = seqs::views(lines@);
    let mut i: usize = 0;
    assert(all.take(0) =~= Seq::empty());
    while i < lines.len()
        invariant
            i <= lines@.len(),
            all == seqs::views(lines@),
            poll_views(rows@) == poll_rows(all.take(i as int), now),
        decreases lines@.len() - i,
    {
        let ghost before = rows@;
        proof {
            assert(all.take(i + 1).drop_last() =~= all.take(i as int));
            assert(all.take(i + 1).last() == lines@[i as int]@);
        }
        if let Some(row) = read_poll_row(lines[i].as_str(), now) {
            rows.push(row);
            assert(poll_views(rows@) =~= poll_views(before).push(row@));
        }
        i += 1;
    }
    assert(all.take(all.len() as int) =~= all);
    Ok(rows)
}

/// The command that captures what a pane has shown of late.
pub fn capture_command(pane_id: &str) -> (r: Vec<String>)
    ensures
        seqs::views(r@) == recent_args(pane_id@),
{
    let args = ["capture-pane", "-p", "-e", "-S", "-120", "-t", pane_id];
    assert(tmux::slices(args@) =~= recent_args(pane_id@));
    tmux::owned(&args)
}

/// What a pane has shown of late, from the outcome of [`capture_command`]; an error where it
/// could not be captured.
pub fn capture_pane(out: &TmuxResult) -> (r: Result<String, String>)
    ensures
        (match out {
            Ok(o) => if o.status == 0 {
                r matches Ok(s) && s@ == o.stdout@
            } else {
                r matches Err(e) && e@ == o.stderr@
            },
            Err(m) => r matches Err(e) && e@ == m@,
        }),
{
    match out {
        Ok(o) => if o.ok() {
            Ok(o.stdout.clone())
        } else {
            Err(o.stderr.clone())
        },
        Err(m) => Err(m.clone()),
    }
}

/// What a pane has shown; nothing where it could not be captured.
pub open spec fn shown_text(capture: Result<String, String>) -> Seq<char> {
    match capture {
        Ok(text) => text@,
        Err(_) => ""@,
    }
}

pub open spec fn shown(captures: Seq<Result<String, String>>) -> Seq<Seq<char>> {
    captures.map_values(|c: Result<String, String>| shown_text(c))
}

/// What is sent of a pane whose status has become `status`.
pub open spec fn payload_of(row: PollView, status: Status) -> PayloadView {
    PayloadView {
        pane_id: row.pane_id,
        status: status::status_name(status),
        ambiguous: status == Status::Unknown,
        recency_ms: match row.age {
            Some(s) => if s * 1000 <= u64::MAX {
                (s * 1000) as u64
            } else {
                u64::MAX
            },
            None => 0,
        },
    }
}

pub open spec fn row_status(row: PollView, capture: Seq<char>) -> Status {
    status::status_of(row.dead, capture, row.age)
}

/// The statuses after a poll that found `rows` with `captures`, and what is sent: a pane is
/// sent only where its status is another one than before.
pub open spec fn polled(
    statuses: Map<Seq<char>, Status>,
    rows: Seq<PollView>,
    captures: Seq<Seq<char>>,
) -> (Map<Seq<char>, Status>, Seq<PayloadView>)
    decreases rows.len(),
{
    if rows.len() == 0 {
        (statuses, Seq::empty())
    } else {
        let (known, sent) = polled(statuses, rows.drop_last(), captures);
        let row = rows.last();
        let now = row_status(row, captures[rows.len() - 1]);
        if known.contains_key(row.pane_id) && known[row.pane_id] == now {
            (known, sent)
        } else {
            (known.insert(row.pane_id, now), sent.push(payload_of(row, now)))
        }
    }
}

// ── The manager ─────────────────────────────────────────────────────────────────────────

/// The program that runs in the panes, the commands for the control client, where one is
/// attached, and the statuses that were sent last. Of tabs and panes nothing is kept: tmux
/// knows them.
pub struct SessionManager {
    agent: String,
    client: Option<ControlClient>,
    last_status: StringHashMap<Status>,
}

#[verifier::ext_equal]
pub struct ManagerView {
    pub agent: Seq<char>,
    pub pending: Option<Seq<char>>,
    pub statuses: Map<Seq<char>, Status>,
}

impl View for SessionManager {
    type V = ManagerView;

    closed spec fn view(&self) -> ManagerView {
        ManagerView {
            agent: self.agent@,
            pending: match self.client {
                Some(c) => Some(c@),
                None => None,
            },
            statuses: self.last_status@,
        }
    }
}

/// The command `cmd` was handed to the client, where one is attached.
pub open spec fn sends(before: ManagerView, after: ManagerView, cmd: Seq<char>, r: Result<(), String>) -> bool {
    match before.pending {
        Some(p) => r is Ok && after == (ManagerView { pending: Some(p + cmd), ..before }),
        None => r matches Err(e) && e@ == "not attached"@ && after == before,
    }
}

/// Types `line` into a pane and ends it.
pub open spec fn line_text(pane: Seq<char>, line: Seq<char>) -> Seq<char> {
    engine::send_keys_text(pane, line) + engine::send_hex_text(pane, seq![0x0du8])
}

/// `cd`, then the agent with the pane's id in its environment.
pub open spec fn agent_line(agent: Seq<char>, pane: Seq<char>, cwd: Seq<char>) -> Seq<char> {
    "cd "@ + tmux::quoted(cwd) + " && COCKPIT_PANE_ID="@ + pane + " "@ + agent
}

/// Flags that would hand over a key.
pub open spec fn names_key(flags: Seq<char>) -> bool {
    seqs::has_text(flags, "api-key"@) || seqs::has_text(flags, "apiKey"@) || seqs::has_text(
        flags,
        "ANTHROPIC_API_KEY"@,
    )
}

/// The flags that are added to a command line.
pub open spec fn flags_of(flags: Option<Seq<char>>) -> Seq<char> {
    match flags {
        Some(f) => seqs::trim(f),
        None => Seq::empty(),
    }
}

/// The words of the flags.
pub open spec fn flag_words(flags: Option<Seq<char>>) -> Seq<Seq<char>> {
    match flags {
        Some(f) => seqs::words(f),
        None => Seq::empty(),
    }
}

/// The line that starts the agent in a directory. The directory, the model and every word of
/// the flags stand in quotes.
pub open spec fn launch_line(
    agent: Seq<char>,
    pane: Seq<char>,
    cwd: Seq<char>,
    model: Option<Seq<char>>,
    flags: Option<Seq<char>>,
) -> Seq<char> {
    agent_line(agent, pane, cwd) + (match model {
        Some(m) => " --model "@ + tmux::quoted(m),
        None => Seq::empty(),
    }) + (if flag_words(flags).len() > 0 {
        " "@ + tmux::quoted_words(flag_words(flags))
    } else {
        Seq::empty()
    })
}

pub open spec fn opt_str(o: Option<&str>) -> Option<Seq<char>> {
    match o {
        Some(s) => Some(s@),
        None => None,
    }
}

/// The layouts that tmux knows by name, and `none` for leaving the panes as they are.
/// Anything else counts as `tiled`.
pub open spec fn layout_name(layout: Seq<char>) -> Seq<char> {
    if layout == "tiled"@ || layout == "even-horizontal"@ || layout == "even-vertical"@ || layout
        == "main-horizontal"@ || layout == "main-vertical"@ || layout == "none"@ {
        layout
    } else {
        "tiled"@
    }
}

pub open spec fn clamped(n: u16, low: u16, high: u16) -> u16 {
    if n < low {
        low
    } else if n > high {
        high
    } else {
        n
    }
}

fn clamp(n: u16, low: u16, high: u16) -> (r: u16)
    ensures
        r == clamped(n, low, high),
{
    if n < low {
        low
    } else if n > high {
        high
    } else {
        n
    }
}

/// Sizes the client to the grid, within bounds, and lays the panes out in it.
pub open spec fn set_grid_text(cols: u16, rows: u16, layout: Seq<char>) -> Seq<char> {
    let c = clamped(cols, 20, 2000);
    let r = clamped(rows, 5, 500);
    if layout_name(layout) == "none"@ {
        engine::client_size_text(c, r)
    } else {
        engine::grid_text(c, r, layout_name(layout))
    }
}

/// What follows an attempt at an operation.
#[derive(Debug)]
pub enum Attempt<T> {
    Done(Result<T, String>),
    /// Attach anew, then make another attempt.
    Reattach,
}

impl SessionManager {
    /// A manager for panes in which the program `agent` runs. It has no client, and has
    /// sent no status.
    pub fn new(agent: &str) -> (r: Self)
        ensures
            r@ == (ManagerView { agent: agent@, pending: None, statuses: Map::empty() }),
    {
        SessionManager {
            agent: agent.to_owned(),
            client: None,
            last_status: StringHashMap::new(),
        }
    }

    /// Takes note of a client that was attached, after the session was made sure of.
    pub fn init(&mut self, ensured: Result<(), String>, attached: Result<(), EngineError>) -> (r:
        Result<(), String>)
        ensures
            (match ensured {
                Err(e) => r matches Err(m) && m@ == e@ && final(self)@ == old(self)@,
                Ok(_) => match attached {
                    Err(e) => r matches Err(m) && m@ == engine::error_text(e) && final(self)@
                        == old(self)@,
                    Ok(_) => r is Ok && final(self)@ == (ManagerView {
                        pending: Some(Seq::empty()),
                        ..old(self)@
                    }),
                },
            }),
    {
        if let Err(e) = ensured {
            return Err(e);
        }
        if let Err(e) = attached {
            return Err(e.message());
        }
        let client = ControlClient::new();
        assert(client@ =~= Seq::empty());
        self.client = Some(client);
        Ok(())
    }

    pub fn is_attached(&self) -> (r: bool)
        ensures
            r == self@.pending is Some,
    {
        self.client.is_some()
    }

    /// Takes the commands for the client, to be written to it.
    pub fn take_commands(&mut self) -> (r: Option<String>)
        ensures
            seqs::opt_view(r) == old(self)@.pending,
            final(self)@ == (ManagerView {
                pending: match old(self)@.pending {
                    Some(_) => Some(Seq::empty()),
                    None => None,
                },
                ..old(self)@
            }),
    {
        match &mut self.client {
            Some(c) => {
                let text = c.take();
                assert(c@ =~= Seq::empty());
                Some(text)
            },
            None => None,
        }
    }

    /// What follows an attempt at an operation, `retried` telling whether it was the second.
    /// A server that is gone is attached to anew, once; the client that was attached to it
    /// is given up.
    pub fn with_reattach<T>(&mut self, retried: bool, out: Result<T, String>) -> (r: Attempt<T>)
        ensures
            (match out {
                Err(e) => if !retried && says_gone(e@) {
                    r is Reattach && final(self)@ == (ManagerView { pending: None, ..old(self)@ })
                } else {
                    r == Attempt::<T>::Done(out) && final(self)@ == old(self)@
                },
                Ok(_) => r == Attempt::<T>::Done(out) && final(self)@ == old(self)@,
            }),
    {
        match out {
            Ok(v) => Attempt::Done(Ok(v)),
            Err(e) => {
                if !retried && is_server_gone(e.as_str()) {
                    self.client = None;
                    return Attempt::Reattach;
                }
                Attempt::Done(Err(e))
            },
        }
    }

    /// Makes a new tab.
    pub fn create_tab(name: Option<&str>, cwd: &str, outs: &[TmuxResult]) -> (r: Step<
        CreateTabResult,
    >)
        ensures
            r@ == create_tab_step(opt_str(name), cwd@, outs@),
    {
        let format = "#{window_id} #{window_index} #{pane_id}";
        let mut args: Vec<&str> = vec![
            "new-window",
            "-t",
            "cockpit-main:",
            "-c",
            cwd,
            "-P",
            "-F",
            format,
        ];
        if let Some(n) = name {
            args.push("-n");
            args.push(n);
        }
        assert(tmux::slices(args@) =~= new_window_args(opt_str(name), cwd@));
        if outs.len() == 0 {
            return run(&args);
        }
        let out = match tmux::tmux_ok(&args, &outs[0]) {
            Ok(o) => o,
            Err(e) => {
                return Step::Done(Err(e));
            },
        };
        let words = text::words(out.trimmed().as_str());
        Step::Done(
            Ok(
                CreateTabResult {
                    tab_id: tab_id_for_index(index_part(&words, 1)),
                    tmux_window_id: part(&words, 0, ""),
                    pane_id: part(&words, 2, ""),
                },
            ),
        )
    }

    /// Makes the window that a new session begins with the new tab, under the given name.
    pub fn adopt_bootstrap_tab(name: Option<&str>, outs: &[TmuxResult]) -> (r: Step<
        CreateTabResult,
    >)
        ensures
            r@ == adopt_step(opt_str(name), outs@),
    {
        match read_tabs(outs) {
            Tabs::Run(args) => Step::Run(args),
            Tabs::Failed(e) => Step::Done(Err(e)),
            Tabs::Got(tabs, n) => {
                if tabs.len() == 0 {
                    return fail("re-healed session has no window to adopt");
                }
                let tab = &tabs[0];
                assert(tab_views(tabs@)[0] == tab@);
                if let Some(new_name) = name {
                    if text::chars_of(new_name).len() > 0 && outs.len() == n {
                        let args = [
                            "rename-window",
                            "-t",
                            tab.tmux_window_id.as_str(),
                            new_name,
                        ];
                        assert(tmux::slices(args@) =~= rename_args(
                            tab.tmux_window_id@,
                            new_name@,
                        ));
                        return run(&args);
                    }
                }
                Step::Done(
                    Ok(
                        CreateTabResult {
                            tab_id: tab.tab_id.clone(),
                            tmux_window_id: tab.tmux_window_id.clone(),
                            pane_id: part(&tab.pane_ids, 0, ""),
                        },
                    ),
                )
            },
        }
    }

    /// How a new tab is to be made: by [`SessionManager::create_tab`] where the session is
    /// there and answers, otherwise by attaching anew and
    /// [`SessionManager::adopt_bootstrap_tab`].
    pub fn create_tab_healing(outs: &[TmuxResult]) -> (r: Step<TabPlan>)
        ensures
            r@ == healing_step(outs@),
    {
        if outs.len() == 0 {
            let args = ["has-session", "-t", tmux::SESSION];
            assert(tmux::slices(args@) =~= tmux::has_session_args());
            return run(&args);
        }
        if !tmux::has_session(&outs[0]) {
            return Step::Done(Ok(TabPlan::Adopt));
        }
        if outs.len() == 1 {
            let args = ["list-panes", "-t", tmux::SESSION, "-F", "#{pane_id}"];
            assert(tmux::slices(args@) =~= health_args());
            return run(&args);
        }
        if tmux::server_healthy(&outs[1]) {
            Step::Done(Ok(TabPlan::NewWindow))
        } else {
            Step::Done(Ok(TabPlan::Adopt))
        }
    }

    /// Closes a tab, given by its window's id. Where panes in it still run and `force` is
    /// not set, it is not closed and they are named. A window that is not there counts as
    /// closed.
    pub fn close_tab(window_id: &str, force: bool, outs: &[TmuxResult]) -> (r: Step<CloseTabResult>)
        ensures
            r@ == close_tab_step(window_id@, force, outs@),
    {
        if !is_window_id(window_id) {
            let mut e = "bad window id ".to_owned();
            e.append(tmux::debug_str(window_id).as_str());
            e.append(", want @<n>");
            return Step::Done(Err(e));
        }
        if outs.len() == 0 {
            let args = ["list-panes", "-t", window_id, "-F", "#{pane_id} #{pane_dead}"];
            assert(tmux::slices(args@) =~= live_args(window_id@));
            return run(&args);
        }
        let live = match &outs[0] {
            Err(e) => {
                return Step::Done(Err(e.clone()));
            },
            Ok(o) => if o.ok() {
                live_panes(o.stdout.as_str())
            } else {
                let none: Vec<String> = Vec::new();
                assert(seqs::views(none@) =~= Seq::empty());
                none
            },
        };
        assert(live@.len() == seqs::views(live@).len());
        if !force && live.len() > 0 {
            return Step::Done(Ok(CloseTabResult { ok: false, live_panes: live }));
        }
        if outs.len() == 1 {
            let args = ["kill-window", "-t", window_id];
            assert(tmux::slices(args@) =~= kill_window_args(window_id@));
            return run(&args);
        }
        match &outs[1] {
            Err(e) => Step::Done(Err(e.clone())),
            Ok(k) => {
                if !k.ok() && !is_missing_target(k.stderr.as_str()) {
                    let mut e = "tmux kill-window -t ".to_owned();
                    e.append(window_id);
                    e.append(" failed (exit ");
                    e.append(text::signed_decimal(k.status as i64).as_str());
                    e.append("): ");
                    e.append(text::trim(k.stderr.as_str()).as_str());
                    return Step::Done(Err(e));
                }
                let none: Vec<String> = Vec::new();
                assert(seqs::views(none@) =~= Seq::empty());
                Step::Done(Ok(CloseTabResult { ok: true, live_panes: none }))
            },
        }
    }

    /// Splits a pane, side by side (`h`) or one above the other (`v`).
    pub fn split_pane(pane_id: &str, dir: &str, outs: &[TmuxResult]) -> (r: Step<SplitPaneResult>)
        ensures
            r@ == split_step(pane_id@, dir@, outs@),
    {
        let flag = if text::same(dir, "h") {
            "-h"
        } else if text::same(dir, "v") {
            "-v"
        } else {
            let mut e = "bad split dir ".to_owned();
            e.append(tmux::debug_str(dir).as_str());
            e.append(", want 'h' or 'v'");
            return Step::Done(Err(e));
        };
        let args = [
            "split-window",
            flag,
            "-t",
            pane_id,
            "-c",
            "#{pane_current_path}",
            "-P",
            "-F",
            "#{pane_id}",
        ];
        assert(tmux::slices(args@) =~= split_args(flag@, pane_id@));
        if outs.len() == 0 {
            return run(&args);
        }
        let new_pane = match tmux::tmux_ok(&args, &outs[0]) {
            Err(e) => {
                return Step::Done(Err(e));
            },
            Ok(o) => o.trimmed(),
        };
        if outs.len() == 1 {
            let args = [
                "display-message",
                "-p",
                "-t",
                new_pane.as_str(),
                "-F",
                "#{window_layout}",
            ];
            assert(tmux::slices(args@) =~= layout_args(new_pane@));
            return run(&args);
        }
        let layout = match &outs[1] {
            Ok(l) => if l.ok() {
                l.trimmed()
            } else {
                "".to_owned()
            },
            Err(_) => "".to_owned(),
        };
        Step::Done(Ok(SplitPaneResult { pane_id: new_pane, layout }))
    }

    /// Closes a pane: `kill` ends what runs in it, `detach` moves it to a window of its own.
    /// Its status is forgotten.
    pub fn close_pane(&mut self, pane_id: &str, mode: &str, outs: &[TmuxResult]) -> (r: Step<()>)
        ensures
            r@ == close_pane_step(pane_id@, mode@, outs@),
            final(self)@ == (if r@ == StepView::<()>::Done(Ok(())) {
                ManagerView { statuses: old(self)@.statuses.remove(pane_id@), ..old(self)@ }
            } else {
                old(self)@
            }),
    {
        let args = if text::same(mode, "kill") {
            let args: Vec<&str> = vec!["kill-pane", "-t", pane_id];
            assert(tmux::slices(args@) =~= seq!["kill-pane"@, "-t"@, pane_id@]);
            args
        } else if text::same(mode, "detach") {
            let args: Vec<&str> = vec!["break-pane", "-d", "-s", pane_id];
            assert(tmux::slices(args@) =~= seq!["break-pane"@, "-d"@, "-s"@, pane_id@]);
            args
        } else {
            let mut e = "bad close mode ".to_owned();
            e.append(tmux::debug_str(mode).as_str());
            e.append(", want 'kill' or 'detach'");
            return Step::Done(Err(e));
        };
        proof {
            reveal_strlit("kill");
            reveal_strlit("detach");
            assert("kill"@[0] != "detach"@[0]);
        }
        if outs.len() == 0 {
            return run(&args);
        }
        if let Err(e) = tmux::tmux_ok(&args, &outs[0]) {
            return Step::Done(Err(e));
        }
        self.last_status.remove(pane_id);
        Step::Done(Ok(()))
    }

    /// Moves a pane to a new window, which becomes a tab, and gives the window's id.
    pub fn break_pane(pane_id: &str, outs: &[TmuxResult]) -> (r: Step<String>)
        ensures
            r@ == break_step(pane_id@, outs@),
    {
        let args = ["break-pane", "-s", pane_id, "-P", "-F", "#{window_id}"];
        assert(tmux::slices(args@) =~= break_args(pane_id@));
        if outs.len() == 0 {
            return run(&args);
        }
        match tmux::tmux_ok(&args, &outs[0]) {
            Err(e) => Step::Done(Err(e)),
            Ok(o) => Step::Done(Ok(o.trimmed())),
        }
    }

    /// All tabs and panes, as tmux has them.
    pub fn list_state(&self, outs: &[TmuxResult]) -> (r: Step<CockpitState>)
        ensures
            r@ == list_state_step(self@.statuses, outs@),
    {
        match read_tabs(outs) {
            Tabs::Run(args) => Step::Run(args),
            Tabs::Failed(e) => Step::Done(Err(e)),
            Tabs::Got(tabs, n) => {
                if outs.len() == n {
                    let args = [
                        "list-panes",
                        "-s",
                        "-t",
                        tmux::SESSION,
                        "-F",
                        "#{pane_id}\t#{window_index}\t#{pane_current_path}\t#{pane_title}\t#{pane_dead}",
                    ];
                    assert(tmux::slices(args@) =~= panes_args());
                    return run(&args);
                }
                match &outs[n] {
                    Err(e) => Step::Done(Err(e.clone())),
                    Ok(p) => {
                        let panes: Vec<PaneInfo> = if p.ok() {
                            collect_panes(p.stdout.as_str(), &self.last_status)
                        } else {
                            Vec::new()
                        };
                        assert(p.status != 0 ==> pane_views(panes@) =~= Seq::empty());
                        Step::Done(
                            Ok(
                                CockpitState {
                                    socket: tmux::SOCKET.to_owned(),
                                    session: tmux::SESSION.to_owned(),
                                    tabs,
                                    panes,
                                },
                            ),
                        )
                    },
                }
            },
        }
    }
}

impl SessionManager {
    /// Types a line into a pane and ends it, in one go.
    pub fn pane_run_line(&mut self, pane_id: &str, line: &str) -> (r: Result<(), String>)
        ensures
            sends(old(self)@, final(self)@, line_text(pane_id@, line@), r),
    {
        match &mut self.client {
            Some(c) => {
                let ghost before = c@;
                c.pane_send_keys(pane_id, line);
                let end = [0x0du8];
                assert(end@ =~= seq![0x0du8]);
                c.pane_send_keys_hex(pane_id, &end);
                assert(c@ =~= before + line_text(pane_id@, line@));
                Ok(())
            },
            None => Err("not attached".to_owned()),
        }
    }

    /// Starts the agent in a pane. The words of the flags are quoted one by one, and flags
    /// that would hand over a key are refused.
    pub fn launch_cc(
        &mut self,
        pane_id: &str,
        cwd: &str,
        model: Option<&str>,
        flags: Option<&str>,
    ) -> (r: Result<(), String>)
        ensures
            (if names_key(flags_of(opt_str(flags))) {
                r matches Err(e) && e@ == "api-key flags are not permitted"@ && final(self)@
                    == old(self)@
            } else {
                sends(
                    old(self)@,
                    final(self)@,
                    line_text(
                        pane_id@,
                        launch_line(
                            old(self)@.agent,
                            pane_id@,
                            cwd@,
                            opt_str(model),
                            opt_str(flags),
                        ),
                    ),
                    r,
                )
            }),
    {
        let mut cmd = "cd ".to_owned();
        cmd.append(tmux::shq(cwd).as_str());
        cmd.append(" && COCKPIT_PANE_ID=");
        cmd.append(pane_id);
        cmd.append(" ");
        cmd.append(self.agent.as_str());
        let ghost base = cmd@;
        let ghost with_model = base + (match opt_str(model) {
            Some(m) => " --model "@ + tmux::quoted(m),
            None => Seq::empty(),
        });
        if let Some(m) = model {
            cmd.append(" --model ");
            cmd.append(tmux::shq(m).as_str());
            assert(cmd@ =~= with_model);
        }
        assert(cmd@ =~= with_model);
        let f = match flags {
            Some(f) => text::trim(f),
            None => String::new(),
        };
        assert(f@ =~= flags_of(opt_str(flags)));
        if text::has_text(f.as_str(), "api-key") || text::has_text(f.as_str(), "apiKey")
            || text::has_text(f.as_str(), "ANTHROPIC_API_KEY") {
            return Err("api-key flags are not permitted".to_owned());
        }
        let words = match flags {
            Some(f) => text::words(f),
            None => Vec::new(),
        };
        assert(seqs::views(words@) =~= flag_words(opt_str(flags)));
        if words.len() > 0 {
            cmd.append(" ");
            cmd.append(tmux::shq_words(&words).as_str());
            assert(cmd@ =~= with_model + (" "@ + tmux::quoted_words(seqs::views(words@))));
        }
        assert(cmd@ =~= launch_line(
            self@.agent,
            pane_id@,
            cwd@,
            opt_str(model),
            opt_str(flags),
        ));
        self.pane_run_line(pane_id, cmd.as_str())
    }

    /// Changes the directory of the shell in a pane.
    pub fn launch_shell(&mut self, pane_id: &str, cwd: &str) -> (r: Result<(), String>)
        ensures
            sends(
                old(self)@,
                final(self)@,
                line_text(pane_id@, "cd "@ + tmux::quoted(cwd@)),
                r,
            ),
    {
        let mut cmd = "cd ".to_owned();
        cmd.append(tmux::shq(cwd).as_str());
        self.pane_run_line(pane_id, cmd.as_str())
    }

    /// Starts an agent in a pane.
    pub fn launch_agent(&mut self, pane_id: &str, cwd: &str, agent: &str) -> (r: Result<
        (),
        String,
    >)
        ensures
            (if is_agent_name(agent@) {
                sends(
                    old(self)@,
                    final(self)@,
                    line_text(
                        pane_id@,
                        agent_line(old(self)@.agent, pane_id@, cwd@) + " --agent "@
                            + tmux::quoted(agent@),
                    ),
                    r,
                )
            } else {
                r matches Err(e) && e@ == "invalid agent name: "@ + agent@ && final(self)@
                    == old(self)@
            }),
    {
        if !is_valid_agent_name(agent) {
            let mut e = "invalid agent name: ".to_owned();
            e.append(agent);
            return Err(e);
        }
        let mut cmd = "cd ".to_owned();
        cmd.append(tmux::shq(cwd).as_str());
        cmd.append(" && COCKPIT_PANE_ID=");
        cmd.append(pane_id);
        cmd.append(" ");
        cmd.append(self.agent.as_str());
        cmd.append(" --agent ");
        cmd.append(tmux::shq(agent).as_str());
        self.pane_run_line(pane_id, cmd.as_str())
    }

    /// Types `data` into a pane, literally.
    pub fn pane_send_keys(&mut self, pane_id: &str, data: &str) -> (r: Result<(), String>)
        ensures
            sends(old(self)@, final(self)@, engine::send_keys_text(pane_id@, data@), r),
    {
        match &mut self.client {
            Some(c) => {
                c.pane_send_keys(pane_id, data);
                Ok(())
            },
            None => Err("not attached".to_owned()),
        }
    }

    pub fn pane_resize(&mut self, pane_id: &str, cols: u16, rows: u16) -> (r: Result<(), String>)
        ensures
            sends(old(self)@, final(self)@, engine::resize_text(pane_id@, cols, rows), r),
    {
        match &mut self.client {
            Some(c) => {
                c.pane_resize(pane_id, cols, rows);
                Ok(())
            },
            None => Err("not attached".to_owned()),
        }
    }

    /// Sizes the window that the client shows to a grid, within bounds, and lays its panes
    /// out in it.
    pub fn set_grid(&mut self, _window_id: &str, cols: u16, rows: u16, layout: &str) -> (r: Result<
        (),
        String,
    >)
        ensures
            sends(old(self)@, final(self)@, set_grid_text(cols, rows, layout@), r),
    {
        let name = if text::same(layout, "tiled") || text::same(layout, "even-horizontal")
            || text::same(layout, "even-vertical") || text::same(layout, "main-horizontal")
            || text::same(layout, "main-vertical") || text::same(layout, "none") {
            layout
        } else {
            "tiled"
        };
        let c = clamp(cols, 20, 2000);
        let r = clamp(rows, 5, 500);
        match &mut self.client {
            Some(client) => {
                if text::same(name, "none") {
                    client.set_client_size(c, r);
                } else {
                    client.set_grid(c, r, name);
                }
                Ok(())
            },
            None => Err("not attached".to_owned()),
        }
    }

    /// Interrupts what runs in a pane.
    pub fn interrupt_pane(&mut self, pane_id: &str) -> (r: Result<(), String>)
        ensures
            sends(old(self)@, final(self)@, engine::send_hex_text(pane_id@, seq![3u8]), r),
    {
        match &mut self.client {
            Some(c) => {
                c.interrupt_pane(pane_id);
                Ok(())
            },
            None => Err("not attached".to_owned()),
        }
    }

    /// One poll: `rows` are the panes that were found, and `captures` what [`capture_pane`]
    /// gave for each, which of a dead pane may be anything. Gives what is to be sent.
    pub fn poll_statuses(&mut self, rows: &[PollRow], captures: &[Result<String, String>]) -> (r:
        Vec<PaneStatusPayload>)
        requires
            rows@.len() == captures@.len(),
        ensures
            (final(self)@.statuses, payload_views(r@)) == polled(
                old(self)@.statuses,
                poll_views(rows@),
                shown(captures@),
            ),
            final(self)@ == (ManagerView { statuses: final(self)@.statuses, ..old(self)@ }),
    {
        let ghost all = poll_views(rows@);
        let ghost texts = shown(captures@);
        let ghost start = self@;
        let mut changed: Vec<PaneStatusPayload> = Vec::new();
        let mut i: usize = 0;
        assert(payload_views(changed@) =~= Seq::empty());
        assert(all.take(0) =~= Seq::empty());
        while i < rows.len()
            invariant
                i <= rows@.len(),
                rows@.len() == captures@.len(),
                all == poll_views(rows@),
                texts == shown(captures@),
                (self.last_status@, payload_views(changed@)) == polled(
                    start.statuses,
                    all.take(i as int),
                    texts,
                ),
                self@ == (ManagerView { statuses: self@.statuses, ..start }),
            decreases rows@.len() - i,
        {
            let row = &rows[i];
            let ghost before = changed@;
            proof {
                assert(all.take(i + 1).drop_last() =~= all.take(i as int));
                assert(all.take(i + 1).last() == row@);
                assert(texts[i as int] == shown_text(captures@[i as int]));
            }
            let capture = match &captures[i] {
                Ok(text) => text.as_str(),
                Err(_) => "",
            };
            let now = status::classify(row.dead, capture, row.activity_age_secs);
            let same = match self.last_status.get(row.pane_id.as_str()) {
                Some(s) => *s == now,
                None => false,
            };
            if !same {
                self.last_status.insert(row.pane_id.clone(), now);
                let recency_ms: u64 = match row.activity_age_secs {
                    Some(s) => match s.checked_mul(1000) {
                        Some(ms) => ms,
                        None => u64::MAX,
                    },
                    None => 0,
                };
                let payload = PaneStatusPayload {
                    pane_id: row.pane_id.clone(),
                    status: now.as_str().to_owned(),
                    ambiguous: now == Status::Unknown,
                    recency_ms,
                };
                assert(payload@ == payload_of(row@, now));
                changed.push(payload);
                assert(payload_views(changed@) =~= payload_views(before).push(payload@));
            }
            i += 1;
        }
        assert(all.take(all.len() as int) =~= all);
        changed
    }

    /// Forgets the status of a pane, so that it is sent again when the pane is next seen.
    pub fn forget_pane(&mut self, pane_id: &str)
        ensures
            final(self)@ == (ManagerView {
                statuses: old(self)@.statuses.remove(pane_id@),
                ..old(self)@
            }),
    {
        self.last_status.remove(pane_id);
    }

    /// What shows a pane with its history, in base64.
    pub fn warm_start(pane_id: &str, outs: &[TmuxResult]) -> (r: Step<String>)
        requires
            outs@.len() >= 2 ==> (outs@[0] matches Ok(o) ==> o.status == 0 ==> replay_fits(
                warm_replay(o.stdout@, outs@[1]),
            )),
        ensures
            r@ == warm_start_step(pane_id@, outs@),
    {
        if outs.len() == 0 {
            let args = ["capture-pane", "-p", "-e", "-S", "-", "-t", pane_id];
            assert(tmux::slices(args@) =~= history_args(pane_id@));
            return run(&args);
        }
        match &outs[0] {
            Err(e) => Step::Done(Err(e.clone())),
            Ok(o) => {
                if !o.ok() {
                    return Step::Done(Err(text::trim(o.stderr.as_str())));
                }
                if outs.len() == 1 {
                    let format = "#{pane_height} #{cursor_x} #{cursor_y}";
                    let args = ["display-message", "-p", "-t", pane_id, format];
                    assert(tmux::slices(args@) =~= numbers_args(pane_id@, format@));
                    return run(&args);
                }
                let shown = match pane_numbers(&outs[1], 3) {
                    Some(v) => {
                        proof {
                            numbers_count(seqs::words(outs@[1]->Ok_0.stdout@), 3);
                        }
                        replay::compose_warm_start(
                            o.stdout.as_str(),
                            v[0] as usize,
                            Some((v[1], v[2])),
                        )
                    },
                    None => replay::compose_plain(o.stdout.as_str()),
                };
                Step::Done(Ok(b64::encode(shown.as_str().as_bytes())))
            },
        }
    }

    /// What shows the screen of a pane, in base64.
    pub fn warm_start_screen(pane_id: &str, outs: &[TmuxResult]) -> (r: Step<String>)
        requires
            outs@.len() >= 2 ==> (outs@[0] matches Ok(o) ==> o.status == 0 ==> replay_fits(
                screen_replay(o.stdout@, outs@[1]),
            )),
        ensures
            r@ == warm_start_screen_step(pane_id@, outs@),
    {
        if outs.len() == 0 {
            let args = ["capture-pane", "-p", "-e", "-t", pane_id];
            assert(tmux::slices(args@) =~= screen_args(pane_id@));
            return run(&args);
        }
        match &outs[0] {
            Err(e) => Step::Done(Err(e.clone())),
            Ok(o) => {
                if !o.ok() {
                    return Step::Done(Err(text::trim(o.stderr.as_str())));
                }
                if outs.len() == 1 {
                    let format = "#{cursor_x} #{cursor_y}";
                    let args = ["display-message", "-p", "-t", pane_id, format];
                    assert(tmux::slices(args@) =~= numbers_args(pane_id@, format@));
                    return run(&args);
                }
                let cursor: Option<(u32, u32)> = match pane_numbers(&outs[1], 2) {
                    Some(v) => {
                        proof {
                            numbers_count(seqs::words(outs@[1]->Ok_0.stdout@), 2);
                        }
                        Some((v[0], v[1]))
                    },
                    None => None,
                };
                let shown = replay::compose_screen_replay(o.stdout.as_str(), cursor);
                Step::Done(Ok(b64::encode(shown.as_str().as_bytes())))
            },
        }
    }

    /// Ends the session: the client is detached and given up, and the session, never the
    /// server, is to be killed by the command that is given. Also gives the text to be
    /// written to the client first.
    pub fn teardown(&mut self) -> (r: (Option<String>, Vec<String>))
        ensures
            final(self)@ == (ManagerView { pending: None, ..old(self)@ }),
            seqs::opt_view(r.0) == (match old(self)@.pending {
                Some(p) => Some(p + "detach-client\n"@),
                None => None,
            }),
            seqs::views(r.1@) == seq!["kill-session"@, "-t"@, "cockpit-main"@],
    {
        let mut client: Option<ControlClient> = None;
        core::mem::swap(&mut client, &mut self.client);
        let farewell = match client {
            Some(mut c) => {
                c.shutdown();
                Some(c.take())
            },
            None => None,
        };
        let args = ["kill-session", "-t", tmux::SESSION];
        assert(tmux::slices(args@) =~= seq!["kill-session"@, "-t"@, "cockpit-main"@]);
        (farewell, tmux::owned(&args))
    }
}

// ── What holds of the manager ───────────────────────────────────────────────────────────

/// The flags reach the agent and nothing else: they are added behind the line that starts it
/// without flags, and outside quotes they add only spaces.
pub proof fn flags_stay_quoted(
    agent: Seq<char>,
    pane: Seq<char>,
    cwd: Seq<char>,
    model: Option<Seq<char>>,
    flags: Option<Seq<char>>,
)
    ensures
        ({
            let plain = launch_line(agent, pane, cwd, model, None);
            let line = launch_line(agent, pane, cwd, model, flags);
            let added = line.skip(plain.len() as int);
            &&& seqs::starts_with(line, plain)
            &&& forall|i: int|
                0 <= i < tmux::bare(added, false).len() ==> #[trigger] tmux::bare(added, false)[i]
                    == ' '
        }),
{
    let plain = launch_line(agent, pane, cwd, model, None);
    let line = launch_line(agent, pane, cwd, model, flags);
    let added = line.skip(plain.len() as int);
    let words = flag_words(flags);
    assert(line.take(plain.len() as int) =~= plain);
    if words.len() > 0 {
        let quoted = tmux::quoted_words(words);
        tmux::quoted_words_stay_quoted(words);
        reveal_strlit(" ");
        assert(added =~= " "@ + quoted);
        assert(added.drop_first() =~= quoted);
        assert(tmux::bare(added, false) =~= seq![' '] + tmux::bare(quoted, false));
    } else {
        assert(added =~= Seq::empty());
    }
}

/// An agent's name is no flag, so that it can only be the value of the flag before it.
pub proof fn agent_names_are_no_flags(name: Seq<char>)
    requires
        is_agent_name(name),
    ensures
        !seqs::starts_with(name, "-"@),
{
    reveal_strlit("-");
    if seqs::starts_with(name, "-"@) {
        assert(name.take(1)[0] == "-"@[0]);
    }
}

/// Only panes surface as panes: every id in a list of panes is `%` and digits, whatever
/// tmux printed.
pub proof fn listed_panes_are_panes(lines: Seq<Seq<char>>, statuses: Map<Seq<char>, Status>)
    ensures
        forall|i: int|
            0 <= i < panes_of(lines, statuses).len() ==> is_tagged(
                #[trigger] panes_of(lines, statuses)[i].pane_id,
                '%',
            ),
    decreases lines.len(),
{
    if lines.len() > 0 {
        listed_panes_are_panes(lines.drop_last(), statuses);
        let head = panes_of(lines.drop_last(), statuses);
        assert forall|i: int| 0 <= i < panes_of(lines, statuses).len() implies is_tagged(
            #[trigger] panes_of(lines, statuses)[i].pane_id,
            '%',
        ) by {
            if i < head.len() {
                assert(panes_of(lines, statuses)[i] == head[i]);
            }
        }
    }
}

/// The panes of a tab are panes too.
pub proof fn panes_of_tabs_are_panes(out: TmuxOut, win: Seq<char>)
    ensures
        forall|i: int|
            0 <= i < panes_with(pairs_in(out), win).len() ==> is_tagged(
                #[trigger] panes_with(pairs_in(out), win)[i],
                '%',
            ),
{
    if out.status == 0 {
        pairs_are_ids(seqs::lines(out.stdout@));
    }
    panes_with_are_panes(pairs_in(out), win);
}

proof fn pairs_are_ids(lines: Seq<Seq<char>>)
    ensures
        forall|i: int|
            0 <= i < pairs_of(lines).len() ==> is_tagged((#[trigger] pairs_of(lines)[i]).1, '%'),
    decreases lines.len(),
{
    if lines.len() > 0 {
        let head = pairs_of(lines.drop_last());
        pairs_are_ids(lines.drop_last());
        assert forall|i: int| 0 <= i < pairs_of(lines).len() implies is_tagged(
            (#[trigger] pairs_of(lines)[i]).1,
            '%',
        ) by {
            if i < head.len() {
                assert(pairs_of(lines)[i] == head[i]);
            }
        }
    }
}

proof fn panes_with_are_panes(pairs: Seq<(Seq<char>, Seq<char>)>, win: Seq<char>)
    requires
        forall|i: int| 0 <= i < pairs.len() ==> is_tagged((#[trigger] pairs[i]).1, '%'),
    ensures
        forall|i: int|
            0 <= i < panes_with(pairs, win).len() ==> is_tagged(
                #[trigger] panes_with(pairs, win)[i],
                '%',
            ),
    decreases pairs.len(),
{
    if pairs.len() > 0 {
        let rest = pairs.drop_last();
        assert forall|i: int| 0 <= i < rest.len() implies is_tagged((#[trigger] rest[i]).1, '%') by {
            assert(rest[i] == pairs[i]);
        }
        panes_with_are_panes(rest, win);
        let head = panes_with(rest, win);
        assert(pairs.last() == pairs[pairs.len() - 1]);
        assert forall|i: int| 0 <= i < panes_with(pairs, win).len() implies is_tagged(
            #[trigger] panes_with(pairs, win)[i],
            '%',
        ) by {
            if i < head.len() {
                assert(panes_with(pairs, win)[i] == head[i]);
            }
        }
    }
}

/// Closing a tab twice is closing it once: where tmux says that the window or pane is not
/// there, the tab counts as closed.
pub proof fn closing_what_is_gone_succeeds(win: Seq<char>, force: bool, outs: Seq<TmuxResult>)
    requires
        is_tagged(win, '@'),
        outs.len() >= 2,
        outs[0] matches Ok(o) && (force || live_in(o).len() == 0),
        outs[1] matches Ok(k) && says_missing(k.stderr@),
    ensures
        close_tab_step(win, force, outs) == StepView::Done(
            Ok::<ClosedView, Seq<char>>(ClosedView { ok: true, live_panes: Seq::empty() }),
        ),
{
}

/// Without `force`, a tab in which panes still run is never killed.
pub proof fn live_tabs_are_not_killed(win: Seq<char>, outs: Seq<TmuxResult>)
    requires
        outs.len() > 0,
        outs[0] matches Ok(o) && live_in(o).len() > 0,
    ensures
        close_tab_step(win, false, outs) is Done,
        close_tab_step(win, false, outs) matches StepView::Done(Ok(v)) ==> !v.ok,
{
}

/// Every operation ends: after at most three outcomes it asks for no more.
pub proof fn operations_end(
    statuses: Map<Seq<char>, Status>,
    name: Option<Seq<char>>,
    a: Seq<char>,
    b: Seq<char>,
    force: bool,
    outs: Seq<TmuxResult>,
)
    requires
        outs.len() >= 3,
    ensures
        create_tab_step(name, a, outs) is Done,
        adopt_step(name, outs) is Done,
        healing_step(outs) is Done,
        close_tab_step(a, force, outs) is Done,
        split_step(a, b, outs) is Done,
        close_pane_step(a, b, outs) is Done,
        break_step(a, outs) is Done,
        list_state_step(statuses, outs) is Done,
        warm_start_step(a, outs) is Done,
        warm_start_screen_step(a, outs) is Done,
{
}

proof fn polled_sees_all(
    statuses: Map<Seq<char>, Status>,
    rows: Seq<PollView>,
    captures: Seq<Seq<char>>,
)
    requires
        forall|i: int, j: int|
            0 <= i < rows.len() && 0 <= j < rows.len() && (#[trigger] rows[i]).pane_id == (
            #[trigger] rows[j]).pane_id ==> row_status(rows[i], captures[i]) == row_status(
                rows[j],
                captures[j],
            ),
    ensures
        forall|i: int|
            0 <= i < rows.len() ==> polled(statuses, rows, captures).0.contains_key(
                (#[trigger] rows[i]).pane_id,
            ) && polled(statuses, rows, captures).0[rows[i].pane_id] == row_status(
                rows[i],
                captures[i],
            ),
    decreases rows.len(),
{
    if rows.len() > 0 {
        let head = rows.drop_last();
        assert forall|i: int, j: int|
            0 <= i < head.len() && 0 <= j < head.len() && (#[trigger] head[i]).pane_id == (
            #[trigger] head[j]).pane_id implies row_status(head[i], captures[i]) == row_status(
            head[j],
            captures[j],
        ) by {
            assert(head[i] == rows[i] && head[j] == rows[j]);
        }
        polled_sees_all(statuses, head, captures);
        let known = polled(statuses, rows, captures).0;
        let last = rows.len() - 1;
        assert(rows.last() == rows[last]);
        assert forall|i: int| 0 <= i < rows.len() implies known.contains_key(
            (#[trigger] rows[i]).pane_id,
        ) && known[rows[i].pane_id] == row_status(rows[i], captures[i]) by {
            if i < last {
                assert(head[i] == rows[i]);
            }
        }
    }
}

proof fn nothing_new(statuses: Map<Seq<char>, Status>, rows: Seq<PollView>, captures: Seq<Seq<char>>)
    requires
        forall|i: int|
            0 <= i < rows.len() ==> statuses.contains_key((#[trigger] rows[i]).pane_id)
                && statuses[rows[i].pane_id] == row_status(rows[i], captures[i]),
    ensures
        polled(statuses, rows, captures) == (statuses, Seq::<PayloadView>::empty()),
    decreases rows.len(),
{
    if rows.len() > 0 {
        let head = rows.drop_last();
        assert forall|i: int| 0 <= i < head.len() implies statuses.contains_key(
            (#[trigger] head[i]).pane_id,
        ) && statuses[head[i].pane_id] == row_status(head[i], captures[i]) by {
            assert(head[i] == rows[i]);
        }
        nothing_new(statuses, head, captures);
        assert(rows.last() == rows[rows.len() - 1]);
    }
}

/// A status is sent only when it changes: a second poll that finds the same sends nothing.
/// The rows of one pane must agree on its status.
pub proof fn unchanged_status_is_not_sent(
    statuses: Map<Seq<char>, Status>,
    rows: Seq<PollView>,
    captures: Seq<Seq<char>>,
)
    requires
        forall|i: int, j: int|
            0 <= i < rows.len() && 0 <= j < rows.len() && (#[trigger] rows[i]).pane_id == (
            #[trigger] rows[j]).pane_id ==> row_status(rows[i], captures[i]) == row_status(
                rows[j],
                captures[j],
            ),
    ensures
        ({
            let after = polled(statuses, rows, captures).0;
            polled(after, rows, captures) == (after, Seq::<PayloadView>::empty())
        }),
{
    polled_sees_all(statuses, rows, captures);
    nothing_new(polled(statuses, rows, captures).0, rows, captures);
}

/// A pane that was forgotten is sent again when it is next seen.
pub proof fn forgotten_pane_is_sent(statuses: Map<Seq<char>, Status>, row: PollView, capture: Seq<char>)
    ensures
        polled(statuses.remove(row.pane_id), seq![row], seq![capture]).1 == seq![
            payload_of(row, row_status(row, capture)),
        ],
{
    reveal_with_fuel(polled, 2);
    let rows = seq![row];
    assert(rows.drop_last() =~= Seq::empty());
    assert(rows.last() == row);
    assert(seq![capture][0] == capture);
    assert(Seq::<PayloadView>::empty().push(payload_of(row, row_status(row, capture)))
        =~= seq![payload_of(row, row_status(row, capture))]);
}

/// What a warm start makes of a capture of up to [`replay::CAPTURE_MAX`] bytes can be encoded,
/// whatever tmux says of the screen and the cursor.
pub proof fn captured_replays_fit(capture: Seq<char>, numbers: TmuxResult)
    requires
        seqs::byte_len(capture) <= replay::CAPTURE_MAX,
    ensures
        replay_fits(warm_replay(capture, numbers)),
        replay_fits(screen_replay(capture, numbers)),
{
    match numbers_in(numbers, 3) {
        Some(v) => replay::captures_fit(capture, v[0] as nat, Some((v[1], v[2]))),
        None => replay::captures_fit(capture, 0, None),
    }
    match numbers_in(numbers, 2) {
        Some(v) => replay::captures_fit(capture, 0, Some((v[0], v[1]))),
        None => replay::captures_fit(capture, 0, None),
    }
}

// ── What tmux is asked ──────────────────────────────────────────────────────────────────

/// `args` has the option `flag` with the value `value`.
pub open spec fn has_option(args: Seq<Seq<char>>, flag: Seq<char>, value: Seq<char>) -> bool {
    exists|i: int| 0 <= i && i + 1 < args.len() && #[trigger] args[i] == flag && args[i + 1] == value
}

/// A split goes the way that was asked for: `h` and `v` run `split-window` on the pane with
/// the flag of that letter, so that the two never run the same command; any other direction
/// runs nothing and is an error.
pub proof fn splits_go_the_way_asked(pane: Seq<char>, dir: Seq<char>)
    ensures
        dir == "h"@ || dir == "v"@ ==> (split_step(pane, dir, Seq::empty()) matches StepView::Run(
            args,
        ) && args.len() > 1 && args[0] == "split-window"@ && args[1] == "-"@ + dir && has_option(
            args,
            "-t"@,
            pane,
        ) && has_option(args, "-c"@, "#{pane_current_path}"@) && has_option(
            args,
            "-F"@,
            "#{pane_id}"@,
        ) && args.contains("-P"@)),
        dir != "h"@ && dir != "v"@ ==> forall|outs: Seq<TmuxResult>|
            (#[trigger] split_step(pane, dir, outs)) matches StepView::Done(Err(_)),
        split_step(pane, "h"@, Seq::empty()) != split_step(pane, "v"@, Seq::empty()),
{
    reveal_strlit("h");
    reveal_strlit("v");
    reveal_strlit("-h");
    reveal_strlit("-v");
    reveal_strlit("-");
    assert("-h"@ =~= "-"@ + "h"@);
    assert("-v"@ =~= "-"@ + "v"@);
    assert("h"@[0] != "v"@[0]);
    assert("-h"@[1] != "-v"@[1]);
    if dir == "h"@ || dir == "v"@ {
        let args = split_args("-"@ + dir, pane);
        assert(split_step(pane, dir, Seq::empty()) == StepView::<SplitView>::Run(args));
        assert(args[2] == "-t"@ && args[3] == pane);
        assert(args[4] == "-c"@ && args[5] == "#{pane_current_path}"@);
        assert(args[6] == "-P"@);
        assert(args[7] == "-F"@ && args[8] == "#{pane_id}"@);
    }
    let h = split_args("-h"@, pane);
    let v = split_args("-v"@, pane);
    assert(h[1] != v[1]);
}

/// A pane that was split off is the one that tmux names, and its layout the one that tmux then
/// prints for it; the layout is left out where it could not be had. A split that failed is an
/// error.
pub proof fn split_gives_the_new_pane(
    pane: Seq<char>,
    dir: Seq<char>,
    made: TmuxOut,
    shown: TmuxResult,
)
    requires
        dir == "h"@ || dir == "v"@,
    ensures
        made.status != 0 ==> (split_step(pane, dir, seq![Ok(made)]) matches StepView::Done(Err(_))),
        made.status == 0 ==> (split_step(pane, dir, seq![Ok(made)]) matches StepView::Run(args)
            && args[0] == "display-message"@ && has_option(args, "-t"@, seqs::trim(made.stdout@))
            && args.last() == "#{window_layout}"@),
        made.status == 0 ==> (split_step(pane, dir, seq![Ok(made), shown]) matches StepView::Done(
            Ok(v),
        ) && v.pane_id == seqs::trim(made.stdout@) && (shown matches Ok(l) && l.status == 0
            ==> v.layout == seqs::trim(shown->Ok_0.stdout@)) && (!(shown matches Ok(l) && l.status
            == 0) ==> v.layout.len() == 0)),
{
    reveal_strlit("");
    let outs = seq![Ok::<TmuxOut, String>(made), shown];
    assert(outs[0] == Ok::<TmuxOut, String>(made) && outs[1] == shown);
    let one = seq![Ok::<TmuxOut, String>(made)];
    assert(one[0] == Ok::<TmuxOut, String>(made));
    let args = layout_args(seqs::trim(made.stdout@));
    assert(args[2] == "-t"@ && args[3] == seqs::trim(made.stdout@));
}

/// Closing a pane ends it with `kill` and moves it, unseen, to a window of its own with
/// `detach`; any other mode runs nothing and is an error. It succeeds exactly if tmux does.
pub proof fn panes_are_closed_as_asked(pane: Seq<char>, mode: Seq<char>, out: TmuxResult)
    ensures
        mode == "kill"@ ==> close_pane_step(pane, mode, Seq::empty()) == StepView::<()>::Run(
            seq!["kill-pane"@, "-t"@, pane],
        ),
        mode == "detach"@ ==> (close_pane_step(pane, mode, Seq::empty()) matches StepView::Run(args)
            && args[0] == "break-pane"@ && args.contains("-d"@) && has_option(args, "-s"@, pane)),
        mode != "kill"@ && mode != "detach"@ ==> (close_pane_step(
            pane,
            mode,
            Seq::empty(),
        ) matches StepView::Done(Err(_))),
        mode == "kill"@ || mode == "detach"@ ==> (close_pane_step(pane, mode, seq![out])
            == StepView::<()>::Done(Ok(())) <==> (out matches Ok(o) && o.status == 0)),
        mode == "kill"@ || mode == "detach"@ ==> close_pane_step(pane, mode, seq![out]) is Done,
{
    reveal_strlit("kill");
    reveal_strlit("detach");
    assert("kill"@.len() != "detach"@.len());
    let args = close_args(pane, "detach"@)->Some_0;
    assert(args[1] == "-d"@ && args[2] == "-s"@ && args[3] == pane);
    assert(seq![out][0] == out);
}

/// Breaking a pane out runs `break-pane` on it and gives the window that tmux names.
pub proof fn broken_out_pane_is_a_window(pane: Seq<char>, out: TmuxOut)
    ensures
        break_step(pane, Seq::empty()) matches StepView::Run(args) && args[0] == "break-pane"@
            && has_option(args, "-s"@, pane) && has_option(args, "-F"@, "#{window_id}"@)
            && args.contains("-P"@) && args.len() == 6,
        out.status == 0 ==> break_step(pane, seq![Ok(out)]) == StepView::Done(
            Ok::<Seq<char>, Seq<char>>(seqs::trim(out.stdout@)),
        ),
        out.status != 0 ==> (break_step(pane, seq![Ok(out)]) matches StepView::Done(Err(_))),
{
    let args = break_args(pane);
    assert(args[3] == "-P"@);
    assert(args[1] == "-s"@ && args[2] == pane);
    assert(args[4] == "-F"@ && args[5] == "#{window_id}"@);
    assert(seq![Ok::<TmuxOut, String>(out)][0] == Ok::<TmuxOut, String>(out));
}

/// A new tab is a new window of the session, which starts in the given directory and bears
/// the given name, where there is one.
pub proof fn new_tabs_start_where_asked(name: Option<Seq<char>>, cwd: Seq<char>)
    ensures
        create_tab_step(name, cwd, Seq::empty()) matches StepView::Run(args) && args[0]
            == "new-window"@ && has_option(args, "-t"@, "cockpit-main:"@) && has_option(
            args,
            "-c"@,
            cwd,
        ) && has_option(args, "-F"@, "#{window_id} #{window_index} #{pane_id}"@) && (name matches Some(
            n,
        ) ==> has_option(args, "-n"@, n)) && (name is None ==> args.len() == 8),
{
    let args = new_window_args(name, cwd);
    assert(args[0] == "new-window"@);
    assert(args[1] == "-t"@ && args[2] == "cockpit-main:"@);
    assert(args[3] == "-c"@ && args[4] == cwd);
    assert(args[6] == "-F"@ && args[7] == "#{window_id} #{window_index} #{pane_id}"@);
    if let Some(n) = name {
        assert(args[8] == "-n"@ && args[9] == n);
    }
}

proof fn three_words(a: Seq<char>, b: Seq<char>, c: Seq<char>)
    requires
        seqs::is_word(a),
        seqs::is_word(b),
        seqs::is_word(c),
    ensures
        seqs::words(seqs::trim(a + " "@ + b + " "@ + c + "\n"@)) == seq![a, b, c],
{
    reveal_strlit(" ");
    reveal_strlit("\n");
    let ws = seq![a, b, c];
    let line = a + " "@ + b + " "@ + c;
    assert(" "@ =~= seq![' ']);
    assert(ws.drop_last() =~= seq![a, b]);
    assert(seq![a, b].drop_last() =~= seq![a]);
    assert(seqs::join(seq![a], seq![' ']) == a);
    assert(seqs::join(seq![a, b], seq![' ']) =~= a + seq![' '] + b);
    assert(seqs::join(ws, seq![' ']) =~= line);
    seqs::words_undo_join(ws);
    assert(!seqs::is_white(a[0]));
    assert(!seqs::is_white(c[c.len() - 1]));
    assert(line[0] == a[0]);
    assert(line.last() == c.last());
    seqs::trim_takes_white_ends(Seq::empty(), line, "\n"@);
    assert(Seq::<char>::empty() + line + "\n"@ =~= a + " "@ + b + " "@ + c + "\n"@);
}

/// What tmux prints of a window that it has made, its id, its index and its pane, is what the
/// new tab has.
pub proof fn new_tabs_are_read_back(
    name: Option<Seq<char>>,
    cwd: Seq<char>,
    window: Seq<char>,
    index: nat,
    pane: Seq<char>,
    out: TmuxOut,
)
    requires
        seqs::is_word(window),
        seqs::is_word(pane),
        index <= u32::MAX,
        out.status == 0,
        out.stdout@ == window + " "@ + seqs::decimal(index) + " "@ + pane + "\n"@,
    ensures
        create_tab_step(name, cwd, seq![Ok(out)]) == StepView::Done(
            Ok::<CreatedView, Seq<char>>(
                CreatedView {
                    tab_id: "tab-"@ + seqs::decimal(index),
                    tmux_window_id: window,
                    pane_id: pane,
                },
            ),
        ),
{
    seqs::decimal_reads_back(index);
    let n = seqs::decimal(index);
    assert(seqs::is_word(n)) by {
        assert forall|i: int| 0 <= i < n.len() implies !seqs::is_white(#[trigger] n[i]) by {
            assert(seqs::is_digit(n[i]));
        }
    }
    three_words(window, n, pane);
    assert(n[0] != '+') by {
        assert(seqs::is_digit(n[0]));
    }
    assert(seqs::parse_uint(n, u32::MAX as nat) == Some(index));
    assert(seq![Ok::<TmuxOut, String>(out)][0] == Ok::<TmuxOut, String>(out));
}

/// Closing a tab first asks which of its panes still run, and then kills that window and no
/// other: at once with `force`, and otherwise only where none runs; where some do, they are
/// named and the tab is left.
pub proof fn tabs_are_closed_as_asked(win: Seq<char>, force: bool, list: TmuxOut)
    requires
        is_tagged(win, '@'),
    ensures
        close_tab_step(win, force, Seq::empty()) matches StepView::Run(args) && args[0]
            == "list-panes"@ && has_option(args, "-t"@, win) && args.last()
            == "#{pane_id} #{pane_dead}"@,
        force || list.status != 0 ==> close_tab_step(win, force, seq![Ok(list)])
            == StepView::<ClosedView>::Run(seq!["kill-window"@, "-t"@, win]),
        !force && list.status == 0 && live_of(seqs::lines(list.stdout@)).len() == 0
            ==> close_tab_step(win, force, seq![Ok(list)]) == StepView::<ClosedView>::Run(
            seq!["kill-window"@, "-t"@, win],
        ),
        !force && list.status == 0 && live_of(seqs::lines(list.stdout@)).len() > 0
            ==> close_tab_step(win, force, seq![Ok(list)]) == StepView::Done(
            Ok::<ClosedView, Seq<char>>(
                ClosedView { ok: false, live_panes: live_of(seqs::lines(list.stdout@)) },
            ),
        ),
{
    let args = live_args(win);
    assert(args[1] == "-t"@ && args[2] == win);
    assert(seq![Ok::<TmuxOut, String>(list)][0] == Ok::<TmuxOut, String>(list));
}

/// A pane is listed as still running exactly if tmux lists it and does not say that it is
/// dead.
pub proof fn running_panes_are_listed(panes: Seq<(Seq<char>, bool)>)
    requires
        forall|i: int| 0 <= i < panes.len() ==> seqs::is_word((#[trigger] panes[i]).0),
    ensures
        live_of(
            panes.map_values(
                |p: (Seq<char>, bool)|
                    p.0 + " "@ + (if p.1 {
                        "1"@
                    } else {
                        "0"@
                    }),
            ),
        ) == panes.filter(|p: (Seq<char>, bool)| !p.1).map_values(|p: (Seq<char>, bool)| p.0),
    decreases panes.len(),
{
    let line = |p: (Seq<char>, bool)|
        p.0 + " "@ + (if p.1 {
            "1"@
        } else {
            "0"@
        });
    let runs = |p: (Seq<char>, bool)| !p.1;
    let id = |p: (Seq<char>, bool)| p.0;
    let lines = panes.map_values(line);
    reveal(Seq::filter);
    if panes.len() == 0 {
        assert(live_of(lines) =~= panes.filter(runs).map_values(id));
    } else {
        let head = panes.drop_last();
        let p = panes.last();
        assert forall|i: int| 0 <= i < head.len() implies seqs::is_word((#[trigger] head[i]).0) by {
            assert(head[i] == panes[i]);
        }
        running_panes_are_listed(head);
        assert(lines.drop_last() =~= head.map_values(line));
        assert(panes[panes.len() - 1] == p);
        reveal_strlit("0");
        reveal_strlit("1");
        reveal_strlit(" ");
        assert("0"@[0] != "1"@[0]);
        let mark = if p.1 {
            "1"@
        } else {
            "0"@
        };
        let ws = seq![p.0, mark];
        assert(seqs::is_word(mark));
        assert(seqs::join(ws, seq![' ']) =~= lines.last()) by {
            assert(" "@ =~= seq![' ']);
            reveal_with_fuel(seqs::join, 3);
            assert(ws.drop_last() =~= seq![p.0]);
        }
        seqs::words_undo_join(ws);
        assert(panes.filter(runs).map_values(id) =~= if p.1 {
            head.filter(runs).map_values(id)
        } else {
            head.filter(runs).map_values(id).push(p.0)
        });
    }
}

/// A pane that tmux lists, with its window's index, its directory, its title and whether it
/// is dead, is listed with just these; its status is the last one seen, before that `DEAD`
/// where it is dead and `UNKNOWN` otherwise.
pub proof fn listed_panes_are_read_back(
    pane: Seq<char>,
    index: nat,
    cwd: Seq<char>,
    title: Seq<char>,
    dead: bool,
    statuses: Map<Seq<char>, Status>,
)
    requires
        is_tagged(pane, '%'),
        index <= u32::MAX,
        !cwd.contains('\t'),
        !title.contains('\t'),
    ensures
        pane_of(
            seqs::join(
                seq![
                    pane,
                    seqs::decimal(index),
                    cwd,
                    title,
                    if dead {
                        "1"@
                    } else {
                        "0"@
                    },
                ],
                seq!['\t'],
            ),
            statuses,
        ) == Some(
            PaneView {
                pane_id: pane,
                tab_id: "tab-"@ + seqs::decimal(index),
                cwd,
                title,
                dead,
                status: status::status_name(
                    if statuses.contains_key(pane) {
                        statuses[pane]
                    } else if dead {
                        Status::Dead
                    } else {
                        Status::Unknown
                    },
                ),
                ambiguous: (if statuses.contains_key(pane) {
                    statuses[pane] == Status::Unknown
                } else {
                    !dead
                }),
            },
        ),
{
    reveal_strlit("0");
    reveal_strlit("1");
    assert("0"@[0] != "1"@[0]);
    let mark = if dead {
        "1"@
    } else {
        "0"@
    };
    let parts = seq![pane, seqs::decimal(index), cwd, title, mark];
    tagged_has_no_tab(pane, '%');
    decimal_is_read(index);
    assert(!mark.contains('\t'));
    assert forall|i: int| 0 <= i < parts.len() implies !(#[trigger] parts[i]).contains('\t') by {
        assert(i == 0 || i == 1 || i == 2 || i == 3 || i == 4);
    }
    seqs::split_undoes_join(parts, '\t');
}

proof fn tagged_has_no_tab(s: Seq<char>, tag: char)
    requires
        is_tagged(s, tag),
        tag != '\t',
    ensures
        !s.contains('\t'),
{
    if s.contains('\t') {
        let i = choose|i: int| 0 <= i < s.len() && s[i] == '\t';
        assert(i == 0 || seqs::is_digit(s[i]));
    }
}

proof fn decimal_is_read(n: nat)
    ensures
        !seqs::decimal(n).contains('\t'),
        n <= u32::MAX ==> seqs::parse_uint(seqs::decimal(n), u32::MAX as nat) == Some(n),
        n <= u64::MAX ==> seqs::parse_uint(seqs::decimal(n), u64::MAX as nat) == Some(n),
{
    let s = seqs::decimal(n);
    seqs::decimal_reads_back(n);
    assert(seqs::is_digit(s[0]));
    if s.contains('\t') {
        let i = choose|i: int| 0 <= i < s.len() && s[i] == '\t';
        assert(seqs::is_digit(s[i]));
    }
}

/// A window that tmux lists, with its index, its name and its layout, is the tab with just
/// these and with the panes that tmux lists for that window.
pub proof fn listed_windows_are_read_back(
    window: Seq<char>,
    index: nat,
    name: Seq<char>,
    shape: Seq<char>,
    pairs: Seq<(Seq<char>, Seq<char>)>,
)
    requires
        is_tagged(window, '@'),
        index <= u32::MAX,
        !name.contains('\t'),
        !shape.contains('\t'),
    ensures
        tab_of(seqs::join(seq![window, seqs::decimal(index), name, shape], seq!['\t']), pairs) == (
        TabView {
            tab_id: "tab-"@ + seqs::decimal(index),
            tmux_window_id: window,
            index,
            name,
            layout: shape,
            geometry: layout::layout_of(shape),
            pane_ids: panes_with(pairs, window),
        }),
{
    let parts = seq![window, seqs::decimal(index), name, shape];
    tagged_has_no_tab(window, '@');
    decimal_is_read(index);
    assert forall|i: int| 0 <= i < parts.len() implies !(#[trigger] parts[i]).contains('\t') by {
        assert(i == 0 || i == 1 || i == 2 || i == 3);
    }
    seqs::split_undoes_join(parts, '\t');
}

/// The panes of a window are those that are paired with it, in their order.
pub proof fn panes_of_a_window_are_its_own(pairs: Seq<(Seq<char>, Seq<char>)>, win: Seq<char>)
    ensures
        panes_with(pairs, win) == pairs.filter(
            |p: (Seq<char>, Seq<char>)| p.0 == win,
        ).map_values(|p: (Seq<char>, Seq<char>)| p.1),
    decreases pairs.len(),
{
    let own = |p: (Seq<char>, Seq<char>)| p.0 == win;
    let pane = |p: (Seq<char>, Seq<char>)| p.1;
    reveal(Seq::filter);
    if pairs.len() == 0 {
        assert(panes_with(pairs, win) =~= pairs.filter(own).map_values(pane));
    } else {
        panes_of_a_window_are_its_own(pairs.drop_last(), win);
        assert(panes_with(pairs, win) =~= pairs.filter(own).map_values(pane));
    }
}

/// A pane that a poll lists, with whether it is dead and when it was last active, in seconds,
/// is polled as that; what was active in the future was active just now.
pub proof fn polled_panes_are_read_back(pane: Seq<char>, dead: bool, epoch: nat, now: u64)
    requires
        is_tagged(pane, '%'),
        0 < epoch <= 100_000_000_000,
    ensures
        poll_row(
            seqs::join(
                seq![
                    pane,
                    if dead {
                        "1"@
                    } else {
                        "0"@
                    },
                    seqs::decimal(epoch),
                ],
                seq!['\t'],
            ),
            now,
        ) == Some(
            PollView {
                pane_id: pane,
                dead,
                age: Some(
                    if epoch <= now {
                        (now - epoch) as u64
                    } else {
                        0
                    },
                ),
            },
        ),
{
    reveal_strlit("0");
    reveal_strlit("1");
    assert("0"@[0] != "1"@[0]);
    let mark = if dead {
        "1"@
    } else {
        "0"@
    };
    let n = seqs::decimal(epoch);
    let parts = seq![pane, mark, n];
    tagged_has_no_tab(pane, '%');
    decimal_is_read(epoch);
    seqs::decimal_reads_back(epoch);
    assert(!mark.contains('\t'));
    assert forall|i: int| 0 <= i < parts.len() implies !(#[trigger] parts[i]).contains('\t') by {
        assert(i == 0 || i == 1 || i == 2);
    }
    seqs::split_undoes_join(parts, '\t');
    assert(seqs::is_digit(n[0]) && seqs::is_digit(n[n.len() - 1]));
    seqs::trim_takes_white_ends(Seq::empty(), n, Seq::empty());
    assert(Seq::<char>::empty() + n + Seq::<char>::empty() =~= n);
}

/// An activity in milliseconds counts as the seconds that it makes; 0 says nothing.
pub proof fn activity_may_be_in_milliseconds(secs: nat)
    requires
        100_000_000 < secs <= 100_000_000_000,
    ensures
        activity(seqs::decimal(secs)) == Some(secs),
        activity(seqs::decimal(secs * 1000)) == Some(secs),
        activity(seqs::decimal(0)) is None,
{
    decimal_is_read(secs);
    decimal_is_read(secs * 1000);
    decimal_is_read(0);
}

/// A poll sends the status of each pane that it sees for the first time, or with another
/// status than before, and remembers it.
pub proof fn changed_status_is_sent(
    statuses: Map<Seq<char>, Status>,
    row: PollView,
    capture: Seq<char>,
)
    ensures
        ({
            let now = status::status_of(row.dead, capture, row.age);
            let (after, sent) = polled(statuses, seq![row], seq![capture]);
            &&& after == statuses.insert(row.pane_id, now)
            &&& statuses.contains_key(row.pane_id) && statuses[row.pane_id] == now ==> sent.len()
                == 0
            &&& !statuses.contains_key(row.pane_id) || statuses[row.pane_id] != now ==> sent.len()
                == 1 && sent[0].pane_id == row.pane_id && sent[0].status == status::status_name(now)
                && (sent[0].ambiguous <==> now == Status::Unknown) && (row.age is None
                ==> sent[0].recency_ms == 0) && (row.age matches Some(s) && s <= 1_000_000_000
                ==> sent[0].recency_ms == row.age->0 * 1000)
        }),
{
    reveal_with_fuel(polled, 2);
    let rows = seq![row];
    assert(rows.drop_last() =~= Seq::empty());
    assert(rows.last() == row);
    let now = status::status_of(row.dead, capture, row.age);
    if statuses.contains_key(row.pane_id) && statuses[row.pane_id] == now {
        assert(statuses.insert(row.pane_id, now) =~= statuses);
    }
}

/// The agent is started behind `cd` to the quoted directory, with the pane's id in its
/// environment; the quoted model follows `--model`, and each word of the flags, quoted, comes
/// last.
pub proof fn launch_lines_say_what_was_asked(
    agent: Seq<char>,
    pane: Seq<char>,
    cwd: Seq<char>,
    model: Option<Seq<char>>,
    flags: Option<Seq<char>>,
)
    ensures
        seqs::starts_with(
            launch_line(agent, pane, cwd, model, flags),
            "cd "@ + tmux::quoted(cwd) + " && COCKPIT_PANE_ID="@ + pane + " "@ + agent,
        ),
        model is None && (flags is None || seqs::words(flags->0).len() == 0) ==> launch_line(
            agent,
            pane,
            cwd,
            model,
            flags,
        ) == "cd "@ + tmux::quoted(cwd) + " && COCKPIT_PANE_ID="@ + pane + " "@ + agent,
        model is Some && (flags is None || seqs::words(flags->0).len() == 0) ==> launch_line(
            agent,
            pane,
            cwd,
            model,
            flags,
        ) == "cd "@ + tmux::quoted(cwd) + " && COCKPIT_PANE_ID="@ + pane + " "@ + agent
            + " --model "@ + tmux::quoted(model->0),
        flags is Some && seqs::words(flags->0).len() > 0 ==> launch_line(
            agent,
            pane,
            cwd,
            model,
            flags,
        ) == launch_line(agent, pane, cwd, model, None) + " "@ + seqs::join(
            seqs::words(flags->0).map_values(|w: Seq<char>| tmux::quoted(w)),
            " "@,
        ),
{
    let base = "cd "@ + tmux::quoted(cwd) + " && COCKPIT_PANE_ID="@ + pane + " "@ + agent;
    let none = Seq::<char>::empty();
    assert(base == agent_line(agent, pane, cwd));
    assert(base + none + none =~= base);
    let m = match model {
        Some(m) => " --model "@ + tmux::quoted(m),
        None => Seq::empty(),
    };
    assert(base + m + none =~= base + m);
    let line = launch_line(agent, pane, cwd, model, flags);
    assert(line.take(base.len() as int) =~= base);
    if let Some(x) = model {
        assert(base + (" --model "@ + tmux::quoted(x)) =~= base + " --model "@ + tmux::quoted(x));
    }
    if flags is Some && seqs::words(flags->0).len() > 0 {
        let q = tmux::quoted_words(seqs::words(flags->0));
        assert(base + m + (" "@ + q) =~= base + m + " "@ + q);
    }
}

/// A grid has between 20 and 2000 columns and between 5 and 500 rows; a layout that tmux does
/// not know is `tiled`, and `none` resizes without laying out.
pub proof fn grids_stay_within_bounds(cols: u16, rows: u16, shape: Seq<char>)
    ensures
        20 <= clamped(cols, 20, 2000) <= 2000,
        5 <= clamped(rows, 5, 500) <= 500,
        20 <= cols <= 2000 ==> clamped(cols, 20, 2000) == cols,
        5 <= rows <= 500 ==> clamped(rows, 5, 500) == rows,
        seqs::starts_with(
            set_grid_text(cols, rows, shape),
            "refresh-client -C "@ + seqs::decimal(clamped(cols, 20, 2000) as nat) + ","@
                + seqs::decimal(clamped(rows, 5, 500) as nat) + "\n"@,
        ),
        shape == "none"@ ==> set_grid_text(cols, rows, shape) == "refresh-client -C "@
            + seqs::decimal(clamped(cols, 20, 2000) as nat) + ","@ + seqs::decimal(
            clamped(rows, 5, 500) as nat,
        ) + "\n"@,
        shape == "tiled"@ || shape == "even-horizontal"@ || shape == "even-vertical"@ || shape
            == "main-horizontal"@ || shape == "main-vertical"@ ==> seqs::ends_with(
            set_grid_text(cols, rows, shape),
            "select-layout "@ + shape + "\n"@,
        ),
        shape != "none"@ && shape != "even-horizontal"@ && shape != "even-vertical"@ && shape
            != "main-horizontal"@ && shape != "main-vertical"@ ==> seqs::ends_with(
            set_grid_text(cols, rows, shape),
            "select-layout "@ + "tiled"@ + "\n"@,
        ),
{
    reveal_strlit("none");
    reveal_strlit("tiled");
    reveal_strlit("even-horizontal");
    reveal_strlit("even-vertical");
    reveal_strlit("main-horizontal");
    reveal_strlit("main-vertical");
    reveal_strlit("\n");
    reveal_strlit("\nselect-layout ");
    reveal_strlit("select-layout ");
    assert("none"@.len() == 4);
    let c = clamped(cols, 20, 2000);
    let r = clamped(rows, 5, 500);
    let size = "refresh-client -C "@ + seqs::decimal(c as nat) + ","@ + seqs::decimal(r as nat);
    let name = layout_name(shape);
    assert(name != "none"@ <==> shape != "none"@);
    let whole = set_grid_text(cols, rows, shape);
    if shape == "none"@ {
        assert(whole == size + "\n"@);
    } else {
        assert(whole == size + "\nselect-layout "@ + name + "\n"@);
        assert("\nselect-layout "@ =~= "\n"@ + "select-layout "@);
        assert(whole =~= (size + "\n"@) + ("select-layout "@ + name + "\n"@));
        let end = "select-layout "@ + name + "\n"@;
        assert(whole.skip(whole.len() - end.len()) =~= end);
    }
    assert(whole.take((size + "\n"@).len() as int) =~= size + "\n"@);
}

/// The session is looked for first; where it is there and lists a pane, the tab is a new
/// window, and in every other case the session is made anew and its window adopted.
pub proof fn lost_sessions_are_healed(found: TmuxResult, panes: TmuxResult)
    ensures
        healing_step(Seq::empty()) matches StepView::Run(args) && args[0] == "has-session"@
            && has_option(args, "-t"@, "cockpit-main"@),
        !(found matches Ok(o) && o.status == 0) ==> healing_step(seq![found]) == StepView::Done(
            Ok::<TabPlan, Seq<char>>(TabPlan::Adopt),
        ),
        (found matches Ok(o) && o.status == 0) ==> (healing_step(seq![found]) matches StepView::Run(
            args,
        ) && args[0] == "list-panes"@ && has_option(args, "-t"@, "cockpit-main"@)),
        (found matches Ok(o) && o.status == 0) ==> (healing_step(seq![found, panes])
            == StepView::Done(Ok::<TabPlan, Seq<char>>(TabPlan::NewWindow)) <==> (panes matches Ok(
            p,
        ) && p.status == 0 && seqs::trim(p.stdout@).len() > 0)),
        (found matches Ok(o) && o.status == 0) ==> healing_step(seq![found, panes]) is Done,
{
    let has = tmux::has_session_args();
    let list = health_args();
    assert(has[1] == "-t"@ && has[2] == "cockpit-main"@);
    assert(list[1] == "-t"@ && list[2] == "cockpit-main"@);
    assert(seq![found][0] == found);
    assert(seq![found, panes][0] == found && seq![found, panes][1] == panes);
}

/// An adopted tab is the first window that the session has, renamed where a name was given.
pub proof fn first_window_is_adopted(
    name: Option<Seq<char>>,
    windows: TmuxOut,
    panes: TmuxOut,
    renamed: TmuxResult,
)
    requires
        windows.status == 0,
        tabs_of(windows.stdout@, pairs_in(panes)).len() > 0,
    ensures
        ({
            let tab = tabs_of(windows.stdout@, pairs_in(panes))[0];
            let done = StepView::Done(
                Ok::<CreatedView, Seq<char>>(
                    CreatedView {
                        tab_id: tab.tab_id,
                        tmux_window_id: tab.tmux_window_id,
                        pane_id: if tab.pane_ids.len() > 0 {
                            tab.pane_ids[0]
                        } else {
                            Seq::empty()
                        },
                    },
                ),
            );
            let two = seq![Ok::<TmuxOut, String>(windows), Ok::<TmuxOut, String>(panes)];
            &&& name is None || name->0.len() == 0 ==> adopt_step(name, two) == done
            &&& name is Some && name->0.len() > 0 ==> adopt_step(name, two) == StepView::<
                CreatedView,
            >::Run(seq!["rename-window"@, "-t"@, tab.tmux_window_id, name->0])
            &&& adopt_step(name, two.push(renamed)) == done
        }),
{
    reveal_strlit("");
    assert(""@ =~= Seq::empty());
    let two = seq![Ok::<TmuxOut, String>(windows), Ok::<TmuxOut, String>(panes)];
    assert(two[0] == Ok::<TmuxOut, String>(windows) && two[1] == Ok::<TmuxOut, String>(panes));
    let three = two.push(renamed);
    assert(three[0] == two[0] && three[1] == two[1]);
}

proof fn text_is_there(a: Seq<char>, p: Seq<char>, b: Seq<char>)
    ensures
        seqs::has_text(a + p + b, p),
{
    let s = a + p + b;
    assert(s.subrange(a.len() as int, a.len() as int + p.len()) =~= p);
    assert(seqs::occurs_at(s, p, a.len() as int));
}

/// What tmux says of a window or a pane that it does not find is known as that, and what it
/// says where its server or its session is gone, wherever the words stand in the message and
/// whatever the case of their letters.
pub proof fn complaints_are_understood(message: Seq<char>, a: Seq<char>, phrase: Seq<char>, b: Seq<char>)
    requires
        seqs::ascii_lower(message) == a + phrase + b,
    ensures
        phrase == "can't find window"@ || phrase == "can't find pane"@ ==> says_missing(message),
        phrase == "no server running"@ || phrase == "can't find session"@ || phrase
            == "session not found"@ || phrase == "no current session"@ || phrase == "lost server"@
            || phrase == "server exited"@ ==> says_gone(message),
{
    text_is_there(a, phrase, b);
}

/// A warm start captures the pane from the beginning of its history, and one of the screen
/// alone only what is shown; both with its colours. Then tmux is asked for the height of the
/// pane and the place of its cursor.
pub proof fn captures_are_of_the_pane(pane: Seq<char>, text: TmuxOut)
    requires
        text.status == 0,
    ensures
        warm_start_step(pane, Seq::empty()) matches StepView::Run(args) && args[0]
            == "capture-pane"@ && args.contains("-e"@) && has_option(args, "-S"@, "-"@)
            && has_option(args, "-t"@, pane),
        warm_start_screen_step(pane, Seq::empty()) matches StepView::Run(args) && args[0]
            == "capture-pane"@ && args.contains("-e"@) && args.len() == 5 && has_option(
            args,
            "-t"@,
            pane,
        ),
        warm_start_step(pane, seq![Ok(text)]) matches StepView::Run(args) && args[0]
            == "display-message"@ && has_option(args, "-t"@, pane) && args.last()
            == "#{pane_height} #{cursor_x} #{cursor_y}"@,
        warm_start_screen_step(pane, seq![Ok(text)]) matches StepView::Run(args) && args[0]
            == "display-message"@ && has_option(args, "-t"@, pane) && args.last()
            == "#{cursor_x} #{cursor_y}"@,
{
    let h = history_args(pane);
    assert(h[2] == "-e"@ && h[3] == "-S"@ && h[4] == "-"@ && h[5] == "-t"@ && h[6] == pane);
    assert(h.contains(h[2]));
    let s = screen_args(pane);
    assert(s[2] == "-e"@ && s[3] == "-t"@ && s[4] == pane);
    assert(s.contains(s[2]));
    let a = numbers_args(pane, "#{pane_height} #{cursor_x} #{cursor_y}"@);
    assert(a[2] == "-t"@ && a[3] == pane);
    let b = numbers_args(pane, "#{cursor_x} #{cursor_y}"@);
    assert(b[2] == "-t"@ && b[3] == pane);
    assert(seq![Ok::<TmuxOut, String>(text)][0] == Ok::<TmuxOut, String>(text));
}

/// What comes of a warm start is what tmux captured, shown on a screen of the height and with
/// the cursor at the column and the row that tmux printed, in this order.
pub proof fn warm_starts_show_what_was_captured(
    pane: Seq<char>,
    text: TmuxOut,
    printed: TmuxOut,
    height: u32,
    x: u32,
    y: u32,
)
    requires
        text.status == 0,
        printed.status == 0,
    ensures
        seqs::words(printed.stdout@) == seq![
            seqs::decimal(height as nat),
            seqs::decimal(x as nat),
            seqs::decimal(y as nat),
        ] ==> warm_start_step(pane, seq![Ok(text), Ok(printed)]) == StepView::Done(
            Ok::<Seq<char>, Seq<char>>(
                b64::b64_encode(
                    vstd::utf8::encode_utf8(
                        replay::warm_text(text.stdout@, height as nat, Some((x, y))),
                    ),
                ),
            ),
        ),
        seqs::words(printed.stdout@) == seq![seqs::decimal(x as nat), seqs::decimal(y as nat)]
            ==> warm_start_screen_step(pane, seq![Ok(text), Ok(printed)]) == StepView::Done(
            Ok::<Seq<char>, Seq<char>>(
                b64::b64_encode(
                    vstd::utf8::encode_utf8(replay::screen_text(text.stdout@, Some((x, y)))),
                ),
            ),
        ),
{
    let outs = seq![Ok::<TmuxOut, String>(text), Ok::<TmuxOut, String>(printed)];
    assert(outs[0] == Ok::<TmuxOut, String>(text) && outs[1] == Ok::<TmuxOut, String>(printed));
    let f = |n: u32| seqs::decimal(n as nat);
    let three = seq![height, x, y];
    replay::printed_numbers_are_read_back(three);
    assert(three.map_values(f) =~= seq![
        seqs::decimal(height as nat),
        seqs::decimal(x as nat),
        seqs::decimal(y as nat),
    ]);
    let two = seq![x, y];
    replay::printed_numbers_are_read_back(two);
    assert(two.map_values(f) =~= seq![seqs::decimal(x as nat), seqs::decimal(y as nat)]);
}

/// A line that is run in a pane is typed there as it is, and ended by a carriage return.
pub proof fn lines_are_typed_and_ended(pane: Seq<char>, line: Seq<char>) -> (args: (
    Seq<char>,
    Seq<char>,
))
    ensures
        line_text(pane, line) == "send-keys -t "@ + pane + " -l "@ + args.0 + "\n"@
            + "send-keys -t "@ + pane + " -H "@ + args.1 + "\n"@,
        tmux::shell_word(args.0, false) == Some(line),
        engine::unhex(args.1) == seq![13u8],
{
    let args = engine::typed_keys_reach_their_pane(pane, line, seq![13u8]);
    assert(line_text(pane, line) =~= "send-keys -t "@ + pane + " -l "@ + args.0 + "\n"@
        + "send-keys -t "@ + pane + " -H "@ + args.1 + "\n"@);
    args
}

/// Flags that name an API key are known, wherever they name it.
pub proof fn keys_are_recognised(a: Seq<char>, b: Seq<char>)
    ensures
        names_key(a + "api-key"@ + b),
        names_key(a + "apiKey"@ + b),
        names_key(a + "ANTHROPIC_API_KEY"@ + b),
{
    text_is_there(a, "api-key"@, b);
    text_is_there(a, "apiKey"@, b);
    text_is_there(a, "ANTHROPIC_API_KEY"@, b);
}

/// Commands reach the control client in the order in which they were given, and change
/// nothing else; without a client none is taken.
pub proof fn commands_stay_in_order(
    start: ManagerView,
    middle: ManagerView,
    end: ManagerView,
    a: Seq<char>,
    b: Seq<char>,
    r: Result<(), String>,
    q: Result<(), String>,
)
    requires
        sends(start, middle, a, r),
        sends(middle, end, b, q),
    ensures
        start.pending matches Some(p) ==> r is Ok && q is Ok && end.pending == Some(p + a + b),
        start.pending is None ==> r is Err && q is Err && end == start,
        end.statuses == start.statuses,
        end.agent == start.agent,
{
}

} // verus!
