//! A trial of the whole way through a control client: typed keys must come back as output,
//! and a new size as a new layout.
use crate::b64;
use crate::engine::Outbound;
use crate::engine::TopologyEvent;
use crate::seqs;
use crate::text;
use vstd::prelude::*;

verus! {

/// Milliseconds after the start of the trial.
pub const KEYS_AFTER_MS: u64 = 800;

pub const RESIZE_AFTER_MS: u64 = 2200;

pub const SPLIT_AFTER_MS: u64 = 3600;

/// What the trial does.
#[derive(Debug, PartialEq)]
pub enum BridgeAction {
    /// Type this line into the pane, and end it.
    Keys { pane_id: String, line: String },
    Resize { pane_id: String, cols: u16, rows: u16 },
    /// Split the window from outside.
    Split,
}

pub enum ActionView {
    Keys(Seq<char>, Seq<char>),
    Resize(Seq<char>, u16, u16),
    Split,
}

impl View for BridgeAction {
    type V = ActionView;

    open spec fn view(&self) -> ActionView {
        match self {
            BridgeAction::Keys { pane_id, line } => ActionView::Keys(pane_id@, line@),
            BridgeAction::Resize { pane_id, cols, rows } => ActionView::Resize(
                pane_id@,
                *cols,
                *rows,
            ),
            BridgeAction::Split => ActionView::Split,
        }
    }
}

pub open spec fn action_views(v: Seq<BridgeAction>) -> Seq<ActionView> {
    v.map_values(|a: BridgeAction| a@)
}

/// What the trial has done and seen.
pub struct Bridge {
    /// What is to be typed and come back.
    pub token: String,
    pub first_pane: Option<String>,
    pub second_pane: Option<String>,
    pub sent_keys: bool,
    pub sent_resize: bool,
    pub sent_split: bool,
    pub saw_output: bool,
    pub round_trip: bool,
    pub resized: bool,
    pub split_output: bool,
}

#[verifier::ext_equal]
pub struct BridgeView {
    pub token: Seq<char>,
    pub first_pane: Option<Seq<char>>,
    pub second_pane: Option<Seq<char>>,
    pub sent_keys: bool,
    pub sent_resize: bool,
    pub sent_split: bool,
    pub saw_output: bool,
    pub round_trip: bool,
    pub resized: bool,
    pub split_output: bool,
}

impl View for Bridge {
    type V = BridgeView;

    open spec fn view(&self) -> BridgeView {
        BridgeView {
            token: self.token@,
            first_pane: seqs::opt_view(self.first_pane),
            second_pane: seqs::opt_view(self.second_pane),
            sent_keys: self.sent_keys,
            sent_resize: self.sent_resize,
            sent_split: self.sent_split,
            saw_output: self.saw_output,
            round_trip: self.round_trip,
            resized: self.resized,
            split_output: self.split_output,
        }
    }
}

/// `needle` stands somewhere in `hay`.
pub open spec fn has_bytes(hay: Seq<u8>, needle: Seq<u8>) -> bool {
    exists|i: int|
        0 <= i <= hay.len() - needle.len() && #[trigger] hay.subrange(i, i + needle.len())
            == needle
}

fn stands_at(hay: &[u8], needle: &[u8], i: usize) -> (r: bool)
    requires
        i + needle@.len() <= hay@.len(),
    ensures
        r == (hay@.subrange(i as int, i + needle@.len()) == needle@),
{
    let n: usize = hay.len();
    let mut j: usize = 0;
    while j < needle.len()
        invariant
            j <= needle@.len(),
            n == hay@.len(),
            i + needle@.len() <= n,
            forall|k: int| 0 <= k < j ==> hay@[i + k] == needle@[k],
        decreases needle@.len() - j,
    {
        if hay[i + j] != needle[j] {
            assert(hay@.subrange(i as int, i + needle@.len())[j as int] != needle@[j as int]);
            return false;
        }
        j += 1;
    }
    assert(hay@.subrange(i as int, i + needle@.len()) =~= needle@);
    true
}

pub(crate) fn holds_bytes(hay: &[u8], needle: &[u8]) -> (r: bool)
    ensures
        r == has_bytes(hay@, needle@),
{
    if needle.len() > hay.len() {
        return false;
    }
    let last: usize = hay.len() - needle.len();
    let mut i: usize = 0;
    loop
        invariant
            i <= last,
            last == hay@.len() - needle@.len(),
            forall|k: int|
                0 <= k < i ==> #[trigger] hay@.subrange(k, k + needle@.len()) != needle@,
        decreases last - i,
    {
        if stands_at(hay, needle, i) {
            return true;
        }
        if i == last {
            return false;
        }
        i += 1;
    }
}

/// What is due at the time `elapsed`, and the trial after it.
pub open spec fn due_at(b: BridgeView, elapsed: u64) -> (BridgeView, Seq<ActionView>) {
    let keys = !b.sent_keys && elapsed >= 800 && b.first_pane is Some;
    let resize = !b.sent_resize && elapsed >= 2200 && b.first_pane is Some;
    let split = !b.sent_split && elapsed >= 3600;
    (
        BridgeView {
            sent_keys: b.sent_keys || keys,
            sent_resize: b.sent_resize || resize,
            sent_split: b.sent_split || split,
            ..b
        },
        (if keys {
            seq![ActionView::Keys(b.first_pane->0, "echo "@ + b.token)]
        } else {
            Seq::empty()
        }) + (if resize {
            seq![ActionView::Resize(b.first_pane->0, 100, 30)]
        } else {
            Seq::empty()
        }) + (if split {
            seq![ActionView::Split]
        } else {
            Seq::empty()
        }),
    )
}

/// The bytes that a message carries; none where it cannot be decoded.
pub open spec fn bytes_of(data: Seq<char>) -> Seq<u8> {
    match b64::b64_decode(data) {
        Some(bytes) => bytes,
        None => Seq::empty(),
    }
}

/// The trial after a message, and whether it was the last.
pub open spec fn seen(b: BridgeView, out: Outbound) -> (BridgeView, bool) {
    match out {
        Outbound::PaneData { pane_id, bytes_b64 } => (
            BridgeView {
                saw_output: true,
                first_pane: match b.first_pane {
                    Some(p) => Some(p),
                    None => Some(pane_id@),
                },
                round_trip: b.round_trip || has_bytes(
                    bytes_of(bytes_b64@),
                    vstd::utf8::encode_utf8(b.token),
                ),
                split_output: b.split_output || b.second_pane == Some(pane_id@),
                ..b
            },
            false,
        ),
        Outbound::Topology(TopologyEvent::LayoutChange { window_id, layout }) => (
            BridgeView { resized: b.resized || seqs::has_text(layout@, "100x30"@), ..b },
            false,
        ),
        Outbound::Topology(TopologyEvent::ActivePaneChanged { window_id, pane_id }) => (
            if b.first_pane != Some(pane_id@) {
                BridgeView { second_pane: Some(pane_id@), ..b }
            } else {
                b
            },
            false,
        ),
        Outbound::Topology(_) => (b, false),
        Outbound::Exit { .. } => (b, true),
    }
}

fn is_pane(o: &Option<String>, pane: &str) -> (r: bool)
    ensures
        r == (seqs::opt_view(*o) == Some(pane@)),
{
    match o {
        Some(p) => text::same(p.as_str(), pane),
        None => false,
    }
}

impl Bridge {
    /// A trial that has done and seen nothing.
    pub fn new(token: String) -> (r: Self)
        ensures
            r@ == (BridgeView {
                token: token@,
                first_pane: None,
                second_pane: None,
                sent_keys: false,
                sent_resize: false,
                sent_split: false,
                saw_output: false,
                round_trip: false,
                resized: false,
                split_output: false,
            }),
    {
        Bridge {
            token,
            first_pane: None,
            second_pane: None,
            sent_keys: false,
            sent_resize: false,
            sent_split: false,
            saw_output: false,
            round_trip: false,
            resized: false,
            split_output: false,
        }
    }

    /// What is to be done now, `elapsed_ms` after the start. Each thing is done once; keys
    /// and a new size wait until a pane is known.
    pub fn due(&mut self, elapsed_ms: u64) -> (r: Vec<BridgeAction>)
        ensures
            (final(self)@, action_views(r@)) == due_at(old(self)@, elapsed_ms),
    {
        let ghost start = self@;
        let mut out: Vec<BridgeAction> = Vec::new();
        assert(action_views(out@) =~= Seq::empty());
        let ghost a = due_at(start, elapsed_ms).1;
        if let Some(p) = &self.first_pane {
            if !self.sent_keys && elapsed_ms >= KEYS_AFTER_MS {
                let mut line = "echo ".to_owned();
                line.append(self.token.as_str());
                out.push(BridgeAction::Keys { pane_id: p.clone(), line });
                self.sent_keys = true;
            }
            if !self.sent_resize && elapsed_ms >= RESIZE_AFTER_MS {
                out.push(BridgeAction::Resize { pane_id: p.clone(), cols: 100, rows: 30 });
                self.sent_resize = true;
            }
        }
        if !self.sent_split && elapsed_ms >= SPLIT_AFTER_MS {
            out.push(BridgeAction::Split);
            self.sent_split = true;
        }
        assert(action_views(out@) =~= a);
        out
    }

    /// Takes a message, and tells whether it was the last.
    pub fn observe(&mut self, out: Outbound) -> (r: bool)
        ensures
            (final(self)@, r) == seen(old(self)@, out),
    {
        match out {
            Outbound::PaneData { pane_id, bytes_b64 } => {
                self.saw_output = true;
                let bytes = match b64::decode(bytes_b64.as_str()) {
                    Some(v) => v,
                    None => Vec::new(),
                };
                assert(bytes@ =~= bytes_of(bytes_b64@));
                if holds_bytes(bytes.as_slice(), self.token.as_str().as_bytes()) {
                    self.round_trip = true;
                }
                if is_pane(&self.second_pane, pane_id.as_str()) {
                    self.split_output = true;
                }
                if self.first_pane.is_none() {
                    self.first_pane = Some(pane_id);
                }
                false
            },
            Outbound::Topology(TopologyEvent::LayoutChange { window_id: _, layout }) => {
                if text::has_text(layout.as_str(), "100x30") {
                    self.resized = true;
                }
                false
            },
            Outbound::Topology(TopologyEvent::ActivePaneChanged { window_id: _, pane_id }) => {
                if !is_pane(&self.first_pane, pane_id.as_str()) {
                    self.second_pane = Some(pane_id);
                }
                false
            },
            Outbound::Topology(_) => false,
            Outbound::Exit { .. } => true,
        }
    }

    /// Whether the way is proven: output, the round trip and the new size were all seen. The
    /// output of the second pane is a matter of time, and is not asked for.
    pub fn proven(&self) -> (r: bool)
        ensures
            r == (self@.saw_output && self@.round_trip && self@.resized),
    {
        self.saw_output && self.round_trip && self.resized
    }
}

/// Nothing is done twice: what is due leaves nothing of it due at the same time.
pub proof fn nothing_is_due_twice(b: BridgeView, elapsed: u64)
    ensures
        due_at(due_at(b, elapsed).0, elapsed).1 == Seq::<ActionView>::empty(),
{
    assert(due_at(due_at(b, elapsed).0, elapsed).1 =~= Seq::<ActionView>::empty());
}

/// What was seen stays seen.
pub proof fn seen_stays_seen(b: BridgeView, out: Outbound)
    ensures
        b.saw_output ==> seen(b, out).0.saw_output,
        b.round_trip ==> seen(b, out).0.round_trip,
        b.resized ==> seen(b, out).0.resized,
        b.split_output ==> seen(b, out).0.split_output,
{
}

/// A trial types its token once a pane is known and eight tenths of a second have passed,
/// sizes the pane to a hundred by thirty, and splits the window, each in its turn and not
/// before.
pub proof fn each_thing_is_done_in_its_turn(b: BridgeView, elapsed: u64)
    ensures
        ({
            let acts = due_at(b, elapsed).1;
            let keys = ActionView::Keys(b.first_pane->0, "echo "@ + b.token);
            let size = ActionView::Resize(b.first_pane->0, 100, 30);
            &&& elapsed < 800 ==> acts.len() == 0
            &&& b.first_pane is None && elapsed < 3600 ==> acts.len() == 0
            &&& b.first_pane is Some && !b.sent_keys && 800 <= elapsed < 2200 ==> acts == seq![keys]
            &&& b.first_pane is Some && !b.sent_keys && !b.sent_resize && 2200 <= elapsed < 3600
                ==> acts == seq![keys, size]
            &&& b.first_pane is Some && b.sent_keys && !b.sent_resize && 2200 <= elapsed < 3600
                ==> acts == seq![size]
            &&& b.sent_keys && b.sent_resize && !b.sent_split && elapsed >= 3600 ==> acts == seq![
                ActionView::Split,
            ]
            &&& due_at(b, elapsed).0.sent_keys <==> b.sent_keys || (b.first_pane is Some && elapsed
                >= 800)
            &&& due_at(b, elapsed).0.first_pane == b.first_pane
            &&& due_at(b, elapsed).0.token == b.token
        }),
{
    let acts = due_at(b, elapsed).1;
    let keys = ActionView::Keys(b.first_pane->0, "echo "@ + b.token);
    let size = ActionView::Resize(b.first_pane->0, 100, 30);
    if b.first_pane is Some && !b.sent_keys && 800 <= elapsed < 2200 {
        assert(acts =~= seq![keys]);
    }
    if b.first_pane is Some && !b.sent_keys && !b.sent_resize && 2200 <= elapsed < 3600 {
        assert(acts =~= seq![keys, size]);
    }
    if b.first_pane is Some && b.sent_keys && !b.sent_resize && 2200 <= elapsed < 3600 {
        assert(acts =~= seq![size]);
    }
    if b.sent_keys && b.sent_resize && !b.sent_split && elapsed >= 3600 {
        assert(acts =~= seq![ActionView::Split]);
    }
}

/// The round trip is seen exactly when output holds the token, and the new size exactly when
/// a layout names it; the first pane is the first that has output, and only the end of the
/// client ends the trial.
pub proof fn what_is_seen_is_what_came(b: BridgeView, out: Outbound, bytes: Seq<u8>)
    ensures
        out matches Outbound::PaneData { pane_id, bytes_b64 } ==> b64::b64_decode(bytes_b64@)
            == Some(bytes) ==> ({
            let after = seen(b, out).0;
            &&& after.saw_output
            &&& !b.round_trip ==> (after.round_trip <==> has_bytes(
                bytes,
                vstd::utf8::encode_utf8(b.token),
            ))
            &&& b.first_pane is None ==> after.first_pane == Some(pane_id@)
            &&& b.first_pane is Some ==> after.first_pane == b.first_pane
            &&& after.resized == b.resized
        }),
        out matches Outbound::Topology(TopologyEvent::LayoutChange { window_id, layout })
            ==> !b.resized ==> (seen(b, out).0.resized <==> seqs::has_text(layout@, "100x30"@)),
        seen(b, out).1 <==> out is Exit,
        out is Exit ==> seen(b, out).0 == b,
{
}

} // verus!
