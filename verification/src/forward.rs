//! The way of events to the screen: output is gathered for a moment and sent in one piece
//! for each pane; everything else is sent at once, behind the output that came before it.
use crate::b64;
use crate::engine::Outbound;
use crate::engine::TopologyEvent;
use crate::seqs;
use crate::text;
use vstd::prelude::*;

verus! {

/// For how many milliseconds output is gathered.
pub const COALESCE_MS: u64 = 16;

/// A change of the windows and panes, as the screen takes it.
#[derive(Clone, Debug, PartialEq)]
pub struct PaneTopologyPayload {
    pub kind: String,
    pub tab_id: Option<String>,
    pub window_id: Option<String>,
    pub pane_id: Option<String>,
    pub layout: Option<String>,
}

#[verifier::ext_equal]
pub struct TopologyView {
    pub kind: Seq<char>,
    pub tab_id: Option<Seq<char>>,
    pub window_id: Option<Seq<char>>,
    pub pane_id: Option<Seq<char>>,
    pub layout: Option<Seq<char>>,
}

impl View for PaneTopologyPayload {
    type V = TopologyView;

    open spec fn view(&self) -> TopologyView {
        TopologyView {
            kind: self.kind@,
            tab_id: seqs::opt_view(self.tab_id),
            window_id: seqs::opt_view(self.window_id),
            pane_id: seqs::opt_view(self.pane_id),
            layout: seqs::opt_view(self.layout),
        }
    }
}

pub open spec fn topology_of(t: TopologyEvent) -> TopologyView {
    match t {
        TopologyEvent::WindowAdd { window_id } => TopologyView {
            kind: "windowAdd"@,
            tab_id: None,
            window_id: Some(window_id@),
            pane_id: None,
            layout: None,
        },
        TopologyEvent::WindowClose { window_id } => TopologyView {
            kind: "windowClose"@,
            tab_id: None,
            window_id: Some(window_id@),
            pane_id: None,
            layout: None,
        },
        TopologyEvent::LayoutChange { window_id, layout } => TopologyView {
            kind: "layoutChange"@,
            tab_id: None,
            window_id: Some(window_id@),
            pane_id: None,
            layout: Some(layout@),
        },
        TopologyEvent::ActivePaneChanged { window_id, pane_id } => TopologyView {
            kind: "activePaneChanged"@,
            tab_id: None,
            window_id: Some(window_id@),
            pane_id: Some(pane_id@),
            layout: None,
        },
        TopologyEvent::PaneModeChanged { pane_id } => TopologyView {
            kind: "paneModeChanged"@,
            tab_id: None,
            window_id: None,
            pane_id: Some(pane_id@),
            layout: None,
        },
    }
}

/// The end of the control client is a change too; its reason stands where a layout would.
pub open spec fn exit_of(reason: Option<Seq<char>>) -> TopologyView {
    TopologyView { kind: "exit"@, tab_id: None, window_id: None, pane_id: None, layout: reason }
}

/// A change, as the screen takes it.
pub fn topology_payload(t: TopologyEvent) -> (r: PaneTopologyPayload)
    ensures
        r@ == topology_of(t),
{
    match t {
        TopologyEvent::WindowAdd { window_id } => PaneTopologyPayload {
            kind: "windowAdd".to_owned(),
            tab_id: None,
            window_id: Some(window_id),
            pane_id: None,
            layout: None,
        },
        TopologyEvent::WindowClose { window_id } => PaneTopologyPayload {
            kind: "windowClose".to_owned(),
            tab_id: None,
            window_id: Some(window_id),
            pane_id: None,
            layout: None,
        },
        TopologyEvent::LayoutChange { window_id, layout } => PaneTopologyPayload {
            kind: "layoutChange".to_owned(),
            tab_id: None,
            window_id: Some(window_id),
            pane_id: None,
            layout: Some(layout),
        },
        TopologyEvent::ActivePaneChanged { window_id, pane_id } => PaneTopologyPayload {
            kind: "activePaneChanged".to_owned(),
            tab_id: None,
            window_id: Some(window_id),
            pane_id: Some(pane_id),
            layout: None,
        },
        TopologyEvent::PaneModeChanged { pane_id } => PaneTopologyPayload {
            kind: "paneModeChanged".to_owned(),
            tab_id: None,
            window_id: None,
            pane_id: Some(pane_id),
            layout: None,
        },
    }
}

/// What is sent to the screen.
#[derive(Clone, Debug, PartialEq)]
pub enum Message {
    PaneData { pane_id: String, bytes_b64: String },
    Topology(PaneTopologyPayload),
}

pub enum MessageView {
    PaneData(Seq<char>, Seq<char>),
    Topology(TopologyView),
}

impl View for Message {
    type V = MessageView;

    open spec fn view(&self) -> MessageView {
        match self {
            Message::PaneData { pane_id, bytes_b64 } => MessageView::PaneData(
                pane_id@,
                bytes_b64@,
            ),
            Message::Topology(t) => MessageView::Topology(t@),
        }
    }
}

pub open spec fn message_views(v: Seq<Message>) -> Seq<MessageView> {
    v.map_values(|m: Message| m@)
}

/// For how many milliseconds output may still be gathered, where what was held back was last
/// sent `elapsed_ms` ago; `None` where it is to be sent now, whatever else may be waiting.
pub fn gather_ms(elapsed_ms: u64) -> (r: Option<u64>)
    ensures
        r == (if elapsed_ms < COALESCE_MS {
            Some((COALESCE_MS - elapsed_ms) as u64)
        } else {
            None
        }),
{
    if elapsed_ms < COALESCE_MS {
        Some(COALESCE_MS - elapsed_ms)
    } else {
        None
    }
}

/// What happens to the forwarder.
pub enum ForwardEvent {
    Received(Outbound),
    /// The time for which output is gathered is over.
    Timeout,
    /// Nothing will come any more.
    Disconnected,
}

/// The output that is held back, for each pane in the order in which it came. The panes are
/// in the order in which they were first heard of.
pub struct Forwarder {
    pending: Vec<(String, Vec<u8>)>,
}

pub open spec fn pending_views(v: Seq<(String, Vec<u8>)>) -> Seq<(Seq<char>, Seq<u8>)> {
    v.map_values(|p: (String, Vec<u8>)| (p.0@, p.1@))
}

impl View for Forwarder {
    type V = Seq<(Seq<char>, Seq<u8>)>;

    closed spec fn view(&self) -> Seq<(Seq<char>, Seq<u8>)> {
        pending_views(self.pending@)
    }
}

/// The output of `pane` among what is held back.
pub open spec fn held(pending: Seq<(Seq<char>, Seq<u8>)>, pane: Seq<char>) -> Seq<u8>
    decreases pending.len(),
{
    if pending.len() == 0 {
        Seq::empty()
    } else if pending.last().0 == pane {
        held(pending.drop_last(), pane) + pending.last().1
    } else {
        held(pending.drop_last(), pane)
    }
}

/// What sends everything that is held back: one message for each pane that has output.
pub open spec fn flushed(pending: Seq<(Seq<char>, Seq<u8>)>) -> Seq<MessageView>
    decreases pending.len(),
{
    if pending.len() == 0 {
        Seq::empty()
    } else {
        let head = flushed(pending.drop_last());
        if pending.last().1.len() == 0 {
            head
        } else {
            head.push(MessageView::PaneData(pending.last().0, b64::b64_encode(pending.last().1)))
        }
    }
}

/// The output of `pane` that messages carry, as the screen decodes it.
pub open spec fn carried(messages: Seq<MessageView>, pane: Seq<char>) -> Seq<u8>
    decreases messages.len(),
{
    if messages.len() == 0 {
        Seq::empty()
    } else {
        let head = carried(messages.drop_last(), pane);
        match messages.last() {
            MessageView::PaneData(p, data) => match b64::b64_decode(data) {
                Some(bytes) => if p == pane {
                    head + bytes
                } else {
                    head
                },
                None => head,
            },
            MessageView::Topology(_) => head,
        }
    }
}

/// The output of `pane` that an event brings.
pub open spec fn brought(ev: ForwardEvent, pane: Seq<char>) -> Seq<u8> {
    match ev {
        ForwardEvent::Received(Outbound::PaneData { pane_id, bytes_b64 }) => match b64::b64_decode(
            bytes_b64@,
        ) {
            Some(bytes) => if pane_id@ == pane {
                bytes
            } else {
                Seq::empty()
            },
            None => Seq::empty(),
        },
        _ => Seq::empty(),
    }
}

/// Each pane is there once, and its output can be encoded.
pub open spec fn is_pending(pending: Seq<(Seq<char>, Seq<u8>)>) -> bool {
    &&& forall|i: int| 0 <= i < pending.len() ==> b64::can_encode((#[trigger] pending[i]).1.len())
    &&& forall|i: int, j: int|
        0 <= i < j < pending.len() ==> (#[trigger] pending[i]).0 != (#[trigger] pending[j]).0
}

/// Where `pane` stands among what is held back; the number of panes where it does not.
pub open spec fn place_of(pending: Seq<(Seq<char>, Seq<u8>)>, pane: Seq<char>) -> int
    decreases pending.len(),
{
    if pending.len() == 0 {
        0
    } else if pending[0].0 == pane {
        0
    } else {
        1 + place_of(pending.drop_first(), pane)
    }
}

/// What is held back when output of `pane` is added.
pub open spec fn added(pending: Seq<(Seq<char>, Seq<u8>)>, pane: Seq<char>, bytes: Seq<u8>) -> Seq<
    (Seq<char>, Seq<u8>),
> {
    let k = place_of(pending, pane);
    if k < pending.len() {
        pending.update(k, (pane, pending[k].1 + bytes))
    } else {
        pending.push((pane, bytes))
    }
}

/// Output of `pane` can be added to what is held back of it.
pub open spec fn has_room(pending: Seq<(Seq<char>, Seq<u8>)>, pane: Seq<char>, n: nat) -> bool {
    let k = place_of(pending, pane);
    let old_len = if k < pending.len() {
        pending[k].1.len()
    } else {
        0
    };
    b64::can_encode(old_len + n)
}

/// What is held back after an event, what is sent, and whether that was the last.
pub open spec fn forwarded(pending: Seq<(Seq<char>, Seq<u8>)>, ev: ForwardEvent) -> (
    Seq<(Seq<char>, Seq<u8>)>,
    Seq<MessageView>,
    bool,
) {
    match ev {
        ForwardEvent::Received(Outbound::PaneData { pane_id, bytes_b64 }) => match b64::b64_decode(
            bytes_b64@,
        ) {
            Some(bytes) => if has_room(pending, pane_id@, bytes.len()) {
                (added(pending, pane_id@, bytes), Seq::empty(), false)
            } else {
                (
                    Seq::empty(),
                    flushed(pending).push(MessageView::PaneData(pane_id@, bytes_b64@)),
                    false,
                )
            },
            None => (pending, seq![MessageView::PaneData(pane_id@, bytes_b64@)], false),
        },
        ForwardEvent::Received(Outbound::Topology(t)) => (
            Seq::empty(),
            flushed(pending).push(MessageView::Topology(topology_of(t))),
            false,
        ),
        ForwardEvent::Received(Outbound::Exit { reason }) => (
            Seq::empty(),
            flushed(pending).push(MessageView::Topology(exit_of(seqs::opt_view(reason)))),
            true,
        ),
        ForwardEvent::Timeout => (Seq::empty(), flushed(pending), false),
        ForwardEvent::Disconnected => (Seq::empty(), flushed(pending), true),
    }
}

proof fn place_of_is(pending: Seq<(Seq<char>, Seq<u8>)>, pane: Seq<char>, k: int)
    requires
        0 <= k <= pending.len(),
        forall|j: int| 0 <= j < k ==> (#[trigger] pending[j]).0 != pane,
        k < pending.len() ==> pending[k].0 == pane,
    ensures
        place_of(pending, pane) == k,
    decreases pending.len(),
{
    if pending.len() > 0 && pending[0].0 != pane {
        let t = pending.drop_first();
        assert forall|j: int| 0 <= j < k - 1 implies (#[trigger] t[j]).0 != pane by {
            assert(t[j] == pending[j + 1]);
        }
        place_of_is(t, pane, k - 1);
    }
}

/// What is held back of a pane that is not there is nothing.
proof fn held_of_none(pending: Seq<(Seq<char>, Seq<u8>)>, pane: Seq<char>)
    requires
        forall|j: int| 0 <= j < pending.len() ==> (#[trigger] pending[j]).0 != pane,
    ensures
        held(pending, pane) == Seq::<u8>::empty(),
    decreases pending.len(),
{
    if pending.len() > 0 {
        let t = pending.drop_last();
        assert forall|j: int| 0 <= j < t.len() implies (#[trigger] t[j]).0 != pane by {
            assert(t[j] == pending[j]);
        }
        assert(pending.last() == pending[pending.len() - 1]);
        held_of_none(t, pane);
    }
}

proof fn held_of_one(pending: Seq<(Seq<char>, Seq<u8>)>, k: int)
    requires
        0 <= k < pending.len(),
        forall|j: int|
            0 <= j < pending.len() && j != k ==> (#[trigger] pending[j]).0 != pending[k].0,
    ensures
        held(pending, pending[k].0) == pending[k].1,
    decreases pending.len(),
{
    let pane = pending[k].0;
    let t = pending.drop_last();
    assert(pending.last() == pending[pending.len() - 1]);
    if k == pending.len() - 1 {
        assert forall|j: int| 0 <= j < t.len() implies (#[trigger] t[j]).0 != pane by {
            assert(t[j] == pending[j]);
        }
        held_of_none(t, pane);
        assert(held(pending, pane) =~= pending[k].1);
    } else {
        assert forall|j: int| 0 <= j < t.len() && j != k implies (#[trigger] t[j]).0 != t[k].0 by {
            assert(t[j] == pending[j]);
        }
        held_of_one(t, k);
    }
}

proof fn held_of_others(
    a: Seq<(Seq<char>, Seq<u8>)>,
    b: Seq<(Seq<char>, Seq<u8>)>,
    pane: Seq<char>,
)
    requires
        a.len() == b.len(),
        forall|j: int|
            0 <= j < a.len() ==> (#[trigger] a[j] == b[j] || a[j].0 != pane && b[j].0 != pane),
    ensures
        held(a, pane) == held(b, pane),
    decreases a.len(),
{
    if a.len() > 0 {
        let s = a.drop_last();
        let t = b.drop_last();
        assert forall|j: int| 0 <= j < s.len() implies (#[trigger] s[j] == t[j] || s[j].0 != pane
            && t[j].0 != pane) by {
            assert(s[j] == a[j] && t[j] == b[j]);
        }
        held_of_others(s, t, pane);
        assert(a.last() == a[a.len() - 1]);
        assert(b.last() == b[b.len() - 1]);
    }
}

proof fn held_of_added(
    pending: Seq<(Seq<char>, Seq<u8>)>,
    k: int,
    pane: Seq<char>,
    bytes: Seq<u8>,
    q: Seq<char>,
)
    requires
        is_pending(pending),
        0 <= k <= pending.len(),
        k == place_of(pending, pane),
        forall|j: int| 0 <= j < k ==> (#[trigger] pending[j]).0 != pane,
        k < pending.len() ==> pending[k].0 == pane,
    ensures
        held(added(pending, pane, bytes), q) == held(pending, q) + (if q == pane {
            bytes
        } else {
            Seq::empty()
        }),
{
    let next = added(pending, pane, bytes);
    if k < pending.len() {
        if q == pane {
            held_of_one(pending, k);
            assert forall|j: int| 0 <= j < next.len() && j != k implies (#[trigger] next[j]).0
                != next[k].0 by {
                assert(next[j] == pending[j]);
            }
            held_of_one(next, k);
        } else {
            held_of_others(pending, next, q);
            assert(held(pending, q) + Seq::<u8>::empty() =~= held(pending, q));
        }
    } else {
        assert(next.drop_last() =~= pending);
        if q == pane {
            held_of_none(pending, pane);
        } else {
            assert(held(pending, q) + Seq::<u8>::empty() =~= held(pending, q));
        }
    }
}

impl Forwarder {
    pub open spec fn wf(self) -> bool {
        is_pending(self@)
    }

    /// Nothing is held back.
    pub fn new() -> (r: Self)
        ensures
            r.wf(),
            r@.len() == 0,
    {
        Forwarder { pending: Vec::new() }
    }

    fn find(&self, pane: &str) -> (r: usize)
        ensures
            r == place_of(self@, pane@),
            r <= self@.len(),
            forall|j: int| 0 <= j < r ==> (#[trigger] self@[j]).0 != pane@,
            r < self@.len() ==> self@[r as int].0 == pane@,
    {
        let mut k: usize = 0;
        while k < self.pending.len() && !text::same(self.pending[k].0.as_str(), pane)
            invariant
                k <= self.pending@.len(),
                forall|j: int| 0 <= j < k ==> (#[trigger] self@[j]).0 != pane@,
            decreases self.pending@.len() - k,
        {
            assert(self@[k as int].0 == self.pending@[k as int].0@);
            k += 1;
        }
        proof {
            if k < self.pending@.len() {
                assert(self@[k as int].0 == self.pending@[k as int].0@);
            }
            place_of_is(self@, pane@, k as int);
        }
        k
    }

    /// Sends everything that is held back.
    fn flush_pending(&mut self) -> (r: Vec<Message>)
        requires
            old(self).wf(),
        ensures
            final(self)@.len() == 0,
            message_views(r@) == flushed(old(self)@),
            forall|pane: Seq<char>|
                #[trigger] carried(message_views(r@), pane) == held(old(self)@, pane),
    {
        let ghost all = self@;
        let mut taken: Vec<(String, Vec<u8>)> = Vec::new();
        core::mem::swap(&mut taken, &mut self.pending);
        let mut out: Vec<Message> = Vec::new();
        let mut i: usize = 0;
        assert(message_views(out@) =~= Seq::empty());
        assert(all.take(0) =~= Seq::empty());
        while i < taken.len()
            invariant
                i <= taken@.len(),
                all == pending_views(taken@),
                is_pending(all),
                message_views(out@) == flushed(all.take(i as int)),
                forall|pane: Seq<char>|
                    #[trigger] carried(message_views(out@), pane) == held(
                        all.take(i as int),
                        pane,
                    ),
            decreases taken@.len() - i,
        {
            let ghost before = message_views(out@);
            let ghost head = all.take(i as int);
            let ghost next = all.take(i + 1);
            proof {
                assert(next.drop_last() =~= head);
                assert(all[i as int] == (taken@[i as int].0@, taken@[i as int].1@));
                assert(next.last() == all[i as int]);
            }
            if taken[i].1.len() > 0 {
                let bytes_b64 = b64::encode(taken[i].1.as_slice());
                let m = Message::PaneData { pane_id: taken[i].0.clone(), bytes_b64 };
                out.push(m);
                proof {
                    let after = message_views(out@);
                    assert(after =~= before.push(m@));
                    assert(after.drop_last() =~= before);
                    assert forall|pane: Seq<char>|
                        #[trigger] carried(after, pane) == held(next, pane) by {
                        assert(carried(before, pane) == held(head, pane));
                    }
                }
            } else {
                assert forall|pane: Seq<char>|
                    #[trigger] carried(message_views(out@), pane) == held(next, pane) by {
                    assert(carried(before, pane) == held(head, pane));
                    assert(held(head, pane) + all[i as int].1 =~= held(head, pane));
                }
            }
            i += 1;
        }
        assert(all.take(all.len() as int) =~= all);
        out
    }

    /// Takes an event, and gives what is sent and whether it was the last.
    ///
    /// No output is lost, doubled or reordered: for every pane, what was held back and what
    /// the event brings is what the messages carry and what is held back now. A change of
    /// the windows and panes is sent behind all output that came before it.
    pub fn step(&mut self, ev: ForwardEvent) -> (r: (Vec<Message>, bool))
        requires
            old(self).wf(),
        ensures
            final(self).wf(),
            (final(self)@, message_views(r.0@), r.1) == forwarded(old(self)@, ev),
            forall|pane: Seq<char>|
                held(old(self)@, pane) + brought(ev, pane) == #[trigger] carried(
                    message_views(r.0@),
                    pane,
                ) + held(final(self)@, pane),
    {
        let ghost start = self@;
        match ev {
            ForwardEvent::Received(Outbound::PaneData { pane_id, bytes_b64 }) => {
                match b64::decode(bytes_b64.as_str()) {
                    Some(bytes) => self.output(pane_id, bytes_b64, bytes),
                    None => {
                        let m = Message::PaneData { pane_id, bytes_b64 };
                        let out = vec![m];
                        proof {
                            let views = message_views(out@);
                            assert(views =~= seq![m@]);
                            assert(views.drop_last() =~= Seq::empty());
                            assert forall|pane: Seq<char>|
                                held(start, pane) + brought(ev, pane) == #[trigger] carried(
                                    views,
                                    pane,
                                ) + held(self@, pane) by {
                                reveal_with_fuel(carried, 2);
                                assert(held(start, pane) + Seq::<u8>::empty() =~= Seq::<u8>::empty()
                                    + held(start, pane));
                            }
                        }
                        (out, false)
                    },
                }
            },
            ForwardEvent::Received(Outbound::Topology(t)) => {
                let out = self.flush_pending();
                (self.close(out, topology_payload(t), Ghost(start)), false)
            },
            ForwardEvent::Received(Outbound::Exit { reason }) => {
                let out = self.flush_pending();
                let t = PaneTopologyPayload {
                    kind: "exit".to_owned(),
                    tab_id: None,
                    window_id: None,
                    pane_id: None,
                    layout: reason,
                };
                (self.close(out, t, Ghost(start)), true)
            },
            ForwardEvent::Timeout => {
                let out = self.flush_pending();
                proof {
                    nothing_left(self@, start, message_views(out@));
                }
                (out, false)
            },
            ForwardEvent::Disconnected => {
                let out = self.flush_pending();
                proof {
                    nothing_left(self@, start, message_views(out@));
                }
                (out, true)
            },
        }
    }

    /// Sends a change behind the output `out`.
    fn close(&self, out: Vec<Message>, t: PaneTopologyPayload, Ghost(start): Ghost<
        Seq<(Seq<char>, Seq<u8>)>,
    >) -> (r: Vec<Message>)
        requires
            self@.len() == 0,
            message_views(out@) == flushed(start),
            forall|pane: Seq<char>|
                #[trigger] carried(message_views(out@), pane) == held(start, pane),
        ensures
            message_views(r@) == flushed(start).push(MessageView::Topology(t@)),
            forall|pane: Seq<char>|
                held(start, pane) + Seq::<u8>::empty() == #[trigger] carried(
                    message_views(r@),
                    pane,
                ) + held(self@, pane),
    {
        let ghost before = message_views(out@);
        let mut all = out;
        let m = Message::Topology(t);
        all.push(m);
        proof {
            let after = message_views(all@);
            assert(after =~= before.push(m@));
            assert(after.drop_last() =~= before);
            assert forall|pane: Seq<char>|
                held(start, pane) + Seq::<u8>::empty() == #[trigger] carried(after, pane) + held(
                    self@,
                    pane,
                ) by {
                assert(carried(before, pane) == held(start, pane));
                assert(held(self@, pane) =~= Seq::<u8>::empty());
            }
        }
        all
    }

    /// Takes output of a pane: it is held back, unless there is no room for it.
    fn output(&mut self, pane_id: String, bytes_b64: String, bytes: Vec<u8>) -> (r: (
        Vec<Message>,
        bool,
    ))
        requires
            old(self).wf(),
            b64::b64_decode(bytes_b64@) == Some(bytes@),
        ensures
            final(self).wf(),
            (final(self)@, message_views(r.0@), r.1) == forwarded(
                old(self)@,
                ForwardEvent::Received(Outbound::PaneData { pane_id, bytes_b64 }),
            ),
            forall|pane: Seq<char>|
                held(old(self)@, pane) + (if pane == pane_id@ {
                    bytes@
                } else {
                    Seq::empty()
                }) == #[trigger] carried(message_views(r.0@), pane) + held(final(self)@, pane),
    {
        let ghost start = self@;
        let k = self.find(pane_id.as_str());
        let n: usize = bytes.len();
        let old_len: usize = if k < self.pending.len() {
            self.pending[k].1.len()
        } else {
            0
        };
        proof {
            if k < start.len() {
                assert(start[k as int].1 == self.pending@[k as int].1@);
            }
        }
        if room(old_len, n) {
            if k < self.pending.len() {
                let mut more = bytes;
                let ghost added_bytes = more@;
                self.pending[k].1.append(&mut more);
                assert(self@ =~= added(start, pane_id@, added_bytes));
            } else {
                self.pending.push((pane_id, bytes));
                assert(self@ =~= added(start, pane_id@, bytes@));
            }
            let out: Vec<Message> = Vec::new();
            proof {
                assert(message_views(out@) =~= Seq::empty());
                let now = self@;
                assert(is_pending(now)) by {
                    assert forall|i: int| 0 <= i < now.len() implies b64::can_encode(
                        (#[trigger] now[i]).1.len(),
                    ) by {
                        if i != k {
                            assert(now[i] == start[i]);
                        }
                    }
                    assert forall|i: int, j: int| 0 <= i < j < now.len() implies (
                    #[trigger] now[i]).0 != (#[trigger] now[j]).0 by {
                        if i < start.len() {
                            assert(now[i].0 == start[i].0);
                        }
                        if j < start.len() {
                            assert(now[j].0 == start[j].0);
                        }
                    }
                }
                assert forall|pane: Seq<char>|
                    held(start, pane) + (if pane == pane_id@ {
                        bytes@
                    } else {
                        Seq::empty()
                    }) == #[trigger] carried(message_views(out@), pane) + held(now, pane) by {
                    held_of_added(start, k as int, pane_id@, bytes@, pane);
                    assert(carried(message_views(out@), pane) + held(now, pane) =~= held(
                        now,
                        pane,
                    ));
                }
            }
            return (out, false);
        }
        let ghost chunk = bytes@;
        let mut out = self.flush_pending();
        let ghost before = message_views(out@);
        let m = Message::PaneData { pane_id, bytes_b64 };
        out.push(m);
        proof {
            let after = message_views(out@);
            assert(after =~= before.push(m@));
            assert(after.drop_last() =~= before);
            assert forall|pane: Seq<char>|
                held(start, pane) + (if pane == pane_id@ {
                    chunk
                } else {
                    Seq::empty()
                }) == #[trigger] carried(after, pane) + held(self@, pane) by {
                assert(carried(before, pane) == held(start, pane));
                assert(held(self@, pane) =~= Seq::<u8>::empty());
            }
        }
        (out, false)
    }
}

/// Whether `a` and `b` bytes together can be encoded.
fn room(a: usize, b: usize) -> (r: bool)
    ensures
        r == b64::can_encode((a + b) as nat),
{
    match a.checked_add(b) {
        None => false,
        Some(n) => n <= (isize::MAX as usize) / 4 * 3,
    }
}

proof fn nothing_left(
    now: Seq<(Seq<char>, Seq<u8>)>,
    start: Seq<(Seq<char>, Seq<u8>)>,
    messages: Seq<MessageView>,
)
    requires
        now.len() == 0,
        forall|pane: Seq<char>| #[trigger] carried(messages, pane) == held(start, pane),
    ensures
        now == Seq::<(Seq<char>, Seq<u8>)>::empty(),
        forall|pane: Seq<char>|
            held(start, pane) + Seq::<u8>::empty() == #[trigger] carried(messages, pane) + held(
                now,
                pane,
            ),
{
    assert forall|pane: Seq<char>|
        held(start, pane) + Seq::<u8>::empty() == #[trigger] carried(messages, pane) + held(
            now,
            pane,
        ) by {
        assert(held(now, pane) =~= Seq::<u8>::empty());
    }
}

/// A change reaches the screen under its name and with what it is about: the window, the pane
/// and the layout that it came with, and nothing else.
pub proof fn changes_keep_what_they_say(w: String, p: String, l: String)
    ensures
        topology_of(TopologyEvent::WindowAdd { window_id: w }) == (TopologyView {
            kind: "windowAdd"@,
            tab_id: None,
            window_id: Some(w@),
            pane_id: None,
            layout: None,
        }),
        topology_of(TopologyEvent::WindowClose { window_id: w }) == (TopologyView {
            kind: "windowClose"@,
            tab_id: None,
            window_id: Some(w@),
            pane_id: None,
            layout: None,
        }),
        topology_of(TopologyEvent::LayoutChange { window_id: w, layout: l }) == (TopologyView {
            kind: "layoutChange"@,
            tab_id: None,
            window_id: Some(w@),
            pane_id: None,
            layout: Some(l@),
        }),
        topology_of(TopologyEvent::ActivePaneChanged { window_id: w, pane_id: p }) == (
        TopologyView {
            kind: "activePaneChanged"@,
            tab_id: None,
            window_id: Some(w@),
            pane_id: Some(p@),
            layout: None,
        }),
        topology_of(TopologyEvent::PaneModeChanged { pane_id: p }) == (TopologyView {
            kind: "paneModeChanged"@,
            tab_id: None,
            window_id: None,
            pane_id: Some(p@),
            layout: None,
        }),
        exit_of(Some(l@)).kind == "exit"@ && exit_of(Some(l@)).layout == Some(l@),
{
}

/// A change is the last thing that is sent, behind all the output that was held back, of which
/// nothing stays; output alone is held back and sent later; and only the end of the client,
/// or of what feeds the forwarder, ends it.
pub proof fn changes_are_sent_last(pending: Seq<(Seq<char>, Seq<u8>)>, ev: ForwardEvent)
    ensures
        ({
            let (after, sent, ended) = forwarded(pending, ev);
            &&& (ev matches ForwardEvent::Received(Outbound::Topology(t)) ==> after.len() == 0
                && sent.len() > 0 && sent.last() == MessageView::Topology(topology_of(t))
                && sent.drop_last() == flushed(pending) && !ended)
            &&& (ev matches ForwardEvent::Received(Outbound::Exit { reason }) ==> after.len() == 0
                && sent.len() > 0 && sent.last() == MessageView::Topology(
                exit_of(seqs::opt_view(reason)),
            ) && sent.drop_last() == flushed(pending) && ended)
            &&& ev is Timeout || ev is Disconnected ==> after.len() == 0 && sent == flushed(pending)
            &&& ev is Timeout ==> !ended
            &&& ev is Disconnected ==> ended
            &&& (ev matches ForwardEvent::Received(Outbound::PaneData { pane_id, bytes_b64 })
                ==> !ended && (b64::b64_decode(bytes_b64@) matches Some(bytes) ==> pending.len()
                == 0 && b64::can_encode(bytes.len()) ==> sent.len() == 0 && after == seq![
                (pane_id@, bytes),
            ]))
        }),
{
    let (after, sent, ended) = forwarded(pending, ev);
    if let ForwardEvent::Received(Outbound::Topology(t)) = ev {
        assert(sent.drop_last() =~= flushed(pending));
    }
    if let ForwardEvent::Received(Outbound::Exit { reason }) = ev {
        assert(sent.drop_last() =~= flushed(pending));
    }
    if let ForwardEvent::Received(Outbound::PaneData { pane_id, bytes_b64 }) = ev {
        if let Some(bytes) = b64::b64_decode(bytes_b64@) {
            if pending.len() == 0 && b64::can_encode(bytes.len()) {
                assert(after =~= seq![(pane_id@, bytes)]);
            }
        }
    }
}

/// One message is sent for each pane that has output, in the order of the panes.
pub proof fn one_message_for_each_pane(pending: Seq<(Seq<char>, Seq<u8>)>, i: int)
    requires
        forall|k: int| 0 <= k < pending.len() ==> (#[trigger] pending[k]).1.len() > 0,
        0 <= i < pending.len(),
    ensures
        flushed(pending).len() == pending.len(),
        flushed(pending)[i] == MessageView::PaneData(pending[i].0, b64::b64_encode(pending[i].1)),
    decreases pending.len(),
{
    let head = pending.drop_last();
    assert(pending[pending.len() - 1].1.len() > 0);
    assert forall|k: int| 0 <= k < head.len() implies (#[trigger] head[k]).1.len() > 0 by {
        assert(head[k] == pending[k]);
    }
    if head.len() > 0 {
        one_message_for_each_pane(
            head,
            if i < head.len() {
                i
            } else {
                0
            },
        );
        if i < head.len() {
            assert(head[i] == pending[i]);
        }
    } else {
        assert(flushed(head).len() == 0);
    }
}

/// Output is gathered for sixteen milliseconds, counted from when it was last sent.
pub proof fn gathering_ends_after_its_time(elapsed: u64, r: Option<u64>)
    requires
        call_ensures(gather_ms, (elapsed,), r),
    ensures
        r matches Some(left) ==> left > 0 && elapsed + left == 16,
        r is None <==> elapsed >= 16,
{
}

} // verus!
