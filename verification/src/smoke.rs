//! A trial of a whole session, from its first tab to its end: what each leg of it must show.
use crate::b64;
use crate::bridge;
use crate::engine::Outbound;
use crate::manager;
use crate::manager::CloseTabResult;
use crate::manager::CockpitState;
use crate::manager::CreateTabResult;
use crate::manager::PaneStatusPayload;
use crate::manager::PaneView;
use crate::manager::PayloadView;
use crate::manager::TabView;
use crate::seqs;
use crate::text;
use vstd::prelude::*;

verus! {

/// What a pane is made to print.
pub const TOKEN: &'static str = "COCKPIT_SMOKE_OK";

/// The output of a pane holds what it was made to print.
pub open spec fn shows_token(out: Outbound) -> bool {
    match out {
        Outbound::PaneData { bytes_b64, .. } => bridge::has_bytes(
            bridge::bytes_of(bytes_b64@),
            vstd::utf8::encode_utf8("COCKPIT_SMOKE_OK"@),
        ),
        _ => false,
    }
}

/// Whether the output of a pane holds what it was made to print.
pub fn saw_token(out: &Outbound) -> (r: bool)
    ensures
        r == shows_token(*out),
{
    match out {
        Outbound::PaneData { bytes_b64, .. } => {
            let bytes = match b64::decode(bytes_b64.as_str()) {
                Some(bytes) => bytes,
                None => Vec::new(),
            };
            assert(bytes@ =~= bridge::bytes_of(bytes_b64@));
            bridge::holds_bytes(&bytes, TOKEN.as_bytes())
        },
        _ => false,
    }
}

// ── Tabs and panes ──────────────────────────────────────────────────────────────────────
/// One of `panes` has the id `pane`.
pub open spec fn has_pane(panes: Seq<PaneView>, pane: Seq<char>) -> bool {
    exists|i: int| 0 <= i < panes.len() && (#[trigger] panes[i]).pane_id == pane
}

/// The first of `panes` with the id `pane` is dead; true too where there is none.
pub open spec fn dead_or_gone(panes: Seq<PaneView>, pane: Seq<char>) -> bool
    decreases panes.len(),
{
    if panes.len() == 0 {
        true
    } else if panes[0].pane_id == pane {
        panes[0].dead
    } else {
        dead_or_gone(panes.drop_first(), pane)
    }
}

/// One of `tabs` has the id `tab`.
pub open spec fn has_tab(tabs: Seq<TabView>, tab: Seq<char>) -> bool {
    exists|i: int| 0 <= i < tabs.len() && (#[trigger] tabs[i]).tab_id == tab
}

/// Some pane was sent as dead under the id `pane`.
pub open spec fn sent_dead(sent: Seq<PayloadView>, pane: Seq<char>) -> bool {
    exists|i: int|
        0 <= i < sent.len() && (#[trigger] sent[i]).pane_id == pane && sent[i].status == "DEAD"@
}

fn lists_pane(state: &CockpitState, pane: &str) -> (r: bool)
    ensures
        r == has_pane(state@.panes, pane@),
{
    let ghost all = state@.panes;
    let mut i: usize = 0;
    while i < state.panes.len()
        invariant
            i <= state.panes@.len(),
            all == manager::pane_views(state.panes@),
            forall|j: int| 0 <= j < i ==> (#[trigger] all[j]).pane_id != pane@,
        decreases state.panes@.len() - i,
    {
        assert(all[i as int] == state.panes@[i as int]@);
        if text::same(state.panes[i].pane_id.as_str(), pane) {
            return true;
        }
        i += 1;
    }
    false
}

fn lists_tab(state: &CockpitState, tab: &str) -> (r: bool)
    ensures
        r == has_tab(state@.tabs, tab@),
{
    let ghost all = state@.tabs;
    let mut i: usize = 0;
    while i < state.tabs.len()
        invariant
            i <= state.tabs@.len(),
            all == manager::tab_views(state.tabs@),
            forall|j: int| 0 <= j < i ==> (#[trigger] all[j]).tab_id != tab@,
        decreases state.tabs@.len() - i,
    {
        assert(all[i as int] == state.tabs@[i as int]@);
        if text::same(state.tabs[i].tab_id.as_str(), tab) {
            return true;
        }
        i += 1;
    }
    false
}

// ── Legs ────────────────────────────────────────────────────────────────────────────────
pub open spec fn count(fault: bool) -> nat {
    if fault {
        1
    } else {
        0
    }
}

/// The faults of a state after a tab was made and its pane split: there must be two tabs,
/// and the new pane.
pub fn state_faults(state: &Result<CockpitState, String>, split_pane: &str) -> (r: u32)
    ensures
        r == (match state {
            Ok(s) => count(s@.tabs.len() < 2) + count(!has_pane(s@.panes, split_pane@)),
            Err(_) => 1,
        }),
{
    match state {
        Ok(s) => {
            let few: u32 = if s.tabs.len() < 2 {
                1
            } else {
                0
            };
            if lists_pane(s, split_pane) {
                few
            } else {
                few + 1
            }
        },
        Err(_) => 1,
    }
}

/// Whether a poll sent the pane as dead.
pub fn reported_dead(sent: &[PaneStatusPayload], pane: &str) -> (r: bool)
    ensures
        r == sent_dead(manager::payload_views(sent@), pane@),
{
    let ghost all = manager::payload_views(sent@);
    let mut i: usize = 0;
    while i < sent.len()
        invariant
            i <= sent@.len(),
            all == manager::payload_views(sent@),
            forall|j: int|
                0 <= j < i ==> !((#[trigger] all[j]).pane_id == pane@ && all[j].status == "DEAD"@),
        decreases sent@.len() - i,
    {
        assert(all[i as int] == sent@[i as int]@);
        if text::same(sent[i].pane_id.as_str(), pane) && text::same(
            sent[i].status.as_str(),
            "DEAD",
        ) {
            return true;
        }
        i += 1;
    }
    false
}

/// Whether the state shows the pane as dead, or does not show it any more.
pub fn is_dead_or_gone(state: &Result<CockpitState, String>, pane: &str) -> (r: bool)
    ensures
        r == (match state {
            Ok(s) => dead_or_gone(s@.panes, pane@),
            Err(_) => false,
        }),
{
    match state {
        Ok(s) => {
            let ghost all = s@.panes;
            let mut i: usize = 0;
            assert(all.skip(0) =~= all);
            while i < s.panes.len()
                invariant
                    i <= s.panes@.len(),
                    all == manager::pane_views(s.panes@),
                    *state == Ok::<CockpitState, String>(*s),
                    dead_or_gone(all, pane@) == dead_or_gone(all.skip(i as int), pane@),
                decreases s.panes@.len() - i,
            {
                assert(all.skip(i as int)[0] == s.panes@[i as int]@);
                assert(all.skip(i as int).drop_first() =~= all.skip(i + 1));
                if text::same(s.panes[i].pane_id.as_str(), pane) {
                    return s.panes[i].dead;
                }
                i += 1;
            }
            true
        },
        Err(_) => false,
    }
}

/// The faults of making a tab after the server was killed, where `made` says which tab was
/// made and whether that took attaching anew, which it must, and `state` is the state after
/// it, which must show the tab.
pub fn reconnect_faults(
    made: &Result<(CreateTabResult, bool), String>,
    state: &Result<CockpitState, String>,
) -> (r: u32)
    ensures
        r == (match made {
            Ok((tab, reattached)) => count(!*reattached) + count(
                match state {
                    Ok(s) => !has_tab(s@.tabs, tab.tab_id@),
                    Err(_) => true,
                },
            ),
            Err(_) => 1,
        }),
{
    match made {
        Ok((tab, reattached)) => {
            let kept: u32 = if *reattached {
                0
            } else {
                1
            };
            let shown = match state {
                Ok(s) => lists_tab(s, tab.tab_id.as_str()),
                Err(_) => false,
            };
            if shown {
                kept
            } else {
                kept + 1
            }
        },
        Err(_) => 1,
    }
}

/// The faults of closing: a window that is not there must count as closed, and a window
/// that is given by its index must be refused.
pub fn close_faults(
    absent: &Result<CloseTabResult, String>,
    by_index: &Result<CloseTabResult, String>,
) -> (r: u32)
    ensures
        r == count(!(absent matches Ok(c) && c.ok)) + count(by_index is Ok),
{
    let open: u32 = match absent {
        Ok(c) => if c.ok {
            0
        } else {
            1
        },
        Err(_) => 1,
    };
    match by_index {
        Ok(_) => open + 1,
        Err(_) => open,
    }
}

/// The windows of a state, to be closed one by one; none where there is no state.
pub fn windows_of(state: &Result<CockpitState, String>) -> (r: Vec<String>)
    ensures
        seqs::views(r@) == (match state {
            Ok(s) => s@.tabs.map_values(|t: TabView| t.tmux_window_id),
            Err(_) => Seq::empty(),
        }),
{
    let mut out: Vec<String> = Vec::new();
    assert(seqs::views(out@) =~= Seq::empty());
    if let Ok(s) = state {
        let ghost all = s@.tabs.map_values(|t: TabView| t.tmux_window_id);
        let mut i: usize = 0;
        while i < s.tabs.len()
            invariant
                i <= s.tabs@.len(),
                all == s@.tabs.map_values(|t: TabView| t.tmux_window_id),
                seqs::views(out@) == all.take(i as int),
            decreases s.tabs@.len() - i,
        {
            let window = s.tabs[i].tmux_window_id.clone();
            let ghost before = out@;
            out.push(window);
            assert(seqs::views(out@) =~= seqs::views(before).push(window@));
            assert(all.take(i + 1) =~= all.take(i as int).push(window@));
            i += 1;
        }
        assert(all.take(all.len() as int) =~= all);
    }
    out
}

/// The faults of making a tab after all were closed: there must be one tab, not two.
pub fn recreate_faults(
    made: &Result<CreateTabResult, String>,
    state: &Result<CockpitState, String>,
) -> (r: u32)
    ensures
        r == count(!(made is Ok && (state matches Ok(s) && s@.tabs.len() == 1))),
{
    let one = match state {
        Ok(s) => s.tabs.len() == 1,
        Err(_) => false,
    };
    if made.is_ok() && one {
        0
    } else {
        1
    }
}

/// The exit code of a trial with this many faults.
pub fn exit_code(faults: u32) -> (r: i32)
    ensures
        r == (if faults == 0 {
            0int
        } else {
            1
        }),
{
    if faults == 0 {
        0
    } else {
        1
    }
}

/// A pane counts as gone exactly if no pane has its id, or the first that has it is dead.
pub proof fn gone_means_dead_or_unlisted(panes: Seq<PaneView>, pane: Seq<char>, i: int)
    ensures
        !has_pane(panes, pane) ==> dead_or_gone(panes, pane),
        0 <= i < panes.len() && panes[i].pane_id == pane && (forall|j: int|
            0 <= j < i ==> (#[trigger] panes[j]).pane_id != pane) ==> dead_or_gone(panes, pane)
            == panes[i].dead,
    decreases panes.len(),
{
    if panes.len() > 0 {
        let rest = panes.drop_first();
        gone_means_dead_or_unlisted(rest, pane, i - 1);
        assert(panes[0] == panes[0]);
        if !has_pane(panes, pane) {
            assert(panes[0].pane_id != pane);
            assert(!has_pane(rest, pane)) by {
                if has_pane(rest, pane) {
                    let k = choose|k: int| 0 <= k < rest.len() && (#[trigger] rest[k]).pane_id == pane;
                    assert(panes[k + 1].pane_id == pane);
                }
            }
        }
        if 0 < i < panes.len() && panes[i].pane_id == pane && (forall|j: int|
            0 <= j < i ==> (#[trigger] panes[j]).pane_id != pane) {
            assert(panes[0].pane_id != pane);
            assert(rest[i - 1] == panes[i]);
            assert forall|j: int| 0 <= j < i - 1 implies (#[trigger] rest[j]).pane_id != pane by {
                assert(rest[j] == panes[j + 1]);
            }
        }
    }
}

} // verus!
