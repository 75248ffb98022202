//! The runs of teams: what their files say of them, and which of them may be removed.
//!
//! A file that is missing or broken costs no more than what it would have said.
use crate::json;
use crate::json::Json;
use crate::json::JsonView;
use crate::paths;
use crate::seqs;
use crate::sort;
use crate::text;
use vstd::prelude::*;

verus! {

/// A member of a team, the lead among them.
#[derive(Clone, Debug, PartialEq)]
pub struct TeamMember {
    pub agent_id: String,
    pub name: String,
    pub agent_type: String,
    /// `live` in a pane, `headless` within the lead, else the backend.
    pub mode: String,
    pub backend_type: String,
    pub tmux_pane_id: Option<String>,
    pub model: Option<String>,
    pub cwd: Option<String>,
    pub color: Option<String>,
    /// What the member was asked to do, unless that is blank.
    pub prompt: Option<String>,
    /// The prompt in short.
    pub task_summary: Option<String>,
    pub is_active: bool,
    pub is_lead: bool,
}

#[verifier::ext_equal]
pub struct MemberView {
    pub agent_id: Seq<char>,
    pub name: Seq<char>,
    pub agent_type: Seq<char>,
    pub mode: Seq<char>,
    pub backend_type: Seq<char>,
    pub tmux_pane_id: Option<Seq<char>>,
    pub model: Option<Seq<char>>,
    pub cwd: Option<Seq<char>>,
    pub color: Option<Seq<char>>,
    pub prompt: Option<Seq<char>>,
    pub task_summary: Option<Seq<char>>,
    pub is_active: bool,
    pub is_lead: bool,
}

impl View for TeamMember {
    type V = MemberView;

    open spec fn view(&self) -> MemberView {
        MemberView {
            agent_id: self.agent_id@,
            name: self.name@,
            agent_type: self.agent_type@,
            mode: self.mode@,
            backend_type: self.backend_type@,
            tmux_pane_id: seqs::opt_view(self.tmux_pane_id),
            model: seqs::opt_view(self.model),
            cwd: seqs::opt_view(self.cwd),
            color: seqs::opt_view(self.color),
            prompt: seqs::opt_view(self.prompt),
            task_summary: seqs::opt_view(self.task_summary),
            is_active: self.is_active,
            is_lead: self.is_lead,
        }
    }
}

pub open spec fn member_views(v: Seq<TeamMember>) -> Seq<MemberView> {
    v.map_values(|m: TeamMember| m@)
}

/// A run of a team.
#[derive(Clone, Debug, PartialEq)]
pub struct TeamRun {
    /// The name of the directory of the run.
    pub session_id: String,
    pub name: String,
    pub lead_agent_id: String,
    /// In milliseconds since the epoch.
    pub created_at: Option<u64>,
    pub modified_at: Option<u64>,
    pub members: Vec<TeamMember>,
    /// How many messages wait in the inboxes.
    pub inbox_depth: usize,
    pub task_count: usize,
    /// Why the run could not be read.
    pub parse_error: Option<String>,
}

#[verifier::ext_equal]
pub struct RunView {
    pub session_id: Seq<char>,
    pub name: Seq<char>,
    pub lead_agent_id: Seq<char>,
    pub created_at: Option<u64>,
    pub modified_at: Option<u64>,
    pub members: Seq<MemberView>,
    pub inbox_depth: nat,
    pub task_count: nat,
    pub parse_error: Option<Seq<char>>,
}

impl View for TeamRun {
    type V = RunView;

    open spec fn view(&self) -> RunView {
        RunView {
            session_id: self.session_id@,
            name: self.name@,
            lead_agent_id: self.lead_agent_id@,
            created_at: self.created_at,
            modified_at: self.modified_at,
            members: member_views(self.members@),
            inbox_depth: self.inbox_depth as nat,
            task_count: self.task_count as nat,
            parse_error: seqs::opt_view(self.parse_error),
        }
    }
}

pub open spec fn run_views(v: Seq<TeamRun>) -> Seq<RunView> {
    v.map_values(|r: TeamRun| r@)
}

/// What stands in the directory of the teams under one name.
#[derive(Debug)]
pub struct RunFiles {
    pub session_id: String,
    pub is_dir: bool,
    /// When the configuration was last written.
    pub modified_at: Option<u64>,
    /// The text of the configuration, or why it could not be read.
    pub config: Result<String, String>,
    /// The names of the inboxes, and what can be read of each.
    pub inboxes: Vec<(String, Option<String>)>,
    /// The names in the directory of the tasks.
    pub tasks: Vec<String>,
}

// ── Members ─────────────────────────────────────────────────────────────────────────────

/// How many characters a summary has at most.
pub const SUMMARY_MAX_CHARS: usize = 80;

pub open spec fn is_stop(c: char) -> bool {
    c == '.' || c == '!' || c == '?'
}

/// Where the first stop stands in `s`; its length where there is none.
pub open spec fn first_stop(s: Seq<char>) -> int
    decreases s.len(),
{
    if s.len() == 0 || is_stop(s[0]) {
        0
    } else {
        1 + first_stop(s.drop_first())
    }
}

/// At most `max` characters of `s`; where that is not all and there is room for it, the last
/// of them is an ellipsis.
pub open spec fn shortened(s: Seq<char>, max: int) -> Seq<char> {
    if s.len() <= max {
        s
    } else if max <= 0 {
        Seq::empty()
    } else {
        seqs::trim_end(s.take(max - 1)) + "…"@
    }
}

proof fn trim_end_len(s: Seq<char>)
    ensures
        seqs::trim_end(s).len() <= s.len(),
    decreases s.len(),
{
    if s.len() > 0 && seqs::is_white(s.last()) {
        trim_end_len(s.drop_last());
    }
}

/// What is shortened is never longer than it may be, and is left alone where it is short.
pub proof fn shortened_is_short(s: Seq<char>, max: nat)
    ensures
        shortened(s, max as int).len() <= max,
        s.len() <= max ==> shortened(s, max as int) == s,
{
    if s.len() > max && max > 0 {
        trim_end_len(s.take(max - 1));
        reveal_strlit("…");
    }
}

/// The first sentence of the first line, or that line where no sentence ends in it, in
/// short. A stop at the very beginning ends no sentence.
pub open spec fn summary_of(prompt: Seq<char>) -> Option<Seq<char>> {
    let line = seqs::trim(seqs::split(prompt, '\n')[0]);
    let k = first_stop(line);
    if line.len() == 0 {
        None
    } else if 0 < k < line.len() {
        Some(shortened(seqs::trim(line.take(k + 1)), 80))
    } else {
        Some(shortened(line, 80))
    }
}

/// At most `max` characters of `s`, with an ellipsis for the last where it was cut.
pub fn truncate_chars(s: &str, max: usize) -> (r: String)
    ensures
        r@ == shortened(s@, max as int),
        r@.len() <= max,
{
    proof {
        shortened_is_short(s@, max as nat);
    }
    let cs = text::chars_of(s);
    if cs.len() <= max {
        return s.to_owned();
    }
    if max == 0 {
        let out = String::new();
        assert(out@ =~= Seq::empty());
        return out;
    }
    let head = text::string_of(&cs, 0, max - 1);
    assert(head@ =~= s@.take(max - 1));
    let mut out = text::trim_end(head.as_str());
    out.append("…");
    out
}

proof fn first_stop_is(s: Seq<char>, k: int)
    requires
        0 <= k <= s.len(),
        forall|j: int| 0 <= j < k ==> !is_stop(#[trigger] s[j]),
        k < s.len() ==> is_stop(s[k]),
    ensures
        first_stop(s) == k,
    decreases s.len(),
{
    if s.len() > 0 && !is_stop(s[0]) {
        let t = s.drop_first();
        assert forall|j: int| 0 <= j < k - 1 implies !is_stop(#[trigger] t[j]) by {
            assert(t[j] == s[j + 1]);
        }
        first_stop_is(t, k - 1);
    }
}

/// A prompt in short, for a label.
pub fn derive_task_summary(prompt: &str) -> (r: Option<String>)
    ensures
        seqs::opt_view(r) == summary_of(prompt@),
{
    let lines = text::split(prompt, '\n');
    proof {
        seqs::index_of_bounds(prompt@, '\n');
        assert(seqs::split(prompt@, '\n').len() > 0);
    }
    assert(seqs::views(lines@)[0] == lines@[0]@);
    let line = text::trim(lines[0].as_str());
    let cs = text::chars_of(line.as_str());
    if cs.len() == 0 {
        return None;
    }
    let mut k: usize = 0;
    while k < cs.len() && !(cs[k] == '.' || cs[k] == '!' || cs[k] == '?')
        invariant
            k <= cs@.len(),
            forall|j: int| 0 <= j < k ==> !is_stop(#[trigger] cs@[j]),
        decreases cs@.len() - k,
    {
        k += 1;
    }
    proof {
        first_stop_is(cs@, k as int);
    }
    if k > 0 && k < cs.len() {
        let sentence = text::string_of(&cs, 0, k + 1);
        assert(sentence@ =~= line@.take(k + 1));
        Some(truncate_chars(text::trim(sentence.as_str()).as_str(), SUMMARY_MAX_CHARS))
    } else {
        Some(truncate_chars(line.as_str(), SUMMARY_MAX_CHARS))
    }
}

pub open spec fn or_empty(o: Option<Seq<char>>) -> Seq<char> {
    match o {
        Some(s) => s,
        None => Seq::empty(),
    }
}

pub open spec fn mode_of(backend: Seq<char>) -> Seq<char> {
    if backend == "tmux"@ {
        "live"@
    } else if backend == "in-process"@ {
        "headless"@
    } else {
        backend
    }
}

/// A prompt without the white space around it, unless nothing is left.
pub open spec fn prompt_of(raw: Option<Seq<char>>) -> Option<Seq<char>> {
    match raw {
        Some(p) => if seqs::trim(p).len() == 0 {
            None
        } else {
            Some(seqs::trim(p))
        },
        None => None,
    }
}

/// The member that an entry of the configuration describes.
pub open spec fn member_of(m: JsonView, lead: Seq<char>) -> MemberView {
    let agent_id = or_empty(m.str_field("agentId"@));
    let backend = match m.str_field("backendType"@) {
        Some(b) => b,
        None => "in-process"@,
    };
    let is_lead = agent_id.len() > 0 && agent_id == lead;
    let prompt = prompt_of(m.str_field("prompt"@));
    MemberView {
        agent_id,
        name: or_empty(m.str_field("name"@)),
        agent_type: or_empty(m.str_field("agentType"@)),
        mode: mode_of(backend),
        backend_type: backend,
        tmux_pane_id: m.str_field("tmuxPaneId"@),
        model: m.str_field("model"@),
        cwd: m.str_field("cwd"@),
        color: m.str_field("color"@),
        prompt,
        task_summary: match prompt {
            Some(p) => summary_of(p),
            None => None,
        },
        is_active: match m.bool_field("isActive"@) {
            Some(b) => b,
            None => is_lead,
        },
        is_lead,
    }
}

fn owned_field(m: &Json, key: &str) -> (r: Option<String>)
    ensures
        seqs::opt_view(r) == m@.str_field(key@),
{
    match m.str_field(key) {
        Some(s) => Some(s.to_owned()),
        None => None,
    }
}

fn field_or_empty(m: &Json, key: &str) -> (r: String)
    ensures
        r@ == or_empty(m@.str_field(key@)),
{
    match m.str_field(key) {
        Some(s) => s.to_owned(),
        None => {
            let empty = String::new();
            assert(empty@ =~= Seq::empty());
            empty
        },
    }
}

/// The member that an entry of the configuration describes, where `lead_agent_id` is the
/// lead. What is missing or of another kind than expected is left out.
pub fn read_member(m: &Json, lead_agent_id: &str) -> (r: TeamMember)
    ensures
        r@ == member_of(m@, lead_agent_id@),
{
    let agent_id = field_or_empty(m, "agentId");
    let backend_type = match m.str_field("backendType") {
        Some(b) => b.to_owned(),
        None => "in-process".to_owned(),
    };
    let mode = if text::same(backend_type.as_str(), "tmux") {
        "live".to_owned()
    } else if text::same(backend_type.as_str(), "in-process") {
        "headless".to_owned()
    } else {
        backend_type.clone()
    };
    let prompt: Option<String> = match m.str_field("prompt") {
        Some(p) => {
            let t = text::trim(p);
            if text::chars_of(t.as_str()).len() == 0 {
                None
            } else {
                Some(t)
            }
        },
        None => None,
    };
    let task_summary = match &prompt {
        Some(p) => derive_task_summary(p.as_str()),
        None => None,
    };
    let is_lead = text::chars_of(agent_id.as_str()).len() > 0 && text::same(
        agent_id.as_str(),
        lead_agent_id,
    );
    let is_active = match m.bool_field("isActive") {
        Some(b) => b,
        None => is_lead,
    };
    TeamMember {
        agent_id,
        name: field_or_empty(m, "name"),
        agent_type: field_or_empty(m, "agentType"),
        mode,
        backend_type,
        tmux_pane_id: owned_field(m, "tmuxPaneId"),
        model: owned_field(m, "model"),
        cwd: owned_field(m, "cwd"),
        color: owned_field(m, "color"),
        prompt,
        task_summary,
        is_active,
        is_lead,
    }
}

// ── Runs ────────────────────────────────────────────────────────────────────────────────

/// The members that the configuration lists.
pub open spec fn members_of(cfg: JsonView, lead: Seq<char>) -> Seq<MemberView> {
    match cfg.array_field("members"@) {
        Some(ms) => ms.map_values(|m: JsonView| member_of(m, lead)),
        None => Seq::empty(),
    }
}

fn read_members(cfg: &Json, lead: &str) -> (r: Vec<TeamMember>)
    ensures
        member_views(r@) == members_of(cfg@, lead@),
{
    let mut out: Vec<TeamMember> = Vec::new();
    assert(member_views(out@) =~= Seq::empty());
    if let Some(ms) = cfg.array_field("members") {
        let ghost all = json::items_view(ms@);
        let ghost want = members_of(cfg@, lead@);
        proof {
            json::items_view_at(ms@);
        }
        let mut i: usize = 0;
        assert(member_views(out@) =~= want.take(0));
        while i < ms.len()
            invariant
                i <= ms@.len(),
                all == json::items_view(ms@),
                all.len() == ms@.len(),
                forall|j: int| 0 <= j < ms@.len() ==> all[j] == (#[trigger] ms@[j])@,
                want == all.map_values(|m: JsonView| member_of(m, lead@)),
                member_views(out@) == want.take(i as int),
            decreases ms@.len() - i,
        {
            let ghost before = out@;
            let m = read_member(&ms[i], lead);
            proof {
                assert(all[i as int] == ms@[i as int]@);
                assert(want[i as int] == m@);
                assert(want.take(i + 1) =~= want.take(i as int).push(m@));
            }
            out.push(m);
            assert(member_views(out@) =~= member_views(before).push(m@));
            i += 1;
        }
        assert(want.take(want.len() as int) =~= want);
    }
    out
}

/// How many messages an inbox holds: a file that is not named as one, cannot be read or
/// holds no list holds none.
pub open spec fn messages_in(inbox: (String, Option<String>)) -> nat {
    if paths::stem_with_extension(inbox.0@, "json"@) is Some {
        match inbox.1 {
            Some(t) => match json::json_parse(t@) {
                Ok(JsonView::Array(msgs)) => msgs.len(),
                _ => 0,
            },
            None => 0,
        }
    } else {
        0
    }
}

/// How many messages the inboxes hold together.
pub open spec fn messages(inboxes: Seq<(String, Option<String>)>) -> nat
    decreases inboxes.len(),
{
    if inboxes.len() == 0 {
        0
    } else {
        messages(inboxes.drop_last()) + messages_in(inboxes.last())
    }
}

/// A count, as far as it can be written.
pub open spec fn counted(n: nat) -> nat {
    if n <= usize::MAX {
        n
    } else {
        usize::MAX as nat
    }
}

fn inbox_len(inbox: &(String, Option<String>)) -> (r: usize)
    ensures
        r as nat == messages_in(*inbox),
{
    if paths::file_stem(inbox.0.as_str(), "json").is_none() {
        return 0;
    }
    match &inbox.1 {
        None => 0,
        Some(t) => match json::parse(t.as_str()) {
            Err(_) => 0,
            Ok(v) => match v.as_array() {
                Some(msgs) => {
                    proof {
                        json::items_view_at(msgs@);
                    }
                    msgs.len()
                },
                None => 0,
            },
        },
    }
}

fn inbox_depth(inboxes: &[(String, Option<String>)]) -> (r: usize)
    ensures
        r as nat == counted(messages(inboxes@)),
{
    let mut total: usize = 0;
    let mut i: usize = 0;
    assert(inboxes@.take(0) =~= Seq::empty());
    while i < inboxes.len()
        invariant
            i <= inboxes@.len(),
            total as nat == counted(messages(inboxes@.take(i as int))),
        decreases inboxes@.len() - i,
    {
        proof {
            assert(inboxes@.take(i + 1).drop_last() =~= inboxes@.take(i as int));
            assert(inboxes@.take(i + 1).last() == inboxes@[i as int]);
        }
        let n = inbox_len(&inboxes[i]);
        total = match total.checked_add(n) {
            Some(t) => t,
            None => usize::MAX,
        };
        i += 1;
    }
    assert(inboxes@.take(inboxes@.len() as int) =~= inboxes@);
    total
}

/// How many of the names are tasks: those that do not begin with a dot.
pub open spec fn tasks_among(names: Seq<Seq<char>>) -> nat
    decreases names.len(),
{
    if names.len() == 0 {
        0
    } else {
        tasks_among(names.drop_last()) + (if names.last().len() > 0 && names.last()[0] == '.' {
            0nat
        } else {
            1
        })
    }
}

fn task_count(names: &[String]) -> (r: usize)
    ensures
        r as nat == tasks_among(seqs::views(names@)),
{
    let ghost all = seqs::views(names@);
    let mut n: usize = 0;
    let mut i: usize = 0;
    assert(all.take(0) =~= Seq::empty());
    while i < names.len()
        invariant
            n <= i <= names@.len(),
            all == seqs::views(names@),
            n as nat == tasks_among(all.take(i as int)),
        decreases names@.len() - i,
    {
        proof {
            assert(all.take(i + 1).drop_last() =~= all.take(i as int));
            assert(all.take(i + 1).last() == names@[i as int]@);
        }
        let cs = text::chars_of(names[i].as_str());
        if !(cs.len() > 0 && cs[0] == '.') {
            n += 1;
        }
        i += 1;
    }
    assert(all.take(all.len() as int) =~= all);
    n
}

/// A run of which nothing could be read but its name and age.
pub open spec fn broken_run(f: RunFiles, error: Seq<char>) -> RunView {
    RunView {
        session_id: f.session_id@,
        name: f.session_id@,
        lead_agent_id: Seq::empty(),
        created_at: None,
        modified_at: f.modified_at,
        members: Seq::empty(),
        inbox_depth: 0,
        task_count: 0,
        parse_error: Some(error),
    }
}

/// The run whose configuration is `cfg`.
pub open spec fn run_with(f: RunFiles, cfg: JsonView) -> RunView {
    let lead = or_empty(cfg.str_field("leadAgentId"@));
    RunView {
        session_id: f.session_id@,
        name: match cfg.str_field("name"@) {
            Some(n) => n,
            None => f.session_id@,
        },
        lead_agent_id: lead,
        created_at: cfg.u64_field("createdAt"@),
        modified_at: f.modified_at,
        members: members_of(cfg, lead),
        inbox_depth: counted(messages(f.inboxes@)),
        task_count: tasks_among(seqs::views(f.tasks@)),
        parse_error: None,
    }
}

/// The run that the files describe.
pub open spec fn run_of(f: RunFiles) -> RunView {
    match f.config {
        Err(e) => broken_run(f, "config.json read failed: "@ + e@),
        Ok(t) => match json::json_parse(t@) {
            Err(e) => broken_run(f, "config.json invalid JSON: "@ + e),
            Ok(cfg) => run_with(f, cfg),
        },
    }
}

fn broken(f: &RunFiles, error: String) -> (r: TeamRun)
    ensures
        r@ == broken_run(*f, error@),
{
    let r = TeamRun {
        session_id: f.session_id.clone(),
        name: f.session_id.clone(),
        lead_agent_id: String::new(),
        created_at: None,
        modified_at: f.modified_at,
        members: Vec::new(),
        inbox_depth: 0,
        task_count: 0,
        parse_error: Some(error),
    };
    assert(r@ =~= broken_run(*f, error@));
    r
}

/// The run whose configuration is `cfg`.
pub fn run_from_config(f: &RunFiles, cfg: &Json) -> (r: TeamRun)
    ensures
        r@ == run_with(*f, cfg@),
{
    let lead = field_or_empty(cfg, "leadAgentId");
    let name = match cfg.str_field("name") {
        Some(n) => n.to_owned(),
        None => f.session_id.clone(),
    };
    let members = read_members(cfg, lead.as_str());
    TeamRun {
        session_id: f.session_id.clone(),
        name,
        lead_agent_id: lead,
        created_at: cfg.u64_field("createdAt"),
        modified_at: f.modified_at,
        members,
        inbox_depth: inbox_depth(f.inboxes.as_slice()),
        task_count: task_count(f.tasks.as_slice()),
        parse_error: None,
    }
}

/// The run that the files describe; one that cannot be read says why.
pub fn read_one_run(f: &RunFiles) -> (r: TeamRun)
    ensures
        r@ == run_of(*f),
{
    match &f.config {
        Err(e) => {
            let mut m = "config.json read failed: ".to_owned();
            m.append(e.as_str());
            broken(f, m)
        },
        Ok(t) => match json::parse(t.as_str()) {
            Err(e) => {
                let mut m = "config.json invalid JSON: ".to_owned();
                m.append(e.as_str());
                broken(f, m)
            },
            Ok(cfg) => run_from_config(f, &cfg),
        },
    }
}

/// The newer run comes first; of two of one age, or of no known age, the one with the
/// greater id. A run of known age is newer than one of none.
pub open spec fn newest_first() -> spec_fn(RunView, RunView) -> bool {
    |a: RunView, b: RunView|
        if a.created_at == b.created_at {
            seqs::text_le(b.session_id, a.session_id)
        } else {
            match (a.created_at, b.created_at) {
                (Some(x), Some(y)) => x > y,
                (Some(_), None) => true,
                _ => false,
            }
        }
}

fn comes_first(a: &TeamRun, b: &TeamRun) -> (r: bool)
    ensures
        r == newest_first()(a@, b@),
{
    match (a.created_at, b.created_at) {
        (Some(x), Some(y)) => if x == y {
            text::text_le(b.session_id.as_str(), a.session_id.as_str())
        } else {
            x > y
        },
        (Some(_), None) => true,
        (None, Some(_)) => false,
        (None, None) => text::text_le(b.session_id.as_str(), a.session_id.as_str()),
    }
}

/// The runs among the files: the directories that are named as sessions.
pub open spec fn runs_of(files: Seq<RunFiles>) -> Seq<RunView>
    decreases files.len(),
{
    if files.len() == 0 {
        Seq::empty()
    } else {
        let head = runs_of(files.drop_last());
        let f = files.last();
        if f.is_dir && seqs::starts_with(f.session_id@, "session-"@) {
            head.push(run_of(f))
        } else {
            head
        }
    }
}

/// The runs among the files, the newest first.
pub fn load_team_runs_at(files: &[RunFiles]) -> (r: Vec<TeamRun>)
    ensures
        run_views(r@) == sort::sorted(runs_of(files@), newest_first()),
{
    let mut runs: Vec<TeamRun> = Vec::new();
    let mut i: usize = 0;
    assert(run_views(runs@) =~= Seq::empty());
    assert(files@.take(0) =~= Seq::empty());
    while i < files.len()
        invariant
            i <= files@.len(),
            run_views(runs@) == runs_of(files@.take(i as int)),
        decreases files@.len() - i,
    {
        let ghost before = runs@;
        proof {
            assert(files@.take(i + 1).drop_last() =~= files@.take(i as int));
            assert(files@.take(i + 1).last() == files@[i as int]);
        }
        if files[i].is_dir && text::starts_with(files[i].session_id.as_str(), "session-") {
            let run = read_one_run(&files[i]);
            runs.push(run);
            assert(run_views(runs@) =~= run_views(before).push(run@));
        }
        i += 1;
    }
    assert(files@.take(files@.len() as int) =~= files@);
    let ghost order = |a: TeamRun, b: TeamRun| newest_first()(a@, b@);
    proof {
        sort::sorted_map(runs@, |r: TeamRun| r@, order, newest_first());
    }
    sort::sort_by(runs, comes_first, Ghost(order))
}

// ── Cleaning up ─────────────────────────────────────────────────────────────────────────

/// The name of a session's directory, which leads nowhere else.
pub open spec fn is_session_id(id: Seq<char>) -> bool {
    seqs::starts_with(id, "session-"@) && id.len() > 8 && !id.contains('/') && !id.contains('\\')
        && !seqs::has_text(id, ".."@) && !id.contains('\0')
}

/// Whether `id` is the name of a session's directory, which leads nowhere else.
pub fn valid_session_id(id: &str) -> (r: bool)
    ensures
        r == is_session_id(id@),
{
    let cs = text::chars_of(id);
    let mut i: usize = 0;
    while i < cs.len()
        invariant
            i <= cs@.len(),
            cs@ == id@,
            forall|j: int|
                0 <= j < i ==> (#[trigger] id@[j]) != '/' && id@[j] != '\\' && id@[j] != '\0',
        decreases cs@.len() - i,
    {
        if cs[i] == '/' || cs[i] == '\\' || cs[i] == '\0' {
            assert(id@[i as int] == '/' || id@[i as int] == '\\' || id@[i as int] == '\0');
            return false;
        }
        i += 1;
    }
    text::starts_with(id, "session-") && cs.len() > 8 && !text::has_text(id, "..")
}

/// For how many nanoseconds a run is left alone after its configuration was last written: ten
/// minutes, long enough for a session that is still writing.
pub const FRESH_NS: u128 = 600_000_000_000;

/// Whether a configuration of this age, in nanoseconds, is fresh: its session may still
/// write. One of no known age is not.
pub fn is_fresh(age: Option<u128>, fresh: u128) -> (r: bool)
    ensures
        r == (age matches Some(a) && a < fresh),
{
    match age {
        Some(a) => a < fresh,
        None => false,
    }
}

/// What became of the run `id`: `gone` tells whether it was removed. It may have been only
/// where its id is valid and its configuration was not fresh.
pub open spec fn is_handled<A: Fn(&str) -> Option<u128>, R: Fn(&str) -> bool>(
    id: Seq<char>,
    age: A,
    fresh: u128,
    remove: R,
    gone: bool,
) -> bool {
    if !is_session_id(id) {
        !gone
    } else {
        exists|s: &str, a: Option<u128>|
            #![trigger call_ensures(age, (s,), a)]
            s@ == id && call_ensures(age, (s,), a) && (if a matches Some(n) && n < fresh {
                !gone
            } else {
                exists|t: &str| t@ == id && #[trigger] call_ensures(remove, (t,), gone)
            })
    }
}

/// The members of `ids` whose mark is set, in their order.
pub open spec fn marked(ids: Seq<Seq<char>>, marks: Seq<bool>) -> Seq<Seq<char>>
    decreases ids.len(),
{
    if ids.len() == 0 {
        Seq::empty()
    } else {
        let head = marked(ids.drop_last(), marks);
        if marks[ids.len() - 1] {
            head.push(ids.last())
        } else {
            head
        }
    }
}

/// What became of the runs `ids`: those of `gone` were removed, as far as each could be.
pub open spec fn are_handled<A: Fn(&str) -> Option<u128>, R: Fn(&str) -> bool>(
    ids: Seq<Seq<char>>,
    age: A,
    fresh: u128,
    remove: R,
    gone: Seq<Seq<char>>,
) -> bool {
    exists|marks: Seq<bool>|
        #![trigger marked(ids, marks)]
        marks.len() == ids.len() && gone == marked(ids, marks) && forall|i: int|
            0 <= i < ids.len() ==> is_handled(#[trigger] ids[i], age, fresh, remove, marks[i])
}

/// Removes the runs that are named, and gives the ids of those that are gone. `age` tells
/// the age of a run's configuration in nanoseconds, and `remove` removes a run and tells
/// whether that succeeded. Neither is ever called for anything but a valid id, and `remove`
/// only for one whose configuration was just found not to be fresh.
pub fn cleanup_team_runs_at<A: Fn(&str) -> Option<u128>, R: Fn(&str) -> bool>(
    ids: &[String],
    age: A,
    fresh: u128,
    remove: R,
) -> (r: Vec<String>)
    requires
        forall|id: &str| is_session_id(id@) ==> call_requires(age, (id,)),
        forall|id: &str, a: Option<u128>|
            is_session_id(id@) && #[trigger] call_ensures(age, (id,), a) && !(a matches Some(n) && n
                < fresh) ==> call_requires(remove, (id,)),
    ensures
        are_handled(seqs::views(ids@), age, fresh, remove, seqs::views(r@)),
{
    let ghost all = seqs::views(ids@);
    let ghost mut marks: Seq<bool> = Seq::empty();
    let mut out: Vec<String> = Vec::new();
    let mut i: usize = 0;
    assert(seqs::views(out@) =~= Seq::empty());
    assert(all.take(0) =~= Seq::empty());
    while i < ids.len()
        invariant
            i <= ids@.len(),
            all == seqs::views(ids@),
            marks.len() == i,
            seqs::views(out@) == marked(all.take(i as int), marks),
            forall|id: &str| is_session_id(id@) ==> call_requires(age, (id,)),
            forall|id: &str, a: Option<u128>|
                is_session_id(id@) && #[trigger] call_ensures(age, (id,), a) && !(a matches Some(n) && n
                    < fresh) ==> call_requires(remove, (id,)),
            forall|j: int|
                0 <= j < i ==> is_handled((#[trigger] ids@[j])@, age, fresh, remove, marks[j]),
        decreases ids@.len() - i,
    {
        let ghost before = out@;
        let id = ids[i].as_str();
        let mut gone = false;
        if valid_session_id(id) {
            let a = age(id);
            if !is_fresh(a, fresh) {
                gone = remove(id);
            }
            assert(call_ensures(age, (id,), a));
        }
        assert(is_handled(id@, age, fresh, remove, gone));
        let ghost next = marks.push(gone);
        proof {
            assert(all.take(i + 1).drop_last() =~= all.take(i as int));
            assert(all.take(i + 1).last() == ids@[i as int]@);
            marked_prefix(all.take(i as int), marks, next);
        }
        if gone {
            out.push(ids[i].clone());
            assert(seqs::views(out@) =~= seqs::views(before).push(ids@[i as int]@));
        }
        proof {
            assert forall|j: int| 0 <= j < i + 1 implies is_handled(
                (#[trigger] ids@[j])@,
                age,
                fresh,
                remove,
                next[j],
            ) by {
                if j < i {
                    assert(next[j] == marks[j]);
                }
            }
            marks = next;
        }
        i += 1;
    }
    proof {
        assert(all.take(all.len() as int) =~= all);
        assert forall|j: int| 0 <= j < all.len() implies is_handled(
            #[trigger] all[j],
            age,
            fresh,
            remove,
            marks[j],
        ) by {
            assert(all[j] == ids@[j]@);
        }
        assert(seqs::views(out@) == marked(all, marks));
    }
    out
}

/// Removes the runs that are named as [`cleanup_team_runs_at`] does, but none whose
/// configuration was written in the last ten minutes.
pub fn cleanup_team_runs<A: Fn(&str) -> Option<u128>, R: Fn(&str) -> bool>(
    ids: &[String],
    age: A,
    remove: R,
) -> (r: Vec<String>)
    requires
        forall|id: &str| is_session_id(id@) ==> call_requires(age, (id,)),
        forall|id: &str, a: Option<u128>|
            is_session_id(id@) && #[trigger] call_ensures(age, (id,), a) && !(a matches Some(n) && n
                < FRESH_NS) ==> call_requires(remove, (id,)),
    ensures
        are_handled(seqs::views(ids@), age, FRESH_NS, remove, seqs::views(r@)),
{
    cleanup_team_runs_at(ids, age, FRESH_NS, remove)
}

proof fn marked_prefix(ids: Seq<Seq<char>>, a: Seq<bool>, b: Seq<bool>)
    requires
        ids.len() <= a.len(),
        ids.len() <= b.len(),
        forall|i: int| 0 <= i < ids.len() ==> a[i] == b[i],
    ensures
        marked(ids, a) == marked(ids, b),
    decreases ids.len(),
{
    if ids.len() > 0 {
        marked_prefix(ids.drop_last(), a, b);
    }
}

// ── What holds of runs ──────────────────────────────────────────────────────────────────

/// A summary is one line of at most eighty characters.
pub proof fn summary_is_a_short_line(prompt: Seq<char>)
    ensures
        summary_of(prompt) matches Some(s) ==> s.len() <= 80 && !s.contains('\n'),
{
    seqs::index_of_bounds(prompt, '\n');
    let first = seqs::split(prompt, '\n')[0];
    let k = seqs::index_of(prompt, '\n');
    assert(first =~= prompt.take(k));
    assert(!first.contains('\n'));
    let line = seqs::trim(first);
    trim_holds(first, '\n');
    let j = first_stop(line);
    if 0 < j < line.len() {
        let sentence = line.take(j + 1);
        assert(!sentence.contains('\n')) by {
            assert forall|i: int| 0 <= i < sentence.len() implies sentence[i] != '\n' by {
                assert(sentence[i] == line[i]);
            }
        }
        trim_holds(sentence, '\n');
        shortened_holds(seqs::trim(sentence));
    } else {
        shortened_holds(line);
    }
}

proof fn trim_holds(s: Seq<char>, c: char)
    requires
        !s.contains(c),
    ensures
        !seqs::trim(s).contains(c),
{
    trim_start_holds(s, c);
    trim_end_holds(seqs::trim_start(s), c);
}

proof fn trim_start_holds(s: Seq<char>, c: char)
    requires
        !s.contains(c),
    ensures
        !seqs::trim_start(s).contains(c),
    decreases s.len(),
{
    if s.len() > 0 && seqs::is_white(s[0]) {
        let t = s.drop_first();
        assert forall|i: int| 0 <= i < t.len() implies t[i] != c by {
            assert(t[i] == s[i + 1]);
        }
        trim_start_holds(t, c);
    }
}

proof fn trim_end_holds(s: Seq<char>, c: char)
    requires
        !s.contains(c),
    ensures
        !seqs::trim_end(s).contains(c),
        seqs::trim_end(s).len() <= s.len(),
    decreases s.len(),
{
    if s.len() > 0 && seqs::is_white(s.last()) {
        let t = s.drop_last();
        assert forall|i: int| 0 <= i < t.len() implies t[i] != c by {
            assert(t[i] == s[i]);
        }
        trim_end_holds(t, c);
    }
}

proof fn shortened_holds(s: Seq<char>)
    requires
        !s.contains('\n'),
    ensures
        shortened(s, 80).len() <= 80,
        !shortened(s, 80).contains('\n'),
{
    if s.len() > 80 {
        let head = s.take(79);
        assert forall|i: int| 0 <= i < head.len() implies head[i] != '\n' by {
            assert(head[i] == s[i]);
        }
        trim_end_holds(head, '\n');
        reveal_strlit("…");
        seqs::concat_holds(seqs::trim_end(head), "…"@, '\n');
    }
}

/// A run whose configuration is broken costs one row that says so; the others are listed
/// all the same.
pub proof fn broken_run_costs_one_row(files: Seq<RunFiles>, f: RunFiles)
    requires
        f.is_dir,
        seqs::starts_with(f.session_id@, "session-"@),
        f.config is Err || json::json_parse(f.config->Ok_0@) is Err,
    ensures
        runs_of(files.push(f)) == runs_of(files).push(run_of(f)),
        run_of(f).parse_error is Some,
{
    assert(files.push(f).drop_last() =~= files);
}

/// The id of a session names an entry of the directory of the sessions, and nothing else:
/// it has no separator in it and is no step up.
pub proof fn session_ids_stay_inside(id: Seq<char>)
    requires
        is_session_id(id),
    ensures
        !id.contains('/'),
        !id.contains('\\'),
        id != "."@,
        id != ".."@,
        id.len() > 0,
{
    reveal_strlit(".");
    reveal_strlit("..");
}

/// The lead is active, whether or not the configuration says so, unless it says otherwise.
pub proof fn lead_is_active(m: JsonView, lead: Seq<char>)
    ensures
        member_of(m, lead).is_lead && m.bool_field("isActive"@) != Some(false) ==> member_of(
            m,
            lead,
        ).is_active,
{
}

/// The text of a field of the configuration, where it is one.
pub open spec fn text_at(v: JsonView, key: Seq<char>) -> Option<Seq<char>> {
    match v.get(key) {
        Some(JsonView::Str(s)) => Some(s),
        _ => None,
    }
}

/// A run is what its configuration says: its name, or that of its directory where it has
/// none; its lead; when it was made; and a member for each entry of `members`, in their order.
pub proof fn runs_say_what_is_configured(f: RunFiles, cfg: JsonView, members: Seq<JsonView>)
    requires
        f.config matches Ok(t) && json::json_parse(t@) == Ok::<JsonView, Seq<char>>(cfg),
        cfg.get("members"@) == Some(JsonView::Array(members)) || (members.len() == 0 && cfg.get(
            "members"@,
        ) is None),
    ensures
        run_of(f).session_id == f.session_id@,
        run_of(f).name == (match text_at(cfg, "name"@) {
            Some(n) => n,
            None => f.session_id@,
        }),
        run_of(f).lead_agent_id == (match text_at(cfg, "leadAgentId"@) {
            Some(n) => n,
            None => Seq::empty(),
        }),
        run_of(f).created_at == (match cfg.get("createdAt"@) {
            Some(JsonView::Number(n)) => n,
            _ => None,
        }),
        run_of(f).modified_at == f.modified_at,
        run_of(f).parse_error is None,
        run_of(f).members.len() == members.len(),
        forall|i: int|
            0 <= i < members.len() ==> #[trigger] run_of(f).members[i] == member_of(
                members[i],
                run_of(f).lead_agent_id,
            ),
{
}

/// A member is what its entry says: each of its texts is the text of its own field, the lead
/// is the one whose id the configuration gives, and where the entry does not say whether the
/// member is active, the lead is and nobody else. A backend of `tmux` is a live member and
/// one of `in-process`, or none, a headless one.
pub proof fn members_say_what_is_configured(m: JsonView, lead: Seq<char>)
    ensures
        ({
            let r = member_of(m, lead);
            &&& r.agent_id == (match text_at(m, "agentId"@) {
                Some(s) => s,
                None => Seq::empty(),
            })
            &&& r.name == (match text_at(m, "name"@) {
                Some(s) => s,
                None => Seq::empty(),
            })
            &&& r.agent_type == (match text_at(m, "agentType"@) {
                Some(s) => s,
                None => Seq::empty(),
            })
            &&& r.tmux_pane_id == text_at(m, "tmuxPaneId"@)
            &&& r.model == text_at(m, "model"@)
            &&& r.cwd == text_at(m, "cwd"@)
            &&& r.color == text_at(m, "color"@)
            &&& text_at(m, "backendType"@) == Some("tmux"@) ==> r.mode == "live"@ && r.backend_type
                == "tmux"@
            &&& text_at(m, "backendType"@) is None || text_at(m, "backendType"@) == Some(
                "in-process"@,
            ) ==> r.mode == "headless"@ && r.backend_type == "in-process"@
            &&& (text_at(m, "backendType"@) matches Some(b) ==> r.backend_type == b && (b
                != "tmux"@ && b != "in-process"@ ==> r.mode == b))
            &&& r.is_lead <==> r.agent_id.len() > 0 && r.agent_id == lead
            &&& (m.get("isActive"@) matches Some(JsonView::Bool(b)) ==> r.is_active == b)
            &&& (m.get("isActive"@) is None ==> r.is_active == r.is_lead)
            &&& (text_at(m, "prompt"@) is None ==> r.prompt is None && r.task_summary is None)
            &&& (text_at(m, "prompt"@) matches Some(p) ==> if seqs::trim(p).len() == 0 {
                r.prompt is None && r.task_summary is None
            } else {
                r.prompt == Some(seqs::trim(p)) && r.task_summary == summary_of(seqs::trim(p))
            })
        }),
{
    reveal_strlit("tmux");
    reveal_strlit("in-process");
    assert("tmux"@.len() != "in-process"@.len());
}

proof fn stop_stands_at(s: Seq<char>, k: int)
    requires
        0 <= k <= s.len(),
        k < s.len() ==> s[k] == '.' || s[k] == '!' || s[k] == '?',
        forall|j: int|
            0 <= j < k ==> #[trigger] s[j] != '.' && s[j] != '!' && s[j] != '?',
    ensures
        first_stop(s) == k,
    decreases s.len(),
{
    if k > 0 {
        let t = s.drop_first();
        assert(s[0] != '.' && s[0] != '!' && s[0] != '?');
        assert forall|j: int| 0 <= j < k - 1 implies #[trigger] t[j] != '.' && t[j] != '!' && t[j]
            != '?' by {
            assert(t[j] == s[j + 1]);
        }
        stop_stands_at(t, k - 1);
    }
}

/// No character of `s` ends a sentence.
pub open spec fn has_no_stop(s: Seq<char>) -> bool {
    forall|j: int| 0 <= j < s.len() ==> #[trigger] s[j] != '.' && s[j] != '!' && s[j] != '?'
}

/// The summary of a prompt is its first sentence, with the stop that ends it, whatever
/// follows on the line or below; and its whole first line where no sentence ends in it. Both
/// hold of what takes at most eighty characters.
pub proof fn summary_is_the_first_sentence(
    sentence: Seq<char>,
    stop: char,
    more: Seq<char>,
    below: Seq<char>,
)
    requires
        sentence.len() > 0,
        sentence.len() < 80,
        has_no_stop(sentence),
        !seqs::is_white(sentence[0]),
        !seqs::is_white(sentence.last()),
        !sentence.contains('\n'),
        stop == '.' || stop == '!' || stop == '?',
        !more.contains('\n'),
        more.len() > 0 ==> !seqs::is_white(more.last()),
    ensures
        summary_of(sentence.push(stop) + more + seq!['\n'] + below) == Some(sentence.push(stop)),
        summary_of(sentence + seq!['\n'] + below) == Some(sentence),
        summary_of(sentence) == Some(sentence),
{
    let line = sentence.push(stop) + more;
    let whole = line + seq!['\n'] + below;
    seqs::concat_holds(sentence, seq![stop], '\n');
    assert(sentence + seq![stop] =~= sentence.push(stop));
    assert(!seq![stop].contains('\n'));
    seqs::concat_holds(sentence.push(stop), more, '\n');
    first_line(line, below);
    first_line(sentence, below);
    seqs::split_undoes_join(seq![sentence], '\n');
    assert(seqs::join(seq![sentence], seq!['\n']) == sentence);
    trimmed(line);
    trimmed(sentence);
    trimmed(sentence.push(stop));
    assert(line[0] == sentence[0]);
    assert(line[sentence.len() as int] == stop);
    assert forall|j: int| 0 <= j < sentence.len() implies #[trigger] line[j] != '.' && line[j]
        != '!' && line[j] != '?' by {
        assert(line[j] == sentence[j]);
    }
    stop_stands_at(line, sentence.len() as int);
    stop_stands_at(sentence, sentence.len() as int);
    assert(line.take(sentence.len() as int + 1) =~= sentence.push(stop));
}

proof fn first_line(line: Seq<char>, below: Seq<char>)
    requires
        !line.contains('\n'),
    ensures
        seqs::split(line + seq!['\n'] + below, '\n')[0] == line,
{
    seqs::split_at_separator(line, '\n', below);
    seqs::split_undoes_join(seq![line], '\n');
    assert(seqs::join(seq![line], seq!['\n']) == line);
}

proof fn trimmed(s: Seq<char>)
    requires
        s.len() > 0,
        !seqs::is_white(s[0]),
        !seqs::is_white(s.last()),
    ensures
        seqs::trim(s) == s,
{
    seqs::trim_takes_white_ends(Seq::empty(), s, Seq::empty());
    assert(Seq::<char>::empty() + s + Seq::<char>::empty() =~= s);
}

/// A text that is too long keeps its beginning, and ends in an ellipsis.
pub proof fn shortened_keeps_the_beginning(s: Seq<char>, max: nat)
    requires
        0 < max < s.len(),
        !seqs::is_white(s[max - 2]) || max == 1,
    ensures
        shortened(s, max as int) == s.take(max - 1).push('…'),
{
    reveal_strlit("…");
    let head = s.take(max - 1);
    if head.len() > 0 {
        assert(head.last() == s[max - 2]);
    }
    assert(head + "…"@ =~= head.push('…'));
}

/// The messages of the inboxes add up: a list in a `.json` file counts its entries, and
/// anything else counts nothing.
pub proof fn inboxes_add_up(
    inboxes: Seq<(String, Option<String>)>,
    inbox: (String, Option<String>),
    stem: Seq<char>,
    list: Seq<JsonView>,
)
    ensures
        messages(Seq::empty()) == 0,
        stem.len() > 0 && inbox.0@ == stem + ".json"@ && (inbox.1 matches Some(t)
            && json::json_parse(t@) == Ok::<JsonView, Seq<char>>(JsonView::Array(list))) ==> messages(
            inboxes.push(inbox),
        ) == messages(inboxes) + list.len(),
        inbox.1 is None || !seqs::ends_with(inbox.0@, ".json"@) || (inbox.1 matches Some(t) && !(
        json::json_parse(t@) matches Ok(JsonView::Array(_)))) ==> messages(inboxes.push(inbox))
            == messages(inboxes),
{
    assert(inboxes.push(inbox).drop_last() =~= inboxes);
    reveal_strlit(".json");
    reveal_strlit("json");
    assert(!"json"@.contains('.'));
    assert(".json"@ =~= seq!['.'] + "json"@);
    if stem.len() > 0 && inbox.0@ == stem + ".json"@ {
        assert(inbox.0@ =~= stem + seq!['.'] + "json"@);
        paths::stems_are_what_stands_before_the_extension(stem, "json"@, "json"@);
    }
    if !seqs::ends_with(inbox.0@, ".json"@) {
        paths::other_names_have_no_stem(inbox.0@, "json"@);
    }
}

/// The tasks of a run are the names that do not begin with a dot.
pub proof fn tasks_are_the_shown_names(names: Seq<Seq<char>>)
    ensures
        tasks_among(names) == names.filter(
            |n: Seq<char>| !(n.len() > 0 && n[0] == '.'),
        ).len(),
    decreases names.len(),
{
    reveal(Seq::filter);
    if names.len() > 0 {
        tasks_are_the_shown_names(names.drop_last());
    }
}

/// Every directory whose name begins with `session-` is a run, and nothing else is.
pub proof fn sessions_are_runs(files: Seq<RunFiles>)
    ensures
        runs_of(files) == files.filter(
            |f: RunFiles| f.is_dir && seqs::starts_with(f.session_id@, "session-"@),
        ).map_values(|f: RunFiles| run_of(f)),
    decreases files.len(),
{
    let is_run = |f: RunFiles| f.is_dir && seqs::starts_with(f.session_id@, "session-"@);
    let run = |f: RunFiles| run_of(f);
    reveal(Seq::filter);
    if files.len() > 0 {
        sessions_are_runs(files.drop_last());
    }
    assert(runs_of(files) =~= files.filter(is_run).map_values(run));
}

/// The runs are listed from the newest to the oldest, those of no known age last; and every
/// run is listed.
pub proof fn newest_runs_come_first(files: Seq<RunFiles>, i: int, j: int)
    requires
        0 <= i < j < sort::sorted(runs_of(files), newest_first()).len(),
    ensures
        ({
            let all = sort::sorted(runs_of(files), newest_first());
            &&& all.len() == runs_of(files).len()
            &&& (match (all[i].created_at, all[j].created_at) {
                (Some(x), Some(y)) => x > y || (x == y && seqs::text_le(
                    all[j].session_id,
                    all[i].session_id,
                )),
                (None, Some(_)) => false,
                (Some(_), None) => true,
                (None, None) => seqs::text_le(all[j].session_id, all[i].session_id),
            })
        }),
{
    let le = newest_first();
    assert(sort::is_order(le)) by {
        assert forall|a: RunView, b: RunView| #[trigger] le(a, b) || le(b, a) by {
            seqs::text_le_total(a.session_id, b.session_id);
        }
        assert forall|a: RunView, b: RunView, c: RunView| #[trigger]
            le(a, b) && #[trigger] le(b, c) implies le(a, c) by {
            if a.created_at == b.created_at && b.created_at == c.created_at {
                seqs::text_le_transitive(c.session_id, b.session_id, a.session_id);
            }
        }
    }
    sort::sorted_sound(runs_of(files), le);
    let all = sort::sorted(runs_of(files), le);
    assert(le(all[i], all[j]));
}

/// The directory of a session is named `session-` and more, and leads nowhere else: its name
/// holds no slash, no backslash, no two dots and no zero character. Every such name is one.
pub proof fn session_ids_are_exact(rest: Seq<char>, id: Seq<char>)
    ensures
        rest.len() > 0 && !rest.contains('/') && !rest.contains('\\') && !rest.contains('\0')
            && !rest.contains('.') ==> is_session_id("session-"@ + rest),
        is_session_id(id) ==> id.len() > 8 && seqs::starts_with(id, "session-"@),
        id.contains('/') || id.contains('\\') || id.contains('\0') || seqs::has_text(id, ".."@)
            ==> !is_session_id(id),
{
    reveal_strlit("session-");
    reveal_strlit("..");
    let p = "session-"@;
    let whole = p + rest;
    seqs::ends_of_concat(p, rest);
    if rest.len() > 0 && !rest.contains('/') && !rest.contains('\\') && !rest.contains('\0')
        && !rest.contains('.') {
        seqs::concat_holds(p, rest, '/');
        seqs::concat_holds(p, rest, '\\');
        seqs::concat_holds(p, rest, '\0');
        seqs::concat_holds(p, rest, '.');
        if seqs::has_text(whole, ".."@) {
            let i = choose|i: int| #[trigger] seqs::occurs_at(whole, ".."@, i);
            assert(whole.subrange(i, i + 2)[0] == '.');
            assert(whole[i] == '.');
            assert(whole.contains(whole[i]));
        }
    }
}

/// A run counts the messages in its inboxes and the tasks among its files; one whose
/// configuration cannot be read, or does not parse, is still listed, under the name of its
/// directory, with nobody in it and with what is wrong.
pub proof fn runs_count_their_messages_and_tasks(f: RunFiles, cfg: JsonView, e: Seq<char>)
    ensures
        (f.config matches Ok(t) && json::json_parse(t@) == Ok::<JsonView, Seq<char>>(cfg))
            && messages(f.inboxes@) <= u32::MAX ==> run_of(f).inbox_depth == messages(f.inboxes@)
            && run_of(f).task_count == tasks_among(seqs::views(f.tasks@)),
        (f.config matches Ok(t) && json::json_parse(t@) == Err::<JsonView, Seq<char>>(e)) ==> run_of(
            f,
        ).parse_error == Some("config.json invalid JSON: "@ + e) && run_of(f).name == f.session_id@
            && run_of(f).session_id == f.session_id@ && run_of(f).members.len() == 0 && run_of(
            f,
        ).modified_at == f.modified_at,
        f.config matches Err(m) ==> run_of(f).parse_error == Some("config.json read failed: "@ + m@)
            && run_of(f).name == f.session_id@ && run_of(f).session_id == f.session_id@ && run_of(
            f,
        ).members.len() == 0,
{
}

} // verus!
