//! The sessions of the agent: which pane runs which session, and an index of the transcripts.
//!
//! A project's directory name is never decoded into a path, since the encoding cannot be
//! undone; the working directory is read from inside the transcript.
use crate::json;
use crate::json::Json;
use crate::json::JsonView;
use crate::paths;
use crate::seqs;
use crate::sort;
use crate::spinup;
use crate::text;
use vstd::prelude::*;

verus! {

/// One entry of the pane map.
#[derive(Debug, Clone, PartialEq, Eq)]
pub struct PaneSession {
    /// The tmux pane id, `%56`.
    pub tmux_pane: String,
    pub session_id: String,
    pub cwd: String,
    pub transcript_path: String,
    /// The process id of the tmux server that owned the pane. Pane ids start anew with the
    /// server, so an entry of another server says nothing of a pane of this one.
    pub tmux_server_pid: String,
    pub started_at: String,
}

/// One row of the transcript index.
#[derive(Debug, Clone, PartialEq, Eq)]
pub struct SessionRow {
    pub session_id: String,
    /// The working directory named in the transcript, or nothing.
    pub cwd: String,
    /// The name of the project directory, as it stands.
    pub project_dir: String,
    /// The first prompt that the user typed, on one line, or nothing.
    pub first_prompt: String,
    pub modified_epoch: u64,
    pub bytes: u64,
}

// ── The pane map ────────────────────────────────────────────────────────────────────────

/// A file of the pane map's directory: its name, and the entry that it holds, where it
/// could be read.
pub struct PaneFile {
    pub name: String,
    pub session: Option<PaneSession>,
}

#[verifier::ext_equal]
pub struct PaneView {
    pub tmux_pane: Seq<char>,
    pub session_id: Seq<char>,
    pub cwd: Seq<char>,
    pub transcript_path: Seq<char>,
    pub tmux_server_pid: Seq<char>,
    pub started_at: Seq<char>,
}

impl View for PaneSession {
    type V = PaneView;

    open spec fn view(&self) -> PaneView {
        PaneView {
            tmux_pane: self.tmux_pane@,
            session_id: self.session_id@,
            cwd: self.cwd@,
            transcript_path: self.transcript_path@,
            tmux_server_pid: self.tmux_server_pid@,
            started_at: self.started_at@,
        }
    }
}

pub open spec fn pane_views(v: Seq<PaneSession>) -> Seq<PaneView> {
    v.map_values(|p: PaneSession| p@)
}

/// `map` with the entry of the pane of `p` set to `p`.
pub open spec fn with_pane(map: Seq<PaneView>, p: PaneView) -> Seq<PaneView>
    decreases map.len(),
{
    if map.len() == 0 {
        seq![p]
    } else if map[0].tmux_pane == p.tmux_pane {
        seq![p] + map.drop_first()
    } else {
        seq![map[0]] + with_pane(map.drop_first(), p)
    }
}

/// The entry of `f`, where it is a `.json` file that holds one of the server `live`.
pub open spec fn live_entry(f: PaneFile, live: Seq<char>) -> Option<PaneView> {
    match (paths::stem_with_extension(f.name@, "json"@), f.session) {
        (Some(_), Some(s)) => if s.tmux_server_pid@ == live {
            Some(s@)
        } else {
            None
        },
        _ => None,
    }
}

/// The map of the files: for each pane the last entry for it.
pub open spec fn pane_map_of(files: Seq<PaneFile>, live: Seq<char>) -> Seq<PaneView>
    decreases files.len(),
{
    if files.len() == 0 {
        Seq::empty()
    } else {
        let head = pane_map_of(files.drop_last(), live);
        match live_entry(files.last(), live) {
            Some(p) => with_pane(head, p),
            None => head,
        }
    }
}

/// The entry of `pane`.
pub open spec fn entry_of(map: Seq<PaneView>, pane: Seq<char>) -> Option<PaneView>
    decreases map.len(),
{
    if map.len() == 0 {
        None
    } else if map[0].tmux_pane == pane {
        Some(map[0])
    } else {
        entry_of(map.drop_first(), pane)
    }
}

fn clone_pane(p: &PaneSession) -> (r: PaneSession)
    ensures
        r@ == p@,
{
    PaneSession {
        tmux_pane: p.tmux_pane.clone(),
        session_id: p.session_id.clone(),
        cwd: p.cwd.clone(),
        transcript_path: p.transcript_path.clone(),
        tmux_server_pid: p.tmux_server_pid.clone(),
        started_at: p.started_at.clone(),
    }
}

fn set_pane(map: &mut Vec<PaneSession>, p: PaneSession)
    ensures
        pane_views(final(map)@) == with_pane(pane_views(old(map)@), p@),
{
    let ghost all = pane_views(map@);
    let mut i: usize = 0;
    assert(all.skip(0) =~= all);
    assert(all.take(0) + with_pane(all, p@) =~= with_pane(all, p@));
    while i < map.len() && !text::same(map[i].tmux_pane.as_str(), p.tmux_pane.as_str())
        invariant
            i <= map@.len(),
            map@ == old(map)@,
            all == pane_views(map@),
            with_pane(all, p@) == all.take(i as int) + with_pane(all.skip(i as int), p@),
        decreases map@.len() - i,
    {
        proof {
            assert(all.skip(i as int)[0] == map@[i as int]@);
            assert(all.skip(i as int).drop_first() =~= all.skip(i + 1));
            assert(all.take(i as int) + (seq![all[i as int]] + with_pane(all.skip(i + 1), p@))
                =~= all.take(i + 1) + with_pane(all.skip(i + 1), p@));
        }
        i += 1;
    }
    if i < map.len() {
        assert(all.skip(i as int)[0] == map@[i as int]@);
        map.set(i, p);
        assert(pane_views(map@) =~= all.take(i as int) + (seq![p@] + all.skip(
            i as int,
        ).drop_first()));
    } else {
        map.push(p);
        assert(pane_views(map@) =~= all.take(i as int) + seq![p@]);
    }
}

/// The pane map: the entries of the tmux server `live_server_pid`, one for each pane. A file
/// that could not be read costs only its own entry.
pub fn read_pane_map(files: &[PaneFile], live_server_pid: &str) -> (r: Vec<PaneSession>)
    ensures
        pane_views(r@) == pane_map_of(files@, live_server_pid@),
{
    let mut map: Vec<PaneSession> = Vec::new();
    let mut i: usize = 0;
    proof {
        assert(files@.take(0) =~= Seq::empty());
        assert(pane_views(map@) =~= Seq::empty());
    }
    while i < files.len()
        invariant
            i <= files@.len(),
            pane_views(map@) == pane_map_of(files@.take(i as int), live_server_pid@),
        decreases files@.len() - i,
    {
        assert(files@.take(i + 1).drop_last() =~= files@.take(i as int));
        if paths::file_stem(files[i].name.as_str(), "json").is_some() {
            if let Some(s) = &files[i].session {
                if text::same(s.tmux_server_pid.as_str(), live_server_pid) {
                    let p = clone_pane(s);
                    set_pane(&mut map, p);
                }
            }
        }
        i += 1;
    }
    assert(files@.take(files@.len() as int) =~= files@);
    map
}

/// The entry of `pane`.
pub fn find_pane<'a>(map: &'a [PaneSession], pane: &str) -> (r: Option<&'a PaneSession>)
    ensures
        (match r {
            Some(p) => entry_of(pane_views(map@), pane@) == Some(p@),
            None => entry_of(pane_views(map@), pane@) is None,
        }),
{
    let ghost all = pane_views(map@);
    let mut i: usize = 0;
    assert(all.skip(0) =~= all);
    while i < map.len()
        invariant
            i <= map@.len(),
            all == pane_views(map@),
            entry_of(all, pane@) == entry_of(all.skip(i as int), pane@),
        decreases map@.len() - i,
    {
        assert(all.skip(i as int)[0] == map@[i as int]@);
        assert(all.skip(i as int).drop_first() =~= all.skip(i + 1));
        if text::same(map[i].tmux_pane.as_str(), pane) {
            return Some(&map[i]);
        }
        i += 1;
    }
    None
}

proof fn with_pane_entry(map: Seq<PaneView>, p: PaneView, pane: Seq<char>)
    ensures
        entry_of(with_pane(map, p), pane) == (if pane == p.tmux_pane {
            Some(p)
        } else {
            entry_of(map, pane)
        }),
    decreases map.len(),
{
    let r = with_pane(map, p);
    if map.len() == 0 {
        assert(r.drop_first() =~= map);
    } else if map[0].tmux_pane == p.tmux_pane {
        assert(r.drop_first() =~= map.drop_first());
    } else {
        with_pane_entry(map.drop_first(), p, pane);
        assert(r.drop_first() =~= with_pane(map.drop_first(), p));
    }
}

/// The last of `files` that holds an entry of the server for `pane`.
pub open spec fn last_entry(files: Seq<PaneFile>, live: Seq<char>, pane: Seq<char>) -> Option<
    PaneView,
>
    decreases files.len(),
{
    if files.len() == 0 {
        None
    } else {
        match live_entry(files.last(), live) {
            Some(p) => if p.tmux_pane == pane {
                Some(p)
            } else {
                last_entry(files.drop_last(), live, pane)
            },
            None => last_entry(files.drop_last(), live, pane),
        }
    }
}

/// A pane has an entry in the map exactly if some readable file holds one of the running
/// server for it, and then it is the last such entry. An entry of another server is never
/// in the map, and a file that does not parse hides no other file.
pub proof fn pane_map_is_live(files: Seq<PaneFile>, live: Seq<char>, pane: Seq<char>)
    ensures
        entry_of(pane_map_of(files, live), pane) == last_entry(files, live, pane),
        entry_of(pane_map_of(files, live), pane) matches Some(p) ==> p.tmux_server_pid == live
            && p.tmux_pane == pane,
    decreases files.len(),
{
    if files.len() > 0 {
        pane_map_is_live(files.drop_last(), live, pane);
        if let Some(p) = live_entry(files.last(), live) {
            with_pane_entry(pane_map_of(files.drop_last(), live), p, pane);
        }
    }
}

// ── Prompts ─────────────────────────────────────────────────────────────────────────────

/// The flattened text of a record that the user did not type.
pub open spec fn is_synthetic(flat: Seq<char>) -> bool {
    ||| seqs::starts_with(flat, "<local-command-caveat>"@)
    ||| seqs::starts_with(flat, "<command-name>"@)
    ||| seqs::starts_with(flat, "<command-message>"@)
    ||| seqs::starts_with(flat, "<command-args>"@)
    ||| seqs::starts_with(flat, "<system-reminder>"@)
    ||| seqs::starts_with(flat, "[MESSAGE FROM NON-USER SOURCE"@)
    ||| seqs::starts_with(flat, "[Your previous response had no visible output"@)
    ||| seqs::starts_with(flat, "Caveat: The messages below"@)
}

/// The first block of type `text`.
pub open spec fn text_block(blocks: Seq<JsonView>) -> Option<JsonView>
    decreases blocks.len(),
{
    if blocks.len() == 0 {
        None
    } else if blocks[0].str_field("type"@) == Some("text"@) {
        Some(blocks[0])
    } else {
        text_block(blocks.drop_first())
    }
}

/// The text of a message: its content, or the first text block of its content.
pub open spec fn message_text(v: JsonView) -> Option<Seq<char>> {
    match v.get("message"@) {
        None => None,
        Some(m) => match m.get("content"@) {
            Some(JsonView::Str(s)) => Some(s),
            Some(JsonView::Array(blocks)) => match text_block(blocks) {
                Some(b) => b.str_field("text"@),
                None => None,
            },
            _ => None,
        },
    }
}

/// The first `n` characters of `s`.
pub open spec fn first_chars(s: Seq<char>, n: int) -> Seq<char> {
    if s.len() <= n {
        s
    } else {
        s.take(n)
    }
}

/// The prompt of a user record: its text on one line, at most 200 characters of it, unless
/// there is none or it was not typed.
pub open spec fn prompt_of(v: JsonView) -> Option<Seq<char>> {
    match message_text(v) {
        None => None,
        Some(raw) => {
            let flat = spinup::flat(raw);
            if flat.len() == 0 || is_synthetic(flat) {
                None
            } else {
                Some(first_chars(flat, 200))
            }
        },
    }
}

fn looks_synthetic(flat: &str) -> (r: bool)
    ensures
        r == is_synthetic(flat@),
{
    text::starts_with(flat, "<local-command-caveat>") || text::starts_with(flat, "<command-name>")
        || text::starts_with(flat, "<command-message>") || text::starts_with(
        flat,
        "<command-args>",
    ) || text::starts_with(flat, "<system-reminder>") || text::starts_with(
        flat,
        "[MESSAGE FROM NON-USER SOURCE",
    ) || text::starts_with(flat, "[Your previous response had no visible output")
        || text::starts_with(flat, "Caveat: The messages below")
}

fn raw_text(value: &Json) -> (r: Option<String>)
    ensures
        seqs::opt_view(r) == message_text(value@),
{
    let msg = match value.get("message") {
        Some(m) => m,
        None => return None,
    };
    match msg.get("content") {
        Some(Json::Str(s)) => Some(s.clone()),
        Some(Json::Array(blocks)) => {
            let ghost all = json::items_view(blocks@);
            let mut i: usize = 0;
            proof {
                json::items_view_at(blocks@);
                assert(all.skip(0) =~= all);
            }
            while i < blocks.len()
                invariant
                    i <= blocks@.len(),
                    all.len() == blocks@.len(),
                    forall|j: int| 0 <= j < blocks@.len() ==> #[trigger] all[j] == blocks@[j]@,
                    message_text(value@) == (match text_block(all) {
                        Some(b) => b.str_field("text"@),
                        None => None,
                    }),
                    text_block(all) == text_block(all.skip(i as int)),
                decreases blocks@.len() - i,
            {
                assert(all.skip(i as int)[0] == all[i as int]);
                assert(all.skip(i as int).drop_first() =~= all.skip(i + 1));
                let is_text = match blocks[i].str_field("type") {
                    Some(t) => text::same(t, "text"),
                    None => false,
                };
                if is_text {
                    return match blocks[i].str_field("text") {
                        Some(s) => Some(s.to_owned()),
                        None => None,
                    };
                }
                i += 1;
            }
            None
        },
        _ => None,
    }
}

/// The prompt of a user record.
pub fn user_text(value: &Json) -> (r: Option<String>)
    ensures
        seqs::opt_view(r) == prompt_of(value@),
{
    let raw = match raw_text(value) {
        Some(s) => s,
        None => return None,
    };
    let flat = text::join(&text::words(raw.as_str()), " ");
    let cs = text::chars_of(flat.as_str());
    let n: usize = cs.len();
    if n == 0 || looks_synthetic(flat.as_str()) {
        return None;
    }
    if n <= 200 {
        return Some(flat);
    }
    let short = text::string_of(&cs, 0, 200);
    assert(short@ =~= flat@.take(200));
    Some(short)
}

// ── Transcripts ─────────────────────────────────────────────────────────────────────────

/// What has been found in a transcript so far.
#[verifier::ext_equal]
pub struct Found {
    pub cwd: Seq<char>,
    pub first_prompt: Seq<char>,
}

/// What is found once one more entry has been looked at.
pub open spec fn found_in(f: Found, v: JsonView) -> Found {
    Found {
        cwd: if f.cwd.len() == 0 {
            match v.str_field("cwd"@) {
                Some(c) => c,
                None => f.cwd,
            }
        } else {
            f.cwd
        },
        first_prompt: if f.first_prompt.len() == 0 && v.str_field("type"@) == Some("user"@) {
            match prompt_of(v) {
                Some(p) => p,
                None => f.first_prompt,
            }
        } else {
            f.first_prompt
        },
    }
}

/// What is found once one more line has been looked at. Lines over 64 KiB and lines that
/// are not JSON are passed over.
pub open spec fn found_in_line(f: Found, line: Seq<char>) -> Found {
    if seqs::byte_len(line) > 65536 {
        f
    } else {
        match json::json_parse(line) {
            Ok(v) => found_in(f, v),
            Err(_) => f,
        }
    }
}

/// What is found in `lines`, which are looked at until both facts are known.
pub open spec fn found_in_lines(f: Found, lines: Seq<Seq<char>>) -> Found
    decreases lines.len(),
{
    if lines.len() == 0 || (f.cwd.len() > 0 && f.first_prompt.len() > 0) {
        f
    } else {
        found_in_lines(found_in_line(f, lines[0]), lines.drop_first())
    }
}

pub open spec fn nothing_found() -> Found {
    Found { cwd: Seq::empty(), first_prompt: Seq::empty() }
}

/// What is found in the first 400 lines of a transcript.
pub open spec fn found_in_transcript(lines: Seq<Seq<char>>) -> Found {
    found_in_lines(
        nothing_found(),
        lines.take(
            if lines.len() < 400 {
                lines.len() as int
            } else {
                400
            },
        ),
    )
}

/// Looks for the working directory and the first prompt in one parsed entry.
pub fn scan_entry(value: &Json, cwd: &mut String, first_prompt: &mut String)
    ensures
        (Found { cwd: final(cwd)@, first_prompt: final(first_prompt)@ }) == found_in(
            Found { cwd: old(cwd)@, first_prompt: old(first_prompt)@ },
            value@,
        ),
{
    if text::chars_of(cwd.as_str()).len() == 0 {
        if let Some(c) = value.str_field("cwd") {
            *cwd = c.to_owned();
        }
    }
    if text::chars_of(first_prompt.as_str()).len() == 0 {
        let is_user = match value.str_field("type") {
            Some(t) => text::same(t, "user"),
            None => false,
        };
        if is_user {
            if let Some(p) = user_text(value) {
                *first_prompt = p;
            }
        }
    }
}

/// The working directory and the first prompt that the head of a transcript names.
pub fn scan_transcript(lines: &[String]) -> (r: (String, String))
    ensures
        (Found { cwd: r.0@, first_prompt: r.1@ }) == found_in_transcript(seqs::views(lines@)),
{
    let mut cwd = String::new();
    let mut first_prompt = String::new();
    let n: usize = if lines.len() < 400 {
        lines.len()
    } else {
        400
    };
    let ghost head = seqs::views(lines@).take(n as int);
    let mut i: usize = 0;
    proof {
        assert(head.skip(0) =~= head);
        assert((Found { cwd: cwd@, first_prompt: first_prompt@ }) =~= nothing_found());
    }
    loop
        invariant_except_break
            i <= n <= lines@.len(),
            head == seqs::views(lines@).take(n as int),
            found_in_lines(nothing_found(), head) == found_in_lines(
                Found { cwd: cwd@, first_prompt: first_prompt@ },
                head.skip(i as int),
            ),
        ensures
            (Found { cwd: cwd@, first_prompt: first_prompt@ }) == found_in_lines(
                nothing_found(),
                head,
            ),
        decreases n - i,
    {
        if i == n {
            break;
        }
        if text::chars_of(cwd.as_str()).len() > 0 && text::chars_of(first_prompt.as_str()).len()
            > 0 {
            break;
        }
        let line = lines[i].as_str();
        proof {
            assert(head.skip(i as int)[0] == line@);
            assert(head.skip(i as int).drop_first() =~= head.skip(i + 1));
        }
        if text::byte_len(line) <= 65536 {
            if let Ok(v) = json::parse(line) {
                scan_entry(&v, &mut cwd, &mut first_prompt);
            }
        }
        i += 1;
    }
    (cwd, first_prompt)
}

// ── The index ───────────────────────────────────────────────────────────────────────────

/// A file under a project directory.
pub struct TranscriptFile {
    pub path: String,
    pub project_dir: String,
    pub file_name: String,
    pub modified_epoch: u64,
    pub bytes: u64,
}

struct Candidate {
    path: String,
    project_dir: String,
    session_id: String,
    modified_epoch: u64,
    bytes: u64,
}

/// A transcript that may be listed.
#[verifier::ext_equal]
pub struct CandidateView {
    pub path: Seq<char>,
    pub project_dir: Seq<char>,
    pub session_id: Seq<char>,
    pub modified_epoch: u64,
    pub bytes: u64,
}

spec fn candidate_view(c: Candidate) -> CandidateView {
    CandidateView {
        path: c.path@,
        project_dir: c.project_dir@,
        session_id: c.session_id@,
        modified_epoch: c.modified_epoch,
        bytes: c.bytes,
    }
}

spec fn candidate_views(v: Seq<Candidate>) -> Seq<CandidateView> {
    v.map_values(|c: Candidate| candidate_view(c))
}

/// The `.jsonl` files among `files`, as sessions.
pub open spec fn candidates_of(files: Seq<TranscriptFile>) -> Seq<CandidateView>
    decreases files.len(),
{
    if files.len() == 0 {
        Seq::empty()
    } else {
        let head = candidates_of(files.drop_last());
        let f = files.last();
        match paths::stem_with_extension(f.file_name@, "jsonl"@) {
            Some(stem) => head.push(
                CandidateView {
                    path: f.path@,
                    project_dir: f.project_dir@,
                    session_id: stem,
                    modified_epoch: f.modified_epoch,
                    bytes: f.bytes,
                },
            ),
            None => head,
        }
    }
}

/// The newest first, equally new ones by session id.
pub open spec fn newer() -> spec_fn(CandidateView, CandidateView) -> bool {
    |a: CandidateView, b: CandidateView|
        a.modified_epoch > b.modified_epoch || (a.modified_epoch == b.modified_epoch
            && seqs::text_le(a.session_id, b.session_id))
}

/// The sessions that are listed: the newest, at most `limit`.
pub open spec fn listed(files: Seq<TranscriptFile>, limit: int) -> Seq<CandidateView> {
    let all = sort::sorted(candidates_of(files), newer());
    all.take(
        if all.len() < limit {
            all.len() as int
        } else {
            limit
        },
    )
}

/// The transcript at `path` is listed.
pub open spec fn lists(files: Seq<TranscriptFile>, limit: int, path: Seq<char>) -> bool {
    exists|i: int|
        0 <= i < listed(files, limit).len() && (#[trigger] listed(files, limit)[i]).path == path
}

/// `row` is the row of `c`, with what is found in the lines of its transcript.
pub open spec fn is_row_of(row: SessionRow, c: CandidateView, lines: Seq<Seq<char>>) -> bool {
    &&& row.session_id@ == c.session_id
    &&& row.project_dir@ == c.project_dir
    &&& row.modified_epoch == c.modified_epoch
    &&& row.bytes == c.bytes
    &&& row.cwd@ == found_in_transcript(lines).cwd
    &&& row.first_prompt@ == found_in_transcript(lines).first_prompt
}

/// `row` is the row of `c`, with what `read` returned for its transcript.
pub open spec fn is_read_row<F: Fn(&str) -> Vec<String>>(
    read: F,
    row: SessionRow,
    c: CandidateView,
) -> bool {
    exists|p: &str, lines: Vec<String>|
        p@ == c.path && #[trigger] call_ensures(read, (p,), lines) && is_row_of(
            row,
            c,
            seqs::views(lines@),
        )
}

fn collect_candidates(files: &[TranscriptFile]) -> (r: Vec<Candidate>)
    ensures
        candidate_views(r@) == candidates_of(files@),
{
    let mut out: Vec<Candidate> = Vec::new();
    let mut i: usize = 0;
    proof {
        assert(files@.take(0) =~= Seq::empty());
        assert(candidate_views(out@) =~= Seq::empty());
    }
    while i < files.len()
        invariant
            i <= files@.len(),
            candidate_views(out@) == candidates_of(files@.take(i as int)),
        decreases files@.len() - i,
    {
        let f = &files[i];
        let ghost before = out@;
        assert(files@.take(i + 1).drop_last() =~= files@.take(i as int));
        if let Some(stem) = paths::file_stem(f.file_name.as_str(), "jsonl") {
            let c = Candidate {
                path: f.path.clone(),
                project_dir: f.project_dir.clone(),
                session_id: stem,
                modified_epoch: f.modified_epoch,
                bytes: f.bytes,
            };
            out.push(c);
            assert(candidate_views(out@) =~= candidate_views(before).push(candidate_view(c)));
        }
        i += 1;
    }
    assert(files@.take(files@.len() as int) =~= files@);
    out
}

/// The index of the transcripts among `files`, newest first, at most `limit` rows. `read`
/// gives the first lines of the transcript at a path; no transcript is read but the listed
/// ones.
pub fn index_sessions<F: Fn(&str) -> Vec<String>>(
    files: &[TranscriptFile],
    limit: usize,
    read: F,
) -> (r: Vec<SessionRow>)
    requires
        forall|p: &str| lists(files@, limit as int, p@) ==> #[trigger] call_requires(read, (p,)),
    ensures
        r@.len() == listed(files@, limit as int).len(),
        forall|i: int|
            0 <= i < r@.len() ==> is_read_row(read, #[trigger] r@[i], listed(files@, limit as int)[i]),
{
    let candidates = collect_candidates(files);
    let le = |a: &Candidate, b: &Candidate| -> (o: bool)
        ensures
            o == newer()(candidate_view(*a), candidate_view(*b)),
        {
            a.modified_epoch > b.modified_epoch || (a.modified_epoch == b.modified_epoch
                && text::text_le(a.session_id.as_str(), b.session_id.as_str()))
        };
    let ghost order = |a: Candidate, b: Candidate| newer()(candidate_view(a), candidate_view(b));
    let sorted = sort::sort_by(candidates, le, Ghost(order));
    proof {
        sort::sorted_map(candidates@, |c: Candidate| candidate_view(c), order, newer());
    }
    let n: usize = if sorted.len() < limit {
        sorted.len()
    } else {
        limit
    };
    let ghost all = sort::sorted(candidates_of(files@), newer());
    let ghost want = listed(files@, limit as int);
    assert(candidate_views(sorted@) == all);
    assert(candidate_views(sorted@).len() == sorted@.len());
    let mut rows: Vec<SessionRow> = Vec::new();
    let mut i: usize = 0;
    while i < n
        invariant
            i <= n <= sorted@.len(),
            n == want.len(),
            want == candidate_views(sorted@).take(n as int),
            want == listed(files@, limit as int),
            forall|p: &str|
                lists(files@, limit as int, p@) ==> #[trigger] call_requires(read, (p,)),
            rows@.len() == i,
            forall|j: int| 0 <= j < i ==> is_read_row(read, #[trigger] rows@[j], want[j]),
        decreases n - i,
    {
        let c = &sorted[i];
        assert(listed(files@, limit as int)[i as int].path == c.path@);
        let lines = read(c.path.as_str());
        let (cwd, first_prompt) = scan_transcript(&lines);
        let row = SessionRow {
            session_id: c.session_id.clone(),
            cwd,
            project_dir: c.project_dir.clone(),
            first_prompt,
            modified_epoch: c.modified_epoch,
            bytes: c.bytes,
        };
        proof {
            assert(want[i as int] == candidate_view(*c));
            let f = Found { cwd: row.cwd@, first_prompt: row.first_prompt@ };
            assert(f == found_in_transcript(seqs::views(lines@)));
            assert(is_row_of(row, want[i as int], seqs::views(lines@)));
            assert(is_read_row(read, row, want[i as int]));
        }
        rows.push(row);
        i += 1;
    }
    rows
}

/// The listing stands newest first, equally new sessions by id, and no session that is left
/// out is newer than one that is listed.
pub proof fn newest_are_listed(files: Seq<TranscriptFile>, limit: int)
    requires
        0 <= limit,
    ensures
        sort::in_order(sort::sorted(candidates_of(files), newer()), newer()),
        listed(files, limit).len() <= limit,
        listed(files, limit).len() <= candidates_of(files).len(),
        listed(files, limit).len() == limit || listed(files, limit).len() == candidates_of(
            files,
        ).len(),
        sort::sorted(candidates_of(files), newer()).to_multiset() =~= candidates_of(
            files,
        ).to_multiset(),
{
    assert(sort::is_order(newer())) by {
        assert forall|a: CandidateView, b: CandidateView| #[trigger]
            newer()(a, b) || newer()(b, a) by {
            seqs::text_le_total(a.session_id, b.session_id);
        }
        assert forall|a: CandidateView, b: CandidateView, c: CandidateView| #[trigger]
            newer()(a, b) && #[trigger] newer()(b, c) implies newer()(a, c) by {
            if a.modified_epoch == b.modified_epoch && b.modified_epoch == c.modified_epoch {
                seqs::text_le_transitive(a.session_id, b.session_id, c.session_id);
            }
        }
    }
    sort::sorted_sound(candidates_of(files), newer());
}

/// A prompt is one line of at most 200 characters, and never the opening of a record that
/// the user did not type.
pub proof fn prompts_are_typed_lines(v: JsonView, c: char)
    requires
        seqs::is_white(c),
        c != ' ',
    ensures
        prompt_of(v) matches Some(p) ==> 0 < p.len() <= 200 && !p.contains(c) && !is_synthetic(
            spinup::flat(message_text(v)->0),
        ),
{
    if let Some(raw) = message_text(v) {
        let flat = spinup::flat(raw);
        spinup::flat_is_one_line(raw, c);
        let p = first_chars(flat, 200);
        if p.contains(c) {
            let i = choose|i: int| 0 <= i < p.len() && p[i] == c;
            assert(flat[i] == c);
        }
    }
}

/// `f` is a `.json` file with an entry of the server `live` for `pane`.
pub open spec fn tells_of_pane(f: PaneFile, live: Seq<char>, pane: Seq<char>) -> bool {
    &&& f.name@.len() > 5
    &&& seqs::ends_with(f.name@, ".json"@)
    &&& f.session matches Some(s) && s.tmux_server_pid@ == live && s.tmux_pane@ == pane
}

proof fn telling_is_live(f: PaneFile, live: Seq<char>, pane: Seq<char>)
    ensures
        tells_of_pane(f, live, pane) <==> (live_entry(f, live) matches Some(p) && p.tmux_pane
            == pane),
        tells_of_pane(f, live, pane) ==> live_entry(f, live) == Some(f.session->0@),
{
    reveal_strlit(".json");
    reveal_strlit("json");
    let n = f.name@;
    assert(!"json"@.contains('.'));
    assert(".json"@ =~= seq!['.'] + "json"@);
    if n.len() > 5 && seqs::ends_with(n, ".json"@) {
        let stem = n.take(n.len() - 5);
        assert(n.skip(n.len() - 5) == ".json"@);
        assert(n =~= stem + n.skip(n.len() - 5));
        assert(stem + ".json"@ =~= stem + seq!['.'] + "json"@);
        paths::stems_are_what_stands_before_the_extension(stem, "json"@, "json"@);
    } else if !seqs::ends_with(n, ".json"@) {
        paths::other_names_have_no_stem(n, "json"@);
    } else {
        let dot = seqs::last_index_of(n, '.');
        seqs::last_index_of_bounds(n, '.');
        if dot > 0 && n.skip(dot + 1) == "json"@ {
            assert(n.skip(dot + 1).len() == 4);
        }
    }
}

/// A pane runs the session of the last file that tells of it, whatever the other files hold;
/// and none where no file tells of it.
pub proof fn panes_run_the_last_session_told(
    files: Seq<PaneFile>,
    live: Seq<char>,
    pane: Seq<char>,
    i: int,
)
    ensures
        0 <= i < files.len() && tells_of_pane(files[i], live, pane) && (forall|j: int|
            i < j < files.len() ==> !tells_of_pane(#[trigger] files[j], live, pane)) ==> entry_of(
            pane_map_of(files, live),
            pane,
        ) == Some(files[i].session->0@),
        (forall|j: int| 0 <= j < files.len() ==> !tells_of_pane(#[trigger] files[j], live, pane))
            ==> entry_of(pane_map_of(files, live), pane) is None,
{
    pane_map_is_live(files, live, pane);
    last_told(files, live, pane, i);
}

proof fn last_told(files: Seq<PaneFile>, live: Seq<char>, pane: Seq<char>, i: int)
    ensures
        0 <= i < files.len() && tells_of_pane(files[i], live, pane) && (forall|j: int|
            i < j < files.len() ==> !tells_of_pane(#[trigger] files[j], live, pane))
            ==> last_entry(files, live, pane) == Some(files[i].session->0@),
        (forall|j: int| 0 <= j < files.len() ==> !tells_of_pane(#[trigger] files[j], live, pane))
            ==> last_entry(files, live, pane) is None,
    decreases files.len(),
{
    if files.len() > 0 {
        let head = files.drop_last();
        last_told(head, live, pane, i);
        telling_is_live(files.last(), live, pane);
        assert(files.last() == files[files.len() - 1]);
        if 0 <= i < head.len() {
            assert(head[i] == files[i]);
        }
        assert forall|j: int| 0 <= j < head.len() implies head[j] == files[j] by {}
    }
}

/// The prompt of a user is what the user typed, word for word: the text of the message, or of
/// its first text block, without the white space that is more than a space between two words,
/// and of that at most two hundred characters. A message without a word has no prompt.
pub proof fn prompts_are_what_was_typed(
    v: JsonView,
    m: JsonView,
    ws: Seq<Seq<char>>,
    raw: Seq<char>,
    blocks: Seq<JsonView>,
    i: int,
)
    requires
        v.get("message"@) == Some(m),
        seqs::words(raw) == ws,
        m.get("content"@) == Some(JsonView::Str(raw)) || (m.get("content"@) == Some(
            JsonView::Array(blocks),
        ) && 0 <= i < blocks.len() && blocks[i].get("type"@) == Some(JsonView::Str("text"@))
            && blocks[i].get("text"@) == Some(JsonView::Str(raw)) && (forall|j: int|
            0 <= j < i ==> (#[trigger] blocks[j]).get("type"@) != Some(JsonView::Str("text"@)))),
    ensures
        ({
            let typed = seqs::join(ws, " "@);
            &&& ws.len() == 0 ==> prompt_of(v) is None
            &&& prompt_of(v) is Some ==> prompt_of(v) == Some(
                if typed.len() > 200 {
                    typed.take(200)
                } else {
                    typed
                },
            )
            &&& typed.len() > 0 && typed[0] != '<' && typed[0] != '[' && typed[0] != 'C'
                ==> prompt_of(v) is Some
            &&& seqs::starts_with(typed, "<command-name>"@) || seqs::starts_with(
                typed,
                "<system-reminder>"@,
            ) || seqs::starts_with(typed, "<local-command-caveat>"@) || seqs::starts_with(
                typed,
                "<command-message>"@,
            ) || seqs::starts_with(typed, "<command-args>"@) || seqs::starts_with(
                typed,
                "Caveat: The messages below"@,
            ) || seqs::starts_with(typed, "[MESSAGE FROM NON-USER SOURCE"@) || seqs::starts_with(
                typed,
                "[Your previous response had no visible output"@,
            ) ==> prompt_of(v) is None
        }),
{
    if m.get("content"@) != Some(JsonView::Str(raw)) {
        first_text_block(blocks, i);
    }
    let typed = seqs::join(ws, " "@);
    assert(spinup::flat(raw) == typed);
    reveal_strlit("<command-name>");
    reveal_strlit("<system-reminder>");
    reveal_strlit("<local-command-caveat>");
    reveal_strlit("<command-message>");
    reveal_strlit("<command-args>");
    reveal_strlit("Caveat: The messages below");
    reveal_strlit("[MESSAGE FROM NON-USER SOURCE");
    reveal_strlit("[Your previous response had no visible output");
    if is_synthetic(typed) {
        starts_at_first(typed, "<command-name>"@);
        starts_at_first(typed, "<system-reminder>"@);
        starts_at_first(typed, "<local-command-caveat>"@);
        starts_at_first(typed, "<command-message>"@);
        starts_at_first(typed, "<command-args>"@);
        starts_at_first(typed, "Caveat: The messages below"@);
        starts_at_first(typed, "[MESSAGE FROM NON-USER SOURCE"@);
        starts_at_first(typed, "[Your previous response had no visible output"@);
    }
}

proof fn starts_at_first(s: Seq<char>, p: Seq<char>)
    requires
        p.len() > 0,
    ensures
        seqs::starts_with(s, p) ==> s.len() > 0 && s[0] == p[0],
{
    if seqs::starts_with(s, p) {
        assert(s.take(p.len() as int)[0] == p[0]);
    }
}

proof fn first_text_block(blocks: Seq<JsonView>, i: int)
    requires
        0 <= i < blocks.len(),
        blocks[i].get("type"@) == Some(JsonView::Str("text"@)),
        forall|j: int|
            0 <= j < i ==> (#[trigger] blocks[j]).get("type"@) != Some(JsonView::Str("text"@)),
    ensures
        text_block(blocks) == Some(blocks[i]),
    decreases blocks.len(),
{
    if i > 0 {
        let rest = blocks.drop_first();
        assert(blocks[0].get("type"@) != Some(JsonView::Str("text"@)));
        assert forall|j: int| 0 <= j < i - 1 implies (#[trigger] rest[j]).get("type"@) != Some(
            JsonView::Str("text"@),
        ) by {
            assert(rest[j] == blocks[j + 1]);
        }
        first_text_block(rest, i - 1);
    }
}

/// A line of a transcript that names the working directory `cwd`.
pub open spec fn names_cwd(line: Seq<char>, cwd: Seq<char>) -> bool {
    seqs::byte_len(line) <= 65536 && cwd.len() > 0 && (json::json_parse(line) matches Ok(v)
        && v.get("cwd"@) == Some(JsonView::Str(cwd)))
}

/// A line of a transcript that holds the prompt `prompt` of the user.
pub open spec fn holds_prompt(line: Seq<char>, prompt: Seq<char>) -> bool {
    seqs::byte_len(line) <= 65536 && (json::json_parse(line) matches Ok(v) && v.get("type"@)
        == Some(JsonView::Str("user"@)) && prompt_of(v) == Some(prompt))
}

/// A session is listed with the first working directory and with the first prompt that one of
/// the first four hundred lines of its transcript holds, each on its own.
pub proof fn first_facts_are_found(
    lines: Seq<Seq<char>>,
    i: int,
    cwd: Seq<char>,
    k: int,
    prompt: Seq<char>,
)
    ensures
        0 <= i < lines.len() && i < 400 && names_cwd(lines[i], cwd) && (forall|j: int, c: Seq<char>|
            0 <= j < i ==> !#[trigger] names_cwd(lines[j], c)) ==> found_in_transcript(lines).cwd
            == cwd,
        0 <= k < lines.len() && k < 400 && holds_prompt(lines[k], prompt) && (forall|
            j: int,
            p: Seq<char>,
        |
            0 <= j < k ==> !#[trigger] holds_prompt(lines[j], p)) ==> found_in_transcript(
            lines,
        ).first_prompt == prompt,
        (forall|j: int, c: Seq<char>|
            0 <= j < lines.len() && j < 400 ==> !#[trigger] names_cwd(lines[j], c))
            ==> found_in_transcript(lines).cwd.len() == 0,
{
    let head = lines.take(
        if lines.len() < 400 {
            lines.len() as int
        } else {
            400
        },
    );
    assert forall|j: int| 0 <= j < head.len() implies head[j] == lines[j] by {}
    if 0 <= i < lines.len() && i < 400 && names_cwd(lines[i], cwd) && (forall|
        j: int,
        c: Seq<char>,
    |
        0 <= j < i ==> !#[trigger] names_cwd(lines[j], c)) {
        assert forall|j: int, c: Seq<char>| 0 <= j < i implies !#[trigger] names_cwd(
            head[j],
            c,
        ) by {
            assert(!names_cwd(lines[j], c));
        }
        cwd_found(nothing_found(), head, i, cwd);
    }
    if 0 <= k < lines.len() && k < 400 && holds_prompt(lines[k], prompt) && (forall|
        j: int,
        p: Seq<char>,
    |
        0 <= j < k ==> !#[trigger] holds_prompt(lines[j], p)) {
        assert forall|j: int, p: Seq<char>| 0 <= j < k implies !#[trigger] holds_prompt(
            head[j],
            p,
        ) by {
            assert(!holds_prompt(lines[j], p));
        }
        prompt_found(nothing_found(), head, k, prompt);
    }
    if forall|j: int, c: Seq<char>|
        0 <= j < lines.len() && j < 400 ==> !#[trigger] names_cwd(lines[j], c) {
        assert forall|j: int, c: Seq<char>| 0 <= j < head.len() implies !#[trigger] names_cwd(
            head[j],
            c,
        ) by {
            assert(!names_cwd(lines[j], c));
        }
        no_cwd_found(nothing_found(), head);
    }
}

proof fn line_keeps_cwd(f: Found, line: Seq<char>, cwd: Seq<char>)
    ensures
        f.cwd.len() > 0 ==> found_in_line(f, line).cwd == f.cwd,
        f.cwd.len() == 0 && names_cwd(line, cwd) ==> found_in_line(f, line).cwd == cwd,
        f.cwd.len() == 0 && (forall|c: Seq<char>| !#[trigger] names_cwd(line, c))
            ==> found_in_line(f, line).cwd.len() == 0,
{
    if f.cwd.len() == 0 && (forall|c: Seq<char>| !#[trigger] names_cwd(line, c)) {
        if let Ok(v) = json::json_parse(line) {
            if let Some(JsonView::Str(c)) = v.get("cwd"@) {
                assert(!names_cwd(line, c));
            }
        }
    }
}

proof fn cwd_stays(f: Found, lines: Seq<Seq<char>>)
    requires
        f.cwd.len() > 0,
    ensures
        found_in_lines(f, lines).cwd == f.cwd,
    decreases lines.len(),
{
    if lines.len() > 0 && f.first_prompt.len() == 0 {
        line_keeps_cwd(f, lines[0], f.cwd);
        cwd_stays(found_in_line(f, lines[0]), lines.drop_first());
    }
}

proof fn cwd_found(f: Found, lines: Seq<Seq<char>>, i: int, cwd: Seq<char>)
    requires
        f.cwd.len() == 0,
        0 <= i < lines.len(),
        names_cwd(lines[i], cwd),
        forall|j: int, c: Seq<char>| 0 <= j < i ==> !#[trigger] names_cwd(lines[j], c),
    ensures
        found_in_lines(f, lines).cwd == cwd,
    decreases lines.len(),
{
    let g = found_in_line(f, lines[0]);
    let rest = lines.drop_first();
    line_keeps_cwd(f, lines[0], cwd);
    if i == 0 {
        cwd_stays(g, rest);
    } else {
        assert forall|c: Seq<char>| !#[trigger] names_cwd(lines[0], c) by {}
        assert forall|j: int, c: Seq<char>| 0 <= j < i - 1 implies !#[trigger] names_cwd(
            rest[j],
            c,
        ) by {
            assert(rest[j] == lines[j + 1]);
            assert(!names_cwd(lines[j + 1], c));
        }
        cwd_found(g, rest, i - 1, cwd);
    }
}

proof fn no_cwd_found(f: Found, lines: Seq<Seq<char>>)
    requires
        f.cwd.len() == 0,
        forall|j: int, c: Seq<char>| 0 <= j < lines.len() ==> !#[trigger] names_cwd(lines[j], c),
    ensures
        found_in_lines(f, lines).cwd.len() == 0,
    decreases lines.len(),
{
    if lines.len() > 0 {
        let rest = lines.drop_first();
        assert forall|c: Seq<char>| !#[trigger] names_cwd(lines[0], c) by {}
        line_keeps_cwd(f, lines[0], f.cwd);
        assert forall|j: int, c: Seq<char>| 0 <= j < rest.len() implies !#[trigger] names_cwd(
            rest[j],
            c,
        ) by {
            assert(rest[j] == lines[j + 1]);
            assert(!names_cwd(lines[j + 1], c));
        }
        no_cwd_found(found_in_line(f, lines[0]), rest);
    }
}

proof fn line_keeps_prompt(f: Found, line: Seq<char>, prompt: Seq<char>)
    ensures
        f.first_prompt.len() > 0 ==> found_in_line(f, line).first_prompt == f.first_prompt,
        f.first_prompt.len() == 0 && holds_prompt(line, prompt) ==> found_in_line(
            f,
            line,
        ).first_prompt == prompt && prompt.len() > 0,
        f.first_prompt.len() == 0 && (forall|p: Seq<char>| !#[trigger] holds_prompt(line, p))
            ==> found_in_line(f, line).first_prompt.len() == 0,
{
    if f.first_prompt.len() == 0 && (forall|p: Seq<char>| !#[trigger] holds_prompt(line, p)) {
        if let Ok(v) = json::json_parse(line) {
            if let Some(p) = prompt_of(v) {
                assert(!holds_prompt(line, p));
            }
        }
    }
}

proof fn prompt_stays(f: Found, lines: Seq<Seq<char>>)
    requires
        f.first_prompt.len() > 0,
    ensures
        found_in_lines(f, lines).first_prompt == f.first_prompt,
    decreases lines.len(),
{
    if lines.len() > 0 && f.cwd.len() == 0 {
        line_keeps_prompt(f, lines[0], f.first_prompt);
        prompt_stays(found_in_line(f, lines[0]), lines.drop_first());
    }
}

proof fn prompt_found(f: Found, lines: Seq<Seq<char>>, i: int, prompt: Seq<char>)
    requires
        f.first_prompt.len() == 0,
        0 <= i < lines.len(),
        holds_prompt(lines[i], prompt),
        forall|j: int, p: Seq<char>| 0 <= j < i ==> !#[trigger] holds_prompt(lines[j], p),
    ensures
        found_in_lines(f, lines).first_prompt == prompt,
    decreases lines.len(),
{
    let g = found_in_line(f, lines[0]);
    let rest = lines.drop_first();
    line_keeps_prompt(f, lines[0], prompt);
    if i == 0 {
        prompt_stays(g, rest);
    } else {
        assert forall|p: Seq<char>| !#[trigger] holds_prompt(lines[0], p) by {}
        assert forall|j: int, p: Seq<char>| 0 <= j < i - 1 implies !#[trigger] holds_prompt(
            rest[j],
            p,
        ) by {
            assert(rest[j] == lines[j + 1]);
            assert(!holds_prompt(lines[j + 1], p));
        }
        prompt_found(g, rest, i - 1, prompt);
    }
}

/// A transcript stands for a session exactly if it is named `<session>.jsonl`, and every such
/// file stands for one.
pub proof fn transcripts_are_sessions(files: Seq<TranscriptFile>, f: TranscriptFile, id: Seq<char>)
    requires
        id.len() > 0,
    ensures
        f.file_name@ == id + ".jsonl"@ ==> candidates_of(files.push(f)) == candidates_of(
            files,
        ).push(
            CandidateView {
                path: f.path@,
                project_dir: f.project_dir@,
                session_id: id,
                modified_epoch: f.modified_epoch,
                bytes: f.bytes,
            },
        ),
        !seqs::ends_with(f.file_name@, ".jsonl"@) ==> candidates_of(files.push(f))
            == candidates_of(files),
        candidates_of(Seq::empty()).len() == 0,
{
    assert(files.push(f).drop_last() =~= files);
    reveal_strlit(".jsonl");
    reveal_strlit("jsonl");
    assert(!"jsonl"@.contains('.'));
    assert(".jsonl"@ =~= seq!['.'] + "jsonl"@);
    assert(id + ".jsonl"@ =~= id + seq!['.'] + "jsonl"@);
    paths::stems_are_what_stands_before_the_extension(id, "jsonl"@, "jsonl"@);
    if !seqs::ends_with(f.file_name@, ".jsonl"@) {
        paths::other_names_have_no_stem(f.file_name@, "jsonl"@);
    }
}

/// The listed sessions are the newest: as many as there are, up to the limit, from the newest
/// to the oldest, and none that is not listed is newer than one that is.
pub proof fn listed_sessions_are_the_newest(
    files: Seq<TranscriptFile>,
    limit: int,
    i: int,
    j: int,
    c: CandidateView,
)
    requires
        0 <= limit,
    ensures
        listed(files, limit).len() == candidates_of(files).len() || (listed(files, limit).len()
            == limit && limit < candidates_of(files).len()),
        0 <= i < j < listed(files, limit).len() ==> listed(files, limit)[i].modified_epoch
            >= listed(files, limit)[j].modified_epoch,
        0 <= i < listed(files, limit).len() ==> candidates_of(files).contains(
            listed(files, limit)[i],
        ),
        candidates_of(files).contains(c) && !listed(files, limit).contains(c) && 0 <= i < listed(
            files,
            limit,
        ).len() ==> listed(files, limit)[i].modified_epoch >= c.modified_epoch,
{
    let le = newer();
    assert(sort::is_order(le)) by {
        assert forall|a: CandidateView, b: CandidateView| #[trigger] le(a, b) || le(b, a) by {
            seqs::text_le_total(a.session_id, b.session_id);
        }
        assert forall|a: CandidateView, b: CandidateView, d: CandidateView| #[trigger]
            le(a, b) && #[trigger] le(b, d) implies le(a, d) by {
            if a.modified_epoch == b.modified_epoch && b.modified_epoch == d.modified_epoch {
                seqs::text_le_transitive(a.session_id, b.session_id, d.session_id);
            }
        }
    }
    sort::sorted_sound(candidates_of(files), le);
    let all = sort::sorted(candidates_of(files), le);
    let some = listed(files, limit);
    if 0 <= i < j < some.len() {
        assert(le(all[i], all[j]));
    }
    if 0 <= i < some.len() {
        assert(all.contains(all[i]));
        sort::sorting_keeps_the_elements(candidates_of(files), le, all[i]);
    }
    sort::sorting_keeps_the_elements(candidates_of(files), le, c);
    if candidates_of(files).contains(c) && !some.contains(c) && 0 <= i < some.len() {
        let k = choose|k: int| 0 <= k < all.len() && all[k] == c;
        if k < some.len() {
            assert(some[k] == c);
        }
        assert(le(all[i], all[k]));
    }
}

} // verus!
