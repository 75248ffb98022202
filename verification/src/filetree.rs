//! The file tree beside the panes: what it lists, which directories it watches, and which
//! of its operations are allowed.
use crate::manager;
use crate::manager::Step;
use crate::seqs;
use crate::sort;
use crate::text;
use crate::tmux;
use crate::tmux::TmuxResult;
use vstd::prelude::*;

verus! {

// ── Listing ─────────────────────────────────────────────────────────────────────────────

/// A child of a directory.
#[derive(Clone, Debug, PartialEq, Eq)]
pub struct FileEntry {
    pub name: String,
    /// The absolute path.
    pub path: String,
    pub is_dir: bool,
}

#[verifier::ext_equal]
pub struct EntryView {
    pub name: Seq<char>,
    pub path: Seq<char>,
    pub is_dir: bool,
}

impl View for FileEntry {
    type V = EntryView;

    open spec fn view(&self) -> EntryView {
        EntryView { name: self.name@, path: self.path@, is_dir: self.is_dir }
    }
}

pub open spec fn entry_views(v: Seq<FileEntry>) -> Seq<EntryView> {
    v.map_values(|e: FileEntry| e@)
}

/// What a walk came upon, `depth` levels below where it began. A path that ends in `..` has
/// no name.
#[derive(Clone, Debug)]
pub struct Walked {
    pub depth: usize,
    pub name: Option<String>,
    pub path: String,
    pub is_dir: bool,
}

pub open spec fn entry_of(w: Walked) -> Option<EntryView> {
    match w.name {
        Some(n) => if w.depth == 0 {
            None
        } else {
            Some(EntryView { name: n@, path: w.path@, is_dir: w.is_dir })
        },
        None => None,
    }
}

/// The entries of a walk: all that was found but the directory itself and what has no name.
pub open spec fn entries_of(walked: Seq<Walked>) -> Seq<EntryView>
    decreases walked.len(),
{
    if walked.len() == 0 {
        Seq::empty()
    } else {
        let head = entries_of(walked.drop_last());
        match entry_of(walked.last()) {
            Some(e) => head.push(e),
            None => head,
        }
    }
}

/// The lower-case form of a text.
pub uninterp spec fn lowered(s: Seq<char>) -> Seq<char>;

/// `str::to_lowercase`: the lower-case form of `s`, which Unicode alone decides.
#[verifier::external_body]
fn to_lowercase(s: &str) -> (r: String)
    ensures
        r@ == lowered(s@),
{
    s.to_lowercase()
}

/// Directories come first; otherwise the names decide, whatever their case.
pub open spec fn tree_order() -> spec_fn(EntryView, EntryView) -> bool {
    |a: EntryView, b: EntryView|
        if a.is_dir != b.is_dir {
            a.is_dir
        } else {
            seqs::text_le(lowered(a.name), lowered(b.name))
        }
}

/// An entry with the key that orders it.
struct Keyed {
    key: String,
    entry: FileEntry,
}

/// The entries in the order of the tree.
fn in_tree_order(entries: Vec<FileEntry>) -> (r: Vec<FileEntry>)
    ensures
        entry_views(r@) == sort::sorted(entry_views(entries@), tree_order()),
{
    let ghost all = entries@;
    let mut keyed: Vec<Keyed> = Vec::new();
    for e in it: entries
        invariant
            it.seq() == all,
            keyed@.len() == it.index(),
            forall|j: int|
                0 <= j < keyed@.len() ==> (#[trigger] keyed@[j]).entry == all[j] && keyed@[j].key@
                    == lowered(all[j].name@),
    {
        let key = to_lowercase(e.name.as_str());
        keyed.push(Keyed { key, entry: e });
    }
    let le = |a: &Keyed, b: &Keyed| -> (o: bool)
        ensures
            o == keyed_le(*a, *b),
        {
            if a.entry.is_dir != b.entry.is_dir {
                a.entry.is_dir
            } else {
                text::text_le(a.key.as_str(), b.key.as_str())
            }
        };
    let ghost order = |a: Keyed, b: Keyed| keyed_le(a, b);
    let ghost unsorted = keyed@;
    let sorted = sort::sort_by(keyed, le, Ghost(order));
    proof {
        sort::sorted_map(unsorted, |k: Keyed| keyed_view(k), order, keyed_view_le());
        let a = unsorted.map_values(|k: Keyed| keyed_view(k));
        let want = entry_views(all);
        assert(a =~= want.map_values(|e: EntryView| (lowered(e.name), e)));
        sort::sorted_map(
            want,
            |e: EntryView| (lowered(e.name), e),
            tree_order(),
            keyed_view_le(),
        );
    }
    let ghost keyed_sorted = sorted@;
    let mut out: Vec<FileEntry> = Vec::new();
    for k in it: sorted
        invariant
            it.seq() == keyed_sorted,
            out@.len() == it.index(),
            forall|j: int| 0 <= j < out@.len() ==> #[trigger] out@[j] == keyed_sorted[j].entry,
    {
        out.push(k.entry);
    }
    proof {
        let want = sort::sorted(entry_views(all), tree_order());
        let mapped = want.map_values(|e: EntryView| (lowered(e.name), e));
        assert(keyed_sorted.map_values(|k: Keyed| keyed_view(k)) == mapped);
        assert(want.len() == mapped.len() == keyed_sorted.len());
        assert forall|i: int| 0 <= i < want.len() implies entry_views(out@)[i] == want[i] by {
            assert(keyed_sorted.map_values(|k: Keyed| keyed_view(k))[i] == mapped[i]);
        }
        assert(entry_views(out@) =~= want);
    }
    out
}

spec fn keyed_view(k: Keyed) -> (Seq<char>, EntryView) {
    (k.key@, k.entry@)
}

spec fn keyed_view_le() -> spec_fn((Seq<char>, EntryView), (Seq<char>, EntryView)) -> bool {
    |a: (Seq<char>, EntryView), b: (Seq<char>, EntryView)|
        if a.1.is_dir != b.1.is_dir {
            a.1.is_dir
        } else {
            seqs::text_le(a.0, b.0)
        }
}

spec fn keyed_le(a: Keyed, b: Keyed) -> bool {
    if a.entry.is_dir != b.entry.is_dir {
        a.entry.is_dir
    } else {
        seqs::text_le(a.key@, b.key@)
    }
}

/// The children of the directory `dir`, from a walk that goes one level down and leaves out
/// what is ignored or hidden. `is_dir` tells whether `dir` is a directory.
pub fn list_dir(dir: &str, is_dir: bool, walked: Vec<Walked>) -> (r: Result<
    Vec<FileEntry>,
    String,
>)
    ensures
        (if is_dir {
            r matches Ok(v) && entry_views(v@) == sort::sorted(entries_of(walked@), tree_order())
        } else {
            r matches Err(e) && e@ == "not a directory: "@ + dir@
        }),
{
    if !is_dir {
        let mut e = "not a directory: ".to_owned();
        e.append(dir);
        return Err(e);
    }
    let ghost all = walked@;
    let mut out: Vec<FileEntry> = Vec::new();
    assert(entry_views(out@) =~= Seq::empty());
    assert(all.take(0) =~= Seq::empty());
    for w in it: walked
        invariant
            it.seq() == all,
            entry_views(out@) == entries_of(all.take(it.index())),
    {
        let ghost k = it.index();
        let ghost before = out@;
        proof {
            assert(all.take(k + 1).drop_last() =~= all.take(k));
            assert(all.take(k + 1).last() == w);
        }
        if w.depth > 0 {
            if let Some(name) = w.name {
                let entry = FileEntry { name, path: w.path, is_dir: w.is_dir };
                out.push(entry);
                assert(entry_views(out@) =~= entry_views(before).push(entry@));
            }
        }
    }
    assert(all.take(all.len() as int) =~= all);
    Ok(in_tree_order(out))
}

/// In a listing no file comes before a directory.
pub proof fn directories_come_first(entries: Seq<EntryView>)
    ensures
        ({
            let listed = sort::sorted(entries, tree_order());
            forall|i: int, j: int|
                0 <= i < j < listed.len() && (#[trigger] listed[j]).is_dir ==> (
                #[trigger] listed[i]).is_dir
        }),
{
    let le = tree_order();
    assert forall|a: EntryView, b: EntryView| #[trigger] le(a, b) || le(b, a) by {
        seqs::text_le_total(lowered(a.name), lowered(b.name));
    }
    assert forall|a: EntryView, b: EntryView, c: EntryView| #[trigger]
        le(a, b) && #[trigger] le(b, c) implies le(a, c) by {
        if a.is_dir == b.is_dir && b.is_dir == c.is_dir {
            seqs::text_le_transitive(lowered(a.name), lowered(b.name), lowered(c.name));
        }
    }
    sort::sorted_sound(entries, le);
    let listed = sort::sorted(entries, le);
    assert forall|i: int, j: int| 0 <= i < j < listed.len() && (#[trigger] listed[j]).is_dir implies (
    #[trigger] listed[i]).is_dir by {
        assert(le(listed[i], listed[j]));
    }
}

// ── Panes ───────────────────────────────────────────────────────────────────────────────

pub open spec fn query_args(pane: Seq<char>, format: Seq<char>) -> Seq<Seq<char>> {
    seq!["display-message"@, "-p"@, "-t"@, pane, format]
}

pub open spec fn cwd_step(pane: Seq<char>, outs: Seq<TmuxResult>) -> manager::StepView<Seq<char>> {
    if !manager::is_tagged(pane, '%') {
        manager::StepView::Done(Err("bad pane id: "@ + pane))
    } else if outs.len() == 0 {
        manager::StepView::Run(query_args(pane, "#{pane_current_path}"@))
    } else {
        match outs[0] {
            Err(e) => manager::StepView::Done(Err(e@)),
            Ok(o) => if o.status != 0 {
                manager::StepView::Done(Err("pane cwd query failed: "@ + seqs::trim(o.stderr@)))
            } else if seqs::trim(o.stdout@).len() == 0 {
                manager::StepView::Done(Err("empty pane cwd"@))
            } else {
                manager::StepView::Done(Ok(seqs::trim(o.stdout@)))
            },
        }
    }
}

pub open spec fn command_step(pane: Seq<char>, outs: Seq<TmuxResult>) -> manager::StepView<
    Seq<char>,
> {
    if !manager::is_tagged(pane, '%') {
        manager::StepView::Done(Err("bad pane id: "@ + pane))
    } else if outs.len() == 0 {
        manager::StepView::Run(query_args(pane, "#{pane_current_command}"@))
    } else {
        match outs[0] {
            Err(e) => manager::StepView::Done(Err(e@)),
            Ok(o) => if o.status != 0 {
                manager::StepView::Done(
                    Err("pane command query failed: "@ + seqs::trim(o.stderr@)),
                )
            } else {
                manager::StepView::Done(Ok(seqs::trim(o.stdout@)))
            },
        }
    }
}

/// The directory of a pane, on which the tree is rooted.
pub fn active_pane_cwd(pane_id: &str, outs: &[TmuxResult]) -> (r: Step<String>)
    ensures
        r@ == cwd_step(pane_id@, outs@),
{
    if !manager::is_pane_id(pane_id) {
        let mut e = "bad pane id: ".to_owned();
        e.append(pane_id);
        return Step::Done(Err(e));
    }
    if outs.len() == 0 {
        let args = ["display-message", "-p", "-t", pane_id, "#{pane_current_path}"];
        assert(tmux::slices(args@) =~= query_args(pane_id@, "#{pane_current_path}"@));
        return Step::Run(tmux::owned(&args));
    }
    match &outs[0] {
        Err(e) => Step::Done(Err(e.clone())),
        Ok(o) => {
            if !o.ok() {
                let mut e = "pane cwd query failed: ".to_owned();
                e.append(text::trim(o.stderr.as_str()).as_str());
                return Step::Done(Err(e));
            }
            let cwd = o.trimmed();
            if text::chars_of(cwd.as_str()).len() == 0 {
                return Step::Done(Err("empty pane cwd".to_owned()));
            }
            Step::Done(Ok(cwd))
        },
    }
}

/// The command that runs in a pane.
pub fn pane_command(pane_id: &str, outs: &[TmuxResult]) -> (r: Step<String>)
    ensures
        r@ == command_step(pane_id@, outs@),
{
    if !manager::is_pane_id(pane_id) {
        let mut e = "bad pane id: ".to_owned();
        e.append(pane_id);
        return Step::Done(Err(e));
    }
    if outs.len() == 0 {
        let args = ["display-message", "-p", "-t", pane_id, "#{pane_current_command}"];
        assert(tmux::slices(args@) =~= query_args(pane_id@, "#{pane_current_command}"@));
        return Step::Run(tmux::owned(&args));
    }
    match &outs[0] {
        Err(e) => Step::Done(Err(e.clone())),
        Ok(o) => {
            if !o.ok() {
                let mut e = "pane command query failed: ".to_owned();
                e.append(text::trim(o.stderr.as_str()).as_str());
                return Step::Done(Err(e));
            }
            Step::Done(Ok(o.trimmed()))
        },
    }
}

// ── Operations on paths ─────────────────────────────────────────────────────────────────

/// What follows in an operation on a path.
#[derive(Debug, PartialEq)]
pub enum PathAction {
    /// Carry the operation out, and report how it ended.
    Act,
    Done(Result<(), String>),
}

/// Shows a path in the file manager. `exists` tells whether it is there, and `shown`, once
/// that was tried, whether showing it succeeded, or why it could not be tried.
pub fn reveal_in_finder(path: &str, exists: bool, shown: Option<Result<bool, String>>) -> (r:
    PathAction)
    ensures
        (if !exists {
            r matches PathAction::Done(Err(e)) && e@ == "no such path: "@ + path@
        } else {
            match shown {
                None => r == PathAction::Act,
                Some(Ok(true)) => r == PathAction::Done(Ok(())),
                Some(Ok(false)) => r matches PathAction::Done(Err(e)) && e@ == "open -R failed"@,
                Some(Err(m)) => r matches PathAction::Done(Err(e)) && e@ == "spawn open: "@ + m@,
            }
        }),
{
    if !exists {
        let mut e = "no such path: ".to_owned();
        e.append(path);
        return PathAction::Done(Err(e));
    }
    match shown {
        None => PathAction::Act,
        Some(Ok(ok)) => if ok {
            PathAction::Done(Ok(()))
        } else {
            PathAction::Done(Err("open -R failed".to_owned()))
        },
        Some(Err(m)) => {
            let mut e = "spawn open: ".to_owned();
            e.append(m.as_str());
            PathAction::Done(Err(e))
        },
    }
}

/// Moves a path to the trash. `exists` tells whether it is there, and `trashed`, once that
/// was tried, how it ended.
pub fn trash_path(path: &str, exists: bool, trashed: Option<Result<(), String>>) -> (r: PathAction)
    ensures
        (if !exists {
            r matches PathAction::Done(Err(e)) && e@ == "no such path: "@ + path@
        } else {
            match trashed {
                None => r == PathAction::Act,
                Some(Ok(_)) => r == PathAction::Done(Ok(())),
                Some(Err(m)) => r matches PathAction::Done(Err(e)) && e@ == "trash: "@ + m@,
            }
        }),
{
    if !exists {
        let mut e = "no such path: ".to_owned();
        e.append(path);
        return PathAction::Done(Err(e));
    }
    match trashed {
        None => PathAction::Act,
        Some(Ok(_)) => PathAction::Done(Ok(())),
        Some(Err(m)) => {
            let mut e = "trash: ".to_owned();
            e.append(m.as_str());
            PathAction::Done(Err(e))
        },
    }
}

/// A name for one entry of a directory: it is not blank at its ends, goes nowhere else, and
/// is one component.
pub open spec fn is_segment(name: Seq<char>) -> bool {
    name.len() > 0 && seqs::trim(name) == name && !name.contains('/') && !name.contains('\0')
        && name != "."@ && name != ".."@
}

/// Whether `name` may be given to a new entry.
pub fn is_safe_segment(name: &str) -> (r: bool)
    ensures
        r == is_segment(name@),
{
    let cs = text::chars_of(name);
    let mut i: usize = 0;
    let mut plain = true;
    while i < cs.len()
        invariant
            i <= cs@.len(),
            cs@ == name@,
            plain == (forall|j: int|
                0 <= j < i ==> (#[trigger] name@[j]) != '/' && name@[j] != '\0'),
        decreases cs@.len() - i,
    {
        if cs[i] == '/' || cs[i] == '\0' {
            plain = false;
            assert(name@[i as int] == '/' || name@[i as int] == '\0');
        }
        i += 1;
    }
    proof {
        if plain {
            assert(!name@.contains('/'));
            assert(!name@.contains('\0'));
        } else {
            let j = choose|j: int| 0 <= j < name@.len() && !(name@[j] != '/' && name@[j] != '\0');
            assert(name@.contains('/') || name@.contains('\0'));
        }
    }
    cs.len() > 0 && text::same(name, text::trim(name).as_str()) && plain && !text::same(name, ".")
        && !text::same(name, "..")
}

/// The path of the entry `name` of the directory `parent`.
pub open spec fn entry_path(parent: Seq<char>, name: Seq<char>) -> Seq<char> {
    if parent.len() == 0 || parent.last() == '/' {
        parent + name
    } else {
        parent + "/"@ + name
    }
}

/// A new entry lies directly in its directory: its path is that of the directory, with at
/// most one separator, and then one component that is neither `.` nor `..`.
pub proof fn entries_stay_inside(parent: Seq<char>, name: Seq<char>)
    requires
        is_segment(name),
    ensures
        seqs::starts_with(entry_path(parent, name), parent),
        seqs::ends_with(entry_path(parent, name), name),
        entry_path(parent, name).len() <= parent.len() + 1 + name.len(),
        forall|i: int|
            parent.len() < i < entry_path(parent, name).len() ==> #[trigger] entry_path(
                parent,
                name,
            )[i] != '/',
        name != "."@ && name != ".."@,
{
    let p = entry_path(parent, name);
    reveal_strlit("/");
    assert(p.take(parent.len() as int) =~= parent);
    assert(p.skip(p.len() - name.len()) =~= name);
    let off = p.len() - name.len();
    assert forall|i: int| parent.len() < i < p.len() implies #[trigger] p[i] != '/' by {
        assert(p[i] == name[i - off]);
    }
}

/// What is known so far of an entry that is to be created.
#[derive(Debug)]
pub struct EntryFacts {
    /// Whether the parent is a directory.
    pub parent_is_dir: Option<bool>,
    /// Whether there is something at the new path.
    pub exists: Option<bool>,
    /// How creating it ended.
    pub made: Option<Result<(), String>>,
}

/// What follows in creating an entry.
#[derive(Debug, PartialEq)]
pub enum EntryAction {
    AskParent,
    /// Ask whether there is something at this path.
    AskExists(String),
    /// Create it at this path.
    Make(String),
    Done(Result<String, String>),
}

pub enum EntryActionView {
    AskParent,
    AskExists(Seq<char>),
    Make(Seq<char>),
    Done(Result<Seq<char>, Seq<char>>),
}

impl View for EntryAction {
    type V = EntryActionView;

    open spec fn view(&self) -> EntryActionView {
        match self {
            EntryAction::AskParent => EntryActionView::AskParent,
            EntryAction::AskExists(p) => EntryActionView::AskExists(p@),
            EntryAction::Make(p) => EntryActionView::Make(p@),
            EntryAction::Done(Ok(p)) => EntryActionView::Done(Ok(p@)),
            EntryAction::Done(Err(e)) => EntryActionView::Done(Err(e@)),
        }
    }
}

pub open spec fn create_next(parent: Seq<char>, name: Seq<char>, is_dir: bool, facts: EntryFacts) -> EntryActionView {
    let path = entry_path(parent, name);
    match facts.parent_is_dir {
        None => EntryActionView::AskParent,
        Some(false) => EntryActionView::Done(Err("not a directory: "@ + parent)),
        Some(true) => if !is_segment(name) {
            EntryActionView::Done(Err("invalid name: "@ + name))
        } else {
            match facts.exists {
                None => EntryActionView::AskExists(path),
                Some(true) => EntryActionView::Done(Err("already exists: "@ + name)),
                Some(false) => match facts.made {
                    None => EntryActionView::Make(path),
                    Some(Ok(_)) => EntryActionView::Done(Ok(path)),
                    Some(Err(m)) => EntryActionView::Done(
                        Err((if is_dir {
                            "create dir: "@
                        } else {
                            "create file: "@
                        }) + m@),
                    ),
                },
            }
        },
    }
}

/// Creates the entry `name`, a directory or a file, in the directory `parent`, step by step.
/// Nothing that is there is ever replaced.
pub fn create_entry(parent: &str, name: &str, is_dir: bool, facts: EntryFacts) -> (r: EntryAction)
    ensures
        r@ == create_next(parent@, name@, is_dir, facts),
{
    match facts.parent_is_dir {
        None => {
            return EntryAction::AskParent;
        },
        Some(there) => if !there {
            let mut e = "not a directory: ".to_owned();
            e.append(parent);
            return EntryAction::Done(Err(e));
        },
    }
    if !is_safe_segment(name) {
        let mut e = "invalid name: ".to_owned();
        e.append(name);
        return EntryAction::Done(Err(e));
    }
    let cs = text::chars_of(parent);
    let mut path = parent.to_owned();
    if cs.len() > 0 && cs[cs.len() - 1] != '/' {
        path.append("/");
    }
    path.append(name);
    match facts.exists {
        None => {
            return EntryAction::AskExists(path);
        },
        Some(there) => if there {
            let mut e = "already exists: ".to_owned();
            e.append(name);
            return EntryAction::Done(Err(e));
        },
    }
    match facts.made {
        None => EntryAction::Make(path),
        Some(Ok(_)) => EntryAction::Done(Ok(path)),
        Some(Err(m)) => {
            let mut e = if is_dir {
                "create dir: ".to_owned()
            } else {
                "create file: ".to_owned()
            };
            e.append(m.as_str());
            EntryAction::Done(Err(e))
        },
    }
}

/// Nothing is created over what is there, outside the directory, or where there is no
/// directory.
pub proof fn creating_never_clobbers(
    parent: Seq<char>,
    name: Seq<char>,
    is_dir: bool,
    facts: EntryFacts,
)
    ensures
        create_next(parent, name, is_dir, facts) is Make ==> facts.exists == Some(false)
            && facts.parent_is_dir == Some(true) && is_segment(name) && create_next(
            parent,
            name,
            is_dir,
            facts,
        ) == EntryActionView::Make(entry_path(parent, name)),
{
}

// ── Watching ────────────────────────────────────────────────────────────────────────────

/// A directory whose contents have changed.
#[derive(Clone, Debug, PartialEq, Eq)]
pub struct FileChange {
    pub dir: String,
}

pub open spec fn change_views(v: Seq<FileChange>) -> Seq<Seq<char>> {
    v.map_values(|c: FileChange| c.dir@)
}

/// The directories that an event changed, each once, from the directories of the paths that
/// it names.
pub fn changed_dirs(dirs: &[String]) -> (r: Vec<FileChange>)
    ensures
        change_views(r@) == seqs::distinct(seqs::views(dirs@)),
{
    let once = text::distinct(dirs);
    let ghost all = once@;
    let mut out: Vec<FileChange> = Vec::new();
    for d in it: once
        invariant
            it.seq() == all,
            out@.len() == it.index(),
            forall|j: int| 0 <= j < out@.len() ==> (#[trigger] out@[j]).dir == all[j],
    {
        out.push(FileChange { dir: d });
    }
    assert(change_views(out@) =~= seqs::views(all));
    out
}

/// The pieces of a path that count: those that are not empty, and no `.` but one in front.
pub open spec fn path_parts(pieces: Seq<Seq<char>>) -> Seq<Seq<char>>
    decreases pieces.len(),
{
    if pieces.len() == 0 {
        Seq::empty()
    } else {
        let head = path_parts(pieces.drop_last());
        if pieces.last().len() == 0 || (pieces.last() == "."@ && pieces.len() > 1) {
            head
        } else {
            head.push(pieces.last())
        }
    }
}

/// The plain way to write a path, which all ways to write it share: without repeated or
/// trailing slashes, and without `.` but in front.
pub open spec fn plain_path(path: Seq<char>) -> Seq<char> {
    (if path.len() > 0 && path[0] == '/' {
        "/"@
    } else {
        Seq::empty()
    }) + seqs::join(path_parts(seqs::split(path, '/')), "/"@)
}

/// Writes a path in the plain way.
fn plain(path: &str) -> (r: String)
    ensures
        r@ == plain_path(path@),
{
    let pieces = text::split(path, '/');
    let ghost all = seqs::views(pieces@);
    let mut parts: Vec<String> = Vec::new();
    let mut i: usize = 0;
    proof {
        assert(all.take(0) =~= Seq::empty());
        assert(seqs::views(parts@) =~= Seq::empty());
    }
    while i < pieces.len()
        invariant
            i <= pieces@.len(),
            all == seqs::views(pieces@),
            seqs::views(parts@) == path_parts(all.take(i as int)),
        decreases pieces@.len() - i,
    {
        let ghost before = parts@;
        let piece = pieces[i].as_str();
        proof {
            assert(all.take(i + 1).drop_last() =~= all.take(i as int));
            assert(all.take(i + 1).last() == piece@);
        }
        if text::chars_of(piece).len() > 0 && (i == 0 || !text::same(piece, ".")) {
            parts.push(piece.to_owned());
            assert(seqs::views(parts@) =~= seqs::views(before).push(piece@));
        }
        i += 1;
    }
    assert(all.take(pieces@.len() as int) =~= all);
    let cs = text::chars_of(path);
    let mut out = String::new();
    if cs.len() > 0 && cs[0] == '/' {
        out.append("/");
    }
    out.append(text::join(&parts, "/").as_str());
    out
}

pub open spec fn plain_paths(paths: Seq<String>) -> Seq<Seq<char>> {
    paths.map_values(|p: String| plain_path(p@))
}

/// The paths that a list holds, each written in the plain way.
pub open spec fn members(paths: Seq<String>) -> Set<Seq<char>> {
    Set::new(|d: Seq<char>| plain_paths(paths).contains(d))
}

/// The directories that are watched. Two ways to write a path are one directory.
pub struct WatchSet {
    dirs: Vec<String>,
}

impl View for WatchSet {
    type V = Set<Seq<char>>;

    closed spec fn view(&self) -> Set<Seq<char>> {
        members(self.dirs@)
    }
}

/// What is to be changed about the watched directories.
pub struct WatchPlan {
    pub unwatch: Vec<String>,
    pub watch: Vec<String>,
}

/// The directories that exist among those that are wanted.
pub open spec fn wanted(dirs: Seq<(String, bool)>) -> Set<Seq<char>> {
    Set::new(
        |d: Seq<char>|
            exists|i: int|
                0 <= i < dirs.len() && plain_path((#[trigger] dirs[i]).0@) == d && dirs[i].1,
    )
}

/// The list gives an existing directory as `path`.
pub open spec fn gives(dirs: Seq<(String, bool)>, path: Seq<char>) -> bool {
    exists|k: int| 0 <= k < dirs.len() && (#[trigger] dirs[k]).0@ == path && dirs[k].1
}

fn wanted_dirs(dirs: &[(String, bool)]) -> (r: Vec<String>)
    ensures
        members(r@) == wanted(dirs@),
        forall|i: int| 0 <= i < r@.len() ==> gives(dirs@, (#[trigger] r@[i])@),
{
    let mut out: Vec<String> = Vec::new();
    let mut i: usize = 0;
    while i < dirs.len()
        invariant
            i <= dirs@.len(),
            forall|d: Seq<char>|
                plain_paths(out@).contains(d) <==> exists|k: int|
                    0 <= k < i && plain_path((#[trigger] dirs@[k]).0@) == d && dirs@[k].1,
            forall|j: int| 0 <= j < out@.len() ==> gives(dirs@, (#[trigger] out@[j])@),
        decreases dirs@.len() - i,
    {
        let ghost before = out@;
        if dirs[i].1 {
            let dir = dirs[i].0.clone();
            out.push(dir);
            proof {
                let x = plain_path(dirs@[i as int].0@);
                assert(plain_paths(out@) =~= plain_paths(before).push(x));
                assert forall|d: Seq<char>|
                    plain_paths(out@).contains(d) <==> exists|k: int|
                        0 <= k < i + 1 && plain_path((#[trigger] dirs@[k]).0@) == d
                            && dirs@[k].1 by {
                    contains_pushed(plain_paths(before), x, d);
                    if plain_paths(before).contains(d) {
                        let k = choose|k: int|
                            0 <= k < i && plain_path((#[trigger] dirs@[k]).0@) == d && dirs@[k].1;
                        assert(0 <= k < i + 1 && plain_path(dirs@[k].0@) == d && dirs@[k].1);
                    }
                }
                assert forall|j: int| 0 <= j < out@.len() implies gives(
                    dirs@,
                    (#[trigger] out@[j])@,
                ) by {
                    if j < before.len() {
                        assert(out@[j] == before[j]);
                    } else {
                        assert(dirs@[i as int].1 && dirs@[i as int].0@ == out@[j]@);
                    }
                }
            }
        }
        i += 1;
    }
    assert(members(out@) =~= wanted(dirs@));
    out
}

proof fn contains_pushed(s: Seq<Seq<char>>, x: Seq<char>, d: Seq<char>)
    ensures
        s.push(x).contains(d) <==> s.contains(d) || d == x,
{
    let t = s.push(x);
    if s.contains(d) {
        let i = choose|i: int| 0 <= i < s.len() && s[i] == d;
        assert(t[i] == d);
    }
    if d == x {
        assert(t[s.len() as int] == d);
    }
}

fn plain_all(paths: &[String]) -> (r: Vec<String>)
    ensures
        seqs::views(r@) == plain_paths(paths@),
{
    let mut out: Vec<String> = Vec::new();
    let mut i: usize = 0;
    while i < paths.len()
        invariant
            i <= paths@.len(),
            seqs::views(out@) == plain_paths(paths@.take(i as int)),
        decreases paths@.len() - i,
    {
        let ghost before = out@;
        let p = plain(paths[i].as_str());
        out.push(p);
        proof {
            assert(seqs::views(out@) =~= seqs::views(before).push(p@));
            assert(plain_paths(paths@.take(i + 1)) =~= plain_paths(paths@.take(i as int)).push(p@));
        }
        i += 1;
    }
    assert(paths@.take(paths@.len() as int) =~= paths@);
    out
}

/// The members of `a` that are not in `b`, each once and as `a` writes it.
fn difference(a: &[String], b: &[String]) -> (r: Vec<String>)
    ensures
        members(r@) == members(a@).difference(members(b@)),
        plain_paths(r@).no_duplicates(),
        forall|i: int| 0 <= i < r@.len() ==> a@.contains(#[trigger] r@[i]),
{
    let others = plain_all(b);
    let mut seen: Vec<String> = Vec::new();
    let mut out: Vec<String> = Vec::new();
    let mut i: usize = 0;
    assert(seqs::views(seen@) =~= plain_paths(out@));
    while i < a.len()
        invariant
            i <= a@.len(),
            seqs::views(others@) == plain_paths(b@),
            seqs::views(seen@) == plain_paths(out@),
            forall|d: Seq<char>|
                plain_paths(out@).contains(d) <==> plain_paths(a@).take(i as int).contains(d)
                    && !plain_paths(b@).contains(d),
            plain_paths(out@).no_duplicates(),
            forall|j: int| 0 <= j < out@.len() ==> a@.contains(#[trigger] out@[j]),
        decreases a@.len() - i,
    {
        let ghost before = plain_paths(out@);
        let ghost prior = seen@;
        let p = plain(a[i].as_str());
        let ghost x = p@;
        if !text::has_string(&others, p.as_str()) && !text::has_string(&seen, p.as_str()) {
            out.push(a[i].clone());
            seen.push(p);
            assert(plain_paths(out@) =~= before.push(x));
            assert(seqs::views(seen@) =~= seqs::views(prior).push(x));
        }
        proof {
            let head = plain_paths(a@).take(i as int);
            let next = plain_paths(a@).take(i + 1);
            assert(next =~= head.push(x));
            assert forall|d: Seq<char>|
                plain_paths(out@).contains(d) <==> next.contains(d) && !plain_paths(b@).contains(
                    d,
                ) by {
                contains_pushed(head, x, d);
                contains_pushed(before, x, d);
                assert(before.contains(d) <==> head.contains(d) && !plain_paths(b@).contains(d));
                assert(before.contains(x) <==> head.contains(x) && !plain_paths(b@).contains(x));
            }
        }
        i += 1;
    }
    proof {
        assert(plain_paths(a@).take(a@.len() as int) =~= plain_paths(a@));
        assert(members(out@) =~= members(a@).difference(members(b@)));
    }
    out
}

impl WatchSet {
    /// No directory is watched.
    pub fn new() -> (r: Self)
        ensures
            r@ == Set::<Seq<char>>::empty(),
    {
        let r = WatchSet { dirs: Vec::new() };
        assert(r@ =~= Set::empty());
        r
    }

    /// What is to be changed so that exactly the existing directories among `dirs` are
    /// watched; each of `dirs` says whether it exists. A directory is watched under a path that
    /// `dirs` gives it.
    pub fn set_watched(&self, dirs: &[(String, bool)]) -> (r: WatchPlan)
        ensures
            members(r.unwatch@) == self@.difference(wanted(dirs@)),
            members(r.watch@) == wanted(dirs@).difference(self@),
            plain_paths(r.unwatch@).no_duplicates(),
            plain_paths(r.watch@).no_duplicates(),
            forall|i: int| 0 <= i < r.watch@.len() ==> gives(dirs@, (#[trigger] r.watch@[i])@),
    {
        let want = wanted_dirs(dirs);
        let plan = WatchPlan {
            unwatch: difference(&self.dirs, &want),
            watch: difference(&want, &self.dirs),
        };
        proof {
            assert forall|i: int| 0 <= i < plan.watch@.len() implies gives(
                dirs@,
                (#[trigger] plan.watch@[i])@,
            ) by {
                assert(want@.contains(plan.watch@[i]));
                let m = choose|m: int| 0 <= m < want@.len() && want@[m] == plan.watch@[i];
                assert(want@[m]@ == plan.watch@[i]@);
            }
        }
        plan
    }

    /// Takes note of a directory that is no longer watched.
    pub fn unwatched(&mut self, dir: &str)
        ensures
            final(self)@ == old(self)@.remove(plain_path(dir@)),
    {
        let gone = vec![dir.to_owned()];
        let left = difference(&self.dirs, &gone);
        proof {
            let x = plain_path(dir@);
            assert(plain_paths(gone@) =~= Seq::empty().push(x));
            assert forall|d: Seq<char>| plain_paths(gone@).contains(d) <==> d == x by {
                contains_pushed(Seq::empty(), x, d);
            }
            assert(members(left@) =~= self@.remove(x));
        }
        self.dirs = left;
    }

    /// Takes note of a directory that is now watched.
    pub fn watched(&mut self, dir: &str)
        ensures
            final(self)@ == old(self)@.insert(plain_path(dir@)),
    {
        let ghost x = plain_path(dir@);
        let ghost before = plain_paths(self.dirs@);
        self.dirs.push(dir.to_owned());
        proof {
            assert(plain_paths(self.dirs@) =~= before.push(x));
            assert(before == plain_paths(old(self).dirs@));
            assert forall|d: Seq<char>|
                self@.contains(d) == #[trigger] old(self)@.insert(x).contains(d) by {
                contains_pushed(before, x, d);
            }
            assert(self@ =~= old(self)@.insert(x));
        }
    }
}

/// Carrying out a plan leaves exactly the wanted directories watched, except those that
/// could not be watched.
pub proof fn plan_reaches_what_is_wanted(
    now: Set<Seq<char>>,
    want: Set<Seq<char>>,
    failed: Set<Seq<char>>,
)
    requires
        failed.subset_of(want.difference(now)),
    ensures
        now.difference(now.difference(want)).union(want.difference(now).difference(failed))
            == want.difference(failed),
{
    assert(now.difference(now.difference(want)).union(want.difference(now).difference(failed))
        =~= want.difference(failed));
}

proof fn split_with_slash(s: Seq<char>)
    ensures
        seqs::split(s.push('/'), '/') == seqs::split(s, '/').push(Seq::empty()),
    decreases s.len(),
{
    let t = s.push('/');
    let i = seqs::index_of(s, '/');
    let k = seqs::index_of(t, '/');
    seqs::index_of_bounds(s, '/');
    seqs::index_of_bounds(t, '/');
    assert(t[s.len() as int] == '/');
    if i < s.len() {
        assert(t[i] == '/');
        assert(k == i) by {
            if k < i {
                assert(s[k] == t[k]);
            }
        }
        assert(t.take(i) =~= s.take(i));
        assert(t.skip(i + 1) =~= s.skip(i + 1).push('/'));
        split_with_slash(s.skip(i + 1));
        assert(seqs::split(t, '/') =~= seqs::split(s, '/').push(Seq::empty()));
    } else {
        assert(k == s.len()) by {
            if k < s.len() {
                assert(s[k] == t[k]);
            }
        }
        assert(t.take(k) =~= s);
        assert(t.skip(k + 1) =~= Seq::empty());
        assert(seqs::split(Seq::empty(), '/') =~= seq![Seq::empty()]);
        assert(seqs::split(t, '/') =~= seqs::split(s, '/').push(Seq::empty()));
    }
}

/// A slash behind a path makes it no other directory.
pub proof fn trailing_slash_does_not_count(path: Seq<char>)
    requires
        path.len() > 0,
    ensures
        plain_path(path.push('/')) == plain_path(path),
{
    split_with_slash(path);
    let pieces = seqs::split(path, '/');
    assert(pieces.push(Seq::empty()).drop_last() =~= pieces);
}

/// Everything that the walk came upon below the directory, and that has a name, is listed with
/// its name and its path; and nothing else is.
pub proof fn listings_hold_what_was_found(walked: Seq<Walked>, w: Walked, e: EntryView)
    ensures
        walked.contains(w) && w.depth > 0 && (w.name matches Some(n) && e == (EntryView {
            name: n@,
            path: w.path@,
            is_dir: w.is_dir,
        })) ==> sort::sorted(entries_of(walked), tree_order()).contains(e),
        sort::sorted(entries_of(walked), tree_order()).contains(e) ==> exists|i: int|
            0 <= i < walked.len() && (#[trigger] walked[i]).depth > 0 && walked[i].path@ == e.path
                && walked[i].is_dir == e.is_dir && (walked[i].name matches Some(n) && n@ == e.name),
{
    sort::sorting_keeps_the_elements(entries_of(walked), tree_order(), e);
    if walked.contains(w) && w.depth > 0 && (w.name matches Some(n) && e == (EntryView {
        name: n@,
        path: w.path@,
        is_dir: w.is_dir,
    })) {
        let i = choose|i: int| 0 <= i < walked.len() && walked[i] == w;
        found_is_entry(walked, i, e);
    }
    if entries_of(walked).contains(e) {
        let k = entry_was_found(walked, e);
        assert(walked[k].depth > 0);
    }
}

proof fn found_is_entry(walked: Seq<Walked>, i: int, e: EntryView)
    requires
        0 <= i < walked.len(),
        walked[i].depth > 0,
        walked[i].name matches Some(n) && e == (EntryView {
            name: n@,
            path: walked[i].path@,
            is_dir: walked[i].is_dir,
        }),
    ensures
        entries_of(walked).contains(e),
    decreases walked.len(),
{
    let head = walked.drop_last();
    let all = entries_of(walked);
    if i < head.len() {
        assert(head[i] == walked[i]);
        found_is_entry(head, i, e);
        let k = choose|k: int| 0 <= k < entries_of(head).len() && entries_of(head)[k] == e;
        assert(all[k] == e);
    } else {
        assert(all[all.len() - 1] == e);
    }
}

proof fn entry_was_found(walked: Seq<Walked>, e: EntryView) -> (i: int)
    requires
        entries_of(walked).contains(e),
    ensures
        0 <= i < walked.len(),
        walked[i].depth > 0,
        walked[i].path@ == e.path,
        walked[i].is_dir == e.is_dir,
        walked[i].name matches Some(n) && n@ == e.name,
    decreases walked.len(),
{
    let head = walked.drop_last();
    let all = entries_of(walked);
    let before = entries_of(head);
    let k = choose|k: int| 0 <= k < all.len() && all[k] == e;
    if k < before.len() {
        assert(before[k] == e);
        let i = entry_was_found(head, e);
        assert(head[i] == walked[i]);
        i
    } else {
        walked.len() - 1
    }
}

/// Entries of one kind are listed by their names, whatever their case.
pub proof fn names_are_in_order(entries: Seq<EntryView>, i: int, j: int)
    requires
        0 <= i < j < sort::sorted(entries, tree_order()).len(),
    ensures
        ({
            let listed = sort::sorted(entries, tree_order());
            listed[i].is_dir == listed[j].is_dir ==> seqs::text_le(
                lowered(listed[i].name),
                lowered(listed[j].name),
            )
        }),
{
    let le = tree_order();
    assert(sort::is_order(le)) by {
        assert forall|a: EntryView, b: EntryView| #[trigger] le(a, b) || le(b, a) by {
            seqs::text_le_total(lowered(a.name), lowered(b.name));
        }
        assert forall|a: EntryView, b: EntryView, c: EntryView| #[trigger]
            le(a, b) && #[trigger] le(b, c) implies le(a, c) by {
            if a.is_dir == b.is_dir && b.is_dir == c.is_dir {
                seqs::text_le_transitive(lowered(a.name), lowered(b.name), lowered(c.name));
            }
        }
    }
    sort::sorted_sound(entries, le);
    let listed = sort::sorted(entries, le);
    assert(le(listed[i], listed[j]));
}

/// tmux is asked of the very pane where it is and what it runs, and what it answers is taken
/// without the white space around it; a pane that is nowhere is an error.
pub proof fn panes_are_asked_where_they_are(pane: Seq<char>, digits: Seq<char>, outs: Seq<TmuxResult>)
    requires
        pane == seq!['%'] + digits,
        seqs::all_digits(digits),
        digits.len() > 0,
    ensures
        cwd_step(pane, Seq::empty()) == manager::StepView::<Seq<char>>::Run(
            seq!["display-message"@, "-p"@, "-t"@, pane, "#{pane_current_path}"@],
        ),
        command_step(pane, Seq::empty()) == manager::StepView::<Seq<char>>::Run(
            seq!["display-message"@, "-p"@, "-t"@, pane, "#{pane_current_command}"@],
        ),
        outs.len() > 0 && (outs[0] matches Ok(o) && o.status == 0) ==> command_step(pane, outs)
            == manager::StepView::Done(Ok::<Seq<char>, Seq<char>>(seqs::trim(outs[0]->Ok_0.stdout@))),
        outs.len() > 0 && (outs[0] matches Ok(o) && o.status == 0 && seqs::trim(o.stdout@).len()
            > 0) ==> cwd_step(pane, outs) == manager::StepView::Done(
            Ok::<Seq<char>, Seq<char>>(seqs::trim(outs[0]->Ok_0.stdout@)),
        ),
        outs.len() > 0 && (outs[0] matches Ok(o) && (o.status != 0 || seqs::trim(o.stdout@).len()
            == 0)) ==> cwd_step(pane, outs) matches manager::StepView::Done(Err(_)),
{
    assert(pane.skip(1) =~= digits);
    assert(pane[0] == '%');
}

/// An entry is made exactly where it was asked for: behind its directory and a slash. Making
/// it is the last thing that is asked, and its path is what comes back.
pub proof fn entries_are_made_where_asked(
    parent: Seq<char>,
    name: Seq<char>,
    is_dir: bool,
    facts: EntryFacts,
)
    requires
        parent.len() > 0,
        parent.last() != '/',
        is_segment(name),
        facts.parent_is_dir == Some(true),
    ensures
        facts.exists is None ==> create_next(parent, name, is_dir, facts)
            == EntryActionView::AskExists(parent + "/"@ + name),
        facts.exists == Some(false) && facts.made is None ==> create_next(
            parent,
            name,
            is_dir,
            facts,
        ) == EntryActionView::Make(parent + "/"@ + name),
        facts.exists == Some(false) && facts.made == Some(Ok::<(), String>(())) ==> create_next(
            parent,
            name,
            is_dir,
            facts,
        ) == EntryActionView::Done(Ok(parent + "/"@ + name)),
        facts.exists == Some(true) ==> create_next(parent, name, is_dir, facts)
            == EntryActionView::Done(Err("already exists: "@ + name)),
        facts.exists == Some(false) && (facts.made matches Some(Err(_))) ==> create_next(
            parent,
            name,
            is_dir,
            facts,
        ) matches EntryActionView::Done(Err(_)),
{
}

/// A name is one component of a path exactly if it is not blank at an end, holds no slash and
/// no zero character, and is neither `.` nor `..`.
pub proof fn components_are_exact(name: Seq<char>)
    ensures
        is_segment(name) ==> name.len() > 0 && !seqs::is_white(name[0]) && !seqs::is_white(
            name.last(),
        ) && !name.contains('/') && !name.contains('\0') && name != "."@ && name != ".."@,
        name.len() > 0 && !seqs::is_white(name[0]) && !seqs::is_white(name.last())
            && !name.contains('/') && !name.contains('\0') && name != "."@ && name != ".."@
            ==> is_segment(name),
{
    if name.len() > 0 {
        if seqs::is_white(name[0]) {
            seqs::trim_start_len(name.drop_first());
            trim_end_len(seqs::trim_start(name));
        } else if seqs::is_white(name.last()) {
            trim_end_len(name.drop_last());
        }
    }
}

proof fn trim_end_len(s: Seq<char>)
    ensures
        seqs::trim_end(s).len() <= s.len(),
    decreases s.len(),
{
    if s.len() > 0 && seqs::is_white(s.last()) {
        trim_end_len(s.drop_last());
    }
}

/// A path of plain components is its own plain form, from the root or not.
pub proof fn plain_paths_stay(parts: Seq<Seq<char>>)
    requires
        parts.len() > 0,
        forall|i: int|
            0 <= i < parts.len() ==> (#[trigger] parts[i]).len() > 0 && !parts[i].contains('/')
                && parts[i] != "."@,
    ensures
        plain_path(seqs::join(parts, seq!['/'])) == seqs::join(parts, seq!['/']),
        plain_path(seq!['/'] + seqs::join(parts, seq!['/'])) == seq!['/'] + seqs::join(
            parts,
            seq!['/'],
        ),
{
    reveal_strlit("/");
    assert("/"@ =~= seq!['/']);
    let path = seqs::join(parts, seq!['/']);
    seqs::split_undoes_join(parts, '/');
    parts_stay(parts);
    assert(parts[0].len() > 0);
    if parts.len() == 1 {
        assert(path == parts[0]);
    } else {
        seqs::join_parts(parts, seq!['/'], 0);
    }
    assert(path[0] == parts[0][0]) by {
        reveal_with_fuel(seqs::join, 2);
    }
    assert(parts[0].contains(parts[0][0]));
    assert(Seq::<char>::empty() + path =~= path);
    let rooted = seq!['/'] + path;
    let all = seq![Seq::<char>::empty()] + parts;
    assert(all.drop_first() =~= parts);
    assert(all[0] =~= Seq::<char>::empty());
    seqs::join_parts(all, seq!['/'], 0);
    assert(seqs::join(all, seq!['/']) =~= rooted);
    assert forall|i: int| 0 <= i < all.len() implies !(#[trigger] all[i]).contains('/') by {
        if i > 0 {
            assert(all[i] == parts[i - 1]);
        }
    }
    seqs::split_undoes_join(all, '/');
    rooted_parts(parts);
}

proof fn parts_stay(parts: Seq<Seq<char>>)
    requires
        forall|i: int| 0 <= i < parts.len() ==> (#[trigger] parts[i]).len() > 0 && parts[i] != "."@,
    ensures
        path_parts(parts) == parts,
    decreases parts.len(),
{
    if parts.len() > 0 {
        let head = parts.drop_last();
        assert forall|i: int| 0 <= i < head.len() implies (#[trigger] head[i]).len() > 0 && head[i]
            != "."@ by {
            assert(head[i] == parts[i]);
        }
        parts_stay(head);
        assert(parts[parts.len() - 1].len() > 0);
    }
    assert(path_parts(parts) =~= parts);
}

proof fn rooted_parts(parts: Seq<Seq<char>>)
    requires
        forall|i: int| 0 <= i < parts.len() ==> (#[trigger] parts[i]).len() > 0 && parts[i] != "."@,
    ensures
        path_parts(seq![Seq::<char>::empty()] + parts) == parts,
    decreases parts.len(),
{
    let all = seq![Seq::<char>::empty()] + parts;
    if parts.len() > 0 {
        let head = parts.drop_last();
        assert(all.drop_last() =~= seq![Seq::<char>::empty()] + head);
        assert forall|i: int| 0 <= i < head.len() implies (#[trigger] head[i]).len() > 0 && head[i]
            != "."@ by {
            assert(head[i] == parts[i]);
        }
        rooted_parts(head);
        assert(parts[parts.len() - 1].len() > 0);
        assert(all.last() == parts.last());
    } else {
        assert(all.drop_last() =~= Seq::empty());
        assert(path_parts(all.drop_last()).len() == 0);
    }
    assert(path_parts(all) =~= parts);
}

} // verus!
