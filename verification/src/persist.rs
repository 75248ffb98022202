//! The layout of the tabs, as it is kept between runs.
use crate::seqs;
use vstd::prelude::*;

verus! {

/// The version of the file format.
pub const SCHEMA_VERSION: u32 = 1;

/// One tab.
#[derive(Clone, Debug, PartialEq)]
pub struct TabLayout {
    /// The position in the tab strip, counted from 0.
    pub index: u32,
    /// The working directory of the first pane.
    pub cwd: String,
    /// The tmux window id, by which a tab is found again. Older files have none.
    pub window_id: Option<String>,
    /// The title that the user gave the tab.
    pub custom_title: Option<String>,
}

/// All tabs.
#[derive(Clone, Debug, PartialEq)]
pub struct LayoutSnapshot {
    pub schema_version: u32,
    pub active_tab_id: Option<String>,
    pub tabs: Vec<TabLayout>,
}

/// The snapshot as it is written: with the version of this program, whatever it said.
pub fn save_layout(snapshot: LayoutSnapshot) -> (r: LayoutSnapshot)
    ensures
        r == (LayoutSnapshot { schema_version: SCHEMA_VERSION, ..snapshot }),
{
    LayoutSnapshot {
        schema_version: SCHEMA_VERSION,
        active_tab_id: snapshot.active_tab_id,
        tabs: snapshot.tabs,
    }
}

/// What came of reading a file: its contents, parsed or not; that it is not there; or why
/// it could not be read.
pub enum FileRead<T> {
    Parsed(Result<T, String>),
    Missing,
    Failed(String),
}

/// What a load of `what` returns: nothing for a file that is not there, and an error for
/// one that could not be read or does not parse.
pub open spec fn load_result<T>(what: Seq<char>, read: FileRead<T>, r: Result<Option<T>, String>) -> bool {
    match read {
        FileRead::Parsed(Ok(v)) => r == Ok::<Option<T>, String>(Some(v)),
        FileRead::Parsed(Err(e)) => r matches Err(m) && m@ == "parse "@ + what + ": "@ + e@,
        FileRead::Missing => r == Ok::<Option<T>, String>(None),
        FileRead::Failed(e) => r matches Err(m) && m@ == "read "@ + what + ": "@ + e@,
    }
}

pub(crate) fn loaded<T>(what: &str, read: FileRead<T>) -> (r: Result<Option<T>, String>)
    ensures
        load_result(what@, read, r),
{
    match read {
        FileRead::Parsed(Ok(v)) => Ok(Some(v)),
        FileRead::Parsed(Err(e)) => {
            let mut m = "parse ".to_owned();
            m.append(what);
            m.append(": ");
            m.append(e.as_str());
            Err(m)
        },
        FileRead::Missing => Ok(None),
        FileRead::Failed(e) => {
            let mut m = "read ".to_owned();
            m.append(what);
            m.append(": ");
            m.append(e.as_str());
            Err(m)
        },
    }
}

/// The kept layout: nothing on a first run, an error where the file is broken.
pub fn load_layout(read: FileRead<LayoutSnapshot>) -> (r: Result<Option<LayoutSnapshot>, String>)
    ensures
        load_result("layout"@, read, r),
{
    loaded("layout", read)
}

/// A file that parses is loaded as what it holds, a missing one as nothing, and a broken one
/// is an error that says what was to be loaded and why it was not.
pub proof fn loading_says_what_happened<T>(
    what: Seq<char>,
    read: FileRead<T>,
    r: Result<Option<T>, String>,
)
    requires
        load_result(what, read, r),
    ensures
        read matches FileRead::Parsed(Ok(v)) ==> (r matches Ok(Some(w)) && w == v),
        read is Missing ==> r matches Ok(None),
        r matches Ok(None) ==> read is Missing,
        read matches FileRead::Parsed(Err(e)) ==> (r matches Err(m) && seqs::starts_with(
            m@,
            "parse "@ + what,
        ) && seqs::ends_with(m@, e@)),
        read matches FileRead::Failed(e) ==> (r matches Err(m) && seqs::starts_with(
            m@,
            "read "@ + what,
        ) && seqs::ends_with(m@, e@)),
{
    if let FileRead::Parsed(Err(e)) = read {
        message_ends("parse "@ + what, e@);
    }
    if let FileRead::Failed(e) = read {
        message_ends("read "@ + what, e@);
    }
}

proof fn message_ends(front: Seq<char>, back: Seq<char>)
    ensures
        seqs::starts_with(front + ": "@ + back, front),
        seqs::ends_with(front + ": "@ + back, back),
{
    seqs::ends_of_concat(front + ": "@, back);
    seqs::ends_of_concat(front, ": "@ + back);
    assert(front + ": "@ + back =~= front + (": "@ + back));
}

} // verus!
