//! The token-burn meter: a scanner over transcripts that reads only what was appended since
//! the last pass, and the two rolling windows that it sums up.
//!
//! Every line that is not a complete, well-formed record of an assistant message is skipped:
//! a broken transcript costs one message in the total, never the meter.
use crate::json;
use crate::json::Json;
use crate::json::JsonView;
use crate::seqs;
use crate::sort;
use crate::text;
use crate::time;
use vstd::hash_set::StringHashSet;
use vstd::prelude::*;

verus! {

/// The short window: five hours.
pub const FIVE_HOUR_MS: i64 = 18_000_000;

/// The long window: seven days.
pub const WEEK_MS: i64 = 604_800_000;

/// The time over which velocity is measured: thirty minutes.
pub const VELOCITY_MS: i64 = 1_800_000;

/// A file that was last written this long ago holds no record of the long window: seven
/// days and one hour.
pub const MTIME_CUTOFF_MS: i64 = 608_400_000;

/// The share of one model in a window.
#[derive(Clone, Debug, PartialEq)]
pub struct ModelUsage {
    pub model: String,
    pub total_tokens: u64,
    pub messages: u64,
}

/// The sums of one window.
#[derive(Clone, Debug, PartialEq)]
pub struct UsageWindow {
    /// Input, output and cache together.
    pub total_tokens: u64,
    pub output_tokens: u64,
    pub input_tokens: u64,
    pub cache_tokens: u64,
    pub messages: u64,
    /// The models, the heaviest first, equals by name.
    pub by_model: Vec<ModelUsage>,
}

/// Both windows at one time.
#[derive(Clone, Debug, PartialEq)]
pub struct UsageSnapshot {
    pub five_hour: UsageWindow,
    pub week: UsageWindow,
    /// Input and output, without cache, of the last thirty minutes.
    pub velocity_tokens: u64,
    pub computed_at_ms: i64,
}

/// What has been read of one file.
#[derive(Clone, Copy, Debug, PartialEq)]
pub struct Cursor {
    pub mtime_ms: i64,
    pub len: u64,
    /// The bytes that are done with; always the end of a line.
    pub offset: u64,
}

/// One assistant message.
struct Record {
    ts_ms: i64,
    id: String,
    model: String,
    input: u64,
    output: u64,
    cache: u64,
}

/// What a record of an assistant message holds.
#[verifier::ext_equal]
pub struct RecordView {
    pub ts_ms: int,
    pub id: Seq<char>,
    pub model: Seq<char>,
    pub input: nat,
    pub output: nat,
    pub cache: nat,
}

impl RecordView {
    pub open spec fn tokens(self) -> nat {
        self.input + self.output + self.cache
    }
}

spec fn record_view(r: Record) -> RecordView {
    RecordView {
        ts_ms: r.ts_ms as int,
        id: r.id@,
        model: r.model@,
        input: r.input as nat,
        output: r.output as nat,
        cache: r.cache as nat,
    }
}

spec fn records_view(v: Seq<Record>) -> Seq<RecordView> {
    v.map_values(|r: Record| record_view(r))
}

// ── Records ─────────────────────────────────────────────────────────────────────────────

pub open spec fn ids(records: Seq<RecordView>) -> Set<Seq<char>>
    decreases records.len(),
{
    if records.len() == 0 {
        Set::empty()
    } else {
        ids(records.drop_last()).insert(records.last().id)
    }
}

/// All tokens of `records`.
pub open spec fn burn(records: Seq<RecordView>) -> nat
    decreases records.len(),
{
    if records.len() == 0 {
        0
    } else {
        burn(records.drop_last()) + records.last().tokens()
    }
}

pub open spec fn count_field(usage: JsonView, key: Seq<char>) -> nat {
    match usage.u64_field(key) {
        Some(n) => n as nat,
        None => 0,
    }
}

/// The record that a transcript entry writes, where it is an assistant message with an id,
/// a timestamp not before `cutoff` and tokens to account for.
pub open spec fn record_of(v: JsonView, cutoff: int) -> Option<RecordView> {
    match (v.get("message"@), v.str_field("timestamp"@)) {
        (Some(msg), Some(stamp)) => match (
            msg.get("usage"@),
            msg.str_field("id"@),
            time::iso_ms(vstd::utf8::encode_utf8(stamp)),
        ) {
            (Some(usage), Some(id), Some(ts)) => {
                let r = RecordView {
                    ts_ms: ts,
                    id,
                    model: match msg.str_field("model"@) {
                        Some(m) => m,
                        None => "unknown"@,
                    },
                    input: count_field(usage, "input_tokens"@),
                    output: count_field(usage, "output_tokens"@),
                    cache: count_field(usage, "cache_creation_input_tokens"@) + count_field(
                        usage,
                        "cache_read_input_tokens"@,
                    ),
                };
                if v.str_field("type"@) == Some("assistant"@) && ts >= cutoff && r.tokens() > 0 {
                    Some(r)
                } else {
                    None
                }
            },
            _ => None,
        },
        _ => None,
    }
}

/// The records after one more entry. A message that is there already is not counted again,
/// and one that would take the total over what a `u64` holds is left out.
pub open spec fn with_value(records: Seq<RecordView>, v: JsonView, cutoff: int) -> Seq<RecordView> {
    match record_of(v, cutoff) {
        Some(r) => if ids(records).contains(r.id) || burn(records) + r.tokens() > u64::MAX {
            records
        } else {
            records.push(r)
        },
        None => records,
    }
}

/// The records after one more line.
pub open spec fn with_line(records: Seq<RecordView>, line: Seq<u8>, cutoff: int) -> Seq<RecordView> {
    if !vstd::utf8::valid_utf8(line) {
        records
    } else {
        match json::json_parse(vstd::utf8::decode_utf8(line)) {
            Ok(v) => with_value(records, v, cutoff),
            Err(_) => records,
        }
    }
}

/// The position of the first line feed in `s`, or its length.
pub open spec fn line_end(s: Seq<u8>) -> int
    decreases s.len(),
{
    if s.len() == 0 || s[0] == 10 {
        0
    } else {
        1 + line_end(s.drop_first())
    }
}

pub proof fn line_end_bounds(s: Seq<u8>)
    ensures
        0 <= line_end(s) <= s.len(),
        line_end(s) < s.len() ==> s[line_end(s)] == 10,
        forall|j: int| 0 <= j < line_end(s) ==> s[j] != 10,
    decreases s.len(),
{
    if s.len() > 0 && s[0] != 10 {
        let t = s.drop_first();
        line_end_bounds(t);
        assert forall|j: int| 0 <= j < line_end(s) implies s[j] != 10 by {
            if j > 0 {
                assert(t[j - 1] == s[j]);
            }
        }
    }
}

proof fn line_end_is(s: Seq<u8>, i: int)
    requires
        0 <= i <= s.len(),
        i < s.len() ==> s[i] == 10,
        forall|j: int| 0 <= j < i ==> s[j] != 10,
    ensures
        line_end(s) == i,
{
    line_end_bounds(s);
    let k = line_end(s);
    if k < i {
        assert(s[k] != 10);
    }
    if i < k {
        assert(s[i] != 10);
    }
}

/// The records after the complete lines of `s`. What follows the last line feed is left for
/// a later read.
pub open spec fn with_bytes(records: Seq<RecordView>, s: Seq<u8>, cutoff: int) -> Seq<RecordView>
    decreases s.len(),
    via with_bytes_decreases
{
    let i = line_end(s);
    if i < s.len() {
        with_bytes(with_line(records, s.take(i), cutoff), s.skip(i + 1), cutoff)
    } else {
        records
    }
}

#[via_fn]
proof fn with_bytes_decreases(records: Seq<RecordView>, s: Seq<u8>, cutoff: int) {
    line_end_bounds(s);
}

/// The bytes of `s` up to and with its last line feed.
pub open spec fn consumed(s: Seq<u8>) -> int
    decreases s.len(),
{
    if s.len() == 0 {
        0
    } else if s.last() == 10 {
        s.len() as int
    } else {
        consumed(s.drop_last())
    }
}

/// The records that are not older than `cutoff`.
pub open spec fn kept(records: Seq<RecordView>, cutoff: int) -> Seq<RecordView>
    decreases records.len(),
{
    if records.len() == 0 {
        Seq::empty()
    } else if records.last().ts_ms >= cutoff {
        kept(records.drop_last(), cutoff).push(records.last())
    } else {
        kept(records.drop_last(), cutoff)
    }
}

// ── Windows ─────────────────────────────────────────────────────────────────────────────

pub open spec fn sum_input(rs: Seq<RecordView>) -> nat
    decreases rs.len(),
{
    if rs.len() == 0 {
        0
    } else {
        sum_input(rs.drop_last()) + rs.last().input
    }
}

pub open spec fn sum_output(rs: Seq<RecordView>) -> nat
    decreases rs.len(),
{
    if rs.len() == 0 {
        0
    } else {
        sum_output(rs.drop_last()) + rs.last().output
    }
}

pub open spec fn sum_cache(rs: Seq<RecordView>) -> nat
    decreases rs.len(),
{
    if rs.len() == 0 {
        0
    } else {
        sum_cache(rs.drop_last()) + rs.last().cache
    }
}

/// The tokens of the records of one model.
pub open spec fn model_tokens(rs: Seq<RecordView>, model: Seq<char>) -> nat
    decreases rs.len(),
{
    if rs.len() == 0 {
        0
    } else {
        model_tokens(rs.drop_last(), model) + (if rs.last().model == model {
            rs.last().tokens()
        } else {
            0
        })
    }
}

/// How many records are of one model.
pub open spec fn model_messages(rs: Seq<RecordView>, model: Seq<char>) -> nat
    decreases rs.len(),
{
    if rs.len() == 0 {
        0
    } else {
        model_messages(rs.drop_last(), model) + (if rs.last().model == model {
            1nat
        } else {
            0
        })
    }
}

pub open spec fn models(rs: Seq<RecordView>) -> Seq<Seq<char>> {
    rs.map_values(|r: RecordView| r.model)
}

#[verifier::ext_equal]
pub struct ModelView {
    pub model: Seq<char>,
    pub total_tokens: nat,
    pub messages: nat,
}

impl View for ModelUsage {
    type V = ModelView;

    open spec fn view(&self) -> ModelView {
        ModelView {
            model: self.model@,
            total_tokens: self.total_tokens as nat,
            messages: self.messages as nat,
        }
    }
}

pub open spec fn usage_views(v: Seq<ModelUsage>) -> Seq<ModelView> {
    v.map_values(|m: ModelUsage| m@)
}

/// The shares of the models, in the order in which they first occur.
pub open spec fn shares(rs: Seq<RecordView>) -> Seq<ModelView> {
    seqs::distinct(models(rs)).map_values(
        |m: Seq<char>|
            ModelView {
                model: m,
                total_tokens: model_tokens(rs, m),
                messages: model_messages(rs, m),
            },
    )
}

/// The order of the shares: more tokens first, equals by name.
pub open spec fn heavier() -> spec_fn(ModelView, ModelView) -> bool {
    |a: ModelView, b: ModelView|
        a.total_tokens > b.total_tokens || (a.total_tokens == b.total_tokens && seqs::text_le(
            a.model,
            b.model,
        ))
}

/// `w` sums up the records `rs`.
pub open spec fn is_window(w: UsageWindow, rs: Seq<RecordView>) -> bool {
    &&& w.total_tokens == burn(rs)
    &&& w.input_tokens == sum_input(rs)
    &&& w.output_tokens == sum_output(rs)
    &&& w.cache_tokens == sum_cache(rs)
    &&& w.messages == rs.len()
    &&& usage_views(w.by_model@) == sort::sorted(shares(rs), heavier())
}

/// `s` shows the two windows over `records` as they end at `now_ms`.
pub open spec fn is_snapshot(s: UsageSnapshot, records: Seq<RecordView>, now_ms: i64) -> bool {
    &&& is_window(s.five_hour, kept(records, now_ms - FIVE_HOUR_MS))
    &&& is_window(s.week, kept(records, now_ms - WEEK_MS))
    &&& s.velocity_tokens == sum_input(kept(records, now_ms - VELOCITY_MS)) + sum_output(
        kept(records, now_ms - VELOCITY_MS),
    )
    &&& s.computed_at_ms == now_ms
}

proof fn burn_is_sum(rs: Seq<RecordView>)
    ensures
        burn(rs) == sum_input(rs) + sum_output(rs) + sum_cache(rs),
    decreases rs.len(),
{
    if rs.len() > 0 {
        burn_is_sum(rs.drop_last());
    }
}

proof fn model_tokens_bound(rs: Seq<RecordView>, m: Seq<char>)
    ensures
        model_tokens(rs, m) <= burn(rs),
        model_messages(rs, m) <= rs.len(),
    decreases rs.len(),
{
    if rs.len() > 0 {
        model_tokens_bound(rs.drop_last(), m);
    }
}

proof fn burn_prefix(rs: Seq<RecordView>, k: int)
    requires
        0 <= k <= rs.len(),
    ensures
        burn(rs.take(k)) <= burn(rs),
    decreases rs.len(),
{
    if k == rs.len() {
        assert(rs.take(k) =~= rs);
    } else {
        assert(rs.drop_last().take(k) =~= rs.take(k));
        burn_prefix(rs.drop_last(), k);
    }
}

proof fn kept_sums(rs: Seq<RecordView>, cutoff: int, model: Seq<char>)
    ensures
        burn(kept(rs, cutoff)) <= burn(rs),
        sum_input(kept(rs, cutoff)) <= sum_input(rs),
        sum_output(kept(rs, cutoff)) <= sum_output(rs),
        sum_cache(kept(rs, cutoff)) <= sum_cache(rs),
        kept(rs, cutoff).len() <= rs.len(),
        model_tokens(kept(rs, cutoff), model) <= model_tokens(rs, model),
        model_messages(kept(rs, cutoff), model) <= model_messages(rs, model),
    decreases rs.len(),
{
    if rs.len() > 0 {
        let head = rs.drop_last();
        kept_sums(head, cutoff, model);
        if rs.last().ts_ms >= cutoff {
            assert(kept(rs, cutoff).drop_last() =~= kept(head, cutoff));
        }
    }
}

/// What one more record changes in the shares.
proof fn shares_push(rs: Seq<RecordView>, r: RecordView)
    ensures
        models(rs.push(r)) == models(rs).push(r.model),
        models(rs).contains(r.model) ==> seqs::distinct(models(rs.push(r))) == seqs::distinct(
            models(rs),
        ),
        !models(rs).contains(r.model) ==> seqs::distinct(models(rs.push(r))) == seqs::distinct(
            models(rs),
        ).push(r.model),
        forall|m: Seq<char>| #[trigger]
            model_tokens(rs.push(r), m) == model_tokens(rs, m) + (if m == r.model {
                r.tokens()
            } else {
                0
            }),
        forall|m: Seq<char>| #[trigger]
            model_messages(rs.push(r), m) == model_messages(rs, m) + (if m == r.model {
                1nat
            } else {
                0
            }),
        !models(rs).contains(r.model) ==> model_tokens(rs, r.model) == 0 && model_messages(
            rs,
            r.model,
        ) == 0,
{
    assert(rs.push(r).drop_last() =~= rs);
    assert(models(rs.push(r)) =~= models(rs).push(r.model));
    assert(models(rs.push(r)).drop_last() =~= models(rs));
    if !models(rs).contains(r.model) {
        absent_model(rs, r.model);
    }
}

proof fn absent_model(rs: Seq<RecordView>, m: Seq<char>)
    requires
        !models(rs).contains(m),
    ensures
        model_tokens(rs, m) == 0,
        model_messages(rs, m) == 0,
    decreases rs.len(),
{
    if rs.len() > 0 {
        assert(models(rs)[rs.len() - 1] == rs.last().model);
        assert forall|i: int| 0 <= i < rs.drop_last().len() implies models(rs.drop_last())[i]
            != m by {
            assert(models(rs)[i] == models(rs.drop_last())[i]);
        }
        absent_model(rs.drop_last(), m);
    }
}

// ── Cursors ─────────────────────────────────────────────────────────────────────────────

pub open spec fn cursor_of(cursors: Seq<(Seq<char>, Cursor)>, path: Seq<char>) -> Option<Cursor>
    decreases cursors.len(),
{
    if cursors.len() == 0 {
        None
    } else if cursors[0].0 == path {
        Some(cursors[0].1)
    } else {
        cursor_of(cursors.drop_first(), path)
    }
}

/// The cursors with that of `path` set to `c`.
pub open spec fn with_cursor(
    cursors: Seq<(Seq<char>, Cursor)>,
    path: Seq<char>,
    c: Cursor,
) -> Seq<(Seq<char>, Cursor)>
    decreases cursors.len(),
{
    if cursors.len() == 0 {
        seq![(path, c)]
    } else if cursors[0].0 == path {
        seq![(path, c)] + cursors.drop_first()
    } else {
        seq![cursors[0]] + with_cursor(cursors.drop_first(), path, c)
    }
}

/// The cursors of the files that were seen.
pub open spec fn seen_cursors(
    cursors: Seq<(Seq<char>, Cursor)>,
    visited: Seq<Seq<char>>,
) -> Seq<(Seq<char>, Cursor)>
    decreases cursors.len(),
{
    if cursors.len() == 0 {
        Seq::empty()
    } else {
        let head = seen_cursors(cursors.drop_last(), visited);
        if visited.contains(cursors.last().0) {
            head.push(cursors.last())
        } else {
            head
        }
    }
}

/// Where reading a file goes on, or `None` where nothing of it has to be read. A file that
/// shrank is read from its start.
pub open spec fn start_of(prev: Option<Cursor>, len: u64, mtime_ms: i64) -> Option<u64> {
    match prev {
        Some(c) => if c.mtime_ms == mtime_ms && c.len == len {
            None
        } else if len < c.len || c.offset > len {
            Some(0)
        } else {
            Some(c.offset)
        },
        None => Some(0),
    }
}

/// A file as one pass sees it: its metadata, and what was read of it from where
/// [`UsageScanner::read_start`] said; `None` where it could not be read.
pub struct FileTail {
    pub path: String,
    pub len: u64,
    pub mtime_ms: i64,
    pub tail: Option<Vec<u8>>,
}

/// The scanner. It is kept from pass to pass: what it remembers is what makes the next pass
/// read only what is new.
pub struct UsageScanner {
    cursors: Vec<(String, Cursor)>,
    seen: StringHashSet,
    records: Vec<Record>,
    burn: u64,
    bytes_read: u64,
}

/// What a scanner remembers.
#[verifier::ext_equal]
pub struct ScannerView {
    pub cursors: Seq<(Seq<char>, Cursor)>,
    pub records: Seq<RecordView>,
    pub bytes_read: nat,
}

impl View for UsageScanner {
    type V = ScannerView;

    closed spec fn view(&self) -> ScannerView {
        ScannerView {
            cursors: self.cursors@.map_values(|c: (String, Cursor)| (c.0@, c.1)),
            records: records_view(self.records@),
            bytes_read: self.bytes_read as nat,
        }
    }
}

/// No two records have the same id.
pub open spec fn ids_differ(records: Seq<RecordView>) -> bool {
    forall|i: int, j: int|
        0 <= i < j < records.len() ==> (#[trigger] records[i]).id != (#[trigger] records[j]).id
}

impl UsageScanner {
    /// The ids of the records are those that count as seen; no id occurs twice; and the
    /// total fits into a `u64`.
    pub closed spec fn wf(&self) -> bool {
        &&& self.seen@ == ids(self@.records)
        &&& ids_differ(self@.records)
        &&& self.burn == burn(self@.records)
    }

    /// No message is counted twice, and what is counted stays within a `u64`.
    pub proof fn wf_records(&self)
        requires
            self.wf(),
        ensures
            ids_differ(self@.records),
            burn(self@.records) <= u64::MAX,
    {
    }

    /// A scanner that has read nothing.
    pub fn new() -> (r: Self)
        ensures
            r.wf(),
            r@.cursors.len() == 0,
            r@.records.len() == 0,
            r@.bytes_read == 0,
    {
        let r = UsageScanner {
            cursors: Vec::new(),
            seen: StringHashSet::new(),
            records: Vec::new(),
            burn: 0,
            bytes_read: 0,
        };
        assert(r@.records =~= Seq::empty());
        r
    }

    /// The bytes read since the scanner was made.
    pub fn bytes_read(&self) -> (r: u64)
        ensures
            r == self@.bytes_read,
    {
        self.bytes_read
    }

    fn cursor_at(&self, path: &str) -> (r: Option<Cursor>)
        ensures
            r == cursor_of(self@.cursors, path@),
    {
        let ghost all = self@.cursors;
        let mut i: usize = 0;
        assert(all.skip(0) =~= all);
        while i < self.cursors.len()
            invariant
                i <= self.cursors@.len(),
                all == self@.cursors,
                cursor_of(all, path@) == cursor_of(all.skip(i as int), path@),
            decreases self.cursors@.len() - i,
        {
            assert(all.skip(i as int)[0] == all[i as int]);
            assert(all.skip(i as int).drop_first() =~= all.skip(i + 1));
            if text::same(self.cursors[i].0.as_str(), path) {
                return Some(self.cursors[i].1);
            }
            i += 1;
        }
        None
    }

    fn set_cursor(&mut self, path: &str, c: Cursor)
        requires
            old(self).wf(),
        ensures
            final(self).wf(),
            final(self)@ == (ScannerView {
                cursors: with_cursor(old(self)@.cursors, path@, c),
                ..old(self)@
            }),
    {
        let ghost all = self@.cursors;
        let ghost before = *self;
        let mut i: usize = 0;
        assert(all.skip(0) =~= all);
        assert(all.take(0) + with_cursor(all, path@, c) =~= with_cursor(all, path@, c));
        while i < self.cursors.len() && !text::same(self.cursors[i].0.as_str(), path)
            invariant
                i <= self.cursors@.len(),
                *self == before,
                all == self@.cursors,
                with_cursor(all, path@, c) == all.take(i as int) + with_cursor(
                    all.skip(i as int),
                    path@,
                    c,
                ),
            decreases self.cursors@.len() - i,
        {
            proof {
                assert(all.skip(i as int)[0] == all[i as int]);
                assert(all.skip(i as int).drop_first() =~= all.skip(i + 1));
                assert(all.take(i as int) + (seq![all[i as int]] + with_cursor(
                    all.skip(i + 1),
                    path@,
                    c,
                )) =~= all.take(i + 1) + with_cursor(all.skip(i + 1), path@, c));
            }
            i += 1;
        }
        if i < self.cursors.len() {
            assert(all.skip(i as int)[0] == all[i as int]);
            self.cursors.set(i, (path.to_owned(), c));
            assert(self@.cursors =~= all.take(i as int) + (seq![(path@, c)] + all.skip(
                i as int,
            ).drop_first()));
        } else {
            self.cursors.push((path.to_owned(), c));
            assert(self@.cursors =~= all.take(i as int) + seq![(path@, c)]);
        }
        assert(self@.records == before@.records);
    }

    /// Whether a file that was last written at `mtime_ms` can hold a record of the long
    /// window.
    pub fn wants(mtime_ms: i64, now_ms: i64) -> (r: bool)
        requires
            now_ms >= i64::MIN + MTIME_CUTOFF_MS,
        ensures
            r == (mtime_ms >= now_ms - MTIME_CUTOFF_MS),
    {
        mtime_ms >= now_ms - MTIME_CUTOFF_MS
    }

    /// Where reading the file `path` goes on, or `None` where it is unchanged and nothing
    /// of it has to be read.
    pub fn read_start(&self, path: &str, len: u64, mtime_ms: i64) -> (r: Option<u64>)
        ensures
            r == start_of(cursor_of(self@.cursors, path@), len, mtime_ms),
    {
        match self.cursor_at(path) {
            Some(c) => if c.mtime_ms == mtime_ms && c.len == len {
                None
            } else if len < c.len || c.offset > len {
                Some(0)
            } else {
                Some(c.offset)
            },
            None => Some(0),
        }
    }

    /// Takes one parsed transcript entry.
    pub fn ingest_value(&mut self, v: &Json, record_cutoff: i64)
        requires
            old(self).wf(),
        ensures
            final(self).wf(),
            final(self)@ == (ScannerView {
                records: with_value(old(self)@.records, v@, record_cutoff as int),
                ..old(self)@
            }),
    {
        match v.str_field("type") {
            Some(t) => {
                if !text::same(t, "assistant") {
                    return;
                }
            },
            None => return,
        }
        let msg = match v.get("message") {
            Some(m) => m,
            None => return,
        };
        let usage = match msg.get("usage") {
            Some(u) => u,
            None => return,
        };
        let id = match msg.str_field("id") {
            Some(i) => i,
            None => return,
        };
        let ts_ms: i64 = match v.str_field("timestamp") {
            Some(t) => match time::parse_iso8601_ms(t) {
                Some(n) => n,
                None => return,
            },
            None => return,
        };
        let input: u64 = field_count(usage, "input_tokens");
        let output: u64 = field_count(usage, "output_tokens");
        let created: u64 = field_count(usage, "cache_creation_input_tokens");
        let read: u64 = field_count(usage, "cache_read_input_tokens");
        if self.seen.contains(id) || ts_ms < record_cutoff {
            return;
        }
        let total: u128 = self.burn as u128 + input as u128 + output as u128 + created as u128
            + read as u128;
        if total > u64::MAX as u128 || total == self.burn as u128 {
            return;
        }
        let model = match msg.str_field("model") {
            Some(m) => m.to_owned(),
            None => "unknown".to_owned(),
        };
        let record = Record { ts_ms, id: id.to_owned(), model, input, output, cache: created + read };
        let ghost before = self@.records;
        self.seen.insert(id.to_owned());
        self.burn = total as u64;
        self.records.push(record);
        proof {
            let r = record_view(record);
            assert(self@.records =~= before.push(r));
            assert(record_of(v@, record_cutoff as int) == Some(r));
            ids_push(before, r);
            assert(before.push(r).drop_last() =~= before);
        }
    }

    /// Takes one transcript line.
    pub fn ingest_line(&mut self, line: &[u8], record_cutoff: i64)
        requires
            old(self).wf(),
        ensures
            final(self).wf(),
            final(self)@ == (ScannerView {
                records: with_line(old(self)@.records, line@, record_cutoff as int),
                ..old(self)@
            }),
    {
        if let Some(t) = text::utf8_text(line) {
            if let Ok(v) = json::parse(t.as_str()) {
                self.ingest_value(&v, record_cutoff);
            }
        }
    }

    /// Takes the complete lines of `buf`, and returns how many bytes they are.
    fn ingest_bytes(&mut self, buf: &[u8], record_cutoff: i64) -> (r: usize)
        requires
            old(self).wf(),
        ensures
            final(self).wf(),
            final(self)@ == (ScannerView {
                records: with_bytes(old(self)@.records, buf@, record_cutoff as int),
                ..old(self)@
            }),
            r == consumed(buf@),
            r <= buf@.len(),
    {
        let ghost start = self@;
        let mut pos: usize = 0;
        assert(buf@.skip(0) =~= buf@);
        loop
            invariant_except_break
                pos <= buf@.len(),
                self.wf(),
                self@ == (ScannerView { records: self@.records, ..start }),
                with_bytes(start.records, buf@, record_cutoff as int) == with_bytes(
                    self@.records,
                    buf@.skip(pos as int),
                    record_cutoff as int,
                ),
                pos == 0 || buf@[pos - 1] == 10,
            ensures
                pos <= buf@.len(),
                self.wf(),
                self@ == (ScannerView {
                    records: with_bytes(start.records, buf@, record_cutoff as int),
                    ..start
                }),
                pos == 0 || buf@[pos - 1] == 10,
                forall|j: int| pos <= j < buf@.len() ==> buf@[j] != 10,
            decreases buf@.len() - pos,
        {
            let n: usize = buf.len();
            let mut k: usize = pos;
            while k < n && buf[k] != 10
                invariant
                    pos <= k <= n,
                    n == buf@.len(),
                    forall|j: int| pos <= j < k ==> buf@[j] != 10,
                decreases n - k,
            {
                k += 1;
            }
            let ghost rest = buf@.skip(pos as int);
            proof {
                assert forall|j: int| 0 <= j < k - pos implies rest[j] != 10 by {
                    assert(rest[j] == buf@[pos + j]);
                }
                line_end_is(rest, k - pos);
            }
            if k == n {
                break;
            }
            let line = vstd::slice::slice_subrange(buf, pos, k);
            proof {
                assert(line@ =~= rest.take(k - pos));
                assert(rest.skip(k - pos + 1) =~= buf@.skip(k + 1));
            }
            self.ingest_line(line, record_cutoff);
            pos = k + 1;
        }
        proof {
            consumed_is(buf@, pos as int);
        }
        pos
    }

    /// Takes what was read of one file from where [`UsageScanner::read_start`] said; `None`
    /// where it could not be read, which leaves the scanner as it is, so that the next pass
    /// tries again.
    pub fn ingest_file(
        &mut self,
        path: &str,
        len: u64,
        mtime_ms: i64,
        tail: Option<&[u8]>,
        record_cutoff: i64,
    )
        requires
            old(self).wf(),
            tail matches Some(buf) ==> old(self)@.bytes_read + buf@.len() <= u64::MAX && len
                + buf@.len() <= u64::MAX,
        ensures
            final(self).wf(),
            final(self)@ == after_file(
                old(self)@,
                path@,
                len,
                mtime_ms,
                (match tail {
                    Some(buf) => Some(buf@),
                    None => None,
                }),
                record_cutoff as int,
            ),
    {
        let start: u64 = match self.read_start(path, len, mtime_ms) {
            Some(s) => s,
            None => return,
        };
        if let Some(buf) = tail {
            let ghost before = self@;
            let done = self.ingest_bytes(buf, record_cutoff);
            self.bytes_read = self.bytes_read + buf.len() as u64;
            assert(self@.records == with_bytes(before.records, buf@, record_cutoff as int));
            assert(self@.cursors =~= before.cursors);
            self.set_cursor(path, Cursor { mtime_ms, len, offset: start + done as u64 });
        }
    }

    /// Forgets the records that are older than `record_cutoff`, and their ids.
    pub fn prune(&mut self, record_cutoff: i64)
        requires
            old(self).wf(),
        ensures
            final(self).wf(),
            final(self)@ == (ScannerView {
                records: kept(old(self)@.records, record_cutoff as int),
                ..old(self)@
            }),
    {
        let ghost all = self@.records;
        let ghost start = self@;
        let mut i: usize = 0;
        let mut out: Vec<Record> = Vec::new();
        let mut seen = StringHashSet::new();
        let mut total: u64 = 0;
        proof {
            assert(all.take(0) =~= Seq::empty());
            assert(records_view(out@) =~= Seq::empty());
        }
        while i < self.records.len()
            invariant
                i <= self.records@.len(),
                all == records_view(self.records@),
                burn(all) <= u64::MAX,
                records_view(out@) == kept(all.take(i as int), record_cutoff as int),
                seen@ == ids(kept(all.take(i as int), record_cutoff as int)),
                total == burn(kept(all.take(i as int), record_cutoff as int)),
            decreases self.records@.len() - i,
        {
            let r = &self.records[i];
            proof {
                assert(all.take(i + 1).drop_last() =~= all.take(i as int));
                assert(all.take(i + 1).last() == record_view(*r));
                kept_sums(all.take(i + 1), record_cutoff as int, Seq::empty());
                burn_prefix(all, i + 1);
            }
            if r.ts_ms >= record_cutoff {
                let copy = Record {
                    ts_ms: r.ts_ms,
                    id: r.id.clone(),
                    model: r.model.clone(),
                    input: r.input,
                    output: r.output,
                    cache: r.cache,
                };
                let ghost before = out@;
                let ghost head = kept(all.take(i as int), record_cutoff as int);
                proof {
                    assert(head.push(record_view(*r)).drop_last() =~= head);
                }
                seen.insert(r.id.clone());
                total = total + r.input + r.output + r.cache;
                out.push(copy);
                assert(records_view(out@) =~= records_view(before).push(record_view(*r)));
            }
            i += 1;
        }
        self.records = out;
        self.seen = seen;
        self.burn = total;
        proof {
            assert(all.take(all.len() as int) =~= all);
            kept_ids_differ(all, record_cutoff as int);
        }
    }

    fn window(&self, from: i64) -> (r: UsageWindow)
        requires
            self.wf(),
        ensures
            is_window(r, kept(self@.records, from as int)),
    {
        let ghost all = self@.records;
        let mut input: u64 = 0;
        let mut output: u64 = 0;
        let mut cache: u64 = 0;
        let mut messages: u64 = 0;
        let mut by_model: Vec<ModelUsage> = Vec::new();
        let mut i: usize = 0;
        proof {
            assert(all.take(0) =~= Seq::empty());
            assert(usage_views(by_model@) =~= shares(Seq::empty()));
        }
        while i < self.records.len()
            invariant
                i <= self.records@.len(),
                all == records_view(self.records@),
                burn(all) <= u64::MAX,
                input == sum_input(kept(all.take(i as int), from as int)),
                output == sum_output(kept(all.take(i as int), from as int)),
                cache == sum_cache(kept(all.take(i as int), from as int)),
                messages == kept(all.take(i as int), from as int).len(),
                messages <= i,
                usage_views(by_model@) == shares(kept(all.take(i as int), from as int)),
            decreases self.records@.len() - i,
        {
            let r = &self.records[i];
            let ghost rs = kept(all.take(i as int), from as int);
            let ghost rv = record_view(*r);
            proof {
                assert(all.take(i + 1).drop_last() =~= all.take(i as int));
                assert(all.take(i + 1).last() == rv);
                kept_sums(all.take(i + 1), from as int, Seq::empty());
                burn_prefix(all, i + 1);
            }
            if r.ts_ms >= from {
                proof {
                    assert(rs.push(rv).drop_last() =~= rs);
                    burn_is_sum(rs.push(rv));
                    burn_is_sum(rs);
                }
                add_share(&mut by_model, r, Ghost(rs));
                input = input + r.input;
                output = output + r.output;
                cache = cache + r.cache;
                messages = messages + 1;
            }
            i += 1;
        }
        let ghost rs = kept(all, from as int);
        proof {
            assert(all.take(all.len() as int) =~= all);
            kept_sums(all, from as int, Seq::empty());
            burn_is_sum(rs);
        }
        let heavier_usage = |a: &ModelUsage, b: &ModelUsage| -> (o: bool)
            ensures
                o == heavier()(a@, b@),
            {
                a.total_tokens > b.total_tokens || (a.total_tokens == b.total_tokens
                    && text::text_le(a.model.as_str(), b.model.as_str()))
            };
        let ghost unsorted = by_model@;
        let ghost le = |a: ModelUsage, b: ModelUsage| heavier()(a@, b@);
        let sorted = sort::sort_by(by_model, heavier_usage, Ghost(le));
        proof {
            sort::sorted_map(unsorted, |m: ModelUsage| m@, le, heavier());
        }
        UsageWindow {
            total_tokens: input + output + cache,
            output_tokens: output,
            input_tokens: input,
            cache_tokens: cache,
            messages,
            by_model: sorted,
        }
    }

    fn velocity(&self, from: i64) -> (r: u64)
        requires
            self.wf(),
        ensures
            r == sum_input(kept(self@.records, from as int)) + sum_output(
                kept(self@.records, from as int),
            ),
    {
        let ghost all = self@.records;
        let mut total: u64 = 0;
        let mut i: usize = 0;
        assert(all.take(0) =~= Seq::empty());
        while i < self.records.len()
            invariant
                i <= self.records@.len(),
                all == records_view(self.records@),
                burn(all) <= u64::MAX,
                total == sum_input(kept(all.take(i as int), from as int)) + sum_output(
                    kept(all.take(i as int), from as int),
                ),
            decreases self.records@.len() - i,
        {
            let r = &self.records[i];
            let ghost rs = kept(all.take(i as int), from as int);
            proof {
                assert(all.take(i + 1).drop_last() =~= all.take(i as int));
                assert(all.take(i + 1).last() == record_view(*r));
                kept_sums(all.take(i + 1), from as int, Seq::empty());
                burn_prefix(all, i + 1);
                burn_is_sum(kept(all.take(i + 1), from as int));
            }
            if r.ts_ms >= from {
                assert(rs.push(record_view(*r)).drop_last() =~= rs);
                total = total + r.input + r.output;
            }
            i += 1;
        }
        assert(all.take(all.len() as int) =~= all);
        total
    }

    /// The two windows as they end at `now_ms`.
    pub fn aggregate(&self, now_ms: i64) -> (r: UsageSnapshot)
        requires
            self.wf(),
            now_ms >= i64::MIN + WEEK_MS,
        ensures
            is_snapshot(r, self@.records, now_ms),
    {
        UsageSnapshot {
            five_hour: self.window(now_ms - FIVE_HOUR_MS),
            week: self.window(now_ms - WEEK_MS),
            velocity_tokens: self.velocity(now_ms - VELOCITY_MS),
            computed_at_ms: now_ms,
        }
    }

    /// Ends a pass: forgets the cursors of the files that are gone and the records that are
    /// too old, and sums up.
    pub fn finish_pass(&mut self, visited: &[String], now_ms: i64) -> (r: UsageSnapshot)
        requires
            old(self).wf(),
            now_ms >= i64::MIN + WEEK_MS,
        ensures
            final(self).wf(),
            final(self)@ == after_pass(old(self)@, seqs::views(visited@), now_ms),
            is_snapshot(r, final(self)@.records, now_ms),
    {
        let ghost start = self@;
        let ghost all = self@.cursors;
        let ghost names = seqs::views(visited@);
        let mut out: Vec<(String, Cursor)> = Vec::new();
        let mut i: usize = 0;
        proof {
            assert(all.take(0) =~= Seq::empty());
            assert(out@.map_values(|c: (String, Cursor)| (c.0@, c.1)) =~= Seq::empty());
        }
        while i < self.cursors.len()
            invariant
                i <= self.cursors@.len(),
                names == seqs::views(visited@),
                all == self.cursors@.map_values(|c: (String, Cursor)| (c.0@, c.1)),
                out@.map_values(|c: (String, Cursor)| (c.0@, c.1)) == seen_cursors(
                    all.take(i as int),
                    names,
                ),
            decreases self.cursors@.len() - i,
        {
            proof {
                assert(all.take(i + 1).drop_last() =~= all.take(i as int));
                assert(all.take(i + 1).last() == all[i as int]);
            }
            if text::has_string(visited, self.cursors[i].0.as_str()) {
                let ghost before = out@;
                out.push((self.cursors[i].0.clone(), self.cursors[i].1));
                assert(out@.map_values(|c: (String, Cursor)| (c.0@, c.1)) =~= before.map_values(
                    |c: (String, Cursor)| (c.0@, c.1),
                ).push(all[i as int]));
            }
            i += 1;
        }
        assert(all.take(all.len() as int) =~= all);
        self.cursors = out;
        assert(self@.records == start.records);
        self.prune(now_ms - WEEK_MS);
        self.aggregate(now_ms)
    }

    /// One pass over `files`. A file that is too old is not looked into, but its cursor is
    /// kept.
    pub fn scan(&mut self, files: &[FileTail], now_ms: i64) -> (r: UsageSnapshot)
        requires
            old(self).wf(),
            now_ms >= i64::MIN + MTIME_CUTOFF_MS,
            fits(old(self)@.bytes_read, files@),
        ensures
            final(self).wf(),
            final(self)@ == scanned(old(self)@, files@, now_ms),
            is_snapshot(r, final(self)@.records, now_ms),
            is_consistent(r, now_ms),
            counts_once(final(self)@.records, now_ms),
    {
        let ghost start = self@;
        let mut visited: Vec<String> = Vec::new();
        let mut i: usize = 0;
        proof {
            assert(files@.take(0) =~= Seq::empty());
            assert(seqs::views(visited@) =~= Seq::empty());
        }
        while i < files.len()
            invariant
                i <= files@.len(),
                self.wf(),
                now_ms >= i64::MIN + MTIME_CUTOFF_MS,
                fits(start.bytes_read, files@),
                self@ == after_files(start, files@.take(i as int), now_ms),
                seqs::views(visited@) == paths_of(files@).take(i as int),
            decreases files@.len() - i,
        {
            let f = &files[i];
            let ghost before = visited@;
            proof {
                assert(files@.take(i + 1).drop_last() =~= files@.take(i as int));
                bytes_so_far(start, files@, i as int, now_ms);
            }
            visited.push(f.path.clone());
            proof {
                assert(seqs::views(visited@) =~= seqs::views(before).push(f.path@));
                assert(paths_of(files@).take(i + 1) =~= paths_of(files@).take(i as int).push(
                    f.path@,
                ));
            }
            if Self::wants(f.mtime_ms, now_ms) {
                match &f.tail {
                    Some(buf) => self.ingest_file(
                        f.path.as_str(),
                        f.len,
                        f.mtime_ms,
                        Some(buf.as_slice()),
                        now_ms - WEEK_MS,
                    ),
                    None => self.ingest_file(
                        f.path.as_str(),
                        f.len,
                        f.mtime_ms,
                        None,
                        now_ms - WEEK_MS,
                    ),
                }
            }
            i += 1;
        }
        proof {
            assert(files@.take(files@.len() as int) =~= files@);
            assert(paths_of(files@).take(files@.len() as int) =~= paths_of(files@));
        }
        let snap = self.finish_pass(&visited, now_ms);
        proof {
            self.wf_records();
            kept_is_young(after_files(start, files@, now_ms).records, now_ms - WEEK_MS);
            snapshots_are_consistent(snap, self@.records, now_ms);
        }
        snap
    }
}

// ── One pass ────────────────────────────────────────────────────────────────────────────

/// The scanner after one file of a pass.
pub open spec fn after_file(
    s: ScannerView,
    path: Seq<char>,
    len: u64,
    mtime_ms: i64,
    tail: Option<Seq<u8>>,
    cutoff: int,
) -> ScannerView {
    match (start_of(cursor_of(s.cursors, path), len, mtime_ms), tail) {
        (Some(start), Some(buf)) => ScannerView {
            cursors: with_cursor(
                s.cursors,
                path,
                Cursor { mtime_ms, len, offset: (start + consumed(buf)) as u64 },
            ),
            records: with_bytes(s.records, buf, cutoff),
            bytes_read: s.bytes_read + buf.len(),
        },
        _ => s,
    }
}

pub open spec fn tail_view(f: FileTail) -> Option<Seq<u8>> {
    match f.tail {
        Some(buf) => Some(buf@),
        None => None,
    }
}

/// The scanner after the files of a pass.
pub open spec fn after_files(s: ScannerView, files: Seq<FileTail>, now_ms: i64) -> ScannerView
    decreases files.len(),
{
    if files.len() == 0 {
        s
    } else {
        let head = after_files(s, files.drop_last(), now_ms);
        let f = files.last();
        if f.mtime_ms >= now_ms - MTIME_CUTOFF_MS {
            after_file(head, f.path@, f.len, f.mtime_ms, tail_view(f), now_ms - WEEK_MS)
        } else {
            head
        }
    }
}

pub open spec fn paths_of(files: Seq<FileTail>) -> Seq<Seq<char>> {
    files.map_values(|f: FileTail| f.path@)
}

/// The scanner after a pass that saw the files `visited`.
pub open spec fn after_pass(s: ScannerView, visited: Seq<Seq<char>>, now_ms: i64) -> ScannerView {
    ScannerView {
        cursors: seen_cursors(s.cursors, visited),
        records: kept(s.records, now_ms - WEEK_MS),
        ..s
    }
}

/// The scanner after one pass over `files`.
pub open spec fn scanned(s: ScannerView, files: Seq<FileTail>, now_ms: i64) -> ScannerView {
    after_pass(after_files(s, files, now_ms), paths_of(files), now_ms)
}

/// Every message is among the records once, and none that is older than the long window.
pub open spec fn counts_once(records: Seq<RecordView>, now_ms: i64) -> bool {
    &&& ids_differ(records)
    &&& forall|i: int| 0 <= i < records.len() ==> (#[trigger] records[i]).ts_ms >= now_ms - WEEK_MS
}

/// A window adds up: its total is input, output and cache together; the shares of its models
/// add up to it, in tokens and in messages; and they stand heaviest first, equals by name.
pub open spec fn adds_up(w: UsageWindow) -> bool {
    let shares = usage_views(w.by_model@);
    &&& w.total_tokens == w.input_tokens + w.output_tokens + w.cache_tokens
    &&& share_tokens(shares) == w.total_tokens
    &&& share_messages(shares) == w.messages
    &&& sort::in_order(shares, heavier())
}

/// No count of `short` is larger than that of `long`.
pub open spec fn lies_within(short: UsageWindow, long: UsageWindow) -> bool {
    &&& short.total_tokens <= long.total_tokens
    &&& short.input_tokens <= long.input_tokens
    &&& short.output_tokens <= long.output_tokens
    &&& short.cache_tokens <= long.cache_tokens
    &&& short.messages <= long.messages
}

/// Both windows of a snapshot add up, the short one lies within the long one, what was burnt
/// last lies within the short one, and the snapshot bears its time.
pub open spec fn is_consistent(snap: UsageSnapshot, now_ms: i64) -> bool {
    &&& adds_up(snap.five_hour)
    &&& adds_up(snap.week)
    &&& lies_within(snap.five_hour, snap.week)
    &&& snap.velocity_tokens <= snap.five_hour.input_tokens + snap.five_hour.output_tokens
    &&& snap.computed_at_ms == now_ms
}

pub open spec fn tail_len(f: FileTail) -> nat {
    match f.tail {
        Some(buf) => buf@.len(),
        None => 0,
    }
}

pub open spec fn all_tails(files: Seq<FileTail>) -> nat
    decreases files.len(),
{
    if files.len() == 0 {
        0
    } else {
        all_tails(files.drop_last()) + tail_len(files.last())
    }
}

/// Counting the bytes of `files` stays within a `u64`.
pub open spec fn fits(bytes_read: nat, files: Seq<FileTail>) -> bool {
    &&& bytes_read + all_tails(files) <= u64::MAX
    &&& forall|i: int|
        0 <= i < files.len() ==> (#[trigger] files[i]).len + tail_len(files[i]) <= u64::MAX
}

proof fn bytes_so_far(s: ScannerView, files: Seq<FileTail>, i: int, now_ms: i64)
    requires
        0 <= i < files.len(),
    ensures
        after_files(s, files.take(i), now_ms).bytes_read + tail_len(files[i]) <= s.bytes_read
            + all_tails(files),
{
    bytes_bound(s, files.take(i), now_ms);
    tails_prefix(files, i + 1);
    assert(files.take(i + 1).drop_last() =~= files.take(i));
}

proof fn bytes_bound(s: ScannerView, files: Seq<FileTail>, now_ms: i64)
    ensures
        after_files(s, files, now_ms).bytes_read <= s.bytes_read + all_tails(files),
    decreases files.len(),
{
    if files.len() > 0 {
        bytes_bound(s, files.drop_last(), now_ms);
    }
}

proof fn tails_prefix(files: Seq<FileTail>, k: int)
    requires
        0 <= k <= files.len(),
    ensures
        all_tails(files.take(k)) <= all_tails(files),
    decreases files.len(),
{
    if k == files.len() {
        assert(files.take(k) =~= files);
    } else {
        assert(files.drop_last().take(k) =~= files.take(k));
        tails_prefix(files.drop_last(), k);
    }
}

fn field_count(usage: &Json, key: &str) -> (r: u64)
    ensures
        r == count_field(usage@, key@),
{
    match usage.u64_field(key) {
        Some(n) => n,
        None => 0,
    }
}

/// Adds the record `r` to the shares of the records `rs`.
fn add_share(by_model: &mut Vec<ModelUsage>, r: &Record, Ghost(rs): Ghost<Seq<RecordView>>)
    requires
        usage_views(old(by_model)@) == shares(rs),
        burn(rs) + record_view(*r).tokens() <= u64::MAX,
        rs.len() < u64::MAX,
    ensures
        usage_views(final(by_model)@) == shares(rs.push(record_view(*r))),
{
    let ghost rv = record_view(*r);
    let ghost names = seqs::distinct(models(rs));
    let ghost now = rs.push(rv);
    proof {
        shares_push(rs, rv);
        seqs::distinct_sound(models(rs));
        assert(usage_views(by_model@).len() == by_model@.len());
        assert(shares(rs).len() == names.len());
    }
    let mut i: usize = 0;
    while i < by_model.len() && !text::same(by_model[i].model.as_str(), r.model.as_str())
        invariant
            i <= by_model@.len(),
            by_model@ == old(by_model)@,
            usage_views(by_model@) == shares(rs),
            names == seqs::distinct(models(rs)),
            names.len() == by_model@.len(),
            forall|j: int| 0 <= j < i ==> names[j] != r.model@,
        decreases by_model@.len() - i,
    {
        assert(usage_views(by_model@)[i as int] == by_model@[i as int]@);
        assert(shares(rs)[i as int].model == names[i as int]);
        i += 1;
    }
    if i < by_model.len() {
        let ghost old_share = by_model@[i as int];
        proof {
            assert(usage_views(by_model@)[i as int] == by_model@[i as int]@);
            assert(shares(rs)[i as int].model == names[i as int]);
            assert(names[i as int] == rv.model);
            assert(names.contains(rv.model));
            assert(models(rs).contains(rv.model));
            model_tokens_bound(rs, rv.model);
        }
        let share = ModelUsage {
            model: by_model[i].model.clone(),
            total_tokens: by_model[i].total_tokens + (r.input + r.output + r.cache),
            messages: by_model[i].messages + 1,
        };
        by_model.set(i, share);
        proof {
            assert forall|j: int| 0 <= j < names.len() implies usage_views(by_model@)[j]
                == #[trigger] shares(now)[j] by {
                if j != i {
                    assert(usage_views(old(by_model)@)[j] == shares(rs)[j]);
                    assert(names[j] != names[i as int]);
                }
            }
            assert(usage_views(by_model@) =~= shares(now));
        }
    } else {
        proof {
            assert(usage_views(by_model@).len() == names.len());
            if models(rs).contains(rv.model) {
                assert(names.contains(rv.model));
                let j = choose|j: int| 0 <= j < names.len() && names[j] == rv.model;
                assert(false);
            }
        }
        by_model.push(
            ModelUsage {
                model: r.model.clone(),
                total_tokens: r.input + r.output + r.cache,
                messages: 1,
            },
        );
        proof {
            assert forall|j: int| 0 <= j < names.len() implies usage_views(by_model@)[j]
                == #[trigger] shares(now)[j] by {
                assert(usage_views(old(by_model)@)[j] == shares(rs)[j]);
            }
            assert(usage_views(by_model@) =~= shares(now));
        }
    }
}

// ── Lemmas on records ───────────────────────────────────────────────────────────────────

proof fn ids_hold(records: Seq<RecordView>, id: Seq<char>)
    ensures
        ids(records).contains(id) <==> exists|i: int|
            0 <= i < records.len() && (#[trigger] records[i]).id == id,
    decreases records.len(),
{
    if records.len() > 0 {
        let head = records.drop_last();
        ids_hold(head, id);
        if ids(records).contains(id) {
            if records.last().id == id {
                assert(records[records.len() - 1].id == id);
            } else {
                let i = choose|i: int| 0 <= i < head.len() && (#[trigger] head[i]).id == id;
                assert(records[i].id == id);
            }
        }
        if exists|i: int| 0 <= i < records.len() && (#[trigger] records[i]).id == id {
            let i = choose|i: int| 0 <= i < records.len() && (#[trigger] records[i]).id == id;
            if i < head.len() {
                assert(head[i].id == id);
            }
        }
    }
}

proof fn ids_push(records: Seq<RecordView>, r: RecordView)
    requires
        ids_differ(records),
        !ids(records).contains(r.id),
    ensures
        ids(records.push(r)) == ids(records).insert(r.id),
        ids_differ(records.push(r)),
        burn(records.push(r)) == burn(records) + r.tokens(),
{
    let all = records.push(r);
    assert(all.drop_last() =~= records);
    ids_hold(records, r.id);
}

proof fn kept_ids_differ(records: Seq<RecordView>, cutoff: int)
    requires
        ids_differ(records),
    ensures
        ids_differ(kept(records, cutoff)),
        forall|id: Seq<char>| #[trigger]
            ids(kept(records, cutoff)).contains(id) ==> ids(records).contains(id),
    decreases records.len(),
{
    if records.len() > 0 {
        let head = records.drop_last();
        assert(ids_differ(head)) by {
            assert forall|i: int, j: int| 0 <= i < j < head.len() implies (#[trigger] head[i]).id
                != (#[trigger] head[j]).id by {
                assert(records[i].id != records[j].id);
            }
        }
        kept_ids_differ(head, cutoff);
        if records.last().ts_ms >= cutoff {
            let k = kept(head, cutoff);
            if ids(k).contains(records.last().id) {
                ids_hold(head, records.last().id);
                let i = choose|i: int|
                    0 <= i < head.len() && (#[trigger] head[i]).id == records.last().id;
                assert(records[i].id != records[records.len() - 1].id);
            }
            ids_push(k, records.last());
        }
    }
}

proof fn consumed_is(s: Seq<u8>, k: int)
    requires
        0 <= k <= s.len(),
        k == 0 || s[k - 1] == 10,
        forall|j: int| k <= j < s.len() ==> s[j] != 10,
    ensures
        consumed(s) == k,
    decreases s.len(),
{
    if k < s.len() {
        assert(s[s.len() - 1] != 10);
        consumed_is(s.drop_last(), k);
    }
}

// ── What holds of every scan ────────────────────────────────────────────────────────────

/// Reading a file in two passes gives what reading it at once gives: the first pass takes
/// the complete lines of `a`, the second what was left of it together with what was
/// appended.
pub proof fn two_reads_are_one(records: Seq<RecordView>, a: Seq<u8>, b: Seq<u8>, cutoff: int)
    ensures
        with_bytes(records, a + b, cutoff) == with_bytes(
            with_bytes(records, a, cutoff),
            a.skip(consumed(a)) + b,
            cutoff,
        ),
    decreases a.len(),
{
    line_end_bounds(a);
    let i = line_end(a);
    if i < a.len() {
        let t = a.skip(i + 1);
        let whole = a + b;
        assert forall|j: int| 0 <= j < i implies whole[j] != 10 by {
            assert(whole[j] == a[j]);
        }
        line_end_is(whole, i);
        assert(whole.take(i) =~= a.take(i));
        assert(whole.skip(i + 1) =~= t + b);
        two_reads_are_one(with_line(records, a.take(i), cutoff), t, b, cutoff);
        consumed_bounds(t);
        let k = consumed(t);
        if k > 0 {
            assert(t[k - 1] == a[i + k]);
        }
        assert forall|j: int| i + 1 + k <= j < a.len() implies a[j] != 10 by {
            assert(t[j - i - 1] == a[j]);
        }
        consumed_is(a, i + 1 + k);
        assert(a.skip(i + 1 + k) =~= t.skip(k));
    } else {
        consumed_is(a, 0);
        assert(a.skip(0) =~= a);
    }
}

/// What a read consumes ends in a line feed, and no line feed follows it.
pub proof fn consumed_bounds(s: Seq<u8>)
    ensures
        0 <= consumed(s) <= s.len(),
        consumed(s) > 0 ==> s[consumed(s) - 1] == 10,
        forall|j: int| consumed(s) <= j < s.len() ==> s[j] != 10,
    decreases s.len(),
{
    if s.len() > 0 && s.last() != 10 {
        let t = s.drop_last();
        consumed_bounds(t);
        assert forall|j: int| consumed(s) <= j < s.len() implies s[j] != 10 by {
            if j < t.len() {
                assert(t[j] == s[j]);
            }
        }
    }
}

/// `more` is `records` with further records behind it.
spec fn extends(more: Seq<RecordView>, records: Seq<RecordView>) -> bool {
    records.len() <= more.len() && more.take(records.len() as int) == records
}

proof fn extends_burn(more: Seq<RecordView>, records: Seq<RecordView>, id: Seq<char>)
    requires
        extends(more, records),
    ensures
        burn(records) <= burn(more),
        ids(records).contains(id) ==> ids(more).contains(id),
{
    burn_prefix(more, records.len() as int);
    ids_hold(records, id);
    ids_hold(more, id);
    if ids(records).contains(id) {
        let i = choose|i: int| 0 <= i < records.len() && (#[trigger] records[i]).id == id;
        assert(more[i] == records[i]);
    }
}

proof fn with_line_extends(records: Seq<RecordView>, line: Seq<u8>, cutoff: int)
    ensures
        extends(with_line(records, line, cutoff), records),
{
    let r = with_line(records, line, cutoff);
    if r.len() > records.len() {
        assert(r.take(records.len() as int) =~= records);
    } else {
        assert(r.take(records.len() as int) =~= records);
    }
}

proof fn with_bytes_extends(records: Seq<RecordView>, s: Seq<u8>, cutoff: int)
    ensures
        extends(with_bytes(records, s, cutoff), records),
    decreases s.len(),
{
    line_end_bounds(s);
    let i = line_end(s);
    if i < s.len() {
        let one = with_line(records, s.take(i), cutoff);
        with_line_extends(records, s.take(i), cutoff);
        with_bytes_extends(one, s.skip(i + 1), cutoff);
        let all = with_bytes(one, s.skip(i + 1), cutoff);
        assert(all.take(records.len() as int) =~= all.take(one.len() as int).take(
            records.len() as int,
        ));
    } else {
        assert(records.take(records.len() as int) =~= records);
    }
}

/// A line that was taken once changes nothing when it comes again.
proof fn line_is_taken_once(
    records: Seq<RecordView>,
    more: Seq<RecordView>,
    line: Seq<u8>,
    cutoff: int,
)
    requires
        extends(more, with_line(records, line, cutoff)),
    ensures
        with_line(more, line, cutoff) == more,
{
    let one = with_line(records, line, cutoff);
    if vstd::utf8::valid_utf8(line) {
        let t = vstd::utf8::decode_utf8(line);
        if let Ok(v) = json::json_parse(t) {
            if let Some(r) = record_of(v, cutoff) {
                extends_burn(more, one, r.id);
                if one.len() > records.len() {
                    ids_hold(one, r.id);
                    assert(one[one.len() - 1].id == r.id);
                }
            }
        }
    }
}

/// Reading the same bytes again adds nothing: a file that was rewritten or rotated is read
/// anew without counting any message twice.
pub proof fn rereading_adds_nothing(records: Seq<RecordView>, s: Seq<u8>, cutoff: int)
    ensures
        with_bytes(with_bytes(records, s, cutoff), s, cutoff) == with_bytes(records, s, cutoff),
    decreases s.len(),
{
    line_end_bounds(s);
    let i = line_end(s);
    if i < s.len() {
        let one = with_line(records, s.take(i), cutoff);
        let t = s.skip(i + 1);
        let all = with_bytes(one, t, cutoff);
        with_bytes_extends(one, t, cutoff);
        line_is_taken_once(records, all, s.take(i), cutoff);
        rereading_adds_nothing(one, t, cutoff);
    }
}

proof fn cursor_is_set(cursors: Seq<(Seq<char>, Cursor)>, path: Seq<char>, c: Cursor)
    ensures
        cursor_of(with_cursor(cursors, path, c), path) == Some(c),
    decreases cursors.len(),
{
    if cursors.len() > 0 && cursors[0].0 != path {
        let rest = cursors.drop_first();
        cursor_is_set(rest, path, c);
        assert(with_cursor(cursors, path, c).drop_first() =~= with_cursor(rest, path, c));
    }
}

/// A file that has been read and has not changed since is left alone: no byte of it is read
/// again, and the scanner stays as it is.
pub proof fn unchanged_file_is_not_read(
    s: ScannerView,
    path: Seq<char>,
    len: u64,
    mtime_ms: i64,
    first: Seq<u8>,
    again: Option<Seq<u8>>,
    cutoff: int,
)
    ensures
        ({
            let once = after_file(s, path, len, mtime_ms, Some(first), cutoff);
            &&& start_of(cursor_of(once.cursors, path), len, mtime_ms) is None
            &&& after_file(once, path, len, mtime_ms, again, cutoff) == once
        }),
{
    if let Some(start) = start_of(cursor_of(s.cursors, path), len, mtime_ms) {
        cursor_is_set(
            s.cursors,
            path,
            Cursor { mtime_ms, len, offset: (start + consumed(first)) as u64 },
        );
    }
}

proof fn kept_is_young(rs: Seq<RecordView>, cutoff: int)
    ensures
        forall|i: int|
            0 <= i < kept(rs, cutoff).len() ==> (#[trigger] kept(rs, cutoff)[i]).ts_ms >= cutoff,
    decreases rs.len(),
{
    if rs.len() > 0 {
        let head = kept(rs.drop_last(), cutoff);
        kept_is_young(rs.drop_last(), cutoff);
        assert forall|i: int| 0 <= i < kept(rs, cutoff).len() implies (#[trigger] kept(
            rs,
            cutoff,
        )[i]).ts_ms >= cutoff by {
            if i < head.len() {
                assert(kept(rs, cutoff)[i] == head[i]);
            }
        }
    }
}

proof fn kept_ids(rs: Seq<RecordView>, cutoff: int, id: Seq<char>)
    requires
        ids(kept(rs, cutoff)).contains(id),
    ensures
        ids(rs).contains(id),
    decreases rs.len(),
{
    if rs.len() > 0 && !(rs.last().ts_ms >= cutoff && rs.last().id == id) {
        if rs.last().ts_ms >= cutoff {
            assert(kept(rs, cutoff).drop_last() =~= kept(rs.drop_last(), cutoff));
        }
        kept_ids(rs.drop_last(), cutoff, id);
    }
}

/// The pass over `files` that begins at `s` either reads the file at position `i`, finds
/// that nothing of it has to be read, or does not look into it.
pub open spec fn is_read(s: ScannerView, files: Seq<FileTail>, now_ms: i64, i: int) -> bool {
    let f = files[i];
    f.mtime_ms < now_ms - MTIME_CUTOFF_MS || f.tail is Some || start_of(
        cursor_of(after_files(s, files.take(i), now_ms).cursors, f.path@),
        f.len,
        f.mtime_ms,
    ) is None
}

/// The same file, with the same length and the same time of its last write.
pub open spec fn is_unchanged(f: FileTail, g: FileTail) -> bool {
    f.path@ == g.path@ && f.len == g.len && f.mtime_ms == g.mtime_ms
}

/// The cursor says that the file has been read as it is.
pub open spec fn is_done(s: ScannerView, f: FileTail) -> bool {
    start_of(cursor_of(s.cursors, f.path@), f.len, f.mtime_ms) is None
}

proof fn other_cursor_stays(
    cursors: Seq<(Seq<char>, Cursor)>,
    path: Seq<char>,
    c: Cursor,
    other: Seq<char>,
)
    requires
        other != path,
    ensures
        cursor_of(with_cursor(cursors, path, c), other) == cursor_of(cursors, other),
    decreases cursors.len(),
{
    if cursors.len() == 0 {
        assert(with_cursor(cursors, path, c).drop_first() =~= cursors);
    } else if cursors[0].0 == path {
        assert(with_cursor(cursors, path, c).drop_first() =~= cursors.drop_first());
    } else {
        let rest = cursors.drop_first();
        other_cursor_stays(rest, path, c, other);
        assert(with_cursor(cursors, path, c).drop_first() =~= with_cursor(rest, path, c));
    }
}

proof fn cursor_behind(cursors: Seq<(Seq<char>, Cursor)>, x: (Seq<char>, Cursor), path: Seq<char>)
    ensures
        cursor_of(cursors.push(x), path) == (match cursor_of(cursors, path) {
            Some(c) => Some(c),
            None => if x.0 == path {
                Some(x.1)
            } else {
                None
            },
        }),
    decreases cursors.len(),
{
    if cursors.len() == 0 {
        assert(cursors.push(x).drop_first() =~= cursors);
    } else {
        cursor_behind(cursors.drop_first(), x, path);
        assert(cursors.push(x).drop_first() =~= cursors.drop_first().push(x));
    }
}

proof fn seen_cursor_stays(
    cursors: Seq<(Seq<char>, Cursor)>,
    visited: Seq<Seq<char>>,
    path: Seq<char>,
)
    requires
        visited.contains(path),
    ensures
        cursor_of(seen_cursors(cursors, visited), path) == cursor_of(cursors, path),
    decreases cursors.len(),
{
    if cursors.len() > 0 {
        let head = cursors.drop_last();
        let x = cursors.last();
        seen_cursor_stays(head, visited, path);
        assert(head.push(x) =~= cursors);
        cursor_behind(head, x, path);
        cursor_behind(seen_cursors(head, visited), x, path);
    }
}

/// After a pass that read every file it wanted, the cursors of these files are up to date.
proof fn pass_is_done(s: ScannerView, files: Seq<FileTail>, now_ms: i64, i: int)
    requires
        paths_of(files).no_duplicates(),
        forall|j: int| 0 <= j < files.len() ==> #[trigger] is_read(s, files, now_ms, j),
        0 <= i < files.len(),
        files[i].mtime_ms >= now_ms - MTIME_CUTOFF_MS,
    ensures
        is_done(after_files(s, files, now_ms), files[i]),
    decreases files.len(),
{
    let head = files.drop_last();
    let f = files.last();
    let before = after_files(s, head, now_ms);
    assert(files.take(files.len() - 1) =~= head);
    assert(is_read(s, files, now_ms, files.len() - 1));
    let wanted = f.mtime_ms >= now_ms - MTIME_CUTOFF_MS;
    let start = start_of(cursor_of(before.cursors, f.path@), f.len, f.mtime_ms);
    if i < head.len() {
        assert forall|j: int| 0 <= j < head.len() implies #[trigger] is_read(
            s,
            head,
            now_ms,
            j,
        ) by {
            assert(is_read(s, files, now_ms, j));
            assert(head.take(j) =~= files.take(j));
        }
        assert forall|j: int, k: int| 0 <= j < k < head.len() implies paths_of(head)[j]
            != paths_of(head)[k] by {
            assert(paths_of(files)[j] != paths_of(files)[k]);
        }
        pass_is_done(s, head, now_ms, i);
        assert(paths_of(files)[i] != paths_of(files)[files.len() - 1]);
        if wanted && start is Some && f.tail is Some {
            other_cursor_stays(
                before.cursors,
                f.path@,
                Cursor {
                    mtime_ms: f.mtime_ms,
                    len: f.len,
                    offset: (start->Some_0 + consumed(tail_view(f)->Some_0)) as u64,
                },
                files[i].path@,
            );
        }
    } else if start is Some {
        cursor_is_set(
            before.cursors,
            f.path@,
            Cursor {
                mtime_ms: f.mtime_ms,
                len: f.len,
                offset: (start->Some_0 + consumed(tail_view(f)->Some_0)) as u64,
            },
        );
    }
}

proof fn done_files_change_nothing(s: ScannerView, files: Seq<FileTail>, now_ms: i64)
    requires
        forall|i: int|
            0 <= i < files.len() && (#[trigger] files[i]).mtime_ms >= now_ms - MTIME_CUTOFF_MS
                ==> is_done(s, files[i]),
    ensures
        after_files(s, files, now_ms) == s,
    decreases files.len(),
{
    if files.len() > 0 {
        let head = files.drop_last();
        assert forall|i: int|
            0 <= i < head.len() && (#[trigger] head[i]).mtime_ms >= now_ms
                - MTIME_CUTOFF_MS implies is_done(s, head[i]) by {
            assert(head[i] == files[i]);
        }
        done_files_change_nothing(s, head, now_ms);
        assert(files[files.len() - 1] == files.last());
    }
}

/// A second pass over files that have not changed reads nothing and counts nothing new: where
/// the first pass read every file that it wanted, the second leaves the bytes read as they
/// are, and of the records it only forgets those that have become too old.
pub proof fn second_pass_reads_nothing(
    s: ScannerView,
    files: Seq<FileTail>,
    now_ms: i64,
    again: Seq<FileTail>,
    later_ms: i64,
)
    requires
        now_ms <= later_ms,
        paths_of(files).no_duplicates(),
        forall|i: int| 0 <= i < files.len() ==> #[trigger] is_read(s, files, now_ms, i),
        forall|k: int|
            0 <= k < again.len() ==> exists|i: int|
                0 <= i < files.len() && is_unchanged(#[trigger] files[i], #[trigger] again[k]),
    ensures
        ({
            let first = scanned(s, files, now_ms);
            let second = scanned(first, again, later_ms);
            &&& second.bytes_read == first.bytes_read
            &&& second.records == kept(first.records, later_ms - WEEK_MS)
            &&& ids(second.records).subset_of(ids(first.records))
            &&& forall|k: int|
                0 <= k < again.len() && (#[trigger] again[k]).mtime_ms >= later_ms
                    - MTIME_CUTOFF_MS ==> is_done(first, again[k])
        }),
{
    let read = after_files(s, files, now_ms);
    let first = scanned(s, files, now_ms);
    assert forall|k: int|
        0 <= k < again.len() && (#[trigger] again[k]).mtime_ms >= later_ms
            - MTIME_CUTOFF_MS implies is_done(first, again[k]) by {
        let i = choose|i: int|
            0 <= i < files.len() && is_unchanged(#[trigger] files[i], again[k]);
        pass_is_done(s, files, now_ms, i);
        assert(paths_of(files)[i] == again[k].path@);
        seen_cursor_stays(read.cursors, paths_of(files), again[k].path@);
    }
    done_files_change_nothing(first, again, later_ms);
    let second = scanned(first, again, later_ms);
    assert forall|id: Seq<char>| ids(second.records).contains(id) implies ids(
        first.records,
    ).contains(id) by {
        kept_ids(first.records, later_ms - WEEK_MS, id);
    }
}

/// A file that could not be read leaves the scanner as it is, so that the next pass tries
/// again from the same place.
pub proof fn unreadable_file_is_retried(
    s: ScannerView,
    path: Seq<char>,
    len: u64,
    mtime_ms: i64,
    cutoff: int,
)
    ensures
        after_file(s, path, len, mtime_ms, None, cutoff) == s,
{
}

/// Cutting twice is cutting at the later of the two times.
pub proof fn kept_twice(rs: Seq<RecordView>, a: int, b: int)
    ensures
        a <= b ==> kept(kept(rs, a), b) == kept(rs, b),
        a <= b ==> kept(kept(rs, b), a) == kept(rs, b),
    decreases rs.len(),
{
    if rs.len() > 0 {
        let head = rs.drop_last();
        let r = rs.last();
        kept_twice(head, a, b);
        if r.ts_ms >= a {
            assert(kept(head, a).push(r).drop_last() =~= kept(head, a));
        }
        if r.ts_ms >= b {
            assert(kept(head, b).push(r).drop_last() =~= kept(head, b));
        }
    }
}

/// The short window lies within the long one: none of its sums is larger, in all and for
/// each model.
pub proof fn five_hours_within_week(records: Seq<RecordView>, now_ms: int, model: Seq<char>)
    ensures
        ({
            let short = kept(records, now_ms - FIVE_HOUR_MS);
            let long = kept(records, now_ms - WEEK_MS);
            &&& burn(short) <= burn(long)
            &&& sum_input(short) <= sum_input(long)
            &&& sum_output(short) <= sum_output(long)
            &&& sum_cache(short) <= sum_cache(long)
            &&& short.len() <= long.len()
            &&& model_tokens(short, model) <= model_tokens(long, model)
            &&& model_messages(short, model) <= model_messages(long, model)
        }),
{
    kept_twice(records, now_ms - WEEK_MS, now_ms - FIVE_HOUR_MS);
    kept_sums(kept(records, now_ms - WEEK_MS), now_ms - FIVE_HOUR_MS, model);
}

/// Every snapshot is consistent: both windows add up, and each lies within the next longer
/// one.
pub proof fn snapshots_are_consistent(snap: UsageSnapshot, records: Seq<RecordView>, now_ms: i64)
    requires
        is_snapshot(snap, records, now_ms),
    ensures
        is_consistent(snap, now_ms),
{
    let short = kept(records, now_ms - FIVE_HOUR_MS);
    let long = kept(records, now_ms - WEEK_MS);
    model_split_adds_up(short);
    model_split_adds_up(long);
    model_split_is_in_order(short);
    model_split_is_in_order(long);
    five_hours_within_week(records, now_ms as int, Seq::empty());
    kept_twice(records, now_ms - FIVE_HOUR_MS, now_ms - VELOCITY_MS);
    kept_sums(kept(records, now_ms - FIVE_HOUR_MS), now_ms - VELOCITY_MS, Seq::empty());
}

/// Forgetting the records that are older than the long window changes neither window, at
/// this time or at any later one.
pub proof fn pruning_changes_no_window(records: Seq<RecordView>, now_ms: int, later_ms: int)
    requires
        now_ms <= later_ms,
    ensures
        kept(kept(records, now_ms - WEEK_MS), later_ms - WEEK_MS) == kept(
            records,
            later_ms - WEEK_MS,
        ),
        kept(kept(records, now_ms - WEEK_MS), later_ms - FIVE_HOUR_MS) == kept(
            records,
            later_ms - FIVE_HOUR_MS,
        ),
{
    kept_twice(records, now_ms - WEEK_MS, later_ms - WEEK_MS);
    kept_twice(records, now_ms - WEEK_MS, later_ms - FIVE_HOUR_MS);
}

/// The tokens of several shares.
pub open spec fn share_tokens(v: Seq<ModelView>) -> nat
    decreases v.len(),
{
    if v.len() == 0 {
        0
    } else {
        v[0].total_tokens + share_tokens(v.drop_first())
    }
}

/// The messages of several shares.
pub open spec fn share_messages(v: Seq<ModelView>) -> nat
    decreases v.len(),
{
    if v.len() == 0 {
        0
    } else {
        v[0].messages + share_messages(v.drop_first())
    }
}

proof fn sorting_keeps_shares(v: Seq<ModelView>)
    ensures
        share_tokens(sort::sorted(v, heavier())) == share_tokens(v),
        share_messages(sort::sorted(v, heavier())) == share_messages(v),
    decreases v.len(),
{
    if v.len() > 0 {
        sorting_keeps_shares(v.drop_first());
        inserting_adds_share(sort::sorted(v.drop_first(), heavier()), v[0]);
    }
}

proof fn inserting_adds_share(v: Seq<ModelView>, x: ModelView)
    ensures
        share_tokens(sort::insert_sorted(v, x, heavier())) == share_tokens(v) + x.total_tokens,
        share_messages(sort::insert_sorted(v, x, heavier())) == share_messages(v) + x.messages,
    decreases v.len(),
{
    let r = sort::insert_sorted(v, x, heavier());
    if v.len() == 0 {
        assert(r.drop_first() =~= v);
    } else if heavier()(x, v[0]) {
        assert(r.drop_first() =~= v);
    } else {
        inserting_adds_share(v.drop_first(), x);
        assert(r.drop_first() =~= sort::insert_sorted(v.drop_first(), x, heavier()));
    }
}

proof fn shares_of_push(v: Seq<ModelView>, x: ModelView)
    ensures
        share_tokens(v.push(x)) == share_tokens(v) + x.total_tokens,
        share_messages(v.push(x)) == share_messages(v) + x.messages,
    decreases v.len(),
{
    if v.len() == 0 {
        assert(v.push(x).drop_first() =~= v);
    } else {
        shares_of_push(v.drop_first(), x);
        assert(v.push(x).drop_first() =~= v.drop_first().push(x));
    }
}

proof fn shares_of_update(v: Seq<ModelView>, i: int, x: ModelView)
    requires
        0 <= i < v.len(),
    ensures
        share_tokens(v.update(i, x)) == share_tokens(v) + x.total_tokens - v[i].total_tokens,
        share_messages(v.update(i, x)) == share_messages(v) + x.messages - v[i].messages,
    decreases v.len(),
{
    if i == 0 {
        assert(v.update(i, x).drop_first() =~= v.drop_first());
    } else {
        shares_of_update(v.drop_first(), i - 1, x);
        assert(v.update(i, x).drop_first() =~= v.drop_first().update(i - 1, x));
    }
}

proof fn shares_add_up(rs: Seq<RecordView>)
    ensures
        share_tokens(shares(rs)) == burn(rs),
        share_messages(shares(rs)) == rs.len(),
    decreases rs.len(),
{
    if rs.len() == 0 {
        assert(shares(rs) =~= Seq::empty());
    } else {
        let head = rs.drop_last();
        let r = rs.last();
        let names = seqs::distinct(models(head));
        shares_add_up(head);
        assert(head.push(r) =~= rs);
        shares_push(head, r);
        seqs::distinct_sound(models(head));
        if models(head).contains(r.model) {
            assert(names.contains(r.model));
            let i = choose|i: int| 0 <= i < names.len() && names[i] == r.model;
            let x = shares(rs)[i];
            assert forall|j: int| 0 <= j < names.len() implies #[trigger] shares(rs)[j]
                == shares(head).update(i, x)[j] by {
                if j != i {
                    assert(names[j] != names[i]);
                }
            }
            assert(shares(rs) =~= shares(head).update(i, x));
            shares_of_update(shares(head), i, x);
        } else {
            let x = shares(rs)[names.len() as int];
            assert forall|j: int| 0 <= j < names.len() implies #[trigger] shares(rs)[j]
                == shares(head)[j] by {
                assert(names.contains(names[j]));
                assert(models(head).contains(names[j]));
            }
            assert(shares(rs) =~= shares(head).push(x));
            shares_of_push(shares(head), x);
        }
    }
}

/// The shares of the models of a window add up to the window: in tokens and in messages.
pub proof fn model_split_adds_up(rs: Seq<RecordView>)
    ensures
        share_tokens(sort::sorted(shares(rs), heavier())) == burn(rs),
        share_messages(sort::sorted(shares(rs), heavier())) == rs.len(),
        burn(rs) == sum_input(rs) + sum_output(rs) + sum_cache(rs),
{
    shares_add_up(rs);
    sorting_keeps_shares(shares(rs));
    burn_is_sum(rs);
}

/// The shares stand heaviest first, and equally heavy ones by name.
pub proof fn model_split_is_in_order(rs: Seq<RecordView>)
    ensures
        sort::in_order(sort::sorted(shares(rs), heavier()), heavier()),
        sort::sorted(shares(rs), heavier()).len() == shares(rs).len(),
{
    assert(sort::is_order(heavier())) by {
        assert forall|a: ModelView, b: ModelView| #[trigger] heavier()(a, b) || heavier()(b, a) by {
            seqs::text_le_total(a.model, b.model);
        }
        assert forall|a: ModelView, b: ModelView, c: ModelView| #[trigger]
            heavier()(a, b) && #[trigger] heavier()(b, c) implies heavier()(a, c) by {
            if a.total_tokens == b.total_tokens && b.total_tokens == c.total_tokens {
                seqs::text_le_transitive(a.model, b.model, c.model);
            }
        }
    }
    sort::sorted_sound(shares(rs), heavier());
}

/// The object `usage` gives the count `n` under `key`; one that is not there is 0.
pub open spec fn gives(usage: JsonView, key: Seq<char>, n: u64) -> bool {
    usage.get(key) == Some(JsonView::Number(Some(n))) || (usage.get(key) is None && n == 0)
}

/// The entry `v` is a message of the assistant with this id, written at `ts`, whose `usage`
/// has these counts.
pub open spec fn is_message(v: JsonView, id: Seq<char>, ts: int, counts: (u64, u64, u64, u64)) -> bool {
    exists|msg: JsonView, usage: JsonView, stamp: Seq<char>|
        #![trigger is_message_with(v, msg, usage, stamp, id, ts, counts)]
        is_message_with(v, msg, usage, stamp, id, ts, counts)
}

pub open spec fn is_message_with(
    v: JsonView,
    msg: JsonView,
    usage: JsonView,
    stamp: Seq<char>,
    id: Seq<char>,
    ts: int,
    counts: (u64, u64, u64, u64),
) -> bool {
    &&& v.get("type"@) == Some(JsonView::Str("assistant"@))
    &&& v.get("timestamp"@) == Some(JsonView::Str(stamp))
    &&& time::iso_ms(vstd::utf8::encode_utf8(stamp)) == Some(ts)
    &&& v.get("message"@) == Some(msg)
    &&& msg.get("id"@) == Some(JsonView::Str(id))
    &&& msg.get("usage"@) == Some(usage)
    &&& gives(usage, "input_tokens"@, counts.0)
    &&& gives(usage, "output_tokens"@, counts.1)
    &&& gives(usage, "cache_creation_input_tokens"@, counts.2)
    &&& gives(usage, "cache_read_input_tokens"@, counts.3)
}

/// A message of the assistant that is in time counts with all its tokens: its input, its
/// output, and as cache both what was written to the cache and what was read from it. Each of
/// the four counts raises the total by itself.
pub proof fn message_counts_with_all_its_tokens(
    v: JsonView,
    id: Seq<char>,
    ts: int,
    a: u64,
    b: u64,
    c: u64,
    d: u64,
    cutoff: int,
)
    requires
        is_message(v, id, ts, (a, b, c, d)),
        cutoff <= ts,
        0 < a + b + c + d <= u64::MAX,
    ensures
        ({
            let rs = with_value(Seq::empty(), v, cutoff);
            &&& rs.len() == 1
            &&& rs[0].id == id
            &&& rs[0].ts_ms == ts
            &&& rs[0].input == a
            &&& rs[0].output == b
            &&& rs[0].cache == c + d
            &&& sum_input(rs) == a
            &&& sum_output(rs) == b
            &&& sum_cache(rs) == c + d
            &&& burn(rs) == a + b + c + d
        }),
{
    let rs = with_value(Seq::empty(), v, cutoff);
    let none = Seq::<RecordView>::empty();
    assert(ids(none) =~= Set::empty());
    assert(burn(none) == 0);
    assert(rs.drop_last() =~= none);
    assert(sum_input(none) == 0 && sum_output(none) == 0 && sum_cache(none) == 0);
}

/// A message is counted where it is new and leaves the total within a `u64`: it comes behind
/// the others, with its model, or `unknown` where it names none. A message that has been
/// counted, one that is too old, and one without tokens change nothing.
pub proof fn messages_count_once(
    records: Seq<RecordView>,
    v: JsonView,
    msg: JsonView,
    usage: JsonView,
    stamp: Seq<char>,
    id: Seq<char>,
    ts: int,
    a: u64,
    b: u64,
    c: u64,
    d: u64,
    cutoff: int,
)
    requires
        is_message_with(v, msg, usage, stamp, id, ts, (a, b, c, d)),
    ensures
        ({
            let after = with_value(records, v, cutoff);
            let known = exists|i: int| 0 <= i < records.len() && (#[trigger] records[i]).id == id;
            &&& known || ts < cutoff || a + b + c + d == 0 ==> after == records
            &&& !known && ts >= cutoff && a + b + c + d > 0 && burn(records) + a + b + c + d
                <= u64::MAX ==> after.len() == records.len() + 1 && after.drop_last() == records
                && after.last() == (RecordView {
                ts_ms: ts,
                id,
                model: match msg.get("model"@) {
                    Some(JsonView::Str(m)) => m,
                    _ => "unknown"@,
                },
                input: a as nat,
                output: b as nat,
                cache: (c + d) as nat,
            })
        }),
{
    ids_hold(records, id);
    let after = with_value(records, v, cutoff);
    if after.len() > records.len() {
        assert(after.drop_last() =~= records);
    }
}

/// An entry that is no message of the assistant counts nothing: one of another type, one
/// without a message, and one whose message has no id or no `usage`.
pub proof fn other_entries_count_nothing(records: Seq<RecordView>, v: JsonView, cutoff: int)
    requires
        v.get("type"@) != Some(JsonView::Str("assistant"@)) || v.get("message"@) is None || (v.get(
            "message"@,
        ) matches Some(msg) && (msg.get("usage"@) is None || !(msg.get("id"@) matches Some(
            JsonView::Str(_),
        )))) || !(v.get("timestamp"@) matches Some(JsonView::Str(_))),
    ensures
        with_value(records, v, cutoff) == records,
{
}

/// The sums are sums: each begins at nothing, and a further record adds its own count to it;
/// to the total it adds input, output and cache.
pub proof fn records_add_their_counts(rs: Seq<RecordView>, r: RecordView, model: Seq<char>)
    ensures
        sum_input(Seq::empty()) == 0,
        sum_output(Seq::empty()) == 0,
        sum_cache(Seq::empty()) == 0,
        burn(Seq::empty()) == 0,
        model_tokens(Seq::empty(), model) == 0,
        model_messages(Seq::empty(), model) == 0,
        sum_input(rs.push(r)) == sum_input(rs) + r.input,
        sum_output(rs.push(r)) == sum_output(rs) + r.output,
        sum_cache(rs.push(r)) == sum_cache(rs) + r.cache,
        burn(rs.push(r)) == burn(rs) + r.input + r.output + r.cache,
        r.model == model ==> model_tokens(rs.push(r), model) == model_tokens(rs, model) + r.input
            + r.output + r.cache && model_messages(rs.push(r), model) == model_messages(rs, model)
            + 1,
        r.model != model ==> model_tokens(rs.push(r), model) == model_tokens(rs, model)
            && model_messages(rs.push(r), model) == model_messages(rs, model),
{
    assert(rs.push(r).drop_last() =~= rs);
}

/// The records that are not older than `from`.
pub open spec fn since(rs: Seq<RecordView>, from: int) -> Seq<RecordView> {
    rs.filter(|r: RecordView| r.ts_ms >= from)
}

proof fn kept_is_filter(rs: Seq<RecordView>, cutoff: int)
    ensures
        kept(rs, cutoff) == since(rs, cutoff),
    decreases rs.len(),
{
    reveal(Seq::filter);
    if rs.len() > 0 {
        kept_is_filter(rs.drop_last(), cutoff);
    }
}

/// The windows of a snapshot sum up exactly the messages of the last five hours and of the
/// last seven days, and the velocity is what those of the last thirty minutes put in and out.
pub proof fn windows_reach_back_as_far_as_they_say(
    snap: UsageSnapshot,
    records: Seq<RecordView>,
    now_ms: i64,
)
    requires
        is_snapshot(snap, records, now_ms),
    ensures
        ({
            let short = since(records, now_ms - 5 * 3_600_000);
            let long = since(records, now_ms - 7 * 86_400_000);
            let recent = since(records, now_ms - 30 * 60_000);
            &&& snap.five_hour.messages == short.len()
            &&& snap.five_hour.total_tokens == burn(short)
            &&& snap.five_hour.input_tokens == sum_input(short)
            &&& snap.five_hour.output_tokens == sum_output(short)
            &&& snap.five_hour.cache_tokens == sum_cache(short)
            &&& snap.week.messages == long.len()
            &&& snap.week.total_tokens == burn(long)
            &&& snap.week.input_tokens == sum_input(long)
            &&& snap.week.output_tokens == sum_output(long)
            &&& snap.week.cache_tokens == sum_cache(long)
            &&& snap.velocity_tokens == sum_input(recent) + sum_output(recent)
        }),
{
    kept_is_filter(records, now_ms - 5 * 3_600_000);
    kept_is_filter(records, now_ms - 7 * 86_400_000);
    kept_is_filter(records, now_ms - 30 * 60_000);
}

/// Each model that a window's messages name has one share, with the tokens and the messages
/// of that model alone.
pub proof fn shares_are_by_model(rs: Seq<RecordView>, i: int)
    requires
        0 <= i < sort::sorted(shares(rs), heavier()).len(),
    ensures
        ({
            let share = sort::sorted(shares(rs), heavier())[i];
            &&& share.total_tokens == model_tokens(rs, share.model)
            &&& share.messages == model_messages(rs, share.model)
            &&& exists|k: int| 0 <= k < rs.len() && (#[trigger] rs[k]).model == share.model
        }),
{
    let all = sort::sorted(shares(rs), heavier());
    sorted_is_of(shares(rs), heavier(), i);
    let j = choose|j: int| 0 <= j < shares(rs).len() && shares(rs)[j] == all[i];
    let names = seqs::distinct(models(rs));
    seqs::distinct_sound(models(rs));
    assert(names.contains(names[j]));
    assert(models(rs).contains(names[j]));
    let k = choose|k: int| 0 <= k < models(rs).len() && models(rs)[k] == names[j];
    assert(rs[k].model == names[j]);
}

proof fn sorted_is_of(
    v: Seq<ModelView>,
    le: spec_fn(ModelView, ModelView) -> bool,
    i: int,
)
    requires
        0 <= i < sort::sorted(v, le).len(),
    ensures
        exists|j: int| 0 <= j < v.len() && #[trigger] v[j] == sort::sorted(v, le)[i],
    decreases v.len(),
{
    if v.len() > 0 {
        let rest = v.drop_first();
        let s = sort::sorted(rest, le);
        inserted_is_of(s, v[0], le, i);
        if sort::sorted(v, le)[i] != v[0] {
            let m = choose|m: int| 0 <= m < s.len() && #[trigger] s[m] == sort::sorted(v, le)[i];
            sorted_is_of(rest, le, m);
            let j = choose|j: int| 0 <= j < rest.len() && #[trigger] rest[j] == s[m];
            assert(v[j + 1] == rest[j]);
        }
    }
}

proof fn inserted_is_of(
    v: Seq<ModelView>,
    x: ModelView,
    le: spec_fn(ModelView, ModelView) -> bool,
    i: int,
)
    requires
        0 <= i < sort::insert_sorted(v, x, le).len(),
    ensures
        sort::insert_sorted(v, x, le)[i] == x || exists|j: int|
            0 <= j < v.len() && #[trigger] v[j] == sort::insert_sorted(v, x, le)[i],
    decreases v.len(),
{
    let r = sort::insert_sorted(v, x, le);
    if v.len() > 0 {
        if le(x, v[0]) {
            if i > 0 {
                assert(r[i] == v[i - 1]);
            }
        } else if i == 0 {
            assert(r[0] == v[0]);
        } else {
            let rest = v.drop_first();
            assert(r[i] == sort::insert_sorted(rest, x, le)[i - 1]);
            inserted_is_of(rest, x, le, i - 1);
            if r[i] != x {
                let j = choose|j: int| 0 <= j < rest.len() && #[trigger] rest[j] == r[i];
                assert(v[j + 1] == r[i]);
            }
        }
    }
}

/// The lines of a transcript are taken one by one: a line and its line feed, then the rest;
/// and what no line feed ends is left for later.
pub proof fn transcripts_are_taken_by_lines(
    records: Seq<RecordView>,
    line: Seq<u8>,
    rest: Seq<u8>,
    cutoff: int,
)
    requires
        !line.contains(10u8),
    ensures
        with_bytes(records, line + seq![10u8] + rest, cutoff) == with_bytes(
            with_line(records, line, cutoff),
            rest,
            cutoff,
        ),
        with_bytes(records, line, cutoff) == records,
        consumed(line) == 0,
        consumed(line + seq![10u8]) == line.len() + 1,
{
    let s = line + seq![10u8] + rest;
    assert forall|j: int| 0 <= j < line.len() implies line[j] != 10 by {
        assert(line.contains(line[j]));
    }
    assert forall|j: int| 0 <= j < line.len() implies s[j] != 10 by {
        assert(s[j] == line[j]);
    }
    line_end_is(s, line.len() as int);
    assert(s.take(line.len() as int) =~= line);
    assert(s.skip(line.len() as int + 1) =~= rest);
    line_end_bounds(line);
    consumed_is(line, 0);
    assert((line + seq![10u8]).last() == 10);
}

/// A line of a transcript counts as the entry that it writes, and one that writes none changes
/// nothing.
pub proof fn lines_count_as_their_entries(records: Seq<RecordView>, text: Seq<char>, cutoff: int)
    ensures
        json::json_parse(text) matches Ok(v) ==> with_line(
            records,
            vstd::utf8::encode_utf8(text),
            cutoff,
        ) == with_value(records, v, cutoff),
        json::json_parse(text) is Err ==> with_line(
            records,
            vstd::utf8::encode_utf8(text),
            cutoff,
        ) == records,
{
    vstd::utf8::encode_utf8_valid_utf8(text);
    vstd::utf8::encode_utf8_decode_utf8(text);
}

/// A file is read from its start where it is new or has become shorter, not at all where
/// neither its length nor the time of its last write has changed, and otherwise from where
/// the last pass left off.
pub proof fn files_are_read_where_they_changed(c: Cursor, len: u64, mtime_ms: i64)
    requires
        c.offset <= c.len,
    ensures
        start_of(None, len, mtime_ms) == Some(0u64),
        start_of(Some(c), c.len, c.mtime_ms) is None,
        len < c.len ==> start_of(Some(c), len, mtime_ms) == Some(0u64),
        len > c.len || (len == c.len && mtime_ms != c.mtime_ms) ==> start_of(Some(c), len, mtime_ms)
            == Some(c.offset),
{
}

/// A file that was written within seven days and an hour is looked into, and an older one is
/// passed over.
pub proof fn old_files_are_passed_over(s: ScannerView, f: FileTail, now_ms: i64)
    ensures
        ({
            let limit = now_ms - (7 * 24 + 1) * 60 * 60 * 1000;
            &&& f.mtime_ms < limit ==> after_files(s, seq![f], now_ms) == s
            &&& f.mtime_ms >= limit ==> after_files(s, seq![f], now_ms) == after_file(
                s,
                f.path@,
                f.len,
                f.mtime_ms,
                tail_view(f),
                now_ms - 7 * 24 * 60 * 60 * 1000,
            )
        }),
{
    reveal_with_fuel(after_files, 2);
    assert(seq![f].drop_last() =~= Seq::empty());
}

/// Every model that has a message has a share, and the shares stand from the largest to the
/// smallest.
pub proof fn larger_shares_come_first(rs: Seq<RecordView>, k: int, i: int, j: int)
    ensures
        ({
            let all = sort::sorted(shares(rs), heavier());
            &&& 0 <= k < rs.len() ==> exists|m: int|
                0 <= m < all.len() && (#[trigger] all[m]).model == rs[k].model
            &&& 0 <= i < j < all.len() ==> all[i].total_tokens >= all[j].total_tokens
        }),
{
    let le = heavier();
    assert(sort::is_order(le)) by {
        assert forall|a: ModelView, b: ModelView| #[trigger] le(a, b) || le(b, a) by {
            seqs::text_le_total(a.model, b.model);
        }
        assert forall|a: ModelView, b: ModelView, c: ModelView| #[trigger]
            le(a, b) && #[trigger] le(b, c) implies le(a, c) by {
            if a.total_tokens == b.total_tokens && b.total_tokens == c.total_tokens {
                seqs::text_le_transitive(a.model, b.model, c.model);
            }
        }
    }
    sort::sorted_sound(shares(rs), le);
    let all = sort::sorted(shares(rs), le);
    if 0 <= i < j < all.len() {
        assert(le(all[i], all[j]));
    }
    if 0 <= k < rs.len() {
        let names = seqs::distinct(models(rs));
        seqs::distinct_sound(models(rs));
        assert(models(rs)[k] == rs[k].model);
        assert(models(rs).contains(rs[k].model));
        let n = choose|n: int| 0 <= n < names.len() && names[n] == rs[k].model;
        let share = shares(rs)[n];
        assert(share.model == rs[k].model);
        assert(shares(rs).contains(share));
        sort::sorting_keeps_the_elements(shares(rs), le, share);
        let m = choose|m: int| 0 <= m < all.len() && all[m] == share;
        assert(all[m].model == rs[k].model);
    }
}

} // verus!
