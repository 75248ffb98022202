//! The leading `---` block of a Markdown file, read as `key: value` fields.
use crate::seqs;
use crate::text;
use vstd::prelude::*;

verus! {

/// Whether a line begins with white space.
pub open spec fn is_indented(line: Seq<char>) -> bool {
    line.len() > 0 && seqs::is_white(line[0])
}

/// The lines before the first that holds only `---`.
pub open spec fn until_fence(lines: Seq<Seq<char>>) -> Seq<Seq<char>>
    decreases lines.len(),
{
    if lines.len() == 0 || seqs::trim(lines[0]) == "---"@ {
        Seq::empty()
    } else {
        seq![lines[0]] + until_fence(lines.drop_first())
    }
}

/// How many of the leading lines belong to a block scalar: the blank and the indented ones.
pub open spec fn block_len(lines: Seq<Seq<char>>) -> nat
    decreases lines.len(),
{
    if lines.len() > 0 && (seqs::trim(lines[0]).len() == 0 || is_indented(lines[0])) {
        1 + block_len(lines.drop_first())
    } else {
        0
    }
}

/// The trimmed lines of a block scalar, without the blank ones.
pub open spec fn block_parts(lines: Seq<Seq<char>>) -> Seq<Seq<char>>
    decreases lines.len(),
{
    if lines.len() == 0 {
        Seq::empty()
    } else if seqs::trim(lines[0]).len() == 0 {
        block_parts(lines.drop_first())
    } else if is_indented(lines[0]) {
        seq![seqs::trim(lines[0])] + block_parts(lines.drop_first())
    } else {
        Seq::empty()
    }
}

/// `s` without one pair of surrounding quotes.
pub open spec fn unquoted(s: Seq<char>) -> Seq<char> {
    if s.len() >= 2 && (s[0] == '"' || s[0] == '\'') && s.last() == s[0] {
        s.subrange(1, s.len() - 1)
    } else {
        s
    }
}

/// The fields of a block. An unindented line with a colon is a field; a value that begins
/// with `>` or `|` is the block scalar below it, folded into one line.
pub open spec fn fields(body: Seq<Seq<char>>) -> Seq<(Seq<char>, Seq<char>)>
    decreases body.len(),
    via fields_decreases
{
    if body.len() == 0 {
        Seq::empty()
    } else {
        let line = body[0];
        let colon = seqs::index_of(line, ':');
        let below = body.drop_first();
        if is_indented(line) || colon == line.len() {
            fields(below)
        } else {
            let key = seqs::trim(line.take(colon));
            let rest = seqs::trim(line.skip(colon + 1));
            if rest.len() > 0 && (rest[0] == '>' || rest[0] == '|') {
                let value = seqs::trim(seqs::join(block_parts(below), " "@));
                seq![(key, value)] + fields(below.skip(block_len(below) as int))
            } else {
                seq![(key, unquoted(rest))] + fields(below)
            }
        }
    }
}

#[via_fn]
proof fn fields_decreases(body: Seq<Seq<char>>) {
    if body.len() > 0 {
        block_len_bound(body.drop_first());
    }
}

proof fn block_len_bound(lines: Seq<Seq<char>>)
    ensures
        block_len(lines) <= lines.len(),
    decreases lines.len(),
{
    if lines.len() > 0 {
        block_len_bound(lines.drop_first());
    }
}

/// The fields of the block that `text` begins with; none where its first line is not `---`.
pub open spec fn frontmatter(text: Seq<char>) -> Seq<(Seq<char>, Seq<char>)> {
    let lines = seqs::lines(text);
    if lines.len() == 0 || seqs::trim(lines[0]) != "---"@ {
        Seq::empty()
    } else {
        fields(until_fence(lines.drop_first()))
    }
}

/// The value of the first field named `key`, unless it is empty.
pub open spec fn field(fm: Seq<(Seq<char>, Seq<char>)>, key: Seq<char>) -> Option<Seq<char>>
    decreases fm.len(),
{
    if fm.len() == 0 {
        None
    } else if fm[0].0 == key {
        if fm[0].1.len() == 0 {
            None
        } else {
            Some(fm[0].1)
        }
    } else {
        field(fm.drop_first(), key)
    }
}

pub open spec fn pairs(v: Seq<(String, String)>) -> Seq<(Seq<char>, Seq<char>)> {
    v.map_values(|p: (String, String)| (p.0@, p.1@))
}

fn is_indented_line(line: &str) -> (r: bool)
    ensures
        r == is_indented(line@),
{
    let cs = text::chars_of(line);
    cs.len() > 0 && text::is_white(cs[0])
}

/// `s` without one pair of surrounding quotes, where it has them.
pub fn unquote(s: &str) -> (r: String)
    ensures
        r@ == unquoted(s@),
{
    let cs = text::chars_of(s);
    let n: usize = cs.len();
    if n >= 2 && (cs[0] == '"' || cs[0] == '\'') && cs[n - 1] == cs[0] {
        text::string_of(&cs, 1, n - 1)
    } else {
        let r = text::string_of(&cs, 0, n);
        assert(r@ =~= s@);
        r
    }
}

/// Reads the leading `---` block of `input` into its fields, in the order they stand in.
pub fn parse_frontmatter(input: &str) -> (r: Vec<(String, String)>)
    ensures
        pairs(r@) == frontmatter(input@),
{
    let lines = text::lines(input);
    let ghost all = seqs::lines(input@);
    let mut out: Vec<(String, String)> = Vec::new();
    assert(pairs(out@) =~= Seq::empty());
    if lines.len() == 0 {
        return out;
    }
    assert(all[0] == lines@[0]@);
    if !text::same(text::trim(lines[0].as_str()).as_str(), "---") {
        return out;
    }
    let mut end: usize = 1;
    let ghost tail = all.drop_first();
    let ghost body = until_fence(tail);
    assert(tail.skip(0) =~= tail);
    assert(tail.take(0) + body =~= body);
    while end < lines.len() && !text::same(text::trim(lines[end].as_str()).as_str(), "---")
        invariant
            1 <= end <= lines@.len(),
            all == seqs::views(lines@),
            tail == all.drop_first(),
            body == until_fence(tail),
            body == tail.take(end - 1) + until_fence(tail.skip(end - 1)),
        decreases lines@.len() - end,
    {
        proof {
            let rest = tail.skip(end - 1);
            assert(rest[0] == lines@[end as int]@);
            assert(rest.drop_first() =~= tail.skip(end as int));
            assert(tail.take(end as int) =~= tail.take(end - 1).push(rest[0]));
            assert(tail.take(end - 1) + (seq![rest[0]] + until_fence(tail.skip(end as int)))
                =~= tail.take(end as int) + until_fence(tail.skip(end as int)));
        }
        end += 1;
    }
    proof {
        if end < lines@.len() {
            assert(tail.skip(end - 1)[0] == lines@[end as int]@);
        }
        assert(until_fence(tail.skip(end - 1)) =~= Seq::empty());
        assert(body =~= tail.take(end - 1));
    }
    let mut i: usize = 1;
    assert(body.skip(0) =~= body);
    assert(pairs(out@) + fields(body) =~= fields(body));
    while i < end
        invariant
            1 <= i <= end <= lines@.len(),
            all == seqs::views(lines@),
            tail == all.drop_first(),
            body == tail.take(end - 1),
            fields(body) == pairs(out@) + fields(body.skip(i - 1)),
        decreases end - i,
    {
        let ghost rest = body.skip(i - 1);
        let ghost below = rest.drop_first();
        let line = lines[i].as_str();
        assert(rest[0] == line@);
        assert(below =~= body.skip(i as int));
        let cs = text::chars_of(line);
        let colon = text::index_from(&cs, ':', 0);
        assert(cs@.skip(0) =~= line@);
        if is_indented_line(line) || colon == cs.len() {
            i += 1;
        } else {
            let key = text::trim(text::string_of(&cs, 0, colon).as_str());
            let value = text::trim(text::string_of(&cs, colon + 1, cs.len()).as_str());
            assert(line@.subrange(0, colon as int) =~= line@.take(colon as int));
            assert(line@.subrange(colon + 1, line@.len() as int) =~= line@.skip(colon + 1));
            let vs = text::chars_of(value.as_str());
            let ghost before = out@;
            i += 1;
            if vs.len() > 0 && (vs[0] == '>' || vs[0] == '|') {
                let mut parts: Vec<String> = Vec::new();
                let ghost start = i as int;
                proof {
                    assert(seqs::views(parts@) + block_parts(below) =~= block_parts(below));
                }
                loop
                    invariant_except_break
                        start <= i <= end <= lines@.len(),
                        1 <= start,
                        all == seqs::views(lines@),
                        tail == all.drop_first(),
                        body == tail.take(end - 1),
                        below == body.skip(start - 1),
                        block_parts(below) == seqs::views(parts@) + block_parts(body.skip(i - 1)),
                        block_len(below) == i - start + block_len(body.skip(i - 1)),
                    ensures
                        start <= i <= end,
                        block_parts(below) == seqs::views(parts@),
                        block_len(below) == i - start,
                    decreases end - i,
                {
                    if i == end {
                        assert(seqs::views(parts@) + Seq::<Seq<char>>::empty() =~= seqs::views(
                            parts@,
                        ));
                        break;
                    }
                    let ghost left = body.skip(i - 1);
                    let l = lines[i].as_str();
                    assert(left[0] == l@);
                    assert(left.drop_first() =~= body.skip(i as int));
                    let trimmed = text::trim(l);
                    let ts = text::chars_of(trimmed.as_str());
                    if ts.len() > 0 {
                        if !is_indented_line(l) {
                            assert(seqs::views(parts@) + Seq::<Seq<char>>::empty() =~= seqs::views(
                                parts@,
                            ));
                            break;
                        }
                        let ghost parts_before = parts@;
                        parts.push(trimmed);
                        proof {
                            assert(seqs::views(parts@) =~= seqs::views(parts_before).push(trimmed@));
                            assert(seqs::views(parts_before) + (seq![trimmed@] + block_parts(
                                left.drop_first(),
                            )) =~= seqs::views(parts@) + block_parts(left.drop_first()));
                        }
                    }
                    i += 1;
                }
                let folded = text::trim(text::join(&parts, " ").as_str());
                out.push((key, folded));
                proof {
                    assert(below.skip(block_len(below) as int) =~= body.skip(i - 1));
                    assert(pairs(out@) =~= pairs(before).push((key@, folded@)));
                    assert(pairs(before) + (seq![(key@, folded@)] + fields(body.skip(i - 1)))
                        =~= pairs(out@) + fields(body.skip(i - 1)));
                }
            } else {
                let plain = unquote(value.as_str());
                out.push((key, plain));
                proof {
                    assert(pairs(out@) =~= pairs(before).push((key@, plain@)));
                    assert(pairs(before) + (seq![(key@, plain@)] + fields(below))
                        =~= pairs(out@) + fields(below));
                }
            }
        }
    }
    proof {
        assert(body.skip(end - 1) =~= Seq::empty());
        assert(pairs(out@) + Seq::<(Seq<char>, Seq<char>)>::empty() =~= pairs(out@));
    }
    out
}

/// The value of the first field named `key`, unless it is empty.
pub fn fm_get(fm: &[(String, String)], key: &str) -> (r: Option<String>)
    ensures
        seqs::opt_view(r) == field(pairs(fm@), key@),
{
    let mut i: usize = 0;
    assert(pairs(fm@).skip(0) =~= pairs(fm@));
    while i < fm.len()
        invariant
            i <= fm@.len(),
            field(pairs(fm@), key@) == field(pairs(fm@).skip(i as int), key@),
        decreases fm@.len() - i,
    {
        let ghost rest = pairs(fm@).skip(i as int);
        assert(rest[0] == (fm@[i as int].0@, fm@[i as int].1@));
        if text::same(fm[i].0.as_str(), key) {
            let cs = text::chars_of(fm[i].1.as_str());
            if cs.len() == 0 {
                return None;
            }
            return Some(fm[i].1.clone());
        }
        assert(rest.drop_first() =~= pairs(fm@).skip(i + 1));
        i += 1;
    }
    None
}

/// A line of a field, `key: value`.
pub open spec fn field_line(key: Seq<char>, value: Seq<char>) -> Seq<char> {
    key + ": "@ + value
}

/// A key and a value that can be written as they are: the key holds no colon, neither begins
/// nor ends in white space, and the value is neither quoted nor a block.
pub open spec fn is_plain_field(f: (Seq<char>, Seq<char>)) -> bool {
    &&& f.0.len() > 0
    &&& !f.0.contains(':')
    &&& !seqs::is_white(f.0[0])
    &&& !seqs::is_white(f.0.last())
    &&& seqs::is_line(f.0)
    &&& seqs::is_line(f.1)
    &&& f.1.len() > 0
    &&& !seqs::is_white(f.1[0])
    &&& !seqs::is_white(f.1.last())
    &&& f.1[0] != '>'
    &&& f.1[0] != '|'
    &&& f.1[0] != '"'
    &&& f.1[0] != '\''
}

proof fn one_field_is_read(key: Seq<char>, value: Seq<char>, below: Seq<Seq<char>>)
    requires
        is_plain_field((key, value)),
    ensures
        fields(seq![field_line(key, value)] + below) == seq![(key, value)] + fields(below),
{
    reveal_strlit(": ");
    let line = field_line(key, value);
    let body = seq![line] + below;
    assert(body[0] == line);
    assert(body.drop_first() =~= below);
    assert forall|j: int| 0 <= j < key.len() implies line[j] != ':' by {
        assert(line[j] == key[j]);
        assert(key.contains(key[j]));
    }
    assert(line[key.len() as int] == ':');
    seqs::index_of_is(line, ':', key.len() as int);
    assert(line[0] == key[0]);
    assert(line.take(key.len() as int) =~= key);
    let rest = line.skip(key.len() as int + 1);
    assert(rest =~= seq![' '] + value + Seq::<char>::empty());
    seqs::trim_takes_white_ends(seq![' '], value, Seq::empty());
    seqs::trim_takes_white_ends(Seq::empty(), key, Seq::empty());
    assert(Seq::<char>::empty() + key + Seq::<char>::empty() =~= key);
    assert(unquoted(value) == value);
}

proof fn plain_fields_are_read(fs: Seq<(Seq<char>, Seq<char>)>)
    requires
        forall|i: int| 0 <= i < fs.len() ==> is_plain_field(#[trigger] fs[i]),
    ensures
        fields(fs.map_values(|f: (Seq<char>, Seq<char>)| field_line(f.0, f.1))) == fs,
    decreases fs.len(),
{
    let line = |f: (Seq<char>, Seq<char>)| field_line(f.0, f.1);
    let lines = fs.map_values(line);
    if fs.len() == 0 {
        assert(fields(lines) =~= fs);
    } else {
        let rest = fs.drop_first();
        assert forall|i: int| 0 <= i < rest.len() implies is_plain_field(#[trigger] rest[i]) by {
            assert(rest[i] == fs[i + 1]);
        }
        plain_fields_are_read(rest);
        assert(is_plain_field(fs[0]));
        one_field_is_read(fs[0].0, fs[0].1, rest.map_values(line));
        assert(lines =~= seq![field_line(fs[0].0, fs[0].1)] + rest.map_values(line));
        assert(seq![(fs[0].0, fs[0].1)] + rest =~= fs);
    }
}

proof fn fence_ends_the_block(lines: Seq<Seq<char>>, rest: Seq<Seq<char>>)
    requires
        forall|i: int| 0 <= i < lines.len() ==> seqs::trim(#[trigger] lines[i]) != "---"@,
    ensures
        until_fence(lines + seq!["---"@] + rest) == lines,
    decreases lines.len(),
{
    reveal_strlit("---");
    let all = lines + seq!["---"@] + rest;
    if lines.len() == 0 {
        assert(all[0] == "---"@);
        seqs::trim_takes_white_ends(Seq::empty(), "---"@, Seq::empty());
        assert(Seq::<char>::empty() + "---"@ + Seq::<char>::empty() =~= "---"@);
        assert(until_fence(all) =~= lines);
    } else {
        assert(all[0] == lines[0]);
        assert(all.drop_first() =~= lines.drop_first() + seq!["---"@] + rest);
        assert forall|i: int| 0 <= i < lines.drop_first().len() implies seqs::trim(
            #[trigger] lines.drop_first()[i],
        ) != "---"@ by {
            assert(lines.drop_first()[i] == lines[i + 1]);
        }
        fence_ends_the_block(lines.drop_first(), rest);
        assert(seq![lines[0]] + lines.drop_first() =~= lines);
    }
}

/// The fields that stand one below the other between two fences at the beginning of a file
/// are read as they were written, in their order, whatever text follows.
pub proof fn fields_are_read_back(fs: Seq<(Seq<char>, Seq<char>)>, rest: Seq<Seq<char>>)
    requires
        forall|i: int| 0 <= i < fs.len() ==> is_plain_field(#[trigger] fs[i]),
        forall|i: int| 0 <= i < rest.len() ==> seqs::is_line(#[trigger] rest[i]),
    ensures
        frontmatter(
            seqs::written(
                seq!["---"@] + fs.map_values(
                    |f: (Seq<char>, Seq<char>)| field_line(f.0, f.1),
                ) + seq!["---"@] + rest,
            ),
        ) == fs,
{
    reveal_strlit("---");
    reveal_strlit(": ");
    let line = |f: (Seq<char>, Seq<char>)| field_line(f.0, f.1);
    let body = fs.map_values(line);
    let lines = seq!["---"@] + body + seq!["---"@] + rest;
    assert forall|i: int| 0 <= i < lines.len() implies seqs::is_line(#[trigger] lines[i]) by {
        if 1 <= i < 1 + body.len() {
            let f = fs[i - 1];
            assert(is_plain_field(f));
            assert(lines[i] == field_line(f.0, f.1));
            line_holds(f.0, f.1, '\n');
            line_holds(f.0, f.1, '\r');
        } else if i >= 2 + body.len() {
            assert(lines[i] == rest[i - 2 - body.len()]);
        } else {
            assert(lines[i] == "---"@);
        }
    }
    seqs::lines_read_back(lines);
    seqs::trim_takes_white_ends(Seq::empty(), "---"@, Seq::empty());
    assert(Seq::<char>::empty() + "---"@ + Seq::<char>::empty() =~= "---"@);
    assert(lines[0] == "---"@);
    assert(lines.drop_first() =~= body + seq!["---"@] + rest);
    assert forall|i: int| 0 <= i < body.len() implies seqs::trim(#[trigger] body[i]) != "---"@ by {
        let f = fs[i];
        assert(is_plain_field(f));
        let l = field_line(f.0, f.1);
        assert(l[0] == f.0[0] && l.last() == f.1.last());
        seqs::trim_takes_white_ends(Seq::empty(), l, Seq::empty());
        assert(Seq::<char>::empty() + l + Seq::<char>::empty() =~= l);
        assert(l[f.0.len() as int] == ':');
    }
    fence_ends_the_block(body, rest);
    plain_fields_are_read(fs);
}

proof fn line_holds(key: Seq<char>, value: Seq<char>, c: char)
    requires
        c == '\n' || c == '\r',
        !key.contains(c),
        !value.contains(c),
    ensures
        !field_line(key, value).contains(c),
{
    reveal_strlit(": ");
    assert(!": "@.contains(c));
    seqs::concat_holds(key, ": "@, c);
    seqs::concat_holds(key + ": "@, value, c);
}

/// A value in matching quotes is read without them, and one without stays as it is.
pub proof fn quotes_are_dropped(value: Seq<char>, q: char)
    ensures
        q == '"' || q == '\'' ==> unquoted(seq![q] + value + seq![q]) == value,
        value.len() < 2 || value[0] != value.last() || (value[0] != '"' && value[0] != '\'')
            ==> unquoted(value) == value,
{
    let s = seq![q] + value + seq![q];
    assert(s.subrange(1, s.len() - 1) =~= value);
    assert(s[0] == q && s.last() == q);
}

/// A field whose value begins with `>` or `|` has the indented lines below it as its value:
/// trimmed and joined by single spaces. What follows them is read on.
pub proof fn folded_values_are_joined(
    key: Seq<char>,
    mark: char,
    block: Seq<Seq<char>>,
    below: Seq<Seq<char>>,
)
    requires
        key.len() > 0,
        !key.contains(':'),
        !seqs::is_white(key[0]),
        !seqs::is_white(key.last()),
        mark == '>' || mark == '|',
        block.len() > 0,
        forall|i: int| 0 <= i < block.len() ==> is_trimmed(#[trigger] block[i]),
        below.len() > 0 ==> !is_indented(below[0]) && seqs::trim(below[0]).len() > 0,
    ensures
        fields(
            seq![key + ": "@ + seq![mark]] + block.map_values(|l: Seq<char>| seq![' ', ' '] + l)
                + below,
        ) == seq![(key, seqs::join(block, " "@))] + fields(below),
{
    reveal_strlit(": ");
    let line = key + ": "@ + seq![mark];
    let own = block.map_values(|l: Seq<char>| seq![' ', ' '] + l);
    let body = seq![line] + own + below;
    assert(body[0] == line);
    let rest = own + below;
    assert(body.drop_first() =~= rest);
    assert forall|j: int| 0 <= j < key.len() implies line[j] != ':' by {
        assert(line[j] == key[j]);
        assert(key.contains(key[j]));
    }
    assert(line[key.len() as int] == ':');
    seqs::index_of_is(line, ':', key.len() as int);
    assert(line[0] == key[0]);
    assert(line.take(key.len() as int) =~= key);
    assert(line.skip(key.len() as int + 1) =~= seq![' '] + seq![mark] + Seq::<char>::empty());
    seqs::trim_takes_white_ends(seq![' '], seq![mark], Seq::empty());
    seqs::trim_takes_white_ends(Seq::empty(), key, Seq::empty());
    assert(Seq::<char>::empty() + key + Seq::<char>::empty() =~= key);
    block_is_read(block, below);
    assert(rest.skip(block.len() as int) =~= below);
    let joined = seqs::join(block, " "@);
    assert(is_trimmed(block[0]) && is_trimmed(block[block.len() - 1]));
    seqs::join_parts(block, " "@, 0);
    assert(joined[0] == block[0][0]);
    seqs::join_parts(block, " "@, block.len() - 1);
    assert(joined.last() == block[block.len() - 1].last());
    seqs::trim_takes_white_ends(Seq::empty(), joined, Seq::empty());
    assert(Seq::<char>::empty() + joined + Seq::<char>::empty() =~= joined);
}

pub open spec fn is_trimmed(s: Seq<char>) -> bool {
    s.len() > 0 && !seqs::is_white(s[0]) && !seqs::is_white(s.last())
}

proof fn block_is_read(block: Seq<Seq<char>>, below: Seq<Seq<char>>)
    requires
        forall|i: int| 0 <= i < block.len() ==> is_trimmed(#[trigger] block[i]),
        below.len() > 0 ==> !is_indented(below[0]) && seqs::trim(below[0]).len() > 0,
    ensures
        block_len(block.map_values(|l: Seq<char>| seq![' ', ' '] + l) + below) == block.len(),
        block_parts(block.map_values(|l: Seq<char>| seq![' ', ' '] + l) + below) == block,
    decreases block.len(),
{
    let indent = |l: Seq<char>| seq![' ', ' '] + l;
    let own = block.map_values(indent);
    let all = own + below;
    if block.len() == 0 {
        assert(all =~= below);
        assert(block_parts(all) =~= block);
    } else {
        let rest = block.drop_first();
        assert forall|i: int| 0 <= i < rest.len() implies is_trimmed(#[trigger] rest[i]) by {
            assert(rest[i] == block[i + 1]);
        }
        block_is_read(rest, below);
        assert(all[0] == seq![' ', ' '] + block[0]);
        assert(all.drop_first() =~= rest.map_values(indent) + below);
        assert(is_trimmed(block[0]));
        seqs::trim_takes_white_ends(seq![' ', ' '], block[0], Seq::empty());
        assert(seq![' ', ' '] + block[0] + Seq::<char>::empty() =~= all[0]);
        assert(all[0][0] == ' ');
        assert(seq![block[0]] + rest =~= block);
    }
}

/// A field is found by its key: the first that has it, unless it is empty.
pub proof fn fields_are_found_by_key(fm: Seq<(Seq<char>, Seq<char>)>, key: Seq<char>, i: int)
    ensures
        0 <= i < fm.len() && fm[i].0 == key && fm[i].1.len() > 0 && (forall|j: int|
            0 <= j < i ==> (#[trigger] fm[j]).0 != key) ==> field(fm, key) == Some(fm[i].1),
        (forall|j: int| 0 <= j < fm.len() ==> (#[trigger] fm[j]).0 != key) ==> field(fm, key) is None,
    decreases fm.len(),
{
    if fm.len() > 0 {
        let rest = fm.drop_first();
        fields_are_found_by_key(rest, key, i - 1);
        if 0 < i < fm.len() && fm[i].0 == key && (forall|j: int|
            0 <= j < i ==> (#[trigger] fm[j]).0 != key) {
            assert(fm[0].0 != key);
            assert(rest[i - 1] == fm[i]);
            assert forall|j: int| 0 <= j < i - 1 implies (#[trigger] rest[j]).0 != key by {
                assert(rest[j] == fm[j + 1]);
            }
        }
        if forall|j: int| 0 <= j < fm.len() ==> (#[trigger] fm[j]).0 != key {
            assert(fm[0].0 != key);
            assert forall|j: int| 0 <= j < rest.len() implies (#[trigger] rest[j]).0 != key by {
                assert(rest[j] == fm[j + 1]);
            }
        }
    }
}

/// A file that does not begin with a fence has no fields.
pub proof fn no_fence_no_fields(first: Seq<char>, rest: Seq<char>)
    requires
        seqs::is_line(first),
        seqs::trim(first) != "---"@,
    ensures
        frontmatter(first + seq!['\n'] + rest).len() == 0,
{
    let text = first + seq!['\n'] + rest;
    assert forall|j: int| 0 <= j < first.len() implies text[j] != '\n' by {
        assert(text[j] == first[j]);
        assert(first.contains(first[j]));
    }
    seqs::index_of_is(text, '\n', first.len() as int);
    assert(text.take(first.len() as int) =~= first);
    if first.len() > 0 && first.last() == '\r' {
        assert(first.contains(first.last()));
    }
}

} // verus!
