//! Text as a mathematical sequence of characters.
//!
//! The functions here have no executable counterpart of their own: they say what the
//! functions of [`crate::text`] compute, and every other module states its contracts with
//! them.
use vstd::prelude::*;

verus! {

/// The characters with the Unicode property `White_Space`.
pub open spec fn is_white(c: char) -> bool {
    ||| '\u{9}' <= c <= '\u{d}'
    ||| c == ' '
    ||| c == '\u{85}'
    ||| c == '\u{a0}'
    ||| c == '\u{1680}'
    ||| '\u{2000}' <= c <= '\u{200a}'
    ||| c == '\u{2028}'
    ||| c == '\u{2029}'
    ||| c == '\u{202f}'
    ||| c == '\u{205f}'
    ||| c == '\u{3000}'
}

pub open spec fn is_digit(c: char) -> bool {
    '0' <= c <= '9'
}

pub open spec fn is_ascii_alnum(c: char) -> bool {
    is_digit(c) || 'a' <= c <= 'z' || 'A' <= c <= 'Z'
}

/// The texts held by a list of strings.
pub open spec fn views(v: Seq<String>) -> Seq<Seq<char>> {
    v.map_values(|s: String| s@)
}

/// The text held by an optional string.
pub open spec fn opt_view(o: Option<String>) -> Option<Seq<char>> {
    match o {
        Some(s) => Some(s@),
        None => None,
    }
}

/// The number of bytes that `s` takes in UTF-8.
pub open spec fn byte_len(s: Seq<char>) -> nat {
    vstd::utf8::encode_utf8(s).len()
}

pub open spec fn all_chars(s: Seq<char>, f: spec_fn(char) -> bool) -> bool {
    forall|i: int| 0 <= i < s.len() ==> f(#[trigger] s[i])
}

pub open spec fn starts_with(s: Seq<char>, p: Seq<char>) -> bool {
    p.len() <= s.len() && s.take(p.len() as int) == p
}

pub open spec fn ends_with(s: Seq<char>, p: Seq<char>) -> bool {
    p.len() <= s.len() && s.skip(s.len() - p.len()) == p
}

/// `p` stands in `s` at position `i`.
pub open spec fn occurs_at(s: Seq<char>, p: Seq<char>, i: int) -> bool {
    0 <= i && i + p.len() <= s.len() && s.subrange(i, i + p.len()) == p
}

/// `p` stands somewhere in `s`.
pub open spec fn has_text(s: Seq<char>, p: Seq<char>) -> bool {
    exists|i: int| #[trigger] occurs_at(s, p, i)
}

/// The first position at or after `i` where `p` stands in `s`.
pub open spec fn find_from(s: Seq<char>, p: Seq<char>, i: int) -> Option<int>
    decreases s.len() + 1 - i,
{
    if i < 0 || i + p.len() > s.len() {
        None
    } else if s.subrange(i, i + p.len()) == p {
        Some(i)
    } else {
        find_from(s, p, i + 1)
    }
}

pub proof fn find_from_meaning(s: Seq<char>, p: Seq<char>, i: int)
    requires
        0 <= i,
    ensures
        (match find_from(s, p, i) {
            Some(k) => i <= k && occurs_at(s, p, k) && forall|j: int|
                i <= j < k ==> !#[trigger] occurs_at(s, p, j),
            None => forall|j: int| i <= j ==> !#[trigger] occurs_at(s, p, j),
        }),
    decreases s.len() + 1 - i,
{
    if i + p.len() <= s.len() && s.subrange(i, i + p.len()) != p {
        find_from_meaning(s, p, i + 1);
    }
}

/// What follows `p` in `s`, where `s` begins with it.
pub open spec fn strip_prefix(s: Seq<char>, p: Seq<char>) -> Option<Seq<char>> {
    if starts_with(s, p) {
        Some(s.skip(p.len() as int))
    } else {
        None
    }
}

/// What precedes `p` in `s`, where `s` ends with it.
pub open spec fn strip_suffix(s: Seq<char>, p: Seq<char>) -> Option<Seq<char>> {
    if ends_with(s, p) {
        Some(s.take(s.len() - p.len()))
    } else {
        None
    }
}

/// The position of the first `c` in `s`, or the length of `s` where there is none.
pub open spec fn index_of(s: Seq<char>, c: char) -> int
    decreases s.len(),
{
    if s.len() == 0 || s[0] == c {
        0
    } else {
        1 + index_of(s.drop_first(), c)
    }
}

pub open spec fn trim_start(s: Seq<char>) -> Seq<char>
    decreases s.len(),
{
    if s.len() > 0 && is_white(s[0]) {
        trim_start(s.drop_first())
    } else {
        s
    }
}

pub open spec fn trim_end(s: Seq<char>) -> Seq<char>
    decreases s.len(),
{
    if s.len() > 0 && is_white(s.last()) {
        trim_end(s.drop_last())
    } else {
        s
    }
}

/// `s` without the white space at its two ends.
pub open spec fn trim(s: Seq<char>) -> Seq<char> {
    trim_end(trim_start(s))
}

/// The pieces of `s` between the occurrences of `c`.
pub open spec fn split(s: Seq<char>, c: char) -> Seq<Seq<char>>
    decreases s.len(),
    via split_decreases
{
    let i = index_of(s, c);
    if i < s.len() {
        seq![s.take(i)] + split(s.skip(i + 1), c)
    } else {
        seq![s]
    }
}

#[via_fn]
proof fn split_decreases(s: Seq<char>, c: char) {
    index_of_bounds(s, c);
}

pub proof fn index_of_bounds(s: Seq<char>, c: char)
    ensures
        0 <= index_of(s, c) <= s.len(),
        index_of(s, c) < s.len() ==> s[index_of(s, c)] == c,
        forall|j: int| 0 <= j < index_of(s, c) ==> s[j] != c,
    decreases s.len(),
{
    if s.len() > 0 && s[0] != c {
        let t = s.drop_first();
        index_of_bounds(t, c);
        let k = index_of(t, c);
        assert forall|j: int| 0 <= j < 1 + k implies s[j] != c by {
            if j > 0 {
                assert(t[j - 1] == s[j]);
            }
        }
    }
}

/// What the first `c` in `s` is, recognised by its properties.
pub proof fn index_of_is(s: Seq<char>, c: char, i: int)
    requires
        0 <= i <= s.len(),
        i < s.len() ==> s[i] == c,
        forall|j: int| 0 <= j < i ==> s[j] != c,
    ensures
        index_of(s, c) == i,
    decreases s.len(),
{
    index_of_bounds(s, c);
    let k = index_of(s, c);
    if k < i {
        assert(s[k] != c);
    }
    if i < k {
        assert(s[i] != c);
    }
}

/// A line without the carriage return of its line ending.
pub open spec fn strip_cr(s: Seq<char>) -> Seq<char> {
    if s.len() > 0 && s.last() == '\r' {
        s.drop_last()
    } else {
        s
    }
}

/// The lines of `s`. A line ends in `\n` or `\r\n`; the last one may lack its ending.
pub open spec fn lines(s: Seq<char>) -> Seq<Seq<char>>
    decreases s.len(),
    via lines_decreases
{
    let i = index_of(s, '\n');
    if s.len() == 0 {
        Seq::empty()
    } else if i < s.len() {
        seq![strip_cr(s.take(i))] + lines(s.skip(i + 1))
    } else {
        seq![s]
    }
}

#[via_fn]
proof fn lines_decreases(s: Seq<char>) {
    index_of_bounds(s, '\n');
}

/// The position of the first white space in `s`, or its length.
pub open spec fn white_index(s: Seq<char>) -> int
    decreases s.len(),
{
    if s.len() == 0 || is_white(s[0]) {
        0
    } else {
        1 + white_index(s.drop_first())
    }
}

pub proof fn white_index_bounds(s: Seq<char>)
    ensures
        0 <= white_index(s) <= s.len(),
        s.len() > 0 && !is_white(s[0]) ==> white_index(s) > 0,
    decreases s.len(),
{
    if s.len() > 0 && !is_white(s[0]) {
        white_index_bounds(s.drop_first());
    }
}

pub proof fn trim_start_len(s: Seq<char>)
    ensures
        trim_start(s).len() <= s.len(),
        trim_start(s).len() > 0 ==> !is_white(trim_start(s)[0]),
    decreases s.len(),
{
    if s.len() > 0 && is_white(s[0]) {
        trim_start_len(s.drop_first());
    }
}

/// The runs of `s` that hold no white space.
pub open spec fn words(s: Seq<char>) -> Seq<Seq<char>>
    decreases s.len(),
    via words_decreases
{
    let t = trim_start(s);
    let k = white_index(t);
    if t.len() == 0 {
        Seq::empty()
    } else {
        seq![t.take(k)] + words(t.skip(k))
    }
}

#[via_fn]
proof fn words_decreases(s: Seq<char>) {
    trim_start_len(s);
    white_index_bounds(trim_start(s));
}

/// A word holds no white space.
pub proof fn words_hold_no_white(s: Seq<char>)
    ensures
        forall|i: int, j: int|
            0 <= i < words(s).len() && 0 <= j < words(s)[i].len() ==> !is_white(
                #[trigger] words(s)[i][j],
            ),
    decreases s.len(),
{
    let t = trim_start(s);
    let k = white_index(t);
    trim_start_len(s);
    white_index_bounds(t);
    if t.len() > 0 {
        let rest = words(t.skip(k));
        words_hold_no_white(t.skip(k));
        white_index_clear(t);
        assert forall|i: int, j: int|
            0 <= i < words(s).len() && 0 <= j < words(s)[i].len() implies !is_white(
            #[trigger] words(s)[i][j],
        ) by {
            if i > 0 {
                assert(words(s)[i] == rest[i - 1]);
                assert(!is_white(rest[i - 1][j]));
            }
        }
    }
}

proof fn white_index_clear(s: Seq<char>)
    ensures
        forall|j: int| 0 <= j < white_index(s) ==> !is_white(#[trigger] s[j]),
    decreases s.len(),
{
    if s.len() > 0 && !is_white(s[0]) {
        let t = s.drop_first();
        white_index_clear(t);
        white_index_bounds(t);
        assert forall|j: int| 0 <= j < white_index(s) implies !is_white(#[trigger] s[j]) by {
            if j > 0 {
                assert(t[j - 1] == s[j]);
            }
        }
    }
}

/// A joined text holds only characters of its parts and of the separator.
pub proof fn join_holds(parts: Seq<Seq<char>>, sep: Seq<char>, c: char)
    requires
        forall|i: int| 0 <= i < parts.len() ==> !(#[trigger] parts[i]).contains(c),
        !sep.contains(c),
    ensures
        !join(parts, sep).contains(c),
    decreases parts.len(),
{
    if parts.len() > 1 {
        let head = parts.drop_last();
        assert forall|i: int| 0 <= i < head.len() implies !(#[trigger] head[i]).contains(c) by {
            assert(head[i] == parts[i]);
        }
        join_holds(head, sep, c);
        assert(!parts.last().contains(c));
        concat_holds(join(head, sep), sep, c);
        concat_holds(join(head, sep) + sep, parts.last(), c);
    }
}

pub proof fn concat_holds(a: Seq<char>, b: Seq<char>, c: char)
    ensures
        (a + b).contains(c) <==> a.contains(c) || b.contains(c),
{
    if a.contains(c) {
        let i = choose|i: int| 0 <= i < a.len() && a[i] == c;
        assert((a + b)[i] == c);
    }
    if b.contains(c) {
        let i = choose|i: int| 0 <= i < b.len() && b[i] == c;
        assert((a + b)[a.len() + i] == c);
    }
}

/// The texts of `parts` with `sep` between each two.
pub open spec fn join(parts: Seq<Seq<char>>, sep: Seq<char>) -> Seq<char>
    decreases parts.len(),
{
    if parts.len() == 0 {
        Seq::empty()
    } else if parts.len() == 1 {
        parts[0]
    } else {
        join(parts.drop_last(), sep) + sep + parts.last()
    }
}

pub open spec fn lower_char(c: char) -> char {
    if 'A' <= c <= 'Z' {
        ((c as u32) + 32) as char
    } else {
        c
    }
}

/// `s` with its ASCII capitals made small.
pub open spec fn ascii_lower(s: Seq<char>) -> Seq<char> {
    s.map_values(|c: char| lower_char(c))
}

pub open spec fn digit_char(d: nat) -> char {
    ('0' as u32 + d) as char
}

/// `n` in decimal.
pub open spec fn decimal(n: nat) -> Seq<char>
    decreases n,
{
    if n < 10 {
        seq![digit_char(n)]
    } else {
        decimal(n / 10).push(digit_char(n % 10))
    }
}

/// `n` in decimal, with a minus sign where it is negative.
pub open spec fn signed_decimal(n: int) -> Seq<char> {
    if n < 0 {
        seq!['-'] + decimal((-n) as nat)
    } else {
        decimal(n as nat)
    }
}

/// The number that a run of decimal digits writes.
pub open spec fn digits_value(s: Seq<char>) -> nat
    decreases s.len(),
{
    if s.len() == 0 {
        0
    } else {
        (digits_value(s.drop_last()) * 10 + (s.last() as u32 - '0' as u32)) as nat
    }
}

pub open spec fn all_digits(s: Seq<char>) -> bool {
    forall|i: int| 0 <= i < s.len() ==> is_digit(#[trigger] s[i])
}

/// A run of digits writes at least what each of its beginnings writes.
pub proof fn digits_value_prefix(s: Seq<char>, k: int)
    requires
        0 <= k <= s.len(),
    ensures
        all_digits(s) ==> digits_value(s.take(k)) <= digits_value(s),
    decreases s.len(),
{
    if k == s.len() {
        assert(s.take(k) =~= s);
    } else {
        digits_value_prefix(s.drop_last(), k);
        assert(s.drop_last().take(k) =~= s.take(k));
        if all_digits(s) {
            assert(is_digit(s.last()));
        }
    }
}

/// The unsigned number that `s` writes, where it is at most `max`: at least one decimal
/// digit, with an optional `+` in front, and nothing else.
pub open spec fn parse_uint(s: Seq<char>, max: nat) -> Option<nat> {
    let t = if s.len() > 0 && s[0] == '+' {
        s.skip(1)
    } else {
        s
    };
    if t.len() > 0 && all_digits(t) && digits_value(t) <= max {
        Some(digits_value(t))
    } else {
        None
    }
}

/// The order of strings: by the first character in which they differ, a proper prefix
/// before what it begins.
pub open spec fn text_le(a: Seq<char>, b: Seq<char>) -> bool
    decreases a.len(),
{
    if a.len() == 0 {
        true
    } else if b.len() == 0 {
        false
    } else if a[0] == b[0] {
        text_le(a.drop_first(), b.drop_first())
    } else {
        a[0] < b[0]
    }
}

/// The position of the last `c` in `s`, or -1 where there is none.
pub open spec fn last_index_of(s: Seq<char>, c: char) -> int
    decreases s.len(),
{
    if s.len() == 0 {
        -1
    } else if s.last() == c {
        s.len() - 1
    } else {
        last_index_of(s.drop_last(), c)
    }
}

pub proof fn last_index_of_bounds(s: Seq<char>, c: char)
    ensures
        -1 <= last_index_of(s, c) < s.len(),
        last_index_of(s, c) >= 0 ==> s[last_index_of(s, c)] == c,
        forall|j: int| last_index_of(s, c) < j < s.len() ==> s[j] != c,
    decreases s.len(),
{
    if s.len() > 0 && s.last() != c {
        let t = s.drop_last();
        last_index_of_bounds(t, c);
        assert forall|j: int| last_index_of(s, c) < j < s.len() implies s[j] != c by {
            if j < s.len() - 1 {
                assert(t[j] == s[j]);
            }
        }
    }
}

/// The bytes that one character takes in UTF-8.
pub open spec fn char_width(c: char) -> nat {
    if '\u{80}' > c {
        1
    } else if '\u{800}' > c {
        2
    } else if '\u{10000}' > c {
        3
    } else {
        4
    }
}

/// The longest beginning of `s` that takes at most `max` bytes.
pub open spec fn byte_prefix(s: Seq<char>, max: nat) -> Seq<char>
    decreases s.len(),
{
    if s.len() > 0 && char_width(s[0]) <= max {
        seq![s[0]] + byte_prefix(s.drop_first(), (max - char_width(s[0])) as nat)
    } else {
        Seq::empty()
    }
}

proof fn char_width_encodes(c: char)
    ensures
        vstd::utf8::encode_scalar(c as u32).len() == char_width(c),
{
}

pub proof fn byte_len_first(s: Seq<char>)
    requires
        s.len() > 0,
    ensures
        byte_len(s) == char_width(s[0]) + byte_len(s.drop_first()),
{
    char_width_encodes(s[0]);
}

pub proof fn byte_len_concat(a: Seq<char>, b: Seq<char>)
    ensures
        byte_len(a + b) == byte_len(a) + byte_len(b),
    decreases a.len(),
{
    if a.len() == 0 {
        assert(a + b =~= b);
    } else {
        byte_len_first(a);
        byte_len_first(a + b);
        assert((a + b).drop_first() =~= a.drop_first() + b);
        byte_len_concat(a.drop_first(), b);
    }
}

pub proof fn byte_prefix_fits(s: Seq<char>, max: nat)
    ensures
        byte_prefix(s, max).len() <= s.len(),
        byte_prefix(s, max) == s.take(byte_prefix(s, max).len() as int),
        byte_len(byte_prefix(s, max)) <= max,
    decreases s.len(),
{
    if s.len() > 0 && char_width(s[0]) <= max {
        let rest = (max - char_width(s[0])) as nat;
        byte_prefix_fits(s.drop_first(), rest);
        let r = byte_prefix(s, max);
        byte_len_first(r);
        assert(r.drop_first() =~= byte_prefix(s.drop_first(), rest));
        assert(r =~= s.take(r.len() as int));
    } else {
        assert(byte_prefix(s, max) =~= s.take(0));
    }
}

/// The texts of `all`, each where it first occurs.
pub open spec fn distinct(all: Seq<Seq<char>>) -> Seq<Seq<char>>
    decreases all.len(),
{
    if all.len() == 0 {
        Seq::empty()
    } else {
        let head = distinct(all.drop_last());
        if all.drop_last().contains(all.last()) {
            head
        } else {
            head.push(all.last())
        }
    }
}

/// Keeping each text once loses none, adds none, and leaves no two alike.
pub proof fn distinct_sound(all: Seq<Seq<char>>)
    ensures
        distinct(all).no_duplicates(),
        forall|x: Seq<char>| distinct(all).contains(x) <==> #[trigger] all.contains(x),
    decreases all.len(),
{
    if all.len() > 0 {
        let before = all.drop_last();
        let last = all.last();
        let head = distinct(before);
        distinct_sound(before);
        assert forall|x: Seq<char>| distinct(all).contains(x) <==> #[trigger] all.contains(x) by {
            assert(head.contains(x) <==> before.contains(x));
            if all.contains(x) {
                let i = choose|i: int| 0 <= i < all.len() && all[i] == x;
                if i < before.len() {
                    assert(before[i] == x);
                    let k = choose|k: int| 0 <= k < head.len() && head[k] == x;
                    assert(distinct(all)[k] == x);
                } else if before.contains(last) {
                    assert(head.contains(last));
                } else {
                    assert(distinct(all)[head.len() as int] == x);
                }
            }
            if distinct(all).contains(x) {
                let k = choose|k: int| 0 <= k < distinct(all).len() && distinct(all)[k] == x;
                if k < head.len() {
                    assert(head[k] == x);
                    let i = choose|i: int| 0 <= i < before.len() && before[i] == x;
                    assert(all[i] == x);
                } else {
                    assert(all[all.len() - 1] == x);
                }
            }
        }
        if !before.contains(last) {
            assert(!head.contains(last));
        }
    }
}

/// Puts `k` into a list in ascending order, unless it is there already.
pub open spec fn insert_key(keys: Seq<Seq<char>>, k: Seq<char>) -> Seq<Seq<char>>
    decreases keys.len(),
{
    if keys.len() == 0 {
        seq![k]
    } else if keys[0] == k {
        keys
    } else if text_le(k, keys[0]) {
        seq![k] + keys
    } else {
        seq![keys[0]] + insert_key(keys.drop_first(), k)
    }
}

/// The texts of `keys` in ascending order, each once.
pub open spec fn sorted_keys(keys: Seq<Seq<char>>) -> Seq<Seq<char>>
    decreases keys.len(),
{
    if keys.len() == 0 {
        Seq::empty()
    } else {
        insert_key(sorted_keys(keys.drop_last()), keys.last())
    }
}

/// Each text of `keys` comes before every later one, and differs from it.
pub open spec fn strictly_ascending(keys: Seq<Seq<char>>) -> bool {
    forall|i: int, j: int|
        0 <= i < j < keys.len() ==> text_le(#[trigger] keys[i], #[trigger] keys[j]) && keys[i]
            != keys[j]
}

pub proof fn text_le_reflexive(a: Seq<char>)
    ensures
        text_le(a, a),
    decreases a.len(),
{
    if a.len() > 0 {
        text_le_reflexive(a.drop_first());
    }
}

pub proof fn text_le_total(a: Seq<char>, b: Seq<char>)
    ensures
        text_le(a, b) || text_le(b, a),
    decreases a.len(),
{
    if a.len() > 0 && b.len() > 0 && a[0] == b[0] {
        text_le_total(a.drop_first(), b.drop_first());
    }
}

pub proof fn text_le_antisymmetric(a: Seq<char>, b: Seq<char>)
    requires
        text_le(a, b),
        text_le(b, a),
    ensures
        a == b,
    decreases a.len(),
{
    if a.len() > 0 && b.len() > 0 {
        text_le_antisymmetric(a.drop_first(), b.drop_first());
        assert(a =~= seq![a[0]] + a.drop_first());
        assert(b =~= seq![b[0]] + b.drop_first());
    } else {
        assert(a =~= b);
    }
}

pub proof fn text_le_transitive(a: Seq<char>, b: Seq<char>, c: Seq<char>)
    requires
        text_le(a, b),
        text_le(b, c),
    ensures
        text_le(a, c),
    decreases a.len(),
{
    if a.len() > 0 && b.len() > 0 && c.len() > 0 && a[0] == b[0] && b[0] == c[0] {
        text_le_transitive(a.drop_first(), b.drop_first(), c.drop_first());
    }
}

pub proof fn insert_key_sound(keys: Seq<Seq<char>>, k: Seq<char>)
    requires
        strictly_ascending(keys),
    ensures
        strictly_ascending(insert_key(keys, k)),
        forall|x: Seq<char>|
            insert_key(keys, k).contains(x) <==> (#[trigger] keys.contains(x) || x == k),
    decreases keys.len(),
{
    let r = insert_key(keys, k);
    if keys.len() == 0 {
        assert(r[0] == k);
        assert forall|x: Seq<char>| r.contains(x) <==> (#[trigger] keys.contains(x) || x == k) by {
            if x == k {
                assert(r.contains(r[0]));
            }
        }
    } else if keys[0] == k {
        assert(keys.contains(keys[0]));
    } else if text_le(k, keys[0]) {
        assert forall|i: int, j: int| 0 <= i < j < r.len() implies text_le(
            #[trigger] r[i],
            #[trigger] r[j],
        ) && r[i] != r[j] by {
            assert(r[j] == keys[j - 1]);
            if i == 0 {
                if j > 1 {
                    assert(text_le(keys[0], keys[j - 1]));
                    text_le_transitive(k, keys[0], keys[j - 1]);
                    if keys[j - 1] == k {
                        text_le_antisymmetric(k, keys[0]);
                    }
                }
            } else {
                assert(r[i] == keys[i - 1]);
            }
        }
        assert forall|x: Seq<char>| r.contains(x) <==> (#[trigger] keys.contains(x) || x == k) by {
            if keys.contains(x) {
                let i = choose|i: int| 0 <= i < keys.len() && keys[i] == x;
                assert(r[i + 1] == x);
            }
            if x == k {
                assert(r[0] == x);
            }
            if r.contains(x) && x != k {
                let i = choose|i: int| 0 <= i < r.len() && r[i] == x;
                assert(keys[i - 1] == x);
            }
        }
    } else {
        let tail = keys.drop_first();
        assert forall|i: int, j: int| 0 <= i < j < tail.len() implies text_le(
            #[trigger] tail[i],
            #[trigger] tail[j],
        ) && tail[i] != tail[j] by {
            assert(tail[i] == keys[i + 1] && tail[j] == keys[j + 1]);
        }
        insert_key_sound(tail, k);
        let rest = insert_key(tail, k);
        assert forall|i: int, j: int| 0 <= i < j < r.len() implies text_le(
            #[trigger] r[i],
            #[trigger] r[j],
        ) && r[i] != r[j] by {
            assert(r[j] == rest[j - 1]);
            if i == 0 {
                let x = rest[j - 1];
                assert(rest.contains(x));
                assert(tail.contains(x) || x == k);
                if x == k {
                    text_le_total(k, keys[0]);
                } else {
                    let m = choose|m: int| 0 <= m < tail.len() && tail[m] == x;
                    assert(keys[m + 1] == x);
                }
            } else {
                assert(r[i] == rest[i - 1]);
            }
        }
        assert forall|x: Seq<char>| r.contains(x) <==> (#[trigger] keys.contains(x) || x == k) by {
            if keys.contains(x) {
                let i = choose|i: int| 0 <= i < keys.len() && keys[i] == x;
                if i == 0 {
                    assert(r[0] == x);
                } else {
                    assert(tail[i - 1] == x);
                    assert(tail.contains(x));
                    assert(rest.contains(x));
                    let m = choose|m: int| 0 <= m < rest.len() && rest[m] == x;
                    assert(r[m + 1] == x);
                }
            }
            if x == k {
                let in_tail = tail.contains(x);
                assert(rest.contains(x));
                let m = choose|m: int| 0 <= m < rest.len() && rest[m] == x;
                assert(r[m + 1] == x);
            }
            if r.contains(x) && x != k {
                let i = choose|i: int| 0 <= i < r.len() && r[i] == x;
                if i == 0 {
                    assert(keys[0] == x);
                } else {
                    assert(rest[i - 1] == x);
                    assert(tail.contains(x));
                    let m = choose|m: int| 0 <= m < tail.len() && tail[m] == x;
                    assert(keys[m + 1] == x);
                }
            }
        }
    }
}

/// Sorting keys keeps exactly the texts that were given, each once, in ascending order.
pub proof fn sorted_keys_sound(keys: Seq<Seq<char>>)
    ensures
        strictly_ascending(sorted_keys(keys)),
        forall|x: Seq<char>| sorted_keys(keys).contains(x) <==> #[trigger] keys.contains(x),
    decreases keys.len(),
{
    if keys.len() > 0 {
        let head = keys.drop_last();
        sorted_keys_sound(head);
        insert_key_sound(sorted_keys(head), keys.last());
        assert forall|x: Seq<char>|
            sorted_keys(keys).contains(x) <==> #[trigger] keys.contains(x) by {
            assert(sorted_keys(head).contains(x) <==> head.contains(x));
            if keys.contains(x) {
                let i = choose|i: int| 0 <= i < keys.len() && keys[i] == x;
                if i < keys.len() - 1 {
                    assert(head[i] == x);
                }
            }
            if head.contains(x) {
                let i = choose|i: int| 0 <= i < head.len() && head[i] == x;
                assert(keys[i] == x);
            }
            if x == keys.last() {
                assert(keys[keys.len() - 1] == x);
            }
        }
    }
}

// ── What the functions above undo ───────────────────────────────────────────────────────

/// `lines`, each ended by a line feed.
pub open spec fn written(lines: Seq<Seq<char>>) -> Seq<char>
    decreases lines.len(),
{
    if lines.len() == 0 {
        Seq::empty()
    } else {
        lines[0] + seq!['\n'] + written(lines.drop_first())
    }
}

/// A text that can stand on one line.
pub open spec fn is_line(s: Seq<char>) -> bool {
    !s.contains('\n') && !s.contains('\r')
}

proof fn first_of(a: Seq<char>, c: char, b: Seq<char>)
    requires
        !a.contains(c),
    ensures
        index_of(a + seq![c] + b, c) == a.len(),
        (a + seq![c] + b).take(a.len() as int) == a,
        (a + seq![c] + b).skip(a.len() as int + 1) == b,
{
    let s = a + seq![c] + b;
    assert forall|j: int| 0 <= j < a.len() implies s[j] != c by {
        assert(s[j] == a[j]);
        assert(a.contains(a[j]));
    }
    index_of_is(s, c, a.len() as int);
    assert(s.take(a.len() as int) =~= a);
    assert(s.skip(a.len() as int + 1) =~= b);
}

/// Lines that were written one below the other are read as they were written.
pub proof fn lines_read_back(ls: Seq<Seq<char>>)
    requires
        forall|i: int| 0 <= i < ls.len() ==> is_line(#[trigger] ls[i]),
    ensures
        lines(written(ls)) == ls,
    decreases ls.len(),
{
    if ls.len() > 0 {
        let rest = ls.drop_first();
        assert forall|i: int| 0 <= i < rest.len() implies is_line(#[trigger] rest[i]) by {
            assert(rest[i] == ls[i + 1]);
        }
        lines_read_back(rest);
        assert(is_line(ls[0]));
        first_of(ls[0], '\n', written(rest));
        assert(strip_cr(ls[0]) == ls[0]) by {
            if ls[0].len() > 0 && ls[0].last() == '\r' {
                assert(ls[0].contains(ls[0].last()));
            }
        }
        assert(seq![ls[0]] + rest =~= ls);
    } else {
        assert(written(ls) =~= Seq::empty());
        assert(lines(written(ls)) =~= ls);
    }
}

/// A text that is written of `a` and then of `b` is the one that is written of both.
pub proof fn written_concat(a: Seq<Seq<char>>, b: Seq<Seq<char>>)
    ensures
        written(a + b) == written(a) + written(b),
    decreases a.len(),
{
    if a.len() == 0 {
        assert(a + b =~= b);
        assert(written(a) + written(b) =~= written(b));
    } else {
        written_concat(a.drop_first(), b);
        assert((a + b).drop_first() =~= a.drop_first() + b);
        assert(written(a + b) =~= written(a) + written(b));
    }
}

/// A written text holds only characters of its lines, and line feeds.
pub proof fn written_holds(ls: Seq<Seq<char>>, c: char)
    requires
        c != '\n',
        forall|i: int| 0 <= i < ls.len() ==> !(#[trigger] ls[i]).contains(c),
    ensures
        !written(ls).contains(c),
    decreases ls.len(),
{
    if ls.len() > 0 {
        let rest = ls.drop_first();
        assert forall|i: int| 0 <= i < rest.len() implies !(#[trigger] rest[i]).contains(c) by {
            assert(rest[i] == ls[i + 1]);
        }
        written_holds(rest, c);
        assert(!ls[0].contains(c));
        concat_holds(ls[0], seq!['\n'], c);
        concat_holds(ls[0] + seq!['\n'], written(rest), c);
        assert(!seq!['\n'].contains(c));
    }
}

proof fn join_first(parts: Seq<Seq<char>>, sep: Seq<char>)
    requires
        parts.len() > 1,
    ensures
        join(parts, sep) == parts[0] + sep + join(parts.drop_first(), sep),
    decreases parts.len(),
{
    let head = parts.drop_last();
    let rest = parts.drop_first();
    if parts.len() == 2 {
        assert(join(head, sep) == head[0] && join(rest, sep) == rest[0]);
        assert(join(parts, sep) =~= parts[0] + sep + join(rest, sep));
    } else {
        join_first(head, sep);
        assert(head.drop_first() =~= rest.drop_last());
        assert(rest.last() == parts.last());
        assert(join(parts, sep) =~= parts[0] + sep + join(rest, sep));
    }
}

/// What was joined by a character that stands in no part is split into the parts again.
pub proof fn split_undoes_join(parts: Seq<Seq<char>>, c: char)
    requires
        parts.len() > 0,
        forall|i: int| 0 <= i < parts.len() ==> !(#[trigger] parts[i]).contains(c),
    ensures
        split(join(parts, seq![c]), c) == parts,
    decreases parts.len(),
{
    assert(!parts[0].contains(c));
    if parts.len() == 1 {
        assert forall|j: int| 0 <= j < parts[0].len() implies parts[0][j] != c by {
            assert(parts[0].contains(parts[0][j]));
        }
        index_of_is(parts[0], c, parts[0].len() as int);
        assert(seq![parts[0]] =~= parts);
    } else {
        let rest = parts.drop_first();
        assert forall|i: int| 0 <= i < rest.len() implies !(#[trigger] rest[i]).contains(c) by {
            assert(rest[i] == parts[i + 1]);
        }
        split_undoes_join(rest, c);
        join_first(parts, seq![c]);
        first_of(parts[0], c, join(rest, seq![c]));
        assert(seq![parts[0]] + rest =~= parts);
    }
}

/// Each part stands in the joined text, behind the parts before it and before those after it.
pub proof fn join_parts(parts: Seq<Seq<char>>, sep: Seq<char>, i: int)
    requires
        0 <= i < parts.len(),
    ensures
        join(parts, sep) == (if i > 0 {
            join(parts.take(i), sep) + sep
        } else {
            Seq::empty()
        }) + parts[i] + (if i + 1 < parts.len() {
            sep + join(parts.skip(i + 1), sep)
        } else {
            Seq::empty()
        }),
    decreases parts.len(),
{
    let n = parts.len();
    if i + 1 == n {
        assert(parts.take(i) =~= parts.drop_last());
        if i > 0 {
            assert(join(parts, sep) =~= join(parts.take(i), sep) + sep + parts[i]
                + Seq::<char>::empty());
        } else {
            assert(join(parts, sep) =~= Seq::<char>::empty() + parts[i] + Seq::<char>::empty());
        }
    } else {
        let head = parts.drop_last();
        join_parts(head, sep, i);
        assert(head.take(i) =~= parts.take(i));
        assert(head.skip(i + 1) =~= parts.skip(i + 1).drop_last());
        assert(parts.skip(i + 1).last() == parts.last());
        let front = if i > 0 {
            join(parts.take(i), sep) + sep
        } else {
            Seq::empty()
        };
        if i + 2 == n {
            assert(parts.skip(i + 1)[0] == parts.last());
            assert(join(parts, sep) =~= front + parts[i] + (sep + join(parts.skip(i + 1), sep)));
        } else {
            assert(join(parts, sep) =~= front + parts[i] + (sep + join(parts.skip(i + 1), sep)));
        }
    }
}

/// A number is read back from its decimal form.
pub proof fn decimal_reads_back(n: nat)
    ensures
        decimal(n).len() > 0,
        all_digits(decimal(n)),
        digits_value(decimal(n)) == n,
    decreases n,
{
    let s = decimal(n);
    if n < 10 {
        assert(s.drop_last() =~= Seq::empty());
        assert(digits_value(s.drop_last()) == 0);
    } else {
        decimal_reads_back(n / 10);
        assert(s.drop_last() =~= decimal(n / 10));
    }
}

/// What begins and ends in a character that is not white is its own trimmed form, and white
/// space around it is trimmed away.
pub proof fn trim_takes_white_ends(before: Seq<char>, s: Seq<char>, after: Seq<char>)
    requires
        s.len() > 0 ==> !is_white(s[0]) && !is_white(s.last()),
        forall|i: int| 0 <= i < before.len() ==> is_white(#[trigger] before[i]),
        forall|i: int| 0 <= i < after.len() ==> is_white(#[trigger] after[i]),
    ensures
        trim(before + s + after) == s,
    decreases before.len(),
{
    let t = before + s + after;
    if before.len() > 0 {
        assert(t[0] == before[0]);
        assert(t.drop_first() =~= before.drop_first() + s + after);
        assert forall|i: int| 0 <= i < before.drop_first().len() implies is_white(
            #[trigger] before.drop_first()[i],
        ) by {
            assert(before.drop_first()[i] == before[i + 1]);
        }
        trim_takes_white_ends(before.drop_first(), s, after);
    } else if s.len() > 0 {
        assert(t[0] == s[0]);
        assert(t =~= s + after);
        trim_end_takes(s, after);
    } else {
        assert(t =~= after);
        trim_start_takes(after);
        assert(s =~= Seq::empty());
    }
}

proof fn trim_end_takes(s: Seq<char>, after: Seq<char>)
    requires
        s.len() > 0 ==> !is_white(s.last()),
        forall|i: int| 0 <= i < after.len() ==> is_white(#[trigger] after[i]),
    ensures
        trim_end(s + after) == s,
    decreases after.len(),
{
    let t = s + after;
    if after.len() == 0 {
        assert(t =~= s);
    } else {
        assert(t.last() == after[after.len() - 1]);
        assert(t.drop_last() =~= s + after.drop_last());
        assert forall|i: int| 0 <= i < after.drop_last().len() implies is_white(
            #[trigger] after.drop_last()[i],
        ) by {
            assert(after.drop_last()[i] == after[i]);
        }
        trim_end_takes(s, after.drop_last());
    }
}

proof fn trim_start_takes(s: Seq<char>)
    requires
        forall|i: int| 0 <= i < s.len() ==> is_white(#[trigger] s[i]),
    ensures
        trim_start(s) == Seq::<char>::empty(),
    decreases s.len(),
{
    if s.len() > 0 {
        assert(is_white(s[0]));
        assert forall|i: int| 0 <= i < s.drop_first().len() implies is_white(
            #[trigger] s.drop_first()[i],
        ) by {
            assert(s.drop_first()[i] == s[i + 1]);
        }
        trim_start_takes(s.drop_first());
    } else {
        assert(s =~= Seq::empty());
    }
}

proof fn white_index_is(s: Seq<char>, k: int)
    requires
        0 <= k <= s.len(),
        k < s.len() ==> is_white(s[k]),
        forall|j: int| 0 <= j < k ==> !is_white(#[trigger] s[j]),
    ensures
        white_index(s) == k,
    decreases s.len(),
{
    if k > 0 {
        assert(!is_white(s[0]));
        let t = s.drop_first();
        assert forall|j: int| 0 <= j < k - 1 implies !is_white(#[trigger] t[j]) by {
            assert(t[j] == s[j + 1]);
        }
        white_index_is(t, k - 1);
    }
}

/// A text that is one word.
pub open spec fn is_word(s: Seq<char>) -> bool {
    s.len() > 0 && forall|i: int| 0 <= i < s.len() ==> !is_white(#[trigger] s[i])
}

/// What was joined of words by single spaces holds these words.
pub proof fn words_undo_join(ws: Seq<Seq<char>>)
    requires
        forall|i: int| 0 <= i < ws.len() ==> is_word(#[trigger] ws[i]),
    ensures
        words(join(ws, seq![' '])) == ws,
    decreases ws.len(),
{
    if ws.len() == 0 {
        assert(words(Seq::<char>::empty()) =~= ws);
    } else {
        let w = ws[0];
        let rest = ws.drop_first();
        assert(is_word(w));
        assert forall|i: int| 0 <= i < rest.len() implies is_word(#[trigger] rest[i]) by {
            assert(rest[i] == ws[i + 1]);
        }
        words_undo_join(rest);
        let s = join(ws, seq![' ']);
        if ws.len() == 1 {
            white_index_is(w, w.len() as int);
            assert(!is_white(w[0]));
            assert(w.take(w.len() as int) =~= w);
            assert(w.skip(w.len() as int) =~= Seq::empty());
            assert(words(Seq::<char>::empty()) =~= Seq::empty());
            assert(seq![w] + Seq::<Seq<char>>::empty() =~= ws);
        } else {
            join_first(ws, seq![' ']);
            let t = join(rest, seq![' ']);
            assert(s =~= w + seq![' '] + t);
            assert(s[0] == w[0]);
            assert(!is_white(w[0]));
            assert forall|j: int| 0 <= j < w.len() implies !is_white(#[trigger] s[j]) by {
                assert(s[j] == w[j]);
            }
            white_index_is(s, w.len() as int);
            assert(s.take(w.len() as int) =~= w);
            let u = s.skip(w.len() as int);
            assert(u =~= seq![' '] + t);
            assert(u.drop_first() =~= t);
            assert(trim_start(u) == trim_start(t));
            assert(words(u) == words(t));
            assert(seq![w] + rest =~= ws);
        }
    }
}

/// The words of a text are words.
pub proof fn words_are_words(s: Seq<char>)
    ensures
        forall|i: int| 0 <= i < words(s).len() ==> is_word(#[trigger] words(s)[i]),
    decreases s.len(),
{
    words_hold_no_white(s);
    words_are_not_empty(s);
    assert forall|i: int| 0 <= i < words(s).len() implies is_word(#[trigger] words(s)[i]) by {
        assert forall|j: int| 0 <= j < words(s)[i].len() implies !is_white(
            #[trigger] words(s)[i][j],
        ) by {}
    }
}

proof fn words_are_not_empty(s: Seq<char>)
    ensures
        forall|i: int| 0 <= i < words(s).len() ==> (#[trigger] words(s)[i]).len() > 0,
    decreases s.len(),
{
    let t = trim_start(s);
    let k = white_index(t);
    trim_start_len(s);
    white_index_bounds(t);
    if t.len() > 0 {
        words_are_not_empty(t.skip(k));
        assert forall|i: int| 0 <= i < words(s).len() implies (#[trigger] words(s)[i]).len() > 0 by {
            if i > 0 {
                assert(words(s)[i] == words(t.skip(k))[i - 1]);
            }
        }
    }
}

/// Of two parts of a joined text the earlier stands before the later.
pub proof fn join_in_order(parts: Seq<Seq<char>>, sep: Seq<char>, i: int, j: int) -> (around: (
    Seq<char>,
    Seq<char>,
    Seq<char>,
))
    requires
        0 <= i < j < parts.len(),
    ensures
        join(parts, sep) == around.0 + parts[i] + around.1 + parts[j] + around.2,
{
    let before = parts.take(j);
    join_parts(parts, sep, j);
    join_parts(before, sep, i);
    assert(before[i] == parts[i]);
    let a = if i > 0 {
        join(before.take(i), sep) + sep
    } else {
        Seq::empty()
    };
    let b = if i + 1 < before.len() {
        sep + join(before.skip(i + 1), sep)
    } else {
        Seq::empty()
    };
    let c = if j + 1 < parts.len() {
        sep + join(parts.skip(j + 1), sep)
    } else {
        Seq::empty()
    };
    let p = parts[i];
    let q = parts[j];
    assert(join(parts, sep) == a + p + b + sep + q + c);
    assert(a + p + b + sep + q + c =~= a + p + (b + sep) + q + c);
    (a, b + sep, c)
}

/// A text is split at each separator: what stands before one is split by itself, and what
/// stands behind it too.
pub proof fn split_at_separator(a: Seq<char>, c: char, b: Seq<char>)
    ensures
        split(a + seq![c] + b, c) == split(a, c) + split(b, c),
    decreases a.len(),
{
    let s = a + seq![c] + b;
    let i = index_of(a, c);
    index_of_bounds(a, c);
    if i < a.len() {
        let rest = a.skip(i + 1);
        split_at_separator(rest, c, b);
        assert(s[i] == a[i]);
        assert forall|j: int| 0 <= j < i implies s[j] != c by {
            assert(s[j] == a[j]);
        }
        index_of_is(s, c, i);
        assert(s.take(i) =~= a.take(i));
        assert(s.skip(i + 1) =~= rest + seq![c] + b);
        assert(seq![a.take(i)] + (split(rest, c) + split(b, c)) =~= (seq![a.take(i)] + split(
            rest,
            c,
        )) + split(b, c));
    } else {
        assert(!a.contains(c)) by {
            if a.contains(c) {
                let j = choose|j: int| 0 <= j < a.len() && a[j] == c;
                assert(j < i);
            }
        }
        first_of(a, c, b);
    }
}

/// `s` stands at the beginning of what follows it, and `t` at the end of what it follows.
pub proof fn ends_of_concat(s: Seq<char>, t: Seq<char>)
    ensures
        starts_with(s + t, s),
        ends_with(s + t, t),
        (s + t).skip(s.len() as int) == t,
        (s + t).take(s.len() as int) == s,
{
    assert((s + t).take(s.len() as int) =~= s);
    assert((s + t).skip(s.len() as int) =~= t);
}

} // verus!
