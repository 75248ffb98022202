//! Operations on strings, character by character.
use crate::seqs;
use vstd::prelude::*;

verus! {

/// `String::push` appends the given character to the end of the string.
pub assume_specification[ String::push ](s: &mut String, c: char)
    ensures
        final(s)@ == old(s)@.push(c),
;

/// `std::str::from_utf8` accepts exactly the valid UTF-8 sequences, and hands out the text
/// that they encode.
#[verifier::external_body]
pub(crate) fn utf8_text(bytes: &[u8]) -> (r: Option<String>)
    ensures
        r is Some <==> vstd::utf8::valid_utf8(bytes@),
        r matches Some(s) ==> s@ == vstd::utf8::decode_utf8(bytes@),
{
    match std::str::from_utf8(bytes) {
        Ok(s) => Some(s.to_owned()),
        Err(_) => None,
    }
}

/// The characters of `s`.
pub fn chars_of(s: &str) -> (r: Vec<char>)
    ensures
        r@ == s@,
{
    let mut out: Vec<char> = Vec::new();
    for c in it: s.chars()
        invariant
            out@ == s@.take(it.index()),
            it.seq() == s@,
    {
        out.push(c);
    }
    out
}

/// The string of the characters `i` to `j` of `cs`.
pub fn string_of(cs: &[char], i: usize, j: usize) -> (r: String)
    requires
        i <= j <= cs@.len(),
    ensures
        r@ == cs@.subrange(i as int, j as int),
{
    let mut out = String::new();
    let mut k: usize = i;
    while k < j
        invariant
            i <= k <= j <= cs@.len(),
            out@ == cs@.subrange(i as int, k as int),
        decreases j - k,
    {
        out.push(cs[k]);
        k += 1;
    }
    out
}

/// Whether two strings hold the same text.
pub fn same(a: &str, b: &str) -> (r: bool)
    ensures
        r == (a@ == b@),
{
    let x = a.as_bytes();
    let y = b.as_bytes();
    if x.len() != y.len() {
        return false;
    }
    let mut i: usize = 0;
    while i < x.len()
        invariant
            i <= x@.len(),
            x@.len() == y@.len(),
            x@ == vstd::utf8::encode_utf8(a@),
            y@ == vstd::utf8::encode_utf8(b@),
            forall|j: int| 0 <= j < i ==> x@[j] == y@[j],
        decreases x@.len() - i,
    {
        if x[i] != y[i] {
            return false;
        }
        i += 1;
    }
    proof {
        assert(x@ =~= y@);
        vstd::utf8::encode_utf8_decode_utf8(a@);
        vstd::utf8::encode_utf8_decode_utf8(b@);
    }
    true
}

/// The bytes that `s` takes in UTF-8.
pub fn byte_len(s: &str) -> (r: usize)
    ensures
        r == seqs::byte_len(s@),
{
    s.as_bytes().len()
}

/// Whether `c` is white space.
pub fn is_white(c: char) -> (r: bool)
    ensures
        r == seqs::is_white(c),
{
    (c >= '\u{9}' && c <= '\u{d}') || c == ' ' || c == '\u{85}' || c == '\u{a0}' || c
        == '\u{1680}' || (c >= '\u{2000}' && c <= '\u{200a}') || c == '\u{2028}' || c
        == '\u{2029}' || c == '\u{202f}' || c == '\u{205f}' || c == '\u{3000}'
}

/// Whether `c` is an ASCII digit.
pub fn is_digit(c: char) -> (r: bool)
    ensures
        r == seqs::is_digit(c),
{
    c >= '0' && c <= '9'
}

/// Whether `c` is an ASCII letter or digit.
pub fn is_ascii_alnum(c: char) -> (r: bool)
    ensures
        r == seqs::is_ascii_alnum(c),
{
    is_digit(c) || (c >= 'a' && c <= 'z') || (c >= 'A' && c <= 'Z')
}

/// Whether `p` stands in `s` at position `i`.
pub fn occurs_at(s: &[char], p: &[char], i: usize) -> (r: bool)
    requires
        i <= s@.len(),
    ensures
        r == seqs::occurs_at(s@, p@, i as int),
{
    let n: usize = s.len();
    if p.len() > n - i {
        return false;
    }
    let mut k: usize = 0;
    while k < p.len()
        invariant
            k <= p@.len(),
            n == s@.len(),
            i + p@.len() <= n,
            forall|j: int| 0 <= j < k ==> s@[i + j] == p@[j],
        decreases p@.len() - k,
    {
        if s[i + k] != p[k] {
            assert(s@.subrange(i as int, i + p@.len())[k as int] != p@[k as int]);
            return false;
        }
        k += 1;
    }
    assert(s@.subrange(i as int, i + p@.len()) =~= p@);
    true
}

/// The first position at or after `i` where `p` stands in `s`.
pub fn find_chars(s: &[char], p: &[char], i: usize) -> (r: Option<usize>)
    requires
        i <= s@.len(),
    ensures
        (match r {
            Some(k) => seqs::find_from(s@, p@, i as int) == Some(k as int),
            None => seqs::find_from(s@, p@, i as int) is None,
        }),
{
    let mut k: usize = i;
    while p.len() <= s.len() - k
        invariant
            i <= k <= s@.len(),
            seqs::find_from(s@, p@, i as int) == seqs::find_from(s@, p@, k as int),
        decreases s@.len() + 1 - k,
    {
        if occurs_at(s, p, k) {
            return Some(k);
        }
        if k == s.len() {
            assert(s@.subrange(k as int, k as int) =~= p@);
            return None;
        }
        k += 1;
    }
    None
}

/// The position, counted in characters, where `p` first stands in `s`.
pub fn find(s: &str, p: &str) -> (r: Option<usize>)
    ensures
        (match r {
            Some(k) => seqs::find_from(s@, p@, 0) == Some(k as int),
            None => seqs::find_from(s@, p@, 0) is None,
        }),
{
    find_chars(&chars_of(s), &chars_of(p), 0)
}

/// Whether `p` stands somewhere in `s`.
pub fn has_text(s: &str, p: &str) -> (r: bool)
    ensures
        r == seqs::has_text(s@, p@),
{
    let r = find(s, p);
    proof {
        seqs::find_from_meaning(s@, p@, 0);
    }
    r.is_some()
}

/// Whether `s` begins with `p`.
pub fn starts_with(s: &str, p: &str) -> (r: bool)
    ensures
        r == seqs::starts_with(s@, p@),
{
    let cs = chars_of(s);
    let ps = chars_of(p);
    assert(p@.len() <= s@.len() ==> s@.take(p@.len() as int) == s@.subrange(0, p@.len() as int));
    occurs_at(&cs, &ps, 0)
}

/// Whether `s` ends with `p`.
pub fn ends_with(s: &str, p: &str) -> (r: bool)
    ensures
        r == seqs::ends_with(s@, p@),
{
    let cs = chars_of(s);
    let ps = chars_of(p);
    if ps.len() > cs.len() {
        return false;
    }
    let i: usize = cs.len() - ps.len();
    assert(s@.skip(i as int) =~= s@.subrange(i as int, i + p@.len()));
    occurs_at(&cs, &ps, i)
}

/// What follows `p` in `s`, where `s` begins with it.
pub fn strip_prefix(s: &str, p: &str) -> (r: Option<String>)
    ensures
        seqs::opt_view(r) == seqs::strip_prefix(s@, p@),
{
    let cs = chars_of(s);
    let ps = chars_of(p);
    assert(p@.len() <= s@.len() ==> s@.take(p@.len() as int) == s@.subrange(0, p@.len() as int));
    if occurs_at(&cs, &ps, 0) {
        let rest = string_of(&cs, ps.len(), cs.len());
        assert(rest@ =~= s@.skip(p@.len() as int));
        Some(rest)
    } else {
        None
    }
}

/// What precedes `p` in `s`, where `s` ends with it.
pub fn strip_suffix(s: &str, p: &str) -> (r: Option<String>)
    ensures
        seqs::opt_view(r) == seqs::strip_suffix(s@, p@),
{
    let cs = chars_of(s);
    let ps = chars_of(p);
    if ps.len() > cs.len() {
        return None;
    }
    let i: usize = cs.len() - ps.len();
    assert(s@.skip(i as int) =~= s@.subrange(i as int, i + p@.len()));
    if occurs_at(&cs, &ps, i) {
        let head = string_of(&cs, 0, i);
        assert(head@ =~= s@.take(s@.len() - p@.len()));
        Some(head)
    } else {
        None
    }
}

/// The string of the characters of `s` from position `i` on.
pub fn skip(s: &str, i: usize) -> (r: String)
    requires
        i <= s@.len(),
    ensures
        r@ == s@.skip(i as int),
{
    let cs = chars_of(s);
    let r = string_of(&cs, i, cs.len());
    assert(r@ =~= s@.skip(i as int));
    r
}

/// `s` without the white space that it begins with.
pub fn trim_start(s: &str) -> (r: String)
    ensures
        r@ == seqs::trim_start(s@),
{
    let cs = chars_of(s);
    let mut i: usize = 0;
    assert(s@.skip(0) =~= s@);
    while i < cs.len() && is_white(cs[i])
        invariant
            i <= cs@.len(),
            cs@ == s@,
            seqs::trim_start(s@) == seqs::trim_start(s@.skip(i as int)),
        decreases cs@.len() - i,
    {
        assert(s@.skip(i as int).drop_first() =~= s@.skip(i + 1));
        i += 1;
    }
    let r = string_of(&cs, i, cs.len());
    assert(r@ =~= s@.skip(i as int));
    r
}

/// `s` without the white space that it ends with.
pub fn trim_end(s: &str) -> (r: String)
    ensures
        r@ == seqs::trim_end(s@),
{
    let cs = chars_of(s);
    let mut j: usize = cs.len();
    assert(s@.take(s@.len() as int) =~= s@);
    while j > 0 && is_white(cs[j - 1])
        invariant
            j <= cs@.len(),
            cs@ == s@,
            seqs::trim_end(s@) == seqs::trim_end(s@.take(j as int)),
        decreases j,
    {
        assert(s@.take(j as int).drop_last() =~= s@.take(j - 1));
        j -= 1;
    }
    let r = string_of(&cs, 0, j);
    assert(r@ =~= s@.take(j as int));
    r
}

/// `s` without the white space at its two ends.
pub fn trim(s: &str) -> (r: String)
    ensures
        r@ == seqs::trim(s@),
{
    trim_end(&trim_start(s))
}

/// The position of the first `c` in `cs` at or after `i`, or the length of `cs`.
pub fn index_from(cs: &[char], c: char, i: usize) -> (r: usize)
    requires
        i <= cs@.len(),
    ensures
        i <= r <= cs@.len(),
        r - i == seqs::index_of(cs@.skip(i as int), c),
{
    let mut k: usize = i;
    while k < cs.len() && cs[k] != c
        invariant
            i <= k <= cs@.len(),
            forall|j: int| i <= j < k ==> cs@[j] != c,
        decreases cs@.len() - k,
    {
        k += 1;
    }
    proof {
        seqs::index_of_is(cs@.skip(i as int), c, k - i);
    }
    k
}

/// The pieces of `s` between the occurrences of `c`.
pub fn split(s: &str, c: char) -> (r: Vec<String>)
    ensures
        seqs::views(r@) == seqs::split(s@, c),
{
    let cs = chars_of(s);
    let mut out: Vec<String> = Vec::new();
    let mut pos: usize = 0;
    assert(s@.skip(0) =~= s@);
    assert(seqs::views(out@) + seqs::split(s@, c) =~= seqs::split(s@, c));
    loop
        invariant_except_break
            pos <= cs@.len(),
            cs@ == s@,
            seqs::split(s@, c) == seqs::views(out@) + seqs::split(s@.skip(pos as int), c),
        ensures
            seqs::split(s@, c) == seqs::views(out@),
        decreases cs@.len() + 1 - pos,
    {
        let i = index_from(&cs, c, pos);
        let piece = string_of(&cs, pos, i);
        let ghost before = out@;
        let ghost rest = s@.skip(pos as int);
        out.push(piece);
        proof {
            assert(seqs::views(out@) =~= seqs::views(before).push(piece@));
            assert(piece@ =~= rest.take(i - pos));
        }
        if i == cs.len() {
            proof {
                assert(piece@ =~= rest);
                assert(seqs::views(before) + seq![rest] =~= seqs::views(out@));
            }
            break;
        }
        proof {
            assert(rest.skip(i - pos + 1) =~= s@.skip(i + 1));
            assert(seqs::views(before) + (seq![piece@] + seqs::split(s@.skip(i + 1), c))
                =~= seqs::views(out@) + seqs::split(s@.skip(i + 1), c));
        }
        pos = i + 1;
    }
    out
}

/// The lines of `s`.
pub fn lines(s: &str) -> (r: Vec<String>)
    ensures
        seqs::views(r@) == seqs::lines(s@),
{
    let cs = chars_of(s);
    let mut out: Vec<String> = Vec::new();
    let mut pos: usize = 0;
    assert(s@.skip(0) =~= s@);
    assert(seqs::views(out@) + seqs::lines(s@) =~= seqs::lines(s@));
    while pos < cs.len()
        invariant
            pos <= cs@.len(),
            cs@ == s@,
            seqs::lines(s@) == seqs::views(out@) + seqs::lines(s@.skip(pos as int)),
        decreases cs@.len() - pos,
    {
        let i = index_from(&cs, '\n', pos);
        let ghost before = out@;
        let ghost rest = s@.skip(pos as int);
        if i == cs.len() {
            let piece = string_of(&cs, pos, i);
            out.push(piece);
            proof {
                assert(piece@ =~= rest);
                assert(seqs::views(out@) =~= seqs::views(before) + seq![rest]);
                assert(s@.skip(i as int) =~= Seq::<char>::empty());
                assert(seqs::views(out@) + seqs::lines(s@.skip(i as int)) =~= seqs::views(out@));
            }
            pos = i;
        } else {
            let mut end: usize = i;
            if i > pos && cs[i - 1] == '\r' {
                end = i - 1;
            }
            let piece = string_of(&cs, pos, end);
            out.push(piece);
            proof {
                assert(piece@ =~= seqs::strip_cr(rest.take(i - pos)));
                assert(seqs::views(out@) =~= seqs::views(before).push(piece@));
                assert(rest.skip(i - pos + 1) =~= s@.skip(i + 1));
                assert(seqs::views(before) + (seq![piece@] + seqs::lines(s@.skip(i + 1)))
                    =~= seqs::views(out@) + seqs::lines(s@.skip(i + 1)));
            }
            pos = i + 1;
        }
    }
    proof {
        assert(s@.skip(pos as int) =~= Seq::<char>::empty());
        assert(seqs::views(out@) + Seq::<Seq<char>>::empty() =~= seqs::views(out@));
    }
    out
}

/// The runs of `s` that hold no white space.
pub fn words(s: &str) -> (r: Vec<String>)
    ensures
        seqs::views(r@) == seqs::words(s@),
{
    let cs = chars_of(s);
    let mut out: Vec<String> = Vec::new();
    let mut pos: usize = 0;
    assert(s@.skip(0) =~= s@);
    assert(seqs::views(out@) + seqs::words(s@) =~= seqs::words(s@));
    loop
        invariant_except_break
            pos <= cs@.len(),
            cs@ == s@,
            seqs::words(s@) == seqs::views(out@) + seqs::words(s@.skip(pos as int)),
        ensures
            seqs::words(s@) == seqs::views(out@),
        decreases cs@.len() - pos,
    {
        let ghost start = pos;
        let mut i: usize = pos;
        while i < cs.len() && is_white(cs[i])
            invariant
                start <= i <= cs@.len(),
                cs@ == s@,
                seqs::trim_start(s@.skip(start as int)) == seqs::trim_start(s@.skip(i as int)),
            decreases cs@.len() - i,
        {
            assert(s@.skip(i as int).drop_first() =~= s@.skip(i + 1));
            i += 1;
        }
        let ghost t = s@.skip(i as int);
        assert(seqs::trim_start(s@.skip(start as int)) == t);
        if i == cs.len() {
            assert(seqs::views(out@) + Seq::<Seq<char>>::empty() =~= seqs::views(out@));
            break;
        }
        let mut k: usize = i;
        while k < cs.len() && !is_white(cs[k])
            invariant
                i <= k <= cs@.len(),
                cs@ == s@,
                seqs::white_index(s@.skip(i as int)) == k - i + seqs::white_index(s@.skip(k as int)),
            decreases cs@.len() - k,
        {
            assert(s@.skip(k as int).drop_first() =~= s@.skip(k + 1));
            k += 1;
        }
        let piece = string_of(&cs, i, k);
        let ghost before = out@;
        out.push(piece);
        proof {
            assert(piece@ =~= t.take(k - i));
            assert(t.skip(k - i) =~= s@.skip(k as int));
            assert(seqs::views(out@) =~= seqs::views(before).push(piece@));
            assert(seqs::views(before) + (seq![piece@] + seqs::words(s@.skip(k as int)))
                =~= seqs::views(out@) + seqs::words(s@.skip(k as int)));
        }
        pos = k;
    }
    out
}

/// The texts of `parts` with `sep` between each two.
pub fn join(parts: &[String], sep: &str) -> (r: String)
    ensures
        r@ == seqs::join(seqs::views(parts@), sep@),
{
    let mut out = String::new();
    let mut i: usize = 0;
    let ghost all = seqs::views(parts@);
    assert(all.take(0) =~= Seq::<Seq<char>>::empty());
    while i < parts.len()
        invariant
            i <= parts@.len(),
            all == seqs::views(parts@),
            out@ == seqs::join(all.take(i as int), sep@),
        decreases parts@.len() - i,
    {
        if i > 0 {
            out.append(sep);
        }
        out.append(parts[i].as_str());
        proof {
            assert(all.take(i + 1).drop_last() =~= all.take(i as int));
            if i == 0 {
                assert(out@ =~= all.take(1)[0]);
            }
        }
        i += 1;
    }
    assert(all.take(parts@.len() as int) =~= all);
    out
}

fn lower_char(c: char) -> (r: char)
    ensures
        r == seqs::lower_char(c),
{
    if c >= 'A' && c <= 'Z' {
        let b: u8 = c as u8 + 32;
        b as char
    } else {
        c
    }
}

/// `s` with its ASCII capitals made small.
pub fn ascii_lower(s: &str) -> (r: String)
    ensures
        r@ == seqs::ascii_lower(s@),
{
    let cs = chars_of(s);
    let mut out = String::new();
    let mut i: usize = 0;
    while i < cs.len()
        invariant
            i <= cs@.len(),
            cs@ == s@,
            out@ == seqs::ascii_lower(s@).take(i as int),
        decreases cs@.len() - i,
    {
        out.push(lower_char(cs[i]));
        assert(seqs::ascii_lower(s@).take(i + 1) =~= seqs::ascii_lower(s@).take(i as int).push(
            seqs::lower_char(cs@[i as int]),
        ));
        i += 1;
    }
    assert(seqs::ascii_lower(s@).take(s@.len() as int) =~= seqs::ascii_lower(s@));
    out
}

/// The digit of `d`.
fn digit_char(d: u64) -> (r: char)
    requires
        d < 10,
    ensures
        r == seqs::digit_char(d as nat),
{
    let b: u8 = 48u8 + d as u8;
    b as char
}

/// `n` in decimal.
pub fn decimal(n: u64) -> (r: String)
    ensures
        r@ == seqs::decimal(n as nat),
    decreases n,
{
    let mut out = if n < 10 {
        String::new()
    } else {
        decimal(n / 10)
    };
    out.push(digit_char(n % 10));
    assert(n < 10 ==> out@ =~= seq![seqs::digit_char(n as nat)]);
    out
}

/// `n` in decimal, with a minus sign where it is negative.
pub fn signed_decimal(n: i64) -> (r: String)
    ensures
        r@ == seqs::signed_decimal(n as int),
{
    if n >= 0 {
        return decimal(n as u64);
    }
    let size: u64 = if n == i64::MIN {
        0x8000_0000_0000_0000
    } else {
        (-n) as u64
    };
    let mut out = String::new();
    out.push('-');
    out.append(decimal(size).as_str());
    assert(out@ =~= seq!['-'] + seqs::decimal((-n) as nat));
    out
}

/// The unsigned number that `s` writes, where it is at most `max`.
pub fn parse_uint(s: &str, max: u64) -> (r: Option<u64>)
    ensures
        (match r {
            Some(n) => seqs::parse_uint(s@, max as nat) == Some(n as nat),
            None => seqs::parse_uint(s@, max as nat) is None,
        }),
{
    let cs = chars_of(s);
    let mut i: usize = 0;
    if cs.len() > 0 && cs[0] == '+' {
        i = 1;
    }
    let ghost t = if s@.len() > 0 && s@[0] == '+' {
        s@.skip(1)
    } else {
        s@
    };
    let ghost from = i as int;
    assert(t =~= s@.skip(from));
    if i == cs.len() {
        return None;
    }
    let mut value: u64 = 0;
    while i < cs.len()
        invariant
            0 <= from <= i <= cs@.len(),
            cs@ == s@,
            t == s@.skip(from),
            t == (if s@.len() > 0 && s@[0] == '+' {
                s@.skip(1)
            } else {
                s@
            }),
            seqs::all_digits(t.take(i - from)),
            value == seqs::digits_value(t.take(i - from)),
            value <= max,
        decreases cs@.len() - i,
    {
        let c = cs[i];
        assert(t[i - from] == c);
        if !is_digit(c) {
            return None;
        }
        let d: u64 = (c as u32 - 48) as u64;
        let ghost head = t.take(i - from + 1);
        proof {
            assert(head.drop_last() =~= t.take(i - from));
            assert(head.last() == c);
            seqs::digits_value_prefix(t, i - from + 1);
        }
        if value > max / 10 {
            assert(seqs::digits_value(head) > max);
            return None;
        }
        let next: u64 = value * 10;
        if d > max - next {
            assert(seqs::digits_value(head) > max);
            return None;
        }
        value = next + d;
        i += 1;
    }
    assert(t.take(i - from) =~= t);
    Some(value)
}

/// Whether `a` comes before `b` or is equal to it.
pub fn text_le(a: &str, b: &str) -> (r: bool)
    ensures
        r == seqs::text_le(a@, b@),
{
    let x = chars_of(a);
    let y = chars_of(b);
    let mut i: usize = 0;
    assert(a@.skip(0) =~= a@);
    assert(b@.skip(0) =~= b@);
    while i < x.len()
        invariant
            x@ == a@,
            y@ == b@,
            i <= x@.len(),
            i <= y@.len(),
            seqs::text_le(a@, b@) == seqs::text_le(a@.skip(i as int), b@.skip(i as int)),
        decreases x@.len() - i,
    {
        if i >= y.len() {
            return false;
        }
        if x[i] != y[i] {
            return x[i] < y[i];
        }
        assert(a@.skip(i as int).drop_first() =~= a@.skip(i + 1));
        assert(b@.skip(i as int).drop_first() =~= b@.skip(i + 1));
        i += 1;
    }
    true
}

/// One past the position of the last `c` in `cs`, or 0 where there is none.
pub fn after_last(cs: &[char], c: char) -> (r: usize)
    ensures
        r == seqs::last_index_of(cs@, c) + 1,
{
    let mut k: usize = cs.len();
    assert(cs@.take(cs@.len() as int) =~= cs@);
    while k > 0
        invariant
            k <= cs@.len(),
            seqs::last_index_of(cs@, c) == seqs::last_index_of(cs@.take(k as int), c),
        decreases k,
    {
        assert(cs@.take(k as int).last() == cs@[k - 1]);
        if cs[k - 1] == c {
            return k;
        }
        assert(cs@.take(k as int).drop_last() =~= cs@.take(k - 1));
        k -= 1;
    }
    k
}

fn char_width(c: char) -> (r: usize)
    ensures
        r == seqs::char_width(c),
{
    if '\u{80}' > c {
        1
    } else if '\u{800}' > c {
        2
    } else if '\u{10000}' > c {
        3
    } else {
        4
    }
}

/// The longest beginning of `s` that takes at most `max` bytes.
pub fn byte_prefix(s: &str, max: usize) -> (r: String)
    ensures
        r@ == seqs::byte_prefix(s@, max as nat),
{
    let cs = chars_of(s);
    let mut out = String::new();
    let mut left: usize = max;
    let mut i: usize = 0;
    assert(s@.skip(0) =~= s@);
    assert(out@ + seqs::byte_prefix(s@, max as nat) =~= seqs::byte_prefix(s@, max as nat));
    while i < cs.len() && char_width(cs[i]) <= left
        invariant
            i <= cs@.len(),
            cs@ == s@,
            seqs::byte_prefix(s@, max as nat) == out@ + seqs::byte_prefix(
                s@.skip(i as int),
                left as nat,
            ),
        decreases cs@.len() - i,
    {
        let ghost rest = s@.skip(i as int);
        let ghost before = out@;
        let w: usize = char_width(cs[i]);
        out.push(cs[i]);
        proof {
            assert(rest.drop_first() =~= s@.skip(i + 1));
            assert(before + (seq![rest[0]] + seqs::byte_prefix(
                rest.drop_first(),
                (left - w) as nat,
            )) =~= out@ + seqs::byte_prefix(rest.drop_first(), (left - w) as nat));
        }
        left = left - w;
        i += 1;
    }
    assert(out@ + Seq::<char>::empty() =~= out@);
    out
}

/// Puts `k` into a list in ascending order, unless it is there already.
pub fn insert_key(keys: &mut Vec<String>, k: &str)
    ensures
        seqs::views(final(keys)@) == seqs::insert_key(seqs::views(old(keys)@), k@),
{
    let ghost all = seqs::views(keys@);
    let mut i: usize = 0;
    assert(all.skip(0) =~= all);
    assert(all.take(0) + seqs::insert_key(all, k@) =~= seqs::insert_key(all, k@));
    while i < keys.len()
        invariant
            i <= keys@.len(),
            *keys == *old(keys),
            all == seqs::views(keys@),
            seqs::insert_key(all, k@) == all.take(i as int) + seqs::insert_key(
                all.skip(i as int),
                k@,
            ),
        decreases keys@.len() - i,
    {
        let ghost rest = all.skip(i as int);
        assert(rest[0] == keys@[i as int]@);
        if same(keys[i].as_str(), k) {
            assert(all.take(i as int) + rest =~= all);
            return;
        }
        if text_le(k, keys[i].as_str()) {
            keys.insert(i, k.to_owned());
            assert(seqs::views(keys@) =~= all.take(i as int) + (seq![k@] + rest));
            return;
        }
        proof {
            assert(rest.drop_first() =~= all.skip(i + 1));
            assert(all.take(i as int) + (seq![rest[0]] + seqs::insert_key(all.skip(i + 1), k@))
                =~= all.take(i + 1) + seqs::insert_key(all.skip(i + 1), k@));
        }
        i += 1;
    }
    keys.push(k.to_owned());
    assert(all.take(i as int) =~= all);
    assert(seqs::views(keys@) =~= all + seq![k@]);
}

/// Whether `s` is one of `list`.
pub fn has_string(list: &[String], s: &str) -> (r: bool)
    ensures
        r == seqs::views(list@).contains(s@),
{
    let mut i: usize = 0;
    while i < list.len()
        invariant
            i <= list@.len(),
            forall|j: int| 0 <= j < i ==> list@[j]@ != s@,
        decreases list@.len() - i,
    {
        if same(list[i].as_str(), s) {
            assert(seqs::views(list@)[i as int] == s@);
            return true;
        }
        i += 1;
    }
    assert(forall|j: int| 0 <= j < list@.len() ==> seqs::views(list@)[j] == list@[j]@);
    false
}

/// The texts of `list`, each once, in the order in which they first occur.
pub fn distinct(list: &[String]) -> (r: Vec<String>)
    ensures
        seqs::views(r@) == seqs::distinct(seqs::views(list@)),
{
    let ghost all = seqs::views(list@);
    let mut out: Vec<String> = Vec::new();
    let mut i: usize = 0;
    assert(all.take(0) =~= Seq::empty());
    assert(seqs::views(out@) =~= Seq::empty());
    while i < list.len()
        invariant
            i <= list@.len(),
            all == seqs::views(list@),
            seqs::views(out@) == seqs::distinct(all.take(i as int)),
        decreases list@.len() - i,
    {
        let ghost head = all.take(i as int);
        proof {
            assert(all.take(i + 1).drop_last() =~= head);
            assert(all.take(i + 1).last() == list@[i as int]@);
        }
        let mut seen = false;
        let mut j: usize = 0;
        while j < i
            invariant
                j <= i < list@.len(),
                all == seqs::views(list@),
                head == all.take(i as int),
                seen == exists|m: int| 0 <= m < j && head[m] == list@[i as int]@,
            decreases i - j,
        {
            if same(list[j].as_str(), list[i].as_str()) {
                seen = true;
                assert(head[j as int] == list@[i as int]@);
            }
            j += 1;
        }
        let ghost before = out@;
        if !seen {
            out.push(list[i].clone());
            assert(seqs::views(out@) =~= seqs::views(before).push(list@[i as int]@));
        }
        i += 1;
    }
    assert(all.take(list@.len() as int) =~= all);
    out
}

} // verus!
