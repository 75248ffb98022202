//! Names taken from paths: the last component, and the name before an extension.
use crate::seqs;
use crate::text;
use vstd::prelude::*;

verus! {

/// The last of `parts` that is a component of a path: neither empty nor `.`.
pub open spec fn last_component(parts: Seq<Seq<char>>) -> Option<Seq<char>>
    decreases parts.len(),
{
    if parts.len() == 0 {
        None
    } else if parts.last().len() == 0 || parts.last() == "."@ {
        last_component(parts.drop_last())
    } else {
        Some(parts.last())
    }
}

/// The name that the path `p` ends in; none where it ends in the root or in `..`.
pub open spec fn base_name_of(p: Seq<char>) -> Option<Seq<char>> {
    match last_component(seqs::split(p, '/')) {
        Some(c) => if c == ".."@ {
            None
        } else {
            Some(c)
        },
        None => None,
    }
}

/// The file name before its extension, where that extension is `ext`.
pub open spec fn stem_with_extension(name: Seq<char>, ext: Seq<char>) -> Option<Seq<char>> {
    let dot = seqs::last_index_of(name, '.');
    if name != ".."@ && dot > 0 && name.skip(dot + 1) == ext {
        Some(name.take(dot))
    } else {
        None
    }
}

/// The name that the path `p` ends in.
pub fn base_name(p: &str) -> (r: Option<String>)
    ensures
        seqs::opt_view(r) == base_name_of(p@),
{
    let parts = text::split(p, '/');
    let ghost all = seqs::split(p@, '/');
    let mut k: usize = parts.len();
    assert(all.take(k as int) =~= all);
    while k > 0
        invariant
            k <= parts@.len(),
            all == seqs::split(p@, '/'),
            all == seqs::views(parts@),
            last_component(all) == last_component(all.take(k as int)),
        decreases k,
    {
        let part = parts[k - 1].as_str();
        let cs = text::chars_of(part);
        assert(all.take(k as int).last() == part@);
        assert(all.take(k as int).drop_last() =~= all.take(k - 1));
        if cs.len() > 0 && !text::same(part, ".") {
            if text::same(part, "..") {
                return None;
            }
            return Some(parts[k - 1].clone());
        }
        k -= 1;
    }
    None
}

/// The file name before its extension, where that extension is `ext`.
pub fn file_stem(name: &str, ext: &str) -> (r: Option<String>)
    ensures
        seqs::opt_view(r) == stem_with_extension(name@, ext@),
{
    let cs = text::chars_of(name);
    let after = text::after_last(&cs, '.');
    proof {
        seqs::last_index_of_bounds(name@, '.');
    }
    if after < 2 || text::same(name, "..") {
        return None;
    }
    let tail = text::string_of(&cs, after, cs.len());
    assert(tail@ =~= name@.skip(after as int));
    if !text::same(tail.as_str(), ext) {
        return None;
    }
    let stem = text::string_of(&cs, 0, after - 1);
    assert(stem@ =~= name@.take(after - 1));
    Some(stem)
}

/// The name of a file is what stands behind the last slash of its path.
pub proof fn base_name_is_the_last_part(dir: Seq<char>, name: Seq<char>)
    requires
        name.len() > 0,
        !name.contains('/'),
        name != "."@,
    ensures
        name != ".."@ ==> base_name_of(dir + seq!['/'] + name) == Some(name),
        name != ".."@ ==> base_name_of(dir + seq!['/'] + name + seq!['/']) == Some(name),
        name != ".."@ ==> base_name_of(name) == Some(name),
        name == ".."@ ==> base_name_of(dir + seq!['/'] + name) is None,
{
    let p = dir + seq!['/'] + name;
    seqs::split_at_separator(dir, '/', name);
    seqs::split_undoes_join(seq![name], '/');
    assert(seqs::join(seq![name], seq!['/']) == name);
    assert(seqs::split(name, '/') == seq![name]);
    let parts = seqs::split(p, '/');
    assert(parts.last() == name);
    seqs::split_at_separator(p, '/', Seq::empty());
    assert(p + seq!['/'] + Seq::<char>::empty() =~= p + seq!['/']);
    seqs::index_of_is(Seq::empty(), '/', 0);
    assert(seqs::split(Seq::<char>::empty(), '/') =~= seq![Seq::<char>::empty()]);
    let more = seqs::split(p + seq!['/'], '/');
    assert(more.last() == Seq::<char>::empty());
    assert(more.drop_last() =~= parts);
    assert(seq![name].last() == name);
}

/// The name of a file without its extension: `<stem>.<ext>` gives the stem, and a file with
/// another extension gives nothing.
pub proof fn stems_are_what_stands_before_the_extension(stem: Seq<char>, ext: Seq<char>, other: Seq<char>)
    requires
        stem.len() > 0,
        ext.len() > 0,
        !ext.contains('.'),
    ensures
        stem_with_extension(stem + seq!['.'] + ext, ext) == Some(stem),
        other != ext ==> stem_with_extension(stem + seq!['.'] + ext, other) is None,
{
    let name = stem + seq!['.'] + ext;
    seqs::last_index_of_bounds(name, '.');
    let dot = seqs::last_index_of(name, '.');
    assert(name[stem.len() as int] == '.');
    assert(dot == stem.len()) by {
        if dot > stem.len() {
            assert(name[dot] == ext[dot - stem.len() - 1]);
            assert(ext.contains('.'));
        }
    }
    assert(name.skip(dot + 1) =~= ext);
    assert(name.take(dot) =~= stem);
    reveal_strlit("..");
    assert(name != ".."@) by {
        if name == ".."@ {
            assert(name[name.len() - 1] == ext[ext.len() - 1]);
            assert(ext.contains(ext[ext.len() - 1]));
        }
    }
}

/// A name that does not end in a dot and the extension has no such stem.
pub proof fn other_names_have_no_stem(name: Seq<char>, ext: Seq<char>)
    requires
        !seqs::ends_with(name, seq!['.'] + ext),
    ensures
        stem_with_extension(name, ext) is None,
{
    let dot = seqs::last_index_of(name, '.');
    seqs::last_index_of_bounds(name, '.');
    if dot > 0 && name.skip(dot + 1) == ext {
        assert(name.skip(dot) =~= seq!['.'] + ext);
    }
}

} // verus!
