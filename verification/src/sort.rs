//! Stable sorting.
use vstd::prelude::*;

verus! {

/// Puts `x` into `s` before the first element that it may precede.
pub open spec fn insert_sorted<T>(s: Seq<T>, x: T, le: spec_fn(T, T) -> bool) -> Seq<T>
    decreases s.len(),
{
    if s.len() == 0 {
        seq![x]
    } else if le(x, s[0]) {
        seq![x] + s
    } else {
        seq![s[0]] + insert_sorted(s.drop_first(), x, le)
    }
}

/// The elements of `s` in the order of `le`; of two that `le` puts in either order, the one
/// that stood first stays first.
pub open spec fn sorted<T>(s: Seq<T>, le: spec_fn(T, T) -> bool) -> Seq<T>
    decreases s.len(),
{
    if s.len() == 0 {
        Seq::empty()
    } else {
        insert_sorted(sorted(s.drop_first(), le), s[0], le)
    }
}

/// Sorts `v` by `le`.
pub(crate) fn sort_by<T, F: Fn(&T, &T) -> bool>(v: Vec<T>, le: F, Ghost(order): Ghost<
    spec_fn(T, T) -> bool,
>) -> (r: Vec<T>)
    requires
        forall|a: &T, b: &T| call_requires(le, (a, b)),
        forall|a: &T, b: &T, o: bool| call_ensures(le, (a, b), o) ==> o == order(*a, *b),
    ensures
        r@ == sorted(v@, order),
{
    let mut rest = v;
    let mut out: Vec<T> = Vec::new();
    let ghost all = v@;
    assert(all.skip(all.len() as int) =~= Seq::empty());
    assert(all.take(all.len() as int) =~= all);
    while rest.len() > 0
        invariant
            rest@.len() <= all.len(),
            rest@ == all.take(rest@.len() as int),
            out@ == sorted(all.skip(rest@.len() as int), order),
            forall|a: &T, b: &T| call_requires(le, (a, b)),
            forall|a: &T, b: &T, o: bool| call_ensures(le, (a, b), o) ==> o == order(*a, *b),
        decreases rest@.len(),
    {
        let ghost n = rest@.len();
        match rest.pop() {
            None => {},
            Some(x) => {
                proof {
                    assert(all.skip(n - 1).drop_first() =~= all.skip(n as int));
                    assert(all.skip(n - 1)[0] == x);
                    assert(rest@ =~= all.take(n - 1));
                }
                let ghost tail = out@;
                let mut i: usize = 0;
                assert(tail.skip(0) =~= tail);
                assert(tail.take(0) + insert_sorted(tail, x, order) =~= insert_sorted(
                    tail,
                    x,
                    order,
                ));
                while i < out.len() && !le(&x, &out[i])
                    invariant
                        i <= out@.len(),
                        out@ == tail,
                        insert_sorted(tail, x, order) == tail.take(i as int) + insert_sorted(
                            tail.skip(i as int),
                            x,
                            order,
                        ),
                        forall|a: &T, b: &T| call_requires(le, (a, b)),
                        forall|a: &T, b: &T, o: bool|
                            call_ensures(le, (a, b), o) ==> o == order(*a, *b),
                    decreases out@.len() - i,
                {
                    proof {
                        assert(tail.skip(i as int).drop_first() =~= tail.skip(i + 1));
                        assert(tail.take(i as int) + (seq![tail[i as int]] + insert_sorted(
                            tail.skip(i + 1),
                            x,
                            order,
                        )) =~= tail.take(i + 1) + insert_sorted(tail.skip(i + 1), x, order));
                    }
                    i += 1;
                }
                out.insert(i, x);
                proof {
                    if i < tail.len() {
                        assert(out@ =~= tail.take(i as int) + (seq![x] + tail.skip(i as int)));
                    } else {
                        assert(out@ =~= tail.take(i as int) + seq![x]);
                    }
                }
            },
        }
    }
    assert(all.skip(0) =~= all);
    out
}

/// `le` relates any two elements, and is transitive.
pub open spec fn is_order<T>(le: spec_fn(T, T) -> bool) -> bool {
    &&& forall|a: T, b: T| #[trigger] le(a, b) || le(b, a)
    &&& forall|a: T, b: T, c: T| #[trigger] le(a, b) && #[trigger] le(b, c) ==> le(a, c)
}

/// Each element of `s` may precede every later one.
pub open spec fn in_order<T>(s: Seq<T>, le: spec_fn(T, T) -> bool) -> bool {
    forall|i: int, j: int| 0 <= i < j < s.len() ==> #[trigger] le(s[i], s[j])
}

proof fn insert_sorted_sound<T>(s: Seq<T>, x: T, le: spec_fn(T, T) -> bool)
    requires
        is_order(le),
        in_order(s, le),
    ensures
        in_order(insert_sorted(s, x, le), le),
        insert_sorted(s, x, le).to_multiset() =~= s.to_multiset().insert(x),
    decreases s.len(),
{
    broadcast use vstd::seq_lib::group_to_multiset_ensures;

    let r = insert_sorted(s, x, le);
    if s.len() == 0 {
        assert(r =~= s.push(x));
    } else if le(x, s[0]) {
        assert forall|i: int, j: int| 0 <= i < j < r.len() implies #[trigger] le(r[i], r[j]) by {
            if i == 0 && j > 1 {
                assert(le(s[0], s[j - 1]));
            }
        }
        vstd::seq_lib::lemma_multiset_commutative(seq![x], s);
        assert(seq![x] =~= Seq::<T>::empty().push(x));
    } else {
        let tail = s.drop_first();
        assert(in_order(tail, le)) by {
            assert forall|i: int, j: int| 0 <= i < j < tail.len() implies #[trigger] le(
                tail[i],
                tail[j],
            ) by {
                assert(le(s[i + 1], s[j + 1]));
            }
        }
        insert_sorted_sound(tail, x, le);
        let rest = insert_sorted(tail, x, le);
        assert(le(s[0], x));
        assert forall|i: int, j: int| 0 <= i < j < r.len() implies #[trigger] le(r[i], r[j]) by {
            if i == 0 {
                let y = rest[j - 1];
                assert(rest.to_multiset().contains(y)) by {
                    assert(rest.contains(y));
                }
                if y != x {
                    assert(tail.to_multiset().contains(y));
                    assert(tail.contains(y));
                    let m = choose|m: int| 0 <= m < tail.len() && tail[m] == y;
                    assert(le(s[0], s[m + 1]));
                }
            } else {
                assert(le(rest[i - 1], rest[j - 1]));
            }
        }
        assert(s =~= seq![s[0]] + tail);
        vstd::seq_lib::lemma_multiset_commutative(seq![s[0]], tail);
        vstd::seq_lib::lemma_multiset_commutative(seq![s[0]], rest);
    }
}

/// Sorting by an order keeps the elements, each as often as it was there, and puts them in
/// that order.
pub proof fn sorted_sound<T>(s: Seq<T>, le: spec_fn(T, T) -> bool)
    requires
        is_order(le),
    ensures
        in_order(sorted(s, le), le),
        sorted(s, le).to_multiset() =~= s.to_multiset(),
        sorted(s, le).len() == s.len(),
    decreases s.len(),
{
    broadcast use vstd::seq_lib::group_to_multiset_ensures;

    if s.len() > 0 {
        let tail = s.drop_first();
        sorted_sound(tail, le);
        insert_sorted_sound(sorted(tail, le), s[0], le);
        assert(s =~= seq![s[0]] + tail);
        vstd::seq_lib::lemma_multiset_commutative(seq![s[0]], tail);
        assert(seq![s[0]] =~= Seq::<T>::empty().push(s[0]));
        assert(sorted(s, le).to_multiset().len() == s.to_multiset().len());
    }
}

proof fn insert_sorted_filter<T>(s: Seq<T>, x: T, le: spec_fn(T, T) -> bool, k: T)
    requires
        is_order(le),
    ensures
        insert_sorted(s, x, le).filter(|y: T| le(k, y) && le(y, k)) =~= (seq![x] + s).filter(
            |y: T| le(k, y) && le(y, k),
        ),
    decreases s.len(),
{
    let same = |y: T| le(k, y) && le(y, k);
    if s.len() > 0 && !le(x, s[0]) {
        let tail = s.drop_first();
        insert_sorted_filter(tail, x, le, k);
        let rest = insert_sorted(tail, x, le);
        assert(le(s[0], x));
        // `x` and `s[0]` are not of one rank, so at most one of them is kept.
        assert(!(same(x) && same(s[0])));
        Seq::filter_distributes_over_add(seq![s[0]], rest, same);
        Seq::filter_distributes_over_add(seq![x], tail, same);
        Seq::filter_distributes_over_add(seq![x], s, same);
        Seq::filter_distributes_over_add(seq![s[0]], tail, same);
        assert(s =~= seq![s[0]] + tail);
        filter_one(x, same);
        filter_one(s[0], same);
        assert(seq![s[0]].filter(same) + (seq![x].filter(same) + tail.filter(same)) =~= seq![x].filter(
            same,
        ) + (seq![s[0]].filter(same) + tail.filter(same)));
    } else if s.len() == 0 {
        assert(seq![x] + s =~= seq![x]);
    }
}

proof fn filter_one<T>(x: T, keep: spec_fn(T) -> bool)
    ensures
        keep(x) ==> seq![x].filter(keep) =~= seq![x],
        !keep(x) ==> seq![x].filter(keep) =~= Seq::<T>::empty(),
{
    reveal(Seq::filter);
    let s = seq![x];
    assert(s.drop_last() =~= Seq::<T>::empty());
    assert(Seq::<T>::empty().filter(keep) =~= Seq::<T>::empty());
}

/// Sorting is stable: the elements of one rank keep the order in which they stood.
pub proof fn sorted_stable<T>(s: Seq<T>, le: spec_fn(T, T) -> bool, k: T)
    requires
        is_order(le),
    ensures
        sorted(s, le).filter(|y: T| le(k, y) && le(y, k)) =~= s.filter(
            |y: T| le(k, y) && le(y, k),
        ),
    decreases s.len(),
{
    let same = |y: T| le(k, y) && le(y, k);
    if s.len() > 0 {
        let tail = s.drop_first();
        sorted_stable(tail, le, k);
        insert_sorted_filter(sorted(tail, le), s[0], le, k);
        Seq::filter_distributes_over_add(seq![s[0]], tail, same);
        Seq::filter_distributes_over_add(seq![s[0]], sorted(tail, le), same);
        assert(s =~= seq![s[0]] + tail);
    } else {
        assert(s =~= sorted(s, le));
    }
}

/// Sorting by an order on what the elements are mapped to, and mapping them, can be done in
/// either order.
pub proof fn sorted_map<T, U>(
    s: Seq<T>,
    f: spec_fn(T) -> U,
    le: spec_fn(T, T) -> bool,
    mapped: spec_fn(U, U) -> bool,
)
    requires
        forall|a: T, b: T| #[trigger] le(a, b) == mapped(f(a), f(b)),
    ensures
        sorted(s, le).map_values(f) == sorted(s.map_values(f), mapped),
    decreases s.len(),
{
    if s.len() == 0 {
        assert(sorted(s, le).map_values(f) =~= sorted(s.map_values(f), mapped));
    } else {
        let tail = s.drop_first();
        sorted_map(tail, f, le, mapped);
        assert(s.map_values(f).drop_first() =~= tail.map_values(f));
        insert_sorted_map(sorted(tail, le), s[0], f, le, mapped);
    }
}

proof fn insert_sorted_map<T, U>(
    s: Seq<T>,
    x: T,
    f: spec_fn(T) -> U,
    le: spec_fn(T, T) -> bool,
    mapped: spec_fn(U, U) -> bool,
)
    requires
        forall|a: T, b: T| #[trigger] le(a, b) == mapped(f(a), f(b)),
    ensures
        insert_sorted(s, x, le).map_values(f) == insert_sorted(s.map_values(f), f(x), mapped),
    decreases s.len(),
{
    let got = insert_sorted(s, x, le).map_values(f);
    let want = insert_sorted(s.map_values(f), f(x), mapped);
    if s.len() == 0 {
        assert(got =~= want);
    } else if le(x, s[0]) {
        assert(got =~= want);
    } else {
        insert_sorted_map(s.drop_first(), x, f, le, mapped);
        assert(s.map_values(f).drop_first() =~= s.drop_first().map_values(f));
        assert(got =~= want);
    }
}

/// Sorting neither loses an element nor adds one.
pub proof fn sorting_keeps_the_elements<T>(s: Seq<T>, le: spec_fn(T, T) -> bool, x: T)
    ensures
        sorted(s, le).contains(x) <==> s.contains(x),
        sorted(s, le).len() == s.len(),
    decreases s.len(),
{
    if s.len() > 0 {
        let rest = s.drop_first();
        sorting_keeps_the_elements(rest, le, x);
        inserting_adds_one(sorted(rest, le), s[0], le, x);
        if s.contains(x) && x != s[0] {
            let i = choose|i: int| 0 <= i < s.len() && s[i] == x;
            assert(rest[i - 1] == x);
        }
        if rest.contains(x) {
            let i = choose|i: int| 0 <= i < rest.len() && rest[i] == x;
            assert(s[i + 1] == x);
        }
        if x == s[0] {
            assert(s.contains(s[0]));
        }
    }
}

proof fn inserting_adds_one<T>(s: Seq<T>, y: T, le: spec_fn(T, T) -> bool, x: T)
    ensures
        insert_sorted(s, y, le).contains(x) <==> s.contains(x) || x == y,
        insert_sorted(s, y, le).len() == s.len() + 1,
    decreases s.len(),
{
    let r = insert_sorted(s, y, le);
    if s.len() == 0 {
        assert(r[0] == y);
    } else if le(y, s[0]) {
        assert(r[0] == y);
        if s.contains(x) {
            let i = choose|i: int| 0 <= i < s.len() && s[i] == x;
            assert(r[i + 1] == x);
        }
        if r.contains(x) && x != y {
            let i = choose|i: int| 0 <= i < r.len() && r[i] == x;
            assert(s[i - 1] == x);
        }
    } else {
        let rest = s.drop_first();
        let t = insert_sorted(rest, y, le);
        inserting_adds_one(rest, y, le, x);
        assert(r[0] == s[0]);
        if t.contains(x) {
            let i = choose|i: int| 0 <= i < t.len() && t[i] == x;
            assert(r[i + 1] == x);
        }
        if s.contains(x) && x != s[0] {
            let i = choose|i: int| 0 <= i < s.len() && s[i] == x;
            assert(rest[i - 1] == x);
        }
        if rest.contains(x) {
            let i = choose|i: int| 0 <= i < rest.len() && rest[i] == x;
            assert(s[i + 1] == x);
        }
        if r.contains(x) && x != s[0] {
            let i = choose|i: int| 0 <= i < r.len() && r[i] == x;
            assert(t[i - 1] == x);
        }
        if x == s[0] {
            assert(s.contains(s[0]));
            assert(r.contains(r[0]));
        }
    }
}

} // verus!
