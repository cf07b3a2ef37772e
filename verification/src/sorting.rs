//! Sorting places of a list by a given order.
use vstd::prelude::*;

use crate::state::texts;
use crate::text::{comes_first, lemma_text_order, lemma_text_transitive, text_le};

verus! {

/// `f` answers as `le` does on places below `n`.
pub open spec fn decides<F: Fn(usize, usize) -> bool>(
    f: F,
    le: spec_fn(usize, usize) -> bool,
    n: int,
) -> bool {
    &&& forall|a: usize, b: usize| a < n && b < n ==> #[trigger] call_requires(f, (a, b))
    &&& forall|a: usize, b: usize, r: bool|
        a < n && b < n && #[trigger] call_ensures(f, (a, b), r) ==> r == le(a, b)
}

/// `le` says of any two places below `n` which may come first, and does so
/// consistently.
pub open spec fn ranks(le: spec_fn(usize, usize) -> bool, n: int) -> bool {
    &&& forall|a: usize, b: usize| a < n && b < n ==> #[trigger] le(a, b) || le(b, a)
    &&& forall|a: usize, b: usize, c: usize|
        a < n && b < n && c < n && #[trigger] le(a, b) && #[trigger] le(b, c) ==> le(a, c)
}

/// `a` comes before `b`: it ranks first, or they rank alike and `a` was first.
pub open spec fn precedes(le: spec_fn(usize, usize) -> bool, a: usize, b: usize) -> bool {
    le(a, b) && (le(b, a) ==> a < b)
}

/// Each place comes before the later ones.
pub open spec fn in_order(le: spec_fn(usize, usize) -> bool, places: Seq<usize>) -> bool {
    forall|i: int, j: int|
        0 <= i < j < places.len() ==> precedes(le, #[trigger] places[i], #[trigger] places[j])
}

/// Every place below `n`, once.
pub open spec fn all_places(places: Seq<usize>, n: int) -> bool {
    &&& places.len() == n
    &&& places.no_duplicates()
    &&& forall|i: int| 0 <= i < places.len() ==> (#[trigger] places[i]) < n
}

/// `places` are the places below `n` in the order of `le`; those that rank alike
/// stay as they were.
pub open spec fn sorted_places(
    le: spec_fn(usize, usize) -> bool,
    places: Seq<usize>,
    n: int,
) -> bool {
    all_places(places, n) && in_order(le, places)
}

/// Of two places one comes before the other, consistently.
proof fn lemma_precedes(le: spec_fn(usize, usize) -> bool, n: int, a: usize, b: usize, c: usize)
    requires
        ranks(le, n),
        a < n,
        b < n,
        c < n,
    ensures
        a != b ==> precedes(le, a, b) || precedes(le, b, a),
        precedes(le, a, b) && precedes(le, b, c) && a != c ==> precedes(le, a, c),
{
    assert(le(a, b) || le(b, a));
    if precedes(le, a, b) && precedes(le, b, c) {
        assert(le(a, b) && le(b, c));
        if le(c, a) {
            assert(le(c, a) && le(a, b));
            assert(le(b, c) && le(c, a));
        }
    }
}

/// Merges two lists that are in order, and hold the places of `left` before those
/// of `right`.
fn merge<F: Fn(usize, usize) -> bool>(
    left: Vec<usize>,
    right: Vec<usize>,
    n: Ghost<int>,
    first: &F,
    le: Ghost<spec_fn(usize, usize) -> bool>,
) -> (r: Vec<usize>)
    requires
        decides(*first, le@, n@),
        ranks(le@, n@),
        in_order(le@, left@),
        in_order(le@, right@),
        left.len() + right.len() <= n@,
        n@ <= usize::MAX,
        forall|i: int| 0 <= i < left.len() ==> (#[trigger] left@[i]) < n@,
        forall|i: int| 0 <= i < right.len() ==> (#[trigger] right@[i]) < n@,
        forall|i: int, j: int|
            0 <= i < left.len() && 0 <= j < right.len() ==> (#[trigger] left@[i])
                < #[trigger] right@[j],
    ensures
        in_order(le@, r@),
        r@.to_multiset() == left@.to_multiset().add(right@.to_multiset()),
        r.len() == left.len() + right.len(),
        forall|i: int| 0 <= i < r.len() ==> (#[trigger] r@[i]) < n@,
{
    let ghost order = le@;
    let mut out: Vec<usize> = Vec::new();
    let mut i: usize = 0;
    let mut j: usize = 0;
    proof {
        assert(left@.take(0) =~= Seq::<usize>::empty());
        assert(right@.take(0) =~= Seq::<usize>::empty());
        vstd::seq_lib::to_multiset_len(Seq::<usize>::empty());
        assert(Seq::<usize>::empty().to_multiset().add(Seq::<usize>::empty().to_multiset())
            =~= Seq::<usize>::empty().to_multiset());
        assert(out@ =~= Seq::<usize>::empty());
    }
    while i < left.len() || j < right.len()
        invariant
            decides(*first, le@, n@),
            order == le@,
            ranks(order, n@),
            in_order(order, left@),
            in_order(order, right@),
            left.len() + right.len() <= n@,
            n@ <= usize::MAX,
            forall|k: int| 0 <= k < left.len() ==> (#[trigger] left@[k]) < n@,
            forall|k: int| 0 <= k < right.len() ==> (#[trigger] right@[k]) < n@,
            forall|k: int, m: int|
                0 <= k < left.len() && 0 <= m < right.len() ==> (#[trigger] left@[k])
                    < #[trigger] right@[m],
            i <= left.len(),
            j <= right.len(),
            out.len() == i + j,
            forall|k: int| 0 <= k < out.len() ==> (#[trigger] out@[k]) < n@,
            in_order(order, out@),
            forall|k: int, m: int|
                0 <= k < out.len() && i <= m < left.len() ==> precedes(
                    order,
                    #[trigger] out@[k],
                    #[trigger] left@[m],
                ),
            forall|k: int, m: int|
                0 <= k < out.len() && j <= m < right.len() ==> precedes(
                    order,
                    #[trigger] out@[k],
                    #[trigger] right@[m],
                ),
            out@.to_multiset() == left@.take(i as int).to_multiset().add(
                right@.take(j as int).to_multiset(),
            ),
        decreases left.len() - i + right.len() - j,
    {
        let from_left: bool = if i >= left.len() {
            false
        } else if j >= right.len() {
            true
        } else {
            first(left[i], right[j])
        };
        let ghost before = out@;
        if from_left {
            let x: usize = left[i];
            proof {
                if j < right.len() {
                    assert(precedes(order, x, right@[j as int]));
                    assert forall|m: int| j <= m < right.len() implies precedes(
                        order,
                        x,
                        #[trigger] right@[m],
                    ) by {
                        if m > j {
                            assert(precedes(order, right@[j as int], right@[m]));
                            lemma_precedes(order, n@, x, right@[j as int], right@[m]);
                        }
                    }
                }
                vstd::seq_lib::to_multiset_build(before, x);
                vstd::seq_lib::to_multiset_build(left@.take(i as int), x);
                assert(left@.take(i + 1) =~= left@.take(i as int).push(x));
            }
            out.push(x);
            i += 1;
            proof {
                assert(out@.to_multiset() =~= left@.take(i as int).to_multiset().add(
                    right@.take(j as int).to_multiset(),
                ));
            }
        } else {
            let x: usize = right[j];
            proof {
                if i < left.len() {
                    assert(!order(left@[i as int], x));
                    assert(precedes(order, x, left@[i as int]));
                    assert forall|m: int| i <= m < left.len() implies precedes(
                        order,
                        x,
                        #[trigger] left@[m],
                    ) by {
                        if m > i {
                            assert(precedes(order, left@[i as int], left@[m]));
                            lemma_precedes(order, n@, x, left@[i as int], left@[m]);
                        }
                    }
                }
                vstd::seq_lib::to_multiset_build(before, x);
                vstd::seq_lib::to_multiset_build(right@.take(j as int), x);
                assert(right@.take(j + 1) =~= right@.take(j as int).push(x));
            }
            out.push(x);
            j += 1;
            proof {
                assert(out@.to_multiset() =~= left@.take(i as int).to_multiset().add(
                    right@.take(j as int).to_multiset(),
                ));
            }
        }
    }
    proof {
        assert(left@.take(i as int) =~= left@);
        assert(right@.take(j as int) =~= right@);
    }
    out
}

/// The places from `from` up to `to`, in order.
fn sort_range<F: Fn(usize, usize) -> bool>(
    from: usize,
    to: usize,
    n: Ghost<int>,
    first: &F,
    le: Ghost<spec_fn(usize, usize) -> bool>,
) -> (r: Vec<usize>)
    requires
        decides(*first, le@, n@),
        ranks(le@, n@),
        from <= to <= n@,
        n@ <= usize::MAX,
    ensures
        in_order(le@, r@),
        r.len() == to - from,
        r@.no_duplicates(),
        forall|i: int| 0 <= i < r.len() ==> from <= (#[trigger] r@[i]) < to,
    decreases to - from,
{
    if to - from == 0 {
        return Vec::new();
    }
    if to - from == 1 {
        let mut one: Vec<usize> = Vec::new();
        one.push(from);
        return one;
    }
    let mid: usize = from + (to - from) / 2;
    let left = sort_range(from, mid, n, first, le);
    let right = sort_range(mid, to, n, first, le);
    let ghost a = left@;
    let ghost b = right@;
    let out = merge(left, right, n, first, le);
    proof {
        assert forall|x: usize| out@.to_multiset().count(x) <= 1 && (out@.to_multiset().count(x) > 0
            ==> from <= x < to) by {
            vstd::seq_lib::to_multiset_contains(a, x);
            vstd::seq_lib::to_multiset_contains(b, x);
            a.lemma_multiset_has_no_duplicates();
            b.lemma_multiset_has_no_duplicates();
            if a.contains(x) {
                let i = a.index_of(x);
                assert(from <= a[i] < mid);
            }
            if b.contains(x) {
                let i = b.index_of(x);
                assert(mid <= b[i] < to);
            }
        }
        assert forall|x: usize| out@.to_multiset().contains(x) implies out@.to_multiset().count(x)
            == 1 by {}
        out@.lemma_multiset_has_no_duplicates_conv();
        assert forall|i: int| 0 <= i < out.len() implies from <= (#[trigger] out@[i]) < to by {
            vstd::seq_lib::to_multiset_contains(out@, out@[i]);
            assert(out@.contains(out@[i]));
        }
    }
    out
}

/// The places below `n` in the order of `first`.
pub(crate) fn sort_places<F: Fn(usize, usize) -> bool>(
    n: usize,
    first: &F,
    le: Ghost<spec_fn(usize, usize) -> bool>,
) -> (r: Vec<usize>)
    requires
        decides(*first, le@, n as int),
        ranks(le@, n as int),
    ensures
        sorted_places(le@, r@, n as int),
{
    sort_range(0, n, Ghost(n as int), first, le)
}

/// `sorted` holds the texts of `list`, in order.
pub open spec fn sorted_texts(list: Seq<Seq<char>>, sorted: Seq<Seq<char>>) -> bool {
    &&& sorted.to_multiset() == list.to_multiset()
    &&& forall|i: int, j: int|
        0 <= i <= j < sorted.len() ==> text_le(#[trigger] sorted[i], #[trigger] sorted[j])
}

/// Picking every place once keeps what is in a list.
pub proof fn lemma_picked<T>(list: Seq<T>, places: Seq<usize>, picked: Seq<T>)
    requires
        all_places(places, list.len() as int),
        list.len() <= usize::MAX,
        picked.len() == list.len(),
        forall|i: int| 0 <= i < picked.len() ==> #[trigger] picked[i] == list[places[i] as int],
    ensures
        picked.to_multiset() == list.to_multiset(),
    decreases list.len(),
{
    let n = list.len() as int;
    if n == 0 {
        assert(picked =~= list);
    } else {
        lemma_all_there(places, n);
        let last = (n - 1) as usize;
        assert(places.contains(last));
        let at = places.index_of(last);
        let rest = places.remove(at);
        let fewer = picked.remove(at);
        let front = list.drop_last();
        assert forall|i: int, j: int|
            0 <= i < rest.len() && 0 <= j < rest.len() && i != j implies rest[i] != rest[j] by {
            let a = if i < at {
                i
            } else {
                i + 1
            };
            let b = if j < at {
                j
            } else {
                j + 1
            };
            assert(rest[i] == places[a] && rest[j] == places[b]);
        }
        assert forall|i: int| 0 <= i < rest.len() implies (#[trigger] rest[i]) < n - 1 by {
            let a = if i < at {
                i
            } else {
                i + 1
            };
            assert(rest[i] == places[a]);
            assert(places[a] != places[at]);
        }
        assert forall|i: int| 0 <= i < fewer.len() implies #[trigger] fewer[i]
            == front[rest[i] as int] by {
            let a = if i < at {
                i
            } else {
                i + 1
            };
            assert(fewer[i] == picked[a]);
            assert(rest[i] == places[a]);
            assert(rest[i] < n - 1);
        }
        lemma_picked(front, rest, fewer);
        vstd::seq_lib::to_multiset_remove(picked, at);
        vstd::seq_lib::to_multiset_contains(picked, picked[at]);
        assert(picked.contains(picked[at]));
        vstd::seq_lib::to_multiset_build(front, list.last());
        assert(front.push(list.last()) =~= list);
        assert(picked[at] == list.last());
        assert(picked.to_multiset().remove(list.last()).insert(list.last())
            =~= picked.to_multiset());
    }
}

/// Among all places below `n` is each one.
pub proof fn lemma_all_there(places: Seq<usize>, n: int)
    requires
        all_places(places, n),
    ensures
        forall|x: usize| x < n ==> #[trigger] places.contains(x),
{
    let set = places.map_values(|x: usize| x as int).to_set();
    let ints = places.map_values(|x: usize| x as int);
    assert(ints.no_duplicates()) by {
        assert forall|i: int, j: int|
            0 <= i < ints.len() && 0 <= j < ints.len() && i != j implies ints[i] != ints[j] by {
            assert(places[i] != places[j]);
        }
    }
    ints.unique_seq_to_set();
    vstd::set_lib::lemma_int_range(0, n);
    let range = vstd::set_lib::set_int_range(0, n);
    assert(set.subset_of(range)) by {
        assert forall|x: int| set.contains(x) implies range.contains(x) by {
            let i = ints.index_of(x);
            assert(places[i] < n);
        }
    }
    vstd::set_lib::lemma_subset_equality(set, range);
    assert forall|x: usize| x < n implies #[trigger] places.contains(x) by {
        assert(range.contains(x as int));
        assert(set.contains(x as int));
        let i = ints.index_of(x as int);
        assert(places[i] == x);
    }
}

/// The texts of a list, in order.
pub fn sort_texts(list: &Vec<String>) -> (r: Vec<String>)
    ensures
        sorted_texts(texts(list@), texts(r@)),
{
    let n: usize = list.len();
    let first = |a: usize, b: usize| -> (r: bool)
        requires
            a < n && b < n && n == list.len(),
        ensures
            r == text_le(list@[a as int]@, list@[b as int]@),
        { comes_first(list[a].as_str(), list[b].as_str()) };
    let ghost all = texts(list@);
    let ghost le = |a: usize, b: usize| text_le(all[a as int], all[b as int]);
    proof {
        assert forall|a: usize, b: usize| a < n && b < n implies #[trigger] le(a, b) || le(
            b,
            a,
        ) by {
            lemma_text_order(all[a as int], all[b as int]);
        }
        assert forall|a: usize, b: usize, c: usize|
            a < n && b < n && c < n && #[trigger] le(a, b) && #[trigger] le(b, c) implies le(
            a,
            c,
        ) by {
            lemma_text_transitive(all[a as int], all[b as int], all[c as int]);
        }
    }
    let order = sort_places(n, &first, Ghost(le));
    let out = pick_texts(list, &order);
    proof {
        lemma_picked(all, order@, texts(out@));
        assert forall|i: int, j: int| 0 <= i <= j < out.len() implies text_le(
            #[trigger] texts(out@)[i],
            #[trigger] texts(out@)[j],
        ) by {
            lemma_text_order(texts(out@)[i], texts(out@)[i]);
            if i < j {
                assert(precedes(le, order@[i], order@[j]));
                assert(le(order@[i], order@[j]));
            }
        }
    }
    out
}

/// The texts of a list at the given places.
pub fn pick_texts(list: &Vec<String>, places: &Vec<usize>) -> (r: Vec<String>)
    requires
        forall|i: int| 0 <= i < places.len() ==> (#[trigger] places@[i]) < list.len(),
    ensures
        r.len() == places.len(),
        forall|i: int|
            0 <= i < r.len() ==> #[trigger] texts(r@)[i] == texts(list@)[places@[i] as int],
{
    let mut out: Vec<String> = Vec::new();
    let mut i: usize = 0;
    while i < places.len()
        invariant
            i <= places.len(),
            out.len() == i,
            forall|k: int| 0 <= k < places.len() ==> (#[trigger] places@[k]) < list.len(),
            forall|k: int| 0 <= k < i ==> (#[trigger] out@[k])@ == list@[places@[k] as int]@,
        decreases places.len() - i,
    {
        out.push(list[places[i]].clone());
        i += 1;
    }
    proof {
        assert forall|k: int| 0 <= k < out.len() implies #[trigger] texts(out@)[k] == texts(
            list@,
        )[places@[k] as int] by {
            assert(out@[k]@ == list@[places@[k] as int]@);
            assert(places@[k] < list.len());
        }
    }
    out
}

/// A sorted list holds what the list holds, as often, and goes from small to large. There is
/// one such list.
pub proof fn law_there_is_one_sorted_list(
    list: Seq<Seq<char>>,
    sorted: Seq<Seq<char>>,
    other: Seq<Seq<char>>,
)
    requires
        sorted_texts(list, sorted),
        sorted_texts(list, other),
    ensures
        sorted == other,
        sorted.len() == list.len(),
        forall|text: Seq<char>| #[trigger] sorted.contains(text) <==> list.contains(text),
{
    broadcast use vstd::seq_lib::group_to_multiset_ensures;

    let le = |a: Seq<char>, b: Seq<char>| text_le(a, b);
    assert forall|x: Seq<char>, y: Seq<char>| #[trigger] le(x, y) && #[trigger] le(y, x) implies x
        == y by {
        lemma_text_order(x, y);
    }
    assert forall|x: Seq<char>| #[trigger] le(x, x) by {
        lemma_text_order(x, x);
    }
    assert forall|x: Seq<char>, y: Seq<char>| #[trigger] le(x, y) || le(y, x) by {
        lemma_text_order(x, y);
    }
    assert forall|x: Seq<char>, y: Seq<char>, z: Seq<char>|
        #[trigger] le(x, y) && #[trigger] le(y, z) implies le(x, z) by {
        lemma_text_transitive(x, y, z);
    }
    assert(vstd::relations::sorted_by(sorted, le));
    assert(vstd::relations::sorted_by(other, le));
    vstd::seq_lib::lemma_sorted_unique(sorted, other, le);
    assert(sorted.to_multiset().len() == sorted.len() && list.to_multiset().len() == list.len());
    assert forall|text: Seq<char>| #[trigger] sorted.contains(text) <==> list.contains(text) by {
        assert(sorted.to_multiset().count(text) == list.to_multiset().count(text));
    }
}

} // verus!
