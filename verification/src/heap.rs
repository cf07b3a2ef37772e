//! An open list for searches: hands out the entry with the lowest score first.
use vstd::multiset::Multiset;
use vstd::prelude::*;
use vstd::seq_lib::{to_multiset_build, to_multiset_contains, to_multiset_insert, to_multiset_len, to_multiset_remove};

verus! {

/// A binary heap of points with their scores.
pub struct OpenList {
    items: Vec<(u64, usize)>,
}

/// The place above `i` in the heap.
spec fn above(i: int) -> int {
    (i - 1) / 2
}

/// No entry has a lower score than the one above it.
spec fn heaped(s: Seq<(u64, usize)>) -> bool {
    forall|i: int| 0 < i < s.len() ==> s[above(i)].0 <= (#[trigger] s[i]).0
}

/// As `heaped`, but for the entry at `k` against the one above it.
spec fn heaped_below(s: Seq<(u64, usize)>, k: int) -> bool {
    &&& forall|i: int| 0 < i < s.len() && i != k ==> s[above(i)].0 <= (#[trigger] s[i]).0
    &&& forall|i: int|
        0 < i < s.len() && above(i) == k && k > 0 ==> s[above(k)].0 <= (#[trigger] s[i]).0
}

/// As `heaped`, but for the entry at `k` against those below it.
spec fn heaped_above(s: Seq<(u64, usize)>, k: int) -> bool {
    &&& forall|i: int| 0 < i < s.len() && above(i) != k ==> s[above(i)].0 <= (#[trigger] s[i]).0
    &&& forall|i: int|
        0 < i < s.len() && above(i) == k && k > 0 ==> s[above(k)].0 <= (#[trigger] s[i]).0
}

/// Exchanging two entries keeps what is in the heap.
proof fn lemma_exchange(s: Seq<(u64, usize)>, i: int, j: int)
    requires
        0 <= i < s.len(),
        0 <= j < s.len(),
        i != j,
    ensures
        s.update(i, s[j]).update(j, s[i]).to_multiset() == s.to_multiset(),
{
    lemma_replace(s, i, s[j]);
    lemma_replace(s.update(i, s[j]), j, s[i]);
    to_multiset_contains(s, s[i]);
    to_multiset_contains(s, s[j]);
    assert(s.contains(s[i]));
    let once = s.to_multiset().remove(s[i]).insert(s[j]);
    assert(once.remove(s[j]).insert(s[i]) =~= s.to_multiset());
}

proof fn lemma_replace(s: Seq<(u64, usize)>, i: int, a: (u64, usize))
    requires
        0 <= i < s.len(),
    ensures
        s.update(i, a).to_multiset() == s.to_multiset().remove(s[i]).insert(a),
{
    assert(s.update(i, a) =~= s.remove(i).insert(i, a));
    to_multiset_remove(s, i);
    to_multiset_insert(s.remove(i), i, a);
}

/// In a heap the first entry has the lowest score.
proof fn lemma_first_is_lowest(s: Seq<(u64, usize)>, i: int)
    requires
        heaped(s),
        0 <= i < s.len(),
    ensures
        s[0].0 <= s[i].0,
    decreases i,
{
    if i > 0 {
        lemma_first_is_lowest(s, above(i));
        assert(s[above(i)].0 <= s[i].0);
    }
}

impl View for OpenList {
    type V = Multiset<(u64, usize)>;

    closed spec fn view(&self) -> Multiset<(u64, usize)> {
        self.items@.to_multiset()
    }
}

impl OpenList {
    #[verifier::type_invariant]
    spec fn inv(self) -> bool {
        heaped(self.items@)
    }

    pub fn new() -> (r: Self)
        ensures
            r@ == Multiset::<(u64, usize)>::empty(),
    {
        let r = OpenList { items: Vec::new() };
        proof {
            to_multiset_len(r.items@);
            assert(r@ =~= Multiset::<(u64, usize)>::empty()) by {
                assert forall|e: (u64, usize)| r@.count(e) == 0 by {
                    to_multiset_contains(r.items@, e);
                }
            }
        }
        r
    }

    pub fn push(&mut self, score: u64, point: usize)
        ensures
            final(self)@ == old(self)@.insert((score, point)),
    {
        let mut whole = OpenList { items: Vec::new() };
        std::mem::swap(self, &mut whole);
        proof {
            use_type_invariant(&whole);
        }
        let ghost before = whole.items@;
        let OpenList { mut items } = whole;
        let mut k: usize = items.len();
        items.push((score, point));
        let ghost goal = items@.to_multiset();
        proof {
            to_multiset_build(before, (score, point));
            assert(heaped_below(items@, k as int));
        }
        while k > 0 && items[(k - 1) / 2].0 > items[k].0
            invariant
                k < items.len(),
                items@.to_multiset() == goal,
                heaped_below(items@, k as int),
            decreases k,
        {
            let up: usize = (k - 1) / 2;
            let ghost prior = items@;
            let a: (u64, usize) = items[k];
            let b: (u64, usize) = items[up];
            proof {
                lemma_exchange(items@, k as int, up as int);
            }
            items.set(k, b);
            items.set(up, a);
            proof {
                assert forall|i: int| 0 < i < items@.len() && i != up implies items@[above(i)].0 <= (
                #[trigger] items@[i]).0 by {
                    assert(prior[above(i)].0 <= prior[i].0 || i == k);
                    if above(i) == k {
                        assert(prior[above(k as int)].0 <= prior[i].0);
                    }
                }
                assert forall|i: int|
                    0 < i < items@.len() && above(i) == up && up > 0 implies items@[above(
                    up as int,
                )].0 <= (#[trigger] items@[i]).0 by {
                    assert(prior[above(up as int)].0 <= prior[up as int].0);
                    if i != k {
                        assert(prior[above(i)].0 <= prior[i].0);
                    }
                }
            }
            k = up;
        }
        proof {
            assert(heaped(items@)) by {
                assert forall|i: int| 0 < i < items@.len() implies items@[above(i)].0 <= (
                #[trigger] items@[i]).0 by {}
            }
        }
        *self = OpenList { items };
    }

    /// Takes out an entry with the lowest score.
    pub fn pop(&mut self) -> (r: Option<(u64, usize)>)
        ensures
            match r {
                Some(e) => old(self)@.contains(e) && final(self)@ == old(self)@.remove(e)
                    && forall|x: (u64, usize)| #[trigger] old(self)@.contains(x) ==> e.0 <= x.0,
                None => old(self)@ == Multiset::<(u64, usize)>::empty() && final(self)@ == old(
                    self,
                )@,
            },
    {
        let mut whole = OpenList { items: Vec::new() };
        std::mem::swap(self, &mut whole);
        proof {
            use_type_invariant(&whole);
        }
        let ghost before = whole.items@;
        let OpenList { mut items } = whole;
        let n: usize = items.len();
        if n == 0 {
            proof {
                assert(before.to_multiset() =~= Multiset::<(u64, usize)>::empty()) by {
                    assert forall|e: (u64, usize)| before.to_multiset().count(e) == 0 by {
                        to_multiset_contains(before, e);
                    }
                }
            }
            *self = OpenList { items };
            return None;
        }
        let first: (u64, usize) = items[0];
        let last: (u64, usize) = items[n - 1];
        proof {
            to_multiset_contains(before, first);
            assert(before.contains(before[0]));
            assert forall|x: (u64, usize)| #[trigger] before.to_multiset().contains(x) implies first.0
                <= x.0 by {
                to_multiset_contains(before, x);
                let w = before.index_of(x);
                lemma_first_is_lowest(before, w);
            }
        }
        let ghost goal = before.to_multiset().remove(first);
        items.set(0, last);
        items.pop();
        proof {
            if n > 1 {
                assert(items@ =~= before.update(0, last).remove(n - 1));
                lemma_replace(before, 0, last);
                to_multiset_remove(before.update(0, last), n - 1);
                assert(before.to_multiset().remove(first).insert(last).remove(last)
                    =~= before.to_multiset().remove(first));
            } else {
                assert(items@ =~= before.remove(0));
                to_multiset_remove(before, 0);
            }
            assert(items@.to_multiset() == goal);
            assert(heaped_above(items@, 0)) by {
                assert forall|i: int| 0 < i < items@.len() && above(i) != 0 implies items@[above(
                    i,
                )].0 <= (#[trigger] items@[i]).0 by {
                    assert(before[above(i)].0 <= before[i].0);
                }
            }
        }
        let m: usize = items.len();
        let mut k: usize = 0;
        while k < m
            invariant
                m == items.len(),
                m < usize::MAX,
                k <= m,
                items@.to_multiset() == goal,
                k < m ==> heaped_above(items@, k as int),
                k == m ==> heaped(items@),
            decreases m - k,
        {
            if k > (m - 1) / 2 {
                proof {
                    assert(heaped(items@)) by {
                        assert forall|i: int| 0 < i < items@.len() implies items@[above(i)].0 <= (
                        #[trigger] items@[i]).0 by {}
                    }
                }
                k = m;
                continue;
            }
            let left: usize = 2 * k + 1;
            if left >= m {
                proof {
                    assert(heaped(items@)) by {
                        assert forall|i: int| 0 < i < items@.len() implies items@[above(i)].0 <= (
                        #[trigger] items@[i]).0 by {}
                    }
                }
                k = m;
                continue;
            }
            let low: usize = if left + 1 < m && items[left + 1].0 < items[left].0 {
                left + 1
            } else {
                left
            };
            if items[k].0 <= items[low].0 {
                proof {
                    assert(heaped(items@)) by {
                        assert forall|i: int| 0 < i < items@.len() implies items@[above(i)].0 <= (
                        #[trigger] items@[i]).0 by {
                            if above(i) == k {
                                assert(i == left || i == left + 1);
                            }
                        }
                    }
                }
                k = m;
                continue;
            }
            let ghost prior = items@;
            let a: (u64, usize) = items[k];
            let b: (u64, usize) = items[low];
            proof {
                lemma_exchange(items@, k as int, low as int);
            }
            items.set(k, b);
            items.set(low, a);
            proof {
                assert(heaped_above(items@, low as int)) by {
                    assert forall|i: int| 0 < i < items@.len() && above(i) != low implies items@[above(
                        i,
                    )].0 <= (#[trigger] items@[i]).0 by {
                        if i == k {
                            assert(prior[above(k as int)].0 <= prior[low as int].0);
                        } else if above(i) == k {
                            assert(i == left || i == left + 1);
                        } else {
                            assert(prior[above(i)].0 <= prior[i].0);
                        }
                    }
                    assert forall|i: int|
                        0 < i < items@.len() && above(i) == low implies items@[above(
                        low as int,
                    )].0 <= (#[trigger] items@[i]).0 by {
                        assert(above(low as int) == k);
                        assert(prior[above(i)].0 <= prior[i].0);
                    }
                }
            }
            k = low;
        }
        *self = OpenList { items };
        Some(first)
    }
}

} // verus!
