//! A stable sort of node indices by precomputed keys.

use vstd::prelude::*;

verus! {

/// `items` is in non-decreasing order of `keys`.
pub open spec fn sorted_by_keys(items: Seq<usize>, keys: Seq<u128>) -> bool {
    forall|i: int, j: int|
        0 <= i < j < items.len() ==> keys[#[trigger] items[i] as int] <= keys[#[trigger] items[j] as int]
}

proof fn lemma_index_of_distinct(s: Seq<usize>, k: int)
    requires
        s.no_duplicates(),
        0 <= k < s.len(),
    ensures
        s.index_of(s[k]) == k,
{
    assert(0 <= k < s.len() && s[k] == s[k]);
    let i = s.index_of(s[k]);
    assert(0 <= i < s.len() && s[i] == s[k]);
}

/// Sorts `items` by `keys[item]`, ascending; items with equal keys keep their
/// relative order. The items must be distinct.
pub fn stable_sort_by_keys(items: &mut Vec<usize>, keys: &Vec<u128>)
    requires
        forall|i: int| 0 <= i < old(items)@.len() ==> (#[trigger] old(items)@[i]) < keys@.len(),
        old(items)@.no_duplicates(),
    ensures
        final(items)@.len() == old(items)@.len(),
        final(items)@.no_duplicates(),
        forall|x: usize| final(items)@.contains(x) <==> old(items)@.contains(x),
        sorted_by_keys(final(items)@, keys@),
        forall|i: int, j: int|
            0 <= i < j < final(items)@.len() && keys@[final(items)@[i] as int]
                == keys@[final(items)@[j] as int] ==> old(items)@.index_of(
                #[trigger] final(items)@[i],
            ) < old(items)@.index_of(#[trigger] final(items)@[j]),
{
    let ghost initial = items@;
    let mut result: Vec<usize> = Vec::new();
    let mut i: usize = 0;
    while i < items.len()
        invariant
            items@ == initial,
            forall|k: int| 0 <= k < initial.len() ==> (#[trigger] initial[k]) < keys@.len(),
            initial.no_duplicates(),
            i <= initial.len(),
            result@.len() == i,
            result@.no_duplicates(),
            forall|x: usize| result@.contains(x) <==> initial.subrange(0, i as int).contains(x),
            forall|a: int| 0 <= a < result@.len() ==> (#[trigger] result@[a]) < keys@.len(),
            sorted_by_keys(result@, keys@),
            forall|a: int, b: int|
                0 <= a < b < result@.len() && keys@[result@[a] as int] == keys@[result@[b] as int]
                    ==> initial.index_of(#[trigger] result@[a]) < initial.index_of(
                    #[trigger] result@[b],
                ),
            forall|a: int|
                0 <= a < result@.len() ==> 0 <= initial.index_of(#[trigger] result@[a]) < i,
        decreases initial.len() - i,
    {
        let item = items[i];
        let key = keys[item];
        let mut q: usize = 0;
        while q < result.len() && keys[result[q]] <= key
            invariant
                q <= result@.len(),
                forall|a: int| 0 <= a < result@.len() ==> (#[trigger] result@[a]) < keys@.len(),
                forall|k: int| 0 <= k < q ==> keys@[#[trigger] result@[k] as int] <= key,
            decreases result@.len() - q,
        {
            q = q + 1;
        }
        let ghost r = result@;
        proof {
            lemma_index_of_distinct(initial, i as int);
            assert(!r.contains(item)) by {
                if r.contains(item) {
                    assert(initial.subrange(0, i as int).contains(item));
                    let k = choose|k: int| 0 <= k < i && #[trigger] initial.subrange(0, i as int)[k] == item;
                    assert(initial[k] == initial[i as int]);
                }
            }
        }
        result.insert(q, item);
        proof {
            let r2 = result@;
            assert(r2 == r.insert(q as int, item));
            assert forall|a: int| 0 <= a < r2.len() implies (#[trigger] r2[a]) < keys@.len() by {
                if a > q {
                    assert(r2[a] == r[a - 1]);
                }
            }
            assert forall|a: int, b: int| 0 <= a < b < r2.len() implies keys@[#[trigger] r2[a] as int]
                <= keys@[#[trigger] r2[b] as int] by {
                if a < q && b < q {
                } else if a < q && b == q {
                } else if a < q && b > q {
                    assert(r2[b] == r[b - 1]);
                    if q < r.len() {
                        assert(keys@[r[q as int] as int] > key);
                    }
                } else if a == q {
                    assert(r2[b] == r[b - 1]);
                    assert(keys@[r[q as int] as int] > key);
                    assert(keys@[r[q as int] as int] <= keys@[r[b - 1] as int] || q == b - 1);
                } else {
                    assert(r2[a] == r[a - 1] && r2[b] == r[b - 1]);
                }
            }
            assert forall|a: int, b: int|
                0 <= a < b < r2.len() && keys@[r2[a] as int] == keys@[r2[b] as int] implies initial.index_of(
                #[trigger] r2[a],
            ) < initial.index_of(#[trigger] r2[b]) by {
                if a < q && b == q {
                    assert(initial.index_of(r[a]) < i);
                } else if a == q {
                    assert(r2[b] == r[b - 1]);
                    assert(keys@[r[q as int] as int] > key);
                    assert(keys@[r[q as int] as int] <= keys@[r[b - 1] as int] || q == b - 1);
                } else if a < q && b > q {
                    assert(r2[b] == r[b - 1]);
                } else if a > q {
                    assert(r2[a] == r[a - 1] && r2[b] == r[b - 1]);
                }
            }
            assert forall|a: int| 0 <= a < r2.len() implies 0 <= initial.index_of(#[trigger] r2[a]) < i + 1 by {
                if a > q {
                    assert(r2[a] == r[a - 1]);
                } else if a < q {
                    assert(r2[a] == r[a]);
                }
            }
            assert forall|x: usize| r2.contains(x) <==> initial.subrange(0, i + 1).contains(x) by {
                if r2.contains(x) {
                    let a = choose|a: int| 0 <= a < r2.len() && r2[a] == x;
                    if a == q {
                        assert(initial.subrange(0, i + 1)[i as int] == x);
                    } else {
                        let a2 = if a < q { a } else { a - 1 };
                        assert(r[a2] == x);
                        assert(r.contains(x));
                        let k = choose|k: int| 0 <= k < i && #[trigger] initial.subrange(0, i as int)[k] == x;
                        assert(initial.subrange(0, i + 1)[k] == x);
                    }
                }
                if initial.subrange(0, i + 1).contains(x) {
                    let k = choose|k: int| 0 <= k < i + 1 && #[trigger] initial.subrange(0, i + 1)[k] == x;
                    if k == i {
                        assert(r2[q as int] == x);
                    } else {
                        assert(initial.subrange(0, i as int)[k] == x);
                        assert(r.contains(x));
                        let a = choose|a: int| 0 <= a < r.len() && r[a] == x;
                        if a < q {
                            assert(r2[a] == x);
                        } else {
                            assert(r2[a + 1] == x);
                        }
                    }
                }
            }
            assert forall|a: int, b: int| 0 <= a < b < r2.len() implies r2[a] != r2[b] by {
                if a == q {
                    assert(r2[b] == r[b - 1]);
                    assert(r.contains(r[b - 1]));
                } else if b == q {
                    assert(r2[a] == r[a]);
                    assert(r.contains(r[a]));
                } else {
                    let a2 = if a < q { a } else { a - 1 };
                    let b2 = if b < q { b } else { b - 1 };
                    assert(r2[a] == r[a2] && r2[b] == r[b2]);
                }
            }
        }
        i = i + 1;
    }
    proof {
        assert(initial.subrange(0, initial.len() as int) =~= initial);
    }
    *items = result;
}

} // verus!
