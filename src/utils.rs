//! Ordering, grouping and indexing of a sequence of items.
use std::cmp::Ordering;
use std::collections::HashMap;
use std::hash::Hash;
use vstd::prelude::*;
use vstd::seq_lib::{to_multiset_build, to_multiset_insert};
use vstd::std_specs::hash::obeys_key_model;

verus! {

/// `le` is a total preorder: any two items compare, and it is transitive.
pub open spec fn is_total_preorder<T>(le: spec_fn(T, T) -> bool) -> bool {
    &&& forall|a: T, b: T| #[trigger] le(a, b) || le(b, a)
    &&& forall|a: T, b: T, c: T| #[trigger] le(a, b) && #[trigger] le(b, c) ==> le(a, c)
}

/// Whatever `compare` answers agrees with `le`: it puts `a` after `b`
/// exactly when `le(a, b)` fails.
pub open spec fn agrees<T, F: Fn(&T, &T) -> Ordering>(compare: F, le: spec_fn(T, T) -> bool) -> bool {
    forall|a: T, b: T, o: Ordering| #[trigger]
        compare.ensures((&a, &b), o) ==> (o == Ordering::Greater <==> !le(a, b))
}

/// Every item stands no later than each item after it.
pub open spec fn is_ordered<T>(le: spec_fn(T, T) -> bool, s: Seq<T>) -> bool {
    forall|a: int, b: int| 0 <= a < b < s.len() ==> le(#[trigger] s[a], #[trigger] s[b])
}

/// `s[j]` is `items[from[j]]` for each `j`.
pub open spec fn drawn_from<T>(s: Seq<T>, items: Seq<T>, from: Seq<int>) -> bool {
    &&& from.len() == s.len()
    &&& forall|j: int| 0 <= j < s.len() ==> 0 <= #[trigger] from[j] < items.len() && s[j] == items[from[j]]
}

/// Items of `s` that are equal under `le` stand in the order of their
/// places `from` in the input.
pub open spec fn keeps_ties<T>(le: spec_fn(T, T) -> bool, s: Seq<T>, from: Seq<int>) -> bool {
    forall|a: int, b: int|
        0 <= a < b < s.len() && le(#[trigger] s[b], #[trigger] s[a]) ==> from[a] < from[b]
}

/// Ordered and stable under every total preorder that agrees with `compare`.
pub open spec fn sorted_stably<T, F: Fn(&T, &T) -> Ordering>(
    compare: F,
    s: Seq<T>,
    from: Seq<int>,
) -> bool {
    forall|le: spec_fn(T, T) -> bool|
        #[trigger] agrees(compare, le) && is_total_preorder(le) ==> is_ordered(le, s) && keeps_ties(
            le,
            s,
            from,
        )
}

/// A new sequence that holds the items of `vec`, each as often as there,
/// ordered by `compare`; items that compare equal keep their order.
pub fn order_by<T: Copy, F: Fn(&T, &T) -> Ordering>(vec: &Vec<T>, compare: F) -> (r: Vec<T>)
    requires
        forall|a: T, b: T| #[trigger] compare.requires((&a, &b)),
    ensures
        r@.to_multiset() == vec@.to_multiset(),
        exists|from: Seq<int>| drawn_from(r@, vec@, from) && sorted_stably(compare, r@, from),
{
    let mut ret: Vec<T> = Vec::new();
    let mut i: usize = 0;
    let ghost mut from: Seq<int> = Seq::empty();
    assert(vec@.take(0) =~= ret@);
    while i < vec.len()
        invariant
            i <= vec.len(),
            forall|a: T, b: T| #[trigger] compare.requires((&a, &b)),
            ret@.to_multiset() == vec@.take(i as int).to_multiset(),
            drawn_from(ret@, vec@, from),
            sorted_stably(compare, ret@, from),
            forall|j: int| 0 <= j < from.len() ==> #[trigger] from[j] < i,
        decreases vec.len() - i,
    {
        let x: T = vec[i];
        let mut k: usize = ret.len();
        loop
            invariant
                k <= ret.len(),
                forall|a: T, b: T| #[trigger] compare.requires((&a, &b)),
                forall|j: int|
                    k <= j < ret.len() ==> compare.ensures((&#[trigger] ret@[j], &x), Ordering::Greater),
            ensures
                k <= ret.len(),
                forall|j: int|
                    k <= j < ret.len() ==> compare.ensures((&#[trigger] ret@[j], &x), Ordering::Greater),
                k > 0 ==> exists|o: Ordering|
                    o != Ordering::Greater && #[trigger] compare.ensures((&ret@[k - 1], &x), o),
            decreases k,
        {
            if k == 0 {
                break;
            }
            let o = compare(&ret[k - 1], &x);
            match o {
                Ordering::Greater => {
                    k = k - 1;
                },
                _ => {
                    break;
                },
            }
        }
        let ghost before = ret@;
        let ghost from_before = from;
        proof {
            to_multiset_insert(before, k as int, x);
            to_multiset_build(vec@.take(i as int), x);
            assert(vec@.take(i + 1) =~= vec@.take(i as int).push(x));
        }
        ret.insert(k, x);
        proof {
            from = from.insert(k as int, i as int);
        }
        assert(ret@ =~= before.insert(k as int, x));
        assert forall|j: int| 0 <= j < ret@.len() implies 0 <= #[trigger] from[j] < vec@.len()
            && ret@[j] == vec@[from[j]] by {
            if j < k {
                assert(from[j] == from_before[j]);
            } else if j > k {
                assert(from[j] == from_before[j - 1]);
            }
        }
        assert forall|le: spec_fn(T, T) -> bool|
            #[trigger] agrees(compare, le) && is_total_preorder(le) implies is_ordered(le, ret@)
                && keeps_ties(le, ret@, from) by {
            assert(is_ordered(le, before) && keeps_ties(le, before, from_before));
            assert forall|j: int| k <= j < before.len() implies !le(#[trigger] before[j], x) by {
                assert(compare.ensures((&before[j], &x), Ordering::Greater));
            }
            if k > 0 {
                let o = choose|o: Ordering|
                    o != Ordering::Greater && #[trigger] compare.ensures((&before[k - 1], &x), o);
                assert(le(before[k - 1], x));
            }
            assert forall|a: int, b: int| 0 <= a < b < ret@.len() implies le(
                #[trigger] ret@[a],
                #[trigger] ret@[b],
            ) by {
                if b < k {
                    assert(ret@[a] == before[a] && ret@[b] == before[b]);
                } else if b == k {
                    assert(ret@[a] == before[a]);
                    if a < k - 1 {
                        assert(le(before[a], before[k - 1]));
                    }
                } else if a == k {
                    assert(ret@[b] == before[b - 1]);
                    assert(!le(before[b - 1], x));
                } else if a < k {
                    assert(ret@[a] == before[a] && ret@[b] == before[b - 1]);
                } else {
                    assert(ret@[a] == before[a - 1] && ret@[b] == before[b - 1]);
                }
            }
            assert forall|a: int, b: int|
                0 <= a < b < ret@.len() && le(#[trigger] ret@[b], #[trigger] ret@[a]) implies from[a]
                < from[b] by {
                if b < k {
                    assert(ret@[a] == before[a] && ret@[b] == before[b]);
                    assert(from[a] == from_before[a] && from[b] == from_before[b]);
                    assert(le(before[b], before[a]));
                } else if b == k {
                    assert(from[a] == from_before[a]);
                    assert(from[b] == i);
                } else if a == k {
                    assert(ret@[b] == before[b - 1]);
                    assert(!le(before[b - 1], x));
                } else if a < k {
                    assert(ret@[a] == before[a] && ret@[b] == before[b - 1]);
                    assert(from[a] == from_before[a] && from[b] == from_before[b - 1]);
                    assert(le(before[b - 1], before[a]));
                } else {
                    assert(ret@[a] == before[a - 1] && ret@[b] == before[b - 1]);
                    assert(from[a] == from_before[a - 1] && from[b] == from_before[b - 1]);
                    assert(le(before[b - 1], before[a - 1]));
                }
            }
        }
        i = i + 1;
    }
    assert(vec@.take(i as int) =~= vec@);
    assert(drawn_from(ret@, vec@, from) && sorted_stably(compare, ret@, from));
    ret
}

/// What `key` gives for `x`.
pub open spec fn key_of<T, K, F: Fn(&T) -> K>(key: F, x: T) -> K {
    choose|k: K| key.ensures((&x,), k)
}

/// The key function accepts every item and gives each item one key only.
pub open spec fn is_key_fn<T, K, F: Fn(&T) -> K>(key: F) -> bool {
    &&& forall|x: T| #[trigger] key.requires((&x,))
    &&& forall|x: T, k: K| #[trigger] key.ensures((&x,), k) ==> k == key_of(key, x)
}

/// The items of `items` whose key is `k`, in their order.
pub open spec fn group_of<T, K, F: Fn(&T) -> K>(items: Seq<T>, key: F, k: K) -> Seq<T>
    decreases items.len(),
{
    if items.len() == 0 {
        Seq::empty()
    } else {
        let g = group_of(items.drop_last(), key, k);
        if key_of(key, items.last()) == k {
            g.push(items.last())
        } else {
            g
        }
    }
}

/// The last item of `items` whose key is `k`.
pub open spec fn last_of<T, K, F: Fn(&T) -> K>(items: Seq<T>, key: F, k: K) -> Option<T>
    decreases items.len(),
{
    if items.len() == 0 {
        None
    } else if key_of(key, items.last()) == k {
        Some(items.last())
    } else {
        last_of(items.drop_last(), key, k)
    }
}

/// Maps each key that some item has to the items with that key, in their
/// order.
pub fn group_by<T: Copy, K: Eq + Hash, F: Fn(&T) -> K>(vec: &Vec<T>, func: F) -> (r: HashMap<
    K,
    Vec<T>,
>)
    requires
        obeys_key_model::<K>(),
        is_key_fn(func),
    ensures
        forall|j: int| 0 <= j < vec.len() ==> func.ensures((&#[trigger] vec@[j],), key_of(func, vec@[j])),
        forall|k: K| #[trigger]
            r@.contains_key(k) == (group_of(vec@, func, k).len() > 0),
        forall|k: K| #[trigger] r@.contains_key(k) ==> r@[k]@ == group_of(vec@, func, k),
{
    broadcast use vstd::std_specs::hash::group_hash_axioms;

    let mut ret: HashMap<K, Vec<T>> = HashMap::new();
    let mut i: usize = 0;
    while i < vec.len()
        invariant
            i <= vec.len(),
            obeys_key_model::<K>(),
            is_key_fn(func),
            forall|j: int| 0 <= j < i ==> func.ensures((&#[trigger] vec@[j],), key_of(func, vec@[j])),
            forall|k: K| #[trigger]
                ret@.contains_key(k) ==> ret@[k]@ == group_of(vec@.take(i as int), func, k)
                    && group_of(vec@.take(i as int), func, k).len() > 0,
            forall|k: K| #[trigger]
                ret@.contains_key(k) || group_of(vec@.take(i as int), func, k) == Seq::<T>::empty(),
        decreases vec.len() - i,
    {
        let item: T = vec[i];
        let key = func(&item);
        assert(vec@.take(i + 1).drop_last() =~= vec@.take(i as int));
        assert(vec@.take(i + 1).last() == item);
        match ret.remove(&key) {
            Some(mut group) => {
                group.push(item);
                ret.insert(key, group);
            },
            None => {
                let mut group: Vec<T> = Vec::new();
                group.push(item);
                assert(group@ =~= Seq::<T>::empty().push(item));
                ret.insert(key, group);
            },
        }
        i = i + 1;
    }
    assert(vec@.take(i as int) =~= vec@);
    ret
}

/// Maps each key that some item has to the last item with that key.
pub fn index_by<T: Copy, K: Eq + Hash, F: Fn(&T) -> K>(vec: &Vec<T>, func: F) -> (r: HashMap<K, T>)
    requires
        obeys_key_model::<K>(),
        is_key_fn(func),
    ensures
        forall|j: int| 0 <= j < vec.len() ==> func.ensures((&#[trigger] vec@[j],), key_of(func, vec@[j])),
        forall|k: K| #[trigger] r@.contains_key(k) == last_of(vec@, func, k).is_some(),
        forall|k: K| #[trigger] r@.contains_key(k) ==> last_of(vec@, func, k) == Some(r@[k]),
{
    broadcast use vstd::std_specs::hash::group_hash_axioms;

    let mut ret: HashMap<K, T> = HashMap::new();
    let mut i: usize = 0;
    while i < vec.len()
        invariant
            i <= vec.len(),
            obeys_key_model::<K>(),
            is_key_fn(func),
            forall|j: int| 0 <= j < i ==> func.ensures((&#[trigger] vec@[j],), key_of(func, vec@[j])),
            forall|k: K| #[trigger]
                ret@.contains_key(k) == last_of(vec@.take(i as int), func, k).is_some(),
            forall|k: K| #[trigger]
                ret@.contains_key(k) ==> last_of(vec@.take(i as int), func, k) == Some(ret@[k]),
        decreases vec.len() - i,
    {
        let item: T = vec[i];
        let key = func(&item);
        assert(vec@.take(i + 1).drop_last() =~= vec@.take(i as int));
        assert(vec@.take(i + 1).last() == item);
        ret.insert(key, item);
        i = i + 1;
    }
    assert(vec@.take(i as int) =~= vec@);
    ret
}

} // verus!
