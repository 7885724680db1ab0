//! A two-level map that is "oriented" by one outer key at a time: once
//! oriented, `get` reads the inner map that the orientation selects.

use std::collections::HashMap;
use std::hash::Hash;
use vstd::prelude::*;
use vstd::std_specs::hash::obeys_key_model;

verus! {

broadcast use vstd::std_specs::hash::group_hash_axioms;

/// The map that a sequence of entries describes (the first entry of a key is
/// the one that stays when a key occurs twice).
pub open spec fn entries_map<K, V>(entries: Seq<(K, V)>) -> Map<K, V>
    decreases entries.len(),
{
    if entries.len() == 0 {
        Map::empty()
    } else {
        entries_map(entries.drop_first()).insert(entries[0].0, entries[0].1)
    }
}

/// No key occurs twice among the entries.
pub open spec fn entry_keys_distinct<K, V>(entries: Seq<(K, V)>) -> bool {
    forall|i: int, j: int| 0 <= i < j < entries.len() ==> entries[i].0 != entries[j].0
}

/// `Vec::from_iter` over a `HashMap`: every entry of the map once,
/// in an order that the hasher decides. Claimed: for keys that obey the hash
/// table key model, no key repeats and the entries describe the map exactly.
/// The order is not stated.
#[verifier::external_body]
fn hash_map_entries<K, V>(map: HashMap<K, V>) -> (entries: Vec<(K, V)>)
    ensures
        obeys_key_model::<K>() ==> entry_keys_distinct(entries@) && entries_map(entries@)
            == map@,
{
    Vec::from_iter(map)
}

/// The outer map after `key` is set, in the inner map of each outer key of
/// `added`, to the value that `added` gives that outer key.
pub open spec fn with_individual<VK, K, V>(
    values: Map<VK, Map<K, V>>,
    key: K,
    added: Map<VK, V>,
) -> Map<VK, Map<K, V>> {
    Map::new(
        |view_key: VK| values.contains_key(view_key) || added.contains_key(view_key),
        |view_key: VK|
            if added.contains_key(view_key) {
                if values.contains_key(view_key) {
                    values[view_key].insert(key, added[view_key])
                } else {
                    Map::empty().insert(key, added[view_key])
                }
            } else {
                values[view_key]
            },
    )
}

/// The outer map after, for each key `k` of `added` and each outer key `vk` of
/// `added[k]`, the inner map of `vk` has been given `k => added[k][vk]`.
pub open spec fn with_partial<VK, K, V>(
    values: Map<VK, Map<K, V>>,
    added: Map<K, Map<VK, V>>,
) -> Map<VK, Map<K, V>> {
    Map::new(
        |view_key: VK|
            values.contains_key(view_key) || exists|k: K|
                #[trigger] added.contains_key(k) && added[k].contains_key(view_key),
        |view_key: VK|
            Map::new(
                |k: K|
                    (values.contains_key(view_key) && values[view_key].contains_key(k)) || (
                    added.contains_key(k) && added[k].contains_key(view_key)),
                |k: K|
                    if added.contains_key(k) && added[k].contains_key(view_key) {
                        added[k][view_key]
                    } else {
                        values[view_key][k]
                    },
            ),
    )
}

proof fn lemma_entries_map_keys<K, V>(entries: Seq<(K, V)>, k: K)
    ensures
        entries_map(entries).contains_key(k) <==> exists|i: int|
            0 <= i < entries.len() && #[trigger] entries[i].0 == k,
    decreases entries.len(),
{
    if entries.len() > 0 {
        lemma_entries_map_keys(entries.drop_first(), k);
        if entries_map(entries).contains_key(k) && entries[0].0 != k {
            let i = choose|i: int| 0 <= i < entries.drop_first().len() && #[trigger] entries.drop_first()[i].0 == k;
            assert(entries[i + 1].0 == k);
        }
        if exists|i: int| 0 <= i < entries.len() && #[trigger] entries[i].0 == k {
            let i = choose|i: int| 0 <= i < entries.len() && #[trigger] entries[i].0 == k;
            if i > 0 {
                assert(entries.drop_first()[i - 1].0 == k);
            }
        }
    }
}

proof fn lemma_with_individual_step<VK, K, V>(
    start: Map<VK, Map<K, V>>,
    key: K,
    added: Map<VK, V>,
    view_key: VK,
    value: V,
)
    requires
        !added.contains_key(view_key),
    ensures
        ({
            let before = with_individual(start, key, added);
            let inner = if before.contains_key(view_key) {
                before[view_key]
            } else {
                Map::empty()
            };
            with_individual(start, key, added.insert(view_key, value)) == before.insert(
                view_key,
                inner.insert(key, value),
            )
        }),
{
    let before = with_individual(start, key, added);
    let inner = if before.contains_key(view_key) {
        before[view_key]
    } else {
        Map::empty()
    };
    assert(with_individual(start, key, added.insert(view_key, value)) =~= before.insert(
        view_key,
        inner.insert(key, value),
    ));
}

proof fn lemma_with_partial_empty<VK, K, V>(start: Map<VK, Map<K, V>>)
    ensures
        with_partial(start, Map::<K, Map<VK, V>>::empty()) == start,
{
    let p = with_partial(start, Map::<K, Map<VK, V>>::empty());
    assert forall|vk: VK| #[trigger] start.contains_key(vk) implies p[vk] =~= start[vk] by {}
    assert(p =~= start);
}

proof fn lemma_with_partial_step<VK, K, V>(
    start: Map<VK, Map<K, V>>,
    added: Map<K, Map<VK, V>>,
    key: K,
    inner: Map<VK, V>,
)
    requires
        !added.contains_key(key),
    ensures
        with_partial(start, added.insert(key, inner)) == with_individual(
            with_partial(start, added),
            key,
            inner,
        ),
{
    let a2 = added.insert(key, inner);
    let lhs = with_partial(start, a2);
    let mid = with_partial(start, added);
    let rhs = with_individual(mid, key, inner);
    assert forall|vk: VK| lhs.contains_key(vk) <==> rhs.contains_key(vk) by {
        if lhs.contains_key(vk) && !start.contains_key(vk) && !inner.contains_key(vk) {
            let w = choose|w: K| #[trigger] a2.contains_key(w) && a2[w].contains_key(vk);
            assert(w != key);
            assert(added.contains_key(w) && added[w].contains_key(vk));
            assert(mid.contains_key(vk));
        }
        if rhs.contains_key(vk) && !start.contains_key(vk) && !inner.contains_key(vk) {
            assert(mid.contains_key(vk));
            let w = choose|w: K| #[trigger] added.contains_key(w) && added[w].contains_key(vk);
            assert(a2.contains_key(w) && a2[w].contains_key(vk));
        }
        if inner.contains_key(vk) {
            assert(a2.contains_key(key) && a2[key].contains_key(vk));
        }
    }
    assert forall|vk: VK| #[trigger] lhs.contains_key(vk) implies lhs[vk] =~= rhs[vk] by {
        if !inner.contains_key(vk) && !start.contains_key(vk) {
            let w = choose|w: K| #[trigger] a2.contains_key(w) && a2[w].contains_key(vk);
            assert(added.contains_key(w) && added[w].contains_key(vk));
        }
        if inner.contains_key(vk) && !mid.contains_key(vk) {
            assert forall|k: K| !(#[trigger] added.contains_key(k) && added[k].contains_key(vk)) by {
                if added.contains_key(k) && added[k].contains_key(vk) {
                    assert(mid.contains_key(vk));
                }
            }
        }
    }
    assert(lhs =~= rhs);
}

/// Inserting a partial map that holds one key does what inserting that key's
/// inner map individually does.
pub proof fn lemma_partial_of_one_is_individual<VK, K, V>(
    values: Map<VK, Map<K, V>>,
    key: K,
    inner: Map<VK, V>,
)
    ensures
        with_partial(values, Map::<K, Map<VK, V>>::empty().insert(key, inner)) == with_individual(
            values,
            key,
            inner,
        ),
{
    lemma_with_partial_empty(values);
    lemma_with_partial_step(values, Map::<K, Map<VK, V>>::empty(), key, inner);
}

/// The outer map after the keys of `keys`, in that order, have each been
/// inserted individually with their inner map in `added`.
pub open spec fn with_individuals<VK, K, V>(
    values: Map<VK, Map<K, V>>,
    keys: Seq<K>,
    added: Map<K, Map<VK, V>>,
) -> Map<VK, Map<K, V>>
    decreases keys.len(),
{
    if keys.len() == 0 {
        values
    } else {
        with_individual(with_individuals(values, keys.drop_last(), added), keys.last(), added[keys.last()])
    }
}

proof fn lemma_with_individuals_agree<VK, K, V>(
    values: Map<VK, Map<K, V>>,
    keys: Seq<K>,
    a: Map<K, Map<VK, V>>,
    b: Map<K, Map<VK, V>>,
)
    requires
        forall|i: int| 0 <= i < keys.len() ==> a[#[trigger] keys[i]] == b[keys[i]],
    ensures
        with_individuals(values, keys, a) == with_individuals(values, keys, b),
    decreases keys.len(),
{
    if keys.len() > 0 {
        assert forall|i: int| 0 <= i < keys.drop_last().len() implies a[#[trigger] keys.drop_last()[i]]
            == b[keys.drop_last()[i]] by {
            assert(keys.drop_last()[i] == keys[i]);
        }
        lemma_with_individuals_agree(values, keys.drop_last(), a, b);
        assert(a[keys.last()] == b[keys[keys.len() - 1]]);
    }
}

/// Inserting a partial map does what inserting each of its keys' inner maps
/// individually does, one after the other, in any order of the keys.
pub proof fn lemma_partial_is_individuals<VK, K, V>(
    values: Map<VK, Map<K, V>>,
    added: Map<K, Map<VK, V>>,
    keys: Seq<K>,
)
    requires
        keys.no_duplicates(),
        forall|k: K| #[trigger] added.contains_key(k) <==> keys.contains(k),
    ensures
        with_partial(values, added) == with_individuals(values, keys, added),
    decreases keys.len(),
{
    if keys.len() == 0 {
        assert(added =~= Map::<K, Map<VK, V>>::empty()) by {
            assert forall|k: K| !added.contains_key(k) by {
                if added.contains_key(k) {
                    assert(keys.contains(k));
                }
            }
        }
        lemma_with_partial_empty(values);
    } else {
        let last = keys.last();
        let rest = keys.drop_last();
        let fewer = added.remove(last);
        assert forall|k: K| #[trigger] fewer.contains_key(k) <==> rest.contains(k) by {
            if rest.contains(k) {
                let i = choose|i: int| 0 <= i < rest.len() && rest[i] == k;
                assert(keys[i] == k);
                assert(keys.contains(k));
                assert(k != last) by {
                    assert(keys[keys.len() - 1] == last);
                }
            }
            if fewer.contains_key(k) {
                assert(keys.contains(k));
                let i = choose|i: int| 0 <= i < keys.len() && keys[i] == k;
                assert(i != keys.len() - 1);
                assert(rest[i] == k);
            }
        }
        assert(rest.no_duplicates()) by {
            assert forall|i: int, j: int| 0 <= i < rest.len() && 0 <= j < rest.len() && i != j implies rest[i]
                != rest[j] by {
                assert(rest[i] == keys[i] && rest[j] == keys[j]);
            }
        }
        lemma_partial_is_individuals(values, fewer, rest);
        assert forall|i: int| 0 <= i < rest.len() implies fewer[#[trigger] rest[i]] == added[rest[i]] by {
            assert(rest[i] == keys[i]);
            assert(keys[i] != keys[keys.len() - 1]);
        }
        lemma_with_individuals_agree(values, rest, fewer, added);
        assert(keys.contains(last)) by {
            assert(keys[keys.len() - 1] == last);
        }
        assert(added.contains_key(last));
        lemma_with_partial_step(values, fewer, last, added[last]);
        assert(fewer.insert(last, added[last]) =~= added);
    }
}

proof fn lemma_entries_map_views<K, VK, V>(
    entries: Seq<(K, HashMap<VK, V>)>,
    views: Seq<(K, Map<VK, V>)>,
)
    requires
        views.len() == entries.len(),
        forall|i: int| 0 <= i < entries.len() ==> #[trigger] views[i] == (entries[i].0, entries[i].1@),
    ensures
        entries_map(views) == entries_map(entries).map_values(|inner: HashMap<VK, V>| inner@),
    decreases entries.len(),
{
    if entries.len() > 0 {
        assert forall|i: int| 0 <= i < entries.drop_first().len() implies #[trigger] views.drop_first()[i]
            == (entries.drop_first()[i].0, entries.drop_first()[i].1@) by {
            assert(views[i + 1] == (entries[i + 1].0, entries[i + 1].1@));
        }
        lemma_entries_map_views(entries.drop_first(), views.drop_first());
        assert(views[0] == (entries[0].0, entries[0].1@));
        assert(entries_map(views) =~= entries_map(entries).map_values(
            |inner: HashMap<VK, V>| inner@,
        ));
    } else {
        assert(entries_map(views) =~= entries_map(entries).map_values(
            |inner: HashMap<VK, V>| inner@,
        ));
    }
}

/// A map with two layers of keys, oriented by at most one outer key at a time.
#[verifier::reject_recursive_types(TViewKey)]
#[verifier::reject_recursive_types(TKey)]
#[verifier::reject_recursive_types(TValue)]
pub struct MappedView<TViewKey, TKey, TValue> {
    value_per_key_per_view_key: HashMap<TViewKey, HashMap<TKey, TValue>>,
    view_key: Option<TViewKey>,
}

impl<TViewKey: Eq + Hash, TKey: Eq + Hash + Copy, TValue> MappedView<TViewKey, TKey, TValue> {
    /// Both key types obey the hash table key model (integers do).
    pub open spec fn keys_obey_model() -> bool {
        obeys_key_model::<TViewKey>() && obeys_key_model::<TKey>()
    }

    /// For each outer key, its inner map.
    pub closed spec fn values(&self) -> Map<TViewKey, Map<TKey, TValue>> {
        self.value_per_key_per_view_key@.map_values(|inner: HashMap<TKey, TValue>| inner@)
    }

    /// The outer key that the view is oriented by, if any.
    pub closed spec fn orientation(&self) -> Option<TViewKey> {
        self.view_key
    }

    /// What `get` reads for `key` in the current orientation.
    pub open spec fn current(&self, key: TKey) -> Option<TValue> {
        match self.orientation() {
            Some(view_key) => if self.values().contains_key(view_key)
                && self.values()[view_key].contains_key(key) {
                Some(self.values()[view_key][key])
            } else {
                None
            },
            None => None,
        }
    }

    /// A view that was given the inner map `map` for `view_key` and then
    /// oriented by `view_key` reads, for every key, what `map` holds for it.
    pub proof fn lemma_read_after_write(
        before: Self,
        after: Self,
        view_key: TViewKey,
        map: Map<TKey, TValue>,
        key: TKey,
    )
        requires
            after.values() == before.values().insert(view_key, map),
            after.orientation() == Some(view_key),
        ensures
            after.current(key) == if map.contains_key(key) {
                Some(map[key])
            } else {
                None
            },
    {
    }

    /// A view that is oriented by nothing reads nothing.
    pub proof fn lemma_reset_reads_nothing(view: Self, key: TKey)
        requires
            view.orientation() == None::<TViewKey>,
        ensures
            view.current(key) == None::<TValue>,
    {
    }

    /// An empty view, oriented by nothing.
    pub fn new() -> (view: Self)
        ensures
            view.values() == Map::<TViewKey, Map<TKey, TValue>>::empty(),
            view.orientation() == None::<TViewKey>,
    {
        let view = MappedView { value_per_key_per_view_key: HashMap::new(), view_key: Option::None };
        assert(view.values() =~= Map::<TViewKey, Map<TKey, TValue>>::empty());
        view
    }

    /// Sets the inner map of `view_key` to `map`.
    pub fn insert(&mut self, view_key: TViewKey, map: HashMap<TKey, TValue>)
        ensures
            Self::keys_obey_model() ==> final(self).values() == old(self).values().insert(
                view_key,
                map@,
            ),
            final(self).orientation() == old(self).orientation(),
    {
        self.value_per_key_per_view_key.insert(view_key, map);
        proof {
            if Self::keys_obey_model() {
                assert(self.values() =~= old(self).values().insert(view_key, map@));
            }
        }
    }

    /// For each entry `view_key => value` of `map`, sets `key => value` in the
    /// inner map of `view_key` (creating that inner map if needed).
    pub fn insert_individual(&mut self, key: TKey, map: HashMap<TViewKey, TValue>)
        ensures
            Self::keys_obey_model() ==> final(self).values() == with_individual(
                old(self).values(),
                key,
                map@,
            ),
            final(self).orientation() == old(self).orientation(),
    {
        let mut entries = hash_map_entries(map);
        let ghost all = entries@;
        let ghost start = self.values();
        proof {
            if Self::keys_obey_model() {
                assert(start =~= with_individual(start, key, Map::<TViewKey, TValue>::empty()));
            }
        }
        while entries.len() > 0
            invariant
                all.len() >= entries.len(),
                entries@ == all.subrange(0, entries@.len() as int),
                Self::keys_obey_model() ==> entry_keys_distinct(all),
                Self::keys_obey_model() ==> self.values() == with_individual(
                    start,
                    key,
                    entries_map(all.subrange(entries@.len() as int, all.len() as int)),
                ),
                self.orientation() == old(self).orientation(),
            decreases entries.len(),
        {
            let ghost rest = all.subrange(entries@.len() as int, all.len() as int);
            let (view_key, value) = entries.pop().unwrap();
            let ghost k = entries@.len() as int;
            let ghost rest2 = all.subrange(k, all.len() as int);
            proof {
                assert(rest2 =~= seq![(view_key, value)] + rest);
                assert(rest2.drop_first() =~= rest);
            }
            let mut inner = match self.value_per_key_per_view_key.remove(&view_key) {
                Some(inner) => inner,
                None => HashMap::new(),
            };
            inner.insert(key, value);
            self.value_per_key_per_view_key.insert(view_key, inner);
            proof {
                if Self::keys_obey_model() {
                    lemma_entries_map_keys(rest, view_key);
                    if entries_map(rest).contains_key(view_key) {
                        let i = choose|i: int| 0 <= i < rest.len() && #[trigger] rest[i].0 == view_key;
                        assert(all[k + 1 + i].0 == view_key);
                        assert(all[k].0 == view_key);
                    }
                    lemma_with_individual_step(start, key, entries_map(rest), view_key, value);
                    assert(self.values() =~= with_individual(start, key, entries_map(rest2)));
                }
            }
        }
        proof {
            assert(all.subrange(0, all.len() as int) =~= all);
        }
    }

    /// For each `key => inner` of `map`, does `insert_individual(key, inner)`.
    pub fn insert_partial(&mut self, map: HashMap<TKey, HashMap<TViewKey, TValue>>)
        ensures
            Self::keys_obey_model() ==> final(self).values() == with_partial(
                old(self).values(),
                map@.map_values(|inner: HashMap<TViewKey, TValue>| inner@),
            ),
            final(self).orientation() == old(self).orientation(),
    {
        let mut entries = hash_map_entries(map);
        let ghost all = entries@;
        let ghost start = self.values();
        let ghost all_views = Seq::new(
            all.len(),
            |i: int| (all[i].0, all[i].1@),
        );
        proof {
            if Self::keys_obey_model() {
                lemma_with_partial_empty(start);
            }
        }
        while entries.len() > 0
            invariant
                all.len() >= entries.len(),
                all_views.len() == all.len(),
                forall|i: int| 0 <= i < all.len() ==> #[trigger] all_views[i] == (all[i].0, all[i].1@),
                entries@ == all.subrange(0, entries@.len() as int),
                Self::keys_obey_model() ==> entry_keys_distinct(all),
                Self::keys_obey_model() ==> self.values() == with_partial(
                    start,
                    entries_map(all_views.subrange(entries@.len() as int, all.len() as int)),
                ),
                self.orientation() == old(self).orientation(),
            decreases entries.len(),
        {
            let ghost k = entries@.len() as int - 1;
            let ghost rest = all_views.subrange(k + 1, all.len() as int);
            let ghost rest2 = all_views.subrange(k, all.len() as int);
            let (key, inner) = entries.pop().unwrap();
            proof {
                assert(rest2.drop_first() =~= rest);
                assert(rest2[0] == (key, inner@));
            }
            self.insert_individual(key, inner);
            proof {
                if Self::keys_obey_model() {
                    lemma_entries_map_keys(rest, key);
                    if entries_map(rest).contains_key(key) {
                        let i = choose|i: int| 0 <= i < rest.len() && #[trigger] rest[i].0 == key;
                        assert(all[k + 1 + i].0 == key);
                        assert(all[k].0 == key);
                    }
                    let a = entries_map(rest);
                    let a2 = entries_map(rest2);
                    assert(a2 == a.insert(key, inner@));
                    lemma_with_partial_step(start, a, key, inner@);
                }
            }
        }
        proof {
            if Self::keys_obey_model() {
                assert(all_views.subrange(0, all.len() as int) =~= all_views);
                lemma_entries_map_views(all, all_views);
            }
        }
    }

    /// The value of `key` in the current orientation, if the view is oriented
    /// and the value is there.
    pub fn get(&self, key: &TKey) -> (value: Option<&TValue>)
        ensures
            self.orientation() == None::<TViewKey> ==> value == None::<&TValue>,
            Self::keys_obey_model() ==> match value {
                Some(v) => self.current(*key) == Some(*v),
                None => self.current(*key) == None::<TValue>,
            },
    {
        match &self.view_key {
            Some(view_key) => match self.value_per_key_per_view_key.get(view_key) {
                Some(inner) => inner.get(key),
                None => None,
            },
            None => None,
        }
    }

    /// Orients the view by `view_key`.
    pub fn orient(&mut self, view_key: TViewKey)
        ensures
            final(self).values() == old(self).values(),
            final(self).orientation() == Some(view_key),
    {
        self.view_key = Some(view_key);
    }

    /// Removes the orientation.
    pub fn reset(&mut self)
        ensures
            final(self).values() == old(self).values(),
            final(self).orientation() == None::<TViewKey>,
    {
        self.view_key = None;
    }
}

} // verus!
