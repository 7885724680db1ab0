//! The masks that a node in each of its states places on its neighbors, built
//! from the node state collections, and the mapped view of each node.

use crate::indexed_view::NeighborMaskView;
use crate::mapped_view::{with_individual, MappedView};
use crate::mask::{mask_bits, mask_capacity, new_mask, push_mask_bit, Mask};
use crate::node::{
    find_collection, find_string, lemma_collection_index_upto, strings_view, Node,
    NodeStateCollection,
};
use crate::validation::{adjacency_matches, has_duplicate_state, ids_distinct};
use crate::wave_function::{collections_resolve, is_listing, listed_collection};
use std::collections::HashMap;
use vstd::prelude::*;

verus! {

broadcast use vstd::std_specs::hash::group_hash_axioms;

/// Bit `s` of `mask` tells whether `collection` permits `states[s]`.
pub open spec fn mask_matches(mask: Mask, collection: NodeStateCollection, states: Seq<Seq<char>>) -> bool {
    &&& mask_bits(mask).len() == states.len()
    &&& forall|s: int|
        #![trigger mask_bits(mask)[s]]
        0 <= s < states.len() ==> mask_bits(mask)[s] == collection.permitted_view().contains(
            states[s],
        )
}

/// The mask of `collection` over `states`.
pub fn build_mask(collection: &NodeStateCollection, states: &Vec<String>) -> (mask: Mask)
    requires
        states@.len() <= mask_capacity(),
    ensures
        mask_matches(mask, *collection, strings_view(states@)),
{
    let ghost sv = strings_view(states@);
    let permitted = collection.get_node_state_ids();
    let mut mask = new_mask();
    let mut s: usize = 0;
    while s < states.len()
        invariant
            sv == strings_view(states@),
            states@.len() <= mask_capacity(),
            strings_view(permitted@) == collection.permitted_view(),
            s <= states@.len(),
            mask_bits(mask).len() == s,
            forall|s2: int|
                #![trigger mask_bits(mask)[s2]]
                0 <= s2 < s ==> mask_bits(mask)[s2] == collection.permitted_view().contains(sv[s2]),
        decreases states@.len() - s,
    {
        let found = find_string(permitted, &states[s]);
        let bit = found.is_some();
        proof {
            let pv = collection.permitted_view();
            assert(sv[s as int] == states@[s as int]@);
            match found {
                Some(i) => {
                    assert(pv[i as int] == permitted@[i as int]@);
                },
                None => {
                    assert forall|k: int| 0 <= k < pv.len() implies pv[k] != sv[s as int] by {
                        assert(pv[k] == permitted@[k]@);
                    }
                },
            }
        }
        let ghost before = mask_bits(mask);
        push_mask_bit(&mut mask, bit);
        proof {
            assert forall|s2: int|
                #![trigger mask_bits(mask)[s2]]
                0 <= s2 < s + 1 implies mask_bits(mask)[s2] == collection.permitted_view().contains(
                sv[s2],
            ) by {
                if s2 < s {
                    assert(mask_bits(mask)[s2] == before[s2]);
                }
            }
        }
        s = s + 1;
    }
    mask
}

/// Every collection that entry `e` of node `x` lists is about one of `states`.
pub open spec fn entry_states_known(
    nodes: Seq<Node>,
    collections: Seq<NodeStateCollection>,
    states: Seq<Seq<char>>,
    x: int,
    e: int,
) -> bool {
    forall|c: int|
        #![trigger listed_collection(nodes, collections, x, e, c)]
        is_listing(nodes, x, e, c) ==> states.contains(
            listed_collection(nodes, collections, x, e, c).state_view(),
        )
}

/// For entry `e` of node `x`: per state index, the mask that the collection
/// about that state places on the neighbor.
pub fn build_entry_masks(
    nodes: &Vec<Node>,
    collections: &Vec<NodeStateCollection>,
    states: &Vec<String>,
    x: usize,
    e: usize,
) -> (masks: HashMap<usize, Mask>)
    requires
        collections_resolve(nodes@, collections@),
        x < nodes@.len(),
        e < nodes@[x as int].entries().len(),
        !has_duplicate_state(nodes@, collections@, x as int, e as int),
        entry_states_known(nodes@, collections@, strings_view(states@), x as int, e as int),
        strings_view(states@).no_duplicates(),
        states@.len() <= mask_capacity(),
    ensures
        forall|t: usize| #[trigger]
            masks@.contains_key(t) ==> mask_bits(masks@[t]).len() == states@.len(),
        forall|t: usize|
            #[trigger] masks@.contains_key(t) ==> exists|c: int|
                #![trigger listed_collection(nodes@, collections@, x as int, e as int, c)]
                is_listing(nodes@, x as int, e as int, c) && (t as int) < states@.len()
                    && strings_view(states@)[t as int] == listed_collection(
                    nodes@,
                    collections@,
                    x as int,
                    e as int,
                    c,
                ).state_view() && mask_matches(
                    masks@[t],
                    listed_collection(nodes@, collections@, x as int, e as int, c),
                    strings_view(states@),
                ),
        forall|c: int, t: int|
            #![trigger listed_collection(nodes@, collections@, x as int, e as int, c), strings_view(states@)[t]]
            is_listing(nodes@, x as int, e as int, c) && 0 <= t < states@.len() && strings_view(
                states@,
            )[t] == listed_collection(nodes@, collections@, x as int, e as int, c).state_view()
                ==> masks@.contains_key(t as usize) && mask_matches(
                masks@[t as usize],
                listed_collection(nodes@, collections@, x as int, e as int, c),
                strings_view(states@),
            ),
{
    let ghost ns = nodes@;
    let ghost cs = collections@;
    let ghost sv = strings_view(states@);
    let collection_ids = nodes[x].neighbor_collection_ids(e);
    let mut masks: HashMap<usize, Mask> = HashMap::new();
    let mut c: usize = 0;
    while c < collection_ids.len()
        invariant
            ns == nodes@,
            cs == collections@,
            sv == strings_view(states@),
            collections_resolve(ns, cs),
            x < ns.len(),
            e < ns[x as int].entries().len(),
            strings_view(collection_ids@) == ns[x as int].entries()[e as int].1,
            !has_duplicate_state(ns, cs, x as int, e as int),
            entry_states_known(ns, cs, sv, x as int, e as int),
            sv.no_duplicates(),
            states@.len() <= mask_capacity(),
            c <= collection_ids@.len(),
            forall|t: usize| #[trigger]
                masks@.contains_key(t) ==> mask_bits(masks@[t]).len() == states@.len(),
            forall|t: usize|
                #[trigger] masks@.contains_key(t) ==> exists|c2: int|
                    #![trigger listed_collection(ns, cs, x as int, e as int, c2)]
                    is_listing(ns, x as int, e as int, c2) && (t as int) < sv.len() && sv[t as int]
                        == listed_collection(ns, cs, x as int, e as int, c2).state_view()
                        && mask_matches(
                        masks@[t],
                        listed_collection(ns, cs, x as int, e as int, c2),
                        sv,
                    ),
            forall|c2: int, t: int|
                #![trigger listed_collection(ns, cs, x as int, e as int, c2), sv[t]]
                0 <= c2 < c && 0 <= t < sv.len() && sv[t] == listed_collection(
                    ns,
                    cs,
                    x as int,
                    e as int,
                    c2,
                ).state_view() ==> masks@.contains_key(t as usize) && mask_matches(
                    masks@[t as usize],
                    listed_collection(ns, cs, x as int, e as int, c2),
                    sv,
                ),
        decreases collection_ids@.len() - c,
    {
        proof {
            assert(is_listing(ns, x as int, e as int, c as int));
            assert(ns[x as int].entries()[e as int].1[c as int] == collection_ids@[c as int]@);
            lemma_collection_index_upto(cs, collection_ids@[c as int]@, cs.len() as int);
        }
        let k = find_collection(collections, &collection_ids[c]).unwrap();
        let collection = &collections[k];
        let ghost listed = listed_collection(ns, cs, x as int, e as int, c as int);
        assert(*collection == listed);
        proof {
            assert(sv.contains(listed.state_view()));
        }
        let found = find_string(states, collection.get_node_state_id());
        proof {
            if found is None {
                let t = choose|t: int| 0 <= t < sv.len() && sv[t] == listed.state_view();
                assert(sv[t] == states@[t]@);
            }
        }
        let t = found.unwrap();
        proof {
            assert(sv[t as int] == states@[t as int]@);
        }
        let mask = build_mask(collection, states);
        let ghost before = masks@;
        masks.insert(t, mask);
        proof {
            assert forall|t2: usize|
                #[trigger] masks@.contains_key(t2) implies exists|c2: int|
                    #![trigger listed_collection(ns, cs, x as int, e as int, c2)]
                    is_listing(ns, x as int, e as int, c2) && (t2 as int) < sv.len() && sv[t2 as int]
                        == listed_collection(ns, cs, x as int, e as int, c2).state_view()
                        && mask_matches(
                        masks@[t2],
                        listed_collection(ns, cs, x as int, e as int, c2),
                        sv,
                    ) by {
                if t2 == t {
                    assert(is_listing(ns, x as int, e as int, c as int));
                    assert(listed_collection(ns, cs, x as int, e as int, c as int) == listed);
                } else {
                    assert(before.contains_key(t2));
                }
            }
            assert forall|c2: int, t2: int|
                #![trigger listed_collection(ns, cs, x as int, e as int, c2), sv[t2]]
                0 <= c2 < c + 1 && 0 <= t2 < sv.len() && sv[t2] == listed_collection(
                    ns,
                    cs,
                    x as int,
                    e as int,
                    c2,
                ).state_view() implies masks@.contains_key(t2 as usize) && mask_matches(
                masks@[t2 as usize],
                listed_collection(ns, cs, x as int, e as int, c2),
                sv,
            ) by {
                if c2 < c {
                    let other = listed_collection(ns, cs, x as int, e as int, c2);
                    if t2 == t as int {
                        assert(other.state_view() == listed.state_view());
                        assert(!has_duplicate_state(ns, cs, x as int, e as int));
                        assert(false);
                    }
                } else {
                    assert(sv.no_duplicates());
                    if t2 != t as int {
                        assert(sv[t2] == sv[t as int]);
                        assert(false);
                    }
                }
            }
        }
        c = c + 1;
    }
    masks
}

/// What the mapped view of node `y` holds: every mask is keyed by a node that
/// `y` lists and has one bit per state; and for each collection that entry `e`
/// of `y` lists, oriented by the index of that collection's state the view
/// holds, under the index of the neighbor that the entry names, the
/// collection's mask.
pub open spec fn view_holds_masks(
    view: NeighborMaskView,
    nodes: Seq<Node>,
    collections: Seq<NodeStateCollection>,
    states: Seq<Seq<char>>,
    adjacency: Seq<Vec<usize>>,
    y: int,
) -> bool {
    &&& forall|t: usize, k: usize|
        view.values().contains_key(t) && #[trigger] view.values()[t].contains_key(k) ==> exists|
            e: int,
            c: int,
        |
            #![trigger listed_collection(nodes, collections, y, e, c)]
            is_listing(nodes, y, e, c) && adjacency[y]@[e] == k && (t as int) < states.len()
                && states[t as int] == listed_collection(nodes, collections, y, e, c).state_view()
                && mask_matches(view.values()[t][k], listed_collection(nodes, collections, y, e, c), states)
    &&& forall|t: usize, k: usize|
        view.values().contains_key(t) && #[trigger] view.values()[t].contains_key(k) ==> adjacency[y]@.contains(
            k,
        ) && mask_bits(view.values()[t][k]).len() == states.len()
    &&& forall|e: int, c: int, t: int|
        #![trigger listed_collection(nodes, collections, y, e, c), states[t]]
        is_listing(nodes, y, e, c) && 0 <= t < states.len() && states[t] == listed_collection(
            nodes,
            collections,
            y,
            e,
            c,
        ).state_view() ==> view.values().contains_key(t as usize) && view.values()[t as usize].contains_key(
            adjacency[y]@[e],
        ) && mask_matches(
            view.values()[t as usize][adjacency[y]@[e]],
            listed_collection(nodes, collections, y, e, c),
            states,
        )
}

/// The mapped view of node `y`, not oriented: for each of its entries, the
/// masks of the entry's collections under the index of the neighbor.
pub fn build_view(
    nodes: &Vec<Node>,
    collections: &Vec<NodeStateCollection>,
    states: &Vec<String>,
    adjacency: &Vec<Vec<usize>>,
    y: usize,
) -> (view: NeighborMaskView)
    requires
        collections_resolve(nodes@, collections@),
        adjacency_matches(nodes@, adjacency@),
        ids_distinct(nodes@),
        y < nodes@.len(),
        forall|e: int|
            0 <= e < nodes@[y as int].entries().len() ==> !#[trigger] has_duplicate_state(
                nodes@,
                collections@,
                y as int,
                e,
            ) && entry_states_known(nodes@, collections@, strings_view(states@), y as int, e),
        strings_view(states@).no_duplicates(),
        states@.len() <= mask_capacity(),
    ensures
        view.orientation() == None::<usize>,
        view_holds_masks(view, nodes@, collections@, strings_view(states@), adjacency@, y as int),
{
    let ghost ns = nodes@;
    let ghost cs = collections@;
    let ghost sv = strings_view(states@);
    let ghost adj = adjacency@[y as int]@;
    let entries_length = nodes[y].neighbors_length();
    let mut view: NeighborMaskView = MappedView::new();
    let mut e: usize = 0;
    while e < entries_length
        invariant
            ns == nodes@,
            cs == collections@,
            sv == strings_view(states@),
            adj == adjacency@[y as int]@,
            collections_resolve(ns, cs),
            adjacency_matches(ns, adjacency@),
            ids_distinct(ns),
            y < ns.len(),
            entries_length == ns[y as int].entries().len(),
            crate::node::neighbor_ids_distinct(ns[y as int].entries()),
            forall|e2: int|
                0 <= e2 < ns[y as int].entries().len() ==> !#[trigger] has_duplicate_state(
                    ns,
                    cs,
                    y as int,
                    e2,
                ) && entry_states_known(ns, cs, sv, y as int, e2),
            sv.no_duplicates(),
            states@.len() <= mask_capacity(),
            e <= entries_length,
            view.orientation() == None::<usize>,
            forall|t: usize, k: usize|
                view.values().contains_key(t) && #[trigger] view.values()[t].contains_key(k) ==> adj.contains(k)
                    && mask_bits(view.values()[t][k]).len() == sv.len(),
            forall|t: usize, k: usize|
                view.values().contains_key(t) && #[trigger] view.values()[t].contains_key(k) ==> exists|
                    e2: int,
                    c: int,
                |
                    #![trigger listed_collection(ns, cs, y as int, e2, c)]
                    is_listing(ns, y as int, e2, c) && adj[e2] == k && (t as int) < sv.len() && sv[t as int]
                        == listed_collection(ns, cs, y as int, e2, c).state_view() && mask_matches(
                        view.values()[t][k],
                        listed_collection(ns, cs, y as int, e2, c),
                        sv,
                    ),
            forall|e2: int, c: int, t: int|
                #![trigger listed_collection(ns, cs, y as int, e2, c), sv[t]]
                is_listing(ns, y as int, e2, c) && e2 < e && 0 <= t < sv.len() && sv[t]
                    == listed_collection(ns, cs, y as int, e2, c).state_view()
                    ==> view.values().contains_key(t as usize) && view.values()[t as usize].contains_key(
                    adj[e2],
                ) && mask_matches(
                    view.values()[t as usize][adj[e2]],
                    listed_collection(ns, cs, y as int, e2, c),
                    sv,
                ),
        decreases entries_length - e,
    {
        proof {
            assert(!has_duplicate_state(ns, cs, y as int, e as int));
        }
        let masks = build_entry_masks(nodes, collections, states, y, e);
        let neighbor = adjacency[y][e];
        let ghost before = view.values();
        view.insert_individual(neighbor, masks);
        proof {
            let after = view.values();
            assert(after == with_individual(before, neighbor, masks@));
            assert(adj[e as int] == neighbor);
            assert forall|e2: int| 0 <= e2 < e implies adj[e2] != neighbor by {
                assert(ns[adj[e2] as int].id_view() == ns[y as int].entries()[e2].0);
                assert(ns[adj[e as int] as int].id_view() == ns[y as int].entries()[e as int].0);
                if adj[e2] == neighbor {
                    assert(ns[y as int].entries()[e2].0 == ns[y as int].entries()[e as int].0);
                }
            }
            assert forall|t: usize, k: usize|
                after.contains_key(t) && #[trigger] after[t].contains_key(k) implies adj.contains(k)
                    && mask_bits(after[t][k]).len() == sv.len() by {
                assert(sv.len() == states@.len());
                if masks@.contains_key(t) && k == neighbor {
                    assert(adj[e as int] == k);
                    assert(adj.contains(k));
                    assert(after[t][k] == masks@[t]);
                } else if masks@.contains_key(t) {
                    if before.contains_key(t) {
                        assert(after[t] == before[t].insert(neighbor, masks@[t]));
                        assert(before[t].contains_key(k));
                        assert(after[t][k] == before[t][k]);
                    } else {
                        assert(after[t] == Map::<usize, Mask>::empty().insert(neighbor, masks@[t]));
                        assert(false);
                    }
                } else {
                    assert(before.contains_key(t));
                    assert(after[t] == before[t]);
                    assert(after[t][k] == before[t][k]);
                }
            }
            assert forall|t: usize, k: usize|
                after.contains_key(t) && #[trigger] after[t].contains_key(k) implies exists|
                    e2: int,
                    c: int,
                |
                    #![trigger listed_collection(ns, cs, y as int, e2, c)]
                    is_listing(ns, y as int, e2, c) && adj[e2] == k && (t as int) < sv.len() && sv[t as int]
                        == listed_collection(ns, cs, y as int, e2, c).state_view() && mask_matches(
                        after[t][k],
                        listed_collection(ns, cs, y as int, e2, c),
                        sv,
                    ) by {
                if masks@.contains_key(t) && k == neighbor {
                    assert(after[t][k] == masks@[t]);
                    let c = choose|c: int|
                        #![trigger listed_collection(ns, cs, y as int, e as int, c)]
                        is_listing(ns, y as int, e as int, c) && (t as int) < sv.len() && sv[t as int]
                            == listed_collection(ns, cs, y as int, e as int, c).state_view()
                            && mask_matches(
                            masks@[t],
                            listed_collection(ns, cs, y as int, e as int, c),
                            sv,
                        );
                    assert(listed_collection(ns, cs, y as int, e as int, c) == listed_collection(ns, cs, y as int, e as int, c));
                } else if masks@.contains_key(t) {
                    if before.contains_key(t) {
                        assert(after[t] == before[t].insert(neighbor, masks@[t]));
                        assert(before[t].contains_key(k));
                        assert(after[t][k] == before[t][k]);
                    } else {
                        assert(after[t] == Map::<usize, Mask>::empty().insert(neighbor, masks@[t]));
                        assert(false);
                    }
                } else {
                    assert(before.contains_key(t));
                    assert(after[t] == before[t]);
                    assert(before[t].contains_key(k));
                    assert(after[t][k] == before[t][k]);
                }
            }
            assert forall|e2: int, c: int, t: int|
                #![trigger listed_collection(ns, cs, y as int, e2, c), sv[t]]
                is_listing(ns, y as int, e2, c) && e2 < e + 1 && 0 <= t < sv.len() && sv[t]
                    == listed_collection(ns, cs, y as int, e2, c).state_view() implies after.contains_key(
                t as usize,
            ) && after[t as usize].contains_key(adj[e2]) && mask_matches(
                after[t as usize][adj[e2]],
                listed_collection(ns, cs, y as int, e2, c),
                sv,
            ) by {
                if e2 < e {
                    assert(before.contains_key(t as usize));
                    assert(before[t as usize].contains_key(adj[e2]));
                    assert(adj[e2] != neighbor);
                    if masks@.contains_key(t as usize) {
                        assert(after[t as usize] == before[t as usize].insert(neighbor, masks@[t as usize]));
                    } else {
                        assert(after[t as usize] == before[t as usize]);
                    }
                } else {
                    assert(masks@.contains_key(t as usize));
                    assert(after[t as usize][neighbor] == masks@[t as usize]);
                }
            }
        }
        e = e + 1;
    }
    proof {
        assert(adjacency@[y as int]@.len() == entries_length);
    }
    view
}

} // verus!
