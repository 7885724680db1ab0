//! A wave function: its nodes and collections, the states they refer to,
//! the validation of the input, and the collapse into one state per node.

use crate::node::{
    collection_index, find_collection, find_string, lemma_collection_index_upto, strings_view, Node,
    NodeStateCollection,
};
use crate::validation::{
    build_adjacency, check_connected, check_ids_distinct, check_neighbor_states, is_edge,
    check_neighbors_exist, lemma_no_missing_neighbor_everywhere, validation_error,
};
use crate::collapse::{
    contains_index, masks_permit_all, state_indices, CollapsableNode, CollapsableWaveFunction,
};
use crate::indexed_view::{current_mask, is_unmasked, IndexedView, NeighborMaskView};
use crate::mask::{mask_bits, mask_capacity};
use crate::neighbor_masks::{build_view, entry_states_known, mask_matches, view_holds_masks};
use crate::random::seeded_random_instance;
use crate::validation::{adjacency_matches, has_duplicate_state, ids_distinct, lemma_valid_entries};
use rand_chacha::ChaCha8Rng;
use std::collections::HashMap;
use std::hash::Hash;
use vstd::prelude::*;
use vstd::string::StringExecFns;

verus! {

/// The collection that entry `e` of node `x` lists at position `c`.
pub open spec fn listed_collection(
    nodes: Seq<Node>,
    collections: Seq<NodeStateCollection>,
    x: int,
    e: int,
    c: int,
) -> NodeStateCollection {
    collections[collection_index(collections, nodes[x].entries()[e].1[c])]
}

/// Entry `e` of node `x` has a position `c`.
pub open spec fn is_listing(nodes: Seq<Node>, x: int, e: int, c: int) -> bool {
    &&& 0 <= x < nodes.len()
    &&& 0 <= e < nodes[x].entries().len()
    &&& 0 <= c < nodes[x].entries()[e].1.len()
}

/// Every collection id that a node lists names a collection.
pub open spec fn collections_resolve(nodes: Seq<Node>, collections: Seq<NodeStateCollection>) -> bool {
    forall|x: int, e: int, c: int|
        #![trigger nodes[x].entries()[e].1[c]]
        is_listing(nodes, x, e, c) ==> collection_index(collections, nodes[x].entries()[e].1[c]) >= 0
}

/// The states that the collection speaks of: its own and those it permits.
pub open spec fn collection_mentions(collection: NodeStateCollection, state: Seq<char>) -> bool {
    collection.state_view() == state || collection.permitted_view().contains(state)
}

/// Some listed collection speaks of `state`.
pub open spec fn state_is_referenced(
    nodes: Seq<Node>,
    collections: Seq<NodeStateCollection>,
    state: Seq<char>,
) -> bool {
    exists|x: int, e: int, c: int|
        is_listing(nodes, x, e, c) && collection_mentions(
            #[trigger] listed_collection(nodes, collections, x, e, c),
            state,
        )
}

/// Adds `state` unless a string with its view is already there.
fn add_distinct(states: &mut Vec<String>, state: &String)
    requires
        strings_view(old(states)@).no_duplicates(),
    ensures
        strings_view(final(states)@).no_duplicates(),
        forall|t: Seq<char>|
            strings_view(final(states)@).contains(t) <==> (strings_view(old(states)@).contains(t)
                || t == state@),
        strings_view(old(states)@).contains(state@) ==> final(states)@ == old(states)@,
{
    let ghost before = strings_view(states@);
    match find_string(states, state) {
        Some(i) => {
            assert(before[i as int] == state@);
        },
        None => {
            states.push(state.clone());
            proof {
                let after = strings_view(states@);
                assert(after =~= before.push(state@));
                assert forall|k: int| 0 <= k < before.len() implies before[k] != state@ by {
                    assert(states@[k]@ != state@);
                }
                assert forall|t: Seq<char>| after.contains(t) <==> (before.contains(t) || t == state@) by {
                    if after.contains(t) {
                        let k = choose|k: int| 0 <= k < after.len() && after[k] == t;
                        if k < before.len() {
                            assert(before[k] == t);
                        }
                    }
                    if before.contains(t) {
                        let k = choose|k: int| 0 <= k < before.len() && before[k] == t;
                        assert(after[k] == t);
                    }
                    if t == state@ {
                        assert(after[before.len() as int] == t);
                    }
                }
            }
        },
    }
}

/// Nodes, their node state collections, and every state those collections
/// speak of.
pub struct WaveFunction {
    nodes: Vec<Node>,
    node_state_collections: Vec<NodeStateCollection>,
    all_possible_node_state_ids: Vec<String>,
}

impl WaveFunction {
    pub closed spec fn nodes(&self) -> Seq<Node> {
        self.nodes@
    }

    pub closed spec fn collections(&self) -> Seq<NodeStateCollection> {
        self.node_state_collections@
    }

    /// Every state that a listed collection speaks of, each once.
    pub closed spec fn all_states(&self) -> Seq<Seq<char>> {
        strings_view(self.all_possible_node_state_ids@)
    }

    pub open spec fn wf(&self) -> bool {
        &&& collections_resolve(self.nodes(), self.collections())
        &&& self.all_states().no_duplicates()
        &&& forall|t: Seq<char>|
            #![trigger self.all_states().contains(t)]
            self.all_states().contains(t) <==> state_is_referenced(
                self.nodes(),
                self.collections(),
                t,
            )
    }

    /// A wave function over `nodes` and `node_state_collections`; every
    /// collection id that a node lists must name a collection.
    pub fn new(nodes: Vec<Node>, node_state_collections: Vec<NodeStateCollection>) -> (wave_function:
        Self)
        requires
            collections_resolve(nodes@, node_state_collections@),
        ensures
            wave_function.wf(),
            wave_function.nodes() == nodes@,
            wave_function.collections() == node_state_collections@,
    {
        let mut all_possible_node_state_ids: Vec<String> = Vec::new();
        let ghost ns = nodes@;
        let ghost cs = node_state_collections@;
        let mut x: usize = 0;
        while x < nodes.len()
            invariant
                ns == nodes@,
                cs == node_state_collections@,
                collections_resolve(ns, cs),
                x <= ns.len(),
                strings_view(all_possible_node_state_ids@).no_duplicates(),
                forall|t: Seq<char>|
                    strings_view(all_possible_node_state_ids@).contains(t) ==> state_is_referenced(
                        ns,
                        cs,
                        t,
                    ),
                forall|x2: int, e: int, c: int, t: Seq<char>|
                    #![trigger listed_collection(ns, cs, x2, e, c), strings_view(all_possible_node_state_ids@).contains(t)]
                    is_listing(ns, x2, e, c) && x2 < x && collection_mentions(
                        listed_collection(ns, cs, x2, e, c),
                        t,
                    ) ==> strings_view(all_possible_node_state_ids@).contains(t),
            decreases ns.len() - x,
        {
            let node = &nodes[x];
            let entries_length = node.neighbors_length();
            let mut e: usize = 0;
            while e < entries_length
                invariant
                    ns == nodes@,
                    cs == node_state_collections@,
                    collections_resolve(ns, cs),
                    x < ns.len(),
                    *node == ns[x as int],
                    entries_length == node.entries().len(),
                    e <= entries_length,
                    strings_view(all_possible_node_state_ids@).no_duplicates(),
                    forall|t: Seq<char>|
                        strings_view(all_possible_node_state_ids@).contains(t)
                            ==> state_is_referenced(ns, cs, t),
                    forall|x2: int, e2: int, c: int, t: Seq<char>|
                        #![trigger listed_collection(ns, cs, x2, e2, c), strings_view(all_possible_node_state_ids@).contains(t)]
                        is_listing(ns, x2, e2, c) && (x2 < x || (x2 == x && e2 < e))
                            && collection_mentions(listed_collection(ns, cs, x2, e2, c), t)
                            ==> strings_view(all_possible_node_state_ids@).contains(t),
                decreases entries_length - e,
            {
                let collection_ids = node.neighbor_collection_ids(e);
                let mut c: usize = 0;
                while c < collection_ids.len()
                    invariant
                        ns == nodes@,
                        cs == node_state_collections@,
                        collections_resolve(ns, cs),
                        x < ns.len(),
                        *node == ns[x as int],
                        entries_length == node.entries().len(),
                        e < entries_length,
                        strings_view(collection_ids@) == node.entries()[e as int].1,
                        c <= collection_ids@.len(),
                        strings_view(all_possible_node_state_ids@).no_duplicates(),
                        forall|t: Seq<char>|
                            strings_view(all_possible_node_state_ids@).contains(t)
                                ==> state_is_referenced(ns, cs, t),
                        forall|x2: int, e2: int, c2: int, t: Seq<char>|
                            #![trigger listed_collection(ns, cs, x2, e2, c2), strings_view(all_possible_node_state_ids@).contains(t)]
                            is_listing(ns, x2, e2, c2) && (x2 < x || (x2 == x && e2 < e) || (x2
                                == x && e2 == e && c2 < c)) && collection_mentions(
                                listed_collection(ns, cs, x2, e2, c2),
                                t,
                            ) ==> strings_view(all_possible_node_state_ids@).contains(t),
                    decreases collection_ids@.len() - c,
                {
                    proof {
                        assert(is_listing(ns, x as int, e as int, c as int));
                        assert(ns[x as int].entries()[e as int].1[c as int] == collection_ids@[c as int]@);
                    }
                    let k = find_collection(&node_state_collections, &collection_ids[c]).unwrap();
                    proof {
                        lemma_collection_index_upto(cs, collection_ids@[c as int]@, cs.len() as int);
                    }
                    let collection = &node_state_collections[k];
                    let ghost listed = listed_collection(ns, cs, x as int, e as int, c as int);
                    assert(*collection == listed);
                    add_distinct(&mut all_possible_node_state_ids, collection.get_node_state_id());
                    let permitted = collection.get_node_state_ids();
                    let mut p: usize = 0;
                    while p < permitted.len()
                        invariant
                            ns == nodes@,
                            cs == node_state_collections@,
                            collections_resolve(ns, cs),
                            x < ns.len(),
                            *node == ns[x as int],
                            entries_length == node.entries().len(),
                            e < entries_length,
                            strings_view(collection_ids@) == node.entries()[e as int].1,
                            c < collection_ids@.len(),
                            *collection == listed,
                            listed == listed_collection(ns, cs, x as int, e as int, c as int),
                            strings_view(permitted@) == listed.permitted_view(),
                            p <= permitted@.len(),
                            strings_view(all_possible_node_state_ids@).no_duplicates(),
                            strings_view(all_possible_node_state_ids@).contains(listed.state_view()),
                            forall|q: int|
                                0 <= q < p ==> strings_view(all_possible_node_state_ids@).contains(
                                    #[trigger] listed.permitted_view()[q],
                                ),
                            forall|t: Seq<char>|
                                strings_view(all_possible_node_state_ids@).contains(t)
                                    ==> state_is_referenced(ns, cs, t),
                            forall|x2: int, e2: int, c2: int, t: Seq<char>|
                                #![trigger listed_collection(ns, cs, x2, e2, c2), strings_view(all_possible_node_state_ids@).contains(t)]
                                is_listing(ns, x2, e2, c2) && (x2 < x || (x2 == x && e2 < e) || (
                                x2 == x && e2 == e && c2 < c)) && collection_mentions(
                                    listed_collection(ns, cs, x2, e2, c2),
                                    t,
                                ) ==> strings_view(all_possible_node_state_ids@).contains(t),
                        decreases permitted@.len() - p,
                    {
                        proof {
                            assert(listed.permitted_view()[p as int] == permitted@[p as int]@);
                            assert(listed.permitted_view().contains(permitted@[p as int]@));
                            assert(is_listing(ns, x as int, e as int, c as int));
                        }
                        add_distinct(&mut all_possible_node_state_ids, &permitted[p]);
                        p = p + 1;
                    }
                    proof {
                        assert forall|t: Seq<char>|
                            collection_mentions(listed, t) implies strings_view(
                            all_possible_node_state_ids@,
                        ).contains(t) by {
                            if t != listed.state_view() {
                                let q = choose|q: int|
                                    0 <= q < listed.permitted_view().len()
                                        && listed.permitted_view()[q] == t;
                                assert(strings_view(all_possible_node_state_ids@).contains(
                                    listed.permitted_view()[q],
                                ));
                            }
                        }
                    }
                    c = c + 1;
                }
                e = e + 1;
            }
            x = x + 1;
        }
        WaveFunction {
            nodes,
            node_state_collections,
            all_possible_node_state_ids,
        }
    }

    /// How many states the collections speak of.
    pub fn all_possible_node_state_ids_length(&self) -> (length: usize)
        ensures
            length == self.all_states().len(),
    {
        self.all_possible_node_state_ids.len()
    }

    /// Checks the input: at least two nodes, every neighbor a node, one
    /// collection per state for every neighbor, and one node from which all
    /// can be reached. On failure, the message of the first problem found.
    fn validate(&self) -> (result: Result<(), String>)
        requires
            self.wf(),
        ensures
            match result {
                Ok(()) => validation_error(
                    self.nodes(),
                    self.collections(),
                    self.all_states().len(),
                ) == None::<Seq<char>>,
                Err(message) => validation_error(
                    self.nodes(),
                    self.collections(),
                    self.all_states().len(),
                ) == Some(message@),
            },
    {
        let nodes_length: usize = self.nodes.len();
        if nodes_length < 2 {
            return Err(<String as StringExecFns>::from_str("There must be two or more nodes."));
        }
        match check_neighbors_exist(&self.nodes) {
            Some((x, e)) => {
                let mut message = <String as StringExecFns>::from_str("Neighbor node ");
                message.append(self.nodes[x].neighbor_id(e).as_str());
                message.append(" does not exist in main list of nodes.");
                return Err(message);
            },
            None => {},
        }
        let states_length = self.all_possible_node_state_ids.len();
        match check_neighbor_states(&self.nodes, &self.node_state_collections, states_length) {
            Some((x, e, duplicate)) => {
                let mut message = if duplicate {
                    <String as StringExecFns>::from_str("Found duplicate node state when node ")
                } else {
                    <String as StringExecFns>::from_str(
                        "Missing at least one node state reference when node ",
                    )
                };
                message.append(self.nodes[x].get_id().as_str());
                message.append(" references neighbor node ");
                message.append(self.nodes[x].neighbor_id(e).as_str());
                message.append(".");
                return Err(message);
            },
            None => {},
        }
        if !check_ids_distinct(&self.nodes) {
            return Err(
                <String as StringExecFns>::from_str(
                    "Not all nodes connect together. At least one node must be able to traverse to all other nodes.",
                ),
            );
        }
        proof {
            lemma_no_missing_neighbor_everywhere(self.nodes());
        }
        let adjacency = build_adjacency(&self.nodes);
        if !check_connected(&self.nodes, &adjacency) {
            return Err(
                <String as StringExecFns>::from_str(
                    "Not all nodes connect together. At least one node must be able to traverse to all other nodes.",
                ),
            );
        }
        Ok(())
    }

    /// Every state of a listed collection is among the wave function's states.
    proof fn lemma_listed_states_known(&self)
        requires
            self.wf(),
        ensures
            forall|y: int, e: int|
                0 <= y < self.nodes().len() && 0 <= e < self.nodes()[y].entries().len()
                    ==> #[trigger] entry_states_known(self.nodes(), self.collections(), self.all_states(), y, e),
    {
        assert forall|y: int, e: int|
            0 <= y < self.nodes().len() && 0 <= e < self.nodes()[y].entries().len() implies #[trigger] entry_states_known(
            self.nodes(),
            self.collections(),
            self.all_states(),
            y,
            e,
        ) by {
            assert forall|c: int|
                #![trigger listed_collection(self.nodes(), self.collections(), y, e, c)]
                is_listing(self.nodes(), y, e, c) implies self.all_states().contains(
                listed_collection(self.nodes(), self.collections(), y, e, c).state_view(),
            ) by {
                let t = listed_collection(self.nodes(), self.collections(), y, e, c).state_view();
                assert(collection_mentions(listed_collection(self.nodes(), self.collections(), y, e, c), t));
                assert(state_is_referenced(self.nodes(), self.collections(), t));
            }
        }
    }

    /// Collapses the wave function: gives every node one of the states, such
    /// that every node's state is permitted by the collections that the nodes
    /// listing it place on it in their states. The states are those at which
    /// the search, run round by round from its start, settles every node. With
    /// a seed, the ties in the order in which nodes are tried are broken by a
    /// generator seeded with it. Fails with the validation message when the
    /// input is not valid, and with "Cannot collapse wave function." when the
    /// search gives up instead: it reaches a node that has run out of states
    /// while no node before it in the order lists it.
    pub fn collapse(&self, random_seed: Option<u64>) -> (result: Result<CollapsedWaveFunction, String>)
        requires
            self.wf(),
            validation_error(self.nodes(), self.collections(), self.all_states().len()) == None::<Seq<char>>
                ==> self.all_states().len() <= mask_capacity(),
        ensures
            match validation_error(self.nodes(), self.collections(), self.all_states().len()) {
                Some(message) => match result {
                    Ok(_) => false,
                    Err(m) => m@ == message,
                },
                None => match result {
                    Ok(collapsed) => is_collapse_of(
                        self.nodes(),
                        self.collections(),
                        self.all_states(),
                        collapsed@,
                    ) && search_settles_as(
                        self.nodes(),
                        self.collections(),
                        self.all_states(),
                        random_seed,
                        collapsed@,
                    ),
                    Err(m) => m@ == cannot_collapse_message() && search_gives_up(
                        self.nodes(),
                        self.collections(),
                        self.all_states(),
                        random_seed,
                    ),
                },
            },
            validation_error(self.nodes(), self.collections(), self.all_states().len()) == None::<
                Seq<char>,
            > && self.all_states().len() >= 1 && is_unrestricted(
                self.nodes(),
                self.collections(),
                self.all_states(),
            ) ==> match result {
                Ok(collapsed) => forall|x: int|
                    0 <= x < collapsed@.len() ==> (#[trigger] collapsed@[x]).1 == self.all_states()[0],
                Err(_) => false,
            },
    {
        match self.validate() {
            Err(message) => {
                return Err(message);
            },
            Ok(()) => {},
        }
        let ghost ns = self.nodes();
        let ghost cs = self.collections();
        let ghost sv = self.all_states();
        let n = self.all_possible_node_state_ids.len();
        proof {
            lemma_valid_entries(ns, cs, n as nat);
            self.lemma_listed_states_known();
        }
        proof {
            assert forall|x: int, e: int|
                0 <= x < ns.len() && 0 <= e < ns[x].entries().len() implies !#[trigger] has_duplicate_state(
                ns,
                cs,
                x,
                e,
            ) && ns[x].entries()[e].1.len() == n by {
                assert(crate::validation::node_id_exists(ns, ns[x].entries()[e].0));
            }
        }
        let adjacency = build_adjacency(&self.nodes);
        let length = self.nodes.len();
        let mut views: Vec<NeighborMaskView> = Vec::new();
        let mut y: usize = 0;
        while y < length
            invariant
                ns == self.nodes(),
                cs == self.collections(),
                sv == self.all_states(),
                self.wf(),
                n == sv.len(),
                n <= mask_capacity(),
                length == ns.len(),
                ids_distinct(ns),
                adjacency_matches(ns, adjacency@),
                forall|x: int, e: int|
                    0 <= x < ns.len() && 0 <= e < ns[x].entries().len() ==> !#[trigger] has_duplicate_state(
                        ns,
                        cs,
                        x,
                        e,
                    ) && ns[x].entries()[e].1.len() == n,
                forall|x: int, e: int|
                    0 <= x < ns.len() && 0 <= e < ns[x].entries().len()
                        ==> #[trigger] entry_states_known(ns, cs, sv, x, e),
                y <= length,
                views@.len() == y,
                forall|y2: int|
                    0 <= y2 < y ==> (#[trigger] views@[y2]).orientation() == None::<usize>
                        && view_holds_masks(views@[y2], ns, cs, sv, adjacency@, y2),
            decreases length - y,
        {
            proof {
                assert forall|e: int|
                    0 <= e < ns[y as int].entries().len() implies !#[trigger] has_duplicate_state(
                    ns,
                    cs,
                    y as int,
                    e,
                ) && entry_states_known(ns, cs, sv, y as int, e) by {
                    assert(entry_states_known(ns, cs, sv, y as int, e));
                }
            }
            let view = build_view(
                &self.nodes,
                &self.node_state_collections,
                &self.all_possible_node_state_ids,
                &adjacency,
                y,
            );
            views.push(view);
            y = y + 1;
        }
        let parents = build_parents(&adjacency);
        let mut random_instance: Option<ChaCha8Rng> = match random_seed {
            Some(seed) => Some(seeded_random_instance(seed)),
            None => None,
        };
        let mut collapsable_nodes: Vec<CollapsableNode> = Vec::new();
        let mut x: usize = 0;
        while x < length
            invariant
                length == ns.len(),
                n == sv.len(),
                adjacency_matches(ns, adjacency@),
                parents_match(adjacency@, parents@),
                x <= length,
                collapsable_nodes@.len() == x,
                forall|x2: int|
                    0 <= x2 < x ==> {
                        let node = #[trigger] collapsable_nodes@[x2];
                        &&& node.node_id() == x2
                        &&& node.view().wf()
                        &&& node.view().states() == state_indices(n as nat)
                        &&& node.view().mask_key() == x2
                        &&& node.view().mask_sources() == parents@[x2]@
                        &&& node.view().position() == None::<usize>
                        &&& node.chosen() == None::<usize>
                        &&& forall|k: usize| node.neighbors().contains(k) <==> adjacency@[x2]@.contains(k)
                        &&& node.view().mapping().to_multiset() == Seq::new(n as nat, |i: int| i as usize).to_multiset()
                        &&& random_seed is None ==> node.random_value() == 0 && node.view().mapping()
                            == Seq::new(n as nat, |i: int| i as usize)
                    },
                random_seed is None ==> random_instance is None,
            decreases length - x,
        {
            let states = state_index_list(n);
            let sources = copy_indices(&parents[x]);
            let neighbors = copy_indices(&adjacency[x]);
            let node_state_indexed_view = IndexedView::new(states, sources, x);
            let mut node = CollapsableNode::new(x, neighbors, node_state_indexed_view);
            match &mut random_instance {
                Some(random_instance) => {
                    node.randomize(random_instance);
                },
                None => {},
            }
            collapsable_nodes.push(node);
            x = x + 1;
        }
        let ghost built_views = views@;
        let ghost built_nodes = collapsable_nodes@;
        proof {
            assert forall|x2: int| 0 <= x2 < length implies {
                let node = #[trigger] built_nodes[x2];
                &&& node.node_id() == x2
                &&& node.view().wf()
                &&& node.view().states() == state_indices(n as nat)
                &&& node.view().mask_key() == x2
                &&& node.view().fits(built_views)
                &&& node.view().position() == None::<usize>
                &&& node.chosen() == None::<usize>
                &&& built_views[x2].orientation() == None::<usize>
            } by {
                let node = built_nodes[x2];
                assert forall|j: int| 0 <= j < node.view().mask_sources().len() implies #[trigger] node.view().mask_sources()[j] < built_views.len() by {
                    assert(parents@[x2]@[j] < ns.len());
                }
                assert forall|y2: int, view_key: usize, key: usize|
                    0 <= y2 < built_views.len() && #[trigger] built_views[y2].values().contains_key(view_key)
                        && built_views[y2].values()[view_key].contains_key(key) implies mask_bits(
                    #[trigger] built_views[y2].values()[view_key][key],
                ).len() == node.view().states().len() by {
                    assert(view_holds_masks(built_views[y2], ns, cs, sv, adjacency@, y2));
                }
            }
            assert forall|y2: int, s: usize, k: usize|
                0 <= y2 < length && #[trigger] built_views[y2].values().contains_key(s)
                    && built_views[y2].values()[s].contains_key(k) implies #[trigger] built_nodes[y2].neighbors().contains(k) by {
                assert(view_holds_masks(built_views[y2], ns, cs, sv, adjacency@, y2));
            }
        }
        proof {
            if is_unrestricted(ns, cs, sv) {
                assert forall|y2: int, t: usize, k: usize, s: int|
                    0 <= y2 < built_views.len() && built_views[y2].values().contains_key(t)
                        && #[trigger] built_views[y2].values()[t].contains_key(k) && 0 <= s < n implies #[trigger] mask_bits(
                    built_views[y2].values()[t][k],
                )[s] by {
                    assert(view_holds_masks(built_views[y2], ns, cs, sv, adjacency@, y2));
                    let (e, c) = choose|e: int, c: int|
                        #![trigger listed_collection(ns, cs, y2, e, c)]
                        is_listing(ns, y2, e, c) && adjacency@[y2]@[e] == k && (t as int) < sv.len()
                            && sv[t as int] == listed_collection(ns, cs, y2, e, c).state_view()
                            && mask_matches(built_views[y2].values()[t][k], listed_collection(ns, cs, y2, e, c), sv);
                    assert(listed_collection(ns, cs, y2, e, c).permitted_view().contains(sv[s]));
                }
                assert(masks_permit_all(built_views, n as nat));
            }
        }
        let mut search = CollapsableWaveFunction::new(collapsable_nodes, views, n);
        let ghost start = search;
        let is_unable_to_collapse = search.search();
        proof {
            assert forall|x2: int| 0 <= x2 < ns.len() implies #[trigger] starts_at(
                ns,
                cs,
                sv,
                random_seed,
                adjacency@,
                start,
                x2,
            ) by {
                let node = start.nodes()[x2];
                assert(node == built_nodes[x2]);
                assert(view_holds_masks(built_views[x2], ns, cs, sv, adjacency@, x2));
                assert forall|y2: usize|
                    node.view().mask_sources().contains(y2) <==> (y2 < ns.len()
                        && adjacency@[y2 as int]@.contains(x2 as usize)) by {
                    if node.view().mask_sources().contains(y2) {
                        let j = choose|j: int|
                            0 <= j < parents@[x2]@.len() && parents@[x2]@[j] == y2;
                        assert(parents@[x2]@[j] < adjacency@.len());
                    }
                    if y2 < ns.len() && adjacency@[y2 as int]@.contains(x2 as usize) {
                        let y3: int = y2 as int;
                        assert(adjacency@[y3]@.contains(x2 as usize));
                        assert(parents@[x2]@.contains(y3 as usize));
                    }
                }
            }
            assert(is_search_start(ns, cs, sv, random_seed, start));
        }
        let ghost trace = choose|trace: Seq<CollapsableWaveFunction>|
            #[trigger] CollapsableWaveFunction::is_run(trace) && CollapsableWaveFunction::sort_step(
                start,
                trace[0],
            ) && trace.last() == search;
        if is_unable_to_collapse {
            proof {
                assert(CollapsableWaveFunction::is_run(trace));
                assert(search_gives_up(ns, cs, sv, random_seed));
            }
            return Err(<String as StringExecFns>::from_str("Cannot collapse wave function."));
        }
        let mut node_state_per_node: Vec<(String, String)> = Vec::new();
        let mut x: usize = 0;
        while x < length
            invariant
                ns == self.nodes(),
                sv == self.all_states(),
                length == ns.len(),
                n == sv.len(),
                search.structure_ok(),
                search.is_solved(),
                search.nodes().len() == length,
                search.states_length() == n,
                x <= length,
                node_state_per_node@.len() == x,
                forall|x2: int|
                    0 <= x2 < x ==> #[trigger] pairs_view(node_state_per_node@)[x2] == (
                        ns[x2].id_view(),
                        sv[search.state_of(x2)],
                    ),
            decreases length - x,
        {
            proof {
                assert(search.is_settled(x as int));
            }
            let state = search.node_state_index(x);
            let node_id = self.nodes[x].get_id().clone();
            let node_state = self.all_possible_node_state_ids[state].clone();
            let ghost before = node_state_per_node@;
            node_state_per_node.push((node_id, node_state));
            proof {
                assert forall|x2: int|
                    0 <= x2 < x + 1 implies #[trigger] pairs_view(node_state_per_node@)[x2] == (
                    ns[x2].id_view(),
                    sv[search.state_of(x2)],
                ) by {
                    if x2 < x {
                        assert(node_state_per_node@[x2] == before[x2]);
                        assert(pairs_view(before)[x2] == (ns[x2].id_view(), sv[search.state_of(x2)]));
                        assert(pairs_view(before)[x2] == (before[x2].0@, before[x2].1@));
                        assert(pairs_view(node_state_per_node@)[x2] == (
                            node_state_per_node@[x2].0@,
                            node_state_per_node@[x2].1@,
                        ));
                    } else {
                        assert(node_state_per_node@[x2].0@ == ns[x2].id_view());
                        assert(node_state_per_node@[x2].1@ == self.all_possible_node_state_ids@[state as int]@);
                        assert(sv[state as int] == self.all_possible_node_state_ids@[state as int]@);
                        assert(pairs_view(node_state_per_node@)[x2] == (
                            node_state_per_node@[x2].0@,
                            node_state_per_node@[x2].1@,
                        ));
                    }
                }
            }
            x = x + 1;
        }
        let collapsed = CollapsedWaveFunction { node_state_per_node };
        proof {
            if is_unrestricted(ns, cs, sv) && n >= 1 {
                assert forall|x1: int| 0 <= x1 < collapsed@.len() implies (#[trigger] collapsed@[x1]).1 == sv[0] by {
                    assert(search.state_of(x1) == 0);
                }
            }
            let result = collapsed@;
            assert forall|x1: int, y1: int|
                0 <= x1 < ns.len() && 0 <= y1 < ns.len() && #[trigger] is_edge(ns, y1, x1)
                    implies state_permits(ns, cs, y1, result[y1].1, x1, result[x1].1) by {
                let e = choose|e: int| 0 <= e < ns[y1].entries().len() && #[trigger] ns[y1].entries()[e].0 == ns[x1].id_view();
                assert(adjacency@[y1]@[e] < ns.len());
                assert(ns[adjacency@[y1]@[e] as int].id_view() == ns[x1].id_view());
                if adjacency@[y1]@[e] as int != x1 {
                    let a = adjacency@[y1]@[e] as int;
                    if a < x1 {
                        assert(ns[a].id_view() != ns[x1].id_view());
                    } else {
                        assert(ns[x1].id_view() != ns[a].id_view());
                    }
                }
                assert(adjacency@[y1]@.contains(x1 as usize)) by {
                    assert(adjacency@[y1]@[e] == x1 as usize);
                }
                assert(parents@[x1]@.contains(y1 as usize));
                let j = choose|j: int| 0 <= j < parents@[x1]@.len() && parents@[x1]@[j] == y1 as usize;
                assert(search.is_settled(x1));
                assert(search.is_settled(y1));
                let sx = search.state_of(x1);
                let sy = search.state_of(y1);
                assert(is_unmasked(
                    search.views(),
                    search.nodes()[x1].view().mask_sources(),
                    x1 as usize,
                    sx,
                ));
                assert(search.nodes()[x1].view().mask_sources() == parents@[x1]@);
                let sources = parents@[x1]@;
                assert(sources[j] as int == y1);
                let found = current_mask(search.views(), sources[j] as int, x1 as usize);
                assert forall|e2: int, c: int|
                    #![trigger listed_collection(ns, cs, y1, e2, c)]
                    is_listing(ns, y1, e2, c) && ns[y1].entries()[e2].0 == ns[x1].id_view()
                        && listed_collection(ns, cs, y1, e2, c).state_view() == result[y1].1
                        implies listed_collection(ns, cs, y1, e2, c).permitted_view().contains(result[x1].1) by {
                    let listed = listed_collection(ns, cs, y1, e2, c);
                    assert(result[y1].1 == sv[sy]);
                    assert(result[x1].1 == sv[sx]);
                    assert(view_holds_masks(built_views[y1], ns, cs, sv, adjacency@, y1));
                    assert(search.views()[y1].values() == built_views[y1].values());
                    let k = adjacency@[y1]@[e2];
                    assert(ns[k as int].id_view() == ns[x1].id_view());
                    if k as int != x1 {
                        if (k as int) < x1 {
                            assert(ns[k as int].id_view() != ns[x1].id_view());
                        } else {
                            assert(ns[x1].id_view() != ns[k as int].id_view());
                        }
                    }
                    assert(sv[sy] == listed.state_view());
                    let mask = built_views[y1].values()[sy as usize][k];
                    assert(mask_matches(mask, listed, sv));
                    assert(search.views()[y1].orientation() == Some(sy as usize));
                    assert(found == Some(mask));
                    assert(mask_bits(mask)[sx]);
                }
            }
            assert forall|x1: int| 0 <= x1 < ns.len() implies (#[trigger] result[x1]).0 == ns[x1].id_view()
                && sv.contains(result[x1].1) by {
                assert(search.is_settled(x1));
                assert(sv[search.state_of(x1)] == result[x1].1);
            }
            assert forall|x1: int| 0 <= x1 < ns.len() implies #[trigger] result[x1].1 == sv[trace.last().state_of(x1)] by {
                assert(sv[search.state_of(x1)] == result[x1].1);
            }
            assert(CollapsableWaveFunction::is_run(trace));
            assert(search_settles_as(ns, cs, sv, random_seed, result));
        }
        Ok(collapsed)
    }
}

/// For each node, the nodes that list it: each listed there lists it, and
/// every node that lists it is listed there.
pub open spec fn parents_match(adjacency: Seq<Vec<usize>>, parents: Seq<Vec<usize>>) -> bool {
    &&& parents.len() == adjacency.len()
    &&& forall|x: int, j: int|
        0 <= x < parents.len() && 0 <= j < parents[x]@.len() ==> (#[trigger] parents[x]@[j]) < adjacency.len()
            && adjacency[parents[x]@[j] as int]@.contains(x as usize)
    &&& forall|x: int, y: int|
        0 <= x < parents.len() && 0 <= y < adjacency.len() && #[trigger] adjacency[y]@.contains(x as usize)
            ==> #[trigger] parents[x]@.contains(y as usize)
}

/// For each node, the nodes that list it, in node order.
fn build_parents(adjacency: &Vec<Vec<usize>>) -> (parents: Vec<Vec<usize>>)
    ensures
        parents_match(adjacency@, parents@),
{
    let length = adjacency.len();
    let mut parents: Vec<Vec<usize>> = Vec::new();
    let mut x: usize = 0;
    while x < length
        invariant
            length == adjacency@.len(),
            x <= length,
            parents@.len() == x,
            forall|x2: int, j: int|
                0 <= x2 < x && 0 <= j < parents@[x2]@.len() ==> (#[trigger] parents@[x2]@[j]) < length
                    && adjacency@[parents@[x2]@[j] as int]@.contains(x2 as usize),
            forall|x2: int, y: int|
                0 <= x2 < x && 0 <= y < length && #[trigger] adjacency@[y]@.contains(x2 as usize)
                    ==> #[trigger] parents@[x2]@.contains(y as usize),
        decreases length - x,
    {
        let mut listing: Vec<usize> = Vec::new();
        let mut y: usize = 0;
        while y < length
            invariant
                length == adjacency@.len(),
                x < length,
                y <= length,
                forall|j: int|
                    0 <= j < listing@.len() ==> (#[trigger] listing@[j]) < length
                        && adjacency@[listing@[j] as int]@.contains(x as usize),
                forall|y2: int|
                    0 <= y2 < y && #[trigger] adjacency@[y2]@.contains(x as usize) ==> listing@.contains(y2 as usize),
            decreases length - y,
        {
            if contains_index(&adjacency[y], x) {
                let ghost before = listing@;
                listing.push(y);
                proof {
                    assert forall|y2: int|
                        0 <= y2 < y + 1 && #[trigger] adjacency@[y2]@.contains(x as usize) implies listing@.contains(y2 as usize) by {
                        if y2 < y {
                            let j = choose|j: int| 0 <= j < before.len() && before[j] == y2 as usize;
                            assert(listing@[j] == y2 as usize);
                        } else {
                            assert(listing@[before.len() as int] == y as usize);
                        }
                    }
                }
            }
            y = y + 1;
        }
        parents.push(listing);
        x = x + 1;
    }
    parents
}

/// The state indices `0..length`.
fn state_index_list(length: usize) -> (indices: Vec<usize>)
    ensures
        indices@ == state_indices(length as nat),
{
    let mut indices: Vec<usize> = Vec::new();
    let mut i: usize = 0;
    while i < length
        invariant
            i <= length,
            indices@ == state_indices(i as nat),
        decreases length - i,
    {
        indices.push(i);
        i = i + 1;
        proof {
            assert(indices@ =~= state_indices(i as nat));
        }
    }
    indices
}

/// A copy of `indices`.
fn copy_indices(indices: &Vec<usize>) -> (copy: Vec<usize>)
    ensures
        copy@ == indices@,
{
    let mut copy: Vec<usize> = Vec::new();
    let mut i: usize = 0;
    while i < indices.len()
        invariant
            i <= indices@.len(),
            copy@ == indices@.subrange(0, i as int),
        decreases indices@.len() - i,
    {
        copy.push(indices[i]);
        i = i + 1;
        proof {
            assert(copy@ =~= indices@.subrange(0, i as int));
        }
    }
    proof {
        assert(indices@.subrange(0, indices@.len() as int) =~= indices@);
    }
    copy
}

/// Neighbor `y`, in state `state_y`, permits node `x` to be in state
/// `state_x`: every collection about `state_y` that `y` lists for `x` permits
/// `state_x`.
pub open spec fn state_permits(
    nodes: Seq<Node>,
    collections: Seq<NodeStateCollection>,
    y: int,
    state_y: Seq<char>,
    x: int,
    state_x: Seq<char>,
) -> bool {
    forall|e: int, c: int|
        #![trigger listed_collection(nodes, collections, y, e, c)]
        is_listing(nodes, y, e, c) && nodes[y].entries()[e].0 == nodes[x].id_view()
            && listed_collection(nodes, collections, y, e, c).state_view() == state_y
            ==> listed_collection(nodes, collections, y, e, c).permitted_view().contains(state_x)
}

/// `result` gives, in node order, each node's id and a state out of `states`,
/// such that every node's state is permitted by each node that lists it, in
/// that node's state.
pub open spec fn is_collapse_of(
    nodes: Seq<Node>,
    collections: Seq<NodeStateCollection>,
    states: Seq<Seq<char>>,
    result: Seq<(Seq<char>, Seq<char>)>,
) -> bool {
    &&& result.len() == nodes.len()
    &&& forall|x: int|
        0 <= x < nodes.len() ==> (#[trigger] result[x]).0 == nodes[x].id_view() && states.contains(
            result[x].1,
        )
    &&& forall|x: int, y: int|
        0 <= x < nodes.len() && 0 <= y < nodes.len() && #[trigger] is_edge(nodes, y, x)
            ==> state_permits(nodes, collections, y, result[y].1, x, result[x].1)
}

/// Every collection that a node lists permits every one of `states`: the
/// nodes place no constraint on each other.
pub open spec fn is_unrestricted(
    nodes: Seq<Node>,
    collections: Seq<NodeStateCollection>,
    states: Seq<Seq<char>>,
) -> bool {
    forall|x: int, e: int, c: int, t: int|
        #![trigger listed_collection(nodes, collections, x, e, c), states[t]]
        is_listing(nodes, x, e, c) && 0 <= t < states.len() ==> listed_collection(
            nodes,
            collections,
            x,
            e,
            c,
        ).permitted_view().contains(states[t])
}

/// Node `x` of `search` is as `collapse` builds it from node `x` of `nodes`:
/// it has no state and has not been chosen, and its view is not oriented; it
/// lists the nodes that its entries name, its view holds the masks that the
/// collections it lists give them, and its own masks come from the nodes that
/// list it. Its state mapping takes each state index once; without a seed it
/// is the identity and the node's tie-breaking value is 0.
pub open spec fn starts_at(
    nodes: Seq<Node>,
    collections: Seq<NodeStateCollection>,
    states: Seq<Seq<char>>,
    random_seed: Option<u64>,
    adjacency: Seq<Vec<usize>>,
    search: CollapsableWaveFunction,
    x: int,
) -> bool {
    let node = search.nodes()[x];
    &&& node.view().position() == None::<usize>
    &&& node.chosen() == None::<usize>
    &&& search.views()[x].orientation() == None::<usize>
    &&& view_holds_masks(search.views()[x], nodes, collections, states, adjacency, x)
    &&& forall|k: usize| node.neighbors().contains(k) <==> adjacency[x]@.contains(k)
    &&& forall|y: usize|
        node.view().mask_sources().contains(y) <==> (y < nodes.len() && adjacency[y as int]@.contains(
            x as usize,
        ))
    &&& node.view().mapping().to_multiset() == Seq::new(states.len(), |i: int| i as usize).to_multiset()
    &&& random_seed is None ==> node.random_value() == 0 && node.view().mapping() == Seq::new(
        states.len(),
        |i: int| i as usize,
    )
}

/// `search` is the search that `collapse` starts from for these nodes, before
/// its first round.
pub open spec fn is_search_start(
    nodes: Seq<Node>,
    collections: Seq<NodeStateCollection>,
    states: Seq<Seq<char>>,
    random_seed: Option<u64>,
    search: CollapsableWaveFunction,
) -> bool {
    &&& search.structure_ok()
    &&& search.current() == 0
    &&& search.nodes().len() == nodes.len()
    &&& search.states_length() == states.len()
    &&& exists|adjacency: Seq<Vec<usize>>|
        #[trigger] adjacency_matches(nodes, adjacency) && forall|x: int|
            0 <= x < nodes.len() ==> #[trigger] starts_at(nodes, collections, states, random_seed, adjacency, search, x)
}

/// The search that `collapse` starts from, once its nodes are sorted, runs
/// round by round to a node that has run out of states while no node before
/// it in the order lists it.
pub open spec fn search_gives_up(
    nodes: Seq<Node>,
    collections: Seq<NodeStateCollection>,
    states: Seq<Seq<char>>,
    random_seed: Option<u64>,
) -> bool {
    exists|start: CollapsableWaveFunction, trace: Seq<CollapsableWaveFunction>|
        #[trigger] is_search_start(nodes, collections, states, random_seed, start)
            && #[trigger] CollapsableWaveFunction::is_run(trace) && CollapsableWaveFunction::sort_step(
            start,
            trace[0],
        ) && CollapsableWaveFunction::gave_up(trace.last())
}

/// The search that `collapse` starts from, once its nodes are sorted, runs
/// round by round until every node is settled, each at the state that
/// `result` gives it.
pub open spec fn search_settles_as(
    nodes: Seq<Node>,
    collections: Seq<NodeStateCollection>,
    states: Seq<Seq<char>>,
    random_seed: Option<u64>,
    result: Seq<(Seq<char>, Seq<char>)>,
) -> bool {
    exists|start: CollapsableWaveFunction, trace: Seq<CollapsableWaveFunction>|
        #[trigger] is_search_start(nodes, collections, states, random_seed, start)
            && #[trigger] CollapsableWaveFunction::is_run(trace) && CollapsableWaveFunction::sort_step(
            start,
            trace[0],
        ) && trace.last().is_solved() && forall|x: int|
            0 <= x < nodes.len() ==> #[trigger] result[x].1 == states[trace.last().state_of(x)]
}

/// With no state to give, no wave function that has a node collapses.
pub proof fn lemma_no_states_no_collapse(
    nodes: Seq<Node>,
    collections: Seq<NodeStateCollection>,
    result: Seq<(Seq<char>, Seq<char>)>,
)
    requires
        nodes.len() >= 1,
    ensures
        !is_collapse_of(nodes, collections, Seq::<Seq<char>>::empty(), result),
{
    if is_collapse_of(nodes, collections, Seq::<Seq<char>>::empty(), result) {
        assert(Seq::<Seq<char>>::empty().contains(result[0].1));
    }
}

/// In a collapse of nodes with distinct ids, the first pair with a node's id
/// is that node's own pair.
pub proof fn lemma_collapse_pairs_by_id(
    nodes: Seq<Node>,
    collections: Seq<NodeStateCollection>,
    states: Seq<Seq<char>>,
    result: Seq<(Seq<char>, Seq<char>)>,
    x: int,
)
    requires
        is_collapse_of(nodes, collections, states, result),
        crate::validation::ids_distinct(nodes),
        0 <= x < nodes.len(),
    ensures
        result[x].0 == nodes[x].id_view(),
        forall|i: int| 0 <= i < result.len() && i != x ==> #[trigger] result[i].0 != nodes[x].id_view(),
{
    assert forall|i: int| 0 <= i < result.len() && i != x implies #[trigger] result[i].0 != nodes[x].id_view() by {
        assert(result[i].0 == nodes[i].id_view());
        if i < x {
            assert(nodes[i].id_view() != nodes[x].id_view());
        } else {
            assert(nodes[x].id_view() != nodes[i].id_view());
        }
    }
}

pub open spec fn cannot_collapse_message() -> Seq<char> {
    "Cannot collapse wave function."@
}

/// The views of a vector of string pairs.
pub open spec fn pairs_view(pairs: Seq<(String, String)>) -> Seq<(Seq<char>, Seq<char>)> {
    pairs.map_values(|p: (String, String)| (p.0@, p.1@))
}

/// The state of each node after a collapse, as (node id, node state id)
/// pairs in node order.
pub struct CollapsedWaveFunction {
    node_state_per_node: Vec<(String, String)>,
}

impl View for CollapsedWaveFunction {
    type V = Seq<(Seq<char>, Seq<char>)>;

    closed spec fn view(&self) -> Seq<(Seq<char>, Seq<char>)> {
        pairs_view(self.node_state_per_node@)
    }
}

impl CollapsedWaveFunction {
    /// The collapse that gives each node of `node_state_per_node` its state.
    pub fn new(node_state_per_node: Vec<(String, String)>) -> (collapsed: Self)
        ensures
            collapsed@ == pairs_view(node_state_per_node@),
    {
        CollapsedWaveFunction { node_state_per_node }
    }

    /// The (node id, node state id) pairs.
    pub fn node_state_per_node(&self) -> (pairs: &Vec<(String, String)>)
        ensures
            pairs_view(pairs@) == self@,
    {
        &self.node_state_per_node
    }

    /// The state of the first node with id `node_id`, if there is one.
    pub fn get(&self, node_id: &String) -> (state: Option<&String>)
        ensures
            match state {
                Some(state) => exists|i: int|
                    0 <= i < self@.len() && #[trigger] self@[i].0 == node_id@ && self@[i].1 == state@
                        && forall|j: int| 0 <= j < i ==> #[trigger] self@[j].0 != node_id@,
                None => forall|i: int| 0 <= i < self@.len() ==> #[trigger] self@[i].0 != node_id@,
            },
    {
        let mut i: usize = 0;
        while i < self.node_state_per_node.len()
            invariant
                i <= self@.len(),
                self@.len() == self.node_state_per_node@.len(),
                forall|j: int| 0 <= j < i ==> #[trigger] self@[j].0 != node_id@,
            decreases self@.len() - i,
        {
            if self.node_state_per_node[i].0 == *node_id {
                proof {
                    assert(self@[i as int] == (self.node_state_per_node@[i as int].0@, self.node_state_per_node@[i as int].1@));
                    assert(self@[i as int].0 == node_id@);
                }
                return Some(&self.node_state_per_node[i].1);
            }
            proof {
                assert(self@[i as int] == (self.node_state_per_node@[i as int].0@, self.node_state_per_node@[i as int].1@));
            }
            i = i + 1;
        }
        None
    }
}

/// One step of a collapse: a node and the state it took, or `None` when it
/// was left without one.
#[derive(Debug, Clone, Eq, PartialEq, Hash)]
pub struct CollapsedNodeState<TNodeState: Eq + Hash + Clone + std::fmt::Debug + Ord> {
    pub node_id: String,
    pub node_state_id: Option<TNodeState>,
}

/// The state of each node during a collapse, by node id; `None` for a node
/// without one yet.
#[derive(Clone, Eq, PartialEq, Debug)]
pub struct UncollapsedWaveFunction<TNodeState: Eq + Hash + Clone + std::fmt::Debug + Ord> {
    pub node_state_per_node: HashMap<String, Option<TNodeState>>,
}

} // verus!
