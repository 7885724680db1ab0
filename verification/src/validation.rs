//! What makes the input of a wave function valid, and the checks that find
//! the first way in which it is not.

use crate::node::{
    find_collection, find_string, lemma_collection_index_upto, strings_view, Node,
    NodeStateCollection,
};
use crate::wave_function::{collections_resolve, is_listing, listed_collection};
use vstd::prelude::*;

verus! {

/// No later node has the same id as node `x` (the node that an id names is
/// the last one with that id).
pub open spec fn is_last_occurrence(nodes: Seq<Node>, x: int) -> bool {
    forall|y: int| x < y < nodes.len() ==> #[trigger] nodes[y].id_view() != nodes[x].id_view()
}

/// Some node has id `id`.
pub open spec fn node_id_exists(nodes: Seq<Node>, id: Seq<char>) -> bool {
    exists|y: int| 0 <= y < nodes.len() && #[trigger] nodes[y].id_view() == id
}

/// Entry `e` of node `x` names a neighbor that is not a node.
pub open spec fn names_missing_neighbor(nodes: Seq<Node>, x: int, e: int) -> bool {
    is_last_occurrence(nodes, x) && !node_id_exists(nodes, nodes[x].entries()[e].0)
}

/// Two collections of entry `e` of node `x` are about the same state.
pub open spec fn has_duplicate_state(
    nodes: Seq<Node>,
    collections: Seq<NodeStateCollection>,
    x: int,
    e: int,
) -> bool {
    exists|c1: int, c2: int|
        0 <= c1 < c2 < nodes[x].entries()[e].1.len() && #[trigger] listed_collection(
            nodes,
            collections,
            x,
            e,
            c1,
        ).state_view() == #[trigger] listed_collection(nodes, collections, x, e, c2).state_view()
}

/// Entry `e` of node `x` does not list exactly one collection per state.
pub open spec fn is_bad_entry(
    nodes: Seq<Node>,
    collections: Seq<NodeStateCollection>,
    states_length: nat,
    x: int,
    e: int,
) -> bool {
    is_last_occurrence(nodes, x) && (has_duplicate_state(nodes, collections, x, e)
        || nodes[x].entries()[e].1.len() != states_length)
}

/// The first entry, from entry `e` of node `x` on, that names a missing neighbor.
pub open spec fn find_missing_neighbor(nodes: Seq<Node>, x: int, e: int) -> Option<(int, int)>
    decreases nodes.len() - x, nodes[x].entries().len() - e,
    when 0 <= x && 0 <= e
{
    if x >= nodes.len() {
        None
    } else if e >= nodes[x].entries().len() {
        find_missing_neighbor(nodes, x + 1, 0)
    } else if names_missing_neighbor(nodes, x, e) {
        Some((x, e))
    } else {
        find_missing_neighbor(nodes, x, e + 1)
    }
}

/// The first bad entry from entry `e` of node `x` on.
pub open spec fn find_bad_entry(
    nodes: Seq<Node>,
    collections: Seq<NodeStateCollection>,
    states_length: nat,
    x: int,
    e: int,
) -> Option<(int, int)>
    decreases nodes.len() - x, nodes[x].entries().len() - e,
    when 0 <= x && 0 <= e
{
    if x >= nodes.len() {
        None
    } else if e >= nodes[x].entries().len() {
        find_bad_entry(nodes, collections, states_length, x + 1, 0)
    } else if is_bad_entry(nodes, collections, states_length, x, e) {
        Some((x, e))
    } else {
        find_bad_entry(nodes, collections, states_length, x, e + 1)
    }
}

/// No two nodes share an id.
pub open spec fn ids_distinct(nodes: Seq<Node>) -> bool {
    forall|i: int, j: int|
        0 <= i < j < nodes.len() ==> #[trigger] nodes[i].id_view() != #[trigger] nodes[j].id_view()
}

/// Node `a` lists node `b` as a neighbor.
pub open spec fn is_edge(nodes: Seq<Node>, a: int, b: int) -> bool {
    exists|e: int|
        0 <= e < nodes[a].entries().len() && #[trigger] nodes[a].entries()[e].0
            == nodes[b].id_view()
}

/// `path` is a walk along listed neighbors: a nonempty sequence of node
/// indices in which each node lists the next one.
pub open spec fn is_path(nodes: Seq<Node>, path: Seq<int>) -> bool {
    &&& path.len() >= 1
    &&& forall|i: int| 0 <= i < path.len() ==> 0 <= #[trigger] path[i] < nodes.len()
    &&& forall|i: int| 0 <= i < path.len() - 1 ==> is_edge(nodes, #[trigger] path[i], path[i + 1])
}

/// Node `b` can be reached from node `a`.
pub open spec fn reaches(nodes: Seq<Node>, a: int, b: int) -> bool {
    exists|path: Seq<int>| #[trigger] is_path(nodes, path) && path[0] == a && path.last() == b
}

/// Every node can be reached from node `s`.
pub open spec fn reaches_all(nodes: Seq<Node>, s: int) -> bool {
    forall|b: int| 0 <= b < nodes.len() ==> #[trigger] reaches(nodes, s, b)
}

/// The node ids are distinct and from some node every node can be reached.
pub open spec fn is_connected(nodes: Seq<Node>) -> bool {
    &&& ids_distinct(nodes)
    &&& exists|s: int| 0 <= s < nodes.len() && #[trigger] reaches_all(nodes, s)
}

/// Nodes with distinct ids of which any one, not only the first, reaches
/// every node along listed neighbors pass validation once the other checks
/// pass: they are never refused as not connected.
pub proof fn lemma_any_start_reaching_all_passes(
    nodes: Seq<Node>,
    collections: Seq<NodeStateCollection>,
    states_length: nat,
    s: int,
)
    requires
        ids_distinct(nodes),
        0 <= s < nodes.len(),
        reaches_all(nodes, s),
        nodes.len() >= 2,
        find_missing_neighbor(nodes, 0, 0) is None,
        find_bad_entry(nodes, collections, states_length, 0, 0) is None,
    ensures
        validation_error(nodes, collections, states_length) == None::<Seq<char>>,
{
    assert(reaches_all(nodes, s));
}

/// Once the other checks pass, validation refuses the nodes exactly when
/// their ids repeat or no node at all reaches every node along listed
/// neighbors.
pub proof fn lemma_refused_only_without_any_start(
    nodes: Seq<Node>,
    collections: Seq<NodeStateCollection>,
    states_length: nat,
)
    requires
        nodes.len() >= 2,
        find_missing_neighbor(nodes, 0, 0) is None,
        find_bad_entry(nodes, collections, states_length, 0, 0) is None,
    ensures
        validation_error(nodes, collections, states_length) is Some <==> !ids_distinct(nodes) || forall|s: int|
            0 <= s < nodes.len() ==> !#[trigger] reaches_all(nodes, s),
{
}

pub open spec fn too_few_nodes_message() -> Seq<char> {
    "There must be two or more nodes."@
}

pub open spec fn missing_neighbor_message(neighbor_id: Seq<char>) -> Seq<char> {
    "Neighbor node "@ + neighbor_id + " does not exist in main list of nodes."@
}

pub open spec fn duplicate_state_message(node_id: Seq<char>, neighbor_id: Seq<char>) -> Seq<char> {
    "Found duplicate node state when node "@ + node_id + " references neighbor node "@
        + neighbor_id + "."@
}

pub open spec fn missing_state_message(node_id: Seq<char>, neighbor_id: Seq<char>) -> Seq<char> {
    "Missing at least one node state reference when node "@ + node_id
        + " references neighbor node "@ + neighbor_id + "."@
}

pub open spec fn not_connected_message() -> Seq<char> {
    "Not all nodes connect together. At least one node must be able to traverse to all other nodes."@
}

/// The message that validation fails with, or `None` when the input is valid.
pub open spec fn validation_error(
    nodes: Seq<Node>,
    collections: Seq<NodeStateCollection>,
    states_length: nat,
) -> Option<Seq<char>> {
    if nodes.len() < 2 {
        Some(too_few_nodes_message())
    } else {
        match find_missing_neighbor(nodes, 0, 0) {
            Some((x, e)) => Some(missing_neighbor_message(nodes[x].entries()[e].0)),
            None => match find_bad_entry(nodes, collections, states_length, 0, 0) {
                Some((x, e)) => Some(
                    if has_duplicate_state(nodes, collections, x, e) {
                        duplicate_state_message(nodes[x].id_view(), nodes[x].entries()[e].0)
                    } else {
                        missing_state_message(nodes[x].id_view(), nodes[x].entries()[e].0)
                    },
                ),
                None => if is_connected(nodes) {
                    None
                } else {
                    Some(not_connected_message())
                },
            },
        }
    }
}

/// Whether no later node has the id of node `x`.
pub fn check_last_occurrence(nodes: &Vec<Node>, x: usize) -> (last: bool)
    requires
        x < nodes@.len(),
    ensures
        last == is_last_occurrence(nodes@, x as int),
{
    let id = nodes[x].get_id();
    let length = nodes.len();
    let mut y: usize = x + 1;
    while y < nodes.len()
        invariant
            x < y <= nodes@.len(),
            id@ == nodes@[x as int].id_view(),
            forall|z: int| x < z < y ==> #[trigger] nodes@[z].id_view() != nodes@[x as int].id_view(),
        decreases nodes@.len() - y,
    {
        if *nodes[y].get_id() == *id {
            return false;
        }
        y = y + 1;
    }
    true
}

/// The index of the node with id `id` (the last one, when several share it).
pub fn find_node(nodes: &Vec<Node>, id: &String) -> (found: Option<usize>)
    ensures
        match found {
            Some(y) => y < nodes@.len() && nodes@[y as int].id_view() == id@ && is_last_occurrence(
                nodes@,
                y as int,
            ),
            None => !node_id_exists(nodes@, id@),
        },
{
    let mut upto = nodes.len();
    while upto > 0
        invariant
            upto <= nodes@.len(),
            forall|z: int| upto <= z < nodes@.len() ==> #[trigger] nodes@[z].id_view() != id@,
        decreases upto,
    {
        if *nodes[upto - 1].get_id() == *id {
            return Some(upto - 1);
        }
        upto = upto - 1;
    }
    None
}

/// The first entry that names a neighbor that is not a node.
pub fn check_neighbors_exist(nodes: &Vec<Node>) -> (found: Option<(usize, usize)>)
    ensures
        match found {
            Some((x, e)) => find_missing_neighbor(nodes@, 0, 0) == Some((x as int, e as int)) && x
                < nodes@.len() && e < nodes@[x as int].entries().len(),
            None => find_missing_neighbor(nodes@, 0, 0) == None::<(int, int)>,
        },
{
    let mut x: usize = 0;
    while x < nodes.len()
        invariant
            x <= nodes@.len(),
            find_missing_neighbor(nodes@, 0, 0) == find_missing_neighbor(nodes@, x as int, 0),
        decreases nodes@.len() - x,
    {
        let last = check_last_occurrence(nodes, x);
        let entries_length = nodes[x].neighbors_length();
        let mut e: usize = 0;
        while e < entries_length
            invariant
                x < nodes@.len(),
                entries_length == nodes@[x as int].entries().len(),
                e <= entries_length,
                last == is_last_occurrence(nodes@, x as int),
                find_missing_neighbor(nodes@, 0, 0) == find_missing_neighbor(
                    nodes@,
                    x as int,
                    e as int,
                ),
            decreases entries_length - e,
        {
            if last {
                let neighbor_id = nodes[x].neighbor_id(e);
                if find_node(nodes, neighbor_id).is_none() {
                    return Some((x, e));
                }
            }
            e = e + 1;
        }
        x = x + 1;
    }
    None
}

/// Whether two collections of entry `e` of node `x` are about the same state.
pub fn check_duplicate_state(
    nodes: &Vec<Node>,
    collections: &Vec<NodeStateCollection>,
    x: usize,
    e: usize,
) -> (duplicate: bool)
    requires
        collections_resolve(nodes@, collections@),
        x < nodes@.len(),
        e < nodes@[x as int].entries().len(),
    ensures
        duplicate == has_duplicate_state(nodes@, collections@, x as int, e as int),
{
    let ghost ns = nodes@;
    let ghost cs = collections@;
    let collection_ids = nodes[x].neighbor_collection_ids(e);
    let mut seen: Vec<String> = Vec::new();
    let mut c: usize = 0;
    while c < collection_ids.len()
        invariant
            ns == nodes@,
            cs == collections@,
            collections_resolve(ns, cs),
            x < ns.len(),
            e < ns[x as int].entries().len(),
            strings_view(collection_ids@) == ns[x as int].entries()[e as int].1,
            c <= collection_ids@.len(),
            seen@.len() == c,
            forall|i: int|
                0 <= i < c ==> #[trigger] seen@[i]@ == listed_collection(
                    ns,
                    cs,
                    x as int,
                    e as int,
                    i,
                ).state_view(),
            forall|c1: int, c2: int|
                0 <= c1 < c2 < c ==> #[trigger] listed_collection(
                    ns,
                    cs,
                    x as int,
                    e as int,
                    c1,
                ).state_view() != #[trigger] listed_collection(
                    ns,
                    cs,
                    x as int,
                    e as int,
                    c2,
                ).state_view(),
        decreases collection_ids@.len() - c,
    {
        proof {
            assert(is_listing(ns, x as int, e as int, c as int));
            assert(ns[x as int].entries()[e as int].1[c as int] == collection_ids@[c as int]@);
            lemma_collection_index_upto(cs, collection_ids@[c as int]@, cs.len() as int);
        }
        let k = find_collection(collections, &collection_ids[c]).unwrap();
        let state = collections[k].get_node_state_id();
        match find_string(&seen, state) {
            Some(i) => {
                proof {
                    assert(listed_collection(ns, cs, x as int, e as int, i as int).state_view()
                        == listed_collection(ns, cs, x as int, e as int, c as int).state_view());
                }
                return true;
            },
            None => {
                seen.push(state.clone());
                proof {
                    assert forall|c1: int, c2: int|
                        0 <= c1 < c2 < c + 1 implies #[trigger] listed_collection(
                        ns,
                        cs,
                        x as int,
                        e as int,
                        c1,
                    ).state_view() != #[trigger] listed_collection(
                        ns,
                        cs,
                        x as int,
                        e as int,
                        c2,
                    ).state_view() by {
                        if c2 == c {
                            assert(seen@[c1]@ != state@);
                        }
                    }
                }
            },
        }
        c = c + 1;
    }
    false
}

/// The first entry that does not list exactly one collection per state.
pub fn check_neighbor_states(
    nodes: &Vec<Node>,
    collections: &Vec<NodeStateCollection>,
    states_length: usize,
) -> (found: Option<(usize, usize, bool)>)
    requires
        collections_resolve(nodes@, collections@),
    ensures
        match found {
            Some((x, e, duplicate)) => find_bad_entry(
                nodes@,
                collections@,
                states_length as nat,
                0,
                0,
            ) == Some((x as int, e as int)) && x < nodes@.len() && e < nodes@[x as int].entries().len()
                && duplicate == has_duplicate_state(nodes@, collections@, x as int, e as int),
            None => find_bad_entry(nodes@, collections@, states_length as nat, 0, 0) == None::<
                (int, int),
            >,
        },
{
    let mut x: usize = 0;
    while x < nodes.len()
        invariant
            collections_resolve(nodes@, collections@),
            x <= nodes@.len(),
            find_bad_entry(nodes@, collections@, states_length as nat, 0, 0) == find_bad_entry(
                nodes@,
                collections@,
                states_length as nat,
                x as int,
                0,
            ),
        decreases nodes@.len() - x,
    {
        let last = check_last_occurrence(nodes, x);
        let entries_length = nodes[x].neighbors_length();
        let mut e: usize = 0;
        while e < entries_length
            invariant
                collections_resolve(nodes@, collections@),
                x < nodes@.len(),
                entries_length == nodes@[x as int].entries().len(),
                e <= entries_length,
                last == is_last_occurrence(nodes@, x as int),
                find_bad_entry(nodes@, collections@, states_length as nat, 0, 0) == find_bad_entry(
                    nodes@,
                    collections@,
                    states_length as nat,
                    x as int,
                    e as int,
                ),
            decreases entries_length - e,
        {
            if last {
                let duplicate = check_duplicate_state(nodes, collections, x, e);
                if duplicate || nodes[x].neighbor_collection_ids(e).len() != states_length {
                    return Some((x, e, duplicate));
                }
            }
            e = e + 1;
        }
        x = x + 1;
    }
    None
}

proof fn lemma_no_missing_neighbor(nodes: Seq<Node>, x: int, e: int)
    requires
        0 <= x,
        0 <= e,
        find_missing_neighbor(nodes, x, e) == None::<(int, int)>,
    ensures
        forall|x2: int, e2: int|
            x <= x2 < nodes.len() && 0 <= e2 < nodes[x2].entries().len() && (x2 > x || e2 >= e)
                ==> !#[trigger] names_missing_neighbor(nodes, x2, e2),
    decreases nodes.len() - x, nodes[x].entries().len() - e,
{
    if x < nodes.len() {
        if e >= nodes[x].entries().len() {
            lemma_no_missing_neighbor(nodes, x + 1, 0);
        } else {
            lemma_no_missing_neighbor(nodes, x, e + 1);
        }
    }
}

proof fn lemma_no_bad_entry(
    nodes: Seq<Node>,
    collections: Seq<NodeStateCollection>,
    states_length: nat,
    x: int,
    e: int,
)
    requires
        0 <= x,
        0 <= e,
        find_bad_entry(nodes, collections, states_length, x, e) == None::<(int, int)>,
    ensures
        forall|x2: int, e2: int|
            x <= x2 < nodes.len() && 0 <= e2 < nodes[x2].entries().len() && (x2 > x || e2 >= e)
                ==> !#[trigger] is_bad_entry(nodes, collections, states_length, x2, e2),
    decreases nodes.len() - x, nodes[x].entries().len() - e,
{
    if x < nodes.len() {
        if e >= nodes[x].entries().len() {
            lemma_no_bad_entry(nodes, collections, states_length, x + 1, 0);
        } else {
            lemma_no_bad_entry(nodes, collections, states_length, x, e + 1);
        }
    }
}

/// When validation passes, every entry of every node names a node and lists
/// exactly one collection per state.
pub proof fn lemma_valid_entries(
    nodes: Seq<Node>,
    collections: Seq<NodeStateCollection>,
    states_length: nat,
)
    requires
        validation_error(nodes, collections, states_length) == None::<Seq<char>>,
    ensures
        ids_distinct(nodes),
        forall|x: int, e: int|
            0 <= x < nodes.len() && 0 <= e < nodes[x].entries().len() ==> node_id_exists(
                nodes,
                #[trigger] nodes[x].entries()[e].0,
            ) && !has_duplicate_state(nodes, collections, x, e) && nodes[x].entries()[e].1.len()
                == states_length,
{
    lemma_no_missing_neighbor(nodes, 0, 0);
    lemma_no_bad_entry(nodes, collections, states_length, 0, 0);
    assert forall|x: int, e: int|
        0 <= x < nodes.len() && 0 <= e < nodes[x].entries().len() implies node_id_exists(
        nodes,
        #[trigger] nodes[x].entries()[e].0,
    ) && !has_duplicate_state(nodes, collections, x, e) && nodes[x].entries()[e].1.len()
        == states_length by {
        assert(is_last_occurrence(nodes, x));
        assert(!names_missing_neighbor(nodes, x, e));
        assert(!is_bad_entry(nodes, collections, states_length, x, e));
    }
}

/// For each node, the indices of the nodes that its entries name, in entry order.
pub open spec fn adjacency_matches(nodes: Seq<Node>, adjacency: Seq<Vec<usize>>) -> bool {
    &&& adjacency.len() == nodes.len()
    &&& forall|x: int|
        0 <= x < nodes.len() ==> #[trigger] adjacency[x]@.len() == nodes[x].entries().len()
    &&& forall|x: int, e: int|
        0 <= x < nodes.len() && 0 <= e < nodes[x].entries().len() ==> (#[trigger] adjacency[x]@[e])
            < nodes.len() && nodes[adjacency[x]@[e] as int].id_view() == nodes[x].entries()[e].0
}

/// The node index of each neighbor of each node; every neighbor id must name a node.
pub fn build_adjacency(nodes: &Vec<Node>) -> (adjacency: Vec<Vec<usize>>)
    requires
        forall|x: int, e: int|
            0 <= x < nodes@.len() && 0 <= e < nodes@[x].entries().len() ==> node_id_exists(
                nodes@,
                #[trigger] nodes@[x].entries()[e].0,
            ),
    ensures
        adjacency_matches(nodes@, adjacency@),
{
    let mut adjacency: Vec<Vec<usize>> = Vec::new();
    let mut x: usize = 0;
    while x < nodes.len()
        invariant
            x <= nodes@.len(),
            adjacency@.len() == x,
            forall|x2: int, e: int|
                0 <= x2 < nodes@.len() && 0 <= e < nodes@[x2].entries().len() ==> node_id_exists(
                    nodes@,
                    #[trigger] nodes@[x2].entries()[e].0,
                ),
            forall|x2: int| 0 <= x2 < x ==> #[trigger] adjacency@[x2]@.len() == nodes@[x2].entries().len(),
            forall|x2: int, e: int|
                0 <= x2 < x && 0 <= e < nodes@[x2].entries().len() ==> (#[trigger] adjacency@[x2]@[e])
                    < nodes@.len() && nodes@[adjacency@[x2]@[e] as int].id_view()
                    == nodes@[x2].entries()[e].0,
        decreases nodes@.len() - x,
    {
        let entries_length = nodes[x].neighbors_length();
        let mut neighbors: Vec<usize> = Vec::new();
        let mut e: usize = 0;
        while e < entries_length
            invariant
                x < nodes@.len(),
                entries_length == nodes@[x as int].entries().len(),
                e <= entries_length,
                neighbors@.len() == e,
                forall|x2: int, e2: int|
                    0 <= x2 < nodes@.len() && 0 <= e2 < nodes@[x2].entries().len()
                        ==> node_id_exists(nodes@, #[trigger] nodes@[x2].entries()[e2].0),
                forall|e2: int|
                    0 <= e2 < e ==> (#[trigger] neighbors@[e2]) < nodes@.len() && nodes@[neighbors@[e2] as int].id_view()
                        == nodes@[x as int].entries()[e2].0,
            decreases entries_length - e,
        {
            let neighbor_id = nodes[x].neighbor_id(e);
            proof {
                assert(node_id_exists(nodes@, nodes@[x as int].entries()[e as int].0));
            }
            let y = find_node(nodes, neighbor_id).unwrap();
            neighbors.push(y);
            e = e + 1;
        }
        adjacency.push(neighbors);
        x = x + 1;
    }
    adjacency
}

/// How many entries of `flags` are `false`.
pub open spec fn count_false(flags: Seq<bool>) -> nat
    decreases flags.len(),
{
    if flags.len() == 0 {
        0
    } else {
        count_false(flags.drop_last()) + if flags.last() {
            0nat
        } else {
            1nat
        }
    }
}

proof fn lemma_count_false_set(flags: Seq<bool>, i: int)
    requires
        0 <= i < flags.len(),
    ensures
        count_false(flags.update(i, true)) == if flags[i] {
            count_false(flags)
        } else {
            (count_false(flags) - 1) as nat
        },
        !flags[i] ==> count_false(flags) >= 1,
    decreases flags.len(),
{
    let updated = flags.update(i, true);
    if i == flags.len() - 1 {
        assert(updated.drop_last() =~= flags.drop_last());
    } else {
        assert(updated.drop_last() =~= flags.drop_last().update(i, true));
        lemma_count_false_set(flags.drop_last(), i);
    }
}

proof fn lemma_edge_from_adjacency(nodes: Seq<Node>, adjacency: Seq<Vec<usize>>, v: int, e: int)
    requires
        adjacency_matches(nodes, adjacency),
        0 <= v < nodes.len(),
        0 <= e < nodes[v].entries().len(),
    ensures
        is_edge(nodes, v, adjacency[v]@[e] as int),
{
    assert(nodes[v].entries()[e].0 == nodes[adjacency[v]@[e] as int].id_view());
}

proof fn lemma_reaches_step(nodes: Seq<Node>, a: int, w: int, b: int)
    requires
        reaches(nodes, a, w),
        0 <= b < nodes.len(),
        is_edge(nodes, w, b),
    ensures
        reaches(nodes, a, b),
{
    let path = choose|path: Seq<int>| #[trigger] is_path(nodes, path) && path[0] == a && path.last() == w;
    let longer = path.push(b);
    assert forall|i: int| 0 <= i < longer.len() - 1 implies is_edge(nodes, #[trigger] longer[i], longer[i + 1]) by {
        if i < path.len() - 1 {
            assert(longer[i] == path[i] && longer[i + 1] == path[i + 1]);
        }
    }
    assert(is_path(nodes, longer));
}

proof fn lemma_reaches_self(nodes: Seq<Node>, a: int)
    requires
        0 <= a < nodes.len(),
    ensures
        reaches(nodes, a, a),
{
    let path = seq![a];
    assert(is_path(nodes, path));
}

proof fn lemma_closed_set_holds_path(
    nodes: Seq<Node>,
    adjacency: Seq<Vec<usize>>,
    traversed: Seq<bool>,
    path: Seq<int>,
)
    requires
        ids_distinct(nodes),
        adjacency_matches(nodes, adjacency),
        traversed.len() == nodes.len(),
        is_path(nodes, path),
        traversed[path[0]],
        forall|v: int, e: int|
            0 <= v < nodes.len() && traversed[v] && 0 <= e < nodes[v].entries().len()
                ==> traversed[#[trigger] adjacency[v]@[e] as int],
    ensures
        traversed[path.last()],
    decreases path.len(),
{
    if path.len() > 1 {
        let shorter = path.drop_last();
        assert forall|i: int| 0 <= i < shorter.len() - 1 implies is_edge(nodes, #[trigger] shorter[i], shorter[i + 1]) by {
            assert(shorter[i] == path[i] && shorter[i + 1] == path[i + 1]);
        }
        assert(is_path(nodes, shorter));
        lemma_closed_set_holds_path(nodes, adjacency, traversed, shorter);
        let w = path[path.len() - 2];
        let b = path.last();
        assert(w == shorter.last());
        assert(is_edge(nodes, w, b));
        let e = choose|e: int|
            0 <= e < nodes[w].entries().len() && #[trigger] nodes[w].entries()[e].0
                == nodes[b].id_view();
        let u = adjacency[w]@[e] as int;
        assert(nodes[u].id_view() == nodes[w].entries()[e].0);
        if u != b {
            if u < b {
                assert(nodes[u].id_view() != nodes[b].id_view());
            } else {
                assert(nodes[b].id_view() != nodes[u].id_view());
            }
        }
        assert(traversed[u]);
    }
}

/// Whether every node can be reached from node `start` (a depth-first walk).
pub fn reaches_every_node(nodes: &Vec<Node>, adjacency: &Vec<Vec<usize>>, start: usize) -> (all:
    bool)
    requires
        ids_distinct(nodes@),
        adjacency_matches(nodes@, adjacency@),
        start < nodes@.len(),
    ensures
        all == reaches_all(nodes@, start as int),
{
    let ghost ns = nodes@;
    let ghost adj = adjacency@;
    let length = nodes.len();
    let mut traversed: Vec<bool> = Vec::new();
    let mut in_stack: Vec<bool> = Vec::new();
    let mut i: usize = 0;
    while i < length
        invariant
            length == ns.len(),
            i <= length,
            traversed@.len() == i,
            in_stack@.len() == i,
            forall|k: int| 0 <= k < i ==> !traversed@[k] && !in_stack@[k],
        decreases length - i,
    {
        traversed.push(false);
        in_stack.push(false);
        i = i + 1;
    }
    let mut stack: Vec<usize> = Vec::new();
    stack.push(start);
    in_stack.set(start, true);
    proof {
        lemma_reaches_self(ns, start as int);
        assert(stack@[0] == start);
        assert forall|v: int| 0 <= v < length && #[trigger] in_stack@[v] implies stack@.contains(v as usize) by {
            assert(v == start);
        }
    }
    while stack.len() > 0
        invariant
            ns == nodes@,
            adj == adjacency@,
            ids_distinct(ns),
            adjacency_matches(ns, adj),
            length == ns.len(),
            start < length,
            traversed@.len() == length,
            in_stack@.len() == length,
            forall|k: int| 0 <= k < stack@.len() ==> (#[trigger] stack@[k]) < length && in_stack@[stack@[k] as int],
            forall|k1: int, k2: int| 0 <= k1 < k2 < stack@.len() ==> #[trigger] stack@[k1] != #[trigger] stack@[k2],
            forall|v: int| 0 <= v < length && #[trigger] in_stack@[v] ==> stack@.contains(v as usize),
            forall|v: int|
                0 <= v < length && (#[trigger] traversed@[v] || in_stack@[v]) ==> reaches(ns, start as int, v),
            forall|v: int, e: int|
                0 <= v < length && traversed@[v] && 0 <= e < ns[v].entries().len() ==> traversed@[#[trigger] adj[v]@[e] as int]
                    || in_stack@[adj[v]@[e] as int],
            traversed@[start as int] || in_stack@[start as int],
        decreases count_false(traversed@), stack@.len(),
    {
        let ghost pre = stack@;
        let v = stack.pop().unwrap();
        proof {
            assert(pre[pre.len() - 1] == v);
            assert forall|k: int| 0 <= k < stack@.len() implies #[trigger] stack@[k] != v by {
                assert(pre[k] == stack@[k]);
            }
        }
        let ghost in_stack_before_pop = in_stack@;
        in_stack.set(v, false);
        proof {
            assert forall|w: int| 0 <= w < length && (#[trigger] traversed@[w] || in_stack@[w]) implies reaches(ns, start as int, w) by {
                if w != v {
                    assert(in_stack@[w] == in_stack_before_pop[w]);
                }
                assert(traversed@[w] || in_stack_before_pop[w]);
            }
        }
        let ghost was_traversed = traversed@[v as int];
        let ghost before_length = stack@.len();
        proof {
            assert forall|u: int| 0 <= u < length && #[trigger] in_stack@[u] implies stack@.contains(u as usize) by {
                assert(pre.contains(u as usize));
                let k = choose|k: int| 0 <= k < pre.len() && pre[k] == u as usize;
                assert(k != pre.len() - 1);
                assert(stack@[k] == u as usize);
            }
        }
        let neighbors = &adjacency[v];
        let mut e: usize = 0;
        while e < neighbors.len()
            invariant
                ns == nodes@,
                adj == adjacency@,
                ids_distinct(ns),
                adjacency_matches(ns, adj),
                length == ns.len(),
                start < length,
                v < length,
                *neighbors == adj[v as int],
                neighbors@.len() == ns[v as int].entries().len(),
                e <= neighbors@.len(),
                traversed@.len() == length,
                in_stack@.len() == length,
                traversed@[v as int] == was_traversed,
                !in_stack@[v as int] || (exists|e2: int| 0 <= e2 < e && neighbors@[e2] == v),
                forall|k: int| 0 <= k < stack@.len() ==> (#[trigger] stack@[k]) < length && in_stack@[stack@[k] as int],
                forall|k1: int, k2: int| 0 <= k1 < k2 < stack@.len() ==> #[trigger] stack@[k1] != #[trigger] stack@[k2],
                forall|w: int| 0 <= w < length && #[trigger] in_stack@[w] ==> stack@.contains(w as usize),
                forall|w: int|
                    0 <= w < length && (#[trigger] traversed@[w] || in_stack@[w]) ==> reaches(ns, start as int, w),
                reaches(ns, start as int, v as int),
                forall|w: int, e2: int|
                    0 <= w < length && traversed@[w] && 0 <= e2 < ns[w].entries().len() ==> traversed@[#[trigger] adj[w]@[e2] as int]
                        || in_stack@[adj[w]@[e2] as int] || w == v || adj[w]@[e2] == v,
                forall|e2: int| 0 <= e2 < e ==> traversed@[#[trigger] neighbors@[e2] as int] || in_stack@[neighbors@[e2] as int],
                traversed@[start as int] || in_stack@[start as int] || start == v,
                was_traversed ==> stack@.len() == before_length,
                was_traversed ==> forall|e2: int| 0 <= e2 < neighbors@.len() ==> traversed@[#[trigger] neighbors@[e2] as int]
                    || in_stack@[neighbors@[e2] as int] || neighbors@[e2] == v,
            decreases neighbors@.len() - e,
        {
            let u = neighbors[e];
            if !traversed[u] && !in_stack[u] {
                proof {
                    lemma_edge_from_adjacency(ns, adj, v as int, e as int);
                    lemma_reaches_step(ns, start as int, v as int, u as int);
                    if was_traversed {
                        assert(traversed@[adj[v as int]@[e as int] as int] || in_stack@[adj[v as int]@[e as int] as int] || adj[v as int]@[e as int] == v);
                    }
                }
                let ghost pre_push = stack@;
                let ghost pre_in_stack = in_stack@;
                assert(forall|w: int| 0 <= w < length && (traversed@[w] || pre_in_stack[w]) ==> reaches(ns, start as int, w));
                stack.push(u);
                in_stack.set(u, true);
                proof {
                    assert(reaches(ns, start as int, u as int));
                    assert forall|w: int| 0 <= w < length && (#[trigger] traversed@[w] || in_stack@[w]) implies reaches(ns, start as int, w) by {
                        if w != u {
                            assert(in_stack@[w] == pre_in_stack[w]);
                        }
                    }
                    assert(stack@[stack@.len() - 1] == u);
                    assert forall|w: int| 0 <= w < length && #[trigger] in_stack@[w] implies stack@.contains(w as usize) by {
                        if w != u {
                            assert(pre_push.contains(w as usize));
                            let k = choose|k: int| 0 <= k < pre_push.len() && pre_push[k] == w as usize;
                            assert(stack@[k] == w as usize);
                        }
                    }
                }
                assert(forall|w: int| 0 <= w < length && (#[trigger] traversed@[w] || in_stack@[w]) ==> reaches(ns, start as int, w));
            } else {
                assert(forall|w: int| 0 <= w < length && (#[trigger] traversed@[w] || in_stack@[w]) ==> reaches(ns, start as int, w));
            }
            e = e + 1;
        }
        proof {
            lemma_count_false_set(traversed@, v as int);
        }
        let ghost pre_traversed = traversed@;
        traversed.set(v, true);
        proof {
            assert forall|w: int| 0 <= w < length && (#[trigger] traversed@[w] || in_stack@[w]) implies reaches(ns, start as int, w) by {
                if w != v {
                    assert(traversed@[w] == pre_traversed[w]);
                }
            }
        }
    }
    proof {
        assert forall|b: int| 0 <= b < length implies #[trigger] reaches(ns, start as int, b) == traversed@[b] by {
            if reaches(ns, start as int, b) {
                let path = choose|path: Seq<int>| #[trigger] is_path(ns, path) && path[0] == start as int && path.last() == b;
                assert forall|w: int| 0 <= w < length && #[trigger] in_stack@[w] implies false by {
                    assert(stack@.contains(w as usize));
                }
                lemma_closed_set_holds_path(ns, adj, traversed@, path);
            }
        }
    }
    let mut b: usize = 0;
    while b < length
        invariant
            ns == nodes@,
            b <= length,
            length == ns.len(),
            traversed@.len() == length,
            forall|b2: int| 0 <= b2 < length ==> #[trigger] reaches(ns, start as int, b2) == traversed@[b2],
            forall|b2: int| 0 <= b2 < b ==> #[trigger] traversed@[b2],
        decreases length - b,
    {
        if !traversed[b] {
            proof {
                assert(!reaches(ns, start as int, b as int));
            }
            return false;
        }
        b = b + 1;
    }
    true
}

/// Whether no two nodes share an id.
pub fn check_ids_distinct(nodes: &Vec<Node>) -> (distinct: bool)
    ensures
        distinct == ids_distinct(nodes@),
{
    let mut x: usize = 0;
    while x < nodes.len()
        invariant
            x <= nodes@.len(),
            forall|i: int, j: int| 0 <= i < x && i < j < nodes@.len() ==> #[trigger] nodes@[i].id_view() != #[trigger] nodes@[j].id_view(),
        decreases nodes@.len() - x,
    {
        if !check_last_occurrence(nodes, x) {
            return false;
        }
        x = x + 1;
    }
    true
}

/// Whether the node ids are distinct and every node can be reached from one of them.
pub fn check_connected(nodes: &Vec<Node>, adjacency: &Vec<Vec<usize>>) -> (connected: bool)
    requires
        adjacency_matches(nodes@, adjacency@),
    ensures
        connected == is_connected(nodes@),
{
    if !check_ids_distinct(nodes) {
        return false;
    }
    let mut s: usize = 0;
    while s < nodes.len()
        invariant
            ids_distinct(nodes@),
            adjacency_matches(nodes@, adjacency@),
            s <= nodes@.len(),
            forall|s2: int| 0 <= s2 < s ==> !#[trigger] reaches_all(nodes@, s2),
        decreases nodes@.len() - s,
    {
        if reaches_every_node(nodes, adjacency, s) {
            return true;
        }
        s = s + 1;
    }
    false
}

/// When node ids are distinct and no entry names a missing neighbor, every
/// neighbor id names a node.
pub proof fn lemma_no_missing_neighbor_everywhere(nodes: Seq<Node>)
    requires
        ids_distinct(nodes),
        find_missing_neighbor(nodes, 0, 0) == None::<(int, int)>,
    ensures
        forall|x: int, e: int|
            0 <= x < nodes.len() && 0 <= e < nodes[x].entries().len() ==> node_id_exists(
                nodes,
                #[trigger] nodes[x].entries()[e].0,
            ),
{
    lemma_no_missing_neighbor(nodes, 0, 0);
    assert forall|x: int, e: int|
        0 <= x < nodes.len() && 0 <= e < nodes[x].entries().len() implies node_id_exists(
        nodes,
        #[trigger] nodes[x].entries()[e].0,
    ) by {
        assert(is_last_occurrence(nodes, x));
        assert(!names_missing_neighbor(nodes, x, e));
    }
}

} // verus!
