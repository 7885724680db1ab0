//! The input of a wave function: nodes, each with the node state collections
//! it places on each of its neighbors, and the collections themselves.

use vstd::prelude::*;

verus! {

/// The views of a vector of strings.
pub open spec fn strings_view(strings: Seq<String>) -> Seq<Seq<char>> {
    strings.map_values(|s: String| s@)
}

/// A node: its id and, per neighbor node id, the ids of the node state
/// collections that say which states the neighbor may take for each state of
/// this node. No neighbor id occurs twice.
pub struct Node {
    id: String,
    node_state_collection_ids_per_neighbor_node_id: Vec<(String, Vec<String>)>,
}

/// A node state collection: when a node is in state `node_state_id`, the
/// neighbor that this collection is listed for may only take one of
/// `node_state_ids`.
pub struct NodeStateCollection {
    id: String,
    node_state_id: String,
    node_state_ids: Vec<String>,
}

/// The neighbor entries of a node, as views.
pub open spec fn entries_view(entries: Seq<(String, Vec<String>)>) -> Seq<
    (Seq<char>, Seq<Seq<char>>),
> {
    entries.map_values(|e: (String, Vec<String>)| (e.0@, strings_view(e.1@)))
}

/// No neighbor id occurs twice among the entries.
pub open spec fn neighbor_ids_distinct(entries: Seq<(Seq<char>, Seq<Seq<char>>)>) -> bool {
    forall|i: int, j: int| 0 <= i < j < entries.len() ==> #[trigger] entries[i].0 != #[trigger] entries[j].0
}

impl Node {
    #[verifier::type_invariant]
    closed spec fn neighbor_ids_are_distinct(self) -> bool {
        neighbor_ids_distinct(entries_view(self.node_state_collection_ids_per_neighbor_node_id@))
    }

    /// The node's id.
    pub closed spec fn id_view(&self) -> Seq<char> {
        self.id@
    }

    /// Per neighbor: its id and the ids of the collections listed for it.
    pub closed spec fn entries(&self) -> Seq<(Seq<char>, Seq<Seq<char>>)> {
        entries_view(self.node_state_collection_ids_per_neighbor_node_id@)
    }

    /// A node with the given id and neighbor entries, which must name each
    /// neighbor once.
    pub fn new(
        id: String,
        node_state_collection_ids_per_neighbor_node_id: Vec<(String, Vec<String>)>,
    ) -> (node: Node)
        requires
            neighbor_ids_distinct(entries_view(node_state_collection_ids_per_neighbor_node_id@)),
        ensures
            node.id_view() == id@,
            node.entries() == entries_view(node_state_collection_ids_per_neighbor_node_id@),
    {
        Node { id, node_state_collection_ids_per_neighbor_node_id }
    }

    /// The node's id.
    pub fn get_id(&self) -> (id: &String)
        ensures
            id@ == self.id_view(),
    {
        &self.id
    }

    /// The number of neighbor entries; each neighbor id occurs among them once.
    pub fn neighbors_length(&self) -> (length: usize)
        ensures
            length == self.entries().len(),
            neighbor_ids_distinct(self.entries()),
    {
        proof {
            use_type_invariant(self);
        }
        self.node_state_collection_ids_per_neighbor_node_id.len()
    }

    /// The id of the neighbor of entry `index`.
    pub fn neighbor_id(&self, index: usize) -> (id: &String)
        requires
            index < self.entries().len(),
        ensures
            id@ == self.entries()[index as int].0,
    {
        &self.node_state_collection_ids_per_neighbor_node_id[index].0
    }

    /// The collection ids of entry `index`.
    pub fn neighbor_collection_ids(&self, index: usize) -> (ids: &Vec<String>)
        requires
            index < self.entries().len(),
        ensures
            strings_view(ids@) == self.entries()[index as int].1,
    {
        &self.node_state_collection_ids_per_neighbor_node_id[index].1
    }
}

impl NodeStateCollection {
    pub closed spec fn id_view(&self) -> Seq<char> {
        self.id@
    }

    /// The state of the node that this collection is about.
    pub closed spec fn state_view(&self) -> Seq<char> {
        self.node_state_id@
    }

    /// The states that the neighbor may take then.
    pub closed spec fn permitted_view(&self) -> Seq<Seq<char>> {
        strings_view(self.node_state_ids@)
    }

    pub fn new(id: String, node_state_id: String, node_state_ids: Vec<String>) -> (collection: Self)
        ensures
            collection.id_view() == id@,
            collection.state_view() == node_state_id@,
            collection.permitted_view() == strings_view(node_state_ids@),
    {
        NodeStateCollection { id, node_state_id, node_state_ids }
    }

    pub fn get_id(&self) -> (id: &String)
        ensures
            id@ == self.id_view(),
    {
        &self.id
    }

    pub fn get_node_state_id(&self) -> (state: &String)
        ensures
            state@ == self.state_view(),
    {
        &self.node_state_id
    }

    pub fn get_node_state_ids(&self) -> (states: &Vec<String>)
        ensures
            strings_view(states@) == self.permitted_view(),
    {
        &self.node_state_ids
    }
}

/// The index of the last collection with id `collection_id` among the first
/// `upto` collections, or -1 (a later collection with the same id replaces an
/// earlier one).
pub open spec fn collection_index_upto(
    collections: Seq<NodeStateCollection>,
    collection_id: Seq<char>,
    upto: int,
) -> int
    decreases upto,
{
    if upto <= 0 {
        -1
    } else if collections[upto - 1].id_view() == collection_id {
        upto - 1
    } else {
        collection_index_upto(collections, collection_id, upto - 1)
    }
}

/// The index of the collection that id `collection_id` names, or -1.
pub open spec fn collection_index(collections: Seq<NodeStateCollection>, collection_id: Seq<char>) -> int {
    collection_index_upto(collections, collection_id, collections.len() as int)
}

pub proof fn lemma_collection_index_upto(
    collections: Seq<NodeStateCollection>,
    collection_id: Seq<char>,
    upto: int,
)
    requires
        0 <= upto <= collections.len(),
    ensures
        -1 <= collection_index_upto(collections, collection_id, upto) < upto,
        collection_index_upto(collections, collection_id, upto) >= 0 ==> collections[collection_index_upto(collections, collection_id, upto)].id_view() == collection_id,
        collection_index_upto(collections, collection_id, upto) == -1 ==> forall|i: int|
            0 <= i < upto ==> #[trigger] collections[i].id_view() != collection_id,
    decreases upto,
{
    if upto > 0 {
        lemma_collection_index_upto(collections, collection_id, upto - 1);
    }
}

/// Finds the collection that `collection_id` names (the last one with that id).
pub fn find_collection(collections: &Vec<NodeStateCollection>, collection_id: &String) -> (found:
    Option<usize>)
    ensures
        match found {
            Some(i) => i as int == collection_index(collections@, collection_id@),
            None => collection_index(collections@, collection_id@) == -1,
        },
{
    let mut upto = collections.len();
    while upto > 0
        invariant
            upto <= collections@.len(),
            collection_index(collections@, collection_id@) == collection_index_upto(
                collections@,
                collection_id@,
                upto as int,
            ),
        decreases upto,
    {
        if collections[upto - 1].id == *collection_id {
            return Some(upto - 1);
        }
        upto = upto - 1;
    }
    None
}

/// The first index of `needle` among `haystack`, by their views.
pub fn find_string(haystack: &Vec<String>, needle: &String) -> (found: Option<usize>)
    ensures
        match found {
            Some(i) => i < haystack@.len() && haystack@[i as int]@ == needle@ && forall|k: int|
                0 <= k < i ==> #[trigger] haystack@[k]@ != needle@,
            None => forall|k: int| 0 <= k < haystack@.len() ==> #[trigger] haystack@[k]@ != needle@,
        },
{
    let mut i: usize = 0;
    while i < haystack.len()
        invariant
            i <= haystack@.len(),
            forall|k: int| 0 <= k < i ==> #[trigger] haystack@[k]@ != needle@,
        decreases haystack@.len() - i,
    {
        if haystack[i] == *needle {
            return Some(i);
        }
        i = i + 1;
    }
    None
}

} // verus!
