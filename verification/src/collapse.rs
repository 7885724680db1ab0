//! The backtracking search that gives every node one state such that the
//! masks of its neighbors permit it.

use crate::indexed_view::{
    current_mask, is_unmasked, lemma_masked_count_bound, masked_count, views_hold_masks_of_length, IndexedView,
    NeighborMaskView,
};
use crate::mask::mask_bits;
use crate::random::{next_random_u32, shuffle_indices};
use crate::sorting::stable_sort_by_keys;
use rand_chacha::ChaCha8Rng;
use vstd::prelude::*;

verus! {

broadcast use vstd::std_specs::hash::group_hash_axioms;

/// The state indices `0..length`, in order.
pub open spec fn state_indices(length: nat) -> Seq<usize> {
    Seq::new(length, |i: int| i as usize)
}

/// Like `is_unmasked`, but ignoring the view of node `excluded`.
pub open spec fn is_unmasked_except(
    views: Seq<NeighborMaskView>,
    sources: Seq<usize>,
    key: usize,
    index: int,
    excluded: int,
) -> bool {
    forall|j: int|
        0 <= j < sources.len() && sources[j] != excluded ==> match #[trigger] current_mask(
            views,
            sources[j] as int,
            key,
        ) {
            Some(mask) => mask_bits(mask)[index],
            None => true,
        }
}

/// Every mask that the views hold permits each of the states `0..length`.
pub open spec fn masks_permit_all(views: Seq<NeighborMaskView>, length: nat) -> bool {
    forall|y: int, t: usize, k: usize, s: int|
        0 <= y < views.len() && views[y].values().contains_key(t)
            && #[trigger] views[y].values()[t].contains_key(k) && 0 <= s < length ==> #[trigger] mask_bits(
            views[y].values()[t][k],
        )[s]
}

/// Views with the same values as views whose masks permit every state permit
/// every state too.
proof fn lemma_masks_permit_all_frame(a: Seq<NeighborMaskView>, b: Seq<NeighborMaskView>, length: nat)
    requires
        masks_permit_all(a, length),
        a.len() == b.len(),
        forall|y: int| 0 <= y < a.len() ==> #[trigger] b[y].values() == a[y].values(),
    ensures
        masks_permit_all(b, length),
{
    assert forall|y: int, t: usize, k: usize, s: int|
        0 <= y < b.len() && b[y].values().contains_key(t) && #[trigger] b[y].values()[t].contains_key(k)
            && 0 <= s < length implies #[trigger] mask_bits(b[y].values()[t][k])[s] by {
        assert(b[y].values() == a[y].values());
    }
}

/// When every mask permits every state, every state is unmasked.
proof fn lemma_unmasked_everywhere(
    views: Seq<NeighborMaskView>,
    sources: Seq<usize>,
    key: usize,
    length: nat,
    index: int,
)
    requires
        masks_permit_all(views, length),
        forall|j: int| 0 <= j < sources.len() ==> #[trigger] sources[j] < views.len(),
        0 <= index < length,
    ensures
        is_unmasked(views, sources, key, index),
{
    assert forall|j: int| 0 <= j < sources.len() implies match #[trigger] current_mask(
        views,
        sources[j] as int,
        key,
    ) {
        Some(mask) => mask_bits(mask)[index],
        None => true,
    } by {
        let y = sources[j] as int;
        match views[y].orientation() {
            Some(t) => {
                if views[y].values().contains_key(t) && views[y].values()[t].contains_key(key) {
                    assert(mask_bits(views[y].values()[t][key])[index]);
                }
            },
            None => {},
        }
    }
}

/// A node during the search: its neighbors, its states, the sort position it
/// was chosen at, and a random value that breaks ties when sorting.
pub struct CollapsableNode {
    id: usize,
    neighbor_node_ids: Vec<usize>,
    node_state_indexed_view: IndexedView<usize>,
    current_chosen_from_sort_index: Option<usize>,
    random_sort_index: u32,
}

impl CollapsableNode {
    pub closed spec fn node_id(&self) -> usize {
        self.id
    }

    pub closed spec fn neighbors(&self) -> Seq<usize> {
        self.neighbor_node_ids@
    }

    pub closed spec fn view(&self) -> IndexedView<usize> {
        self.node_state_indexed_view
    }

    pub closed spec fn chosen(&self) -> Option<usize> {
        self.current_chosen_from_sort_index
    }

    pub closed spec fn random_value(&self) -> u32 {
        self.random_sort_index
    }

    /// A node that has not been chosen yet.
    pub fn new(id: usize, neighbor_node_ids: Vec<usize>, node_state_indexed_view: IndexedView<usize>) -> (node: Self)
        ensures
            node.node_id() == id,
            node.neighbors() == neighbor_node_ids@,
            node.view() == node_state_indexed_view,
            node.chosen() == None::<usize>,
            node.random_value() == 0,
    {
        CollapsableNode {
            id,
            neighbor_node_ids,
            node_state_indexed_view,
            current_chosen_from_sort_index: None,
            random_sort_index: 0,
        }
    }

    /// Whether no state is permitted, or the node's state no longer is.
    pub fn is_fully_restricted(&self, views: &Vec<NeighborMaskView>) -> (restricted: bool)
        requires
            self.view().wf(),
            self.view().fits(views@),
        ensures
            restricted == (self.view().fully_restricted_in(views@)
                || self.view().current_state_restricted_in(views@)),
    {
        self.node_state_indexed_view.is_fully_restricted_or_current_state_is_restricted(views)
    }

    /// The share of the node's states that are forbidden, as an exact
    /// fraction: all of them once the node holds a state.
    pub fn get_restriction_ratio(&self, views: &Vec<NeighborMaskView>) -> (ratio: (usize, usize))
        requires
            self.view().wf(),
            self.view().fits(views@),
        ensures
            ratio.1 == self.view().states().len(),
            ratio.0 == if self.view().position() is Some {
                self.view().states().len()
            } else {
                masked_count(
                    views@,
                    self.view().mask_sources(),
                    self.view().mask_key(),
                    self.view().states().len() as int,
                )
            },
            ratio.0 <= ratio.1,
    {
        if self.node_state_indexed_view.is_in_some_state() {
            let (_, length) = self.node_state_indexed_view.get_restriction_ratio(views);
            (length, length)
        } else {
            self.node_state_indexed_view.get_restriction_ratio(views)
        }
    }

    /// Shuffles the neighbor order (the same neighbors, each as often as
    /// before), replaces the state mapping by a permutation of the state
    /// indices, and draws the random sort value.
    pub fn randomize(&mut self, random_instance: &mut ChaCha8Rng)
        requires
            old(self).view().wf(),
            old(self).view().position() == None::<usize>,
        ensures
            final(self).node_id() == old(self).node_id(),
            forall|k: usize| final(self).neighbors().contains(k) <==> old(self).neighbors().contains(k),
            final(self).neighbors().to_multiset() == old(self).neighbors().to_multiset(),
            final(self).neighbors().len() == old(self).neighbors().len(),
            final(self).view().mapping().to_multiset() == Seq::new(
                old(self).view().states().len(),
                |i: int| i as usize,
            ).to_multiset(),
            final(self).view().wf(),
            final(self).view().states() == old(self).view().states(),
            final(self).view().position() == old(self).view().position(),
            final(self).view().mask_sources() == old(self).view().mask_sources(),
            final(self).view().mask_key() == old(self).view().mask_key(),
            final(self).chosen() == old(self).chosen(),
    {
        let ghost before = self.neighbor_node_ids@;
        shuffle_indices(&mut self.neighbor_node_ids, random_instance);
        proof {
            broadcast use vstd::seq_lib::group_to_multiset_ensures;
            assert forall|k: usize| self.neighbor_node_ids@.contains(k) <==> before.contains(k) by {
                assert(self.neighbor_node_ids@.contains(k) <==> self.neighbor_node_ids@.to_multiset().count(k) > 0);
                assert(before.contains(k) <==> before.to_multiset().count(k) > 0);
            }
        }
        self.node_state_indexed_view.shuffle(random_instance);
        self.random_sort_index = next_random_u32(random_instance);
    }
}

/// The rank of a node's position: 0 before any state, `i + 1` at state `i`.
pub open spec fn rank_of(node: CollapsableNode) -> int {
    match node.view().position() {
        Some(i) => i + 1,
        None => 0,
    }
}

/// `base` to the power `exponent`.
pub open spec fn power(base: int, exponent: nat) -> int
    decreases exponent,
{
    if exponent == 0 {
        1
    } else {
        base * power(base, (exponent - 1) as nat)
    }
}

/// The number that `digits` write in `base`, the most significant digit first.
pub open spec fn digits_value(digits: Seq<int>, base: int) -> int
    decreases digits.len(),
{
    if digits.len() == 0 {
        0
    } else {
        digits[0] * power(base, (digits.len() - 1) as nat) + digits_value(digits.drop_first(), base)
    }
}

/// Every digit is in `0..base`.
pub open spec fn digits_in_base(digits: Seq<int>, base: int) -> bool {
    forall|i: int| 0 <= i < digits.len() ==> 0 <= #[trigger] digits[i] < base
}

proof fn lemma_power_positive(base: int, exponent: nat)
    requires
        base >= 1,
    ensures
        power(base, exponent) >= 1,
    decreases exponent,
{
    if exponent > 0 {
        lemma_power_positive(base, (exponent - 1) as nat);
        let p = power(base, (exponent - 1) as nat);
        assert(base * p >= 1) by (nonlinear_arith)
            requires
                base >= 1,
                p >= 1,
        ;
    }
}

proof fn lemma_digits_value_bound(digits: Seq<int>, base: int)
    requires
        base >= 1,
        digits_in_base(digits, base),
    ensures
        0 <= digits_value(digits, base) < power(base, digits.len()),
    decreases digits.len(),
{
    if digits.len() > 0 {
        let rest = digits.drop_first();
        assert forall|i: int| 0 <= i < rest.len() implies 0 <= #[trigger] rest[i] < base by {
            assert(rest[i] == digits[i + 1]);
        }
        lemma_digits_value_bound(rest, base);
        let p = power(base, rest.len());
        lemma_power_positive(base, rest.len());
        let d = digits[0];
        let r = digits_value(rest, base);
        assert(0 <= d * p + r < base * p) by (nonlinear_arith)
            requires
                0 <= d < base,
                p >= 1,
                0 <= r < p,
        ;
    }
}

/// Digits that agree up to position `k` and are smaller there write a
/// smaller number.
proof fn lemma_digits_value_less(smaller: Seq<int>, larger: Seq<int>, base: int, k: int)
    requires
        base >= 1,
        digits_in_base(smaller, base),
        digits_in_base(larger, base),
        smaller.len() == larger.len(),
        0 <= k < smaller.len(),
        forall|i: int| 0 <= i < k ==> smaller[i] == larger[i],
        smaller[k] < larger[k],
    ensures
        digits_value(smaller, base) < digits_value(larger, base),
    decreases k,
{
    let rest_s = smaller.drop_first();
    let rest_l = larger.drop_first();
    assert forall|i: int| 0 <= i < rest_s.len() implies 0 <= #[trigger] rest_s[i] < base by {
        assert(rest_s[i] == smaller[i + 1]);
    }
    assert forall|i: int| 0 <= i < rest_l.len() implies 0 <= #[trigger] rest_l[i] < base by {
        assert(rest_l[i] == larger[i + 1]);
    }
    if k == 0 {
        lemma_digits_value_bound(rest_s, base);
        lemma_digits_value_bound(rest_l, base);
        let p = power(base, rest_s.len());
        let rs = digits_value(rest_s, base);
        let rl = digits_value(rest_l, base);
        let ds = smaller[0];
        let dl = larger[0];
        assert(ds * p + rs < dl * p + rl) by (nonlinear_arith)
            requires
                ds + 1 <= dl,
                0 <= rs < p,
                0 <= rl,
        ;
    } else {
        assert forall|i: int| 0 <= i < k - 1 implies rest_s[i] == rest_l[i] by {
            assert(rest_s[i] == smaller[i + 1]);
            assert(rest_l[i] == larger[i + 1]);
        }
        lemma_digits_value_less(rest_s, rest_l, base, k - 1);
        assert(smaller[0] == larger[0]);
    }
}

/// What the nodes are sorted by: nodes chosen already come first, by the
/// position they were chosen at; then the others, the most restricted first
/// (fewest states still permitted; none once a node holds a state), and then
/// by their random value.
pub open spec fn sort_key_of(node: CollapsableNode, views: Seq<NeighborMaskView>, states_length: nat) -> int {
    match node.chosen() {
        Some(k) => k as int,
        None => {
            let forbidden = if node.view().position() is Some {
                states_length as int
            } else {
                masked_count(
                    views,
                    node.view().mask_sources(),
                    node.view().mask_key(),
                    states_length as int,
                ) as int
            };
            0x1_0000_0000_0000_0000 + (states_length - forbidden) * 0x1_0000_0000
                + node.random_value() as int
        },
    }
}

/// The nodes of a wave function during the search: the order they are
/// chosen in, the position in that order, and each node's mapped view.
pub struct CollapsableWaveFunction {
    collapsable_nodes: Vec<CollapsableNode>,
    neighbor_mask_mapped_views: Vec<NeighborMaskView>,
    sorted_node_indices: Vec<usize>,
    collapsable_nodes_length: usize,
    current_collapsable_node_index: usize,
    node_state_ids_length: usize,
}

impl CollapsableWaveFunction {
    pub closed spec fn nodes(&self) -> Seq<CollapsableNode> {
        self.collapsable_nodes@
    }

    pub closed spec fn views(&self) -> Seq<NeighborMaskView> {
        self.neighbor_mask_mapped_views@
    }

    pub closed spec fn order(&self) -> Seq<usize> {
        self.sorted_node_indices@
    }

    pub closed spec fn current(&self) -> int {
        self.current_collapsable_node_index as int
    }

    pub closed spec fn states_length(&self) -> nat {
        self.node_state_ids_length as nat
    }

    pub closed spec fn recorded_length(&self) -> nat {
        self.collapsable_nodes_length as nat
    }

    /// Node `x` is at a state, and its view is oriented by that state.
    pub open spec fn is_settled(&self, x: int) -> bool {
        match self.nodes()[x].view().position() {
            Some(s) => s < self.states_length() && self.views()[x].orientation() == Some(s),
            None => false,
        }
    }

    /// The state of node `x` (meaningful when it is settled).
    pub open spec fn state_of(&self, x: int) -> int {
        match self.nodes()[x].view().position() {
            Some(s) => s as int,
            None => -1,
        }
    }

    /// The node whose view may not yet agree with the settled nodes.
    pub open spec fn excluded(&self) -> int {
        if self.current() < self.nodes().len() {
            self.order()[self.current()] as int
        } else {
            -1
        }
    }

    /// Node `x` is well formed with respect to the views.
    pub open spec fn node_fits(&self, x: int) -> bool {
        let node = self.nodes()[x];
        &&& node.node_id() == x
        &&& node.view().wf()
        &&& node.view().states() == state_indices(self.states_length())
        &&& node.view().mask_key() == x
        &&& node.view().fits(self.views())
    }

    /// The shape that every step keeps.
    pub open spec fn structure_ok(&self) -> bool {
        let length = self.nodes().len();
        &&& self.recorded_length() == length
        &&& self.views().len() == length
        &&& self.order().len() == length
        &&& self.order().no_duplicates()
        &&& forall|p: int| 0 <= p < length ==> (#[trigger] self.order()[p]) < length
        &&& forall|x: usize| x < length ==> #[trigger] self.order().contains(x)
        &&& forall|x: int| 0 <= x < length ==> #[trigger] self.node_fits(x)
        &&& forall|y: int, s: usize, k: usize|
            0 <= y < length && #[trigger] self.views()[y].values().contains_key(s)
                && self.views()[y].values()[s].contains_key(k) ==> #[trigger] self.nodes()[y].neighbors().contains(k)
        &&& 0 <= self.current() <= length
    }

    /// What the search keeps: the settled prefix agrees with every view but
    /// the excluded one, later nodes are untouched, and chosen positions are
    /// distinct and never ahead of a node's place in the order.
    pub open spec fn search_ok(&self, unable: bool) -> bool {
        let length = self.nodes().len();
        let order = self.order();
        &&& forall|p: int|
            0 <= p < self.current() ==> #[trigger] self.is_settled(order[p] as int) && self.nodes()[order[p] as int].chosen() == Some(p as usize)
        &&& forall|p: int|
            self.current() < p < length ==> (#[trigger] self.nodes()[order[p] as int]).view().position() == None::<usize>
                && self.views()[order[p] as int].orientation() == None::<usize>
        &&& !unable && self.current() < length ==> match self.nodes()[order[self.current()] as int].view().position() {
            Some(i) => i < self.states_length(),
            None => true,
        }
        &&& forall|p: int|
            0 <= p < self.current() ==> is_unmasked_except(
                self.views(),
                (#[trigger] self.nodes()[order[p] as int]).view().mask_sources(),
                order[p],
                self.state_of(order[p] as int),
                self.excluded(),
            )
        &&& forall|p: int|
            0 <= p < length ==> match (#[trigger] self.nodes()[order[p] as int]).chosen() {
                Some(q) => p <= q,
                None => true,
            }
        &&& forall|x: int, y: int|
            0 <= x < length && 0 <= y < length && x != y && (#[trigger] self.nodes()[x]).chosen() is Some
                && (#[trigger] self.nodes()[y]).chosen() is Some ==> self.nodes()[x].chosen() != self.nodes()[y].chosen()
    }

    /// How far the search has come at position `p` of the order: the rank
    /// of the node there before the current position; at the current
    /// position, the rank its next move will at least reach (1 when every
    /// node is settled); nothing after it.
    pub open spec fn virtual_rank(&self, p: int) -> int {
        if p < self.current() {
            rank_of(self.nodes()[self.order()[p] as int])
        } else if p == self.current() {
            (if self.current() < self.nodes().len() {
                rank_of(self.nodes()[self.order()[p] as int])
            } else {
                0
            }) + 1
        } else {
            0
        }
    }

    /// The search's progress, one digit per position of the order and one
    /// more, each digit smaller the further that position has come.
    pub open spec fn progress_digits(&self) -> Seq<int> {
        Seq::new(
            self.nodes().len() + 1,
            |p: int| self.states_length() + 3 - self.virtual_rank(p),
        )
    }

    /// The measure that every step of the search lowers.
    pub open spec fn progress(&self) -> int {
        digits_value(self.progress_digits(), self.states_length() + 4int)
    }

    /// Moving on to the next position of the order.
    pub open spec fn move_step(before: Self, after: Self) -> bool {
        &&& after.nodes() == before.nodes()
        &&& after.views() == before.views()
        &&& after.order() == before.order()
        &&& after.current() == before.current() + 1
        &&& after.states_length() == before.states_length()
        &&& after.recorded_length() == before.recorded_length()
    }

    /// A round in which the current node takes its next permitted state, no
    /// node it lists is left without a permitted state, and the search moves
    /// on, sorting the nodes still to come when there are any.
    pub open spec fn advance_round(a: Self, s1: Self, s2: Self, s3: Self, b: Self) -> bool {
        &&& Self::increment_step(a, s1, true)
        &&& Self::orient_step(s1, s2)
        &&& !Self::neighbor_restricted(s2)
        &&& Self::move_step(s2, s3)
        &&& if s3.current() < s3.nodes().len() {
            Self::sort_step(s3, b)
        } else {
            b == s3
        }
    }

    /// A round in which the current node takes its next permitted state but
    /// some node it lists is left without one, so the search stays there.
    pub open spec fn stay_round(a: Self, s1: Self, b: Self) -> bool {
        &&& Self::increment_step(a, s1, true)
        &&& Self::orient_step(s1, b)
        &&& Self::neighbor_restricted(b)
    }

    /// A round in which the current node runs out of states and the search
    /// walks back (or, finding no node to walk back to, stays).
    pub open spec fn backtrack_round(a: Self, s1: Self, b: Self, found: bool) -> bool {
        &&& Self::increment_step(a, s1, false)
        &&& Self::backtrack_step(s1, b, found)
    }

    /// One round of the search's loop, from `a` to `b`.
    pub open spec fn round(a: Self, b: Self) -> bool {
        &&& a.current() < a.nodes().len()
        &&& {
            ||| exists|s1: Self, s2: Self, s3: Self| #[trigger] Self::advance_round(a, s1, s2, s3, b)
            ||| exists|s1: Self| #[trigger] Self::stay_round(a, s1, b)
            ||| exists|s1: Self, found: bool| #[trigger] Self::backtrack_round(a, s1, b, found)
        }
    }

    /// `trace` is a run of the search: each state follows from the one before
    /// it by one round.
    pub open spec fn is_run(trace: Seq<Self>) -> bool {
        &&& trace.len() >= 1
        &&& forall|i: int| 0 <= i < trace.len() - 1 ==> #[trigger] Self::round(trace[i], trace[i + 1])
    }

    /// The search stopped: the node at the current position has run out of
    /// states, the nodes before it are settled, and none of them lists it.
    pub open spec fn gave_up(search: Self) -> bool {
        &&& search.current() < search.nodes().len()
        &&& search.nodes()[search.order()[search.current()] as int].view().position() == Some(
            search.states_length() as usize,
        )
        &&& forall|p: int| 0 <= p < search.current() ==> #[trigger] search.is_settled(search.order()[p] as int)
        &&& forall|p: int| 0 <= p < search.current() ==> !#[trigger] Self::lists_current(search, p)
    }

    /// Node at position `p` of the order lists the node at the current position.
    pub open spec fn lists_current(search: Self, p: int) -> bool {
        search.nodes()[search.order()[p] as int].neighbors().contains(search.order()[search.current()])
    }

    /// The current node moves to its next state that every view permits,
    /// skipping none that is permitted (`moved`), or, finding none, runs out
    /// of states.
    pub open spec fn increment_step(before: Self, after: Self, moved: bool) -> bool {
        &&& after.views() == before.views()
        &&& after.order() == before.order()
        &&& after.current() == before.current()
        &&& after.states_length() == before.states_length()
        &&& ({
            let c = before.order()[before.current()] as int;
            let previous = before.nodes()[c];
            let node = after.nodes()[c];
            &&& after.nodes() == before.nodes().update(c, node)
            &&& node.node_id() == previous.node_id()
            &&& node.neighbors() == previous.neighbors()
            &&& node.random_value() == previous.random_value()
            &&& node.view().wf()
            &&& node.view().states() == previous.view().states()
            &&& node.view().mask_sources() == previous.view().mask_sources()
            &&& node.view().mask_key() == previous.view().mask_key()
            &&& node.view().mapping() == previous.view().mapping()
            &&& node.chosen() == if moved {
                Some(before.current() as usize)
            } else {
                None::<usize>
            }
            &&& rank_of(node) > rank_of(previous)
            &&& moved ==> match node.view().position() {
                Some(s) => s < before.states_length() && node.view().unmasked_in(
                    before.views(),
                    s as int,
                ),
                None => false,
            }
            &&& !moved ==> node.view().position() == Some(before.states_length() as usize)
            &&& !moved && previous.view().position() == None::<usize> ==> forall|k: int|
                0 <= k < before.states_length() ==> !#[trigger] previous.view().unmasked_in(
                    before.views(),
                    k,
                )
            &&& moved && previous.view().position() == None::<usize> ==> forall|k: int|
                0 <= k < node.view().position().unwrap() ==> !#[trigger] previous.view().unmasked_in(
                    before.views(),
                    k,
                )
            &&& forall|k: int|
                rank_of(previous) <= k < rank_of(node) - 1 ==> !#[trigger] previous.view().unmasked_in(
                    before.views(),
                    k,
                )
        })
        &&& after.recorded_length() == before.recorded_length()
    }

    pub open spec fn orient_step(before: Self, after: Self) -> bool {
        &&& after.nodes() == before.nodes()
        &&& after.order() == before.order()
        &&& after.current() == before.current()
        &&& after.states_length() == before.states_length()
        &&& after.views().len() == before.views().len()
        &&& ({
            let c = before.order()[before.current()] as int;
            &&& forall|y: int| 0 <= y < before.views().len() && y != c ==> #[trigger] after.views()[y] == before.views()[y]
            &&& after.views()[c].values() == before.views()[c].values()
            &&& after.views()[c].orientation() == before.nodes()[c].view().position()
        })
        &&& after.recorded_length() == before.recorded_length()
    }

    pub open spec fn sort_step(before: Self, after: Self) -> bool {
        &&& after.nodes() == before.nodes()
        &&& after.views() == before.views()
        &&& after.current() == before.current()
        &&& after.states_length() == before.states_length()
        &&& after.recorded_length() == before.recorded_length()
        &&& after.order().len() == before.order().len()
        &&& after.order().no_duplicates()
        &&& forall|x: usize| after.order().contains(x) <==> before.order().contains(x)
        &&& forall|i: int, j: int|
            0 <= i < j < after.order().len() ==> sort_key_of(
                after.nodes()[#[trigger] after.order()[i] as int],
                after.views(),
                after.states_length(),
            ) <= sort_key_of(
                after.nodes()[#[trigger] after.order()[j] as int],
                after.views(),
                after.states_length(),
            )
        &&& forall|i: int, j: int|
            0 <= i < j < after.order().len() && sort_key_of(
                after.nodes()[#[trigger] after.order()[i] as int],
                after.views(),
                after.states_length(),
            ) == sort_key_of(
                after.nodes()[#[trigger] after.order()[j] as int],
                after.views(),
                after.states_length(),
            ) ==> before.order().index_of(after.order()[i]) < before.order().index_of(after.order()[j])
    }

    /// Walking back from the current node, which has run out of states, to
    /// the nearest earlier node that lists it: when there is one, it becomes
    /// the current node and every node after it up to the one the walk began
    /// at loses its state and orientation; when there is none, nothing changes.
    pub open spec fn backtrack_step(before: Self, after: Self, found: bool) -> bool {
        &&& after.order() == before.order()
        &&& after.states_length() == before.states_length()
        &&& after.recorded_length() == before.recorded_length()
        &&& after.nodes().len() == before.nodes().len()
        &&& after.views().len() == before.views().len()
        &&& found == exists|p: int| 0 <= p < before.current() && #[trigger] Self::lists_current(before, p)
        &&& !found ==> {
            &&& after.nodes() == before.nodes()
            &&& after.views() == before.views()
            &&& after.current() == before.current()
        }
        &&& found ==> {
            let k = after.current();
            &&& 0 <= k < before.current()
            &&& Self::lists_current(before, k)
            &&& forall|p: int| k < p < before.current() ==> !#[trigger] Self::lists_current(before, p)
            &&& forall|p: int|
                #![trigger before.order()[p]]
                0 <= p < before.nodes().len() ==> {
                    let x = before.order()[p] as int;
                    if k < p <= before.current() {
                        let node = after.nodes()[x];
                        let previous = before.nodes()[x];
                        &&& node.node_id() == previous.node_id()
                        &&& node.neighbors() == previous.neighbors()
                        &&& node.chosen() == previous.chosen()
                        &&& node.random_value() == previous.random_value()
                        &&& node.view().wf()
                        &&& node.view().states() == previous.view().states()
                        &&& node.view().mask_sources() == previous.view().mask_sources()
                        &&& node.view().mask_key() == previous.view().mask_key()
                        &&& node.view().mapping() == previous.view().mapping()
                        &&& node.view().position() == None::<usize>
                        &&& after.views()[x].values() == before.views()[x].values()
                        &&& after.views()[x].orientation() == None::<usize>
                    } else {
                        &&& after.nodes()[x] == before.nodes()[x]
                        &&& after.views()[x] == before.views()[x]
                    }
                }
        }
    }

    /// Every node is settled and agrees with every view.
    pub open spec fn is_solved(&self) -> bool {
        forall|x: int|
            0 <= x < self.nodes().len() ==> #[trigger] self.is_settled(x) && is_unmasked(
                self.views(),
                self.nodes()[x].view().mask_sources(),
                x as usize,
                self.state_of(x),
            )
    }

    /// The search over `collapsable_nodes`, whose states are `0..node_state_ids_length`
    /// and whose masks come from `neighbor_mask_mapped_views`, before any step.
    pub fn new(
        collapsable_nodes: Vec<CollapsableNode>,
        neighbor_mask_mapped_views: Vec<NeighborMaskView>,
        node_state_ids_length: usize,
    ) -> (search: Self)
        requires
            collapsable_nodes@.len() == neighbor_mask_mapped_views@.len(),
            forall|x: int|
                0 <= x < collapsable_nodes@.len() ==> {
                    let node = #[trigger] collapsable_nodes@[x];
                    &&& node.node_id() == x
                    &&& node.view().wf()
                    &&& node.view().states() == state_indices(node_state_ids_length as nat)
                    &&& node.view().mask_key() == x
                    &&& node.view().fits(neighbor_mask_mapped_views@)
                    &&& node.view().position() == None::<usize>
                    &&& node.chosen() == None::<usize>
                    &&& neighbor_mask_mapped_views@[x].orientation() == None::<usize>
                },
            forall|y: int, s: usize, k: usize|
                0 <= y < collapsable_nodes@.len() && #[trigger] neighbor_mask_mapped_views@[y].values().contains_key(s)
                    && neighbor_mask_mapped_views@[y].values()[s].contains_key(k) ==> #[trigger] collapsable_nodes@[y].neighbors().contains(k),
        ensures
            search.structure_ok(),
            search.search_ok(false),
            search.current() == 0,
            search.nodes() == collapsable_nodes@,
            search.views() == neighbor_mask_mapped_views@,
            search.states_length() == node_state_ids_length,
    {
        let collapsable_nodes_length = collapsable_nodes.len();
        let mut sorted_node_indices: Vec<usize> = Vec::new();
        let mut x: usize = 0;
        while x < collapsable_nodes_length
            invariant
                x <= collapsable_nodes_length,
                sorted_node_indices@ == state_indices(x as nat),
            decreases collapsable_nodes_length - x,
        {
            sorted_node_indices.push(x);
            x = x + 1;
            proof {
                assert(sorted_node_indices@ =~= state_indices(x as nat));
            }
        }
        let search = CollapsableWaveFunction {
            collapsable_nodes,
            neighbor_mask_mapped_views,
            sorted_node_indices,
            collapsable_nodes_length,
            current_collapsable_node_index: 0,
            node_state_ids_length,
        };
        proof {
            let length = search.nodes().len();
            assert forall|x: usize| x < length implies #[trigger] search.order().contains(x) by {
                assert(search.order()[x as int] == x);
            }
            assert forall|x: int| 0 <= x < length implies #[trigger] search.node_fits(x) by {
                let node = search.nodes()[x];
                assert(node.node_id() == x);
            }
        }
        search
    }

    /// Moves the current node to its next permitted state; records the
    /// position it was chosen at, or clears it when no state is left.
    fn try_increment_current_collapsable_node_state(&mut self) -> (moved: bool)
        requires
            old(self).structure_ok(),
            old(self).current() < old(self).nodes().len(),
            old(self).nodes()[old(self).order()[old(self).current()] as int].view().position()
                != Some(old(self).states_length() as usize),
        ensures
            Self::increment_step(*old(self), *final(self), moved),
    {
        let c = self.sorted_node_indices[self.current_collapsable_node_index];
        proof {
            assert(self.node_fits(c as int));
        }
        let is_successful = self.collapsable_nodes[c].node_state_indexed_view.try_move_next(
            &self.neighbor_mask_mapped_views,
        );
        if is_successful {
            self.collapsable_nodes[c].current_chosen_from_sort_index = Some(
                self.current_collapsable_node_index,
            );
        } else {
            self.collapsable_nodes[c].current_chosen_from_sort_index = None;
        }
        proof {
            assert(self.nodes() =~= old(self).nodes().update(c as int, self.nodes()[c as int]));
        }
        is_successful
    }

    /// Orients the current node's mapped view by the node's state.
    fn alter_reference_to_current_collapsable_node_mask(&mut self)
        requires
            old(self).structure_ok(),
            old(self).current() < old(self).nodes().len(),
            match old(self).nodes()[old(self).order()[old(self).current()] as int].view().position() {
                Some(s) => s < old(self).states_length(),
                None => false,
            },
        ensures
            Self::orient_step(*old(self), *final(self)),
    {
        let c = self.sorted_node_indices[self.current_collapsable_node_index];
        proof {
            assert(self.node_fits(c as int));
        }
        let current_possible_state: usize = *self.collapsable_nodes[c].node_state_indexed_view.get().unwrap();
        self.neighbor_mask_mapped_views[c].orient(current_possible_state);
    }

    /// Whether some neighbor of the current node has no permitted state left,
    /// or holds a state that is no longer permitted.
    fn is_at_least_one_neighbor_fully_restricted(&self) -> (restricted: bool)
        requires
            self.structure_ok(),
            self.current() < self.nodes().len(),
        ensures
            restricted == Self::neighbor_restricted(*self),
    {
        let current_node = &self.collapsable_nodes[self.sorted_node_indices[self.current_collapsable_node_index]];
        let mut x: usize = 0;
        while x < self.collapsable_nodes_length
            invariant
                self.structure_ok(),
                self.current() < self.nodes().len(),
                *current_node == self.nodes()[self.order()[self.current()] as int],
                x <= self.nodes().len(),
                forall|x2: int| 0 <= x2 < x ==> !#[trigger] Self::is_restricted_neighbor(*self, x2),
            decreases self.nodes().len() - x,
        {
            if contains_index(&current_node.neighbor_node_ids, x) {
                proof {
                    assert(self.node_fits(x as int));
                }
                if self.collapsable_nodes[x].is_fully_restricted(&self.neighbor_mask_mapped_views) {
                    proof {
                        assert(Self::is_restricted_neighbor(*self, x as int));
                    }
                    return true;
                }
            }
            x = x + 1;
        }
        proof {
            assert forall|x2: int| !#[trigger] Self::is_restricted_neighbor(*self, x2) by {
                if 0 <= x2 < self.nodes().len() {
                    assert(!Self::is_restricted_neighbor(*self, x2));
                }
            }
        }
        false
    }

    /// Moves on to the next node in the order.
    fn move_to_next_collapsable_node(&mut self)
        requires
            old(self).current() < old(self).nodes().len(),
            old(self).recorded_length() == old(self).nodes().len(),
        ensures
            final(self).current() == old(self).current() + 1,
            final(self).nodes() == old(self).nodes(),
            final(self).views() == old(self).views(),
            final(self).order() == old(self).order(),
            final(self).states_length() == old(self).states_length(),
            final(self).recorded_length() == old(self).recorded_length(),
    {
        self.current_collapsable_node_index = self.current_collapsable_node_index + 1;
    }

    /// Whether every node has been given a state.
    fn is_fully_collapsed(&self) -> (collapsed: bool)
        requires
            self.recorded_length() == self.nodes().len(),
        ensures
            collapsed == (self.current() == self.nodes().len()),
    {
        self.current_collapsable_node_index == self.collapsable_nodes_length
    }

    /// The sort key of node `x`.
    fn sort_key(&self, x: usize) -> (key: u128)
        requires
            self.structure_ok(),
            x < self.nodes().len(),
        ensures
            key == sort_key_of(self.nodes()[x as int], self.views(), self.states_length()),
    {
        proof {
            assert(self.node_fits(x as int));
        }
        let node = &self.collapsable_nodes[x];
        match node.current_chosen_from_sort_index {
            Some(k) => k as u128,
            None => {
                let (forbidden, length) = node.get_restriction_ratio(&self.neighbor_mask_mapped_views);
                let permitted = length - forbidden;
                let random = node.random_sort_index;
                assert((permitted as u128) * 4294967296u128 <= 18446744073709551615u128 * 4294967296u128) by (nonlinear_arith)
                    requires
                        permitted <= 18446744073709551615u128,
                ;
                18446744073709551616u128 + (permitted as u128) * 4294967296u128 + (random as u128)
            },
        }
    }

    /// Sorts the order: chosen nodes first, by the position they were chosen
    /// at, then the others, most restricted first, by random value (see
    /// `sort_key_of`); nodes with equal keys keep their relative order.
    fn sort_collapsable_nodes(&mut self)
        requires
            old(self).structure_ok(),
        ensures
            Self::sort_step(*old(self), *final(self)),
    {
        let mut keys: Vec<u128> = Vec::new();
        let mut x: usize = 0;
        while x < self.collapsable_nodes_length
            invariant
                self.structure_ok(),
                x <= self.nodes().len(),
                keys@.len() == x,
                forall|k: int| 0 <= k < x ==> #[trigger] keys@[k] == sort_key_of(self.nodes()[k], self.views(), self.states_length()),
            decreases self.nodes().len() - x,
        {
            let key = self.sort_key(x);
            keys.push(key);
            x = x + 1;
        }
        let ghost before = *self;
        stable_sort_by_keys(&mut self.sorted_node_indices, &keys);
        proof {
            assert forall|i: int, j: int|
                0 <= i < j < self.order().len() implies sort_key_of(
                    self.nodes()[#[trigger] self.order()[i] as int],
                    self.views(),
                    self.states_length(),
                ) <= sort_key_of(
                    self.nodes()[#[trigger] self.order()[j] as int],
                    self.views(),
                    self.states_length(),
                ) by {
                assert(keys@[self.order()[i] as int] <= keys@[self.order()[j] as int]);
                assert(before.order().contains(self.order()[i]));
                assert(before.order().contains(self.order()[j]));
            }
            assert forall|i: int, j: int|
                0 <= i < j < self.order().len() && sort_key_of(
                    self.nodes()[#[trigger] self.order()[i] as int],
                    self.views(),
                    self.states_length(),
                ) == sort_key_of(
                    self.nodes()[#[trigger] self.order()[j] as int],
                    self.views(),
                    self.states_length(),
                ) implies before.order().index_of(self.order()[i]) < before.order().index_of(self.order()[j]) by {
                assert(before.order().contains(self.order()[i]));
                assert(before.order().contains(self.order()[j]));
                assert(keys@[self.order()[i] as int] == keys@[self.order()[j] as int]);
            }
        }
    }

    /// Walks back from the current node, which has run out of states, to the
    /// nearest earlier node in the order that lists it, clearing the states
    /// and orientations of the nodes after that one up to the current one, and
    /// makes it the current node; tells whether there was such a node (when
    /// there was none, nothing changes).
    fn try_move_to_previous_collapsable_node_neighbor(&mut self) -> (found: bool)
        requires
            old(self).structure_ok(),
            old(self).current() < old(self).nodes().len(),
        ensures
            Self::backtrack_step(*old(self), *final(self), found),
    {
        let ghost start = *self;
        let current = self.current_collapsable_node_index;
        let exhausted_node_id = self.sorted_node_indices[current];
        let mut k: usize = current;
        let mut found = false;
        while k > 0 && !found
            invariant
                *self == start,
                start.structure_ok(),
                current == start.current(),
                current < start.nodes().len(),
                exhausted_node_id == start.order()[current as int],
                k <= current,
                found ==> k < current && Self::lists_current(start, k as int),
                !found ==> forall|p: int| k <= p < current ==> !#[trigger] Self::lists_current(start, p),
                found ==> forall|p: int| k < p < current ==> !#[trigger] Self::lists_current(start, p),
            decreases k,
        {
            k = k - 1;
            let x = self.sorted_node_indices[k];
            proof {
                assert(start.order()[k as int] < start.nodes().len());
            }
            if contains_index(&self.collapsable_nodes[x].neighbor_node_ids, exhausted_node_id) {
                found = true;
            }
        }
        if !found {
            proof {
                assert(!exists|p: int| 0 <= p < start.current() && #[trigger] Self::lists_current(start, p));
            }
            return false;
        }
        let mut p: usize = current;
        while p > k
            invariant
                start.structure_ok(),
                current == start.current(),
                current < start.nodes().len(),
                k < current,
                k <= p <= current,
                self.order() == start.order(),
                self.current() == start.current(),
                self.states_length() == start.states_length(),
                self.recorded_length() == start.recorded_length(),
                self.nodes().len() == start.nodes().len(),
                self.views().len() == start.views().len(),
                forall|q: int|
                    #![trigger start.order()[q]]
                    0 <= q < start.nodes().len() ==> {
                        let x = start.order()[q] as int;
                        if p < q <= current {
                            let node = self.nodes()[x];
                            let previous = start.nodes()[x];
                            &&& node.node_id() == previous.node_id()
                            &&& node.neighbors() == previous.neighbors()
                            &&& node.chosen() == previous.chosen()
                            &&& node.random_value() == previous.random_value()
                            &&& node.view().wf()
                            &&& node.view().states() == previous.view().states()
                            &&& node.view().mask_sources() == previous.view().mask_sources()
                            &&& node.view().mask_key() == previous.view().mask_key()
                            &&& node.view().mapping() == previous.view().mapping()
                            &&& node.view().position() == None::<usize>
                            &&& self.views()[x].values() == start.views()[x].values()
                            &&& self.views()[x].orientation() == None::<usize>
                        } else {
                            &&& self.nodes()[x] == start.nodes()[x]
                            &&& self.views()[x] == start.views()[x]
                        }
                    },
            decreases p,
        {
            let x = self.sorted_node_indices[p];
            proof {
                assert(start.node_fits(x as int));
                assert(self.nodes()[x as int] == start.nodes()[x as int]);
            }
            self.collapsable_nodes[x].node_state_indexed_view.reset();
            self.neighbor_mask_mapped_views[x].reset();
            proof {
                assert forall|q: int| #![trigger start.order()[q]] 0 <= q < start.nodes().len() implies ({
                    let y = start.order()[q] as int;
                    if p - 1 < q <= current {
                        let node = self.nodes()[y];
                        let previous = start.nodes()[y];
                        &&& node.node_id() == previous.node_id()
                        &&& node.neighbors() == previous.neighbors()
                        &&& node.chosen() == previous.chosen()
                        &&& node.random_value() == previous.random_value()
                        &&& node.view().wf()
                        &&& node.view().states() == previous.view().states()
                        &&& node.view().mask_sources() == previous.view().mask_sources()
                        &&& node.view().mask_key() == previous.view().mask_key()
                        &&& node.view().mapping() == previous.view().mapping()
                        &&& node.view().position() == None::<usize>
                        &&& self.views()[y].values() == start.views()[y].values()
                        &&& self.views()[y].orientation() == None::<usize>
                    } else {
                        &&& self.nodes()[y] == start.nodes()[y]
                        &&& self.views()[y] == start.views()[y]
                    }
                }) by {
                    let y = start.order()[q] as int;
                    if q != p as int {
                        assert(y != x as int) by {
                            assert(start.order()[p as int] == x);
                        }
                    }
                }
            }
            p = p - 1;
        }
        self.current_collapsable_node_index = k;
        true
    }

    /// Some neighbor of the current node has no permitted state left, or holds
    /// a state that is no longer permitted.
    pub open spec fn neighbor_restricted(search: Self) -> bool {
        exists|x: int| #[trigger] Self::is_restricted_neighbor(search, x)
    }

    /// Node `x` is a neighbor of the current node, and has no permitted state
    /// left or holds a state that is no longer permitted.
    pub open spec fn is_restricted_neighbor(search: Self, x: int) -> bool {
        &&& 0 <= x < search.nodes().len()
        &&& search.nodes()[search.order()[search.current()] as int].neighbors().contains(x as usize)
        &&& (search.nodes()[x].view().fully_restricted_in(search.views())
            || search.nodes()[x].view().current_state_restricted_in(search.views()))
    }

    /// The shape is kept when nodes keep their ids, neighbors and views' frames,
    /// the views keep their values, and the order stays a permutation.
    proof fn lemma_frame_structure(&self, before: Self)
        requires
            before.structure_ok(),
            self.nodes().len() == before.nodes().len(),
            self.views().len() == before.views().len(),
            self.recorded_length() == before.recorded_length(),
            self.states_length() == before.states_length(),
            self.order().len() == before.order().len(),
            self.order().no_duplicates(),
            forall|x: usize| self.order().contains(x) <==> before.order().contains(x),
            0 <= self.current() <= self.nodes().len(),
            forall|y: int| 0 <= y < self.views().len() ==> #[trigger] self.views()[y].values() == before.views()[y].values(),
            forall|x: int|
                0 <= x < self.nodes().len() ==> {
                    let a = #[trigger] self.nodes()[x];
                    let b = before.nodes()[x];
                    a == b || (a.node_id() == b.node_id() && a.neighbors() == b.neighbors() && a.view().wf()
                        && a.view().states() == b.view().states() && a.view().mask_sources() == b.view().mask_sources()
                        && a.view().mask_key() == b.view().mask_key())
                },
        ensures
            self.structure_ok(),
            forall|x: int|
                0 <= x < self.nodes().len() ==> (#[trigger] self.nodes()[x]).view().mask_sources()
                    == before.nodes()[x].view().mask_sources() && self.nodes()[x].neighbors()
                    == before.nodes()[x].neighbors(),
    {
        let length = self.nodes().len();
        let n = self.states_length();
        assert(views_hold_masks_of_length(self.views(), n)) by {
            if length > 0 {
                assert(before.node_fits(0));
            }
            assert forall|y: int, view_key: usize, key: usize|
                0 <= y < self.views().len() && #[trigger] self.views()[y].values().contains_key(view_key)
                    && self.views()[y].values()[view_key].contains_key(key) implies mask_bits(
                #[trigger] self.views()[y].values()[view_key][key],
            ).len() == n by {
                assert(before.node_fits(0));
                assert(self.views()[y].values() == before.views()[y].values());
            }
        }
        assert forall|p: int| 0 <= p < length implies (#[trigger] self.order()[p]) < length by {
            assert(self.order().contains(self.order()[p]));
            assert(before.order().contains(self.order()[p]));
        }
        assert forall|x: int| 0 <= x < length implies #[trigger] self.node_fits(x) by {
            assert(before.node_fits(x));
        }
        assert forall|y: int, s: usize, k: usize|
            0 <= y < length && #[trigger] self.views()[y].values().contains_key(s)
                && self.views()[y].values()[s].contains_key(k) implies #[trigger] self.nodes()[y].neighbors().contains(k) by {
            assert(self.views()[y].values() == before.views()[y].values());
        }
    }

    /// Moving on after a node took a state that no neighbor objects to keeps
    /// the search's invariant, leaves the settled prefix agreeing with every
    /// view, and makes progress.
    proof fn lemma_advance(s0: Self, s1: Self, s2: Self, s3: Self)
        requires
            s0.structure_ok(),
            s0.search_ok(false),
            s0.current() < s0.nodes().len(),
            Self::increment_step(s0, s1, true),
            Self::orient_step(s1, s2),
            !Self::neighbor_restricted(s2),
            s3.nodes() == s2.nodes(),
            s3.views() == s2.views(),
            s3.order() == s2.order(),
            s3.current() == s2.current() + 1,
            s3.states_length() == s2.states_length(),
            s1.structure_ok(),
            s2.structure_ok(),
            s3.structure_ok(),
        ensures
            s3.search_ok(false),
            forall|p: int|
                0 <= p < s3.current() ==> is_unmasked(
                    s3.views(),
                    (#[trigger] s3.nodes()[s3.order()[p] as int]).view().mask_sources(),
                    s3.order()[p],
                    s3.state_of(s3.order()[p] as int),
                ),
            forall|p: int|
                s3.current() <= p < s3.nodes().len() ==> (#[trigger] s3.nodes()[s3.order()[p] as int]).view().position() == None::<usize>
                    && s3.views()[s3.order()[p] as int].orientation() == None::<usize>,
            forall|p: int| 0 <= p < s0.current() ==> #[trigger] s3.virtual_rank(p) == s0.virtual_rank(p),
            s3.virtual_rank(s0.current()) >= s0.virtual_rank(s0.current()),
            s3.virtual_rank(s0.current() + 1) > s0.virtual_rank(s0.current() + 1),
    {
        let length = s0.nodes().len();
        let cur = s0.current();
        let c = s0.order()[cur] as int;
        let order = s0.order();
        let node_c = s1.nodes()[c];
        let sv = node_c.view().position().unwrap();
        assert(s3.nodes()[c] == node_c);
        assert forall|p: int| 0 <= p < length && p != cur implies #[trigger] order[p] as int != c by {
            if order[p] as int == c {
                assert(order[p] == order[cur]);
            }
        }
        assert forall|x: int| 0 <= x < length && x != c implies #[trigger] s3.nodes()[x] == s0.nodes()[x] by {}
        assert forall|y: int| 0 <= y < length && y != c implies #[trigger] s3.views()[y] == s0.views()[y] by {}
        // the new prefix is settled and chosen at its positions
        assert forall|p: int| 0 <= p < s3.current() implies #[trigger] s3.is_settled(order[p] as int) && s3.nodes()[order[p] as int].chosen() == Some(p as usize) by {
            if p < cur {
                assert(order[p] as int != c);
                assert(s0.is_settled(order[p] as int));
            }
        }
        // the new prefix agrees with every view
        assert forall|p: int|
            0 <= p < s3.current() implies is_unmasked(
            s3.views(),
            (#[trigger] s3.nodes()[s3.order()[p] as int]).view().mask_sources(),
            s3.order()[p],
            s3.state_of(s3.order()[p] as int),
        ) by {
            let x = order[p] as int;
            let sources = s3.nodes()[x].view().mask_sources();
            let state = s3.state_of(x);
            assert(s3.is_settled(x));
            assert forall|j: int|
                0 <= j < sources.len() implies match #[trigger] current_mask(s3.views(), sources[j] as int, x as usize) {
                Some(mask) => mask_bits(mask)[state],
                None => true,
            } by {
                let y = sources[j] as int;
                if y == c {
                    match current_mask(s3.views(), y, x as usize) {
                        Some(mask) => {
                            assert(s3.views()[c].orientation() == Some(sv));
                            assert(s3.views()[c].values().contains_key(sv));
                            assert(s3.views()[c].values()[sv].contains_key(x as usize));
                            assert(s3.nodes()[c].neighbors().contains(x as usize));
                            assert(s3.node_fits(x));
                            assert(s2.order()[s2.current()] as int == c);
                            assert(0 <= x < s2.nodes().len());
                            assert(s2.nodes()[s2.order()[s2.current()] as int].neighbors().contains(x as usize));
                            assert(!Self::is_restricted_neighbor(s2, x));
                            assert(!s3.nodes()[x].view().current_state_restricted_in(s3.views()));
                            assert(s3.nodes()[x].view().unmasked_in(s3.views(), state));
                            assert(current_mask(s3.views(), sources[j] as int, x as usize) == Some(mask));
                        },
                        None => {},
                    }
                } else {
                    assert(s3.node_fits(x));
                    assert(y < length);
                    assert(s3.views()[y] == s0.views()[y]);
                    if p < cur {
                        assert(s0.nodes()[x] == s3.nodes()[x]);
                        assert(is_unmasked_except(
                            s0.views(),
                            s0.nodes()[order[p] as int].view().mask_sources(),
                            order[p],
                            s0.state_of(order[p] as int),
                            s0.excluded(),
                        ));
                        assert(s0.excluded() == c);
                        assert(current_mask(s0.views(), sources[j] as int, x as usize) == current_mask(s3.views(), sources[j] as int, x as usize));
                    } else {
                        assert(x == c);
                        assert(node_c.view().unmasked_in(s0.views(), sv as int));
                        assert(node_c.view().mask_sources() == sources);
                        assert(current_mask(s0.views(), sources[j] as int, x as usize) == current_mask(s3.views(), sources[j] as int, x as usize));
                    }
                }
            }
        }
        // nodes behind the prefix are untouched
        assert forall|p: int|
            s3.current() <= p < length implies (#[trigger] s3.nodes()[s3.order()[p] as int]).view().position() == None::<usize>
                && s3.views()[s3.order()[p] as int].orientation() == None::<usize> by {
            assert(order[p] as int != c);
        }
        // chosen positions are not ahead of the order and are distinct
        assert forall|p: int|
            0 <= p < length implies match (#[trigger] s3.nodes()[order[p] as int]).chosen() {
                Some(q) => p <= q,
                None => true,
            } by {
            if p != cur {
                assert(order[p] as int != c);
            }
        }
        assert forall|x: int, y: int|
            0 <= x < length && 0 <= y < length && x != y && (#[trigger] s3.nodes()[x]).chosen() is Some
                && (#[trigger] s3.nodes()[y]).chosen() is Some implies s3.nodes()[x].chosen() != s3.nodes()[y].chosen() by {
            if x == c || y == c {
                let other = if x == c { y } else { x };
                let t = s0.lemma_position_of(other);
                assert(t != cur);
                assert(s0.nodes()[other] == s3.nodes()[other]);
                if t < cur {
                    assert(s0.is_settled(order[t] as int));
                    assert(s0.nodes()[order[t] as int].chosen() == Some(t as usize));
                } else {
                    assert(s0.nodes()[order[t] as int].chosen() is Some);
                }
            } else {
                assert(s0.nodes()[x] == s3.nodes()[x]);
                assert(s0.nodes()[y] == s3.nodes()[y]);
            }
        }
        assert(s3.search_ok(false));
        // progress
        assert forall|p: int| 0 <= p < s0.current() implies #[trigger] s3.virtual_rank(p) == s0.virtual_rank(p) by {
            assert(order[p] as int != c);
        }
        if cur + 1 < length {
            assert(s3.nodes()[s3.order()[cur + 1] as int].view().position() == None::<usize>);
        }
    }

    /// Staying at a node whose state some neighbor objects to keeps the
    /// search's invariant and makes progress.
    proof fn lemma_stay(s0: Self, s1: Self, s2: Self)
        requires
            s0.structure_ok(),
            s0.search_ok(false),
            s0.current() < s0.nodes().len(),
            Self::increment_step(s0, s1, true),
            Self::orient_step(s1, s2),
            s1.structure_ok(),
            s2.structure_ok(),
        ensures
            s2.search_ok(false),
            forall|p: int| 0 <= p < s0.current() ==> #[trigger] s2.virtual_rank(p) == s0.virtual_rank(p),
            s2.virtual_rank(s0.current()) > s0.virtual_rank(s0.current()),
    {
        let length = s0.nodes().len();
        let cur = s0.current();
        let c = s0.order()[cur] as int;
        let order = s0.order();
        let node_c = s1.nodes()[c];
        assert(s2.nodes()[c] == node_c);
        assert forall|p: int| 0 <= p < length && p != cur implies #[trigger] order[p] as int != c by {
            if order[p] as int == c {
                assert(order[p] == order[cur]);
            }
        }
        assert forall|x: int| 0 <= x < length && x != c implies #[trigger] s2.nodes()[x] == s0.nodes()[x] by {}
        assert forall|y: int| 0 <= y < length && y != c implies #[trigger] s2.views()[y] == s0.views()[y] by {}
        assert forall|p: int| 0 <= p < s2.current() implies #[trigger] s2.is_settled(order[p] as int) && s2.nodes()[order[p] as int].chosen() == Some(p as usize) by {
            assert(order[p] as int != c);
            assert(s0.is_settled(order[p] as int));
        }
        assert forall|p: int|
            0 <= p < s2.current() implies is_unmasked_except(
            s2.views(),
            (#[trigger] s2.nodes()[order[p] as int]).view().mask_sources(),
            order[p],
            s2.state_of(order[p] as int),
            s2.excluded(),
        ) by {
            let x = order[p] as int;
            assert(x != c);
            assert(s0.nodes()[x] == s2.nodes()[x]);
            let sources = s2.nodes()[x].view().mask_sources();
            assert(is_unmasked_except(
                s0.views(),
                sources,
                order[p],
                s0.state_of(x),
                s0.excluded(),
            ));
            assert(s2.node_fits(x));
            assert forall|j: int| 0 <= j < sources.len() && sources[j] != c implies #[trigger] current_mask(s2.views(), sources[j] as int, x as usize) == current_mask(s0.views(), sources[j] as int, x as usize) by {
                assert(sources[j] < length);
            }
        }
        assert forall|p: int|
            s2.current() < p < length implies (#[trigger] s2.nodes()[order[p] as int]).view().position() == None::<usize>
                && s2.views()[order[p] as int].orientation() == None::<usize> by {
            assert(order[p] as int != c);
        }
        assert forall|p: int|
            0 <= p < length implies match (#[trigger] s2.nodes()[order[p] as int]).chosen() {
                Some(q) => p <= q,
                None => true,
            } by {
            if p != cur {
                assert(order[p] as int != c);
            }
        }
        assert forall|x: int, y: int|
            0 <= x < length && 0 <= y < length && x != y && (#[trigger] s2.nodes()[x]).chosen() is Some
                && (#[trigger] s2.nodes()[y]).chosen() is Some implies s2.nodes()[x].chosen() != s2.nodes()[y].chosen() by {
            if x == c || y == c {
                let other = if x == c { y } else { x };
                let t = s0.lemma_position_of(other);
                assert(t != cur);
                assert(s0.nodes()[other] == s2.nodes()[other]);
                if t < cur {
                    assert(s0.is_settled(order[t] as int));
                    assert(s0.nodes()[order[t] as int].chosen() == Some(t as usize));
                } else {
                    assert(s0.nodes()[order[t] as int].chosen() is Some);
                }
            } else {
                assert(s0.nodes()[x] == s2.nodes()[x]);
                assert(s0.nodes()[y] == s2.nodes()[y]);
            }
        }
        assert(s2.search_ok(false));
        assert forall|p: int| 0 <= p < s0.current() implies #[trigger] s2.virtual_rank(p) == s0.virtual_rank(p) by {
            assert(order[p] as int != c);
        }
    }

    /// Sorting after moving on keeps the settled prefix in place and the
    /// search's invariant, and leaves every position as far as it was.
    #[verifier::spinoff_prover]
    proof fn lemma_sorted(s3: Self, s4: Self)
        requires
            s3.structure_ok(),
            s3.search_ok(false),
            1 <= s3.current() < s3.nodes().len(),
            forall|p: int|
                0 <= p < s3.current() ==> is_unmasked(
                    s3.views(),
                    (#[trigger] s3.nodes()[s3.order()[p] as int]).view().mask_sources(),
                    s3.order()[p],
                    s3.state_of(s3.order()[p] as int),
                ),
            forall|p: int|
                s3.current() <= p < s3.nodes().len() ==> (#[trigger] s3.nodes()[s3.order()[p] as int]).view().position() == None::<usize>
                    && s3.views()[s3.order()[p] as int].orientation() == None::<usize>,
            Self::sort_step(s3, s4),
            s4.structure_ok(),
        ensures
            s4.search_ok(false),
            forall|p: int| 0 <= p <= s3.nodes().len() ==> #[trigger] s4.virtual_rank(p) == s3.virtual_rank(p),
            forall|p: int|
                s4.current() <= p < s4.nodes().len() ==> (#[trigger] s4.nodes()[s4.order()[p] as int]).view().position()
                    == None::<usize>,
    {
        let length = s3.nodes().len();
        let m = s3.current();
        let n = s3.states_length();
        let before = s3.order();
        let after = s4.order();
        let keys = Seq::new(length, |x: int| sort_key_of(s3.nodes()[x], s3.views(), n));
        let chosen = Seq::new(length, |x: int| s3.nodes()[x].chosen());
        assert forall|p: int| 0 <= p < m implies keys[#[trigger] before[p] as int] == p by {
            assert(s3.is_settled(before[p] as int));
            assert(s3.nodes()[before[p] as int].chosen() == Some(p as usize));
        }
        assert forall|p: int| m <= p < before.len() implies keys[#[trigger] before[p] as int] >= m by {
            assert(before[p] < length);
            match s3.nodes()[before[p] as int].chosen() {
                Some(q) => {
                    assert(p <= q);
                },
                None => {
                    let node = s3.nodes()[before[p] as int];
                    assert(s3.node_fits(before[p] as int));
                    lemma_masked_count_bound(s3.views(), node.view().mask_sources(), node.view().mask_key(), n as int);
                },
            }
        }
        assert forall|i: int, j: int|
            0 <= i < j < after.len() implies keys[#[trigger] after[i] as int] <= keys[#[trigger] after[j] as int] by {
            assert(after[i] < length && after[j] < length);
        }
        lemma_sort_keeps_prefix(before, after, keys, m);
        // every node behind the prefix came from behind the prefix
        assert forall|p: int| m <= p < length implies exists|t: int| m <= t < length && #[trigger] before[t] == #[trigger] after[p] by {
            assert(after.contains(after[p]));
            assert(before.contains(after[p]));
            let t = choose|t: int| 0 <= t < before.len() && before[t] == after[p];
            if t < m {
                assert(after[t] == before[t]);
                assert(after[t] == after[p]);
            }
        }
        assert forall|p: int|
            m <= p < length implies (#[trigger] s4.nodes()[after[p] as int]).view().position() == None::<usize>
                && s4.views()[after[p] as int].orientation() == None::<usize> && match s4.nodes()[after[p] as int].chosen() {
                Some(k) => k >= m,
                None => true,
            } by {
            let t = choose|t: int| m <= t < length && #[trigger] before[t] == after[p];
            assert(s3.nodes()[before[t] as int].view().position() == None::<usize>);
            match s3.nodes()[before[t] as int].chosen() {
                Some(k) => {
                    assert(t <= k);
                },
                None => {},
            }
        }
        assert forall|x: int|
            0 <= x < keys.len() implies match #[trigger] chosen[x] {
                Some(k) => keys[x] == k,
                None => keys[x] >= 0x1_0000_0000_0000_0000,
            } by {
            assert(s3.node_fits(x));
            let node = s3.nodes()[x];
            lemma_masked_count_bound(s3.views(), node.view().mask_sources(), node.view().mask_key(), n as int);
        }
        assert forall|p: int|
            0 <= p < length implies match (#[trigger] s4.nodes()[after[p] as int]).chosen() {
                Some(q) => p <= q,
                None => true,
            } by {
            if p < m {
                assert(after[p] == before[p]);
            } else {
                assert forall|q: int| m <= q < after.len() implies match #[trigger] chosen[after[q] as int] {
                    Some(k) => k >= m,
                    None => true,
                } by {
                    assert(s4.nodes()[after[q] as int].chosen() == chosen[after[q] as int]);
                }
                lemma_sort_chosen_not_ahead(after, keys, chosen, m, p);
            }
        }
        assert forall|p: int|
            0 <= p < s4.current() implies #[trigger] s4.is_settled(after[p] as int) && s4.nodes()[after[p] as int].chosen() == Some(p as usize) by {
            assert(after[p] == before[p]);
            assert(s3.is_settled(before[p] as int));
        }
        assert forall|p: int|
            0 <= p < s4.current() implies is_unmasked_except(
            s4.views(),
            (#[trigger] s4.nodes()[after[p] as int]).view().mask_sources(),
            after[p],
            s4.state_of(after[p] as int),
            s4.excluded(),
        ) by {
            assert(after[p] == before[p]);
            assert(is_unmasked(
                s3.views(),
                s3.nodes()[before[p] as int].view().mask_sources(),
                before[p],
                s3.state_of(before[p] as int),
            ));
        }
        assert forall|p: int|
            s4.current() < p < length implies (#[trigger] s4.nodes()[after[p] as int]).view().position() == None::<usize>
                && s4.views()[after[p] as int].orientation() == None::<usize> by {
        }
        assert(after[0] == before[0]);
        assert(s4.search_ok(false));
        assert forall|p: int| 0 <= p <= s3.nodes().len() implies #[trigger] s4.virtual_rank(p) == s3.virtual_rank(p) by {
            if p < m {
                assert(after[p] == before[p]);
            } else if p == m {
                assert(s4.nodes()[after[m] as int].view().position() == None::<usize>);
                assert(s3.nodes()[before[m] as int].view().position() == None::<usize>);
            }
        }
    }

    /// Running out of states at a node and walking back keeps the search's
    /// invariant and makes progress; when no earlier node lists that node, the
    /// search stops there, with that node out of states.
    proof fn lemma_backtrack(s0: Self, s1: Self, s2: Self, unable: bool)
        requires
            s0.structure_ok(),
            s0.search_ok(false),
            s0.current() < s0.nodes().len(),
            Self::increment_step(s0, s1, false),
            Self::backtrack_step(s1, s2, !unable),
            s1.structure_ok(),
            s2.structure_ok(),
        ensures
            s2.search_ok(unable),
            s2.current() <= s0.current(),
            forall|p: int| 0 <= p < s2.current() ==> #[trigger] s2.virtual_rank(p) == s0.virtual_rank(p),
            s2.virtual_rank(s2.current()) > s0.virtual_rank(s2.current()),
            unable ==> Self::gave_up(s2),
    {
        let length = s0.nodes().len();
        let n = s0.states_length();
        let cur = s0.current();
        let c = s0.order()[cur] as int;
        let order = s0.order();
        assert forall|p: int| 0 <= p < length && p != cur implies #[trigger] order[p] as int != c by {
            if order[p] as int == c {
                assert(order[p] == order[cur]);
            }
        }
        assert forall|x: int| 0 <= x < length && x != c implies #[trigger] s1.nodes()[x] == s0.nodes()[x] by {}
        let k = s2.current();
        // what every node looks like after the walk
        assert forall|p: int|
            0 <= p < length implies (#[trigger] s2.nodes()[order[p] as int]).chosen() == s1.nodes()[order[p] as int].chosen() by {
            assert(order[p] == s1.order()[p]);
        }
        assert forall|p: int|
            0 <= p < length && p != cur && (unable || !(k < p <= cur)) implies #[trigger] s2.nodes()[order[p] as int] == s0.nodes()[order[p] as int]
                && s2.views()[order[p] as int] == s0.views()[order[p] as int] by {
            assert(order[p] == s1.order()[p]);
        }
        assert forall|p: int|
            0 <= p < length && (if unable { p > cur } else { p > k }) implies (#[trigger] s2.nodes()[order[p] as int]).view().position() == None::<usize>
                && s2.views()[order[p] as int].orientation() == None::<usize> by {
            assert(order[p] == s1.order()[p]);
            if p > cur {
                assert(order[p] as int != c);
            }
        }
        // the settled prefix
        assert forall|p: int|
            0 <= p < s2.current() implies #[trigger] s2.is_settled(order[p] as int) && s2.nodes()[order[p] as int].chosen() == Some(p as usize) by {
            assert(s0.is_settled(order[p] as int));
        }
        assert forall|p: int|
            0 <= p < s2.current() implies is_unmasked_except(
            s2.views(),
            (#[trigger] s2.nodes()[order[p] as int]).view().mask_sources(),
            order[p],
            s2.state_of(order[p] as int),
            s2.excluded(),
        ) by {
            let x = order[p] as int;
            let sources = s0.nodes()[x].view().mask_sources();
            assert(s0.node_fits(x));
            assert(is_unmasked_except(s0.views(), sources, order[p], s0.state_of(x), s0.excluded()));
            assert forall|j: int|
                0 <= j < sources.len() && sources[j] != s2.excluded() implies match #[trigger] current_mask(
                s2.views(),
                sources[j] as int,
                order[p],
            ) {
                Some(mask) => mask_bits(mask)[s2.state_of(x)],
                None => true,
            } by {
                let y = sources[j] as int;
                let q = s0.lemma_position_of(y);
                if !unable && k < q <= cur {
                    assert(s2.views()[order[q] as int].orientation() == None::<usize>) by {
                        assert(order[q] == s1.order()[q]);
                    }
                } else {
                    assert(q != cur);
                    assert(s2.views()[y] == s0.views()[y]);
                    assert(current_mask(s2.views(), y, order[p]) == current_mask(s0.views(), y, order[p]));
                }
            }
        }
        assert forall|p: int|
            0 <= p < length implies match (#[trigger] s2.nodes()[order[p] as int]).chosen() {
                Some(q) => p <= q,
                None => true,
            } by {
            assert(s2.nodes()[order[p] as int].chosen() == s1.nodes()[order[p] as int].chosen());
            if p != cur {
                assert(order[p] as int != c);
            }
        }
        assert forall|x: int, y: int|
            0 <= x < length && 0 <= y < length && x != y && (#[trigger] s2.nodes()[x]).chosen() is Some
                && (#[trigger] s2.nodes()[y]).chosen() is Some implies s2.nodes()[x].chosen() != s2.nodes()[y].chosen() by {
            let tx = s0.lemma_position_of(x);
            let ty = s0.lemma_position_of(y);
            assert(s2.nodes()[order[tx] as int].chosen() == s1.nodes()[order[tx] as int].chosen());
            assert(s2.nodes()[order[ty] as int].chosen() == s1.nodes()[order[ty] as int].chosen());
            assert(x != c && y != c);
        }
        if !unable {
            assert(s0.is_settled(order[k] as int));
            assert(s2.nodes()[order[k] as int] == s0.nodes()[order[k] as int]);
        }
        assert(s2.search_ok(unable));
        // progress
        assert forall|p: int| 0 <= p < s2.current() implies #[trigger] s2.virtual_rank(p) == s0.virtual_rank(p) by {
            assert(s2.nodes()[order[p] as int] == s0.nodes()[order[p] as int]);
        }
        if unable {
            assert(s2.nodes()[c] == s1.nodes()[c]);
            assert(s0.node_fits(c));
        } else {
            assert(s2.nodes()[order[k] as int] == s0.nodes()[order[k] as int]);
        }
        if unable {
            assert forall|p: int| 0 <= p < s2.current() implies !#[trigger] Self::lists_current(s2, p) by {
                assert(!Self::lists_current(s1, p));
            }
        }
    }

    /// A search that gave up takes no further round: its exhausted node has
    /// no state left to move to.
    pub proof fn lemma_gave_up_is_final(a: Self, b: Self)
        requires
            a.structure_ok(),
            Self::gave_up(a),
        ensures
            !Self::round(a, b),
    {
        let c = a.order()[a.current()] as int;
        assert(a.node_fits(c));
        assert forall|s1: Self, moved: bool| !#[trigger] Self::increment_step(a, s1, moved) by {
            if Self::increment_step(a, s1, moved) {
                s1.nodes()[c].view().lemma_position_bound();
            }
        }
    }

    /// When a round walks back, it walks back to the nearest earlier position
    /// whose node lists the node that ran out of states: that node lists it,
    /// and no node at a position between the two does.
    pub proof fn lemma_walks_back_to_nearest_lister(a: Self, b: Self)
        requires
            a.structure_ok(),
            Self::round(a, b),
            b.current() < a.current(),
        ensures
            a.nodes()[a.order()[b.current()] as int].neighbors().contains(a.order()[a.current()]),
            forall|p: int|
                b.current() < p < a.current() ==> !(#[trigger] a.nodes()[a.order()[p] as int]).neighbors().contains(
                    a.order()[a.current()],
                ),
    {
        let c = a.order()[a.current()] as int;
        assert(c < a.nodes().len());
        if exists|s1: Self, s2: Self, s3: Self| #[trigger] Self::advance_round(a, s1, s2, s3, b) {
            let (s1, s2, s3) = choose|s1: Self, s2: Self, s3: Self| #[trigger] Self::advance_round(a, s1, s2, s3, b);
            assert(false);
        } else if exists|s1: Self| #[trigger] Self::stay_round(a, s1, b) {
            let s1 = choose|s1: Self| #[trigger] Self::stay_round(a, s1, b);
            assert(false);
        } else {
            let (s1, found) = choose|s1: Self, found: bool| #[trigger] Self::backtrack_round(a, s1, b, found);
            assert(found);
            assert forall|p: int| 0 <= p < a.current() implies Self::lists_current(s1, p)
                == (#[trigger] a.nodes()[a.order()[p] as int]).neighbors().contains(a.order()[a.current()]) by {
                let x = a.order()[p] as int;
                assert(x < a.nodes().len());
                if x != c {
                    assert(s1.nodes()[x] == a.nodes()[x]);
                }
            }
            assert(Self::lists_current(s1, b.current()));
        }
    }

    /// A round moves on to the next position only when every node that the
    /// current node lists still has a permitted state and holds no state that
    /// is forbidden.
    pub proof fn lemma_moves_on_only_with_neighbors_unrestricted(a: Self, b: Self, x: int)
        requires
            a.structure_ok(),
            Self::round(a, b),
            b.current() > a.current(),
            0 <= x < a.nodes().len(),
            a.nodes()[a.order()[a.current()] as int].neighbors().contains(x as usize),
        ensures
            !b.nodes()[x].view().fully_restricted_in(b.views()),
            !b.nodes()[x].view().current_state_restricted_in(b.views()),
    {
        let c = a.order()[a.current()] as int;
        assert(c < a.nodes().len());
        if exists|s1: Self| #[trigger] Self::stay_round(a, s1, b) {
            let s1 = choose|s1: Self| #[trigger] Self::stay_round(a, s1, b);
            assert(false);
        } else if exists|s1: Self, found: bool| #[trigger] Self::backtrack_round(a, s1, b, found) {
            let (s1, found) = choose|s1: Self, found: bool| #[trigger] Self::backtrack_round(a, s1, b, found);
            assert(false);
        } else {
            let (s1, s2, s3) = choose|s1: Self, s2: Self, s3: Self| #[trigger] Self::advance_round(a, s1, s2, s3, b);
            assert(s2.nodes()[c].neighbors() == a.nodes()[c].neighbors());
            assert(!Self::is_restricted_neighbor(s2, x));
            assert(b.nodes() == s2.nodes());
            assert(b.views() == s2.views());
        }
    }

    /// A run followed by one more round is a run.
    proof fn lemma_extend_run(trace: Seq<Self>, next: Self)
        requires
            Self::is_run(trace),
            Self::round(trace.last(), next),
        ensures
            Self::is_run(trace.push(next)),
            trace.push(next)[0] == trace[0],
            trace.push(next).last() == next,
    {
        let longer = trace.push(next);
        assert forall|i: int| 0 <= i < longer.len() - 1 implies #[trigger] Self::round(longer[i], longer[i + 1]) by {
            if i < trace.len() - 1 {
                assert(longer[i] == trace[i] && longer[i + 1] == trace[i + 1]);
                assert(Self::round(trace[i], trace[i + 1]));
            } else {
                assert(longer[i] == trace.last());
            }
        }
    }

    /// Once every node is settled, the search is solved.
    proof fn lemma_solved(&self)
        requires
            self.structure_ok(),
            self.search_ok(false),
            self.current() == self.nodes().len(),
        ensures
            self.is_solved(),
    {
        assert forall|x: int| 0 <= x < self.nodes().len() implies #[trigger] self.is_settled(x) && is_unmasked(
            self.views(),
            self.nodes()[x].view().mask_sources(),
            x as usize,
            self.state_of(x),
        ) by {
            let p = self.lemma_position_of(x);
            assert(self.is_settled(self.order()[p] as int));
            assert(is_unmasked_except(
                self.views(),
                self.nodes()[self.order()[p] as int].view().mask_sources(),
                self.order()[p],
                self.state_of(self.order()[p] as int),
                -1,
            ));
        }
    }

    /// Every rank is at most `states_length + 1`, so every position has come
    /// at most `states_length + 2` far.
    proof fn lemma_rank_bound(&self)
        requires
            self.structure_ok(),
        ensures
            forall|x: int| 0 <= x < self.nodes().len() ==> rank_of(#[trigger] self.nodes()[x]) <= self.states_length() + 1,
            forall|p: int|
                0 <= p <= self.nodes().len() ==> 0 <= #[trigger] self.virtual_rank(p) <= self.states_length() + 2,
    {
        assert forall|x: int| 0 <= x < self.nodes().len() implies rank_of(#[trigger] self.nodes()[x]) <= self.states_length() + 1 by {
            assert(self.node_fits(x));
            self.nodes()[x].view().lemma_position_bound();
        }
        assert forall|p: int| 0 <= p <= self.nodes().len() implies 0 <= #[trigger] self.virtual_rank(p) <= self.states_length() + 2 by {
            if p <= self.current() && p < self.nodes().len() {
                assert(self.order()[p] < self.nodes().len());
            }
        }
    }

    /// A step that leaves the positions before `k` as far as they were and
    /// takes position `k` further lowers the progress measure.
    proof fn lemma_progress_decreases(before: Self, after: Self, k: int)
        requires
            before.structure_ok(),
            after.structure_ok(),
            after.nodes().len() == before.nodes().len(),
            after.states_length() == before.states_length(),
            0 <= k <= before.nodes().len(),
            forall|p: int| 0 <= p < k ==> #[trigger] after.virtual_rank(p) == before.virtual_rank(p),
            after.virtual_rank(k) > before.virtual_rank(k),
        ensures
            0 <= after.progress() < before.progress(),
    {
        before.lemma_rank_bound();
        after.lemma_rank_bound();
        let base: int = before.states_length() + 4int;
        let da = after.progress_digits();
        let db = before.progress_digits();
        assert forall|i: int| 0 <= i < da.len() implies 0 <= #[trigger] da[i] < base by {
            assert(0 <= after.virtual_rank(i) <= after.states_length() + 2);
        }
        assert forall|i: int| 0 <= i < db.len() implies 0 <= #[trigger] db[i] < base by {
            assert(0 <= before.virtual_rank(i) <= before.states_length() + 2);
        }
        assert forall|i: int| 0 <= i < k implies da[i] == db[i] by {
            assert(after.virtual_rank(i) == before.virtual_rank(i));
        }
        lemma_digits_value_less(da, db, base, k);
        lemma_digits_value_bound(da, base);
    }

    /// Every node index stands somewhere in the order.
    proof fn lemma_position_of(&self, x: int) -> (p: int)
        requires
            self.structure_ok(),
            0 <= x < self.nodes().len(),
        ensures
            0 <= p < self.nodes().len(),
            self.order()[p] == x,
    {
        assert(self.order().contains(x as usize));
        choose|p: int| 0 <= p < self.order().len() && self.order()[p] == x as usize
    }

    /// The state index of node `x`, which must be settled.
    pub fn node_state_index(&self, x: usize) -> (state: usize)
        requires
            self.structure_ok(),
            x < self.nodes().len(),
            self.is_settled(x as int),
        ensures
            state == self.state_of(x as int),
    {
        proof {
            assert(self.node_fits(x as int));
        }
        *self.collapsable_nodes[x].node_state_indexed_view.get().unwrap()
    }

    /// Gives every node a state that the masks of its neighbors permit, or
    /// tells that the search ran out of states to try: it gives up only at a
    /// node that has run out of states while no node before it in the order
    /// lists it; at any other dead end it walks back to the nearest earlier
    /// node that lists the exhausted one and tries that node's next state.
    pub fn search(&mut self) -> (is_unable_to_collapse: bool)
        requires
            old(self).structure_ok(),
            old(self).current() == 0,
            forall|x: int|
                0 <= x < old(self).nodes().len() ==> (#[trigger] old(self).nodes()[x]).view().position() == None::<usize>
                    && old(self).views()[x].orientation() == None::<usize> && old(self).nodes()[x].chosen() == None::<usize>,
        ensures
            final(self).structure_ok(),
            final(self).nodes().len() == old(self).nodes().len(),
            final(self).states_length() == old(self).states_length(),
            forall|y: int| 0 <= y < old(self).nodes().len() ==> #[trigger] final(self).views()[y].values() == old(self).views()[y].values(),
            forall|x: int| 0 <= x < old(self).nodes().len() ==> (#[trigger] final(self).nodes()[x]).view().mask_sources() == old(self).nodes()[x].view().mask_sources(),
            forall|x: int| 0 <= x < old(self).nodes().len() ==> (#[trigger] final(self).nodes()[x]).neighbors() == old(self).nodes()[x].neighbors(),
            !is_unable_to_collapse ==> final(self).is_solved(),
            is_unable_to_collapse ==> Self::gave_up(*final(self)),
            exists|trace: Seq<Self>|
                #[trigger] Self::is_run(trace) && Self::sort_step(*old(self), trace[0]) && trace.last()
                    == *final(self),
            masks_permit_all(old(self).views(), old(self).states_length()) && old(self).states_length() >= 1
                ==> !is_unable_to_collapse && forall|x: int|
                0 <= x < old(self).nodes().len() ==> #[trigger] final(self).state_of(x) == 0,
    {
        let ghost start = *self;
        self.sort_collapsable_nodes();
        proof {
            self.lemma_frame_structure(start);
            let length = self.nodes().len();
            assert forall|p: int| 0 <= p < length implies (#[trigger] self.nodes()[self.order()[p] as int]).view().position() == None::<usize>
                && self.views()[self.order()[p] as int].orientation() == None::<usize> && self.nodes()[self.order()[p] as int].chosen() == None::<usize> by {
                assert(self.order()[p] < length);
            }
            assert(self.search_ok(false));
        }
        let ghost mut trace: Seq<Self> = seq![*self];
        let mut is_unable_to_collapse = false;
        while !is_unable_to_collapse && !self.is_fully_collapsed()
            invariant
                Self::is_run(trace),
                Self::sort_step(start, trace[0]),
                trace.last() == *self,
                self.structure_ok(),
                self.search_ok(is_unable_to_collapse),
                self.nodes().len() == start.nodes().len(),
                self.states_length() == start.states_length(),
                forall|y: int| 0 <= y < start.nodes().len() ==> #[trigger] self.views()[y].values() == start.views()[y].values(),
                forall|x: int| 0 <= x < start.nodes().len() ==> (#[trigger] self.nodes()[x]).view().mask_sources() == start.nodes()[x].view().mask_sources(),
                forall|x: int| 0 <= x < start.nodes().len() ==> (#[trigger] self.nodes()[x]).neighbors() == start.nodes()[x].neighbors(),
                start.views().len() == start.nodes().len(),
                is_unable_to_collapse ==> Self::gave_up(*self),
                masks_permit_all(start.views(), start.states_length()) && start.states_length() >= 1 ==> {
                    &&& !is_unable_to_collapse
                    &&& self.current() < self.nodes().len() ==> self.nodes()[self.order()[self.current()] as int].view().position()
                        == None::<usize>
                    &&& forall|x: int|
                        0 <= x < self.nodes().len() ==> match (#[trigger] self.nodes()[x]).view().position() {
                            Some(s) => s == 0,
                            None => true,
                        }
                },
            decreases self.progress(),
        {
            let ghost s0 = *self;
            let ghost unrestricted = masks_permit_all(start.views(), start.states_length()) && start.states_length() >= 1;
            proof {
                s0.lemma_rank_bound();
                if unrestricted {
                    lemma_masks_permit_all_frame(start.views(), s0.views(), start.states_length());
                }
            }
            if self.try_increment_current_collapsable_node_state() {
                let ghost s1 = *self;
                proof {
                    self.lemma_frame_structure(s0);
                    if unrestricted {
                        let c = s0.order()[s0.current()] as int;
                        assert(s0.node_fits(c));
                        let previous = s0.nodes()[c];
                        lemma_unmasked_everywhere(s0.views(), previous.view().mask_sources(), previous.view().mask_key(), s0.states_length(), 0);
                        assert(previous.view().unmasked_in(s0.views(), 0));
                        assert(s1.nodes()[c].view().position() == Some(0usize));
                        assert forall|x: int|
                            0 <= x < s1.nodes().len() implies match (#[trigger] s1.nodes()[x]).view().position() {
                                Some(s) => s == 0,
                                None => true,
                            } by {
                            if x != c {
                                assert(s1.nodes()[x] == s0.nodes()[x]);
                            }
                        }
                    }
                }
                self.alter_reference_to_current_collapsable_node_mask();
                let ghost s2 = *self;
                proof {
                    let c = s1.order()[s1.current()] as int;
                    assert forall|y: int| 0 <= y < self.views().len() implies #[trigger] self.views()[y].values() == s1.views()[y].values() by {
                        if y != c {
                            assert(self.views()[y] == s1.views()[y]);
                        }
                    }
                    self.lemma_frame_structure(s1);
                }
                if !self.is_at_least_one_neighbor_fully_restricted() {
                    self.move_to_next_collapsable_node();
                    proof {
                        self.lemma_frame_structure(s2);
                        CollapsableWaveFunction::lemma_advance(s0, s1, s2, *self);
                    }
                    let ghost s3 = *self;
                    if !self.is_fully_collapsed() {
                        self.sort_collapsable_nodes();
                        proof {
                            self.lemma_frame_structure(s3);
                            CollapsableWaveFunction::lemma_sorted(s3, *self);
                        }
                    }
                    proof {
                        assert(Self::advance_round(s0, s1, s2, s3, *self));
                        assert(Self::round(s0, *self));
                    }
                    proof {
                        let cur = s0.current();
                        assert forall|p: int| 0 <= p <= s3.nodes().len() implies #[trigger] self.virtual_rank(p) == s3.virtual_rank(p) by {}
                        if s3.virtual_rank(cur) > s0.virtual_rank(cur) {
                            CollapsableWaveFunction::lemma_progress_decreases(s0, *self, cur);
                        } else {
                            assert forall|p: int| 0 <= p < cur + 1 implies #[trigger] self.virtual_rank(p) == s0.virtual_rank(p) by {
                                assert(self.virtual_rank(p) == s3.virtual_rank(p));
                            }
                            CollapsableWaveFunction::lemma_progress_decreases(s0, *self, cur + 1);
                        }
                    }
                } else {
                    proof {
                        assert(Self::stay_round(s0, s1, s2));
                        assert(Self::round(s0, *self));
                        CollapsableWaveFunction::lemma_stay(s0, s1, s2);
                        CollapsableWaveFunction::lemma_progress_decreases(s0, s2, s0.current());
                        if unrestricted {
                            lemma_masks_permit_all_frame(s0.views(), s2.views(), s0.states_length());
                            let x = choose|x: int| #[trigger] Self::is_restricted_neighbor(s2, x);
                            assert(s2.node_fits(x));
                            let node = s2.nodes()[x];
                            lemma_unmasked_everywhere(s2.views(), node.view().mask_sources(), node.view().mask_key(), s2.states_length(), 0);
                            assert(node.view().unmasked_in(s2.views(), 0));
                            match node.view().position() {
                                Some(i) => {
                                    if i < s2.states_length() {
                                        lemma_unmasked_everywhere(s2.views(), node.view().mask_sources(), node.view().mask_key(), s2.states_length(), i as int);
                                    }
                                },
                                None => {},
                            }
                            assert(false);
                        }
                    }
                }
            } else {
                let ghost s1 = *self;
                proof {
                    self.lemma_frame_structure(s0);
                    if unrestricted {
                        let c = s0.order()[s0.current()] as int;
                        assert(s0.node_fits(c));
                        let node = s0.nodes()[c];
                        lemma_unmasked_everywhere(s0.views(), node.view().mask_sources(), node.view().mask_key(), s0.states_length(), 0);
                        assert(node.view().unmasked_in(s0.views(), 0));
                        assert(false);
                    }
                }
                let found = self.try_move_to_previous_collapsable_node_neighbor();
                if !found {
                    is_unable_to_collapse = true;
                }
                proof {
                    assert forall|y: int| 0 <= y < self.nodes().len() implies #[trigger] self.views()[y].values() == s1.views()[y].values() by {
                        let p = s1.lemma_position_of(y);
                        assert(s1.order()[p] as int == y);
                    }
                    assert forall|y: int| 0 <= y < self.nodes().len() implies ({
                        let a = #[trigger] self.nodes()[y];
                        let b = s1.nodes()[y];
                        a == b || (a.node_id() == b.node_id() && a.neighbors() == b.neighbors() && a.view().wf()
                            && a.view().states() == b.view().states() && a.view().mask_sources() == b.view().mask_sources()
                            && a.view().mask_key() == b.view().mask_key())
                    }) by {
                        let p = s1.lemma_position_of(y);
                        assert(s1.order()[p] as int == y);
                    }
                    self.lemma_frame_structure(s1);
                    CollapsableWaveFunction::lemma_backtrack(s0, s1, *self, is_unable_to_collapse);
                    CollapsableWaveFunction::lemma_progress_decreases(s0, *self, self.current());
                    assert(Self::backtrack_round(s0, s1, *self, found));
                    assert(Self::round(s0, *self));
                }
            }
            proof {
                Self::lemma_extend_run(trace, *self);
                trace = trace.push(*self);
            }
        }
        proof {
            if !is_unable_to_collapse {
                self.lemma_solved();
            }
            if masks_permit_all(start.views(), start.states_length()) && start.states_length() >= 1 {
                assert forall|x: int| 0 <= x < start.nodes().len() implies #[trigger] self.state_of(x) == 0 by {
                    assert(self.is_settled(x));
                }
            }
        }
        is_unable_to_collapse
    }
}

/// Sorting keeps a prefix in place when the prefix's keys are `0..m` in order
/// and every other key is at least `m`.
proof fn lemma_sort_keeps_prefix(before: Seq<usize>, after: Seq<usize>, keys: Seq<int>, m: int)
    requires
        before.len() == after.len(),
        before.no_duplicates(),
        after.no_duplicates(),
        forall|x: usize| after.contains(x) <==> before.contains(x),
        forall|p: int| 0 <= p < before.len() ==> (#[trigger] before[p]) < keys.len(),
        0 <= m <= before.len(),
        forall|p: int| 0 <= p < m ==> keys[#[trigger] before[p] as int] == p,
        forall|p: int| m <= p < before.len() ==> keys[#[trigger] before[p] as int] >= m,
        forall|i: int, j: int|
            0 <= i < j < after.len() ==> keys[#[trigger] after[i] as int] <= keys[#[trigger] after[j] as int],
    ensures
        forall|p: int| 0 <= p < m ==> #[trigger] after[p] == before[p],
{
    assert forall|p: int| 0 <= p < m implies #[trigger] after[p] == before[p] by {
        lemma_sort_keeps_prefix_at(before, after, keys, m, p);
    }
}

proof fn lemma_sort_keeps_prefix_at(
    before: Seq<usize>,
    after: Seq<usize>,
    keys: Seq<int>,
    m: int,
    p: int,
)
    requires
        before.len() == after.len(),
        before.no_duplicates(),
        after.no_duplicates(),
        forall|x: usize| after.contains(x) <==> before.contains(x),
        forall|q: int| 0 <= q < before.len() ==> (#[trigger] before[q]) < keys.len(),
        0 <= m <= before.len(),
        forall|q: int| 0 <= q < m ==> keys[#[trigger] before[q] as int] == q,
        forall|q: int| m <= q < before.len() ==> keys[#[trigger] before[q] as int] >= m,
        forall|i: int, j: int|
            0 <= i < j < after.len() ==> keys[#[trigger] after[i] as int] <= keys[#[trigger] after[j] as int],
        0 <= p < m,
    ensures
        after[p] == before[p],
    decreases p,
{
    if p > 0 {
        lemma_sort_keeps_prefix_at(before, after, keys, m, p - 1);
    }
    assert forall|q: int| 0 <= q < p implies #[trigger] after[q] == before[q] by {
        lemma_sort_keeps_prefix_at(before, after, keys, m, q);
    }
    assert(after.contains(after[p]));
    let t = choose|t: int| 0 <= t < before.len() && before[t] == after[p];
    if t < p {
        assert(after[t] == before[t]);
        assert(false);
    }
    if t > p {
        assert(before.contains(before[p]));
        let u = choose|u: int| 0 <= u < after.len() && after[u] == before[p];
        if u < p {
            assert(after[u] == before[u]);
        }
        assert(u != p);
        assert(u > p);
        assert(keys[after[p] as int] <= keys[after[u] as int]);
        if t < m {
            assert(keys[before[t] as int] == t);
        } else {
            assert(keys[before[t] as int] >= m);
        }
        assert(keys[before[p] as int] == p);
        assert(false);
    }
}

/// After sorting, a node chosen at position `q` stands at or before `q`, when
/// chosen positions are distinct, the first `m` positions are the nodes chosen
/// at `0..m`, and nodes not chosen have keys above every chosen position.
proof fn lemma_sort_chosen_not_ahead(
    after: Seq<usize>,
    keys: Seq<int>,
    chosen: Seq<Option<usize>>,
    m: int,
    p: int,
)
    requires
        after.no_duplicates(),
        forall|q: int| 0 <= q < after.len() ==> (#[trigger] after[q]) < keys.len(),
        keys.len() == chosen.len(),
        forall|x: int|
            0 <= x < keys.len() ==> match #[trigger] chosen[x] {
                Some(k) => keys[x] == k,
                None => keys[x] >= 0x1_0000_0000_0000_0000,
            },
        forall|x: int, y: int|
            0 <= x < chosen.len() && 0 <= y < chosen.len() && x != y && (#[trigger] chosen[x]) is Some
                && (#[trigger] chosen[y]) is Some ==> chosen[x] != chosen[y],
        0 <= m <= p < after.len(),
        forall|q: int| m <= q < after.len() ==> match #[trigger] chosen[after[q] as int] {
            Some(k) => k >= m,
            None => true,
        },
        forall|i: int, j: int|
            0 <= i < j < after.len() ==> keys[#[trigger] after[i] as int] <= keys[#[trigger] after[j] as int],
    ensures
        match chosen[after[p] as int] {
            Some(k) => k >= p,
            None => true,
        },
    decreases p - m,
{
    if p > m {
        if let Some(k) = chosen[after[p] as int] {
            lemma_sort_chosen_not_ahead(after, keys, chosen, m, p - 1);
            assert(keys[after[p - 1] as int] <= keys[after[p] as int]);
            assert(k < 0x1_0000_0000_0000_0000);
            match chosen[after[p - 1] as int] {
                Some(k2) => {
                    assert(after[p - 1] != after[p]);
                    assert(k2 != k);
                },
                None => {},
            }
        }
    }
}

/// Whether `ids` holds `id`.
pub(crate) fn contains_index(ids: &Vec<usize>, id: usize) -> (found: bool)
    ensures
        found == ids@.contains(id),
{
    let mut i: usize = 0;
    while i < ids.len()
        invariant
            i <= ids@.len(),
            forall|k: int| 0 <= k < i ==> ids@[k] != id,
        decreases ids@.len() - i,
    {
        if ids[i] == id {
            return true;
        }
        i = i + 1;
    }
    false
}

} // verus!
