//! The states of one node, walked in order, where a state may be masked out
//! by the oriented mapped views of the node's neighbors.

use crate::mapped_view::MappedView;
use crate::mask::{mask_bit, mask_bits, Mask};
use crate::random::shuffle_indices;
use rand_chacha::ChaCha8Rng;
use vstd::prelude::*;

verus! {

broadcast use vstd::std_specs::hash::group_hash_axioms;

/// The mapped view of one node: oriented by that node's state index, it gives
/// for each neighbor's node index the mask of the neighbor's permitted states.
pub type NeighborMaskView = MappedView<usize, usize, Mask>;

/// Every mask that any of the views holds has exactly `length` bits.
pub open spec fn views_hold_masks_of_length(views: Seq<NeighborMaskView>, length: nat) -> bool {
    forall|y: int, view_key: usize, key: usize|
        0 <= y < views.len() && #[trigger] views[y].values().contains_key(view_key)
            && views[y].values()[view_key].contains_key(key) ==> mask_bits(
            #[trigger] views[y].values()[view_key][key],
        ).len() == length
}

/// The mask that view `views[y]` currently places on the node keyed `key`.
pub open spec fn current_mask(views: Seq<NeighborMaskView>, y: int, key: usize) -> Option<Mask> {
    views[y].current(key)
}

/// State `index` of the node keyed `key` is permitted by every mask that the
/// views listed in `sources` currently place on it.
pub open spec fn is_unmasked(
    views: Seq<NeighborMaskView>,
    sources: Seq<usize>,
    key: usize,
    index: int,
) -> bool {
    forall|j: int|
        0 <= j < sources.len() ==> match #[trigger] current_mask(views, sources[j] as int, key) {
            Some(mask) => mask_bits(mask)[index],
            None => true,
        }
}

/// How many of the states `0..upto` are masked out.
pub open spec fn masked_count(
    views: Seq<NeighborMaskView>,
    sources: Seq<usize>,
    key: usize,
    upto: int,
) -> nat
    decreases upto,
{
    if upto <= 0 {
        0
    } else {
        masked_count(views, sources, key, upto - 1) + if is_unmasked(views, sources, key, upto - 1) {
            0nat
        } else {
            1nat
        }
    }
}

/// At most `upto` of the states `0..upto` are masked out.
pub proof fn lemma_masked_count_bound(
    views: Seq<NeighborMaskView>,
    sources: Seq<usize>,
    key: usize,
    upto: int,
)
    requires
        upto >= 0,
    ensures
        masked_count(views, sources, key, upto) <= upto,
    decreases upto,
{
    if upto > 0 {
        lemma_masked_count_bound(views, sources, key, upto - 1);
    }
}

/// The states of a node, a position among them, and which neighbor views mask them.
pub struct IndexedView<TNodeState> {
    node_state_ids: Vec<TNodeState>,
    node_state_ids_length: usize,
    index: Option<usize>,
    masks: Vec<usize>,
    masks_key: usize,
    index_mapping: Vec<usize>,
}

impl<TNodeState> IndexedView<TNodeState> {
    /// The states, in order.
    pub closed spec fn states(&self) -> Seq<TNodeState> {
        self.node_state_ids@
    }

    /// The position among the states: `None` before the first move,
    /// `Some(states().len())` once the states are exhausted.
    pub closed spec fn position(&self) -> Option<usize> {
        self.index
    }

    /// The node indices whose views mask these states.
    pub closed spec fn mask_sources(&self) -> Seq<usize> {
        self.masks@
    }

    /// The key under which those views hold this node's masks.
    pub closed spec fn mask_key(&self) -> usize {
        self.masks_key
    }

    /// The order that `shuffle` chose (the identity until then).
    pub closed spec fn mapping(&self) -> Seq<usize> {
        self.index_mapping@
    }

    pub closed spec fn wf(&self) -> bool {
        &&& self.node_state_ids_length == self.node_state_ids@.len()
        &&& self.index_mapping@.len() == self.node_state_ids@.len()
        &&& match self.index {
            Some(i) => i <= self.node_state_ids@.len(),
            None => true,
        }
    }

    /// A well-formed view is at most one past its last state.
    pub proof fn lemma_position_bound(&self)
        requires
            self.wf(),
        ensures
            match self.position() {
                Some(i) => i <= self.states().len(),
                None => true,
            },
    {
    }

    /// The views can be read for this node: every source is a view, and every
    /// mask has one bit per state.
    pub open spec fn fits(&self, views: Seq<NeighborMaskView>) -> bool {
        &&& forall|j: int|
            0 <= j < self.mask_sources().len() ==> #[trigger] self.mask_sources()[j] < views.len()
        &&& views_hold_masks_of_length(views, self.states().len())
    }

    /// State `index` is permitted by the current masks.
    pub open spec fn unmasked_in(&self, views: Seq<NeighborMaskView>, index: int) -> bool {
        is_unmasked(views, self.mask_sources(), self.mask_key(), index)
    }

    /// No state is permitted by the current masks.
    pub open spec fn fully_restricted_in(&self, views: Seq<NeighborMaskView>) -> bool {
        forall|k: int| 0 <= k < self.states().len() ==> !#[trigger] self.unmasked_in(views, k)
    }

    /// The view holds a state and the current masks forbid it.
    pub open spec fn current_state_restricted_in(&self, views: Seq<NeighborMaskView>) -> bool {
        match self.position() {
            Some(i) => i < self.states().len() && !self.unmasked_in(views, i as int),
            None => false,
        }
    }

    /// A view over `node_state_ids`, masked for the node keyed `masks_key` by the
    /// views of the node indices in `masks`, at no position yet.
    pub fn new(node_state_ids: Vec<TNodeState>, masks: Vec<usize>, masks_key: usize) -> (view: Self)
        ensures
            view.wf(),
            view.states() == node_state_ids@,
            view.position() == None::<usize>,
            view.mask_sources() == masks@,
            view.mask_key() == masks_key,
            view.mapping() == Seq::new(node_state_ids@.len(), |i: int| i as usize),
    {
        let node_state_ids_length: usize = node_state_ids.len();
        let mut index_mapping: Vec<usize> = Vec::new();
        let mut index: usize = 0;
        while index < node_state_ids_length
            invariant
                index <= node_state_ids_length,
                index_mapping@ == Seq::new(index as nat, |i: int| i as usize),
            decreases node_state_ids_length - index,
        {
            index_mapping.push(index);
            index = index + 1;
            proof {
                assert(index_mapping@ =~= Seq::new(index as nat, |i: int| i as usize));
            }
        }
        IndexedView {
            node_state_ids,
            node_state_ids_length,
            index: Option::None,
            masks,
            masks_key,
            index_mapping,
        }
    }

    /// Replaces the mapping by a random permutation of the state indices; it
    /// may only be done before the first move. The walk over the states keeps
    /// their own order: only the mapping changes.
    pub fn shuffle(&mut self, random_instance: &mut ChaCha8Rng)
        requires
            old(self).wf(),
            old(self).position() == None::<usize>,
        ensures
            final(self).wf(),
            final(self).mapping().to_multiset() == Seq::new(
                old(self).states().len(),
                |i: int| i as usize,
            ).to_multiset(),
            final(self).states() == old(self).states(),
            final(self).position() == old(self).position(),
            final(self).mask_sources() == old(self).mask_sources(),
            final(self).mask_key() == old(self).mask_key(),
    {
        let mut shuffled_values: Vec<usize> = Vec::new();
        let mut index: usize = 0;
        while index < self.node_state_ids_length
            invariant
                self.wf(),
                index <= self.node_state_ids_length,
                shuffled_values@ == Seq::new(index as nat, |i: int| i as usize),
                self == old(self),
            decreases self.node_state_ids_length - index,
        {
            shuffled_values.push(index);
            index = index + 1;
            proof {
                assert(shuffled_values@ =~= Seq::new(index as nat, |i: int| i as usize));
            }
        }
        shuffle_indices(&mut shuffled_values, random_instance);
        self.index_mapping = shuffled_values;
    }

    /// Whether every current mask permits state `index`.
    fn is_unmasked_at_index(&self, index: usize, views: &Vec<NeighborMaskView>) -> (unmasked: bool)
        requires
            self.wf(),
            self.fits(views@),
            index < self.states().len(),
        ensures
            unmasked == self.unmasked_in(views@, index as int),
    {
        let mut j: usize = 0;
        while j < self.masks.len()
            invariant
                self.wf(),
                self.fits(views@),
                index < self.states().len(),
                j <= self.masks@.len(),
                forall|j2: int|
                    0 <= j2 < j ==> match #[trigger] current_mask(
                        views@,
                        self.masks@[j2] as int,
                        self.masks_key,
                    ) {
                        Some(mask) => mask_bits(mask)[index as int],
                        None => true,
                    },
            decreases self.masks@.len() - j,
        {
            let source = self.masks[j];
            assert(self.mask_sources()[j as int] < views@.len());
            match views[source].get(&self.masks_key) {
                Some(mask) => {
                    assert(current_mask(views@, source as int, self.masks_key) == Some(*mask));
                    if !mask_bit(mask, index) {
                        return false;
                    }
                },
                None => {},
            }
            j = j + 1;
        }
        true
    }

    /// Moves to the next permitted state after the current position (the
    /// first one when there is none yet); when none is left, the position
    /// becomes `states().len()` and `false` comes back.
    pub fn try_move_next(&mut self, views: &Vec<NeighborMaskView>) -> (moved: bool)
        requires
            old(self).wf(),
            old(self).fits(views@),
        ensures
            final(self).wf(),
            final(self).states() == old(self).states(),
            final(self).mask_sources() == old(self).mask_sources(),
            final(self).mask_key() == old(self).mask_key(),
            final(self).mapping() == old(self).mapping(),
            ({
                let n = old(self).states().len() as int;
                let start = match old(self).position() {
                    Some(i) => i + 1,
                    None => 0,
                };
                if old(self).position() == Some(n as usize) {
                    final(self).position() == old(self).position() && !moved
                } else {
                    match final(self).position() {
                        Some(j) => start <= j <= n && (moved <==> j < n) && (j < n
                            ==> old(self).unmasked_in(views@, j as int)) && forall|k: int|
                            start <= k < j ==> !#[trigger] old(self).unmasked_in(views@, k),
                        None => false,
                    }
                }
            }),
    {
        let n = self.node_state_ids_length;
        let mut next: usize = match self.index {
            Some(i) => {
                if i == n {
                    return false;
                }
                i + 1
            },
            None => 0,
        };
        let ghost start = next as int;
        while next < n && !self.is_unmasked_at_index(next, views)
            invariant
                self.wf(),
                self.fits(views@),
                n == self.states().len(),
                start <= next <= n,
                *self == *old(self),
                forall|k: int| start <= k < next ==> !#[trigger] self.unmasked_in(views@, k),
            decreases n - next,
        {
            next = next + 1;
        }
        self.index = Some(next);
        next != n
    }

    /// Moves to the previous permitted state before the current position;
    /// when there is none, the position is cleared and `false` comes back.
    pub fn try_move_previous(&mut self, views: &Vec<NeighborMaskView>) -> (moved: bool)
        requires
            old(self).wf(),
            old(self).fits(views@),
        ensures
            final(self).wf(),
            final(self).states() == old(self).states(),
            final(self).mask_sources() == old(self).mask_sources(),
            final(self).mask_key() == old(self).mask_key(),
            final(self).mapping() == old(self).mapping(),
            match old(self).position() {
                None => final(self).position() == None::<usize> && !moved,
                Some(i) => if moved {
                    match final(self).position() {
                        Some(j) => j < i && old(self).unmasked_in(views@, j as int) && forall|
                            k: int,
                        |
                            j < k < i ==> !#[trigger] old(self).unmasked_in(views@, k),
                        None => false,
                    }
                } else {
                    final(self).position() == None::<usize> && forall|k: int|
                        0 <= k < i ==> !#[trigger] old(self).unmasked_in(views@, k)
                },
            },
    {
        let current: usize = match self.index {
            Some(i) => i,
            None => {
                return false;
            },
        };
        let ghost top = current as int;
        let mut current = current;
        while current > 0
            invariant
                self.wf(),
                self.fits(views@),
                0 <= current <= top <= self.states().len(),
                *self == *old(self),
                old(self).position() == Some(top as usize),
                forall|k: int| current <= k < top ==> !#[trigger] self.unmasked_in(views@, k),
            decreases current,
        {
            let next = current - 1;
            if self.is_unmasked_at_index(next, views) {
                self.index = Some(next);
                return true;
            }
            current = next;
        }
        self.index = None;
        false
    }

    /// The state at the current position, if it is one.
    pub fn get(&self) -> (state: Option<&TNodeState>)
        requires
            self.wf(),
        ensures
            match self.position() {
                Some(i) => if i < self.states().len() {
                    state == Some(&self.states()[i as int])
                } else {
                    state == None::<&TNodeState>
                },
                None => state == None::<&TNodeState>,
            },
    {
        match self.index {
            Some(index) => self.node_state_ids.get(index),
            None => None,
        }
    }

    /// Whether the view is at some position.
    pub fn is_in_some_state(&self) -> (in_some_state: bool)
        ensures
            in_some_state == (self.position() != None::<usize>),
    {
        self.index.is_some()
    }

    /// Clears the position.
    pub fn reset(&mut self)
        requires
            old(self).wf(),
        ensures
            final(self).wf(),
            final(self).position() == None::<usize>,
            final(self).states() == old(self).states(),
            final(self).mask_sources() == old(self).mask_sources(),
            final(self).mask_key() == old(self).mask_key(),
            final(self).mapping() == old(self).mapping(),
    {
        self.index = Option::None;
    }

    /// Whether no state is permitted by the current masks.
    pub fn is_fully_restricted(&self, views: &Vec<NeighborMaskView>) -> (restricted: bool)
        requires
            self.wf(),
            self.fits(views@),
        ensures
            restricted == self.fully_restricted_in(views@),
    {
        let mut index: usize = 0;
        while index < self.node_state_ids_length
            invariant
                self.wf(),
                self.fits(views@),
                index <= self.states().len(),
                forall|k: int| 0 <= k < index ==> !#[trigger] self.unmasked_in(views@, k),
            decreases self.states().len() - index,
        {
            if self.is_unmasked_at_index(index, views) {
                return false;
            }
            index = index + 1;
        }
        true
    }

    /// Whether no state is permitted, or the state the view holds is not.
    pub fn is_fully_restricted_or_current_state_is_restricted(
        &self,
        views: &Vec<NeighborMaskView>,
    ) -> (restricted: bool)
        requires
            self.wf(),
            self.fits(views@),
        ensures
            restricted == (self.fully_restricted_in(views@) || self.current_state_restricted_in(
                views@,
            )),
    {
        if self.is_fully_restricted(views) {
            return true;
        }
        match self.index {
            Some(index) => index < self.node_state_ids_length && !self.is_unmasked_at_index(
                index,
                views,
            ),
            None => false,
        }
    }

    /// The share of states that the current masks forbid, as the exact
    /// fraction (forbidden states, all states).
    pub fn get_restriction_ratio(&self, views: &Vec<NeighborMaskView>) -> (ratio: (usize, usize))
        requires
            self.wf(),
            self.fits(views@),
        ensures
            ratio.0 == masked_count(
                views@,
                self.mask_sources(),
                self.mask_key(),
                self.states().len() as int,
            ),
            ratio.1 == self.states().len(),
            ratio.0 <= ratio.1,
    {
        let mut masked_bits_total: usize = 0;
        let mut index: usize = 0;
        while index < self.node_state_ids_length
            invariant
                self.wf(),
                self.fits(views@),
                index <= self.states().len(),
                masked_bits_total == masked_count(
                    views@,
                    self.mask_sources(),
                    self.mask_key(),
                    index as int,
                ),
            decreases self.states().len() - index,
        {
            proof {
                lemma_masked_count_bound(views@, self.mask_sources(), self.mask_key(), index as int);
            }
            if !self.is_unmasked_at_index(index, views) {
                masked_bits_total = masked_bits_total + 1;
            }
            index = index + 1;
        }
        proof {
            lemma_masked_count_bound(views@, self.mask_sources(), self.mask_key(), index as int);
        }
        (masked_bits_total, self.node_state_ids_length)
    }
}

} // verus!
