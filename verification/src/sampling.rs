//! A weighted sampling tree: a fixed set of non-negative weights stored in
//! the leaves of a complete binary tree packed into a flat array, supporting
//! weighted random selection of a leaf and logarithmic-time point updates.
use crate::heap::all_nonneg;
use crate::heap::child_sum_at;
use crate::heap::heap_wf;
use crate::heap::is_internal_slot;
use crate::heap::is_leaf_slot;
use crate::heap::leaves_of_size;
use crate::heap::on_path;
use crate::heap::range_sum;
use crate::heap::seq_sum;
use crate::heap::updated_slot;
use crate::heap::valid_size;
use crate::heap::lemma_ancestor_ge;
use crate::heap::lemma_range_sum_congruence;
use crate::heap::lemma_range_sum_nonneg;
use crate::heap::lemma_range_sum_offset;
use crate::heap::lemma_range_sum_unfold_right;
use crate::heap::lemma_root_is_leaf_sum;
use crate::heap::lemma_root_on_path;
use crate::heap::lemma_update_path;
use crate::heap::lemma_updated_step;
use vstd::prelude::*;

verus! {

/// The failure conditions of every fallible operation of the tree.
#[derive(Debug)]
pub enum Error {
    NodeNotFound(Index),
    NodeHasNoParent(ShiftedIndex),
    NodeAlreadyInserted(Index),
    CannotDirectlyUpdateInternalNode(ShiftedIndex),
    EmptyTree,
    NumericalError,
}

/// A logical index: identifies one original weighted item, in `[0, num_leaves)`.
#[derive(Eq, PartialEq, Structural, Hash, Copy, Clone, Debug)]
pub struct Index(pub usize);

/// A physical storage slot of the packed tree, in `[0, num_nodes)`.
#[derive(Eq, PartialEq, Structural, Hash, Copy, Clone, Debug)]
pub struct ShiftedIndex(pub usize);

impl From<usize> for Index {
    fn from(index: usize) -> (r: Self)
        ensures
            r == Index(index),
    {
        Index(index)
    }
}

impl vstd::std_specs::convert::FromSpecImpl<usize> for Index {
    open spec fn obeys_from_spec() -> bool {
        true
    }

    open spec fn from_spec(index: usize) -> Self {
        Index(index)
    }
}

impl From<usize> for ShiftedIndex {
    fn from(index: usize) -> (r: Self)
        ensures
            r == ShiftedIndex(index),
    {
        ShiftedIndex(index)
    }
}

impl vstd::std_specs::convert::FromSpecImpl<usize> for ShiftedIndex {
    open spec fn obeys_from_spec() -> bool {
        true
    }

    open spec fn from_spec(index: usize) -> Self {
        ShiftedIndex(index)
    }
}

/// What a storage slot holds: an internal node (a sum of children) or a leaf
/// (one original item's weight). Fixed by the slot's position alone.
#[derive(Eq, PartialEq, Structural)]
pub enum NodeState {
    Internal,
    Leaf,
}

/// Classifies a slot of a storage of `storage_size` slots as internal or leaf.
pub fn node_state(shifted_index: ShiftedIndex, storage_size: usize) -> (r: NodeState)
    requires
        1 <= storage_size < usize::MAX,
    ensures
        r == (if is_internal_slot(shifted_index.0 as int, storage_size as int) {
            NodeState::Internal
        } else {
            NodeState::Leaf
        }),
{
    let num_leaves = (storage_size + 1) / 2;
    if shifted_index.0 < num_leaves - 1 {
        NodeState::Internal
    } else {
        NodeState::Leaf
    }
}

pub fn left_child(shifted_index: ShiftedIndex) -> (r: ShiftedIndex)
    requires
        2 * shifted_index.0 + 1 <= usize::MAX,
    ensures
        r.0 == 2 * shifted_index.0 + 1,
{
    ShiftedIndex(2 * shifted_index.0 + 1)
}

pub fn right_child(shifted_index: ShiftedIndex) -> (r: ShiftedIndex)
    requires
        2 * shifted_index.0 + 2 <= usize::MAX,
    ensures
        r.0 == 2 * shifted_index.0 + 2,
{
    ShiftedIndex(2 * shifted_index.0 + 2)
}

/// The parent of a slot; the root slot `0` has none.
pub fn parent(shifted_index: ShiftedIndex) -> (r: Result<ShiftedIndex, Error>)
    ensures
        shifted_index.0 == 0 ==> r == Err::<ShiftedIndex, Error>(
            Error::NodeHasNoParent(shifted_index),
        ),
        shifted_index.0 > 0 ==> r == Ok::<ShiftedIndex, Error>(
            ShiftedIndex(((shifted_index.0 - 1) / 2) as usize),
        ),
{
    if shifted_index.0 == 0 {
        return Err(Error::NodeHasNoParent(shifted_index));
    }
    Ok(ShiftedIndex((shifted_index.0 - 1) / 2))
}

#[verifier::external_type_specification]
#[verifier::external_body]
pub struct ExStdRng(rand::rngs::StdRng);

/// Relies on rand's `Rng::gen_range` over the half-open range `lo..hi`: the
/// returned value lies in `[lo, hi)`. `gen_range` panics on an empty range,
/// so a non-empty range is required.
#[verifier::external_body]
fn draw_in_range(rng: &mut rand::rngs::StdRng, lo: u64, hi: u64) -> (r: u64)
    requires
        lo < hi,
    ensures
        lo <= r < hi,
{
    rand::Rng::gen_range(rng, lo..hi)
}

/// The mathematical view of one node, stated apart from the full node
/// capability so that a sequence of nodes has a value sequence.
pub trait Valued: Sized {
    /// The mathematical value this node's contribution stands for.
    spec fn cv(&self) -> int;
}

/// The mathematical values held by a storage of nodes, slot by slot.
pub open spec fn node_values<N: Valued>(s: Seq<N>) -> Seq<int> {
    Seq::new(s.len(), |i: int| s[i].cv())
}

/// The mathematical values of a sequence of raw contributions.
pub open spec fn weight_values<N: Node>(s: Seq<N::C>) -> Seq<int> {
    Seq::new(s.len(), |i: int| N::c_val(s[i]))
}

/// The capability contract a weight strategy must satisfy: how a slot's
/// contribution is created, combined from two children, updated across all
/// ancestors, and used to drive a weighted sampling descent. The tree
/// container is fixed; the strategy behind this trait can vary.
pub trait Node: Valued {
    /// The contribution value type.
    type C: Copy;

    /// The mathematical value a raw contribution stands for.
    spec fn c_val(c: Self::C) -> int;

    /// The mathematical values the contribution type can represent.
    spec fn c_fits(v: int) -> bool;

    /// Every non-negative value below a representable one is representable.
    proof fn lemma_c_fits_mono(a: int, b: int)
        requires
            0 <= a <= b,
            Self::c_fits(b),
        ensures
            Self::c_fits(a),
    ;

    /// The current contribution held by this node.
    fn contribution(&self) -> (r: Self::C)
        ensures
            Self::c_val(r) == self.cv(),
    ;

    /// Constructs a leaf holding `contribution`.
    fn new(contribution: Self::C) -> (r: Self)
        ensures
            r.cv() == Self::c_val(contribution),
    ;

    /// Constructs an internal node purely as a function of its two children.
    fn from_children(left: &Self, right: &Self) -> (r: Self)
        requires
            Self::c_fits(left.cv() + right.cv()),
        ensures
            r.cv() == left.cv() + right.cv(),
    ;

    /// Replaces a leaf's contribution by `value` and restores the sum
    /// invariant across all its ancestors; refuses an internal slot.
    fn update(storage: &mut Vec<Self>, shifted_index: ShiftedIndex, value: Self::C) -> (r: Result<
        (),
        Error,
    >)
        requires
            valid_size(old(storage)@.len() as int),
            old(storage)@.len() < usize::MAX,
            heap_wf(node_values(old(storage)@)),
            all_nonneg(node_values(old(storage)@)),
            shifted_index.0 < old(storage)@.len(),
            Self::c_val(value) >= 0,
            is_leaf_slot(shifted_index.0 as int, old(storage)@.len() as int) ==> Self::c_fits(
                node_values(old(storage)@)[0] - node_values(old(storage)@)[shifted_index.0 as int]
                    + Self::c_val(value),
            ),
        ensures
            final(storage)@.len() == old(storage)@.len(),
            is_internal_slot(shifted_index.0 as int, old(storage)@.len() as int) ==> r == Err::<
                (),
                Error,
            >(Error::CannotDirectlyUpdateInternalNode(shifted_index)) && final(storage)@ == old(
                storage,
            )@,
            is_leaf_slot(shifted_index.0 as int, old(storage)@.len() as int) ==> {
                &&& r == Ok::<(), Error>(())
                &&& forall|j: int|
                    0 <= j < final(storage)@.len() ==> #[trigger] node_values(final(storage)@)[j]
                        == node_values(old(storage)@)[j] + (if on_path(
                        j,
                        shifted_index.0 as int,
                    ) {
                        Self::c_val(value) - node_values(old(storage)@)[shifted_index.0 as int]
                    } else {
                        0
                    })
                &&& heap_wf(node_values(final(storage)@))
                &&& all_nonneg(node_values(final(storage)@))
            },
    ;

    /// Picks one leaf slot with probability proportional to its contribution
    /// relative to the root's total, by weighted descent from the root.
    fn sample(storage: &Vec<Self>, rng: &mut rand::rngs::StdRng) -> (r: Result<ShiftedIndex, Error>)
        requires
            storage@.len() > 0 ==> valid_size(storage@.len() as int) && storage@.len() < usize::MAX
                && heap_wf(node_values(storage@)) && all_nonneg(node_values(storage@)),
            storage@.len() > 1 ==> node_values(storage@)[0] > 0,
        ensures
            storage@.len() == 0 ==> r == Err::<ShiftedIndex, Error>(Error::EmptyTree),
            storage@.len() > 0 ==> (r matches Ok(s) && is_leaf_slot(s.0 as int, storage@.len() as int)
                && (storage@.len() > 1 ==> node_values(storage@)[s.0 as int] > 0)),
            storage@.len() == 1 ==> r == Ok::<ShiftedIndex, Error>(ShiftedIndex(0)),
    ;
}

/// One decision of the weighted descent at an internal slot: the draw
/// `sample` was taken from `[0, left + right)`; the descent goes to the left
/// child exactly when `sample < left`. A tie (`sample == left`) goes right:
/// the half-open draw range makes the left subtree's share exactly `left`.
pub fn choose_child(shifted_index: ShiftedIndex, left_contribution: u64, sample: u64) -> (r:
    ShiftedIndex)
    requires
        2 * shifted_index.0 + 2 <= usize::MAX,
    ensures
        r.0 == (if sample < left_contribution {
            2 * shifted_index.0 + 1
        } else {
            2 * shifted_index.0 + 2
        }),
{
    if sample < left_contribution {
        left_child(shifted_index)
    } else {
        right_child(shifted_index)
    }
}

/// The default strategy: each node stores one running sum, and an update
/// applies the signed difference to every ancestor. Fast, but for inexact
/// numeric types the running sums would accumulate rounding error over many
/// updates; a numerically robust strategy would recompute each ancestor from
/// its children instead.
#[derive(Debug)]
pub struct UnstableNode<C> {
    contribution: C,
}

impl Valued for UnstableNode<u64> {
    closed spec fn cv(&self) -> int {
        self.contribution as int
    }
}

impl Node for UnstableNode<u64> {
    type C = u64;

    open spec fn c_val(c: u64) -> int {
        c as int
    }

    open spec fn c_fits(v: int) -> bool {
        0 <= v <= u64::MAX
    }

    proof fn lemma_c_fits_mono(a: int, b: int) {
    }

    fn contribution(&self) -> u64 {
        self.contribution
    }

    fn new(contribution: u64) -> Self {
        UnstableNode { contribution }
    }

    fn from_children(left: &Self, right: &Self) -> Self {
        UnstableNode { contribution: left.contribution + right.contribution }
    }

    fn update(storage: &mut Vec<Self>, shifted_index: ShiftedIndex, value: u64) -> (r: Result<
        (),
        Error,
    >) {
        let storage_size = storage.len();
        match node_state(shifted_index, storage_size) {
            NodeState::Internal => Err(Error::CannotDirectlyUpdateInternalNode(shifted_index)),
            NodeState::Leaf => {
                let ghost s0 = node_values(storage@);
                let ghost leaf = shifted_index.0 as int;
                let old_value = storage[shifted_index.0].contribution();
                let (abs_diff, sign): (u64, bool) = if old_value <= value {
                    (value - old_value, true)
                } else {
                    (old_value - value, false)
                };
                let ghost delta = value as int - old_value as int;
                if abs_diff == 0 {
                    Ok(())
                } else {
                    storage.set(shifted_index.0, UnstableNode { contribution: value });
                    let mut node_shifted_index = shifted_index;
                    proof {
                        assert forall|j: int|
                            updated_slot(j, leaf, leaf) <==> j == leaf by {
                            assert(on_path(leaf, leaf));
                        }
                    }
                    while node_shifted_index.0 != 0
                        invariant
                            valid_size(s0.len() as int),
                            heap_wf(s0),
                            all_nonneg(s0),
                            is_leaf_slot(leaf, s0.len() as int),
                            storage@.len() == s0.len(),
                            node_shifted_index.0 < storage@.len(),
                            on_path(node_shifted_index.0 as int, leaf),
                            delta == (if sign {
                                abs_diff as int
                            } else {
                                -(abs_diff as int)
                            }),
                            s0[0] + delta <= u64::MAX,
                            s0[leaf] + delta >= 0,
                            forall|j: int|
                                0 <= j < s0.len() ==> #[trigger] node_values(storage@)[j] == s0[j]
                                    + (if updated_slot(j, leaf, node_shifted_index.0 as int) {
                                    delta
                                } else {
                                    0
                                }),
                        decreases node_shifted_index.0,
                    {
                        let parent_shifted_index = match parent(node_shifted_index) {
                            Ok(p) => p,
                            Err(_) => node_shifted_index,
                        };
                        let ghost cur = node_shifted_index.0 as int;
                        let ghost par = parent_shifted_index.0 as int;
                        let ghost pre = node_values(storage@);
                        proof {
                            assert(par == (cur - 1) / 2);
                            lemma_updated_step(leaf, cur);
                            assert(on_path(par, par));
                            assert(on_path(par, cur));
                            assert(par < cur);
                            assert(!updated_slot(par, leaf, cur));
                            assert(pre[par] == s0[par]);
                            lemma_root_on_path(par);
                            lemma_ancestor_ge(s0, 0, par);
                            lemma_ancestor_ge(s0, par, leaf);
                        }
                        let parent_value = storage[parent_shifted_index.0].contribution();
                        let new_parent_value = if sign {
                            parent_value + abs_diff
                        } else {
                            parent_value - abs_diff
                        };
                        storage.set(
                            parent_shifted_index.0,
                            UnstableNode { contribution: new_parent_value },
                        );
                        proof {
                            let s1 = node_values(storage@);
                            assert(s1[par] == s0[par] + delta);
                            assert forall|j: int| 0 <= j < s0.len() implies #[trigger] s1[j]
                                == s0[j] + (if updated_slot(j, leaf, par) {
                                delta
                            } else {
                                0
                            }) by {
                                assert(updated_slot(j, leaf, par) <==> (updated_slot(j, leaf, cur)
                                    || j == par));
                                if j != par {
                                    assert(s1[j] == pre[j]);
                                }
                            }
                        }
                        node_shifted_index = parent_shifted_index;
                    }
                    proof {
                        let s1 = node_values(storage@);
                        assert forall|j: int| 0 <= j < s0.len() implies #[trigger] s1[j] == s0[j]
                            + (if on_path(j, leaf) {
                            delta
                        } else {
                            0
                        }) by {
                            assert(on_path(j, 0) <==> j == 0);
                            if on_path(j, leaf) {
                                assert(updated_slot(j, leaf, 0));
                            }
                        }
                        lemma_update_path(s0, s1, leaf, delta);
                    }
                    Ok(())
                }
            },
        }
    }

    fn sample(storage: &Vec<Self>, rng: &mut rand::rngs::StdRng) -> (r: Result<
        ShiftedIndex,
        Error,
    >) {
        if storage.len() == 0 {
            return Err(Error::EmptyTree);
        }
        let storage_size = storage.len();
        let ghost s = node_values(storage@);
        let mut shifted_index = ShiftedIndex(0);
        while matches!(node_state(shifted_index, storage_size), NodeState::Internal)
            invariant
                valid_size(s.len() as int),
                heap_wf(s),
                all_nonneg(s),
                s == node_values(storage@),
                storage_size == s.len(),
                1 <= storage_size < usize::MAX,
                shifted_index.0 < s.len(),
                s.len() > 1 ==> s[0] > 0,
                s.len() > 1 ==> s[shifted_index.0 as int] > 0,
            decreases s.len() - shifted_index.0,
        {
            let ghost cur = shifted_index.0 as int;
            proof {
                assert(is_internal_slot(cur, s.len() as int));
                assert(s[cur] == s[2 * cur + 1] + s[2 * cur + 2]);
            }
            let left = left_child(shifted_index);
            let right = right_child(shifted_index);
            let left_contribution = storage[left.0].contribution();
            let right_contribution = storage[right.0].contribution();
            let total_contribution = left_contribution + right_contribution;
            let sample = draw_in_range(rng, 0, total_contribution);
            shifted_index = choose_child(shifted_index, left_contribution, sample);
        }
        Ok(shifted_index)
    }
}

/// The tree container: owns the flat storage, translates logical indices to
/// storage slots, and delegates the numeric work to the node strategy `N`.
#[derive(Debug)]
pub struct Tree<N> {
    storage: Vec<N>,
    num_leaves: usize,
    num_nodes: usize,
}

impl<N: Node> Tree<N> {
    /// The mathematical values of all storage slots.
    pub closed spec fn spec_values(&self) -> Seq<int> {
        node_values(self.storage@)
    }

    pub closed spec fn spec_num_leaves(&self) -> int {
        self.num_leaves as int
    }

    pub closed spec fn spec_num_nodes(&self) -> int {
        self.num_nodes as int
    }

    /// The leaf contributions, in logical order.
    pub open spec fn spec_weights(&self) -> Seq<int> {
        self.spec_values().subrange(self.spec_num_leaves() - 1, self.spec_num_nodes())
    }

    /// The contribution of the leaf at logical index `i`.
    pub open spec fn leaf_value(&self, i: int) -> int {
        self.spec_weights()[i]
    }

    /// The root's contribution.
    pub open spec fn spec_total(&self) -> int {
        self.spec_values()[0]
    }

    pub open spec fn spec_logical_to_slot(&self, i: int) -> int {
        i + self.spec_num_leaves() - 1
    }

    pub open spec fn spec_slot_to_logical(&self, s: int) -> int {
        s - (self.spec_num_leaves() - 1)
    }

    /// Well-formedness: the storage has `2k - 1` slots for `k` leaves, every
    /// internal slot holds the sum of its children, and no slot is negative.
    pub open spec fn wf(&self) -> bool {
        &&& self.spec_num_leaves() >= 1
        &&& self.spec_num_nodes() == 2 * self.spec_num_leaves() - 1
        &&& self.spec_num_nodes() < usize::MAX as int
        &&& self.spec_values().len() == self.spec_num_nodes()
        &&& heap_wf(self.spec_values())
        &&& all_nonneg(self.spec_values())
    }

    /// Sum invariant: in a well-formed tree the root's contribution equals
    /// the sum of all leaf contributions.
    pub proof fn lemma_sum_invariant(&self)
        requires
            self.wf(),
        ensures
            self.spec_total() == seq_sum(self.spec_weights()),
    {
        lemma_root_is_leaf_sum(self.spec_values());
        assert forall|t: int| 0 <= t < self.spec_weights().len() implies self.spec_values()[
            self.spec_num_leaves() - 1 + t
        ] == #[trigger] self.spec_weights()[t] by {}
        lemma_range_sum_offset(
            self.spec_values(),
            self.spec_weights(),
            self.spec_num_leaves() - 1,
            0,
        );
    }

    /// Index round-trip: every valid logical index maps to a leaf slot and
    /// back to itself.
    pub proof fn lemma_index_round_trip(&self, i: int)
        requires
            self.wf(),
            0 <= i < self.spec_num_leaves(),
        ensures
            self.spec_slot_to_logical(self.spec_logical_to_slot(i)) == i,
            is_leaf_slot(self.spec_logical_to_slot(i), self.spec_num_nodes()),
    {
    }

    /// Maps a logical index to its storage slot; an index at or beyond the
    /// number of leaves is not found.
    pub fn get_shifted_node_index(&self, node_index: Index) -> (r: Result<ShiftedIndex, Error>)
        requires
            self.wf(),
        ensures
            (node_index.0 as int) < self.spec_num_leaves() ==> r == Ok::<ShiftedIndex, Error>(
                ShiftedIndex(self.spec_logical_to_slot(node_index.0 as int) as usize),
            ),
            (node_index.0 as int) >= self.spec_num_leaves() ==> r == Err::<ShiftedIndex, Error>(
                Error::NodeNotFound(node_index),
            ),
    {
        if node_index.0 < self.num_leaves {
            Ok(ShiftedIndex(node_index.0 + self.num_leaves - 1))
        } else {
            Err(Error::NodeNotFound(node_index))
        }
    }

    /// Maps a storage slot back to its logical index; an internal slot or a
    /// slot beyond the storage is not found.
    pub fn get_node_index(&self, shifted_node_index: ShiftedIndex) -> (r: Result<Index, Error>)
        requires
            self.wf(),
        ensures
            is_leaf_slot(shifted_node_index.0 as int, self.spec_num_nodes()) ==> r == Ok::<
                Index,
                Error,
            >(Index(self.spec_slot_to_logical(shifted_node_index.0 as int) as usize)),
            (shifted_node_index.0 as int) < self.spec_num_leaves() - 1 ==> r == Err::<Index, Error>(
                Error::NodeNotFound(Index(shifted_node_index.0)),
            ),
            (shifted_node_index.0 as int) >= self.spec_num_nodes() ==> r == Err::<Index, Error>(
                Error::NodeNotFound(
                    Index(self.spec_slot_to_logical(shifted_node_index.0 as int) as usize),
                ),
            ),
    {
        if shifted_node_index.0 < self.num_leaves - 1 {
            return Err(Error::NodeNotFound(Index(shifted_node_index.0)));
        }
        let node_index = shifted_node_index.0 - (self.num_leaves - 1);
        if node_index < self.num_leaves {
            Ok(Index(node_index))
        } else {
            Err(Error::NodeNotFound(Index(node_index)))
        }
    }

    /// The contribution of the leaf at a logical index.
    pub fn get_contribution(&self, node_index: Index) -> (r: Result<N::C, Error>)
        requires
            self.wf(),
        ensures
            (node_index.0 as int) < self.spec_num_leaves() ==> (r matches Ok(c) && N::c_val(c)
                == self.leaf_value(node_index.0 as int)),
            (node_index.0 as int) >= self.spec_num_leaves() ==> r == Err::<N::C, Error>(
                Error::NodeNotFound(node_index),
            ),
    {
        let shifted_index = match self.get_shifted_node_index(node_index) {
            Ok(s) => s,
            Err(e) => {
                return Err(e);
            },
        };
        proof {
            assert(self.spec_weights()[node_index.0 as int] == self.spec_values()[
                shifted_index.0 as int
            ]);
        }
        Ok(self.storage[shifted_index.0].contribution())
    }

    /// The root's total contribution.
    pub fn total_contribution(&self) -> (r: N::C)
        requires
            self.wf(),
        ensures
            N::c_val(r) == self.spec_total(),
    {
        self.storage[0].contribution()
    }

    /// Builds the tree from an exact-length sequence of contributions: all
    /// leaves are written first, in the given order, then every internal slot
    /// is combined from its two children, bottom-up. Zero items is an error.
    #[verifier::rlimit(50)]
    pub fn from_iterable(items: Vec<N::C>) -> (r: Result<Self, Error>)
        requires
            items@.len() <= usize::MAX / 2,
            all_nonneg(weight_values::<N>(items@)),
            N::c_fits(seq_sum(weight_values::<N>(items@))),
        ensures
            items@.len() == 0 ==> (r matches Err(e) && e == Error::EmptyTree),
            items@.len() > 0 ==> (r matches Ok(t) && t.wf() && t.spec_num_leaves() == items@.len()
                && t.spec_weights() == weight_values::<N>(items@) && t.spec_total() == seq_sum(
                weight_values::<N>(items@),
            )),
    {
        let num_leaves = items.len();
        if num_leaves == 0 {
            return Err(Error::EmptyTree);
        }
        let num_nodes = 2 * num_leaves - 1;
        let ghost wvals = weight_values::<N>(items@);
        let ghost total = seq_sum(wvals);
        let first = items[0];
        let mut storage: Vec<N> = Vec::new();
        let mut k: usize = 0;
        while k < num_nodes
            invariant
                num_leaves == items@.len(),
                1 <= num_leaves <= usize::MAX / 2,
                num_nodes == 2 * num_leaves - 1,
                wvals == weight_values::<N>(items@),
                storage@.len() == k,
                k <= num_nodes,
                forall|j: int|
                    num_leaves - 1 <= j < k ==> #[trigger] node_values(storage@)[j] == wvals[j - (
                    num_leaves - 1)],
            decreases num_nodes - k,
        {
            let ghost pre = storage@;
            if k < num_leaves - 1 {
                storage.push(N::new(first));
            } else {
                storage.push(N::new(items[k - (num_leaves - 1)]));
            }
            k += 1;
            proof {
                assert forall|j: int|
                    num_leaves - 1 <= j < k implies #[trigger] node_values(storage@)[j] == wvals[j
                    - (num_leaves - 1)] by {
                    if j < pre.len() {
                        assert(storage@[j] == pre[j]);
                        assert(node_values(pre)[j] == wvals[j - (num_leaves - 1)]);
                    }
                }
            }
        }
        proof {
            assert forall|t: int| 0 <= t < wvals.len() implies node_values(storage@)[num_leaves - 1
                + t] == #[trigger] wvals[t] by {}
            lemma_range_sum_offset(node_values(storage@), wvals, num_leaves - 1 as int, 0);
        }
        let mut i: usize = num_leaves - 1;
        while i > 0
            invariant
                num_leaves == items@.len(),
                1 <= num_leaves <= usize::MAX / 2,
                num_nodes == 2 * num_leaves - 1,
                wvals == weight_values::<N>(items@),
                total == seq_sum(wvals),
                N::c_fits(total),
                all_nonneg(wvals),
                storage@.len() == num_nodes,
                i <= num_leaves - 1,
                forall|j: int|
                    num_leaves - 1 <= j < num_nodes ==> #[trigger] node_values(storage@)[j]
                        == wvals[j - (num_leaves - 1)],
                forall|j: int|
                    i <= j < num_leaves - 1 ==> #[trigger] child_sum_at(node_values(storage@), j),
                forall|j: int|
                    i <= j < num_nodes ==> #[trigger] node_values(storage@)[j] >= 0,
                range_sum(node_values(storage@), i as int, 2 * (i as int) + 1) == total,
            decreases i,
        {
            i -= 1;
            let ghost nv = node_values(storage@);
            let ghost ii = i as int;
            proof {
                lemma_range_sum_unfold_right(nv, ii + 1, 2 * ii + 1);
                lemma_range_sum_unfold_right(nv, ii + 1, 2 * ii + 2);
                lemma_range_sum_nonneg(nv, ii + 1, 2 * ii + 1);
                assert(nv[2 * ii + 1] >= 0 && nv[2 * ii + 2] >= 0);
                assert(nv[2 * ii + 1] + nv[2 * ii + 2] <= total);
                N::lemma_c_fits_mono(nv[2 * ii + 1] + nv[2 * ii + 2], total);
            }
            let left = left_child(ShiftedIndex(i));
            let right = right_child(ShiftedIndex(i));
            let combined = N::from_children(&storage[left.0], &storage[right.0]);
            storage.set(i, combined);
            proof {
                let nv2 = node_values(storage@);
                assert forall|j: int| ii < j < num_nodes implies #[trigger] nv2[j] == nv[j] by {}
                assert(nv2[ii] == nv[2 * ii + 1] + nv[2 * ii + 2]);
                assert forall|j: int|
                    num_leaves - 1 <= j < num_nodes implies #[trigger] nv2[j] == wvals[j - (
                    num_leaves - 1)] by {
                    assert(nv2[j] == nv[j]);
                }
                assert forall|j: int|
                    ii <= j < num_leaves - 1 implies #[trigger] child_sum_at(nv2, j) by {
                    assert(nv2[2 * j + 1] == nv[2 * j + 1]);
                    assert(nv2[2 * j + 2] == nv[2 * j + 2]);
                    if j != ii {
                        assert(nv2[j] == nv[j]);
                        assert(child_sum_at(nv, j));
                    }
                }
                assert forall|j: int| ii <= j < num_nodes implies #[trigger] nv2[j] >= 0 by {
                    if j != ii {
                        assert(nv2[j] == nv[j]);
                        assert(nv[j] >= 0);
                    }
                }
                lemma_range_sum_congruence(nv2, nv, ii + 1, 2 * ii + 1);
                assert(range_sum(nv2, ii, 2 * ii + 1) == nv2[ii] + range_sum(nv2, ii + 1, 2 * ii
                    + 1));
            }
        }
        proof {
            let nv = node_values(storage@);
            assert(range_sum(nv, 0, 1) == nv[0] + range_sum(nv, 1, 1));
            assert(leaves_of_size(num_nodes as int) == num_leaves as int);
            assert forall|j: int| is_internal_slot(j, num_nodes as int) implies #[trigger] nv[j]
                == nv[2 * j + 1] + nv[2 * j + 2] by {
                assert(child_sum_at(nv, j));
            }
        }
        let tree = Tree { storage, num_leaves, num_nodes };
        proof {
            assert(tree.spec_weights() =~= wvals);
        }
        Ok(tree)
    }

    /// Picks one logical index with probability proportional to its leaf's
    /// contribution relative to the root's total. A leaf of contribution zero
    /// is never picked; with more than one leaf the total must be positive,
    /// or no draw range exists.
    pub fn sample(&self, rng: &mut rand::rngs::StdRng) -> (r: Result<Index, Error>)
        requires
            self.wf(),
            self.spec_num_leaves() > 1 ==> self.spec_total() > 0,
        ensures
            r matches Ok(idx) && (idx.0 as int) < self.spec_num_leaves() && (self.spec_num_leaves()
                > 1 ==> self.leaf_value(idx.0 as int) > 0),
            self.spec_num_leaves() == 1 ==> r == Ok::<Index, Error>(Index(0)),
    {
        let shifted_index = match N::sample(&self.storage, rng) {
            Ok(s) => s,
            Err(e) => {
                return Err(e);
            },
        };
        proof {
            assert(self.spec_weights()[self.spec_slot_to_logical(shifted_index.0 as int)]
                == self.spec_values()[shifted_index.0 as int]);
        }
        match self.get_node_index(shifted_index) {
            Ok(node_index) => Ok(node_index),
            Err(e) => Err(e),
        }
    }

    /// Replaces the contribution of the leaf at a logical index and restores
    /// the sum invariant across all its ancestors.
    #[verifier::rlimit(100)]
    #[verifier::spinoff_prover]
    pub fn update(&mut self, node_index: Index, value: N::C) -> (r: Result<(), Error>)
        requires
            old(self).wf(),
            N::c_val(value) >= 0,
            (node_index.0 as int) < old(self).spec_num_leaves() ==> N::c_fits(
                old(self).spec_total() - old(self).leaf_value(node_index.0 as int) + N::c_val(
                    value,
                ),
            ),
        ensures
            final(self).wf(),
            final(self).spec_num_leaves() == old(self).spec_num_leaves(),
            (node_index.0 as int) >= old(self).spec_num_leaves() ==> r == Err::<(), Error>(
                Error::NodeNotFound(node_index),
            ) && final(self).spec_values() == old(self).spec_values(),
            (node_index.0 as int) < old(self).spec_num_leaves() ==> r == Ok::<(), Error>(())
                && final(self).spec_weights() == old(self).spec_weights().update(
                node_index.0 as int,
                N::c_val(value),
            ) && final(self).spec_total() == old(self).spec_total() - old(self).leaf_value(
                node_index.0 as int,
            ) + N::c_val(value),
    {
        let shifted_index = match self.get_shifted_node_index(node_index) {
            Ok(s) => s,
            Err(e) => {
                return Err(e);
            },
        };
        proof {
            assert(old(self).spec_weights()[node_index.0 as int] == old(self).spec_values()[
                shifted_index.0 as int
            ]);
        }
        let result = N::update(&mut self.storage, shifted_index, value);
        proof {
            let s0 = node_values(old(self).storage@);
            let s1 = node_values(self.storage@);
            let leaf = shifted_index.0 as int;
            let idx = node_index.0 as int;
            let nl = old(self).spec_num_leaves();
            let delta = N::c_val(value) - s0[leaf];
            lemma_update_path(s0, s1, leaf, delta);
            let w0 = old(self).spec_weights();
            let w1 = self.spec_weights();
            assert forall|t: int| 0 <= t < w0.len() implies w1[t] == #[trigger] w0.update(
                idx,
                N::c_val(value),
            )[t] by {
                assert(w1[t] == s1[nl - 1 + t]);
                assert(w0[t] == s0[nl - 1 + t]);
                assert(is_leaf_slot(nl - 1 + t, s0.len() as int));
                if t != idx {
                    assert(nl - 1 + t != leaf);
                    assert(s1[nl - 1 + t] == s0[nl - 1 + t]);
                }
            }
            assert(w1 =~= w0.update(idx, N::c_val(value)));
        }
        result
    }

    /// The contribution of the leaf at a logical index.
    pub fn contribution(&self, node_index: Index) -> (r: Result<N::C, Error>)
        requires
            self.wf(),
        ensures
            (node_index.0 as int) < self.spec_num_leaves() ==> (r matches Ok(c) && N::c_val(c)
                == self.leaf_value(node_index.0 as int)),
            (node_index.0 as int) >= self.spec_num_leaves() ==> r == Err::<N::C, Error>(
                Error::NodeNotFound(node_index),
            ),
    {
        self.get_contribution(node_index)
    }
}

} // verus!
