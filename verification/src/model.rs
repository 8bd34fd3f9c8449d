//! The sum tree itself: an array-backed complete binary tree whose internal
//! nodes cache the sum of their children's weights, with ring-buffer appends,
//! logarithmic weight updates, cumulative-sum lookup, and proportional as
//! well as stratified sampling.

use vstd::prelude::*;
use vstd::pervasive::VecAdditionalExecFns;
use rand::rngs::StdRng;
use crate::SumTreeError;
use crate::laws::{TreeModel, fresh_model, upd_step, add_step, batch_ok, batch_nodes};
use crate::rng::{seeded_rng, rng_value, rng_stepped, rng_from_seed, rng_below, rng_duplicate};
use crate::shape::{
    node_count, first_leaf, node_ok, sums_hold, leaves_of, on_path, parent, upd_nodes, descend,
    leftmost_from, rightmost_from, lemma_path_bounds, lemma_path_parent, lemma_path_below,
    lemma_path_one_child, lemma_path_value_range, lemma_upd_nodes_sums, lemma_upd_nodes_leaves,
    lemma_descend_positive, lemma_descend_above, lemma_descend_low,
};

verus! {

/// What a cumulative-sum lookup returns: if nothing has ever been written the
/// lookup answers `(0, 0)` without descending; otherwise the descent from the
/// root names the leaf and its weight.
pub open spec fn lookup(s: Seq<u64>, cap: int, items: int, v: int) -> (int, u64) {
    if items == 0 {
        (0, 0u64)
    } else {
        let d = descend(s, cap, 0, v);
        (d - first_leaf(cap), s[d])
    }
}

/// The generator state after `k` uniform draws below `total`.
pub open spec fn rng_iter(r0: StdRng, total: u64, k: nat) -> StdRng
    decreases k,
{
    if k == 0 {
        r0
    } else {
        rng_stepped(rng_iter(r0, total, (k - 1) as nat), total)
    }
}

/// The `k`-th proportional target: one above the `k`-th uniform draw below
/// `total`, so targets range over `[1, total]` and each leaf owns as many
/// targets as its weight.
pub open spec fn draw_at(r0: StdRng, total: u64, k: nat) -> int {
    rng_value(rng_iter(r0, total, k), total) + 1
}

/// A snapshot that can be restored into a tree of capacity `cap`: the array
/// has the right length, the live count is within the capacity, and every
/// internal node caches its children's sum.
pub open spec fn valid_snapshot(s: Seq<u64>, cap: int, items: int) -> bool {
    s.len() == node_count(cap) && 0 <= items <= cap && sums_hold(s, cap)
}

/// Boundary below stratum `k` when the targets `[1, total]` are cut into `n`
/// bands of equal width: stratum `k` owns the targets in
/// `(k*total/n, (k+1)*total/n]`.
pub open spec fn stratum_lo(total: u64, n: int, k: int) -> int {
    k * (total as int) / n
}

/// How many targets stratum `k` owns.
pub open spec fn stratum_width(total: u64, n: int, k: int) -> int {
    stratum_lo(total, n, k + 1) - stratum_lo(total, n, k)
}

/// Generator state before stratum `k`'s draw; a width-zero stratum consumes
/// no draw.
pub open spec fn strata_state(r0: StdRng, total: u64, n: int, k: nat) -> StdRng
    decreases k,
{
    if k == 0 {
        r0
    } else {
        let w = stratum_width(total, n, k - 1);
        let prev = strata_state(r0, total, n, (k - 1) as nat);
        if w > 0 {
            rng_stepped(prev, w as u64)
        } else {
            prev
        }
    }
}

/// The target drawn for stratum `k`: uniform within the stratum's band. A
/// width-zero stratum (the total does not split evenly into that many bands)
/// falls back to its upper boundary, or to the lowest target below the first
/// non-empty band.
pub open spec fn strata_draw(r0: StdRng, total: u64, n: int, k: nat) -> int {
    let w = stratum_width(total, n, k as int);
    if w > 0 {
        stratum_lo(total, n, k as int) + 1 + rng_value(strata_state(r0, total, n, k), w as u64)
    } else if stratum_lo(total, n, k as int + 1) == 0 {
        1
    } else {
        stratum_lo(total, n, k as int + 1)
    }
}

/// Stratum boundaries start at or above zero, are ordered, and stay within
/// the total.
pub proof fn lemma_stratum_bounds(total: u64, n: int, k: int)
    requires
        1 <= n,
        0 <= k < n,
    ensures
        0 <= stratum_lo(total, n, k),
        stratum_lo(total, n, k) <= stratum_lo(total, n, k + 1),
        stratum_lo(total, n, k + 1) <= total,
{
    let t = total as int;
    vstd::arithmetic::mul::lemma_mul_inequality(0, k, t);
    vstd::arithmetic::div_mod::lemma_div_pos_is_pos(k * t, n);
    vstd::arithmetic::mul::lemma_mul_inequality(k, k + 1, t);
    vstd::arithmetic::div_mod::lemma_div_is_ordered(k * t, (k + 1) * t, n);
    vstd::arithmetic::mul::lemma_mul_inequality(k + 1, n, t);
    vstd::arithmetic::div_mod::lemma_div_is_ordered((k + 1) * t, n * t, n);
    vstd::arithmetic::div_mod::lemma_div_multiples_vanish(t, n);
}

/// A fresh vector holding the same weights.
fn copy_weights(v: &Vec<u64>) -> (out: Vec<u64>)
    ensures
        out@ == v@,
{
    let n = v.len();
    let mut out: Vec<u64> = Vec::new();
    let mut i: usize = 0;
    while i < n
        invariant
            n == v@.len(),
            i == out@.len() <= n,
            forall|q: int| 0 <= q < i ==> out@[q] == v@[q],
        decreases n - i,
    {
        out.push(v[i]);
        i = i + 1;
    }
    proof {
        assert(out@ =~= v@);
    }
    out
}

/// A fixed-capacity sum tree. Leaf `l` lives at array position
/// `l + capacity - 1`; position 0 is the root and carries the total weight.
pub struct SumTree {
    /// The tree nodes: internal sums first, then the leaf weights.
    nodes: Vec<u64>,
    /// Number of leaves ever written, capped at the capacity.
    num_items: usize,
    /// The fixed maximal number of leaves.
    capacity: usize,
    /// Next ring-buffer slot that an append writes.
    write_index: usize,
    /// The deterministic generator that sampling consumes.
    rng: StdRng,
}

impl SumTree {
    /// The node array as a sequence.
    pub closed spec fn nodes_seq(self) -> Seq<u64> {
        self.nodes@
    }

    /// The fixed number of leaves.
    pub closed spec fn cap(self) -> int {
        self.capacity as int
    }

    /// How many leaves have ever been written, capped at the capacity.
    pub closed spec fn items(self) -> int {
        self.num_items as int
    }

    /// The ring slot that the next append writes.
    pub closed spec fn next_slot(self) -> int {
        self.write_index as int
    }

    /// The sampling generator's state.
    pub closed spec fn rng_state(self) -> StdRng {
        self.rng
    }

    /// The root's cached value: the total weight.
    pub open spec fn total_spec(self) -> u64 {
        self.nodes_seq()[0]
    }

    /// The weight of leaf `l`.
    pub open spec fn leaf_weight(self, l: int) -> u64 {
        self.nodes_seq()[first_leaf(self.cap()) + l]
    }

    /// Well-formedness: the array has its fixed size, counts are in range,
    /// the ring cursor agrees with the live count until the first wrap, and
    /// every internal node caches its children's sum.
    pub open spec fn wf(self) -> bool {
        &&& 1 <= self.cap()
        &&& self.nodes_seq().len() == node_count(self.cap())
        &&& 0 <= self.items() <= self.cap()
        &&& 0 <= self.next_slot() < self.cap()
        &&& (self.items() < self.cap() ==> self.next_slot() == self.items())
        &&& sums_hold(self.nodes_seq(), self.cap())
    }

    /// Leaves that were never written still weigh zero. Appends keep this;
    /// a direct update of an unwritten leaf may break it.
    pub open spec fn packed(self) -> bool {
        forall|l: int| self.items() <= l < self.cap() ==> #[trigger] self.leaf_weight(l) == 0
    }

    /// Both trees hold the same stored data; only the generator state may
    /// differ.
    pub open spec fn same_contents(self, other: SumTree) -> bool {
        &&& self.nodes_seq() == other.nodes_seq()
        &&& self.cap() == other.cap()
        &&& self.items() == other.items()
        &&& self.next_slot() == other.next_slot()
    }

    /// The tree as the spec-level model that the laws speak of.
    pub open spec fn model(self) -> TreeModel {
        TreeModel {
            cap: self.cap(),
            leaves: leaves_of(self.nodes_seq(), self.cap()),
            items: self.items(),
            next: self.next_slot(),
            total: self.total_spec() as int,
        }
    }

    /// Builds a tree with the given number of leaves, all weighing zero. The
    /// sampling generator is seeded from ambient entropy; call `seed` to make
    /// sampling reproducible.
    pub fn new(capacity: usize) -> (t: SumTree)
        requires
            1 <= capacity,
            2 * capacity - 1 <= usize::MAX,
        ensures
            t.wf(),
            t.packed(),
            t.cap() == capacity,
            t.model() == fresh_model(capacity as int),
            t.nodes_seq() == Seq::new(node_count(capacity as int) as nat, |q: int| 0u64),
    {
        let n_nodes = capacity - 1 + capacity;
        let mut nodes: Vec<u64> = Vec::new();
        let mut i: usize = 0;
        while i < n_nodes
            invariant
                i == nodes@.len() <= n_nodes,
                forall|q: int| 0 <= q < i ==> nodes@[q] == 0,
            decreases n_nodes - i,
        {
            nodes.push(0);
            i = i + 1;
        }
        let entropy: u64 = rand::random::<u64>();
        let t = SumTree {
            nodes,
            num_items: 0,
            capacity,
            write_index: 0,
            rng: rng_from_seed(entropy),
        };
        proof {
            assert(t.nodes_seq() =~= Seq::new(node_count(capacity as int) as nat, |q: int| 0u64));
            assert forall|p: int| 0 <= p < first_leaf(t.cap()) implies #[trigger] node_ok(
                t.nodes_seq(),
                p,
            ) by {}
            assert(t.model().leaves =~= fresh_model(capacity as int).leaves);
        }
        t
    }

    /// The total weight: what the root caches.
    pub fn total(&self) -> (t: u64)
        requires
            self.wf(),
        ensures
            t == self.total_spec(),
    {
        self.nodes[0]
    }

    /// The fixed maximal number of leaves.
    pub fn capacity(&self) -> (c: usize)
        ensures
            c == self.cap(),
    {
        self.capacity
    }

    /// How many leaves have been written so far, capped at the capacity.
    pub fn len(&self) -> (n: usize)
        ensures
            n == self.items(),
    {
        self.num_items
    }

    /// Whether nothing has been written yet.
    pub fn is_empty(&self) -> (e: bool)
        ensures
            e == (self.items() == 0),
    {
        self.num_items == 0
    }

    /// Replaces the sampling generator with one built from the given seed;
    /// sampling becomes a deterministic function of the tree's contents.
    pub fn seed(&mut self, seed_value: u64)
        ensures
            final(self).same_contents(*old(self)),
            final(self).rng_state() == seeded_rng(seed_value),
    {
        self.rng = rng_from_seed(seed_value);
    }

    /// Gives leaf `leaf_num` the weight `value` and refreshes the cached sum
    /// of every ancestor up to the root, so the total moves by exactly the
    /// difference between the new weight and the old one.
    pub fn update(&mut self, leaf_num: usize, value: u64)
        requires
            old(self).wf(),
            leaf_num < old(self).cap(),
            old(self).total_spec() - old(self).leaf_weight(leaf_num as int) + value <= u64::MAX,
        ensures
            final(self).wf(),
            final(self).nodes_seq() == upd_nodes(
                old(self).nodes_seq(),
                first_leaf(old(self).cap()) + leaf_num,
                value,
            ),
            final(self).model() == upd_step(old(self).model(), leaf_num as int, value),
            final(self).total_spec() == old(self).total_spec() - old(self).leaf_weight(
                leaf_num as int,
            ) + value,
            final(self).cap() == old(self).cap(),
            final(self).items() == old(self).items(),
            final(self).next_slot() == old(self).next_slot(),
            final(self).rng_state() == old(self).rng_state(),
            old(self).packed() && (leaf_num < old(self).items() || value == 0) ==> final(self).packed(),
    {
        let ghost s0 = self.nodes@;
        let ghost cap = self.cap();
        let n = self.nodes.len();
        let li = leaf_num + (self.capacity - 1);
        let ghost target = upd_nodes(s0, li as int, value);
        proof {
            lemma_path_value_range(s0, cap, li as int, li as int, value);
        }
        self.nodes.set(li, value);
        proof {
            assert forall|q: int|
                0 <= q < s0.len() && on_path(li as int, q) && li as int <= q implies self.nodes@[q]
                == target[q] by {
                lemma_path_bounds(li as int, q);
            };
        }
        let mut cur = li;
        while 0 < cur
            invariant
                node_count(cap) <= usize::MAX,
                self.capacity == old(self).capacity,
                self.num_items == old(self).num_items,
                self.write_index == old(self).write_index,
                self.rng == old(self).rng,
                self.cap() == cap,
                1 <= cap,
                s0 == old(self).nodes@,
                s0.len() == node_count(cap),
                sums_hold(s0, cap),
                first_leaf(cap) <= li < node_count(cap),
                li == first_leaf(cap) + leaf_num,
                s0[0] - s0[li as int] + value <= u64::MAX,
                target == upd_nodes(s0, li as int, value),
                self.nodes@.len() == s0.len(),
                0 <= cur <= li,
                on_path(li as int, cur as int),
                forall|q: int|
                    0 <= q < s0.len() && !(on_path(li as int, q) && cur <= q)
                        ==> self.nodes@[q] == s0[q],
                forall|q: int|
                    0 <= q < s0.len() && on_path(li as int, q) && cur <= q ==> self.nodes@[q]
                        == target[q],
            decreases cur,
        {
            let p = (cur - 1) / 2;
            let ghost c = cur as int;
            proof {
                lemma_path_parent(li as int, c);
                assert(p as int == parent(c));
                assert(c == 2 * (p as int) + 1 || c == 2 * (p as int) + 2) by {
                    assert(c - 1 == 2 * ((c - 1) / 2) + ((c - 1) % 2));
                };
                lemma_path_bounds(li as int, p as int);
                lemma_path_one_child(li as int, p as int);
                assert(node_ok(s0, p as int));
                lemma_path_value_range(s0, cap, li as int, c, value);
                lemma_path_value_range(s0, cap, li as int, p as int, value);
                // No chain position lies strictly between a chain position
                // and its parent.
                assert forall|q: int|
                    on_path(li as int, q) && p as int <= q && q < c implies q == p as int by {
                    lemma_path_below(li as int, c, q);
                    lemma_path_bounds(parent(c), q);
                };
            }
            let a = 2 * p + 1;
            let b = 2 * p + 2;
            let wa = self.nodes[a];
            let wb = self.nodes[b];
            proof {
                assert(wa as int + wb as int == s0[p as int] - s0[li as int] + value);
            }
            let sum = wa + wb;
            self.nodes.set(p, sum);
            cur = p;
        }
        proof {
            assert forall|q: int| 0 <= q < s0.len() implies self.nodes@[q] == target[q] by {
                if on_path(li as int, q) {
                    lemma_path_bounds(li as int, q);
                } else {
                    assert(self.nodes@[q] == s0[q]);
                }
            };
            assert(self.nodes@ =~= target);
            lemma_upd_nodes_sums(s0, cap, li as int, value);
            lemma_upd_nodes_leaves(s0, cap, leaf_num as int, value);
            assert(self.model() =~= upd_step(old(self).model(), leaf_num as int, value));
            if old(self).packed() && (leaf_num < old(self).items() || value == 0) {
                assert forall|l: int| self.items() <= l < self.cap() implies #[trigger] self
                    .leaf_weight(l) == 0 by {
                    assert(old(self).leaf_weight(l) == 0);
                    assert(self.leaf_weight(l) == leaves_of(self.nodes_seq(), cap)[l]);
                    assert(old(self).leaf_weight(l) == leaves_of(s0, cap)[l]);
                };
            }
        }
    }

    /// Resolves a cumulative-sum value to the owning leaf by descending from
    /// the root: left when the value is at most the left child's cached sum
    /// (ties prefer the left subtree), otherwise right with that sum
    /// subtracted. Returns the leaf number and its weight. On a tree that was
    /// never written it returns `(0, 0)` without descending. A value at most
    /// zero runs down the left spine, one above the total down the right
    /// spine: out-of-range values are clamped by the descent, not an error.
    pub fn get(&self, cumsum: i128) -> (r: (usize, u64))
        requires
            self.wf(),
        ensures
            r.0 as int == lookup(self.nodes_seq(), self.cap(), self.items(), cumsum as int).0,
            r.1 == lookup(self.nodes_seq(), self.cap(), self.items(), cumsum as int).1,
            r.0 < self.cap(),
            self.items() > 0 && 0 < cumsum as int <= self.total_spec() as int ==> r.1 > 0,
            self.items() > 0 && 0 < cumsum as int <= self.total_spec() as int && self.packed()
                ==> r.0 < self.items(),
            self.items() > 0 && cumsum <= 0 ==> r.0 as int == leftmost_from(self.cap(), 0)
                - first_leaf(self.cap()),
            self.items() > 0 && cumsum as int > self.total_spec() as int ==> r.0 as int
                == rightmost_from(self.cap(), 0) - first_leaf(self.cap()),
    {
        if self.num_items == 0 {
            return (0, 0);
        }
        let ghost s = self.nodes_seq();
        let ghost cap = self.cap();
        let n = self.nodes.len();
        let first = self.capacity - 1;
        let mut idx: usize = 0;
        let mut v: i128 = cumsum;
        while idx < first
            invariant
                self.wf(),
                s == self.nodes_seq(),
                cap == self.cap(),
                n == s.len() <= usize::MAX,
                first == first_leaf(cap),
                0 <= idx < node_count(cap),
                descend(s, cap, idx as int, v as int) == descend(s, cap, 0, cumsum as int),
            decreases node_count(cap) - idx,
        {
            let left = 2 * idx + 1;
            let lw = self.nodes[left];
            if v <= lw as i128 {
                idx = left;
            } else {
                v = v - lw as i128;
                idx = left + 1;
            }
        }
        proof {
            assert(descend(s, cap, idx as int, v as int) == idx as int);
            if cumsum <= 0 {
                lemma_descend_low(s, cap, 0, cumsum as int);
            }
            if cumsum as int > self.total_spec() as int {
                lemma_descend_above(s, cap, 0, cumsum as int);
            }
            if 0 < cumsum as int <= self.total_spec() as int {
                lemma_descend_positive(s, cap, 0, cumsum as int);
                if self.packed() && idx as int - first as int >= self.items() {
                    assert(self.leaf_weight(idx as int - first_leaf(cap)) == 0);
                    assert(false);
                }
            }
        }
        (idx - first, self.nodes[idx])
    }

    /// Indexed write: the same operation as `update`.
    pub fn set_item(&mut self, leaf_num: usize, value: u64)
        requires
            old(self).wf(),
            leaf_num < old(self).cap(),
            old(self).total_spec() - old(self).leaf_weight(leaf_num as int) + value <= u64::MAX,
        ensures
            final(self).wf(),
            final(self).nodes_seq() == upd_nodes(
                old(self).nodes_seq(),
                first_leaf(old(self).cap()) + leaf_num,
                value,
            ),
            final(self).model() == upd_step(old(self).model(), leaf_num as int, value),
            final(self).cap() == old(self).cap(),
            final(self).items() == old(self).items(),
            final(self).next_slot() == old(self).next_slot(),
            final(self).rng_state() == old(self).rng_state(),
    {
        self.update(leaf_num, value);
    }

    /// Appends a weight at the ring cursor: the slot under the cursor takes
    /// the weight (evicting whatever it held), the cursor advances modulo the
    /// capacity, and the live count grows until the tree is full.
    pub fn add(&mut self, value: u64)
        requires
            old(self).wf(),
            old(self).total_spec() - old(self).leaf_weight(old(self).next_slot()) + value
                <= u64::MAX,
        ensures
            final(self).wf(),
            final(self).model() == add_step(old(self).model(), value),
            final(self).nodes_seq() == upd_nodes(
                old(self).nodes_seq(),
                first_leaf(old(self).cap()) + old(self).next_slot(),
                value,
            ),
            final(self).total_spec() == old(self).total_spec() - old(self).leaf_weight(
                old(self).next_slot(),
            ) + value,
            final(self).cap() == old(self).cap(),
            final(self).rng_state() == old(self).rng_state(),
            old(self).packed() ==> final(self).packed(),
    {
        let slot = self.write_index;
        self.update(slot, value);
        self.write_index = if slot + 1 < self.capacity {
            slot + 1
        } else {
            0
        };
        self.num_items = if self.num_items < self.capacity {
            self.num_items + 1
        } else {
            self.capacity
        };
        proof {
            assert(self.next_slot() == (old(self).next_slot() + 1) % old(self).cap()) by {
                if slot + 1 < old(self).capacity {
                    vstd::arithmetic::div_mod::lemma_small_mod(
                        (old(self).next_slot() + 1) as nat,
                        old(self).cap() as nat,
                    );
                } else {
                    assert(old(self).next_slot() + 1 == old(self).cap());
                    vstd::arithmetic::div_mod::lemma_mod_self_0(old(self).cap());
                }
            };
            assert(self.model() =~= add_step(old(self).model(), value));
            if old(self).packed() {
                assert forall|l: int| self.items() <= l < self.cap() implies #[trigger] self
                    .leaf_weight(l) == 0 by {
                    assert(old(self).leaf_weight(l) == 0);
                    assert(self.leaf_weight(l) == leaves_of(self.nodes_seq(), self.cap())[l]);
                    assert(old(self).leaf_weight(l) == leaves_of(old(self).nodes_seq(), self.cap())[l]);
                };
            }
        }
    }

    /// Draws `n` independent proportional samples: each draws a uniform
    /// target in `[1, total]` and resolves it with the cumulative-sum
    /// descent, so a leaf is chosen with probability proportional to its
    /// weight. Returns the leaf numbers and their weights, in draw order; the
    /// same leaf may appear many times. Fails on a tree whose total weight is
    /// zero, without touching the generator. The result is a function of the
    /// stored weights and the generator state alone.
    pub fn sample(&mut self, n: usize) -> (r: Result<(Vec<usize>, Vec<u64>), SumTreeError>)
        requires
            old(self).wf(),
        ensures
            final(self).wf(),
            final(self).same_contents(*old(self)),
            final(self).packed() == old(self).packed(),
            old(self).total_spec() == 0 ==> r == Err::<(Vec<usize>, Vec<u64>), SumTreeError>(
                SumTreeError::ZeroTotal,
            ) && *final(self) == *old(self),
            old(self).total_spec() != 0 ==> r is Ok && final(self).rng_state() == rng_iter(
                old(self).rng_state(),
                old(self).total_spec(),
                n as nat,
            ),
            old(self).total_spec() != 0 ==> (r matches Ok(p) ==> {
                &&& p.0@.len() == n
                &&& p.1@.len() == n
                &&& forall|j: int|
                    0 <= j < n ==> (#[trigger] p.0@[j]) as int == lookup(
                        old(self).nodes_seq(),
                        old(self).cap(),
                        old(self).items(),
                        draw_at(old(self).rng_state(), old(self).total_spec(), j as nat),
                    ).0
                &&& forall|j: int|
                    0 <= j < n ==> (#[trigger] p.1@[j]) == lookup(
                        old(self).nodes_seq(),
                        old(self).cap(),
                        old(self).items(),
                        draw_at(old(self).rng_state(), old(self).total_spec(), j as nat),
                    ).1
                &&& forall|j: int| 0 <= j < n ==> (#[trigger] p.0@[j]) < old(self).cap()
                &&& old(self).items() > 0 ==> forall|j: int|
                    0 <= j < n ==> (#[trigger] p.1@[j]) > 0
                &&& old(self).items() > 0 && old(self).packed() ==> forall|j: int|
                    0 <= j < n ==> (#[trigger] p.0@[j]) < old(self).items()
            }),
    {
        let total = self.total();
        if total == 0 {
            return Err(SumTreeError::ZeroTotal);
        }
        let ghost r0 = self.rng;
        let mut indices: Vec<usize> = Vec::new();
        let mut values: Vec<u64> = Vec::new();
        let mut k: usize = 0;
        while k < n
            invariant
                self.wf(),
                self.same_contents(*old(self)),
                self.capacity == old(self).capacity,
                self.num_items == old(self).num_items,
                self.write_index == old(self).write_index,
                self.nodes == old(self).nodes,
                total == old(self).total_spec(),
                total != 0,
                r0 == old(self).rng_state(),
                self.rng_state() == rng_iter(r0, total, k as nat),
                k <= n,
                indices@.len() == k,
                values@.len() == k,
                forall|j: int|
                    0 <= j < k ==> (#[trigger] indices@[j]) as int == lookup(
                        old(self).nodes_seq(),
                        old(self).cap(),
                        old(self).items(),
                        draw_at(r0, total, j as nat),
                    ).0,
                forall|j: int|
                    0 <= j < k ==> (#[trigger] values@[j]) == lookup(
                        old(self).nodes_seq(),
                        old(self).cap(),
                        old(self).items(),
                        draw_at(r0, total, j as nat),
                    ).1,
                forall|j: int| 0 <= j < k ==> (#[trigger] indices@[j]) < old(self).cap(),
                old(self).items() > 0 ==> forall|j: int|
                    0 <= j < k ==> (#[trigger] values@[j]) > 0,
                old(self).items() > 0 && old(self).packed() ==> forall|j: int|
                    0 <= j < k ==> (#[trigger] indices@[j]) < old(self).items(),
            decreases n - k,
        {
            let w = rng_below(&mut self.rng, total);
            let v = w + 1;
            proof {
                assert(rng_iter(r0, total, (k + 1) as nat) == rng_stepped(
                    rng_iter(r0, total, k as nat),
                    total,
                ));
                assert(v as int == draw_at(r0, total, k as nat));
            }
            proof {
                if old(self).packed() {
                    assert forall|l: int| self.items() <= l < self.cap() implies #[trigger] self
                        .leaf_weight(l) == 0 by {
                        assert(old(self).leaf_weight(l) == 0);
                    };
                }
            }
            let (leaf, weight) = self.get(v as i128);
            indices.push(leaf);
            values.push(weight);
            k = k + 1;
        }
        proof {
            if old(self).packed() {
                assert forall|l: int| self.items() <= l < self.cap() implies #[trigger] self
                    .leaf_weight(l) == 0 by {
                    assert(old(self).leaf_weight(l) == 0);
                };
            }
            if self.packed() {
                assert forall|l: int| old(self).items() <= l < old(self).cap() implies #[trigger] old(
                    self,
                ).leaf_weight(l) == 0 by {
                    assert(self.leaf_weight(l) == 0);
                };
            }
        }
        Ok((indices, values))
    }

    /// Stratified sampling: cuts the targets `[1, total]` into `n` bands of
    /// equal width and draws one uniform target inside each band, resolving
    /// every draw with the cumulative-sum descent. Exactly one sample per
    /// stratum comes back, in stratum order, which gives lower variance than
    /// `sample`. Fails on a tree whose total weight is zero, without touching
    /// the generator. The result is a function of the stored weights and the
    /// generator state alone.
    pub fn sample_batched(&mut self, n: usize) -> (r: Result<
        (Vec<usize>, Vec<u64>),
        SumTreeError,
    >)
        requires
            old(self).wf(),
            n >= 1,
        ensures
            final(self).wf(),
            final(self).same_contents(*old(self)),
            final(self).packed() == old(self).packed(),
            old(self).total_spec() == 0 ==> r == Err::<(Vec<usize>, Vec<u64>), SumTreeError>(
                SumTreeError::ZeroTotal,
            ) && *final(self) == *old(self),
            old(self).total_spec() != 0 ==> r is Ok && final(self).rng_state() == strata_state(
                old(self).rng_state(),
                old(self).total_spec(),
                n as int,
                n as nat,
            ),
            old(self).total_spec() != 0 ==> (r matches Ok(p) ==> {
                &&& p.0@.len() == n
                &&& p.1@.len() == n
                &&& forall|j: int|
                    0 <= j < n ==> (#[trigger] p.0@[j]) as int == lookup(
                        old(self).nodes_seq(),
                        old(self).cap(),
                        old(self).items(),
                        strata_draw(old(self).rng_state(), old(self).total_spec(), n as int, j as nat),
                    ).0
                &&& forall|j: int|
                    0 <= j < n ==> (#[trigger] p.1@[j]) == lookup(
                        old(self).nodes_seq(),
                        old(self).cap(),
                        old(self).items(),
                        strata_draw(old(self).rng_state(), old(self).total_spec(), n as int, j as nat),
                    ).1
                &&& forall|j: int| 0 <= j < n ==> (#[trigger] p.0@[j]) < old(self).cap()
                &&& old(self).items() > 0 ==> forall|j: int|
                    0 <= j < n ==> (#[trigger] p.1@[j]) > 0
                &&& old(self).items() > 0 && old(self).packed() ==> forall|j: int|
                    0 <= j < n ==> (#[trigger] p.0@[j]) < old(self).items()
            }),
            old(self).total_spec() != 0 ==> (forall|j: int|
                0 <= j < n ==> 1 <= #[trigger] strata_draw(
                    old(self).rng_state(),
                    old(self).total_spec(),
                    n as int,
                    j as nat,
                ) <= old(self).total_spec() as int),
            old(self).total_spec() != 0 ==> (forall|j: int|
                0 <= j < n - 1 ==> #[trigger] strata_draw(
                    old(self).rng_state(),
                    old(self).total_spec(),
                    n as int,
                    j as nat,
                ) <= strata_draw(
                    old(self).rng_state(),
                    old(self).total_spec(),
                    n as int,
                    (j + 1) as nat,
                )),
    {
        let total = self.total();
        if total == 0 {
            return Err(SumTreeError::ZeroTotal);
        }
        let ghost r0 = self.rng;
        let ghost t = total as int;
        let ghost nn = n as int;
        let mut indices: Vec<usize> = Vec::new();
        let mut values: Vec<u64> = Vec::new();
        let mut k: usize = 0;
        while k < n
            invariant
                self.wf(),
                self.same_contents(*old(self)),
                self.capacity == old(self).capacity,
                self.num_items == old(self).num_items,
                self.write_index == old(self).write_index,
                self.nodes == old(self).nodes,
                total == old(self).total_spec(),
                total != 0,
                t == total as int,
                nn == n as int,
                n >= 1,
                r0 == old(self).rng_state(),
                self.rng_state() == strata_state(r0, total, nn, k as nat),
                k <= n,
                indices@.len() == k,
                values@.len() == k,
                forall|j: int|
                    0 <= j < k ==> (#[trigger] indices@[j]) as int == lookup(
                        old(self).nodes_seq(),
                        old(self).cap(),
                        old(self).items(),
                        strata_draw(r0, total, nn, j as nat),
                    ).0,
                forall|j: int|
                    0 <= j < k ==> (#[trigger] values@[j]) == lookup(
                        old(self).nodes_seq(),
                        old(self).cap(),
                        old(self).items(),
                        strata_draw(r0, total, nn, j as nat),
                    ).1,
                forall|j: int| 0 <= j < k ==> (#[trigger] indices@[j]) < old(self).cap(),
                old(self).items() > 0 ==> forall|j: int|
                    0 <= j < k ==> (#[trigger] values@[j]) > 0,
                old(self).items() > 0 && old(self).packed() ==> forall|j: int|
                    0 <= j < k ==> (#[trigger] indices@[j]) < old(self).items(),
                forall|j: int|
                    0 <= j < k ==> 1 <= #[trigger] strata_draw(r0, total, nn, j as nat) <= t,
                forall|j: int|
                    0 <= j < k ==> #[trigger] strata_draw(r0, total, nn, j as nat) <= (
                    if stratum_lo(total, nn, j + 1) >= 1 {
                        stratum_lo(total, nn, j + 1)
                    } else {
                        1
                    }),
                forall|j: int|
                    0 <= j < k - 1 ==> #[trigger] strata_draw(r0, total, nn, j as nat)
                        <= strata_draw(r0, total, nn, (j + 1) as nat),
            decreases n - k,
        {
            let ghost kk = k as int;
            proof {
                lemma_stratum_bounds(total, nn, kk);
                assert(kk * t < 0x100000000000000000000000000000000) by (nonlinear_arith)
                    requires
                        0 <= kk <= 0xffffffffffffffff,
                        0 <= t <= 0xffffffffffffffff,
                ;
                assert((kk + 1) * t < 0x100000000000000000000000000000000) by (nonlinear_arith)
                    requires
                        0 <= kk + 1 <= 0xffffffffffffffff,
                        0 <= t <= 0xffffffffffffffff,
                ;
            }
            let lo = (((k as u128) * (total as u128)) / (n as u128)) as u64;
            let hi = ((((k as u128) + 1) * (total as u128)) / (n as u128)) as u64;
            proof {
                assert(lo as int == stratum_lo(total, nn, kk));
                assert(hi as int == stratum_lo(total, nn, kk + 1));
            }
            let v: u64 = if lo < hi {
                let w = rng_below(&mut self.rng, hi - lo);
                lo + 1 + w
            } else if hi == 0 {
                1
            } else {
                hi
            };
            proof {
                assert(self.rng_state() == strata_state(r0, total, nn, (k + 1) as nat));
                assert(v as int == strata_draw(r0, total, nn, k as nat));
                assert(1 <= v as int <= t);
                assert(strata_draw(r0, total, nn, kk as nat) <= (if stratum_lo(total, nn, kk + 1)
                    >= 1 {
                    stratum_lo(total, nn, kk + 1)
                } else {
                    1
                }));
                if kk >= 1 {
                    lemma_stratum_bounds(total, nn, kk - 1);
                    assert(strata_draw(r0, total, nn, (kk - 1) as nat) <= (if stratum_lo(
                        total,
                        nn,
                        kk,
                    ) >= 1 {
                        stratum_lo(total, nn, kk)
                    } else {
                        1
                    }));
                    assert(strata_draw(r0, total, nn, (kk - 1) as nat) <= strata_draw(
                        r0,
                        total,
                        nn,
                        kk as nat,
                    ));
                }
                if old(self).packed() {
                    assert forall|l: int| self.items() <= l < self.cap() implies #[trigger] self
                        .leaf_weight(l) == 0 by {
                        assert(old(self).leaf_weight(l) == 0);
                    };
                }
            }
            let (leaf, weight) = self.get(v as i128);
            indices.push(leaf);
            values.push(weight);
            k = k + 1;
        }
        proof {
            if old(self).packed() {
                assert forall|l: int| self.items() <= l < self.cap() implies #[trigger] self
                    .leaf_weight(l) == 0 by {
                    assert(old(self).leaf_weight(l) == 0);
                };
            }
            if self.packed() {
                assert forall|l: int| old(self).items() <= l < old(self).cap() implies #[trigger] old(
                    self,
                ).leaf_weight(l) == 0 by {
                    assert(self.leaf_weight(l) == 0);
                };
            }
        }
        Ok((indices, values))
    }

    /// Applies one `update` per leaf-number/weight pair, first to last. The
    /// two sequences must have the same length and every intermediate state
    /// must keep the total within the node range; a partially matching batch
    /// is a caller error, not a recoverable condition.
    pub fn update_batched(&mut self, leaf_nums: Vec<usize>, values: Vec<u64>)
        requires
            old(self).wf(),
            leaf_nums@.len() == values@.len(),
            batch_ok(old(self).nodes_seq(), old(self).cap(), leaf_nums@, values@),
        ensures
            final(self).wf(),
            final(self).nodes_seq() == batch_nodes(
                old(self).nodes_seq(),
                old(self).cap(),
                leaf_nums@,
                values@,
            ),
            final(self).cap() == old(self).cap(),
            final(self).items() == old(self).items(),
            final(self).next_slot() == old(self).next_slot(),
            final(self).rng_state() == old(self).rng_state(),
    {
        let ghost cap = self.cap();
        let ghost ls = leaf_nums@;
        let ghost vs = values@;
        let m = leaf_nums.len();
        proof {
            assert(ls.skip(0) =~= ls);
            assert(vs.skip(0) =~= vs);
        }
        let mut j: usize = 0;
        while j < m
            invariant
                self.wf(),
                cap == self.cap(),
                m == ls.len() && m == vs.len(),
                leaf_nums@ == ls,
                values@ == vs,
                j <= m,
                self.items() == old(self).items(),
                self.next_slot() == old(self).next_slot(),
                self.rng_state() == old(self).rng_state(),
                batch_ok(self.nodes_seq(), cap, ls.skip(j as int), vs.skip(j as int)),
                batch_nodes(self.nodes_seq(), cap, ls.skip(j as int), vs.skip(j as int))
                    == batch_nodes(old(self).nodes_seq(), cap, ls, vs),
            decreases m - j,
        {
            let ln = leaf_nums[j];
            let v = values[j];
            proof {
                assert(ls.skip(j as int)[0] == ls[j as int]);
                assert(vs.skip(j as int)[0] == vs[j as int]);
                assert(ls.skip(j as int).drop_first() =~= ls.skip(j as int + 1));
                assert(vs.skip(j as int).drop_first() =~= vs.skip(j as int + 1));
            }
            self.update(ln, v);
            j = j + 1;
        }
        proof {
            assert(batch_nodes(self.nodes_seq(), cap, ls.skip(m as int), vs.skip(m as int))
                == self.nodes_seq());
        }
    }

    /// A snapshot of the tree: a copy of the node array and the live-item
    /// count. The capacity is not part of the snapshot, and the ring cursor
    /// is dropped: restoring is meant for a freshly constructed tree of the
    /// same capacity.
    pub fn serialize(&self) -> (r: (Vec<u64>, usize))
        requires
            self.wf(),
        ensures
            r.0@ == self.nodes_seq(),
            r.1 == self.items(),
    {
        (copy_weights(&self.nodes), self.num_items)
    }

    /// Takes over a snapshot's node array and live count after validating
    /// them; the ring cursor resumes as if the live count had just been
    /// appended in order. A snapshot with the wrong array length, a live
    /// count above the capacity, or internal nodes that do not cache their
    /// children's sums is rejected, and nothing changes.
    pub fn restore(&mut self, nodes: Vec<u64>, num_items: usize) -> (r: Result<(), SumTreeError>)
        requires
            old(self).wf(),
        ensures
            final(self).wf(),
            final(self).cap() == old(self).cap(),
            final(self).rng_state() == old(self).rng_state(),
            valid_snapshot(nodes@, old(self).cap(), num_items as int) ==> r == Ok::<
                (),
                SumTreeError,
            >(()) && final(self).nodes_seq() == nodes@ && final(self).items() == num_items
                && final(self).next_slot() == num_items as int % old(self).cap(),
            !valid_snapshot(nodes@, old(self).cap(), num_items as int) ==> r == Err::<
                (),
                SumTreeError,
            >(SumTreeError::InvalidSnapshot) && *final(self) == *old(self),
    {
        let ghost cap = self.cap();
        let n = self.nodes.len();
        if nodes.len() != n {
            return Err(SumTreeError::InvalidSnapshot);
        }
        if num_items > self.capacity {
            return Err(SumTreeError::InvalidSnapshot);
        }
        let first = self.capacity - 1;
        let mut p: usize = 0;
        while p < first
            invariant
                *self == *old(self),
                self.wf(),
                cap == self.cap(),
                first == first_leaf(cap),
                nodes@.len() == node_count(cap),
                node_count(cap) <= usize::MAX,
                p <= first,
                forall|q: int| 0 <= q < p ==> #[trigger] node_ok(nodes@, q),
            decreases first - p,
        {
            let a = nodes[2 * p + 1] as u128;
            let b = nodes[2 * p + 2] as u128;
            if (nodes[p] as u128) != a + b {
                proof {
                    assert(!node_ok(nodes@, p as int));
                }
                return Err(SumTreeError::InvalidSnapshot);
            }
            proof {
                assert(node_ok(nodes@, p as int));
            }
            p = p + 1;
        }
        proof {
            assert(valid_snapshot(nodes@, cap, num_items as int));
            if (num_items as int) < cap {
                vstd::arithmetic::div_mod::lemma_small_mod(num_items as nat, cap as nat);
            }
        }
        self.nodes = nodes;
        self.num_items = num_items;
        self.write_index = num_items % self.capacity;
        Ok(())
    }

    /// The weight of leaf `leaf_num`, or an out-of-range error naming the
    /// requested index and the number of leaves.
    pub fn item(&self, leaf_num: usize) -> (r: Result<u64, SumTreeError>)
        requires
            self.wf(),
        ensures
            leaf_num < self.cap() ==> r == Ok::<u64, SumTreeError>(
                self.leaf_weight(leaf_num as int),
            ),
            leaf_num >= self.cap() ==> r == Err::<u64, SumTreeError>(
                SumTreeError::OutOfRange { index: leaf_num, len: self.cap() as usize },
            ),
    {
        if leaf_num < self.capacity {
            let n = self.nodes.len();
            Ok(self.nodes[leaf_num + (self.capacity - 1)])
        } else {
            Err(SumTreeError::OutOfRange { index: leaf_num, len: self.capacity })
        }
    }
}

impl Clone for SumTree {
    /// An independent copy with the same weights, counts, cursor, and
    /// generator state: both trees produce identical future samples until
    /// one of them is mutated or reseeded differently.
    fn clone(&self) -> (r: Self)
        ensures
            r.same_contents(*self),
            r.rng_state() == self.rng_state(),
            self.wf() ==> r.wf(),
            r.packed() == self.packed(),
    {
        let r = SumTree {
            nodes: copy_weights(&self.nodes),
            num_items: self.num_items,
            capacity: self.capacity,
            write_index: self.write_index,
            rng: rng_duplicate(&self.rng),
        };
        proof {
            if self.packed() {
                assert forall|l: int| r.items() <= l < r.cap() implies #[trigger] r.leaf_weight(l)
                    == 0 by {
                    assert(self.leaf_weight(l) == 0);
                };
            }
            if r.packed() {
                assert forall|l: int| self.items() <= l < self.cap() implies #[trigger] self
                    .leaf_weight(l) == 0 by {
                    assert(r.leaf_weight(l) == 0);
                };
            }
        }
        r
    }
}

} // verus!

