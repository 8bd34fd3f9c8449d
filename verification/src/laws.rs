//! A spec-level model of the tree — capacity, leaf weights, live-item count,
//! ring cursor and total — together with one step function per mutating
//! operation, and the laws that sequences of those steps obey.

use vstd::prelude::*;
use rand::rngs::StdRng;
use crate::model::{SumTree, lookup, draw_at, strata_draw, valid_snapshot};
use crate::shape::{first_leaf, upd_nodes};
use vstd::arithmetic::div_mod::{
    lemma_small_mod, lemma_mod_bound, lemma_mod_multiples_vanish,
};

verus! {

/// What a tree looks like from the outside: its fixed capacity, the leaf
/// weights in leaf-number order, how many leaves have ever been written
/// (capped at capacity), the next ring slot to write, and the total weight.
#[verifier::ext_equal]
pub ghost struct TreeModel {
    pub cap: int,
    pub leaves: Seq<u64>,
    pub items: int,
    pub next: int,
    pub total: int,
}

/// The model of a freshly constructed tree: all weights zero.
pub open spec fn fresh_model(cap: int) -> TreeModel {
    TreeModel {
        cap,
        leaves: Seq::new(cap as nat, |l: int| 0u64),
        items: 0,
        next: 0,
        total: 0,
    }
}

/// One weight update: leaf `ln` takes weight `v` and the total moves by the
/// difference; counts and cursor stay.
pub open spec fn upd_step(m: TreeModel, ln: int, v: u64) -> TreeModel {
    TreeModel {
        leaves: m.leaves.update(ln, v),
        total: m.total - m.leaves[ln] + v,
        ..m
    }
}

/// One ring-buffer append: the slot under the cursor takes weight `v`, the
/// cursor advances modulo capacity, and the live count grows up to capacity.
pub open spec fn add_step(m: TreeModel, v: u64) -> TreeModel {
    TreeModel {
        items: if m.items + 1 <= m.cap {
            m.items + 1
        } else {
            m.cap
        },
        next: (m.next + 1) % m.cap,
        ..upd_step(m, m.next, v)
    }
}

/// The model after a whole sequence of appends.
pub open spec fn adds(m: TreeModel, ws: Seq<u64>) -> TreeModel
    decreases ws.len(),
{
    if ws.len() == 0 {
        m
    } else {
        adds(add_step(m, ws[0]), ws.drop_first())
    }
}

/// Every update of a batch names a valid leaf and keeps the running total
/// within the node range, so that the whole batch can be applied.
pub open spec fn batch_ok(s: Seq<u64>, cap: int, ls: Seq<usize>, vs: Seq<u64>) -> bool
    decreases ls.len(),
{
    ls.len() == 0 || {
        &&& vs.len() >= 1
        &&& (ls[0] as int) < cap
        &&& s[0] - s[first_leaf(cap) + ls[0] as int] + vs[0] <= u64::MAX
        &&& batch_ok(
            upd_nodes(s, first_leaf(cap) + ls[0] as int, vs[0]),
            cap,
            ls.drop_first(),
            vs.drop_first(),
        )
    }
}

/// The node sequence after a batch of updates, applied first to last.
pub open spec fn batch_nodes(s: Seq<u64>, cap: int, ls: Seq<usize>, vs: Seq<u64>) -> Seq<u64>
    decreases ls.len(),
{
    if ls.len() == 0 {
        s
    } else {
        batch_nodes(upd_nodes(s, first_leaf(cap) + ls[0] as int, vs[0]), cap, ls.drop_first(), vs.drop_first())
    }
}

/// The sum of a sequence of weights, as an unbounded integer.
pub open spec fn sum_of(ws: Seq<u64>) -> int
    decreases ws.len(),
{
    if ws.len() == 0 {
        0
    } else {
        ws[0] + sum_of(ws.drop_first())
    }
}

/// A model reachable by exactly `j` appends into a fresh tree, before the
/// ring has ever wrapped: `j` live items, the cursor at `j`, and every later
/// slot still zero.
pub open spec fn partial_fill(m: TreeModel, cap: int, j: int) -> bool {
    &&& m.cap == cap
    &&& m.leaves.len() == cap
    &&& m.items == j
    &&& m.next == j
    &&& 0 <= j <= cap
    &&& forall|l: int| j <= l < cap ==> m.leaves[l] == 0
}

/// While the ring has room, every append lands on a slot that still weighs
/// zero, so the total grows by exactly the appended weights.
pub proof fn lemma_fill_total(m: TreeModel, cap: int, j: int, ws: Seq<u64>)
    requires
        1 <= cap,
        partial_fill(m, cap, j),
        j + ws.len() <= cap,
    ensures
        adds(m, ws).total == m.total + sum_of(ws),
    decreases ws.len(),
{
    if ws.len() > 0 {
        let m2 = add_step(m, ws[0]);
        assert(m.leaves[m.next] == 0);
        if j + 1 < cap {
            lemma_small_mod((j + 1) as nat, cap as nat);
            lemma_fill_total(m2, cap, j + 1, ws.drop_first());
        } else {
            assert(ws.len() == 1);
            assert(adds(m2, ws.drop_first()) == m2);
        }
    }
}

/// After `k <= capacity` appends into a fresh tree, the total is exactly the
/// sum of the appended weights.
pub proof fn lemma_total_of_first_fill(cap: int, ws: Seq<u64>)
    requires
        1 <= cap,
        ws.len() <= cap,
    ensures
        adds(fresh_model(cap), ws).total == sum_of(ws),
{
    lemma_fill_total(fresh_model(cap), cap, 0, ws);
}

/// Appending once more after a sequence of appends is one more step.
pub proof fn lemma_adds_snoc(m: TreeModel, ws: Seq<u64>, v: u64)
    ensures
        adds(m, ws.push(v)) == add_step(adds(m, ws), v),
    decreases ws.len(),
{
    if ws.len() == 0 {
        assert(ws.push(v)[0] == v);
        assert(ws.push(v).drop_first() =~= Seq::<u64>::empty());
        assert(adds(m, ws.push(v)) == adds(add_step(m, v), ws.push(v).drop_first()));
        assert(adds(add_step(m, v), ws.push(v).drop_first()) == add_step(m, v));
        assert(add_step(adds(m, ws), v) == add_step(m, v));
    } else {
        assert(ws.push(v)[0] == ws[0]);
        assert(ws.push(v).drop_first() =~= ws.drop_first().push(v));
        lemma_adds_snoc(add_step(m, ws[0]), ws.drop_first(), v);
        assert(adds(m, ws.push(v)) == adds(add_step(m, ws[0]), ws.drop_first().push(v)));
        assert(adds(m, ws) == adds(add_step(m, ws[0]), ws.drop_first()));
    }
}

/// After any appends into a fresh tree, the cursor sits at the append count
/// modulo the capacity, and the live count is the append count capped at the
/// capacity.
pub proof fn lemma_ring_cursor(cap: int, ws: Seq<u64>)
    requires
        1 <= cap,
    ensures
        adds(fresh_model(cap), ws).cap == cap,
        adds(fresh_model(cap), ws).leaves.len() == cap,
        adds(fresh_model(cap), ws).next == ws.len() as int % cap,
        adds(fresh_model(cap), ws).items == (if ws.len() <= cap {
            ws.len() as int
        } else {
            cap
        }),
    decreases ws.len(),
{
    if ws.len() == 0 {
        lemma_small_mod(0, cap as nat);
    } else {
        let shorter = ws.drop_last();
        assert(shorter.push(ws.last()) =~= ws);
        lemma_ring_cursor(cap, shorter);
        lemma_adds_snoc(fresh_model(cap), shorter, ws.last());
        let k = shorter.len() as int;
        assert((k % cap + 1) % cap == (k + 1) % cap) by {
            lemma_mod_bound(k, cap);
            vstd::arithmetic::div_mod::lemma_fundamental_div_mod(k, cap);
            lemma_mod_multiples_vanish(k / cap, k % cap + 1, cap);
            assert(cap * (k / cap) + (k % cap + 1) == k + 1);
        };
    }
}

/// The weight that slot `l` holds after the appends `ws` have run into a
/// fresh ring of capacity `cap`: the most recent weight whose turn landed on
/// `l`, or zero if none did.
pub open spec fn slot_value(ws: Seq<u64>, cap: int, l: int) -> u64
    decreases ws.len(),
{
    if ws.len() == 0 {
        0u64
    } else if (ws.len() - 1) % cap == l {
        ws.last()
    } else {
        slot_value(ws.drop_last(), cap, l)
    }
}

/// `slot_value` picks the most recent write whose turn landed on the slot.
pub proof fn lemma_slot_value_latest(ws: Seq<u64>, cap: int, j: int)
    requires
        1 <= cap,
        0 <= j < ws.len(),
        forall|j2: int| j < j2 < ws.len() ==> #[trigger] (j2 % cap) != j % cap,
    ensures
        slot_value(ws, cap, j % cap) == ws[j],
    decreases ws.len(),
{
    if ws.len() - 1 > j {
        assert((ws.len() - 1) % cap != j % cap);
        lemma_slot_value_latest(ws.drop_last(), cap, j);
    }
}

/// Each ring slot holds the most recent weight whose turn landed on it.
pub proof fn lemma_ring_slots(cap: int, ws: Seq<u64>, l: int)
    requires
        1 <= cap,
        0 <= l < cap,
    ensures
        adds(fresh_model(cap), ws).leaves[l] == slot_value(ws, cap, l),
    decreases ws.len(),
{
    if ws.len() == 0 {
    } else {
        let shorter = ws.drop_last();
        assert(shorter.push(ws.last()) =~= ws);
        lemma_ring_slots(cap, shorter, l);
        lemma_adds_snoc(fresh_model(cap), shorter, ws.last());
        lemma_ring_cursor(cap, shorter);
        lemma_mod_bound(shorter.len() as int, cap);
    }
}

/// Appending to a full tree evicts the oldest surviving weight: the total
/// moves by the new weight minus the weight appended `capacity` turns ago.
pub proof fn lemma_add_evicts_oldest(cap: int, ws: Seq<u64>, v: u64)
    requires
        1 <= cap,
        ws.len() >= cap,
    ensures
        adds(fresh_model(cap), ws.push(v)).total == adds(fresh_model(cap), ws).total + v - ws[ws.len()
            - cap],
{
    let len = ws.len() as int;
    let j = len - cap;
    lemma_adds_snoc(fresh_model(cap), ws, v);
    lemma_ring_cursor(cap, ws);
    lemma_mod_bound(len, cap);
    // The cursor's slot was last written `capacity` turns ago.
    assert(j % cap == len % cap) by {
        lemma_mod_multiples_vanish(1, j, cap);
        assert(cap * 1 + j == len);
    };
    assert forall|j2: int| j < j2 < len implies #[trigger] (j2 % cap) != j % cap by {
        let d = j2 - j;
        lemma_mod_bound(j, cap);
        lemma_mod_bound(j2, cap);
        vstd::arithmetic::div_mod::lemma_fundamental_div_mod(j, cap);
        lemma_mod_multiples_vanish(j / cap, j % cap + d, cap);
        assert(cap * (j / cap) + (j % cap + d) == j2);
        if j % cap + d < cap {
            lemma_small_mod((j % cap + d) as nat, cap as nat);
        } else {
            lemma_mod_multiples_vanish(1, j % cap + d - cap, cap);
            assert(cap * 1 + (j % cap + d - cap) == j % cap + d);
            lemma_small_mod((j % cap + d - cap) as nat, cap as nat);
        }
    };
    lemma_slot_value_latest(ws, cap, j);
    lemma_ring_slots(cap, ws, len % cap);
}

/// A batch of updates is the same as the single updates run in order:
/// extending a batch by one pair is one more single update after the batch.
pub proof fn lemma_batch_snoc(s: Seq<u64>, cap: int, ls: Seq<usize>, vs: Seq<u64>, l: usize, v: u64)
    requires
        ls.len() == vs.len(),
    ensures
        batch_nodes(s, cap, ls.push(l), vs.push(v)) == upd_nodes(
            batch_nodes(s, cap, ls, vs),
            first_leaf(cap) + l as int,
            v,
        ),
    decreases ls.len(),
{
    if ls.len() == 0 {
        assert(ls.push(l)[0] == l);
        assert(vs.push(v)[0] == v);
        assert(ls.push(l).drop_first() =~= Seq::<usize>::empty());
        assert(vs.push(v).drop_first() =~= Seq::<u64>::empty());
        assert(batch_nodes(s, cap, ls.push(l), vs.push(v)) == batch_nodes(
            upd_nodes(s, first_leaf(cap) + l as int, v),
            cap,
            ls.push(l).drop_first(),
            vs.push(v).drop_first(),
        ));
        assert(batch_nodes(
            upd_nodes(s, first_leaf(cap) + l as int, v),
            cap,
            ls.push(l).drop_first(),
            vs.push(v).drop_first(),
        ) == upd_nodes(s, first_leaf(cap) + l as int, v));
        assert(batch_nodes(s, cap, ls, vs) == s);
    } else {
        assert(ls.push(l)[0] == ls[0]);
        assert(vs.push(v)[0] == vs[0]);
        assert(ls.push(l).drop_first() =~= ls.drop_first().push(l));
        assert(vs.push(v).drop_first() =~= vs.drop_first().push(v));
        let s2 = upd_nodes(s, first_leaf(cap) + ls[0] as int, vs[0]);
        lemma_batch_snoc(s2, cap, ls.drop_first(), vs.drop_first(), l, v);
        assert(batch_nodes(s, cap, ls.push(l), vs.push(v)) == batch_nodes(
            s2,
            cap,
            ls.drop_first().push(l),
            vs.drop_first().push(v),
        ));
        assert(batch_nodes(s, cap, ls, vs) == batch_nodes(s2, cap, ls.drop_first(), vs.drop_first()));
    }
}

/// Determinism of sampling: two trees holding the same weights and the same
/// generator state draw the same targets and resolve them to the same
/// leaves. Together with the sampling contracts — whose results are spelled
/// out as functions of the stored weights and the generator state alone —
/// two trees seeded with the same value and given the same writes produce
/// identical samples.
pub proof fn lemma_sampling_deterministic(a: SumTree, b: SumTree, j: nat)
    requires
        a.same_contents(b),
        a.rng_state() == b.rng_state(),
    ensures
        draw_at(a.rng_state(), a.total_spec(), j) == draw_at(b.rng_state(), b.total_spec(), j),
        lookup(a.nodes_seq(), a.cap(), a.items(), draw_at(a.rng_state(), a.total_spec(), j))
            == lookup(b.nodes_seq(), b.cap(), b.items(), draw_at(b.rng_state(), b.total_spec(), j)),
{
    assert(a.total_spec() == b.total_spec());
}

/// A serialized well-formed tree always restores: its snapshot passes
/// validation, and restoring it into a tree of the same capacity reproduces
/// the node array and the live count — hence the same total and the same
/// lookups, which are functions of those alone.
pub proof fn lemma_snapshot_round_trip(t: SumTree)
    requires
        t.wf(),
    ensures
        valid_snapshot(t.nodes_seq(), t.cap(), t.items()),
{
}

/// Stratified targets never decrease across strata: with every stratum's
/// draw inside its band — which `sample_batched` guarantees of the draws it
/// actually makes — the targets are ordered by stratum.
pub proof fn lemma_strata_monotone(r0: StdRng, total: u64, n: int, j1: int, j2: int)
    requires
        forall|j: int|
            0 <= j < n - 1 ==> #[trigger] strata_draw(r0, total, n, j as nat) <= strata_draw(
                r0,
                total,
                n,
                (j + 1) as nat,
            ),
        0 <= j1 <= j2 < n,
    ensures
        strata_draw(r0, total, n, j1 as nat) <= strata_draw(r0, total, n, j2 as nat),
    decreases j2 - j1,
{
    if j1 < j2 {
        lemma_strata_monotone(r0, total, n, j1, j2 - 1);
        assert(strata_draw(r0, total, n, (j2 - 1) as nat) <= strata_draw(r0, total, n, j2 as nat));
    }
}

} // verus!
