//! The mathematical shape of the array-backed sum tree: how array positions
//! map to leaves, what the cumulative-sum descent computes, and the facts
//! about ancestor chains and cached sums that the executable methods rely on.

use vstd::prelude::*;

verus! {

/// Number of array slots a tree with `cap` leaves occupies.
pub open spec fn node_count(cap: int) -> int {
    2 * cap - 1
}

/// Tree index of the first leaf; smaller indices are internal nodes.
pub open spec fn first_leaf(cap: int) -> int {
    cap - 1
}

/// The parent position of a non-root position.
pub open spec fn parent(i: int) -> int {
    (i - 1) / 2
}

/// The node at `p` holds exactly the sum of its two children.
pub open spec fn node_ok(s: Seq<u64>, p: int) -> bool {
    s[p] as int == s[2 * p + 1] as int + s[2 * p + 2] as int
}

/// Every internal node holds exactly the sum of its two children.
pub open spec fn sums_hold(s: Seq<u64>, cap: int) -> bool {
    forall|p: int| 0 <= p < first_leaf(cap) ==> #[trigger] node_ok(s, p)
}

/// The leaf weights in leaf-number order.
pub open spec fn leaves_of(s: Seq<u64>, cap: int) -> Seq<u64> {
    s.subrange(first_leaf(cap), node_count(cap))
}

/// Whether `q` lies on the chain from position `i` up to the root,
/// `i` itself included.
pub open spec fn on_path(i: int, q: int) -> bool
    decreases i,
{
    if i <= 0 {
        q == i
    } else {
        q == i || on_path(parent(i), q)
    }
}

/// The node sequence after a leaf write: position `li` takes the new weight
/// and every proper ancestor absorbs the difference.
pub open spec fn upd_nodes(s: Seq<u64>, li: int, v: u64) -> Seq<u64> {
    Seq::new(
        s.len(),
        |q: int|
            if q == li {
                v
            } else if on_path(li, q) {
                (s[q] - s[li] + v) as u64
            } else {
                s[q]
            },
    )
}

/// The position that the cumulative-sum descent reaches from `i` with target
/// `v`: left when `v` is at most the left child's cached sum, otherwise right
/// with that sum subtracted.
pub open spec fn descend(s: Seq<u64>, cap: int, i: int, v: int) -> int
    decreases 2 * cap - i,
{
    if 0 <= i && i < first_leaf(cap) {
        if v <= s[2 * i + 1] {
            descend(s, cap, 2 * i + 1, v)
        } else {
            descend(s, cap, 2 * i + 2, v - s[2 * i + 1])
        }
    } else {
        i
    }
}

/// The position reached from `i` by always descending left.
pub open spec fn leftmost_from(cap: int, i: int) -> int
    decreases 2 * cap - i,
{
    if 0 <= i && i < first_leaf(cap) {
        leftmost_from(cap, 2 * i + 1)
    } else {
        i
    }
}

/// The position reached from `i` by always descending right.
pub open spec fn rightmost_from(cap: int, i: int) -> int
    decreases 2 * cap - i,
{
    if 0 <= i && i < first_leaf(cap) {
        rightmost_from(cap, 2 * i + 2)
    } else {
        i
    }
}

/// Every position on the chain from `i` lies between the root and `i`.
pub proof fn lemma_path_bounds(i: int, q: int)
    requires
        0 <= i,
        on_path(i, q),
    ensures
        0 <= q <= i,
    decreases i,
{
    if i > 0 && q != i {
        lemma_path_bounds(parent(i), q);
    }
}

/// The chain from every position reaches the root.
pub proof fn lemma_path_root(i: int)
    requires
        0 <= i,
    ensures
        on_path(i, 0),
    decreases i,
{
    if i > 0 {
        lemma_path_root(parent(i));
    }
}

/// The chain through a non-root position continues to that position's parent.
pub proof fn lemma_path_parent(i: int, c: int)
    requires
        0 < c,
        on_path(i, c),
    ensures
        on_path(i, parent(c)),
    decreases i,
{
    if c == i {
        assert(on_path(parent(c), parent(c)));
    } else {
        lemma_path_parent(parent(i), c);
    }
}

/// Below a chain position `c`, the chain from `i` coincides with the chain
/// from `c`.
pub proof fn lemma_path_below(i: int, c: int, q: int)
    requires
        0 <= i,
        on_path(i, c),
        on_path(i, q),
        q <= c,
    ensures
        on_path(c, q),
    decreases i,
{
    if c != i {
        lemma_path_bounds(i, c);
        lemma_path_below(parent(i), c, q);
    }
}

/// Away from its start, every chain position is entered from one of its two
/// children, which also lies on the chain.
pub proof fn lemma_path_child(i: int, q: int)
    requires
        0 <= i,
        on_path(i, q),
        q != i,
    ensures
        exists|c: int|
            #![auto]
            on_path(i, c) && parent(c) == q && (c == 2 * q + 1 || c == 2 * q + 2),
    decreases i,
{
    if q == parent(i) {
        assert(i == 2 * parent(i) + 1 || i == 2 * parent(i) + 2) by {
            assert(i - 1 == 2 * ((i - 1) / 2) + ((i - 1) % 2));
        };
        assert(on_path(i, i) && parent(i) == q && (i == 2 * q + 1 || i == 2 * q + 2));
    } else {
        lemma_path_child(parent(i), q);
        let c = choose|c: int|
            #![auto]
            on_path(parent(i), c) && parent(c) == q && (c == 2 * q + 1 || c == 2 * q + 2);
        assert(on_path(i, c) && parent(c) == q && (c == 2 * q + 1 || c == 2 * q + 2));
    }
}

/// The two children of a position never lie on the same chain.
pub proof fn lemma_path_one_child(i: int, q: int)
    requires
        0 <= i,
        0 <= q,
    ensures
        !(on_path(i, 2 * q + 1) && on_path(i, 2 * q + 2)),
{
    if on_path(i, 2 * q + 1) && on_path(i, 2 * q + 2) {
        lemma_path_below(i, 2 * q + 2, 2 * q + 1);
        assert(on_path(2 * q + 2, 2 * q + 1));
        assert(parent(2 * q + 2) == q);
        assert(on_path(q, 2 * q + 1));
        lemma_path_bounds(q, 2 * q + 1);
        assert(false);
    }
}

/// With the sum property, a chain position carries at least the weight of the
/// position the chain starts from.
pub proof fn lemma_path_sum_le(s: Seq<u64>, cap: int, i: int, q: int)
    requires
        s.len() == node_count(cap),
        cap >= 1,
        sums_hold(s, cap),
        0 <= i < node_count(cap),
        on_path(i, q),
    ensures
        s[i] <= s[q],
    decreases i,
{
    if q != i {
        let p = parent(i);
        assert(i == 2 * p + 1 || i == 2 * p + 2) by {
            assert(i - 1 == 2 * ((i - 1) / 2) + ((i - 1) % 2));
        };
        assert(node_ok(s, p));
        lemma_path_sum_le(s, cap, p, q);
    }
}

/// With the sum property, no node weighs more than the root.
pub proof fn lemma_le_root(s: Seq<u64>, cap: int, i: int)
    requires
        s.len() == node_count(cap),
        cap >= 1,
        sums_hold(s, cap),
        0 <= i < node_count(cap),
    ensures
        s[i] <= s[0],
{
    lemma_path_root(i);
    lemma_path_sum_le(s, cap, i, 0);
}

/// After a leaf write, every position on the chain holds the old value moved
/// by the weight difference, and that value fits in a node.
pub proof fn lemma_path_value_range(s: Seq<u64>, cap: int, li: int, q: int, v: u64)
    requires
        s.len() == node_count(cap),
        cap >= 1,
        sums_hold(s, cap),
        first_leaf(cap) <= li < node_count(cap),
        on_path(li, q),
        s[0] - s[li] + v <= u64::MAX,
    ensures
        0 <= s[q] - s[li] + v <= u64::MAX,
        upd_nodes(s, li, v)[q] as int == s[q] - s[li] + v,
{
    lemma_path_sum_le(s, cap, li, q);
    lemma_path_bounds(li, q);
    lemma_le_root(s, cap, q);
}

/// A leaf write preserves the internal sum property, and the root moves by
/// exactly the weight difference.
pub proof fn lemma_upd_nodes_sums(s: Seq<u64>, cap: int, li: int, v: u64)
    requires
        s.len() == node_count(cap),
        cap >= 1,
        sums_hold(s, cap),
        first_leaf(cap) <= li < node_count(cap),
        s[0] - s[li] + v <= u64::MAX,
    ensures
        sums_hold(upd_nodes(s, li, v), cap),
        upd_nodes(s, li, v)[0] as int == s[0] - s[li] + v,
{
    let t = upd_nodes(s, li, v);
    assert forall|p: int| 0 <= p < first_leaf(cap) implies #[trigger] node_ok(t, p) by {
        assert(node_ok(s, p));
        let a = 2 * p + 1;
        let b = 2 * p + 2;
        if on_path(li, p) {
            // `p` is a proper ancestor of the written leaf: exactly one child
            // lies on the chain and absorbs the difference.
            assert(p != li) by {
                if p == li {
                    assert(p >= first_leaf(cap));
                }
            };
            lemma_path_child(li, p);
            let c = choose|c: int|
                #![auto]
                on_path(li, c) && parent(c) == p && (c == 2 * p + 1 || c == 2 * p + 2);
            let d = if c == a { b } else { a };
            lemma_path_one_child(li, p);
            assert(!on_path(li, d));
            assert(d != li);
            lemma_path_value_range(s, cap, li, c, v);
            lemma_path_value_range(s, cap, li, p, v);
            assert(t[c] as int == s[c] - s[li] + v);
            assert(t[d] == s[d]);
            assert(t[p] as int == s[p] - s[li] + v);
        } else {
            // Off the chain nothing changes: a child on the chain would put
            // its parent on the chain too.
            assert(!on_path(li, a)) by {
                if on_path(li, a) {
                    lemma_path_parent(li, a);
                }
            };
            assert(!on_path(li, b)) by {
                if on_path(li, b) {
                    lemma_path_parent(li, b);
                }
            };
            assert(a != li && b != li) by {
                lemma_path_bounds(li, li);
            };
            assert(t[p] == s[p] && t[a] == s[a] && t[b] == s[b]);
        }
    };
    // The root either is the written leaf (a one-leaf tree) or lies on the
    // chain above it.
    if li == 0 {
        assert(upd_nodes(s, li, v)[0] == v);
    } else {
        lemma_path_root(li);
        lemma_path_value_range(s, cap, li, 0, v);
    }
}

/// A leaf write changes exactly one slot of the leaf sequence.
pub proof fn lemma_upd_nodes_leaves(s: Seq<u64>, cap: int, ln: int, v: u64)
    requires
        s.len() == node_count(cap),
        cap >= 1,
        0 <= ln < cap,
    ensures
        leaves_of(upd_nodes(s, first_leaf(cap) + ln, v), cap) == leaves_of(s, cap).update(ln, v),
{
    let li = first_leaf(cap) + ln;
    let t = upd_nodes(s, li, v);
    assert forall|q: int| first_leaf(cap) <= q < node_count(cap) && q != li implies #[trigger] t[q]
        == s[q] by {
        if on_path(li, q) {
            // Proper chain positions above a leaf are internal nodes.
            lemma_path_bounds(li, q);
            assert(q != li);
            assert(on_path(parent(li), q));
            lemma_path_bounds(parent(li), q);
            assert(q <= parent(li));
            assert(parent(li) < first_leaf(cap));
            assert(false);
        }
    };
    assert(leaves_of(t, cap) =~= leaves_of(s, cap).update(ln, v));
}

/// A target within the subtree's positive mass lands on a leaf of positive
/// weight.
pub proof fn lemma_descend_positive(s: Seq<u64>, cap: int, i: int, v: int)
    requires
        s.len() == node_count(cap),
        cap >= 1,
        sums_hold(s, cap),
        0 <= i < node_count(cap),
        0 < v <= s[i],
    ensures
        s[descend(s, cap, i, v)] > 0,
    decreases 2 * cap - i,
{
    if i < first_leaf(cap) {
        assert(node_ok(s, i));
        if v <= s[2 * i + 1] {
            lemma_descend_positive(s, cap, 2 * i + 1, v);
        } else {
            lemma_descend_positive(s, cap, 2 * i + 2, v - s[2 * i + 1]);
        }
    }
}

/// A target above the subtree's sum runs down the right spine.
pub proof fn lemma_descend_above(s: Seq<u64>, cap: int, i: int, v: int)
    requires
        s.len() == node_count(cap),
        cap >= 1,
        sums_hold(s, cap),
        0 <= i < node_count(cap),
        v > s[i],
    ensures
        descend(s, cap, i, v) == rightmost_from(cap, i),
    decreases 2 * cap - i,
{
    if i < first_leaf(cap) {
        assert(node_ok(s, i));
        lemma_descend_above(s, cap, 2 * i + 2, v - s[2 * i + 1]);
    }
}

/// A non-positive target runs down the left spine.
pub proof fn lemma_descend_low(s: Seq<u64>, cap: int, i: int, v: int)
    requires
        cap >= 1,
        0 <= i < node_count(cap),
        v <= 0,
    ensures
        descend(s, cap, i, v) == leftmost_from(cap, i),
    decreases 2 * cap - i,
{
    if i < first_leaf(cap) {
        lemma_descend_low(s, cap, 2 * i + 1, v);
    }
}

} // verus!
