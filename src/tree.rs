//! The free tree as a mathematical object: a complete binary heap of bytes, index 1 the root,
//! where each node holds the order of the largest free block below it, or the mark of a node
//! that is allocated as one block.
use vstd::arithmetic::power2::{lemma_pow2_pos, lemma_pow2_strictly_increases, lemma_pow2_unfold, pow2};
use vstd::prelude::*;

verus! {

/// Depth of heap index `i`: the root is at depth 0.
pub open spec fn depth(i: nat) -> nat
    decreases i,
{
    if i <= 1 {
        0
    } else {
        1 + depth(i / 2)
    }
}

/// Byte of a node that is allocated as one block, in a tree whose leaves have order `max_order`.
pub open spec fn occupied_mark(max_order: nat) -> nat {
    0x80 + max_order + 1
}

/// A node's byte without its occupied bit.
pub open spec fn low7(b: u8) -> nat {
    if b >= 0x80 {
        (b - 0x80) as nat
    } else {
        b as nat
    }
}

/// The smaller of two numbers.
pub open spec fn min_nat(a: nat, b: nat) -> nat {
    if a <= b {
        a
    } else {
        b
    }
}

/// The byte that a free internal node at depth `d` holds, given its children's bytes: its own
/// depth where both children are wholly free, otherwise the smaller of theirs.
pub open spec fn combine(l: u8, r: u8, d: nat) -> nat {
    if l == d + 1 && r == d + 1 {
        d
    } else {
        min_nat(low7(l), low7(r))
    }
}

/// Node `i` is consistent with its children, in a tree whose leaves have order `max_order`.
pub open spec fn node_ok(m: Seq<u8>, max_order: nat, i: nat) -> bool {
    let v = m[i as int];
    if v >= 0x80 {
        &&& v == occupied_mark(max_order)
        &&& i < pow2(max_order) ==> m[(2 * i) as int] == depth(i) + 1 && m[(2 * i + 1) as int] == depth(i) + 1
    } else {
        &&& depth(i) <= v <= max_order + 1
        &&& if i >= pow2(max_order) {
            v == max_order
        } else {
            v == combine(m[(2 * i) as int], m[(2 * i + 1) as int], depth(i))
        }
    }
}

/// Number of bytes of a tree whose leaves have order `max_order` (index 0 included).
pub open spec fn tree_len(max_order: nat) -> nat {
    2 * pow2(max_order)
}

/// `m` is a well-formed tree whose leaves have order `max_order`.
pub open spec fn tree_wf(m: Seq<u8>, max_order: nat) -> bool {
    &&& max_order + 1 < 0x80
    &&& m.len() == tree_len(max_order)
    &&& forall|i: nat| 1 <= i < tree_len(max_order) ==> #[trigger] node_ok(m, max_order, i)
}

/// Every node of `m` but `skip` is consistent with its children.
pub open spec fn tree_wf_but(m: Seq<u8>, max_order: nat, skip: nat) -> bool {
    &&& max_order + 1 < 0x80
    &&& m.len() == tree_len(max_order)
    &&& forall|i: nat| 1 <= i < tree_len(max_order) && i != skip ==> #[trigger] node_ok(m, max_order, i)
}

/// No strict ancestor of node `i` is allocated.
pub open spec fn anc_free(m: Seq<u8>, i: nat) -> bool
    decreases i,
{
    if i <= 1 {
        true
    } else {
        m[(i / 2) as int] < 0x80 && anc_free(m, i / 2)
    }
}

/// Node `i` is a free block: nothing inside it and nothing around it is allocated.
pub open spec fn avail(m: Seq<u8>, i: nat) -> bool {
    m[i as int] == depth(i) && anc_free(m, i)
}

/// The nodes of `m` that are allocated as blocks.
pub open spec fn allocated(m: Seq<u8>, max_order: nat) -> Set<nat> {
    Set::new(|i: nat| 1 <= i < tree_len(max_order) && m[i as int] >= 0x80)
}

/// `j` is `a` or lies below it.
pub open spec fn is_desc(j: nat, a: nat) -> bool
    decreases j,
{
    if j <= a {
        j == a
    } else {
        is_desc(j / 2, a)
    }
}

/// Index `i` lies at depth `depth(i)`: between `2^depth(i)` and `2^(depth(i)+1)`.
pub proof fn lemma_depth_bounds(i: nat)
    requires
        i >= 1,
    ensures
        pow2(depth(i)) <= i < pow2(depth(i) + 1),
    decreases i,
{
    lemma_pow2_unfold(depth(i) + 1);
    if i > 1 {
        lemma_depth_bounds(i / 2);
        lemma_pow2_unfold(depth(i));
        lemma_pow2_unfold(depth(i / 2) + 1);
    } else {
        assert(pow2(0) == 1) by {
            vstd::arithmetic::power2::lemma2_to64();
        }
    }
}

/// The indices between `2^k` and `2^(k+1)` are those at depth `k`.
pub proof fn lemma_depth_of_level(i: nat, k: nat)
    requires
        pow2(k) <= i < pow2(k + 1),
    ensures
        depth(i) == k,
{
    lemma_pow2_pos(k);
    lemma_depth_bounds(i);
    let d = depth(i);
    if d < k {
        if d + 1 < k {
            lemma_pow2_strictly_increases(d + 1, k);
        }
    } else if d > k {
        if k + 1 < d {
            lemma_pow2_strictly_increases(k + 1, d);
        }
    }
}

/// The children of node `i` lie one level below it.
pub proof fn lemma_depth_children(i: nat)
    requires
        i >= 1,
    ensures
        depth(2 * i) == depth(i) + 1,
        depth(2 * i + 1) == depth(i) + 1,
{
    assert((2 * i) / 2 == i);
    assert((2 * i + 1) / 2 == i);
}

/// Every node of a tree lies at a depth no greater than its leaves' order, exactly that for
/// the leaves.
pub proof fn lemma_depth_in_tree(i: nat, max_order: nat)
    requires
        1 <= i < tree_len(max_order),
    ensures
        depth(i) <= max_order,
        depth(i) == max_order <==> i >= pow2(max_order),
{
    lemma_depth_bounds(i);
    lemma_pow2_unfold(max_order + 1);
    lemma_pow2_pos(max_order);
    if depth(i) > max_order {
        if depth(i) > max_order + 1 {
            lemma_pow2_strictly_increases(max_order + 1, depth(i));
        }
    }
    if i >= pow2(max_order) {
        lemma_depth_of_level(i, max_order);
    } else if depth(i) == max_order {
    }
}

/// The byte of a node is never below its depth, free or allocated.
pub proof fn lemma_low7_at_least_depth(m: Seq<u8>, max_order: nat, i: nat)
    requires
        tree_wf(m, max_order),
        1 <= i < tree_len(max_order),
    ensures
        depth(i) <= low7(m[i as int]) <= max_order + 1,
{
    assert(node_ok(m, max_order, i));
    lemma_depth_in_tree(i, max_order);
}

/// A free internal node that holds its own depth has both children wholly free.
pub proof fn lemma_free_children(m: Seq<u8>, max_order: nat, i: nat)
    requires
        tree_wf(m, max_order),
        1 <= i < pow2(max_order),
        m[i as int] == depth(i),
    ensures
        m[(2 * i) as int] == depth(i) + 1,
        m[(2 * i + 1) as int] == depth(i) + 1,
{
    lemma_pow2_unfold(max_order + 1);
    assert(node_ok(m, max_order, i));
    lemma_depth_children(i);
    lemma_low7_at_least_depth(m, max_order, 2 * i);
    lemma_low7_at_least_depth(m, max_order, 2 * i + 1);
}

/// A node that does not hold its own depth has no allocated ancestor: below an allocated
/// node every byte holds its depth.
pub proof fn lemma_anc_free_of_busy(m: Seq<u8>, max_order: nat, i: nat)
    requires
        tree_wf(m, max_order),
        1 <= i < tree_len(max_order),
        m[i as int] != depth(i),
    ensures
        anc_free(m, i),
    decreases i,
{
    if i > 1 {
        let p = i / 2;
        lemma_depth_bounds(i);
        lemma_pow2_unfold(max_order + 1);
        lemma_depth_in_tree(i, max_order);
        lemma_depth_in_tree(p, max_order);
        assert(depth(i) == depth(p) + 1);
        assert(p < pow2(max_order)) by {
            if p >= pow2(max_order) {
                lemma_depth_in_tree(p, max_order);
            }
        }
        assert(node_ok(m, max_order, p));
        assert(i == 2 * p || i == 2 * p + 1);
        if m[p as int] >= 0x80 {
            assert(false);
        }
        if m[p as int] == depth(p) {
            lemma_free_children(m, max_order, p);
            assert(false);
        }
        lemma_anc_free_of_busy(m, max_order, p);
    }
}

/// Along a path of free ancestors the bytes never grow going up: the root's byte is at most
/// that of any node with no allocated ancestor.
pub proof fn lemma_root_at_most(m: Seq<u8>, max_order: nat, i: nat)
    requires
        tree_wf(m, max_order),
        1 <= i < tree_len(max_order),
        anc_free(m, i),
        m[i as int] < 0x80,
    ensures
        m[1] <= m[i as int],
    decreases i,
{
    if i > 1 {
        let p = i / 2;
        lemma_depth_bounds(i);
        lemma_pow2_unfold(max_order + 1);
        lemma_depth_in_tree(i, max_order);
        lemma_depth_in_tree(p, max_order);
        assert(p < pow2(max_order));
        assert(node_ok(m, max_order, p));
        assert(i == 2 * p || i == 2 * p + 1);
        lemma_depth_children(p);
        lemma_low7_at_least_depth(m, max_order, 2 * p);
        lemma_low7_at_least_depth(m, max_order, 2 * p + 1);
        lemma_root_at_most(m, max_order, p);
    }
}

/// `anc_free` of `i` reads only bytes below index `i`.
pub proof fn lemma_anc_free_frame(m1: Seq<u8>, m2: Seq<u8>, i: nat)
    requires
        forall|j: int| 0 <= j < i ==> m1[j] == m2[j],
    ensures
        anc_free(m1, i) == anc_free(m2, i),
    decreases i,
{
    if i > 1 {
        lemma_anc_free_frame(m1, m2, i / 2);
    }
}

} // verus!

verus! {

/// Node `i` overlaps none of the blocks in `s`: none lies inside it, none contains it.
pub open spec fn free_in(s: Set<nat>, i: nat) -> bool {
    forall|b: nat| s.contains(b) ==> !is_desc(b, i) && !is_desc(i, b)
}

/// Dividing by `2^t` walks `t` levels up: the result is an ancestor.
pub proof fn lemma_desc_of_shift(i: nat, t: nat)
    requires
        i >= 1,
    ensures
        is_desc(i, i / pow2(t)),
    decreases t,
{
    if t == 0 {
        assert(pow2(0) == 1) by {
            vstd::arithmetic::power2::lemma2_to64();
        }
    } else {
        lemma_pow2_unfold(t);
        lemma_pow2_pos((t - 1) as nat);
        vstd::arithmetic::div_mod::lemma_div_denominator(i as int, 2, pow2((t - 1) as nat) as int);
        if i / 2 >= 1 {
            lemma_desc_of_shift(i / 2, (t - 1) as nat);
        } else {
            assert(i == 1);
            assert(1nat / pow2(t) == 0) by {
                vstd::arithmetic::power2::lemma_pow2_strictly_increases(0, t);
                assert(pow2(0) == 1) by {
                    vstd::arithmetic::power2::lemma2_to64();
                }
            }
            assert(is_desc(0, 0));
        }
    }
}

/// A node below a child of `a` is below `a`.
pub proof fn lemma_desc_through_child(k: nat, c: nat, a: nat)
    requires
        a >= 1,
        c == 2 * a || c == 2 * a + 1,
        is_desc(k, c),
    ensures
        is_desc(k, a),
    decreases k,
{
    assert(c / 2 == a);
    assert(is_desc(a, a));
    if k != c {
        lemma_desc_index(k, c);
        lemma_desc_through_child(k / 2, c, a);
    }
}

/// A node below `a` is `a`, or lies below one of its children.
pub proof fn lemma_desc_split(k: nat, a: nat)
    requires
        a >= 1,
        is_desc(k, a),
        k != a,
    ensures
        is_desc(k, 2 * a) || is_desc(k, 2 * a + 1),
    decreases k,
{
    if k / 2 != a {
        lemma_desc_split(k / 2, a);
    }
}

/// Nodes below `a` lie at least as deep as `a`, and strictly below it lie strictly deeper.
pub proof fn lemma_desc_index(k: nat, a: nat)
    requires
        a >= 1,
        is_desc(k, a),
    ensures
        k >= a,
        depth(k) >= depth(a),
        k != a ==> depth(k) > depth(a),
    decreases k,
{
    if k != a {
        lemma_desc_index(k / 2, a);
    }
}

/// Below a wholly free node, every byte holds its depth.
pub proof fn lemma_pristine_below(m: Seq<u8>, max_order: nat, a: nat, j: nat)
    requires
        tree_wf(m, max_order),
        1 <= a,
        j < tree_len(max_order),
        m[a as int] == depth(a),
        is_desc(j, a),
    ensures
        m[j as int] == depth(j),
    decreases j,
{
    if j != a {
        let p = j / 2;
        lemma_desc_index(j, a);
        lemma_pristine_below(m, max_order, a, p);
        lemma_pow2_unfold(max_order + 1);
        assert(p < pow2(max_order));
        lemma_free_children(m, max_order, p);
        assert(j == 2 * p || j == 2 * p + 1);
    }
}

/// With no allocated ancestor, every strict ancestor's byte is free.
pub proof fn lemma_anc_free_ancestor(m: Seq<u8>, i: nat, a: nat)
    requires
        anc_free(m, i),
        1 <= a,
        is_desc(i, a),
        a != i,
    ensures
        m[a as int] < 0x80,
    decreases i,
{
    if i / 2 != a {
        lemma_anc_free_ancestor(m, i / 2, a);
    }
}

/// A node with nothing allocated inside it holds its own depth.
pub proof fn lemma_empty_subtree_is_free(m: Seq<u8>, max_order: nat, j: nat)
    requires
        tree_wf(m, max_order),
        1 <= j < tree_len(max_order),
        forall|k: nat| 1 <= k < tree_len(max_order) && is_desc(k, j) ==> #[trigger] m[k as int] < 0x80,
    ensures
        m[j as int] == depth(j),
    decreases max_order - depth(j),
{
    lemma_depth_in_tree(j, max_order);
    assert(node_ok(m, max_order, j));
    assert(is_desc(j, j));
    if j < pow2(max_order) {
        lemma_pow2_unfold(max_order + 1);
        lemma_depth_children(j);
        assert forall|k: nat| 1 <= k < tree_len(max_order) && is_desc(k, 2 * j) implies #[trigger] m[k as int] < 0x80 by {
            lemma_desc_through_child(k, 2 * j, j);
        }
        assert forall|k: nat| 1 <= k < tree_len(max_order) && is_desc(k, 2 * j + 1) implies #[trigger] m[k as int] < 0x80 by {
            lemma_desc_through_child(k, 2 * j + 1, j);
        }
        lemma_depth_in_tree(2 * j, max_order);
        lemma_empty_subtree_is_free(m, max_order, 2 * j);
        lemma_empty_subtree_is_free(m, max_order, 2 * j + 1);
    }
}

/// In a well-formed tree a node is a free block exactly when it overlaps no allocated block.
pub proof fn lemma_avail_iff_free_in(m: Seq<u8>, max_order: nat, i: nat)
    requires
        tree_wf(m, max_order),
        1 <= i < tree_len(max_order),
    ensures
        avail(m, i) <==> free_in(allocated(m, max_order), i),
{
    let s = allocated(m, max_order);
    if avail(m, i) {
        assert forall|b: nat| s.contains(b) implies !is_desc(b, i) && !is_desc(i, b) by {
            if is_desc(b, i) {
                lemma_pristine_below(m, max_order, i, b);
                lemma_depth_in_tree(b, max_order);
            }
            if is_desc(i, b) {
                if b == i {
                } else {
                    lemma_anc_free_ancestor(m, i, b);
                }
            }
        }
    }
    if free_in(s, i) {
        assert forall|k: nat| 1 <= k < tree_len(max_order) && is_desc(k, i) implies #[trigger] m[k as int] < 0x80 by {
            if m[k as int] >= 0x80 {
                assert(s.contains(k));
            }
        }
        lemma_empty_subtree_is_free(m, max_order, i);
        lemma_anc_free_of_free_in(m, max_order, i);
    }
}

/// A node with no allocated block above it or at it has no allocated ancestor.
proof fn lemma_anc_free_of_free_in(m: Seq<u8>, max_order: nat, i: nat)
    requires
        tree_wf(m, max_order),
        1 <= i < tree_len(max_order),
        forall|b: nat| allocated(m, max_order).contains(b) ==> !is_desc(i, b),
    ensures
        anc_free(m, i),
    decreases i,
{
    if i > 1 {
        let p = i / 2;
        assert(is_desc(p, p));
        assert(is_desc(i, p));
        if m[p as int] >= 0x80 {
            assert(allocated(m, max_order).contains(p));
        }
        assert forall|b: nat| allocated(m, max_order).contains(b) implies !is_desc(p, b) by {
            if is_desc(p, b) {
                lemma_desc_index(p, b);
                assert(is_desc(i, b));
            }
        }
        lemma_anc_free_of_free_in(m, max_order, p);
    }
}

/// Two well-formed trees with the same allocated blocks are the same tree.
pub proof fn lemma_tree_determined(m1: Seq<u8>, m2: Seq<u8>, max_order: nat, i: nat)
    requires
        tree_wf(m1, max_order),
        tree_wf(m2, max_order),
        allocated(m1, max_order) == allocated(m2, max_order),
        1 <= i < tree_len(max_order),
    ensures
        m1[i as int] == m2[i as int],
    decreases max_order - depth(i),
{
    lemma_depth_in_tree(i, max_order);
    assert(node_ok(m1, max_order, i));
    assert(node_ok(m2, max_order, i));
    assert(allocated(m1, max_order).contains(i) == allocated(m2, max_order).contains(i));
    assert(allocated(m1, max_order).contains(i) == (m1[i as int] >= 0x80));
    assert(allocated(m2, max_order).contains(i) == (m2[i as int] >= 0x80));
    if i < pow2(max_order) {
        lemma_pow2_unfold(max_order + 1);
        lemma_depth_children(i);
        lemma_depth_in_tree(2 * i, max_order);
        lemma_depth_in_tree(2 * i + 1, max_order);
        lemma_tree_determined(m1, m2, max_order, 2 * i);
        lemma_tree_determined(m1, m2, max_order, 2 * i + 1);
        assert(m1[(2 * i) as int] == m2[(2 * i) as int]);
        assert(m1[(2 * i + 1) as int] == m2[(2 * i + 1) as int]);
    }
}

} // verus!

verus! {

/// Along a path of free ancestors the bytes never grow going up, from any node to any of its
/// ancestors.
pub proof fn lemma_ancestor_at_most(m: Seq<u8>, max_order: nat, j: nat, c: nat)
    requires
        tree_wf(m, max_order),
        1 <= c,
        1 <= j < tree_len(max_order),
        is_desc(j, c),
        anc_free(m, j),
        m[j as int] < 0x80,
    ensures
        m[c as int] <= m[j as int],
    decreases j,
{
    if j != c {
        let p = j / 2;
        lemma_desc_index(j, c);
        lemma_depth_bounds(j);
        lemma_pow2_unfold(max_order + 1);
        lemma_depth_in_tree(j, max_order);
        lemma_depth_in_tree(p, max_order);
        assert(p < pow2(max_order));
        assert(node_ok(m, max_order, p));
        assert(j == 2 * p || j == 2 * p + 1);
        lemma_depth_children(p);
        lemma_low7_at_least_depth(m, max_order, 2 * p);
        lemma_low7_at_least_depth(m, max_order, 2 * p + 1);
        lemma_ancestor_at_most(m, max_order, p, c);
    }
}

/// The nodes `t` levels below `c` are those between `c * 2^t` and `(c + 1) * 2^t`.
pub proof fn lemma_desc_range(j: nat, c: nat, t: nat)
    requires
        c >= 1,
        c * pow2(t) <= j < (c + 1) * pow2(t),
    ensures
        is_desc(j, c),
{
    lemma_pow2_pos(t);
    vstd::arithmetic::div_mod::lemma_div_is_ordered((c * pow2(t)) as int, j as int, pow2(t) as int);
    vstd::arithmetic::div_mod::lemma_div_multiples_vanish(c as int, pow2(t) as int);
    assert(j / pow2(t) < c + 1) by {
        let p = pow2(t) as int;
        let q = j as int / p;
        vstd::arithmetic::div_mod::lemma_fundamental_div_mod(j as int, p);
        vstd::arithmetic::div_mod::lemma_mod_pos_bound(j as int, p);
        assert(q < c + 1) by (nonlinear_arith)
            requires
                j == p * q + (j as int % p),
                0 <= j as int % p,
                j < (c + 1) * p,
                p > 0,
        ;
    }
    assert(j >= 1) by (nonlinear_arith)
        requires
            c >= 1,
            pow2(t) >= 1,
            c * pow2(t) <= j,
    ;
    lemma_desc_of_shift(j, t);
}

} // verus!

verus! {

/// A tree where every node holds its depth is well formed, with nothing allocated.
pub proof fn lemma_pristine_wf(m: Seq<u8>, max_order: nat)
    requires
        max_order + 1 < 0x80,
        m.len() == tree_len(max_order),
        forall|j: nat| 1 <= j < tree_len(max_order) ==> #[trigger] m[j as int] == depth(j),
    ensures
        tree_wf(m, max_order),
        allocated(m, max_order) == Set::<nat>::empty(),
{
    assert forall|i: nat| 1 <= i < tree_len(max_order) implies #[trigger] node_ok(m, max_order, i) by {
        lemma_depth_in_tree(i, max_order);
        assert(m[i as int] == depth(i));
        if i < pow2(max_order) {
            lemma_pow2_unfold(max_order + 1);
            lemma_depth_children(i);
            assert(m[(2 * i) as int] == depth(2 * i));
            assert(m[(2 * i + 1) as int] == depth(2 * i + 1));
        }
    }
    assert forall|i: nat| !allocated(m, max_order).contains(i) by {
        if 1 <= i < tree_len(max_order) {
            lemma_depth_in_tree(i, max_order);
            assert(m[i as int] == depth(i));
        }
    }
    assert(allocated(m, max_order) =~= Set::<nat>::empty());
}

/// Index 0 takes no part in the tree.
pub proof fn lemma_flag_frame(m: Seq<u8>, max_order: nat, x: u8)
    requires
        tree_wf(m, max_order),
    ensures
        tree_wf(m.update(0, x), max_order),
        allocated(m.update(0, x), max_order) == allocated(m, max_order),
{
    lemma_pow2_pos(max_order);
    let m2 = m.update(0, x);
    assert forall|i: nat| 1 <= i < tree_len(max_order) implies #[trigger] node_ok(m2, max_order, i) by {
        assert(node_ok(m, max_order, i));
    }
    assert(allocated(m2, max_order) =~= allocated(m, max_order));
}

} // verus!

verus! {

/// No allocated block lies inside another.
pub proof fn lemma_allocated_antichain(m: Seq<u8>, max_order: nat, i: nat, j: nat)
    requires
        tree_wf(m, max_order),
        allocated(m, max_order).contains(i),
        allocated(m, max_order).contains(j),
        i != j,
    ensures
        !is_desc(j, i),
{
    if is_desc(j, i) {
        lemma_desc_index(j, i);
        lemma_depth_in_tree(i, max_order);
        lemma_depth_in_tree(j, max_order);
        assert(node_ok(m, max_order, i));
        if i < pow2(max_order) {
            lemma_pow2_unfold(max_order + 1);
            lemma_depth_children(i);
            lemma_desc_split(j, i);
            if is_desc(j, 2 * i) {
                lemma_pristine_below(m, max_order, 2 * i, j);
            } else {
                lemma_pristine_below(m, max_order, 2 * i + 1, j);
            }
        }
    }
}

} // verus!
