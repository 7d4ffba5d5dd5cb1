//! The buddy engine: an arena's free tree, how blocks are taken from it and given back.
use vstd::arithmetic::power2::{lemma_pow2_pos, lemma_pow2_unfold, pow2};
use vstd::prelude::*;

use crate::bits::{
    is_pow2, is_smallest_pow2_at_least, lemma_log2_monotone, lemma_log2_pow2, lemma_pow2_at_most_half_u64,
    lemma_pow2_fits_u64, lemma_round_up_fixed, log2,
};
use crate::error::BuddyError;
use crate::layout::Layout;
use crate::math::math64::round_up_2;
use crate::order::{buddy_size_spec, order_spec, request_len, BuddySize, Order};
use crate::{MAX_SUPPORTED_ALIGN, MIN_BUDDY_NB, MIN_CELL_LEN};
use crate::tree::{
    allocated, anc_free, avail, combine, depth, lemma_anc_free_frame, lemma_anc_free_of_busy,
    is_desc, lemma_ancestor_at_most, lemma_avail_iff_free_in, lemma_desc_of_shift, lemma_desc_range,
    free_in,
    lemma_depth_bounds, lemma_depth_children, lemma_depth_in_tree, lemma_free_children,
    lemma_allocated_antichain, lemma_depth_of_level, lemma_empty_subtree_is_free, lemma_flag_frame,
    lemma_low7_at_least_depth, lemma_tree_determined,
    lemma_pristine_wf,
    lemma_root_at_most, low7, node_ok, tree_len, tree_wf, tree_wf_but,
};

verus! {

/// Facts on the bits of a node's byte.
proof fn lemma_byte_bits(b: u8)
    ensures
        (b & 0x80 == 0) == (b < 0x80),
        (b & 0x7f) as nat == low7(b),
{
    assert((b & 0x80 == 0) == (b < 0x80)) by (bit_vector);
    assert(b & 0x7f == if b >= 0x80 { (b - 0x80) as u8 } else { b }) by (bit_vector);
}

/// A region of `len` bytes at address `addr` can be cut into cells of `cell` bytes: the cell
/// size and the length are powers of two within bounds (or the length is the whole address
/// space), and the address is aligned to the length, up to a page.
pub open spec fn region_ok(cell: nat, len: nat, addr: nat) -> bool {
    &&& cell >= MIN_CELL_LEN
    &&& cell <= usize::MAX / MIN_BUDDY_NB + 1
    &&& is_pow2(cell)
    &&& len == usize::MAX || (len >= cell * MIN_BUDDY_NB && is_pow2(len))
    &&& addr % (if len > MAX_SUPPORTED_ALIGN {
        MAX_SUPPORTED_ALIGN as nat
    } else {
        len
    }) == 0
}

/// Length in bytes of a block at heap node `i`, in an arena of `arena` bytes.
pub open spec fn block_len(i: nat, arena: nat) -> nat {
    arena / pow2(depth(i))
}

/// Offset from the arena's start of the block at heap node `i`.
pub open spec fn block_start(i: nat, arena: nat) -> nat {
    block_len(i, arena) * ((i - pow2(depth(i))) as nat)
}

/// The heap node of order `order` whose block holds byte `offset`.
pub open spec fn node_at(offset: nat, order: nat, arena: nat) -> nat {
    pow2(order) + offset * pow2(order) / arena
}

/// Length of the arena's prefix that holds the tree, where the tree lives in the arena.
pub open spec fn meta_len(cell: nat, arena: nat) -> nat {
    if arena / cell * 2 > cell {
        arena / cell * 2
    } else {
        cell
    }
}

/// Check that a region of `len` bytes at address `addr` can be cut into cells of `M` bytes;
/// where it can, the number of bytes that its tree takes.
pub fn check<const M: usize>(len: usize, addr: usize) -> (r: Option<usize>)
    ensures
        r is Some <==> region_ok(M as nat, len as nat, addr as nat),
        r matches Some(n) ==> n == len / M * 2,
{
    if M < MIN_CELL_LEN || M > usize::MAX / MIN_BUDDY_NB + 1 {
        return None;
    }
    let rm = round_up_2(M as u64);
    proof {
        lemma_round_up_fixed(rm as nat, M as nat);
    }
    if rm != M as u64 {
        return None;
    }
    if len != usize::MAX {
        if len / MIN_BUDDY_NB < M {
            return None;
        }
        if len as u64 > 0x8000_0000_0000_0000 {
            proof {
                if is_pow2(len as nat) {
                    lemma_pow2_at_most_half_u64(len as nat);
                }
            }
            return None;
        }
        let rl = round_up_2(len as u64);
        proof {
            lemma_round_up_fixed(rl as nat, len as nat);
        }
        if rl != len as u64 {
            return None;
        }
    }
    let current_align = if len > MAX_SUPPORTED_ALIGN {
        MAX_SUPPORTED_ALIGN
    } else {
        len
    };
    if addr % current_align != 0 {
        return None;
    }
    proof {
        vstd::arithmetic::div_mod::lemma_div_is_ordered_by_denominator(len as int, 8, M as int);
    }
    Some(len / M * 2)
}

/// A block handed out: its offset from the arena's start and its length.
#[derive(Debug, Clone, Copy, PartialEq, Eq)]
pub struct Block {
    pub offset: usize,
    pub len: usize,
}

/// The sizes of a valid region fit together: the leaves' order is the difference of the
/// exponents, and the tree's length is twice the number of cells.
proof fn lemma_shape(cell: nat, arena: nat, addr: nat)
    requires
        region_ok(cell, arena, addr),
        arena != usize::MAX,
        arena <= usize::MAX,
    ensures
        log2(cell) + 2 <= log2(arena),
        pow2(log2(cell)) == cell,
        pow2(log2(arena)) == arena,
        arena / cell == pow2((log2(arena) - log2(cell)) as nat),
        log2(arena) < 64,
        log2(cell) >= 3,
        arena < usize::MAX,
        arena >= 4 * cell,
        4 <= arena / cell <= arena / 8,
{
    vstd::arithmetic::div_mod::lemma_div_is_ordered_by_denominator(arena as int, 8, cell as int);
    vstd::arithmetic::div_mod::lemma_div_is_ordered((4 * cell) as int, arena as int, cell as int);
    vstd::arithmetic::div_mod::lemma_div_multiples_vanish(4, cell as int);
    let la = log2(arena);
    let lc = log2(cell);
    lemma_pow2_fits_u64(la);
    vstd::arithmetic::power2::lemma2_to64();
    lemma_log2_pow2(3);
    lemma_log2_monotone(8, cell);
    if la < lc + 2 {
        if la > lc {
            vstd::arithmetic::power2::lemma_pow2_strictly_increases(la, lc + 2);
        } else if la < lc {
            vstd::arithmetic::power2::lemma_pow2_strictly_increases(la, lc);
        }
        vstd::arithmetic::power2::lemma_pow2_adds(lc, 2);
    }
    vstd::arithmetic::power2::lemma_pow2_subtracts(lc, la);
}

/// A power of two that fits a word has an exponent below the word's width.
proof fn lemma_usize_shift_fits(k: nat)
    requires
        pow2(k) <= usize::MAX,
    ensures
        k < usize::BITS,
{
    vstd::arithmetic::power2::lemma2_to64();
    vstd::arithmetic::power2::lemma2_to64_rest();
    if k >= usize::BITS {
        if k > usize::BITS {
            vstd::arithmetic::power2::lemma_pow2_strictly_increases(usize::BITS as nat, k);
        }
    }
}

/// The block that holds a tree kept in the arena is a power of two between a cell and the
/// arena: twice the number of cells, or one cell where that is more.
proof fn lemma_meta_chunk(cell: nat, arena: nat)
    requires
        is_pow2(cell),
        cell >= 8,
        is_pow2(arena),
        log2(cell) + 2 <= log2(arena),
        arena < usize::MAX,
    ensures
        arena / cell == pow2((log2(arena) - log2(cell)) as nat),
        meta_len(cell, arena) == if 2 * pow2((log2(arena) - log2(cell)) as nat) > cell {
            2 * pow2((log2(arena) - log2(cell)) as nat)
        } else {
            cell
        },
        is_pow2(meta_len(cell, arena)),
        cell <= meta_len(cell, arena) <= arena,
        log2(cell) <= log2(meta_len(cell, arena)) <= log2(arena),
{
    let lc = log2(cell);
    let la = log2(arena);
    let d = (la - lc) as nat;
    vstd::arithmetic::power2::lemma_pow2_subtracts(lc, la);
    assert(arena / cell == pow2(d));
    vstd::arithmetic::power2::lemma_pow2_unfold(d + 1);
    let q = arena / cell * 2;
    assert(q == pow2(d + 1));
    vstd::arithmetic::div_mod::lemma_div_is_ordered_by_denominator(arena as int, 8, cell as int);
    assert(q <= arena);
    vstd::arithmetic::power2::lemma_pow2_strictly_increases(lc, la);
    let n = meta_len(cell, arena);
    if q > cell {
        assert(pow2(d + 1) == n);
    } else {
        assert(pow2(lc) == n);
    }
    assert(is_pow2(n));
    lemma_log2_monotone(cell, n);
    lemma_log2_monotone(n, arena);
}

/// Number of heap indices of the tree for cells of `cell` bytes in an arena of `arena` bytes.
pub open spec fn node_count(cell: nat, arena: nat) -> nat {
    tree_len((log2(arena) - log2(cell)) as nat)
}

/// What a request of `size` bytes aligned to `align` comes to, in an arena of `arena` bytes
/// cut in cells of `cell` bytes whose allocated blocks were `before` and are then `after`:
/// the error of the request, with nothing changed; `NoMoreSpace` exactly when no block of
/// the needed order overlaps none of `before`; otherwise the leftmost such block, now
/// allocated, which lies in the arena past its first `reserved` bytes and is aligned as asked.
pub open spec fn alloc_outcome(
    cell: nat,
    arena: nat,
    reserved: nat,
    size: nat,
    align: nat,
    before: Set<nat>,
    after: Set<nat>,
    r: Result<Block, BuddyError>,
) -> bool {
    match buddy_size_spec(size, align, cell) {
        Err(e) => r == Err::<Block, BuddyError>(e) && after == before,
        Ok(b) => match order_spec(b, arena) {
            Err(e) => r == Err::<Block, BuddyError>(e) && after == before,
            Ok(o) => {
                &&& r is Err <==> forall|j: nat|
                    1 <= j < node_count(cell, arena) && depth(j) == o ==> !#[trigger] free_in(before, j)
                &&& r is Err ==> r == Err::<Block, BuddyError>(BuddyError::NoMoreSpace) && after == before
                &&& r matches Ok(blk) ==> {
                    let i = node_at(blk.offset as nat, o, arena);
                    &&& blk.len == b
                    &&& blk.len == block_len(i, arena)
                    &&& blk.len >= size
                    &&& blk.offset == block_start(i, arena)
                    &&& reserved <= blk.offset
                    &&& blk.offset + blk.len <= arena
                    &&& (blk.offset as nat) % align == 0
                    &&& 1 <= i < node_count(cell, arena)
                    &&& depth(i) == o
                    &&& free_in(before, i)
                    &&& forall|j: nat| 1 <= j < i && depth(j) == o ==> !#[trigger] free_in(before, j)
                    &&& after == before.insert(i)
                }
            },
        },
    }
}

/// What handing back the block at `offset` for a request of `size` bytes aligned to `align`
/// does: the error of the request, or of an offset outside the arena or inside its first
/// `reserved` bytes (which hold the tree), with nothing changed;
/// otherwise the block of the request's order that holds `offset` is freed where it is
/// allocated, and `DoubleFreeOrCorruption` comes where it is not.
pub open spec fn dealloc_outcome(
    cell: nat,
    arena: nat,
    reserved: nat,
    offset: nat,
    size: nat,
    align: nat,
    before: Set<nat>,
    after: Set<nat>,
    r: Result<(), BuddyError>,
) -> bool {
    match buddy_size_spec(size, align, cell) {
        Err(e) => r == Err::<(), BuddyError>(e) && after == before,
        Ok(b) => match order_spec(b, arena) {
            Err(e) => r == Err::<(), BuddyError>(e) && after == before,
            Ok(o) => if offset >= arena || offset < reserved {
                r == Err::<(), BuddyError>(BuddyError::DoubleFreeOrCorruption) && after == before
            } else {
                let i = node_at(offset, o, arena);
                &&& r is Ok <==> before.contains(i)
                &&& r is Ok ==> after == before.remove(i)
                &&& r is Err ==> r == Err::<(), BuddyError>(BuddyError::DoubleFreeOrCorruption)
                    && after == before
            },
        },
    }
}

/// The order that a valid request comes to lies between the whole arena and a cell.
proof fn lemma_request_order(cell: nat, arena: nat, size: nat, align: nat, b: nat)
    requires
        is_pow2(cell),
        is_pow2(arena),
        arena < usize::MAX,
        log2(cell) + 2 <= log2(arena),
        is_smallest_pow2_at_least(b, request_len(size, align, cell)),
    ensures
        is_pow2(b),
        b >= cell,
        log2(b) >= log2(cell),
        order_spec(b, arena) matches Ok(o) ==> o <= log2(arena) - log2(cell) && o == log2(arena) - log2(b),
{
    lemma_log2_monotone(cell, b);
}

/// The block of heap node `i` at order `o`: its size times its rank in its level is its
/// offset, which lies in the arena, and the node that holds that offset is `i` again.
proof fn lemma_block_position(arena: nat, o: nat, i: nat)
    requires
        is_pow2(arena),
        o <= log2(arena),
        pow2(o) <= i < pow2(o + 1),
    ensures
        arena / pow2(o) * (i - pow2(o)) < arena,
        arena / pow2(o) * (i - pow2(o)) + arena / pow2(o) <= arena,
        arena / pow2(o) * pow2(o) == arena,
        node_at(arena / pow2(o) * ((i - pow2(o)) as nat), o, arena) == i,
{
    let p = pow2(o);
    let la = log2(arena);
    lemma_pow2_pos(o);
    lemma_pow2_unfold(o + 1);
    vstd::arithmetic::power2::lemma_pow2_subtracts(o, la);
    vstd::arithmetic::power2::lemma_pow2_adds((la - o) as nat, o);
    let q = arena / p;
    assert(q * p == arena);
    let x = (i - p) as nat;
    assert(q * x < arena) by (nonlinear_arith)
        requires
            q * p == arena,
            x < p,
            q > 0,
    ;
    assert(q * x + q <= arena) by (nonlinear_arith)
        requires
            q * p == arena,
            x + 1 <= p,
            q > 0,
    ;
    assert(q * x * p == x * arena) by (nonlinear_arith)
        requires
            q * p == arena,
    ;
    vstd::arithmetic::div_mod::lemma_div_multiples_vanish(x as int, arena as int);
    assert((q * x * p) / arena == x) by {
        vstd::arithmetic::power2::lemma_pow2_pos(la);
        vstd::arithmetic::div_mod::lemma_div_multiples_vanish(x as int, arena as int);
        assert(x * arena == arena * x) by (nonlinear_arith);
    }
}

/// The node of order `o` that holds an offset inside the arena lies at depth `o`.
proof fn lemma_node_at_level(offset: nat, o: nat, arena: nat)
    requires
        offset < arena,
        pow2(o) <= arena,
    ensures
        pow2(o) <= node_at(offset, o, arena) < 2 * pow2(o),
        offset * pow2(o) / arena < pow2(o),
{
    let p = pow2(o);
    lemma_pow2_pos(o);
    let q = offset * p / arena;
    vstd::arithmetic::div_mod::lemma_fundamental_div_mod((offset * p) as int, arena as int);
    vstd::arithmetic::div_mod::lemma_mod_pos_bound((offset * p) as int, arena as int);
    assert(q < p) by (nonlinear_arith)
        requires
            offset * p == arena * q + (offset * p) % arena,
            (offset * p) % arena >= 0,
            offset < arena,
            p > 0,
    ;
}

/// No offset past the arena's first `reserved` bytes falls in the leftmost block of that size.
proof fn lemma_meta_node_apart(arena: nat, reserved: nat, offset: nat, o: nat)
    requires
        is_pow2(arena),
        is_pow2(reserved),
        reserved <= arena,
        reserved <= offset < arena,
        pow2(o) <= arena,
    ensures
        node_at(offset, o, arena) != pow2((log2(arena) - log2(reserved)) as nat),
{
    let k = (log2(arena) - log2(reserved)) as nat;
    lemma_pow2_pos(o);
    lemma_pow2_pos(k);
    lemma_log2_monotone(reserved, arena);
    if node_at(offset, o, arena) == pow2(k) {
        let q = offset * pow2(o) / arena;
        lemma_node_at_level(offset, o, arena);
        if o != k {
            lemma_pow2_unfold(k + 1);
            lemma_depth_of_level(pow2(k), k);
            lemma_pow2_unfold(o + 1);
            lemma_depth_of_level(pow2(k), o);
        }
        assert(q == 0);
        vstd::arithmetic::power2::lemma_pow2_subtracts(log2(reserved), log2(arena));
        vstd::arithmetic::power2::lemma_pow2_adds(k, log2(reserved));
        vstd::arithmetic::div_mod::lemma_fundamental_div_mod((offset * pow2(k)) as int, arena as int);
        vstd::arithmetic::div_mod::lemma_mod_pos_bound((offset * pow2(k)) as int, arena as int);
        assert(offset * pow2(k) < arena);
        assert(reserved * pow2(k) == arena);
        assert(false) by (nonlinear_arith)
            requires
                offset * pow2(k) < arena,
                reserved * pow2(k) == arena,
                reserved <= offset,
        ;
    }
}

/// A block that neither lies inside nor contains the leftmost block of `reserved` bytes
/// starts past it.
proof fn lemma_clear_of_meta(arena: nat, reserved: nat, i: nat, o: nat)
    requires
        is_pow2(arena),
        is_pow2(reserved),
        reserved <= arena,
        o <= log2(arena),
        pow2(o) <= i < pow2(o + 1),
        !is_desc(i, pow2((log2(arena) - log2(reserved)) as nat)),
        !is_desc(pow2((log2(arena) - log2(reserved)) as nat), i),
    ensures
        arena / pow2(o) * ((i - pow2(o)) as nat) >= reserved,
{
    let la = log2(arena);
    let lr = log2(reserved);
    lemma_log2_monotone(reserved, arena);
    let k = (la - lr) as nat;
    lemma_pow2_pos(o);
    lemma_pow2_pos(k);
    vstd::arithmetic::power2::lemma_pow2_subtracts(o, la);
    vstd::arithmetic::power2::lemma_pow2_subtracts(k, la);
    let so = arena / pow2(o);
    assert(so == pow2((la - o) as nat));
    assert(arena / pow2(k) == reserved);
    if o >= k {
        let t = (o - k) as nat;
        vstd::arithmetic::power2::lemma_pow2_adds(k, t);
        vstd::arithmetic::power2::lemma_pow2_adds((la - o) as nat, t);
        lemma_pow2_pos(t);
        let a = i / pow2(t);
        lemma_desc_of_shift(i, t);
        vstd::arithmetic::div_mod::lemma_div_is_ordered(pow2(o) as int, i as int, pow2(t) as int);
        vstd::arithmetic::div_mod::lemma_div_multiples_vanish(pow2(k) as int, pow2(t) as int);
        assert(pow2(o) == pow2(k) * pow2(t));
        assert(a >= pow2(k));
        assert(a != pow2(k));
        vstd::arithmetic::div_mod::lemma_fundamental_div_mod(i as int, pow2(t) as int);
        vstd::arithmetic::div_mod::lemma_mod_pos_bound(i as int, pow2(t) as int);
        assert(i >= a * pow2(t)) by (nonlinear_arith)
            requires
                i == pow2(t) * a + i % pow2(t),
                i % pow2(t) >= 0,
        ;
        assert(i - pow2(o) >= pow2(t)) by (nonlinear_arith)
            requires
                i >= a * pow2(t),
                a >= pow2(k) + 1,
                pow2(o) == pow2(k) * pow2(t),
        ;
        assert(so * pow2(t) == reserved) by {
            vstd::arithmetic::power2::lemma_pow2_adds((la - o) as nat, t);
            assert((la - o) as nat + t == lr);
        }
        assert(so * ((i - pow2(o)) as nat) >= so * pow2(t)) by (nonlinear_arith)
            requires
                i - pow2(o) >= pow2(t),
                so >= 0,
        ;
    } else {
        let t = (k - o) as nat;
        vstd::arithmetic::power2::lemma_pow2_subtracts(o, k);
        lemma_desc_of_shift(pow2(k), t);
        vstd::arithmetic::power2::lemma_pow2_adds(o, t);
        assert(pow2(k) / pow2(t) == pow2(o)) by {
            vstd::arithmetic::power2::lemma_pow2_subtracts(t, k);
            assert((k - t) as nat == o);
        }
        assert(i != pow2(o));
        vstd::arithmetic::power2::lemma_pow2_strictly_increases((la - k) as nat, (la - o) as nat);
        assert(so * ((i - pow2(o)) as nat) >= so) by (nonlinear_arith)
            requires
                i - pow2(o) >= 1,
                so >= 0,
        ;
    }
}

/// A block whose size is `b`, at a multiple of `b`, is aligned to any power of two up to `b`.
proof fn lemma_aligned(b: nat, align: nat, x: nat)
    requires
        is_pow2(b),
        is_pow2(align),
        align <= b,
    ensures
        (b * x) % align == 0,
{
    let lb = log2(b);
    let la = log2(align);
    lemma_log2_monotone(align, b);
    vstd::arithmetic::power2::lemma_pow2_adds(la, (lb - la) as nat);
    lemma_pow2_pos(la);
    let c = pow2((lb - la) as nat);
    assert(b == align * c);
    assert(b * x == align * (c * x)) by (nonlinear_arith)
        requires
            b == align * c,
    ;
    vstd::arithmetic::div_mod::lemma_mod_multiples_basic((c * x) as int, align as int);
    assert((c * x) * align == align * (c * x)) by (nonlinear_arith);
}

/// Which way a change travels up the tree.
enum Op {
    Allocate,
    Deallocate,
}

/// An arena and the tree that describes it.
pub struct AddressSpaceRef<const M: usize> {
    m: Vec<u8>,
    allocable_len: usize,
    reserved: usize,
}

impl<const M: usize> AddressSpaceRef<M> {
    /// The bytes of the tree; index 0 holds the initialisation flag.
    pub closed spec fn tree(&self) -> Seq<u8> {
        self.m@
    }

    /// Length of the arena.
    pub closed spec fn arena_len(&self) -> nat {
        self.allocable_len as nat
    }

    /// Length of the arena's prefix that holds the tree, 0 where the tree is kept apart.
    pub closed spec fn reserved(&self) -> nat {
        self.reserved as nat
    }

    /// Order of the cells, the tree's leaves.
    pub open spec fn max_order(&self) -> nat {
        (log2(self.arena_len()) - log2(M as nat)) as nat
    }

    /// The sizes fit together and the tree has room for every node.
    pub open spec fn shape_ok(&self) -> bool {
        &&& is_pow2(M as nat)
        &&& M >= 8
        &&& is_pow2(self.arena_len())
        &&& self.arena_len() < usize::MAX
        &&& self.arena_len() >= 4 * M
        &&& log2(M as nat) + 2 <= log2(self.arena_len())
        &&& self.max_order() + 1 < 0x80
        &&& self.tree().len() == tree_len(self.max_order())
        &&& tree_len(self.max_order()) <= usize::MAX
    }

    /// The tree has been written and is well formed.
    pub open spec fn ready(&self) -> bool {
        &&& self.shape_ok()
        &&& self.tree()[0] == 0xff
        &&& tree_wf(self.tree(), self.max_order())
    }

    /// The blocks that are allocated, as heap indices.
    pub open spec fn allocated(&self) -> Set<nat> {
        allocated(self.tree(), self.max_order())
    }

    /// Heap node of the block that holds a tree kept inside the arena: the leftmost one of
    /// its size.
    pub open spec fn meta_node(&self) -> nat {
        pow2((log2(self.arena_len()) - log2(self.reserved())) as nat)
    }

    /// The blocks allocated in a freshly written tree: the one that holds the tree, where it
    /// lives in the arena.
    pub open spec fn initial_blocks(&self) -> Set<nat> {
        if self.reserved() > 0 {
            set![self.meta_node()]
        } else {
            Set::empty()
        }
    }

    /// The blocks that are allocated, counting those that a tree not yet written will hold.
    pub open spec fn live(&self) -> Set<nat> {
        if self.tree()[0] == 0x42 {
            self.initial_blocks()
        } else {
            self.allocated()
        }
    }

    /// The arena, its tree and its flag agree: the tree is unwritten (flag `0x42`) or written
    /// and well formed (flag `0xff`), and a tree kept in the arena holds its own block.
    pub open spec fn wf(&self) -> bool {
        &&& self.shape_ok()
        &&& self.reserved() == 0 || self.reserved() == meta_len(M as nat, self.arena_len())
        &&& self.tree()[0] == 0x42 || self.ready()
        &&& self.ready() && self.reserved() > 0 ==> self.allocated().contains(self.meta_node())
    }

    /// An arena of `arena_len` bytes at address `arena_addr`, with its tree kept in
    /// `metadata`, or in the arena's first bytes where none is given. The tree is written on
    /// first use.
    pub fn from(arena_len: usize, arena_addr: usize, metadata: Option<Vec<u8>>) -> (r: Self)
        requires
            region_ok(M as nat, arena_len as nat, arena_addr as nat),
            arena_len != usize::MAX,
            metadata matches Some(v) ==> v@.len() == arena_len / M * 2,
        ensures
            r.wf(),
            r.tree()[0] == 0x42,
            r.arena_len() == arena_len,
            r.reserved() == if metadata is Some {
                0
            } else {
                meta_len(M as nat, arena_len as nat)
            },
            metadata matches Some(v) ==> r.tree() == v@.update(0, 0x42u8),
            metadata is None ==> r.tree().len() == arena_len / M * 2 && forall|i: int|
                1 <= i < r.tree().len() ==> #[trigger] r.tree()[i] == 0,
    {
        proof {
            lemma_shape(M as nat, arena_len as nat, arena_addr as nat);
        }
        let metadata_size = arena_len / M * 2;
        let (mut m, reserved) = match metadata {
            Some(v) => (v, 0),
            None => {
                let v = vec![0u8; metadata_size];
                (v, if metadata_size > M {
                    metadata_size
                } else {
                    M
                })
            },
        };
        m.set(0, 0x42);
        AddressSpaceRef { m, allocable_len: arena_len, reserved }
    }

    /// Number of bytes of the tree, index 0 included.
    pub fn metadata_len(&self) -> (r: usize)
        ensures
            r == self.tree().len(),
    {
        self.m.len()
    }

    /// The byte of the tree at heap index `index` (index 0 holds the flag).
    pub fn tree_byte(&self, index: usize) -> (r: u8)
        requires
            index < self.tree().len(),
        ensures
            r == self.tree()[index as int],
    {
        self.m[index]
    }

    /// Recompute the leaves' order from the cell and arena sizes.
    fn leaf_order(&self) -> (r: u8)
        requires
            self.shape_ok(),
        ensures
            r as nat == self.max_order(),
    {
        match Order::try_from((BuddySize::<M>(M), BuddySize::<M>(self.allocable_len))) {
            Ok(o) => o.0,
            Err(_) => {
                proof {
                    assert(order_spec(M as nat, self.arena_len()) is Ok);
                }
                0
            },
        }
    }

    /// Write the tree: every node holds its depth, then the tree's own block is taken where
    /// it lives in the arena, and the flag is set.
    fn write_metadata(&mut self)
        requires
            old(self).shape_ok(),
            old(self).reserved() == 0 || old(self).reserved() == meta_len(M as nat, old(self).arena_len()),
        ensures
            final(self).wf(),
            final(self).ready(),
            final(self).arena_len() == old(self).arena_len(),
            final(self).reserved() == old(self).reserved(),
            final(self).allocated() == old(self).initial_blocks(),
    {
        let ghost d = self.max_order();
        let max_order = self.leaf_order();
        proof {
            lemma_pow2_unfold(d + 1);
            lemma_usize_shift_fits(d);
            vstd::bits::lemma_usize_shl_is_mul(1, max_order as usize);
        }
        let bytes_needed: usize = (1usize << max_order as usize) * 2;
        let mut current_order: u8 = 0;
        let mut members: usize = 2;
        let mut index: usize = 0;
        proof {
            assert(pow2(1) == 2 && pow2(0) == 1) by {
                vstd::arithmetic::power2::lemma2_to64();
            }
        }
        while index < bytes_needed
            invariant
                self.shape_ok(),
                d == self.max_order(),
                self.arena_len() == old(self).arena_len(),
                self.reserved() == old(self).reserved(),
                bytes_needed == tree_len(d),
                self.m@.len() == bytes_needed,
                index <= bytes_needed,
                index + members == pow2(current_order as nat + 1),
                1 <= members,
                index >= 1 ==> members <= pow2(current_order as nat),
                index == 0 ==> current_order == 0,
                current_order <= d + 1,
                pow2(d + 1) == bytes_needed,
                pow2(0) == 1,
                forall|j: nat| 1 <= j < index ==> #[trigger] self.m@[j as int] == depth(j),
            decreases bytes_needed - index,
        {
            proof {
                lemma_pow2_unfold(current_order as nat + 1);
                if index >= 1 {
                    lemma_depth_of_level(index as nat, current_order as nat);
                }
                if index < pow2(current_order as nat) {
                    assert(index == 0);
                }
            }
            members -= 1;
            self.m.set(index, current_order);
            if members == 0 {
                proof {
                    lemma_pow2_unfold(current_order as nat + 2);
                    if current_order as nat + 1 > d + 1 {
                        vstd::arithmetic::power2::lemma_pow2_strictly_increases(d + 1, current_order as nat + 1);
                    }
                    lemma_usize_shift_fits((current_order + 1) as nat);
                    vstd::bits::lemma_usize_shl_is_mul(1, (current_order + 1) as usize);
                }
                current_order += 1;
                members = 1usize << current_order as usize;
                proof {
                    assert(current_order as usize as nat == current_order as nat);
                    assert(members == pow2(current_order as nat));
                }
            }
            index += 1;
        }
        proof {
            lemma_pristine_wf(self.m@, d);
        }
        if self.reserved != 0 {
            let metadata_chunk_size = if bytes_needed > M {
                bytes_needed
            } else {
                M
            };
            let ghost m0 = self.m@;
            proof {
                lemma_meta_chunk(M as nat, self.arena_len());
                lemma_pow2_unfold(d + 1);
            }
            let order = match Order::try_from(
                (BuddySize::<M>(metadata_chunk_size), BuddySize::<M>(self.allocable_len)),
            ) {
                Ok(o) => o,
                Err(_) => {
                    proof {
                        assert(false);
                    }
                    Order(0)
                },
            };
            let ghost k = order.0 as nat;
            proof {
                lemma_pow2_pos(k);
                lemma_pow2_unfold(k + 1);
                lemma_depth_of_level(pow2(k), k);
                if k < d {
                    vstd::arithmetic::power2::lemma_pow2_strictly_increases(k, d);
                }
                lemma_avail_iff_free_in(m0, d, pow2(k));
            }
            match self.set_mark(order) {
                Ok(i) => {
                    proof {
                        if i > pow2(k) {
                            assert(!avail(m0, pow2(k)));
                        }
                        lemma_depth_bounds(i as nat);
                        assert(i == pow2(k));
                        assert(metadata_chunk_size == self.reserved());
                        assert(k == log2(self.arena_len()) - log2(self.reserved()));
                        assert(i == self.meta_node());
                        assert(self.allocated() =~= old(self).initial_blocks());
                    }
                },
                Err(_) => {
                    proof {
                        assert(!avail(m0, pow2(k)));
                    }
                },
            }
        } else {
            proof {
                assert(self.allocated() =~= old(self).initial_blocks());
            }
        }
        proof {
            lemma_pow2_pos(d);
            lemma_flag_frame(self.m@, d, 0xff);
        }
        self.m.set(0, 0xff);
    }

    /// Write the tree where it has not been written yet.
    fn check_metadata(&mut self)
        requires
            old(self).wf(),
        ensures
            final(self).wf(),
            final(self).ready(),
            final(self).arena_len() == old(self).arena_len(),
            final(self).reserved() == old(self).reserved(),
            final(self).allocated() == old(self).live(),
    {
        proof {
            lemma_pow2_pos(self.max_order());
        }
        if self.m[0] == 0x42 {
            self.write_metadata();
        }
    }

    /// Take a block for `layout`: the leftmost free one of the smallest order that holds it.
    fn alloc_block(&mut self, layout: Layout) -> (r: Result<Block, BuddyError>)
        requires
            old(self).wf(),
            old(self).ready(),
        ensures
            final(self).wf(),
            final(self).ready(),
            final(self).arena_len() == old(self).arena_len(),
            final(self).reserved() == old(self).reserved(),
            alloc_outcome(
                M as nat,
                old(self).arena_len(),
                old(self).reserved(),
                layout.size_spec(),
                layout.align_spec(),
                old(self).allocated(),
                final(self).allocated(),
                r,
            ),
    {
        let ghost d = self.max_order();
        let ghost m0 = self.m@;
        let buddy_size = match BuddySize::<M>::try_from(layout) {
            Ok(b) => b,
            Err(e) => return Err(e),
        };
        proof {
            lemma_request_order(M as nat, self.arena_len(), layout.size_spec(), layout.align_spec(), buddy_size.0 as nat);
        }
        let order = match Order::try_from((buddy_size, BuddySize::<M>(self.allocable_len))) {
            Ok(o) => o,
            Err(e) => return Err(e),
        };
        proof {
            assert forall|j: nat|
                #![trigger avail(m0, j)]
                #![trigger free_in(allocated(m0, d), j)]
                1 <= j < tree_len(d) implies avail(m0, j) == free_in(allocated(m0, d), j) by {
                lemma_avail_iff_free_in(m0, d, j);
            }
        }
        let index = match self.set_mark(order) {
            Ok(i) => i,
            Err(e) => return Err(e),
        };
        let ghost o = order.0 as nat;
        let ghost p = pow2(o);
        proof {
            lemma_depth_bounds(index as nat);
            lemma_depth_in_tree(index as nat, d);
            lemma_usize_shift_fits(o);
            assert(p <= usize::MAX);
            vstd::bits::lemma_usize_shl_is_mul(1, order.0 as usize);
            vstd::bits::lemma_usize_low_bits_mask_is_mod(index, o);
            lemma_pow2_pos(o);
            lemma_pow2_unfold(o + 1);
            assert(vstd::bits::low_bits_mask(o) == p - 1);
            vstd::arithmetic::div_mod::lemma_fundamental_div_mod_converse(
                index as int,
                p as int,
                1,
                (index - p) as int,
            );
            assert(index % (p as usize) == index - p);
            lemma_block_position(self.arena_len(), o, index as nat);
            assert(block_start(index as nat, self.arena_len()) == self.arena_len() / p * ((index - p) as nat));
            lemma_log2_monotone(M as nat, buddy_size.0 as nat);
            let lb = log2(buddy_size.0 as nat);
            vstd::arithmetic::power2::lemma_pow2_subtracts(o, log2(self.arena_len()));
            assert(self.arena_len() / p == buddy_size.0);
            let x = (index - p) as nat;
            lemma_aligned(buddy_size.0 as nat, layout.align_spec(), x);
            assert(buddy_size.0 * x == self.arena_len() / p * x);
            if self.reserved > 0 {
                lemma_meta_chunk(M as nat, self.arena_len());
                lemma_avail_iff_free_in(m0, d, index as nat);
                assert(allocated(m0, d).contains(self.meta_node()));
                lemma_clear_of_meta(self.arena_len(), self.reserved(), index as nat, o);
            }
        }
        let size_of_order = self.allocable_len / (1usize << order.0 as usize);
        let alloc_offset = size_of_order * (index & ((1usize << order.0 as usize) - 1));
        Ok(Block { offset: alloc_offset, len: buddy_size.0 })
    }

    /// Give back the block at `offset` for `layout`.
    fn dealloc(&mut self, offset: usize, layout: Layout) -> (r: Result<(), BuddyError>)
        requires
            old(self).wf(),
            old(self).ready(),
        ensures
            final(self).wf(),
            final(self).ready(),
            final(self).arena_len() == old(self).arena_len(),
            final(self).reserved() == old(self).reserved(),
            dealloc_outcome(
                M as nat,
                old(self).arena_len(),
                old(self).reserved(),
                offset as nat,
                layout.size_spec(),
                layout.align_spec(),
                old(self).allocated(),
                final(self).allocated(),
                r,
            ),
    {
        let ghost d = self.max_order();
        let buddy_size = match BuddySize::<M>::try_from(layout) {
            Ok(b) => b,
            Err(e) => return Err(e),
        };
        proof {
            lemma_request_order(M as nat, self.arena_len(), layout.size_spec(), layout.align_spec(), buddy_size.0 as nat);
        }
        let order = match Order::try_from((buddy_size, BuddySize::<M>(self.allocable_len))) {
            Ok(o) => o,
            Err(e) => return Err(e),
        };
        if offset >= self.allocable_len || offset < self.reserved {
            return Err(BuddyError::DoubleFreeOrCorruption);
        }
        let ghost o = order.0 as nat;
        proof {
            lemma_pow2_unfold(d + 1);
            lemma_pow2_pos(o);
            if o < d {
                vstd::arithmetic::power2::lemma_pow2_strictly_increases(o, d);
            }
            lemma_usize_shift_fits(o);
            vstd::bits::lemma_usize_shl_is_mul(1, order.0 as usize);
            let la = log2(self.arena_len());
            if o < la {
                vstd::arithmetic::power2::lemma_pow2_strictly_increases(o, la);
            }
            lemma_node_at_level(offset as nat, o, self.arena_len());
        }
        let start_idx: usize = 1usize << order.0 as usize;
        proof {
            assert(offset as u128 * start_idx as u128 <= u128::MAX) by (nonlinear_arith)
                requires
                    offset <= usize::MAX,
                    start_idx <= usize::MAX,
                    usize::MAX <= u64::MAX,
            ;
        }
        let index = start_idx + (offset as u128 * start_idx as u128 / self.allocable_len as u128) as usize;
        proof {
            lemma_pow2_unfold(o + 1);
            assert(index == node_at(offset as nat, o, self.arena_len()));
            lemma_depth_of_level(index as nat, o);
            if self.reserved > 0 {
                lemma_meta_chunk(M as nat, self.arena_len());
                lemma_meta_node_apart(self.arena_len(), self.reserved(), offset as nat, o);
            }
        }
        self.unset_mark(order, index)
    }

    /// Take the leftmost free block of order `order`: mark it and report it to its ancestors.
    fn set_mark(&mut self, order: Order) -> (r: Result<usize, BuddyError>)
        requires
            old(self).shape_ok(),
            tree_wf(old(self).tree(), old(self).max_order()),
            order.0 <= old(self).max_order(),
        ensures
            final(self).arena_len() == old(self).arena_len(),
            final(self).reserved() == old(self).reserved(),
            final(self).tree()[0] == old(self).tree()[0],
            final(self).shape_ok(),
            tree_wf(final(self).tree(), final(self).max_order()),
            r is Ok <==> old(self).tree()[1] <= order.0,
            r matches Ok(i) ==> final(self).tree()[i as int] == 0x80 + old(self).max_order() + 1,
            r is Err <==> forall|j: nat|
                1 <= j < tree_len(old(self).max_order()) && depth(j) == order.0 ==> !#[trigger] avail(
                    old(self).tree(),
                    j,
                ),
            r matches Err(e) ==> e == BuddyError::NoMoreSpace && final(self).tree() == old(self).tree(),
            r matches Ok(i) ==> {
                &&& 1 <= i < tree_len(old(self).max_order())
                &&& depth(i as nat) == order.0
                &&& avail(old(self).tree(), i as nat)
                &&& forall|j: nat|
                    1 <= j < i && depth(j) == order.0 ==> !#[trigger] avail(old(self).tree(), j)
                &&& final(self).allocated() == old(self).allocated().insert(i as nat)
            },
    {
        let ghost d = self.max_order();
        let ghost m0 = self.m@;
        proof {
            lemma_pow2_unfold(d + 1);
            lemma_pow2_pos(d);
        }
        if order.0 < self.m[1] {
            proof {
                assert forall|j: nat|
                    1 <= j < tree_len(d) && depth(j) == order.0 implies !#[trigger] avail(m0, j) by {
                    if avail(m0, j) {
                        lemma_root_at_most(m0, d, j);
                    }
                }
            }
            return Err(BuddyError::NoMoreSpace);
        }
        let mut index: usize = 1;
        let mut current_order: u8 = 0;
        proof {
            assert forall|j: nat|
                1 <= j < tree_len(d) && depth(j) == order.0 && j < 1 * pow2(order.0 as nat) implies !#[trigger] avail(m0, j) by {
                lemma_depth_bounds(j);
            }
        }
        while current_order < order.0
            invariant
                self.m@ == m0,
                self.shape_ok(),
                d == self.max_order(),
                tree_wf(m0, d),
                order.0 <= d,
                current_order <= order.0,
                1 <= index < tree_len(d),
                depth(index as nat) == current_order,
                m0[index as int] <= order.0,
                anc_free(m0, index as nat),
                forall|j: nat|
                    1 <= j < tree_len(d) && depth(j) == order.0 && j < index * pow2(
                        (order.0 - current_order) as nat,
                    ) ==> !#[trigger] avail(m0, j),
            decreases order.0 - current_order,
        {
            proof {
                lemma_depth_in_tree(index as nat, d);
                lemma_depth_bounds(index as nat);
                lemma_depth_children(index as nat);
                assert(index < pow2(d)) by {
                    if index >= pow2(d) {
                        lemma_depth_in_tree(index as nat, d);
                    }
                }
                assert(node_ok(m0, d, index as nat));
                assert(node_ok(m0, d, 2 * index as nat));
                assert(node_ok(m0, d, (2 * index + 1) as nat));
                lemma_low7_at_least_depth(m0, d, 2 * index as nat);
                lemma_low7_at_least_depth(m0, d, (2 * index + 1) as nat);
            }
            let ghost old_index = index;
            let ghost t = (order.0 - current_order) as nat;
            index = if self.m[2 * index] <= order.0 {
                2 * index
            } else {
                2 * index + 1
            };
            current_order += 1;
            proof {
                lemma_pow2_unfold(t);
                let h = pow2((t - 1) as nat);
                assert(old_index * pow2(t) == 2 * old_index * h) by (nonlinear_arith)
                    requires
                        pow2(t) == 2 * h,
                ;
                if index == 2 * old_index + 1 {
                    assert forall|j: nat|
                        1 <= j < tree_len(d) && depth(j) == order.0 && j < index * pow2(
                            (order.0 - current_order) as nat,
                        ) implies !#[trigger] avail(m0, j) by {
                        if j >= 2 * old_index * h {
                            assert((2 * old_index + 1) * h == 2 * old_index * h + h) by (nonlinear_arith);
                            lemma_desc_range(j, 2 * old_index as nat, (t - 1) as nat);
                            if avail(m0, j) {
                                lemma_ancestor_at_most(m0, d, j, 2 * old_index as nat);
                            }
                        }
                    }
                }
            }
        }
        proof {
            lemma_depth_in_tree(index as nat, d);
            assert(node_ok(m0, d, index as nat));
            if index < pow2(d) {
                lemma_free_children(m0, d, index as nat);
            }
            assert(avail(m0, index as nat));
            assert(pow2(0) == 1) by {
                vstd::arithmetic::power2::lemma2_to64();
            }
            assert forall|j: nat| 1 <= j < index && depth(j) == order.0 implies !#[trigger] avail(m0, j) by {
                assert(current_order == order.0);
                assert((order.0 - current_order) as nat == 0nat);
                assert(index * pow2(0nat) == index);
                assert(j < index * pow2((order.0 - current_order) as nat));
            }
        }
        let max_order = self.leaf_order();
        self.m.set(index, 0x80 + max_order + 1);
        proof {
            let m1 = self.m@;
            assert forall|i: nat| 1 <= i < tree_len(d) && i != index / 2 implies #[trigger] node_ok(m1, d, i) by {
                assert(node_ok(m0, d, i));
                if i != index {
                    assert(2 * i != index && 2 * i + 1 != index);
                }
            }
            lemma_anc_free_frame(m0, m1, index as nat);
        }
        self.modify_parents(index, Order(current_order), Op::Allocate);
        proof {
            assert(self.allocated() =~= allocated(m0, d).insert(index as nat));
        }
        Ok(index)
    }

    /// Give back the block at heap index `index`, of order `order`, where it is allocated.
    fn unset_mark(&mut self, order: Order, index: usize) -> (r: Result<(), BuddyError>)
        requires
            old(self).shape_ok(),
            tree_wf(old(self).tree(), old(self).max_order()),
            1 <= index < tree_len(old(self).max_order()),
            depth(index as nat) == order.0,
        ensures
            final(self).arena_len() == old(self).arena_len(),
            final(self).reserved() == old(self).reserved(),
            final(self).tree()[0] == old(self).tree()[0],
            final(self).shape_ok(),
            tree_wf(final(self).tree(), final(self).max_order()),
            r is Ok <==> old(self).allocated().contains(index as nat),
            r matches Err(e) ==> e == BuddyError::DoubleFreeOrCorruption && final(self).tree()
                == old(self).tree(),
            r is Ok ==> final(self).allocated() == old(self).allocated().remove(index as nat),
            r is Ok ==> final(self).tree()[index as int] == order.0,
    {
        let ghost d = self.max_order();
        let ghost m0 = self.m@;
        proof {
            lemma_byte_bits(m0[index as int]);
        }
        if self.m[index] & 0x80 == 0 {
            return Err(BuddyError::DoubleFreeOrCorruption);
        }
        proof {
            lemma_depth_in_tree(index as nat, d);
            assert(node_ok(m0, d, index as nat));
            lemma_anc_free_of_busy(m0, d, index as nat);
            lemma_depth_children(index as nat);
        }
        self.m.set(index, order.0);
        proof {
            let m1 = self.m@;
            assert forall|i: nat| 1 <= i < tree_len(d) && i != index / 2 implies #[trigger] node_ok(m1, d, i) by {
                assert(node_ok(m0, d, i));
                if i != index {
                    assert(2 * i != index && 2 * i + 1 != index);
                }
            }
            lemma_anc_free_frame(m0, m1, index as nat);
        }
        self.modify_parents(index, order, Op::Deallocate);
        proof {
            assert(self.allocated() =~= allocated(m0, d).remove(index as nat));
        }
        Ok(())
    }

    /// Carry the change of node `index` up to the root, stopping where a parent keeps its byte.
    fn modify_parents(&mut self, index: usize, order: Order, op: Op)
        requires
            old(self).shape_ok(),
            tree_wf_but(old(self).tree(), old(self).max_order(), (index / 2) as nat),
            1 <= index < tree_len(old(self).max_order()),
            depth(index as nat) == order.0,
            anc_free(old(self).tree(), index as nat),
            op is Allocate ==> old(self).tree()[index as int] != depth(index as nat),
        ensures
            final(self).arena_len() == old(self).arena_len(),
            final(self).reserved() == old(self).reserved(),
            final(self).shape_ok(),
            tree_wf(final(self).tree(), final(self).max_order()),
            final(self).tree()[0] == old(self).tree()[0],
            forall|j: int|
                0 <= j < final(self).tree().len() ==> (#[trigger] final(self).tree()[j] >= 0x80)
                    == (old(self).tree()[j] >= 0x80),
            forall|j: int|
                index <= j < final(self).tree().len() ==> #[trigger] final(self).tree()[j] == old(
                    self,
                ).tree()[j],
    {
        let ghost d = self.max_order();
        let ghost m0 = self.m@;
        let ghost start = index;
        let mut index = index;
        let mut order = order;
        while index > 1
            invariant
                self.shape_ok(),
                d == self.max_order(),
                self.arena_len() == old(self).arena_len(),
                self.reserved() == old(self).reserved(),
                self.m@.len() == m0.len(),
                self.m@[0] == m0[0],
                tree_wf_but(self.m@, d, (index / 2) as nat),
                1 <= index < tree_len(d),
                depth(index as nat) == order.0,
                anc_free(self.m@, index as nat),
                op is Allocate ==> self.m@[index as int] != depth(index as nat),
                forall|j: int| 0 <= j < m0.len() ==> (#[trigger] self.m@[j] >= 0x80) == (m0[j] >= 0x80),
                index <= start,
                forall|j: int| start <= j < m0.len() ==> #[trigger] self.m@[j] == m0[j],
            ensures
                tree_wf(self.m@, d),
                forall|j: int| start <= j < m0.len() ==> #[trigger] self.m@[j] == m0[j],
            decreases index,
        {
            let ghost m = self.m@;
            let parent = index / 2;
            let child_left = 2 * parent;
            let child_right = child_left + 1;
            proof {
                lemma_depth_in_tree(index as nat, d);
                lemma_depth_in_tree(parent as nat, d);
                lemma_depth_children(parent as nat);
                assert(parent < pow2(d)) by {
                    if parent >= pow2(d) {
                        lemma_depth_in_tree(parent as nat, d);
                    }
                }
                assert(node_ok(m, d, child_left as nat));
                assert(node_ok(m, d, child_right as nat));
                lemma_byte_bits(m[child_left as int]);
                lemma_byte_bits(m[child_right as int]);
                lemma_depth_in_tree(child_left as nat, d);
                lemma_depth_in_tree(child_right as nat, d);
            }
            let left = self.m[child_left] & 0x7f;
            let right = self.m[child_right] & 0x7f;
            let new_indice = match op {
                Op::Allocate => if left < right {
                    left
                } else {
                    right
                },
                Op::Deallocate => {
                    if self.m[child_left] == order.0 && self.m[child_right] == order.0 {
                        order.0 - 1
                    } else if left < right {
                        left
                    } else {
                        right
                    }
                },
            };
            proof {
                assert(new_indice as nat == combine(m[child_left as int], m[child_right as int], depth(parent as nat)));
                assert(depth(parent as nat) <= new_indice <= d + 1);
            }
            if self.m[parent] != new_indice {
                self.m.set(parent, new_indice);
                proof {
                    let m1 = self.m@;
                    assert forall|i: nat| 1 <= i < tree_len(d) && i != parent / 2 implies #[trigger] node_ok(m1, d, i) by {
                        if i != parent {
                            assert(node_ok(m, d, i));
                            assert(2 * i != parent && 2 * i + 1 != parent);
                        }
                    }
                    lemma_anc_free_frame(m, m1, parent as nat);
                }
                order.0 = order.0 - 1;
                index = parent;
            } else {
                proof {
                    assert forall|i: nat| 1 <= i < tree_len(d) implies #[trigger] node_ok(m, d, i) by {
                        if i != parent {
                            assert(node_ok(m, d, i));
                        }
                    }
                }
                break ;
            }
        }
    }
}

} // verus!

verus! {

/// The metadata of an arena that is set aside ahead of time: a tree of `SIZE / M * 2` bytes
/// whose flag says that it is still to be written.
pub struct StaticAddressSpace<const SIZE: usize, const M: usize> {
    m: Vec<u8>,
}

impl<const SIZE: usize, const M: usize> StaticAddressSpace<SIZE, M> {
    /// The bytes of the tree.
    pub closed spec fn metadata(&self) -> Seq<u8> {
        self.m@
    }

    /// A fresh tree for an arena of `SIZE` bytes cut in cells of `M` bytes, to be written on
    /// first use.
    pub fn new() -> (r: Self)
        requires
            M >= 2,
            SIZE / M >= 1,
        ensures
            r.metadata().len() == SIZE / M * 2,
            r.metadata()[0] == 0x42,
            forall|i: int| 1 <= i < r.metadata().len() ==> #[trigger] r.metadata()[i] == 0,
    {
        proof {
            vstd::arithmetic::div_mod::lemma_div_is_ordered_by_denominator(SIZE as int, 2, M as int);
        }
        let mut metadata = vec![0u8; SIZE / M * 2];
        metadata.set(0, 0x42);
        StaticAddressSpace { m: metadata }
    }
}

impl<const M: usize> AddressSpaceRef<M> {
    /// The arena of a statically reserved region at address `arena_addr`, with the tree kept
    /// apart in `space`.
    pub fn from_static<const SIZE: usize>(space: StaticAddressSpace<SIZE, M>, arena_addr: usize) -> (r: Self)
        requires
            region_ok(M as nat, SIZE as nat, arena_addr as nat),
            SIZE != usize::MAX,
            space.metadata().len() == SIZE / M * 2,
            space.metadata()[0] == 0x42,
        ensures
            r.wf(),
            r.tree()[0] == 0x42,
            r.arena_len() == SIZE,
            r.reserved() == 0,
    {
        proof {
            lemma_shape(M as nat, SIZE as nat, arena_addr as nat);
        }
        AddressSpaceRef { m: space.m, allocable_len: SIZE, reserved: 0 }
    }
}

/// The buddy engine of an arena, which writes its tree on first use.
pub struct InnerBuddy<const M: usize>(AddressSpaceRef<M>);

impl<const M: usize> InnerBuddy<M> {
    /// The arena and its tree.
    pub closed spec fn space(&self) -> AddressSpaceRef<M> {
        self.0
    }

    /// The engine's arena is consistent with its tree.
    pub open spec fn wf(&self) -> bool {
        self.space().wf()
    }

    /// The blocks that are allocated, counting those that a tree not yet written will hold.
    pub open spec fn live(&self) -> Set<nat> {
        self.space().live()
    }

    /// The arena and its tree, to read.
    pub fn space_ref(&self) -> (r: &AddressSpaceRef<M>)
        ensures
            *r == self.space(),
    {
        &self.0
    }

    /// An engine over `address_space_ref`.
    pub fn new(address_space_ref: AddressSpaceRef<M>) -> (r: Self)
        requires
            address_space_ref.wf(),
        ensures
            r.space() == address_space_ref,
    {
        InnerBuddy(address_space_ref)
    }

    /// Take a block for `layout`, writing the tree first where it is not yet written.
    pub fn alloc_block(&mut self, layout: Layout) -> (r: Result<Block, BuddyError>)
        requires
            old(self).wf(),
        ensures
            final(self).wf(),
            final(self).space().ready(),
            final(self).space().arena_len() == old(self).space().arena_len(),
            final(self).space().reserved() == old(self).space().reserved(),
            alloc_outcome(
                M as nat,
                old(self).space().arena_len(),
                old(self).space().reserved(),
                layout.size_spec(),
                layout.align_spec(),
                old(self).live(),
                final(self).live(),
                r,
            ),
    {
        self.0.check_metadata();
        self.0.alloc_block(layout)
    }

    /// Give back the block at `offset` for `layout`, writing the tree first where it is not
    /// yet written.
    pub fn dealloc(&mut self, offset: usize, layout: Layout) -> (r: Result<(), BuddyError>)
        requires
            old(self).wf(),
        ensures
            final(self).wf(),
            final(self).space().ready(),
            final(self).space().arena_len() == old(self).space().arena_len(),
            final(self).space().reserved() == old(self).space().reserved(),
            dealloc_outcome(
                M as nat,
                old(self).space().arena_len(),
                old(self).space().reserved(),
                offset as nat,
                layout.size_spec(),
                layout.align_spec(),
                old(self).live(),
                final(self).live(),
                r,
            ),
    {
        self.0.check_metadata();
        self.0.dealloc(offset, layout)
    }

    /// Setting a block aside by index is not provided: the tree is written, nothing else
    /// changes, and `Unsupported` comes back.
    pub fn reserve(&mut self, _index: usize, _size: usize) -> (r: Result<(), BuddyError>)
        requires
            old(self).wf(),
        ensures
            final(self).wf(),
            final(self).space().ready(),
            final(self).space().arena_len() == old(self).space().arena_len(),
            final(self).space().reserved() == old(self).space().reserved(),
            final(self).live() == old(self).live(),
            r == Err::<(), BuddyError>(BuddyError::Unsupported),
    {
        self.0.check_metadata();
        Err(BuddyError::Unsupported)
    }

    /// Releasing a block set aside by index is not provided: the tree is written, nothing
    /// else changes, and `Unsupported` comes back.
    pub fn unreserve(&mut self, _index: usize) -> (r: Result<(), BuddyError>)
        requires
            old(self).wf(),
        ensures
            final(self).wf(),
            final(self).space().ready(),
            final(self).space().arena_len() == old(self).space().arena_len(),
            final(self).space().reserved() == old(self).space().reserved(),
            final(self).live() == old(self).live(),
            r == Err::<(), BuddyError>(BuddyError::Unsupported),
    {
        self.0.check_metadata();
        Err(BuddyError::Unsupported)
    }
}

/// Write the tree of `space` now rather than on first use.
pub fn static_init<const M: usize>(space: &mut AddressSpaceRef<M>)
    requires
        old(space).wf(),
    ensures
        final(space).wf(),
        final(space).ready(),
        final(space).arena_len() == old(space).arena_len(),
        final(space).reserved() == old(space).reserved(),
        final(space).allocated() == old(space).live(),
{
    space.check_metadata();
}

/// An engine over `space`, whose tree is left as it is until first use.
pub fn static_attach<const M: usize>(space: AddressSpaceRef<M>) -> (r: InnerBuddy<M>)
    requires
        space.wf(),
    ensures
        r.space() == space,
{
    InnerBuddy::new(space)
}

} // verus!

verus! {

impl<const M: usize> AddressSpaceRef<M> {
    /// The root's byte: the order of the largest free block, one past the cells' order where
    /// nothing is free, or the mark of a root allocated whole; never above the cells' order
    /// while some block is free.
    pub proof fn lemma_root_byte(&self, j: nat)
        requires
            self.ready(),
        ensures
            self.tree()[1] <= self.max_order() + 1 || self.tree()[1] == 0x80 + self.max_order() + 1,
            1 <= j < tree_len(self.max_order()) && free_in(self.allocated(), j) ==> self.tree()[1]
                <= self.max_order(),
    {
        let m = self.tree();
        let d = self.max_order();
        lemma_pow2_pos(d);
        assert(node_ok(m, d, 1));
        if 1 <= j < tree_len(d) && free_in(self.allocated(), j) {
            lemma_avail_iff_free_in(m, d, j);
            lemma_depth_in_tree(j, d);
            lemma_root_at_most(m, d, j);
        }
    }

    /// Every free internal node agrees with its children: it holds its own depth where both
    /// children are wholly free, and otherwise the smaller of their bytes without the occupied
    /// bit.
    pub proof fn lemma_tree_consistent(&self, i: nat)
        requires
            self.ready(),
            1 <= i < pow2(self.max_order()),
            self.tree()[i as int] & 0x80 == 0,
        ensures
            ({
                let m = self.tree();
                let l = m[(2 * i) as int];
                let r = m[(2 * i + 1) as int];
                if l == depth(i) + 1 && r == depth(i) + 1 {
                    m[i as int] == depth(i)
                } else {
                    m[i as int] & 0x7f == if l & 0x7f <= r & 0x7f {
                        l & 0x7f
                    } else {
                        r & 0x7f
                    }
                }
            }),
    {
        let m = self.tree();
        let d = self.max_order();
        lemma_pow2_unfold(d + 1);
        assert(node_ok(m, d, i));
        lemma_byte_bits(m[i as int]);
        lemma_byte_bits(m[(2 * i) as int]);
        lemma_byte_bits(m[(2 * i + 1) as int]);
    }

    /// Distinct allocated blocks never overlap.
    pub proof fn lemma_blocks_disjoint(&self, i: nat, j: nat)
        requires
            self.ready(),
            self.allocated().contains(i),
            self.allocated().contains(j),
            i != j,
        ensures
            block_start(i, self.arena_len()) + block_len(i, self.arena_len()) <= block_start(
                j,
                self.arena_len(),
            ) || block_start(j, self.arena_len()) + block_len(j, self.arena_len()) <= block_start(
                i,
                self.arena_len(),
            ),
    {
        let m = self.tree();
        let d = self.max_order();
        lemma_allocated_antichain(m, d, i, j);
        lemma_allocated_antichain(m, d, j, i);
        lemma_depth_in_tree(i, d);
        lemma_depth_in_tree(j, d);
        if depth(i) <= depth(j) {
            lemma_apart(self.arena_len(), i, j, d);
        } else {
            lemma_apart(self.arena_len(), j, i, d);
        }
    }
}

/// Blocks of nodes neither of which lies below the other do not overlap.
proof fn lemma_apart(arena: nat, i: nat, j: nat, max_order: nat)
    requires
        is_pow2(arena),
        max_order <= log2(arena),
        1 <= i < tree_len(max_order),
        1 <= j < tree_len(max_order),
        depth(i) <= depth(j),
        !is_desc(j, i),
        i != j,
    ensures
        block_start(i, arena) + block_len(i, arena) <= block_start(j, arena) || block_start(j, arena)
            + block_len(j, arena) <= block_start(i, arena),
{
    let la = log2(arena);
    let di = depth(i);
    let e = depth(j);
    let t = (e - di) as nat;
    lemma_depth_in_tree(i, max_order);
    lemma_depth_in_tree(j, max_order);
    lemma_depth_bounds(i);
    lemma_depth_bounds(j);
    lemma_pow2_pos(t);
    lemma_pow2_pos(di);
    lemma_pow2_pos(e);
    lemma_pow2_unfold(di + 1);
    lemma_pow2_unfold(e + 1);
    vstd::arithmetic::power2::lemma_pow2_adds(di, t);
    vstd::arithmetic::power2::lemma_pow2_subtracts(di, la);
    vstd::arithmetic::power2::lemma_pow2_subtracts(e, la);
    vstd::arithmetic::power2::lemma_pow2_adds((la - e) as nat, t);
    let sj = arena / pow2(e);
    let si = arena / pow2(di);
    assert(si == sj * pow2(t));
    let a = j / pow2(t);
    lemma_desc_of_shift(j, t);
    assert(a != i);
    vstd::arithmetic::div_mod::lemma_fundamental_div_mod(j as int, pow2(t) as int);
    vstd::arithmetic::div_mod::lemma_mod_pos_bound(j as int, pow2(t) as int);
    let r = j % pow2(t);
    assert(j == pow2(t) * a + r);
    // a lies at depth di, like i
    assert(pow2(di) <= a < pow2(di + 1)) by {
        assert(pow2(di) * pow2(t) <= j);
        assert(2 * pow2(e) == 2 * pow2(di) * pow2(t)) by (nonlinear_arith)
            requires
                pow2(e) == pow2(di) * pow2(t),
        ;
        assert(j < 2 * pow2(di) * pow2(t));
        assert(pow2(di) <= a) by (nonlinear_arith)
            requires
                pow2(di) * pow2(t) <= j,
                j == pow2(t) * a + r,
                r < pow2(t),
                pow2(t) > 0,
        ;
        assert(a < 2 * pow2(di)) by (nonlinear_arith)
            requires
                j < 2 * pow2(di) * pow2(t),
                j == pow2(t) * a + r,
                r >= 0,
                pow2(t) > 0,
        ;
    }
    let x = (j - pow2(e)) as nat;
    let y = (a - pow2(di)) as nat;
    let z = (i - pow2(di)) as nat;
    assert(block_start(j, arena) == sj * x);
    assert(block_start(i, arena) == si * z);
    assert(x == pow2(t) * y + r) by (nonlinear_arith)
        requires
            j == pow2(t) * a + r,
            pow2(e) == pow2(di) * pow2(t),
            x == j - pow2(e),
            y == a - pow2(di),
    ;
    if a < i {
        assert(y + 1 <= z);
        assert(sj * x + sj <= si * z) by (nonlinear_arith)
            requires
                x == pow2(t) * y + r,
                r + 1 <= pow2(t),
                y + 1 <= z,
                si == sj * pow2(t),
                sj >= 0,
        ;
    } else {
        assert(z + 1 <= y);
        assert(si * z + si <= sj * x) by (nonlinear_arith)
            requires
                x == pow2(t) * y + r,
                r >= 0,
                z + 1 <= y,
                si == sj * pow2(t),
                sj >= 0,
        ;
    }
}

} // verus!

verus! {

/// Two written trees of the same arena with the same allocated blocks are equal byte for byte.
proof fn lemma_same_blocks_same_tree<const M: usize>(a: AddressSpaceRef<M>, b: AddressSpaceRef<M>)
    requires
        a.ready(),
        b.ready(),
        a.arena_len() == b.arena_len(),
        a.allocated() == b.allocated(),
    ensures
        a.tree() == b.tree(),
{
    let d = a.max_order();
    assert forall|i: int| 0 <= i < a.tree().len() implies a.tree()[i] == b.tree()[i] by {
        if i >= 1 {
            lemma_tree_determined(a.tree(), b.tree(), d, i as nat);
        }
    }
    assert(a.tree() =~= b.tree());
}

/// Taking a block and giving it straight back with the same layout succeeds and leaves the
/// tree exactly as it was.
pub proof fn lemma_alloc_dealloc_restores<const M: usize>(
    before: InnerBuddy<M>,
    mid: InnerBuddy<M>,
    after: InnerBuddy<M>,
    layout: Layout,
    blk: Block,
    r: Result<(), BuddyError>,
)
    requires
        before.wf(),
        before.space().ready(),
        mid.wf(),
        after.wf(),
        after.space().ready(),
        mid.space().arena_len() == before.space().arena_len(),
        after.space().arena_len() == before.space().arena_len(),
        alloc_outcome(
            M as nat,
            before.space().arena_len(),
            before.space().reserved(),
            layout.size_spec(),
            layout.align_spec(),
            before.live(),
            mid.live(),
            Ok(blk),
        ),
        dealloc_outcome(
            M as nat,
            before.space().arena_len(),
            before.space().reserved(),
            blk.offset as nat,
            layout.size_spec(),
            layout.align_spec(),
            mid.live(),
            after.live(),
            r,
        ),
    ensures
        r is Ok,
        after.space().tree() == before.space().tree(),
{
    let arena = before.space().arena_len();
    let b = buddy_size_spec(layout.size_spec(), layout.align_spec(), M as nat)->Ok_0;
    let o = order_spec(b, arena)->Ok_0;
    let i = node_at(blk.offset as nat, o, arena);
    assert(is_desc(i, i));
    assert(!before.live().contains(i));
    lemma_depth_bounds(i);
    lemma_depth_in_tree(i, before.space().max_order());
    lemma_block_position(arena, o, i);
    assert(blk.offset < arena);
    assert(after.live() =~= before.live());
    lemma_same_blocks_same_tree(after.space(), before.space());
}

/// Taking the whole arena from an empty allocator succeeds, and giving it back brings the
/// root back to order 0.
pub proof fn lemma_whole_arena_round_trip<const M: usize>(
    before: InnerBuddy<M>,
    mid: InnerBuddy<M>,
    after: InnerBuddy<M>,
    layout: Layout,
    r1: Result<Block, BuddyError>,
    r2: Result<(), BuddyError>,
)
    requires
        before.wf(),
        before.live() == Set::<nat>::empty(),
        buddy_size_spec(layout.size_spec(), layout.align_spec(), M as nat) == Ok::<nat, BuddyError>(
            before.space().arena_len(),
        ),
        mid.wf(),
        after.wf(),
        after.space().ready(),
        mid.space().arena_len() == before.space().arena_len(),
        after.space().arena_len() == before.space().arena_len(),
        alloc_outcome(
            M as nat,
            before.space().arena_len(),
            before.space().reserved(),
            layout.size_spec(),
            layout.align_spec(),
            before.live(),
            mid.live(),
            r1,
        ),
        r1 matches Ok(blk) ==> dealloc_outcome(
            M as nat,
            before.space().arena_len(),
            before.space().reserved(),
            blk.offset as nat,
            layout.size_spec(),
            layout.align_spec(),
            mid.live(),
            after.live(),
            r2,
        ),
    ensures
        r1 is Ok,
        r2 is Ok,
        after.space().tree()[1] == 0,
{
    let s = before.space();
    let arena = s.arena_len();
    let d = s.max_order();
    lemma_log2_pow2(log2(arena));
    assert(order_spec(arena, arena) == Ok::<nat, BuddyError>(0));
    lemma_pow2_pos(d);
    assert(pow2(0) == 1) by {
        vstd::arithmetic::power2::lemma2_to64();
    }
    assert(free_in(before.live(), 1));
    assert(depth(1) == 0);
    let blk = r1->Ok_0;
    let i = node_at(blk.offset as nat, 0, arena);
    assert(is_desc(i, i));
    assert(after.live() =~= Set::<nat>::empty());
    let a = after.space();
    assert forall|k: nat| 1 <= k < tree_len(d) && is_desc(k, 1) implies #[trigger] a.tree()[k as int] < 0x80 by {
        assert(!a.allocated().contains(k));
    }
    lemma_empty_subtree_is_free(a.tree(), d, 1);
}

} // verus!
