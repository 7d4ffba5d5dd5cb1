use vstd::arithmetic::power2::pow2;
use vstd::prelude::*;

use crate::bits::{
    is_pow2, is_smallest_pow2_at_least, lemma_log2_pow2, lemma_odd_multiple_of_pow2,
    lemma_smallest_pow2_unique, log2,
};
use crate::error::BuddyError;
use crate::layout::{valid_layout, Layout};
use crate::math::math64::{round_up_2, trailing_zero_right};
use crate::MAX_SUPPORTED_ALIGN;

verus! {

/// Size of a block of the tree: a power of two between the cell size `M` and the arena.
#[derive(Debug, Clone, Copy)]
pub struct BuddySize<const M: usize>(pub usize);

/// Depth of a block in the tree: the whole arena has order 0, each halving adds one.
#[derive(Debug, Clone, Copy)]
pub struct Order(pub u8);

/// The largest block that a word can describe: a quarter of the address space.
pub open spec fn max_buddy_size() -> nat {
    (usize::MAX / 4 + 1) as nat
}

/// The larger of a request's size, its alignment and the cell size.
pub open spec fn request_len(size: nat, align: nat, cell: nat) -> nat {
    let a = if size >= align { size } else { align };
    if a >= cell { a } else { cell }
}

/// What a request of `size` bytes aligned to `align` comes to, with cells of `cell` bytes:
/// the error, or the size of the block that serves it.
pub open spec fn buddy_size_spec(size: nat, align: nat, cell: nat) -> Result<nat, BuddyError> {
    let s = request_len(size, align, cell);
    if s > max_buddy_size() {
        Err(BuddyError::TooBigSize)
    } else if align > MAX_SUPPORTED_ALIGN {
        Err(BuddyError::TooBigAlignment)
    } else {
        Ok(choose|r: nat| is_smallest_pow2_at_least(r, s))
    }
}

/// Exponent of an arena's size; the whole address space counts as `2^BITS`.
pub open spec fn arena_pow(arena: nat) -> nat {
    if arena == usize::MAX {
        usize::BITS as nat
    } else {
        log2(arena)
    }
}

/// The order of a block of `buddy` bytes in an arena of `arena` bytes, or `CannotFit`.
pub open spec fn order_spec(buddy: nat, arena: nat) -> Result<nat, BuddyError> {
    if log2(buddy) > arena_pow(arena) {
        Err(BuddyError::CannotFit)
    } else {
        Ok((arena_pow(arena) - log2(buddy)) as nat)
    }
}

/// An arena length that the tree can describe: a power of two, or the whole address space.
pub open spec fn arena_len_ok(arena: nat) -> bool {
    arena == usize::MAX || is_pow2(arena)
}

/// The trailing zeros of a power of two count its exponent.
proof fn lemma_trailing_zeros_of_pow2(n: nat, r: nat)
    requires
        is_pow2(n),
        n % pow2(r) == 0,
        (n / pow2(r)) % 2 == 1,
    ensures
        r == log2(n),
{
    let k = choose|k: nat| pow2(k) == n;
    lemma_odd_multiple_of_pow2(k, r);
    lemma_log2_pow2(k);
}

impl<const M: usize> BuddySize<M> {
    /// The block size that serves `layout`: the smallest power of two that holds its size,
    /// its alignment and one cell.
    pub fn try_from(layout: Layout) -> (r: Result<BuddySize<M>, BuddyError>)
        ensures
            valid_layout(layout.size_spec(), layout.align_spec()),
            r matches Ok(b) ==> buddy_size_spec(layout.size_spec(), layout.align_spec(), M as nat)
                == Ok::<nat, BuddyError>(b.0 as nat),
            r matches Ok(b) ==> is_smallest_pow2_at_least(
                b.0 as nat,
                request_len(layout.size_spec(), layout.align_spec(), M as nat),
            ),
            r matches Err(e) ==> buddy_size_spec(layout.size_spec(), layout.align_spec(), M as nat)
                == Err::<nat, BuddyError>(e),
    {
        let size = layout.size();
        let align = layout.align();
        proof {
            vstd::arithmetic::power2::lemma_pow2_pos(log2(layout.align_spec()));
        }
        let a = if size >= align { size } else { align };
        let s = if a >= M { a } else { M };
        if s > usize::MAX / 4 + 1 {
            Err(BuddyError::TooBigSize)
        } else if align > MAX_SUPPORTED_ALIGN {
            Err(BuddyError::TooBigAlignment)
        } else {
            let r = round_up_2(s as u64);
            proof {
                let t = choose|q: nat| is_smallest_pow2_at_least(q, s as nat);
                lemma_smallest_pow2_unique(r as nat, t, s as nat);
            }
            Ok(BuddySize(r as usize))
        }
    }
}

impl Order {
    /// The order of a block of `pair.0` bytes in an arena of `pair.1` bytes.
    pub fn try_from<const M: usize>(pair: (BuddySize<M>, BuddySize<M>)) -> (r: Result<
        Order,
        BuddyError,
    >)
        requires
            is_pow2(pair.0.0 as nat),
            arena_len_ok(pair.1.0 as nat),
        ensures
            r matches Ok(o) ==> order_spec(pair.0.0 as nat, pair.1.0 as nat) == Ok::<
                nat,
                BuddyError,
            >(o.0 as nat),
            r matches Err(e) ==> order_spec(pair.0.0 as nat, pair.1.0 as nat) == Err::<
                nat,
                BuddyError,
            >(e),
    {
        let (buddy_size, max_buddy_size) = pair;
        proof {
            vstd::arithmetic::power2::lemma_pow2_pos(log2(buddy_size.0 as nat));
        }
        let buddy_pow = trailing_zero_right(buddy_size.0 as u64);
        proof {
            lemma_trailing_zeros_of_pow2(buddy_size.0 as nat, buddy_pow as nat);
        }
        let space_pow = if max_buddy_size.0 == usize::MAX {
            usize::BITS as u64
        } else {
            proof {
                vstd::arithmetic::power2::lemma_pow2_pos(log2(max_buddy_size.0 as nat));
            }
            let p = trailing_zero_right(max_buddy_size.0 as u64);
            proof {
                lemma_trailing_zeros_of_pow2(max_buddy_size.0 as nat, p as nat);
            }
            p
        };
        if buddy_pow > space_pow {
            Err(BuddyError::CannotFit)
        } else {
            Ok(Order((space_pow - buddy_pow) as u8))
        }
    }
}

} // verus!
