//! A bump allocator over a fixed arena, which hands out blocks from the top down and never
//! takes them back.
use vstd::arithmetic::power2::pow2;
use vstd::prelude::*;

use crate::bits::{is_pow2, lemma_pow2_fits_u64};
use crate::layout::Layout;
use crate::MAX_SUPPORTED_ALIGN;

verus! {

/// Length of the bump allocator's arena.
pub const ARENA_SIZE: usize = 128 * 1024;

/// A bump allocator: the bytes below `remaining` are still free.
pub struct SimpleAllocator {
    pub remaining: usize,
}

impl SimpleAllocator {
    /// A bump allocator with its whole arena free.
    pub fn init() -> (r: Self)
        ensures
            r.remaining == ARENA_SIZE,
    {
        SimpleAllocator { remaining: ARENA_SIZE }
    }

    /// Take `layout.size()` bytes from the top of the free part, aligned down to
    /// `layout.align()`: nothing where the alignment is above a page or the size above what
    /// is left; otherwise the offset of the block, which is also what is left afterwards.
    pub fn alloc_block(&mut self, layout: Layout) -> (r: Option<usize>)
        ensures
            r is None <==> layout.align_spec() > MAX_SUPPORTED_ALIGN || layout.size_spec()
                > old(self).remaining,
            r is None ==> final(self).remaining == old(self).remaining,
            r matches Some(o) ==> {
                &&& o == (old(self).remaining - layout.size_spec()) as nat / layout.align_spec()
                    * layout.align_spec()
                &&& o + layout.size_spec() <= old(self).remaining
                &&& o as nat % layout.align_spec() == 0
                &&& final(self).remaining == o
            },
    {
        let size = layout.size();
        let align = layout.align();
        let ghost k = choose|k: nat| pow2(k) == align;
        proof {
            vstd::arithmetic::power2::lemma_pow2_pos(k);
        }
        if align > MAX_SUPPORTED_ALIGN {
            return None;
        }
        let align_mask_to_round_down = !(align - 1);
        if size > self.remaining {
            return None;
        }
        let x = self.remaining - size;
        let allocated = x & align_mask_to_round_down;
        proof {
            lemma_pow2_fits_u64(k);
            assert(k < usize::BITS) by {
                vstd::arithmetic::power2::lemma2_to64();
                if k >= usize::BITS {
                    if k > usize::BITS {
                        vstd::arithmetic::power2::lemma_pow2_strictly_increases(usize::BITS as nat, k);
                    }
                }
            }
            assert(x & !((align - 1) as usize) == (x - (x & ((align - 1) as usize))) as usize) by (bit_vector);
            vstd::bits::lemma_usize_low_bits_mask_is_mod(x, k);
            assert(vstd::bits::low_bits_mask(k) == align - 1);
            vstd::arithmetic::div_mod::lemma_fundamental_div_mod(x as int, align as int);
            vstd::arithmetic::div_mod::lemma_mod_multiples_basic((x / align) as int, align as int);
            assert((x / align) * align == align * (x / align)) by (nonlinear_arith);
            assert(allocated == (x / align) * align);
        }
        self.remaining = allocated;
        Some(allocated)
    }
}

} // verus!
