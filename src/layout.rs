use vstd::prelude::*;

use crate::bits::{is_pow2, lemma_low_mask_is_pow2_minus_one, lemma_pow2_fits_u64};

verus! {

/// The size and alignment that a request asks for.
#[derive(Debug, Clone, Copy)]
pub struct Layout {
    size: usize,
    align: usize,
}

/// A size and an alignment make a layout: the alignment is a power of two, and the size,
/// rounded up to a multiple of it, stays within `isize::MAX`.
pub open spec fn valid_layout(size: nat, align: nat) -> bool {
    &&& is_pow2(align)
    &&& size + align - 1 <= isize::MAX
}

impl Layout {
    /// The size asked for.
    pub closed spec fn size_spec(&self) -> nat {
        self.size as nat
    }

    /// The alignment asked for.
    pub closed spec fn align_spec(&self) -> nat {
        self.align as nat
    }

    #[verifier::type_invariant]
    spec fn inv(&self) -> bool {
        valid_layout(self.size as nat, self.align as nat)
    }

    /// A layout of `size` bytes aligned to `align`, where the two make one.
    pub fn from_size_align(size: usize, align: usize) -> (r: Option<Layout>)
        ensures
            r is Some <==> valid_layout(size as nat, align as nat),
            r matches Some(l) ==> l.size_spec() == size && l.align_spec() == align,
    {
        if align == 0 || align & (align - 1) != 0 {
            proof {
                if is_pow2(align as nat) {
                    let k = choose|k: nat| vstd::arithmetic::power2::pow2(k) == align;
                    vstd::arithmetic::power2::lemma_pow2_pos(k);
                    lemma_pow2_fits_u64(k);
                    vstd::bits::lemma_u64_pow2_no_overflow(k);
                    let a = align as u64;
                    let kk = k as u64;
                    vstd::bits::lemma_u64_shl_is_mul(1, kk);
                    assert(a & ((a - 1) as u64) == 0) by (bit_vector)
                        requires
                            a == 1u64 << kk,
                    ;
                    assert(align & ((align - 1) as usize) == 0) by (bit_vector)
                        requires
                            a & ((a - 1) as u64) == 0,
                            a == align as u64,
                    ;
                }
            }
            return None;
        }
        proof {
            let a = align as u64;
            let s = (a - 1) as u64;
            assert(s & ((s + 1) as u64) == 0 && s < 0x8000_0000_0000_0000) by (bit_vector)
                requires
                    align != 0,
                    align & ((align - 1) as usize) == 0,
                    a == align as u64,
                    s == (a - 1) as u64,
            ;
            lemma_low_mask_is_pow2_minus_one(s);
        }
        if align - 1 > isize::MAX as usize || size > isize::MAX as usize - (align - 1) {
            return None;
        }
        Some(Layout { size, align })
    }

    /// The size asked for.
    pub fn size(&self) -> (r: usize)
        ensures
            r == self.size_spec(),
            valid_layout(self.size_spec(), self.align_spec()),
    {
        proof {
            use_type_invariant(self);
        }
        self.size
    }

    /// The alignment asked for.
    pub fn align(&self) -> (r: usize)
        ensures
            r == self.align_spec(),
            valid_layout(self.size_spec(), self.align_spec()),
    {
        proof {
            use_type_invariant(self);
        }
        self.align
    }
}

} // verus!
