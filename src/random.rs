//! A pseudo-random sequence from a 16-bit Fibonacci linear-feedback shift register.
use vstd::prelude::*;

verus! {

/// Number of 32-bit words kept from the register's output.
pub const SEQ_SIZE: usize = 2048;

/// The bit that the register feeds back from state `s` (taps 16, 14, 13 and 11).
pub open spec fn feedback(s: u16) -> u16 {
    (s ^ (s >> 2u16) ^ (s >> 3u16) ^ (s >> 5u16)) & 1
}

/// The state after one step: shift right, feed the bit back in at the top.
pub open spec fn step(s: u16) -> u16 {
    (s >> 1u16) | (feedback(s) << 15u16)
}

/// The register's state after `n` steps from `seed`.
pub open spec fn lfsr_state(seed: u16, n: nat) -> u16
    decreases n,
{
    if n == 0 {
        seed
    } else {
        step(lfsr_state(seed, (n - 1) as nat))
    }
}

/// The `n`-th output bit from `seed`.
pub open spec fn lfsr_bit(seed: u16, n: nat) -> u32 {
    feedback(lfsr_state(seed, n)) as u32
}

/// The register's output, 32 bits to a word, lowest bit first, and a cursor on it.
pub struct LfsrFibonnaci {
    registers: Vec<u32>,
    current_offset: usize,
}

/// Setting bit `j` of `w` by or-ing it in leaves the other bits as they were.
proof fn lemma_set_bit(w: u32, b: u32, j: u32, k: u32)
    requires
        b <= 1,
        j < 32,
        k < 32,
    ensures
        ((w | (b << j)) >> k) & 1 == if k == j {
            (w >> k) & 1 | b
        } else {
            (w >> k) & 1
        },
{
    assert(((w | (b << j)) >> k) & 1 == if k == j {
        (w >> k) & 1 | b
    } else {
        (w >> k) & 1
    }) by (bit_vector)
        requires
            b <= 1,
            j < 32,
            k < 32,
    ;
}

impl LfsrFibonnaci {
    /// The output words.
    pub closed spec fn words(&self) -> Seq<u32> {
        self.registers@
    }

    /// The cursor: the next word to hand out.
    pub closed spec fn offset(&self) -> nat {
        self.current_offset as nat
    }

    /// The cursor lies on a word.
    pub open spec fn wf(&self) -> bool {
        self.words().len() == SEQ_SIZE && self.offset() < SEQ_SIZE
    }
}

/// Run the register from `seed` and keep its first `32 * SEQ_SIZE` output bits. The seed
/// must not be 0: from 0 the register stays at 0.
pub fn lfsr16_set_seed(seed: u16) -> (r: LfsrFibonnaci)
    requires
        seed != 0,
    ensures
        r.wf(),
        r.offset() == 0,
        forall|i: int, j: u32|
            0 <= i < SEQ_SIZE && j < 32 ==> (#[trigger] (r.words()[i] >> j)) & 1 == lfsr_bit(
                seed,
                (32 * i + j) as nat,
            ),
{
    let mut lfsr: u16 = seed;
    let mut registers: Vec<u32> = Vec::new();
    let mut i: usize = 0;
    while i < SEQ_SIZE
        invariant
            i <= SEQ_SIZE,
            registers@.len() == i,
            lfsr == lfsr_state(seed, (32 * i) as nat),
            forall|i2: int, j: u32|
                0 <= i2 < i && j < 32 ==> (#[trigger] (registers@[i2] >> j)) & 1 == lfsr_bit(
                    seed,
                    (32 * i2 + j) as nat,
                ),
        decreases SEQ_SIZE - i,
    {
        let mut elem: u32 = 0;
        let mut j: u32 = 0;
        assert forall|k: u32| k < 32 implies (elem >> k) & 1 == 0 by {
            assert((0u32 >> k) & 1 == 0) by (bit_vector);
        }
        while j < 32
            invariant
                j <= 32,
                lfsr == lfsr_state(seed, (32 * i + j) as nat),
                forall|k: u32| k < j ==> (#[trigger] (elem >> k) & 1) == lfsr_bit(seed, (32 * i + k) as nat),
                forall|k: u32| j <= k < 32 ==> (#[trigger] (elem >> k) & 1) == 0,
            decreases 32 - j,
        {
            let bits: u16 = (lfsr >> 0u16) ^ (lfsr >> 2u16) ^ (lfsr >> 3u16) ^ (lfsr >> 5u16);
            let bit = bits & 0b1;
            proof {
                assert(lfsr >> 0u16 == lfsr) by (bit_vector);
                assert(bit <= 1) by (bit_vector)
                    requires
                        bit == bits & 1,
                ;
            }
            lfsr = lfsr >> 1u16;
            lfsr = lfsr | (bit << 15u16);
            let ghost old_elem = elem;
            elem = elem | ((bit as u32) << j);
            proof {
                assert forall|k: u32| k < 32 implies (#[trigger] (elem >> k) & 1) == if k == j {
                    (old_elem >> k) & 1 | bit as u32
                } else {
                    (old_elem >> k) & 1
                } by {
                    lemma_set_bit(old_elem, bit as u32, j, k);
                }
                assert forall|k: u32| k == j implies (#[trigger] (elem >> k) & 1) == bit as u32 by {
                    let z = (old_elem >> k) & 1;
                    let b = bit as u32;
                    assert(z | b == b) by (bit_vector)
                        requires
                            z == 0,
                            b <= 1,
                    ;
                }
            }
            j += 1;
        }
        registers.push(elem);
        proof {
            assert forall|i2: int, k: u32|
                0 <= i2 < i + 1 && k < 32 implies (#[trigger] (registers@[i2] >> k)) & 1 == lfsr_bit(
                seed,
                (32 * i2 + k) as nat,
            ) by {
                if i2 == i {
                    assert((elem >> k) & 1 == lfsr_bit(seed, (32 * i + k) as nat));
                }
            }
        }
        i += 1;
    }
    LfsrFibonnaci { registers, current_offset: 0 }
}

/// The cursor after `offset`, wrapping round at the end of the words.
fn move_offset(offset: usize) -> (r: usize)
    requires
        offset < SEQ_SIZE,
    ensures
        r == if offset == SEQ_SIZE - 1 {
            0
        } else {
            offset + 1
        },
{
    if offset == SEQ_SIZE - 1 {
        0
    } else {
        offset + 1
    }
}

impl LfsrFibonnaci {
    /// The word under the cursor; the cursor moves on, wrapping round at the end.
    pub fn lfsr16_get_pseudo_number(&mut self) -> (r: u32)
        requires
            old(self).wf(),
        ensures
            final(self).wf(),
            r == old(self).words()[old(self).offset() as int],
            final(self).words() == old(self).words(),
            final(self).offset() == (old(self).offset() + 1) % (SEQ_SIZE as nat),
    {
        let result = self.registers[self.current_offset];
        self.current_offset = move_offset(self.current_offset);
        result
    }
}

/// A generator seeded with `seed`, its cursor on the first word.
pub fn srand_init(seed: u16) -> (r: LfsrFibonnaci)
    requires
        seed != 0,
    ensures
        r.wf(),
        r.offset() == 0,
        forall|i: int, j: u32|
            0 <= i < SEQ_SIZE && j < 32 ==> (#[trigger] (r.words()[i] >> j)) & 1 == lfsr_bit(
                seed,
                (32 * i + j) as nat,
            ),
{
    lfsr16_set_seed(seed)
}

} // verus!
