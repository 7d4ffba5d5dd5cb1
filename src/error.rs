use vstd::prelude::*;

verus! {

/// What can go wrong when a block is asked for or handed back.
#[derive(Debug, Clone, Copy, PartialEq, Eq, Structural)]
pub enum BuddyError {
    /// The request is larger than the whole arena.
    CannotFit,
    /// The request asks for an alignment above the supported one.
    TooBigAlignment,
    /// The request is larger than any block that a word can describe.
    TooBigSize,
    /// The block handed back is not marked as allocated.
    DoubleFreeOrCorruption,
    /// No free block of the needed size is left at the moment.
    NoMoreSpace,
    /// The operation is reserved and not provided.
    Unsupported,
}

impl BuddyError {
    /// A sentence that describes the error.
    pub fn as_str(&self) -> (r: &'static str)
        ensures
            r@ == match *self {
                BuddyError::CannotFit => "the bigger buddy is too small for the requested size"@,
                BuddyError::TooBigAlignment => "Alignement too big"@,
                BuddyError::TooBigSize => "Bad size"@,
                BuddyError::DoubleFreeOrCorruption => "Double Free or corruption"@,
                BuddyError::NoMoreSpace => "Not enough room to swing a cat, a cat, the animal !"@,
                BuddyError::Unsupported => "Operation not supported"@,
            },
    {
        let r = match self {
            BuddyError::CannotFit => "the bigger buddy is too small for the requested size",
            BuddyError::TooBigAlignment => "Alignement too big",
            BuddyError::TooBigSize => "Bad size",
            BuddyError::DoubleFreeOrCorruption => "Double Free or corruption",
            BuddyError::NoMoreSpace => "Not enough room to swing a cat, a cat, the animal !",
            BuddyError::Unsupported => "Operation not supported",
        };
        proof {
            reveal_strlit("the bigger buddy is too small for the requested size");
            reveal_strlit("Alignement too big");
            reveal_strlit("Bad size");
            reveal_strlit("Double Free or corruption");
            reveal_strlit("Not enough room to swing a cat, a cat, the animal !");
            reveal_strlit("Operation not supported");
        }
        r
    }
}

} // verus!
