//! The allocator that callers hold: the engine, and a hook that hears of every error.
use vstd::prelude::*;

use crate::error::BuddyError;
use crate::inner_allocator::{
    alloc_outcome, block_len, block_start, dealloc_outcome, lemma_alloc_dealloc_restores,
    region_ok, AddressSpaceRef, Block, InnerBuddy,
};
use crate::layout::Layout;

verus! {

/// The engine of an arena, with an optional hook called with each error before it is
/// returned.
pub struct ProtectedAllocator<const M: usize, F> {
    inner_allocator: InnerBuddy<M>,
    error_hook: Option<F>,
}

impl<const M: usize, F: Fn(BuddyError)> ProtectedAllocator<M, F> {
    /// The engine.
    pub closed spec fn inner(&self) -> InnerBuddy<M> {
        self.inner_allocator
    }

    /// The hook that hears of errors.
    pub closed spec fn hook(&self) -> Option<F> {
        self.error_hook
    }

    /// The engine is consistent and the hook takes every error.
    pub closed spec fn wf(&self) -> bool {
        &&& self.inner_allocator.wf()
        &&& self.error_hook is Some ==> forall|e: BuddyError| #[trigger] self.error_hook.unwrap().requires((e,))
    }

    /// The blocks that are allocated.
    pub open spec fn live(&self) -> Set<nat> {
        self.inner().live()
    }

    /// Length of the arena.
    pub open spec fn arena_len(&self) -> nat {
        self.inner().space().arena_len()
    }

    /// Length of the arena's prefix that holds the tree.
    pub open spec fn reserved(&self) -> nat {
        self.inner().space().reserved()
    }

    /// The engine, to read.
    pub fn inner_ref(&self) -> (r: &InnerBuddy<M>)
        ensures
            *r == self.inner(),
    {
        &self.inner_allocator
    }

    /// Blocks that the allocator holds as allocated at the same time never overlap, whichever
    /// calls gave them out.
    pub proof fn lemma_live_blocks_disjoint(&self, i: nat, j: nat)
        requires
            self.inner().space().ready(),
            self.live().contains(i),
            self.live().contains(j),
            i != j,
        ensures
            block_start(i, self.arena_len()) + block_len(i, self.arena_len()) <= block_start(
                j,
                self.arena_len(),
            ) || block_start(j, self.arena_len()) + block_len(j, self.arena_len()) <= block_start(
                i,
                self.arena_len(),
            ),
    {
        self.inner().space().lemma_blocks_disjoint(i, j);
    }

    /// Taking a block through the allocator and giving it straight back with the same layout
    /// succeeds and leaves the tree byte for byte as it was.
    pub proof fn lemma_allocate_deallocate_restores(
        before: Self,
        mid: Self,
        after: Self,
        layout: Layout,
        blk: Block,
        r: Result<(), BuddyError>,
    )
        requires
            before.wf(),
            before.inner().space().ready(),
            mid.wf(),
            after.wf(),
            after.inner().space().ready(),
            mid.arena_len() == before.arena_len(),
            after.arena_len() == before.arena_len(),
            alloc_outcome(
                M as nat,
                before.arena_len(),
                before.reserved(),
                layout.size_spec(),
                layout.align_spec(),
                before.live(),
                mid.live(),
                Ok(blk),
            ),
            dealloc_outcome(
                M as nat,
                before.arena_len(),
                before.reserved(),
                blk.offset as nat,
                layout.size_spec(),
                layout.align_spec(),
                mid.live(),
                after.live(),
                r,
            ),
        ensures
            r is Ok,
            after.inner().space().tree() == before.inner().space().tree(),
    {
        lemma_alloc_dealloc_restores(before.inner(), mid.inner(), after.inner(), layout, blk, r);
    }

    /// An allocator over `mutex_of_inner_allocator`, with `error_hook` told of errors.
    pub fn new(mutex_of_inner_allocator: InnerBuddy<M>, error_hook: Option<F>) -> (r: Self)
        requires
            mutex_of_inner_allocator.wf(),
            error_hook is Some ==> forall|e: BuddyError| #[trigger] error_hook.unwrap().requires((e,)),
        ensures
            r.wf(),
            r.inner() == mutex_of_inner_allocator,
    {
        ProtectedAllocator { inner_allocator: mutex_of_inner_allocator, error_hook }
    }

    /// Take a block for `layout`; an error goes to the hook first.
    pub fn allocate(&mut self, layout: Layout) -> (r: Result<Block, BuddyError>)
        requires
            old(self).wf(),
        ensures
            final(self).wf(),
            final(self).inner().wf(),
            final(self).inner().space().ready(),
            final(self).hook() == old(self).hook(),
            final(self).arena_len() == old(self).arena_len(),
            final(self).reserved() == old(self).reserved(),
            alloc_outcome(
                M as nat,
                old(self).arena_len(),
                old(self).reserved(),
                layout.size_spec(),
                layout.align_spec(),
                old(self).live(),
                final(self).live(),
                r,
            ),
            r is Err && old(self).hook() is Some ==> old(self).hook().unwrap().ensures(
                (r->Err_0,),
                (),
            ),
    {
        match self.inner_allocator.alloc_block(layout) {
            Ok(b) => Ok(b),
            Err(e) => Err(self.check(e)),
        }
    }

    /// Give back the block at `offset` for `layout`; an error goes to the hook first.
    pub fn deallocate(&mut self, offset: usize, layout: Layout) -> (r: Result<(), BuddyError>)
        requires
            old(self).wf(),
        ensures
            final(self).wf(),
            final(self).inner().wf(),
            final(self).inner().space().ready(),
            final(self).hook() == old(self).hook(),
            final(self).arena_len() == old(self).arena_len(),
            final(self).reserved() == old(self).reserved(),
            dealloc_outcome(
                M as nat,
                old(self).arena_len(),
                old(self).reserved(),
                offset as nat,
                layout.size_spec(),
                layout.align_spec(),
                old(self).live(),
                final(self).live(),
                r,
            ),
            r is Err && old(self).hook() is Some ==> old(self).hook().unwrap().ensures(
                (r->Err_0,),
                (),
            ),
    {
        match self.inner_allocator.dealloc(offset, layout) {
            Ok(()) => Ok(()),
            Err(e) => Err(self.check(e)),
        }
    }

    /// Take a block for `layout`, with no hook.
    pub fn alloc_block(&mut self, layout: Layout) -> (r: Result<Block, BuddyError>)
        requires
            old(self).wf(),
        ensures
            final(self).wf(),
            final(self).inner().wf(),
            final(self).inner().space().ready(),
            final(self).hook() == old(self).hook(),
            final(self).arena_len() == old(self).arena_len(),
            final(self).reserved() == old(self).reserved(),
            alloc_outcome(
                M as nat,
                old(self).arena_len(),
                old(self).reserved(),
                layout.size_spec(),
                layout.align_spec(),
                old(self).live(),
                final(self).live(),
                r,
            ),
    {
        self.inner_allocator.alloc_block(layout)
    }

    /// Give back the block at `offset` for `layout`, with no hook.
    pub fn dealloc(&mut self, offset: usize, layout: Layout) -> (r: Result<(), BuddyError>)
        requires
            old(self).wf(),
        ensures
            final(self).wf(),
            final(self).inner().wf(),
            final(self).inner().space().ready(),
            final(self).hook() == old(self).hook(),
            final(self).arena_len() == old(self).arena_len(),
            final(self).reserved() == old(self).reserved(),
            dealloc_outcome(
                M as nat,
                old(self).arena_len(),
                old(self).reserved(),
                offset as nat,
                layout.size_spec(),
                layout.align_spec(),
                old(self).live(),
                final(self).live(),
                r,
            ),
    {
        self.inner_allocator.dealloc(offset, layout)
    }

    /// Shrinking a block in place is not provided: `Unsupported`, told to the hook, and
    /// nothing changes.
    pub fn shrink(&mut self, _offset: usize, _old_layout: Layout, _new_layout: Layout) -> (r: Result<Block, BuddyError>)
        requires
            old(self).wf(),
        ensures
            final(self).wf(),
            final(self).inner() == old(self).inner(),
            final(self).hook() == old(self).hook(),
            r == Err::<Block, BuddyError>(BuddyError::Unsupported),
            r is Err && old(self).hook() is Some ==> old(self).hook().unwrap().ensures(
                (r->Err_0,),
                (),
            ),
    {
        Err(self.check(BuddyError::Unsupported))
    }

    /// Growing a block in place is not provided: `Unsupported`, told to the hook, and
    /// nothing changes.
    pub fn grow(
        &mut self,
        _offset: usize,
        _old_layout: Layout,
        _new_layout: Layout,
        _zeroed: bool,
    ) -> (r: Result<Block, BuddyError>)
        requires
            old(self).wf(),
        ensures
            final(self).wf(),
            final(self).inner() == old(self).inner(),
            final(self).hook() == old(self).hook(),
            r == Err::<Block, BuddyError>(BuddyError::Unsupported),
            r is Err && old(self).hook() is Some ==> old(self).hook().unwrap().ensures(
                (r->Err_0,),
                (),
            ),
    {
        Err(self.check(BuddyError::Unsupported))
    }

    /// Setting a block aside by index is not provided: `Unsupported`, told to the hook, and
    /// the allocated blocks stay as they are.
    pub fn reserve(&mut self, index: usize, size: usize) -> (r: Result<(), BuddyError>)
        requires
            old(self).wf(),
        ensures
            final(self).wf(),
            final(self).inner().wf(),
            final(self).inner().space().ready(),
            final(self).hook() == old(self).hook(),
            final(self).arena_len() == old(self).arena_len(),
            final(self).reserved() == old(self).reserved(),
            final(self).live() == old(self).live(),
            r == Err::<(), BuddyError>(BuddyError::Unsupported),
            r is Err && old(self).hook() is Some ==> old(self).hook().unwrap().ensures(
                (r->Err_0,),
                (),
            ),
    {
        match self.inner_allocator.reserve(index, size) {
            Ok(()) => Ok(()),
            Err(e) => Err(self.check(e)),
        }
    }

    /// Releasing a block set aside by index is not provided: `Unsupported`, told to the
    /// hook, and the allocated blocks stay as they are.
    pub fn unreserve(&mut self, index: usize) -> (r: Result<(), BuddyError>)
        requires
            old(self).wf(),
        ensures
            final(self).wf(),
            final(self).inner().wf(),
            final(self).inner().space().ready(),
            final(self).hook() == old(self).hook(),
            final(self).arena_len() == old(self).arena_len(),
            final(self).reserved() == old(self).reserved(),
            final(self).live() == old(self).live(),
            r == Err::<(), BuddyError>(BuddyError::Unsupported),
            r is Err && old(self).hook() is Some ==> old(self).hook().unwrap().ensures(
                (r->Err_0,),
                (),
            ),
    {
        match self.inner_allocator.unreserve(index) {
            Ok(()) => Ok(()),
            Err(e) => Err(self.check(e)),
        }
    }

    /// Tell the hook of `error`, then hand it back.
    fn check(&self, error: BuddyError) -> (r: BuddyError)
        requires
            self.wf(),
        ensures
            r == error,
            self.hook() is Some ==> self.hook().unwrap().ensures((error,), ()),
    {
        if let Some(error_hook) = &self.error_hook {
            error_hook(error);
        }
        error
    }
}

/// A handle on a protected allocator that forwards each operation to it.
pub struct ThreadSafeAllocator<const M: usize, F> {
    protected_allocator: ProtectedAllocator<M, F>,
}

impl<const M: usize, F: Fn(BuddyError)> ThreadSafeAllocator<M, F> {
    /// The allocator behind the handle.
    pub closed spec fn protected(&self) -> ProtectedAllocator<M, F> {
        self.protected_allocator
    }

    /// A handle on `protected_allocator`.
    pub fn new(protected_allocator: ProtectedAllocator<M, F>) -> (r: Self)
        requires
            protected_allocator.wf(),
        ensures
            r.protected() == protected_allocator,
    {
        ThreadSafeAllocator { protected_allocator }
    }

    /// Take a block for `layout`.
    pub fn allocate(&mut self, layout: Layout) -> (r: Result<Block, BuddyError>)
        requires
            old(self).protected().wf(),
        ensures
            final(self).protected().wf(),
            final(self).protected().inner().wf(),
            final(self).protected().inner().space().ready(),
            final(self).protected().arena_len() == old(self).protected().arena_len(),
            final(self).protected().reserved() == old(self).protected().reserved(),
            alloc_outcome(
                M as nat,
                old(self).protected().arena_len(),
                old(self).protected().reserved(),
                layout.size_spec(),
                layout.align_spec(),
                old(self).protected().live(),
                final(self).protected().live(),
                r,
            ),
    {
        self.protected_allocator.allocate(layout)
    }

    /// Give back the block at `offset` for `layout`.
    pub fn deallocate(&mut self, offset: usize, layout: Layout) -> (r: Result<(), BuddyError>)
        requires
            old(self).protected().wf(),
        ensures
            final(self).protected().wf(),
            final(self).protected().inner().wf(),
            final(self).protected().inner().space().ready(),
            final(self).protected().arena_len() == old(self).protected().arena_len(),
            final(self).protected().reserved() == old(self).protected().reserved(),
            dealloc_outcome(
                M as nat,
                old(self).protected().arena_len(),
                old(self).protected().reserved(),
                offset as nat,
                layout.size_spec(),
                layout.align_spec(),
                old(self).protected().live(),
                final(self).protected().live(),
                r,
            ),
    {
        self.protected_allocator.deallocate(offset, layout)
    }

    /// Shrinking a block in place is not provided.
    pub fn shrink(&mut self, offset: usize, old_layout: Layout, new_layout: Layout) -> (r: Result<Block, BuddyError>)
        requires
            old(self).protected().wf(),
        ensures
            final(self).protected().wf(),
            final(self).protected().inner() == old(self).protected().inner(),
            r == Err::<Block, BuddyError>(BuddyError::Unsupported),
    {
        self.protected_allocator.shrink(offset, old_layout, new_layout)
    }

    /// Growing a block in place is not provided.
    pub fn grow(
        &mut self,
        offset: usize,
        old_layout: Layout,
        new_layout: Layout,
        zeroed: bool,
    ) -> (r: Result<Block, BuddyError>)
        requires
            old(self).protected().wf(),
        ensures
            final(self).protected().wf(),
            final(self).protected().inner() == old(self).protected().inner(),
            r == Err::<Block, BuddyError>(BuddyError::Unsupported),
    {
        self.protected_allocator.grow(offset, old_layout, new_layout, zeroed)
    }

    /// Setting a block aside by index is not provided.
    pub fn reserve(&mut self, index: usize, size: usize) -> (r: Result<(), BuddyError>)
        requires
            old(self).protected().wf(),
        ensures
            final(self).protected().wf(),
            final(self).protected().inner().wf(),
            final(self).protected().inner().space().ready(),
            final(self).protected().live() == old(self).protected().live(),
            r == Err::<(), BuddyError>(BuddyError::Unsupported),
    {
        self.protected_allocator.reserve(index, size)
    }

    /// Releasing a block set aside by index is not provided.
    pub fn unreserve(&mut self, index: usize) -> (r: Result<(), BuddyError>)
        requires
            old(self).protected().wf(),
        ensures
            final(self).protected().wf(),
            final(self).protected().inner().wf(),
            final(self).protected().inner().space().ready(),
            final(self).protected().live() == old(self).protected().live(),
            r == Err::<(), BuddyError>(BuddyError::Unsupported),
    {
        self.protected_allocator.unreserve(index)
    }
}

/// An allocator over an arena that keeps its tree in the arena's first bytes.
pub struct BuddyAllocator<const M: usize>(pub InnerBuddy<M>);

impl<const M: usize> BuddyAllocator<M> {
    /// An allocator over the arena of `arena_len` bytes at address `arena_addr`; its tree is
    /// written on first use, in the arena's first bytes.
    pub fn new(arena_len: usize, arena_addr: usize) -> (r: Self)
        requires
            region_ok(M as nat, arena_len as nat, arena_addr as nat),
            arena_len != usize::MAX,
        ensures
            r.0.wf(),
            r.0.space().arena_len() == arena_len,
            r.0.space().reserved() > 0,
            r.0.space().tree()[0] == 0x42,
    {
        let space = AddressSpaceRef::<M>::from(arena_len, arena_addr, None);
        proof {
            assert(space.reserved() > 0);
        }
        BuddyAllocator(InnerBuddy::new(space))
    }
}

} // verus!
