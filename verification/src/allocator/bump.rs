//! The bump allocator: a cursor that only moves forward, with no reuse of
//! single blocks.
use crate::allocator::layout::Layout;
use crate::allocator::util::{
    aligned_up, checked_align_up, is_power_of_two, lemma_aligned_up, lemma_count_in_range,
    lemma_pow2_positive,
};
use vstd::arithmetic::power2::is_pow2;
use vstd::prelude::*;

verus! {

/// What a bump allocator holds: the arena's bounds, the cursor, and the number
/// of blocks handed out and not yet returned.
pub struct BumpState {
    pub start: usize,
    pub end: usize,
    pub current: usize,
    pub allocations: nat,
}

impl BumpState {
    /// The state of an allocator that has handed out nothing.
    pub open spec fn fresh(start: usize, end: usize) -> BumpState {
        BumpState { start, end, current: start, allocations: 0 }
    }

    /// The state after a request for `layout`, and the address handed out.
    ///
    /// A request is refused, and the state kept, where the alignment is no
    /// power of two or the arena has no room left behind the cursor.
    pub open spec fn allocate(self, layout: Layout) -> (BumpState, Option<usize>) {
        let addr = aligned_up(self.current as int, layout.align as int);
        if !is_pow2(layout.align as int) || addr + layout.size > self.end {
            (self, None)
        } else {
            (
                BumpState {
                    current: (addr + layout.size) as usize,
                    allocations: self.allocations + 1,
                    ..self
                },
                Some(addr as usize),
            )
        }
    }

    /// The state after a block came back: one fewer is out, and with the last
    /// one the whole arena is free again.
    pub open spec fn deallocate(self) -> BumpState {
        if self.allocations == 1 {
            BumpState::fresh(self.start, self.end)
        } else {
            BumpState { allocations: (self.allocations - 1) as nat, ..self }
        }
    }
}

/// What holds of a bump allocator between calls, where `live` maps the address
/// of each block that is handed out to the layout it was asked for with.
pub open spec fn bump_inv(s: BumpState, live: Map<usize, Layout>) -> bool {
    &&& s.start <= s.current
    &&& s.current <= s.end || s.current == s.start
    &&& live.dom().finite()
    &&& live.dom().len() == s.allocations
    &&& s.allocations == 0 ==> s.current == s.start
    &&& forall|a: usize| #[trigger]
        live.dom().contains(a) ==> {
            &&& is_pow2(live[a].align as int)
            &&& a as int % live[a].align as int == 0
            &&& live[a].size > 0
            &&& s.start <= a
            &&& a + live[a].size <= s.current
        }
    &&& forall|a: usize, b: usize|
        #[trigger] live.dom().contains(a) && #[trigger] live.dom().contains(b) && a != b ==> a
            + live[a].size <= b || b + live[b].size <= a
}

/// The number of blocks handed out is at most the number of bytes that the
/// cursor has passed.
pub proof fn lemma_bump_allocations_bounded(s: BumpState, live: Map<usize, Layout>)
    requires
        bump_inv(s, live),
    ensures
        s.allocations <= s.current - s.start,
{
    lemma_count_in_range(live.dom(), s.start, s.current);
}

/// A request for at least one byte keeps the invariant, and the block handed
/// out was not out before.
pub proof fn lemma_bump_allocate(s: BumpState, live: Map<usize, Layout>, layout: Layout)
    requires
        bump_inv(s, live),
        layout.size > 0,
    ensures
        s.allocate(layout).1 matches Some(addr) ==> !live.dom().contains(addr) && bump_inv(
            s.allocate(layout).0,
            live.insert(addr, layout),
        ),
        s.allocate(layout).1 is None ==> s.allocate(layout).0 == s,
{
    if is_pow2(layout.align as int) {
        lemma_pow2_positive(layout.align as int);
        lemma_aligned_up(s.current as int, layout.align as int);
    }
}

/// The return of a block that is out keeps the invariant.
pub proof fn lemma_bump_deallocate(s: BumpState, live: Map<usize, Layout>, addr: usize)
    requires
        bump_inv(s, live),
        live.dom().contains(addr),
    ensures
        s.allocations >= 1,
        bump_inv(s.deallocate(), live.remove(addr)),
{
    let live2 = live.remove(addr);
    if s.allocations == 1 {
        assert(live2.dom() =~= Set::<usize>::empty()) by {
            if exists|b: usize| live2.dom().contains(b) {
                assert(live2.dom().len() != 0);
            }
        }
    }
}

/// Bounds and alignment: a block that is out starts at a multiple of the
/// alignment asked for, and its bytes lie within the arena.
pub proof fn lemma_bump_live_block(s: BumpState, live: Map<usize, Layout>, addr: usize)
    requires
        bump_inv(s, live),
        live.dom().contains(addr),
    ensures
        addr as int % live[addr].align as int == 0,
        s.start <= addr,
        addr + live[addr].size <= s.end,
{
}

/// Non-overlap: two blocks that are out at the same time share no byte.
pub proof fn lemma_bump_live_blocks_apart(
    s: BumpState,
    live: Map<usize, Layout>,
    a: usize,
    b: usize,
)
    requires
        bump_inv(s, live),
        live.dom().contains(a),
        live.dom().contains(b),
        a != b,
    ensures
        a + live[a].size <= b || b + live[b].size <= a,
{
}

/// Exhaustion: a request for more bytes than the arena has is refused.
pub proof fn lemma_bump_oversized_refused(s: BumpState, live: Map<usize, Layout>, layout: Layout)
    requires
        bump_inv(s, live),
        layout.size > s.end - s.start,
    ensures
        s.allocate(layout).1 is None,
{
    if is_pow2(layout.align as int) {
        lemma_pow2_positive(layout.align as int);
        lemma_aligned_up(s.current as int, layout.align as int);
    }
}

/// Reset: an allocator with no block out is in the state in which it was
/// made.
pub proof fn lemma_bump_idle_is_fresh(s: BumpState, live: Map<usize, Layout>)
    requires
        bump_inv(s, live),
        s.allocations == 0,
    ensures
        s == BumpState::fresh(s.start, s.end),
        live == Map::<usize, Layout>::empty(),
{
    assert(live.dom() =~= Set::<usize>::empty()) by {
        if exists|b: usize| live.dom().contains(b) {
            assert(live.dom().len() != 0);
        }
    }
    assert(live =~= Map::<usize, Layout>::empty());
}

/// An allocator that serves each request from the untouched part of its
/// arena, and takes the whole arena back once every block has come back.
///
/// The view is the allocator's state. `live` is kept for the proofs alone:
/// it maps the address of each block that is handed out to the layout it was
/// asked for with.
pub struct Allocator {
    current: usize,
    start: usize,
    end: usize,
    allocations: usize,
    live: Ghost<Map<usize, Layout>>,
}

impl View for Allocator {
    type V = BumpState;

    closed spec fn view(&self) -> BumpState {
        BumpState {
            start: self.start,
            end: self.end,
            current: self.current,
            allocations: self.allocations as nat,
        }
    }
}

impl Allocator {
    /// The blocks that are handed out: the address of each, with the layout
    /// it was asked for with.
    pub closed spec fn live(&self) -> Map<usize, Layout> {
        self.live@
    }

    /// What holds of an allocator between calls.
    pub open spec fn wf(&self) -> bool {
        bump_inv(self@, self.live())
    }

    /// An allocator over the arena from `start` up to, not including, `end`,
    /// with nothing handed out.
    pub fn new(start: usize, end: usize) -> (allocator: Allocator)
        ensures
            allocator@ == BumpState::fresh(start, end),
            allocator.live() == Map::<usize, Layout>::empty(),
            allocator.wf(),
    {
        Allocator { current: start, start, end, allocations: 0, live: Ghost(Map::empty()) }
    }

    /// Hands out a block of `layout.size` bytes at a multiple of
    /// `layout.align`, or `None` where the request cannot be served.
    ///
    /// The block lies within the arena and shares no byte with a block that
    /// is out.
    pub fn allocate(&mut self, layout: Layout) -> (result: Option<usize>)
        requires
            old(self).wf(),
            layout.size > 0,
        ensures
            final(self).wf(),
            final(self)@ == old(self)@.allocate(layout).0,
            result == old(self)@.allocate(layout).1,
            final(self).live() == match result {
                Some(addr) => old(self).live().insert(addr, layout),
                None => old(self).live(),
            },
            result matches Some(addr) ==> {
                &&& !old(self).live().dom().contains(addr)
                &&& addr as int % layout.align as int == 0
                &&& old(self)@.start <= addr
                &&& addr + layout.size <= old(self)@.end
                &&& forall|b: usize| #[trigger]
                    old(self).live().dom().contains(b) ==> addr + layout.size <= b || b + old(
                        self,
                    ).live()[b].size <= addr
            },
            layout.size > old(self)@.end - old(self)@.start ==> result is None,
    {
        proof {
            lemma_bump_allocate(self@, self.live(), layout);
            if let Some(addr) = self@.allocate(layout).1 {
                lemma_bump_allocations_bounded(
                    self@.allocate(layout).0,
                    self.live().insert(addr, layout),
                );
            }
        }
        if !is_power_of_two(layout.align) {
            return None;
        }
        proof {
            lemma_pow2_positive(layout.align as int);
            lemma_aligned_up(self.current as int, layout.align as int);
        }
        match checked_align_up(self.current, layout.align) {
            None => None,
            Some(addr) => {
                if addr > self.end || self.end - addr < layout.size {
                    None
                } else {
                    self.current = addr + layout.size;
                    self.allocations = self.allocations + 1;
                    proof {
                        self.live = Ghost(self.live@.insert(addr, layout));
                    }
                    Some(addr)
                }
            },
        }
    }

    /// Takes back the block at `addr`, which this allocator handed out for
    /// `layout` and which has not come back since.
    pub fn deallocate(&mut self, addr: usize, layout: Layout)
        requires
            old(self).wf(),
            old(self).live().dom().contains(addr),
            old(self).live()[addr] == layout,
        ensures
            final(self).wf(),
            final(self)@ == old(self)@.deallocate(),
            final(self).live() == old(self).live().remove(addr),
    {
        proof {
            lemma_bump_deallocate(self@, self.live(), addr);
        }
        self.allocations = self.allocations - 1;
        proof {
            self.live = Ghost(self.live@.remove(addr));
        }
        if self.allocations == 0 {
            self.current = self.start;
        }
    }
}

} // verus!
