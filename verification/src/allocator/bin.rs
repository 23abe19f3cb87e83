//! The size-classed allocator: one free list per size class over a bump
//! cursor.
use crate::allocator::bin_laws::{
    lemma_allocate, lemma_allocations_bounded, lemma_deallocate, lemma_fresh, lemma_live_block,
    lemma_live_blocks_apart,
};
use crate::allocator::bin_state::{first_aligned, inv, live_after_allocate, BinState, BIN_COUNT};
use crate::allocator::layout::Layout;
use crate::allocator::linked_list::LinkedList;
use crate::allocator::util::{
    bin_size, checked_align_up, is_align, is_power_of_two, lemma_pow2_positive, map_to_bin,
};
use vstd::prelude::*;

verus! {

/// An allocator that serves each request from the free list of its size
/// class, or else from the untouched part of its arena.
///
/// The view is the allocator's state. `live` is kept for the proofs alone:
/// it maps the address of each block that is handed out to the layout it was
/// asked for with.
pub struct Allocator {
    current: usize,
    start: usize,
    end: usize,
    bins: Vec<LinkedList>,
    allocations: usize,
    live: Ghost<Map<usize, Layout>>,
}

impl View for Allocator {
    type V = BinState;

    closed spec fn view(&self) -> BinState {
        BinState {
            start: self.start,
            end: self.end,
            current: self.current,
            bins: Seq::new(self.bins@.len(), |k: int| self.bins@[k]@),
            allocations: self.allocations as nat,
        }
    }
}

/// The position of the first address in `list` that is a multiple of `align`;
/// the length of `list` where there is none.
fn find_aligned(list: &LinkedList, align: usize) -> (index: usize)
    requires
        align > 0,
    ensures
        index == first_aligned(list@, align as int, 0),
{
    let n = list.len();
    let mut index: usize = 0;
    while index < n
        invariant
            align > 0,
            n == list@.len(),
            index <= n,
            first_aligned(list@, align as int, 0) == first_aligned(list@, align as int, index as int),
        decreases n - index,
    {
        if is_align(list.value(index), align) {
            return index;
        }
        index = index + 1;
    }
    index
}

impl Allocator {
    /// The blocks that are handed out: the address of each, with the layout
    /// it was asked for with.
    pub closed spec fn live(&self) -> Map<usize, Layout> {
        self.live@
    }

    /// What holds of an allocator between calls.
    pub open spec fn wf(&self) -> bool {
        inv(self@, self.live())
    }

    /// An allocator over the arena from `start` up to, not including, `end`,
    /// with nothing handed out.
    pub fn new(start: usize, end: usize) -> (allocator: Allocator)
        ensures
            allocator@ == BinState::fresh(start, end),
            allocator.live() == Map::<usize, Layout>::empty(),
            allocator.wf(),
    {
        let mut bins: Vec<LinkedList> = Vec::new();
        let mut k: usize = 0;
        while k < BIN_COUNT
            invariant
                k <= BIN_COUNT,
                bins@.len() == k,
                forall|j: int| 0 <= j < k ==> (#[trigger] bins@[j])@ == Seq::<usize>::empty(),
            decreases BIN_COUNT - k,
        {
            bins.push(LinkedList::new());
            k = k + 1;
        }
        let allocator = Allocator {
            current: start,
            start,
            end,
            bins,
            allocations: 0,
            live: Ghost(Map::empty()),
        };
        proof {
            assert(allocator@ =~~= BinState::fresh(start, end));
            lemma_fresh(start, end);
        }
        allocator
    }

    /// Hands out a block of at least `layout.size` bytes at a multiple of
    /// `layout.align`, or `None` where the request cannot be served.
    ///
    /// The block lies within the arena and shares no byte with a block that
    /// is out.
    pub fn allocate(&mut self, layout: Layout) -> (result: Option<usize>)
        requires
            old(self).wf(),
        ensures
            final(self).wf(),
            final(self)@ == old(self)@.allocate(layout).0,
            result == old(self)@.allocate(layout).1,
            final(self).live() == live_after_allocate(old(self).live(), layout, result),
            result matches Some(addr) ==> {
                &&& !old(self).live().dom().contains(addr)
                &&& addr as int % layout.align as int == 0
                &&& old(self)@.start <= addr
                &&& addr + layout.size <= old(self)@.end
                &&& forall|b: usize| #[trigger]
                    old(self).live().dom().contains(b) ==> addr + layout.size <= b || b + old(
                        self,
                    ).live()[b].size <= addr
            },
            layout.size > old(self)@.end - old(self)@.start ==> result is None,
    {
        proof {
            let s2 = self@.allocate(layout).0;
            let live2 = live_after_allocate(self.live(), layout, self@.allocate(layout).1);
            lemma_allocate(self@, self.live(), layout);
            lemma_allocations_bounded(s2, live2);
            if let Some(addr) = self@.allocate(layout).1 {
                lemma_live_block(s2, live2, addr);
                assert forall|b: usize| #[trigger] self.live().dom().contains(b) implies addr
                    + layout.size <= b || b + self.live()[b].size <= addr by {
                    lemma_live_blocks_apart(s2, live2, addr, b);
                }
            }
        }
        if !is_power_of_two(layout.align) {
            return None;
        }
        let class = map_to_bin(layout.size);
        if class >= BIN_COUNT {
            return None;
        }
        proof {
            lemma_pow2_positive(layout.align as int);
        }
        let index = find_aligned(&self.bins[class], layout.align);
        if index < self.bins[class].len() {
            let addr = self.bins[class].remove(index);
            self.allocations = self.allocations + 1;
            proof {
                self.live = Ghost(self.live@.insert(addr, layout));
                assert(self@ =~~= old(self)@.reuse(class as int, index as int));
            }
            return Some(addr);
        }
        match checked_align_up(self.current, layout.align) {
            None => None,
            Some(addr) => {
                let bytes = bin_size(class);
                if addr > self.end || ((self.end - addr) as u64) < bytes {
                    None
                } else {
                    self.current = addr + (bytes as usize);
                    self.allocations = self.allocations + 1;
                    proof {
                        self.live = Ghost(self.live@.insert(addr, layout));
                        assert(self@ =~~= old(self)@.bump(self.current));
                    }
                    Some(addr)
                }
            },
        }
    }

    /// Takes back the block at `addr`, which this allocator handed out for
    /// `layout` and which has not come back since.
    pub fn deallocate(&mut self, addr: usize, layout: Layout)
        requires
            old(self).wf(),
            old(self).live().dom().contains(addr),
            old(self).live()[addr] == layout,
        ensures
            final(self).wf(),
            final(self)@ == old(self)@.deallocate(addr, layout),
            final(self).live() == old(self).live().remove(addr),
    {
        proof {
            lemma_deallocate(self@, self.live(), addr, layout);
        }
        let class = map_to_bin(layout.size);
        self.bins[class].push(addr);
        self.allocations = self.allocations - 1;
        proof {
            self.live = Ghost(self.live@.remove(addr));
        }
        if self.allocations == 0 {
            self.current = self.start;
            let mut k: usize = 0;
            while k < BIN_COUNT
                invariant
                    k <= BIN_COUNT,
                    self.bins@.len() == BIN_COUNT,
                    self.start == old(self).start,
                    self.end == old(self).end,
                    self.current == self.start,
                    self.allocations == 0,
                    self.live@ == old(self).live@.remove(addr),
                    forall|j: int| 0 <= j < k ==> (#[trigger] self.bins@[j])@.len() == 0,
                decreases BIN_COUNT - k,
            {
                while !self.bins[k].is_empty()
                    invariant
                        k < BIN_COUNT,
                        self.bins@.len() == BIN_COUNT,
                        self.start == old(self).start,
                        self.end == old(self).end,
                        self.current == self.start,
                        self.allocations == 0,
                        self.live@ == old(self).live@.remove(addr),
                        forall|j: int| 0 <= j < k ==> (#[trigger] self.bins@[j])@.len() == 0,
                    decreases self.bins@[k as int]@.len(),
                {
                    self.bins[k].pop();
                }
                k = k + 1;
            }
            assert(self@ =~~= BinState::fresh(self.start, self.end));
        } else {
            assert(self@ =~~= old(self)@.deallocate(addr, layout));
        }
    }
}

} // verus!
