//! The state of the size-classed allocator and its two transitions, as
//! mathematical values.
use crate::allocator::layout::Layout;
use crate::allocator::util::{aligned_up, block_size, size_class};
use vstd::arithmetic::power2::is_pow2;
use vstd::prelude::*;

verus! {

/// The number of size classes.
pub const BIN_COUNT: usize = 30;

/// What an allocator holds: the arena's bounds, the bump cursor, the free
/// list of each size class from its head on, and the number of blocks handed
/// out and not yet returned.
#[verifier::ext_equal]
pub struct BinState {
    pub start: usize,
    pub end: usize,
    pub current: usize,
    pub bins: Seq<Seq<usize>>,
    pub allocations: nat,
}

/// The position of the first address at or after position `from` in `list`
/// that is a multiple of `align`; the length of `list` where there is none.
pub open spec fn first_aligned(list: Seq<usize>, align: int, from: int) -> int
    decreases list.len() - from,
{
    if 0 <= from < list.len() {
        if list[from] as int % align == 0 {
            from
        } else {
            first_aligned(list, align, from + 1)
        }
    } else {
        list.len() as int
    }
}

impl BinState {
    /// The state of an allocator that has handed out nothing: the cursor at
    /// the start of the arena and every free list empty.
    pub open spec fn fresh(start: usize, end: usize) -> BinState {
        BinState {
            start,
            end,
            current: start,
            bins: Seq::new(BIN_COUNT as nat, |k: int| Seq::<usize>::empty()),
            allocations: 0,
        }
    }

    /// The state after the block at position `index` of the free list of
    /// `class` was handed out.
    pub open spec fn reuse(self, class: int, index: int) -> BinState {
        BinState {
            bins: self.bins.update(class, self.bins[class].remove(index)),
            allocations: self.allocations + 1,
            ..self
        }
    }

    /// The state after a block that ends at `block_end` was carved out at the
    /// cursor and handed out.
    pub open spec fn bump(self, block_end: usize) -> BinState {
        BinState { current: block_end, allocations: self.allocations + 1, ..self }
    }

    /// The state after a request for `layout`, and the address handed out.
    ///
    /// A request is refused, and the state kept, where the alignment is no
    /// power of two, where the size class is beyond the last one, or where no
    /// free block of the class is aligned as asked and the arena has no room
    /// left for a new block behind the cursor.
    pub open spec fn allocate(self, layout: Layout) -> (BinState, Option<usize>) {
        let class = size_class(layout.size as nat) as int;
        if !is_pow2(layout.align as int) || class >= BIN_COUNT {
            (self, None)
        } else {
            let index = first_aligned(self.bins[class], layout.align as int, 0);
            if index < self.bins[class].len() {
                (self.reuse(class, index), Some(self.bins[class][index]))
            } else {
                let addr = aligned_up(self.current as int, layout.align as int);
                let block_end = addr + block_size(class as nat);
                if block_end > self.end {
                    (self, None)
                } else {
                    (self.bump(block_end as usize), Some(addr as usize))
                }
            }
        }
    }

    /// The state after the block at `addr`, handed out for `layout`, came
    /// back. The block becomes the head of its class's free list, unless it
    /// was the last one out: then the allocator is fresh again.
    pub open spec fn deallocate(self, addr: usize, layout: Layout) -> BinState {
        let class = size_class(layout.size as nat) as int;
        if self.allocations == 1 {
            BinState::fresh(self.start, self.end)
        } else {
            BinState {
                bins: self.bins.update(class, seq![addr] + self.bins[class]),
                allocations: (self.allocations - 1) as nat,
                ..self
            }
        }
    }
}

/// The state after the requests `layouts` were made one after the other, and
/// the answer to each.
pub open spec fn allocate_all(s: BinState, layouts: Seq<Layout>) -> (BinState, Seq<Option<usize>>)
    decreases layouts.len(),
{
    if layouts.len() == 0 {
        (s, Seq::empty())
    } else {
        let before = allocate_all(s, layouts.drop_last());
        let step = before.0.allocate(layouts.last());
        (step.0, before.1.push(step.1))
    }
}

/// The state after the blocks `blocks`, each an address with the layout it was
/// asked for with, came back one after the other.
pub open spec fn deallocate_all(s: BinState, blocks: Seq<(usize, Layout)>) -> BinState
    decreases blocks.len(),
{
    if blocks.len() == 0 {
        s
    } else {
        deallocate_all(s, blocks.drop_last()).deallocate(blocks.last().0, blocks.last().1)
    }
}

/// Whether `addr` is on the free list of `class`.
pub open spec fn in_bin(s: BinState, class: int, addr: usize) -> bool {
    0 <= class < s.bins.len() && s.bins[class].contains(addr)
}

/// Whether a block of `class` stands at `addr`, handed out or free.
///
/// `live` maps the address of each block that is handed out to the layout it
/// was asked for with.
pub open spec fn is_block(s: BinState, live: Map<usize, Layout>, addr: usize, class: int) -> bool {
    ||| live.dom().contains(addr) && size_class(live[addr].size as nat) == class
    ||| in_bin(s, class, addr)
}

/// Every block lies in the part of the arena that the cursor has passed.
pub open spec fn blocks_in_arena(s: BinState, live: Map<usize, Layout>) -> bool {
    forall|addr: usize, class: int| #[trigger]
        is_block(s, live, addr, class) ==> 0 <= class < BIN_COUNT && s.start <= addr && addr
            + block_size(class as nat) <= s.current
}

/// No two blocks share a byte.
pub open spec fn blocks_disjoint(s: BinState, live: Map<usize, Layout>) -> bool {
    forall|a: usize, j: int, b: usize, k: int|
        #[trigger] is_block(s, live, a, j) && #[trigger] is_block(s, live, b, k) && (a != b || j
            != k) ==> a + block_size(j as nat) <= b || b + block_size(k as nat) <= a
}

/// Every block that is handed out is aligned as asked and is on no free list.
pub open spec fn live_blocks_ok(s: BinState, live: Map<usize, Layout>) -> bool {
    forall|addr: usize| #[trigger]
        live.dom().contains(addr) ==> {
            &&& is_pow2(live[addr].align as int)
            &&& addr as int % live[addr].align as int == 0
            &&& !in_bin(s, size_class(live[addr].size as nat) as int, addr)
        }
}

/// What holds of an allocator between calls, where `live` maps the address of
/// each block that is handed out to the layout it was asked for with.
pub open spec fn inv(s: BinState, live: Map<usize, Layout>) -> bool {
    &&& s.bins.len() == BIN_COUNT
    &&& s.start <= s.current
    &&& s.current <= s.end || s.current == s.start
    &&& live.dom().finite()
    &&& live.dom().len() == s.allocations
    &&& s.allocations == 0 ==> s == BinState::fresh(s.start, s.end)
    &&& forall|k: int| 0 <= k < BIN_COUNT ==> (#[trigger] s.bins[k]).no_duplicates()
    &&& live_blocks_ok(s, live)
    &&& blocks_in_arena(s, live)
    &&& blocks_disjoint(s, live)
}

/// The blocks that are handed out after a request for `layout` was answered
/// with `result`.
pub open spec fn live_after_allocate(
    live: Map<usize, Layout>,
    layout: Layout,
    result: Option<usize>,
) -> Map<usize, Layout> {
    match result {
        Some(addr) => live.insert(addr, layout),
        None => live,
    }
}

} // verus!
