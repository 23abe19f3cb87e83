//! What holds of the size-classed allocator's states: the invariant that both
//! transitions keep, and what follows from it.
use crate::allocator::bin_state::{
    allocate_all, blocks_disjoint, blocks_in_arena, deallocate_all, first_aligned, in_bin, inv,
    is_block, live_after_allocate, live_blocks_ok, BinState, BIN_COUNT,
};
use crate::allocator::layout::Layout;
use crate::allocator::util::{
    aligned_up, block_size, lemma_aligned_up, lemma_block_size_min, lemma_count_in_range,
    lemma_pow2_positive, lemma_size_class, size_class,
};
use vstd::arithmetic::power2::is_pow2;
use vstd::prelude::*;

verus! {

/// Where `first_aligned` stops: at an aligned address, past unaligned ones.
pub proof fn lemma_first_aligned(list: Seq<usize>, align: int, from: int)
    requires
        0 <= from <= list.len(),
    ensures
        from <= first_aligned(list, align, from) <= list.len(),
        first_aligned(list, align, from) < list.len() ==> list[first_aligned(list, align, from)] as int
            % align == 0,
        forall|j: int|
            from <= j < first_aligned(list, align, from) ==> (#[trigger] list[j]) as int % align
                != 0,
    decreases list.len() - from,
{
    if from < list.len() && list[from] as int % align != 0 {
        lemma_first_aligned(list, align, from + 1);
    }
}

/// Taking one address out of a list without duplicates leaves the others, and
/// no duplicates.
proof fn lemma_remove(list: Seq<usize>, index: int)
    requires
        list.no_duplicates(),
        0 <= index < list.len(),
    ensures
        list.remove(index).no_duplicates(),
        forall|b: usize| #[trigger]
            list.remove(index).contains(b) <==> list.contains(b) && b != list[index],
{
    let rest = list.remove(index);
    assert forall|b: usize| #[trigger] rest.contains(b) <==> list.contains(b) && b
        != list[index] by {
        if rest.contains(b) {
            let i = choose|i: int| 0 <= i < rest.len() && rest[i] == b;
            if i < index {
                assert(list[i] == b);
            } else {
                assert(list[i + 1] == b);
            }
        }
        if list.contains(b) && b != list[index] {
            let i = choose|i: int| 0 <= i < list.len() && list[i] == b;
            if i < index {
                assert(rest[i] == b);
            } else {
                assert(rest[i - 1] == b);
            }
        }
    }
}

/// A new head that the list did not hold joins the others, and brings no
/// duplicate.
proof fn lemma_push(list: Seq<usize>, addr: usize)
    requires
        list.no_duplicates(),
        !list.contains(addr),
    ensures
        (seq![addr] + list).no_duplicates(),
        forall|b: usize| #[trigger] (seq![addr] + list).contains(b) <==> b == addr || list.contains(b),
{
    let more = seq![addr] + list;
    assert forall|b: usize| #[trigger] more.contains(b) <==> b == addr || list.contains(b) by {
        if more.contains(b) {
            let i = choose|i: int| 0 <= i < more.len() && more[i] == b;
            if i > 0 {
                assert(list[i - 1] == b);
            }
        }
        if b == addr {
            assert(more[0] == b);
        }
        if list.contains(b) {
            let i = choose|i: int| 0 <= i < list.len() && list[i] == b;
            assert(more[i + 1] == b);
        }
    }
    assert forall|i: int, j: int| 0 <= i < more.len() && 0 <= j < more.len() && i != j implies more[i]
        != more[j] by {
        if i > 0 {
            assert(list.contains(list[i - 1]));
        }
        if j > 0 {
            assert(list.contains(list[j - 1]));
        }
    }
}

/// A fresh allocator, with nothing handed out, meets the invariant.
pub proof fn lemma_fresh(start: usize, end: usize)
    ensures
        inv(BinState::fresh(start, end), Map::<usize, Layout>::empty()),
{
    let s = BinState::fresh(start, end);
    let live = Map::<usize, Layout>::empty();
    assert forall|b: usize, k: int| !is_block(s, live, b, k) by {
        if 0 <= k < BIN_COUNT {
            assert(s.bins[k].len() == 0);
        }
    }
}

/// A block that is free is not handed out.
proof fn lemma_free_is_not_live(s: BinState, live: Map<usize, Layout>, class: int, addr: usize)
    requires
        inv(s, live),
        in_bin(s, class, addr),
    ensures
        !live.dom().contains(addr),
{
    if live.dom().contains(addr) {
        let other = size_class(live[addr].size as nat) as int;
        assert(is_block(s, live, addr, class));
        assert(is_block(s, live, addr, other));
        lemma_block_size_min(class as nat);
        lemma_block_size_min(other as nat);
    }
}

/// The number of blocks handed out is at most the number of bytes that the
/// cursor has passed.
pub proof fn lemma_allocations_bounded(s: BinState, live: Map<usize, Layout>)
    requires
        inv(s, live),
    ensures
        s.allocations <= s.current - s.start,
{
    assert forall|a: usize| #[trigger] live.dom().contains(a) implies s.start <= a < s.current by {
        let class = size_class(live[a].size as nat) as int;
        assert(is_block(s, live, a, class));
        lemma_block_size_min(class as nat);
    }
    lemma_count_in_range(live.dom(), s.start, s.current);
}

/// Handing out a free block that is aligned as asked keeps the invariant.
proof fn lemma_reuse(s: BinState, live: Map<usize, Layout>, layout: Layout, index: int)
    requires
        inv(s, live),
        is_pow2(layout.align as int),
        size_class(layout.size as nat) < BIN_COUNT,
        0 <= index < s.bins[size_class(layout.size as nat) as int].len(),
        s.bins[size_class(layout.size as nat) as int][index] as int % layout.align as int == 0,
    ensures
        !live.dom().contains(s.bins[size_class(layout.size as nat) as int][index]),
        inv(
            s.reuse(size_class(layout.size as nat) as int, index),
            live.insert(s.bins[size_class(layout.size as nat) as int][index], layout),
        ),
{
    let class = size_class(layout.size as nat) as int;
    let addr = s.bins[class][index];
    let s2 = s.reuse(class, index);
    let live2 = live.insert(addr, layout);
    assert(in_bin(s, class, addr));
    lemma_free_is_not_live(s, live, class, addr);
    lemma_remove(s.bins[class], index);
    assert forall|b: usize, k: int|
        in_bin(s2, k, b) <==> in_bin(s, k, b) && !(k == class && b == addr) by {
        if 0 <= k < BIN_COUNT && k != class {
            assert(s2.bins[k] == s.bins[k]);
        }
    }
    assert forall|b: usize, k: int| #[trigger]
        is_block(s2, live2, b, k) <==> is_block(s, live, b, k) by {
        assert(in_bin(s2, k, b) <==> in_bin(s, k, b) && !(k == class && b == addr));
    }
    assert(blocks_in_arena(s2, live2)) by {
        assert forall|b: usize, k: int| #[trigger] is_block(s2, live2, b, k) implies 0 <= k
            < BIN_COUNT && s2.start <= b && b + block_size(k as nat) <= s2.current by {
            assert(is_block(s, live, b, k));
        }
    }
    assert(blocks_disjoint(s2, live2)) by {
        assert forall|a: usize, j: int, b: usize, k: int|
            #[trigger] is_block(s2, live2, a, j) && #[trigger] is_block(s2, live2, b, k) && (a != b
                || j != k) implies a + block_size(j as nat) <= b || b + block_size(k as nat)
            <= a by {
            assert(is_block(s, live, a, j));
            assert(is_block(s, live, b, k));
        }
    }
    assert(live_blocks_ok(s2, live2)) by {
        assert forall|b: usize| #[trigger] live2.dom().contains(b) implies {
            &&& is_pow2(live2[b].align as int)
            &&& b as int % live2[b].align as int == 0
            &&& !in_bin(s2, size_class(live2[b].size as nat) as int, b)
        } by {
            let k = size_class(live2[b].size as nat) as int;
            assert(in_bin(s2, k, b) <==> in_bin(s, k, b) && !(k == class && b == addr));
            if b != addr {
                assert(live.dom().contains(b));
            }
        }
    }
    assert forall|k: int| 0 <= k < BIN_COUNT implies (#[trigger] s2.bins[k]).no_duplicates() by {
        if k != class {
            assert(s2.bins[k] == s.bins[k]);
        }
    }
}

/// Carving a new block out behind the cursor keeps the invariant.
proof fn lemma_bump(s: BinState, live: Map<usize, Layout>, layout: Layout)
    requires
        inv(s, live),
        is_pow2(layout.align as int),
        size_class(layout.size as nat) < BIN_COUNT,
        aligned_up(s.current as int, layout.align as int) + block_size(size_class(layout.size as nat))
            <= s.end,
    ensures
        !live.dom().contains(aligned_up(s.current as int, layout.align as int) as usize),
        inv(
            s.bump(
                (aligned_up(s.current as int, layout.align as int) + block_size(
                    size_class(layout.size as nat),
                )) as usize,
            ),
            live.insert(aligned_up(s.current as int, layout.align as int) as usize, layout),
        ),
{
    let class = size_class(layout.size as nat) as int;
    lemma_pow2_positive(layout.align as int);
    lemma_aligned_up(s.current as int, layout.align as int);
    lemma_block_size_min(class as nat);
    let addr = aligned_up(s.current as int, layout.align as int) as usize;
    let s2 = s.bump((addr + block_size(class as nat)) as usize);
    let live2 = live.insert(addr, layout);
    assert forall|k: int| !is_block(s, live, addr, k) by {
        if is_block(s, live, addr, k) {
            lemma_block_size_min(k as nat);
        }
    }
    if live.dom().contains(addr) {
        assert(is_block(s, live, addr, size_class(live[addr].size as nat) as int));
    }
    assert forall|b: usize, k: int| #[trigger]
        is_block(s2, live2, b, k) <==> is_block(s, live, b, k) || (b == addr && k == class) by {
        assert(in_bin(s2, k, b) <==> in_bin(s, k, b));
    }
    assert(blocks_in_arena(s2, live2)) by {
        assert forall|b: usize, k: int| #[trigger] is_block(s2, live2, b, k) implies 0 <= k
            < BIN_COUNT && s2.start <= b && b + block_size(k as nat) <= s2.current by {
            if !(b == addr && k == class) {
                assert(is_block(s, live, b, k));
            }
        }
    }
    assert(blocks_disjoint(s2, live2)) by {
        assert forall|a: usize, j: int, b: usize, k: int|
            #[trigger] is_block(s2, live2, a, j) && #[trigger] is_block(s2, live2, b, k) && (a != b
                || j != k) implies a + block_size(j as nat) <= b || b + block_size(k as nat)
            <= a by {
            if !(a == addr && j == class) {
                assert(is_block(s, live, a, j));
            }
            if !(b == addr && k == class) {
                assert(is_block(s, live, b, k));
            }
        }
    }
    assert(live_blocks_ok(s2, live2)) by {
        assert forall|b: usize| #[trigger] live2.dom().contains(b) implies {
            &&& is_pow2(live2[b].align as int)
            &&& b as int % live2[b].align as int == 0
            &&& !in_bin(s2, size_class(live2[b].size as nat) as int, b)
        } by {
            let k = size_class(live2[b].size as nat) as int;
            assert(in_bin(s2, k, b) <==> in_bin(s, k, b));
            if b != addr {
                assert(live.dom().contains(b));
            } else {
                assert(!is_block(s, live, addr, k));
            }
        }
    }
}

/// A request keeps the invariant, and the block handed out was not out
/// before.
pub proof fn lemma_allocate(s: BinState, live: Map<usize, Layout>, layout: Layout)
    requires
        inv(s, live),
    ensures
        inv(s.allocate(layout).0, live_after_allocate(live, layout, s.allocate(layout).1)),
        s.allocate(layout).1 matches Some(addr) ==> !live.dom().contains(addr),
{
    let class = size_class(layout.size as nat) as int;
    if is_pow2(layout.align as int) && class < BIN_COUNT {
        let list = s.bins[class];
        let index = first_aligned(list, layout.align as int, 0);
        lemma_first_aligned(list, layout.align as int, 0);
        if index < list.len() {
            lemma_reuse(s, live, layout, index);
        } else if aligned_up(s.current as int, layout.align as int) + block_size(class as nat)
            <= s.end {
            lemma_bump(s, live, layout);
        }
    }
}

/// The return of a block that is out keeps the invariant.
pub proof fn lemma_deallocate(s: BinState, live: Map<usize, Layout>, addr: usize, layout: Layout)
    requires
        inv(s, live),
        live.dom().contains(addr),
        live[addr] == layout,
    ensures
        s.allocations >= 1,
        size_class(layout.size as nat) < BIN_COUNT,
        inv(s.deallocate(addr, layout), live.remove(addr)),
{
    let class = size_class(layout.size as nat) as int;
    let s2 = s.deallocate(addr, layout);
    let live2 = live.remove(addr);
    assert(is_block(s, live, addr, class));
    if s.allocations == 1 {
        assert(live2.dom() =~= Set::<usize>::empty()) by {
            if exists|b: usize| live2.dom().contains(b) {
                assert(live2.dom().len() != 0);
            }
        }
        assert forall|b: usize, k: int| !is_block(s2, live2, b, k) by {
            if 0 <= k < BIN_COUNT {
                assert(s2.bins[k].len() == 0);
            }
        }
    } else {
        lemma_push(s.bins[class], addr);
        assert forall|b: usize, k: int|
            in_bin(s2, k, b) <==> in_bin(s, k, b) || (k == class && b == addr) by {
            if 0 <= k < BIN_COUNT && k != class {
                assert(s2.bins[k] == s.bins[k]);
            }
        }
        assert forall|b: usize, k: int| #[trigger]
            is_block(s2, live2, b, k) <==> is_block(s, live, b, k) by {
            assert(in_bin(s2, k, b) <==> in_bin(s, k, b) || (k == class && b == addr));
        }
        assert(blocks_in_arena(s2, live2)) by {
            assert forall|b: usize, k: int| #[trigger] is_block(s2, live2, b, k) implies 0 <= k
                < BIN_COUNT && s2.start <= b && b + block_size(k as nat) <= s2.current by {
                assert(is_block(s, live, b, k));
            }
        }
        assert(blocks_disjoint(s2, live2)) by {
            assert forall|a: usize, j: int, b: usize, k: int|
                #[trigger] is_block(s2, live2, a, j) && #[trigger] is_block(s2, live2, b, k) && (a
                    != b || j != k) implies a + block_size(j as nat) <= b || b + block_size(
                k as nat,
            ) <= a by {
                assert(is_block(s, live, a, j));
                assert(is_block(s, live, b, k));
            }
        }
        assert(live_blocks_ok(s2, live2)) by {
            assert forall|b: usize| #[trigger] live2.dom().contains(b) implies {
                &&& is_pow2(live2[b].align as int)
                &&& b as int % live2[b].align as int == 0
                &&& !in_bin(s2, size_class(live2[b].size as nat) as int, b)
            } by {
                let k = size_class(live2[b].size as nat) as int;
                assert(in_bin(s2, k, b) <==> in_bin(s, k, b) || (k == class && b == addr));
                assert(live.dom().contains(b));
            }
        }
        assert forall|k: int| 0 <= k < BIN_COUNT implies (#[trigger] s2.bins[k]).no_duplicates() by {
            if k != class {
                assert(s2.bins[k] == s.bins[k]);
            }
        }
    }
}

/// Bounds and alignment: a block that is out starts at a multiple of the
/// alignment asked for, and its bytes lie within the arena.
pub proof fn lemma_live_block(s: BinState, live: Map<usize, Layout>, addr: usize)
    requires
        inv(s, live),
        live.dom().contains(addr),
    ensures
        addr as int % live[addr].align as int == 0,
        s.start <= addr,
        addr + live[addr].size <= s.end,
{
    let class = size_class(live[addr].size as nat) as int;
    assert(is_block(s, live, addr, class));
    lemma_size_class(live[addr].size as nat);
    lemma_block_size_min(class as nat);
}

/// Non-overlap: two blocks that are out at the same time share no byte.
pub proof fn lemma_live_blocks_apart(s: BinState, live: Map<usize, Layout>, a: usize, b: usize)
    requires
        inv(s, live),
        live.dom().contains(a),
        live.dom().contains(b),
        a != b,
    ensures
        a + live[a].size <= b || b + live[b].size <= a,
{
    let j = size_class(live[a].size as nat) as int;
    let k = size_class(live[b].size as nat) as int;
    assert(is_block(s, live, a, j));
    assert(is_block(s, live, b, k));
    lemma_size_class(live[a].size as nat);
    lemma_size_class(live[b].size as nat);
}

/// Exhaustion: a request for more bytes than the arena has is refused.
pub proof fn lemma_oversized_refused(s: BinState, live: Map<usize, Layout>, layout: Layout)
    requires
        inv(s, live),
        layout.size > s.end - s.start,
    ensures
        s.allocate(layout).1 is None,
{
    lemma_allocate(s, live, layout);
    if let Some(addr) = s.allocate(layout).1 {
        lemma_live_block(s.allocate(layout).0, live.insert(addr, layout), addr);
    }
}

/// Reset: an allocator with no block out is in the state in which it was
/// made, so it answers every run of requests as a new allocator over the same
/// arena does.
pub proof fn lemma_idle_is_fresh(s: BinState, live: Map<usize, Layout>)
    requires
        inv(s, live),
        s.allocations == 0,
    ensures
        s == BinState::fresh(s.start, s.end),
        live == Map::<usize, Layout>::empty(),
{
    assert(live.dom() =~= Set::<usize>::empty()) by {
        if exists|b: usize| live.dom().contains(b) {
            assert(live.dom().len() != 0);
        }
    }
    assert(live =~= Map::<usize, Layout>::empty());
}

/// What a new allocator answers: the first multiple of the alignment in the
/// arena, where the request can be served at all and a block of its class
/// fits behind that address.
pub proof fn lemma_allocate_fresh(start: usize, end: usize, layout: Layout)
    ensures
        BinState::fresh(start, end).allocate(layout).1 == if is_pow2(layout.align as int)
            && size_class(layout.size as nat) < BIN_COUNT && aligned_up(
            start as int,
            layout.align as int,
        ) + block_size(size_class(layout.size as nat)) <= end {
            Some(aligned_up(start as int, layout.align as int) as usize)
        } else {
            None
        },
{
}

/// Reuse: where a block is handed out and comes back, the next request of the
/// same size class, with an alignment that the block's address has, gets that
/// block again.
///
/// Where the block was the only one out, its return makes the allocator new,
/// and the next request gets the first multiple of its own alignment in the
/// arena: the law then speaks of the requests for which that is the same
/// address.
pub proof fn lemma_reuse_after_free(
    s: BinState,
    live: Map<usize, Layout>,
    first: Layout,
    second: Layout,
)
    requires
        inv(s, live),
        s.allocate(first).1 is Some,
        size_class(second.size as nat) == size_class(first.size as nat),
        is_pow2(second.align as int),
        s.allocate(first).1->0 as int % second.align as int == 0,
        s.allocations == 0 ==> aligned_up(s.start as int, second.align as int) == s.allocate(
            first,
        ).1->0,
    ensures
        s.allocate(first).0.deallocate(s.allocate(first).1->0, first).allocate(second).1
            == s.allocate(first).1,
{
    let addr = s.allocate(first).1->0;
    let s1 = s.allocate(first).0;
    let s2 = s1.deallocate(addr, first);
    let class = size_class(first.size as nat) as int;
    lemma_allocate(s, live, first);
    if s.allocations == 0 {
        lemma_idle_is_fresh(s, live);
        lemma_allocate_fresh(s.start, s.end, first);
        lemma_allocate_fresh(s.start, s.end, second);
        lemma_pow2_positive(first.align as int);
        lemma_aligned_up(s.start as int, first.align as int);
    } else {
        let list = s2.bins[class];
        assert(list[0] == addr);
    }
}

/// What a run of requests leaves: the invariant, every block that was out
/// before, and every block that the run handed out, each under its own
/// address.
proof fn lemma_allocate_all_live(s: BinState, live: Map<usize, Layout>, layouts: Seq<Layout>) -> (after:
    Map<usize, Layout>)
    requires
        inv(s, live),
    ensures
        inv(allocate_all(s, layouts).0, after),
        allocate_all(s, layouts).1.len() == layouts.len(),
        forall|a: usize| #[trigger]
            live.dom().contains(a) ==> after.dom().contains(a) && after[a] == live[a],
        forall|i: int|
            0 <= i < layouts.len() && (#[trigger] allocate_all(s, layouts).1[i]) is Some ==> {
                &&& after.dom().contains(allocate_all(s, layouts).1[i]->0)
                &&& after[allocate_all(s, layouts).1[i]->0] == layouts[i]
                &&& !live.dom().contains(allocate_all(s, layouts).1[i]->0)
            },
        forall|i: int, j: int|
            0 <= i < j < layouts.len() && (#[trigger] allocate_all(s, layouts).1[i]) is Some && (
            #[trigger] allocate_all(s, layouts).1[j]) is Some ==> allocate_all(s, layouts).1[i]
                != allocate_all(s, layouts).1[j],
    decreases layouts.len(),
{
    if layouts.len() == 0 {
        live
    } else {
        let before = lemma_allocate_all_live(s, live, layouts.drop_last());
        let mid = allocate_all(s, layouts.drop_last());
        let step = mid.0.allocate(layouts.last());
        lemma_allocate(mid.0, before, layouts.last());
        let after = live_after_allocate(before, layouts.last(), step.1);
        let results = allocate_all(s, layouts).1;
        assert forall|i: int| 0 <= i < layouts.len() - 1 implies results[i] == mid.1[i]
            && layouts[i] == layouts.drop_last()[i] by {}
        after
    }
}

/// Bounds, alignment and non-overlap of a run of requests: each block handed
/// out starts at a multiple of the alignment asked for and lies within the
/// arena, and no two of them share a byte.
pub proof fn lemma_allocate_all(
    s: BinState,
    live: Map<usize, Layout>,
    layouts: Seq<Layout>,
    i: int,
    j: int,
)
    requires
        inv(s, live),
        0 <= i < j < layouts.len(),
    ensures
        allocate_all(s, layouts).1[i] matches Some(a) ==> {
            &&& a as int % layouts[i].align as int == 0
            &&& s.start <= a
            &&& a + layouts[i].size <= s.end
        },
        allocate_all(s, layouts).1[j] matches Some(b) ==> {
            &&& b as int % layouts[j].align as int == 0
            &&& s.start <= b
            &&& b + layouts[j].size <= s.end
        },
        allocate_all(s, layouts).1[i] matches Some(a) ==> (allocate_all(s, layouts).1[j] matches Some(
            b,
        ) ==> a + layouts[i].size <= b || b + layouts[j].size <= a),
{
    let after = lemma_allocate_all_live(s, live, layouts);
    let end_state = allocate_all(s, layouts).0;
    lemma_allocate_all_arena(s, layouts);
    if let Some(a) = allocate_all(s, layouts).1[i] {
        lemma_live_block(end_state, after, a);
        if let Some(b) = allocate_all(s, layouts).1[j] {
            lemma_live_blocks_apart(end_state, after, a, b);
        }
    }
    if let Some(b) = allocate_all(s, layouts).1[j] {
        lemma_live_block(end_state, after, b);
    }
}

/// Requests leave the arena's bounds as they are.
proof fn lemma_allocate_all_arena(s: BinState, layouts: Seq<Layout>)
    ensures
        allocate_all(s, layouts).0.start == s.start,
        allocate_all(s, layouts).0.end == s.end,
    decreases layouts.len(),
{
    if layouts.len() > 0 {
        lemma_allocate_all_arena(s, layouts.drop_last());
    }
}

/// What the return of some of the blocks that are out leaves: the invariant,
/// and out are the blocks that were out and did not come back.
proof fn lemma_deallocate_all_live(
    s: BinState,
    live: Map<usize, Layout>,
    blocks: Seq<(usize, Layout)>,
) -> (after: Map<usize, Layout>)
    requires
        inv(s, live),
        forall|i: int|
            0 <= i < blocks.len() ==> live.dom().contains((#[trigger] blocks[i]).0)
                && live[blocks[i].0] == blocks[i].1,
        forall|i: int, j: int|
            0 <= i < j < blocks.len() ==> (#[trigger] blocks[i]).0 != (#[trigger] blocks[j]).0,
    ensures
        inv(deallocate_all(s, blocks), after),
        deallocate_all(s, blocks).start == s.start,
        deallocate_all(s, blocks).end == s.end,
        deallocate_all(s, blocks).allocations == s.allocations - blocks.len(),
        forall|a: usize| #[trigger]
            after.dom().contains(a) ==> live.dom().contains(a) && after[a] == live[a],
        forall|a: usize|
            live.dom().contains(a) && (forall|i: int|
                0 <= i < blocks.len() ==> (#[trigger] blocks[i]).0 != a)
                ==> #[trigger] after.dom().contains(a),
    decreases blocks.len(),
{
    if blocks.len() == 0 {
        live
    } else {
        let front = blocks.drop_last();
        let last = blocks.last();
        let before = lemma_deallocate_all_live(s, live, front);
        assert(before.dom().contains(last.0)) by {
            assert forall|i: int| 0 <= i < front.len() implies (#[trigger] front[i]).0
                != last.0 by {
                assert(front[i] == blocks[i]);
            }
        }
        lemma_deallocate(deallocate_all(s, front), before, last.0, last.1);
        let after = before.remove(last.0);
        assert forall|a: usize|
            live.dom().contains(a) && (forall|i: int|
                0 <= i < blocks.len() ==> (#[trigger] blocks[i]).0
                    != a) implies #[trigger] after.dom().contains(a) by {
            assert forall|i: int| 0 <= i < front.len() implies (#[trigger] front[i]).0 != a by {
                assert(front[i] == blocks[i]);
            }
            assert(blocks[blocks.len() - 1].0 != a);
        }
        after
    }
}

/// Bulk reclaim: once every block that is out has come back, in whatever
/// order, the allocator is in the state in which it was made, with the whole
/// arena behind its cursor. The next request is served wherever a new
/// allocator serves it, however far the cursor had come.
pub proof fn lemma_reclaim(
    s: BinState,
    live: Map<usize, Layout>,
    blocks: Seq<(usize, Layout)>,
    next: Layout,
)
    requires
        inv(s, live),
        blocks.len() == s.allocations,
        forall|i: int|
            0 <= i < blocks.len() ==> live.dom().contains((#[trigger] blocks[i]).0)
                && live[blocks[i].0] == blocks[i].1,
        forall|i: int, j: int|
            0 <= i < j < blocks.len() ==> (#[trigger] blocks[i]).0 != (#[trigger] blocks[j]).0,
    ensures
        deallocate_all(s, blocks) == BinState::fresh(s.start, s.end),
        is_pow2(next.align as int) && size_class(next.size as nat) < BIN_COUNT && aligned_up(
            s.start as int,
            next.align as int,
        ) + block_size(size_class(next.size as nat)) <= s.end ==> deallocate_all(
            s,
            blocks,
        ).allocate(next).1 == Some(aligned_up(s.start as int, next.align as int) as usize),
{
    let after = lemma_deallocate_all_live(s, live, blocks);
    lemma_idle_is_fresh(deallocate_all(s, blocks), after);
    lemma_allocate_fresh(s.start, s.end, next);
}

} // verus!
