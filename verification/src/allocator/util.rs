//! Alignment and size-class arithmetic.
use vstd::arithmetic::div_mod::{
    lemma_fundamental_div_mod, lemma_mod_decreases, lemma_mod_multiples_basic,
};
use vstd::arithmetic::power2::{
    is_pow2, lemma2_to64, lemma_pow2_strictly_increases, lemma_pow2_unfold, pow2,
};
use vstd::prelude::*;

verus! {

/// The greatest multiple of `align` that is at most `addr`.
pub open spec fn aligned_down(addr: int, align: int) -> int {
    addr - addr % align
}

/// The least multiple of `align` that is at least `addr`.
pub open spec fn aligned_up(addr: int, align: int) -> int {
    if addr % align == 0 {
        addr
    } else {
        addr - addr % align + align
    }
}

/// `aligned_down` is a multiple of `align`, at most `addr`, and less than
/// `align` below it.
pub proof fn lemma_aligned_down(addr: int, align: int)
    requires
        align > 0,
    ensures
        aligned_down(addr, align) % align == 0,
        aligned_down(addr, align) <= addr < aligned_down(addr, align) + align,
        addr >= 0 ==> aligned_down(addr, align) >= 0,
{
    if addr >= 0 {
        lemma_mod_decreases(addr as nat, align as nat);
    }
    let q = addr / align;
    lemma_fundamental_div_mod(addr, align);
    assert(aligned_down(addr, align) == q * align) by (nonlinear_arith)
        requires
            addr == align * q + addr % align,
            aligned_down(addr, align) == addr - addr % align,
    ;
    lemma_mod_multiples_basic(q, align);
}

/// Any multiple `m` of `align` with `m <= addr < m + align` is `aligned_down`.
pub proof fn lemma_aligned_down_unique(addr: int, align: int, m: int)
    requires
        align > 0,
        m % align == 0,
        m <= addr < m + align,
    ensures
        m == aligned_down(addr, align),
{
    lemma_aligned_down(addr, align);
    lemma_multiples_apart(m, aligned_down(addr, align), align);
}

/// `aligned_up` is a multiple of `align`, at least `addr`, and less than
/// `align` above it.
pub proof fn lemma_aligned_up(addr: int, align: int)
    requires
        align > 0,
    ensures
        aligned_up(addr, align) % align == 0,
        addr <= aligned_up(addr, align) < addr + align,
{
    lemma_aligned_down(addr, align);
    let d = aligned_down(addr, align);
    lemma_multiple_step(d, align);
}

/// Rounding up keeps exactly the multiples of `align`.
pub proof fn lemma_aligned_up_fixed(addr: int, align: int)
    requires
        align > 0,
    ensures
        aligned_up(addr, align) == addr <==> addr % align == 0,
{
    lemma_aligned_down(addr, align);
}

/// Any multiple `m` of `align` with `addr <= m < addr + align` is `aligned_up`.
pub proof fn lemma_aligned_up_unique(addr: int, align: int, m: int)
    requires
        align > 0,
        m % align == 0,
        addr <= m < addr + align,
    ensures
        m == aligned_up(addr, align),
{
    lemma_aligned_up(addr, align);
    lemma_multiples_apart(m, aligned_up(addr, align), align);
}

/// Two multiples of `align` that are less than `align` apart are equal.
proof fn lemma_multiples_apart(a: int, b: int, align: int)
    requires
        align > 0,
        a % align == 0,
        b % align == 0,
        a - b < align,
        b - a < align,
    ensures
        a == b,
{
    lemma_fundamental_div_mod(a, align);
    lemma_fundamental_div_mod(b, align);
    let qa = a / align;
    let qb = b / align;
    assert(a == b) by (nonlinear_arith)
        requires
            align > 0,
            a == align * qa,
            b == align * qb,
            a - b < align,
            b - a < align,
    ;
}

/// The successor of a multiple of `align` among its multiples.
proof fn lemma_multiple_step(d: int, align: int)
    requires
        align > 0,
        d % align == 0,
    ensures
        (d + align) % align == 0,
{
    lemma_fundamental_div_mod(d, align);
    let q = d / align;
    assert(d + align == (q + 1) * align) by (nonlinear_arith)
        requires
            d == align * q,
    ;
    lemma_mod_multiples_basic(q + 1, align);
}

/// Whether `num` is a power of two. Zero is not.
pub fn is_power_of_two(num: usize) -> (r: bool)
    ensures
        r == is_pow2(num as int),
{
    if num == 0 {
        proof {
            reveal(is_pow2);
        }
        return false;
    }
    proof {
        lemma_single_bit(num);
    }
    num & (num - 1) == 0
}

/// A positive integer has a single bit set exactly when it is a power of two.
proof fn lemma_single_bit(x: usize)
    requires
        x > 0,
    ensures
        (x & ((x - 1) as usize) == 0) <==> is_pow2(x as int),
    decreases x,
{
    reveal(is_pow2);
    if x == 1 {
        assert(1usize & 0usize == 0) by (bit_vector);
    } else {
        let h: usize = x / 2;
        assert((x & ((x - 1) as usize) == 0) <==> (x % 2 == 0 && h & ((h - 1) as usize) == 0))
            by (bit_vector)
            requires
                x > 1,
                h == x / 2,
        ;
        lemma_single_bit(h);
    }
}

/// Whether `addr` is a multiple of `align`.
pub fn is_align(addr: usize, align: usize) -> (r: bool)
    requires
        align > 0,
    ensures
        r == (addr % align == 0),
{
    addr % align == 0
}

/// Rounds `addr` down to a multiple of `align`.
pub fn align_down(addr: usize, align: usize) -> (r: usize)
    requires
        is_pow2(align as int),
    ensures
        r == aligned_down(addr as int, align as int),
        r % align == 0,
        r <= addr < r + align,
{
    proof {
        lemma_pow2_positive(align as int);
        lemma_aligned_down(addr as int, align as int);
    }
    addr - addr % align
}

/// Rounds `addr` up to a multiple of `align`, where that multiple is an
/// address.
pub fn align_up(addr: usize, align: usize) -> (r: usize)
    requires
        is_pow2(align as int),
        aligned_up(addr as int, align as int) <= usize::MAX,
    ensures
        r == aligned_up(addr as int, align as int),
        r % align == 0,
        addr <= r < addr + align,
{
    proof {
        lemma_pow2_positive(align as int);
        lemma_aligned_up(addr as int, align as int);
        lemma_mod_decreases(addr as nat, align as nat);
    }
    let rem = addr % align;
    if rem == 0 {
        addr
    } else {
        addr - rem + align
    }
}

/// Rounds `addr` up to a multiple of `align`, or reports that no such
/// multiple is an address.
pub fn checked_align_up(addr: usize, align: usize) -> (r: Option<usize>)
    requires
        is_pow2(align as int),
    ensures
        r == if aligned_up(addr as int, align as int) <= usize::MAX {
            Some(aligned_up(addr as int, align as int) as usize)
        } else {
            None
        },
{
    proof {
        lemma_pow2_positive(align as int);
        lemma_mod_decreases(addr as nat, align as nat);
    }
    let rem = addr % align;
    if rem == 0 {
        Some(addr)
    } else {
        (addr - rem).checked_add(align)
    }
}

/// A power of two is positive.
pub proof fn lemma_pow2_positive(n: int)
    requires
        is_pow2(n),
    ensures
        n > 0,
{
    reveal(is_pow2);
}

/// The block size of a size class: `2^(class + 3)` bytes.
pub open spec fn block_size(class: nat) -> nat {
    pow2(class + 3)
}

/// The size class of a request of `size` bytes: the first class whose blocks
/// hold `size` bytes. Class 0 takes every size up to 8; each later class takes
/// the sizes above the block size before it, up to its own.
pub open spec fn size_class(size: nat) -> nat
    decreases size,
{
    if size <= 8 {
        0
    } else {
        1 + size_class((size + 1) / 2)
    }
}

/// A block of the size class of `size` holds `size` bytes, and a block of the
/// class before it does not.
pub proof fn lemma_size_class(size: nat)
    ensures
        size <= block_size(size_class(size)),
        size_class(size) > 0 ==> block_size((size_class(size) - 1) as nat) < size,
    decreases size,
{
    lemma2_to64();
    if size > 8 {
        let half = (size + 1) / 2;
        let k = size_class(half);
        lemma_size_class(half);
        lemma_pow2_unfold(k + 4);
        if k > 0 {
            lemma_pow2_unfold(k + 3);
        }
    }
}

/// The size class of `size` is the only class `k` whose blocks hold `size`
/// bytes while those of class `k - 1` do not.
pub proof fn lemma_size_class_unique(size: nat, k: nat)
    requires
        size <= block_size(k),
        k > 0 ==> block_size((k - 1) as nat) < size,
    ensures
        k == size_class(size),
{
    let c = size_class(size);
    lemma_size_class(size);
    if k < c {
        lemma_block_size_monotonic(k, (c - 1) as nat);
    } else if c < k {
        lemma_block_size_monotonic(c, (k - 1) as nat);
    }
}

/// A request for exactly a block size gets the class of that size, and a
/// request for one byte more gets the next class.
pub proof fn lemma_size_class_at_block_size(class: nat)
    ensures
        size_class(block_size(class)) == class,
        size_class(block_size(class) + 1) == class + 1,
{
    lemma_block_size_min(class);
    lemma_pow2_unfold(class + 4);
    if class > 0 {
        lemma_pow2_strictly_increases((class + 2) as nat, class + 3);
    }
    lemma_size_class_unique(block_size(class), class);
    lemma_size_class_unique(block_size(class) + 1, class + 1);
}

/// Block sizes grow with the class.
pub proof fn lemma_block_size_monotonic(a: nat, b: nat)
    requires
        a <= b,
    ensures
        block_size(a) <= block_size(b),
{
    if a < b {
        lemma_pow2_strictly_increases(a + 3, b + 3);
    }
}

/// No block is smaller than 8 bytes.
pub proof fn lemma_block_size_min(class: nat)
    ensures
        block_size(class) >= 8,
{
    lemma2_to64();
    lemma_block_size_monotonic(0, class);
}

/// The block size of `class` in bytes, for the classes up to 29, whose block
/// sizes fit in 64 bits whatever the width of an address.
pub fn bin_size(class: usize) -> (bytes: u64)
    requires
        class <= 29,
    ensures
        bytes == block_size(class as nat),
{
    let mut bytes: u64 = 8;
    let mut k: usize = 0;
    proof {
        lemma2_to64();
    }
    while k < class
        invariant
            k <= class <= 29,
            bytes == block_size(k as nat),
        decreases class - k,
    {
        proof {
            lemma2_to64();
            lemma_pow2_unfold((k + 4) as nat);
            lemma_block_size_monotonic((k + 1) as nat, 29);
        }
        bytes = bytes * 2;
        k = k + 1;
    }
    bytes
}

/// Maps a request of `size` bytes to its size class. Classes above 29 are
/// beyond what an allocator serves.
pub fn map_to_bin(size: usize) -> (k: usize)
    ensures
        k == size_class(size as nat),
        size <= block_size(k as nat),
        k > 0 ==> block_size((k - 1) as nat) < size,
        k <= 61,
{
    let mut k: usize = 0;
    let mut rest: usize = size;
    while rest > 8
        invariant
            size_class(size as nat) == k + size_class(rest as nat),
            k + rest <= size,
        decreases rest,
    {
        rest = rest / 2 + rest % 2;
        k = k + 1;
    }
    proof {
        lemma_size_class(size as nat);
        if k > 61 {
            lemma2_to64();
            lemma_block_size_monotonic(61, (k - 1) as nat);
        }
    }
    k
}

/// A finite set of addresses within `[lo, hi)` has at most `hi - lo` members.
pub proof fn lemma_count_in_range(set: Set<usize>, lo: usize, hi: usize)
    requires
        set.finite(),
        forall|a: usize| #[trigger] set.contains(a) ==> lo <= a < hi,
    ensures
        lo <= hi ==> set.len() <= hi - lo,
        lo > hi ==> set.len() == 0,
    decreases hi,
{
    if hi <= lo {
        if set.len() != 0 {
            assert(set.contains(set.choose()));
        }
    } else {
        let top = (hi - 1) as usize;
        let rest = set.remove(top);
        lemma_count_in_range(rest, lo, top);
    }
}

} // verus!
