use vstd::prelude::*;

verus! {

/// Alignment granularity of chunks and payloads (two words).
pub const MALLOC_ALIGNMENT: usize = 16;

/// Header of every chunk: `prev_foot` and `head`, one word each.
pub const CHUNK_OVERHEAD: usize = 16;

/// Smallest chunk that can hold the free-list linkage.
pub const MIN_CHUNK_SIZE: usize = 32;

/// Size of the in-use sentinel chunk that closes every segment.
pub const FENCEPOST_SIZE: usize = 16;

/// Number of exact-size small bins.
pub const NSMALLBINS: usize = 32;

/// Number of size-ranged tree bins.
pub const NTREEBINS: usize = 32;

/// `small_index(size) == size >> SMALLBIN_SHIFT`.
pub const SMALLBIN_SHIFT: usize = 3;

/// Tree bins start at `1 << TREEBIN_SHIFT`.
pub const TREEBIN_SHIFT: usize = 8;

/// Smallest chunk size served by the tree bins.
pub const MIN_LARGE_SIZE: usize = 256;

/// Largest request the allocator accepts; larger ones fail.
pub const MAX_REQUEST: usize = 0x1000_0000;

/// Addresses handed out by the platform stay below this bound.
pub const ADDRESS_LIMIT: usize = 0x8000_0000;

/// Requests of at least this chunk size are mapped directly from the platform.
pub const MMAP_THRESHOLD: usize = 0x20_0000;

/// A wholly free segment at least this large goes back to the platform.
pub const TRIM_THRESHOLD: usize = 0x20_0000;

/// What a trimmed top keeps of itself.
pub const TOP_KEEP: usize = 0x1_0000;

/// `x` rounded up to a multiple of `a`.
pub open spec fn round_up(x: int, a: int) -> int
    recommends
        a > 0,
{
    ((x + a - 1) / a) * a
}

/// The chunk size that serves a request of `req` payload bytes: the request
/// plus the header, rounded up to the granularity, and never below the minimum.
pub open spec fn request_to_chunk(req: int) -> int {
    if round_up(req + CHUNK_OVERHEAD, MALLOC_ALIGNMENT as int) < MIN_CHUNK_SIZE {
        MIN_CHUNK_SIZE as int
    } else {
        round_up(req + CHUNK_OVERHEAD, MALLOC_ALIGNMENT as int)
    }
}

/// Rounds `x` up to a multiple of `a`.
pub fn align_up(x: usize, a: usize) -> (r: usize)
    requires
        a > 0,
        x + a <= usize::MAX,
    ensures
        r == round_up(x as int, a as int),
        r % a == 0,
        x <= r < x + a,
{
    let q = (x + a - 1) / a;
    proof {
        let n: int = x + a - 1;
        assert(q * a <= n && n < q * a + a) by (nonlinear_arith)
            requires
                q == n / (a as int),
                a > 0,
        ;
        assert((q * a) % (a as int) == 0) by (nonlinear_arith)
            requires
                a > 0,
        ;
    }
    q * a
}

/// How many bytes to ask of the platform for a segment that must hold a
/// chunk of `nb` bytes: the chunk and its fencepost, but no less than the
/// trim threshold, rounded up to whole pages (and to the granularity).
pub open spec fn segment_size(nb: int, page: int) -> int {
    let least = if nb + FENCEPOST_SIZE < TRIM_THRESHOLD {
        TRIM_THRESHOLD as int
    } else {
        nb + FENCEPOST_SIZE
    };
    round_up(round_up(least, page), MALLOC_ALIGNMENT as int)
}

/// The size of the region to ask of a platform with pages of `page` bytes
/// for a chunk of `nb` bytes.
pub fn segment_request(nb: usize, page: usize) -> (r: usize)
    requires
        nb <= 4 * MAX_REQUEST + 0x1000,
        0 < page <= 0x10_0000,
    ensures
        r == segment_size(nb as int, page as int),
        r >= nb + FENCEPOST_SIZE,
        r % MALLOC_ALIGNMENT == 0,
{
    let need = nb + FENCEPOST_SIZE;
    let least = if need < TRIM_THRESHOLD {
        TRIM_THRESHOLD
    } else {
        need
    };
    align_up(align_up(least, page), MALLOC_ALIGNMENT)
}

/// The chunk size for a request of `req` bytes.
pub fn pad_request(req: usize) -> (r: usize)
    requires
        req <= 4 * MAX_REQUEST,
    ensures
        r == request_to_chunk(req as int),
        r % MALLOC_ALIGNMENT == 0,
        r >= MIN_CHUNK_SIZE,
        r >= req + CHUNK_OVERHEAD,
        r <= req + CHUNK_OVERHEAD + MIN_CHUNK_SIZE,
{
    let s = align_up(req + CHUNK_OVERHEAD, MALLOC_ALIGNMENT);
    if s < MIN_CHUNK_SIZE {
        MIN_CHUNK_SIZE
    } else {
        s
    }
}

/// Small-bin index of a chunk size.
pub open spec fn small_index_of(size: int) -> int {
    size / 8
}

/// Whether a chunk size is served by the small bins.
pub open spec fn is_small_size(size: int) -> bool {
    small_index_of(size) < NSMALLBINS
}

/// Small-bin index of `size`: the bin that holds chunks of exactly that size.
pub fn small_index(size: usize) -> (r: usize)
    ensures
        r == small_index_of(size as int),
{
    size / 8
}

/// Chunk size held by small bin `idx`.
pub fn small_index2size(idx: usize) -> (r: usize)
    requires
        idx < NSMALLBINS,
    ensures
        r == idx * 8,
{
    idx * 8
}

/// Whether chunks of `size` bytes belong to the small bins.
pub fn is_small(size: usize) -> (r: bool)
    ensures
        r == is_small_size(size as int),
        r <==> size < MIN_LARGE_SIZE,
{
    size / 8 < NSMALLBINS
}

} // verus!

verus! {

/// Whether `a` is a power of two.
pub open spec fn is_power_of_two(a: int) -> bool
    decreases a,
{
    if a <= 0 {
        false
    } else if a == 1 {
        true
    } else {
        a % 2 == 0 && is_power_of_two(a / 2)
    }
}

/// A power of two no larger than the granularity divides every multiple of
/// the granularity.
pub proof fn lemma_small_power_divides(a: int, p: int)
    requires
        is_power_of_two(a),
        a <= MALLOC_ALIGNMENT,
        p % (MALLOC_ALIGNMENT as int) == 0,
    ensures
        a > 0,
        p % a == 0,
{
    reveal_with_fuel(is_power_of_two, 6);
    assert(a == 1 || a == 2 || a == 4 || a == 8 || a == 16);
    if a == 1 {
    } else if a == 2 {
        assert(p % 2 == 0);
    } else if a == 4 {
        assert(p % 4 == 0);
    } else if a == 8 {
        assert(p % 8 == 0);
    }
}

/// A power of two above the granularity is a multiple of it.
pub proof fn lemma_large_power_aligned(a: int)
    requires
        is_power_of_two(a),
        a >= MALLOC_ALIGNMENT,
    ensures
        a % (MALLOC_ALIGNMENT as int) == 0,
    decreases a,
{
    if a > MALLOC_ALIGNMENT {
        assert(a % 2 == 0 && is_power_of_two(a / 2));
        if a / 2 >= MALLOC_ALIGNMENT {
            lemma_large_power_aligned(a / 2);
        } else {
            reveal_with_fuel(is_power_of_two, 5);
            assert(a / 2 == 1 || a / 2 == 2 || a / 2 == 4 || a / 2 == 8 || a / 2 >= 16);
        }
    }
}

} // verus!

verus! {

/// `2` to the power `k`.
pub open spec fn pow2(k: nat) -> nat
    decreases k,
{
    if k == 0 {
        1
    } else {
        2 * pow2((k - 1) as nat)
    }
}

/// The position of the highest set bit of `x`.
pub open spec fn log2_floor(x: nat) -> nat
    decreases x,
{
    if x < 2 {
        0
    } else {
        1 + log2_floor(x / 2)
    }
}

/// The smallest chunk size held by tree bin `i`: each power of two from
/// `2^TREEBIN_SHIFT` on is split into two bins.
pub open spec fn treebin_start(i: nat) -> nat {
    pow2(TREEBIN_SHIFT as nat + i / 2) + (i % 2) * pow2((TREEBIN_SHIFT as nat + i / 2 - 1) as nat)
}

/// The tree bin of a chunk size of at least `MIN_LARGE_SIZE`: twice the
/// number of doublings past `2^TREEBIN_SHIFT`, plus the bit just below the
/// highest one; sizes from `2^24` on share the last bin.
pub open spec fn tree_index_of(size: nat) -> nat {
    let k = log2_floor(size);
    if k >= TREEBIN_SHIFT + NTREEBINS / 2 {
        (NTREEBINS - 1) as nat
    } else {
        (2 * (k - TREEBIN_SHIFT) + (size / pow2((k - 1) as nat)) % 2) as nat
    }
}

/// Powers of two are positive and double.
pub proof fn lemma_pow2_facts(k: nat)
    ensures
        pow2(k) >= 1,
        pow2(k + 1) == 2 * pow2(k),
    decreases k,
{
    if k > 0 {
        lemma_pow2_facts((k - 1) as nat);
    }
}

/// The highest set bit of `x` is `k` exactly when `2^k <= x < 2^(k+1)`.
pub proof fn lemma_log2_floor(x: nat, k: nat)
    requires
        pow2(k) <= x < 2 * pow2(k),
    ensures
        log2_floor(x) == k,
    decreases k,
{
    lemma_pow2_facts(k);
    if k > 0 {
        lemma_pow2_facts((k - 1) as nat);
        assert(pow2((k - 1) as nat) <= x / 2 < 2 * pow2((k - 1) as nat));
        lemma_log2_floor(x / 2, (k - 1) as nat);
    }
}

/// The highest set bit of a positive `x` bounds it.
pub proof fn lemma_log2_bounds(x: nat)
    requires
        x >= 1,
    ensures
        pow2(log2_floor(x)) <= x < 2 * pow2(log2_floor(x)),
    decreases x,
{
    if x >= 2 {
        lemma_log2_bounds(x / 2);
        lemma_pow2_facts(log2_floor(x / 2));
    }
}

/// Tree bin index of a chunk size of at least `MIN_LARGE_SIZE`.
pub fn compute_tree_index(size: usize) -> (r: usize)
    requires
        size >= MIN_LARGE_SIZE,
    ensures
        r == tree_index_of(size as nat),
        r < NTREEBINS,
{
    let mut p: usize = MIN_LARGE_SIZE;
    let mut k: usize = TREEBIN_SHIFT;
    proof {
        reveal_with_fuel(pow2, 9);
    }
    while k < TREEBIN_SHIFT + NTREEBINS / 2 && p <= size / 2
        invariant
            TREEBIN_SHIFT <= k <= TREEBIN_SHIFT + NTREEBINS / 2,
            p == pow2(k as nat),
            p <= size,
        decreases TREEBIN_SHIFT + NTREEBINS / 2 - k,
    {
        proof {
            lemma_pow2_facts(k as nat);
        }
        p = p * 2;
        k = k + 1;
    }
    proof {
        lemma_pow2_facts(k as nat);
        lemma_log2_bounds(size as nat);
    }
    if k >= TREEBIN_SHIFT + NTREEBINS / 2 {
        proof {
            let j = log2_floor(size as nat);
            if j < k {
                lemma_pow2_monotone(j + 1, k as nat);
            }
        }
        return NTREEBINS - 1;
    }
    proof {
        lemma_log2_floor(size as nat, k as nat);
        lemma_pow2_facts((k - 1) as nat);
    }
    let half = p / 2;
    2 * (k - TREEBIN_SHIFT) + (size / half) % 2
}

/// Powers of two grow with the exponent.
pub proof fn lemma_pow2_monotone(a: nat, b: nat)
    requires
        a <= b,
    ensures
        pow2(a) <= pow2(b),
    decreases b - a,
{
    if a < b {
        lemma_pow2_monotone(a, (b - 1) as nat);
        lemma_pow2_facts((b - 1) as nat);
    }
}

/// Where the two tree bins of the power of two `2^k` start.
pub proof fn lemma_treebin_starts(k: nat)
    requires
        k >= TREEBIN_SHIFT,
    ensures
        treebin_start((2 * (k - TREEBIN_SHIFT)) as nat) == pow2(k),
        treebin_start((2 * (k - TREEBIN_SHIFT) + 1) as nat) == pow2(k) + pow2((k - 1) as nat),
{
    let e = (2 * (k - TREEBIN_SHIFT)) as nat;
    let o = (2 * (k - TREEBIN_SHIFT) + 1) as nat;
    assert(e / 2 == k - TREEBIN_SHIFT && e % 2 == 0);
    assert(o / 2 == k - TREEBIN_SHIFT && o % 2 == 1);
    assert((TREEBIN_SHIFT as nat + o / 2 - 1) as nat == (k - 1) as nat);
    assert((TREEBIN_SHIFT as nat + e / 2) as nat == k);
}

/// Sizes from `2^24` on go to the last tree bin, whose range they are in.
pub proof fn lemma_last_tree_bin(size: nat)
    requires
        log2_floor(size) >= 24,
        size >= 1,
    ensures
        tree_index_of(size) == NTREEBINS - 1,
        treebin_start(tree_index_of(size)) <= size,
{
    let k = log2_floor(size);
    lemma_log2_bounds(size);
    assert(pow2(22) == 0x40_0000 && pow2(23) == 0x80_0000 && pow2(24) == 0x100_0000) by {
        reveal_with_fuel(pow2, 25);
    }
    lemma_treebin_starts(23);
    assert(treebin_start(31) == pow2(23) + pow2(22));
    lemma_pow2_monotone(24, k);
    assert(pow2(24) <= pow2(k) <= size);
}

/// A chunk size falls within the range of the tree bin it is filed under:
/// at least the bin's start and, but for the last bin, below the next bin's.
pub proof fn lemma_tree_index_range(size: nat)
    requires
        size >= MIN_LARGE_SIZE,
    ensures
        tree_index_of(size) < NTREEBINS,
        treebin_start(tree_index_of(size)) <= size,
        tree_index_of(size) < NTREEBINS - 1 ==> size < treebin_start(tree_index_of(size) + 1),
{
    let k = log2_floor(size);
    lemma_log2_bounds(size);
    assert(pow2(8) == 256) by {
        reveal_with_fuel(pow2, 9);
    }
    if k < 8 {
        lemma_pow2_monotone(k + 1, 8);
        lemma_pow2_facts(k);
        assert(false);
    }
    lemma_pow2_facts(k);
    lemma_pow2_facts((k - 1) as nat);
    let q = pow2((k - 1) as nat);
    assert(pow2(k) == 2 * q);
    assert(2 * q <= size < 4 * q);
    let d = size / q;
    assert(2 <= d < 4) by (nonlinear_arith)
        requires
            q >= 1,
            2 * q <= size < 4 * q,
            d == size / q,
    ;
    assert(d * q <= size < d * q + q) by (nonlinear_arith)
        requires
            q >= 1,
            d == size / q,
    ;
    if k >= 24 {
        lemma_last_tree_bin(size);
    } else {
        let i = tree_index_of(size);
        assert(i == 2 * (k - 8) + d % 2);
        lemma_treebin_starts(k);
        lemma_treebin_starts(k + 1);
        lemma_pow2_facts(k);
        if d == 2 {
            assert(i == 2 * (k - 8));
        } else {
            assert(i == 2 * (k - 8) + 1);
            assert(i + 1 == 2 * (k + 1 - 8));
        }
    }
}

} // verus!

verus! {

/// Whether bit `i` of `m` is set.
pub open spec fn has_bit(m: u32, i: u32) -> bool {
    (m >> i) & 1u32 == 1u32
}

/// Setting bit `i` sets it and leaves the others.
pub proof fn lemma_set_bit(m: u32, i: u32, j: u32)
    requires
        i < 32,
        j < 32,
    ensures
        has_bit(m | (1u32 << i), j) == (i == j || has_bit(m, j)),
{
    assert(((m | (1u32 << i)) >> j) & 1u32 == 1u32 <==> (i == j || (m >> j) & 1u32 == 1u32))
        by (bit_vector)
        requires
            i < 32,
            j < 32,
    ;
}

/// No bit of zero is set.
pub proof fn lemma_no_bits(j: u32)
    requires
        j < 32,
    ensures
        !has_bit(0, j),
{
    assert((0u32 >> j) & 1u32 != 1u32) by (bit_vector)
        requires
            j < 32,
    ;
}

/// The bit for bin `idx`.
pub fn idx2bit(idx: usize) -> (r: u32)
    requires
        idx < 32,
    ensures
        r == 1u32 << (idx as u32),
{
    1u32 << (idx as u32)
}

} // verus!
