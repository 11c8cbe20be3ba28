use vstd::prelude::*;

use crate::chunk::{
    ChunkView, Kind, chunk_ok, end_of, heap_ok, in_bin, is_top, lemma_sorted, link_ok, total,
};
use crate::engine::{Dlmalloc, binned};
use crate::layout::{
    MALLOC_ALIGNMENT, MIN_CHUNK_SIZE, MIN_LARGE_SIZE, NSMALLBINS, NTREEBINS, lemma_tree_index_range,
    small_index_of, tree_index_of, treebin_start,
};
use crate::sys::System;

verus! {

/// Whether the chunk before chunk `j` is in use, as the `PINUSE` flag of
/// chunk `j` records it. A segment's first chunk has the flag set.
pub open spec fn prev_in_use(s: Seq<ChunkView>, j: int) -> bool {
    j == 0 || s[j - 1].kind == Kind::Fence || s[j - 1].kind != Kind::Free
}

/// Every chunk is a multiple of the granularity and at least the minimum
/// size; a fencepost is exactly its own size.
pub proof fn lemma_chunk_sizes<S: System>(m: &Dlmalloc<S>)
    requires
        m.wf(),
    ensures
        forall|i: int|
            0 <= i < m.heap().len() ==> (#[trigger] m.heap()[i]).size % MALLOC_ALIGNMENT == 0
                && m.heap()[i].addr % MALLOC_ALIGNMENT == 0 && (m.heap()[i].kind != Kind::Fence
                ==> m.heap()[i].size >= MIN_CHUNK_SIZE),
{
    m.lemma_unfold();
    let s = m.heap();
    assert forall|i: int| 0 <= i < s.len() implies (#[trigger] s[i]).size % MALLOC_ALIGNMENT == 0
        && s[i].addr % MALLOC_ALIGNMENT == 0 && (s[i].kind != Kind::Fence ==> s[i].size
        >= MIN_CHUNK_SIZE) by {
        assert(chunk_ok(s[i]));
    }
}

/// Inside a segment each chunk ends where the next begins, and the chunk
/// after each one records whether it is in use.
pub proof fn lemma_boundary_tags<S: System>(m: &Dlmalloc<S>)
    requires
        m.wf(),
    ensures
        forall|i: int|
            0 <= i < m.heap().len() - 1 && (#[trigger] m.heap()[i]).kind != Kind::Fence ==> (
            prev_in_use(m.heap(), i + 1) <==> m.heap()[i].kind != Kind::Free) && m.heap()[i].addr
                + m.heap()[i].size == m.heap()[i + 1].addr,
{
    m.lemma_unfold();
    let s = m.heap();
    assert forall|i: int| 0 <= i < s.len() - 1 && (#[trigger] s[i]).kind != Kind::Fence implies (
    prev_in_use(s, i + 1) <==> s[i].kind != Kind::Free) && s[i].addr + s[i].size == s[i
        + 1].addr by {
        assert(link_ok(s[i], s[i + 1]));
    }
}

/// A binned free chunk of small size sits in the small bin of exactly its
/// size: its size is the bin's size class.
pub proof fn lemma_small_bins<S: System>(m: &Dlmalloc<S>)
    requires
        m.wf(),
    ensures
        forall|i: int|
            #[trigger] in_bin(m.heap(), i) && small_index_of(m.heap()[i].size as int) < NSMALLBINS
                ==> m.heap()[i].size == 8 * small_index_of(m.heap()[i].size as int),
{
    m.lemma_unfold();
    let s = m.heap();
    assert forall|i: int| #[trigger] in_bin(s, i) && small_index_of(s[i].size as int) < NSMALLBINS
        implies s[i].size == 8 * small_index_of(s[i].size as int) by {
        assert(chunk_ok(s[i]));
    }
}

/// A binned free chunk of large size lies within the size range of the tree
/// bin it is filed under.
pub proof fn lemma_tree_bins<S: System>(m: &Dlmalloc<S>)
    requires
        m.wf(),
    ensures
        forall|i: int|
            #[trigger] in_bin(m.heap(), i) && m.heap()[i].size >= MIN_LARGE_SIZE ==> {
                let t = tree_index_of(m.heap()[i].size as nat);
                &&& t < NTREEBINS
                &&& treebin_start(t) <= m.heap()[i].size
                &&& t < NTREEBINS - 1 ==> m.heap()[i].size < treebin_start(t + 1)
            },
{
    let s = m.heap();
    assert forall|i: int| #[trigger] in_bin(s, i) && s[i].size >= MIN_LARGE_SIZE implies {
        let t = tree_index_of(s[i].size as nat);
        &&& t < NTREEBINS
        &&& treebin_start(t) <= s[i].size
        &&& t < NTREEBINS - 1 ==> s[i].size < treebin_start(t + 1)
    } by {
        lemma_tree_index_range(s[i].size as nat);
    }
}

/// Neither a segment's top nor the designated victim is held in a bin, and
/// the designated victim, when there is one, is a free chunk that is not a
/// top.
pub proof fn lemma_top_and_dv_not_binned<S: System>(m: &Dlmalloc<S>)
    requires
        m.inv(),
    ensures
        forall|i: int|
            #[trigger] binned(m.heap(), m.dv_addr(), i) ==> !is_top(m.heap(), i) && m.heap()[i].addr
                != m.dv_addr(),
        m.dv_addr() != 0 ==> exists|k: int|
            0 <= k < m.heap().len() && #[trigger] m.heap()[k].addr == m.dv_addr()
                && m.heap()[k].kind == Kind::Free,
        m.dv_addr() != 0 ==> forall|k: int| #[trigger] is_top(m.heap(), k) ==> m.heap()[k].addr
            != m.dv_addr(),
{
    m.lemma_unfold();
    let s = m.heap();
    if m.dv_addr() != 0 {
        let w = choose|k: int| #[trigger] in_bin(s, k) && s[k].addr == m.dv_addr();
        assert(s[w].addr == m.dv_addr());
        lemma_sorted(s);
        assert forall|k: int| #[trigger] is_top(s, k) implies s[k].addr != m.dv_addr() by {
            assert(k != w);
            assert(chunk_ok(s[k]) && chunk_ok(s[w]));
            if k < w {
                assert(end_of(s[k]) <= s[w].addr);
            } else {
                assert(end_of(s[w]) <= s[k].addr);
            }
        }
    }
}

/// No two free chunks are neighbours: freeing coalesces eagerly.
pub proof fn lemma_no_adjacent_free<S: System>(m: &Dlmalloc<S>)
    requires
        m.wf(),
    ensures
        forall|i: int|
            0 <= i < m.heap().len() - 1 ==> !((#[trigger] m.heap()[i]).kind == Kind::Free
                && m.heap()[i + 1].kind == Kind::Free),
{
    m.lemma_unfold();
    let s = m.heap();
    assert forall|i: int| 0 <= i < s.len() - 1 implies !((#[trigger] s[i]).kind == Kind::Free
        && s[i + 1].kind == Kind::Free) by {
        assert(link_ok(s[i], s[i + 1]));
    }
}

/// The chunks of all segments, fenceposts included, add up to the footprint.
pub proof fn lemma_footprint<S: System>(m: &Dlmalloc<S>)
    requires
        m.wf(),
    ensures
        total(m.heap()) == m.footprint_spec(),
        heap_ok(m.heap()),
{
    m.lemma_unfold();
}

/// Allocating and then freeing the same payload leaves the allocations as
/// they were: `malloc` adds a fresh address, `free` takes it out again.
pub proof fn lemma_malloc_free_restores<S: System>(
    m0: &Dlmalloc<S>,
    m1: &Dlmalloc<S>,
    m2: &Dlmalloc<S>,
    p: usize,
)
    requires
        !m0.allocations().contains_key(p),
        m1.allocations() == m0.allocations().insert(p, m1.allocations()[p]),
        m2.allocations() == m1.allocations().remove(p),
    ensures
        m2.allocations() == m0.allocations(),
{
    assert(m2.allocations() =~= m0.allocations());
}

} // verus!
