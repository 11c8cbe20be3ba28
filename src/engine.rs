use vstd::prelude::*;

use crate::chunk::{
    Chunk, ChunkView, Kind, chunk_ok, chunks_ok, cut, end_of, heap_ok, in_bin, is_live_kind, is_top,
    lemma_absorb, lemma_carve, lemma_commit, lemma_extend, lemma_grow_mapped, lemma_insert_segment,
    lemma_link, lemma_live_index, lemma_live_keys, lemma_live_none, lemma_live_single,
    lemma_merge_free, lemma_mod_diff, lemma_mod_mul, lemma_payload_unique, lemma_remove,
    lemma_rewrite, lemma_shrink_top, lemma_sorted, lemma_split_inuse, lemma_sub_ok, lemma_take_put,
    lemma_total_bound, lemma_total_nonneg, lemma_total_span, lemma_total_split3, live, overwrite,
    payload, payload_addr, put_range, spliced, take_range, total, touches, views,
};
use crate::layout::{
    ADDRESS_LIMIT, CHUNK_OVERHEAD, FENCEPOST_SIZE, MALLOC_ALIGNMENT, MAX_REQUEST, MIN_CHUNK_SIZE,
    MIN_LARGE_SIZE, MMAP_THRESHOLD, TOP_KEEP, TRIM_THRESHOLD, align_up, compute_tree_index, has_bit,
    idx2bit, is_power_of_two, is_small, lemma_large_power_aligned, lemma_no_bits, lemma_set_bit,
    lemma_small_power_divides, pad_request, request_to_chunk, segment_request, small_index,
    small_index_of, tree_index_of,
};
use crate::sys::System;

verus! {

/// An allocator instance over the platform `S`.
pub struct Dlmalloc<S> {
    sys: S,
    chunks: Vec<Chunk>,
    footprint: usize,
    max_footprint: usize,
    /// Address of the designated victim: the remainder of the last split
    /// for a small request, preferred for the next one. It is a hint,
    /// checked whenever it is used; 0 when there is none.
    dv: usize,
    /// The last region the platform gave that could not be used, with the
    /// size asked for and the least size needed: `(want, base, len, min_len)`.
    refusal: Ghost<Option<(int, int, int, int)>>,
}

/// A chunk held in a bin: free, not its segment's top, and not the
/// designated victim.
pub open spec fn binned(s: Seq<ChunkView>, dv: usize, k: int) -> bool {
    in_bin(s, k) && s[k].addr != dv
}

/// Whether a region of `len` bytes at `base` can become a segment that
/// needs at least `min_len` bytes: aligned, within the address space, and
/// clear of every chunk the heap holds.
pub open spec fn region_usable(s: Seq<ChunkView>, base: int, len: int, min_len: int) -> bool {
    &&& len >= min_len
    &&& len % (MALLOC_ALIGNMENT as int) == 0
    &&& base % (MALLOC_ALIGNMENT as int) == 0
    &&& 0 <= base <= ADDRESS_LIMIT
    &&& len <= ADDRESS_LIMIT - base
    &&& forall|k: int| 0 <= k < s.len() ==> end_of(#[trigger] s[k]) <= base
        || base + len <= s[k].addr
}

/// Whether free chunk `j` can serve a request for a chunk of `nb` bytes:
/// one that is not a top and holds `nb` bytes, or a top that keeps a
/// minimum chunk after them.
pub open spec fn serves(s: Seq<ChunkView>, j: int, nb: int) -> bool {
    &&& 0 <= j < s.len() - 1
    &&& s[j].kind == Kind::Free
    &&& if s[j + 1].kind == Kind::Fence {
        s[j].size >= nb + MIN_CHUNK_SIZE
    } else {
        s[j].size >= nb
    }
}

/// The facts that every state of the engine keeps.
pub open spec fn state_ok(s: Seq<ChunkView>, footprint: int, max_footprint: int) -> bool {
    &&& heap_ok(s)
    &&& total(s) == footprint
    &&& footprint <= max_footprint
}

impl<S: System> Dlmalloc<S> {
    /// The chunks of the heap in address order.
    pub closed spec fn heap(&self) -> Seq<ChunkView> {
        views(self.chunks@)
    }

    /// The payloads held by callers, by address.
    pub closed spec fn allocations(&self) -> Map<usize, Seq<u8>> {
        live(self.heap())
    }

    /// Bytes currently obtained from the platform.
    pub closed spec fn footprint_spec(&self) -> int {
        self.footprint as int
    }

    /// The platform this instance draws on.
    pub closed spec fn platform(&self) -> S {
        self.sys
    }

    /// The address of the designated victim, 0 when there is none.
    pub closed spec fn dv_addr(&self) -> usize {
        self.dv
    }

    /// The last unusable answer of the platform: the size asked for, the
    /// base and length of the region it gave, and the least length needed.
    pub closed spec fn refusal(&self) -> Option<(int, int, int, int)> {
        self.refusal@
    }

    /// Whether the platform's last answer, asked for at least `least` bytes,
    /// was a region that does not fit beside the chunks of `heap`.
    pub open spec fn platform_refused(&self, heap: Seq<ChunkView>, least: int) -> bool {
        match self.refusal() {
            Some(f) => f.3 >= least && f.0 >= f.3 && !region_usable(heap, f.1, f.2, f.3),
            None => false,
        }
    }

    /// The designated victim, when there is one, is a free chunk held by
    /// no bin and not a top.
    pub open spec fn dv_ok(&self) -> bool {
        self.dv_addr() == 0 || exists|k: int| #[trigger]
            in_bin(self.heap(), k) && self.heap()[k].addr == self.dv_addr()
    }

    /// What the public operations keep: the heap's invariant and a valid
    /// designated victim.
    pub open spec fn inv(&self) -> bool {
        self.wf() && self.dv_ok()
    }

    /// The instance's invariant on the heap.
    pub closed spec fn wf(&self) -> bool {
        state_ok(self.heap(), self.footprint as int, self.max_footprint as int)
    }

    /// The invariant, spelled out: a well formed chunk list whose sizes add
    /// up to the footprint, and whose live chunks make the allocation map.
    pub proof fn lemma_unfold(&self)
        requires
            self.wf(),
        ensures
            heap_ok(self.heap()),
            total(self.heap()) == self.footprint_spec(),
            self.allocations() == live(self.heap()),
    {
    }

    /// An allocator that holds no memory yet, drawing on `sys`.
    pub fn new_with_allocator(sys: S) -> (r: Self)
        ensures
            r.inv(),
            r.allocations() == Map::<usize, Seq<u8>>::empty(),
            r.footprint_spec() == 0,
            r.platform() == sys,
    {
        let r = Dlmalloc { sys, chunks: Vec::new(), footprint: 0, max_footprint: 0, dv: 0,
            refusal: Ghost(None) };
        assert(r.heap().len() == 0);
        r
    }

    /// Bytes currently obtained from the platform.
    pub fn footprint(&self) -> (r: usize)
        ensures
            r == self.footprint_spec(),
    {
        self.footprint
    }

    /// The most bytes ever obtained from the platform at once.
    pub fn max_footprint(&self) -> (r: usize)
        requires
            self.wf(),
        ensures
            r >= self.footprint_spec(),
    {
        self.max_footprint
    }

    /// Index of the live chunk whose payload starts at `p`.
    fn find(&self, p: usize) -> (r: Option<usize>)
        requires
            self.wf(),
        ensures
            match r {
                Some(i) => i < self.heap().len() && is_live_kind(self.heap()[i as int].kind)
                    && payload_addr(self.heap()[i as int].addr) == p,
                None => !self.allocations().contains_key(p),
            },
    {
        let mut i: usize = 0;
        while i < self.chunks.len()
            invariant
                self.wf(),
                i <= self.chunks.len(),
                forall|j: int|
                    0 <= j < i ==> !(is_live_kind(#[trigger] self.heap()[j].kind) && payload_addr(
                        self.heap()[j].addr,
                    ) == p),
            decreases self.chunks.len() - i,
        {
            assert(chunk_ok(self.heap()[i as int]));
            let c = &self.chunks[i];
            if (c.kind == Kind::InUse || c.kind == Kind::Mapped) && c.addr + CHUNK_OVERHEAD == p {
                return Some(i);
            }
            i = i + 1;
        }
        proof {
            let s = self.heap();
            assert forall|j: int| 0 <= j < s.len() implies #[trigger] s[j].addr + CHUNK_OVERHEAD
                <= usize::MAX by {
                assert(chunk_ok(s[j]));
            }
            lemma_live_keys(s);
        }
        None
    }

    /// The byte at offset `i` of the payload at `p`, if `p` is held by a
    /// caller and `i` lies within its payload.
    pub fn read(&self, p: usize, i: usize) -> (r: Option<u8>)
        requires
            self.wf(),
        ensures
            r == (if self.allocations().contains_key(p) && i < self.allocations()[p].len() {
                Some(self.allocations()[p][i as int])
            } else {
                None
            }),
    {
        match self.find(p) {
            None => None,
            Some(k) => {
                proof {
                    lemma_live_index(self.heap(), k as int);
                    assert(chunk_ok(self.heap()[k as int]));
                }
                let c = &self.chunks[k];
                if i < c.size - CHUNK_OVERHEAD {
                    Some(c.data[CHUNK_OVERHEAD + i])
                } else {
                    None
                }
            },
        }
    }

    /// Releases the allocation at `p`: its chunk is merged with free
    /// neighbours, or handed back to the platform if it was mapped directly.
    /// A segment left wholly free and at least the trim threshold large goes
    /// back to the platform; a top that large gives back its tail. The size
    /// and alignment the allocation was requested with are not needed.
    pub fn free(&mut self, p: usize, _size: usize, _align: usize)
        requires
            old(self).inv(),
            old(self).allocations().contains_key(p),
        ensures
            final(self).inv(),
            final(self).allocations() == old(self).allocations().remove(p),
            final(self).footprint_spec() <= old(self).footprint_spec(),
            forall|k: int|
                #![trigger old(self).heap()[k]]
                0 <= k < old(self).heap().len() && payload_addr(old(self).heap()[k].addr) == p
                    && old(self).heap()[k].kind == Kind::Mapped ==> {
                    ||| final(self).footprint_spec()
                        == old(self).footprint_spec() - old(self).heap()[k].size
                        - FENCEPOST_SIZE
                    ||| (final(self).footprint_spec() == old(self).footprint_spec()
                        && exists|m: int|
                        0 <= m < final(self).heap().len() && #[trigger] final(self).heap()[m].addr
                            == old(self).heap()[k].addr && final(self).heap()[m].kind == Kind::Free)
                },
    {
        let i = match self.find(p) {
            Some(i) => i,
            None => {
                return ;
            },
        };
        proof {
            let s0 = self.heap();
            assert forall|k: int| 0 <= k < s0.len() && payload_addr(s0[k].addr) == p implies k
                == i by {
                lemma_payload_unique(s0, i as int, k);
            }
        }
        if self.chunks[i].kind == Kind::Mapped {
            self.release_mapped(i);
        } else {
            let j = self.release_chunk(i);
            if self.chunks[j].size >= TRIM_THRESHOLD {
                if !self.release_segment(j) {
                    self.trim_top(j);
                }
            }
        }
        self.check_dv();
    }

    /// Gives the tail of a large top back to the platform, keeping about
    /// `TOP_KEEP` bytes of it, where the platform can release part of a region.
    fn trim_top(&mut self, i: usize)
        requires
            old(self).wf(),
            i < old(self).heap().len(),
        ensures
            final(self).wf(),
            final(self).allocations() == old(self).allocations(),
            final(self).footprint_spec() <= old(self).footprint_spec(),
    {
        let ghost s = self.heap();
        let n = self.chunks.len();
        if !(self.chunks[i].kind == Kind::Free && i + 1 < n && self.chunks[i + 1].kind
            == Kind::Fence && self.chunks[i].size >= TRIM_THRESHOLD) {
            return ;
        }
        if !self.sys.can_release_part(0) {
            return ;
        }
        let page = self.sys.page_size();
        let unit = align_up(page, MALLOC_ALIGNMENT);
        let size = self.chunks[i].size;
        let q = (size - TOP_KEEP) / unit;
        proof {
            assert(s.len() == n);
            lemma_link(s, i as int);
            let x = (size - TOP_KEEP) as int;
            assert(q * unit <= x) by (nonlinear_arith)
                requires
                    q == x / (unit as int),
                    unit > 0,
                    x >= 0,
            ;
            lemma_mod_mul(q as int, unit as int);
        }
        let cut = q * unit;
        proof {
            assert(chunk_ok(s[i as int]));
            lemma_mod_diff(size as int, cut as int);
        }
        if cut == 0 {
            return ;
        }
        let top = self.chunks[i].addr;
        if !self.sys.free_part(top, size + FENCEPOST_SIZE, size + FENCEPOST_SIZE - cut) {
            return ;
        }
        let mut parts = take_range(&mut self.chunks, i, i + 2);
        let ghost w = views(parts@);
        let ghost rest = views(self.chunks@);
        assert(w[0] == s[i as int] && parts@[0]@ == w[0]);
        let mut c = parts.remove(0);
        assert(w[1] == s[i + 1] && parts@[0]@ == w[1]);
        let mut f = parts.remove(0);
        c.size = size - cut;
        c.data.truncate(size - cut);
        f.addr = top + (size - cut);
        let ghost m = seq![c@, f@];
        let mut mid: Vec<Chunk> = Vec::new();
        mid.push(c);
        mid.push(f);
        assert(views(mid@) =~= m);
        put_range(&mut self.chunks, i, mid);
        proof {
            lemma_take_put(s, i as int, i + 2, rest, m, self.heap());
            lemma_shrink_top(s, i as int, m);
            lemma_total_nonneg(self.heap());
        }
        self.footprint = self.footprint - cut;
    }

    /// Gives free chunk `i` back to the platform together with its
    /// fencepost, when it spans a whole segment of at least the trim
    /// threshold.
    fn release_segment(&mut self, i: usize) -> (released: bool)
        requires
            old(self).wf(),
            i < old(self).heap().len(),
        ensures
            final(self).wf(),
            final(self).allocations() == old(self).allocations(),
            final(self).footprint_spec() <= old(self).footprint_spec(),
            !released ==> final(self).heap() == old(self).heap(),
    {
        let ghost s = self.heap();
        let n = self.chunks.len();
        if !(self.chunks[i].kind == Kind::Free && i + 1 < n && self.chunks[i + 1].kind
            == Kind::Fence && self.chunks[i].size >= TRIM_THRESHOLD) {
            return false;
        }
        if i > 0 && self.chunks[i - 1].kind != Kind::Fence {
            return false;
        }
        proof {
            assert(s.len() == n);
            lemma_link(s, i as int);
        }
        let base = self.chunks[i].addr;
        let size = self.chunks[i].size + FENCEPOST_SIZE;
        if !self.sys.free(base, size) {
            return false;
        }
        let ghost w = s.subrange(i as int, i + 2);
        proof {
            assert(w[0] == s[i as int] && w[1] == s[i + 1]);
            lemma_sub_ok(s, i as int, i + 2);
            assert(touches(w[0], w[1]));
            lemma_total_span(w);
            lemma_total_split3(s, i as int, i + 2);
            lemma_total_nonneg(s.subrange(0, i as int));
            lemma_total_nonneg(s.subrange(i + 2, s.len() as int));
            assert forall|j: int| 0 <= j < w.len() implies !is_live_kind(#[trigger] w[j].kind) by {}
            lemma_live_none(w);
        }
        let _gone = take_range(&mut self.chunks, i, i + 2);
        proof {
            lemma_remove(s, i as int, i + 2);
            assert(self.heap() =~= cut(s, i as int, i + 2));
            assert(live(s).remove_keys(live(w).dom()) =~= live(s));
        }
        self.footprint = self.footprint - size;
        true
    }

    /// Frees the in-use chunk `i` and merges it with its free neighbours.
    fn release_chunk(&mut self, i: usize) -> (r: usize)
        requires
            old(self).wf(),
            i < old(self).heap().len(),
            old(self).heap()[i as int].kind == Kind::InUse,
        ensures
            final(self).wf(),
            r < final(self).heap().len(),
            final(self).heap()[r as int].kind == Kind::Free,
            !(i > 0 && old(self).heap()[i - 1].kind == Kind::Free)
                ==> final(self).heap()[r as int].addr
                == old(self).heap()[i as int].addr,
            final(self).footprint_spec() == old(self).footprint_spec(),
            final(self).platform() == old(self).platform(),
            final(self).allocations() == old(self).allocations().remove(
                payload_addr(old(self).heap()[i as int].addr),
            ),
    {
        let ghost s = self.heap();
        let n = self.chunks.len();
        proof {
            assert(s.len() == n);
            assert(i + 1 < s.len());
            lemma_link(s, i as int);
            if i > 0 {
                lemma_link(s, i - 1);
            }
        }
        let prev_free = i > 0 && self.chunks[i - 1].kind == Kind::Free;
        let next_free = self.chunks[i + 1].kind == Kind::Free;
        let joins_dv = (prev_free && self.chunks[i - 1].addr == self.dv) || (next_free
            && self.chunks[i + 1].addr == self.dv);
        proof {
            if next_free {
                assert(i + 2 < n);
            }
        }
        let after = if next_free {
            i + 2
        } else {
            i + 1
        };
        let becomes_top = self.chunks[after].kind == Kind::Fence;
        let lo = if prev_free {
            i - 1
        } else {
            i
        };
        let hi = if next_free {
            i + 2
        } else {
            i + 1
        };
        proof {
            if next_free {
                lemma_link(s, i + 1);
            }
            if prev_free && i > 1 {
                lemma_link(s, i - 2);
            }
        }
        let mut parts = take_range(&mut self.chunks, lo, hi);
        let ghost w = views(parts@);
        let ghost rest = views(self.chunks@);
        assert(w[0] == s[lo as int] && parts@[0]@ == w[0]);
        let mut c = parts.remove(0);
        if prev_free {
            assert(w[1] == s[i as int] && parts@[0]@ == w[1]);
            let mut d = parts.remove(0);
            c.data.append(&mut d.data);
            c.size = c.size + d.size;
        }
        if next_free {
            assert(w[w.len() - 1] == s[i + 1] && parts@[0]@ == w[w.len() - 1]);
            let mut d = parts.remove(0);
            c.data.append(&mut d.data);
            c.size = c.size + d.size;
        }
        c.kind = Kind::Free;
        if joins_dv {
            self.dv = if becomes_top {
                0
            } else {
                c.addr
            };
        }
        let ghost cv = c@;
        let mut mid = Vec::new();
        mid.push(c);
        assert(views(mid@) =~= seq![cv]);
        put_range(&mut self.chunks, lo, mid);
        proof {
            lemma_take_put(s, lo as int, hi as int, rest, seq![cv], self.heap());
            lemma_merge_free(s, lo as int, hi as int, i as int, cv);
        }
        lo
    }

    /// Hands the directly mapped chunk `i` back to the platform; if the
    /// platform keeps it, the region stays on as a free segment.
    fn release_mapped(&mut self, i: usize)
        requires
            old(self).wf(),
            i < old(self).heap().len(),
            old(self).heap()[i as int].kind == Kind::Mapped,
        ensures
            final(self).wf(),
            final(self).footprint_spec()
                == old(self).footprint_spec() - old(self).heap()[i as int].size
                - FENCEPOST_SIZE || (final(self).footprint_spec() == old(self).footprint_spec()
                && exists|m: int|
                0 <= m < final(self).heap().len() && #[trigger] final(self).heap()[m].addr
                    == old(self).heap()[i as int].addr
                    && final(self).heap()[m].kind == Kind::Free),
            final(self).allocations() == old(self).allocations().remove(
                payload_addr(old(self).heap()[i as int].addr),
            ),
    {
        let ghost s = self.heap();
        let ghost p = payload_addr(s[i as int].addr);
        let n = self.chunks.len();
        proof {
            assert(s.len() == n);
            assert(i + 1 < s.len());
            lemma_link(s, i as int);
            if i > 0 {
                lemma_link(s, i - 1);
            }
        }
        let base = self.chunks[i].addr;
        let size = self.chunks[i].size + FENCEPOST_SIZE;
        let ghost w = s.subrange(i as int, i + 2);
        proof {
            assert(w[0] == s[i as int] && w[1] == s[i + 1]);
            lemma_live_single(w, 0);
            lemma_sub_ok(s, i as int, i + 2);
            lemma_total_span(w);
            lemma_total_split3(s, i as int, i + 2);
            lemma_total_nonneg(s.subrange(0, i as int));
            lemma_total_nonneg(s.subrange(i + 2, s.len() as int));
        }
        if self.sys.free(base, size) {
            let _gone = take_range(&mut self.chunks, i, i + 2);
            proof {
                lemma_remove(s, i as int, i + 2);
                lemma_total_bound(s);
                assert(self.heap() =~= cut(s, i as int, i + 2));
                assert(live(self.heap()) =~= live(s).remove(p));
            }
            self.footprint = self.footprint - size;
        } else {
            let mut parts = take_range(&mut self.chunks, i, i + 1);
            let ghost rest = views(self.chunks@);
            assert(parts@.len() == 1);
            let mut c = parts.remove(0);
            c.kind = Kind::Free;
            let ghost cv = c@;
            let mut mid = Vec::new();
            mid.push(c);
            assert(views(mid@) =~= seq![cv]);
            put_range(&mut self.chunks, i, mid);
            proof {
                let m = seq![cv];
                let ws = s.subrange(i as int, i + 1);
                assert(ws[0] == s[i as int]);
                assert(chunks_ok(m));
                lemma_take_put(s, i as int, i + 1, rest, m, self.heap());
                lemma_commit(s, i as int, i + 1, m);
                lemma_live_none(m);
                lemma_live_single(ws, 0);
                assert(live(self.heap()) =~= live(s).remove(p));
                assert(self.heap()[i as int] == cv);
                assert(self.heap()[i as int].addr == s[i as int].addr);
                assert(self.heap()[i as int].kind == Kind::Free);
            }
        }
    }

    /// Drops the designated victim if it no longer names a free chunk that
    /// is not a top.
    fn check_dv(&mut self)
        requires
            old(self).wf(),
        ensures
            final(self).inv(),
            final(self).heap() == old(self).heap(),
            final(self).footprint_spec() == old(self).footprint_spec(),
            final(self).platform() == old(self).platform(),
            old(self).dv_ok() ==> final(self).dv_addr() == old(self).dv_addr(),
    {
        if self.dv == 0 {
            return ;
        }
        let ghost s = self.heap();
        let n = self.chunks.len();
        proof {
            lemma_sorted(s);
        }
        let mut j: usize = 0;
        while j < n
            invariant
                self.wf(),
                s == self.heap(),
                n == s.len(),
                j <= n,
                self.dv != 0,
                self.chunks@ == old(self).chunks@,
                self.footprint == old(self).footprint,
                self.max_footprint == old(self).max_footprint,
                self.sys == old(self).sys,
                self.dv == old(self).dv,
                forall|k: int| 0 <= k < j ==> #[trigger] s[k].addr != self.dv,
            decreases n - j,
        {
            if self.chunks[j].addr == self.dv {
                if self.chunks[j].kind == Kind::Free && j + 1 < n && self.chunks[j + 1].kind
                    != Kind::Fence {
                    proof {
                        assert(in_bin(s, j as int));
                    }
                    return ;
                }
                proof {
                    lemma_sorted(s);
                    assert forall|k: int| #[trigger] in_bin(s, k) implies s[k].addr != self.dv by {
                        if k != j {
                            assert(chunk_ok(s[k]) && chunk_ok(s[j as int]));
                            if k < j {
                                assert(end_of(s[k]) <= s[j as int].addr);
                            } else {
                                assert(end_of(s[j as int]) <= s[k].addr);
                            }
                        }
                    }
                }
                self.dv = 0;
                return ;
            }
            j = j + 1;
        }
        proof {
            assert forall|k: int| #[trigger] in_bin(s, k) implies s[k].addr != self.dv by {}
        }
        self.dv = 0;
    }

    /// The smallest binned chunk of small size that holds `nb` bytes: the
    /// head of the exact small bin, or of the nearest larger one.
    fn find_small(&self, nb: usize) -> (r: Option<usize>)
        requires
            self.wf(),
        ensures
            match r {
                Some(i) => {
                    &&& binned(self.heap(), self.dv, i as int)
                    &&& nb <= self.heap()[i as int].size < MIN_LARGE_SIZE
                    &&& forall|j: int| #[trigger]
                        binned(self.heap(), self.dv, j) && nb <= self.heap()[j].size
                            < MIN_LARGE_SIZE ==> self.heap()[j].size >= self.heap()[i as int].size
                },
                None => true,
            },
    {
        let ghost s = self.heap();
        let n = self.chunks.len();
        let mut best: Option<usize> = None;
        let mut j: usize = 0;
        while j < n
            invariant
                self.wf(),
                s == self.heap(),
                n == s.len(),
                j <= n,
                match best {
                    Some(b) => b < j && binned(s, self.dv, b as int) && nb <= s[b as int].size
                        < MIN_LARGE_SIZE && forall|k: int|
                        0 <= k < j && #[trigger] binned(s, self.dv, k) && nb <= s[k].size
                            < MIN_LARGE_SIZE ==> s[k].size >= s[b as int].size,
                    None => forall|k: int|
                        0 <= k < j && #[trigger] binned(s, self.dv, k) ==> !(nb <= s[k].size
                            < MIN_LARGE_SIZE),
                },
            decreases n - j,
        {
            let c = &self.chunks[j];
            if c.kind == Kind::Free && c.addr != self.dv && nb <= c.size && c.size < MIN_LARGE_SIZE
                && j + 1 < n && self.chunks[j + 1].kind != Kind::Fence {
                let better = match best {
                    Some(b) => c.size < self.chunks[b].size,
                    None => true,
                };
                if better {
                    best = Some(j);
                }
            }
            j = j + 1;
        }
        proof {
            assert forall|k: int| #[trigger] binned(s, self.dv, k) implies 0 <= k < n by {}
        }
        best
    }

    /// The designated victim, if it is still a binned-size free chunk (not a
    /// top) that holds `nb` bytes.
    fn find_dv(&self, nb: usize) -> (r: Option<usize>)
        requires
            self.wf(),
        ensures
            match r {
                Some(i) => in_bin(self.heap(), i as int) && self.heap()[i as int].addr == self.dv
                    && self.heap()[i as int].size >= nb,
                None => true,
            },
    {
        if self.dv == 0 {
            return None;
        }
        let n = self.chunks.len();
        let mut j: usize = 0;
        while j < n
            invariant
                self.wf(),
                n == self.heap().len(),
                j <= n,
            decreases n - j,
        {
            let c = &self.chunks[j];
            if c.addr == self.dv {
                if c.kind == Kind::Free && c.size >= nb && j + 1 < n && self.chunks[j + 1].kind
                    != Kind::Fence {
                    return Some(j);
                }
                return None;
            }
            j = j + 1;
        }
        None
    }

    /// The free chunk that serves a request for a chunk of `nb` bytes: the
    /// smallest large enough free chunk that is not a top (the designated
    /// victim among them), else a top that leaves at least a minimum chunk.
    fn find_fit(&self, nb: usize) -> (r: Option<usize>)
        requires
            self.wf(),
            nb <= 4 * MAX_REQUEST + 0x1000,
        ensures
            match r {
                Some(i) => {
                    &&& serves(self.heap(), i as int, nb as int)
                    &&& in_bin(self.heap(), i as int) ==> forall|j: int| #[trigger]
                        in_bin(self.heap(), j) && self.heap()[j].size >= nb
                            ==> self.heap()[j].size >= self.heap()[i as int].size
                    &&& !in_bin(self.heap(), i as int) ==> forall|j: int| #[trigger]
                        in_bin(self.heap(), j) ==> self.heap()[j].size < nb
                },
                None => forall|j: int| !#[trigger] serves(self.heap(), j, nb as int),
            },
    {
        let ghost s = self.heap();
        let n = self.chunks.len();
        let mut best: Option<usize> = None;
        let mut top: Option<usize> = None;
        let mut j: usize = 0;
        while j < n
            invariant
                self.wf(),
                s == self.heap(),
                n == s.len(),
                j <= n,
                nb <= 4 * MAX_REQUEST + 0x1000,
                match best {
                    Some(b) => b < j && in_bin(s, b as int) && s[b as int].size >= nb && forall|
                        k: int,
                    |
                        0 <= k < j && #[trigger] in_bin(s, k) && s[k].size >= nb ==> s[k].size
                            >= s[b as int].size,
                    None => forall|k: int|
                        0 <= k < j && #[trigger] in_bin(s, k) ==> s[k].size < nb,
                },
                match top {
                    Some(t) => t < j && serves(s, t as int, nb as int),
                    None => forall|k: int|
                        0 <= k < j && #[trigger] is_top(s, k) ==> s[k].size < nb + MIN_CHUNK_SIZE,
                },
            decreases n - j,
        {
            if self.chunks[j].kind == Kind::Free && self.chunks[j].size >= nb {
                proof {
                    assert(j + 1 < n);
                }
                if self.chunks[j + 1].kind != Kind::Fence {
                    let better = match best {
                        Some(b) => self.chunks[j].size < self.chunks[b].size,
                        None => true,
                    };
                    if better {
                        best = Some(j);
                    }
                } else if top.is_none() && self.chunks[j].size - nb >= MIN_CHUNK_SIZE {
                    top = Some(j);
                }
            }
            j = j + 1;
        }
        proof {
            assert forall|k: int| #[trigger] in_bin(s, k) implies serves(s, k, nb as int)
                == (s[k].size >= nb) by {}
        }
        match best {
            Some(b) => Some(b),
            None => match top {
                Some(t) => Some(t),
                None => {
                    proof {
                        assert forall|k: int| !#[trigger] serves(s, k, nb as int) by {
                            if 0 <= k < s.len() - 1 && s[k].kind == Kind::Free {
                                if in_bin(s, k) {
                                } else {
                                    assert(is_top(s, k));
                                }
                            }
                        }
                    }
                    None
                },
            },
        }
    }

    /// Carves an in-use chunk of `nb` bytes from the front of free chunk
    /// `i`, leaving the rest free when it can stand as a chunk of its own.
    fn use_chunk(&mut self, i: usize, nb: usize) -> (p: usize)
        requires
            old(self).wf(),
            i < old(self).heap().len(),
            old(self).heap()[i as int].kind == Kind::Free,
            old(self).heap()[i as int].size >= nb,
            nb >= MIN_CHUNK_SIZE,
            nb % MALLOC_ALIGNMENT == 0,
        ensures
            final(self).wf(),
            final(self).footprint_spec() == old(self).footprint_spec(),
            final(self).platform() == old(self).platform(),
            p == payload_addr(old(self).heap()[i as int].addr),
            p % MALLOC_ALIGNMENT == 0,
            !old(self).allocations().contains_key(p),
            final(self).allocations().contains_key(p),
            final(self).allocations() == old(self).allocations().insert(
                p,
                final(self).allocations()[p],
            ),
            final(self).allocations()[p].len() >= nb - CHUNK_OVERHEAD,
            final(self).heap()[i as int].kind == Kind::InUse,
            i < final(self).heap().len(),
            final(self).heap()[i as int].addr == old(self).heap()[i as int].addr,
            final(self).heap()[i as int].size >= nb,
            final(self).allocations()[p] == payload(final(self).heap()[i as int]),
    {
        let ghost s = self.heap();
        let n = self.chunks.len();
        proof {
            assert(s.len() == n);
            assert(chunk_ok(s[i as int]));
        }
        let mut parts = take_range(&mut self.chunks, i, i + 1);
        let ghost rest = views(self.chunks@);
        assert(views(parts@)[0] == s[i as int]);
        assert(parts@[0]@ == s[i as int]);
        let mut c = parts.remove(0);
        let mut mid: Vec<Chunk> = Vec::new();
        if c.size - nb >= MIN_CHUNK_SIZE {
            let tail = c.data.split_off(nb);
            let r = Chunk { addr: c.addr + nb, size: c.size - nb, kind: Kind::Free, data: tail };
            c.size = nb;
            c.kind = Kind::InUse;
            mid.push(c);
            mid.push(r);
        } else {
            c.kind = Kind::InUse;
            mid.push(c);
        }
        let ghost m = views(mid@);
        let p = mid[0].addr + CHUNK_OVERHEAD;
        put_range(&mut self.chunks, i, mid);
        proof {
            lemma_take_put(s, i as int, i + 1, rest, m, self.heap());
            lemma_carve(s, i as int, m);
            assert(self.heap()[i as int] == m[0]);
            assert(s[i as int].addr % 16 == 0);
            lemma_mod_diff(s[i as int].addr as int, 16);
        }
        p
    }

    /// Asks the platform for `want` bytes and places the region it gives as
    /// a segment holding a chunk of `kind`, when the region is usable.
    fn add_segment(&mut self, want: usize, min_len: usize, kind: Kind) -> (r: Option<usize>)
        requires
            old(self).wf(),
            kind == Kind::Free || kind == Kind::Mapped,
            min_len >= MIN_CHUNK_SIZE + FENCEPOST_SIZE,
            want >= min_len,
        ensures
            final(self).wf(),
            final(self).platform().zeroes() == old(self).platform().zeroes(),
            final(self).dv_addr() == old(self).dv_addr(),
            match r {
                None => {
                    &&& final(self).heap() == old(self).heap()
                    &&& final(self).footprint_spec() == old(self).footprint_spec()
                    &&& (final(self).refusal() matches Some(f) && f.0 == want && f.3 == min_len
                        && !region_usable(old(self).heap(), f.1, f.2, f.3))
                },
                Some(j) => {
                    let h = final(self).heap();
                    let p = payload_addr(h[j as int].addr);
                    &&& j + 1 < h.len()
                    &&& j <= old(self).heap().len()
                    &&& h[j as int].kind == kind
                    &&& forall|k: int| 0 <= k < j ==> #[trigger] h[k] == old(self).heap()[k]
                    &&& forall|k: int|
                        0 <= k < old(self).heap().len() ==> #[trigger] old(self).heap()[k].addr
                            != h[j as int].addr
                    &&& h[j as int].size + FENCEPOST_SIZE >= min_len
                    &&& h[j + 1].kind == Kind::Fence
                    &&& touches(h[j as int], h[j + 1])
                    &&& kind == Kind::Free ==> final(self).allocations() == old(self).allocations()
                    &&& kind == Kind::Mapped ==> !old(self).allocations().contains_key(p)
                        && final(self).allocations() == old(self).allocations().insert(
                        p,
                        payload(h[j as int]),
                    )
                    &&& old(self).platform().zeroes() ==> forall|q: int|
                        0 <= q < h[j as int].data.len() ==> #[trigger] h[j as int].data[q] == 0u8
                },
            },
    {
        let (base, mem, _flags) = self.sys.allocate(want);
        let ghost bytes = mem@;
        let r = self.place_region(base, mem, min_len, kind);
        match r {
            None => {
                self.refusal = Ghost(Some((want as int, base as int, bytes.len() as int,
                    min_len as int)));
            },
            Some(j) => {
                proof {
                    let c = self.heap()[j as int];
                    if old(self).platform().zeroes() {
                        assert forall|q: int| 0 <= q < c.data.len() implies #[trigger] c.data[q]
                            == 0u8 by {
                            assert(c.data[q] == bytes[q]);
                        }
                    }
                }
            },
        }
        r
    }

    /// Places the region of `mem` bytes at `base` that the platform gave
    /// as a segment, if it is usable: a chunk of `kind` that spans all but
    /// the fencepost, then the fencepost. Gives the chunk's index.
    #[verifier::rlimit(40)]
    fn place_region(&mut self, base: usize, mem: Vec<u8>, min_len: usize, kind: Kind) -> (r: Option<
        usize,
    >)
        requires
            old(self).wf(),
            kind == Kind::Free || kind == Kind::Mapped,
            min_len >= MIN_CHUNK_SIZE + FENCEPOST_SIZE,
        ensures
            final(self).wf(),
            final(self).platform() == old(self).platform(),
            final(self).dv_addr() == old(self).dv_addr(),
            r is Some <==> region_usable(old(self).heap(), base as int, mem@.len() as int,
                min_len as int),
            match r {
                None => final(self).heap() == old(self).heap() && final(self).footprint_spec()
                    == old(self).footprint_spec(),
                Some(j) => {
                    let h = final(self).heap();
                    let p = payload_addr(h[j as int].addr);
                    &&& j + 1 < h.len()
                    &&& j <= old(self).heap().len()
                    &&& h[j as int].kind == kind
                    &&& forall|k: int| 0 <= k < j ==> #[trigger] h[k] == old(self).heap()[k]
                    &&& forall|k: int|
                        0 <= k < old(self).heap().len() ==> #[trigger] old(self).heap()[k].addr
                            != h[j as int].addr
                    &&& h[j as int].size + FENCEPOST_SIZE >= min_len
                    &&& h[j + 1].kind == Kind::Fence
                    &&& touches(h[j as int], h[j + 1])
                    &&& kind == Kind::Free ==> final(self).allocations() == old(self).allocations()
                    &&& kind == Kind::Mapped ==> !old(self).allocations().contains_key(p)
                        && final(self).allocations() == old(self).allocations().insert(
                        p,
                        payload(h[j as int]),
                    )
                    &&& h[j as int].size + FENCEPOST_SIZE == mem@.len()
                    &&& h[j as int].data == mem@.subrange(0, h[j as int].size as int)
                },
            },
    {
        let len = mem.len();
        if len < min_len || len % MALLOC_ALIGNMENT != 0 || base % MALLOC_ALIGNMENT != 0 || base
            > ADDRESS_LIMIT || len > ADDRESS_LIMIT - base {
            return None;
        }
        let ghost bytes = mem@;
        let ghost s = self.heap();
        let n = self.chunks.len();
        let mut j: usize = 0;
        while j < n && self.chunks[j].addr < base
            invariant
                s == self.heap(),
                n == s.len(),
                j <= n,
                forall|k: int| 0 <= k < j ==> #[trigger] s[k].addr < base,
            decreases n - j,
        {
            j = j + 1;
        }
        proof {
            lemma_sorted(s);
        }
        if j > 0 {
            let prev = &self.chunks[j - 1];
            if !(prev.kind == Kind::Fence && prev.size <= base && prev.addr <= base - prev.size) {
                proof {
                    let k = j - 1;
                    assert(chunk_ok(s[k as int]));
                    if region_usable(s, base as int, len as int, min_len as int) {
                        assert(end_of(s[k as int]) <= base || base + len <= s[k as int].addr);
                        assert(s[k as int].kind != Kind::Fence);
                        assert(j < n);
                        lemma_link(s, k as int);
                        assert(chunk_ok(s[j as int]));
                        assert(end_of(s[j as int]) <= base || base + len <= s[j as int].addr);
                    }
                }
                return None;
            }
        }
        if j < n && self.chunks[j].addr < base + len {
            proof {
                assert(chunk_ok(s[j as int]));
                assert(!(end_of(s[j as int]) <= base || base + len <= s[j as int].addr));
            }
            return None;
        }
        proof {
            if j < n {
                assert(chunk_ok(s[j as int]));
            }
            assert forall|k: int| 0 <= k < s.len() implies end_of(#[trigger] s[k]) <= base || base
                + len <= s[k].addr by {
                assert(chunk_ok(s[k]));
                if k < j - 1 {
                    assert(end_of(s[k]) <= s[j - 1].addr);
                } else if k > j {
                    assert(end_of(s[j as int]) <= s[k].addr);
                }
            }
        }
        let mut data = mem;
        let fdata = data.split_off(len - FENCEPOST_SIZE);
        let c = Chunk { addr: base, size: len - FENCEPOST_SIZE, kind, data };
        let f = Chunk {
            addr: base + (len - FENCEPOST_SIZE),
            size: FENCEPOST_SIZE,
            kind: Kind::Fence,
            data: fdata,
        };
        let mut mid: Vec<Chunk> = Vec::new();
        mid.push(c);
        mid.push(f);
        let ghost m = views(mid@);
        put_range(&mut self.chunks, j, mid);
        proof {
            assert(self.heap() =~= spliced(s, j as int, j as int, m));
            lemma_mod_diff(len as int, FENCEPOST_SIZE as int);
            lemma_insert_segment(s, j as int, m);
            let t = self.heap();
            lemma_total_bound(t);
            assert(chunk_ok(t[t.len() - 1]));
            assert(total(t) <= ADDRESS_LIMIT);
            if m[0].kind == Kind::Free {
                lemma_live_none(m);
                assert(live(t) =~= live(s));
            } else {
                lemma_live_single(m, 0);
                assert(live(m).contains_key(payload_addr(base)));
                assert(live(t) =~= live(s).insert(payload_addr(base), payload(m[0])));
            }
            assert(t[j as int] == m[0] && t[j + 1] == m[1]);
        }
        self.footprint = self.footprint + len;
        if self.footprint > self.max_footprint {
            self.max_footprint = self.footprint;
        }
        Some(j)
    }

    /// Obtains a new segment with a free chunk of at least `nb` bytes,
    /// merging it with the segment it continues, if any.
    fn grow(&mut self, nb: usize) -> (r: Option<usize>)
        requires
            old(self).wf(),
            MIN_CHUNK_SIZE <= nb <= 4 * MAX_REQUEST + 0x1000,
        ensures
            final(self).wf(),
            final(self).platform().zeroes() == old(self).platform().zeroes(),
            final(self).allocations() == old(self).allocations(),
            final(self).dv_addr() == old(self).dv_addr(),
            match r {
                Some(i) => i < final(self).heap().len() && final(self).heap()[i as int].kind
                    == Kind::Free && final(self).heap()[i as int].size >= nb && forall|k: int|
                    #[trigger] in_bin(old(self).heap(), k)
                        ==> old(self).heap()[k].addr != final(self).heap()[i as int].addr,
                None => final(self).heap() == old(self).heap() && final(self).footprint_spec()
                    == old(self).footprint_spec() && final(self).platform_refused(
                    old(self).heap(),
                    nb + FENCEPOST_SIZE,
                ),
            },
    {
        let page = self.sys.page_size();
        let need = nb + FENCEPOST_SIZE;
        let want = segment_request(nb, page);
        let ghost s0 = self.heap();
        let j = match self.add_segment(want, need, Kind::Free) {
            None => {
                return None;
            },
            Some(j) => j,
        };
        if j < 2 {
            return Some(j);
        }
        let ghost s = self.heap();
        let n = self.chunks.len();
        let f = j - 1;
        proof {
            lemma_sorted(s0);
            assert(s[(j - 1) as int] == s0[(j - 1) as int]);
            assert(s[(j - 2) as int] == s0[(j - 2) as int]);
        }
        let x = j - 2;
        proof {
            assert(s.len() == n);
            assert(chunk_ok(s[f as int]));
        }
        if !(self.chunks[f].kind == Kind::Fence && self.chunks[f].addr + FENCEPOST_SIZE
            == self.chunks[j].addr && self.chunks[x].kind != Kind::Fence && self.chunks[x].kind
            != Kind::Mapped) {
            return Some(j);
        }
        let lo = if self.chunks[x].kind == Kind::Free {
            x
        } else {
            f
        };
        let hi = j + 1;
        proof {
            lemma_link(s, x as int);
            if x > 0 {
                lemma_link(s, x - 1);
            }
            assert(chunk_ok(s[j as int]));
            assert(chunk_ok(s[f as int]));
            assert(touches(s[f as int], s[j as int]));
        }
        let mut parts = take_range(&mut self.chunks, lo, hi);
        let ghost w = views(parts@);
        let ghost rest = views(self.chunks@);
        assert(w[0] == s[lo as int] && parts@[0]@ == w[0]);
        let mut c = parts.remove(0);
        if lo == x {
            assert(w[1] == s[f as int] && parts@[0]@ == w[1]);
            let mut d = parts.remove(0);
            c.data.append(&mut d.data);
            c.size = c.size + d.size;
        }
        assert(w[w.len() - 1] == s[j as int] && parts@[0]@ == w[w.len() - 1]);
        let mut d = parts.remove(0);
        c.data.append(&mut d.data);
        c.size = c.size + d.size;
        c.kind = Kind::Free;
        let ghost cv = c@;
        let mut mid: Vec<Chunk> = Vec::new();
        mid.push(c);
        assert(views(mid@) =~= seq![cv]);
        put_range(&mut self.chunks, lo, mid);
        proof {
            lemma_take_put(s, lo as int, hi as int, rest, seq![cv], self.heap());
            let ws = s.subrange(lo as int, hi as int);
            assert forall|k: int| 0 <= k < ws.len() - 1 implies #[trigger] touches(
                ws[k],
                ws[k + 1],
            ) by {
                assert(ws[k] == s[lo + k] && ws[k + 1] == s[lo + k + 1]);
            }
            assert(forall|q: int| lo <= q < hi ==> !is_live_kind(#[trigger] s[q].kind));
            lemma_absorb(s, lo as int, hi as int, cv);
            assert(self.heap()[lo as int] == cv);
        }
        proof {
            lemma_sorted(s0);
            assert(self.heap()[lo as int].addr == s0[lo as int].addr);
            assert forall|k: int| #[trigger] in_bin(s0,
                k) implies s0[k].addr != s0[lo as int].addr by {
                if k != lo {
                    assert(chunk_ok(s0[k]) && chunk_ok(s0[lo as int]));
                    if k < lo {
                        assert(end_of(s0[k]) <= s0[lo as int].addr);
                    } else {
                        assert(end_of(s0[lo as int]) <= s0[k].addr);
                    }
                }
            }
        }
        Some(lo)
    }

    /// Obtains an in-use chunk of at least `nb` bytes: from the bins or a
    /// top, mapped directly for large requests when `direct` allows, or from
    /// a new segment.
    fn malloc_chunk(&mut self, nb: usize, direct: bool) -> (r: Option<usize>)
        requires
            old(self).wf(),
            MIN_CHUNK_SIZE <= nb <= 4 * MAX_REQUEST + 0x1000,
            nb % MALLOC_ALIGNMENT == 0,
        ensures
            final(self).wf(),
            final(self).platform().zeroes() == old(self).platform().zeroes(),
            match r {
                None => final(self).heap() == old(self).heap() && final(self).footprint_spec()
                    == old(self).footprint_spec() && final(self).dv_addr() == old(self).dv_addr()
                    && final(self).platform_refused(old(self).heap(), nb + FENCEPOST_SIZE),
                Some(i) => {
                    let h = final(self).heap();
                    let p = payload_addr(h[i as int].addr);
                    &&& i < h.len()
                    &&& is_live_kind(h[i as int].kind)
                    &&& nb >= MIN_LARGE_SIZE ==> forall|k: int, j: int|
                        #![trigger in_bin(old(self).heap(), k), in_bin(old(self).heap(), j)]
                        in_bin(old(self).heap(), k) && old(self).heap()[k].addr == h[i as int].addr
                            && in_bin(old(self).heap(), j) && old(self).heap()[j].size >= nb
                            ==> old(self).heap()[j].size >= old(self).heap()[k].size
                    &&& !direct ==> h[i as int].kind == Kind::InUse
                    &&& h[i as int].size >= nb
                    &&& p % MALLOC_ALIGNMENT == 0
                    &&& !old(self).allocations().contains_key(p)
                    &&& final(self).allocations() == old(self).allocations().insert(
                        p,
                        payload(h[i as int]),
                    )
                    &&& h[i as int].kind == Kind::Mapped && old(self).platform().zeroes()
                        ==> forall|q: int|
                        0 <= q < h[i as int].data.len() ==> #[trigger] h[i as int].data[q] == 0u8
                },
            },
            (exists|j: int| #[trigger] serves(old(self).heap(), j, nb as int)) ==> r is Some,
    {
        if is_small(nb) {
            let from_small = self.find_small(nb);
            let chosen = match from_small {
                Some(i) => Some(i),
                None => self.find_dv(nb),
            };
            match chosen {
                Some(i) => {
                    self.use_chunk(i, nb);
                    let n = self.chunks.len();
                    if i < n - 1 && self.chunks[i + 1].kind == Kind::Free {
                        self.dv = self.chunks[i + 1].addr;
                    } else if from_small.is_none() {
                        self.dv = 0;
                    }
                    return Some(i);
                },
                None => {},
            }
        }
        let ghost s0 = self.heap();
        match self.find_fit(nb) {
            Some(i) => {
                self.use_chunk(i, nb);
                proof {
                    lemma_sorted(s0);
                    assert forall|k: int| 0 <= k < s0.len() && s0[k].addr == s0[i as int].addr
                        implies k == i by {
                        if k != i {
                            assert(chunk_ok(s0[k]) && chunk_ok(s0[i as int]));
                            if k < i {
                                assert(end_of(s0[k]) <= s0[i as int].addr);
                            } else {
                                assert(end_of(s0[i as int]) <= s0[k].addr);
                            }
                        }
                    }
                }
                return Some(i);
            },
            None => {},
        }
        if direct && nb >= MMAP_THRESHOLD {
            let page = self.sys.page_size();
            let want = segment_request(nb, page);
            match self.add_segment(want, nb + FENCEPOST_SIZE, Kind::Mapped) {
                Some(j) => {
                    proof {
                        let h = self.heap();
                        assert(chunk_ok(h[j as int]));
                        lemma_mod_diff(h[j as int].addr as int, 16);
                    }
                    return Some(j);
                },
                None => {},
            }
        }
        match self.grow(nb) {
            Some(i) => {
                self.use_chunk(i, nb);
                Some(i)
            },
            None => None,
        }
    }

    /// Splits in-use chunk `i` into two in-use chunks, the first of `at`
    /// bytes. Gives the payload address of the second.
    fn split_inuse(&mut self, i: usize, at: usize) -> (q: usize)
        requires
            old(self).wf(),
            i < old(self).heap().len(),
            old(self).heap()[i as int].kind == Kind::InUse,
            at >= MIN_CHUNK_SIZE,
            at % MALLOC_ALIGNMENT == 0,
            old(self).heap()[i as int].size >= at + MIN_CHUNK_SIZE,
        ensures
            final(self).wf(),
            final(self).footprint_spec() == old(self).footprint_spec(),
            final(self).platform() == old(self).platform(),
            i + 1 < final(self).heap().len(),
            final(self).heap()[i as int].kind == Kind::InUse,
            final(self).heap()[i + 1].kind == Kind::InUse,
            final(self).heap()[i as int].addr == old(self).heap()[i as int].addr,
            final(self).heap()[i as int].size == at,
            final(self).heap()[i as int].data == old(self).heap()[i as int].data.subrange(0,
                at as int),
            final(self).heap()[i + 1].size == old(self).heap()[i as int].size - at,
            q == payload_addr(final(self).heap()[i + 1].addr),
            q == old(self).heap()[i as int].addr + at + CHUNK_OVERHEAD,
            !old(self).allocations().contains_key(q),
            q != payload_addr(old(self).heap()[i as int].addr),
            final(self).allocations() == old(self).allocations().insert(
                payload_addr(old(self).heap()[i as int].addr),
                payload(final(self).heap()[i as int]),
            ).insert(q, payload(final(self).heap()[i + 1])),
    {
        let ghost s = self.heap();
        let n = self.chunks.len();
        proof {
            assert(s.len() == n);
            assert(chunk_ok(s[i as int]));
        }
        let mut parts = take_range(&mut self.chunks, i, i + 1);
        let ghost rest = views(self.chunks@);
        assert(views(parts@)[0] == s[i as int]);
        assert(parts@[0]@ == s[i as int]);
        let mut c = parts.remove(0);
        let tail = c.data.split_off(at);
        let r = Chunk { addr: c.addr + at, size: c.size - at, kind: Kind::InUse, data: tail };
        c.size = at;
        let q = r.addr + CHUNK_OVERHEAD;
        let mut mid: Vec<Chunk> = Vec::new();
        mid.push(c);
        mid.push(r);
        let ghost m = views(mid@);
        put_range(&mut self.chunks, i, mid);
        proof {
            lemma_take_put(s, i as int, i + 1, rest, m, self.heap());
            lemma_split_inuse(s, i as int, m);
            assert(self.heap()[i as int] == m[0] && self.heap()[i + 1] == m[1]);
        }
        q
    }

    /// Allocates `size` bytes whose payload address is a multiple of
    /// `align`, a power of two above the granularity: a chunk large enough
    /// to hold an aligned payload is obtained, and the part before that
    /// payload is freed.
    fn memalign(&mut self, align: usize, size: usize) -> (r: usize)
        requires
            old(self).wf(),
            align > MALLOC_ALIGNMENT,
            align % MALLOC_ALIGNMENT == 0,
        ensures
            final(self).wf(),
            r == 0 ==> final(self).allocations() == old(self).allocations(),
            r == 0 ==> final(self).heap() == old(self).heap()
                && final(self).footprint_spec() == old(self).footprint_spec(),
            r == 0 ==> final(self).dv_addr() == old(self).dv_addr(),
            r == 0 && size <= MAX_REQUEST && align <= MAX_REQUEST ==> final(self).platform_refused(
                old(self).heap(),
                request_to_chunk(size as int) + FENCEPOST_SIZE,
            ),
            r != 0 ==> {
                &&& !old(self).allocations().contains_key(r)
                &&& final(self).allocations() == old(self).allocations().insert(
                    r,
                    final(self).allocations()[r],
                )
                &&& final(self).allocations()[r].len() >= size
                &&& r % align == 0
            },
            size > MAX_REQUEST || align > MAX_REQUEST ==> r == 0,
            size <= MAX_REQUEST && align <= MAX_REQUEST
                && (exists|j: int| #[trigger] serves(old(self).heap(), j,
                request_to_chunk(size + align + MIN_CHUNK_SIZE))) ==> r != 0,
    {
        if size > MAX_REQUEST || align > MAX_REQUEST {
            return 0;
        }
        let nb = pad_request(size);
        let req = pad_request(size + align + MIN_CHUNK_SIZE);
        proof {
            lemma_mod_diff(align as int, MIN_CHUNK_SIZE as int);
        }
        let i = match self.malloc_chunk(req, false) {
            None => {
                return 0;
            },
            Some(i) => i,
        };
        let ghost s1 = self.heap();
        let ghost a1 = self.allocations();
        proof {
            assert(chunk_ok(s1[i as int]));
        }
        let p0 = self.chunks[i].addr + CHUNK_OVERHEAD;
        if p0 % align == 0 {
            proof {
                assert(payload(s1[i as int]).len() == s1[i as int].size - 16);
            }
            self.trim_tail(p0, nb);
            return p0;
        }
        let pa0 = align_up(p0, align);
        let lead0 = pa0 - p0;
        let lead = if lead0 < MIN_CHUNK_SIZE {
            lead0 + align
        } else {
            lead0
        };
        proof {
            assert(p0 % 16 == 0);
            let (pi, ai) = (pa0 as int, align as int);
            assert(pi % 16 == 0) by (nonlinear_arith)
                requires
                    pi % ai == 0,
                    ai % 16 == 0,
                    ai > 0,
            {
                let q = pi / ai;
                let r = ai / 16;
                assert(pi == ai * q);
                assert(ai == 16 * r);
                assert(pi == 16 * (r * q));
            }
            lemma_mod_diff(pa0 as int, p0 as int);
            assert(lead0 % 16 == 0);
            assert(lead0 > 0);
            lemma_mod_diff(lead0 as int, align as int);
            let (pi, li, l0, ai) = (pa0 as int, lead as int, lead0 as int, align as int);
            assert((p0 + li) % ai == 0) by (nonlinear_arith)
                requires
                    pi % ai == 0,
                    li == l0 || li == l0 + ai,
                    l0 == pi - p0,
                    ai > 0,
            ;
        }
        proof {
            assert(lead <= align + 16);
            assert(s1[i as int].size >= req);
        }
        let q = self.split_inuse(i, lead);
        let ghost a2 = self.allocations();
        let ghost s2 = self.heap();
        proof {
            assert(q == p0 + lead);
            assert(payload_addr(s2[i as int].addr) == p0);
            assert(!old(self).allocations().contains_key(q));
            assert(chunk_ok(s2[i + 1]));
            assert(a2[q] == payload(s2[i + 1]));
            assert(a2[q].len() == s2[i + 1].size - 16);
            assert(a2[q].len() >= size);
        }
        self.release_chunk(i);
        proof {
            assert(self.allocations() == a2.remove(p0));
            assert(self.allocations() =~= old(self).allocations().insert(q, a2[q]));
        }
        self.trim_tail(q, nb);
        q
    }

    /// Frees what lies beyond the first `nb` bytes of the chunk of the
    /// allocation at `q`, when that can stand as a chunk.
    fn trim_tail(&mut self, q: usize, nb: usize)
        requires
            old(self).wf(),
            old(self).allocations().contains_key(q),
            nb >= MIN_CHUNK_SIZE,
            nb % MALLOC_ALIGNMENT == 0,
        ensures
            final(self).wf(),
            final(self).allocations() == old(self).allocations().insert(
                q,
                final(self).allocations()[q],
            ),
            final(self).allocations()[q].len() >= old(self).allocations()[q].len()
                || final(self).allocations()[q].len() >= nb - CHUNK_OVERHEAD,
    {
        let k = match self.find(q) {
            Some(k) => k,
            None => {
                return ;
            },
        };
        proof {
            lemma_live_index(self.heap(), k as int);
        }
        if self.chunks[k].kind == Kind::InUse && self.chunks[k].size >= nb {
            self.trim_chunk(k, nb);
        } else {
            proof {
                assert(self.allocations().insert(q, self.allocations()[q]) =~= self.allocations());
            }
        }
    }

    /// Writes `bytes` into the payload of live chunk `i`, from offset `off`.
    fn store(&mut self, i: usize, off: usize, bytes: &Vec<u8>)
        requires
            old(self).wf(),
            i < old(self).heap().len(),
            is_live_kind(old(self).heap()[i as int].kind),
            off + bytes@.len() <= old(self).heap()[i as int].size - CHUNK_OVERHEAD,
        ensures
            final(self).wf(),
            final(self).footprint_spec() == old(self).footprint_spec(),
            final(self).platform() == old(self).platform(),
            final(self).allocations() == old(self).allocations().insert(
                payload_addr(old(self).heap()[i as int].addr),
                overwrite(payload(old(self).heap()[i as int]), off as int, bytes@),
            ),
    {
        let ghost s = self.heap();
        let n = self.chunks.len();
        proof {
            assert(s.len() == n);
            assert(chunk_ok(s[i as int]));
        }
        let mut parts = take_range(&mut self.chunks, i, i + 1);
        let ghost rest = views(self.chunks@);
        assert(views(parts@)[0] == s[i as int]);
        assert(parts@[0]@ == s[i as int]);
        let mut c = parts.remove(0);
        let ghost d0 = c.data@;
        let mut k: usize = 0;
        while k < bytes.len()
            invariant
                k <= bytes@.len(),
                off + bytes@.len() <= s[i as int].size - CHUNK_OVERHEAD,
                c.data@.len() == d0.len(),
                d0.len() == s[i as int].size,
                d0 == s[i as int].data,
                c.addr == s[i as int].addr,
                c.size == s[i as int].size,
                c.kind == s[i as int].kind,
                forall|q: int|
                    0 <= q < d0.len() ==> #[trigger] c.data@[q] == if CHUNK_OVERHEAD + off <= q
                        < CHUNK_OVERHEAD + off + k {
                        bytes@[q - CHUNK_OVERHEAD - off]
                    } else {
                        d0[q]
                    },
            decreases bytes@.len() - k,
        {
            c.data[CHUNK_OVERHEAD + off + k] = bytes[k];
            k = k + 1;
        }
        let ghost cv = c@;
        let mut mid: Vec<Chunk> = Vec::new();
        mid.push(c);
        assert(views(mid@) =~= seq![cv]);
        put_range(&mut self.chunks, i, mid);
        proof {
            lemma_take_put(s, i as int, i + 1, rest, seq![cv], self.heap());
            lemma_rewrite(s, i as int, cv);
            assert(payload(cv) =~= overwrite(payload(s[i as int]), off as int, bytes@));
        }
    }

    /// Writes `len` copies of `v` at the start of the payload at `p`.
    pub fn fill(&mut self, p: usize, v: u8, len: usize)
        requires
            old(self).inv(),
            old(self).allocations().contains_key(p),
            len <= old(self).allocations()[p].len(),
        ensures
            final(self).inv(),
            final(self).platform() == old(self).platform(),
            final(self).allocations() == old(self).allocations().insert(
                p,
                overwrite(old(self).allocations()[p], 0, Seq::new(len as nat, |q: int| v)),
            ),
    {
        match self.find(p) {
            None => {},
            Some(i) => {
                proof {
                    lemma_live_index(self.heap(), i as int);
                    assert(chunk_ok(self.heap()[i as int]));
                }
                let bytes = vec![v; len];
                assert(bytes@ =~= Seq::new(len as nat, |q: int| v));
                self.store(i, 0, &bytes);
                self.check_dv();
            },
        }
    }

    /// The first `len` payload bytes of live chunk `i`.
    fn copy_out(&self, i: usize, len: usize) -> (r: Vec<u8>)
        requires
            self.wf(),
            i < self.heap().len(),
            len <= self.heap()[i as int].size - CHUNK_OVERHEAD,
        ensures
            r@ == payload(self.heap()[i as int]).subrange(0, len as int),
    {
        let ghost c = self.heap()[i as int];
        proof {
            assert(chunk_ok(c));
        }
        let data = &self.chunks[i].data;
        let mut r: Vec<u8> = Vec::new();
        let mut k: usize = 0;
        while k < len
            invariant
                k <= len,
                len <= c.size - CHUNK_OVERHEAD,
                data@ == c.data,
                c.data.len() == c.size,
                r@ == payload(c).subrange(0, k as int),
            decreases len - k,
        {
            r.push(data[CHUNK_OVERHEAD + k]);
            k = k + 1;
            assert(r@ =~= payload(c).subrange(0, k as int));
        }
        r
    }

    /// Extends in-use chunk `i` over the free chunk after it.
    fn extend_chunk(&mut self, i: usize)
        requires
            old(self).wf(),
            i + 1 < old(self).heap().len(),
            old(self).heap()[i as int].kind == Kind::InUse,
            old(self).heap()[i + 1].kind == Kind::Free,
        ensures
            final(self).wf(),
            final(self).platform() == old(self).platform(),
            final(self).footprint_spec() == old(self).footprint_spec(),
            i < final(self).heap().len(),
            final(self).heap()[i as int].kind == Kind::InUse,
            final(self).heap()[i as int].addr == old(self).heap()[i as int].addr,
            final(self).heap()[i as int].size
                == old(self).heap()[i as int].size + old(self).heap()[i + 1].size,
            final(self).heap()[i as int].data
                == old(self).heap()[i as int].data + old(self).heap()[i + 1].data,
            final(self).allocations() == old(self).allocations().insert(
                payload_addr(old(self).heap()[i as int].addr),
                payload(final(self).heap()[i as int]),
            ),
    {
        let ghost s = self.heap();
        let n = self.chunks.len();
        proof {
            assert(s.len() == n);
            lemma_link(s, i as int);
        }
        let mut parts = take_range(&mut self.chunks, i, i + 2);
        let ghost w = views(parts@);
        let ghost rest = views(self.chunks@);
        assert(w[0] == s[i as int] && parts@[0]@ == w[0]);
        let mut c = parts.remove(0);
        assert(w[1] == s[i + 1] && parts@[0]@ == w[1]);
        let mut d = parts.remove(0);
        c.data.append(&mut d.data);
        c.size = c.size + d.size;
        let ghost cv = c@;
        let mut mid: Vec<Chunk> = Vec::new();
        mid.push(c);
        assert(views(mid@) =~= seq![cv]);
        put_range(&mut self.chunks, i, mid);
        proof {
            lemma_take_put(s, i as int, i + 2, rest, seq![cv], self.heap());
            lemma_extend(s, i as int, cv);
            assert(self.heap()[i as int] == cv);
        }
    }

    /// Allocates `size` bytes aligned to `align`; also tells whether the
    /// payload is known to hold zeros (a fresh mapping of a zeroing platform).
    fn malloc_fresh(&mut self, size: usize, align: usize) -> (r: (usize, bool))
        requires
            old(self).wf(),
            is_power_of_two(align as int),
        ensures
            final(self).wf(),
            r.0 == 0 ==> final(self).allocations() == old(self).allocations(),
            r.0 == 0 ==> final(self).heap() == old(self).heap()
                && final(self).footprint_spec() == old(self).footprint_spec(),
            r.0 == 0 ==> final(self).dv_addr() == old(self).dv_addr(),
            r.0 == 0 && size <= MAX_REQUEST && align <= MAX_REQUEST
                ==> final(self).platform_refused(
                old(self).heap(),
                request_to_chunk(size as int) + FENCEPOST_SIZE,
            ),
            r.0 != 0 ==> {
                &&& !old(self).allocations().contains_key(r.0)
                &&& final(self).allocations() == old(self).allocations().insert(
                    r.0,
                    final(self).allocations()[r.0],
                )
                &&& final(self).allocations()[r.0].len() >= size
                &&& r.0 % align == 0
            },
            r.0 != 0 && r.1 ==> forall|k: int|
                0 <= k < final(self).allocations()[r.0].len()
                    ==> #[trigger] final(self).allocations()[r.0][k] == 0u8,
            r.0 != 0 && align <= MALLOC_ALIGNMENT && request_to_chunk(size as int) >= MIN_LARGE_SIZE
                ==> forall|k: int, j: int|
                #![trigger in_bin(old(self).heap(), k), in_bin(old(self).heap(), j)]
                in_bin(old(self).heap(), k) && payload_addr(old(self).heap()[k].addr) == r.0
                    && in_bin(old(self).heap(), j) && old(self).heap()[j].size >= request_to_chunk(
                    size as int,
                ) ==> old(self).heap()[j].size >= old(self).heap()[k].size,
            size > MAX_REQUEST || align > MAX_REQUEST ==> r.0 == 0,
            size <= MAX_REQUEST && align <= MALLOC_ALIGNMENT
                && (exists|j: int| #[trigger] serves(old(self).heap(), j,
                request_to_chunk(size as int)))
                ==> r.0 != 0,
            size <= MAX_REQUEST && MALLOC_ALIGNMENT < align <= MAX_REQUEST
                && (exists|j: int| #[trigger] serves(old(self).heap(), j,
                request_to_chunk(size + align + MIN_CHUNK_SIZE))) ==> r.0 != 0,
    {
        if align > MALLOC_ALIGNMENT {
            proof {
                lemma_large_power_aligned(align as int);
            }
            return (self.memalign(align, size), false);
        }
        if size > MAX_REQUEST {
            return (0, false);
        }
        let nb = pad_request(size);
        match self.malloc_chunk(nb, true) {
            None => (0, false),
            Some(i) => {
                let ghost h = self.heap();
                proof {
                    assert(chunk_ok(h[i as int]));
                    lemma_small_power_divides(align as int, (h[i as int].addr + 16) as int);
                }
                let p = self.chunks[i].addr + CHUNK_OVERHEAD;
                proof {
                    let s0 = old(self).heap();
                    assert forall|k: int| #[trigger] in_bin(s0, k) && payload_addr(s0[k].addr)
                        == p implies s0[k].addr == h[i as int].addr by {
                        assert(chunk_ok(s0[k]));
                    }
                }
                let fresh = self.chunks[i].kind == Kind::Mapped && self.sys.allocates_zeros();
                proof {
                    assert(payload(h[i as int]).len() == h[i as int].size - 16);
                    if fresh {
                        assert forall|k: int| 0 <= k < payload(h[i as int]).len() implies #[trigger]
                            payload(h[i as int])[k] == 0u8 by {
                            assert(h[i as int].data[k + 16] == 0u8);
                        }
                    }
                }
                (p, fresh)
            },
        }
    }

    /// Allocates `size` bytes whose address is a multiple of `align`, a
    /// power of two. Gives 0 when the request is too large, or when no free
    /// chunk serves it and the region the platform gave for a new segment
    /// cannot be used; the heap is then unchanged.
    pub fn malloc(&mut self, size: usize, align: usize) -> (r: usize)
        requires
            old(self).inv(),
            is_power_of_two(align as int),
        ensures
            final(self).inv(),
            r == 0 ==> final(self).allocations() == old(self).allocations(),
            r == 0 ==> final(self).heap() == old(self).heap()
                && final(self).footprint_spec() == old(self).footprint_spec(),
            r == 0 ==> final(self).dv_addr() == old(self).dv_addr(),
            r == 0 && size <= MAX_REQUEST && align <= MAX_REQUEST ==> final(self).platform_refused(
                old(self).heap(),
                request_to_chunk(size as int) + FENCEPOST_SIZE,
            ),
            r != 0 ==> {
                &&& !old(self).allocations().contains_key(r)
                &&& final(self).allocations() == old(self).allocations().insert(
                    r,
                    final(self).allocations()[r],
                )
                &&& final(self).allocations()[r].len() >= size
                &&& r % align == 0
            },
            r != 0 && align <= MALLOC_ALIGNMENT && request_to_chunk(size as int) >= MIN_LARGE_SIZE
                ==> forall|k: int, j: int|
                #![trigger in_bin(old(self).heap(), k), in_bin(old(self).heap(), j)]
                in_bin(old(self).heap(), k) && payload_addr(old(self).heap()[k].addr) == r
                    && in_bin(old(self).heap(), j) && old(self).heap()[j].size >= request_to_chunk(
                    size as int,
                ) ==> old(self).heap()[j].size >= old(self).heap()[k].size,
            size > MAX_REQUEST || align > MAX_REQUEST ==> r == 0,
            size <= MAX_REQUEST && align <= MALLOC_ALIGNMENT
                && (exists|j: int| #[trigger] serves(old(self).heap(), j,
                request_to_chunk(size as int)))
                ==> r != 0,
            size <= MAX_REQUEST && MALLOC_ALIGNMENT < align <= MAX_REQUEST
                && (exists|j: int| #[trigger] serves(old(self).heap(), j,
                request_to_chunk(size + align + MIN_CHUNK_SIZE))) ==> r != 0,
    {
        let r = self.malloc_fresh(size, align).0;
        if r != 0 {
            self.check_dv();
        }
        r
    }

    /// As `malloc`, and the first `size` bytes of the payload are zeros.
    pub fn calloc(&mut self, size: usize, align: usize) -> (r: usize)
        requires
            old(self).inv(),
            is_power_of_two(align as int),
        ensures
            final(self).inv(),
            r == 0 ==> final(self).allocations() == old(self).allocations(),
            r == 0 ==> final(self).heap() == old(self).heap()
                && final(self).footprint_spec() == old(self).footprint_spec(),
            r == 0 ==> final(self).dv_addr() == old(self).dv_addr(),
            r == 0 && size <= MAX_REQUEST && align <= MAX_REQUEST ==> final(self).platform_refused(
                old(self).heap(),
                request_to_chunk(size as int) + FENCEPOST_SIZE,
            ),
            r != 0 ==> {
                &&& !old(self).allocations().contains_key(r)
                &&& final(self).allocations() == old(self).allocations().insert(
                    r,
                    final(self).allocations()[r],
                )
                &&& final(self).allocations()[r].len() >= size
                &&& r % align == 0
                &&& forall|k: int| 0 <= k < size ==> #[trigger] final(self).allocations()[r][k]
                    == 0u8
            },
            size > MAX_REQUEST || align > MAX_REQUEST ==> r == 0,
            size <= MAX_REQUEST && align <= MALLOC_ALIGNMENT
                && (exists|j: int| #[trigger] serves(old(self).heap(), j,
                request_to_chunk(size as int)))
                ==> r != 0,
            size <= MAX_REQUEST && MALLOC_ALIGNMENT < align <= MAX_REQUEST
                && (exists|j: int| #[trigger] serves(old(self).heap(), j,
                request_to_chunk(size + align + MIN_CHUNK_SIZE))) ==> r != 0,
    {
        let (p, fresh) = self.malloc_fresh(size, align);
        if p != 0 {
            self.check_dv();
            if !fresh {
                self.fill(p, 0, size);
            }
        }
        p
    }

    /// Writes `v` at offset `i` of the payload at `p`; false, and nothing
    /// written, if `p` is not held by a caller or `i` lies outside its payload.
    pub fn write(&mut self, p: usize, i: usize, v: u8) -> (r: bool)
        requires
            old(self).inv(),
        ensures
            final(self).inv(),
            r == (old(self).allocations().contains_key(p) && i < old(self).allocations()[p].len()),
            r ==> final(self).allocations() == old(self).allocations().insert(
                p,
                old(self).allocations()[p].update(i as int, v),
            ),
            !r ==> final(self).allocations() == old(self).allocations(),
    {
        match self.find(p) {
            None => false,
            Some(k) => {
                proof {
                    lemma_live_index(self.heap(), k as int);
                    assert(chunk_ok(self.heap()[k as int]));
                }
                if i >= self.chunks[k].size - CHUNK_OVERHEAD {
                    return false;
                }
                let mut b: Vec<u8> = Vec::new();
                b.push(v);
                let ghost before = self.allocations();
                self.store(k, i, &b);
                self.check_dv();
                proof {
                    assert(overwrite(before[p], i as int, b@) =~= before[p].update(i as int, v));
                }
                true
            },
        }
    }

    /// The first `len` bytes of the payload at `p`, if `p` is held by a
    /// caller and its payload has that many bytes.
    pub fn read_bytes(&self, p: usize, len: usize) -> (r: Option<Vec<u8>>)
        requires
            self.wf(),
        ensures
            match r {
                Some(v) => self.allocations().contains_key(p) && len <= self.allocations()[p].len()
                    && v@ == self.allocations()[p].subrange(0, len as int),
                None => !(self.allocations().contains_key(p) && len <= self.allocations()[p].len()),
            },
    {
        match self.find(p) {
            None => None,
            Some(k) => {
                proof {
                    lemma_live_index(self.heap(), k as int);
                    assert(chunk_ok(self.heap()[k as int]));
                }
                if len > self.chunks[k].size - CHUNK_OVERHEAD {
                    return None;
                }
                Some(self.copy_out(k, len))
            },
        }
    }

    /// Asks the platform to grow the mapping of directly mapped chunk `i` in
    /// place so that the chunk holds `nb` bytes; on success the chunk takes
    /// the new pages, zeroed, after its bytes.
    fn remap_chunk(&mut self, i: usize, nb: usize) -> (grown: bool)
        requires
            old(self).wf(),
            i < old(self).heap().len(),
            old(self).heap()[i as int].kind == Kind::Mapped,
            MIN_CHUNK_SIZE <= nb <= 4 * MAX_REQUEST,
        ensures
            final(self).wf(),
            !grown ==> final(self).heap() == old(self).heap(),
            final(self).dv_addr() == old(self).dv_addr(),
            grown ==> {
                let p = payload_addr(old(self).heap()[i as int].addr);
                let v = final(self).allocations()[p];
                &&& final(self).allocations() == old(self).allocations().insert(p, v)
                &&& v.len() >= nb - CHUNK_OVERHEAD
                &&& v.subrange(0, payload(old(self).heap()[i as int]).len() as int) == payload(
                    old(self).heap()[i as int],
                )
            },
    {
        let ghost s = self.heap();
        let n = self.chunks.len();
        proof {
            assert(s.len() == n);
            assert(i + 1 < n);
            lemma_link(s, i as int);
        }
        let base = self.chunks[i].addr;
        let size = self.chunks[i].size;
        let page = self.sys.page_size();
        let new_len = align_up(align_up(nb + FENCEPOST_SIZE, page), MALLOC_ALIGNMENT);
        if new_len <= size + FENCEPOST_SIZE || new_len > ADDRESS_LIMIT - base {
            return false;
        }
        if i + 2 < n && base + new_len > self.chunks[i + 2].addr {
            return false;
        }
        if self.sys.remap(base, size + FENCEPOST_SIZE, new_len, false) != base {
            return false;
        }
        let grow = new_len - FENCEPOST_SIZE - size;
        let mut parts = take_range(&mut self.chunks, i, i + 2);
        let ghost w = views(parts@);
        let ghost rest = views(self.chunks@);
        assert(w[0] == s[i as int] && parts@[0]@ == w[0]);
        let mut c = parts.remove(0);
        assert(w[1] == s[i + 1] && parts@[0]@ == w[1]);
        let mut f = parts.remove(0);
        let mut more = vec![0u8; grow];
        c.data.append(&mut more);
        c.size = size + grow;
        f.addr = base + c.size;
        let ghost m = seq![c@, f@];
        let mut mid: Vec<Chunk> = Vec::new();
        mid.push(c);
        mid.push(f);
        assert(views(mid@) =~= m);
        put_range(&mut self.chunks, i, mid);
        proof {
            assert(chunk_ok(s[i as int]));
            lemma_mod_diff(new_len as int, FENCEPOST_SIZE as int);
            lemma_mod_diff((new_len - FENCEPOST_SIZE) as int, size as int);
            lemma_take_put(s, i as int, i + 2, rest, m, self.heap());
            lemma_grow_mapped(s, i as int, m);
            let t = self.heap();
            lemma_total_bound(t);
            assert(chunk_ok(t[t.len() - 1]));
            assert(payload(m[0]).subrange(0, payload(s[i as int]).len() as int) =~= payload(
                s[i as int],
            ));
        }
        self.footprint = self.footprint + grow;
        if self.footprint > self.max_footprint {
            self.max_footprint = self.footprint;
        }
        true
    }

    /// Cuts in-use chunk `i` down to `nb` bytes when what lies beyond can
    /// stand as a chunk, freeing that tail. The payload keeps its address and
    /// the first `nb - CHUNK_OVERHEAD` of its bytes.
    fn trim_chunk(&mut self, i: usize, nb: usize)
        requires
            old(self).wf(),
            i < old(self).heap().len(),
            old(self).heap()[i as int].kind == Kind::InUse,
            old(self).heap()[i as int].size >= nb,
            nb >= MIN_CHUNK_SIZE,
            nb % MALLOC_ALIGNMENT == 0,
        ensures
            final(self).wf(),
            final(self).platform() == old(self).platform(),
            final(self).footprint_spec() == old(self).footprint_spec(),
            old(self).heap()[i as int].size >= nb + MIN_CHUNK_SIZE ==> exists|m: int|
                0 <= m < final(self).heap().len() && #[trigger] final(self).heap()[m].addr
                    == old(self).heap()[i as int].addr + nb && final(self).heap()[m].kind
                    == Kind::Free,
            ({
                let p = payload_addr(old(self).heap()[i as int].addr);
                let v = final(self).allocations()[p];
                &&& final(self).allocations() == old(self).allocations().insert(p, v)
                &&& v.len() >= nb - CHUNK_OVERHEAD
                &&& v.subrange(0, nb - CHUNK_OVERHEAD)
                    == payload(old(self).heap()[i as int]).subrange(
                    0,
                    nb - CHUNK_OVERHEAD,
                )
            }),
    {
        let ghost s = self.heap();
        let ghost p = payload_addr(s[i as int].addr);
        proof {
            assert(chunk_ok(s[i as int]));
            lemma_live_index(s, i as int);
        }
        if self.chunks[i].size - nb < MIN_CHUNK_SIZE {
            proof {
                assert(live(s).insert(p, live(s)[p]) =~= live(s));
            }
            return ;
        }
        let q = self.split_inuse(i, nb);
        let ghost a2 = self.allocations();
        let ghost s2 = self.heap();
        let n2 = self.chunks.len();
        assert(s2.len() == n2);
        let m = self.release_chunk(i + 1);
        proof {
            assert(chunk_ok(s2[i as int]));
            assert(self.allocations() == a2.remove(q));
            assert(self.allocations() =~= live(s).insert(p, payload(s2[i as int])));
            assert(payload(s2[i as int]) =~= payload(s[i as int]).subrange(0, nb - 16));
            assert(chunk_ok(s2[i + 1]));
            assert(s2[i + 1].addr == s[i as int].addr + nb);
            assert(s2[i as int].kind == Kind::InUse);
            assert(self.heap()[m as int].addr == s[i as int].addr + nb);
        }
    }

    /// Resizes the allocation at `p`, of `old_size` bytes aligned to
    /// `old_align`, to `new_size` bytes with the same alignment. The chunk
    /// is cut or extended in place where it can be; otherwise the bytes move
    /// to a new allocation and `p` is freed. Gives 0 on failure, and then
    /// `p` stays as it was.
    pub fn realloc(&mut self, p: usize, old_size: usize, old_align: usize, new_size: usize) -> (r:
        usize)
        requires
            old(self).inv(),
            old(self).allocations().contains_key(p),
            old_size <= old(self).allocations()[p].len(),
            is_power_of_two(old_align as int),
        ensures
            final(self).inv(),
            r == 0 ==> final(self).allocations() == old(self).allocations(),
            r == 0 ==> final(self).heap() == old(self).heap()
                && final(self).footprint_spec() == old(self).footprint_spec(),
            r == 0 ==> final(self).dv_addr() == old(self).dv_addr(),
            r == 0 && new_size <= MAX_REQUEST && old_align <= MAX_REQUEST
                ==> final(self).platform_refused(
                old(self).heap(),
                request_to_chunk(new_size as int) + FENCEPOST_SIZE,
            ),
            r != 0 ==> {
                let n = if old_size <= new_size {
                    old_size as int
                } else {
                    new_size as int
                };
                &&& final(self).allocations() == old(self).allocations().remove(p).insert(
                    r,
                    final(self).allocations()[r],
                )
                &&& r != p ==> !old(self).allocations().contains_key(r)
                &&& final(self).allocations()[r].len() >= new_size
                &&& final(self).allocations()[r].subrange(0, n)
                    == old(self).allocations()[p].subrange(
                    0,
                    n,
                )
                &&& r % old_align == 0
            },
            new_size > MAX_REQUEST ==> r == 0,
            old_align <= MALLOC_ALIGNMENT && new_size <= MAX_REQUEST && request_to_chunk(
                new_size as int,
            ) <= old(self).allocations()[p].len() + CHUNK_OVERHEAD ==> r == p,
            old_align <= MALLOC_ALIGNMENT && new_size <= MAX_REQUEST ==> forall|k: int|
                #![trigger old(self).heap()[k]]
                0 <= k < old(self).heap().len() - 1 && payload_addr(old(self).heap()[k].addr)
                    == p ==> {
                    let c = old(self).heap()[k];
                    let nb = request_to_chunk(new_size as int);
                    &&& c.size >= nb ==> r == p && final(self).footprint_spec()
                        == old(self).footprint_spec()
                    &&& c.kind == Kind::InUse && c.size >= nb + MIN_CHUNK_SIZE ==> exists|m: int|
                        0 <= m < final(self).heap().len() && #[trigger] final(self).heap()[m].addr
                            == c.addr + nb && final(self).heap()[m].kind == Kind::Free
                    &&& c.kind == Kind::InUse && old(self).heap()[k + 1].kind == Kind::Free
                        && c.size + old(self).heap()[k + 1].size >= nb ==> r == p
                            && final(self).footprint_spec() == old(self).footprint_spec()
                },
            new_size <= MAX_REQUEST && old_align <= MALLOC_ALIGNMENT && (exists|j: int|
                #[trigger] serves(old(self).heap(), j, request_to_chunk(new_size as int)))
                ==> r != 0,
            new_size <= MAX_REQUEST && MALLOC_ALIGNMENT < old_align <= MAX_REQUEST && (exists|
                j: int,
            |
                #[trigger] serves(
                    old(self).heap(),
                    j,
                    request_to_chunk(new_size + old_align + MIN_CHUNK_SIZE),
                )) ==> r != 0,
            old_align > MALLOC_ALIGNMENT && r != 0 ==> r != p
                && !old(self).allocations().contains_key(
                r,
            ),
    {
        let ghost a0 = self.allocations();
        let ghost s0 = self.heap();
        if new_size > MAX_REQUEST {
            return 0;
        }
        let i = match self.find(p) {
            Some(i) => i,
            None => {
                return 0;
            },
        };
        let n0 = self.chunks.len();
        proof {
            assert(s0.len() == n0);
            lemma_live_index(s0, i as int);
            assert(chunk_ok(s0[i as int]));
            assert(i + 1 < s0.len());
            lemma_link(s0, i as int);
            assert forall|k: int| 0 <= k < s0.len() && payload_addr(s0[k].addr) == p implies k
                == i by {
                lemma_payload_unique(s0, i as int, k);
            }
        }
        if old_align <= MALLOC_ALIGNMENT {
            let nb = pad_request(new_size);
            if self.chunks[i].size >= nb {
                if self.chunks[i].kind == Kind::InUse {
                    self.trim_chunk(i, nb);
                } else {
                    proof {
                        assert(a0.remove(p).insert(p, a0[p]) =~= a0);
                    }
                }
                proof {
                    lemma_small_power_divides(old_align as int, p as int);
                    assert(self.allocations() =~= a0.remove(p).insert(p, self.allocations()[p]));
                }
                self.check_dv();
                return p;
            }
            if self.chunks[i].kind == Kind::Mapped {
                if self.remap_chunk(i, nb) {
                    proof {
                        lemma_small_power_divides(old_align as int, p as int);
                        assert(self.allocations() =~= a0.remove(p).insert(p,
                            self.allocations()[p]));
                    }
                    self.check_dv();
                return p;
                }
            }
            if self.chunks[i].kind == Kind::InUse && self.chunks[i + 1].kind == Kind::Free
                && self.chunks[i + 1].size >= nb - self.chunks[i].size {
                self.extend_chunk(i);
                let ghost a1 = self.allocations();
                let ghost s1 = self.heap();
                self.trim_chunk(i, nb);
                proof {
                    lemma_small_power_divides(old_align as int, p as int);
                    assert(payload(s1[i as int]).subrange(0, s0[i as int].size - 16) =~= payload(
                        s0[i as int],
                    ));
                    assert(self.allocations() =~= a0.remove(p).insert(p, self.allocations()[p]));
                }
                self.check_dv();
                return p;
            }
        }
        let q = self.malloc(new_size, old_align);
        if q == 0 {
            return 0;
        }
        let n = if old_size <= new_size {
            old_size
        } else {
            new_size
        };
        let ghost a1 = self.allocations();
        let i = match self.find(p) {
            Some(i) => i,
            None => {
                return 0;
            },
        };
        proof {
            lemma_live_index(self.heap(), i as int);
            assert(chunk_ok(self.heap()[i as int]));
        }
        let bytes = self.copy_out(i, n);
        let j = match self.find(q) {
            Some(j) => j,
            None => {
                return 0;
            },
        };
        proof {
            lemma_live_index(self.heap(), j as int);
            assert(chunk_ok(self.heap()[j as int]));
        }
        self.store(j, 0, &bytes);
        let ghost a2 = self.allocations();
        self.check_dv();
        self.free(p, old_size, old_align);
        proof {
            assert(a2[q] =~= overwrite(a1[q], 0, a0[p].subrange(0, n as int)));
            assert(a2[q].subrange(0, n as int) =~= a0[p].subrange(0, n as int));
            assert(self.allocations() =~= a0.remove(p).insert(q, a2[q]));
        }
        q
    }

    /// The two bin bitmaps: bit `i` of the first is set exactly when small
    /// bin `i` holds a chunk, bit `i` of the second exactly when tree bin `i`
    /// does. A binned chunk is a free chunk that is neither its segment's top
    /// nor the designated victim.
    pub fn bin_maps(&self) -> (r: (u32, u32))
        requires
            self.wf(),
        ensures
            forall|i: u32|
                i < 32 ==> (#[trigger] has_bit(r.0, i) <==> exists|k: int|
                    #[trigger] binned(self.heap(), self.dv_addr(), k)
                        && self.heap()[k].size < MIN_LARGE_SIZE
                        && small_index_of(self.heap()[k].size as int) == i),
            forall|i: u32|
                i < 32 ==> (#[trigger] has_bit(r.1, i) <==> exists|k: int|
                    #[trigger] binned(self.heap(), self.dv_addr(), k)
                        && self.heap()[k].size >= MIN_LARGE_SIZE
                        && tree_index_of(self.heap()[k].size as nat) == i),
    {
        let ghost s = self.heap();
        let n = self.chunks.len();
        let mut small: u32 = 0;
        let mut tree: u32 = 0;
        proof {
            assert forall|i: u32| i < 32 implies !has_bit(0u32, i) by {
                lemma_no_bits(i);
            }
        }
        let mut j: usize = 0;
        while j < n
            invariant
                s == self.heap(),
                n == s.len(),
                j <= n,
                heap_ok(s),
                forall|i: u32|
                    i < 32 ==> (#[trigger] has_bit(small, i) <==> exists|k: int|
                        0 <= k < j && #[trigger] binned(s, self.dv_addr(), k)
                            && s[k].size < MIN_LARGE_SIZE
                            && small_index_of(s[k].size as int) == i),
                forall|i: u32|
                    i < 32 ==> (#[trigger] has_bit(tree, i) <==> exists|k: int|
                        0 <= k < j && #[trigger] binned(s, self.dv_addr(), k)
                            && s[k].size >= MIN_LARGE_SIZE
                            && tree_index_of(s[k].size as nat) == i),
            decreases n - j,
        {
            let in_a_bin = self.chunks[j].kind == Kind::Free && self.chunks[j].addr != self.dv
                && j + 1 < n && self.chunks[j + 1].kind != Kind::Fence;
            let ghost old_small = small;
            let ghost old_tree = tree;
            if in_a_bin {
                let size = self.chunks[j].size;
                if is_small(size) {
                    let idx = small_index(size);
                    small = small | idx2bit(idx);
                    proof {
                        assert forall|i: u32| i < 32 implies (#[trigger] has_bit(small, i)
                            <==> exists|k: int|
                            0 <= k < j + 1 && #[trigger] binned(s, self.dv_addr(), k) && s[k].size
                                < MIN_LARGE_SIZE && small_index_of(s[k].size as int) == i) by {
                            lemma_set_bit(old_small, idx as u32, i);
                            if i == idx as u32 {
                                assert(binned(s, self.dv_addr(), j as int));
                            }
                        }
                    }
                } else {
                    let idx = compute_tree_index(size);
                    tree = tree | idx2bit(idx);
                    proof {
                        assert forall|i: u32| i < 32 implies (#[trigger] has_bit(tree, i)
                            <==> exists|k: int|
                            0 <= k < j + 1 && #[trigger] binned(s, self.dv_addr(), k) && s[k].size
                                >= MIN_LARGE_SIZE && tree_index_of(s[k].size as nat) == i) by {
                            lemma_set_bit(old_tree, idx as u32, i);
                            if i == idx as u32 {
                                assert(binned(s, self.dv_addr(), j as int));
                            }
                        }
                    }
                }
            }
            proof {
                if !in_a_bin {
                    assert(!binned(s, self.dv_addr(), j as int));
                }
            }
            j = j + 1;
        }
        proof {
            assert forall|k: int| #[trigger] binned(s, self.dv_addr(), k) implies 0 <= k < n by {}
        }
        (small, tree)
    }

    /// Gives every segment back to the platform and forgets all chunks;
    /// payloads that callers still held go with them.
    pub fn destroy(&mut self)
        requires
            old(self).inv(),
        ensures
            final(self).inv(),
            final(self).allocations() == Map::<usize, Seq<u8>>::empty(),
            final(self).footprint_spec() == 0,
    {
        let n = self.chunks.len();
        let mut start: usize = 0;
        let mut k: usize = 0;
        while k < n
            invariant
                n == self.chunks.len(),
                k <= n,
                start <= k,
            decreases n - k,
        {
            if self.chunks[k].kind == Kind::Fence {
                let base = self.chunks[start].addr;
                let fence = &self.chunks[k];
                if base <= fence.addr && fence.size <= usize::MAX - fence.addr {
                    let size = fence.addr + fence.size - base;
                    self.sys.free(base, size);
                }
                start = k + 1;
            }
            k = k + 1;
        }
        self.chunks = Vec::new();
        self.footprint = 0;
        self.dv = 0;
        proof {
            assert(self.heap().len() == 0);
        }
    }
}

impl Dlmalloc<crate::sys::Platform> {
    /// An allocator over the default platform, holding no memory yet.
    pub fn new() -> (r: Self)
        ensures
            r.inv(),
            r.allocations() == Map::<usize, Seq<u8>>::empty(),
            r.footprint_spec() == 0,
    {
        Dlmalloc::new_with_allocator(crate::sys::Platform::new())
    }
}

} // verus!