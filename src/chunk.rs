use vstd::prelude::*;

use crate::layout::{ADDRESS_LIMIT, CHUNK_OVERHEAD, FENCEPOST_SIZE, MALLOC_ALIGNMENT, MIN_CHUNK_SIZE};

verus! {

/// What a chunk's `head` flags say of it.
#[derive(Clone, Copy, PartialEq, Eq, Structural, Debug)]
pub enum Kind {
    /// Free: available to the bins or as a segment's top.
    Free,
    /// Handed out to a caller, carved from a segment.
    InUse,
    /// Handed out to a caller, mapped directly from the platform.
    Mapped,
    /// The in-use sentinel that ends a segment.
    Fence,
}

/// One chunk: its address, its size (header included), its kind, and the
/// bytes it spans.
pub struct Chunk {
    pub addr: usize,
    pub size: usize,
    pub kind: Kind,
    pub data: Vec<u8>,
}

/// The mathematical value of a chunk.
pub struct ChunkView {
    pub addr: usize,
    pub size: usize,
    pub kind: Kind,
    pub data: Seq<u8>,
}

impl View for Chunk {
    type V = ChunkView;

    open spec fn view(&self) -> ChunkView {
        ChunkView { addr: self.addr, size: self.size, kind: self.kind, data: self.data@ }
    }
}

/// The values of a list of chunks.
pub open spec fn views(v: Seq<Chunk>) -> Seq<ChunkView> {
    Seq::new(v.len(), |i: int| v[i]@)
}

/// Whether a chunk of this kind is held by a caller.
pub open spec fn is_live_kind(k: Kind) -> bool {
    k == Kind::InUse || k == Kind::Mapped
}

/// The payload address of a chunk at `addr`: just past its two-word header.
pub open spec fn payload_addr(addr: usize) -> usize {
    (addr + CHUNK_OVERHEAD) as usize
}

/// The bytes a caller sees in a chunk.
pub open spec fn payload(c: ChunkView) -> Seq<u8> {
    c.data.subrange(CHUNK_OVERHEAD as int, c.size as int)
}

/// `a` with the bytes from offset `off` replaced by `b`.
pub open spec fn overwrite(a: Seq<u8>, off: int, b: Seq<u8>) -> Seq<u8> {
    Seq::new(a.len(), |q: int| if off <= q < off + b.len() { b[q - off] } else { a[q] })
}

/// The end address of a chunk.
pub open spec fn end_of(c: ChunkView) -> int {
    c.addr + c.size
}

/// A chunk on its own: aligned, sized for its kind, holding its bytes.
pub open spec fn chunk_ok(c: ChunkView) -> bool {
    &&& c.data.len() == c.size
    &&& c.addr % MALLOC_ALIGNMENT == 0
    &&& c.size % MALLOC_ALIGNMENT == 0
    &&& c.addr + c.size <= ADDRESS_LIMIT
    &&& if c.kind == Kind::Fence {
        c.size == FENCEPOST_SIZE
    } else {
        c.size >= MIN_CHUNK_SIZE
    }
}

/// Two chunks next to each other in address order: inside a segment they
/// touch, no two free chunks touch, and a mapped chunk is alone in its
/// segment.
pub open spec fn link_ok(a: ChunkView, b: ChunkView) -> bool {
    &&& if a.kind == Kind::Fence {
        a.addr + a.size <= b.addr
    } else {
        a.addr + a.size == b.addr
    }
    &&& !(a.kind == Kind::Free && b.kind == Kind::Free)
    &&& a.kind == Kind::Mapped ==> b.kind == Kind::Fence
    &&& b.kind == Kind::Mapped ==> a.kind == Kind::Fence
}

/// Every chunk well formed and every neighbouring pair linked.
pub open spec fn chunks_ok(s: Seq<ChunkView>) -> bool {
    &&& forall|i: int| 0 <= i < s.len() ==> #[trigger] chunk_ok(s[i])
    &&& forall|i: int| 0 <= i < s.len() - 1 ==> #[trigger] link_ok(s[i], s[i + 1])
}

/// The whole chunk list of a heap: well formed, and closed by a fencepost.
pub open spec fn heap_ok(s: Seq<ChunkView>) -> bool {
    &&& chunks_ok(s)
    &&& s.len() > 0 ==> s.last().kind == Kind::Fence
}

/// What callers hold: each live payload address with its bytes.
pub open spec fn live(s: Seq<ChunkView>) -> Map<usize, Seq<u8>>
    decreases s.len(),
{
    if s.len() == 0 {
        Map::empty()
    } else {
        let m = live(s.drop_last());
        let c = s.last();
        if is_live_kind(c.kind) {
            m.insert(payload_addr(c.addr), payload(c))
        } else {
            m
        }
    }
}

/// The live map of a concatenation is the union of the two maps.
pub proof fn lemma_live_concat(a: Seq<ChunkView>, b: Seq<ChunkView>)
    ensures
        live(a + b) == live(a).union_prefer_right(live(b)),
    decreases b.len(),
{
    if b.len() == 0 {
        assert(a + b =~= a);
        assert(live(a).union_prefer_right(live(b)) =~= live(a));
    } else {
        lemma_live_concat(a, b.drop_last());
        assert((a + b).drop_last() =~= a + b.drop_last());
        assert((a + b).last() == b.last());
        let c = b.last();
        if is_live_kind(c.kind) {
            assert(live(a + b) =~= live(a).union_prefer_right(live(b)));
        } else {
            assert(live(a + b) =~= live(a).union_prefer_right(live(b)));
        }
    }
}

/// Every key of the live map comes from a chunk whose address lies in the
/// range that bounds all addresses.
pub proof fn lemma_live_keys_within(s: Seq<ChunkView>, lo: int, hi: int)
    requires
        forall|i: int| 0 <= i < s.len() ==> lo <= #[trigger] s[i].addr < hi,
        hi + CHUNK_OVERHEAD <= usize::MAX,
    ensures
        forall|k: usize| #[trigger] live(s).contains_key(k) ==> lo + CHUNK_OVERHEAD <= k < hi
            + CHUNK_OVERHEAD,
    decreases s.len(),
{
    if s.len() > 0 {
        let t = s.drop_last();
        assert forall|i: int| 0 <= i < t.len() implies lo <= #[trigger] t[i].addr < hi by {
            assert(t[i] == s[i]);
        }
        lemma_live_keys_within(t, lo, hi);
        assert(lo <= s[s.len() - 1].addr < hi);
        assert forall|k: usize| #[trigger] live(s).contains_key(k) implies lo + CHUNK_OVERHEAD <= k
            < hi + CHUNK_OVERHEAD by {
            if !live(t).contains_key(k) {
                assert(k == payload_addr(s.last().addr));
            }
        }
    }
}

/// The live map holds exactly the payloads of the live chunks.
pub proof fn lemma_live_keys(s: Seq<ChunkView>)
    requires
        forall|i: int| 0 <= i < s.len() ==> #[trigger] s[i].addr + CHUNK_OVERHEAD <= usize::MAX,
    ensures
        forall|k: usize| #[trigger]
            live(s).contains_key(k) ==> exists|i: int|
                0 <= i < s.len() && is_live_kind(s[i].kind) && payload_addr(s[i].addr) == k,
    decreases s.len(),
{
    if s.len() > 0 {
        let t = s.drop_last();
        lemma_live_keys(t);
        assert forall|k: usize| #[trigger] live(s).contains_key(k) implies exists|i: int|
            0 <= i < s.len() && is_live_kind(s[i].kind) && payload_addr(s[i].addr) == k by {
            if live(t).contains_key(k) {
                let i = choose|i: int|
                    0 <= i < t.len() && is_live_kind(t[i].kind) && payload_addr(t[i].addr) == k;
                assert(s[i] == t[i]);
            } else {
                assert(payload_addr(s[s.len() - 1].addr) == k);
            }
        }
    }
}

/// In a well formed list, chunks are ordered and disjoint.
pub proof fn lemma_sorted(s: Seq<ChunkView>)
    requires
        chunks_ok(s),
    ensures
        forall|i: int, j: int| 0 <= i < j < s.len() ==> #[trigger] end_of(s[i]) <= #[trigger] s[j].addr,
    decreases s.len(),
{
    if s.len() > 1 {
        let t = s.drop_last();
        assert(chunks_ok(t)) by {
            assert forall|i: int| 0 <= i < t.len() - 1 implies #[trigger] link_ok(t[i], t[i + 1]) by {
                assert(link_ok(s[i], s[i + 1]));
            }
            assert forall|i: int| 0 <= i < t.len() implies #[trigger] chunk_ok(t[i]) by {
                assert(chunk_ok(s[i]));
            }
        }
        lemma_sorted(t);
        let n = s.len() - 1;
        assert forall|i: int, j: int| 0 <= i < j < s.len() implies #[trigger] end_of(s[i])
            <= #[trigger] s[j].addr by {
            if j < n {
                assert(end_of(t[i]) <= t[j].addr);
            } else {
                let k = n - 1;
                assert(link_ok(s[k], s[k + 1]));
                assert(chunk_ok(s[n - 1]));
                if i < n - 1 {
                    assert(end_of(t[i]) <= t[n - 1].addr);
                }
            }
        }
    }
}

/// A live chunk's payload is found in the live map under its payload address.
pub proof fn lemma_live_index(s: Seq<ChunkView>, i: int)
    requires
        chunks_ok(s),
        0 <= i < s.len(),
        is_live_kind(s[i].kind),
    ensures
        live(s).contains_key(payload_addr(s[i].addr)),
        live(s)[payload_addr(s[i].addr)] == payload(s[i]),
{
    lemma_sorted(s);
    let a = s.subrange(0, i + 1);
    let b = s.subrange(i + 1, s.len() as int);
    assert(s =~= a + b);
    lemma_live_concat(a, b);
    assert(a.drop_last() =~= s.subrange(0, i));
    assert(a.last() == s[i]);
    assert(live(a).contains_key(payload_addr(s[i].addr)));
    assert forall|j: int| 0 <= j < b.len() implies end_of(s[i]) <= #[trigger] b[j].addr
        < ADDRESS_LIMIT by {
        assert(b[j] == s[i + 1 + j]);
        assert(chunk_ok(s[i + 1 + j]));
    }
    lemma_live_keys_within(b, end_of(s[i]), ADDRESS_LIMIT as int);
    assert(chunk_ok(s[i]));
}

/// Replacing the chunks `lo..hi` of a well formed heap by `mid` gives a well
/// formed heap, provided `mid` is well formed on its own and joins its new
/// neighbours properly.
pub proof fn lemma_splice(s: Seq<ChunkView>, lo: int, hi: int, mid: Seq<ChunkView>)
    requires
        heap_ok(s),
        0 <= lo <= hi <= s.len(),
        chunks_ok(mid),
        lo > 0 && mid.len() > 0 ==> link_ok(s[lo - 1], mid[0]),
        hi < s.len() && mid.len() > 0 ==> link_ok(mid.last(), s[hi]),
        lo > 0 && hi < s.len() && mid.len() == 0 ==> link_ok(s[lo - 1], s[hi]),
        hi == s.len() && mid.len() > 0 ==> mid.last().kind == Kind::Fence,
        hi == s.len() && mid.len() == 0 && lo > 0 ==> s[lo - 1].kind == Kind::Fence,
    ensures
        heap_ok(s.subrange(0, lo) + mid + s.subrange(hi, s.len() as int)),
{
    let a = s.subrange(0, lo);
    let b = s.subrange(hi, s.len() as int);
    let t = a + mid + b;
    let m = mid.len();
    assert forall|i: int| 0 <= i < t.len() implies #[trigger] chunk_ok(t[i]) by {
        if i < lo {
            assert(t[i] == s[i]);
        } else if i < lo + m {
            assert(t[i] == mid[i - lo]);
        } else {
            assert(t[i] == s[i - lo - m + hi]);
        }
    }
    assert forall|i: int| 0 <= i < t.len() - 1 implies #[trigger] link_ok(t[i], t[i + 1]) by {
        if i + 1 < lo {
            assert(t[i] == s[i] && t[i + 1] == s[i + 1]);
            assert(link_ok(s[i], s[i + 1]));
        } else if i + 1 == lo {
            if m > 0 {
                assert(t[i] == s[lo - 1] && t[i + 1] == mid[0]);
            } else {
                assert(t[i] == s[lo - 1] && t[i + 1] == s[hi]);
            }
        } else if i + 1 < lo + m {
            let k = i - lo;
            assert(t[i] == mid[k] && t[i + 1] == mid[k + 1]);
            assert(link_ok(mid[k], mid[k + 1]));
        } else if i + 1 == lo + m {
            assert(t[i] == mid[m - 1] && t[i + 1] == s[hi]);
        } else {
            let k = i - lo - m + hi;
            assert(t[i] == s[k] && t[i + 1] == s[k + 1]);
            assert(link_ok(s[k], s[k + 1]));
        }
    }
    if t.len() > 0 {
        if hi < s.len() {
            assert(t.last() == s.last());
        } else if m > 0 {
            assert(t.last() == mid.last());
        } else {
            assert(t.last() == s[lo - 1]);
        }
    }
}

/// The live map of a list, cut in three at `lo` and `hi`.
pub proof fn lemma_live_split3(s: Seq<ChunkView>, lo: int, hi: int)
    requires
        0 <= lo <= hi <= s.len(),
    ensures
        live(s) == live(s.subrange(0, lo)).union_prefer_right(
            live(s.subrange(lo, hi)),
        ).union_prefer_right(live(s.subrange(hi, s.len() as int))),
{
    let a = s.subrange(0, lo);
    let m = s.subrange(lo, hi);
    let b = s.subrange(hi, s.len() as int);
    assert(s =~= a + m + b);
    lemma_live_concat(a + m, b);
    lemma_live_concat(a, m);
}

} // verus!

verus! {

/// Sum of the sizes of a list of chunks.
pub open spec fn total(s: Seq<ChunkView>) -> int
    decreases s.len(),
{
    if s.len() == 0 {
        0
    } else {
        total(s.drop_last()) + s.last().size
    }
}

/// The total of a concatenation is the sum of the totals.
pub proof fn lemma_total_concat(a: Seq<ChunkView>, b: Seq<ChunkView>)
    ensures
        total(a + b) == total(a) + total(b),
    decreases b.len(),
{
    if b.len() == 0 {
        assert(a + b =~= a);
    } else {
        lemma_total_concat(a, b.drop_last());
        assert((a + b).drop_last() =~= a + b.drop_last());
    }
}

/// The total of a list, cut in three at `lo` and `hi`.
pub proof fn lemma_total_split3(s: Seq<ChunkView>, lo: int, hi: int)
    requires
        0 <= lo <= hi <= s.len(),
    ensures
        total(s) == total(s.subrange(0, lo)) + total(s.subrange(lo, hi)) + total(
            s.subrange(hi, s.len() as int),
        ),
{
    let a = s.subrange(0, lo);
    let m = s.subrange(lo, hi);
    let b = s.subrange(hi, s.len() as int);
    assert(s =~= a + m + b);
    lemma_total_concat(a + m, b);
    lemma_total_concat(a, m);
}

/// A slice of a well formed list is well formed.
pub proof fn lemma_sub_ok(s: Seq<ChunkView>, lo: int, hi: int)
    requires
        chunks_ok(s),
        0 <= lo <= hi <= s.len(),
    ensures
        chunks_ok(s.subrange(lo, hi)),
{
    let t = s.subrange(lo, hi);
    assert forall|i: int| 0 <= i < t.len() implies #[trigger] chunk_ok(t[i]) by {
        assert(t[i] == s[lo + i]);
    }
    assert forall|i: int| 0 <= i < t.len() - 1 implies #[trigger] link_ok(t[i], t[i + 1]) by {
        let k = lo + i;
        assert(t[i] == s[k] && t[i + 1] == s[k + 1]);
        assert(link_ok(s[k], s[k + 1]));
    }
}

/// The chunks of a well formed list occupy no more bytes than the span from
/// the first address to the last end.
pub proof fn lemma_total_bound(s: Seq<ChunkView>)
    requires
        chunks_ok(s),
        s.len() > 0,
    ensures
        0 <= total(s) <= end_of(s.last()) - s[0].addr,
    decreases s.len(),
{
    let n = s.len() - 1;
    assert(chunk_ok(s[n]));
    assert(s.drop_last().len() == n);
    assert(total(s) == total(s.drop_last()) + s[n].size);
    if s.len() == 1 {
        assert(total(s.drop_last()) == 0);
    } else {
        let t = s.drop_last();
        lemma_sub_ok(s, 0, n);
        assert(t =~= s.subrange(0, n));
        lemma_total_bound(t);
        let k = n - 1;
        assert(link_ok(s[k], s[k + 1]));
        assert(chunk_ok(s[k]));
        assert(t[0] == s[0] && t.last() == s[k]);
    }
}

/// Removes the chunks `lo..hi` and hands them back.
pub(crate) fn take_range(v: &mut Vec<Chunk>, lo: usize, hi: usize) -> (r: Vec<Chunk>)
    requires
        lo <= hi <= old(v)@.len(),
    ensures
        r@.len() == hi - lo,
        final(v)@.len() == old(v)@.len() - (hi - lo),
        views(r@) == views(old(v)@).subrange(lo as int, hi as int),
        views(final(v)@) == views(old(v)@).subrange(0, lo as int) + views(old(v)@).subrange(
            hi as int,
            old(v)@.len() as int,
        ),
{
    let mut tail = v.split_off(hi);
    let taken = v.split_off(lo);
    v.append(&mut tail);
    assert(views(taken@) =~= views(old(v)@).subrange(lo as int, hi as int));
    assert(views(v@) =~= views(old(v)@).subrange(0, lo as int) + views(old(v)@).subrange(
        hi as int,
        old(v)@.len() as int,
    ));
    taken
}

/// Inserts the chunks of `mid` at position `lo`.
pub(crate) fn put_range(v: &mut Vec<Chunk>, lo: usize, mid: Vec<Chunk>)
    requires
        lo <= old(v)@.len(),
    ensures
        final(v)@.len() == old(v)@.len() + mid@.len(),
        views(final(v)@) == views(old(v)@).subrange(0, lo as int) + views(mid@) + views(
            old(v)@,
        ).subrange(lo as int, old(v)@.len() as int),
{
    let mut m = mid;
    let mut tail = v.split_off(lo);
    v.append(&mut m);
    v.append(&mut tail);
    assert(views(v@) =~= views(old(v)@).subrange(0, lo as int) + views(mid@) + views(
        old(v)@,
    ).subrange(lo as int, old(v)@.len() as int));
}

} // verus!

verus! {

/// The list with the chunks `lo..hi` replaced by `mid`.
pub open spec fn spliced(s: Seq<ChunkView>, lo: int, hi: int, mid: Seq<ChunkView>) -> Seq<
    ChunkView,
> {
    s.subrange(0, lo) + mid + s.subrange(hi, s.len() as int)
}

/// Replacing the chunks `lo..hi`, which lie in the address range `[l, h)`,
/// by chunks in the same range changes the live map only on the payload
/// addresses of that range, where it becomes the live map of the new chunks.
pub proof fn lemma_window(s: Seq<ChunkView>, lo: int, hi: int, mid: Seq<ChunkView>, l: int, h: int)
    requires
        0 <= lo <= hi <= s.len(),
        0 <= l <= h <= ADDRESS_LIMIT,
        forall|i: int| 0 <= i < lo ==> #[trigger] s[i].addr < l,
        forall|i: int| lo <= i < hi ==> l <= #[trigger] s[i].addr < h,
        forall|i: int| hi <= i < s.len() ==> h <= #[trigger] s[i].addr < ADDRESS_LIMIT,
        forall|j: int| 0 <= j < mid.len() ==> l <= #[trigger] mid[j].addr < h,
    ensures
        forall|k: usize|
            (k < l + CHUNK_OVERHEAD || k >= h + CHUNK_OVERHEAD) ==> (#[trigger] live(
                spliced(s, lo, hi, mid),
            ).contains_key(k) == live(s).contains_key(k) && (live(s).contains_key(k) ==> live(
                spliced(s, lo, hi, mid),
            )[k] == live(s)[k])),
        forall|k: usize|
            l + CHUNK_OVERHEAD <= k < h + CHUNK_OVERHEAD ==> (#[trigger] live(
                spliced(s, lo, hi, mid),
            ).contains_key(k) == live(mid).contains_key(k) && (live(mid).contains_key(k) ==> live(
                spliced(s, lo, hi, mid),
            )[k] == live(mid)[k])),
        forall|k: usize|
            l + CHUNK_OVERHEAD <= k < h + CHUNK_OVERHEAD ==> (#[trigger] live(s).contains_key(k)
                == live(s.subrange(lo, hi)).contains_key(k) && (live(
                s.subrange(lo, hi),
            ).contains_key(k) ==> live(s)[k] == live(s.subrange(lo, hi))[k])),
{
    let a = s.subrange(0, lo);
    let w = s.subrange(lo, hi);
    let b = s.subrange(hi, s.len() as int);
    let t = a + mid + b;
    lemma_live_split3(s, lo, hi);
    assert(t.subrange(0, lo) =~= a);
    assert(t.subrange(lo, lo + mid.len()) =~= mid);
    assert(t.subrange(lo + mid.len(), t.len() as int) =~= b);
    lemma_live_split3(t, lo, lo + mid.len());
    assert forall|i: int| 0 <= i < a.len() implies 0 <= #[trigger] a[i].addr < l by {
        assert(a[i] == s[i]);
    }
    assert forall|i: int| 0 <= i < w.len() implies l <= #[trigger] w[i].addr < h by {
        assert(w[i] == s[lo + i]);
    }
    assert forall|i: int| 0 <= i < b.len() implies h <= #[trigger] b[i].addr < ADDRESS_LIMIT by {
        assert(b[i] == s[hi + i]);
    }
    lemma_live_keys_within(a, 0, l);
    lemma_live_keys_within(w, l, h);
    lemma_live_keys_within(mid, l, h);
    lemma_live_keys_within(b, h, ADDRESS_LIMIT as int);
}

} // verus!

verus! {

/// A list without live chunks has an empty live map.
pub proof fn lemma_live_none(w: Seq<ChunkView>)
    requires
        forall|j: int| 0 <= j < w.len() ==> !is_live_kind(#[trigger] w[j].kind),
    ensures
        live(w) == Map::<usize, Seq<u8>>::empty(),
    decreases w.len(),
{
    if w.len() > 0 {
        let t = w.drop_last();
        assert forall|j: int| 0 <= j < t.len() implies !is_live_kind(#[trigger] t[j].kind) by {
            assert(t[j] == w[j]);
        }
        lemma_live_none(t);
        assert(!is_live_kind(w[w.len() - 1].kind));
    }
}

/// A list with exactly one live chunk has that chunk alone in its live map.
pub proof fn lemma_live_single(w: Seq<ChunkView>, k: int)
    requires
        0 <= k < w.len(),
        is_live_kind(w[k].kind),
        forall|j: int| 0 <= j < w.len() && j != k ==> !is_live_kind(#[trigger] w[j].kind),
    ensures
        live(w) == Map::<usize, Seq<u8>>::empty().insert(payload_addr(w[k].addr), payload(w[k])),
    decreases w.len(),
{
    let t = w.drop_last();
    if k == w.len() - 1 {
        assert forall|j: int| 0 <= j < t.len() implies !is_live_kind(#[trigger] t[j].kind) by {
            assert(t[j] == w[j]);
        }
        lemma_live_none(t);
    } else {
        assert forall|j: int| 0 <= j < t.len() && j != k implies !is_live_kind(
            #[trigger] t[j].kind,
        ) by {
            assert(t[j] == w[j]);
        }
        assert(t[k] == w[k]);
        lemma_live_single(t, k);
        assert(!is_live_kind(w[w.len() - 1].kind));
    }
}

} // verus!

verus! {

/// Neighbours `k` and `k + 1` of a well formed list are linked.
pub proof fn lemma_link(s: Seq<ChunkView>, k: int)
    requires
        chunks_ok(s),
        0 <= k < s.len() - 1,
    ensures
        link_ok(s[k], s[k + 1]),
        chunk_ok(s[k]),
        chunk_ok(s[k + 1]),
{
}

} // verus!

verus! {

/// Chunk `a` ends where chunk `b` begins.
pub open spec fn touches(a: ChunkView, b: ChunkView) -> bool {
    a.addr + a.size == b.addr
}

/// A run of chunks each of which ends where the next begins.
pub open spec fn contiguous(w: Seq<ChunkView>) -> bool {
    forall|k: int| 0 <= k < w.len() - 1 ==> #[trigger] touches(w[k], w[k + 1])
}

/// A contiguous run occupies exactly its span.
pub proof fn lemma_total_span(w: Seq<ChunkView>)
    requires
        chunks_ok(w),
        contiguous(w),
        w.len() > 0,
    ensures
        total(w) == end_of(w.last()) - w[0].addr,
    decreases w.len(),
{
    let n = w.len() - 1;
    assert(total(w) == total(w.drop_last()) + w[n].size);
    if n == 0 {
        assert(total(w.drop_last()) == 0);
    } else {
        let t = w.drop_last();
        lemma_sub_ok(w, 0, n);
        assert(t =~= w.subrange(0, n));
        assert forall|k: int| 0 <= k < t.len() - 1 implies #[trigger] touches(t[k], t[k + 1]) by {
            assert(t[k] == w[k] && t[k + 1] == w[k + 1]);
            assert(touches(w[k], w[k + 1]));
        }
        lemma_total_span(t);
        let k = n - 1;
        assert(touches(w[k], w[k + 1]));
        assert(t[0] == w[0] && t.last() == w[n - 1]);
    }
}

/// Chunks of a well formed list lie between the first address and the end
/// of the last chunk.
pub proof fn lemma_bounds(s: Seq<ChunkView>)
    requires
        chunks_ok(s),
        s.len() > 0,
    ensures
        forall|j: int| 0 <= j < s.len() ==> s[0].addr <= #[trigger] s[j].addr < end_of(s.last()),
{
    lemma_sorted(s);
    assert forall|j: int| 0 <= j < s.len() implies s[0].addr <= #[trigger] s[j].addr < end_of(
        s.last(),
    ) by {
        assert(chunk_ok(s[j]));
        assert(chunk_ok(s[0]));
        if j < s.len() - 1 {
            assert(end_of(s[j]) <= s[s.len() - 1].addr);
        }
        if j > 0 {
            assert(end_of(s[0]) <= s[j].addr);
        }
    }
}

/// Two maps that agree outside a key range, and inside it hold `mw` and
/// `mm` respectively, differ by exactly that exchange.
pub proof fn lemma_map_swap(
    ms: Map<usize, Seq<u8>>,
    mt: Map<usize, Seq<u8>>,
    mw: Map<usize, Seq<u8>>,
    mm: Map<usize, Seq<u8>>,
    l: int,
    h: int,
)
    requires
        forall|k: usize|
            (k < l || k >= h) ==> (#[trigger] mt.contains_key(k) == ms.contains_key(k) && (
            ms.contains_key(k) ==> mt[k] == ms[k])),
        forall|k: usize|
            l <= k < h ==> (#[trigger] mt.contains_key(k) == mm.contains_key(k) && (
            mm.contains_key(k) ==> mt[k] == mm[k])),
        forall|k: usize|
            l <= k < h ==> (#[trigger] ms.contains_key(k) == mw.contains_key(k) && (
            mw.contains_key(k) ==> ms[k] == mw[k])),
        forall|k: usize| #[trigger] mw.contains_key(k) ==> l <= k < h,
        forall|k: usize| #[trigger] mm.contains_key(k) ==> l <= k < h,
    ensures
        mt == ms.remove_keys(mw.dom()).union_prefer_right(mm),
        forall|k: usize| #[trigger]
            mm.contains_key(k) ==> (ms.contains_key(k) == mw.contains_key(k)),
{
    assert(mt =~= ms.remove_keys(mw.dom()).union_prefer_right(mm));
}

/// The live map after replacing the chunks `lo..hi`, which lie in `[l, h)`,
/// by chunks in the same range.
pub proof fn lemma_window_swap(
    s: Seq<ChunkView>,
    lo: int,
    hi: int,
    mid: Seq<ChunkView>,
    l: int,
    h: int,
)
    requires
        0 <= lo <= hi <= s.len(),
        0 <= l <= h <= ADDRESS_LIMIT,
        forall|i: int| 0 <= i < lo ==> #[trigger] s[i].addr < l,
        forall|i: int| lo <= i < hi ==> l <= #[trigger] s[i].addr < h,
        forall|i: int| hi <= i < s.len() ==> h <= #[trigger] s[i].addr < ADDRESS_LIMIT,
        forall|j: int| 0 <= j < mid.len() ==> l <= #[trigger] mid[j].addr < h,
    ensures
        live(spliced(s, lo, hi, mid)) == live(s).remove_keys(
            live(s.subrange(lo, hi)).dom(),
        ).union_prefer_right(live(mid)),
        forall|k: usize| #[trigger]
            live(mid).contains_key(k) ==> (live(s).contains_key(k) == live(
                s.subrange(lo, hi),
            ).contains_key(k)),
{
    let w = s.subrange(lo, hi);
    lemma_window(s, lo, hi, mid, l, h);
    assert forall|i: int| 0 <= i < w.len() implies l <= #[trigger] w[i].addr < h by {
        assert(w[i] == s[lo + i]);
    }
    lemma_live_keys_within(w, l, h);
    lemma_live_keys_within(mid, l, h);
    lemma_map_swap(
        live(s),
        live(spliced(s, lo, hi, mid)),
        live(w),
        live(mid),
        l + CHUNK_OVERHEAD,
        h + CHUNK_OVERHEAD,
    );
}

/// Replacing a contiguous run of a well formed heap by another contiguous run
/// with the same span keeps the heap well formed and its total, and changes
/// the live map only within that span.
pub proof fn lemma_commit(s: Seq<ChunkView>, lo: int, hi: int, m: Seq<ChunkView>)
    requires
        heap_ok(s),
        0 <= lo < hi <= s.len(),
        chunks_ok(m),
        m.len() > 0,
        contiguous(s.subrange(lo, hi)),
        contiguous(m),
        m[0].addr == s[lo].addr,
        end_of(m.last()) == end_of(s[hi - 1]),
        lo > 0 ==> link_ok(s[lo - 1], m[0]),
        hi < s.len() ==> link_ok(m.last(), s[hi]),
        hi == s.len() ==> m.last().kind == Kind::Fence,
    ensures
        heap_ok(s.subrange(0, lo) + m + s.subrange(hi, s.len() as int)),
        total(s.subrange(0, lo) + m + s.subrange(hi, s.len() as int)) == total(s),
        live(s.subrange(0, lo) + m + s.subrange(hi, s.len() as int)) == live(s).remove_keys(
            live(s.subrange(lo, hi)).dom(),
        ).union_prefer_right(live(m)),
        forall|k: usize| #[trigger]
            live(m).contains_key(k) ==> (live(s).contains_key(k) == live(
                s.subrange(lo, hi),
            ).contains_key(k)),
{
    let t = s.subrange(0, lo) + m + s.subrange(hi, s.len() as int);
    let w = s.subrange(lo, hi);
    let l = s[lo].addr as int;
    let h = end_of(s[hi - 1]);
    lemma_sorted(s);
    lemma_sub_ok(s, lo, hi);
    assert(w[0] == s[lo] && w.last() == s[hi - 1]);
    if lo > 0 && hi < s.len() {
        lemma_link(s, lo - 1);
    }
    lemma_splice(s, lo, hi, m);
    lemma_total_split3(s, lo, hi);
    assert(t.subrange(0, lo) =~= s.subrange(0, lo));
    assert(t.subrange(lo, lo + m.len()) =~= m);
    assert(t.subrange(lo + m.len(), t.len() as int) =~= s.subrange(hi, s.len() as int));
    lemma_total_split3(t, lo, lo + m.len());
    lemma_total_span(w);
    lemma_total_span(m);
    lemma_bounds(m);
    lemma_bounds(w);
    assert forall|j: int| 0 <= j < lo implies #[trigger] s[j].addr < l by {
        assert(chunk_ok(s[j]));
        assert(end_of(s[j]) <= s[lo].addr);
    }
    assert forall|j: int| lo <= j < hi implies l <= #[trigger] s[j].addr < h by {
        assert(s[j] == w[j - lo]);
    }
    assert forall|j: int| hi <= j < s.len() implies h <= #[trigger] s[j].addr < ADDRESS_LIMIT by {
        assert(chunk_ok(s[j]));
        assert(end_of(s[hi - 1]) <= s[j].addr);
    }
    assert(chunk_ok(s[hi - 1]));
    lemma_window_swap(s, lo, hi, m, l, h);
    assert(spliced(s, lo, hi, m) == t);
}

} // verus!

verus! {

/// Removing whole segments `lo..hi` (the run ends with a fencepost and is
/// preceded by one) keeps the heap well formed, lowers the total by what
/// they held, and takes their payloads out of the live map.
/// The list without the chunks `lo..hi`.
pub open spec fn cut(s: Seq<ChunkView>, lo: int, hi: int) -> Seq<ChunkView> {
    s.subrange(0, lo) + s.subrange(hi, s.len() as int)
}

/// Removing whole segments `lo..hi` (the run ends with a fencepost and is
/// preceded by one) keeps the heap well formed, lowers the total by what
/// they held, and takes their payloads out of the live map.
pub proof fn lemma_remove(s: Seq<ChunkView>, lo: int, hi: int)
    requires
        heap_ok(s),
        0 <= lo < hi <= s.len(),
        lo > 0 ==> s[lo - 1].kind == Kind::Fence,
        s[hi - 1].kind == Kind::Fence,
    ensures
        heap_ok(cut(s, lo, hi)),
        total(cut(s, lo, hi)) == total(s) - total(s.subrange(lo, hi)),
        live(cut(s, lo, hi)) == live(s).remove_keys(live(s.subrange(lo, hi)).dom()),
{
    let e = Seq::<ChunkView>::empty();
    let t = s.subrange(0, lo) + e + s.subrange(hi, s.len() as int);
    assert(t =~= cut(s, lo, hi));
    let w = s.subrange(lo, hi);
    let l = s[lo].addr as int;
    let h = end_of(s[hi - 1]);
    lemma_sorted(s);
    if lo > 0 && hi < s.len() {
        assert(chunk_ok(s[lo - 1]));
        assert(end_of(s[lo - 1]) <= s[lo].addr);
        assert(end_of(s[lo]) <= s[hi].addr || lo == hi - 1);
        assert(chunk_ok(s[lo]));
        assert(s[hi].kind == Kind::Mapped ==> s[lo - 1].kind == Kind::Fence);
        assert(end_of(s[lo - 1]) <= s[hi].addr);
    }
    assert(chunks_ok(e));
    lemma_splice(s, lo, hi, e);
    lemma_total_split3(s, lo, hi);
    assert(t.subrange(0, lo) =~= s.subrange(0, lo));
    assert(t.subrange(lo, lo) =~= e);
    assert(t.subrange(lo, t.len() as int) =~= s.subrange(hi, s.len() as int));
    lemma_total_split3(t, lo, lo);
    assert(total(e) == 0);
    assert forall|j: int| 0 <= j < lo implies #[trigger] s[j].addr < l by {
        assert(chunk_ok(s[j]));
        assert(end_of(s[j]) <= s[lo].addr);
    }
    assert forall|j: int| lo <= j < hi implies l <= #[trigger] s[j].addr < h by {
        assert(chunk_ok(s[j]));
        assert(chunk_ok(s[lo]));
        if j > lo {
            assert(end_of(s[lo]) <= s[j].addr);
        }
        if j < hi - 1 {
            assert(end_of(s[j]) <= s[hi - 1].addr);
        }
    }
    assert forall|j: int| hi <= j < s.len() implies h <= #[trigger] s[j].addr < ADDRESS_LIMIT by {
        assert(chunk_ok(s[j]));
        assert(end_of(s[hi - 1]) <= s[j].addr);
    }
    assert(chunk_ok(s[hi - 1]));
    lemma_live_none(e);
    lemma_window(s, lo, hi, e, l, h);
    assert(spliced(s, lo, hi, e) == t);
    assert(live(e) == Map::<usize, Seq<u8>>::empty());
    lemma_live_keys_within(w, l, h);
    lemma_map_swap(live(s), live(t), live(w), live(e), l + CHUNK_OVERHEAD, h + CHUNK_OVERHEAD);
    assert(live(s).remove_keys(live(w).dom()).union_prefer_right(live(e)) =~= live(s).remove_keys(
        live(w).dom(),
    ));
}

} // verus!

verus! {

/// A total is never negative.
pub proof fn lemma_total_nonneg(s: Seq<ChunkView>)
    ensures
        total(s) >= 0,
    decreases s.len(),
{
    if s.len() > 0 {
        lemma_total_nonneg(s.drop_last());
    }
}

} // verus!

verus! {

/// The difference of two multiples of the granularity is one too.
pub proof fn lemma_mod_diff(x: int, y: int)
    requires
        x % (MALLOC_ALIGNMENT as int) == 0,
        y % (MALLOC_ALIGNMENT as int) == 0,
    ensures
        (x - y) % (MALLOC_ALIGNMENT as int) == 0,
        (x + y) % (MALLOC_ALIGNMENT as int) == 0,
{
    assert((x - y) % 16 == 0 && (x + y) % 16 == 0) by (nonlinear_arith)
        requires
            x % 16 == 0,
            y % 16 == 0,
    ;
}

/// A multiple of `u` is a multiple of `u`, and of the granularity when `u` is.
pub proof fn lemma_mod_mul(q: int, u: int)
    requires
        u > 0,
        u % (MALLOC_ALIGNMENT as int) == 0,
        q >= 0,
    ensures
        (q * u) % (MALLOC_ALIGNMENT as int) == 0,
{
    assert((q * u) % 16 == 0) by (nonlinear_arith)
        requires
            u % 16 == 0,
            u > 0,
            q >= 0,
    {
        let r = u / 16;
        assert(u == 16 * r);
        assert(q * u == 16 * (q * r));
    }
}

/// Taking out `lo..hi` and putting `m` in at `lo` splices `m` in.
pub proof fn lemma_take_put(
    s: Seq<ChunkView>,
    lo: int,
    hi: int,
    rest: Seq<ChunkView>,
    m: Seq<ChunkView>,
    r: Seq<ChunkView>,
)
    requires
        0 <= lo <= hi <= s.len(),
        rest == s.subrange(0, lo) + s.subrange(hi, s.len() as int),
        r == rest.subrange(0, lo) + m + rest.subrange(lo, rest.len() as int),
    ensures
        r == spliced(s, lo, hi, m),
{
    assert(rest.subrange(0, lo) =~= s.subrange(0, lo));
    assert(rest.subrange(lo, rest.len() as int) =~= s.subrange(hi, s.len() as int));
}

/// Freeing the in-use chunk `i` and merging the run `lo..hi` around it into
/// one free chunk takes its payload out of the live map and keeps the heap
/// and its total.
pub proof fn lemma_merge_free(s: Seq<ChunkView>, lo: int, hi: int, i: int, c: ChunkView)
    requires
        heap_ok(s),
        0 <= lo <= i < hi <= s.len(),
        hi - lo <= 3,
        s[i].kind == Kind::InUse,
        forall|j: int| lo <= j < hi && j != i ==> (#[trigger] s[j]).kind == Kind::Free,
        lo > 0 ==> s[lo - 1].kind != Kind::Free,
        hi < s.len() ==> s[hi].kind != Kind::Free,
        c.addr == s[lo].addr,
        c.size == end_of(s[hi - 1]) - s[lo].addr,
        c.kind == Kind::Free,
        c.data.len() == c.size,
    ensures
        heap_ok(spliced(s, lo, hi, seq![c])),
        total(spliced(s, lo, hi, seq![c])) == total(s),
        live(spliced(s, lo, hi, seq![c])) == live(s).remove(payload_addr(s[i].addr)),
{
    let m = seq![c];
    let ws = s.subrange(lo, hi);
    lemma_sorted(s);
    assert(chunk_ok(s[lo]) && chunk_ok(s[hi - 1]));
    assert forall|k: int| 0 <= k < ws.len() - 1 implies #[trigger] touches(ws[k], ws[k + 1]) by {
        assert(ws[k] == s[lo + k] && ws[k + 1] == s[lo + k + 1]);
        lemma_link(s, lo + k);
    }
    if hi - 1 > lo {
        lemma_link(s, hi - 2);
    }
    if hi < s.len() {
        lemma_link(s, hi - 1);
    }
    if lo > 0 {
        lemma_link(s, lo - 1);
    }
    assert(chunk_ok(s[i]));
    if i < hi - 1 {
        assert(end_of(s[i]) <= s[hi - 1].addr);
    }
    if lo < i {
        assert(end_of(s[lo]) <= s[i].addr);
    }
    lemma_mod_diff(end_of(s[hi - 1]), s[lo].addr as int);
    assert(chunk_ok(c));
    assert(chunks_ok(m));
    lemma_commit(s, lo, hi, m);
    lemma_live_none(m);
    assert forall|j: int| 0 <= j < ws.len() && j != i - lo implies !is_live_kind(
        #[trigger] ws[j].kind,
    ) by {
        assert(ws[j] == s[lo + j]);
    }
    assert(ws[i - lo] == s[i]);
    lemma_live_single(ws, i - lo);
    assert(live(spliced(s, lo, hi, m)) =~= live(s).remove(payload_addr(s[i].addr)));
}

} // verus!

verus! {

/// A free chunk held in a bin: one that is not its segment's top.
pub open spec fn in_bin(s: Seq<ChunkView>, k: int) -> bool {
    &&& 0 <= k < s.len() - 1
    &&& s[k].kind == Kind::Free
    &&& s[k + 1].kind != Kind::Fence
}

/// A segment's top: the free chunk just before its fencepost.
pub open spec fn is_top(s: Seq<ChunkView>, k: int) -> bool {
    &&& 0 <= k < s.len() - 1
    &&& s[k].kind == Kind::Free
    &&& s[k + 1].kind == Kind::Fence
}

/// Carving an in-use chunk of `nb` bytes from the front of free chunk `i`
/// (with the rest left free, when it is large enough to stand alone) adds
/// its payload to the live map and keeps the heap and its total.
pub proof fn lemma_carve(s: Seq<ChunkView>, i: int, m: Seq<ChunkView>)
    requires
        heap_ok(s),
        0 <= i < s.len(),
        s[i].kind == Kind::Free,
        1 <= m.len() <= 2,
        m[0].addr == s[i].addr,
        m[0].kind == Kind::InUse,
        m[0].size >= MIN_CHUNK_SIZE,
        m[0].size % MALLOC_ALIGNMENT == 0,
        m[0].data.len() == m[0].size,
        m.len() == 1 ==> m[0].size == s[i].size,
        m.len() == 2 ==> m[1].kind == Kind::Free && m[1].addr == s[i].addr + m[0].size
            && m[1].size == s[i].size - m[0].size && m[1].size >= MIN_CHUNK_SIZE
            && m[1].data.len() == m[1].size,
    ensures
        heap_ok(spliced(s, i, i + 1, m)),
        total(spliced(s, i, i + 1, m)) == total(s),
        !live(s).contains_key(payload_addr(s[i].addr)),
        live(spliced(s, i, i + 1, m)) == live(s).insert(payload_addr(s[i].addr), payload(m[0])),
{
    let w = s.subrange(i, i + 1);
    assert(w[0] == s[i]);
    assert(chunk_ok(s[i]));
    assert(i + 1 < s.len());
    lemma_link(s, i);
    if i > 0 {
        lemma_link(s, i - 1);
    }
    if m.len() == 2 {
        lemma_mod_diff(s[i].size as int, m[0].size as int);
        lemma_mod_diff(s[i].addr as int, m[0].size as int);
        assert(chunk_ok(m[1]));
    }
    assert(chunk_ok(m[0]));
    assert(chunks_ok(m));
    lemma_commit(s, i, i + 1, m);
    lemma_live_none(w);
    lemma_live_single(m, 0);
    assert(live(m).contains_key(payload_addr(s[i].addr)));
    assert(live(spliced(s, i, i + 1, m)) =~= live(s).insert(payload_addr(s[i].addr), payload(m[0])));
}

} // verus!

verus! {

/// Placing a new segment (a free or mapped chunk and its fencepost) in a gap
/// of the address space keeps the heap well formed, adds the segment's size
/// to the total, and adds the new chunk's payload if it is mapped.
pub proof fn lemma_insert_segment(s: Seq<ChunkView>, j: int, m: Seq<ChunkView>)
    requires
        heap_ok(s),
        0 <= j <= s.len(),
        m.len() == 2,
        m[0].kind == Kind::Free || m[0].kind == Kind::Mapped,
        m[1].kind == Kind::Fence,
        m[0].addr % MALLOC_ALIGNMENT == 0,
        m[0].size % MALLOC_ALIGNMENT == 0,
        m[0].size >= MIN_CHUNK_SIZE,
        m[0].data.len() == m[0].size,
        m[1].addr == m[0].addr + m[0].size,
        m[1].size == FENCEPOST_SIZE,
        m[1].data.len() == FENCEPOST_SIZE,
        end_of(m[1]) <= ADDRESS_LIMIT,
        j > 0 ==> s[j - 1].kind == Kind::Fence && end_of(s[j - 1]) <= m[0].addr,
        j < s.len() ==> end_of(m[1]) <= s[j].addr,
    ensures
        heap_ok(spliced(s, j, j, m)),
        total(spliced(s, j, j, m)) == total(s) + m[0].size + FENCEPOST_SIZE,
        live(spliced(s, j, j, m)) == live(s).union_prefer_right(live(m)),
        forall|k: usize| #[trigger] live(m).contains_key(k) ==> !live(s).contains_key(k),
{
    let t = spliced(s, j, j, m);
    let e = s.subrange(j, j);
    assert(e =~= Seq::<ChunkView>::empty());
    lemma_live_none(e);
    lemma_mod_diff(m[0].addr as int, m[0].size as int);
    assert(chunk_ok(m[0]) && chunk_ok(m[1]));
    assert(link_ok(m[0], m[1]));
    assert(chunks_ok(m));
    lemma_splice(s, j, j, m);
    lemma_sorted(s);
    lemma_total_split3(s, j, j);
    assert(total(e) == 0);
    assert(t.subrange(0, j) =~= s.subrange(0, j));
    assert(t.subrange(j, j + 2) =~= m);
    assert(t.subrange(j + 2, t.len() as int) =~= s.subrange(j, s.len() as int));
    lemma_total_split3(t, j, j + 2);
    assert(touches(m[0], m[1]));
    lemma_total_span(m);
    assert forall|i: int| 0 <= i < j implies #[trigger] s[i].addr < m[0].addr by {
        assert(chunk_ok(s[i]));
        if i < j - 1 {
            assert(end_of(s[i]) <= s[j - 1].addr);
        }
    }
    assert forall|i: int| j <= i < j implies m[0].addr <= #[trigger] s[i].addr < end_of(m[1]) by {
    }
    assert forall|i: int| j <= i < s.len() implies end_of(m[1]) <= #[trigger] s[i].addr
        < ADDRESS_LIMIT by {
        assert(chunk_ok(s[i]));
        if i > j {
            assert(end_of(s[j]) <= s[i].addr);
            assert(chunk_ok(s[j]));
        }
    }
    assert forall|q: int| 0 <= q < m.len() implies m[0].addr <= #[trigger] m[q].addr < end_of(
        m[1],
    ) by {
    }
    lemma_window_swap(s, j, j, m, m[0].addr as int, end_of(m[1]));
    assert(live(s).remove_keys(live(e).dom()) =~= live(s));
}

/// Merging a run of chunks that holds no payload (free chunks and a
/// fencepost between two contiguous segments) into one free chunk keeps the
/// heap well formed, its total, and its live map.
pub proof fn lemma_absorb(s: Seq<ChunkView>, lo: int, hi: int, c: ChunkView)
    requires
        heap_ok(s),
        0 <= lo < hi < s.len(),
        hi - lo <= 3,
        forall|j: int| lo <= j < hi ==> !is_live_kind(#[trigger] s[j].kind),
        contiguous(s.subrange(lo, hi)),
        lo > 0 ==> s[lo - 1].kind != Kind::Free && s[lo - 1].kind != Kind::Mapped,
        s[hi - 1].kind != Kind::Fence,
        s[hi].kind != Kind::Free && s[hi].kind != Kind::Mapped,
        c.addr == s[lo].addr,
        c.size == end_of(s[hi - 1]) - s[lo].addr,
        c.size >= MIN_CHUNK_SIZE,
        c.kind == Kind::Free,
        c.data.len() == c.size,
    ensures
        heap_ok(spliced(s, lo, hi, seq![c])),
        total(spliced(s, lo, hi, seq![c])) == total(s),
        live(spliced(s, lo, hi, seq![c])) == live(s),
{
    let m = seq![c];
    let ws = s.subrange(lo, hi);
    assert(chunk_ok(s[lo]) && chunk_ok(s[hi - 1]));
    lemma_link(s, hi - 1);
    if lo > 0 {
        lemma_link(s, lo - 1);
    }
    lemma_mod_diff(end_of(s[hi - 1]), s[lo].addr as int);
    assert(chunk_ok(c));
    assert(chunks_ok(m));
    assert(ws[0] == s[lo] && ws[ws.len() - 1] == s[hi - 1]);
    lemma_commit(s, lo, hi, m);
    lemma_live_none(m);
    assert forall|j: int| 0 <= j < ws.len() implies !is_live_kind(#[trigger] ws[j].kind) by {
        assert(ws[j] == s[lo + j]);
    }
    lemma_live_none(ws);
    assert(live(s).remove_keys(live(ws).dom()).union_prefer_right(live(m)) =~= live(s));
}

} // verus!

verus! {

/// Splitting in-use chunk `i` into two in-use chunks adds the second's
/// payload to the live map, and gives the first the prefix of the bytes.
pub proof fn lemma_split_inuse(s: Seq<ChunkView>, i: int, m: Seq<ChunkView>)
    requires
        heap_ok(s),
        0 <= i < s.len(),
        s[i].kind == Kind::InUse,
        m.len() == 2,
        m[0].kind == Kind::InUse,
        m[1].kind == Kind::InUse,
        m[0].addr == s[i].addr,
        m[0].size >= MIN_CHUNK_SIZE,
        m[0].size % MALLOC_ALIGNMENT == 0,
        m[0].data.len() == m[0].size,
        m[1].addr == m[0].addr + m[0].size,
        m[1].size == s[i].size - m[0].size,
        m[1].size >= MIN_CHUNK_SIZE,
        m[1].data.len() == m[1].size,
    ensures
        heap_ok(spliced(s, i, i + 1, m)),
        total(spliced(s, i, i + 1, m)) == total(s),
        !live(s).contains_key(payload_addr(m[1].addr)),
        payload_addr(m[1].addr) != payload_addr(m[0].addr),
        live(spliced(s, i, i + 1, m)) == live(s).insert(payload_addr(m[0].addr), payload(m[0])).insert(
            payload_addr(m[1].addr),
            payload(m[1]),
        ),
{
    let w = s.subrange(i, i + 1);
    assert(w[0] == s[i]);
    assert(chunk_ok(s[i]));
    assert(i + 1 < s.len());
    lemma_link(s, i);
    if i > 0 {
        lemma_link(s, i - 1);
    }
    lemma_mod_diff(s[i].size as int, m[0].size as int);
    lemma_mod_diff(s[i].addr as int, m[0].size as int);
    assert(chunk_ok(m[0]) && chunk_ok(m[1]));
    assert(link_ok(m[0], m[1]));
    assert(chunks_ok(m));
    assert(touches(m[0], m[1]));
    lemma_commit(s, i, i + 1, m);
    lemma_live_single(w, 0);
    let m0 = seq![m[0]];
    assert(m.drop_last() =~= m0);
    lemma_live_single(m0, 0);
    assert(live(m) == live(m0).insert(payload_addr(m[1].addr), payload(m[1])));
    assert(live(m).contains_key(payload_addr(m[1].addr)));
    assert(live(spliced(s, i, i + 1, m)) =~= live(s).insert(payload_addr(m[0].addr), payload(m[0])).insert(
        payload_addr(m[1].addr),
        payload(m[1]),
    ));
}

/// Extending in-use chunk `i` over the free chunk after it keeps its
/// payload address and gives it the bytes of both.
pub proof fn lemma_extend(s: Seq<ChunkView>, i: int, c: ChunkView)
    requires
        heap_ok(s),
        0 <= i < s.len() - 1,
        s[i].kind == Kind::InUse,
        s[i + 1].kind == Kind::Free,
        c.kind == Kind::InUse,
        c.addr == s[i].addr,
        c.size == s[i].size + s[i + 1].size,
        c.data == s[i].data + s[i + 1].data,
    ensures
        heap_ok(spliced(s, i, i + 2, seq![c])),
        total(spliced(s, i, i + 2, seq![c])) == total(s),
        live(spliced(s, i, i + 2, seq![c])) == live(s).insert(payload_addr(s[i].addr), payload(c)),
{
    let m = seq![c];
    let w = s.subrange(i, i + 2);
    assert(w[0] == s[i] && w[1] == s[i + 1]);
    lemma_link(s, i);
    assert(i + 2 < s.len());
    lemma_link(s, i + 1);
    if i > 0 {
        lemma_link(s, i - 1);
    }
    lemma_mod_diff(s[i].size as int, s[i + 1].size as int);
    assert(chunk_ok(c));
    assert(chunks_ok(m));
    assert(touches(w[0], w[1]));
    lemma_commit(s, i, i + 2, m);
    lemma_live_single(w, 0);
    lemma_live_single(m, 0);
    assert(live(spliced(s, i, i + 2, m)) =~= live(s).insert(payload_addr(s[i].addr), payload(c)));
}

} // verus!

verus! {

/// Giving the live chunk `i` new bytes replaces its payload in the live map.
pub proof fn lemma_rewrite(s: Seq<ChunkView>, i: int, c: ChunkView)
    requires
        heap_ok(s),
        0 <= i < s.len(),
        is_live_kind(s[i].kind),
        c.addr == s[i].addr,
        c.size == s[i].size,
        c.kind == s[i].kind,
        c.data.len() == c.size,
    ensures
        heap_ok(spliced(s, i, i + 1, seq![c])),
        total(spliced(s, i, i + 1, seq![c])) == total(s),
        live(spliced(s, i, i + 1, seq![c])) == live(s).insert(payload_addr(s[i].addr), payload(c)),
{
    let m = seq![c];
    let w = s.subrange(i, i + 1);
    assert(w[0] == s[i]);
    assert(chunk_ok(s[i]));
    assert(i + 1 < s.len());
    lemma_link(s, i);
    if i > 0 {
        lemma_link(s, i - 1);
    }
    assert(chunk_ok(c));
    assert(chunks_ok(m));
    lemma_commit(s, i, i + 1, m);
    lemma_live_single(w, 0);
    lemma_live_single(m, 0);
    assert(live(spliced(s, i, i + 1, m)) =~= live(s).insert(payload_addr(s[i].addr), payload(c)));
}

} // verus!

verus! {

/// Cutting the tail off a segment whose top is chunk `i` (the top shrinks
/// and the fencepost moves down) keeps the heap well formed and its live
/// map, and lowers the total by what was cut.
pub proof fn lemma_shrink_top(s: Seq<ChunkView>, i: int, m: Seq<ChunkView>)
    requires
        heap_ok(s),
        0 <= i < s.len() - 1,
        s[i].kind == Kind::Free,
        s[i + 1].kind == Kind::Fence,
        m.len() == 2,
        m[0].kind == Kind::Free,
        m[0].addr == s[i].addr,
        m[0].size <= s[i].size,
        m[0].size >= MIN_CHUNK_SIZE,
        m[0].size % MALLOC_ALIGNMENT == 0,
        m[0].data.len() == m[0].size,
        m[1].kind == Kind::Fence,
        m[1].addr == m[0].addr + m[0].size,
        m[1].size == FENCEPOST_SIZE,
        m[1].data.len() == FENCEPOST_SIZE,
    ensures
        heap_ok(spliced(s, i, i + 2, m)),
        total(spliced(s, i, i + 2, m)) == total(s) - (s[i].size - m[0].size),
        live(spliced(s, i, i + 2, m)) == live(s),
{
    let w = s.subrange(i, i + 2);
    let t = spliced(s, i, i + 2, m);
    assert(w[0] == s[i] && w[1] == s[i + 1]);
    lemma_link(s, i);
    if i > 0 {
        lemma_link(s, i - 1);
    }
    if i + 2 < s.len() {
        lemma_link(s, i + 1);
    }
    lemma_mod_diff(m[0].addr as int, m[0].size as int);
    assert(chunk_ok(m[0]) && chunk_ok(m[1]));
    assert(link_ok(m[0], m[1]));
    assert(chunks_ok(m));
    lemma_splice(s, i, i + 2, m);
    lemma_sub_ok(s, i, i + 2);
    assert(touches(w[0], w[1]) && touches(m[0], m[1]));
    lemma_total_span(w);
    lemma_total_span(m);
    lemma_total_split3(s, i, i + 2);
    assert(t.subrange(0, i) =~= s.subrange(0, i));
    assert(t.subrange(i, i + 2) =~= m);
    assert(t.subrange(i + 2, t.len() as int) =~= s.subrange(i + 2, s.len() as int));
    lemma_total_split3(t, i, i + 2);
    lemma_sorted(s);
    let l = s[i].addr as int;
    let h = end_of(s[i + 1]);
    assert forall|j: int| 0 <= j < i implies #[trigger] s[j].addr < l by {
        assert(chunk_ok(s[j]));
        assert(end_of(s[j]) <= s[i].addr);
    }
    assert forall|j: int| i <= j < i + 2 implies l <= #[trigger] s[j].addr < h by {}
    assert forall|j: int| i + 2 <= j < s.len() implies h <= #[trigger] s[j].addr < ADDRESS_LIMIT by {
        assert(chunk_ok(s[j]));
        assert(end_of(s[i + 1]) <= s[j].addr);
    }
    assert forall|q: int| 0 <= q < m.len() implies l <= #[trigger] m[q].addr < h by {}
    assert(chunk_ok(s[i + 1]));
    lemma_window_swap(s, i, i + 2, m, l, h);
    assert forall|j: int| 0 <= j < w.len() implies !is_live_kind(#[trigger] w[j].kind) by {}
    assert forall|j: int| 0 <= j < m.len() implies !is_live_kind(#[trigger] m[j].kind) by {}
    lemma_live_none(w);
    lemma_live_none(m);
    assert(live(s).remove_keys(live(w).dom()).union_prefer_right(live(m)) =~= live(s));
}

} // verus!

verus! {

/// Growing the directly mapped chunk `i` in place (its fencepost moves up
/// into free address space) keeps the heap well formed, raises the total by
/// the growth, and gives the payload its new bytes.
pub proof fn lemma_grow_mapped(s: Seq<ChunkView>, i: int, m: Seq<ChunkView>)
    requires
        heap_ok(s),
        0 <= i < s.len() - 1,
        s[i].kind == Kind::Mapped,
        m.len() == 2,
        m[0].kind == Kind::Mapped,
        m[0].addr == s[i].addr,
        m[0].size >= s[i].size,
        m[0].size % MALLOC_ALIGNMENT == 0,
        m[0].data.len() == m[0].size,
        m[1].kind == Kind::Fence,
        m[1].addr == m[0].addr + m[0].size,
        m[1].size == FENCEPOST_SIZE,
        m[1].data.len() == FENCEPOST_SIZE,
        end_of(m[1]) <= ADDRESS_LIMIT,
        i + 2 < s.len() ==> end_of(m[1]) <= s[i + 2].addr,
    ensures
        heap_ok(spliced(s, i, i + 2, m)),
        total(spliced(s, i, i + 2, m)) == total(s) + (m[0].size - s[i].size),
        live(spliced(s, i, i + 2, m)) == live(s).insert(payload_addr(s[i].addr), payload(m[0])),
{
    let w = s.subrange(i, i + 2);
    let t = spliced(s, i, i + 2, m);
    assert(w[0] == s[i] && w[1] == s[i + 1]);
    lemma_link(s, i);
    if i > 0 {
        lemma_link(s, i - 1);
    }
    lemma_mod_diff(m[0].addr as int, m[0].size as int);
    assert(chunk_ok(m[0]) && chunk_ok(m[1]));
    assert(link_ok(m[0], m[1]));
    assert(chunks_ok(m));
    if i + 2 < s.len() {
        lemma_link(s, i + 1);
    }
    lemma_splice(s, i, i + 2, m);
    lemma_sub_ok(s, i, i + 2);
    assert(touches(w[0], w[1]) && touches(m[0], m[1]));
    lemma_total_span(w);
    lemma_total_span(m);
    lemma_total_split3(s, i, i + 2);
    assert(t.subrange(0, i) =~= s.subrange(0, i));
    assert(t.subrange(i, i + 2) =~= m);
    assert(t.subrange(i + 2, t.len() as int) =~= s.subrange(i + 2, s.len() as int));
    lemma_total_split3(t, i, i + 2);
    lemma_sorted(s);
    let l = s[i].addr as int;
    let h = end_of(m[1]);
    assert forall|j: int| 0 <= j < i implies #[trigger] s[j].addr < l by {
        assert(chunk_ok(s[j]));
        assert(end_of(s[j]) <= s[i].addr);
    }
    assert forall|j: int| i <= j < i + 2 implies l <= #[trigger] s[j].addr < h by {}
    assert forall|j: int| i + 2 <= j < s.len() implies h <= #[trigger] s[j].addr < ADDRESS_LIMIT by {
        assert(chunk_ok(s[j]));
        if j > i + 2 {
            assert(end_of(s[i + 2]) <= s[j].addr);
            assert(chunk_ok(s[i + 2]));
        }
    }
    assert forall|q: int| 0 <= q < m.len() implies l <= #[trigger] m[q].addr < h by {}
    lemma_window_swap(s, i, i + 2, m, l, h);
    lemma_live_single(w, 0);
    lemma_live_single(m, 0);
    assert(live(t) =~= live(s).insert(payload_addr(s[i].addr), payload(m[0])));
}

} // verus!

verus! {

/// In a well formed list no two chunks share a payload address.
pub proof fn lemma_payload_unique(s: Seq<ChunkView>, i: int, k: int)
    requires
        chunks_ok(s),
        0 <= i < s.len(),
        0 <= k < s.len(),
        payload_addr(s[i].addr) == payload_addr(s[k].addr),
    ensures
        i == k,
{
    lemma_sorted(s);
    assert(chunk_ok(s[i]) && chunk_ok(s[k]));
    if i < k {
        assert(end_of(s[i]) <= s[k].addr);
    } else if k < i {
        assert(end_of(s[k]) <= s[i].addr);
    }
}

} // verus!
