//! First-fit sub-allocation of one large device buffer ("megabuffer").
//!
//! A [`Megabuffer`] keeps the list of unused byte ranges of a fixed-size
//! device buffer, sorted by offset, and hands out leases on byte ranges as
//! [`AllocatedMegabufferRegion`]s. Data reaches the device in two phases:
//! `write` names where the bytes go in the host-visible staging buffer and
//! records the range, and `upload` lists the staging-to-device copies that
//! one synchronous transfer submission must perform.

use vstd::prelude::*;
use vstd::arithmetic::div_mod::lemma_fundamental_div_mod;
use vstd::arithmetic::div_mod::lemma_mod_multiples_basic;

verus! {

/// A contiguous unused byte range `[offset, offset + size)`.
#[derive(Clone, Copy, Debug, PartialEq, Eq, Structural)]
pub struct FreeMegabufferRegion {
    pub offset: u64,
    pub size: u64,
}

impl FreeMegabufferRegion {
    pub open spec fn end(self) -> int {
        self.offset + self.size
    }

    pub open spec fn contains(self, b: int) -> bool {
        self.offset <= b < self.end()
    }
}

/// One copy command from the staging buffer to the device buffer.
#[derive(Clone, Copy, Debug, PartialEq, Eq, Structural)]
pub struct BufferCopy {
    pub src_offset: u64,
    pub dst_offset: u64,
    pub size: u64,
}

#[derive(Clone, Copy, Debug, PartialEq, Eq, Structural)]
pub enum MegabufferError {
    /// No free region is large enough for the request.
    OutOfSpace,
    /// The data is larger than the region it is written to.
    RegionTooSmall,
    /// The region was already released.
    DoubleFree,
    /// The region is not a live lease of this megabuffer.
    ForeignRegion,
    /// The alignment is zero.
    InvalidAlignment,
    /// The registry has handed out every identifier.
    IdsExhausted,
    /// A sub-region larger than its parent was requested.
    SubregionTooLarge,
    /// A sub-region of size zero was requested.
    ZeroSizedSubregion,
    /// A sub-region as large as its whole parent was requested.
    WholeRegion,
    /// The two regions do not touch.
    NotAdjacent,
}

/// `size` rounded up to the next multiple of `alignment`.
pub open spec fn round_up(size: int, alignment: int) -> int {
    if size % alignment == 0 {
        size
    } else {
        size + (alignment - size % alignment)
    }
}

/// Byte `b` lies in one of the regions of `fl`.
pub open spec fn in_free_list(fl: Seq<FreeMegabufferRegion>, b: int) -> bool {
    exists|i: int| 0 <= i < fl.len() && #[trigger] fl[i].contains(b)
}

/// The regions are ordered by offset and do not overlap.
pub open spec fn sorted_disjoint(fl: Seq<FreeMegabufferRegion>) -> bool {
    forall|i: int, j: int|
        #![trigger fl[i], fl[j]]
        0 <= i < j < fl.len() ==> fl[i].end() <= fl[j].offset
}

/// A well-formed free list of a buffer of `capacity` bytes whose leases
/// start at multiples of `alignment`.
pub open spec fn free_list_wf(fl: Seq<FreeMegabufferRegion>, capacity: int, alignment: int) -> bool {
    &&& sorted_disjoint(fl)
    &&& forall|i: int|
        #![trigger fl[i]]
        0 <= i < fl.len() ==> {
            &&& fl[i].size > 0
            &&& fl[i].end() <= capacity
            &&& (fl[i].offset as int) % alignment == 0
        }
}

/// `k` is the first region of `fl` that holds at least `size` bytes.
pub open spec fn first_fit(fl: Seq<FreeMegabufferRegion>, k: int, size: int) -> bool {
    &&& 0 <= k < fl.len()
    &&& fl[k].size >= size
    &&& forall|j: int| 0 <= j < k ==> #[trigger] fl[j].size < size
}

/// The free list after the first `size` bytes of region `k` are leased.
pub open spec fn take_front(fl: Seq<FreeMegabufferRegion>, k: int, size: int) -> Seq<FreeMegabufferRegion> {
    if fl[k].size == size {
        fl.remove(k)
    } else {
        fl.update(k, FreeMegabufferRegion { offset: (fl[k].offset + size) as u64, size: (fl[k].size - size) as u64 })
    }
}

proof fn lemma_round_up(size: int, alignment: int)
    requires
        size >= 0,
        alignment > 0,
    ensures
        round_up(size, alignment) % alignment == 0,
        size <= round_up(size, alignment) < size + alignment,
{
    if size % alignment != 0 {
        let r = size % alignment;
        lemma_fundamental_div_mod(size, alignment);
        let q = size / alignment;
        assert(round_up(size, alignment) == (q + 1) * alignment) by (nonlinear_arith)
            requires
                size == alignment * q + r,
                round_up(size, alignment) == size + (alignment - r),
        ;
        lemma_mod_multiples_basic(q + 1, alignment);
    }
}

proof fn lemma_sum_aligned(x: int, y: int, alignment: int)
    requires
        alignment > 0,
        x % alignment == 0,
        y % alignment == 0,
    ensures
        (x + y) % alignment == 0,
{
    lemma_fundamental_div_mod(x, alignment);
    lemma_fundamental_div_mod(y, alignment);
    let q = x / alignment + y / alignment;
    assert(x + y == q * alignment) by (nonlinear_arith)
        requires
            x == alignment * (x / alignment) + x % alignment,
            y == alignment * (y / alignment) + y % alignment,
            x % alignment == 0,
            y % alignment == 0,
            q == x / alignment + y / alignment,
    ;
    lemma_mod_multiples_basic(q, alignment);
}

/// Leasing the front of the first fitting region keeps the free list
/// well formed and removes exactly the leased bytes from it.
proof fn lemma_take_front(fl: Seq<FreeMegabufferRegion>, k: int, size: int, capacity: int, alignment: int)
    requires
        free_list_wf(fl, capacity, alignment),
        0 <= k < fl.len(),
        fl[k].size >= size,
        size >= 0,
        size % alignment == 0,
        alignment > 0,
        capacity <= u64::MAX,
    ensures
        free_list_wf(take_front(fl, k, size), capacity, alignment),
        forall|b: int| #[trigger] in_free_list(take_front(fl, k, size), b)
            <==> (in_free_list(fl, b) && !(fl[k].offset <= b < fl[k].offset + size)),
        forall|b: int| fl[k].offset <= b < fl[k].offset + size ==> #[trigger] in_free_list(fl, b),
{
    let nl = take_front(fl, k, size);
    let found = fl[k];
    assert(fl[k].size > 0);
    lemma_sum_aligned(found.offset as int, size, alignment);
    assert(found.end() <= capacity);
    if found.size != size {
        assert(nl[k].offset == found.offset + size);
        assert(nl[k].end() == found.end());
    }
    assert forall|i: int, j: int| #![trigger nl[i], nl[j]] 0 <= i < j < nl.len()
        implies nl[i].end() <= nl[j].offset by {
        if found.size == size {
            let oi = if i < k { i } else { i + 1 };
            let oj = if j < k { j } else { j + 1 };
            assert(fl[oi].end() <= fl[oj].offset);
        } else {
            assert(fl[i].end() <= fl[j].offset);
        }
    }
    assert forall|i: int| #![trigger nl[i]] 0 <= i < nl.len() implies {
        &&& nl[i].size > 0
        &&& nl[i].end() <= capacity
        &&& (nl[i].offset as int) % alignment == 0
    } by {
        if found.size == size {
            let oi = if i < k { i } else { i + 1 };
            assert(fl[oi] == nl[i]);
        } else if i != k {
            assert(fl[i] == nl[i]);
        }
    }
    assert forall|b: int| #[trigger] in_free_list(nl, b)
        <==> (in_free_list(fl, b) && !(found.offset <= b < found.offset + size)) by {
        if in_free_list(nl, b) {
            let i = choose|i: int| 0 <= i < nl.len() && #[trigger] nl[i].contains(b);
            if found.size == size {
                let oi = if i < k { i } else { i + 1 };
                assert(fl[oi].contains(b));
                if oi < k {
                    assert(fl[oi].end() <= fl[k].offset);
                } else {
                    assert(fl[k].end() <= fl[oi].offset);
                }
            } else {
                if i < k {
                    assert(fl[i].end() <= fl[k].offset);
                    assert(fl[i].contains(b));
                } else if i > k {
                    assert(fl[k].end() <= fl[i].offset);
                    assert(fl[i].contains(b));
                } else {
                    assert(fl[k].contains(b));
                }
            }
        }
        if in_free_list(fl, b) && !(found.offset <= b < found.offset + size) {
            let i = choose|i: int| 0 <= i < fl.len() && #[trigger] fl[i].contains(b);
            if found.size == size {
                assert(i != k);
                let ni = if i < k { i } else { i - 1 };
                assert(nl[ni].contains(b));
            } else {
                assert(nl[i].contains(b));
            }
        }
    }
    assert forall|b: int| found.offset <= b < found.offset + size implies #[trigger] in_free_list(fl, b) by {
        assert(fl[k].contains(b));
    }
}

/// `p` regions of the sorted list `fl` start before byte `off`.
pub open spec fn split_point(fl: Seq<FreeMegabufferRegion>, p: int, off: int) -> bool {
    &&& 0 <= p <= fl.len()
    &&& forall|i: int| 0 <= i < p ==> #[trigger] fl[i].offset < off
    &&& forall|i: int| p <= i < fl.len() ==> #[trigger] fl[i].offset >= off
}

/// `[off, off + size)` shares no byte with any region of `fl`.
pub open spec fn disjoint_from_free(fl: Seq<FreeMegabufferRegion>, off: int, size: int) -> bool {
    forall|i: int| 0 <= i < fl.len() ==> #[trigger] fl[i].end() <= off || off + size <= fl[i].offset
}

/// The free list after `[off, off + size)` is returned to it, `p` being its
/// split point: the range merges with the region that ends where it starts,
/// with the region that starts where it ends, with both, or is inserted
/// between them.
pub open spec fn release_at(fl: Seq<FreeMegabufferRegion>, p: int, off: int, size: int) -> Seq<FreeMegabufferRegion> {
    let left = p > 0 && fl[p - 1].end() == off;
    let right = p < fl.len() && off + size == fl[p].offset;
    if left && right {
        fl.update(p - 1, FreeMegabufferRegion {
            offset: fl[p - 1].offset,
            size: (fl[p - 1].size + size + fl[p].size) as u64,
        }).remove(p)
    } else if left {
        fl.update(p - 1, FreeMegabufferRegion { offset: fl[p - 1].offset, size: (fl[p - 1].size + size) as u64 })
    } else if right {
        fl.update(p, FreeMegabufferRegion { offset: off as u64, size: (size + fl[p].size) as u64 })
    } else {
        fl.insert(p, FreeMegabufferRegion { offset: off as u64, size: size as u64 })
    }
}

/// At the split point, the range is disjoint from the whole list exactly
/// when it is disjoint from the two regions around the split point.
proof fn lemma_split_disjoint(fl: Seq<FreeMegabufferRegion>, p: int, off: int, size: int, capacity: int, alignment: int)
    requires
        free_list_wf(fl, capacity, alignment),
        split_point(fl, p, off),
        size > 0,
    ensures
        disjoint_from_free(fl, off, size) <==> ((p == 0 || fl[p - 1].end() <= off) && (p == fl.len()
            || off + size <= fl[p].offset)),
{
    if (p == 0 || fl[p - 1].end() <= off) && (p == fl.len() || off + size <= fl[p].offset) {
        assert forall|i: int| 0 <= i < fl.len() implies #[trigger] fl[i].end() <= off || off + size
            <= fl[i].offset by {
            if i < p - 1 {
                assert(fl[i].end() <= fl[p - 1].offset);
            } else if i > p {
                assert(fl[p].end() <= fl[i].offset);
                assert(fl[p].size > 0);
            }
        }
    }
    if p > 0 && fl[p - 1].end() > off {
        assert(fl[p - 1].offset < off);
        assert(!(fl[p - 1].end() <= off || off + size <= fl[p - 1].offset));
    }
    if p < fl.len() && off + size > fl[p].offset {
        assert(fl[p].size > 0);
        assert(!(fl[p].end() <= off || off + size <= fl[p].offset));
    }
}

/// Returning a range that is disjoint from the free list keeps the list
/// well formed and adds exactly the range's bytes to it.
#[verifier::rlimit(60)]
proof fn lemma_release(fl: Seq<FreeMegabufferRegion>, p: int, off: int, size: int, capacity: int, alignment: int)
    requires
        free_list_wf(fl, capacity, alignment),
        split_point(fl, p, off),
        disjoint_from_free(fl, off, size),
        size > 0,
        off >= 0,
        off % alignment == 0,
        off + size <= capacity,
        capacity <= u64::MAX,
    ensures
        free_list_wf(release_at(fl, p, off, size), capacity, alignment),
        forall|b: int| #[trigger] in_free_list(release_at(fl, p, off, size), b)
            <==> (in_free_list(fl, b) || off <= b < off + size),
{
    let nl = release_at(fl, p, off, size);
    let left = p > 0 && fl[p - 1].end() == off;
    let right = p < fl.len() && off + size == fl[p].offset;
    assert forall|i: int| 0 <= i < p implies #[trigger] fl[i].end() <= off by {
        assert(fl[i].offset < off);
        assert(fl[i].size > 0);
    }
    assert forall|i: int| p <= i < fl.len() implies off + size <= #[trigger] fl[i].offset by {
        assert(fl[i].offset >= off);
        assert(fl[i].size > 0);
    }
    // Index in `fl` of the region at index `i` of `nl`, or -1 for the merged
    // or inserted one.
    let orig = |i: int|
        if left && right {
            if i < p - 1 { i } else if i == p - 1 { -1 } else { i + 1 }
        } else if left {
            if i == p - 1 { -1 } else { i }
        } else if right {
            if i == p { -1 } else { i }
        } else {
            if i < p { i } else if i == p { -1 } else { i - 1 }
        };
    let nidx = if left { p - 1 } else { p };
    // The bytes of the merged or inserted region.
    let lo = if left { fl[p - 1].offset as int } else { off };
    let hi = if right { fl[p].end() } else { off + size };
    assert(nl.len() == if left && right { fl.len() - 1 } else if left || right { fl.len() as int } else { fl.len() + 1int });
    assert(nl[nidx].offset == lo && nl[nidx].end() == hi);
    assert forall|i: int| 0 <= i < nl.len() && i != nidx implies #[trigger] nl[i] == fl[orig(i)] && 0 <= orig(i) < fl.len()
        && (i < nidx <==> orig(i) < p) by {}
    assert forall|i: int| 0 <= i < nl.len() && i != nidx implies #[trigger] nl[i].end() <= lo || hi <= nl[i].offset by {
        let o = orig(i);
        if o < p {
            if left {
                assert(o < p - 1);
                assert(fl[o].end() <= fl[p - 1].offset);
            }
        } else {
            if right {
                assert(o > p);
                assert(fl[p].end() <= fl[o].offset);
            }
        }
    }
    assert forall|i: int, j: int| #![trigger nl[i], nl[j]] 0 <= i < j < nl.len() implies nl[i].end() <= nl[j].offset by {
        if i != nidx && j != nidx {
            assert(fl[orig(i)].end() <= fl[orig(j)].offset);
        } else if i == nidx {
            assert(orig(j) >= p);
            assert(nl[j].end() <= lo || hi <= nl[j].offset);
            assert(nl[j].size > 0 || nl[j] == fl[orig(j)]);
        } else {
            assert(orig(i) < p);
        }
    }
    assert forall|i: int| #![trigger nl[i]] 0 <= i < nl.len() implies {
        &&& nl[i].size > 0
        &&& nl[i].end() <= capacity
        &&& (nl[i].offset as int) % alignment == 0
    } by {
        if i != nidx {
            assert(nl[i] == fl[orig(i)]);
        } else if left {
            assert(nl[i].offset == fl[p - 1].offset);
        }
    }
    assert forall|b: int| #[trigger] in_free_list(nl, b) <==> (in_free_list(fl, b) || off <= b < off + size) by {
        if in_free_list(nl, b) {
            let i = choose|i: int| 0 <= i < nl.len() && #[trigger] nl[i].contains(b);
            if i != nidx {
                assert(fl[orig(i)].contains(b));
            } else if !(off <= b < off + size) {
                if left && b < off {
                    assert(fl[p - 1].contains(b));
                } else {
                    assert(fl[p].contains(b));
                }
            }
        }
        if in_free_list(fl, b) {
            let o = choose|o: int| 0 <= o < fl.len() && #[trigger] fl[o].contains(b);
            if left && o == p - 1 {
                assert(nl[nidx].contains(b));
            } else if right && o == p {
                assert(nl[nidx].contains(b));
            } else {
                let i = if left && right {
                    if o < p - 1 { o } else { o - 1 }
                } else if left || right {
                    o
                } else {
                    if o < p { o } else { o + 1 }
                };
                assert(orig(i) == o);
                assert(nl[i].contains(b));
            }
        }
        if off <= b < off + size {
            assert(nl[nidx].contains(b));
        }
    }
}

/// No two neighbouring regions of `fl` touch.
pub open spec fn coalesced(fl: Seq<FreeMegabufferRegion>) -> bool {
    forall|i: int| 0 <= i < fl.len() - 1 ==> #[trigger] fl[i].end() < fl[i + 1].offset
}

proof fn lemma_diff_aligned(x: int, y: int, alignment: int)
    requires
        alignment > 0,
        x % alignment == 0,
        y % alignment == 0,
    ensures
        (x - y) % alignment == 0,
{
    lemma_fundamental_div_mod(x, alignment);
    lemma_fundamental_div_mod(y, alignment);
    let q = x / alignment - y / alignment;
    assert(x - y == q * alignment) by (nonlinear_arith)
        requires
            x == alignment * (x / alignment) + x % alignment,
            y == alignment * (y / alignment) + y % alignment,
            x % alignment == 0,
            y % alignment == 0,
            q == x / alignment - y / alignment,
    ;
    lemma_mod_multiples_basic(q, alignment);
}

/// A lease on the byte range `[offset, offset + size)` of the megabuffer
/// whose identifier is `owner`. It becomes empty once released.
pub struct AllocatedMegabufferRegion {
    offset: u64,
    size: u64,
    owner: u64,
    alignment: u64,
}

impl AllocatedMegabufferRegion {
    pub closed spec fn spec_offset(&self) -> int {
        self.offset as int
    }

    pub closed spec fn spec_size(&self) -> int {
        self.size as int
    }

    pub closed spec fn spec_owner(&self) -> u64 {
        self.owner
    }

    pub closed spec fn spec_alignment(&self) -> int {
        self.alignment as int
    }

    pub open spec fn spec_end(&self) -> int {
        self.spec_offset() + self.spec_size()
    }

    pub open spec fn covers(&self, b: int) -> bool {
        self.spec_offset() <= b < self.spec_end()
    }

    /// The range fits in 64 bits and starts and ends on the alignment.
    pub open spec fn wf(&self) -> bool {
        &&& self.spec_alignment() > 0
        &&& self.spec_end() <= u64::MAX
        &&& self.spec_offset() % self.spec_alignment() == 0
        &&& self.spec_size() % self.spec_alignment() == 0
    }

    pub fn offset(&self) -> (r: u64)
        ensures
            r == self.spec_offset(),
    {
        self.offset
    }

    pub fn size(&self) -> (r: u64)
        ensures
            r == self.spec_size(),
    {
        self.size
    }

    /// Splits off the last `size` bytes, rounded up to the alignment, as a
    /// lease of their own; this lease keeps the front.
    pub fn suballocate_region(&mut self, size: u64) -> (r: Result<AllocatedMegabufferRegion, MegabufferError>)
        requires
            old(self).wf(),
        ensures
            final(self).wf(),
            ({
                let a = round_up(size as int, old(self).spec_alignment());
                &&& a > old(self).spec_size() ==> r == Err::<AllocatedMegabufferRegion, MegabufferError>(
                    MegabufferError::SubregionTooLarge,
                )
                &&& a <= old(self).spec_size() && a == 0 ==> r
                    == Err::<AllocatedMegabufferRegion, MegabufferError>(MegabufferError::ZeroSizedSubregion)
                &&& 0 < a == old(self).spec_size() ==> r == Err::<AllocatedMegabufferRegion, MegabufferError>(
                    MegabufferError::WholeRegion,
                )
                &&& 0 < a < old(self).spec_size() ==> r is Ok
                &&& r is Err ==> *final(self) == *old(self)
                &&& r is Ok ==> {
                    let sub = r->Ok_0;
                    &&& sub.wf()
                    &&& sub.spec_size() == a
                    &&& sub.spec_offset() == old(self).spec_end() - a
                    &&& sub.spec_owner() == old(self).spec_owner()
                    &&& sub.spec_alignment() == old(self).spec_alignment()
                    &&& final(self).spec_offset() == old(self).spec_offset()
                    &&& final(self).spec_size() == old(self).spec_size() - a
                    &&& final(self).spec_owner() == old(self).spec_owner()
                    &&& final(self).spec_alignment() == old(self).spec_alignment()
                }
            }),
    {
        let rem = size % self.alignment;
        let aligned = if rem == 0 {
            size
        } else {
            match size.checked_add(self.alignment - rem) {
                Some(v) => v,
                None => {
                    return Err(MegabufferError::SubregionTooLarge);
                },
            }
        };
        if aligned > self.size {
            return Err(MegabufferError::SubregionTooLarge);
        }
        if aligned == 0 {
            return Err(MegabufferError::ZeroSizedSubregion);
        }
        if aligned == self.size {
            return Err(MegabufferError::WholeRegion);
        }
        proof {
            lemma_round_up(size as int, self.alignment as int);
            lemma_diff_aligned(self.size as int, aligned as int, self.alignment as int);
            lemma_sum_aligned(self.offset as int, (self.size - aligned) as int, self.alignment as int);
        }
        let sub = AllocatedMegabufferRegion {
            offset: self.offset + (self.size - aligned),
            size: aligned,
            owner: self.owner,
            alignment: self.alignment,
        };
        self.size = self.size - aligned;
        Ok(sub)
    }

    pub fn belongs_to_same_megabuffer(&self, other: &Self) -> (r: bool)
        ensures
            r == (self.spec_owner() == other.spec_owner()),
    {
        self.owner == other.owner
    }

    /// Both leases come from one megabuffer and the lower one ends where
    /// the other starts.
    pub fn is_adjacent_to(&self, other: &Self) -> (r: bool)
        requires
            self.wf(),
            other.wf(),
        ensures
            r == (self.spec_owner() == other.spec_owner() && if self.spec_offset() < other.spec_offset() {
                self.spec_end() == other.spec_offset()
            } else {
                other.spec_end() == self.spec_offset()
            }),
    {
        if !self.belongs_to_same_megabuffer(other) {
            return false;
        }
        if self.offset < other.offset {
            self.offset + self.size == other.offset
        } else {
            other.offset + other.size == self.offset
        }
    }

    /// Absorbs the adjacent lease `other` into this one.
    pub fn merge_adjacent_region(&mut self, other: Self) -> (r: Result<(), MegabufferError>)
        requires
            old(self).wf(),
            other.wf(),
        ensures
            final(self).wf(),
            old(self).spec_owner() != other.spec_owner() || old(self).spec_alignment() != other.spec_alignment()
                ==> r == Err::<(), MegabufferError>(MegabufferError::ForeignRegion),
            old(self).spec_owner() == other.spec_owner() && old(self).spec_alignment() == other.spec_alignment()
                && !old(self).is_adjacent(&other) ==> r == Err::<(), MegabufferError>(
                MegabufferError::NotAdjacent,
            ),
            old(self).spec_owner() == other.spec_owner() && old(self).spec_alignment() == other.spec_alignment()
                && old(self).is_adjacent(&other) ==> r is Ok,
            r is Err ==> *final(self) == *old(self),
            r is Ok ==> {
                &&& old(self).is_adjacent(&other)
                &&& final(self).spec_owner() == old(self).spec_owner()
                &&& final(self).spec_alignment() == old(self).spec_alignment()
                &&& final(self).spec_size() == old(self).spec_size() + other.spec_size()
                &&& final(self).spec_offset() == if old(self).spec_offset() < other.spec_offset() {
                    old(self).spec_offset()
                } else {
                    other.spec_offset()
                }
                &&& forall|b: int| #[trigger] final(self).covers(b) <==> (old(self).covers(b) || other.covers(b))
            },
    {
        if self.owner != other.owner || self.alignment != other.alignment {
            return Err(MegabufferError::ForeignRegion);
        }
        if !self.is_adjacent_to(&other) {
            return Err(MegabufferError::NotAdjacent);
        }
        proof {
            lemma_sum_aligned(self.size as int, other.size as int, self.alignment as int);
        }
        if other.offset < self.offset {
            self.offset = other.offset;
        }
        self.size = self.size + other.size;
        Ok(())
    }

    /// The two leases touch, in either order.
    pub open spec fn is_adjacent(&self, other: &Self) -> bool {
        if self.spec_offset() < other.spec_offset() {
            self.spec_end() == other.spec_offset()
        } else {
            other.spec_end() == self.spec_offset()
        }
    }

    /// Identifier of the megabuffer the region was leased from.
    pub fn owner(&self) -> (r: u64)
        ensures
            r == self.spec_owner(),
    {
        self.owner
    }
}

/// The sub-allocator of one device buffer and its staging twin.
pub struct Megabuffer {
    id: u64,
    capacity: u64,
    alignment: u64,
    free_regions: Vec<FreeMegabufferRegion>,
    pending: Vec<BufferCopy>,
}

impl Megabuffer {
    pub closed spec fn spec_id(&self) -> u64 {
        self.id
    }

    pub closed spec fn spec_capacity(&self) -> int {
        self.capacity as int
    }

    pub closed spec fn spec_alignment(&self) -> int {
        self.alignment as int
    }

    /// The unused byte ranges, in ascending order of offset.
    pub closed spec fn free_list(&self) -> Seq<FreeMegabufferRegion> {
        self.free_regions@
    }

    /// The copies that the next upload must perform.
    pub closed spec fn pending(&self) -> Seq<BufferCopy> {
        self.pending@
    }

    pub open spec fn is_free(&self, b: int) -> bool {
        in_free_list(self.free_list(), b)
    }

    pub open spec fn wf(&self) -> bool {
        &&& self.spec_alignment() > 0
        &&& free_list_wf(self.free_list(), self.spec_capacity(), self.spec_alignment())
        &&& forall|k: int|
            #![trigger self.pending()[k]]
            0 <= k < self.pending().len() ==> {
                &&& self.pending()[k].src_offset == self.pending()[k].dst_offset
                &&& self.pending()[k].size > 0
                &&& self.pending()[k].dst_offset + self.pending()[k].size <= self.spec_capacity()
            }
    }

    /// A megabuffer of `capacity` bytes, all of them free. Only the
    /// registry creates megabuffers, so that no two share an identifier.
    fn new(id: u64, capacity: u64, alignment: u64) -> (r: Result<Megabuffer, MegabufferError>)
        ensures
            alignment == 0 ==> r == Err::<Megabuffer, MegabufferError>(MegabufferError::InvalidAlignment),
            alignment != 0 ==> r is Ok,
            r is Ok ==> {
                let m = r->Ok_0;
                &&& m.wf()
                &&& m.spec_id() == id
                &&& m.spec_capacity() == capacity
                &&& m.spec_alignment() == alignment
                &&& m.pending().len() == 0
                &&& m.free_list() == if capacity == 0 {
                    Seq::<FreeMegabufferRegion>::empty()
                } else {
                    seq![FreeMegabufferRegion { offset: 0, size: capacity }]
                }
            },
    {
        if alignment == 0 {
            return Err(MegabufferError::InvalidAlignment);
        }
        let mut free_regions: Vec<FreeMegabufferRegion> = Vec::new();
        if capacity > 0 {
            free_regions.push(FreeMegabufferRegion { offset: 0, size: capacity });
        }
        let m = Megabuffer { id, capacity, alignment, free_regions, pending: Vec::new() };
        proof {
            assert(0u64 % alignment == 0) by (nonlinear_arith) requires alignment > 0;
        }
        Ok(m)
    }

    pub fn id(&self) -> (r: u64)
        ensures
            r == self.spec_id(),
    {
        self.id
    }

    pub fn capacity(&self) -> (r: u64)
        ensures
            r == self.spec_capacity(),
    {
        self.capacity
    }

    pub fn alignment(&self) -> (r: u64)
        ensures
            r == self.spec_alignment(),
    {
        self.alignment
    }

    /// `size` rounded up to the alignment, or `None` where that exceeds 64 bits.
    pub fn aligned_size(&self, size: u64) -> (r: Option<u64>)
        requires
            self.wf(),
        ensures
            match r {
                Some(v) => v == round_up(size as int, self.spec_alignment()),
                None => round_up(size as int, self.spec_alignment()) > u64::MAX,
            },
    {
        let rem = size % self.alignment;
        if rem == 0 {
            Some(size)
        } else {
            size.checked_add(self.alignment - rem)
        }
    }

    /// `region` is a range that this megabuffer has leased out: it carries
    /// this megabuffer's identifier, starts on the alignment, lies inside
    /// the buffer and shares no byte with the free list.
    pub open spec fn holds(&self, region: &AllocatedMegabufferRegion) -> bool {
        &&& region.spec_owner() == self.spec_id()
        &&& region.spec_offset() % self.spec_alignment() == 0
        &&& region.spec_end() <= self.spec_capacity()
        &&& disjoint_from_free(self.free_list(), region.spec_offset(), region.spec_size())
    }

    /// Returns the leased range to the free list, merging it with the free
    /// regions that touch it, and empties the lease.
    pub fn deallocate_region(&mut self, region: &mut AllocatedMegabufferRegion) -> (r: Result<(), MegabufferError>)
        requires
            old(self).wf(),
            old(region).wf(),
        ensures
            final(self).wf(),
            old(region).spec_size() == 0 ==> r == Err::<(), MegabufferError>(MegabufferError::DoubleFree),
            old(region).spec_size() != 0 && !old(self).holds(old(region)) ==> r == Err::<(), MegabufferError>(
                MegabufferError::ForeignRegion,
            ),
            old(region).spec_size() != 0 && old(self).holds(old(region)) ==> r is Ok,
            r is Err ==> *final(self) == *old(self) && *final(region) == *old(region),
            r is Ok ==> {
                &&& final(self).spec_id() == old(self).spec_id()
                &&& final(self).spec_capacity() == old(self).spec_capacity()
                &&& final(self).spec_alignment() == old(self).spec_alignment()
                &&& final(self).pending() == old(self).pending()
                &&& final(region).wf()
                &&& final(region).spec_size() == 0
                &&& final(region).spec_offset() == old(region).spec_offset()
                &&& final(region).spec_owner() == old(region).spec_owner()
                &&& final(region).spec_alignment() == old(region).spec_alignment()
                &&& exists|p: int|
                    split_point(old(self).free_list(), p, old(region).spec_offset())
                    && final(self).free_list() == release_at(
                        old(self).free_list(),
                        p,
                        old(region).spec_offset(),
                        old(region).spec_size(),
                    )
                &&& forall|b: int| #[trigger] final(self).is_free(b)
                    <==> (old(self).is_free(b) || old(region).covers(b))
            },
    {
        if region.size == 0 {
            return Err(MegabufferError::DoubleFree);
        }
        if region.owner != self.id || region.offset % self.alignment != 0 || region.size > self.capacity
            || region.offset > self.capacity - region.size {
            return Err(MegabufferError::ForeignRegion);
        }
        let ghost fl = self.free_regions@;
        let off = region.offset;
        let size = region.size;
        let end = off + size;
        let mut p: usize = 0;
        while p < self.free_regions.len() && self.free_regions[p].offset < off
            invariant
                self.free_regions@ == fl,
                p <= fl.len(),
                forall|i: int| 0 <= i < p ==> #[trigger] fl[i].offset < off,
            decreases fl.len() - p,
        {
            p = p + 1;
        }
        proof {
            assert forall|i: int| p <= i < fl.len() implies #[trigger] fl[i].offset >= off by {
                if i > p {
                    assert(fl[p as int].end() <= fl[i].offset);
                }
            }
            assert(split_point(fl, p as int, off as int));
            lemma_split_disjoint(fl, p as int, off as int, size as int, self.capacity as int, self.alignment as int);
        }
        let len = self.free_regions.len();
        if p > 0 && self.free_regions[p - 1].offset + self.free_regions[p - 1].size > off {
            return Err(MegabufferError::ForeignRegion);
        }
        if p < len && end > self.free_regions[p].offset {
            return Err(MegabufferError::ForeignRegion);
        }
        proof {
            lemma_release(fl, p as int, off as int, size as int, self.capacity as int, self.alignment as int);
        }
        let left = p > 0 && self.free_regions[p - 1].offset + self.free_regions[p - 1].size == off;
        let right = p < len && end == self.free_regions[p].offset;
        if left && right {
            let l = self.free_regions[p - 1];
            let n = self.free_regions[p];
            self.free_regions.set(p - 1, FreeMegabufferRegion { offset: l.offset, size: l.size + size + n.size });
            self.free_regions.remove(p);
        } else if left {
            let l = self.free_regions[p - 1];
            self.free_regions.set(p - 1, FreeMegabufferRegion { offset: l.offset, size: l.size + size });
        } else if right {
            let n = self.free_regions[p];
            self.free_regions.set(p, FreeMegabufferRegion { offset: off, size: size + n.size });
        } else {
            self.free_regions.insert(p, FreeMegabufferRegion { offset: off, size });
        }
        region.size = 0;
        proof {
            assert(self.free_regions@ == release_at(fl, p as int, off as int, size as int));
            assert(0int % (region.alignment as int) == 0) by (nonlinear_arith) requires region.alignment > 0;
            assert(free_list_wf(self.free_list(), self.spec_capacity(), self.spec_alignment()));
            assert(self.pending() == old(self).pending());
        }
        Ok(())
    }

    /// The unused byte ranges, in ascending order of offset.
    pub fn free_regions(&self) -> (r: Vec<FreeMegabufferRegion>)
        ensures
            r@ == self.free_list(),
    {
        let mut r: Vec<FreeMegabufferRegion> = Vec::new();
        let mut i: usize = 0;
        while i < self.free_regions.len()
            invariant
                i <= self.free_regions@.len(),
                r@ == self.free_regions@.subrange(0, i as int),
            decreases self.free_regions@.len() - i,
        {
            r.push(self.free_regions[i]);
            i = i + 1;
        }
        assert(self.free_regions@.subrange(0, i as int) == self.free_regions@);
        r
    }

    /// Merges every pair of neighbouring free regions that touch. Leases
    /// are not moved.
    #[verifier::rlimit(60)]
    pub fn defragment(&mut self)
        requires
            old(self).wf(),
        ensures
            final(self).wf(),
            final(self).spec_id() == old(self).spec_id(),
            final(self).spec_capacity() == old(self).spec_capacity(),
            final(self).spec_alignment() == old(self).spec_alignment(),
            final(self).pending() == old(self).pending(),
            coalesced(final(self).free_list()),
            forall|b: int| #[trigger] final(self).is_free(b) <==> old(self).is_free(b),
    {
        let ghost fl = self.free_regions@;
        let ghost cap = self.capacity as int;
        let ghost al = self.alignment as int;
        let mut merged: Vec<FreeMegabufferRegion> = Vec::new();
        let mut i: usize = 0;
        while i < self.free_regions.len()
            invariant
                self.free_regions@ == fl,
                self.wf(),
                cap == self.capacity,
                al == self.alignment,
                i <= fl.len(),
                free_list_wf(merged@, cap, al),
                coalesced(merged@),
                i == 0 <==> merged@.len() == 0,
                i > 0 ==> merged@.last().end() == fl[i - 1].end(),
                forall|b: int| #[trigger] in_free_list(merged@, b) <==> in_free_list(fl.subrange(0, i as int), b),
            decreases fl.len() - i,
        {
            let r = self.free_regions[i];
            let ghost before = merged@;
            let ghost sub = fl.subrange(0, i as int);
            let ghost sub2 = fl.subrange(0, i + 1);
            assert(sub2 == sub.push(r));
            if i > 0 {
                assert(fl[i - 1].end() <= fl[i as int].offset);
            }
            let n = merged.len();
            if n > 0 && merged[n - 1].offset + merged[n - 1].size == r.offset {
                let last = merged[n - 1];
                merged.set(n - 1, FreeMegabufferRegion { offset: last.offset, size: last.size + r.size });
                proof {
                    let m = merged@;
                    assert forall|x: int, y: int| #![trigger m[x], m[y]] 0 <= x < y < m.len()
                        implies m[x].end() <= m[y].offset by {
                        assert(before[x].end() <= before[y].offset);
                    }
                    assert forall|x: int| 0 <= x < m.len() - 1 implies #[trigger] m[x].end() < m[x + 1].offset by {
                        assert(before[x].end() < before[x + 1].offset);
                    }
                    assert forall|b: int| #[trigger] in_free_list(m, b) <==> in_free_list(sub2, b) by {
                        if in_free_list(m, b) {
                            let x = choose|x: int| 0 <= x < m.len() && #[trigger] m[x].contains(b);
                            if x == n - 1 && !before[x].contains(b) {
                                assert(sub2[i as int].contains(b));
                            } else {
                                assert(before[x].contains(b));
                                assert(in_free_list(before, b));
                                let y = choose|y: int| 0 <= y < sub.len() && #[trigger] sub[y].contains(b);
                                assert(sub2[y].contains(b));
                            }
                        }
                        if in_free_list(sub2, b) {
                            let y = choose|y: int| 0 <= y < sub2.len() && #[trigger] sub2[y].contains(b);
                            if y == i {
                                assert(m[n - 1].contains(b));
                            } else {
                                assert(sub[y].contains(b));
                                assert(in_free_list(sub, b));
                                assert(in_free_list(before, b));
                                let x = choose|x: int| 0 <= x < before.len() && #[trigger] before[x].contains(b);
                                assert(m[x].contains(b));
                            }
                        }
                    }
                }
            } else {
                merged.push(r);
                proof {
                    let m = merged@;
                    assert forall|x: int, y: int| #![trigger m[x], m[y]] 0 <= x < y < m.len()
                        implies m[x].end() <= m[y].offset by {
                        if y == n {
                            if x < n - 1 {
                                assert(before[x].end() <= before[n - 1].offset);
                            }
                        } else {
                            assert(before[x].end() <= before[y].offset);
                        }
                    }
                    assert forall|x: int| 0 <= x < m.len() - 1 implies #[trigger] m[x].end() < m[x + 1].offset by {
                        if x < n - 1 {
                            assert(before[x].end() < before[x + 1].offset);
                        }
                    }
                    assert forall|b: int| #[trigger] in_free_list(m, b) <==> in_free_list(sub2, b) by {
                        if in_free_list(m, b) {
                            let x = choose|x: int| 0 <= x < m.len() && #[trigger] m[x].contains(b);
                            if x == n {
                                assert(sub2[i as int].contains(b));
                            } else {
                                assert(before[x].contains(b));
                                assert(in_free_list(before, b));
                                let y = choose|y: int| 0 <= y < sub.len() && #[trigger] sub[y].contains(b);
                                assert(sub2[y].contains(b));
                            }
                        }
                        if in_free_list(sub2, b) {
                            let y = choose|y: int| 0 <= y < sub2.len() && #[trigger] sub2[y].contains(b);
                            if y == i {
                                assert(m[n as int].contains(b));
                            } else {
                                assert(sub[y].contains(b));
                                assert(in_free_list(sub, b));
                                assert(in_free_list(before, b));
                                let x = choose|x: int| 0 <= x < before.len() && #[trigger] before[x].contains(b);
                                assert(m[x].contains(b));
                            }
                        }
                    }
                }
            }
            i = i + 1;
        }
        assert(fl.subrange(0, fl.len() as int) == fl);
        let ghost pd = self.pending@;
        self.free_regions = merged;
        proof {
            assert(self.pending@ == pd);
            assert(free_list_wf(self.free_list(), self.spec_capacity(), self.spec_alignment()));
            assert(self.spec_alignment() > 0);
            assert(self.pending() == old(self).pending());
            assert(self.spec_capacity() == old(self).spec_capacity());
        }
    }

    /// Names where `data` goes in the staging buffer (the lease's offset)
    /// and records that range for the next upload. Data larger than the
    /// lease is refused first; then a lease of another megabuffer.
    pub fn write(&mut self, data: &[u8], region: &AllocatedMegabufferRegion) -> (r: Result<u64, MegabufferError>)
        requires
            old(self).wf(),
            region.wf(),
        ensures
            final(self).wf(),
            final(self).spec_id() == old(self).spec_id(),
            final(self).spec_capacity() == old(self).spec_capacity(),
            final(self).spec_alignment() == old(self).spec_alignment(),
            final(self).free_list() == old(self).free_list(),
            data@.len() > region.spec_size() ==> r == Err::<u64, MegabufferError>(MegabufferError::RegionTooSmall),
            data@.len() <= region.spec_size() && (region.spec_owner() != old(self).spec_id() || region.spec_end()
                > old(self).spec_capacity()) ==> r == Err::<u64, MegabufferError>(MegabufferError::ForeignRegion),
            region.spec_owner() == old(self).spec_id() && region.spec_end() <= old(self).spec_capacity()
                && data@.len() <= region.spec_size() ==> r == Ok::<u64, MegabufferError>(region.spec_offset() as u64),
            r is Err ==> final(self).pending() == old(self).pending(),
            r is Ok ==> final(self).pending() == if data@.len() == 0 {
                old(self).pending()
            } else {
                old(self).pending().push(
                    BufferCopy {
                        src_offset: region.spec_offset() as u64,
                        dst_offset: region.spec_offset() as u64,
                        size: data@.len() as u64,
                    },
                )
            },
    {
        let len = data.len() as u64;
        if len > region.size {
            return Err(MegabufferError::RegionTooSmall);
        }
        if region.owner != self.id || region.size > self.capacity || region.offset > self.capacity - region.size {
            return Err(MegabufferError::ForeignRegion);
        }
        if len > 0 {
            self.pending.push(BufferCopy { src_offset: region.offset, dst_offset: region.offset, size: len });
        }
        proof {
            let pd = self.pending();
            assert forall|k: int| #![trigger pd[k]] 0 <= k < pd.len() implies {
                &&& pd[k].src_offset == pd[k].dst_offset
                &&& pd[k].size > 0
                &&& pd[k].dst_offset + pd[k].size <= self.spec_capacity()
            } by {
                if k < old(self).pending().len() {
                    assert(pd[k] == old(self).pending()[k]);
                }
            }
            assert(free_list_wf(self.free_list(), self.spec_capacity(), self.spec_alignment()));
        }
        Ok(region.offset)
    }

    /// The staging-to-device copies that one transfer submission must
    /// perform: one per range written since the last finished upload.
    pub fn upload(&self) -> (r: Vec<BufferCopy>)
        requires
            self.wf(),
        ensures
            r@ == self.pending(),
    {
        let mut r: Vec<BufferCopy> = Vec::new();
        let mut i: usize = 0;
        while i < self.pending.len()
            invariant
                i <= self.pending@.len(),
                r@ == self.pending@.subrange(0, i as int),
            decreases self.pending@.len() - i,
        {
            r.push(self.pending[i]);
            i = i + 1;
        }
        assert(self.pending@.subrange(0, i as int) == self.pending@);
        r
    }

    /// Forgets the recorded ranges once their copies have completed.
    pub fn finish_upload(&mut self)
        requires
            old(self).wf(),
        ensures
            final(self).wf(),
            final(self).spec_id() == old(self).spec_id(),
            final(self).spec_capacity() == old(self).spec_capacity(),
            final(self).spec_alignment() == old(self).spec_alignment(),
            final(self).free_list() == old(self).free_list(),
            final(self).pending().len() == 0,
    {
        self.pending = Vec::new();
        proof {
            assert(free_list_wf(self.free_list(), self.spec_capacity(), self.spec_alignment()));
        }
    }

    /// Leases the first free region, in list order, that holds `size`
    /// rounded up to the alignment; its front becomes the lease.
    pub fn allocate_region(&mut self, size: u64) -> (r: Result<AllocatedMegabufferRegion, MegabufferError>)
        requires
            old(self).wf(),
        ensures
            final(self).wf(),
            final(self).spec_id() == old(self).spec_id(),
            final(self).spec_capacity() == old(self).spec_capacity(),
            final(self).spec_alignment() == old(self).spec_alignment(),
            final(self).pending() == old(self).pending(),
            r is Err <==> forall|k: int|
                0 <= k < old(self).free_list().len() ==> #[trigger] old(self).free_list()[k].size
                    < round_up(size as int, old(self).spec_alignment()),
            r is Err ==> r == Err::<AllocatedMegabufferRegion, MegabufferError>(MegabufferError::OutOfSpace)
                && final(self).free_list() == old(self).free_list(),
            r is Ok ==> {
                let region = r->Ok_0;
                let a = round_up(size as int, old(self).spec_alignment());
                &&& region.wf()
                &&& region.spec_owner() == old(self).spec_id()
                &&& region.spec_alignment() == old(self).spec_alignment()
                &&& region.spec_size() == a
                &&& region.spec_offset() % old(self).spec_alignment() == 0
                &&& region.spec_end() <= old(self).spec_capacity()
                &&& exists|k: int| #![trigger old(self).free_list()[k]]
                    first_fit(old(self).free_list(), k, a)
                    && region.spec_offset() == old(self).free_list()[k].offset
                    && final(self).free_list() == take_front(old(self).free_list(), k, a)
                &&& forall|b: int| #[trigger] region.covers(b) ==> old(self).is_free(b)
                &&& forall|b: int| #[trigger] final(self).is_free(b)
                    <==> (old(self).is_free(b) && !region.covers(b))
            },
    {
        let ghost fl = self.free_regions@;
        let aligned = match self.aligned_size(size) {
            Some(v) => v,
            None => {
                return Err(MegabufferError::OutOfSpace);
            },
        };
        proof {
            lemma_round_up(size as int, self.alignment as int);
        }
        let mut k: usize = 0;
        while k < self.free_regions.len() && self.free_regions[k].size < aligned
            invariant
                self.free_regions@ == fl,
                k <= fl.len(),
                forall|j: int| 0 <= j < k ==> #[trigger] fl[j].size < aligned,
            decreases fl.len() - k,
        {
            k = k + 1;
        }
        if k == self.free_regions.len() {
            return Err(MegabufferError::OutOfSpace);
        }
        let found = self.free_regions[k];
        assert(fl[k as int] == found);
        proof {
            lemma_sum_aligned(found.offset as int, aligned as int, self.alignment as int);
        }
        if found.size == aligned {
            self.free_regions.remove(k);
        } else {
            self.free_regions.set(k, FreeMegabufferRegion { offset: found.offset + aligned, size: found.size - aligned });
        }
        let region = AllocatedMegabufferRegion {
            offset: found.offset,
            size: aligned,
            owner: self.id,
            alignment: self.alignment,
        };
        proof {
            lemma_take_front(fl, k as int, aligned as int, self.capacity as int, self.alignment as int);
            assert(first_fit(fl, k as int, aligned as int));
            assert(self.free_regions@ == take_front(fl, k as int, aligned as int));
            assert forall|b: int| #[trigger] region.covers(b) <==> (fl[k as int].offset <= b < fl[k as int].offset + aligned) by {}
            assert(free_list_wf(self.free_list(), self.spec_capacity(), self.spec_alignment()));
            assert(self.pending() == old(self).pending());
        }
        Ok(region)
    }
}

/// Hands out megabuffers with distinct identifiers, in order of creation.
pub struct MegabufferRegistry {
    next_id: u64,
}

impl MegabufferRegistry {
    /// The identifier that the next megabuffer will carry.
    pub closed spec fn spec_next_id(&self) -> u64 {
        self.next_id
    }

    pub fn new() -> (r: MegabufferRegistry)
        ensures
            r.spec_next_id() == 0,
    {
        MegabufferRegistry { next_id: 0 }
    }

    /// A new megabuffer of `capacity` bytes, all of them free, whose
    /// identifier no earlier megabuffer of this registry carries.
    pub fn create(&mut self, capacity: u64, alignment: u64) -> (r: Result<Megabuffer, MegabufferError>)
        ensures
            alignment == 0 ==> r == Err::<Megabuffer, MegabufferError>(MegabufferError::InvalidAlignment),
            alignment != 0 && old(self).spec_next_id() == u64::MAX ==> r == Err::<Megabuffer, MegabufferError>(
                MegabufferError::IdsExhausted,
            ),
            r is Err ==> final(self).spec_next_id() == old(self).spec_next_id(),
            alignment != 0 && old(self).spec_next_id() < u64::MAX ==> r is Ok,
            r is Ok ==> {
                let m = r->Ok_0;
                &&& m.wf()
                &&& m.spec_id() == old(self).spec_next_id()
                &&& final(self).spec_next_id() == old(self).spec_next_id() + 1
                &&& m.spec_capacity() == capacity
                &&& m.spec_alignment() == alignment
                &&& m.pending().len() == 0
                &&& m.free_list() == if capacity == 0 {
                    Seq::<FreeMegabufferRegion>::empty()
                } else {
                    seq![FreeMegabufferRegion { offset: 0, size: capacity }]
                }
            },
    {
        if alignment == 0 {
            return Err(MegabufferError::InvalidAlignment);
        }
        if self.next_id == u64::MAX {
            return Err(MegabufferError::IdsExhausted);
        }
        let m = Megabuffer::new(self.next_id, capacity, alignment);
        if m.is_ok() {
            self.next_id = self.next_id + 1;
        }
        m
    }
}

impl Megabuffer {
    /// A megabuffer over the same device buffer whose only free space is
    /// `[offset, offset + size)`.
    fn over_range(id: u64, capacity: u64, alignment: u64, offset: u64, size: u64) -> (r: Megabuffer)
        requires
            alignment > 0,
            offset % alignment == 0,
            offset + size <= capacity,
        ensures
            r.wf(),
            r.spec_id() == id,
            r.spec_capacity() == capacity,
            r.spec_alignment() == alignment,
            r.pending().len() == 0,
            r.free_list() == if size == 0 {
                Seq::<FreeMegabufferRegion>::empty()
            } else {
                seq![FreeMegabufferRegion { offset, size }]
            },
    {
        let mut free_regions: Vec<FreeMegabufferRegion> = Vec::new();
        if size > 0 {
            free_regions.push(FreeMegabufferRegion { offset, size });
        }
        Megabuffer { id, capacity, alignment, free_regions, pending: Vec::new() }
    }

    /// Leases `size` bytes, rounded up to the alignment, as
    /// `allocate_region` does, and hands them to a new megabuffer of the
    /// registry: it shares this one's device buffer, and the leased range is
    /// all its free space. The lease comes back too; releasing it returns
    /// the range to this megabuffer.
    pub fn allocate_subbuffer(&mut self, registry: &mut MegabufferRegistry, size: u64) -> (r: Result<
        (Megabuffer, AllocatedMegabufferRegion),
        MegabufferError,
    >)
        requires
            old(self).wf(),
        ensures
            final(self).wf(),
            final(self).spec_id() == old(self).spec_id(),
            final(self).spec_capacity() == old(self).spec_capacity(),
            final(self).spec_alignment() == old(self).spec_alignment(),
            final(self).pending() == old(self).pending(),
            old(registry).spec_next_id() == u64::MAX ==> r == Err::<(Megabuffer, AllocatedMegabufferRegion), MegabufferError>(
                MegabufferError::IdsExhausted,
            ),
            old(registry).spec_next_id() < u64::MAX ==> (r is Err <==> forall|k: int|
                0 <= k < old(self).free_list().len() ==> #[trigger] old(self).free_list()[k].size
                    < round_up(size as int, old(self).spec_alignment())),
            old(registry).spec_next_id() < u64::MAX && r is Err ==> r == Err::<
                (Megabuffer, AllocatedMegabufferRegion),
                MegabufferError,
            >(MegabufferError::OutOfSpace),
            r is Err ==> final(self).free_list() == old(self).free_list() && final(registry).spec_next_id()
                == old(registry).spec_next_id(),
            r is Ok ==> {
                let (child, lease) = r->Ok_0;
                let a = round_up(size as int, old(self).spec_alignment());
                &&& lease.wf()
                &&& lease.spec_owner() == old(self).spec_id()
                &&& lease.spec_alignment() == old(self).spec_alignment()
                &&& lease.spec_size() == a
                &&& lease.spec_end() <= old(self).spec_capacity()
                &&& exists|k: int| #![trigger old(self).free_list()[k]]
                    first_fit(old(self).free_list(), k, a)
                    && lease.spec_offset() == old(self).free_list()[k].offset
                    && final(self).free_list() == take_front(old(self).free_list(), k, a)
                &&& forall|b: int| #[trigger] final(self).is_free(b)
                    <==> (old(self).is_free(b) && !lease.covers(b))
                &&& child.wf()
                &&& child.spec_id() == old(registry).spec_next_id()
                &&& final(registry).spec_next_id() == old(registry).spec_next_id() + 1
                &&& child.spec_capacity() == old(self).spec_capacity()
                &&& child.spec_alignment() == old(self).spec_alignment()
                &&& child.pending().len() == 0
                &&& child.free_list() == if a == 0 {
                    Seq::<FreeMegabufferRegion>::empty()
                } else {
                    seq![FreeMegabufferRegion { offset: lease.spec_offset() as u64, size: a as u64 }]
                }
            },
    {
        if registry.next_id == u64::MAX {
            return Err(MegabufferError::IdsExhausted);
        }
        let lease = match self.allocate_region(size) {
            Ok(lease) => lease,
            Err(e) => {
                return Err(e);
            },
        };
        let child = Megabuffer::over_range(registry.next_id, self.capacity, self.alignment, lease.offset, lease.size);
        registry.next_id = registry.next_id + 1;
        Ok((child, lease))
    }
}

/// Neither lease has a byte that the other has.
pub open spec fn leases_disjoint(a: AllocatedMegabufferRegion, b: AllocatedMegabufferRegion) -> bool {
    a.spec_size() == 0 || b.spec_size() == 0 || a.spec_end() <= b.spec_offset() || b.spec_end() <= a.spec_offset()
}

impl Megabuffer {
    /// The free list and the leases in `live` partition `[0, capacity)`:
    /// every byte of the buffer is free or in a lease, no byte is both, no
    /// two leases overlap, and each lease is an aligned range of this buffer.
    pub open spec fn tiles(&self, live: Seq<AllocatedMegabufferRegion>) -> bool {
        &&& forall|j: int|
            #![trigger live[j]]
            0 <= j < live.len() ==> {
                &&& live[j].wf()
                &&& live[j].spec_owner() == self.spec_id()
                &&& live[j].spec_alignment() == self.spec_alignment()
                &&& live[j].spec_end() <= self.spec_capacity()
            }
        &&& forall|b: int|
            0 <= b < self.spec_capacity() ==> #[trigger] self.is_free(b) || exists|j: int|
                0 <= j < live.len() && #[trigger] live[j].covers(b)
        &&& forall|j: int, b: int| 0 <= j < live.len() && #[trigger] live[j].covers(b) ==> !self.is_free(b)
        &&& forall|j1: int, j2: int|
            #![trigger live[j1], live[j2]]
            0 <= j1 < j2 < live.len() ==> leases_disjoint(live[j1], live[j2])
    }
}

/// A new megabuffer, with no lease yet, is all free space.
pub proof fn lemma_fresh_tiles(m: &Megabuffer)
    requires
        m.wf(),
        m.free_list() == if m.spec_capacity() == 0 {
            Seq::<FreeMegabufferRegion>::empty()
        } else {
            seq![FreeMegabufferRegion { offset: 0, size: m.spec_capacity() as u64 }]
        },
    ensures
        m.tiles(Seq::empty()),
{
    assert forall|b: int| 0 <= b < m.spec_capacity() implies #[trigger] m.is_free(b) by {
        assert(m.free_list()[0].contains(b));
    }
}

/// Allocation keeps the partition: the new lease takes bytes that were free
/// and only those.
pub proof fn lemma_allocate_tiles(
    before: &Megabuffer,
    after: &Megabuffer,
    live: Seq<AllocatedMegabufferRegion>,
    region: AllocatedMegabufferRegion,
)
    requires
        before.wf(),
        after.wf(),
        before.tiles(live),
        after.spec_id() == before.spec_id(),
        after.spec_capacity() == before.spec_capacity(),
        after.spec_alignment() == before.spec_alignment(),
        region.wf(),
        region.spec_owner() == before.spec_id(),
        region.spec_alignment() == before.spec_alignment(),
        region.spec_end() <= before.spec_capacity(),
        forall|b: int| #[trigger] region.covers(b) ==> before.is_free(b),
        forall|b: int| #[trigger] after.is_free(b) <==> (before.is_free(b) && !region.covers(b)),
    ensures
        after.tiles(live.push(region)),
{
    let nl = live.push(region);
    assert forall|j: int| #![trigger nl[j]] 0 <= j < nl.len() implies {
        &&& nl[j].wf()
        &&& nl[j].spec_owner() == after.spec_id()
        &&& nl[j].spec_alignment() == after.spec_alignment()
        &&& nl[j].spec_end() <= after.spec_capacity()
    } by {
        if j < live.len() {
            assert(nl[j] == live[j]);
        }
    }
    assert forall|b: int| 0 <= b < after.spec_capacity() implies #[trigger] after.is_free(b) || exists|j: int|
        0 <= j < nl.len() && #[trigger] nl[j].covers(b) by {
        if !after.is_free(b) {
            if region.covers(b) {
                assert(nl[live.len() as int].covers(b));
            } else {
                assert(!before.is_free(b));
                let j = choose|j: int| 0 <= j < live.len() && #[trigger] live[j].covers(b);
                assert(nl[j].covers(b));
            }
        }
    }
    assert forall|j: int, b: int| 0 <= j < nl.len() && #[trigger] nl[j].covers(b) implies !after.is_free(b) by {
        if j < live.len() {
            assert(live[j].covers(b));
        }
    }
    assert forall|j1: int, j2: int| #![trigger nl[j1], nl[j2]] 0 <= j1 < j2 < nl.len() implies leases_disjoint(
        nl[j1],
        nl[j2],
    ) by {
        if j2 == live.len() {
            let l = live[j1];
            if !leases_disjoint(l, region) {
                let b = if l.spec_offset() < region.spec_offset() {
                    region.spec_offset()
                } else {
                    l.spec_offset()
                };
                assert(l.covers(b));
                assert(region.covers(b));
            }
        } else {
            assert(leases_disjoint(live[j1], live[j2]));
        }
    }
}

/// Release keeps the partition: the lease's bytes become free and the lease
/// leaves the set of live ones.
pub proof fn lemma_deallocate_tiles(before: &Megabuffer, after: &Megabuffer, live: Seq<AllocatedMegabufferRegion>, j: int)
    requires
        before.wf(),
        after.wf(),
        before.tiles(live),
        0 <= j < live.len(),
        after.spec_id() == before.spec_id(),
        after.spec_capacity() == before.spec_capacity(),
        after.spec_alignment() == before.spec_alignment(),
        forall|b: int| #[trigger] after.is_free(b) <==> (before.is_free(b) || live[j].covers(b)),
    ensures
        after.tiles(live.remove(j)),
{
    let nl = live.remove(j);
    assert forall|x: int| #![trigger nl[x]] 0 <= x < nl.len() implies {
        &&& nl[x].wf()
        &&& nl[x].spec_owner() == after.spec_id()
        &&& nl[x].spec_alignment() == after.spec_alignment()
        &&& nl[x].spec_end() <= after.spec_capacity()
    } by {
        let o = if x < j { x } else { x + 1 };
        assert(nl[x] == live[o]);
    }
    assert forall|b: int| 0 <= b < after.spec_capacity() implies #[trigger] after.is_free(b) || exists|x: int|
        0 <= x < nl.len() && #[trigger] nl[x].covers(b) by {
        if !after.is_free(b) {
            assert(!before.is_free(b));
            let o = choose|o: int| 0 <= o < live.len() && #[trigger] live[o].covers(b);
            assert(o != j);
            let x = if o < j { o } else { o - 1 };
            assert(nl[x].covers(b));
        }
    }
    assert forall|x: int, b: int| 0 <= x < nl.len() && #[trigger] nl[x].covers(b) implies !after.is_free(b) by {
        let o = if x < j { x } else { x + 1 };
        assert(live[o].covers(b));
        assert(!before.is_free(b));
        let l = live[j];
        let (lo, hi) = if o < j { (o, j) } else { (j, o) };
        assert(leases_disjoint(live[lo], live[hi]));
    }
    assert forall|x1: int, x2: int| #![trigger nl[x1], nl[x2]] 0 <= x1 < x2 < nl.len() implies leases_disjoint(
        nl[x1],
        nl[x2],
    ) by {
        let o1 = if x1 < j { x1 } else { x1 + 1 };
        let o2 = if x2 < j { x2 } else { x2 + 1 };
        assert(leases_disjoint(live[o1], live[o2]));
    }
}

/// Splitting a live lease keeps the partition: the two pieces together
/// hold exactly the bytes of the lease they came from.
pub proof fn lemma_suballocate_tiles(
    m: &Megabuffer,
    live: Seq<AllocatedMegabufferRegion>,
    j: int,
    parent: AllocatedMegabufferRegion,
    sub: AllocatedMegabufferRegion,
)
    requires
        m.wf(),
        m.tiles(live),
        0 <= j < live.len(),
        parent.wf(),
        sub.wf(),
        parent.spec_owner() == live[j].spec_owner(),
        sub.spec_owner() == live[j].spec_owner(),
        parent.spec_alignment() == live[j].spec_alignment(),
        sub.spec_alignment() == live[j].spec_alignment(),
        parent.spec_offset() == live[j].spec_offset(),
        parent.spec_size() + sub.spec_size() == live[j].spec_size(),
        sub.spec_offset() == live[j].spec_end() - sub.spec_size(),
    ensures
        m.tiles(live.update(j, parent).push(sub)),
{
    let nl = live.update(j, parent).push(sub);
    let l = live[j];
    assert forall|x: int| #![trigger nl[x]] 0 <= x < nl.len() implies {
        &&& nl[x].wf()
        &&& nl[x].spec_owner() == m.spec_id()
        &&& nl[x].spec_alignment() == m.spec_alignment()
        &&& nl[x].spec_end() <= m.spec_capacity()
    } by {
        if x < live.len() && x != j {
            assert(nl[x] == live[x]);
        }
    }
    assert forall|b: int| 0 <= b < m.spec_capacity() implies #[trigger] m.is_free(b) || exists|x: int|
        0 <= x < nl.len() && #[trigger] nl[x].covers(b) by {
        if !m.is_free(b) {
            let o = choose|o: int| 0 <= o < live.len() && #[trigger] live[o].covers(b);
            if o == j {
                if parent.covers(b) {
                    assert(nl[j].covers(b));
                } else {
                    assert(nl[live.len() as int].covers(b));
                }
            } else {
                assert(nl[o].covers(b));
            }
        }
    }
    assert forall|x: int, b: int| 0 <= x < nl.len() && #[trigger] nl[x].covers(b) implies !m.is_free(b) by {
        if x == j || x == live.len() {
            assert(l.covers(b));
        } else {
            assert(live[x].covers(b));
        }
    }
    assert forall|x1: int, x2: int| #![trigger nl[x1], nl[x2]] 0 <= x1 < x2 < nl.len() implies leases_disjoint(
        nl[x1],
        nl[x2],
    ) by {
        let o1 = if x1 == live.len() { j } else { x1 };
        let o2 = if x2 == live.len() { j } else { x2 };
        if o1 != o2 {
            let (a, c) = if o1 < o2 { (o1, o2) } else { (o2, o1) };
            assert(leases_disjoint(live[a], live[c]));
        }
    }
}

/// Merging two adjacent live leases keeps the partition: the merged lease
/// holds exactly the bytes of the two.
pub proof fn lemma_merge_tiles(
    m: &Megabuffer,
    live: Seq<AllocatedMegabufferRegion>,
    j1: int,
    j2: int,
    merged: AllocatedMegabufferRegion,
)
    requires
        m.wf(),
        m.tiles(live),
        0 <= j1 < live.len(),
        0 <= j2 < live.len(),
        j1 != j2,
        live[j1].is_adjacent(&live[j2]),
        merged.wf(),
        merged.spec_owner() == live[j1].spec_owner(),
        merged.spec_alignment() == live[j1].spec_alignment(),
        merged.spec_size() == live[j1].spec_size() + live[j2].spec_size(),
        merged.spec_offset() == if live[j1].spec_offset() < live[j2].spec_offset() {
            live[j1].spec_offset()
        } else {
            live[j2].spec_offset()
        },
    ensures
        m.tiles(live.update(j1, merged).remove(j2)),
{
    let upd = live.update(j1, merged);
    let nl = upd.remove(j2);
    let a = live[j1];
    let c = live[j2];
    assert forall|b: int| #[trigger] merged.covers(b) <==> (a.covers(b) || c.covers(b)) by {}
    let orig = |x: int| if x < j2 { x } else { x + 1 };
    assert forall|x: int| 0 <= x < nl.len() implies #[trigger] nl[x] == upd[orig(x)] by {}
    assert forall|x: int| #![trigger nl[x]] 0 <= x < nl.len() implies {
        &&& nl[x].wf()
        &&& nl[x].spec_owner() == m.spec_id()
        &&& nl[x].spec_alignment() == m.spec_alignment()
        &&& nl[x].spec_end() <= m.spec_capacity()
    } by {
        assert(nl[x] == upd[orig(x)]);
        if orig(x) != j1 {
            assert(upd[orig(x)] == live[orig(x)]);
        }
    }
    let mi = if j1 < j2 { j1 } else { j1 - 1 };
    assert(nl[mi] == merged);
    assert forall|b: int| 0 <= b < m.spec_capacity() implies #[trigger] m.is_free(b) || exists|x: int|
        0 <= x < nl.len() && #[trigger] nl[x].covers(b) by {
        if !m.is_free(b) {
            let o = choose|o: int| 0 <= o < live.len() && #[trigger] live[o].covers(b);
            if o == j1 || o == j2 {
                assert(nl[mi].covers(b));
            } else {
                let x = if o < j2 { o } else { o - 1 };
                assert(nl[x] == live[o]);
                assert(nl[x].covers(b));
            }
        }
    }
    assert forall|x: int, b: int| 0 <= x < nl.len() && #[trigger] nl[x].covers(b) implies !m.is_free(b) by {
        assert(nl[x] == upd[orig(x)]);
        if orig(x) == j1 {
            if a.covers(b) {
                assert(live[j1].covers(b));
            } else {
                assert(live[j2].covers(b));
            }
        } else {
            assert(live[orig(x)].covers(b));
        }
    }
    assert forall|x1: int, x2: int| #![trigger nl[x1], nl[x2]] 0 <= x1 < x2 < nl.len() implies leases_disjoint(
        nl[x1],
        nl[x2],
    ) by {
        let o1 = orig(x1);
        let o2 = orig(x2);
        assert(nl[x1] == upd[o1] && nl[x2] == upd[o2]);
        assert(o1 != o2 && o1 != j2 && o2 != j2);
        if o1 != j1 && o2 != j1 {
            assert(leases_disjoint(live[o1], live[o2]));
        } else {
            let other = if o1 == j1 { o2 } else { o1 };
            let (p, q) = if other < j1 { (other, j1) } else { (j1, other) };
            let (u, v) = if other < j2 { (other, j2) } else { (j2, other) };
            assert(leases_disjoint(live[p], live[q]));
            assert(leases_disjoint(live[u], live[v]));
        }
    }
}

/// Under the partition, a live lease that is not empty is one that the
/// megabuffer holds, so its release is never refused.
pub proof fn lemma_live_lease_releasable(m: &Megabuffer, live: Seq<AllocatedMegabufferRegion>, j: int)
    requires
        m.wf(),
        m.tiles(live),
        0 <= j < live.len(),
        live[j].spec_size() > 0,
    ensures
        m.holds(&live[j]),
{
    let l = live[j];
    assert forall|i: int| 0 <= i < m.free_list().len() implies #[trigger] m.free_list()[i].end() <= l.spec_offset()
        || l.spec_end() <= m.free_list()[i].offset by {
        let f = m.free_list()[i];
        if !(f.end() <= l.spec_offset() || l.spec_end() <= f.offset) {
            let b = if f.offset < l.spec_offset() {
                l.spec_offset()
            } else {
                f.offset as int
            };
            assert(f.contains(b));
            assert(l.covers(b));
        }
    }
}

/// Coalescing: from an empty buffer of `capacity` bytes, three leases of `a`
/// bytes each are taken by first fit (at 0, `a` and `2a`) and returned in the
/// order middle, first, last; the free list ends as one region spanning the
/// whole buffer, the three ranges included.
pub proof fn lemma_coalesce_three(
    capacity: u64,
    a: int,
    k1: int,
    k2: int,
    k3: int,
    split1: int,
    split2: int,
    split3: int,
)
    requires
        0 < a,
        3 * a <= capacity,
        first_fit(seq![FreeMegabufferRegion { offset: 0, size: capacity }], k1, a),
        first_fit(take_front(seq![FreeMegabufferRegion { offset: 0, size: capacity }], k1, a), k2, a),
        first_fit(take_front(take_front(seq![FreeMegabufferRegion { offset: 0, size: capacity }], k1, a), k2, a), k3, a),
        split_point(
            take_front(take_front(take_front(seq![FreeMegabufferRegion { offset: 0, size: capacity }], k1, a), k2, a), k3, a),
            split1,
            a,
        ),
        split_point(
            release_at(
                take_front(take_front(take_front(seq![FreeMegabufferRegion { offset: 0, size: capacity }], k1, a), k2, a), k3, a),
                split1,
                a,
                a,
            ),
            split2,
            0,
        ),
        split_point(
            release_at(
                release_at(
                    take_front(take_front(take_front(seq![FreeMegabufferRegion { offset: 0, size: capacity }], k1, a), k2, a), k3, a),
                    split1,
                    a,
                    a,
                ),
                split2,
                0,
                a,
            ),
            split3,
            2 * a,
        ),
    ensures
        release_at(
            release_at(
                release_at(
                    take_front(take_front(take_front(seq![FreeMegabufferRegion { offset: 0, size: capacity }], k1, a), k2, a), k3, a),
                    split1,
                    a,
                    a,
                ),
                split2,
                0,
                a,
            ),
            split3,
            2 * a,
            a,
        ) == seq![FreeMegabufferRegion { offset: 0, size: capacity }],
{
    let fl0 = seq![FreeMegabufferRegion { offset: 0, size: capacity }];
    let fl1 = take_front(fl0, k1, a);
    let fl2 = take_front(fl1, k2, a);
    let fl3 = take_front(fl2, k3, a);
    assert(fl1 == seq![FreeMegabufferRegion { offset: a as u64, size: (capacity - a) as u64 }]);
    assert(fl2 == seq![FreeMegabufferRegion { offset: (2 * a) as u64, size: (capacity - 2 * a) as u64 }]);
    let fl4 = release_at(fl3, split1, a, a);
    let fl5 = release_at(fl4, split2, 0, a);
    let fl6 = release_at(fl5, split3, 2 * a, a);
    if capacity == 3 * a {
        assert(fl3 =~= Seq::<FreeMegabufferRegion>::empty());
        assert(split1 == 0);
        assert(fl4 =~= seq![FreeMegabufferRegion { offset: a as u64, size: a as u64 }]);
        assert(split2 == 0);
        assert(fl5 =~= seq![FreeMegabufferRegion { offset: 0, size: (2 * a) as u64 }]);
        assert(split3 == 1);
        assert(fl6 =~= seq![FreeMegabufferRegion { offset: 0, size: capacity }]);
    } else {
        let rest = FreeMegabufferRegion { offset: (3 * a) as u64, size: (capacity - 3 * a) as u64 };
        assert(fl3 == seq![rest]);
        assert(split1 == 0);
        assert(fl4 =~= seq![FreeMegabufferRegion { offset: a as u64, size: a as u64 }, rest]);
        assert(split2 == 0);
        assert(fl5 =~= seq![FreeMegabufferRegion { offset: 0, size: (2 * a) as u64 }, rest]);
        assert(split3 == 1);
        assert(fl6 =~= seq![FreeMegabufferRegion { offset: 0, size: capacity }]);
    }
}

/// The staging bytes after `data` is copied in at `offset`.
pub open spec fn stage(staging: Seq<u8>, offset: int, data: Seq<u8>) -> Seq<u8> {
    Seq::new(staging.len(), |i: int| if offset <= i < offset + data.len() { data[i - offset] } else { staging[i] })
}

/// The device bytes after one copy command from `staging`.
pub open spec fn apply_copy(device: Seq<u8>, staging: Seq<u8>, c: BufferCopy) -> Seq<u8> {
    Seq::new(
        device.len(),
        |i: int|
            if c.dst_offset <= i < c.dst_offset + c.size {
                staging[i - c.dst_offset + c.src_offset]
            } else {
                device[i]
            },
    )
}

/// The device bytes after the copy commands, performed in order.
pub open spec fn apply_copies(device: Seq<u8>, staging: Seq<u8>, copies: Seq<BufferCopy>) -> Seq<u8>
    decreases copies.len(),
{
    if copies.len() == 0 {
        device
    } else {
        apply_copy(apply_copies(device, staging, copies.drop_last()), staging, copies.last())
    }
}

/// Copies that keep each byte at its offset and stay inside `len` bytes.
pub open spec fn in_place_copies(copies: Seq<BufferCopy>, len: int) -> bool {
    forall|k: int|
        #![trigger copies[k]]
        0 <= k < copies.len() ==> copies[k].src_offset == copies[k].dst_offset && copies[k].dst_offset
            + copies[k].size <= len
}

/// Some copy command writes device byte `i`.
pub open spec fn copied(copies: Seq<BufferCopy>, i: int) -> bool {
    exists|k: int| 0 <= k < copies.len() && #[trigger] copies[k].dst_offset <= i < copies[k].dst_offset + copies[k].size
}

proof fn lemma_apply_in_place(device: Seq<u8>, staging: Seq<u8>, copies: Seq<BufferCopy>)
    requires
        device.len() == staging.len(),
        in_place_copies(copies, device.len() as int),
    ensures
        apply_copies(device, staging, copies).len() == device.len(),
        forall|i: int|
            0 <= i < device.len() ==> #[trigger] apply_copies(device, staging, copies)[i] == if copied(copies, i) {
                staging[i]
            } else {
                device[i]
            },
    decreases copies.len(),
{
    if copies.len() > 0 {
        let rest = copies.drop_last();
        assert forall|k: int| #![trigger rest[k]] 0 <= k < rest.len() implies rest[k].src_offset == rest[k].dst_offset
            && rest[k].dst_offset + rest[k].size <= device.len() by {
            assert(rest[k] == copies[k]);
        }
        lemma_apply_in_place(device, staging, rest);
        let c = copies.last();
        assert(copies[copies.len() - 1] == c);
        assert forall|i: int| 0 <= i < device.len() implies #[trigger] apply_copies(device, staging, copies)[i]
            == if copied(copies, i) {
            staging[i]
        } else {
            device[i]
        } by {
            let inner = apply_copies(device, staging, rest);
            assert(inner[i] == if copied(rest, i) {
                staging[i]
            } else {
                device[i]
            });
            if copied(rest, i) {
                let k = choose|k: int| 0 <= k < rest.len() && #[trigger] rest[k].dst_offset <= i < rest[k].dst_offset + rest[k].size;
                assert(copies[k] == rest[k]);
            }
            if copied(copies, i) {
                let k = choose|k: int|
                    0 <= k < copies.len() && #[trigger] copies[k].dst_offset <= i < copies[k].dst_offset + copies[k].size;
                if k < rest.len() {
                    assert(rest[k] == copies[k]);
                }
            }
        }
    }
}

/// Round trip: once `data` is staged at a range that a write recorded,
/// performing the upload's copies leaves exactly `data` in the device bytes
/// of that range, whatever the device held before.
pub proof fn lemma_round_trip(m: &Megabuffer, k: int, staging: Seq<u8>, device: Seq<u8>, data: Seq<u8>)
    requires
        m.wf(),
        0 <= k < m.pending().len(),
        staging.len() == m.spec_capacity(),
        device.len() == m.spec_capacity(),
        data.len() == m.pending()[k].size,
    ensures
        ({
            let c = m.pending()[k];
            let staged = stage(staging, c.dst_offset as int, data);
            apply_copies(device, staged, m.pending()).subrange(c.dst_offset as int, c.dst_offset + c.size) == data
        }),
{
    let c = m.pending()[k];
    let staged = stage(staging, c.dst_offset as int, data);
    let copies = m.pending();
    assert(in_place_copies(copies, device.len() as int));
    lemma_apply_in_place(device, staged, copies);
    let out = apply_copies(device, staged, copies);
    assert forall|i: int| 0 <= i < data.len() implies #[trigger] out.subrange(c.dst_offset as int, c.dst_offset
        + c.size)[i] == data[i] by {
        let x = c.dst_offset + i;
        assert(copies[k].dst_offset <= x < copies[k].dst_offset + copies[k].size);
        assert(out[x] == staged[x]);
    }
    assert(out.subrange(c.dst_offset as int, c.dst_offset + c.size) == data);
}

} // verus!
