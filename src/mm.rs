//! Address spaces: mapped areas with their backing memory, and translation of
//! user virtual-address ranges into kernel-held bytes.
use vstd::prelude::*;

use crate::config::{APP_BASE, MAX_APP_SIZE, PAGE_SIZE, USER_END, USER_END_VPN, USER_STACK_SIZE};

verus! {

/// Access rights of a mapped area.
#[derive(Clone, Copy, PartialEq, Eq, Structural, Debug)]
pub struct MapPermission {
    pub r: bool,
    pub w: bool,
    pub x: bool,
    pub u: bool,
}

impl MapPermission {
    /// Rights encoded in the low three bits of `port` (bit 0 read, bit 1 write,
    /// bit 2 execute), always user-accessible.
    pub fn from_port(port: usize) -> (r: MapPermission)
        ensures
            r.r == (port & 1 != 0),
            r.w == (port & 2 != 0),
            r.x == (port & 4 != 0),
            r.u,
    {
        MapPermission { r: port & 1 != 0, w: port & 2 != 0, x: port & 4 != 0, u: true }
    }
}

/// A contiguous range of virtual pages `[start_vpn, end_vpn)` with uniform
/// rights; `data` holds the bytes of its pages in virtual order.
pub struct MapArea {
    pub start_vpn: usize,
    pub end_vpn: usize,
    pub perm: MapPermission,
    pub data: Vec<u8>,
}

pub open spec fn page_aligned(va: int) -> bool {
    va % PAGE_SIZE as int == 0
}

/// Page number of the page that holds `va`.
pub open spec fn vpn_of(va: int) -> int {
    va / PAGE_SIZE as int
}

/// Number of the first page at or above `va`.
pub open spec fn vpn_ceil(va: int) -> int {
    (va + PAGE_SIZE as int - 1) / PAGE_SIZE as int
}

/// Two page ranges share a page.
pub open spec fn spans_overlap(s1: int, e1: int, s2: int, e2: int) -> bool {
    s1 < e1 && s2 < e2 && s1 < e2 && s2 < e1
}

impl MapArea {
    pub open spec fn wf(&self) -> bool {
        &&& self.start_vpn <= self.end_vpn <= USER_END_VPN
        &&& self.data@.len() == (self.end_vpn - self.start_vpn) * PAGE_SIZE
    }

    pub open spec fn contains(&self, vpn: int) -> bool {
        self.start_vpn <= vpn < self.end_vpn
    }

    pub open spec fn span(&self) -> (int, int) {
        (self.start_vpn as int, self.end_vpn as int)
    }

    /// The area's byte at virtual address `va`.
    pub open spec fn byte(&self, va: int) -> u8 {
        self.data@[va - self.start_vpn * PAGE_SIZE]
    }

    /// A fresh area of zeroed pages.
    fn new_zeroed(start_vpn: usize, end_vpn: usize, perm: MapPermission) -> (r: MapArea)
        requires
            start_vpn <= end_vpn <= USER_END_VPN,
        ensures
            r.wf(),
            r.start_vpn == start_vpn,
            r.end_vpn == end_vpn,
            r.perm == perm,
            forall|k: int| 0 <= k < r.data@.len() ==> r.data@[k] == 0,
    {
        let n: usize = (end_vpn - start_vpn) * PAGE_SIZE;
        let mut data: Vec<u8> = Vec::with_capacity(n);
        let mut i: usize = 0;
        while i < n
            invariant
                i <= n,
                data@.len() == i,
                forall|k: int| 0 <= k < i ==> data@[k] == 0,
            decreases n - i,
        {
            data.push(0);
            i = i + 1;
        }
        MapArea { start_vpn, end_vpn, perm, data }
    }

    /// A copy of this area with its own backing bytes.
    fn duplicate(&self) -> (r: MapArea)
        ensures
            r.start_vpn == self.start_vpn,
            r.end_vpn == self.end_vpn,
            r.perm == self.perm,
            r.data@ == self.data@,
    {
        MapArea {
            start_vpn: self.start_vpn,
            end_vpn: self.end_vpn,
            perm: self.perm,
            data: self.data.clone(),
        }
    }
}

/// Pages of the image in a fresh address space for an image of `len` bytes.
pub open spec fn code_pages(len: nat) -> int {
    if len == 0 {
        1
    } else {
        vpn_ceil(len as int)
    }
}

/// Spans of a fresh address space for an image of `len` bytes whose stack
/// ends at `sp`: the empty heap, the image, and the stack.
pub open spec fn image_spans(len: nat, sp: int) -> Seq<(int, int)> {
    let code_start = vpn_of(APP_BASE as int);
    seq![
        (vpn_of(sp), vpn_of(sp)),
        (code_start, code_start + code_pages(len)),
        (vpn_of(sp) - USER_STACK_SIZE / PAGE_SIZE, vpn_of(sp)),
    ]
}

/// Stack top, heap origin and program break of a fresh address space for
/// an image of `len` bytes: the image pages, a guard page, then the stack.
pub open spec fn image_sp(len: nat) -> int {
    (vpn_of(APP_BASE as int) + code_pages(len) + 1) * PAGE_SIZE + USER_STACK_SIZE
}

/// `ms` is the fresh address space for `image`: its areas are the empty
/// heap, the image (read and execute) and the stack (read and write) at
/// `image_spans`; the image's bytes are at `APP_BASE` and every other mapped
/// byte is 0.
pub open spec fn is_image_space(ms: MemorySet, image: Seq<u8>) -> bool {
    let sp = image_sp(image.len());
    &&& ms.wf()
    &&& ms.heap_bottom == sp
    &&& ms.program_brk == sp
    &&& ms.spans() == image_spans(image.len(), sp)
    &&& ms.areas@[1].perm == (MapPermission { r: true, w: false, x: true, u: true })
    &&& ms.areas@[2].perm == heap_perm()
    &&& ms.bytes(APP_BASE as int, image.len()) == image
    &&& forall|a: int|
        ms.mapped(vpn_of(a)) && !(APP_BASE <= a < APP_BASE + image.len()) ==> #[trigger] ms.byte_at(a)
            == 0
}

/// Rights of the heap area: user read and write.
pub open spec fn heap_perm() -> MapPermission {
    MapPermission { r: true, w: true, x: false, u: true }
}

/// Why an area could not be inserted or removed.
#[derive(Clone, Copy, PartialEq, Eq, Structural, Debug)]
pub enum MapError {
    /// An end of the range is not on a page boundary.
    Misaligned,
    /// The range holds no page, or reaches past user space.
    BadRange,
    /// The range shares a page with a mapped area.
    Overlap,
    /// No mapped area has exactly this span.
    NotMapped,
}

/// One address space. `areas[0]` is the heap, which starts at `heap_bottom`
/// and covers the pages up to the program break; it may hold no page.
pub struct MemorySet {
    pub areas: Vec<MapArea>,
    pub heap_bottom: usize,
    pub program_brk: usize,
}

/// The page spans of a sequence of areas.
pub open spec fn spans_of(areas: Seq<MapArea>) -> Seq<(int, int)> {
    areas.map_values(|a: MapArea| a.span())
}

/// Some span in `spans` shares a page with `[s, e)`.
pub open spec fn overlaps_any(spans: Seq<(int, int)>, s: int, e: int) -> bool {
    exists|i: int| 0 <= i < spans.len() && spans_overlap(spans[i].0, spans[i].1, s, e)
}

/// Inserting the byte range `[start, end)` into an address space with these
/// spans succeeds.
pub open spec fn can_insert(spans: Seq<(int, int)>, start: int, end: int) -> bool {
    &&& page_aligned(start)
    &&& page_aligned(end)
    &&& start < end <= USER_END
    &&& !overlaps_any(spans, vpn_of(start), vpn_of(end))
}

/// Index of an area, the heap included, whose span is exactly `[s, e)`.
pub open spec fn removable_at(spans: Seq<(int, int)>, i: int, s: int, e: int) -> bool {
    0 <= i < spans.len() && spans[i] == (s, e)
}

/// Removing the byte range `[start, end)` from an address space with these
/// spans succeeds: both ends are page-aligned and some area has exactly
/// this span.
pub open spec fn can_remove(spans: Seq<(int, int)>, start: int, end: int) -> bool {
    &&& page_aligned(start)
    &&& page_aligned(end)
    &&& exists|i: int| #[trigger] removable_at(spans, i, vpn_of(start), vpn_of(end))
}

/// Spans after removing area `i`: the heap (`i == 0`) is emptied in place,
/// any other area leaves the list.
pub open spec fn spans_after_remove(spans: Seq<(int, int)>, i: int) -> Seq<(int, int)> {
    if i == 0 {
        spans.update(0, (spans[0].0, spans[0].0))
    } else {
        spans.remove(i)
    }
}

pub open spec fn pairwise_disjoint(spans: Seq<(int, int)>) -> bool {
    forall|i: int, j: int|
        0 <= i < spans.len() && 0 <= j < spans.len() && i != j ==> !spans_overlap(
            #[trigger] spans[i].0,
            spans[i].1,
            #[trigger] spans[j].0,
            spans[j].1,
        )
}

/// The contents of a list of byte vectors.
pub open spec fn chunk_views(c: Seq<Vec<u8>>) -> Seq<Seq<u8>> {
    c.map_values(|v: Vec<u8>| v@)
}

/// The concatenation of a list of byte sequences.
pub open spec fn flatten(s: Seq<Seq<u8>>) -> Seq<u8>
    decreases s.len(),
{
    if s.len() == 0 {
        Seq::empty()
    } else {
        flatten(s.drop_last()) + s.last()
    }
}

impl MemorySet {
    pub open spec fn spans(&self) -> Seq<(int, int)> {
        spans_of(self.areas@)
    }

    pub open spec fn wf(&self) -> bool {
        &&& self.areas@.len() >= 1
        &&& forall|i: int| 0 <= i < self.areas@.len() ==> (#[trigger] self.areas@[i]).wf()
        &&& pairwise_disjoint(self.spans())
        &&& self.areas@[0].start_vpn * PAGE_SIZE == self.heap_bottom
        &&& self.heap_bottom <= self.program_brk <= USER_END
        &&& self.areas@[0].end_vpn == vpn_ceil(self.program_brk as int)
        &&& self.areas@[0].perm == heap_perm()
    }

    /// Some area maps page `vpn`.
    pub open spec fn mapped(&self, vpn: int) -> bool {
        exists|i: int| 0 <= i < self.areas@.len() && (#[trigger] self.areas@[i]).contains(vpn)
    }

    /// Index of the area that maps page `vpn`.
    pub open spec fn area_index(&self, vpn: int) -> int {
        choose|i: int| 0 <= i < self.areas@.len() && (#[trigger] self.areas@[i]).contains(vpn)
    }

    /// Byte of user memory at `va`; meaningful where its page is mapped.
    pub open spec fn byte_at(&self, va: int) -> u8 {
        self.areas@[self.area_index(vpn_of(va))].byte(va)
    }

    /// Page `vpn` is mapped user-accessible, readable (or, with `write`,
    /// writable).
    pub open spec fn page_ok(&self, vpn: int, write: bool) -> bool {
        &&& self.mapped(vpn)
        &&& self.areas@[self.area_index(vpn)].perm.u
        &&& if write {
            self.areas@[self.area_index(vpn)].perm.w
        } else {
            self.areas@[self.area_index(vpn)].perm.r
        }
    }

    /// Every byte of `[va, va + len)` lies on a page that allows the access.
    pub open spec fn range_ok(&self, va: int, len: int, write: bool) -> bool {
        forall|k: int| 0 <= k < len ==> #[trigger] self.page_ok(vpn_of(va + k), write)
    }

    /// The bytes of `[va, va + len)` in virtual order.
    pub open spec fn bytes(&self, va: int, len: nat) -> Seq<u8> {
        Seq::new(len, |k: int| self.byte_at(va + k))
    }

    /// The area that maps a page is the one `area_index` names.
    pub proof fn lemma_area_index(&self, i: int, vpn: int)
        requires
            self.wf(),
            0 <= i < self.areas@.len(),
            self.areas@[i].contains(vpn),
        ensures
            self.mapped(vpn),
            self.area_index(vpn) == i,
    {
        assert(self.mapped(vpn));
        let j = self.area_index(vpn);
        if j != i {
            assert(self.spans()[i].0 == self.areas@[i].start_vpn);
            assert(self.spans()[j].0 == self.areas@[j].start_vpn);
        }
    }

    /// Index of the area that maps page `vpn`, if any.
    pub fn find_area(&self, vpn: usize) -> (r: Option<usize>)
        requires
            self.wf(),
        ensures
            r.is_some() == self.mapped(vpn as int),
            r matches Some(i) ==> i < self.areas@.len() && i == self.area_index(vpn as int)
                && self.areas@[i as int].contains(vpn as int),
    {
        let mut i: usize = 0;
        while i < self.areas.len()
            invariant
                self.wf(),
                i <= self.areas@.len(),
                forall|j: int| 0 <= j < i ==> !(#[trigger] self.areas@[j]).contains(vpn as int),
            decreases self.areas@.len() - i,
        {
            let a = &self.areas[i];
            if a.start_vpn <= vpn && vpn < a.end_vpn {
                proof {
                    self.lemma_area_index(i as int, vpn as int);
                }
                return Some(i);
            }
            i = i + 1;
        }
        None
    }

    /// Some area shares a page with `[s, e)`.
    fn overlaps(&self, s: usize, e: usize) -> (r: bool)
        ensures
            r == overlaps_any(self.spans(), s as int, e as int),
    {
        let mut i: usize = 0;
        while i < self.areas.len()
            invariant
                i <= self.areas@.len(),
                forall|j: int|
                    0 <= j < i ==> !spans_overlap(
                        #[trigger] self.spans()[j].0,
                        self.spans()[j].1,
                        s as int,
                        e as int,
                    ),
            decreases self.areas@.len() - i,
        {
            let a = &self.areas[i];
            assert(self.spans()[i as int] == a.span());
            if s < e && a.start_vpn < a.end_vpn && a.start_vpn < e && s < a.end_vpn {
                return true;
            }
            i = i + 1;
        }
        false
    }

    /// Maps the byte range `[start, end)` as a new area of zeroed pages with
    /// the given rights plus user access.
    pub fn insert_area(&mut self, start: usize, end: usize, perm: MapPermission) -> (r: Result<
        (),
        MapError,
    >)
        requires
            old(self).wf(),
        ensures
            final(self).wf(),
            r.is_ok() == can_insert(old(self).spans(), start as int, end as int),
            r is Err ==> *final(self) == *old(self),
            r is Ok ==> {
                &&& final(self).spans() == old(self).spans().push(
                    (vpn_of(start as int), vpn_of(end as int)),
                )
                &&& final(self).heap_bottom == old(self).heap_bottom
                &&& final(self).program_brk == old(self).program_brk
                &&& forall|i: int|
                    0 <= i < old(self).areas@.len() ==> #[trigger] final(self).areas@[i]
                        == old(self).areas@[i]
                &&& final(self).areas@.last().perm == (MapPermission { u: true, ..perm })
                &&& forall|k: int|
                    0 <= k < final(self).areas@.last().data@.len()
                        ==> final(self).areas@.last().data@[k] == 0
            },
            r == Err::<(), MapError>(MapError::Misaligned) <==> !(page_aligned(start as int)
                && page_aligned(end as int)),
            r == Err::<(), MapError>(MapError::Overlap) <==> (page_aligned(start as int)
                && page_aligned(end as int) && start < end <= USER_END && overlaps_any(
                old(self).spans(),
                vpn_of(start as int),
                vpn_of(end as int),
            )),
            r == Err::<(), MapError>(MapError::BadRange) <==> (page_aligned(start as int)
                && page_aligned(end as int) && !(start < end <= USER_END)),
    {
        if start % PAGE_SIZE != 0 || end % PAGE_SIZE != 0 {
            return Err(MapError::Misaligned);
        }
        if !(start < end && end <= USER_END) {
            return Err(MapError::BadRange);
        }
        let s = start / PAGE_SIZE;
        let e = end / PAGE_SIZE;
        if self.overlaps(s, e) {
            return Err(MapError::Overlap);
        }
        let area = MapArea::new_zeroed(
            s,
            e,
            MapPermission { r: perm.r, w: perm.w, x: perm.x, u: true },
        );
        let ghost old_spans = self.spans();
        self.areas.push(area);
        proof {
            assert(self.spans() =~= old_spans.push((s as int, e as int)));
            assert forall|i: int| 0 <= i < self.areas@.len() implies (#[trigger] self.areas@[
                i
            ]).wf() by {
                if i < old_spans.len() {
                    assert(old(self).areas@[i].wf());
                }
            }
            assert forall|i: int, j: int|
                0 <= i < self.spans().len() && 0 <= j < self.spans().len() && i != j
                    implies !spans_overlap(
                #[trigger] self.spans()[i].0,
                self.spans()[i].1,
                #[trigger] self.spans()[j].0,
                self.spans()[j].1,
            ) by {
                if i < old_spans.len() && j < old_spans.len() {
                    assert(!spans_overlap(
                        old_spans[i].0,
                        old_spans[i].1,
                        old_spans[j].0,
                        old_spans[j].1,
                    ));
                } else if i < old_spans.len() {
                    assert(!spans_overlap(old_spans[i].0, old_spans[i].1, s as int, e as int));
                } else {
                    assert(!spans_overlap(old_spans[j].0, old_spans[j].1, s as int, e as int));
                }
            }
        }
        Ok(())
    }

    /// Unmaps the area whose span is exactly the byte range `[start, end)`,
    /// releasing its memory. Unmapping the heap empties it and puts the
    /// program break back at the heap origin.
    pub fn remove_area(&mut self, start: usize, end: usize) -> (r: Result<(), MapError>)
        requires
            old(self).wf(),
        ensures
            final(self).wf(),
            r.is_ok() == can_remove(old(self).spans(), start as int, end as int),
            r is Err ==> *final(self) == *old(self),
            r is Ok ==> final(self).heap_bottom == old(self).heap_bottom,
            r is Ok ==> exists|i: int| {
                &&& #[trigger] removable_at(old(self).spans(), i, vpn_of(start as int), vpn_of(end as int))
                &&& final(self).spans() == spans_after_remove(old(self).spans(), i)
                &&& i >= 1 ==> final(self).areas@ == old(self).areas@.remove(i)
                    && final(self).program_brk == old(self).program_brk
                &&& i == 0 ==> {
                    &&& final(self).program_brk == final(self).heap_bottom
                    &&& final(self).areas@.len() == old(self).areas@.len()
                    &&& final(self).areas@[0].perm == old(self).areas@[0].perm
                    &&& final(self).areas@[0].data@.len() == 0
                    &&& forall|j: int| 1 <= j < old(self).areas@.len() ==> #[trigger] final(self).areas@[j] == old(self).areas@[j]
                }
            },
    {
        if start % PAGE_SIZE != 0 || end % PAGE_SIZE != 0 {
            return Err(MapError::Misaligned);
        }
        let s = start / PAGE_SIZE;
        let e = end / PAGE_SIZE;
        assert(self.spans()[0] == self.areas@[0].span());
        if self.areas[0].start_vpn == s && self.areas[0].end_vpn == e {
            let ghost before = *self;
            let hs = self.areas[0].start_vpn;
            self.areas[0].end_vpn = hs;
            self.areas[0].data = Vec::new();
            self.program_brk = self.heap_bottom;
            proof {
                assert(removable_at(old(self).spans(), 0, vpn_of(start as int), vpn_of(end as int)));
                assert(self.spans() =~= spans_after_remove(old(self).spans(), 0));
                assert forall|a: int| 0 <= a < self.areas@.len() implies (#[trigger] self.areas@[a]).wf() by {
                    assert(before.areas@[a].wf());
                }
                let ns = self.spans();
                let os = before.spans();
                assert forall|a: int, b: int|
                    0 <= a < ns.len() && 0 <= b < ns.len() && a != b implies !spans_overlap(
                    #[trigger] ns[a].0,
                    ns[a].1,
                    #[trigger] ns[b].0,
                    ns[b].1,
                ) by {
                    assert(!spans_overlap(os[a].0, os[a].1, os[b].0, os[b].1));
                }
            }
            return Ok(());
        }
        let mut i: usize = 1;
        while i < self.areas.len()
            invariant
                *self == *old(self),
                self.wf(),
                s == vpn_of(start as int),
                e == vpn_of(end as int),
                page_aligned(start as int),
                page_aligned(end as int),
                1 <= i <= self.areas@.len(),
                forall|j: int| 0 <= j < i ==> #[trigger] self.spans()[j] != (s as int, e as int),
            decreases self.areas@.len() - i,
        {
            assert(self.spans()[i as int] == self.areas@[i as int].span());
            if self.areas[i].start_vpn == s && self.areas[i].end_vpn == e {
                let ghost old_areas = self.areas@;
                let _ = self.areas.remove(i);
                proof {
                    assert(removable_at(
                        old(self).spans(),
                        i as int,
                        vpn_of(start as int),
                        vpn_of(end as int),
                    ));
                    let ns = self.spans();
                    let os = old(self).spans();
                    assert(ns =~= spans_after_remove(os, i as int));
                    assert forall|a: int| 0 <= a < self.areas@.len() implies (
                    #[trigger] self.areas@[a]).wf() by {
                        if a < i {
                            assert(old_areas[a].wf());
                        } else {
                            assert(old_areas[a + 1].wf());
                        }
                    }
                    assert forall|a: int, b: int|
                        0 <= a < ns.len() && 0 <= b < ns.len() && a != b implies !spans_overlap(
                        #[trigger] ns[a].0,
                        ns[a].1,
                        #[trigger] ns[b].0,
                        ns[b].1,
                    ) by {
                        let oa = if a < i { a } else { a + 1 };
                        let ob = if b < i { b } else { b + 1 };
                        assert(ns[a] == os[oa]);
                        assert(ns[b] == os[ob]);
                        assert(!spans_overlap(os[oa].0, os[oa].1, os[ob].0, os[ob].1));
                    }
                }
                return Ok(());
            }
            i = i + 1;
        }
        Err(MapError::NotMapped)
    }

    /// Both address spaces have the same areas with the same rights, heap and
    /// break; only the bytes held may differ.
    pub open spec fn same_layout(&self, other: &MemorySet) -> bool {
        &&& self.areas@.len() == other.areas@.len()
        &&& self.heap_bottom == other.heap_bottom
        &&& self.program_brk == other.program_brk
        &&& forall|i: int|
            0 <= i < self.areas@.len() ==> {
                &&& (#[trigger] self.areas@[i]).start_vpn == other.areas@[i].start_vpn
                &&& self.areas@[i].end_vpn == other.areas@[i].end_vpn
                &&& self.areas@[i].perm == other.areas@[i].perm
                &&& self.areas@[i].data@.len() == other.areas@[i].data@.len()
            }
    }

    /// Address spaces of the same layout map a page by the same area.
    pub proof fn lemma_same_layout_index(&self, other: &MemorySet, vpn: int)
        requires
            self.wf(),
            other.wf(),
            self.same_layout(other),
            self.mapped(vpn),
        ensures
            other.mapped(vpn),
            other.area_index(vpn) == self.area_index(vpn),
            other.page_ok(vpn, false) == self.page_ok(vpn, false),
            other.page_ok(vpn, true) == self.page_ok(vpn, true),
    {
        let i = self.area_index(vpn);
        assert(self.areas@[i].contains(vpn));
        assert(other.areas@[i].contains(vpn));
        other.lemma_area_index(i, vpn);
    }

    /// Checks one byte address for an access; on success gives the area and
    /// the offset of the byte in its data.
    fn locate(&self, va: usize, write: bool) -> (r: Option<(usize, usize)>)
        requires
            self.wf(),
        ensures
            r.is_some() == self.page_ok(vpn_of(va as int), write),
            r matches Some((i, off)) ==> {
                &&& i == self.area_index(vpn_of(va as int))
                &&& i < self.areas@.len()
                &&& off == va - self.areas@[i as int].start_vpn * PAGE_SIZE
                &&& off < self.areas@[i as int].data@.len()
                &&& va < USER_END
            },
    {
        match self.find_area(va / PAGE_SIZE) {
            None => None,
            Some(i) => {
                let a = &self.areas[i];
                assert(a.wf());
                let ok = a.perm.u && if write {
                    a.perm.w
                } else {
                    a.perm.r
                };
                if ok {
                    Some((i, va - a.start_vpn * PAGE_SIZE))
                } else {
                    None
                }
            },
        }
    }

    /// Reads the user range `[va, va + len)` as a list of byte chunks, one for
    /// each page the range touches, in virtual order.
    pub fn translate_to_bytes(&self, va: usize, len: usize) -> (r: Option<Vec<Vec<u8>>>)
        requires
            self.wf(),
        ensures
            r.is_some() == self.range_ok(va as int, len as int, false),
            r matches Some(c) ==> flatten(chunk_views(c@)) == self.bytes(va as int, len as nat),
            r matches Some(c) ==> forall|i: int| 0 <= i < c@.len() ==> (#[trigger] c@[i])@.len() > 0,
            r matches Some(c) ==> c@.len() == if len == 0 {
                0
            } else {
                vpn_of(va + len - 1) - vpn_of(va as int) + 1
            },
    {
        let mut chunks: Vec<Vec<u8>> = Vec::new();
        let mut cur: Vec<u8> = Vec::new();
        let mut k: usize = 0;
        while k < len
            invariant
                self.wf(),
                k <= len,
                k > 0 ==> va + k <= USER_END,
                forall|j: int| 0 <= j < k ==> #[trigger] self.page_ok(vpn_of(va + j), false),
                flatten(chunk_views(chunks@)) + cur@ == self.bytes(va as int, k as nat),
                forall|i: int| 0 <= i < chunks@.len() ==> (#[trigger] chunks@[i])@.len() > 0,
                k == 0 ==> chunks@.len() == 0 && cur@.len() == 0,
                k > 0 ==> (cur@.len() == 0 <==> (va + k) % PAGE_SIZE as int == 0),
                k > 0 ==> chunks@.len() + (if cur@.len() > 0 {
                    1int
                } else {
                    0int
                }) == vpn_of(va + k - 1) - vpn_of(va as int) + 1,
            decreases len - k,
        {
            let a = va + k;
            match self.locate(a, false) {
                None => {
                    assert(!self.page_ok(vpn_of(va + k), false));
                    return None;
                },
                Some((i, off)) => {
                    let b = self.areas[i].data[off];
                    proof {
                        assert(self.byte_at(a as int) == b);
                        assert(self.bytes(va as int, (k + 1) as nat) =~= self.bytes(
                            va as int,
                            k as nat,
                        ).push(b));
                    }
                    proof {
                        if k > 0 {
                            if (a as int) % PAGE_SIZE as int == 0 {
                                assert(vpn_of(a as int) == vpn_of(a - 1) + 1);
                            } else {
                                assert(vpn_of(a as int) == vpn_of(a - 1));
                            }
                        }
                    }
                    cur.push(b);
                    if (a + 1) % PAGE_SIZE == 0 {
                        proof {
                            let v = chunk_views(chunks@);
                            assert(chunk_views(chunks@.push(cur)) =~= v.push(cur@));
                            assert(v.push(cur@).drop_last() =~= v);
                        }
                        chunks.push(cur);
                        cur = Vec::new();
                        assert(flatten(chunk_views(chunks@)) + cur@ =~= flatten(
                            chunk_views(chunks@),
                        ));
                    }
                },
            }
            k = k + 1;
        }
        if cur.len() > 0 {
            proof {
                let v = chunk_views(chunks@);
                assert(chunk_views(chunks@.push(cur)) =~= v.push(cur@));
                assert(v.push(cur@).drop_last() =~= v);
            }
            chunks.push(cur);
        } else {
            assert(flatten(chunk_views(chunks@)) + cur@ =~= flatten(chunk_views(chunks@)));
        }
        Some(chunks)
    }

    /// Every byte of `[va, va + len)` may be read (or, with `write`, written).
    pub fn check_range(&self, va: usize, len: usize, write: bool) -> (r: bool)
        requires
            self.wf(),
        ensures
            r == self.range_ok(va as int, len as int, write),
    {
        let mut k: usize = 0;
        while k < len
            invariant
                self.wf(),
                k <= len,
                k > 0 ==> va + k <= USER_END,
                forall|j: int| 0 <= j < k ==> #[trigger] self.page_ok(vpn_of(va + j), write),
            decreases len - k,
        {
            if self.locate(va + k, write).is_none() {
                assert(!self.page_ok(vpn_of(va + k), write));
                return false;
            }
            k = k + 1;
        }
        true
    }

    /// Writes `data` into the user range that starts at `va`, all or nothing.
    pub fn write_bytes(&mut self, va: usize, data: &Vec<u8>) -> (r: bool)
        requires
            old(self).wf(),
        ensures
            final(self).wf(),
            r == old(self).range_ok(va as int, data@.len() as int, true),
            !r ==> *final(self) == *old(self),
            final(self).same_layout(old(self)),
            r ==> forall|k: int|
                0 <= k < data@.len() ==> #[trigger] final(self).byte_at(va + k) == data@[k],
            forall|a: int|
                old(self).mapped(vpn_of(a)) && !(va <= a < va + data@.len())
                    ==> #[trigger] final(self).byte_at(a) == old(self).byte_at(a),
    {
        let len = data.len();
        if !self.check_range(va, len, true) {
            return false;
        }
        let mut k: usize = 0;
        while k < len
            invariant
                self.wf(),
                old(self).wf(),
                len == data@.len(),
                k <= len,
                old(self).range_ok(va as int, len as int, true),
                self.same_layout(old(self)),
                forall|i: int, off: int|
                    0 <= i < self.areas@.len() && 0 <= off < self.areas@[i].data@.len() ==> {
                        let a = self.areas@[i].start_vpn * PAGE_SIZE + off;
                        #[trigger] self.areas@[i].data@[off] == if va <= a < va + k {
                            data@[a - va]
                        } else {
                            old(self).areas@[i].data@[off]
                        }
                    },
            decreases len - k,
        {
            assert(old(self).page_ok(vpn_of(va + k), true));
            proof {
                old(self).lemma_same_layout_index(self, vpn_of(va + k));
            }
            let a = va + k;
            let (i0, off0) = match self.locate(a, true) {
                Some(p) => p,
                None => {
                    return false;
                },
            };
            let ghost before = *self;
            self.areas[i0].data[off0] = data[k];
            proof {
                assert forall|i: int| 0 <= i < self.areas@.len() implies (
                #[trigger] self.areas@[i]).wf() by {
                    assert(before.areas@[i].wf());
                }
                assert(self.spans() =~= before.spans());
                assert forall|i: int, off: int|
                    0 <= i < self.areas@.len() && 0 <= off < self.areas@[i].data@.len() implies {
                    let a = self.areas@[i].start_vpn * PAGE_SIZE + off;
                    #[trigger] self.areas@[i].data@[off] == if va <= a < va + k + 1 {
                        data@[a - va]
                    } else {
                        old(self).areas@[i].data@[off]
                    }
                } by {
                    let ad = self.areas@[i].start_vpn * PAGE_SIZE + off;
                    if i != i0 {
                        assert(!spans_overlap(
                            before.spans()[i].0,
                            before.spans()[i].1,
                            before.spans()[i0 as int].0,
                            before.spans()[i0 as int].1,
                        ));
                        assert(ad != va + k);
                    }
                }
            }
            k = k + 1;
        }
        proof {
            assert forall|kk: int| 0 <= kk < data@.len() implies #[trigger] self.byte_at(va + kk)
                == data@[kk] by {
                assert(old(self).page_ok(vpn_of(va + kk), true));
                old(self).lemma_same_layout_index(self, vpn_of(va + kk));
                let i = self.area_index(vpn_of(va + kk));
                assert(self.areas@[i].contains(vpn_of(va + kk)));
            }
            assert forall|a: int|
                old(self).mapped(vpn_of(a)) && !(va <= a < va + data@.len()) implies #[trigger] self.byte_at(a)
                == old(self).byte_at(a) by {
                old(self).lemma_same_layout_index(self, vpn_of(a));
                let i = self.area_index(vpn_of(a));
                assert(self.areas@[i].contains(vpn_of(a)));
            }
        }
        true
    }

    /// `s` followed by a NUL byte is stored, readable, at `va`, and `s` holds
    /// no NUL byte.
    pub open spec fn str_at(&self, va: int, s: Seq<u8>) -> bool {
        &&& self.range_ok(va, s.len() + 1 as int, false)
        &&& s == self.bytes(va, s.len())
        &&& self.byte_at(va + s.len()) == 0
        &&& forall|k: int| 0 <= k < s.len() ==> s[k] != 0
    }

    /// Reads the NUL-terminated string at `va`, without its terminator.
    pub fn translated_str(&self, va: usize) -> (r: Option<Vec<u8>>)
        requires
            self.wf(),
        ensures
            r matches Some(s) ==> self.str_at(va as int, s@),
            r is None ==> forall|t: Seq<u8>| !#[trigger] self.str_at(va as int, t),
    {
        let mut out: Vec<u8> = Vec::new();
        let mut k: usize = 0;
        loop
            invariant
                self.wf(),
                out@.len() == k,
                k > 0 ==> va + k <= USER_END,
                forall|j: int| 0 <= j < k ==> #[trigger] self.page_ok(vpn_of(va + j), false),
                out@ == self.bytes(va as int, k as nat),
                forall|j: int| 0 <= j < k ==> out@[j] != 0,
            decreases USER_END + 1 - (va + k),
        {
            let a = va + k;
            match self.locate(a, false) {
                None => {
                    assert forall|j: int| 0 <= j < k implies #[trigger] self.byte_at(va + j)
                        != 0 by {
                        assert(out@[j] == self.bytes(va as int, k as nat)[j]);
                    }
                    assert(!self.page_ok(vpn_of(va + k), false));
                    assert forall|t: Seq<u8>| !#[trigger] self.str_at(va as int, t) by {
                        if self.str_at(va as int, t) {
                            if t.len() >= k {
                                assert(self.page_ok(vpn_of(va + k), false));
                            } else {
                                assert(self.byte_at(va + t.len()) != 0);
                            }
                        }
                    }
                    return None;
                },
                Some((i, off)) => {
                    let b = self.areas[i].data[off];
                    assert(self.byte_at(a as int) == b);
                    if b == 0 {
                        return Some(out);
                    }
                    assert(self.bytes(va as int, (k + 1) as nat) =~= self.bytes(
                        va as int,
                        k as nat,
                    ).push(b));
                    out.push(b);
                },
            }
            k = k + 1;
        }
    }

    /// Moving the break by `size` bytes is allowed: it stays between the heap
    /// origin and the end of user space, and the pages it adds are free.
    pub open spec fn brk_change_ok(&self, size: int) -> bool {
        let nb = self.program_brk + size;
        &&& self.heap_bottom <= nb <= USER_END
        &&& !overlaps_any(self.spans(), vpn_ceil(self.program_brk as int), vpn_ceil(nb))
    }

    /// Moves the program break by `size` bytes, growing or shrinking the heap
    /// area to the pages below the new break. Returns the previous break.
    pub fn change_program_brk(&mut self, size: i32) -> (r: Option<usize>)
        requires
            old(self).wf(),
        ensures
            final(self).wf(),
            r.is_some() == old(self).brk_change_ok(size as int),
            r is None ==> *final(self) == *old(self),
            r matches Some(b) ==> {
                &&& b == old(self).program_brk
                &&& final(self).program_brk == old(self).program_brk + size
                &&& final(self).heap_bottom == old(self).heap_bottom
                &&& final(self).areas@.len() == old(self).areas@.len()
                &&& forall|i: int|
                    1 <= i < old(self).areas@.len() ==> #[trigger] final(self).areas@[i]
                        == old(self).areas@[i]
                &&& final(self).areas@[0].perm == old(self).areas@[0].perm
                &&& final(self).areas@[0].start_vpn == old(self).areas@[0].start_vpn
                &&& forall|j: int|
                    0 <= j < final(self).areas@[0].data@.len() ==> #[trigger] final(self).areas@[0].data@[j]
                        == if j < old(self).areas@[0].data@.len() {
                        old(self).areas@[0].data@[j]
                    } else {
                        0u8
                    }
            },
    {
        let old_brk = self.program_brk;
        let nb: i64 = old_brk as i64 + size as i64;
        if nb < self.heap_bottom as i64 || nb > USER_END as i64 {
            return None;
        }
        let nb = nb as usize;
        let old_end = (old_brk + PAGE_SIZE - 1) / PAGE_SIZE;
        let new_end = (nb + PAGE_SIZE - 1) / PAGE_SIZE;
        if self.overlaps(old_end, new_end) {
            return None;
        }
        let ghost before = *self;
        let start = self.areas[0].start_vpn;
        assert(self.areas@[0].wf());
        self.areas[0].end_vpn = new_end;
        self.areas[0].data.resize((new_end - start) * PAGE_SIZE, 0);
        self.program_brk = nb;
        proof {
            assert forall|i: int| 0 <= i < self.areas@.len() implies (
            #[trigger] self.areas@[i]).wf() by {
                assert(before.areas@[i].wf());
            }
            let ns = self.spans();
            let os = before.spans();
            assert forall|a: int, b: int|
                0 <= a < ns.len() && 0 <= b < ns.len() && a != b implies !spans_overlap(
                #[trigger] ns[a].0,
                ns[a].1,
                #[trigger] ns[b].0,
                ns[b].1,
            ) by {
                assert(!spans_overlap(os[a].0, os[a].1, os[b].0, os[b].1));
                if a == 0 {
                    assert(!spans_overlap(os[b].0, os[b].1, old_end as int, new_end as int));
                }
                if b == 0 {
                    assert(!spans_overlap(os[a].0, os[a].1, old_end as int, new_end as int));
                }
            }
        }
        Some(old_brk)
    }

    /// A copy of this address space whose areas have their own bytes.
    pub fn duplicate(&self) -> (r: MemorySet)
        requires
            self.wf(),
        ensures
            r.wf(),
            r.same_layout(self),
            r.spans() == self.spans(),
            forall|i: int| 0 <= i < r.areas@.len() ==> (#[trigger] r.areas@[i]).data@ == self.areas@[i].data@,
            forall|a: int| self.mapped(vpn_of(a)) ==> #[trigger] r.byte_at(a) == self.byte_at(a),
    {
        let mut areas: Vec<MapArea> = Vec::new();
        let mut i: usize = 0;
        while i < self.areas.len()
            invariant
                self.wf(),
                i <= self.areas@.len(),
                areas@.len() == i,
                forall|j: int|
                    0 <= j < i ==> {
                        &&& (#[trigger] areas@[j]).start_vpn == self.areas@[j].start_vpn
                        &&& areas@[j].end_vpn == self.areas@[j].end_vpn
                        &&& areas@[j].perm == self.areas@[j].perm
                        &&& areas@[j].data@ == self.areas@[j].data@
                    },
            decreases self.areas@.len() - i,
        {
            areas.push(self.areas[i].duplicate());
            i = i + 1;
        }
        let r = MemorySet { areas, heap_bottom: self.heap_bottom, program_brk: self.program_brk };
        proof {
            assert(r.spans() =~= self.spans());
            assert forall|j: int| 0 <= j < r.areas@.len() implies (#[trigger] r.areas@[j]).wf() by {
                assert(self.areas@[j].wf());
            }
            assert forall|a: int| self.mapped(vpn_of(a)) implies #[trigger] r.byte_at(a)
                == self.byte_at(a) by {
                self.lemma_same_layout_index(&r, vpn_of(a));
            }
        }
        r
    }

    /// A fresh address space for a program image: the image at `APP_BASE`
    /// (read and execute), a guard page, a user stack (read and write), and an
    /// empty heap above the stack. Returns it with the stack top.
    pub fn from_image(image: &Vec<u8>) -> (r: Option<(MemorySet, usize)>)
        ensures
            r.is_some() == (image@.len() <= MAX_APP_SIZE),
            r matches Some((ms, sp)) ==> {
                &&& ms.wf()
                &&& ms.range_ok(APP_BASE as int, image@.len() as int, false)
                &&& ms.bytes(APP_BASE as int, image@.len() as nat) == image@
                &&& ms.range_ok(sp - USER_STACK_SIZE, USER_STACK_SIZE as int, true)
                &&& ms.heap_bottom == sp
                &&& ms.program_brk == sp
                &&& ms.spans() == image_spans(image@.len(), sp as int)
                &&& sp == image_sp(image@.len())
                &&& is_image_space(ms, image@)
            },
    {
        let len = image.len();
        if len > MAX_APP_SIZE {
            return None;
        }
        let code_start = APP_BASE / PAGE_SIZE;
        let pages = if len == 0 {
            1
        } else {
            (len + PAGE_SIZE - 1) / PAGE_SIZE
        };
        let code_end = code_start + pages;
        let mut code = MapArea::new_zeroed(
            code_start,
            code_end,
            MapPermission { r: true, w: false, x: true, u: true },
        );
        let mut k: usize = 0;
        while k < len
            invariant
                len == image@.len() <= MAX_APP_SIZE,
                k <= len,
                code.wf(),
                code.start_vpn == code_start,
                code.end_vpn == code_end,
                code_end == code_start + pages,
                pages * PAGE_SIZE >= len,
                code.perm == (MapPermission { r: true, w: false, x: true, u: true }),
                forall|j: int| 0 <= j < k ==> #[trigger] code.data@[j] == image@[j],
                forall|j: int| k <= j < code.data@.len() ==> #[trigger] code.data@[j] == 0,
            decreases len - k,
        {
            code.data[k] = image[k];
            k = k + 1;
        }
        let stack_start = code_end + 1;
        let stack_end = stack_start + USER_STACK_SIZE / PAGE_SIZE;
        let stack = MapArea::new_zeroed(
            stack_start,
            stack_end,
            MapPermission { r: true, w: true, x: false, u: true },
        );
        let sp = stack_end * PAGE_SIZE;
        let heap = MapArea::new_zeroed(stack_end, stack_end, MapPermission { r: true, w: true, x: false, u: true });
        let mut areas: Vec<MapArea> = Vec::new();
        areas.push(heap);
        areas.push(code);
        areas.push(stack);
        let ms = MemorySet { areas, heap_bottom: sp, program_brk: sp };
        proof {
            assert(ms.spans() =~= image_spans(len as nat, sp as int));
            assert(ms.spans()[0] == ms.areas@[0].span());
            assert(ms.spans()[1] == ms.areas@[1].span());
            assert(ms.spans()[2] == ms.areas@[2].span());
            assert forall|j: int| 0 <= j < ms.areas@.len() implies (#[trigger] ms.areas@[j]).wf() by {
            }
            assert forall|kk: int| 0 <= kk < len implies #[trigger] ms.page_ok(
                vpn_of(APP_BASE + kk),
                false,
            ) && ms.byte_at(APP_BASE + kk) == image@[kk] by {
                ms.lemma_area_index(1, vpn_of(APP_BASE + kk));
            }
            assert(ms.bytes(APP_BASE as int, len as nat) =~= image@);
            assert forall|kk: int| 0 <= kk < USER_STACK_SIZE implies #[trigger] ms.page_ok(
                vpn_of(sp - USER_STACK_SIZE + kk),
                true,
            ) by {
                ms.lemma_area_index(2, vpn_of(sp - USER_STACK_SIZE + kk));
            }
            assert forall|a: int|
                ms.mapped(vpn_of(a)) && !(APP_BASE <= a < APP_BASE + len) implies #[trigger] ms.byte_at(a) == 0 by {
                let i = ms.area_index(vpn_of(a));
                assert(ms.areas@[i].contains(vpn_of(a)));
                if i == 1 {
                    assert(a - code_start * PAGE_SIZE >= len);
                }
            }
        }
        Some((ms, sp))
    }

    /// Every byte between the heap origin and the break may be read and
    /// written.
    pub proof fn lemma_heap_accessible(&self)
        requires
            self.wf(),
        ensures
            self.range_ok(self.heap_bottom as int, self.program_brk - self.heap_bottom, false),
            self.range_ok(self.heap_bottom as int, self.program_brk - self.heap_bottom, true),
    {
        assert forall|k: int| 0 <= k < self.program_brk - self.heap_bottom implies #[trigger] self.page_ok(vpn_of(self.heap_bottom + k), false) by {
            self.lemma_area_index(0, vpn_of(self.heap_bottom + k));
        }
        assert forall|k: int| 0 <= k < self.program_brk - self.heap_bottom implies #[trigger] self.page_ok(vpn_of(self.heap_bottom + k), true) by {
            self.lemma_area_index(0, vpn_of(self.heap_bottom + k));
        }
    }

    /// An address space with no mapped page, as left behind by an exited task.
    pub fn empty() -> (r: MemorySet)
        ensures
            r.wf(),
            forall|vpn: int| !r.mapped(vpn),
    {
        let heap = MapArea::new_zeroed(0, 0, MapPermission { r: true, w: true, x: false, u: true });
        let mut areas: Vec<MapArea> = Vec::new();
        areas.push(heap);
        let r = MemorySet { areas, heap_bottom: 0, program_brk: 0 };
        assert(r.spans().len() == 1);
        r
    }

}


/// Two page-aligned ranges that share no page with each other nor with any
/// mapped area can be inserted one after the other; a range that was just
/// inserted cannot be inserted again.
pub proof fn lemma_insert_two_then_repeat(
    spans: Seq<(int, int)>,
    a_start: int,
    a_end: int,
    b_start: int,
    b_end: int,
)
    requires
        can_insert(spans, a_start, a_end),
        can_insert(spans, b_start, b_end),
        !spans_overlap(vpn_of(a_start), vpn_of(a_end), vpn_of(b_start), vpn_of(b_end)),
    ensures
        can_insert(spans.push((vpn_of(a_start), vpn_of(a_end))), b_start, b_end),
        !can_insert(spans.push((vpn_of(a_start), vpn_of(a_end))), a_start, a_end),
{
    let sa = spans.push((vpn_of(a_start), vpn_of(a_end)));
    assert(vpn_of(a_start) < vpn_of(a_end)) by {
        assert(a_start + PAGE_SIZE <= a_end);
    }
    assert(sa[spans.len() as int] == (vpn_of(a_start), vpn_of(a_end)));
    assert(spans_overlap(sa[spans.len() as int].0, sa[spans.len() as int].1, vpn_of(a_start), vpn_of(a_end)));
    assert forall|i: int| 0 <= i < sa.len() implies !spans_overlap(
        #[trigger] sa[i].0,
        sa[i].1,
        vpn_of(b_start),
        vpn_of(b_end),
    ) by {
        if i < spans.len() {
            assert(sa[i] == spans[i]);
        }
    }
}

/// Removing a mapped area and inserting its range again succeeds.
pub proof fn lemma_remove_then_insert(ms: MemorySet, start: int, end: int, i: int)
    requires
        ms.wf(),
        can_remove(ms.spans(), start, end),
        removable_at(ms.spans(), i, vpn_of(start), vpn_of(end)),
        start < end,
    ensures
        can_insert(spans_after_remove(ms.spans(), i), start, end),
{
    let sp = ms.spans();
    let rs = spans_after_remove(sp, i);
    assert(ms.areas@[i].wf());
    assert(sp[i] == ms.areas@[i].span());
    assert(end <= USER_END) by {
        assert(vpn_of(end) <= USER_END_VPN);
    }
    assert forall|j: int| 0 <= j < rs.len() implies !spans_overlap(
        #[trigger] rs[j].0,
        rs[j].1,
        vpn_of(start),
        vpn_of(end),
    ) by {
        if i == 0 {
            if j != 0 {
                assert(rs[j] == sp[j]);
                assert(!spans_overlap(sp[j].0, sp[j].1, sp[0].0, sp[0].1));
            }
        } else {
            let oj = if j < i { j } else { j + 1 };
            assert(rs[j] == sp[oj]);
            assert(!spans_overlap(sp[oj].0, sp[oj].1, sp[i].0, sp[i].1));
        }
    }
}

/// Growing the break by `size` bytes and shrinking it by as much gives the
/// first break back, and the shrink is always allowed; no change may take the
/// break below the heap origin.
pub proof fn lemma_brk_round_trip(ms: MemorySet, grown: MemorySet, size: int)
    requires
        ms.wf(),
        grown.wf(),
        size >= 0,
        ms.brk_change_ok(size),
        grown.program_brk == ms.program_brk + size,
        grown.heap_bottom == ms.heap_bottom,
    ensures
        grown.brk_change_ok(-size),
        grown.program_brk + (-size) == ms.program_brk,
        forall|d: int| ms.program_brk + d < ms.heap_bottom ==> !#[trigger] ms.brk_change_ok(d),
{
}

} // verus!
