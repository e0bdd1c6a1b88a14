use vstd::prelude::*;
use crate::config::{MAX_IMAGE_SIZE, PAGE_SIZE, USER_BASE, USER_STACK_PAGES};

verus! {

/// A user virtual address.
#[derive(Clone, Copy, Debug)]
pub struct VirtAddr(pub usize);

impl VirtAddr {
    /// Number of the page that holds this address.
    pub open spec fn spec_floor(self) -> int {
        self.0 as int / PAGE_SIZE as int
    }

    /// Number of the first page that starts at or after this address.
    pub open spec fn spec_ceil(self) -> int {
        (self.0 as int + PAGE_SIZE as int - 1) / PAGE_SIZE as int
    }

    pub open spec fn spec_page_offset(self) -> int {
        self.0 as int % PAGE_SIZE as int
    }

    pub open spec fn spec_aligned(self) -> bool {
        self.0 as int % PAGE_SIZE as int == 0
    }

    pub fn floor(&self) -> (vpn: usize)
        ensures
            vpn == self.spec_floor(),
    {
        self.0 / PAGE_SIZE
    }

    pub fn ceil(&self) -> (vpn: usize)
        ensures
            vpn == self.spec_ceil(),
    {
        let q: usize = self.0 / PAGE_SIZE;
        if self.0 % PAGE_SIZE == 0 {
            q
        } else {
            q + 1
        }
    }

    pub fn page_offset(&self) -> (off: usize)
        ensures
            off == self.spec_page_offset(),
            off < PAGE_SIZE,
    {
        self.0 % PAGE_SIZE
    }

    pub fn aligned(&self) -> (b: bool)
        ensures
            b == self.spec_aligned(),
    {
        self.0 % PAGE_SIZE == 0
    }
}

/// Access rights of a mapped page.
#[derive(Clone, Copy, Debug, PartialEq, Eq, Structural)]
pub struct MapPermission {
    pub r: bool,
    pub w: bool,
    pub x: bool,
    pub u: bool,
}

impl MapPermission {
    /// What a three-bit request pattern grants: bit 0 read, bit 1 write, bit 2 execute.
    pub open spec fn spec_from_prot(prot: int) -> MapPermission {
        MapPermission {
            r: prot % 2 == 1,
            w: (prot / 2) % 2 == 1,
            x: (prot / 4) % 2 == 1,
            u: false,
        }
    }

    /// A request pattern is acceptable when it is non-zero and sets no bit above bit 2.
    pub open spec fn spec_prot_valid(prot: int) -> bool {
        1 <= prot <= 7
    }

    pub open spec fn spec_union(self, other: MapPermission) -> MapPermission {
        MapPermission {
            r: self.r || other.r,
            w: self.w || other.w,
            x: self.x || other.x,
            u: self.u || other.u,
        }
    }

    /// The permission that grants nothing.
    pub fn empty() -> (p: MapPermission)
        ensures
            p == (MapPermission { r: false, w: false, x: false, u: false }),
    {
        MapPermission { r: false, w: false, x: false, u: false }
    }

    /// The user-accessible flag alone.
    pub fn user() -> (p: MapPermission)
        ensures
            p == (MapPermission { r: false, w: false, x: false, u: true }),
    {
        MapPermission { r: false, w: false, x: false, u: true }
    }

    /// Decodes a request pattern; `None` when the pattern is zero or has a bit outside the mask.
    pub fn from_prot(prot: usize) -> (p: Option<MapPermission>)
        ensures
            p.is_some() == Self::spec_prot_valid(prot as int),
            p.is_some() ==> p.unwrap() == Self::spec_from_prot(prot as int),
    {
        if prot == 0 || prot > 7 {
            None
        } else {
            Some(
                MapPermission {
                    r: prot % 2 == 1,
                    w: (prot / 2) % 2 == 1,
                    x: (prot / 4) % 2 == 1,
                    u: false,
                },
            )
        }
    }

    pub fn union(self, other: MapPermission) -> (p: MapPermission)
        ensures
            p == self.spec_union(other),
    {
        MapPermission {
            r: self.r || other.r,
            w: self.w || other.w,
            x: self.x || other.x,
            u: self.u || other.u,
        }
    }
}

/// What the address space holds at one page number: its rights and its 4096 bytes.
pub ghost struct Page {
    pub perm: MapPermission,
    pub data: Seq<u8>,
}

/// The contents of a frame that has just been handed out.
pub open spec fn zero_frame() -> Seq<u8> {
    Seq::new(PAGE_SIZE as nat, |i: int| 0u8)
}

/// The pages `[start, end)`, each zero-filled and carrying `perm`.
pub open spec fn fresh_pages(start: int, end: int, perm: MapPermission) -> Map<int, Page> {
    Map::new(|vpn: int| start <= vpn < end, |vpn: int| Page { perm, data: zero_frame() })
}

/// The page numbers `[start, end)`.
pub open spec fn page_range(start: int, end: int) -> Set<int> {
    Set::new(|vpn: int| start <= vpn < end)
}

/// Some page of `[start, end)` is mapped.
pub open spec fn range_overlaps(m: Map<int, Page>, start: int, end: int) -> bool {
    exists|vpn: int| start <= vpn < end && #[trigger] m.dom().contains(vpn)
}

/// Every page of `[start, end)` is mapped.
pub open spec fn range_covered(m: Map<int, Page>, start: int, end: int) -> bool {
    forall|vpn: int| start <= vpn < end ==> #[trigger] m.dom().contains(vpn)
}

/// Why an access to user memory is refused.
#[derive(Clone, Copy, Debug, PartialEq, Eq, Structural)]
pub enum TranslateError {
    /// A page of the range is not mapped.
    NotMapped,
    /// A page of the range is mapped without the rights that the access needs.
    PermissionDenied,
}

/// A run of bytes that lies within one page.
#[derive(Clone, Copy, Debug, PartialEq, Eq, Structural)]
pub struct PageSpan {
    pub vpn: usize,
    pub offset: usize,
    pub len: usize,
}

/// What stops the kernel from reaching page `vpn` on behalf of the user, if anything:
/// the page must be mapped and user-accessible, writable for a write, readable for a read.
pub open spec fn page_fault(m: Map<int, Page>, vpn: int, write: bool) -> Option<TranslateError> {
    if !m.dom().contains(vpn) {
        Some(TranslateError::NotMapped)
    } else if !m[vpn].perm.u || (write && !m[vpn].perm.w) || (!write && !m[vpn].perm.r) {
        Some(TranslateError::PermissionDenied)
    } else {
        None
    }
}

/// Number of pages that the byte range `[ptr, ptr + len)` touches.
pub open spec fn span_count(ptr: int, len: int) -> int {
    if len <= 0 {
        0
    } else {
        (ptr + len - 1) / PAGE_SIZE as int - ptr / PAGE_SIZE as int + 1
    }
}

/// The part of the byte range `[ptr, ptr + len)` that lies in the `k`-th page it touches.
pub open spec fn span_at(ptr: int, len: int, k: int) -> PageSpan {
    let vpn = ptr / PAGE_SIZE as int + k;
    let start = if k == 0 {
        ptr
    } else {
        vpn * PAGE_SIZE as int
    };
    let end = if ptr + len < (vpn + 1) * PAGE_SIZE as int {
        ptr + len
    } else {
        (vpn + 1) * PAGE_SIZE as int
    };
    PageSpan { vpn: vpn as usize, offset: (start - vpn * PAGE_SIZE as int) as usize, len: (end - start) as usize }
}

/// The byte range `[ptr, ptr + len)` cut at page boundaries, in address order.
pub open spec fn spans_of(ptr: int, len: int) -> Seq<PageSpan> {
    Seq::new(span_count(ptr, len) as nat, |k: int| span_at(ptr, len, k))
}

/// Every page that the byte range `[ptr, ptr + len)` touches can be reached.
pub open spec fn access_ok(m: Map<int, Page>, ptr: int, len: int, write: bool) -> bool {
    forall|vpn: int|
        ptr / PAGE_SIZE as int <= vpn < ptr / PAGE_SIZE as int + span_count(ptr, len) ==> (
        #[trigger] page_fault(m, vpn, write)).is_none()
}

/// `e` is what stops the access at the first page of `[ptr, ptr + len)` that cannot be reached.
pub open spec fn access_fault(m: Map<int, Page>, ptr: int, len: int, write: bool, e: TranslateError) -> bool {
    exists|vpn: int|
        {
            &&& ptr / PAGE_SIZE as int <= vpn < ptr / PAGE_SIZE as int + span_count(ptr, len)
            &&& #[trigger] page_fault(m, vpn, write) == Some(e)
            &&& forall|v: int|
                ptr / PAGE_SIZE as int <= v < vpn ==> (#[trigger] page_fault(m, v, write)).is_none()
        }
}

/// `data` with the bytes from `offset` on replaced by `bytes`.
pub open spec fn splice(data: Seq<u8>, offset: int, bytes: Seq<u8>) -> Seq<u8> {
    Seq::new(
        data.len(),
        |o: int|
            if offset <= o < offset + bytes.len() {
                bytes[o - offset]
            } else {
                data[o]
            },
    )
}

/// The address space `m` after the bytes `src` have been stored from user address `dst`
/// on: the same pages with the same rights, and every byte as before but those stored.
pub open spec fn written(m: Map<int, Page>, dst: int, src: Seq<u8>) -> Map<int, Page> {
    Map::new(
        |vpn: int| m.dom().contains(vpn),
        |vpn: int|
            Page {
                perm: m[vpn].perm,
                data: Seq::new(
                    PAGE_SIZE as nat,
                    |o: int|
                        if dst <= vpn * PAGE_SIZE as int + o < dst + src.len() {
                            src[vpn * PAGE_SIZE as int + o - dst]
                        } else {
                            m[vpn].data[o]
                        },
                ),
            },
    )
}

/// The `len` bytes that the address space `m` holds from user address `ptr` on.
pub open spec fn user_bytes(m: Map<int, Page>, ptr: int, len: int) -> Seq<u8> {
    Seq::new(
        len as nat,
        |i: int| m[(ptr + i) / PAGE_SIZE as int].data[(ptr + i) % PAGE_SIZE as int],
    )
}

/// The kernel may store `len` bytes at user address `ptr`: the range lies within the
/// address space and every page it touches is mapped, user-accessible and writable.
pub open spec fn user_writable(m: Map<int, Page>, ptr: int, len: int) -> bool {
    ptr + len <= usize::MAX && access_ok(m, ptr, len, true)
}

/// Number of pages that a program image of `len` bytes occupies.
pub open spec fn image_page_count(len: int) -> int {
    (len + PAGE_SIZE as int - 1) / PAGE_SIZE as int
}

/// Page `k` of a program image: its bytes in order, zero-filled behind the last one.
pub open spec fn image_frame(data: Seq<u8>, k: int) -> Seq<u8> {
    Seq::new(
        PAGE_SIZE as nat,
        |o: int|
            if k * PAGE_SIZE as int + o < data.len() {
                data[k * PAGE_SIZE as int + o]
            } else {
                0u8
            },
    )
}

/// Number of the page at which a program image starts.
pub open spec fn image_first_page() -> int {
    USER_BASE as int / PAGE_SIZE as int
}

/// The address space of a freshly loaded program: the image from the load address on,
/// readable, writable and executable; one unmapped guard page; then a zero-filled user
/// stack. Nothing else is mapped.
pub open spec fn image_pages(data: Seq<u8>) -> Map<int, Page> {
    let first = image_first_page();
    let n = image_page_count(data.len() as int);
    Map::new(
        |vpn: int|
            first <= vpn < first + n || first + n + 1 <= vpn < first + n + 1
                + USER_STACK_PAGES as int,
        |vpn: int|
            if vpn < first + n {
                Page {
                    perm: MapPermission { r: true, w: true, x: true, u: true },
                    data: image_frame(data, vpn - first),
                }
            } else {
                Page {
                    perm: MapPermission { r: true, w: true, x: false, u: true },
                    data: zero_frame(),
                }
            },
    )
}

/// The address just above the user stack of a freshly loaded program of `len` bytes.
/// The stack grows down from here and the heap starts here.
pub open spec fn image_stack_top(len: int) -> int {
    (image_first_page() + image_page_count(len) + 1 + USER_STACK_PAGES as int) * PAGE_SIZE as int
}

/// A run of consecutive pages with common rights, each backed by a frame of its own.
pub struct MapArea {
    start_vpn: usize,
    end_vpn: usize,
    perm: MapPermission,
    frames: Vec<Vec<u8>>,
}

impl MapArea {
    spec fn wf(&self) -> bool {
        &&& self.start_vpn < self.end_vpn
        &&& self.frames@.len() == self.end_vpn - self.start_vpn
        &&& forall|k: int| 0 <= k < self.frames@.len() ==> (#[trigger] self.frames@[k])@.len() == PAGE_SIZE
    }

    spec fn contains(&self, vpn: int) -> bool {
        self.start_vpn <= vpn < self.end_vpn
    }

    spec fn disjoint(&self, other: &MapArea) -> bool {
        self.end_vpn <= other.start_vpn || other.end_vpn <= self.start_vpn
    }

    spec fn page(&self, vpn: int) -> Page {
        Page { perm: self.perm, data: self.frames@[vpn - self.start_vpn]@ }
    }

    /// The pages of the area by page number.
    spec fn pages(&self) -> Map<int, Page> {
        Map::new(|vpn: int| self.contains(vpn), |vpn: int| self.page(vpn))
    }

    /// `self` holds a part of the pages of `whole`, unchanged.
    spec fn part_of(&self, whole: &MapArea) -> bool {
        &&& whole.start_vpn <= self.start_vpn
        &&& self.end_vpn <= whole.end_vpn
        &&& forall|vpn: int| #[trigger] self.contains(vpn) ==> self.page(vpn) == whole.page(vpn)
    }

    /// `self` spans the pages of `other`, with equal rights and equal bytes.
    spec fn same_pages(&self, other: &MapArea) -> bool {
        &&& self.start_vpn == other.start_vpn
        &&& self.end_vpn == other.end_vpn
        &&& self.perm == other.perm
        &&& self.frames@.len() == other.frames@.len()
        &&& forall|k: int|
            0 <= k < self.frames@.len() ==> (#[trigger] self.frames@[k])@ == other.frames@[k]@
    }

    /// A copy of the area on frames of its own.
    fn duplicate(&self) -> (copy: MapArea)
        requires
            self.wf(),
        ensures
            copy.same_pages(self),
    {
        let mut frames: Vec<Vec<u8>> = Vec::new();
        let mut k: usize = 0;
        while k < self.frames.len()
            invariant
                0 <= k <= self.frames@.len(),
                frames@.len() == k,
                forall|j: int| 0 <= j < k ==> (#[trigger] frames@[j])@ == self.frames@[j]@,
            decreases self.frames@.len() - k,
        {
            let frame = self.frames[k].clone();
            assert(frame@ =~= self.frames@[k as int]@);
            frames.push(frame);
            k += 1;
        }
        MapArea { start_vpn: self.start_vpn, end_vpn: self.end_vpn, perm: self.perm, frames }
    }

    proof fn lemma_part_of_trans(&self, mid: &MapArea, whole: &MapArea)
        requires
            self.part_of(mid),
            mid.part_of(whole),
        ensures
            self.part_of(whole),
    {
        assert forall|vpn: int| #[trigger] self.contains(vpn) implies self.page(vpn) == whole.page(
            vpn,
        ) by {
            assert(mid.contains(vpn));
        }
    }

    /// Gives up the pages from `new_end` on.
    fn cut_tail(&mut self, new_end: usize)
        requires
            old(self).wf(),
            old(self).start_vpn < new_end <= old(self).end_vpn,
        ensures
            final(self).wf(),
            final(self).start_vpn == old(self).start_vpn,
            final(self).end_vpn == new_end,
            final(self).part_of(old(self)),
    {
        self.frames.truncate(new_end - self.start_vpn);
        self.end_vpn = new_end;
        assert forall|vpn: int| #[trigger] self.contains(vpn) implies self.page(vpn) == old(
            self,
        ).page(vpn) by {}
    }

    /// Gives up the pages before `new_start`.
    fn cut_head(&mut self, new_start: usize)
        requires
            old(self).wf(),
            old(self).start_vpn <= new_start < old(self).end_vpn,
        ensures
            final(self).wf(),
            final(self).start_vpn == new_start,
            final(self).end_vpn == old(self).end_vpn,
            final(self).part_of(old(self)),
    {
        let rest = self.frames.split_off(new_start - self.start_vpn);
        self.frames = rest;
        self.start_vpn = new_start;
        assert forall|vpn: int| #[trigger] self.contains(vpn) implies self.page(vpn) == old(
            self,
        ).page(vpn) by {}
    }

    /// Keeps the pages before `at` and hands out those from `at` on as an area of their own.
    fn split_at(&mut self, at: usize) -> (right: MapArea)
        requires
            old(self).wf(),
            old(self).start_vpn < at < old(self).end_vpn,
        ensures
            final(self).wf(),
            right.wf(),
            final(self).start_vpn == old(self).start_vpn,
            final(self).end_vpn == at,
            right.start_vpn == at,
            right.end_vpn == old(self).end_vpn,
            final(self).part_of(old(self)),
            right.part_of(old(self)),
    {
        let rest = self.frames.split_off(at - self.start_vpn);
        let right = MapArea { start_vpn: at, end_vpn: self.end_vpn, perm: self.perm, frames: rest };
        self.end_vpn = at;
        assert forall|vpn: int| #[trigger] self.contains(vpn) implies self.page(vpn) == old(
            self,
        ).page(vpn) by {}
        assert forall|vpn: int| #[trigger] right.contains(vpn) implies right.page(vpn) == old(
            self,
        ).page(vpn) by {}
        right
    }
}

/// The address space of one task: framed areas, no two of which share a page.
pub struct MemorySet {
    areas: Vec<MapArea>,
}

impl MemorySet {
    /// The areas are well formed and pairwise disjoint.
    pub closed spec fn wf(&self) -> bool {
        &&& forall|i: int| 0 <= i < self.areas@.len() ==> (#[trigger] self.areas@[i]).wf()
        &&& forall|i: int, j: int|
            0 <= i < j < self.areas@.len() ==> #[trigger] self.areas@[i].disjoint(
                &self.areas@[j],
            )
    }

    spec fn mapped(&self, vpn: int) -> bool {
        exists|i: int| 0 <= i < self.areas@.len() && #[trigger] self.areas@[i].contains(vpn)
    }

    spec fn area_index(&self, vpn: int) -> int {
        choose|i: int| 0 <= i < self.areas@.len() && #[trigger] self.areas@[i].contains(vpn)
    }

    /// The mapped pages by page number.
    pub closed spec fn view(&self) -> Map<int, Page> {
        Map::new(
            |vpn: int| self.mapped(vpn),
            |vpn: int| self.areas@[self.area_index(vpn)].page(vpn),
        )
    }

    proof fn lemma_view(&self)
        requires
            self.wf(),
        ensures
            forall|i: int, vpn: int|
                0 <= i < self.areas@.len() && #[trigger] self.areas@[i].contains(vpn)
                    ==> self@.dom().contains(vpn) && self@[vpn] == self.areas@[i].page(vpn),
            forall|vpn: int| #[trigger]
                self@.dom().contains(vpn) ==> 0 <= self.area_index(vpn) < self.areas@.len()
                    && self.areas@[self.area_index(vpn)].contains(vpn),
    {
        assert forall|i: int, vpn: int|
            0 <= i < self.areas@.len() && #[trigger] self.areas@[i].contains(
                vpn,
            ) implies self@.dom().contains(vpn) && self@[vpn] == self.areas@[i].page(vpn) by {
            let k = self.area_index(vpn);
            if k < i {
                assert(self.areas@[k].disjoint(&self.areas@[i]));
            } else if i < k {
                assert(self.areas@[i].disjoint(&self.areas@[k]));
            }
        }
    }

    /// Every mapped page has a page number that the machine can hold, and holds a whole
    /// page of bytes.
    pub proof fn lemma_pages_whole(&self)
        requires
            self.wf(),
        ensures
            forall|vpn: int| #[trigger]
                self@.dom().contains(vpn) ==> 0 <= vpn < usize::MAX && self@[vpn].data.len()
                    == PAGE_SIZE,
    {
        self.lemma_view();
    }

    /// An address space without any mapping.
    pub fn new_bare() -> (ms: MemorySet)
        ensures
            ms.wf(),
            ms@ == Map::<int, Page>::empty(),
    {
        let ms = MemorySet { areas: Vec::new() };
        assert(ms@ =~= Map::<int, Page>::empty());
        ms
    }

    /// Whether any page of `[start_vpn, end_vpn)` is mapped.
    pub fn overlaps(&self, start_vpn: usize, end_vpn: usize) -> (b: bool)
        requires
            self.wf(),
        ensures
            b == range_overlaps(self@, start_vpn as int, end_vpn as int),
    {
        proof {
            self.lemma_view();
        }
        if start_vpn >= end_vpn {
            return false;
        }
        let mut i: usize = 0;
        while i < self.areas.len()
            invariant
                self.wf(),
                start_vpn < end_vpn,
                0 <= i <= self.areas@.len(),
                forall|k: int|
                    0 <= k < i ==> (#[trigger] self.areas@[k]).end_vpn <= start_vpn || end_vpn
                        <= self.areas@[k].start_vpn,
                forall|i: int, vpn: int|
                    0 <= i < self.areas@.len() && #[trigger] self.areas@[i].contains(vpn)
                        ==> self@.dom().contains(vpn),
            decreases self.areas@.len() - i,
        {
            let a = &self.areas[i];
            if a.start_vpn < end_vpn && start_vpn < a.end_vpn {
                proof {
                    let vpn: int = if a.start_vpn >= start_vpn {
                        a.start_vpn as int
                    } else {
                        start_vpn as int
                    };
                    assert(self.areas@[i as int].wf());
                    assert(self.areas@[i as int].contains(vpn));
                    assert(self@.dom().contains(vpn));
                }
                return true;
            }
            i += 1;
        }
        proof {
            assert forall|vpn: int| start_vpn <= vpn < end_vpn implies !self@.dom().contains(
                vpn,
            ) by {
                if self@.dom().contains(vpn) {
                    let k = self.area_index(vpn);
                    assert(self.areas@[k].contains(vpn));
                }
            }
        }
        false
    }

    /// Index of the area that holds page `vpn`, if the page is mapped.
    fn find_area(&self, vpn: usize) -> (r: Option<usize>)
        requires
            self.wf(),
        ensures
            match r {
                Some(i) => i < self.areas@.len() && self.areas@[i as int].contains(vpn as int),
                None => !self@.dom().contains(vpn as int),
            },
    {
        proof {
            self.lemma_view();
        }
        let mut i: usize = 0;
        while i < self.areas.len()
            invariant
                0 <= i <= self.areas@.len(),
                forall|k: int| 0 <= k < i ==> !(#[trigger] self.areas@[k]).contains(vpn as int),
            decreases self.areas@.len() - i,
        {
            let a = &self.areas[i];
            if a.start_vpn <= vpn && vpn < a.end_vpn {
                return Some(i);
            }
            i += 1;
        }
        proof {
            if self@.dom().contains(vpn as int) {
                let k = self.area_index(vpn as int);
                assert(self.areas@[k].contains(vpn as int));
            }
        }
        None
    }

    /// Whether every page of `[start_vpn, end_vpn)` is mapped.
    pub fn covers(&self, start_vpn: usize, end_vpn: usize) -> (b: bool)
        requires
            self.wf(),
        ensures
            b == range_covered(self@, start_vpn as int, end_vpn as int),
    {
        proof {
            self.lemma_view();
        }
        let mut vpn: usize = start_vpn;
        while vpn < end_vpn
            invariant
                self.wf(),
                start_vpn <= vpn,
                forall|v: int| start_vpn <= v < vpn ==> #[trigger] self@.dom().contains(v),
                forall|i: int, v: int|
                    0 <= i < self.areas@.len() && #[trigger] self.areas@[i].contains(v)
                        ==> self@.dom().contains(v),
            decreases end_vpn - vpn,
        {
            match self.find_area(vpn) {
                None => {
                    return false;
                },
                Some(i) => {
                    let next: usize = self.areas[i].end_vpn;
                    proof {
                        assert forall|v: int| vpn <= v < next implies #[trigger] self@.dom().contains(
                            v,
                        ) by {
                            assert(self.areas@[i as int].contains(v));
                        }
                    }
                    vpn = if next < end_vpn {
                        next
                    } else {
                        end_vpn
                    };
                },
            }
        }
        true
    }

    /// Maps the pages from the one holding `start_va` up to the one where `end_va` ends,
    /// each on a zero-filled frame of its own.
    pub fn insert_framed_area(&mut self, start_va: VirtAddr, end_va: VirtAddr, perm: MapPermission)
        requires
            old(self).wf(),
            !range_overlaps(old(self)@, start_va.spec_floor(), end_va.spec_ceil()),
        ensures
            final(self).wf(),
            final(self)@ == old(self)@.union_prefer_right(
                fresh_pages(start_va.spec_floor(), end_va.spec_ceil(), perm),
            ),
    {
        let start_vpn: usize = start_va.floor();
        let end_vpn: usize = end_va.ceil();
        self.map_pages(start_vpn, end_vpn, perm);
    }

    /// Maps the pages `[start_vpn, end_vpn)`, each on a zero-filled frame of its own.
    pub fn map_pages(&mut self, start_vpn: usize, end_vpn: usize, perm: MapPermission)
        requires
            old(self).wf(),
            !range_overlaps(old(self)@, start_vpn as int, end_vpn as int),
        ensures
            final(self).wf(),
            final(self)@ == old(self)@.union_prefer_right(
                fresh_pages(start_vpn as int, end_vpn as int, perm),
            ),
    {
        if start_vpn >= end_vpn {
            assert(self@ =~= old(self)@.union_prefer_right(
                fresh_pages(start_vpn as int, end_vpn as int, perm),
            ));
            return ;
        }
        let mut frames: Vec<Vec<u8>> = Vec::new();
        let mut vpn: usize = start_vpn;
        while vpn < end_vpn
            invariant
                start_vpn <= vpn <= end_vpn,
                frames@.len() == vpn - start_vpn,
                forall|k: int| 0 <= k < frames@.len() ==> (#[trigger] frames@[k])@ == zero_frame(),
            decreases end_vpn - vpn,
        {
            frames.push(zeroed_frame());
            vpn += 1;
        }
        let area = MapArea { start_vpn, end_vpn, perm, frames };
        self.push_area(area);
        assert(self@ =~= old(self)@.union_prefer_right(
            fresh_pages(start_vpn as int, end_vpn as int, perm),
        ));
    }

    /// Adds an area whose pages are all unmapped so far.
    fn push_area(&mut self, area: MapArea)
        requires
            old(self).wf(),
            area.wf(),
            !range_overlaps(old(self)@, area.start_vpn as int, area.end_vpn as int),
        ensures
            final(self).wf(),
            final(self)@ == old(self)@.union_prefer_right(area.pages()),
    {
        let ghost start_vpn = area.start_vpn;
        let ghost end_vpn = area.end_vpn;
        proof {
            old(self).lemma_view();
            assert forall|i: int| 0 <= i < self.areas@.len() implies (#[trigger] self.areas@[i]).disjoint(
                &area,
            ) by {
                let a = self.areas@[i];
                assert(a.wf());
                if !a.disjoint(&area) {
                    let v: int = if a.start_vpn >= start_vpn {
                        a.start_vpn as int
                    } else {
                        start_vpn as int
                    };
                    assert(self.areas@[i].contains(v));
                    assert(old(self)@.dom().contains(v));
                }
            }
        }
        self.areas.push(area);
        proof {
            let n = old(self).areas@.len() as int;
            assert(self.areas@[n] == area);
            assert forall|i: int, j: int| 0 <= i < j < self.areas@.len() implies #[trigger] self.areas@[i].disjoint(
                &self.areas@[j],
            ) by {
                if j < n {
                    assert(old(self).areas@[i].disjoint(&old(self).areas@[j]));
                } else {
                    assert(old(self).areas@[i].disjoint(&area));
                }
            }
            assert forall|i: int| 0 <= i < self.areas@.len() implies (#[trigger] self.areas@[i]).wf() by {
                if i < n {
                    assert(old(self).areas@[i].wf());
                }
            }
            self.lemma_view();
            let target = old(self)@.union_prefer_right(area.pages());
            assert forall|v: int| self@.dom().contains(v) == target.dom().contains(v) by {
                if self@.dom().contains(v) {
                    let k = self.area_index(v);
                    if k < n {
                        assert(old(self).areas@[k].contains(v));
                    }
                }
                if old(self)@.dom().contains(v) {
                    let k = old(self).area_index(v);
                    assert(self.areas@[k].contains(v));
                }
                if start_vpn <= v < end_vpn {
                    assert(self.areas@[n].contains(v));
                }
            }
            assert forall|v: int| self@.dom().contains(v) implies #[trigger] self@[v] == target[v] by {
                if start_vpn <= v < end_vpn {
                    assert(self.areas@[n].contains(v));
                    assert(self@[v] == area.page(v));
                } else {
                    let k = old(self).area_index(v);
                    assert(self.areas@[k].contains(v));
                }
            }
            assert(self@ =~= target);
        }
    }

    /// Unmaps the pages of `[start_vpn, end_vpn)` that are mapped and releases their frames.
    /// An area that reaches beyond the range keeps its other pages.
    pub fn unmap_pages(&mut self, start_vpn: usize, end_vpn: usize)
        requires
            old(self).wf(),
        ensures
            final(self).wf(),
            final(self)@ == old(self)@.remove_keys(page_range(start_vpn as int, end_vpn as int)),
    {
        if start_vpn >= end_vpn {
            assert(self@ =~= old(self)@.remove_keys(
                page_range(start_vpn as int, end_vpn as int),
            ));
            return ;
        }
        let mut i: usize = 0;
        let mut n: usize = self.areas.len();
        while i < n
            invariant
                self.wf(),
                start_vpn < end_vpn,
                i <= n <= self.areas@.len(),
                forall|k: int|
                    0 <= k < self.areas@.len() && !(i <= k < n) ==> (#[trigger] self.areas@[k]).end_vpn
                        <= start_vpn || end_vpn <= self.areas@[k].start_vpn,
                forall|v: int| #[trigger]
                    self@.dom().contains(v) ==> old(self)@.dom().contains(v) && self@[v] == old(
                        self,
                    )@[v],
                forall|v: int|
                    old(self)@.dom().contains(v) && !(start_vpn <= v < end_vpn)
                        ==> #[trigger] self@.dom().contains(v),
            decreases n - i,
        {
            let ghost pre = *self;
            let ghost len = self.areas@.len() as int;
            let ghost idx = i as int;
            proof {
                pre.lemma_view();
                assert(pre.areas@[idx].wf());
            }
            let a_start: usize = self.areas[i].start_vpn;
            let a_end: usize = self.areas[i].end_vpn;
            if a_end <= start_vpn || end_vpn <= a_start {
                i += 1;
            } else if start_vpn <= a_start && a_end <= end_vpn {
                self.areas.remove(i);
                n -= 1;
                proof {
                    assert forall|k: int| 0 <= k < self.areas@.len() implies (#[trigger] self.areas@[k]).wf() by {
                        if k < idx {
                            assert(pre.areas@[k].wf());
                        } else {
                            assert(pre.areas@[k + 1].wf());
                        }
                    }
                    assert forall|k: int, j: int| 0 <= k < j < self.areas@.len() implies #[trigger] self.areas@[k].disjoint(
                        &self.areas@[j],
                    ) by {
                        let k0 = if k < idx { k } else { k + 1 };
                        let j0 = if j < idx { j } else { j + 1 };
                        assert(pre.areas@[k0].disjoint(&pre.areas@[j0]));
                    }
                    self.lemma_view();
                    assert forall|v: int| #[trigger] self@.dom().contains(v) implies pre@.dom().contains(v)
                        && self@[v] == pre@[v] by {
                        let k = self.area_index(v);
                        let k0 = if k < idx { k } else { k + 1 };
                        assert(pre.areas@[k0].contains(v));
                    }
                    assert forall|v: int| pre@.dom().contains(v) && !(start_vpn <= v < end_vpn) implies #[trigger] self@.dom().contains(v) by {
                        let k0 = pre.area_index(v);
                        let k = if k0 < idx { k0 } else { k0 - 1 };
                        assert(self.areas@[k].contains(v));
                    }
                    assert forall|k: int|
                        0 <= k < self.areas@.len() && !(i <= k < n) implies (#[trigger] self.areas@[k]).end_vpn
                            <= start_vpn || end_vpn <= self.areas@[k].start_vpn by {
                        let k0 = if k < idx { k } else { k + 1 };
                        assert(pre.areas@[k0].end_vpn <= start_vpn || end_vpn <= pre.areas@[k0].start_vpn);
                    }
                }
            } else {
                if start_vpn <= a_start {
                    self.areas[i].cut_head(end_vpn);
                    assert(self.areas@ =~= pre.areas@.update(idx, self.areas@[idx]));
                } else if a_end <= end_vpn {
                    self.areas[i].cut_tail(start_vpn);
                    assert(self.areas@ =~= pre.areas@.update(idx, self.areas@[idx]));
                } else {
                    let right = self.areas[i].split_at(end_vpn);
                    let ghost left = self.areas@[idx];
                    self.areas[i].cut_tail(start_vpn);
                    proof {
                        self.areas@[idx].lemma_part_of_trans(&left, &pre.areas@[idx]);
                    }
                    self.areas.push(right);
                    assert(self.areas@ =~= pre.areas@.update(idx, self.areas@[idx]).push(right));
                }
                i += 1;
                proof {
                    let whole = pre.areas@[idx];
                    assert forall|k: int| 0 <= k < self.areas@.len() implies (#[trigger] self.areas@[k]).wf()
                        && (k != idx && k < len ==> self.areas@[k] == pre.areas@[k])
                        && (k == idx || k >= len ==> self.areas@[k].part_of(&whole)) by {
                        if k != idx && k < len {
                            assert(pre.areas@[k].wf());
                        }
                    }
                    assert forall|k: int, j: int| 0 <= k < j < self.areas@.len() implies #[trigger] self.areas@[k].disjoint(
                        &self.areas@[j],
                    ) by {
                        let k0 = if k < len { k } else { idx };
                        let j0 = if j < len { j } else { idx };
                        if k0 < j0 {
                            assert(pre.areas@[k0].disjoint(&pre.areas@[j0]));
                        } else if j0 < k0 {
                            assert(pre.areas@[j0].disjoint(&pre.areas@[k0]));
                        }
                        assert(self.areas@[k].wf());
                        assert(self.areas@[j].wf());
                    }
                    self.lemma_view();
                    assert forall|v: int| #[trigger] self@.dom().contains(v) implies pre@.dom().contains(v)
                        && self@[v] == pre@[v] by {
                        let k = self.area_index(v);
                        let k0 = if k < len { k } else { idx };
                        assert(self.areas@[k].contains(v));
                        assert(pre.areas@[k0].contains(v));
                    }
                    assert forall|v: int| pre@.dom().contains(v) && !(start_vpn <= v < end_vpn) implies #[trigger] self@.dom().contains(v) by {
                        let k0 = pre.area_index(v);
                        if k0 != idx {
                            assert(self.areas@[k0].contains(v));
                        } else if v < start_vpn {
                            assert(self.areas@[idx].contains(v));
                        } else {
                            assert(self.areas@[len].contains(v) || self.areas@[idx].contains(v));
                        }
                    }
                }
            }
        }
        proof {
            self.lemma_view();
            let target = old(self)@.remove_keys(page_range(start_vpn as int, end_vpn as int));
            assert forall|v: int| self@.dom().contains(v) == target.dom().contains(v) by {
                if self@.dom().contains(v) {
                    let k = self.area_index(v);
                    assert(self.areas@[k].contains(v));
                    assert(self.areas@[k].wf());
                }
            }
            assert(self@ =~= target);
        }
    }

    /// Unmaps the pages from the one holding `start_va` up to the one where `end_va` ends,
    /// provided that every one of them is mapped; otherwise nothing changes.
    /// Returns 0 when the pages were unmapped and -1 when they were not.
    pub fn remove_framed_area(&mut self, start_va: VirtAddr, end_va: VirtAddr) -> (r: isize)
        requires
            old(self).wf(),
        ensures
            final(self).wf(),
            range_covered(old(self)@, start_va.spec_floor(), end_va.spec_ceil()) ==> r == 0
                && final(self)@ == old(self)@.remove_keys(
                page_range(start_va.spec_floor(), end_va.spec_ceil()),
            ),
            !range_covered(old(self)@, start_va.spec_floor(), end_va.spec_ceil()) ==> r == -1
                && *final(self) == *old(self),
    {
        let start_vpn: usize = start_va.floor();
        let end_vpn: usize = end_va.ceil();
        if !self.covers(start_vpn, end_vpn) {
            return -1;
        }
        self.unmap_pages(start_vpn, end_vpn);
        0
    }

    /// A copy of the whole address space on frames of its own.
    pub fn duplicate(&self) -> (copy: MemorySet)
        requires
            self.wf(),
        ensures
            copy.wf(),
            copy@ == self@,
    {
        let mut areas: Vec<MapArea> = Vec::new();
        let mut i: usize = 0;
        while i < self.areas.len()
            invariant
                self.wf(),
                0 <= i <= self.areas@.len(),
                areas@.len() == i,
                forall|k: int| 0 <= k < i ==> (#[trigger] areas@[k]).same_pages(&self.areas@[k]),
            decreases self.areas@.len() - i,
        {
            assert(self.areas@[i as int].wf());
            let area = self.areas[i].duplicate();
            areas.push(area);
            i += 1;
        }
        let copy = MemorySet { areas };
        proof {
            assert forall|k: int| 0 <= k < copy.areas@.len() implies (#[trigger] copy.areas@[k]).wf() by {
                assert(copy.areas@[k].same_pages(&self.areas@[k]));
                assert(self.areas@[k].wf());
            }
            assert forall|k: int, j: int| 0 <= k < j < copy.areas@.len() implies #[trigger] copy.areas@[k].disjoint(
                &copy.areas@[j],
            ) by {
                assert(copy.areas@[k].same_pages(&self.areas@[k]));
                assert(copy.areas@[j].same_pages(&self.areas@[j]));
                assert(self.areas@[k].disjoint(&self.areas@[j]));
            }
            self.lemma_view();
            copy.lemma_view();
            assert forall|v: int| copy@.dom().contains(v) == self@.dom().contains(v) by {
                if copy@.dom().contains(v) {
                    let k = copy.area_index(v);
                    assert(copy.areas@[k].same_pages(&self.areas@[k]));
                    assert(self.areas@[k].contains(v));
                }
                if self@.dom().contains(v) {
                    let k = self.area_index(v);
                    assert(copy.areas@[k].same_pages(&self.areas@[k]));
                    assert(copy.areas@[k].contains(v));
                }
            }
            assert forall|v: int| copy@.dom().contains(v) implies #[trigger] copy@[v] == self@[v] by {
                let k = copy.area_index(v);
                assert(copy.areas@[k].same_pages(&self.areas@[k]));
                assert(self.areas@[k].contains(v));
                assert(copy.areas@[k].contains(v));
            }
            assert(copy@ =~= self@);
        }
        copy
    }

    /// Loads a program image: returns the fresh address space, the initial stack pointer
    /// and the entry point.
    pub fn from_image(data: &Vec<u8>) -> (r: (MemorySet, usize, usize))
        requires
            data@.len() <= MAX_IMAGE_SIZE,
        ensures
            r.0.wf(),
            r.0@ == image_pages(data@),
            r.1 == image_stack_top(data@.len() as int),
            r.2 == USER_BASE,
    {
        let first: usize = USER_BASE / PAGE_SIZE;
        let n: usize = VirtAddr(data.len()).ceil();
        let mut ms = MemorySet::new_bare();
        if n > 0 {
            let mut frames: Vec<Vec<u8>> = Vec::new();
            let mut k: usize = 0;
            while k < n
                invariant
                    0 <= k <= n,
                    n == image_page_count(data@.len() as int),
                    data@.len() <= MAX_IMAGE_SIZE,
                    frames@.len() == k,
                    forall|j: int|
                        0 <= j < k ==> (#[trigger] frames@[j])@ == image_frame(data@, j),
                decreases n - k,
            {
                frames.push(image_frame_of(data, k));
                k += 1;
            }
            let perm = MapPermission { r: true, w: true, x: true, u: true };
            let area = MapArea { start_vpn: first, end_vpn: first + n, perm, frames };
            assert(!range_overlaps(ms@, first as int, first + n));
            ms.push_area(area);
        }
        let stack_perm = MapPermission { r: true, w: true, x: false, u: true };
        let stack_bottom: usize = first + n + 1;
        let stack_top: usize = stack_bottom + USER_STACK_PAGES;
        assert(!range_overlaps(ms@, stack_bottom as int, stack_top as int));
        ms.map_pages(stack_bottom, stack_top, stack_perm);
        assert(ms@ =~= image_pages(data@));
        (ms, stack_top * PAGE_SIZE, USER_BASE)
    }

    /// The rights of page `vpn`, if the page is mapped.
    pub fn permission_of(&self, vpn: usize) -> (r: Option<MapPermission>)
        requires
            self.wf(),
        ensures
            r.is_some() == self@.dom().contains(vpn as int),
            r.is_some() ==> r.unwrap() == self@[vpn as int].perm,
    {
        proof {
            self.lemma_view();
        }
        match self.find_area(vpn) {
            Some(i) => {
                assert(self.areas@[i as int].contains(vpn as int));
                Some(self.areas[i].perm)
            },
            None => None,
        }
    }

    /// Cuts the user byte range `[ptr, ptr + len)` at page boundaries, after checking that
    /// every page it touches is mapped with the rights that the access needs.
    pub fn translated_byte_buffer(&self, ptr: usize, len: usize, write: bool) -> (r: Result<
        Vec<PageSpan>,
        TranslateError,
    >)
        requires
            self.wf(),
            ptr + len <= usize::MAX,
        ensures
            match r {
                Ok(spans) => spans@ == spans_of(ptr as int, len as int) && access_ok(
                    self@,
                    ptr as int,
                    len as int,
                    write,
                ),
                Err(e) => access_fault(self@, ptr as int, len as int, write, e),
            },
    {
        let end: usize = ptr + len;
        let mut start: usize = ptr;
        let mut spans: Vec<PageSpan> = Vec::new();
        let ghost first = ptr as int / PAGE_SIZE as int;
        let ghost count = span_count(ptr as int, len as int);
        proof {
            self.lemma_view();
        }
        while start < end
            invariant
                self.wf(),
                end == ptr + len,
                ptr <= start <= end,
                first == ptr as int / PAGE_SIZE as int,
                count == span_count(ptr as int, len as int),
                spans@.len() <= count,
                spans@.len() == 0 ==> start == ptr,
                spans@.len() > 0 ==> start == (if (first + spans@.len()) * PAGE_SIZE as int <= end {
                    (first + spans@.len()) * PAGE_SIZE as int
                } else {
                    end as int
                }),
                forall|k: int| 0 <= k < spans@.len() ==> #[trigger] spans@[k] == span_at(ptr as int, len as int, k),
                forall|v: int|
                    first <= v < first + spans@.len() ==> (#[trigger] page_fault(self@, v, write)).is_none(),
                forall|i: int, v: int|
                    0 <= i < self.areas@.len() && #[trigger] self.areas@[i].contains(v)
                        ==> self@.dom().contains(v) && self@[v] == self.areas@[i].page(v),
            decreases end - start,
        {
            let vpn: usize = start / PAGE_SIZE;
            let ghost k = spans@.len() as int;
            assert(vpn == first + k);
            match self.find_area(vpn) {
                None => {
                    assert(page_fault(self@, vpn as int, write) == Some(TranslateError::NotMapped));
                    return Err(TranslateError::NotMapped);
                },
                Some(i) => {
                    let perm = self.areas[i].perm;
                    assert(self.areas@[i as int].contains(vpn as int));
                    assert(self@[vpn as int].perm == perm);
                    if !perm.u || (write && !perm.w) || (!write && !perm.r) {
                        assert(page_fault(self@, vpn as int, write) == Some(
                            TranslateError::PermissionDenied,
                        ));
                        return Err(TranslateError::PermissionDenied);
                    }
                },
            }
            let offset: usize = start % PAGE_SIZE;
            let room: usize = PAGE_SIZE - offset;
            let take: usize = if end - start < room {
                end - start
            } else {
                room
            };
            spans.push(PageSpan { vpn, offset, len: take });
            start = start + take;
        }
        assert(spans@.len() == count);
        assert(spans@ =~= spans_of(ptr as int, len as int));
        Ok(spans)
    }

    /// Writes `src[from .. from + span.len]` into the page that `span` names, at its offset.
    pub fn write_span(&mut self, span: &PageSpan, src: &Vec<u8>, from: usize)
        requires
            old(self).wf(),
            old(self)@.dom().contains(span.vpn as int),
            span.offset + span.len <= PAGE_SIZE,
            from + span.len <= src@.len(),
        ensures
            final(self).wf(),
            final(self)@ == old(self)@.insert(
                span.vpn as int,
                Page {
                    perm: old(self)@[span.vpn as int].perm,
                    data: splice(
                        old(self)@[span.vpn as int].data,
                        span.offset as int,
                        src@.subrange(from as int, from + span.len),
                    ),
                },
            ),
    {
        proof {
            self.lemma_view();
        }
        let i: usize = match self.find_area(span.vpn) {
            Some(i) => i,
            None => {
                assert(false);
                return ;
            },
        };
        assert(self.areas@[i as int].wf());
        let f: usize = span.vpn - self.areas[i].start_vpn;
        let ghost before = old(self).areas@[i as int].frames@[f as int]@;
        let n: usize = src.len();
        let mut j: usize = 0;
        while j < span.len
            invariant
                0 <= j <= span.len,
                span.offset + span.len <= PAGE_SIZE,
                from + span.len <= n,
                n == src@.len(),
                i < self.areas@.len(),
                self.areas@.len() == old(self).areas@.len(),
                forall|k: int|
                    0 <= k < self.areas@.len() && k != i ==> #[trigger] self.areas@[k] == old(
                        self,
                    ).areas@[k],
                self.areas@[i as int].start_vpn == old(self).areas@[i as int].start_vpn,
                self.areas@[i as int].end_vpn == old(self).areas@[i as int].end_vpn,
                self.areas@[i as int].perm == old(self).areas@[i as int].perm,
                self.areas@[i as int].frames@.len() == old(self).areas@[i as int].frames@.len(),
                f < self.areas@[i as int].frames@.len(),
                before.len() == PAGE_SIZE,
                forall|g: int|
                    0 <= g < self.areas@[i as int].frames@.len() && g != f
                        ==> #[trigger] self.areas@[i as int].frames@[g] == old(
                        self,
                    ).areas@[i as int].frames@[g],
                self.areas@[i as int].frames@[f as int]@ == splice(
                    before,
                    span.offset as int,
                    src@.subrange(from as int, from + j),
                ),
            decreases span.len - j,
        {
            let ghost prev = self.areas@[i as int].frames@[f as int]@;
            let b: u8 = src[from + j];
            self.areas[i].frames[f][span.offset + j] = b;
            assert(self.areas@[i as int].frames@[f as int]@ =~= splice(
                before,
                span.offset as int,
                src@.subrange(from as int, from + j + 1),
            ));
            j += 1;
        }
        proof {
            let ii = i as int;
            assert forall|k: int| 0 <= k < self.areas@.len() implies (#[trigger] self.areas@[k]).wf() by {
                assert(old(self).areas@[k].wf());
                if k == ii {
                    assert forall|g: int| 0 <= g < self.areas@[ii].frames@.len() implies (
                    #[trigger] self.areas@[ii].frames@[g])@.len() == PAGE_SIZE by {
                        assert(old(self).areas@[ii].frames@[g]@.len() == PAGE_SIZE);
                    }
                }
            }
            assert forall|k: int, l: int| 0 <= k < l < self.areas@.len() implies #[trigger] self.areas@[k].disjoint(
                &self.areas@[l],
            ) by {
                assert(old(self).areas@[k].disjoint(&old(self).areas@[l]));
            }
            self.lemma_view();
            let target = old(self)@.insert(
                span.vpn as int,
                Page {
                    perm: old(self)@[span.vpn as int].perm,
                    data: splice(
                        old(self)@[span.vpn as int].data,
                        span.offset as int,
                        src@.subrange(from as int, from + span.len),
                    ),
                },
            );
            assert(old(self).areas@[ii].contains(span.vpn as int));
            assert forall|v: int| self@.dom().contains(v) == target.dom().contains(v) by {
                if self@.dom().contains(v) {
                    let k = self.area_index(v);
                    assert(old(self).areas@[k].contains(v));
                }
                if old(self)@.dom().contains(v) {
                    let k = old(self).area_index(v);
                    assert(self.areas@[k].contains(v));
                }
            }
            assert forall|v: int| self@.dom().contains(v) implies #[trigger] self@[v] == target[v] by {
                if v == span.vpn {
                    assert(self.areas@[ii].contains(v));
                    assert(old(self).areas@[ii].contains(v));
                    assert(self@[v] == self.areas@[ii].page(v));
                    assert(old(self)@[v] == old(self).areas@[ii].page(v));
                    assert(before == old(self)@[v].data);
                    assert(self@[v].data == target[v].data);
                } else {
                    let k = self.area_index(v);
                    assert(self.areas@[k].contains(v));
                    assert(old(self).areas@[k].contains(v));
                    assert(old(self)@[v] == old(self).areas@[k].page(v));
                    assert(self@[v] == self.areas@[k].page(v));
                    if k == ii {
                        assert(self.areas@[ii].frames@[v - self.areas@[ii].start_vpn] == old(
                            self,
                        ).areas@[ii].frames@[v - self.areas@[ii].start_vpn]);
                    }
                }
            }
            assert(self@ =~= target);
        }
    }

    /// Appends to `out` the bytes of the page that `span` names, from its offset on.
    pub fn read_span(&self, span: &PageSpan, out: &mut Vec<u8>)
        requires
            self.wf(),
            self@.dom().contains(span.vpn as int),
            span.offset + span.len <= PAGE_SIZE,
        ensures
            final(out)@ == old(out)@ + self@[span.vpn as int].data.subrange(
                span.offset as int,
                span.offset + span.len,
            ),
    {
        proof {
            self.lemma_view();
        }
        let i: usize = match self.find_area(span.vpn) {
            Some(i) => i,
            None => {
                assert(false);
                return ;
            },
        };
        assert(self.areas@[i as int].wf());
        let f: usize = span.vpn - self.areas[i].start_vpn;
        let ghost page = self@[span.vpn as int].data;
        assert(page == self.areas@[i as int].frames@[f as int]@);
        let mut j: usize = 0;
        while j < span.len
            invariant
                0 <= j <= span.len,
                span.offset + span.len <= PAGE_SIZE,
                i < self.areas@.len(),
                f < self.areas@[i as int].frames@.len(),
                page == self.areas@[i as int].frames@[f as int]@,
                page.len() == PAGE_SIZE,
                out@ == old(out)@ + page.subrange(span.offset as int, span.offset + j),
            decreases span.len - j,
        {
            let b: u8 = self.areas[i].frames[f][span.offset + j];
            out.push(b);
            assert(out@ =~= old(out)@ + page.subrange(span.offset as int, span.offset + j + 1));
            j += 1;
        }
    }
}

/// A frame as it is handed out: a page of zero bytes.
fn zeroed_frame() -> (frame: Vec<u8>)
    ensures
        frame@ == zero_frame(),
{
    let frame = vec![0u8; PAGE_SIZE];
    assert(frame@ =~= zero_frame());
    frame
}

/// Builds page `k` of a program image.
fn image_frame_of(data: &Vec<u8>, k: usize) -> (frame: Vec<u8>)
    requires
        data@.len() <= MAX_IMAGE_SIZE,
        k < image_page_count(data@.len() as int),
    ensures
        frame@ == image_frame(data@, k as int),
{
    let mut frame = zeroed_frame();
    let base: usize = k * PAGE_SIZE;
    let rest: usize = data.len() - base;
    let m: usize = if rest < PAGE_SIZE {
        rest
    } else {
        PAGE_SIZE
    };
    let mut j: usize = 0;
    while j < m
        invariant
            0 <= j <= m <= PAGE_SIZE,
            base == k * PAGE_SIZE,
            base + m <= data@.len(),
            frame@.len() == PAGE_SIZE,
            forall|o: int| 0 <= o < j ==> #[trigger] frame@[o] == data@[base + o],
            forall|o: int| j <= o < PAGE_SIZE ==> #[trigger] frame@[o] == 0u8,
        decreases m - j,
    {
        frame[j] = data[base + j];
        j += 1;
    }
    assert(frame@ =~= image_frame(data@, k as int));
    frame
}

} // verus!
