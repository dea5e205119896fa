//! A task's private address space, modeled at page granularity.
//!
//! Each mapped virtual page is a `PageEntry`: its virtual page number, its
//! permission bits, and the backing frame's bytes. The entries of one address
//! space carry pairwise distinct page numbers, every frame is exactly one page
//! long, and no mapping reaches past the memory ceiling. The data-segment
//! break is bookkeeping only: heap pages are lazily backed and materialize
//! outside this module.

use vstd::prelude::*;
use vstd::arithmetic::div_mod::lemma_fundamental_div_mod;
use vstd::arithmetic::div_mod::lemma_fundamental_div_mod_converse;
use vstd::arithmetic::div_mod::lemma_div_is_ordered;
use vstd::arithmetic::mul::lemma_mul_inequality;
use crate::config::MEMORY_END;
use crate::config::PAGE_SIZE;

verus! {

/// Why a mapping request was rejected.
#[derive(Clone, Copy, Debug, PartialEq, Eq, Structural)]
pub enum MapError {
    /// The requested start address is not page-aligned.
    Misaligned,
    /// The permission bits are empty or reach outside {Read, Write, Execute}.
    InvalidPermission,
    /// The requested region reaches past the memory ceiling.
    OutOfRange,
    /// The requested region intersects an existing mapping.
    Overlap,
    /// A page to unmap is not currently mapped.
    NotMapped,
}

/// One mapped virtual page: its number, permissions, and backing bytes.
pub struct PageEntry {
    /// Virtual page number, below the ceiling.
    pub vpn: usize,
    /// Permission bits: bit 0 read, bit 1 write, bit 2 execute.
    pub perm: u8,
    /// The backing frame's bytes, exactly one page long.
    pub data: Vec<u8>,
}

impl PageEntry {
    pub open spec fn wf(self) -> bool {
        &&& self.data@.len() == PAGE_SIZE
        &&& self.vpn < MEMORY_END as int / PAGE_SIZE as int
        &&& 1 <= self.perm <= 7
    }
}

/// Virtual page number holding byte address `addr`.
pub open spec fn vpn_of(addr: int) -> int {
    addr / PAGE_SIZE as int
}

/// First virtual page number past the bytes `[ptr, ptr + len)`.
pub open spec fn vpn_range_end(ptr: int, len: int) -> int {
    if len == 0 {
        ptr / PAGE_SIZE as int
    } else {
        (ptr + len - 1) / PAGE_SIZE as int + 1
    }
}

/// Number of virtual pages below the memory ceiling.
pub open spec fn vpn_ceiling() -> int {
    MEMORY_END as int / PAGE_SIZE as int
}

/// A task's address space: its mapped pages and its data-segment break.
pub struct AddressSpace {
    /// The mapped pages, with pairwise distinct page numbers.
    pub pages: Vec<PageEntry>,
    /// Start of the data segment; the break never moves below it.
    pub heap_bottom: usize,
    /// Current end of the data segment.
    pub brk: usize,
}

impl AddressSpace {
    pub open spec fn wf(self) -> bool {
        &&& forall|i: int|
            0 <= i < self.pages@.len() ==> (#[trigger] self.pages@[i]).wf()
        &&& forall|i: int, j: int|
            0 <= i < j < self.pages@.len() ==> (#[trigger] self.pages@[i]).vpn != (
            #[trigger] self.pages@[j]).vpn
        &&& self.heap_bottom <= self.brk <= MEMORY_END
    }

    /// Whether virtual page `vpn` is currently mapped.
    pub open spec fn is_mapped(self, vpn: int) -> bool {
        exists|i: int| 0 <= i < self.pages@.len() && (#[trigger] self.pages@[i]).vpn == vpn
    }

    /// Index of the entry mapping `vpn`; meaningful only when mapped.
    pub open spec fn index_of(self, vpn: int) -> int {
        choose|i: int| 0 <= i < self.pages@.len() && (#[trigger] self.pages@[i]).vpn == vpn
    }

    /// Permission bits of the page mapping `vpn`; meaningful only when mapped.
    pub open spec fn perm_at(self, vpn: int) -> u8 {
        self.pages@[self.index_of(vpn)].perm
    }

    /// The byte visible at virtual address `addr`; meaningful only when the
    /// page holding `addr` is mapped.
    pub open spec fn byte_at(self, addr: int) -> u8 {
        self.pages@[self.index_of(vpn_of(addr))].data@[addr % PAGE_SIZE as int]
    }

    /// The one index of the entry mapping `vpn`.
    pub proof fn lemma_index_of(self, vpn: int)
        requires
            self.wf(),
            self.is_mapped(vpn),
        ensures
            0 <= self.index_of(vpn) < self.pages@.len(),
            self.pages@[self.index_of(vpn)].vpn == vpn,
            forall|i: int|
                0 <= i < self.pages@.len() && (#[trigger] self.pages@[i]).vpn == vpn ==> i
                    == self.index_of(vpn),
    {
        let w = choose|i: int|
            0 <= i < self.pages@.len() && (#[trigger] self.pages@[i]).vpn == vpn;
        assert(0 <= w < self.pages@.len() && self.pages@[w].vpn == vpn);
        assert forall|i: int|
            0 <= i < self.pages@.len() && (#[trigger] self.pages@[i]).vpn == vpn implies i
            == self.index_of(vpn) by {
            let k = self.index_of(vpn);
            if i < k {
                assert(self.pages@[i].vpn != self.pages@[k].vpn);
            } else if k < i {
                assert(self.pages@[k].vpn != self.pages@[i].vpn);
            }
        }
    }

    /// Walks the page table for `vpn`; the index of its entry, if mapped.
    pub fn find_page(&self, vpn: usize) -> (r: Option<usize>)
        ensures
            match r {
                Some(i) => i < self.pages@.len() && self.pages@[i as int].vpn == vpn,
                None => !self.is_mapped(vpn as int),
            },
    {
        let mut i: usize = 0;
        while i < self.pages.len()
            invariant
                i <= self.pages@.len(),
                forall|j: int| 0 <= j < i ==> (#[trigger] self.pages@[j]).vpn != vpn,
            decreases self.pages@.len() - i,
        {
            if self.pages[i].vpn == vpn {
                return Some(i);
            }
            i = i + 1;
        }
        None
    }

    /// Whether virtual page `vpn` is currently mapped.
    pub fn query_vpn(&self, vpn: usize) -> (r: bool)
        ensures
            r == self.is_mapped(vpn as int),
    {
        match self.find_page(vpn) {
            Some(_) => true,
            None => false,
        }
    }

    /// Permission bits of the page mapping `vpn`, if mapped.
    pub fn vpn_perm(&self, vpn: usize) -> (r: Option<u8>)
        requires
            self.wf(),
        ensures
            match r {
                Some(p) => self.is_mapped(vpn as int) && p == self.perm_at(vpn as int),
                None => !self.is_mapped(vpn as int),
            },
    {
        match self.find_page(vpn) {
            Some(i) => {
                proof {
                    self.lemma_index_of(vpn as int);
                }
                Some(self.pages[i].perm)
            },
            None => None,
        }
    }

    /// Current data-segment break.
    pub fn current_brk(&self) -> (r: usize)
        ensures
            r == self.brk,
    {
        self.brk
    }

    /// Bottom of the data segment.
    pub fn heap_base(&self) -> (r: usize)
        ensures
            r == self.heap_bottom,
    {
        self.heap_bottom
    }

    /// A fresh address space with no mappings and the break at the bottom of
    /// the data segment.
    pub fn new(heap_bottom: usize) -> (r: AddressSpace)
        requires
            heap_bottom <= MEMORY_END,
        ensures
            r.wf(),
            r.pages@.len() == 0,
            forall|vpn: int| !r.is_mapped(vpn),
            r.heap_bottom == heap_bottom,
            r.brk == heap_bottom,
    {
        AddressSpace { pages: Vec::new(), heap_bottom, brk: heap_bottom }
    }
}

/// Appending a fresh entry maps its page and leaves every other page as it was.
pub proof fn lemma_push_preserves(s0: AddressSpace, s1: AddressSpace, entry: PageEntry)
    requires
        s0.wf(),
        entry.wf(),
        !s0.is_mapped(entry.vpn as int),
        s1.pages@ == s0.pages@.push(entry),
        s1.heap_bottom == s0.heap_bottom,
        s1.brk == s0.brk,
    ensures
        s1.wf(),
        forall|v: int| #![trigger s1.is_mapped(v)]
            s1.is_mapped(v) <==> (s0.is_mapped(v) || v == entry.vpn as int),
        forall|v: int| s0.is_mapped(v) ==> #[trigger] s1.perm_at(v) == s0.perm_at(v),
        s1.perm_at(entry.vpn as int) == entry.perm,
        forall|a: int| s0.is_mapped(vpn_of(a)) ==> #[trigger] s1.byte_at(a) == s0.byte_at(a),
        forall|a: int|
            vpn_of(a) == entry.vpn as int ==> #[trigger] s1.byte_at(a) == entry.data@[a
                % PAGE_SIZE as int],
{
    let n = s0.pages@.len() as int;
    assert(s1.pages@.len() == n + 1);
    assert(forall|i: int| 0 <= i < n ==> s1.pages@[i] == s0.pages@[i]);
    assert(s1.pages@[n] == entry);
    assert forall|i: int, j: int| 0 <= i < j < s1.pages@.len() implies (
    #[trigger] s1.pages@[i]).vpn != (#[trigger] s1.pages@[j]).vpn by {
        if j == n {
            if s0.pages@[i].vpn == entry.vpn {
                assert(s0.is_mapped(entry.vpn as int));
            }
        }
    }
    assert forall|v: int| s1.is_mapped(v) <==> (s0.is_mapped(v) || v == entry.vpn as int) by {
        if s1.is_mapped(v) {
            let i = choose|i: int|
                0 <= i < s1.pages@.len() && (#[trigger] s1.pages@[i]).vpn == v;
            if i < n {
                assert(s0.pages@[i].vpn == v);
                assert(s0.is_mapped(v));
            }
        }
        if s0.is_mapped(v) {
            let i = choose|i: int|
                0 <= i < s0.pages@.len() && (#[trigger] s0.pages@[i]).vpn == v;
            assert(s1.pages@[i].vpn == v);
            assert(s1.is_mapped(v));
        }
        if v == entry.vpn as int {
            assert(s1.pages@[n].vpn == v);
            assert(s1.is_mapped(v));
        }
    }
    assert forall|v: int| s0.is_mapped(v) implies #[trigger] s1.perm_at(v) == s0.perm_at(v)
        && s1.pages@[s1.index_of(v)] == s0.pages@[s0.index_of(v)] by {
        s0.lemma_index_of(v);
        s1.lemma_index_of(v);
        let i1 = s1.index_of(v);
        if i1 == n {
            assert(entry.vpn == v);
            assert(s0.is_mapped(entry.vpn as int));
        }
        assert(i1 < n);
        assert(s0.pages@[i1].vpn == v);
    }
    assert forall|a: int| s0.is_mapped(vpn_of(a)) implies #[trigger] s1.byte_at(a) == s0.byte_at(
        a,
    ) by {
        let v = vpn_of(a);
        assert(s1.pages@[s1.index_of(v)] == s0.pages@[s0.index_of(v)]);
    }
    assert forall|a: int| vpn_of(a) == entry.vpn as int implies #[trigger] s1.byte_at(a)
        == entry.data@[a % PAGE_SIZE as int] by {
        let v = vpn_of(a);
        assert(s1.pages@[n].vpn == v);
        assert(s1.is_mapped(v));
        s1.lemma_index_of(v);
        assert(s1.index_of(v) == n);
    }
    assert(s1.perm_at(entry.vpn as int) == entry.perm) by {
        let v = entry.vpn as int;
        assert(s1.pages@[n].vpn == v);
        assert(s1.is_mapped(v));
        s1.lemma_index_of(v);
        assert(s1.index_of(v) == n);
    }
}

/// Removing one entry unmaps its page and leaves every other page as it was.
pub proof fn lemma_remove_preserves(s0: AddressSpace, s1: AddressSpace, idx: int)
    requires
        s0.wf(),
        0 <= idx < s0.pages@.len(),
        s1.pages@ == s0.pages@.remove(idx),
        s1.heap_bottom == s0.heap_bottom,
        s1.brk == s0.brk,
    ensures
        s1.wf(),
        forall|v: int| #![trigger s1.is_mapped(v)]
            s1.is_mapped(v) <==> (s0.is_mapped(v) && v != s0.pages@[idx].vpn as int),
        forall|v: int| s1.is_mapped(v) ==> #[trigger] s1.perm_at(v) == s0.perm_at(v),
        forall|a: int| s1.is_mapped(vpn_of(a)) ==> #[trigger] s1.byte_at(a) == s0.byte_at(a),
{
    let n = s0.pages@.len() as int;
    let rv = s0.pages@[idx].vpn as int;
    assert(s1.pages@.len() == n - 1);
    assert(forall|i: int| 0 <= i < idx ==> s1.pages@[i] == s0.pages@[i]);
    assert(forall|i: int| idx <= i < n - 1 ==> s1.pages@[i] == s0.pages@[i + 1]);
    assert forall|i: int, j: int| 0 <= i < j < s1.pages@.len() implies (
    #[trigger] s1.pages@[i]).vpn != (#[trigger] s1.pages@[j]).vpn by {
        let i0 = if i < idx { i } else { i + 1 };
        let j0 = if j < idx { j } else { j + 1 };
        assert(s1.pages@[i] == s0.pages@[i0]);
        assert(s1.pages@[j] == s0.pages@[j0]);
    }
    assert forall|v: int| s1.is_mapped(v) <==> (s0.is_mapped(v) && v != rv) by {
        if s1.is_mapped(v) {
            let i = choose|i: int|
                0 <= i < s1.pages@.len() && (#[trigger] s1.pages@[i]).vpn == v;
            let i0 = if i < idx { i } else { i + 1 };
            assert(s0.pages@[i0].vpn == v);
            assert(s0.is_mapped(v));
            if v == rv {
                if i0 < idx {
                    assert(s0.pages@[i0].vpn != s0.pages@[idx].vpn);
                } else {
                    assert(s0.pages@[idx].vpn != s0.pages@[i0].vpn);
                }
            }
        }
        if s0.is_mapped(v) && v != rv {
            let k = choose|k: int|
                0 <= k < s0.pages@.len() && (#[trigger] s0.pages@[k]).vpn == v;
            if k < idx {
                assert(s1.pages@[k].vpn == v);
            } else {
                assert(k > idx);
                assert(s1.pages@[k - 1].vpn == v);
            }
            assert(s1.is_mapped(v));
        }
    }
    assert forall|v: int| s1.is_mapped(v) implies #[trigger] s1.perm_at(v) == s0.perm_at(v)
        && s1.pages@[s1.index_of(v)] == s0.pages@[s0.index_of(v)] by {
        s1.lemma_index_of(v);
        assert(s0.is_mapped(v));
        s0.lemma_index_of(v);
        let i1 = s1.index_of(v);
        let i0 = if i1 < idx { i1 } else { i1 + 1 };
        assert(s1.pages@[i1] == s0.pages@[i0]);
        assert(s0.pages@[i0].vpn == v);
        assert(i0 == s0.index_of(v));
    }
    assert forall|a: int| s1.is_mapped(vpn_of(a)) implies #[trigger] s1.byte_at(a) == s0.byte_at(
        a,
    ) by {
        let v = vpn_of(a);
        assert(s1.pages@[s1.index_of(v)] == s0.pages@[s0.index_of(v)]);
    }
}

/// Replacing one entry's bytes leaves the mapping set, all permissions, and
/// every other page's bytes as they were.
pub proof fn lemma_update_preserves(s0: AddressSpace, s1: AddressSpace, idx: int, entry: PageEntry)
    requires
        s0.wf(),
        0 <= idx < s0.pages@.len(),
        entry.wf(),
        entry.vpn == s0.pages@[idx].vpn,
        entry.perm == s0.pages@[idx].perm,
        s1.pages@ == s0.pages@.update(idx, entry),
        s1.heap_bottom == s0.heap_bottom,
        s1.brk == s0.brk,
    ensures
        s1.wf(),
        forall|v: int| #![trigger s1.is_mapped(v)] s1.is_mapped(v) <==> s0.is_mapped(v),
        forall|v: int| s1.is_mapped(v) ==> #[trigger] s1.perm_at(v) == s0.perm_at(v),
        forall|a: int|
            s1.is_mapped(vpn_of(a)) && vpn_of(a) != entry.vpn as int ==> #[trigger] s1.byte_at(a)
                == s0.byte_at(a),
        forall|a: int| #![trigger s1.byte_at(a)]
            vpn_of(a) == entry.vpn as int ==> s1.byte_at(a) == entry.data@[a % PAGE_SIZE as int]
                && s0.byte_at(a) == s0.pages@[idx].data@[a % PAGE_SIZE as int],
{
    let n = s0.pages@.len() as int;
    assert(s1.pages@.len() == n);
    assert(forall|i: int| 0 <= i < n && i != idx ==> s1.pages@[i] == s0.pages@[i]);
    assert(s1.pages@[idx] == entry);
    assert(forall|i: int| 0 <= i < n ==> (#[trigger] s1.pages@[i]).vpn == s0.pages@[i].vpn);
    assert forall|v: int| s1.is_mapped(v) <==> s0.is_mapped(v) by {
        if s1.is_mapped(v) {
            let i = choose|i: int|
                0 <= i < s1.pages@.len() && (#[trigger] s1.pages@[i]).vpn == v;
            assert(s0.pages@[i].vpn == v);
        }
        if s0.is_mapped(v) {
            let i = choose|i: int|
                0 <= i < s0.pages@.len() && (#[trigger] s0.pages@[i]).vpn == v;
            assert(s1.pages@[i].vpn == v);
        }
    }
    assert forall|v: int| s1.is_mapped(v) implies #[trigger] s1.perm_at(v) == s0.perm_at(v)
        && s1.index_of(v) == s0.index_of(v) by {
        s1.lemma_index_of(v);
        s0.lemma_index_of(v);
        let i1 = s1.index_of(v);
        assert(s0.pages@[i1].vpn == v);
    }
    assert forall|a: int|
        s1.is_mapped(vpn_of(a)) && vpn_of(a) != entry.vpn as int implies #[trigger] s1.byte_at(a)
        == s0.byte_at(a) by {
        let v = vpn_of(a);
        s1.lemma_index_of(v);
        let i1 = s1.index_of(v);
        assert(i1 != idx);
        assert(s1.pages@[i1] == s0.pages@[i1]);
    }
    assert forall|a: int| vpn_of(a) == entry.vpn as int implies s1.byte_at(a) == entry.data@[a
        % PAGE_SIZE as int] && s0.byte_at(a) == s0.pages@[idx].data@[a % PAGE_SIZE as int] by {
        let v = vpn_of(a);
        assert(s1.pages@[idx].vpn == v);
        assert(s1.is_mapped(v));
        s1.lemma_index_of(v);
        assert(s1.index_of(v) == idx);
        s0.lemma_index_of(v);
        assert(s0.pages@[idx].vpn == v);
        assert(s0.index_of(v) == idx);
    }
}

/// One page of zero-filled frame bytes.
fn zero_page() -> (r: Vec<u8>)
    ensures
        r@.len() == PAGE_SIZE,
        forall|j: int| 0 <= j < PAGE_SIZE ==> r@[j] == 0,
{
    let mut data: Vec<u8> = Vec::new();
    let mut i: usize = 0;
    while i < PAGE_SIZE
        invariant
            i <= PAGE_SIZE,
            data@.len() == i,
            forall|j: int| 0 <= j < i ==> data@[j] == 0,
        decreases PAGE_SIZE - i,
    {
        data.push(0u8);
        i = i + 1;
    }
    data
}

impl AddressSpace {
    /// Maps the single page `vpn` with permissions `perm`, backed by a
    /// zero-filled frame.
    pub fn push_zero_page(&mut self, vpn: usize, perm: u8)
        requires
            old(self).wf(),
            !old(self).is_mapped(vpn as int),
            vpn < vpn_ceiling(),
            1 <= perm <= 7,
        ensures
            final(self).wf(),
            forall|v: int| #![trigger final(self).is_mapped(v)]
                final(self).is_mapped(v) <==> (old(self).is_mapped(v) || v == vpn as int),
            forall|v: int|
                old(self).is_mapped(v) ==> #[trigger] final(self).perm_at(v) == old(
                    self,
                ).perm_at(v),
            final(self).perm_at(vpn as int) == perm,
            forall|a: int|
                old(self).is_mapped(vpn_of(a)) ==> #[trigger] final(self).byte_at(a) == old(
                    self,
                ).byte_at(a),
            forall|a: int| vpn_of(a) == vpn as int ==> #[trigger] final(self).byte_at(a) == 0,
            final(self).heap_bottom == old(self).heap_bottom,
            final(self).brk == old(self).brk,
    {
        let data = zero_page();
        let entry = PageEntry { vpn, perm, data };
        let ghost ge = entry;
        let ghost s0 = *self;
        self.pages.push(entry);
        proof {
            lemma_push_preserves(s0, *self, ge);
        }
    }

    /// Unmaps the single page `vpn` and frees its frame.
    pub fn remove_page(&mut self, vpn: usize)
        requires
            old(self).wf(),
            old(self).is_mapped(vpn as int),
        ensures
            final(self).wf(),
            forall|v: int| #![trigger final(self).is_mapped(v)]
                final(self).is_mapped(v) <==> (old(self).is_mapped(v) && v != vpn as int),
            forall|v: int|
                final(self).is_mapped(v) ==> #[trigger] final(self).perm_at(v) == old(
                    self,
                ).perm_at(v),
            forall|a: int|
                final(self).is_mapped(vpn_of(a)) ==> #[trigger] final(self).byte_at(a) == old(
                    self,
                ).byte_at(a),
            final(self).heap_bottom == old(self).heap_bottom,
            final(self).brk == old(self).brk,
    {
        match self.find_page(vpn) {
            Some(i) => {
                let ghost s0 = *self;
                let _ = self.pages.remove(i);
                proof {
                    lemma_remove_preserves(s0, *self, i as int);
                }
            },
            None => {
                proof {
                    assert(false);
                }
            },
        }
    }

    /// Copies `src[src_off .. src_off + cnt]` into page `vpn` starting at
    /// byte offset `off`; the run must lie within the one page.
    pub fn write_page_bytes(&mut self, vpn: usize, off: usize, src: &Vec<u8>, src_off: usize, cnt: usize)
        requires
            old(self).wf(),
            old(self).is_mapped(vpn as int),
            off + cnt <= PAGE_SIZE,
            src_off + cnt <= src@.len(),
        ensures
            final(self).wf(),
            forall|v: int| #![trigger final(self).is_mapped(v)]
                final(self).is_mapped(v) <==> old(self).is_mapped(v),
            forall|v: int|
                final(self).is_mapped(v) ==> #[trigger] final(self).perm_at(v) == old(
                    self,
                ).perm_at(v),
            forall|j: int|
                0 <= j < cnt ==> #[trigger] final(self).byte_at(
                    vpn as int * PAGE_SIZE as int + off + j,
                ) == src@[src_off + j],
            forall|a: int|
                old(self).is_mapped(vpn_of(a)) && (a < vpn as int * PAGE_SIZE as int + off || a
                    >= vpn as int * PAGE_SIZE as int + off + cnt) ==> #[trigger] final(self).byte_at(a)
                    == old(self).byte_at(a),
            final(self).heap_bottom == old(self).heap_bottom,
            final(self).brk == old(self).brk,
    {
        let idx = match self.find_page(vpn) {
            Some(i) => i,
            None => {
                proof {
                    assert(false);
                }
                0
            },
        };
        let ghost s0 = *self;
        proof {
            s0.lemma_index_of(vpn as int);
        }
        let src_len = src.len();
        let mut entry = self.pages.remove(idx);
        let mut k: usize = 0;
        while k < cnt
            invariant
                k <= cnt,
                off + cnt <= PAGE_SIZE,
                src_off + cnt <= src_len,
                src_len == src@.len(),
                entry.data@.len() == PAGE_SIZE,
                entry.vpn == s0.pages@[idx as int].vpn,
                entry.perm == s0.pages@[idx as int].perm,
                forall|j: int| 0 <= j < k ==> #[trigger] entry.data@[off + j] == src@[src_off + j],
                forall|o: int|
                    0 <= o < PAGE_SIZE && !(off <= o < off + k) ==> entry.data@[o]
                        == s0.pages@[idx as int].data@[o],
            decreases cnt - k,
        {
            entry.data.set(off + k, src[src_off + k]);
            k = k + 1;
        }
        let ghost ge = entry;
        self.pages.insert(idx, entry);
        proof {
            assert(self.pages@ =~= s0.pages@.update(idx as int, ge));
            lemma_update_preserves(s0, *self, idx as int, ge);
            let base = vpn as int * PAGE_SIZE as int;
            assert forall|j: int| 0 <= j < cnt implies #[trigger] self.byte_at(base + off + j)
                == src@[src_off + j] by {
                lemma_page_addr(vpn as int, off + j);
                assert(vpn_of(base + off + j) == vpn as int);
                assert(self.byte_at(base + off + j) == ge.data@[off + j]);
            }
            assert forall|a: int|
                s0.is_mapped(vpn_of(a)) && !(base + off <= a < base + off + cnt) implies
                #[trigger] self.byte_at(a) == s0.byte_at(a) by {
                if vpn_of(a) == vpn as int {
                    lemma_fundamental_div_mod(a, PAGE_SIZE as int);
                    let o = a % PAGE_SIZE as int;
                    assert(a == base + o);
                    assert(!(off <= o < off + cnt));
                    assert(self.byte_at(a) == ge.data@[o]);
                    assert(s0.byte_at(a) == s0.pages@[idx as int].data@[o]);
                }
            }
        }
    }

    /// Appends the `cnt` bytes of page `vpn` starting at byte offset `off`
    /// to `out`; the run must lie within the one page.
    pub fn read_page_bytes(&self, vpn: usize, off: usize, cnt: usize, out: &mut Vec<u8>)
        requires
            self.wf(),
            self.is_mapped(vpn as int),
            off + cnt <= PAGE_SIZE,
            old(out)@.len() + cnt <= usize::MAX,
        ensures
            final(out)@.len() == old(out)@.len() + cnt,
            forall|j: int| 0 <= j < old(out)@.len() ==> #[trigger] final(out)@[j] == old(out)@[j],
            forall|j: int|
                0 <= j < cnt ==> #[trigger] final(out)@[old(out)@.len() + j] == self.byte_at(
                    vpn as int * PAGE_SIZE as int + off + j,
                ),
    {
        let idx = match self.find_page(vpn) {
            Some(i) => i,
            None => {
                proof {
                    assert(false);
                }
                0
            },
        };
        proof {
            self.lemma_index_of(vpn as int);
        }
        let ghost n0 = out@.len() as int;
        let mut k: usize = 0;
        while k < cnt
            invariant
                k <= cnt,
                off + cnt <= PAGE_SIZE,
                0 <= n0,
                n0 == old(out)@.len(),
                n0 + cnt <= usize::MAX,
                self.wf(),
                self.is_mapped(vpn as int),
                idx == self.index_of(vpn as int),
                idx < self.pages@.len(),
                self.pages@[idx as int].data@.len() == PAGE_SIZE,
                out@.len() == n0 + k,
                forall|j: int| 0 <= j < n0 ==> #[trigger] out@[j] == old(out)@[j],
                forall|j: int|
                    0 <= j < k ==> #[trigger] out@[n0 + j] == self.byte_at(
                        vpn as int * PAGE_SIZE as int + off + j,
                    ),
            decreases cnt - k,
        {
            let b = self.pages[idx].data[off + k];
            proof {
                lemma_page_addr(vpn as int, off + k);
                assert(self.byte_at(vpn as int * PAGE_SIZE as int + off + k) == self.pages@[idx as int].data@[off + k]);
            }
            let ghost prev = out@;
            out.push(b);
            proof {
                assert(out@ == prev.push(b));
                assert forall|j: int| 0 <= j < k + 1 implies #[trigger] out@[n0 + j]
                    == self.byte_at(vpn as int * PAGE_SIZE as int + off + j) by {
                    if j < k {
                        assert(prev.push(b)[n0 + j] == prev[n0 + j]);
                    } else {
                        assert(prev.push(b)[prev.len() as int] == b);
                    }
                }
                assert forall|j: int| 0 <= j < n0 implies #[trigger] out@[j] == old(out)@[j] by {
                    assert(out@[j] == prev[j]);
                }
            }
            k = k + 1;
        }
    }
}

/// Splitting a byte address into page number and offset.
pub proof fn lemma_page_addr(vpn: int, r: int)
    requires
        0 <= vpn,
        0 <= r < PAGE_SIZE,
    ensures
        vpn_of(vpn * PAGE_SIZE as int + r) == vpn,
        (vpn * PAGE_SIZE as int + r) % PAGE_SIZE as int == r,
{
    lemma_fundamental_div_mod_converse(vpn * PAGE_SIZE as int + r, PAGE_SIZE as int, vpn, r);
}

/// The first reason `mmap(start, len, port)` must be rejected, checked in
/// order: alignment, permission bits, the memory ceiling, then collision with
/// an existing mapping. `None` means the request is owed success.
pub open spec fn mmap_check(s: AddressSpace, start: usize, len: usize, port: usize) -> Option<
    MapError,
> {
    if start as int % PAGE_SIZE as int != 0 {
        Some(MapError::Misaligned)
    } else if port == 0 || port > 7 {
        Some(MapError::InvalidPermission)
    } else if start + len > MEMORY_END {
        Some(MapError::OutOfRange)
    } else if exists|v: int|
        vpn_of(start as int) <= v < vpn_range_end(start as int, len as int) && #[trigger] s.is_mapped(
            v,
        ) {
        Some(MapError::Overlap)
    } else {
        None
    }
}

/// How a successful `mmap(start, len, port)` changes the address space: the
/// pages of the request become mapped with permissions `port` and zero-filled
/// frames; every previously mapped page keeps its permissions and bytes; the
/// break does not move.
pub open spec fn mmap_adds(
    s0: AddressSpace,
    s1: AddressSpace,
    start: usize,
    len: usize,
    port: usize,
) -> bool {
    let lo = vpn_of(start as int);
    let hi = vpn_range_end(start as int, len as int);
    &&& forall|v: int| #![trigger s1.is_mapped(v)]
        s1.is_mapped(v) <==> (s0.is_mapped(v) || (lo <= v < hi))
    &&& forall|v: int| s0.is_mapped(v) ==> #[trigger] s1.perm_at(v) == s0.perm_at(v)
    &&& forall|v: int| lo <= v < hi ==> #[trigger] s1.perm_at(v) == port as u8
    &&& forall|a: int| s0.is_mapped(vpn_of(a)) ==> #[trigger] s1.byte_at(a) == s0.byte_at(a)
    &&& forall|a: int| lo <= vpn_of(a) < hi ==> #[trigger] s1.byte_at(a) == 0
    &&& s1.heap_bottom == s0.heap_bottom
    &&& s1.brk == s0.brk
}

/// The first reason `munmap(start, len)` must be rejected: alignment, then a
/// page of the range that is not currently mapped. `None` means the request
/// is owed success.
pub open spec fn munmap_check(s: AddressSpace, start: usize, len: usize) -> Option<MapError> {
    if start as int % PAGE_SIZE as int != 0 {
        Some(MapError::Misaligned)
    } else if exists|v: int|
        vpn_of(start as int) <= v < vpn_range_end(start as int, len as int) && !(
        #[trigger] s.is_mapped(v)) {
        Some(MapError::NotMapped)
    } else {
        None
    }
}

/// How a successful `munmap(start, len)` changes the address space: exactly
/// the pages of the range become unmapped; every other page keeps its
/// permissions and bytes; the break does not move.
pub open spec fn munmap_removes(s0: AddressSpace, s1: AddressSpace, start: usize, len: usize) -> bool {
    let lo = vpn_of(start as int);
    let hi = vpn_range_end(start as int, len as int);
    &&& forall|v: int| #![trigger s1.is_mapped(v)]
        s1.is_mapped(v) <==> (s0.is_mapped(v) && !(lo <= v < hi))
    &&& forall|v: int| s1.is_mapped(v) ==> #[trigger] s1.perm_at(v) == s0.perm_at(v)
    &&& forall|a: int| s1.is_mapped(vpn_of(a)) ==> #[trigger] s1.byte_at(a) == s0.byte_at(a)
    &&& s1.heap_bottom == s0.heap_bottom
    &&& s1.brk == s0.brk
}

/// Whether a mapped page overlaps the byte range `[lo, hi)`.
pub open spec fn brk_collides(s: AddressSpace, lo: int, hi: int) -> bool {
    exists|v: int|
        #[trigger] s.is_mapped(v) && (v * (PAGE_SIZE as int)) < hi && ((v + 1) * (PAGE_SIZE as int)) > lo
}

/// Whether moving the break by `size` is valid: the new break stays between
/// the bottom of the data segment and the memory ceiling, and growth does not
/// run into a mapped page.
pub open spec fn sbrk_ok(s: AddressSpace, size: i32) -> bool {
    let new = s.brk + size as int;
    &&& s.heap_bottom <= new
    &&& new <= MEMORY_END
    &&& (new > s.brk ==> !brk_collides(s, s.brk as int, new))
}

/// Every byte of `[ptr, ptr + len)` lies on a page of `[vpn_of(ptr), vpn_range_end(ptr, len))`.
pub proof fn lemma_addr_page_in_range(ptr: int, len: int, a: int)
    requires
        0 <= ptr,
        ptr <= a < ptr + len,
    ensures
        vpn_of(ptr) <= vpn_of(a) < vpn_range_end(ptr, len),
{
    lemma_div_is_ordered(ptr, a, PAGE_SIZE as int);
    lemma_div_is_ordered(a, ptr + len - 1, PAGE_SIZE as int);
}

/// Bounds of the byte addresses on page `vpn` of the range `[ptr, ptr + len)`.
pub proof fn lemma_page_in_range_addrs(ptr: int, len: int, vpn: int)
    requires
        0 <= ptr,
        0 < len,
        vpn_of(ptr) <= vpn < vpn_range_end(ptr, len),
    ensures
        (vpn * (PAGE_SIZE as int)) < ptr + len,
        ((vpn + 1) * (PAGE_SIZE as int)) > ptr,
{
    let p = PAGE_SIZE as int;
    lemma_fundamental_div_mod(ptr, p);
    lemma_fundamental_div_mod(ptr + len - 1, p);
    assert(vpn <= (ptr + len - 1) / p);
    assert(vpn * p <= ((ptr + len - 1) / p) * p) by (nonlinear_arith)
        requires
            vpn <= (ptr + len - 1) / p,
            p > 0,
    ;
    assert(vpn * p <= ptr + len - 1);
    assert(vpn >= ptr / p);
    assert((vpn + 1) * p >= (ptr / p + 1) * p) by (nonlinear_arith)
        requires
            vpn >= ptr / p,
            p > 0,
    ;
    assert((ptr / p + 1) * p > ptr);
}

impl AddressSpace {
    /// Inserts the anonymous mapping `[start, start + len)` with permission
    /// bits `port`, rounding the length up to whole pages and backing each
    /// page with a zero-filled frame.
    ///
    /// Validation order: `start` must be page-aligned, `port` must have a bit
    /// of {Read, Write, Execute} set and none outside them, the region must
    /// stay below the memory ceiling, and no page of it may already be
    /// mapped. A rejected request leaves the address space unchanged.
    pub fn mmap(&mut self, start: usize, len: usize, port: usize) -> (r: Result<(), MapError>)
        requires
            old(self).wf(),
        ensures
            final(self).wf(),
            (match r {
                Ok(()) => mmap_check(*old(self), start, len, port) is None && mmap_adds(
                    *old(self),
                    *final(self),
                    start,
                    len,
                    port,
                ),
                Err(e) => mmap_check(*old(self), start, len, port) == Some(e) && *final(self)
                    == *old(self),
            }),
    {
        if start % PAGE_SIZE != 0 {
            return Err(MapError::Misaligned);
        }
        if port == 0 || port > 7 {
            return Err(MapError::InvalidPermission);
        }
        if len > MEMORY_END || start > MEMORY_END - len {
            return Err(MapError::OutOfRange);
        }
        let lo = start / PAGE_SIZE;
        let hi = if len == 0 {
            lo
        } else {
            (start + len - 1) / PAGE_SIZE + 1
        };
        proof {
            assert(lo == vpn_of(start as int));
            assert(hi == vpn_range_end(start as int, len as int));
            assert((MEMORY_END - 1) as int / PAGE_SIZE as int == vpn_ceiling() - 1);
            if len > 0 {
                lemma_div_is_ordered(start + len - 1, (MEMORY_END - 1) as int, PAGE_SIZE as int);
            }
            assert(hi <= vpn_ceiling());
        }
        let mut v = lo;
        while v < hi
            invariant
                lo <= v <= hi,
                *self == *old(self),
                self.wf(),
                start % PAGE_SIZE == 0,
                1 <= port <= 7,
                start + len <= MEMORY_END,
                lo == vpn_of(start as int),
                hi == vpn_range_end(start as int, len as int),
                forall|u: int| lo <= u < v ==> !(#[trigger] self.is_mapped(u)),
            decreases hi - v,
        {
            if self.query_vpn(v) {
                proof {
                    assert(vpn_of(start as int) <= (v as int) && (v as int) < vpn_range_end(
                        start as int,
                        len as int,
                    ) && self.is_mapped(v as int));
                }
                return Err(MapError::Overlap);
            }
            v = v + 1;
        }
        let ghost s0 = *self;
        let mut v = lo;
        while v < hi
            invariant
                lo <= v <= hi,
                hi <= vpn_ceiling(),
                1 <= port <= 7,
                self.wf(),
                forall|u: int| lo <= u < hi ==> !(#[trigger] s0.is_mapped(u)),
                forall|u: int| #![trigger self.is_mapped(u)]
                    self.is_mapped(u) <==> (s0.is_mapped(u) || (lo <= u < v)),
                forall|u: int| s0.is_mapped(u) ==> #[trigger] self.perm_at(u) == s0.perm_at(u),
                forall|u: int| lo <= u < v ==> #[trigger] self.perm_at(u) == port as u8,
                forall|a: int| s0.is_mapped(vpn_of(a)) ==> #[trigger] self.byte_at(a) == s0.byte_at(
                    a,
                ),
                forall|a: int| lo <= vpn_of(a) < v ==> #[trigger] self.byte_at(a) == 0,
                self.heap_bottom == s0.heap_bottom,
                self.brk == s0.brk,
            decreases hi - v,
        {
            self.push_zero_page(v, port as u8);
            v = v + 1;
        }
        Ok(())
    }

    /// Removes the mapping of every page of `[start, start + len)`, rounding
    /// the length up to whole pages, and frees their frames.
    ///
    /// `start` must be page-aligned and every page of the range currently
    /// mapped. A rejected request leaves the address space unchanged.
    pub fn munmap(&mut self, start: usize, len: usize) -> (r: Result<(), MapError>)
        requires
            old(self).wf(),
        ensures
            final(self).wf(),
            (match r {
                Ok(()) => munmap_check(*old(self), start, len) is None && munmap_removes(
                    *old(self),
                    *final(self),
                    start,
                    len,
                ),
                Err(e) => munmap_check(*old(self), start, len) == Some(e) && *final(self) == *old(
                    self,
                ),
            }),
    {
        if start % PAGE_SIZE != 0 {
            return Err(MapError::Misaligned);
        }
        if len > 0 && (len > MEMORY_END || start > MEMORY_END - len) {
            proof {
                let w = (start + len - 1) as int / PAGE_SIZE as int;
                lemma_div_is_ordered(MEMORY_END as int, start + len - 1, PAGE_SIZE as int);
                assert(w >= vpn_ceiling());
                lemma_div_is_ordered(start as int, start + len - 1, PAGE_SIZE as int);
                assert(vpn_of(start as int) <= w < vpn_range_end(start as int, len as int));
                if self.is_mapped(w) {
                    self.lemma_index_of(w);
                }
                assert(!self.is_mapped(w));
            }
            return Err(MapError::NotMapped);
        }
        let lo = start / PAGE_SIZE;
        let hi = if len == 0 {
            lo
        } else {
            (start + len - 1) / PAGE_SIZE + 1
        };
        proof {
            assert(lo == vpn_of(start as int));
            assert(hi == vpn_range_end(start as int, len as int));
        }
        let mut v = lo;
        while v < hi
            invariant
                lo <= v <= hi,
                *self == *old(self),
                self.wf(),
                start % PAGE_SIZE == 0,
                lo == vpn_of(start as int),
                hi == vpn_range_end(start as int, len as int),
                forall|u: int| lo <= u < v ==> #[trigger] self.is_mapped(u),
            decreases hi - v,
        {
            if !self.query_vpn(v) {
                proof {
                    assert(vpn_of(start as int) <= (v as int) && (v as int) < vpn_range_end(
                        start as int,
                        len as int,
                    ) && !self.is_mapped(v as int));
                }
                return Err(MapError::NotMapped);
            }
            v = v + 1;
        }
        let ghost s0 = *self;
        let mut v = lo;
        while v < hi
            invariant
                lo <= v <= hi,
                self.wf(),
                forall|u: int| lo <= u < hi ==> #[trigger] s0.is_mapped(u),
                forall|u: int| #![trigger self.is_mapped(u)]
                    self.is_mapped(u) <==> (s0.is_mapped(u) && !(lo <= u < v)),
                forall|u: int|
                    self.is_mapped(u) ==> #[trigger] self.perm_at(u) == s0.perm_at(u),
                forall|a: int|
                    self.is_mapped(vpn_of(a)) ==> #[trigger] self.byte_at(a) == s0.byte_at(a),
                self.heap_bottom == s0.heap_bottom,
                self.brk == s0.brk,
            decreases hi - v,
        {
            self.remove_page(v);
            v = v + 1;
        }
        Ok(())
    }

    /// Moves the data-segment break by `size` bytes and hands back the
    /// previous break, or `None` when the new break would fall below the
    /// bottom of the data segment, pass the memory ceiling, or grow into a
    /// mapped page. A rejected request leaves the address space unchanged.
    pub fn change_program_brk(&mut self, size: i32) -> (r: Option<usize>)
        requires
            old(self).wf(),
        ensures
            final(self).wf(),
            (match r {
                Some(old_brk) => sbrk_ok(*old(self), size) && old_brk == old(self).brk
                    && *final(self) == (AddressSpace {
                    brk: (old(self).brk + size as int) as usize,
                    ..*old(self)
                }),
                None => !sbrk_ok(*old(self), size) && *final(self) == *old(self),
            }),
    {
        let old_brk = self.brk;
        let new_i: i64 = old_brk as i64 + size as i64;
        if new_i < self.heap_bottom as i64 || new_i > MEMORY_END as i64 {
            return None;
        }
        let new_brk = new_i as usize;
        if new_brk > old_brk {
            let lo = old_brk / PAGE_SIZE;
            let hi = (new_brk - 1) / PAGE_SIZE + 1;
            let mut v = lo;
            while v < hi
                invariant
                    lo <= v <= hi,
                    *self == *old(self),
                    self.wf(),
                    old_brk == self.brk,
                    old_brk < new_brk <= MEMORY_END,
                    new_brk as int == self.brk + size as int,
                    self.heap_bottom <= new_brk,
                    lo == vpn_of(old_brk as int),
                    hi == vpn_range_end(old_brk as int, new_brk - old_brk),
                    forall|u: int| lo <= u < v ==> !(#[trigger] self.is_mapped(u)),
                decreases hi - v,
            {
                if self.query_vpn(v) {
                    proof {
                        lemma_page_in_range_addrs(
                            old_brk as int,
                            new_brk - old_brk,
                            v as int,
                        );
                        assert(brk_collides(*self, old_brk as int, new_brk as int));
                    }
                    return None;
                }
                v = v + 1;
            }
            proof {
                if brk_collides(*self, old_brk as int, new_brk as int) {
                    let w = choose|w: int|
                        #[trigger] self.is_mapped(w) && (w * (PAGE_SIZE as int)) < new_brk as int && ((
                        w + 1) * PAGE_SIZE as int) > old_brk as int;
                    let p = PAGE_SIZE as int;
                    if w < lo {
                        lemma_mul_inequality(w + 1, lo as int, p);
                        lemma_fundamental_div_mod(old_brk as int, p);
                        assert((w + 1) * p <= lo as int * p <= old_brk as int);
                        assert(false);
                    }
                    lemma_page_addr(w, 0);
                    lemma_div_is_ordered(w * p, new_brk - 1, p);
                    assert(w <= (new_brk - 1) as int / p);
                    assert(lo <= w < hi);
                    assert(false);
                }
            }
        }
        self.brk = new_brk;
        Some(old_brk)
    }
}

/// Mapping a region that `mmap` owes success to and then unmapping the same
/// region is itself owed success, and leaves the mapping set exactly as it
/// was before the map.
pub proof fn lemma_map_unmap_round_trip(
    s0: AddressSpace,
    s1: AddressSpace,
    s2: AddressSpace,
    start: usize,
    len: usize,
    port: usize,
)
    requires
        mmap_check(s0, start, len, port) is None,
        mmap_adds(s0, s1, start, len, port),
        munmap_removes(s1, s2, start, len),
    ensures
        munmap_check(s1, start, len) is None,
        forall|v: int| #![trigger s2.is_mapped(v)] s2.is_mapped(v) <==> s0.is_mapped(v),
        forall|v: int| s2.is_mapped(v) ==> #[trigger] s2.perm_at(v) == s0.perm_at(v),
        forall|a: int| s2.is_mapped(vpn_of(a)) ==> #[trigger] s2.byte_at(a) == s0.byte_at(a),
        s2.heap_bottom == s0.heap_bottom,
        s2.brk == s0.brk,
{
    let lo = vpn_of(start as int);
    let hi = vpn_range_end(start as int, len as int);
    assert forall|v: int| s2.is_mapped(v) <==> s0.is_mapped(v) by {
        assert(s1.is_mapped(v) <==> (s0.is_mapped(v) || (lo <= v < hi)));
        if lo <= v < hi {
            assert(!s0.is_mapped(v));
        }
    }
    assert forall|v: int| s2.is_mapped(v) implies #[trigger] s2.perm_at(v) == s0.perm_at(v) by {
        assert(s1.is_mapped(v));
        assert(s2.perm_at(v) == s1.perm_at(v));
        assert(s1.perm_at(v) == s0.perm_at(v));
    }
    assert forall|a: int| s2.is_mapped(vpn_of(a)) implies #[trigger] s2.byte_at(a) == s0.byte_at(
        a,
    ) by {
        let v = vpn_of(a);
        assert(s1.is_mapped(v));
        assert(s2.byte_at(a) == s1.byte_at(a));
        assert(s0.is_mapped(v));
        assert(s1.byte_at(a) == s0.byte_at(a));
    }
}

/// A second map whose pages share a page with an already mapped region is
/// rejected with `Overlap`; by `mmap`'s contract a rejected map changes
/// nothing, so the first mapping stays intact. `shared` names a page of both
/// requests.
pub proof fn lemma_overlapping_mmap_rejected(
    s0: AddressSpace,
    s1: AddressSpace,
    start1: usize,
    len1: usize,
    port1: usize,
    start2: usize,
    len2: usize,
    port2: usize,
    shared: int,
)
    requires
        mmap_check(s0, start1, len1, port1) is None,
        mmap_adds(s0, s1, start1, len1, port1),
        start2 as int % PAGE_SIZE as int == 0,
        1 <= port2 <= 7,
        start2 + len2 <= MEMORY_END,
        vpn_of(start1 as int) <= shared < vpn_range_end(start1 as int, len1 as int),
        vpn_of(start2 as int) <= shared < vpn_range_end(start2 as int, len2 as int),
    ensures
        mmap_check(s1, start2, len2, port2) == Some(MapError::Overlap),
{
    assert(s1.is_mapped(shared));
}

} // verus!
