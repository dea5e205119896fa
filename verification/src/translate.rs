//! The address translator: byte-level access to another task's memory.
//!
//! A syscall receives a user virtual address and must read or write a
//! structure in the calling task's page tables. The structure is virtually
//! contiguous but need not be physically contiguous: the translator splits
//! the byte range into maximal runs that each lie within one page, resolves
//! each run's page by its own page-table walk, and copies run by run. The
//! translator keeps no state between calls.

use vstd::prelude::*;
use vstd::arithmetic::div_mod::lemma_fundamental_div_mod;
use vstd::arithmetic::mul::lemma_mul_inequality;
use crate::config::MEMORY_END;
use crate::config::PAGE_SIZE;
use crate::space::AddressSpace;
use crate::space::lemma_addr_page_in_range;
use crate::space::lemma_page_in_range_addrs;
use crate::space::vpn_ceiling;
use crate::space::vpn_of;
use crate::space::vpn_range_end;

verus! {

/// Why a translation failed.
#[derive(Clone, Copy, Debug, PartialEq, Eq, Structural)]
pub enum TranslateError {
    /// A page covered by the access has no mapping.
    Unmapped,
    /// A write targets a page that is mapped without write permission.
    PermissionDenied,
}

/// Whether permission bits allow writing.
pub open spec fn perm_allows_write(perm: u8) -> bool {
    perm & 2 != 0
}

/// The fault a write touching the pages `[vpn, end)` runs into, walking pages
/// in ascending order: `Unmapped` at the first unmapped page, then
/// `PermissionDenied` at the first page without write permission.
pub open spec fn write_fault(s: AddressSpace, vpn: int, end: int) -> Option<TranslateError>
    decreases end - vpn,
{
    if vpn >= end {
        None
    } else if !s.is_mapped(vpn) {
        Some(TranslateError::Unmapped)
    } else if !perm_allows_write(s.perm_at(vpn)) {
        Some(TranslateError::PermissionDenied)
    } else {
        write_fault(s, vpn + 1, end)
    }
}

/// The fault a read touching the pages `[vpn, end)` runs into: `Unmapped` at
/// the first unmapped page. Reads are performed by the kernel and do not
/// consult the user permission bits.
pub open spec fn read_fault(s: AddressSpace, vpn: int, end: int) -> Option<TranslateError>
    decreases end - vpn,
{
    if vpn >= end {
        None
    } else if !s.is_mapped(vpn) {
        Some(TranslateError::Unmapped)
    } else {
        read_fault(s, vpn + 1, end)
    }
}

/// The bytes visible at `[ptr, ptr + len)`.
pub open spec fn bytes_in(s: AddressSpace, ptr: int, len: int) -> Seq<u8> {
    Seq::new(len as nat, |i: int| s.byte_at(ptr + i))
}

/// How a successful write of `data` at `ptr` changes the address space: the
/// written range holds `data`, every other byte of every mapped page is
/// unchanged, and no mapping, permission, or break moves.
pub open spec fn write_updates(s0: AddressSpace, s1: AddressSpace, ptr: int, data: Seq<u8>) -> bool {
    &&& forall|v: int| #![trigger s1.is_mapped(v)] s1.is_mapped(v) <==> s0.is_mapped(v)
    &&& forall|v: int| s1.is_mapped(v) ==> #[trigger] s1.perm_at(v) == s0.perm_at(v)
    &&& forall|i: int| 0 <= i < data.len() ==> #[trigger] s1.byte_at(ptr + i) == data[i]
    &&& forall|a: int|
        s0.is_mapped(vpn_of(a)) && (a < ptr || a >= ptr + data.len()) ==> #[trigger] s1.byte_at(a)
            == s0.byte_at(a)
    &&& s1.heap_bottom == s0.heap_bottom
    &&& s1.brk == s0.brk
}

/// A walk whose pages are all mapped and writable runs into no write fault.
pub proof fn lemma_write_fault_none(s: AddressSpace, vpn: int, end: int)
    requires
        forall|u: int|
            vpn <= u < end ==> #[trigger] s.is_mapped(u) && perm_allows_write(s.perm_at(u)),
    ensures
        write_fault(s, vpn, end) is None,
    decreases end - vpn,
{
    if vpn < end {
        lemma_write_fault_none(s, vpn + 1, end);
    }
}

/// A write fault is decided by the first faulting page of the walk.
pub proof fn lemma_write_fault_at(s: AddressSpace, vpn: int, end: int, v: int)
    requires
        vpn <= v < end,
        forall|u: int|
            vpn <= u < v ==> #[trigger] s.is_mapped(u) && perm_allows_write(s.perm_at(u)),
        !s.is_mapped(v) || !perm_allows_write(s.perm_at(v)),
    ensures
        write_fault(s, vpn, end) == (if !s.is_mapped(v) {
            Some(TranslateError::Unmapped)
        } else {
            Some(TranslateError::PermissionDenied)
        }),
    decreases v - vpn,
{
    if vpn < v {
        lemma_write_fault_at(s, vpn + 1, end, v);
    }
}

/// A walk that runs into no write fault had every page mapped and writable.
pub proof fn lemma_write_fault_none_inv(s: AddressSpace, vpn: int, end: int)
    requires
        write_fault(s, vpn, end) is None,
    ensures
        forall|u: int|
            vpn <= u < end ==> #[trigger] s.is_mapped(u) && perm_allows_write(s.perm_at(u)),
    decreases end - vpn,
{
    if vpn < end {
        lemma_write_fault_none_inv(s, vpn + 1, end);
    }
}

/// A walk whose pages are all mapped runs into no read fault.
pub proof fn lemma_read_fault_none(s: AddressSpace, vpn: int, end: int)
    requires
        forall|u: int| vpn <= u < end ==> #[trigger] s.is_mapped(u),
    ensures
        read_fault(s, vpn, end) is None,
    decreases end - vpn,
{
    if vpn < end {
        lemma_read_fault_none(s, vpn + 1, end);
    }
}

/// Writes `data` into the calling task's address space at `user_ptr`,
/// splitting the range into per-page runs and walking the page table for each
/// run. Fails with `Unmapped` if a covered page has no mapping and with
/// `PermissionDenied` if a covered page lacks write permission, whichever
/// page comes first; a failed write changes nothing.
pub fn write_bytes(space: &mut AddressSpace, user_ptr: usize, data: &Vec<u8>) -> (r: Result<
    (),
    TranslateError,
>)
    requires
        old(space).wf(),
        user_ptr + data@.len() <= usize::MAX,
    ensures
        final(space).wf(),
        (match r {
            Ok(()) => write_fault(
                *old(space),
                vpn_of(user_ptr as int),
                vpn_range_end(user_ptr as int, data@.len() as int),
            ) is None && write_updates(*old(space), *final(space), user_ptr as int, data@),
            Err(e) => write_fault(
                *old(space),
                vpn_of(user_ptr as int),
                vpn_range_end(user_ptr as int, data@.len() as int),
            ) == Some(e) && *final(space) == *old(space),
        }),
{
    let len = data.len();
    if len == 0 {
        return Ok(());
    }
    let lo = user_ptr / PAGE_SIZE;
    let hi = (user_ptr + len - 1) / PAGE_SIZE + 1;
    let mut v = lo;
    while v < hi
        invariant
            lo <= v <= hi,
            *space == *old(space),
            space.wf(),
            0 < len == data@.len(),
            user_ptr + len <= usize::MAX,
            lo == vpn_of(user_ptr as int),
            hi == vpn_range_end(user_ptr as int, len as int),
            forall|u: int| lo <= u < v ==> #[trigger] space.is_mapped(u),
            forall|u: int| lo <= u < v ==> perm_allows_write(#[trigger] space.perm_at(u)),
        decreases hi - v,
    {
        match space.vpn_perm(v) {
            None => {
                proof {
                    lemma_write_fault_at(*space, lo as int, hi as int, v as int);
                }
                return Err(TranslateError::Unmapped);
            },
            Some(p) => {
                if p & 2 == 0 {
                    proof {
                        lemma_write_fault_at(*space, lo as int, hi as int, v as int);
                    }
                    return Err(TranslateError::PermissionDenied);
                }
                proof {
                    assert(space.is_mapped(v as int) && perm_allows_write(
                        space.perm_at(v as int),
                    ));
                }
            },
        }
        v = v + 1;
    }
    proof {
        lemma_write_fault_none(*space, lo as int, hi as int);
        space.lemma_index_of(hi - 1);
        assert(hi <= vpn_ceiling());
    }
    let ghost s0 = *space;
    let mut v = lo;
    while v < hi
        invariant
            lo <= v <= hi,
            hi <= vpn_ceiling(),
            space.wf(),
            0 < len == data@.len(),
            user_ptr + len <= usize::MAX,
            lo == vpn_of(user_ptr as int),
            hi == vpn_range_end(user_ptr as int, len as int),
            forall|u: int|
                lo <= u < hi ==> #[trigger] s0.is_mapped(u) && perm_allows_write(s0.perm_at(u)),
            forall|u: int| #![trigger space.is_mapped(u)]
                space.is_mapped(u) <==> s0.is_mapped(u),
            forall|u: int|
                space.is_mapped(u) ==> #[trigger] space.perm_at(u) == s0.perm_at(u),
            forall|i: int|
                0 <= i < len && user_ptr + i < v * (PAGE_SIZE as int) ==> #[trigger] space.byte_at(
                    user_ptr + i,
                ) == data@[i],
            forall|a: int|
                s0.is_mapped(vpn_of(a)) && (a < user_ptr || a >= user_ptr + len || a >= v * (
                PAGE_SIZE as int)) ==> #[trigger] space.byte_at(a) == s0.byte_at(a),
            space.heap_bottom == s0.heap_bottom,
            space.brk == s0.brk,
        decreases hi - v,
    {
        proof {
            assert((vpn_ceiling() * (PAGE_SIZE as int)) == MEMORY_END as int);
            lemma_mul_inequality(v + 1, vpn_ceiling(), PAGE_SIZE as int);
            lemma_page_in_range_addrs(user_ptr as int, len as int, v as int);
        }
        let page_base = v * PAGE_SIZE;
        let page_end = page_base + PAGE_SIZE;
        let run_lo = if user_ptr > page_base {
            user_ptr
        } else {
            page_base
        };
        let run_hi = if user_ptr + len < page_end {
            user_ptr + len
        } else {
            page_end
        };
        let off = run_lo - page_base;
        let cnt = run_hi - run_lo;
        let src_off = run_lo - user_ptr;
        let ghost sp = *space;
        space.write_page_bytes(v, off, data, src_off, cnt);
        proof {
            let p = PAGE_SIZE as int;
            let ptr = user_ptr as int;
            assert forall|i: int|
                0 <= i < len && ptr + i < (v + 1) * p implies #[trigger] space.byte_at(ptr + i)
                == data@[i] by {
                let a = ptr + i;
                lemma_addr_page_in_range(ptr, len as int, a);
                if a < v * p {
                    assert(sp.is_mapped(vpn_of(a)));
                    assert(a < v * p + off);
                    assert(space.byte_at(a) == sp.byte_at(a));
                } else {
                    assert(run_lo <= a < run_hi);
                    let j = a - run_lo;
                    assert(space.byte_at(v * p + off + j) == data@[src_off + j]);
                    assert(v * p + off + j == a);
                    assert(src_off + j == i);
                }
            }
            assert forall|a: int|
                s0.is_mapped(vpn_of(a)) && (a < ptr || a >= ptr + len || a >= (v + 1) * p) implies
                #[trigger] space.byte_at(a) == s0.byte_at(a) by {
                if a < ptr {
                    assert(a < v * p + off);
                    assert(space.byte_at(a) == sp.byte_at(a));
                } else if a >= ptr + len {
                    assert(a >= v * p + off + cnt);
                    assert(space.byte_at(a) == sp.byte_at(a));
                } else {
                    assert(a >= (v + 1) * p);
                    assert(a >= v * p + off + cnt);
                    assert(space.byte_at(a) == sp.byte_at(a));
                }
            }
        }
        v = v + 1;
    }
    proof {
        let p = PAGE_SIZE as int;
        let ptr = user_ptr as int;
        assert forall|i: int| 0 <= i < len implies #[trigger] space.byte_at(ptr + i)
            == data@[i] by {
            let a = ptr + i;
            lemma_addr_page_in_range(ptr, len as int, a);
            lemma_fundamental_div_mod(a, p);
            lemma_mul_inequality(vpn_of(a) + 1, hi as int, p);
        }
    }
    Ok(())
}

/// Reads `len` bytes from the calling task's address space at `user_ptr`,
/// splitting the range into per-page runs and walking the page table for each
/// run. Fails with `Unmapped` if a covered page has no mapping.
pub fn read_into(space: &AddressSpace, user_ptr: usize, len: usize) -> (r: Result<
    Vec<u8>,
    TranslateError,
>)
    requires
        space.wf(),
        user_ptr + len <= usize::MAX,
    ensures
        (match r {
            Ok(out) => read_fault(
                *space,
                vpn_of(user_ptr as int),
                vpn_range_end(user_ptr as int, len as int),
            ) is None && out@ == bytes_in(*space, user_ptr as int, len as int),
            Err(e) => read_fault(
                *space,
                vpn_of(user_ptr as int),
                vpn_range_end(user_ptr as int, len as int),
            ) == Some(e),
        }),
{
    let mut out: Vec<u8> = Vec::new();
    if len == 0 {
        proof {
            assert(out@ =~= bytes_in(*space, user_ptr as int, 0));
        }
        return Ok(out);
    }
    let lo = user_ptr / PAGE_SIZE;
    let hi = (user_ptr + len - 1) / PAGE_SIZE + 1;
    let mut v = lo;
    while v < hi
        invariant
            lo <= v <= hi,
            space.wf(),
            0 < len,
            user_ptr + len <= usize::MAX,
            lo == vpn_of(user_ptr as int),
            hi == vpn_range_end(user_ptr as int, len as int),
            forall|u: int| lo <= u < v ==> #[trigger] space.is_mapped(u),
        decreases hi - v,
    {
        if !space.query_vpn(v) {
            proof {
                lemma_read_fault_at(*space, lo as int, hi as int, v as int);
            }
            return Err(TranslateError::Unmapped);
        }
        v = v + 1;
    }
    proof {
        lemma_read_fault_none(*space, lo as int, hi as int);
        space.lemma_index_of(hi - 1);
        assert(hi <= vpn_ceiling());
    }
    let mut done: usize = 0;
    let mut v = lo;
    while v < hi
        invariant
            lo <= v <= hi,
            hi <= vpn_ceiling(),
            space.wf(),
            0 < len,
            user_ptr + len <= usize::MAX,
            lo == vpn_of(user_ptr as int),
            hi == vpn_range_end(user_ptr as int, len as int),
            forall|u: int| lo <= u < hi ==> #[trigger] space.is_mapped(u),
            done <= len,
            out@.len() == done,
            out@ == bytes_in(*space, user_ptr as int, done as int),
            v == lo ==> done == 0,
            v > lo && v < hi ==> user_ptr + done == v * (PAGE_SIZE as int),
            v == hi ==> done == len,
        decreases hi - v,
    {
        proof {
            assert((vpn_ceiling() * (PAGE_SIZE as int)) == MEMORY_END as int);
            lemma_mul_inequality(v + 1, vpn_ceiling(), PAGE_SIZE as int);
            lemma_page_in_range_addrs(user_ptr as int, len as int, v as int);
            lemma_fundamental_div_mod(user_ptr as int, PAGE_SIZE as int);
            if v > lo {
                lemma_mul_inequality(lo as int + 1, v as int, PAGE_SIZE as int);
            }
        }
        let page_base = v * PAGE_SIZE;
        let page_end = page_base + PAGE_SIZE;
        let run_lo = if user_ptr > page_base {
            user_ptr
        } else {
            page_base
        };
        let run_hi = if user_ptr + len < page_end {
            user_ptr + len
        } else {
            page_end
        };
        let off = run_lo - page_base;
        let cnt = run_hi - run_lo;
        proof {
            assert(run_lo == user_ptr + done);
        }
        let ghost prev = out@;
        space.read_page_bytes(v, off, cnt, &mut out);
        proof {
            let p = PAGE_SIZE as int;
            let ptr = user_ptr as int;
            assert forall|i: int| 0 <= i < done + cnt implies out@[i] == space.byte_at(
                ptr + i,
            ) by {
                if i < done {
                    assert(out@[i] == prev[i]);
                    assert(prev[i] == bytes_in(*space, ptr, done as int)[i]);
                } else {
                    let j = i - done;
                    assert(out@[done + j] == space.byte_at(v * p + off + j));
                    assert(v * p + off + j == ptr + i);
                }
            }
            assert(out@ =~= bytes_in(*space, ptr, (done + cnt) as int));
            lemma_fundamental_div_mod(ptr + len - 1, p);
            if v + 1 < hi {
                lemma_mul_inequality(v as int + 1, hi - 1, p);
                assert(((ptr + len - 1) / p) * p <= ptr + len - 1);
                assert(run_hi == page_end);
            } else {
                assert(ptr + len - 1 < (hi as int) * p);
                assert(run_hi == ptr + len);
            }
        }
        done = done + cnt;
        v = v + 1;
    }
    Ok(out)
}

/// Writing a byte range and then reading back the same range through the
/// translator hands back exactly the bytes written — also when the range
/// straddles one or more page boundaries, since nothing here assumes the
/// range lies within a single page.
pub proof fn lemma_write_read_round_trip(s0: AddressSpace, s1: AddressSpace, ptr: int, data: Seq<u8>)
    requires
        0 <= ptr,
        write_fault(s0, vpn_of(ptr), vpn_range_end(ptr, data.len() as int)) is None,
        write_updates(s0, s1, ptr, data),
    ensures
        read_fault(s1, vpn_of(ptr), vpn_range_end(ptr, data.len() as int)) is None,
        bytes_in(s1, ptr, data.len() as int) == data,
{
    lemma_write_fault_none_inv(s0, vpn_of(ptr), vpn_range_end(ptr, data.len() as int));
    lemma_read_fault_none(s1, vpn_of(ptr), vpn_range_end(ptr, data.len() as int));
    assert(bytes_in(s1, ptr, data.len() as int) =~= data);
}

/// A read fault is decided by the first unmapped page of the walk.
pub proof fn lemma_read_fault_at(s: AddressSpace, vpn: int, end: int, v: int)
    requires
        vpn <= v < end,
        forall|u: int| vpn <= u < v ==> #[trigger] s.is_mapped(u),
        !s.is_mapped(v),
    ensures
        read_fault(s, vpn, end) == Some(TranslateError::Unmapped),
    decreases v - vpn,
{
    if vpn < v {
        lemma_read_fault_at(s, vpn + 1, end, v);
    }
}

} // verus!
