//! Anonymous memory mappings (`mmap` / `munmap`) over a page-granular model of
//! a user address space.

use std::collections::HashMap;
use vstd::prelude::*;

verus! {

broadcast use vstd::std_specs::hash::group_hash_axioms;

/// Bytes in one page.
pub const PAGE_SIZE: usize = 4096;

/// Page-table permission bit: readable.
pub const PERM_R: u8 = 2;
/// Page-table permission bit: writable.
pub const PERM_W: u8 = 4;
/// Page-table permission bit: executable.
pub const PERM_X: u8 = 8;
/// Page-table permission bit: accessible from user mode.
pub const PERM_U: u8 = 16;

/// The user pages of one address space: each mapped virtual page number
/// with its permission bits.
pub struct MemorySet {
    pages: HashMap<usize, u8>,
}

impl View for MemorySet {
    type V = Map<usize, u8>;

    closed spec fn view(&self) -> Map<usize, u8> {
        self.pages@
    }
}

/// Rounds a length up to a whole number of pages.
pub open spec fn page_round_up(len: int) -> int {
    (len + PAGE_SIZE - 1) / (PAGE_SIZE as int) * PAGE_SIZE
}

/// No page in `[lo, hi)` is mapped in `m`.
pub open spec fn range_unmapped(m: Map<usize, u8>, lo: int, hi: int) -> bool {
    forall|v: usize| lo <= v < hi ==> !#[trigger] m.contains_key(v)
}

/// Every page in `[lo, hi)` is mapped in `m`.
pub open spec fn range_mapped(m: Map<usize, u8>, lo: int, hi: int) -> bool {
    forall|v: usize| lo <= v < hi ==> #[trigger] m.contains_key(v)
}

/// `m` with every page of `[lo, hi)` mapped with `perm`.
pub open spec fn map_range(m: Map<usize, u8>, lo: int, hi: int, perm: u8) -> Map<usize, u8> {
    m.union_prefer_right(Map::new(|v: usize| lo <= v < hi, |v: usize| perm))
}

/// `m` with every page of `[lo, hi)` removed.
pub open spec fn unmap_range(m: Map<usize, u8>, lo: int, hi: int) -> Map<usize, u8> {
    m.remove_keys(Set::new(|v: usize| lo <= v < hi))
}

/// The permission bits that an `mmap` protection word (bit 0 read, bit 1
/// write, bit 2 execute) stands for, user access always added.
pub open spec fn port_perm(port: usize) -> u8 {
    (PERM_U + 2 * port) as u8
}

/// The arguments that `sys_mmap` refuses before looking at the address space.
pub open spec fn mmap_args_bad(start: usize, len: usize, port: usize) -> bool {
    start % PAGE_SIZE != 0 || len == 0 || port == 0 || port > 7
}

/// First page number of the range `[start, start + len)`.
pub open spec fn first_page(start: usize) -> int {
    (start as int) / (PAGE_SIZE as int)
}

/// One past the last page number of the range `[start, start + len)` once
/// `len` is rounded up to whole pages.
pub open spec fn end_page(start: usize, len: usize) -> int {
    (start + page_round_up(len as int)) / (PAGE_SIZE as int)
}

impl MemorySet {
    /// An address space with no user pages.
    pub fn new() -> (ms: MemorySet)
        ensures
            ms@ == Map::<usize, u8>::empty(),
    {
        MemorySet { pages: HashMap::new() }
    }

    /// The permission bits of page `vpn`, if it is mapped.
    pub fn translate(&self, vpn: usize) -> (r: Option<u8>)
        ensures
            r == (if self@.contains_key(vpn) { Some(self@[vpn]) } else { None::<u8> }),
    {
        match self.pages.get(&vpn) {
            Some(p) => Some(*p),
            None => None,
        }
    }

    /// Whether no page of `[lo, hi)` is mapped.
    fn is_range_free(&self, lo: usize, hi: usize) -> (r: bool)
        ensures
            r == range_unmapped(self@, lo as int, hi as int),
    {
        let mut v = lo;
        while v < hi
            invariant
                lo <= v,
                range_unmapped(self@, lo as int, v as int),
            decreases hi - v,
        {
            if self.pages.contains_key(&v) {
                return false;
            }
            v = v + 1;
        }
        true
    }

    /// Whether every page of `[lo, hi)` is mapped.
    fn is_range_full(&self, lo: usize, hi: usize) -> (r: bool)
        ensures
            r == range_mapped(self@, lo as int, hi as int),
    {
        let mut v = lo;
        while v < hi
            invariant
                lo <= v,
                range_mapped(self@, lo as int, v as int),
            decreases hi - v,
        {
            if !self.pages.contains_key(&v) {
                return false;
            }
            v = v + 1;
        }
        true
    }

    /// Maps the pages `[lo, hi)` with `perm`, unless one of them is mapped
    /// already: then the address space is left as it was and -1 returned.
    pub fn mmap(&mut self, lo: usize, hi: usize, perm: u8) -> (r: isize)
        ensures
            r == 0 || r == -1,
            r == 0 <==> range_unmapped(old(self)@, lo as int, hi as int),
            r == 0 ==> final(self)@ == map_range(old(self)@, lo as int, hi as int, perm),
            r == -1 ==> final(self)@ == old(self)@,
    {
        if !self.is_range_free(lo, hi) {
            return -1;
        }
        let ghost m0 = self@;
        let mut v = lo;
        while v < hi
            invariant
                lo <= v,
                v <= hi || lo > hi,
                self@ == map_range(m0, lo as int, if v <= hi { v as int } else { hi as int }, perm),
            decreases hi - v,
        {
            self.pages.insert(v, perm);
            v = v + 1;
            assert(self@ =~= map_range(m0, lo as int, v as int, perm));
        }
        assert(self@ =~= map_range(m0, lo as int, hi as int, perm));
        0
    }

    /// Unmaps the pages `[lo, hi)`, unless one of them is not mapped: then the
    /// address space is left as it was and -1 returned.
    pub fn munmap(&mut self, lo: usize, hi: usize) -> (r: isize)
        ensures
            r == 0 || r == -1,
            r == 0 <==> range_mapped(old(self)@, lo as int, hi as int),
            r == 0 ==> final(self)@ == unmap_range(old(self)@, lo as int, hi as int),
            r == -1 ==> final(self)@ == old(self)@,
    {
        if !self.is_range_full(lo, hi) {
            return -1;
        }
        let ghost m0 = self@;
        let mut v = lo;
        while v < hi
            invariant
                lo <= v,
                v <= hi || lo > hi,
                self@ == unmap_range(m0, lo as int, if v <= hi { v as int } else { hi as int }),
            decreases hi - v,
        {
            self.pages.remove(&v);
            v = v + 1;
            assert(self@ =~= unmap_range(m0, lo as int, v as int));
        }
        assert(self@ =~= unmap_range(m0, lo as int, hi as int));
        0
    }
}


proof fn lemma_port_perm(port: usize)
    by (bit_vector)
    requires
        port <= 7,
    ensures
        (16u8 | (if port & 1 != 0 { 2u8 } else { 0u8 }) | (if port & 2 != 0 { 4u8 } else { 0u8 }) | (
        if port & 4 != 0 { 8u8 } else { 0u8 })) == (16 + 2 * port) as u8,
{
}

proof fn lemma_port_low_bits(port: usize)
    by (bit_vector)
    ensures
        ((port & !7usize) != 0) == (port > 7),
{
}

/// `mmap(start, len, port)`: maps `[start, start + len)`, `len` rounded up to
/// whole pages, readable, writable and executable as bits 0, 1 and 2 of
/// `port` say. Returns 0, or -1 when `start` is not page-aligned, `len` is 0,
/// `port` is 0 or has a bit above bit 2, or a page of the range is mapped
/// already; the address space is then unchanged.
pub fn sys_mmap(ms: &mut MemorySet, start: usize, len: usize, port: usize) -> (r: isize)
    requires
        mmap_args_bad(start, len, port) || (len + PAGE_SIZE <= usize::MAX && start
            + page_round_up(len as int) <= usize::MAX),
    ensures
        r == 0 || r == -1,
        r == 0 <==> !mmap_args_bad(start, len, port) && range_unmapped(
            old(ms)@,
            first_page(start),
            end_page(start, len),
        ),
        r == 0 ==> final(ms)@ == map_range(
            old(ms)@,
            first_page(start),
            end_page(start, len),
            port_perm(port),
        ),
        r == -1 ==> final(ms)@ == old(ms)@,
        r == 0 ==> forall|a: int|
            start <= a < start + len ==> #[trigger] final(ms)@.contains_key((a / 4096) as usize)
                && final(ms)@[(a / 4096) as usize] == (16 + 2 * port) as u8,
        r == 0 ==> forall|v: usize|
            v * 4096 >= start + len + 4095 ==> (#[trigger] final(ms)@.contains_key(v)
                == old(ms)@.contains_key(v)),
{
    if start % PAGE_SIZE != 0 || len == 0 {
        return -1;
    }
    proof {
        lemma_port_low_bits(port);
    }
    if port & !0x7 != 0 || port == 0 {
        return -1;
    }
    let perm: u8 = PERM_U | (if port & 1 != 0 { PERM_R } else { 0 }) | (if port & 2 != 0 {
        PERM_W
    } else {
        0
    }) | (if port & 4 != 0 { PERM_X } else { 0 });
    proof {
        lemma_port_perm(port);
    }
    let alen = (len + PAGE_SIZE - 1) / PAGE_SIZE * PAGE_SIZE;
    let r = ms.mmap(start / PAGE_SIZE, (start + alen) / PAGE_SIZE, perm);
    proof {
        if r == 0 {
            assert forall|a: int| start <= a < start + len implies #[trigger] ms@.contains_key(
                (a / 4096) as usize,
            ) && ms@[(a / 4096) as usize] == (16 + 2 * port) as u8 by {
                assert(start / 4096 <= a / 4096 < (start + alen) / 4096);
            }
            assert forall|v: usize| v * 4096 >= start + len + 4095 implies (#[trigger] ms@.contains_key(v)
                == old(ms)@.contains_key(v)) by {
                assert(v >= (start + alen) / 4096);
            }
        }
    }
    r
}

/// `munmap(start, len)`: unmaps `[start, start + len)`, `len` rounded up to
/// whole pages. Returns 0, or -1 when `start` is not page-aligned, `len` is 0
/// or a page of the range is not mapped; the address space is then unchanged.
pub fn sys_munmap(ms: &mut MemorySet, start: usize, len: usize) -> (r: isize)
    requires
        start % PAGE_SIZE != 0 || len == 0 || (len + PAGE_SIZE <= usize::MAX && start
            + page_round_up(len as int) <= usize::MAX),
    ensures
        r == 0 || r == -1,
        r == 0 <==> start % PAGE_SIZE == 0 && len != 0 && range_mapped(
            old(ms)@,
            first_page(start),
            end_page(start, len),
        ),
        r == 0 ==> final(ms)@ == unmap_range(old(ms)@, first_page(start), end_page(start, len)),
        r == -1 ==> final(ms)@ == old(ms)@,
        r == 0 ==> forall|a: int|
            start <= a < start + len ==> !#[trigger] final(ms)@.contains_key((a / 4096) as usize),
        r == 0 ==> forall|v: usize|
            v * 4096 >= start + len + 4095 ==> (#[trigger] final(ms)@.contains_key(v)
                == old(ms)@.contains_key(v)),
{
    if start % PAGE_SIZE != 0 || len == 0 {
        return -1;
    }
    let alen = (len + PAGE_SIZE - 1) / PAGE_SIZE * PAGE_SIZE;
    let r = ms.munmap(start / PAGE_SIZE, (start + alen) / PAGE_SIZE);
    proof {
        if r == 0 {
            assert forall|a: int| start <= a < start + len implies !#[trigger] ms@.contains_key(
                (a / 4096) as usize,
            ) by {
                assert(start / 4096 <= a / 4096 < (start + alen) / 4096);
            }
            assert forall|v: usize| v * 4096 >= start + len + 4095 implies (#[trigger] ms@.contains_key(v)
                == old(ms)@.contains_key(v)) by {
                assert(v >= (start + alen) / 4096);
            }
        }
    }
    r
}


/// Rounding up to whole pages gives the least multiple of the page size that
/// is at least the length: a mapping covers every byte asked for and less
/// than one page more.
pub proof fn lemma_page_round_up_least_cover(len: int)
    requires
        len >= 0,
    ensures
        page_round_up(len) % (PAGE_SIZE as int) == 0,
        len <= page_round_up(len) < len + PAGE_SIZE,
{
}

/// Unmapping a range right after it was mapped succeeds and gives back the
/// address space as it was before the mapping.
pub proof fn lemma_munmap_undoes_mmap(m: Map<usize, u8>, lo: int, hi: int, perm: u8)
    requires
        range_unmapped(m, lo, hi),
    ensures
        range_mapped(map_range(m, lo, hi, perm), lo, hi),
        unmap_range(map_range(m, lo, hi, perm), lo, hi) == m,
        range_unmapped(unmap_range(map_range(m, lo, hi, perm), lo, hi), lo, hi),
{
    assert(unmap_range(map_range(m, lo, hi, perm), lo, hi) =~= m);
}

/// After a successful unmap no page of the range is mapped, and the pages
/// outside it are as they were.
pub proof fn lemma_munmap_clears_range(m: Map<usize, u8>, lo: int, hi: int, v: usize)
    ensures
        range_unmapped(unmap_range(m, lo, hi), lo, hi),
        !(lo <= v < hi) ==> (unmap_range(m, lo, hi).contains_key(v) == m.contains_key(v) && (
        m.contains_key(v) ==> unmap_range(m, lo, hi)[v] == m[v])),
{
}

/// Right after a range was mapped, each of its pages carries the requested
/// permission, and the pages outside it are as they were.
pub proof fn lemma_mmap_maps_range(m: Map<usize, u8>, lo: int, hi: int, perm: u8, v: usize)
    ensures
        lo <= v < hi ==> map_range(m, lo, hi, perm).contains_key(v) && map_range(
            m,
            lo,
            hi,
            perm,
        )[v] == perm,
        !(lo <= v < hi) ==> (map_range(m, lo, hi, perm).contains_key(v) == m.contains_key(v)
            && (m.contains_key(v) ==> map_range(m, lo, hi, perm)[v] == m[v])),
{
}

} // verus!
