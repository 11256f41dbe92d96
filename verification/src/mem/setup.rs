//! Memory set-up at boot: the frame allocator, the kernel's own address
//! space and the pages of the kernel heap.

use vstd::prelude::*;
use crate::boot::{BootInformation, ElfSection, MemoryArea};
use crate::bumpalloc::{HEAP_SIZE, HEAP_START};
use crate::mem::area_frame_allocator::{frames_of, free_frames, AreaFrameAllocator};
use crate::mem::paging::entry::{lemma_flag_constants, Entry, EntryFlags, PRESENT, WRITABLE};
use crate::mem::paging::hierarchy::lemma_low_pages_regular;
use crate::mem::paging::mapper::{MapError, Walk, IDENTITY_LIMIT};
use crate::mem::paging::remap::{covers, in_report, in_sections, lemma_plan_finite};
use crate::mem::paging::ways::{
    lemma_tables_for_insert, lemma_tables_for_subset, lemma_ways_made, tables_for, ways_for,
};
use crate::mem::paging::{
    canonical, kernel_mapped, mappable, plan, planned, try_remap_kernel, ActivePageTable, Page,
    CONSOLE_FRAME, SCRATCH_PAGE,
};
use crate::mem::{lemma_frames_below_finite, FrameAllocator};

verus! {

/// Number of the first page of the kernel heap.
pub const HEAP_FIRST_PAGE: u64 = 0x4_0000;

/// Number of the last page of the kernel heap.
pub const HEAP_LAST_PAGE: u64 = 0x4_0018;

/// Whether `page` belongs to the kernel heap.
pub open spec fn heap_page(page: Page) -> bool {
    HEAP_FIRST_PAGE <= page.number <= HEAP_LAST_PAGE
}

/// The numbers of the pages of the kernel heap.
pub open spec fn heap_pages() -> Set<u64> {
    Set::new(|n: u64| HEAP_FIRST_PAGE <= n <= HEAP_LAST_PAGE)
}

/// The numbers of the pages of the kernel heap below `next`.
pub open spec fn heap_pages_below(next: u64) -> Set<u64> {
    Set::new(|n: u64| HEAP_FIRST_PAGE <= n <= HEAP_LAST_PAGE && n < next)
}

/// Whether `start` is the lowest address at which an allocated section
/// starts.
pub open spec fn is_kernel_start(sections: Seq<ElfSection>, start: u64) -> bool {
    &&& exists|i: int| 0 <= i < sections.len() && (#[trigger] sections[i]).allocated()
        && sections[i].addr == start
    &&& forall|i: int| 0 <= i < sections.len() && (#[trigger] sections[i]).allocated() ==> start
        <= sections[i].addr
}

/// Whether `end` is the highest address at which an allocated section
/// ends.
pub open spec fn is_kernel_end(sections: Seq<ElfSection>, end: u64) -> bool {
    &&& exists|i: int| 0 <= i < sections.len() && (#[trigger] sections[i]).allocated()
        && sections[i].addr + sections[i].size == end
    &&& forall|i: int| 0 <= i < sections.len() && (#[trigger] sections[i]).allocated()
        ==> sections[i].addr + sections[i].size <= end
}

/// The lowest address at which an allocated section starts.
pub open spec fn kernel_start(sections: Seq<ElfSection>) -> u64 {
    choose|start: u64| is_kernel_start(sections, start)
}

/// The highest address at which an allocated section ends.
pub open spec fn kernel_end(sections: Seq<ElfSection>) -> u64 {
    choose|end: u64| is_kernel_end(sections, end)
}

/// Whether one of the sections is allocated.
pub open spec fn has_allocated(sections: Seq<ElfSection>) -> bool {
    exists|i: int| 0 <= i < sections.len() && (#[trigger] sections[i]).allocated()
}

/// The extent of the kernel image: the lowest start and the highest end
/// among the allocated sections.
pub fn kernel_bounds(sections: &Vec<ElfSection>) -> (bounds: (u64, u64))
    requires
        has_allocated(sections@),
        forall|i: int| 0 <= i < sections@.len() && (#[trigger] sections@[i]).allocated()
            ==> sections@[i].wf(),
    ensures
        is_kernel_start(sections@, bounds.0),
        is_kernel_end(sections@, bounds.1),
        bounds.0 == kernel_start(sections@),
        bounds.1 == kernel_end(sections@),
{
    let mut start: u64 = 0;
    let mut end: u64 = 0;
    let mut found = false;
    let mut k: usize = 0;
    while k < sections.len()
        invariant
            k <= sections.len(),
            forall|i: int| 0 <= i < sections@.len() && (#[trigger] sections@[i]).allocated()
                ==> sections@[i].wf(),
            found <==> exists|i: int| 0 <= i < k && (#[trigger] sections@[i]).allocated(),
            found ==> {
                &&& exists|i: int| 0 <= i < k && (#[trigger] sections@[i]).allocated()
                    && sections@[i].addr == start
                &&& exists|i: int| 0 <= i < k && (#[trigger] sections@[i]).allocated()
                    && sections@[i].addr + sections@[i].size == end
                &&& forall|i: int| 0 <= i < k && (#[trigger] sections@[i]).allocated() ==> start
                    <= sections@[i].addr && sections@[i].addr + sections@[i].size <= end
            },
        decreases sections.len() - k,
    {
        let section = &sections[k];
        if section.is_allocated() {
            if !found || section.start_address() < start {
                start = section.start_address();
            }
            if !found || section.end_address() > end {
                end = section.end_address();
            }
            found = true;
        }
        k += 1;
    }
    proof {
        assert(is_kernel_start(sections@, start));
        assert(is_kernel_end(sections@, end));
        lemma_kernel_bounds_unique(
            sections@,
            start,
            end,
            kernel_start(sections@),
            kernel_end(sections@),
        );
    }
    (start, end)
}

/// First and last frame of the kernel image: the frames that hold a byte
/// from the lowest section start up to but without the highest section
/// end.
pub open spec fn kernel_frames(boot_info: BootInformation) -> (u64, u64) {
    frames_of(
        kernel_start(boot_info.elf_sections.unwrap()@),
        kernel_end(boot_info.elf_sections.unwrap()@),
    )
}

/// First and last frame of the boot loader's report.
pub open spec fn report_frames(boot_info: BootInformation) -> (u64, u64) {
    frames_of(boot_info.start, boot_info.end)
}

/// Whether frame `n` holds a byte of the kernel image.
pub open spec fn in_kernel(boot_info: BootInformation, n: u64) -> bool {
    kernel_frames(boot_info).0 <= n <= kernel_frames(boot_info).1
}

/// Whether frame `n` holds a byte of the kernel image or of the boot
/// loader's report.
pub open spec fn reserved_at_boot(boot_info: BootInformation, n: u64) -> bool {
    in_kernel(boot_info, n) || report_frames(boot_info).0 <= n <= report_frames(boot_info).1
}

/// The frames that the allocator hands out in all: those of the memory
/// regions that hold no frame of the kernel image and none of the boot
/// loader's report.
pub open spec fn free_at_boot(boot_info: BootInformation) -> Set<u64> {
    free_frames(boot_info.memory_map.unwrap()@, kernel_frames(boot_info), report_frames(boot_info))
}

/// How many frames memory set-up takes: three for the temporary page, one
/// for the kernel's top-level table, one for each table below it on the
/// way to a page of the kernel or of the heap, and one for each of the 25
/// pages of the heap.
pub open spec fn frames_for_set_up(boot_info: BootInformation) -> nat {
    4 + tables_for(plan(boot_info).union(heap_pages())) + 25
}

/// Memory is set up: the kernel's own mappings stand in the address space
/// of `table`, which the processor uses; each page of the heap is mapped
/// writable to a frame of its own, which is not reserved, holds no table
/// and is not handed out again; and no other page outside the recursive
/// window is mapped.
pub open spec fn set_up(
    table: ActivePageTable,
    allocator: AreaFrameAllocator,
    boot_info: BootInformation,
    old_top: u64,
) -> bool {
    &&& table@.wf()
    &&& table@.coherent()
    &&& allocator.inv()
    &&& table@.apart_from(allocator.pool())
    &&& kernel_mapped(table@, boot_info, old_top)
    &&& forall|q: Page|
        heap_page(q) ==> {
            &&& #[trigger] table@.walk(q) matches Walk::Leaf(entry)
            &&& entry == Entry::of(entry.frame_number(), WRITABLE | PRESENT)
            &&& !reserved_at_boot(boot_info, entry.frame_number())
            &&& !allocator.pool().contains(entry.frame_number())
            &&& !table@.has_table(entry.frame_number())
        }
    &&& forall|p: Page, q: Page|
        heap_page(p) && heap_page(q) && p != q ==> (#[trigger] table@.walk(p)).frame() != (
        #[trigger] table@.walk(q)).frame()
    &&& forall|q: Page|
        q.regular() && !planned(boot_info, q.number) && !heap_page(q) ==> #[trigger] table@.walk(q)
            == (Walk::Vacant { clear: true })
}

/// Sets up memory: a frame allocator over the memory regions that the
/// boot loader reported, which leaves out the kernel image and the boot
/// loader's report; a new address space for the kernel; and in it the
/// pages of the kernel heap, each mapped writable to a frame of its own.
/// The regions must hold as many free frames as this takes.
pub fn init(active_table: ActivePageTable, boot_info: &BootInformation) -> (memory: (
    ActivePageTable,
    AreaFrameAllocator,
))
    requires
        boot_info.memory_map is Some,
        forall|i: int|
            0 <= i < boot_info.memory_map.unwrap()@.len()
                ==> (#[trigger] boot_info.memory_map.unwrap()@[i]).wf(),
        mappable(*boot_info),
        has_allocated(boot_info.elf_sections.unwrap()@),
        active_table@.wf(),
        active_table@.coherent(),
        active_table@.walk(Page { number: SCRATCH_PAGE }) == (Walk::Vacant { clear: true }),
        planned(*boot_info, active_table@.register()),
        forall|n: u64| #[trigger] active_table@.has_table(n) ==> in_kernel(*boot_info, n),
        forall|q: Page| heap_page(q) ==> !planned(*boot_info, q.number),
        free_at_boot(*boot_info).len() >= frames_for_set_up(*boot_info),
    ensures
        set_up(memory.0, memory.1, *boot_info, active_table@.register()),
{
    try_init(active_table, boot_info).unwrap()
}

/// As `init`, for a caller that cannot tell how many free frames the
/// memory regions hold: where they run out before memory is set up, the
/// attempt ends with an error.
pub fn try_init(active_table: ActivePageTable, boot_info: &BootInformation) -> (result: Result<
    (ActivePageTable, AreaFrameAllocator),
    MapError,
>)
    requires
        boot_info.memory_map is Some,
        forall|i: int|
            0 <= i < boot_info.memory_map.unwrap()@.len()
                ==> (#[trigger] boot_info.memory_map.unwrap()@[i]).wf(),
        mappable(*boot_info),
        has_allocated(boot_info.elf_sections.unwrap()@),
        active_table@.wf(),
        active_table@.coherent(),
        active_table@.walk(Page { number: SCRATCH_PAGE }) == (Walk::Vacant { clear: true }),
        planned(*boot_info, active_table@.register()),
        forall|n: u64| #[trigger] active_table@.has_table(n) ==> in_kernel(*boot_info, n),
        forall|q: Page| heap_page(q) ==> !planned(*boot_info, q.number),
    ensures
        result is Ok <==> free_at_boot(*boot_info).len() >= frames_for_set_up(*boot_info),
        result matches Ok((table, allocator)) ==> set_up(
            table,
            allocator,
            *boot_info,
            active_table@.register(),
        ),
{
    broadcast use vstd::set::group_set_axioms;

    let memory_map = boot_info.memory_map_tag().unwrap();
    let elf = boot_info.elf_sections_tag().unwrap();
    proof {
        assert forall|i: int| 0 <= i < elf@.len() && (#[trigger] elf@[i]).allocated()
            implies elf@[i].wf() by {}
    }
    let (kernel_first, kernel_last) = kernel_bounds(elf);
    let mut areas: Vec<MemoryArea> = Vec::new();
    let mut k: usize = 0;
    while k < memory_map.len()
        invariant
            k <= memory_map.len(),
            areas@ == memory_map@.subrange(0, k as int),
        decreases memory_map.len() - k,
    {
        areas.push(memory_map[k]);
        proof {
            assert(areas@ =~= memory_map@.subrange(0, k as int + 1));
        }
        k += 1;
    }
    proof {
        assert(areas@ =~= memory_map@);
        assert(boot_info.memory_map.unwrap()@ == memory_map@);
        assert forall|i: int| 0 <= i < areas@.len() implies (#[trigger] areas@[i]).wf() by {
            assert(boot_info.memory_map.unwrap()@[i].wf());
        }
    }
    let mut frame_allocator = AreaFrameAllocator::new(
        kernel_first,
        kernel_last,
        boot_info.start_address(),
        boot_info.end_address(),
        areas,
    );
    proof {
        frame_allocator.lemma_pool();
        assert forall|n: u64| #[trigger] frame_allocator.pool().contains(n)
            implies !active_table@.has_table(n) && n < 0x100_0000_0000 by {
            if active_table@.has_table(n) {
                assert(in_kernel(*boot_info, n));
                assert(frame_allocator.reserved(n));
            }
        }
    }
    let ghost old_top = active_table@.register();
    let ghost usable = frame_allocator.pool();
    let ghost all = plan(*boot_info).union(heap_pages());
    proof {
        lemma_plan_finite(*boot_info);
        lemma_frames_below_finite(IDENTITY_LIMIT, heap_pages());
        lemma_tables_for_subset(plan(*boot_info), all);
    }
    proof {
        assert(usable == free_at_boot(*boot_info));
        assert forall|n: u64| usable.contains(n) implies !reserved_at_boot(*boot_info, n) by {
            assert(!frame_allocator.reserved(n));
        }
    }
    let mut active_table = match try_remap_kernel(active_table, &mut frame_allocator, boot_info) {
        Ok(table) => table,
        Err(error) => {
            return Err(error);
        },
    };
    let ghost remapped = active_table@;
    let ghost pool_r = frame_allocator.pool();
    proof {
        lemma_heap_pages();
    }
    let ghost mut mapped = plan(*boot_info);
    proof {
        assert(mapped =~= plan(*boot_info).union(heap_pages_below(HEAP_FIRST_PAGE)));
    }
    let heap_start_page = Page::containing(HEAP_START as u64);
    let heap_end_page = Page::containing((HEAP_START + HEAP_SIZE - 1) as u64);
    let mut pages = Page::range_inclusive(heap_start_page, heap_end_page);
    loop
        invariant
            pages.wf(),
            pages.end.number == HEAP_LAST_PAGE,
            HEAP_FIRST_PAGE <= pages.start.number <= HEAP_LAST_PAGE + 1,
            active_table@.wf(),
            active_table@.coherent(),
            active_table@.root() == remapped.root(),
            remapped.is_top(remapped.root()),
            frame_allocator.inv(),
            frame_allocator.pool().finite(),
            frame_allocator.pool().subset_of(pool_r),
            forall|n: u64|
                pool_r.contains(n) ==> !reserved_at_boot(*boot_info, n),
            active_table@.apart_from(frame_allocator.pool()),
            forall|p: Page, q: Page|
                heap_page(p) && heap_page(q) && p != q && p.number < pages.start.number && q.number
                    < pages.start.number ==> (#[trigger] active_table@.walk(p)).frame() != (
                #[trigger] active_table@.walk(q)).frame(),
            forall|q: Page|
                q.regular() && !(heap_page(q) && q.number < pages.start.number)
                    ==> #[trigger] active_table@.walk(
                    q,
                ) == remapped.walk(q),
            forall|q: Page|
                heap_page(q) && q.number < pages.start.number ==> {
                    &&& #[trigger] active_table@.walk(q) matches Walk::Leaf(entry)
                    &&& entry == Entry::of(entry.frame_number(), WRITABLE | PRESENT)
                    &&& pool_r.contains(entry.frame_number())
                    &&& !frame_allocator.pool().contains(entry.frame_number())
                    &&& !active_table@.has_table(entry.frame_number())
                },
            forall|q: Page| heap_page(q) ==> !planned(*boot_info, q.number),
            forall|q: Page|
                q.regular() && !planned(*boot_info, q.number) ==> #[trigger] remapped.walk(q) == (
                Walk::Vacant { clear: true }),
            kernel_mapped(remapped, *boot_info, old_top),
            all == plan(*boot_info).union(heap_pages()),
            all.finite(),
            forall|n: u64| all.contains(n) ==> n < IDENTITY_LIMIT,
            mapped == plan(*boot_info).union(heap_pages_below(pages.start.number)),
            mapped.finite(),
            ways_for(active_table@, remapped.root(), mapped),
            frame_allocator.pool().len() + tables_for(mapped)
                + (pages.start.number - HEAP_FIRST_PAGE) + 4
                == usable.len(),
            usable == free_at_boot(*boot_info),
        ensures
            pages.start.number > HEAP_LAST_PAGE,
        decreases pages.remaining(),
    {
        let page = match pages.next() {
            Some(page) => page,
            None => {
                break ;
            },
        };
        proof {
            lemma_heap_page_regular(page);
            lemma_flag_constants();
        }
        let ghost before = active_table@;
        let ghost pool_before = frame_allocator.pool();
        proof {
            assert forall|d: u64| mapped.contains(d) implies d < IDENTITY_LIMIT by {
                assert(all.contains(d));
            }
            lemma_tables_for_insert(before, before.root(), mapped, page.number);
            assert(mapped.insert(page.number).subset_of(all));
            lemma_tables_for_subset(mapped.insert(page.number), all);
            assert(heap_page(page));
            assert(!planned(*boot_info, page.number));
            assert(remapped.walk(page) == (Walk::Vacant { clear: true }));
            assert(before.walk(page) == remapped.walk(page));
        }
        match active_table.deref_mut().try_map(
            page,
            EntryFlags::from_bits_truncate(WRITABLE),
            &mut frame_allocator,
        ) {
            Ok(()) => {},
            Err(error) => {
                return Err(error);
            },
        }
        proof {
            let after = active_table@;
            lemma_ways_made(before, after, mapped, page.number);
            mapped = mapped.insert(page.number);
            assert(mapped =~= plan(*boot_info).union(heap_pages_below(pages.start.number)));
            assert(before.is_top(before.root()));
            assert forall|q: Page|
                q.regular() && !(heap_page(q) && q.number < pages.start.number)
                    implies #[trigger] after.walk(
                q,
            ) == remapped.walk(q) by {
                if q == page {
                    assert(heap_page(q) && q.number < pages.start.number);
                } else {
                    assert(after.walk_from(before.root(), q) == before.walk_from(before.root(), q));
                    assert(before.walk(q) == remapped.walk(q));
                }
            }
            assert forall|q: Page| heap_page(q) && q.number < pages.start.number implies {
                &&& #[trigger] after.walk(q) matches Walk::Leaf(entry)
                &&& entry == Entry::of(entry.frame_number(), WRITABLE | PRESENT)
                &&& pool_r.contains(entry.frame_number())
                &&& !frame_allocator.pool().contains(entry.frame_number())
                &&& !after.has_table(entry.frame_number())
            } by {
                lemma_heap_page_regular(q);
                if q != page {
                    assert(after.walk_from(before.root(), q) == before.walk_from(before.root(), q));
                    let entry = before.walk(q)->Leaf_0;
                    assert(!pool_before.contains(entry.frame_number()));
                }
            }
            assert forall|p: Page, q: Page|
                heap_page(p) && heap_page(q) && p != q && p.number < pages.start.number && q.number
                    < pages.start.number implies (#[trigger] after.walk(p)).frame() != (
            #[trigger] after.walk(q)).frame() by {
                lemma_heap_page_regular(p);
                lemma_heap_page_regular(q);
                if p != page {
                    assert(after.walk_from(before.root(), p) == before.walk_from(before.root(), p));
                    assert(!pool_before.contains(before.walk(p)->Leaf_0.frame_number()));
                }
                if q != page {
                    assert(after.walk_from(before.root(), q) == before.walk_from(before.root(), q));
                    assert(!pool_before.contains(before.walk(q)->Leaf_0.frame_number()));
                }
            }
        }
    }
    proof {
        let table = active_table@;
        assert(mapped =~= all);
        assert(kernel_mapped(table, *boot_info, old_top)) by {
            let sections = boot_info.elf_sections.unwrap()@;
            assert forall|i: int, n: u64|
                0 <= i < sections.len() && #[trigger] covers(sections[i], n)
                    && n != old_top implies table.walk(
                Page { number: n },
            ) == Walk::Leaf(Entry::of(n, EntryFlags::for_section(sections[i]) | PRESENT)) by {
                assert(in_sections(sections, sections.len() as int, n));
                lemma_low_pages_regular(n);
                assert(table.walk(Page { number: n }) == remapped.walk(Page { number: n }));
            }
            assert forall|n: u64| in_report(*boot_info, n) && n != old_top
                implies #[trigger] table.walk(
                Page { number: n },
            ) == Walk::Leaf(Entry::of(n, PRESENT)) by {
                lemma_low_pages_regular(n);
                assert(table.walk(Page { number: n }) == remapped.walk(Page { number: n }));
            }
            lemma_low_pages_regular(CONSOLE_FRAME);
            lemma_low_pages_regular(old_top);
            assert(table.walk(Page { number: old_top }) == remapped.walk(Page { number: old_top }));
        }
    }
    Ok((active_table, frame_allocator))
}

/// The lowest section start and the highest section end are unique.
pub proof fn lemma_kernel_bounds_unique(sections: Seq<ElfSection>, a: u64, b: u64, c: u64, d: u64)
    requires
        is_kernel_start(sections, a),
        is_kernel_end(sections, b),
        is_kernel_start(sections, c),
        is_kernel_end(sections, d),
    ensures
        a == c,
        b == d,
{
}



/// The kernel heap lies on the pages 0x40000 through 0x40018.
pub proof fn lemma_heap_pages()
    ensures
        canonical(HEAP_START as u64),
        canonical((HEAP_START + HEAP_SIZE - 1) as u64),
        HEAP_START as u64 / 4096 == 0x4_0000,
        (HEAP_START + HEAP_SIZE - 1) as u64 / 4096 == 0x4_0018,
{
}

/// A page of the kernel heap is canonical and lies outside the recursive
/// window.
pub proof fn lemma_heap_page_regular(page: Page)
    requires
        0x4_0000 <= page.number <= 0x4_0018,
    ensures
        page.regular(),
{
    let n = page.number;
    assert((n >> 27) & 0x1ff != 511) by (bit_vector)
        requires
            0x4_0000u64 <= n && n <= 0x4_0018u64,
    ;
}

} // verus!
