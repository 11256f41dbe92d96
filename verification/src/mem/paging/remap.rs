//! The kernel's own address space: which frames the kernel maps to the
//! pages at their own addresses, and the function that builds the new
//! hierarchy and makes the processor use it.

use vstd::prelude::*;
use crate::boot::{BootInformation, ElfSection};
use crate::mem::{Frame, FrameAllocator};
use crate::mem::paging::entry::{
    lemma_flag_constants, Entry, EntryFlags, NO_EXECUTE, PRESENT, WRITABLE,
};
use crate::mem::paging::hierarchy::lemma_low_pages_regular;
use crate::mem::paging::mapper::{MapError, Mapper, Walk, IDENTITY_LIMIT};
use crate::mem::paging::tpage::TemporaryPage;
use crate::mem::paging::ways::{
    lemma_tables_for_insert, lemma_tables_for_subset, lemma_ways_made, tables_for, ways, ways_for,
};
use crate::mem::paging::{ActivePageTable, InactivePageTable, Page};

verus! {

/// Number of the page that serves as the temporary page while the kernel
/// is mapped anew.
pub const SCRATCH_PAGE: u64 = 0xcafebabe;

/// Number of the frame that holds the console's text buffer.
pub const CONSOLE_FRAME: u64 = 0xb8;

/// Whether frame `n` holds a byte of the allocated section `section`.
pub open spec fn covers(section: ElfSection, n: u64) -> bool {
    section.allocated() && section.addr / 4096 <= n && n * 4096 < section.addr + section.size
}

/// Whether frame `n` holds a byte of the boot loader's report.
pub open spec fn in_report(boot_info: BootInformation, n: u64) -> bool {
    boot_info.start / 4096 <= n && n * 4096 < boot_info.end
}

/// Whether frame `n` holds a byte of a section among the first `count`
/// sections.
pub open spec fn in_sections(sections: Seq<ElfSection>, count: int, n: u64) -> bool {
    exists|i: int| 0 <= i < count && i < sections.len() && covers(#[trigger] sections[i], n)
}

/// Whether the kernel maps frame `n` to the page at its own address: it
/// holds a byte of an allocated section or of the boot loader's report, or
/// is the console's frame.
pub open spec fn planned(boot_info: BootInformation, n: u64) -> bool {
    ||| in_sections(boot_info.elf_sections.unwrap()@, boot_info.elf_sections.unwrap()@.len() as int, n)
    ||| n == CONSOLE_FRAME
    ||| in_report(boot_info, n)
}

/// The frames that the kernel maps to themselves.
pub open spec fn plan(boot_info: BootInformation) -> Set<u64> {
    Set::new(|n: u64| planned(boot_info, n))
}

/// What the boot loader's report must be like for the kernel to be mapped
/// anew: the sections are there; each allocated section starts on a frame
/// boundary and ends within the lower canonical half, and so does the
/// report; and no frame belongs to two of the sections, the console and
/// the report.
pub open spec fn mappable(boot_info: BootInformation) -> bool {
    let sections = boot_info.elf_sections.unwrap()@;
    &&& boot_info.elf_sections is Some
    &&& forall|i: int|
        0 <= i < sections.len() && (#[trigger] sections[i]).allocated() ==> {
            &&& sections[i].addr % 4096 == 0
            &&& sections[i].addr + sections[i].size >= 1
            &&& sections[i].addr + sections[i].size <= IDENTITY_LIMIT * 4096
        }
    &&& 1 <= boot_info.end <= IDENTITY_LIMIT * 4096
    &&& forall|i: int, j: int, n: u64|
        0 <= i < j < sections.len() && #[trigger] covers(sections[i], n) ==> !#[trigger] covers(
            sections[j],
            n,
        )
    &&& forall|i: int|
        0 <= i < sections.len() ==> !covers(#[trigger] sections[i], CONSOLE_FRAME)
    &&& forall|i: int, n: u64|
        0 <= i < sections.len() && #[trigger] covers(sections[i], n) ==> !in_report(boot_info, n)
    &&& !in_report(boot_info, CONSOLE_FRAME)
}

/// The kernel's own mappings stand in the address space that `mapper`
/// works on: each frame of an allocated section is mapped to the page at
/// its own address with the flags that follow from the section's, the
/// console's frame writable, and each frame of the boot loader's report
/// with no flag but the present one. The one exception is the page at the
/// address of the table `old_top`, which was in use before: it is not
/// mapped.
pub open spec fn kernel_mapped(mapper: Mapper, boot_info: BootInformation, old_top: u64) -> bool {
    let sections = boot_info.elf_sections.unwrap()@;
    &&& forall|i: int, n: u64|
        0 <= i < sections.len() && #[trigger] covers(sections[i], n) && n != old_top
            ==> mapper.walk(
            Page { number: n },
        ) == Walk::Leaf(Entry::of(n, EntryFlags::for_section(sections[i]) | PRESENT))
    &&& CONSOLE_FRAME != old_top ==> mapper.walk(Page { number: CONSOLE_FRAME }) == Walk::Leaf(
        Entry::of(CONSOLE_FRAME, WRITABLE | PRESENT),
    )
    &&& forall|n: u64|
        in_report(boot_info, n) && n != old_top ==> #[trigger] mapper.walk(Page { number: n })
            == Walk::Leaf(Entry::of(n, PRESENT))
    &&& mapper.walk(Page { number: old_top }) == (Walk::Vacant { clear: true })
}

/// In the hierarchy below `root`, the pages outside the recursive window
/// that are mapped are those of the frames in `done`, each to the frame
/// with its own number and with the flags that `done` gives, marked
/// present. Nothing bars a mapping of the others.
pub open spec fn identity_mapped(mapper: Mapper, root: u64, done: Map<u64, u64>) -> bool {
    forall|q: Page|
        q.regular() ==> #[trigger] mapper.walk_from(root, q) == if done.contains_key(q.number) {
            Walk::Leaf(Entry::of(q.number, done[q.number] | PRESENT))
        } else {
            Walk::Vacant { clear: true }
        }
}

/// The state within the window in which the new hierarchy is filled: the
/// mapper works on the hierarchy below `root`, the register still names
/// `register`, and the temporary page `scratch` leads back to the
/// register's table.
pub open spec fn in_window(mapper: Mapper, register: u64, root: u64, scratch: Page) -> bool {
    &&& mapper.wf()
    &&& mapper.register() == register
    &&& mapper.root() == root
    &&& root != register
    &&& mapper.is_top(register)
    &&& mapper.is_top(root)
    &&& scratch.regular()
    &&& mapper.walk_from(register, scratch) == Walk::Leaf(Entry::of(register, WRITABLE | PRESENT))
}

/// Whether frame `n` holds a byte of the allocated section `section`.
fn section_covers(section: &ElfSection, n: u64) -> (yes: bool)
    requires
        section.allocated() ==> 1 <= section.addr + section.size <= u64::MAX,
    ensures
        yes == covers(*section, n),
{
    if !section.is_allocated() {
        return false;
    }
    let end = section.end_address();
    section.start_address() / 4096 <= n && n <= (end - 1) / 4096
}

/// Whether frame `n` holds a byte of the boot loader's report.
fn report_covers(boot_info: &BootInformation, n: u64) -> (yes: bool)
    requires
        1 <= boot_info.end,
    ensures
        yes == in_report(*boot_info, n),
{
    boot_info.start_address() / 4096 <= n && n <= (boot_info.end_address() - 1) / 4096
}

/// Whether the kernel maps frame `n` to the page at its own address.
pub fn is_planned(boot_info: &BootInformation, n: u64) -> (yes: bool)
    requires
        mappable(*boot_info),
    ensures
        yes == planned(*boot_info, n),
{
    let sections = match boot_info.elf_sections_tag() {
        Some(sections) => sections,
        None => {
            return false;
        },
    };
    let mut k: usize = 0;
    while k < sections.len()
        invariant
            k <= sections.len(),
            boot_info.elf_sections == Some(*sections),
            mappable(*boot_info),
            !in_sections(sections@, k as int, n),
        decreases sections.len() - k,
    {
        proof {
            assert(boot_info.elf_sections.unwrap()@[k as int] == sections@[k as int]);
        }
        if section_covers(&sections[k], n) {
            proof {
                assert(in_sections(sections@, sections@.len() as int, n));
            }
            return true;
        }
        proof {
            assert forall|i: int| 0 <= i < k + 1 && i < sections@.len() implies !covers(
                #[trigger] sections@[i],
                n,
            ) by {
                if i < k {
                    assert(!in_sections(sections@, k as int, n));
                }
            }
        }
        k += 1;
    }
    n == CONSOLE_FRAME || report_covers(boot_info, n)
}

/// Whether `n` lies in the range from `low` through `high`.
pub open spec fn between(low: u64, n: u64, high: u64) -> bool {
    low <= n <= high
}

/// Whether the ranges of frames from `a` through `b` and from `c` through
/// `d` share a frame.
fn ranges_meet(a: u64, b: u64, c: u64, d: u64) -> (yes: bool)
    ensures
        yes == exists|n: u64| #[trigger] between(a, n, b) && between(c, n, d),
{
    let low = if a < c {
        c
    } else {
        a
    };
    let high = if b < d {
        b
    } else {
        d
    };
    if low <= high {
        assert(between(a, low, b) && between(c, low, d));
        true
    } else {
        false
    }
}

/// First and last frame of an allocated section; of a section without a
/// byte, a first frame above the last.
fn section_frames(section: &ElfSection) -> (range: (u64, u64))
    requires
        section.allocated(),
        section.addr % 4096 == 0,
        1 <= section.addr + section.size <= u64::MAX,
    ensures
        forall|n: u64| covers(*section, n) <==> range.0 <= n <= range.1,
        range.0 == section.addr / 4096,
{
    let first = section.start_address() / 4096;
    let last = (section.end_address() - 1) / 4096;
    if section.size == 0 {
        assert(first >= 1);
        assert(forall|n: u64| !covers(*section, n));
        (first, first - 1)
    } else {
        (first, last)
    }
}

/// Whether the boot loader's report is one for which the kernel can be
/// mapped anew.
pub fn is_mappable(boot_info: &BootInformation) -> (yes: bool)
    ensures
        yes == mappable(*boot_info),
{
    let sections = match boot_info.elf_sections_tag() {
        Some(sections) => sections,
        None => {
            return false;
        },
    };
    let limit: u64 = 0x8000_0000_0000;
    if boot_info.end_address() < 1 || boot_info.end_address() > limit {
        return false;
    }
    let report_first = boot_info.start_address() / 4096;
    let report_last = (boot_info.end_address() - 1) / 4096;
    proof {
        assert forall|n: u64| in_report(*boot_info, n) <==> report_first <= n <= report_last by {}
    }
    if report_first <= CONSOLE_FRAME && CONSOLE_FRAME <= report_last {
        return false;
    }
    let mut i: usize = 0;
    while i < sections.len()
        invariant
            i <= sections.len(),
            boot_info.elf_sections == Some(*sections),
            1 <= boot_info.end <= limit,
            limit == 0x8000_0000_0000,
            forall|n: u64| in_report(*boot_info, n) <==> report_first <= n <= report_last,
            !in_report(*boot_info, CONSOLE_FRAME),
            forall|a: int|
                0 <= a < i && (#[trigger] sections@[a]).allocated() ==> {
                    &&& sections@[a].addr % 4096 == 0
                    &&& sections@[a].addr + sections@[a].size >= 1
                    &&& sections@[a].addr + sections@[a].size <= IDENTITY_LIMIT * 4096
                },
            forall|a: int, b: int, n: u64|
                0 <= a < b < sections@.len() && a < i && #[trigger] covers(sections@[a], n)
                    ==> !#[trigger] covers(sections@[b], n),
            forall|a: int| 0 <= a < i ==> !covers(#[trigger] sections@[a], CONSOLE_FRAME),
            forall|a: int, n: u64|
                0 <= a < i && #[trigger] covers(sections@[a], n) ==> !in_report(*boot_info, n),
        decreases sections.len() - i,
    {
        let section = &sections[i];
        proof {
            assert(boot_info.elf_sections.unwrap()@[i as int] == sections@[i as int]);
        }
        if section.is_allocated() {
            if section.addr % 4096 != 0 || section.size > limit || section.addr > limit
                - section.size || (section.addr == 0 && section.size == 0) {
                return false;
            }
            let (first, last) = section_frames(section);
            if first <= CONSOLE_FRAME && CONSOLE_FRAME <= last {
                proof {
                    assert(covers(sections@[i as int], CONSOLE_FRAME));
                }
                return false;
            }
            if ranges_meet(first, last, report_first, report_last) {
                proof {
                    let n = choose|n: u64|
                        #[trigger] between(first, n, last) && between(report_first, n, report_last);
                    assert(covers(sections@[i as int], n) && in_report(*boot_info, n));
                }
                return false;
            }
            proof {
                assert forall|n: u64| covers(sections@[i as int], n) implies !in_report(
                    *boot_info,
                    n,
                ) by {
                    assert(between(first, n, last));
                    if in_report(*boot_info, n) {
                        assert(between(report_first, n, report_last));
                    }
                }
            }
            let mut j: usize = i + 1;
            while j < sections.len()
                invariant
                    i < j <= sections.len(),
                    boot_info.elf_sections == Some(*sections),
                    limit == 0x8000_0000_0000,
                    sections@[i as int].allocated(),
                    forall|n: u64| covers(sections@[i as int], n) <==> first <= n <= last,
                    forall|b: int, n: u64|
                        i < b < j && covers(sections@[i as int], n) ==> !#[trigger] covers(
                            sections@[b],
                            n,
                        ),
                decreases sections.len() - j,
            {
                let other = &sections[j];
                if other.is_allocated() {
                    if other.addr % 4096 != 0 || other.size > limit || other.addr > limit
                        - other.size || (other.addr == 0 && other.size == 0) {
                        proof {
                            assert(boot_info.elf_sections.unwrap()@[j as int]
                                == sections@[j as int]);
                        }
                        return false;
                    }
                    let (other_first, other_last) = section_frames(other);
                    if ranges_meet(first, last, other_first, other_last) {
                        proof {
                            let n = choose|n: u64|
                                #[trigger] between(first, n, last) && between(
                                    other_first,
                                    n,
                                    other_last,
                                );
                            assert(covers(sections@[i as int], n)
                                && covers(sections@[j as int], n));
                            assert(boot_info.elf_sections.unwrap()@[j as int]
                                == sections@[j as int]);
                        }
                        return false;
                    }
                    proof {
                        assert forall|n: u64| covers(sections@[i as int], n) implies !covers(
                            sections@[j as int],
                            n,
                        ) by {
                            assert(between(first, n, last));
                            if covers(sections@[j as int], n) {
                                assert(between(other_first, n, other_last));
                            }
                        }
                    }
                }
                j += 1;
            }
        }
        i += 1;
    }
    true
}

/// The frames that the kernel maps to themselves are finitely many, and
/// each lies in the lower canonical half.
pub proof fn lemma_plan_finite(boot_info: BootInformation)
    requires
        mappable(boot_info),
    ensures
        plan(boot_info).finite(),
        forall|n: u64| plan(boot_info).contains(n) ==> n < IDENTITY_LIMIT,
{
    assert forall|n: u64| plan(boot_info).contains(n) implies n < IDENTITY_LIMIT by {}
    crate::mem::lemma_frames_below_finite(IDENTITY_LIMIT, plan(boot_info));
}

/// The page that serves as temporary page lies outside the recursive
/// window.
pub proof fn lemma_scratch_page()
    ensures
        (Page { number: SCRATCH_PAGE }).regular(),
{
    assert((0xcafebabeu64 >> 27) & 0x1ff != 511) by (bit_vector);
}

/// Where the kernel's own mappings stand, every address in a frame that
/// the kernel maps translates to itself; the one exception is the frame of
/// the table that was in use before, whose addresses translate to
/// nothing.
pub proof fn lemma_kernel_translates(
    mapper: Mapper,
    boot_info: BootInformation,
    old_top: u64,
    address: u64,
)
    requires
        mappable(boot_info),
        kernel_mapped(mapper, boot_info, old_top),
        planned(boot_info, address / 4096),
    ensures
        address / 4096 != old_top ==> mapper.resolve_address(address) == Some(address),
        address / 4096 == old_top ==> mapper.resolve_address(address) is None,
{
    let n = address / 4096;
    let page = Page { number: n };
    let sections = boot_info.elf_sections.unwrap()@;
    lemma_flag_constants();
    if n != old_top {
        if in_sections(sections, sections.len() as int, n) {
            let i = choose|i: int|
                0 <= i < sections.len() && i < sections.len() && covers(#[trigger] sections[i], n);
            assert(covers(sections[i], n));
            let section = sections[i];
            let a: u64 = if section.allocated() {
                PRESENT
            } else {
                0
            };
            let b: u64 = if section.writable() {
                WRITABLE
            } else {
                0
            };
            let c: u64 = if section.executable() {
                0
            } else {
                NO_EXECUTE
            };
            assert((a | b | c | 1) & !0x8000_0000_0000_01ffu64 == 0) by (bit_vector)
                requires
                    a == 0 || a == 1,
                    b == 0 || b == 2,
                    c == 0 || c == 0x8000_0000_0000_0000u64,
            ;
            mapper.lemma_mapped_translation(
                page,
                n,
                EntryFlags::for_section(section) | PRESENT,
                address,
            );
        } else if n == CONSOLE_FRAME {
            mapper.lemma_mapped_translation(page, n, WRITABLE | PRESENT, address);
        } else {
            mapper.lemma_mapped_translation(page, n, PRESENT, address);
        }
    }
}

/// Maps each frame from `first` through `last` to the page at its own
/// address, with the flags `flags`.
fn identity_map_range<A: FrameAllocator>(
    active_table: &mut ActivePageTable,
    first: Frame,
    last: Frame,
    flags: EntryFlags,
    allocator: &mut A,
    Ghost(done): Ghost<Map<u64, u64>>,
    Ghost(all): Ghost<Set<u64>>,
    Ghost(register): Ghost<u64>,
    Ghost(root): Ghost<u64>,
    Ghost(scratch): Ghost<Page>,
    Ghost(floor): Ghost<nat>,
) -> (result: Result<Ghost<Map<u64, u64>>, MapError>)
    requires
        in_window(old(active_table)@, register, root, scratch),
        identity_mapped(old(active_table)@, root, done),
        last.number < IDENTITY_LIMIT,
        all.finite(),
        done.dom().finite(),
        done.dom().subset_of(all),
        forall|n: u64| first.number <= n <= last.number ==> all.contains(n)
            && !done.contains_key(n),
        old(allocator).inv(),
        old(allocator).pool().finite(),
        old(active_table)@.apart_from(old(allocator).pool()),
        forall|n: u64| all.contains(n) ==> n < IDENTITY_LIMIT,
        ways_for(old(active_table)@, root, done.dom()),
        old(allocator).pool().len() + tables_for(done.dom()) == floor,
    ensures
        final(allocator).inv(),
        final(allocator).pool().finite(),
        final(active_table)@.keeps(old(active_table)@, old(allocator).pool(), final(allocator).pool()),
        result is Err ==> final(allocator).pool().len() == 0 && floor < tables_for(all),
        result matches Ok(after) ==> {
            &&& in_window(final(active_table)@, register, root, scratch)
            &&& identity_mapped(final(active_table)@, root, after@)
            &&& after@.dom().finite()
            &&& after@.dom().subset_of(all)
            &&& ways_for(final(active_table)@, root, after@.dom())
            &&& final(allocator).pool().len() + tables_for(after@.dom()) == floor
            &&& forall|n: u64|
                after@.contains_key(n) <==> done.contains_key(n) || first.number <= n
                    <= last.number
            &&& forall|n: u64| done.contains_key(n) ==> after@[n] == done[n]
            &&& forall|n: u64| first.number <= n <= last.number ==> after@[n] == flags@
        },
{
    broadcast use vstd::set::group_set_axioms;

    let ghost start = first.number;
    let mut iter = Frame::range_inclusive(first, last);
    let ghost mut now = done;
    loop
        invariant
            iter.wf(),
            iter.end == last,
            start == first.number,
            start <= iter.start.number,
            iter.start.number <= last.number + 1 || iter.start.number == start,
            last.number < IDENTITY_LIMIT,
            in_window(active_table@, register, root, scratch),
            identity_mapped(active_table@, root, now),
            all.finite(),
            now.dom().finite(),
            now.dom().subset_of(all),
            forall|n: u64| start <= n <= last.number ==> all.contains(n) && !done.contains_key(n),
            forall|n: u64|
                now.contains_key(n) <==> done.contains_key(n) || start <= n < iter.start.number,
            forall|n: u64| done.contains_key(n) ==> now[n] == done[n],
            forall|n: u64| start <= n < iter.start.number ==> now[n] == flags@,
            allocator.inv(),
            allocator.pool().finite(),
            active_table@.apart_from(allocator.pool()),
            active_table@.keeps(old(active_table)@, old(allocator).pool(), allocator.pool()),
            forall|n: u64| all.contains(n) ==> n < IDENTITY_LIMIT,
            ways_for(active_table@, root, now.dom()),
            allocator.pool().len() + tables_for(now.dom()) == floor,
        decreases iter.remaining(),
    {
        let frame = match iter.next() {
            Some(frame) => frame,
            None => {
                return Ok(Ghost(now));
            },
        };
        let ghost n = frame.number;
        let ghost before = active_table@;
        proof {
            lemma_low_pages_regular(n);
            assert(all.contains(n) && !now.contains_key(n));
            assert(before.walk_from(root, Page { number: n }) == (Walk::Vacant { clear: true }));
            vstd::set_lib::lemma_len_subset(now.dom().insert(n), all);
            lemma_tables_for_insert(before, root, now.dom(), n);
            lemma_tables_for_subset(now.dom().insert(n), all);
        }
        match active_table.deref_mut().try_identity_map(frame, flags, allocator) {
            Ok(()) => {},
            Err(error) => {
                return Err(error);
            },
        }
        proof {
            let after = active_table@;
            lemma_ways_made(before, after, now.dom(), n);
            let ghost earlier = now.dom();
            now = now.insert(n, flags@);
            assert(now.dom() =~= earlier.insert(n));
            assert forall|q: Page| q.regular() implies #[trigger] after.walk_from(root, q)
                == if now.contains_key(q.number) {
                Walk::Leaf(Entry::of(q.number, now[q.number] | PRESENT))
            } else {
                Walk::Vacant { clear: true }
            } by {
                if q.number != n {
                    assert(after.walk_from(root, q) == before.walk_from(root, q));
                }
            }
            assert(after.walk_from(register, scratch) == before.walk_from(register, scratch));
            assert(after.is_top(register) && after.is_top(root));
        }
    }
}

/// Builds a new address space for the kernel and makes the processor use
/// it. In the new address space every frame of an allocated section of the
/// kernel image is mapped to the page at its own address, with the flags
/// that follow from the section's; so is the console's frame, writable,
/// and every frame of the boot loader's report. The page at the address of
/// the table that was in use before is then unmapped. The tables come from
/// `allocator`, which must hold a frame for each: three for the temporary
/// page, then one for the new top-level table, and one for each table
/// below it.
pub fn remap_kernel<A: FrameAllocator>(
    active_table: ActivePageTable,
    allocator: &mut A,
    boot_info: &BootInformation,
) -> (table: ActivePageTable)
    requires
        active_table@.wf(),
        active_table@.coherent(),
        active_table@.walk(Page { number: SCRATCH_PAGE }) == (Walk::Vacant { clear: true }),
        mappable(*boot_info),
        planned(*boot_info, active_table@.register()),
        old(allocator).inv(),
        old(allocator).pool().finite(),
        active_table@.apart_from(old(allocator).pool()),
        old(allocator).pool().len() >= 4 + tables_for(plan(*boot_info)),
    ensures
        final(allocator).inv(),
        final(allocator).pool().subset_of(old(allocator).pool()),
        final(allocator).pool().finite(),
        final(allocator).pool().len() + 4 + tables_for(plan(*boot_info))
            == old(allocator).pool().len(),
        table@.wf(),
        table@.coherent(),
        table@.apart_from(final(allocator).pool()),
        old(allocator).pool().contains(table@.register()),
        !final(allocator).pool().contains(table@.register()),
        old(allocator).upcoming(3) == Some(Frame { number: table@.register() }),
        kernel_mapped(table@, *boot_info, active_table@.register()),
        forall|q: Page|
            q.regular() && !planned(*boot_info, q.number) ==> #[trigger] table@.walk(q) == (
            Walk::Vacant { clear: true }),
        ways_for(table@, table@.root(), plan(*boot_info)),
{
    try_remap_kernel(active_table, allocator, boot_info).unwrap()
}

/// As `remap_kernel`, for a caller that cannot tell how many frames the
/// allocator holds: the new address space is built as far as the frames
/// go, and where they run out before it is complete the attempt ends
/// with an error, with the allocator empty.
pub fn try_remap_kernel<A: FrameAllocator>(
    active_table: ActivePageTable,
    allocator: &mut A,
    boot_info: &BootInformation,
) -> (result: Result<ActivePageTable, MapError>)
    requires
        active_table@.wf(),
        active_table@.coherent(),
        active_table@.walk(Page { number: SCRATCH_PAGE }) == (Walk::Vacant { clear: true }),
        mappable(*boot_info),
        planned(*boot_info, active_table@.register()),
        old(allocator).inv(),
        old(allocator).pool().finite(),
        active_table@.apart_from(old(allocator).pool()),
    ensures
        final(allocator).inv(),
        final(allocator).pool().subset_of(old(allocator).pool()),
        final(allocator).pool().finite(),
        result is Ok <==> old(allocator).pool().len() >= 4 + tables_for(plan(*boot_info)),
        result is Ok ==> final(allocator).pool().len() + 4 + tables_for(plan(*boot_info))
            == old(allocator).pool().len(),
        result is Err ==> final(allocator).pool().len() == 0,
        result matches Ok(table) ==> {
            &&& table@.wf()
            &&& table@.coherent()
            &&& table@.apart_from(final(allocator).pool())
            &&& old(allocator).pool().contains(table@.register())
            &&& !final(allocator).pool().contains(table@.register())
            &&& old(allocator).upcoming(3) == Some(Frame { number: table@.register() })
            &&& kernel_mapped(table@, *boot_info, active_table@.register())
            &&& forall|q: Page|
                q.regular() && !planned(*boot_info, q.number) ==> #[trigger] table@.walk(q) == (
                Walk::Vacant { clear: true })
            &&& ways_for(table@, table@.root(), plan(*boot_info))
        },
{
    broadcast use vstd::set::group_set_axioms;

    let mut active_table = active_table;
    let ghost s0 = active_table@;
    let ghost pool0 = allocator.pool();
    let ghost all = plan(*boot_info);
    let ghost scratch = Page { number: SCRATCH_PAGE };
    proof {
        lemma_plan_finite(*boot_info);
        lemma_scratch_page();
        lemma_flag_constants();
        s0.lemma_root();
    }
    let mut temporary_page = TemporaryPage::new(Page { number: SCRATCH_PAGE }, allocator);
    let ghost pool1 = allocator.pool();
    proof {
        temporary_page.lemma_pool_finite();
        vstd::set_lib::lemma_len_subset(pool1, pool0);
        vstd::set_lib::lemma_set_empty_equivalency_len(pool1);
    }
    let frame = match allocator.allocate_frame() {
        Some(frame) => frame,
        None => {
            return Err(MapError::OutOfFrames);
        },
    };
    let ghost top = frame.number;
    let ghost pool2 = allocator.pool();
    let new_table = InactivePageTable::new(frame, &mut active_table, &mut temporary_page);
    let ghost s1 = active_table@;
    proof {
        assert(s1.apart_from(pool2));
        assert(s1.walk(scratch) == s0.walk(scratch));
    }
    active_table.enter(&new_table, &mut temporary_page);
    let ghost s2 = active_table@;
    let ghost register = s0.register();
    proof {
        assert(s2.is_top(register));
        assert(s2.is_top(top));
        assert(in_window(s2, register, top, scratch));
        assert(identity_mapped(s2, top, Map::<u64, u64>::empty())) by {
            assert forall|q: Page| q.regular() implies #[trigger] s2.walk_from(top, q) == (
            Walk::Vacant { clear: true }) by {
                assert(s1.is_top(top));
                assert(s2.walk_from(top, q) == s1.walk_from(top, q));
            }
        }
        assert(s2.apart_from(pool2));
    }
    let sections = boot_info.elf_sections_tag().unwrap();
    let ghost mut done = Map::<u64, u64>::empty();
    let ghost floor = pool2.len();
    proof {
        assert(done.dom() =~= Set::<u64>::empty());
        assert(ways(done.dom(), 27) =~= Set::<u64>::empty());
        assert(ways(done.dom(), 18) =~= Set::<u64>::empty());
        assert(ways(done.dom(), 9) =~= Set::<u64>::empty());
        assert(ways_for(s2, top, done.dom())) by {
            assert forall|q: Page| q.regular() implies #[trigger] s2.missing_from(top, q) == 3 by {
                assert(s1.missing_from(top, q) == 3);
            }
        }
    }
    let mut k: usize = 0;
    while k < sections.len()
        invariant
            k <= sections.len(),
            boot_info.elf_sections == Some(*sections),
            mappable(*boot_info),
            all == plan(*boot_info),
            all.finite(),
            in_window(active_table@, register, top, scratch),
            identity_mapped(active_table@, top, done),
            done.dom().finite(),
            done.dom().subset_of(all),
            forall|n: u64| done.contains_key(n) <==> in_sections(sections@, k as int, n),
            forall|i: int, n: u64|
                0 <= i < k && #[trigger] covers(sections@[i], n) ==> done[n]
                    == EntryFlags::for_section(sections@[i]),
            allocator.inv(),
            allocator.pool().finite(),
            allocator.pool().subset_of(pool2),
            active_table@.apart_from(allocator.pool()),
            forall|n: u64| all.contains(n) ==> n < IDENTITY_LIMIT,
            ways_for(active_table@, top, done.dom()),
            allocator.pool().len() + tables_for(done.dom()) == floor,
            floor + 4 == old(allocator).pool().len(),
        decreases sections.len() - k,
    {
        let section = &sections[k];
        proof {
            assert(boot_info.elf_sections.unwrap()@[k as int] == sections@[k as int]);
        }
        if section.is_allocated() {
            let flags = EntryFlags::from_elf_section_flags(section);
            let first = Frame::containing(section.start_address());
            let last = Frame::containing(section.end_address() - 1);
            proof {
                assert forall|n: u64| first.number <= n <= last.number implies all.contains(n)
                    && !done.contains_key(n) by {
                    assert(covers(sections@[k as int], n));
                    assert(in_sections(sections@, sections@.len() as int, n));
                    if done.contains_key(n) {
                        let i = choose|i: int|
                            0 <= i < k && i < sections@.len() && covers(#[trigger] sections@[i], n);
                        assert(covers(sections@[i], n));
                    }
                }
            }
            let ghost before = done;
            match identity_map_range(
                &mut active_table,
                first,
                last,
                flags,
                allocator,
                Ghost(done),
                Ghost(all),
                Ghost(register),
                Ghost(top),
                Ghost(scratch),
                Ghost(floor),
            ) {
                Ok(after) => {
                    proof {
                        done = after@;
                    }
                },
                Err(error) => {
                    return Err(error);
                },
            }
            proof {
                assert forall|n: u64| done.contains_key(n) <==> in_sections(
                    sections@,
                    k as int + 1,
                    n,
                ) by {
                    if in_sections(sections@, k as int + 1, n) {
                        let i = choose|i: int|
                            0 <= i < k + 1 && i < sections@.len() && covers(
                                #[trigger] sections@[i],
                                n,
                            );
                        if i < k {
                            assert(in_sections(sections@, k as int, n));
                        }
                    }
                    if before.contains_key(n) {
                        let i = choose|i: int|
                            0 <= i < k && i < sections@.len() && covers(#[trigger] sections@[i], n);
                        assert(covers(sections@[i], n));
                    }
                    if first.number <= n <= last.number {
                        assert(covers(sections@[k as int], n));
                    }
                }
                assert forall|i: int, n: u64| 0 <= i < k + 1 && #[trigger] covers(
                    sections@[i],
                    n,
                ) implies done[n] == EntryFlags::for_section(sections@[i]) by {
                    if i < k {
                        assert(in_sections(sections@, k as int, n));
                    }
                }
            }
        } else {
            proof {
                assert forall|n: u64| in_sections(sections@, k as int + 1, n) implies in_sections(
                    sections@,
                    k as int,
                    n,
                ) by {
                    let i = choose|i: int|
                        0 <= i < k + 1 && i < sections@.len() && covers(#[trigger] sections@[i], n);
                    assert(i < k);
                }
            }
        }
        k += 1;
    }
    proof {
        assert(!done.contains_key(CONSOLE_FRAME)) by {
            if done.contains_key(CONSOLE_FRAME) {
                let i = choose|i: int|
                    0 <= i < k && i < sections@.len() && covers(
                        #[trigger] sections@[i],
                        CONSOLE_FRAME,
                    );
                assert(covers(sections@[i], CONSOLE_FRAME));
            }
        }
    }
    let ghost done_sections = done;
    let console = Frame { number: CONSOLE_FRAME };
    match identity_map_range(
        &mut active_table,
        console.clone(),
        console,
        EntryFlags::from_bits_truncate(WRITABLE),
        allocator,
        Ghost(done),
        Ghost(all),
        Ghost(register),
        Ghost(top),
        Ghost(scratch),
        Ghost(floor),
    ) {
        Ok(after) => {
            proof {
                done = after@;
            }
        },
        Err(error) => {
            return Err(error);
        },
    }
    let first = Frame::containing(boot_info.start_address());
    let last = Frame::containing(boot_info.end_address() - 1);
    proof {
        assert forall|n: u64| first.number <= n <= last.number implies all.contains(n)
            && !done.contains_key(n) by {
            assert(in_report(*boot_info, n));
            if done_sections.contains_key(n) {
                let i = choose|i: int|
                    0 <= i < k && i < sections@.len() && covers(#[trigger] sections@[i], n);
                assert(covers(sections@[i], n));
            }
        }
    }
    match identity_map_range(
        &mut active_table,
        first,
        last,
        EntryFlags::from_bits_truncate(PRESENT),
        allocator,
        Ghost(done),
        Ghost(all),
        Ghost(register),
        Ghost(top),
        Ghost(scratch),
        Ghost(floor),
    ) {
        Ok(after) => {
            proof {
                done = after@;
            }
        },
        Err(error) => {
            return Err(error);
        },
    }
    let ghost s3 = active_table@;
    proof {
        assert forall|n: u64| done.contains_key(n) <==> planned(*boot_info, n) by {
            if in_report(*boot_info, n) {
                assert(first.number <= n <= last.number);
            }
        }
        assert(done.dom() =~= all);
    }
    active_table.leave(&mut temporary_page);
    let ghost s4 = active_table@;
    proof {
        assert(s4.is_top(top));
    }
    let old_table = active_table.switch(new_table);
    let ghost s5 = active_table@;
    proof {
        lemma_low_pages_regular(register);
        assert(done.contains_key(register));
        assert forall|q: Page| q.regular() implies #[trigger] s5.walk(q)
            == s3.walk_from(top, q) by {
            assert(s3.is_top(top));
            assert(s4.walk_from(top, q) == s3.walk_from(top, q));
            assert(s5.walk_from(top, q) == s4.walk_from(top, q));
        }
    }
    let old_p4_page = Page::containing(old_table.p4_frame().start());
    active_table.deref_mut().unmap(old_p4_page, allocator);
    proof {
        let s6 = active_table@;
        assert(s5.is_top(top));
        assert forall|q: Page| q.regular() && q != old_p4_page implies #[trigger] s6.walk(q)
            == s3.walk_from(top, q) by {
            assert(s6.walk_from(top, q) == s5.walk_from(top, q));
            assert(s5.walk(q) == s3.walk_from(top, q));
        }
        let sections_seq = boot_info.elf_sections.unwrap()@;
        assert forall|i: int, n: u64|
            0 <= i < sections_seq.len() && #[trigger] covers(sections_seq[i], n) && n
                != register implies s6.walk(Page { number: n }) == Walk::Leaf(
            Entry::of(n, EntryFlags::for_section(sections_seq[i]) | PRESENT),
        ) by {
            assert(in_sections(sections_seq, sections_seq.len() as int, n));
            lemma_low_pages_regular(n);
            assert(s6.walk(Page { number: n }) == s3.walk_from(top, Page { number: n }));
            assert(done_sections.contains_key(n));
        }
        assert forall|n: u64| in_report(*boot_info, n) && n != register implies #[trigger] s6.walk(
            Page { number: n },
        ) == Walk::Leaf(Entry::of(n, PRESENT)) by {
            lemma_low_pages_regular(n);
            assert(first.number <= n <= last.number);
            assert(s6.walk(Page { number: n }) == s3.walk_from(top, Page { number: n }));
        }
        if CONSOLE_FRAME != register {
            lemma_low_pages_regular(CONSOLE_FRAME);
            assert(s6.walk(Page { number: CONSOLE_FRAME }) == s3.walk_from(
                top,
                Page { number: CONSOLE_FRAME },
            ));
        }
        assert forall|q: Page| q.regular() && !planned(*boot_info, q.number) implies #[trigger]
            s6.walk(q) == (Walk::Vacant { clear: true }) by {
            assert(q != old_p4_page);
        }
        assert forall|f: u64| #[trigger] s6.has_table(f) == s3.has_table(f) by {
            assert(s4.has_table(f) == s3.has_table(f));
            assert(s5.has_table(f) == s4.has_table(f));
        }
        assert(s3.apart_from(allocator.pool()));
    }
    Ok(active_table)
}

} // verus!
