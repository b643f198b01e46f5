//! What is read of the target, told by the numbers of Windows: which memory counts as readable,
//! writable or executable, which pages are looked at, and which bytes of an image are read.

use vstd::prelude::*;

use crate::memory;
use crate::memory::{MemoryRegion, PageProbe, ReadPart, ReadState, Readings, ScanView};
use crate::pe::bytes;
use crate::pe::parse;
use crate::pe::RegionEvidence;
use crate::process::{ModuleInfo, ModuleView};

verus! {

/// The protection lets code run: execute, execute and read, execute and read and write, or execute
/// and copy on write, without a guard.
pub open spec fn runs_code(protect: u32) -> bool {
    protect % 0x200 == 0x10 || protect % 0x200 == 0x20 || protect % 0x200 == 0x40 || protect % 0x200
        == 0x80
}

/// The protection lets data be read.
pub open spec fn gives_data(protect: u32) -> bool {
    protect % 0x200 == 0x02 || protect % 0x200 == 0x04 || protect % 0x200 == 0x08 || protect % 0x200
        == 0x20 || protect % 0x200 == 0x40 || protect % 0x200 == 0x80
}

/// The protection lets data be written.
pub open spec fn takes_data(protect: u32) -> bool {
    protect % 0x200 == 0x04 || protect % 0x200 == 0x08 || protect % 0x200 == 0x40 || protect % 0x200
        == 0x80
}

/// The lowest nine bits of a protection tell the access: one value each for what can be executed,
/// read and written. The guard bit is one of them and takes all access away, and higher bits do
/// not matter.
pub proof fn protections_tell_access(protect: u32)
    ensures
        memory::executable(protect) <==> runs_code(protect),
        memory::readable(protect) <==> gives_data(protect),
        memory::writable(protect) <==> takes_data(protect),
{
    assert(protect % 0x200 == protect & 0x1FF) by (bit_vector);
    let access = protect & 0x1FF;
    assert(protect & 0xFF == access & 0xFF && protect & 0x100 == access & 0x100 && protect & 0x01
        == access & 0x01) by (bit_vector)
        requires
            access == protect & 0x1FF,
    ;
    assert(access <= 0x1FF) by (bit_vector)
        requires
            access == protect & 0x1FF,
    ;
    assert(forall|byte: u32|
        #![trigger access & byte]
        byte == 0xFF && access & 0x100 == 0 && access <= 0x1FF ==> access & byte == access)
        by (bit_vector);
    assert(access & 0xFF == access || access & 0x100 != 0);
    assert(access & 0x100 != 0 ==> access >= 0x100) by (bit_vector);
    assert((0x10u32 & 0x100 == 0 && 0x10u32 & 1 == 0) && (0x20u32 & 0x100 == 0 && 0x20u32 & 1 == 0)
        && (0x40u32 & 0x100 == 0 && 0x40u32 & 1 == 0) && (0x80u32 & 0x100 == 0 && 0x80u32 & 1 == 0)
        && (0x02u32 & 0x100 == 0 && 0x02u32 & 1 == 0) && (0x04u32 & 0x100 == 0 && 0x04u32 & 1 == 0)
        && (0x08u32 & 0x100 == 0 && 0x08u32 & 1 == 0)) by (bit_vector);
}

/// An allocation is searched for hidden images exactly if some of it is committed, belongs to no
/// image, and lets code run.
pub proof fn executable_memory_is_searched(regions: Seq<MemoryRegion>, base: u64)
    ensures
        memory::executable_allocation(regions, base) <==> base != 0 && exists|i: int|
            0 <= i < regions.len() && (#[trigger] regions[i]).allocation_base == base
                && regions[i].state == 0x1000 && regions[i].kind != 0x100_0000 && runs_code(
                regions[i].protect,
            ),
{
    assert forall|i: int| 0 <= i < regions.len() implies memory::executable(
        (#[trigger] regions[i]).protect,
    ) == runs_code(regions[i].protect) by {
        protections_tell_access(regions[i].protect);
    }
    if memory::executable_allocation(regions, base) {
        let i = choose|i: int|
            0 <= i < regions.len() && memory::executable_outside_images(
                #[trigger] regions[i],
                base,
            );
        assert(regions[i].allocation_base == base);
    }
    if base != 0 && exists|i: int|
        0 <= i < regions.len() && (#[trigger] regions[i]).allocation_base == base
            && regions[i].state == 0x1000 && regions[i].kind != 0x100_0000 && runs_code(
            regions[i].protect,
        ) {
        let i = choose|i: int|
            0 <= i < regions.len() && (#[trigger] regions[i]).allocation_base == base
                && regions[i].state == 0x1000 && regions[i].kind != 0x100_0000 && runs_code(
                regions[i].protect,
            );
        assert(memory::executable_outside_images(regions[i], base));
    }
}

/// What must settle is committed memory that can be read and either lets code run, or is a part of
/// an image that can be written.
pub proof fn code_and_written_images_must_settle(region: MemoryRegion)
    ensures
        memory::stability_region(region) <==> region.state == 0x1000 && gives_data(region.protect)
            && (runs_code(region.protect) || (region.kind == 0x100_0000 && takes_data(
            region.protect,
        ))),
{
    protections_tell_access(region.protect);
}

/// A search looks at every page, each of 4096 bytes, of committed readable memory in the
/// allocations that it was given, from the start of a region on.
pub proof fn readable_memory_is_probed(scan: ScanView, region: int, offset: int)
    requires
        scan.region == 0,
        scan.offset == 0,
    ensures
        scan.pages_to_come().contains((region, offset)) <==> {
            &&& 0 <= region < scan.regions.len()
            &&& scan.allocations.contains(scan.regions[region].allocation_base)
            &&& scan.regions[region].state == 0x1000
            &&& gives_data(scan.regions[region].protect)
            &&& 0 <= offset < scan.regions[region].size
            &&& offset % 0x1000 == 0
        },
{
    memory::searches_see_every_page_once(scan);
    if 0 <= region < scan.regions.len() {
        protections_tell_access(scan.regions[region].protect);
    }
    assert(scan.is_page(region, offset) ==> scan.pages_to_come().contains((region, offset)));
    if scan.pages_to_come().contains((region, offset)) {
        let pages = scan.pages_to_come();
        let index = choose|index: int|
            0 <= index < pages.len() && pages[index] == (region, offset);
        assert(scan.is_page(pages[index].0, pages[index].1));
    }
}

proof fn lemma_allocation_end(regions: Seq<MemoryRegion>, base: u64)
    ensures
        forall|i: int|
            0 <= i < regions.len() && (#[trigger] regions[i]).allocation_base == base
                ==> regions[i].base + regions[i].size <= memory::allocation_end(regions, base),
        memory::allocation_end(regions, base) == 0 || exists|i: int|
            0 <= i < regions.len() && (#[trigger] regions[i]).allocation_base == base
                && regions[i].base + regions[i].size == memory::allocation_end(regions, base),
    decreases regions.len(),
{
    reveal(Seq::filter);
    if regions.len() > 0 {
        let fewer = regions.drop_last();
        let last = regions.last();
        lemma_allocation_end(fewer, base);
        let own = memory::own_regions(regions, base);
        let earlier = memory::own_regions(fewer, base);
        if last.allocation_base == base {
            assert(own == earlier.push(last));
            assert(own.drop_last() =~= earlier);
        } else {
            assert(own == earlier);
        }
        assert forall|i: int|
            0 <= i < regions.len() && (#[trigger] regions[i]).allocation_base == base implies regions[i].base
            + regions[i].size <= memory::allocation_end(regions, base) by {
            if i < fewer.len() {
                assert(fewer[i] == regions[i]);
            }
        }
        if memory::allocation_end(regions, base) != 0 {
            if last.allocation_base == base && last.base + last.size == memory::allocation_end(
                regions,
                base,
            ) {
                assert(regions[regions.len() - 1] == last);
            } else {
                let i = choose|i: int|
                    0 <= i < fewer.len() && (#[trigger] fewer[i]).allocation_base == base
                        && fewer[i].base + fewer[i].size == memory::allocation_end(fewer, base);
                assert(regions[i] == fewer[i]);
            }
        }
    }
}

/// A page is looked at where it stands, with all bytes from there to the end of its allocation:
/// no region of the allocation ends later, and one of them ends there.
pub proof fn probes_reach_to_the_end_of_the_allocation(scan: ScanView, region: int, offset: int)
    requires
        0 <= region < scan.regions.len(),
        0 <= offset < scan.regions[region].size,
        forall|i: int|
            0 <= i < scan.regions.len() ==> (#[trigger] scan.regions[i]).base + scan.regions[i].size
                <= u64::MAX,
    ensures
        ({
            let probe = scan.probe_at(region, offset);
            let allocation = scan.regions[region].allocation_base;
            &&& probe.address == scan.regions[region].base + offset
            &&& probe.available > 0
            &&& forall|i: int|
                0 <= i < scan.regions.len() && (#[trigger] scan.regions[i]).allocation_base
                    == allocation ==> scan.regions[i].base + scan.regions[i].size <= probe.address
                    + probe.available
            &&& exists|i: int|
                0 <= i < scan.regions.len() && (#[trigger] scan.regions[i]).allocation_base
                    == allocation && scan.regions[i].base + scan.regions[i].size == probe.address
                    + probe.available
        }),
{
    lemma_allocation_end(scan.regions, scan.regions[region].allocation_base);
}

/// Headers are read of a page exactly if it starts with the letters of a DOS header: up to 65536
/// bytes, as far as the allocation goes.
pub proof fn signatures_ask_for_headers(probe: PageProbe, first: u8, second: u8)
    ensures
        memory::wanted_header(probe, Some(seq![first, second])) is Some <==> first == 0x4D && second
            == 0x5A,
        first == 0x4D && second == 0x5A ==> memory::wanted_header(
            probe,
            Some(seq![first, second]),
        )->0 == if probe.available < 0x1_0000 {
            probe.available
        } else {
            0x1_0000
        },
        memory::wanted_header(probe, None) is None,
{
    let letters = seq![first, second];
    assert(letters[0] == first && letters[1] == second);
    if first == 0x4D && second == 0x5A {
        assert(letters =~= seq![0x4Du8, 0x5A]);
    }
    if letters == seq![0x4Du8, 0x5A] {
        assert(letters[0] == 0x4D && letters[1] == 0x5A);
    }
}

/// A page that can be read, starts with the letters of a DOS header, and has accepted headers that
/// declare no more bytes than the allocation has left, starts a hidden image; no other page does.
pub proof fn hidden_images_start_with_headers(
    scan: ScanView,
    readings: Readings,
    region: int,
    offset: int,
    first: u8,
    second: u8,
    header: Seq<u8>,
)
    requires
        ({
            let probe = scan.probe_at(region, offset);
            let length = if probe.available < 0x1_0000 {
                probe.available as int
            } else {
                0x1_0000
            };
            &&& readings(probe.address, 2) == Some(seq![first, second])
            &&& readings(probe.address, length) == Some(header)
        }),
    ensures
        scan.starts_hidden(readings, (region, offset)) <==> first == 0x4D && second == 0x5A
            && parse::declared_image(header) is Ok && bytes::le32(
            header,
            bytes::le32(header, 0x3C) + 80,
        ) <= scan.probe_at(region, offset).available,
{
    let probe = scan.probe_at(region, offset);
    signatures_ask_for_headers(probe, first, second);
    if parse::declared_image(header) is Ok {
        assert(bytes::le32(header, 0x3C) + 24 + 56 == bytes::le32(header, 0x3C) + 80);
    }
}

proof fn lemma_mapped_bases(regions: Seq<MemoryRegion>, count: nat, base: u64)
    requires
        count <= regions.len(),
    ensures
        memory::mapped_bases(regions, count).contains(base) <==> base != 0 && exists|i: int|
            0 <= i < count && (#[trigger] regions[i]).kind == 0x100_0000
                && regions[i].allocation_base == base,
    decreases count,
{
    if count > 0 {
        lemma_mapped_bases(regions, (count - 1) as nat, base);
        let last = regions[count - 1];
        assert(last.kind == 0x100_0000 || last.kind != 0x100_0000);
    }
}

proof fn lemma_module_bases(bases: Set<u64>, modules: Seq<ModuleInfo>, count: nat, base: u64)
    requires
        count <= modules.len(),
    ensures
        memory::with_module_bases(bases, modules, count).contains(base) <==> bases.contains(base)
            || (base != 0 && exists|i: int| 0 <= i < count && (#[trigger] modules[i]).base == base),
    decreases count,
{
    if count > 0 {
        lemma_module_bases(bases, modules, (count - 1) as nat, base);
        let last = modules[count - 1];
        assert(last.base == base || last.base != base);
    }
}

/// Every allocation that is mapped as an image, and every module of the loader, is captured.
pub proof fn mapped_images_and_modules_are_captured(
    regions: Seq<MemoryRegion>,
    modules: Seq<ModuleInfo>,
    base: u64,
)
    ensures
        memory::image_bases(regions, modules).contains(base) <==> base != 0 && ((exists|i: int|
            0 <= i < regions.len() && (#[trigger] regions[i]).kind == 0x100_0000
                && regions[i].allocation_base == base) || (exists|i: int|
            0 <= i < modules.len() && (#[trigger] modules[i]).base == base)),
{
    lemma_mapped_bases(regions, regions.len(), base);
    lemma_module_bases(
        memory::mapped_bases(regions, regions.len()),
        modules,
        modules.len(),
        base,
    );
}

/// The byte at an address of the image is in a committed region with a protection that `wanted`
/// takes.
pub open spec fn committed_at(
    regions: Seq<MemoryRegion>,
    count: nat,
    address: int,
    wanted: spec_fn(u32) -> bool,
) -> bool {
    exists|i: int|
        0 <= i < count && (#[trigger] regions[i]).state == 0x1000 && regions[i].base <= address
            < regions[i].base + regions[i].size && wanted(regions[i].protect)
}

/// One of the parts holds the byte at an offset.
pub open spec fn part_holds(parts: Seq<ReadPart>, offset: int) -> bool {
    exists|i: int|
        0 <= i < parts.len() && (#[trigger] parts[i]).offset <= offset < parts[i].offset
            + parts[i].length
}

/// One of the regions of the image that `wanted` takes holds the byte at an offset.
pub open spec fn evidence_holds(
    evidence: Seq<RegionEvidence>,
    offset: int,
    wanted: spec_fn(RegionEvidence) -> bool,
) -> bool {
    exists|i: int|
        0 <= i < evidence.len() && wanted(#[trigger] evidence[i]) && evidence[i].offset <= offset
            < evidence[i].offset + evidence[i].size
}

proof fn lemma_pushed_part(parts: Seq<ReadPart>, part: ReadPart, offset: int)
    ensures
        part_holds(parts.push(part), offset) <==> part_holds(parts, offset) || part.offset <= offset
            < part.offset + part.length,
{
    let all = parts.push(part);
    assert(all[parts.len() as int] == part);
    if part_holds(parts, offset) {
        let i = choose|i: int|
            0 <= i < parts.len() && (#[trigger] parts[i]).offset <= offset < parts[i].offset
                + parts[i].length;
        assert(all[i] == parts[i]);
    }
    if part_holds(all, offset) && !(part.offset <= offset < part.offset + part.length) {
        let i = choose|i: int|
            0 <= i < all.len() && (#[trigger] all[i]).offset <= offset < all[i].offset
                + all[i].length;
        assert(parts[i] == all[i]);
    }
}

proof fn lemma_pushed_evidence(
    evidence: Seq<RegionEvidence>,
    item: RegionEvidence,
    offset: int,
    wanted: spec_fn(RegionEvidence) -> bool,
)
    ensures
        evidence_holds(evidence.push(item), offset, wanted) <==> evidence_holds(
            evidence,
            offset,
            wanted,
        ) || (wanted(item) && item.offset <= offset < item.offset + item.size),
{
    let all = evidence.push(item);
    assert(all[evidence.len() as int] == item);
    if evidence_holds(evidence, offset, wanted) {
        let i = choose|i: int|
            0 <= i < evidence.len() && wanted(#[trigger] evidence[i]) && evidence[i].offset
                <= offset < evidence[i].offset + evidence[i].size;
        assert(all[i] == evidence[i]);
    }
    if evidence_holds(all, offset, wanted) && !(wanted(item) && item.offset <= offset < item.offset
        + item.size) {
        let i = choose|i: int|
            0 <= i < all.len() && wanted(#[trigger] all[i]) && all[i].offset <= offset
                < all[i].offset + all[i].size;
        assert(evidence[i] == all[i]);
    }
}

proof fn lemma_committed_step(
    regions: Seq<MemoryRegion>,
    count: nat,
    address: int,
    wanted: spec_fn(u32) -> bool,
)
    requires
        0 < count <= regions.len(),
    ensures
        committed_at(regions, count, address, wanted) <==> committed_at(
            regions,
            (count - 1) as nat,
            address,
            wanted,
        ) || (regions[count - 1].state == 0x1000 && regions[count - 1].base <= address
            < regions[count - 1].base + regions[count - 1].size && wanted(
            regions[count - 1].protect,
        )),
{
    let last = regions[count - 1];
    assert(last.state == 0x1000 || last.state != 0x1000);
}

/// A byte of an image is read exactly if it lies in committed memory that can be read; and what
/// the regions of an image say of a byte is the access that its memory gives.
pub proof fn readable_bytes_of_images_are_read(
    base: u64,
    size: u64,
    regions: Seq<MemoryRegion>,
    count: nat,
    offset: int,
)
    requires
        size <= 0x4000_0000,
        base + size <= u64::MAX,
        count <= regions.len(),
        0 <= offset < size,
    ensures
        ({
            let reads = memory::reads_of(base, size, regions, count);
            &&& part_holds(reads.parts, offset) <==> committed_at(
                regions,
                count,
                base + offset,
                |protect: u32| gives_data(protect),
            )
            &&& evidence_holds(reads.evidence, offset, |item: RegionEvidence| item.readable)
                <==> committed_at(
                regions,
                count,
                base + offset,
                |protect: u32| gives_data(protect),
            )
            &&& evidence_holds(reads.evidence, offset, |item: RegionEvidence| item.writable)
                <==> committed_at(
                regions,
                count,
                base + offset,
                |protect: u32| takes_data(protect),
            )
            &&& evidence_holds(reads.evidence, offset, |item: RegionEvidence| item.executable)
                <==> committed_at(
                regions,
                count,
                base + offset,
                |protect: u32| runs_code(protect),
            )
            &&& evidence_holds(reads.evidence, offset, |item: RegionEvidence| true)
                <==> committed_at(regions, count, base + offset, |protect: u32| true)
        }),
    decreases count,
{
    if count > 0 {
        let fewer = (count - 1) as nat;
        let region = regions[count - 1];
        let earlier = memory::reads_of(base, size, regions, fewer);
        let address = base + offset;
        readable_bytes_of_images_are_read(base, size, regions, fewer, offset);
        protections_tell_access(region.protect);
        lemma_committed_step(regions, count, address, |protect: u32| gives_data(protect));
        lemma_committed_step(regions, count, address, |protect: u32| takes_data(protect));
        lemma_committed_step(regions, count, address, |protect: u32| runs_code(protect));
        lemma_committed_step(regions, count, address, |protect: u32| true);
        if let Some(part) = memory::shared_part(region, base, size) {
            let item = memory::part_evidence(region, part);
            assert(part.offset <= offset < part.offset + part.length <==> region.base <= address
                < region.base + region.size);
            lemma_pushed_part(earlier.parts, part, offset);
            lemma_pushed_evidence(
                earlier.evidence,
                item,
                offset,
                |item: RegionEvidence| item.readable,
            );
            lemma_pushed_evidence(
                earlier.evidence,
                item,
                offset,
                |item: RegionEvidence| item.writable,
            );
            lemma_pushed_evidence(
                earlier.evidence,
                item,
                offset,
                |item: RegionEvidence| item.executable,
            );
            lemma_pushed_evidence(earlier.evidence, item, offset, |item: RegionEvidence| true);
        } else {
            assert(!(region.state == 0x1000 && region.base <= address < region.base + region.size));
        }
    }
}

/// A committed region that cannot be read adds the pages that it shares with the image to those
/// that are unreadable: one for each 4096 bytes, and one for a rest. No other region adds any.
pub proof fn unreadable_regions_count_their_pages(
    base: u64,
    size: u64,
    regions: Seq<MemoryRegion>,
    count: nat,
    from: int,
    to: int,
)
    requires
        size <= 0x4000_0000,
        base + size <= u64::MAX,
        count < regions.len(),
        from == (if regions[count as int].base > base {
            regions[count as int].base
        } else {
            base
        }),
        to == (if regions[count as int].base + regions[count as int].size < base + size {
            regions[count as int].base + regions[count as int].size
        } else {
            base + size
        }),
        memory::reads_of(base, size, regions, count).unreadable_pages + 0x4_0001 <= u32::MAX,
    ensures
        memory::reads_of(base, size, regions, count + 1).unreadable_pages == memory::reads_of(
            base,
            size,
            regions,
            count,
        ).unreadable_pages + if regions[count as int].state == 0x1000 && from < to && !gives_data(
            regions[count as int].protect,
        ) {
            (to - from) / 0x1000 + if (to - from) % 0x1000 != 0 {
                1int
            } else {
                0
            }
        } else {
            0
        },
{
    protections_tell_access(regions[count as int].protect);
}

/// Memory is read in chunks of 65536 bytes, and a chunk that cannot be read in pages of 4096
/// bytes. What could be read is left behind; a page that could not be read is counted and left
/// behind; a chunk that could not be read is looked at again.
pub proof fn unreadable_chunks_are_read_by_pages(state: ReadState, done: bool)
    requires
        state.inside(),
        state.at < state.length,
    ensures
        state.at < state.paged_end ==> {
            let step = if state.paged_end - state.at < 0x1000 {
                state.paged_end - state.at
            } else {
                0x1000
            };
            &&& state.stepped(done).at == state.at + step
            &&& state.stepped(done).paged_end == state.paged_end
            &&& state.stepped(done).unreadable == state.unreadable + if done {
                0int
            } else {
                1
            }
        },
        state.at >= state.paged_end ==> {
            let step = if state.length - state.at < 0x1_0000 {
                state.length - state.at
            } else {
                0x1_0000
            };
            &&& state.stepped(done).unreadable == state.unreadable
            &&& state.stepped(done).at == state.at + if done {
                step
            } else {
                0
            }
            &&& state.stepped(done).paged_end == if done {
                state.paged_end
            } else {
                state.at + step
            }
        },
        state.stepped(done).length == state.length,
{
}

/// A region counts as part of a range exactly if they share an address.
pub proof fn shared_addresses_select_regions(region: MemoryRegion, base: int, end: int)
    requires
        0 <= base < end <= u64::MAX,
        region.size > 0,
    ensures
        memory::overlaps(region, base, end) <==> exists|address: int|
            base <= address < end && #[trigger] lies_in(region, address),
{
    if memory::overlaps(region, base, end) {
        let address = if region.base > base {
            region.base as int
        } else {
            base
        };
        assert(lies_in(region, address));
    }
}

/// The address lies in the region.
pub open spec fn lies_in(region: MemoryRegion, address: int) -> bool {
    region.base <= address < region.base + region.size
}

/// Images are refused exactly if they come to more than 4 GiB together, and one is refused exactly
/// if it has no bytes or more than 1 GiB.
pub proof fn captured_images_are_limited(base: u64, end: u64, total: u64)
    ensures
        memory::image_failure(base, end, total) is None <==> 0 < end - base <= 0x4000_0000 && total
            + (end - base) <= 0x1_0000_0000,
        memory::image_failure(base, end, total) is None ==> memory::with_image_bytes(
            total,
            (end - base) as u64,
        ).0 == total + (end - base),
{
}

proof fn lemma_page_total(regions: Seq<MemoryRegion>, count: nat)
    requires
        count <= regions.len(),
    ensures
        memory::page_total(regions, count) >= 0,
    decreases count,
{
    if count > 0 {
        lemma_page_total(regions, (count - 1) as nat);
    }
}

proof fn lemma_page_lies_in_region(
    regions: Seq<MemoryRegion>,
    region: nat,
    first: int,
    page: int,
    place: (int, int),
)
    requires
        region <= regions.len(),
        first == memory::page_total(regions, region),
        0 <= first <= page < memory::page_total(regions, regions.len()) < u64::MAX,
        place == memory::page_at(regions, region, first, page),
        forall|i: int|
            0 <= i < regions.len() ==> (#[trigger] regions[i]).base + regions[i].size <= u64::MAX,
    ensures
        exists|i: int|
            region <= i < regions.len() && (#[trigger] regions[i]).base <= place.0 && place.1 > 0
                && place.0 + place.1 <= regions[i].base + regions[i].size && (place.0
                - regions[i].base) % 0x1000 == 0 && (place.1 == 0x1000 || place.0 + place.1
                == regions[i].base + regions[i].size),
    decreases regions.len() - region,
{
    if region < regions.len() {
        let item = regions[region as int];
        let past = memory::capped64(first + memory::pages_in(item.size));
        assert(past == memory::page_total(regions, region + 1));
        if page < past {
            assert(regions[region as int] == item);
            let offset = (page - first) * 0x1000;
            assert(offset < item.size);
            assert(offset % 0x1000 == 0);
        } else {
            lemma_page_lies_in_region(regions, region + 1, past, page, place);
        }
    }
}

/// Up to 256 pages stand for what must settle. Each is a page of one of its regions, whole or up
/// to the end of the region, and the first one of them is the first page of all.
pub proof fn samples_are_pages_of_regions(regions: Seq<MemoryRegion>, sample: int)
    requires
        0 <= sample < memory::sampled_pages(regions).len(),
        memory::page_total(regions, regions.len()) < u64::MAX,
        forall|i: int|
            0 <= i < regions.len() ==> (#[trigger] regions[i]).base + regions[i].size <= u64::MAX,
    ensures
        memory::sampled_pages(regions).len() <= 256,
        memory::sampled_pages(regions).len() < 256 ==> memory::sampled_pages(regions).len()
            == memory::page_total(regions, regions.len()),
        ({
            let place = memory::sampled_pages(regions)[sample];
            exists|i: int|
                0 <= i < regions.len() && (#[trigger] regions[i]).base <= place.0 && place.1 > 0
                    && place.0 + place.1 <= regions[i].base + regions[i].size && (place.0
                    - regions[i].base) % 0x1000 == 0 && (place.1 == 0x1000 || place.0 + place.1
                    == regions[i].base + regions[i].size)
        }),
        memory::sampled_page(
            0,
            memory::page_total(regions, regions.len()),
            memory::sample_total(regions),
        ) == 0,
{
    let total = memory::page_total(regions, regions.len());
    let samples = memory::sample_total(regions);
    lemma_page_total(regions, regions.len());
    memory::samples_ascend(sample, sample, total, samples);
    memory::samples_ascend(0, sample, total, samples);
    let page = memory::sampled_page(sample, total, samples);
    lemma_page_lies_in_region(regions, 0, 0, page, memory::sampled_pages(regions)[sample]);
    if samples > 1 {
        vstd::arithmetic::div_mod::lemma_div_basics(samples - 1);
    }
}

proof fn lemma_filtered(
    regions: Seq<MemoryRegion>,
    kept: spec_fn(MemoryRegion) -> bool,
    region: MemoryRegion,
)
    ensures
        regions.filter(kept).contains(region) <==> regions.contains(region) && kept(region),
    decreases regions.len(),
{
    reveal(Seq::filter);
    if regions.len() > 0 {
        let fewer = regions.drop_last();
        let last = regions.last();
        let shorter = fewer.filter(kept);
        lemma_filtered(fewer, kept, region);
        assert(regions.contains(region) <==> fewer.contains(region) || region == last) by {
            if regions.contains(region) {
                let i = choose|i: int| 0 <= i < regions.len() && regions[i] == region;
                if i < fewer.len() {
                    assert(fewer[i] == region);
                }
            }
            if fewer.contains(region) {
                let i = choose|i: int| 0 <= i < fewer.len() && fewer[i] == region;
                assert(regions[i] == region);
            }
            assert(regions[regions.len() - 1] == last);
        }
        if kept(last) {
            let all = shorter.push(last);
            assert(regions.filter(kept) == all);
            assert(all.contains(region) <==> shorter.contains(region) || region == last) by {
                if all.contains(region) {
                    let i = choose|i: int| 0 <= i < all.len() && all[i] == region;
                    if i < shorter.len() {
                        assert(shorter[i] == region);
                    }
                }
                if shorter.contains(region) {
                    let i = choose|i: int| 0 <= i < shorter.len() && shorter[i] == region;
                    assert(all[i] == region);
                }
                assert(all[shorter.len() as int] == last);
            }
        }
    }
}

/// An image has all regions of its allocation, and no others; it ends where the last of them does.
pub proof fn images_have_the_regions_of_their_allocation(
    regions: Seq<MemoryRegion>,
    base: u64,
    region: MemoryRegion,
)
    ensures
        memory::own_regions(regions, base).contains(region) <==> regions.contains(region)
            && region.allocation_base == base,
        regions.contains(region) && region.allocation_base == base ==> region.base + region.size
            <= memory::allocation_end(regions, base),
        memory::allocation_end(regions, base) == memory::regions_end(
            memory::own_regions(regions, base),
        ),
{
    lemma_filtered(regions, |region: MemoryRegion| region.allocation_base == base, region);
    lemma_allocation_end(regions, base);
    if regions.contains(region) && region.allocation_base == base {
        let i = choose|i: int| 0 <= i < regions.len() && regions[i] == region;
        assert(regions[i].allocation_base == base);
    }
}

/// Exactly the regions that must settle are looked at for it.
pub proof fn settling_looks_at_code_and_written_images(
    regions: Seq<MemoryRegion>,
    region: MemoryRegion,
)
    ensures
        memory::stability_regions(regions).contains(region) <==> regions.contains(region)
            && region.state == 0x1000 && gives_data(region.protect) && (runs_code(region.protect)
            || (region.kind == 0x100_0000 && takes_data(region.protect))),
{
    lemma_filtered(regions, |region: MemoryRegion| memory::stability_region(region), region);
    code_and_written_images_must_settle(region);
}

/// A hidden image is kept with its address and all bytes up to the end of its allocation. One of
/// more than 1 GiB is refused, and so is the one after 4096 others.
pub proof fn hidden_images_are_kept_whole(
    found: Seq<(u64, u64)>,
    probe: PageProbe,
    header: Seq<u8>,
)
    requires
        parse::declared_image(header) is Ok,
        bytes::le32(header, bytes::le32(header, 0x3C) + 80) <= probe.available,
    ensures
        match memory::with_hidden(found, probe, header) {
            (after, failure) => {
                &&& failure is None <==> probe.available <= 0x4000_0000 && found.len() < 4096
                &&& failure is None ==> after == found.push((probe.address, probe.available))
            },
        },
{
    assert(bytes::le32(header, 0x3C) + 24 + 56 == bytes::le32(header, 0x3C) + 80);
}

/// The module of an address is the first of the list that starts there.
pub proof fn modules_are_found_by_address(modules: Seq<ModuleView>, base: u64, index: int)
    requires
        0 <= index <= modules.len(),
        forall|i: int| 0 <= i < index ==> (#[trigger] modules[i]).base != base,
        index < modules.len() ==> modules[index].base == base,
    ensures
        memory::module_at(modules, base) == if index < modules.len() {
            Some(modules[index])
        } else {
            None
        },
    decreases index,
{
    if index > 0 {
        let rest = modules.skip(1);
        assert(modules[0].base != base);
        assert forall|i: int| 0 <= i < index - 1 implies (#[trigger] rest[i]).base != base by {
            assert(rest[i] == modules[i + 1]);
        }
        if index < modules.len() {
            assert(rest[index - 1] == modules[index]);
        }
        modules_are_found_by_address(rest, base, index - 1);
    }
}

/// Regions that differ in anything count as a change: what is hashed of a region tells all of it.
pub proof fn every_change_of_a_region_counts(left: MemoryRegion, right: MemoryRegion)
    requires
        memory::region_bytes(left) == memory::region_bytes(right),
    ensures
        left == right,
{
    lemma_region_fields(left);
    lemma_region_fields(right);
}

proof fn lemma_region_fields(region: MemoryRegion)
    ensures
        ({
            let all = memory::region_bytes(region);
            &&& bytes::le64(all, 0) == region.base
            &&& bytes::le64(all, 8) == region.allocation_base
            &&& bytes::le64(all, 16) == region.size
            &&& bytes::le32(all, 24) == region.state
            &&& bytes::le32(all, 28) == region.protect
            &&& bytes::le32(all, 32) == region.kind
        }),
{
    let all = memory::region_bytes(region);
    let base = bytes::bytes64(region.base);
    let allocation = bytes::bytes64(region.allocation_base);
    let size = bytes::bytes64(region.size);
    let state = bytes::bytes32(region.state);
    let protect = bytes::bytes32(region.protect);
    let kind = bytes::bytes32(region.kind);
    lemma_parts(base, allocation, size, state, protect, kind);
    lemma_wide_part(all, 0, region.base);
    lemma_wide_part(all, 8, region.allocation_base);
    lemma_wide_part(all, 16, region.size);
    lemma_part(all, 24, region.state);
    lemma_part(all, 28, region.protect);
    lemma_part(all, 32, region.kind);
}

proof fn lemma_parts(
    first: Seq<u8>,
    second: Seq<u8>,
    third: Seq<u8>,
    fourth: Seq<u8>,
    fifth: Seq<u8>,
    sixth: Seq<u8>,
)
    requires
        first.len() == 8,
        second.len() == 8,
        third.len() == 8,
        fourth.len() == 4,
        fifth.len() == 4,
        sixth.len() == 4,
    ensures
        ({
            let all = first + second + third + fourth + fifth + sixth;
            &&& all.len() == 36
            &&& all.subrange(0, 8) == first
            &&& all.subrange(8, 16) == second
            &&& all.subrange(16, 24) == third
            &&& all.subrange(24, 28) == fourth
            &&& all.subrange(28, 32) == fifth
            &&& all.subrange(32, 36) == sixth
        }),
{
    let all = first + second + third + fourth + fifth + sixth;
    assert(all.subrange(0, 8) =~= first);
    assert(all.subrange(8, 16) =~= second);
    assert(all.subrange(16, 24) =~= third);
    assert(all.subrange(24, 28) =~= fourth);
    assert(all.subrange(28, 32) =~= fifth);
    assert(all.subrange(32, 36) =~= sixth);
}

proof fn lemma_part(all: Seq<u8>, at: int, value: u32)
    requires
        0 <= at,
        at + 4 <= all.len(),
        all.subrange(at, at + 4) == bytes::bytes32(value),
    ensures
        bytes::le32(all, at) == value,
{
    assert(bytes::splice(all, at, bytes::bytes32(value)) =~= all) by {
        assert forall|i: int| at <= i < at + 4 implies #[trigger] all[i] == bytes::bytes32(value)[i
            - at] by {
            assert(all.subrange(at, at + 4)[i - at] == all[i]);
        }
    }
    bytes::written_u32_reads_back(all, at, value);
}

proof fn lemma_wide_part(all: Seq<u8>, at: int, value: u64)
    requires
        0 <= at,
        at + 8 <= all.len(),
        all.subrange(at, at + 8) == bytes::bytes64(value),
    ensures
        bytes::le64(all, at) == value,
{
    assert(bytes::splice(all, at, bytes::bytes64(value)) =~= all) by {
        assert forall|i: int| at <= i < at + 8 implies #[trigger] all[i] == bytes::bytes64(value)[i
            - at] by {
            assert(all.subrange(at, at + 8)[i - at] == all[i]);
        }
    }
    bytes::written_u64_reads_back(all, at, value);
}

/// What is read of a target is limited: in regions, images, bytes, pages and samples; and memory
/// counts as settled after three repeats in at most 30 looks.
pub proof fn reading_is_limited()
    ensures
        memory::MAX_MEMORY_REGIONS == 1_048_576,
        memory::MAX_IMAGES == 4_096,
        memory::MAX_IMAGE_BYTES == 0x4000_0000,
        memory::MAX_TOTAL_IMAGE_BYTES == 0x1_0000_0000,
        memory::MAX_NON_IMAGE_SCAN_PAGES == 262_144,
        memory::STABLE_POLL_COUNT == 30,
        memory::STABLE_MATCH_COUNT == 3,
        memory::MAX_STABILITY_READS == 256,
        memory::READ_CHUNK == 0x1_0000,
        memory::PAGE_SIZE == 0x1000,
{
}

/// Region lists that differ in anything count as a change.
pub proof fn every_change_of_the_regions_counts(
    left: Seq<MemoryRegion>,
    right: Seq<MemoryRegion>,
)
    requires
        memory::region_parts(left, left.len()) == memory::region_parts(right, right.len()),
    ensures
        left == right,
{
    lemma_region_parts(left, left.len());
    lemma_region_parts(right, right.len());
    assert forall|i: int| 0 <= i < left.len() implies left[i] == right[i] by {
        assert(memory::region_parts(left, left.len())[i] == memory::region_bytes(left[i]));
        assert(memory::region_parts(right, right.len())[i] == memory::region_bytes(right[i]));
        every_change_of_a_region_counts(left[i], right[i]);
    }
    assert(left =~= right);
}

proof fn lemma_region_parts(regions: Seq<MemoryRegion>, count: nat)
    requires
        count <= regions.len(),
    ensures
        memory::region_parts(regions, count).len() == count,
        forall|i: int|
            0 <= i < count ==> #[trigger] memory::region_parts(regions, count)[i]
                == memory::region_bytes(regions[i]),
    decreases count,
{
    if count > 0 {
        lemma_region_parts(regions, (count - 1) as nat);
    }
}

/// A page that differs counts as a change: in its bytes, or in that it could be read.
pub proof fn every_change_of_a_page_counts(
    parts: Seq<Seq<u8>>,
    left: Seq<Option<Vec<u8>>>,
    right: Seq<Option<Vec<u8>>>,
    page: int,
    count: nat,
)
    requires
        0 <= page < count <= left.len(),
        left.len() == right.len(),
        forall|i: int| 0 <= i < left.len() && i != page ==> #[trigger] left[i] == right[i],
        left[page] is Some != right[page] is Some || (left[page] is Some && left[page]->0@
            != right[page]->0@),
    ensures
        memory::with_page_parts(parts, left, count) != memory::with_page_parts(parts, right, count),
    decreases count,
{
    let one = memory::with_page_parts(parts, left, count);
    let other = memory::with_page_parts(parts, right, count);
    let fewer = (count - 1) as nat;
    let before = memory::with_page_parts(parts, left, fewer);
    let other_before = memory::with_page_parts(parts, right, fewer);
    if page < fewer {
        every_change_of_a_page_counts(parts, left, right, page, fewer);
        assert(left[fewer as int] == right[fewer as int]);
        if one == other {
            assert(before =~= one.subrange(0, before.len() as int));
            assert(other_before =~= other.subrange(0, other_before.len() as int));
            let added: int = if left[count - 1] is Some {
                2
            } else {
                1
            };
            assert(left[count - 1] == right[count - 1]);
            assert(one.len() == before.len() + added);
            assert(other.len() == other_before.len() + added);
            assert(before == other_before);
        }
    } else {
        lemma_same_pages(parts, left, right, fewer);
        if one == other {
            assert(one.len() == other.len());
            if left[page] is Some && right[page] is Some {
                assert(one.last() == left[page]->0@);
                assert(other.last() == right[page]->0@);
            }
            assert(before == other_before);
        }
    }
}

proof fn lemma_same_pages(
    parts: Seq<Seq<u8>>,
    left: Seq<Option<Vec<u8>>>,
    right: Seq<Option<Vec<u8>>>,
    count: nat,
)
    requires
        count <= left.len(),
        count <= right.len(),
        forall|i: int| 0 <= i < count ==> #[trigger] left[i] == right[i],
    ensures
        memory::with_page_parts(parts, left, count) == memory::with_page_parts(
            parts,
            right,
            count,
        ),
    decreases count,
{
    if count > 0 {
        lemma_same_pages(parts, left, right, (count - 1) as nat);
        assert(left[count - 1] == right[count - 1]);
    }
}

} // verus!
