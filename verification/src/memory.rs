//! What is read from the memory of the target, and what the answers mean.

use std::collections::{BTreeMap, BTreeSet};
use std::hash::{DefaultHasher, Hasher};
use vstd::prelude::*;
use vstd::std_specs::hash::DefaultHasherAdditionalSpecFns;

use crate::error::{AppError, AppResult};
use crate::error;
use crate::pe::bytes;
use crate::pe::layout;
use crate::pe::parse::memory_image_size;
use crate::pe::parse;
use crate::pe::RegionEvidence;
use crate::process::{ModuleInfo, ModuleView, TargetProcess};
use crate::process;
use crate::text::with_wide_hex;
use crate::text;

verus! {

broadcast use vstd::std_specs::btree::group_btree_axioms;

pub const MAX_MEMORY_REGIONS: usize = 1_048_576;

pub const MAX_IMAGES: usize = 4_096;

pub const MAX_IMAGE_BYTES: u64 = 0x4000_0000;

pub const MAX_TOTAL_IMAGE_BYTES: u64 = 0x1_0000_0000;

pub const READ_CHUNK: usize = 0x1_0000;

pub const PAGE_SIZE: u64 = 0x1000;

pub const MAX_HEADER_READ: u64 = 0x1_0000;

pub const MAX_NON_IMAGE_SCAN_PAGES: usize = 262_144;

pub const STABLE_POLL_COUNT: usize = 30;

pub const STABLE_MATCH_COUNT: usize = 3;

pub const MAX_STABILITY_READS: usize = 256;

pub const MEM_COMMIT: u32 = 0x1000;

pub const MEM_PRIVATE: u32 = 0x2_0000;

pub const MEM_MAPPED: u32 = 0x4_0000;

pub const MEM_IMAGE: u32 = 0x100_0000;

pub const PAGE_NOACCESS: u32 = 0x01;

pub const PAGE_READONLY: u32 = 0x02;

pub const PAGE_READWRITE: u32 = 0x04;

pub const PAGE_WRITECOPY: u32 = 0x08;

pub const PAGE_EXECUTE: u32 = 0x10;

pub const PAGE_EXECUTE_READ: u32 = 0x20;

pub const PAGE_EXECUTE_READWRITE: u32 = 0x40;

pub const PAGE_EXECUTE_WRITECOPY: u32 = 0x80;

pub const PAGE_GUARD: u32 = 0x100;

/// One stretch of the target's address space.
#[derive(Clone, Copy, Debug, PartialEq, Eq, Structural)]
pub struct MemoryRegion {
    pub base: u64,
    pub allocation_base: u64,
    pub size: u64,
    pub state: u32,
    pub protect: u32,
    pub kind: u32,
}

/// The pages cannot be touched: they are guarded, or closed.
pub open spec fn closed(protect: u32) -> bool {
    protect & PAGE_GUARD != 0 || protect & PAGE_NOACCESS != 0
}

/// The pages can be read.
pub open spec fn readable(protect: u32) -> bool {
    let access = protect & 0xFF;
    !closed(protect) && (access == PAGE_READONLY || access == PAGE_READWRITE || access
        == PAGE_WRITECOPY || access == PAGE_EXECUTE_READ || access == PAGE_EXECUTE_READWRITE
        || access == PAGE_EXECUTE_WRITECOPY)
}

/// The pages can be executed.
pub open spec fn executable(protect: u32) -> bool {
    let access = protect & 0xFF;
    !closed(protect) && (access == PAGE_EXECUTE || access == PAGE_EXECUTE_READ || access
        == PAGE_EXECUTE_READWRITE || access == PAGE_EXECUTE_WRITECOPY)
}

/// The pages can be written.
pub open spec fn writable(protect: u32) -> bool {
    let access = protect & 0xFF;
    !closed(protect) && (access == PAGE_READWRITE || access == PAGE_WRITECOPY || access
        == PAGE_EXECUTE_READWRITE || access == PAGE_EXECUTE_WRITECOPY)
}

/// What can be written can be read.
pub proof fn writable_pages_are_readable(protect: u32)
    ensures
        writable(protect) ==> readable(protect),
{
}

/// Tests whether pages can be read.
pub fn is_readable(protect: u32) -> (yes: bool)
    ensures
        yes == readable(protect),
{
    if protect & PAGE_GUARD != 0 || protect & PAGE_NOACCESS != 0 {
        return false;
    }
    let access: u32 = protect & 0xFF;
    access == PAGE_READONLY || access == PAGE_READWRITE || access == PAGE_WRITECOPY || access
        == PAGE_EXECUTE_READ || access == PAGE_EXECUTE_READWRITE || access
        == PAGE_EXECUTE_WRITECOPY
}

/// Tests whether pages can be executed.
pub fn is_executable(protect: u32) -> (yes: bool)
    ensures
        yes == executable(protect),
{
    if protect & PAGE_GUARD != 0 || protect & PAGE_NOACCESS != 0 {
        return false;
    }
    let access: u32 = protect & 0xFF;
    access == PAGE_EXECUTE || access == PAGE_EXECUTE_READ || access == PAGE_EXECUTE_READWRITE
        || access == PAGE_EXECUTE_WRITECOPY
}

/// Tests whether pages can be written.
pub fn is_writable(protect: u32) -> (yes: bool)
    ensures
        yes == writable(protect),
{
    if protect & PAGE_GUARD != 0 || protect & PAGE_NOACCESS != 0 {
        return false;
    }
    let access: u32 = protect & 0xFF;
    access == PAGE_READWRITE || access == PAGE_WRITECOPY || access == PAGE_EXECUTE_READWRITE
        || access == PAGE_EXECUTE_WRITECOPY
}

/// The region belongs to what must settle before the target is dumped: written parts of images,
/// and everything executable.
pub open spec fn stability_region(region: MemoryRegion) -> bool {
    region.state == MEM_COMMIT && readable(region.protect) && ((region.kind == MEM_IMAGE
        && writable(region.protect)) || executable(region.protect))
}

/// Tests whether a region belongs to what must settle.
pub fn is_stability_region(region: &MemoryRegion) -> (yes: bool)
    ensures
        yes == stability_region(*region),
{
    region.state == MEM_COMMIT && is_readable(region.protect) && ((region.kind == MEM_IMAGE
        && is_writable(region.protect)) || is_executable(region.protect))
}

/// The regions that belong to what must settle.
pub open spec fn stability_regions(regions: Seq<MemoryRegion>) -> Seq<MemoryRegion> {
    regions.filter(|region: MemoryRegion| stability_region(region))
}

/// The regions that belong to what must settle.
pub fn select_stability_regions(regions: &[MemoryRegion]) -> (selected: Vec<MemoryRegion>)
    ensures
        selected@ == stability_regions(regions@),
{
    let mut selected: Vec<MemoryRegion> = Vec::new();
    let mut index: usize = 0;
    proof {
        reveal(Seq::filter);
    }
    while index < regions.len()
        invariant
            index <= regions@.len(),
            selected@ == stability_regions(regions@.take(index as int)),
        decreases regions@.len() - index,
    {
        proof {
            reveal(Seq::filter);
            let more = regions@.take(index + 1);
            assert(more.drop_last() =~= regions@.take(index as int));
            assert(more.last() == regions@[index as int]);
        }
        if is_stability_region(&regions[index]) {
            selected.push(regions[index]);
        }
        index = index + 1;
    }
    assert(regions@.take(index as int) =~= regions@);
    selected
}

/// The pages that `size` bytes take.
pub open spec fn pages_in(size: u64) -> int {
    (size + PAGE_SIZE - 1) / PAGE_SIZE as int
}

/// A 64-bit number, or the largest one if `value` is above that.
pub open spec fn capped64(value: int) -> int {
    layout::least(value, u64::MAX as int)
}

/// The pages of the first `count` regions.
pub open spec fn page_total(regions: Seq<MemoryRegion>, count: nat) -> int
    decreases count,
{
    if count == 0 {
        0
    } else {
        capped64(page_total(regions, (count - 1) as nat) + pages_in(regions[count - 1].size))
    }
}

/// The page that is read as sample number `sample`: the samples are spread evenly from the first
/// page to the last.
pub open spec fn sampled_page(sample: int, total_pages: int, sample_count: int) -> int {
    if sample_count <= 1 {
        0
    } else {
        sample * layout::distance(1, total_pages) / (sample_count - 1)
    }
}

/// The page that is read as sample number `sample`.
pub fn sample_page(sample: u64, total_pages: u64, sample_count: u64) -> (page: u64)
    ensures
        page == sampled_page(sample as int, total_pages as int, sample_count as int) as u64,
{
    if sample_count <= 1 {
        return 0;
    }
    let last: u64 = total_pages.saturating_sub(1);
    let steps: u64 = sample_count - 1;
    assert(0 <= sample * last <= u128::MAX) by (nonlinear_arith)
        requires
            0 <= sample <= u64::MAX,
            0 <= last <= u64::MAX,
    ;
    let numerator: u128 = sample as u128 * last as u128;
    #[verifier::truncate]
    let page: u64 = (numerator / steps as u128) as u64;
    page
}

/// Later samples come from later pages, all samples from pages that there are, and the last from
/// the last page.
pub proof fn samples_ascend(sample: int, later: int, total_pages: int, sample_count: int)
    requires
        0 <= sample <= later < sample_count,
        0 < total_pages,
    ensures
        0 <= sampled_page(sample, total_pages, sample_count) <= sampled_page(
            later,
            total_pages,
            sample_count,
        ) < total_pages,
        sample_count > 1 ==> sampled_page(sample_count - 1, total_pages, sample_count)
            == total_pages - 1,
{
    if sample_count > 1 {
        let last = total_pages - 1;
        let steps = sample_count - 1;
        assert(0 <= sample * last <= later * last <= steps * last) by (nonlinear_arith)
            requires
                0 <= sample <= later <= steps,
                0 <= last,
        ;
        vstd::arithmetic::div_mod::lemma_div_is_ordered(sample * last, later * last, steps);
        vstd::arithmetic::div_mod::lemma_div_is_ordered(0, sample * last, steps);
        vstd::arithmetic::div_mod::lemma_div_is_ordered(later * last, steps * last, steps);
        vstd::arithmetic::div_mod::lemma_div_multiples_vanish(last, steps);
        assert(steps * last / steps == last);
        assert(0int / steps == 0) by {
            vstd::arithmetic::div_mod::lemma_div_basics(steps);
        }
    }
}

/// Where a page of a region is, and how much of it there is.
pub open spec fn page_place(region: MemoryRegion, page: int) -> (int, int) {
    let offset = page * PAGE_SIZE;
    (
        capped64(region.base + offset),
        layout::least(layout::distance(offset, region.size as int), PAGE_SIZE as int),
    )
}

/// The place of the page with this number, counted over the regions from `region` on, of which
/// the first starts with page `first`.
pub open spec fn page_at(
    regions: Seq<MemoryRegion>,
    region: nat,
    first: int,
    page: int,
) -> (int, int)
    decreases regions.len() - region,
{
    let past = capped64(first + pages_in(regions[region as int].size));
    if region >= regions.len() {
        (0, 0)
    } else if page < past {
        page_place(regions[region as int], page - first)
    } else {
        page_at(regions, region + 1, past, page)
    }
}

/// How many pages are sampled.
pub open spec fn sample_total(regions: Seq<MemoryRegion>) -> int {
    layout::least(page_total(regions, regions.len()), MAX_STABILITY_READS as int)
}

/// The pages that are sampled.
pub open spec fn sampled_pages(regions: Seq<MemoryRegion>) -> Seq<(int, int)> {
    Seq::new(
        sample_total(regions) as nat,
        |sample: int|
            page_at(
                regions,
                0,
                0,
                sampled_page(
                    sample,
                    page_total(regions, regions.len()),
                    sample_total(regions),
                ),
            ),
    )
}

/// Places and lengths, seen mathematically.
pub open spec fn place_views(places: Seq<(u64, u64)>) -> Seq<(int, int)> {
    places.map_values(|place: (u64, u64)| (place.0 as int, place.1 as int))
}

/// The pages that `size` bytes take.
fn page_count(size: u64) -> (pages: u64)
    ensures
        pages == pages_in(size),
        pages <= 0x10_0000_0000_0000,
{
    if size % PAGE_SIZE == 0 {
        size / PAGE_SIZE
    } else {
        size / PAGE_SIZE + 1
    }
}

proof fn lemma_page_total_bounds(regions: Seq<MemoryRegion>, fewer: nat, more: nat)
    requires
        fewer <= more,
    ensures
        0 <= page_total(regions, fewer) <= page_total(regions, more) <= u64::MAX,
    decreases more,
{
    if more > 0 {
        if fewer < more {
            lemma_page_total_bounds(regions, fewer, (more - 1) as nat);
        } else {
            lemma_page_total_bounds(regions, (more - 1) as nat, (more - 1) as nat);
        }
    }
}

/// Looking for a page can start at the first region that does not lie before it.
proof fn lemma_page_at_skips(regions: Seq<MemoryRegion>, count: nat, page: int)
    requires
        count <= regions.len(),
        page >= page_total(regions, count),
    ensures
        page_at(regions, 0, 0, page) == page_at(
            regions,
            count,
            page_total(regions, count),
            page,
        ),
    decreases count,
{
    if count > 0 {
        lemma_page_total_bounds(regions, (count - 1) as nat, count);
        lemma_page_at_skips(regions, (count - 1) as nat, page);
    }
}

/// Chooses pages that stand for the contents of what must settle.
pub fn stability_pages(regions: &[MemoryRegion]) -> (pages: Vec<(u64, u64)>)
    ensures
        place_views(pages@) == sampled_pages(stability_regions(regions@)),
{
    let selected: Vec<MemoryRegion> = select_stability_regions(regions);
    let ghost chosen = selected@;
    let mut total: u64 = 0;
    let mut index: usize = 0;
    while index < selected.len()
        invariant
            index <= selected@.len(),
            chosen == selected@,
            total == page_total(chosen, index as nat),
        decreases selected@.len() - index,
    {
        total = total.saturating_add(page_count(selected[index].size));
        index = index + 1;
    }
    let sample_count: u64 = if total < MAX_STABILITY_READS as u64 {
        total
    } else {
        MAX_STABILITY_READS as u64
    };
    let mut pages: Vec<(u64, u64)> = Vec::with_capacity(sample_count as usize);
    let mut first_page: u64 = 0;
    let mut sample: u64 = 0;
    let mut place: usize = 0;
    let ghost expected = sampled_pages(chosen);
    assert(place_views(pages@) =~= expected.take(0));
    while place < selected.len()
        invariant
            place <= selected@.len(),
            chosen == selected@,
            total == page_total(chosen, chosen.len()),
            sample_count == sample_total(chosen),
            expected == sampled_pages(chosen),
            sample <= sample_count,
            pages@.len() == sample,
            place_views(pages@) == expected.take(sample as int),
            first_page == page_total(chosen, place as nat),
            sample < sample_count ==> sampled_page(
                sample as int,
                total as int,
                sample_count as int,
            ) >= first_page,
        decreases selected@.len() - place,
    {
        let region: MemoryRegion = selected[place];
        let past_region: u64 = first_page.saturating_add(page_count(region.size));
        let mut inside: bool = true;
        while inside && sample < sample_count
            invariant
                place < selected@.len(),
                chosen == selected@,
                region == chosen[place as int],
                total == page_total(chosen, chosen.len()),
                sample_count == sample_total(chosen),
                expected == sampled_pages(chosen),
                sample <= sample_count,
                pages@.len() == sample,
                place_views(pages@) == expected.take(sample as int),
                first_page == page_total(chosen, place as nat),
                past_region == page_total(chosen, (place + 1) as nat),
                past_region == capped64(first_page + pages_in(region.size)),
                sample < sample_count ==> sampled_page(
                    sample as int,
                    total as int,
                    sample_count as int,
                ) >= first_page,
                !inside ==> sample < sample_count && sampled_page(
                    sample as int,
                    total as int,
                    sample_count as int,
                ) >= past_region,
            decreases sample_count - sample, inside as int,
        {
            proof {
                samples_ascend(sample as int, sample as int, total as int, sample_count as int);
            }
            let target: u64 = sample_page(sample, total, sample_count);
            if target >= past_region {
                inside = false;
            } else {
                let page: u64 = target - first_page;
                proof {
                    lemma_page_at_skips(chosen, place as nat, target as int);
                    assert(expected[sample as int] == page_place(region, page as int));
                    if sample + 1 < sample_count {
                        samples_ascend(
                            sample as int,
                            sample + 1,
                            total as int,
                            sample_count as int,
                        );
                    }
                }
                let offset: u64 = page * PAGE_SIZE;
                let address: u64 = region.base.saturating_add(offset);
                let rest: u64 = region.size.saturating_sub(offset);
                let length: u64 = if rest < PAGE_SIZE {
                    rest
                } else {
                    PAGE_SIZE
                };
                let ghost earlier = pages@;
                pages.push((address, length));
                assert(place_views(pages@) =~= place_views(earlier).push(
                    (address as int, length as int),
                ));
                assert(expected.take(sample + 1) =~= expected.take(sample as int).push(
                    expected[sample as int],
                ));
                sample = sample + 1;
            }
        }
        first_page = past_region;
        place = place + 1;
    }
    proof {
        if sample < sample_count {
            samples_ascend(sample as int, sample as int, total as int, sample_count as int);
        }
        assert(expected.take(sample as int) =~= expected);
    }
    pages
}

/// The bytes of all images after one more, or why there are too many. The sum is kept where it
/// passes the limit.
pub open spec fn with_image_bytes(total: u64, size: u64) -> (u64, Option<Seq<char>>) {
    if total + size > u64::MAX {
        (total, Some("combined image size overflowed"@))
    } else if total + size > MAX_TOTAL_IMAGE_BYTES {
        (
            (total + size) as u64,
            Some("combined in-memory image data exceeds the 4 GiB safety limit"@),
        )
    } else {
        ((total + size) as u64, None)
    }
}

/// Counts the bytes of one more image.
pub fn add_image_size(total: &mut u64, size: u64) -> (outcome: AppResult<()>)
    ensures
        *final(total) == with_image_bytes(*old(total), size).0,
        match with_image_bytes(*old(total), size).1 {
            Some(message) => error::fails(outcome, message),
            None => outcome is Ok,
        },
{
    match (*total).checked_add(size) {
        None => {
            return Err(AppError::fixed("combined image size overflowed"));
        },
        Some(sum) => {
            *total = sum;
        },
    }
    if *total > MAX_TOTAL_IMAGE_BYTES {
        return Err(
            AppError::fixed("combined in-memory image data exceeds the 4 GiB safety limit"),
        );
    }
    Ok(())
}

/// A walk over the regions of an address space, in the order of their addresses.
pub struct RegionWalk {
    regions: Vec<MemoryRegion>,
    address: u64,
}

/// Where a walk goes on.
#[derive(Clone, Copy, Debug, PartialEq, Eq, Structural)]
pub enum WalkStep {
    Ask(u64),
    Finished,
}

impl RegionWalk {
    /// The regions that were found.
    pub closed spec fn found(&self) -> Seq<MemoryRegion> {
        self.regions@
    }

    /// The address that is asked for.
    pub closed spec fn asked(&self) -> u64 {
        self.address
    }

    /// A walk that has found nothing and asks for address zero.
    pub fn start() -> (walk: RegionWalk)
        ensures
            walk.found() == Seq::<MemoryRegion>::empty(),
            walk.asked() == 0,
    {
        RegionWalk { regions: Vec::new(), address: 0 }
    }

    /// Why an answer cannot be taken, if it cannot.
    pub open spec fn answer_failure(&self, region: MemoryRegion) -> Option<Seq<char>> {
        if region.base + region.size > u64::MAX {
            Some("virtual memory region address overflowed"@)
        } else if region.size == 0 || region.base + region.size <= self.asked() {
            Some("VirtualQueryEx returned the same address twice"@)
        } else if self.found().len() + 1 >= MAX_MEMORY_REGIONS {
            Some("too many memory regions were returned"@)
        } else {
            None
        }
    }

    /// Takes the answer for the address that was asked for: the region there, or nothing at the
    /// end of the address space.
    pub fn step(&mut self, answer: Option<MemoryRegion>) -> (step: AppResult<WalkStep>)
        ensures
            match answer {
                None => *final(self) == *old(self) && step == Ok::<WalkStep, AppError>(
                    WalkStep::Finished,
                ),
                Some(region) => match old(self).answer_failure(region) {
                    Some(message) => error::fails(step, message) && *final(self) == *old(self),
                    None => final(self).found() == old(self).found().push(region)
                        && final(self).asked() == region.base + region.size && step == Ok::<
                        WalkStep,
                        AppError,
                    >(WalkStep::Ask(final(self).asked())),
                },
            },
    {
        match answer {
            None => Ok(WalkStep::Finished),
            Some(region) => {
                let next: u64 = match region.base.checked_add(region.size) {
                    Some(next) => next,
                    None => {
                        return Err(AppError::fixed("virtual memory region address overflowed"));
                    },
                };
                if region.size == 0 || next <= self.address {
                    return Err(AppError::fixed("VirtualQueryEx returned the same address twice"));
                }
                if self.regions.len() >= MAX_MEMORY_REGIONS - 1 {
                    return Err(AppError::fixed("too many memory regions were returned"));
                }
                self.regions.push(region);
                self.address = next;
                Ok(WalkStep::Ask(next))
            },
        }
    }

    /// The regions that were found.
    pub fn finish(self) -> (regions: Vec<MemoryRegion>)
        ensures
            regions@ == self.found(),
    {
        self.regions
    }
}

/// The region is executable memory that belongs to no image, in the allocation at `base`.
pub open spec fn executable_outside_images(region: MemoryRegion, base: u64) -> bool {
    region.state == MEM_COMMIT && region.kind != MEM_IMAGE && executable(region.protect)
        && region.allocation_base == base && base != 0
}

/// An allocation with executable memory that belongs to no image.
pub open spec fn executable_allocation(regions: Seq<MemoryRegion>, base: u64) -> bool {
    exists|i: int| 0 <= i < regions.len() && executable_outside_images(#[trigger] regions[i], base)
}

/// The allocations with executable memory that belongs to no image.
pub fn executable_non_image_allocations(regions: &[MemoryRegion]) -> (allocations: BTreeSet<u64>)
    ensures
        forall|base: u64| #[trigger]
            allocations@.contains(base) <==> executable_allocation(regions@, base),
{
    let mut allocations: BTreeSet<u64> = BTreeSet::new();
    let mut index: usize = 0;
    while index < regions.len()
        invariant
            index <= regions@.len(),
            forall|base: u64| #[trigger]
                allocations@.contains(base) <==> exists|i: int|
                    0 <= i < index && executable_outside_images(#[trigger] regions@[i], base),
        decreases regions@.len() - index,
    {
        let region: MemoryRegion = regions[index];
        if region.state == MEM_COMMIT && region.kind != MEM_IMAGE && is_executable(region.protect)
            && region.allocation_base != 0 {
            allocations.insert(region.allocation_base);
            assert(executable_outside_images(regions@[index as int], region.allocation_base));
        }
        index = index + 1;
    }
    allocations
}

/// The region shares an address with the range from `base` up to `end`.
pub open spec fn overlaps(region: MemoryRegion, base: int, end: int) -> bool {
    region.base < end && capped64(region.base + region.size) > base
}

/// The regions that share an address with an image of `size` bytes at `base`.
pub fn regions_in_range(regions: &[MemoryRegion], base: u64, size: u64) -> (selected: AppResult<
    Vec<MemoryRegion>,
>)
    ensures
        if base + size > u64::MAX {
            error::fails(selected, "hidden image range overflowed"@)
        } else {
            selected is Ok && selected->Ok_0@ == regions@.filter(
                |region: MemoryRegion| overlaps(region, base as int, base + size),
            )
        },
{
    let end: u64 = match base.checked_add(size) {
        Some(end) => end,
        None => {
            return Err(AppError::fixed("hidden image range overflowed"));
        },
    };
    let ghost keep = |region: MemoryRegion| overlaps(region, base as int, base + size);
    let mut selected: Vec<MemoryRegion> = Vec::new();
    let mut index: usize = 0;
    proof {
        reveal(Seq::filter);
    }
    while index < regions.len()
        invariant
            index <= regions@.len(),
            end == base + size,
            keep == (|region: MemoryRegion| overlaps(region, base as int, base + size)),
            selected@ == regions@.take(index as int).filter(keep),
        decreases regions@.len() - index,
    {
        let region: MemoryRegion = regions[index];
        proof {
            reveal(Seq::filter);
            let more = regions@.take(index + 1);
            assert(more.drop_last() =~= regions@.take(index as int));
            assert(more.last() == region);
        }
        let region_end: u64 = region.base.saturating_add(region.size);
        if region.base < end && region_end > base {
            selected.push(region);
        }
        index = index + 1;
    }
    assert(regions@.take(index as int) =~= regions@);
    Ok(selected)
}

/// The regions of one image, with the highest address of one of them.
#[derive(Debug)]
pub struct ImageGroup {
    pub regions: Vec<MemoryRegion>,
    pub end: u64,
}

/// The regions of the allocation at `base`.
pub open spec fn own_regions(regions: Seq<MemoryRegion>, base: u64) -> Seq<MemoryRegion> {
    regions.filter(|region: MemoryRegion| region.allocation_base == base)
}

/// The highest end of a region.
pub open spec fn regions_end(regions: Seq<MemoryRegion>) -> int
    decreases regions.len(),
{
    if regions.len() == 0 {
        0
    } else {
        let earlier = regions_end(regions.drop_last());
        let end = regions.last().base + regions.last().size;
        if end > earlier {
            end
        } else {
            earlier
        }
    }
}

/// The bases of the images that the first `count` regions belong to.
pub open spec fn mapped_bases(regions: Seq<MemoryRegion>, count: nat) -> Set<u64>
    decreases count,
{
    if count == 0 {
        Set::empty()
    } else {
        let earlier = mapped_bases(regions, (count - 1) as nat);
        let region = regions[count - 1];
        if region.kind == MEM_IMAGE && region.allocation_base != 0 {
            earlier.insert(region.allocation_base)
        } else {
            earlier
        }
    }
}

/// `bases` with those of the first `count` modules.
pub open spec fn with_module_bases(
    bases: Set<u64>,
    modules: Seq<ModuleInfo>,
    count: nat,
) -> Set<u64>
    decreases count,
{
    if count == 0 {
        bases
    } else {
        let earlier = with_module_bases(bases, modules, (count - 1) as nat);
        if modules[count - 1].base != 0 {
            earlier.insert(modules[count - 1].base)
        } else {
            earlier
        }
    }
}

/// The bases of all images: those that are mapped as images, and the modules of the loader.
pub open spec fn image_bases(regions: Seq<MemoryRegion>, modules: Seq<ModuleInfo>) -> Set<u64> {
    with_module_bases(mapped_bases(regions, regions.len()), modules, modules.len())
}

/// A region of one of the images ends above the highest address.
pub open spec fn image_overflows(regions: Seq<MemoryRegion>, bases: Set<u64>) -> bool {
    exists|i: int|
        0 <= i < regions.len() && bases.contains((#[trigger] regions[i]).allocation_base)
            && regions[i].base + regions[i].size > u64::MAX
}

/// The groups are those of the images that have regions.
pub open spec fn groups_images(
    groups: Map<u64, ImageGroup>,
    regions: Seq<MemoryRegion>,
    bases: Set<u64>,
) -> bool {
    &&& forall|base: u64| #[trigger]
        groups.contains_key(base) <==> bases.contains(base) && own_regions(regions, base).len() > 0
    &&& forall|base: u64| #[trigger]
        groups.contains_key(base) ==> groups[base].regions@ == own_regions(regions, base)
            && groups[base].end == regions_end(own_regions(regions, base))
}

proof fn lemma_own_regions(regions: Seq<MemoryRegion>, base: u64)
    requires
        regions.len() > 0,
    ensures
        own_regions(regions, base) == if regions.last().allocation_base == base {
            own_regions(regions.drop_last(), base).push(regions.last())
        } else {
            own_regions(regions.drop_last(), base)
        },
{
    reveal(Seq::filter);
}

/// Collects the bases of all images.
fn collect_image_bases(regions: &[MemoryRegion], modules: &Vec<ModuleInfo>) -> (bases: BTreeSet<u64>)
    ensures
        bases@ == image_bases(regions@, modules@),
{
    let mut bases: BTreeSet<u64> = BTreeSet::new();
    let mut index: usize = 0;
    assert(bases@ =~= Set::empty());
    while index < regions.len()
        invariant
            index <= regions@.len(),
            bases@ == mapped_bases(regions@, index as nat),
        decreases regions@.len() - index,
    {
        let region: MemoryRegion = regions[index];
        if region.kind == MEM_IMAGE && region.allocation_base != 0 {
            bases.insert(region.allocation_base);
        }
        index = index + 1;
    }
    let mut place: usize = 0;
    while place < modules.len()
        invariant
            place <= modules@.len(),
            bases@ == with_module_bases(
                mapped_bases(regions@, regions@.len()),
                modules@,
                place as nat,
            ),
        decreases modules@.len() - place,
    {
        if modules[place].base != 0 {
            bases.insert(modules[place].base);
        }
        place = place + 1;
    }
    bases
}

/// Groups the regions of each image.
pub fn group_images(regions: &[MemoryRegion], modules: &Vec<ModuleInfo>) -> (groups: AppResult<
    BTreeMap<u64, ImageGroup>,
>)
    ensures
        ({
            let bases = image_bases(regions@, modules@);
            if bases.len() > MAX_IMAGES {
                error::fails(groups, "in-memory image count exceeds the 4096-image safety limit"@)
            } else if image_overflows(regions@, bases) {
                error::fails(groups, "image memory region address overflowed"@)
            } else {
                groups is Ok && groups_images(groups->Ok_0@, regions@, bases)
            }
        }),
{
    let bases: BTreeSet<u64> = collect_image_bases(regions, modules);
    if bases.len() > MAX_IMAGES {
        return Err(
            AppError::fixed("in-memory image count exceeds the 4096-image safety limit"),
        );
    }
    let mut groups: BTreeMap<u64, ImageGroup> = BTreeMap::new();
    let mut index: usize = 0;
    proof {
        reveal(Seq::filter);
        assert(regions@.take(0) =~= Seq::<MemoryRegion>::empty());
        assert(groups_images(groups@, regions@.take(0), bases@));
    }
    while index < regions.len()
        invariant
            index <= regions@.len(),
            bases@ == image_bases(regions@, modules@),
            bases@.len() <= MAX_IMAGES,
            groups_images(groups@, regions@.take(index as int), bases@),
            forall|i: int|
                0 <= i < index ==> !(bases@.contains((#[trigger] regions@[i]).allocation_base)
                    && regions@[i].base + regions@[i].size > u64::MAX),
        decreases regions@.len() - index,
    {
        let region: MemoryRegion = regions[index];
        let ghost before = groups@;
        let ghost fewer = regions@.take(index as int);
        let ghost more = regions@.take(index + 1);
        proof {
            assert(more.drop_last() =~= fewer);
            assert(more.last() == region);
        }
        if bases.contains(&region.allocation_base) {
            let end: u64 = match region.base.checked_add(region.size) {
                Some(end) => end,
                None => {
                    assert(image_overflows(regions@, bases@));
                    return Err(AppError::fixed("image memory region address overflowed"));
                },
            };
            let mut group: ImageGroup = match groups.remove(&region.allocation_base) {
                Some(group) => group,
                None => ImageGroup { regions: Vec::new(), end: 0 },
            };
            assert(before.contains_key(region.allocation_base) == (own_regions(
                fewer,
                region.allocation_base,
            ).len() > 0));
            assert(group.regions@ =~= own_regions(fewer, region.allocation_base));
            assert(group.end == regions_end(own_regions(fewer, region.allocation_base)));
            if end > group.end {
                group.end = end;
            }
            group.regions.push(region);
            proof {
                lemma_own_regions(more, region.allocation_base);
                let own = own_regions(more, region.allocation_base);
                assert(own.drop_last() =~= own_regions(fewer, region.allocation_base));
                assert(own.last() == region);
                assert(group.end == regions_end(own));
            }
            groups.insert(region.allocation_base, group);
        }
        proof {
            assert forall|base: u64| #[trigger]
                groups@.contains_key(base) == (bases@.contains(base) && own_regions(
                    more,
                    base,
                ).len() > 0) by {
                lemma_own_regions(more, base);
                assert(before.contains_key(base) == (bases@.contains(base) && own_regions(
                    fewer,
                    base,
                ).len() > 0));
            }
            assert forall|base: u64| #[trigger]
                groups@.contains_key(base) implies groups@[base].regions@ == own_regions(more, base)
                && groups@[base].end == regions_end(own_regions(more, base)) by {
                lemma_own_regions(more, base);
                if base != region.allocation_base || !bases@.contains(base) {
                    assert(before.contains_key(base));
                }
            }
        }
        index = index + 1;
    }
    assert(regions@.take(index as int) =~= regions@);
    Ok(groups)
}

/// The end of the allocation at `base`.
pub open spec fn allocation_end(regions: Seq<MemoryRegion>, base: u64) -> int {
    regions_end(own_regions(regions, base))
}

/// The ends are those of the given allocations.
spec fn are_ends(ends: Map<u64, u64>, regions: Seq<MemoryRegion>, allocations: Set<u64>) -> bool {
    &&& forall|base: u64| #[trigger]
        ends.contains_key(base) <==> allocations.contains(base) && own_regions(regions, base).len()
            > 0
    &&& forall|base: u64| #[trigger]
        ends.contains_key(base) ==> ends[base] == allocation_end(regions, base)
}

/// Finds the ends of the given allocations.
fn collect_ends(regions: &Vec<MemoryRegion>, allocations: &BTreeSet<u64>) -> (ends: AppResult<
    BTreeMap<u64, u64>,
>)
    ensures
        if image_overflows(regions@, allocations@) {
            error::fails(ends, "non-image allocation address overflowed"@)
        } else {
            ends is Ok && are_ends(ends->Ok_0@, regions@, allocations@)
        },
{
    let mut ends: BTreeMap<u64, u64> = BTreeMap::new();
    let mut index: usize = 0;
    proof {
        reveal(Seq::filter);
        assert(regions@.take(0) =~= Seq::<MemoryRegion>::empty());
        assert(are_ends(ends@, regions@.take(0), allocations@));
    }
    while index < regions.len()
        invariant
            index <= regions@.len(),
            are_ends(ends@, regions@.take(index as int), allocations@),
            forall|i: int|
                0 <= i < index ==> !(allocations@.contains((#[trigger] regions@[i]).allocation_base)
                    && regions@[i].base + regions@[i].size > u64::MAX),
        decreases regions@.len() - index,
    {
        let region: MemoryRegion = regions[index];
        let ghost before = ends@;
        let ghost fewer = regions@.take(index as int);
        let ghost more = regions@.take(index + 1);
        proof {
            assert(more.drop_last() =~= fewer);
            assert(more.last() == region);
        }
        if allocations.contains(&region.allocation_base) {
            let end: u64 = match region.base.checked_add(region.size) {
                Some(end) => end,
                None => {
                    assert(image_overflows(regions@, allocations@));
                    return Err(AppError::fixed("non-image allocation address overflowed"));
                },
            };
            let known: u64 = match ends.get(&region.allocation_base) {
                Some(known) => *known,
                None => 0,
            };
            assert(before.contains_key(region.allocation_base) == (own_regions(
                fewer,
                region.allocation_base,
            ).len() > 0));
            assert(known == allocation_end(fewer, region.allocation_base));
            let highest: u64 = if end > known {
                end
            } else {
                known
            };
            proof {
                lemma_own_regions(more, region.allocation_base);
                let own = own_regions(more, region.allocation_base);
                assert(own.drop_last() =~= own_regions(fewer, region.allocation_base));
                assert(own.last() == region);
                assert(highest == allocation_end(more, region.allocation_base));
            }
            ends.insert(region.allocation_base, highest);
        }
        proof {
            assert forall|base: u64| #[trigger]
                ends@.contains_key(base) == (allocations@.contains(base) && own_regions(
                    more,
                    base,
                ).len() > 0) by {
                lemma_own_regions(more, base);
                assert(before.contains_key(base) == (allocations@.contains(base) && own_regions(
                    fewer,
                    base,
                ).len() > 0));
            }
            assert forall|base: u64| #[trigger] ends@.contains_key(base) implies ends@[base]
                == allocation_end(more, base) by {
                lemma_own_regions(more, base);
                if base != region.allocation_base || !allocations@.contains(base) {
                    assert(before.contains_key(base));
                }
            }
        }
        index = index + 1;
    }
    assert(regions@.take(index as int) =~= regions@);
    Ok(ends)
}

/// A page that may be the start of an image: its address, and the bytes from there to the end of
/// its allocation.
#[derive(Clone, Copy, Debug, PartialEq, Eq, Structural)]
pub struct PageProbe {
    pub address: u64,
    pub available: u64,
}

/// A search for images that the loader does not know, page by page through executable
/// allocations that belong to no image.
pub struct HiddenScan {
    regions: Vec<MemoryRegion>,
    allocations: BTreeSet<u64>,
    ends: BTreeMap<u64, u64>,
    region: usize,
    offset: u64,
    scanned: usize,
}

/// The state of a search, seen mathematically.
pub struct ScanView {
    pub regions: Seq<MemoryRegion>,
    pub allocations: Set<u64>,
    pub region: int,
    pub offset: int,
    pub scanned: int,
}

/// The region is searched.
pub open spec fn is_scanned(region: MemoryRegion, allocations: Set<u64>) -> bool {
    allocations.contains(region.allocation_base) && region.state == MEM_COMMIT && readable(
        region.protect,
    )
}

impl ScanView {
    /// The next page to look at, as a region and an offset in it, from the given region on.
    pub open spec fn next_page(self, region: int, offset: int) -> Option<(int, int)>
        decreases self.regions.len() - region,
    {
        if region < 0 || region >= self.regions.len() {
            None
        } else if is_scanned(self.regions[region], self.allocations) && offset
            < self.regions[region].size {
            Some((region, offset))
        } else {
            self.next_page(region + 1, 0)
        }
    }

    /// The page at an offset of a region.
    pub open spec fn probe_at(self, region: int, offset: int) -> PageProbe {
        let address = self.regions[region].base + offset;
        PageProbe {
            address: address as u64,
            available: layout::distance(
                address,
                allocation_end(self.regions, self.regions[region].allocation_base),
            ) as u64,
        }
    }

    /// The pages of one region from an offset on.
    pub open spec fn region_pages(self, region: int, offset: int) -> Seq<(int, int)> {
        let size = self.regions[region].size as int;
        if is_scanned(self.regions[region], self.allocations) && offset < size {
            Seq::new(
                ((size - offset + PAGE_SIZE - 1) / PAGE_SIZE as int) as nat,
                |index: int| (region, offset + PAGE_SIZE * index),
            )
        } else {
            Seq::empty()
        }
    }

    /// The pages from an offset of a region on, up to the last region.
    pub open spec fn pages_from(self, region: int, offset: int) -> Seq<(int, int)>
        decreases self.regions.len() - region,
    {
        if region < 0 || region >= self.regions.len() {
            Seq::empty()
        } else {
            self.region_pages(region, offset) + self.pages_from(region + 1, 0)
        }
    }

    /// The pages that are still to come.
    pub open spec fn pages_to_come(self) -> Seq<(int, int)> {
        self.pages_from(self.region, self.offset)
    }

    /// There is a page of a region that is searched at the offset.
    pub open spec fn is_page(self, region: int, offset: int) -> bool {
        &&& 0 <= region < self.regions.len()
        &&& is_scanned(self.regions[region], self.allocations)
        &&& 0 <= offset < self.regions[region].size
        &&& offset % PAGE_SIZE as int == 0
    }
}

proof fn lemma_next_of_pages(scan: ScanView, region: int, offset: int)
    requires
        0 <= region,
        0 <= offset,
    ensures
        match scan.next_page(region, offset) {
            None => scan.pages_from(region, offset).len() == 0,
            Some((page, place)) => 0 <= page < scan.regions.len() && 0 <= place
                < scan.regions[page].size && scan.pages_from(region, offset) == seq![(page, place)]
                + scan.pages_from(page, capped64(place + PAGE_SIZE)),
        },
    decreases scan.regions.len() - region,
{
    if region < scan.regions.len() {
        let size = scan.regions[region].size as int;
        if is_scanned(scan.regions[region], scan.allocations) && offset < size {
            let after = capped64(offset + PAGE_SIZE);
            let pages = scan.region_pages(region, offset);
            assert(pages =~= seq![(region, offset)] + scan.region_pages(region, after));
            assert(scan.pages_from(region, offset) =~= seq![(region, offset)] + scan.pages_from(
                region,
                after,
            ));
        } else {
            lemma_next_of_pages(scan, region + 1, 0);
            assert(scan.pages_from(region, offset) =~= scan.pages_from(region + 1, 0));
        }
    }
}

/// What comes from a region on are pages of that region and of later ones, none of them twice.
proof fn lemma_only_pages_come(scan: ScanView, region: int)
    requires
        0 <= region,
    ensures
        forall|index: int|
            #![trigger scan.pages_from(region, 0)[index]]
            0 <= index < scan.pages_from(region, 0).len() ==> {
                let page = scan.pages_from(region, 0)[index];
                region <= page.0 && scan.is_page(page.0, page.1)
            },
        scan.pages_from(region, 0).no_duplicates(),
    decreases scan.regions.len() - region,
{
    if region < scan.regions.len() {
        lemma_only_pages_come(scan, region + 1);
        let all = scan.pages_from(region, 0);
        let own = scan.region_pages(region, 0);
        let later = scan.pages_from(region + 1, 0);
        assert(all == own + later);
        assert forall|index: int| #![trigger all[index]] 0 <= index < all.len() implies region
            <= all[index].0 && scan.is_page(all[index].0, all[index].1) && (index >= own.len()
            ==> all[index].0 > region) by {
            if index < own.len() {
                assert(all[index] == own[index]);
                assert((PAGE_SIZE * index) % PAGE_SIZE as int == 0);
            } else {
                assert(all[index] == later[index - own.len()]);
            }
        }
        assert forall|first: int, second: int|
            0 <= first < all.len() && 0 <= second < all.len() && first != second implies all[first]
            != all[second] by {
            if first < own.len() {
                assert(all[first] == own[first]);
            } else {
                assert(all[first] == later[first - own.len()]);
            }
            if second < own.len() {
                assert(all[second] == own[second]);
            } else {
                assert(all[second] == later[second - own.len()]);
            }
        }
    }
}

/// Each page of a region that is searched comes.
proof fn lemma_page_comes(scan: ScanView, region: int, page: int, offset: int)
    requires
        0 <= region <= page,
        scan.is_page(page, offset),
    ensures
        scan.pages_from(region, 0).contains((page, offset)),
    decreases scan.regions.len() - region,
{
    let all = scan.pages_from(region, 0);
    let own = scan.region_pages(region, 0);
    let later = scan.pages_from(region + 1, 0);
    assert(all == own + later);
    if region == page {
        let index = offset / PAGE_SIZE as int;
        assert(own[index] == (page, offset));
        assert(all[index] == (page, offset));
    } else {
        lemma_page_comes(scan, region + 1, page, offset);
        let index = choose|index: int| 0 <= index < later.len() && later[index] == (page, offset);
        assert(all[own.len() + index] == (page, offset));
    }
}

/// A search sees exactly the pages of the regions that are searched: at its start each of them is
/// still to come, none of them twice, and no other page.
pub proof fn searches_see_every_page_once(scan: ScanView)
    requires
        scan.region == 0,
        scan.offset == 0,
    ensures
        forall|region: int, offset: int|
            #![trigger scan.is_page(region, offset)]
            scan.is_page(region, offset) ==> scan.pages_to_come().contains((region, offset)),
        forall|index: int|
            #![trigger scan.pages_to_come()[index]]
            0 <= index < scan.pages_to_come().len() ==> scan.is_page(
                scan.pages_to_come()[index].0,
                scan.pages_to_come()[index].1,
            ),
        scan.pages_to_come().no_duplicates(),
{
    lemma_only_pages_come(scan, 0);
    assert forall|region: int, offset: int|
        #![trigger scan.is_page(region, offset)]
        scan.is_page(region, offset) implies scan.pages_to_come().contains((region, offset)) by {
        lemma_page_comes(scan, 0, region, offset);
    }
}

impl HiddenScan {
    #[verifier::type_invariant]
    spec fn knows_ends(self) -> bool {
        &&& are_ends(self.ends@, self.regions@, self.allocations@)
        &&& self.region <= self.regions@.len()
        &&& self.region == self.regions@.len() ==> self.offset == 0
    }

    /// The state of the search.
    pub closed spec fn view(&self) -> ScanView {
        ScanView {
            regions: self.regions@,
            allocations: self.allocations@,
            region: self.region as int,
            offset: self.offset as int,
            scanned: self.scanned as int,
        }
    }

    /// Starts a search through the given allocations.
    pub fn start(regions: Vec<MemoryRegion>, allocations: BTreeSet<u64>) -> (scan: AppResult<
        HiddenScan,
    >)
        ensures
            if image_overflows(regions@, allocations@) {
                error::fails(scan, "non-image allocation address overflowed"@)
            } else {
                scan is Ok && scan->Ok_0.view() == (ScanView {
                    regions: regions@,
                    allocations: allocations@,
                    region: 0,
                    offset: 0,
                    scanned: 0,
                })
            },
    {
        let ends: BTreeMap<u64, u64> = collect_ends(&regions, &allocations)?;
        Ok(HiddenScan { regions, allocations, ends, region: 0, offset: 0, scanned: 0 })
    }

    /// Goes on to the next page, if there is one. From a fresh search up to the first `None`, the
    /// pages are those that were to come at the start.
    pub fn next(&mut self) -> (probe: AppResult<Option<PageProbe>>)
        ensures
            ({
                let before = old(self).view();
                let after = final(self).view();
                match before.next_page(before.region, before.offset) {
                    None => {
                        &&& probe == Ok::<Option<PageProbe>, AppError>(None)
                        &&& after == (ScanView {
                            region: before.regions.len() as int,
                            offset: 0,
                            ..before
                        })
                        &&& before.pages_to_come().len() == 0
                        &&& after.pages_to_come().len() == 0
                    },
                    Some((region, offset)) => if before.scanned + 1 > MAX_NON_IMAGE_SCAN_PAGES {
                        &&& error::fails(
                            probe,
                            "non-image PE scan exceeds the 262144-page safety limit"@,
                        )
                        &&& after == (ScanView { region, offset, ..before })
                    } else if before.regions[region].base + offset > u64::MAX {
                        &&& error::fails(probe, "non-image PE scan address overflowed"@)
                        &&& after == (ScanView { region, offset, ..before })
                    } else {
                        &&& probe == Ok::<Option<PageProbe>, AppError>(
                            Some(before.probe_at(region, offset)),
                        )
                        &&& after == (ScanView {
                            region,
                            offset: capped64(offset + PAGE_SIZE),
                            scanned: before.scanned + 1,
                            ..before
                        })
                        &&& before.pages_to_come() == seq![(region, offset)]
                            + after.pages_to_come()
                    },
                }
            }),
    {
        proof {
            use_type_invariant(&*self);
            lemma_next_of_pages(self.view(), self.region as int, self.offset as int);
        }
        let ghost before = self.view();
        while self.region < self.regions.len()
            invariant
                self.regions@ == before.regions,
                self.allocations@ == before.allocations,
                before == old(self).view(),
                self.scanned == before.scanned,
                self.knows_ends(),
                before.next_page(before.region, before.offset) == before.next_page(
                    self.region as int,
                    self.offset as int,
                ),
            decreases self.regions@.len() - self.region,
        {
            let region: MemoryRegion = self.regions[self.region];
            let offset: u64 = self.offset;
            if self.allocations.contains(&region.allocation_base) && region.state == MEM_COMMIT
                && is_readable(region.protect) && offset < region.size {
                if self.scanned >= MAX_NON_IMAGE_SCAN_PAGES {
                    return Err(
                        AppError::fixed("non-image PE scan exceeds the 262144-page safety limit"),
                    );
                }
                let address: u64 = match region.base.checked_add(offset) {
                    Some(address) => address,
                    None => {
                        return Err(AppError::fixed("non-image PE scan address overflowed"));
                    },
                };
                let end: u64 = match self.ends.get(&region.allocation_base) {
                    Some(end) => *end,
                    None => 0,
                };
                proof {
                    lemma_has_own_region(self.regions@, self.region as int);
                    assert(self.ends@.contains_key(region.allocation_base));
                }
                self.offset = offset.saturating_add(PAGE_SIZE);
                self.scanned = self.scanned + 1;
                proof {
                    lemma_next_of_pages(before, before.region, before.offset);
                    lemma_pages_of_same(before, self.view(), self.region as int, self.offset as int);
                }
                return Ok(Some(PageProbe { address, available: end.saturating_sub(address) }));
            }
            self.offset = 0;
            self.region = self.region + 1;
        }
        Ok(None)
    }
}

/// The pages do not depend on how far a search has come.
proof fn lemma_pages_of_same(one: ScanView, other: ScanView, region: int, offset: int)
    requires
        one.regions == other.regions,
        one.allocations == other.allocations,
    ensures
        one.pages_from(region, offset) == other.pages_from(region, offset),
    decreases one.regions.len() - region,
{
    if 0 <= region < one.regions.len() {
        lemma_pages_of_same(one, other, region + 1, 0);
        assert(one.region_pages(region, offset) =~= other.region_pages(region, offset));
    }
}

proof fn lemma_has_own_region(regions: Seq<MemoryRegion>, index: int)
    requires
        0 <= index < regions.len(),
    ensures
        own_regions(regions, regions[index].allocation_base).len() > 0,
    decreases regions.len(),
{
    let base = regions[index].allocation_base;
    lemma_own_regions(regions, base);
    if index < regions.len() - 1 {
        lemma_has_own_region(regions.drop_last(), index);
    }
}

/// The first bytes of every image: `MZ`.
pub open spec fn starts_image(magic: Seq<u8>) -> bool {
    magic == seq![0x4Du8, 0x5A]
}

/// The bytes to read for the headers of a page, if its first two bytes start an image.
pub open spec fn wanted_header(probe: PageProbe, magic: Option<Seq<u8>>) -> Option<u64> {
    if magic is Some && starts_image(magic->0) {
        Some(layout::least(probe.available as int, MAX_HEADER_READ as int) as u64)
    } else {
        None
    }
}

/// Decides whether the headers of a page are read, from its first two bytes, if those could be
/// read.
pub fn header_request(probe: &PageProbe, magic: Option<[u8; 2]>) -> (length: Option<u64>)
    ensures
        length == wanted_header(
            *probe,
            match magic {
                Some(bytes) => Some(bytes@),
                None => None,
            },
        ),
{
    match magic {
        None => None,
        Some(bytes) => {
            assert(starts_image(bytes@) == (bytes@[0] == 0x4D && bytes@[1] == 0x5A)) by {
                assert(bytes@[0] == 0x4D && bytes@[1] == 0x5A ==> bytes@ =~= seq![0x4Du8, 0x5A]);
            }
            if bytes[0] != 0x4D || bytes[1] != 0x5A {
                return None;
            }
            if probe.available < MAX_HEADER_READ {
                Some(probe.available)
            } else {
                Some(MAX_HEADER_READ)
            }
        },
    }
}

/// What is said of an allocation with a hidden image that is too large.
pub open spec fn hidden_refusal(address: u64) -> Seq<char> {
    "hidden image allocation at 0x"@ + text::wide_hex(address as nat, 16)
        + " exceeds the 1 GiB image safety limit"@
}

/// The page starts an image that fits its allocation.
pub open spec fn holds_image(probe: PageProbe, header: Seq<u8>) -> bool {
    match parse::declared_image(header) {
        Ok(model) => model.image_size <= probe.available,
        Err(_) => false,
    }
}

/// The hidden images after a page, whose headers were read, is looked at; or why the search
/// stops.
pub open spec fn with_hidden(found: Seq<(u64, u64)>, probe: PageProbe, header: Seq<u8>) -> (
    Seq<(u64, u64)>,
    Option<Seq<char>>,
) {
    if !holds_image(probe, header) {
        (found, None)
    } else if probe.available > MAX_IMAGE_BYTES {
        (found, Some(hidden_refusal(probe.address)))
    } else if found.len() + 1 > MAX_IMAGES {
        (
            found.push((probe.address, probe.available)),
            Some("hidden image count exceeds the 4096-image safety limit"@),
        )
    } else {
        (found.push((probe.address, probe.available)), None)
    }
}

/// Looks at the headers of a page, and adds a hidden image that starts there.
pub fn record_hidden(found: &mut Vec<(u64, u64)>, probe: &PageProbe, header: &[u8]) -> (outcome:
    AppResult<()>)
    ensures
        final(found)@ == with_hidden(old(found)@, *probe, header@).0,
        match with_hidden(old(found)@, *probe, header@).1 {
            Some(message) => error::fails(outcome, message),
            None => outcome is Ok,
        },
{
    let image_size: usize = match memory_image_size(header) {
        Ok(size) => size,
        Err(_) => {
            return Ok(());
        },
    };
    if image_size as u64 > probe.available {
        return Ok(());
    }
    if probe.available > MAX_IMAGE_BYTES {
        let mut message: String = with_wide_hex(
            "hidden image allocation at 0x",
            probe.address,
            16,
        );
        message.append(" exceeds the 1 GiB image safety limit");
        return Err(AppError::new(message));
    }
    found.push((probe.address, probe.available));
    if found.len() > MAX_IMAGES {
        return Err(AppError::fixed("hidden image count exceeds the 4096-image safety limit"));
    }
    Ok(())
}

/// What can be read of the target: the bytes at an address, if all of them can be read.
pub type Readings = spec_fn(u64, int) -> Option<Seq<u8>>;

impl ScanView {
    /// The headers that are read of a page: none where it does not start an image, or where they
    /// cannot be read.
    pub open spec fn headers_of(self, readings: Readings, page: (int, int)) -> Option<Seq<u8>> {
        let probe = self.probe_at(page.0, page.1);
        match wanted_header(probe, readings(probe.address, 2)) {
            Some(length) => readings(probe.address, length as int),
            None => None,
        }
    }

    /// A hidden image starts at the page: its first two bytes are `MZ`, and its headers can be
    /// read and declare a size that fits its allocation.
    pub open spec fn starts_hidden(self, readings: Readings, page: (int, int)) -> bool {
        match self.headers_of(readings, page) {
            Some(header) => holds_image(self.probe_at(page.0, page.1), header),
            None => false,
        }
    }

    /// The place of an image that starts at a page.
    pub open spec fn place_of(self, page: (int, int)) -> (u64, u64) {
        let probe = self.probe_at(page.0, page.1);
        (probe.address, probe.available)
    }

    /// What is found in the first `count` pages, and why the search stopped there, if it did.
    pub open spec fn found_in(self, readings: Readings, pages: Seq<(int, int)>, count: nat) -> (
        Seq<(u64, u64)>,
        Option<Seq<char>>,
    )
        decreases count,
    {
        if count == 0 {
            (Seq::empty(), None)
        } else {
            let earlier = self.found_in(readings, pages, (count - 1) as nat);
            let page = pages[count - 1];
            match self.headers_of(readings, page) {
                Some(header) if earlier.1 is None => with_hidden(
                    earlier.0,
                    self.probe_at(page.0, page.1),
                    header,
                ),
                _ => earlier,
            }
        }
    }

    /// The pages among the first `count` at which hidden images start.
    pub open spec fn hidden_pages(self, readings: Readings, pages: Seq<(int, int)>, count: nat) -> Seq<
        (int, int),
    >
        decreases count,
    {
        if count == 0 {
            Seq::empty()
        } else {
            let earlier = self.hidden_pages(readings, pages, (count - 1) as nat);
            if self.starts_hidden(readings, pages[count - 1]) {
                earlier.push(pages[count - 1])
            } else {
                earlier
            }
        }
    }

    /// The hidden images that start at the pages are neither too many nor too large.
    pub open spec fn within_limits(self, hidden: Seq<(int, int)>) -> bool {
        &&& hidden.len() <= MAX_IMAGES
        &&& forall|index: int|
            #![trigger hidden[index]]
            0 <= index < hidden.len() ==> self.place_of(hidden[index]).1 <= MAX_IMAGE_BYTES
    }
}

proof fn lemma_hidden_pages(scan: ScanView, readings: Readings, pages: Seq<(int, int)>, count: nat)
    requires
        count <= pages.len(),
    ensures
        forall|page: (int, int)|
            #![trigger scan.hidden_pages(readings, pages, count).contains(page)]
            scan.hidden_pages(readings, pages, count).contains(page) <==> pages.take(
                count as int,
            ).contains(page) && scan.starts_hidden(readings, page),
    decreases count,
{
    let hidden = scan.hidden_pages(readings, pages, count);
    if count == 0 {
        assert(pages.take(0) =~= Seq::<(int, int)>::empty());
    } else {
        lemma_hidden_pages(scan, readings, pages, (count - 1) as nat);
        let earlier = scan.hidden_pages(readings, pages, (count - 1) as nat);
        let last = pages[count - 1];
        let some = pages.take(count - 1);
        let more = pages.take(count as int);
        assert(more =~= some.push(last));
        assert forall|page: (int, int)|
            #![trigger hidden.contains(page)]
            hidden.contains(page) <==> more.contains(page) && scan.starts_hidden(
                readings,
                page,
            ) by {
            lemma_push_contains(some, last, page);
            lemma_push_contains(earlier, last, page);
            assert(earlier.contains(page) <==> some.contains(page) && scan.starts_hidden(
                readings,
                page,
            ));
        }
    }
}

proof fn lemma_push_contains(list: Seq<(int, int)>, item: (int, int), other: (int, int))
    ensures
        list.push(item).contains(other) <==> list.contains(other) || other == item,
{
    if list.contains(other) {
        let place = choose|place: int| 0 <= place < list.len() && list[place] == other;
        assert(list.push(item)[place] == other);
    }
    assert(list.push(item)[list.len() as int] == item);
    if list.push(item).contains(other) && other != item {
        let place = choose|place: int|
            0 <= place < list.push(item).len() && list.push(item)[place] == other;
        assert(list[place] == other);
    }
}

/// A search that keeps to its limits finds the images that start at its pages, in the order of the
/// pages, and nothing else; and it stops exactly if a hidden image is too large, or if there are
/// too many.
pub proof fn searches_find_what_the_pages_hold(
    scan: ScanView,
    readings: Readings,
    pages: Seq<(int, int)>,
    count: nat,
)
    requires
        count <= pages.len(),
    ensures
        ({
            let (found, stop) = scan.found_in(readings, pages, count);
            let hidden = scan.hidden_pages(readings, pages, count);
            &&& stop is None <==> scan.within_limits(hidden)
            &&& stop is None ==> found == hidden.map_values(
                |page: (int, int)| scan.place_of(page),
            )
        }),
    decreases count,
{
    let place = |page: (int, int)| scan.place_of(page);
    let hidden = scan.hidden_pages(readings, pages, count);
    if count == 0 {
        assert(hidden.map_values(place) =~= Seq::empty());
    } else {
        searches_find_what_the_pages_hold(scan, readings, pages, (count - 1) as nat);
        let earlier = scan.hidden_pages(readings, pages, (count - 1) as nat);
        let page = pages[count - 1];
        if scan.starts_hidden(readings, page) {
            assert(hidden.map_values(place) =~= earlier.map_values(place).push(place(page)));
            assert(hidden.last() == page);
            if scan.within_limits(hidden) {
                assert forall|index: int|
                    #![trigger earlier[index]]
                    0 <= index < earlier.len() implies scan.place_of(earlier[index]).1
                    <= MAX_IMAGE_BYTES by {
                    assert(hidden[index] == earlier[index]);
                }
                assert(hidden[hidden.len() - 1] == page);
            }
            if scan.within_limits(earlier) && earlier.len() < MAX_IMAGES && scan.place_of(page).1
                <= MAX_IMAGE_BYTES {
                assert forall|index: int|
                    #![trigger hidden[index]]
                    0 <= index < hidden.len() implies scan.place_of(hidden[index]).1
                    <= MAX_IMAGE_BYTES by {
                    if index < earlier.len() {
                        assert(hidden[index] == earlier[index]);
                    }
                }
            }
        }
    }
}

/// A whole search finds every hidden image: one for each page of the regions that are searched at
/// which an image starts, and no other.
pub proof fn searches_find_every_hidden_image(scan: ScanView, readings: Readings)
    requires
        scan.region == 0,
        scan.offset == 0,
        scan.found_in(readings, scan.pages_to_come(), scan.pages_to_come().len()).1 is None,
    ensures
        ({
            let pages = scan.pages_to_come();
            let found = scan.found_in(readings, pages, pages.len()).0;
            let hidden = scan.hidden_pages(readings, pages, pages.len());
            &&& found == hidden.map_values(|page: (int, int)| scan.place_of(page))
            &&& forall|page: (int, int)|
                #![trigger hidden.contains(page)]
                hidden.contains(page) <==> scan.is_page(page.0, page.1) && scan.starts_hidden(
                    readings,
                    page,
                )
        }),
{
    let pages = scan.pages_to_come();
    let hidden = scan.hidden_pages(readings, pages, pages.len());
    searches_see_every_page_once(scan);
    searches_find_what_the_pages_hold(scan, readings, pages, pages.len());
    lemma_hidden_pages(scan, readings, pages, pages.len());
    assert(pages.take(pages.len() as int) =~= pages);
    assert forall|page: (int, int)|
        #![trigger hidden.contains(page)]
        hidden.contains(page) <==> scan.is_page(page.0, page.1) && scan.starts_hidden(
            readings,
            page,
        ) by {
        assert(page == (page.0, page.1));
        assert(scan.is_page(page.0, page.1) ==> pages.contains((page.0, page.1)));
        if pages.contains(page) {
            let index = choose|index: int| 0 <= index < pages.len() && pages[index] == page;
            assert(scan.is_page(pages[index].0, pages[index].1));
        }
    }
}

/// A part of an image that is to be read.
#[derive(Clone, Copy, Debug, PartialEq, Eq, Structural)]
pub struct ReadPart {
    pub offset: usize,
    pub length: usize,
}

/// How an image is read: what is known of its regions, the parts that can be read, and the pages
/// that cannot.
#[derive(Debug)]
pub struct ImageReads {
    pub evidence: Vec<RegionEvidence>,
    pub parts: Vec<ReadPart>,
    pub unreadable_pages: usize,
}

/// How an image is read, seen mathematically.
pub struct ReadsView {
    pub evidence: Seq<RegionEvidence>,
    pub parts: Seq<ReadPart>,
    pub unreadable_pages: int,
}

impl View for ImageReads {
    type V = ReadsView;

    open spec fn view(&self) -> ReadsView {
        ReadsView {
            evidence: self.evidence@,
            parts: self.parts@,
            unreadable_pages: self.unreadable_pages as int,
        }
    }
}

/// The part of an image of `size` bytes at `base` that a region holds, if it holds any.
pub open spec fn shared_part(region: MemoryRegion, base: u64, size: u64) -> Option<ReadPart> {
    let from = if region.base > base {
        region.base as int
    } else {
        base as int
    };
    let to = layout::least(region.base + region.size, base + size);
    if region.state != MEM_COMMIT || from >= to {
        None
    } else {
        Some(ReadPart { offset: (from - base) as usize, length: (to - from) as usize })
    }
}

/// What is known of a part.
pub open spec fn part_evidence(region: MemoryRegion, part: ReadPart) -> RegionEvidence {
    RegionEvidence {
        offset: part.offset,
        size: part.length,
        readable: readable(region.protect),
        writable: writable(region.protect),
        executable: executable(region.protect),
    }
}

/// How an image is read, as far as the first `count` regions say.
pub open spec fn reads_of(
    base: u64,
    size: u64,
    regions: Seq<MemoryRegion>,
    count: nat,
) -> ReadsView
    decreases count,
{
    if count == 0 {
        ReadsView { evidence: Seq::empty(), parts: Seq::empty(), unreadable_pages: 0 }
    } else {
        let earlier = reads_of(base, size, regions, (count - 1) as nat);
        let region = regions[count - 1];
        match shared_part(region, base, size) {
            None => earlier,
            Some(part) => {
                let evidence = earlier.evidence.push(part_evidence(region, part));
                if readable(region.protect) {
                    ReadsView { evidence, parts: earlier.parts.push(part), ..earlier }
                } else {
                    ReadsView {
                        evidence,
                        unreadable_pages: layout::least(
                            earlier.unreadable_pages + pages_in(part.length as u64),
                            usize::MAX as int,
                        ),
                        ..earlier
                    }
                }
            },
        }
    }
}

/// A committed region ends above the highest address.
pub open spec fn committed_overflows(regions: Seq<MemoryRegion>) -> bool {
    exists|i: int|
        0 <= i < regions.len() && (#[trigger] regions[i]).state == MEM_COMMIT && regions[i].base
            + regions[i].size > u64::MAX
}

/// Plans how an image is read.
pub fn plan_image_reads(base: u64, size: u64, regions: &[MemoryRegion]) -> (reads: AppResult<
    ImageReads,
>)
    requires
        size <= MAX_IMAGE_BYTES,
    ensures
        if base + size > u64::MAX {
            error::fails(reads, "image address overflowed"@)
        } else if committed_overflows(regions@) {
            error::fails(reads, "image region address overflowed"@)
        } else {
            reads is Ok && reads->Ok_0@ == reads_of(base, size, regions@, regions@.len())
        },
{
    let image_end: u64 = match base.checked_add(size) {
        Some(end) => end,
        None => {
            return Err(AppError::fixed("image address overflowed"));
        },
    };
    let mut reads: ImageReads = ImageReads {
        evidence: Vec::with_capacity(regions.len()),
        parts: Vec::new(),
        unreadable_pages: 0,
    };
    let mut index: usize = 0;
    while index < regions.len()
        invariant
            index <= regions@.len(),
            image_end == base + size,
            size <= MAX_IMAGE_BYTES,
            reads@ == reads_of(base, size, regions@, index as nat),
            forall|i: int|
                0 <= i < index ==> !((#[trigger] regions@[i]).state == MEM_COMMIT
                    && regions@[i].base + regions@[i].size > u64::MAX),
        decreases regions@.len() - index,
    {
        let region: MemoryRegion = regions[index];
        if region.state == MEM_COMMIT {
            let region_end: u64 = match region.base.checked_add(region.size) {
                Some(end) => end,
                None => {
                    assert(committed_overflows(regions@));
                    return Err(AppError::fixed("image region address overflowed"));
                },
            };
            let read_base: u64 = if region.base > base {
                region.base
            } else {
                base
            };
            let read_end: u64 = if region_end < image_end {
                region_end
            } else {
                image_end
            };
            if read_base < read_end {
                let part: ReadPart = ReadPart {
                    offset: (read_base - base) as usize,
                    length: (read_end - read_base) as usize,
                };
                let can_read: bool = is_readable(region.protect);
                reads.evidence.push(
                    RegionEvidence {
                        offset: part.offset,
                        size: part.length,
                        readable: can_read,
                        writable: is_writable(region.protect),
                        executable: is_executable(region.protect),
                    },
                );
                if can_read {
                    reads.parts.push(part);
                } else {
                    reads.unreadable_pages =
                    reads.unreadable_pages.saturating_add(page_count(part.length as u64) as usize);
                }
            }
        }
        index = index + 1;
    }
    Ok(reads)
}

/// Every part lies in the image.
pub proof fn parts_lie_in_image(
    base: u64,
    size: u64,
    regions: Seq<MemoryRegion>,
    count: nat,
    index: int,
)
    requires
        size <= MAX_IMAGE_BYTES,
        0 <= index < reads_of(base, size, regions, count).parts.len(),
    ensures
        ({
            let part = reads_of(base, size, regions, count).parts[index];
            part.length > 0 && part.offset + part.length <= size
        }),
    decreases count,
{
    if count > 0 {
        let earlier = reads_of(base, size, regions, (count - 1) as nat);
        if index < earlier.parts.len() {
            parts_lie_in_image(base, size, regions, (count - 1) as nat, index);
        }
    }
}

/// Reading one part of an image: in large chunks, and page by page where a chunk cannot be read.
/// Pages that cannot be read are filled with zeros.
pub struct RegionRead {
    length: usize,
    at: usize,
    paged_end: usize,
    unreadable: usize,
}

/// The state of a reading, seen mathematically.
pub struct ReadState {
    pub length: int,
    pub at: int,
    pub paged_end: int,
    pub unreadable: int,
}

impl ReadState {
    /// The next bytes are read as a page.
    pub open spec fn by_page(self) -> bool {
        self.at < self.paged_end
    }

    /// The bytes that are read next.
    pub open spec fn next_length(self) -> int {
        if self.by_page() {
            layout::least(PAGE_SIZE as int, self.paged_end - self.at)
        } else {
            layout::least(READ_CHUNK as int, self.length - self.at)
        }
    }

    /// The state after the next bytes could be read, or could not: a chunk that cannot be read is
    /// tried again page by page, and a page that cannot be read is counted.
    pub open spec fn stepped(self, done: bool) -> ReadState {
        if done {
            ReadState { at: self.at + self.next_length(), ..self }
        } else if self.by_page() {
            ReadState {
                at: self.at + self.next_length(),
                unreadable: self.unreadable + 1,
                ..self
            }
        } else {
            ReadState { paged_end: self.at + self.next_length(), ..self }
        }
    }

    /// The places that a reading goes through are inside of the part.
    pub open spec fn inside(self) -> bool {
        0 <= self.at <= self.length && self.paged_end <= self.length
    }

    /// What is left to be done.
    pub open spec fn remaining(self) -> int {
        2 * (self.length - self.at) + if self.by_page() {
            0int
        } else {
            1
        }
    }
}

/// Every reading comes to its end, whatever can be read: each step stays inside of the part and
/// leaves less to be done. Only a page that cannot be read is counted, and only once.
pub proof fn readings_come_to_an_end(state: ReadState, done: bool)
    requires
        state.inside(),
        state.at < state.length,
    ensures
        state.stepped(done).inside(),
        state.stepped(done).remaining() < state.remaining(),
        0 <= state.stepped(done).remaining(),
        state.stepped(done).unreadable == state.unreadable + if !done && state.by_page() {
            1int
        } else {
            0
        },
{
}

impl RegionRead {
    #[verifier::type_invariant]
    spec fn inside(self) -> bool {
        &&& self.at <= self.length
        &&& self.paged_end <= self.length
        &&& self.unreadable <= self.at
    }

    /// The state of the reading.
    pub closed spec fn view(&self) -> ReadState {
        ReadState {
            length: self.length as int,
            at: self.at as int,
            paged_end: self.paged_end as int,
            unreadable: self.unreadable as int,
        }
    }

    /// Starts to read a part of this length.
    pub fn start(length: usize) -> (read: RegionRead)
        ensures
            read.view() == (ReadState {
                length: length as int,
                at: 0,
                paged_end: 0,
                unreadable: 0,
            }),
    {
        RegionRead { length, at: 0, paged_end: 0, unreadable: 0 }
    }

    /// The bytes that are read next, as an offset and a length, if there are any left.
    pub fn next(&self) -> (range: Option<ReadPart>)
        ensures
            match range {
                None => self.view().at == self.view().length,
                Some(part) => self.view().at < self.view().length && part.offset == self.view().at
                    && part.length == self.view().next_length() && 0 < part.length && part.offset
                    + part.length <= self.view().length,
            },
    {
        proof {
            use_type_invariant(self);
        }
        if self.at >= self.length {
            return None;
        }
        let length: usize = if self.at < self.paged_end {
            let rest: usize = self.paged_end - self.at;
            if rest < PAGE_SIZE as usize {
                rest
            } else {
                PAGE_SIZE as usize
            }
        } else {
            let rest: usize = self.length - self.at;
            if rest < READ_CHUNK {
                rest
            } else {
                READ_CHUNK
            }
        };
        Some(ReadPart { offset: self.at, length })
    }

    /// Takes note of whether the bytes that were next could be read. True means that they are to
    /// be filled with zeros.
    pub fn finish_step(&mut self, done: bool) -> (clear: bool)
        requires
            old(self).view().at < old(self).view().length,
        ensures
            clear == (!done && old(self).view().by_page()),
            final(self).view() == old(self).view().stepped(done),
    {
        proof {
            use_type_invariant(&*self);
        }
        let by_page: bool = self.at < self.paged_end;
        let length: usize = match self.next() {
            Some(part) => part.length,
            None => 0,
        };
        if !done && !by_page {
            self.paged_end = self.at + length;
            return false;
        }
        self.at = self.at + length;
        if !done {
            self.unreadable = self.unreadable + 1;
            return true;
        }
        false
    }

    /// The pages that could not be read.
    pub fn unreadable_pages(&self) -> (pages: usize)
        ensures
            pages == self.view().unreadable,
    {
        self.unreadable
    }
}

/// How the memory of the target was got at.
#[derive(Clone, Copy, Debug, PartialEq, Eq, Structural)]
pub enum AcquisitionMode {
    PssClone,
    LiveRead,
}

impl AcquisitionMode {
    /// The name that is shown for the mode.
    pub open spec fn name(self) -> Seq<char> {
        match self {
            AcquisitionMode::PssClone => "PSS snapshot"@,
            AcquisitionMode::LiveRead => "live process read"@,
        }
    }

    /// The name that is shown for the mode.
    pub fn text(&self) -> (name: &'static str)
        ensures
            name@ == self.name(),
    {
        match self {
            AcquisitionMode::PssClone => "PSS snapshot",
            AcquisitionMode::LiveRead => "live process read",
        }
    }
}

/// An image that was captured.
#[derive(Debug)]
pub struct CapturedImage {
    pub base: u64,
    pub bytes: Vec<u8>,
    pub regions: Vec<RegionEvidence>,
    pub unreadable_pages: usize,
    pub name: Option<String>,
    pub path: Option<String>,
    pub is_main: bool,
    pub hidden: bool,
}

/// A captured image, seen mathematically.
pub struct CapturedView {
    pub base: u64,
    pub bytes: Seq<u8>,
    pub regions: Seq<RegionEvidence>,
    pub unreadable_pages: int,
    pub name: Option<Seq<char>>,
    pub path: Option<Seq<char>>,
    pub is_main: bool,
    pub hidden: bool,
}

impl View for CapturedImage {
    type V = CapturedView;

    open spec fn view(&self) -> CapturedView {
        CapturedView {
            base: self.base,
            bytes: self.bytes@,
            regions: self.regions@,
            unreadable_pages: self.unreadable_pages as int,
            name: text::seen(self.name),
            path: text::seen(self.path),
            is_main: self.is_main,
            hidden: self.hidden,
        }
    }
}

/// The first module at `base`.
pub open spec fn module_at(modules: Seq<ModuleView>, base: u64) -> Option<ModuleView>
    decreases modules.len(),
{
    if modules.len() == 0 {
        None
    } else if modules[0].base == base {
        Some(modules[0])
    } else {
        module_at(modules.skip(1), base)
    }
}

/// Finds the first module at `base`.
fn find_module<'a>(modules: &'a Vec<ModuleInfo>, base: u64) -> (module: Option<&'a ModuleInfo>)
    ensures
        match (module_at(process::module_views(modules@), base), module) {
            (Some(expected), Some(found)) => found@ == expected,
            (None, None) => true,
            _ => false,
        },
{
    let ghost views = process::module_views(modules@);
    let mut index: usize = 0;
    assert(views.skip(0) =~= views);
    while index < modules.len()
        invariant
            index <= modules@.len(),
            views == process::module_views(modules@),
            module_at(views, base) == module_at(views.skip(index as int), base),
        decreases modules@.len() - index,
    {
        proof {
            assert(views.skip(index as int)[0] == modules@[index as int]@);
            assert(views.skip(index as int).skip(1) =~= views.skip(index + 1));
        }
        if modules[index].base == base {
            return Some(&modules[index]);
        }
        index = index + 1;
    }
    None
}

/// Puts together what was captured of an image. The module at its base gives it a name and a
/// path.
pub fn captured_image(
    target: &TargetProcess,
    base: u64,
    bytes: Vec<u8>,
    regions: Vec<RegionEvidence>,
    unreadable_pages: usize,
    hidden: bool,
) -> (image: CapturedImage)
    ensures
        ({
            let module = module_at(process::module_views(target.modules@), base);
            image@ == (CapturedView {
                base,
                bytes: bytes@,
                regions: regions@,
                unreadable_pages: unreadable_pages as int,
                name: match module {
                    Some(module) => Some(module.name),
                    None => None,
                },
                path: match module {
                    Some(module) => Some(module.path),
                    None => None,
                },
                is_main: base == target.main_module.base,
                hidden,
            })
        }),
{
    let module: Option<&ModuleInfo> = find_module(&target.modules, base);
    let name: Option<String> = match module {
        Some(module) => Some(module.name.clone()),
        None => None,
    };
    let path: Option<String> = match module {
        Some(module) => Some(module.path.clone()),
        None => None,
    };
    CapturedImage {
        base,
        bytes,
        regions,
        unreadable_pages,
        name,
        path,
        is_main: base == target.main_module.base,
        hidden,
    }
}

/// The size of an image that is not supported.
pub open spec fn size_refusal(base: u64, size: int) -> Seq<char> {
    "image at 0x"@ + text::wide_hex(base as nat, 16) + " has unsupported size "@ + text::decimal(
        size as nat,
    ) + " bytes"@
}

/// Why an image from `base` up to `end` is not captured, if it is not.
pub open spec fn image_failure(base: u64, end: u64, total: u64) -> Option<Seq<char>> {
    let size = end - base;
    if size < 0 {
        Some("image allocation has an invalid address range"@)
    } else if size == 0 || size > MAX_IMAGE_BYTES {
        Some(size_refusal(base, size))
    } else {
        with_image_bytes(total, size as u64).1
    }
}

/// Checks the size of an image, and counts its bytes.
pub fn measure_image(total: &mut u64, base: u64, end: u64) -> (size: AppResult<u64>)
    ensures
        match image_failure(base, end, *old(total)) {
            Some(message) => error::fails(size, message),
            None => size == Ok::<u64, AppError>((end - base) as u64),
        },
        *final(total) == if 0 < end - base <= MAX_IMAGE_BYTES {
            with_image_bytes(*old(total), (end - base) as u64).0
        } else {
            *old(total)
        },
{
    let size: u64 = match end.checked_sub(base) {
        Some(size) => size,
        None => {
            return Err(AppError::fixed("image allocation has an invalid address range"));
        },
    };
    if size == 0 || size > MAX_IMAGE_BYTES {
        let mut message: String = with_wide_hex("image at 0x", base, 16);
        message.append(" has unsupported size ");
        text::push_decimal(&mut message, size);
        message.append(" bytes");
        return Err(AppError::new(message));
    }
    add_image_size(total, size)?;
    Ok(size)
}

/// One of the images is the main one.
pub open spec fn has_main(images: Seq<CapturedImage>) -> bool {
    exists|i: int| 0 <= i < images.len() && (#[trigger] images[i]).is_main
}

/// Checks that the main image is there.
pub fn require_main(images: &Vec<CapturedImage>) -> (outcome: AppResult<()>)
    ensures
        has_main(images@) ==> outcome is Ok,
        !has_main(images@) ==> error::fails(
            outcome,
            "the main image allocation was not present in the captured address space"@,
        ),
{
    let mut index: usize = 0;
    while index < images.len()
        invariant
            index <= images@.len(),
            forall|i: int| 0 <= i < index ==> !(#[trigger] images@[i]).is_main,
        decreases images@.len() - index,
    {
        if images[index].is_main {
            return Ok(());
        }
        index = index + 1;
    }
    Err(
        AppError::fixed("the main image allocation was not present in the captured address space"),
    )
}

/// What was captured of the target.
#[derive(Debug)]
pub struct Capture {
    pub mode: AcquisitionMode,
    pub setup_milliseconds: u64,
    pub fallback_reason: Option<String>,
    pub images: Vec<CapturedImage>,
    pub executable_non_image_allocations: usize,
}

/// The bytes that stand for a region in a signature.
pub open spec fn region_bytes(region: MemoryRegion) -> Seq<u8> {
    bytes::bytes64(region.base) + bytes::bytes64(region.allocation_base) + bytes::bytes64(
        region.size,
    ) + bytes::bytes32(region.state) + bytes::bytes32(region.protect) + bytes::bytes32(
        region.kind,
    )
}

/// What the first `count` regions put into a signature.
pub open spec fn region_parts(regions: Seq<MemoryRegion>, count: nat) -> Seq<Seq<u8>>
    decreases count,
{
    if count == 0 {
        Seq::empty()
    } else {
        region_parts(regions, (count - 1) as nat).push(region_bytes(regions[count - 1]))
    }
}

/// What the first `count` pages put into a signature, behind `parts`: the length and the bytes of
/// a page, or a mark for one that could not be read.
pub open spec fn with_page_parts(
    parts: Seq<Seq<u8>>,
    pages: Seq<Option<Vec<u8>>>,
    count: nat,
) -> Seq<Seq<u8>>
    decreases count,
{
    if count == 0 {
        parts
    } else {
        let earlier = with_page_parts(parts, pages, (count - 1) as nat);
        match pages[count - 1] {
            Some(page) => earlier.push(bytes::bytes64(page@.len() as u64)).push(page@),
            None => earlier.push(bytes::bytes64(u64::MAX)),
        }
    }
}

/// The signature of what must settle, with the pages that were sampled of it.
pub open spec fn signature_of(regions: Seq<MemoryRegion>, pages: Seq<Option<Vec<u8>>>) -> u64 {
    let selected = stability_regions(regions);
    DefaultHasher::spec_finish(
        with_page_parts(region_parts(selected, selected.len()), pages, pages.len()),
    )
}

fn push_bytes32(bytes: &mut Vec<u8>, value: u32)
    ensures
        final(bytes)@ == old(bytes)@ + bytes::bytes32(value),
{
    bytes.push((value % 0x100) as u8);
    bytes.push((value / 0x100 % 0x100) as u8);
    bytes.push((value / 0x1_0000 % 0x100) as u8);
    bytes.push((value / 0x100_0000) as u8);
    assert(bytes@ =~= old(bytes)@ + bytes::bytes32(value));
}

fn push_bytes64(bytes: &mut Vec<u8>, value: u64)
    ensures
        final(bytes)@ == old(bytes)@ + bytes::bytes64(value),
{
    push_bytes32(bytes, (value % 0x1_0000_0000) as u32);
    push_bytes32(bytes, (value / 0x1_0000_0000) as u32);
    assert(bytes@ =~= old(bytes)@ + bytes::bytes64(value));
}

/// The signature of what must settle, with the pages that were sampled of it, if they could be
/// read.
pub fn memory_signature(regions: &[MemoryRegion], pages: &Vec<Option<Vec<u8>>>) -> (signature: u64)
    ensures
        signature == signature_of(regions@, pages@),
{
    let selected: Vec<MemoryRegion> = select_stability_regions(regions);
    let mut hasher: DefaultHasher = DefaultHasher::new();
    let mut index: usize = 0;
    while index < selected.len()
        invariant
            index <= selected@.len(),
            hasher@ == region_parts(selected@, index as nat),
        decreases selected@.len() - index,
    {
        let region: MemoryRegion = selected[index];
        let mut part: Vec<u8> = Vec::with_capacity(36);
        push_bytes64(&mut part, region.base);
        push_bytes64(&mut part, region.allocation_base);
        push_bytes64(&mut part, region.size);
        push_bytes32(&mut part, region.state);
        push_bytes32(&mut part, region.protect);
        push_bytes32(&mut part, region.kind);
        assert(part@ =~= region_bytes(region));
        hasher.write(part.as_slice());
        index = index + 1;
    }
    let ghost parts = region_parts(selected@, selected@.len());
    let mut place: usize = 0;
    while place < pages.len()
        invariant
            place <= pages@.len(),
            hasher@ == with_page_parts(parts, pages@, place as nat),
        decreases pages@.len() - place,
    {
        let mut mark: Vec<u8> = Vec::with_capacity(8);
        match &pages[place] {
            Some(page) => {
                push_bytes64(&mut mark, page.len() as u64);
                assert(mark@ =~= bytes::bytes64(page@.len() as u64));
                hasher.write(mark.as_slice());
                hasher.write(page.as_slice());
            },
            None => {
                push_bytes64(&mut mark, u64::MAX);
                assert(mark@ =~= bytes::bytes64(u64::MAX));
                hasher.write(mark.as_slice());
            },
        }
        place = place + 1;
    }
    hasher.finish()
}

/// How long the memory of the target took to settle, and whether it did.
#[derive(Clone, Copy, Debug, PartialEq, Eq, Structural)]
pub struct StabilityInfo {
    pub elapsed_milliseconds: u64,
    pub settled: bool,
}

/// How many of the signatures before the last one are the same as it, without a gap.
pub open spec fn repeats(signatures: Seq<u64>) -> int
    decreases signatures.len(),
{
    if signatures.len() < 2 || signatures[signatures.len() - 2] != signatures.last() {
        0
    } else {
        repeats(signatures.drop_last()) + 1
    }
}

/// The memory has settled: the last signature came often enough.
pub open spec fn has_settled(signatures: Seq<u64>) -> bool {
    repeats(signatures) >= STABLE_MATCH_COUNT
}

/// Memory has settled exactly when the last four signatures are the same.
pub proof fn settled_means_four_the_same(signatures: Seq<u64>)
    requires
        signatures.len() >= 4,
    ensures
        has_settled(signatures) <==> {
            let last = signatures.len() - 1;
            &&& signatures[last - 1] == signatures[last]
            &&& signatures[last - 2] == signatures[last]
            &&& signatures[last - 3] == signatures[last]
        },
{
    let one = signatures.drop_last();
    let two = one.drop_last();
    reveal_with_fuel(repeats, 4);
    lemma_repeats_positive(two.drop_last());
    assert(one.last() == signatures[signatures.len() - 2]);
    assert(two.last() == signatures[signatures.len() - 3]);
    assert(two[two.len() - 2] == signatures[signatures.len() - 4]);
}

proof fn lemma_repeats_positive(signatures: Seq<u64>)
    ensures
        0 <= repeats(signatures),
    decreases signatures.len(),
{
    if signatures.len() >= 2 {
        lemma_repeats_positive(signatures.drop_last());
    }
}

/// What to do after a look at the memory of the target.
#[derive(Clone, Copy, Debug, PartialEq, Eq, Structural)]
pub enum StabilityStep {
    Settled,
    Again,
    GaveUp,
}

/// Watching the memory of the target until it settles.
pub struct StabilityWatch {
    previous: Option<u64>,
    matches: usize,
    polls: usize,
    signatures: Ghost<Seq<u64>>,
}

impl StabilityWatch {
    #[verifier::type_invariant]
    spec fn counts(self) -> bool {
        let signatures = self.signatures@;
        &&& self.polls == signatures.len()
        &&& self.matches == repeats(signatures)
        &&& self.matches <= self.polls
        &&& (signatures.len() == 0) == (self.previous is None)
        &&& signatures.len() > 0 ==> self.previous == Some(signatures.last())
    }

    /// The signatures that were seen.
    pub closed spec fn seen(&self) -> Seq<u64> {
        self.signatures@
    }

    /// Starts to watch.
    pub fn start() -> (watch: StabilityWatch)
        ensures
            watch.seen() == Seq::<u64>::empty(),
    {
        StabilityWatch { previous: None, matches: 0, polls: 0, signatures: Ghost(Seq::empty()) }
    }

    /// Takes note of a signature. After enough looks that are not the same, the watch gives up.
    pub fn observe(&mut self, signature: u64) -> (step: StabilityStep)
        requires
            old(self).seen().len() < STABLE_POLL_COUNT,
        ensures
            final(self).seen() == old(self).seen().push(signature),
            step == if has_settled(final(self).seen()) {
                StabilityStep::Settled
            } else if final(self).seen().len() >= STABLE_POLL_COUNT {
                StabilityStep::GaveUp
            } else {
                StabilityStep::Again
            },
    {
        proof {
            use_type_invariant(&*self);
        }
        let ghost signatures = self.signatures@.push(signature);
        proof {
            assert(signatures.drop_last() =~= self.signatures@);
        }
        let same: bool = match self.previous {
            Some(previous) => previous == signature,
            None => false,
        };
        let matches: usize = if same {
            self.matches + 1
        } else {
            0
        };
        let polls: usize = self.polls + 1;
        *self =
        StabilityWatch {
            previous: Some(signature),
            matches,
            polls,
            signatures: Ghost(signatures),
        };
        if matches >= STABLE_MATCH_COUNT {
            StabilityStep::Settled
        } else if polls >= STABLE_POLL_COUNT {
            StabilityStep::GaveUp
        } else {
            StabilityStep::Again
        }
    }
}

/// What is said of a call that failed with a status.
pub open spec fn status_message(action: Seq<char>, detail: Seq<char>, status: u32) -> Seq<char> {
    action + " failed: "@ + detail + " (error "@ + text::decimal(status as nat) + ")"@
}

/// The error of a call that failed with a status; `detail` is what the system says of it.
pub fn win32_status(action: &str, detail: &str, status: u32) -> (error: AppError)
    ensures
        error@ == status_message(action@, detail@, status),
{
    let mut message: String = action.to_owned();
    message.append(" failed: ");
    message.append(detail);
    message.append(" (error ");
    text::push_decimal(&mut message, status as u64);
    message.append(")");
    AppError::new(message)
}

} // verus!
