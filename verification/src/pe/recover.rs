//! What the protection and contents of captured memory say about damaged section headers.

use vstd::prelude::*;

use crate::error::{AppError, AppResult};
use crate::error;
use crate::pe;
use crate::pe::bytes;
use crate::pe::image::{write_u32, Edit};
use crate::pe::image;
use crate::pe::layout::{align_up, ordered_sections};
use crate::pe::layout;
use crate::pe::parse;
use crate::pe::{PeModel, PeModelView, RegionEvidence, SectionModel, SectionView};

verus! {

pub const IMAGE_SCN_MEM_EXECUTE: u32 = 0x2000_0000;

pub const IMAGE_SCN_MEM_READ: u32 = 0x4000_0000;

pub const IMAGE_SCN_MEM_WRITE: u32 = 0x8000_0000;

/// The writable bytes below which a section counts as read-only, unless all of it is writable.
pub const SUBSTANTIAL_WRITE: usize = 0x2000;

/// The region holds the byte at `at`.
pub open spec fn region_holds(region: RegionEvidence, at: int) -> bool {
    region.offset <= at < region.offset + region.size
}

/// The byte at `at` is not zero, and one of the regions shows that it can be read.
pub open spec fn in_use(memory: Seq<u8>, regions: Seq<RegionEvidence>, at: int) -> bool {
    &&& memory[at] != 0
    &&& exists|i: int|
        0 <= i < regions.len() && (#[trigger] regions[i]).readable && region_holds(regions[i], at)
}

/// The end of the last byte in use from `from` up to `to`, or `from` if there is none.
pub open spec fn use_end(
    memory: Seq<u8>,
    regions: Seq<RegionEvidence>,
    from: int,
    to: int,
) -> int
    decreases to - from,
{
    if to <= from {
        from
    } else if in_use(memory, regions, to - 1) {
        to
    } else {
        use_end(memory, regions, from, to - 1)
    }
}

proof fn lemma_use_end(
    memory: Seq<u8>,
    regions: Seq<RegionEvidence>,
    from: int,
    to: int,
    last: int,
)
    requires
        from <= last,
        last == from || (last <= to && in_use(memory, regions, last - 1)),
        forall|p: int| last <= p < to ==> !#[trigger] in_use(memory, regions, p),
    ensures
        use_end(memory, regions, from, to) == last,
    decreases to - from,
{
    if to > from && to > last {
        assert(!in_use(memory, regions, to - 1));
        lemma_use_end(memory, regions, from, to - 1, last);
    }
}

/// The larger number.
pub open spec fn greatest(left: int, right: int) -> int {
    if left >= right {
        left
    } else {
        right
    }
}

/// The length of a section that declares `declared` bytes: up to the last byte in use before
/// `limit`, and no less than it declares.
pub open spec fn expanded_length(
    memory: Seq<u8>,
    regions: Seq<RegionEvidence>,
    start: int,
    limit: int,
    declared: int,
) -> int {
    let from = layout::least(start + declared, limit);
    let end = use_end(memory, regions, from, layout::least(limit, memory.len() as int));
    greatest(layout::distance(start, end), declared)
}

/// The place behind the last non-zero byte of `memory` from `from` up to `to`, if there is one.
fn last_nonzero(memory: &[u8], from: usize, to: usize) -> (end: Option<usize>)
    requires
        from <= to <= memory.len(),
    ensures
        match end {
            Some(end) => from < end <= to && memory@[end - 1] != 0 && forall|p: int|
                end <= p < to ==> memory@[p] == 0,
            None => forall|p: int| from <= p < to ==> memory@[p] == 0,
        },
{
    let mut end: usize = to;
    while end > from
        invariant
            from <= end <= to <= memory.len(),
            forall|p: int| end <= p < to ==> memory@[p] == 0,
        decreases end,
    {
        if memory[end - 1] != 0 {
            return Some(end);
        }
        end = end - 1;
    }
    None
}

/// The length of a section as its contents show it.
pub fn expanded_section_length(
    memory: &[u8],
    regions: &[RegionEvidence],
    start: usize,
    limit: usize,
    declared: usize,
) -> (length: usize)
    ensures
        length == expanded_length(
            memory@,
            regions@,
            start as int,
            limit as int,
            declared as int,
        ),
{
    let reach: usize = start.saturating_add(declared);
    let scan_start: usize = if reach < limit {
        reach
    } else {
        limit
    };
    let scan_end: usize = if limit < memory.len() {
        limit
    } else {
        memory.len()
    };
    let mut last_byte: usize = scan_start;
    let mut index: usize = 0;
    while index < regions.len()
        invariant
            index <= regions@.len(),
            scan_end <= memory.len(),
            scan_end <= limit,
            scan_start <= last_byte,
            last_byte == scan_start || (last_byte <= scan_end && in_use(
                memory@,
                regions@,
                last_byte - 1,
            )),
            forall|p: int, i: int|
                last_byte <= p < scan_end && 0 <= i < index && memory@[p] != 0
                    && #[trigger] regions@[i].readable ==> !#[trigger] region_holds(regions@[i], p),
        decreases regions@.len() - index,
    {
        let region: RegionEvidence = regions[index];
        if region.readable {
            let region_end: usize = region.offset.saturating_add(region.size);
            let range_start: usize = if scan_start < region.offset {
                region.offset
            } else {
                scan_start
            };
            let range_end: usize = if scan_end < region_end {
                scan_end
            } else {
                region_end
            };
            if range_start < range_end {
                if let Some(end) = last_nonzero(memory, range_start, range_end) {
                    if end > last_byte {
                        assert(region_holds(regions@[index as int], end - 1));
                        assert(in_use(memory@, regions@, end - 1));
                        last_byte = end;
                    }
                }
            }
        }
        index = index + 1;
    }
    proof {
        assert forall|p: int| last_byte <= p < scan_end implies !#[trigger] in_use(
            memory@,
            regions@,
            p,
        ) by {}
        lemma_use_end(memory@, regions@, scan_start as int, scan_end as int, last_byte as int);
    }
    let length: usize = last_byte.saturating_sub(start);
    if length > declared {
        length
    } else {
        declared
    }
}

/// The bytes that a region has between `start` and `end`.
pub open spec fn shared_bytes(region: RegionEvidence, start: int, end: int) -> int {
    layout::distance(
        greatest(start, region.offset as int),
        layout::least(end, region.offset + region.size),
    )
}

/// The bytes between `start` and `end` for which regions were found.
pub open spec fn committed_bytes(regions: Seq<RegionEvidence>, start: int, end: int) -> int
    decreases regions.len(),
{
    if regions.len() == 0 {
        0
    } else {
        committed_bytes(regions.drop_last(), start, end) + shared_bytes(regions.last(), start, end)
    }
}

/// The bytes of them that can be read.
pub open spec fn readable_bytes(regions: Seq<RegionEvidence>, start: int, end: int) -> int {
    committed_bytes(regions.filter(|region: RegionEvidence| region.readable), start, end)
}

/// The bytes of them that can be written.
pub open spec fn writable_bytes(regions: Seq<RegionEvidence>, start: int, end: int) -> int {
    committed_bytes(regions.filter(|region: RegionEvidence| region.writable), start, end)
}

/// The bytes of them that can be executed.
pub open spec fn executable_bytes(regions: Seq<RegionEvidence>, start: int, end: int) -> int {
    committed_bytes(regions.filter(|region: RegionEvidence| region.executable), start, end)
}

/// How much of a section the regions show, and with which protection. The counts stay at the
/// largest number where they would pass it.
#[derive(Clone, Copy, Debug, PartialEq, Eq, Structural)]
pub struct ProtectionCoverage {
    pub committed: usize,
    pub readable: usize,
    pub writable: usize,
    pub executable: usize,
}

/// `value`, or the largest number if it is above that.
pub open spec fn capped(value: int) -> int {
    layout::least(value, usize::MAX as int)
}

/// So much writable memory that the section is writable: all of it, or at least half of it and
/// two pages.
pub open spec fn substantial(committed: int, writable: int, section_size: int) -> bool {
    &&& committed > 0
    &&& writable > 0
    &&& {
        ||| writable >= section_size && committed >= section_size
        ||| writable >= SUBSTANTIAL_WRITE && 2 * writable >= section_size
    }
}

/// Leaving the last region out of a filtered list.
pub(crate) proof fn lemma_filter_step(regions: Seq<RegionEvidence>, keep: spec_fn(RegionEvidence) -> bool, start: int, end: int)
    requires
        regions.len() > 0,
    ensures
        committed_bytes(regions.filter(keep), start, end) == committed_bytes(
            regions.drop_last().filter(keep),
            start,
            end,
        ) + if keep(regions.last()) {
            shared_bytes(regions.last(), start, end)
        } else {
            0
        },
{
    reveal(Seq::filter);
    let shorter = regions.drop_last().filter(keep);
    if keep(regions.last()) {
        assert(regions.filter(keep) == shorter.push(regions.last()));
        assert(shorter.push(regions.last()).drop_last() =~= shorter);
    } else {
        assert(regions.filter(keep) == shorter);
    }
}

impl ProtectionCoverage {
    /// Measures the regions between `start` and `end`.
    pub fn measure(regions: &[RegionEvidence], start: usize, end: usize) -> (coverage:
        ProtectionCoverage)
        ensures
            coverage.committed == capped(committed_bytes(regions@, start as int, end as int)),
            coverage.readable == capped(readable_bytes(regions@, start as int, end as int)),
            coverage.writable == capped(writable_bytes(regions@, start as int, end as int)),
            coverage.executable == capped(executable_bytes(regions@, start as int, end as int)),
    {
        let mut coverage: ProtectionCoverage = ProtectionCoverage {
            committed: 0,
            readable: 0,
            writable: 0,
            executable: 0,
        };
        let mut index: usize = 0;
        proof {
            reveal(Seq::filter);
            assert(regions@.take(0) =~= Seq::<RegionEvidence>::empty());
        }
        while index < regions.len()
            invariant
                index <= regions@.len(),
                coverage.committed == capped(
                    committed_bytes(regions@.take(index as int), start as int, end as int),
                ),
                coverage.readable == capped(
                    readable_bytes(regions@.take(index as int), start as int, end as int),
                ),
                coverage.writable == capped(
                    writable_bytes(regions@.take(index as int), start as int, end as int),
                ),
                coverage.executable == capped(
                    executable_bytes(regions@.take(index as int), start as int, end as int),
                ),
            decreases regions@.len() - index,
        {
            let region: RegionEvidence = regions[index];
            let region_end: usize = region.offset.saturating_add(region.size);
            let overlap_start: usize = if start < region.offset {
                region.offset
            } else {
                start
            };
            let overlap_end: usize = if region_end < end {
                region_end
            } else {
                end
            };
            let bytes: usize = overlap_end.saturating_sub(overlap_start);
            proof {
                let more = regions@.take(index + 1);
                assert(more.drop_last() =~= regions@.take(index as int));
                assert(more.last() == region);
                assert(bytes == shared_bytes(region, start as int, end as int));
                lemma_filter_step(
                    more,
                    |region: RegionEvidence| region.readable,
                    start as int,
                    end as int,
                );
                lemma_filter_step(
                    more,
                    |region: RegionEvidence| region.writable,
                    start as int,
                    end as int,
                );
                lemma_filter_step(
                    more,
                    |region: RegionEvidence| region.executable,
                    start as int,
                    end as int,
                );
            }
            coverage.committed = coverage.committed.saturating_add(bytes);
            if region.readable {
                coverage.readable = coverage.readable.saturating_add(bytes);
            }
            if region.writable {
                coverage.writable = coverage.writable.saturating_add(bytes);
            }
            if region.executable {
                coverage.executable = coverage.executable.saturating_add(bytes);
            }
            index = index + 1;
        }
        assert(regions@.take(index as int) =~= regions@);
        coverage
    }

    /// Tests for so much writable memory that the section is writable.
    pub fn write_is_substantial(&self, section_size: usize) -> (yes: bool)
        ensures
            yes == substantial(
                self.committed as int,
                self.writable as int,
                section_size as int,
            ),
    {
        if self.committed == 0 || self.writable == 0 {
            return false;
        }
        let unanimous: bool = self.writable >= section_size && self.committed >= section_size;
        let much: bool = self.writable >= SUBSTANTIAL_WRITE && self.writable.saturating_add(
            self.writable,
        ) >= section_size;
        unanimous || much
    }
}

/// `flags` with `flag` added where `shown` holds.
pub open spec fn granted(flags: u32, flag: u32, shown: bool) -> u32 {
    if shown {
        flags | flag
    } else {
        flags
    }
}

/// The flags of a section with the access that the regions show.
pub open spec fn recovered_flags(
    flags: u32,
    regions: Seq<RegionEvidence>,
    start: int,
    end: int,
) -> u32 {
    granted(
        granted(
            granted(flags, IMAGE_SCN_MEM_EXECUTE, executable_bytes(regions, start, end) > 0),
            IMAGE_SCN_MEM_READ,
            readable_bytes(regions, start, end) > 0,
        ),
        IMAGE_SCN_MEM_WRITE,
        substantial(
            capped(committed_bytes(regions, start, end)),
            capped(writable_bytes(regions, start, end)),
            layout::distance(start, end),
        ),
    )
}

/// Recovering the access of a section takes no flag away.
pub proof fn recovery_keeps_flags(
    flags: u32,
    regions: Seq<RegionEvidence>,
    start: int,
    end: int,
)
    ensures
        recovered_flags(flags, regions, start, end) & flags == flags,
{
    let executable = executable_bytes(regions, start, end) > 0;
    let readable = readable_bytes(regions, start, end) > 0;
    let writable = substantial(
        capped(committed_bytes(regions, start, end)),
        capped(writable_bytes(regions, start, end)),
        layout::distance(start, end),
    );
    let first = granted(flags, IMAGE_SCN_MEM_EXECUTE, executable);
    let second = granted(first, IMAGE_SCN_MEM_READ, readable);
    assert(flags & flags == flags && (flags | 0x2000_0000) & flags == flags) by (bit_vector);
    assert(first & flags == flags ==> (first | 0x4000_0000) & flags == flags) by (bit_vector);
    assert(second & flags == flags ==> (second | 0x8000_0000) & flags == flags) by (bit_vector);
}

/// The flags of a section with the access that the regions show.
pub fn recovered_characteristics(
    characteristics: u32,
    regions: &[RegionEvidence],
    start: usize,
    end: usize,
) -> (recovered: u32)
    ensures
        recovered == recovered_flags(characteristics, regions@, start as int, end as int),
{
    let coverage: ProtectionCoverage = ProtectionCoverage::measure(regions, start, end);
    let mut recovered: u32 = characteristics;
    if coverage.executable > 0 {
        recovered = recovered | IMAGE_SCN_MEM_EXECUTE;
    }
    if coverage.readable > 0 {
        recovered = recovered | IMAGE_SCN_MEM_READ;
    }
    if coverage.write_is_substantial(end.saturating_sub(start)) {
        recovered = recovered | IMAGE_SCN_MEM_WRITE;
    }
    recovered
}

/// Section headers that are being recovered.
pub struct Recovery {
    pub edit: Edit,
    pub changed: bool,
    pub image_end: int,
}

/// Where the memory of a section ends at the latest.
pub open spec fn section_limit(ordered: Seq<SectionView>, index: int, memory_size: int) -> int {
    layout::least(layout::next_address(ordered, index, memory_size), memory_size)
}

/// The headers after the length of a section is recovered.
pub open spec fn recover_length(state: Recovery, section: SectionView, length: int) -> Recovery {
    if length <= section.span() {
        state
    } else if length > u32::MAX {
        Recovery { edit: state.edit.fail("recovered section size exceeds u32"@), ..state }
    } else {
        Recovery {
            edit: state.edit.put32(section.header_offset + 8, length as u32),
            changed: true,
            image_end: greatest(state.image_end, section.virtual_address + length),
        }
    }
}

/// The headers after the access of a section is recovered.
pub open spec fn recover_flags(state: Recovery, section: SectionView, flags: u32) -> Recovery {
    if state.edit.failure is Some || flags == section.characteristics {
        state
    } else {
        Recovery {
            edit: state.edit.put32(section.header_offset + 36, flags),
            changed: true,
            image_end: state.image_end,
        }
    }
}

/// The headers after one section, whose memory ends at `limit`, is recovered.
pub open spec fn recover_section(
    state: Recovery,
    memory: Seq<u8>,
    regions: Seq<RegionEvidence>,
    section: SectionView,
    limit: int,
) -> Recovery {
    let start = section.virtual_address as int;
    let length = expanded_length(memory, regions, start, limit, section.span());
    if state.edit.failure is Some || start >= limit {
        state
    } else {
        recover_flags(
            recover_length(state, section, length),
            section,
            recovered_flags(
                section.characteristics,
                regions,
                start,
                layout::least(start + length, limit),
            ),
        )
    }
}

/// The headers after the first `count` sections, in address order, are recovered.
pub open spec fn recover_sections(
    memory: Seq<u8>,
    model: PeModelView,
    regions: Seq<RegionEvidence>,
    count: nat,
) -> Recovery
    decreases count,
{
    if count == 0 {
        Recovery {
            edit: Edit::start(memory),
            changed: false,
            image_end: model.image_size as int,
        }
    } else {
        recover_section(
            recover_sections(memory, model, regions, (count - 1) as nat),
            memory,
            regions,
            layout::by_address(model.sections)[count - 1],
            section_limit(layout::by_address(model.sections), count - 1, memory.len() as int),
        )
    }
}

/// The headers after the image size is raised to hold the recovered sections.
pub open spec fn recover_image_size(state: Recovery, model: PeModelView) -> Recovery {
    if state.edit.failure is Some || state.image_end <= model.image_size {
        state
    } else {
        match layout::alignment_of(
            state.image_end,
            model.section_alignment as int,
            usize::MAX as int,
        ) {
            Err(message) => Recovery { edit: state.edit.fail(message), ..state },
            Ok(size) => if size > u32::MAX {
                Recovery { edit: state.edit.fail("recovered image size exceeds u32"@), ..state }
            } else {
                Recovery {
                    edit: state.edit.put32(model.size_of_image_offset(), size as u32),
                    changed: true,
                    image_end: state.image_end,
                }
            },
        }
    }
}

/// The image with recovered headers, if the regions show that something is to be recovered.
pub open spec fn recovered_image(
    memory: Seq<u8>,
    model: PeModelView,
    regions: Seq<RegionEvidence>,
) -> Result<Option<Seq<u8>>, Seq<char>> {
    let state = recover_image_size(
        recover_sections(memory, model, regions, model.sections.len()),
        model,
    );
    if regions.len() == 0 {
        Ok(None)
    } else if state.edit.failure is Some {
        Err(state.edit.failure->0)
    } else if state.changed {
        Ok(Some(state.edit.bytes))
    } else {
        Ok(None)
    }
}

/// The bytes as they stand: as they were captured, until something is recovered.
spec fn current(recovered: Option<Vec<u8>>, memory: Seq<u8>) -> Seq<u8> {
    match recovered {
        Some(bytes) => bytes@,
        None => memory,
    }
}

/// Writes a recovered field; the first one into a copy of the memory.
fn patched(recovered: Option<Vec<u8>>, memory: &[u8], offset: usize, value: u32) -> (after:
    AppResult<Vec<u8>>)
    ensures
        ({
            let expected = Edit::start(current(recovered, memory@)).put32(offset as int, value);
            match expected.failure {
                Some(message) => error::fails(after, message),
                None => after is Ok && after->Ok_0@ == expected.bytes,
            }
        }),
{
    let mut bytes: Vec<u8> = match recovered {
        Some(bytes) => bytes,
        None => vstd::slice::slice_to_vec(memory),
    };
    assert(bytes@ == current(recovered, memory@));
    write_u32(&mut bytes, offset, value)?;
    Ok(bytes)
}

proof fn lemma_recovery_stops(
    memory: Seq<u8>,
    model: PeModelView,
    regions: Seq<RegionEvidence>,
    fewer: nat,
    more: nat,
)
    requires
        fewer <= more,
        recover_sections(memory, model, regions, fewer).edit.failure is Some,
    ensures
        recover_sections(memory, model, regions, more) == recover_sections(
            memory,
            model,
            regions,
            fewer,
        ),
    decreases more,
{
    if fewer < more {
        lemma_recovery_stops(memory, model, regions, fewer, (more - 1) as nat);
    }
}

proof fn lemma_use_end_bounds(
    memory: Seq<u8>,
    regions: Seq<RegionEvidence>,
    from: int,
    to: int,
)
    ensures
        from <= use_end(memory, regions, from, to) <= greatest(from, to),
    decreases to - from,
{
    if to > from {
        lemma_use_end_bounds(memory, regions, from, to - 1);
    }
}

/// A section never gets shorter, and what it gains lies before the limit.
pub proof fn recovery_extends_within_limit(
    memory: Seq<u8>,
    regions: Seq<RegionEvidence>,
    start: int,
    limit: int,
    declared: int,
)
    requires
        0 <= start < limit,
        0 <= declared,
    ensures
        ({
            let length = expanded_length(memory, regions, start, limit, declared);
            length >= declared && (length > declared ==> start + length <= limit)
        }),
{
    lemma_use_end_bounds(
        memory,
        regions,
        layout::least(start + declared, limit),
        layout::least(limit, memory.len() as int),
    );
}

/// Recovers one section.
fn recover_one(
    recovered: Option<Vec<u8>>,
    image_end: usize,
    memory: &[u8],
    regions: &[RegionEvidence],
    section: SectionModel,
    limit: usize,
) -> (after: AppResult<(Option<Vec<u8>>, usize)>)
    requires
        section.header_offset + pe::SECTION_HEADER_SIZE <= usize::MAX,
    ensures
        ({
            let expected = recover_section(
                (Recovery {
                    edit: Edit::start(current(recovered, memory@)),
                    changed: recovered is Some,
                    image_end: image_end as int,
                }),
                memory@,
                regions@,
                section@,
                limit as int,
            );
            match expected.edit.failure {
                Some(message) => error::fails(after, message),
                None => after is Ok && expected == (Recovery {
                    edit: Edit::start(current(after->Ok_0.0, memory@)),
                    changed: after->Ok_0.0 is Some,
                    image_end: after->Ok_0.1 as int,
                }),
            }
        }),
{
    let start: usize = section.virtual_address.get() as usize;
    let declared: usize = section.span() as usize;
    if start >= limit {
        return Ok((recovered, image_end));
    }
    let expanded: usize = expanded_section_length(memory, regions, start, limit, declared);
    proof {
        recovery_extends_within_limit(
            memory@,
            regions@,
            start as int,
            limit as int,
            declared as int,
        );
    }
    let reach: usize = start.saturating_add(expanded);
    let section_end: usize = if reach < limit {
        reach
    } else {
        limit
    };
    let characteristics: u32 = recovered_characteristics(
        section.characteristics,
        regions,
        start,
        section_end,
    );
    let mut now: Option<Vec<u8>> = recovered;
    let mut end: usize = image_end;
    if expanded > declared {
        if expanded as u64 > u32::MAX as u64 {
            return Err(AppError::fixed("recovered section size exceeds u32"));
        }
        now = Some(patched(now, memory, section.header_offset + 8, expanded as u32)?);
        if start + expanded > end {
            end = start + expanded;
        }
    }
    if characteristics != section.characteristics {
        now = Some(patched(now, memory, section.header_offset + 36, characteristics)?);
    }
    Ok((now, end))
}

/// Recovers the lengths and the access of the sections from the captured memory. The answer is
/// the image with new headers, if they had to change.
pub fn recover_section_headers(memory: &[u8], model: &PeModel, regions: &[RegionEvidence]) -> (image:
    AppResult<Option<Vec<u8>>>)
    ensures
        match recovered_image(memory@, model@, regions@) {
            Err(message) => error::fails(image, message),
            Ok(None) => image is Ok && image->Ok_0 is None,
            Ok(Some(bytes)) => image is Ok && image->Ok_0 is Some && image->Ok_0->0@ == bytes,
        },
{
    if regions.len() == 0 {
        return Ok(None);
    }
    proof {
        use_type_invariant(model);
        model.lemma_accepted();
    }
    let sections: Vec<SectionModel> = ordered_sections(model);
    let ghost ordered = layout::by_address(model@.sections);
    let mut recovered: Option<Vec<u8>> = None;
    let declared_size: usize = model.image_size() as usize;
    let mut image_end: usize = declared_size;
    let mut index: usize = 0;
    while index < sections.len()
        invariant
            index <= sections@.len(),
            sections@.len() == model@.sections.len(),
            model@.valid(),
            pe::section_views(sections@) == ordered,
            ordered == layout::by_address(model@.sections),
            declared_size == model@.image_size,
            regions@.len() > 0,
            recover_sections(memory@, model@, regions@, index as nat) == (Recovery {
                edit: Edit::start(current(recovered, memory@)),
                changed: recovered is Some,
                image_end: image_end as int,
            }),
        decreases sections@.len() - index,
    {
        let section: SectionModel = sections[index];
        let next: usize = if index + 1 < sections.len() {
            assert(sections@[index + 1]@ == ordered[index + 1]);
            sections[index + 1].virtual_address.get() as usize
        } else {
            memory.len()
        };
        let limit: usize = if next < memory.len() {
            next
        } else {
            memory.len()
        };
        proof {
            assert(section@ == ordered[index as int]);
            assert(limit == section_limit(ordered, index as int, memory@.len() as int));
            let origin = layout::lemma_ordered_section(model@.sections, index as int);
            assert(section@ == model@.sections[origin]);
            assert(model@.section_table_offset() + pe::SECTION_HEADER_SIZE * origin
                + pe::SECTION_HEADER_SIZE <= model@.section_table_end());
            if recover_sections(memory@, model@, regions@, (index + 1) as nat).edit.failure is Some {
                lemma_recovery_stops(
                    memory@,
                    model@,
                    regions@,
                    (index + 1) as nat,
                    model@.sections.len(),
                );
            }
        }
        let after: (Option<Vec<u8>>, usize) = recover_one(
            recovered,
            image_end,
            memory,
            regions,
            section,
            limit,
        )?;
        recovered = after.0;
        image_end = after.1;
        index = index + 1;
    }
    if image_end > declared_size {
        let size: usize = align_up(image_end, model.section_alignment() as usize)?;
        if size as u64 > u32::MAX as u64 {
            return Err(AppError::fixed("recovered image size exceeds u32"));
        }
        recovered = Some(patched(recovered, memory, model.optional_offset() + 56, size as u32)?);
    }
    Ok(recovered)
}

/// The byte at `o` belongs to the length or to the flags of a section.
pub open spec fn section_field(model: PeModelView, o: int) -> bool {
    exists|index: int|
        0 <= index < model.sections.len() && {
            let at = (#[trigger] model.sections[index]).header_offset;
            at + 8 <= o < at + 12 || at + 36 <= o < at + 40
        }
}

/// Each section header in `bytes` has the length and the flags of its section, or more.
pub open spec fn sections_grew(bytes: Seq<u8>, sections: Seq<SectionView>) -> bool {
    forall|index: int|
        #![trigger sections[index]]
        0 <= index < sections.len() ==> {
            let section = sections[index];
            &&& bytes::le32(bytes, section.header_offset + 8) >= section.virtual_size
            &&& bytes::le32(bytes, section.header_offset + 36) & section.characteristics
                == section.characteristics
        }
}

/// The section headers in `bytes` are those of the sections.
pub open spec fn headers_of_sections(bytes: Seq<u8>, sections: Seq<SectionView>) -> bool {
    forall|index: int|
        #![trigger sections[index]]
        0 <= index < sections.len() ==> {
            let section = sections[index];
            &&& bytes::le32(bytes, section.header_offset + 8) == section.virtual_size
            &&& bytes::le32(bytes, section.header_offset + 36) == section.characteristics
        }
}

proof fn lemma_memory_has_headers(memory: Seq<u8>)
    requires
        memory.len() <= usize::MAX,
        parse::memory_image(memory) is Ok,
    ensures
        ({
            let model = parse::memory_image(memory)->Ok_0;
            &&& model.valid()
            &&& model.section_table_end() <= memory.len()
            &&& headers_of_sections(memory, model.sections)
            &&& bytes::le32(memory, model.size_of_image_offset()) == model.image_size
        }),
{
    parse::captured_headers_are_sound(memory);
    parse::models_are_read_from_headers(memory);
    let model = parse::memory_image(memory)->Ok_0;
    let table = model.nt_offset + 24 + bytes::le16(memory, model.nt_offset + 20);
    assert forall|index: int|
        #![trigger model.sections[index]]
        0 <= index < model.sections.len() implies model.sections[index] == parse::section_at(
        memory,
        table + pe::SECTION_HEADER_SIZE * index,
    ) by {}
}

/// What holds of the headers while they are recovered.
spec fn recovering(bytes: Seq<u8>, memory: Seq<u8>, model: PeModelView) -> bool {
    &&& bytes.len() == memory.len()
    &&& sections_grew(bytes, layout::by_address(model.sections))
    &&& forall|o: int|
        #![trigger bytes[o]]
        0 <= o < memory.len() && !section_field(model, o) ==> bytes[o] == memory[o]
}

proof fn lemma_field_recovered(
    bytes: Seq<u8>,
    memory: Seq<u8>,
    model: PeModelView,
    place: int,
    field: int,
    value: u32,
)
    requires
        model.valid(),
        model.section_table_end() <= memory.len(),
        recovering(bytes, memory, model),
        0 <= place < model.sections.len(),
        ({
            let section = layout::by_address(model.sections)[place];
            ||| field == 8 && value >= section.virtual_size
            ||| field == 36 && value & section.characteristics == section.characteristics
        }),
    ensures
        recovering(
            bytes::splice(
                bytes,
                layout::by_address(model.sections)[place].header_offset + field,
                bytes::bytes32(value),
            ),
            memory,
            model,
        ),
{
    let ordered = layout::by_address(model.sections);
    layout::ordering_keeps_sections(model.sections);
    let origin = layout::lemma_ordered_section(model.sections, place);
    let at = ordered[place].header_offset + field;
    let after = bytes::splice(bytes, at, bytes::bytes32(value));
    assert(ordered[place] == model.sections[origin]);
    bytes::written_u32_reads_back(bytes, at, value);
    assert forall|index: int| #![trigger ordered[index]] 0 <= index < ordered.len() implies {
        let section = ordered[index];
        &&& bytes::le32(after, section.header_offset + 8) >= section.virtual_size
        &&& bytes::le32(after, section.header_offset + 36) & section.characteristics
            == section.characteristics
    } by {
        let other = layout::lemma_ordered_section(model.sections, index);
        let start = ordered[index].header_offset;
        assert(ordered[index] == model.sections[other]);
        if other == origin {
            if field == 8 {
                bytes::write_keeps_other_fields(bytes, at, bytes::bytes32(value), start + 36);
            } else {
                bytes::write_keeps_other_fields(bytes, at, bytes::bytes32(value), start + 8);
            }
        } else {
            bytes::write_keeps_other_fields(bytes, at, bytes::bytes32(value), start + 8);
            bytes::write_keeps_other_fields(bytes, at, bytes::bytes32(value), start + 36);
        }
    }
    assert forall|o: int|
        #![trigger after[o]]
        0 <= o < memory.len() && !section_field(model, o) implies after[o] == memory[o] by {
        assert(model.sections[origin].header_offset + field == at);
        assert(bytes[o] == memory[o]);
    }
}

proof fn lemma_sections_recovered(
    memory: Seq<u8>,
    model: PeModelView,
    regions: Seq<RegionEvidence>,
    count: nat,
)
    requires
        model.valid(),
        model.section_table_end() <= memory.len() <= usize::MAX,
        headers_of_sections(memory, model.sections),
        count <= model.sections.len(),
        recover_sections(memory, model, regions, count).edit.failure is None,
    ensures
        recovering(recover_sections(memory, model, regions, count).edit.bytes, memory, model),
        recover_sections(memory, model, regions, count).image_end >= model.image_size,
        !recover_sections(memory, model, regions, count).changed ==> recover_sections(
            memory,
            model,
            regions,
            count,
        ).edit.bytes == memory,
    decreases count,
{
    let ordered = layout::by_address(model.sections);
    layout::ordering_keeps_sections(model.sections);
    if count == 0 {
        assert forall|index: int| #![trigger ordered[index]] 0 <= index < ordered.len() implies {
            let section = ordered[index];
            &&& bytes::le32(memory, section.header_offset + 8) >= section.virtual_size
            &&& bytes::le32(memory, section.header_offset + 36) & section.characteristics
                == section.characteristics
        } by {
            let origin = layout::lemma_ordered_section(model.sections, index);
            assert(ordered[index] == model.sections[origin]);
            let flags = ordered[index].characteristics;
            assert(flags & flags == flags) by (bit_vector);
        }
    } else {
        let before = recover_sections(memory, model, regions, (count - 1) as nat);
        lemma_sections_recovered(memory, model, regions, (count - 1) as nat);
        let section = ordered[count - 1];
        let limit = section_limit(ordered, count - 1, memory.len() as int);
        let start = section.virtual_address as int;
        let origin = layout::lemma_ordered_section(model.sections, count - 1);
        assert(section == model.sections[origin]);
        if start < limit {
            let length = expanded_length(memory, regions, start, limit, section.span());
            let flags = recovered_flags(
                section.characteristics,
                regions,
                start,
                layout::least(start + length, limit),
            );
            recovery_extends_within_limit(memory, regions, start, limit, section.span());
            recovery_keeps_flags(
                section.characteristics,
                regions,
                start,
                layout::least(start + length, limit),
            );
            let longer = recover_length(before, section, length);
            if length > section.span() {
                lemma_field_recovered(
                    before.edit.bytes,
                    memory,
                    model,
                    count - 1,
                    8,
                    length as u32,
                );
            }
            if flags != section.characteristics {
                lemma_field_recovered(longer.edit.bytes, memory, model, count - 1, 36, flags);
            }
        }
    }
}

/// The recovery of a captured image changes nothing but the lengths and the flags of sections and
/// the image size. No length and no image size gets smaller, and no flag is taken away.
pub proof fn recovery_changes_only_sizes_and_flags(memory: Seq<u8>, regions: Seq<RegionEvidence>)
    requires
        memory.len() <= usize::MAX,
        parse::memory_image(memory) is Ok,
        recovered_image(memory, parse::memory_image(memory)->Ok_0, regions) matches Ok(Some(_)),
    ensures
        ({
            let model = parse::memory_image(memory)->Ok_0;
            let after = recovered_image(memory, model, regions)->Ok_0->0;
            let size_at = model.size_of_image_offset();
            &&& after.len() == memory.len()
            &&& forall|o: int|
                #![trigger after[o]]
                0 <= o < memory.len() && !section_field(model, o) && !(size_at <= o < size_at + 4)
                    ==> after[o] == memory[o]
            &&& headers_of_sections(memory, model.sections)
            &&& sections_grew(after, model.sections)
            &&& bytes::le32(after, size_at) >= bytes::le32(memory, size_at)
        }),
{
    let model = parse::memory_image(memory)->Ok_0;
    let after = recovered_image(memory, model, regions)->Ok_0->0;
    let state = recover_sections(memory, model, regions, model.sections.len());
    let size_at = model.size_of_image_offset();
    lemma_memory_has_headers(memory);
    lemma_sections_recovered(memory, model, regions, model.sections.len());
    assert forall|o: int| size_at <= o < size_at + 4 implies !section_field(model, o) by {}
    assert(bytes::le32(state.edit.bytes, size_at) == model.image_size) by {
        assert forall|o: int| size_at <= o < size_at + 4 implies #[trigger] state.edit.bytes[o]
            == memory[o] by {}
    }
    if state.image_end > model.image_size {
        let size = layout::aligned(state.image_end, model.section_alignment as int);
        layout::aligned_is_least_multiple(state.image_end, model.section_alignment as int);
        bytes::written_u32_reads_back(state.edit.bytes, size_at, size as u32);
        assert(after == bytes::splice(state.edit.bytes, size_at, bytes::bytes32(size as u32)));
    }
    lemma_growth_by_section(state.edit.bytes, after, model);
}

/// Growth of the sections in address order is growth of the sections, and the image size is none
/// of their fields.
proof fn lemma_growth_by_section(before: Seq<u8>, after: Seq<u8>, model: PeModelView)
    requires
        model.valid(),
        after.len() == before.len(),
        model.section_table_end() <= before.len(),
        sections_grew(before, layout::by_address(model.sections)),
        forall|o: int|
            #![trigger after[o]]
            model.section_table_offset() <= o < after.len() ==> after[o] == before[o],
    ensures
        sections_grew(after, model.sections),
{
    let ordered = layout::by_address(model.sections);
    assert forall|index: int|
        #![trigger model.sections[index]]
        0 <= index < model.sections.len() implies {
        let section = model.sections[index];
        &&& bytes::le32(after, section.header_offset + 8) >= section.virtual_size
        &&& bytes::le32(after, section.header_offset + 36) & section.characteristics
            == section.characteristics
    } by {
        layout::ordering_keeps_sections(model.sections);
        broadcast use vstd::seq_lib::group_to_multiset_ensures;

        let section = model.sections[index];
        assert(model.sections.to_multiset().count(section) > 0);
        assert(ordered.contains(section));
        let place = choose|place: int| 0 <= place < ordered.len() && ordered[place] == section;
        assert(ordered[place] == section);
    }
}

} // verus!
