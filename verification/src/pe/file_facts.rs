//! Where the parts of a rebuilt file come to stand, and what its headers say of them.

use vstd::prelude::*;

use crate::pe::bytes;
use crate::pe::header_facts;
use crate::pe::image::Edit;
use crate::pe::import_section;
use crate::pe::import_section::NewSection;
use crate::pe::imports;
use crate::pe::imports::PlanView;
use crate::pe::layout;
use crate::pe::merge;
use crate::pe::parse;
use crate::pe::rebuild;
use crate::pe::rebuild::{DraftView, Source};
use crate::pe::recover;
use crate::pe::recover::Recovery;
use crate::pe::{PeKind, PeModelView, RegionEvidence, SectionView};

verus! {

/// A section takes from memory exactly its addresses that were captured and that come before the
/// next section.
pub proof fn sections_take_their_memory(
    ordered: Seq<SectionView>,
    index: int,
    memory_size: int,
    address: int,
)
    requires
        0 <= index < ordered.len(),
        0 <= memory_size,
    ensures
        ({
            let section = ordered[index];
            section.virtual_address <= address < section.virtual_address + layout::source_length(
                ordered,
                index,
                memory_size,
            ) <==> {
                &&& header_facts::has_address(section, address)
                &&& address < memory_size
                &&& index + 1 < ordered.len() ==> address < ordered[index + 1].virtual_address
            }
        }),
{
}

proof fn lemma_total_between(
    ordered: Seq<SectionView>,
    memory_size: int,
    file_alignment: int,
    from: nat,
    to: nat,
)
    requires
        from <= to,
        forall|i: int|
            from <= i < to ==> #[trigger] layout::raw_size(ordered, i, memory_size, file_alignment)
                == 0,
    ensures
        layout::raw_total(ordered, memory_size, file_alignment, to) == layout::raw_total(
            ordered,
            memory_size,
            file_alignment,
            from,
        ),
    decreases to,
{
    if from < to {
        lemma_total_between(ordered, memory_size, file_alignment, from, (to - 1) as nat);
    }
}

/// Each section takes the least multiple of the file alignment that holds its memory. The first
/// that takes any stands behind the headers, and each other right behind the one before it.
pub proof fn sections_stand_one_after_another(
    model: PeModelView,
    memory_size: int,
    header_size: int,
    before: int,
    index: int,
)
    requires
        model.valid(),
        0 <= memory_size,
        0 <= header_size,
        -1 <= before < index < model.sections.len(),
        ({
            let layouts = layout::section_layouts(model, memory_size, header_size);
            &&& layouts[index].source_length > 0
            &&& before >= 0 ==> layouts[before].source_length > 0
            &&& forall|i: int|
                before < i < index ==> (#[trigger] layouts[i]).source_length == 0
        }),
    ensures
        ({
            let layouts = layout::section_layouts(model, memory_size, header_size);
            &&& layouts[index].raw_size % (model.file_alignment as int) == 0
            &&& layouts[index].source_length <= layouts[index].raw_size
                < layouts[index].source_length + model.file_alignment
            &&& layouts[index].raw_offset == if before >= 0 {
                layouts[before].raw_offset + layouts[before].raw_size
            } else {
                header_size
            }
        }),
{
    let ordered = layout::by_address(model.sections);
    let alignment = model.file_alignment as int;
    let layouts = layout::section_layouts(model, memory_size, header_size);
    layout::aligned_is_least_multiple(
        layout::source_length(ordered, index, memory_size),
        alignment,
    );
    assert forall|i: int| before < i < index implies #[trigger] layout::raw_size(
        ordered,
        i,
        memory_size,
        alignment,
    ) == 0 by {
        assert(layouts[i].source_length == 0);
    }
    lemma_total_between(ordered, memory_size, alignment, (before + 1) as nat, index as nat);
    if before >= 0 {
        layout::aligned_is_least_multiple(
            layout::source_length(ordered, before, memory_size),
            alignment,
        );
    }
}

proof fn lemma_highest_end(sections: Seq<SectionView>)
    ensures
        forall|i: int|
            0 <= i < sections.len() ==> (#[trigger] sections[i]).virtual_address
                + header_facts::taken(sections[i]) <= layout::highest_end(sections),
        sections.len() > 0 ==> exists|i: int|
            0 <= i < sections.len() && (#[trigger] sections[i]).virtual_address
                + header_facts::taken(sections[i]) == layout::highest_end(sections),
        layout::highest_end(sections) >= 0,
    decreases sections.len(),
{
    if sections.len() > 0 {
        let fewer = sections.drop_last();
        lemma_highest_end(fewer);
        assert forall|i: int| 0 <= i < sections.len() implies (
        #[trigger] sections[i]).virtual_address + header_facts::taken(sections[i])
            <= layout::highest_end(sections) by {
            if i < fewer.len() {
                assert(fewer[i] == sections[i]);
            }
        }
        if sections.last().end() > layout::highest_end(fewer) || fewer.len() == 0 {
            assert(sections[sections.len() - 1].virtual_address + header_facts::taken(
                sections[sections.len() - 1],
            ) == layout::highest_end(sections));
        } else {
            let i = choose|i: int|
                0 <= i < fewer.len() && (#[trigger] fewer[i]).virtual_address
                    + header_facts::taken(fewer[i]) == layout::highest_end(fewer);
            assert(sections[i] == fewer[i]);
        }
    }
}

/// The declared image size is a multiple of the section alignment, not below the end of any
/// section, and less than one alignment above the end of one of them.
pub proof fn image_sizes_hold_all_sections(model: PeModelView)
    requires
        model.valid(),
        layout::rebuilt_size(model) is Ok,
    ensures
        ({
            let size = layout::rebuilt_size(model)->Ok_0 as int;
            &&& size % (model.section_alignment as int) == 0
            &&& forall|i: int|
                0 <= i < model.sections.len() ==> (#[trigger] model.sections[i]).virtual_address
                    + header_facts::taken(model.sections[i]) <= size
            &&& exists|i: int|
                0 <= i < model.sections.len() && size < (
                #[trigger] model.sections[i]).virtual_address + header_facts::taken(
                    model.sections[i],
                ) + model.section_alignment
        }),
{
    lemma_highest_end(model.sections);
    layout::aligned_is_least_multiple(
        layout::highest_end(model.sections),
        model.section_alignment as int,
    );
    let i = choose|i: int|
        0 <= i < model.sections.len() && (#[trigger] model.sections[i]).virtual_address
            + header_facts::taken(model.sections[i]) == layout::highest_end(model.sections);
    assert(layout::rebuilt_size(model)->Ok_0 < model.sections[i].virtual_address
        + header_facts::taken(model.sections[i]) + model.section_alignment);
}

/// The headers end, aligned, behind the section table: the least multiple of the file alignment.
pub proof fn headers_end_behind_the_section_table(model: PeModelView)
    requires
        model.valid(),
        rebuild::header_bytes(model) is Ok,
    ensures
        ({
            let size = rebuild::header_bytes(model)->Ok_0;
            let end = model.sections[0].header_offset + 40 * model.sections.len();
            &&& size % (model.file_alignment as int) == 0
            &&& end <= size < end + model.file_alignment
        }),
{
    layout::aligned_is_least_multiple(model.section_table_end(), model.file_alignment as int);
}

/// Memory is copied into the headers up to their end; the rest of the file starts as zeros.
pub proof fn files_start_with_the_headers(
    memory: Seq<u8>,
    header_size: int,
    size: int,
    o: int,
)
    requires
        0 <= o < size,
    ensures
        rebuild::blank_file(memory, header_size, size).len() == size,
        rebuild::blank_file(memory, header_size, size)[o] == if o < header_size && o
            < memory.len() {
            memory[o]
        } else {
            0
        },
{
}

/// The field of 32 bits that was written is there, and the fields away from it are as before.
proof fn lemma_put32(before: Edit, at: int, value: u32)
    requires
        before.failure is None,
        0 <= at,
        at + 4 <= before.bytes.len() <= usize::MAX,
    ensures
        ({
            let after = before.put32(at, value);
            &&& after.failure is None
            &&& after.bytes.len() == before.bytes.len()
            &&& bytes::le32(after.bytes, at) == value
            &&& forall|o: int|
                0 <= o < before.bytes.len() && !(at <= o < at + 4) ==> #[trigger] after.bytes[o]
                    == before.bytes[o]
        }),
{
    bytes::written_u32_reads_back(before.bytes, at, value);
}

proof fn lemma_same_field(left: Seq<u8>, right: Seq<u8>, at: int)
    requires
        left[at] == right[at],
        left[at + 1] == right[at + 1],
        left[at + 2] == right[at + 2],
        left[at + 3] == right[at + 3],
    ensures
        bytes::le32(left, at) == bytes::le32(right, at),
        bytes::le16(left, at) == bytes::le16(right, at),
{
}

/// A rebuilt file says where its headers stand, how large the image and its headers are, and how
/// many data directories there are.
pub proof fn layout_fields_are_written_in_place(
    file: Seq<u8>,
    model: PeModelView,
    base: u64,
    header_size: int,
)
    requires
        0x40 <= model.nt_offset <= u32::MAX,
        model.nt_offset + 136 <= file.len() <= usize::MAX,
        0 <= header_size <= u32::MAX,
        0 <= model.directory_count <= 16,
        rebuild::with_layout_fields(file, model, base, header_size).failure is None,
    ensures
        ({
            let after = rebuild::with_layout_fields(file, model, base, header_size).bytes;
            let nt = model.nt_offset;
            &&& after.len() == file.len()
            &&& after[0] == 0x4D
            &&& after[1] == 0x5A
            &&& bytes::le32(after, 0x3C) == nt
            &&& bytes::le32(after, nt + 80) == layout::rebuilt_size(model)->Ok_0
            &&& bytes::le32(after, nt + 84) == header_size
            &&& bytes::le32(
                after,
                nt + 24 + (if model.kind == PeKind::Pe32 {
                    92int
                } else {
                    108
                }),
            ) == model.directory_count
        }),
{
    let nt = model.nt_offset;
    let named = Edit::start(file).put16(0, 0x5A4D);
    assert(named.bytes[0] == 0x4D && named.bytes[1] == 0x5A) by {
        assert(bytes::bytes16(0x5A4D)[0] == 0x4D && bytes::bytes16(0x5A4D)[1] == 0x5A);
    }
    lemma_put32(named, 0x3C, nt as u32);
    let started = named.put32(0x3C, nt as u32);
    header_facts::image_bases_are_written_in_place(started.bytes, model, base);
    let based = crate::pe::headers::with_image_base(started.bytes, model, base);
    let size = layout::rebuilt_size(model)->Ok_0;
    lemma_put32(based, nt + 80, size);
    let sized = based.put32(nt + 80, size);
    lemma_put32(sized, nt + 84, header_size as u32);
    let framed = sized.put32(nt + 84, header_size as u32);
    let count_at = model.number_of_directories_offset();
    lemma_put32(framed, count_at, model.directory_count as u32);
    let after = framed.put32(count_at, model.directory_count as u32);
    assert(rebuild::with_layout_fields(file, model, base, header_size) == after);
    lemma_same_field(after.bytes, started.bytes, 0x3C);
    lemma_same_field(after.bytes, sized.bytes, nt + 80);
    lemma_same_field(after.bytes, framed.bytes, nt + 84);
}

/// An import by ordinal is the highest bit of a slot with the lower 16 bits of the ordinal.
pub proof fn ordinals_are_marked(ordinal: u32)
    ensures
        import_section::ordinal_thunk(PeKind::Pe32, ordinal) == 0x8000_0000 + ordinal % 0x1_0000,
        import_section::ordinal_thunk(PeKind::Pe32Plus, ordinal) == 0x8000_0000_0000_0000 + ordinal
            % 0x1_0000,
{
    let low = ordinal & 0xFFFF;
    assert(ordinal & 0xFFFF == ordinal % 0x1_0000) by (bit_vector);
    let value = low as u64;
    assert(value <= 0xFFFF ==> 0x8000_0000u64 | value == 0x8000_0000u64 + value) by (bit_vector);
    assert(value <= 0xFFFF ==> 0x8000_0000_0000_0000u64 | value == 0x8000_0000_0000_0000u64 + value)
        by (bit_vector);
}

/// The new section has its name, its sizes, its places and its flags in its header: data that can
/// be read and written.
pub proof fn new_sections_are_described(before: Edit, at: int, section: NewSection)
    requires
        before.failure is None,
        0 <= at,
        at + 40 <= before.bytes.len() <= usize::MAX,
        section.payload.len() <= u32::MAX,
        0 <= section.raw_size <= u32::MAX,
        0 <= section.raw_offset <= u32::MAX,
    ensures
        ({
            let after = import_section::with_section_header(before, at, section);
            &&& after.failure is None
            &&& after.bytes.len() == before.bytes.len()
            &&& after.bytes.subrange(at, at + 8) == seq![0x2Eu8, 0x6D, 0x65, 0x6D, 0x70, 0x65, 0, 0]
            &&& bytes::le32(after.bytes, at + 8) == section.payload.len()
            &&& bytes::le32(after.bytes, at + 12) == section.rva
            &&& bytes::le32(after.bytes, at + 16) == section.raw_size
            &&& bytes::le32(after.bytes, at + 20) == section.raw_offset
            &&& bytes::le32(after.bytes, at + 36) == 0xC000_0040
        }),
{
    let name = seq![0x2Eu8, 0x6D, 0x65, 0x6D, 0x70, 0x65, 0, 0];
    let named = Edit::start(
        bytes::splice(before.bytes, at, import_section::new_section_name()),
    );
    lemma_put32(named, at + 8, section.payload.len() as u32);
    let first = named.put32(at + 8, section.payload.len() as u32);
    lemma_put32(first, at + 12, section.rva);
    let second = first.put32(at + 12, section.rva);
    lemma_put32(second, at + 16, section.raw_size as u32);
    let third = second.put32(at + 16, section.raw_size as u32);
    lemma_put32(third, at + 20, section.raw_offset as u32);
    let fourth = third.put32(at + 20, section.raw_offset as u32);
    lemma_put32(fourth, at + 36, 0xC000_0040);
    let after = fourth.put32(at + 36, 0xC000_0040);
    assert(import_section::with_section_header(before, at, section) == after);
    lemma_same_field(after.bytes, first.bytes, at + 8);
    lemma_same_field(after.bytes, second.bytes, at + 12);
    lemma_same_field(after.bytes, third.bytes, at + 16);
    lemma_same_field(after.bytes, fourth.bytes, at + 20);
    assert(after.bytes.subrange(at, at + 8) =~= name) by {
        assert forall|i: int| 0 <= i < 8 implies #[trigger] after.bytes.subrange(at, at + 8)[i]
            == name[i] by {
            assert(after.bytes[at + i] == named.bytes[at + i]);
        }
    }
}

/// The new section stands behind all others: at the first multiple of the section alignment not
/// below the declared image size, and, in the file, behind all that was there, at multiples of the
/// file alignment.
pub proof fn new_sections_stand_behind_all(
    file: Seq<u8>,
    model: PeModelView,
    groups: Seq<imports::GroupView>,
)
    requires
        model.valid(),
        import_section::new_section(file, model, groups) is Ok,
    ensures
        ({
            let section = import_section::new_section(file, model, groups)->Ok_0;
            let size = bytes::le32(file, model.nt_offset + 80) as int;
            &&& section.rva % model.section_alignment == 0
            &&& size <= section.rva < size + model.section_alignment
            &&& section.raw_offset % (model.file_alignment as int) == 0
            &&& file.len() <= section.raw_offset < file.len() + model.file_alignment
            &&& section.raw_size % (model.file_alignment as int) == 0
            &&& section.payload.len() <= section.raw_size < section.payload.len()
                + model.file_alignment
            &&& section.raw_offset + section.raw_size <= 0x4000_0000
            &&& import_section::payload(groups, model.kind, section.rva) == Ok::<
                Seq<u8>,
                Seq<char>,
            >(section.payload)
        }),
{
    let size = bytes::le32(file, model.nt_offset + 80) as int;
    let contents = import_section::new_section(file, model, groups)->Ok_0.payload;
    layout::aligned_is_least_multiple(size, model.section_alignment as int);
    layout::aligned_is_least_multiple(file.len() as int, model.file_alignment as int);
    layout::aligned_is_least_multiple(contents.len() as int, model.file_alignment as int);
}

/// After the new section is put in, the import directory holds its address and the size of the
/// descriptors, the directory of the address table is cleared, and nothing else changes.
pub proof fn import_directories_point_to_the_new_section(
    before: Edit,
    model: PeModelView,
    section: NewSection,
    groups: int,
)
    requires
        before.failure is None,
        0 <= model.nt_offset,
        1 < model.directory_count,
        model.data_directory_offset() + 8 * model.directory_count <= before.bytes.len()
            <= usize::MAX,
        0 <= groups <= 4096,
    ensures
        ({
            let after = import_section::with_import_directory(before, model, section, groups);
            let field = model.nt_offset + 24 + (if model.kind == PeKind::Pe32 {
                96int
            } else {
                112
            });
            &&& after.failure is None
            &&& after.bytes.len() == before.bytes.len()
            &&& bytes::le32(after.bytes, field + 8) == section.rva
            &&& bytes::le32(after.bytes, field + 12) == 20 * (groups + 1)
            &&& model.directory_count > 12 ==> bytes::le32(after.bytes, field + 96) == 0
                && bytes::le32(after.bytes, field + 100) == 0
            &&& forall|o: int|
                0 <= o < before.bytes.len() && !(field + 8 <= o < field + 16) && !(field + 96 <= o
                    < field + 104) ==> #[trigger] after.bytes[o] == before.bytes[o]
        }),
{
    let field = model.data_directory_offset();
    let start = Edit::start(before.bytes);
    let size = (20 * (groups + 1)) as u32;
    lemma_put32(start, field + 8, section.rva);
    let first = start.put32(field + 8, section.rva);
    lemma_put32(first, field + 12, size);
    let second = first.put32(field + 12, size);
    lemma_same_field(second.bytes, first.bytes, field + 8);
    let after = import_section::with_import_directory(before, model, section, groups);
    if model.directory_count > 12 {
        let again = Edit::start(second.bytes);
        lemma_put32(again, field + 96, 0);
        let third = again.put32(field + 96, 0);
        lemma_put32(third, field + 100, 0);
        let fourth = third.put32(field + 100, 0);
        assert(after == fourth);
        lemma_same_field(fourth.bytes, third.bytes, field + 96);
        lemma_same_field(fourth.bytes, second.bytes, field + 8);
        lemma_same_field(fourth.bytes, second.bytes, field + 12);
    } else {
        assert(after.bytes == second.bytes);
    }
}

/// An import directory that is not intact is cleared where nothing was recovered, and one that is
/// intact stays as it is.
pub proof fn broken_imports_are_cleared(file: Seq<u8>, model: PeModelView, plan: PlanView)
    requires
        plan.groups.len() == 0,
        0 <= model.nt_offset,
        1 < model.directory_count,
        model.data_directory_offset() + 16 <= file.len() <= usize::MAX,
    ensures
        ({
            let after = rebuild::with_plan(file, model, plan);
            let field = model.nt_offset + 24 + (if model.kind == PeKind::Pe32 {
                96int
            } else {
                112
            }) + 8;
            &&& after.failure is None
            &&& plan.existing_valid ==> after.bytes == file
            &&& !plan.existing_valid ==> bytes::le32(after.bytes, field) == 0 && bytes::le32(
                after.bytes,
                field + 4,
            ) == 0
            &&& forall|o: int|
                0 <= o < file.len() && !(field <= o < field + 8) ==> #[trigger] after.bytes[o]
                    == file[o]
        }),
{
    let field = model.directory_at(1);
    let start = Edit::start(file);
    lemma_put32(start, field, 0);
    let first = start.put32(field, 0);
    lemma_put32(first, field + 4, 0);
    lemma_same_field(first.put32(field + 4, 0).bytes, first.bytes, field);
}

/// Captured headers are used wherever they can be taken. Headers of the file on disk are used where
/// they cannot, and the image is refused without them.
pub proof fn captured_headers_come_first(memory: Seq<u8>, disk: Option<Seq<u8>>)
    ensures
        parse::memory_image(memory) is Ok ==> {
            let source = rebuild::repaired_source(memory, disk);
            &&& source is Ok
            &&& source->Ok_0.bytes == memory
            &&& source->Ok_0.model == parse::memory_image(memory)->Ok_0
            &&& !source->Ok_0.from_disk
        },
        parse::memory_image(memory) is Err && rebuild::repaired_source(memory, disk) is Ok ==> {
            let source = rebuild::repaired_source(memory, disk)->Ok_0;
            &&& disk is Some
            &&& source.from_disk
            &&& merge::merged(memory, disk->0) == Ok::<Seq<u8>, Seq<char>>(source.bytes)
            &&& parse::memory_image(source.bytes) == Ok::<PeModelView, Seq<char>>(source.model)
        },
        parse::memory_image(memory) is Err && disk is None ==> rebuild::repaired_source(
            memory,
            disk,
        ) is Err,
        parse::memory_image(memory) is Err && disk is Some && merge::merged(memory, disk->0) is Ok
            && parse::memory_image(merge::merged(memory, disk->0)->Ok_0) is Ok
            ==> rebuild::repaired_source(memory, disk) is Ok,
{
}

/// A recovered section header holds the length up to the last byte in use and the access that the
/// regions show of the section up to there.
pub proof fn recovered_headers_say_what_regions_show(
    state: Recovery,
    memory: Seq<u8>,
    regions: Seq<RegionEvidence>,
    section: SectionView,
    limit: int,
)
    requires
        state.edit.failure is None,
        0 <= section.header_offset,
        section.header_offset + 40 <= state.edit.bytes.len() <= usize::MAX,
        section.virtual_address < limit <= memory.len() <= u32::MAX,
        bytes::le32(state.edit.bytes, section.header_offset + 8) == section.virtual_size,
        bytes::le32(state.edit.bytes, section.header_offset + 36) == section.characteristics,
    ensures
        ({
            let after = recover::recover_section(state, memory, regions, section, limit);
            let at = section.header_offset;
            let start = section.virtual_address as int;
            let declared = header_facts::taken(section);
            let length = recover::expanded_length(memory, regions, start, limit, declared);
            let end = if start + length < limit {
                start + length
            } else {
                limit
            };
            &&& after.edit.failure is None
            &&& bytes::le32(after.edit.bytes, at + 8) == if length > declared {
                length
            } else {
                section.virtual_size as int
            }
            &&& bytes::le32(after.edit.bytes, at + 36) == recover::recovered_flags(
                section.characteristics,
                regions,
                start,
                end,
            )
            &&& forall|o: int|
                0 <= o < state.edit.bytes.len() && !(at + 8 <= o < at + 12) && !(at + 36 <= o < at
                    + 40) ==> #[trigger] after.edit.bytes[o] == state.edit.bytes[o]
        }),
{
    let at = section.header_offset;
    let start = section.virtual_address as int;
    let declared = header_facts::taken(section);
    assert(declared == section.span());
    let length = recover::expanded_length(memory, regions, start, limit, declared);
    recover::recovery_extends_within_limit(memory, regions, start, limit, declared);
    let longer = recover::recover_length(state, section, length);
    let end = layout::least(start + length, limit);
    let flags = recover::recovered_flags(section.characteristics, regions, start, end);
    if length > declared {
        lemma_put32(state.edit, at + 8, length as u32);
        lemma_same_field(longer.edit.bytes, state.edit.bytes, at + 36);
    }
    if flags != section.characteristics {
        lemma_put32(longer.edit, at + 36, flags);
        lemma_same_field(
            recover::recover_flags(longer, section, flags).edit.bytes,
            longer.edit.bytes,
            at + 8,
        );
    }
}

/// A section is recovered within its memory: up to the next section, and up to the end of what was
/// captured.
pub proof fn recovery_stops_at_the_next_section(
    ordered: Seq<SectionView>,
    index: int,
    memory_size: int,
    address: int,
)
    requires
        0 <= index < ordered.len(),
    ensures
        address < recover::section_limit(ordered, index, memory_size) <==> address < memory_size && (
        index + 1 < ordered.len() ==> address < ordered[index + 1].virtual_address),
{
}

/// A rebuilt image tells of itself what its headers and the plan say: one section more where
/// imports were recovered, how many they are, and what was cleared and removed.
pub proof fn rebuilt_images_tell_of_themselves(
    draft: DraftView,
    model: PeModelView,
    disk_headers_used: bool,
)
    ensures
        ({
            let image = rebuild::rebuilt(draft, model, disk_headers_used, None);
            &&& image is Ok
            &&& image->Ok_0.bytes == draft.bytes
            &&& image->Ok_0.kind == model.kind
            &&& image->Ok_0.is_dll == model.is_dll
            &&& image->Ok_0.salvaged_headers == model.salvaged
            &&& image->Ok_0.disk_headers_used == disk_headers_used
            &&& image->Ok_0.section_count == if draft.plan.groups.len() > 0 {
                model.sections.len() + 1
            } else {
                model.sections.len()
            }
            &&& image->Ok_0.imports_rebuilt == draft.plan.recovered
            &&& image->Ok_0.ambiguous_imports == draft.plan.ambiguous
            &&& image->Ok_0.cleared_directories == draft.cleared_directories
            &&& image->Ok_0.invalid_unwind_entries == draft.invalid_unwind_entries
        }),
        forall|reason: Seq<char>| #[trigger]
            rebuild::rebuilt(draft, model, disk_headers_used, Some(reason)) is Err,
{
}

/// A cleared import directory counts as one more directory, if it was set.
pub proof fn cleared_import_directories_count(
    file: Seq<u8>,
    model: PeModelView,
    plan: PlanView,
)
    requires
        model.directory_count > 1,
    ensures
        ({
            let field = model.nt_offset + 24 + (if model.kind == PeKind::Pe32 {
                96int
            } else {
                112
            }) + 8;
            rebuild::cleared_imports(file, model, plan) == if plan.groups.len() == 0
                && !plan.existing_valid && (bytes::le32(file, field) != 0 || bytes::le32(
                file,
                field + 4,
            ) != 0) {
                1int
            } else {
                0
            }
        }),
{
}

/// Rebuilt files have at most 1 GiB: larger ones are refused before anything is made of them.
pub proof fn large_files_are_refused(model: PeModelView, memory_size: int)
    ensures
        rebuild::file_size(model, memory_size) is Ok ==> rebuild::file_size(
            model,
            memory_size,
        )->Ok_0 <= 0x4000_0000 && rebuild::file_size(model, memory_size)->Ok_0
            == rebuild::header_bytes(model)->Ok_0 + layout::sections_size(model, memory_size),
{
}

/// Fields are written exactly where they fit, and nothing else changes; where they do not, nothing
/// is written.
pub proof fn fields_are_written_where_they_fit(before: Edit, at: int, part: Seq<u8>)
    requires
        before.failure is None,
        0 <= at,
        before.bytes.len() <= usize::MAX,
    ensures
        ({
            let after = before.put(at, part);
            &&& after.failure is None <==> at + part.len() <= before.bytes.len()
            &&& after.bytes.len() == before.bytes.len()
            &&& forall|o: int|
                0 <= o < before.bytes.len() ==> #[trigger] after.bytes[o] == if at <= o < at
                    + part.len() && after.failure is None {
                    part[o - at]
                } else {
                    before.bytes[o]
                }
        }),
{
}

/// The headers count one section more, and the image ends, aligned, behind it.
pub proof fn new_sections_are_counted(before: Edit, model: PeModelView, section: NewSection)
    requires
        before.failure is None,
        model.valid(),
        model.nt_offset + 84 <= before.bytes.len() <= usize::MAX,
        bytes::le16(before.bytes, model.nt_offset + 6) < 0xFFFF,
    ensures
        ({
            let after = import_section::with_one_more_section(before, model.nt_offset + 6);
            &&& after.failure is None
            &&& bytes::le16(after.bytes, model.nt_offset + 6) == bytes::le16(
                before.bytes,
                model.nt_offset + 6,
            ) + 1
            &&& forall|o: int|
                0 <= o < before.bytes.len() && !(model.nt_offset + 6 <= o < model.nt_offset + 8)
                    ==> #[trigger] after.bytes[o] == before.bytes[o]
        }),
        ({
            let after = import_section::with_new_image_size(before, model, section);
            let size = bytes::le32(after.bytes, model.nt_offset + 80) as int;
            let end = section.rva + section.payload.len();
            &&& after.failure is None ==> size % (model.section_alignment as int) == 0 && end
                <= size < end + model.section_alignment
            &&& end + model.section_alignment <= u32::MAX ==> after.failure is None
        }),
{
    let count = bytes::le16(before.bytes, model.nt_offset + 6);
    bytes::written_u16_reads_back(before.bytes, model.nt_offset + 6, (count + 1) as u16);
    let end = section.rva + section.payload.len();
    let size = layout::aligned(end as int, model.section_alignment as int);
    layout::aligned_is_least_multiple(end as int, model.section_alignment as int);
    if size <= u32::MAX {
        lemma_put32(before, model.nt_offset + 80, size as u32);
    }
}

/// The new section's contents stand at its place in the file; what was there before it stays, and
/// zeros fill the gaps.
pub proof fn new_contents_are_appended(file: Seq<u8>, section: NewSection, o: int)
    requires
        file.len() <= section.raw_offset,
        section.payload.len() <= section.raw_size,
        0 <= o < section.raw_offset + section.raw_size,
    ensures
        ({
            let after = import_section::with_contents(file, section);
            &&& after.len() == section.raw_offset + section.raw_size
            &&& after[o] == if o < file.len() {
                file[o]
            } else if section.raw_offset <= o < section.raw_offset + section.payload.len() {
                section.payload[o - section.raw_offset]
            } else {
                0
            }
        }),
{
}

/// An image size that the recovered sections pass is raised to the next multiple of the section
/// alignment; otherwise it stays.
pub proof fn image_sizes_are_raised(state: Recovery, model: PeModelView)
    requires
        state.edit.failure is None,
        model.valid(),
        model.nt_offset + 84 <= state.edit.bytes.len() <= usize::MAX,
        0 <= state.image_end,
        state.image_end + model.section_alignment <= u32::MAX,
    ensures
        ({
            let after = recover::recover_image_size(state, model);
            let size = bytes::le32(after.edit.bytes, model.nt_offset + 80) as int;
            &&& after.edit.failure is None
            &&& state.image_end > model.image_size ==> {
                &&& size % (model.section_alignment as int) == 0
                &&& state.image_end <= size < state.image_end + model.section_alignment
                &&& after.changed
            }
            &&& state.image_end <= model.image_size ==> after.edit.bytes == state.edit.bytes
                && after.changed == state.changed
        }),
{
    layout::aligned_is_least_multiple(state.image_end, model.section_alignment as int);
    let size = layout::aligned(state.image_end, model.section_alignment as int);
    lemma_put32(state.edit, model.nt_offset + 80, size as u32);
}

/// Without regions nothing is recovered, and what is recovered is parsed anew: the bytes of the
/// image and the model that goes with them change together.
pub proof fn recovered_images_are_parsed_anew(
    source: Source,
    regions: Seq<RegionEvidence>,
)
    ensures
        regions.len() == 0 ==> rebuild::recovered_source(source, regions) == Ok::<
            Source,
            Seq<char>,
        >(source),
        rebuild::recovered_source(source, regions) is Ok ==> {
            let after = rebuild::recovered_source(source, regions)->Ok_0;
            &&& after.from_disk == source.from_disk
            &&& after == source || parse::memory_image(after.bytes) == Ok::<
                PeModelView,
                Seq<char>,
            >(after.model)
            &&& recover::recovered_image(source.bytes, source.model, regions) matches Ok(
                Some(bytes),
            ) ==> after.bytes == bytes
        },
{
}

} // verus!
