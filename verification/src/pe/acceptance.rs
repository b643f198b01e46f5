//! Which rebuilt files the check of the result accepts.

use vstd::prelude::*;

use crate::error;
use crate::error::AppResult;
use crate::pe::bytes;
use crate::pe::directories;
use crate::pe::exports::AddressMap;
use crate::pe::fidelity;
use crate::pe::headers;
use crate::pe::image::Edit;
use crate::pe::import_section;
use crate::pe::imports::{GroupView, PlanView};
use crate::pe::imports;
use crate::pe::layout;
use crate::pe::parse;
use crate::pe::parse::{DOS_MAGIC, NT_SIGNATURE, PE32_MAGIC, PE32_PLUS_MAGIC};
use crate::pe::rebuild;
use crate::pe::rebuild::RebuiltImage;
use crate::pe::{PeKind, PeModelView};

verus! {

/// The magic number of an optional header of this format.
pub open spec fn magic_of(kind: PeKind) -> u16 {
    match kind {
        PeKind::Pe32 => PE32_MAGIC,
        PeKind::Pe32Plus => PE32_PLUS_MAGIC,
    }
}

/// The fields of the headers in `file` that rebuilding does not write are those of the model.
pub open spec fn says_model(file: Seq<u8>, model: PeModelView) -> bool {
    &&& bytes::le32(file, model.nt_offset) == NT_SIGNATURE
    &&& bytes::le16(file, model.optional_offset()) == magic_of(model.kind)
    &&& model.optional_offset() + bytes::le16(file, model.nt_offset + 20)
        == model.section_table_offset()
}

/// The fields that rebuilding writes for the format alone.
pub open spec fn says_format(file: Seq<u8>, model: PeModelView) -> bool {
    &&& bytes::le16(file, 0) == DOS_MAGIC
    &&& bytes::le32(file, 0x3C) == model.nt_offset
    &&& bytes::le32(file, model.number_of_directories_offset()) == model.directory_count
}

/// The headers of a captured image are where its model says, and say what it says.
proof fn lemma_memory_says_model(memory: Seq<u8>)
    requires
        memory.len() <= usize::MAX,
        parse::memory_image(memory) is Ok,
    ensures
        ({
            let model = parse::memory_image(memory)->Ok_0;
            &&& model.valid()
            &&& model.section_table_end() <= memory.len()
            &&& says_model(memory, model)
            &&& bytes::le16(memory, model.nt_offset + 6) == model.sections.len()
        }),
{
    parse::captured_headers_are_sound(memory);
    parse::models_are_read_from_headers(memory);
    let model = parse::memory_image(memory)->Ok_0;
    let nt = model.nt_offset;
    assert(model.sections[0].header_offset == nt + 24 + bytes::le16(memory, nt + 20));
}

/// The layout fields read back, and other header bytes stay.
proof fn lemma_layout_fields_say(file: Seq<u8>, model: PeModelView, base: u64, header_size: int)
    requires
        model.valid(),
        0x40 <= model.nt_offset <= u32::MAX,
        0 <= header_size <= u32::MAX,
        rebuild::with_layout_fields(file, model, base, header_size).failure is None,
    ensures
        ({
            let after = rebuild::with_layout_fields(file, model, base, header_size).bytes;
            let optional = model.optional_offset();
            &&& after.len() == file.len()
            &&& says_format(after, model)
            &&& layout::rebuilt_size(model) == Ok::<u32, Seq<char>>(
                bytes::le32(after, model.size_of_image_offset()),
            )
            &&& forall|o: int|
                #![trigger after[o]]
                model.nt_offset <= o < optional + 24 && o < after.len() ==> after[o] == file[o]
        }),
{
    let magic = Edit::start(file).put16(0, DOS_MAGIC);
    let started = magic.put32(rebuild::DOS_LFANEW_OFFSET as int, model.nt_offset as u32);
    let based = headers::with_image_base(started.bytes, model, base);
    assert(magic.failure is None && started.failure is None && based.failure is None);
    let image_size = layout::rebuilt_size(model)->Ok_0;
    let sized = based.put32(model.size_of_image_offset(), image_size);
    let limited = sized.put32(model.size_of_headers_offset(), header_size as u32);
    let after = limited.put32(
        model.number_of_directories_offset(),
        model.directory_count as u32,
    );
    assert(sized.failure is None && limited.failure is None && after.failure is None);
    assert(after == rebuild::with_layout_fields(file, model, base, header_size));
    let optional = model.optional_offset();
    assert forall|o: int| #![trigger based.bytes[o]] 0 <= o < optional + 24 && o < file.len() implies based.bytes[o]
        == started.bytes[o] by {}
    assert forall|o: int| #![trigger after.bytes[o]] 0 <= o < optional + 24 && o < file.len() implies after.bytes[o]
        == started.bytes[o] by {
        assert(based.bytes[o] == started.bytes[o]);
    }
    bytes::written_u16_reads_back(file, 0, DOS_MAGIC);
    bytes::written_u32_reads_back(magic.bytes, 0x3C, model.nt_offset as u32);
    bytes::written_u32_reads_back(based.bytes, model.size_of_image_offset(), image_size);
    bytes::write_keeps_other_fields(
        sized.bytes,
        model.size_of_headers_offset(),
        bytes::bytes32(header_size as u32),
        model.size_of_image_offset(),
    );
    bytes::write_keeps_other_fields(
        limited.bytes,
        model.number_of_directories_offset(),
        bytes::bytes32(model.directory_count as u32),
        model.size_of_image_offset(),
    );
    bytes::written_u32_reads_back(
        limited.bytes,
        model.number_of_directories_offset(),
        model.directory_count as u32,
    );
    assert(bytes::le16(started.bytes, 0) == DOS_MAGIC);
}

/// What the headers of the file say before its directories are put in order.
proof fn lemma_first_file_says(memory: Seq<u8>, model: PeModelView, base: u64)
    requires
        model.valid(),
        0x40 <= model.nt_offset,
        model.section_table_end() <= memory.len(),
        says_model(memory, model),
        bytes::le16(memory, model.nt_offset + 6) == model.sections.len(),
        rebuild::file_size(model, memory.len() as int) is Ok,
        fidelity::first_file(memory, model, base).failure is None,
    ensures
        ({
            let first = fidelity::first_file(memory, model, base).bytes;
            &&& first.len() == rebuild::file_size(model, memory.len() as int)->Ok_0
            &&& says_format(first, model)
            &&& says_model(first, model)
            &&& fidelity::says_header_size(first, model, rebuild::header_bytes(model)->Ok_0)
            &&& bytes::le16(first, model.nt_offset + 6) == model.sections.len()
            &&& layout::rebuilt_size(model) == Ok::<u32, Seq<char>>(
                bytes::le32(first, model.size_of_image_offset()),
            )
        }),
{
    fidelity::lemma_header_bytes(memory, model);
    fidelity::first_files_hold_sections(memory, model, base);
    let header_size = rebuild::header_bytes(model)->Ok_0;
    let size = rebuild::file_size(model, memory.len() as int)->Ok_0;
    let blank = rebuild::blank_file(memory, header_size, size);
    let described = rebuild::with_layout_fields(blank, model, base, header_size);
    let first = fidelity::first_file(memory, model, base).bytes;
    let layouts = fidelity::layouts_of(memory, model);
    if described.failure is Some {
        fidelity::lemma_failure_stays(described, memory, layouts, model.sections.len());
    }
    lemma_layout_fields_say(blank, model, base, header_size);
    fidelity::lemma_sections_in_place(described, memory, model, header_size, model.sections.len());
    assert forall|o: int| 0 <= o < model.section_table_offset() implies #[trigger] first[o]
        == described.bytes[o] by {}
    let optional = model.optional_offset();
    assert forall|o: int| #![trigger first[o]] model.nt_offset <= o < optional + 24 implies first[o]
        == memory[o] by {
        assert(described.bytes[o] == blank[o]);
    }
}

/// A new section raises the section count by one, and does not lower the image size.
proof fn lemma_import_section_counts(file: Seq<u8>, model: PeModelView, groups: Seq<GroupView>)
    requires
        model.valid(),
        model.section_table_end() <= file.len(),
        import_section::with_import_section(file, model, groups).failure is None,
    ensures
        ({
            let after = import_section::with_import_section(file, model, groups).bytes;
            let at = model.nt_offset + 6;
            &&& bytes::le16(after, at) == bytes::le16(file, at) + 1
            &&& bytes::le32(after, model.size_of_image_offset()) >= bytes::le32(
                file,
                model.size_of_image_offset(),
            )
        }),
{
    let section = import_section::new_section(file, model, groups)->Ok_0;
    let contents = Edit::start(import_section::with_contents(file, section));
    let headed = import_section::with_section_header(contents, model.section_table_end(), section);
    let counted = import_section::with_one_more_section(headed, model.nt_offset + 6);
    let sized = import_section::with_new_image_size(counted, model, section);
    let after = import_section::with_import_section(file, model, groups);
    let at = model.nt_offset + 6;
    let place = model.size_of_image_offset();
    assert(after == import_section::with_import_directory(
        sized,
        model,
        section,
        groups.len() as int,
    ));
    assert forall|o: int| #![trigger after.bytes[o]] 0 <= o < model.data_directory_offset() implies after.bytes[o]
        == sized.bytes[o] by {
        fidelity::lemma_import_directory_keeps(sized, model, section, groups.len() as int, o);
    }
    fidelity::lemma_import_directory_keeps(sized, model, section, groups.len() as int, 0);
    fidelity::lemma_new_size_keeps(counted, model, section, at);
    fidelity::lemma_new_size_keeps(counted, model, section, at + 1);
    fidelity::lemma_one_more_keeps(headed, at, 0);
    fidelity::lemma_section_header_keeps(contents, model.section_table_end(), section, at);
    fidelity::lemma_section_header_keeps(contents, model.section_table_end(), section, at + 1);
    fidelity::lemma_contents_keep(file, model, groups, at);
    fidelity::lemma_contents_keep(file, model, groups, at + 1);
    let count = bytes::le16(headed.bytes, at);
    assert(count == bytes::le16(file, at));
    bytes::written_u16_reads_back(headed.bytes, at, (count + 1) as u16);
    assert(bytes::le16(counted.bytes, at) == count + 1);
    assert(bytes::le16(after.bytes, at) == count + 1);
    let size = layout::aligned(
        section.rva + section.payload.len(),
        model.section_alignment as int,
    );
    layout::aligned_is_least_multiple(
        section.rva + section.payload.len(),
        model.section_alignment as int,
    );
    layout::aligned_is_least_multiple(
        bytes::le32(file, place) as int,
        model.section_alignment as int,
    );
    bytes::written_u32_reads_back(counted.bytes, place, size as u32);
    assert(bytes::le32(after.bytes, place) == size);
}

/// What the headers of a rebuilt file say.
proof fn lemma_draft_says(
    memory: Seq<u8>,
    model: PeModelView,
    base: u64,
    addresses: AddressMap,
    entry_point: Option<u32>,
)
    requires
        memory.len() <= usize::MAX,
        parse::memory_image(memory) == Ok::<PeModelView, Seq<char>>(model),
        0x40 <= model.nt_offset,
        rebuild::drafted(memory, model, base, addresses, entry_point) is Ok,
        fidelity::packed_behind_headers(memory, model, base),
    ensures
        ({
            let draft = rebuild::drafted(memory, model, base, addresses, entry_point)->Ok_0.bytes;
            &&& rebuild::header_bytes(model)->Ok_0 <= draft.len()
            &&& says_format(draft, model)
            &&& says_model(draft, model)
            &&& fidelity::says_header_size(draft, model, rebuild::header_bytes(model)->Ok_0)
        }),
{
    lemma_memory_says_model(memory);
    lemma_first_file_says(memory, model, base);
    fidelity::lemma_header_bytes(memory, model);
    let first = fidelity::first_file(memory, model, base).bytes;
    let draft = rebuild::drafted(memory, model, base, addresses, entry_point)->Ok_0.bytes;
    let optional = model.optional_offset();
    let imported = imports::import_plan(memory, base, model, addresses).groups.len() > 0;
    assert forall|o: int|
        #![trigger draft[o]]
        0 <= o < model.data_directory_offset() && !fidelity::rewritten(
            model,
            imported,
            o,
        ) implies draft[o] == first[o] by {
        fidelity::rebuilt_files_keep_other_bytes(memory, model, base, addresses, entry_point, o);
    }
    fidelity::rebuilt_files_keep_other_bytes(memory, model, base, addresses, entry_point, 0);
    assert(bytes::le16(draft, 0) == bytes::le16(first, 0));
    assert(bytes::le32(draft, 0x3C) == bytes::le32(first, 0x3C));
    assert(bytes::le32(draft, model.nt_offset) == bytes::le32(first, model.nt_offset));
    assert(bytes::le16(draft, model.nt_offset + 20) == bytes::le16(first, model.nt_offset + 20));
    assert(bytes::le16(draft, optional) == bytes::le16(first, optional));
    assert(bytes::le32(draft, model.size_of_headers_offset()) == bytes::le32(
        first,
        model.size_of_headers_offset(),
    ));
    assert(bytes::le32(draft, model.number_of_directories_offset()) == bytes::le32(
        first,
        model.number_of_directories_offset(),
    ));
}

/// The sections of a rebuilt file, and the one for recovered imports, if there are any.
pub open spec fn final_sections(model: PeModelView, plan: PlanView) -> int {
    model.sections.len() + if plan.groups.len() > 0 {
        1int
    } else {
        0
    }
}

proof fn lemma_draft_counts(
    memory: Seq<u8>,
    model: PeModelView,
    base: u64,
    addresses: AddressMap,
    entry_point: Option<u32>,
)
    requires
        memory.len() <= usize::MAX,
        parse::memory_image(memory) == Ok::<PeModelView, Seq<char>>(model),
        0x40 <= model.nt_offset,
        rebuild::drafted(memory, model, base, addresses, entry_point) is Ok,
        fidelity::packed_behind_headers(memory, model, base),
    ensures
        ({
            let draft = rebuild::drafted(memory, model, base, addresses, entry_point)->Ok_0.bytes;
            let plan = imports::import_plan(memory, base, model, addresses);
            &&& bytes::le16(draft, model.nt_offset + 6) == final_sections(model, plan)
            &&& layout::rebuilt_size(model) is Ok
            &&& layout::rebuilt_size(model)->Ok_0 <= bytes::le32(
                draft,
                model.size_of_image_offset(),
            )
            &&& model.section_table_offset() + 40 * final_sections(model, plan)
                <= rebuild::header_bytes(model)->Ok_0
        }),
{
    lemma_memory_says_model(memory);
    lemma_first_file_says(memory, model, base);
    fidelity::lemma_header_bytes(memory, model);
    fidelity::lemma_layouts_are_placed(memory, model);
    let layouts = fidelity::layouts_of(memory, model);
    let header_size = rebuild::header_bytes(model)->Ok_0;
    let first = fidelity::first_file(memory, model, base).bytes;
    let plan = imports::import_plan(memory, base, model, addresses);
    let second = fidelity::second_file(memory, model, base).bytes;
    let third = directories::with_valid_exceptions(second, model, layouts, header_size).edit.bytes;
    let fourth = rebuild::with_plan(third, model, plan).bytes;
    let draft = rebuild::drafted(memory, model, base, addresses, entry_point)->Ok_0.bytes;
    fidelity::lemma_bad_entries_are_counted(second, model, layouts, header_size);
    assert forall|o: int|
        #![trigger third[o]]
        0 <= o < model.data_directory_offset() implies third.len() == first.len() && third[o]
        == first[o] by {
        fidelity::lemma_clearing_keeps(
            first,
            model,
            layouts,
            header_size,
            model.directory_count as nat,
            o,
        );
        fidelity::lemma_packing_keeps(second, model, layouts, header_size, o);
    }
    assert(third[0] == first[0]);
    if plan.groups.len() > 0 {
        fidelity::lemma_room_for_imports(memory, model, base, addresses, entry_point);
        lemma_import_section_counts(third, model, plan.groups);
        fidelity::lemma_import_section_keeps(third, model, plan.groups, 0);
    } else {
        assert forall|o: int|
            #![trigger fourth[o]]
            0 <= o < model.data_directory_offset() implies fourth[o] == third[o] by {}
        assert(fourth.len() == third.len());
    }
    assert forall|o: int|
        #![trigger draft[o]]
        0 <= o < fourth.len() && !(model.optional_offset() + 4 <= o < model.optional_offset()
            + 24) implies draft[o] == fourth[o] by {
        fidelity::lemma_headers_keep(fourth, model, entry_point, o);
    }
    let at = model.nt_offset + 6;
    let place = model.size_of_image_offset();
    assert(bytes::le16(draft, at) == bytes::le16(fourth, at));
    assert(bytes::le32(draft, place) == bytes::le32(fourth, place));
    assert(bytes::le16(third, at) == bytes::le16(first, at));
    assert(bytes::le32(third, place) == bytes::le32(first, place));
}

/// A rebuilt file whose headers stand behind the DOS header can be parsed exactly if they stand at
/// an address that is divisible by four and not too far away, if it has no more than 96 sections,
/// and if its headers are not larger than the image. Its image size holds all sections.
pub proof fn sound_files_can_be_parsed(
    memory: Seq<u8>,
    model: PeModelView,
    base: u64,
    addresses: AddressMap,
    entry_point: Option<u32>,
)
    requires
        memory.len() <= usize::MAX,
        parse::memory_image(memory) == Ok::<PeModelView, Seq<char>>(model),
        0x40 <= model.nt_offset,
        rebuild::drafted(memory, model, base, addresses, entry_point) is Ok,
        fidelity::packed_behind_headers(memory, model, base),
    ensures
        ({
            let draft = rebuild::drafted(memory, model, base, addresses, entry_point)->Ok_0;
            let image_size = bytes::le32(draft.bytes, model.size_of_image_offset());
            &&& rebuild::parsable(draft.bytes) <==> {
                &&& model.nt_offset % 4 == 0
                &&& model.nt_offset <= 0x0100_0000
                &&& final_sections(model, draft.plan) <= 96
                &&& rebuild::header_bytes(model)->Ok_0 <= image_size
            }
            &&& layout::rebuilt_size(model)->Ok_0 <= image_size
        }),
{
    lemma_memory_says_model(memory);
    fidelity::lemma_header_bytes(memory, model);
    lemma_draft_says(memory, model, base, addresses, entry_point);
    lemma_draft_counts(memory, model, base, addresses, entry_point);
    let draft = rebuild::drafted(memory, model, base, addresses, entry_point)->Ok_0;
    assert(draft.plan == imports::import_plan(memory, base, model, addresses));
    assert(rebuild::declared_directories(draft.bytes, model.optional_offset())
        == model.directory_count);
}

/// A sound image is rebuilt, wherever the machine has room for the file and puts it at an address
/// that is divisible by four.
pub proof fn sound_images_are_rebuilt(
    image: AppResult<RebuiltImage>,
    memory: Seq<u8>,
    model: PeModelView,
    disk_headers_used: bool,
    base: u64,
    addresses: AddressMap,
    entry_point: Option<u32>,
)
    requires
        memory.len() <= usize::MAX,
        parse::memory_image(memory) == Ok::<PeModelView, Seq<char>>(model),
        0x40 <= model.nt_offset <= 0x0100_0000,
        model.nt_offset % 4 == 0,
        rebuild::drafted(memory, model, base, addresses, entry_point) is Ok,
        fidelity::packed_behind_headers(memory, model, base),
        final_sections(model, imports::import_plan(memory, base, model, addresses)) <= 96,
        rebuild::header_bytes(model)->Ok_0 <= layout::rebuilt_size(model)->Ok_0,
        rebuild::rebuilds(
            image,
            memory,
            model,
            disk_headers_used,
            base,
            addresses,
            entry_point,
        ),
    ensures
        image is Ok || error::fails(image, rebuild::no_room()) || error::fails(
            image,
            rebuild::reparse_failure("address misaligned"@),
        ),
        image is Ok ==> image->Ok_0.bytes@ == rebuild::drafted(
            memory,
            model,
            base,
            addresses,
            entry_point,
        )->Ok_0.bytes,
{
    sound_files_can_be_parsed(memory, model, base, addresses, entry_point);
    let draft = rebuild::drafted(memory, model, base, addresses, entry_point)->Ok_0;
    assert(draft.plan == imports::import_plan(memory, base, model, addresses));
    assert(rebuild::parsable(draft.bytes));
}

} // verus!
