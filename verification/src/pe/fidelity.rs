//! What a rebuilt file keeps of the image that it is rebuilt from.

use vstd::prelude::*;

use crate::error::AppResult;
use crate::pe::bytes;
use crate::pe::directories::EXCEPTION_DIRECTORY;
use crate::pe::directories;
use crate::pe::exports::AddressMap;
use crate::pe::headers;
use crate::pe::image::Edit;
use crate::pe::import_section::{NewSection, MAX_OUTPUT_SIZE};
use crate::pe::import_section;
use crate::pe::imports::{GroupView, PlanView};
use crate::pe::imports;
use crate::pe::layout::LayoutView;
use crate::pe::layout;
use crate::pe::rebuild::RebuiltImage;
use crate::pe::rebuild;
use crate::pe::{PeKind, PeModelView};

verus! {

/// The file has the bytes of a section at the place that its layout says.
pub open spec fn section_holds(file: Seq<u8>, memory: Seq<u8>, layout: LayoutView) -> bool {
    let start = layout.section.virtual_address as int;
    file.subrange(layout.raw_offset, layout.raw_offset + layout.source_length) == memory.subrange(
        start,
        start + layout.source_length,
    )
}

/// The header of a section says which part of the file is its.
pub open spec fn section_described(file: Seq<u8>, layout: LayoutView) -> bool {
    let at = layout.section.header_offset;
    &&& bytes::le32(file, at + 16) == layout.raw_size
    &&& bytes::le32(file, at + 20) == layout.raw_offset
}

proof fn lemma_section_written(before: Edit, memory: Seq<u8>, layout: LayoutView)
    requires
        rebuild::with_section_data(before, memory, layout).failure is None,
        0 <= layout.section.header_offset,
        0 <= layout.raw_offset <= u32::MAX,
        0 <= layout.raw_size <= u32::MAX,
        0 <= layout.source_length,
        layout.raw_offset + layout.source_length <= before.bytes.len(),
        layout.section.header_offset + 24 <= layout.raw_offset || layout.source_length == 0,
    ensures
        ({
            let after = rebuild::with_section_data(before, memory, layout).bytes;
            let at = layout.section.header_offset;
            &&& before.failure is None
            &&& after.len() == before.bytes.len()
            &&& section_holds(after, memory, layout)
            &&& section_described(after, layout)
            &&& forall|o: int|
                #![trigger after[o]]
                0 <= o < after.len() && !(at + 16 <= o < at + 24) && !(layout.raw_offset <= o
                    < layout.raw_offset + layout.source_length) ==> after[o] == before.bytes[o]
        }),
{
    let at = layout.section.header_offset;
    let sized = before.put32(at + 16, layout.raw_size as u32);
    let placed = sized.put32(at + 20, layout.raw_offset as u32);
    let after = rebuild::with_section_data(before, memory, layout).bytes;
    let start = layout.section.virtual_address as int;
    assert(section_holds(after, memory, layout)) by {
        assert(after.subrange(layout.raw_offset, layout.raw_offset + layout.source_length)
            =~= memory.subrange(start, start + layout.source_length));
    }
    bytes::written_u32_reads_back(before.bytes, at + 16, layout.raw_size as u32);
    bytes::written_u32_reads_back(sized.bytes, at + 20, layout.raw_offset as u32);
    bytes::write_keeps_other_fields(
        sized.bytes,
        at + 20,
        bytes::bytes32(layout.raw_offset as u32),
        at + 16,
    );
    let part = memory.subrange(start, start + layout.source_length);
    if layout.source_length > 0 {
        bytes::write_keeps_other_fields(placed.bytes, layout.raw_offset, part, at + 16);
        bytes::write_keeps_other_fields(placed.bytes, layout.raw_offset, part, at + 20);
    } else {
        assert(after =~= placed.bytes);
    }
}

/// All sections of the list have their bytes in the file, and headers that say where.
pub open spec fn sections_in_place(
    file: Seq<u8>,
    memory: Seq<u8>,
    layouts: Seq<LayoutView>,
    count: nat,
) -> bool {
    forall|i: int|
        #![trigger layouts[i]]
        0 <= i < count ==> section_holds(file, memory, layouts[i]) && section_described(
            file,
            layouts[i],
        )
}

pub(crate) proof fn lemma_sections_in_place(
    before: Edit,
    memory: Seq<u8>,
    model: PeModelView,
    header_size: int,
    count: nat,
)
    requires
        model.valid(),
        model.section_table_end() <= header_size,
        before.bytes.len() == header_size + layout::sections_size(model, memory.len() as int),
        before.bytes.len() <= MAX_OUTPUT_SIZE,
        count <= model.sections.len(),
        rebuild::with_sections_data(
            before,
            memory,
            layout::section_layouts(model, memory.len() as int, header_size),
            count,
        ).failure is None,
    ensures
        ({
            let layouts = layout::section_layouts(model, memory.len() as int, header_size);
            let after = rebuild::with_sections_data(before, memory, layouts, count).bytes;
            &&& before.failure is None
            &&& after.len() == before.bytes.len()
            &&& sections_in_place(after, memory, layouts, count)
            &&& forall|o: int|
                #![trigger after[o]]
                0 <= o < model.section_table_offset() ==> after[o] == before.bytes[o]
        }),
    decreases count,
{
    let size = memory.len() as int;
    let layouts = layout::section_layouts(model, size, header_size);
    if count > 0 {
        let earlier = rebuild::with_sections_data(before, memory, layouts, (count - 1) as nat);
        let after = rebuild::with_sections_data(before, memory, layouts, count).bytes;
        let last = layouts[count - 1];
        assert(earlier.failure is None);
        lemma_sections_in_place(before, memory, model, header_size, (count - 1) as nat);
        layout::layouts_lie_in_the_file(model, size, header_size, count - 1);
        let origin = layout::lemma_ordered_section(model.sections, count - 1);
        assert(last.section == model.sections[origin]);
        lemma_section_written(earlier, memory, last);
        assert forall|i: int| #![trigger layouts[i]] 0 <= i < count implies section_holds(
            after,
            memory,
            layouts[i],
        ) && section_described(after, layouts[i]) by {
            if i < count - 1 {
                lemma_section_survives(earlier.bytes, after, memory, model, header_size, i, count - 1);
            }
        }
    }
}

proof fn lemma_section_survives(
    earlier: Seq<u8>,
    after: Seq<u8>,
    memory: Seq<u8>,
    model: PeModelView,
    header_size: int,
    kept: int,
    written: int,
)
    requires
        model.valid(),
        model.section_table_end() <= header_size,
        0 <= kept < written < model.sections.len(),
        after.len() == earlier.len(),
        earlier.len() == header_size + layout::sections_size(model, memory.len() as int),
        ({
            let layouts = layout::section_layouts(model, memory.len() as int, header_size);
            let last = layouts[written];
            let at = last.section.header_offset;
            &&& section_holds(earlier, memory, layouts[kept])
            &&& section_described(earlier, layouts[kept])
            &&& forall|o: int|
                #![trigger after[o]]
                0 <= o < after.len() && !(at + 16 <= o < at + 24) && !(last.raw_offset <= o
                    < last.raw_offset + last.source_length) ==> after[o] == earlier[o]
        }),
    ensures
        ({
            let layouts = layout::section_layouts(model, memory.len() as int, header_size);
            section_holds(after, memory, layouts[kept]) && section_described(after, layouts[kept])
        }),
{
    let size = memory.len() as int;
    let layouts = layout::section_layouts(model, size, header_size);
    let this = layouts[kept];
    let last = layouts[written];
    layout::layouts_lie_in_the_file(model, size, header_size, kept);
    layout::layouts_lie_in_the_file(model, size, header_size, written);
    layout::ordered_headers_differ(model, kept, written);
    layout::lemma_raw_total_grows(model, size, 0, model.sections.len());
    if this.raw_size > 0 && last.raw_size > 0 {
        layout::layouts_lie_apart(model, size, header_size, kept, written);
    }
    let kept_origin = layout::lemma_ordered_section(model.sections, kept);
    let written_origin = layout::lemma_ordered_section(model.sections, written);
    assert(this.section == model.sections[kept_origin]);
    assert(last.section == model.sections[written_origin]);
    let end = this.raw_offset + this.source_length;
    assert(after.subrange(this.raw_offset, end) =~= earlier.subrange(this.raw_offset, end));
    let at = this.section.header_offset;
    assert forall|o: int| at + 16 <= o < at + 24 implies #[trigger] after[o] == earlier[o] by {}
}

/// The headers say at which address the image was found.
pub open spec fn says_base(file: Seq<u8>, model: PeModelView, base: u64) -> bool {
    match model.kind {
        PeKind::Pe32 => bytes::le32(file, model.image_base_offset()) == base,
        PeKind::Pe32Plus => bytes::le64(file, model.image_base_offset()) == base,
    }
}

/// The headers say how long they are.
pub open spec fn says_header_size(file: Seq<u8>, model: PeModelView, header_size: int) -> bool {
    bytes::le32(file, model.size_of_headers_offset()) == header_size
}

proof fn lemma_long_field_kept(file: Seq<u8>, at: int, part: Seq<u8>, field: int)
    requires
        0 <= at,
        0 <= field,
        at + part.len() <= file.len(),
        field + 8 <= file.len(),
        field + 8 <= at || at + part.len() <= field,
    ensures
        bytes::le64(bytes::splice(file, at, part), field) == bytes::le64(file, field),
{
    bytes::write_keeps_other_fields(file, at, part, field);
    bytes::write_keeps_other_fields(file, at, part, field + 4);
}

proof fn lemma_base_kept(file: Seq<u8>, model: PeModelView, base: u64, at: int, value: u32)
    requires
        model.valid(),
        model.size_of_image_offset() <= at,
        at + 4 <= file.len(),
        says_base(file, model, base),
    ensures
        says_base(bytes::splice(file, at, bytes::bytes32(value)), model, base),
{
    match model.kind {
        PeKind::Pe32 => {
            bytes::write_keeps_other_fields(
                file,
                at,
                bytes::bytes32(value),
                model.image_base_offset(),
            );
        },
        PeKind::Pe32Plus => {
            lemma_long_field_kept(file, at, bytes::bytes32(value), model.image_base_offset());
        },
    }
}

proof fn lemma_layout_fields(file: Seq<u8>, model: PeModelView, base: u64, header_size: int)
    requires
        model.valid(),
        0 <= header_size <= u32::MAX,
        rebuild::with_layout_fields(file, model, base, header_size).failure is None,
    ensures
        ({
            let after = rebuild::with_layout_fields(file, model, base, header_size).bytes;
            &&& after.len() == file.len()
            &&& says_base(after, model, base)
            &&& says_header_size(after, model, header_size)
        }),
{
    let started = Edit::start(file).put16(0, crate::pe::parse::DOS_MAGIC).put32(
        rebuild::DOS_LFANEW_OFFSET as int,
        model.nt_offset as u32,
    );
    let based = headers::with_image_base(started.bytes, model, base);
    assert(started.failure is None);
    assert(based.failure is None);
    match model.kind {
        PeKind::Pe32 => {
            bytes::written_u32_reads_back(started.bytes, model.image_base_offset(), base as u32);
        },
        PeKind::Pe32Plus => {
            bytes::written_u64_reads_back(started.bytes, model.image_base_offset(), base);
        },
    }
    assert(says_base(based.bytes, model, base));
    let image_size = layout::rebuilt_size(model)->Ok_0;
    let sized = based.put32(model.size_of_image_offset(), image_size);
    let limited = sized.put32(model.size_of_headers_offset(), header_size as u32);
    lemma_base_kept(based.bytes, model, base, model.size_of_image_offset(), image_size);
    lemma_base_kept(sized.bytes, model, base, model.size_of_headers_offset(), header_size as u32);
    lemma_base_kept(
        limited.bytes,
        model,
        base,
        model.number_of_directories_offset(),
        model.directory_count as u32,
    );
    bytes::written_u32_reads_back(
        sized.bytes,
        model.size_of_headers_offset(),
        header_size as u32,
    );
    bytes::write_keeps_other_fields(
        limited.bytes,
        model.number_of_directories_offset(),
        bytes::bytes32(model.directory_count as u32),
        model.size_of_headers_offset(),
    );
}

/// The layouts of the sections of an image that is rebuilt.
pub open spec fn layouts_of(memory: Seq<u8>, model: PeModelView) -> Seq<LayoutView> {
    layout::section_layouts(model, memory.len() as int, rebuild::header_bytes(model)->Ok_0)
}

/// The file of an image with its headers and sections, before anything is put in order.
pub open spec fn first_file(memory: Seq<u8>, model: PeModelView, base: u64) -> Edit {
    rebuild::filled_file(
        memory,
        model,
        base,
        rebuild::header_bytes(model)->Ok_0,
        rebuild::file_size(model, memory.len() as int)->Ok_0,
    )
}

pub(crate) proof fn lemma_header_bytes(memory: Seq<u8>, model: PeModelView)
    requires
        model.valid(),
        rebuild::file_size(model, memory.len() as int) is Ok,
    ensures
        rebuild::header_bytes(model) is Ok,
        model.section_table_end() <= rebuild::header_bytes(model)->Ok_0,
        rebuild::header_bytes(model)->Ok_0 <= rebuild::file_size(
            model,
            memory.len() as int,
        )->Ok_0 <= MAX_OUTPUT_SIZE,
{
    layout::aligned_is_least_multiple(model.section_table_end(), model.file_alignment as int);
    layout::lemma_raw_total_grows(model, memory.len() as int, 0, model.sections.len());
}

/// The file with the headers and sections of an image has every section in its place, and says at
/// which address the image was found.
pub proof fn first_files_hold_sections(memory: Seq<u8>, model: PeModelView, base: u64)
    requires
        model.valid(),
        rebuild::file_size(model, memory.len() as int) is Ok,
        first_file(memory, model, base).failure is None,
    ensures
        ({
            let file = first_file(memory, model, base).bytes;
            &&& file.len() == rebuild::file_size(model, memory.len() as int)->Ok_0
            &&& sections_in_place(file, memory, layouts_of(memory, model), model.sections.len())
            &&& says_base(file, model, base)
            &&& says_header_size(file, model, rebuild::header_bytes(model)->Ok_0)
        }),
{
    lemma_header_bytes(memory, model);
    let header_size = rebuild::header_bytes(model)->Ok_0;
    let size = rebuild::file_size(model, memory.len() as int)->Ok_0;
    let blank = rebuild::blank_file(memory, header_size, size);
    let described = rebuild::with_layout_fields(blank, model, base, header_size);
    let file = first_file(memory, model, base).bytes;
    if described.failure is Some {
        lemma_failure_stays(described, memory, layouts_of(memory, model), model.sections.len());
    }
    lemma_layout_fields(blank, model, base, header_size);
    lemma_sections_in_place(described, memory, model, header_size, model.sections.len());
    assert forall|o: int| 0 <= o < model.section_table_offset() implies #[trigger] file[o]
        == described.bytes[o] by {}
}

pub(crate) proof fn lemma_failure_stays(before: Edit, memory: Seq<u8>, layouts: Seq<LayoutView>, count: nat)
    requires
        before.failure is Some,
    ensures
        rebuild::with_sections_data(before, memory, layouts, count).failure is Some,
    decreases count,
{
    if count > 0 {
        lemma_failure_stays(before, memory, layouts, (count - 1) as nat);
    }
}

/// The header byte at `o` may change after the sections are in place.
pub open spec fn rewritten(model: PeModelView, with_imports: bool, o: int) -> bool {
    let optional = model.optional_offset();
    ||| model.nt_offset + 6 <= o < model.nt_offset + 8
    ||| optional + 4 <= o < optional + 24
    ||| optional + 56 <= o < optional + 60
    ||| model.data_directory_offset() <= o < model.directory_at(model.directory_count)
    ||| with_imports && model.section_table_end() <= o < model.section_table_end() + 40
}

/// The part of the file whose unwind entries are packed, if any of them is bad.
pub open spec fn packed_table(
    file: Seq<u8>,
    model: PeModelView,
    layouts: Seq<LayoutView>,
    header_size: int,
) -> Option<(int, int)> {
    let at = model.directory_at(EXCEPTION_DIRECTORY as int);
    if directories::with_valid_exceptions(file, model, layouts, header_size).count > 0 {
        match layout::file_offset(bytes::le32(file, at) as int, layouts, header_size) {
            Some(start) => Some((start, start + bytes::le32(file, at + 4))),
            None => None,
        }
    } else {
        None
    }
}

/// The byte at `o` is outside of the part.
pub open spec fn outside(part: Option<(int, int)>, o: int) -> bool {
    match part {
        Some((from, to)) => !(from <= o < to),
        None => true,
    }
}

pub(crate) proof fn lemma_clearing_keeps(
    file: Seq<u8>,
    model: PeModelView,
    layouts: Seq<LayoutView>,
    header_size: int,
    count: nat,
    o: int,
)
    requires
        model.valid(),
        0 <= o < file.len(),
        count <= model.directory_count,
        !(model.data_directory_offset() <= o < model.directory_at(model.directory_count)),
        directories::without_bad_directories(
            file,
            model,
            layouts,
            header_size,
            count,
        ).edit.failure is None,
    ensures
        ({
            let after = directories::without_bad_directories(
                file,
                model,
                layouts,
                header_size,
                count,
            ).edit.bytes;
            after.len() == file.len() && after[o] == file[o]
        }),
    decreases count,
{
    if count > 0 {
        lemma_clearing_keeps(file, model, layouts, header_size, (count - 1) as nat, o);
    }
}

pub(crate) proof fn lemma_packing_keeps(
    file: Seq<u8>,
    model: PeModelView,
    layouts: Seq<LayoutView>,
    header_size: int,
    o: int,
)
    requires
        model.valid(),
        0 <= o < file.len(),
        !(model.data_directory_offset() <= o < model.directory_at(model.directory_count)),
        directories::with_valid_exceptions(file, model, layouts, header_size).edit.failure is None,
        directories::with_valid_exceptions(file, model, layouts, header_size).count >= 0,
        outside(packed_table(file, model, layouts, header_size), o),
    ensures
        ({
            let after = directories::with_valid_exceptions(
                file,
                model,
                layouts,
                header_size,
            ).edit.bytes;
            after.len() == file.len() && after[o] == file[o]
        }),
{
}

pub(crate) proof fn lemma_section_header_keeps(before: Edit, at: int, section: NewSection, o: int)
    requires
        0 <= at,
        import_section::with_section_header(before, at, section).failure is None,
    ensures
        ({
            let after = import_section::with_section_header(before, at, section).bytes;
            &&& before.failure is None
            &&& after.len() == before.bytes.len()
            &&& 0 <= o < after.len() && !(at <= o < at + 40) ==> after[o] == before.bytes[o]
        }),
{
}

pub(crate) proof fn lemma_one_more_keeps(before: Edit, at: int, o: int)
    requires
        0 <= at,
        import_section::with_one_more_section(before, at).failure is None,
    ensures
        ({
            let after = import_section::with_one_more_section(before, at).bytes;
            &&& before.failure is None
            &&& after.len() == before.bytes.len()
            &&& 0 <= o < after.len() && !(at <= o < at + 2) ==> after[o] == before.bytes[o]
        }),
{
}

pub(crate) proof fn lemma_new_size_keeps(before: Edit, model: PeModelView, section: NewSection, o: int)
    requires
        model.valid(),
        import_section::with_new_image_size(before, model, section).failure is None,
    ensures
        ({
            let after = import_section::with_new_image_size(before, model, section).bytes;
            let at = model.size_of_image_offset();
            &&& before.failure is None
            &&& after.len() == before.bytes.len()
            &&& 0 <= o < after.len() && !(at <= o < at + 4) ==> after[o] == before.bytes[o]
        }),
{
}

pub(crate) proof fn lemma_import_directory_keeps(
    before: Edit,
    model: PeModelView,
    section: NewSection,
    groups: int,
    o: int,
)
    requires
        model.valid(),
        import_section::with_import_directory(before, model, section, groups).failure is None,
    ensures
        ({
            let after = import_section::with_import_directory(before, model, section, groups).bytes;
            &&& before.failure is None
            &&& after.len() == before.bytes.len()
            &&& 0 <= o < after.len() && !(model.data_directory_offset() <= o < model.directory_at(
                model.directory_count,
            )) ==> after[o] == before.bytes[o]
        }),
{
}

pub(crate) proof fn lemma_contents_keep(file: Seq<u8>, model: PeModelView, groups: Seq<GroupView>, o: int)
    requires
        model.valid(),
        import_section::new_section(file, model, groups) is Ok,
    ensures
        ({
            let section = import_section::new_section(file, model, groups)->Ok_0;
            let contents = import_section::with_contents(file, section);
            &&& file.len() <= contents.len() <= MAX_OUTPUT_SIZE
            &&& 0 <= o < file.len() ==> contents[o] == file[o]
        }),
{
    let section = import_section::new_section(file, model, groups)->Ok_0;
    layout::aligned_is_least_multiple(file.len() as int, model.file_alignment as int);
    layout::aligned_is_least_multiple(section.payload.len() as int, model.file_alignment as int);
}

pub(crate) proof fn lemma_import_section_keeps(
    file: Seq<u8>,
    model: PeModelView,
    groups: Seq<GroupView>,
    o: int,
)
    requires
        model.valid(),
        import_section::with_import_section(file, model, groups).failure is None,
    ensures
        ({
            let after = import_section::with_import_section(file, model, groups).bytes;
            &&& file.len() <= after.len() <= MAX_OUTPUT_SIZE
            &&& 0 <= o < file.len() && !rewritten(model, true, o) ==> after[o] == file[o]
        }),
{
    let section = import_section::new_section(file, model, groups)->Ok_0;
    let contents = Edit::start(import_section::with_contents(file, section));
    let headed = import_section::with_section_header(contents, model.section_table_end(), section);
    let counted = import_section::with_one_more_section(headed, model.nt_offset + 6);
    let sized = import_section::with_new_image_size(counted, model, section);
    lemma_import_directory_keeps(sized, model, section, groups.len() as int, o);
    lemma_new_size_keeps(counted, model, section, o);
    lemma_one_more_keeps(headed, model.nt_offset + 6, o);
    lemma_section_header_keeps(contents, model.section_table_end(), section, o);
    lemma_contents_keep(file, model, groups, o);
}

proof fn lemma_plan_keeps(file: Seq<u8>, model: PeModelView, plan: PlanView, o: int)
    requires
        model.valid(),
        0 <= o < file.len(),
        !rewritten(model, plan.groups.len() > 0, o),
        rebuild::with_plan(file, model, plan).failure is None,
    ensures
        ({
            let after = rebuild::with_plan(file, model, plan).bytes;
            file.len() <= after.len() && after[o] == file[o]
        }),
{
    if plan.groups.len() > 0 {
        lemma_import_section_keeps(file, model, plan.groups, o);
    }
}

pub(crate) proof fn lemma_headers_keep(file: Seq<u8>, model: PeModelView, entry_point: Option<u32>, o: int)
    requires
        model.valid(),
        0 <= o < file.len(),
        !(model.optional_offset() + 4 <= o < model.optional_offset() + 24),
        rebuild::with_finished_headers(file, model, entry_point).failure is None,
    ensures
        ({
            let after = rebuild::with_finished_headers(file, model, entry_point).bytes;
            after.len() == file.len() && after[o] == file[o]
        }),
{
}

proof fn lemma_entry_point_reads_back(file: Seq<u8>, model: PeModelView, rva: u32)
    requires
        model.valid(),
        rebuild::with_finished_headers(file, model, Some(rva)).failure is None,
    ensures
        model.executable_rva(rva as int),
        bytes::le32(
            rebuild::with_finished_headers(file, model, Some(rva)).bytes,
            model.entry_point_offset(),
        ) == rva,
{
    let entered = headers::with_entry_point(file, model, Some(rva)).bytes;
    bytes::written_u32_reads_back(file, model.entry_point_offset(), rva);
    let after = rebuild::with_finished_headers(file, model, Some(rva)).bytes;
    let at = model.entry_point_offset();
    assert forall|o: int| at <= o < at + 4 implies #[trigger] after[o] == entered[o] by {}
}

proof fn lemma_offset_is_not_negative(layouts: Seq<LayoutView>, rva: int)
    requires
        forall|i: int| 0 <= i < layouts.len() ==> 0 <= (#[trigger] layouts[i]).raw_offset,
        layout::section_offset(layouts, rva) is Some,
    ensures
        layout::section_offset(layouts, rva)->0 >= 0,
    decreases layouts.len(),
{
    if layouts.len() > 0 {
        assert(layouts.last() == layouts[layouts.len() - 1]);
        if layout::section_offset(layouts.drop_last(), rva) is Some {
            lemma_offset_is_not_negative(layouts.drop_last(), rva);
        }
    }
}

pub(crate) proof fn lemma_bad_entries_are_counted(
    file: Seq<u8>,
    model: PeModelView,
    layouts: Seq<LayoutView>,
    header_size: int,
)
    requires
        forall|i: int| 0 <= i < layouts.len() ==> 0 <= (#[trigger] layouts[i]).raw_offset,
    ensures
        directories::with_valid_exceptions(file, model, layouts, header_size).count >= 0,
{
    let entry_at = model.directory_at(EXCEPTION_DIRECTORY as int);
    let rva = bytes::le32(file, entry_at) as int;
    let size = bytes::le32(file, entry_at + 4) as int;
    if rva != 0 && size != 0 && layout::file_offset(rva, layouts, header_size) is Some {
        let at = layout::file_offset(rva, layouts, header_size)->0;
        if rva >= header_size {
            lemma_offset_is_not_negative(layouts, rva);
        }
        let count = directories::complete_entries(file.len() as int, at, size);
        if at < file.len() {
            assert(at + 12 * count <= file.len());
            directories::kept_entries_are_valid(
                file,
                at,
                model,
                layouts,
                header_size,
                count as nat,
            );
        }
    }
}

/// The file after the directories without data in it are cleared.
pub open spec fn second_file(memory: Seq<u8>, model: PeModelView, base: u64) -> Edit {
    directories::without_bad_directories(
        first_file(memory, model, base).bytes,
        model,
        layouts_of(memory, model),
        rebuild::header_bytes(model)->Ok_0,
        model.directory_count as nat,
    ).edit
}

/// The part of the file whose unwind entries are packed, if any of them is bad.
pub open spec fn packed_part(memory: Seq<u8>, model: PeModelView, base: u64) -> Option<(int, int)> {
    packed_table(
        second_file(memory, model, base).bytes,
        model,
        layouts_of(memory, model),
        rebuild::header_bytes(model)->Ok_0,
    )
}

/// The part of the file whose unwind entries are packed lies behind the headers.
pub open spec fn packed_behind_headers(memory: Seq<u8>, model: PeModelView, base: u64) -> bool {
    match packed_part(memory, model, base) {
        Some((from, _)) => rebuild::header_bytes(model)->Ok_0 <= from,
        None => true,
    }
}

pub(crate) proof fn lemma_layouts_are_placed(memory: Seq<u8>, model: PeModelView)
    requires
        model.valid(),
        rebuild::file_size(model, memory.len() as int) is Ok,
    ensures
        forall|i: int|
            0 <= i < layouts_of(memory, model).len() ==> 0 <= (#[trigger] layouts_of(
                memory,
                model,
            )[i]).raw_offset,
{
    let layouts = layouts_of(memory, model);
    let header_size = rebuild::header_bytes(model)->Ok_0;
    lemma_header_bytes(memory, model);
    assert forall|i: int| 0 <= i < layouts.len() implies 0 <= (#[trigger] layouts[i]).raw_offset by {
        layout::layouts_lie_in_the_file(model, memory.len() as int, header_size, i);
    }
}

/// A rebuilt file keeps every byte of its headers and sections, but for the header fields that
/// are put in order and for unwind entries that are packed.
pub proof fn rebuilt_files_keep_other_bytes(
    memory: Seq<u8>,
    model: PeModelView,
    base: u64,
    addresses: AddressMap,
    entry_point: Option<u32>,
    o: int,
)
    requires
        model.valid(),
        rebuild::drafted(memory, model, base, addresses, entry_point) is Ok,
        0 <= o < first_file(memory, model, base).bytes.len(),
        !rewritten(
            model,
            imports::import_plan(memory, base, model, addresses).groups.len() > 0,
            o,
        ),
        outside(packed_part(memory, model, base), o),
    ensures
        ({
            let draft = rebuild::drafted(memory, model, base, addresses, entry_point)->Ok_0;
            let first = first_file(memory, model, base).bytes;
            first.len() <= draft.bytes.len() && draft.bytes[o] == first[o]
        }),
{
    let layouts = layouts_of(memory, model);
    let header_size = rebuild::header_bytes(model)->Ok_0;
    let first = first_file(memory, model, base).bytes;
    let plan = imports::import_plan(memory, base, model, addresses);
    let second = second_file(memory, model, base);
    let third = directories::with_valid_exceptions(second.bytes, model, layouts, header_size);
    let fourth = rebuild::with_plan(third.edit.bytes, model, plan);
    lemma_layouts_are_placed(memory, model);
    lemma_clearing_keeps(first, model, layouts, header_size, model.directory_count as nat, o);
    lemma_bad_entries_are_counted(second.bytes, model, layouts, header_size);
    lemma_packing_keeps(second.bytes, model, layouts, header_size, o);
    lemma_plan_keeps(third.edit.bytes, model, plan, o);
    lemma_headers_keep(fourth.bytes, model, entry_point, o);
}

pub(crate) proof fn lemma_room_for_imports(
    memory: Seq<u8>,
    model: PeModelView,
    base: u64,
    addresses: AddressMap,
    entry_point: Option<u32>,
)
    requires
        model.valid(),
        rebuild::drafted(memory, model, base, addresses, entry_point) is Ok,
        packed_behind_headers(memory, model, base),
        imports::import_plan(memory, base, model, addresses).groups.len() > 0,
    ensures
        model.section_table_end() + 40 <= rebuild::header_bytes(model)->Ok_0,
{
    let layouts = layouts_of(memory, model);
    let header_size = rebuild::header_bytes(model)->Ok_0;
    let first = first_file(memory, model, base).bytes;
    let second = second_file(memory, model, base).bytes;
    let third = directories::with_valid_exceptions(second, model, layouts, header_size).edit.bytes;
    let at = model.size_of_headers_offset();
    lemma_header_bytes(memory, model);
    first_files_hold_sections(memory, model, base);
    lemma_layouts_are_placed(memory, model);
    lemma_bad_entries_are_counted(second, model, layouts, header_size);
    assert forall|o: int| at <= o < at + 4 implies #[trigger] third[o] == first[o] by {
        lemma_clearing_keeps(first, model, layouts, header_size, model.directory_count as nat, o);
        lemma_packing_keeps(second, model, layouts, header_size, o);
    }
    assert(says_header_size(third, model, header_size));
}

proof fn lemma_data_is_not_rewritten(
    memory: Seq<u8>,
    model: PeModelView,
    base: u64,
    addresses: AddressMap,
    entry_point: Option<u32>,
    o: int,
)
    requires
        model.valid(),
        rebuild::drafted(memory, model, base, addresses, entry_point) is Ok,
        packed_behind_headers(memory, model, base),
        rebuild::header_bytes(model)->Ok_0 <= o,
    ensures
        !rewritten(
            model,
            imports::import_plan(memory, base, model, addresses).groups.len() > 0,
            o,
        ),
{
    lemma_header_bytes(memory, model);
    if imports::import_plan(memory, base, model, addresses).groups.len() > 0 {
        lemma_room_for_imports(memory, model, base, addresses, entry_point);
    }
}

proof fn lemma_section_byte(file: Seq<u8>, memory: Seq<u8>, layout: LayoutView, place: int)
    requires
        section_holds(file, memory, layout),
        0 <= place < layout.source_length,
        0 <= layout.raw_offset,
        layout.raw_offset + layout.source_length <= file.len(),
        layout.section.virtual_address + layout.source_length <= memory.len(),
    ensures
        file[layout.raw_offset + place] == memory[layout.section.virtual_address + place],
{
    let start = layout.section.virtual_address as int;
    assert(file.subrange(layout.raw_offset, layout.raw_offset + layout.source_length)[place]
        == file[layout.raw_offset + place]);
    assert(memory.subrange(start, start + layout.source_length)[place] == memory[start + place]);
}

proof fn lemma_first_file_byte(
    memory: Seq<u8>,
    model: PeModelView,
    base: u64,
    index: int,
    place: int,
)
    requires
        model.valid(),
        rebuild::file_size(model, memory.len() as int) is Ok,
        first_file(memory, model, base).failure is None,
        0 <= index < model.sections.len(),
        0 <= place < layouts_of(memory, model)[index].source_length,
    ensures
        ({
            let layout = layouts_of(memory, model)[index];
            let first = first_file(memory, model, base).bytes;
            let o = layout.raw_offset + place;
            &&& rebuild::header_bytes(model)->Ok_0 <= o < first.len()
            &&& first[o] == memory[layout.section.virtual_address + place]
        }),
{
    let layout = layouts_of(memory, model)[index];
    let header_size = rebuild::header_bytes(model)->Ok_0;
    lemma_header_bytes(memory, model);
    first_files_hold_sections(memory, model, base);
    layout::layouts_lie_in_the_file(model, memory.len() as int, header_size, index);
    lemma_section_byte(first_file(memory, model, base).bytes, memory, layout, place);
}

/// Section data comes from memory: each byte of a section stands in the rebuilt file as it was
/// captured, unless it belongs to unwind entries that are packed.
pub proof fn section_data_comes_from_memory(
    memory: Seq<u8>,
    model: PeModelView,
    base: u64,
    addresses: AddressMap,
    entry_point: Option<u32>,
    index: int,
    place: int,
)
    requires
        model.valid(),
        rebuild::drafted(memory, model, base, addresses, entry_point) is Ok,
        packed_behind_headers(memory, model, base),
        0 <= index < model.sections.len(),
        0 <= place < layouts_of(memory, model)[index].source_length,
        outside(
            packed_part(memory, model, base),
            layouts_of(memory, model)[index].raw_offset + place,
        ),
    ensures
        ({
            let draft = rebuild::drafted(memory, model, base, addresses, entry_point)->Ok_0;
            let layout = layouts_of(memory, model)[index];
            draft.bytes[layout.raw_offset + place] == memory[layout.section.virtual_address + place]
        }),
{
    let o = layouts_of(memory, model)[index].raw_offset + place;
    lemma_first_file_byte(memory, model, base, index, place);
    lemma_data_is_not_rewritten(memory, model, base, addresses, entry_point, o);
    rebuilt_files_keep_other_bytes(memory, model, base, addresses, entry_point, o);
}

/// The section headers of a rebuilt file say where the file has the bytes of the sections.
pub proof fn section_headers_point_to_data(
    memory: Seq<u8>,
    model: PeModelView,
    base: u64,
    addresses: AddressMap,
    entry_point: Option<u32>,
    index: int,
)
    requires
        model.valid(),
        rebuild::drafted(memory, model, base, addresses, entry_point) is Ok,
        packed_behind_headers(memory, model, base),
        0 <= index < model.sections.len(),
    ensures
        section_described(
            rebuild::drafted(memory, model, base, addresses, entry_point)->Ok_0.bytes,
            layouts_of(memory, model)[index],
        ),
{
    let layout = layouts_of(memory, model)[index];
    let first = first_file(memory, model, base).bytes;
    let draft = rebuild::drafted(memory, model, base, addresses, entry_point)->Ok_0;
    let at = layout.section.header_offset;
    lemma_header_bytes(memory, model);
    first_files_hold_sections(memory, model, base);
    let origin = layout::lemma_ordered_section(model.sections, index);
    assert(layout.section == model.sections[origin]);
    assert forall|o: int| at + 16 <= o < at + 24 implies #[trigger] draft.bytes[o] == first[o] by {
        rebuilt_files_keep_other_bytes(memory, model, base, addresses, entry_point, o);
    }
    assert(section_described(first, layout));
}

/// The headers of a rebuilt file say at which address the image was found.
pub proof fn headers_say_the_observed_base(
    memory: Seq<u8>,
    model: PeModelView,
    base: u64,
    addresses: AddressMap,
    entry_point: Option<u32>,
)
    requires
        model.valid(),
        rebuild::drafted(memory, model, base, addresses, entry_point) is Ok,
        packed_behind_headers(memory, model, base),
    ensures
        says_base(
            rebuild::drafted(memory, model, base, addresses, entry_point)->Ok_0.bytes,
            model,
            base,
        ),
{
    let first = first_file(memory, model, base).bytes;
    let draft = rebuild::drafted(memory, model, base, addresses, entry_point)->Ok_0;
    let at = model.image_base_offset();
    let width = model.kind.pointer_width();
    lemma_header_bytes(memory, model);
    first_files_hold_sections(memory, model, base);
    assert forall|o: int| at <= o < at + width implies #[trigger] draft.bytes[o] == first[o] by {
        rebuilt_files_keep_other_bytes(memory, model, base, addresses, entry_point, o);
    }
}

/// A chosen entry point lies in an executable section, and the rebuilt file starts there.
pub proof fn files_start_at_the_chosen_entry_point(
    memory: Seq<u8>,
    model: PeModelView,
    base: u64,
    addresses: AddressMap,
    rva: u32,
)
    requires
        model.valid(),
        rebuild::drafted(memory, model, base, addresses, Some(rva)) is Ok,
    ensures
        model.executable_rva(rva as int),
        bytes::le32(
            rebuild::drafted(memory, model, base, addresses, Some(rva))->Ok_0.bytes,
            model.entry_point_offset(),
        ) == rva,
{
    let layouts = layouts_of(memory, model);
    let header_size = rebuild::header_bytes(model)->Ok_0;
    let plan = imports::import_plan(memory, base, model, addresses);
    let second = second_file(memory, model, base);
    let third = directories::with_valid_exceptions(second.bytes, model, layouts, header_size);
    let fourth = rebuild::with_plan(third.edit.bytes, model, plan);
    lemma_entry_point_reads_back(fourth.bytes, model, rva);
}

proof fn lemma_later_lengths(
    file: Seq<u8>,
    model: PeModelView,
    layouts: Seq<LayoutView>,
    header_size: int,
    plan: PlanView,
    entry_point: Option<u32>,
)
    requires
        model.valid(),
        file.len() <= MAX_OUTPUT_SIZE,
        rebuild::finished_file(file, model, layouts, header_size, plan, entry_point) is Ok,
    ensures
        rebuild::finished_file(
            file,
            model,
            layouts,
            header_size,
            plan,
            entry_point,
        )->Ok_0.bytes.len() <= MAX_OUTPUT_SIZE,
{
    let second = directories::without_bad_directories(
        file,
        model,
        layouts,
        header_size,
        model.directory_count as nat,
    ).edit.bytes;
    let third = directories::with_valid_exceptions(second, model, layouts, header_size).edit.bytes;
    let fourth = rebuild::with_plan(third, model, plan).bytes;
    directories::lemma_clearing_keeps_length(file, model, layouts, header_size, model.directory_count as nat);
    assert(third.len() == second.len());
    if plan.groups.len() > 0 {
        lemma_import_section_keeps(third, model, plan.groups, 0);
    }
    assert(fourth.len() <= MAX_OUTPUT_SIZE);
    assert(rebuild::with_finished_headers(fourth, model, entry_point).bytes.len() == fourth.len());
}

/// No rebuilt file is larger than the limit.
pub proof fn rebuilt_files_are_limited(
    memory: Seq<u8>,
    model: PeModelView,
    base: u64,
    addresses: AddressMap,
    entry_point: Option<u32>,
)
    requires
        model.valid(),
        rebuild::drafted(memory, model, base, addresses, entry_point) is Ok,
    ensures
        rebuild::drafted(memory, model, base, addresses, entry_point)->Ok_0.bytes.len()
            <= MAX_OUTPUT_SIZE,
{
    lemma_header_bytes(memory, model);
    first_files_hold_sections(memory, model, base);
    lemma_later_lengths(
        first_file(memory, model, base).bytes,
        model,
        layouts_of(memory, model),
        rebuild::header_bytes(model)->Ok_0,
        imports::import_plan(memory, base, model, addresses),
        entry_point,
    );
}

/// An image that was rebuilt is the file that its bytes give, and that file can be parsed.
pub proof fn rebuilt_images_can_be_parsed(
    image: AppResult<RebuiltImage>,
    memory: Seq<u8>,
    model: PeModelView,
    disk_headers_used: bool,
    base: u64,
    addresses: AddressMap,
    entry_point: Option<u32>,
)
    requires
        rebuild::rebuilds(
            image,
            memory,
            model,
            disk_headers_used,
            base,
            addresses,
            entry_point,
        ),
        image is Ok,
    ensures
        rebuild::drafted(memory, model, base, addresses, entry_point) is Ok,
        image->Ok_0.bytes@ == rebuild::drafted(
            memory,
            model,
            base,
            addresses,
            entry_point,
        )->Ok_0.bytes,
        rebuild::parsable(image->Ok_0.bytes@),
        image->Ok_0.disk_headers_used == disk_headers_used,
{
}

} // verus!
