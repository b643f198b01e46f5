//! Rebuilding an image that was captured from memory as a file.

use vstd::prelude::*;

use crate::error::{AppError, AppResult};
use crate::error;
use crate::pe::bytes;
use crate::pe::directories::{
    clear_bad_directories, clear_directory, repair_exception_directory, IMPORT_DIRECTORY,
};
use crate::pe::directories;
use crate::pe::exports::{AddressMap, ExportIndex};
use crate::pe::headers::{apply_entry_point, write_derived_header_fields, write_image_base};
use crate::pe::headers;
use crate::pe::image::{overwrite, write_u16, write_u32, Edit};
use crate::pe::image;
use crate::pe::import_section::{append_import_section, push_zeros, MAX_OUTPUT_SIZE};
use crate::pe::import_section;
use crate::pe::imports::{build_plan, ImportPlan, PlanView};
use crate::pe::imports;
use crate::pe::layout::{
    align_up, layout_sections, rebuilt_image_size, LayoutView, SectionLayout,
};
use crate::pe::layout;
use crate::pe::merge::merge_header_evidence;
use crate::pe::merge;
use crate::pe::parse::{parse_memory_image, DOS_MAGIC, NT_SIGNATURE, PE32_MAGIC, PE32_PLUS_MAGIC};
use crate::pe::parse;
use crate::pe::recover::recover_section_headers;
use crate::pe::recover;
use crate::pe::{EntryPointRva, PeImage, PeKind, PeModel, PeModelView, RegionEvidence};
use crate::text::joined;
use crate::text;

verus! {

/// Where the DOS header says where the NT headers are.
pub const DOS_LFANEW_OFFSET: usize = 0x3C;

/// The bytes of the file that the headers take, or why there is no such file.
pub open spec fn header_bytes(model: PeModelView) -> Result<int, Seq<char>> {
    layout::alignment_of(
        model.section_table_end(),
        model.file_alignment as int,
        usize::MAX as int,
    )
}

/// The size of the file without an import section, or why there is no such file.
pub open spec fn file_size(model: PeModelView, memory_size: int) -> Result<int, Seq<char>> {
    match header_bytes(model) {
        Err(message) => Err(message),
        Ok(header_size) => {
            let size = header_size + layout::sections_size(model, memory_size);
            if size > usize::MAX {
                Err("rebuilt section layout overflowed"@)
            } else if size > MAX_OUTPUT_SIZE {
                Err("rebuilt PE exceeds the 1 GiB output safety limit"@)
            } else {
                Ok(size)
            }
        },
    }
}

/// The sum of the parts of the file that sections get.
fn layouts_end(layouts: &Vec<SectionLayout>, header_size: usize, model: &PeModel, memory_size: usize) -> (end:
    usize)
    requires
        layout::layout_views(layouts@) == layout::section_layouts(
            model@,
            memory_size as int,
            header_size as int,
        ),
        header_size + layout::sections_size(model@, memory_size as int) <= usize::MAX,
    ensures
        end == header_size + layout::sections_size(model@, memory_size as int),
{
    proof {
        use_type_invariant(model);
        model.lemma_accepted();
    }
    let ghost ordered = layout::by_address(model@.sections);
    let ghost alignment = model@.file_alignment as int;
    let ghost views = layout::layout_views(layouts@);
    assert(views.len() == layouts@.len());
    let mut end: usize = header_size;
    let mut index: usize = 0;
    while index < layouts.len()
        invariant
            index <= layouts@.len(),
            model@.valid(),
            layouts@.len() == model@.sections.len(),
            ordered == layout::by_address(model@.sections),
            alignment == model@.file_alignment,
            views == layout::layout_views(layouts@),
            views == layout::section_layouts(model@, memory_size as int, header_size as int),
            header_size + layout::sections_size(model@, memory_size as int) <= usize::MAX,
            end == header_size + layout::raw_total(
                ordered,
                memory_size as int,
                alignment,
                index as nat,
            ),
        decreases layouts@.len() - index,
    {
        proof {
            assert(views[index as int] == layouts@[index as int]@);
            layout::lemma_raw_size(model@, memory_size as int, index as int);
            layout::lemma_raw_total_grows(model@, memory_size as int, index as nat, index as nat);
            layout::lemma_raw_total_grows(
                model@,
                memory_size as int,
                (index + 1) as nat,
                model@.sections.len(),
            );
        }
        let stop: usize = layouts[index].raw_offset + layouts[index].raw_size;
        if stop > end {
            end = stop;
        }
        index = index + 1;
    }
    end
}

/// The plan of a file: the bytes of its headers, the layouts of its sections, and its size.
fn plan_file(model: &PeModel, memory_size: usize) -> (plan: AppResult<
    (usize, Vec<SectionLayout>, usize),
>)
    ensures
        match file_size(model@, memory_size as int) {
            Err(message) => error::fails(plan, message),
            Ok(size) => plan is Ok && header_bytes(model@) == Ok::<int, Seq<char>>(
                plan->Ok_0.0 as int,
            ) && layout::layout_views(plan->Ok_0.1@) == layout::section_layouts(
                model@,
                memory_size as int,
                plan->Ok_0.0 as int,
            ) && plan->Ok_0.2 == size,
        },
{
    proof {
        use_type_invariant(model);
        model.lemma_accepted();
    }
    let header_size: usize = align_up(model.section_table_end(), model.file_alignment() as usize)?;
    let layouts: Vec<SectionLayout> = layout_sections(model, memory_size, header_size)?;
    let size: usize = layouts_end(&layouts, header_size, model, memory_size);
    if size > MAX_OUTPUT_SIZE {
        return Err(AppError::fixed("rebuilt PE exceeds the 1 GiB output safety limit"));
    }
    Ok((header_size, layouts, size))
}

/// The size of the file that an image is rebuilt as, before imports are added.
pub fn rebuilt_file_size(image: &PeImage) -> (size: AppResult<usize>)
    ensures
        match file_size(image.headers(), image.data().len() as int) {
            Err(message) => error::fails(size, message),
            Ok(expected) => size is Ok && size->Ok_0 == expected,
        },
{
    let plan: (usize, Vec<SectionLayout>, usize) = plan_file(image.model(), image.bytes().len())?;
    Ok(plan.2)
}

/// The file with a copy of the headers and nothing else.
pub open spec fn blank_file(memory: Seq<u8>, header_size: int, size: int) -> Seq<u8> {
    Seq::new(
        size as nat,
        |i: int|
            if i < header_size && i < memory.len() {
                memory[i]
            } else {
                0
            },
    )
}

/// The file with the header fields that tell how it is laid out.
pub open spec fn with_layout_fields(
    bytes: Seq<u8>,
    model: PeModelView,
    base: u64,
    header_size: int,
) -> Edit {
    let started = Edit::start(bytes).put16(0, DOS_MAGIC).put32(
        DOS_LFANEW_OFFSET as int,
        model.nt_offset as u32,
    );
    let based = if started.failure is Some {
        started
    } else {
        headers::with_image_base(started.bytes, model, base)
    };
    match layout::rebuilt_size(model) {
        Err(message) => based.fail(message),
        Ok(image_size) => based.put32(model.size_of_image_offset(), image_size).put32(
            model.size_of_headers_offset(),
            header_size as u32,
        ).put32(model.number_of_directories_offset(), model.directory_count as u32),
    }
}

/// The file with the place and the bytes of one section.
pub open spec fn with_section_data(before: Edit, memory: Seq<u8>, layout: LayoutView) -> Edit {
    let at = layout.section.header_offset;
    let start = layout.section.virtual_address as int;
    let end = start + layout.source_length;
    let placed = before.put32(at + 16, layout.raw_size as u32).put32(
        at + 20,
        layout.raw_offset as u32,
    );
    if placed.failure is Some {
        placed
    } else if end > memory.len() {
        placed.fail("section source range is outside captured memory"@)
    } else {
        Edit::start(bytes::splice(placed.bytes, layout.raw_offset, memory.subrange(start, end)))
    }
}

/// The file with the first `count` sections.
pub open spec fn with_sections_data(
    before: Edit,
    memory: Seq<u8>,
    layouts: Seq<LayoutView>,
    count: nat,
) -> Edit
    decreases count,
{
    if count == 0 {
        before
    } else {
        with_section_data(
            with_sections_data(before, memory, layouts, (count - 1) as nat),
            memory,
            layouts[count - 1],
        )
    }
}

proof fn lemma_sections_stop(
    before: Edit,
    memory: Seq<u8>,
    layouts: Seq<LayoutView>,
    fewer: nat,
    more: nat,
)
    requires
        fewer <= more,
        with_sections_data(before, memory, layouts, fewer).failure is Some,
    ensures
        with_sections_data(before, memory, layouts, more) == with_sections_data(
            before,
            memory,
            layouts,
            fewer,
        ),
    decreases more,
{
    if fewer < more {
        lemma_sections_stop(before, memory, layouts, fewer, (more - 1) as nat);
    }
}

/// The file with the headers and the sections of the image.
pub open spec fn filled_file(
    memory: Seq<u8>,
    model: PeModelView,
    base: u64,
    header_size: int,
    size: int,
) -> Edit {
    let layouts = layout::section_layouts(model, memory.len() as int, header_size);
    with_sections_data(
        with_layout_fields(blank_file(memory, header_size, size), model, base, header_size),
        memory,
        layouts,
        layouts.len(),
    )
}

/// Writes the header fields that tell how the file is laid out.
fn write_layout_fields(output: &mut Vec<u8>, model: &PeModel, observed_base: u64, header_size: usize) -> (outcome:
    AppResult<()>)
    requires
        header_size <= u32::MAX,
        model@.nt_offset <= u32::MAX,
    ensures
        image::edited(
            outcome,
            final(output)@,
            with_layout_fields(old(output)@, model@, observed_base, header_size as int),
        ),
{
    write_u16(output, 0, DOS_MAGIC)?;
    write_u32(output, DOS_LFANEW_OFFSET, model.nt_offset() as u32)?;
    write_image_base(output, model, observed_base)?;
    let image_size: u32 = rebuilt_image_size(model)?;
    let optional: usize = model.optional_offset();
    write_u32(output, optional + 56, image_size)?;
    write_u32(output, optional + 60, header_size as u32)?;
    write_u32(
        output,
        model.data_directory_offset() - 4,
        model.directory_count() as u32,
    )
}

/// Writes the place and the bytes of one section.
fn write_section_data(output: &mut Vec<u8>, memory: &[u8], layout: &SectionLayout) -> (outcome:
    AppResult<()>)
    requires
        layout.raw_size <= u32::MAX,
        layout.raw_offset <= u32::MAX,
        layout.raw_offset + layout.source_length <= old(output)@.len(),
        layout.model.header_offset + 40 <= usize::MAX,
    ensures
        image::edited(
            outcome,
            final(output)@,
            with_section_data(Edit::start(old(output)@), memory@, layout@),
        ),
        final(output)@.len() == old(output)@.len(),
{
    let at: usize = layout.model.header_offset;
    write_u32(output, at + 16, layout.raw_size as u32)?;
    write_u32(output, at + 20, layout.raw_offset as u32)?;
    let start: usize = layout.model.virtual_address.get() as usize;
    if start > memory.len() || layout.source_length > memory.len() - start {
        return Err(AppError::fixed("section source range is outside captured memory"));
    }
    overwrite(
        output,
        layout.raw_offset,
        vstd::slice::slice_subrange(memory, start, start + layout.source_length),
    );
    Ok(())
}

/// Makes a file with a copy of the headers and nothing else.
fn copy_headers(buffer: Vec<u8>, memory: &[u8], header_size: usize, size: usize) -> (output: Vec<u8>)
    requires
        buffer@.len() == 0,
        header_size <= size,
    ensures
        output@ == blank_file(memory@, header_size as int, size as int),
{
    let copied: usize = if header_size < memory.len() {
        header_size
    } else {
        memory.len()
    };
    let mut output: Vec<u8> = buffer;
    push_zeros(&mut output, size);
    overwrite(&mut output, 0, vstd::slice::slice_subrange(memory, 0, copied));
    assert(output@ =~= blank_file(memory@, header_size as int, size as int));
    output
}

/// The file holds the part of each section.
spec fn parts_fit(layouts: Seq<LayoutView>, size: int) -> bool {
    forall|i: int|
        0 <= i < layouts.len() ==> 0 <= (#[trigger] layouts[i]).raw_offset && 0
            <= layouts[i].source_length <= layouts[i].raw_size && layouts[i].raw_offset
            + layouts[i].raw_size <= size && layouts[i].section.header_offset + 40 <= usize::MAX
}

proof fn lemma_parts_fit(model: PeModelView, memory_size: int, header_size: int)
    requires
        model.valid(),
        0 <= memory_size,
        0 <= header_size,
    ensures
        parts_fit(
            layout::section_layouts(model, memory_size, header_size),
            header_size + layout::sections_size(model, memory_size),
        ),
        0 <= layout::sections_size(model, memory_size),
{
    let layouts = layout::section_layouts(model, memory_size, header_size);
    layout::lemma_raw_total_grows(model, memory_size, 0, model.sections.len());
    assert forall|i: int| 0 <= i < layouts.len() implies 0 <= (#[trigger] layouts[i]).raw_offset
        && 0 <= layouts[i].source_length <= layouts[i].raw_size && layouts[i].raw_offset
        + layouts[i].raw_size <= header_size + layout::sections_size(model, memory_size)
        && layouts[i].section.header_offset + 40 <= usize::MAX by {
        layout::lemma_raw_size(model, memory_size, i);
        layout::lemma_raw_total_grows(model, memory_size, i as nat, i as nat);
        layout::lemma_raw_total_grows(model, memory_size, (i + 1) as nat, model.sections.len());
        let origin = layout::lemma_ordered_section(model.sections, i);
        assert(layouts[i].section == model.sections[origin]);
    }
}

/// Writes the places and the bytes of the sections.
fn write_sections_data(output: &mut Vec<u8>, memory: &[u8], layouts: &Vec<SectionLayout>) -> (outcome:
    AppResult<()>)
    requires
        parts_fit(layout::layout_views(layouts@), old(output)@.len() as int),
        old(output)@.len() <= MAX_OUTPUT_SIZE,
    ensures
        image::edited(
            outcome,
            final(output)@,
            with_sections_data(
                Edit::start(old(output)@),
                memory@,
                layout::layout_views(layouts@),
                layouts@.len(),
            ),
        ),
        final(output)@.len() == old(output)@.len(),
{
    let ghost views = layout::layout_views(layouts@);
    let ghost started = Edit::start(output@);
    let mut index: usize = 0;
    while index < layouts.len()
        invariant
            index <= layouts@.len(),
            views == layout::layout_views(layouts@),
            parts_fit(views, output@.len() as int),
            output@.len() == old(output)@.len(),
            output@.len() <= MAX_OUTPUT_SIZE,
            started == Edit::start(old(output)@),
            with_sections_data(started, memory@, views, index as nat) == Edit::start(output@),
        decreases layouts@.len() - index,
    {
        let layout: SectionLayout = layouts[index];
        proof {
            assert(views[index as int] == layout@);
            if with_sections_data(started, memory@, views, (index + 1) as nat).failure is Some {
                lemma_sections_stop(
                    started,
                    memory@,
                    views,
                    (index + 1) as nat,
                    layouts@.len(),
                );
            }
        }
        write_section_data(output, memory, &layout)?;
        index = index + 1;
    }
    Ok(())
}

proof fn lemma_layout_fields_length(bytes: Seq<u8>, model: PeModelView, base: u64, header_size: int)
    ensures
        with_layout_fields(bytes, model, base, header_size).bytes.len() == bytes.len(),
{
}

/// Writing stops where it has stopped.
proof fn lemma_sections_failed(before: Edit, memory: Seq<u8>, layouts: Seq<LayoutView>, count: nat)
    requires
        before.failure is Some,
    ensures
        with_sections_data(before, memory, layouts, count) == before,
    decreases count,
{
    if count > 0 {
        lemma_sections_failed(before, memory, layouts, (count - 1) as nat);
    }
}

/// Writes the headers and the sections of the image into an empty file.
fn fill_file(
    buffer: Vec<u8>,
    image: &PeImage,
    observed_base: u64,
    header_size: usize,
    layouts: &Vec<SectionLayout>,
    size: usize,
) -> (output: AppResult<Vec<u8>>)
    requires
        buffer@.len() == 0,
        header_bytes(image.headers()) == Ok::<int, Seq<char>>(header_size as int),
        file_size(image.headers(), image.data().len() as int) == Ok::<int, Seq<char>>(size as int),
        layout::layout_views(layouts@) == layout::section_layouts(
            image.headers(),
            image.data().len() as int,
            header_size as int,
        ),
    ensures
        ({
            let expected = filled_file(
                image.data(),
                image.headers(),
                observed_base,
                header_size as int,
                size as int,
            );
            match expected.failure {
                Some(message) => error::fails(output, message),
                None => output is Ok && output->Ok_0@ == expected.bytes && expected.bytes.len()
                    == size,
            }
        }),
{
    let memory: &[u8] = image.bytes();
    let model: &PeModel = image.model();
    let ghost views = layout::layout_views(layouts@);
    let ghost blank = blank_file(memory@, header_size as int, size as int);
    proof {
        use_type_invariant(model);
        model.lemma_accepted();
        layout::aligned_is_least_multiple(
            model@.section_table_end(),
            model@.file_alignment as int,
        );
        lemma_parts_fit(model@, memory@.len() as int, header_size as int);
        lemma_layout_fields_length(blank, model@, observed_base, header_size as int);
        let fields = with_layout_fields(blank, model@, observed_base, header_size as int);
        if fields.failure is Some {
            lemma_sections_failed(fields, memory@, views, views.len());
        }
    }
    let mut output: Vec<u8> = copy_headers(buffer, memory, header_size, size);
    write_layout_fields(&mut output, model, observed_base, header_size)?;
    write_sections_data(&mut output, memory, layouts)?;
    Ok(output)
}

/// A rebuilt file that has not been checked yet.
pub struct Draft {
    pub bytes: Vec<u8>,
    pub cleared_directories: usize,
    pub invalid_unwind_entries: usize,
    pub plan: ImportPlan,
}

/// A rebuilt file that has not been checked yet, seen mathematically.
pub struct DraftView {
    pub bytes: Seq<u8>,
    pub cleared_directories: int,
    pub invalid_unwind_entries: int,
    pub plan: PlanView,
}

impl View for Draft {
    type V = DraftView;

    open spec fn view(&self) -> DraftView {
        DraftView {
            bytes: self.bytes@,
            cleared_directories: self.cleared_directories as int,
            invalid_unwind_entries: self.invalid_unwind_entries as int,
            plan: self.plan@,
        }
    }
}

/// The file with its imports: those that were recovered, or none where the directory is damaged.
pub open spec fn with_plan(bytes: Seq<u8>, model: PeModelView, plan: PlanView) -> Edit {
    if plan.groups.len() > 0 {
        import_section::with_import_section(bytes, model, plan.groups)
    } else if !plan.existing_valid {
        directories::without_directory(bytes, model, IMPORT_DIRECTORY as int)
    } else {
        Edit::start(bytes)
    }
}

/// The import directories that are cleared because nothing was recovered: one or none.
pub open spec fn cleared_imports(bytes: Seq<u8>, model: PeModelView, plan: PlanView) -> int {
    if plan.groups.len() == 0 && !plan.existing_valid && directories::directory_set(
        bytes,
        model,
        IMPORT_DIRECTORY as int,
    ) {
        1
    } else {
        0
    }
}

/// The file after its directories, imports, entry point and sizes are put in order.
pub open spec fn finished_file(
    bytes: Seq<u8>,
    model: PeModelView,
    layouts: Seq<LayoutView>,
    header_size: int,
    plan: PlanView,
    entry_point: Option<u32>,
) -> Result<DraftView, Seq<char>> {
    let mapped = directories::without_bad_directories(
        bytes,
        model,
        layouts,
        header_size,
        model.directory_count as nat,
    );
    if mapped.edit.failure is Some {
        Err(mapped.edit.failure->0)
    } else {
        let unwound = directories::with_valid_exceptions(
            mapped.edit.bytes,
            model,
            layouts,
            header_size,
        );
        if unwound.edit.failure is Some {
            Err(unwound.edit.failure->0)
        } else {
            let imported = with_plan(unwound.edit.bytes, model, plan);
            if imported.failure is Some {
                Err(imported.failure->0)
            } else {
                let finished = with_finished_headers(imported.bytes, model, entry_point);
                if finished.failure is Some {
                    Err(finished.failure->0)
                } else {
                    Ok(
                        DraftView {
                            bytes: finished.bytes,
                            cleared_directories: mapped.count + cleared_imports(
                                unwound.edit.bytes,
                                model,
                                plan,
                            ),
                            invalid_unwind_entries: unwound.count,
                            plan,
                        },
                    )
                }
            }
        }
    }
}

/// The file that an image is rebuilt as, or why there is none.
pub open spec fn drafted(
    memory: Seq<u8>,
    model: PeModelView,
    base: u64,
    addresses: AddressMap,
    entry_point: Option<u32>,
) -> Result<DraftView, Seq<char>> {
    match file_size(model, memory.len() as int) {
        Err(message) => Err(message),
        Ok(size) => {
            let header_size = header_bytes(model)->Ok_0;
            let filled = filled_file(memory, model, base, header_size, size);
            if filled.failure is Some {
                Err(filled.failure->0)
            } else {
                finished_file(
                    filled.bytes,
                    model,
                    layout::section_layouts(model, memory.len() as int, header_size),
                    header_size,
                    imports::import_plan(memory, base, model, addresses),
                    entry_point,
                )
            }
        },
    }
}

/// Clearing counts no more directories than there are.
proof fn lemma_cleared_bound(
    bytes: Seq<u8>,
    model: PeModelView,
    layouts: Seq<LayoutView>,
    header_size: int,
    count: nat,
)
    ensures
        0 <= directories::without_bad_directories(bytes, model, layouts, header_size, count).count
            <= count,
    decreases count,
{
    if count > 0 {
        lemma_cleared_bound(bytes, model, layouts, header_size, (count - 1) as nat);
    }
}

/// Puts the recovered imports into a file. The result counts cleared directories.
fn apply_plan(output: &mut Vec<u8>, model: &PeModel, plan: &ImportPlan) -> (cleared: AppResult<
    usize,
>)
    ensures
        match with_plan(old(output)@, model@, plan@).failure {
            Some(message) => error::fails(cleared, message),
            None => cleared is Ok && cleared->Ok_0 == cleared_imports(old(output)@, model@, plan@)
                && final(output)@ == with_plan(old(output)@, model@, plan@).bytes,
        },
{
    if plan.groups.len() > 0 {
        append_import_section(output, model, plan)?;
        Ok(0)
    } else if !plan.existing_valid {
        clear_directory(output, model, IMPORT_DIRECTORY)
    } else {
        Ok(0)
    }
}

/// The file after its entry point and sizes are put in order.
pub open spec fn with_finished_headers(
    bytes: Seq<u8>,
    model: PeModelView,
    entry_point: Option<u32>,
) -> Edit {
    let entered = headers::with_entry_point(bytes, model, entry_point);
    if entered.failure is Some {
        entered
    } else {
        headers::with_derived_fields(entered.bytes, model)
    }
}

/// Puts the entry point and the sizes of a file in order.
fn finish_headers(output: &mut Vec<u8>, model: &PeModel, entry_point: Option<EntryPointRva>) -> (outcome:
    AppResult<()>)
    ensures
        ({
            let expected = with_finished_headers(
                old(output)@,
                model@,
                headers::chosen_entry_point(entry_point),
            );
            match expected.failure {
                Some(message) => error::fails(outcome, message),
                None => outcome is Ok && final(output)@ == expected.bytes,
            }
        }),
{
    apply_entry_point(output, model, entry_point)?;
    write_derived_header_fields(output, model)
}

/// Puts the directories, imports, entry point and sizes of a file in order.
fn finish_file(
    bytes: Vec<u8>,
    model: &PeModel,
    layouts: &Vec<SectionLayout>,
    header_size: usize,
    plan: ImportPlan,
    entry_point: Option<EntryPointRva>,
) -> (draft: AppResult<Draft>)
    ensures
        error::agrees(
            draft,
            finished_file(
                bytes@,
                model@,
                layout::layout_views(layouts@),
                header_size as int,
                plan@,
                headers::chosen_entry_point(entry_point),
            ),
        ),
{
    proof {
        use_type_invariant(model);
        model.lemma_accepted();
        lemma_cleared_bound(
            bytes@,
            model@,
            layout::layout_views(layouts@),
            header_size as int,
            model@.directory_count as nat,
        );
    }
    let mut output: Vec<u8> = bytes;
    let cleared: usize = clear_bad_directories(&mut output, model, layouts, header_size)?;
    let invalid: usize = repair_exception_directory(&mut output, model, layouts, header_size)?;
    let cleared_by_plan: usize = apply_plan(&mut output, model, &plan)?;
    finish_headers(&mut output, model, entry_point)?;
    Ok(
        Draft {
            bytes: output,
            cleared_directories: cleared + cleared_by_plan,
            invalid_unwind_entries: invalid,
            plan,
        },
    )
}

/// Rebuilds an image in an empty buffer, up to the check of the result.
pub fn assemble(
    buffer: Vec<u8>,
    image: &PeImage,
    observed_base: u64,
    exports: &ExportIndex,
    entry_point: Option<EntryPointRva>,
) -> (draft: AppResult<Draft>)
    requires
        buffer@.len() == 0,
    ensures
        error::agrees(
            draft,
            drafted(
                image.data(),
                image.headers(),
                observed_base,
                exports@.addresses,
                headers::chosen_entry_point(entry_point),
            ),
        ),
{
    let planned: (usize, Vec<SectionLayout>, usize) = plan_file(
        image.model(),
        image.bytes().len(),
    )?;
    let header_size: usize = planned.0;
    let layouts: Vec<SectionLayout> = planned.1;
    let size: usize = planned.2;
    let filled: Vec<u8> = fill_file(
        buffer,
        image,
        observed_base,
        header_size,
        &layouts,
        size,
    )?;
    let plan: ImportPlan = build_plan(image, observed_base, exports);
    finish_file(filled, image.model(), &layouts, header_size, plan, entry_point)
}

/// A rebuilt image, with what was done to it.
#[derive(Debug)]
pub struct RebuiltImage {
    pub bytes: Vec<u8>,
    pub kind: PeKind,
    pub is_dll: bool,
    pub section_count: usize,
    pub salvaged_headers: bool,
    pub disk_headers_used: bool,
    pub cleared_directories: usize,
    pub invalid_unwind_entries: usize,
    pub imports_rebuilt: usize,
    pub ambiguous_imports: usize,
}

/// A rebuilt image, seen mathematically.
pub struct RebuiltView {
    pub bytes: Seq<u8>,
    pub kind: PeKind,
    pub is_dll: bool,
    pub section_count: int,
    pub salvaged_headers: bool,
    pub disk_headers_used: bool,
    pub cleared_directories: int,
    pub invalid_unwind_entries: int,
    pub imports_rebuilt: int,
    pub ambiguous_imports: int,
}

impl View for RebuiltImage {
    type V = RebuiltView;

    open spec fn view(&self) -> RebuiltView {
        RebuiltView {
            bytes: self.bytes@,
            kind: self.kind,
            is_dll: self.is_dll,
            section_count: self.section_count as int,
            salvaged_headers: self.salvaged_headers,
            disk_headers_used: self.disk_headers_used,
            cleared_directories: self.cleared_directories as int,
            invalid_unwind_entries: self.invalid_unwind_entries as int,
            imports_rebuilt: self.imports_rebuilt as int,
            ambiguous_imports: self.ambiguous_imports as int,
        }
    }
}

/// The rebuilt image, if the check of the draft refused nothing.
pub open spec fn rebuilt(
    draft: DraftView,
    model: PeModelView,
    disk_headers_used: bool,
    refusal: Option<Seq<char>>,
) -> Result<RebuiltView, Seq<char>> {
    match refusal {
        Some(reason) => Err(reparse_failure(reason)),
        None => Ok(
            RebuiltView {
                bytes: draft.bytes,
                kind: model.kind,
                is_dll: model.is_dll,
                section_count: model.sections.len() + if draft.plan.groups.len() > 0 {
                    1int
                } else {
                    0
                },
                salvaged_headers: model.salvaged,
                disk_headers_used,
                cleared_directories: draft.cleared_directories,
                invalid_unwind_entries: draft.invalid_unwind_entries,
                imports_rebuilt: draft.plan.recovered,
                ambiguous_imports: draft.plan.ambiguous,
            },
        ),
    }
}

/// Makes the rebuilt image of a draft, unless the check of it gave a reason against it.
pub fn finish_rebuild(
    draft: Draft,
    model: &PeModel,
    disk_headers_used: bool,
    refusal: Option<String>,
) -> (image: AppResult<RebuiltImage>)
    ensures
        error::agrees(
            image,
            rebuilt(draft@, model@, disk_headers_used, text::seen(refusal)),
        ),
{
    proof {
        use_type_invariant(model);
        model.lemma_accepted();
    }
    if let Some(reason) = refusal {
        return Err(
            AppError::new(joined("rebuilt PE failed independent reparse: ", reason.as_str())),
        );
    }
    let sections: usize = model.sections().len();
    let section_count: usize = if draft.plan.groups.len() > 0 {
        sections + 1
    } else {
        sections
    };
    Ok(
        RebuiltImage {
            kind: model.kind(),
            is_dll: model.is_dll(),
            section_count,
            salvaged_headers: model.salvaged(),
            disk_headers_used,
            cleared_directories: draft.cleared_directories,
            invalid_unwind_entries: draft.invalid_unwind_entries,
            imports_rebuilt: draft.plan.recovered,
            ambiguous_imports: draft.plan.ambiguous,
            bytes: draft.bytes,
        },
    )
}

/// What the `pelite` crate says against a file, if it does, where the bytes stand at an address
/// that is divisible by four.
pub uninterp spec fn file_refusal(bytes: Seq<u8>) -> Option<Seq<char>>;

/// The data directories that the optional header at `at` declares, up to sixteen.
pub open spec fn declared_directories(bytes: Seq<u8>, at: int) -> int {
    let declared = if bytes::le16(bytes, at) == PE32_MAGIC {
        bytes::le32(bytes, at + 92)
    } else {
        bytes::le32(bytes, at + 108)
    };
    layout::least(declared as int, 16)
}

/// The headers are those of a file that the `pelite` crate accepts, where its bytes stand at an
/// address that is divisible by four. For both formats there is room for the larger of the two
/// optional headers.
pub open spec fn parsable(bytes: Seq<u8>) -> bool {
    let nt = bytes::le32(bytes, 0x3C);
    let optional = nt + 24;
    let sections = bytes::le16(bytes, nt + 6);
    &&& bytes.len() >= 64
    &&& bytes::le16(bytes, 0) == DOS_MAGIC
    &&& nt % 4 == 0
    &&& nt <= 0x0100_0000
    &&& optional + 112 <= bytes.len()
    &&& bytes::le32(bytes, nt as int) == NT_SIGNATURE
    &&& (bytes::le16(bytes, optional) == PE32_MAGIC || bytes::le16(bytes, optional)
        == PE32_PLUS_MAGIC)
    &&& bytes::le32(bytes, optional + 60) <= bytes.len()
    &&& bytes::le32(bytes, optional + 60) <= bytes::le32(bytes, optional + 56)
    &&& optional + (if bytes::le16(bytes, optional) == PE32_MAGIC {
        96int
    } else {
        112
    }) + 8 * declared_directories(bytes, optional) <= bytes.len()
    &&& sections <= 96
    &&& optional + bytes::le16(bytes, nt + 20) + 40 * sections <= bytes.len()
}

/// `PeFile::from_bytes` of `pelite`: nothing, if it accepts the file, or else the text of its
/// error. The answer depends on the bytes alone, but for one thing: an address that is not
/// divisible by four makes it `address misaligned`, as soon as there are the 64 bytes of a DOS
/// header. It accepts exactly the files with sound headers, unless the address is misaligned.
/// `pelite` looks at the headers through a reference to the 64-bit structure, which asks for an
/// address that is divisible by eight, after a test for four: where the headers stand four bytes
/// off, a `pelite` that was compiled with debug assertions may abort.
#[verifier::external_body]
fn reparse(bytes: &[u8]) -> (refusal: Option<String>)
    ensures
        text::seen(refusal) == file_refusal(bytes@) || (bytes@.len() >= 64
            && text::seen(refusal) == Some("address misaligned"@)),
        refusal is None ==> parsable(bytes@),
        parsable(bytes@) ==> refusal is None || text::seen(refusal) == Some("address misaligned"@),
{
    match pelite::PeFile::from_bytes(bytes) {
        Ok(_) => None,
        Err(error) => Some(format!("{error}")),
    }
}

/// `Vec::try_reserve_exact` of std: tries to make room for so many more bytes, and leaves the
/// contents as they are. Whether there is room is up to the machine.
#[verifier::external_body]
fn try_reserve(bytes: &mut Vec<u8>, additional: usize) -> (done: bool)
    ensures
        final(bytes)@ == old(bytes)@,
{
    bytes.try_reserve_exact(additional).is_ok()
}

/// What is said where there is no room for the file.
pub open spec fn no_room() -> Seq<char> {
    "not enough memory for the rebuilt PE"@
}

/// An empty buffer with room for the file.
fn reserve_output(size: usize) -> (buffer: AppResult<Vec<u8>>)
    ensures
        match buffer {
            Ok(bytes) => bytes@.len() == 0,
            Err(error) => error@ == no_room(),
        },
{
    let mut buffer: Vec<u8> = Vec::new();
    if try_reserve(&mut buffer, size) {
        Ok(buffer)
    } else {
        Err(AppError::fixed("not enough memory for the rebuilt PE"))
    }
}

/// What is said of a file that the check refuses.
pub open spec fn reparse_failure(reason: Seq<char>) -> Seq<char> {
    "rebuilt PE failed independent reparse: "@ + reason
}

/// `image` is what a sound image is rebuilt as: a failure of the rebuilding; or the rebuilt image,
/// where its file can be parsed; or a failure with what the check says against the file. Where the
/// machine has no room, or puts the file at an address that the check does not take, it is a
/// failure that says so.
pub open spec fn rebuilds(
    image: AppResult<RebuiltImage>,
    memory: Seq<u8>,
    model: PeModelView,
    disk_headers_used: bool,
    base: u64,
    addresses: AddressMap,
    entry_point: Option<u32>,
) -> bool {
    match file_size(model, memory.len() as int) {
        Err(message) => error::fails(image, message),
        Ok(_) => error::fails(image, no_room()) || match drafted(
            memory,
            model,
            base,
            addresses,
            entry_point,
        ) {
            Err(message) => error::fails(image, message),
            Ok(draft) => {
                ||| parsable(draft.bytes) && error::agrees(
                    image,
                    rebuilt(draft, model, disk_headers_used, None),
                )
                ||| !parsable(draft.bytes) && file_refusal(draft.bytes) is Some && error::fails(
                    image,
                    reparse_failure(file_refusal(draft.bytes)->0),
                )
                ||| draft.bytes.len() >= 64 && error::fails(
                    image,
                    reparse_failure("address misaligned"@),
                )
            },
        },
    }
}

/// Rebuilds a parsed image.
fn rebuild_image(
    image: &PeImage,
    disk_headers_used: bool,
    observed_base: u64,
    exports: &ExportIndex,
    entry_point: Option<EntryPointRva>,
) -> (result: AppResult<RebuiltImage>)
    ensures
        rebuilds(
            result,
            image.data(),
            image.headers(),
            disk_headers_used,
            observed_base,
            exports@.addresses,
            headers::chosen_entry_point(entry_point),
        ),
{
    let size: usize = rebuilt_file_size(image)?;
    let buffer: Vec<u8> = reserve_output(size)?;
    let draft: Draft = assemble(buffer, image, observed_base, exports, entry_point)?;
    let refusal: Option<String> = reparse(draft.bytes.as_slice());
    finish_rebuild(draft, image.model(), disk_headers_used, refusal)
}

/// Bytes with the model of their headers, and whether those came from a file.
pub struct Source {
    pub bytes: Seq<u8>,
    pub model: PeModelView,
    pub from_disk: bool,
}

/// The image to rebuild: as it was captured, or else with the headers of its file.
pub open spec fn repaired_source(memory: Seq<u8>, disk: Option<Seq<u8>>) -> Result<
    Source,
    Seq<char>,
> {
    match parse::memory_image(memory) {
        Ok(model) => Ok(Source { bytes: memory, model, from_disk: false }),
        Err(memory_error) => match disk {
            None => Err(memory_error),
            Some(disk) => match merge::merged(memory, disk) {
                Err(message) => Err(message),
                Ok(repaired) => match parse::memory_image(repaired) {
                    Err(disk_error) => Err(
                        "memory headers are invalid ("@ + memory_error
                            + "); disk header repair failed ("@ + disk_error + ")"@,
                    ),
                    Ok(model) => Ok(Source { bytes: repaired, model, from_disk: true }),
                },
            },
        },
    }
}

/// The image to rebuild after its section headers are recovered.
pub open spec fn recovered_source(source: Source, regions: Seq<RegionEvidence>) -> Result<
    Source,
    Seq<char>,
> {
    match recover::recovered_image(source.bytes, source.model, regions) {
        Err(message) => Err(message),
        Ok(None) => Ok(source),
        Ok(Some(bytes)) => match parse::memory_image(bytes) {
            Err(message) => Err(
                "memory-region header recovery produced an invalid PE: "@ + message,
            ),
            Ok(model) => Ok(Source { bytes, model, from_disk: source.from_disk }),
        },
    }
}

/// `image` is what the image to rebuild is rebuilt as, after its section headers are recovered.
pub open spec fn rebuilds_source(
    image: AppResult<RebuiltImage>,
    source: Source,
    regions: Seq<RegionEvidence>,
    base: u64,
    addresses: AddressMap,
    entry_point: Option<u32>,
) -> bool {
    match recovered_source(source, regions) {
        Err(message) => error::fails(image, message),
        Ok(recovered) => rebuilds(
            image,
            recovered.bytes,
            recovered.model,
            recovered.from_disk,
            base,
            addresses,
            entry_point,
        ),
    }
}

/// Rebuilds a parsed image after its section headers are recovered.
fn rebuild_recovered(
    image: &PeImage,
    disk_headers_used: bool,
    regions: &[RegionEvidence],
    observed_base: u64,
    exports: &ExportIndex,
    entry_point: Option<EntryPointRva>,
) -> (result: AppResult<RebuiltImage>)
    ensures
        rebuilds_source(
            result,
            (Source {
                bytes: image.data(),
                model: image.headers(),
                from_disk: disk_headers_used,
            }),
            regions@,
            observed_base,
            exports@.addresses,
            headers::chosen_entry_point(entry_point),
        ),
{
    match recover_section_headers(image.bytes(), image.model(), regions)? {
        None => rebuild_image(image, disk_headers_used, observed_base, exports, entry_point),
        Some(bytes) => match parse_memory_image(bytes.as_slice()) {
            Err(error) => Err(
                AppError::new(
                    joined(
                        "memory-region header recovery produced an invalid PE: ",
                        error.message(),
                    ),
                ),
            ),
            Ok(recovered) => rebuild_image(
                &recovered,
                disk_headers_used,
                observed_base,
                exports,
                entry_point,
            ),
        },
    }
}

/// The bytes of an optional slice.
pub open spec fn bytes_view(bytes: Option<&[u8]>) -> Option<Seq<u8>> {
    match bytes {
        Some(bytes) => Some(bytes@),
        None => None,
    }
}

/// Rebuilds a captured image as a file. Damaged headers are taken from the file that it was
/// loaded from, if those are at hand; lengths and access of sections are recovered from the
/// regions, if there are any.
pub fn rebuild(
    memory: &[u8],
    regions: &[RegionEvidence],
    observed_base: u64,
    disk_headers: Option<&[u8]>,
    exports: &ExportIndex,
    entry_point: Option<EntryPointRva>,
) -> (result: AppResult<RebuiltImage>)
    ensures
        match repaired_source(memory@, bytes_view(disk_headers)) {
            Err(message) => error::fails(result, message),
            Ok(source) => rebuilds_source(
                result,
                source,
                regions@,
                observed_base,
                exports@.addresses,
                headers::chosen_entry_point(entry_point),
            ),
        },
{
    match parse_memory_image(memory) {
        Ok(image) => rebuild_recovered(
            &image,
            false,
            regions,
            observed_base,
            exports,
            entry_point,
        ),
        Err(memory_error) => match disk_headers {
            None => Err(memory_error),
            Some(disk) => {
                let repaired: Vec<u8> = merge_header_evidence(memory, disk)?;
                match parse_memory_image(repaired.as_slice()) {
                    Err(disk_error) => {
                        let mut message: String = joined(
                            "memory headers are invalid (",
                            memory_error.message(),
                        );
                        message.append("); disk header repair failed (");
                        message.append(disk_error.message());
                        message.append(")");
                        Err(AppError::new(message))
                    },
                    Ok(image) => rebuild_recovered(
                        &image,
                        true,
                        regions,
                        observed_base,
                        exports,
                        entry_point,
                    ),
                }
            },
        },
    }
}

} // verus!
