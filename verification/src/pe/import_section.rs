//! The section that holds recovered imports.

use vstd::prelude::*;

use crate::error::{AppError, AppResult};
use crate::error;
use crate::pe::bytes;
use crate::pe::directories::{clear_directory, write_directory, IAT_DIRECTORY, IMPORT_DIRECTORY};
use crate::pe::directories;
use crate::pe::image::{overwrite, read_u16, read_u32, write_u16, write_u32, write_u64, Edit};
use crate::pe::image;
use crate::pe::imports::{
    pointer_width, EntryView, GroupView, ImportEntry, ImportGroup, ImportPlan,
    IMPORT_DESCRIPTOR_SIZE,
};
use crate::pe::imports;
use crate::pe::layout::{align_up, align_up_u64};
use crate::pe::layout;
use crate::pe::{PeKind, PeModel, PeModelView, SECTION_HEADER_SIZE};
use crate::text::{chars_of, code_of};

verus! {

/// The flags of the new section: initialized data that can be read and written.
pub const MEMPE_IMPORT_CHARACTERISTICS: u32 = 0xC000_0040;

/// The largest file that is made.
pub const MAX_OUTPUT_SIZE: usize = 0x4000_0000;

/// `count` zeros.
pub open spec fn zeros(count: nat) -> Seq<u8> {
    Seq::new(count, |i: int| 0u8)
}

/// Appends zeros.
pub fn push_zeros(bytes: &mut Vec<u8>, count: usize)
    ensures
        final(bytes)@ == old(bytes)@ + zeros(count as nat),
{
    let ghost before = bytes@;
    let mut index: usize = 0;
    assert(before + zeros(0) =~= before);
    while index < count
        invariant
            index <= count,
            bytes@ == before + zeros(index as nat),
        decreases count - index,
    {
        bytes.push(0);
        index = index + 1;
        assert(bytes@ =~= before + zeros(index as nat));
    }
}

/// The zeros that bring `length` to a multiple of `alignment`.
pub open spec fn padding(length: int, alignment: int) -> int {
    (alignment - length % alignment) % alignment
}

/// Brings the length to a multiple of the alignment, with zeros.
pub fn align_vec(bytes: &mut Vec<u8>, alignment: usize)
    requires
        alignment > 0,
    ensures
        final(bytes)@ == old(bytes)@ + zeros(
            padding(old(bytes)@.len() as int, alignment as int) as nat,
        ),
{
    let count: usize = (alignment - bytes.len() % alignment) % alignment;
    push_zeros(bytes, count);
}

/// What is said of a name that an import cannot have.
pub open spec fn name_refusal() -> Seq<char> {
    "import name is not valid ASCII"@
}

/// A name that an import can have: ASCII, not empty, and without a zero.
pub open spec fn importable(name: Seq<char>) -> bool {
    &&& name.len() > 0
    &&& forall|i: int| 0 <= i < name.len() ==> 0 < (#[trigger] name[i]) as int && (name[i] as int)
        < 0x80
}

/// The zero-terminated bytes of a name.
pub open spec fn terminated_name(name: Seq<char>) -> Seq<u8> {
    name.map_values(|letter: char| letter as u8).push(0)
}

/// Appends a name with its terminating zero.
pub fn append_ascii(bytes: &mut Vec<u8>, value: &str) -> (outcome: AppResult<()>)
    ensures
        importable(value@) ==> outcome is Ok && final(bytes)@ == old(bytes)@ + terminated_name(
            value@,
        ),
        !importable(value@) ==> error::fails(outcome, name_refusal()) && final(bytes)@ == old(
            bytes,
        )@,
{
    let letters: Vec<char> = chars_of(value);
    if letters.len() == 0 {
        return Err(AppError::fixed("import name is not valid ASCII"));
    }
    let mut index: usize = 0;
    while index < letters.len()
        invariant
            index <= letters@.len(),
            letters@ == value@,
            bytes@ == old(bytes)@,
            forall|i: int|
                0 <= i < index ==> 0 < (#[trigger] value@[i]) as int && (value@[i] as int) < 0x80,
        decreases letters@.len() - index,
    {
        let code: u64 = code_of(letters[index]);
        if code == 0 || code >= 0x80 {
            assert(!(0 < (value@[index as int]) as int && (value@[index as int] as int) < 0x80));
            return Err(AppError::fixed("import name is not valid ASCII"));
        }
        index = index + 1;
    }
    let ghost before = bytes@;
    let mut place: usize = 0;
    assert(before + value@.take(0).map_values(|letter: char| letter as u8) =~= before);
    while place < letters.len()
        invariant
            place <= letters@.len(),
            letters@ == value@,
            importable(value@),
            bytes@ == before + value@.take(place as int).map_values(|letter: char| letter as u8),
        decreases letters@.len() - place,
    {
        bytes.push(letters[place] as u8);
        place = place + 1;
        assert(bytes@ =~= before + value@.take(place as int).map_values(
            |letter: char| letter as u8,
        ));
    }
    assert(value@.take(place as int) =~= value@);
    bytes.push(0);
    assert(bytes@ =~= before + terminated_name(value@));
    Ok(())
}

/// The bytes with one thunk written.
pub open spec fn with_thunk(before: Edit, at: int, kind: PeKind, value: u64) -> Edit {
    match kind {
        PeKind::Pe32 => if value > u32::MAX {
            before.fail("PE32 import thunk exceeds u32"@)
        } else {
            before.put32(at, value as u32)
        },
        PeKind::Pe32Plus => before.put64(at, value),
    }
}

/// Writes a thunk.
pub fn write_thunk(bytes: &mut [u8], offset: usize, kind: PeKind, value: u64) -> (outcome: AppResult<
    (),
>)
    ensures
        image::edited(
            outcome,
            final(bytes)@,
            with_thunk(Edit::start(old(bytes)@), offset as int, kind, value),
        ),
{
    match kind {
        PeKind::Pe32 => {
            if value > u32::MAX as u64 {
                return Err(AppError::fixed("PE32 import thunk exceeds u32"));
            }
            write_u32(bytes, offset, value as u32)
        },
        PeKind::Pe32Plus => write_u64(bytes, offset, value),
    }
}

/// The payload with zeros up to a multiple of `alignment`.
pub open spec fn with_padding(before: Edit, alignment: int) -> Edit {
    if before.failure is Some {
        before
    } else {
        Edit::start(
            before.bytes + zeros(padding(before.bytes.len() as int, alignment) as nat),
        )
    }
}

/// The payload with more bytes at its end.
pub open spec fn with_bytes(before: Edit, part: Seq<u8>) -> Edit {
    if before.failure is Some {
        before
    } else {
        Edit::start(before.bytes + part)
    }
}

/// The payload with a name at its end.
pub open spec fn with_name(before: Edit, name: Seq<char>) -> Edit {
    if before.failure is None && !importable(name) {
        before.fail(name_refusal())
    } else {
        with_bytes(before, terminated_name(name))
    }
}

/// The thunk for an import by ordinal.
pub open spec fn ordinal_thunk(kind: PeKind, ordinal: u32) -> u64 {
    imports::ordinal_flag(kind) | (ordinal & 0xFFFF) as u64
}

/// The payload with one import: its name behind a hint of zero, and its thunk at `at`.
pub open spec fn with_import(
    before: Edit,
    kind: PeKind,
    section_rva: u32,
    at: int,
    entry: EntryView,
) -> Edit {
    match entry.name {
        Some(name) => {
            let aligned = with_padding(before, 2);
            let named = with_name(with_bytes(aligned, seq![0u8, 0u8]), name);
            let address = section_rva + aligned.bytes.len();
            if named.failure is Some {
                named
            } else if address > u64::MAX {
                named.fail("import name RVA overflowed"@)
            } else {
                with_thunk(named, at, kind, address as u64)
            }
        },
        None => with_thunk(before, at, kind, ordinal_thunk(kind, entry.ordinal)),
    }
}

/// The payload with the first `count` imports of a group whose lookup table is at `lookup`.
pub open spec fn with_imports(
    before: Edit,
    kind: PeKind,
    section_rva: u32,
    lookup: int,
    entries: Seq<EntryView>,
    count: nat,
) -> Edit
    decreases count,
{
    if count == 0 {
        before
    } else {
        let earlier = with_imports(
            before,
            kind,
            section_rva,
            lookup,
            entries,
            (count - 1) as nat,
        );
        if earlier.failure is Some {
            earlier
        } else {
            with_import(
                earlier,
                kind,
                section_rva,
                lookup + (count - 1) * kind.pointer_width(),
                entries[count - 1],
            )
        }
    }
}

/// The payload with an address of the section written at `at`.
pub open spec fn with_address(
    before: Edit,
    at: int,
    section_rva: u32,
    offset: int,
    too_far: Seq<char>,
    overflow: Seq<char>,
) -> Edit {
    if before.failure is Some {
        before
    } else if offset > u32::MAX {
        before.fail(too_far)
    } else if section_rva + offset > u32::MAX {
        before.fail(overflow)
    } else {
        before.put32(at, (section_rva + offset) as u32)
    }
}

/// The payload with the descriptor of a group written at `at`.
pub open spec fn with_descriptor(
    before: Edit,
    at: int,
    section_rva: u32,
    lookup: int,
    module: int,
    first_thunk: u32,
) -> Edit {
    with_address(
        with_address(
            before,
            at,
            section_rva,
            lookup,
            "import lookup-table offset exceeds u32"@,
            "import lookup-table RVA overflowed"@,
        ),
        at + 12,
        section_rva,
        module,
        "import module offset exceeds u32"@,
        "import module RVA overflowed"@,
    ).put32(at + 16, first_thunk)
}

/// The payload with one group: its lookup table, its names, and its descriptor.
pub open spec fn with_group(
    before: Edit,
    kind: PeKind,
    section_rva: u32,
    index: int,
    group: GroupView,
) -> Edit {
    let width = kind.pointer_width();
    let aligned = with_padding(before, width);
    let lookup = aligned.bytes.len() as int;
    let size = (group.entries.len() + 1) * width;
    if before.failure is Some {
        before
    } else if size > usize::MAX {
        aligned.fail("import lookup-table size overflowed"@)
    } else {
        let listed = with_imports(
            with_bytes(aligned, zeros(size as nat)),
            kind,
            section_rva,
            lookup,
            group.entries,
            group.entries.len(),
        );
        with_descriptor(
            with_name(listed, group.module),
            IMPORT_DESCRIPTOR_SIZE * index,
            section_rva,
            lookup,
            listed.bytes.len() as int,
            group.first_thunk,
        )
    }
}

/// The payload with the first `count` groups.
pub open spec fn with_groups(
    groups: Seq<GroupView>,
    kind: PeKind,
    section_rva: u32,
    count: nat,
) -> Edit
    decreases count,
{
    if count == 0 {
        Edit::start(zeros(IMPORT_DESCRIPTOR_SIZE as nat * (groups.len() + 1)))
    } else {
        with_group(
            with_groups(groups, kind, section_rva, (count - 1) as nat),
            kind,
            section_rva,
            count - 1,
            groups[count - 1],
        )
    }
}

/// The contents of the section: descriptors with a zero one at their end, then the lookup tables
/// and the names of each group.
pub open spec fn payload(groups: Seq<GroupView>, kind: PeKind, section_rva: u32) -> Result<
    Seq<u8>,
    Seq<char>,
> {
    let built = with_groups(groups, kind, section_rva, groups.len());
    if IMPORT_DESCRIPTOR_SIZE * (groups.len() + 1) > usize::MAX {
        Err("import descriptor size overflowed"@)
    } else {
        match built.failure {
            Some(message) => Err(message),
            None => Ok(built.bytes),
        }
    }
}

/// Adds one import to the payload.
fn append_import(
    payload: &mut Vec<u8>,
    kind: PeKind,
    section_rva: u32,
    at: usize,
    entry: &ImportEntry,
) -> (outcome: AppResult<()>)
    ensures
        image::edited(
            outcome,
            final(payload)@,
            with_import(Edit::start(old(payload)@), kind, section_rva, at as int, entry@),
        ),
{
    match &entry.name {
        Some(name) => {
            align_vec(payload, 2);
            let name_offset: usize = payload.len();
            let ghost aligned = payload@;
            payload.push(0);
            payload.push(0);
            assert(payload@ =~= aligned + seq![0u8, 0u8]);
            append_ascii(payload, name.as_str())?;
            match (section_rva as u64).checked_add(name_offset as u64) {
                None => Err(AppError::fixed("import name RVA overflowed")),
                Some(address) => write_thunk(payload, at, kind, address),
            }
        },
        None => {
            let flag: u64 = match kind {
                PeKind::Pe32 => 0x8000_0000,
                PeKind::Pe32Plus => 0x8000_0000_0000_0000,
            };
            let thunk: u64 = flag | (entry.ordinal & 0xFFFF) as u64;
            write_thunk(payload, at, kind, thunk)
        },
    }
}

proof fn lemma_imports_stop(
    before: Edit,
    kind: PeKind,
    section_rva: u32,
    lookup: int,
    entries: Seq<EntryView>,
    fewer: nat,
    more: nat,
)
    requires
        fewer <= more,
        with_imports(before, kind, section_rva, lookup, entries, fewer).failure is Some,
    ensures
        with_imports(before, kind, section_rva, lookup, entries, more) == with_imports(
            before,
            kind,
            section_rva,
            lookup,
            entries,
            fewer,
        ),
    decreases more,
{
    if fewer < more {
        lemma_imports_stop(before, kind, section_rva, lookup, entries, fewer, (more - 1) as nat);
    }
}

proof fn lemma_groups_stop(
    groups: Seq<GroupView>,
    kind: PeKind,
    section_rva: u32,
    fewer: nat,
    more: nat,
)
    requires
        fewer <= more,
        with_groups(groups, kind, section_rva, fewer).failure is Some,
    ensures
        with_groups(groups, kind, section_rva, more) == with_groups(
            groups,
            kind,
            section_rva,
            fewer,
        ),
    decreases more,
{
    if fewer < more {
        lemma_groups_stop(groups, kind, section_rva, fewer, (more - 1) as nat);
    }
}

/// Adds the imports of a group whose lookup table is at `lookup`.
fn append_imports(
    payload: &mut Vec<u8>,
    kind: PeKind,
    section_rva: u32,
    lookup: usize,
    entries: &Vec<ImportEntry>,
) -> (outcome: AppResult<()>)
    requires
        lookup + (entries@.len() + 1) * kind.pointer_width() <= usize::MAX,
    ensures
        image::edited(
            outcome,
            final(payload)@,
            with_imports(
                Edit::start(old(payload)@),
                kind,
                section_rva,
                lookup as int,
                imports::entry_views(entries@),
                entries@.len(),
            ),
        ),
{
    let width: usize = pointer_width(kind);
    let ghost start = Edit::start(payload@);
    let ghost views = imports::entry_views(entries@);
    let mut index: usize = 0;
    while index < entries.len()
        invariant
            index <= entries@.len(),
            width == kind.pointer_width(),
            lookup + (entries@.len() + 1) * width <= usize::MAX,
            views == imports::entry_views(entries@),
            start == Edit::start(old(payload)@),
            with_imports(start, kind, section_rva, lookup as int, views, index as nat)
                == Edit::start(payload@),
        decreases entries@.len() - index,
    {
        proof {
            assert(views[index as int] == entries@[index as int]@);
            assert(index * width <= (entries@.len() + 1) * width) by (nonlinear_arith)
                requires
                    index <= entries@.len(),
                    width >= 0,
            ;
            if with_imports(
                start,
                kind,
                section_rva,
                lookup as int,
                views,
                (index + 1) as nat,
            ).failure is Some {
                lemma_imports_stop(
                    start,
                    kind,
                    section_rva,
                    lookup as int,
                    views,
                    (index + 1) as nat,
                    entries@.len(),
                );
            }
        }
        append_import(payload, kind, section_rva, lookup + index * width, &entries[index])?;
        index = index + 1;
    }
    Ok(())
}

/// Writes an address of the section.
fn write_address(
    payload: &mut Vec<u8>,
    at: usize,
    section_rva: u32,
    offset: usize,
    too_far: &str,
    overflow: &str,
) -> (outcome: AppResult<()>)
    ensures
        image::edited(
            outcome,
            final(payload)@,
            with_address(
                Edit::start(old(payload)@),
                at as int,
                section_rva,
                offset as int,
                too_far@,
                overflow@,
            ),
        ),
{
    if offset as u64 > u32::MAX as u64 {
        return Err(AppError::fixed(too_far));
    }
    match section_rva.checked_add(offset as u32) {
        None => Err(AppError::fixed(overflow)),
        Some(address) => write_u32(payload, at, address),
    }
}

/// Adds one group to the payload.
fn append_group(
    payload: &mut Vec<u8>,
    kind: PeKind,
    section_rva: u32,
    index: usize,
    group: &ImportGroup,
) -> (outcome: AppResult<()>)
    requires
        IMPORT_DESCRIPTOR_SIZE * (index + 1) <= usize::MAX,
    ensures
        image::edited(
            outcome,
            final(payload)@,
            with_group(Edit::start(old(payload)@), kind, section_rva, index as int, group@),
        ),
{
    let width: usize = pointer_width(kind);
    align_vec(payload, width);
    let lookup: usize = payload.len();
    let count: usize = group.entries.len();
    let size: usize = match count.checked_add(1) {
        Some(slots) => match slots.checked_mul(width) {
            Some(size) => size,
            None => {
                return Err(AppError::fixed("import lookup-table size overflowed"));
            },
        },
        None => {
            assert((count + 1) * width > usize::MAX) by (nonlinear_arith)
                requires
                    count + 1 > usize::MAX,
                    width >= 1,
            ;
            return Err(AppError::fixed("import lookup-table size overflowed"));
        },
    };
    push_zeros(payload, size);
    assert(payload.len() == payload@.len());
    append_imports(payload, kind, section_rva, lookup, &group.entries)?;
    let module: usize = payload.len();
    append_ascii(payload, group.module.as_str())?;
    let at: usize = IMPORT_DESCRIPTOR_SIZE * index;
    write_address(
        payload,
        at,
        section_rva,
        lookup,
        "import lookup-table offset exceeds u32",
        "import lookup-table RVA overflowed",
    )?;
    write_address(
        payload,
        at + 12,
        section_rva,
        module,
        "import module offset exceeds u32",
        "import module RVA overflowed",
    )?;
    write_u32(payload, at + 16, group.first_thunk)
}

/// Builds the contents of the section.
pub fn build_import_payload(plan: &ImportPlan, kind: PeKind, section_rva: u32) -> (contents:
    AppResult<Vec<u8>>)
    ensures
        error::agrees(contents, payload(plan@.groups, kind, section_rva)),
{
    let ghost views = plan@.groups;
    let count: usize = plan.groups.len();
    let size: usize = match count.checked_add(1) {
        Some(descriptors) => match descriptors.checked_mul(IMPORT_DESCRIPTOR_SIZE) {
            Some(size) => size,
            None => {
                return Err(AppError::fixed("import descriptor size overflowed"));
            },
        },
        None => {
            return Err(AppError::fixed("import descriptor size overflowed"));
        },
    };
    let mut contents: Vec<u8> = Vec::new();
    push_zeros(&mut contents, size);
    assert(contents@ =~= zeros(IMPORT_DESCRIPTOR_SIZE as nat * (views.len() + 1)));
    let mut index: usize = 0;
    while index < count
        invariant
            index <= count,
            count == plan.groups@.len(),
            views == plan@.groups,
            IMPORT_DESCRIPTOR_SIZE * (count + 1) <= usize::MAX,
            with_groups(views, kind, section_rva, index as nat) == Edit::start(contents@),
        decreases count - index,
    {
        proof {
            assert(views[index as int] == plan.groups@[index as int]@);
            if with_groups(views, kind, section_rva, (index + 1) as nat).failure is Some {
                lemma_groups_stop(
                    views,
                    kind,
                    section_rva,
                    (index + 1) as nat,
                    count as nat,
                );
            }
        }
        append_group(&mut contents, kind, section_rva, index, &plan.groups[index])?;
        index = index + 1;
    }
    Ok(contents)
}

/// The section that is to be added.
pub struct NewSection {
    pub rva: u32,
    pub payload: Seq<u8>,
    pub raw_offset: int,
    pub raw_size: int,
}

/// Where the new section comes to stand in memory: behind the image.
pub open spec fn new_section_rva(bytes: Seq<u8>, model: PeModelView) -> Result<u32, Seq<char>> {
    let total = bytes.len() as int;
    let room = image::field_failure(total, model.size_of_headers_offset(), 4);
    let image = image::field_failure(total, model.size_of_image_offset(), 4);
    let address = layout::aligned(
        bytes::le32(bytes, model.size_of_image_offset()) as int,
        model.section_alignment as int,
    );
    if IMPORT_DIRECTORY >= model.directory_count {
        Err("PE optional header has no import-directory slot"@)
    } else if room is Some {
        Err(room->0)
    } else if model.section_table_end() + SECTION_HEADER_SIZE > bytes::le32(
        bytes,
        model.size_of_headers_offset(),
    ) {
        Err("PE headers have no room for the recovered import section"@)
    } else if image is Some {
        Err(image->0)
    } else if address > u32::MAX {
        Err("import section RVA exceeds u32"@)
    } else {
        Ok(address as u32)
    }
}

/// The section that is to be added to the file, or why it cannot be.
pub open spec fn new_section(bytes: Seq<u8>, model: PeModelView, groups: Seq<GroupView>) -> Result<
    NewSection,
    Seq<char>,
> {
    match new_section_rva(bytes, model) {
        Err(message) => Err(message),
        Ok(rva) => match payload(groups, model.kind, rva) {
            Err(message) => Err(message),
            Ok(contents) => {
                let alignment = model.file_alignment as int;
                let raw_offset = layout::alignment_of(
                    bytes.len() as int,
                    alignment,
                    usize::MAX as int,
                );
                let raw_size = layout::alignment_of(
                    contents.len() as int,
                    alignment,
                    usize::MAX as int,
                );
                if raw_offset is Err {
                    Err(raw_offset->Err_0)
                } else if raw_size is Err {
                    Err(raw_size->Err_0)
                } else if raw_offset->Ok_0 + raw_size->Ok_0 > usize::MAX {
                    Err("import section output size overflowed"@)
                } else if raw_offset->Ok_0 + raw_size->Ok_0 > MAX_OUTPUT_SIZE {
                    Err("recovered imports exceed the 1 GiB output safety limit"@)
                } else {
                    Ok(
                        NewSection {
                            rva,
                            payload: contents,
                            raw_offset: raw_offset->Ok_0,
                            raw_size: raw_size->Ok_0,
                        },
                    )
                }
            },
        },
    }
}

/// The name of the new section: `.mempe`.
pub open spec fn new_section_name() -> Seq<u8> {
    seq![0x2Eu8, 0x6D, 0x65, 0x6D, 0x70, 0x65, 0, 0]
}

/// The file with the contents of the new section at its end.
pub open spec fn with_contents(bytes: Seq<u8>, section: NewSection) -> Seq<u8> {
    let grown = bytes + zeros((section.raw_offset + section.raw_size - bytes.len()) as nat);
    bytes::splice(grown, section.raw_offset, section.payload)
}

/// The file with the header of the new section.
pub open spec fn with_section_header(before: Edit, at: int, section: NewSection) -> Edit {
    if before.failure is Some {
        before
    } else if at + 8 > before.bytes.len() {
        before.fail("new section name lies outside the PE headers"@)
    } else {
        Edit::start(bytes::splice(before.bytes, at, new_section_name())).put32(
            at + 8,
            section.payload.len() as u32,
        ).put32(at + 12, section.rva).put32(at + 16, section.raw_size as u32).put32(
            at + 20,
            section.raw_offset as u32,
        ).put32(at + 36, MEMPE_IMPORT_CHARACTERISTICS)
    }
}

/// The file with one more section in its count.
pub open spec fn with_one_more_section(before: Edit, at: int) -> Edit {
    let failure = image::field_failure(before.bytes.len() as int, at, 2);
    let count = bytes::le16(before.bytes, at);
    if before.failure is Some {
        before
    } else if failure is Some {
        before.fail(failure->0)
    } else if count == u16::MAX {
        before.fail("section count overflowed"@)
    } else {
        before.put16(at, (count + 1) as u16)
    }
}

/// The file with an image size that holds the new section.
pub open spec fn with_new_image_size(before: Edit, model: PeModelView, section: NewSection) -> Edit {
    let size = layout::aligned(
        section.rva + section.payload.len(),
        model.section_alignment as int,
    );
    if size > u32::MAX {
        before.fail("image size exceeds u32"@)
    } else {
        before.put32(model.size_of_image_offset(), size as u32)
    }
}

/// The file whose import directory is the new section, and which has no address table directory.
pub open spec fn with_import_directory(
    before: Edit,
    model: PeModelView,
    section: NewSection,
    groups: int,
) -> Edit {
    let size = (groups + 1) * IMPORT_DESCRIPTOR_SIZE;
    if before.failure is Some {
        before
    } else if size > u32::MAX {
        before.fail("import descriptor size overflowed"@)
    } else {
        let pointed = directories::with_directory(
            before.bytes,
            model,
            IMPORT_DIRECTORY as int,
            section.rva,
            size as u32,
        );
        if pointed.failure is Some {
            pointed
        } else {
            directories::without_directory(pointed.bytes, model, IAT_DIRECTORY as int)
        }
    }
}

/// The file with the section that holds the recovered imports.
pub open spec fn with_import_section(
    bytes: Seq<u8>,
    model: PeModelView,
    groups: Seq<GroupView>,
) -> Edit {
    match new_section(bytes, model, groups) {
        Err(message) => Edit::start(bytes).fail(message),
        Ok(section) => with_import_directory(
            with_new_image_size(
                with_one_more_section(
                    with_section_header(
                        Edit::start(with_contents(bytes, section)),
                        model.section_table_end(),
                        section,
                    ),
                    model.nt_offset + 6,
                ),
                model,
                section,
            ),
            model,
            section,
            groups.len() as int,
        ),
    }
}

/// Finds out where the new section comes to stand in memory.
fn choose_rva(output: &[u8], model: &PeModel) -> (rva: AppResult<u32>)
    ensures
        match new_section_rva(output@, model@) {
            Ok(expected) => rva == Ok::<u32, AppError>(expected),
            Err(message) => error::fails(rva, message),
        },
{
    proof {
        use_type_invariant(model);
        model.lemma_accepted();
    }
    if IMPORT_DIRECTORY >= model.directory_count() {
        return Err(AppError::fixed("PE optional header has no import-directory slot"));
    }
    let optional: usize = model.optional_offset();
    let header_limit: usize = read_u32(output, optional + 60)? as usize;
    if header_limit < SECTION_HEADER_SIZE || model.section_table_end() > header_limit
        - SECTION_HEADER_SIZE {
        return Err(AppError::fixed("PE headers have no room for the recovered import section"));
    }
    let image_size: u32 = read_u32(output, optional + 56)?;
    let address: u64 = align_up_u64(image_size as u64, model.section_alignment() as u64)?;
    if address > u32::MAX as u64 {
        return Err(AppError::fixed("import section RVA exceeds u32"));
    }
    Ok(address as u32)
}

/// The parts of the file that the new section gets.
fn place_section(length: usize, payload: usize, file_alignment: usize) -> (place: AppResult<
    (usize, usize),
>)
    ensures
        ({
            let alignment = file_alignment as int;
            let raw_offset = layout::alignment_of(length as int, alignment, usize::MAX as int);
            let raw_size = layout::alignment_of(payload as int, alignment, usize::MAX as int);
            if raw_offset is Err {
                error::fails(place, raw_offset->Err_0)
            } else if raw_size is Err {
                error::fails(place, raw_size->Err_0)
            } else if raw_offset->Ok_0 + raw_size->Ok_0 > usize::MAX {
                error::fails(place, "import section output size overflowed"@)
            } else if raw_offset->Ok_0 + raw_size->Ok_0 > MAX_OUTPUT_SIZE {
                error::fails(place, "recovered imports exceed the 1 GiB output safety limit"@)
            } else {
                place is Ok && place->Ok_0.0 == raw_offset->Ok_0 && place->Ok_0.1
                    == raw_size->Ok_0
            }
        }),
{
    let raw_offset: usize = align_up(length, file_alignment)?;
    let raw_size: usize = align_up(payload, file_alignment)?;
    match raw_offset.checked_add(raw_size) {
        None => Err(AppError::fixed("import section output size overflowed")),
        Some(size) => {
            if size > MAX_OUTPUT_SIZE {
                return Err(
                    AppError::fixed("recovered imports exceed the 1 GiB output safety limit"),
                );
            }
            Ok((raw_offset, raw_size))
        },
    }
}

/// Writes the header of the new section.
fn write_section_header(
    output: &mut Vec<u8>,
    at: usize,
    rva: u32,
    payload: usize,
    raw_offset: usize,
    raw_size: usize,
    Ghost(section): Ghost<NewSection>,
) -> (outcome: AppResult<()>)
    requires
        at + SECTION_HEADER_SIZE <= u32::MAX,
        section.rva == rva,
        section.payload.len() == payload,
        section.raw_offset == raw_offset,
        section.raw_size == raw_size,
        payload <= u32::MAX,
        raw_offset <= u32::MAX,
        raw_size <= u32::MAX,
    ensures
        image::edited(
            outcome,
            final(output)@,
            with_section_header(Edit::start(old(output)@), at as int, section),
        ),
{
    let name: [u8; 8] = [0x2E, 0x6D, 0x65, 0x6D, 0x70, 0x65, 0, 0];
    if output.len() < 8 || at > output.len() - 8 {
        return Err(AppError::fixed("new section name lies outside the PE headers"));
    }
    assert(name@ =~= new_section_name());
    overwrite(output, at, &name);
    write_u32(output, at + 8, payload as u32)?;
    write_u32(output, at + 12, rva)?;
    write_u32(output, at + 16, raw_size as u32)?;
    write_u32(output, at + 20, raw_offset as u32)?;
    write_u32(output, at + 36, MEMPE_IMPORT_CHARACTERISTICS)
}

/// Counts one more section.
fn count_section(output: &mut Vec<u8>, at: usize) -> (outcome: AppResult<()>)
    ensures
        image::edited(
            outcome,
            final(output)@,
            with_one_more_section(Edit::start(old(output)@), at as int),
        ),
{
    let count: u16 = read_u16(output, at)?;
    match count.checked_add(1) {
        None => Err(AppError::fixed("section count overflowed")),
        Some(more) => write_u16(output, at, more),
    }
}

/// Points the import directory to the new section.
fn point_directory(output: &mut Vec<u8>, model: &PeModel, rva: u32, groups: usize, Ghost(
    section,
): Ghost<NewSection>) -> (outcome: AppResult<()>)
    requires
        section.rva == rva,
    ensures
        image::edited(
            outcome,
            final(output)@,
            with_import_directory(Edit::start(old(output)@), model@, section, groups as int),
        ),
{
    let size: usize = match groups.checked_add(1) {
        None => {
            return Err(AppError::fixed("import descriptor size overflowed"));
        },
        Some(descriptors) => match descriptors.checked_mul(IMPORT_DESCRIPTOR_SIZE) {
            None => {
                return Err(AppError::fixed("import descriptor size overflowed"));
            },
            Some(size) => size,
        },
    };
    if size as u64 > u32::MAX as u64 {
        return Err(AppError::fixed("import descriptor size overflowed"));
    }
    write_directory(output, model, IMPORT_DIRECTORY, rva, size as u32)?;
    let _cleared: usize = clear_directory(output, model, IAT_DIRECTORY)?;
    Ok(())
}

/// Adds the section that holds the recovered imports.
pub fn append_import_section(output: &mut Vec<u8>, model: &PeModel, plan: &ImportPlan) -> (outcome:
    AppResult<()>)
    ensures
        image::edited(
            outcome,
            final(output)@,
            with_import_section(old(output)@, model@, plan@.groups),
        ),
{
    proof {
        use_type_invariant(model);
        model.lemma_accepted();
    }
    let rva: u32 = choose_rva(output, model)?;
    let contents: Vec<u8> = build_import_payload(plan, model.kind(), rva)?;
    let place: (usize, usize) = place_section(
        output.len(),
        contents.len(),
        model.file_alignment() as usize,
    )?;
    let raw_offset: usize = place.0;
    let raw_size: usize = place.1;
    let ghost section = NewSection {
        rva,
        payload: contents@,
        raw_offset: raw_offset as int,
        raw_size: raw_size as int,
    };
    assert(new_section(output@, model@, plan@.groups) == Ok::<NewSection, Seq<char>>(section));
    proof {
        layout::aligned_is_least_multiple(output@.len() as int, model@.file_alignment as int);
        layout::aligned_is_least_multiple(contents@.len() as int, model@.file_alignment as int);
    }
    let missing: usize = raw_offset + raw_size - output.len();
    push_zeros(output, missing);
    overwrite(output, raw_offset, contents.as_slice());
    assert(output@ == with_contents(old(output)@, section));
    let at: usize = model.section_table_end();
    write_section_header(
        output,
        at,
        rva,
        contents.len(),
        raw_offset,
        raw_size,
        Ghost(section),
    )?;
    count_section(output, model.nt_offset() + 6)?;
    let image_end: u64 = rva as u64 + contents.len() as u64;
    let image_size: u64 = align_up_u64(image_end, model.section_alignment() as u64)?;
    if image_size > u32::MAX as u64 {
        return Err(AppError::fixed("image size exceeds u32"));
    }
    write_u32(output, model.optional_offset() + 56, image_size as u32)?;
    point_directory(output, model, rva, plan.groups.len(), Ghost(section))
}

} // verus!
