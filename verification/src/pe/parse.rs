//! Finding and checking the headers of an image.

use vstd::prelude::*;

use crate::error::{AppError, AppResult};
use crate::error;
use crate::pe;
use crate::pe::bytes;
use crate::pe::{
    PeImage, PeKind, PeModel, PeModelView, Rva, SectionModel, SectionView, MAX_IMAGE_SIZE,
    MAX_SECTIONS, SECTION_HEADER_SIZE,
};
use crate::text;
use crate::text::{joined, with_decimal, with_hex, with_wide_hex};

verus! {

pub const DOS_MAGIC: u16 = 0x5A4D;

pub const NT_SIGNATURE: u32 = 0x0000_4550;

pub const PE32_MAGIC: u16 = 0x010B;

pub const PE32_PLUS_MAGIC: u16 = 0x020B;

pub const MACHINE_I386: u16 = 0x014C;

pub const MACHINE_AMD64: u16 = 0x8664;

pub const IMAGE_FILE_DLL: u16 = 0x2000;

/// The bytes in which lost headers are looked for.
pub const MAX_SALVAGE_SCAN: usize = 0x10_0000;

/// What is said of a field that the image does not hold.
pub open spec fn field_outside() -> Seq<char> {
    "PE field lies outside the captured image"@
}

/// What is said of a structure that the image does not hold.
pub open spec fn structure_outside() -> Seq<char> {
    "PE structure lies outside the captured image"@
}

/// The section header that stands at `at`.
pub open spec fn section_at(bytes: Seq<u8>, at: int) -> SectionView {
    SectionView {
        header_offset: at,
        name: bytes.subrange(at, at + 8),
        virtual_size: bytes::le32(bytes, at + 8),
        virtual_address: bytes::le32(bytes, at + 12),
        raw_size: bytes::le32(bytes, at + 16),
        characteristics: bytes::le32(bytes, at + 36),
    }
}

/// The `count` section headers that start at `at`.
pub open spec fn section_table(bytes: Seq<u8>, at: int, count: nat) -> Seq<SectionView> {
    Seq::new(count, |i: int| section_at(bytes, at + SECTION_HEADER_SIZE * i))
}

/// Why the alignments are refused, if they are.
pub open spec fn alignment_failure(file_alignment: u32, section_alignment: u32) -> Option<
    Seq<char>,
> {
    if file_alignment < 0x200 || file_alignment > 0x1_0000 || !pe::power_of_two(
        file_alignment as int,
    ) {
        Some("invalid file alignment 0x"@ + text::hex(file_alignment as nat))
    } else if section_alignment < file_alignment || section_alignment > 0x10_0000
        || !pe::power_of_two(section_alignment as int) {
        Some("invalid section alignment 0x"@ + text::hex(section_alignment as nat))
    } else {
        None
    }
}

/// Why the declared size of an image is refused, if it is.
pub open spec fn image_size_failure(image_size: u32, total: int, full: bool) -> Option<Seq<char>> {
    if image_size == 0 || image_size > MAX_IMAGE_SIZE {
        Some(
            "declared image size "@ + text::decimal(image_size as nat)
                + " is outside the safety limit"@,
        )
    } else if full && image_size > total {
        Some(
            "declared image size "@ + text::decimal(image_size as nat)
                + " does not fit the captured memory"@,
        )
    } else {
        None
    }
}

/// Why a section is refused, if it is: it must end inside the image.
pub open spec fn section_failure(
    virtual_address: int,
    virtual_size: int,
    raw_size: int,
    image_size: int,
) -> Option<Seq<char>> {
    let span = if virtual_size >= raw_size {
        virtual_size
    } else {
        raw_size
    };
    if span != 0 && virtual_address + span > image_size {
        Some(
            "section ending at RVA 0x"@ + text::hex((virtual_address + span) as nat)
                + " exceeds SizeOfImage"@,
        )
    } else {
        None
    }
}

/// Why the first bad section is refused, if one is.
pub open spec fn first_section_failure(sections: Seq<SectionView>, image_size: int) -> Option<
    Seq<char>,
>
    decreases sections.len(),
{
    if sections.len() == 0 {
        None
    } else {
        match first_section_failure(sections.drop_last(), image_size) {
            Some(message) => Some(message),
            None => section_failure(
                sections.last().virtual_address as int,
                sections.last().virtual_size as int,
                sections.last().raw_size as int,
                image_size,
            ),
        }
    }
}

/// The format that a machine and an optional header's magic stand for.
pub open spec fn kind_of(machine: u16, magic: u16) -> Result<PeKind, Seq<char>> {
    if magic == PE32_MAGIC {
        if machine == MACHINE_I386 {
            Ok(PeKind::Pe32)
        } else {
            Err(
                "PE32 optional header conflicts with machine 0x"@ + text::wide_hex(
                    machine as nat,
                    4,
                ),
            )
        }
    } else if magic == PE32_PLUS_MAGIC {
        if machine == MACHINE_AMD64 {
            Ok(PeKind::Pe32Plus)
        } else {
            Err(
                "PE32+ optional header conflicts with machine 0x"@ + text::wide_hex(
                    machine as nat,
                    4,
                ),
            )
        }
    } else {
        Err("unknown PE magic 0x"@ + text::wide_hex(magic as nat, 4))
    }
}

/// The data directories that are used: as declared, but no more than sixteen and no more than
/// the optional header holds.
pub open spec fn usable_directories(declared: int, optional_size: int, kind: PeKind) -> int {
    let room = (optional_size - pe::directories_relative(kind)) / 8;
    if declared <= 16 && declared <= room {
        declared
    } else if room <= 16 {
        room
    } else {
        16
    }
}

/// The model of the headers that stand at `nt`, or why they are refused.
pub open spec fn candidate(bytes: Seq<u8>, nt: int, salvaged: bool, full: bool) -> Result<
    PeModelView,
    Seq<char>,
> {
    let total = bytes.len() as int;
    let count = bytes::le16(bytes, nt + 6) as int;
    let optional = nt + 24;
    let optional_size = bytes::le16(bytes, nt + 20) as int;
    let table = optional + optional_size;
    if nt + 4 > total {
        Err(field_outside())
    } else if bytes::le32(bytes, nt) != NT_SIGNATURE {
        Err("NT signature is missing"@)
    } else if nt + 8 > total {
        Err(field_outside())
    } else if count == 0 || count > MAX_SECTIONS {
        Err("invalid section count "@ + text::decimal(count as nat))
    } else if nt + 20 > usize::MAX {
        Err("optional-header size"@ + " offset overflowed"@)
    } else if optional > total {
        Err(field_outside())
    } else if table > usize::MAX {
        Err("optional header end"@ + " offset overflowed"@)
    } else if table > total {
        Err(structure_outside())
    } else if optional + 2 > total {
        Err(field_outside())
    } else {
        match kind_of(bytes::le16(bytes, nt + 4), bytes::le16(bytes, optional)) {
            Err(message) => Err(message),
            Ok(kind) => candidate_of_kind(bytes, nt, salvaged, full, kind),
        }
    }
}

/// The rest of the model, once the format is known.
pub open spec fn candidate_of_kind(
    bytes: Seq<u8>,
    nt: int,
    salvaged: bool,
    full: bool,
    kind: PeKind,
) -> Result<PeModelView, Seq<char>> {
    let total = bytes.len() as int;
    let count = bytes::le16(bytes, nt + 6) as int;
    let optional = nt + 24;
    let optional_size = bytes::le16(bytes, nt + 20) as int;
    let table = optional + optional_size;
    let file_alignment = bytes::le32(bytes, optional + 36);
    let section_alignment = bytes::le32(bytes, optional + 32);
    let image_size = bytes::le32(bytes, optional + 56);
    let sections = section_table(bytes, table, count as nat);
    if optional_size < pe::directories_relative(kind) {
        Err("optional header is truncated"@)
    } else if alignment_failure(file_alignment, section_alignment) is Some {
        Err(alignment_failure(file_alignment, section_alignment)->0)
    } else if image_size_failure(image_size, total, full) is Some {
        Err(image_size_failure(image_size, total, full)->0)
    } else if table + SECTION_HEADER_SIZE * count > total {
        Err(structure_outside())
    } else if first_section_failure(sections, image_size as int) is Some {
        Err(first_section_failure(sections, image_size as int)->0)
    } else if pe::sections_overlap(sections) {
        Err("section virtual ranges overlap"@)
    } else {
        Ok(
            PeModelView {
                kind,
                is_dll: bytes::le16(bytes, nt + 22) & IMAGE_FILE_DLL != 0,
                nt_offset: nt,
                directory_count: usable_directories(
                    bytes::le32(bytes, optional + pe::directories_relative(kind) - 4) as int,
                    optional_size,
                    kind,
                ),
                file_alignment,
                section_alignment,
                image_size,
                sections,
                salvaged,
            },
        )
    }
}

/// Reads a 16-bit header field.
pub fn read_u16(bytes: &[u8], offset: usize) -> (value: AppResult<u16>)
    ensures
        offset + 2 > bytes@.len() ==> error::fails(value, field_outside()),
        offset + 2 <= bytes@.len() ==> value == Ok::<u16, AppError>(
            bytes::le16(bytes@, offset as int),
        ),
{
    if bytes.len() < 2 || offset > bytes.len() - 2 {
        return Err(AppError::fixed("PE field lies outside the captured image"));
    }
    Ok(bytes[offset] as u16 + 0x100 * (bytes[offset + 1] as u16))
}

/// Reads a 32-bit header field.
pub fn read_u32(bytes: &[u8], offset: usize) -> (value: AppResult<u32>)
    ensures
        offset + 4 > bytes@.len() ==> error::fails(value, field_outside()),
        offset + 4 <= bytes@.len() ==> value == Ok::<u32, AppError>(
            bytes::le32(bytes@, offset as int),
        ),
{
    if bytes.len() < 4 || offset > bytes.len() - 4 {
        return Err(AppError::fixed("PE field lies outside the captured image"));
    }
    Ok(
        bytes[offset] as u32 + 0x100 * (bytes[offset + 1] as u32) + 0x1_0000 * (bytes[offset
            + 2] as u32) + 0x100_0000 * (bytes[offset + 3] as u32),
    )
}

/// The 32-bit field at `offset`, or zero where the image does not hold it.
pub fn peek_u32(bytes: &[u8], offset: usize) -> (value: u32)
    ensures
        value == if offset + 4 <= bytes@.len() {
            bytes::le32(bytes@, offset as int)
        } else {
            0
        },
{
    match read_u32(bytes, offset) {
        Ok(value) => value,
        Err(_) => 0,
    }
}

/// Checks that the image holds `length` bytes from `offset` on.
pub fn require_range(bytes: &[u8], offset: usize, length: usize) -> (outcome: AppResult<()>)
    ensures
        offset + length <= bytes@.len() ==> outcome is Ok,
        offset + length > bytes@.len() ==> error::fails(outcome, structure_outside()),
{
    if offset > bytes.len() || length > bytes.len() - offset {
        return Err(AppError::fixed("PE structure lies outside the captured image"));
    }
    Ok(())
}

/// The sum of two offsets, if it is an offset.
pub fn checked_add(left: usize, right: usize, field: &str) -> (sum: AppResult<usize>)
    ensures
        left + right <= usize::MAX ==> sum == Ok::<usize, AppError>((left + right) as usize),
        left + right > usize::MAX ==> error::fails(sum, field@ + " offset overflowed"@),
{
    match left.checked_add(right) {
        Some(sum) => Ok(sum),
        None => Err(AppError::new(joined(field, " offset overflowed"))),
    }
}

/// Tests for a power of two.
pub fn is_power_of_two(value: u64) -> (yes: bool)
    ensures
        yes == pe::power_of_two(value as int),
    decreases value,
{
    if value == 1 {
        true
    } else if value == 0 || value % 2 != 0 {
        false
    } else {
        is_power_of_two(value / 2)
    }
}

/// Checks the two alignments.
pub fn validate_alignments(file_alignment: u32, section_alignment: u32) -> (outcome: AppResult<()>)
    ensures
        match alignment_failure(file_alignment, section_alignment) {
            Some(message) => error::fails(outcome, message),
            None => outcome is Ok,
        },
{
    if file_alignment < 0x200 || file_alignment > 0x1_0000 || !is_power_of_two(
        file_alignment as u64,
    ) {
        return Err(AppError::new(with_hex("invalid file alignment 0x", file_alignment as u64)));
    }
    if section_alignment < file_alignment || section_alignment > 0x10_0000 || !is_power_of_two(
        section_alignment as u64,
    ) {
        return Err(
            AppError::new(with_hex("invalid section alignment 0x", section_alignment as u64)),
        );
    }
    Ok(())
}

/// Checks that a section ends inside the image.
pub fn validate_section(
    virtual_address: u32,
    virtual_size: u32,
    raw_size: u32,
    image_size: usize,
) -> (outcome: AppResult<()>)
    ensures
        match section_failure(
            virtual_address as int,
            virtual_size as int,
            raw_size as int,
            image_size as int,
        ) {
            Some(message) => error::fails(outcome, message),
            None => outcome is Ok,
        },
{
    let span: u32 = if virtual_size >= raw_size {
        virtual_size
    } else {
        raw_size
    };
    if span == 0 {
        return Ok(());
    }
    let end: u64 = virtual_address as u64 + span as u64;
    if end > image_size as u64 {
        let mut message: String = with_hex("section ending at RVA 0x", end);
        message.append(" exceeds SizeOfImage");
        return Err(AppError::new(message));
    }
    Ok(())
}

/// Checks that no two sections share an address.
pub fn validate_non_overlapping_sections(sections: &Vec<SectionModel>) -> (outcome: AppResult<()>)
    ensures
        pe::sections_overlap(pe::section_views(sections@)) ==> error::fails(
            outcome,
            "section virtual ranges overlap"@,
        ),
        !pe::sections_overlap(pe::section_views(sections@)) ==> outcome is Ok,
{
    let ghost views = pe::section_views(sections@);
    let mut j: usize = 0;
    while j < sections.len()
        invariant
            j <= sections@.len(),
            views == pe::section_views(sections@),
            forall|a: int, b: int|
                #![trigger views[a], views[b]]
                0 <= a < b < j ==> !(views[a].span() > 0 && views[b].span() > 0
                    && views[a].virtual_address < views[b].end() && views[b].virtual_address
                    < views[a].end()),
        decreases sections@.len() - j,
    {
        let right: SectionModel = sections[j];
        let right_start: u64 = right.virtual_address.get() as u64;
        let right_end: u64 = right_start + right.span() as u64;
        let mut i: usize = 0;
        while i < j
            invariant
                i <= j < sections@.len(),
                views == pe::section_views(sections@),
                right == sections@[j as int],
                right_start == right@.virtual_address,
                right_end == right@.end(),
                forall|a: int|
                    0 <= a < i ==> !((#[trigger] views[a]).span() > 0 && views[j as int].span() > 0
                        && views[a].virtual_address < views[j as int].end()
                        && views[j as int].virtual_address < views[a].end()),
            decreases j - i,
        {
            let left: SectionModel = sections[i];
            let left_start: u64 = left.virtual_address.get() as u64;
            let left_end: u64 = left_start + left.span() as u64;
            assert(views[i as int] == left@ && views[j as int] == right@);
            if left_start < left_end && right_start < right_end && left_start < right_end
                && right_start < left_end {
                return Err(AppError::fixed("section virtual ranges overlap"));
            }
            i = i + 1;
        }
        j = j + 1;
    }
    Ok(())
}

/// A bad section among the first ones decides.
proof fn lemma_first_failure_stays(sections: Seq<SectionView>, image_size: int, count: int)
    requires
        0 <= count <= sections.len(),
        first_section_failure(sections.take(count), image_size) is Some,
    ensures
        first_section_failure(sections, image_size) == first_section_failure(
            sections.take(count),
            image_size,
        ),
    decreases sections.len(),
{
    if count == sections.len() {
        assert(sections.take(count) =~= sections);
    } else {
        assert(sections.drop_last().take(count) =~= sections.take(count));
        lemma_first_failure_stays(sections.drop_last(), image_size, count);
    }
}

/// Where no section is refused, each ends inside the image.
proof fn lemma_sections_inside(sections: Seq<SectionView>, image_size: int)
    requires
        first_section_failure(sections, image_size) is None,
    ensures
        forall|i: int|
            0 <= i < sections.len() && (#[trigger] sections[i]).span() > 0 ==> sections[i].end()
                <= image_size,
    decreases sections.len(),
{
    if sections.len() > 0 {
        lemma_sections_inside(sections.drop_last(), image_size);
        assert forall|i: int|
            0 <= i < sections.len() && (#[trigger] sections[i]).span() > 0 implies sections[i].end()
            <= image_size by {
            if i < sections.len() - 1 {
                assert(sections.drop_last()[i] == sections[i]);
            }
        }
    }
}

/// Reads one section header.
fn read_section(bytes: &[u8], at: usize) -> (section: SectionModel)
    requires
        at + SECTION_HEADER_SIZE <= bytes.len(),
    ensures
        section@ == section_at(bytes@, at as int),
{
    let mut name: [u8; 8] = [0u8;8];
    let mut i: usize = 0;
    while i < 8
        invariant
            i <= 8,
            at + SECTION_HEADER_SIZE <= bytes.len(),
            forall|j: int| 0 <= j < i ==> name@[j] == bytes@[at + j],
        decreases 8 - i,
    {
        name[i] = bytes[at + i];
        i = i + 1;
    }
    assert(name@ =~= bytes@.subrange(at as int, at + 8));
    SectionModel {
        header_offset: at,
        name,
        virtual_size: peek_u32(bytes, at + 8),
        virtual_address: Rva(peek_u32(bytes, at + 12)),
        raw_size: peek_u32(bytes, at + 16),
        characteristics: peek_u32(bytes, at + 36),
    }
}

/// Reads the section headers and checks that each section ends inside the image.
fn read_sections(bytes: &[u8], table: usize, count: usize, image_size: usize) -> (sections:
    AppResult<Vec<SectionModel>>)
    requires
        count <= MAX_SECTIONS,
        table + SECTION_HEADER_SIZE * count <= bytes.len(),
    ensures
        match first_section_failure(
            section_table(bytes@, table as int, count as nat),
            image_size as int,
        ) {
            Some(message) => error::fails(sections, message),
            None => sections is Ok && pe::section_views(sections->Ok_0@) == section_table(
                bytes@,
                table as int,
                count as nat,
            ),
        },
{
    let ghost all = section_table(bytes@, table as int, count as nat);
    let mut sections: Vec<SectionModel> = Vec::with_capacity(count);
    let mut index: usize = 0;
    while index < count
        invariant
            index <= count <= MAX_SECTIONS,
            table + SECTION_HEADER_SIZE * count <= bytes.len(),
            all == section_table(bytes@, table as int, count as nat),
            sections@.len() == index,
            pe::section_views(sections@) == all.take(index as int),
            first_section_failure(all.take(index as int), image_size as int) is None,
        decreases count - index,
    {
        let at: usize = table + SECTION_HEADER_SIZE * index;
        let section: SectionModel = read_section(bytes, at);
        let checked: AppResult<()> = validate_section(
            section.virtual_address.get(),
            section.virtual_size,
            section.raw_size,
            image_size,
        );
        proof {
            let longer = all.take(index + 1);
            assert(longer.drop_last() =~= all.take(index as int));
            assert(longer.last() == section@);
            if checked is Err {
                lemma_first_failure_stays(all, image_size as int, index + 1);
            }
        }
        checked?;
        sections.push(section);
        index = index + 1;
        assert(pe::section_views(sections@) =~= all.take(index as int));
    }
    assert(all.take(count as int) =~= all);
    Ok(sections)
}

/// The format that a machine and an optional header's magic stand for.
fn header_kind(machine: u16, magic: u16) -> (kind: AppResult<PeKind>)
    ensures
        error::agrees(kind, kind_of(machine, magic)),
{
    if magic == PE32_MAGIC {
        if machine != MACHINE_I386 {
            return Err(
                AppError::new(
                    with_wide_hex(
                        "PE32 optional header conflicts with machine 0x",
                        machine as u64,
                        4,
                    ),
                ),
            );
        }
        Ok(PeKind::Pe32)
    } else if magic == PE32_PLUS_MAGIC {
        if machine != MACHINE_AMD64 {
            return Err(
                AppError::new(
                    with_wide_hex(
                        "PE32+ optional header conflicts with machine 0x",
                        machine as u64,
                        4,
                    ),
                ),
            );
        }
        Ok(PeKind::Pe32Plus)
    } else {
        Err(AppError::new(with_wide_hex("unknown PE magic 0x", magic as u64, 4)))
    }
}

/// Checks the declared size of the image.
fn check_image_size(image_size: u32, total: usize, require_full_image: bool) -> (outcome: AppResult<
    (),
>)
    ensures
        match image_size_failure(image_size, total as int, require_full_image) {
            Some(message) => error::fails(outcome, message),
            None => outcome is Ok,
        },
{
    if image_size == 0 || image_size as usize > MAX_IMAGE_SIZE {
        let mut message: String = with_decimal("declared image size ", image_size as u64);
        message.append(" is outside the safety limit");
        return Err(AppError::new(message));
    }
    if require_full_image && image_size as usize > total {
        let mut message: String = with_decimal("declared image size ", image_size as u64);
        message.append(" does not fit the captured memory");
        return Err(AppError::new(message));
    }
    Ok(())
}

/// Parses the optional header and the sections of headers whose format is known.
fn parse_of_kind(
    bytes: &[u8],
    nt_offset: usize,
    salvaged: bool,
    require_full_image: bool,
    kind: PeKind,
) -> (model: AppResult<PeModel>)
    requires
        nt_offset + 24 + bytes::le16(bytes@, nt_offset + 20) <= bytes.len(),
        0 < bytes::le16(bytes@, nt_offset + 6) <= MAX_SECTIONS,
    ensures
        error::agrees(
            model,
            candidate_of_kind(bytes@, nt_offset as int, salvaged, require_full_image, kind),
        ),
{
    let section_count: usize = read_u16(bytes, nt_offset + 6)? as usize;
    let optional_size: usize = read_u16(bytes, nt_offset + 20)? as usize;
    let characteristics: u16 = read_u16(bytes, nt_offset + 22)?;
    let optional_offset: usize = nt_offset + 24;
    let optional_end: usize = optional_offset + optional_size;
    let minimum_size: usize = match kind {
        PeKind::Pe32 => 96,
        PeKind::Pe32Plus => 112,
    };
    if optional_size < minimum_size {
        return Err(AppError::fixed("optional header is truncated"));
    }
    let file_alignment: u32 = read_u32(bytes, optional_offset + 36)?;
    let section_alignment: u32 = read_u32(bytes, optional_offset + 32)?;
    validate_alignments(file_alignment, section_alignment)?;
    let image_size: u32 = read_u32(bytes, optional_offset + 56)?;
    check_image_size(image_size, bytes.len(), require_full_image)?;
    let declared_directories: usize = read_u32(bytes, optional_offset + minimum_size - 4)? as usize;
    let room: usize = (optional_size - minimum_size) / 8;
    let directory_count: usize = if declared_directories <= 16 && declared_directories <= room {
        declared_directories
    } else if room <= 16 {
        room
    } else {
        16
    };
    require_range(bytes, optional_end, SECTION_HEADER_SIZE * section_count)?;
    let sections: Vec<SectionModel> = read_sections(
        bytes,
        optional_end,
        section_count,
        image_size as usize,
    )?;
    validate_non_overlapping_sections(&sections)?;
    proof {
        lemma_sections_inside(
            section_table(bytes@, optional_end as int, section_count as nat),
            image_size as int,
        );
    }
    Ok(
        PeModel::new(
            kind,
            characteristics & IMAGE_FILE_DLL != 0,
            nt_offset,
            directory_count,
            file_alignment,
            section_alignment,
            image_size,
            sections,
            salvaged,
        ),
    )
}

/// Parses the headers that stand at `nt_offset`.
pub fn parse_candidate(
    bytes: &[u8],
    nt_offset: usize,
    salvaged: bool,
    require_full_image: bool,
) -> (model: AppResult<PeModel>)
    ensures
        error::agrees(model, candidate(bytes@, nt_offset as int, salvaged, require_full_image)),
{
    assert(bytes.len() == bytes@.len());
    if read_u32(bytes, nt_offset)? != NT_SIGNATURE {
        return Err(AppError::fixed("NT signature is missing"));
    }
    let file_header: usize = checked_add(nt_offset, 4, "file header")?;
    let machine: u16 = read_u16(bytes, file_header)?;
    let section_count: usize = read_u16(
        bytes,
        checked_add(file_header, 2, "section count")?,
    )? as usize;
    if section_count == 0 || section_count > MAX_SECTIONS {
        return Err(AppError::new(with_decimal("invalid section count ", section_count as u64)));
    }
    let optional_size: usize = read_u16(
        bytes,
        checked_add(file_header, 16, "optional-header size")?,
    )? as usize;
    let _characteristics: u16 = read_u16(
        bytes,
        checked_add(file_header, 18, "file characteristics")?,
    )?;
    let optional_offset: usize = checked_add(file_header, 20, "optional header")?;
    let _optional_end: usize = checked_add(optional_offset, optional_size, "optional header end")?;
    require_range(bytes, optional_offset, optional_size)?;
    let magic: u16 = read_u16(bytes, optional_offset)?;
    let kind: PeKind = header_kind(machine, magic)?;
    parse_of_kind(bytes, nt_offset, salvaged, require_full_image, kind)
}

/// `offset` starts headers that a scan may take, where those at `normal` were refused.
pub open spec fn salvageable(bytes: Seq<u8>, normal: Option<u32>, offset: int) -> bool {
    &&& !(normal is Some && normal->0 == offset)
    &&& candidate(bytes, offset, true, true) is Ok
}

/// The offsets at which a scan looks.
pub open spec fn scanned(bytes: Seq<u8>, offset: int) -> bool {
    &&& 0 <= offset < bytes.len() - 4
    &&& offset < MAX_SALVAGE_SCAN - 4
}

/// A scan stops at `offset`: the first place that holds acceptable headers.
pub open spec fn scan_stops(bytes: Seq<u8>, normal: Option<u32>, offset: int) -> bool {
    &&& scanned(bytes, offset)
    &&& salvageable(bytes, normal, offset)
    &&& forall|earlier: int| 0 <= earlier < offset ==> !#[trigger] salvageable(bytes, normal, earlier)
}

/// The headers that a scan finds, where those at `normal` were refused with `refusal`.
pub open spec fn scan_result(bytes: Seq<u8>, normal: Option<u32>, refusal: Seq<char>) -> Result<
    PeModelView,
    Seq<char>,
> {
    if exists|offset: int| #[trigger] scan_stops(bytes, normal, offset) {
        candidate(bytes, choose|offset: int| #[trigger] scan_stops(bytes, normal, offset), true, true)
    } else {
        Err("PE header is not valid: "@ + refusal + "; scan found no valid header"@)
    }
}

/// The model of a captured image: from the headers that it points to, or else from the first
/// headers that a scan finds.
pub open spec fn memory_image(bytes: Seq<u8>) -> Result<PeModelView, Seq<char>> {
    if bytes.len() < 64 {
        Err("captured image is smaller than a DOS header"@)
    } else if bytes::le16(bytes, 0) == DOS_MAGIC {
        let normal = bytes::le32(bytes, 0x3c);
        match candidate(bytes, normal as int, false, true) {
            Ok(model) => Ok(model),
            Err(refusal) => scan_result(bytes, Some(normal), refusal),
        }
    } else {
        scan_result(bytes, None, "DOS MZ signature is missing"@)
    }
}

/// The model of headers that stand where the DOS header says, whatever follows them.
pub open spec fn declared_image(bytes: Seq<u8>) -> Result<PeModelView, Seq<char>> {
    if bytes.len() < 64 || bytes::le16(bytes, 0) != DOS_MAGIC {
        Err("DOS MZ signature is missing"@)
    } else {
        candidate(bytes, bytes::le32(bytes, 0x3c) as int, false, false)
    }
}

/// `image` holds `bytes` with the model `expected`, or the failure of `expected`.
pub open spec fn image_agrees(
    image: AppResult<PeImage>,
    bytes: Seq<u8>,
    expected: Result<PeModelView, Seq<char>>,
) -> bool {
    match expected {
        Ok(model) => image is Ok && image->Ok_0.data() == bytes && image->Ok_0.headers() == model,
        Err(message) => error::fails(image, message),
    }
}

/// Looks for headers that are not where the image says.
fn scan_for_headers<'a>(bytes: &'a [u8], normal: Option<u32>, refusal: &str) -> (image: AppResult<
    PeImage<'a>,
>)
    ensures
        image_agrees(image, bytes@, scan_result(bytes@, normal, refusal@)),
{
    let shorter: usize = if bytes.len() < MAX_SALVAGE_SCAN {
        bytes.len()
    } else {
        MAX_SALVAGE_SCAN
    };
    let limit: usize = if shorter < 4 {
        0
    } else {
        shorter - 4
    };
    let mut offset: usize = 0;
    while offset < limit
        invariant
            offset <= limit,
            limit == 0 || limit == bytes@.len() - 4 || limit == MAX_SALVAGE_SCAN - 4,
            limit > 0 ==> limit <= bytes@.len() - 4 && limit <= MAX_SALVAGE_SCAN - 4,
            limit == 0 ==> bytes@.len() <= 4,
            forall|earlier: int|
                0 <= earlier < offset ==> !#[trigger] salvageable(bytes@, normal, earlier),
        decreases limit - offset,
    {
        let refused: bool = match normal {
            Some(normal_offset) => normal_offset as usize == offset,
            None => false,
        };
        if !refused && peek_u32(bytes, offset) == NT_SIGNATURE {
            if let Ok(model) = parse_candidate(bytes, offset, true, true) {
                proof {
                    assert(scan_stops(bytes@, normal, offset as int));
                    let chosen = choose|other: int| #[trigger] scan_stops(bytes@, normal, other);
                    assert(scan_stops(bytes@, normal, chosen));
                    if chosen < offset {
                        assert(!salvageable(bytes@, normal, chosen));
                    } else if offset < chosen {
                        assert(!salvageable(bytes@, normal, offset as int));
                    }
                }
                return Ok(PeImage::new(bytes, model));
            }
        }
        offset = offset + 1;
    }
    let mut message: String = joined("PE header is not valid: ", refusal);
    message.append("; scan found no valid header");
    Err(AppError::new(message))
}

/// Parses a captured image.
pub fn parse_memory_image<'a>(bytes: &'a [u8]) -> (image: AppResult<PeImage<'a>>)
    ensures
        image_agrees(image, bytes@, memory_image(bytes@)),
{
    if bytes.len() < 64 {
        return Err(AppError::fixed("captured image is smaller than a DOS header"));
    }
    if read_u16(bytes, 0)? == DOS_MAGIC {
        let normal: u32 = read_u32(bytes, 0x3c)?;
        match parse_candidate(bytes, normal as usize, false, true) {
            Ok(model) => Ok(PeImage::new(bytes, model)),
            Err(refusal) => scan_for_headers(bytes, Some(normal), refusal.message()),
        }
    } else {
        scan_for_headers(bytes, None, "DOS MZ signature is missing")
    }
}

/// Parses the headers of a file; the sections need not be there.
pub fn parse_disk_image<'a>(bytes: &'a [u8]) -> (image: AppResult<PeImage<'a>>)
    ensures
        image_agrees(image, bytes@, declared_image(bytes@)),
{
    if bytes.len() < 64 || read_u16(bytes, 0)? != DOS_MAGIC {
        return Err(AppError::fixed("DOS MZ signature is missing"));
    }
    let nt_offset: u32 = read_u32(bytes, 0x3c)?;
    let model: PeModel = parse_candidate(bytes, nt_offset as usize, false, false)?;
    Ok(PeImage::new(bytes, model))
}

/// The size that an image declares, from its first bytes.
pub fn memory_image_size(bytes: &[u8]) -> (size: AppResult<usize>)
    ensures
        match declared_image(bytes@) {
            Ok(model) => size is Ok && size->Ok_0 == model.image_size,
            Err(message) => error::fails(size, message),
        },
{
    if bytes.len() < 64 || read_u16(bytes, 0)? != DOS_MAGIC {
        return Err(AppError::fixed("DOS MZ signature is missing"));
    }
    let nt_offset: u32 = read_u32(bytes, 0x3c)?;
    let model: PeModel = parse_candidate(bytes, nt_offset as usize, false, false)?;
    Ok(model.image_size() as usize)
}

/// Accepted headers are sound: no two sections share an address, each ends inside the image, the
/// alignments are powers of two, and the section headers are there in the bytes.
pub proof fn accepted_headers_are_sound(bytes: Seq<u8>, nt: int, salvaged: bool, full: bool)
    requires
        0 <= nt,
        bytes.len() <= usize::MAX,
        candidate(bytes, nt, salvaged, full) is Ok,
    ensures
        candidate(bytes, nt, salvaged, full)->Ok_0.valid(),
        candidate(bytes, nt, salvaged, full)->Ok_0.section_table_end() <= bytes.len(),
        candidate(bytes, nt, salvaged, full)->Ok_0.nt_offset == nt,
        full ==> candidate(bytes, nt, salvaged, full)->Ok_0.image_size <= bytes.len(),
{
    let model = candidate(bytes, nt, salvaged, full)->Ok_0;
    let table = nt + 24 + bytes::le16(bytes, nt + 20);
    let count = bytes::le16(bytes, nt + 6) as nat;
    lemma_sections_inside(section_table(bytes, table, count), model.image_size as int);
    assert(model.sections[0].header_offset == table);
}

/// The headers of every captured image that is accepted are sound.
pub proof fn captured_headers_are_sound(bytes: Seq<u8>)
    requires
        bytes.len() <= usize::MAX,
        memory_image(bytes) is Ok,
    ensures
        memory_image(bytes)->Ok_0.valid(),
        memory_image(bytes)->Ok_0.section_table_end() <= bytes.len(),
        memory_image(bytes)->Ok_0.image_size <= bytes.len(),
{
    let normal = bytes::le32(bytes, 0x3c);
    if bytes::le16(bytes, 0) == DOS_MAGIC && candidate(bytes, normal as int, false, true) is Ok {
        accepted_headers_are_sound(bytes, normal as int, false, true);
    } else {
        let refused = if bytes::le16(bytes, 0) == DOS_MAGIC {
            Some(normal)
        } else {
            None
        };
        let offset = choose|offset: int| #[trigger] scan_stops(bytes, refused, offset);
        assert(scan_stops(bytes, refused, offset));
        accepted_headers_are_sound(bytes, offset, true, true);
    }
}

/// The model of a captured image is read from the headers that stand at its offset.
pub proof fn models_are_read_from_headers(bytes: Seq<u8>)
    requires
        memory_image(bytes) is Ok,
    ensures
        ({
            let model = memory_image(bytes)->Ok_0;
            candidate(bytes, model.nt_offset, model.salvaged, true) == memory_image(bytes)
        }),
{
    let normal = bytes::le32(bytes, 0x3c);
    if !(bytes::le16(bytes, 0) == DOS_MAGIC && candidate(bytes, normal as int, false, true) is Ok) {
        let refused = if bytes::le16(bytes, 0) == DOS_MAGIC {
            Some(normal)
        } else {
            None
        };
        let offset = choose|offset: int| #[trigger] scan_stops(bytes, refused, offset);
        assert(scan_stops(bytes, refused, offset));
    }
}

} // verus!
