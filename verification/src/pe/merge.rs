//! Restoring damaged headers from the file that an image was loaded from.

use vstd::prelude::*;

use crate::error::{AppError, AppResult};
use crate::error;
use crate::pe::bytes;
use crate::pe::image::{overwrite, read_u16, read_u32, write_u32};
use crate::pe::layout::align_up;
use crate::pe::layout;
use crate::pe::parse::{
    parse_disk_image, MACHINE_AMD64, MACHINE_I386, PE32_MAGIC, PE32_PLUS_MAGIC,
};
use crate::pe::parse;
use crate::pe::{PeImage, PeKind, PeModel, PeModelView, Rva};

verus! {

/// The largest headers that are taken from a file.
pub const MAX_DISK_HEADERS: usize = 0x10_0000;

/// The machine of images of this format.
pub open spec fn kind_machine(kind: PeKind) -> u16 {
    match kind {
        PeKind::Pe32 => MACHINE_I386,
        PeKind::Pe32Plus => MACHINE_AMD64,
    }
}

/// The magic of optional headers of this format.
pub open spec fn kind_magic(kind: PeKind) -> u16 {
    match kind {
        PeKind::Pe32 => PE32_MAGIC,
        PeKind::Pe32Plus => PE32_PLUS_MAGIC,
    }
}

/// The 16-bit field at `at`, or zero where there is none.
pub open spec fn field_or_zero(bytes: Seq<u8>, at: int) -> u16 {
    if at + 2 <= bytes.len() {
        bytes::le16(bytes, at)
    } else {
        0
    }
}

/// What memory says about headers from a file: why they cannot belong to it, or else the entry
/// point that it still holds, if that one can be trusted.
pub open spec fn header_evidence(memory: Seq<u8>, model: PeModelView) -> Result<
    Option<u32>,
    Seq<char>,
> {
    let machine = field_or_zero(memory, model.nt_offset + 4);
    let magic = field_or_zero(memory, model.optional_offset());
    let at = model.entry_point_offset();
    if model.image_size > memory.len() {
        Err("disk SizeOfImage exceeds the captured image"@)
    } else if (machine == MACHINE_I386 || machine == MACHINE_AMD64) && machine != kind_machine(
        model.kind,
    ) {
        Err("disk headers conflict with the captured image architecture"@)
    } else if (magic == PE32_MAGIC || magic == PE32_PLUS_MAGIC) && magic != kind_magic(model.kind) {
        Err("disk headers conflict with the captured optional-header format"@)
    } else if at + 4 <= memory.len() && (machine == kind_machine(model.kind) || magic == kind_magic(
        model.kind,
    )) && model.executable_rva(bytes::le32(memory, at) as int) {
        Ok(Some(bytes::le32(memory, at)))
    } else {
        Ok(None)
    }
}

/// Holds headers from a file against the captured memory.
pub fn validate_header_evidence(memory: &[u8], model: &PeModel) -> (entry_point: AppResult<
    Option<u32>,
>)
    ensures
        match header_evidence(memory@, model@) {
            Ok(expected) => entry_point == Ok::<Option<u32>, AppError>(expected),
            Err(message) => error::fails(entry_point, message),
        },
{
    assert(memory.len() == memory@.len());
    if model.image_size() as usize > memory.len() {
        return Err(AppError::fixed("disk SizeOfImage exceeds the captured image"));
    }
    let optional: usize = model.optional_offset();
    let memory_machine: u16 = match read_u16(memory, model.nt_offset() + 4) {
        Ok(value) => value,
        Err(_) => 0,
    };
    let disk_machine: u16 = match model.kind() {
        PeKind::Pe32 => MACHINE_I386,
        PeKind::Pe32Plus => MACHINE_AMD64,
    };
    if (memory_machine == MACHINE_I386 || memory_machine == MACHINE_AMD64) && memory_machine
        != disk_machine {
        return Err(AppError::fixed("disk headers conflict with the captured image architecture"));
    }
    let memory_magic: u16 = match read_u16(memory, optional) {
        Ok(value) => value,
        Err(_) => 0,
    };
    let disk_magic: u16 = match model.kind() {
        PeKind::Pe32 => PE32_MAGIC,
        PeKind::Pe32Plus => PE32_PLUS_MAGIC,
    };
    if (memory_magic == PE32_MAGIC || memory_magic == PE32_PLUS_MAGIC) && memory_magic
        != disk_magic {
        return Err(
            AppError::fixed("disk headers conflict with the captured optional-header format"),
        );
    }
    let matching: bool = memory_machine == disk_machine || memory_magic == disk_magic;
    match read_u32(memory, optional + 16) {
        Ok(rva) => if matching && model.executable_rva(Rva(rva)) {
            Ok(Some(rva))
        } else {
            Ok(None)
        },
        Err(_) => Ok(None),
    }
}

/// The bytes of a file of `total` bytes that its headers take.
pub open spec fn disk_headers(total: int, model: PeModelView) -> Result<int, Seq<char>> {
    match layout::alignment_of(
        model.section_table_end(),
        model.file_alignment as int,
        usize::MAX as int,
    ) {
        Err(message) => Err(message),
        Ok(size) => if size > MAX_DISK_HEADERS || size > total {
            Err("disk PE header size is outside the 1 MiB safety limit"@)
        } else {
            Ok(size)
        },
    }
}

/// The bytes of a file that its headers take.
pub fn disk_header_size(disk: &[u8], model: &PeModel) -> (size: AppResult<usize>)
    ensures
        match disk_headers(disk@.len() as int, model@) {
            Ok(expected) => size is Ok && size->Ok_0 == expected,
            Err(message) => error::fails(size, message),
        },
{
    let size: usize = align_up(model.section_table_end(), model.file_alignment() as usize)?;
    if size > MAX_DISK_HEADERS || size > disk.len() {
        return Err(AppError::fixed("disk PE header size is outside the 1 MiB safety limit"));
    }
    Ok(size)
}

/// The captured image with the headers of its file.
pub open spec fn merged(memory: Seq<u8>, disk: Seq<u8>) -> Result<Seq<u8>, Seq<char>> {
    match parse::declared_image(disk) {
        Err(message) => Err(message),
        Ok(model) => match header_evidence(memory, model) {
            Err(message) => Err(message),
            Ok(entry_point) => match disk_headers(disk.len() as int, model) {
                Err(message) => Err(message),
                Ok(size) => if size > memory.len() {
                    Err("disk PE headers are larger than the captured image"@)
                } else {
                    let restored = bytes::splice(memory, 0, disk.take(size));
                    match entry_point {
                        None => Ok(restored),
                        Some(rva) => Ok(
                            bytes::splice(
                                restored,
                                model.entry_point_offset(),
                                bytes::bytes32(rva),
                            ),
                        ),
                    }
                },
            },
        },
    }
}

/// Puts the headers of the file over those of the captured image. An entry point that memory
/// still holds is kept.
pub fn merge_header_evidence(memory: &[u8], disk: &[u8]) -> (image: AppResult<Vec<u8>>)
    ensures
        error::agrees(image, merged(memory@, disk@)),
{
    let disk_image: PeImage = parse_disk_image(disk)?;
    let model: &PeModel = disk_image.model();
    let entry_point: Option<u32> = validate_header_evidence(memory, model)?;
    let size: usize = disk_header_size(disk, model)?;
    if size > memory.len() {
        return Err(AppError::fixed("disk PE headers are larger than the captured image"));
    }
    proof {
        use_type_invariant(model);
        model.lemma_accepted();
        layout::aligned_is_least_multiple(
            model@.section_table_end(),
            model@.file_alignment as int,
        );
    }
    let mut repaired: Vec<u8> = vstd::slice::slice_to_vec(memory);
    overwrite(&mut repaired, 0, vstd::slice::slice_subrange(disk, 0, size));
    assert(disk@.take(size as int) =~= disk@.subrange(0, size as int));
    if let Some(rva) = entry_point {
        write_u32(&mut repaired, model.optional_offset() + 16, rva)?;
    }
    Ok(repaired)
}

/// The headers of a file replace those of the captured image, and nothing behind them.
pub proof fn repair_keeps_captured_data(memory: Seq<u8>, disk: Seq<u8>)
    requires
        disk.len() <= usize::MAX,
        merged(memory, disk) is Ok,
    ensures
        ({
            let repaired = merged(memory, disk)->Ok_0;
            let size = disk_headers(disk.len() as int, parse::declared_image(disk)->Ok_0)->Ok_0;
            &&& repaired.len() == memory.len()
            &&& size <= memory.len()
            &&& forall|o: int|
                #![trigger repaired[o]]
                size <= o < memory.len() ==> repaired[o] == memory[o]
        }),
{
    let model = parse::declared_image(disk)->Ok_0;
    parse::accepted_headers_are_sound(disk, bytes::le32(disk, 0x3c) as int, false, false);
    layout::aligned_is_least_multiple(model.section_table_end(), model.file_alignment as int);
}

/// An entry point that memory still holds survives the repair of its headers: the repaired headers
/// say it, and it lies in an executable section.
pub proof fn repair_keeps_the_entry_point(memory: Seq<u8>, disk: Seq<u8>)
    requires
        disk.len() <= usize::MAX,
        merged(memory, disk) is Ok,
        header_evidence(memory, parse::declared_image(disk)->Ok_0)->Ok_0 is Some,
    ensures
        ({
            let model = parse::declared_image(disk)->Ok_0;
            let at = model.entry_point_offset();
            &&& bytes::le32(merged(memory, disk)->Ok_0, at) == bytes::le32(memory, at)
            &&& model.executable_rva(bytes::le32(memory, at) as int)
        }),
{
    let model = parse::declared_image(disk)->Ok_0;
    parse::accepted_headers_are_sound(disk, bytes::le32(disk, 0x3c) as int, false, false);
    let at = model.entry_point_offset();
    let size = disk_headers(disk.len() as int, model)->Ok_0;
    bytes::written_u32_reads_back(
        bytes::splice(memory, 0, disk.take(size)),
        at,
        bytes::le32(memory, at),
    );
}

} // verus!
