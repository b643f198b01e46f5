//! The header fields of a rebuilt image.

use vstd::prelude::*;

use crate::error::{AppError, AppResult};
use crate::error;
use crate::pe::bytes;
use crate::pe::image::{read_u16, read_u32, write_u32, write_u64, Edit};
use crate::pe::image;
use crate::pe::layout::align_up_u64;
use crate::pe::layout;
use crate::pe::{EntryPointRva, PeKind, PeModel, PeModelView, Rva, SECTION_HEADER_SIZE};
use crate::text;
use crate::text::{joined, with_hex};

verus! {

pub const IMAGE_SCN_CNT_CODE: u32 = 0x0000_0020;

pub const IMAGE_SCN_CNT_INITIALIZED_DATA: u32 = 0x0000_0040;

pub const IMAGE_SCN_CNT_UNINITIALIZED_DATA: u32 = 0x0000_0080;

/// The bytes after the address at which the image was found is written as its base.
pub open spec fn with_image_base(bytes: Seq<u8>, model: PeModelView, base: u64) -> Edit {
    let start = Edit::start(bytes);
    match model.kind {
        PeKind::Pe32 => if base > u32::MAX {
            start.fail("observed PE32 image base exceeds 32 bits"@)
        } else {
            start.put32(model.image_base_offset(), base as u32)
        },
        PeKind::Pe32Plus => start.put64(model.image_base_offset(), base),
    }
}

/// Writes the address at which the image was found as its base.
pub fn write_image_base(output: &mut [u8], model: &PeModel, observed_base: u64) -> (outcome:
    AppResult<()>)
    ensures
        image::edited(
            outcome,
            final(output)@,
            with_image_base(old(output)@, model@, observed_base),
        ),
{
    match model.kind() {
        PeKind::Pe32 => {
            if observed_base > u32::MAX as u64 {
                return Err(AppError::fixed("observed PE32 image base exceeds 32 bits"));
            }
            write_u32(output, model.optional_offset() + 28, observed_base as u32)
        },
        PeKind::Pe32Plus => write_u64(output, model.optional_offset() + 24, observed_base),
    }
}

/// What is said of an entry point that cannot be executed.
pub open spec fn entry_point_refusal(rva: u32) -> Seq<char> {
    "manual entry point RVA 0x"@ + text::hex(rva as nat) + " is not inside an executable section"@
}

/// The bytes after the chosen entry point, if there is one, is written.
pub open spec fn with_entry_point(
    bytes: Seq<u8>,
    model: PeModelView,
    entry_point: Option<u32>,
) -> Edit {
    let start = Edit::start(bytes);
    match entry_point {
        None => start,
        Some(rva) => if model.executable_rva(rva as int) {
            start.put32(model.entry_point_offset(), rva)
        } else {
            start.fail(entry_point_refusal(rva))
        },
    }
}

/// The address that an optional entry point stands for.
pub open spec fn chosen_entry_point(entry_point: Option<EntryPointRva>) -> Option<u32> {
    match entry_point {
        Some(rva) => Some(rva@),
        None => None,
    }
}

/// Writes the chosen entry point, if there is one; it must lie in an executable section.
pub fn apply_entry_point(
    output: &mut [u8],
    model: &PeModel,
    entry_point: Option<EntryPointRva>,
) -> (outcome: AppResult<()>)
    ensures
        image::edited(
            outcome,
            final(output)@,
            with_entry_point(old(output)@, model@, chosen_entry_point(entry_point)),
        ),
{
    match entry_point {
        None => Ok(()),
        Some(chosen) => {
            let rva: u32 = chosen.get();
            if !model.executable_rva(Rva(rva)) {
                let mut message: String = with_hex("manual entry point RVA 0x", rva as u64);
                message.append(" is not inside an executable section");
                return Err(AppError::new(message));
            }
            write_u32(output, model.optional_offset() + 16, rva)
        },
    }
}

/// The sum of two sizes, if it is a size.
pub open spec fn size_sum(left: u32, right: u32, name: Seq<char>) -> Result<u32, Seq<char>> {
    if left + right > u32::MAX {
        Err(name + " overflowed"@)
    } else {
        Ok((left + right) as u32)
    }
}

/// The sum of two sizes, if it is a size.
pub fn add_size(left: u32, right: u32, name: &str) -> (sum: AppResult<u32>)
    ensures
        match size_sum(left, right, name@) {
            Ok(expected) => sum is Ok && sum->Ok_0 == expected,
            Err(message) => error::fails(sum, message),
        },
{
    match left.checked_add(right) {
        Some(sum) => Ok(sum),
        None => Err(AppError::new(joined(name, " overflowed"))),
    }
}

/// The sizes in the optional header that follow from the section headers.
#[derive(Clone, Copy, Debug, PartialEq, Eq, Structural)]
pub struct DerivedSizes {
    pub code: u32,
    pub initialized_data: u32,
    pub uninitialized_data: u32,
    pub base_of_code: u32,
}

/// Sizes that are being summed, with what stopped the summing, if something did.
pub struct Summing {
    pub sizes: DerivedSizes,
    pub failure: Option<Seq<char>>,
}

/// What holds of the section header at `offset`: why it cannot be read, if it cannot.
pub open spec fn header_failure(total: int, offset: int) -> Option<Seq<char>> {
    if image::field_failure(total, offset + 8, 4) is Some {
        image::field_failure(total, offset + 8, 4)
    } else if image::field_failure(total, offset + 12, 4) is Some {
        image::field_failure(total, offset + 12, 4)
    } else if image::field_failure(total, offset + 16, 4) is Some {
        image::field_failure(total, offset + 16, 4)
    } else {
        image::field_failure(total, offset + 36, 4)
    }
}

impl Summing {
    /// The sizes after the code of one section.
    pub open spec fn add_code(self, raw_size: u32, address: u32) -> Summing {
        match size_sum(self.sizes.code, raw_size, "code size"@) {
            Err(message) => Summing { sizes: self.sizes, failure: Some(message) },
            Ok(code) => Summing {
                sizes: DerivedSizes {
                    code,
                    base_of_code: if self.sizes.base_of_code == 0 || address
                        < self.sizes.base_of_code {
                        address
                    } else {
                        self.sizes.base_of_code
                    },
                    ..self.sizes
                },
                failure: None,
            },
        }
    }

    /// The sizes after the initialized data of one section.
    pub open spec fn add_initialized(self, raw_size: u32) -> Summing {
        match size_sum(self.sizes.initialized_data, raw_size, "initialized-data size"@) {
            Err(message) => Summing { sizes: self.sizes, failure: Some(message) },
            Ok(initialized_data) => Summing {
                sizes: DerivedSizes { initialized_data, ..self.sizes },
                failure: None,
            },
        }
    }

    /// The sizes after the uninitialized data of one section.
    pub open spec fn add_uninitialized(self, virtual_size: u32, file_alignment: u32) -> Summing {
        match layout::alignment_of(virtual_size as int, file_alignment as int, u64::MAX as int) {
            Err(message) => Summing { sizes: self.sizes, failure: Some(message) },
            Ok(size) => if size > u32::MAX {
                Summing {
                    sizes: self.sizes,
                    failure: Some("uninitialized-data size exceeds u32"@),
                }
            } else {
                match size_sum(
                    self.sizes.uninitialized_data,
                    size as u32,
                    "uninitialized-data size"@,
                ) {
                    Err(message) => Summing { sizes: self.sizes, failure: Some(message) },
                    Ok(uninitialized_data) => Summing {
                        sizes: DerivedSizes { uninitialized_data, ..self.sizes },
                        failure: None,
                    },
                }
            },
        }
    }

    /// The sizes after the section whose header stands at `offset`.
    pub open spec fn add_section(self, bytes: Seq<u8>, offset: int, file_alignment: u32) -> Summing {
        let flags = bytes::le32(bytes, offset + 36);
        let raw_size = bytes::le32(bytes, offset + 16);
        if self.failure is Some {
            self
        } else if header_failure(bytes.len() as int, offset) is Some {
            Summing { sizes: self.sizes, failure: header_failure(bytes.len() as int, offset) }
        } else {
            let coded = if flags & IMAGE_SCN_CNT_CODE != 0 {
                self.add_code(raw_size, bytes::le32(bytes, offset + 12))
            } else {
                self
            };
            let initialized = if coded.failure is None && flags & IMAGE_SCN_CNT_INITIALIZED_DATA
                != 0 {
                coded.add_initialized(raw_size)
            } else {
                coded
            };
            if initialized.failure is None && flags & IMAGE_SCN_CNT_UNINITIALIZED_DATA != 0 {
                initialized.add_uninitialized(bytes::le32(bytes, offset + 8), file_alignment)
            } else {
                initialized
            }
        }
    }
}

impl DerivedSizes {
    /// The sizes before any section is added.
    pub open spec fn zero() -> DerivedSizes {
        DerivedSizes { code: 0, initialized_data: 0, uninitialized_data: 0, base_of_code: 0 }
    }

    /// The sizes before any section is added.
    pub fn new() -> (sizes: DerivedSizes)
        ensures
            sizes == DerivedSizes::zero(),
    {
        DerivedSizes { code: 0, initialized_data: 0, uninitialized_data: 0, base_of_code: 0 }
    }

    /// Adds the section whose header stands at `offset`.
    pub fn add_section(&mut self, output: &[u8], offset: usize, file_alignment: u32) -> (outcome:
        AppResult<()>)
        ensures
            ({
                let expected = (Summing { sizes: *old(self), failure: None }).add_section(
                    output@,
                    offset as int,
                    file_alignment,
                );
                *final(self) == expected.sizes && match expected.failure {
                    Some(message) => error::fails(outcome, message),
                    None => outcome is Ok,
                }
            }),
    {
        let virtual_size: u32 = read_u32(output, offset.saturating_add(8))?;
        let virtual_address: u32 = read_u32(output, offset.saturating_add(12))?;
        let raw_size: u32 = read_u32(output, offset.saturating_add(16))?;
        let flags: u32 = read_u32(output, offset.saturating_add(36))?;
        if flags & IMAGE_SCN_CNT_CODE != 0 {
            self.code = add_size(self.code, raw_size, "code size")?;
            if self.base_of_code == 0 || virtual_address < self.base_of_code {
                self.base_of_code = virtual_address;
            }
        }
        if flags & IMAGE_SCN_CNT_INITIALIZED_DATA != 0 {
            self.initialized_data =
            add_size(self.initialized_data, raw_size, "initialized-data size")?;
        }
        if flags & IMAGE_SCN_CNT_UNINITIALIZED_DATA != 0 {
            let aligned: u64 = align_up_u64(virtual_size as u64, file_alignment as u64)?;
            if aligned > u32::MAX as u64 {
                return Err(AppError::fixed("uninitialized-data size exceeds u32"));
            }
            self.uninitialized_data =
            add_size(self.uninitialized_data, aligned as u32, "uninitialized-data size")?;
        }
        Ok(())
    }
}

/// The sizes that follow from the first `count` section headers from `first` on.
pub open spec fn summed(bytes: Seq<u8>, first: int, file_alignment: u32, count: nat) -> Summing
    decreases count,
{
    if count == 0 {
        Summing { sizes: DerivedSizes::zero(), failure: None }
    } else {
        summed(bytes, first, file_alignment, (count - 1) as nat).add_section(
            bytes,
            first + SECTION_HEADER_SIZE * (count - 1),
            file_alignment,
        )
    }
}

proof fn lemma_summing_stops(bytes: Seq<u8>, first: int, file_alignment: u32, fewer: nat, more: nat)
    requires
        fewer <= more,
        summed(bytes, first, file_alignment, fewer).failure is Some,
    ensures
        summed(bytes, first, file_alignment, more) == summed(bytes, first, file_alignment, fewer),
    decreases more,
{
    if fewer < more {
        lemma_summing_stops(bytes, first, file_alignment, fewer, (more - 1) as nat);
    }
}

/// The bytes after the sizes that follow from the section headers are written.
pub open spec fn with_derived_fields(bytes: Seq<u8>, model: PeModelView) -> Edit {
    let start = Edit::start(bytes);
    let count = bytes::le16(bytes, model.nt_offset + 6);
    let sum = summed(
        bytes,
        model.section_table_offset(),
        model.file_alignment,
        count as nat,
    );
    if image::field_failure(bytes.len() as int, model.nt_offset + 6, 2) is Some {
        start.fail(image::field_failure(bytes.len() as int, model.nt_offset + 6, 2)->0)
    } else if count < model.sections.len() || count > model.sections.len() + 1 {
        start.fail("rebuilt PE has an invalid section count"@)
    } else if sum.failure is Some {
        start.fail(sum.failure->0)
    } else {
        start.put32(model.optional_offset() + 4, sum.sizes.code).put32(
            model.optional_offset() + 8,
            sum.sizes.initialized_data,
        ).put32(model.optional_offset() + 12, sum.sizes.uninitialized_data).put32(
            model.optional_offset() + 20,
            sum.sizes.base_of_code,
        )
    }
}

/// Writes the sizes that follow from the section headers.
pub fn write_derived_header_fields(output: &mut [u8], model: &PeModel) -> (outcome: AppResult<()>)
    ensures
        image::edited(outcome, final(output)@, with_derived_fields(old(output)@, model@)),
{
    proof {
        use_type_invariant(model);
        model.lemma_accepted();
    }
    let optional: usize = model.optional_offset();
    let sections: usize = model.sections().len();
    let first: usize = model.sections()[0].header_offset;
    let section_count: usize = read_u16(output, model.nt_offset() + 6)? as usize;
    if section_count < sections || section_count > sections + 1 {
        return Err(AppError::fixed("rebuilt PE has an invalid section count"));
    }
    let file_alignment: u32 = model.file_alignment();
    let mut sizes: DerivedSizes = DerivedSizes::new();
    let mut index: usize = 0;
    while index < section_count
        invariant
            index <= section_count <= model@.sections.len() + 1,
            model@.valid(),
            first == model@.section_table_offset(),
            file_alignment == model@.file_alignment,
            output@ == old(output)@,
            section_count == bytes::le16(output@, model@.nt_offset + 6),
            image::field_failure(output@.len() as int, model@.nt_offset + 6, 2) is None,
            section_count >= model@.sections.len(),
            sizes == summed(output@, first as int, file_alignment, index as nat).sizes,
            summed(output@, first as int, file_alignment, index as nat).failure is None,
        decreases section_count - index,
    {
        let ghost before = summed(output@, first as int, file_alignment, index as nat);
        assert(before == (Summing { sizes, failure: None }));
        let added: AppResult<()> = sizes.add_section(
            output,
            first + SECTION_HEADER_SIZE * index,
            file_alignment,
        );
        proof {
            if added is Err {
                lemma_summing_stops(
                    output@,
                    first as int,
                    file_alignment,
                    (index + 1) as nat,
                    section_count as nat,
                );
            }
        }
        added?;
        index = index + 1;
    }
    write_u32(output, optional + 4, sizes.code)?;
    write_u32(output, optional + 8, sizes.initialized_data)?;
    write_u32(output, optional + 12, sizes.uninitialized_data)?;
    write_u32(output, optional + 20, sizes.base_of_code)
}

} // verus!
