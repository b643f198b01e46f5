//! Reading and writing the fields of an image.

use vstd::prelude::*;

use crate::error::{AppError, AppResult};
use crate::error;
use crate::pe::bytes;
use crate::pe::{DataDirectory, PeImage, PeKind, PeModel, PeModelView, Rva, SectionModel};
use crate::text::{joined, utf8_text};

verus! {

/// Why `length` bytes from `offset` on cannot be had from `total` bytes, if they cannot.
pub open spec fn range_failure(total: int, offset: int, length: int, name: Seq<char>) -> Option<
    Seq<char>,
> {
    if offset + length > usize::MAX {
        Some(name + " range overflowed"@)
    } else if offset + length > total {
        Some(name + " lies outside the image"@)
    } else {
        None
    }
}

/// Why a field of `length` bytes cannot be had at `offset`, if it cannot.
pub open spec fn field_failure(total: int, offset: int, length: int) -> Option<Seq<char>> {
    range_failure(total, offset, length, "PE field"@)
}

/// Bytes that are being written to, with what stopped the writing, if something did.
pub struct Edit {
    pub bytes: Seq<u8>,
    pub failure: Option<Seq<char>>,
}

impl Edit {
    /// The bytes before anything is written.
    pub open spec fn start(bytes: Seq<u8>) -> Edit {
        Edit { bytes, failure: None }
    }

    /// Stops the writing, unless it has stopped before.
    pub open spec fn fail(self, message: Seq<char>) -> Edit {
        if self.failure is Some {
            self
        } else {
            Edit { bytes: self.bytes, failure: Some(message) }
        }
    }

    /// Writes the bytes of one field at `at`; stops if it does not fit.
    pub open spec fn put(self, at: int, part: Seq<u8>) -> Edit {
        if self.failure is Some {
            self
        } else {
            match field_failure(self.bytes.len() as int, at, part.len() as int) {
                Some(message) => Edit { bytes: self.bytes, failure: Some(message) },
                None => Edit { bytes: bytes::splice(self.bytes, at, part), failure: None },
            }
        }
    }

    /// Writes a 16-bit field.
    pub open spec fn put16(self, at: int, value: u16) -> Edit {
        self.put(at, bytes::bytes16(value))
    }

    /// Writes a 32-bit field.
    pub open spec fn put32(self, at: int, value: u32) -> Edit {
        self.put(at, bytes::bytes32(value))
    }

    /// Writes a 64-bit field.
    pub open spec fn put64(self, at: int, value: u64) -> Edit {
        self.put(at, bytes::bytes64(value))
    }
}

/// The writing left the bytes `after`, and came to its end or stopped, as `expected` says.
pub open spec fn edited<T>(outcome: AppResult<T>, after: Seq<u8>, expected: Edit) -> bool {
    &&& after == expected.bytes
    &&& match expected.failure {
        Some(message) => error::fails(outcome, message),
        None => outcome is Ok,
    }
}

/// The `length` bytes from `offset` on.
pub fn range<'a>(bytes: &'a [u8], offset: usize, length: usize, name: &str) -> (part: AppResult<
    &'a [u8],
>)
    ensures
        match range_failure(bytes@.len() as int, offset as int, length as int, name@) {
            Some(message) => error::fails(part, message),
            None => part is Ok && part->Ok_0@ == bytes@.subrange(
                offset as int,
                offset + length,
            ),
        },
{
    match offset.checked_add(length) {
        None => Err(AppError::new(joined(name, " range overflowed"))),
        Some(end) => if end > bytes.len() {
            Err(AppError::new(joined(name, " lies outside the image")))
        } else {
            Ok(vstd::slice::slice_subrange(bytes, offset, end))
        },
    }
}

/// The `length` bytes from `offset` on, to be changed.
pub fn range_mut<'a>(bytes: &'a mut [u8], offset: usize, length: usize, name: &str) -> (part:
    AppResult<&'a mut [u8]>)
    ensures
        match range_failure(old(bytes)@.len() as int, offset as int, length as int, name@) {
            Some(message) => error::fails(part, message) && final(bytes)@ == old(bytes)@,
            None => part is Ok && part->Ok_0@ == old(bytes)@.subrange(
                offset as int,
                offset + length,
            ) && final(bytes)@ == old(bytes)@.subrange(0, offset as int) + final(part->Ok_0)@
                + old(bytes)@.subrange(offset + length, old(bytes)@.len() as int),
        },
{
    match offset.checked_add(length) {
        None => Err(AppError::new(joined(name, " range overflowed"))),
        Some(end) => if end > bytes.len() {
            Err(AppError::new(joined(name, " lies outside the image")))
        } else {
            let (_before, rest) = bytes.split_at_mut(offset);
            let (part, _after) = rest.split_at_mut(length);
            assert(final(_after)@ =~= old(bytes)@.subrange(end as int, old(bytes)@.len() as int));
            Ok(part)
        },
    }
}

/// Writes `part` over the bytes from `at` on.
pub fn overwrite(bytes: &mut [u8], at: usize, part: &[u8])
    requires
        at + part@.len() <= old(bytes)@.len(),
    ensures
        final(bytes)@ == bytes::splice(old(bytes)@, at as int, part@),
{
    let ghost before = bytes@;
    let mut index: usize = 0;
    while index < part.len()
        invariant
            index <= part@.len(),
            at + part@.len() <= before.len(),
            before.len() == bytes@.len(),
            bytes.len() == bytes@.len(),
            forall|i: int|
                0 <= i < before.len() ==> #[trigger] bytes@[i] == if at <= i < at + index {
                    part@[i - at]
                } else {
                    before[i]
                },
        decreases part@.len() - index,
    {
        bytes[at + index] = part[index];
        index = index + 1;
    }
    assert(bytes@ =~= bytes::splice(before, at as int, part@));
}

/// Writes a 16-bit field.
pub fn write_u16(bytes: &mut [u8], offset: usize, value: u16) -> (outcome: AppResult<()>)
    ensures
        edited(outcome, final(bytes)@, Edit::start(old(bytes)@).put16(offset as int, value)),
{
    let part: &mut [u8] = range_mut(bytes, offset, 2, "PE field")?;
    part[0] = (value % 0x100) as u8;
    part[1] = (value / 0x100) as u8;
    assert(bytes@ =~= bytes::splice(old(bytes)@, offset as int, bytes::bytes16(value)));
    Ok(())
}

/// Writes a 32-bit field.
pub fn write_u32(bytes: &mut [u8], offset: usize, value: u32) -> (outcome: AppResult<()>)
    ensures
        edited(outcome, final(bytes)@, Edit::start(old(bytes)@).put32(offset as int, value)),
{
    let part: &mut [u8] = range_mut(bytes, offset, 4, "PE field")?;
    part[0] = (value % 0x100) as u8;
    part[1] = (value / 0x100 % 0x100) as u8;
    part[2] = (value / 0x1_0000 % 0x100) as u8;
    part[3] = (value / 0x100_0000) as u8;
    assert(bytes@ =~= bytes::splice(old(bytes)@, offset as int, bytes::bytes32(value)));
    Ok(())
}

/// Writes a 64-bit field.
pub fn write_u64(bytes: &mut [u8], offset: usize, value: u64) -> (outcome: AppResult<()>)
    ensures
        edited(outcome, final(bytes)@, Edit::start(old(bytes)@).put64(offset as int, value)),
{
    let low: u32 = (value % 0x1_0000_0000) as u32;
    let high: u32 = (value / 0x1_0000_0000) as u32;
    let part: &mut [u8] = range_mut(bytes, offset, 8, "PE field")?;
    part[0] = (low % 0x100) as u8;
    part[1] = (low / 0x100 % 0x100) as u8;
    part[2] = (low / 0x1_0000 % 0x100) as u8;
    part[3] = (low / 0x100_0000) as u8;
    part[4] = (high % 0x100) as u8;
    part[5] = (high / 0x100 % 0x100) as u8;
    part[6] = (high / 0x1_0000 % 0x100) as u8;
    part[7] = (high / 0x100_0000) as u8;
    assert(bytes@ =~= bytes::splice(old(bytes)@, offset as int, bytes::bytes64(value)));
    Ok(())
}

/// Reads a 16-bit field.
pub fn read_u16(bytes: &[u8], offset: usize) -> (value: AppResult<u16>)
    ensures
        match field_failure(bytes@.len() as int, offset as int, 2) {
            Some(message) => error::fails(value, message),
            None => value == Ok::<u16, AppError>(bytes::le16(bytes@, offset as int)),
        },
{
    let part: &[u8] = range(bytes, offset, 2, "PE field")?;
    Ok(part[0] as u16 + 0x100 * (part[1] as u16))
}

/// Reads a 32-bit field.
pub fn read_u32(bytes: &[u8], offset: usize) -> (value: AppResult<u32>)
    ensures
        match field_failure(bytes@.len() as int, offset as int, 4) {
            Some(message) => error::fails(value, message),
            None => value == Ok::<u32, AppError>(bytes::le32(bytes@, offset as int)),
        },
{
    let part: &[u8] = range(bytes, offset, 4, "PE field")?;
    Ok(
        part[0] as u32 + 0x100 * (part[1] as u32) + 0x1_0000 * (part[2] as u32) + 0x100_0000 * (
        part[3] as u32),
    )
}

/// Reads an address of the target: four or eight bytes, as the format has them.
pub fn read_pointer(bytes: &[u8], offset: usize, kind: PeKind) -> (value: AppResult<u64>)
    ensures
        match kind {
            PeKind::Pe32 => match field_failure(bytes@.len() as int, offset as int, 4) {
                Some(message) => error::fails(value, message),
                None => value == Ok::<u64, AppError>(bytes::le32(bytes@, offset as int) as u64),
            },
            PeKind::Pe32Plus => match range_failure(
                bytes@.len() as int,
                offset as int,
                8,
                "PE pointer"@,
            ) {
                Some(message) => error::fails(value, message),
                None => value == Ok::<u64, AppError>(bytes::le64(bytes@, offset as int)),
            },
        },
{
    match kind {
        PeKind::Pe32 => {
            let value: u32 = read_u32(bytes, offset)?;
            Ok(value as u64)
        },
        PeKind::Pe32Plus => {
            let part: &[u8] = range(bytes, offset, 8, "PE pointer")?;
            let low: u32 = part[0] as u32 + 0x100 * (part[1] as u32) + 0x1_0000 * (part[2] as u32)
                + 0x100_0000 * (part[3] as u32);
            let high: u32 = part[4] as u32 + 0x100 * (part[5] as u32) + 0x1_0000 * (part[6] as u32)
                + 0x100_0000 * (part[7] as u32);
            Ok(low as u64 + 0x1_0000_0000 * (high as u64))
        },
    }
}

/// Checks that `length` bytes can be had from `offset` on.
pub fn require_range(bytes: &[u8], offset: usize, length: usize) -> (outcome: AppResult<()>)
    ensures
        match range_failure(bytes@.len() as int, offset as int, length as int, "PE structure"@) {
            Some(message) => error::fails(outcome, message),
            None => outcome is Ok,
        },
{
    let _part: &[u8] = range(bytes, offset, length, "PE structure")?;
    Ok(())
}

/// The sum of two offsets, if it is an offset.
pub fn checked_add(left: usize, right: usize, field: &str) -> (sum: AppResult<usize>)
    ensures
        left + right <= usize::MAX ==> sum == Ok::<usize, AppError>((left + right) as usize),
        left + right > usize::MAX ==> error::fails(sum, field@ + " overflowed"@),
{
    match left.checked_add(right) {
        Some(sum) => Ok(sum),
        None => Err(AppError::new(joined(field, " overflowed"))),
    }
}

/// The bytes from `at` on have their first zero after exactly `length` others.
pub open spec fn ends_after(bytes: Seq<u8>, at: int, length: int) -> bool {
    &&& 0 <= length
    &&& at + length < bytes.len()
    &&& bytes[at + length] == 0
    &&& forall|i: int| 0 <= i < length ==> #[trigger] bytes[at + i] != 0
}

/// The bytes from `at` up to the first zero, if there are any and the zero is one of the first
/// `limit` bytes.
pub open spec fn zero_terminated(bytes: Seq<u8>, at: int, limit: int) -> Option<Seq<u8>> {
    if exists|length: int| 0 < length < limit && #[trigger] ends_after(bytes, at, length) {
        let length = choose|length: int|
            0 < length < limit && #[trigger] ends_after(bytes, at, length);
        Some(bytes.subrange(at, at + length))
    } else {
        None
    }
}

/// A text has one length.
pub proof fn lemma_zero_terminated(bytes: Seq<u8>, at: int, limit: int, length: int)
    requires
        0 <= at,
        ends_after(bytes, at, length),
    ensures
        zero_terminated(bytes, at, limit) == if 0 < length < limit {
            Some(bytes.subrange(at, at + length))
        } else {
            None
        },
{
    assert forall|other: int| #[trigger] ends_after(bytes, at, other) implies other == length by {
        if other < length {
            assert(bytes[at + other] != 0);
        } else if length < other {
            assert(bytes[at + length] != 0);
        }
    }
}

/// The bytes of the zero-terminated text at `at`.
pub fn terminated<'a>(bytes: &'a [u8], at: usize, limit: usize) -> (text: Option<&'a [u8]>)
    ensures
        match zero_terminated(bytes@, at as int, limit as int) {
            Some(part) => text is Some && text->0@ == part,
            None => text is None,
        },
{
    if at > bytes.len() {
        return None;
    }
    let mut length: usize = 0;
    while length < limit && length < bytes.len() - at
        invariant
            at <= bytes@.len(),
            length <= limit,
            length <= bytes@.len() - at,
            forall|i: int| 0 <= i < length ==> #[trigger] bytes@[at + i] != 0,
        decreases limit - length,
    {
        if bytes[at + length] == 0 {
            proof {
                lemma_zero_terminated(bytes@, at as int, limit as int, length as int);
            }
            if length == 0 {
                return None;
            }
            return Some(vstd::slice::slice_subrange(bytes, at, at + length));
        }
        length = length + 1;
    }
    None
}

/// The zero-terminated text at `rva`, of at most `limit` bytes with its end.
pub fn read_ascii(bytes: &[u8], rva: Rva, limit: usize) -> (text: Option<&str>)
    ensures
        match zero_terminated(bytes@, rva.0 as int, limit as int) {
            Some(part) => if vstd::utf8::valid_utf8(part) {
                text is Some && text->0@ == vstd::utf8::decode_utf8(part)
            } else {
                text is None
            },
            None => text is None,
        },
{
    match terminated(bytes, rva.as_usize(), limit) {
        Some(part) => utf8_text(part),
        None => None,
    }
}

impl Rva {
    /// The address as an index into the image.
    pub fn as_usize(self) -> (value: usize)
        ensures
            value == self.0,
    {
        self.0 as usize
    }
}

impl DataDirectory {
    /// Where the data starts.
    pub fn rva(self) -> (rva: Rva)
        ensures
            rva == self.rva,
    {
        self.rva
    }

    /// The bytes that the data takes.
    pub fn size(self) -> (size: u32)
        ensures
            size == self.size,
    {
        self.size
    }
}

impl SectionModel {
    /// The bytes that the section takes in memory.
    pub fn span(&self) -> (span: u32)
        ensures
            span == self@.span(),
    {
        if self.virtual_size >= self.raw_size {
            self.virtual_size
        } else {
            self.raw_size
        }
    }

    /// `rva` lies in the section.
    pub fn contains_rva(&self, rva: Rva) -> (contains: bool)
        ensures
            contains == self@.contains(rva.0 as int),
    {
        let start: u32 = self.virtual_address.get();
        let end: u32 = start.saturating_add(self.span());
        rva.get() >= start && rva.get() < end
    }

    /// The section is mapped for execution.
    pub fn is_executable(&self) -> (executable: bool)
        ensures
            executable == self@.executable(),
    {
        self.characteristics & 0x2000_0000 != 0
    }

    /// The name, filled up with zeros.
    pub fn name(&self) -> (name: &[u8; 8])
        ensures
            name@ == self@.name,
    {
        &self.name
    }

    /// Where the section starts in memory.
    pub fn virtual_address(&self) -> (rva: Rva)
        ensures
            rva.0 == self@.virtual_address,
    {
        self.virtual_address
    }

    /// The flags of the section.
    pub fn characteristics(&self) -> (characteristics: u32)
        ensures
            characteristics == self@.characteristics,
    {
        self.characteristics
    }
}

/// The data directory with this index, if the headers have it and it is set.
pub open spec fn model_directory(model: PeModelView, bytes: Seq<u8>, index: int) -> Result<
    Option<DataDirectory>,
    Seq<char>,
> {
    let at = model.directory_at(index);
    if index >= model.directory_count {
        Ok(None)
    } else if at + 8 > bytes.len() {
        Err("PE field"@ + " lies outside the image"@)
    } else if bytes::le32(bytes, at) == 0 || bytes::le32(bytes, at + 4) == 0 {
        Ok(None)
    } else {
        Ok(Some(DataDirectory { rva: Rva(bytes::le32(bytes, at)), size: bytes::le32(bytes, at + 4) }))
    }
}

impl PeModel {
    /// The data directory with this index, if the headers have it and it is set.
    pub fn directory(&self, bytes: &[u8], index: usize) -> (directory: AppResult<
        Option<DataDirectory>,
    >)
        ensures
            match model_directory(self@, bytes@, index as int) {
                Ok(value) => directory == Ok::<Option<DataDirectory>, AppError>(value),
                Err(message) => error::fails(directory, message),
            },
    {
        proof {
            use_type_invariant(self);
        }
        match self.directory_offset(index)? {
            None => Ok(None),
            Some(offset) => {
                let rva: u32 = read_u32(bytes, offset)?;
                let size: u32 = read_u32(bytes, checked_add(offset, 4, "data-directory size")?)?;
                if rva == 0 || size == 0 {
                    Ok(None)
                } else {
                    Ok(Some(DataDirectory { rva: Rva(rva), size }))
                }
            },
        }
    }

    /// Where the data directory with this index stands, if the headers have it.
    pub fn directory_offset(&self, index: usize) -> (offset: AppResult<Option<usize>>)
        ensures
            index >= self@.directory_count ==> offset == Ok::<Option<usize>, AppError>(None),
            index < self@.directory_count ==> offset == Ok::<Option<usize>, AppError>(
                Some(self@.directory_at(index as int) as usize),
            ) && 0 <= self@.directory_at(index as int) && self@.directory_at(index as int) + 8
                <= usize::MAX,
    {
        proof {
            use_type_invariant(self);
        }
        if index >= self.directory_count() {
            return Ok(None);
        }
        let start: usize = self.data_directory_offset();
        match index.checked_mul(8) {
            None => Err(AppError::fixed("data-directory index overflowed")),
            Some(relative) => {
                let offset: usize = checked_add(start, relative, "data-directory offset")?;
                Ok(Some(offset))
            },
        }
    }

    /// `rva` lies in a section that is mapped for execution.
    pub fn executable_rva(&self, rva: Rva) -> (executable: bool)
        ensures
            executable == self@.executable_rva(rva.0 as int),
    {
        let sections: &Vec<SectionModel> = self.sections();
        let mut i: usize = 0;
        while i < sections.len()
            invariant
                i <= sections@.len(),
                sections@.len() == self@.sections.len(),
                forall|j: int|
                    0 <= j < sections@.len() ==> (#[trigger] sections@[j])@ == self@.sections[j],
                forall|j: int|
                    0 <= j < i ==> !((#[trigger] self@.sections[j]).executable()
                        && self@.sections[j].contains(rva.0 as int)),
            decreases sections@.len() - i,
        {
            if sections[i].is_executable() && sections[i].contains_rva(rva) {
                assert(self@.sections[i as int].executable());
                return true;
            }
            i = i + 1;
        }
        false
    }
}

impl<'a> PeImage<'a> {
    /// The bytes of the image.
    pub closed spec fn data(&self) -> Seq<u8> {
        self.bytes@
    }

    /// The model of the headers.
    pub closed spec fn headers(&self) -> PeModelView {
        self.model@
    }

    /// The image with these bytes and this model.
    pub fn new(bytes: &'a [u8], model: PeModel) -> (image: PeImage<'a>)
        ensures
            image.data() == bytes@,
            image.headers() == model@,
    {
        PeImage { bytes, model }
    }

    /// The bytes of the image.
    pub fn bytes(&self) -> (bytes: &'a [u8])
        ensures
            bytes@ == self.data(),
    {
        self.bytes
    }

    /// The model of the headers.
    pub fn model(&self) -> (model: &PeModel)
        ensures
            model@ == self.headers(),
    {
        &self.model
    }

    /// The data directory with this index, if the headers have it and it is set.
    pub fn directory(&self, index: usize) -> (directory: AppResult<Option<DataDirectory>>)
        ensures
            match model_directory(self.headers(), self.data(), index as int) {
                Ok(value) => directory == Ok::<Option<DataDirectory>, AppError>(value),
                Err(message) => error::fails(directory, message),
            },
    {
        self.model.directory(self.bytes, index)
    }
}

} // verus!
