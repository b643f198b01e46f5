//! The data directories of a rebuilt image.

use vstd::prelude::*;

use crate::error::{AppError, AppResult};
use crate::pe::bytes;
use crate::pe::image::{read_u32, write_u32, Edit};
use crate::pe::image;
use crate::pe::layout::{directory_is_mapped, rva_to_file, LayoutView, SectionLayout};
use crate::pe::layout;
use crate::pe::{PeKind, PeModel, PeModelView, Rva};

verus! {

pub const IMPORT_DIRECTORY: usize = 1;

pub const EXCEPTION_DIRECTORY: usize = 3;

pub const SECURITY_DIRECTORY: usize = 4;

pub const DEBUG_DIRECTORY: usize = 6;

pub const IAT_DIRECTORY: usize = 12;

pub const RUNTIME_FUNCTION_SIZE: usize = 12;

/// The bytes after a data directory is written.
pub open spec fn with_directory(
    bytes: Seq<u8>,
    model: PeModelView,
    index: int,
    rva: u32,
    size: u32,
) -> Edit {
    if index >= model.directory_count {
        Edit::start(bytes).fail("PE has no requested data-directory slot"@)
    } else {
        Edit::start(bytes).put32(model.directory_at(index), rva).put32(
            model.directory_at(index) + 4,
            size,
        )
    }
}

/// Writes a data directory.
pub fn write_directory(output: &mut [u8], model: &PeModel, index: usize, rva: u32, size: u32) -> (outcome:
    AppResult<()>)
    ensures
        image::edited(
            outcome,
            final(output)@,
            with_directory(old(output)@, model@, index as int, rva, size),
        ),
{
    match model.directory_offset(index)? {
        None => Err(AppError::fixed("PE has no requested data-directory slot")),
        Some(offset) => {
            write_u32(output, offset, rva)?;
            write_u32(output, offset.saturating_add(4), size)
        },
    }
}

/// The bytes after a data directory is cleared, if the headers have it.
pub open spec fn without_directory(bytes: Seq<u8>, model: PeModelView, index: int) -> Edit {
    if index >= model.directory_count {
        Edit::start(bytes)
    } else {
        Edit::start(bytes).put32(model.directory_at(index), 0).put32(
            model.directory_at(index) + 4,
            0,
        )
    }
}

/// The headers have this data directory, and it is not zero.
pub open spec fn directory_set(bytes: Seq<u8>, model: PeModelView, index: int) -> bool {
    let at = model.directory_at(index);
    index < model.directory_count && (bytes::le32(bytes, at) != 0 || bytes::le32(bytes, at + 4)
        != 0)
}

/// Writing zero over a field that is zero changes nothing.
proof fn lemma_zero_stays(bytes: Seq<u8>, at: int)
    requires
        0 <= at,
        at + 4 <= bytes.len(),
        bytes::le32(bytes, at) == 0,
    ensures
        bytes::splice(bytes, at, bytes::bytes32(0)) == bytes,
{
    assert(bytes::splice(bytes, at, bytes::bytes32(0)) =~= bytes);
}

/// Clears a data directory and says how many were set: one or none.
pub fn clear_directory(output: &mut [u8], model: &PeModel, index: usize) -> (cleared: AppResult<
    usize,
>)
    ensures
        image::edited(
            cleared,
            final(output)@,
            without_directory(old(output)@, model@, index as int),
        ),
        cleared is Ok ==> cleared->Ok_0 == if directory_set(old(output)@, model@, index as int) {
            1int
        } else {
            0
        },
{
    match model.directory_offset(index)? {
        None => Ok(0),
        Some(offset) => {
            let rva: u32 = read_u32(output, offset)?;
            let was_set: bool = if rva != 0 {
                true
            } else {
                proof {
                    lemma_zero_stays(output@, offset as int);
                }
                read_u32(output, offset.saturating_add(4))? != 0
            };
            write_u32(output, offset, 0)?;
            write_u32(output, offset.saturating_add(4), 0)?;
            Ok(
                if was_set {
                    1
                } else {
                    0
                },
            )
        },
    }
}

/// Bytes that are being written to, with a count of what was changed.
pub struct Counted {
    pub edit: Edit,
    pub count: int,
}

/// The data directory with this index may stay: what it points to is in the file.
pub open spec fn directory_stays(
    bytes: Seq<u8>,
    model: PeModelView,
    layouts: Seq<LayoutView>,
    header_size: int,
    index: int,
) -> bool {
    let at = model.directory_at(index);
    &&& index != SECURITY_DIRECTORY
    &&& index != DEBUG_DIRECTORY
    &&& layout::directory_mapped(
        bytes::le32(bytes, at) as int,
        bytes::le32(bytes, at + 4) as int,
        layouts,
        header_size,
    )
}

/// The bytes after the bad ones of the first `count` data directories are cleared.
pub open spec fn without_bad_directories(
    bytes: Seq<u8>,
    model: PeModelView,
    layouts: Seq<LayoutView>,
    header_size: int,
    count: nat,
) -> Counted
    decreases count,
{
    if count == 0 {
        Counted { edit: Edit::start(bytes), count: 0 }
    } else {
        let before = without_bad_directories(
            bytes,
            model,
            layouts,
            header_size,
            (count - 1) as nat,
        );
        let at = model.directory_at(count - 1);
        if before.edit.failure is Some {
            before
        } else if at + 8 > before.edit.bytes.len() {
            Counted {
                edit: before.edit.fail("PE field"@ + " lies outside the image"@),
                count: before.count,
            }
        } else if !directory_set(before.edit.bytes, model, count - 1) || directory_stays(
            before.edit.bytes,
            model,
            layouts,
            header_size,
            count - 1,
        ) {
            before
        } else {
            Counted {
                edit: before.edit.put32(at, 0).put32(at + 4, 0),
                count: before.count + 1,
            }
        }
    }
}

proof fn lemma_clearing_stops(
    bytes: Seq<u8>,
    model: PeModelView,
    layouts: Seq<LayoutView>,
    header_size: int,
    fewer: nat,
    more: nat,
)
    requires
        fewer <= more,
        without_bad_directories(bytes, model, layouts, header_size, fewer).edit.failure is Some,
    ensures
        without_bad_directories(bytes, model, layouts, header_size, more)
            == without_bad_directories(bytes, model, layouts, header_size, fewer),
    decreases more,
{
    if fewer < more {
        lemma_clearing_stops(bytes, model, layouts, header_size, fewer, (more - 1) as nat);
    }
}

/// Clears the data directories whose data is not in the file, and says how many those were.
pub fn clear_bad_directories(
    output: &mut [u8],
    model: &PeModel,
    layouts: &[SectionLayout],
    header_size: usize,
) -> (cleared: AppResult<usize>)
    ensures
        ({
            let expected = without_bad_directories(
                old(output)@,
                model@,
                layout::layout_views(layouts@),
                header_size as int,
                model@.directory_count as nat,
            );
            image::edited(cleared, final(output)@, expected.edit) && (cleared is Ok
                ==> cleared->Ok_0 == expected.count)
        }),
{
    proof {
        use_type_invariant(model);
        model.lemma_accepted();
    }
    let ghost views = layout::layout_views(layouts@);
    let count: usize = model.directory_count();
    let start: usize = model.data_directory_offset();
    let mut cleared: usize = 0;
    let mut index: usize = 0;
    while index < count
        invariant
            index <= count,
            count == model@.directory_count,
            start == model@.data_directory_offset(),
            model@.valid(),
            views == layout::layout_views(layouts@),
            cleared <= index,
            ({
                let state = without_bad_directories(
                    old(output)@,
                    model@,
                    views,
                    header_size as int,
                    index as nat,
                );
                state.edit == Edit::start(output@) && state.count == cleared
            }),
        decreases count - index,
    {
        let entry_offset: usize = start + 8 * index;
        proof {
            if without_bad_directories(
                old(output)@,
                model@,
                views,
                header_size as int,
                (index + 1) as nat,
            ).edit.failure is Some {
                lemma_clearing_stops(
                    old(output)@,
                    model@,
                    views,
                    header_size as int,
                    (index + 1) as nat,
                    count as nat,
                );
            }
        }
        let rva: u32 = read_u32(output, entry_offset)?;
        let size: u32 = read_u32(output, entry_offset + 4)?;
        if rva != 0 || size != 0 {
            let valid: bool = index != SECURITY_DIRECTORY && index != DEBUG_DIRECTORY
                && directory_is_mapped(rva, size, layouts, header_size);
            if !valid {
                write_u32(output, entry_offset, 0)?;
                write_u32(output, entry_offset + 4, 0)?;
                cleared = cleared + 1;
            }
        }
        index = index + 1;
    }
    Ok(cleared)
}

/// A writing never changes the number of bytes.
pub proof fn lemma_clearing_keeps_length(
    bytes: Seq<u8>,
    model: PeModelView,
    layouts: Seq<LayoutView>,
    header_size: int,
    count: nat,
)
    ensures
        without_bad_directories(bytes, model, layouts, header_size, count).edit.bytes.len()
            == bytes.len(),
    decreases count,
{
    if count > 0 {
        lemma_clearing_keeps_length(bytes, model, layouts, header_size, (count - 1) as nat);
    }
}

/// After the clearing, every data directory is zero, or it is what it was and its data is in the
/// file. None is left of the two kinds that hold file offsets.
pub proof fn only_mapped_directories_remain(
    bytes: Seq<u8>,
    model: PeModelView,
    layouts: Seq<LayoutView>,
    header_size: int,
    count: nat,
    index: int,
)
    requires
        0 <= index < count <= model.directory_count,
        0 <= model.nt_offset,
        without_bad_directories(bytes, model, layouts, header_size, count).edit.failure is None,
    ensures
        ({
            let after = without_bad_directories(bytes, model, layouts, header_size, count).edit.bytes;
            let at = model.directory_at(index);
            &&& directory_set(after, model, index) ==> directory_stays(
                after,
                model,
                layouts,
                header_size,
                index,
            ) && bytes::le32(after, at) == bytes::le32(bytes, at) && bytes::le32(after, at + 4)
                == bytes::le32(bytes, at + 4)
            &&& directory_set(bytes, model, index) && directory_stays(
                bytes,
                model,
                layouts,
                header_size,
                index,
            ) ==> directory_set(after, model, index)
        }),
    decreases count,
{
    let before = without_bad_directories(bytes, model, layouts, header_size, (count - 1) as nat);
    let after = without_bad_directories(bytes, model, layouts, header_size, count);
    let at = model.directory_at(count - 1);
    lemma_clearing_keeps_length(bytes, model, layouts, header_size, (count - 1) as nat);
    lemma_clearing_leaves_later(bytes, model, layouts, header_size, (count - 1) as nat, count - 1);
    if index < count - 1 {
        only_mapped_directories_remain(
            bytes,
            model,
            layouts,
            header_size,
            (count - 1) as nat,
            index,
        );
        lemma_directory_untouched(before.edit, model, count - 1, index);
    } else if directory_set(before.edit.bytes, model, index) && !directory_stays(
        before.edit.bytes,
        model,
        layouts,
        header_size,
        index,
    ) {
        lemma_cleared_is_zero(before.edit, model, index);
    }
}

/// Clearing one data directory leaves another as it is.
proof fn lemma_directory_untouched(before: Edit, model: PeModelView, cleared: int, other: int)
    requires
        0 <= model.nt_offset,
        0 <= cleared,
        0 <= other,
        cleared != other,
    ensures
        ({
            let after = before.put32(model.directory_at(cleared), 0).put32(
                model.directory_at(cleared) + 4,
                0,
            );
            let at = model.directory_at(other);
            &&& after.bytes.len() == before.bytes.len()
            &&& at + 8 <= before.bytes.len() ==> bytes::le32(after.bytes, at) == bytes::le32(
                before.bytes,
                at,
            ) && bytes::le32(after.bytes, at + 4) == bytes::le32(before.bytes, at + 4)
        }),
{
}

proof fn lemma_cleared_is_zero(before: Edit, model: PeModelView, index: int)
    requires
        0 <= model.nt_offset,
        0 <= index,
        before.failure is None,
        model.directory_at(index) + 8 <= before.bytes.len(),
        before.put32(model.directory_at(index), 0).put32(
            model.directory_at(index) + 4,
            0,
        ).failure is None,
    ensures
        ({
            let after = before.put32(model.directory_at(index), 0).put32(
                model.directory_at(index) + 4,
                0,
            );
            let at = model.directory_at(index);
            bytes::le32(after.bytes, at) == 0 && bytes::le32(after.bytes, at + 4) == 0
        }),
{
}

/// The clearing has not touched the data directories that it has not come to.
proof fn lemma_clearing_leaves_later(
    bytes: Seq<u8>,
    model: PeModelView,
    layouts: Seq<LayoutView>,
    header_size: int,
    count: nat,
    later: int,
)
    requires
        count <= later,
        0 <= model.nt_offset,
    ensures
        ({
            let after = without_bad_directories(bytes, model, layouts, header_size, count).edit.bytes;
            let at = model.directory_at(later);
            at + 8 <= bytes.len() ==> bytes::le32(after, at) == bytes::le32(bytes, at)
                && bytes::le32(after, at + 4) == bytes::le32(bytes, at + 4)
        }),
    decreases count,
{
    lemma_clearing_keeps_length(bytes, model, layouts, header_size, count);
    if count > 0 {
        let before = without_bad_directories(bytes, model, layouts, header_size, (count - 1) as nat);
        lemma_clearing_leaves_later(bytes, model, layouts, header_size, (count - 1) as nat, later);
        lemma_clearing_keeps_length(bytes, model, layouts, header_size, (count - 1) as nat);
        lemma_directory_untouched(before.edit, model, count - 1, later);
    }
}

/// The data directory is set, but it is none that stays.
pub open spec fn directory_bad(
    bytes: Seq<u8>,
    model: PeModelView,
    layouts: Seq<LayoutView>,
    header_size: int,
    index: int,
) -> bool {
    directory_set(bytes, model, index) && !directory_stays(
        bytes,
        model,
        layouts,
        header_size,
        index,
    )
}

/// How many of the first `count` data directories are bad.
pub open spec fn bad_directories(
    bytes: Seq<u8>,
    model: PeModelView,
    layouts: Seq<LayoutView>,
    header_size: int,
    count: nat,
) -> int
    decreases count,
{
    if count == 0 {
        0
    } else {
        bad_directories(bytes, model, layouts, header_size, (count - 1) as nat)
            + if directory_bad(bytes, model, layouts, header_size, count - 1) {
            1int
        } else {
            0
        }
    }
}

/// A clearing that came to its end found every data directory in the file.
proof fn lemma_directories_are_there(
    bytes: Seq<u8>,
    model: PeModelView,
    layouts: Seq<LayoutView>,
    header_size: int,
    count: nat,
    index: int,
)
    requires
        0 <= index < count,
        without_bad_directories(bytes, model, layouts, header_size, count).edit.failure is None,
    ensures
        without_bad_directories(bytes, model, layouts, header_size, (count - 1) as nat).edit.failure
            is None,
        model.directory_at(index) + 8 <= bytes.len(),
    decreases count,
{
    lemma_clearing_keeps_length(bytes, model, layouts, header_size, (count - 1) as nat);
    if index < count - 1 {
        lemma_directories_are_there(bytes, model, layouts, header_size, (count - 1) as nat, index);
    }
}

/// The clearing counts exactly the bad data directories.
pub proof fn clearing_counts_bad_directories(
    bytes: Seq<u8>,
    model: PeModelView,
    layouts: Seq<LayoutView>,
    header_size: int,
    count: nat,
)
    requires
        0 <= model.nt_offset,
        without_bad_directories(bytes, model, layouts, header_size, count).edit.failure is None,
    ensures
        without_bad_directories(bytes, model, layouts, header_size, count).count
            == bad_directories(bytes, model, layouts, header_size, count),
    decreases count,
{
    if count > 0 {
        let earlier = (count - 1) as nat;
        lemma_directories_are_there(bytes, model, layouts, header_size, count, count - 1);
        lemma_clearing_keeps_length(bytes, model, layouts, header_size, earlier);
        lemma_clearing_leaves_later(bytes, model, layouts, header_size, earlier, count - 1);
        clearing_counts_bad_directories(bytes, model, layouts, header_size, earlier);
    }
}

/// The clearing changes nothing but the entries of bad data directories, and it leaves zeros there.
pub proof fn clearing_keeps_other_bytes(
    bytes: Seq<u8>,
    model: PeModelView,
    layouts: Seq<LayoutView>,
    header_size: int,
    count: nat,
    o: int,
)
    requires
        0 <= model.nt_offset,
        0 <= o < bytes.len(),
        without_bad_directories(bytes, model, layouts, header_size, count).edit.failure is None,
    ensures
        ({
            let after = without_bad_directories(bytes, model, layouts, header_size, count).edit.bytes;
            let index = (o - model.data_directory_offset()) / 8;
            &&& after.len() == bytes.len()
            &&& after[o] == if o >= model.data_directory_offset() && index < count
                && directory_bad(bytes, model, layouts, header_size, index) {
                0
            } else {
                bytes[o]
            }
        }),
    decreases count,
{
    if count > 0 {
        let earlier = (count - 1) as nat;
        let before = without_bad_directories(bytes, model, layouts, header_size, earlier);
        let at = model.directory_at(count - 1);
        lemma_directories_are_there(bytes, model, layouts, header_size, count, count - 1);
        lemma_clearing_keeps_length(bytes, model, layouts, header_size, earlier);
        lemma_clearing_leaves_later(bytes, model, layouts, header_size, earlier, count - 1);
        clearing_keeps_other_bytes(bytes, model, layouts, header_size, earlier, o);
        assert(directory_bad(before.edit.bytes, model, layouts, header_size, count - 1)
            == directory_bad(bytes, model, layouts, header_size, count - 1));
        if directory_bad(bytes, model, layouts, header_size, count - 1) {
            let half = before.edit.put32(at, 0);
            let after = half.put32(at + 4, 0);
            assert(after.bytes[o] == if at <= o < at + 8 {
                0
            } else {
                before.edit.bytes[o]
            });
        }
    }
}

proof fn lemma_nothing_left_to_clear(
    bytes: Seq<u8>,
    model: PeModelView,
    layouts: Seq<LayoutView>,
    header_size: int,
    count: nat,
)
    requires
        forall|index: int|
            #![trigger directory_bad(bytes, model, layouts, header_size, index)]
            0 <= index < count ==> !directory_bad(bytes, model, layouts, header_size, index),
        count > 0 ==> model.directory_at(count - 1) + 8 <= bytes.len(),
    ensures
        without_bad_directories(bytes, model, layouts, header_size, count) == (Counted {
            edit: Edit::start(bytes),
            count: 0,
        }),
    decreases count,
{
    if count > 0 {
        lemma_nothing_left_to_clear(bytes, model, layouts, header_size, (count - 1) as nat);
        assert(!directory_bad(bytes, model, layouts, header_size, count - 1));
    }
}

/// A second clearing finds nothing to clear.
pub proof fn clearing_twice_changes_nothing(
    bytes: Seq<u8>,
    model: PeModelView,
    layouts: Seq<LayoutView>,
    header_size: int,
    count: nat,
)
    requires
        0 <= model.nt_offset,
        count <= model.directory_count,
        without_bad_directories(bytes, model, layouts, header_size, count).edit.failure is None,
    ensures
        ({
            let after = without_bad_directories(bytes, model, layouts, header_size, count).edit.bytes;
            without_bad_directories(after, model, layouts, header_size, count) == (Counted {
                edit: Edit::start(after),
                count: 0,
            })
        }),
{
    let after = without_bad_directories(bytes, model, layouts, header_size, count).edit.bytes;
    lemma_clearing_keeps_length(bytes, model, layouts, header_size, count);
    assert forall|index: int|
        #![trigger directory_bad(after, model, layouts, header_size, index)]
        0 <= index < count implies !directory_bad(after, model, layouts, header_size, index) by {
        only_mapped_directories_remain(bytes, model, layouts, header_size, count, index);
    }
    if count > 0 {
        lemma_directories_are_there(bytes, model, layouts, header_size, count, count - 1);
    }
    lemma_nothing_left_to_clear(after, model, layouts, header_size, count);
}

/// An entry of the exception directory describes code that can be executed, and its unwind data
/// is in the file and has a known version.
pub open spec fn function_valid(
    bytes: Seq<u8>,
    entry: Seq<u8>,
    model: PeModelView,
    layouts: Seq<LayoutView>,
    header_size: int,
) -> bool {
    let begin = bytes::le32(entry, 0);
    let end = bytes::le32(entry, 4);
    let unwind = layout::file_offset(bytes::le32(entry, 8) as int, layouts, header_size);
    &&& entry.len() >= 12
    &&& begin < end
    &&& model.executable_rva(begin as int)
    &&& model.executable_rva(end - 1)
    &&& unwind is Some
    &&& unwind->0 < bytes.len()
    &&& (bytes[unwind->0] & 0x07 == 1 || bytes[unwind->0] & 0x07 == 2)
}

/// Tests an entry of the exception directory.
pub fn runtime_function_is_valid(
    output: &[u8],
    entry: &[u8],
    model: &PeModel,
    layouts: &[SectionLayout],
    header_size: usize,
) -> (valid: bool)
    ensures
        valid == function_valid(
            output@,
            entry@,
            model@,
            layout::layout_views(layouts@),
            header_size as int,
        ),
{
    if entry.len() < 12 {
        return false;
    }
    let begin: u32 = match read_u32(entry, 0) {
        Ok(value) => value,
        Err(_) => {
            return false;
        },
    };
    let end: u32 = match read_u32(entry, 4) {
        Ok(value) => value,
        Err(_) => {
            return false;
        },
    };
    let unwind: u32 = match read_u32(entry, 8) {
        Ok(value) => value,
        Err(_) => {
            return false;
        },
    };
    if begin >= end || !model.executable_rva(Rva(begin)) || !model.executable_rva(Rva(end - 1)) {
        return false;
    }
    match rva_to_file(unwind, layouts, header_size) {
        None => false,
        Some(offset) => {
            if offset >= output.len() {
                return false;
            }
            let version: u8 = output[offset] & 0x07;
            version == 1 || version == 2
        },
    }
}

/// The entry with this index in the exception directory at `at`.
pub open spec fn runtime_entry(bytes: Seq<u8>, at: int, index: int) -> Seq<u8> {
    bytes.subrange(
        at + RUNTIME_FUNCTION_SIZE * index,
        at + RUNTIME_FUNCTION_SIZE * index + RUNTIME_FUNCTION_SIZE,
    )
}

/// The valid ones of the first `count` entries, after each other.
pub open spec fn valid_entries(
    bytes: Seq<u8>,
    at: int,
    model: PeModelView,
    layouts: Seq<LayoutView>,
    header_size: int,
    count: nat,
) -> Seq<u8>
    decreases count,
{
    if count == 0 {
        Seq::empty()
    } else {
        let earlier = valid_entries(bytes, at, model, layouts, header_size, (count - 1) as nat);
        let entry = runtime_entry(bytes, at, count - 1);
        if function_valid(bytes, entry, model, layouts, header_size) {
            earlier + entry
        } else {
            earlier
        }
    }
}

/// The entries of a directory of `size` bytes at `at` that are complete in the file.
pub open spec fn complete_entries(total: int, at: int, size: int) -> int {
    if at >= total {
        0
    } else {
        layout::least(size / 12, (total - at) / 12)
    }
}

/// The bytes after an exception directory with bad entries is packed: the valid entries first,
/// then zeros.
pub open spec fn packed(
    bytes: Seq<u8>,
    entry_at: int,
    at: int,
    size: int,
    valid: Seq<u8>,
) -> Edit {
    let filled = Seq::new(
        size as nat,
        |i: int|
            if i < valid.len() {
                valid[i]
            } else {
                0
            },
    );
    let start = Edit::start(bytes);
    if at + size > usize::MAX {
        start.fail("exception-directory range overflowed"@)
    } else if at + size > bytes.len() {
        start.fail("exception directory lies outside the rebuilt PE"@)
    } else if valid.len() == 0 {
        Edit::start(bytes::splice(bytes, at, filled)).put32(entry_at, 0).put32(entry_at + 4, 0)
    } else {
        Edit::start(bytes::splice(bytes, at, filled)).put32(entry_at + 4, valid.len() as u32)
    }
}

/// The bytes after the bad entries of the exception directory are taken out, and how many there
/// were. A rest that is no whole entry counts as one.
pub open spec fn with_valid_exceptions(
    bytes: Seq<u8>,
    model: PeModelView,
    layouts: Seq<LayoutView>,
    header_size: int,
) -> Counted {
    let start = Edit::start(bytes);
    let entry_at = model.directory_at(EXCEPTION_DIRECTORY as int);
    let rva = bytes::le32(bytes, entry_at) as int;
    let size = bytes::le32(bytes, entry_at + 4) as int;
    if model.kind != PeKind::Pe32Plus || EXCEPTION_DIRECTORY >= model.directory_count {
        Counted { edit: start, count: 0 }
    } else if entry_at + 8 > bytes.len() {
        Counted { edit: start.fail("PE field"@ + " lies outside the image"@), count: 0 }
    } else if rva == 0 || size == 0 {
        Counted { edit: start, count: 0 }
    } else {
        match layout::file_offset(rva, layouts, header_size) {
            None => Counted { edit: start, count: 0 },
            Some(at) => {
                let valid = valid_entries(
                    bytes,
                    at,
                    model,
                    layouts,
                    header_size,
                    complete_entries(bytes.len() as int, at, size) as nat,
                );
                let invalid = size / 12 - valid.len() / 12 + if size % 12 != 0 {
                    1int
                } else {
                    0
                };
                if invalid == 0 {
                    Counted { edit: start, count: 0 }
                } else {
                    Counted { edit: packed(bytes, entry_at, at, size, valid), count: invalid }
                }
            },
        }
    }
}

/// Whole entries are kept, each one valid as it stood.
pub proof fn kept_entries_are_valid(
    bytes: Seq<u8>,
    at: int,
    model: PeModelView,
    layouts: Seq<LayoutView>,
    header_size: int,
    count: nat,
)
    requires
        0 <= at,
        at + RUNTIME_FUNCTION_SIZE * count <= bytes.len(),
    ensures
        ({
            let valid = valid_entries(bytes, at, model, layouts, header_size, count);
            &&& valid.len() % 12 == 0
            &&& valid.len() <= 12 * count
            &&& forall|i: int|
                0 <= i < valid.len() / 12 ==> function_valid(
                    bytes,
                    #[trigger] runtime_entry(valid, 0, i),
                    model,
                    layouts,
                    header_size,
                )
        }),
    decreases count,
{
    if count > 0 {
        kept_entries_are_valid(bytes, at, model, layouts, header_size, (count - 1) as nat);
        let earlier = valid_entries(bytes, at, model, layouts, header_size, (count - 1) as nat);
        let valid = valid_entries(bytes, at, model, layouts, header_size, count);
        let entry = runtime_entry(bytes, at, count - 1);
        if function_valid(bytes, entry, model, layouts, header_size) {
            assert forall|i: int| 0 <= i < valid.len() / 12 implies function_valid(
                bytes,
                #[trigger] runtime_entry(valid, 0, i),
                model,
                layouts,
                header_size,
            ) by {
                if i < earlier.len() / 12 {
                    assert(runtime_entry(valid, 0, i) =~= runtime_entry(earlier, 0, i));
                } else {
                    assert(runtime_entry(valid, 0, i) =~= entry);
                }
            }
        }
    }
}

/// Collects the valid entries of the exception directory.
fn collect_valid_entries(
    output: &[u8],
    at: usize,
    count: usize,
    model: &PeModel,
    layouts: &[SectionLayout],
    header_size: usize,
) -> (valid: Vec<u8>)
    requires
        at + RUNTIME_FUNCTION_SIZE * count <= output.len(),
    ensures
        valid@ == valid_entries(
            output@,
            at as int,
            model@,
            layout::layout_views(layouts@),
            header_size as int,
            count as nat,
        ),
{
    let ghost views = layout::layout_views(layouts@);
    let mut valid: Vec<u8> = Vec::new();
    let mut index: usize = 0;
    while index < count
        invariant
            index <= count,
            at + RUNTIME_FUNCTION_SIZE * count <= output.len(),
            views == layout::layout_views(layouts@),
            valid@ == valid_entries(
                output@,
                at as int,
                model@,
                views,
                header_size as int,
                index as nat,
            ),
        decreases count - index,
    {
        let offset: usize = at + RUNTIME_FUNCTION_SIZE * index;
        let entry: &[u8] = vstd::slice::slice_subrange(
            output,
            offset,
            offset + RUNTIME_FUNCTION_SIZE,
        );
        assert(entry@ == runtime_entry(output@, at as int, index as int));
        if runtime_function_is_valid(output, entry, model, layouts, header_size) {
            valid.extend_from_slice(entry);
        }
        index = index + 1;
    }
    valid
}

/// Writes the valid entries, and zeros behind them, over the exception directory.
fn write_valid_entries(
    output: &mut [u8],
    entry_offset: usize,
    at: usize,
    size: usize,
    valid: &Vec<u8>,
) -> (outcome: AppResult<()>)
    requires
        entry_offset + 8 <= usize::MAX,
        valid@.len() <= size <= u32::MAX,
    ensures
        image::edited(
            outcome,
            final(output)@,
            packed(old(output)@, entry_offset as int, at as int, size as int, valid@),
        ),
{
    match at.checked_add(size) {
        None => {
            return Err(AppError::fixed("exception-directory range overflowed"));
        },
        Some(range_end) => {
            if range_end > output.len() {
                return Err(AppError::fixed("exception directory lies outside the rebuilt PE"));
            }
        },
    }
    let ghost before = output@;
    let mut index: usize = 0;
    while index < size
        invariant
            index <= size,
            at + size <= before.len(),
            before.len() == output@.len(),
            output.len() == output@.len(),
            valid@.len() <= size,
            forall|i: int|
                0 <= i < before.len() ==> #[trigger] output@[i] == if at <= i < at + index {
                    if i - at < valid@.len() {
                        valid@[i - at]
                    } else {
                        0
                    }
                } else {
                    before[i]
                },
        decreases size - index,
    {
        output[at + index] = if index < valid.len() {
            valid[index]
        } else {
            0
        };
        index = index + 1;
    }
    let ghost filled = Seq::new(
        size as nat,
        |i: int|
            if i < valid@.len() {
                valid@[i]
            } else {
                0
            },
    );
    assert(output@ =~= bytes::splice(before, at as int, filled));
    if valid.len() == 0 {
        write_u32(output, entry_offset, 0)?;
        write_u32(output, entry_offset + 4, 0)
    } else {
        write_u32(output, entry_offset + 4, valid.len() as u32)
    }
}

/// Takes the bad entries out of the exception directory, and says how many there were.
pub fn repair_exception_directory(
    output: &mut [u8],
    model: &PeModel,
    layouts: &[SectionLayout],
    header_size: usize,
) -> (removed: AppResult<usize>)
    ensures
        ({
            let expected = with_valid_exceptions(
                old(output)@,
                model@,
                layout::layout_views(layouts@),
                header_size as int,
            );
            image::edited(removed, final(output)@, expected.edit) && (removed is Ok
                ==> removed->Ok_0 == expected.count)
        }),
{
    proof {
        use_type_invariant(model);
        model.lemma_accepted();
    }
    let ghost views = layout::layout_views(layouts@);
    if model.kind() != PeKind::Pe32Plus || EXCEPTION_DIRECTORY >= model.directory_count() {
        return Ok(0);
    }
    let entry_offset: usize = model.data_directory_offset() + 8 * EXCEPTION_DIRECTORY;
    let rva: u32 = read_u32(output, entry_offset)?;
    let size: usize = read_u32(output, entry_offset + 4)? as usize;
    if rva == 0 || size == 0 {
        return Ok(0);
    }
    let at: usize = match rva_to_file(rva, layouts, header_size) {
        None => {
            return Ok(0);
        },
        Some(offset) => offset,
    };
    let mut complete: usize = 0;
    if at < output.len() {
        complete = size / RUNTIME_FUNCTION_SIZE;
        if (output.len() - at) / RUNTIME_FUNCTION_SIZE < complete {
            complete = (output.len() - at) / RUNTIME_FUNCTION_SIZE;
        }
    } else {
        assert(valid_entries(output@, at as int, model@, views, header_size as int, 0).len() == 0);
    }
    let valid: Vec<u8> = if complete == 0 {
        Vec::new()
    } else {
        collect_valid_entries(output, at, complete, model, layouts, header_size)
    };
    assert(complete == complete_entries(output@.len() as int, at as int, size as int));
    assert(valid@ == valid_entries(
        output@,
        at as int,
        model@,
        views,
        header_size as int,
        complete as nat,
    ));
    proof {
        if complete > 0 {
            kept_entries_are_valid(
                output@,
                at as int,
                model@,
                views,
                header_size as int,
                complete as nat,
            );
        }
    }
    let mut invalid: usize = size / RUNTIME_FUNCTION_SIZE - valid.len() / RUNTIME_FUNCTION_SIZE;
    if size % RUNTIME_FUNCTION_SIZE != 0 {
        invalid = invalid + 1;
    }
    if invalid == 0 {
        return Ok(0);
    }
    write_valid_entries(output, entry_offset, at, size, &valid)?;
    Ok(invalid)
}

} // verus!
