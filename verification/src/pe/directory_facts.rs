//! Which data directories and which exception entries stay in a rebuilt image, told by the bytes
//! of its headers and tables.

use vstd::prelude::*;

use crate::pe::bytes;
use crate::pe::directories;
use crate::pe::layout;
use crate::pe::layout::LayoutView;
use crate::pe::{PeKind, PeModelView};

verus! {

proof fn lemma_section_offset(layouts: Seq<LayoutView>, rva: int, first: int)
    requires
        0 <= first <= layouts.len(),
        forall|i: int|
            0 <= i < first ==> !((#[trigger] layouts[i]).section.virtual_address <= rva
                < layouts[i].section.virtual_address + layouts[i].source_length),
        first < layouts.len() ==> layouts[first].section.virtual_address <= rva
            < layouts[first].section.virtual_address + layouts[first].source_length,
    ensures
        first == layouts.len() ==> layout::section_offset(layouts, rva) is None,
        first < layouts.len() ==> layout::section_offset(layouts, rva) == Some(
            layout::least(
                layouts[first].raw_offset + rva - layouts[first].section.virtual_address,
                usize::MAX as int,
            ),
        ),
    decreases layouts.len(),
{
    if layouts.len() > 0 {
        let fewer = layouts.drop_last();
        if first < fewer.len() {
            lemma_section_offset(fewer, rva, first);
        } else {
            assert forall|i: int| 0 <= i < fewer.len() implies !((
            #[trigger] fewer[i]).section.virtual_address <= rva
                < fewer[i].section.virtual_address + fewer[i].source_length) by {
                assert(fewer[i] == layouts[i]);
            }
            lemma_section_offset(fewer, rva, fewer.len() as int);
        }
    }
}

/// The headers stand in the file where they stand in memory. Another address is found as far
/// behind the start of its section as in memory, in the first section that has it, and nowhere
/// if none has it.
pub proof fn addresses_are_found_in_their_section(
    rva: int,
    layouts: Seq<LayoutView>,
    header_size: int,
    first: int,
)
    requires
        0 <= first <= layouts.len(),
        forall|i: int|
            0 <= i < first ==> !((#[trigger] layouts[i]).section.virtual_address <= rva
                < layouts[i].section.virtual_address + layouts[i].source_length),
        first < layouts.len() ==> layouts[first].section.virtual_address <= rva
            < layouts[first].section.virtual_address + layouts[first].source_length
            && layouts[first].raw_offset + rva - layouts[first].section.virtual_address
            <= usize::MAX,
    ensures
        rva < header_size ==> layout::file_offset(rva, layouts, header_size) == Some(rva),
        rva >= header_size && first < layouts.len() ==> layout::file_offset(
            rva,
            layouts,
            header_size,
        ) == Some(layouts[first].raw_offset + (rva - layouts[first].section.virtual_address)),
        rva >= header_size && first == layouts.len() ==> layout::file_offset(
            rva,
            layouts,
            header_size,
        ) is None,
{
    lemma_section_offset(layouts, rva, first);
}

/// The address lies in a section with the flag for execution, as long as the larger of its two
/// sizes.
pub open spec fn in_code(model: PeModelView, rva: int) -> bool {
    exists|i: int|
        0 <= i < model.sections.len() && (#[trigger] model.sections[i]).characteristics
            & 0x2000_0000 != 0 && model.sections[i].virtual_address <= rva < 0xFFFF_FFFF && (rva
            < model.sections[i].virtual_address + model.sections[i].virtual_size || rva
            < model.sections[i].virtual_address + model.sections[i].raw_size)
}

pub(crate) proof fn lemma_in_code(model: PeModelView, rva: int)
    ensures
        model.executable_rva(rva) <==> in_code(model, rva),
{
    if model.executable_rva(rva) {
        let i = choose|i: int|
            0 <= i < model.sections.len() && #[trigger] model.sections[i].executable()
                && model.sections[i].contains(rva);
        assert(model.sections[i].characteristics & 0x2000_0000 != 0);
    }
    if in_code(model, rva) {
        let i = choose|i: int|
            0 <= i < model.sections.len() && (#[trigger] model.sections[i]).characteristics
                & 0x2000_0000 != 0 && model.sections[i].virtual_address <= rva < 0xFFFF_FFFF && (rva
                < model.sections[i].virtual_address + model.sections[i].virtual_size || rva
                < model.sections[i].virtual_address + model.sections[i].raw_size);
        assert(model.sections[i].executable() && model.sections[i].contains(rva));
    }
}

/// An exception entry is good exactly if its function has a first and a last byte in code and its
/// unwind data is in the file and has version 1 or 2. The version is the first unwind byte modulo
/// 8: the flags above it do not matter.
pub proof fn unwind_versions_decide(
    bytes: Seq<u8>,
    entry: Seq<u8>,
    model: PeModelView,
    layouts: Seq<LayoutView>,
    header_size: int,
)
    requires
        entry.len() == 12,
    ensures
        ({
            let begin = bytes::le32(entry, 0) as int;
            let end = bytes::le32(entry, 4) as int;
            let unwind = layout::file_offset(bytes::le32(entry, 8) as int, layouts, header_size);
            directories::function_valid(bytes, entry, model, layouts, header_size) <==> {
                &&& begin < end
                &&& in_code(model, begin)
                &&& in_code(model, end - 1)
                &&& unwind is Some
                &&& unwind->0 < bytes.len()
                &&& (bytes[unwind->0] % 8 == 1 || bytes[unwind->0] % 8 == 2)
            }
        }),
{
    let begin = bytes::le32(entry, 0) as int;
    let end = bytes::le32(entry, 4) as int;
    let unwind = layout::file_offset(bytes::le32(entry, 8) as int, layouts, header_size);
    lemma_in_code(model, begin);
    lemma_in_code(model, end - 1);
    let byte = bytes[unwind->0];
    assert(byte & 0x07 == byte % 8) by (bit_vector);
}

/// Unwind data with any flags is good: with the flags `flags`, the first byte may be 8 times that
/// and 1 or 2.
pub proof fn unwind_flags_do_not_matter(
    bytes: Seq<u8>,
    entry: Seq<u8>,
    model: PeModelView,
    layouts: Seq<LayoutView>,
    header_size: int,
    at: int,
    flags: int,
    version: int,
)
    requires
        entry.len() == 12,
        bytes::le32(entry, 0) < bytes::le32(entry, 4),
        in_code(model, bytes::le32(entry, 0) as int),
        in_code(model, bytes::le32(entry, 4) - 1),
        layout::file_offset(bytes::le32(entry, 8) as int, layouts, header_size) == Some(at),
        0 <= at < bytes.len(),
        0 <= flags < 32,
        0 <= version < 8,
        bytes[at] == 8 * flags + version,
    ensures
        directories::function_valid(bytes, entry, model, layouts, header_size) <==> version == 1
            || version == 2,
{
    unwind_versions_decide(bytes, entry, model, layouts, header_size);
}

/// The 12 bytes of an exception entry.
pub open spec fn entry_of(bytes: Seq<u8>, at: int, index: int) -> Seq<u8> {
    bytes.subrange(at + 12 * index, at + 12 * index + 12)
}

/// How many of the first `count` exception entries are good.
pub open spec fn good_entries(
    bytes: Seq<u8>,
    at: int,
    model: PeModelView,
    layouts: Seq<LayoutView>,
    header_size: int,
    count: nat,
) -> int
    decreases count,
{
    if count == 0 {
        0
    } else {
        good_entries(bytes, at, model, layouts, header_size, (count - 1) as nat)
            + if directories::function_valid(
            bytes,
            entry_of(bytes, at, count - 1),
            model,
            layouts,
            header_size,
        ) {
            1int
        } else {
            0
        }
    }
}

proof fn lemma_good_entry_kept(
    bytes: Seq<u8>,
    at: int,
    model: PeModelView,
    layouts: Seq<LayoutView>,
    header_size: int,
    count: nat,
    index: int,
)
    requires
        0 <= at,
        at + 12 * count <= bytes.len(),
        0 <= index < count,
        directories::function_valid(
            bytes,
            entry_of(bytes, at, index),
            model,
            layouts,
            header_size,
        ),
    ensures
        ({
            let valid = directories::valid_entries(bytes, at, model, layouts, header_size, count);
            let place = good_entries(bytes, at, model, layouts, header_size, index as nat);
            &&& 0 <= place
            &&& 12 * place + 12 <= valid.len()
            &&& entry_of(valid, 0, place) == entry_of(bytes, at, index)
        }),
    decreases count,
{
    let fewer = (count - 1) as nat;
    let earlier = directories::valid_entries(bytes, at, model, layouts, header_size, fewer);
    let valid = directories::valid_entries(bytes, at, model, layouts, header_size, count);
    let place = good_entries(bytes, at, model, layouts, header_size, index as nat);
    assert(directories::runtime_entry(bytes, at, count - 1) == entry_of(bytes, at, count - 1));
    if index < fewer {
        lemma_good_entry_kept(bytes, at, model, layouts, header_size, fewer, index);
        assert(entry_of(valid, 0, place) =~= entry_of(earlier, 0, place));
    } else {
        lemma_good_entries_length(bytes, at, model, layouts, header_size, fewer);
        assert(entry_of(valid, 0, place) =~= entry_of(bytes, at, index));
    }
}

proof fn lemma_good_entries_length(
    bytes: Seq<u8>,
    at: int,
    model: PeModelView,
    layouts: Seq<LayoutView>,
    header_size: int,
    count: nat,
)
    requires
        0 <= at,
        at + 12 * count <= bytes.len(),
    ensures
        directories::valid_entries(bytes, at, model, layouts, header_size, count).len() == 12
            * good_entries(bytes, at, model, layouts, header_size, count),
        0 <= good_entries(bytes, at, model, layouts, header_size, count) <= count,
    decreases count,
{
    if count > 0 {
        lemma_good_entries_length(bytes, at, model, layouts, header_size, (count - 1) as nat);
        assert(directories::runtime_entry(bytes, at, count - 1) == entry_of(bytes, at, count - 1));
    }
}

/// The exception table of a 64-bit image stands in the file at `at` with `size` bytes, away from
/// the field that declares it.
pub open spec fn exception_table(
    bytes: Seq<u8>,
    model: PeModelView,
    layouts: Seq<LayoutView>,
    header_size: int,
    at: int,
    size: int,
) -> bool {
    let field = model.nt_offset + 160;
    &&& model.kind == PeKind::Pe32Plus
    &&& model.directory_count > 3
    &&& 0 <= model.nt_offset
    &&& field + 8 <= bytes.len() <= usize::MAX
    &&& bytes::le32(bytes, field) != 0
    &&& bytes::le32(bytes, field + 4) == size
    &&& size > 0
    &&& layout::file_offset(bytes::le32(bytes, field) as int, layouts, header_size) == Some(at)
    &&& 0 <= at
    &&& at + size <= bytes.len()
    &&& (field + 8 <= at || at + size <= field)
}

/// Of an exception table, exactly the good entries stay, packed in their order at the start of the
/// table; the rest of the table is zero, and the declared size is that of the entries that stay.
/// Every other entry is counted, and so are bytes behind the last whole entry.
pub proof fn good_exceptions_stay_in_order(
    bytes: Seq<u8>,
    model: PeModelView,
    layouts: Seq<LayoutView>,
    header_size: int,
    at: int,
    size: int,
)
    requires
        exception_table(bytes, model, layouts, header_size, at, size),
    ensures
        ({
            let repaired = directories::with_valid_exceptions(bytes, model, layouts, header_size);
            let good = good_entries(bytes, at, model, layouts, header_size, (size / 12) as nat);
            let after = repaired.edit.bytes;
            let field = model.nt_offset + 160;
            &&& repaired.edit.failure is None
            &&& after.len() == bytes.len()
            &&& repaired.count == size / 12 - good + if size % 12 != 0 {
                1int
            } else {
                0
            }
            &&& bytes::le32(after, field + 4) == 12 * good
            &&& bytes::le32(after, field) == if good == 0 {
                0
            } else {
                bytes::le32(bytes, field)
            }
            &&& forall|index: int|
                0 <= index < size / 12 && directories::function_valid(
                    bytes,
                    #[trigger] entry_of(bytes, at, index),
                    model,
                    layouts,
                    header_size,
                ) ==> entry_of(
                    after,
                    at,
                    good_entries(bytes, at, model, layouts, header_size, index as nat),
                ) == entry_of(bytes, at, index)
            &&& forall|o: int|
                at + 12 * good <= o < at + size ==> #[trigger] after[o] == 0
            &&& forall|o: int|
                0 <= o < bytes.len() && !(at <= o < at + size) && !(field <= o < field + 8)
                    ==> #[trigger] after[o] == bytes[o]
        }),
{
    let field = model.nt_offset + 160;
    let count = (size / 12) as nat;
    let valid = directories::valid_entries(bytes, at, model, layouts, header_size, count);
    let good = good_entries(bytes, at, model, layouts, header_size, count);
    let repaired = directories::with_valid_exceptions(bytes, model, layouts, header_size);
    let after = repaired.edit.bytes;
    assert(model.directory_at(3) == field);
    assert(directories::complete_entries(bytes.len() as int, at, size) == count);
    lemma_good_entries_length(bytes, at, model, layouts, header_size, count);
    assert(valid.len() / 12 == good);
    assert forall|index: int|
        0 <= index < size / 12 && directories::function_valid(
            bytes,
            #[trigger] entry_of(bytes, at, index),
            model,
            layouts,
            header_size,
        ) implies {
        let place = good_entries(bytes, at, model, layouts, header_size, index as nat);
        0 <= place && 12 * place + 12 <= valid.len() && entry_of(valid, 0, place) == entry_of(
            bytes,
            at,
            index,
        )
    } by {
        lemma_good_entry_kept(bytes, at, model, layouts, header_size, count, index);
    }
    if repaired.count == 0 {
        assert(good == count && size == 12 * count);
        lemma_all_good(bytes, at, model, layouts, header_size, count);
    } else {
        let filled = Seq::new(
            size as nat,
            |i: int|
                if i < valid.len() {
                    valid[i]
                } else {
                    0
                },
        );
        let spliced = bytes::splice(bytes, at, filled);
        if valid.len() == 0 {
            let half = bytes::splice(spliced, field, bytes::bytes32(0));
            bytes::written_u32_reads_back(spliced, field, 0);
            bytes::written_u32_reads_back(half, field + 4, 0);
            bytes::write_keeps_other_fields(half, field + 4, bytes::bytes32(0), field);
            assert(after == bytes::splice(half, field + 4, bytes::bytes32(0)));
        } else {
            bytes::written_u32_reads_back(spliced, field + 4, valid.len() as u32);
            bytes::write_keeps_other_fields(
                spliced,
                field + 4,
                bytes::bytes32(valid.len() as u32),
                field,
            );
            bytes::write_keeps_other_fields(bytes, at, filled, field);
            assert(after == bytes::splice(spliced, field + 4, bytes::bytes32(valid.len() as u32)));
        }
        assert forall|o: int| at <= o < at + size implies #[trigger] after[o] == filled[o - at] by {}
        assert forall|index: int|
            0 <= index < size / 12 && directories::function_valid(
                bytes,
                #[trigger] entry_of(bytes, at, index),
                model,
                layouts,
                header_size,
            ) implies entry_of(
            after,
            at,
            good_entries(bytes, at, model, layouts, header_size, index as nat),
        ) == entry_of(bytes, at, index) by {
            let place = good_entries(bytes, at, model, layouts, header_size, index as nat);
            assert(entry_of(valid, 0, place) == entry_of(bytes, at, index));
            assert(entry_of(after, at, place) =~= entry_of(valid, 0, place));
        }
    }
}

proof fn lemma_all_good(
    bytes: Seq<u8>,
    at: int,
    model: PeModelView,
    layouts: Seq<LayoutView>,
    header_size: int,
    count: nat,
)
    requires
        good_entries(bytes, at, model, layouts, header_size, count) == count,
    ensures
        forall|index: int|
            0 <= index <= count ==> #[trigger] good_entries(
                bytes,
                at,
                model,
                layouts,
                header_size,
                index as nat,
            ) == index,
    decreases count,
{
    if count > 0 {
        lemma_good_at_most(bytes, at, model, layouts, header_size, (count - 1) as nat);
        lemma_all_good(bytes, at, model, layouts, header_size, (count - 1) as nat);
    }
}

proof fn lemma_good_at_most(
    bytes: Seq<u8>,
    at: int,
    model: PeModelView,
    layouts: Seq<LayoutView>,
    header_size: int,
    count: nat,
)
    ensures
        good_entries(bytes, at, model, layouts, header_size, count) <= count,
    decreases count,
{
    if count > 0 {
        lemma_good_at_most(bytes, at, model, layouts, header_size, (count - 1) as nat);
    }
}

/// A data directory stays exactly if it is none for certificates or debugging and its data lies in
/// the headers or in one section, as far as the section is taken from memory.
pub proof fn directories_stay_with_their_data(
    bytes: Seq<u8>,
    model: PeModelView,
    layouts: Seq<LayoutView>,
    header_size: int,
    index: int,
)
    requires
        0 <= index < model.directory_count,
    ensures
        ({
            let at = model.nt_offset + 24 + (if model.kind == PeKind::Pe32 {
                96int
            } else {
                112
            }) + 8 * index;
            let rva = bytes::le32(bytes, at) as int;
            let size = bytes::le32(bytes, at + 4) as int;
            directories::directory_bad(bytes, model, layouts, header_size, index) <==> {
                &&& rva != 0 || size != 0
                &&& {
                    ||| index == 4
                    ||| index == 6
                    ||| size == 0
                    ||| rva + size > usize::MAX
                    ||| {
                        &&& rva + size > header_size
                        &&& forall|i: int|
                            0 <= i < layouts.len() ==> rva < (
                            #[trigger] layouts[i]).section.virtual_address || rva + size
                                > layouts[i].section.virtual_address + layouts[i].source_length
                    }
                }
            }
        }),
{
}

} // verus!
