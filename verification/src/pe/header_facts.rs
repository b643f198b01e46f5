//! Which headers are accepted, what is read from them and what is written to them, told by their
//! bytes.

use vstd::prelude::*;

use crate::pe;
use crate::pe::bytes;
use crate::pe::directory_facts;
use crate::pe::headers;
use crate::pe::image;
use crate::pe::layout;
use crate::pe::merge;
use crate::pe::parse;
use crate::pe::{PeKind, PeModelView, SectionView};

verus! {

/// Fields hold their lowest byte first.
pub proof fn fields_are_little_endian(bytes: Seq<u8>, at: int)
    ensures
        bytes::le16(bytes, at) == bytes[at] + 0x100 * bytes[at + 1],
        bytes::le32(bytes, at) == bytes[at] + 0x100 * bytes[at + 1] + 0x1_0000 * bytes[at + 2]
            + 0x100_0000 * bytes[at + 3],
        bytes::le64(bytes, at) == bytes[at] + 0x100 * bytes[at + 1] + 0x1_0000 * bytes[at + 2]
            + 0x100_0000 * bytes[at + 3] + 0x1_0000_0000 * bytes[at + 4] + 0x100_0000_0000 * bytes[at
            + 5] + 0x1_0000_0000_0000 * bytes[at + 6] + 0x100_0000_0000_0000 * bytes[at + 7],
{
}

/// The alignment is one of the powers of two from 512 to 65536.
pub open spec fn file_aligns(value: u32) -> bool {
    value == 0x200 || value == 0x400 || value == 0x800 || value == 0x1000 || value == 0x2000
        || value == 0x4000 || value == 0x8000 || value == 0x1_0000
}

/// The alignment is one of the powers of two from 512 to 1048576.
pub open spec fn section_aligns(value: u32) -> bool {
    file_aligns(value) || value == 0x2_0000 || value == 0x4_0000 || value == 0x8_0000 || value
        == 0x10_0000
}

proof fn lemma_powers(value: u32)
    requires
        0x200 <= value <= 0x10_0000,
    ensures
        pe::power_of_two(value as int) <==> section_aligns(value),
        pe::power_of_two(value as int) && value <= 0x1_0000 <==> file_aligns(value),
{
    reveal_with_fuel(pe::power_of_two, 22);
}

/// The bytes that the section takes in memory.
pub open spec fn taken(section: SectionView) -> int {
    if section.virtual_size > section.raw_size {
        section.virtual_size as int
    } else {
        section.raw_size as int
    }
}

/// The section has the address.
pub open spec fn has_address(section: SectionView, address: int) -> bool {
    section.virtual_address <= address && address < section.virtual_address + taken(section)
}

/// The headers at `nt` can be taken: they have their signature, a count of 1 to 128 sections, the
/// magic number and the machine of one of the two formats, sound alignments and an image size of
/// up to 1 GiB, no section reaches behind the image, and no two sections have an address in
/// common.
pub open spec fn acceptable(bytes: Seq<u8>, nt: int, full: bool) -> bool {
    let count = bytes::le16(bytes, nt + 6) as int;
    let size = bytes::le16(bytes, nt + 20) as int;
    let table = nt + 24 + size;
    let magic = bytes::le16(bytes, nt + 24);
    let machine = bytes::le16(bytes, nt + 4);
    let image_size = bytes::le32(bytes, nt + 80) as int;
    let file_alignment = bytes::le32(bytes, nt + 60);
    let section_alignment = bytes::le32(bytes, nt + 56);
    &&& nt + 26 <= bytes.len()
    &&& bytes[nt] == 0x50
    &&& bytes[nt + 1] == 0x45
    &&& bytes[nt + 2] == 0
    &&& bytes[nt + 3] == 0
    &&& 1 <= count <= 128
    &&& ((magic == 0x10B && machine == 0x14C && size >= 96) || (magic == 0x20B && machine == 0x8664
        && size >= 112))
    &&& file_aligns(file_alignment)
    &&& section_aligns(section_alignment)
    &&& file_alignment <= section_alignment
    &&& 0 < image_size <= 0x4000_0000
    &&& full ==> image_size <= bytes.len()
    &&& table + 40 * count <= bytes.len()
    &&& forall|i: int| #![trigger parse::section_at(bytes, table + 40 * i)]
        0 <= i < count ==> {
            let section = parse::section_at(bytes, table + 40 * i);
            taken(section) > 0 ==> section.virtual_address + taken(section) <= image_size
        }
    &&& forall|i: int, j: int, address: int|
        #![trigger has_address(parse::section_at(bytes, table + 40 * i), address), has_address(parse::section_at(bytes, table + 40 * j), address)]
        0 <= i < j < count ==> !(has_address(
            parse::section_at(bytes, table + 40 * i),
            address,
        ) && has_address(parse::section_at(bytes, table + 40 * j), address))
}

/// What a section header says: its name, its two sizes, its address and its flags.
pub proof fn section_headers_hold_their_fields(bytes: Seq<u8>, at: int)
    requires
        0 <= at,
        at + 40 <= bytes.len(),
    ensures
        ({
            let section = parse::section_at(bytes, at);
            &&& section.header_offset == at
            &&& section.name.len() == 8
            &&& forall|i: int| 0 <= i < 8 ==> #[trigger] section.name[i] == bytes[at + i]
            &&& section.virtual_size == bytes::le32(bytes, at + 8)
            &&& section.virtual_address == bytes::le32(bytes, at + 12)
            &&& section.raw_size == bytes::le32(bytes, at + 16)
            &&& section.characteristics == bytes::le32(bytes, at + 36)
        }),
{
}

proof fn lemma_sections_fit(sections: Seq<SectionView>, image_size: int)
    ensures
        parse::first_section_failure(sections, image_size) is None <==> forall|i: int|
            0 <= i < sections.len() ==> (taken(#[trigger] sections[i]) > 0
                ==> sections[i].virtual_address + taken(sections[i]) <= image_size),
    decreases sections.len(),
{
    if sections.len() > 0 {
        let fewer = sections.drop_last();
        let last = sections.last();
        lemma_sections_fit(fewer, image_size);
        assert(sections[sections.len() - 1] == last);
        assert forall|i: int| 0 <= i < fewer.len() implies #[trigger] fewer[i] == sections[i] by {}
        if parse::first_section_failure(sections, image_size) is None {
            assert forall|i: int|
                0 <= i < sections.len() && taken(#[trigger] sections[i]) > 0 implies sections[i].virtual_address
                + taken(sections[i]) <= image_size by {
                if i < fewer.len() {
                    assert(fewer[i] == sections[i]);
                }
            }
        }
    }
}

proof fn lemma_sections_apart(sections: Seq<SectionView>)
    ensures
        pe::sections_overlap(sections) <==> exists|i: int, j: int, address: int|
            #![trigger has_address(sections[i], address), has_address(sections[j], address)]
            0 <= i < j < sections.len() && has_address(sections[i], address) && has_address(
                sections[j],
                address,
            ),
{
    if pe::sections_overlap(sections) {
        let (i, j) = choose|i: int, j: int|
            #![trigger sections[i], sections[j]]
            0 <= i < j < sections.len() && sections[i].span() > 0 && sections[j].span() > 0
                && sections[i].virtual_address < sections[j].end() && sections[j].virtual_address
                < sections[i].end();
        let address = if sections[i].virtual_address > sections[j].virtual_address {
            sections[i].virtual_address as int
        } else {
            sections[j].virtual_address as int
        };
        assert(has_address(sections[i], address) && has_address(sections[j], address));
    }
    if exists|i: int, j: int, address: int|
        #![trigger has_address(sections[i], address), has_address(sections[j], address)]
        0 <= i < j < sections.len() && has_address(sections[i], address) && has_address(
            sections[j],
            address,
        ) {
        let (i, j, address) = choose|i: int, j: int, address: int|
            #![trigger has_address(sections[i], address), has_address(sections[j], address)]
            0 <= i < j < sections.len() && has_address(sections[i], address) && has_address(
                sections[j],
                address,
            );
        assert(sections[i].span() > 0 && sections[j].span() > 0);
    }
}

/// Headers are accepted exactly if they can be taken, and what is read from them is what their
/// fields say. No more data directories count than are declared, than there is room for, and than
/// sixteen.
pub proof fn acceptable_headers_are_accepted(bytes: Seq<u8>, nt: int, salvaged: bool, full: bool)
    requires
        0 <= nt,
        bytes.len() <= usize::MAX,
    ensures
        parse::candidate(bytes, nt, salvaged, full) is Ok <==> acceptable(bytes, nt, full),
        acceptable(bytes, nt, full) ==> {
            let model = parse::candidate(bytes, nt, salvaged, full)->Ok_0;
            let size = bytes::le16(bytes, nt + 20) as int;
            let room = (size - if model.kind == PeKind::Pe32 {
                96int
            } else {
                112
            }) / 8;
            let declared = bytes::le32(
                bytes,
                nt + 24 + (if model.kind == PeKind::Pe32 {
                    92int
                } else {
                    108
                }),
            ) as int;
            &&& model.kind == PeKind::Pe32 <==> bytes::le16(bytes, nt + 24) == 0x10B
            &&& model.is_dll <==> bytes::le16(bytes, nt + 22) & 0x2000 != 0
            &&& model.nt_offset == nt
            &&& model.file_alignment == bytes::le32(bytes, nt + 60)
            &&& model.section_alignment == bytes::le32(bytes, nt + 56)
            &&& model.image_size == bytes::le32(bytes, nt + 80)
            &&& model.salvaged == salvaged
            &&& model.directory_count <= declared
            &&& model.directory_count <= room
            &&& model.directory_count <= 16
            &&& (model.directory_count == declared || model.directory_count == room
                || model.directory_count == 16)
            &&& model.sections.len() == bytes::le16(bytes, nt + 6)
            &&& forall|i: int|
                0 <= i < model.sections.len() ==> #[trigger] model.sections[i] == parse::section_at(
                    bytes,
                    nt + 24 + size + 40 * i,
                )
        },
{
    let count = bytes::le16(bytes, nt + 6) as int;
    let table = nt + 24 + bytes::le16(bytes, nt + 20);
    let image_size = bytes::le32(bytes, nt + 80) as int;
    let sections = parse::section_table(bytes, table, count as nat);
    fields_are_little_endian(bytes, nt);
    let file_alignment = bytes::le32(bytes, nt + 60);
    let section_alignment = bytes::le32(bytes, nt + 56);
    if 0x200 <= file_alignment <= 0x10_0000 {
        lemma_powers(file_alignment);
    }
    if 0x200 <= section_alignment <= 0x10_0000 {
        lemma_powers(section_alignment);
    }
    lemma_sections_fit(sections, image_size);
    lemma_sections_apart(sections);
    assert forall|i: int| 0 <= i < count implies #[trigger] sections[i] == parse::section_at(
        bytes,
        table + 40 * i,
    ) by {}
    let model = parse::candidate(bytes, nt, salvaged, full);
    if acceptable(bytes, nt, full) {
        assert forall|i: int|
            0 <= i < sections.len() && taken(#[trigger] sections[i]) > 0 implies sections[i].virtual_address
            + taken(sections[i]) <= image_size by {
            assert(sections[i] == parse::section_at(bytes, table + 40 * i));
        }
        assert forall|i: int, j: int, address: int|
            #![trigger has_address(sections[i], address), has_address(sections[j], address)]
            0 <= i < j < sections.len() implies !(has_address(sections[i], address) && has_address(
            sections[j],
            address,
        )) by {
            assert(sections[i] == parse::section_at(bytes, table + 40 * i));
            assert(sections[j] == parse::section_at(bytes, table + 40 * j));
            assert(has_address(parse::section_at(bytes, table + 40 * i), address) == has_address(
                sections[i],
                address,
            ));
            assert(has_address(parse::section_at(bytes, table + 40 * j), address) == has_address(
                sections[j],
                address,
            ));
        }
        assert(model is Ok);
    }
    if model is Ok {
        assert forall|i: int| #![trigger parse::section_at(bytes, table + 40 * i)]
            0 <= i < count implies {
            let section = parse::section_at(bytes, table + 40 * i);
            taken(section) > 0 ==> section.virtual_address + taken(section) <= image_size
        } by {
            assert(sections[i] == parse::section_at(bytes, table + 40 * i));
        }
        assert forall|i: int, j: int, address: int|
            #![trigger has_address(parse::section_at(bytes, table + 40 * i), address), has_address(parse::section_at(bytes, table + 40 * j), address)]
            0 <= i < j < count implies !(has_address(
            parse::section_at(bytes, table + 40 * i),
            address,
        ) && has_address(parse::section_at(bytes, table + 40 * j), address)) by {
            assert(has_address(sections[i], address) == has_address(
                parse::section_at(bytes, table + 40 * i),
                address,
            ));
            assert(has_address(sections[j], address) == has_address(
                parse::section_at(bytes, table + 40 * j),
                address,
            ));
        }
        assert(acceptable(bytes, nt, full));
    }
}

/// The offset at 0x3C leads to headers that can be taken.
pub open spec fn leads_to_headers(bytes: Seq<u8>, full: bool) -> bool {
    bytes[0] == 0x4D && bytes[1] == 0x5A && acceptable(
        bytes,
        bytes::le32(bytes, 0x3C) as int,
        full,
    )
}

/// A captured image has the headers that its DOS header leads to. Where those cannot be taken, it
/// has the first ones in its first MiB that can; where there are none, it is refused.
pub proof fn headers_are_found_or_searched(bytes: Seq<u8>, offset: int)
    requires
        64 <= bytes.len() <= usize::MAX,
        0 <= offset < bytes.len() - 4,
        offset < 0x10_0000 - 4,
        forall|earlier: int|
            0 <= earlier < offset ==> !#[trigger] acceptable(bytes, earlier, true),
    ensures
        leads_to_headers(bytes, true) ==> parse::memory_image(bytes) == parse::candidate(
            bytes,
            bytes::le32(bytes, 0x3C) as int,
            false,
            true,
        ) && parse::memory_image(bytes) is Ok,
        !leads_to_headers(bytes, true) && acceptable(bytes, offset, true) ==> parse::memory_image(
            bytes,
        ) == parse::candidate(bytes, offset, true, true) && parse::memory_image(bytes) is Ok,
{
    let normal = bytes::le32(bytes, 0x3C);
    fields_are_little_endian(bytes, 0);
    acceptable_headers_are_accepted(bytes, normal as int, false, true);
    acceptable_headers_are_accepted(bytes, normal as int, true, true);
    acceptable_headers_are_accepted(bytes, offset, true, true);
    if !leads_to_headers(bytes, true) && acceptable(bytes, offset, true) {
        let refused = if bytes::le16(bytes, 0) == 0x5A4D {
            Some(normal)
        } else {
            None
        };
        assert forall|earlier: int| 0 <= earlier < offset implies !#[trigger] parse::salvageable(
            bytes,
            refused,
            earlier,
        ) by {
            acceptable_headers_are_accepted(bytes, earlier, true, true);
            assert(!acceptable(bytes, earlier, true));
        }
        assert(parse::scan_stops(bytes, refused, offset));
        let found = choose|found: int| #[trigger] parse::scan_stops(bytes, refused, found);
        assert(parse::scan_stops(bytes, refused, found));
        assert(found == offset) by {
            if found < offset {
                assert(parse::salvageable(bytes, refused, found));
            } else if offset < found {
                assert(!parse::salvageable(bytes, refused, offset));
            }
        }
    }
}

/// An image without headers that can be taken is refused.
pub proof fn images_without_headers_are_refused(bytes: Seq<u8>)
    requires
        64 <= bytes.len() <= usize::MAX,
        !leads_to_headers(bytes, true),
        forall|offset: int|
            0 <= offset < bytes.len() - 4 && offset < 0x10_0000 - 4 ==> !#[trigger] acceptable(
                bytes,
                offset,
                true,
            ),
    ensures
        parse::memory_image(bytes) is Err,
{
    let normal = bytes::le32(bytes, 0x3C);
    fields_are_little_endian(bytes, 0);
    acceptable_headers_are_accepted(bytes, normal as int, false, true);
    let refused = if bytes::le16(bytes, 0) == 0x5A4D {
        Some(normal)
    } else {
        None
    };
    assert forall|offset: int| !#[trigger] parse::scan_stops(bytes, refused, offset) by {
        if parse::scanned(bytes, offset) {
            acceptable_headers_are_accepted(bytes, offset, true, true);
            assert(!acceptable(bytes, offset, true));
        }
    }
}

/// A file on disk has the headers that its DOS header leads to, or none.
pub proof fn disk_headers_are_found(bytes: Seq<u8>)
    requires
        64 <= bytes.len() <= usize::MAX,
    ensures
        parse::declared_image(bytes) is Ok <==> leads_to_headers(bytes, false),
        parse::declared_image(bytes) is Ok ==> parse::declared_image(bytes) == parse::candidate(
            bytes,
            bytes::le32(bytes, 0x3C) as int,
            false,
            false,
        ),
{
    fields_are_little_endian(bytes, 0);
    acceptable_headers_are_accepted(bytes, bytes::le32(bytes, 0x3C) as int, false, false);
}

/// The image base is written where its format has it: eight bytes at 24 of the optional header, or
/// four bytes at 28 of it where the base is a 32-bit number.
pub proof fn image_bases_are_written_in_place(bytes: Seq<u8>, model: PeModelView, base: u64)
    requires
        0 <= model.nt_offset,
        model.nt_offset + 56 <= bytes.len() <= usize::MAX,
    ensures
        model.kind == PeKind::Pe32Plus ==> {
            let after = headers::with_image_base(bytes, model, base);
            &&& after.failure is None
            &&& bytes::le64(after.bytes, model.nt_offset + 48) == base
            &&& forall|o: int|
                0 <= o < bytes.len() && !(model.nt_offset + 48 <= o < model.nt_offset + 56)
                    ==> #[trigger] after.bytes[o] == bytes[o]
        },
        model.kind == PeKind::Pe32 ==> {
            let after = headers::with_image_base(bytes, model, base);
            &&& after.failure is None <==> base < 0x1_0000_0000
            &&& after.failure is None ==> bytes::le32(after.bytes, model.nt_offset + 52) == base
            &&& forall|o: int|
                0 <= o < bytes.len() && !(model.nt_offset + 52 <= o < model.nt_offset + 56)
                    ==> #[trigger] after.bytes[o] == bytes[o]
        },
{
    if model.kind == PeKind::Pe32Plus {
        bytes::written_u64_reads_back(bytes, model.nt_offset + 48, base);
    } else if base < 0x1_0000_0000 {
        bytes::written_u32_reads_back(bytes, model.nt_offset + 52, base as u32);
    }
}

/// A chosen entry point is taken exactly if it lies in code, and is then written to the four bytes
/// at 16 of the optional header; without a choice nothing is written.
pub proof fn entry_points_lie_in_code(bytes: Seq<u8>, model: PeModelView, rva: u32)
    requires
        0 <= model.nt_offset,
        model.nt_offset + 44 <= bytes.len() <= usize::MAX,
    ensures
        ({
            let after = headers::with_entry_point(bytes, model, Some(rva));
            &&& after.failure is None <==> directory_facts::in_code(model, rva as int)
            &&& after.failure is None ==> bytes::le32(after.bytes, model.nt_offset + 40) == rva
            &&& forall|o: int|
                0 <= o < bytes.len() && !(model.nt_offset + 40 <= o < model.nt_offset + 44)
                    ==> #[trigger] after.bytes[o] == bytes[o]
        }),
        headers::with_entry_point(bytes, model, None).bytes == bytes,
        headers::with_entry_point(bytes, model, None).failure is None,
{
    directory_facts::lemma_in_code(model, rva as int);
    bytes::written_u32_reads_back(bytes, model.nt_offset + 40, rva);
}

/// What a section adds to a sum over those with one of the flags.
pub open spec fn counted_size(bytes: Seq<u8>, at: int, flag: u32, size_at: int) -> int {
    if bytes::le32(bytes, at + 36) & flag != 0 {
        bytes::le32(bytes, at + size_at) as int
    } else {
        0
    }
}

/// Another section adds its size in the file to the code size if it holds code, to the size of
/// initialized data if it holds such, and its aligned size in memory to the size of uninitialized
/// data if it holds such. The code starts at the lowest address of a section with code.
pub proof fn sections_add_to_their_sums(
    bytes: Seq<u8>,
    first: int,
    file_alignment: u32,
    count: nat,
)
    requires
        0 <= first,
        first + 40 * (count + 1) <= bytes.len() <= usize::MAX,
        file_aligns(file_alignment),
        headers::summed(bytes, first, file_alignment, count + 1).failure is None,
    ensures
        ({
            let before = headers::summed(bytes, first, file_alignment, count);
            let after = headers::summed(bytes, first, file_alignment, count + 1);
            let at = first + 40 * count;
            let flags = bytes::le32(bytes, at + 36);
            let address = bytes::le32(bytes, at + 12);
            let added = after.sizes.uninitialized_data - before.sizes.uninitialized_data;
            &&& before.failure is None
            &&& after.sizes.code == before.sizes.code + counted_size(bytes, at, 0x20, 16)
            &&& after.sizes.initialized_data == before.sizes.initialized_data + counted_size(
                bytes,
                at,
                0x40,
                16,
            )
            &&& flags & 0x80 == 0 ==> added == 0
            &&& flags & 0x80 != 0 ==> added % (file_alignment as int) == 0 && bytes::le32(
                bytes,
                at + 8,
            ) <= added < bytes::le32(bytes, at + 8) + file_alignment
            &&& after.sizes.base_of_code == if flags & 0x20 != 0 && (before.sizes.base_of_code == 0
                || address < before.sizes.base_of_code) {
                address
            } else {
                before.sizes.base_of_code
            }
        }),
{
    let at = first + 40 * count;
    layout::aligned_is_least_multiple(bytes::le32(bytes, at + 8) as int, file_alignment as int);
    vstd::arithmetic::div_mod::lemma_small_mod(0, file_alignment as nat);
}

/// The sums stand in the optional header: code at 4, initialized data at 8, uninitialized data at
/// 12, and the start of the code at 20. They begin at zero and cover all sections.
pub proof fn sums_are_written_in_place(bytes: Seq<u8>, model: PeModelView)
    requires
        0 <= model.nt_offset,
        model.nt_offset + 48 <= bytes.len() <= usize::MAX,
        headers::with_derived_fields(bytes, model).failure is None,
    ensures
        ({
            let after = headers::with_derived_fields(bytes, model).bytes;
            let sum = headers::summed(
                bytes,
                model.section_table_offset(),
                model.file_alignment,
                bytes::le16(bytes, model.nt_offset + 6) as nat,
            );
            &&& bytes::le32(after, model.nt_offset + 28) == sum.sizes.code
            &&& bytes::le32(after, model.nt_offset + 32) == sum.sizes.initialized_data
            &&& bytes::le32(after, model.nt_offset + 36) == sum.sizes.uninitialized_data
            &&& bytes::le32(after, model.nt_offset + 44) == sum.sizes.base_of_code
            &&& forall|o: int|
                0 <= o < bytes.len() && !(model.nt_offset + 28 <= o < model.nt_offset + 40)
                    && !(model.nt_offset + 44 <= o < model.nt_offset + 48)
                    ==> #[trigger] after[o] == bytes[o]
        }),
        ({
            let none = headers::summed(bytes, 0, model.file_alignment, 0);
            none.sizes.code == 0 && none.sizes.initialized_data == 0
                && none.sizes.uninitialized_data == 0 && none.sizes.base_of_code == 0
        }),
{
    let nt = model.nt_offset;
    let sum = headers::summed(
        bytes,
        model.section_table_offset(),
        model.file_alignment,
        bytes::le16(bytes, nt + 6) as nat,
    );
    let first = bytes::splice(bytes, nt + 28, bytes::bytes32(sum.sizes.code));
    let second = bytes::splice(first, nt + 32, bytes::bytes32(sum.sizes.initialized_data));
    let third = bytes::splice(second, nt + 36, bytes::bytes32(sum.sizes.uninitialized_data));
    let fourth = bytes::splice(third, nt + 44, bytes::bytes32(sum.sizes.base_of_code));
    assert(headers::with_derived_fields(bytes, model).bytes == fourth);
    bytes::written_u32_reads_back(bytes, nt + 28, sum.sizes.code);
    bytes::written_u32_reads_back(first, nt + 32, sum.sizes.initialized_data);
    bytes::written_u32_reads_back(second, nt + 36, sum.sizes.uninitialized_data);
    bytes::written_u32_reads_back(third, nt + 44, sum.sizes.base_of_code);
    bytes::write_keeps_other_fields(
        first,
        nt + 32,
        bytes::bytes32(sum.sizes.initialized_data),
        nt + 28,
    );
    bytes::write_keeps_other_fields(
        second,
        nt + 36,
        bytes::bytes32(sum.sizes.uninitialized_data),
        nt + 28,
    );
    bytes::write_keeps_other_fields(
        second,
        nt + 36,
        bytes::bytes32(sum.sizes.uninitialized_data),
        nt + 32,
    );
    bytes::write_keeps_other_fields(
        third,
        nt + 44,
        bytes::bytes32(sum.sizes.base_of_code),
        nt + 28,
    );
    bytes::write_keeps_other_fields(
        third,
        nt + 44,
        bytes::bytes32(sum.sizes.base_of_code),
        nt + 32,
    );
    bytes::write_keeps_other_fields(
        third,
        nt + 44,
        bytes::bytes32(sum.sizes.base_of_code),
        nt + 36,
    );
}

/// Memory still holds the machine or the magic number of the format, so that its entry point can
/// be believed.
pub open spec fn format_left(memory: Seq<u8>, model: PeModelView) -> bool {
    ||| model.nt_offset + 6 <= memory.len() && bytes::le16(memory, model.nt_offset + 4)
        == if model.kind == PeKind::Pe32 {
        0x14Cu16
    } else {
        0x8664
    }
    ||| model.nt_offset + 26 <= memory.len() && bytes::le16(memory, model.nt_offset + 24)
        == if model.kind == PeKind::Pe32 {
        0x10Bu16
    } else {
        0x20B
    }
}

/// Memory still holds the machine or the magic number of the other format.
pub open spec fn other_format_left(memory: Seq<u8>, model: PeModelView) -> bool {
    ||| model.nt_offset + 6 <= memory.len() && bytes::le16(memory, model.nt_offset + 4)
        == if model.kind == PeKind::Pe32 {
        0x8664u16
    } else {
        0x14C
    }
    ||| model.nt_offset + 26 <= memory.len() && bytes::le16(memory, model.nt_offset + 24)
        == if model.kind == PeKind::Pe32 {
        0x20Bu16
    } else {
        0x10B
    }
}

/// Headers of a file are used exactly if they can be taken, declare no more bytes than were
/// captured, do not contradict what memory still holds of its format, and end, aligned, within
/// 1 MiB, the file and the captured memory. The captured image then gets them, up to their aligned
/// end. The entry point alone comes from memory, where memory still holds the format and the entry
/// point lies in code.
pub proof fn disk_headers_replace_those_in_memory(memory: Seq<u8>, disk: Seq<u8>, size: int)
    requires
        64 <= disk.len() <= usize::MAX,
        memory.len() <= usize::MAX,
        leads_to_headers(disk, false),
        ({
            let model = parse::declared_image(disk)->Ok_0;
            let end = bytes::le32(disk, 0x3C) + 24 + bytes::le16(
                disk,
                bytes::le32(disk, 0x3C) + 20,
            ) + 40 * bytes::le16(disk, bytes::le32(disk, 0x3C) + 6);
            &&& size % (model.file_alignment as int) == 0
            &&& end <= size < end + model.file_alignment
            &&& end + model.file_alignment <= usize::MAX
        }),
    ensures
        ({
            let model = parse::declared_image(disk)->Ok_0;
            let repaired = merge::merged(memory, disk);
            let field = model.nt_offset + 40;
            let kept = format_left(memory, model) && directory_facts::in_code(
                model,
                bytes::le32(memory, field) as int,
            );
            &&& repaired is Ok <==> {
                &&& model.image_size <= memory.len()
                &&& !other_format_left(memory, model)
                &&& size <= 0x10_0000
                &&& size <= disk.len()
                &&& size <= memory.len()
            }
            &&& repaired is Ok ==> {
                &&& repaired->Ok_0.len() == memory.len()
                &&& forall|o: int|
                    #![trigger repaired->Ok_0[o]]
                    0 <= o < memory.len() && !(field <= o < field + 4) ==> repaired->Ok_0[o] == if o
                        < size {
                        disk[o]
                    } else {
                        memory[o]
                    }
                &&& bytes::le32(repaired->Ok_0, field) == if kept {
                    bytes::le32(memory, field)
                } else {
                    bytes::le32(disk, field)
                }
            }
        }),
{
    disk_headers_are_found(disk);
    let nt = bytes::le32(disk, 0x3C) as int;
    acceptable_headers_are_accepted(disk, nt, false, false);
    let model = parse::declared_image(disk)->Ok_0;
    parse::accepted_headers_are_sound(disk, nt, false, false);
    let end = model.section_table_end();
    let aligned = layout::aligned(end, model.file_alignment as int);
    layout::aligned_is_least_multiple(end, model.file_alignment as int);
    assert(model.sections[0].header_offset == nt + 24 + bytes::le16(disk, nt + 20));
    assert(aligned == size) by {
        lemma_one_multiple(aligned, size, end, model.file_alignment as int);
    }
    let field = model.nt_offset + 40;
    directory_facts::lemma_in_code(model, bytes::le32(memory, field) as int);
    let repaired = merge::merged(memory, disk);
    if repaired is Ok {
        assert(field + 4 <= end);
        let restored = bytes::splice(memory, 0, disk.take(size));
        bytes::written_u32_reads_back(restored, field, bytes::le32(memory, field));
        assert(bytes::le32(restored, field) == bytes::le32(disk, field));
    }
}

proof fn lemma_one_multiple(left: int, right: int, from: int, step: int)
    requires
        step > 0,
        left % step == 0,
        right % step == 0,
        from <= left < from + step,
        from <= right < from + step,
    ensures
        left == right,
{
    let high = if left >= right {
        left
    } else {
        right
    };
    let low = if left >= right {
        right
    } else {
        left
    };
    vstd::arithmetic::div_mod::lemma_sub_mod_noop(high, low, step);
    vstd::arithmetic::div_mod::lemma_small_mod(0, step as nat);
    vstd::arithmetic::div_mod::lemma_small_mod((high - low) as nat, step as nat);
}

} // verus!
