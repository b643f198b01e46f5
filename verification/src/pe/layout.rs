//! Where the sections of an image come to stand in a file.

use vstd::prelude::*;

use crate::error::{AppError, AppResult};
use crate::error;
use crate::pe;
use crate::pe::parse::is_power_of_two;
use crate::pe::{PeModel, PeModelView, SectionModel, SectionView};

verus! {

/// The least multiple of `alignment` that is not below `value`.
pub open spec fn aligned(value: int, alignment: int) -> int {
    (value + alignment - 1) / alignment * alignment
}

/// `value` brought to a multiple of `alignment`, in numbers up to `limit`.
pub open spec fn alignment_of(value: int, alignment: int, limit: int) -> Result<int, Seq<char>> {
    if !pe::power_of_two(alignment) {
        Err("PE alignment is invalid"@)
    } else if value + alignment - 1 > limit {
        Err("PE alignment overflowed"@)
    } else {
        Ok(aligned(value, alignment))
    }
}

/// `aligned` is a multiple of the alignment, not below the value, and less than one alignment
/// above it.
pub proof fn aligned_is_least_multiple(value: int, alignment: int)
    requires
        alignment > 0,
    ensures
        aligned(value, alignment) % alignment == 0,
        value <= aligned(value, alignment) < value + alignment,
{
    let top = value + alignment - 1;
    vstd::arithmetic::div_mod::lemma_fundamental_div_mod(top, alignment);
    vstd::arithmetic::mul::lemma_mul_is_commutative(alignment, top / alignment);
    vstd::arithmetic::div_mod::lemma_mod_multiples_basic(top / alignment, alignment);
    vstd::arithmetic::div_mod::lemma_mod_bound(top, alignment);
}

/// Aligning a value that is aligned leaves it alone.
pub proof fn aligned_twice_is_aligned(value: int, alignment: int)
    requires
        alignment > 0,
    ensures
        aligned(aligned(value, alignment), alignment) == aligned(value, alignment),
{
    let once = aligned(value, alignment);
    let twice = aligned(once, alignment);
    aligned_is_least_multiple(value, alignment);
    aligned_is_least_multiple(once, alignment);
    let difference = twice - once;
    assert(difference % alignment == 0) by {
        vstd::arithmetic::div_mod::lemma_sub_mod_noop(twice, once, alignment);
        vstd::arithmetic::div_mod::lemma_small_mod(0, alignment as nat);
    }
    vstd::arithmetic::div_mod::lemma_small_mod(difference as nat, alignment as nat);
}

/// Brings a file offset or a length to a multiple of the alignment.
pub fn align_up(value: usize, alignment: usize) -> (result: AppResult<usize>)
    ensures
        match alignment_of(value as int, alignment as int, usize::MAX as int) {
            Ok(expected) => result is Ok && result->Ok_0 == expected,
            Err(message) => error::fails(result, message),
        },
{
    if alignment == 0 || !is_power_of_two(alignment as u64) {
        return Err(AppError::fixed("PE alignment is invalid"));
    }
    match value.checked_add(alignment - 1) {
        None => Err(AppError::fixed("PE alignment overflowed")),
        Some(top) => {
            proof {
                vstd::arithmetic::div_mod::lemma_fundamental_div_mod(top as int, alignment as int);
                vstd::arithmetic::mul::lemma_mul_is_commutative(
                    alignment as int,
                    top as int / alignment as int,
                );
            }
            Ok(top - top % alignment)
        },
    }
}

/// Brings a 64-bit number to a multiple of the alignment.
pub fn align_up_u64(value: u64, alignment: u64) -> (result: AppResult<u64>)
    ensures
        match alignment_of(value as int, alignment as int, u64::MAX as int) {
            Ok(expected) => result is Ok && result->Ok_0 == expected,
            Err(message) => error::fails(result, message),
        },
{
    if alignment == 0 || !is_power_of_two(alignment) {
        return Err(AppError::fixed("PE alignment is invalid"));
    }
    match value.checked_add(alignment - 1) {
        None => Err(AppError::fixed("PE alignment overflowed")),
        Some(top) => {
            proof {
                vstd::arithmetic::div_mod::lemma_fundamental_div_mod(top as int, alignment as int);
                vstd::arithmetic::mul::lemma_mul_is_commutative(
                    alignment as int,
                    top as int / alignment as int,
                );
            }
            Ok(top - top % alignment)
        },
    }
}

/// The place of a section among sections in address order: behind those that start no later.
pub open spec fn place(sections: Seq<SectionView>, address: u32) -> int
    decreases sections.len(),
{
    if sections.len() == 0 || sections.last().virtual_address <= address {
        sections.len() as int
    } else {
        place(sections.drop_last(), address)
    }
}

/// The sections in the order of their addresses; those that start together keep their order.
pub open spec fn by_address(sections: Seq<SectionView>) -> Seq<SectionView>
    decreases sections.len(),
{
    if sections.len() == 0 {
        sections
    } else {
        let others = by_address(sections.drop_last());
        others.insert(place(others, sections.last().virtual_address), sections.last())
    }
}

/// The addresses of the sections do not fall.
pub open spec fn ascending(sections: Seq<SectionView>) -> bool {
    forall|i: int, j: int|
        0 <= i <= j < sections.len() ==> (#[trigger] sections[i]).virtual_address <= (
        #[trigger] sections[j]).virtual_address
}

proof fn lemma_place(sections: Seq<SectionView>, address: u32)
    requires
        ascending(sections),
    ensures
        0 <= place(sections, address) <= sections.len(),
        forall|i: int|
            0 <= i < place(sections, address) ==> (#[trigger] sections[i]).virtual_address
                <= address,
        forall|i: int|
            place(sections, address) <= i < sections.len() ==> (
            #[trigger] sections[i]).virtual_address > address,
    decreases sections.len(),
{
    if sections.len() > 0 && sections.last().virtual_address > address {
        let shorter = sections.drop_last();
        assert(ascending(shorter));
        lemma_place(shorter, address);
        assert forall|i: int| 0 <= i < place(sections, address) implies (
        #[trigger] sections[i]).virtual_address <= address by {
            assert(sections[i] == shorter[i]);
        }
        assert forall|i: int| place(sections, address) <= i < sections.len() implies (
        #[trigger] sections[i]).virtual_address > address by {
            if i < shorter.len() {
                assert(sections[i] == shorter[i]);
            }
        }
    }
}

/// Ordering by address loses no section, adds none, and leaves the addresses ascending.
pub proof fn ordering_keeps_sections(sections: Seq<SectionView>)
    ensures
        by_address(sections).to_multiset() == sections.to_multiset(),
        by_address(sections).len() == sections.len(),
        ascending(by_address(sections)),
    decreases sections.len(),
{
    broadcast use vstd::seq_lib::group_to_multiset_ensures;

    if sections.len() > 0 {
        let shorter = sections.drop_last();
        let section = sections.last();
        ordering_keeps_sections(shorter);
        let others = by_address(shorter);
        lemma_place(others, section.virtual_address);
        let at = place(others, section.virtual_address);
        let all = others.insert(at, section);
        assert(sections =~= shorter.push(section));
        vstd::seq_lib::to_multiset_insert(others, at, section);
        assert forall|i: int, j: int| 0 <= i <= j < all.len() implies (
        #[trigger] all[i]).virtual_address <= (#[trigger] all[j]).virtual_address by {
            let left = if i < at {
                i
            } else {
                i - 1
            };
            let right = if j < at {
                j
            } else {
                j - 1
            };
            if i != at {
                assert(all[i] == others[left]);
            }
            if j != at {
                assert(all[j] == others[right]);
            }
        }
    }
}

/// One section, with the part of the file that it gets.
#[derive(Clone, Copy, Debug)]
pub struct SectionLayout {
    pub model: SectionModel,
    pub source_length: usize,
    pub raw_offset: usize,
    pub raw_size: usize,
}

/// A section with its part of the file, seen mathematically.
pub struct LayoutView {
    pub section: SectionView,
    pub source_length: int,
    pub raw_offset: int,
    pub raw_size: int,
}

impl View for SectionLayout {
    type V = LayoutView;

    open spec fn view(&self) -> LayoutView {
        LayoutView {
            section: self.model@,
            source_length: self.source_length as int,
            raw_offset: self.raw_offset as int,
            raw_size: self.raw_size as int,
        }
    }
}

/// The layouts as they are seen mathematically.
pub open spec fn layout_views(layouts: Seq<SectionLayout>) -> Seq<LayoutView> {
    layouts.map_values(|layout: SectionLayout| layout@)
}

/// The bytes between `from` and `to`.
pub open spec fn distance(from: int, to: int) -> int {
    if to > from {
        to - from
    } else {
        0
    }
}

/// The smaller number.
pub open spec fn least(left: int, right: int) -> int {
    if left <= right {
        left
    } else {
        right
    }
}

/// Where the section behind the one with this index starts, or else the memory ends.
pub open spec fn next_address(ordered: Seq<SectionView>, index: int, memory_size: int) -> int {
    if index + 1 < ordered.len() {
        ordered[index + 1].virtual_address as int
    } else {
        memory_size
    }
}

/// The bytes of memory that belong to a section: as many as it declares, up to the next section
/// and up to the end of the memory.
pub open spec fn source_length(ordered: Seq<SectionView>, index: int, memory_size: int) -> int {
    let start = ordered[index].virtual_address as int;
    least(
        least(
            ordered[index].span(),
            distance(start, next_address(ordered, index, memory_size)),
        ),
        distance(start, memory_size),
    )
}

/// The bytes of the file that a section gets.
pub open spec fn raw_size(
    ordered: Seq<SectionView>,
    index: int,
    memory_size: int,
    file_alignment: int,
) -> int {
    if source_length(ordered, index, memory_size) == 0 {
        0
    } else {
        aligned(source_length(ordered, index, memory_size), file_alignment)
    }
}

/// The bytes of the file that the first `count` sections get.
pub open spec fn raw_total(
    ordered: Seq<SectionView>,
    memory_size: int,
    file_alignment: int,
    count: nat,
) -> int
    decreases count,
{
    if count == 0 {
        0
    } else {
        raw_total(ordered, memory_size, file_alignment, (count - 1) as nat) + raw_size(
            ordered,
            count - 1,
            memory_size,
            file_alignment,
        )
    }
}

/// The layout of the section with this index: behind the headers and the sections before it.
pub open spec fn layout_at(
    ordered: Seq<SectionView>,
    memory_size: int,
    file_alignment: int,
    header_size: int,
    index: int,
) -> LayoutView {
    let size = raw_size(ordered, index, memory_size, file_alignment);
    LayoutView {
        section: ordered[index],
        source_length: source_length(ordered, index, memory_size),
        raw_offset: if size == 0 {
            0
        } else {
            header_size + raw_total(ordered, memory_size, file_alignment, index as nat)
        },
        raw_size: size,
    }
}

/// The bytes of the file that all sections get.
pub open spec fn sections_size(model: PeModelView, memory_size: int) -> int {
    raw_total(
        by_address(model.sections),
        memory_size,
        model.file_alignment as int,
        model.sections.len(),
    )
}

/// The layouts of all sections, in address order.
pub open spec fn section_layouts(model: PeModelView, memory_size: int, header_size: int) -> Seq<
    LayoutView,
> {
    Seq::new(
        model.sections.len(),
        |i: int|
            layout_at(
                by_address(model.sections),
                memory_size,
                model.file_alignment as int,
                header_size,
                i,
            ),
    )
}

/// Every section of the ordered list is one of the sections of the model.
pub proof fn lemma_ordered_section(sections: Seq<SectionView>, index: int) -> (origin: int)
    requires
        0 <= index < sections.len(),
    ensures
        0 <= origin < sections.len(),
        by_address(sections)[index] == sections[origin],
{
    broadcast use vstd::seq_lib::group_to_multiset_ensures;

    ordering_keeps_sections(sections);
    let section = by_address(sections)[index];
    assert(by_address(sections).contains(section));
    assert(by_address(sections).to_multiset().contains(section));
    assert(sections.contains(section));
    choose|origin: int| 0 <= origin < sections.len() && sections[origin] == section
}

/// The part of the file that a section of an accepted image gets is bounded.
pub proof fn lemma_raw_size(model: PeModelView, memory_size: int, index: int)
    requires
        model.valid(),
        0 <= memory_size,
        0 <= index < model.sections.len(),
    ensures
        ({
            let ordered = by_address(model.sections);
            let length = source_length(ordered, index, memory_size);
            let size = raw_size(ordered, index, memory_size, model.file_alignment as int);
            &&& 0 <= length <= size
            &&& length <= model.image_size
            &&& size < length + model.file_alignment
            &&& length > 0 ==> ordered[index].virtual_address + length <= memory_size
            &&& length > 0 ==> ordered[index].virtual_address + length <= ordered[index].end()
            &&& size % (model.file_alignment as int) == 0
            &&& length == 0 ==> size == 0
        }),
{
    ordering_keeps_sections(model.sections);
    let ordered = by_address(model.sections);
    let origin = lemma_ordered_section(model.sections, index);
    let length = source_length(ordered, index, memory_size);
    aligned_is_least_multiple(length, model.file_alignment as int);
    vstd::arithmetic::div_mod::lemma_small_mod(0, model.file_alignment as nat);
}

/// More sections take no less of the file.
pub proof fn lemma_raw_total_grows(
    model: PeModelView,
    memory_size: int,
    fewer: nat,
    more: nat,
)
    requires
        model.valid(),
        0 <= memory_size,
        fewer <= more <= model.sections.len(),
    ensures
        ({
            let ordered = by_address(model.sections);
            let alignment = model.file_alignment as int;
            0 <= raw_total(ordered, memory_size, alignment, fewer) <= raw_total(
                ordered,
                memory_size,
                alignment,
                more,
            )
        }),
    decreases more,
{
    if more > 0 {
        lemma_raw_size(model, memory_size, more - 1);
        if fewer < more {
            lemma_raw_total_grows(model, memory_size, fewer, (more - 1) as nat);
        } else {
            lemma_raw_total_grows(model, memory_size, (more - 1) as nat, (more - 1) as nat);
        }
    }
}

/// The part of the file that a section gets lies behind the headers and inside the file, is
/// aligned, and holds all bytes of the section.
pub proof fn layouts_lie_in_the_file(
    model: PeModelView,
    memory_size: int,
    header_size: int,
    index: int,
)
    requires
        model.valid(),
        0 <= memory_size,
        0 <= index < model.sections.len(),
    ensures
        ({
            let layout = section_layouts(model, memory_size, header_size)[index];
            &&& 0 <= layout.source_length <= layout.raw_size
            &&& layout.raw_size % (model.file_alignment as int) == 0
            &&& layout.raw_size == 0 <==> layout.source_length == 0
            &&& layout.raw_size > 0 ==> header_size <= layout.raw_offset && layout.raw_offset
                + layout.raw_size <= header_size + sections_size(model, memory_size)
            &&& layout.source_length > 0 ==> layout.section.virtual_address
                + layout.source_length <= memory_size
        }),
{
    lemma_raw_size(model, memory_size, index);
    lemma_raw_total_grows(model, memory_size, index as nat, index as nat);
    lemma_raw_total_grows(model, memory_size, (index + 1) as nat, model.sections.len());
    aligned_is_least_multiple(
        source_length(by_address(model.sections), index, memory_size),
        model.file_alignment as int,
    );
}

/// No two sections get the same byte of the file.
pub proof fn layouts_lie_apart(
    model: PeModelView,
    memory_size: int,
    header_size: int,
    first: int,
    second: int,
)
    requires
        model.valid(),
        0 <= memory_size,
        0 <= first < second < model.sections.len(),
        section_layouts(model, memory_size, header_size)[first].raw_size > 0,
        section_layouts(model, memory_size, header_size)[second].raw_size > 0,
    ensures
        section_layouts(model, memory_size, header_size)[first].raw_offset + section_layouts(
            model,
            memory_size,
            header_size,
        )[first].raw_size <= section_layouts(model, memory_size, header_size)[second].raw_offset,
{
    lemma_raw_total_grows(model, memory_size, (first + 1) as nat, second as nat);
}

/// Every section header has one section in address order, and only one.
pub proof fn ordered_headers_differ(model: PeModelView, first: int, second: int)
    requires
        model.valid(),
        0 <= first < second < model.sections.len(),
    ensures
        ({
            let left = by_address(model.sections)[first].header_offset;
            let right = by_address(model.sections)[second].header_offset;
            left + 40 <= right || right + 40 <= left
        }),
{
    let sections = model.sections;
    let ordered = by_address(sections);
    ordering_keeps_sections(sections);
    assert(sections.no_duplicates()) by {
        assert forall|i: int, j: int|
            0 <= i < sections.len() && 0 <= j < sections.len() && i != j implies sections[i]
            != sections[j] by {
            assert(sections[i].header_offset != sections[j].header_offset);
        }
    }
    sections.lemma_multiset_has_no_duplicates();
    ordered.lemma_multiset_has_no_duplicates_conv();
    let left = lemma_ordered_section(sections, first);
    let right = lemma_ordered_section(sections, second);
    assert(ordered[first] != ordered[second]);
    assert(left != right);
}

/// The sections in address order.
pub fn ordered_sections(model: &PeModel) -> (ordered: Vec<SectionModel>)
    ensures
        pe::section_views(ordered@) == by_address(model@.sections),
        ordered@.len() == model@.sections.len(),
{
    let sections: &Vec<SectionModel> = model.sections();
    let mut ordered: Vec<SectionModel> = Vec::with_capacity(sections.len());
    let mut count: usize = 0;
    assert(model@.sections.take(0) =~= Seq::<SectionView>::empty());
    while count < sections.len()
        invariant
            count <= sections@.len(),
            sections@.len() == model@.sections.len(),
            forall|i: int|
                0 <= i < sections@.len() ==> (#[trigger] sections@[i])@ == model@.sections[i],
            ordered@.len() == count,
            pe::section_views(ordered@) =~= by_address(model@.sections.take(count as int)),
        decreases sections@.len() - count,
    {
        let section: SectionModel = sections[count];
        let ghost before = pe::section_views(ordered@);
        let ghost address = section@.virtual_address;
        let mut at: usize = ordered.len();
        assert(before.take(at as int) =~= before);
        while at > 0 && ordered[at - 1].virtual_address.get() > section.virtual_address.get()
            invariant
                at <= ordered@.len(),
                before == pe::section_views(ordered@),
                address == section@.virtual_address,
                place(before, address) == place(before.take(at as int), address),
            decreases at,
        {
            assert(before.take(at as int).drop_last() =~= before.take(at - 1));
            assert(before.take(at as int).last() == ordered@[at - 1]@);
            at = at - 1;
        }
        proof {
            let prefix = before.take(at as int);
            if at > 0 {
                assert(prefix.last() == ordered@[at - 1]@);
            }
            assert(place(before, address) == at);
            let more = model@.sections.take(count + 1);
            assert(more.drop_last() =~= model@.sections.take(count as int));
            assert(more.last() == section@);
        }
        ordered.insert(at, section);
        assert(pe::section_views(ordered@) =~= before.insert(at as int, section@));
        count = count + 1;
    }
    assert(model@.sections.take(count as int) =~= model@.sections);
    ordered
}

/// Gives every section its part of the file.
pub fn layout_sections(model: &PeModel, memory_size: usize, header_size: usize) -> (layouts:
    AppResult<Vec<SectionLayout>>)
    ensures
        if header_size + sections_size(model@, memory_size as int) > usize::MAX {
            error::fails(layouts, "rebuilt section layout overflowed"@)
        } else {
            layouts is Ok && layout_views(layouts->Ok_0@) == section_layouts(
                model@,
                memory_size as int,
                header_size as int,
            )
        },
{
    let sections: Vec<SectionModel> = ordered_sections(model);
    let file_alignment: usize = model.file_alignment() as usize;
    let ghost ordered = by_address(model@.sections);
    let ghost expected = section_layouts(model@, memory_size as int, header_size as int);
    proof {
        use_type_invariant(model);
        model.lemma_accepted();
    }
    let mut layouts: Vec<SectionLayout> = Vec::with_capacity(sections.len());
    let mut raw_offset: usize = header_size;
    let mut index: usize = 0;
    while index < sections.len()
        invariant
            index <= sections@.len(),
            sections@.len() == model@.sections.len(),
            model@.valid(),
            file_alignment == model@.file_alignment,
            pe::section_views(sections@) == ordered,
            ordered == by_address(model@.sections),
            expected == section_layouts(model@, memory_size as int, header_size as int),
            layout_views(layouts@) =~= expected.take(index as int),
            raw_offset == header_size + raw_total(
                ordered,
                memory_size as int,
                file_alignment as int,
                index as nat,
            ),
        decreases sections@.len() - index,
    {
        let section: SectionModel = sections[index];
        assert(section@ == ordered[index as int]);
        proof {
            lemma_raw_size(model@, memory_size as int, index as int);
            lemma_raw_total_grows(
                model@,
                memory_size as int,
                (index + 1) as nat,
                model@.sections.len(),
            );
        }
        let source_offset: usize = section.virtual_address.get() as usize;
        let declared_length: usize = section.span() as usize;
        let next_rva: usize = if index + 1 < sections.len() {
            assert(sections@[index + 1]@ == ordered[index + 1]);
            sections[index + 1].virtual_address.get() as usize
        } else {
            memory_size
        };
        let until_next: usize = next_rva.saturating_sub(source_offset);
        let available: usize = memory_size.saturating_sub(source_offset);
        let mut length: usize = declared_length;
        if until_next < length {
            length = until_next;
        }
        if available < length {
            length = available;
        }
        assert(length == source_length(ordered, index as int, memory_size as int));
        let raw_size: usize = if length == 0 {
            0
        } else {
            align_up(length, file_alignment)?
        };
        let ghost earlier = layouts@;
        layouts.push(
            SectionLayout {
                model: section,
                source_length: length,
                raw_offset: if raw_size == 0 {
                    0
                } else {
                    raw_offset
                },
                raw_size,
            },
        );
        match raw_offset.checked_add(raw_size) {
            Some(next) => {
                raw_offset = next;
            },
            None => {
                return Err(AppError::fixed("rebuilt section layout overflowed"));
            },
        }
        assert(layouts@.last()@ == expected[index as int]);
        assert(layout_views(layouts@) =~= layout_views(earlier).push(layouts@.last()@));
        assert(expected.take(index + 1) =~= expected.take(index as int).push(
            expected[index as int],
        ));
        index = index + 1;
        assert(layout_views(layouts@) =~= expected.take(index as int));
    }
    assert(expected.take(index as int) =~= expected);
    Ok(layouts)
}

/// The highest end of a section.
pub open spec fn highest_end(sections: Seq<SectionView>) -> int
    decreases sections.len(),
{
    if sections.len() == 0 {
        0
    } else if sections.last().end() > highest_end(sections.drop_last()) {
        sections.last().end()
    } else {
        highest_end(sections.drop_last())
    }
}

/// The size that the rebuilt image declares.
pub open spec fn rebuilt_size(model: PeModelView) -> Result<u32, Seq<char>> {
    let size = aligned(highest_end(model.sections), model.section_alignment as int);
    if size > u32::MAX {
        Err("rebuilt image size exceeds u32"@)
    } else {
        Ok(size as u32)
    }
}

/// The size that the rebuilt image declares.
pub fn rebuilt_image_size(model: &PeModel) -> (size: AppResult<u32>)
    ensures
        match rebuilt_size(model@) {
            Ok(expected) => size is Ok && size->Ok_0 == expected,
            Err(message) => error::fails(size, message),
        },
{
    proof {
        use_type_invariant(model);
        model.lemma_accepted();
    }
    let sections: &Vec<SectionModel> = model.sections();
    let mut maximum_end: u64 = 0;
    let mut index: usize = 0;
    assert(model@.sections.take(0) =~= Seq::<SectionView>::empty());
    while index < sections.len()
        invariant
            index <= sections@.len(),
            sections@.len() == model@.sections.len(),
            forall|i: int|
                0 <= i < sections@.len() ==> (#[trigger] sections@[i])@ == model@.sections[i],
            maximum_end == highest_end(model@.sections.take(index as int)),
            maximum_end < 0x2_0000_0000,
        decreases sections@.len() - index,
    {
        let section: SectionModel = sections[index];
        let end: u64 = section.virtual_address.get() as u64 + section.span() as u64;
        proof {
            let more = model@.sections.take(index + 1);
            assert(more.drop_last() =~= model@.sections.take(index as int));
            assert(more.last() == section@);
        }
        if end > maximum_end {
            maximum_end = end;
        }
        index = index + 1;
    }
    assert(model@.sections.take(index as int) =~= model@.sections);
    let size: u64 = align_up_u64(maximum_end, model.section_alignment() as u64)?;
    if size > u32::MAX as u64 {
        return Err(AppError::fixed("rebuilt image size exceeds u32"));
    }
    Ok(size as u32)
}

/// The layout holds `rva` among the bytes that it takes from memory.
pub open spec fn holds(layout: LayoutView, rva: int) -> bool {
    layout.section.virtual_address <= rva < layout.section.virtual_address + layout.source_length
}

/// Where the first section that holds `rva` has it in the file.
pub open spec fn section_offset(layouts: Seq<LayoutView>, rva: int) -> Option<int>
    decreases layouts.len(),
{
    if layouts.len() == 0 {
        None
    } else {
        match section_offset(layouts.drop_last(), rva) {
            Some(offset) => Some(offset),
            None => if holds(layouts.last(), rva) {
                Some(
                    least(
                        layouts.last().raw_offset + rva - layouts.last().section.virtual_address,
                        usize::MAX as int,
                    ),
                )
            } else {
                None
            },
        }
    }
}

/// Where the file has the byte at `rva`: in the headers, or in a section.
pub open spec fn file_offset(rva: int, layouts: Seq<LayoutView>, header_size: int) -> Option<int> {
    if rva < header_size {
        Some(rva)
    } else {
        section_offset(layouts, rva)
    }
}

proof fn lemma_first_section_offset(layouts: Seq<LayoutView>, rva: int, count: int)
    requires
        0 <= count <= layouts.len(),
        section_offset(layouts.take(count), rva) is Some,
    ensures
        section_offset(layouts, rva) == section_offset(layouts.take(count), rva),
    decreases layouts.len(),
{
    if count == layouts.len() {
        assert(layouts.take(count) =~= layouts);
    } else {
        assert(layouts.drop_last().take(count) =~= layouts.take(count));
        lemma_first_section_offset(layouts.drop_last(), rva, count);
    }
}

/// Where the file has the byte at `rva`.
pub fn rva_to_file(rva: u32, layouts: &[SectionLayout], header_size: usize) -> (offset: Option<
    usize,
>)
    ensures
        match file_offset(rva as int, layout_views(layouts@), header_size as int) {
            Some(expected) => offset is Some && offset->0 == expected,
            None => offset is None,
        },
{
    let address: usize = rva as usize;
    if address < header_size {
        return Some(address);
    }
    let ghost views = layout_views(layouts@);
    let mut index: usize = 0;
    assert(views.take(0) =~= Seq::<LayoutView>::empty());
    while index < layouts.len()
        invariant
            index <= layouts@.len(),
            address == rva,
            header_size <= address,
            views == layout_views(layouts@),
            section_offset(views.take(index as int), rva as int) is None,
        decreases layouts@.len() - index,
    {
        let layout: SectionLayout = layouts[index];
        let start: usize = layout.model.virtual_address.get() as usize;
        proof {
            let more = views.take(index + 1);
            assert(more.drop_last() =~= views.take(index as int));
            assert(more.last() == layout@);
        }
        if address >= start && address - start < layout.source_length {
            proof {
                lemma_first_section_offset(views, rva as int, index + 1);
            }
            return Some(layout.raw_offset.saturating_add(address - start));
        }
        index = index + 1;
    }
    assert(views.take(index as int) =~= views);
    None
}

/// The data directory at `rva` lies in the headers or in what one section takes from memory.
pub open spec fn directory_mapped(
    rva: int,
    size: int,
    layouts: Seq<LayoutView>,
    header_size: int,
) -> bool {
    &&& size != 0
    &&& rva + size <= usize::MAX
    &&& {
        ||| rva + size <= header_size
        ||| exists|i: int|
            0 <= i < layouts.len() && (#[trigger] layouts[i]).section.virtual_address <= rva
                && rva + size <= layouts[i].section.virtual_address + layouts[i].source_length
    }
}

/// Tests whether a data directory is still there.
pub fn directory_is_mapped(rva: u32, size: u32, layouts: &[SectionLayout], header_size: usize) -> (mapped:
    bool)
    ensures
        mapped == directory_mapped(
            rva as int,
            size as int,
            layout_views(layouts@),
            header_size as int,
        ),
{
    if size == 0 {
        return false;
    }
    let ghost views = layout_views(layouts@);
    let start: usize = rva as usize;
    match start.checked_add(size as usize) {
        None => false,
        Some(end) => {
            if end <= header_size {
                return true;
            }
            let mut index: usize = 0;
            while index < layouts.len()
                invariant
                    index <= layouts@.len(),
                    views == layout_views(layouts@),
                    start == rva,
                    size != 0,
                    end == rva + size,
                    forall|i: int|
                        0 <= i < index ==> !((#[trigger] views[i]).section.virtual_address <= rva
                            && rva + size <= views[i].section.virtual_address
                            + views[i].source_length),
                decreases layouts@.len() - index,
            {
                let layout: SectionLayout = layouts[index];
                assert(views[index as int] == layout@);
                let section_start: usize = layout.model.virtual_address.get() as usize;
                let section_end: usize = section_start.saturating_add(layout.source_length);
                if start >= section_start && end <= section_end {
                    return true;
                }
                index = index + 1;
            }
            false
        },
    }
}

} // verus!
