//! What holds of recovered imports: they match exports, and the section that is made of them
//! reads back as them.

use vstd::prelude::*;

use crate::pe::bytes;
use crate::pe::exports::{AddressMap, ExportView};
use crate::pe::image::Edit;
use crate::pe::import_section;
use crate::pe::imports::{
    EntryView, GroupView, Grouping, PlanView, SlotView, IMPORT_DESCRIPTOR_SIZE, MAX_IMPORTS,
};
use crate::pe::imports;
use crate::pe::layout;
use crate::pe::{PeKind, PeModelView};
use crate::text;

verus! {

/// Where an image was captured, and what is known of the modules around it.
pub struct Surroundings {
    pub memory: Seq<u8>,
    pub base: u64,
    pub kind: PeKind,
    pub addresses: AddressMap,
}

impl Surroundings {
    /// What the address table slot at `offset` holds.
    pub open spec fn slot(self, offset: int) -> SlotView {
        imports::slot_at(self.memory, self.base, self.kind, self.addresses, offset)
    }
}

/// The import is the symbol whose address the slot at `offset` holds, and that symbol is exported
/// by the module.
pub open spec fn import_matches(
    around: Surroundings,
    module: Seq<char>,
    offset: int,
    entry: EntryView,
) -> bool {
    match around.slot(offset) {
        SlotView::Symbol(symbol) => entry == imports::import_of(symbol) && text::same_letters(
            module,
            symbol.module,
        ),
        _ => false,
    }
}

/// Every import of the group is the symbol whose address its slot holds.
pub open spec fn group_matches(around: Surroundings, group: GroupView) -> bool {
    forall|index: int|
        #![trigger group.entries[index]]
        0 <= index < group.entries.len() ==> import_matches(
            around,
            group.module,
            group.first_thunk + index * around.kind.pointer_width(),
            group.entries[index],
        )
}

/// Every group of the plan has at least two imports, and they match.
pub open spec fn plan_matches(around: Surroundings, plan: PlanView) -> bool {
    forall|index: int|
        #![trigger plan.groups[index]]
        0 <= index < plan.groups.len() ==> plan.groups[index].entries.len() >= 2 && group_matches(
            around,
            plan.groups[index],
        )
}

/// What is being grouped matches so far.
spec fn grouping_matches(around: Surroundings, grouping: Grouping) -> bool {
    plan_matches(around, grouping.plan) && (grouping.open is Some ==> group_matches(
        around,
        grouping.open->0,
    ))
}

proof fn lemma_with_group(around: Surroundings, plan: PlanView, group: GroupView)
    requires
        plan_matches(around, plan),
        group_matches(around, group),
    ensures
        plan_matches(around, plan.with_group(group)),
{
}

proof fn lemma_add(around: Surroundings, grouping: Grouping, slot: u32, symbol: ExportView)
    requires
        grouping_matches(around, grouping),
        around.slot(slot as int) == SlotView::Symbol(symbol),
    ensures
        grouping_matches(around, grouping.add(slot, symbol, around.kind.pointer_width())),
{
    let width = around.kind.pointer_width();
    let after = grouping.add(slot, symbol, width);
    if grouping.open is Some {
        lemma_with_group(around, grouping.plan, grouping.open->0);
    }
    let group = after.open->0;
    assert(text::same_letters(symbol.module, symbol.module));
    assert forall|index: int| #![trigger group.entries[index]] 0 <= index < group.entries.len()
        implies import_matches(
        around,
        group.module,
        group.first_thunk + index * width,
        group.entries[index],
    ) by {
        if grouping.open is Some && imports::continues(grouping.open->0, slot, symbol, width) {
            if index < grouping.open->0.entries.len() {
                assert(group.entries[index] == grouping.open->0.entries[index]);
            }
        } else {
            assert(index * width == 0) by (nonlinear_arith)
                requires
                    index == 0,
            ;
        }
    }
}

proof fn lemma_run_holds_symbols(around: Surroundings, offset: int, end: int, most: nat, index: int)
    requires
        0 <= index < imports::run_length(
            around.memory,
            around.base,
            around.kind,
            around.addresses,
            offset,
            end,
            most,
        ),
    ensures
        around.slot(offset + index * around.kind.pointer_width()) is Symbol,
    decreases most,
{
    let width = around.kind.pointer_width();
    if index == 0 {
        assert(index * width == 0) by (nonlinear_arith)
            requires
                index == 0,
        ;
    } else {
        lemma_run_holds_symbols(around, offset + width, end, (most - 1) as nat, index - 1);
        assert(width + (index - 1) * width == index * width) by (nonlinear_arith);
    }
}

proof fn lemma_grouped(around: Surroundings, plan: PlanView, offset: int, end: int, count: nat)
    requires
        plan_matches(around, plan),
        0 <= offset,
        count <= imports::run_length(
            around.memory,
            around.base,
            around.kind,
            around.addresses,
            offset,
            end,
            MAX_IMPORTS as nat,
        ),
    ensures
        ({
            let total = imports::run_length(
                around.memory,
                around.base,
                around.kind,
                around.addresses,
                offset,
                end,
                MAX_IMPORTS as nat,
            );
            let entries = imports::run_entries(
                around.memory,
                around.base,
                around.kind,
                around.addresses,
                offset,
                total,
            );
            grouping_matches(
                around,
                imports::grouped(plan, entries, around.kind.pointer_width(), count),
            )
        }),
    decreases count,
{
    if count > 0 {
        let width = around.kind.pointer_width();
        let slot = offset + (count - 1) * width;
        lemma_grouped(around, plan, offset, end, (count - 1) as nat);
        lemma_run_holds_symbols(around, offset, end, MAX_IMPORTS as nat, count - 1);
        assert(slot <= u32::MAX);
        assert(0 <= (count - 1) * width) by (nonlinear_arith)
            requires
                count >= 1,
                width >= 0,
        ;
        let total = imports::run_length(
            around.memory,
            around.base,
            around.kind,
            around.addresses,
            offset,
            end,
            MAX_IMPORTS as nat,
        );
        let entries = imports::run_entries(
            around.memory,
            around.base,
            around.kind,
            around.addresses,
            offset,
            total,
        );
        assert(entries[count - 1] == (slot as u32, around.slot(slot)->Symbol_0));
        lemma_add(
            around,
            imports::grouped(plan, entries, width, (count - 1) as nat),
            slot as u32,
            around.slot(slot)->Symbol_0,
        );
    }
}

proof fn lemma_with_run(around: Surroundings, plan: PlanView, start: int, offset: int, end: int)
    requires
        plan_matches(around, plan),
        0 <= offset,
    ensures
        plan_matches(
            around,
            imports::with_run(
                plan,
                around.memory,
                around.base,
                around.kind,
                around.addresses,
                start,
                offset,
                end,
            ),
        ),
{
    let count = imports::run_length(
        around.memory,
        around.base,
        around.kind,
        around.addresses,
        offset,
        end,
        MAX_IMPORTS as nat,
    );
    let counted = PlanView {
        ambiguous: layout::least(plan.ambiguous + 1, usize::MAX as int),
        ..plan
    };
    let entries = imports::run_entries(
        around.memory,
        around.base,
        around.kind,
        around.addresses,
        offset,
        count,
    );
    let width = around.kind.pointer_width();
    assert(plan_matches(around, counted));
    lemma_grouped(around, plan, offset, end, count);
    lemma_grouped(around, counted, offset, end, count);
    let first = imports::grouped(plan, entries, width, count);
    let second = imports::grouped(counted, entries, width, count);
    if first.open is Some {
        lemma_with_group(around, first.plan, first.open->0);
    }
    if second.open is Some {
        lemma_with_group(around, second.plan, second.open->0);
    }
}

proof fn lemma_with_scan(around: Surroundings, plan: PlanView, start: int, offset: int, end: int)
    requires
        plan_matches(around, plan),
        0 <= offset,
    ensures
        plan_matches(
            around,
            imports::with_scan(
                plan,
                around.memory,
                around.base,
                around.kind,
                around.addresses,
                start,
                offset,
                end,
            ),
        ),
    decreases end - offset,
{
    let width = around.kind.pointer_width();
    if !(offset + width > end || plan.recovered >= MAX_IMPORTS) {
        let count = imports::run_length(
            around.memory,
            around.base,
            around.kind,
            around.addresses,
            offset,
            end,
            MAX_IMPORTS as nat,
        );
        let next = if count == 0 {
            offset + width
        } else {
            offset + count * width
        };
        lemma_with_run(around, plan, start, offset, end);
        assert(count > 0 ==> count * width >= count) by (nonlinear_arith)
            requires
                width >= 1,
        ;
        if next <= end {
            lemma_with_scan(
                around,
                imports::with_run(
                    plan,
                    around.memory,
                    around.base,
                    around.kind,
                    around.addresses,
                    start,
                    offset,
                    end,
                ),
                start,
                next,
                end,
            );
        }
    }
}

proof fn lemma_with_sections(
    memory: Seq<u8>,
    base: u64,
    model: PeModelView,
    addresses: AddressMap,
    count: nat,
)
    ensures
        plan_matches(
            (Surroundings { memory, base, kind: model.kind, addresses }),
            imports::with_sections(memory, base, model, addresses, count),
        ),
    decreases count,
{
    if count > 0 {
        let around = Surroundings { memory, base, kind: model.kind, addresses };
        let earlier = imports::with_sections(memory, base, model, addresses, (count - 1) as nat);
        let section = model.sections[count - 1];
        lemma_with_sections(memory, base, model, addresses, (count - 1) as nat);
        if let Some((start, end)) = imports::trusted_range(
            section,
            imports::declared_table(memory, model),
        ) {
            let first = layout::least(
                layout::aligned(start, model.kind.pointer_width()),
                usize::MAX as int,
            );
            layout::aligned_is_least_multiple(start, model.kind.pointer_width());
            lemma_with_scan(
                around,
                earlier,
                first,
                first,
                layout::least(end, memory.len() as int),
            );
        }
    }
}

/// Every recovered import is the one symbol that the captured modules export at the address which
/// its slot of the import address table holds, directly or behind jumps.
pub proof fn recovered_imports_match_exports(
    memory: Seq<u8>,
    base: u64,
    model: PeModelView,
    addresses: AddressMap,
)
    ensures
        plan_matches(
            (Surroundings { memory, base, kind: model.kind, addresses }),
            imports::import_plan(memory, base, model, addresses),
        ),
{
    lemma_with_sections(memory, base, model, addresses, model.sections.len());
}

/// The bytes from `at` on are a name with its terminating zero.
pub open spec fn name_at(contents: Seq<u8>, at: int, name: Seq<char>) -> bool {
    &&& 0 <= at
    &&& at + name.len() + 1 <= contents.len()
    &&& contents.subrange(at, at + name.len() + 1) == import_section::terminated_name(name)
}

/// The thunk at `at`.
pub open spec fn thunk_at(contents: Seq<u8>, at: int, kind: PeKind) -> u64 {
    match kind {
        PeKind::Pe32 => bytes::le32(contents, at) as u64,
        PeKind::Pe32Plus => bytes::le64(contents, at),
    }
}

/// The thunk at `at` stands for the import: it holds its ordinal, or points to its name behind a
/// hint, not before `floor`.
pub open spec fn thunk_reads_back(
    contents: Seq<u8>,
    kind: PeKind,
    section_rva: u32,
    at: int,
    entry: EntryView,
    floor: int,
) -> bool {
    let thunk = thunk_at(contents, at, kind);
    match entry.name {
        Some(name) => floor <= thunk - section_rva && name_at(
            contents,
            thunk - section_rva + 2,
            name,
        ),
        None => thunk == import_section::ordinal_thunk(kind, entry.ordinal),
    }
}

/// What stood outside of the part from `from` up to `to` still stands there.
pub open spec fn keeps(before: Seq<u8>, after: Seq<u8>, from: int, to: int) -> bool {
    &&& before.len() <= after.len()
    &&& forall|o: int|
        #![trigger after[o]]
        0 <= o < before.len() && !(from <= o < to) ==> after[o] == before[o]
}

proof fn lemma_name_kept(before: Seq<u8>, after: Seq<u8>, from: int, to: int, at: int, name: Seq<char>)
    requires
        keeps(before, after, from, to),
        name_at(before, at, name),
        to <= at || at + name.len() + 1 <= from,
    ensures
        name_at(after, at, name),
{
    assert(after.subrange(at, at + name.len() + 1) =~= before.subrange(at, at + name.len() + 1));
}

proof fn lemma_thunk_kept(
    before: Seq<u8>,
    after: Seq<u8>,
    from: int,
    to: int,
    kind: PeKind,
    section_rva: u32,
    at: int,
    entry: EntryView,
    floor: int,
)
    requires
        keeps(before, after, from, to),
        thunk_reads_back(before, kind, section_rva, at, entry, floor),
        0 <= at,
        at + kind.pointer_width() <= before.len(),
        to <= at || at + kind.pointer_width() <= from,
        to <= floor,
    ensures
        thunk_reads_back(after, kind, section_rva, at, entry, floor),
{
    assert forall|o: int| at <= o < at + kind.pointer_width() implies #[trigger] after[o]
        == before[o] by {}
    assert(thunk_at(after, at, kind) == thunk_at(before, at, kind));
    if let Some(name) = entry.name {
        lemma_name_kept(
            before,
            after,
            from,
            to,
            thunk_at(before, at, kind) - section_rva + 2,
            name,
        );
    }
}

proof fn lemma_thunk_written(before: Edit, at: int, kind: PeKind, value: u64)
    requires
        0 <= at,
        import_section::with_thunk(before, at, kind, value).failure is None,
    ensures
        ({
            let after = import_section::with_thunk(before, at, kind, value).bytes;
            &&& before.failure is None
            &&& after.len() == before.bytes.len()
            &&& thunk_at(after, at, kind) == value
            &&& keeps(before.bytes, after, at, at + kind.pointer_width())
        }),
{
    match kind {
        PeKind::Pe32 => {
            bytes::written_u32_reads_back(before.bytes, at, value as u32);
        },
        PeKind::Pe32Plus => {
            bytes::written_u64_reads_back(before.bytes, at, value);
        },
    }
}

proof fn lemma_import_written(
    before: Edit,
    kind: PeKind,
    section_rva: u32,
    at: int,
    entry: EntryView,
)
    requires
        0 <= at,
        at + kind.pointer_width() <= before.bytes.len(),
        before.failure is None,
        import_section::with_import(before, kind, section_rva, at, entry).failure is None,
    ensures
        ({
            let after = import_section::with_import(before, kind, section_rva, at, entry).bytes;
            &&& keeps(before.bytes, after, at, at + kind.pointer_width())
            &&& thunk_reads_back(
                after,
                kind,
                section_rva,
                at,
                entry,
                before.bytes.len() as int,
            )
        }),
{
    let after = import_section::with_import(before, kind, section_rva, at, entry).bytes;
    match entry.name {
        None => {
            lemma_thunk_written(
                before,
                at,
                kind,
                import_section::ordinal_thunk(kind, entry.ordinal),
            );
        },
        Some(name) => {
            let aligned = import_section::with_padding(before, 2);
            let hinted = import_section::with_bytes(aligned, seq![0u8, 0u8]);
            let named = import_section::with_name(hinted, name);
            let offset = aligned.bytes.len() as int;
            assert(named.bytes =~= before.bytes + import_section::zeros(
                import_section::padding(before.bytes.len() as int, 2) as nat,
            ) + seq![0u8, 0u8] + import_section::terminated_name(name));
            assert(name_at(named.bytes, offset + 2, name)) by {
                assert(named.bytes.subrange(offset + 2, offset + 2 + name.len() + 1)
                    =~= import_section::terminated_name(name));
            }
            lemma_thunk_written(named, at, kind, (section_rva + offset) as u64);
            lemma_name_kept(
                named.bytes,
                after,
                at,
                at + kind.pointer_width(),
                offset + 2,
                name,
            );
        },
    }
}

/// The first `count` thunks of a table at `lookup` stand for the imports.
pub open spec fn thunks_read_back(
    contents: Seq<u8>,
    kind: PeKind,
    section_rva: u32,
    lookup: int,
    entries: Seq<EntryView>,
    count: nat,
    floor: int,
) -> bool {
    forall|index: int|
        #![trigger entries[index]]
        0 <= index < count ==> thunk_reads_back(
            contents,
            kind,
            section_rva,
            lookup + index * kind.pointer_width(),
            entries[index],
            floor,
        )
}

proof fn lemma_slot_order(index: int, other: int, width: int)
    requires
        0 <= index < other,
        0 < width,
    ensures
        0 <= index * width,
        index * width + width <= other * width,
        (index + 1) * width == index * width + width,
{
    assert(0 <= index * width) by (nonlinear_arith)
        requires
            0 <= index,
            0 < width,
    ;
    assert((index + 1) * width == index * width + width) by (nonlinear_arith);
    assert((index + 1) * width <= other * width) by (nonlinear_arith)
        requires
            index + 1 <= other,
            0 < width,
    ;
}

proof fn lemma_imports_written(
    before: Edit,
    kind: PeKind,
    section_rva: u32,
    lookup: int,
    entries: Seq<EntryView>,
    count: nat,
)
    requires
        0 <= lookup,
        count <= entries.len(),
        before.failure is None,
        lookup + entries.len() * kind.pointer_width() <= before.bytes.len(),
        import_section::with_imports(
            before,
            kind,
            section_rva,
            lookup,
            entries,
            count,
        ).failure is None,
    ensures
        ({
            let after = import_section::with_imports(
                before,
                kind,
                section_rva,
                lookup,
                entries,
                count,
            ).bytes;
            &&& keeps(before.bytes, after, lookup, lookup + count * kind.pointer_width())
            &&& thunks_read_back(
                after,
                kind,
                section_rva,
                lookup,
                entries,
                count,
                before.bytes.len() as int,
            )
        }),
    decreases count,
{
    let width = kind.pointer_width();
    let floor = before.bytes.len() as int;
    if count > 0 {
        let fewer = (count - 1) as nat;
        let earlier = import_section::with_imports(
            before,
            kind,
            section_rva,
            lookup,
            entries,
            fewer,
        );
        let after = import_section::with_imports(
            before,
            kind,
            section_rva,
            lookup,
            entries,
            count,
        ).bytes;
        let at = lookup + fewer * width;
        lemma_imports_written(before, kind, section_rva, lookup, entries, fewer);
        lemma_slot_order(fewer as int, entries.len() as int, width);
        lemma_slot_order(fewer as int, count as int, width);
        lemma_import_written(earlier, kind, section_rva, at, entries[count - 1]);
        assert forall|index: int| #![trigger entries[index]] 0 <= index < count implies thunk_reads_back(
            after,
            kind,
            section_rva,
            lookup + index * width,
            entries[index],
            floor,
        ) by {
            if index < fewer {
                lemma_slot_order(index, fewer as int, width);
                lemma_thunk_kept(
                    earlier.bytes,
                    after,
                    at,
                    at + width,
                    kind,
                    section_rva,
                    lookup + index * width,
                    entries[index],
                    floor,
                );
            }
        }
    }
}

/// The descriptor with this index stands for the group: it points to the thunks of its imports,
/// which a zero ends, and to the name of its module, and it says where the addresses go. All of
/// that stands behind the descriptors, which end at `table_end`.
pub open spec fn group_reads_back(
    contents: Seq<u8>,
    kind: PeKind,
    section_rva: u32,
    index: int,
    group: GroupView,
    table_end: int,
) -> bool {
    let at = IMPORT_DESCRIPTOR_SIZE * index;
    let lookup = bytes::le32(contents, at) - section_rva;
    let module = bytes::le32(contents, at + 12) - section_rva;
    let width = kind.pointer_width();
    &&& bytes::le32(contents, at + 4) == 0
    &&& bytes::le32(contents, at + 8) == 0
    &&& bytes::le32(contents, at + 16) == group.first_thunk
    &&& table_end <= module
    &&& name_at(contents, module, group.module)
    &&& table_end <= lookup
    &&& lookup + group.entries.len() * width + width <= contents.len()
    &&& thunks_read_back(
        contents,
        kind,
        section_rva,
        lookup,
        group.entries,
        group.entries.len(),
        table_end,
    )
    &&& thunk_at(contents, lookup + group.entries.len() * width, kind) == 0
}

/// The descriptor with this index is zero.
pub open spec fn descriptor_is_zero(contents: Seq<u8>, index: int) -> bool {
    forall|o: int|
        #![trigger contents[o]]
        IMPORT_DESCRIPTOR_SIZE * index <= o < IMPORT_DESCRIPTOR_SIZE * index
            + IMPORT_DESCRIPTOR_SIZE ==> contents[o] == 0
}

proof fn lemma_group_kept(
    before: Seq<u8>,
    after: Seq<u8>,
    kind: PeKind,
    section_rva: u32,
    index: int,
    other: int,
    group: GroupView,
    table_end: int,
)
    requires
        0 <= index,
        0 <= other,
        index != other,
        IMPORT_DESCRIPTOR_SIZE * index + IMPORT_DESCRIPTOR_SIZE <= table_end <= before.len(),
        IMPORT_DESCRIPTOR_SIZE * other + IMPORT_DESCRIPTOR_SIZE <= table_end,
        keeps(
            before,
            after,
            IMPORT_DESCRIPTOR_SIZE * other,
            IMPORT_DESCRIPTOR_SIZE * other + IMPORT_DESCRIPTOR_SIZE,
        ),
        group_reads_back(before, kind, section_rva, index, group, table_end),
    ensures
        group_reads_back(after, kind, section_rva, index, group, table_end),
{
    let at = IMPORT_DESCRIPTOR_SIZE * index;
    let from = IMPORT_DESCRIPTOR_SIZE * other;
    let to = from + IMPORT_DESCRIPTOR_SIZE;
    let width = kind.pointer_width();
    let count = group.entries.len() as int;
    assert forall|o: int| at <= o < at + 20 implies #[trigger] after[o] == before[o] by {}
    let lookup = bytes::le32(before, at) - section_rva;
    let module = bytes::le32(before, at + 12) - section_rva;
    lemma_name_kept(before, after, from, to, module, group.module);
    assert forall|place: int| #![trigger group.entries[place]] 0 <= place < count implies thunk_reads_back(
        after,
        kind,
        section_rva,
        lookup + place * width,
        group.entries[place],
        table_end,
    ) by {
        lemma_slot_order(place, count, width);
        lemma_thunk_kept(
            before,
            after,
            from,
            to,
            kind,
            section_rva,
            lookup + place * width,
            group.entries[place],
            table_end,
        );
    }
    assert(0 <= count * width) by (nonlinear_arith)
        requires
            0 <= count,
            0 <= width,
    ;
    let last = lookup + count * width;
    assert forall|o: int| last <= o < last + width implies #[trigger] after[o] == before[o] by {}
    assert(thunk_at(after, last, kind) == thunk_at(before, last, kind));
}

/// The payload after the imports of a group are listed, before its name and descriptor.
spec fn listed(before: Edit, kind: PeKind, section_rva: u32, group: GroupView) -> Edit {
    let width = kind.pointer_width();
    let aligned = import_section::with_padding(before, width);
    import_section::with_imports(
        import_section::with_bytes(
            aligned,
            import_section::zeros(((group.entries.len() + 1) * width) as nat),
        ),
        kind,
        section_rva,
        aligned.bytes.len() as int,
        group.entries,
        group.entries.len(),
    )
}

proof fn lemma_listed(before: Edit, kind: PeKind, section_rva: u32, group: GroupView)
    requires
        before.failure is None,
        listed(before, kind, section_rva, group).failure is None,
    ensures
        ({
            let width = kind.pointer_width();
            let lookup = import_section::with_padding(before, width).bytes.len() as int;
            let after = listed(before, kind, section_rva, group).bytes;
            let last = lookup + group.entries.len() * width;
            &&& before.bytes.len() <= lookup
            &&& last + width <= after.len()
            &&& forall|o: int|
                #![trigger after[o]]
                0 <= o < before.bytes.len() ==> after[o] == before.bytes[o]
            &&& thunks_read_back(
                after,
                kind,
                section_rva,
                lookup,
                group.entries,
                group.entries.len(),
                lookup,
            )
            &&& thunk_at(after, last, kind) == 0
        }),
{
    let width = kind.pointer_width();
    let aligned = import_section::with_padding(before, width);
    let lookup = aligned.bytes.len() as int;
    let count = group.entries.len() as int;
    let size = (count + 1) * width;
    lemma_slot_order(count, count + 1, width);
    let room = import_section::with_bytes(aligned, import_section::zeros(size as nat));
    let after = listed(before, kind, section_rva, group).bytes;
    assert(room.bytes.len() == lookup + size);
    lemma_imports_written(room, kind, section_rva, lookup, group.entries, count as nat);
    assert forall|o: int| #![trigger after[o]] 0 <= o < before.bytes.len() implies after[o]
        == before.bytes[o] by {
        assert(room.bytes[o] == before.bytes[o]);
    }
    let last = lookup + count * width;
    assert forall|o: int| last <= o < last + width implies #[trigger] after[o] == 0 by {
        assert(room.bytes[o] == 0);
    }
    assert forall|place: int| #![trigger group.entries[place]] 0 <= place < count implies thunk_reads_back(
        after,
        kind,
        section_rva,
        lookup + place * width,
        group.entries[place],
        lookup,
    ) by {
        assert(thunk_reads_back(
            after,
            kind,
            section_rva,
            lookup + place * width,
            group.entries[place],
            room.bytes.len() as int,
        ));
    }
}

proof fn lemma_descriptor_written(
    before: Edit,
    at: int,
    section_rva: u32,
    lookup: int,
    module: int,
    first_thunk: u32,
)
    requires
        0 <= at,
        0 <= lookup,
        0 <= module,
        import_section::with_descriptor(
            before,
            at,
            section_rva,
            lookup,
            module,
            first_thunk,
        ).failure is None,
    ensures
        ({
            let after = import_section::with_descriptor(
                before,
                at,
                section_rva,
                lookup,
                module,
                first_thunk,
            ).bytes;
            &&& before.failure is None
            &&& after.len() == before.bytes.len()
            &&& at + 20 <= after.len()
            &&& bytes::le32(after, at) == section_rva + lookup
            &&& bytes::le32(after, at + 12) == section_rva + module
            &&& bytes::le32(after, at + 16) == first_thunk
            &&& forall|o: int|
                #![trigger after[o]]
                0 <= o < after.len() && !(at <= o < at + 4) && !(at + 12 <= o < at + 20)
                    ==> after[o] == before.bytes[o]
        }),
{
    let first = import_section::with_address(
        before,
        at,
        section_rva,
        lookup,
        "import lookup-table offset exceeds u32"@,
        "import lookup-table RVA overflowed"@,
    );
    let second = import_section::with_address(
        first,
        at + 12,
        section_rva,
        module,
        "import module offset exceeds u32"@,
        "import module RVA overflowed"@,
    );
    assert(first.failure is None && second.failure is None);
    bytes::written_u32_reads_back(before.bytes, at, (section_rva + lookup) as u32);
    bytes::written_u32_reads_back(first.bytes, at + 12, (section_rva + module) as u32);
    bytes::written_u32_reads_back(second.bytes, at + 16, first_thunk);
    bytes::write_keeps_other_fields(
        first.bytes,
        at + 12,
        bytes::bytes32((section_rva + module) as u32),
        at,
    );
    bytes::write_keeps_other_fields(second.bytes, at + 16, bytes::bytes32(first_thunk), at);
    bytes::write_keeps_other_fields(second.bytes, at + 16, bytes::bytes32(first_thunk), at + 12);
}

proof fn lemma_group_written(
    before: Edit,
    kind: PeKind,
    section_rva: u32,
    index: int,
    group: GroupView,
    table_end: int,
)
    requires
        before.failure is None,
        0 <= index,
        IMPORT_DESCRIPTOR_SIZE * index + IMPORT_DESCRIPTOR_SIZE <= table_end
            <= before.bytes.len(),
        descriptor_is_zero(before.bytes, index),
        import_section::with_group(before, kind, section_rva, index, group).failure is None,
    ensures
        ({
            let after = import_section::with_group(before, kind, section_rva, index, group).bytes;
            &&& keeps(
                before.bytes,
                after,
                IMPORT_DESCRIPTOR_SIZE * index,
                IMPORT_DESCRIPTOR_SIZE * index + IMPORT_DESCRIPTOR_SIZE,
            )
            &&& group_reads_back(after, kind, section_rva, index, group, table_end)
        }),
{
    let width = kind.pointer_width();
    let at = IMPORT_DESCRIPTOR_SIZE * index;
    let lookup = import_section::with_padding(before, width).bytes.len() as int;
    let list = listed(before, kind, section_rva, group);
    let named = import_section::with_name(list, group.module);
    let module = list.bytes.len() as int;
    let after = import_section::with_group(before, kind, section_rva, index, group).bytes;
    let count = group.entries.len() as int;
    assert(after == import_section::with_descriptor(
        named,
        at,
        section_rva,
        lookup,
        module,
        group.first_thunk,
    ).bytes);
    lemma_descriptor_written(named, at, section_rva, lookup, module, group.first_thunk);
    assert(list.failure is None);
    lemma_listed(before, kind, section_rva, group);
    assert(named.bytes =~= list.bytes + import_section::terminated_name(group.module));
    assert(name_at(named.bytes, module, group.module)) by {
        assert(named.bytes.subrange(module, module + group.module.len() + 1)
            =~= import_section::terminated_name(group.module));
    }
    assert(keeps(named.bytes, after, at, at + 20));
    lemma_name_kept(named.bytes, after, at, at + 20, module, group.module);
    assert(keeps(list.bytes, after, at, at + 20)) by {
        assert forall|o: int|
            #![trigger after[o]]
            0 <= o < list.bytes.len() && !(at <= o < at + 20) implies after[o]
            == list.bytes[o] by {
            assert(named.bytes[o] == list.bytes[o]);
        }
    }
    assert(0 <= count * width) by (nonlinear_arith)
        requires
            0 <= count,
            0 <= width,
    ;
    assert forall|place: int| #![trigger group.entries[place]] 0 <= place < count implies thunk_reads_back(
        after,
        kind,
        section_rva,
        lookup + place * width,
        group.entries[place],
        table_end,
    ) by {
        lemma_slot_order(place, count, width);
        lemma_thunk_kept(
            list.bytes,
            after,
            at,
            at + 20,
            kind,
            section_rva,
            lookup + place * width,
            group.entries[place],
            lookup,
        );
    }
    let last = lookup + count * width;
    assert forall|o: int| last <= o < last + width implies #[trigger] after[o] == list.bytes[o] by {}
    assert(thunk_at(after, last, kind) == thunk_at(list.bytes, last, kind));
    assert forall|o: int| at + 4 <= o < at + 12 implies #[trigger] after[o] == 0 by {
        assert(named.bytes[o] == list.bytes[o]);
        assert(list.bytes[o] == before.bytes[o]);
    }
    assert(keeps(before.bytes, after, at, at + 20)) by {
        assert forall|o: int|
            #![trigger after[o]]
            0 <= o < before.bytes.len() && !(at <= o < at + 20) implies after[o]
            == before.bytes[o] by {
            assert(list.bytes[o] == before.bytes[o]);
        }
    }
}

proof fn lemma_groups_written(
    groups: Seq<GroupView>,
    kind: PeKind,
    section_rva: u32,
    count: nat,
)
    requires
        count <= groups.len(),
        import_section::with_groups(groups, kind, section_rva, count).failure is None,
    ensures
        ({
            let contents = import_section::with_groups(groups, kind, section_rva, count).bytes;
            let table_end = IMPORT_DESCRIPTOR_SIZE * (groups.len() + 1);
            &&& table_end <= contents.len()
            &&& forall|index: int|
                #![trigger groups[index]]
                0 <= index < count ==> group_reads_back(
                    contents,
                    kind,
                    section_rva,
                    index,
                    groups[index],
                    table_end,
                )
            &&& forall|index: int|
                #![trigger descriptor_is_zero(contents, index)]
                count <= index <= groups.len() ==> descriptor_is_zero(contents, index)
        }),
    decreases count,
{
    let table_end = IMPORT_DESCRIPTOR_SIZE * (groups.len() + 1);
    let contents = import_section::with_groups(groups, kind, section_rva, count).bytes;
    if count > 0 {
        let fewer = (count - 1) as nat;
        let before = import_section::with_groups(groups, kind, section_rva, fewer);
        assert(before.failure is None);
        lemma_groups_written(groups, kind, section_rva, fewer);
        assert(descriptor_is_zero(before.bytes, fewer as int));
        lemma_group_written(
            before,
            kind,
            section_rva,
            fewer as int,
            groups[fewer as int],
            table_end,
        );
        assert forall|index: int| #![trigger groups[index]] 0 <= index < count implies group_reads_back(
            contents,
            kind,
            section_rva,
            index,
            groups[index],
            table_end,
        ) by {
            if index < fewer {
                lemma_group_kept(
                    before.bytes,
                    contents,
                    kind,
                    section_rva,
                    index,
                    fewer as int,
                    groups[index],
                    table_end,
                );
            }
        }
        assert forall|index: int|
            #![trigger descriptor_is_zero(contents, index)]
            count <= index <= groups.len() implies descriptor_is_zero(contents, index) by {
            assert(descriptor_is_zero(before.bytes, index));
            assert forall|o: int|
                #![trigger contents[o]]
                IMPORT_DESCRIPTOR_SIZE * index <= o < IMPORT_DESCRIPTOR_SIZE * index
                    + IMPORT_DESCRIPTOR_SIZE implies contents[o] == 0 by {
                assert(before.bytes[o] == 0);
            }
        }
    }
}

/// The import section reads back as the imports that it was made of: a descriptor for each group,
/// and a zero one behind them.
pub proof fn import_sections_read_back(groups: Seq<GroupView>, kind: PeKind, section_rva: u32)
    requires
        import_section::payload(groups, kind, section_rva) is Ok,
    ensures
        ({
            let contents = import_section::payload(groups, kind, section_rva)->Ok_0;
            &&& forall|index: int|
                #![trigger groups[index]]
                0 <= index < groups.len() ==> group_reads_back(
                    contents,
                    kind,
                    section_rva,
                    index,
                    groups[index],
                    IMPORT_DESCRIPTOR_SIZE * (groups.len() + 1),
                )
            &&& descriptor_is_zero(contents, groups.len() as int)
        }),
{
    lemma_groups_written(groups, kind, section_rva, groups.len());
}

} // verus!
