//! Which imports are recovered, told by the bytes of memory: what a slot of an address table leads
//! to, which memory is searched, and that every run of slots found there becomes a group.

use vstd::prelude::*;

use crate::pe::bytes;
use crate::pe::export_facts;
use crate::pe::exports::{AddressMap, ExportView};
use crate::pe::exports;
use crate::pe::imports;
use crate::pe::imports::{EntryView, GroupView, Grouping, PlanView, SlotView};
use crate::pe::layout;
use crate::pe::{PeKind, PeModelView, SectionView};
use crate::text;

verus! {

/// The bytes of a slot.
pub open spec fn slot_width(kind: PeKind) -> int {
    if kind == PeKind::Pe32 {
        4
    } else {
        8
    }
}

/// The number in the slot at `at`.
pub open spec fn slot_value(memory: Seq<u8>, kind: PeKind, at: int) -> u64 {
    if kind == PeKind::Pe32 {
        bytes::le32(memory, at) as u64
    } else {
        bytes::le64(memory, at)
    }
}

/// The address is that of the symbol, and all symbols of the address belong to the same module.
pub open spec fn known(addresses: AddressMap, value: u64, symbol: ExportView) -> bool {
    &&& addresses.contains_key(value)
    &&& addresses[value].len() > 0
    &&& addresses[value][0] == symbol
    &&& forall|i: int|
        0 <= i < addresses[value].len() ==> text::same_letters(
            (#[trigger] addresses[value][i]).module,
            symbol.module,
        )
}

/// The address is that of symbols of different modules.
pub open spec fn disputed(addresses: AddressMap, value: u64) -> bool {
    &&& addresses.contains_key(value)
    &&& exists|i: int|
        0 <= i < addresses[value].len() && !text::same_letters(
            (#[trigger] addresses[value][i]).module,
            addresses[value][0].module,
        )
}

/// The address is that of no symbol.
pub open spec fn unknown(addresses: AddressMap, value: u64) -> bool {
    !addresses.contains_key(value) || addresses[value].len() == 0
}

/// A signed 32-bit number.
pub open spec fn signed(value: u32) -> int {
    if value >= 0x8000_0000 {
        value - 0x1_0000_0000
    } else {
        value as int
    }
}

/// The 64-bit code at `from` jumps to `to` and does nothing else: through a pointer that it
/// addresses relative to its end, or to an address that it holds.
pub open spec fn jumps64(memory: Seq<u8>, base: u64, from: u64, to: u64) -> bool {
    let at = from - base;
    let slot = at + 6 + signed(bytes::le32(memory, at + 2));
    &&& 0 <= at
    &&& at + 12 <= memory.len()
    &&& from != to
    &&& {
        ||| {
            &&& memory[at] == 0xFF
            &&& memory[at + 1] == 0x25
            &&& from + 6 < 0x8000_0000_0000_0000
            &&& base + slot < 0x8000_0000_0000_0000
            &&& 0 <= slot
            &&& slot + 8 <= memory.len()
            &&& to == bytes::le64(memory, slot)
        }
        ||| {
            &&& memory[at] == 0x48
            &&& memory[at + 1] == 0xB8
            &&& memory[at + 10] == 0xFF
            &&& memory[at + 11] == 0xE0
            &&& to == bytes::le64(memory, at + 2)
        }
    }
}

/// The 32-bit code at `from` jumps to `to` and does nothing else: through a pointer, or to an
/// address that it holds.
pub open spec fn jumps32(memory: Seq<u8>, base: u64, from: u64, to: u64) -> bool {
    let at = from - base;
    let slot = bytes::le32(memory, at + 2) - base;
    &&& 0 <= at
    &&& at + 7 <= memory.len()
    &&& from != to
    &&& {
        ||| {
            &&& memory[at] == 0xFF
            &&& memory[at + 1] == 0x25
            &&& 0 <= slot
            &&& slot + 4 <= memory.len()
            &&& to == bytes::le32(memory, slot)
        }
        ||| {
            &&& memory[at] == 0xB8
            &&& memory[at + 5] == 0xFF
            &&& memory[at + 6] == 0xE0
            &&& to == bytes::le32(memory, at + 1)
        }
    }
}

/// The code at `from` jumps to `to` and does nothing else.
pub open spec fn jumps(memory: Seq<u8>, base: u64, kind: PeKind, from: u64, to: u64) -> bool {
    if kind == PeKind::Pe32 {
        jumps32(memory, base, from, to)
    } else {
        jumps64(memory, base, from, to)
    }
}

/// Every address of the path but the last is that of no symbol, and the code there jumps to the
/// next.
pub open spec fn path_of(
    memory: Seq<u8>,
    base: u64,
    kind: PeKind,
    addresses: AddressMap,
    path: Seq<u64>,
) -> bool {
    &&& path.len() > 0
    &&& forall|i: int|
        0 <= i < path.len() - 1 ==> unknown(addresses, #[trigger] path[i]) && jumps(
            memory,
            base,
            kind,
            path[i],
            path[i + 1],
        )
}

proof fn lemma_at_address(addresses: AddressMap, value: u64)
    ensures
        unknown(addresses, value) <==> exports::symbol_at_address(addresses, value) is None,
        forall|symbol: ExportView|
            known(addresses, value, symbol) <==> #[trigger] exports::symbol_at_address(
                addresses,
                value,
            ) == Some((symbol, false)),
        disputed(addresses, value) <==> match exports::symbol_at_address(addresses, value) {
            Some((_, several)) => several,
            None => false,
        },
{
    let found = exports::symbol_at_address(addresses, value);
    if found is Some {
        let symbols = addresses[value];
        if disputed(addresses, value) {
            let i = choose|i: int|
                0 <= i < addresses[value].len() && !text::same_letters(
                    (#[trigger] addresses[value][i]).module,
                    addresses[value][0].module,
                );
            assert(!text::same_letters(symbols[i].module, symbols[0].module));
        }
    }
}

proof fn lemma_jump(memory: Seq<u8>, base: u64, kind: PeKind, from: u64)
    requires
        from >= base,
    ensures
        ({
            let next = match kind {
                PeKind::Pe32Plus => imports::x64_target(memory, base as int, from - base),
                PeKind::Pe32 => imports::x86_target(memory, base as int, from - base),
            };
            &&& forall|to: u64| #[trigger]
                jumps(memory, base, kind, from, to) <==> next == Some(to) && to != from
        }),
{
}

proof fn lemma_path_leads(
    memory: Seq<u8>,
    base: u64,
    kind: PeKind,
    addresses: AddressMap,
    path: Seq<u64>,
    hops: nat,
)
    requires
        path_of(memory, base, kind, addresses, path),
        path.len() <= hops + 1,
        !unknown(addresses, path.last()),
    ensures
        imports::value_symbol(memory, base, kind, path[0], addresses, hops)
            == exports::symbol_at_address(addresses, path.last()),
    decreases path.len(),
{
    lemma_at_address(addresses, path.last());
    lemma_at_address(addresses, path[0]);
    if path.len() > 1 {
        let rest = path.drop_first();
        assert(unknown(addresses, path[0]) && jumps(memory, base, kind, path[0], path[1]));
        assert(path_of(memory, base, kind, addresses, rest)) by {
            assert forall|i: int| 0 <= i < rest.len() - 1 implies unknown(
                addresses,
                #[trigger] rest[i],
            ) && jumps(memory, base, kind, rest[i], rest[i + 1]) by {
                assert(rest[i] == path[i + 1]);
                assert(rest[i + 1] == path[i + 2]);
            }
        }
        lemma_jump(memory, base, kind, path[0]);
        assert(rest[0] == path[1]);
        assert(rest.last() == path.last());
        lemma_path_leads(memory, base, kind, addresses, rest, (hops - 1) as nat);
    }
}

proof fn lemma_path_found(
    memory: Seq<u8>,
    base: u64,
    kind: PeKind,
    addresses: AddressMap,
    value: u64,
    hops: nat,
) -> (path: Seq<u64>)
    requires
        imports::value_symbol(memory, base, kind, value, addresses, hops) is Some,
    ensures
        path_of(memory, base, kind, addresses, path),
        path[0] == value,
        path.len() <= hops + 1,
        !unknown(addresses, path.last()),
        imports::value_symbol(memory, base, kind, value, addresses, hops)
            == exports::symbol_at_address(addresses, path.last()),
    decreases hops,
{
    lemma_at_address(addresses, value);
    if exports::symbol_at_address(addresses, value) is Some {
        seq![value]
    } else {
        let next = match kind {
            PeKind::Pe32Plus => imports::x64_target(memory, base as int, value - base),
            PeKind::Pe32 => imports::x86_target(memory, base as int, value - base),
        };
        lemma_jump(memory, base, kind, value);
        assert(jumps(memory, base, kind, value, next->0));
        let rest = lemma_path_found(memory, base, kind, addresses, next->0, (hops - 1) as nat);
        let path = seq![value] + rest;
        assert forall|i: int| 0 <= i < path.len() - 1 implies unknown(
            addresses,
            #[trigger] path[i],
        ) && jumps(memory, base, kind, path[i], path[i + 1]) by {
            if i > 0 {
                assert(path[i] == rest[i - 1]);
                assert(path[i + 1] == rest[i]);
            } else {
                assert(path[1] == rest[0]);
            }
        }
        assert(path.last() == rest.last());
        path
    }
}

/// The slot at `at` leads to the symbol, over at most four jumps.
pub open spec fn slot_leads_to(
    memory: Seq<u8>,
    base: u64,
    kind: PeKind,
    addresses: AddressMap,
    at: int,
    symbol: ExportView,
) -> bool {
    &&& at + slot_width(kind) <= memory.len()
    &&& exists|path: Seq<u64>| #[trigger]
        path_of(memory, base, kind, addresses, path) && path.len() <= 5 && path[0] == slot_value(
            memory,
            kind,
            at,
        ) && known(addresses, path.last(), symbol)
}

/// The slot at `at` leads to an address of several modules, over at most four jumps.
pub open spec fn slot_disputed(
    memory: Seq<u8>,
    base: u64,
    kind: PeKind,
    addresses: AddressMap,
    at: int,
) -> bool {
    &&& at + slot_width(kind) <= memory.len()
    &&& exists|path: Seq<u64>| #[trigger]
        path_of(memory, base, kind, addresses, path) && path.len() <= 5 && path[0] == slot_value(
            memory,
            kind,
            at,
        ) && disputed(addresses, path.last())
}

/// A slot holds the symbol that its number leads to: as the address of the symbol, or through code
/// that does nothing but jump. Where it leads to an address of several modules, it holds none.
pub proof fn slots_hold_what_they_lead_to(
    memory: Seq<u8>,
    base: u64,
    kind: PeKind,
    addresses: AddressMap,
    at: int,
)
    requires
        0 <= at <= u32::MAX,
    ensures
        forall|symbol: ExportView|
            #![trigger slot_leads_to(memory, base, kind, addresses, at, symbol)]
            slot_leads_to(memory, base, kind, addresses, at, symbol) <==> imports::slot_at(
                memory,
                base,
                kind,
                addresses,
                at,
            ) == SlotView::Symbol(symbol),
        slot_disputed(memory, base, kind, addresses, at) <==> imports::slot_at(
            memory,
            base,
            kind,
            addresses,
            at,
        ) is Ambiguous,
{
    let slot = imports::slot_at(memory, base, kind, addresses, at);
    let value = slot_value(memory, kind, at);
    let found = imports::value_symbol(memory, base, kind, value, addresses, 4);
    if at + slot_width(kind) <= memory.len() {
        assert(imports::pointer_at(memory, at, kind) == Some(value));
        if found is Some {
            let path = lemma_path_found(memory, base, kind, addresses, value, 4);
            lemma_at_address(addresses, path.last());
        }
        assert forall|symbol: ExportView|
            #![trigger slot_leads_to(memory, base, kind, addresses, at, symbol)]
            slot_leads_to(memory, base, kind, addresses, at, symbol) implies slot
            == SlotView::Symbol(symbol) by {
            let path = choose|path: Seq<u64>| #[trigger]
                path_of(memory, base, kind, addresses, path) && path.len() <= 5 && path[0]
                    == value && known(addresses, path.last(), symbol);
            lemma_at_address(addresses, path.last());
            lemma_path_leads(memory, base, kind, addresses, path, 4);
        }
        if slot_disputed(memory, base, kind, addresses, at) {
            let path = choose|path: Seq<u64>| #[trigger]
                path_of(memory, base, kind, addresses, path) && path.len() <= 5 && path[0]
                    == value && disputed(addresses, path.last());
            lemma_at_address(addresses, path.last());
            lemma_path_leads(memory, base, kind, addresses, path, 4);
        }
    }
}

/// The later plan has all that the earlier one has, and maybe more behind it.
spec fn grew(before: PlanView, after: PlanView) -> bool {
    &&& before.groups.is_prefix_of(after.groups)
    &&& before.existing_valid == after.existing_valid
    &&& before.recovered <= usize::MAX ==> before.recovered <= after.recovered <= usize::MAX
}

proof fn lemma_grew_on(first: PlanView, second: PlanView, third: PlanView)
    requires
        grew(first, second),
        grew(second, third),
    ensures
        grew(first, third),
{
    assert(first.groups =~= third.groups.subrange(0, first.groups.len() as int));
}

proof fn lemma_group_added(plan: PlanView, group: GroupView)
    ensures
        grew(plan, plan.with_group(group)),
{
    assert(plan.groups =~= plan.with_group(group).groups.subrange(0, plan.groups.len() as int));
}

proof fn lemma_groups_grow(
    plan: PlanView,
    entries: Seq<(u32, ExportView)>,
    width: int,
    fewer: nat,
    more: nat,
)
    requires
        fewer <= more,
    ensures
        grew(
            imports::grouped(plan, entries, width, fewer).plan,
            imports::grouped(plan, entries, width, more).plan,
        ),
        grew(plan, imports::grouped(plan, entries, width, more).plan),
        grew(plan, imports::grouped(plan, entries, width, more).close()),
        grew(
            imports::grouped(plan, entries, width, fewer).plan,
            imports::grouped(plan, entries, width, more).close(),
        ),
    decreases more,
{
    let last = imports::grouped(plan, entries, width, more);
    if more == fewer {
        assert(grew(last.plan, last.plan)) by {
            assert(last.plan.groups =~= last.plan.groups.subrange(
                0,
                last.plan.groups.len() as int,
            ));
        }
        if more > 0 {
            lemma_groups_grow(plan, entries, width, (more - 1) as nat, (more - 1) as nat);
            let before = imports::grouped(plan, entries, width, (more - 1) as nat);
            lemma_step_grows(before, entries[more - 1].0, entries[more - 1].1, width);
            lemma_grew_on(plan, before.plan, last.plan);
        }
    } else {
        lemma_groups_grow(plan, entries, width, fewer, (more - 1) as nat);
        let before = imports::grouped(plan, entries, width, (more - 1) as nat);
        lemma_step_grows(before, entries[more - 1].0, entries[more - 1].1, width);
        lemma_grew_on(plan, before.plan, last.plan);
        lemma_grew_on(
            imports::grouped(plan, entries, width, fewer).plan,
            before.plan,
            last.plan,
        );
    }
    lemma_close_grows(last);
    lemma_grew_on(plan, last.plan, last.close());
    lemma_grew_on(imports::grouped(plan, entries, width, fewer).plan, last.plan, last.close());
}

proof fn lemma_close_grows(grouping: Grouping)
    ensures
        grew(grouping.plan, grouping.close()),
{
    assert(grouping.plan.groups =~= grouping.plan.groups.subrange(
        0,
        grouping.plan.groups.len() as int,
    ));
    if let Some(group) = grouping.open {
        lemma_group_added(grouping.plan, group);
    }
}

proof fn lemma_step_grows(before: Grouping, slot: u32, symbol: ExportView, width: int)
    ensures
        grew(before.plan, before.add(slot, symbol, width).plan),
{
    lemma_close_grows(before);
    assert(before.plan.groups =~= before.plan.groups.subrange(0, before.plan.groups.len() as int));
}

/// The entries are the symbols of consecutive slots from `from` on.
spec fn consecutive(
    entries: Seq<(u32, ExportView)>,
    symbols: Seq<ExportView>,
    from: int,
    width: int,
) -> bool {
    &&& entries.len() == symbols.len()
    &&& forall|k: int|
        0 <= k < symbols.len() ==> (#[trigger] entries[k]).0 == from + k * width && entries[k].1
            == symbols[k]
}

/// The open group ends with the symbol before `count`: its module is that of the symbol, and it
/// goes on with the next slot.
proof fn lemma_open_group(
    plan: PlanView,
    entries: Seq<(u32, ExportView)>,
    symbols: Seq<ExportView>,
    from: int,
    width: int,
    count: nat,
)
    requires
        consecutive(entries, symbols, from, width),
        0 < count <= symbols.len(),
    ensures
        ({
            let open = imports::grouped(plan, entries, width, count).open;
            &&& open is Some
            &&& text::same_letters(open->0.module, symbols[count - 1].module)
            &&& open->0.first_thunk + open->0.entries.len() * width == from + count * width
        }),
    decreases count,
{
    let fewer = (count - 1) as nat;
    let before = imports::grouped(plan, entries, width, fewer);
    let after = imports::grouped(plan, entries, width, count);
    assert(entries[count - 1].0 == from + (count - 1) * width);
    assert(entries[count - 1].1 == symbols[count - 1]);
    assert((count - 1) * width + width == count * width) by (nonlinear_arith);
    if fewer > 0 {
        lemma_open_group(plan, entries, symbols, from, width, fewer);
    }
    if before.open is Some && imports::continues(
        before.open->0,
        entries[count - 1].0,
        symbols[count - 1],
        width,
    ) {
        let length = before.open->0.entries.len();
        assert(after.open->0.entries.len() == length + 1);
        assert((length + 1) * width == length * width + width) by (nonlinear_arith);
    } else {
        assert(after.open->0.entries.len() == 1);
        assert(1 * width == width);
    }
}

/// The names and ordinals of the symbols.
pub open spec fn imports_of(symbols: Seq<ExportView>) -> Seq<EntryView> {
    symbols.map_values(
        |symbol: ExportView| EntryView { name: symbol.name, ordinal: symbol.ordinal },
    )
}

/// From `first` up to `last` stand the symbols of one module, and those next to them are of
/// another.
pub open spec fn one_module(symbols: Seq<ExportView>, first: int, last: int) -> bool {
    &&& 0 <= first
    &&& first + 2 <= last <= symbols.len()
    &&& forall|k: int|
        first <= k < last ==> text::same_letters(
            symbols[first].module,
            (#[trigger] symbols[k]).module,
        )
    &&& first > 0 ==> !text::same_letters(symbols[first - 1].module, symbols[first].module)
    &&& last < symbols.len() ==> !text::same_letters(symbols[first].module, symbols[last].module)
}

proof fn lemma_growing_group(
    plan: PlanView,
    entries: Seq<(u32, ExportView)>,
    symbols: Seq<ExportView>,
    from: int,
    width: int,
    first: int,
    last: int,
    count: nat,
)
    requires
        consecutive(entries, symbols, from, width),
        one_module(symbols, first, last),
        first < count <= last,
        from + symbols.len() * width <= u32::MAX,
        0 <= from,
        0 < width,
    ensures
        imports::grouped(plan, entries, width, count).open == Some(
            GroupView {
                module: symbols[first].module,
                first_thunk: (from + first * width) as u32,
                entries: imports_of(symbols.subrange(first, count as int)),
            },
        ),
    decreases count,
{
    let fewer = (count - 1) as nat;
    let before = imports::grouped(plan, entries, width, fewer);
    let after = imports::grouped(plan, entries, width, count);
    assert(entries[count - 1].0 == from + (count - 1) * width);
    assert(entries[count - 1].1 == symbols[count - 1]);
    let part = symbols.subrange(first, count as int);
    if fewer > first {
        lemma_growing_group(plan, entries, symbols, from, width, first, last, fewer);
        let earlier = symbols.subrange(first, fewer as int);
        let group = before.open->0;
        assert(group.entries.len() == fewer - first);
        assert(first * width + (fewer - first) * width == fewer * width) by (nonlinear_arith);
        assert(0 <= first * width <= symbols.len() * width) by (nonlinear_arith)
            requires
                0 <= first <= symbols.len(),
                0 < width,
        ;
        assert(text::same_letters(symbols[first].module, symbols[count - 1].module));
        assert(imports::continues(group, entries[count - 1].0, symbols[count - 1], width));
        assert(part =~= earlier.push(symbols[count - 1]));
        assert(imports_of(part) =~= imports_of(earlier).push(
            imports::import_of(symbols[count - 1]),
        ));
    } else {
        if first > 0 {
            lemma_open_group(plan, entries, symbols, from, width, fewer);
        }
        assert(part =~= seq![symbols[first]]);
        assert(imports_of(part) =~= seq![imports::import_of(symbols[first])]);
    }
}

/// A run of slots becomes groups, one for each part of it that has one module.
proof fn lemma_run_grouped(
    plan: PlanView,
    entries: Seq<(u32, ExportView)>,
    symbols: Seq<ExportView>,
    from: int,
    width: int,
    first: int,
    last: int,
)
    requires
        consecutive(entries, symbols, from, width),
        one_module(symbols, first, last),
        from + symbols.len() * width <= u32::MAX,
        0 <= from,
        0 < width,
        imports::with_groups(plan, entries, width).groups.len() < 4096,
    ensures
        imports::with_groups(plan, entries, width).groups.contains(
            GroupView {
                module: symbols[first].module,
                first_thunk: (from + first * width) as u32,
                entries: imports_of(symbols.subrange(first, last)),
            },
        ),
{
    let group = GroupView {
        module: symbols[first].module,
        first_thunk: (from + first * width) as u32,
        entries: imports_of(symbols.subrange(first, last)),
    };
    lemma_growing_group(plan, entries, symbols, from, width, first, last, last as nat);
    let before = imports::grouped(plan, entries, width, last as nat);
    let result = imports::with_groups(plan, entries, width);
    lemma_groups_grow(plan, entries, width, last as nat, entries.len());
    assert(group.entries.len() == last - first);
    assert(before.plan.groups.len() < 4096);
    let closed = before.plan.with_group(group);
    assert(closed.groups == before.plan.groups.push(group));
    let place = before.plan.groups.len() as int;
    assert(closed.groups[place] == group);
    if last < symbols.len() {
        let after = imports::grouped(plan, entries, width, (last + 1) as nat);
        assert(entries[last].1 == symbols[last]);
        assert(!imports::continues(group, entries[last].0, symbols[last], width));
        assert(after.plan == closed);
        lemma_groups_grow(plan, entries, width, (last + 1) as nat, entries.len());
        assert(closed.groups =~= result.groups.subrange(0, closed.groups.len() as int));
        assert(result.groups[place] == closed.groups[place]);
    } else {
        assert(result == closed);
    }
    assert(result.groups[place] == group);
}

proof fn lemma_width(kind: PeKind)
    ensures
        kind.pointer_width() == slot_width(kind),
        slot_width(kind) == 4 || slot_width(kind) == 8,
{
}

proof fn lemma_whole_run(
    memory: Seq<u8>,
    base: u64,
    kind: PeKind,
    addresses: AddressMap,
    offset: int,
    end: int,
    most: nat,
    count: nat,
)
    requires
        forall|k: int|
            0 <= k < count ==> #[trigger] imports::slot_at(
                memory,
                base,
                kind,
                addresses,
                offset + k * kind.pointer_width(),
            ) is Symbol,
        offset + count * kind.pointer_width() <= end,
        count <= most,
        count == most || offset + count * kind.pointer_width() + kind.pointer_width() > end
            || !(imports::slot_at(
            memory,
            base,
            kind,
            addresses,
            offset + count * kind.pointer_width(),
        ) is Symbol),
    ensures
        imports::run_length(memory, base, kind, addresses, offset, end, most) == count,
    decreases count,
{
    let width = kind.pointer_width();
    if count == 0 {
        assert(offset + 0 * width == offset);
    } else {
        let next = offset + width;
        let fewer = (count - 1) as nat;
        assert(next + fewer * width == offset + count * width) by (nonlinear_arith)
            requires
                next == offset + width,
                fewer == count - 1,
        ;
        assert(width <= count * width) by (nonlinear_arith)
            requires
                count >= 1,
                width > 0,
        ;
        assert(offset + 0 * width == offset);
        assert(imports::slot_at(
            memory,
            base,
            kind,
            addresses,
            offset + 0 * kind.pointer_width(),
        ) is Symbol);
        assert forall|k: int| 0 <= k < fewer implies #[trigger] imports::slot_at(
            memory,
            base,
            kind,
            addresses,
            next + k * kind.pointer_width(),
        ) is Symbol by {
            assert(next + k * width == offset + (k + 1) * width) by (nonlinear_arith)
                requires
                    next == offset + width,
            ;
            assert(imports::slot_at(
                memory,
                base,
                kind,
                addresses,
                offset + (k + 1) * kind.pointer_width(),
            ) is Symbol);
        }
        lemma_whole_run(memory, base, kind, addresses, next, end, (most - 1) as nat, fewer);
    }
}

proof fn lemma_run_stops(
    memory: Seq<u8>,
    base: u64,
    kind: PeKind,
    addresses: AddressMap,
    offset: int,
    end: int,
    most: nat,
    steps: nat,
)
    requires
        !(imports::slot_at(
            memory,
            base,
            kind,
            addresses,
            offset + steps * kind.pointer_width(),
        ) is Symbol),
    ensures
        imports::run_length(memory, base, kind, addresses, offset, end, most) <= steps,
    decreases steps,
{
    let width = kind.pointer_width();
    if steps == 0 {
        assert(offset + 0 * width == offset);
    } else if most > 0 {
        let next = offset + width;
        let fewer = (steps - 1) as nat;
        assert(next + fewer * width == offset + steps * width) by (nonlinear_arith)
            requires
                next == offset + width,
                fewer == steps - 1,
        ;
        lemma_run_stops(memory, base, kind, addresses, next, end, (most - 1) as nat, fewer);
    }
}

proof fn lemma_run_grows(
    plan: PlanView,
    memory: Seq<u8>,
    base: u64,
    kind: PeKind,
    addresses: AddressMap,
    start: int,
    offset: int,
    end: int,
)
    ensures
        grew(plan, imports::with_run(plan, memory, base, kind, addresses, start, offset, end)),
{
    let width = kind.pointer_width();
    let count = imports::run_length(memory, base, kind, addresses, offset, end, 65536);
    let counted = PlanView {
        ambiguous: layout::least(plan.ambiguous + 1, usize::MAX as int),
        ..plan
    };
    let entries = imports::run_entries(memory, base, kind, addresses, offset, count);
    assert(plan.groups =~= plan.groups.subrange(0, plan.groups.len() as int));
    assert(grew(plan, plan) && grew(plan, counted));
    lemma_groups_grow(plan, entries, width, entries.len(), entries.len());
    lemma_groups_grow(counted, entries, width, entries.len(), entries.len());
    lemma_grew_on(plan, counted, imports::with_groups(counted, entries, width));
}

proof fn lemma_scan_grows(
    plan: PlanView,
    memory: Seq<u8>,
    base: u64,
    kind: PeKind,
    addresses: AddressMap,
    start: int,
    offset: int,
    end: int,
)
    ensures
        grew(plan, imports::with_scan(plan, memory, base, kind, addresses, start, offset, end)),
    decreases end - offset,
{
    let width = kind.pointer_width();
    let count = imports::run_length(memory, base, kind, addresses, offset, end, 65536);
    assert(plan.groups =~= plan.groups.subrange(0, plan.groups.len() as int));
    if !(offset + width > end || plan.recovered >= 65536) {
        let next = if count == 0 {
            offset + width
        } else {
            offset + count * width
        };
        let after = imports::with_run(plan, memory, base, kind, addresses, start, offset, end);
        lemma_run_grows(plan, memory, base, kind, addresses, start, offset, end);
        assert(count > 0 ==> count * width >= count) by (nonlinear_arith)
            requires
                width >= 1,
        ;
        if next <= end {
            lemma_scan_grows(after, memory, base, kind, addresses, start, next, end);
            lemma_grew_on(
                plan,
                after,
                imports::with_scan(after, memory, base, kind, addresses, start, next, end),
            );
        }
    }
}

/// The search comes to the slot at `from`, if the slot before it ends every run.
proof fn lemma_scan_reaches(
    plan: PlanView,
    memory: Seq<u8>,
    base: u64,
    kind: PeKind,
    addresses: AddressMap,
    start: int,
    offset: int,
    end: int,
    from: int,
    steps: nat,
) -> (reached: PlanView)
    requires
        from == offset + steps * kind.pointer_width(),
        from + kind.pointer_width() <= end,
        steps > 0 ==> !(imports::slot_at(
            memory,
            base,
            kind,
            addresses,
            from - kind.pointer_width(),
        ) is Symbol),
        plan.recovered <= usize::MAX,
        imports::with_scan(plan, memory, base, kind, addresses, start, offset, end).recovered
            < 65536,
    ensures
        reached.recovered <= usize::MAX,
        imports::with_scan(plan, memory, base, kind, addresses, start, offset, end)
            == imports::with_scan(reached, memory, base, kind, addresses, start, from, end),
    decreases steps,
{
    let width = kind.pointer_width();
    let count = imports::run_length(memory, base, kind, addresses, offset, end, 65536);
    if steps == 0 {
        assert(0 * width == 0);
        plan
    } else {
        lemma_scan_grows(plan, memory, base, kind, addresses, start, offset, end);
        let before = (steps - 1) as nat;
        assert(offset + before * width == from - width) by (nonlinear_arith)
            requires
                from == offset + steps * width,
                before == steps - 1,
        ;
        assert(0 <= before * width) by (nonlinear_arith)
            requires
                before >= 0,
                width >= 1,
        ;
        lemma_run_stops(memory, base, kind, addresses, offset, end, 65536, before);
        let done: nat = if count == 0 {
            1
        } else {
            count
        };
        let next = offset + done * width;
        assert(done == 1 ==> done * width == width);
        let rest = (steps - done) as nat;
        assert(from == next + rest * width) by (nonlinear_arith)
            requires
                from == offset + steps * width,
                next == offset + done * width,
                rest == steps - done,
        ;
        assert(0 <= rest * width) by (nonlinear_arith)
            requires
                rest >= 0,
                width >= 1,
        ;
        let after = imports::with_run(plan, memory, base, kind, addresses, start, offset, end);
        lemma_run_grows(plan, memory, base, kind, addresses, start, offset, end);
        assert(next <= end);
        lemma_scan_reaches(
            after,
            memory,
            base,
            kind,
            addresses,
            start,
            next,
            end,
            from,
            rest,
        )
    }
}

/// The name is `.idata` or `.didat`, in letters of either case, padded with zeros.
pub open spec fn names_imports(name: Seq<u8>) -> bool {
    &&& name.len() == 8
    &&& name[0] == 0x2E
    &&& name[6] == 0
    &&& {
        ||| {
            &&& (name[1] == 0x69 || name[1] == 0x49)
            &&& (name[2] == 0x64 || name[2] == 0x44)
            &&& (name[3] == 0x61 || name[3] == 0x41)
            &&& (name[4] == 0x74 || name[4] == 0x54)
            &&& (name[5] == 0x61 || name[5] == 0x41)
        }
        ||| {
            &&& (name[1] == 0x64 || name[1] == 0x44)
            &&& (name[2] == 0x69 || name[2] == 0x49)
            &&& (name[3] == 0x64 || name[3] == 0x44)
            &&& (name[4] == 0x61 || name[4] == 0x41)
            &&& (name[5] == 0x74 || name[5] == 0x54)
        }
    }
}

/// Where the headers declare the import address table.
pub open spec fn table_field(model: PeModelView) -> int {
    model.nt_offset + 24 + (if model.kind == PeKind::Pe32 {
        96int
    } else {
        112
    }) + 96
}

/// The headers declare an import address table from `start` up to `end`.
pub open spec fn table_declared(
    memory: Seq<u8>,
    model: PeModelView,
    start: int,
    end: int,
) -> bool {
    let field = table_field(model);
    &&& model.directory_count > 12
    &&& field + 8 <= memory.len()
    &&& bytes::le32(memory, field) == start
    &&& start > 0
    &&& bytes::le32(memory, field + 4) == end - start
    &&& start < end <= 0xFFFF_FFFF
}

/// The first address behind a section that takes the larger of its two sizes.
pub open spec fn behind(section: SectionView) -> int {
    section.virtual_address + if section.virtual_size > section.raw_size {
        section.virtual_size
    } else {
        section.raw_size
    }
}

/// The address lies in the declared table.
pub open spec fn in_table(memory: Seq<u8>, model: PeModelView, at: int) -> bool {
    exists|start: int, end: int| #[trigger]
        table_declared(memory, model, start, end) && start <= at < end
}

/// Imports are looked for at this address of the section. If it has addresses of the declared
/// table, it is one of them; otherwise it is any address of a section with a name for imports.
/// The section can be read or written and cannot be executed.
pub open spec fn looked_for(
    memory: Seq<u8>,
    model: PeModelView,
    section: SectionView,
    at: int,
) -> bool {
    let end = behind(section);
    &&& section.characteristics & 0x2000_0000 == 0
    &&& (section.characteristics & 0x4000_0000 != 0 || section.characteristics & 0x8000_0000 != 0)
    &&& section.virtual_address <= at < end
    &&& at < 0xFFFF_FFFF
    &&& at < memory.len()
    &&& {
        ||| in_table(memory, model, at)
        ||| names_imports(section.name) && forall|other: int|
            section.virtual_address <= other < end && other < 0xFFFF_FFFF ==> !#[trigger] in_table(
                memory,
                model,
                other,
            )
    }
}

proof fn lemma_import_name(name: Seq<u8>)
    requires
        name.len() == 8,
    ensures
        imports::import_section(name) <==> names_imports(name),
{
    let idata = seq![0x2Eu8, 0x69, 0x64, 0x61, 0x74, 0x61];
    let didat = seq![0x2Eu8, 0x64, 0x69, 0x64, 0x61, 0x74];
    lemma_letter(name[0], 0x2E);
    lemma_letter(name[1], 0x69);
    lemma_letter(name[1], 0x64);
    lemma_letter(name[2], 0x64);
    lemma_letter(name[2], 0x69);
    lemma_letter(name[3], 0x61);
    lemma_letter(name[3], 0x64);
    lemma_letter(name[4], 0x74);
    lemma_letter(name[4], 0x61);
    lemma_letter(name[5], 0x61);
    lemma_letter(name[5], 0x74);
    if imports::section_named(name, idata) {
        assert(forall|i: int|
            0 <= i < 6 ==> text::lower(#[trigger] name[i] as char) == idata[i] as char);
        assert(idata[0] == 0x2E && idata[1] == 0x69 && idata[2] == 0x64 && idata[3] == 0x61
            && idata[4] == 0x74 && idata[5] == 0x61);
    }
    if imports::section_named(name, didat) {
        assert(forall|i: int|
            0 <= i < 6 ==> text::lower(#[trigger] name[i] as char) == didat[i] as char);
        assert(didat[0] == 0x2E && didat[1] == 0x64 && didat[2] == 0x69 && didat[3] == 0x64
            && didat[4] == 0x61 && didat[5] == 0x74);
    }
    if names_imports(name) {
        assert(idata[0] == 0x2E && idata[1] == 0x69 && idata[2] == 0x64 && idata[3] == 0x61
            && idata[4] == 0x74 && idata[5] == 0x61);
        assert(didat[0] == 0x2E && didat[1] == 0x64 && didat[2] == 0x69 && didat[3] == 0x64
            && didat[4] == 0x61 && didat[5] == 0x74);
        if name[2] == 0x64 || name[2] == 0x44 {
            assert(forall|i: int|
                0 <= i < 6 ==> text::lower(#[trigger] name[i] as char) == idata[i] as char);
            assert(imports::section_named(name, idata));
        } else {
            assert(forall|i: int|
                0 <= i < 6 ==> text::lower(#[trigger] name[i] as char) == didat[i] as char);
            assert(imports::section_named(name, didat));
        }
    }
}

proof fn lemma_letter(byte: u8, letter: u8)
    requires
        letter == 0x2E || 0x61 <= letter <= 0x7A,
    ensures
        text::lower(byte as char) == letter as char <==> byte == letter || (letter >= 0x61 && byte
            == letter - 0x20),
{
}

/// The range that is searched of a section, as far as it is in memory.
proof fn lemma_range(memory: Seq<u8>, model: PeModelView, section: SectionView, at: int)
    requires
        section.name.len() == 8,
        looked_for(memory, model, section, at),
    ensures
        imports::holds_data(section.characteristics),
        ({
            let range = imports::trusted_range(section, imports::declared_table(memory, model));
            match range {
                Some((start, end)) => {
                    &&& forall|other: int|
                        start <= other < end && other < memory.len() <==> #[trigger] looked_for(
                            memory,
                            model,
                            section,
                            other,
                        )
                    &&& section.virtual_address <= start <= at < end <= u32::MAX
                },
                None => false,
            }
        }),
{
    lemma_import_name(section.name);
    let table = imports::declared_table(memory, model);
    assert(model.directory_at(12) == table_field(model));
    assert forall|start: int, end: int| #[trigger]
        table_declared(memory, model, start, end) <==> table == Some((start, end)) by {}
    if let Some((start, end)) = table {
        assert(table_declared(memory, model, start, end));
        assert forall|other: int| #[trigger] in_table(memory, model, other) <==> start <= other
            < end by {}
        let from = if start > section.virtual_address {
            start
        } else {
            section.virtual_address as int
        };
        if from < end && from < behind(section) && from < 0xFFFF_FFFF {
            assert(in_table(memory, model, from));
        }
    } else {
        assert forall|other: int| !#[trigger] in_table(memory, model, other) by {}
    }
}

proof fn lemma_section_grows(
    plan: PlanView,
    memory: Seq<u8>,
    base: u64,
    model: PeModelView,
    addresses: AddressMap,
    section: SectionView,
)
    ensures
        grew(plan, imports::with_section(plan, memory, base, model, addresses, section)),
{
    assert(plan.groups =~= plan.groups.subrange(0, plan.groups.len() as int));
    if let Some((start, end)) = imports::trusted_range(
        section,
        imports::declared_table(memory, model),
    ) {
        let first = layout::least(
            layout::aligned(start, model.kind.pointer_width()),
            usize::MAX as int,
        );
        lemma_scan_grows(
            plan,
            memory,
            base,
            model.kind,
            addresses,
            first,
            first,
            layout::least(end, memory.len() as int),
        );
    }
}

proof fn lemma_sections_grow(
    memory: Seq<u8>,
    base: u64,
    model: PeModelView,
    addresses: AddressMap,
    fewer: nat,
    more: nat,
)
    requires
        fewer <= more,
    ensures
        grew(
            imports::with_sections(memory, base, model, addresses, fewer),
            imports::with_sections(memory, base, model, addresses, more),
        ),
        imports::with_sections(memory, base, model, addresses, fewer).recovered <= usize::MAX,
    decreases more,
{
    let last = imports::with_sections(memory, base, model, addresses, more);
    if fewer == more {
        assert(last.groups =~= last.groups.subrange(0, last.groups.len() as int));
        if more > 0 {
            let before = (more - 1) as nat;
            lemma_sections_grow(memory, base, model, addresses, before, before);
            lemma_section_grows(
                imports::with_sections(memory, base, model, addresses, before),
                memory,
                base,
                model,
                addresses,
                model.sections[more - 1],
            );
        }
    } else {
        let before = (more - 1) as nat;
        let earlier = imports::with_sections(memory, base, model, addresses, before);
        lemma_sections_grow(memory, base, model, addresses, fewer, before);
        lemma_section_grows(
            earlier,
            memory,
            base,
            model,
            addresses,
            model.sections[more - 1],
        );
        lemma_grew_on(
            imports::with_sections(memory, base, model, addresses, fewer),
            earlier,
            last,
        );
    }
}

/// Slots of an address table at `from` lead to the symbols, one after another. They stand where
/// imports of the section are looked for, behind a zero or at the first place for a slot there,
/// and before a zero or at the end.
pub open spec fn run_at(
    memory: Seq<u8>,
    base: u64,
    model: PeModelView,
    addresses: AddressMap,
    section: SectionView,
    from: int,
    symbols: Seq<ExportView>,
) -> bool {
    let width = slot_width(model.kind);
    let stop = from + symbols.len() * width;
    &&& 2 <= symbols.len() <= 65536
    &&& from % width == 0
    &&& looked_for(memory, model, section, from)
    &&& looked_for(memory, model, section, stop - 1)
    &&& forall|k: int|
        #![trigger symbols[k]]
        0 <= k < symbols.len() ==> slot_leads_to(
            memory,
            base,
            model.kind,
            addresses,
            from + k * width,
            symbols[k],
        )
    &&& looked_for(memory, model, section, from - width) ==> slot_value(
        memory,
        model.kind,
        from - width,
    ) == 0
    &&& looked_for(memory, model, section, stop) ==> stop + width <= memory.len() && slot_value(
        memory,
        model.kind,
        stop,
    ) == 0
}

proof fn lemma_zero_slot(
    memory: Seq<u8>,
    base: u64,
    kind: PeKind,
    addresses: AddressMap,
    at: int,
)
    requires
        0 < base,
        unknown(addresses, 0),
        at + slot_width(kind) <= memory.len() ==> slot_value(memory, kind, at) == 0,
    ensures
        !(imports::slot_at(memory, base, kind, addresses, at) is Symbol),
{
    lemma_at_address(addresses, 0);
    if at + slot_width(kind) <= memory.len() {
        assert(imports::pointer_at(memory, at, kind) == Some(0u64));
    }
}

/// A range with a run in it, searched from its first place for a slot on.
proof fn lemma_range_recovered(
    plan: PlanView,
    memory: Seq<u8>,
    base: u64,
    model: PeModelView,
    addresses: AddressMap,
    section: SectionView,
    from: int,
    symbols: Seq<ExportView>,
    first: int,
    last: int,
)
    requires
        0 < base,
        unknown(addresses, 0),
        section.name.len() == 8,
        run_at(memory, base, model, addresses, section, from, symbols),
        one_module(symbols, first, last),
        plan.recovered <= usize::MAX,
        !imports::plan_full(plan),
        ({
            let after = imports::with_section(plan, memory, base, model, addresses, section);
            after.recovered < 65536 && after.groups.len() < 4096
        }),
    ensures
        imports::with_section(plan, memory, base, model, addresses, section).groups.contains(
            GroupView {
                module: symbols[first].module,
                first_thunk: (from + first * slot_width(model.kind)) as u32,
                entries: imports_of(symbols.subrange(first, last)),
            },
        ),
{
    let kind = model.kind;
    let width = kind.pointer_width();
    let count = symbols.len();
    let stop = from + count * width;
    lemma_width(kind);
    lemma_range(memory, model, section, from);
    let range = imports::trusted_range(section, imports::declared_table(memory, model))->0;
    let (start, to) = range;
    let end = layout::least(to, memory.len() as int);
    let aligned = layout::aligned(start, width);
    layout::aligned_is_least_multiple(start, width);
    assert(looked_for(memory, model, section, stop - 1));
    assert(start <= stop - 1 < to);
    assert(stop <= end);
    assert(aligned <= from && exists|steps: nat| #[trigger] (steps * width) == from - aligned) by {
        let gap = from - aligned;
        assert(gap % width == 0) by {
            vstd::arithmetic::div_mod::lemma_sub_mod_noop(from, aligned, width);
            vstd::arithmetic::div_mod::lemma_small_mod(0, width as nat);
        }
        vstd::arithmetic::div_mod::lemma_fundamental_div_mod(gap, width);
        assert(width * (gap / width) == gap);
        if gap < 0 {
            assert(gap > -width);
            assert(gap / width <= -1 ==> width * (gap / width) <= -width) by (nonlinear_arith)
                requires
                    width > 0,
            ;
            assert(gap / width >= 0 ==> width * (gap / width) >= 0) by (nonlinear_arith)
                requires
                    width > 0,
            ;
        }
        let steps = (gap / width) as nat;
        assert(gap >= 0 ==> gap / width >= 0) by {
            if gap >= 0 {
                vstd::arithmetic::div_mod::lemma_div_pos_is_pos(gap, width);
            }
        }
        assert(steps * width == width * steps) by (nonlinear_arith);
        assert(steps * width == from - aligned);
    }
    let steps = choose|steps: nat| #[trigger] (steps * width) == from - aligned;
    let after = imports::with_section(plan, memory, base, model, addresses, section);
    assert(aligned <= usize::MAX);
    assert(after == imports::with_scan(
        plan,
        memory,
        base,
        kind,
        addresses,
        aligned,
        aligned,
        end,
    ));
    assert(width <= count * width) by (nonlinear_arith)
        requires
            count >= 2,
            width > 0,
    ;
    if steps > 0 {
        assert(steps * width >= width) by (nonlinear_arith)
            requires
                steps >= 1,
                width > 0,
        ;
        assert(start <= from - width < to && from - width < memory.len());
        assert(looked_for(memory, model, section, from - width));
        lemma_zero_slot(memory, base, kind, addresses, from - width);
    }
    let reached = lemma_scan_reaches(
        plan,
        memory,
        base,
        kind,
        addresses,
        aligned,
        aligned,
        end,
        from,
        steps,
    );
    assert forall|k: int| 0 <= k < count implies #[trigger] imports::slot_at(
        memory,
        base,
        kind,
        addresses,
        from + k * kind.pointer_width(),
    ) == SlotView::Symbol(symbols[k]) by {
        assert(0 <= k * width && k * width + width <= count * width) by (nonlinear_arith)
            requires
                0 <= k < count,
                width > 0,
        ;
        slots_hold_what_they_lead_to(memory, base, kind, addresses, from + k * width);
        assert(slot_leads_to(memory, base, kind, addresses, from + k * width, symbols[k]));
    }
    if stop + width <= end {
        assert(looked_for(memory, model, section, stop));
        lemma_zero_slot(memory, base, kind, addresses, stop);
    }
    lemma_whole_run(memory, base, kind, addresses, from, end, 65536, count);
    lemma_scan_grows(reached, memory, base, kind, addresses, aligned, from, end);
    let ran = imports::with_run(reached, memory, base, kind, addresses, aligned, from, end);
    lemma_run_grows(reached, memory, base, kind, addresses, aligned, from, end);
    assert(reached.recovered < 65536);
    assert(grew(ran, after)) by {
        assert(ran.groups =~= ran.groups.subrange(0, ran.groups.len() as int));
        lemma_scan_grows(ran, memory, base, kind, addresses, aligned, stop, end);
    }
    let counted = if count < 65536 && stop + width <= end && imports::slot_at(
        memory,
        base,
        kind,
        addresses,
        stop,
    ) is Ambiguous {
        PlanView {
            ambiguous: layout::least(reached.ambiguous + 1, usize::MAX as int),
            ..reached
        }
    } else {
        reached
    };
    let entries = imports::run_entries(memory, base, kind, addresses, from, count);
    assert(stop == end || imports::pointer_at(memory, stop, kind) == Some(0u64)) by {
        if stop != end {
            assert(looked_for(memory, model, section, stop));
        }
    }
    assert(from == aligned || (from >= width && imports::pointer_at(memory, from - width, kind)
        == Some(0u64))) by {
        if steps == 0 {
            assert(0 * width == 0);
        } else {
            assert(slot_value(memory, kind, from - width) == 0);
        }
    }
    assert(ran == imports::with_groups(counted, entries, width));
    assert(consecutive(entries, symbols, from, width)) by {
        assert forall|k: int| 0 <= k < symbols.len() implies (#[trigger] entries[k]).0 == from + k
            * width && entries[k].1 == symbols[k] by {
            assert(0 <= k * width && k * width + width <= count * width) by (nonlinear_arith)
                requires
                    0 <= k < count,
                    width > 0,
            ;
            assert(imports::slot_at(
                memory,
                base,
                kind,
                addresses,
                from + k * kind.pointer_width(),
            ) == SlotView::Symbol(symbols[k]));
        }
    }
    lemma_run_grouped(counted, entries, symbols, from, width, first, last);
    lemma_kept(
        ran,
        after,
        GroupView {
            module: symbols[first].module,
            first_thunk: (from + first * width) as u32,
            entries: imports_of(symbols.subrange(first, last)),
        },
    );
}

proof fn lemma_kept(before: PlanView, after: PlanView, group: GroupView)
    requires
        grew(before, after),
        before.groups.contains(group),
    ensures
        after.groups.contains(group),
{
    let place = choose|place: int| 0 <= place < before.groups.len() && before.groups[place] == group;
    assert(before.groups =~= after.groups.subrange(0, before.groups.len() as int));
    assert(after.groups[place] == group);
}

/// Every import that can be recovered is recovered. Where the import directory is not intact and
/// neither limit is reached, every part of a run of slots that has at least two symbols of one
/// module, with none of that module next to them, becomes a group of the plan: at the address of
/// its first slot, under the name of the module, with the names and ordinals of its symbols in the
/// order of the slots.
pub proof fn runs_of_slots_are_recovered(
    memory: Seq<u8>,
    base: u64,
    model: PeModelView,
    addresses: AddressMap,
    section: int,
    from: int,
    symbols: Seq<ExportView>,
    first: int,
    last: int,
)
    requires
        model.valid(),
        0 < base,
        unknown(addresses, 0),
        0 <= section < model.sections.len(),
        run_at(memory, base, model, addresses, model.sections[section], from, symbols),
        one_module(symbols, first, last),
        ({
            let plan = imports::import_plan(memory, base, model, addresses);
            !plan.existing_valid && plan.recovered < 65536 && plan.groups.len() < 4096
        }),
    ensures
        imports::import_plan(memory, base, model, addresses).groups.contains(
            GroupView {
                module: symbols[first].module,
                first_thunk: (from + first * slot_width(model.kind)) as u32,
                entries: imports_of(symbols.subrange(first, last)),
            },
        ),
{
    let plan = imports::import_plan(memory, base, model, addresses);
    let before = imports::with_sections(memory, base, model, addresses, section as nat);
    let after = imports::with_sections(memory, base, model, addresses, (section + 1) as nat);
    lemma_sections_grow(
        memory,
        base,
        model,
        addresses,
        section as nat,
        model.sections.len(),
    );
    lemma_sections_grow(
        memory,
        base,
        model,
        addresses,
        (section + 1) as nat,
        model.sections.len(),
    );
    lemma_range_recovered(
        before,
        memory,
        base,
        model,
        addresses,
        model.sections[section],
        from,
        symbols,
        first,
        last,
    );
    lemma_kept(
        after,
        plan,
        GroupView {
            module: symbols[first].module,
            first_thunk: (from + first * slot_width(model.kind)) as u32,
            entries: imports_of(symbols.subrange(first, last)),
        },
    );
}

/// The slot at `index` of a lookup table holds an ordinal, or the address of a name behind its hint.
pub open spec fn lookup_good(memory: Seq<u8>, kind: PeKind, table: int, index: int) -> bool {
    let at = table + index * slot_width(kind);
    let value = slot_value(memory, kind, at);
    &&& at + slot_width(kind) <= memory.len()
    &&& value != 0
    &&& (value >= (if kind == PeKind::Pe32 {
        0x8000_0000int
    } else {
        0x8000_0000_0000_0000
    }) || exists|name: Seq<char>| #[trigger]
        export_facts::spelled_at(memory, value + 2, name))
}

/// A lookup table of `count` good slots with a zero behind them.
pub open spec fn lookup_ends(memory: Seq<u8>, kind: PeKind, table: int, count: int) -> bool {
    let end = table + count * slot_width(kind);
    &&& 0 < count < 65536
    &&& end + slot_width(kind) <= memory.len()
    &&& slot_value(memory, kind, end) == 0
    &&& forall|i: int| 0 <= i < count ==> #[trigger] lookup_good(memory, kind, table, i)
}

/// The 20 bytes at `at` are zero.
pub open spec fn twenty_zeros(memory: Seq<u8>, at: int) -> bool {
    at + 20 <= memory.len() && forall|o: int| at <= o < at + 20 ==> #[trigger] memory[o] == 0
}

/// Where the lookup table of an import descriptor starts: what the descriptor has at 0, or at 16
/// where that is zero.
pub open spec fn lookup_table(memory: Seq<u8>, at: int) -> int {
    if bytes::le32(memory, at) != 0 {
        bytes::le32(memory, at) as int
    } else {
        bytes::le32(memory, at + 16) as int
    }
}

/// An import descriptor that is not zero, with the name of its module at 12, and a lookup table.
pub open spec fn descriptor_good(memory: Seq<u8>, kind: PeKind, at: int) -> bool {
    &&& at + 20 <= memory.len()
    &&& !twenty_zeros(memory, at)
    &&& exists|name: Seq<char>| #[trigger]
        export_facts::spelled_at(memory, bytes::le32(memory, at + 12) as int, name)
    &&& exists|count: int| #[trigger] lookup_ends(
        memory,
        kind,
        lookup_table(memory, at),
        count,
    )
}

/// Good import descriptors, with a zero one behind them.
pub open spec fn descriptors_good(memory: Seq<u8>, kind: PeKind, at: int, count: int) -> bool {
    &&& twenty_zeros(memory, at + 20 * count)
    &&& forall|i: int| 0 <= i < count ==> #[trigger] descriptor_good(memory, kind, at + 20 * i)
}

proof fn lemma_name_there(memory: Seq<u8>, at: int)
    requires
        0 <= at,
    ensures
        exports::name_bytes(memory, at) is Some <==> exists|name: Seq<char>| #[trigger]
            export_facts::spelled_at(memory, at, name),
{
    if let Some(name) = exports::name_at(memory, at) {
        export_facts::names_are_read_as_spelled(memory, at, name);
        assert(export_facts::spelled_at(memory, at, name));
    }
    if exists|name: Seq<char>| #[trigger] export_facts::spelled_at(memory, at, name) {
        let name = choose|name: Seq<char>| #[trigger] export_facts::spelled_at(memory, at, name);
        export_facts::names_are_read_as_spelled(memory, at, name);
    }
}

proof fn lemma_lookup(memory: Seq<u8>, kind: PeKind, table: int)
    requires
        0 <= table,
    ensures
        imports::thunks_valid(memory, kind, table) <==> exists|count: int| #[trigger]
            lookup_ends(memory, kind, table, count),
{
    lemma_width(kind);
    assert forall|i: int| 0 <= i implies #[trigger] imports::thunk_valid(memory, kind, table, i)
        == lookup_good(memory, kind, table, i) by {
        let at = table + i * slot_width(kind);
        let value = slot_value(memory, kind, at);
        lemma_name_there(memory, value + 2);
        assert(value & 0x8000_0000_0000_0000 != 0 <==> value >= 0x8000_0000_0000_0000)
            by (bit_vector);
        assert(value <= 0xFFFF_FFFF ==> (value & 0x8000_0000 != 0 <==> value >= 0x8000_0000))
            by (bit_vector);
    }
    assert forall|count: int| count > 0 implies #[trigger] imports::thunks_end(
        memory,
        kind,
        table,
        count,
    ) == lookup_ends(memory, kind, table, count) by {
        if imports::thunks_end(memory, kind, table, count) {
            assert forall|i: int| 0 <= i < count implies #[trigger] lookup_good(
                memory,
                kind,
                table,
                i,
            ) by {
                assert(imports::thunk_valid(memory, kind, table, i));
            }
        }
        if lookup_ends(memory, kind, table, count) {
            assert forall|i: int| 0 <= i < count implies #[trigger] imports::thunk_valid(
                memory,
                kind,
                table,
                i,
            ) by {
                assert(lookup_good(memory, kind, table, i));
            }
        }
    }
    if imports::thunks_valid(memory, kind, table) {
        let count = choose|count: int|
            count > 0 && #[trigger] imports::thunks_end(memory, kind, table, count);
        assert(lookup_ends(memory, kind, table, count));
    }
    if exists|count: int| #[trigger] lookup_ends(memory, kind, table, count) {
        let count = choose|count: int| #[trigger] lookup_ends(memory, kind, table, count);
        assert(imports::thunks_end(memory, kind, table, count));
    }
}

proof fn lemma_descriptor(memory: Seq<u8>, kind: PeKind, at: int)
    requires
        0 <= at,
    ensures
        imports::descriptor_ends(memory, at) <==> twenty_zeros(memory, at),
        imports::descriptor_valid(memory, kind, at) <==> descriptor_good(memory, kind, at),
{
    if imports::descriptor_ends(memory, at) {
        assert forall|o: int| at <= o < at + 20 implies #[trigger] memory[o] == 0 by {
            assert(memory[at + (o - at)] == 0);
        }
    }
    lemma_name_there(memory, bytes::le32(memory, at + 12) as int);
    lemma_lookup(memory, kind, lookup_table(memory, at));
}

/// The import directory of an image is used as it is exactly if it holds good descriptors, fewer
/// than 4096 and than there is room for, with a zero one behind them. Nothing is recovered then.
pub proof fn intact_imports_are_left_alone(
    memory: Seq<u8>,
    base: u64,
    model: PeModelView,
    addresses: AddressMap,
)
    ensures
        ({
            let field = table_field(model) - 88;
            let at = bytes::le32(memory, field) as int;
            let size = bytes::le32(memory, field + 4) as int;
            let plan = imports::import_plan(memory, base, model, addresses);
            &&& plan.existing_valid <==> {
                &&& model.directory_count > 1
                &&& field + 8 <= memory.len()
                &&& at > 0
                &&& size > 0
                &&& exists|count: int|
                    0 < count < 4096 && count < size / 20 && #[trigger] descriptors_good(
                        memory,
                        model.kind,
                        at,
                        count,
                    )
            }
            &&& plan.existing_valid ==> plan.groups.len() == 0 && plan.recovered == 0
        }),
{
    let field = table_field(model) - 88;
    let at = bytes::le32(memory, field) as int;
    let size = bytes::le32(memory, field + 4) as int;
    assert(model.directory_at(1) == field);
    assert forall|count: int| 0 < count implies #[trigger] imports::descriptors_end(
        memory,
        model.kind,
        at,
        count,
    ) == descriptors_good(memory, model.kind, at, count) by {
        lemma_descriptor(memory, model.kind, at + 20 * count);
        if imports::descriptors_end(memory, model.kind, at, count) {
            assert forall|i: int| 0 <= i < count implies #[trigger] descriptor_good(
                memory,
                model.kind,
                at + 20 * i,
            ) by {
                lemma_descriptor(memory, model.kind, at + 20 * i);
                assert(imports::descriptor_valid(memory, model.kind, at + 20 * i));
            }
        }
        if descriptors_good(memory, model.kind, at, count) {
            assert forall|i: int| 0 <= i < count implies #[trigger] imports::descriptor_valid(
                memory,
                model.kind,
                at + 20 * i,
            ) by {
                lemma_descriptor(memory, model.kind, at + 20 * i);
                assert(descriptor_good(memory, model.kind, at + 20 * i));
            }
        }
    }
    if imports::imports_intact(memory, model) {
        let count = choose|count: int|
            0 < count && count < size / 20 && count < 4096 && #[trigger] imports::descriptors_end(
                memory,
                model.kind,
                at,
                count,
            );
        assert(descriptors_good(memory, model.kind, at, count));
    }
    if exists|count: int|
        0 < count < 4096 && count < size / 20 && #[trigger] descriptors_good(
            memory,
            model.kind,
            at,
            count,
        ) {
        let count = choose|count: int|
            0 < count < 4096 && count < size / 20 && #[trigger] descriptors_good(
                memory,
                model.kind,
                at,
                count,
            );
        assert(imports::descriptors_end(memory, model.kind, at, count));
    }
    if !imports::imports_intact(memory, model) {
        lemma_sections_grow(memory, base, model, addresses, 0, model.sections.len());
    }
}

/// The part of a run from `first` up to `last`, as a group.
pub open spec fn part_of(
    symbols: Seq<ExportView>,
    from: int,
    width: int,
    first: int,
    last: int,
) -> GroupView {
    GroupView {
        module: symbols[first].module,
        first_thunk: (from + first * width) as u32,
        entries: imports_of(symbols.subrange(first, last)),
    }
}

/// The group is one of the plan before, or part of the run.
spec fn explained(
    plan: PlanView,
    symbols: Seq<ExportView>,
    from: int,
    width: int,
    group: GroupView,
) -> bool {
    plan.groups.contains(group) || exists|first: int, last: int| #[trigger]
        one_module(symbols, first, last) && group == part_of(symbols, from, width, first, last)
}

proof fn lemma_closed_group(
    before: PlanView,
    plan: PlanView,
    symbols: Seq<ExportView>,
    from: int,
    width: int,
    first: int,
    last: int,
)
    requires
        forall|group: GroupView| #[trigger]
            plan.groups.contains(group) ==> explained(before, symbols, from, width, group),
        0 <= first < last <= symbols.len(),
        last - first >= 2 ==> one_module(symbols, first, last),
    ensures
        forall|group: GroupView| #[trigger]
            plan.with_group(part_of(symbols, from, width, first, last)).groups.contains(group)
                ==> explained(before, symbols, from, width, group),
{
    let added = part_of(symbols, from, width, first, last);
    let after = plan.with_group(added);
    assert(added.entries.len() == last - first);
    assert forall|group: GroupView| #[trigger] after.groups.contains(group) implies explained(
        before,
        symbols,
        from,
        width,
        group,
    ) by {
        let i = choose|i: int| 0 <= i < after.groups.len() && after.groups[i] == group;
        if i < plan.groups.len() {
            assert(plan.groups[i] == group);
            assert(plan.groups.contains(group));
        } else {
            assert(group == added);
            assert(one_module(symbols, first, last));
        }
    }
}

proof fn lemma_groups_explained(
    plan: PlanView,
    entries: Seq<(u32, ExportView)>,
    symbols: Seq<ExportView>,
    from: int,
    width: int,
    count: nat,
) -> (first: int)
    requires
        consecutive(entries, symbols, from, width),
        0 < count <= symbols.len(),
        0 <= from,
        0 < width,
        from + symbols.len() * width <= u32::MAX,
    ensures
        0 <= first < count,
        imports::grouped(plan, entries, width, count).open == Some(
            part_of(symbols, from, width, first, count as int),
        ),
        forall|k: int|
            first <= k < count ==> text::same_letters(
                symbols[first].module,
                (#[trigger] symbols[k]).module,
            ),
        first > 0 ==> !text::same_letters(symbols[first - 1].module, symbols[first].module),
        forall|group: GroupView| #[trigger]
            imports::grouped(plan, entries, width, count).plan.groups.contains(group) ==> explained(
                plan,
                symbols,
                from,
                width,
                group,
            ),
    decreases count,
{
    let fewer = (count - 1) as nat;
    let before = imports::grouped(plan, entries, width, fewer);
    let next = symbols[count - 1];
    assert(entries[count - 1].0 == from + (count - 1) * width);
    assert(entries[count - 1].1 == next);
    assert(0 <= (count - 1) * width <= symbols.len() * width) by (nonlinear_arith)
        requires
            1 <= count <= symbols.len(),
            0 < width,
    ;
    if fewer == 0 {
        assert(symbols.subrange(0, 1) =~= seq![next]);
        assert(imports_of(symbols.subrange(0, 1)) =~= seq![imports::import_of(next)]);
        assert(0 * width == 0);
        0
    } else {
        let first = lemma_groups_explained(plan, entries, symbols, from, width, fewer);
        let group = part_of(symbols, from, width, first, fewer as int);
        let earlier = symbols.subrange(first, fewer as int);
        assert(group.entries.len() == fewer - first);
        assert(first * width + (fewer - first) * width == fewer * width) by (nonlinear_arith);
        assert(0 <= first * width <= symbols.len() * width) by (nonlinear_arith)
            requires
                0 <= first <= symbols.len(),
                0 < width,
        ;
        assert(imports::continues(group, entries[count - 1].0, next, width) <==> text::same_letters(
            symbols[first].module,
            next.module,
        ));
        assert(text::same_letters(symbols[first].module, symbols[fewer - 1].module));
        if text::same_letters(symbols[first].module, next.module) {
            let longer = symbols.subrange(first, count as int);
            assert(longer =~= earlier.push(next));
            assert(imports_of(longer) =~= imports_of(earlier).push(imports::import_of(next)));
            first
        } else {
            assert(fewer - first >= 2 ==> one_module(symbols, first, fewer as int));
            lemma_closed_group(plan, before.plan, symbols, from, width, first, fewer as int);
            assert(symbols.subrange(fewer as int, count as int) =~= seq![next]);
            assert(imports_of(symbols.subrange(fewer as int, count as int)) =~= seq![
                imports::import_of(next),
            ]);
            fewer as int
        }
    }
}

proof fn lemma_with_groups_explained(
    plan: PlanView,
    entries: Seq<(u32, ExportView)>,
    symbols: Seq<ExportView>,
    from: int,
    width: int,
)
    requires
        consecutive(entries, symbols, from, width),
        0 < symbols.len(),
        0 <= from,
        0 < width,
        from + symbols.len() * width <= u32::MAX,
    ensures
        forall|group: GroupView| #[trigger]
            imports::with_groups(plan, entries, width).groups.contains(group) ==> explained(
                plan,
                symbols,
                from,
                width,
                group,
            ),
{
    let count = symbols.len();
    let first = lemma_groups_explained(plan, entries, symbols, from, width, count);
    let before = imports::grouped(plan, entries, width, count);
    lemma_closed_group(plan, before.plan, symbols, from, width, first, count as int);
}

/// What is searched of a section is where its imports are looked for.
proof fn lemma_searched(
    memory: Seq<u8>,
    model: PeModelView,
    section: SectionView,
    start: int,
    end: int,
)
    requires
        section.name.len() == 8,
        imports::holds_data(section.characteristics),
        imports::trusted_range(section, imports::declared_table(memory, model)) == Some(
            (start, end),
        ),
    ensures
        forall|other: int|
            start <= other < end && other < memory.len() <==> #[trigger] looked_for(
                memory,
                model,
                section,
                other,
            ),
        0 <= start,
        end <= u32::MAX,
{
    lemma_import_name(section.name);
    let table = imports::declared_table(memory, model);
    assert(model.directory_at(12) == table_field(model));
    assert forall|low: int, high: int| #[trigger]
        table_declared(memory, model, low, high) <==> table == Some((low, high)) by {}
    if let Some((low, high)) = table {
        assert(table_declared(memory, model, low, high));
        assert forall|other: int| #[trigger] in_table(memory, model, other) <==> low <= other
            < high by {}
        let from = if low > section.virtual_address {
            low
        } else {
            section.virtual_address as int
        };
        if from < high && from < behind(section) && from < 0xFFFF_FFFF {
            assert(in_table(memory, model, from));
        }
    } else {
        assert forall|other: int| !#[trigger] in_table(memory, model, other) by {}
    }
}

/// The group is a part of one module of a run of slots of the section.
pub open spec fn recoverable(
    memory: Seq<u8>,
    base: u64,
    model: PeModelView,
    addresses: AddressMap,
    section: SectionView,
    group: GroupView,
) -> bool {
    exists|from: int, symbols: Seq<ExportView>, first: int, last: int|
        #![trigger run_at(memory, base, model, addresses, section, from, symbols), one_module(symbols, first, last)]
        run_at(memory, base, model, addresses, section, from, symbols) && one_module(
            symbols,
            first,
            last,
        ) && group == part_of(symbols, from, slot_width(model.kind), first, last)
}

proof fn lemma_run_slots(
    memory: Seq<u8>,
    base: u64,
    kind: PeKind,
    addresses: AddressMap,
    offset: int,
    end: int,
    most: nat,
    k: int,
)
    requires
        offset <= end,
        0 <= k < imports::run_length(memory, base, kind, addresses, offset, end, most),
    ensures
        imports::slot_at(memory, base, kind, addresses, offset + k * kind.pointer_width())
            is Symbol,
    decreases most,
{
    let width = kind.pointer_width();
    if k == 0 {
        assert(offset + 0 * width == offset);
    } else {
        let next = offset + width;
        assert(next + (k - 1) * width == offset + k * width) by (nonlinear_arith)
            requires
                next == offset + width,
        ;
        lemma_run_slots(memory, base, kind, addresses, next, end, (most - 1) as nat, k - 1);
    }
}

proof fn lemma_run_ends(
    memory: Seq<u8>,
    base: u64,
    kind: PeKind,
    addresses: AddressMap,
    offset: int,
    end: int,
    most: nat,
)
    requires
        offset <= end,
    ensures
        imports::run_length(memory, base, kind, addresses, offset, end, most) <= most,
        offset + imports::run_length(memory, base, kind, addresses, offset, end, most)
            * kind.pointer_width() <= end,
    decreases most,
{
    let width = kind.pointer_width();
    let count = imports::run_length(memory, base, kind, addresses, offset, end, most);
    if count > 0 {
        let next = offset + width;
        lemma_run_ends(memory, base, kind, addresses, next, end, (most - 1) as nat);
        let fewer = (count - 1) as nat;
        assert(next + fewer * width == offset + count * width) by (nonlinear_arith)
            requires
                next == offset + width,
                fewer == count - 1,
        ;
    } else {
        assert(0 * width == 0);
    }
}

proof fn lemma_run_explained(
    plan: PlanView,
    memory: Seq<u8>,
    base: u64,
    model: PeModelView,
    addresses: AddressMap,
    section: SectionView,
    low: int,
    high: int,
    start: int,
    offset: int,
)
    requires
        section.name.len() == 8,
        imports::holds_data(section.characteristics),
        imports::trusted_range(section, imports::declared_table(memory, model)) == Some(
            (low, high),
        ),
        low <= start < low + slot_width(model.kind),
        start <= offset <= layout::least(high, memory.len() as int),
        start % slot_width(model.kind) == 0,
        offset % slot_width(model.kind) == 0,
    ensures
        forall|group: GroupView| #[trigger]
            imports::with_run(
                plan,
                memory,
                base,
                model.kind,
                addresses,
                start,
                offset,
                layout::least(high, memory.len() as int),
            ).groups.contains(group) ==> plan.groups.contains(group) || recoverable(
                memory,
                base,
                model,
                addresses,
                section,
                group,
            ),
{
    let kind = model.kind;
    let width = kind.pointer_width();
    let end = layout::least(high, memory.len() as int);
    let count = imports::run_length(memory, base, kind, addresses, offset, end, 65536);
    let stop = offset + count * width;
    lemma_width(kind);
    lemma_searched(memory, model, section, low, high);
    lemma_run_ends(memory, base, kind, addresses, offset, end, 65536);
    let result = imports::with_run(plan, memory, base, kind, addresses, start, offset, end);
    let clean_start = offset == start || (offset >= width && imports::pointer_at(
        memory,
        offset - width,
        kind,
    ) == Some(0u64));
    let clean_end = imports::pointer_at(memory, stop, kind) == Some(0u64) || stop == end;
    if count >= 2 && clean_start && clean_end {
        let entries = imports::run_entries(memory, base, kind, addresses, offset, count);
        let symbols = Seq::new(
            count,
            |k: int|
                imports::slot_at(memory, base, kind, addresses, offset + k * width)->Symbol_0,
        );
        let counted = PlanView {
            ambiguous: layout::least(plan.ambiguous + 1, usize::MAX as int),
            ..plan
        };
        assert forall|k: int| 0 <= k < count implies 0 <= #[trigger] (k * width) && k * width + width
            <= count * width by {
            assert(0 <= k * width && k * width + width <= count * width) by (nonlinear_arith)
                requires
                    0 <= k < count,
                    width > 0,
            ;
        }
        assert(2 * width <= count * width) by (nonlinear_arith)
            requires
                count >= 2,
                width > 0,
        ;
        assert forall|k: int| #![trigger symbols[k]] 0 <= k < symbols.len() implies slot_leads_to(
            memory,
            base,
            kind,
            addresses,
            offset + k * width,
            symbols[k],
        ) by {
            assert(0 <= k * width && k * width + width <= count * width);
            lemma_run_slots(memory, base, kind, addresses, offset, end, 65536, k);
            slots_hold_what_they_lead_to(memory, base, kind, addresses, offset + k * width);
            assert(imports::slot_at(memory, base, kind, addresses, offset + k * width)
                == SlotView::Symbol(symbols[k]));
            assert(slot_leads_to(memory, base, kind, addresses, offset + k * width, symbols[k]));
        }
        assert(consecutive(entries, symbols, offset, width)) by {
            assert forall|k: int| 0 <= k < symbols.len() implies (#[trigger] entries[k]).0 == offset
                + k * width && entries[k].1 == symbols[k] by {
                assert(0 <= k * width && k * width + width <= count * width);
            }
        }
        assert(looked_for(memory, model, section, offset));
        assert(looked_for(memory, model, section, stop - 1));
        if looked_for(memory, model, section, offset - width) {
            assert(low <= offset - width);
            assert(offset != start);
        }
        if looked_for(memory, model, section, stop) {
            assert(stop < end);
        }
        assert(run_at(memory, base, model, addresses, section, offset, symbols));
        lemma_with_groups_explained(plan, entries, symbols, offset, width);
        lemma_with_groups_explained(counted, entries, symbols, offset, width);
        assert forall|group: GroupView| #[trigger] result.groups.contains(group) implies
            plan.groups.contains(group) || recoverable(
            memory,
            base,
            model,
            addresses,
            section,
            group,
        ) by {
            assert(explained(plan, symbols, offset, width, group));
            if !plan.groups.contains(group) {
                let (first, last) = choose|first: int, last: int| #[trigger]
                    one_module(symbols, first, last) && group == part_of(
                        symbols,
                        offset,
                        width,
                        first,
                        last,
                    );
                assert(run_at(memory, base, model, addresses, section, offset, symbols)
                    && one_module(symbols, first, last));
            }
        }
    }
}

proof fn lemma_next_place(offset: int, count: nat, width: int)
    requires
        width == 4 || width == 8,
        offset % width == 0,
    ensures
        (offset + count * width) % width == 0,
        1 * width == width,
{
    vstd::arithmetic::div_mod::lemma_mod_multiples_vanish(count as int, offset, width);
    vstd::arithmetic::mul::lemma_mul_is_commutative(count as int, width);
}

proof fn lemma_scan_explained(
    plan: PlanView,
    memory: Seq<u8>,
    base: u64,
    model: PeModelView,
    addresses: AddressMap,
    section: SectionView,
    low: int,
    high: int,
    start: int,
    offset: int,
    group: GroupView,
)
    requires
        section.name.len() == 8,
        imports::holds_data(section.characteristics),
        imports::trusted_range(section, imports::declared_table(memory, model)) == Some(
            (low, high),
        ),
        low <= start < low + slot_width(model.kind),
        start <= offset,
        start % slot_width(model.kind) == 0,
        offset % slot_width(model.kind) == 0,
        imports::with_scan(
            plan,
            memory,
            base,
            model.kind,
            addresses,
            start,
            offset,
            layout::least(high, memory.len() as int),
        ).groups.contains(group),
    ensures
        plan.groups.contains(group) || recoverable(
            memory,
            base,
            model,
            addresses,
            section,
            group,
        ),
    decreases layout::least(high, memory.len() as int) - offset,
{
    let kind = model.kind;
    let width = kind.pointer_width();
    let end = layout::least(high, memory.len() as int);
    let count = imports::run_length(memory, base, kind, addresses, offset, end, 65536);
    lemma_width(kind);
    if !(offset + width > end || plan.recovered >= 65536) {
        let next = if count == 0 {
            offset + width
        } else {
            offset + count * width
        };
        let after = imports::with_run(plan, memory, base, kind, addresses, start, offset, end);
        lemma_run_explained(
            plan,
            memory,
            base,
            model,
            addresses,
            section,
            low,
            high,
            start,
            offset,
        );
        assert(count > 0 ==> count * width >= count) by (nonlinear_arith)
            requires
                width >= 1,
        ;
        lemma_next_place(offset, 1, width);
        lemma_next_place(offset, count, width);
        if next <= end {
            lemma_scan_explained(
                after,
                memory,
                base,
                model,
                addresses,
                section,
                low,
                high,
                start,
                next,
                group,
            );
        }
    }
}

proof fn lemma_sections_explained(
    memory: Seq<u8>,
    base: u64,
    model: PeModelView,
    addresses: AddressMap,
    count: nat,
    group: GroupView,
)
    requires
        model.valid(),
        count <= model.sections.len(),
        imports::with_sections(memory, base, model, addresses, count).groups.contains(group),
    ensures
        exists|section: int|
            0 <= section < count && recoverable(
                memory,
                base,
                model,
                addresses,
                #[trigger] model.sections[section],
                group,
            ),
    decreases count,
{
    if count > 0 {
        let fewer = (count - 1) as nat;
        let before = imports::with_sections(memory, base, model, addresses, fewer);
        let section = model.sections[count - 1];
        let width = model.kind.pointer_width();
        lemma_width(model.kind);
        if before.groups.contains(group) {
            lemma_sections_explained(memory, base, model, addresses, fewer, group);
        } else if let Some((low, high)) = imports::trusted_range(
            section,
            imports::declared_table(memory, model),
        ) {
            let aligned = layout::aligned(low, width);
            layout::aligned_is_least_multiple(low, width);
            lemma_searched(memory, model, section, low, high);
            assert(low <= u32::MAX) by {
                assert(low <= high);
            }
            if aligned <= usize::MAX {
                lemma_scan_explained(
                    before,
                    memory,
                    base,
                    model,
                    addresses,
                    section,
                    low,
                    high,
                    aligned,
                    aligned,
                    group,
                );
            }
            assert(recoverable(memory, base, model, addresses, section, group));
        }
    } else {
        assert(imports::with_sections(memory, base, model, addresses, count).groups.len() == 0);
    }
}

/// Every group of the plan is recovered from a run of slots: from a place where imports are looked
/// for, clean at both of its ends, and with symbols that its slots lead to. It has all symbols of
/// its module that stand together there, and no other.
pub proof fn groups_are_runs_of_slots(
    memory: Seq<u8>,
    base: u64,
    model: PeModelView,
    addresses: AddressMap,
    group: GroupView,
)
    requires
        model.valid(),
        imports::import_plan(memory, base, model, addresses).groups.contains(group),
    ensures
        exists|section: int|
            0 <= section < model.sections.len() && recoverable(
                memory,
                base,
                model,
                addresses,
                #[trigger] model.sections[section],
                group,
            ),
{
    assert(!imports::imports_intact(memory, model)) by {
        if imports::imports_intact(memory, model) {
            assert(imports::import_plan(memory, base, model, addresses).groups.len() == 0);
        }
    }
    lemma_sections_explained(memory, base, model, addresses, model.sections.len(), group);
}

/// A slot that leads to several modules is counted, and ends the run before it.
pub proof fn disputed_slots_are_counted(
    plan: PlanView,
    memory: Seq<u8>,
    base: u64,
    kind: PeKind,
    addresses: AddressMap,
    start: int,
    offset: int,
    end: int,
)
    requires
        0 <= offset <= u32::MAX,
        offset + slot_width(kind) <= end,
        plan.ambiguous < usize::MAX,
        forall|symbol: ExportView|
            !#[trigger] slot_leads_to(memory, base, kind, addresses, offset, symbol),
    ensures
        imports::with_run(plan, memory, base, kind, addresses, start, offset, end).ambiguous
            == plan.ambiguous + if slot_disputed(memory, base, kind, addresses, offset) {
            1int
        } else {
            0
        },
        imports::with_run(plan, memory, base, kind, addresses, start, offset, end).groups
            == plan.groups,
{
    slots_hold_what_they_lead_to(memory, base, kind, addresses, offset);
    let slot = imports::slot_at(memory, base, kind, addresses, offset);
    if let SlotView::Symbol(symbol) = slot {
        assert(slot_leads_to(memory, base, kind, addresses, offset, symbol));
    }
    assert(imports::run_length(memory, base, kind, addresses, offset, end, 65536) == 0);
    assert(0 * kind.pointer_width() == 0);
}

/// How many imports the groups have together.
pub open spec fn import_total(groups: Seq<GroupView>) -> int
    decreases groups.len(),
{
    if groups.len() == 0 {
        0
    } else {
        import_total(groups.drop_last()) + groups.last().entries.len()
    }
}

spec fn counted(plan: PlanView) -> bool {
    plan.recovered == layout::least(import_total(plan.groups), usize::MAX as int)
}

proof fn lemma_group_counted(plan: PlanView, group: GroupView)
    requires
        counted(plan),
    ensures
        counted(plan.with_group(group)),
{
    let after = plan.with_group(group);
    if !(group.entries.len() < 2 || plan.groups.len() >= 4096) {
        assert(after.groups.drop_last() =~= plan.groups);
        assert(after.groups.last() == group);
    }
}

proof fn lemma_groups_counted(
    plan: PlanView,
    entries: Seq<(u32, ExportView)>,
    width: int,
    count: nat,
)
    requires
        counted(plan),
    ensures
        counted(imports::grouped(plan, entries, width, count).plan),
        counted(imports::grouped(plan, entries, width, count).close()),
    decreases count,
{
    if count > 0 {
        lemma_groups_counted(plan, entries, width, (count - 1) as nat);
    }
    let last = imports::grouped(plan, entries, width, count);
    if let Some(group) = last.open {
        lemma_group_counted(last.plan, group);
    }
}

proof fn lemma_scan_counted(
    plan: PlanView,
    memory: Seq<u8>,
    base: u64,
    kind: PeKind,
    addresses: AddressMap,
    start: int,
    offset: int,
    end: int,
)
    requires
        counted(plan),
    ensures
        counted(imports::with_scan(plan, memory, base, kind, addresses, start, offset, end)),
    decreases end - offset,
{
    let width = kind.pointer_width();
    let count = imports::run_length(memory, base, kind, addresses, offset, end, 65536);
    if !(offset + width > end || plan.recovered >= 65536) {
        let next = if count == 0 {
            offset + width
        } else {
            offset + count * width
        };
        let after = imports::with_run(plan, memory, base, kind, addresses, start, offset, end);
        let noted = PlanView {
            ambiguous: layout::least(plan.ambiguous + 1, usize::MAX as int),
            ..plan
        };
        let entries = imports::run_entries(memory, base, kind, addresses, offset, count);
        lemma_groups_counted(plan, entries, width, entries.len());
        lemma_groups_counted(noted, entries, width, entries.len());
        assert(counted(after));
        assert(count > 0 ==> count * width >= count) by (nonlinear_arith)
            requires
                width >= 1,
        ;
        if next <= end {
            lemma_scan_counted(after, memory, base, kind, addresses, start, next, end);
        }
    }
}

proof fn lemma_sections_counted(
    memory: Seq<u8>,
    base: u64,
    model: PeModelView,
    addresses: AddressMap,
    count: nat,
)
    ensures
        counted(imports::with_sections(memory, base, model, addresses, count)),
    decreases count,
{
    if count > 0 {
        let before = imports::with_sections(memory, base, model, addresses, (count - 1) as nat);
        lemma_sections_counted(memory, base, model, addresses, (count - 1) as nat);
        if let Some((start, end)) = imports::trusted_range(
            model.sections[count - 1],
            imports::declared_table(memory, model),
        ) {
            let first = layout::least(
                layout::aligned(start, model.kind.pointer_width()),
                usize::MAX as int,
            );
            lemma_scan_counted(
                before,
                memory,
                base,
                model.kind,
                addresses,
                first,
                first,
                layout::least(end, memory.len() as int),
            );
        }
    }
}

/// The number of recovered imports is that of all groups together.
pub proof fn recovered_imports_are_counted(
    memory: Seq<u8>,
    base: u64,
    model: PeModelView,
    addresses: AddressMap,
)
    ensures
        ({
            let plan = imports::import_plan(memory, base, model, addresses);
            plan.recovered < usize::MAX ==> plan.recovered == import_total(plan.groups)
        }),
{
    lemma_sections_counted(memory, base, model, addresses, model.sections.len());
}

} // verus!
