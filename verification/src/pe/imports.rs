//! Finding the imports of an image: in its import directory, or else by the addresses in its
//! import address tables.

use vstd::prelude::*;

use crate::pe::bytes;
use crate::pe::directories::{IAT_DIRECTORY, IMPORT_DIRECTORY};
use crate::pe::exports::{
    directory, is_ascii, read_u32, AddressMap, ExportIndex, ExportView, ResolvedExport,
};
use crate::pe::exports;
use crate::pe::image;
use crate::pe::layout;
use crate::pe::recover::{IMAGE_SCN_MEM_EXECUTE, IMAGE_SCN_MEM_READ, IMAGE_SCN_MEM_WRITE};
use crate::pe::{PeImage, PeKind, PeModel, PeModelView, SectionModel, SectionView};
use crate::text::eq_ignore_case;
use crate::text;

verus! {

pub const IMPORT_DESCRIPTOR_SIZE: usize = 20;

pub const MAX_IMPORTS: usize = 65_536;

pub const MAX_IMPORT_GROUPS: usize = 4_096;

pub const MAX_IMPORT_NAME: usize = 4_096;

pub const MAX_THUNK_DEPTH: usize = 4;

/// The address of the target at `at`, if it is there.
pub open spec fn pointer_at(bytes: Seq<u8>, at: int, kind: PeKind) -> Option<u64> {
    if at + kind.pointer_width() > bytes.len() {
        None
    } else {
        match kind {
            PeKind::Pe32 => Some(bytes::le32(bytes, at) as u64),
            PeKind::Pe32Plus => Some(bytes::le64(bytes, at)),
        }
    }
}

/// The bytes of an address in an image of this format.
pub fn pointer_width(kind: PeKind) -> (width: usize)
    ensures
        width == kind.pointer_width(),
{
    match kind {
        PeKind::Pe32 => 4,
        PeKind::Pe32Plus => 8,
    }
}

/// Reads an address of the target.
pub fn read_pointer(bytes: &[u8], offset: usize, kind: PeKind) -> (value: Option<u64>)
    ensures
        value == pointer_at(bytes@, offset as int, kind),
{
    match image::read_pointer(bytes, offset, kind) {
        Ok(value) => Some(value),
        Err(_) => {
            assert(bytes.len() == bytes@.len());
            None
        },
    }
}

/// Tests for a zero-terminated ASCII name at `offset`.
pub fn read_ascii(bytes: &[u8], offset: usize) -> (found: Option<()>)
    ensures
        found is Some <==> exports::name_bytes(bytes@, offset as int) is Some,
{
    match image::terminated(bytes, offset, MAX_IMPORT_NAME) {
        Some(part) => if is_ascii(part) {
            Some(())
        } else {
            None
        },
        None => None,
    }
}

/// The flag that marks a thunk with an ordinal.
pub open spec fn ordinal_flag(kind: PeKind) -> u64 {
    match kind {
        PeKind::Pe32 => 0x8000_0000,
        PeKind::Pe32Plus => 0x8000_0000_0000_0000,
    }
}

/// The thunk with this index has an ordinal, or leads to a name.
pub open spec fn thunk_valid(memory: Seq<u8>, kind: PeKind, table: int, index: int) -> bool {
    let value = pointer_at(memory, table + index * kind.pointer_width(), kind);
    &&& value is Some
    &&& value->0 != 0
    &&& (value->0 & ordinal_flag(kind) != 0 || exports::name_bytes(memory, value->0 + 2) is Some)
}

/// The table has `count` valid thunks and then a zero.
pub open spec fn thunks_end(memory: Seq<u8>, kind: PeKind, table: int, count: int) -> bool {
    &&& 0 <= count < MAX_IMPORTS
    &&& pointer_at(memory, table + count * kind.pointer_width(), kind) == Some(0u64)
    &&& forall|i: int| 0 <= i < count ==> #[trigger] thunk_valid(memory, kind, table, i)
}

/// Where the thunks of a descriptor stand.
pub open spec fn thunk_table(original: u32, first: u32) -> int {
    if original != 0 {
        original as int
    } else {
        first as int
    }
}

/// A thunk table: one or more valid thunks and then a zero.
pub open spec fn thunks_valid(memory: Seq<u8>, kind: PeKind, table: int) -> bool {
    exists|count: int| count > 0 && #[trigger] thunks_end(memory, kind, table, count)
}

/// A name that is not in the image is none.
proof fn lemma_no_name(memory: Seq<u8>, at: int)
    requires
        at >= memory.len(),
    ensures
        exports::name_bytes(memory, at) is None,
{
}

/// Checks a thunk table.
pub fn thunk_table_is_valid(memory: &[u8], kind: PeKind, original: u32, first: u32) -> (valid: bool)
    ensures
        valid == thunks_valid(memory@, kind, thunk_table(original, first)),
{
    assert(memory.len() == memory@.len());
    let table: usize = if original != 0 {
        original as usize
    } else {
        first as usize
    };
    let width: usize = pointer_width(kind);
    let flag: u64 = match kind {
        PeKind::Pe32 => 0x8000_0000,
        PeKind::Pe32Plus => 0x8000_0000_0000_0000,
    };
    let mut index: usize = 0;
    while index < MAX_IMPORTS
        invariant
            index <= MAX_IMPORTS,
            memory.len() == memory@.len(),
            width == kind.pointer_width(),
            flag == ordinal_flag(kind),
            table == thunk_table(original, first),
            forall|i: int|
                0 <= i < index ==> #[trigger] thunk_valid(memory@, kind, table as int, i),
        decreases MAX_IMPORTS - index,
    {
        let ghost at = table + index * kind.pointer_width();
        proof {
            assert(index * width == index * 4 || index * width == index * 8);
            assert forall|count: int|
                count > 0 && !thunk_valid(memory@, kind, table as int, index as int)
                    && pointer_at(memory@, at, kind) != Some(0u64) implies !#[trigger] thunks_end(
                memory@,
                kind,
                table as int,
                count,
            ) by {
                if thunks_end(memory@, kind, table as int, count) {
                    if count > index {
                        assert(thunk_valid(memory@, kind, table as int, index as int));
                    } else if count < index {
                        assert(thunk_valid(memory@, kind, table as int, count));
                    }
                }
            }
        }
        let relative: usize = index * width;
        let offset: usize = match table.checked_add(relative) {
            Some(offset) => offset,
            None => {
                return false;
            },
        };
        let value: u64 = match read_pointer(memory, offset, kind) {
            Some(value) => value,
            None => {
                return false;
            },
        };
        if value == 0 {
            proof {
                assert(thunks_end(memory@, kind, table as int, index as int));
                assert forall|count: int| #[trigger]
                    thunks_end(memory@, kind, table as int, count) implies count == index by {
                    if count > index {
                        assert(thunk_valid(memory@, kind, table as int, index as int));
                    } else if count < index {
                        assert(thunk_valid(memory@, kind, table as int, count));
                    }
                }
            }
            return index > 0;
        }
        if value & flag == 0 {
            if value >= memory.len() as u64 {
                proof {
                    lemma_no_name(memory@, value + 2);
                }
                return false;
            }
            if memory.len() - (value as usize) <= 2 {
                proof {
                    lemma_no_name(memory@, value + 2);
                }
                return false;
            }
            if read_ascii(memory, value as usize + 2).is_none() {
                return false;
            }
        }
        assert(thunk_valid(memory@, kind, table as int, index as int));
        index = index + 1;
    }
    proof {
        assert forall|count: int| count > 0 implies !#[trigger] thunks_end(
            memory@,
            kind,
            table as int,
            count,
        ) by {
            if thunks_end(memory@, kind, table as int, count) {
                assert(thunk_valid(memory@, kind, table as int, count));
            }
        }
    }
    false
}

/// The import descriptor at `at` is the zero that ends the list.
pub open spec fn descriptor_ends(memory: Seq<u8>, at: int) -> bool {
    &&& at + IMPORT_DESCRIPTOR_SIZE <= memory.len()
    &&& forall|i: int| 0 <= i < IMPORT_DESCRIPTOR_SIZE ==> #[trigger] memory[at + i] == 0
}

/// The import descriptor at `at` has a module name and a valid thunk table.
pub open spec fn descriptor_valid(memory: Seq<u8>, kind: PeKind, at: int) -> bool {
    &&& at + IMPORT_DESCRIPTOR_SIZE <= memory.len()
    &&& !descriptor_ends(memory, at)
    &&& exports::name_bytes(memory, bytes::le32(memory, at + 12) as int) is Some
    &&& thunks_valid(
        memory,
        kind,
        thunk_table(bytes::le32(memory, at), bytes::le32(memory, at + 16)),
    )
}

/// The list at `at` has `count` valid import descriptors and then a zero.
pub open spec fn descriptors_end(memory: Seq<u8>, kind: PeKind, at: int, count: int) -> bool {
    &&& descriptor_ends(memory, at + IMPORT_DESCRIPTOR_SIZE * count)
    &&& forall|i: int|
        0 <= i < count ==> #[trigger] descriptor_valid(
            memory,
            kind,
            at + IMPORT_DESCRIPTOR_SIZE * i,
        )
}

/// A directory of `size` bytes at `at` holds one or more valid import descriptors and their end.
pub open spec fn descriptors_intact(memory: Seq<u8>, kind: PeKind, at: int, size: int) -> bool {
    exists|count: int|
        0 < count && count < size / 20 && count < MAX_IMPORT_GROUPS && #[trigger] descriptors_end(
            memory,
            kind,
            at,
            count,
        )
}

/// The import directory of the image is intact.
pub open spec fn imports_intact(memory: Seq<u8>, model: PeModelView) -> bool {
    match exports::directory_of(memory, model, IMPORT_DIRECTORY as int) {
        None => false,
        Some((rva, size)) => descriptors_intact(memory, model.kind, rva as int, size as int),
    }
}

/// Tests for the zero that ends a list of import descriptors.
fn is_last_descriptor(memory: &[u8], at: usize) -> (last: bool)
    requires
        at + IMPORT_DESCRIPTOR_SIZE <= memory.len(),
    ensures
        last == descriptor_ends(memory@, at as int),
{
    let mut index: usize = 0;
    while index < IMPORT_DESCRIPTOR_SIZE
        invariant
            index <= IMPORT_DESCRIPTOR_SIZE,
            at + IMPORT_DESCRIPTOR_SIZE <= memory.len(),
            forall|i: int| 0 <= i < index ==> #[trigger] memory@[at + i] == 0,
        decreases IMPORT_DESCRIPTOR_SIZE - index,
    {
        if memory[at + index] != 0 {
            return false;
        }
        index = index + 1;
    }
    true
}

proof fn lemma_one_end(memory: Seq<u8>, kind: PeKind, at: int, count: int, place: int)
    requires
        0 <= place,
        0 <= count,
        descriptors_end(memory, kind, at, count),
        forall|i: int|
            0 <= i < place ==> #[trigger] descriptor_valid(
                memory,
                kind,
                at + IMPORT_DESCRIPTOR_SIZE * i,
            ),
    ensures
        count >= place,
        count > place ==> descriptor_valid(memory, kind, at + IMPORT_DESCRIPTOR_SIZE * place),
{
    if count < place {
        assert(descriptor_valid(memory, kind, at + IMPORT_DESCRIPTOR_SIZE * count));
    }
    if count > place {
        assert(descriptor_valid(memory, kind, at + IMPORT_DESCRIPTOR_SIZE * place));
    }
}

/// Checks one import descriptor.
fn is_valid_descriptor(memory: &[u8], kind: PeKind, at: usize) -> (valid: bool)
    requires
        at + IMPORT_DESCRIPTOR_SIZE <= memory.len(),
        !descriptor_ends(memory@, at as int),
    ensures
        valid == descriptor_valid(memory@, kind, at as int),
{
    let original: u32 = match read_u32(memory, at) {
        Some(value) => value,
        None => {
            return false;
        },
    };
    let name_rva: u32 = match read_u32(memory, at + 12) {
        Some(value) => value,
        None => {
            return false;
        },
    };
    let first: u32 = match read_u32(memory, at + 16) {
        Some(value) => value,
        None => {
            return false;
        },
    };
    read_ascii(memory, name_rva as usize).is_some() && thunk_table_is_valid(
        memory,
        kind,
        original,
        first,
    )
}

/// Checks whether the import directory is intact.
pub fn existing_imports_are_valid(memory: &[u8], model: &PeModel) -> (valid: bool)
    ensures
        valid == imports_intact(memory@, model@),
{
    assert(memory.len() == memory@.len());
    let found: (u32, u32) = match directory(memory, model, IMPORT_DIRECTORY) {
        Some(found) => found,
        None => {
            return false;
        },
    };
    let start: usize = found.0 as usize;
    let listed: usize = found.1 as usize / IMPORT_DESCRIPTOR_SIZE;
    let most: usize = if listed < MAX_IMPORT_GROUPS {
        listed
    } else {
        MAX_IMPORT_GROUPS
    };
    let kind: PeKind = model.kind();
    let mut index: usize = 0;
    while index < most
        invariant
            index <= most,
            memory.len() == memory@.len(),
            kind == model@.kind,
            exports::directory_of(memory@, model@, IMPORT_DIRECTORY as int) == Some(found),
            start == found.0,
            most <= found.1 / 20,
            most <= MAX_IMPORT_GROUPS,
            most == found.1 / 20 || most == MAX_IMPORT_GROUPS,
            forall|i: int|
                0 <= i < index ==> #[trigger] descriptor_valid(
                    memory@,
                    kind,
                    start + IMPORT_DESCRIPTOR_SIZE * i,
                ),
        decreases most - index,
    {
        proof {
            assert forall|count: int|
                0 < count && #[trigger] descriptors_end(
                    memory@,
                    kind,
                    start as int,
                    count,
                ) implies count >= index && (count > index ==> descriptor_valid(
                memory@,
                kind,
                start + IMPORT_DESCRIPTOR_SIZE * index,
            )) by {
                lemma_one_end(memory@, kind, start as int, count, index as int);
            }
        }
        let offset: usize = match start.checked_add(IMPORT_DESCRIPTOR_SIZE * index) {
            Some(offset) => offset,
            None => {
                return false;
            },
        };
        if memory.len() < IMPORT_DESCRIPTOR_SIZE || offset > memory.len() - IMPORT_DESCRIPTOR_SIZE {
            return false;
        }
        if is_last_descriptor(memory, offset) {
            assert(descriptors_end(memory@, kind, start as int, index as int));
            assert(!descriptor_valid(memory@, kind, start + IMPORT_DESCRIPTOR_SIZE * index));
            return index > 0;
        }
        if !is_valid_descriptor(memory, kind, offset) {
            return false;
        }
        index = index + 1;
    }
    proof {
        assert forall|count: int|
            0 < count < most implies !#[trigger] descriptors_end(
            memory@,
            kind,
            start as int,
            count,
        ) by {
            if descriptors_end(memory@, kind, start as int, count) {
                lemma_one_end(memory@, kind, start as int, count, index as int);
            }
        }
    }
    false
}

/// Where the jump at `rva` in a 64-bit image leads, if there is one: through a slot of the image,
/// or to an address in the code.
pub open spec fn x64_target(memory: Seq<u8>, base: int, rva: int) -> Option<u64> {
    let displacement = bytes::le32(memory, rva + 2);
    let slot = rva + 6 + if displacement < 0x8000_0000 {
        displacement as int
    } else {
        displacement - 0x1_0000_0000
    };
    if rva + 12 > memory.len() {
        None
    } else if memory[rva] == 0xFF && memory[rva + 1] == 0x25 {
        if base + rva + 6 > i64::MAX || base + slot > i64::MAX || slot < 0 {
            None
        } else {
            pointer_at(memory, slot, PeKind::Pe32Plus)
        }
    } else if memory[rva] == 0x48 && memory[rva + 1] == 0xB8 && memory[rva + 10] == 0xFF
        && memory[rva + 11] == 0xE0 {
        Some(bytes::le64(memory, rva + 2))
    } else {
        None
    }
}

/// Reads a jump of a 64-bit image.
pub fn decode_x64_thunk(memory: &[u8], base: u64, rva: u64) -> (target: Option<u64>)
    ensures
        target == x64_target(memory@, base as int, rva as int),
{
    assert(memory.len() == memory@.len());
    if memory.len() < 12 || rva > (memory.len() - 12) as u64 {
        return None;
    }
    let at: usize = rva as usize;
    if memory[at] == 0xFF && memory[at + 1] == 0x25 {
        let displacement: u32 = read_u32(memory, at + 2)?;
        let limit: u64 = i64::MAX as u64;
        let next: u64 = base.checked_add(rva)?.checked_add(6)?;
        if next > limit {
            return None;
        }
        let slot: usize = if displacement < 0x8000_0000 {
            if displacement as u64 > limit - next {
                return None;
            }
            (at + 6).checked_add(displacement as usize)?
        } else {
            let back: u64 = 0x1_0000_0000 - displacement as u64;
            if back > rva + 6 {
                return None;
            }
            (rva + 6 - back) as usize
        };
        return read_pointer(memory, slot, PeKind::Pe32Plus);
    }
    if memory[at] == 0x48 && memory[at + 1] == 0xB8 && memory[at + 10] == 0xFF && memory[at + 11]
        == 0xE0 {
        return read_pointer(memory, at + 2, PeKind::Pe32Plus);
    }
    None
}

/// Where the jump at `rva` in a 32-bit image leads, if there is one.
pub open spec fn x86_target(memory: Seq<u8>, base: int, rva: int) -> Option<u64> {
    let slot = bytes::le32(memory, rva + 2) - base;
    if rva + 7 > memory.len() {
        None
    } else if memory[rva] == 0xFF && memory[rva + 1] == 0x25 {
        if slot < 0 {
            None
        } else {
            pointer_at(memory, slot, PeKind::Pe32)
        }
    } else if memory[rva] == 0xB8 && memory[rva + 5] == 0xFF && memory[rva + 6] == 0xE0 {
        Some(bytes::le32(memory, rva + 1) as u64)
    } else {
        None
    }
}

/// Reads a jump of a 32-bit image.
pub fn decode_x86_thunk(memory: &[u8], base: u64, rva: u64) -> (target: Option<u64>)
    ensures
        target == x86_target(memory@, base as int, rva as int),
{
    assert(memory.len() == memory@.len());
    if memory.len() < 7 || rva > (memory.len() - 7) as u64 {
        return None;
    }
    let at: usize = rva as usize;
    if memory[at] == 0xFF && memory[at + 1] == 0x25 {
        let slot_address: u32 = read_u32(memory, at + 2)?;
        let slot: u64 = (slot_address as u64).checked_sub(base)?;
        return read_pointer(memory, slot as usize, PeKind::Pe32);
    }
    if memory[at] == 0xB8 && memory[at + 5] == 0xFF && memory[at + 6] == 0xE0 {
        return read_pointer(memory, at + 1, PeKind::Pe32);
    }
    None
}

/// The symbol that an address stands for, and whether modules disagree on it: the symbol at the
/// address, or at the end of up to `hops` jumps from it.
pub open spec fn value_symbol(
    memory: Seq<u8>,
    base: u64,
    kind: PeKind,
    value: u64,
    addresses: AddressMap,
    hops: nat,
) -> Option<(ExportView, bool)>
    decreases hops,
{
    let found = exports::symbol_at_address(addresses, value);
    let next = match kind {
        PeKind::Pe32Plus => x64_target(memory, base as int, value - base),
        PeKind::Pe32 => x86_target(memory, base as int, value - base),
    };
    if found is Some {
        found
    } else if hops == 0 || value < base || next is None || next->0 == value {
        None
    } else {
        value_symbol(memory, base, kind, next->0, addresses, (hops - 1) as nat)
    }
}

/// Looks up the symbol that an address stands for.
pub fn resolve_value(
    memory: &[u8],
    observed_base: u64,
    kind: PeKind,
    value: u64,
    exports: &ExportIndex,
) -> (found: Option<(ResolvedExport, bool)>)
    ensures
        match (
            value_symbol(
                memory@,
                observed_base,
                kind,
                value,
                exports@.addresses,
                MAX_THUNK_DEPTH as nat,
            ),
            found,
        ) {
            (Some((symbol, ambiguous)), Some((found_symbol, found_ambiguous))) => found_symbol@
                == symbol && found_ambiguous == ambiguous,
            (None, None) => true,
            _ => false,
        },
{
    let ghost expected = value_symbol(
        memory@,
        observed_base,
        kind,
        value,
        exports@.addresses,
        MAX_THUNK_DEPTH as nat,
    );
    let mut address: u64 = value;
    let mut hops: usize = MAX_THUNK_DEPTH;
    loop
        invariant
            expected == value_symbol(
                memory@,
                observed_base,
                kind,
                value,
                exports@.addresses,
                MAX_THUNK_DEPTH as nat,
            ),
            expected == value_symbol(
                memory@,
                observed_base,
                kind,
                address,
                exports@.addresses,
                hops as nat,
            ),
        decreases hops,
    {
        if let Some((symbol, ambiguous)) = exports.resolve(address) {
            return Some((symbol.copy(), ambiguous));
        }
        if hops == 0 {
            return None;
        }
        let rva: u64 = address.checked_sub(observed_base)?;
        let next: u64 = match kind {
            PeKind::Pe32Plus => decode_x64_thunk(memory, observed_base, rva),
            PeKind::Pe32 => decode_x86_thunk(memory, observed_base, rva),
        }?;
        if next == address {
            return None;
        }
        address = next;
        hops = hops - 1;
    }
}

/// One import: by name, or else by ordinal.
pub struct ImportEntry {
    pub name: Option<String>,
    pub ordinal: u32,
}

/// One import, seen mathematically.
pub struct EntryView {
    pub name: Option<Seq<char>>,
    pub ordinal: u32,
}

impl View for ImportEntry {
    type V = EntryView;

    open spec fn view(&self) -> EntryView {
        EntryView { name: text::seen(self.name), ordinal: self.ordinal }
    }
}

/// The imports from one module whose addresses stand next to each other.
pub struct ImportGroup {
    pub module: String,
    pub first_thunk: u32,
    pub entries: Vec<ImportEntry>,
}

/// A group of imports, seen mathematically.
pub struct GroupView {
    pub module: Seq<char>,
    pub first_thunk: u32,
    pub entries: Seq<EntryView>,
}

/// Imports, seen mathematically.
pub open spec fn entry_views(entries: Seq<ImportEntry>) -> Seq<EntryView> {
    entries.map_values(|entry: ImportEntry| entry@)
}

impl View for ImportGroup {
    type V = GroupView;

    open spec fn view(&self) -> GroupView {
        GroupView {
            module: self.module@,
            first_thunk: self.first_thunk,
            entries: entry_views(self.entries@),
        }
    }
}

/// What was found out about the imports of an image.
pub struct ImportPlan {
    pub groups: Vec<ImportGroup>,
    pub recovered: usize,
    pub ambiguous: usize,
    pub existing_valid: bool,
}

/// What was found out about imports, seen mathematically.
pub struct PlanView {
    pub groups: Seq<GroupView>,
    pub recovered: int,
    pub ambiguous: int,
    pub existing_valid: bool,
}

/// Groups of imports, seen mathematically.
pub open spec fn group_views(groups: Seq<ImportGroup>) -> Seq<GroupView> {
    groups.map_values(|group: ImportGroup| group@)
}

impl View for ImportPlan {
    type V = PlanView;

    open spec fn view(&self) -> PlanView {
        PlanView {
            groups: group_views(self.groups@),
            recovered: self.recovered as int,
            ambiguous: self.ambiguous as int,
            existing_valid: self.existing_valid,
        }
    }
}

impl PlanView {
    /// Nothing was found.
    pub open spec fn nothing() -> PlanView {
        PlanView { groups: Seq::empty(), recovered: 0, ambiguous: 0, existing_valid: false }
    }

    /// The plan with one more group, if the group has at least two imports and there is room.
    pub open spec fn with_group(self, group: GroupView) -> PlanView {
        if group.entries.len() < 2 || self.groups.len() >= MAX_IMPORT_GROUPS {
            self
        } else {
            PlanView {
                groups: self.groups.push(group),
                recovered: layout::least(
                    self.recovered + group.entries.len(),
                    usize::MAX as int,
                ),
                ..self
            }
        }
    }
}

impl ImportPlan {
    /// The plan when nothing was found.
    pub fn nothing() -> (plan: ImportPlan)
        ensures
            plan@ == PlanView::nothing(),
    {
        let plan: ImportPlan = ImportPlan {
            groups: Vec::new(),
            recovered: 0,
            ambiguous: 0,
            existing_valid: false,
        };
        assert(plan@.groups =~= Seq::empty());
        plan
    }
}

/// Adds a group to a plan.
pub fn push_group(group: ImportGroup, plan: &mut ImportPlan)
    ensures
        final(plan)@ == old(plan)@.with_group(group@),
{
    if group.entries.len() < 2 || plan.groups.len() >= MAX_IMPORT_GROUPS {
        return;
    }
    let ghost before = plan.groups@;
    plan.recovered = plan.recovered.saturating_add(group.entries.len());
    plan.groups.push(group);
    assert(group_views(plan.groups@) =~= group_views(before).push(group@));
}

/// An import continues a group: it is from the same module and its address stands next.
pub open spec fn continues(group: GroupView, slot: u32, symbol: ExportView, width: int) -> bool {
    &&& text::same_letters(group.module, symbol.module)
    &&& group.first_thunk + group.entries.len() * width == slot
}

/// The import that a symbol stands for.
pub open spec fn import_of(symbol: ExportView) -> EntryView {
    EntryView { name: symbol.name, ordinal: symbol.ordinal }
}

/// Groups that are being formed: those of the plan, and an open one.
pub struct Grouping {
    pub plan: PlanView,
    pub open: Option<GroupView>,
}

impl Grouping {
    /// The groups after the open one is closed.
    pub open spec fn close(self) -> PlanView {
        match self.open {
            Some(group) => self.plan.with_group(group),
            None => self.plan,
        }
    }

    /// The groups after one more import.
    pub open spec fn add(self, slot: u32, symbol: ExportView, width: int) -> Grouping {
        if self.open is Some && continues(self.open->0, slot, symbol, width) {
            Grouping {
                plan: self.plan,
                open: Some(
                    GroupView {
                        entries: self.open->0.entries.push(import_of(symbol)),
                        ..self.open->0
                    },
                ),
            }
        } else {
            Grouping {
                plan: self.close(),
                open: Some(
                    GroupView {
                        module: symbol.module,
                        first_thunk: slot,
                        entries: seq![import_of(symbol)],
                    },
                ),
            }
        }
    }
}

/// The groups after the first `count` imports.
pub open spec fn grouped(
    plan: PlanView,
    entries: Seq<(u32, ExportView)>,
    width: int,
    count: nat,
) -> Grouping
    decreases count,
{
    if count == 0 {
        Grouping { plan, open: None }
    } else {
        grouped(plan, entries, width, (count - 1) as nat).add(
            entries[count - 1].0,
            entries[count - 1].1,
            width,
        )
    }
}

/// The plan with the groups that a run of imports makes.
pub open spec fn with_groups(
    plan: PlanView,
    entries: Seq<(u32, ExportView)>,
    width: int,
) -> PlanView {
    grouped(plan, entries, width, entries.len()).close()
}

/// Slots with their symbols, seen mathematically.
pub open spec fn slot_views(entries: Seq<(u32, ResolvedExport)>) -> Seq<(u32, ExportView)> {
    entries.map_values(|entry: (u32, ResolvedExport)| (entry.0, entry.1@))
}

spec fn open_view(open: Option<ImportGroup>) -> Option<GroupView> {
    match open {
        Some(group) => Some(group@),
        None => None,
    }
}

/// Tests whether an import continues a group.
fn is_continued(group: &ImportGroup, slot: u32, symbol: &ResolvedExport, kind: PeKind) -> (yes: bool)
    ensures
        yes == continues(group@, slot, symbol@, kind.pointer_width()),
{
    if !eq_ignore_case(group.module.as_str(), symbol.module.as_str()) {
        return false;
    }
    let width: u64 = pointer_width(kind) as u64;
    let count: u64 = group.entries.len() as u64;
    if count > 0x4000_0000 {
        assert(count * width > 0xFFFF_FFFF) by (nonlinear_arith)
            requires
                count > 0x4000_0000,
                width >= 4,
        ;
        return false;
    }
    assert(count * width <= 0x4000_0000 * 8) by (nonlinear_arith)
        requires
            count <= 0x4000_0000,
            width <= 8,
    ;
    group.first_thunk as u64 + count * width == slot as u64
}

/// The import that a symbol stands for.
fn import_entry(symbol: &ResolvedExport) -> (entry: ImportEntry)
    ensures
        entry@ == import_of(symbol@),
{
    ImportEntry {
        name: match &symbol.name {
            Some(name) => Some(name.clone()),
            None => None,
        },
        ordinal: symbol.ordinal,
    }
}

/// Adds the groups that a run of imports makes.
pub fn append_groups(entries: &Vec<(u32, ResolvedExport)>, kind: PeKind, plan: &mut ImportPlan)
    ensures
        final(plan)@ == with_groups(old(plan)@, slot_views(entries@), kind.pointer_width()),
{
    let ghost views = slot_views(entries@);
    let ghost width = kind.pointer_width();
    let mut current: Option<ImportGroup> = None;
    let mut index: usize = 0;
    while index < entries.len()
        invariant
            index <= entries@.len(),
            views == slot_views(entries@),
            width == kind.pointer_width(),
            grouped(old(plan)@, views, width, index as nat) == (Grouping {
                plan: plan@,
                open: open_view(current),
            }),
        decreases entries@.len() - index,
    {
        let slot: u32 = entries[index].0;
        let symbol: &ResolvedExport = &entries[index].1;
        assert(views[index as int] == (slot, symbol@));
        let ghost before = Grouping { plan: plan@, open: open_view(current) };
        let mut fresh: bool = true;
        if let Some(group) = &current {
            if is_continued(group, slot, symbol, kind) {
                fresh = false;
            }
        }
        let mut group: ImportGroup = match current {
            Some(group) => {
                if fresh {
                    push_group(group, plan);
                    ImportGroup {
                        module: symbol.module.clone(),
                        first_thunk: slot,
                        entries: Vec::new(),
                    }
                } else {
                    group
                }
            },
            None => ImportGroup {
                module: symbol.module.clone(),
                first_thunk: slot,
                entries: Vec::new(),
            },
        };
        let ghost earlier = group.entries@;
        group.entries.push(import_entry(symbol));
        assert(entry_views(group.entries@) =~= entry_views(earlier).push(import_of(symbol@)));
        assert(fresh ==> entry_views(group.entries@) =~= seq![import_of(symbol@)]);
        current = Some(group);
        assert(Grouping { plan: plan@, open: open_view(current) } == before.add(
            slot,
            symbol@,
            width,
        ));
        index = index + 1;
    }
    if let Some(group) = current {
        push_group(group, plan);
    }
}

/// What the address table slot at `offset` holds.
pub enum SlotView {
    Nothing,
    Ambiguous,
    Symbol(ExportView),
}

/// What the address table slot at `offset` holds.
pub open spec fn slot_at(
    memory: Seq<u8>,
    base: u64,
    kind: PeKind,
    addresses: AddressMap,
    offset: int,
) -> SlotView {
    match pointer_at(memory, offset, kind) {
        None => SlotView::Nothing,
        Some(value) => match value_symbol(
            memory,
            base,
            kind,
            value,
            addresses,
            MAX_THUNK_DEPTH as nat,
        ) {
            None => SlotView::Nothing,
            Some((symbol, ambiguous)) => if ambiguous {
                SlotView::Ambiguous
            } else if offset > u32::MAX {
                SlotView::Nothing
            } else {
                SlotView::Symbol(symbol)
            },
        },
    }
}

/// How many slots from `offset` up to `end` hold symbols one after the other, at most `most`.
pub open spec fn run_length(
    memory: Seq<u8>,
    base: u64,
    kind: PeKind,
    addresses: AddressMap,
    offset: int,
    end: int,
    most: nat,
) -> nat
    decreases most,
{
    if most == 0 || offset + kind.pointer_width() > end || !(slot_at(
        memory,
        base,
        kind,
        addresses,
        offset,
    ) is Symbol) {
        0
    } else {
        1 + run_length(
            memory,
            base,
            kind,
            addresses,
            offset + kind.pointer_width(),
            end,
            (most - 1) as nat,
        )
    }
}

/// The `count` slots from `offset` on, with their symbols.
pub open spec fn run_entries(
    memory: Seq<u8>,
    base: u64,
    kind: PeKind,
    addresses: AddressMap,
    offset: int,
    count: nat,
) -> Seq<(u32, ExportView)> {
    Seq::new(
        count,
        |i: int|
            (
                (offset + i * kind.pointer_width()) as u32,
                slot_at(memory, base, kind, addresses, offset + i * kind.pointer_width())->Symbol_0,
            ),
    )
}

/// The plan after one run of slots: where the run starts behind a zero or at the start, and ends
/// before a zero or at the end, its imports are taken.
pub open spec fn with_run(
    plan: PlanView,
    memory: Seq<u8>,
    base: u64,
    kind: PeKind,
    addresses: AddressMap,
    start: int,
    offset: int,
    end: int,
) -> PlanView {
    let width = kind.pointer_width();
    let count = run_length(memory, base, kind, addresses, offset, end, MAX_IMPORTS as nat);
    let stop = offset + count * width;
    let counted = if count < MAX_IMPORTS && stop + width <= end && slot_at(
        memory,
        base,
        kind,
        addresses,
        stop,
    ) is Ambiguous {
        PlanView { ambiguous: layout::least(plan.ambiguous + 1, usize::MAX as int), ..plan }
    } else {
        plan
    };
    let clean_start = offset == start || (offset >= width && pointer_at(
        memory,
        offset - width,
        kind,
    ) == Some(0u64));
    let clean_end = pointer_at(memory, stop, kind) == Some(0u64) || stop == end;
    if count >= 2 && clean_start && clean_end {
        with_groups(counted, run_entries(memory, base, kind, addresses, offset, count), width)
    } else {
        counted
    }
}

/// The plan after the slots from `offset` up to `end` of a table that starts at `start`.
pub open spec fn with_scan(
    plan: PlanView,
    memory: Seq<u8>,
    base: u64,
    kind: PeKind,
    addresses: AddressMap,
    start: int,
    offset: int,
    end: int,
) -> PlanView
    decreases end - offset,
{
    let width = kind.pointer_width();
    let count = run_length(memory, base, kind, addresses, offset, end, MAX_IMPORTS as nat);
    if offset + width > end || plan.recovered >= MAX_IMPORTS {
        plan
    } else {
        let next = if count == 0 {
            offset + width
        } else {
            offset + count * width
        };
        let after = with_run(plan, memory, base, kind, addresses, start, offset, end);
        if next > end {
            after
        } else {
            proof {
                assert(count > 0 ==> count * width >= count) by (nonlinear_arith)
                    requires
                        width >= 1,
                ;
            }
            with_scan(after, memory, base, kind, addresses, start, next, end)
        }
    }
}

/// What an address table slot holds.
enum Slot {
    Nothing,
    Ambiguous,
    Symbol(ResolvedExport),
}

impl Slot {
    spec fn seen(&self) -> SlotView {
        match *self {
            Slot::Nothing => SlotView::Nothing,
            Slot::Ambiguous => SlotView::Ambiguous,
            Slot::Symbol(symbol) => SlotView::Symbol(symbol@),
        }
    }
}

/// Reads an address table slot.
fn read_slot(
    memory: &[u8],
    observed_base: u64,
    kind: PeKind,
    exports: &ExportIndex,
    offset: usize,
) -> (slot: Slot)
    ensures
        slot.seen() == slot_at(memory@, observed_base, kind, exports@.addresses, offset as int),
{
    match read_pointer(memory, offset, kind) {
        None => Slot::Nothing,
        Some(value) => match resolve_value(memory, observed_base, kind, value, exports) {
            None => Slot::Nothing,
            Some((symbol, ambiguous)) => if ambiguous {
                Slot::Ambiguous
            } else if offset as u64 > u32::MAX as u64 {
                Slot::Nothing
            } else {
                Slot::Symbol(symbol)
            },
        },
    }
}

/// Collects the symbols of a run of slots, and says whether an ambiguous one stopped it.
fn collect_run(
    memory: &[u8],
    observed_base: u64,
    kind: PeKind,
    exports: &ExportIndex,
    offset: usize,
    end: usize,
) -> (run: (Vec<(u32, ResolvedExport)>, bool))
    requires
        offset <= end,
    ensures
        ({
            let width = kind.pointer_width();
            let count = run_length(
                memory@,
                observed_base,
                kind,
                exports@.addresses,
                offset as int,
                end as int,
                MAX_IMPORTS as nat,
            );
            let stop = offset + count * width;
            &&& run.0@.len() == count
            &&& count <= MAX_IMPORTS
            &&& stop <= end
            &&& slot_views(run.0@) == run_entries(
                memory@,
                observed_base,
                kind,
                exports@.addresses,
                offset as int,
                count,
            )
            &&& run.1 == (count < MAX_IMPORTS && stop + width <= end && slot_at(
                memory@,
                observed_base,
                kind,
                exports@.addresses,
                stop,
            ) is Ambiguous)
        }),
{
    let width: usize = pointer_width(kind);
    let ghost addresses = exports@.addresses;
    let ghost total = run_length(
        memory@,
        observed_base,
        kind,
        addresses,
        offset as int,
        end as int,
        MAX_IMPORTS as nat,
    );
    let mut entries: Vec<(u32, ResolvedExport)> = Vec::new();
    let mut at: usize = offset;
    assert(slot_views(entries@) =~= run_entries(
        memory@,
        observed_base,
        kind,
        addresses,
        offset as int,
        0,
    ));
    while end - at >= width && entries.len() < MAX_IMPORTS
        invariant
            offset <= at <= end,
            width == kind.pointer_width(),
            addresses == exports@.addresses,
            entries@.len() <= MAX_IMPORTS,
            at == offset + entries@.len() * width,
            total == run_length(
                memory@,
                observed_base,
                kind,
                addresses,
                offset as int,
                end as int,
                MAX_IMPORTS as nat,
            ),
            total == entries@.len() + run_length(
                memory@,
                observed_base,
                kind,
                addresses,
                at as int,
                end as int,
                (MAX_IMPORTS - entries@.len()) as nat,
            ),
            slot_views(entries@) == run_entries(
                memory@,
                observed_base,
                kind,
                addresses,
                offset as int,
                entries@.len(),
            ),
        decreases end - at,
    {
        let slot: Slot = read_slot(memory, observed_base, kind, exports, at);
        match slot {
            Slot::Nothing => {
                return (entries, false);
            },
            Slot::Ambiguous => {
                return (entries, true);
            },
            Slot::Symbol(symbol) => {
                let ghost earlier = entries@;
                assert(slot_at(memory@, observed_base, kind, addresses, at as int)
                    == SlotView::Symbol(symbol@));
                entries.push((at as u32, symbol));
                assert(slot_views(entries@) =~= slot_views(earlier).push((at as u32, symbol@)));
                assert(slot_views(entries@) =~= run_entries(
                    memory@,
                    observed_base,
                    kind,
                    addresses,
                    offset as int,
                    entries@.len(),
                ));
                assert(entries@.len() * width == earlier.len() * width + width)
                    by (nonlinear_arith)
                    requires
                        entries@.len() == earlier.len() + 1,
                ;
                at = at + width;
            },
        }
    }
    (entries, false)
}

/// Looks for imports in an address table.
pub fn scan_section(
    memory: &[u8],
    observed_base: u64,
    kind: PeKind,
    exports: &ExportIndex,
    start: usize,
    end: usize,
    plan: &mut ImportPlan,
)
    ensures
        ({
            let first = layout::least(
                layout::aligned(start as int, kind.pointer_width()),
                usize::MAX as int,
            );
            final(plan)@ == with_scan(
                old(plan)@,
                memory@,
                observed_base,
                kind,
                exports@.addresses,
                first,
                first,
                end as int,
            )
        }),
{
    let width: usize = pointer_width(kind);
    let padding: usize = (width - start % width) % width;
    let first: usize = start.saturating_add(padding);
    assert(start + padding == layout::aligned(start as int, width as int)) by {
        if kind == PeKind::Pe32 {
            assert((start + 3) / 4 * 4 == start + (4 - start % 4) % 4);
        } else {
            assert((start + 7) / 8 * 8 == start + (8 - start % 8) % 8);
        }
    }
    let ghost addresses = exports@.addresses;
    let ghost expected = with_scan(
        plan@,
        memory@,
        observed_base,
        kind,
        addresses,
        first as int,
        first as int,
        end as int,
    );
    let mut offset: usize = first;
    while offset <= end && end - offset >= width && plan.recovered < MAX_IMPORTS
        invariant
            width == kind.pointer_width(),
            addresses == exports@.addresses,
            expected == with_scan(
                plan@,
                memory@,
                observed_base,
                kind,
                addresses,
                first as int,
                offset as int,
                end as int,
            ),
        decreases end - offset,
    {
        let ghost before = plan@;
        let (entries, ambiguous) = collect_run(memory, observed_base, kind, exports, offset, end);
        let count: usize = entries.len();
        assert(count * width >= count) by (nonlinear_arith)
            requires
                width >= 1,
        ;
        let stop: usize = offset + count * width;
        if ambiguous {
            plan.ambiguous = plan.ambiguous.saturating_add(1);
        }
        let clean_start: bool = offset == first || (offset >= width && is_zero_pointer(
            memory,
            offset - width,
            kind,
        ));
        let clean_end: bool = is_zero_pointer(memory, stop, kind) || stop == end;
        if count >= 2 && clean_start && clean_end {
            append_groups(&entries, kind, plan);
        }
        assert(plan@ == with_run(
            before,
            memory@,
            observed_base,
            kind,
            addresses,
            first as int,
            offset as int,
            end as int,
        ));
        offset = if count == 0 {
            offset + width
        } else {
            stop
        };
    }
}

/// Tests for a zero address.
fn is_zero_pointer(memory: &[u8], offset: usize, kind: PeKind) -> (zero: bool)
    ensures
        zero == (pointer_at(memory@, offset as int, kind) == Some(0u64)),
{
    match read_pointer(memory, offset, kind) {
        Some(value) => value == 0,
        None => false,
    }
}

/// The name of a section is `expected`, but for the case of ASCII letters; zeros may follow.
pub open spec fn section_named(name: Seq<u8>, expected: Seq<u8>) -> bool {
    &&& expected.len() <= name.len()
    &&& forall|i: int|
        0 <= i < expected.len() ==> text::lower(#[trigger] name[i] as char) == expected[i] as char
    &&& (expected.len() == name.len() || name[expected.len() as int] == 0)
}

/// The section is one that linkers make for imports: `.idata` or `.didat`.
pub open spec fn import_section(name: Seq<u8>) -> bool {
    section_named(name, seq![0x2Eu8, 0x69, 0x64, 0x61, 0x74, 0x61]) || section_named(
        name,
        seq![0x2Eu8, 0x64, 0x69, 0x64, 0x61, 0x74],
    )
}

/// Compares the name of a section with a text of six lower-case bytes.
fn is_named(name: &[u8; 8], expected: &[u8; 6]) -> (yes: bool)
    ensures
        yes == section_named(name@, expected@),
{
    let mut index: usize = 0;
    while index < 6
        invariant
            index <= 6,
            forall|i: int|
                0 <= i < index ==> text::lower(#[trigger] name@[i] as char) == expected@[i] as char,
        decreases 6 - index,
    {
        if text::lower_char(name[index] as char) != expected[index] as char {
            assert(text::lower(name@[index as int] as char) != expected@[index as int] as char);
            return false;
        }
        index = index + 1;
    }
    name[6] == 0
}

/// Tests for a section that linkers make for imports.
pub fn is_import_section(name: &[u8; 8]) -> (yes: bool)
    ensures
        yes == import_section(name@),
{
    let idata: [u8; 6] = [0x2E, 0x69, 0x64, 0x61, 0x74, 0x61];
    let didat: [u8; 6] = [0x2E, 0x64, 0x69, 0x64, 0x61, 0x74];
    assert(idata@ =~= seq![0x2Eu8, 0x69, 0x64, 0x61, 0x74, 0x61]);
    assert(didat@ =~= seq![0x2Eu8, 0x64, 0x69, 0x64, 0x61, 0x74]);
    is_named(name, &idata) || is_named(name, &didat)
}

/// The addresses of the import address table that the headers declare.
pub open spec fn declared_table(memory: Seq<u8>, model: PeModelView) -> Option<(int, int)> {
    match exports::directory_of(memory, model, IAT_DIRECTORY as int) {
        Some((rva, size)) => if rva + size <= u32::MAX {
            Some((rva as int, rva + size))
        } else {
            None
        },
        None => None,
    }
}

/// Where the section ends, as far as 32-bit addresses go.
pub open spec fn section_stop(section: SectionView) -> int {
    layout::least(section.end(), u32::MAX as int)
}

/// The addresses of a section in which imports are looked for: what it shares with the declared
/// table, or else all of a section that linkers make for imports.
pub open spec fn trusted_range(section: SectionView, table: Option<(int, int)>) -> Option<
    (int, int),
> {
    let start = section.virtual_address as int;
    let end = section_stop(section);
    let whole = if import_section(section.name) {
        Some((start, end))
    } else {
        None
    };
    match table {
        None => whole,
        Some((table_start, table_end)) => {
            let from = if table_start > start {
                table_start
            } else {
                start
            };
            let to = layout::least(table_end, end);
            if from < to {
                Some((from, to))
            } else {
                whole
            }
        },
    }
}

/// The section can be read or written, and not executed.
pub open spec fn holds_data(flags: u32) -> bool {
    flags & IMAGE_SCN_MEM_EXECUTE == 0 && (flags & IMAGE_SCN_MEM_READ != 0 || flags
        & IMAGE_SCN_MEM_WRITE != 0)
}

/// No more imports are looked for.
pub open spec fn plan_full(plan: PlanView) -> bool {
    plan.recovered >= MAX_IMPORTS || plan.groups.len() >= MAX_IMPORT_GROUPS
}

/// The plan after the slots from `start` up to `end` are scanned.
pub open spec fn with_range(
    plan: PlanView,
    memory: Seq<u8>,
    base: u64,
    kind: PeKind,
    addresses: AddressMap,
    start: int,
    end: int,
) -> PlanView {
    let first = layout::least(
        layout::aligned(start, kind.pointer_width()),
        usize::MAX as int,
    );
    with_scan(plan, memory, base, kind, addresses, first, first, end)
}

/// The plan after one section.
pub open spec fn with_section(
    plan: PlanView,
    memory: Seq<u8>,
    base: u64,
    model: PeModelView,
    addresses: AddressMap,
    section: SectionView,
) -> PlanView {
    match trusted_range(section, declared_table(memory, model)) {
        Some((start, end)) => if holds_data(section.characteristics) && !plan_full(plan) {
            with_range(
                plan,
                memory,
                base,
                model.kind,
                addresses,
                start,
                layout::least(end, memory.len() as int),
            )
        } else {
            plan
        },
        None => plan,
    }
}

/// The plan after the first `count` sections.
pub open spec fn with_sections(
    memory: Seq<u8>,
    base: u64,
    model: PeModelView,
    addresses: AddressMap,
    count: nat,
) -> PlanView
    decreases count,
{
    if count == 0 {
        PlanView::nothing()
    } else {
        with_section(
            with_sections(memory, base, model, addresses, (count - 1) as nat),
            memory,
            base,
            model,
            addresses,
            model.sections[count - 1],
        )
    }
}

/// What is found out about the imports of an image: that its directory is intact, or else which
/// imports its address tables hold.
pub open spec fn import_plan(
    memory: Seq<u8>,
    base: u64,
    model: PeModelView,
    addresses: AddressMap,
) -> PlanView {
    if imports_intact(memory, model) {
        PlanView { existing_valid: true, ..PlanView::nothing() }
    } else {
        with_sections(memory, base, model, addresses, model.sections.len())
    }
}

/// The addresses of a section in which imports are looked for.
fn section_range(section: &SectionModel, table: Option<(u32, u32)>) -> (range: Option<(u32, u32)>)
    ensures
        match (
            trusted_range(
                section@,
                match table {
                    Some((start, end)) => Some((start as int, end as int)),
                    None => None,
                },
            ),
            range,
        ) {
            (Some((start, end)), Some((found_start, found_end))) => start == found_start && end
                == found_end,
            (None, None) => true,
            _ => false,
        },
{
    let start: u32 = section.virtual_address.get();
    let end: u32 = start.saturating_add(section.span());
    if let Some((table_start, table_end)) = table {
        let from: u32 = if table_start > start {
            table_start
        } else {
            start
        };
        let to: u32 = if table_end < end {
            table_end
        } else {
            end
        };
        if from < to {
            return Some((from, to));
        }
    }
    if is_import_section(&section.name) {
        Some((start, end))
    } else {
        None
    }
}

/// The import address table that the headers declare.
fn declared_range(memory: &[u8], model: &PeModel) -> (range: Option<(u32, u32)>)
    ensures
        declared_table(memory@, model@) == match range {
            Some((start, end)) => Some((start as int, end as int)),
            None => None,
        },
{
    match directory(memory, model, IAT_DIRECTORY) {
        None => None,
        Some((rva, size)) => match rva.checked_add(size) {
            Some(end) => Some((rva, end)),
            None => None,
        },
    }
}

/// Finds out about the imports of an image.
pub fn analyze(memory: &[u8], observed_base: u64, model: &PeModel, exports: &ExportIndex) -> (plan:
    ImportPlan)
    ensures
        plan@ == import_plan(memory@, observed_base, model@, exports@.addresses),
{
    let mut plan: ImportPlan = ImportPlan::nothing();
    if existing_imports_are_valid(memory, model) {
        plan.existing_valid = true;
        return plan;
    }
    let table: Option<(u32, u32)> = declared_range(memory, model);
    let sections: &Vec<SectionModel> = model.sections();
    let kind: PeKind = model.kind();
    let mut index: usize = 0;
    while index < sections.len()
        invariant
            index <= sections@.len(),
            kind == model@.kind,
            sections@.len() == model@.sections.len(),
            forall|i: int|
                0 <= i < sections@.len() ==> (#[trigger] sections@[i])@ == model@.sections[i],
            declared_table(memory@, model@) == match table {
                Some((start, end)) => Some((start as int, end as int)),
                None => None,
            },
            plan@ == with_sections(
                memory@,
                observed_base,
                model@,
                exports@.addresses,
                index as nat,
            ),
        decreases sections@.len() - index,
    {
        let section: &SectionModel = &sections[index];
        let flags: u32 = section.characteristics;
        let data: bool = flags & IMAGE_SCN_MEM_EXECUTE == 0 && (flags & IMAGE_SCN_MEM_READ != 0
            || flags & IMAGE_SCN_MEM_WRITE != 0);
        let full: bool = plan.recovered >= MAX_IMPORTS || plan.groups.len() >= MAX_IMPORT_GROUPS;
        if data && !full {
            if let Some((start, stop)) = section_range(section, table) {
                let end: usize = if (stop as usize) < memory.len() {
                    stop as usize
                } else {
                    memory.len()
                };
                scan_section(
                    memory,
                    observed_base,
                    kind,
                    exports,
                    start as usize,
                    end,
                    &mut plan,
                );
            }
        }
        index = index + 1;
    }
    plan
}

/// Finds out about the imports of a parsed image.
pub fn build_plan(image: &PeImage, observed_base: u64, exports: &ExportIndex) -> (plan: ImportPlan)
    ensures
        plan@ == import_plan(
            image.data(),
            observed_base,
            image.headers(),
            exports@.addresses,
        ),
{
    analyze(image.bytes(), observed_base, image.model(), exports)
}

} // verus!
