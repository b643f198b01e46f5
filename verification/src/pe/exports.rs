//! Which symbols the captured modules export, and at which addresses.

use std::collections::HashMap;
use vstd::prelude::*;

use crate::pe::bytes;
use crate::pe::image;
use crate::pe::layout;
use crate::pe::parse::parse_memory_image;
use crate::pe::parse;
use crate::pe::symbols::{ExportKey, KeyMatch, KeyView, SymbolTable};
use crate::pe::symbols;
use crate::pe::{PeModel, PeModelView};
use crate::text::{
    ascii_lowercase, begins_with, chars_of, eq_ignore_case, find_after_last, parse_number, text_of,
};
use crate::text;

verus! {

broadcast use vstd::std_specs::hash::group_hash_axioms;

pub const EXPORT_DIRECTORY: usize = 0;

pub const EXPORT_HEADER_SIZE: u32 = 40;

pub const MAX_EXPORTS: usize = 1_048_576;

pub const MAX_EXPORT_NAME: usize = 4_096;

pub const MAX_FORWARD_DEPTH: usize = 8;

/// A symbol of a module.
#[derive(Debug)]
pub struct ResolvedExport {
    pub module: String,
    pub name: Option<String>,
    pub ordinal: u32,
}

/// A symbol of a module, seen mathematically.
pub struct ExportView {
    pub module: Seq<char>,
    pub name: Option<Seq<char>>,
    pub ordinal: u32,
}

impl View for ResolvedExport {
    type V = ExportView;

    open spec fn view(&self) -> ExportView {
        ExportView { module: self.module@, name: text::seen(self.name), ordinal: self.ordinal }
    }
}

impl ResolvedExport {
    /// The same symbol once more.
    pub fn copy(&self) -> (export: ResolvedExport)
        ensures
            export@ == self@,
    {
        ResolvedExport {
            module: self.module.clone(),
            name: match &self.name {
                Some(name) => Some(name.clone()),
                None => None,
            },
            ordinal: self.ordinal,
        }
    }
}

/// What was found while an index was built.
#[derive(Clone, Copy, Debug, PartialEq, Eq, Structural)]
pub struct ExportStats {
    pub modules: usize,
    pub addresses: usize,
    pub forwarders: usize,
    pub unresolved_forwarders: usize,
}

/// The 16-bit field at `offset`, if it is there.
pub fn read_u16(bytes: &[u8], offset: usize) -> (value: Option<u16>)
    ensures
        value == if offset + 2 <= bytes@.len() {
            Some(bytes::le16(bytes@, offset as int))
        } else {
            None
        },
{
    if bytes.len() < 2 || offset > bytes.len() - 2 {
        return None;
    }
    Some(bytes[offset] as u16 + 0x100 * (bytes[offset + 1] as u16))
}

/// The 32-bit field at `offset`, if it is there.
pub fn read_u32(bytes: &[u8], offset: usize) -> (value: Option<u32>)
    ensures
        value == if offset + 4 <= bytes@.len() {
            Some(bytes::le32(bytes@, offset as int))
        } else {
            None
        },
{
    if bytes.len() < 4 || offset > bytes.len() - 4 {
        return None;
    }
    Some(
        bytes[offset] as u32 + 0x100 * (bytes[offset + 1] as u32) + 0x1_0000 * (bytes[offset
            + 2] as u32) + 0x100_0000 * (bytes[offset + 3] as u32),
    )
}

/// The bytes are ASCII.
pub open spec fn ascii(part: Seq<u8>) -> bool {
    forall|i: int| 0 <= i < part.len() ==> #[trigger] part[i] < 0x80
}

/// The text of ASCII bytes.
pub open spec fn ascii_text(part: Seq<u8>) -> Seq<char> {
    part.map_values(|byte: u8| byte as char)
}

/// The ASCII bytes of the zero-terminated name at `at`, if there is one.
pub open spec fn name_bytes(bytes: Seq<u8>, at: int) -> Option<Seq<u8>> {
    match image::zero_terminated(bytes, at, MAX_EXPORT_NAME as int) {
        Some(part) => if ascii(part) {
            Some(part)
        } else {
            None
        },
        None => None,
    }
}

/// The zero-terminated name at `at`, if there is one.
pub open spec fn name_at(bytes: Seq<u8>, at: int) -> Option<Seq<char>> {
    match name_bytes(bytes, at) {
        Some(part) => Some(ascii_text(part)),
        None => None,
    }
}

/// Tests for ASCII bytes.
pub fn is_ascii(part: &[u8]) -> (yes: bool)
    ensures
        yes == ascii(part@),
{
    let mut index: usize = 0;
    while index < part.len()
        invariant
            index <= part@.len(),
            forall|i: int| 0 <= i < index ==> #[trigger] part@[i] < 0x80,
        decreases part@.len() - index,
    {
        if part[index] >= 0x80 {
            return false;
        }
        index = index + 1;
    }
    true
}

/// The zero-terminated name at `offset`, if there is one.
pub fn read_ascii(bytes: &[u8], offset: usize) -> (name: Option<String>)
    ensures
        text::seen(name) == name_at(bytes@, offset as int),
{
    match image::terminated(bytes, offset, MAX_EXPORT_NAME) {
        None => None,
        Some(part) => {
            if !is_ascii(part) {
                return None;
            }
            let mut name: String = String::new();
            let mut index: usize = 0;
            while index < part.len()
                invariant
                    index <= part@.len(),
                    name@ =~= ascii_text(part@.take(index as int)),
                decreases part@.len() - index,
            {
                name.push(part[index] as char);
                index = index + 1;
            }
            assert(part@.take(index as int) =~= part@);
            Some(name)
        },
    }
}

/// The data directory with this index, if the image has it and it is set.
pub open spec fn directory_of(bytes: Seq<u8>, model: PeModelView, index: int) -> Option<(u32, u32)> {
    let at = model.directory_at(index);
    if index < model.directory_count && at + 8 <= bytes.len() && bytes::le32(bytes, at) != 0
        && bytes::le32(bytes, at + 4) != 0 {
        Some((bytes::le32(bytes, at), bytes::le32(bytes, at + 4)))
    } else {
        None
    }
}

/// The data directory with this index, if the image has it and it is set.
pub fn directory(bytes: &[u8], model: &PeModel, index: usize) -> (found: Option<(u32, u32)>)
    ensures
        found == directory_of(bytes@, model@, index as int),
{
    match model.directory(bytes, index) {
        Ok(Some(found)) => Some((found.rva().get(), found.size())),
        Ok(None) => None,
        Err(_) => None,
    }
}

/// `count` items of `width` bytes lie in the image from `offset` on.
pub open spec fn array_inside(total: int, offset: int, count: int, width: int) -> bool {
    offset + count * width <= total
}

/// Checks that an array lies in the image.
pub fn checked_array(bytes: &[u8], offset: usize, count: usize, width: usize) -> (inside: Option<()>)
    ensures
        inside is Some <==> array_inside(
            bytes@.len() as int,
            offset as int,
            count as int,
            width as int,
        ),
{
    assert(bytes.len() == bytes@.len());
    match count.checked_mul(width) {
        None => None,
        Some(length) => {
            if offset > bytes.len() || length > bytes.len() - offset {
                None
            } else {
                Some(())
            }
        },
    }
}

/// The file name of a module: what follows the last separator, with `.dll` if it has no
/// extension.
pub open spec fn module_name(name: Seq<char>) -> Seq<char> {
    let base = name.skip(text::after_last(name, seq!['/', '\\']));
    if base.contains('.') {
        base
    } else {
        base + ".dll"@
    }
}

/// The file name of a module.
pub fn normalize_module(name: &str) -> (module: String)
    ensures
        module@ == module_name(name@),
{
    let letters: Vec<char> = chars_of(name);
    let marks: Vec<char> = vec!['/', '\\'];
    assert(marks@ =~= seq!['/', '\\']);
    let start: usize = find_after_last(&letters, &marks);
    let mut module: String = text_of(&letters, start, letters.len());
    assert(module@ =~= name@.skip(start as int));
    let mut index: usize = start;
    while index < letters.len()
        invariant
            start <= index <= letters@.len(),
            letters@ == name@,
            start == text::after_last(name@, seq!['/', '\\']),
            module@ == name@.skip(start as int),
            forall|i: int| start <= i < index ==> letters@[i] != '.',
        decreases letters@.len() - index,
    {
        if letters[index] == '.' {
            assert(module@[index - start] == '.');
            return module;
        }
        index = index + 1;
    }
    assert(!module@.contains('.')) by {
        assert forall|i: int| 0 <= i < module@.len() implies module@[i] != '.' by {
            assert(module@[i] == letters@[start + i]);
        }
    }
    module.append(".dll");
    module
}

/// A target that a symbol forwards to: a module and a symbol of it.
pub open spec fn forward_target(target: Seq<char>) -> Option<(Seq<char>, KeyView)> {
    let split = text::after_last(target, seq!['.']);
    let module = module_name(target.take(split - 1));
    let symbol = target.skip(split);
    if split == 0 {
        None
    } else if symbol.len() > 0 && symbol[0] == '#' {
        match text::number(symbol.skip(1), 10, u32::MAX as nat) {
            Some(ordinal) => Some((module, KeyView::Ordinal(ordinal as u32))),
            None => None,
        }
    } else {
        Some((module, KeyView::Name(text::lowercase(symbol))))
    }
}

/// Reads a target that a symbol forwards to.
pub fn parse_forward_target(target: &str) -> (parsed: Option<(String, ExportKey)>)
    ensures
        match (forward_target(target@), parsed) {
            (Some((module, key)), Some((found, found_key))) => found@ == module && found_key@
                == key,
            (None, None) => true,
            _ => false,
        },
{
    let letters: Vec<char> = chars_of(target);
    let marks: Vec<char> = vec!['.'];
    assert(marks@ =~= seq!['.']);
    let split: usize = find_after_last(&letters, &marks);
    if split == 0 {
        return None;
    }
    let before: String = text_of(&letters, 0, split - 1);
    assert(before@ =~= target@.take(split - 1));
    let module: String = normalize_module(before.as_str());
    let ghost symbol = target@.skip(split as int);
    if split < letters.len() && letters[split] == '#' {
        let digits: String = text_of(&letters, split + 1, letters.len());
        assert(digits@ =~= symbol.skip(1));
        match parse_number(digits.as_str(), 10, u32::MAX) {
            Some(ordinal) => Some((module, ExportKey::Ordinal(ordinal))),
            None => None,
        }
    } else {
        let name: String = text_of(&letters, split, letters.len());
        assert(name@ =~= symbol);
        Some((module, ExportKey::Name(ascii_lowercase(name.as_str()))))
    }
}

/// A module that stands for others: its symbols are looked for in every module.
pub open spec fn api_set(module: Seq<char>) -> bool {
    "api-"@.is_prefix_of(module) || "ext-"@.is_prefix_of(module)
}

/// Tests for a module that stands for others.
pub fn is_api_set(module: &str) -> (yes: bool)
    ensures
        yes == api_set(module@),
{
    let letters: Vec<char> = chars_of(module);
    begins_with(&letters, "api-") || begins_with(&letters, "ext-")
}

/// The name that an image has for itself in its export directory.
pub open spec fn embedded_name(bytes: Seq<u8>) -> Option<Seq<char>> {
    match parse::memory_image(bytes) {
        Err(_) => None,
        Ok(model) => match directory_of(bytes, model, EXPORT_DIRECTORY as int) {
            None => None,
            Some((rva, size)) => if size < EXPORT_HEADER_SIZE || rva + 16 > bytes.len() {
                None
            } else {
                match name_at(bytes, bytes::le32(bytes, rva + 12) as int) {
                    Some(name) => Some(module_name(name)),
                    None => None,
                }
            },
        },
    }
}

/// The name that an image has for itself in its export directory.
pub fn embedded_module_name(bytes: &[u8]) -> (name: Option<String>)
    ensures
        text::seen(name) == embedded_name(bytes@),
{
    assert(bytes.len() == bytes@.len());
    match parse_memory_image(bytes) {
        Err(_) => None,
        Ok(image) => {
            let found: (u32, u32) = directory(bytes, image.model(), EXPORT_DIRECTORY)?;
            if found.1 < EXPORT_HEADER_SIZE {
                return None;
            }
            let at: usize = (found.0 as usize).checked_add(12)?;
            let name_rva: u32 = read_u32(bytes, at)?;
            let name: String = read_ascii(bytes, name_rva as usize)?;
            Some(normalize_module(name.as_str()))
        },
    }
}

/// A symbol that stands for a symbol of another module.
pub struct ForwardedExport {
    pub source: ResolvedExport,
    pub target: String,
}

/// A symbol that stands for another, seen mathematically.
pub struct ForwardView {
    pub source: ExportView,
    pub target: Seq<char>,
}

impl View for ForwardedExport {
    type V = ForwardView;

    open spec fn view(&self) -> ForwardView {
        ForwardView { source: self.source@, target: self.target@ }
    }
}

/// What one module exports: symbols with their addresses, and symbols that stand for others.
pub struct ParsedExports {
    pub direct: Vec<(u64, ResolvedExport)>,
    pub forwarders: Vec<ForwardedExport>,
}

/// What one module exports, seen mathematically.
pub struct ParsedView {
    pub direct: Seq<(u64, ExportView)>,
    pub forwarders: Seq<ForwardView>,
}

/// Symbols with their addresses, seen mathematically.
pub open spec fn direct_views(direct: Seq<(u64, ResolvedExport)>) -> Seq<(u64, ExportView)> {
    direct.map_values(|item: (u64, ResolvedExport)| (item.0, item.1@))
}

/// Symbols that stand for others, seen mathematically.
pub open spec fn forward_views(forwarders: Seq<ForwardedExport>) -> Seq<ForwardView> {
    forwarders.map_values(|item: ForwardedExport| item@)
}

impl View for ParsedExports {
    type V = ParsedView;

    open spec fn view(&self) -> ParsedView {
        ParsedView {
            direct: direct_views(self.direct@),
            forwarders: forward_views(self.forwarders@),
        }
    }
}

/// Texts, seen mathematically.
pub open spec fn text_views(strings: Seq<String>) -> Seq<Seq<char>> {
    strings.map_values(|string: String| string@)
}

/// The export directory of an image, as its header describes it.
pub struct ExportDirectory {
    pub rva: u32,
    pub size: u32,
    pub ordinal_base: u32,
    pub function_count: u32,
    pub name_count: u32,
    pub functions: u32,
    pub names: u32,
    pub ordinals: u32,
}

/// The header of the export directory at `rva`.
pub open spec fn export_header(bytes: Seq<u8>, rva: u32, size: u32) -> ExportDirectory {
    ExportDirectory {
        rva,
        size,
        ordinal_base: bytes::le32(bytes, rva + 16),
        function_count: bytes::le32(bytes, rva + 20),
        name_count: bytes::le32(bytes, rva + 24),
        functions: bytes::le32(bytes, rva + 28),
        names: bytes::le32(bytes, rva + 32),
        ordinals: bytes::le32(bytes, rva + 36),
    }
}

/// The export directory of an image, if it has one whose tables lie in the image.
pub open spec fn export_directory(bytes: Seq<u8>, model: PeModelView) -> Option<ExportDirectory> {
    match directory_of(bytes, model, EXPORT_DIRECTORY as int) {
        None => None,
        Some((rva, size)) => {
            let header = export_header(bytes, rva, size);
            let total = bytes.len() as int;
            if size >= EXPORT_HEADER_SIZE && rva + 40 <= total && 0 < header.function_count
                <= MAX_EXPORTS && header.name_count <= MAX_EXPORTS && array_inside(
                total,
                header.functions as int,
                header.function_count as int,
                4,
            ) && array_inside(total, header.names as int, header.name_count as int, 4)
                && array_inside(total, header.ordinals as int, header.name_count as int, 2) && rva
                + size <= u32::MAX {
                Some(header)
            } else {
                None
            }
        },
    }
}

/// The names that the first `count` rows of the name table give to the function with this
/// index.
pub open spec fn aliases(bytes: Seq<u8>, header: ExportDirectory, index: int, count: nat) -> Seq<
    Seq<char>,
>
    decreases count,
{
    if count == 0 {
        Seq::empty()
    } else {
        let earlier = aliases(bytes, header, index, (count - 1) as nat);
        let name = name_at(bytes, bytes::le32(bytes, header.names + 4 * (count - 1)) as int);
        if bytes::le16(bytes, header.ordinals + 2 * (count - 1)) == index && name is Some {
            earlier.push(name->0)
        } else {
            earlier
        }
    }
}

/// The symbols of a function: one for each of its names, or one without a name.
pub open spec fn symbols_of(module: Seq<char>, names: Seq<Seq<char>>, ordinal: u32) -> Seq<
    ExportView,
> {
    if names.len() == 0 {
        seq![ExportView { module, name: None, ordinal }]
    } else {
        names.map_values(|name: Seq<char>| ExportView { module, name: Some(name), ordinal })
    }
}

/// What the first `count` functions of a module add up to. An ordinal that is no 32-bit number
/// makes all of it worthless.
pub open spec fn functions_of(
    bytes: Seq<u8>,
    base: u64,
    module: Seq<char>,
    image_size: u32,
    header: ExportDirectory,
    count: nat,
) -> Option<ParsedView>
    decreases count,
{
    if count == 0 {
        Some(ParsedView { direct: Seq::empty(), forwarders: Seq::empty() })
    } else {
        let earlier = functions_of(bytes, base, module, image_size, header, (count - 1) as nat);
        let rva = bytes::le32(bytes, header.functions + 4 * (count - 1));
        let symbols = symbols_of(
            module,
            aliases(bytes, header, count - 1, header.name_count as nat),
            (header.ordinal_base + count - 1) as u32,
        );
        if earlier is None || rva == 0 {
            earlier
        } else if header.ordinal_base + count - 1 > u32::MAX {
            None
        } else if header.rva <= rva < header.rva + header.size {
            match name_at(bytes, rva as int) {
                None => earlier,
                Some(target) => Some(
                    ParsedView {
                        direct: earlier->0.direct,
                        forwarders: earlier->0.forwarders + symbols.map_values(
                            |source: ExportView| ForwardView { source, target },
                        ),
                    },
                ),
            }
        } else if rva < image_size && base + rva <= u64::MAX {
            Some(
                ParsedView {
                    direct: earlier->0.direct + symbols.map_values(
                        |symbol: ExportView| ((base + rva) as u64, symbol),
                    ),
                    forwarders: earlier->0.forwarders,
                },
            )
        } else {
            earlier
        }
    }
}

/// The name of a module: its own, or else the given one, or else an unknown one.
pub open spec fn exporting_module(
    bytes: Seq<u8>,
    rva: u32,
    fallback: Option<Seq<char>>,
) -> Seq<char> {
    match name_at(bytes, bytes::le32(bytes, rva + 12) as int) {
        Some(name) => module_name(name),
        None => match fallback {
            Some(name) => module_name(name),
            None => module_name("unknown.dll"@),
        },
    }
}

/// What the image at `base` exports, if it is an image and exports anything.
pub open spec fn parsed_exports(base: u64, bytes: Seq<u8>, fallback: Option<Seq<char>>) -> Option<
    ParsedView,
> {
    match parse::memory_image(bytes) {
        Err(_) => None,
        Ok(model) => match export_directory(bytes, model) {
            None => None,
            Some(header) => functions_of(
                bytes,
                base,
                exporting_module(bytes, header.rva, fallback),
                model.image_size,
                header,
                header.function_count as nat,
            ),
        },
    }
}

/// Reads the header of the export directory and checks its tables.
fn read_export_directory(bytes: &[u8], model: &PeModel) -> (header: Option<ExportDirectory>)
    ensures
        header == export_directory(bytes@, model@),
{
    assert(bytes.len() == bytes@.len());
    let found: (u32, u32) = directory(bytes, model, EXPORT_DIRECTORY)?;
    let rva: u32 = found.0;
    let size: u32 = found.1;
    if size < EXPORT_HEADER_SIZE {
        return None;
    }
    let start: usize = rva as usize;
    if bytes.len() < 40 || start > bytes.len() - 40 {
        return None;
    }
    let header: ExportDirectory = ExportDirectory {
        rva,
        size,
        ordinal_base: read_u32(bytes, start + 16)?,
        function_count: read_u32(bytes, start + 20)?,
        name_count: read_u32(bytes, start + 24)?,
        functions: read_u32(bytes, start + 28)?,
        names: read_u32(bytes, start + 32)?,
        ordinals: read_u32(bytes, start + 36)?,
    };
    if header.function_count == 0 || header.function_count as usize > MAX_EXPORTS
        || header.name_count as usize > MAX_EXPORTS {
        return None;
    }
    checked_array(bytes, header.functions as usize, header.function_count as usize, 4)?;
    checked_array(bytes, header.names as usize, header.name_count as usize, 4)?;
    checked_array(bytes, header.ordinals as usize, header.name_count as usize, 2)?;
    rva.checked_add(size)?;
    Some(header)
}

/// The names that a table has for a function.
spec fn names_for(names: Map<usize, Vec<String>>, index: usize) -> Seq<Seq<char>> {
    if names.contains_key(index) {
        text_views(names[index]@)
    } else {
        Seq::empty()
    }
}

/// Reads the name table.
fn read_names(bytes: &[u8], header: &ExportDirectory) -> (names: HashMap<usize, Vec<String>>)
    requires
        array_inside(bytes@.len() as int, header.names as int, header.name_count as int, 4),
        array_inside(bytes@.len() as int, header.ordinals as int, header.name_count as int, 2),
    ensures
        forall|index: usize|
            index < header.function_count ==> #[trigger] names_for(names@, index) == aliases(
                bytes@,
                *header,
                index as int,
                header.name_count as nat,
            ),
{
    assert(bytes.len() == bytes@.len());
    let mut names: HashMap<usize, Vec<String>> = HashMap::new();
    let function_count: usize = header.function_count as usize;
    let name_count: usize = header.name_count as usize;
    let names_rva: usize = header.names as usize;
    let ordinals_rva: usize = header.ordinals as usize;
    let mut row: usize = 0;
    while row < name_count
        invariant
            row <= name_count,
            name_count == header.name_count,
            function_count == header.function_count,
            names_rva == header.names,
            ordinals_rva == header.ordinals,
            bytes.len() == bytes@.len(),
            array_inside(bytes@.len() as int, names_rva as int, name_count as int, 4),
            array_inside(bytes@.len() as int, ordinals_rva as int, name_count as int, 2),
            forall|index: usize|
                index < function_count ==> #[trigger] names_for(names@, index) == aliases(
                    bytes@,
                    *header,
                    index as int,
                    row as nat,
                ),
        decreases name_count - row,
    {
        let ghost before = names@;
        if let Some(name_rva) = read_u32(bytes, names_rva + 4 * row) {
            if let Some(ordinal) = read_u16(bytes, ordinals_rva + 2 * row) {
                let ordinal_index: usize = ordinal as usize;
                if ordinal_index < function_count {
                    if let Some(name) = read_ascii(bytes, name_rva as usize) {
                        let mut list: Vec<String> = match names.remove(&ordinal_index) {
                            Some(list) => list,
                            None => Vec::new(),
                        };
                        assert(text_views(list@) =~= names_for(before, ordinal_index));
                        let ghost earlier = list@;
                        list.push(name);
                        assert(text_views(list@) =~= text_views(earlier).push(name@));
                        names.insert(ordinal_index, list);
                    }
                }
            }
        }
        proof {
            let name = name_at(bytes@, bytes::le32(bytes@, names_rva + 4 * row) as int);
            let ordinal = bytes::le16(bytes@, ordinals_rva + 2 * row);
            assert forall|index: usize| index < function_count implies #[trigger] names_for(
                names@,
                index,
            ) == aliases(bytes@, *header, index as int, (row + 1) as nat) by {
                assert(names_for(before, index) == aliases(
                    bytes@,
                    *header,
                    index as int,
                    row as nat,
                ));
            }
        }
        row = row + 1;
    }
    names
}

/// The symbol for the name with this place in the list, or for no name where there are none.
fn symbol_at(module: &String, names: Option<&Vec<String>>, ordinal: u32, place: usize) -> (symbol:
    ResolvedExport)
    requires
        match names {
            Some(names) => place < names@.len(),
            None => true,
        },
    ensures
        symbol@ == (match names {
            Some(names) => ExportView { module: module@, name: Some(names@[place as int]@), ordinal },
            None => ExportView { module: module@, name: None, ordinal },
        }),
{
    ResolvedExport {
        module: module.clone(),
        name: match names {
            Some(names) => Some(names[place].clone()),
            None => None,
        },
        ordinal,
    }
}

/// The symbols of a function.
fn symbol_list(module: &String, names: Option<&Vec<String>>, ordinal: u32) -> (symbols: Vec<
    ResolvedExport,
>)
    ensures
        export_views(symbols@) == symbols_of(
            module@,
            match names {
                Some(names) => text_views(names@),
                None => Seq::empty(),
            },
            ordinal,
        ),
{
    let mut symbols: Vec<ResolvedExport> = Vec::new();
    let ghost listed = match names {
        Some(names) => text_views(names@),
        None => Seq::empty(),
    };
    let count: usize = match names {
        Some(names) => names.len(),
        None => 0,
    };
    if count == 0 {
        symbols.push(symbol_at(module, None, ordinal, 0));
        assert(export_views(symbols@) =~= symbols_of(module@, listed, ordinal));
        return symbols;
    }
    let mut place: usize = 0;
    while place < count
        invariant
            place <= count,
            count > 0,
            names is Some,
            count == names->0@.len(),
            listed == text_views(names->0@),
            export_views(symbols@) =~= symbols_of(module@, listed, ordinal).take(place as int),
        decreases count - place,
    {
        let ghost earlier = symbols@;
        symbols.push(symbol_at(module, names, ordinal, place));
        assert(export_views(symbols@) =~= export_views(earlier).push(symbols@.last()@));
        assert(symbols@.last()@ == symbols_of(module@, listed, ordinal)[place as int]);
        place = place + 1;
    }
    assert(symbols_of(module@, listed, ordinal).take(place as int) =~= symbols_of(
        module@,
        listed,
        ordinal,
    ));
    symbols
}

/// Symbols, seen mathematically.
pub open spec fn export_views(exports: Seq<ResolvedExport>) -> Seq<ExportView> {
    exports.map_values(|export: ResolvedExport| export@)
}

/// Adds symbols that are at one address.
fn push_direct(direct: &mut Vec<(u64, ResolvedExport)>, symbols: &Vec<ResolvedExport>, address: u64)
    ensures
        direct_views(final(direct)@) == direct_views(old(direct)@) + export_views(
            symbols@,
        ).map_values(|symbol: ExportView| (address, symbol)),
{
    let ghost before = direct_views(direct@);
    let ghost added = export_views(symbols@).map_values(|symbol: ExportView| (address, symbol));
    let mut place: usize = 0;
    assert(before + added.take(0) =~= before);
    while place < symbols.len()
        invariant
            place <= symbols@.len(),
            added == export_views(symbols@).map_values(|symbol: ExportView| (address, symbol)),
            direct_views(direct@) == before + added.take(place as int),
        decreases symbols@.len() - place,
    {
        let ghost earlier = direct@;
        direct.push((address, symbols[place].copy()));
        assert(direct_views(direct@) =~= direct_views(earlier).push(added[place as int]));
        assert(added.take(place + 1) =~= added.take(place as int).push(added[place as int]));
        place = place + 1;
        assert(direct_views(direct@) =~= before + added.take(place as int));
    }
    assert(added.take(place as int) =~= added);
}

/// Adds symbols that stand for one target.
fn push_forwarders(
    forwarders: &mut Vec<ForwardedExport>,
    symbols: &Vec<ResolvedExport>,
    target: &String,
)
    ensures
        forward_views(final(forwarders)@) == forward_views(old(forwarders)@) + export_views(
            symbols@,
        ).map_values(|source: ExportView| ForwardView { source, target: target@ }),
{
    let ghost before = forward_views(forwarders@);
    let ghost added = export_views(symbols@).map_values(
        |source: ExportView| ForwardView { source, target: target@ },
    );
    let mut place: usize = 0;
    assert(before + added.take(0) =~= before);
    while place < symbols.len()
        invariant
            place <= symbols@.len(),
            added == export_views(symbols@).map_values(
                |source: ExportView| ForwardView { source, target: target@ },
            ),
            forward_views(forwarders@) == before + added.take(place as int),
        decreases symbols@.len() - place,
    {
        let ghost earlier = forwarders@;
        forwarders.push(ForwardedExport { source: symbols[place].copy(), target: target.clone() });
        assert(forward_views(forwarders@) =~= forward_views(earlier).push(added[place as int]));
        assert(added.take(place + 1) =~= added.take(place as int).push(added[place as int]));
        place = place + 1;
        assert(forward_views(forwarders@) =~= before + added.take(place as int));
    }
    assert(added.take(place as int) =~= added);
}

proof fn lemma_functions_stop(
    bytes: Seq<u8>,
    base: u64,
    module: Seq<char>,
    image_size: u32,
    header: ExportDirectory,
    fewer: nat,
    more: nat,
)
    requires
        fewer <= more,
        functions_of(bytes, base, module, image_size, header, fewer) is None,
    ensures
        functions_of(bytes, base, module, image_size, header, more) is None,
    decreases more,
{
    if fewer < more {
        lemma_functions_stop(bytes, base, module, image_size, header, fewer, (more - 1) as nat);
    }
}

/// Reads the functions of a module.
fn read_functions(
    bytes: &[u8],
    base: u64,
    module: &String,
    image_size: u32,
    header: &ExportDirectory,
    names: &HashMap<usize, Vec<String>>,
) -> (parsed: Option<ParsedExports>)
    requires
        array_inside(bytes@.len() as int, header.functions as int, header.function_count as int, 4),
        header.rva + header.size <= u32::MAX,
        header.function_count <= MAX_EXPORTS,
        forall|index: usize|
            index < header.function_count ==> #[trigger] names_for(names@, index) == aliases(
                bytes@,
                *header,
                index as int,
                header.name_count as nat,
            ),
    ensures
        match functions_of(
            bytes@,
            base,
            module@,
            image_size,
            *header,
            header.function_count as nat,
        ) {
            Some(expected) => parsed is Some && parsed->0@ == expected,
            None => parsed is None,
        },
{
    assert(bytes.len() == bytes@.len());
    let count: usize = header.function_count as usize;
    let functions_rva: usize = header.functions as usize;
    let mut direct: Vec<(u64, ResolvedExport)> = Vec::new();
    let mut forwarders: Vec<ForwardedExport> = Vec::new();
    let mut index: usize = 0;
    assert(direct_views(direct@) =~= Seq::empty());
    assert(forward_views(forwarders@) =~= Seq::empty());
    while index < count
        invariant
            index <= count,
            count == header.function_count,
            count <= MAX_EXPORTS,
            functions_rva == header.functions,
            bytes.len() == bytes@.len(),
            array_inside(bytes@.len() as int, functions_rva as int, count as int, 4),
            header.rva + header.size <= u32::MAX,
            forall|index: usize|
                index < header.function_count ==> #[trigger] names_for(names@, index) == aliases(
                    bytes@,
                    *header,
                    index as int,
                    header.name_count as nat,
                ),
            functions_of(bytes@, base, module@, image_size, *header, index as nat) == Some(
                ParsedView {
                    direct: direct_views(direct@),
                    forwarders: forward_views(forwarders@),
                },
            ),
        decreases count - index,
    {
        proof {
            if functions_of(bytes@, base, module@, image_size, *header, (index + 1) as nat) is None {
                lemma_functions_stop(
                    bytes@,
                    base,
                    module@,
                    image_size,
                    *header,
                    (index + 1) as nat,
                    count as nat,
                );
            }
        }
        let function_rva: u32 = read_u32(bytes, functions_rva + 4 * index)?;
        if function_rva != 0 {
            let ordinal: u32 = header.ordinal_base.checked_add(index as u32)?;
            let listed: Option<&Vec<String>> = names.get(&index);
            assert(names_for(names@, index) == match listed {
                Some(list) => text_views(list@),
                None => Seq::empty(),
            });
            let symbols: Vec<ResolvedExport> = symbol_list(module, listed, ordinal);
            if function_rva >= header.rva && function_rva < header.rva + header.size {
                if let Some(target) = read_ascii(bytes, function_rva as usize) {
                    push_forwarders(&mut forwarders, &symbols, &target);
                }
            } else if function_rva < image_size {
                if let Some(address) = base.checked_add(function_rva as u64) {
                    push_direct(&mut direct, &symbols, address);
                }
            }
        }
        index = index + 1;
    }
    Some(ParsedExports { direct, forwarders })
}

/// The characters of an optional borrowed text.
pub open spec fn str_view(string: Option<&str>) -> Option<Seq<char>> {
    match string {
        Some(string) => Some(string@),
        None => None,
    }
}

/// Reads what the image at `base` exports.
pub fn parse_exports(base: u64, bytes: &[u8], fallback_name: Option<&str>) -> (parsed: Option<
    ParsedExports,
>)
    ensures
        match parsed_exports(base, bytes@, str_view(fallback_name)) {
            Some(expected) => parsed is Some && parsed->0@ == expected,
            None => parsed is None,
        },
{
    match parse_memory_image(bytes) {
        Err(_) => None,
        Ok(image) => {
            let header: ExportDirectory = read_export_directory(bytes, image.model())?;
            let module: String = match read_ascii(
                bytes,
                read_u32(bytes, header.rva as usize + 12)? as usize,
            ) {
                Some(name) => normalize_module(name.as_str()),
                None => match fallback_name {
                    Some(name) => normalize_module(name),
                    None => normalize_module("unknown.dll"),
                },
            };
            let names: HashMap<usize, Vec<String>> = read_names(bytes, &header);
            read_functions(bytes, base, &module, image.model().image_size(), &header, &names)
        },
    }
}

/// Symbols with numbers.
pub type SymbolMap = Map<(Seq<char>, KeyView), u64>;

/// The map with a number for a symbol that had none.
pub open spec fn with_new(map: SymbolMap, symbol: (Seq<char>, KeyView), value: u64) -> SymbolMap {
    if map.contains_key(symbol) {
        map
    } else {
        map.insert(symbol, value)
    }
}

/// The definitions with one more symbol, under its ordinal and its name. The first address of a
/// symbol stays.
pub open spec fn defined(definitions: SymbolMap, address: u64, symbol: ExportView) -> SymbolMap {
    let module = text::lowercase(symbol.module);
    let by_ordinal = with_new(definitions, (module, KeyView::Ordinal(symbol.ordinal)), address);
    match symbol.name {
        Some(name) => with_new(
            by_ordinal,
            (module, KeyView::Name(text::lowercase(name))),
            address,
        ),
        None => by_ordinal,
    }
}

/// Adds a symbol to the definitions.
pub fn add_definition(definitions: &mut SymbolTable, address: u64, symbol: &ResolvedExport)
    ensures
        final(definitions).view() == defined(old(definitions).view(), address, symbol@),
{
    let module: String = ascii_lowercase(symbol.module.as_str());
    definitions.insert_if_absent(module.clone(), ExportKey::Ordinal(symbol.ordinal), address);
    if let Some(name) = &symbol.name {
        definitions.insert_if_absent(
            module,
            ExportKey::Name(ascii_lowercase(name.as_str())),
            address,
        );
    }
}

/// The symbols that stand for others, by their place in the list. The last one of a name counts.
pub open spec fn pending_of(forwarders: Seq<ForwardView>) -> SymbolMap
    decreases forwarders.len(),
{
    if forwarders.len() == 0 {
        Map::empty()
    } else {
        let earlier = pending_of(forwarders.drop_last());
        let place = (forwarders.len() - 1) as u64;
        let source = forwarders.last().source;
        let module = text::lowercase(source.module);
        let by_ordinal = earlier.insert((module, KeyView::Ordinal(source.ordinal)), place);
        match source.name {
            Some(name) => by_ordinal.insert(
                (module, KeyView::Name(text::lowercase(name))),
                place,
            ),
            None => by_ordinal,
        }
    }
}

/// The numbers are places in a list of this length.
pub open spec fn places_in(map: SymbolMap, length: int) -> bool {
    forall|symbol: (Seq<char>, KeyView)| #[trigger]
        map.contains_key(symbol) ==> map[symbol] < length
}

proof fn lemma_pending_places(forwarders: Seq<ForwardView>)
    requires
        forwarders.len() <= u64::MAX,
    ensures
        places_in(pending_of(forwarders), forwarders.len() as int),
    decreases forwarders.len(),
{
    if forwarders.len() > 0 {
        lemma_pending_places(forwarders.drop_last());
    }
}

/// Lists the symbols that stand for others.
fn pending_table(forwarders: &Vec<ForwardedExport>) -> (pending: SymbolTable)
    ensures
        pending.view() == pending_of(forward_views(forwarders@)),
{
    let mut pending: SymbolTable = SymbolTable::new();
    let ghost views = forward_views(forwarders@);
    let mut place: usize = 0;
    assert(views.take(0) =~= Seq::<ForwardView>::empty());
    while place < forwarders.len()
        invariant
            place <= forwarders@.len(),
            views == forward_views(forwarders@),
            pending.view() == pending_of(views.take(place as int)),
        decreases forwarders@.len() - place,
    {
        let forwarder: &ForwardedExport = &forwarders[place];
        proof {
            let more = views.take(place + 1);
            assert(more.drop_last() =~= views.take(place as int));
            assert(more.last() == forwarder@);
        }
        let module: String = ascii_lowercase(forwarder.source.module.as_str());
        pending.insert(
            module.clone(),
            ExportKey::Ordinal(forwarder.source.ordinal),
            place as u64,
        );
        if let Some(name) = &forwarder.source.name {
            pending.insert(
                module,
                ExportKey::Name(ascii_lowercase(name.as_str())),
                place as u64,
            );
        }
        place = place + 1;
    }
    assert(views.take(place as int) =~= views);
    pending
}

/// The address of a symbol: its own, or that of a module that an API set stands for, or that of
/// the symbol it stands for, over at most `hops` steps. An API set that stands for several
/// addresses has none.
pub open spec fn symbol_address(
    module: Seq<char>,
    key: KeyView,
    definitions: SymbolMap,
    pending: SymbolMap,
    forwarders: Seq<ForwardView>,
    hops: nat,
) -> Option<u64>
    decreases hops,
{
    let shared = if api_set(module) {
        symbols::match_of(definitions, key)
    } else {
        KeyMatch::Nowhere
    };
    if hops == 0 {
        None
    } else if definitions.contains_key((module, key)) {
        Some(definitions[(module, key)])
    } else if shared != KeyMatch::Nowhere {
        match shared {
            KeyMatch::One(address) => Some(address),
            _ => None,
        }
    } else if !pending.contains_key((module, key)) {
        None
    } else {
        match forward_target(forwarders[pending[(module, key)] as int].target) {
            None => None,
            Some((next, next_key)) => symbol_address(
                text::lowercase(next),
                next_key,
                definitions,
                pending,
                forwarders,
                (hops - 1) as nat,
            ),
        }
    }
}

/// The address that is looked up for a symbol of a module.
pub open spec fn resolved_key(
    module: Seq<char>,
    key: KeyView,
    definitions: SymbolMap,
    pending: SymbolMap,
    forwarders: Seq<ForwardView>,
) -> Option<u64> {
    symbol_address(
        text::lowercase(module_name(module)),
        key,
        definitions,
        pending,
        forwarders,
        MAX_FORWARD_DEPTH as nat,
    )
}

/// Looks up the address of a symbol of a module.
pub fn resolve_key(
    module: &str,
    key: &ExportKey,
    definitions: &SymbolTable,
    pending: &SymbolTable,
    forwarders: &Vec<ForwardedExport>,
) -> (address: Option<u64>)
    requires
        places_in(pending.view(), forwarders@.len() as int),
    ensures
        address == resolved_key(
            module@,
            key@,
            definitions.view(),
            pending.view(),
            forward_views(forwarders@),
        ),
{
    let ghost views = forward_views(forwarders@);
    let ghost expected = resolved_key(
        module@,
        key@,
        definitions.view(),
        pending.view(),
        views,
    );
    let mut current: String = ascii_lowercase(normalize_module(module).as_str());
    let mut wanted: ExportKey = key.copy();
    let mut hops: usize = MAX_FORWARD_DEPTH;
    while hops > 0
        invariant
            places_in(pending.view(), forwarders@.len() as int),
            views == forward_views(forwarders@),
            expected == resolved_key(
                module@,
                key@,
                definitions.view(),
                pending.view(),
                views,
            ),
            expected == symbol_address(
                current@,
                wanted@,
                definitions.view(),
                pending.view(),
                views,
                hops as nat,
            ),
        decreases hops,
    {
        if let Some(address) = definitions.get(&current, &wanted) {
            return Some(address);
        }
        if is_api_set(current.as_str()) {
            match definitions.match_key(&wanted) {
                KeyMatch::One(address) => {
                    return Some(address);
                },
                KeyMatch::Several => {
                    return None;
                },
                KeyMatch::Nowhere => {},
            }
        }
        let place: u64 = pending.get(&current, &wanted)?;
        assert(forwarders.len() == forwarders@.len());
        assert(views[place as int] == forwarders@[place as int]@);
        let next: (String, ExportKey) = parse_forward_target(
            forwarders[place as usize].target.as_str(),
        )?;
        current = ascii_lowercase(next.0.as_str());
        wanted = next.1;
        hops = hops - 1;
    }
    None
}

/// The address of the symbol that `forwarder` stands for, if there is one.
pub open spec fn forwarded_address(
    forwarder: ForwardView,
    definitions: SymbolMap,
    forwarders: Seq<ForwardView>,
) -> Option<u64> {
    match forward_target(forwarder.target) {
        None => None,
        Some((module, key)) => resolved_key(
            module,
            key,
            definitions,
            pending_of(forwarders),
            forwarders,
        ),
    }
}

/// Addresses with their symbols.
pub type AddressMap = Map<u64, Seq<ExportView>>;

/// The map with one more symbol at an address.
pub open spec fn with_symbol(map: AddressMap, address: u64, symbol: ExportView) -> AddressMap {
    map.insert(
        address,
        (if map.contains_key(address) {
            map[address]
        } else {
            Seq::empty()
        }).push(symbol),
    )
}

/// The addresses of the first `count` symbols.
pub open spec fn direct_addresses(direct: Seq<(u64, ExportView)>, count: nat) -> AddressMap
    decreases count,
{
    if count == 0 {
        Map::empty()
    } else {
        with_symbol(
            direct_addresses(direct, (count - 1) as nat),
            direct[count - 1].0,
            direct[count - 1].1,
        )
    }
}

/// The definitions of the first `count` symbols.
pub open spec fn direct_definitions(direct: Seq<(u64, ExportView)>, count: nat) -> SymbolMap
    decreases count,
{
    if count == 0 {
        Map::empty()
    } else {
        defined(
            direct_definitions(direct, (count - 1) as nat),
            direct[count - 1].0,
            direct[count - 1].1,
        )
    }
}

/// The addresses after the first `count` symbols that stand for others are added.
pub open spec fn with_forwarders(
    addresses: AddressMap,
    definitions: SymbolMap,
    forwarders: Seq<ForwardView>,
    count: nat,
) -> AddressMap
    decreases count,
{
    if count == 0 {
        addresses
    } else {
        let earlier = with_forwarders(addresses, definitions, forwarders, (count - 1) as nat);
        match forwarded_address(forwarders[count - 1], definitions, forwarders) {
            Some(address) => with_symbol(earlier, address, forwarders[count - 1].source),
            None => earlier,
        }
    }
}

/// How many of the first `count` symbols that stand for others lead nowhere.
pub open spec fn unresolved(definitions: SymbolMap, forwarders: Seq<ForwardView>, count: nat) -> int
    decreases count,
{
    if count == 0 {
        0
    } else {
        unresolved(definitions, forwarders, (count - 1) as nat) + if forwarded_address(
            forwarders[count - 1],
            definitions,
            forwarders,
        ) is None {
            1int
        } else {
            0
        }
    }
}

/// The exported symbols of all captured modules, by address.
pub struct ExportIndex {
    addresses: HashMap<u64, Vec<ResolvedExport>>,
    stats: ExportStats,
}

/// The index, seen mathematically.
pub struct IndexView {
    pub addresses: AddressMap,
    pub stats: ExportStats,
}

/// The addresses, seen mathematically.
spec fn address_view(addresses: Map<u64, Vec<ResolvedExport>>) -> AddressMap {
    addresses.map_values(|symbols: Vec<ResolvedExport>| export_views(symbols@))
}

impl View for ExportIndex {
    type V = IndexView;

    closed spec fn view(&self) -> IndexView {
        IndexView { addresses: address_view(self.addresses@), stats: self.stats }
    }
}

/// A captured module: where it is, its bytes, and the name that it is known by.
pub struct SourceView {
    pub base: u64,
    pub bytes: Seq<u8>,
    pub name: Option<Seq<char>>,
}

/// A captured module, seen mathematically.
pub open spec fn source_view(image: (u64, &[u8], Option<&str>)) -> SourceView {
    SourceView { base: image.0, bytes: image.1@, name: str_view(image.2) }
}

/// What a captured module exports; nothing, if it cannot be read.
pub open spec fn exports_of(source: SourceView) -> ParsedView {
    match parsed_exports(source.base, source.bytes, source.name) {
        Some(parsed) => parsed,
        None => ParsedView { direct: Seq::empty(), forwarders: Seq::empty() },
    }
}

/// The symbols with their addresses of the first `count` modules.
pub open spec fn all_direct(sources: Seq<SourceView>, count: nat) -> Seq<(u64, ExportView)>
    decreases count,
{
    if count == 0 {
        Seq::empty()
    } else {
        all_direct(sources, (count - 1) as nat) + exports_of(sources[count - 1]).direct
    }
}

/// The symbols that stand for others of the first `count` modules.
pub open spec fn all_forwarders(sources: Seq<SourceView>, count: nat) -> Seq<ForwardView>
    decreases count,
{
    if count == 0 {
        Seq::empty()
    } else {
        all_forwarders(sources, (count - 1) as nat) + exports_of(sources[count - 1]).forwarders
    }
}

/// The addresses, definitions and forwarders are those of the first `count` modules.
spec fn has_modules(
    addresses: AddressMap,
    definitions: SymbolMap,
    forwarders: Seq<ForwardView>,
    sources: Seq<SourceView>,
    count: nat,
) -> bool {
    let direct = all_direct(sources, count);
    &&& addresses == direct_addresses(direct, direct.len())
    &&& definitions == direct_definitions(direct, direct.len())
    &&& forwarders == all_forwarders(sources, count)
}

/// The index of captured modules.
pub open spec fn index_of(sources: Seq<SourceView>) -> IndexView {
    let direct = all_direct(sources, sources.len());
    let forwarders = all_forwarders(sources, sources.len());
    let definitions = direct_definitions(direct, direct.len());
    let addresses = with_forwarders(
        direct_addresses(direct, direct.len()),
        definitions,
        forwarders,
        forwarders.len(),
    );
    IndexView {
        addresses,
        stats: ExportStats {
            modules: sources.len() as usize,
            addresses: addresses.len() as usize,
            forwarders: forwarders.len() as usize,
            unresolved_forwarders: unresolved(definitions, forwarders, forwarders.len()) as usize,
        },
    }
}

/// The symbol that is at an address, and whether modules disagree on it.
pub open spec fn symbol_at_address(addresses: AddressMap, address: u64) -> Option<
    (ExportView, bool),
> {
    if addresses.contains_key(address) && addresses[address].len() > 0 {
        let symbols = addresses[address];
        Some(
            (
                symbols[0],
                exists|i: int|
                    0 <= i < symbols.len() && !text::same_letters(
                        (#[trigger] symbols[i]).module,
                        symbols[0].module,
                    ),
            ),
        )
    } else {
        None
    }
}

/// Adds a symbol at an address.
fn push_symbol(
    addresses: &mut HashMap<u64, Vec<ResolvedExport>>,
    address: u64,
    symbol: ResolvedExport,
)
    ensures
        address_view(final(addresses)@) == with_symbol(
            address_view(old(addresses)@),
            address,
            symbol@,
        ),
{
    let ghost before = addresses@;
    let mut list: Vec<ResolvedExport> = match addresses.remove(&address) {
        Some(list) => list,
        None => Vec::new(),
    };
    let ghost earlier = list@;
    list.push(symbol);
    assert(export_views(list@) =~= export_views(earlier).push(symbol@));
    addresses.insert(address, list);
    proof {
        let expected = with_symbol(address_view(before), address, symbol@);
        assert(earlier.len() == 0 ==> export_views(earlier) =~= Seq::empty());
        assert(address_view(addresses@) =~= expected);
    }
}

impl ExportIndex {
    /// The empty index.
    pub open spec fn nothing() -> IndexView {
        IndexView {
            addresses: Map::empty(),
            stats: ExportStats {
                modules: 0,
                addresses: 0,
                forwarders: 0,
                unresolved_forwarders: 0,
            },
        }
    }

    /// What was found while the index was built.
    pub fn stats(&self) -> (stats: ExportStats)
        ensures
            stats == self@.stats,
    {
        self.stats
    }

    /// The symbol that is at an address, and whether modules disagree on it.
    pub fn resolve(&self, address: u64) -> (found: Option<(&ResolvedExport, bool)>)
        ensures
            match (symbol_at_address(self@.addresses, address), found) {
                (Some((symbol, ambiguous)), Some((found_symbol, found_ambiguous))) => found_symbol@
                    == symbol && found_ambiguous == ambiguous,
                (None, None) => true,
                _ => false,
            },
    {
        match self.addresses.get(&address) {
            None => None,
            Some(symbols) => {
                let ghost views = export_views(symbols@);
                assert(self@.addresses.contains_key(address) && self@.addresses[address] == views);
                if symbols.len() == 0 {
                    return None;
                }
                let first: &ResolvedExport = &symbols[0];
                assert(views[0] == first@);
                let mut place: usize = 0;
                while place < symbols.len()
                    invariant
                        place <= symbols@.len(),
                        symbols@.len() > 0,
                        views == export_views(symbols@),
                        views[0] == first@,
                        *first == symbols@[0],
                        self@.addresses.contains_key(address),
                        self@.addresses[address] == views,
                        forall|i: int|
                            0 <= i < place ==> text::same_letters(
                                (#[trigger] views[i]).module,
                                first@.module,
                            ),
                    decreases symbols@.len() - place,
                {
                    assert(views[place as int] == symbols@[place as int]@);
                    if !eq_ignore_case(symbols[place].module.as_str(), first.module.as_str()) {
                        return Some((first, true));
                    }
                    place = place + 1;
                }
                Some((first, false))
            },
        }
    }

    /// Builds the index of captured modules.
    pub fn build(images: &[(u64, &[u8], Option<&str>)]) -> (index: ExportIndex)
        ensures
            index@ == index_of(
                images@.map_values(|image: (u64, &[u8], Option<&str>)| source_view(image)),
            ),
    {
        let ghost sources = images@.map_values(
            |image: (u64, &[u8], Option<&str>)| source_view(image),
        );
        let mut index: ExportIndex = ExportIndex::default();
        let mut definitions: SymbolTable = SymbolTable::new();
        let mut forwarders: Vec<ForwardedExport> = Vec::new();
        let mut count: usize = 0;
        assert(forward_views(forwarders@) =~= Seq::empty());
        while count < images.len()
            invariant
                count <= images@.len(),
                sources == images@.map_values(
                    |image: (u64, &[u8], Option<&str>)| source_view(image),
                ),
                index@.stats == (ExportStats {
                    modules: count,
                    addresses: 0,
                    forwarders: 0,
                    unresolved_forwarders: 0,
                }),
                has_modules(
                    index@.addresses,
                    definitions.view(),
                    forward_views(forwarders@),
                    sources,
                    count as nat,
                ),
            decreases images@.len() - count,
        {
            let image: (u64, &[u8], Option<&str>) = images[count];
            assert(sources[count as int] == source_view(image));
            index.add_module(
                &mut definitions,
                &mut forwarders,
                image,
                Ghost(sources),
                Ghost(count as nat),
            );
            index.stats.modules = index.stats.modules + 1;
            count = count + 1;
        }
        index.finish_build(&definitions, &forwarders);
        index
    }

    /// Adds what one module exports.
    fn add_module(
        &mut self,
        definitions: &mut SymbolTable,
        forwarders: &mut Vec<ForwardedExport>,
        image: (u64, &[u8], Option<&str>),
        Ghost(sources): Ghost<Seq<SourceView>>,
        Ghost(count): Ghost<nat>,
    )
        requires
            count < sources.len(),
            sources[count as int] == source_view(image),
            has_modules(
                old(self)@.addresses,
                old(definitions).view(),
                forward_views(old(forwarders)@),
                sources,
                count,
            ),
        ensures
            has_modules(
                final(self)@.addresses,
                final(definitions).view(),
                forward_views(final(forwarders)@),
                sources,
                count + 1,
            ),
            final(self)@.stats == old(self)@.stats,
    {
        let ghost earlier = all_direct(sources, count);
        match parse_exports(image.0, image.1, image.2) {
            None => {
                assert(all_direct(sources, count + 1) =~= earlier);
                assert(all_forwarders(sources, count + 1) =~= all_forwarders(sources, count));
            },
            Some(parsed) => {
                self.add_direct(definitions, &parsed.direct, Ghost(earlier));
                append_forwarders(forwarders, parsed.forwarders);
            },
        }
    }

    /// Adds the symbols that stand for others, and counts what the index holds.
    fn finish_build(&mut self, definitions: &SymbolTable, forwarders: &Vec<ForwardedExport>)
        requires
            old(self)@.stats.unresolved_forwarders == 0,
        ensures
            ({
                let views = forward_views(forwarders@);
                let addresses = with_forwarders(
                    old(self)@.addresses,
                    definitions.view(),
                    views,
                    views.len(),
                );
                final(self)@ == (IndexView {
                    addresses,
                    stats: ExportStats {
                        modules: old(self)@.stats.modules,
                        addresses: addresses.len() as usize,
                        forwarders: views.len() as usize,
                        unresolved_forwarders: unresolved(definitions.view(), views, views.len())
                            as usize,
                    },
                })
            }),
    {
        self.stats.forwarders = forwarders.len();
        resolve_forwarders(self, definitions, forwarders);
        self.stats.addresses = self.addresses.len();
        proof {
            assert(address_view(self.addresses@).dom() =~= self.addresses@.dom());
            lemma_unresolved_bounds(
                definitions.view(),
                forward_views(forwarders@),
                forwarders@.len(),
            );
        }
    }

    /// Adds the symbols of one module, behind those of `earlier`.
    fn add_direct(
        &mut self,
        definitions: &mut SymbolTable,
        direct: &Vec<(u64, ResolvedExport)>,
        Ghost(earlier): Ghost<Seq<(u64, ExportView)>>,
    )
        requires
            old(self)@.addresses == direct_addresses(earlier, earlier.len()),
            old(definitions).view() == direct_definitions(earlier, earlier.len()),
        ensures
            ({
                let all = earlier + direct_views(direct@);
                &&& final(self)@.addresses == direct_addresses(all, all.len())
                &&& final(definitions).view() == direct_definitions(all, all.len())
            }),
            final(self)@.stats == old(self)@.stats,
    {
        let ghost all = earlier + direct_views(direct@);
        let mut place: usize = 0;
        proof {
            assert(all.take(earlier.len() as int) =~= earlier);
            lemma_direct_prefix(earlier, all, earlier.len());
        }
        while place < direct.len()
            invariant
                place <= direct@.len(),
                all == earlier + direct_views(direct@),
                self@.addresses == direct_addresses(all, (earlier.len() + place) as nat),
                definitions.view() == direct_definitions(all, (earlier.len() + place) as nat),
                self@.stats == old(self)@.stats,
            decreases direct@.len() - place,
        {
            let item: &(u64, ResolvedExport) = &direct[place];
            assert(all[earlier.len() + place] == (item.0, item.1@));
            add_definition(definitions, item.0, &item.1);
            push_symbol(&mut self.addresses, item.0, item.1.copy());
            place = place + 1;
        }
    }
}

proof fn lemma_direct_prefix(
    shorter: Seq<(u64, ExportView)>,
    longer: Seq<(u64, ExportView)>,
    count: nat,
)
    requires
        count <= shorter.len() <= longer.len(),
        longer.take(shorter.len() as int) == shorter,
    ensures
        direct_addresses(longer, count) == direct_addresses(shorter, count),
        direct_definitions(longer, count) == direct_definitions(shorter, count),
    decreases count,
{
    if count > 0 {
        lemma_direct_prefix(shorter, longer, (count - 1) as nat);
        assert(longer.take(shorter.len() as int)[count - 1] == longer[count - 1]);
    }
}

proof fn lemma_unresolved_bounds(definitions: SymbolMap, forwarders: Seq<ForwardView>, count: nat)
    ensures
        0 <= unresolved(definitions, forwarders, count) <= count,
    decreases count,
{
    if count > 0 {
        lemma_unresolved_bounds(definitions, forwarders, (count - 1) as nat);
    }
}

/// Adds the symbols of one module that stand for others.
fn append_forwarders(forwarders: &mut Vec<ForwardedExport>, added: Vec<ForwardedExport>)
    ensures
        forward_views(final(forwarders)@) == forward_views(old(forwarders)@) + forward_views(added@),
{
    let mut rest: Vec<ForwardedExport> = added;
    let ghost before = forwarders@;
    forwarders.append(&mut rest);
    assert(forward_views(forwarders@) =~= forward_views(before) + forward_views(added@));
}

/// Adds the symbols that stand for others, each at the address that it leads to, and counts
/// those that lead nowhere.
pub fn resolve_forwarders(
    index: &mut ExportIndex,
    definitions: &SymbolTable,
    forwarders: &Vec<ForwardedExport>,
)
    ensures
        final(index)@.addresses == with_forwarders(
            old(index)@.addresses,
            definitions.view(),
            forward_views(forwarders@),
            forwarders@.len(),
        ),
        final(index)@.stats == (ExportStats {
            unresolved_forwarders: layout::least(
                old(index)@.stats.unresolved_forwarders + unresolved(
                    definitions.view(),
                    forward_views(forwarders@),
                    forwarders@.len(),
                ),
                usize::MAX as int,
            ) as usize,
            ..old(index)@.stats
        }),
{
    let pending: SymbolTable = pending_table(forwarders);
    let ghost views = forward_views(forwarders@);
    assert(forwarders.len() == forwarders@.len());
    proof {
        lemma_pending_places(views);
    }
    let mut place: usize = 0;
    while place < forwarders.len()
        invariant
            place <= forwarders@.len(),
            views == forward_views(forwarders@),
            pending.view() == pending_of(views),
            places_in(pending.view(), forwarders@.len() as int),
            index@.addresses == with_forwarders(
                old(index)@.addresses,
                definitions.view(),
                views,
                place as nat,
            ),
            index@.stats == (ExportStats {
                unresolved_forwarders: layout::least(
                    old(index)@.stats.unresolved_forwarders + unresolved(
                        definitions.view(),
                        views,
                        place as nat,
                    ),
                    usize::MAX as int,
                ) as usize,
                ..old(index)@.stats
            }),
            0 <= unresolved(definitions.view(), views, place as nat) <= place,
        decreases forwarders@.len() - place,
    {
        let forwarder: &ForwardedExport = &forwarders[place];
        assert(views[place as int] == forwarder@);
        let address: Option<u64> = match parse_forward_target(forwarder.target.as_str()) {
            None => None,
            Some((module, key)) => resolve_key(
                module.as_str(),
                &key,
                definitions,
                &pending,
                forwarders,
            ),
        };
        assert(address == forwarded_address(views[place as int], definitions.view(), views));
        match address {
            None => {
                index.stats.unresolved_forwarders =
                index.stats.unresolved_forwarders.saturating_add(1);
            },
            Some(address) => {
                push_symbol(&mut index.addresses, address, forwarder.source.copy());
            },
        }
        place = place + 1;
    }
}

impl Default for ExportIndex {
    fn default() -> (index: ExportIndex)
        ensures
            index@ == ExportIndex::nothing(),
    {
        let index: ExportIndex = ExportIndex {
            addresses: HashMap::new(),
            stats: ExportStats {
                modules: 0,
                addresses: 0,
                forwarders: 0,
                unresolved_forwarders: 0,
            },
        };
        assert(index@.addresses =~= Map::empty());
        index
    }
}

/// One of the symbols has this address.
pub open spec fn exported_at(direct: Seq<(u64, ExportView)>, address: u64) -> bool {
    exists|index: int| 0 <= index < direct.len() && (#[trigger] direct[index]).0 == address
}

/// One of the definitions has this address.
pub open spec fn defined_at(definitions: SymbolMap, address: u64) -> bool {
    exists|symbol: (Seq<char>, KeyView)| #[trigger]
        definitions.contains_key(symbol) && definitions[symbol] == address
}

/// A symbol that stands for another leads to an address that some module defines, or nowhere.
pub proof fn forwarders_lead_to_definitions(
    module: Seq<char>,
    key: KeyView,
    definitions: SymbolMap,
    pending: SymbolMap,
    forwarders: Seq<ForwardView>,
    hops: nat,
)
    requires
        symbol_address(module, key, definitions, pending, forwarders, hops) is Some,
    ensures
        defined_at(
            definitions,
            symbol_address(module, key, definitions, pending, forwarders, hops)->0,
        ),
    decreases hops,
{
    if definitions.contains_key((module, key)) {
        assert(definitions.contains_key((module, key)));
    } else if api_set(module) && symbols::match_of(definitions, key) != KeyMatch::Nowhere {
        let other = choose|other: Seq<char>| #[trigger] definitions.contains_key((other, key));
        let value = choose|value: u64| #[trigger] symbols::agrees_on(definitions, key, value);
        assert(definitions.contains_key((other, key)));
        assert(symbols::agrees_on(definitions, key, value));
    } else {
        let target = forward_target(forwarders[pending[(module, key)] as int].target)->0;
        forwarders_lead_to_definitions(
            text::lowercase(target.0),
            target.1,
            definitions,
            pending,
            forwarders,
            (hops - 1) as nat,
        );
    }
}

proof fn lemma_definitions_are_exported(direct: Seq<(u64, ExportView)>, count: nat, address: u64)
    requires
        count <= direct.len(),
        defined_at(direct_definitions(direct, count), address),
    ensures
        exported_at(direct, address),
    decreases count,
{
    if count > 0 {
        let earlier = direct_definitions(direct, (count - 1) as nat);
        let symbol = choose|symbol: (Seq<char>, KeyView)| #[trigger]
            direct_definitions(direct, count).contains_key(symbol) && direct_definitions(
                direct,
                count,
            )[symbol] == address;
        if earlier.contains_key(symbol) && earlier[symbol] == address {
            lemma_definitions_are_exported(direct, (count - 1) as nat, address);
        } else {
            assert(direct[count - 1].0 == address);
        }
    }
}

proof fn lemma_direct_addresses(direct: Seq<(u64, ExportView)>, count: nat)
    requires
        count <= direct.len(),
    ensures
        forall|address: u64| #[trigger]
            direct_addresses(direct, count).contains_key(address) ==> exported_at(direct, address),
        forall|index: int|
            #![trigger direct[index]]
            0 <= index < count ==> direct_addresses(direct, count).contains_key(direct[index].0)
                && direct_addresses(direct, count)[direct[index].0].contains(direct[index].1),
    decreases count,
{
    if count > 0 {
        let earlier = direct_addresses(direct, (count - 1) as nat);
        let after = direct_addresses(direct, count);
        lemma_direct_addresses(direct, (count - 1) as nat);
        assert forall|address: u64| #[trigger] after.contains_key(address) implies exported_at(
            direct,
            address,
        ) by {
            if !earlier.contains_key(address) {
                assert(direct[count - 1].0 == address);
            }
        }
        assert forall|index: int|
            #![trigger direct[index]]
            0 <= index < count implies after.contains_key(direct[index].0)
            && after[direct[index].0].contains(direct[index].1) by {
            if index < count - 1 {
                lemma_symbol_stays(
                    earlier,
                    direct[count - 1].0,
                    direct[count - 1].1,
                    direct[index].0,
                    direct[index].1,
                );
            } else {
                assert(after[direct[index].0].last() == direct[index].1);
            }
        }
    }
}

proof fn lemma_symbol_stays(
    before: AddressMap,
    address: u64,
    symbol: ExportView,
    other: u64,
    kept: ExportView,
)
    requires
        before.contains_key(other),
        before[other].contains(kept),
    ensures
        with_symbol(before, address, symbol).contains_key(other),
        with_symbol(before, address, symbol)[other].contains(kept),
{
    let place = choose|place: int| 0 <= place < before[other].len() && before[other][place] == kept;
    let after = with_symbol(before, address, symbol);
    assert(after[other][place] == kept);
}

proof fn lemma_with_forwarders(
    direct: Seq<(u64, ExportView)>,
    forwarders: Seq<ForwardView>,
    count: nat,
)
    requires
        count <= forwarders.len(),
    ensures
        ({
            let definitions = direct_definitions(direct, direct.len());
            let addresses = with_forwarders(
                direct_addresses(direct, direct.len()),
                definitions,
                forwarders,
                count,
            );
            &&& forall|address: u64| #[trigger]
                addresses.contains_key(address) ==> exported_at(direct, address)
            &&& forall|index: int|
                #![trigger direct[index]]
                0 <= index < direct.len() ==> addresses.contains_key(direct[index].0)
                    && addresses[direct[index].0].contains(direct[index].1)
        }),
    decreases count,
{
    let definitions = direct_definitions(direct, direct.len());
    let start = direct_addresses(direct, direct.len());
    let addresses = with_forwarders(start, definitions, forwarders, count);
    if count == 0 {
        lemma_direct_addresses(direct, direct.len());
    } else {
        let earlier = with_forwarders(start, definitions, forwarders, (count - 1) as nat);
        let forwarder = forwarders[count - 1];
        lemma_with_forwarders(direct, forwarders, (count - 1) as nat);
        if let Some(address) = forwarded_address(forwarder, definitions, forwarders) {
            let (module, key) = forward_target(forwarder.target)->0;
            forwarders_lead_to_definitions(
                text::lowercase(module_name(module)),
                key,
                definitions,
                pending_of(forwarders),
                forwarders,
                MAX_FORWARD_DEPTH as nat,
            );
            lemma_definitions_are_exported(direct, direct.len(), address);
            assert forall|index: int|
                #![trigger direct[index]]
                0 <= index < direct.len() implies addresses.contains_key(direct[index].0)
                && addresses[direct[index].0].contains(direct[index].1) by {
                lemma_symbol_stays(
                    earlier,
                    address,
                    forwarder.source,
                    direct[index].0,
                    direct[index].1,
                );
            }
        }
    }
}

/// The index has every symbol that a captured module exports under its address, and it has no
/// address that no captured module exports.
pub proof fn indexes_hold_all_exports(sources: Seq<SourceView>)
    ensures
        ({
            let direct = all_direct(sources, sources.len());
            let addresses = index_of(sources).addresses;
            &&& forall|address: u64| #[trigger]
                addresses.contains_key(address) <==> exported_at(direct, address)
            &&& forall|index: int|
                #![trigger direct[index]]
                0 <= index < direct.len() ==> addresses[direct[index].0].contains(direct[index].1)
        }),
{
    let direct = all_direct(sources, sources.len());
    let forwarders = all_forwarders(sources, sources.len());
    lemma_with_forwarders(direct, forwarders, forwarders.len());
    let addresses = index_of(sources).addresses;
    assert forall|address: u64| exported_at(direct, address) implies #[trigger]
        addresses.contains_key(address) by {
        let index = choose|index: int|
            0 <= index < direct.len() && (#[trigger] direct[index]).0 == address;
        assert(addresses.contains_key(direct[index].0));
    }
}

/// How many symbols the map holds at an address.
pub open spec fn symbols_at(addresses: AddressMap, address: u64) -> int {
    if addresses.contains_key(address) {
        addresses[address].len() as int
    } else {
        0
    }
}

/// The map `after` has all that `before` has: each list of symbols goes on from what it was.
pub open spec fn lists_go_on(before: AddressMap, after: AddressMap) -> bool {
    forall|address: u64| #[trigger]
        before.contains_key(address) ==> after.contains_key(address) && before[address].is_prefix_of(
            after[address],
        )
}

/// How many of the first `count` symbols that stand for others lead to an address.
pub open spec fn resolved_to(
    definitions: SymbolMap,
    forwarders: Seq<ForwardView>,
    address: u64,
    count: nat,
) -> int
    decreases count,
{
    if count == 0 {
        0
    } else {
        resolved_to(definitions, forwarders, address, (count - 1) as nat) + if forwarded_address(
            forwarders[count - 1],
            definitions,
            forwarders,
        ) == Some(address) {
            1int
        } else {
            0
        }
    }
}

/// Each symbol that stands for another adds one symbol, its own, behind those at the address that
/// it leads to, and nothing else; or it leads nowhere, is counted once as unresolved, and changes
/// nothing.
pub proof fn forwarders_add_one_symbol_or_count_once(
    addresses: AddressMap,
    definitions: SymbolMap,
    forwarders: Seq<ForwardView>,
    count: nat,
)
    requires
        count < forwarders.len(),
    ensures
        ({
            let forwarder = forwarders[count as int];
            let before = with_forwarders(addresses, definitions, forwarders, count);
            let after = with_forwarders(addresses, definitions, forwarders, count + 1);
            let missing = unresolved(definitions, forwarders, count + 1) - unresolved(
                definitions,
                forwarders,
                count,
            );
            match forwarded_address(forwarder, definitions, forwarders) {
                None => after == before && missing == 1,
                Some(address) => {
                    &&& missing == 0
                    &&& after.contains_key(address)
                    &&& symbols_at(after, address) == symbols_at(before, address) + 1
                    &&& after[address].last() == forwarder.source
                    &&& forall|other: u64|
                        #![trigger after.contains_key(other)]
                        other != address ==> after.contains_key(other) == before.contains_key(other)
                            && (before.contains_key(other) ==> after[other] == before[other])
                },
            }
        }),
        lists_go_on(
            with_forwarders(addresses, definitions, forwarders, count),
            with_forwarders(addresses, definitions, forwarders, count + 1),
        ),
{
    lemma_lists_go_on(addresses, definitions, forwarders, count, count + 1);
}

proof fn lemma_lists_go_on(
    addresses: AddressMap,
    definitions: SymbolMap,
    forwarders: Seq<ForwardView>,
    fewer: nat,
    more: nat,
)
    requires
        fewer <= more,
    ensures
        lists_go_on(
            with_forwarders(addresses, definitions, forwarders, fewer),
            with_forwarders(addresses, definitions, forwarders, more),
        ),
    decreases more,
{
    if fewer < more {
        lemma_lists_go_on(addresses, definitions, forwarders, fewer, (more - 1) as nat);
        let before = with_forwarders(addresses, definitions, forwarders, fewer);
        let between = with_forwarders(addresses, definitions, forwarders, (more - 1) as nat);
        let after = with_forwarders(addresses, definitions, forwarders, more);
        assert forall|address: u64| #[trigger] before.contains_key(address) implies after.contains_key(
            address,
        ) && before[address].is_prefix_of(after[address]) by {
            assert(between.contains_key(address));
            assert(between[address].is_prefix_of(after[address]));
        }
    }
}

/// Every list of symbols keeps what it has and gains one symbol for each forwarder that leads to
/// its address. The forwarders that lead nowhere are exactly those that are counted as unresolved.
pub proof fn resolving_keeps_all_symbols(
    addresses: AddressMap,
    definitions: SymbolMap,
    forwarders: Seq<ForwardView>,
    count: nat,
)
    requires
        count <= forwarders.len(),
    ensures
        lists_go_on(addresses, with_forwarders(addresses, definitions, forwarders, count)),
        forall|address: u64|
            #![trigger resolved_to(definitions, forwarders, address, count)]
            symbols_at(with_forwarders(addresses, definitions, forwarders, count), address)
                == symbols_at(addresses, address) + resolved_to(
                definitions,
                forwarders,
                address,
                count,
            ),
        unresolved(definitions, forwarders, count) == forwarders.take(count as int).filter(
            |forwarder: ForwardView|
                forwarded_address(forwarder, definitions, forwarders) is None,
        ).len(),
    decreases count,
{
    let nowhere = |forwarder: ForwardView|
        forwarded_address(forwarder, definitions, forwarders) is None;
    lemma_lists_go_on(addresses, definitions, forwarders, 0, count);
    reveal(Seq::filter);
    if count == 0 {
        assert(forwarders.take(0) =~= Seq::<ForwardView>::empty());
    } else {
        resolving_keeps_all_symbols(addresses, definitions, forwarders, (count - 1) as nat);
        assert(forwarders.take(count as int).drop_last() =~= forwarders.take(count - 1));
        assert(forwarders.take(count as int).last() == forwarders[count - 1]);
        let between = with_forwarders(addresses, definitions, forwarders, (count - 1) as nat);
        let after = with_forwarders(addresses, definitions, forwarders, count);
        assert forall|address: u64|
            #![trigger resolved_to(definitions, forwarders, address, count)]
            symbols_at(after, address) == symbols_at(addresses, address) + resolved_to(
                definitions,
                forwarders,
                address,
                count,
            ) by {
            assert(symbols_at(between, address) == symbols_at(addresses, address) + resolved_to(
                definitions,
                forwarders,
                address,
                (count - 1) as nat,
            ));
        }
    }
}

} // verus!
