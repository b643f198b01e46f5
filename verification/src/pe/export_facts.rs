//! Which symbols an index has, told by the bytes of the export tables.

use vstd::prelude::*;

use crate::name_facts;
use crate::pe::bytes;
use crate::pe::exports;
use crate::pe::exports::{ExportDirectory, ExportView, ForwardView, SourceView};
use crate::pe::image;
use crate::pe::parse;
use crate::pe::symbols::KeyView;
use crate::pe::symbols;
use crate::pe::{PeKind, PeModelView};
use crate::text;

verus! {

/// Where the headers declare the export directory.
pub open spec fn export_field(model: PeModelView) -> int {
    model.nt_offset + 24 + if model.kind == PeKind::Pe32 {
        96int
    } else {
        112
    }
}

/// Where the export directory starts.
pub open spec fn exports_at(bytes: Seq<u8>, model: PeModelView) -> int {
    bytes::le32(bytes, export_field(model)) as int
}

/// How long the export directory is.
pub open spec fn exports_size(bytes: Seq<u8>, model: PeModelView) -> int {
    bytes::le32(bytes, export_field(model) + 4) as int
}

/// The image has an export directory, all tables of it lie in the image, they have no more than
/// 1048576 entries each, and every ordinal is a 32-bit number.
pub open spec fn has_exports(bytes: Seq<u8>, model: PeModelView) -> bool {
    let at = exports_at(bytes, model);
    let functions = bytes::le32(bytes, at + 20);
    let names = bytes::le32(bytes, at + 24);
    &&& model.directory_count > 0
    &&& export_field(model) + 8 <= bytes.len()
    &&& at > 0
    &&& exports_size(bytes, model) >= 40
    &&& at + 40 <= bytes.len()
    &&& at + exports_size(bytes, model) <= u32::MAX
    &&& 0 < functions <= 0x10_0000
    &&& names <= 0x10_0000
    &&& bytes::le32(bytes, at + 16) + functions <= 0x1_0000_0000
    &&& bytes::le32(bytes, at + 28) + 4 * functions <= bytes.len()
    &&& bytes::le32(bytes, at + 32) + 4 * names <= bytes.len()
    &&& bytes::le32(bytes, at + 36) + 2 * names <= bytes.len()
}

/// How many functions the image exports.
pub open spec fn function_total(bytes: Seq<u8>, model: PeModelView) -> int {
    bytes::le32(bytes, exports_at(bytes, model) + 20) as int
}

/// How many rows the name table has.
pub open spec fn row_total(bytes: Seq<u8>, model: PeModelView) -> int {
    bytes::le32(bytes, exports_at(bytes, model) + 24) as int
}

/// The address of a function.
pub open spec fn function_rva(bytes: Seq<u8>, model: PeModelView, function: int) -> int {
    bytes::le32(bytes, bytes::le32(bytes, exports_at(bytes, model) + 28) + 4 * function) as int
}

/// The ordinal of a function.
pub open spec fn function_ordinal(bytes: Seq<u8>, model: PeModelView, function: int) -> int {
    bytes::le32(bytes, exports_at(bytes, model) + 16) + function
}

/// The function that a row of the name table is for: the entry of the same row in the table of
/// ordinals.
pub open spec fn row_function(bytes: Seq<u8>, model: PeModelView, row: int) -> int {
    bytes::le16(bytes, bytes::le32(bytes, exports_at(bytes, model) + 36) + 2 * row) as int
}

/// Where the name of a row stands.
pub open spec fn row_name_at(bytes: Seq<u8>, model: PeModelView, row: int) -> int {
    bytes::le32(bytes, bytes::le32(bytes, exports_at(bytes, model) + 32) + 4 * row) as int
}

/// The bytes at `at` are the letters of `name`, in ASCII, fewer than 4096, with a zero behind them.
pub open spec fn spelled_at(bytes: Seq<u8>, at: int, name: Seq<char>) -> bool {
    &&& 0 < name.len() < 4096
    &&& at + name.len() < bytes.len()
    &&& bytes[at + name.len()] == 0
    &&& forall|i: int|
        0 <= i < name.len() ==> (#[trigger] name[i]) as int == bytes[at + i] && 0 < name[i] as int
            && (name[i] as int) < 0x80
}

/// The address is that of code or data of the image, outside the export directory.
pub open spec fn exports_memory(bytes: Seq<u8>, model: PeModelView, rva: int) -> bool {
    let at = exports_at(bytes, model);
    0 < rva < model.image_size && !(at <= rva < at + exports_size(bytes, model))
}

/// The address is one inside the export directory: the text there names another symbol.
pub open spec fn exports_forwarder(bytes: Seq<u8>, model: PeModelView, rva: int) -> bool {
    let at = exports_at(bytes, model);
    rva > 0 && at <= rva < at + exports_size(bytes, model)
}

/// A text is spelled at `at` exactly if it is the name that is read there.
pub proof fn names_are_read_as_spelled(bytes: Seq<u8>, at: int, name: Seq<char>)
    requires
        0 <= at,
    ensures
        exports::name_at(bytes, at) == Some(name) <==> spelled_at(bytes, at, name),
{
    if spelled_at(bytes, at, name) {
        let length = name.len() as int;
        assert(image::ends_after(bytes, at, length)) by {
            assert forall|i: int| 0 <= i < length implies #[trigger] bytes[at + i] != 0 by {
                assert(name[i] as int == bytes[at + i]);
            }
        }
        image::lemma_zero_terminated(bytes, at, 4096, length);
        let part = bytes.subrange(at, at + length);
        assert forall|i: int| 0 <= i < part.len() implies #[trigger] part[i] < 0x80 by {
            assert(name[i] as int == bytes[at + i]);
        }
        assert(exports::ascii_text(part) =~= name) by {
            assert forall|i: int| 0 <= i < length implies exports::ascii_text(part)[i]
                == #[trigger] name[i] by {
                assert(part[i] == bytes[at + i]);
                assert(part[i] as char == name[i]);
            }
        }
        assert(exports::name_bytes(bytes, at) == Some(part));
        assert(exports::name_at(bytes, at) == Some(name));
    }
    if exports::name_at(bytes, at) == Some(name) {
        let length = choose|length: int|
            0 < length < 4096 && #[trigger] image::ends_after(bytes, at, length);
        let part = bytes.subrange(at, at + length);
        assert(image::zero_terminated(bytes, at, 4096) == Some(part));
        assert(name == exports::ascii_text(part));
        assert(name.len() == length);
        assert(bytes[at + length] == 0);
        assert forall|i: int| 0 <= i < name.len() implies (#[trigger] name[i]) as int == bytes[at
            + i] && 0 < name[i] as int && (name[i] as int) < 0x80 by {
            assert(part[i] == bytes[at + i]);
        }
    }
}

spec fn header_of(bytes: Seq<u8>, model: PeModelView) -> ExportDirectory {
    exports::export_header(
        bytes,
        exports_at(bytes, model) as u32,
        exports_size(bytes, model) as u32,
    )
}

proof fn lemma_aliases(
    bytes: Seq<u8>,
    model: PeModelView,
    function: int,
    count: nat,
    name: Seq<char>,
)
    requires
        has_exports(bytes, model),
        count <= row_total(bytes, model),
    ensures
        exports::aliases(bytes, header_of(bytes, model), function, count).contains(name)
            <==> exists|row: int|
            #![trigger row_name_at(bytes, model, row)]
            0 <= row < count && row_function(bytes, model, row) == function && spelled_at(
                bytes,
                row_name_at(bytes, model, row),
                name,
            ),
        exports::aliases(bytes, header_of(bytes, model), function, count).len() == 0
            ==> forall|row: int|
            #![trigger row_name_at(bytes, model, row)]
            0 <= row < count && row_function(bytes, model, row) == function
                ==> exports::name_at(bytes, row_name_at(bytes, model, row)) is None,
    decreases count,
{
    if count > 0 {
        let header = header_of(bytes, model);
        let fewer = (count - 1) as nat;
        let earlier = exports::aliases(bytes, header, function, fewer);
        let all = exports::aliases(bytes, header, function, count);
        let row = count - 1;
        let read = exports::name_at(bytes, row_name_at(bytes, model, row));
        lemma_aliases(bytes, model, function, fewer, name);
        names_are_read_as_spelled(bytes, row_name_at(bytes, model, row), name);
        if row_function(bytes, model, row) == function && read is Some {
            assert(all == earlier.push(read->0));
            if earlier.contains(name) {
                let i = choose|i: int| 0 <= i < earlier.len() && earlier[i] == name;
                assert(all[i] == name);
            }
            assert(all[earlier.len() as int] == read->0);
            if all.contains(name) {
                let i = choose|i: int| 0 <= i < all.len() && all[i] == name;
                if i < earlier.len() {
                    assert(earlier[i] == name);
                }
            }
        }
    }
}

/// The symbols of a function that has none of its names readable, or one of them.
spec fn symbols_for(
    bytes: Seq<u8>,
    model: PeModelView,
    module: Seq<char>,
    function: int,
) -> Seq<ExportView> {
    exports::symbols_of(
        module,
        exports::aliases(
            bytes,
            header_of(bytes, model),
            function,
            row_total(bytes, model) as nat,
        ),
        function_ordinal(bytes, model, function) as u32,
    )
}

/// What the symbol of a function is called: one of the names of its rows, or nothing if none of
/// them can be read.
pub open spec fn called(
    bytes: Seq<u8>,
    model: PeModelView,
    function: int,
    name: Option<Seq<char>>,
) -> bool {
    match name {
        Some(name) => exists|row: int|
            #![trigger row_name_at(bytes, model, row)]
            0 <= row < row_total(bytes, model) && row_function(bytes, model, row) == function
                && spelled_at(bytes, row_name_at(bytes, model, row), name),
        None => forall|row: int, name: Seq<char>|
            #![trigger spelled_at(bytes, row_name_at(bytes, model, row), name)]
            0 <= row < row_total(bytes, model) && row_function(bytes, model, row) == function
                ==> !spelled_at(bytes, row_name_at(bytes, model, row), name),
    }
}

proof fn lemma_symbols_for(
    bytes: Seq<u8>,
    model: PeModelView,
    module: Seq<char>,
    function: int,
    symbol: ExportView,
)
    requires
        has_exports(bytes, model),
        0 <= function < function_total(bytes, model),
    ensures
        symbols_for(bytes, model, module, function).contains(symbol) <==> {
            &&& symbol.module == module
            &&& symbol.ordinal == function_ordinal(bytes, model, function)
            &&& called(bytes, model, function, symbol.name)
        },
{
    let header = header_of(bytes, model);
    let rows = row_total(bytes, model) as nat;
    let names = exports::aliases(bytes, header, function, rows);
    let symbols = symbols_for(bytes, model, module, function);
    match symbol.name {
        Some(name) => {
            lemma_aliases(bytes, model, function, rows, name);
            if symbols.contains(symbol) {
                let i = choose|i: int| 0 <= i < symbols.len() && symbols[i] == symbol;
                assert(names[i] == name);
            }
            if symbol.module == module && symbol.ordinal == function_ordinal(
                bytes,
                model,
                function,
            ) && names.contains(name) {
                let i = choose|i: int| 0 <= i < names.len() && names[i] == name;
                assert(symbols[i] == symbol);
            }
        },
        None => {
            if names.len() == 0 {
                assert forall|row: int, name: Seq<char>|
                    #![trigger spelled_at(bytes, row_name_at(bytes, model, row), name)]
                    0 <= row < row_total(bytes, model) && row_function(bytes, model, row)
                        == function implies !spelled_at(
                    bytes,
                    row_name_at(bytes, model, row),
                    name,
                ) by {
                    lemma_aliases(bytes, model, function, rows, name);
                    names_are_read_as_spelled(bytes, row_name_at(bytes, model, row), name);
                }
                assert(symbols[0] == (ExportView {
                    module,
                    name: None,
                    ordinal: function_ordinal(bytes, model, function) as u32,
                }));
            } else {
                assert(names.contains(names[0]));
                lemma_aliases(bytes, model, function, rows, names[0]);
                let row = choose|row: int|
                    #![trigger row_name_at(bytes, model, row)]
                    0 <= row < rows && row_function(bytes, model, row) == function && spelled_at(
                        bytes,
                        row_name_at(bytes, model, row),
                        names[0],
                    );
                assert(spelled_at(bytes, row_name_at(bytes, model, row), names[0]));
            }
        },
    }
}

/// The address and the symbol stand for a function of the image.
pub open spec fn is_export(
    base: u64,
    bytes: Seq<u8>,
    model: PeModelView,
    module: Seq<char>,
    function: int,
    address: u64,
    symbol: ExportView,
) -> bool {
    let rva = function_rva(bytes, model, function);
    &&& 0 <= function < function_total(bytes, model)
    &&& exports_memory(bytes, model, rva)
    &&& address == base + rva
    &&& symbol.module == module
    &&& symbol.ordinal == function_ordinal(bytes, model, function)
    &&& called(bytes, model, function, symbol.name)
}

/// The symbol and the text stand for a function of the image that names another symbol.
pub open spec fn is_forwarder(
    bytes: Seq<u8>,
    model: PeModelView,
    module: Seq<char>,
    function: int,
    forwarder: ForwardView,
) -> bool {
    let rva = function_rva(bytes, model, function);
    &&& 0 <= function < function_total(bytes, model)
    &&& exports_forwarder(bytes, model, rva)
    &&& spelled_at(bytes, rva, forwarder.target)
    &&& forwarder.source.module == module
    &&& forwarder.source.ordinal == function_ordinal(bytes, model, function)
    &&& called(bytes, model, function, forwarder.source.name)
}

proof fn lemma_functions(
    base: u64,
    bytes: Seq<u8>,
    model: PeModelView,
    module: Seq<char>,
    count: nat,
)
    requires
        has_exports(bytes, model),
        count <= function_total(bytes, model),
        base + model.image_size <= u64::MAX,
    ensures
        ({
            let parsed = exports::functions_of(
                bytes,
                base,
                module,
                model.image_size,
                header_of(bytes, model),
                count,
            );
            &&& parsed is Some
            &&& forall|address: u64, symbol: ExportView| #[trigger]
                parsed->0.direct.contains((address, symbol)) <==> exists|function: int|
                    function < count && #[trigger] is_export(
                        base,
                        bytes,
                        model,
                        module,
                        function,
                        address,
                        symbol,
                    )
            &&& forall|forwarder: ForwardView| #[trigger]
                parsed->0.forwarders.contains(forwarder) <==> exists|function: int|
                    function < count && #[trigger] is_forwarder(
                        bytes,
                        model,
                        module,
                        function,
                        forwarder,
                    )
        }),
    decreases count,
{
    let header = header_of(bytes, model);
    if count > 0 {
        let fewer = (count - 1) as nat;
        let last = count - 1;
        let rva = function_rva(bytes, model, last);
        lemma_functions(base, bytes, model, module, fewer);
        let earlier = exports::functions_of(
            bytes,
            base,
            module,
            model.image_size,
            header,
            fewer,
        )->0;
        let all = exports::functions_of(bytes, base, module, model.image_size, header, count);
        let symbols = symbols_for(bytes, model, module, last);
        assert(all is Some);
        let parsed = all->0;
        assert forall|address: u64, symbol: ExportView| #[trigger]
            parsed.direct.contains((address, symbol)) <==> earlier.direct.contains(
                (address, symbol),
            ) || is_export(base, bytes, model, module, last, address, symbol) by {
            lemma_symbols_for(bytes, model, module, last, symbol);
            if exports_memory(bytes, model, rva) {
                let place = (base + rva) as u64;
                let added = symbols.map_values(|symbol: ExportView| (place, symbol));
                assert(parsed.direct == earlier.direct + added);
                lemma_joined(earlier.direct, added, (address, symbol));
                if symbols.contains(symbol) {
                    let i = choose|i: int| 0 <= i < symbols.len() && symbols[i] == symbol;
                    assert(added[i] == (place, symbol));
                    assert(added.contains((place, symbol)));
                }
                if added.contains((address, symbol)) {
                    let i = choose|i: int|
                        0 <= i < added.len() && added[i] == (address, symbol);
                    assert(symbols[i] == symbol && address == place);
                    assert(symbols.contains(symbol));
                }
            } else {
                assert(parsed.direct == earlier.direct);
            }
        }
        assert forall|forwarder: ForwardView| #[trigger]
            parsed.forwarders.contains(forwarder) <==> earlier.forwarders.contains(forwarder)
                || is_forwarder(bytes, model, module, last, forwarder) by {
            lemma_symbols_for(bytes, model, module, last, forwarder.source);
            names_are_read_as_spelled(bytes, rva, forwarder.target);
            let target = exports::name_at(bytes, rva);
            if exports_forwarder(bytes, model, rva) && target is Some {
                let text = target->0;
                let added = symbols.map_values(
                    |source: ExportView| ForwardView { source, target: text },
                );
                assert(parsed.forwarders == earlier.forwarders + added);
                lemma_joined(earlier.forwarders, added, forwarder);
                if symbols.contains(forwarder.source) && forwarder.target == text {
                    let i = choose|i: int|
                        0 <= i < symbols.len() && symbols[i] == forwarder.source;
                    assert(added[i] == forwarder);
                    assert(added.contains(forwarder));
                }
                if added.contains(forwarder) {
                    let i = choose|i: int| 0 <= i < added.len() && added[i] == forwarder;
                    assert(symbols[i] == forwarder.source && forwarder.target == text);
                    assert(symbols.contains(forwarder.source));
                }
            } else {
                assert(parsed.forwarders == earlier.forwarders);
            }
        }
        assert forall|address: u64, symbol: ExportView| #[trigger]
            parsed.direct.contains((address, symbol)) <==> exists|function: int|
                function < count && #[trigger] is_export(
                    base,
                    bytes,
                    model,
                    module,
                    function,
                    address,
                    symbol,
                ) by {
            if is_export(base, bytes, model, module, last, address, symbol) {
                assert(last < count);
            }
        }
        assert forall|forwarder: ForwardView| #[trigger]
            parsed.forwarders.contains(forwarder) <==> exists|function: int|
                function < count && #[trigger] is_forwarder(
                    bytes,
                    model,
                    module,
                    function,
                    forwarder,
                ) by {
            if is_forwarder(bytes, model, module, last, forwarder) {
                assert(last < count);
            }
        }
    }
}

proof fn lemma_joined<A>(left: Seq<A>, right: Seq<A>, item: A)
    ensures
        (left + right).contains(item) <==> left.contains(item) || right.contains(item),
{
    let all = left + right;
    if left.contains(item) {
        let i = choose|i: int| 0 <= i < left.len() && left[i] == item;
        assert(all[i] == item);
    }
    if right.contains(item) {
        let i = choose|i: int| 0 <= i < right.len() && right[i] == item;
        assert(all[left.len() + i] == item);
    }
    if all.contains(item) {
        let i = choose|i: int| 0 <= i < all.len() && all[i] == item;
        if i < left.len() {
            assert(left[i] == item);
        } else {
            assert(right[i - left.len()] == item);
        }
    }
}

/// What an image exports is exactly what its tables say. Each row of the name table gives its name
/// to the function that the table of ordinals has in the same row, and a function without a
/// readable name is exported by its ordinal alone. A function with an address inside the export
/// directory stands for the symbol that the text there names.
pub proof fn exports_are_those_of_the_tables(
    base: u64,
    bytes: Seq<u8>,
    fallback: Option<Seq<char>>,
    module: Seq<char>,
)
    requires
        parse::memory_image(bytes) is Ok,
        has_exports(bytes, parse::memory_image(bytes)->Ok_0),
        base + parse::memory_image(bytes)->Ok_0.image_size <= u64::MAX,
        module == exports::exporting_module(
            bytes,
            exports_at(bytes, parse::memory_image(bytes)->Ok_0) as u32,
            fallback,
        ),
    ensures
        ({
            let model = parse::memory_image(bytes)->Ok_0;
            let parsed = exports::parsed_exports(base, bytes, fallback);
            &&& parsed is Some
            &&& forall|address: u64, symbol: ExportView| #[trigger]
                parsed->0.direct.contains((address, symbol)) <==> exists|function: int|
                    #[trigger] is_export(base, bytes, model, module, function, address, symbol)
            &&& forall|forwarder: ForwardView| #[trigger]
                parsed->0.forwarders.contains(forwarder) <==> exists|function: int|
                    #[trigger] is_forwarder(bytes, model, module, function, forwarder)
        }),
{
    let model = parse::memory_image(bytes)->Ok_0;
    let count = function_total(bytes, model) as nat;
    lemma_functions(base, bytes, model, module, count);
    let parsed = exports::parsed_exports(base, bytes, fallback);
    assert(exports::export_directory(bytes, model) == Some(header_of(bytes, model)));
    assert forall|address: u64, symbol: ExportView| #[trigger]
        parsed->0.direct.contains((address, symbol)) <==> exists|function: int| #[trigger]
            is_export(base, bytes, model, module, function, address, symbol) by {
        if exists|function: int| #[trigger]
            is_export(base, bytes, model, module, function, address, symbol) {
            let function = choose|function: int| #[trigger]
                is_export(base, bytes, model, module, function, address, symbol);
            assert(function < count);
        }
    }
    assert forall|forwarder: ForwardView| #[trigger]
        parsed->0.forwarders.contains(forwarder) <==> exists|function: int| #[trigger]
            is_forwarder(bytes, model, module, function, forwarder) by {
        if exists|function: int| #[trigger]
            is_forwarder(bytes, model, module, function, forwarder) {
            let function = choose|function: int| #[trigger]
                is_forwarder(bytes, model, module, function, forwarder);
            assert(function < count);
        }
    }
}

proof fn lemma_source_in_all(sources: Seq<SourceView>, count: nat, source: int)
    requires
        0 <= source < count <= sources.len(),
    ensures
        forall|item: (u64, ExportView)| #[trigger]
            exports::exports_of(sources[source]).direct.contains(item) ==> exports::all_direct(
                sources,
                count,
            ).contains(item),
    decreases count,
{
    let earlier = exports::all_direct(sources, (count - 1) as nat);
    let last = exports::exports_of(sources[count - 1]).direct;
    if source < count - 1 {
        lemma_source_in_all(sources, (count - 1) as nat, source);
    }
    assert forall|item: (u64, ExportView)| #[trigger]
        exports::exports_of(sources[source]).direct.contains(item) implies exports::all_direct(
        sources,
        count,
    ).contains(item) by {
        lemma_joined(earlier, last, item);
    }
}

/// The index has every named function of every captured module. For each row of a name table
/// whose entry in the table of ordinals is `function`, it has, at the address of that function, a
/// symbol with the name of the row and the ordinal of the function.
pub proof fn every_name_is_indexed(
    sources: Seq<SourceView>,
    source: int,
    row: int,
    function: int,
    name: Seq<char>,
)
    requires
        0 <= source < sources.len(),
        parse::memory_image(sources[source].bytes) is Ok,
        ({
            let bytes = sources[source].bytes;
            let model = parse::memory_image(bytes)->Ok_0;
            &&& has_exports(bytes, model)
            &&& sources[source].base + model.image_size <= u64::MAX
            &&& 0 <= row < row_total(bytes, model)
            &&& row_function(bytes, model, row) == function
            &&& function < function_total(bytes, model)
            &&& spelled_at(bytes, row_name_at(bytes, model, row), name)
            &&& exports_memory(bytes, model, function_rva(bytes, model, function))
        }),
    ensures
        ({
            let bytes = sources[source].bytes;
            let model = parse::memory_image(bytes)->Ok_0;
            let address = (sources[source].base + function_rva(bytes, model, function)) as u64;
            let addresses = exports::index_of(sources).addresses;
            &&& addresses.contains_key(address)
            &&& exists|i: int|
                0 <= i < addresses[address].len() && (#[trigger] addresses[address][i]).name
                    == Some(name) && addresses[address][i].ordinal == function_ordinal(
                    bytes,
                    model,
                    function,
                )
        }),
{
    let bytes = sources[source].bytes;
    let base = sources[source].base;
    let model = parse::memory_image(bytes)->Ok_0;
    let module = exports::exporting_module(
        bytes,
        exports_at(bytes, model) as u32,
        sources[source].name,
    );
    let address = (base + function_rva(bytes, model, function)) as u64;
    let symbol = ExportView {
        module,
        name: Some(name),
        ordinal: function_ordinal(bytes, model, function) as u32,
    };
    exports_are_those_of_the_tables(base, bytes, sources[source].name, module);
    assert(row_name_at(bytes, model, row) >= 0);
    assert(called(bytes, model, function, Some(name)));
    assert(is_export(base, bytes, model, module, function, address, symbol));
    let own = exports::exports_of(sources[source]).direct;
    assert(own.contains((address, symbol)));
    lemma_source_in_all(sources, sources.len(), source);
    exports::indexes_hold_all_exports(sources);
    let direct = exports::all_direct(sources, sources.len());
    let place = choose|place: int|
        0 <= place < direct.len() && direct[place] == (address, symbol);
    assert(direct[place] == (address, symbol));
    let addresses = exports::index_of(sources).addresses;
    assert(exports::exported_at(direct, address));
    assert(addresses[address].contains(symbol));
    let i = choose|i: int|
        0 <= i < addresses[address].len() && addresses[address][i] == symbol;
    assert(addresses[address][i].name == Some(name));
}

proof fn lemma_symbols_are_direct(direct: Seq<(u64, ExportView)>, count: nat, address: u64, i: int)
    requires
        count <= direct.len(),
        exports::direct_addresses(direct, count).contains_key(address),
        0 <= i < exports::direct_addresses(direct, count)[address].len(),
    ensures
        direct.contains((address, exports::direct_addresses(direct, count)[address][i])),
    decreases count,
{
    if count > 0 {
        let earlier = exports::direct_addresses(direct, (count - 1) as nat);
        let added = direct[count - 1];
        assert(direct.contains(added));
        if earlier.contains_key(address) && i < earlier[address].len() {
            lemma_symbols_are_direct(direct, (count - 1) as nat, address, i);
        }
    }
}

/// The symbol stands at the address because a forwarder of the list leads there.
pub open spec fn forwarded_to(
    forwarders: Seq<ForwardView>,
    definitions: exports::SymbolMap,
    address: u64,
    symbol: ExportView,
) -> bool {
    exists|f: int|
        0 <= f < forwarders.len() && (#[trigger] forwarders[f]).source == symbol
            && exports::forwarded_address(forwarders[f], definitions, forwarders) == Some(address)
}

proof fn lemma_symbols_are_known(
    direct: Seq<(u64, ExportView)>,
    definitions: exports::SymbolMap,
    forwarders: Seq<ForwardView>,
    count: nat,
    address: u64,
    i: int,
)
    requires
        count <= forwarders.len(),
        exports::with_forwarders(
            exports::direct_addresses(direct, direct.len()),
            definitions,
            forwarders,
            count,
        ).contains_key(address),
        0 <= i < exports::with_forwarders(
            exports::direct_addresses(direct, direct.len()),
            definitions,
            forwarders,
            count,
        )[address].len(),
    ensures
        ({
            let symbol = exports::with_forwarders(
                exports::direct_addresses(direct, direct.len()),
                definitions,
                forwarders,
                count,
            )[address][i];
            direct.contains((address, symbol)) || forwarded_to(
                forwarders,
                definitions,
                address,
                symbol,
            )
        }),
    decreases count,
{
    let start = exports::direct_addresses(direct, direct.len());
    if count == 0 {
        lemma_symbols_are_direct(direct, direct.len(), address, i);
    } else {
        let earlier = exports::with_forwarders(
            start,
            definitions,
            forwarders,
            (count - 1) as nat,
        );
        if earlier.contains_key(address) && i < earlier[address].len() {
            lemma_symbols_are_known(
                direct,
                definitions,
                forwarders,
                (count - 1) as nat,
                address,
                i,
            );
        } else {
            assert(forwarders[count - 1].source == exports::with_forwarders(
                start,
                definitions,
                forwarders,
                count,
            )[address][i]);
        }
    }
}

proof fn lemma_direct_has_source(sources: Seq<SourceView>, count: nat, item: (u64, ExportView))
    requires
        count <= sources.len(),
        exports::all_direct(sources, count).contains(item),
    ensures
        exists|source: int|
            0 <= source < count && exports::exports_of(
                #[trigger] sources[source],
            ).direct.contains(item),
    decreases count,
{
    if count > 0 {
        let earlier = exports::all_direct(sources, (count - 1) as nat);
        let last = exports::exports_of(sources[count - 1]).direct;
        lemma_joined(earlier, last, item);
        if earlier.contains(item) {
            lemma_direct_has_source(sources, (count - 1) as nat, item);
        }
    } else {
        assert(exports::all_direct(sources, count).len() == 0);
    }
}

/// Every symbol of the index is exported at its address by one of the captured modules, or is the
/// symbol of a forwarder that leads there.
pub proof fn indexed_symbols_are_exported(sources: Seq<SourceView>, address: u64, i: int)
    requires
        exports::index_of(sources).addresses.contains_key(address),
        0 <= i < exports::index_of(sources).addresses[address].len(),
    ensures
        ({
            let symbol = exports::index_of(sources).addresses[address][i];
            let direct = exports::all_direct(sources, sources.len());
            ||| exists|source: int|
                0 <= source < sources.len() && exports::exports_of(
                    #[trigger] sources[source],
                ).direct.contains((address, symbol))
            ||| forwarded_to(
                exports::all_forwarders(sources, sources.len()),
                exports::direct_definitions(direct, direct.len()),
                address,
                symbol,
            )
        }),
{
    let symbol = exports::index_of(sources).addresses[address][i];
    let direct = exports::all_direct(sources, sources.len());
    let forwarders = exports::all_forwarders(sources, sources.len());
    lemma_symbols_are_known(
        direct,
        exports::direct_definitions(direct, direct.len()),
        forwarders,
        forwarders.len(),
        address,
        i,
    );
    if direct.contains((address, symbol)) {
        lemma_direct_has_source(sources, sources.len(), (address, symbol));
    }
}

/// What follows the last separator of a name is the name of the module, with `.dll` if it has no
/// dot.
pub proof fn modules_are_named_by_file(folder: Seq<char>, name: Seq<char>)
    requires
        folder.len() > 0 ==> folder.last() == '/' || folder.last() == '\\',
        forall|i: int|
            #![trigger name[i]]
            0 <= i < name.len() ==> name[i] != '/' && name[i] != '\\',
    ensures
        exports::module_name(folder + name) == if name.contains('.') {
            name
        } else {
            name + seq!['.', 'd', 'l', 'l']
        },
{
    let whole = folder + name;
    let marks = seq!['/', '\\'];
    let place = text::after_last(whole, marks);
    name_facts::last_marks_are_found(whole, marks);
    assert(marks[0] == '/' && marks[1] == '\\' && marks.len() == 2);
    assert(place == folder.len()) by {
        if place > folder.len() {
            assert(whole[place - 1] == name[place - 1 - folder.len()]);
        } else if place < folder.len() {
            assert(whole[folder.len() - 1] == folder.last());
            assert(marks.contains(whole[folder.len() - 1]));
        }
    }
    assert(whole.skip(place) =~= name);
    reveal_strlit(".dll");
    assert(".dll"@ =~= seq!['.', 'd', 'l', 'l']);
}

/// The module of an export directory has the name that the directory says, or else the one that it
/// is known by, or else `unknown.dll`.
pub proof fn modules_name_themselves(bytes: Seq<u8>, rva: u32, name: Seq<char>)
    ensures
        spelled_at(bytes, bytes::le32(bytes, rva + 12) as int, name)
            ==> forall|fallback: Option<Seq<char>>| #[trigger]
            exports::exporting_module(bytes, rva, fallback) == exports::module_name(name),
        (forall|any: Seq<char>|
            !#[trigger] spelled_at(bytes, bytes::le32(bytes, rva + 12) as int, any)) ==> {
            &&& exports::exporting_module(bytes, rva, Some(name)) == exports::module_name(name)
            &&& exports::exporting_module(bytes, rva, None) == seq![
                'u',
                'n',
                'k',
                'n',
                'o',
                'w',
                'n',
                '.',
                'd',
                'l',
                'l',
            ]
        },
{
    let at = bytes::le32(bytes, rva + 12) as int;
    names_are_read_as_spelled(bytes, at, name);
    if forall|any: Seq<char>| !#[trigger] spelled_at(bytes, at, any) {
        if let Some(read) = exports::name_at(bytes, at) {
            names_are_read_as_spelled(bytes, at, read);
            assert(spelled_at(bytes, at, read));
        }
        reveal_strlit("unknown.dll");
        let unknown = seq!['u', 'n', 'k', 'n', 'o', 'w', 'n', '.', 'd', 'l', 'l'];
        assert("unknown.dll"@ =~= unknown);
        assert(unknown[7] == '.');
        modules_are_named_by_file(Seq::empty(), unknown);
        assert(Seq::<char>::empty() + unknown =~= unknown);
    }
}

/// A text with a dot stands for a symbol of a module: what is before the last dot names the module,
/// and what follows it names the symbol, or its ordinal behind a hash sign. Without a dot it stands
/// for none.
pub proof fn forwarders_name_module_and_symbol(module: Seq<char>, symbol: Seq<char>, ordinal: u32)
    requires
        forall|i: int| 0 <= i < symbol.len() ==> #[trigger] symbol[i] != '.',
    ensures
        symbol.len() == 0 || symbol[0] != '#' ==> exports::forward_target(
            module.push('.') + symbol,
        ) == Some((exports::module_name(module), KeyView::Name(text::lowercase(symbol)))),
        exports::forward_target(
            module.push('.') + (seq!['#'] + text::decimal(ordinal as nat)),
        ) == Some((exports::module_name(module), KeyView::Ordinal(ordinal))),
        exports::forward_target(symbol) is None,
{
    lemma_split(module, symbol);
    let digits = text::decimal(ordinal as nat);
    let marked = seq!['#'] + digits;
    text::decimal_holds_digits(ordinal as nat);
    assert forall|i: int| 0 <= i < marked.len() implies #[trigger] marked[i] != '.' by {
        if i > 0 {
            assert(marked[i] == digits[i - 1]);
        }
    }
    lemma_split(module, marked);
    assert(marked[0] == '#');
    assert(marked.skip(1) =~= digits);
    text::decimal_reads_back(ordinal as nat, u32::MAX as nat);
    name_facts::last_marks_are_found(symbol, seq!['.']);
    let place = text::after_last(symbol, seq!['.']);
    if place > 0 {
        assert(seq!['.'].contains(symbol[place - 1]));
        assert(seq!['.'].len() == 1);
    }
}

proof fn lemma_split(front: Seq<char>, back: Seq<char>)
    requires
        forall|i: int| 0 <= i < back.len() ==> #[trigger] back[i] != '.',
    ensures
        text::after_last(front.push('.') + back, seq!['.']) == front.len() + 1,
        (front.push('.') + back).take(front.len() as int) == front,
        (front.push('.') + back).skip(front.len() as int + 1) == back,
{
    let whole = front.push('.') + back;
    let marks = seq!['.'];
    let place = text::after_last(whole, marks);
    name_facts::last_marks_are_found(whole, marks);
    assert(marks[0] == '.' && marks.len() == 1);
    assert(whole[front.len() as int] == '.');
    if place > front.len() + 1 {
        assert(whole[place - 1] == back[place - 1 - front.len() - 1]);
    } else if place <= front.len() {
        assert(marks.contains(whole[front.len() as int]));
    }
    assert(whole.take(front.len() as int) =~= front);
    assert(whole.skip(front.len() as int + 1) =~= back);
}

/// A module stands for others exactly if its name starts with `api-` or `ext-`.
pub proof fn api_sets_start_with_their_letters(module: Seq<char>)
    ensures
        exports::api_set(module) <==> module.len() >= 4 && module[3] == '-' && ((module[0] == 'a'
            && module[1] == 'p' && module[2] == 'i') || (module[0] == 'e' && module[1] == 'x'
            && module[2] == 't')),
{
    reveal_strlit("api-");
    reveal_strlit("ext-");
    if module.len() >= 4 {
        let start = module.subrange(0, 4);
        assert(start[0] == module[0] && start[1] == module[1] && start[2] == module[2] && start[3]
            == module[3]);
        if module[3] == '-' && module[0] == 'a' && module[1] == 'p' && module[2] == 'i' {
            assert(start =~= "api-"@);
        }
        if module[3] == '-' && module[0] == 'e' && module[1] == 'x' && module[2] == 't' {
            assert(start =~= "ext-"@);
        }
    }
}

/// The symbol is known under the key: under its ordinal, or under its name in small letters.
pub open spec fn under(symbol: ExportView, key: KeyView) -> bool {
    match key {
        KeyView::Ordinal(ordinal) => symbol.ordinal == ordinal,
        KeyView::Name(name) => symbol.name is Some && text::lowercase(symbol.name->0) == name,
    }
}

/// A symbol is defined at the first address at which its module exports it, under its name as well
/// as under its ordinal; nothing else is defined.
pub proof fn first_definitions_count(
    direct: Seq<(u64, ExportView)>,
    count: nat,
    module: Seq<char>,
    key: KeyView,
    first: int,
)
    requires
        0 <= first <= count <= direct.len(),
        forall|i: int|
            #![trigger direct[i]]
            0 <= i < first ==> !(text::lowercase(direct[i].1.module) == module && under(
                direct[i].1,
                key,
            )),
        first < count ==> text::lowercase(direct[first].1.module) == module && under(
            direct[first].1,
            key,
        ),
    ensures
        first < count ==> exports::direct_definitions(direct, count).contains_key((module, key))
            && exports::direct_definitions(direct, count)[(module, key)] == direct[first].0,
        first == count ==> !exports::direct_definitions(direct, count).contains_key((module, key)),
    decreases count,
{
    if count > 0 {
        let fewer = (count - 1) as nat;
        if first < count {
            if first < fewer {
                first_definitions_count(direct, fewer, module, key, first);
            } else {
                first_definitions_count(direct, fewer, module, key, fewer as int);
            }
        } else {
            first_definitions_count(direct, fewer, module, key, fewer as int);
            assert(direct[count - 1] == direct[fewer as int]);
        }
    }
}

/// A symbol that is defined leads to its address at once. One that is not, of a module that stands
/// for no others, leads where the last forwarder of its name leads, one step further; and no more
/// than eight steps are made.
pub proof fn forwarders_are_followed(
    module: Seq<char>,
    key: KeyView,
    definitions: exports::SymbolMap,
    pending: exports::SymbolMap,
    forwarders: Seq<ForwardView>,
    hops: nat,
)
    ensures
        hops > 0 && definitions.contains_key((module, key)) ==> exports::symbol_address(
            module,
            key,
            definitions,
            pending,
            forwarders,
            hops,
        ) == Some(definitions[(module, key)]),
        hops > 0 && !definitions.contains_key((module, key)) && !exports::api_set(module) ==> {
            let found = exports::symbol_address(
                module,
                key,
                definitions,
                pending,
                forwarders,
                hops,
            );
            if pending.contains_key((module, key)) {
                match exports::forward_target(forwarders[pending[(module, key)] as int].target) {
                    Some((next, next_key)) => found == exports::symbol_address(
                        text::lowercase(next),
                        next_key,
                        definitions,
                        pending,
                        forwarders,
                        (hops - 1) as nat,
                    ),
                    None => found is None,
                }
            } else {
                found is None
            }
        },
        exports::symbol_address(module, key, definitions, pending, forwarders, 0) is None,
        exports::resolved_key(module, key, definitions, pending, forwarders)
            == exports::symbol_address(
            text::lowercase(exports::module_name(module)),
            key,
            definitions,
            pending,
            forwarders,
            8,
        ),
{
}

/// A module that stands for others leads to the one address that any module has for the symbol,
/// and nowhere if they have several.
pub proof fn api_sets_lead_to_one_address(
    module: Seq<char>,
    key: KeyView,
    definitions: exports::SymbolMap,
    pending: exports::SymbolMap,
    forwarders: Seq<ForwardView>,
    hops: nat,
    host: Seq<char>,
)
    requires
        hops > 0,
        exports::api_set(module),
        !definitions.contains_key((module, key)),
        definitions.contains_key((host, key)),
    ensures
        ({
            let found = exports::symbol_address(
                module,
                key,
                definitions,
                pending,
                forwarders,
                hops,
            );
            &&& (forall|other: Seq<char>| #[trigger]
                definitions.contains_key((other, key)) ==> definitions[(other, key)]
                    == definitions[(host, key)]) ==> found == Some(definitions[(host, key)])
            &&& (exists|other: Seq<char>| #[trigger]
                definitions.contains_key((other, key)) && definitions[(other, key)]
                    != definitions[(host, key)]) ==> found is None
        }),
{
    let value = definitions[(host, key)];
    if forall|other: Seq<char>| #[trigger]
        definitions.contains_key((other, key)) ==> definitions[(other, key)] == value {
        assert(symbols::agrees_on(definitions, key, value));
        let chosen = choose|chosen: u64| #[trigger] symbols::agrees_on(definitions, key, chosen);
        assert(symbols::agrees_on(definitions, key, chosen));
        assert(chosen == value);
    }
    if exists|other: Seq<char>| #[trigger]
        definitions.contains_key((other, key)) && definitions[(other, key)] != value {
        let other = choose|other: Seq<char>| #[trigger]
            definitions.contains_key((other, key)) && definitions[(other, key)] != value;
        assert forall|any: u64| !#[trigger] symbols::agrees_on(definitions, key, any) by {
            if symbols::agrees_on(definitions, key, any) {
                assert(definitions[(host, key)] == any);
                assert(definitions[(other, key)] == any);
            }
        }
    }
}

/// Of the forwarders of one symbol, the last one counts.
pub proof fn last_forwarders_count(
    forwarders: Seq<ForwardView>,
    module: Seq<char>,
    key: KeyView,
    last: int,
)
    requires
        0 <= last < forwarders.len() <= u64::MAX,
        text::lowercase(forwarders[last].source.module) == module,
        under(forwarders[last].source, key),
        forall|i: int|
            #![trigger forwarders[i]]
            last < i < forwarders.len() ==> !(text::lowercase(forwarders[i].source.module) == module
                && under(forwarders[i].source, key)),
    ensures
        exports::pending_of(forwarders).contains_key((module, key)),
        exports::pending_of(forwarders)[(module, key)] == last,
    decreases forwarders.len(),
{
    let fewer = forwarders.drop_last();
    if last < fewer.len() {
        assert(fewer[last] == forwarders[last]);
        assert forall|i: int|
            #![trigger fewer[i]]
            last < i < fewer.len() implies !(text::lowercase(fewer[i].source.module) == module
            && under(fewer[i].source, key)) by {
            assert(fewer[i] == forwarders[i]);
        }
        last_forwarders_count(fewer, module, key, last);
        assert(!(text::lowercase(forwarders[forwarders.len() - 1].source.module) == module && under(
            forwarders[forwarders.len() - 1].source,
            key,
        )));
    }
}

} // verus!
