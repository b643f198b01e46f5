//! A table from exported symbols to numbers.

use std::collections::HashMap;
use vstd::prelude::*;

use crate::text::code_of;

verus! {

broadcast use vstd::std_specs::hash::group_hash_axioms;

/// How a symbol of a module is asked for. Names are in lower case.
#[derive(Debug)]
pub enum ExportKey {
    Name(String),
    Ordinal(u32),
}

/// How a symbol of a module is asked for, seen mathematically.
pub enum KeyView {
    Name(Seq<char>),
    Ordinal(u32),
}

impl View for ExportKey {
    type V = KeyView;

    open spec fn view(&self) -> KeyView {
        match *self {
            ExportKey::Name(name) => KeyView::Name(name@),
            ExportKey::Ordinal(ordinal) => KeyView::Ordinal(ordinal),
        }
    }
}

impl ExportKey {
    /// Another key for the same symbol.
    pub fn copy(&self) -> (key: ExportKey)
        ensures
            key@ == self@,
    {
        match self {
            ExportKey::Name(name) => ExportKey::Name(name.clone()),
            ExportKey::Ordinal(ordinal) => ExportKey::Ordinal(*ordinal),
        }
    }

    /// Tests whether two keys are for the same symbol.
    pub fn same(&self, other: &ExportKey) -> (same: bool)
        ensures
            same == (self@ == other@),
    {
        match self {
            ExportKey::Name(name) => match other {
                ExportKey::Name(other_name) => *name == *other_name,
                ExportKey::Ordinal(_) => false,
            },
            ExportKey::Ordinal(ordinal) => match other {
                ExportKey::Name(_) => false,
                ExportKey::Ordinal(other_ordinal) => *ordinal == *other_ordinal,
            },
        }
    }
}

/// What a table has for a key, whatever the module.
#[derive(Clone, Copy, Debug, PartialEq, Eq, Structural)]
pub enum KeyMatch {
    Nowhere,
    One(u64),
    Several,
}

/// Every symbol of the table with this key has the number `value`.
pub open spec fn agrees_on(
    table: Map<(Seq<char>, KeyView), u64>,
    key: KeyView,
    value: u64,
) -> bool {
    forall|module: Seq<char>|
        #[trigger] table.contains_key((module, key)) ==> table[(module, key)] == value
}

/// What a table has for a key, whatever the module: nothing, one number, or several.
pub open spec fn match_of(table: Map<(Seq<char>, KeyView), u64>, key: KeyView) -> KeyMatch {
    if !exists|module: Seq<char>| #[trigger] table.contains_key((module, key)) {
        KeyMatch::Nowhere
    } else if exists|value: u64| #[trigger] agrees_on(table, key, value) {
        KeyMatch::One(choose|value: u64| #[trigger] agrees_on(table, key, value))
    } else {
        KeyMatch::Several
    }
}

/// One row: the symbol of a module, and its number.
struct SymbolRow {
    module: String,
    key: ExportKey,
    value: u64,
}

impl SymbolRow {
    /// The symbol of the row.
    spec fn symbol(&self) -> (Seq<char>, KeyView) {
        (self.module@, self.key@)
    }
}

/// A table that has one number for each of its symbols.
pub struct SymbolTable {
    rows: Vec<SymbolRow>,
    buckets: HashMap<u64, Vec<usize>>,
}

/// Mixes the characters of a text into a number.
spec fn mixed(seed: int, letters: Seq<char>) -> int
    decreases letters.len(),
{
    if letters.len() == 0 {
        seed
    } else {
        (mixed(seed, letters.drop_last()) * 1_000_003 + letters.last() as int) % 0xFFFF_FFFB
    }
}

/// The bucket of a symbol.
spec fn bucket_of(module: Seq<char>, key: KeyView) -> int {
    match key {
        KeyView::Name(name) => mixed(mixed(7, module), name),
        KeyView::Ordinal(ordinal) => (mixed(11, module) * 1_000_003 + ordinal) % 0xFFFF_FFFB,
    }
}

fn mix(seed: u64, string: &str) -> (result: u64)
    requires
        seed < 0xFFFF_FFFB,
    ensures
        result == mixed(seed as int, string@),
        result < 0xFFFF_FFFB,
{
    let mut result: u64 = seed;
    for letter in it: string.chars()
        invariant
            it.seq() == string@,
            result < 0xFFFF_FFFB,
            result == mixed(seed as int, string@.take(it.index() as int)),
    {
        let ghost before = it.index();
        proof {
            let more = string@.take(before + 1);
            assert(more.drop_last() =~= string@.take(before as int));
            assert(more.last() == letter);
        }
        result = (result * 1_000_003 + code_of(letter)) % 0xFFFF_FFFB;
    }
    assert(string@.take(string@.len() as int) =~= string@);
    result
}

fn bucket(module: &str, key: &ExportKey) -> (result: u64)
    ensures
        result == bucket_of(module@, key@),
{
    match key {
        ExportKey::Name(name) => mix(mix(7, module), name.as_str()),
        ExportKey::Ordinal(ordinal) => (mix(11, module) * 1_000_003 + *ordinal as u64)
            % 0xFFFF_FFFB,
    }
}

impl SymbolTable {
    spec fn holds_at(&self, symbol: (Seq<char>, KeyView), row: int) -> bool {
        0 <= row < self.rows@.len() && self.rows@[row].symbol() == symbol
    }

    spec fn filed(&self, row: int) -> bool {
        let at = bucket_of(self.rows@[row].module@, self.rows@[row].key@) as u64;
        self.buckets@.contains_key(at) && self.buckets@[at]@.contains(row as usize)
    }

    #[verifier::type_invariant]
    spec fn filed_once(self) -> bool {
        &&& forall|i: int| 0 <= i < self.rows@.len() ==> #[trigger] self.filed(i)
        &&& forall|at: u64, i: int|
            self.buckets@.contains_key(at) && 0 <= i < self.buckets@[at]@.len()
                ==> #[trigger] self.buckets@[at]@[i] < self.rows@.len()
        &&& forall|i: int, j: int|
            0 <= i < j < self.rows@.len() ==> (#[trigger] self.rows@[i]).symbol() != (
            #[trigger] self.rows@[j]).symbol()
    }

    /// The symbols with their numbers.
    pub closed spec fn view(&self) -> Map<(Seq<char>, KeyView), u64> {
        Map::new(
            |symbol: (Seq<char>, KeyView)| exists|row: int| self.holds_at(symbol, row),
            |symbol: (Seq<char>, KeyView)|
                self.rows@[choose|row: int| self.holds_at(symbol, row)].value,
        )
    }

    /// The empty table.
    pub fn new() -> (table: SymbolTable)
        ensures
            table.view() == Map::<(Seq<char>, KeyView), u64>::empty(),
    {
        let table: SymbolTable = SymbolTable { rows: Vec::new(), buckets: HashMap::new() };
        assert(table.view() =~= Map::<(Seq<char>, KeyView), u64>::empty());
        table
    }

    fn find(&self, module: &String, key: &ExportKey) -> (row: Option<usize>)
        ensures
            match row {
                Some(row) => self.holds_at((module@, key@), row as int),
                None => forall|row: int| !self.holds_at((module@, key@), row),
            },
    {
        proof {
            use_type_invariant(self);
        }
        assert(self.rows.len() == self.rows@.len());
        let at: u64 = bucket(module.as_str(), key);
        let ghost symbol = (module@, key@);
        match self.buckets.get(&at) {
            None => {
                assert forall|row: int| !self.holds_at(symbol, row) by {
                    if self.holds_at(symbol, row) {
                        assert(self.filed(row));
                    }
                }
                None
            },
            Some(places) => {
                let mut index: usize = 0;
                while index < places.len()
                    invariant
                        index <= places@.len(),
                        symbol == (module@, key@),
                        self.filed_once(),
                        at == bucket_of(module@, key@),
                        self.buckets@.contains_key(at),
                        self.buckets@[at] == *places,
                        forall|i: int|
                            0 <= i < index ==> !self.holds_at(symbol, #[trigger] places@[i] as int),
                    decreases places@.len() - index,
                {
                    let row: usize = places[index];
                    assert(self.buckets@[at]@[index as int] < self.rows@.len());
                    if self.rows[row].module == *module && self.rows[row].key.same(key) {
                        return Some(row);
                    }
                    index = index + 1;
                }
                assert forall|row: int| !self.holds_at(symbol, row) by {
                    if self.holds_at(symbol, row) {
                        assert(self.filed(row));
                        let i = choose|i: int|
                            0 <= i < places@.len() && places@[i] == row as usize;
                        assert(!self.holds_at(symbol, places@[i] as int));
                    }
                }
                None
            },
        }
    }

    /// The number of a symbol, if the table has it.
    pub fn get(&self, module: &String, key: &ExportKey) -> (value: Option<u64>)
        ensures
            match value {
                Some(value) => self.view().contains_key((module@, key@)) && self.view()[(
                    module@,
                    key@,
                )] == value,
                None => !self.view().contains_key((module@, key@)),
            },
    {
        proof {
            use_type_invariant(self);
        }
        let ghost symbol = (module@, key@);
        match self.find(module, key) {
            Some(row) => {
                proof {
                    let chosen = choose|row: int| self.holds_at(symbol, row);
                    assert(self.holds_at(symbol, chosen));
                    if chosen != row {
                        assert(self.rows@[chosen].symbol() == self.rows@[row as int].symbol());
                    }
                }
                Some(self.rows[row].value)
            },
            None => None,
        }
    }

    /// Adds a symbol that the table does not have.
    fn add_row(&mut self, module: String, key: ExportKey, value: u64)
        requires
            !old(self).view().contains_key((module@, key@)),
        ensures
            final(self).view() == old(self).view().insert((module@, key@), value),
    {
        proof {
            use_type_invariant(&*self);
        }
        let ghost symbol = (module@, key@);
        let at: u64 = bucket(module.as_str(), &key);
        let mut whole: SymbolTable = SymbolTable::new();
        std::mem::swap(self, &mut whole);
        let ghost before = whole;
        proof {
            use_type_invariant(&whole);
        }
        let SymbolTable { mut rows, mut buckets } = whole;
        let place: usize = rows.len();
        let mut places: Vec<usize> = match buckets.remove(&at) {
            Some(places) => places,
            None => Vec::new(),
        };
        let ghost earlier = places@;
        places.push(place);
        let ghost filled = places@;
        buckets.insert(at, places);
        rows.push(SymbolRow { module, key, value });
        proof {
            let after = SymbolTable { rows, buckets };
            assert forall|i: int| 0 <= i < after.rows@.len() implies #[trigger] after.filed(i) by {
                if i < before.rows@.len() {
                    assert(before.filed(i));
                    let own = bucket_of(before.rows@[i].module@, before.rows@[i].key@) as u64;
                    if own == at {
                        let j = choose|j: int| 0 <= j < earlier.len() && earlier[j] == i as usize;
                        assert(filled[j] == i as usize);
                    }
                } else {
                    assert(filled[earlier.len() as int] == place);
                }
            }
            assert forall|h: u64, i: int|
                after.buckets@.contains_key(h) && 0 <= i
                    < after.buckets@[h]@.len() implies #[trigger] after.buckets@[h]@[i]
                < after.rows@.len() by {
                if h != at {
                    assert(before.buckets@[h]@[i] < before.rows@.len());
                } else if i < earlier.len() {
                    assert(before.buckets@[h]@[i] < before.rows@.len());
                }
            }
            assert forall|i: int, j: int| 0 <= i < j < after.rows@.len() implies (
            #[trigger] after.rows@[i]).symbol() != (#[trigger] after.rows@[j]).symbol() by {
                if j == before.rows@.len() {
                    if after.rows@[i].symbol() == symbol {
                        assert(before.holds_at(symbol, i));
                    }
                }
            }
        }
        *self = SymbolTable { rows, buckets };
        proof {
            let expected = before.view().insert(symbol, value);
            assert forall|other: (Seq<char>, KeyView)|
                self.view().contains_key(other) == #[trigger] expected.contains_key(other) by {
                if exists|row: int| before.holds_at(other, row) {
                    let row = choose|row: int| before.holds_at(other, row);
                    assert(self.holds_at(other, row));
                }
                if other == symbol {
                    assert(self.holds_at(other, before.rows@.len() as int));
                }
                if self.view().contains_key(other) && other != symbol {
                    let row = choose|row: int| self.holds_at(other, row);
                    assert(self.holds_at(other, row));
                    assert(before.holds_at(other, row));
                }
            }
            assert forall|other: (Seq<char>, KeyView)|
                self.view().contains_key(other) implies #[trigger] self.view()[other]
                == expected[other] by {
                let row = choose|row: int| self.holds_at(other, row);
                assert(self.holds_at(other, row));
                if other == symbol {
                    if row < before.rows@.len() {
                        assert(before.holds_at(symbol, row));
                        assert(before.view().contains_key(symbol));
                    }
                    assert(row == before.rows@.len());
                } else {
                    assert(before.holds_at(other, row));
                    let old_row = choose|row: int| before.holds_at(other, row);
                    assert(before.holds_at(other, old_row));
                    if old_row != row {
                        assert(before.rows@[old_row].symbol() == before.rows@[row].symbol());
                    }
                }
            }
            assert(self.view() =~= expected);
        }
    }

    /// Gives a symbol a number, unless it has one.
    pub fn insert_if_absent(&mut self, module: String, key: ExportKey, value: u64)
        ensures
            final(self).view() == if old(self).view().contains_key((module@, key@)) {
                old(self).view()
            } else {
                old(self).view().insert((module@, key@), value)
            },
    {
        if self.get(&module, &key).is_none() {
            self.add_row(module, key, value);
        }
    }

    /// Gives a symbol a number in place of the one that it has.
    pub fn insert(&mut self, module: String, key: ExportKey, value: u64)
        ensures
            final(self).view() == old(self).view().insert((module@, key@), value),
    {
        let ghost symbol = (module@, key@);
        match self.find(&module, &key) {
            None => {
                self.add_row(module, key, value);
            },
            Some(place) => {
                let mut whole: SymbolTable = SymbolTable::new();
                std::mem::swap(self, &mut whole);
                let ghost before = whole;
                proof {
                    use_type_invariant(&whole);
                }
                let SymbolTable { mut rows, buckets } = whole;
                let row: SymbolRow = SymbolRow { module, key, value };
                rows.set(place, row);
                proof {
                    let after = SymbolTable { rows, buckets };
                    assert forall|i: int|
                        0 <= i < after.rows@.len() implies after.rows@[i].symbol()
                        == #[trigger] before.rows@[i].symbol() by {}
                    assert forall|i: int| 0 <= i < after.rows@.len() implies #[trigger] after.filed(
                        i,
                    ) by {
                        assert(before.filed(i));
                        assert(after.rows@[i].symbol() == before.rows@[i].symbol());
                    }
                }
                *self = SymbolTable { rows, buckets };
                proof {
                    let expected = before.view().insert(symbol, value);
                    assert forall|other: (Seq<char>, KeyView), i: int|
                        self.holds_at(other, i) == before.holds_at(other, i) by {}
                    assert forall|other: (Seq<char>, KeyView)|
                        self.view().contains_key(other) == #[trigger] expected.contains_key(
                            other,
                        ) by {
                        if before.view().contains_key(other) {
                            let i = choose|i: int| before.holds_at(other, i);
                            assert(self.holds_at(other, i));
                        }
                        if self.view().contains_key(other) {
                            let i = choose|i: int| self.holds_at(other, i);
                            assert(before.holds_at(other, i));
                        }
                        assert(self.holds_at(symbol, place as int));
                    }
                    assert forall|other: (Seq<char>, KeyView)|
                        self.view().contains_key(other) implies #[trigger] self.view()[other]
                        == expected[other] by {
                        let i = choose|i: int| self.holds_at(other, i);
                        assert(self.holds_at(other, i));
                        assert(before.holds_at(other, i));
                        let j = choose|j: int| before.holds_at(other, j);
                        assert(before.holds_at(other, j));
                        if i != j {
                            assert(before.rows@[i].symbol() == before.rows@[j].symbol());
                        }
                        if other == symbol {
                            assert(before.holds_at(symbol, place as int));
                            if i != place {
                                assert(before.rows@[i].symbol() == before.rows@[place as int].symbol());
                            }
                        }
                    }
                    assert(self.view() =~= expected);
                }
            },
        }
    }

    /// Looks for a key in every module.
    pub fn match_key(&self, key: &ExportKey) -> (found: KeyMatch)
        ensures
            found == match_of(self.view(), key@),
    {
        proof {
            use_type_invariant(self);
        }
        let ghost table = self.view();
        proof {
            assert forall|i: int| 0 <= i < self.rows@.len() implies (
            #[trigger] self.view().contains_key(self.rows@[i].symbol())) && self.view()[self.rows@[i].symbol()]
                == self.rows@[i].value by {
                let symbol = self.rows@[i].symbol();
                assert(self.holds_at(symbol, i));
                let j = choose|j: int| self.holds_at(symbol, j);
                assert(self.holds_at(symbol, j));
                if i != j {
                    assert(self.rows@[i].symbol() == self.rows@[j].symbol());
                }
            }
        }
        let mut found: Option<u64> = None;
        let mut index: usize = 0;
        while index < self.rows.len()
            invariant
                index <= self.rows@.len(),
                table == self.view(),
                forall|i: int|
                    0 <= i < self.rows@.len() ==> (#[trigger] self.view().contains_key(
                        self.rows@[i].symbol(),
                    )) && self.view()[self.rows@[i].symbol()] == self.rows@[i].value,
                match found {
                    None => forall|i: int| 0 <= i < index ==> (#[trigger] self.rows@[i]).key@ != key@,
                    Some(value) => (exists|module: Seq<char>| #[trigger]
                        table.contains_key((module, key@)) && table[(module, key@)] == value)
                        && forall|i: int|
                        0 <= i < index && (#[trigger] self.rows@[i]).key@ == key@
                            ==> self.rows@[i].value == value,
                },
            decreases self.rows@.len() - index,
        {
            let row: &SymbolRow = &self.rows[index];
            assert(self.view().contains_key(self.rows@[index as int].symbol()));
            if row.key.same(key) {
                assert(row.symbol() == (row.module@, key@));
                match found {
                    Some(value) => {
                        if value != row.value {
                            assert forall|other: u64| !#[trigger] agrees_on(table, key@, other) by {
                                let module = choose|module: Seq<char>|
                                    #[trigger] table.contains_key((module, key@)) && table[(
                                        module,
                                        key@,
                                    )] == value;
                                assert(table.contains_key((module, key@)));
                                assert(table.contains_key((row.module@, key@)));
                            }
                            return KeyMatch::Several;
                        }
                    },
                    None => {
                        assert(table.contains_key((row.module@, key@)));
                        found = Some(row.value);
                    },
                }
            }
            index = index + 1;
        }
        match found {
            None => {
                assert forall|module: Seq<char>| !#[trigger] table.contains_key((module, key@)) by {
                    if table.contains_key((module, key@)) {
                        let i = choose|i: int| self.holds_at((module, key@), i);
                        assert(self.holds_at((module, key@), i));
                        assert(self.rows@[i].key@ == key@);
                    }
                }
                KeyMatch::Nowhere
            },
            Some(value) => {
                proof {
                    assert forall|module: Seq<char>| #[trigger]
                        table.contains_key((module, key@)) implies table[(module, key@)] == value by {
                        let i = choose|i: int| self.holds_at((module, key@), i);
                        assert(self.holds_at((module, key@), i));
                        assert(self.rows@[i].key@ == key@);
                    }
                    assert(agrees_on(table, key@, value));
                    let other = choose|other: u64| #[trigger] agrees_on(table, key@, other);
                    assert(agrees_on(table, key@, other));
                    let module = choose|module: Seq<char>|
                        #[trigger] table.contains_key((module, key@)) && table[(module, key@)]
                            == value;
                    assert(table.contains_key((module, key@)));
                }
                KeyMatch::One(value)
            },
        }
    }
}

} // verus!
