//! The names of the files that are written.

use vstd::prelude::*;

use crate::error::{AppError, AppResult};
use crate::error;
use crate::path::{extension, file_name, file_stem};
use crate::path;
use crate::text::{
    ascii_lowercase, begins_with, chars_of, code_of, is_text, joined, parse_number, push_decimal,
    text_of, trim, utf8_text,
};
use crate::text;

verus! {

pub const OUTPUT_DIRECTORY: &'static str = "mempe";

pub const MAX_NAME_CHARS: usize = 180;

pub const MAX_NAME_ATTEMPTS: u32 = 100_000;

pub const MAX_PROMPT_BYTES: usize = 16;

pub const MAX_TEMP_ATTEMPTS: usize = 1_024;

/// What happens to files that are there already.
#[derive(Clone, Copy, Debug, PartialEq, Eq, Structural)]
pub enum CollisionPolicy {
    Overwrite,
    Rename,
}

/// A file that is to be written.
#[derive(Debug)]
pub struct OutputFile<T> {
    pub preferred_name: String,
    pub bytes: Vec<u8>,
    pub context: T,
}

/// A file that was written.
#[derive(Debug)]
pub struct WrittenFile<T> {
    pub path: String,
    pub context: T,
}

/// The character cannot stand in a file name.
pub open spec fn forbidden(letter: char) -> bool {
    let code = letter as int;
    ||| code < 0x20
    ||| 0x7F <= code <= 0x9F
    ||| letter == '<'
    ||| letter == '>'
    ||| letter == ':'
    ||| letter == '"'
    ||| letter == '/'
    ||| letter == '\\'
    ||| letter == '|'
    ||| letter == '?'
    ||| letter == '*'
}

/// The character that a file name gets for `letter`.
pub open spec fn allowed(letter: char) -> char {
    if forbidden(letter) {
        '_'
    } else {
        letter
    }
}

/// The name without spaces and dots at its end.
pub open spec fn without_tail(name: Seq<char>) -> Seq<char>
    decreases name.len(),
{
    if name.len() > 0 && (name.last() == ' ' || name.last() == '.') {
        without_tail(name.drop_last())
    } else {
        name
    }
}

/// The stem of a name, or the name itself where it has none.
pub open spec fn stem_or_name(name: Seq<char>) -> Seq<char> {
    match path::file_stem_of(name) {
        Some(stem) => stem,
        None => name,
    }
}

/// The digits of a port are those of a number from one to nine.
pub open spec fn port_digits(digits: Seq<char>) -> bool {
    match text::number(digits, 10, u8::MAX as nat) {
        Some(number) => 1 <= number <= 9,
        None => false,
    }
}

/// Windows keeps the name for a device, whatever its extension.
pub open spec fn reserved(name: Seq<char>) -> bool {
    let stem = text::lowercase(stem_or_name(name));
    ||| stem == "con"@
    ||| stem == "prn"@
    ||| stem == "aux"@
    ||| stem == "nul"@
    ||| ("com"@.is_prefix_of(stem) && port_digits(stem.skip(3)))
    ||| ("lpt"@.is_prefix_of(stem) && port_digits(stem.skip(3)))
}

/// The characters of a file name: the first ones, without those that cannot stand there, and
/// without spaces and dots at the end.
pub open spec fn safe_letters(base: Seq<char>) -> Seq<char> {
    let shown = if base.len() > MAX_NAME_CHARS {
        base.take(MAX_NAME_CHARS as int)
    } else {
        base
    };
    without_tail(shown.map_values(|letter: char| allowed(letter)))
}

/// The name under which a file is written, or why there is none.
pub open spec fn cleaned(name: Seq<char>) -> Result<Seq<char>, Seq<char>> {
    match path::file_name_of(name) {
        None => Err("output file name is not valid text"@),
        Some(base) => {
            let safe = safe_letters(base);
            if safe.len() == 0 {
                Err("output file name is empty"@)
            } else if reserved(safe) {
                Ok(seq!['_'] + safe)
            } else {
                Ok(safe)
            }
        },
    }
}

proof fn lemma_without_tail(name: Seq<char>)
    ensures
        without_tail(name).len() <= name.len(),
        without_tail(name) == name.take(without_tail(name).len() as int),
        without_tail(name).len() > 0 ==> without_tail(name).last() != ' ' && without_tail(
            name,
        ).last() != '.',
    decreases name.len(),
{
    if name.len() > 0 && (name.last() == ' ' || name.last() == '.') {
        lemma_without_tail(name.drop_last());
        assert(name.drop_last().take(without_tail(name).len() as int) =~= name.take(
            without_tail(name).len() as int,
        ));
    } else {
        assert(name.take(name.len() as int) =~= name);
    }
}

proof fn lemma_safe_letters(base: Seq<char>)
    ensures
        safe_letters(base).len() <= MAX_NAME_CHARS,
        forall|index: int|
            #![trigger safe_letters(base)[index]]
            0 <= index < safe_letters(base).len() ==> !forbidden(safe_letters(base)[index]),
        safe_letters(base).len() > 0 ==> safe_letters(base).last() != ' ' && safe_letters(
            base,
        ).last() != '.',
{
    let shown = if base.len() > MAX_NAME_CHARS {
        base.take(MAX_NAME_CHARS as int)
    } else {
        base
    };
    let mapped = shown.map_values(|letter: char| allowed(letter));
    lemma_without_tail(mapped);
    assert forall|index: int|
        #![trigger safe_letters(base)[index]]
        0 <= index < safe_letters(base).len() implies !forbidden(safe_letters(base)[index]) by {
        assert(safe_letters(base)[index] == mapped[index]);
        assert(mapped[index] == allowed(shown[index]));
    }
}

proof fn lemma_marked_is_not_reserved(name: Seq<char>)
    requires
        path::plain(name),
        name.len() > 1,
        name[0] == '_',
        name.last() != '.',
    ensures
        !reserved(name),
{
    path::plain_name_is_file_name(name);
    lemma_stem_begins(name);
    let stem = stem_or_name(name);
    let key = text::lowercase(stem);
    assert(key[0] == '_');
    reveal_strlit("con");
    reveal_strlit("prn");
    reveal_strlit("aux");
    reveal_strlit("nul");
    reveal_strlit("com");
    reveal_strlit("lpt");
    if "com"@.is_prefix_of(key) {
        assert("com"@[0] == key[0]);
    }
    if "lpt"@.is_prefix_of(key) {
        assert("lpt"@[0] == key[0]);
    }
}

proof fn lemma_after_last(string: Seq<char>, marks: Seq<char>)
    ensures
        0 <= text::after_last(string, marks) <= string.len(),
    decreases string.len(),
{
    if string.len() > 0 && !marks.contains(string.last()) {
        lemma_after_last(string.drop_last(), marks);
    }
}

proof fn lemma_stem_begins(name: Seq<char>)
    requires
        name.len() > 0,
        path::file_name_of(name) == Some(name),
    ensures
        stem_or_name(name).len() > 0,
        stem_or_name(name)[0] == name[0],
{
    lemma_after_last(name, seq!['.']);
}

/// The name can be used on Windows: it is not empty, it holds no character that cannot stand in a
/// file name, it ends in neither a space nor a dot, and it is not kept for a device.
pub open spec fn usable(name: Seq<char>) -> bool {
    &&& name.len() > 0
    &&& forall|index: int|
        #![trigger name[index]]
        0 <= index < name.len() ==> !forbidden(name[index])
    &&& name.last() != ' '
    &&& name.last() != '.'
    &&& !reserved(name)
}

/// A cleaned name can be used on Windows, and it is short.
pub proof fn cleaned_names_are_usable(name: Seq<char>)
    requires
        cleaned(name) is Ok,
    ensures
        usable(cleaned(name)->Ok_0),
        cleaned(name)->Ok_0.len() <= MAX_NAME_CHARS + 1,
{
    let base = path::file_name_of(name)->0;
    let safe = safe_letters(base);
    lemma_safe_letters(base);
    if reserved(safe) {
        let marked = seq!['_'] + safe;
        assert forall|index: int|
            #![trigger marked[index]]
            0 <= index < marked.len() implies !forbidden(marked[index]) by {
            if index > 0 {
                assert(marked[index] == safe[index - 1]);
            }
        }
        assert(path::plain(marked));
        lemma_marked_is_not_reserved(marked);
    }
}

/// A name that can be used on Windows is kept as it is, unless it is too long.
pub proof fn usable_names_are_kept(name: Seq<char>)
    requires
        usable(name),
        name.len() <= MAX_NAME_CHARS,
    ensures
        cleaned(name) == Ok::<Seq<char>, Seq<char>>(name),
{
    assert(path::plain(name));
    path::plain_name_is_file_name(name);
    let mapped = name.map_values(|letter: char| allowed(letter));
    assert(mapped =~= name);
    assert(safe_letters(name) == name);
}

/// To clean a name that was cleaned already changes nothing, unless the mark before a name that
/// is kept for a device has made it too long.
pub proof fn cleaning_twice_changes_nothing(name: Seq<char>)
    requires
        cleaned(name) is Ok,
        cleaned(name)->Ok_0.len() <= MAX_NAME_CHARS,
    ensures
        cleaned(cleaned(name)->Ok_0) == cleaned(name),
{
    cleaned_names_are_usable(name);
    usable_names_are_kept(cleaned(name)->Ok_0);
}

fn is_forbidden(letter: char) -> (yes: bool)
    ensures
        yes == forbidden(letter),
{
    let code: u64 = code_of(letter);
    code < 0x20 || (0x7F <= code && code <= 0x9F) || letter == '<' || letter == '>' || letter == ':'
        || letter == '"' || letter == '/' || letter == '\\' || letter == '|' || letter == '?'
        || letter == '*'
}

fn is_port(letters: &Vec<char>) -> (yes: bool)
    requires
        letters@.len() >= 3,
    ensures
        yes == port_digits(letters@.skip(3)),
{
    let digits: String = text_of(letters, 3, letters.len());
    assert(digits@ =~= letters@.skip(3));
    match parse_number(digits.as_str(), 10, u8::MAX as u32) {
        Some(number) => 1 <= number && number <= 9,
        None => false,
    }
}

/// Tests for a name that Windows keeps for a device.
pub fn is_reserved_windows_name(name: &str) -> (yes: bool)
    ensures
        yes == reserved(name@),
{
    let stem: String = match file_stem(name) {
        Some(stem) => ascii_lowercase(stem.as_str()),
        None => ascii_lowercase(name),
    };
    if is_text(&stem, "con") || is_text(&stem, "prn") || is_text(&stem, "aux") || is_text(
        &stem,
        "nul",
    ) {
        return true;
    }
    let letters: Vec<char> = chars_of(stem.as_str());
    proof {
        reveal_strlit("com");
        reveal_strlit("lpt");
    }
    (begins_with(&letters, "com") && is_port(&letters)) || (begins_with(&letters, "lpt") && is_port(
        &letters,
    ))
}

fn replace_forbidden(base: &str) -> (letters: Vec<char>)
    ensures
        ({
            let shown = if base@.len() > MAX_NAME_CHARS {
                base@.take(MAX_NAME_CHARS as int)
            } else {
                base@
            };
            letters@ == shown.map_values(|letter: char| allowed(letter))
        }),
{
    let all: Vec<char> = chars_of(base);
    let count: usize = if all.len() > MAX_NAME_CHARS {
        MAX_NAME_CHARS
    } else {
        all.len()
    };
    let mut letters: Vec<char> = Vec::with_capacity(count);
    let mut index: usize = 0;
    while index < count
        invariant
            index <= count <= all@.len(),
            letters@ =~= all@.take(index as int).map_values(|letter: char| allowed(letter)),
        decreases count - index,
    {
        letters.push(
            if is_forbidden(all[index]) {
                '_'
            } else {
                all[index]
            },
        );
        index = index + 1;
    }
    assert(all@.take(all@.len() as int) =~= all@);
    letters
}

/// The name under which a file is written.
pub fn clean_name(name: &str) -> (result: AppResult<String>)
    ensures
        error::agrees(result, cleaned(name@)),
{
    let base: String = match file_name(name) {
        Some(base) => base,
        None => {
            return Err(AppError::fixed("output file name is not valid text"));
        },
    };
    let letters: Vec<char> = replace_forbidden(base.as_str());
    let mut length: usize = letters.len();
    assert(letters@.take(length as int) =~= letters@);
    while length > 0 && (letters[length - 1] == ' ' || letters[length - 1] == '.')
        invariant
            length <= letters@.len(),
            without_tail(letters@) == without_tail(letters@.take(length as int)),
        decreases length,
    {
        assert(letters@.take(length as int).drop_last() =~= letters@.take(length - 1));
        length = length - 1;
    }
    if length > 0 {
        assert(letters@.take(length as int).last() == letters@[length - 1]);
    }
    if length == 0 {
        return Err(AppError::fixed("output file name is empty"));
    }
    let safe: String = text_of(&letters, 0, length);
    assert(safe@ =~= letters@.take(length as int));
    if is_reserved_windows_name(safe.as_str()) {
        let mut marked: String = String::new();
        marked.push('_');
        marked.append(safe.as_str());
        assert(marked@ =~= seq!['_'] + safe@);
        return Ok(marked);
    }
    Ok(safe)
}

/// The name with a number before its extension.
pub open spec fn numbered(name: Seq<char>, suffix: u32) -> Seq<char> {
    let stem = stem_or_name(name) + "_"@ + text::decimal(suffix as nat);
    match path::extension_of(name) {
        Some(extension) => stem + "."@ + extension,
        None => stem,
    }
}

/// The name with a number before its extension.
pub fn suffixed_name(name: &str, suffix: u32) -> (result: String)
    ensures
        result@ == numbered(name@, suffix),
{
    let mut result: String = match file_stem(name) {
        Some(stem) => stem,
        None => name.to_owned(),
    };
    result.append("_");
    push_decimal(&mut result, suffix as u64);
    if let Some(extension) = extension(name) {
        result.append(".");
        result.append(extension.as_str());
    }
    result
}

/// Different numbers give different names.
pub proof fn numbers_make_names_different(name: Seq<char>, first: u32, second: u32)
    requires
        first != second,
    ensures
        numbered(name, first) != numbered(name, second),
{
    let stem = stem_or_name(name) + "_"@;
    let left = text::decimal(first as nat);
    let right = text::decimal(second as nat);
    let tail = match path::extension_of(name) {
        Some(extension) => "."@ + extension,
        None => Seq::empty(),
    };
    assert(numbered(name, first) =~= stem + left + tail);
    assert(numbered(name, second) =~= stem + right + tail);
    if numbered(name, first) == numbered(name, second) {
        assert(left.len() == right.len());
        let start = stem.len() as int;
        let end = start + left.len();
        assert((stem + left + tail).subrange(start, end) =~= left);
        assert((stem + right + tail).subrange(start, end) =~= right);
        text::decimal_reads_back(first as nat, u32::MAX as nat);
        text::decimal_reads_back(second as nat, u32::MAX as nat);
    }
}

/// The name of the attempt with this number: the first one has no number in it.
pub open spec fn attempt_name(name: Seq<char>, attempt: u32) -> Seq<char> {
    if attempt == 1 {
        name
    } else {
        numbered(name, attempt)
    }
}

/// The name of the attempt with this number.
fn name_for(name: &String, attempt: u32) -> (result: String)
    ensures
        result@ == attempt_name(name@, attempt),
{
    if attempt == 1 {
        name.clone()
    } else {
        suffixed_name(name.as_str(), attempt)
    }
}

/// The texts of a list.
pub open spec fn texts(list: Seq<String>) -> Seq<Seq<char>> {
    list.map_values(|item: String| item@)
}

/// Two names are the same to Windows when they differ only in the case of ASCII letters.
pub open spec fn name_is_used(used: Seq<Seq<char>>, name: Seq<char>) -> bool {
    exists|index: int|
        0 <= index < used.len() && #[trigger] text::lowercase(used[index]) == text::lowercase(name)
}

/// No two names are the same to Windows.
pub open spec fn names_differ(names: Seq<Seq<char>>) -> bool {
    forall|first: int, second: int|
        #![trigger names[first], names[second]]
        0 <= first < second < names.len() ==> text::lowercase(names[first]) != text::lowercase(
            names[second],
        )
}

/// Where files are written, and what happens to those that are there already.
#[derive(Debug)]
pub struct OutputPlan {
    directory: String,
    policy: CollisionPolicy,
}

/// A name can be taken: no earlier file has it, and no file on disk would have to make room.
pub open spec fn name_is_free(
    policy: CollisionPolicy,
    used: Seq<Seq<char>>,
    name: Seq<char>,
    exists_on_disk: bool,
) -> bool {
    &&& !(policy == CollisionPolicy::Rename && exists_on_disk)
    &&& !name_is_used(used, name)
}

fn is_used(used: &Vec<String>, name: &String) -> (yes: bool)
    ensures
        yes == name_is_used(texts(used@), name@),
{
    let key: String = ascii_lowercase(name.as_str());
    let mut index: usize = 0;
    while index < used.len()
        invariant
            index <= used@.len(),
            key@ == text::lowercase(name@),
            forall|earlier: int|
                #![trigger texts(used@)[earlier]]
                0 <= earlier < index ==> text::lowercase(texts(used@)[earlier]) != key@,
        decreases used@.len() - index,
    {
        let other: String = ascii_lowercase(used[index].as_str());
        assert(texts(used@)[index as int] == used@[index as int]@);
        if other == key {
            return true;
        }
        index = index + 1;
    }
    false
}

impl OutputPlan {
    pub closed spec fn spec_directory(self) -> Seq<char> {
        self.directory@
    }

    pub closed spec fn spec_policy(self) -> CollisionPolicy {
        self.policy
    }

    pub fn new(directory: String, policy: CollisionPolicy) -> (plan: Self)
        ensures
            plan.spec_directory() == directory@,
            plan.spec_policy() == policy,
    {
        OutputPlan { directory, policy }
    }

    /// The folder for the files.
    pub fn directory(&self) -> (directory: &str)
        ensures
            directory@ == self.spec_directory(),
    {
        self.directory.as_str()
    }

    pub fn policy(&self) -> (policy: CollisionPolicy)
        ensures
            policy == self.spec_policy(),
    {
        self.policy
    }

    /// Takes the name of one attempt, unless it is taken. `exists_on_disk` says whether the folder
    /// holds that name.
    pub fn unique_destination(
        &self,
        name: &String,
        attempt: u32,
        exists_on_disk: bool,
        used: &mut Vec<String>,
    ) -> (taken: bool)
        ensures
            taken == name_is_free(
                self.spec_policy(),
                texts(old(used)@),
                attempt_name(name@, attempt),
                exists_on_disk,
            ),
            texts(final(used)@) == (if taken {
                texts(old(used)@).push(attempt_name(name@, attempt))
            } else {
                texts(old(used)@)
            }),
    {
        let candidate: String = name_for(name, attempt);
        let occupied_by_disk: bool = self.policy == CollisionPolicy::Rename && exists_on_disk;
        if occupied_by_disk || is_used(used, &candidate) {
            return false;
        }
        used.push(candidate);
        assert(texts(used@) =~= texts(old(used)@).push(attempt_name(name@, attempt)));
        true
    }

    /// Starts to name the files.
    pub fn destinations<T>(&self, files: &[OutputFile<T>]) -> (result: AppResult<Destinations>)
        ensures
            match (
                naming_started(
                    self.spec_policy(),
                    files@.map_values(|file: OutputFile<T>| file.preferred_name@),
                ),
                result,
            ) {
                (Ok(expected), Ok(found)) => found@ == expected,
                (Err(message), Err(error)) => error@ == message,
                _ => false,
            },
    {
        let mut preferred: Vec<String> = Vec::with_capacity(files.len());
        let mut index: usize = 0;
        while index < files.len()
            invariant
                index <= files@.len(),
                texts(preferred@) =~= files@.take(index as int).map_values(
                    |file: OutputFile<T>| file.preferred_name@,
                ),
            decreases files@.len() - index,
        {
            let ghost before = preferred@;
            preferred.push(files[index].preferred_name.clone());
            assert(texts(preferred@) =~= texts(before).push(
                files@[index as int].preferred_name@,
            ));
            index = index + 1;
        }
        assert(files@.take(files@.len() as int) =~= files@);
        let plan: OutputPlan = OutputPlan { directory: self.directory.clone(), policy: self.policy };
        let used: Vec<String> = Vec::new();
        assert(texts(used@) =~= Seq::empty());
        Destinations::next_file(plan, preferred, used)
    }
}

/// How far the naming of files has come.
pub ghost struct NamingState {
    pub policy: CollisionPolicy,
    /// The names that the files should have.
    pub preferred: Seq<Seq<char>>,
    /// The names that the first files got.
    pub names: Seq<Seq<char>>,
    /// The number of the attempt to name the next file.
    pub attempt: u32,
}

/// The naming of the next file begins: its name must be usable.
pub open spec fn next_file_begun(
    policy: CollisionPolicy,
    preferred: Seq<Seq<char>>,
    names: Seq<Seq<char>>,
) -> Result<NamingState, Seq<char>> {
    if names.len() < preferred.len() && cleaned(preferred[names.len() as int]) is Err {
        Err(cleaned(preferred[names.len() as int])->Err_0)
    } else {
        Ok(NamingState { policy, preferred, names, attempt: 1 })
    }
}

/// The state before the first answer.
pub open spec fn naming_started(policy: CollisionPolicy, preferred: Seq<Seq<char>>) -> Result<
    NamingState,
    Seq<char>,
> {
    next_file_begun(policy, preferred, Seq::empty())
}

/// The name that is to be looked for on disk.
pub open spec fn name_in_question(state: NamingState) -> Seq<char> {
    attempt_name(cleaned(state.preferred[state.names.len() as int])->Ok_0, state.attempt)
}

/// The state after the answer whether the name in question is there on disk.
pub open spec fn naming_answered(state: NamingState, exists_on_disk: bool) -> Result<
    NamingState,
    Seq<char>,
> {
    let name = name_in_question(state);
    if name_is_free(state.policy, state.names, name, exists_on_disk) {
        next_file_begun(state.policy, state.preferred, state.names.push(name))
    } else if state.attempt >= MAX_NAME_ATTEMPTS {
        Err("could not find a free output file name"@)
    } else {
        Ok(NamingState { attempt: (state.attempt + 1) as u32, ..state })
    }
}

/// The state of a naming that has not failed.
pub open spec fn naming_is_sound(state: NamingState) -> bool {
    &&& state.names.len() <= state.preferred.len()
    &&& 1 <= state.attempt <= MAX_NAME_ATTEMPTS
    &&& names_differ(state.names)
    &&& state.names.len() < state.preferred.len() ==> cleaned(
        state.preferred[state.names.len() as int],
    ) is Ok
}

/// Whatever the answers are, the names stay different from each other.
pub proof fn answers_keep_names_different(state: NamingState, exists_on_disk: bool)
    requires
        naming_is_sound(state),
        state.names.len() < state.preferred.len(),
    ensures
        naming_answered(state, exists_on_disk) is Ok ==> naming_is_sound(
            naming_answered(state, exists_on_disk)->Ok_0,
        ),
{
    let name = name_in_question(state);
    let names = state.names.push(name);
    if !name_is_used(state.names, name) {
        assert forall|first: int, second: int|
            #![trigger names[first], names[second]]
            0 <= first < second < names.len() implies text::lowercase(names[first])
            != text::lowercase(names[second]) by {
            assert(names[first] == state.names[first]);
            if second < state.names.len() {
                assert(names[second] == state.names[second]);
            }
        }
    }
}

/// With the policy to rename, a name that is there on disk is never taken.
pub proof fn renaming_spares_files_on_disk(state: NamingState)
    requires
        state.policy == CollisionPolicy::Rename,
    ensures
        match naming_answered(state, true) {
            Ok(after) => after.names == state.names,
            Err(message) => message == "could not find a free output file name"@,
        },
{
}

/// Names files one after another. For each attempt the caller says whether the folder holds that
/// name.
#[derive(Debug)]
pub struct Destinations {
    plan: OutputPlan,
    preferred: Vec<String>,
    names: Vec<String>,
    name: String,
    attempt: u32,
}

impl Destinations {
    #[verifier::type_invariant]
    pub closed spec fn is_sound(self) -> bool {
        &&& naming_is_sound(self.state())
        &&& self.names@.len() < self.preferred@.len() ==> cleaned(
            self.preferred@[self.names@.len() as int]@,
        ) == Ok::<Seq<char>, Seq<char>>(self.name@)
    }

    pub closed spec fn state(self) -> NamingState {
        NamingState {
            policy: self.plan.policy,
            preferred: texts(self.preferred@),
            names: texts(self.names@),
            attempt: self.attempt,
        }
    }

    fn next_file(plan: OutputPlan, preferred: Vec<String>, names: Vec<String>) -> (result: AppResult<
        Destinations,
    >)
        requires
            names@.len() <= preferred@.len(),
            names_differ(texts(names@)),
        ensures
            match (
                next_file_begun(plan.policy, texts(preferred@), texts(names@)),
                result,
            ) {
                (Ok(expected), Ok(found)) => found.state() == expected,
                (Err(message), Err(error)) => error@ == message,
                _ => false,
            },
    {
        let name: String = if names.len() < preferred.len() {
            assert(texts(preferred@)[names@.len() as int] == preferred@[names@.len() as int]@);
            clean_name(preferred[names.len()].as_str())?
        } else {
            String::new()
        };
        Ok(Destinations { plan, preferred, names, name, attempt: 1 })
    }

    /// The name that is to be looked for on disk, or `None` when all files have names.
    pub fn question(&self) -> (name: Option<String>)
        ensures
            text::seen(name) == (if self@.names.len() < self@.preferred.len() {
                Some(name_in_question(self@))
            } else {
                None
            }),
    {
        proof {
            use_type_invariant(self);
        }
        if self.names.len() < self.preferred.len() {
            assert(texts(self.preferred@)[self.names@.len() as int]
                == self.preferred@[self.names@.len() as int]@);
            Some(name_for(&self.name, self.attempt))
        } else {
            None
        }
    }

    /// Goes on after the answer whether the folder holds the name in question.
    pub fn answer(self, exists_on_disk: bool) -> (result: AppResult<Destinations>)
        requires
            self@.names.len() < self@.preferred.len(),
        ensures
            match (naming_answered(self@, exists_on_disk), result) {
                (Ok(expected), Ok(found)) => found@ == expected,
                (Err(message), Err(error)) => error@ == message,
                _ => false,
            },
    {
        proof {
            use_type_invariant(&self);
            answers_keep_names_different(self.state(), exists_on_disk);
            assert(texts(self.preferred@)[self.names@.len() as int]
                == self.preferred@[self.names@.len() as int]@);
        }
        let Destinations { plan, preferred, mut names, name, attempt } = self;
        if plan.unique_destination(&name, attempt, exists_on_disk, &mut names) {
            assert(names@.len() == texts(names@).len());
            return Destinations::next_file(plan, preferred, names);
        }
        if attempt >= MAX_NAME_ATTEMPTS {
            return Err(AppError::fixed("could not find a free output file name"));
        }
        Ok(Destinations { plan, preferred, names, name, attempt: attempt + 1 })
    }

    /// The names that the files got, in the order of the files.
    pub fn finish(self) -> (names: Vec<String>)
        ensures
            texts(names@) == self@.names,
            names_differ(texts(names@)),
    {
        proof {
            use_type_invariant(&self);
        }
        let Destinations { plan: _, preferred: _, names, name: _, attempt: _ } = self;
        names
    }
}

impl View for Destinations {
    type V = NamingState;

    open spec fn view(&self) -> NamingState {
        self.state()
    }
}

/// The name of a temporary file.
pub open spec fn temporary_text(process: u32, index: usize, attempt: usize) -> Seq<char> {
    ".mempe-"@ + text::decimal(process as nat) + "-"@ + text::decimal(index as nat) + "-"@
        + text::decimal(attempt as nat) + ".tmp"@
}

/// The name of a temporary file.
pub fn temporary_name(process: u32, index: usize, attempt: usize) -> (name: String)
    ensures
        name@ == temporary_text(process, index, attempt),
{
    let mut name: String = ".mempe-".to_owned();
    push_decimal(&mut name, process as u64);
    name.append("-");
    push_decimal(&mut name, index as u64);
    name.append("-");
    push_decimal(&mut name, attempt as u64);
    name.append(".tmp");
    name
}

/// Why no temporary file was made, if that is final after the attempt with this number.
pub open spec fn temporary_failure(attempt: usize, occupied: bool, detail: Seq<char>) -> Option<
    Seq<char>,
> {
    if !occupied {
        Some("cannot create a temporary file in mempe: "@ + detail)
    } else if attempt + 1 >= MAX_TEMP_ATTEMPTS {
        Some("could not make a temporary file after 1024 tries"@)
    } else {
        None
    }
}

/// The attempt that follows one that made no temporary file. Only a name that is taken is worth
/// another attempt; `occupied` says whether it was, and `detail` what the system says.
pub fn next_attempt(attempt: usize, occupied: bool, detail: &str) -> (next: AppResult<usize>)
    ensures
        match temporary_failure(attempt, occupied, detail@) {
            Some(message) => error::fails(next, message),
            None => next == Ok::<usize, AppError>((attempt + 1) as usize) && attempt + 1
                < MAX_TEMP_ATTEMPTS,
        },
{
    if !occupied {
        return Err(AppError::new(joined("cannot create a temporary file in mempe: ", detail)));
    }
    if attempt >= MAX_TEMP_ATTEMPTS - 1 {
        return Err(AppError::fixed("could not make a temporary file after 1024 tries"));
    }
    Ok(attempt + 1)
}

/// How a complete temporary file gets its name.
#[derive(Clone, Copy, Debug, PartialEq, Eq, Structural)]
pub enum SaveAction {
    /// A folder has the name: nothing is written.
    Refuse,
    /// The file with the name is removed first.
    Replace,
    /// The file is moved to its name.
    Move,
}

/// Decides how a temporary file gets its name, from what has the name on disk.
pub fn save_action(policy: CollisionPolicy, present: bool, is_directory: bool) -> (action:
    SaveAction)
    ensures
        action == SaveAction::Refuse <==> present && is_directory,
        action == SaveAction::Replace <==> present && !is_directory && policy
            == CollisionPolicy::Overwrite,
        action == SaveAction::Move <==> (!present || (!is_directory && policy
            == CollisionPolicy::Rename)),
{
    if present && is_directory {
        SaveAction::Refuse
    } else if present && policy == CollisionPolicy::Overwrite {
        SaveAction::Replace
    } else {
        SaveAction::Move
    }
}

/// What is done next when files are written.
#[derive(Clone, Copy, Debug, PartialEq, Eq, Structural)]
pub enum WriteStep {
    /// The file with this number is written under a temporary name.
    Stage(usize),
    /// The file with this number gets its own name.
    Save(usize),
    /// All files are written.
    Finished,
}

/// How far the writing of files has come.
pub ghost struct WritingState {
    pub total: int,
    /// The files that are complete under a temporary name, or were.
    pub staged: int,
    /// The files that have their own names.
    pub saved: int,
}

impl WritingState {
    /// No file has its own name unless all are complete.
    pub open spec fn sound(self) -> bool {
        &&& 0 <= self.saved <= self.staged <= self.total <= usize::MAX
        &&& self.saved > 0 ==> self.staged == self.total
    }

    /// What is done next.
    pub open spec fn next(self) -> WriteStep {
        if self.staged < self.total {
            WriteStep::Stage(self.staged as usize)
        } else if self.saved < self.total {
            WriteStep::Save(self.saved as usize)
        } else {
            WriteStep::Finished
        }
    }

    /// The state after the next step is done.
    pub open spec fn after(self) -> WritingState {
        match self.next() {
            WriteStep::Stage(_) => WritingState { staged: self.staged + 1, ..self },
            WriteStep::Save(_) => WritingState { saved: self.saved + 1, ..self },
            WriteStep::Finished => self,
        }
    }

    /// The state after `count` steps.
    pub open spec fn after_steps(self, count: nat) -> WritingState
        decreases count,
    {
        if count == 0 {
            self
        } else {
            self.after_steps((count - 1) as nat).after()
        }
    }
}

/// From the start on, the first steps stage the files in their order, and the steps that follow
/// give them their names, in the same order: no file gets its name before the last one is
/// complete. Then the writing is finished.
pub proof fn files_are_complete_before_any_gets_its_name(start: WritingState, count: nat)
    requires
        0 <= start.total <= usize::MAX,
        start.staged == 0,
        start.saved == 0,
    ensures
        start.after_steps(count).sound(),
        start.after_steps(count).total == start.total,
        start.after_steps(count).next() == if count < start.total {
            WriteStep::Stage(count as usize)
        } else if count < 2 * start.total {
            WriteStep::Save((count - start.total) as usize)
        } else {
            WriteStep::Finished
        },
        start.after_steps(count).staged == (if count < start.total {
            count as int
        } else {
            start.total
        }),
        start.after_steps(count).saved == (if count < start.total {
            0
        } else if count < 2 * start.total {
            count - start.total
        } else {
            start.total
        }),
    decreases count,
{
    if count > 0 {
        files_are_complete_before_any_gets_its_name(start, (count - 1) as nat);
    }
}

/// Writes files in two rounds: all of them under temporary names, and only then each under its
/// own name.
pub struct Writing {
    total: usize,
    staged: usize,
    saved: usize,
}

impl View for Writing {
    type V = WritingState;

    closed spec fn view(&self) -> WritingState {
        WritingState {
            total: self.total as int,
            staged: self.staged as int,
            saved: self.saved as int,
        }
    }
}

impl Writing {
    #[verifier::type_invariant]
    spec fn is_sound(self) -> bool {
        self@.sound()
    }

    /// Starts to write so many files.
    pub fn start(total: usize) -> (writing: Writing)
        ensures
            writing@ == (WritingState { total: total as int, staged: 0, saved: 0 }),
    {
        Writing { total, staged: 0, saved: 0 }
    }

    /// What is done next. A file gets its name only when all are complete.
    pub fn next(&self) -> (step: WriteStep)
        ensures
            step == self@.next(),
            step is Save ==> self@.staged == self@.total,
    {
        proof {
            use_type_invariant(self);
        }
        if self.staged < self.total {
            WriteStep::Stage(self.staged)
        } else if self.saved < self.total {
            WriteStep::Save(self.saved)
        } else {
            WriteStep::Finished
        }
    }

    /// Goes on after the next step is done.
    pub fn go_on(&mut self)
        ensures
            final(self)@ == old(self)@.after(),
    {
        proof {
            use_type_invariant(&*self);
        }
        if self.staged < self.total {
            self.staged = self.staged + 1;
        } else if self.saved < self.total {
            self.saved = self.saved + 1;
        }
    }
}

/// What is done about the folder for the files.
#[derive(Clone, Copy, Debug, PartialEq, Eq, Structural)]
pub enum FolderStep {
    /// A file has the name of the folder.
    Refuse,
    /// Files that are there already are left alone.
    Rename,
    /// The user is asked what happens to files that are there already.
    Ask,
}

/// Decides what is done about the folder. The user is asked only where the folder holds something
/// and the answer can come from a terminal.
pub fn folder_step(present: bool, is_directory: bool, has_entries: bool, terminal: bool) -> (step:
    FolderStep)
    ensures
        step == FolderStep::Refuse <==> present && !is_directory,
        step == FolderStep::Ask <==> present && is_directory && has_entries && terminal,
        step == FolderStep::Rename <==> (!present || (is_directory && (!has_entries
            || !terminal))),
{
    if present && !is_directory {
        FolderStep::Refuse
    } else if present && has_entries && terminal {
        FolderStep::Ask
    } else {
        FolderStep::Rename
    }
}

/// What the answer to the question about files that are there already means: `None` cancels.
pub open spec fn chosen_policy(input: Seq<char>) -> Result<Option<CollisionPolicy>, Seq<char>> {
    let choice = text::lowercase(text::trimmed_end(text::trimmed_start(input)));
    if choice == ""@ || choice == "r"@ || choice == "rename"@ {
        Ok(Some(CollisionPolicy::Rename))
    } else if choice == "o"@ || choice == "overwrite"@ {
        Ok(Some(CollisionPolicy::Overwrite))
    } else if choice == "c"@ || choice == "cancel"@ {
        Ok(None)
    } else {
        Err("collision choice must be overwrite, rename, or cancel"@)
    }
}

/// What the answer to the question about files that are there already means: `None` cancels.
pub fn collision_policy(input: &str) -> (result: AppResult<Option<CollisionPolicy>>)
    ensures
        match (chosen_policy(input@), result) {
            (Ok(expected), Ok(found)) => found == expected,
            (Err(message), Err(error)) => error@ == message,
            _ => false,
        },
{
    let trimmed: String = trim(input);
    let choice: String = ascii_lowercase(trimmed.as_str());
    if is_text(&choice, "") || is_text(&choice, "r") || is_text(&choice, "rename") {
        Ok(Some(CollisionPolicy::Rename))
    } else if is_text(&choice, "o") || is_text(&choice, "overwrite") {
        Ok(Some(CollisionPolicy::Overwrite))
    } else if is_text(&choice, "c") || is_text(&choice, "cancel") {
        Ok(None)
    } else {
        Err(AppError::fixed("collision choice must be overwrite, rename, or cancel"))
    }
}

/// The bytes of an answer: those before the first line feed, without carriage returns.
pub open spec fn answer_bytes(input: Seq<u8>) -> Seq<u8>
    decreases input.len(),
{
    if input.len() == 0 || input[0] == 0x0A {
        Seq::empty()
    } else if input[0] == 0x0D {
        answer_bytes(input.skip(1))
    } else {
        seq![input[0]] + answer_bytes(input.skip(1))
    }
}

/// No more of an answer is read after a line feed, or after the most bytes that it may have.
pub fn prompt_is_complete(input: &Vec<u8>) -> (complete: bool)
    ensures
        complete == (input@.len() >= MAX_PROMPT_BYTES || (input@.len() > 0 && input@.last() == 0x0A)),
{
    input.len() >= MAX_PROMPT_BYTES || (input.len() > 0 && input[input.len() - 1] == 0x0A)
}

/// The bytes of an answer that are looked at.
pub open spec fn prompt_bytes(input: Seq<u8>) -> Seq<u8> {
    if input.len() > MAX_PROMPT_BYTES {
        answer_bytes(input.take(MAX_PROMPT_BYTES as int))
    } else {
        answer_bytes(input)
    }
}

/// The text of an answer.
pub fn read_prompt(input: &Vec<u8>) -> (result: AppResult<String>)
    ensures
        match result {
            Ok(string) => vstd::utf8::valid_utf8(prompt_bytes(input@)) && string@
                == vstd::utf8::decode_utf8(prompt_bytes(input@)),
            Err(error) => !vstd::utf8::valid_utf8(prompt_bytes(input@)) && error@
                == "collision choice is not valid UTF-8"@,
        },
{
    let count: usize = if input.len() > MAX_PROMPT_BYTES {
        MAX_PROMPT_BYTES
    } else {
        input.len()
    };
    let ghost shown = input@.take(count as int);
    let mut bytes: Vec<u8> = Vec::with_capacity(MAX_PROMPT_BYTES);
    let mut index: usize = 0;
    proof {
        assert(input@.take(input@.len() as int) =~= input@);
        assert(shown.skip(0) =~= shown);
        assert(bytes@ + answer_bytes(shown.skip(0)) =~= answer_bytes(shown));
    }
    while index < count && input[index] != 0x0A
        invariant
            index <= count <= input@.len(),
            shown == input@.take(count as int),
            bytes@ + answer_bytes(shown.skip(index as int)) == answer_bytes(shown),
        decreases count - index,
    {
        assert(shown.skip(index as int)[0] == input@[index as int]);
        assert(shown.skip(index as int).skip(1) =~= shown.skip(index + 1));
        let ghost before = bytes@;
        if input[index] != 0x0D {
            bytes.push(input[index]);
            assert(before + (seq![input@[index as int]] + answer_bytes(shown.skip(index + 1)))
                =~= bytes@ + answer_bytes(shown.skip(index + 1)));
        }
        index = index + 1;
    }
    if index < count {
        assert(shown.skip(index as int)[0] == input@[index as int]);
    }
    assert(bytes@ =~= answer_bytes(shown));
    match utf8_text(bytes.as_slice()) {
        Some(string) => Ok(string.to_owned()),
        None => Err(AppError::fixed("collision choice is not valid UTF-8")),
    }
}

} // verus!
