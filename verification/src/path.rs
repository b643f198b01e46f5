//! Windows paths as text: the file name of a path, its stem and its extension.

use vstd::prelude::*;

use crate::text::{chars_of, text_of};
use crate::text;

verus! {

/// The character separates the parts of a path. Where the path is verbatim, only the backslash
/// does.
pub open spec fn separates(letter: char, verbatim: bool) -> bool {
    letter == '\\' || (letter == '/' && !verbatim)
}

/// The end of the part that starts at `from`: the next separator, or the end of the path.
pub open spec fn part_end(path: Seq<char>, from: int, verbatim: bool) -> int
    decreases path.len() - from,
{
    if from >= path.len() || separates(path[from], verbatim) {
        from
    } else {
        part_end(path, from + 1, verbatim)
    }
}

/// The end of the two parts that start at `from`, of which the second may be missing.
pub open spec fn two_parts_end(path: Seq<char>, from: int, verbatim: bool) -> int {
    let first = part_end(path, from, verbatim);
    let second = part_end(path, first + 1, verbatim);
    if first < path.len() && second > first + 1 {
        second
    } else {
        first
    }
}

/// The path starts with these characters.
pub open spec fn starts(path: Seq<char>, from: int, expected: Seq<char>) -> bool {
    from + expected.len() <= path.len() && path.subrange(from, from + expected.len()) == expected
}

/// The path starts with `\\?\`: what follows is taken as it stands.
pub open spec fn verbatim(path: Seq<char>) -> bool {
    starts(path, 0, seq!['\\', '\\', '?', '\\'])
}

/// A letter and a colon stand at `at`.
pub open spec fn drive_at(path: Seq<char>, at: int) -> bool {
    at + 2 <= path.len() && path[at + 1] == ':' && ('A' <= path[at] <= 'Z' || 'a' <= path[at]
        <= 'z')
}

/// Two separators stand at the start.
pub open spec fn double_separator(path: Seq<char>) -> bool {
    path.len() >= 2 && separates(path[0], false) && separates(path[1], false)
}

/// The path starts with `\\.\`: it names a device.
pub open spec fn device(path: Seq<char>) -> bool {
    double_separator(path) && path.len() >= 4 && path[2] == '.' && separates(path[3], false)
}

/// The length of what comes before the parts of the path: a drive, a server with its share, a
/// device, or the verbatim form of one of those.
pub open spec fn prefix_length(path: Seq<char>) -> int {
    if verbatim(path) {
        if starts(path, 4, seq!['U', 'N', 'C']) && path.len() > 7 && separates(path[7], false) {
            two_parts_end(path, 8, true)
        } else if drive_at(path, 4) && (path.len() == 6 || separates(path[6], false)) {
            6
        } else {
            part_end(path, 4, true)
        }
    } else if device(path) {
        part_end(path, 4, false)
    } else if double_separator(path) {
        let server = part_end(path, 2, false);
        let share = part_end(path, server + 1, false);
        if server > 2 && server < path.len() && share > server + 1 {
            share
        } else {
            0
        }
    } else if drive_at(path, 0) {
        2
    } else {
        0
    }
}

/// Where the parts of the path start: behind the prefix, and behind the separator that makes the
/// path start at the root. That one may be a slash in a verbatim path too.
pub open spec fn parts_start(path: Seq<char>) -> int {
    let prefix = prefix_length(path);
    if prefix < path.len() && separates(path[prefix], false) {
        prefix + 1
    } else {
        prefix
    }
}

/// Where the last part of a path that ends at `end` starts.
pub open spec fn last_part(path: Seq<char>, start: int, end: int, verbatim: bool) -> int
    decreases end - start,
{
    if end <= start || separates(path[end - 1], verbatim) {
        end
    } else {
        last_part(path, start, end - 1, verbatim)
    }
}

/// The place of the file name in a path whose parts stand from `start` up to `end`: the last
/// part, without separators and single dots behind it. A path that ends in two dots has none.
pub open spec fn name_place(path: Seq<char>, start: int, end: int, verbatim: bool) -> Option<
    (int, int),
>
    decreases end - start,
{
    let from = last_part(path, start, end, verbatim);
    if end <= start {
        None
    } else if separates(path[end - 1], verbatim) {
        name_place(path, start, end - 1, verbatim)
    } else if end - from == 1 && path[from] == '.' {
        if verbatim || from < start || from >= end {
            None
        } else {
            name_place(path, start, from, verbatim)
        }
    } else if end - from == 2 && path[from] == '.' && path[from + 1] == '.' {
        None
    } else {
        Some((from, end))
    }
}

/// The place of the file name in a path.
pub open spec fn file_name_place(path: Seq<char>) -> Option<(int, int)> {
    name_place(path, parts_start(path), path.len() as int, verbatim(path))
}

/// The file name of a path.
pub open spec fn file_name_of(path: Seq<char>) -> Option<Seq<char>> {
    match file_name_place(path) {
        Some((from, to)) => Some(path.subrange(from, to)),
        None => None,
    }
}

/// The length of a file name without its extension: up to the last dot, unless that is its first
/// character.
pub open spec fn stem_length(name: Seq<char>) -> int {
    let dot = text::after_last(name, seq!['.']) - 1;
    if dot <= 0 {
        name.len() as int
    } else {
        dot
    }
}

/// The stem of a path's file name.
pub open spec fn file_stem_of(path: Seq<char>) -> Option<Seq<char>> {
    match file_name_of(path) {
        Some(name) => Some(name.take(stem_length(name))),
        None => None,
    }
}

/// The extension of a path's file name: what follows the dot behind its stem.
pub open spec fn extension_of(path: Seq<char>) -> Option<Seq<char>> {
    match file_name_of(path) {
        Some(name) => if stem_length(name) < name.len() {
            Some(name.skip(stem_length(name) + 1))
        } else {
            None
        },
        None => None,
    }
}

/// The path with another extension, or with none if `extension` is empty. A path without a file
/// name stays as it is.
pub open spec fn with_extension_of(path: Seq<char>, extension: Seq<char>) -> Seq<char> {
    match file_name_place(path) {
        Some((from, to)) => {
            let stem = path.take(from + stem_length(path.subrange(from, to)));
            if extension.len() == 0 {
                stem
            } else {
                stem.push('.') + extension
            }
        },
        None => path,
    }
}

/// The name holds no separator and no colon.
pub open spec fn plain(name: Seq<char>) -> bool {
    forall|index: int|
        #![trigger name[index]]
        0 <= index < name.len() ==> name[index] != '\\' && name[index] != '/' && name[index] != ':'
}

pub(crate) proof fn lemma_whole_is_last_part(name: Seq<char>, end: int)
    requires
        plain(name),
        0 <= end <= name.len(),
    ensures
        last_part(name, 0, end, false) == 0,
    decreases end,
{
    if end > 0 {
        lemma_whole_is_last_part(name, end - 1);
    }
}

/// A name without separators and colons that does not end in a dot is a path whose file name it
/// is.
pub proof fn plain_name_is_file_name(name: Seq<char>)
    requires
        plain(name),
        name.len() > 0,
        name.last() != '.',
    ensures
        file_name_of(name) == Some(name),
{
    if verbatim(name) {
        assert(name.subrange(0, 4)[0] == '\\');
        assert(name[0] == '\\');
    }
    assert(prefix_length(name) == 0);
    lemma_whole_is_last_part(name, name.len() as int);
    assert(name[name.len() - 1] == name.last());
    assert(!separates(name[name.len() - 1], false));
    assert(name.subrange(0, name.len() as int) =~= name);
}

fn is_separator(letter: char, verbatim: bool) -> (yes: bool)
    ensures
        yes == separates(letter, verbatim),
{
    letter == '\\' || (letter == '/' && !verbatim)
}

fn find_part_end(path: &Vec<char>, from: usize, verbatim: bool) -> (end: usize)
    requires
        from <= path@.len(),
    ensures
        end == part_end(path@, from as int, verbatim),
        from <= end <= path@.len(),
{
    let mut end: usize = from;
    while end < path.len() && !is_separator(path[end], verbatim)
        invariant
            from <= end <= path@.len(),
            part_end(path@, from as int, verbatim) == part_end(path@, end as int, verbatim),
        decreases path@.len() - end,
    {
        end = end + 1;
    }
    end
}

fn starts_with(path: &Vec<char>, from: usize, expected: &Vec<char>) -> (yes: bool)
    requires
        from <= path@.len(),
    ensures
        yes == starts(path@, from as int, expected@),
{
    if expected.len() > path.len() - from {
        return false;
    }
    let mut index: usize = 0;
    while index < expected.len()
        invariant
            index <= expected@.len(),
            from + expected@.len() <= path@.len(),
            path.len() == path@.len(),
            forall|i: int| 0 <= i < index ==> path@[from + i] == expected@[i],
        decreases expected@.len() - index,
    {
        if path[from + index] != expected[index] {
            assert(path@.subrange(from as int, from + expected@.len())[index as int] != expected@[index as int]);
            return false;
        }
        index = index + 1;
    }
    assert(path@.subrange(from as int, from + expected@.len()) =~= expected@);
    true
}

fn is_verbatim(path: &Vec<char>) -> (yes: bool)
    ensures
        yes == verbatim(path@),
{
    let expected: Vec<char> = vec!['\\', '\\', '?', '\\'];
    assert(expected@ =~= seq!['\\', '\\', '?', '\\']);
    starts_with(path, 0, &expected)
}

fn is_drive(path: &Vec<char>, at: usize) -> (yes: bool)
    requires
        at <= path@.len(),
    ensures
        yes == drive_at(path@, at as int),
{
    path.len() - at >= 2 && path[at + 1] == ':' && (('A' <= path[at] && path[at] <= 'Z') || ('a'
        <= path[at] && path[at] <= 'z'))
}

fn verbatim_prefix(path: &Vec<char>) -> (length: usize)
    requires
        verbatim(path@),
    ensures
        length == prefix_length(path@),
        length <= path@.len(),
{
    let unc: Vec<char> = vec!['U', 'N', 'C'];
    assert(unc@ =~= seq!['U', 'N', 'C']);
    if starts_with(path, 4, &unc) && path.len() > 7 && is_separator(path[7], false) {
        let first: usize = find_part_end(path, 8, true);
        if first < path.len() {
            let second: usize = find_part_end(path, first + 1, true);
            if second > first + 1 {
                return second;
            }
        }
        return first;
    }
    if is_drive(path, 4) && (path.len() == 6 || is_separator(path[6], false)) {
        return 6;
    }
    find_part_end(path, 4, true)
}

fn find_prefix(path: &Vec<char>) -> (length: usize)
    ensures
        length == prefix_length(path@),
        length <= path@.len(),
{
    if is_verbatim(path) {
        return verbatim_prefix(path);
    }
    if path.len() >= 2 && is_separator(path[0], false) && is_separator(path[1], false) {
        if path.len() >= 4 && path[2] == '.' && is_separator(path[3], false) {
            return find_part_end(path, 4, false);
        }
        let server: usize = find_part_end(path, 2, false);
        if server > 2 && server < path.len() {
            let share: usize = find_part_end(path, server + 1, false);
            if share > server + 1 {
                return share;
            }
        }
        return 0;
    }
    if is_drive(path, 0) {
        2
    } else {
        0
    }
}

fn find_start(path: &Vec<char>) -> (start: usize)
    ensures
        start == parts_start(path@),
        start <= path@.len(),
{
    let prefix: usize = find_prefix(path);
    if prefix < path.len() && is_separator(path[prefix], false) {
        prefix + 1
    } else {
        prefix
    }
}

fn find_last_part(path: &Vec<char>, start: usize, end: usize, verbatim: bool) -> (from: usize)
    requires
        start <= end <= path@.len(),
    ensures
        from == last_part(path@, start as int, end as int, verbatim),
        start <= from <= end,
{
    let mut from: usize = end;
    while from > start && !is_separator(path[from - 1], verbatim)
        invariant
            start <= from <= end <= path@.len(),
            last_part(path@, start as int, end as int, verbatim) == last_part(
                path@,
                start as int,
                from as int,
                verbatim,
            ),
        decreases from,
    {
        from = from - 1;
    }
    from
}

/// A file name lies in its path and is not empty.
pub proof fn lemma_name_place(path: Seq<char>, start: int, end: int, verbatim: bool)
    requires
        0 <= start,
        end <= path.len(),
    ensures
        match name_place(path, start, end, verbatim) {
            Some((from, to)) => start <= from < to <= end,
            None => true,
        },
    decreases end - start,
{
    if start < end {
        lemma_last_part(path, start, end, verbatim);
        let from = last_part(path, start, end, verbatim);
        if separates(path[end - 1], verbatim) {
            lemma_name_place(path, start, end - 1, verbatim);
        } else if end - from == 1 && path[from] == '.' {
            lemma_name_place(path, start, from, verbatim);
        }
    }
}

proof fn lemma_last_part(path: Seq<char>, start: int, end: int, verbatim: bool)
    requires
        0 <= start <= end <= path.len(),
    ensures
        start <= last_part(path, start, end, verbatim) <= end,
        start < end && !separates(path[end - 1], verbatim) ==> last_part(
            path,
            start,
            end,
            verbatim,
        ) < end,
    decreases end - start,
{
    if start < end && !separates(path[end - 1], verbatim) {
        lemma_last_part(path, start, end - 1, verbatim);
    }
}

/// Finds the file name in a path.
fn find_file_name(path: &Vec<char>) -> (place: Option<(usize, usize)>)
    ensures
        match (file_name_place(path@), place) {
            (Some((from, to)), Some((found_from, found_to))) => from == found_from && to == found_to
                && from < to <= path@.len(),
            (None, None) => true,
            _ => false,
        },
{
    let verbatim: bool = is_verbatim(path);
    let start: usize = find_start(path);
    let mut end: usize = path.len();
    while end > start
        invariant
            start <= end <= path@.len(),
            start == parts_start(path@),
            verbatim == self::verbatim(path@),
            file_name_place(path@) == name_place(path@, start as int, end as int, verbatim),
        decreases end - start,
    {
        let from: usize = find_last_part(path, start, end, verbatim);
        proof {
            lemma_last_part(path@, start as int, end as int, verbatim);
        }
        if is_separator(path[end - 1], verbatim) {
            end = end - 1;
        } else if end - from == 1 && path[from] == '.' {
            if verbatim {
                return None;
            }
            end = from;
        } else if end - from == 2 && path[from] == '.' && path[from + 1] == '.' {
            return None;
        } else {
            return Some((from, end));
        }
    }
    None
}

/// The file name of a path.
pub fn file_name(path: &str) -> (name: Option<String>)
    ensures
        text::seen(name) == file_name_of(path@),
{
    let letters: Vec<char> = chars_of(path);
    match find_file_name(&letters) {
        Some((from, to)) => Some(text_of(&letters, from, to)),
        None => None,
    }
}

/// Where the stem of the file name that stands from `from` up to `to` ends.
fn find_stem_end(letters: &Vec<char>, from: usize, to: usize) -> (end: usize)
    requires
        from < to <= letters@.len(),
    ensures
        end == from + stem_length(letters@.subrange(from as int, to as int)),
        from <= end <= to,
{
    let ghost name = letters@.subrange(from as int, to as int);
    let mut dot: usize = to;
    assert(name.take(to - from) =~= name);
    while dot > from && letters[dot - 1] != '.'
        invariant
            from <= dot <= to <= letters@.len(),
            name == letters@.subrange(from as int, to as int),
            text::after_last(name, seq!['.']) == text::after_last(
                name.take(dot - from),
                seq!['.'],
            ),
        decreases dot,
    {
        assert(name.take(dot - from).last() == letters@[dot - 1]);
        assert(name.take(dot - from).drop_last() =~= name.take(dot - from - 1));
        assert(!seq!['.'].contains(letters@[dot - 1])) by {
            assert forall|i: int| 0 <= i < 1 implies seq!['.'][i] != letters@[dot - 1] by {}
        }
        dot = dot - 1;
    }
    if dot > from {
        assert(name.take(dot - from).last() == '.');
        assert(seq!['.'][0] == '.');
        assert(seq!['.'].contains('.'));
    }
    if dot <= from + 1 {
        to
    } else {
        dot - 1
    }
}

/// The stem of a path's file name.
pub fn file_stem(path: &str) -> (stem: Option<String>)
    ensures
        text::seen(stem) == file_stem_of(path@),
{
    let letters: Vec<char> = chars_of(path);
    match find_file_name(&letters) {
        Some((from, to)) => {
            let end: usize = find_stem_end(&letters, from, to);
            assert(letters@.subrange(from as int, end as int) =~= letters@.subrange(
                from as int,
                to as int,
            ).take(end - from));
            Some(text_of(&letters, from, end))
        },
        None => None,
    }
}

/// The extension of a path's file name.
pub fn extension(path: &str) -> (extension: Option<String>)
    ensures
        text::seen(extension) == extension_of(path@),
{
    let letters: Vec<char> = chars_of(path);
    match find_file_name(&letters) {
        Some((from, to)) => {
            let end: usize = find_stem_end(&letters, from, to);
            if end < to {
                assert(letters@.subrange(end + 1, to as int) =~= letters@.subrange(
                    from as int,
                    to as int,
                ).skip(end + 1 - from));
                Some(text_of(&letters, end + 1, to))
            } else {
                None
            }
        },
        None => None,
    }
}

/// The path with another extension.
pub fn replace_extension(path: &str, extension: &str) -> (result: String)
    ensures
        result@ == with_extension_of(path@, extension@),
{
    let letters: Vec<char> = chars_of(path);
    match find_file_name(&letters) {
        Some((from, to)) => {
            let end: usize = find_stem_end(&letters, from, to);
            let mut result: String = text_of(&letters, 0, end);
            assert(letters@.subrange(0, end as int) =~= path@.take(end as int));
            if extension.is_empty() {
                return result;
            }
            result.push('.');
            result.append(extension);
            result
        },
        None => path.to_owned(),
    }
}

} // verus!
