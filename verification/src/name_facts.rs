//! What texts, paths and file names come to, letter by letter.

use vstd::prelude::*;

use crate::output;
use crate::output::{CollisionPolicy, NamingState};
use crate::path;
use crate::text;

verus! {

/// The two letters are the same, or the same letter of the alphabet in capital and small.
pub open spec fn same_letter(left: char, right: char) -> bool {
    ||| left == right
    ||| 0x41 <= left as int <= 0x5A && right as int == left as int + 0x20
    ||| 0x41 <= right as int <= 0x5A && left as int == right as int + 0x20
}

/// Two texts agree exactly if they are equally long and agree letter by letter, whatever the case.
pub proof fn texts_agree_apart_from_case(left: Seq<char>, right: Seq<char>)
    ensures
        text::same_letters(left, right) <==> left.len() == right.len() && forall|i: int|
            0 <= i < left.len() ==> same_letter(#[trigger] left[i], right[i]),
{
    let low = text::lowercase(left);
    let other = text::lowercase(right);
    if text::same_letters(left, right) {
        assert(low.len() == left.len() && other.len() == right.len());
        assert forall|i: int| 0 <= i < left.len() implies same_letter(
            #[trigger] left[i],
            right[i],
        ) by {
            assert(low[i] == other[i]);
        }
    }
    if left.len() == right.len() && forall|i: int|
        0 <= i < left.len() ==> same_letter(#[trigger] left[i], right[i]) {
        assert forall|i: int| 0 <= i < left.len() implies low[i] == other[i] by {
            assert(same_letter(left[i], right[i]));
        }
        assert(low =~= other);
    }
}

/// Capital letters of the alphabet become small, and no other letter changes.
pub proof fn capitals_become_small(string: Seq<char>, i: int)
    requires
        0 <= i < string.len(),
    ensures
        text::lowercase(string).len() == string.len(),
        text::lowercase(string)[i] as int == if 0x41 <= string[i] as int <= 0x5A {
            string[i] as int + 0x20
        } else {
            string[i] as int
        },
{
}

/// The value of a digit.
pub open spec fn worth(letter: char) -> int {
    let code = letter as int;
    if 0x30 <= code <= 0x39 {
        code - 0x30
    } else if 0x41 <= code <= 0x46 {
        code - 0x41 + 10
    } else if 0x61 <= code <= 0x66 {
        code - 0x61 + 10
    } else {
        99
    }
}

/// Another digit makes a number of the base times what it was, and its worth. A letter that is no
/// digit of the base makes it no number.
pub proof fn digits_count_by_place(digits: Seq<char>, letter: char, base: nat)
    requires
        base == 10 || base == 16,
    ensures
        text::digits_value(Seq::empty(), base) == Some(0nat),
        text::digits_value(digits.push(letter), base) == if worth(letter) < base
            && text::digits_value(digits, base) is Some {
            Some((text::digits_value(digits, base)->0 * base + worth(letter)) as nat)
        } else {
            None
        },
{
    assert(digits.push(letter).drop_last() =~= digits);
    if text::digits_value(digits, base) is Some {
        let value = text::digits_value(digits, base)->0;
        assert(value * base >= 0) by (nonlinear_arith)
            requires
                value >= 0,
                base >= 0,
        ;
    }
}

/// A text is a number exactly if it has digits, all of the base, and their value is within the
/// limit. A plus in front changes nothing.
pub proof fn numbers_are_limited(digits: Seq<char>, base: nat, limit: nat)
    requires
        digits.len() > 0 ==> digits[0] != '+',
    ensures
        text::number(digits, base, limit) == if digits.len() > 0 && text::digits_value(
            digits,
            base,
        ) is Some && text::digits_value(digits, base)->0 <= limit {
            text::digits_value(digits, base)
        } else {
            None
        },
        text::number(seq!['+'] + digits, base, limit) == text::number(digits, base, limit),
{
    assert((seq!['+'] + digits).skip(1) =~= digits);
}

/// Written numbers have the digits 0 to 9, then A to F, each for the rest of a division.
pub proof fn digits_are_written_by_place(value: nat)
    ensures
        text::decimal(value).last() as int == 0x30 + value % 10,
        value >= 10 ==> text::decimal(value).drop_last() == text::decimal(value / 10),
        value < 10 ==> text::decimal(value).len() == 1,
        text::hex(value).last() as int == if value % 16 < 10 {
            0x30 + value % 16
        } else {
            0x37 + value % 16
        },
        value >= 16 ==> text::hex(value).drop_last() == text::hex(value / 16),
        value < 16 ==> text::hex(value).len() == 1,
{
    if value >= 10 {
        assert(text::decimal(value).drop_last() =~= text::decimal(value / 10));
    }
    if value >= 16 {
        assert(text::hex(value).drop_last() =~= text::hex(value / 16));
    }
}

/// What follows the last mark holds none, and a mark stands before it or the text starts with it.
pub proof fn last_marks_are_found(string: Seq<char>, marks: Seq<char>)
    ensures
        ({
            let place = text::after_last(string, marks);
            &&& 0 <= place <= string.len()
            &&& place > 0 ==> marks.contains(string[place - 1])
            &&& forall|i: int|
                place <= i < string.len() ==> !marks.contains(#[trigger] string[i])
        }),
    decreases string.len(),
{
    if string.len() > 0 && !marks.contains(string.last()) {
        let fewer = string.drop_last();
        last_marks_are_found(fewer, marks);
        let place = text::after_last(string, marks);
        assert forall|i: int| place <= i < string.len() implies !marks.contains(
            #[trigger] string[i],
        ) by {
            if i < fewer.len() {
                assert(fewer[i] == string[i]);
            }
        }
    }
}

proof fn lemma_last_mark(front: Seq<char>, mark: char, back: Seq<char>, marks: Seq<char>)
    requires
        marks.contains(mark),
        forall|i: int| 0 <= i < back.len() ==> !marks.contains(#[trigger] back[i]),
    ensures
        text::after_last(front.push(mark) + back, marks) == front.len() + 1,
{
    let whole = front.push(mark) + back;
    last_marks_are_found(whole, marks);
    let place = text::after_last(whole, marks);
    assert(whole[front.len() as int] == mark);
    if place > front.len() + 1 {
        assert(whole[place - 1] == back[place - 1 - front.len() - 1]);
    }
    if place <= front.len() {
        assert(!marks.contains(whole[front.len() as int]));
    }
}

proof fn lemma_no_mark(back: Seq<char>, marks: Seq<char>)
    requires
        forall|i: int| 0 <= i < back.len() ==> !marks.contains(#[trigger] back[i]),
    ensures
        text::after_last(back, marks) == 0,
{
    last_marks_are_found(back, marks);
}

/// Blanks at both ends are left out, and nothing else: what is left has none at its ends.
pub proof fn blanks_are_left_out(string: Seq<char>)
    ensures
        text::trimmed_end(string).is_prefix_of(string),
        text::trimmed_end(string).len() > 0 ==> !text::white(text::trimmed_end(string).last()),
        forall|i: int|
            text::trimmed_end(string).len() <= i < string.len() ==> text::white(
                #[trigger] string[i],
            ),
    decreases string.len(),
{
    if string.len() > 0 && text::white(string.last()) {
        let fewer = string.drop_last();
        blanks_are_left_out(fewer);
        let left = text::trimmed_end(string);
        assert(left =~= string.subrange(0, left.len() as int)) by {
            assert(left =~= fewer.subrange(0, left.len() as int));
        }
        assert forall|i: int| left.len() <= i < string.len() implies text::white(
            #[trigger] string[i],
        ) by {
            if i < fewer.len() {
                assert(fewer[i] == string[i]);
            }
        }
    } else {
        assert(string =~= string.subrange(0, string.len() as int));
    }
}

/// The same at the start of a text.
pub proof fn blanks_in_front_are_left_out(string: Seq<char>)
    ensures
        ({
            let left = text::trimmed_start(string);
            let gone = string.len() - left.len();
            &&& gone >= 0
            &&& left == string.skip(gone)
            &&& left.len() > 0 ==> !text::white(left[0])
            &&& forall|i: int| 0 <= i < gone ==> text::white(#[trigger] string[i])
        }),
    decreases string.len(),
{
    if string.len() > 0 && text::white(string[0]) {
        let fewer = string.skip(1);
        blanks_in_front_are_left_out(fewer);
        let left = text::trimmed_start(string);
        let gone = string.len() - left.len();
        assert(fewer.skip(gone - 1) =~= string.skip(gone));
        assert forall|i: int| 0 <= i < gone implies text::white(#[trigger] string[i]) by {
            if i > 0 {
                assert(fewer[i - 1] == string[i]);
            }
        }
    } else {
        assert(string.skip(0) =~= string);
    }
}

/// Of the letters below 128, the blank ones are the space and those from tab to carriage return.
pub proof fn common_blanks(letter: char)
    requires
        (letter as int) < 0x80,
    ensures
        text::white(letter) <==> letter as int == 0x20 || 0x09 <= letter as int <= 0x0D,
{
}

/// The name has a letter, is neither `.` nor `..`, and has no separator and no colon.
pub open spec fn file_part(name: Seq<char>) -> bool {
    &&& name.len() > 0
    &&& !(name.len() == 1 && name[0] == '.')
    &&& !(name.len() == 2 && name[0] == '.' && name[1] == '.')
    &&& forall|i: int|
        #![trigger name[i]]
        0 <= i < name.len() ==> name[i] != '/' && name[i] != '\\' && name[i] != ':'
}

/// What follows the last separator of a path with a drive is its file name.
pub proof fn file_names_follow_the_last_separator(
    folder: Seq<char>,
    separator: char,
    name: Seq<char>,
)
    requires
        file_part(name),
        separator == '/' || separator == '\\',
        folder.len() >= 2,
        'A' <= folder[0] <= 'Z' || 'a' <= folder[0] <= 'z',
        folder[1] == ':',
    ensures
        path::file_name_of(folder.push(separator) + name) == Some(name),
{
    let whole = folder.push(separator) + name;
    assert(whole[0] == folder[0] && whole[1] == ':');
    assert(!path::verbatim(whole)) by {
        if path::verbatim(whole) {
            assert(whole.subrange(0, 4)[1] == '\\');
            assert(whole[1] == '\\');
        }
    }
    assert(path::prefix_length(whole) == 2);
    let start = path::parts_start(whole);
    let end = whole.len() as int;
    let from = folder.len() as int + 1;
    assert(whole[folder.len() as int] == separator);
    assert forall|i: int| from <= i < end implies #[trigger] whole[i] == name[i - from] by {}
    lemma_part_back(whole, start, end, from);
    assert(path::last_part(whole, start, end, false) == from);
    assert(whole[end - 1] == name[end - 1 - from]);
    assert(end - from == 1 ==> whole[from] == name[0]);
    assert(end - from == 2 ==> whole[from] == name[0] && whole[from + 1] == name[1]);
    assert(path::name_place(whole, start, end, false) == Some((from, end)));
    assert(whole.subrange(from, end) =~= name);
}

proof fn lemma_part_back(whole: Seq<char>, start: int, end: int, from: int)
    requires
        0 <= start <= from <= end <= whole.len(),
        from > 0,
        whole[from - 1] == '/' || whole[from - 1] == '\\',
        forall|i: int|
            #![trigger whole[i]]
            from <= i < end ==> whole[i] != '/' && whole[i] != '\\',
    ensures
        path::last_part(whole, start, end, false) == from,
    decreases end - from,
{
    if end > from {
        assert(!path::separates(whole[end - 1], false));
        lemma_part_back(whole, start, end - 1, from);
    }
}

/// The stem of a file name ends at its last dot, and its extension follows there. Without a dot,
/// and with one at the start alone, all of it is the stem.
pub proof fn stems_end_at_the_last_dot(stem: Seq<char>, extension: Seq<char>)
    requires
        file_part(stem.push('.') + extension),
        stem.len() > 0,
        forall|i: int| 0 <= i < extension.len() ==> #[trigger] extension[i] != '.',
    ensures
        path::file_stem_of(stem.push('.') + extension) == Some(stem),
        path::extension_of(stem.push('.') + extension) == Some(extension),
{
    let name = stem.push('.') + extension;
    lemma_plain_name(name);
    assert forall|i: int| 0 <= i < extension.len() implies !seq!['.'].contains(
        #[trigger] extension[i],
    ) by {
        assert(seq!['.'].len() == 1);
    }
    assert(seq!['.'][0] == '.');
    lemma_last_mark(stem, '.', extension, seq!['.']);
    assert(name.take(stem.len() as int) =~= stem);
    assert(name.skip(stem.len() as int + 1) =~= extension);
}

pub(crate) proof fn lemma_plain_name(name: Seq<char>)
    requires
        file_part(name),
    ensures
        path::file_name_of(name) == Some(name),
        path::file_name_place(name) == Some((0int, name.len() as int)),
{
    assert(!path::verbatim(name)) by {
        if path::verbatim(name) {
            assert(name.subrange(0, 4)[0] == '\\');
            assert(name[0] == '\\');
        }
    }
    assert(path::plain(name));
    path::lemma_whole_is_last_part(name, name.len() as int);
    assert(path::prefix_length(name) == 0);
    assert(!path::separates(name[name.len() - 1], false));
    assert(name.subrange(0, name.len() as int) =~= name);
}

/// A file name without a dot is its own stem.
pub proof fn dotless_names_are_stems(name: Seq<char>)
    requires
        file_part(name),
        forall|i: int| 0 <= i < name.len() ==> #[trigger] name[i] != '.',
    ensures
        path::file_stem_of(name) == Some(name),
        path::extension_of(name) is None,
{
    lemma_plain_name(name);
    assert forall|i: int| 0 <= i < name.len() implies !seq!['.'].contains(#[trigger] name[i]) by {
        assert(seq!['.'].len() == 1);
    }
    lemma_no_mark(name, seq!['.']);
    assert(name.take(name.len() as int) =~= name);
}

/// A number goes between the stem and the extension.
pub proof fn numbers_go_before_the_extension(stem: Seq<char>, extension: Seq<char>, suffix: u32)
    requires
        file_part(stem.push('.') + extension),
        stem.len() > 0,
        forall|i: int| 0 <= i < extension.len() ==> #[trigger] extension[i] != '.',
    ensures
        output::numbered(stem.push('.') + extension, suffix) == stem.push('_') + text::decimal(
            suffix as nat,
        ).push('.') + extension,
{
    stems_end_at_the_last_dot(stem, extension);
    reveal_strlit("_");
    reveal_strlit(".");
    assert(output::numbered(stem.push('.') + extension, suffix) =~= stem.push('_') + text::decimal(
        suffix as nat,
    ).push('.') + extension);
}

/// The letter cannot stand in a file name of Windows.
pub open spec fn refused_letter(letter: char) -> bool {
    let code = letter as int;
    ||| code < 0x20
    ||| 0x7F <= code <= 0x9F
    ||| code == 0x22
    ||| code == 0x2A
    ||| code == 0x2F
    ||| code == 0x3A
    ||| code == 0x3C
    ||| code == 0x3E
    ||| code == 0x3F
    ||| code == 0x5C
    ||| code == 0x7C
}

/// The name of a device of Windows, in any case: a console, a printer, an auxiliary port, nothing,
/// or one of nine ports of two kinds.
pub open spec fn device_name(name: Seq<char>) -> bool {
    ||| name.len() == 3 && spelled(name, 'c', 'o', 'n')
    ||| name.len() == 3 && spelled(name, 'p', 'r', 'n')
    ||| name.len() == 3 && spelled(name, 'a', 'u', 'x')
    ||| name.len() == 3 && spelled(name, 'n', 'u', 'l')
    ||| name.len() == 4 && spelled(name, 'c', 'o', 'm') && 0x31 <= name[3] as int <= 0x39
    ||| name.len() == 4 && spelled(name, 'l', 'p', 't') && 0x31 <= name[3] as int <= 0x39
}

/// The first three letters, in any case.
pub open spec fn spelled(name: Seq<char>, first: char, second: char, third: char) -> bool {
    same_letter(name[0], first) && same_letter(name[1], second) && same_letter(name[2], third)
}

proof fn lemma_reserved(name: Seq<char>, stem: Seq<char>)
    requires
        output::stem_or_name(name) == stem,
    ensures
        device_name(stem) ==> output::reserved(name),
        output::reserved(name) && stem.len() <= 4 ==> device_name(stem),
{
    reveal_strlit("con");
    reveal_strlit("prn");
    reveal_strlit("aux");
    reveal_strlit("nul");
    reveal_strlit("com");
    reveal_strlit("lpt");
    let low = text::lowercase(stem);
    if stem.len() == 3 {
        assert(low.len() == 3);
        if spelled(stem, 'c', 'o', 'n') {
            assert(low =~= "con"@);
        }
        if spelled(stem, 'p', 'r', 'n') {
            assert(low =~= "prn"@);
        }
        if spelled(stem, 'a', 'u', 'x') {
            assert(low =~= "aux"@);
        }
        if spelled(stem, 'n', 'u', 'l') {
            assert(low =~= "nul"@);
        }
    }
    if stem.len() == 4 {
        let digits = low.skip(3);
        let digit = stem[3];
        assert(digits =~= seq![low[3]]);
        digits_count_by_place(Seq::empty(), low[3], 10);
        assert(Seq::<char>::empty().push(low[3]) =~= digits);
        if low[3] != '+' {
            numbers_are_limited(digits, 10, u8::MAX as nat);
        } else {
            assert(digits.skip(1).len() == 0);
        }
        assert(output::port_digits(digits) <==> 0x31 <= digit as int <= 0x39);
        if spelled(stem, 'c', 'o', 'm') {
            assert("com"@ =~= low.subrange(0, 3));
        }
        if spelled(stem, 'l', 'p', 't') {
            assert("lpt"@ =~= low.subrange(0, 3));
        }
        if "com"@.is_prefix_of(low) {
            assert(low.subrange(0, 3)[0] == 'c' && low.subrange(0, 3)[1] == 'o' && low.subrange(
                0,
                3,
            )[2] == 'm');
        }
        if "lpt"@.is_prefix_of(low) {
            assert(low.subrange(0, 3)[0] == 'l' && low.subrange(0, 3)[1] == 'p' && low.subrange(
                0,
                3,
            )[2] == 't');
        }
    }
    if output::reserved(name) && stem.len() <= 4 {
        assert(low.len() == stem.len());
        if stem.len() == 3 {
            if "com"@.is_prefix_of(low) || "lpt"@.is_prefix_of(low) {
                assert(low.skip(3).len() == 0);
                assert(!output::port_digits(low.skip(3)));
            }
            assert(same_letter(stem[0], low[0]) && same_letter(stem[1], low[1]) && same_letter(
                stem[2],
                low[2],
            ));
        }
    }
}

/// Names of devices are taken, alone and with an extension; other stems of up to four letters are
/// not.
pub proof fn device_names_are_taken(stem: Seq<char>, extension: Seq<char>)
    requires
        file_part(stem.push('.') + extension),
        file_part(stem),
        forall|i: int| 0 <= i < stem.len() ==> #[trigger] stem[i] != '.',
        forall|i: int| 0 <= i < extension.len() ==> #[trigger] extension[i] != '.',
    ensures
        device_name(stem) ==> output::reserved(stem) && output::reserved(
            stem.push('.') + extension,
        ),
        stem.len() <= 4 && !device_name(stem) ==> !output::reserved(stem) && !output::reserved(
            stem.push('.') + extension,
        ),
{
    stems_end_at_the_last_dot(stem, extension);
    dotless_names_are_stems(stem);
    lemma_reserved(stem, stem);
    lemma_reserved(stem.push('.') + extension, stem);
}

/// The name as it is shown on disk: every letter that cannot stand there becomes an underscore.
pub open spec fn replaced(name: Seq<char>) -> Seq<char> {
    Seq::new(
        name.len(),
        |i: int|
            if refused_letter(name[i]) {
                '_'
            } else {
                name[i]
            },
    )
}

/// A file name of up to 180 letters that ends with neither a dot nor a space keeps its letters,
/// except those that cannot stand there. Only the name of a device gets an underscore in front.
pub proof fn names_keep_their_letters(name: Seq<char>)
    requires
        file_part(name),
        name.len() <= 180,
        name.last() != ' ',
        name.last() != '.',
    ensures
        output::cleaned(name) == Ok::<Seq<char>, Seq<char>>(
            if output::reserved(replaced(name)) {
                seq!['_'] + replaced(name)
            } else {
                replaced(name)
            },
        ),
{
    lemma_plain_name(name);
    let shown = name.map_values(|letter: char| output::allowed(letter));
    assert(shown =~= replaced(name)) by {
        assert forall|i: int| 0 <= i < name.len() implies #[trigger] shown[i] == replaced(
            name,
        )[i] by {}
    }
    assert(output::without_tail(shown) == shown);
}

/// Dots and spaces at the end of a name are left out.
pub proof fn dots_and_spaces_at_the_end_go(name: Seq<char>, tail: char)
    requires
        tail == '.' || tail == ' ',
    ensures
        output::without_tail(name.push(tail)) == output::without_tail(name),
        name.len() > 0 && name.last() != '.' && name.last() != ' ' ==> output::without_tail(name)
            == name,
{
    assert(name.push(tail).drop_last() =~= name);
}

/// A longer name is cut to its first 180 letters.
pub proof fn long_names_are_cut(name: Seq<char>)
    requires
        name.len() > 180,
    ensures
        output::safe_letters(name) == output::safe_letters(name.take(180)),
{
    assert(name.take(180).len() == 180);
}

/// An answer chooses by its word or first letter, in any case: to rename, to overwrite, or to
/// cancel. No answer is to rename, and any other answer is refused.
pub proof fn answers_choose_a_policy(answer: Seq<char>)
    requires
        answer.len() > 0 ==> !text::white(answer[0]) && !text::white(answer.last()),
    ensures
        ({
            let choice = output::chosen_policy(answer);
            &&& choice == Ok::<Option<CollisionPolicy>, Seq<char>>(Some(CollisionPolicy::Rename))
                <==> (answer.len() == 0 || text::same_letters(answer, seq!['r'])
                || text::same_letters(answer, seq!['r', 'e', 'n', 'a', 'm', 'e']))
            &&& choice == Ok::<Option<CollisionPolicy>, Seq<char>>(
                Some(CollisionPolicy::Overwrite),
            ) <==> (text::same_letters(answer, seq!['o']) || text::same_letters(
                answer,
                seq!['o', 'v', 'e', 'r', 'w', 'r', 'i', 't', 'e'],
            ))
            &&& choice == Ok::<Option<CollisionPolicy>, Seq<char>>(None) <==> (text::same_letters(
                answer,
                seq!['c'],
            ) || text::same_letters(answer, seq!['c', 'a', 'n', 'c', 'e', 'l']))
        }),
{
    reveal_strlit("");
    reveal_strlit("r");
    reveal_strlit("rename");
    reveal_strlit("o");
    reveal_strlit("overwrite");
    reveal_strlit("c");
    reveal_strlit("cancel");
    let choice = text::lowercase(answer);
    assert(text::trimmed_end(text::trimmed_start(answer)) == answer);
    assert(answer.len() == 0 <==> choice =~= ""@);
    assert("r"@ =~= text::lowercase(seq!['r']));
    assert("rename"@ =~= text::lowercase(seq!['r', 'e', 'n', 'a', 'm', 'e']));
    assert("o"@ =~= text::lowercase(seq!['o']));
    assert("overwrite"@ =~= text::lowercase(
        seq!['o', 'v', 'e', 'r', 'w', 'r', 'i', 't', 'e'],
    ));
    assert("c"@ =~= text::lowercase(seq!['c']));
    assert("cancel"@ =~= text::lowercase(seq!['c', 'a', 'n', 'c', 'e', 'l']));
    assert("r"@.len() == 1 && "rename"@.len() == 6 && "o"@.len() == 1 && "overwrite"@.len() == 9
        && "c"@.len() == 1 && "cancel"@.len() == 6);
    assert("r"@[0] == 'r' && "o"@[0] == 'o' && "c"@[0] == 'c' && "rename"@[0] == 'r'
        && "cancel"@[0] == 'c');
}

/// An answer ends with its line, without the carriage return, and no more than 16 bytes of it are
/// read.
pub proof fn answers_end_with_the_line(answer: Seq<u8>, rest: Seq<u8>)
    requires
        forall|i: int|
            #![trigger answer[i]]
            0 <= i < answer.len() ==> answer[i] != 0x0A && answer[i] != 0x0D,
    ensures
        output::answer_bytes(answer) == answer,
        output::answer_bytes(answer + seq![0x0Au8] + rest) == answer,
        output::answer_bytes(answer + seq![0x0Du8, 0x0A] + rest) == answer,
        answer.len() > 16 ==> output::prompt_bytes(answer) == answer.take(16),
        answer.len() <= 16 ==> output::prompt_bytes(answer) == answer,
{
    lemma_answer(answer, Seq::empty());
    lemma_answer(answer, seq![0x0Au8] + rest);
    lemma_answer(answer, seq![0x0Du8, 0x0A] + rest);
    assert(answer + Seq::empty() =~= answer);
    assert(output::answer_bytes(Seq::empty()) =~= Seq::empty());
    assert(answer + (seq![0x0Au8] + rest) =~= answer + seq![0x0Au8] + rest);
    assert(answer + (seq![0x0Du8, 0x0A] + rest) =~= answer + seq![0x0Du8, 0x0A] + rest);
    assert((seq![0x0Du8, 0x0A] + rest).skip(1) =~= seq![0x0Au8] + rest);
    assert((seq![0x0Au8] + rest)[0] == 0x0A);
    assert(output::answer_bytes(seq![0x0Au8] + rest) =~= Seq::empty());
    assert((seq![0x0Du8, 0x0A] + rest)[0] == 0x0D);
    if answer.len() > 16 {
        let cut = answer.take(16);
        assert forall|i: int|
            #![trigger cut[i]]
            0 <= i < cut.len() implies cut[i] != 0x0A && cut[i] != 0x0D by {
            assert(cut[i] == answer[i]);
        }
        lemma_answer(cut, Seq::empty());
        assert(cut + Seq::empty() =~= cut);
    }
}

proof fn lemma_answer(answer: Seq<u8>, rest: Seq<u8>)
    requires
        forall|i: int|
            #![trigger answer[i]]
            0 <= i < answer.len() ==> answer[i] != 0x0A && answer[i] != 0x0D,
    ensures
        output::answer_bytes(answer + rest) == answer + output::answer_bytes(rest),
    decreases answer.len(),
{
    if answer.len() == 0 {
        assert(answer + rest =~= rest);
        assert(answer + output::answer_bytes(rest) =~= output::answer_bytes(rest));
    } else {
        let fewer = answer.skip(1);
        assert forall|i: int|
            #![trigger fewer[i]]
            0 <= i < fewer.len() implies fewer[i] != 0x0A && fewer[i] != 0x0D by {
            assert(fewer[i] == answer[i + 1]);
        }
        lemma_answer(fewer, rest);
        assert((answer + rest).skip(1) =~= fewer + rest);
        assert((answer + rest)[0] == answer[0]);
        assert(seq![answer[0]] + (fewer + output::answer_bytes(rest)) =~= answer
            + output::answer_bytes(rest));
    }
}

/// The name that is tried first is the cleaned one, and the attempt with a number tries the name
/// with that number. A name is taken exactly if no file of the dump has it in letters of any case
/// and, where files are renamed, none of the disk has it. Otherwise the next number is tried, up to
/// 100000.
pub proof fn free_names_are_taken(state: NamingState, exists_on_disk: bool)
    requires
        output::naming_is_sound(state),
        state.names.len() < state.preferred.len(),
    ensures
        ({
            let wanted = output::cleaned(state.preferred[state.names.len() as int])->Ok_0;
            let name = if state.attempt == 1 {
                wanted
            } else {
                output::numbered(wanted, state.attempt)
            };
            let free = !(state.policy == CollisionPolicy::Rename && exists_on_disk) && forall|
                i: int,
            |
                0 <= i < state.names.len() ==> !text::same_letters(#[trigger] state.names[i], name);
            let after = output::naming_answered(state, exists_on_disk);
            &&& free && after is Ok ==> after->Ok_0.names == state.names.push(name)
                && after->Ok_0.attempt == 1
            &&& free && state.names.len() + 1 == state.preferred.len() ==> after is Ok
            &&& !free && state.attempt < 100000 ==> after is Ok && after->Ok_0.names == state.names
                && after->Ok_0.attempt == state.attempt + 1
            &&& !free && state.attempt >= 100000 ==> after is Err
            &&& after is Ok ==> after->Ok_0.policy == state.policy && after->Ok_0.preferred
                == state.preferred
        }),
{
    let name = output::name_in_question(state);
    if output::name_is_used(state.names, name) {
        let i = choose|i: int|
            0 <= i < state.names.len() && #[trigger] text::lowercase(state.names[i])
                == text::lowercase(name);
        assert(text::same_letters(state.names[i], name));
    } else {
        assert forall|i: int| 0 <= i < state.names.len() implies !text::same_letters(
            #[trigger] state.names[i],
            name,
        ) by {
            assert(text::lowercase(state.names[i]) != text::lowercase(name));
        }
    }
}

/// Another attempt makes another temporary name, and there are 1024 of them; any failure but an
/// occupied name is one at once.
pub proof fn temporary_names_differ(
    process: u32,
    index: usize,
    first: usize,
    second: usize,
    detail: Seq<char>,
)
    requires
        first != second,
    ensures
        output::temporary_text(process, index, first) != output::temporary_text(
            process,
            index,
            second,
        ),
        output::temporary_failure(first, true, detail) is Some <==> first >= 1023,
        output::temporary_failure(first, false, detail) is Some,
{
    reveal_strlit(".mempe-");
    reveal_strlit("-");
    reveal_strlit(".tmp");
    let one = output::temporary_text(process, index, first);
    let other = output::temporary_text(process, index, second);
    let front = ".mempe-"@ + text::decimal(process as nat) + "-"@ + text::decimal(index as nat)
        + "-"@;
    let left = text::decimal(first as nat);
    let right = text::decimal(second as nat);
    if one == other {
        assert(one == front + left + ".tmp"@);
        assert(other == front + right + ".tmp"@);
        assert(one.len() == front.len() + left.len() + 4);
        assert(other.len() == front.len() + right.len() + 4);
        assert(left =~= one.subrange(front.len() as int, one.len() - 4));
        assert(right =~= other.subrange(front.len() as int, other.len() - 4));
        text::decimal_reads_back(first as nat, usize::MAX as nat);
        text::decimal_reads_back(second as nat, usize::MAX as nat);
    }
}

} // verus!
