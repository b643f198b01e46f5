//! Text: numbers as digits, ASCII case, and the search and split operations on characters.

use vstd::prelude::*;

verus! {

/// `String::push` of std puts one character at the end of the text.
pub assume_specification[ String::push ](string: &mut String, letter: char)
    ensures
        final(string)@ == old(string)@.push(letter),
;

/// `str::from_utf8` of std: the text that the bytes encode, if they are valid UTF-8.
#[verifier::external_body]
pub(crate) fn utf8_text(bytes: &[u8]) -> (text: Option<&str>)
    ensures
        text is Some <==> vstd::utf8::valid_utf8(bytes@),
        text is Some ==> text->0@ == vstd::utf8::decode_utf8(bytes@),
{
    std::str::from_utf8(bytes).ok()
}

/// The digit for `value`, in upper case above nine.
pub open spec fn digit(value: int) -> char {
    if value < 10 {
        (48 + value) as u8 as char
    } else {
        (55 + value) as u8 as char
    }
}

/// `value` in decimal.
pub open spec fn decimal(value: nat) -> Seq<char>
    decreases value,
{
    if value < 10 {
        seq![digit(value as int)]
    } else {
        decimal(value / 10).push(digit((value % 10) as int))
    }
}

/// `value` in upper-case hexadecimal.
pub open spec fn hex(value: nat) -> Seq<char>
    decreases value,
{
    if value < 16 {
        seq![digit(value as int)]
    } else {
        hex(value / 16).push(digit((value % 16) as int))
    }
}

/// The lowest `width` hexadecimal digits of `value`, with leading zeros.
pub open spec fn wide_hex(value: nat, width: nat) -> Seq<char>
    decreases width,
{
    if width == 0 {
        Seq::empty()
    } else {
        wide_hex(value / 16, (width - 1) as nat).push(digit((value % 16) as int))
    }
}

/// The character for one digit below sixteen.
pub fn digit_char(value: u64) -> (letter: char)
    requires
        value < 16,
    ensures
        letter == digit(value as int),
{
    if value < 10 {
        (48 + value as u8) as char
    } else {
        (55 + value as u8) as char
    }
}

/// Appends `value` in decimal.
pub fn push_decimal(text: &mut String, value: u64)
    ensures
        final(text)@ == old(text)@ + decimal(value as nat),
    decreases value,
{
    if value >= 10 {
        push_decimal(text, value / 10);
    }
    text.push(digit_char(value % 10));
}

/// Appends `value` in hexadecimal.
pub fn push_hex(text: &mut String, value: u64)
    ensures
        final(text)@ == old(text)@ + hex(value as nat),
    decreases value,
{
    if value >= 16 {
        push_hex(text, value / 16);
    }
    text.push(digit_char(value % 16));
}

/// Appends the lowest `width` hexadecimal digits of `value`.
pub fn push_wide_hex(text: &mut String, value: u64, width: u32)
    ensures
        final(text)@ == old(text)@ + wide_hex(value as nat, width as nat),
    decreases width,
{
    if width > 0 {
        push_wide_hex(text, value / 16, width - 1);
        text.push(digit_char(value % 16));
    }
}

/// `prefix` followed by `value` in decimal.
pub fn with_decimal(prefix: &str, value: u64) -> (text: String)
    ensures
        text@ == prefix@ + decimal(value as nat),
{
    let mut text: String = prefix.to_owned();
    push_decimal(&mut text, value);
    text
}

/// `prefix` followed by `value` in hexadecimal.
pub fn with_hex(prefix: &str, value: u64) -> (text: String)
    ensures
        text@ == prefix@ + hex(value as nat),
{
    let mut text: String = prefix.to_owned();
    push_hex(&mut text, value);
    text
}

/// `prefix` followed by the lowest `width` hexadecimal digits of `value`.
pub fn with_wide_hex(prefix: &str, value: u64, width: u32) -> (text: String)
    ensures
        text@ == prefix@ + wide_hex(value as nat, width as nat),
{
    let mut text: String = prefix.to_owned();
    push_wide_hex(&mut text, value, width);
    text
}

/// The two texts after each other.
pub fn joined(left: &str, right: &str) -> (text: String)
    ensures
        text@ == left@ + right@,
{
    let mut text: String = left.to_owned();
    text.append(right);
    text
}

/// The characters of an optional text.
pub open spec fn seen(string: Option<String>) -> Option<Seq<char>> {
    match string {
        Some(string) => Some(string@),
        None => None,
    }
}

/// The characters of a text.
pub fn chars_of(string: &str) -> (letters: Vec<char>)
    ensures
        letters@ == string@,
{
    let mut letters: Vec<char> = Vec::new();
    for letter in it: string.chars()
        invariant
            it.seq() == string@,
            letters@ == string@.take(it.index() as int),
    {
        letters.push(letter);
    }
    assert(string@.take(string@.len() as int) =~= string@);
    letters
}

/// The text of the characters from `from` up to `to`.
pub fn text_of(letters: &Vec<char>, from: usize, to: usize) -> (string: String)
    requires
        from <= to <= letters@.len(),
    ensures
        string@ == letters@.subrange(from as int, to as int),
{
    let mut string: String = String::new();
    let mut index: usize = from;
    while index < to
        invariant
            from <= index <= to <= letters@.len(),
            string@ == letters@.subrange(from as int, index as int),
        decreases to - index,
    {
        string.push(letters[index]);
        index = index + 1;
        assert(string@ =~= letters@.subrange(from as int, index as int));
    }
    string
}

/// The number of a character.
pub fn code_of(letter: char) -> (code: u64)
    ensures
        code == letter as int,
        code <= 0x10_FFFF,
{
    letter as u64
}

/// `letter` in lower case, if it is an ASCII letter.
pub open spec fn lower(letter: char) -> char {
    if 'A' <= letter <= 'Z' {
        (letter as u8 + 32) as u8 as char
    } else {
        letter
    }
}

/// The text with its ASCII letters in lower case.
pub open spec fn lowercase(string: Seq<char>) -> Seq<char> {
    string.map_values(|letter: char| lower(letter))
}

/// The character with ASCII letters in lower case.
pub fn lower_char(letter: char) -> (result: char)
    ensures
        result == lower(letter),
{
    if 'A' <= letter && letter <= 'Z' {
        (letter as u8 + 32) as char
    } else {
        letter
    }
}

/// The text with its ASCII letters in lower case.
pub fn ascii_lowercase(string: &str) -> (result: String)
    ensures
        result@ == lowercase(string@),
{
    let mut result: String = String::new();
    for letter in it: string.chars()
        invariant
            it.seq() == string@,
            result@ == lowercase(string@.take(it.index() as int)),
    {
        let ghost before = it.index();
        result.push(lower_char(letter));
        assert(result@ =~= lowercase(string@.take(before + 1)));
    }
    assert(string@.take(string@.len() as int) =~= string@);
    result
}

/// The two texts are the same but for the case of ASCII letters.
pub open spec fn same_letters(left: Seq<char>, right: Seq<char>) -> bool {
    lowercase(left) == lowercase(right)
}

/// Compares two texts without regard to the case of ASCII letters.
pub fn eq_ignore_case(left: &str, right: &str) -> (same: bool)
    ensures
        same == same_letters(left@, right@),
{
    let left_lower: String = ascii_lowercase(left);
    let right_lower: String = ascii_lowercase(right);
    left_lower == right_lower
}

/// Lower case is the same in lower case.
pub proof fn lowercase_twice_is_lowercase(string: Seq<char>)
    ensures
        lowercase(lowercase(string)) == lowercase(string),
{
    assert(lowercase(lowercase(string)) =~= lowercase(string));
}

/// The value of a digit in a base up to sixteen.
pub open spec fn digit_value(letter: char, base: nat) -> Option<nat> {
    let value = if '0' <= letter <= '9' {
        (letter as nat - 48) as nat
    } else if 'a' <= letter <= 'f' {
        (letter as nat - 87) as nat
    } else if 'A' <= letter <= 'F' {
        (letter as nat - 55) as nat
    } else {
        16
    };
    if value < base {
        Some(value)
    } else {
        None
    }
}

/// The number that digits stand for, if all of them are digits of the base.
pub open spec fn digits_value(digits: Seq<char>, base: nat) -> Option<nat>
    decreases digits.len(),
{
    if digits.len() == 0 {
        Some(0)
    } else {
        match (digits_value(digits.drop_last(), base), digit_value(digits.last(), base)) {
            (Some(value), Some(digit)) => Some(value * base + digit),
            _ => None,
        }
    }
}

/// The digits of a number: what follows an optional plus sign.
pub open spec fn unsigned_digits(string: Seq<char>) -> Seq<char> {
    if string.len() > 0 && string[0] == '+' {
        string.skip(1)
    } else {
        string
    }
}

/// The number up to `limit` that a text stands for.
pub open spec fn number(string: Seq<char>, base: nat, limit: nat) -> Option<nat> {
    let digits = unsigned_digits(string);
    match digits_value(digits, base) {
        Some(value) => if digits.len() > 0 && value <= limit {
            Some(value)
        } else {
            None
        },
        None => None,
    }
}

proof fn lemma_digit_reads_back(value: nat, base: nat)
    requires
        value < base <= 16,
    ensures
        digit_value(digit(value as int), base) == Some(value),
        digit(value as int) != '+',
{
}

proof fn lemma_decimal_digits(value: nat)
    ensures
        digits_value(decimal(value), 10) == Some(value),
        decimal(value).len() > 0,
        decimal(value)[0] != '+',
    decreases value,
{
    lemma_digit_reads_back(value % 10, 10);
    if value < 10 {
        assert(decimal(value).drop_last() =~= Seq::empty());
        assert(digits_value(decimal(value).drop_last(), 10) == Some(0nat));
    } else {
        lemma_decimal_digits(value / 10);
        assert(decimal(value).drop_last() =~= decimal(value / 10));
    }
}

proof fn lemma_hex_digits(value: nat)
    ensures
        digits_value(hex(value), 16) == Some(value),
        hex(value).len() > 0,
        hex(value)[0] != '+',
    decreases value,
{
    lemma_digit_reads_back(value % 16, 16);
    if value < 16 {
        assert(hex(value).drop_last() =~= Seq::empty());
        assert(digits_value(hex(value).drop_last(), 16) == Some(0nat));
    } else {
        lemma_hex_digits(value / 16);
        assert(hex(value).drop_last() =~= hex(value / 16));
    }
}

/// A number in decimal reads back as that number.
pub proof fn decimal_reads_back(value: nat, limit: nat)
    requires
        value <= limit,
    ensures
        number(decimal(value), 10, limit) == Some(value),
{
    lemma_decimal_digits(value);
}

/// A number in decimal is made of the ten digits.
pub proof fn decimal_holds_digits(value: nat)
    ensures
        decimal(value).len() > 0,
        forall|index: int|
            #![trigger decimal(value)[index]]
            0 <= index < decimal(value).len() ==> '0' <= decimal(value)[index] <= '9',
    decreases value,
{
    if value >= 10 {
        decimal_holds_digits(value / 10);
    }
}

/// The digits of a number of fixed width are hexadecimal.
pub proof fn wide_hex_holds_digits(value: nat, width: nat)
    ensures
        wide_hex(value, width).len() == width,
        forall|index: int|
            #![trigger wide_hex(value, width)[index]]
            0 <= index < width ==> '0' <= wide_hex(value, width)[index] <= '9' || 'A' <= wide_hex(
                value,
                width,
            )[index] <= 'F',
    decreases width,
{
    if width > 0 {
        wide_hex_holds_digits(value / 16, (width - 1) as nat);
    }
}

/// A number in hexadecimal reads back as that number.
pub proof fn hex_reads_back(value: nat, limit: nat)
    requires
        value <= limit,
    ensures
        number(hex(value), 16, limit) == Some(value),
{
    lemma_hex_digits(value);
}

/// The value of a digit in a base up to sixteen.
fn digit_of(letter: char, base: u64) -> (value: Option<u64>)
    requires
        base <= 16,
    ensures
        match digit_value(letter, base as nat) {
            Some(expected) => value is Some && value->0 == expected,
            None => value is None,
        },
{
    let value: u64 = if '0' <= letter && letter <= '9' {
        letter as u64 - 48
    } else if 'a' <= letter && letter <= 'f' {
        letter as u64 - 87
    } else if 'A' <= letter && letter <= 'F' {
        letter as u64 - 55
    } else {
        16
    };
    if value < base {
        Some(value)
    } else {
        None
    }
}

/// A number only grows with more digits.
proof fn lemma_digits_grow(digits: Seq<char>, base: nat, count: int, limit: nat)
    requires
        0 <= count <= digits.len(),
        1 <= base,
        match digits_value(digits.take(count), base) {
            Some(value) => value > limit,
            None => true,
        },
    ensures
        match digits_value(digits, base) {
            Some(value) => value > limit,
            None => true,
        },
    decreases digits.len(),
{
    if count == digits.len() {
        assert(digits.take(count) =~= digits);
    } else {
        assert(digits.drop_last().take(count) =~= digits.take(count));
        lemma_digits_grow(digits.drop_last(), base, count, limit);
        if digits_value(digits.drop_last(), base) is Some {
            let value = digits_value(digits.drop_last(), base)->0;
            assert(value * base >= value) by (nonlinear_arith)
                requires
                    base >= 1,
            ;
        }
    }
}

/// Reads a number up to `limit`.
pub fn parse_number(string: &str, base: u64, limit: u32) -> (value: Option<u32>)
    requires
        1 <= base <= 16,
    ensures
        match number(string@, base as nat, limit as nat) {
            Some(expected) => value is Some && value->0 == expected,
            None => value is None,
        },
{
    let letters: Vec<char> = chars_of(string);
    let start: usize = if letters.len() > 0 && letters[0] == '+' {
        1
    } else {
        0
    };
    let ghost digits = unsigned_digits(string@);
    assert(digits =~= letters@.skip(start as int));
    if start == letters.len() {
        return None;
    }
    let mut value: u64 = 0;
    let mut index: usize = start;
    assert(digits.take(0) =~= Seq::<char>::empty());
    while index < letters.len()
        invariant
            start <= index <= letters@.len(),
            letters@ == string@,
            digits == unsigned_digits(string@),
            digits == letters@.skip(start as int),
            1 <= base <= 16,
            value <= limit,
            digits_value(digits.take(index - start), base as nat) == Some(value as nat),
        decreases letters@.len() - index,
    {
        let ghost more = digits.take(index - start + 1);
        proof {
            assert(more.drop_last() =~= digits.take(index - start));
            assert(more.last() == letters@[index as int]);
        }
        match digit_of(letters[index], base) {
            None => {
                proof {
                    lemma_digits_grow(digits, base as nat, index - start + 1, limit as nat);
                }
                return None;
            },
            Some(digit) => {
                proof {
                    assert(value * base <= 0xFFFF_FFFF * 16) by (nonlinear_arith)
                        requires
                            value <= 0xFFFF_FFFF,
                            1 <= base <= 16,
                    ;
                }
                value = value * base + digit;
                if value > limit as u64 {
                    proof {
                        lemma_digits_grow(digits, base as nat, index - start + 1, limit as nat);
                    }
                    return None;
                }
            },
        }
        index = index + 1;
    }
    assert(digits.take(index - start) =~= digits);
    Some(value as u32)
}

/// The place behind the last character of `string` that one of `marks` is, or zero.
pub open spec fn after_last(string: Seq<char>, marks: Seq<char>) -> int
    decreases string.len(),
{
    if string.len() == 0 {
        0
    } else if marks.contains(string.last()) {
        string.len() as int
    } else {
        after_last(string.drop_last(), marks)
    }
}

/// Tests whether one of `marks` is `letter`.
pub fn is_one_of(letter: char, marks: &Vec<char>) -> (yes: bool)
    ensures
        yes == marks@.contains(letter),
{
    let mut index: usize = 0;
    while index < marks.len()
        invariant
            index <= marks@.len(),
            forall|i: int| 0 <= i < index ==> marks@[i] != letter,
        decreases marks@.len() - index,
    {
        if marks[index] == letter {
            return true;
        }
        index = index + 1;
    }
    false
}

/// The place behind the last mark, or zero.
pub fn find_after_last(letters: &Vec<char>, marks: &Vec<char>) -> (place: usize)
    ensures
        place == after_last(letters@, marks@),
        place <= letters@.len(),
{
    let mut place: usize = letters.len();
    assert(letters@.take(place as int) =~= letters@);
    while place > 0 && !is_one_of(letters[place - 1], marks)
        invariant
            place <= letters@.len(),
            after_last(letters@, marks@) == after_last(letters@.take(place as int), marks@),
        decreases place,
    {
        assert(letters@.take(place as int).drop_last() =~= letters@.take(place - 1));
        place = place - 1;
    }
    if place > 0 {
        assert(letters@.take(place as int).last() == letters@[place - 1]);
    }
    place
}

/// Tests whether the text starts with the given one.
pub fn begins_with(letters: &Vec<char>, start: &str) -> (yes: bool)
    ensures
        yes == start@.is_prefix_of(letters@),
{
    let expected: Vec<char> = chars_of(start);
    if expected.len() > letters.len() {
        return false;
    }
    let mut index: usize = 0;
    while index < expected.len()
        invariant
            index <= expected@.len() <= letters@.len(),
            expected@ == start@,
            forall|i: int| 0 <= i < index ==> expected@[i] == letters@[i],
        decreases expected@.len() - index,
    {
        if expected[index] != letters[index] {
            assert(letters@.subrange(0, expected@.len() as int)[index as int] == letters@[index as int]);
            return false;
        }
        index = index + 1;
    }
    assert(letters@.subrange(0, expected@.len() as int) =~= expected@);
    true
}

/// The character is white space.
pub open spec fn white(letter: char) -> bool {
    let code = letter as int;
    ||| 0x09 <= code <= 0x0D
    ||| code == 0x20
    ||| code == 0x85
    ||| code == 0xA0
    ||| code == 0x1680
    ||| 0x2000 <= code <= 0x200A
    ||| code == 0x2028
    ||| code == 0x2029
    ||| code == 0x202F
    ||| code == 0x205F
    ||| code == 0x3000
}

/// Tests for white space.
pub fn is_white(letter: char) -> (yes: bool)
    ensures
        yes == white(letter),
{
    let code: u64 = code_of(letter);
    (0x09 <= code && code <= 0x0D) || code == 0x20 || code == 0x85 || code == 0xA0 || code == 0x1680
        || (0x2000 <= code && code <= 0x200A) || code == 0x2028 || code == 0x2029 || code == 0x202F
        || code == 0x205F || code == 0x3000
}

/// The text without white space at its end.
pub open spec fn trimmed_end(string: Seq<char>) -> Seq<char>
    decreases string.len(),
{
    if string.len() == 0 || !white(string.last()) {
        string
    } else {
        trimmed_end(string.drop_last())
    }
}

/// The text without white space at its start.
pub open spec fn trimmed_start(string: Seq<char>) -> Seq<char>
    decreases string.len(),
{
    if string.len() == 0 || !white(string[0]) {
        string
    } else {
        trimmed_start(string.skip(1))
    }
}

/// The text without white space at its start and at its end.
pub fn trim(string: &str) -> (result: String)
    ensures
        result@ == trimmed_end(trimmed_start(string@)),
{
    let letters: Vec<char> = chars_of(string);
    let mut start: usize = 0;
    assert(letters@.skip(0) =~= letters@);
    while start < letters.len() && is_white(letters[start])
        invariant
            start <= letters@.len(),
            letters@ == string@,
            trimmed_start(string@) == trimmed_start(letters@.skip(start as int)),
        decreases letters@.len() - start,
    {
        assert(letters@.skip(start as int)[0] == letters@[start as int]);
        assert(letters@.skip(start as int).skip(1) =~= letters@.skip(start + 1));
        start = start + 1;
    }
    proof {
        if start < letters@.len() {
            assert(letters@.skip(start as int)[0] == letters@[start as int]);
        }
        assert(trimmed_start(string@) == letters@.skip(start as int));
    }
    let mut end: usize = letters.len();
    assert(letters@.subrange(start as int, end as int) =~= letters@.skip(start as int));
    while end > start && is_white(letters[end - 1])
        invariant
            start <= end <= letters@.len(),
            letters@ == string@,
            trimmed_end(trimmed_start(string@)) == trimmed_end(
                letters@.subrange(start as int, end as int),
            ),
        decreases end,
    {
        assert(letters@.subrange(start as int, end as int).last() == letters@[end - 1]);
        assert(letters@.subrange(start as int, end as int).drop_last() =~= letters@.subrange(
            start as int,
            end - 1,
        ));
        end = end - 1;
    }
    if end > start {
        assert(letters@.subrange(start as int, end as int).last() == letters@[end - 1]);
    }
    text_of(&letters, start, end)
}

/// Tests whether a text is the given one.
pub fn is_text(string: &String, expected: &str) -> (same: bool)
    ensures
        same == (string@ == expected@),
{
    let other: String = expected.to_owned();
    *string == other
}

} // verus!
