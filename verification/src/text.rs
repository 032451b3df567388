//! Text building blocks shared by the renderers: decimal numbers, JSON string
//! quoting, joins and the byte length that token estimates are made of.

use vstd::prelude::*;
use vstd::string::*;
use vstd::utf8;
use crate::model;

verus! {

/// Number of bytes that a text takes in UTF-8.
pub open spec fn byte_len(text: Seq<char>) -> nat {
    utf8::encode_utf8(text).len()
}

/// The decimal digit for `value % 10`.
pub open spec fn digit(value: nat) -> char {
    ((value % 10) as int + 48) as char
}

/// Decimal notation without leading zeros.
pub open spec fn decimal(value: nat) -> Seq<char>
    decreases value,
{
    if value < 10 {
        seq![digit(value)]
    } else {
        decimal(value / 10).push(digit(value))
    }
}

/// The lower-case hexadecimal digit for a value below sixteen.
pub open spec fn hex_digit(value: nat) -> char {
    if value < 10 {
        (value as int + 48) as char
    } else {
        (value as int + 87) as char
    }
}

/// What stands for one character inside a JSON string.
pub open spec fn json_escape(c: char) -> Seq<char> {
    if c == '"' {
        seq!['\\', '"']
    } else if c == '\\' {
        seq!['\\', '\\']
    } else if c as u32 == 8 {
        seq!['\\', 'b']
    } else if c as u32 == 12 {
        seq!['\\', 'f']
    } else if c == '\n' {
        seq!['\\', 'n']
    } else if c == '\r' {
        seq!['\\', 'r']
    } else if c == '\t' {
        seq!['\\', 't']
    } else if (c as u32) < 32 {
        seq!['\\', 'u', '0', '0', hex_digit((c as u32 / 16) as nat), hex_digit((c as u32 % 16) as nat)]
    } else {
        seq![c]
    }
}

/// The characters between the quotes of a JSON string.
pub open spec fn json_escaped(text: Seq<char>) -> Seq<char>
    decreases text.len(),
{
    if text.len() == 0 {
        seq![]
    } else {
        json_escaped(text.drop_last()) + json_escape(text.last())
    }
}

/// A text as a JSON string literal.
pub open spec fn json_string(text: Seq<char>) -> Seq<char> {
    seq!['"'] + json_escaped(text) + seq!['"']
}

/// Calls `serde_json::to_string` on a string. Claims that the result is the text
/// between double quotes with the quote, the backslash and the control characters
/// below 32 escaped, and every other character as it is.
#[verifier::external_body]
pub(crate) fn quoted(value: &str) -> (text: String)
    ensures
        text@ == json_string(value@),
{
    serde_json::to_string(value).expect("strings are serializable")
}

/// Appends one decimal digit.
fn push_digit(out: &mut String, value: u64)
    requires
        value < 10,
    ensures
        final(out)@ == old(out)@.push(digit(value as nat)),
{
    let text = if value == 0 { "0" } else if value == 1 { "1" } else if value == 2 { "2" } else if value
        == 3 { "3" } else if value == 4 { "4" } else if value == 5 { "5" } else if value == 6 { "6" } else if value
        == 7 { "7" } else if value == 8 { "8" } else { "9" };
    proof {
        reveal_strlit("0");
        reveal_strlit("1");
        reveal_strlit("2");
        reveal_strlit("3");
        reveal_strlit("4");
        reveal_strlit("5");
        reveal_strlit("6");
        reveal_strlit("7");
        reveal_strlit("8");
        reveal_strlit("9");
        assert(text@ =~= seq![digit(value as nat)]);
        assert(out@ + text@ =~= out@.push(digit(value as nat)));
    }
    out.append(text);
}

/// Appends a number in decimal notation.
pub fn push_decimal(out: &mut String, value: u64)
    ensures
        final(out)@ == old(out)@ + decimal(value as nat),
    decreases value,
{
    let ghost before = out@;
    if value < 10 {
        push_digit(out, value);
        assert(out@ =~= before + decimal(value as nat));
    } else {
        push_decimal(out, value / 10);
        push_digit(out, value % 10);
        assert(digit((value % 10) as nat) == digit(value as nat));
        assert(out@ =~= before + decimal(value as nat));
    }
}

/// A number in decimal notation.
pub fn decimal_text(value: u64) -> (text: String)
    ensures
        text@ == decimal(value as nat),
{
    let mut text = String::new();
    push_decimal(&mut text, value);
    assert(text@ =~= decimal(value as nat));
    text
}

/// Counts the bytes of a text.
pub fn byte_length(text: &str) -> (length: usize)
    ensures
        length == byte_len(text@),
{
    text.as_bytes().len()
}

/// Texts with a separator between each two.
pub open spec fn joined(parts: Seq<Seq<char>>, separator: Seq<char>) -> Seq<char>
    decreases parts.len(),
{
    if parts.len() == 0 {
        seq![]
    } else if parts.len() == 1 {
        parts[0]
    } else {
        joined(parts.drop_last(), separator) + separator + parts.last()
    }
}

/// Joins texts with a separator.
pub fn join(parts: &Vec<String>, separator: &str) -> (text: String)
    ensures
        text@ == joined(model::views(parts@), separator@),
{
    let ghost all = model::views(parts@);
    let mut text = String::new();
    let mut i: usize = 0;
    while i < parts.len()
        invariant
            i <= parts.len(),
            all == model::views(parts@),
            text@ == joined(all.take(i as int), separator@),
        decreases parts.len() - i,
    {
        if i > 0 {
            text.append(separator);
        }
        text.append(parts[i].as_str());
        proof {
            assert(all.take(i + 1).drop_last() =~= all.take(i as int));
            assert(all.take(i + 1).last() == parts@[i as int]@);
            assert(text@ =~= joined(all.take(i + 1), separator@));
        }
        i += 1;
    }
    assert(all.take(i as int) =~= all);
    text
}

/// Whether a character has the Unicode property White_Space.
pub open spec fn white_space(c: char) -> bool {
    let point = c as u32;
    ||| 0x9 <= point <= 0xd
    ||| point == 0x20
    ||| point == 0x85
    ||| point == 0xa0
    ||| point == 0x1680
    ||| 0x2000 <= point <= 0x200a
    ||| 0x2028 <= point <= 0x2029
    ||| point == 0x202f
    ||| point == 0x205f
    ||| point == 0x3000
}

/// Tests whether a character has the Unicode property White_Space.
fn is_white_space(c: char) -> (white: bool)
    ensures
        white == white_space(c),
{
    let point: u32 = c as u32;
    (0x9 <= point && point <= 0xd) || point == 0x20 || point == 0x85 || point == 0xa0 || point == 0x1680 || (0x2000
        <= point && point <= 0x200a) || (0x2028 <= point && point <= 0x2029) || point == 0x202f || point == 0x205f
        || point == 0x3000
}

/// Whether a text holds nothing but white space.
pub open spec fn blank(text: Seq<char>) -> bool {
    forall|i: int| 0 <= i < text.len() ==> white_space(#[trigger] text[i])
}

/// Tests whether a text holds nothing but white space.
pub fn is_blank(text: &str) -> (answer: bool)
    ensures
        answer == blank(text@),
{
    let mut answer: bool = true;
    for c in it: text.chars()
        invariant
            it.seq() == text@,
            answer == blank(text@.take(it.index() as int)),
    {
        proof {
            let i = it.index() as int;
            assert(text@.take(i + 1) =~= text@.take(i).push(c));
            assert(text@.take(i + 1)[i] == c);
            assert forall|k: int| 0 <= k < i implies text@.take(i)[k] == text@.take(i + 1)[k] by {}
        }
        answer = is_white_space(c) && answer;
    }
    assert(text@.take(text@.len() as int) =~= text@);
    answer
}

/// What follows a prefix.
pub fn strip_prefix<'a>(text: &'a str, prefix: &str) -> (rest: Option<&'a str>)
    ensures
        match rest {
            Some(tail) => text@ == prefix@ + tail@,
            None => !prefix@.is_prefix_of(text@),
        },
{
    let length: usize = text.unicode_len();
    let count: usize = prefix.unicode_len();
    if length < count {
        return None;
    }
    let head = text.substring_char(0, count);
    if head.to_owned() == prefix.to_owned() {
        let tail = text.substring_char(count, length);
        assert(text@ =~= prefix@ + tail@);
        Some(tail)
    } else {
        None
    }
}

/// What stands before a suffix.
pub fn strip_suffix<'a>(text: &'a str, suffix: &str) -> (rest: Option<&'a str>)
    ensures
        match rest {
            Some(head) => text@ == head@ + suffix@,
            None => !suffix@.is_suffix_of(text@),
        },
{
    let length: usize = text.unicode_len();
    let count: usize = suffix.unicode_len();
    if length < count {
        return None;
    }
    let tail = text.substring_char(length - count, length);
    if tail.to_owned() == suffix.to_owned() {
        let head = text.substring_char(0, length - count);
        assert(text@ =~= head@ + suffix@);
        Some(head)
    } else {
        None
    }
}

/// The lower-case form of a text.
pub uninterp spec fn lowered(text: Seq<char>) -> Seq<char>;

/// Calls `str::to_lowercase`. Claims only that the result is a function of the text.
#[verifier::external_body]
pub(crate) fn to_lower(text: &str) -> (lower: String)
    ensures
        lower@ == lowered(text@),
{
    text.to_lowercase()
}

/// Whether a text stands at a position of another.
pub open spec fn stands_at(text: Seq<char>, part: Seq<char>, position: int) -> bool {
    &&& 0 <= position
    &&& position + part.len() <= text.len()
    &&& text.subrange(position, position + part.len()) == part
}

/// Whether a text stands anywhere in another.
pub open spec fn occurs(text: Seq<char>, part: Seq<char>) -> bool {
    exists|position: int| stands_at(text, part, position)
}

/// The characters of a text.
fn characters(text: &str) -> (list: Vec<char>)
    ensures
        list@ == text@,
{
    let mut list: Vec<char> = Vec::new();
    for c in it: text.chars()
        invariant
            it.seq() == text@,
            list@ == text@.take(it.index() as int),
    {
        assert(text@.take(it.index() + 1) =~= text@.take(it.index() as int).push(c));
        list.push(c);
    }
    assert(text@.take(text@.len() as int) =~= text@);
    list
}

/// Tests whether characters stand at a position of others.
fn is_at(text: &Vec<char>, part: &Vec<char>, position: usize) -> (answer: bool)
    requires
        position + part.len() <= text.len(),
    ensures
        answer == stands_at(text@, part@, position as int),
{
    let ghost here = text@.subrange(position as int, position + part.len());
    let mut i: usize = 0;
    while i < part.len()
        invariant
            i <= part.len(),
            position + part.len() <= text.len(),
            here == text@.subrange(position as int, position + part.len()),
            forall|k: int| 0 <= k < i ==> here[k] == part@[k],
        decreases part.len() - i,
    {
        if text[position + i] != part[i] {
            assert(here[i as int] != part@[i as int]);
            return false;
        }
        i += 1;
    }
    assert(here =~= part@);
    true
}

/// Tests whether a text stands anywhere in another.
pub(crate) fn contains_text(text: &str, part: &str) -> (answer: bool)
    ensures
        answer == occurs(text@, part@),
{
    let all = characters(text);
    let wanted = characters(part);
    if wanted.len() > all.len() {
        return false;
    }
    let last: usize = all.len() - wanted.len();
    let mut position: usize = 0;
    loop
        invariant
            position <= last,
            last == all.len() - wanted.len(),
            all@ == text@,
            wanted@ == part@,
            forall|k: int| 0 <= k < position ==> !stands_at(text@, part@, k),
        decreases last - position,
    {
        if is_at(&all, &wanted, position) {
            assert(stands_at(text@, part@, position as int));
            return true;
        }
        if position == last {
            return false;
        }
        position += 1;
    }
}

/// The bytes of two texts together are those of the one and the other.
pub proof fn lemma_bytes_concat(left: Seq<char>, right: Seq<char>)
    ensures
        utf8::encode_utf8(left + right) == utf8::encode_utf8(left) + utf8::encode_utf8(right),
        byte_len(left + right) == byte_len(left) + byte_len(right),
    decreases left.len(),
{
    if left.len() == 0 {
        assert(left + right =~= right);
        assert(utf8::encode_utf8(left) + utf8::encode_utf8(right) =~= utf8::encode_utf8(right));
    } else {
        assert((left + right).drop_first() =~= left.drop_first() + right);
        lemma_bytes_concat(left.drop_first(), right);
        assert(utf8::encode_utf8(left + right) =~= utf8::encode_utf8(left) + utf8::encode_utf8(right));
    }
}

/// A text of ASCII characters has as many bytes as characters.
pub proof fn lemma_ascii_bytes(text: Seq<char>)
    requires
        utf8::is_ascii_chars(text),
    ensures
        byte_len(text) == text.len(),
{
    utf8::is_ascii_chars_encode_utf8(text);
}

/// Decimal notation is made of ASCII digits.
pub proof fn lemma_decimal_ascii(value: nat)
    ensures
        utf8::is_ascii_chars(decimal(value)),
        decimal(value).len() >= 1,
        forall|i: int| 0 <= i < decimal(value).len() ==> '0' <= #[trigger] decimal(value)[i] <= '9',
    decreases value,
{
    if value >= 10 {
        lemma_decimal_ascii(value / 10);
    }
}

/// A power of ten.
pub open spec fn power_of_ten(exponent: nat) -> nat
    decreases exponent,
{
    if exponent == 0 {
        1
    } else {
        10 * power_of_ten((exponent - 1) as nat)
    }
}

/// A number below a power of ten has at most as many digits as the exponent tells.
pub proof fn lemma_decimal_length(value: nat, digits: nat)
    requires
        digits >= 1,
        value < power_of_ten(digits),
    ensures
        decimal(value).len() <= digits,
    decreases digits,
{
    if value >= 10 {
        if digits == 1 {
            reveal_with_fuel(power_of_ten, 2);
        } else {
            assert(value / 10 < power_of_ten((digits - 1) as nat));
            lemma_decimal_length(value / 10, (digits - 1) as nat);
        }
    }
}

/// A counter has at most twenty digits.
pub proof fn lemma_counter_length(value: u64)
    ensures
        decimal(value as nat).len() <= 20,
{
    reveal_with_fuel(power_of_ten, 21);
    assert(power_of_ten(20) == 100000000000000000000);
    lemma_decimal_length(value as nat, 20);
}

/// Larger numbers have no fewer digits.
pub proof fn lemma_decimal_monotonic(smaller: nat, larger: nat)
    requires
        smaller <= larger,
    ensures
        decimal(smaller).len() <= decimal(larger).len(),
    decreases larger,
{
    if larger >= 10 && smaller >= 10 {
        lemma_decimal_monotonic(smaller / 10, larger / 10);
    }
}

/// Escaping makes a text at most six times as long.
pub proof fn lemma_escaped_length(text: Seq<char>)
    ensures
        byte_len(json_escaped(text)) <= 6 * byte_len(text),
    decreases text.len(),
{
    if text.len() > 0 {
        let rest = text.drop_last();
        let last = seq![text.last()];
        lemma_escaped_length(rest);
        lemma_bytes_concat(json_escaped(rest), json_escape(text.last()));
        lemma_bytes_concat(rest, last);
        assert(rest + last =~= text);
        assert(byte_len(json_escape(text.last())) <= 6 * byte_len(last)) by {
            let c = text.last();
            assert(utf8::encode_utf8(last) =~= utf8::encode_scalar(c as u32)) by {
                assert(last.drop_first() =~= seq![]);
                assert(utf8::encode_utf8(last.drop_first()) =~= seq![]);
            }
            if json_escape(c) == last {
            } else {
                assert(utf8::is_ascii_chars(json_escape(c)));
                lemma_ascii_bytes(json_escape(c));
            }
        }
    }
}

/// Whether a text stands in a JSON string as it is.
pub open spec fn unescaped(text: Seq<char>) -> bool {
    json_escaped(text) == text
}

/// A text whose characters all stand for themselves stands in a JSON string as it is.
pub proof fn lemma_unescaped(text: Seq<char>)
    requires
        forall|i: int| 0 <= i < text.len() ==> json_escape(#[trigger] text[i]) == seq![text[i]],
    ensures
        unescaped(text),
    decreases text.len(),
{
    if text.len() > 0 {
        let rest = text.drop_last();
        assert forall|i: int| 0 <= i < rest.len() implies json_escape(#[trigger] rest[i]) == seq![rest[i]] by {
            assert(rest[i] == text[i]);
        }
        lemma_unescaped(rest);
        assert(json_escape(text[text.len() - 1]) == seq![text.last()]);
        assert(rest + seq![text.last()] =~= text);
    } else {
        assert(json_escaped(text) =~= text);
    }
}

/// Behind a character boundary there is another one within four bytes.
pub proof fn lemma_next_boundary(bytes: Seq<u8>, index: int) -> (next: int)
    requires
        utf8::valid_utf8(bytes),
        0 <= index < bytes.len(),
        utf8::is_char_boundary(bytes, index),
    ensures
        index < next <= index + 4,
        next <= bytes.len(),
        utf8::is_char_boundary(bytes, next),
    decreases bytes.len(),
{
    let width = utf8::length_of_first_scalar(bytes);
    let rest = utf8::pop_first_scalar(bytes);
    if index == 0 {
        assert(utf8::is_char_boundary(rest, 0));
        width
    } else {
        assert(index >= width) by {
            reveal_with_fuel(utf8::is_char_boundary, 2);
        }
        let inner = lemma_next_boundary(rest, index - width);
        inner + width
    }
}

/// Behind a character boundary, boundaries are those of the rest.
pub proof fn lemma_boundary_shift(bytes: Seq<u8>, start: int, index: int)
    requires
        utf8::valid_utf8(bytes),
        utf8::is_char_boundary(bytes, start),
        0 <= start <= index <= bytes.len(),
    ensures
        utf8::valid_utf8(bytes.subrange(start, bytes.len() as int)),
        utf8::is_char_boundary(bytes, index) == utf8::is_char_boundary(
            bytes.subrange(start, bytes.len() as int),
            index - start,
        ),
    decreases bytes.len(),
{
    utf8::valid_utf8_split(bytes, start);
    if start == 0 {
        assert(bytes.subrange(0, bytes.len() as int) =~= bytes);
    } else {
        let width = utf8::length_of_first_scalar(bytes);
        let rest = utf8::pop_first_scalar(bytes);
        if start < width {
            reveal_with_fuel(utf8::is_char_boundary, 2);
            assert(false);
        }
        lemma_boundary_shift(rest, start - width, index - width);
        assert(rest.subrange(start - width, rest.len() as int) =~= bytes.subrange(start, bytes.len() as int));
    }
}

/// Each text of a join stands behind the ones before it and before the ones behind it,
/// with the separator in between.
pub proof fn joins_keep_their_parts(parts: Seq<Seq<char>>, separator: Seq<char>, index: int)
    requires
        0 <= index < parts.len(),
    ensures
        ({
            let before = if index == 0 {
                seq![]
            } else {
                joined(parts.take(index), separator) + separator
            };
            let after = if index == parts.len() - 1 {
                seq![]
            } else {
                separator + joined(parts.skip(index + 1), separator)
            };
            joined(parts, separator) == before + parts[index] + after
        }),
    decreases parts.len(),
{
    let rest = parts.drop_last();
    if index < rest.len() {
        joins_keep_their_parts(rest, separator, index);
        assert(rest.take(index) =~= parts.take(index));
        let tail = parts.skip(index + 1);
        assert(rest.skip(index + 1) =~= tail.drop_last());
        assert(tail.last() == parts.last());
        if index == rest.len() - 1 {
            assert(tail =~= seq![parts.last()]);
        }
        let before = if index == 0 {
            seq![]
        } else {
            joined(parts.take(index), separator) + separator
        };
        assert(joined(parts, separator) =~= before + parts[index] + (separator + joined(tail, separator)));
    } else {
        assert(parts.take(index) =~= rest);
        if index == 0 {
            assert(seq![] + parts[0] + seq![] =~= parts[0]);
        } else {
            assert(joined(parts, separator) =~= joined(rest, separator) + separator + parts[index] + seq![]);
        }
    }
}

/// A join has all bytes of its texts and nothing but separators beside them.
pub proof fn joins_lose_nothing(parts: Seq<Seq<char>>, part: Seq<char>, separator: Seq<char>)
    ensures
        parts.len() == 0 ==> joined(parts, separator).len() == 0 && joined(parts.push(part), separator) == part,
        parts.len() > 0 ==> joined(parts.push(part), separator) == joined(parts, separator) + separator + part,
{
    assert(parts.push(part).drop_last() =~= parts);
}

/// White space is what Unicode gives that property: the tabulator and the line breaks, the
/// space and the next line, the space that does not break, and the spaces and separators
/// of its later blocks. Letters, digits and spaces without width are none.
pub proof fn white_space_is_unicode(c: char)
    ensures
        white_space(c) <==> {
            ||| c == '\t' || c == '\n' || c == '\r' || c == ' '
            ||| c as u32 == 11 || c as u32 == 12
            ||| c as u32 == 133 || c as u32 == 160 || c as u32 == 5760
            ||| 8192 <= c as u32 <= 8202
            ||| c as u32 == 8232 || c as u32 == 8233 || c as u32 == 8239 || c as u32 == 8287
            ||| c as u32 == 12288
        },
{
}

/// A text holds another exactly where it can be written with it in the middle.
pub proof fn occurrences_stand_between(text: Seq<char>, part: Seq<char>)
    ensures
        occurs(text, part) <==> exists|before: Seq<char>, after: Seq<char>| text == #[trigger] (before + part + after),
{
    if occurs(text, part) {
        let position = choose|position: int| stands_at(text, part, position);
        let before = text.take(position);
        let after = text.skip(position + part.len());
        assert(text =~= before + part + after);
    }
    if exists|before: Seq<char>, after: Seq<char>| text == #[trigger] (before + part + after) {
        let (before, after) = choose|before: Seq<char>, after: Seq<char>| text == #[trigger] (before + part + after);
        assert(text.subrange(before.len() as int, (before.len() + part.len()) as int) =~= part);
        assert(stands_at(text, part, before.len() as int));
    }
}

/// The number that decimal digits denote.
pub open spec fn number_of(digits: Seq<char>) -> nat
    decreases digits.len(),
{
    if digits.len() == 0 {
        0
    } else {
        (10 * number_of(digits.drop_last()) + (digits.last() as nat - 48)) as nat
    }
}

/// A number is read back from its decimal notation, which has no leading zeros.
pub proof fn numbers_are_read_back(value: nat)
    ensures
        number_of(decimal(value)) == value,
        value > 0 ==> decimal(value)[0] != '0',
        value == 0 ==> decimal(value) == seq!['0'],
    decreases value,
{
    let last = digit(value);
    assert(last as nat == value % 10 + 48);
    if value < 10 {
        assert(decimal(value) =~= seq![last]);
        assert(decimal(value).drop_last() =~= Seq::<char>::empty());
        assert(number_of(Seq::<char>::empty()) == 0);
    } else {
        numbers_are_read_back(value / 10);
        lemma_decimal_ascii(value / 10);
        assert(decimal(value).drop_last() =~= decimal(value / 10));
        assert(decimal(value).last() == last);
        assert(decimal(value)[0] == decimal(value / 10)[0]);
    }
}

} // verus!
