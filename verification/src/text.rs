//! Character-level text operations shared by the other modules.

use vstd::prelude::*;
use vstd::string::StringExecFns;

verus! {

/// `String::push` appends the character behind what the string already holds.
pub assume_specification[ String::push ](text: &mut String, character: char)
    ensures
        final(text)@ == old(text)@.push(character),
;

/// The parts in order, with the separator between each two of them.
pub open spec fn joined(parts: Seq<Seq<char>>, separator: Seq<char>) -> Seq<char>
    decreases parts.len(),
{
    if parts.len() == 0 {
        Seq::empty()
    } else if parts.len() == 1 {
        parts[0]
    } else {
        joined(parts.drop_last(), separator) + separator + parts.last()
    }
}

/// The views of a sequence of strings.
pub open spec fn texts(parts: Seq<String>) -> Seq<Seq<char>> {
    parts.map_values(|part: String| part@)
}

/// The character of a decimal digit.
pub open spec fn digit(value: nat) -> char {
    (48 + value) as char
}

/// The decimal digits of a natural number, without leading zeros.
pub open spec fn decimal(value: nat) -> Seq<char>
    decreases value,
{
    if value < 10 {
        seq![digit(value)]
    } else {
        decimal(value / 10).push(digit(value % 10))
    }
}

/// The character of a hexadecimal digit, in lower case.
pub open spec fn hex_digit(value: nat) -> char {
    if value < 10 {
        (48 + value) as char
    } else {
        (87 + value) as char
    }
}

/// The bytes as hexadecimal digits, two for each.
pub open spec fn hex(bytes: Seq<u8>) -> Seq<char>
    decreases bytes.len(),
{
    if bytes.len() == 0 {
        Seq::empty()
    } else {
        hex(bytes.drop_last()) + seq![
            hex_digit(bytes.last() as nat / 16),
            hex_digit(bytes.last() as nat % 16),
        ]
    }
}

/// Each byte takes two hexadecimal digits.
pub proof fn lemma_hex_length(bytes: Seq<u8>)
    ensures
        hex(bytes).len() == 2 * bytes.len(),
    decreases bytes.len(),
{
    if bytes.len() > 0 {
        lemma_hex_length(bytes.drop_last());
    }
}

/// The dictionary order of two texts, by Unicode scalar value.
pub open spec fn text_less(left: Seq<char>, right: Seq<char>) -> bool
    decreases left.len(),
{
    if right.len() == 0 {
        false
    } else if left.len() == 0 {
        true
    } else if left[0] != right[0] {
        left[0] < right[0]
    } else {
        text_less(left.drop_first(), right.drop_first())
    }
}

/// A character with the Unicode property `White_Space`.
pub open spec fn white_space(character: char) -> bool {
    let code = character as nat;
    ||| 0x9 <= code <= 0xd
    ||| code == 0x20
    ||| code == 0x85
    ||| code == 0xa0
    ||| code == 0x1680
    ||| 0x2000 <= code <= 0x200a
    ||| code == 0x2028
    ||| code == 0x2029
    ||| code == 0x202f
    ||| code == 0x205f
    ||| code == 0x3000
}

/// The text without the white space that it begins with.
pub open spec fn trimmed_start(text: Seq<char>) -> Seq<char>
    decreases text.len(),
{
    if text.len() > 0 && white_space(text[0]) {
        trimmed_start(text.drop_first())
    } else {
        text
    }
}

/// The text without the white space that it ends with.
pub open spec fn trimmed_end(text: Seq<char>) -> Seq<char>
    decreases text.len(),
{
    if text.len() > 0 && white_space(text.last()) {
        trimmed_end(text.drop_last())
    } else {
        text
    }
}

/// The text without the white space around it.
pub open spec fn trimmed(text: Seq<char>) -> Seq<char> {
    trimmed_end(trimmed_start(text))
}

/// An ASCII capital in lower case; any other character as it is.
pub open spec fn lower(character: char) -> char {
    if 'A' <= character <= 'Z' {
        (character as nat + 32) as char
    } else {
        character
    }
}

/// The text with its ASCII capitals in lower case.
pub open spec fn lowered(text: Seq<char>) -> Seq<char> {
    text.map_values(|character: char| lower(character))
}

/// The part occurs in the text.
pub open spec fn occurs_in(part: Seq<char>, text: Seq<char>) -> bool {
    exists|at: int|
        0 <= at <= text.len() - part.len() && #[trigger] text.subrange(at, at + part.len()) == part
}

/// Where one text stands relative to another in dictionary order.
pub enum Standing {
    Before,
    Same,
    After,
}

/// The dictionary order is irreflexive, transitive and total.
pub proof fn lemma_text_less_total(left: Seq<char>, middle: Seq<char>, right: Seq<char>)
    ensures
        !text_less(left, left),
        text_less(left, middle) && text_less(middle, right) ==> text_less(left, right),
        !(text_less(left, middle) && text_less(middle, left)),
        text_less(left, middle) || text_less(middle, left) || left == middle,
    decreases left.len() + middle.len() + right.len(),
{
    if left.len() > 0 {
        lemma_text_less_total(
            left.drop_first(),
            if middle.len() > 0 {
                middle.drop_first()
            } else {
                middle
            },
            if right.len() > 0 {
                right.drop_first()
            } else {
                right
            },
        );
        if middle.len() > 0 && left[0] == middle[0] && left.drop_first() == middle.drop_first() {
            assert(left =~= seq![left[0]] + left.drop_first());
            assert(middle =~= seq![middle[0]] + middle.drop_first());
        }
    } else if middle.len() == 0 {
        assert(left =~= middle);
    }
}

/// The characters of a string.
pub fn chars_of(text: &str) -> (characters: Vec<char>)
    ensures
        characters@ == text@,
{
    let mut characters: Vec<char> = Vec::new();
    for character in walk: text.chars()
        invariant
            walk.seq() == text@,
            characters@ == text@.take(walk.index()),
    {
        characters.push(character);
        assert(text@.take(walk.index() + 1) =~= text@.take(walk.index()).push(character));
    }
    assert(text@.take(text@.len() as int) =~= text@);
    characters
}

/// The character of a hexadecimal digit.
pub fn hex_character(value: u8) -> (character: char)
    requires
        value < 16,
    ensures
        character == hex_digit(value as nat),
{
    if value < 10 {
        (48 + value) as char
    } else {
        (87 + value) as char
    }
}

/// The bytes as hexadecimal digits in lower case.
pub fn hex_text(bytes: &Vec<u8>) -> (text: String)
    ensures
        text@ == hex(bytes@),
{
    let mut text = String::new();
    for i in 0..bytes.len()
        invariant
            text@ == hex(bytes@.take(i as int)),
    {
        let ghost before = text@;
        text.push(hex_character(bytes[i] / 16));
        text.push(hex_character(bytes[i] % 16));
        assert(bytes@.take(i + 1).drop_last() =~= bytes@.take(i as int));
        assert(text@ =~= hex(bytes@.take(i + 1)));
    }
    assert(bytes@.take(bytes@.len() as int) =~= bytes@);
    text
}

/// The decimal digits of a number.
pub fn decimal_text(value: u64) -> (text: String)
    ensures
        text@ == decimal(value as nat),
    decreases value,
{
    let last = (48 + (value % 10) as u8) as char;
    if value < 10 {
        let mut text = String::new();
        text.push(last);
        assert(text@ =~= decimal(value as nat));
        text
    } else {
        let mut text = decimal_text(value / 10);
        text.push(last);
        text
    }
}

/// Where `left` stands relative to `right`.
pub fn place(left: &str, right: &str) -> (standing: Standing)
    ensures
        match standing {
            Standing::Before => text_less(left@, right@),
            Standing::Same => left@ == right@,
            Standing::After => text_less(right@, left@),
        },
{
    let first = chars_of(left);
    let second = chars_of(right);
    let mut i: usize = 0;
    assert(left@.skip(0) =~= left@);
    assert(right@.skip(0) =~= right@);
    while i < first.len() && i < second.len() && first[i] == second[i]
        invariant
            first@ == left@,
            second@ == right@,
            i <= first@.len(),
            i <= second@.len(),
            text_less(left@, right@) == text_less(left@.skip(i as int), right@.skip(i as int)),
            text_less(right@, left@) == text_less(right@.skip(i as int), left@.skip(i as int)),
            forall|j: int| 0 <= j < i ==> left@[j] == right@[j],
        decreases first@.len() - i,
    {
        assert(left@.skip(i as int).drop_first() =~= left@.skip(i + 1));
        assert(right@.skip(i as int).drop_first() =~= right@.skip(i + 1));
        i = i + 1;
    }
    if i == second.len() {
        if i == first.len() {
            assert(left@ =~= right@);
            Standing::Same
        } else {
            Standing::After
        }
    } else if i == first.len() {
        Standing::Before
    } else if first[i] < second[i] {
        Standing::Before
    } else {
        Standing::After
    }
}

/// Whether two strings hold the same text.
pub fn same_text(left: &str, right: &str) -> (same: bool)
    ensures
        same == (left@ == right@),
{
    proof {
        lemma_text_less_total(left@, right@, left@);
    }
    match place(left, right) {
        Standing::Same => true,
        _ => false,
    }
}

/// The string of the characters from `start` up to `end`.
pub fn text_between(characters: &Vec<char>, start: usize, end: usize) -> (text: String)
    requires
        start <= end <= characters@.len(),
    ensures
        text@ == characters@.subrange(start as int, end as int),
{
    let mut text = String::new();
    for i in start..end
        invariant
            end <= characters@.len(),
            start <= i <= end,
            text@ == characters@.subrange(start as int, i as int),
    {
        text.push(characters[i]);
        assert(characters@.subrange(start as int, i + 1) =~= characters@.subrange(
            start as int,
            i as int,
        ).push(characters@[i as int]));
    }
    text
}

/// Whether a character has the Unicode property `White_Space`.
pub fn is_white_space(character: char) -> (is: bool)
    ensures
        is == white_space(character),
{
    let code: u32 = character as u32;
    (0x9 <= code && code <= 0xd) || code == 0x20 || code == 0x85 || code == 0xa0 || code == 0x1680
        || (0x2000 <= code && code <= 0x200a) || code == 0x2028 || code == 0x2029 || code == 0x202f
        || code == 0x205f || code == 0x3000
}

/// How many characters of white space the characters from `start` on begin with, as the position
/// behind them.
pub fn skip_white_space(characters: &Vec<char>, start: usize) -> (end: usize)
    requires
        start <= characters@.len(),
    ensures
        start <= end <= characters@.len(),
        characters@.skip(end as int) == trimmed_start(characters@.skip(start as int)),
{
    let mut end = start;
    while end < characters.len() && is_white_space(characters[end])
        invariant
            start <= end <= characters@.len(),
            trimmed_start(characters@.skip(end as int)) == trimmed_start(
                characters@.skip(start as int),
            ),
        decreases characters@.len() - end,
    {
        assert(characters@.skip(end as int).drop_first() =~= characters@.skip(end + 1));
        end = end + 1;
    }
    end
}

/// The text without the white space around it.
pub fn trim(text: &str) -> (inner: String)
    ensures
        inner@ == trimmed(text@),
{
    let characters = chars_of(text);
    assert(characters@.skip(0) =~= characters@);
    let start = skip_white_space(&characters, 0);
    let mut end = characters.len();
    assert(characters@.subrange(start as int, end as int) =~= characters@.skip(start as int));
    while start < end && is_white_space(characters[end - 1])
        invariant
            start <= end <= characters@.len(),
            trimmed_end(characters@.subrange(start as int, end as int)) == trimmed(text@),
        decreases end,
    {
        assert(characters@.subrange(start as int, end as int).drop_last() =~= characters@.subrange(
            start as int,
            end - 1,
        ));
        end = end - 1;
    }
    text_between(&characters, start, end)
}

/// An ASCII capital in lower case; any other character as it is.
fn lower_character(character: char) -> (lowercase: char)
    ensures
        lowercase == lower(character),
{
    let code: u32 = character as u32;
    if 65 <= code && code <= 90 {
        (code as u8 + 32) as char
    } else {
        character
    }
}

/// The text with its ASCII capitals in lower case.
pub fn ascii_lowercase(text: &str) -> (lowercase: String)
    ensures
        lowercase@ == lowered(text@),
{
    let characters = chars_of(text);
    let mut lowercase = String::new();
    for i in 0..characters.len()
        invariant
            lowercase@ == lowered(characters@.take(i as int)),
    {
        lowercase.push(lower_character(characters[i]));
        assert(lowercase@ =~= lowered(characters@.take(i + 1)));
    }
    assert(characters@.take(characters@.len() as int) =~= characters@);
    lowercase
}

/// Whether the part occurs in the text.
pub fn contains_text(text: &str, part: &str) -> (found: bool)
    ensures
        found == occurs_in(part@, text@),
{
    let whole = chars_of(text);
    let sought = chars_of(part);
    if sought.len() > whole.len() {
        return false;
    }
    let length = whole.len();
    let last = length - sought.len();
    let mut at: usize = 0;
    while at <= last
        invariant
            whole@ == text@,
            sought@ == part@,
            last == whole@.len() - sought@.len(),
            whole@.len() <= usize::MAX,
            at <= last + 1,
            forall|i: int|
                0 <= i < at ==> #[trigger] text@.subrange(i, i + part@.len()) != part@,
        decreases last + 1 - at,
    {
        let mut same: usize = 0;
        while same < sought.len() && whole[at + same] == sought[same]
            invariant
                whole@ == text@,
                sought@ == part@,
                at + sought@.len() <= whole@.len() <= usize::MAX,
                same <= sought@.len(),
                forall|j: int| 0 <= j < same ==> text@[at + j] == part@[j],
            decreases sought@.len() - same,
        {
            same = same + 1;
        }
        if same == sought.len() {
            assert(text@.subrange(at as int, at + part@.len()) =~= part@);
            return true;
        }
        assert(text@.subrange(at as int, at + part@.len())[same as int] != part@[same as int]);
        at = at + 1;
    }
    false
}

/// Joins the parts with the separator.
pub fn join(parts: &Vec<String>, separator: &str) -> (text: String)
    ensures
        text@ == joined(texts(parts@), separator@),
{
    let mut text = String::new();
    let ghost all = texts(parts@);
    for i in 0..parts.len()
        invariant
            all == texts(parts@),
            text@ == joined(all.take(i as int), separator@),
    {
        if i > 0 {
            text.append(separator);
        }
        text.append(parts[i].as_str());
        assert(all.take(i + 1).drop_last() =~= all.take(i as int));
        assert(all.take(i + 1).last() == parts@[i as int]@);
        assert(text@ =~= joined(all.take(i + 1), separator@));
    }
    assert(all.take(parts@.len() as int) =~= all);
    text
}

} // verus!
