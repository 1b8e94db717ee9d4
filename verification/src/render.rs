//! JSON rendered the way Python's `json.dumps` does it: a space behind separators, ASCII only.

use vstd::prelude::*;
use vstd::string::StringExecFns;
use vstd::utf8::is_ascii_chars;
use crate::json::{
    keys_ascend, lemma_item_smaller, lemma_member_smaller, trees, well_formed, Json, Tree,
};
use crate::number::numeral_text;
use crate::text::{chars_of, hex_digit, hex_character, join, joined, texts};
use crate::wire::compact_text;

verus! {

/// How a JSON string spells a character: control characters, the quote and the backslash are
/// escaped, everything else stands for itself.
pub open spec fn json_escape(character: char) -> Seq<char> {
    if character == '"' || character == '\\' {
        seq!['\\', character]
    } else if character == '\u{8}' {
        seq!['\\', 'b']
    } else if character == '\t' {
        seq!['\\', 't']
    } else if character == '\n' {
        seq!['\\', 'n']
    } else if character == '\u{c}' {
        seq!['\\', 'f']
    } else if character == '\r' {
        seq!['\\', 'r']
    } else if (character as nat) < 0x20 {
        unicode_escape(character as nat)
    } else {
        seq![character]
    }
}

/// A backslash, `u` and the four hexadecimal digits of a 16-bit code.
pub open spec fn unicode_escape(code: nat) -> Seq<char> {
    seq![
        '\\',
        'u',
        hex_digit(code / 4096 % 16),
        hex_digit(code / 256 % 16),
        hex_digit(code / 16 % 16),
        hex_digit(code % 16),
    ]
}

/// The text with its characters escaped for a JSON string.
pub open spec fn json_escaped(text: Seq<char>) -> Seq<char>
    decreases text.len(),
{
    if text.len() == 0 {
        Seq::empty()
    } else {
        json_escaped(text.drop_last()) + json_escape(text.last())
    }
}

/// The text as a JSON string between quotes.
pub open spec fn json_quoted(text: Seq<char>) -> Seq<char> {
    seq!['"'] + json_escaped(text) + seq!['"']
}

/// How ASCII text spells a character: one outside ASCII is escaped by its UTF-16 code units.
pub open spec fn ascii_escape(character: char) -> Seq<char> {
    let code = character as nat;
    if code < 0x80 {
        seq![character]
    } else if code <= 0xffff {
        unicode_escape(code)
    } else {
        unicode_escape(high_surrogate(code)) + unicode_escape(low_surrogate(code))
    }
}

/// The first UTF-16 code unit of a character above the basic plane.
pub open spec fn high_surrogate(code: nat) -> nat {
    (0xd800 + (code - 0x1_0000) / 1024) as nat
}

/// The second UTF-16 code unit of a character above the basic plane.
pub open spec fn low_surrogate(code: nat) -> nat {
    (0xdc00 + (code - 0x1_0000) % 1024) as nat
}

/// The text with its characters escaped to ASCII.
pub open spec fn ascii_escaped(text: Seq<char>) -> Seq<char>
    decreases text.len(),
{
    if text.len() == 0 {
        Seq::empty()
    } else {
        ascii_escaped(text.drop_last()) + ascii_escape(text.last())
    }
}

/// The text as a JSON string in ASCII.
pub open spec fn ascii_json_text(text: Seq<char>) -> Seq<char> {
    ascii_escaped(json_quoted(text))
}

/// `serde_json::to_string`, on a string: the text between quotes, escaped as JSON demands and no
/// further. It does not fail.
#[verifier::external_body]
fn quote(text: &str) -> (quoted: Result<String, serde_json::Error>)
    ensures
        quoted is Ok,
        quoted->Ok_0@ == json_quoted(text@),
{
    serde_json::to_string(text)
}

/// The Unicode scalar value of a character.
fn code_of(character: char) -> (code: u32)
    ensures
        code as nat == character as nat,
        code <= 0x10_ffff,
{
    character as u32
}

/// Appends a backslash, `u` and four hexadecimal digits.
fn push_unicode_escape(text: &mut String, code: u32)
    requires
        code <= 0xffff,
    ensures
        final(text)@ == old(text)@ + unicode_escape(code as nat),
{
    text.push('\\');
    text.push('u');
    text.push(hex_character((code / 4096 % 16) as u8));
    text.push(hex_character((code / 256 % 16) as u8));
    text.push(hex_character((code / 16 % 16) as u8));
    text.push(hex_character((code % 16) as u8));
    assert(text@ =~= old(text)@ + unicode_escape(code as nat));
}

/// A spelling in ASCII is ASCII.
proof fn lemma_ascii_escape(character: char)
    ensures
        is_ascii_chars(ascii_escape(character)),
{
    let code = character as nat;
    if code > 0xffff {
        let first = unicode_escape(high_surrogate(code));
        let second = unicode_escape(low_surrogate(code));
        assert(is_ascii_chars(first));
        assert(is_ascii_chars(second));
    }
}

/// The text as a JSON string in ASCII: characters outside ASCII are written as `\u` escapes.
pub fn ascii_json_string(value: &str) -> (text: String)
    ensures
        text@ == ascii_json_text(value@),
        is_ascii_chars(text@),
{
    let quoted = match quote(value) {
        Ok(quoted) => quoted,
        Err(_) => "\"\"".to_owned(),
    };
    let characters = chars_of(quoted.as_str());
    let mut text = String::new();
    for i in 0..characters.len()
        invariant
            text@ == ascii_escaped(characters@.take(i as int)),
            is_ascii_chars(text@),
    {
        let character = characters[i];
        let ghost before = text@;
        let code = code_of(character);
        if code < 0x80 {
            text.push(character);
        } else if code <= 0xffff {
            push_unicode_escape(&mut text, code);
        } else {
            let adjusted: u32 = code - 0x1_0000;
            push_unicode_escape(&mut text, 0xd800 + adjusted / 1024);
            push_unicode_escape(&mut text, 0xdc00 + adjusted % 1024);
        }
        proof {
            lemma_ascii_escape(character);
            assert(characters@.take(i + 1).drop_last() =~= characters@.take(i as int));
            assert(text@ =~= before + ascii_escape(character));
        }
    }
    assert(characters@.take(characters@.len() as int) =~= characters@);
    text
}

/// Escaping to ASCII goes character by character.
proof fn lemma_ascii_escaped_parts(first: Seq<char>, second: Seq<char>)
    ensures
        ascii_escaped(first + second) == ascii_escaped(first) + ascii_escaped(second),
    decreases second.len(),
{
    if second.len() == 0 {
        assert(first + second =~= first);
        assert(ascii_escaped(first) + ascii_escaped(second) =~= ascii_escaped(first));
    } else {
        lemma_ascii_escaped_parts(first, second.drop_last());
        assert((first + second).drop_last() =~= first + second.drop_last());
        assert(ascii_escaped(first + second) =~= ascii_escaped(first) + ascii_escaped(second));
    }
}

/// ASCII text stays as it is.
proof fn lemma_ascii_kept(text: Seq<char>)
    requires
        is_ascii_chars(text),
    ensures
        ascii_escaped(text) == text,
    decreases text.len(),
{
    if text.len() > 0 {
        assert(is_ascii_chars(text.drop_last()));
        lemma_ascii_kept(text.drop_last());
        assert(text =~= text.drop_last() + seq![text.last()]);
    }
}

/// How a JSON string in ASCII spells a character.
#[verifier::opaque]
spec fn spelling(character: char) -> Seq<char> {
    ascii_escaped(json_escape(character))
}

/// A spelling is the escape that JSON demands, or else the one that ASCII demands.
proof fn lemma_spelling(character: char)
    ensures
        spelling(character) == if json_escape(character) == seq![character] {
            ascii_escape(character)
        } else {
            json_escape(character)
        },
        spelling(character).len() > 0,
{
    reveal(spelling);
    let escape = json_escape(character);
    if escape == seq![character] {
        assert(escape.drop_last() =~= Seq::<char>::empty());
        assert(ascii_escaped(escape.drop_last()) =~= Seq::<char>::empty());
        assert(ascii_escaped(escape) =~= ascii_escape(character));
    } else {
        lemma_ascii_kept(escape);
    }
}

/// What stands between the quotes begins with the spelling of the first character.
proof fn lemma_spelled_front(text: Seq<char>)
    requires
        text.len() > 0,
    ensures
        ascii_escaped(json_escaped(text)) == spelling(text[0]) + ascii_escaped(
            json_escaped(text.drop_first()),
        ),
    decreases text.len(),
{
    reveal(spelling);
    let front = text.drop_last();
    let last = json_escape(text.last());
    lemma_ascii_escaped_parts(json_escaped(front), last);
    if text.len() == 1 {
        assert(json_escaped(front) =~= Seq::<char>::empty());
        assert(json_escaped(text) =~= last);
        assert(ascii_escaped(json_escaped(text.drop_first())) =~= Seq::<char>::empty());
        assert(spelling(text[0]) + Seq::<char>::empty() =~= spelling(text[0]));
    } else {
        lemma_spelled_front(front);
        let rest = text.drop_first();
        assert(rest.drop_last() =~= front.drop_first());
        lemma_ascii_escaped_parts(json_escaped(front.drop_first()), last);
        assert(ascii_escaped(json_escaped(text)) =~= spelling(text[0]) + ascii_escaped(
            json_escaped(rest),
        ));
    }
}

/// Escapes of different codes differ.
proof fn lemma_unicode_escapes_differ(left: nat, right: nat)
    requires
        left <= 0xffff,
        right <= 0xffff,
        unicode_escape(left) == unicode_escape(right),
    ensures
        left == right,
{
    let one = unicode_escape(left);
    let other = unicode_escape(right);
    assert(one[2] == other[2] && one[3] == other[3] && one[4] == other[4] && one[5] == other[5]);
    lemma_hex_digits_differ(left / 4096 % 16, right / 4096 % 16);
    lemma_hex_digits_differ(left / 256 % 16, right / 256 % 16);
    lemma_hex_digits_differ(left / 16 % 16, right / 16 % 16);
    lemma_hex_digits_differ(left % 16, right % 16);
    lemma_four_digits(left);
    lemma_four_digits(right);
}

/// Hexadecimal digits of different values differ.
proof fn lemma_hex_digits_differ(left: nat, right: nat)
    requires
        left < 16,
        right < 16,
        hex_digit(left) == hex_digit(right),
    ensures
        left == right,
{
}

/// A 16-bit code is made up of its four hexadecimal digits.
pub(crate) proof fn lemma_four_digits(code: nat)
    requires
        code <= 0xffff,
    ensures
        code == 4096 * (code / 4096 % 16) + 256 * (code / 256 % 16) + 16 * (code / 16 % 16) + code
            % 16,
{
    let upper = code / 256;
    vstd::arithmetic::div_mod::lemma_div_denominator(code as int, 16, 16);
    vstd::arithmetic::div_mod::lemma_div_denominator(code as int, 256, 16);
    assert(code / 16 / 16 == upper);
    assert(upper / 16 == code / 4096);
    assert(code == 16 * (code / 16) + code % 16);
    assert(code / 16 == 16 * upper + code / 16 % 16);
    assert(upper == 16 * (code / 4096) + upper % 16);
    assert(code / 4096 < 16);
}

/// The first UTF-16 code unit in a spelling by code units: a surrogate for a character above the
/// basic plane, and the character itself otherwise.
proof fn lemma_first_unit(character: char) -> (unit: nat)
    requires
        spelling(character).len() > 1,
        spelling(character)[1] == 'u',
    ensures
        unit <= 0xffff,
        spelling(character).take(6) == unicode_escape(unit),
        character as nat > 0xffff ==> 0xd800 <= unit < 0xdc00 && unit == high_surrogate(
            character as nat,
        ) && spelling(character) == unicode_escape(unit) + unicode_escape(
            low_surrogate(character as nat),
        ) && low_surrogate(character as nat) <= 0xffff,
        character as nat <= 0xffff ==> unit == character as nat && !(0xd800 <= unit < 0xe000)
            && spelling(character) == unicode_escape(unit),
{
    lemma_spelling(character);
    let code = character as nat;
    let unit = if code > 0xffff {
        high_surrogate(code)
    } else {
        code
    };
    assert(unicode_escape(unit).take(6) =~= unicode_escape(unit));
    assert(spelling(character).take(6) =~= unicode_escape(unit));
    unit
}

/// The character that a short escape stands for.
spec fn short_escaped(mark: char) -> char {
    if mark == 'b' {
        '\u{8}'
    } else if mark == 't' {
        '\t'
    } else if mark == 'n' {
        '\n'
    } else if mark == 'f' {
        '\u{c}'
    } else if mark == 'r' {
        '\r'
    } else {
        mark
    }
}

/// A spelling is the character itself, a short escape, or an escape by code units; its first two
/// characters tell which.
proof fn lemma_spelling_kinds(character: char)
    ensures
        ({
            let spelled = spelling(character);
            &&& spelled.len() > 0
            &&& spelled[0] != '\\' ==> spelled == seq![character]
            &&& spelled[0] == '\\' ==> spelled.len() >= 2
            &&& spelled[0] == '\\' && spelled[1] != 'u' ==> spelled.len() == 2
                && short_escaped(spelled[1]) == character
        }),
{
    lemma_spelling(character);
}

/// Spellings by code units that stand at the same place are of the same character.
proof fn lemma_units_tell(whole: Seq<char>, left: char, right: char)
    requires
        spelling(left).len() > 1,
        spelling(left)[1] == 'u',
        spelling(right).len() > 1,
        spelling(right)[1] == 'u',
        spelling(left).is_prefix_of(whole),
        spelling(right).is_prefix_of(whole),
    ensures
        left == right,
{
    let unit = lemma_first_unit(left);
    let other_unit = lemma_first_unit(right);
    let one = spelling(left);
    let other = spelling(right);
    assert(one.take(6).len() == 6 && other.take(6).len() == 6);
    assert(one.take(6) =~= whole.take(6));
    assert(other.take(6) =~= whole.take(6));
    lemma_unicode_escapes_differ(unit, other_unit);
    if left as nat > 0xffff {
        let low = low_surrogate(left as nat);
        let other_low = low_surrogate(right as nat);
        assert(one.subrange(6, 12) =~= unicode_escape(low));
        assert(other.subrange(6, 12) =~= unicode_escape(other_low));
        assert(one.subrange(6, 12) =~= whole.subrange(6, 12));
        assert(other.subrange(6, 12) =~= whole.subrange(6, 12));
        lemma_unicode_escapes_differ(low, other_low);
    }
}

/// No spelling begins another: texts that begin with spellings and are equal begin with the same
/// character.
proof fn lemma_spelling_is_prefix_free(
    left: char,
    left_rest: Seq<char>,
    right: char,
    right_rest: Seq<char>,
)
    requires
        spelling(left) + left_rest == spelling(right) + right_rest,
    ensures
        left == right,
        left_rest == right_rest,
{
    let one = spelling(left);
    let other = spelling(right);
    let whole = one + left_rest;
    lemma_spelling_kinds(left);
    lemma_spelling_kinds(right);
    assert(whole == other + right_rest);
    assert(whole[0] == one[0] && whole[0] == other[0]);
    if whole[0] == '\\' {
        assert(whole[1] == one[1] && whole[1] == other[1]);
        if whole[1] == 'u' {
            lemma_units_tell(whole, left, right);
        }
    }
    assert(left_rest =~= whole.skip(one.len() as int));
    assert(right_rest =~= whole.skip(other.len() as int));
}

/// Quoting in ASCII loses nothing: different texts are quoted differently.
pub proof fn law_ascii_quoting_loses_nothing(left: Seq<char>, right: Seq<char>)
    requires
        ascii_json_text(left) == ascii_json_text(right),
    ensures
        left == right,
{
    let one = ascii_escaped(json_escaped(left));
    let other = ascii_escaped(json_escaped(right));
    lemma_quotes_stay(left);
    lemma_quotes_stay(right);
    assert(one =~= ascii_json_text(left).drop_first().drop_last());
    assert(other =~= ascii_json_text(right).drop_first().drop_last());
    lemma_spelled_texts_differ(left, right);
}

/// The quotes stand around what is spelled.
pub(crate) proof fn lemma_quotes_stay(text: Seq<char>)
    ensures
        ascii_json_text(text) == seq!['"'] + ascii_escaped(json_escaped(text)) + seq!['"'],
{
    let quote = seq!['"'];
    lemma_ascii_kept(quote);
    lemma_ascii_escaped_parts(quote, json_escaped(text));
    lemma_ascii_escaped_parts(quote + json_escaped(text), quote);
}

/// Quoting one more character writes its spelling ahead of the closing quote.
pub(crate) proof fn lemma_quoted_grows(text: Seq<char>, character: char)
    ensures
        ascii_json_text(text).len() >= 2,
        ascii_json_text(text)[0] == '"',
        ascii_json_text(text).last() == '"',
        ascii_json_text(text.push(character)) == ascii_json_text(text).drop_last() + (
        if json_escape(character) == seq![character] {
            ascii_escape(character)
        } else {
            json_escape(character)
        }) + seq!['"'],
{
    reveal(spelling);
    let longer = text.push(character);
    lemma_quotes_stay(text);
    lemma_quotes_stay(longer);
    assert(longer.drop_last() =~= text);
    lemma_ascii_escaped_parts(json_escaped(text), json_escape(character));
    lemma_spelling(character);
    assert(ascii_json_text(text).drop_last() =~= seq!['"'] + ascii_escaped(json_escaped(text)));
    assert(ascii_json_text(longer) =~= ascii_json_text(text).drop_last() + spelling(character)
        + seq!['"']);
}

/// Different texts are spelled differently.
proof fn lemma_spelled_texts_differ(left: Seq<char>, right: Seq<char>)
    requires
        ascii_escaped(json_escaped(left)) == ascii_escaped(json_escaped(right)),
    ensures
        left == right,
    decreases left.len(),
{
    if left.len() > 0 {
        lemma_spelled_front(left);
        lemma_spelling(left[0]);
    }
    if right.len() > 0 {
        lemma_spelled_front(right);
        lemma_spelling(right[0]);
    }
    if left.len() > 0 && right.len() > 0 {
        lemma_spelling_is_prefix_free(
            left[0],
            ascii_escaped(json_escaped(left.drop_first())),
            right[0],
            ascii_escaped(json_escaped(right.drop_first())),
        );
        lemma_spelled_texts_differ(left.drop_first(), right.drop_first());
        assert(left =~= seq![left[0]] + left.drop_first());
        assert(right =~= seq![right[0]] + right.drop_first());
    } else if left.len() == 0 {
        assert(ascii_escaped(json_escaped(left)) =~= Seq::<char>::empty());
        assert(right.len() == 0);
        assert(left =~= right);
    } else {
        assert(ascii_escaped(json_escaped(right)) =~= Seq::<char>::empty());
    }
}

/// The rendering of a value: members by ascending key, `", "` and `": "` as separators.
pub open spec fn python_text(value: Tree) -> Seq<char>
    decreases value,
{
    match value {
        Tree::Null => "null"@,
        Tree::Bool(held) => if held {
            "true"@
        } else {
            "false"@
        },
        Tree::Number(number) => numeral_text(number),
        Tree::Text(text) => ascii_json_text(text),
        Tree::Array(items) => "["@ + joined(python_items(items), ", "@) + "]"@,
        Tree::Object(members) => "{"@ + joined(python_members(members), ", "@) + "}"@,
    }
}

/// The renderings of the items of an array.
pub open spec fn python_items(items: Seq<Tree>) -> Seq<Seq<char>>
    decreases items,
{
    Seq::new(
        items.len(),
        |i: int|
            if 0 <= i < items.len() {
                python_text(items[i])
            } else {
                Seq::empty()
            },
    )
}

/// The renderings of the members of an object.
pub open spec fn python_members(members: Seq<(Seq<char>, Tree)>) -> Seq<Seq<char>>
    decreases members,
{
    Seq::new(
        members.len(),
        |i: int|
            if 0 <= i < members.len() {
                ascii_json_text(members[i].0) + ": "@ + python_text(members[i].1)
            } else {
                Seq::empty()
            },
    )
}

/// A join of ASCII texts is ASCII.
proof fn lemma_joined_ascii(parts: Seq<Seq<char>>, separator: Seq<char>)
    requires
        is_ascii_chars(separator),
        forall|i: int| 0 <= i < parts.len() ==> is_ascii_chars(#[trigger] parts[i]),
    ensures
        is_ascii_chars(joined(parts, separator)),
    decreases parts.len(),
{
    if parts.len() > 1 {
        assert forall|i: int| 0 <= i < parts.len() - 1 implies is_ascii_chars(
            #[trigger] parts.drop_last()[i],
        ) by {
            assert(parts.drop_last()[i] == parts[i]);
        }
        lemma_joined_ascii(parts.drop_last(), separator);
    }
}

/// Renders a value: members by ascending key, a space behind each comma and colon, ASCII only.
/// The value is well formed, so that `law_python_rendering_reads_back` speaks of its rendering.
pub fn python_json(value: &Json) -> (text: String)
    ensures
        text@ == python_text(value@),
        is_ascii_chars(text@),
        well_formed(value@),
    decreases value@,
{
    proof {
        reveal_strlit("null");
        reveal_strlit("true");
        reveal_strlit("false");
        reveal_strlit("[");
        reveal_strlit("]");
        reveal_strlit("{");
        reveal_strlit("}");
        reveal_strlit(", ");
        reveal_strlit(": ");
    }
    match value {
        Json::Null => "null".to_owned(),
        Json::Bool(held) => if *held {
            "true".to_owned()
        } else {
            "false".to_owned()
        },
        Json::Number(number) => number.to_text(),
        Json::Text(text) => ascii_json_string(text.as_str()),
        Json::Array(values) => {
            let mut parts: Vec<String> = Vec::new();
            for i in 0..values.len()
                invariant
                    value@ == Tree::Array(trees(values@)),
                    texts(parts@) == python_items(trees(values@)).take(i as int),
                    forall|j: int| 0 <= j < i ==> is_ascii_chars(#[trigger] texts(parts@)[j]),
                    forall|j: int| 0 <= j < i ==> well_formed(#[trigger] trees(values@)[j]),
            {
                proof {
                    lemma_item_smaller(trees(values@), i as int);
                }
                let ghost before = texts(parts@);
                let ghost expected = python_items(trees(values@));
                parts.push(python_json(&values[i]));
                assert(texts(parts@) =~= before.push(parts@.last()@));
                assert(expected.take(i + 1) =~= expected.take(i as int).push(expected[i as int]));
            }
            let ghost expected = python_items(trees(values@));
            assert(expected.take(values@.len() as int) =~= expected);
            let mut text = "[".to_owned();
            text.append(join(&parts, ", ").as_str());
            text.append("]");
            proof {
                lemma_joined_ascii(expected, ", "@);
            }
            text
        },
        Json::Object(object) => {
            let mut parts: Vec<String> = Vec::new();
            let count = object.len();
            for i in 0..count
                invariant
                    value@ == Tree::Object(object@),
                    count == object@.len(),
                    keys_ascend(object@),
                    forall|j: int| 0 <= j < i ==> well_formed((#[trigger] object@[j]).1),
                    texts(parts@) == python_members(object@).take(i as int),
                    is_ascii_chars(": "@),
                    forall|j: int| 0 <= j < i ==> is_ascii_chars(#[trigger] texts(parts@)[j]),
            {
                proof {
                    lemma_member_smaller(object@, i as int);
                }
                let ghost before = texts(parts@);
                let ghost expected = python_members(object@);
                let mut part = ascii_json_string(object.key_at(i).as_str());
                part.append(": ");
                part.append(python_json(object.value_at(i)).as_str());
                parts.push(part);
                assert(texts(parts@) =~= before.push(parts@.last()@));
                assert(expected.take(i + 1) =~= expected.take(i as int).push(expected[i as int]));
            }
            let ghost expected = python_members(object@);
            assert(expected.take(count as int) =~= expected);
            let mut text = "{".to_owned();
            text.append(join(&parts, ", ").as_str());
            text.append("}");
            proof {
                lemma_joined_ascii(expected, ", "@);
            }
            text
        },
    }
}

/// The text of a value by itself: nothing for null, Python's names for the truth values, a text
/// as it is, compact JSON for everything else.
pub open spec fn coerced_text(value: Tree) -> Seq<char> {
    match value {
        Tree::Null => Seq::empty(),
        Tree::Bool(held) => if held {
            "True"@
        } else {
            "False"@
        },
        Tree::Text(text) => text,
        _ => compact_text(value),
    }
}

/// The text of a value by itself.
pub fn python_string_coerce(value: &Json) -> (text: String)
    ensures
        text@ == coerced_text(value@),
{
    match value {
        Json::Null => String::new(),
        Json::Bool(held) => if *held {
            "True".to_owned()
        } else {
            "False".to_owned()
        },
        Json::Text(text) => text.clone(),
        _ => value.to_text(),
    }
}

} // verus!
