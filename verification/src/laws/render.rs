//! The rendering that Python's `json.dumps` gives.

use vstd::prelude::*;
use crate::json::{integer, Json, Tree};
use crate::laws::text::digit_value;
use crate::render::{
    ascii_escape, ascii_escaped, ascii_json_string, ascii_json_text, high_surrogate, json_escape,
    json_escaped, lemma_four_digits, lemma_quoted_grows, lemma_quotes_stay, low_surrogate,
    python_items, python_json, python_members, python_string_coerce, unicode_escape,
};
use crate::text::{decimal_text, hex_digit, joined};

verus! {

/// The characters are a backslash, `u` and four hexadecimal digits in lower case.
pub open spec fn is_unit(text: Seq<char>) -> bool {
    text.len() == 6 && text[0] == '\\' && text[1] == 'u' && forall|i: int|
        2 <= i < 6 ==> 0 <= digit_value(#[trigger] text[i]) < 16
}

/// The 16-bit code that the four digits stand for.
pub open spec fn unit(text: Seq<char>) -> int {
    4096 * digit_value(text[2]) + 256 * digit_value(text[3]) + 16 * digit_value(text[4])
        + digit_value(text[5])
}

/// The character that stands behind a backslash for another character; itself where there is none.
pub open spec fn short_mark(character: char) -> char {
    let code = character as nat;
    if code == 8 {
        'b'
    } else if code == 9 {
        't'
    } else if code == 10 {
        'n'
    } else if code == 12 {
        'f'
    } else if code == 13 {
        'r'
    } else {
        character
    }
}

/// The text spells the character inside a JSON string in ASCII: quote and backslash behind a
/// backslash, five control characters by a letter behind a backslash, other characters outside
/// printable ASCII by their UTF-16 code units, and the rest of ASCII by themselves.
pub open spec fn spells(text: Seq<char>, character: char) -> bool {
    let code = character as int;
    if code == 34 || code == 92 || short_mark(character) != character {
        text == seq!['\\', short_mark(character)]
    } else if 32 <= code < 128 {
        text == seq![character]
    } else if code < 0x1_0000 {
        is_unit(text) && unit(text) == code
    } else {
        &&& text.len() == 12
        &&& is_unit(text.take(6))
        &&& is_unit(text.skip(6))
        &&& 0xd800 <= unit(text.take(6)) < 0xdc00
        &&& 0xdc00 <= unit(text.skip(6)) < 0xe000
        &&& code == 0x1_0000 + 1024 * (unit(text.take(6)) - 0xd800) + unit(text.skip(6)) - 0xdc00
    }
}

/// A hexadecimal digit stands for its value.
proof fn lemma_digit_value(value: nat)
    requires
        value < 16,
    ensures
        digit_value(hex_digit(value)) == value,
{
}

/// An escape by a code unit stands for the unit.
proof fn lemma_unit(code: nat)
    requires
        code <= 0xffff,
    ensures
        is_unit(unicode_escape(code)),
        unit(unicode_escape(code)) == code,
{
    lemma_digit_value(code / 4096 % 16);
    lemma_digit_value(code / 256 % 16);
    lemma_digit_value(code / 16 % 16);
    lemma_digit_value(code % 16);
    lemma_four_digits(code);
}

/// How a character is spelled.
proof fn lemma_spells(character: char)
    ensures
        spells(
            if json_escape(character) == seq![character] {
                ascii_escape(character)
            } else {
                json_escape(character)
            },
            character,
        ),
{
    let code = character as nat;
    let escape = json_escape(character);
    assert(seq!['\\', character].len() == 2);
    if code > 0xffff {
        assert(escape == seq![character]);
        let high = high_surrogate(code);
        let low = low_surrogate(code);
        lemma_unit(high);
        lemma_unit(low);
        let text = ascii_escape(character);
        assert(text.take(6) =~= unicode_escape(high));
        assert(text.skip(6) =~= unicode_escape(low));
    } else if code >= 0x80 {
        assert(escape == seq![character]);
        lemma_unit(code);
    } else if code < 0x20 {
        lemma_unit(code);
        assert(escape.len() != seq![character].len());
    } else if code == 34 || code == 92 {
        assert(escape.len() != seq![character].len());
    }
}

/// A string is quoted character by character: one more character puts its spelling ahead of the
/// closing quote and changes nothing else. The empty string is two quotes.
pub proof fn law_string_is_quoted_by_character(
    text: &str,
    longer: &str,
    character: char,
    quoted: String,
    more: String,
)
    requires
        longer@ == text@.push(character),
        call_ensures(ascii_json_string, (text,), quoted),
        call_ensures(ascii_json_string, (longer,), more),
    ensures
        text@.len() == 0 ==> quoted@ == seq!['"', '"'],
        2 <= quoted@.len() < more@.len(),
        quoted@[0] == '"' && quoted@.last() == '"',
        more@[0] == '"' && more@.last() == '"',
        more@.take(quoted@.len() - 1) == quoted@.drop_last(),
        spells(more@.subrange(quoted@.len() - 1, more@.len() - 1), character),
{
    lemma_quoted_grows(text@, character);
    lemma_quoted_grows(longer@, character);
    lemma_spells(character);
    let spelling = if json_escape(character) == seq![character] {
        ascii_escape(character)
    } else {
        json_escape(character)
    };
    assert(more@.subrange(quoted@.len() - 1, more@.len() - 1) =~= spelling);
    assert(more@.take(quoted@.len() - 1) =~= quoted@.drop_last());
    assert(spelling.len() > 0);
    if text@.len() == 0 {
        lemma_empty_quotes();
        assert(text@ =~= Seq::<char>::empty());
    }
}

/// The empty string is two quotes.
proof fn lemma_empty_quotes()
    ensures
        ascii_json_text(Seq::empty()) == seq!['"', '"'],
{
    let none = Seq::<char>::empty();
    lemma_quotes_stay(none);
    assert(json_escaped(none) =~= none);
    assert(ascii_escaped(none) =~= none);
    assert(seq!['"'] + none + seq!['"'] =~= seq!['"', '"']);
}

/// Null, the truth values, texts and integers are rendered as JSON has them.
pub proof fn law_plain_values_are_rendered_as_json(
    value: &Json,
    text: String,
    held: &str,
    quoted: String,
    magnitude: u64,
    digits: String,
    compact: String,
)
    requires
        call_ensures(python_json, (value,), text),
        call_ensures(Json::to_text, (value,), compact),
        call_ensures(ascii_json_string, (held,), quoted),
        call_ensures(decimal_text, (magnitude,), digits),
    ensures
        value@ is Null ==> text@ == "null"@,
        value@ == Tree::Bool(true) ==> text@ == "true"@,
        value@ == Tree::Bool(false) ==> text@ == "false"@,
        value@ == Tree::Text(held@) ==> text@ == quoted@,
        value@ is Number ==> text@ == compact@,
        value@ == integer(magnitude as int) ==> text@ == digits@,
        magnitude > 0 && value@ == integer(-(magnitude as int)) ==> text@ == seq!['-'] + digits@,
{
}

/// One more text behind others is joined to them by the separator.
proof fn lemma_joined_grows(parts: Seq<Seq<char>>, part: Seq<char>, separator: Seq<char>)
    ensures
        joined(parts.push(part), separator) == if parts.len() == 0 {
            part
        } else {
            joined(parts, separator) + separator + part
        },
{
    assert(parts.push(part).drop_last() =~= parts);
}

/// An array without items is a pair of brackets. One more item is rendered by itself ahead of the
/// closing bracket, behind a comma and a space if it is not the first.
pub proof fn law_array_is_rendered_item_by_item(
    array: &Json,
    longer: &Json,
    item: &Json,
    items: Seq<Tree>,
    text: String,
    more: String,
    part: String,
)
    requires
        array@ == Tree::Array(items),
        longer@ == Tree::Array(items.push(item@)),
        call_ensures(python_json, (array,), text),
        call_ensures(python_json, (longer,), more),
        call_ensures(python_json, (item,), part),
    ensures
        items.len() == 0 ==> text@ == seq!['[', ']'],
        more@ == text@.drop_last() + (if items.len() == 0 {
            Seq::empty()
        } else {
            seq![',', ' ']
        }) + part@ + seq![']'],
{
    reveal_strlit("[");
    reveal_strlit("]");
    reveal_strlit(", ");
    let parts = python_items(items);
    assert(python_items(items.push(item@)) =~= parts.push(part@));
    lemma_joined_grows(parts, part@, ", "@);
    assert(text@ =~= seq!['['] + joined(parts, ", "@) + seq![']']);
    assert(text@.drop_last() =~= seq!['['] + joined(parts, ", "@));
    assert(", "@ =~= seq![',', ' ']);
    if items.len() == 0 {
        assert(joined(parts, ", "@) =~= Seq::<char>::empty());
        assert(text@ =~= seq!['[', ']']);
    }
    assert(more@ =~= text@.drop_last() + (if items.len() == 0 {
        Seq::empty()
    } else {
        seq![',', ' ']
    }) + part@ + seq![']']);
}

/// An object without members is a pair of braces. One more member, behind the others, is rendered
/// ahead of the closing brace, behind a comma and a space if it is not the first: its key as a
/// string, a colon and a space, and its value by itself.
pub proof fn law_object_is_rendered_member_by_member(
    object: &Json,
    longer: &Json,
    members: Seq<(Seq<char>, Tree)>,
    key: &str,
    value: &Json,
    text: String,
    more: String,
    quoted: String,
    part: String,
)
    requires
        object@ == Tree::Object(members),
        longer@ == Tree::Object(members.push((key@, value@))),
        call_ensures(python_json, (object,), text),
        call_ensures(python_json, (longer,), more),
        call_ensures(ascii_json_string, (key,), quoted),
        call_ensures(python_json, (value,), part),
    ensures
        members.len() == 0 ==> text@ == seq!['{', '}'],
        more@ == text@.drop_last() + (if members.len() == 0 {
            Seq::empty()
        } else {
            seq![',', ' ']
        }) + quoted@ + seq![':', ' '] + part@ + seq!['}'],
{
    reveal_strlit("{");
    reveal_strlit("}");
    reveal_strlit(", ");
    reveal_strlit(": ");
    let parts = python_members(members);
    let entry = quoted@ + ": "@ + part@;
    assert(python_members(members.push((key@, value@))) =~= parts.push(entry));
    lemma_joined_grows(parts, entry, ", "@);
    assert(text@ =~= seq!['{'] + joined(parts, ", "@) + seq!['}']);
    assert(text@.drop_last() =~= seq!['{'] + joined(parts, ", "@));
    assert(", "@ =~= seq![',', ' ']);
    assert(": "@ =~= seq![':', ' ']);
    if members.len() == 0 {
        assert(joined(parts, ", "@) =~= Seq::<char>::empty());
        assert(text@ =~= seq!['{', '}']);
    }
    assert(more@ =~= text@.drop_last() + (if members.len() == 0 {
        Seq::empty()
    } else {
        seq![',', ' ']
    }) + quoted@ + seq![':', ' '] + part@ + seq!['}']);
}

/// By itself, null is nothing, a truth value has Python's name, a text is itself, and anything
/// else is its compact JSON.
pub proof fn law_values_by_themselves(value: &Json, text: String, compact: String)
    requires
        call_ensures(python_string_coerce, (value,), text),
        call_ensures(Json::to_text, (value,), compact),
    ensures
        value@ is Null ==> text@.len() == 0,
        value@ == Tree::Bool(true) ==> text@ == "True"@,
        value@ == Tree::Bool(false) ==> text@ == "False"@,
        value@ matches Tree::Text(held) ==> text@ == held,
        value@ is Number || value@ is Array || value@ is Object ==> text@ == compact@,
{
}

} // verus!
