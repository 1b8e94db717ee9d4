//! Texts.

use vstd::prelude::*;
use crate::text::{
    ascii_lowercase, contains_text, decimal_text, hex, hex_text, is_white_space, join,
    lemma_hex_length, lemma_text_less_total, lower, lowered, place, text_less, texts, trim,
    trimmed, trimmed_end, trimmed_start, Standing,
};

verus! {

/// A character of white space: the control characters from tab to carriage return, the space, the
/// next line, the no-break space, and the spaces and separators of Unicode's other blocks.
pub open spec fn blank(character: char) -> bool {
    let code = character as nat;
    (9 <= code && code <= 13) || code == 32 || code == 133 || code == 160 || code == 5760 || (8192
        <= code && code <= 8202) || code == 8232 || code == 8233 || code == 8239 || code == 8287
        || code == 12288
}

/// All of it is white space.
pub open spec fn all_blank(text: Seq<char>) -> bool {
    forall|i: int| 0 <= i < text.len() ==> blank(#[trigger] text[i])
}

/// White space is what Unicode calls so.
pub proof fn law_white_space(character: char, is: bool)
    requires
        call_ensures(is_white_space, (character,), is),
    ensures
        is <==> blank(character),
{
}

/// White space ahead of a text is trimmed, and nothing else.
pub(crate) proof fn lemma_trimmed_start(lead: Seq<char>, rest: Seq<char>)
    requires
        all_blank(lead),
        rest.len() > 0 ==> !blank(rest[0]),
    ensures
        trimmed_start(lead + rest) == rest,
    decreases lead.len(),
{
    let whole = lead + rest;
    if lead.len() > 0 {
        assert(blank(lead[0]));
        assert(whole.drop_first() =~= lead.drop_first() + rest);
        assert forall|i: int| 0 <= i < lead.len() - 1 implies blank(
            #[trigger] lead.drop_first()[i],
        ) by {
            assert(lead.drop_first()[i] == lead[i + 1]);
        }
        lemma_trimmed_start(lead.drop_first(), rest);
    } else {
        assert(whole =~= rest);
    }
}

/// White space behind a text is trimmed, and nothing else.
proof fn lemma_trimmed_end(rest: Seq<char>, trail: Seq<char>)
    requires
        all_blank(trail),
        rest.len() > 0 ==> !blank(rest.last()),
    ensures
        trimmed_end(rest + trail) == rest,
    decreases trail.len(),
{
    let whole = rest + trail;
    if trail.len() > 0 {
        assert(blank(trail[trail.len() - 1]));
        assert(whole.drop_last() =~= rest + trail.drop_last());
        assert forall|i: int| 0 <= i < trail.len() - 1 implies blank(
            #[trigger] trail.drop_last()[i],
        ) by {
            assert(trail.drop_last()[i] == trail[i]);
        }
        lemma_trimmed_end(rest, trail.drop_last());
    } else {
        assert(whole =~= rest);
    }
}

/// Trimming a text takes the white space around it, and nothing of what it surrounds.
pub(crate) proof fn lemma_trimmed(lead: Seq<char>, inner: Seq<char>, trail: Seq<char>)
    requires
        all_blank(lead),
        all_blank(trail),
        inner.len() > 0 ==> !blank(inner[0]) && !blank(inner.last()),
        inner.len() == 0 ==> trail.len() == 0,
    ensures
        trimmed(lead + inner + trail) == inner,
{
    assert(lead + inner + trail =~= lead + (inner + trail));
    lemma_trimmed_start(lead, inner + trail);
    lemma_trimmed_end(inner, trail);
}

/// Trimming takes away the white space around a text, and nothing of what it surrounds.
pub proof fn law_trimming_takes_only_white_space(
    text: &str,
    trimmed_text: String,
    lead: Seq<char>,
    inner: Seq<char>,
    trail: Seq<char>,
)
    requires
        call_ensures(trim, (text,), trimmed_text),
        text@ == lead + inner + trail,
        all_blank(lead),
        all_blank(trail),
        inner.len() > 0 ==> !blank(inner[0]) && !blank(inner.last()),
    ensures
        trimmed_text@ == inner,
{
    if inner.len() > 0 {
        lemma_trimmed(lead, inner, trail);
    } else {
        let whole = lead + trail;
        assert(text@ =~= whole + inner + inner);
        assert(all_blank(whole));
        lemma_trimmed(whole, inner, inner);
    }
}

/// The characters are the same but for the case of an ASCII letter.
pub open spec fn same_letter(left: char, right: char) -> bool {
    ||| left == right
    ||| 65 <= left as nat <= 90 && right as nat == left as nat + 32
    ||| 65 <= right as nat <= 90 && left as nat == right as nat + 32
}

/// The texts are the same but for the case of ASCII letters.
pub open spec fn same_letters(left: Seq<char>, right: Seq<char>) -> bool {
    left.len() == right.len() && forall|i: int|
        0 <= i < left.len() ==> same_letter(#[trigger] left[i], right[i])
}

/// Texts are the same but for the case of ASCII letters exactly if they are the same in lower
/// case.
pub(crate) proof fn lemma_same_letters(left: Seq<char>, right: Seq<char>)
    ensures
        same_letters(left, right) <==> lowered(left) == lowered(right),
{
    if lowered(left) == lowered(right) {
        assert(lowered(left).len() == left.len());
        assert(lowered(right).len() == right.len());
        assert forall|i: int| 0 <= i < left.len() implies same_letter(
            #[trigger] left[i],
            right[i],
        ) by {
            assert(lowered(left)[i] == lower(left[i]));
            assert(lowered(right)[i] == lower(right[i]));
            lemma_same_letter(left[i], right[i]);
        }
    }
    if same_letters(left, right) {
        assert forall|i: int| 0 <= i < left.len() implies lowered(left)[i] == lowered(right)[i] by {
            assert(same_letter(left[i], right[i]));
            lemma_same_letter(left[i], right[i]);
        }
        assert(lowered(left) =~= lowered(right));
    }
}

/// Characters are the same but for the case of an ASCII letter exactly if they are the same in
/// lower case.
proof fn lemma_same_letter(left: char, right: char)
    ensures
        same_letter(left, right) <==> lower(left) == lower(right),
{
}

/// Lower case changes ASCII capitals, to the letters that they are capitals of, and nothing else.
pub proof fn law_lower_case_changes_capitals_only(text: &str, lowercase: String, i: int)
    requires
        call_ensures(ascii_lowercase, (text,), lowercase),
        0 <= i < text@.len(),
    ensures
        lowercase@.len() == text@.len(),
        65 <= text@[i] as nat <= 90 ==> lowercase@[i] as nat == text@[i] as nat + 32,
        !(65 <= text@[i] as nat <= 90) ==> lowercase@[i] == text@[i],
{
    lemma_lower(text@[i]);
}

/// An ASCII capital is put in lower case by adding 32 to its code.
proof fn lemma_lower(character: char)
    ensures
        65 <= character as nat <= 90 ==> lower(character) as nat == character as nat + 32,
        !(65 <= character as nat <= 90) ==> lower(character) == character,
{
}

/// A text contains whatever stands in it between a part ahead and a part behind, and what it
/// contains stands there.
pub proof fn law_contained_text_stands_in_the_whole(text: &str, part: &str, found: bool)
    requires
        call_ensures(contains_text, (text, part), found),
    ensures
        found <==> exists|lead: Seq<char>, trail: Seq<char>|
            text@ == #[trigger] (lead + part@ + trail),
{
    if found {
        let at = choose|at: int|
            0 <= at <= text@.len() - part@.len() && #[trigger] text@.subrange(at, at + part@.len())
                == part@;
        let lead = text@.take(at);
        let trail = text@.skip(at + part@.len());
        assert(text@ =~= lead + part@ + trail);
    }
    if exists|lead: Seq<char>, trail: Seq<char>| text@ == #[trigger] (lead + part@ + trail) {
        let (lead, trail) = choose|lead: Seq<char>, trail: Seq<char>|
            text@ == #[trigger] (lead + part@ + trail);
        let at = lead.len() as int;
        assert(text@.subrange(at, at + part@.len()) =~= part@);
    }
}

/// Joining one more part appends the separator and the part; a first part stands alone.
pub proof fn law_joining_appends(
    parts: &Vec<String>,
    more: &Vec<String>,
    part: String,
    separator: &str,
    text: String,
    longer: String,
)
    requires
        more@ == parts@.push(part),
        call_ensures(join, (parts, separator), text),
        call_ensures(join, (more, separator), longer),
    ensures
        parts@.len() == 0 ==> text@.len() == 0 && longer@ == part@,
        parts@.len() > 0 ==> longer@ == text@ + separator@ + part@,
{
    let all = texts(more@);
    assert(all.drop_last() =~= texts(parts@));
    assert(all.last() == part@);
}

/// A number of one digit is that digit; any other is the number of its tens, and then its last
/// digit.
pub proof fn law_decimal_digits(value: u64, text: String, tens: String)
    requires
        call_ensures(decimal_text, (value,), text),
        call_ensures(decimal_text, ((value / 10) as u64,), tens),
    ensures
        text@.len() > 0,
        text@.last() as nat == 48 + value % 10,
        value < 10 ==> text@.len() == 1,
        value >= 10 ==> text@.drop_last() == tens@,
{
    if value >= 10 {
        assert(text@.drop_last() =~= tens@);
    }
}

/// What a hexadecimal digit in lower case stands for.
pub open spec fn digit_value(character: char) -> int {
    if 48 <= character as nat <= 57 {
        character as int - 48
    } else if 97 <= character as nat <= 102 {
        character as int - 87
    } else {
        -1
    }
}

/// Each byte is written by two hexadecimal digits in lower case, its upper half first.
pub proof fn law_hexadecimal_digits(bytes: &Vec<u8>, text: String, i: int)
    requires
        call_ensures(hex_text, (bytes,), text),
        0 <= i < bytes@.len(),
    ensures
        text@.len() == 2 * bytes@.len(),
        0 <= digit_value(text@[2 * i]) < 16,
        0 <= digit_value(text@[2 * i + 1]) < 16,
        bytes@[i] == 16 * digit_value(text@[2 * i]) + digit_value(text@[2 * i + 1]),
{
    lemma_hex_length(bytes@);
    lemma_hex_at(bytes@, i);
}

/// Where the digits of a byte stand.
proof fn lemma_hex_at(bytes: Seq<u8>, i: int)
    requires
        0 <= i < bytes.len(),
    ensures
        hex(bytes).len() == 2 * bytes.len(),
        digit_value(hex(bytes)[2 * i]) == bytes[i] / 16,
        digit_value(hex(bytes)[2 * i + 1]) == bytes[i] % 16,
    decreases bytes.len(),
{
    lemma_hex_length(bytes);
    lemma_hex_length(bytes.drop_last());
    if i < bytes.len() - 1 {
        lemma_hex_at(bytes.drop_last(), i);
    }
}

/// Texts are compared by the first character in which they differ; a text stands behind those
/// that it begins with.
pub proof fn law_first_difference_decides(left: &str, right: &str, standing: Standing, same: int)
    requires
        call_ensures(place, (left, right), standing),
        0 <= same <= left@.len(),
        same <= right@.len(),
        forall|i: int| 0 <= i < same ==> #[trigger] left@[i] == right@[i],
    ensures
        left@ == right@ <==> standing is Same,
        same == left@.len() && same < right@.len() ==> standing is Before,
        same == right@.len() && same < left@.len() ==> standing is After,
        same < left@.len() && same < right@.len() && (left@[same] as nat) < right@[same] as nat
            ==> standing is Before,
        same < left@.len() && same < right@.len() && (left@[same] as nat) > right@[same] as nat
            ==> standing is After,
{
    lemma_text_less_total(left@, right@, left@);
    lemma_less_at(left@, right@, same);
    lemma_less_at(right@, left@, same);
}

/// A first difference decides the order.
proof fn lemma_less_at(left: Seq<char>, right: Seq<char>, same: int)
    requires
        0 <= same <= left.len(),
        same <= right.len(),
        forall|i: int| 0 <= i < same ==> #[trigger] left[i] == right[i],
    ensures
        same == left.len() && same < right.len() ==> text_less(left, right),
        same < left.len() && same < right.len() && (left[same] as nat) < right[same] as nat
            ==> text_less(left, right),
    decreases left.len(),
{
    if same > 0 {
        assert(left[0] == right[0]);
        assert forall|i: int| 0 <= i < same - 1 implies #[trigger] left.drop_first()[i]
            == right.drop_first()[i] by {
            assert(left[i + 1] == right[i + 1]);
        }
        lemma_less_at(left.drop_first(), right.drop_first(), same - 1);
    } else if left.len() > 0 && right.len() > 0 {
        lemma_code_order(left[0], right[0]);
    }
}

/// Characters are ordered by their codes.
proof fn lemma_code_order(left: char, right: char)
    ensures
        left < right <==> (left as nat) < right as nat,
{
}

} // verus!
