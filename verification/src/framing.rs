//! What rewriting the lines of a frame keeps: it leaves one frame, with the line breaks that it
//! had, and there is nothing more to rewrite in it.

use vstd::prelude::*;
use vstd::utf8::{decode_utf8, encode_scalar, encode_utf8, valid_utf8};
use crate::alias::{
    aliased, law_rewriting_hides_models, law_rewriting_twice_is_rewriting_once, lemma_aliased_shape,
    same_but_models,
};
use crate::json::{float_free, lemma_item_smaller, Tree};
use crate::number::Numeral;
use crate::sse::{
    blank_line, clean_frame, frame_end, frame_end_from, lemma_frame_end_from, lemma_line_end,
    line_break, line_core, line_data, line_end, rewritten_frame, rewritten_line, rewritten_text,
};
use crate::text::{decimal, joined, trimmed_start, white_space};
use crate::wire::{compact_items, compact_text, parsed_text};

verus! {

/// Nothing in the text is a control character of ASCII's first column.
pub open spec fn printable(text: Seq<char>) -> bool {
    forall|i: int| 0 <= i < text.len() ==> (#[trigger] text[i]) as nat >= 0x20
}

/// No line of the text ends with a carriage return beside those of its line break.
pub open spec fn clean_breaks(text: Seq<char>) -> bool
    decreases text.len(),
{
    if text.len() == 0 {
        true
    } else {
        let end = line_end(text);
        if 0 < end <= text.len() {
            line_core(text.take(end)) + line_break(text.take(end)) == text.take(end)
                && clean_breaks(text.skip(end))
        } else {
            false
        }
    }
}

/// What is written for the JSON data of a line is printable.
pub open spec fn line_printable(line: Seq<char>) -> bool {
    match line_data(line) {
        Some(data) => match parsed_text(data) {
            Some(value) => printable(compact_text(aliased(value))),
            None => true,
        },
        None => true,
    }
}

/// What is written for the JSON data of the lines is printable.
pub open spec fn lines_printable(text: Seq<char>) -> bool
    decreases text.len(),
{
    if text.len() == 0 {
        true
    } else {
        let end = line_end(text);
        if 0 < end <= text.len() {
            line_printable(text.take(end)) && lines_printable(text.skip(end))
        } else {
            false
        }
    }
}

/// A line with its line feed at the end and nowhere else.
pub open spec fn full_line(line: Seq<char>) -> bool {
    line.len() > 0 && line.last() == '\n' && forall|i: int|
        0 <= i < line.len() - 1 ==> #[trigger] line[i] != '\n'
}

/// The line ends with a carriage return and a line feed.
spec fn ends_with_crlf(line: Seq<char>) -> bool {
    line.len() >= 2 && line[line.len() - 2] == '\r' && line.last() == '\n'
}

/// The line is empty and closes the frame that the line before it belongs to.
spec fn closes_after(before: Seq<char>, line: Seq<char>) -> bool {
    line == seq!['\n'] || (ends_with_crlf(before) && line == seq!['\r', '\n'])
}

/// Behind the line, the text holds one line that closes the frame: its last.
spec fn closes_at_end(before: Seq<char>, text: Seq<char>) -> bool
    decreases text.len(),
{
    if text.len() == 0 {
        false
    } else {
        let end = line_end(text);
        if 0 < end <= text.len() {
            if closes_after(before, text.take(end)) {
                text.skip(end).len() == 0
            } else {
                closes_at_end(text.take(end), text.skip(end))
            }
        } else {
            false
        }
    }
}

/// A character has at least one byte; one of them is a line feed, or the last of them a carriage
/// return, only if the character is.
proof fn lemma_scalar_bytes(character: char)
    ensures
        ({
            let bytes = encode_scalar(character as u32);
            &&& bytes.len() > 0
            &&& character == '\n' ==> bytes == seq![10u8]
            &&& character == '\r' ==> bytes == seq![13u8]
            &&& character != '\n' ==> forall|i: int|
                0 <= i < bytes.len() ==> #[trigger] bytes[i] != 10
            &&& character != '\r' ==> bytes.last() != 13
        }),
{
    let scalar = character as u32;
    let bytes = encode_scalar(scalar);
    vstd::utf8::char_is_scalar(character);
    if scalar < 0x80 {
        assert((scalar & 0x7f) as u8 == scalar) by (bit_vector)
            requires
                scalar < 0x80,
        ;
        assert(bytes.len() == 1);
        assert(bytes[0] == scalar);
    } else {
        assert(0xC0u8 | ((scalar >> 6) & 0x1F) as u8 >= 0x80) by (bit_vector);
        assert(0xE0u8 | ((scalar >> 12) & 0x0F) as u8 >= 0x80) by (bit_vector);
        assert(0xF0u8 | ((scalar >> 18) & 0x7) as u8 >= 0x80) by (bit_vector);
        assert(0x80u8 | (scalar & 0x3F) as u8 >= 0x80) by (bit_vector);
        assert(0x80u8 | ((scalar >> 6) & 0x3F) as u8 >= 0x80) by (bit_vector);
        assert(0x80u8 | ((scalar >> 12) & 0x3F) as u8 >= 0x80) by (bit_vector);
        assert(forall|i: int| 0 <= i < bytes.len() ==> #[trigger] bytes[i] >= 0x80);
    }
}

/// The bytes of a text are those of its parts.
pub(crate) proof fn lemma_encode_parts(first: Seq<char>, second: Seq<char>)
    ensures
        encode_utf8(first + second) == encode_utf8(first) + encode_utf8(second),
    decreases first.len(),
{
    if first.len() == 0 {
        assert(first + second =~= second);
        assert(encode_utf8(first) + encode_utf8(second) =~= encode_utf8(second));
    } else {
        assert((first + second).drop_first() =~= first.drop_first() + second);
        lemma_encode_parts(first.drop_first(), second);
        assert(encode_utf8(first + second) =~= encode_utf8(first) + encode_utf8(second));
    }
}

/// The bytes of a text end with those of its last character.
proof fn lemma_encode_last(text: Seq<char>)
    requires
        text.len() > 0,
    ensures
        encode_utf8(text) == encode_utf8(text.drop_last()) + encode_scalar(text.last() as u32),
{
    let last = seq![text.last()];
    assert(text =~= text.drop_last() + last);
    lemma_encode_parts(text.drop_last(), last);
    assert(last.drop_first() =~= Seq::<char>::empty());
    assert(encode_utf8(last.drop_first()) =~= Seq::<u8>::empty());
    assert(encode_utf8(last) =~= encode_scalar(text.last() as u32));
}

/// A text without line feeds has none among its bytes.
proof fn lemma_no_line_feed(text: Seq<char>)
    requires
        forall|i: int| 0 <= i < text.len() ==> #[trigger] text[i] != '\n',
    ensures
        forall|i: int| 0 <= i < encode_utf8(text).len() ==> #[trigger] encode_utf8(text)[i] != 10,
        text.len() > 0 ==> encode_utf8(text).len() > 0,
    decreases text.len(),
{
    if text.len() > 0 {
        let front = text.drop_last();
        assert forall|i: int| 0 <= i < front.len() implies #[trigger] front[i] != '\n' by {
            assert(front[i] == text[i]);
        }
        lemma_no_line_feed(front);
        lemma_encode_last(text);
        lemma_scalar_bytes(text.last());
        assert(text[text.len() - 1] != '\n');
    }
}

/// The bytes of a full line: its line feed is the last and only one, and small lines and line
/// ends are told by their bytes.
proof fn lemma_full_line_bytes(line: Seq<char>)
    requires
        full_line(line),
    ensures
        ({
            let bytes = encode_utf8(line);
            &&& bytes.len() > 0
            &&& bytes.last() == 10
            &&& forall|i: int| 0 <= i < bytes.len() - 1 ==> #[trigger] bytes[i] != 10
            &&& bytes[0] == 10 <==> line == seq!['\n']
            &&& bytes.len() == 2 && bytes[0] == 13 <==> line == seq!['\r', '\n']
            &&& bytes.len() >= 2 && bytes[bytes.len() - 2] == 13 <==> ends_with_crlf(line)
        }),
{
    let bytes = encode_utf8(line);
    let front = line.drop_last();
    assert forall|i: int| 0 <= i < front.len() implies #[trigger] front[i] != '\n' by {
        assert(front[i] == line[i]);
    }
    lemma_no_line_feed(front);
    lemma_encode_last(line);
    lemma_scalar_bytes('\n');
    assert(bytes == encode_utf8(front).push(10));
    if front.len() == 0 {
        assert(encode_utf8(front) =~= Seq::<u8>::empty());
        assert(line =~= seq!['\n']);
    } else {
        assert(line.len() >= 2);
        let ahead = front.last();
        lemma_encode_last(front);
        lemma_scalar_bytes(ahead);
        lemma_scalar_bytes('\r');
        assert(ahead == line[line.len() - 2]);
        let rest = front.drop_last();
        if rest.len() == 0 {
            assert(encode_utf8(rest) =~= Seq::<u8>::empty());
            assert(line =~= seq![ahead, '\n']);
        } else {
            assert forall|i: int| 0 <= i < rest.len() implies #[trigger] rest[i] != '\n' by {
                assert(rest[i] == line[i]);
            }
            lemma_no_line_feed(rest);
        }
    }
}

/// Where no blank line starts, the search for the end of the frame moves on.
proof fn lemma_skip(bytes: Seq<u8>, start: int, end: int)
    requires
        0 <= start <= end <= bytes.len(),
        forall|i: int| start <= i < end ==> #[trigger] blank_line(bytes, i) == 0,
    ensures
        frame_end_from(bytes, start) == frame_end_from(bytes, end),
    decreases end - start,
{
    if start < end {
        assert(blank_line(bytes, start) == 0);
        lemma_skip(bytes, start + 1, end);
    }
}

/// Bytes ahead of where the search begins move its result and do nothing else.
proof fn lemma_shift(ahead: Seq<u8>, bytes: Seq<u8>, at: int)
    requires
        0 <= at <= bytes.len(),
    ensures
        frame_end_from(ahead + bytes, ahead.len() + at) == match frame_end_from(bytes, at) {
            Some(end) => Some(ahead.len() + end),
            None => None,
        },
    decreases bytes.len() - at,
{
    if at < bytes.len() {
        assert(blank_line(ahead + bytes, ahead.len() + at) == blank_line(bytes, at));
        if blank_line(bytes, at) == 0 {
            lemma_shift(ahead, bytes, at + 1);
        }
    }
}

/// A text whose bytes end with a line feed ends with one.
pub(crate) proof fn lemma_last_line_feed(text: Seq<char>)
    requires
        encode_utf8(text).len() > 0,
        encode_utf8(text).last() == 10,
    ensures
        text.len() > 0,
        text.last() == '\n',
{
    if text.len() > 0 {
        lemma_encode_last(text);
        lemma_scalar_bytes(text.last());
    }
}

/// Behind a full line comes the end of its frame, or the search goes on from the next line.
proof fn lemma_next_line(before: Seq<char>, line: Seq<char>, rest: Seq<u8>)
    requires
        full_line(before),
        full_line(line),
    ensures
        frame_end(encode_utf8(before) + (encode_utf8(line) + rest)) == if closes_after(
            before,
            line,
        ) {
            Some((encode_utf8(before).len() + encode_utf8(line).len()) as int)
        } else {
            match frame_end(encode_utf8(line) + rest) {
                Some(end) => Some(encode_utf8(before).len() + end),
                None => None,
            }
        },
{
    let first = encode_utf8(before);
    let second = encode_utf8(line);
    let tail = second + rest;
    let bytes = first + tail;
    lemma_full_line_bytes(before);
    lemma_full_line_bytes(line);
    let size = first.len() as int;
    assert(bytes[size - 1] == 10);
    assert forall|i: int| 0 <= i < size - 1 implies #[trigger] bytes[i] != 10 by {
        assert(bytes[i] == first[i]);
    }
    assert(bytes[size] == second[0]);
    assert forall|i: int| 0 <= i < size - 2 implies #[trigger] blank_line(bytes, i) == 0 by {
        assert(bytes[i] != 10);
        assert(bytes[i + 1] != 10);
    }
    if size >= 2 {
        assert(bytes[size - 2] != 10);
        assert(bytes[size - 2] == first[size - 2]);
    }
    if line == seq!['\n'] {
        if size >= 2 {
            assert(blank_line(bytes, size - 2) == 0);
        }
        assert(second.len() == 1);
        assert(blank_line(bytes, size - 1) == 2);
        lemma_skip(bytes, 0, size - 1);
    } else if closes_after(before, line) {
        assert(second.len() == 2);
        assert(bytes[size + 1] == second[1]);
        assert(blank_line(bytes, size - 2) == 4);
        lemma_skip(bytes, 0, size - 2);
    } else {
        assert(blank_line(bytes, size - 1) == 0);
        if size >= 2 {
            if bytes[size - 2] == 13 && bytes[size] == 13 && bytes.len() > size + 1 && bytes[size
                + 1] == 10 {
                assert(second.len() >= 2);
                assert(bytes[size + 1] == second[1]);
                if second.len() > 2 {
                    assert(second[1] != 10);
                }
            }
            assert(blank_line(bytes, size - 2) == 0);
        }
        lemma_skip(bytes, 0, size);
        lemma_shift(first, tail, 0);
    }
}

/// A full line is the first line of whatever it begins.
proof fn lemma_full_line_end(line: Seq<char>, rest: Seq<char>)
    requires
        full_line(line),
    ensures
        line_end(line + rest) == line.len(),
    decreases line.len(),
{
    if line.len() > 1 {
        assert(line[0] != '\n');
        let tail = line.drop_first();
        assert((line + rest).drop_first() =~= tail + rest);
        assert forall|i: int| 0 <= i < tail.len() - 1 implies #[trigger] tail[i] != '\n' by {
            assert(tail[i] == line[i + 1]);
        }
        lemma_full_line_end(tail, rest);
    }
}

/// The first line of a text that ends with a line feed is a full line, and the rest is empty or
/// ends with a line feed.
proof fn lemma_first_line(text: Seq<char>)
    requires
        text.len() > 0,
        text.last() == '\n',
    ensures
        0 < line_end(text) <= text.len(),
        full_line(text.take(line_end(text))),
        text.skip(line_end(text)).len() > 0 ==> text.skip(line_end(text)).last() == '\n',
        text == text.take(line_end(text)) + text.skip(line_end(text)),
    decreases text.len(),
{
    lemma_line_end(text);
    let end = line_end(text);
    assert(text =~= text.take(end) + text.skip(end));
    if text[0] != '\n' {
        let tail = text.drop_first();
        lemma_first_line(tail);
        let line = text.take(end);
        let part = tail.take(line_end(tail));
        assert(line.last() == part.last());
        assert forall|i: int| 0 <= i < line.len() - 1 implies #[trigger] line[i] != '\n' by {
            if i > 0 {
                assert(line[i] == part[i - 1]);
            }
        }
    }
}

/// Whether bytes are one frame is told by the lines of their text.
proof fn lemma_closes(before: Seq<char>, text: Seq<char>)
    requires
        full_line(before),
        text.len() > 0 ==> text.last() == '\n',
    ensures
        frame_end(encode_utf8(before) + encode_utf8(text)) == Some(
            (encode_utf8(before).len() + encode_utf8(text).len()) as int,
        ) <==> closes_at_end(before, text),
    decreases text.len(),
{
    let first = encode_utf8(before);
    if text.len() == 0 {
        lemma_full_line_bytes(before);
        assert(encode_utf8(text) =~= Seq::<u8>::empty());
        assert(first + encode_utf8(text) =~= first);
        assert forall|i: int| 0 <= i < first.len() implies #[trigger] blank_line(first, i) == 0 by {
            if i + 1 < first.len() {
                assert(first[i] != 10);
            }
        }
        lemma_skip(first, 0, first.len() as int);
    } else {
        lemma_first_line(text);
        let end = line_end(text);
        let line = text.take(end);
        let rest = text.skip(end);
        lemma_encode_parts(line, rest);
        lemma_next_line(before, line, encode_utf8(rest));
        lemma_closes(line, rest);
        if rest.len() == 0 {
            assert(encode_utf8(rest) =~= Seq::<u8>::empty());
        } else {
            lemma_first_line(rest);
            lemma_encode_parts(rest.take(line_end(rest)), rest.skip(line_end(rest)));
            lemma_full_line_bytes(rest.take(line_end(rest)));
        }
    }
}

/// Both are full lines, with the same line break, and the one is empty exactly if the other is.
spec fn alike(left: Seq<char>, right: Seq<char>) -> bool {
    &&& full_line(left)
    &&& full_line(right)
    &&& ends_with_crlf(left) == ends_with_crlf(right)
    &&& (left == seq!['\n']) == (right == seq!['\n'])
    &&& (left == seq!['\r', '\n']) == (right == seq!['\r', '\n'])
}

/// A clean full line is rewritten to a line alike.
proof fn lemma_rewritten_alike(line: Seq<char>)
    requires
        full_line(line),
        line_core(line) + line_break(line) == line,
        line_printable(line),
    ensures
        alike(line, rewritten_line(line)),
{
    reveal_strlit("data:");
    reveal_strlit("data: ");
    reveal_strlit("\r\n");
    reveal_strlit("\n");
    reveal_strlit("");
    if let Some(data) = line_data(line) {
        if let Some(value) = parsed_text(data) {
            let written = compact_text(aliased(value));
            let ending = line_break(line);
            let rewritten = rewritten_line(line);
            let body = "data: "@ + written;
            assert(rewritten == body + ending);
            assert("data:"@.len() == 5);
            assert(line_core(line).len() >= 5);
            assert(line.len() > 2);
            assert(forall|i: int| 0 <= i < "data: "@.len() ==> ("data: "@[i]) as nat >= 0x20);
            assert forall|i: int| 0 <= i < body.len() implies (#[trigger] body[i]) as nat
                >= 0x20 by {
                if i >= 6 {
                    assert(body[i] == written[i - 6]);
                }
            }
            assert(body.len() >= 6);
            if ends_with_crlf(line) {
                assert(ending =~= seq!['\r', '\n']);
            } else {
                assert(ending =~= seq!['\n']);
                assert(rewritten[rewritten.len() - 2] == body[body.len() - 1]);
            }
            assert forall|i: int| 0 <= i < rewritten.len() - 1 implies #[trigger] rewritten[i]
                != '\n' by {
                if i < body.len() {
                    assert(rewritten[i] == body[i]);
                }
            }
        }
    }
}

/// Rewriting keeps which line closes the frame.
proof fn lemma_rewritten_closes(before: Seq<char>, other: Seq<char>, text: Seq<char>)
    requires
        alike(before, other),
        text.len() > 0 ==> text.last() == '\n',
        clean_breaks(text),
        lines_printable(text),
    ensures
        closes_at_end(before, text) == closes_at_end(other, rewritten_text(text)),
        rewritten_text(text).len() > 0 ==> rewritten_text(text).last() == '\n',
        text.len() > 0 <==> rewritten_text(text).len() > 0,
    decreases text.len(),
{
    if text.len() > 0 {
        lemma_first_line(text);
        let end = line_end(text);
        let line = text.take(end);
        let rest = text.skip(end);
        lemma_rewritten_alike(line);
        lemma_rewritten_closes(line, rewritten_line(line), rest);
        let rewritten = rewritten_text(text);
        assert(rewritten == rewritten_line(line) + rewritten_text(rest));
        lemma_full_line_end(rewritten_line(line), rewritten_text(rest));
        assert(rewritten.take(line_end(rewritten)) =~= rewritten_line(line));
        assert(rewritten.skip(line_end(rewritten)) =~= rewritten_text(rest));
    }
}

/// One frame stays one frame: if the bytes of a text are one complete frame, so are the bytes of
/// the rewritten text.
pub(crate) proof fn lemma_frame_stays_one(text: Seq<char>)
    requires
        frame_end(encode_utf8(text)) == Some(encode_utf8(text).len() as int),
        clean_breaks(text),
        lines_printable(text),
    ensures
        frame_end(encode_utf8(rewritten_text(text))) == Some(
            encode_utf8(rewritten_text(text)).len() as int,
        ),
{
    let bytes = encode_utf8(text);
    lemma_frame_end_from(bytes, 0);
    let start = choose|start: int|
        #![trigger blank_line(bytes, start)]
        0 <= start < bytes.len() && blank_line(bytes, start) > 0 && bytes.len() == start
            + blank_line(bytes, start);
    assert(bytes.last() == 10);
    if text.len() == 0 {
        assert(bytes.len() == 0);
    }
    lemma_encode_last(text);
    lemma_scalar_bytes(text.last());
    assert(text.last() == '\n');
    lemma_first_line(text);
    let end = line_end(text);
    let line = text.take(end);
    let rest = text.skip(end);
    lemma_encode_parts(line, rest);
    lemma_closes(line, rest);
    lemma_rewritten_alike(line);
    let other = rewritten_line(line);
    lemma_rewritten_closes(line, other, rest);
    lemma_encode_parts(other, rewritten_text(rest));
    lemma_closes(other, rewritten_text(rest));
}

/// The line breaks of the lines, in order; that of a last line without one is empty.
pub open spec fn line_breaks(text: Seq<char>) -> Seq<Seq<char>>
    decreases text.len(),
{
    if text.len() == 0 {
        Seq::empty()
    } else {
        let end = line_end(text);
        if 0 < end <= text.len() {
            seq![line_break(text.take(end))] + line_breaks(text.skip(end))
        } else {
            Seq::empty()
        }
    }
}

/// The number of line feeds among the bytes.
pub open spec fn line_feeds(bytes: Seq<u8>) -> nat
    decreases bytes.len(),
{
    if bytes.len() == 0 {
        0
    } else {
        line_feeds(bytes.drop_last()) + if bytes.last() == 10 {
            1nat
        } else {
            0nat
        }
    }
}

/// The JSON data of a line holds no float.
pub open spec fn line_float_free(line: Seq<char>) -> bool {
    match line_data(line) {
        Some(data) => match parsed_text(data) {
            Some(value) => float_free(value),
            None => true,
        },
        None => true,
    }
}

/// The JSON data of the lines holds no float.
pub open spec fn lines_float_free(text: Seq<char>) -> bool
    decreases text.len(),
{
    if text.len() == 0 {
        true
    } else {
        let end = line_end(text);
        if 0 < end <= text.len() {
            line_float_free(text.take(end)) && lines_float_free(text.skip(end))
        } else {
            false
        }
    }
}

/// What is written for the JSON data of a line reads back, if it holds no float.
pub open spec fn line_reads_back(line: Seq<char>) -> bool {
    match line_data(line) {
        Some(data) => match parsed_text(data) {
            Some(value) => float_free(value) ==> parsed_text(compact_text(aliased(value))) == Some(
                aliased(value),
            ),
            None => true,
        },
        None => true,
    }
}

/// What is written for the JSON data of the lines reads back, if it holds no float.
pub open spec fn lines_read_back(text: Seq<char>) -> bool
    decreases text.len(),
{
    if text.len() == 0 {
        true
    } else {
        let end = line_end(text);
        if 0 < end <= text.len() {
            line_reads_back(text.take(end)) && lines_read_back(text.skip(end))
        } else {
            false
        }
    }
}

/// A text without a line feed, except that it may end with one.
pub open spec fn one_line(line: Seq<char>) -> bool {
    line.len() > 0 && forall|i: int| 0 <= i < line.len() - 1 ==> #[trigger] line[i] != '\n'
}

/// The first line of a text is one line, and nothing follows it if it has no line feed.
pub(crate) proof fn lemma_one_line(text: Seq<char>)
    requires
        text.len() > 0,
    ensures
        0 < line_end(text) <= text.len(),
        one_line(text.take(line_end(text))),
        text.take(line_end(text)).last() == '\n' || text.skip(line_end(text)).len() == 0,
        text == text.take(line_end(text)) + text.skip(line_end(text)),
    decreases text.len(),
{
    lemma_line_end(text);
    let end = line_end(text);
    assert(text =~= text.take(end) + text.skip(end));
    if text[0] != '\n' {
        let tail = text.drop_first();
        if tail.len() > 0 {
            lemma_one_line(tail);
            let line = text.take(end);
            let part = tail.take(line_end(tail));
            assert(line.last() == part.last());
            assert forall|i: int| 0 <= i < line.len() - 1 implies #[trigger] line[i] != '\n' by {
                if i > 0 {
                    assert(line[i] == part[i - 1]);
                }
            }
        }
    }
}

/// One line is the first line of what it begins, if nothing follows it or it has a line feed.
pub(crate) proof fn lemma_one_line_end(line: Seq<char>, rest: Seq<char>)
    requires
        one_line(line),
        line.last() == '\n' || rest.len() == 0,
    ensures
        line_end(line + rest) == line.len(),
    decreases line.len(),
{
    if line.len() > 1 {
        assert(line[0] != '\n');
        let tail = line.drop_first();
        assert((line + rest).drop_first() =~= tail + rest);
        assert forall|i: int| 0 <= i < tail.len() - 1 implies #[trigger] tail[i] != '\n' by {
            assert(tail[i] == line[i + 1]);
        }
        lemma_one_line_end(tail, rest);
    } else if line[0] != '\n' {
        let whole = line + rest;
        assert(whole[0] == line[0]);
        assert(whole.drop_first() =~= Seq::<char>::empty());
        assert(line_end(whole.drop_first()) == 0);
    }
}

/// The core of a line begins it, and ends with neither a carriage return nor a line feed.
pub(crate) proof fn lemma_line_core(line: Seq<char>)
    ensures
        line_core(line).len() <= line.len(),
        line_core(line) == line.take(line_core(line).len() as int),
        line_core(line).len() > 0 ==> line_core(line).last() != '\r' && line_core(line).last()
            != '\n',
        line.len() > 0 && line.last() == '\n' ==> line_core(line).len() < line.len(),
    decreases line.len(),
{
    if line.len() > 0 && (line.last() == '\r' || line.last() == '\n') {
        let front = line.drop_last();
        lemma_line_core(front);
        let length = line_core(front).len() as int;
        assert(front.take(length) =~= line.take(length));
    } else {
        assert(line =~= line.take(line.len() as int));
    }
}

/// A text that ends with neither a carriage return nor a line feed is the core of the line that
/// it makes with a line break, and the break is that line's break.
proof fn lemma_body_and_break(body: Seq<char>, line: Seq<char>)
    requires
        body.len() > 0 ==> body.last() != '\r' && body.last() != '\n',
    ensures
        line_core(body + line_break(line)) == body,
        line_break(body + line_break(line)) == line_break(line),
{
    reveal_strlit("\r\n");
    reveal_strlit("\n");
    reveal_strlit("");
    let ending = line_break(line);
    let whole = body + ending;
    assert(line_core(body) == body);
    if ending == "\r\n"@ {
        assert("\r\n"@ =~= seq!['\r', '\n']);
        assert(whole.drop_last().drop_last() =~= body);
        assert(whole.drop_last().last() == '\r');
        assert(line_core(whole.drop_last()) == body);
    } else if ending == "\n"@ {
        assert("\n"@ =~= seq!['\n']);
        assert(whole.drop_last() =~= body);
        if body.len() > 0 {
            assert(whole[whole.len() - 2] == body.last());
        }
        assert(line_break(whole) == "\n"@);
    } else {
        assert(ending =~= Seq::<char>::empty());
        assert(whole =~= body);
        assert(line_break(whole) =~= ending);
    }
}

/// What a line is rewritten to, ahead of its line break.
pub open spec fn rewritten_core(line: Seq<char>) -> Seq<char> {
    match line_data(line) {
        Some(data) => match parsed_text(data) {
            Some(value) => "data: "@ + compact_text(aliased(value)),
            None => line_core(line),
        },
        None => line_core(line),
    }
}

/// A rewritten line keeps the line's break, and is one line as far as there is anything of it.
pub(crate) proof fn lemma_rewritten_line(line: Seq<char>)
    requires
        one_line(line),
        line_printable(line),
    ensures
        rewritten_line(line) == rewritten_core(line) + line_break(line),
        line_core(rewritten_line(line)) == rewritten_core(line),
        line_break(rewritten_line(line)) == line_break(line),
        rewritten_line(line).len() > 0 ==> one_line(rewritten_line(line)),
        line.last() == '\n' ==> full_line(rewritten_line(line)),
        line.last() != '\n' ==> forall|i: int|
            0 <= i < rewritten_line(line).len() ==> #[trigger] rewritten_line(line)[i] != '\n',
{
    reveal_strlit("data: ");
    reveal_strlit("\r\n");
    reveal_strlit("\n");
    reveal_strlit("");
    lemma_line_core(line);
    let body = rewritten_core(line);
    let ending = line_break(line);
    let after = rewritten_line(line);
    assert(after =~= body + ending);
    assert forall|i: int| 0 <= i < body.len() implies #[trigger] body[i] != '\n' && (i
        == body.len() - 1 ==> body[i] != '\r') by {
        if body == line_core(line) {
            assert(body[i] == line[i]);
        } else {
            assert("data: "@ =~= seq!['d', 'a', 't', 'a', ':', ' ']);
            assert(line_data(line) is Some && parsed_text(line_data(line)->Some_0) is Some);
            let written = compact_text(aliased(parsed_text(line_data(line)->Some_0)->Some_0));
            if i >= 6 {
                assert(body[i] == written[i - 6]);
                assert(written[i - 6] as nat >= 0x20);
            }
        }
    }
    lemma_body_and_break(body, line);
    if line.last() == '\n' {
        assert(ending.last() == '\n');
        assert(after.last() == '\n');
        assert forall|i: int| 0 <= i < after.len() - 1 implies #[trigger] after[i] != '\n' by {
            if i < body.len() {
                assert(after[i] == body[i]);
            }
        }
    } else {
        assert(ending =~= Seq::<char>::empty());
        assert(after =~= body);
    }
}

/// A rewritten text begins with the rewritten first line, and its first line ends there.
pub(crate) proof fn lemma_rewritten_front(text: Seq<char>)
    requires
        text.len() > 0,
        lines_printable(text),
    ensures
        ({
            let line = text.take(line_end(text));
            let rest = text.skip(line_end(text));
            let after = rewritten_text(text);
            &&& one_line(line) && line_printable(line) && lines_printable(rest)
            &&& line.last() == '\n' || rest.len() == 0
            &&& after == rewritten_line(line) + rewritten_text(rest)
            &&& rewritten_line(line).len() == 0 ==> after.len() == 0
            &&& rewritten_line(line).len() > 0 ==> line_end(after) == rewritten_line(line).len()
                && after.take(line_end(after)) == rewritten_line(line) && after.skip(
                line_end(after),
            ) == rewritten_text(rest)
        }),
{
    lemma_one_line(text);
    let line = text.take(line_end(text));
    let rest = text.skip(line_end(text));
    let after = rewritten_text(text);
    let first = rewritten_line(line);
    lemma_rewritten_line(line);
    assert(after == first + rewritten_text(rest));
    if first.len() > 0 {
        lemma_one_line_end(first, rewritten_text(rest));
        assert(after.take(first.len() as int) =~= first);
        assert(after.skip(first.len() as int) =~= rewritten_text(rest));
    }
}

/// Each line keeps its line break.
pub(crate) proof fn lemma_line_breaks_kept(text: Seq<char>)
    requires
        clean_breaks(text),
        lines_printable(text),
    ensures
        line_breaks(rewritten_text(text)) == line_breaks(text),
    decreases text.len(),
{
    if text.len() > 0 {
        lemma_rewritten_front(text);
        let line = text.take(line_end(text));
        let rest = text.skip(line_end(text));
        lemma_rewritten_line(line);
        lemma_line_breaks_kept(rest);
        if rewritten_line(line).len() == 0 {
            reveal_strlit("data: ");
            assert(rewritten_core(line).len() == 0);
            assert(line =~= Seq::<char>::empty());
        }
    }
}

/// The line feeds of two runs of bytes are those of both together.
proof fn lemma_line_feeds_parts(first: Seq<u8>, second: Seq<u8>)
    ensures
        line_feeds(first + second) == line_feeds(first) + line_feeds(second),
    decreases second.len(),
{
    if second.len() == 0 {
        assert(first + second =~= first);
    } else {
        lemma_line_feeds_parts(first, second.drop_last());
        assert((first + second).drop_last() =~= first + second.drop_last());
    }
}

/// Bytes without line feeds have none.
proof fn lemma_no_line_feeds(bytes: Seq<u8>)
    requires
        forall|i: int| 0 <= i < bytes.len() ==> #[trigger] bytes[i] != 10,
    ensures
        line_feeds(bytes) == 0,
    decreases bytes.len(),
{
    if bytes.len() > 0 {
        assert forall|i: int| 0 <= i < bytes.len() - 1 implies #[trigger] bytes.drop_last()[i]
            != 10 by {
            assert(bytes.drop_last()[i] == bytes[i]);
        }
        lemma_no_line_feeds(bytes.drop_last());
        assert(bytes[bytes.len() - 1] != 10);
    }
}

/// A full line has one line feed.
proof fn lemma_full_line_feeds(line: Seq<char>)
    requires
        full_line(line),
    ensures
        line_feeds(encode_utf8(line)) == 1,
{
    let bytes = encode_utf8(line);
    lemma_full_line_bytes(line);
    let front = bytes.drop_last();
    assert forall|i: int| 0 <= i < front.len() implies #[trigger] front[i] != 10 by {
        assert(front[i] == bytes[i]);
    }
    lemma_no_line_feeds(front);
}

/// Rewriting adds no line feed and takes none away.
pub(crate) proof fn lemma_line_feeds_kept(text: Seq<char>)
    requires
        lines_printable(text),
    ensures
        line_feeds(encode_utf8(rewritten_text(text))) == line_feeds(encode_utf8(text)),
    decreases text.len(),
{
    if text.len() > 0 {
        lemma_one_line(text);
        lemma_rewritten_front(text);
        let line = text.take(line_end(text));
        let rest = text.skip(line_end(text));
        let first = rewritten_line(line);
        lemma_rewritten_line(line);
        lemma_line_feeds_kept(rest);
        lemma_encode_parts(line, rest);
        lemma_encode_parts(first, rewritten_text(rest));
        lemma_line_feeds_parts(encode_utf8(line), encode_utf8(rest));
        lemma_line_feeds_parts(encode_utf8(first), encode_utf8(rewritten_text(rest)));
        if line.last() == '\n' {
            lemma_full_line_feeds(line);
            lemma_full_line_feeds(first);
        } else {
            assert(line[line.len() - 1] != '\n');
            lemma_no_line_feed(line);
            lemma_no_line_feed(first);
            lemma_no_line_feeds(encode_utf8(line));
            lemma_no_line_feeds(encode_utf8(first));
        }
    }
}

/// Decimal digits begin with a digit.
proof fn lemma_decimal_start(value: nat)
    ensures
        decimal(value).len() > 0,
        0x30 <= decimal(value)[0] as nat <= 0x39,
    decreases value,
{
    if value >= 10 {
        lemma_decimal_start(value / 10);
    }
}

/// Texts that are joined begin with the first of them.
proof fn lemma_joined_start(parts: Seq<Seq<char>>, separator: Seq<char>)
    requires
        parts.len() > 0,
        parts[0].len() > 0,
    ensures
        joined(parts, separator).len() > 0,
        joined(parts, separator)[0] == parts[0][0],
    decreases parts.len(),
{
    if parts.len() > 1 {
        lemma_joined_start(parts.drop_last(), separator);
    }
}

/// Compact JSON begins with no white space, and is not the mark of the end.
pub(crate) proof fn lemma_compact_start(value: Tree)
    requires
        float_free(value),
    ensures
        compact_text(value).len() > 0,
        !white_space(compact_text(value)[0]),
        compact_text(value)[0] != 'D',
        compact_text(value) != "[DONE]"@,
    decreases value,
{
    reveal_strlit("null");
    reveal_strlit("true");
    reveal_strlit("false");
    reveal_strlit("[");
    reveal_strlit("]");
    reveal_strlit("{");
    reveal_strlit("}");
    reveal_strlit("[DONE]");
    let text = compact_text(value);
    assert("[DONE]"@.len() == 6 && "[DONE]"@[0] == '[' && "[DONE]"@[1] == 'D');
    match value {
        Tree::Number(number) => {
            if let Numeral::Integer(integer) = number {
                if integer < 0 {
                    lemma_decimal_start((-integer) as nat);
                    assert(text[0] == '-');
                } else {
                    lemma_decimal_start(integer as nat);
                }
            }
        },
        Tree::Text(held) => {
            assert(text[0] == '"');
        },
        Tree::Array(items) => {
            assert(text[0] == '[');
            if items.len() > 0 {
                lemma_item_smaller(items, 0);
                lemma_compact_start(items[0]);
                let parts = compact_items(items);
                lemma_joined_start(parts, ","@);
                assert(text[1] == joined(parts, ","@)[0]);
            } else {
                assert(text.len() == 2);
            }
        },
        Tree::Object(members) => {
            assert(text[0] == '{');
        },
        _ => {},
    }
}

/// A rewritten line is left as it is when it is rewritten again.
proof fn lemma_line_settles(line: Seq<char>)
    requires
        one_line(line),
        line_printable(line),
        line_reads_back(line),
        line_float_free(line),
    ensures
        rewritten_line(rewritten_line(line)) == rewritten_line(line),
{
    lemma_rewritten_line(line);
    let after = rewritten_line(line);
    if line_data(line) is Some && parsed_text(line_data(line)->Some_0) is Some {
        let value = parsed_text(line_data(line)->Some_0)->Some_0;
        let written = compact_text(aliased(value));
        lemma_aliased_shape(value, 0);
        lemma_compact_start(aliased(value));
        law_rewriting_twice_is_rewriting_once(value);
        reveal_strlit("data:");
        reveal_strlit("data: ");
        assert("data:"@ =~= seq!['d', 'a', 't', 'a', ':']);
        assert("data: "@ =~= seq!['d', 'a', 't', 'a', ':', ' ']);
        let core = line_core(after);
        assert("data:"@.is_prefix_of(core)) by {
            assert("data:"@ =~= core.take(5));
        }
        let tail = core.skip(5);
        assert(tail =~= seq![' '] + written);
        assert(tail.drop_first() =~= written);
        assert(trimmed_start(written) == written);
        assert(trimmed_start(tail) == written);
        assert(line_data(after) == Some(written));
    }
}

/// A rewritten text is left as it is when it is rewritten again.
pub(crate) proof fn lemma_text_settles(text: Seq<char>)
    requires
        lines_printable(text),
        lines_read_back(text),
        lines_float_free(text),
    ensures
        rewritten_text(rewritten_text(text)) == rewritten_text(text),
    decreases text.len(),
{
    if text.len() > 0 {
        lemma_rewritten_front(text);
        let line = text.take(line_end(text));
        lemma_line_settles(line);
        lemma_text_settles(text.skip(line_end(text)));
    }
}

/// Each carriage return stands directly ahead of a line feed.
pub open spec fn returns_paired(bytes: Seq<u8>) -> bool {
    forall|i: int|
        0 <= i < bytes.len() && #[trigger] bytes[i] == 13 ==> i + 1 < bytes.len() && bytes[i + 1]
            == 10
}

/// Each carriage return of the text stands directly ahead of a line feed.
spec fn text_returns_paired(text: Seq<char>) -> bool {
    forall|i: int|
        0 <= i < text.len() && #[trigger] text[i] == '\r' ==> i + 1 < text.len() && text[i + 1]
            == '\n'
}

/// Carriage returns that are paired among the bytes are paired in the text.
proof fn lemma_returns_paired(text: Seq<char>)
    requires
        returns_paired(encode_utf8(text)),
    ensures
        text_returns_paired(text),
    decreases text.len(),
{
    if text.len() > 0 {
        let first = encode_scalar(text[0] as u32);
        let tail = text.drop_first();
        let rest = encode_utf8(tail);
        let whole = encode_utf8(text);
        lemma_scalar_bytes(text[0]);
        assert(whole == first + rest);
        assert forall|i: int| 0 <= i < rest.len() && #[trigger] rest[i] == 13 implies i + 1
            < rest.len() && rest[i + 1] == 10 by {
            assert(whole[first.len() + i] == rest[i]);
            assert(whole[first.len() + i + 1] == 10);
        }
        lemma_returns_paired(tail);
        if text[0] == '\r' {
            assert(whole[0] == 13);
            assert(whole[1] == 10);
            if tail.len() > 0 {
                lemma_scalar_bytes(tail[0]);
                assert(rest == encode_scalar(tail[0] as u32) + encode_utf8(tail.drop_first()));
                assert(rest[0] == encode_scalar(tail[0] as u32)[0]);
            }
        }
        assert forall|i: int| 0 <= i < text.len() && #[trigger] text[i] == '\r' implies i + 1
            < text.len() && text[i + 1] == '\n' by {
            if i > 0 {
                assert(tail[i - 1] == '\r');
            }
        }
    }
}

/// Lines whose carriage returns are paired end with none beside those of their breaks.
proof fn lemma_paired_lines_are_clean(text: Seq<char>)
    requires
        text_returns_paired(text),
    ensures
        clean_breaks(text),
    decreases text.len(),
{
    if text.len() > 0 {
        lemma_one_line(text);
        let end = line_end(text);
        let line = text.take(end);
        let rest = text.skip(end);
        assert forall|i: int| 0 <= i < rest.len() && #[trigger] rest[i] == '\r' implies i + 1
            < rest.len() && rest[i + 1] == '\n' by {
            assert(text[end + i] == '\r');
        }
        lemma_paired_lines_are_clean(rest);
        assert forall|i: int| 0 <= i < line.len() && #[trigger] line[i] == '\r' implies i
            == line.len() - 2 && line.last() == '\n' by {
            assert(text[i] == '\r');
            assert(text[i + 1] == '\n');
        }
        reveal_strlit("\r\n");
        reveal_strlit("\n");
        reveal_strlit("");
        if line.last() == '\n' {
            let front = line.drop_last();
            if front.len() > 0 && front.last() == '\r' {
                assert(line[line.len() - 2] == '\r');
                let core = front.drop_last();
                if core.len() > 0 {
                    assert(core.last() == line[line.len() - 3]);
                }
                assert(line_core(core) == core);
                assert(line_core(front) == core);
                assert(line =~= core + seq!['\r', '\n']);
                assert("\r\n"@ =~= seq!['\r', '\n']);
            } else {
                if front.len() > 0 {
                    assert(front.last() == line[line.len() - 2]);
                }
                assert(line_core(front) == front);
                assert(line =~= front + seq!['\n']);
                assert("\n"@ =~= seq!['\n']);
            }
        } else {
            assert(line[line.len() - 1] != '\r');
            assert(line + ""@ =~= line);
        }
    }
}

/// A frame in which each carriage return stands directly ahead of a line feed has lines that end
/// with none beside those of their breaks.
pub proof fn law_paired_returns_are_clean(frame: Seq<u8>)
    requires
        returns_paired(frame),
    ensures
        clean_frame(frame),
{
    if valid_utf8(frame) {
        vstd::utf8::decode_utf8_encode_utf8(frame);
        lemma_returns_paired(decode_utf8(frame));
        lemma_paired_lines_are_clean(decode_utf8(frame));
    }
}

/// The lines are the same, or hold JSON data that differs under `model` members alone ahead of
/// the same line break.
pub open spec fn same_line_but_models(left: Seq<char>, right: Seq<char>) -> bool {
    left == right || (line_break(left) == line_break(right) && match (
        line_data(left),
        line_data(right),
    ) {
        (Some(data), Some(other)) => match (parsed_text(data), parsed_text(other)) {
            (Some(value), Some(other_value)) => same_but_models(value, other_value),
            _ => false,
        },
        _ => false,
    })
}

/// The texts are the same line by line, but for what stands under `model` members of JSON data.
pub open spec fn same_lines_but_models(left: Seq<char>, right: Seq<char>) -> bool
    decreases left.len(),
{
    if left.len() == 0 {
        right.len() == 0
    } else {
        let end = line_end(left);
        let other_end = line_end(right);
        0 < end <= left.len() && 0 < other_end <= right.len() && same_line_but_models(
            left.take(end),
            right.take(other_end),
        ) && same_lines_but_models(left.skip(end), right.skip(other_end))
    }
}

/// The texts are rewritten to the same text.
proof fn lemma_lines_hide_models(left: Seq<char>, right: Seq<char>)
    requires
        same_lines_but_models(left, right),
    ensures
        rewritten_text(left) == rewritten_text(right),
    decreases left.len(),
{
    if left.len() > 0 {
        let line = left.take(line_end(left));
        let other = right.take(line_end(right));
        if line != other {
            law_rewriting_hides_models(
                parsed_text(line_data(line)->Some_0)->Some_0,
                parsed_text(line_data(other)->Some_0)->Some_0,
            );
        }
        lemma_lines_hide_models(left.skip(line_end(left)), right.skip(line_end(right)));
    }
}

/// What stood under `model` members of a frame's data leaves no trace: frames that differ nowhere
/// else are rewritten to the same bytes.
pub proof fn law_frames_hide_models(left: Seq<u8>, right: Seq<u8>)
    requires
        valid_utf8(left),
        valid_utf8(right),
        same_lines_but_models(decode_utf8(left), decode_utf8(right)),
    ensures
        rewritten_frame(left) == rewritten_frame(right),
{
    lemma_lines_hide_models(decode_utf8(left), decode_utf8(right));
}

} // verus!
