//! Server-sent events: cutting a byte stream into frames, and the public model in their data.

use vstd::prelude::*;
use vstd::slice::{slice_subrange, slice_to_vec};
use vstd::string::StringExecFns;
use vstd::utf8::{decode_utf8, encode_utf8, valid_utf8};
use crate::alias::{aliased, lemma_aliased_shape, rewrite_models};
use crate::framing::{
    clean_breaks, lemma_frame_stays_one, lemma_line_breaks_kept, lemma_line_feeds_kept,
    lemma_text_settles, line_breaks, line_feeds, lines_float_free, lines_printable, lines_read_back,
    printable,
};
use crate::json::{Json, Tree};
use crate::retry::{error_class, transport_error_class, TransportFlags};
use crate::text::{chars_of, same_text, skip_white_space, text_between, trimmed_start};
use crate::wire::{compact_text, nesting_limit, parsed_text, reads_back};

verus! {

/// The length of the blank line that starts at the position; 0 if none does.
pub open spec fn blank_line(bytes: Seq<u8>, at: int) -> int {
    if 0 <= at && at + 2 <= bytes.len() && bytes[at] == 10 && bytes[at + 1] == 10 {
        2
    } else if 0 <= at && at + 4 <= bytes.len() && bytes[at] == 13 && bytes[at + 1] == 10
        && bytes[at + 2] == 13 && bytes[at + 3] == 10 {
        4
    } else {
        0
    }
}

/// Where the frame that holds the position ends: behind the first blank line from there on.
pub open spec fn frame_end_from(bytes: Seq<u8>, at: int) -> Option<int>
    decreases bytes.len() - at,
{
    if at >= bytes.len() {
        None
    } else if blank_line(bytes, at) > 0 {
        Some(at + blank_line(bytes, at))
    } else {
        frame_end_from(bytes, at + 1)
    }
}

/// Where the first frame ends: behind the first blank line.
pub open spec fn frame_end(bytes: Seq<u8>) -> Option<int> {
    frame_end_from(bytes, 0)
}

/// The first complete frame of the buffer, and how many bytes it takes up.
pub fn next_sse_frame(buffer: &[u8]) -> (frame: Option<(Vec<u8>, usize)>)
    ensures
        match frame {
            Some((bytes, consumed)) => frame_end(buffer@) == Some(consumed as int) && consumed
                <= buffer@.len() && bytes@ == buffer@.take(consumed as int),
            None => frame_end(buffer@) is None,
        },
{
    let mut i: usize = 0;
    while i < buffer.len()
        invariant
            i <= buffer@.len(),
            frame_end(buffer@) == frame_end_from(buffer@, i as int),
        decreases buffer@.len() - i,
    {
        let left = buffer.len() - i;
        if left >= 2 && buffer[i] == 10 && buffer[i + 1] == 10 {
            return Some((slice_to_vec(slice_subrange(buffer, 0, i + 2)), i + 2));
        }
        if left >= 4 && buffer[i] == 13 && buffer[i + 1] == 10 && buffer[i + 2] == 13
            && buffer[i + 3] == 10 {
            return Some((slice_to_vec(slice_subrange(buffer, 0, i + 4)), i + 4));
        }
        i = i + 1;
    }
    None
}

/// The end of a frame lies behind it, within the bytes, behind a blank line; the frame holds no
/// other blank line.
pub proof fn lemma_frame_end_from(bytes: Seq<u8>, at: int)
    requires
        0 <= at,
    ensures
        match frame_end_from(bytes, at) {
            Some(end) => exists|start: int|
                #![trigger blank_line(bytes, start)]
                at <= start < end <= bytes.len() && blank_line(bytes, start) > 0 && end == start
                    + blank_line(bytes, start) && forall|i: int|
                    at <= i < start ==> #[trigger] blank_line(bytes, i) == 0,
            None => forall|i: int| at <= i ==> #[trigger] blank_line(bytes, i) == 0,
        },
    decreases bytes.len() - at,
{
    if at < bytes.len() && blank_line(bytes, at) == 0 {
        lemma_frame_end_from(bytes, at + 1);
        if let Some(end) = frame_end_from(bytes, at + 1) {
            let start = choose|start: int|
                #![trigger blank_line(bytes, start)]
                at + 1 <= start < end <= bytes.len() && blank_line(bytes, start) > 0 && end == start
                    + blank_line(bytes, start) && forall|i: int|
                    at + 1 <= i < start ==> #[trigger] blank_line(bytes, i) == 0;
            assert(blank_line(bytes, start) > 0);
        }
    } else if at < bytes.len() {
        assert(blank_line(bytes, at) > 0);
    }
}

/// A frame that begins with a blank line ends behind it.
proof fn lemma_frame_end_known(bytes: Seq<u8>, at: int, start: int)
    requires
        0 <= at <= start < bytes.len(),
        blank_line(bytes, start) > 0,
        forall|i: int| at <= i < start ==> #[trigger] blank_line(bytes, i) == 0,
    ensures
        frame_end_from(bytes, at) == Some(start + blank_line(bytes, start)),
    decreases start - at,
{
    if at < start {
        assert(blank_line(bytes, at) == 0);
        lemma_frame_end_known(bytes, at + 1, start);
    }
}

/// A complete frame stays the first frame whatever follows it.
pub proof fn law_complete_frame_is_final(bytes: Seq<u8>, later: Seq<u8>)
    requires
        frame_end(bytes) is Some,
    ensures
        frame_end(bytes + later) == frame_end(bytes),
{
    lemma_frame_end_from(bytes, 0);
    let end = frame_end(bytes)->Some_0;
    let start = choose|start: int|
        #![trigger blank_line(bytes, start)]
        0 <= start < end <= bytes.len() && blank_line(bytes, start) > 0 && end == start
            + blank_line(bytes, start) && forall|i: int|
            0 <= i < start ==> #[trigger] blank_line(bytes, i) == 0;
    let whole = bytes + later;
    assert forall|i: int| 0 <= i < start implies #[trigger] blank_line(whole, i) == 0 by {
        assert(blank_line(bytes, i) == 0);
    }
    assert(blank_line(whole, start) == blank_line(bytes, start));
    lemma_frame_end_known(whole, 0, start);
}

/// The complete frames of the bytes.
pub open spec fn frames(bytes: Seq<u8>) -> Seq<Seq<u8>>
    decreases bytes.len(),
{
    match frame_end(bytes) {
        Some(end) => if 0 < end <= bytes.len() {
            seq![bytes.take(end)] + frames(bytes.skip(end))
        } else {
            Seq::empty()
        },
        None => Seq::empty(),
    }
}

/// What follows the last complete frame.
pub open spec fn remainder(bytes: Seq<u8>) -> Seq<u8>
    decreases bytes.len(),
{
    match frame_end(bytes) {
        Some(end) => if 0 < end <= bytes.len() {
            remainder(bytes.skip(end))
        } else {
            bytes
        },
        None => bytes,
    }
}

/// Cutting a stream into frames loses nothing, adds nothing and reorders nothing.
pub proof fn law_framing_is_lossless(bytes: Seq<u8>)
    ensures
        frames(bytes).flatten() + remainder(bytes) == bytes,
    decreases bytes.len(),
{
    lemma_frame_end_from(bytes, 0);
    match frame_end(bytes) {
        Some(end) => {
            law_framing_is_lossless(bytes.skip(end));
            let first = seq![bytes.take(end)];
            let rest = frames(bytes.skip(end));
            assert((first + rest).first() == bytes.take(end));
            assert((first + rest).drop_first() =~= rest);
            assert(frames(bytes).flatten() =~= bytes.take(end) + rest.flatten());
            assert(bytes =~= bytes.take(end) + bytes.skip(end));
        },
        None => {
            assert(frames(bytes).flatten() =~= Seq::<u8>::empty());
        },
    }
}

/// Nothing that is held back holds a complete frame.
pub proof fn law_remainder_is_incomplete(bytes: Seq<u8>)
    ensures
        frame_end(remainder(bytes)) is None,
    decreases bytes.len(),
{
    lemma_frame_end_from(bytes, 0);
    if let Some(end) = frame_end(bytes) {
        law_remainder_is_incomplete(bytes.skip(end));
    }
}

/// How a stream is cut into chunks does not matter: the frames of the whole are those of the
/// first part, and then those of what was held back and the second part together.
pub proof fn law_chunking_does_not_matter(first: Seq<u8>, second: Seq<u8>)
    ensures
        frames(first + second) == frames(first) + frames(remainder(first) + second),
        remainder(first + second) == remainder(remainder(first) + second),
    decreases first.len(),
{
    lemma_frame_end_from(first, 0);
    match frame_end(first) {
        Some(end) => {
            law_complete_frame_is_final(first, second);
            law_chunking_does_not_matter(first.skip(end), second);
            assert((first + second).take(end) =~= first.take(end));
            assert((first + second).skip(end) =~= first.skip(end) + second);
            assert(frames(first + second) =~= frames(first) + frames(
                remainder(first) + second,
            ));
        },
        None => {
            assert(frames(first) + frames(first + second) =~= frames(first + second));
        },
    }
}

/// Each frame of a stream is one frame: it holds no other, and nothing behind it.
pub proof fn law_each_frame_is_whole(bytes: Seq<u8>)
    ensures
        forall|i: int|
            0 <= i < frames(bytes).len() ==> frame_end(#[trigger] frames(bytes)[i]) == Some(
                frames(bytes)[i].len() as int,
            ),
    decreases bytes.len(),
{
    lemma_frame_end_from(bytes, 0);
    if let Some(end) = frame_end(bytes) {
        let first = bytes.take(end);
        let start = choose|start: int|
            #![trigger blank_line(bytes, start)]
            0 <= start < end <= bytes.len() && blank_line(bytes, start) > 0 && end == start
                + blank_line(bytes, start) && forall|i: int|
                0 <= i < start ==> #[trigger] blank_line(bytes, i) == 0;
        assert forall|i: int| 0 <= i < start implies #[trigger] blank_line(first, i) == 0 by {
            assert(blank_line(bytes, i) == 0);
        }
        assert(blank_line(first, start) == blank_line(bytes, start));
        lemma_frame_end_known(first, 0, start);
        law_each_frame_is_whole(bytes.skip(end));
        assert forall|i: int| 0 <= i < frames(bytes).len() implies frame_end(
            #[trigger] frames(bytes)[i],
        ) == Some(frames(bytes)[i].len() as int) by {
            if i > 0 {
                assert(frames(bytes)[i] == frames(bytes.skip(end))[i - 1]);
            }
        }
    }
}

/// Whole frames, sent one behind the other, are read as the same frames.
pub proof fn law_whole_frames_stay_apart(parts: Seq<Seq<u8>>)
    requires
        forall|i: int|
            0 <= i < parts.len() ==> frame_end(#[trigger] parts[i]) == Some(parts[i].len() as int),
    ensures
        frames(parts.flatten()) == parts,
        remainder(parts.flatten()) == Seq::<u8>::empty(),
    decreases parts.len(),
{
    if parts.len() == 0 {
        assert(parts.flatten() =~= Seq::<u8>::empty());
        assert(frames(parts.flatten()) =~= parts);
    } else {
        let first = parts[0];
        let rest = parts.drop_first();
        assert forall|i: int| 0 <= i < rest.len() implies frame_end(#[trigger] rest[i]) == Some(
            rest[i].len() as int,
        ) by {
            assert(rest[i] == parts[i + 1]);
        }
        law_whole_frames_stay_apart(rest);
        law_complete_frame_is_final(first, rest.flatten());
        lemma_frame_end_from(first, 0);
        let whole = parts.flatten();
        assert(whole == first + rest.flatten());
        assert(whole.take(first.len() as int) =~= first);
        assert(whole.skip(first.len() as int) =~= rest.flatten());
        assert(frames(whole) =~= parts);
    }
}

/// Where the first line ends: behind the first line feed, or with the text.
pub open spec fn line_end(text: Seq<char>) -> int
    decreases text.len(),
{
    if text.len() == 0 {
        0
    } else if text[0] == '\n' {
        1
    } else {
        1 + line_end(text.drop_first())
    }
}

/// The line without the carriage returns and line feeds that it ends with.
pub open spec fn line_core(line: Seq<char>) -> Seq<char>
    decreases line.len(),
{
    if line.len() > 0 && (line.last() == '\r' || line.last() == '\n') {
        line_core(line.drop_last())
    } else {
        line
    }
}

/// The line break of a line.
pub open spec fn line_break(line: Seq<char>) -> Seq<char> {
    if line.len() >= 2 && line[line.len() - 2] == '\r' && line.last() == '\n' {
        "\r\n"@
    } else if line.len() > 0 && line.last() == '\n' {
        "\n"@
    } else {
        ""@
    }
}

/// The data of a line that may be JSON: what follows `data:` and white space, unless it is the
/// mark of the end.
pub open spec fn line_data(line: Seq<char>) -> Option<Seq<char>> {
    let core = line_core(line);
    if "data:"@.is_prefix_of(core) {
        let data = trimmed_start(core.skip("data:"@.len() as int));
        if data == "[DONE]"@ {
            None
        } else {
            Some(data)
        }
    } else {
        None
    }
}

/// A line, given what its data reads as: JSON data is written anew with the public model in it,
/// anything else stays.
pub open spec fn line_with_data(line: Seq<char>, parsed: Option<Tree>) -> Seq<char> {
    match parsed {
        Some(value) => "data: "@ + compact_text(aliased(value)) + line_break(line),
        None => line_core(line) + line_break(line),
    }
}

/// A line with the public model in its data.
pub open spec fn rewritten_line(line: Seq<char>) -> Seq<char> {
    match line_data(line) {
        Some(data) => line_with_data(line, parsed_text(data)),
        None => line_with_data(line, None),
    }
}

/// The text, line by line, with the public model in the data.
pub open spec fn rewritten_text(text: Seq<char>) -> Seq<char>
    decreases text.len(),
{
    if text.len() == 0 {
        Seq::empty()
    } else {
        let end = line_end(text);
        if 0 < end <= text.len() {
            rewritten_line(text.take(end)) + rewritten_text(text.skip(end))
        } else {
            Seq::empty()
        }
    }
}

/// A frame with the public model in its data. A frame that is not UTF-8 stays as it is.
pub open spec fn rewritten_frame(frame: Seq<u8>) -> Seq<u8> {
    if valid_utf8(frame) {
        encode_utf8(rewritten_text(decode_utf8(frame)))
    } else {
        frame
    }
}

/// No line of the frame ends with a carriage return beside those of its line break.
pub open spec fn clean_frame(frame: Seq<u8>) -> bool {
    valid_utf8(frame) ==> clean_breaks(decode_utf8(frame))
}

/// `std::str::from_utf8`: the text whose UTF-8 bytes these are, if they are UTF-8.
#[verifier::external_body]
fn utf8_text(bytes: &[u8]) -> (text: Option<&str>)
    ensures
        match text {
            Some(held) => valid_utf8(bytes@) && encode_utf8(held@) == bytes@,
            None => !valid_utf8(bytes@),
        },
{
    std::str::from_utf8(bytes).ok()
}

/// The number of characters ahead of the carriage returns and line feeds that a line ends with.
fn core_length(line: &Vec<char>) -> (length: usize)
    ensures
        length <= line@.len(),
        line@.take(length as int) == line_core(line@),
{
    let mut length = line.len();
    assert(line@.take(length as int) =~= line@);
    while length > 0 && (line[length - 1] == '\r' || line[length - 1] == '\n')
        invariant
            length <= line@.len(),
            line_core(line@.take(length as int)) == line_core(line@),
        decreases length,
    {
        assert(line@.take(length as int).drop_last() =~= line@.take(length - 1));
        length = length - 1;
    }
    length
}

/// The data of a line that may be JSON.
pub fn sse_line_data(line: &str) -> (data: Option<String>)
    ensures
        match data {
            Some(held) => line_data(line@) == Some(held@),
            None => line_data(line@) is None,
        },
{
    let characters = chars_of(line);
    let length = core_length(&characters);
    let core = chars_of(text_between(&characters, 0, length).as_str());
    assert(core@ =~= line_core(line@));
    proof {
        reveal_strlit("data:");
        assert("data:"@ =~= seq!['d', 'a', 't', 'a', ':']);
    }
    if core.len() < 5 || core[0] != 'd' || core[1] != 'a' || core[2] != 't' || core[3] != 'a'
        || core[4] != ':' {
        return None;
    }
    assert("data:"@.is_prefix_of(core@));
    let start = skip_white_space(&core, 5);
    let data = text_between(&core, start, core.len());
    assert(data@ =~= core@.skip(start as int));
    if same_text(data.as_str(), "[DONE]") {
        None
    } else {
        Some(data)
    }
}

/// The line break of a line.
fn break_of(line: &Vec<char>) -> (text: &'static str)
    ensures
        text@ == line_break(line@),
{
    let length = line.len();
    if length >= 2 && line[length - 2] == '\r' && line[length - 1] == '\n' {
        "\r\n"
    } else if length > 0 && line[length - 1] == '\n' {
        "\n"
    } else {
        ""
    }
}

/// A line with the public model in its data, given what its data reads as. The new data is
/// printable, so that it stays on the line, and the rewritten value reads back from it.
pub fn rewrite_sse_line(line: &str, parsed: Option<Json>) -> (rewritten: String)
    ensures
        rewritten@ == line_with_data(
            line@,
            match parsed {
                Some(value) => Some(value@),
                None => None,
            },
        ),
        match parsed {
            Some(value) => printable(compact_text(aliased(value@))) && (reads_back(value@)
                ==> parsed_text(compact_text(aliased(value@))) == Some(aliased(value@))),
            None => true,
        },
{
    let characters = chars_of(line);
    let ending = break_of(&characters);
    match parsed {
        Some(value) => {
            let mut value = value;
            proof {
                lemma_aliased_shape(value@, nesting_limit());
            }
            rewrite_models(&mut value);
            let data = value.to_text();
            let mut rewritten = "data: ".to_owned();
            rewritten.append(data.as_str());
            rewritten.append(ending);
            rewritten
        },
        None => {
            let length = core_length(&characters);
            let mut rewritten = text_between(&characters, 0, length);
            assert(rewritten@ =~= line_core(line@));
            rewritten.append(ending);
            rewritten
        },
    }
}

/// The first line ends within the text.
pub proof fn lemma_line_end(text: Seq<char>)
    ensures
        text.len() > 0 ==> 0 < line_end(text),
        line_end(text) <= text.len(),
    decreases text.len(),
{
    if text.len() > 0 {
        lemma_line_end(text.drop_first());
    }
}

/// Where the line that begins at `start` ends.
fn find_line_end(characters: &Vec<char>, start: usize) -> (end: usize)
    requires
        start <= characters@.len(),
    ensures
        end == start + line_end(characters@.skip(start as int)),
        end <= characters@.len(),
{
    let mut end = start;
    proof {
        lemma_line_end(characters@.skip(start as int));
    }
    while end < characters.len()
        invariant
            start <= end <= characters@.len(),
            start + line_end(characters@.skip(start as int)) == end + line_end(
                characters@.skip(end as int),
            ),
        decreases characters@.len() - end,
    {
        if characters[end] == '\n' {
            return end + 1;
        }
        assert(characters@.skip(end as int).drop_first() =~= characters@.skip(end + 1));
        end = end + 1;
    }
    end
}

/// The JSON data of the frame holds no float.
pub open spec fn frame_float_free(frame: Seq<u8>) -> bool {
    valid_utf8(frame) ==> lines_float_free(decode_utf8(frame))
}

/// The frame with the public model in its data. What is written for the data stays on its line,
/// so that the frame keeps its line feeds. If its lines end with no carriage return beside those
/// of their line breaks, each line keeps its break, and one frame stays one frame. If its data
/// holds no float, rewriting the frame again changes nothing more.
pub fn rewrite_sse_frame(frame: &[u8]) -> (rewritten: Vec<u8>)
    ensures
        rewritten@ == rewritten_frame(frame@),
        valid_utf8(frame@) ==> lines_printable(decode_utf8(frame@)) && lines_read_back(
            decode_utf8(frame@),
        ),
        line_feeds(rewritten@) == line_feeds(frame@),
        valid_utf8(frame@) && clean_frame(frame@) ==> valid_utf8(rewritten@) && line_breaks(
            decode_utf8(rewritten@),
        ) == line_breaks(decode_utf8(frame@)),
        frame_end(frame@) == Some(frame@.len() as int) && clean_frame(frame@) ==> frame_end(
            rewritten@,
        ) == Some(rewritten@.len() as int),
        frame_float_free(frame@) ==> rewritten_frame(rewritten@) == rewritten@,
{
    let text = match utf8_text(frame) {
        Some(text) => text,
        None => {
            return slice_to_vec(frame);
        },
    };
    proof {
        vstd::utf8::encode_utf8_decode_utf8(text@);
    }
    let characters = chars_of(text);
    let mut output = String::new();
    let mut start: usize = 0;
    assert(characters@.skip(0) =~= characters@);
    assert(output@ + rewritten_text(text@) =~= rewritten_text(text@));
    while start < characters.len()
        invariant
            characters@ == text@,
            start <= characters@.len(),
            rewritten_text(text@) == output@ + rewritten_text(characters@.skip(start as int)),
            lines_printable(characters@.skip(start as int)) ==> lines_printable(text@),
            lines_read_back(characters@.skip(start as int)) ==> lines_read_back(text@),
        decreases characters@.len() - start,
    {
        let ghost left = characters@.skip(start as int);
        let ghost before = output@;
        let end = find_line_end(&characters, start);
        proof {
            lemma_line_end(left);
        }
        let line = text_between(&characters, start, end);
        assert(line@ =~= left.take(line_end(left)));
        assert(left.skip(line_end(left)) =~= characters@.skip(end as int));
        let parsed = match sse_line_data(line.as_str()) {
            Some(data) => Json::parse(data.as_str()),
            None => None,
        };
        output.append(rewrite_sse_line(line.as_str(), parsed).as_str());
        assert(output@ == before + rewritten_line(line@));
        assert(rewritten_text(left) == rewritten_line(line@) + rewritten_text(
            characters@.skip(end as int),
        ));
        assert(before + (rewritten_line(line@) + rewritten_text(characters@.skip(end as int)))
            =~= output@ + rewritten_text(characters@.skip(end as int)));
        start = end;
    }
    assert(output@ + rewritten_text(characters@.skip(start as int)) =~= output@);
    proof {
        vstd::utf8::encode_utf8_decode_utf8(output@);
        vstd::utf8::encode_utf8_valid_utf8(output@);
        lemma_line_feeds_kept(text@);
        if clean_breaks(text@) {
            lemma_line_breaks_kept(text@);
            if frame_end(frame@) == Some(frame@.len() as int) {
                lemma_frame_stays_one(text@);
            }
        }
        if lines_float_free(text@) {
            lemma_text_settles(text@);
        }
    }
    slice_to_vec(output.as_str().as_bytes())
}

/// The contents of a sequence of byte vectors.
pub open spec fn byte_views(parts: Seq<Vec<u8>>) -> Seq<Seq<u8>> {
    parts.map_values(|part: Vec<u8>| part@)
}

/// The frames with the public model in their data.
pub open spec fn rewritten_frames(parts: Seq<Seq<u8>>) -> Seq<Seq<u8>> {
    parts.map_values(|frame: Seq<u8>| rewritten_frame(frame))
}

/// No line of the frames ends with a carriage return beside those of its line break.
pub open spec fn clean_frames(parts: Seq<Seq<u8>>) -> bool {
    forall|i: int| 0 <= i < parts.len() ==> clean_frame(#[trigger] parts[i])
}

/// The bytes end with a blank line: two line feeds, or twice a carriage return and a line feed.
pub open spec fn ends_blank(bytes: Seq<u8>) -> bool {
    let n = bytes.len();
    ||| n >= 2 && bytes[n - 2] == 10 && bytes[n - 1] == 10
    ||| n >= 4 && bytes[n - 4] == 13 && bytes[n - 3] == 10 && bytes[n - 2] == 13 && bytes[n - 1]
        == 10
}

/// Nothing that the bytes begin with ends with a blank line.
pub open spec fn unfinished(bytes: Seq<u8>) -> bool {
    forall|m: int| 0 <= m <= bytes.len() ==> !ends_blank(#[trigger] bytes.take(m))
}

/// The bytes end with a blank line, and nothing shorter that they begin with does.
pub open spec fn whole_frame(bytes: Seq<u8>) -> bool {
    ends_blank(bytes) && forall|m: int|
        0 <= m < bytes.len() ==> !ends_blank(#[trigger] bytes.take(m))
}

/// A blank line at the end of a beginning is one that starts ahead of it.
proof fn lemma_blank_end(bytes: Seq<u8>, m: int)
    requires
        0 <= m <= bytes.len(),
    ensures
        ends_blank(bytes.take(m)) <==> (m >= 2 && blank_line(bytes, m - 2) == 2) || (m >= 4
            && blank_line(bytes, m - 4) == 4),
{
    let part = bytes.take(m);
    if m >= 2 {
        assert(part[m - 2] == bytes[m - 2] && part[m - 1] == bytes[m - 1]);
    }
    if m >= 4 {
        assert(part[m - 4] == bytes[m - 4] && part[m - 3] == bytes[m - 3]);
    }
}

/// The end of a frame is the end of the shortest beginning that ends with a blank line.
pub(crate) proof fn lemma_frame_end_is_first(bytes: Seq<u8>)
    ensures
        match frame_end(bytes) {
            Some(end) => 0 < end <= bytes.len() && ends_blank(bytes.take(end)) && forall|m: int|
                0 <= m < end ==> !ends_blank(#[trigger] bytes.take(m)),
            None => unfinished(bytes),
        },
{
    lemma_frame_end_from(bytes, 0);
    match frame_end(bytes) {
        Some(end) => {
            let start = choose|start: int|
                #![trigger blank_line(bytes, start)]
                0 <= start < end <= bytes.len() && blank_line(bytes, start) > 0 && end == start
                    + blank_line(bytes, start) && forall|i: int|
                    0 <= i < start ==> #[trigger] blank_line(bytes, i) == 0;
            lemma_blank_end(bytes, end);
            assert forall|m: int| 0 <= m < end implies !ends_blank(#[trigger] bytes.take(m)) by {
                lemma_blank_end(bytes, m);
                if m >= 2 && m - 2 < start {
                    assert(blank_line(bytes, m - 2) == 0);
                }
                if m >= 4 && m - 4 < start {
                    assert(blank_line(bytes, m - 4) == 0);
                }
            }
        },
        None => {
            assert forall|m: int| 0 <= m <= bytes.len() implies !ends_blank(
                #[trigger] bytes.take(m),
            ) by {
                lemma_blank_end(bytes, m);
                if m >= 2 {
                    assert(blank_line(bytes, m - 2) == 0);
                }
                if m >= 4 {
                    assert(blank_line(bytes, m - 4) == 0);
                }
            }
        },
    }
}

/// The bytes of a stream are its frames, each up to its first blank line, and then what is
/// unfinished.
pub proof fn law_frames_are_cut_at_blank_lines(bytes: Seq<u8>)
    ensures
        frames(bytes).flatten() + remainder(bytes) == bytes,
        forall|i: int| 0 <= i < frames(bytes).len() ==> whole_frame(#[trigger] frames(bytes)[i]),
        unfinished(remainder(bytes)),
{
    law_framing_is_lossless(bytes);
    law_each_frame_is_whole(bytes);
    law_remainder_is_incomplete(bytes);
    lemma_frame_end_is_first(remainder(bytes));
    assert forall|i: int| 0 <= i < frames(bytes).len() implies whole_frame(
        #[trigger] frames(bytes)[i],
    ) by {
        let frame = frames(bytes)[i];
        lemma_frame_end_is_first(frame);
        assert(frame.take(frame.len() as int) =~= frame);
    }
}

/// Each of the bytes given out is what the frame at its place is rewritten to.
pub open spec fn rewritten_each(parts: Seq<Seq<u8>>, given: Seq<Vec<u8>>) -> bool {
    given.len() == parts.len() && forall|i: int|
        0 <= i < parts.len() ==> (#[trigger] given[i])@ == rewritten_frame(parts[i])
}

/// Rewrites an event stream that comes in chunks. Holds back what is not a complete frame yet.
pub struct SseRewriter {
    buffer: Vec<u8>,
}

impl SseRewriter {
    /// The bytes that are held back.
    pub closed spec fn view(self) -> Seq<u8> {
        self.buffer@
    }

    /// A rewriter at the start of a stream.
    pub fn new() -> (rewriter: SseRewriter)
        ensures
            rewriter@ == Seq::<u8>::empty(),
    {
        SseRewriter { buffer: Vec::new() }
    }

    /// Takes in a chunk and gives out the frames that it completes, rewritten. What was held
    /// back and the chunk are cut up to each blank line, each frame is given out rewritten, and
    /// what is unfinished is held back. Sent one behind the other, the frames are read as these
    /// frames.
    pub fn push(&mut self, chunk: &[u8]) -> (complete: Vec<Vec<u8>>)
        ensures
            byte_views(complete@) == rewritten_frames(frames(old(self)@ + chunk@)),
            final(self)@ == remainder(old(self)@ + chunk@),
            exists|parts: Seq<Seq<u8>>|
                {
                    &&& #[trigger] parts.flatten() + final(self)@ == old(self)@ + chunk@
                    &&& forall|i: int| 0 <= i < parts.len() ==> whole_frame(#[trigger] parts[i])
                    &&& unfinished(final(self)@)
                    &&& rewritten_each(parts, complete@)
                },
            clean_frames(frames(old(self)@ + chunk@)) ==> frames(byte_views(complete@).flatten())
                == byte_views(complete@) && remainder(byte_views(complete@).flatten())
                == Seq::<u8>::empty(),
    {
        self.buffer.extend_from_slice(chunk);
        let ghost whole = old(self)@ + chunk@;
        assert(self.buffer@ =~= whole);
        let mut complete: Vec<Vec<u8>> = Vec::new();
        let ghost mut taken: Seq<Seq<u8>> = Seq::empty();
        assert(byte_views(complete@) + rewritten_frames(frames(whole)) =~= rewritten_frames(
            frames(whole),
        ));
        assert(taken + frames(whole) =~= frames(whole));
        loop
            invariant
                rewritten_frames(frames(whole)) == byte_views(complete@) + rewritten_frames(
                    frames(self.buffer@),
                ),
                remainder(whole) == remainder(self.buffer@),
                frames(whole) == taken + frames(self.buffer@),
                taken.len() == complete@.len(),
                forall|i: int|
                    0 <= i < taken.len() && clean_frame(#[trigger] taken[i]) ==> frame_end(
                        byte_views(complete@)[i],
                    ) == Some(byte_views(complete@)[i].len() as int),
            ensures
                rewritten_frames(frames(whole)) == byte_views(complete@),
                remainder(whole) == self.buffer@,
                frames(whole) == taken,
                taken.len() == complete@.len(),
                forall|i: int|
                    0 <= i < taken.len() && clean_frame(#[trigger] taken[i]) ==> frame_end(
                        byte_views(complete@)[i],
                    ) == Some(byte_views(complete@)[i].len() as int),
            decreases self.buffer@.len(),
        {
            match next_sse_frame(self.buffer.as_slice()) {
                Some((frame, consumed)) => {
                    let ghost before = self.buffer@;
                    let ghost given = byte_views(complete@);
                    let ghost earlier = taken;
                    proof {
                        lemma_frame_end_from(before, 0);
                        law_each_frame_is_whole(before);
                        assert(frames(before)[0] == frame@);
                        taken = taken.push(frame@);
                    }
                    complete.push(rewrite_sse_frame(frame.as_slice()));
                    let rest = self.buffer.split_off(consumed);
                    self.buffer = rest;
                    assert(self.buffer@ =~= before.skip(consumed as int));
                    assert(byte_views(complete@) =~= given.push(rewritten_frame(frame@)));
                    assert(rewritten_frames(frames(before)) =~= seq![rewritten_frame(frame@)]
                        + rewritten_frames(frames(self.buffer@)));
                    assert(given + rewritten_frames(frames(before)) =~= byte_views(complete@)
                        + rewritten_frames(frames(self.buffer@)));
                    assert(earlier + frames(before) =~= taken + frames(self.buffer@));
                    assert forall|i: int|
                        0 <= i < taken.len() && clean_frame(#[trigger] taken[i]) implies frame_end(
                        byte_views(complete@)[i],
                    ) == Some(byte_views(complete@)[i].len() as int) by {
                        if i < earlier.len() {
                            assert(taken[i] == earlier[i]);
                            assert(byte_views(complete@)[i] == given[i]);
                        }
                    }
                },
                None => {
                    assert(byte_views(complete@) + rewritten_frames(frames(self.buffer@))
                        =~= byte_views(complete@));
                    assert(taken + frames(self.buffer@) =~= taken);
                    break ;
                },
            }
        }
        proof {
            let parts = frames(whole);
            law_frames_are_cut_at_blank_lines(whole);
            assert(parts.flatten() + self.buffer@ == whole);
            assert forall|i: int| 0 <= i < parts.len() implies (#[trigger] complete@[i])@
                == rewritten_frame(parts[i]) by {
                assert(byte_views(complete@)[i] == rewritten_frames(parts)[i]);
            }
            assert(byte_views(complete@).len() == complete@.len());
            assert(rewritten_each(parts, complete@));
            if clean_frames(frames(whole)) {
                assert forall|i: int| 0 <= i < byte_views(complete@).len() implies frame_end(
                    #[trigger] byte_views(complete@)[i],
                ) == Some(byte_views(complete@)[i].len() as int) by {
                    assert(clean_frame(taken[i]));
                }
                law_whole_frames_stay_apart(byte_views(complete@));
            }
        }
        complete
    }

    /// Ends the stream and gives out what was held back, rewritten.
    pub fn finish(self) -> (last: Option<Vec<u8>>)
        ensures
            match last {
                Some(bytes) => self@.len() > 0 && bytes@ == rewritten_frame(self@),
                None => self@.len() == 0,
            },
    {
        if self.buffer.len() == 0 {
            None
        } else {
            Some(rewrite_sse_frame(self.buffer.as_slice()))
        }
    }

    /// Ends the stream because no more of it comes, and gives out the error that the client gets
    /// as the last of it. What was held back is not given out.
    pub fn fail(self, flags: TransportFlags) -> (text: String)
        ensures
            text@ == "C82 upstream stream failed: "@ + error_class(flags),
    {
        let mut text = "C82 upstream stream failed: ".to_owned();
        text.append(transport_error_class(flags));
        text
    }
}

/// What is held back once the chunks are taken in.
pub open spec fn held_back(chunks: Seq<Seq<u8>>) -> Seq<u8>
    decreases chunks.len(),
{
    if chunks.len() == 0 {
        Seq::empty()
    } else {
        remainder(held_back(chunks.drop_last()) + chunks.last())
    }
}

/// The frames that taking in the chunks one by one gives.
pub open spec fn streamed_frames(chunks: Seq<Seq<u8>>) -> Seq<Seq<u8>>
    decreases chunks.len(),
{
    if chunks.len() == 0 {
        Seq::empty()
    } else {
        streamed_frames(chunks.drop_last()) + frames(
            held_back(chunks.drop_last()) + chunks.last(),
        )
    }
}

/// The chunks as one sequence of bytes.
pub open spec fn all_bytes(chunks: Seq<Seq<u8>>) -> Seq<u8>
    decreases chunks.len(),
{
    if chunks.len() == 0 {
        Seq::empty()
    } else {
        all_bytes(chunks.drop_last()) + chunks.last()
    }
}

/// A stream is framed by its bytes alone, however they come in.
pub proof fn law_stream_is_framed_by_its_bytes(chunks: Seq<Seq<u8>>)
    ensures
        streamed_frames(chunks) == frames(all_bytes(chunks)),
        held_back(chunks) == remainder(all_bytes(chunks)),
    decreases chunks.len(),
{
    if chunks.len() > 0 {
        law_stream_is_framed_by_its_bytes(chunks.drop_last());
        law_chunking_does_not_matter(all_bytes(chunks.drop_last()), chunks.last());
    } else {
        assert(frame_end(Seq::<u8>::empty()) is None);
    }
}

/// What the client is sent of a stream that fails behind these chunks, ahead of the error.
pub open spec fn sent_when_failed(chunks: Seq<Seq<u8>>) -> Seq<Seq<u8>> {
    rewritten_frames(streamed_frames(chunks))
}

/// What the client is sent of a stream that these chunks are the whole of.
pub open spec fn sent_when_finished(chunks: Seq<Seq<u8>>) -> Seq<Seq<u8>> {
    rewritten_frames(streamed_frames(chunks)) + if held_back(chunks).len() > 0 {
        seq![rewritten_frame(held_back(chunks))]
    } else {
        Seq::empty()
    }
}

/// Of a stream that fails, the client is sent the complete frames of the bytes that came and
/// nothing of the rest; it is no more than it would have been sent had the stream ended there.
pub proof fn law_failure_sends_complete_frames_only(chunks: Seq<Seq<u8>>)
    ensures
        sent_when_failed(chunks) == rewritten_frames(frames(all_bytes(chunks))),
        sent_when_failed(chunks).is_prefix_of(sent_when_finished(chunks)),
{
    law_stream_is_framed_by_its_bytes(chunks);
}

/// Behind a complete line nothing depends on it: the lines of a text are rewritten one by one.
pub proof fn law_lines_are_rewritten_one_by_one(first: Seq<char>, second: Seq<char>)
    requires
        first.len() > 0 ==> first.last() == '\n',
    ensures
        rewritten_text(first + second) == rewritten_text(first) + rewritten_text(second),
    decreases first.len(),
{
    if first.len() == 0 {
        assert(first + second =~= second);
        assert(rewritten_text(first) + rewritten_text(second) =~= rewritten_text(second));
    } else {
        lemma_line_end(first);
        lemma_line_end_closed(first, second);
        let end = line_end(first);
        let whole = first + second;
        let rest = first.skip(end);
        law_lines_are_rewritten_one_by_one(rest, second);
        assert(whole.take(end) =~= first.take(end));
        assert(whole.skip(end) =~= rest + second);
        assert(rewritten_text(whole) =~= rewritten_line(first.take(end)) + rewritten_text(
            rest + second,
        ));
        assert(rewritten_text(whole) =~= rewritten_text(first) + rewritten_text(second));
    }
}

/// A text with a line feed in it has its first line whatever follows.
proof fn lemma_line_end_closed(text: Seq<char>, later: Seq<char>)
    requires
        text.len() > 0,
        text.last() == '\n',
    ensures
        line_end(text + later) == line_end(text),
    decreases text.len(),
{
    if text[0] != '\n' {
        assert((text + later).drop_first() =~= text.drop_first() + later);
        lemma_line_end_closed(text.drop_first(), later);
    }
}

} // verus!
