//! Event streams.

use vstd::prelude::*;
use vstd::utf8::{decode_utf8, encode_utf8, valid_utf8};
use crate::alias::{aliased, lemma_aliased_shape};
use crate::framing::{
    lemma_compact_start, lemma_encode_parts, lemma_last_line_feed, lemma_one_line,
    lemma_one_line_end, lemma_rewritten_front, lemma_rewritten_line, line_float_free,
    line_printable, line_reads_back, lines_float_free, lines_printable, lines_read_back, one_line,
    rewritten_core,
};
use crate::json::{Json, Tree};
use crate::laws::alias::{law_value_is_public_and_else_unchanged, public};
use crate::laws::text::{all_blank, blank, lemma_trimmed_start};
use crate::sse::{
    ends_blank, frame_float_free, law_lines_are_rewritten_one_by_one, lemma_frame_end_is_first,
    line_break, line_core, line_data, line_end, next_sse_frame, rewrite_sse_frame,
    rewrite_sse_line, rewritten_line, rewritten_text, sse_line_data, unfinished, SseRewriter,
};
use crate::retry::{transport_error_class, TransportFlags};
use crate::text::trimmed_start;
use crate::wire::{compact_text, parsed_text};

verus! {

/// The first frame is the shortest beginning of the buffer that ends with a blank line; there is
/// none exactly if no beginning does.
pub proof fn law_first_frame_ends_at_the_first_blank_line(
    buffer: &[u8],
    frame: Option<(Vec<u8>, usize)>,
)
    requires
        call_ensures(next_sse_frame, (buffer,), frame),
    ensures
        match frame {
            Some((bytes, consumed)) => {
                &&& 0 < consumed <= buffer@.len()
                &&& bytes@ == buffer@.take(consumed as int)
                &&& ends_blank(bytes@)
                &&& forall|m: int| 0 <= m < consumed ==> !ends_blank(#[trigger] buffer@.take(m))
            },
            None => unfinished(buffer@),
        },
{
    lemma_frame_end_is_first(buffer@);
}

/// What ends a line: any number of carriage returns, and then a line feed or nothing.
pub open spec fn is_tail(tail: Seq<char>) -> bool {
    forall|i: int|
        0 <= i < tail.len() ==> #[trigger] tail[i] == '\r' || (tail[i] == '\n' && i == tail.len()
            - 1)
}

/// What is left of a line's end: its line feed, behind one carriage return if it had any.
pub open spec fn kept_tail(tail: Seq<char>) -> Seq<char> {
    if tail.len() == 0 || tail.last() != '\n' {
        Seq::empty()
    } else if tail.len() == 1 {
        seq!['\n']
    } else {
        seq!['\r', '\n']
    }
}

/// The characters of a line ahead of its end: no line feed, and no carriage return at the end.
pub open spec fn is_core(core: Seq<char>) -> bool {
    &&& forall|i: int| 0 <= i < core.len() ==> #[trigger] core[i] != '\n'
    &&& core.len() > 0 ==> core.last() != '\r'
}

/// The line carries this data: behind `data:` and white space.
pub open spec fn carries(core: Seq<char>, lead: Seq<char>, data: Seq<char>) -> bool {
    &&& core == "data:"@ + lead + data
    &&& all_blank(lead)
    &&& data.len() > 0 ==> !blank(data[0])
}

/// A line is made up of its core and its end.
proof fn lemma_core_and_tail(core: Seq<char>, tail: Seq<char>)
    requires
        is_core(core),
        is_tail(tail),
    ensures
        line_core(core + tail) == core,
        line_break(core + tail) == kept_tail(tail),
        (core + tail).len() > 0 ==> one_line(core + tail),
{
    reveal_strlit("\r\n");
    reveal_strlit("\n");
    reveal_strlit("");
    assert("\r\n"@ =~= seq!['\r', '\n']);
    assert("\n"@ =~= seq!['\n']);
    assert(""@ =~= Seq::<char>::empty());
    lemma_core_found(core, tail);
    let line = core + tail;
    assert forall|i: int| 0 <= i < line.len() - 1 implies #[trigger] line[i] != '\n' by {
        if i >= core.len() {
            assert(line[i] == tail[i - core.len()]);
        } else {
            assert(line[i] == core[i]);
        }
    }
    if tail.len() > 0 {
        assert(line.last() == tail[tail.len() - 1]);
        if tail.len() > 1 {
            assert(line[line.len() - 2] == tail[tail.len() - 2]);
        } else if core.len() > 0 {
            assert(line[line.len() - 2] == core[core.len() - 1]);
        }
    } else {
        assert(line =~= core);
        if core.len() > 0 {
            assert(core[core.len() - 1] != '\n');
        }
    }
}

/// The core of a line is what stands ahead of its end.
proof fn lemma_core_found(core: Seq<char>, tail: Seq<char>)
    requires
        is_core(core),
        is_tail(tail),
    ensures
        line_core(core + tail) == core,
    decreases tail.len(),
{
    let line = core + tail;
    if tail.len() > 0 {
        assert(tail[tail.len() - 1] == line.last());
        assert(line.drop_last() =~= core + tail.drop_last());
        assert forall|i: int| 0 <= i < tail.len() - 1 implies #[trigger] tail.drop_last()[i]
            == '\r' || (tail.drop_last()[i] == '\n' && i == tail.len() - 2) by {
            assert(tail.drop_last()[i] == tail[i]);
        }
        lemma_core_found(core, tail.drop_last());
    } else {
        assert(line =~= core);
        if core.len() > 0 {
            assert(core[core.len() - 1] != '\n');
        }
    }
}

/// The data of a line that carries some.
proof fn lemma_carried(line: Seq<char>, lead: Seq<char>, data: Seq<char>)
    requires
        carries(line_core(line), lead, data),
    ensures
        data != "[DONE]"@ ==> line_data(line) == Some(data),
        data == "[DONE]"@ ==> line_data(line) is None,
{
    reveal_strlit("data:");
    let core = line_core(line);
    assert(core.take(5) =~= "data:"@);
    assert("data:"@.is_prefix_of(core));
    assert(core.skip(5) =~= lead + data);
    lemma_trimmed_start(lead, data);
}

/// A line with data that may be JSON carries it.
proof fn lemma_data_is_carried(line: Seq<char>)
    requires
        "data:"@.is_prefix_of(line_core(line)),
    ensures
        exists|lead: Seq<char>, data: Seq<char>|
            #[trigger] carries(line_core(line), lead, data) && data == trimmed_start(
                line_core(line).skip("data:"@.len() as int),
            ),
{
    let core = line_core(line);
    let rest = core.skip("data:"@.len() as int);
    let lead = lemma_lead(rest);
    let data = trimmed_start(rest);
    assert(core =~= "data:"@ + rest);
    assert(core =~= "data:"@ + lead + data);
    assert(carries(core, lead, data));
}

/// The white space that a text begins with.
proof fn lemma_lead(text: Seq<char>) -> (lead: Seq<char>)
    ensures
        text == lead + trimmed_start(text),
        all_blank(lead),
        trimmed_start(text).len() > 0 ==> !blank(trimmed_start(text)[0]),
    decreases text.len(),
{
    if text.len() > 0 && blank(text[0]) {
        let tail = text.drop_first();
        let less = lemma_lead(tail);
        let lead = seq![text[0]] + less;
        assert(trimmed_start(text) == trimmed_start(tail));
        assert(text =~= seq![text[0]] + tail);
        assert(text =~= lead + trimmed_start(text));
        assert forall|i: int| 0 <= i < lead.len() implies blank(#[trigger] lead[i]) by {
            if i > 0 {
                assert(lead[i] == less[i - 1]);
            }
        }
        lead
    } else {
        assert(text =~= Seq::<char>::empty() + trimmed_start(text));
        Seq::empty()
    }
}

/// A text of one line is rewritten as its line is.
proof fn lemma_single_line(line: Seq<char>)
    requires
        one_line(line),
    ensures
        rewritten_text(line) == rewritten_line(line),
{
    let none = Seq::<char>::empty();
    assert(line + none =~= line);
    lemma_one_line_end(line, none);
    assert(line.take(line.len() as int) =~= line);
    assert(line.skip(line.len() as int) =~= none);
    assert(rewritten_text(none) =~= none);
    assert(rewritten_line(line) + none =~= rewritten_line(line));
}

/// Whatever line carries data other than the mark of the end that reads as a JSON value, however
/// long it is and whatever white space stands ahead of it, is written anew: `data: `, the compact
/// JSON of the value with its models rewritten, and the line's end.
pub proof fn law_json_data_is_written_anew(
    frame: &[u8],
    rewritten: Vec<u8>,
    lead: Seq<char>,
    data: Seq<char>,
    tail: Seq<char>,
    value: Tree,
)
    requires
        call_ensures(rewrite_sse_frame, (frame,), rewritten),
        frame@ == encode_utf8("data:"@ + lead + data + tail),
        carries("data:"@ + lead + data, lead, data),
        is_core("data:"@ + lead + data),
        is_tail(tail),
        data != "[DONE]"@,
        parsed_text(data) == Some(value),
    ensures
        rewritten@ == encode_utf8("data: "@ + compact_text(aliased(value)) + kept_tail(tail)),
{
    reveal_strlit("data:");
    let core = "data:"@ + lead + data;
    let line = core + tail;
    assert(core.len() >= 5);
    lemma_core_and_tail(core, tail);
    lemma_carried(line, lead, data);
    lemma_single_line(line);
    vstd::utf8::encode_utf8_valid_utf8(line);
    vstd::utf8::encode_utf8_decode_utf8(line);
    assert(rewritten_line(line) =~= "data: "@ + compact_text(aliased(value)) + kept_tail(tail));
}

/// A line that carries no data, or the mark of the end, or data that does not read as JSON, stays
/// as it is; of carriage returns at its end, at most one ahead of its line feed is kept.
pub proof fn law_other_lines_stay(
    frame: &[u8],
    rewritten: Vec<u8>,
    core: Seq<char>,
    tail: Seq<char>,
)
    requires
        call_ensures(rewrite_sse_frame, (frame,), rewritten),
        frame@ == encode_utf8(core + tail),
        is_core(core),
        is_tail(tail),
        forall|lead: Seq<char>, data: Seq<char>|
            #[trigger] carries(core, lead, data) ==> data == "[DONE]"@ || parsed_text(data) is None,
    ensures
        rewritten@ == encode_utf8(core + kept_tail(tail)),
{
    let line = core + tail;
    vstd::utf8::encode_utf8_valid_utf8(line);
    vstd::utf8::encode_utf8_decode_utf8(line);
    lemma_core_and_tail(core, tail);
    if line.len() == 0 {
        assert(core + kept_tail(tail) =~= line);
        assert(rewritten_text(line) =~= line);
    } else {
        lemma_single_line(line);
        if "data:"@.is_prefix_of(core) {
            lemma_data_is_carried(line);
            let (lead, data) = choose|lead: Seq<char>, data: Seq<char>|
                #[trigger] carries(core, lead, data) && data == trimmed_start(
                    core.skip("data:"@.len() as int),
                );
            assert(carries(core, lead, data));
            lemma_carried(line, lead, data);
        }
        assert(rewritten_line(line) == core + kept_tail(tail));
    }
}

/// Lines are rewritten one by one: what stands behind a line feed is rewritten as if it stood
/// alone.
pub proof fn law_line_by_line(
    first: &[u8],
    second: &[u8],
    whole: &[u8],
    first_rewritten: Vec<u8>,
    second_rewritten: Vec<u8>,
    rewritten: Vec<u8>,
)
    requires
        call_ensures(rewrite_sse_frame, (first,), first_rewritten),
        call_ensures(rewrite_sse_frame, (second,), second_rewritten),
        call_ensures(rewrite_sse_frame, (whole,), rewritten),
        valid_utf8(first@),
        valid_utf8(second@),
        whole@ == first@ + second@,
        first@.len() > 0,
        first@.last() == 10,
    ensures
        rewritten@ == first_rewritten@ + second_rewritten@,
{
    let one = decode_utf8(first@);
    let two = decode_utf8(second@);
    vstd::utf8::decode_utf8_encode_utf8(first@);
    vstd::utf8::decode_utf8_encode_utf8(second@);
    lemma_encode_parts(one, two);
    vstd::utf8::encode_utf8_valid_utf8(one + two);
    vstd::utf8::encode_utf8_decode_utf8(one + two);
    lemma_last_line_feed(one);
    law_lines_are_rewritten_one_by_one(one, two);
    lemma_encode_parts(rewritten_text(one), rewritten_text(two));
}

/// A frame that is not UTF-8 is sent as it came.
pub proof fn law_frame_that_is_no_text_stays(frame: &[u8], rewritten: Vec<u8>)
    requires
        call_ensures(rewrite_sse_frame, (frame,), rewritten),
        !valid_utf8(frame@),
    ensures
        rewritten@ == frame@,
{
}

/// Whatever JSON data a line carries is public; the mark of the end is no data.
pub open spec fn public_line(line: Seq<char>) -> bool {
    forall|core: Seq<char>, lead: Seq<char>, data: Seq<char>, tail: Seq<char>|
        line == core + tail && is_core(core) && #[trigger] is_tail(tail) && #[trigger] carries(
            core,
            lead,
            data,
        ) && data != "[DONE]"@ && parsed_text(data) is Some ==> public(parsed_text(data)->Some_0)
}

/// A rewritten line is public.
proof fn lemma_public_line(line: Seq<char>)
    requires
        one_line(line),
        line_printable(line),
        line_reads_back(line),
        line_float_free(line),
    ensures
        public_line(rewritten_line(line)),
{
    let after = rewritten_line(line);
    lemma_rewritten_line(line);
    assert forall|core: Seq<char>, lead: Seq<char>, data: Seq<char>, tail: Seq<char>|
        after == core + tail && is_core(core) && #[trigger] is_tail(tail) && #[trigger] carries(
            core,
            lead,
            data,
        ) && data != "[DONE]"@ && parsed_text(data) is Some implies public(
        parsed_text(data)->Some_0,
    ) by {
        lemma_core_and_tail(core, tail);
        assert(core == rewritten_core(line));
        if line_data(line) is Some && parsed_text(line_data(line)->Some_0) is Some {
            let value = parsed_text(line_data(line)->Some_0)->Some_0;
            let shown = aliased(value);
            let written = compact_text(shown);
            lemma_aliased_shape(value, 0);
            lemma_compact_start(shown);
            law_value_is_public_and_else_unchanged(value);
            reveal_strlit("data:");
            reveal_strlit("data: ");
            assert("data: "@ =~= "data:"@ + seq![' ']);
            let space = seq![' '];
            assert(lead + data =~= core.skip(5));
            assert(space + written =~= core.skip(5));
            lemma_trimmed_start(lead, data);
            assert(all_blank(space));
            lemma_trimmed_start(space, written);
            assert(data == written);
        } else {
            assert(core == line_core(line));
            lemma_carried(line, lead, data);
        }
    }
}

/// Each line of a rewritten text is public.
proof fn lemma_public_lines(
    text: Seq<char>,
    ahead: Seq<char>,
    line: Seq<char>,
    behind: Seq<char>,
)
    requires
        lines_printable(text),
        lines_read_back(text),
        lines_float_free(text),
        rewritten_text(text) == ahead + line + behind,
        ahead.len() > 0 ==> ahead.last() == '\n',
        one_line(line),
        line.last() == '\n' || behind.len() == 0,
    ensures
        public_line(line),
    decreases text.len(),
{
    let after = rewritten_text(text);
    assert(after =~= ahead + (line + behind));
    assert(after.len() > 0);
    lemma_rewritten_front(text);
    let front = text.take(line_end(text));
    let rest = text.skip(line_end(text));
    let first = rewritten_line(front);
    lemma_one_line(text);
    lemma_public_line(front);
    lemma_rewritten_line(front);
    if ahead.len() == 0 {
        assert(after =~= line + behind);
        lemma_one_line_end(line, behind);
        assert((line + behind).take(line.len() as int) =~= line);
        assert(line == first);
    } else {
        lemma_one_line(ahead);
        let head = ahead.take(line_end(ahead));
        let more = ahead.skip(line_end(ahead));
        assert(head.last() == '\n') by {
            if more.len() == 0 {
                assert(head =~= ahead);
            }
        }
        assert(after =~= head + (more + line + behind));
        lemma_one_line_end(head, more + line + behind);
        assert(after.take(head.len() as int) =~= head);
        assert(after.skip(head.len() as int) =~= more + line + behind);
        if more.len() > 0 {
            assert(more.last() == ahead.last());
        }
        assert(rewritten_text(rest) == more + line + behind);
        lemma_public_lines(rest, more, line, behind);
    }
}

/// Whatever frame comes in, each line of what goes out carries public data if it carries JSON
/// data at all, provided that the frame is UTF-8 and its data holds no float.
pub proof fn law_client_reads_public_data_only(
    frame: &[u8],
    rewritten: Vec<u8>,
    ahead: Seq<char>,
    line: Seq<char>,
    behind: Seq<char>,
)
    requires
        call_ensures(rewrite_sse_frame, (frame,), rewritten),
        valid_utf8(frame@),
        frame_float_free(frame@),
        rewritten@ == encode_utf8(ahead + line + behind),
        ahead.len() > 0 ==> ahead.last() == '\n',
        one_line(line),
        line.last() == '\n' || behind.len() == 0,
    ensures
        public_line(line),
{
    let text = decode_utf8(frame@);
    let after = ahead + line + behind;
    vstd::utf8::encode_utf8_decode_utf8(after);
    vstd::utf8::encode_utf8_decode_utf8(rewritten_text(text));
    lemma_public_lines(text, ahead, line, behind);
}

/// At its end, a stream gives out what was held back, rewritten as a frame is, and nothing where
/// nothing was held back.
pub proof fn law_rest_is_rewritten_at_the_end(
    rewriter: SseRewriter,
    held: &[u8],
    rewritten: Vec<u8>,
    last: Option<Vec<u8>>,
)
    requires
        call_ensures(SseRewriter::finish, (rewriter,), last),
        held@ == rewriter@,
        call_ensures(rewrite_sse_frame, (held,), rewritten),
    ensures
        last is None <==> rewriter@.len() == 0,
        last is Some ==> last->Some_0@ == rewritten@,
{
}

/// A stream begins with nothing held back.
pub proof fn law_stream_begins_empty(rewriter: SseRewriter)
    requires
        call_ensures(SseRewriter::new, (), rewriter),
    ensures
        rewriter@.len() == 0,
{
}

/// A stream that fails ends with an error that names the class of the failure.
pub proof fn law_failure_is_named(
    rewriter: SseRewriter,
    flags: TransportFlags,
    text: String,
    class: &'static str,
)
    requires
        call_ensures(SseRewriter::fail, (rewriter, flags), text),
        call_ensures(transport_error_class, (flags,), class),
    ensures
        text@ == "C82 upstream stream failed: "@ + class@,
{
}

/// The data of a line is what stands behind `data:` and white space, up to the line's end; the
/// mark of the end is no data, and a line that does not begin with `data:` has none.
pub proof fn law_data_stands_behind_its_mark(
    line: &str,
    found: Option<String>,
    core: Seq<char>,
    tail: Seq<char>,
    lead: Seq<char>,
    data: Seq<char>,
)
    requires
        call_ensures(sse_line_data, (line,), found),
        line@ == core + tail,
        is_core(core),
        is_tail(tail),
    ensures
        carries(core, lead, data) && data != "[DONE]"@ ==> found is Some && found->Some_0@ == data,
        carries(core, lead, data) && data == "[DONE]"@ ==> found is None,
        !"data:"@.is_prefix_of(core) ==> found is None,
{
    lemma_core_and_tail(core, tail);
    if carries(core, lead, data) {
        lemma_carried(line@, lead, data);
    }
}

/// A line whose data reads as a value is written anew from the value; any other line stays, of
/// whatever length. Either way it keeps its line feed, behind one carriage return if it had any.
pub proof fn law_line_is_rewritten_by_its_value(
    line: &str,
    parsed: Option<Json>,
    rewritten: String,
    core: Seq<char>,
    tail: Seq<char>,
)
    requires
        call_ensures(rewrite_sse_line, (line, parsed), rewritten),
        line@ == core + tail,
        is_core(core),
        is_tail(tail),
    ensures
        parsed is None ==> rewritten@ == core + kept_tail(tail),
        parsed matches Some(value) ==> rewritten@ == "data: "@ + compact_text(aliased(value@))
            + kept_tail(tail),
{
    lemma_core_and_tail(core, tail);
}

} // verus!
