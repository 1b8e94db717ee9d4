//! The turns that messages give.

use vstd::prelude::*;
use crate::history::{
    anthropic_messages_to_turns, arguments_text, assistant_part, assistant_parts, block_text,
    calls_with_id, content_blocks, error_marker, is_tool_call,
    law_tool_result_is_named_by_its_call, lemma_other_calls_keep_name, message_calls_with_id,
    message_turn, message_turns, names_through, result_content, result_item_text, result_name,
    result_part, result_parts, text_block, tool_call_text, tool_result_text, turn_views, user_text,
    user_texts, HistoryError, HistoryTurn,
};
use crate::json::{
    law_read_after_insert, member, or_empty, or_null, text_member, well_formed, with_member, Json,
    Tree,
};
use crate::laws::{
    holds, lacks, lemma_held_is_well_formed, lemma_member_is_held, lemma_nothing_is_held,
};
use crate::render::{python_json, python_string_coerce};
use crate::text::joined;

verus! {

/// The turns come from a request with these messages, the last of them listed apart.
pub open spec fn told(
    request: &Json,
    turns: Result<Vec<HistoryTurn>, HistoryError>,
    messages: Seq<Tree>,
    last: Tree,
) -> bool {
    &&& call_ensures(anthropic_messages_to_turns, (request,), turns)
    &&& well_formed(request@)
    &&& holds(request@, "messages"@, Tree::Array(messages.push(last)))
}

/// The message is in this role.
pub open spec fn in_role(message: Tree, role: Seq<char>) -> bool {
    holds(message, "role"@, Tree::Text(role))
}

/// The message has these content blocks.
pub open spec fn has_blocks(message: Tree, blocks: Seq<Tree>) -> bool {
    holds(message, "content"@, Tree::Array(blocks))
}

/// The block is of this type.
pub open spec fn of_type(block: Tree, name: Seq<char>) -> bool {
    holds(block, "type"@, Tree::Text(name))
}

/// The text that the value holds under the key; the empty text if it holds none there.
pub open spec fn text_or_none(value: Tree, key: Seq<char>, text: Seq<char>) -> bool {
    ||| holds(value, key, Tree::Text(text))
    ||| text.len() == 0 && forall|other: Seq<char>|
        !#[trigger] holds(value, key, Tree::Text(other))
}

/// The text of the last turn.
pub open spec fn last_text(turns: Result<Vec<HistoryTurn>, HistoryError>) -> Seq<char> {
    turns->Ok_0@.last().text@
}

/// The text, behind what is there already and a separator.
pub open spec fn behind(there: Seq<char>, separator: Seq<char>, text: Seq<char>) -> Seq<char> {
    if there.len() == 0 {
        text
    } else {
        there + separator + text
    }
}

/// A text member is what the value holds.
proof fn lemma_text_held(value: Tree, key: Seq<char>, text: Seq<char>)
    requires
        well_formed(value),
    ensures
        text_member(value, key) == Some(text) <==> holds(value, key, Tree::Text(text)),
{
    lemma_member_is_held(value, key, Tree::Text(text));
}

/// A text member, or the empty text, is what the value holds.
proof fn lemma_text_or_none(value: Tree, key: Seq<char>, text: Seq<char>)
    requires
        well_formed(value),
        text_or_none(value, key, text),
    ensures
        or_empty(text_member(value, key)) == text,
{
    lemma_text_held(value, key, text);
    if let Some(found) = text_member(value, key) {
        lemma_text_held(value, key, found);
        assert(holds(value, key, Tree::Text(found)));
    } else {
        assert(text =~= Seq::<char>::empty());
    }
}

/// What a request's messages give, with the last of them apart.
proof fn lemma_told(
    request: &Json,
    turns: Result<Vec<HistoryTurn>, HistoryError>,
    messages: Seq<Tree>,
    last: Tree,
)
    requires
        told(request, turns, messages, last),
    ensures
        turns is Ok,
        well_formed(last),
        forall|i: int| 0 <= i < messages.len() ==> well_formed(#[trigger] messages[i]),
        turn_views(turns->Ok_0@) == match message_turn(names_through(messages), last) {
            Some(turn) => message_turns(messages).push(turn),
            None => message_turns(messages),
        },
        turns->Ok_0@.len() == turn_views(turns->Ok_0@).len(),
        turns->Ok_0@.len() > 0 ==> turn_views(turns->Ok_0@).last() == turns->Ok_0@.last()@,
{
    let all = messages.push(last);
    lemma_member_is_held(request@, "messages"@, Tree::Array(all));
    lemma_held_is_well_formed(request@, "messages"@, Tree::Array(all));
    assert(well_formed(all[messages.len() as int]));
    assert forall|i: int| 0 <= i < messages.len() implies well_formed(#[trigger] messages[i]) by {
        assert(well_formed(all[i]));
    }
    assert(all.drop_last() =~= messages);
}

/// The turn of a message in a role, with these blocks.
proof fn lemma_message(message: Tree, blocks: Seq<Tree>, role: Seq<char>)
    requires
        well_formed(message),
        in_role(message, role),
        has_blocks(message, blocks),
    ensures
        or_empty(text_member(message, "role"@)) == role,
        content_blocks(or_null(member(message, "content"@))) == blocks,
        forall|i: int| 0 <= i < blocks.len() ==> well_formed(#[trigger] blocks[i]),
{
    lemma_text_held(message, "role"@, role);
    lemma_member_is_held(message, "content"@, Tree::Array(blocks));
    lemma_held_is_well_formed(message, "content"@, Tree::Array(blocks));
    lemma_items_are_well_formed(blocks);
}

/// The items of a well-formed array are well formed.
proof fn lemma_items_are_well_formed(items: Seq<Tree>)
    requires
        well_formed(Tree::Array(items)),
    ensures
        forall|i: int| 0 <= i < items.len() ==> well_formed(#[trigger] items[i]),
{
    let whole = Tree::Array(items);
    assert forall|i: int| 0 <= i < items.len() implies well_formed(#[trigger] items[i]) by {
        assert(whole->Array_0[i] == items[i]);
    }
}

/// The roles that speak differ, and so do the types of blocks.
proof fn lemma_words_differ()
    ensures
        "assistant"@.len() == 9,
        "user"@.len() == 4,
        "text"@.len() == 4,
        "tool_use"@.len() == 8,
        "tool_result"@.len() == 11,
{
    reveal_strlit("assistant");
    reveal_strlit("user");
    reveal_strlit("text");
    reveal_strlit("tool_use");
    reveal_strlit("tool_result");
}

/// One more item adds its image, if it has one.
proof fn lemma_image_grows<A, B>(items: Seq<A>, item: A, image: spec_fn(A) -> Option<B>)
    ensures
        items.push(item).filter_map(image) == match image(item) {
            Some(held) => items.filter_map(image).push(held),
            None => items.filter_map(image),
        },
{
    reveal(Seq::filter_map);
    assert(items.push(item).drop_last() =~= items);
}

/// The images of two runs of items are those of both together.
proof fn lemma_image_parts<A, B>(first: Seq<A>, second: Seq<A>, image: spec_fn(A) -> Option<B>)
    ensures
        (first + second).filter_map(image) == first.filter_map(image) + second.filter_map(image),
    decreases second.len(),
{
    if second.len() == 0 {
        assert(first + second =~= first);
        assert(second.filter_map(image) =~= Seq::empty()) by {
            reveal(Seq::filter_map);
        }
        assert(first.filter_map(image) + second.filter_map(image) =~= first.filter_map(image));
    } else {
        let front = second.drop_last();
        let last = second.last();
        lemma_image_parts(first, front, image);
        assert(front.push(last) =~= second);
        assert((first + front).push(last) =~= first + second);
        lemma_image_grows(front, last, image);
        lemma_image_grows(first + front, last, image);
        assert((first + second).filter_map(image) =~= first.filter_map(image) + second.filter_map(
            image,
        ));
    }
}

/// Texts of which none is empty are joined to an empty text only if there are none.
proof fn lemma_joined_nonempty(parts: Seq<Seq<char>>, separator: Seq<char>)
    requires
        forall|i: int| 0 <= i < parts.len() ==> (#[trigger] parts[i]).len() > 0,
    ensures
        joined(parts, separator).len() == 0 <==> parts.len() == 0,
    decreases parts.len(),
{
    if parts.len() > 0 {
        assert(parts[parts.len() - 1].len() > 0);
    }
}

/// One more text is joined behind the others.
proof fn lemma_joined_behind(parts: Seq<Seq<char>>, part: Seq<char>, separator: Seq<char>)
    requires
        forall|i: int| 0 <= i < parts.len() ==> (#[trigger] parts[i]).len() > 0,
    ensures
        joined(parts.push(part), separator) == behind(joined(parts, separator), separator, part),
{
    lemma_joined_nonempty(parts, separator);
    assert(parts.push(part).drop_last() =~= parts);
}

/// What images are made of.
proof fn lemma_images_pass<A, B>(
    items: Seq<A>,
    image: spec_fn(A) -> Option<B>,
    pass: spec_fn(B) -> bool,
)
    requires
        forall|item: A| (#[trigger] image(item)) is Some ==> pass(image(item)->Some_0),
    ensures
        forall|i: int|
            0 <= i < items.filter_map(image).len() ==> pass(#[trigger] items.filter_map(image)[i]),
    decreases items.len(),
{
    if items.len() > 0 {
        let front = items.drop_last();
        lemma_images_pass(front, image, pass);
        assert(front.push(items.last()) =~= items);
        lemma_image_grows(front, items.last(), image);
        assert(image(items.last()) is Some ==> pass(image(items.last())->Some_0));
    } else {
        assert(items.filter_map(image) =~= Seq::empty()) by {
            reveal(Seq::filter_map);
        }
    }
}

/// A message of the assistant or the user gives one more turn, in that role, behind those of the
/// messages before it. Any other message gives none.
pub proof fn law_each_speaking_message_gives_a_turn(
    request: &Json,
    longer: &Json,
    messages: Seq<Tree>,
    message: Tree,
    turns: Result<Vec<HistoryTurn>, HistoryError>,
    more: Result<Vec<HistoryTurn>, HistoryError>,
)
    requires
        call_ensures(anthropic_messages_to_turns, (request,), turns),
        well_formed(request@),
        holds(request@, "messages"@, Tree::Array(messages)),
        told(longer, more, messages, message),
    ensures
        turns is Ok && more is Ok,
        messages.len() == 0 ==> turns->Ok_0@.len() == 0,
        in_role(message, "assistant"@) || in_role(message, "user"@) ==> {
            &&& turn_views(more->Ok_0@).drop_last() == turn_views(turns->Ok_0@)
            &&& more->Ok_0@.len() == turns->Ok_0@.len() + 1
            &&& in_role(message, more->Ok_0@.last().role@)
        },
        !in_role(message, "assistant"@) && !in_role(message, "user"@) ==> turn_views(more->Ok_0@)
            == turn_views(turns->Ok_0@),
{
    lemma_words_differ();
    lemma_member_is_held(request@, "messages"@, Tree::Array(messages));
    lemma_told(longer, more, messages, message);
    lemma_text_held(message, "role"@, "assistant"@);
    lemma_text_held(message, "role"@, "user"@);
    let views = turn_views(turns->Ok_0@);
    assert(views == message_turns(messages));
    assert(views.len() == turns->Ok_0@.len());
    if let Some(turn) = message_turn(names_through(messages), message) {
        assert(views.push(turn).drop_last() =~= views);
        assert(turn_views(more->Ok_0@).last() == turn);
        assert(more->Ok_0@.last()@ == turn);
    }
}

/// A request without an array of messages has no turns.
pub proof fn law_turns_need_messages(
    request: &Json,
    turns: Result<Vec<HistoryTurn>, HistoryError>,
)
    requires
        call_ensures(anthropic_messages_to_turns, (request,), turns),
        well_formed(request@),
        forall|messages: Seq<Tree>|
            !#[trigger] holds(request@, "messages"@, Tree::Array(messages)),
    ensures
        turns is Err,
        turns->Err_0 == HistoryError::MissingMessages,
{
    if let Some(Tree::Array(messages)) = member(request@, "messages"@) {
        lemma_member_is_held(request@, "messages"@, Tree::Array(messages));
        assert(holds(request@, "messages"@, Tree::Array(messages)));
    }
}

/// The text of an assistant's turn.
proof fn lemma_assistant_turn(
    request: &Json,
    turns: Result<Vec<HistoryTurn>, HistoryError>,
    messages: Seq<Tree>,
    message: Tree,
    blocks: Seq<Tree>,
)
    requires
        told(request, turns, messages, message),
        in_role(message, "assistant"@),
        has_blocks(message, blocks),
    ensures
        turns is Ok,
        turns->Ok_0@.len() > 0,
        last_text(turns) == joined(assistant_parts(blocks), "\n"@),
        forall|i: int| 0 <= i < blocks.len() ==> well_formed(#[trigger] blocks[i]),
        forall|i: int|
            0 <= i < assistant_parts(blocks).len() ==> (#[trigger] assistant_parts(blocks)[i]).len()
                > 0,
{
    lemma_told(request, turns, messages, message);
    lemma_message(message, blocks, "assistant"@);
    assert(turns->Ok_0@.last()@.text == joined(assistant_parts(blocks), "\n"@));
    let image = |block: Tree| assistant_part(block);
    let pass = |part: Seq<char>| part.len() > 0;
    assert forall|block: Tree| (#[trigger] image(block)) is Some implies pass(
        image(block)->Some_0,
    ) by {
        reveal_strlit("[tool_call ");
    }
    lemma_images_pass(blocks, image, pass);
    assert forall|i: int| 0 <= i < assistant_parts(blocks).len() implies (
    #[trigger] assistant_parts(blocks)[i]).len() > 0 by {
        assert(pass(blocks.filter_map(image)[i]));
    }
}

/// The text of a user's turn.
proof fn lemma_user_turn(
    request: &Json,
    turns: Result<Vec<HistoryTurn>, HistoryError>,
    messages: Seq<Tree>,
    message: Tree,
    blocks: Seq<Tree>,
)
    requires
        told(request, turns, messages, message),
        in_role(message, "user"@),
        has_blocks(message, blocks),
    ensures
        turns is Ok,
        turns->Ok_0@.len() > 0,
        last_text(turns) == user_text(
            user_texts(blocks),
            result_parts(names_through(messages), blocks),
        ),
        forall|i: int| 0 <= i < messages.len() ==> well_formed(#[trigger] messages[i]),
        forall|i: int| 0 <= i < blocks.len() ==> well_formed(#[trigger] blocks[i]),
        forall|i: int|
            0 <= i < user_texts(blocks).len() ==> (#[trigger] user_texts(blocks)[i]).len() > 0,
        forall|i: int|
            0 <= i < result_parts(names_through(messages), blocks).len() ==> (
            #[trigger] result_parts(names_through(messages), blocks)[i]).len() > 0,
{
    lemma_words_differ();
    lemma_told(request, turns, messages, message);
    lemma_message(message, blocks, "user"@);
    let names = names_through(messages);
    assert(turns->Ok_0@.last()@.text == user_text(user_texts(blocks), result_parts(names, blocks)));
    let pass = |part: Seq<char>| part.len() > 0;
    let spoken = |block: Tree| block_text(block);
    let returned = |block: Tree| result_part(names, block);
    lemma_images_pass(blocks, spoken, pass);
    assert forall|block: Tree| (#[trigger] returned(block)) is Some implies pass(
        returned(block)->Some_0,
    ) by {
        reveal_strlit("[tool_result ");
    }
    lemma_images_pass(blocks, returned, pass);
    assert forall|i: int| 0 <= i < user_texts(blocks).len() implies (
    #[trigger] user_texts(blocks)[i]).len() > 0 by {
        assert(pass(blocks.filter_map(spoken)[i]));
    }
    assert forall|i: int| 0 <= i < result_parts(names, blocks).len() implies (
    #[trigger] result_parts(names, blocks)[i]).len() > 0 by {
        assert(pass(blocks.filter_map(returned)[i]));
    }
}

/// A message without blocks gives an empty turn.
pub proof fn law_message_without_blocks_says_nothing(
    request: &Json,
    turns: Result<Vec<HistoryTurn>, HistoryError>,
    messages: Seq<Tree>,
    message: Tree,
)
    requires
        told(request, turns, messages, message),
        in_role(message, "assistant"@) || in_role(message, "user"@),
        has_blocks(message, Seq::empty()) || forall|content: Tree|
            #[trigger] holds(message, "content"@, content) ==> content !is Text && content
                !is Array,
    ensures
        turns is Ok,
        turns->Ok_0@.len() > 0,
        last_text(turns).len() == 0,
{
    lemma_words_differ();
    lemma_told(request, turns, messages, message);
    lemma_text_held(message, "role"@, "assistant"@);
    lemma_text_held(message, "role"@, "user"@);
    let none = Seq::<Tree>::empty();
    lemma_member_is_held(message, "content"@, Tree::Array(none));
    if let Some(content) = member(message, "content"@) {
        lemma_member_is_held(message, "content"@, content);
        assert(holds(message, "content"@, content));
    }
    assert(content_blocks(or_null(member(message, "content"@))) =~= none);
    let names = names_through(messages);
    assert(assistant_parts(none) =~= Seq::empty()) by {
        reveal(Seq::filter_map);
    }
    assert(user_texts(none) =~= Seq::empty()) by {
        reveal(Seq::filter_map);
    }
    assert(result_parts(names, none) =~= Seq::empty()) by {
        reveal(Seq::filter_map);
    }
    assert(turns->Ok_0@.last()@.text.len() == 0);
}

/// A message whose content is a plain text says what it would say with one block of that text.
pub proof fn law_plain_content_is_one_text_block(
    request: &Json,
    other: &Json,
    turns: Result<Vec<HistoryTurn>, HistoryError>,
    other_turns: Result<Vec<HistoryTurn>, HistoryError>,
    messages: Seq<Tree>,
    plain: Tree,
    blocked: Tree,
    role: Seq<char>,
    block: Tree,
    text: Seq<char>,
)
    requires
        told(request, turns, messages, plain),
        told(other, other_turns, messages, blocked),
        role == "assistant"@ || role == "user"@,
        in_role(plain, role),
        in_role(blocked, role),
        holds(plain, "content"@, Tree::Text(text)),
        has_blocks(blocked, seq![block]),
        of_type(block, "text"@),
        holds(block, "text"@, Tree::Text(text)),
    ensures
        turns is Ok && other_turns is Ok,
        last_text(turns) == last_text(other_turns),
{
    lemma_words_differ();
    lemma_told(request, turns, messages, plain);
    lemma_told(other, other_turns, messages, blocked);
    lemma_text_held(plain, "role"@, role);
    lemma_message(blocked, seq![block], role);
    lemma_member_is_held(plain, "content"@, Tree::Text(text));
    assert(seq![block][0] == block);
    assert(well_formed(block));
    lemma_text_held(block, "type"@, "text"@);
    lemma_text_held(block, "text"@, text);
    let made = text_block(text);
    lemma_text_block(text);
    let names = names_through(messages);
    let none = Seq::<Tree>::empty();
    assert(none.push(block) =~= seq![block]);
    assert(none.push(made) =~= seq![made]);
    lemma_image_grows(none, block, |b: Tree| assistant_part(b));
    lemma_image_grows(none, made, |b: Tree| assistant_part(b));
    lemma_image_grows(none, block, |b: Tree| block_text(b));
    lemma_image_grows(none, made, |b: Tree| block_text(b));
    lemma_image_grows(none, block, |b: Tree| result_part(names, b));
    lemma_image_grows(none, made, |b: Tree| result_part(names, b));
    assert(turns->Ok_0@.last()@.text == other_turns->Ok_0@.last()@.text);
}

/// The block that is made of a plain text is a text block with that text.
proof fn lemma_text_block(text: Seq<char>)
    ensures
        text_member(text_block(text), "type"@) == Some("text"@),
        text_member(text_block(text), "text"@) == Some(text),
{
    reveal_strlit("type");
    reveal_strlit("text");
    assert("type"@[1] == 'y' && "text"@[1] == 'e');
    let empty = Seq::<(Seq<char>, Tree)>::empty();
    let typed = with_member(empty, "type"@, Tree::Text("text"@));
    law_read_after_insert(empty, "type"@, Tree::Text("text"@), "type"@);
    law_read_after_insert(typed, "text"@, Tree::Text(text), "type"@);
    law_read_after_insert(typed, "text"@, Tree::Text(text), "text"@);
}

/// One more block of plain text that is not empty adds that text to an assistant's turn, behind a
/// line feed if there is anything ahead of it.
pub proof fn law_assistant_text_is_added(
    request: &Json,
    longer: &Json,
    turns: Result<Vec<HistoryTurn>, HistoryError>,
    more: Result<Vec<HistoryTurn>, HistoryError>,
    messages: Seq<Tree>,
    message: Tree,
    longer_message: Tree,
    blocks: Seq<Tree>,
    block: Tree,
    text: Seq<char>,
)
    requires
        told(request, turns, messages, message),
        told(longer, more, messages, longer_message),
        in_role(message, "assistant"@),
        in_role(longer_message, "assistant"@),
        has_blocks(message, blocks),
        has_blocks(longer_message, blocks.push(block)),
        of_type(block, "text"@),
        holds(block, "text"@, Tree::Text(text)),
        text.len() > 0,
    ensures
        turns is Ok && more is Ok,
        last_text(more) == behind(last_text(turns), seq!['\n'], text),
{
    lemma_words_differ();
    reveal_strlit("\n");
    assert("\n"@ =~= seq!['\n']);
    lemma_assistant_turn(request, turns, messages, message, blocks);
    lemma_assistant_turn(longer, more, messages, longer_message, blocks.push(block));
    assert(blocks.push(block)[blocks.len() as int] == block);
    lemma_text_held(block, "type"@, "text"@);
    lemma_text_held(block, "text"@, text);
    lemma_image_grows(blocks, block, |b: Tree| assistant_part(b));
    lemma_joined_behind(assistant_parts(blocks), text, "\n"@);
}

/// The arguments of a tool call in words: an object the way Python renders it, anything else by
/// itself, and nothing where there are none.
pub open spec fn told_arguments(
    block: Tree,
    input: &Json,
    rendered: String,
    coerced: String,
    text: Seq<char>,
) -> bool {
    ||| holds(block, "input"@, input@) && input@ is Object && call_ensures(
        python_json,
        (input,),
        rendered,
    ) && text == rendered@
    ||| holds(block, "input"@, input@) && input@ !is Object && call_ensures(
        python_string_coerce,
        (input,),
        coerced,
    ) && text == coerced@
    ||| lacks(block, "input"@) && text.len() == 0
}

/// One more tool call adds its name and its arguments to an assistant's turn, behind a line feed
/// if there is anything ahead of it.
pub proof fn law_tool_call_is_added(
    request: &Json,
    longer: &Json,
    turns: Result<Vec<HistoryTurn>, HistoryError>,
    more: Result<Vec<HistoryTurn>, HistoryError>,
    messages: Seq<Tree>,
    message: Tree,
    longer_message: Tree,
    blocks: Seq<Tree>,
    block: Tree,
    name: Seq<char>,
    input: &Json,
    rendered: String,
    coerced: String,
    arguments: Seq<char>,
)
    requires
        told(request, turns, messages, message),
        told(longer, more, messages, longer_message),
        in_role(message, "assistant"@),
        in_role(longer_message, "assistant"@),
        has_blocks(message, blocks),
        has_blocks(longer_message, blocks.push(block)),
        of_type(block, "tool_use"@),
        text_or_none(block, "name"@, name),
        told_arguments(block, input, rendered, coerced, arguments),
    ensures
        turns is Ok && more is Ok,
        last_text(more) == behind(
            last_text(turns),
            seq!['\n'],
            "[tool_call "@ + name + "] "@ + arguments,
        ),
{
    lemma_words_differ();
    reveal_strlit("\n");
    assert("\n"@ =~= seq!['\n']);
    lemma_assistant_turn(request, turns, messages, message, blocks);
    lemma_assistant_turn(longer, more, messages, longer_message, blocks.push(block));
    assert(blocks.push(block)[blocks.len() as int] == block);
    lemma_text_held(block, "type"@, "tool_use"@);
    lemma_text_or_none(block, "name"@, name);
    lemma_member_is_held(block, "input"@, input@);
    lemma_nothing_is_held(block, "input"@);
    assert(arguments_text(or_null(member(block, "input"@))) =~= arguments);
    lemma_image_grows(blocks, block, |b: Tree| assistant_part(b));
    lemma_joined_behind(assistant_parts(blocks), tool_call_text(block), "\n"@);
}

/// The block says nothing by itself: it is no text block with a text that is not empty.
pub open spec fn no_text(block: Tree) -> bool {
    !of_type(block, "text"@) || forall|text: Seq<char>|
        #[trigger] holds(block, "text"@, Tree::Text(text)) ==> text.len() == 0
}

/// A block that says nothing has no text.
proof fn lemma_no_text(block: Tree)
    requires
        well_formed(block),
        no_text(block),
    ensures
        block_text(block) is None,
{
    lemma_text_held(block, "type"@, "text"@);
    if let Some(text) = text_member(block, "text"@) {
        lemma_text_held(block, "text"@, text);
    }
}

/// One more block of any other sort adds nothing to an assistant's turn.
pub proof fn law_other_blocks_add_nothing_to_an_assistants_turn(
    request: &Json,
    longer: &Json,
    turns: Result<Vec<HistoryTurn>, HistoryError>,
    more: Result<Vec<HistoryTurn>, HistoryError>,
    messages: Seq<Tree>,
    message: Tree,
    longer_message: Tree,
    blocks: Seq<Tree>,
    block: Tree,
)
    requires
        told(request, turns, messages, message),
        told(longer, more, messages, longer_message),
        in_role(message, "assistant"@),
        in_role(longer_message, "assistant"@),
        has_blocks(message, blocks),
        has_blocks(longer_message, blocks.push(block)),
        !of_type(block, "tool_use"@),
        no_text(block),
    ensures
        turns is Ok && more is Ok,
        last_text(more) == last_text(turns),
{
    lemma_assistant_turn(request, turns, messages, message, blocks);
    lemma_assistant_turn(longer, more, messages, longer_message, blocks.push(block));
    assert(blocks.push(block)[blocks.len() as int] == block);
    lemma_text_held(block, "type"@, "tool_use"@);
    lemma_no_text(block);
    lemma_image_grows(blocks, block, |b: Tree| assistant_part(b));
}

/// The block is a call with this mark.
pub open spec fn calls(block: Tree, id: Seq<char>) -> bool {
    of_type(block, "tool_use"@) && text_or_none(block, "id"@, id)
}

/// None of the blocks is a call with this mark.
pub open spec fn none_calls(blocks: Seq<Tree>, id: Seq<char>) -> bool {
    forall|j: int| 0 <= j < blocks.len() ==> !calls(#[trigger] blocks[j], id)
}

/// The message is no assistant's, or none of its blocks is a call with this mark.
pub open spec fn message_is_silent(message: Tree, id: Seq<char>) -> bool {
    in_role(message, "assistant"@) ==> forall|blocks: Seq<Tree>|
        #[trigger] has_blocks(message, blocks) ==> none_calls(blocks, id)
}

/// None of the messages holds a call with this mark.
pub open spec fn all_silent(messages: Seq<Tree>, id: Seq<char>) -> bool {
    forall|i: int| 0 <= i < messages.len() ==> message_is_silent(#[trigger] messages[i], id)
}

/// Behind this call of that name, none with the same mark follows: neither in its own message nor
/// in a later one.
pub open spec fn latest_call(
    messages: Seq<Tree>,
    at: int,
    blocks: Seq<Tree>,
    place: int,
    id: Seq<char>,
    name: Seq<char>,
) -> bool {
    &&& 0 <= at < messages.len()
    &&& in_role(messages[at], "assistant"@)
    &&& has_blocks(messages[at], blocks)
    &&& 0 <= place < blocks.len()
    &&& calls(blocks[place], id)
    &&& text_or_none(blocks[place], "name"@, name)
    &&& none_calls(blocks.skip(place + 1), id)
    &&& all_silent(messages.skip(at + 1), id)
}

/// The name under which a result is told behind these messages: that of the latest call with its
/// mark, and none where there is no such call.
pub open spec fn told_name(messages: Seq<Tree>, result: Tree, name: Seq<char>) -> bool {
    ||| name.len() == 0 && forall|id: Seq<char>|
        #[trigger] holds(result, "tool_use_id"@, Tree::Text(id)) ==> all_silent(messages, id)
    ||| exists|at: int, blocks: Seq<Tree>, place: int, id: Seq<char>|
        #[trigger] latest_call(messages, at, blocks, place, id, name) && holds(
            result,
            "tool_use_id"@,
            Tree::Text(id),
        )
}

/// Silent blocks hold no call with the mark.
proof fn lemma_none_calls(blocks: Seq<Tree>, id: Seq<char>)
    requires
        forall|i: int| 0 <= i < blocks.len() ==> well_formed(#[trigger] blocks[i]),
        none_calls(blocks, id),
    ensures
        !calls_with_id(blocks, id),
{
    assert forall|i: int| 0 <= i < blocks.len() implies !(is_tool_call(#[trigger] blocks[i])
        && or_empty(text_member(blocks[i], "id"@)) == id) by {
        let block = blocks[i];
        assert(!calls(block, id));
        lemma_text_held(block, "type"@, "tool_use"@);
        lemma_text_held(block, "id"@, id);
        if text_member(block, "id"@) is None {
            assert forall|other: Seq<char>| !#[trigger] holds(
                block,
                "id"@,
                Tree::Text(other),
            ) by {
                lemma_text_held(block, "id"@, other);
            }
        }
    }
}

/// A silent message holds no call with the mark.
proof fn lemma_message_is_silent(message: Tree, id: Seq<char>)
    requires
        well_formed(message),
        message_is_silent(message, id),
    ensures
        !message_calls_with_id(message, id),
{
    lemma_words_differ();
    lemma_text_held(message, "role"@, "assistant"@);
    let blocks = content_blocks(or_null(member(message, "content"@)));
    if in_role(message, "assistant"@) {
        match member(message, "content"@) {
            Some(Tree::Array(items)) => {
                lemma_member_is_held(message, "content"@, Tree::Array(items));
                assert(has_blocks(message, items));
                lemma_message(message, items, "assistant"@);
                lemma_none_calls(items, id);
            },
            Some(Tree::Text(text)) => {
                lemma_text_block(text);
                assert(!is_tool_call(blocks[0]));
                assert(!calls_with_id(blocks, id));
            },
            _ => {
                assert(blocks.len() == 0);
                assert(!calls_with_id(blocks, id));
            },
        }
    }
}

/// Behind silent messages, nothing is noted under the mark.
proof fn lemma_nothing_noted(messages: Seq<Tree>, id: Seq<char>)
    requires
        forall|i: int| 0 <= i < messages.len() ==> well_formed(#[trigger] messages[i]),
        all_silent(messages, id),
    ensures
        !names_through(messages).contains_key(id),
    decreases messages.len(),
{
    if messages.len() > 0 {
        let front = messages.drop_last();
        let last = messages[messages.len() - 1];
        assert forall|i: int| 0 <= i < front.len() implies well_formed(#[trigger] front[i]) by {
            assert(front[i] == messages[i]);
        }
        assert forall|i: int| 0 <= i < front.len() implies message_is_silent(
            #[trigger] front[i],
            id,
        ) by {
            assert(front[i] == messages[i]);
        }
        lemma_nothing_noted(front, id);
        lemma_message_is_silent(last, id);
        if or_empty(text_member(last, "role"@)) == "assistant"@ {
            lemma_other_calls_keep_name(
                names_through(front),
                content_blocks(or_null(member(last, "content"@))),
                id,
            );
        }
    }
}

/// The name of a result is that of the latest call with its mark.
proof fn lemma_told_name(messages: Seq<Tree>, result: Tree, name: Seq<char>)
    requires
        forall|i: int| 0 <= i < messages.len() ==> well_formed(#[trigger] messages[i]),
        well_formed(result),
        told_name(messages, result, name),
    ensures
        result_name(names_through(messages), result) == name,
{
    if exists|at: int, blocks: Seq<Tree>, place: int, id: Seq<char>|
        #[trigger] latest_call(messages, at, blocks, place, id, name) && holds(
            result,
            "tool_use_id"@,
            Tree::Text(id),
        ) {
        let (at, blocks, place, id) = choose|at: int, blocks: Seq<Tree>, place: int, id: Seq<char>|
            #[trigger] latest_call(messages, at, blocks, place, id, name) && holds(
                result,
                "tool_use_id"@,
                Tree::Text(id),
            );
        lemma_latest_call(messages, at, blocks, place, id, name, result);
    } else {
        assert(name =~= Seq::<char>::empty());
        if let Some(id) = text_member(result, "tool_use_id"@) {
            lemma_text_held(result, "tool_use_id"@, id);
            assert(holds(result, "tool_use_id"@, Tree::Text(id)));
            lemma_nothing_noted(messages, id);
        }
    }
}

/// The name of a result with the mark of a latest call.
proof fn lemma_latest_call(
    messages: Seq<Tree>,
    at: int,
    blocks: Seq<Tree>,
    place: int,
    id: Seq<char>,
    name: Seq<char>,
    result: Tree,
)
    requires
        forall|i: int| 0 <= i < messages.len() ==> well_formed(#[trigger] messages[i]),
        well_formed(result),
        latest_call(messages, at, blocks, place, id, name),
        holds(result, "tool_use_id"@, Tree::Text(id)),
    ensures
        result_name(names_through(messages), result) == name,
{
    let before = messages.take(at);
    let calling = messages[at];
    let later = messages.skip(at + 1);
    let earlier_blocks = blocks.take(place);
    let call = blocks[place];
    let later_blocks = blocks.skip(place + 1);
    assert(well_formed(calling));
    lemma_message(calling, blocks, "assistant"@);
    assert(well_formed(call));
    assert(blocks =~= earlier_blocks.push(call) + later_blocks);
    assert(messages =~= before.push(calling) + later);
    lemma_text_held(call, "type"@, "tool_use"@);
    lemma_text_or_none(call, "id"@, id);
    lemma_text_or_none(call, "name"@, name);
    lemma_text_held(result, "tool_use_id"@, id);
    assert forall|i: int| 0 <= i < later_blocks.len() implies well_formed(
        #[trigger] later_blocks[i],
    ) by {
        assert(later_blocks[i] == blocks[place + 1 + i]);
    }
    lemma_none_calls(later_blocks, id);
    assert forall|i: int| 0 <= i < later.len() implies !message_calls_with_id(
        #[trigger] later[i],
        id,
    ) by {
        assert(later[i] == messages[at + 1 + i]);
        assert(well_formed(messages[at + 1 + i]));
        lemma_message_is_silent(later[i], id);
    }
    law_tool_result_is_named_by_its_call(
        before,
        calling,
        earlier_blocks,
        call,
        later_blocks,
        later,
        result,
    );
}

/// What a result says: a plain text as it is, nothing for no items, and nothing for what is
/// neither a text nor an array.
pub open spec fn told_content(result: Tree, text: Seq<char>) -> bool {
    ||| holds(result, "content"@, Tree::Text(text))
    ||| text.len() == 0 && holds(result, "content"@, Tree::Array(Seq::empty()))
    ||| text.len() == 0 && forall|content: Tree|
        #[trigger] holds(result, "content"@, content) ==> content !is Text && content !is Array
}

/// The mark of an error, exactly on a result that says that it is one.
pub open spec fn told_marker(result: Tree) -> Seq<char> {
    if holds(result, "is_error"@, Tree::Bool(true)) {
        " [tool error]"@
    } else {
        Seq::empty()
    }
}

/// What the content of a result says.
proof fn lemma_told_content(result: Tree, text: Seq<char>)
    requires
        well_formed(result),
        told_content(result, text),
    ensures
        result_content(or_null(member(result, "content"@))) == text,
{
    lemma_member_is_held(result, "content"@, Tree::Text(text));
    let none = Seq::<Tree>::empty();
    lemma_member_is_held(result, "content"@, Tree::Array(none));
    if let Some(content) = member(result, "content"@) {
        lemma_member_is_held(result, "content"@, content);
        assert(holds(result, "content"@, content));
    }
    assert(none.filter_map(|item: Tree| result_item_text(item)) =~= Seq::empty()) by {
        reveal(Seq::filter_map);
    }
    if !holds(result, "content"@, Tree::Text(text)) {
        assert(text =~= Seq::<char>::empty());
    }
}

/// The mark of an error on a result.
proof fn lemma_told_marker(result: Tree)
    requires
        well_formed(result),
    ensures
        error_marker(result) == told_marker(result),
{
    reveal_strlit("");
    lemma_member_is_held(result, "is_error"@, Tree::Bool(true));
    assert(""@ =~= Seq::<char>::empty());
}

/// A user's turn grows by a result at its end.
proof fn lemma_user_text_grows(said: Seq<Seq<char>>, results: Seq<Seq<char>>, result: Seq<char>)
    requires
        forall|i: int| 0 <= i < said.len() ==> (#[trigger] said[i]).len() > 0,
        forall|i: int| 0 <= i < results.len() ==> (#[trigger] results[i]).len() > 0,
    ensures
        user_text(said, results.push(result)) == behind(
            user_text(said, results),
            seq!['\n', '\n'],
            result,
        ),
{
    reveal_strlit("\n\n");
    assert("\n\n"@ =~= seq!['\n', '\n']);
    lemma_joined_nonempty(said, "\n"@);
    lemma_joined_behind(results, result, "\n\n"@);
    lemma_joined_nonempty(results, "\n\n"@);
    if said.len() > 0 && results.len() > 0 {
        assert(user_text(said, results.push(result)) =~= user_text(said, results) + "\n\n"@
            + result);
    } else if said.len() > 0 {
        assert(user_text(said, results.push(result)) =~= user_text(said, results) + "\n\n"@
            + result);
    }
}

/// One more tool result at the end adds itself to a user's turn, behind a blank line if there is
/// anything ahead of it, whatever that is: the name of the call that it answers, the mark of an
/// error if it is one, and what it says.
pub proof fn law_tool_result_is_added(
    request: &Json,
    longer: &Json,
    turns: Result<Vec<HistoryTurn>, HistoryError>,
    more: Result<Vec<HistoryTurn>, HistoryError>,
    messages: Seq<Tree>,
    message: Tree,
    longer_message: Tree,
    blocks: Seq<Tree>,
    result: Tree,
    name: Seq<char>,
    content: Seq<char>,
)
    requires
        told(request, turns, messages, message),
        told(longer, more, messages, longer_message),
        in_role(message, "user"@),
        in_role(longer_message, "user"@),
        has_blocks(message, blocks),
        has_blocks(longer_message, blocks.push(result)),
        of_type(result, "tool_result"@),
        told_name(messages, result, name),
        told_content(result, content),
    ensures
        turns is Ok && more is Ok,
        last_text(more) == behind(
            last_text(turns),
            seq!['\n', '\n'],
            "[tool_result "@ + name + "]"@ + told_marker(result) + "\n"@ + content,
        ),
{
    lemma_words_differ();
    lemma_user_turn(request, turns, messages, message, blocks);
    lemma_user_turn(longer, more, messages, longer_message, blocks.push(result));
    assert(blocks.push(result)[blocks.len() as int] == result);
    let names = names_through(messages);
    lemma_text_held(result, "type"@, "tool_result"@);
    lemma_told_name(messages, result, name);
    lemma_told_content(result, content);
    lemma_told_marker(result);
    lemma_image_grows(blocks, result, |b: Tree| block_text(b));
    lemma_image_grows(blocks, result, |b: Tree| result_part(names, b));
    lemma_user_text_grows(
        user_texts(blocks),
        result_parts(names, blocks),
        tool_result_text(names, result),
    );
}

/// One more text block adds its text to a user's turn that holds no tool results yet, behind a
/// line feed if there is anything ahead of it.
pub proof fn law_user_text_is_added(
    request: &Json,
    longer: &Json,
    turns: Result<Vec<HistoryTurn>, HistoryError>,
    more: Result<Vec<HistoryTurn>, HistoryError>,
    messages: Seq<Tree>,
    message: Tree,
    longer_message: Tree,
    blocks: Seq<Tree>,
    block: Tree,
    text: Seq<char>,
)
    requires
        told(request, turns, messages, message),
        told(longer, more, messages, longer_message),
        in_role(message, "user"@),
        in_role(longer_message, "user"@),
        has_blocks(message, blocks),
        has_blocks(longer_message, blocks.push(block)),
        forall|i: int| 0 <= i < blocks.len() ==> !of_type(#[trigger] blocks[i], "tool_result"@),
        of_type(block, "text"@),
        holds(block, "text"@, Tree::Text(text)),
        text.len() > 0,
    ensures
        turns is Ok && more is Ok,
        last_text(more) == behind(last_text(turns), seq!['\n'], text),
{
    lemma_words_differ();
    reveal_strlit("\n");
    assert("\n"@ =~= seq!['\n']);
    lemma_user_turn(request, turns, messages, message, blocks);
    lemma_user_turn(longer, more, messages, longer_message, blocks.push(block));
    assert(blocks.push(block)[blocks.len() as int] == block);
    let names = names_through(messages);
    lemma_text_held(block, "type"@, "text"@);
    lemma_text_held(block, "text"@, text);
    lemma_no_results(names, blocks);
    lemma_image_grows(blocks, block, |b: Tree| block_text(b));
    lemma_image_grows(blocks, block, |b: Tree| result_part(names, b));
    lemma_joined_behind(user_texts(blocks), text, "\n"@);
}

/// Blocks of which none is a tool result give none.
proof fn lemma_no_results(names: Map<Seq<char>, Seq<char>>, blocks: Seq<Tree>)
    requires
        forall|i: int| 0 <= i < blocks.len() ==> well_formed(#[trigger] blocks[i]),
        forall|i: int| 0 <= i < blocks.len() ==> !of_type(#[trigger] blocks[i], "tool_result"@),
    ensures
        result_parts(names, blocks).len() == 0,
    decreases blocks.len(),
{
    let image = |b: Tree| result_part(names, b);
    if blocks.len() > 0 {
        let front = blocks.drop_last();
        let last = blocks[blocks.len() - 1];
        assert forall|i: int| 0 <= i < front.len() implies well_formed(#[trigger] front[i]) by {
            assert(front[i] == blocks[i]);
        }
        assert forall|i: int| 0 <= i < front.len() implies !of_type(
            #[trigger] front[i],
            "tool_result"@,
        ) by {
            assert(front[i] == blocks[i]);
        }
        lemma_no_results(names, front);
        lemma_text_held(last, "type"@, "tool_result"@);
        assert(front.push(last) =~= blocks);
        lemma_image_grows(front, last, image);
    } else {
        assert(blocks.filter_map(image) =~= Seq::empty()) by {
            reveal(Seq::filter_map);
        }
    }
}

/// One more block that is neither a tool result nor says anything adds nothing to a user's turn.
pub proof fn law_other_blocks_add_nothing_to_a_users_turn(
    request: &Json,
    longer: &Json,
    turns: Result<Vec<HistoryTurn>, HistoryError>,
    more: Result<Vec<HistoryTurn>, HistoryError>,
    messages: Seq<Tree>,
    message: Tree,
    longer_message: Tree,
    blocks: Seq<Tree>,
    block: Tree,
)
    requires
        told(request, turns, messages, message),
        told(longer, more, messages, longer_message),
        in_role(message, "user"@),
        in_role(longer_message, "user"@),
        has_blocks(message, blocks),
        has_blocks(longer_message, blocks.push(block)),
        !of_type(block, "tool_result"@),
        no_text(block),
    ensures
        turns is Ok && more is Ok,
        last_text(more) == last_text(turns),
{
    lemma_user_turn(request, turns, messages, message, blocks);
    lemma_user_turn(longer, more, messages, longer_message, blocks.push(block));
    assert(blocks.push(block)[blocks.len() as int] == block);
    let names = names_through(messages);
    lemma_text_held(block, "type"@, "tool_result"@);
    lemma_no_text(block);
    lemma_image_grows(blocks, block, |b: Tree| block_text(b));
    lemma_image_grows(blocks, block, |b: Tree| result_part(names, b));
}

/// Plain text is told ahead of tool results: a block that is no tool result may change places with
/// a tool result beside it, and the turn says the same.
pub proof fn law_user_text_is_told_first(
    request: &Json,
    other: &Json,
    turns: Result<Vec<HistoryTurn>, HistoryError>,
    other_turns: Result<Vec<HistoryTurn>, HistoryError>,
    messages: Seq<Tree>,
    message: Tree,
    other_message: Tree,
    ahead: Seq<Tree>,
    result: Tree,
    block: Tree,
    rest: Seq<Tree>,
)
    requires
        told(request, turns, messages, message),
        told(other, other_turns, messages, other_message),
        in_role(message, "user"@),
        in_role(other_message, "user"@),
        has_blocks(message, ahead.push(result).push(block) + rest),
        has_blocks(other_message, ahead.push(block).push(result) + rest),
        of_type(result, "tool_result"@),
        !of_type(block, "tool_result"@),
    ensures
        turns is Ok && other_turns is Ok,
        last_text(turns) == last_text(other_turns),
{
    lemma_words_differ();
    let one = ahead.push(result).push(block);
    let two = ahead.push(block).push(result);
    lemma_user_turn(request, turns, messages, message, one + rest);
    lemma_user_turn(other, other_turns, messages, other_message, two + rest);
    let n = ahead.len() as int;
    assert((one + rest)[n] == result && (one + rest)[n + 1] == block);
    assert(well_formed(result) && well_formed(block));
    lemma_text_held(result, "type"@, "tool_result"@);
    lemma_text_held(block, "type"@, "tool_result"@);
    let names = names_through(messages);
    let spoken = |b: Tree| block_text(b);
    let returned = |b: Tree| result_part(names, b);
    assert(spoken(result) is None);
    assert(returned(block) is None);
    lemma_image_parts(one, rest, spoken);
    lemma_image_parts(two, rest, spoken);
    lemma_image_parts(one, rest, returned);
    lemma_image_parts(two, rest, returned);
    lemma_image_grows(ahead, result, spoken);
    lemma_image_grows(ahead.push(result), block, spoken);
    lemma_image_grows(ahead, block, spoken);
    lemma_image_grows(ahead.push(block), result, spoken);
    lemma_image_grows(ahead, result, returned);
    lemma_image_grows(ahead.push(result), block, returned);
    lemma_image_grows(ahead, block, returned);
    lemma_image_grows(ahead.push(block), result, returned);
}

/// The item is a text item.
pub open spec fn is_text_item(item: Tree) -> bool {
    of_type(item, "text"@)
}

/// One more item of a result's content adds its text to what the result says, behind a line feed
/// if a text item stands ahead of it; an item that is no text item adds nothing.
pub proof fn law_result_items_are_told_in_order(
    request: &Json,
    longer: &Json,
    turns: Result<Vec<HistoryTurn>, HistoryError>,
    more: Result<Vec<HistoryTurn>, HistoryError>,
    messages: Seq<Tree>,
    message: Tree,
    longer_message: Tree,
    blocks: Seq<Tree>,
    result: Tree,
    longer_result: Tree,
    name: Seq<char>,
    items: Seq<Tree>,
    item: Tree,
    text: Seq<char>,
)
    requires
        told(request, turns, messages, message),
        told(longer, more, messages, longer_message),
        in_role(message, "user"@),
        in_role(longer_message, "user"@),
        has_blocks(message, blocks.push(result)),
        has_blocks(longer_message, blocks.push(longer_result)),
        of_type(result, "tool_result"@),
        of_type(longer_result, "tool_result"@),
        told_name(messages, result, name),
        told_name(messages, longer_result, name),
        told_marker(result) == told_marker(longer_result),
        holds(result, "content"@, Tree::Array(items)),
        holds(longer_result, "content"@, Tree::Array(items.push(item))),
        text_or_none(item, "text"@, text),
    ensures
        turns is Ok && more is Ok,
        !is_text_item(item) ==> last_text(more) == last_text(turns),
        is_text_item(item) && (forall|i: int|
            0 <= i < items.len() ==> !is_text_item(#[trigger] items[i])) ==> last_text(more)
            == last_text(turns) + text,
        is_text_item(item) && (exists|i: int|
            0 <= i < items.len() && is_text_item(#[trigger] items[i])) ==> last_text(more)
            == last_text(turns) + seq!['\n'] + text,
{
    lemma_words_differ();
    reveal_strlit("\n");
    assert("\n"@ =~= seq!['\n']);
    let names = names_through(messages);
    lemma_user_turn(request, turns, messages, message, blocks.push(result));
    lemma_user_turn(longer, more, messages, longer_message, blocks.push(longer_result));
    let n = blocks.len() as int;
    assert(blocks.push(result)[n] == result);
    assert(blocks.push(longer_result)[n] == longer_result);
    assert(well_formed(result) && well_formed(longer_result));
    lemma_text_held(result, "type"@, "tool_result"@);
    lemma_text_held(longer_result, "type"@, "tool_result"@);
    lemma_told_name(messages, result, name);
    lemma_told_name(messages, longer_result, name);
    lemma_told_marker(result);
    lemma_told_marker(longer_result);
    lemma_member_is_held(result, "content"@, Tree::Array(items));
    lemma_member_is_held(longer_result, "content"@, Tree::Array(items.push(item)));
    lemma_held_is_well_formed(longer_result, "content"@, Tree::Array(items.push(item)));
    lemma_held_is_well_formed(result, "content"@, Tree::Array(items));
    assert(items.push(item)[items.len() as int] == item);
    assert(well_formed(item));
    lemma_text_held(item, "type"@, "text"@);
    lemma_text_or_none(item, "text"@, text);
    let image = |i: Tree| result_item_text(i);
    let parts = items.filter_map(image);
    lemma_image_grows(items, item, image);
    lemma_text_items(items);
    let content = joined(parts, "\n"@);
    let grown = joined(items.push(item).filter_map(image), "\n"@);
    if is_text_item(item) {
        assert(parts.push(text).drop_last() =~= parts);
        assert(grown == if parts.len() == 0 {
            text
        } else {
            content + "\n"@ + text
        });
    }
    let spoken = |b: Tree| block_text(b);
    let returned = |b: Tree| result_part(names, b);
    lemma_image_grows(blocks, result, spoken);
    lemma_image_grows(blocks, longer_result, spoken);
    lemma_image_grows(blocks, result, returned);
    lemma_image_grows(blocks, longer_result, returned);
    assert forall|i: int| 0 <= i < blocks.filter_map(spoken).len() implies (
    #[trigger] blocks.filter_map(spoken)[i]).len() > 0 by {
        assert(user_texts(blocks.push(result))[i].len() > 0);
    }
    assert forall|i: int| 0 <= i < blocks.filter_map(returned).len() implies (
    #[trigger] blocks.filter_map(returned)[i]).len() > 0 by {
        assert(result_parts(names, blocks.push(result))[i].len() > 0);
    }
    let said = blocks.filter_map(spoken);
    let results = blocks.filter_map(returned);
    let one = tool_result_text(names, result);
    let two = tool_result_text(names, longer_result);
    lemma_user_text_grows(said, results, one);
    lemma_user_text_grows(said, results, two);
    let lead = "[tool_result "@ + name + "]"@ + told_marker(result) + "\n"@;
    assert(one == lead + content);
    assert(two == lead + grown);
    let there = user_text(said, results);
    let start = if there.len() == 0 {
        lead
    } else {
        there + seq!['\n', '\n'] + lead
    };
    assert(last_text(turns) =~= start + content);
    assert(last_text(more) =~= start + grown);
    if is_text_item(item) {
        if parts.len() == 0 {
            assert(content =~= Seq::<char>::empty());
            assert(last_text(more) =~= last_text(turns) + text);
        } else {
            assert(last_text(more) =~= last_text(turns) + seq!['\n'] + text);
        }
    }
}

/// Items give texts exactly if one of them is a text item.
proof fn lemma_text_items(items: Seq<Tree>)
    requires
        forall|i: int| 0 <= i < items.len() ==> well_formed(#[trigger] items[i]),
    ensures
        items.filter_map(|i: Tree| result_item_text(i)).len() > 0 <==> exists|i: int|
            0 <= i < items.len() && is_text_item(#[trigger] items[i]),
    decreases items.len(),
{
    let image = |i: Tree| result_item_text(i);
    if items.len() > 0 {
        let front = items.drop_last();
        let last = items[items.len() - 1];
        assert forall|i: int| 0 <= i < front.len() implies well_formed(#[trigger] front[i]) by {
            assert(front[i] == items[i]);
        }
        lemma_text_items(front);
        lemma_text_held(last, "type"@, "text"@);
        assert(front.push(last) =~= items);
        lemma_image_grows(front, last, image);
        if exists|i: int| 0 <= i < front.len() && is_text_item(#[trigger] front[i]) {
            let i = choose|i: int| 0 <= i < front.len() && is_text_item(#[trigger] front[i]);
            assert(is_text_item(items[i]));
        }
        if exists|i: int| 0 <= i < items.len() && is_text_item(#[trigger] items[i]) {
            let i = choose|i: int| 0 <= i < items.len() && is_text_item(#[trigger] items[i]);
            if i < front.len() {
                assert(is_text_item(front[i]));
            }
        }
    } else {
        assert(items.filter_map(image) =~= Seq::empty()) by {
            reveal(Seq::filter_map);
        }
    }
}

/// The part stands in the text.
pub open spec fn stands_in(part: Seq<char>, text: Seq<char>) -> bool {
    exists|ahead: Seq<char>, rest: Seq<char>| text == #[trigger] (ahead + part + rest)
}

/// What stands in a part stands in what the part is put between.
proof fn lemma_stands_in(part: Seq<char>, text: Seq<char>, left: Seq<char>, right: Seq<char>)
    requires
        stands_in(part, text),
    ensures
        stands_in(part, left + text + right),
{
    let (ahead, rest) = choose|ahead: Seq<char>, rest: Seq<char>|
        text == #[trigger] (ahead + part + rest);
    assert(left + text + right =~= (left + ahead) + part + (rest + right));
}

/// Each of joined texts stands in the whole.
proof fn lemma_joined_holds(parts: Seq<Seq<char>>, separator: Seq<char>, i: int)
    requires
        0 <= i < parts.len(),
    ensures
        stands_in(parts[i], joined(parts, separator)),
    decreases parts.len(),
{
    let none = Seq::<char>::empty();
    let part = parts[i];
    if parts.len() == 1 {
        assert(part =~= none + part + none);
    } else {
        let front = joined(parts.drop_last(), separator);
        if i < parts.len() - 1 {
            lemma_joined_holds(parts.drop_last(), separator, i);
            lemma_stands_in(part, front, none, separator + parts.last());
            assert(joined(parts, separator) =~= none + front + (separator + parts.last()));
        } else {
            assert(joined(parts, separator) =~= (front + separator) + part + none);
        }
    }
}

/// An item with an image gives it a place among the images.
proof fn lemma_image_found<A, B>(items: Seq<A>, i: int, image: spec_fn(A) -> Option<B>) -> (at: int)
    requires
        0 <= i < items.len(),
        image(items[i]) is Some,
    ensures
        0 <= at < items.filter_map(image).len(),
        items.filter_map(image)[at] == image(items[i])->Some_0,
    decreases items.len(),
{
    let front = items.drop_last();
    let last = items.last();
    assert(front.push(last) =~= items);
    lemma_image_grows(front, last, image);
    if i < front.len() {
        lemma_image_found(front, i, image)
    } else {
        front.filter_map(image).len() as int
    }
}

/// Nothing that a user's message says is lost: the text of each of its text blocks and the words
/// of each of its tool results stand in the text of its turn.
pub proof fn law_nothing_a_user_says_is_lost(
    request: &Json,
    turns: Result<Vec<HistoryTurn>, HistoryError>,
    messages: Seq<Tree>,
    message: Tree,
    blocks: Seq<Tree>,
    i: int,
    text: Seq<char>,
    name: Seq<char>,
    content: Seq<char>,
)
    requires
        told(request, turns, messages, message),
        in_role(message, "user"@),
        has_blocks(message, blocks),
        0 <= i < blocks.len(),
    ensures
        turns is Ok,
        of_type(blocks[i], "text"@) && holds(blocks[i], "text"@, Tree::Text(text)) ==> stands_in(
            text,
            last_text(turns),
        ),
        of_type(blocks[i], "tool_result"@) && told_name(messages, blocks[i], name) && told_content(
            blocks[i],
            content,
        ) ==> stands_in(
            "[tool_result "@ + name + "]"@ + told_marker(blocks[i]) + "\n"@ + content,
            last_text(turns),
        ),
{
    lemma_words_differ();
    lemma_user_turn(request, turns, messages, message, blocks);
    let names = names_through(messages);
    let block = blocks[i];
    let whole = last_text(turns);
    let said = user_texts(blocks);
    let results = result_parts(names, blocks);
    let none = Seq::<char>::empty();
    lemma_text_held(block, "type"@, "text"@);
    lemma_text_held(block, "type"@, "tool_result"@);
    if of_type(block, "text"@) && holds(block, "text"@, Tree::Text(text)) {
        lemma_text_held(block, "text"@, text);
        if text.len() == 0 {
            assert(whole =~= none + text + whole);
        } else {
            let at = lemma_image_found(blocks, i, |b: Tree| block_text(b));
            lemma_joined_holds(said, "\n"@, at);
            let told_texts = joined(said, "\n"@);
            if results.len() > 0 {
                let behind_it = "\n\n"@ + joined(results, "\n\n"@);
                lemma_stands_in(text, told_texts, none, behind_it);
                assert(whole =~= none + told_texts + behind_it);
            }
        }
    }
    if of_type(block, "tool_result"@) && told_name(messages, block, name) && told_content(
        block,
        content,
    ) {
        lemma_told_name(messages, block, name);
        lemma_told_content(block, content);
        lemma_told_marker(block);
        let at = lemma_image_found(blocks, i, |b: Tree| result_part(names, b));
        lemma_joined_holds(results, "\n\n"@, at);
        let told_results = joined(results, "\n\n"@);
        let words = tool_result_text(names, block);
        if said.len() > 0 {
            let ahead_of_it = joined(said, "\n"@) + "\n\n"@;
            lemma_stands_in(words, told_results, ahead_of_it, none);
            assert(whole =~= ahead_of_it + told_results + none);
        }
    }
}

} // verus!
