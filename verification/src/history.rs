//! The turns of a conversation, taken from the messages of a request.

use vstd::hash_map::StringHashMap;
use vstd::prelude::*;
use vstd::string::StringExecFns;
use crate::json::{
    member, or_empty, or_null, text_member, trees, with_member, Json, JsonObject, Tree,
};
use crate::render::{coerced_text, python_json, python_string_coerce, python_text};
use crate::text::{join, joined, same_text, texts};

verus! {

/// One turn of a conversation.
#[derive(Debug, PartialEq)]
pub struct HistoryTurn {
    pub role: String,
    pub text: String,
}

/// What a turn says, and who says it.
pub struct Turn {
    pub role: Seq<char>,
    pub text: Seq<char>,
}

impl HistoryTurn {
    /// What the turn says, and who says it.
    pub open spec fn view(self) -> Turn {
        Turn { role: self.role@, text: self.text@ }
    }
}

/// What a sequence of turns says.
pub open spec fn turn_views(turns: Seq<HistoryTurn>) -> Seq<Turn> {
    turns.map_values(|turn: HistoryTurn| turn@)
}

/// Why a request has no turns.
#[derive(Debug, PartialEq)]
pub enum HistoryError {
    /// The request has no array of messages.
    MissingMessages,
}

impl HistoryError {
    /// The error in words.
    pub fn message(&self) -> (text: String)
        ensures
            text@ == "C82 Anthropic request must contain messages"@,
    {
        "C82 Anthropic request must contain messages".to_owned()
    }
}

/// The content block of a plain text.
pub open spec fn text_block(text: Seq<char>) -> Tree {
    Tree::Object(
        with_member(
            with_member(Seq::empty(), "type"@, Tree::Text("text"@)),
            "text"@,
            Tree::Text(text),
        ),
    )
}

/// The content blocks of a message: a plain text counts as one block.
pub open spec fn content_blocks(content: Tree) -> Seq<Tree> {
    match content {
        Tree::Text(text) => seq![text_block(text)],
        Tree::Array(items) => items,
        _ => Seq::empty(),
    }
}

/// The text of a text block, unless it is empty.
pub open spec fn block_text(block: Tree) -> Option<Seq<char>> {
    if text_member(block, "type"@) == Some("text"@) {
        match text_member(block, "text"@) {
            Some(text) => if text.len() > 0 {
                Some(text)
            } else {
                None
            },
            None => None,
        }
    } else {
        None
    }
}

/// Whether the block is a tool call.
pub open spec fn is_tool_call(block: Tree) -> bool {
    text_member(block, "type"@) == Some("tool_use"@)
}

/// The arguments of a tool call in words: JSON for an object, the bare text otherwise.
pub open spec fn arguments_text(arguments: Tree) -> Seq<char> {
    if arguments is Object {
        python_text(arguments)
    } else {
        coerced_text(arguments)
    }
}

/// A tool call in words.
pub open spec fn tool_call_text(block: Tree) -> Seq<char> {
    "[tool_call "@ + or_empty(text_member(block, "name"@)) + "] "@ + arguments_text(
        or_null(member(block, "input"@)),
    )
}

/// What a block adds to an assistant's turn.
pub open spec fn assistant_part(block: Tree) -> Option<Seq<char>> {
    if is_tool_call(block) {
        Some(tool_call_text(block))
    } else {
        block_text(block)
    }
}

/// What the blocks add to an assistant's turn.
pub open spec fn assistant_parts(blocks: Seq<Tree>) -> Seq<Seq<char>> {
    blocks.filter_map(|block: Tree| assistant_part(block))
}

/// The tool names by call, once the blocks' tool calls are noted.
pub open spec fn noted_names(
    names: Map<Seq<char>, Seq<char>>,
    blocks: Seq<Tree>,
) -> Map<Seq<char>, Seq<char>>
    decreases blocks.len(),
{
    if blocks.len() == 0 {
        names
    } else {
        let earlier = noted_names(names, blocks.drop_last());
        let block = blocks.last();
        if is_tool_call(block) {
            earlier.insert(
                or_empty(text_member(block, "id"@)),
                or_empty(text_member(block, "name"@)),
            )
        } else {
            earlier
        }
    }
}

/// What the blocks say to the assistant in plain text.
pub open spec fn user_texts(blocks: Seq<Tree>) -> Seq<Seq<char>> {
    blocks.filter_map(|block: Tree| block_text(block))
}

/// The name of the tool that a result comes from; empty if no call with that mark is known.
pub open spec fn result_name(names: Map<Seq<char>, Seq<char>>, block: Tree) -> Seq<char> {
    match text_member(block, "tool_use_id"@) {
        Some(id) => if names.contains_key(id) {
            names[id]
        } else {
            Seq::empty()
        },
        None => Seq::empty(),
    }
}

/// The text of an item of a tool result, if it is a text item.
pub open spec fn result_item_text(item: Tree) -> Option<Seq<char>> {
    if text_member(item, "type"@) == Some("text"@) {
        Some(or_empty(text_member(item, "text"@)))
    } else {
        None
    }
}

/// The text of a tool result's content.
pub open spec fn result_content(content: Tree) -> Seq<char> {
    match content {
        Tree::Text(text) => text,
        Tree::Array(items) => joined(
            items.filter_map(|item: Tree| result_item_text(item)),
            "\n"@,
        ),
        _ => Seq::empty(),
    }
}

/// The mark of a failed tool call.
pub open spec fn error_marker(block: Tree) -> Seq<char> {
    if member(block, "is_error"@) == Some(Tree::Bool(true)) {
        " [tool error]"@
    } else {
        ""@
    }
}

/// A tool result in words.
pub open spec fn tool_result_text(names: Map<Seq<char>, Seq<char>>, block: Tree) -> Seq<char> {
    "[tool_result "@ + result_name(names, block) + "]"@ + error_marker(block) + "\n"@
        + result_content(or_null(member(block, "content"@)))
}

/// A tool result in words, if the block is one.
pub open spec fn result_part(names: Map<Seq<char>, Seq<char>>, block: Tree) -> Option<Seq<char>> {
    if text_member(block, "type"@) == Some("tool_result"@) {
        Some(tool_result_text(names, block))
    } else {
        None
    }
}

/// The tool results among the blocks in words.
pub open spec fn result_parts(names: Map<Seq<char>, Seq<char>>, blocks: Seq<Tree>) -> Seq<
    Seq<char>,
> {
    blocks.filter_map(|block: Tree| result_part(names, block))
}

/// A user's turn: plain text first, then the tool results, with a blank line between.
pub open spec fn user_text(said: Seq<Seq<char>>, results: Seq<Seq<char>>) -> Seq<char> {
    if results.len() == 0 {
        joined(said, "\n"@)
    } else if said.len() == 0 {
        joined(results, "\n\n"@)
    } else {
        joined(said, "\n"@) + "\n\n"@ + joined(results, "\n\n"@)
    }
}

/// The turn of a message, if its role takes part in the conversation.
pub open spec fn message_turn(names: Map<Seq<char>, Seq<char>>, message: Tree) -> Option<Turn> {
    let role = or_empty(text_member(message, "role"@));
    let blocks = content_blocks(or_null(member(message, "content"@)));
    if role == "assistant"@ {
        Some(Turn { role: "assistant"@, text: joined(assistant_parts(blocks), "\n"@) })
    } else if role == "user"@ {
        Some(
            Turn {
                role: "user"@,
                text: user_text(user_texts(blocks), result_parts(names, blocks)),
            },
        )
    } else {
        None
    }
}

/// The tool names by call, once a message's tool calls are noted.
pub open spec fn names_after(names: Map<Seq<char>, Seq<char>>, message: Tree) -> Map<
    Seq<char>,
    Seq<char>,
> {
    if or_empty(text_member(message, "role"@)) == "assistant"@ {
        noted_names(names, content_blocks(or_null(member(message, "content"@))))
    } else {
        names
    }
}

/// The tool names by call that the messages note.
pub open spec fn names_through(messages: Seq<Tree>) -> Map<Seq<char>, Seq<char>>
    decreases messages.len(),
{
    if messages.len() == 0 {
        Map::empty()
    } else {
        names_after(names_through(messages.drop_last()), messages.last())
    }
}

/// The turns of the messages, in order.
pub open spec fn message_turns(messages: Seq<Tree>) -> Seq<Turn>
    decreases messages.len(),
{
    if messages.len() == 0 {
        Seq::empty()
    } else {
        let earlier = message_turns(messages.drop_last());
        match message_turn(names_through(messages.drop_last()), messages.last()) {
            Some(turn) => earlier.push(turn),
            None => earlier,
        }
    }
}

/// The texts that a table of strings holds.
pub open spec fn name_texts(names: Map<Seq<char>, String>) -> Map<Seq<char>, Seq<char>> {
    names.map_values(|name: String| name@)
}

/// A copy of the member's text or, in its absence, an empty text.
fn text_or_empty(block: &Json, key: &str) -> (text: String)
    ensures
        text@ == or_empty(text_member(block@, key@)),
{
    match block.get_text(key) {
        Some(text) => text.clone(),
        None => String::new(),
    }
}

/// Whether the member under the key is that text.
fn has_text(block: &Json, key: &str, expected: &str) -> (same: bool)
    ensures
        same == (text_member(block@, key@) == Some(expected@)),
{
    match block.get_text(key) {
        Some(text) => same_text(text.as_str(), expected),
        None => false,
    }
}

/// The text of a text block, unless it is empty.
fn plain_text(block: &Json) -> (text: Option<String>)
    ensures
        match text {
            Some(held) => block_text(block@) == Some(held@),
            None => block_text(block@) is None,
        },
{
    if !has_text(block, "type", "text") {
        return None;
    }
    match block.get_text("text") {
        Some(text) => if text.as_str().is_empty() {
            None
        } else {
            Some(text.clone())
        },
        None => None,
    }
}

/// A tool call in words.
fn tool_call(block: &Json) -> (text: String)
    ensures
        text@ == tool_call_text(block@),
{
    let mut text = "[tool_call ".to_owned();
    text.append(text_or_empty(block, "name").as_str());
    text.append("] ");
    let rendered = match block.get("input") {
        Some(arguments) => match arguments {
            Json::Object(_) => python_json(arguments),
            _ => python_string_coerce(arguments),
        },
        None => python_string_coerce(&Json::Null),
    };
    text.append(rendered.as_str());
    text
}

/// Extending a sequence by an item extends what a filtering map gives by that item's image.
proof fn lemma_filter_map_next<A, B>(items: Seq<A>, image: spec_fn(A) -> Option<B>, i: int)
    requires
        0 <= i < items.len(),
    ensures
        items.take(i + 1).filter_map(image) == match image(items[i]) {
            Some(held) => items.take(i).filter_map(image).push(held),
            None => items.take(i).filter_map(image),
        },
{
    reveal(Seq::filter_map);
    assert(items.take(i + 1).drop_last() =~= items.take(i));
}

/// The text of an assistant's turn. Notes the name of each tool that is called.
fn assistant_turn(blocks: &Vec<Json>, names: &mut StringHashMap<String>) -> (text: String)
    ensures
        text@ == joined(assistant_parts(trees(blocks@)), "\n"@),
        name_texts(final(names)@) == noted_names(name_texts(old(names)@), trees(blocks@)),
{
    let mut parts: Vec<String> = Vec::new();
    let ghost all = trees(blocks@);
    let ghost image = |block: Tree| assistant_part(block);
    let ghost known = name_texts(names@);
    assert(texts(parts@) =~= all.take(0).filter_map(image)) by {
        reveal(Seq::filter_map);
    }
    for i in 0..blocks.len()
        invariant
            all == trees(blocks@),
            image == (|block: Tree| assistant_part(block)),
            texts(parts@) == all.take(i as int).filter_map(image),
            name_texts(names@) == noted_names(known, all.take(i as int)),
    {
        let block = &blocks[i];
        let ghost before = parts@;
        proof {
            lemma_filter_map_next(all, image, i as int);
            assert(all.take(i + 1).drop_last() =~= all.take(i as int));
            assert(all[i as int] == block@);
        }
        if has_text(block, "type", "tool_use") {
            let name = text_or_empty(block, "name");
            let id = text_or_empty(block, "id");
            let ghost noted = names@;
            let ghost entry = (id@, name);
            names.insert(id, name);
            assert(name_texts(names@) =~= name_texts(noted).insert(entry.0, entry.1@));
            parts.push(tool_call(block));
            assert(texts(parts@) =~= texts(before).push(parts@.last()@));
        } else if let Some(text) = plain_text(block) {
            parts.push(text);
            assert(texts(parts@) =~= texts(before).push(parts@.last()@));
        }
    }
    assert(all.take(blocks@.len() as int) =~= all);
    join(&parts, "\n")
}

/// The text of a tool result's content.
fn content_text(content: &Json) -> (text: String)
    ensures
        text@ == result_content(content@),
{
    match content {
        Json::Text(text) => text.clone(),
        Json::Array(items) => {
            let mut parts: Vec<String> = Vec::new();
            let ghost all = trees(items@);
            let ghost image = |item: Tree| result_item_text(item);
            assert(texts(parts@) =~= all.take(0).filter_map(image)) by {
                reveal(Seq::filter_map);
            }
            for i in 0..items.len()
                invariant
                    all == trees(items@),
                    image == (|item: Tree| result_item_text(item)),
                    texts(parts@) == all.take(i as int).filter_map(image),
            {
                let item = &items[i];
                let ghost before = parts@;
                proof {
                    lemma_filter_map_next(all, image, i as int);
                    assert(all[i as int] == item@);
                }
                if has_text(item, "type", "text") {
                    parts.push(text_or_empty(item, "text"));
                    assert(texts(parts@) =~= texts(before).push(parts@.last()@));
                }
            }
            assert(all.take(items@.len() as int) =~= all);
            join(&parts, "\n")
        },
        _ => String::new(),
    }
}

/// A tool result in words.
fn tool_result(names: &StringHashMap<String>, block: &Json) -> (text: String)
    ensures
        text@ == tool_result_text(name_texts(names@), block@),
{
    let mut text = "[tool_result ".to_owned();
    if let Some(id) = block.get_text("tool_use_id") {
        if let Some(name) = names.get(id.as_str()) {
            text.append(name.as_str());
        }
    }
    assert(text@ =~= "[tool_result "@ + result_name(name_texts(names@), block@));
    text.append("]");
    let failed = match block.get("is_error") {
        Some(Json::Bool(held)) => *held,
        _ => false,
    };
    text.append(
        if failed {
            " [tool error]"
        } else {
            ""
        },
    );
    text.append("\n");
    let content = match block.get("content") {
        Some(content) => content_text(content),
        None => content_text(&Json::Null),
    };
    text.append(content.as_str());
    text
}

/// The text of a user's turn.
fn user_turn(blocks: &Vec<Json>, names: &StringHashMap<String>) -> (text: String)
    ensures
        text@ == user_text(
            user_texts(trees(blocks@)),
            result_parts(name_texts(names@), trees(blocks@)),
        ),
{
    let mut said: Vec<String> = Vec::new();
    let mut results: Vec<String> = Vec::new();
    let ghost all = trees(blocks@);
    let ghost known = name_texts(names@);
    let ghost spoken = |block: Tree| block_text(block);
    let ghost returned = |block: Tree| result_part(known, block);
    assert(texts(said@) =~= all.take(0).filter_map(spoken)) by {
        reveal(Seq::filter_map);
    }
    assert(texts(results@) =~= all.take(0).filter_map(returned)) by {
        reveal(Seq::filter_map);
    }
    for i in 0..blocks.len()
        invariant
            all == trees(blocks@),
            known == name_texts(names@),
            spoken == (|block: Tree| block_text(block)),
            returned == (|block: Tree| result_part(known, block)),
            texts(said@) == all.take(i as int).filter_map(spoken),
            texts(results@) == all.take(i as int).filter_map(returned),
    {
        let block = &blocks[i];
        let ghost said_before = said@;
        let ghost results_before = results@;
        proof {
            lemma_filter_map_next(all, spoken, i as int);
            lemma_filter_map_next(all, returned, i as int);
            assert(all[i as int] == block@);
            reveal_strlit("text");
            reveal_strlit("tool_result");
            assert("text"@.len() != "tool_result"@.len());
        }
        if has_text(block, "type", "tool_result") {
            results.push(tool_result(names, block));
            assert(texts(results@) =~= texts(results_before).push(results@.last()@));
        } else if let Some(text) = plain_text(block) {
            said.push(text);
            assert(texts(said@) =~= texts(said_before).push(said@.last()@));
        }
    }
    assert(all.take(blocks@.len() as int) =~= all);
    if results.len() == 0 {
        join(&said, "\n")
    } else if said.len() == 0 {
        join(&results, "\n\n")
    } else {
        let mut text = join(&said, "\n");
        text.append("\n\n");
        text.append(join(&results, "\n\n").as_str());
        text
    }
}

/// The content block of a plain text.
fn block_of(text: &String) -> (block: Json)
    ensures
        block@ == text_block(text@),
{
    let mut object = JsonObject::new();
    object.insert("type".to_owned(), Json::Text("text".to_owned()));
    object.insert("text".to_owned(), Json::Text(text.clone()));
    Json::Object(object)
}

/// The turn of a message, if its role takes part in the conversation. Notes the name of each
/// tool that an assistant calls.
fn turn_of(message: &Json, names: &mut StringHashMap<String>) -> (turn: Option<HistoryTurn>)
    ensures
        match turn {
            Some(held) => message_turn(name_texts(old(names)@), message@) == Some(held@),
            None => message_turn(name_texts(old(names)@), message@) is None,
        },
        name_texts(final(names)@) == names_after(name_texts(old(names)@), message@),
{
    let role = text_or_empty(message, "role");
    let mut owned: Vec<Json> = Vec::new();
    let blocks = match message.get("content") {
        Some(Json::Text(text)) => {
            owned.push(block_of(text));
            &owned
        },
        Some(Json::Array(items)) => items,
        _ => &owned,
    };
    assert(trees(blocks@) =~= content_blocks(or_null(member(message@, "content"@))));
    if same_text(role.as_str(), "assistant") {
        let text = assistant_turn(blocks, names);
        Some(HistoryTurn { role: "assistant".to_owned(), text })
    } else if same_text(role.as_str(), "user") {
        let text = user_turn(blocks, names);
        Some(HistoryTurn { role: "user".to_owned(), text })
    } else {
        None
    }
}

/// The turns of a request's messages.
pub fn anthropic_messages_to_turns(request: &Json) -> (turns: Result<
    Vec<HistoryTurn>,
    HistoryError,
>)
    ensures
        match member(request@, "messages"@) {
            Some(Tree::Array(messages)) => turns is Ok && turn_views(turns->Ok_0@)
                == message_turns(messages),
            _ => turns == Err::<Vec<HistoryTurn>, HistoryError>(HistoryError::MissingMessages),
        },
{
    let messages = match request.get("messages") {
        Some(Json::Array(messages)) => messages,
        _ => {
            return Err(HistoryError::MissingMessages);
        },
    };
    let mut turns: Vec<HistoryTurn> = Vec::new();
    let mut names: StringHashMap<String> = StringHashMap::new();
    let ghost all = trees(messages@);
    assert(turn_views(turns@) =~= message_turns(all.take(0)));
    assert(name_texts(names@) =~= names_through(all.take(0)));
    for i in 0..messages.len()
        invariant
            all == trees(messages@),
            turn_views(turns@) == message_turns(all.take(i as int)),
            name_texts(names@) == names_through(all.take(i as int)),
    {
        let ghost before = turns@;
        assert(all.take(i + 1).drop_last() =~= all.take(i as int));
        assert(all[i as int] == messages@[i as int]@);
        if let Some(turn) = turn_of(&messages[i], &mut names) {
            turns.push(turn);
            assert(turn_views(turns@) =~= turn_views(before).push(turns@.last()@));
        }
    }
    assert(all.take(messages@.len() as int) =~= all);
    Ok(turns)
}

/// The history of a longer conversation begins with the history of a shorter one: what is said
/// later changes no earlier turn.
pub proof fn law_history_only_grows(messages: Seq<Tree>, later: Seq<Tree>)
    ensures
        message_turns(messages).is_prefix_of(message_turns(messages + later)),
    decreases later.len(),
{
    if later.len() == 0 {
        assert(messages + later =~= messages);
    } else {
        law_history_only_grows(messages, later.drop_last());
        assert((messages + later).drop_last() =~= messages + later.drop_last());
    }
}

/// Each message of an assistant or a user gives one turn, in that role, and no other message
/// gives any.
pub proof fn law_one_turn_per_speaking_message(messages: Seq<Tree>)
    ensures
        message_turns(messages).map_values(|turn: Turn| turn.role) == messages.filter_map(
            |message: Tree| speaking_role(message),
        ),
    decreases messages.len(),
{
    reveal(Seq::filter_map);
    reveal_strlit("assistant");
    reveal_strlit("user");
    assert("assistant"@.len() > 0 && "user"@.len() > 0);
    let role_of = |turn: Turn| turn.role;
    if messages.len() == 0 {
        assert(message_turns(messages).map_values(role_of) =~= Seq::<Seq<char>>::empty());
    } else {
        let earlier = messages.drop_last();
        law_one_turn_per_speaking_message(earlier);
        if let Some(turn) = message_turn(names_through(earlier), messages.last()) {
            assert(message_turns(messages).map_values(role_of) =~= message_turns(earlier).map_values(
                role_of,
            ).push(turn.role));
        }
    }
}

/// Some block is a tool call with that mark.
pub open spec fn calls_with_id(blocks: Seq<Tree>, id: Seq<char>) -> bool {
    exists|i: int|
        0 <= i < blocks.len() && is_tool_call(#[trigger] blocks[i]) && or_empty(
            text_member(blocks[i], "id"@),
        ) == id
}

/// The message is an assistant's and holds a tool call with that mark.
pub open spec fn message_calls_with_id(message: Tree, id: Seq<char>) -> bool {
    or_empty(text_member(message, "role"@)) == "assistant"@ && calls_with_id(
        content_blocks(or_null(member(message, "content"@))),
        id,
    )
}

/// Blocks without a call of that mark leave what is noted under it.
pub(crate) proof fn lemma_other_calls_keep_name(
    names: Map<Seq<char>, Seq<char>>,
    blocks: Seq<Tree>,
    id: Seq<char>,
)
    requires
        !calls_with_id(blocks, id),
    ensures
        noted_names(names, blocks).contains_key(id) == names.contains_key(id),
        names.contains_key(id) ==> noted_names(names, blocks)[id] == names[id],
    decreases blocks.len(),
{
    if blocks.len() > 0 {
        let front = blocks.drop_last();
        assert forall|i: int| 0 <= i < front.len() implies !(is_tool_call(#[trigger] front[i])
            && or_empty(text_member(front[i], "id"@)) == id) by {
            assert(front[i] == blocks[i]);
        }
        lemma_other_calls_keep_name(names, front, id);
        assert(blocks[blocks.len() - 1] == blocks.last());
    }
}

/// A tool result is told under the name of the latest call with its mark, however many messages
/// with other calls lie between.
pub proof fn law_tool_result_is_named_by_its_call(
    messages: Seq<Tree>,
    calling: Tree,
    earlier_blocks: Seq<Tree>,
    call: Tree,
    later_blocks: Seq<Tree>,
    later: Seq<Tree>,
    result: Tree,
)
    requires
        or_empty(text_member(calling, "role"@)) == "assistant"@,
        content_blocks(or_null(member(calling, "content"@))) == earlier_blocks.push(call)
            + later_blocks,
        is_tool_call(call),
        text_member(result, "tool_use_id"@) == Some(or_empty(text_member(call, "id"@))),
        !calls_with_id(later_blocks, or_empty(text_member(call, "id"@))),
        forall|i: int|
            0 <= i < later.len() ==> !message_calls_with_id(
                #[trigger] later[i],
                or_empty(text_member(call, "id"@)),
            ),
    ensures
        result_name(names_through(messages.push(calling) + later), result) == or_empty(
            text_member(call, "name"@),
        ),
{
    lemma_call_is_noted(messages, calling, earlier_blocks, call, later_blocks, later);
}

/// The mark of a call is noted with its name from the call on.
proof fn lemma_call_is_noted(
    messages: Seq<Tree>,
    calling: Tree,
    earlier_blocks: Seq<Tree>,
    call: Tree,
    later_blocks: Seq<Tree>,
    later: Seq<Tree>,
)
    requires
        or_empty(text_member(calling, "role"@)) == "assistant"@,
        content_blocks(or_null(member(calling, "content"@))) == earlier_blocks.push(call)
            + later_blocks,
        is_tool_call(call),
        !calls_with_id(later_blocks, or_empty(text_member(call, "id"@))),
        forall|i: int|
            0 <= i < later.len() ==> !message_calls_with_id(
                #[trigger] later[i],
                or_empty(text_member(call, "id"@)),
            ),
    ensures
        names_through(messages.push(calling) + later).contains_key(
            or_empty(text_member(call, "id"@)),
        ),
        names_through(messages.push(calling) + later)[or_empty(text_member(call, "id"@))]
            == or_empty(text_member(call, "name"@)),
    decreases later.len(),
{
    let id = or_empty(text_member(call, "id"@));
    let whole = messages.push(calling) + later;
    if later.len() > 0 {
        let fewer = later.drop_last();
        assert forall|i: int| 0 <= i < fewer.len() implies !message_calls_with_id(
            #[trigger] fewer[i],
            id,
        ) by {
            assert(fewer[i] == later[i]);
        }
        lemma_call_is_noted(messages, calling, earlier_blocks, call, later_blocks, fewer);
        assert(whole.drop_last() =~= messages.push(calling) + fewer);
        let last = later[later.len() - 1];
        assert(whole.last() == last);
        if or_empty(text_member(last, "role"@)) == "assistant"@ {
            lemma_other_calls_keep_name(
                names_through(whole.drop_last()),
                content_blocks(or_null(member(last, "content"@))),
                id,
            );
        }
    } else {
        assert(whole =~= messages.push(calling));
        assert(whole.drop_last() =~= messages);
        lemma_call_among_blocks(names_through(messages), earlier_blocks, call, later_blocks);
    }
}

/// The mark of a call among blocks is noted with its name.
proof fn lemma_call_among_blocks(
    names: Map<Seq<char>, Seq<char>>,
    earlier_blocks: Seq<Tree>,
    call: Tree,
    later_blocks: Seq<Tree>,
)
    requires
        is_tool_call(call),
        !calls_with_id(later_blocks, or_empty(text_member(call, "id"@))),
    ensures
        noted_names(names, earlier_blocks.push(call) + later_blocks).contains_key(
            or_empty(text_member(call, "id"@)),
        ),
        noted_names(names, earlier_blocks.push(call) + later_blocks)[or_empty(
            text_member(call, "id"@),
        )] == or_empty(text_member(call, "name"@)),
    decreases later_blocks.len(),
{
    let id = or_empty(text_member(call, "id"@));
    let whole = earlier_blocks.push(call) + later_blocks;
    if later_blocks.len() > 0 {
        let front = later_blocks.drop_last();
        assert forall|i: int| 0 <= i < front.len() implies !(is_tool_call(#[trigger] front[i])
            && or_empty(text_member(front[i], "id"@)) == id) by {
            assert(front[i] == later_blocks[i]);
        }
        lemma_call_among_blocks(names, earlier_blocks, call, front);
        assert(whole.drop_last() =~= earlier_blocks.push(call) + front);
        assert(whole.last() == later_blocks[later_blocks.len() - 1]);
    } else {
        assert(whole =~= earlier_blocks.push(call));
        assert(whole.drop_last() =~= earlier_blocks);
    }
}

/// The role of a message, if it takes part in the conversation.
pub open spec fn speaking_role(message: Tree) -> Option<Seq<char>> {
    match text_member(message, "role"@) {
        Some(role) => if role == "assistant"@ || role == "user"@ {
            Some(role)
        } else {
            None
        },
        None => None,
    }
}

} // verus!
