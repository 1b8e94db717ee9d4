//! The request that goes to a worker: what the worker's policy owns is put in, what only
//! Anthropic's own endpoint takes is left out.

use vstd::prelude::*;
use crate::json::{
    has_member, keys_ascend, law_members_are_their_lookups, law_read_after_insert,
    law_read_after_remove, lemma_insert_same, lemma_lookup_is_some, lemma_remove_then_insert,
    lemma_removed_stays_out, lemma_without_absent, lookup, trees, with_member, without_member, Json,
    JsonObject, Tree,
};
use crate::number::{JsonNumber, Numeral};
use crate::text::same_text;

verus! {

/// A worker that requests are sent to, with the policy that its manifest sets. Values that are
/// only passed on stand here as JSON.
#[derive(Debug, PartialEq)]
pub struct WorkerManifest {
    pub id: String,
    pub openrouter_max_retries: u64,
    pub openrouter_provider_slug: Json,
    pub openrouter_provider_order: Json,
    pub openrouter_allow_fallbacks: Json,
    pub minimum_completion_tokens: u64,
    pub max_completion_tokens: Option<u64>,
    pub temperature: Option<Json>,
}

/// Why a request cannot be sent to a worker.
#[derive(Debug, PartialEq)]
pub enum DispatchError {
    /// No worker of the manifest has the id.
    WorkerAbsent,
    /// The body is not an object.
    BodyNotObject,
    /// The worker's limit is below the worker's minimum.
    LimitsIncompatible,
}

impl DispatchError {
    /// The error in words.
    pub open spec fn words(self) -> Seq<char> {
        match self {
            DispatchError::WorkerAbsent => "C82 worker is absent from manifest"@,
            DispatchError::BodyNotObject => "Anthropic request body must be an object"@,
            DispatchError::LimitsIncompatible => "C82 worker completion limits are incompatible"@,
        }
    }

    /// The error in words.
    pub fn message(&self) -> (text: String)
        ensures
            text@ == self.words(),
    {
        match self {
            DispatchError::WorkerAbsent => "C82 worker is absent from manifest".to_owned(),
            DispatchError::BodyNotObject => "Anthropic request body must be an object".to_owned(),
            DispatchError::LimitsIncompatible =>
                "C82 worker completion limits are incompatible".to_owned(),
        }
    }
}

/// The position of the worker in the manifest: the first with its id.
pub fn worker_arm(workers: &Vec<WorkerManifest>, worker: &WorkerManifest) -> (arm: Result<
    usize,
    DispatchError,
>)
    ensures
        match arm {
            Ok(index) => index < workers@.len() && workers@[index as int].id@ == worker.id@
                && forall|i: int| 0 <= i < index ==> (#[trigger] workers@[i]).id@ != worker.id@,
            Err(error) => error == DispatchError::WorkerAbsent && forall|i: int|
                0 <= i < workers@.len() ==> (#[trigger] workers@[i]).id@ != worker.id@,
        },
{
    for i in 0..workers.len()
        invariant
            forall|j: int| 0 <= j < i ==> (#[trigger] workers@[j]).id@ != worker.id@,
    {
        if same_text(workers[i].id.as_str(), worker.id.as_str()) {
            return Ok(i);
        }
    }
    Err(DispatchError::WorkerAbsent)
}

/// A tool without the fields that only Anthropic's own endpoint takes.
pub open spec fn portable_tool(tool: Tree) -> Tree {
    match tool {
        Tree::Object(members) => Tree::Object(
            without_member(
                without_member(without_member(members, "defer_loading"@), "allowed_callers"@),
                "eager_input_streaming"@,
            ),
        ),
        _ => tool,
    }
}

/// The tools without the fields that only Anthropic's own endpoint takes.
pub open spec fn portable_tools(tools: Seq<Tree>) -> Seq<Tree> {
    tools.map_values(|tool: Tree| portable_tool(tool))
}

/// The members with their tools in a form that any endpoint takes.
pub open spec fn with_portable_tools(members: Seq<(Seq<char>, Tree)>) -> Seq<(Seq<char>, Tree)> {
    match lookup(members, "tools"@) {
        Some(Tree::Array(tools)) => with_member(
            members,
            "tools"@,
            Tree::Array(portable_tools(tools)),
        ),
        _ => members,
    }
}

/// Takes the fields out of a tool that only Anthropic's own endpoint takes.
fn materialize_tool(tool: &mut Json)
    ensures
        final(tool)@ == portable_tool(old(tool)@),
{
    match tool {
        Json::Object(object) => {
            object.remove("defer_loading");
            object.remove("allowed_callers");
            object.remove("eager_input_streaming");
        },
        _ => {},
    }
}

/// Takes the fields out of each tool that only Anthropic's own endpoint takes.
pub fn materialize_claude_tools_for_non_anthropic(object: &mut JsonObject)
    ensures
        final(object)@ == with_portable_tools(old(object)@),
{
    let ghost before = object@;
    match object.remove("tools") {
        Some(Json::Array(tools)) => {
            let mut tools = tools;
            let count = tools.len();
            let ghost start = trees(tools@);
            for i in 0..count
                invariant
                    count == tools@.len() == start.len(),
                    forall|j: int|
                        0 <= j < count ==> #[trigger] trees(tools@)[j] == if j < i {
                            portable_tool(start[j])
                        } else {
                            start[j]
                        },
            {
                let ghost earlier = tools@;
                assert(trees(earlier)[i as int] == earlier[i as int]@);
                materialize_tool(&mut tools[i]);
                assert forall|j: int| 0 <= j < count implies #[trigger] trees(tools@)[j] == if j < i
                    + 1 {
                    portable_tool(start[j])
                } else {
                    start[j]
                } by {
                    if j != i {
                        assert(tools@[j] == earlier[j]);
                        assert(trees(earlier)[j] == earlier[j]@);
                    }
                }
            }
            assert(trees(tools@) =~= portable_tools(start));
            object.insert("tools".to_owned(), Json::Array(tools));
            proof {
                lemma_remove_then_insert(before, "tools"@, Tree::Array(portable_tools(start)));
            }
        },
        Some(other) => {
            let ghost tree = other@;
            object.insert("tools".to_owned(), other);
            proof {
                lemma_remove_then_insert(before, "tools"@, tree);
                lemma_insert_same(before, "tools"@, tree);
            }
        },
        None => {
            proof {
                lemma_without_absent(before, "tools"@);
            }
        },
    }
}

/// The members without the controls that the worker's policy owns.
pub open spec fn without_controls(members: Seq<(Seq<char>, Tree)>) -> Seq<(Seq<char>, Tree)> {
    without_member(
        without_member(
            without_member(without_member(members, "context_management"@), "diagnostics"@),
            "output_config"@,
        ),
        "thinking"@,
    )
}

/// Takes out the controls that only Anthropic's own endpoint takes. The worker's manifest owns
/// what they govern, and an endpoint that must honour every parameter would refuse them.
pub fn remove_anthropic_only_controls(object: &mut JsonObject)
    ensures
        final(object)@ == without_controls(old(object)@),
{
    object.remove("context_management");
    object.remove("diagnostics");
    object.remove("output_config");
    object.remove("thinking");
}

/// The completion tokens that a body asks for; 0 if it does not say so with an integer.
pub open spec fn requested_tokens(members: Seq<(Seq<char>, Tree)>) -> int {
    match lookup(members, "max_tokens"@) {
        Some(Tree::Number(Numeral::Integer(integer))) => if integer >= 0 {
            integer
        } else {
            0
        },
        _ => 0,
    }
}

/// The completion tokens that a worker gets: at least its minimum, at most its limit.
pub open spec fn granted_tokens(requested: int, worker: WorkerManifest) -> int {
    let wanted = if requested < worker.minimum_completion_tokens {
        worker.minimum_completion_tokens as int
    } else {
        requested
    };
    match worker.max_completion_tokens {
        Some(limit) => if limit < wanted {
            limit as int
        } else {
            wanted
        },
        None => wanted,
    }
}

/// The worker's limit is not below its minimum.
pub open spec fn limits_compatible(worker: WorkerManifest) -> bool {
    worker.max_completion_tokens matches Some(limit) ==> worker.minimum_completion_tokens <= limit
}

/// The members with the token limit that the worker gets; a limit of zero is not written.
pub open spec fn with_token_limit(
    members: Seq<(Seq<char>, Tree)>,
    worker: WorkerManifest,
) -> Seq<(Seq<char>, Tree)> {
    let granted = granted_tokens(requested_tokens(members), worker);
    if granted > 0 {
        with_member(members, "max_tokens"@, Tree::Number(Numeral::Integer(granted)))
    } else {
        members
    }
}

/// The members with the worker's temperature, or without any.
pub open spec fn with_temperature(
    members: Seq<(Seq<char>, Tree)>,
    worker: WorkerManifest,
) -> Seq<(Seq<char>, Tree)> {
    match worker.temperature {
        Some(value) => with_member(members, "temperature"@, value@),
        None => without_member(members, "temperature"@),
    }
}

/// The members of the body that goes to the worker.
pub open spec fn owned_members(
    members: Seq<(Seq<char>, Tree)>,
    worker: WorkerManifest,
) -> Seq<(Seq<char>, Tree)> {
    without_controls(with_portable_tools(with_temperature(with_token_limit(members, worker), worker)))
}

/// The body as it goes to the worker: its token limit, temperature, tools and controls as the
/// worker's policy has them.
pub fn policy_owned_dispatch(body: Json, worker: &WorkerManifest) -> (dispatch: Result<
    Json,
    DispatchError,
>)
    ensures
        match body@ {
            Tree::Object(members) => if limits_compatible(*worker) {
                dispatch is Ok && dispatch->Ok_0@ == Tree::Object(owned_members(members, *worker))
            } else {
                dispatch == Err::<Json, DispatchError>(DispatchError::LimitsIncompatible)
            },
            _ => dispatch == Err::<Json, DispatchError>(DispatchError::BodyNotObject),
        },
{
    let mut object = match body {
        Json::Object(object) => object,
        _ => {
            return Err(DispatchError::BodyNotObject);
        },
    };
    let requested = match object.get("max_tokens") {
        Some(Json::Number(number)) => match number.as_u64() {
            Some(value) => value,
            None => 0,
        },
        _ => 0,
    };
    let mut completion = requested;
    if completion < worker.minimum_completion_tokens {
        completion = worker.minimum_completion_tokens;
    }
    if let Some(limit) = worker.max_completion_tokens {
        if limit < worker.minimum_completion_tokens {
            return Err(DispatchError::LimitsIncompatible);
        }
        if limit < completion {
            completion = limit;
        }
    }
    if completion > 0 {
        object.insert("max_tokens".to_owned(), Json::Number(JsonNumber::Unsigned(completion)));
    }
    match &worker.temperature {
        Some(value) => {
            object.insert("temperature".to_owned(), value.copy());
        },
        None => {
            object.remove("temperature");
        },
    }
    materialize_claude_tools_for_non_anthropic(&mut object);
    remove_anthropic_only_controls(&mut object);
    Ok(Json::Object(object))
}

/// The worker's grant lies between its minimum and its limit.
pub proof fn law_grant_is_within_limits(requested: int, worker: WorkerManifest)
    requires
        limits_compatible(worker),
    ensures
        worker.minimum_completion_tokens <= granted_tokens(requested, worker),
        worker.max_completion_tokens matches Some(limit) ==> granted_tokens(requested, worker)
            <= limit,
        granted_tokens(granted_tokens(requested, worker), worker) == granted_tokens(
            requested,
            worker,
        ),
{
}

/// A control that only Anthropic's own endpoint takes.
pub open spec fn is_control(key: Seq<char>) -> bool {
    ||| key == "context_management"@
    ||| key == "diagnostics"@
    ||| key == "output_config"@
    ||| key == "thinking"@
}

/// The members that the policy decides about are told apart by their keys.
pub(crate) proof fn lemma_owned_keys_differ()
    ensures
        "max_tokens"@ != "temperature"@,
        "max_tokens"@ != "tools"@,
        "temperature"@ != "tools"@,
        !is_control("max_tokens"@),
        !is_control("temperature"@),
        !is_control("tools"@),
{
    reveal_strlit("max_tokens");
    reveal_strlit("temperature");
    reveal_strlit("tools");
    reveal_strlit("context_management");
    reveal_strlit("diagnostics");
    reveal_strlit("output_config");
    reveal_strlit("thinking");
    assert("max_tokens"@.len() == 10);
    assert("temperature"@.len() == 11);
    assert("tools"@.len() == 5);
    assert("context_management"@.len() == 18);
    assert("diagnostics"@.len() == 11);
    assert("output_config"@.len() == 13);
    assert("thinking"@.len() == 8);
    assert("temperature"@[0] == 't' && "diagnostics"@[0] == 'd');
}

/// Without controls, no control is found and everything else is.
proof fn lemma_without_controls(members: Seq<(Seq<char>, Tree)>, key: Seq<char>)
    requires
        keys_ascend(members),
    ensures
        keys_ascend(without_controls(members)),
        lookup(without_controls(members), key) == if is_control(key) {
            None
        } else {
            lookup(members, key)
        },
{
    let first = without_member(members, "context_management"@);
    let second = without_member(first, "diagnostics"@);
    let third = without_member(second, "output_config"@);
    law_read_after_remove(members, "context_management"@, key);
    law_read_after_remove(first, "diagnostics"@, key);
    law_read_after_remove(second, "output_config"@, key);
    law_read_after_remove(third, "thinking"@, key);
}

/// With portable tools, only what stands under `tools` may differ.
proof fn lemma_with_portable_tools(members: Seq<(Seq<char>, Tree)>, key: Seq<char>)
    requires
        keys_ascend(members),
    ensures
        keys_ascend(with_portable_tools(members)),
        lookup(with_portable_tools(members), key) == if key == "tools"@ {
            owned_tools(members)
        } else {
            lookup(members, key)
        },
{
    if let Some(Tree::Array(tools)) = lookup(members, "tools"@) {
        law_read_after_insert(members, "tools"@, Tree::Array(portable_tools(tools)), key);
    }
}

/// What stands under `tools` once the tools are portable.
pub open spec fn owned_tools(members: Seq<(Seq<char>, Tree)>) -> Option<Tree> {
    match lookup(members, "tools"@) {
        Some(Tree::Array(tools)) => Some(Tree::Array(portable_tools(tools))),
        other => other,
    }
}

/// What stands under `max_tokens` once the worker's policy has decided.
pub open spec fn owned_limit(members: Seq<(Seq<char>, Tree)>, worker: WorkerManifest) -> Option<
    Tree,
> {
    let granted = granted_tokens(requested_tokens(members), worker);
    if granted > 0 {
        Some(Tree::Number(Numeral::Integer(granted)))
    } else {
        lookup(members, "max_tokens"@)
    }
}

/// What stands under `temperature` once the worker's policy has decided.
pub open spec fn owned_temperature(worker: WorkerManifest) -> Option<Tree> {
    match worker.temperature {
        Some(value) => Some(value@),
        None => None,
    }
}

/// The worker's policy owns the token limit, the temperature, the tools' form and the controls of
/// a dispatched body: no control is left, and every member that it does not own is as the body
/// had it.
pub proof fn law_policy_owns_its_members(
    members: Seq<(Seq<char>, Tree)>,
    worker: WorkerManifest,
    key: Seq<char>,
)
    requires
        keys_ascend(members),
    ensures
        keys_ascend(owned_members(members, worker)),
        lookup(owned_members(members, worker), key) == if key == "max_tokens"@ {
            owned_limit(members, worker)
        } else if key == "temperature"@ {
            owned_temperature(worker)
        } else if key == "tools"@ {
            owned_tools(members)
        } else if is_control(key) {
            None
        } else {
            lookup(members, key)
        },
{
    lemma_owned_keys_differ();
    let granted = granted_tokens(requested_tokens(members), worker);
    let limited = with_token_limit(members, worker);
    if granted > 0 {
        law_read_after_insert(
            members,
            "max_tokens"@,
            Tree::Number(Numeral::Integer(granted)),
            key,
        );
        law_read_after_insert(
            members,
            "max_tokens"@,
            Tree::Number(Numeral::Integer(granted)),
            "tools"@,
        );
    }
    let warmed = with_temperature(limited, worker);
    match worker.temperature {
        Some(value) => {
            law_read_after_insert(limited, "temperature"@, value@, key);
            law_read_after_insert(limited, "temperature"@, value@, "tools"@);
        },
        None => {
            law_read_after_remove(limited, "temperature"@, key);
            law_read_after_remove(limited, "temperature"@, "tools"@);
        },
    }
    lemma_with_portable_tools(warmed, key);
    lemma_without_controls(with_portable_tools(warmed), key);
}

/// A portable tool has none of the fields that only Anthropic's own endpoint takes, and keeps
/// every other field.
pub proof fn law_portable_tool(members: Seq<(Seq<char>, Tree)>, key: Seq<char>)
    requires
        keys_ascend(members),
    ensures
        portable_tool(Tree::Object(members)) matches Tree::Object(kept) && keys_ascend(kept)
            && lookup(kept, key) == if is_tool_control(key) {
            None
        } else {
            lookup(members, key)
        },
{
    let first = without_member(members, "defer_loading"@);
    let second = without_member(first, "allowed_callers"@);
    law_read_after_remove(members, "defer_loading"@, key);
    law_read_after_remove(first, "allowed_callers"@, key);
    law_read_after_remove(second, "eager_input_streaming"@, key);
}

/// A field of a tool that only Anthropic's own endpoint takes.
pub open spec fn is_tool_control(key: Seq<char>) -> bool {
    ||| key == "defer_loading"@
    ||| key == "allowed_callers"@
    ||| key == "eager_input_streaming"@
}

/// The tools of a body, none if it has no array of them.
pub open spec fn tools_of(members: Seq<(Seq<char>, Tree)>) -> Seq<Tree> {
    match lookup(members, "tools"@) {
        Some(Tree::Array(tools)) => tools,
        _ => Seq::empty(),
    }
}

/// The keys of the members, as an array of texts.
pub open spec fn key_list(members: Seq<(Seq<char>, Tree)>) -> Tree {
    Tree::Array(members.map_values(|entry: (Seq<char>, Tree)| Tree::Text(entry.0)))
}

/// The known keys and those of the members, ascending, each once.
pub open spec fn keys_with(
    known: Seq<(Seq<char>, Tree)>,
    members: Seq<(Seq<char>, Tree)>,
) -> Seq<(Seq<char>, Tree)>
    decreases members.len(),
{
    if members.len() == 0 {
        known
    } else {
        with_member(keys_with(known, members.drop_last()), members.last().0, Tree::Null)
    }
}

/// The keys that occur in any of the tools, ascending, each once.
pub open spec fn tool_keys(tools: Seq<Tree>) -> Seq<(Seq<char>, Tree)>
    decreases tools.len(),
{
    if tools.len() == 0 {
        Seq::empty()
    } else {
        match tools.last() {
            Tree::Object(members) => keys_with(tool_keys(tools.drop_last()), members),
            _ => tool_keys(tools.drop_last()),
        }
    }
}

/// The shape of a body: the names of its fields, the number of its tools and the names of their
/// fields.
pub open spec fn request_shape(dispatch: Tree) -> Tree {
    match dispatch {
        Tree::Object(members) => {
            let tools = tools_of(members);
            let named = with_member(Seq::empty(), "top_level_keys"@, key_list(members));
            let counted = with_member(
                named,
                "tool_count"@,
                Tree::Number(Numeral::Integer(tools.len() as int)),
            );
            Tree::Object(with_member(counted, "tool_keys"@, key_list(tool_keys(tools))))
        },
        _ => Tree::Object(
            with_member(Seq::empty(), "top_level_keys"@, Tree::Array(Seq::empty())),
        ),
    }
}

/// The keys of an object, as an array of texts.
fn keys_of(object: &JsonObject) -> (keys: Json)
    ensures
        keys@ == key_list(object@),
{
    let mut keys: Vec<Json> = Vec::new();
    let count = object.len();
    for i in 0..count
        invariant
            count == object@.len(),
            keys@.len() == i,
            forall|j: int| 0 <= j < i ==> #[trigger] trees(keys@)[j] == Tree::Text(object@[j].0),
    {
        let ghost before = keys@;
        keys.push(Json::Text(object.key_at(i).clone()));
        assert forall|j: int| 0 <= j < i + 1 implies #[trigger] trees(keys@)[j] == Tree::Text(
            object@[j].0,
        ) by {
            if j < i {
                assert(keys@[j] == before[j]);
                assert(trees(before)[j] == before[j]@);
            }
        }
    }
    assert(trees(keys@) =~= object@.map_values(|entry: (Seq<char>, Tree)| Tree::Text(entry.0)));
    Json::Array(keys)
}

/// Notes the keys of an object.
fn note_keys(known: &mut JsonObject, object: &JsonObject)
    ensures
        final(known)@ == keys_with(old(known)@, object@),
{
    let count = object.len();
    for i in 0..count
        invariant
            count == object@.len(),
            known@ == keys_with(old(known)@, object@.take(i as int)),
    {
        known.insert(object.key_at(i).clone(), Json::Null);
        assert(object@.take(i + 1).drop_last() =~= object@.take(i as int));
    }
    assert(object@.take(count as int) =~= object@);
}

/// The shape of a body for the log, which holds no content: the names of its fields, the number
/// of its tools and the names of their fields.
pub fn dispatch_request_shape(dispatch: &Json) -> (shape: Json)
    ensures
        shape@ == request_shape(dispatch@),
{
    let mut shape = JsonObject::new();
    let object = match dispatch {
        Json::Object(object) => object,
        _ => {
            let none: Vec<Json> = Vec::new();
            assert(trees(none@) =~= Seq::<Tree>::empty());
            shape.insert("top_level_keys".to_owned(), Json::Array(none));
            return Json::Object(shape);
        },
    };
    let none: Vec<Json> = Vec::new();
    assert(trees(none@) =~= Seq::<Tree>::empty());
    let tools = match object.get("tools") {
        Some(Json::Array(tools)) => tools,
        _ => &none,
    };
    let mut keys = JsonObject::new();
    let ghost all = trees(tools@);
    for i in 0..tools.len()
        invariant
            all == trees(tools@),
            keys@ == tool_keys(all.take(i as int)),
    {
        assert(all.take(i + 1).drop_last() =~= all.take(i as int));
        assert(all[i as int] == tools@[i as int]@);
        match &tools[i] {
            Json::Object(tool) => {
                note_keys(&mut keys, tool);
            },
            _ => {},
        }
    }
    assert(all.take(tools@.len() as int) =~= all);
    shape.insert("top_level_keys".to_owned(), keys_of(object));
    shape.insert("tool_count".to_owned(), Json::Number(JsonNumber::Unsigned(tools.len() as u64)));
    shape.insert("tool_keys".to_owned(), keys_of(&keys));
    Json::Object(shape)
}

/// Making a tool portable twice is making it portable once.
proof fn lemma_portable_tool_twice(tool: Tree)
    ensures
        portable_tool(portable_tool(tool)) == portable_tool(tool),
{
    if let Tree::Object(members) = tool {
        let first = without_member(members, "defer_loading"@);
        let second = without_member(first, "allowed_callers"@);
        let third = without_member(second, "eager_input_streaming"@);
        lemma_removed_stays_out(members, "defer_loading"@, "defer_loading"@);
        lemma_removed_stays_out(first, "allowed_callers"@, "defer_loading"@);
        lemma_removed_stays_out(second, "eager_input_streaming"@, "defer_loading"@);
        lemma_removed_stays_out(first, "allowed_callers"@, "allowed_callers"@);
        lemma_removed_stays_out(second, "eager_input_streaming"@, "allowed_callers"@);
        lemma_removed_stays_out(second, "eager_input_streaming"@, "eager_input_streaming"@);
        lemma_lookup_is_some(third, "defer_loading"@);
        lemma_lookup_is_some(third, "allowed_callers"@);
        lemma_lookup_is_some(third, "eager_input_streaming"@);
        lemma_without_absent(third, "defer_loading"@);
        lemma_without_absent(third, "allowed_callers"@);
        lemma_without_absent(third, "eager_input_streaming"@);
    }
}

/// A body that the worker's policy has been applied to is left as it is when the policy is
/// applied again.
pub proof fn law_policy_applied_twice_is_applied_once(
    members: Seq<(Seq<char>, Tree)>,
    worker: WorkerManifest,
)
    requires
        keys_ascend(members),
        limits_compatible(worker),
    ensures
        owned_members(owned_members(members, worker), worker) == owned_members(members, worker),
{
    let once = owned_members(members, worker);
    let twice = owned_members(once, worker);
    lemma_owned_keys_differ();
    law_policy_owns_its_members(members, worker, "max_tokens"@);
    law_policy_owns_its_members(members, worker, "tools"@);
    law_grant_is_within_limits(requested_tokens(members), worker);
    law_policy_owns_its_members(once, worker, "max_tokens"@);
    if let Some(Tree::Array(tools)) = lookup(members, "tools"@) {
        assert forall|i: int| 0 <= i < tools.len() implies portable_tools(portable_tools(tools))[i]
            == portable_tools(tools)[i] by {
            lemma_portable_tool_twice(tools[i]);
        }
        assert(portable_tools(portable_tools(tools)) =~= portable_tools(tools));
    }
    assert forall|key: Seq<char>| #[trigger] lookup(twice, key) == lookup(once, key) by {
        law_policy_owns_its_members(members, worker, key);
        law_policy_owns_its_members(once, worker, key);
    }
    law_members_are_their_lookups(twice, once);
}

/// The same names stand in the same places.
pub open spec fn same_names(
    left: Seq<(Seq<char>, Tree)>,
    right: Seq<(Seq<char>, Tree)>,
) -> bool {
    left.len() == right.len() && forall|i: int|
        0 <= i < left.len() ==> (#[trigger] left[i]).0 == right[i].0
}

/// Both tools have the same fields, or neither is an object.
pub open spec fn same_tool_names(left: Tree, right: Tree) -> bool {
    match (left, right) {
        (Tree::Object(members), Tree::Object(others)) => same_names(members, others),
        (Tree::Object(_), _) => false,
        (_, Tree::Object(_)) => false,
        _ => true,
    }
}

/// The noted keys depend on names alone.
proof fn lemma_keys_with_names(
    known: Seq<(Seq<char>, Tree)>,
    left: Seq<(Seq<char>, Tree)>,
    right: Seq<(Seq<char>, Tree)>,
)
    requires
        same_names(left, right),
    ensures
        keys_with(known, left) == keys_with(known, right),
    decreases left.len(),
{
    if left.len() > 0 {
        assert forall|i: int| 0 <= i < left.len() - 1 implies (#[trigger] left.drop_last()[i]).0
            == right.drop_last()[i].0 by {
            assert(left[i].0 == right[i].0);
        }
        lemma_keys_with_names(known, left.drop_last(), right.drop_last());
        assert(left[left.len() - 1].0 == right[right.len() - 1].0);
    }
}

/// The keys of the tools depend on names alone.
proof fn lemma_tool_keys_names(left: Seq<Tree>, right: Seq<Tree>)
    requires
        left.len() == right.len(),
        forall|i: int| 0 <= i < left.len() ==> same_tool_names(#[trigger] left[i], right[i]),
    ensures
        tool_keys(left) == tool_keys(right),
    decreases left.len(),
{
    if left.len() > 0 {
        assert forall|i: int| 0 <= i < left.len() - 1 implies same_tool_names(
            #[trigger] left.drop_last()[i],
            right.drop_last()[i],
        ) by {
            assert(same_tool_names(left[i], right[i]));
        }
        lemma_tool_keys_names(left.drop_last(), right.drop_last());
        let last = left.len() - 1;
        assert(same_tool_names(left[last], right[last]));
        if let (Tree::Object(members), Tree::Object(others)) = (left[last], right[last]) {
            lemma_keys_with_names(tool_keys(left.drop_last()), members, others);
        }
    }
}

/// The shape of a body records field names and counts only: bodies whose fields and whose tools'
/// fields are named alike have the same shape, whatever the fields hold.
pub proof fn law_shape_holds_names_and_counts_only(
    left: Seq<(Seq<char>, Tree)>,
    right: Seq<(Seq<char>, Tree)>,
)
    requires
        same_names(left, right),
        tools_of(left).len() == tools_of(right).len(),
        forall|i: int|
            0 <= i < tools_of(left).len() ==> same_tool_names(
                #[trigger] tools_of(left)[i],
                tools_of(right)[i],
            ),
    ensures
        request_shape(Tree::Object(left)) == request_shape(Tree::Object(right)),
{
    lemma_tool_keys_names(tools_of(left), tools_of(right));
    assert(key_list(left)->Array_0 =~= key_list(right)->Array_0);
}

/// Noting keys keeps them ascending, and notes the members' keys and no others.
proof fn lemma_keys_with(
    known: Seq<(Seq<char>, Tree)>,
    members: Seq<(Seq<char>, Tree)>,
    key: Seq<char>,
)
    requires
        keys_ascend(known),
    ensures
        keys_ascend(keys_with(known, members)),
        has_member(keys_with(known, members), key) <==> has_member(known, key) || has_member(
            members,
            key,
        ),
    decreases members.len(),
{
    if members.len() > 0 {
        let front = members.drop_last();
        let earlier = keys_with(known, front);
        lemma_keys_with(known, front, key);
        law_read_after_insert(earlier, members.last().0, Tree::Null, key);
        lemma_lookup_is_some(earlier, key);
        lemma_lookup_is_some(keys_with(known, members), key);
        if has_member(front, key) {
            let i = choose|i: int| 0 <= i < front.len() && (#[trigger] front[i]).0 == key;
            assert(members[i].0 == key);
        }
        if has_member(members, key) && members.last().0 != key {
            let i = choose|i: int| 0 <= i < members.len() && (#[trigger] members[i]).0 == key;
            assert(front[i].0 == key);
        }
        if members.last().0 == key {
            assert(members[members.len() - 1].0 == key);
        }
    }
}

/// Some tool has the field.
pub open spec fn some_tool_has(tools: Seq<Tree>, key: Seq<char>) -> bool {
    exists|i: int|
        0 <= i < tools.len() && (#[trigger] tools[i] matches Tree::Object(members) && has_member(
            members,
            key,
        ))
}

/// The keys of the tools ascend strictly, so none is listed twice, and a key is listed exactly if
/// some tool has it.
pub proof fn law_tool_keys_are_listed_once(tools: Seq<Tree>, key: Seq<char>)
    ensures
        keys_ascend(tool_keys(tools)),
        has_member(tool_keys(tools), key) <==> some_tool_has(tools, key),
    decreases tools.len(),
{
    if tools.len() > 0 {
        let front = tools.drop_last();
        law_tool_keys_are_listed_once(front, key);
        if let Tree::Object(members) = tools.last() {
            lemma_keys_with(tool_keys(front), members, key);
            if has_member(members, key) {
                assert(tools[tools.len() - 1] == tools.last());
            }
        }
        if some_tool_has(front, key) {
            let i = choose|i: int|
                0 <= i < front.len() && (#[trigger] front[i] matches Tree::Object(members)
                    && has_member(members, key));
            assert(tools[i] == front[i]);
        }
        if some_tool_has(tools, key) {
            let i = choose|i: int|
                0 <= i < tools.len() && (#[trigger] tools[i] matches Tree::Object(members)
                    && has_member(members, key));
            if i < front.len() {
                assert(front[i] == tools[i]);
            }
        }
    }
}

} // verus!
