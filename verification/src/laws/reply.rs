//! What the client gets beside the body.

use vstd::prelude::*;
use vstd::utf8::encode_utf8;
use crate::laws::text::{lemma_same_letters, same_letters};
use crate::reply::{
    byte_header_views, forwards_header, header_bytes, header_legal, is_event_stream,
    law_own_headers_stand, merged_headers, named_by_none, named_otherwise, names_differ, passes_on,
    passing_header, passing_headers, reply_headers, UpstreamHeader,
};
use crate::text::lowered;
use crate::turn::header_views;

verus! {

/// The header has the name of none of the listed ones, in any capitals.
pub open spec fn named_like_none(name: Seq<char>, own: Seq<(String, String)>) -> bool {
    forall|i: int| 0 <= i < own.len() ==> !same_letters(name, (#[trigger] own[i]).0@)
}

/// The header passes to the client: it does not concern a single connection, it does not tell the
/// length of the body, and the reply has no header of that name of its own.
pub open spec fn stays(header: UpstreamHeader, own: Seq<(String, String)>) -> bool {
    &&& !header.hop_by_hop
    &&& !same_letters(header.name@, "content-length"@)
    &&& named_like_none(header.name@, own)
}

/// No two of the headers have the same name.
pub open spec fn names_apart(own: Seq<(String, String)>) -> bool {
    forall|i: int, j: int|
        0 <= i < j < own.len() ==> !same_letters((#[trigger] own[i]).0@, (#[trigger] own[j]).0@)
}

/// `content-length` is in lower case.
proof fn lemma_length_name()
    ensures
        lowered("content-length"@) == "content-length"@,
{
    reveal_strlit("content-length");
    let name = "content-length"@;
    assert forall|i: int| 0 <= i < name.len() implies lowered(name)[i] == name[i] by {}
    assert(lowered(name) =~= name);
}

/// Whether a header passes, told by its own name.
proof fn lemma_passes(name: Seq<char>, hop_by_hop: bool)
    ensures
        passes_on(name, hop_by_hop) <==> !hop_by_hop && !same_letters(name, "content-length"@),
{
    lemma_length_name();
    lemma_same_letters(name, "content-length"@);
}

/// An upstream header passes unless it concerns a single connection or tells the body's length.
pub proof fn law_only_hop_and_length_headers_are_held_back(
    name: &str,
    hop_by_hop: bool,
    passes: bool,
)
    requires
        call_ensures(forwards_header, (name, hop_by_hop), passes),
    ensures
        passes <==> !hop_by_hop && !same_letters(name@, "content-length"@),
{
    lemma_passes(name@, hop_by_hop);
}

/// A header is named like none of the reply's own.
proof fn lemma_named_by_none(header: (Seq<char>, Seq<u8>), own: Seq<(String, String)>)
    ensures
        named_by_none(header_views(own))(header) <==> named_like_none(header.0, own),
{
    let listed = header_views(own);
    assert forall|i: int| 0 <= i < own.len() implies (lowered(header.0) != lowered(
        (#[trigger] listed[i]).0,
    ) <==> !same_letters(header.0, own[i].0@)) by {
        lemma_same_letters(header.0, own[i].0@);
    }
    if named_by_none(listed)(header) {
        assert forall|i: int| 0 <= i < own.len() implies !same_letters(
            header.0,
            (#[trigger] own[i]).0@,
        ) by {
            assert(listed[i].0 == own[i].0@);
        }
    }
    if named_like_none(header.0, own) {
        assert forall|i: int| 0 <= i < listed.len() implies lowered(header.0) != lowered(
            (#[trigger] listed[i]).0,
        ) by {
            assert(!same_letters(header.0, own[i].0@));
        }
    }
}

/// Names that are apart differ in lower case.
proof fn lemma_names_apart(own: Seq<(String, String)>)
    requires
        names_apart(own),
    ensures
        names_differ(header_views(own)),
{
    let listed = header_views(own);
    assert forall|i: int, j: int| 0 <= i < j < listed.len() implies lowered(
        (#[trigger] listed[i]).0,
    ) != lowered((#[trigger] listed[j]).0) by {
        assert(!same_letters(own[i].0@, own[j].0@));
        lemma_same_letters(own[i].0@, own[j].0@);
    }
}

/// Without upstream headers, the client gets the reply's own, as they are listed.
pub proof fn law_own_headers_are_sent(
    upstream: &Vec<UpstreamHeader>,
    own: &Vec<(String, String)>,
    headers: Vec<(String, Vec<u8>)>,
)
    requires
        upstream@.len() == 0,
        names_apart(own@),
        call_ensures(merged_headers, (upstream, own), headers),
    ensures
        headers@.len() == own@.len(),
        forall|i: int|
            0 <= i < own@.len() ==> (#[trigger] headers@[i]).0@ == own@[i].0@ && headers@[i].1@
                == encode_utf8(own@[i].1@),
{
    lemma_names_apart(own@);
    let listed = header_views(own@);
    let none = passing_headers(upstream@);
    assert(none =~= Seq::empty()) by {
        reveal(Seq::filter_map);
    }
    law_own_headers_stand(none, listed);
    assert(none.filter(named_by_none(listed)) =~= Seq::empty()) by {
        reveal(Seq::filter);
    }
    let views = byte_header_views(headers@);
    assert(views =~= header_bytes(listed));
    assert forall|i: int| 0 <= i < own@.len() implies (#[trigger] headers@[i]).0@ == own@[i].0@
        && headers@[i].1@ == encode_utf8(own@[i].1@) by {
        assert(views[i] == header_bytes(listed)[i]);
    }
}

/// One more upstream header is sent behind those before it and ahead of the reply's own, with its
/// name and value, exactly if it does not concern a single connection, does not tell the length
/// of the body, and has the name of none of the reply's own headers. Otherwise nothing changes.
/// So the client gets exactly the headers that stay, in the upstream's order, and then the
/// reply's own.
pub proof fn law_upstream_headers_stay_in_order(
    upstream: &Vec<UpstreamHeader>,
    longer: &Vec<UpstreamHeader>,
    header: UpstreamHeader,
    own: &Vec<(String, String)>,
    headers: Vec<(String, Vec<u8>)>,
    more: Vec<(String, Vec<u8>)>,
)
    requires
        longer@ == upstream@.push(header),
        names_apart(own@),
        call_ensures(merged_headers, (upstream, own), headers),
        call_ensures(merged_headers, (longer, own), more),
    ensures
        headers@.len() >= own@.len(),
        byte_header_views(more@) == if stays(header, own@) {
            byte_header_views(headers@).insert(
                headers@.len() - own@.len(),
                (header.name@, header.value@),
            )
        } else {
            byte_header_views(headers@)
        },
{
    lemma_names_apart(own@);
    let listed = header_views(own@);
    let pass = named_by_none(listed);
    let before = passing_headers(upstream@);
    let after = passing_headers(longer@);
    law_own_headers_stand(before, listed);
    law_own_headers_stand(after, listed);
    let entry = (header.name@, header.value@);
    assert(longer@.drop_last() =~= upstream@);
    assert(after == match passing_header(header) {
        Some(held) => before.push(held),
        None => before,
    }) by {
        reveal(Seq::filter_map);
    }
    lemma_passes(header.name@, header.hop_by_hop);
    lemma_named_by_none(entry, own@);
    let kept = before.filter(pass);
    if passing_header(header) is Some {
        assert(before.push(entry).drop_last() =~= before);
        assert(before.push(entry).filter(pass) == if pass(entry) {
            kept.push(entry)
        } else {
            kept
        }) by {
            reveal(Seq::filter);
        }
    }
    let views = byte_header_views(headers@);
    assert(views == kept + header_bytes(listed));
    assert(views.len() == headers@.len());
    assert(header_bytes(listed).len() == own@.len());
    if stays(header, own@) {
        assert(byte_header_views(more@) =~= views.insert(kept.len() as int, entry));
    }
}

/// A body is an event stream exactly if its content type contains `text/event-stream`, in any
/// capitals.
pub proof fn law_event_stream_is_named_in_any_capitals(content_type: Option<&str>, stream: bool)
    requires
        call_ensures(is_event_stream, (content_type,), stream),
    ensures
        content_type is None ==> !stream,
        content_type matches Some(text) ==> (stream <==> exists|at: int|
            0 <= at <= text@.len() - 17 && same_letters(
                #[trigger] text@.subrange(at, at + 17),
                "text/event-stream"@,
            )),
{
    reveal_strlit("text/event-stream");
    let sought = "text/event-stream"@;
    assert(sought.len() == 17);
    assert(lowered(sought) =~= sought) by {
        assert forall|i: int| 0 <= i < sought.len() implies lowered(sought)[i] == sought[i] by {}
    }
    if let Some(text) = content_type {
        let low = lowered(text@);
        assert forall|at: int| 0 <= at <= text@.len() - 17 implies (same_letters(
            #[trigger] text@.subrange(at, at + 17),
            sought,
        ) <==> low.subrange(at, at + 17) == sought) by {
            let part = text@.subrange(at, at + 17);
            lemma_same_letters(part, sought);
            assert(lowered(part) =~= low.subrange(at, at + 17));
        }
        if stream {
            let at = choose|at: int|
                0 <= at <= low.len() - sought.len() && #[trigger] low.subrange(
                    at,
                    at + sought.len(),
                ) == sought;
            assert(same_letters(text@.subrange(at, at + 17), sought));
        }
        if exists|at: int|
            0 <= at <= text@.len() - 17 && same_letters(
                #[trigger] text@.subrange(at, at + 17),
                sought,
            ) {
            let at = choose|at: int|
                0 <= at <= text@.len() - 17 && same_letters(
                    #[trigger] text@.subrange(at, at + 17),
                    sought,
                );
            assert(low.subrange(at, at + sought.len()) == sought);
        }
    }
}

/// The text is sent as it is unless a byte of it is a control character other than the tab; then
/// the name of the policy is sent.
pub open spec fn sent_as(text: Seq<char>, value: Seq<char>) -> bool {
    let bytes = encode_utf8(text);
    if exists|i: int|
        0 <= i < bytes.len() && ((#[trigger] bytes[i] < 32 && bytes[i] != 9) || bytes[i] == 127) {
        value == "c82"@
    } else {
        value == text
    }
}

/// Every reply names the request, the worker, the policy and the artifact, in that order.
pub proof fn law_reply_names_request_worker_policy_and_artifact(
    request_id_header: &str,
    request_id: &str,
    selected_worker: &str,
    artifact_commit: &str,
    headers: Vec<(String, String)>,
)
    requires
        call_ensures(
            reply_headers,
            (request_id_header, request_id, selected_worker, artifact_commit),
            headers,
        ),
    ensures
        headers@.len() == 4,
        headers@[0].0@ == request_id_header@,
        sent_as(request_id@, headers@[0].1@),
        headers@[1].0@ == "x-rayline-selected-model"@,
        sent_as(selected_worker@, headers@[1].1@),
        headers@[2].0@ == "x-rayline-policy"@,
        headers@[2].1@ == "c82"@,
        headers@[3].0@ == "x-rayline-artifact-commit"@,
        headers@[3].1@ == artifact_commit@,
{
    let views = header_views(headers@);
    assert(views.len() == headers@.len());
    assert(views[0] == (headers@[0].0@, headers@[0].1@));
    assert(views[1] == (headers@[1].0@, headers@[1].1@));
    assert(views[2] == (headers@[2].0@, headers@[2].1@));
    assert(views[3] == (headers@[3].0@, headers@[3].1@));
    lemma_legal(encode_utf8(request_id@));
    lemma_legal(encode_utf8(selected_worker@));
}

/// Bytes may stand in a header unless one is a control character other than the tab.
proof fn lemma_legal(bytes: Seq<u8>)
    ensures
        header_legal(bytes) <==> !exists|i: int|
            0 <= i < bytes.len() && ((#[trigger] bytes[i] < 32 && bytes[i] != 9) || bytes[i]
                == 127),
{
}

/// Has a name that differs from the given one in more than capitals.
pub open spec fn unlike(name: Seq<char>) -> spec_fn((Seq<char>, Seq<u8>)) -> bool {
    |header: (Seq<char>, Seq<u8>)| !same_letters(header.0, name)
}

/// One more header of the reply's own takes the place of every header of its name, in any
/// capitals, and is sent last; all others are sent as before.
pub proof fn law_own_header_takes_the_place_of_its_name(
    upstream: &Vec<UpstreamHeader>,
    own: &Vec<(String, String)>,
    longer: &Vec<(String, String)>,
    header: (String, String),
    headers: Vec<(String, Vec<u8>)>,
    more: Vec<(String, Vec<u8>)>,
)
    requires
        longer@ == own@.push(header),
        call_ensures(merged_headers, (upstream, own), headers),
        call_ensures(merged_headers, (upstream, longer), more),
    ensures
        byte_header_views(more@) == byte_header_views(headers@).filter(unlike(header.0@)).push(
            (header.0@, encode_utf8(header.1@)),
        ),
{
    let listed = header_views(longer@);
    assert(listed.drop_last() =~= header_views(own@));
    assert(listed.last() == (header.0@, header.1@));
    let views = byte_header_views(headers@);
    let pass = named_otherwise(header.0@);
    assert forall|entry: (Seq<char>, Seq<u8>)| #[trigger] pass(entry) <==> unlike(header.0@)(
        entry,
    ) by {
        lemma_same_letters(entry.0, header.0@);
    }
    lemma_filters_agree(views, pass, unlike(header.0@));
}

/// Filters that pass the same give the same.
proof fn lemma_filters_agree<T>(
    items: Seq<T>,
    one: spec_fn(T) -> bool,
    other: spec_fn(T) -> bool,
)
    requires
        forall|item: T| #[trigger] one(item) <==> other(item),
    ensures
        items.filter(one) == items.filter(other),
    decreases items.len(),
{
    reveal(Seq::filter);
    if items.len() > 0 {
        lemma_filters_agree(items.drop_last(), one, other);
        assert(one(items.last()) <==> other(items.last()));
    }
}

} // verus!
