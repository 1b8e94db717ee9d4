//! What the client gets back beside the body: which headers pass, which are added, and how the
//! body is to be read.

use vstd::prelude::*;
use vstd::slice::slice_to_vec;
use vstd::string::StringSliceAdditionalSpecFns;
use vstd::utf8::encode_utf8;
use crate::text::{ascii_lowercase, contains_text, lowered, occurs_in, same_text};
use crate::turn::{header_views, slice_view};

verus! {

/// The body is an event stream.
pub open spec fn streams_events(content_type: Option<Seq<char>>) -> bool {
    match content_type {
        Some(text) => occurs_in("text/event-stream"@, lowered(text)),
        None => false,
    }
}

/// Whether the body is an event stream. Capitals in the content type do not matter.
pub fn is_event_stream(content_type: Option<&str>) -> (stream: bool)
    ensures
        stream == streams_events(slice_view(content_type)),
{
    match content_type {
        Some(text) => contains_text(ascii_lowercase(text).as_str(), "text/event-stream"),
        None => false,
    }
}

/// An upstream header passes to the client. One that concerns a single connection does not, nor
/// does the length of a body that is rewritten.
pub open spec fn passes_on(name: Seq<char>, hop_by_hop: bool) -> bool {
    !hop_by_hop && lowered(name) != "content-length"@
}

/// Whether an upstream header passes to the client.
pub fn forwards_header(name: &str, hop_by_hop: bool) -> (passes: bool)
    ensures
        passes == passes_on(name@, hop_by_hop),
{
    !hop_by_hop && !same_text(ascii_lowercase(name).as_str(), "content-length")
}

/// A byte that a header value may hold: anything but control characters, and the tab.
pub open spec fn header_byte(byte: u8) -> bool {
    (byte >= 32 && byte != 127) || byte == 9
}

/// The text may stand in a header.
pub open spec fn header_legal(text: Seq<u8>) -> bool {
    forall|i: int| 0 <= i < text.len() ==> header_byte(#[trigger] text[i])
}

/// `hyper::header::HeaderValue::from_str`: takes a text exactly if no byte of it is a control
/// character other than the tab.
#[verifier::external_body]
fn header_value_takes(text: &str) -> (takes: bool)
    ensures
        takes == header_legal(text.spec_bytes()),
{
    hyper::header::HeaderValue::from_str(text).is_ok()
}

/// The text or, where it may not stand in a header, the name of the policy.
pub open spec fn header_text(text: Seq<char>) -> Seq<char> {
    if header_legal(encode_utf8(text)) {
        text
    } else {
        "c82"@
    }
}

/// The text or, where it may not stand in a header, the name of the policy.
fn header_or_policy(text: &str) -> (value: String)
    ensures
        value@ == header_text(text@),
{
    if header_value_takes(text) {
        text.to_owned()
    } else {
        "c82".to_owned()
    }
}

/// The headers that every reply gets.
pub open spec fn reply_header_list(
    request_id_header: Seq<char>,
    request_id: Seq<char>,
    selected_worker: Seq<char>,
    artifact_commit: Seq<char>,
) -> Seq<(Seq<char>, Seq<char>)> {
    seq![
        (request_id_header, header_text(request_id)),
        ("x-rayline-selected-model"@, header_text(selected_worker)),
        ("x-rayline-policy"@, "c82"@),
        ("x-rayline-artifact-commit"@, artifact_commit),
    ]
}

/// The headers that every reply gets.
pub fn reply_headers(
    request_id_header: &str,
    request_id: &str,
    selected_worker: &str,
    artifact_commit: &str,
) -> (headers: Vec<(String, String)>)
    ensures
        header_views(headers@) == reply_header_list(
            request_id_header@,
            request_id@,
            selected_worker@,
            artifact_commit@,
        ),
{
    let mut headers: Vec<(String, String)> = Vec::new();
    headers.push((request_id_header.to_owned(), header_or_policy(request_id)));
    headers.push(("x-rayline-selected-model".to_owned(), header_or_policy(selected_worker)));
    headers.push(("x-rayline-policy".to_owned(), "c82".to_owned()));
    headers.push(("x-rayline-artifact-commit".to_owned(), artifact_commit.to_owned()));
    assert(header_views(headers@) =~= reply_header_list(
        request_id_header@,
        request_id@,
        selected_worker@,
        artifact_commit@,
    ));
    headers
}

/// A header of the upstream's answer.
pub struct UpstreamHeader {
    pub name: String,
    pub value: Vec<u8>,
    /// It concerns a single connection.
    pub hop_by_hop: bool,
}

/// The name and the value of a header that passes to the client.
pub open spec fn passing_header(header: UpstreamHeader) -> Option<(Seq<char>, Seq<u8>)> {
    if passes_on(header.name@, header.hop_by_hop) {
        Some((header.name@, header.value@))
    } else {
        None
    }
}

/// The headers that pass to the client, in order.
pub open spec fn passing_headers(headers: Seq<UpstreamHeader>) -> Seq<(Seq<char>, Seq<u8>)> {
    headers.filter_map(|header: UpstreamHeader| passing_header(header))
}

/// Tells whether a header has another name. Capitals do not matter.
pub open spec fn named_otherwise(name: Seq<char>) -> spec_fn((Seq<char>, Seq<u8>)) -> bool {
    |header: (Seq<char>, Seq<u8>)| lowered(header.0) != lowered(name)
}

/// The headers with this one at the end, in place of any of its name.
pub open spec fn with_header(
    headers: Seq<(Seq<char>, Seq<u8>)>,
    name: Seq<char>,
    value: Seq<u8>,
) -> Seq<(Seq<char>, Seq<u8>)> {
    headers.filter(named_otherwise(name)).push((name, value))
}

/// The headers with the reply's own at the end, each in place of any of its name.
pub open spec fn with_own_headers(
    headers: Seq<(Seq<char>, Seq<u8>)>,
    own: Seq<(Seq<char>, Seq<char>)>,
) -> Seq<(Seq<char>, Seq<u8>)>
    decreases own.len(),
{
    if own.len() == 0 {
        headers
    } else {
        with_header(
            with_own_headers(headers, own.drop_last()),
            own.last().0,
            encode_utf8(own.last().1),
        )
    }
}

/// The names and values of headers.
pub open spec fn byte_header_views(headers: Seq<(String, Vec<u8>)>) -> Seq<(Seq<char>, Seq<u8>)> {
    headers.map_values(|header: (String, Vec<u8>)| (header.0@, header.1@))
}

/// Puts a header at the end, in place of any of its name.
fn put_header(headers: Vec<(String, Vec<u8>)>, name: &str, value: &str) -> (after: Vec<
    (String, Vec<u8>),
>)
    ensures
        byte_header_views(after@) == with_header(
            byte_header_views(headers@),
            name@,
            encode_utf8(value@),
        ),
{
    let mut after: Vec<(String, Vec<u8>)> = Vec::new();
    let lower_name = ascii_lowercase(name);
    let ghost all = byte_header_views(headers@);
    let ghost pass = named_otherwise(name@);
    assert(byte_header_views(after@) =~= all.take(0).filter(pass)) by {
        reveal(Seq::filter);
    }
    for i in 0..headers.len()
        invariant
            all == byte_header_views(headers@),
            pass == named_otherwise(name@),
            lower_name@ == lowered(name@),
            byte_header_views(after@) == all.take(i as int).filter(pass),
    {
        let ghost before = byte_header_views(after@);
        proof {
            reveal(Seq::filter);
            assert(all.take(i + 1).drop_last() =~= all.take(i as int));
            assert(all[i as int] == (headers@[i as int].0@, headers@[i as int].1@));
        }
        if !same_text(ascii_lowercase(headers[i].0.as_str()).as_str(), lower_name.as_str()) {
            after.push((headers[i].0.clone(), slice_to_vec(headers[i].1.as_slice())));
            assert(byte_header_views(after@) =~= before.push(all[i as int]));
        }
    }
    assert(all.take(headers@.len() as int) =~= all);
    let ghost before = byte_header_views(after@);
    after.push((name.to_owned(), slice_to_vec(value.as_bytes())));
    assert(byte_header_views(after@) =~= before.push((name@, encode_utf8(value@))));
    after
}

/// The headers that the client gets: those of the upstream that pass, and then the reply's own,
/// each in place of any of its name.
pub fn merged_headers(upstream: &Vec<UpstreamHeader>, own: &Vec<(String, String)>) -> (headers: Vec<
    (String, Vec<u8>),
>)
    ensures
        byte_header_views(headers@) == with_own_headers(
            passing_headers(upstream@),
            header_views(own@),
        ),
{
    let mut headers: Vec<(String, Vec<u8>)> = Vec::new();
    let ghost image = |header: UpstreamHeader| passing_header(header);
    assert(byte_header_views(headers@) =~= upstream@.take(0).filter_map(image)) by {
        reveal(Seq::filter_map);
    }
    for i in 0..upstream.len()
        invariant
            image == (|header: UpstreamHeader| passing_header(header)),
            byte_header_views(headers@) == upstream@.take(i as int).filter_map(image),
    {
        let ghost before = byte_header_views(headers@);
        let header = &upstream[i];
        proof {
            reveal(Seq::filter_map);
            assert(upstream@.take(i + 1).drop_last() =~= upstream@.take(i as int));
        }
        if forwards_header(header.name.as_str(), header.hop_by_hop) {
            headers.push((header.name.clone(), slice_to_vec(header.value.as_slice())));
            assert(byte_header_views(headers@) =~= before.push((header.name@, header.value@)));
        }
    }
    assert(upstream@.take(upstream@.len() as int) =~= upstream@);
    let ghost passing = passing_headers(upstream@);
    let ghost listed = header_views(own@);
    assert(byte_header_views(headers@) == with_own_headers(passing, listed.take(0)));
    for i in 0..own.len()
        invariant
            listed == header_views(own@),
            byte_header_views(headers@) == with_own_headers(passing, listed.take(i as int)),
    {
        assert(listed.take(i + 1).drop_last() =~= listed.take(i as int));
        assert(listed[i as int] == (own@[i as int].0@, own@[i as int].1@));
        headers = put_header(headers, own[i].0.as_str(), own[i].1.as_str());
    }
    assert(listed.take(own@.len() as int) =~= listed);
    headers
}

/// No two of the headers have the same name.
pub open spec fn names_differ(own: Seq<(Seq<char>, Seq<char>)>) -> bool {
    forall|i: int, j: int|
        0 <= i < j < own.len() ==> lowered((#[trigger] own[i]).0) != lowered((#[trigger] own[j]).0)
}

/// Tells whether a header has a name that none of these has.
pub open spec fn named_by_none(own: Seq<(Seq<char>, Seq<char>)>) -> spec_fn(
    (Seq<char>, Seq<u8>),
) -> bool {
    |header: (Seq<char>, Seq<u8>)|
        forall|i: int| 0 <= i < own.len() ==> lowered(header.0) != lowered((#[trigger] own[i]).0)
}

/// The headers with their values as bytes.
pub open spec fn header_bytes(own: Seq<(Seq<char>, Seq<char>)>) -> Seq<(Seq<char>, Seq<u8>)> {
    own.map_values(|header: (Seq<char>, Seq<char>)| (header.0, encode_utf8(header.1)))
}

/// Filtering twice is filtering by both.
proof fn lemma_filter_twice<T>(
    items: Seq<T>,
    first: spec_fn(T) -> bool,
    second: spec_fn(T) -> bool,
    both: spec_fn(T) -> bool,
)
    requires
        forall|item: T| #[trigger] both(item) <==> first(item) && second(item),
    ensures
        items.filter(first).filter(second) == items.filter(both),
    decreases items.len(),
{
    reveal(Seq::filter);
    if items.len() > 0 {
        let front = items.drop_last();
        lemma_filter_twice(front, first, second, both);
        assert(both(items.last()) <==> first(items.last()) && second(items.last()));
        if first(items.last()) {
            let kept = front.filter(first);
            assert(kept.push(items.last()).drop_last() =~= kept);
        }
    }
}

/// A filter that everything passes takes nothing out.
proof fn lemma_filter_all<T>(items: Seq<T>, pass: spec_fn(T) -> bool)
    requires
        forall|i: int| 0 <= i < items.len() ==> pass(#[trigger] items[i]),
    ensures
        items.filter(pass) == items,
    decreases items.len(),
{
    reveal(Seq::filter);
    if items.len() > 0 {
        let front = items.drop_last();
        assert forall|i: int| 0 <= i < front.len() implies pass(#[trigger] front[i]) by {
            assert(front[i] == items[i]);
        }
        lemma_filter_all(front, pass);
        assert(pass(items[items.len() - 1]));
        assert(front.push(items.last()) =~= items);
    }
}

/// The reply's own headers stand as given, at the end, and no other header has the name of one of
/// them; the others keep their order.
pub proof fn law_own_headers_stand(
    headers: Seq<(Seq<char>, Seq<u8>)>,
    own: Seq<(Seq<char>, Seq<char>)>,
)
    requires
        names_differ(own),
    ensures
        with_own_headers(headers, own) == headers.filter(named_by_none(own)) + header_bytes(own),
    decreases own.len(),
{
    if own.len() == 0 {
        lemma_filter_all(headers, named_by_none(own));
        assert(headers + header_bytes(own) =~= headers);
    } else {
        let front = own.drop_last();
        let last = own.last();
        assert forall|i: int, j: int| 0 <= i < j < front.len() implies lowered(
            (#[trigger] front[i]).0,
        ) != lowered((#[trigger] front[j]).0) by {
            assert(front[i] == own[i] && front[j] == own[j]);
        }
        law_own_headers_stand(headers, front);
        let kept = headers.filter(named_by_none(front));
        let given = header_bytes(front);
        let pass = named_otherwise(last.0);
        Seq::filter_distributes_over_add(kept, given, pass);
        assert forall|header: (Seq<char>, Seq<u8>)| #[trigger] named_by_none(own)(header)
            <==> named_by_none(front)(header) && pass(header) by {
            if named_by_none(own)(header) {
                assert forall|i: int| 0 <= i < front.len() implies lowered(header.0) != lowered(
                    (#[trigger] front[i]).0,
                ) by {
                    assert(front[i] == own[i]);
                }
                assert(own[own.len() - 1] == last);
            }
            if named_by_none(front)(header) && pass(header) {
                assert forall|i: int| 0 <= i < own.len() implies lowered(header.0) != lowered(
                    (#[trigger] own[i]).0,
                ) by {
                    if i < front.len() {
                        assert(front[i] == own[i]);
                    }
                }
            }
        }
        lemma_filter_twice(headers, named_by_none(front), pass, named_by_none(own));
        assert forall|i: int| 0 <= i < given.len() implies pass(#[trigger] given[i]) by {
            assert(own[i].0 == given[i].0);
            assert(own[own.len() - 1] == last);
        }
        lemma_filter_all(given, pass);
        assert(header_bytes(own) =~= given.push((last.0, encode_utf8(last.1))));
        assert(with_own_headers(headers, own) =~= headers.filter(named_by_none(own)) + header_bytes(
            own,
        ));
    }
}

} // verus!
