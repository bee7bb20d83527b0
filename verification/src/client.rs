//! Reading an answer of the contents service.
//!
//! One address answers in three shapes: an object that is an entry, an array of
//! entries, or an object with a message. Which shape a body has is read off the
//! body itself, in that order of preference, and never off the status that came
//! with it: the service reports its refusals with a message in an answer that
//! otherwise looks like a success.

use crate::error::{FetchError, FetchErrorView};
use crate::json::{get, json_of, member, parse_json, Json};
use crate::response::{
    entries, optional_text, ApiMessage, ApiObject, ApiObjectView, ApiResponse, ApiResponseView,
    Links, LinksView,
};
use vstd::prelude::*;

verus! {

/// The text of the member called `name`, if there is such a member and it is a
/// text.
pub open spec fn text_member(members: Seq<(String, Json)>, name: Seq<char>) -> Option<Seq<char>> {
    match member(members, name) {
        Some(Json::Text(text)) => Some(text@),
        _ => None,
    }
}

/// The text of a member that may be missing or null. `None` where the member is
/// there and is neither a text nor null.
pub open spec fn optional_member(members: Seq<(String, Json)>, name: Seq<char>) -> Option<
    Option<Seq<char>>,
> {
    match member(members, name) {
        None => Some(None),
        Some(Json::Null) => Some(None),
        Some(Json::Text(text)) => Some(Some(text@)),
        Some(_) => None,
    }
}

/// The links that a value holds: an object with the texts `self`, `git` and
/// `html`.
pub open spec fn links_of(json: Json) -> Option<LinksView> {
    match json {
        Json::Object(members) => match (
            text_member(members@, "self"@),
            text_member(members@, "git"@),
            text_member(members@, "html"@),
        ) {
            (Some(links_self), Some(git), Some(html)) => Some(LinksView { links_self, git, html }),
            _ => None,
        },
        _ => None,
    }
}

/// The links in the member `_links`.
pub open spec fn links_member(members: Seq<(String, Json)>) -> Option<LinksView> {
    match member(members, "_links"@) {
        Some(json) => links_of(json),
        None => None,
    }
}

/// The entry that a value holds: an object with the texts `name`, `path`, `url`
/// and `type`, with links in `_links`, and with `content` and `download_url`
/// each a text, null or missing. Other members are passed over.
pub open spec fn node_of(json: Json) -> Option<ApiObjectView> {
    match json {
        Json::Object(members) => match (
            text_member(members@, "name"@),
            text_member(members@, "path"@),
            text_member(members@, "url"@),
            optional_member(members@, "content"@),
            optional_member(members@, "download_url"@),
            text_member(members@, "type"@),
            links_member(members@),
        ) {
            (
                Some(name),
                Some(path),
                Some(url),
                Some(content),
                Some(download_url),
                Some(object_type),
                Some(links),
            ) => Some(
                ApiObjectView { name, path, url, content, download_url, object_type, links },
            ),
            _ => None,
        },
        _ => None,
    }
}

/// The entries that values hold, if each of them holds one.
pub open spec fn listing_of(items: Seq<Json>) -> Option<Seq<ApiObjectView>>
    decreases items.len(),
{
    if items.len() == 0 {
        Some(Seq::<ApiObjectView>::empty())
    } else {
        match (listing_of(items.drop_last()), node_of(items.last())) {
            (Some(front), Some(node)) => Some(front.push(node)),
            _ => None,
        }
    }
}

/// The message that a value holds: an object with the text `message`.
pub open spec fn message_of(json: Json) -> Option<Seq<char>> {
    match json {
        Json::Object(members) => text_member(members@, "message"@),
        _ => None,
    }
}

/// The shape of a value: an entry where it holds one; else a listing where it is
/// an array of entries; else a message where it holds one.
pub open spec fn shaped(json: Json) -> Option<ApiResponseView> {
    match node_of(json) {
        Some(node) => Some(ApiResponseView::Object(node)),
        None => match json {
            Json::Array(items) => match listing_of(items@) {
                Some(listing) => Some(ApiResponseView::Array(listing)),
                None => None,
            },
            _ => match message_of(json) {
                Some(message) => Some(ApiResponseView::Message(message)),
                None => None,
            },
        },
    }
}

/// What the body of the answer to the request for `url` amounts to, `parsed`
/// being the body read as JSON.
///
/// A body that is no JSON, or JSON of none of the three shapes, is a
/// `ProtocolError` that names `url`. A message is a `RemoteError` that carries
/// it. An entry or a listing is the answer.
pub open spec fn answer(parsed: Option<Json>, url: Seq<char>) -> Result<
    ApiResponseView,
    FetchErrorView,
> {
    match parsed {
        None => Err(FetchErrorView::ProtocolError(url)),
        Some(json) => match shaped(json) {
            None => Err(FetchErrorView::ProtocolError(url)),
            Some(ApiResponseView::Message(message)) => Err(FetchErrorView::RemoteError(message)),
            Some(response) => Ok(response),
        },
    }
}

fn read_text(members: &Vec<(String, Json)>, name: &str) -> (text: Option<String>)
    ensures
        optional_text(text) == text_member(members@, name@),
{
    match get(members, name) {
        Some(Json::Text(text)) => Some(text.clone()),
        _ => None,
    }
}

fn read_optional(members: &Vec<(String, Json)>, name: &str) -> (text: Option<Option<String>>)
    ensures
        match text {
            Some(found) => optional_member(members@, name@) == Some(optional_text(found)),
            None => optional_member(members@, name@) is None,
        },
{
    match get(members, name) {
        None => Some(None),
        Some(Json::Null) => Some(None),
        Some(Json::Text(text)) => Some(Some(text.clone())),
        Some(_) => None,
    }
}

fn read_links(json: &Json) -> (links: Option<Links>)
    ensures
        match links {
            Some(found) => links_of(*json) == Some(found@),
            None => links_of(*json) is None,
        },
{
    match json {
        Json::Object(members) => {
            let links_self = read_text(members, "self");
            let git = read_text(members, "git");
            let html = read_text(members, "html");
            match (links_self, git, html) {
                (Some(links_self), Some(git), Some(html)) => Some(Links { links_self, git, html }),
                _ => None,
            }
        },
        _ => None,
    }
}

/// Reads a value as an entry.
pub fn read_node(json: &Json) -> (node: Option<ApiObject>)
    ensures
        match node {
            Some(found) => node_of(*json) == Some(found@),
            None => node_of(*json) is None,
        },
{
    match json {
        Json::Object(members) => {
            let name = read_text(members, "name");
            let path = read_text(members, "path");
            let url = read_text(members, "url");
            let content = read_optional(members, "content");
            let download_url = read_optional(members, "download_url");
            let object_type = read_text(members, "type");
            let links = match get(members, "_links") {
                Some(inner) => read_links(inner),
                None => None,
            };
            match (name, path, url, content, download_url, object_type, links) {
                (
                    Some(name),
                    Some(path),
                    Some(url),
                    Some(content),
                    Some(download_url),
                    Some(object_type),
                    Some(links),
                ) => Some(
                    ApiObject { name, path, url, content, download_url, object_type, links },
                ),
                _ => None,
            }
        },
        _ => None,
    }
}

/// An array with a value that holds no entry is no listing, whatever follows.
proof fn lemma_listing_fails_onwards(items: Seq<Json>, upto: int)
    requires
        0 <= upto <= items.len(),
        listing_of(items.take(upto)) is None,
    ensures
        listing_of(items) is None,
    decreases items.len() - upto,
{
    if upto < items.len() {
        assert(items.drop_last().take(upto) == items.take(upto));
        lemma_listing_fails_onwards(items.drop_last(), upto);
    } else {
        assert(items.take(upto) == items);
    }
}

fn read_listing(items: &Vec<Json>) -> (listing: Option<Vec<ApiObject>>)
    ensures
        match listing {
            Some(found) => listing_of(items@) == Some(entries(found@)),
            None => listing_of(items@) is None,
        },
{
    let mut listing: Vec<ApiObject> = Vec::new();
    assert(entries(listing@) == Seq::<ApiObjectView>::empty());
    assert(items@.take(0) == Seq::<Json>::empty());
    for i in 0..items.len()
        invariant
            listing_of(items@.take(i as int)) == Some(entries(listing@)),
    {
        assert(items@.take(i + 1).drop_last() == items@.take(i as int));
        assert(items@.take(i + 1).last() == items@[i as int]);
        match read_node(&items[i]) {
            Some(node) => {
                let ghost before = listing@;
                listing.push(node);
                assert(entries(listing@) == entries(before).push(node@));
            },
            None => {
                proof {
                    lemma_listing_fails_onwards(items@, i + 1);
                }
                return None;
            },
        }
    }
    assert(items@.take(items.len() as int) == items@);
    Some(listing)
}

/// Reads the shape of a value.
pub fn read_response(json: &Json) -> (response: Option<ApiResponse>)
    ensures
        match response {
            Some(found) => shaped(*json) == Some(found@),
            None => shaped(*json) is None,
        },
{
    if let Some(node) = read_node(json) {
        return Some(ApiResponse::Object(node));
    }
    match json {
        Json::Array(items) => match read_listing(items) {
            Some(listing) => Some(ApiResponse::Array(listing)),
            None => None,
        },
        Json::Object(members) => match read_text(members, "message") {
            Some(message) => Some(ApiResponse::Message(ApiMessage { message })),
            None => None,
        },
        _ => None,
    }
}

/// Says what the body of the answer to the request for `url` amounts to, the
/// body having been read as JSON already.
pub fn read_answer(parsed: Option<Json>, url: &str) -> (response: Result<ApiResponse, FetchError>)
    ensures
        match response {
            Ok(found) => answer(parsed, url@) == Ok::<ApiResponseView, FetchErrorView>(found@),
            Err(error) => answer(parsed, url@) == Err::<ApiResponseView, FetchErrorView>(error@),
        },
{
    let json = match parsed {
        Some(json) => json,
        None => return Err(FetchError::ProtocolError(url.to_owned())),
    };
    match read_response(&json) {
        None => Err(FetchError::ProtocolError(url.to_owned())),
        Some(ApiResponse::Message(message)) => Err(FetchError::RemoteError(message.message)),
        Some(response) => Ok(response),
    }
}

/// Reads the body of the answer to the request for `url`.
pub fn build_request(body: &str, url: &str) -> (response: Result<ApiResponse, FetchError>)
    ensures
        match response {
            Ok(found) => answer(json_of(body@), url@) == Ok::<ApiResponseView, FetchErrorView>(
                found@,
            ),
            Err(error) => answer(json_of(body@), url@) == Err::<ApiResponseView, FetchErrorView>(
                error@,
            ),
        },
{
    read_answer(parse_json(body), url)
}

} // verus!
