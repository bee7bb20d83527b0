//! What the contents service answers: one entry, a listing of entries, or a
//! message that says why there is neither.

use crate::text::same_text;
use vstd::prelude::*;

verus! {

/// The links that the service attaches to an entry.
#[derive(Debug, PartialEq, Eq)]
pub struct Links {
    pub links_self: String,
    pub git: String,
    pub html: String,
}

/// A `Links` as a mathematical value.
pub struct LinksView {
    pub links_self: Seq<char>,
    pub git: Seq<char>,
    pub html: Seq<char>,
}

impl View for Links {
    type V = LinksView;

    open spec fn view(&self) -> LinksView {
        LinksView { links_self: self.links_self@, git: self.git@, html: self.html@ }
    }
}

impl Clone for Links {
    fn clone(&self) -> (copy: Self)
        ensures
            copy@ == self@,
    {
        Links {
            links_self: self.links_self.clone(),
            git: self.git.clone(),
            html: self.html.clone(),
        }
    }
}

/// One entry that the service reports: a file or a directory.
///
/// `url` is the address that lists the entry itself; `links.links_self` may name
/// the same place in another spelling and is never requested. A file carries its
/// contents inline, as base64 in `content`, or names in `download_url` where they
/// can be had.
#[derive(Debug, PartialEq, Eq)]
pub struct ApiObject {
    pub name: String,
    pub path: String,
    pub url: String,
    pub content: Option<String>,
    pub download_url: Option<String>,
    /// `"dir"` for a directory; anything else is handled as a file.
    pub object_type: String,
    pub links: Links,
}

/// An `ApiObject` as a mathematical value.
pub struct ApiObjectView {
    pub name: Seq<char>,
    pub path: Seq<char>,
    pub url: Seq<char>,
    pub content: Option<Seq<char>>,
    pub download_url: Option<Seq<char>>,
    pub object_type: Seq<char>,
    pub links: LinksView,
}

/// The contents of an optional string.
pub open spec fn optional_text(text: Option<String>) -> Option<Seq<char>> {
    match text {
        Some(t) => Some(t@),
        None => None,
    }
}

impl ApiObjectView {
    /// Whether the entry is a directory.
    pub open spec fn is_dir(self) -> bool {
        self.object_type == "dir"@
    }
}

impl View for ApiObject {
    type V = ApiObjectView;

    open spec fn view(&self) -> ApiObjectView {
        ApiObjectView {
            name: self.name@,
            path: self.path@,
            url: self.url@,
            content: optional_text(self.content),
            download_url: optional_text(self.download_url),
            object_type: self.object_type@,
            links: self.links@,
        }
    }
}

/// A copy of an optional string.
pub(crate) fn clone_optional(text: &Option<String>) -> (copy: Option<String>)
    ensures
        optional_text(copy) == optional_text(*text),
{
    match text {
        Some(t) => Some(t.clone()),
        None => None,
    }
}

impl Clone for ApiObject {
    fn clone(&self) -> (copy: Self)
        ensures
            copy@ == self@,
    {
        ApiObject {
            name: self.name.clone(),
            path: self.path.clone(),
            url: self.url.clone(),
            content: clone_optional(&self.content),
            download_url: clone_optional(&self.download_url),
            object_type: self.object_type.clone(),
            links: self.links.clone(),
        }
    }
}

impl ApiObject {
    /// Whether the entry is a directory.
    pub fn is_dir(&self) -> (yes: bool)
        ensures
            yes == self@.is_dir(),
    {
        same_text(self.object_type.as_str(), "dir")
    }
}

/// The message with which the service explains a request that it did not serve.
#[derive(Debug, PartialEq, Eq)]
pub struct ApiMessage {
    pub message: String,
}

impl View for ApiMessage {
    type V = Seq<char>;

    open spec fn view(&self) -> Seq<char> {
        self.message@
    }
}

/// A listing, in the order in which the service gave it.
pub type ApiData = Vec<ApiObject>;

/// The three shapes of an answer.
#[derive(Debug, PartialEq, Eq)]
pub enum ApiResponse {
    /// The request named exactly one file.
    Object(ApiObject),
    /// The request named a directory.
    Array(ApiData),
    /// The request was not served.
    Message(ApiMessage),
}

/// An `ApiResponse` as a mathematical value.
pub enum ApiResponseView {
    Object(ApiObjectView),
    Array(Seq<ApiObjectView>),
    Message(Seq<char>),
}

/// The entries of a listing as mathematical values.
pub open spec fn entries(listing: Seq<ApiObject>) -> Seq<ApiObjectView> {
    listing.map_values(|entry: ApiObject| entry@)
}

impl View for ApiResponse {
    type V = ApiResponseView;

    open spec fn view(&self) -> ApiResponseView {
        match self {
            ApiResponse::Object(entry) => ApiResponseView::Object(entry@),
            ApiResponse::Array(listing) => ApiResponseView::Array(entries(listing@)),
            ApiResponse::Message(message) => ApiResponseView::Message(message@),
        }
    }
}

} // verus!
