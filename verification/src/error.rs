//! What can go wrong, as plain values.

use vstd::prelude::*;

verus! {

/// Why a download stopped.
#[derive(Debug, PartialEq, Eq)]
pub enum FetchError {
    /// The service answered with a message instead of contents; the message is kept
    /// as it came.
    RemoteError(String),
    /// The answer to the request for this URL had none of the known shapes.
    ProtocolError(String),
    /// The request did not get through.
    TransportError(String),
    /// The inline contents of the file at this repository path are no base64.
    DecodeError(String),
    /// The download of a file's contents was answered with a status other than
    /// success.
    DownloadError { url: String, status: u16 },
    /// A directory or a file could not be created or written.
    FilesystemError(String),
}

/// A `FetchError` as a mathematical value.
pub enum FetchErrorView {
    RemoteError(Seq<char>),
    ProtocolError(Seq<char>),
    TransportError(Seq<char>),
    DecodeError(Seq<char>),
    DownloadError { url: Seq<char>, status: u16 },
    FilesystemError(Seq<char>),
}

impl View for FetchError {
    type V = FetchErrorView;

    open spec fn view(&self) -> FetchErrorView {
        match self {
            FetchError::RemoteError(message) => FetchErrorView::RemoteError(message@),
            FetchError::ProtocolError(url) => FetchErrorView::ProtocolError(url@),
            FetchError::TransportError(detail) => FetchErrorView::TransportError(detail@),
            FetchError::DecodeError(path) => FetchErrorView::DecodeError(path@),
            FetchError::DownloadError { url, status } => FetchErrorView::DownloadError {
                url: url@,
                status: *status,
            },
            FetchError::FilesystemError(detail) => FetchErrorView::FilesystemError(detail@),
        }
    }
}

impl Clone for FetchError {
    fn clone(&self) -> (copy: Self)
        ensures
            copy@ == self@,
    {
        match self {
            FetchError::RemoteError(message) => FetchError::RemoteError(message.clone()),
            FetchError::ProtocolError(url) => FetchError::ProtocolError(url.clone()),
            FetchError::TransportError(detail) => FetchError::TransportError(detail.clone()),
            FetchError::DecodeError(path) => FetchError::DecodeError(path.clone()),
            FetchError::DownloadError { url, status } => FetchError::DownloadError {
                url: url.clone(),
                status: *status,
            },
            FetchError::FilesystemError(detail) => FetchError::FilesystemError(detail.clone()),
        }
    }
}

} // verus!
