//! What to download: a repository, a branch, and a path inside the repository.

use crate::fetch::Fetch;
use crate::remote::start;
use crate::response::optional_text;
use crate::text::{
    chars_of, keep_nonempty, lemma_nonempty_pieces, lemma_slashed_nonempty_resolved,
    lemma_split_pieces, nonempty, push_char, resolved_path, slashed_nonempty, split, split_from,
    texts,
};
use vstd::prelude::*;
use vstd::string::*;

verus! {

/// A parsed URL of the `url` crate. Nothing of its inside is known here.
#[verifier::external_type_specification]
#[verifier::external_body]
pub struct ExUrl(url::Url);

/// The error with which the `url` crate refuses a text.
#[verifier::external_type_specification]
#[verifier::external_body]
pub struct ExUrlParseError(url::ParseError);

/// The path of a parsed URL, as `Url::path` returns it.
pub uninterp spec fn url_path(url: url::Url) -> Seq<char>;

/// The path of the URL that a text parses to with `Url::parse`, if it parses.
pub uninterp spec fn parsed_url_path(text: Seq<char>) -> Option<Seq<char>>;

/// `Url::parse` of the `url` crate. Whether a text parses, and to which path,
/// depends on the text alone: that much is claimed, and nothing of what a URL is.
#[verifier::external_body]
fn parse(text: &str) -> (parsed: Result<url::Url, url::ParseError>)
    ensures
        match parsed {
            Ok(url) => parsed_url_path(text@) == Some(url_path(url)),
            Err(_) => parsed_url_path(text@) is None,
        },
{
    url::Url::parse(text)
}

/// `Url::path` of the `url` crate, as an owned string.
#[verifier::external_body]
fn path_of(url: &url::Url) -> (path: String)
    ensures
        path@ == url_path(*url),
{
    url.path().to_string()
}

/// A resolved request: whose repository, which branch, which path in it, and
/// where on disk it goes.
#[derive(Debug, PartialEq, Eq)]
pub struct Directory {
    /// The directory on disk that a downloaded directory becomes, unless
    /// `clone_path` names another.
    pub root: String,
    /// The branch; empty for the repository's default branch.
    pub branch: String,
    /// The path inside the repository in resolved form; empty for the whole
    /// repository.
    pub path: String,
    pub username: String,
    pub repository: String,
    /// The directory on disk to download into, where the caller named one.
    pub clone_path: Option<String>,
}

/// A `Directory` as a mathematical value.
pub struct DirectoryView {
    pub root: Seq<char>,
    pub branch: Seq<char>,
    pub path: Seq<char>,
    pub username: Seq<char>,
    pub repository: Seq<char>,
    pub clone_path: Option<Seq<char>>,
}

impl View for Directory {
    type V = DirectoryView;

    open spec fn view(&self) -> DirectoryView {
        DirectoryView {
            root: self.root@,
            branch: self.branch@,
            path: self.path@,
            username: self.username@,
            repository: self.repository@,
            clone_path: optional_text(self.clone_path),
        }
    }
}

/// Why a URL or a path names nothing that can be downloaded.
#[derive(Debug, PartialEq, Eq, Clone, Copy)]
pub enum DescriptorError {
    /// The text is no URL.
    InvalidUrl,
    /// The URL has no path of segments, as in `mailto:` or `data:`.
    NotHierarchical,
    /// The path has fewer than the two pieces that name a repository.
    TooShort,
    /// The owner of the repository is missing.
    MissingUsername,
    /// The name of the repository is missing.
    MissingRepository,
}

impl DirectoryView {
    /// Whether the request can be handed to the download engine: the owner and
    /// the repository are named, and the path is in resolved form.
    pub open spec fn wf(self) -> bool {
        &&& self.username.len() > 0
        &&& self.repository.len() > 0
        &&& resolved_path(self.path)
    }

    /// The address of the contents service for this request: the path follows
    /// `contents` where there is one, and `?ref=` with the branch follows where a
    /// branch is named.
    pub open spec fn api_url(self) -> Seq<char> {
        "https://api.github.com/repos/"@ + self.username + "/"@ + self.repository + "/contents"@
            + self.path + if self.branch.len() == 0 {
            Seq::<char>::empty()
        } else {
            "?ref="@ + self.branch
        }
    }

    /// The directory on disk that a downloaded directory becomes.
    pub open spec fn root_dir(self) -> Seq<char> {
        match self.clone_path {
            Some(path) => path,
            None => self.root,
        }
    }

    /// The directory on disk that a lone file is written into.
    pub open spec fn file_dir(self) -> Seq<char> {
        match self.clone_path {
            Some(path) => path,
            None => "."@,
        }
    }
}

/// The pieces of a path between its slashes, without the empty piece that a
/// slash at the end leaves.
pub open spec fn path_pieces(path: Seq<char>) -> Seq<Seq<char>> {
    let pieces = split(path, '/');
    if pieces.last().len() == 0 {
        pieces.drop_last()
    } else {
        pieces
    }
}

/// The request that the path of a repository page stands for.
///
/// The path reads `/owner/repository/tree/branch/path...`: the second and third
/// pieces name the owner and the repository, the fifth the branch, and the
/// pieces after it the path inside the repository, where empty pieces count for
/// nothing. The root on disk is named after the repository.
pub open spec fn parsed_path(path: Seq<char>, clone_path: Option<Seq<char>>) -> Result<
    DirectoryView,
    DescriptorError,
> {
    let pieces = path_pieces(path);
    if pieces.len() < 3 {
        Err(DescriptorError::TooShort)
    } else if pieces[1].len() == 0 {
        Err(DescriptorError::MissingUsername)
    } else if pieces[2].len() == 0 {
        Err(DescriptorError::MissingRepository)
    } else {
        Ok(
            DirectoryView {
                root: pieces[2],
                branch: if pieces.len() > 4 {
                    pieces[4]
                } else {
                    Seq::<char>::empty()
                },
                path: if pieces.len() > 5 {
                    slashed_nonempty(pieces.skip(5))
                } else {
                    Seq::<char>::empty()
                },
                username: pieces[1],
                repository: pieces[2],
                clone_path,
            },
        )
    }
}

/// The pieces from `from` on that are not empty, each preceded by a slash.
fn subpath(pieces: &Vec<String>, from: usize) -> (path: String)
    requires
        from <= pieces@.len(),
    ensures
        path@ == slashed_nonempty(texts(pieces@).skip(from as int)),
{
    let mut path = String::new();
    let ghost tail = texts(pieces@).skip(from as int);
    let mut i: usize = from;
    while i < pieces.len()
        invariant
            from <= i <= pieces@.len(),
            tail == texts(pieces@).skip(from as int),
            path@ == slashed_nonempty(tail.take(i - from)),
        decreases pieces@.len() - i,
    {
        assert(tail.take(i + 1 - from).drop_last() == tail.take(i - from));
        assert(tail.take(i + 1 - from).last() == pieces@[i as int]@);
        if !pieces[i].as_str().is_empty() {
            push_char(&mut path, '/');
            path.append(pieces[i].as_str());
        }
        i = i + 1;
    }
    assert(tail.take(tail.len() as int) == tail);
    path
}

/// Reads the path of a repository page.
pub fn parse_path(path: &str, clone_path: Option<String>) -> (parsed: Result<
    Directory,
    DescriptorError,
>)
    ensures
        match parsed {
            Ok(directory) => parsed_path(path@, optional_text(clone_path)) == Ok::<
                DirectoryView,
                DescriptorError,
            >(directory@) && directory@.wf(),
            Err(error) => parsed_path(path@, optional_text(clone_path)) == Err::<
                DirectoryView,
                DescriptorError,
            >(error),
        },
{
    let chars = chars_of(path);
    assert(chars@.skip(0) == chars@);
    let mut pieces = split_from(&chars, 0, '/');
    proof {
        lemma_split_pieces(path@, '/');
    }
    let ghost all = texts(pieces@);
    if pieces[pieces.len() - 1].as_str().is_empty() {
        pieces.pop();
        assert(texts(pieces@) == all.drop_last());
    }
    let ghost kept = texts(pieces@);
    assert(kept == path_pieces(path@));
    if pieces.len() < 3 {
        return Err(DescriptorError::TooShort);
    }
    if pieces[1].as_str().is_empty() {
        return Err(DescriptorError::MissingUsername);
    }
    if pieces[2].as_str().is_empty() {
        return Err(DescriptorError::MissingRepository);
    }
    let branch = if pieces.len() > 4 {
        pieces[4].clone()
    } else {
        String::new()
    };
    let inner = if pieces.len() > 5 {
        subpath(&pieces, 5)
    } else {
        String::new()
    };
    proof {
        if kept.len() > 5 {
            let tail = kept.skip(5);
            assert forall|i: int| 0 <= i < tail.len() implies !(#[trigger] tail[i]).contains(
                '/',
            ) by {
                assert(tail[i] == kept[i + 5]);
                assert(kept[i + 5] == all[i + 5]);
            }
            lemma_slashed_nonempty_resolved(tail);
        }
    }
    Ok(
        Directory {
            root: pieces[2].clone(),
            branch,
            path: inner,
            username: pieces[1].clone(),
            repository: pieces[2].clone(),
            clone_path,
        },
    )
}

/// Whether a URL has a path of segments: its path begins with a slash.
pub open spec fn has_segments(url: url::Url) -> bool {
    url_path(url).len() > 0 && url_path(url)[0] == '/'
}

/// The segments of a URL's path: the pieces between the slashes after the first,
/// the empty ones left out.
pub open spec fn segments(path: Seq<char>) -> Seq<Seq<char>> {
    nonempty(split(path.skip(1), '/'))
}

/// The request that the path of a repository page's URL stands for.
///
/// The first two segments name the owner and the repository; the third is passed
/// over; the fourth names the branch; the segments after it are the path inside
/// the repository. The root on disk is named after the repository.
pub open spec fn described(path: Seq<char>, clone_path: Option<Seq<char>>) -> Result<
    DirectoryView,
    DescriptorError,
> {
    let found = segments(path);
    if found.len() == 0 {
        Err(DescriptorError::MissingUsername)
    } else if found.len() == 1 {
        Err(DescriptorError::MissingRepository)
    } else {
        Ok(
            DirectoryView {
                root: found[1],
                branch: if found.len() > 3 {
                    found[3]
                } else {
                    Seq::<char>::empty()
                },
                path: if found.len() > 4 {
                    slashed_nonempty(found.skip(4))
                } else {
                    Seq::<char>::empty()
                },
                username: found[0],
                repository: found[1],
                clone_path,
            },
        )
    }
}

/// What a text that should be the URL of a repository page stands for.
pub open spec fn described_by_text(text: Seq<char>, clone_path: Option<Seq<char>>) -> Result<
    DirectoryView,
    DescriptorError,
> {
    match parsed_url_path(text) {
        None => Err(DescriptorError::InvalidUrl),
        Some(path) => if path.len() > 0 && path[0] == '/' {
            described(path, clone_path)
        } else {
            Err(DescriptorError::NotHierarchical)
        },
    }
}

/// The path of the URL that `url` spells.
pub fn parse_url(url: &str) -> (path: Result<String, DescriptorError>)
    ensures
        match path {
            Ok(p) => parsed_url_path(url@) == Some(p@),
            Err(error) => parsed_url_path(url@) is None && error == DescriptorError::InvalidUrl,
        },
{
    match parse(url) {
        Ok(parsed) => Ok(path_of(&parsed)),
        Err(_) => Err(DescriptorError::InvalidUrl),
    }
}

impl Directory {
    /// Reads the URL of a repository page.
    ///
    /// The URL has to have a path of segments; [`Directory::from_url`] takes any
    /// text and turns away what has none.
    pub fn new(url: url::Url, clone_path: Option<String>) -> (made: Result<
        Directory,
        DescriptorError,
    >)
        requires
            has_segments(url),
        ensures
            match made {
                Ok(directory) => described(url_path(url), optional_text(clone_path)) == Ok::<
                    DirectoryView,
                    DescriptorError,
                >(directory@) && directory@.wf(),
                Err(error) => described(url_path(url), optional_text(clone_path)) == Err::<
                    DirectoryView,
                    DescriptorError,
                >(error),
            },
    {
        let path = path_of(&url);
        let chars = chars_of(path.as_str());
        let pieces = split_from(&chars, 1, '/');
        let ghost all = texts(pieces@);
        let found = keep_nonempty(pieces);
        let ghost kept = texts(found@);
        proof {
            lemma_split_pieces(url_path(url).skip(1), '/');
            lemma_nonempty_pieces(all);
        }
        if found.len() == 0 {
            return Err(DescriptorError::MissingUsername);
        }
        if found.len() == 1 {
            return Err(DescriptorError::MissingRepository);
        }
        let branch = if found.len() > 3 {
            found[3].clone()
        } else {
            String::new()
        };
        let inner = if found.len() > 4 {
            subpath(&found, 4)
        } else {
            String::new()
        };
        proof {
            if kept.len() > 4 {
                let tail = kept.skip(4);
                assert forall|i: int| 0 <= i < tail.len() implies !(#[trigger] tail[i]).contains(
                    '/',
                ) by {
                    assert(tail[i] == kept[i + 4]);
                }
                lemma_slashed_nonempty_resolved(tail);
            }
        }
        Ok(
            Directory {
                root: found[1].clone(),
                branch,
                path: inner,
                username: found[0].clone(),
                repository: found[1].clone(),
                clone_path,
            },
        )
    }

    /// Reads a text that should be the URL of a repository page.
    pub fn from_url(url: &str, clone_path: Option<String>) -> (made: Result<
        Directory,
        DescriptorError,
    >)
        ensures
            match made {
                Ok(directory) => described_by_text(url@, optional_text(clone_path)) == Ok::<
                    DirectoryView,
                    DescriptorError,
                >(directory@) && directory@.wf(),
                Err(error) => described_by_text(url@, optional_text(clone_path)) == Err::<
                    DirectoryView,
                    DescriptorError,
                >(error),
            },
    {
        match parse(url) {
            Err(_) => Err(DescriptorError::InvalidUrl),
            Ok(parsed) => {
                let path = path_of(&parsed);
                let chars = chars_of(path.as_str());
                if chars.len() > 0 && chars[0] == '/' {
                    Directory::new(parsed, clone_path)
                } else {
                    Err(DescriptorError::NotHierarchical)
                }
            },
        }
    }

    /// Whether the request can be handed to the download engine.
    pub fn is_valid(&self) -> (valid: bool)
        ensures
            valid == self@.wf(),
    {
        if self.username.as_str().is_empty() || self.repository.as_str().is_empty() {
            return false;
        }
        let chars = chars_of(self.path.as_str());
        let n = chars.len();
        n == 0 || (chars[0] == '/' && chars[n - 1] != '/')
    }

    /// The address of the contents service for this request.
    pub fn contents_url(&self) -> (url: String)
        ensures
            url@ == self@.api_url(),
    {
        let mut url = "https://api.github.com/repos/".to_owned();
        url.append(self.username.as_str());
        url.append("/");
        url.append(self.repository.as_str());
        url.append("/contents");
        url.append(self.path.as_str());
        if !self.branch.as_str().is_empty() {
            url.append("?ref=");
            url.append(self.branch.as_str());
        } else {
            assert(url@ + Seq::<char>::empty() == url@);
        }
        url
    }
}

/// Starts the download of what `data` names.
///
/// The run begins by requesting the address of the contents service. A directory
/// will become `clone_path` on disk where the caller named one, else the
/// directory named after the repository; a lone file will go into `clone_path`,
/// else into the current directory.
pub fn fetch_data(data: &Directory) -> (engine: Fetch)
    requires
        data@.wf(),
    ensures
        engine@ == start(data@.api_url(), data@.root_dir(), data@.file_dir()),
{
    let root = match &data.clone_path {
        Some(path) => path.clone(),
        None => data.root.clone(),
    };
    let file_dir = match &data.clone_path {
        Some(path) => path.clone(),
        None => ".".to_owned(),
    };
    Fetch::new(data.contents_url(), root, file_dir)
}

} // verus!
