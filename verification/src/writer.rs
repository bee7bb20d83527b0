//! Writing one file: where its bytes come from and where they go.
//!
//! An entry delivers its contents in one of two ways. Inline contents are decoded
//! here and handed out as bytes. Contents behind a download address are fetched by
//! the caller, who reports the status and the announced length of the answer and
//! learns whether to stream it, and to which path.

use crate::base64::{
    decode, encoded, inline_bytes, law_content_reads_as_its_source, spaceless,
};
use crate::error::{FetchError, FetchErrorView};
use crate::response::{ApiObject, ApiObjectView};
use crate::text::{chars_of, child_path, join_child};
use vstd::prelude::*;

verus! {

/// How the bytes of one file get to disk.
#[derive(Debug, PartialEq, Eq)]
pub enum Delivery {
    /// Write these bytes to `path`, creating or truncating the file.
    Inline { path: String, bytes: Vec<u8> },
    /// Request `url` and stream the answer to `path`.
    Redirected { url: String, path: String },
}

/// A `Delivery` as a mathematical value.
pub enum DeliveryView {
    Inline { path: Seq<char>, bytes: Seq<u8> },
    Redirected { url: Seq<char>, path: Seq<char> },
}

impl View for Delivery {
    type V = DeliveryView;

    open spec fn view(&self) -> DeliveryView {
        match self {
            Delivery::Inline { path, bytes } => DeliveryView::Inline { path: path@, bytes: bytes@ },
            Delivery::Redirected { url, path } => DeliveryView::Redirected {
                url: url@,
                path: path@,
            },
        }
    }
}

/// How the file `node` is written into the directory `dir`.
///
/// Inline contents win over a download address. Contents that are no base64 are a
/// `DecodeError` that names the file's place in the repository; an entry with
/// neither contents nor address is a `ProtocolError` that names the entry's URL.
pub open spec fn delivery_of(node: ApiObjectView, dir: Seq<char>) -> Result<
    DeliveryView,
    FetchErrorView,
> {
    match node.content {
        Some(text) => match inline_bytes(text) {
            Some(bytes) => Ok(DeliveryView::Inline { path: child_path(dir, node.name), bytes }),
            None => Err(FetchErrorView::DecodeError(node.path)),
        },
        None => match node.download_url {
            Some(url) => Ok(DeliveryView::Redirected { url, path: child_path(dir, node.name) }),
            None => Err(FetchErrorView::ProtocolError(node.url)),
        },
    }
}

/// What is written is what was sent.
///
/// A file whose inline content is the base64 text of some bytes, with line breaks
/// or other white space anywhere in it, is written as exactly those bytes.
pub proof fn law_inline_file_is_its_source(
    node: ApiObjectView,
    dir: Seq<char>,
    text: Seq<char>,
    source: Seq<u8>,
)
    requires
        node.content == Some(text),
        spaceless(text) == encoded(source),
    ensures
        delivery_of(node, dir) == Ok::<DeliveryView, FetchErrorView>(
            DeliveryView::Inline { path: child_path(dir, node.name), bytes: source },
        ),
{
    law_content_reads_as_its_source(text, source);
}

/// Decides how the file `obj` is written into the directory `root_path`.
pub fn write_file(obj: &ApiObject, root_path: &str) -> (plan: Result<Delivery, FetchError>)
    ensures
        match plan {
            Ok(delivery) => delivery_of(obj@, root_path@) == Ok::<DeliveryView, FetchErrorView>(
                delivery@,
            ),
            Err(error) => delivery_of(obj@, root_path@) == Err::<DeliveryView, FetchErrorView>(
                error@,
            ),
        },
{
    match &obj.content {
        Some(text) => match decode(text.as_str()) {
            Some(bytes) => Ok(
                Delivery::Inline { path: join_child(root_path, obj.name.as_str()), bytes },
            ),
            None => Err(FetchError::DecodeError(obj.path.clone())),
        },
        None => match &obj.download_url {
            Some(url) => Ok(
                Delivery::Redirected {
                    url: url.clone(),
                    path: join_child(root_path, obj.name.as_str()),
                },
            ),
            None => Err(FetchError::ProtocolError(obj.url.clone())),
        },
    }
}

/// Whether a status is one of success: 200 to 299.
pub open spec fn is_success(status: u16) -> bool {
    200 <= status < 300
}

/// The value of a decimal digit.
pub open spec fn digit_value(c: char) -> Option<nat> {
    if '0' as int <= c as int <= '9' as int {
        Some((c as int - '0' as int) as nat)
    } else {
        None
    }
}

/// The number that a run of decimal digits writes. An empty run writes none, nor
/// does a run with another character in it.
pub open spec fn decimal(digits: Seq<char>) -> Option<nat>
    decreases digits.len(),
{
    if digits.len() == 0 {
        None
    } else {
        match digit_value(digits.last()) {
            None => None,
            Some(d) => if digits.len() == 1 {
                Some(d)
            } else {
                match decimal(digits.drop_last()) {
                    Some(n) => Some(10 * n + d),
                    None => None,
                }
            },
        }
    }
}

/// The length that a `Content-Length` value announces: decimal digits, which a `+`
/// may precede.
pub open spec fn announced(value: Seq<char>) -> Option<nat> {
    if value.len() > 0 && value[0] == '+' {
        decimal(value.skip(1))
    } else {
        decimal(value)
    }
}

/// The announced length where there is one that fits in 64 bits, else 0.
pub open spec fn length_or_zero(value: Seq<char>) -> u64 {
    match announced(value) {
        Some(n) => if n <= u64::MAX {
            n as u64
        } else {
            0
        },
        None => 0,
    }
}

/// The total that progress is measured against: the announced length, or 0 where
/// the answer announces none that can be used.
pub open spec fn progress_total(length: Option<Seq<char>>) -> u64 {
    match length {
        Some(value) => length_or_zero(value),
        None => 0,
    }
}

/// A run with a character that is no digit writes no number.
proof fn lemma_decimal_needs_digits(digits: Seq<char>, at: int)
    requires
        0 <= at < digits.len(),
        digit_value(digits[at]) is None,
    ensures
        decimal(digits) is None,
    decreases digits.len(),
{
    if at < digits.len() - 1 {
        lemma_decimal_needs_digits(digits.drop_last(), at);
    }
}

/// The number of a run is at least the number of each of its prefixes.
proof fn lemma_decimal_grows(digits: Seq<char>, upto: int)
    requires
        1 <= upto <= digits.len(),
        decimal(digits.take(upto)) is Some,
    ensures
        decimal(digits) matches Some(n) ==> n >= decimal(digits.take(upto))->0,
    decreases digits.len() - upto,
{
    if upto < digits.len() {
        assert(digits.drop_last().take(upto) == digits.take(upto));
        lemma_decimal_grows(digits.drop_last(), upto);
    } else {
        assert(digits.take(upto) == digits);
    }
}

fn digit_of(c: char) -> (value: Option<u64>)
    ensures
        match value {
            Some(d) => digit_value(c) == Some(d as nat) && d < 10,
            None => digit_value(c) is None,
        },
{
    let n = c as u32;
    if '0' as u32 <= n && n <= '9' as u32 {
        Some((n - '0' as u32) as u64)
    } else {
        None
    }
}

/// Reads the announced length of an answer for the progress display.
pub fn content_length(length: Option<&str>) -> (total: u64)
    ensures
        total == progress_total(
            match length {
                Some(value) => Some(value@),
                None => None,
            },
        ),
{
    match length {
        Some(value) => read_length(value),
        None => 0,
    }
}

fn read_length(value: &str) -> (total: u64)
    ensures
        total == length_or_zero(value@),
{
    let chars = chars_of(value);
    let len = chars.len();
    let start: usize = if len > 0 && chars[0] == '+' {
        1
    } else {
        0
    };
    let ghost digits = chars@.skip(start as int);
    assert(chars@.skip(0) == chars@);
    let mut total: u64 = 0;
    let mut i: usize = start;
    while i < len
        invariant
            chars@ == value@,
            len == chars@.len(),
            start <= i <= len,
            digits == chars@.skip(start as int),
            announced(value@) == decimal(digits),
            i == start ==> total == 0,
            i > start ==> decimal(digits.take(i - start)) == Some(total as nat),
        decreases len - i,
    {
        let ghost done = digits.take(i - start);
        let ghost next = digits.take(i + 1 - start);
        assert(next.drop_last() == done);
        assert(next.last() == chars@[i as int]);
        match digit_of(chars[i]) {
            None => {
                proof {
                    lemma_decimal_needs_digits(digits, i - start);
                }
                return 0;
            },
            Some(d) => {
                let grown = match total.checked_mul(10) {
                    Some(tens) => tens.checked_add(d),
                    None => None,
                };
                match grown {
                    Some(n) => {
                        total = n;
                    },
                    None => {
                        proof {
                            lemma_decimal_grows(digits, i + 1 - start);
                        }
                        return 0;
                    },
                }
            },
        }
        i = i + 1;
    }
    assert(digits.take(len - start) == digits);
    total
}

/// A download under way: where it goes, how much was announced, and how much has
/// come.
#[derive(Debug, PartialEq, Eq)]
pub struct Transfer {
    pub path: String,
    /// The announced length, or 0 where none was announced.
    pub total: u64,
    /// The number of bytes that have come so far.
    pub received: u64,
}

impl Transfer {
    /// Counts a chunk of `len` bytes that has come and is written next.
    ///
    /// The count is not held to the announced length: what comes beyond it is
    /// written and counted like the rest. A count that would not fit in 64 bits
    /// stays at the largest that does.
    pub fn advance(&mut self, len: usize)
        ensures
            final(self).path == old(self).path,
            final(self).total == old(self).total,
            final(self).received == if old(self).received + len <= u64::MAX {
                (old(self).received + len) as u64
            } else {
                u64::MAX
            },
    {
        self.received = self.received.saturating_add(len as u64);
    }
}

/// Decides, from the head of the answer to the request for `url`, whether its body
/// is streamed to the file `filename` in `dir`.
///
/// A status other than success is a `DownloadError` with the URL and the status.
/// The announced length only sets the progress total: it neither bounds nor validates
/// what is written.
pub fn get_filedata(
    url: &str,
    filename: &str,
    dir: &str,
    status: u16,
    length: Option<&str>,
) -> (head: Result<Transfer, FetchError>)
    ensures
        match head {
            Ok(transfer) => {
                &&& is_success(status)
                &&& transfer.received == 0
                &&& transfer.path@ == child_path(dir@, filename@)
                &&& transfer.total == progress_total(
                    match length {
                        Some(value) => Some(value@),
                        None => None,
                    },
                )
            },
            Err(error) => !is_success(status) && error@ == (FetchErrorView::DownloadError {
                url: url@,
                status,
            }),
        },
{
    if 200 <= status && status < 300 {
        Ok(Transfer { path: join_child(dir, filename), total: content_length(length), received: 0 })
    } else {
        Err(FetchError::DownloadError { url: url.to_owned(), status })
    }
}

} // verus!
