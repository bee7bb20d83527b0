use cloneit::error::FetchError;
use cloneit::response::{ApiObject, Links};
use cloneit::writer::{content_length, get_filedata, write_file, Delivery, Transfer};

fn entry(name: &str, content: Option<&str>, download_url: Option<&str>) -> ApiObject {
    ApiObject {
        name: name.to_string(),
        path: format!("src/{}", name),
        url: format!("https://api.example/contents/src/{}", name),
        content: content.map(|c| c.to_string()),
        download_url: download_url.map(|u| u.to_string()),
        object_type: "file".to_string(),
        links: Links {
            links_self: format!("https://api.example/self/{}", name),
            git: "https://api.example/git".to_string(),
            html: "https://example/html".to_string(),
        },
    }
}

#[test]
fn inline_content_is_decoded_and_written_into_the_directory() {
    let node = entry("a.txt", Some("aGVs\nbG8=\n"), None);
    assert_eq!(
        write_file(&node, "widgets"),
        Ok(Delivery::Inline { path: "widgets/a.txt".to_string(), bytes: b"hello".to_vec() })
    );
}

#[test]
fn inline_content_wins_over_a_download_address() {
    let node = entry("a.txt", Some("d29ybGQ="), Some("https://raw.example/a.txt"));
    assert_eq!(
        write_file(&node, "out/"),
        Ok(Delivery::Inline { path: "out/a.txt".to_string(), bytes: b"world".to_vec() })
    );
}

#[test]
fn a_download_address_is_handed_on() {
    let node = entry("big.bin", None, Some("https://raw.example/big.bin"));
    assert_eq!(
        write_file(&node, "./"),
        Ok(Delivery::Redirected {
            url: "https://raw.example/big.bin".to_string(),
            path: "./big.bin".to_string(),
        })
    );
}

#[test]
fn a_file_goes_straight_into_an_unnamed_directory() {
    let node = entry("big.bin", None, Some("https://raw.example/big.bin"));
    assert_eq!(
        write_file(&node, ""),
        Ok(Delivery::Redirected {
            url: "https://raw.example/big.bin".to_string(),
            path: "big.bin".to_string(),
        })
    );
}

#[test]
fn content_that_is_no_base64_is_a_decode_error() {
    let node = entry("a.txt", Some("not base64!"), Some("https://raw.example/a.txt"));
    assert_eq!(write_file(&node, "widgets"), Err(FetchError::DecodeError("src/a.txt".to_string())));
}

#[test]
fn an_entry_with_nothing_to_deliver_is_a_protocol_error() {
    let node = entry("a.txt", None, None);
    assert_eq!(
        write_file(&node, "widgets"),
        Err(FetchError::ProtocolError("https://api.example/contents/src/a.txt".to_string()))
    );
}

#[test]
fn a_successful_status_starts_the_transfer() {
    assert_eq!(
        get_filedata("https://raw.example/a", "a", "widgets/sub", 200, Some("1024")),
        Ok(Transfer { path: "widgets/sub/a".to_string(), total: 1024, received: 0 })
    );
    assert_eq!(
        get_filedata("https://raw.example/a", "a", "widgets", 299, None),
        Ok(Transfer { path: "widgets/a".to_string(), total: 0, received: 0 })
    );
}

#[test]
fn any_other_status_is_a_download_error() {
    for status in [199u16, 300, 301, 404, 500, 0, 65535] {
        assert_eq!(
            get_filedata("https://raw.example/a", "a", "widgets", status, Some("10")),
            Err(FetchError::DownloadError { url: "https://raw.example/a".to_string(), status })
        );
    }
}

#[test]
fn the_announced_length_is_read_as_a_decimal_number() {
    assert_eq!(content_length(Some("0")), 0);
    assert_eq!(content_length(Some("123")), 123);
    assert_eq!(content_length(Some("007")), 7);
    assert_eq!(content_length(Some("+42")), 42);
    assert_eq!(content_length(Some("18446744073709551615")), u64::MAX);
}

#[test]
fn a_length_that_cannot_be_used_counts_as_zero() {
    assert_eq!(content_length(None), 0);
    assert_eq!(content_length(Some("")), 0);
    assert_eq!(content_length(Some("+")), 0);
    assert_eq!(content_length(Some("-1")), 0);
    assert_eq!(content_length(Some("12a")), 0);
    assert_eq!(content_length(Some(" 12")), 0);
    assert_eq!(content_length(Some("1+2")), 0);
    assert_eq!(content_length(Some("18446744073709551616")), 0);
    assert_eq!(content_length(Some("99999999999999999999999")), 0);
    assert_eq!(content_length(Some("184467440737095516150x")), 0);
}

#[test]
fn what_has_come_is_counted_beyond_what_was_announced() {
    let mut transfer = get_filedata("u", "a", "d", 200, Some("10")).unwrap();
    transfer.advance(4);
    assert_eq!(transfer.received, 4);
    transfer.advance(6);
    transfer.advance(5);
    assert_eq!(transfer.received, 15);
    assert_eq!(transfer.total, 10);
    assert_eq!(transfer.path, "d/a");
    transfer.received = u64::MAX - 1;
    transfer.advance(7);
    assert_eq!(transfer.received, u64::MAX);
}
