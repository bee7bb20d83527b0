use cloneit::client::{build_request, read_answer, read_node, read_response};
use cloneit::error::FetchError;
use cloneit::json::{get, parse_json, Json};
use cloneit::response::{ApiMessage, ApiObject, ApiResponse, Links};

fn text(value: &str) -> Json {
    Json::Text(value.to_string())
}

fn object(members: Vec<(&str, Json)>) -> Json {
    Json::Object(members.into_iter().map(|(name, value)| (name.to_string(), value)).collect())
}

fn node_json(name: &str, kind: &str) -> Json {
    object(vec![
        ("name", text(name)),
        ("path", text(&format!("src/{}", name))),
        ("sha", text("3d21ec53a331a6f037a91c368710b99387d012c1")),
        ("size", Json::Number("5362".to_string())),
        ("url", text(&format!("https://api.example/contents/src/{}", name))),
        ("download_url", Json::Null),
        ("type", text(kind)),
        (
            "_links",
            object(vec![
                ("self", text("https://api.example/self")),
                ("git", text("https://api.example/git")),
                ("html", text("https://example/html")),
            ]),
        ),
    ])
}

fn node(name: &str, kind: &str) -> ApiObject {
    ApiObject {
        name: name.to_string(),
        path: format!("src/{}", name),
        url: format!("https://api.example/contents/src/{}", name),
        content: None,
        download_url: None,
        object_type: kind.to_string(),
        links: Links {
            links_self: "https://api.example/self".to_string(),
            git: "https://api.example/git".to_string(),
            html: "https://example/html".to_string(),
        },
    }
}

const FILE_BODY: &str = r#"{
  "type": "file",
  "encoding": "base64",
  "size": 5,
  "name": "a.txt",
  "path": "src/a.txt",
  "content": "aGVs\nbG8=\n",
  "sha": "3d21ec53a331a6f037a91c368710b99387d012c1",
  "url": "https://api.example/contents/src/a.txt",
  "git_url": "https://api.example/git/blobs/3d21",
  "html_url": "https://example/blob/main/src/a.txt",
  "download_url": "https://raw.example/src/a.txt",
  "_links": {
    "git": "https://api.example/git/blobs/3d21",
    "self": "https://api.example/contents/src/a.txt?ref=main",
    "html": "https://example/blob/main/src/a.txt"
  }
}"#;

const LISTING_BODY: &str = r#"[
  {"name": "a.txt", "path": "src/a.txt", "url": "https://api.example/contents/src/a.txt",
   "download_url": "https://raw.example/src/a.txt", "type": "file",
   "_links": {"self": "s1", "git": "g1", "html": "h1"}},
  {"name": "sub", "path": "src/sub", "url": "https://api.example/contents/src/sub",
   "download_url": null, "type": "dir",
   "_links": {"self": "s2", "git": "g2", "html": "h2"}}
]"#;

#[test]
fn json_is_parsed_by_the_parser() {
    assert_eq!(
        parse_json(r#"[1, -2.5, "aA\n", null, true, false, {"k": [], "j": {}}]"#),
        Some(Json::Array(vec![
            Json::Number("1".to_string()),
            Json::Number("-2.5".to_string()),
            text("aA\n"),
            Json::Null,
            Json::Bool(true),
            Json::Bool(false),
            object(vec![("j", object(vec![])), ("k", Json::Array(vec![]))]),
        ]))
    );
    assert_eq!(parse_json("  \"x\" "), Some(text("x")));
}

#[test]
fn what_is_no_json_is_not_parsed() {
    assert_eq!(parse_json(""), None);
    assert_eq!(parse_json("{"), None);
    assert_eq!(parse_json("[1,]"), None);
    assert_eq!(parse_json("{\"a\": 1} x"), None);
    assert_eq!(parse_json("<html></html>"), None);
}

#[test]
fn a_member_is_found_by_its_name() {
    let members = vec![
        ("a".to_string(), Json::Null),
        ("b".to_string(), text("first")),
        ("b".to_string(), text("second")),
    ];
    assert_eq!(get(&members, "b"), Some(&text("first")));
    assert_eq!(get(&members, "a"), Some(&Json::Null));
    assert_eq!(get(&members, "c"), None);
    assert_eq!(get(&Vec::new(), "a"), None);
}

#[test]
fn an_object_with_the_members_of_an_entry_is_an_entry() {
    assert_eq!(read_node(&node_json("a.txt", "file")), Some(node("a.txt", "file")));
    assert_eq!(
        read_response(&node_json("sub", "dir")),
        Some(ApiResponse::Object(node("sub", "dir")))
    );
}

#[test]
fn the_body_of_a_file_is_read_with_its_content() {
    let response = build_request(FILE_BODY, "https://api.example/contents/src/a.txt");
    assert_eq!(
        response,
        Ok(ApiResponse::Object(ApiObject {
            name: "a.txt".to_string(),
            path: "src/a.txt".to_string(),
            url: "https://api.example/contents/src/a.txt".to_string(),
            content: Some("aGVs\nbG8=\n".to_string()),
            download_url: Some("https://raw.example/src/a.txt".to_string()),
            object_type: "file".to_string(),
            links: Links {
                links_self: "https://api.example/contents/src/a.txt?ref=main".to_string(),
                git: "https://api.example/git/blobs/3d21".to_string(),
                html: "https://example/blob/main/src/a.txt".to_string(),
            },
        }))
    );
}

#[test]
fn the_body_of_a_directory_is_read_in_its_order() {
    let response = build_request(LISTING_BODY, "https://api.example/contents/src").unwrap();
    match response {
        ApiResponse::Array(nodes) => {
            assert_eq!(nodes.len(), 2);
            assert_eq!(nodes[0].name, "a.txt");
            assert_eq!(nodes[0].download_url, Some("https://raw.example/src/a.txt".to_string()));
            assert_eq!(nodes[0].content, None);
            assert_eq!(nodes[1].name, "sub");
            assert_eq!(nodes[1].download_url, None);
            assert!(nodes[1].is_dir());
            assert_eq!(nodes[1].links.links_self, "s2");
        }
        other => panic!("no listing: {:?}", other),
    }
    assert_eq!(build_request("[]", "u"), Ok(ApiResponse::Array(vec![])));
}

#[test]
fn a_message_is_a_remote_error_whatever_came_with_it() {
    let body =
        r#"{"message": "Not Found", "documentation_url": "https://docs.example", "status": "404"}"#;
    assert_eq!(
        build_request(body, "https://api.example/contents/nope"),
        Err(FetchError::RemoteError("Not Found".to_string()))
    );
    assert_eq!(
        read_response(&object(vec![("message", text("API rate limit exceeded"))])),
        Some(ApiResponse::Message(ApiMessage { message: "API rate limit exceeded".to_string() }))
    );
}

#[test]
fn an_entry_is_preferred_to_a_message() {
    let mut members = match node_json("a.txt", "file") {
        Json::Object(members) => members,
        _ => unreachable!(),
    };
    members.push(("message".to_string(), text("hello")));
    assert_eq!(
        read_answer(Some(Json::Object(members)), "u"),
        Ok(ApiResponse::Object(node("a.txt", "file")))
    );
}

#[test]
fn a_body_of_no_known_shape_is_a_protocol_error_that_names_the_url() {
    let url = "https://api.example/contents/src";
    let error = Err(FetchError::ProtocolError(url.to_string()));
    assert_eq!(build_request("", url), error);
    assert_eq!(build_request("<html>Bad Gateway</html>", url), error);
    assert_eq!(build_request("42", url), error);
    assert_eq!(build_request("\"text\"", url), error);
    assert_eq!(build_request("null", url), error);
    assert_eq!(build_request("{}", url), error);
    assert_eq!(build_request(r#"{"message": 404}"#, url), error);
    assert_eq!(build_request("[1, 2]", url), error);
    assert_eq!(build_request(r#"[{"message": "Not Found"}]"#, url), error);
    assert_eq!(read_answer(None, url), error);
}

#[test]
fn an_entry_with_a_member_missing_or_misshapen_is_none() {
    for missing in ["name", "path", "url", "type", "_links"] {
        let members = match node_json("a.txt", "file") {
            Json::Object(members) => members,
            _ => unreachable!(),
        };
        let members: Vec<(String, Json)> =
            members.into_iter().filter(|(name, _)| name != missing).collect();
        assert_eq!(read_node(&Json::Object(members)), None);
    }
    let mut members = match node_json("a.txt", "file") {
        Json::Object(members) => members,
        _ => unreachable!(),
    };
    members.insert(0, ("download_url".to_string(), Json::Bool(true)));
    assert_eq!(read_node(&Json::Object(members)), None);
    let mut members = match node_json("a.txt", "file") {
        Json::Object(members) => members,
        _ => unreachable!(),
    };
    members.insert(0, ("_links".to_string(), object(vec![("self", text("s"))])));
    assert_eq!(read_node(&Json::Object(members)), None);
    assert_eq!(read_node(&Json::Array(vec![])), None);
    assert_eq!(read_node(&Json::Null), None);
}

#[test]
fn a_listing_with_one_thing_that_is_no_entry_is_no_listing() {
    let items = Json::Array(vec![node_json("a.txt", "file"), Json::Null, node_json("b", "dir")]);
    assert_eq!(read_response(&items), None);
    let items = Json::Array(vec![node_json("a.txt", "file"), node_json("b", "dir")]);
    assert_eq!(
        read_response(&items),
        Some(ApiResponse::Array(vec![node("a.txt", "file"), node("b", "dir")]))
    );
}
