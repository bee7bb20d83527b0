use cloneit::descriptor::{fetch_data, Directory};
use cloneit::error::FetchError;
use cloneit::fetch::{download, get_dir, Action, Event, Fetch, Target, Task};
use cloneit::response::{ApiMessage, ApiObject, ApiResponse, Links};
use std::collections::{BTreeMap, BTreeSet};

fn links(name: &str) -> Links {
    Links {
        links_self: format!("https://api.example/alias/{}", name),
        git: "https://api.example/git".to_string(),
        html: "https://example/html".to_string(),
    }
}

fn file(name: &str, path: &str, content: &str) -> ApiObject {
    ApiObject {
        name: name.to_string(),
        path: path.to_string(),
        url: format!("https://api.example/contents/{}", path),
        content: Some(content.to_string()),
        download_url: None,
        object_type: "file".to_string(),
        links: links(name),
    }
}

fn big_file(name: &str, path: &str) -> ApiObject {
    ApiObject {
        name: name.to_string(),
        path: path.to_string(),
        url: format!("https://api.example/contents/{}", path),
        content: None,
        download_url: Some(format!("https://raw.example/{}", path)),
        object_type: "file".to_string(),
        links: links(name),
    }
}

fn dir(name: &str, path: &str) -> ApiObject {
    ApiObject {
        name: name.to_string(),
        path: path.to_string(),
        url: format!("https://api.example/contents/{}", path),
        content: None,
        download_url: None,
        object_type: "dir".to_string(),
        links: links(name),
    }
}

enum Held {
    File(ApiObject),
    Dir(Vec<ApiObject>),
    Message(String),
}

struct World {
    service: BTreeMap<String, Held>,
    raw: BTreeMap<String, Vec<u8>>,
    dirs: BTreeSet<String>,
    files: BTreeMap<String, Vec<u8>>,
    log: Vec<String>,
}

impl World {
    fn new() -> World {
        World {
            service: BTreeMap::new(),
            raw: BTreeMap::new(),
            dirs: BTreeSet::new(),
            files: BTreeMap::new(),
            log: Vec::new(),
        }
    }

    fn perform(&mut self, action: &Action) -> Event {
        match action {
            Action::Request { url, user_agent } => {
                assert_eq!(user_agent, "request");
                self.log.push(format!("request {}", url));
                match self.service.get(url) {
                    Some(Held::File(node)) => Event::Listing(ApiResponse::Object(node.clone())),
                    Some(Held::Dir(nodes)) => Event::Listing(ApiResponse::Array(nodes.clone())),
                    Some(Held::Message(message)) => Event::Listing(ApiResponse::Message(
                        ApiMessage { message: message.clone() },
                    )),
                    None => Event::Failed(FetchError::TransportError(url.clone())),
                }
            }
            Action::Probe { path } => {
                self.log.push(format!("probe {}", path));
                Event::Exists(self.dirs.contains(path))
            }
            Action::CreateDir { path } => {
                self.log.push(format!("mkdir {}", path));
                if self.dirs.insert(path.clone()) {
                    Event::Done
                } else {
                    Event::Failed(FetchError::FilesystemError(format!("{} exists", path)))
                }
            }
            Action::WriteFile { path, bytes } => {
                self.log.push(format!("write {}", path));
                self.files.insert(path.clone(), bytes.clone());
                Event::Done
            }
            Action::Download { url, path } => {
                self.log.push(format!("download {} to {}", url, path));
                match self.raw.get(url) {
                    Some(bytes) => {
                        self.files.insert(path.clone(), bytes.clone());
                        Event::Done
                    }
                    None => Event::Failed(FetchError::DownloadError {
                        url: url.clone(),
                        status: 404,
                    }),
                }
            }
            Action::Finished | Action::Failed(_) => unreachable!(),
        }
    }

    fn run(&mut self, engine: &mut Fetch) -> Result<(), FetchError> {
        let mut action = engine.action();
        for _ in 0..1000 {
            match action {
                Action::Finished => return Ok(()),
                Action::Failed(error) => return Err(error),
                other => {
                    let event = self.perform(&other);
                    action = engine.step(event);
                }
            }
        }
        panic!("the run does not end");
    }
}

fn widgets() -> Directory {
    Directory {
        root: "widgets".to_string(),
        branch: "".to_string(),
        path: "".to_string(),
        username: "acme".to_string(),
        repository: "widgets".to_string(),
        clone_path: None,
    }
}

const ROOT_URL: &str = "https://api.github.com/repos/acme/widgets/contents";

fn widgets_world() -> World {
    let mut world = World::new();
    world.service.insert(
        ROOT_URL.to_string(),
        Held::Dir(vec![file("a.txt", "a.txt", "aGVsbG8="), dir("sub", "sub")]),
    );
    world.service.insert(
        "https://api.example/contents/sub".to_string(),
        Held::Dir(vec![file("b.txt", "sub/b.txt", "d29y\nbGQ=\n")]),
    );
    world
}

#[test]
fn a_directory_is_rebuilt_on_disk() {
    let mut world = widgets_world();
    let mut engine = fetch_data(&widgets());
    assert_eq!(world.run(&mut engine), Ok(()));
    assert_eq!(world.files.get("widgets/a.txt"), Some(&b"hello".to_vec()));
    assert_eq!(world.files.get("widgets/sub/b.txt"), Some(&b"world".to_vec()));
    assert_eq!(world.files.len(), 2);
    let dirs: Vec<&str> = world.dirs.iter().map(|d| d.as_str()).collect();
    assert_eq!(dirs, vec!["widgets", "widgets/sub"]);
    assert!(engine.finished());
    assert_eq!(engine.target(), Some(Target::Directory));
    assert_eq!(engine.failure(), None);
}

#[test]
fn the_actions_follow_the_listing_in_its_order() {
    let mut world = widgets_world();
    let mut engine = fetch_data(&widgets());
    assert_eq!(world.run(&mut engine), Ok(()));
    assert_eq!(
        world.log,
        vec![
            format!("request {}", ROOT_URL),
            "probe widgets".to_string(),
            "mkdir widgets".to_string(),
            "write widgets/a.txt".to_string(),
            "probe widgets/sub".to_string(),
            "mkdir widgets/sub".to_string(),
            "request https://api.example/contents/sub".to_string(),
            "write widgets/sub/b.txt".to_string(),
        ]
    );
}

#[test]
fn a_directory_is_read_to_its_end_before_the_next_entry() {
    let mut world = World::new();
    world.service.insert(
        ROOT_URL.to_string(),
        Held::Dir(vec![dir("x", "x"), file("m.txt", "m.txt", "TQ=="), dir("y", "y")]),
    );
    world.service.insert(
        "https://api.example/contents/x".to_string(),
        Held::Dir(vec![dir("deep", "x/deep"), big_file("r.bin", "x/r.bin")]),
    );
    world.service.insert("https://api.example/contents/x/deep".to_string(), Held::Dir(vec![]));
    world.service.insert(
        "https://api.example/contents/y".to_string(),
        Held::Dir(vec![file("n.txt", "y/n.txt", "TWE=")]),
    );
    world.raw.insert("https://raw.example/x/r.bin".to_string(), vec![1, 2, 3]);
    let mut engine = fetch_data(&widgets());
    assert_eq!(world.run(&mut engine), Ok(()));
    assert_eq!(
        world.log,
        vec![
            format!("request {}", ROOT_URL),
            "probe widgets".to_string(),
            "mkdir widgets".to_string(),
            "probe widgets/x".to_string(),
            "mkdir widgets/x".to_string(),
            "request https://api.example/contents/x".to_string(),
            "probe widgets/x/deep".to_string(),
            "mkdir widgets/x/deep".to_string(),
            "request https://api.example/contents/x/deep".to_string(),
            "download https://raw.example/x/r.bin to widgets/x/r.bin".to_string(),
            "write widgets/m.txt".to_string(),
            "probe widgets/y".to_string(),
            "mkdir widgets/y".to_string(),
            "request https://api.example/contents/y".to_string(),
            "write widgets/y/n.txt".to_string(),
        ]
    );
    assert_eq!(world.files.get("widgets/x/r.bin"), Some(&vec![1, 2, 3]));
    assert_eq!(world.files.get("widgets/m.txt"), Some(&b"M".to_vec()));
    assert_eq!(world.files.get("widgets/y/n.txt"), Some(&b"Ma".to_vec()));
}

#[test]
fn a_lone_file_is_written_and_no_directory_made() {
    let mut world = World::new();
    world
        .service
        .insert(ROOT_URL.to_string(), Held::File(file("a.txt", "a.txt", "aGVsbG8=")));
    let mut engine = fetch_data(&widgets());
    assert_eq!(world.run(&mut engine), Ok(()));
    assert_eq!(world.log, vec![format!("request {}", ROOT_URL), "write ./a.txt".to_string()]);
    assert!(world.dirs.is_empty());
    assert_eq!(world.files.len(), 1);
    assert_eq!(world.files.get("./a.txt"), Some(&b"hello".to_vec()));
    assert_eq!(engine.target(), Some(Target::File));
}

#[test]
fn a_lone_file_goes_into_the_directory_that_the_caller_named() {
    let mut world = World::new();
    world.service.insert(ROOT_URL.to_string(), Held::File(big_file("a.bin", "a.bin")));
    world.raw.insert("https://raw.example/a.bin".to_string(), vec![9, 9]);
    let mut data = widgets();
    data.clone_path = Some("out".to_string());
    let mut engine = fetch_data(&data);
    assert_eq!(world.run(&mut engine), Ok(()));
    assert_eq!(
        world.log,
        vec![
            format!("request {}", ROOT_URL),
            "download https://raw.example/a.bin to out/a.bin".to_string(),
        ]
    );
    assert!(world.dirs.is_empty());
    assert_eq!(world.files.get("out/a.bin"), Some(&vec![9, 9]));
}

#[test]
fn a_root_that_exists_is_not_created_again() {
    let mut world = widgets_world();
    world.dirs.insert("widgets".to_string());
    let mut engine = fetch_data(&widgets());
    assert_eq!(world.run(&mut engine), Ok(()));
    assert!(!world.log.contains(&"mkdir widgets".to_string()));
    assert!(world.log.contains(&"probe widgets".to_string()));
    assert!(world.log.contains(&"mkdir widgets/sub".to_string()));
    assert_eq!(world.files.get("widgets/a.txt"), Some(&b"hello".to_vec()));
    assert_eq!(world.files.get("widgets/sub/b.txt"), Some(&b"world".to_vec()));
}

#[test]
fn downloading_twice_into_the_same_place_succeeds() {
    let mut world = widgets_world();
    let mut first = fetch_data(&widgets());
    assert_eq!(world.run(&mut first), Ok(()));
    let mut second = fetch_data(&widgets());
    assert_eq!(world.run(&mut second), Ok(()));
    assert_eq!(world.log.iter().filter(|line| line.starts_with("mkdir")).count(), 2);
    assert_eq!(world.files.len(), 2);
}

#[test]
fn the_directory_that_the_caller_named_takes_the_place_of_the_root() {
    let mut world = widgets_world();
    world.dirs.insert(".".to_string());
    let mut data = widgets();
    data.clone_path = Some(".".to_string());
    let mut engine = fetch_data(&data);
    assert_eq!(world.run(&mut engine), Ok(()));
    assert_eq!(world.files.get("./a.txt"), Some(&b"hello".to_vec()));
    assert_eq!(world.files.get("./sub/b.txt"), Some(&b"world".to_vec()));
    assert!(!world.log.contains(&"mkdir .".to_string()));
}

#[test]
fn a_message_is_a_remote_error_with_its_words() {
    let mut world = World::new();
    world.service.insert(ROOT_URL.to_string(), Held::Message("Not Found".to_string()));
    let mut engine = fetch_data(&widgets());
    assert_eq!(world.run(&mut engine), Err(FetchError::RemoteError("Not Found".to_string())));
    assert!(world.dirs.is_empty() && world.files.is_empty());
    assert!(!engine.finished());
    assert_eq!(engine.failure(), Some(FetchError::RemoteError("Not Found".to_string())));
    assert_eq!(engine.target(), None);
}

#[test]
fn a_message_further_down_stops_the_run_and_keeps_what_was_made() {
    let mut world = widgets_world();
    world.service.insert(
        "https://api.example/contents/sub".to_string(),
        Held::Message("API rate limit exceeded".to_string()),
    );
    let mut engine = fetch_data(&widgets());
    assert_eq!(
        world.run(&mut engine),
        Err(FetchError::RemoteError("API rate limit exceeded".to_string()))
    );
    assert_eq!(world.files.get("widgets/a.txt"), Some(&b"hello".to_vec()));
    assert!(world.dirs.contains("widgets/sub"));
    assert_eq!(world.files.len(), 1);
}

#[test]
fn the_first_failure_ends_the_run() {
    let mut world = World::new();
    world.service.insert(
        ROOT_URL.to_string(),
        Held::Dir(vec![
            file("a.txt", "a.txt", "aGVsbG8="),
            big_file("gone.bin", "gone.bin"),
            file("z.txt", "z.txt", "d29ybGQ="),
        ]),
    );
    let mut engine = fetch_data(&widgets());
    assert_eq!(
        world.run(&mut engine),
        Err(FetchError::DownloadError {
            url: "https://raw.example/gone.bin".to_string(),
            status: 404
        })
    );
    assert_eq!(world.files.len(), 1);
    assert!(!world.files.contains_key("widgets/z.txt"));
}

#[test]
fn a_failed_run_stays_failed() {
    let mut engine = fetch_data(&widgets());
    let _ = engine.action();
    let failure = FetchError::TransportError("connection reset".to_string());
    assert_eq!(engine.step(Event::Failed(failure.clone())), Action::Failed(failure.clone()));
    assert_eq!(engine.step(Event::Done), Action::Failed(failure.clone()));
    assert_eq!(
        engine.step(Event::Listing(ApiResponse::Array(vec![]))),
        Action::Failed(failure.clone())
    );
    assert_eq!(engine.action(), Action::Failed(failure));
}

#[test]
fn content_that_cannot_be_decoded_fails_when_its_turn_comes() {
    let mut world = World::new();
    world.service.insert(
        ROOT_URL.to_string(),
        Held::Dir(vec![file("a.txt", "a.txt", "aGVsbG8="), file("bad.txt", "bad.txt", "%%%%")]),
    );
    let mut engine = fetch_data(&widgets());
    assert_eq!(world.run(&mut engine), Err(FetchError::DecodeError("bad.txt".to_string())));
    assert_eq!(world.files.get("widgets/a.txt"), Some(&b"hello".to_vec()));
    assert_eq!(
        engine.step(Event::Done),
        Action::Failed(FetchError::DecodeError("bad.txt".to_string()))
    );
}

#[test]
fn an_event_that_answers_nothing_repeats_the_action() {
    let mut engine = fetch_data(&widgets());
    let request =
        Action::Request { url: ROOT_URL.to_string(), user_agent: "request".to_string() };
    assert_eq!(engine.action(), request);
    assert_eq!(engine.step(Event::Done), request);
    assert_eq!(engine.step(Event::Exists(true)), request);
    let probe = Action::Probe { path: "widgets".to_string() };
    assert_eq!(engine.step(Event::Listing(ApiResponse::Array(vec![]))), probe);
    assert_eq!(engine.step(Event::Done), probe);
    assert_eq!(engine.step(Event::Listing(ApiResponse::Array(vec![]))), probe);
    let create = Action::CreateDir { path: "widgets".to_string() };
    assert_eq!(engine.step(Event::Exists(false)), create);
    assert_eq!(engine.step(Event::Exists(true)), create);
    assert_eq!(engine.step(Event::Done), Action::Finished);
    assert_eq!(engine.step(Event::Done), Action::Finished);
    let late = Event::Failed(FetchError::TransportError("late".to_string()));
    assert_eq!(engine.step(late), Action::Finished);
    assert!(engine.finished());
}

#[test]
fn an_empty_directory_is_made_and_nothing_else() {
    let mut world = World::new();
    world.service.insert(ROOT_URL.to_string(), Held::Dir(vec![]));
    let mut engine = fetch_data(&widgets());
    assert_eq!(world.run(&mut engine), Ok(()));
    assert_eq!(
        world.log,
        vec![
            format!("request {}", ROOT_URL),
            "probe widgets".to_string(),
            "mkdir widgets".to_string()
        ]
    );
}

#[test]
fn a_listing_becomes_tasks_in_its_order() {
    let nodes = vec![file("a.txt", "a.txt", "TQ=="), dir("sub", "sub"), big_file("b", "b")];
    let tasks = get_dir(ApiResponse::Array(nodes.clone()), "widgets").unwrap();
    assert_eq!(
        tasks,
        vec![
            Task::Write { node: nodes[0].clone(), dir: "widgets".to_string() },
            Task::Mkdir { path: "widgets/sub".to_string() },
            Task::List {
                url: "https://api.example/contents/sub".to_string(),
                dest: "widgets/sub".to_string()
            },
            Task::Write { node: nodes[2].clone(), dir: "widgets".to_string() },
        ]
    );
}

#[test]
fn a_directory_is_listed_at_its_own_address_not_at_its_alias() {
    let node = dir("sub", "sub");
    let tasks = get_dir(ApiResponse::Array(vec![node.clone()]), "w").unwrap();
    assert_eq!(tasks[1], Task::List { url: node.url.clone(), dest: "w/sub".to_string() });
    assert_ne!(node.url, node.links.links_self);
}

#[test]
fn a_single_entry_in_answer_to_a_listing_is_a_file() {
    let node = file("a.txt", "sub/a.txt", "TQ==");
    assert_eq!(
        get_dir(ApiResponse::Object(node.clone()), "widgets/sub"),
        Ok(vec![Task::Write { node, dir: "widgets/sub".to_string() }])
    );
}

#[test]
fn the_first_answer_decides_where_things_go() {
    let node = file("a.txt", "a.txt", "TQ==");
    assert_eq!(
        download(ApiResponse::Object(node.clone()), "widgets", "."),
        Ok(vec![Task::Write { node: node.clone(), dir: ".".to_string() }])
    );
    assert_eq!(
        download(ApiResponse::Array(vec![node.clone()]), "widgets", "."),
        Ok(vec![
            Task::Mkdir { path: "widgets".to_string() },
            Task::Write { node, dir: "widgets".to_string() }
        ])
    );
    let refusal = ApiResponse::Message(ApiMessage { message: "Not Found".to_string() });
    assert_eq!(
        download(refusal, "widgets", "."),
        Err(FetchError::RemoteError("Not Found".to_string()))
    );
    let refusal = ApiResponse::Message(ApiMessage { message: "Not Found".to_string() });
    assert_eq!(get_dir(refusal, "widgets"), Err(FetchError::RemoteError("Not Found".to_string())));
}

#[test]
fn anything_that_is_no_directory_is_written_as_a_file() {
    let mut node = big_file("link", "link");
    node.object_type = "symlink".to_string();
    assert!(!node.is_dir());
    assert_eq!(
        get_dir(ApiResponse::Array(vec![node.clone()]), "w"),
        Ok(vec![Task::Write { node, dir: "w".to_string() }])
    );
    assert!(dir("d", "d").is_dir());
}

#[test]
fn a_directory_that_is_listed_twice_is_created_once() {
    let mut world = World::new();
    world
        .service
        .insert(ROOT_URL.to_string(), Held::Dir(vec![dir("sub", "sub"), dir("sub", "sub")]));
    world.service.insert(
        "https://api.example/contents/sub".to_string(),
        Held::Dir(vec![file("b.txt", "sub/b.txt", "d29ybGQ=")]),
    );
    let mut engine = fetch_data(&widgets());
    assert_eq!(world.run(&mut engine), Ok(()));
    assert_eq!(world.log.iter().filter(|line| *line == "mkdir widgets/sub").count(), 1);
    assert_eq!(world.log.iter().filter(|line| *line == "probe widgets/sub").count(), 2);
    assert_eq!(world.files.get("widgets/sub/b.txt"), Some(&b"world".to_vec()));
}
