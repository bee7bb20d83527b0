use cloneit::archive::{
    relative_name, ArchiveError, ArchivePlan, ArchiveStep, Compression, Opening, Walked,
    ZipArchiver,
};
use cloneit::args::{zip_after, Args};
use cloneit::descriptor::{fetch_data, Directory};
use cloneit::fetch::Event;
use cloneit::response::{ApiObject, ApiResponse, Links};
use std::collections::BTreeMap;
use std::io::{Cursor, Read, Write};

fn walked(path: &str, is_file: bool) -> Walked {
    Walked { path: path.to_string(), is_file }
}

fn file_step(name: &str, source: &str) -> ArchiveStep {
    ArchiveStep::File { name: name.to_string(), source: source.to_string() }
}

fn dir_step(name: &str) -> ArchiveStep {
    ArchiveStep::Directory { name: name.to_string() }
}

fn widgets_walk() -> Vec<Walked> {
    vec![
        walked("widgets", false),
        walked("widgets/a.txt", true),
        walked("widgets/sub", false),
        walked("widgets/sub/b.txt", true),
    ]
}

#[test]
fn a_path_is_named_relative_to_the_source() {
    assert_eq!(relative_name("widgets/sub/b.txt", "widgets"), Some("sub/b.txt".to_string()));
    assert_eq!(relative_name("widgets/a.txt", "widgets/"), Some("a.txt".to_string()));
    assert_eq!(relative_name("./widgets/a.txt", "widgets"), Some("a.txt".to_string()));
    assert_eq!(relative_name("/tmp/out//w/x/", "/tmp/out/w"), Some("x".to_string()));
    assert_eq!(relative_name("a/b/c", "."), Some("a/b/c".to_string()));
    assert_eq!(relative_name("a/b/c", ""), Some("a/b/c".to_string()));
}

#[test]
fn the_source_has_the_empty_name() {
    assert_eq!(relative_name("widgets", "widgets"), Some(String::new()));
    assert_eq!(relative_name("widgets/", "./widgets"), Some(String::new()));
    assert_eq!(relative_name("", ""), Some(String::new()));
}

#[test]
fn a_path_outside_the_source_has_no_name() {
    assert_eq!(relative_name("gadgets/a.txt", "widgets"), None);
    assert_eq!(relative_name("widgets", "widgets/sub"), None);
    assert_eq!(relative_name("widgets2/a.txt", "widgets"), None);
    assert_eq!(relative_name("a/widgets/b", "widgets"), None);
}

#[test]
fn the_archiver_deflates_with_fixed_permissions() {
    let archiver = ZipArchiver::new("widgets", "widgets.zip");
    assert_eq!(archiver.source(), "widgets");
    assert_eq!(archiver.destination(), "widgets.zip");
    let plan = archiver.run(true, false, &Vec::new()).unwrap();
    assert_eq!(plan.steps, vec![ArchiveStep::Finish]);
    assert_eq!(plan.compression, Compression::Deflated);
    assert_eq!(plan.unix_permissions, 0o755);
    assert_eq!(plan.unix_permissions, 493);
}

#[test]
fn files_become_file_entries_and_directories_directory_entries() {
    let archiver = ZipArchiver::new("widgets", "widgets.zip");
    assert_eq!(
        archiver.add_path("widgets/a.txt", true),
        Ok(Some(file_step("a.txt", "widgets/a.txt")))
    );
    assert_eq!(archiver.add_path("widgets/sub", false), Ok(Some(dir_step("sub"))));
    assert_eq!(archiver.add_path("widgets", false), Ok(None));
    assert_eq!(archiver.add_path("widgets", true), Ok(None));
    assert_eq!(
        archiver.add_path("elsewhere/a.txt", true),
        Err(ArchiveError::OutsideSource("elsewhere/a.txt".to_string()))
    );
}

#[test]
fn the_walk_is_archived_in_its_order_without_the_source() {
    let archiver = ZipArchiver::new("widgets", "widgets.zip");
    assert_eq!(
        archiver.zip_dir(&widgets_walk()),
        Ok(vec![
            file_step("a.txt", "widgets/a.txt"),
            dir_step("sub"),
            file_step("sub/b.txt", "widgets/sub/b.txt"),
        ])
    );
    assert_eq!(archiver.zip_dir(&Vec::new()), Ok(Vec::new()));
    assert_eq!(archiver.zip_dir(&vec![walked("widgets", false)]), Ok(Vec::new()));
}

#[test]
fn the_first_path_outside_the_source_is_the_error() {
    let archiver = ZipArchiver::new("widgets", "widgets.zip");
    let walk = vec![
        walked("widgets/a.txt", true),
        walked("other/b.txt", true),
        walked("third/c.txt", true),
    ];
    assert_eq!(
        archiver.zip_dir(&walk),
        Err(ArchiveError::OutsideSource("other/b.txt".to_string()))
    );
}

#[test]
fn a_source_that_is_no_directory_is_not_archived() {
    let archiver = ZipArchiver::new("a.txt", "a.txt.zip");
    assert_eq!(archiver.run(false, false, &Vec::new()), Err(ArchiveError::SourceNotDirectory));
    assert_eq!(
        archiver.run(false, true, &vec![walked("elsewhere", true)]),
        Err(ArchiveError::SourceNotDirectory)
    );
}

#[test]
fn an_archive_that_exists_is_added_to() {
    let archiver = ZipArchiver::new("widgets", "widgets.zip");
    let steps = vec![
        file_step("a.txt", "widgets/a.txt"),
        dir_step("sub"),
        file_step("sub/b.txt", "widgets/sub/b.txt"),
        ArchiveStep::Finish,
    ];
    assert_eq!(
        archiver.run(true, true, &widgets_walk()),
        Ok(ArchivePlan {
            opening: Opening::Append,
            steps,
            compression: Compression::Deflated,
            unix_permissions: 0o755,
        })
    );
    assert_eq!(archiver.run(true, false, &widgets_walk()).unwrap().opening, Opening::Create);
}

fn write_archive(
    plan: &ArchivePlan,
    existing: Option<Vec<u8>>,
    disk: &BTreeMap<String, Vec<u8>>,
) -> Vec<u8> {
    let mut writer = match (plan.opening, existing) {
        (Opening::Append, Some(bytes)) => zip::ZipWriter::new_append(Cursor::new(bytes)).unwrap(),
        _ => zip::ZipWriter::new(Cursor::new(Vec::new())),
    };
    let method = match plan.compression {
        Compression::Stored => zip::CompressionMethod::Stored,
        Compression::Deflated => zip::CompressionMethod::Deflated,
    };
    let options = zip::write::FileOptions::default()
        .compression_method(method)
        .unix_permissions(plan.unix_permissions);
    let mut finished = Vec::new();
    for step in &plan.steps {
        match step {
            ArchiveStep::File { name, source } => {
                writer.start_file(name.as_str(), options).unwrap();
                writer.write_all(&disk[source]).unwrap();
            }
            ArchiveStep::Directory { name } => {
                writer.add_directory(name.as_str(), options).unwrap();
            }
            ArchiveStep::Finish => {
                finished.push(writer.finish().unwrap().into_inner());
            }
        }
    }
    assert_eq!(finished.len(), 1);
    finished.pop().unwrap()
}

fn list_archive(bytes: Vec<u8>) -> Vec<(String, bool, Vec<u8>)> {
    let mut archive = zip::ZipArchive::new(Cursor::new(bytes)).unwrap();
    let mut found = Vec::new();
    for i in 0..archive.len() {
        let mut entry = archive.by_index(i).unwrap();
        let mut contents = Vec::new();
        entry.read_to_end(&mut contents).unwrap();
        found.push((entry.name().to_string(), entry.is_dir(), contents));
    }
    found
}

#[test]
fn the_archive_lists_the_tree_that_was_walked() {
    let mut disk = BTreeMap::new();
    disk.insert("widgets/a.txt".to_string(), b"hello".to_vec());
    disk.insert("widgets/sub/b.txt".to_string(), b"world".to_vec());
    let archiver = ZipArchiver::new("widgets", "widgets.zip");
    let plan = archiver.run(true, false, &widgets_walk()).unwrap();
    let listed = list_archive(write_archive(&plan, None, &disk));
    assert_eq!(
        listed,
        vec![
            ("a.txt".to_string(), false, b"hello".to_vec()),
            ("sub/".to_string(), true, Vec::new()),
            ("sub/b.txt".to_string(), false, b"world".to_vec()),
        ]
    );
    assert!(listed.iter().all(|(name, _, _)| !name.is_empty()));
}

#[test]
fn adding_to_an_archive_keeps_what_it_held() {
    let mut disk = BTreeMap::new();
    disk.insert("first/x.txt".to_string(), b"x".to_vec());
    disk.insert("second/y.txt".to_string(), b"y".to_vec());
    let first = ZipArchiver::new("first", "all.zip")
        .run(true, false, &vec![walked("first", false), walked("first/x.txt", true)])
        .unwrap();
    let bytes = write_archive(&first, None, &disk);
    let second = ZipArchiver::new("second", "all.zip")
        .run(true, true, &vec![walked("second", false), walked("second/y.txt", true)])
        .unwrap();
    let listed = list_archive(write_archive(&second, Some(bytes), &disk));
    let names: Vec<&str> = listed.iter().map(|(name, _, _)| name.as_str()).collect();
    assert_eq!(names, vec!["x.txt", "y.txt"]);
}

fn request(zipped: bool) -> Args {
    Args {
        urls: vec!["https://github.com/acme/widgets".to_string()],
        path: None,
        zipped,
        quiet: false,
    }
}

fn widgets() -> Directory {
    Directory {
        root: "widgets".to_string(),
        branch: String::new(),
        path: String::new(),
        username: "acme".to_string(),
        repository: "widgets".to_string(),
        clone_path: None,
    }
}

#[test]
fn a_download_has_two_stages_and_a_third_with_an_archive() {
    assert_eq!(request(false).steps(), 2);
    assert_eq!(request(true).steps(), 3);
}

#[test]
fn a_downloaded_directory_is_archived_beside_itself() {
    let data = widgets();
    let mut engine = fetch_data(&data);
    let _ = engine.action();
    let _ = engine.step(Event::Listing(ApiResponse::Array(Vec::new())));
    let _ = engine.step(Event::Exists(true));
    assert!(engine.finished());
    let archiver = zip_after(&request(true), &data, &engine).unwrap();
    assert_eq!(archiver.source(), "widgets");
    assert_eq!(archiver.destination(), "widgets.zip");
    assert!(zip_after(&request(false), &data, &engine).is_none());
    let mut named = widgets();
    named.clone_path = Some("out".to_string());
    let archiver = zip_after(&request(true), &named, &engine).unwrap();
    assert_eq!(archiver.source(), "out");
    assert_eq!(archiver.destination(), "out.zip");
}

#[test]
fn a_lone_file_and_an_unfinished_run_are_not_archived() {
    let data = widgets();
    let node = ApiObject {
        name: "a.txt".to_string(),
        path: "a.txt".to_string(),
        url: "u".to_string(),
        content: Some("TQ==".to_string()),
        download_url: None,
        object_type: "file".to_string(),
        links: Links { links_self: "s".to_string(), git: "g".to_string(), html: "h".to_string() },
    };
    let mut engine = fetch_data(&data);
    assert!(zip_after(&request(true), &data, &engine).is_none());
    let _ = engine.action();
    let _ = engine.step(Event::Listing(ApiResponse::Object(node)));
    assert!(zip_after(&request(true), &data, &engine).is_none());
    let _ = engine.step(Event::Done);
    assert!(engine.finished());
    assert!(zip_after(&request(true), &data, &engine).is_none());
    let mut failed = fetch_data(&data);
    let _ = failed.action();
    let _ = failed.step(Event::Listing(ApiResponse::Array(Vec::new())));
    let _ = failed.step(Event::Failed(cloneit::error::FetchError::FilesystemError(
        "denied".to_string(),
    )));
    assert!(zip_after(&request(true), &data, &failed).is_none());
}

#[test]
fn the_archive_is_finished_once_and_last() {
    let archiver = ZipArchiver::new("widgets", "widgets.zip");
    let plan = archiver.run(true, false, &widgets_walk()).unwrap();
    assert_eq!(plan.steps.last(), Some(&ArchiveStep::Finish));
    assert_eq!(plan.steps.iter().filter(|step| **step == ArchiveStep::Finish).count(), 1);
    let entries = archiver.zip_dir(&widgets_walk()).unwrap();
    assert!(!entries.contains(&ArchiveStep::Finish));
}
