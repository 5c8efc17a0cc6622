use audio_catalog::entry::{Child, DirectoryEntry};
use audio_catalog::listing::{list_children, read_directory, ListError, ScanStep};

fn file(name: &str, size: u64) -> ScanStep {
    ScanStep::Found(Child {
        name: name.to_string(),
        path: format!("/music/{}", name),
        is_dir: false,
        size,
        modified_secs: Some(1_700_000_000),
    })
}

fn dir(name: &str) -> ScanStep {
    ScanStep::Found(Child {
        name: name.to_string(),
        path: format!("/music/{}", name),
        is_dir: true,
        size: 4096,
        modified_secs: None,
    })
}

fn names(list: &[DirectoryEntry]) -> Vec<String> {
    list.iter().map(|e| e.name.clone()).collect()
}

#[test]
fn files_sort_without_regard_to_case() {
    let scan = Ok(vec![file("b.mp3", 1), file("A.flac", 2), file("a.wav", 3)]);
    let list = read_directory(scan).unwrap();
    assert_eq!(names(&list), vec!["A.flac", "a.wav", "b.mp3"]);
}

#[test]
fn equal_keys_keep_the_order_of_the_scan() {
    let scan = Ok(vec![file("x.MP3", 1), file("X.mp3", 2), file("x.mp3", 3), file("a.ogg", 4)]);
    let list = read_directory(scan).unwrap();
    assert_eq!(names(&list), vec!["a.ogg", "x.MP3", "X.mp3", "x.mp3"]);
    assert_eq!(list[1].size, 1);
    assert_eq!(list[2].size, 2);
    assert_eq!(list[3].size, 3);
}

#[test]
fn directories_come_before_files() {
    let scan = Ok(vec![file("a.mp3", 1), dir("zeta"), file("b.flac", 2), dir("Alpha")]);
    let list = read_directory(scan).unwrap();
    assert_eq!(names(&list), vec!["Alpha", "zeta", "a.mp3", "b.flac"]);
    assert!(list[0].is_dir && list[1].is_dir);
    assert!(!list[2].is_dir && !list[3].is_dir);
}

#[test]
fn hidden_entries_are_left_out() {
    let scan = Ok(vec![file(".secret.mp3", 1), dir(".git"), file("ok.mp3", 2), dir("ok")]);
    let list = read_directory(scan).unwrap();
    assert_eq!(names(&list), vec!["ok", "ok.mp3"]);
}

#[test]
fn files_that_are_not_audio_are_left_out() {
    let scan = Ok(vec![
        file("notes.txt", 1),
        file("cover.jpg", 2),
        file("README", 3),
        file("track.", 4),
        file("song.OGG", 5),
    ]);
    let list = read_directory(scan).unwrap();
    assert_eq!(names(&list), vec!["song.OGG"]);
}

#[test]
fn a_file_entry_carries_size_extension_and_time() {
    let list = read_directory(Ok(vec![file("Song.FLAC", 1234)])).unwrap();
    assert_eq!(
        list,
        vec![DirectoryEntry {
            name: "Song.FLAC".to_string(),
            path: "/music/Song.FLAC".to_string(),
            is_dir: false,
            size: 1234,
            extension: Some("flac".to_string()),
            modified_time: Some(1_700_000_000),
        }]
    );
}

#[test]
fn a_directory_entry_has_no_size_and_no_extension() {
    let step = ScanStep::Found(Child {
        name: "live.2019".to_string(),
        path: "/music/live.2019".to_string(),
        is_dir: true,
        size: 4096,
        modified_secs: Some(42),
    });
    let list = read_directory(Ok(vec![step])).unwrap();
    assert_eq!(
        list,
        vec![DirectoryEntry {
            name: "live.2019".to_string(),
            path: "/music/live.2019".to_string(),
            is_dir: true,
            size: 0,
            extension: None,
            modified_time: Some(42),
        }]
    );
}

#[test]
fn an_empty_scan_lists_nothing() {
    assert_eq!(read_directory(Ok(Vec::new())), Ok(Vec::new()));
}

#[test]
fn a_directory_that_cannot_be_enumerated_fails() {
    let r = read_directory(Err("No such file or directory (os error 2)".to_string()));
    assert_eq!(
        r,
        Err("Failed to read directory: No such file or directory (os error 2)".to_string())
    );
}

#[test]
fn a_failed_entry_fails_the_listing() {
    let scan =
        Ok(vec![file("a.mp3", 1), ScanStep::EntryFailed("boom".to_string()), file("b.mp3", 2)]);
    assert_eq!(read_directory(scan), Err("Failed to read entry: boom".to_string()));
}

#[test]
fn failed_metadata_fails_the_listing() {
    let scan = Ok(vec![ScanStep::MetadataFailed("denied".to_string()), file("b.mp3", 2)]);
    assert_eq!(read_directory(scan), Err("Failed to read metadata: denied".to_string()));
}

#[test]
fn the_first_failure_is_reported() {
    let steps = vec![
        dir("a"),
        ScanStep::MetadataFailed("first".to_string()),
        ScanStep::EntryFailed("second".to_string()),
    ];
    assert_eq!(list_children(&steps), Err(ListError::ReadMetadata("first".to_string())));
    let steps = vec![
        ScanStep::EntryFailed("first".to_string()),
        ScanStep::MetadataFailed("second".to_string()),
    ];
    assert_eq!(list_children(&steps), Err(ListError::ReadEntry("first".to_string())));
}

#[test]
fn list_error_messages() {
    assert_eq!(ListError::ReadDirectory("x".to_string()).message(), "Failed to read directory: x");
    assert_eq!(ListError::ReadEntry("y".to_string()).message(), "Failed to read entry: y");
    assert_eq!(ListError::ReadMetadata(String::new()).message(), "Failed to read metadata: ");
}

#[test]
fn names_outside_ascii_sort_by_their_lowercase() {
    let scan = Ok(vec![file("Éa.mp3", 1), file("éA.mp3", 2), file("z.mp3", 3), file("Ż.mp3", 4)]);
    let list = read_directory(scan).unwrap();
    assert_eq!(names(&list), vec!["z.mp3", "Éa.mp3", "éA.mp3", "Ż.mp3"]);
}

#[test]
fn listing_agrees_with_a_stable_sort_by_lowercase_name() {
    let plain = [
        "b.mp3", "A.flac", "a.wav", "B.MP3", "c.ogg", "a.WAV", "10.m4a", "2.m4a", "Z.opus",
        "z.wv", "_.aac",
    ];
    let scan = Ok(plain.iter().map(|n| file(n, 0)).collect());
    let list = read_directory(scan).unwrap();
    let mut expected: Vec<String> = plain.iter().map(|n| n.to_string()).collect();
    expected.sort_by(|a, b| a.to_lowercase().cmp(&b.to_lowercase()));
    assert_eq!(names(&list), expected);
}
