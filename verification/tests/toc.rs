use lotus_lib::node::NodeKind;
use lotus_lib::toc::{toc_data_is_readable, Toc, TocEntry, TocError};

fn entry(cache_offset: i64, timestamp: i64, comp_len: i32, len: i32, parent: i32, name: &[u8]) -> Vec<u8> {
    let mut e = Vec::new();
    e.extend_from_slice(&cache_offset.to_le_bytes());
    e.extend_from_slice(&timestamp.to_le_bytes());
    e.extend_from_slice(&comp_len.to_le_bytes());
    e.extend_from_slice(&len.to_le_bytes());
    e.extend_from_slice(&0i32.to_le_bytes());
    e.extend_from_slice(&parent.to_le_bytes());
    let mut n = [0u8; 64];
    n[..name.len()].copy_from_slice(name);
    e.extend_from_slice(&n);
    e
}

fn toc_bytes(entries: &[Vec<u8>]) -> Vec<u8> {
    let mut v = vec![0x4E, 0xC6, 0x67, 0x18, 0x14, 0, 0, 0];
    for e in entries {
        v.extend_from_slice(e);
    }
    v
}

fn sample_toc() -> Vec<u8> {
    toc_bytes(&[
        entry(-1, 1, 0, 0, 0, b"Lotus"),
        entry(100, 5, 10, 20, 1, b"Sounds.wav"),
        entry(-1, 1, 0, 0, 1, b"Sub\\Dir"),
        entry(300, 0, 7, 7, 1, b"Old.txt"),
        entry(200, 6, 2000, 2000, 2, b"File"),
    ])
}

#[test]
fn toc_entry_parse_reads_little_endian_fields() {
    let e = entry(0x0102_0304_0506_0708, 9, 11, 12, 3, b"Name");
    let parsed = TocEntry::parse(&e);
    assert_eq!(parsed.cache_offset, 0x0102_0304_0506_0708);
    assert_eq!(parsed.timestamp, 9);
    assert_eq!(parsed.comp_len, 11);
    assert_eq!(parsed.len, 12);
    assert_eq!(parsed.parent_dir_index, 3);
    assert_eq!(&parsed.name[..4], b"Name");
    assert_eq!(parsed.name.len(), 64);
}

#[test]
fn new_toc_is_not_loaded() {
    let toc = Toc::new("H.Misc.toc".to_string());
    assert!(!toc.is_loaded());
    assert_eq!(toc.toc_path(), "H.Misc.toc");
    assert!(toc.directories().is_empty());
    assert!(toc.files().is_empty());
}

#[test]
fn read_toc_builds_directories_and_files() {
    let data = sample_toc();
    assert!(toc_data_is_readable(&data, false));
    let mut toc = Toc::new("H.Misc.toc".to_string());
    toc.read_toc(&data, false).unwrap();
    assert!(toc.is_loaded());
    let dirs: Vec<&str> = toc.directories().iter().map(|n| n.name()).collect();
    assert_eq!(dirs, vec!["", "Lotus", "Sub\\Dir"]);
    let files: Vec<&str> = toc.files().iter().map(|n| n.name()).collect();
    assert_eq!(files, vec!["Sounds.wav", "File"]);
    assert_eq!(toc.directories()[0].path(), "/");
    assert_eq!(toc.directories()[1].path(), "/Lotus");
    assert_eq!(toc.directories()[2].path(), "/Lotus/Sub/Dir");
    assert_eq!(toc.files()[0].path(), "/Lotus/Sounds.wav");
    assert_eq!(toc.files()[1].path(), "/Lotus/Sub/Dir/File");
    assert_eq!(toc.files()[0].cache_offset(), 100);
    assert_eq!(toc.files()[0].timestamp(), 5);
    assert_eq!(toc.files()[0].comp_len(), 10);
    assert_eq!(toc.files()[0].len(), 20);
    assert_eq!(toc.directories()[1].children().len(), 2);
    assert_eq!(toc.directories()[0].kind(), NodeKind::Directory);
    assert_eq!(toc.files()[1].kind(), NodeKind::File);
}

#[test]
fn lookups_ignore_case_and_slash_style() {
    let data = sample_toc();
    let mut toc = Toc::new("H.Misc.toc".to_string());
    toc.read_toc(&data, false).unwrap();
    let n = toc.get_file_node("/LOTUS/sounds.WAV").unwrap();
    assert_eq!(n.name(), "Sounds.wav");
    let n = toc.get_file_node("/Lotus\\Sub\\Dir\\File").unwrap();
    assert_eq!(n.name(), "File");
    assert!(toc.get_directory_node("/lotus/sub/dir").is_some());
    assert!(toc.get_file_node("/lotus/sub/dir").is_none());
    assert!(toc.get_directory_node("/Lotus/Sounds.wav").is_none());
    assert!(toc.get_file_node("/Lotus/Missing").is_none());
    // Entries directly under the root are found by their absolute path.
    assert_eq!(toc.get_directory_node("/LOTUS").unwrap().name(), "Lotus");
    assert_eq!(toc.get_directory_node("/").unwrap().path(), "/");
}

#[test]
fn lookups_before_reading_find_nothing() {
    let toc = Toc::new("H.Misc.toc".to_string());
    assert!(toc.get_file_node("relative/path").is_none());
}

#[test]
fn deleted_entries_are_skipped_or_resurrected() {
    let data = sample_toc();
    let mut toc = Toc::new("H.Misc.toc".to_string());
    toc.read_toc(&data, true).unwrap();
    let files: Vec<&str> = toc.files().iter().map(|n| n.name()).collect();
    assert_eq!(files, vec!["Sounds.wav", "Old.deleted.txt", "File"]);
    assert_eq!(toc.files()[1].path(), "/Lotus/Old.deleted.txt");
    assert!(toc.get_file_node("/Lotus/old.deleted.txt").is_some());
}

#[test]
fn deleted_name_without_extension_gets_suffix() {
    let data = toc_bytes(&[entry(-1, 1, 0, 0, 0, b"D"), entry(5, 0, 1, 1, 1, b"NoExt")]);
    let mut toc = Toc::new("t".to_string());
    toc.read_toc(&data, true).unwrap();
    assert_eq!(toc.files()[0].name(), "NoExt.deleted");
}

#[test]
fn reading_twice_keeps_first_table() {
    let mut toc = Toc::new("t".to_string());
    toc.read_toc(&sample_toc(), false).unwrap();
    let other = toc_bytes(&[entry(-1, 1, 0, 0, 0, b"Other")]);
    toc.read_toc(&other, false).unwrap();
    assert_eq!(toc.files().len(), 2);
    toc.unread_toc();
    assert!(!toc.is_loaded());
    assert!(toc.files().is_empty());
    toc.read_toc(&other, false).unwrap();
    assert_eq!(toc.directories().len(), 2);
}

#[test]
fn invalid_entry_name_stops_reading() {
    let data = toc_bytes(&[
        entry(-1, 1, 0, 0, 0, b"Lotus"),
        entry(1, 1, 1, 1, 1, &[0xFF, 0xFE]),
        entry(2, 1, 1, 1, 1, b"After"),
    ]);
    assert!(toc_data_is_readable(&data, false));
    let mut toc = Toc::new("t".to_string());
    assert_eq!(toc.read_toc(&data, false), Err(TocError::InvalidEntryName));
    assert_eq!(toc.directories().len(), 2);
    assert!(toc.files().is_empty());
}

#[test]
fn unreadable_toc_data_is_detected() {
    assert!(!toc_data_is_readable(&[0, 1, 2], false));
    let bad_parent = toc_bytes(&[entry(1, 1, 1, 1, 4, b"Orphan")]);
    assert!(!toc_data_is_readable(&bad_parent, false));
    let negative_parent = toc_bytes(&[entry(1, 1, 1, 1, -1, b"Orphan")]);
    assert!(!toc_data_is_readable(&negative_parent, false));
    // A skipped deleted entry is never looked at.
    let skipped = toc_bytes(&[entry(1, 0, 1, 1, 4, b"Orphan")]);
    assert!(toc_data_is_readable(&skipped, false));
    assert!(!toc_data_is_readable(&skipped, true));
}

#[test]
fn trailing_partial_entry_is_ignored() {
    let mut data = sample_toc();
    data.extend_from_slice(&[1, 2, 3]);
    let mut toc = Toc::new("t".to_string());
    toc.read_toc(&data, false).unwrap();
    assert_eq!(toc.files().len(), 2);
}

#[test]
fn statistics_count_and_sum() {
    let mut toc = Toc::new("t".to_string());
    toc.read_toc(&sample_toc(), false).unwrap();
    let stats = toc.statistics();
    assert_eq!(stats.directory_count, 3);
    assert_eq!(stats.file_count, 2);
    assert_eq!(stats.deleted_count, 0);
    assert_eq!(stats.total_compressed_size, 2010);
    assert_eq!(stats.total_decompressed_size, 2020);
    assert_eq!(stats.uncompressed_count, 1);
    assert_eq!(stats.size_distribution.under_1kb, 1);
    assert_eq!(stats.size_distribution.kb_to_mb, 1);
    assert_eq!(stats.size_distribution.mb_to_10mb, 0);
    assert_eq!(stats.size_distribution.over_10mb, 0);
    assert_eq!(toc.total_entries(), 5);
}

#[test]
fn statistics_count_deleted_files_apart() {
    let mut toc = Toc::new("t".to_string());
    toc.read_toc(&sample_toc(), true).unwrap();
    let stats = toc.statistics();
    assert_eq!(stats.file_count, 2);
    assert_eq!(stats.deleted_count, 1);
    assert_eq!(stats.total_compressed_size, 2010);
    assert_eq!(stats.total_decompressed_size, 2020);
    assert_eq!(stats.uncompressed_count, 1);
    assert_eq!(stats.size_distribution.under_1kb, 1);
    assert_eq!(stats.size_distribution.kb_to_mb, 1);
    assert_eq!(toc.total_entries(), 6);
}

#[test]
fn statistics_size_buckets() {
    let data = toc_bytes(&[
        entry(-1, 1, 0, 0, 0, b"D"),
        entry(1, 1, 1, 1023, 1, b"a"),
        entry(1, 1, 1, 1024, 1, b"b"),
        entry(1, 1, 1, 1024 * 1024, 1, b"c"),
        entry(1, 1, 1, 10 * 1024 * 1024, 1, b"d"),
    ]);
    let mut toc = Toc::new("t".to_string());
    toc.read_toc(&data, false).unwrap();
    let s = toc.statistics();
    assert_eq!(s.size_distribution.under_1kb, 1);
    assert_eq!(s.size_distribution.kb_to_mb, 1);
    assert_eq!(s.size_distribution.mb_to_10mb, 1);
    assert_eq!(s.size_distribution.over_10mb, 1);
    let d = &s.size_distribution;
    assert_eq!(d.under_1kb + d.kb_to_mb + d.mb_to_10mb + d.over_10mb, s.file_count);
}

#[test]
fn largest_file_is_last_of_largest() {
    let data = toc_bytes(&[
        entry(-1, 1, 0, 0, 0, b"D"),
        entry(1, 1, 3, 50, 1, b"first"),
        entry(1, 1, 4, 90, 1, b"big1"),
        entry(1, 1, 5, 90, 1, b"big2"),
        entry(1, 1, 6, 10, 1, b"small"),
    ]);
    let mut toc = Toc::new("t".to_string());
    toc.read_toc(&data, false).unwrap();
    assert_eq!(toc.largest_file(), Some(("big2".to_string(), 5, 90)));
    let empty = Toc::new("t".to_string());
    assert_eq!(empty.largest_file(), None);
}

#[test]
fn resurrected_entry_path_without_marker_is_the_live_path() {
    let mut toc = Toc::new("t".to_string());
    toc.read_toc(&sample_toc(), true).unwrap();
    let deleted = toc.get_file_node("/lotus/old.deleted.txt").unwrap();
    assert_eq!(deleted.timestamp(), 0);
    assert_eq!(
        lotus_lib::audio::remove_deleted_marker(deleted.path()),
        "/Lotus/Old.txt"
    );
}

#[test]
fn without_resurrect_no_file_has_timestamp_zero() {
    let mut toc = Toc::new("t".to_string());
    toc.read_toc(&sample_toc(), false).unwrap();
    assert!(toc.files().iter().all(|n| n.timestamp() != 0));
}

#[test]
fn separators_are_normalized_in_paths() {
    assert_eq!(lotus_lib::text::replace_backslashes("a\\b\\c/d"), "a/b/c/d");
    assert_eq!(lotus_lib::text::insert_deleted_marker("x.y.z"), "x.y.deleted.z");
    assert_eq!(lotus_lib::text::insert_deleted_marker("xyz"), "xyz.deleted");
}

#[test]
fn unread_then_read_rebuilds_the_same_table() {
    let data = sample_toc();
    let mut toc = Toc::new("H.Misc.toc".to_string());
    toc.read_toc(&data, false).unwrap();
    let paths: Vec<String> = toc.files().iter().map(|n| n.path().to_string()).collect();
    toc.unread_toc();
    assert!(!toc.is_loaded());
    assert!(toc.get_file_node("relative").is_none());
    assert_eq!(toc.toc_path(), "H.Misc.toc");
    toc.read_toc(&data, false).unwrap();
    let again: Vec<String> = toc.files().iter().map(|n| n.path().to_string()).collect();
    assert_eq!(paths, again);
    assert_eq!(toc.directories().len(), 3);
    assert_eq!(toc.total_entries(), 5);
}

#[test]
fn empty_top_level_name_does_not_replace_the_root() {
    let data = toc_bytes(&[entry(7, 1, 1, 1, 0, b""), entry(-1, 1, 0, 0, 0, b"Dir")]);
    let mut toc = Toc::new("t".to_string());
    toc.read_toc(&data, false).unwrap();
    assert_eq!(toc.files().len(), 1);
    assert_eq!(toc.files()[0].path(), "/");
    let root = toc.get_directory_node("/").unwrap();
    assert_eq!(root.name(), "");
    assert_eq!(root.children().len(), 2);
    assert!(toc.get_file_node("/").is_none());
    assert_eq!(toc.get_directory_node("/dir").unwrap().path(), "/Dir");
    assert_eq!(toc.total_entries(), 3);
}
