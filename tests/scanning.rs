use romshelf::digest::{digests_from, hash_bytes, hex_encode, hex_u32};
use romshelf::scan::{
    archive_entry_file, archive_entry_path, classify_path, extension, is_7z_file, is_under_root, is_zip_file,
    disk_path, paths_increasing, reconcile, split_archive_path, Change, KnownFile, KnownFiles, ScannedFile,
    WorkKind,
};

#[test]
fn test_hash_known_content() {
    let data = b"test content";
    let d = hash_bytes(data);
    assert_eq!(data.len(), 12);
    assert_eq!(d.crc32, "57f4675d");
    assert_eq!(d.md5, "9473fdd0d880a43c21b7778d34872157");
    assert_eq!(d.sha1, "1eebdf4fdc9fc7bf283031b93f9aef3338de9052");
}

#[test]
fn test_hash_empty_file() {
    let data: &[u8] = b"";
    let d = hash_bytes(data);
    assert_eq!(data.len(), 0);
    assert_eq!(d.crc32, "00000000");
    assert_eq!(d.md5, "d41d8cd98f00b204e9800998ecf8427e");
    assert_eq!(d.sha1, "da39a3ee5e6b4b0d3255bfef95601890afd80709");
}

#[test]
fn hex_is_lowercase_and_padded() {
    assert_eq!(hex_u32(0xAB), "000000ab");
    assert_eq!(hex_u32(u32::MAX), "ffffffff");
    assert_eq!(hex_encode(&[0x00, 0x0f, 0xa0, 0xff]), "000fa0ff");
    let d = digests_from(1, &[0xde, 0xad], &[0xbe, 0xef]);
    assert_eq!(d.crc32, "00000001");
    assert_eq!(d.md5, "dead");
    assert_eq!(d.sha1, "beef");
}

#[test]
fn test_is_zip_file() {
    assert!(is_zip_file("game.zip"));
    assert!(is_zip_file("game.ZIP"));
    assert!(!is_zip_file("game.adf"));
    assert!(!is_zip_file("game"));
}

#[test]
fn test_is_7z_file() {
    assert!(is_7z_file("game.7z"));
    assert!(is_7z_file("game.7Z"));
    assert!(!is_7z_file("game.zip"));
    assert!(!is_7z_file("game"));
}

#[test]
fn extensions_follow_the_last_dot_of_the_file_name() {
    assert_eq!(extension("/a.b/c.tar.gz"), Some("gz".to_string()));
    assert_eq!(extension("/a.b/c"), None);
    assert_eq!(extension("/x/.zip"), None);
    assert_eq!(classify_path("/roms/pack.Zip"), WorkKind::ZipContainer);
    assert_eq!(classify_path("/roms/pack.7z"), WorkKind::SevenZContainer);
    assert_eq!(classify_path("/roms/a.rom"), WorkKind::LooseFile);
}

#[test]
fn archive_interior_paths() {
    assert_eq!(archive_entry_path("/roms/pack.zip", "a.rom"), "/roms/pack.zip#a.rom");
    let f = archive_entry_file(
        "/roms/pack.zip",
        "dir/a.rom",
        12,
        Some(5),
        "57f4675d".to_string(),
        "m".to_string(),
        "s".to_string(),
    );
    assert_eq!(f.path, "/roms/pack.zip#dir/a.rom");
    assert_eq!(f.filename, "a.rom");
    assert_eq!(f.mtime, Some(5));
    assert_eq!(
        split_archive_path("/roms/pack.zip#dir/a#b.rom"),
        Some(("/roms/pack.zip".to_string(), "dir/a#b.rom".to_string()))
    );
    assert_eq!(split_archive_path("/roms/a.rom"), None);
}

fn file(path: &str, size: u64, mtime: i64) -> ScannedFile {
    ScannedFile {
        path: path.to_string(),
        filename: path.rsplit('/').next().unwrap().to_string(),
        size,
        mtime: Some(mtime),
        crc32: String::new(),
        md5: String::new(),
        sha1: String::new(),
    }
}

fn known(path: &str, size: u64, mtime: i64) -> KnownFile {
    KnownFile { path: path.to_string(), size, mtime: Some(mtime) }
}

#[test]
fn incremental_rescan_classifies_changes() {
    let existing = vec![known("/other/b.rom", 1, 1), known("/roms/a.rom", 12, 100), known("/roms/gone.rom", 3, 1)];
    let scanned = vec![file("/roms/a.rom", 12, 200), file("/roms/new.rom", 5, 1)];
    let r = reconcile(&KnownFiles::new(existing), &scanned, "/roms");
    assert_eq!(r.changes, vec![Change::Updated, Change::New]);
    assert_eq!((r.new_files, r.updated_files, r.unchanged_files), (1, 1, 0));
    assert_eq!(r.removed, vec!["/roms/gone.rom".to_string()]);
}

#[test]
fn unchanged_file_is_not_rewritten() {
    let existing = vec![known("/roms/a.rom", 12, 100)];
    let scanned = vec![file("/roms/a.rom", 12, 100)];
    let r = reconcile(&KnownFiles::new(existing), &scanned, "/roms");
    assert_eq!(r.changes, vec![Change::Unchanged]);
    assert_eq!((r.new_files, r.updated_files, r.unchanged_files), (0, 0, 1));
    assert!(r.removed.is_empty());
}

#[test]
fn second_scan_of_same_tree_is_a_no_op() {
    let scanned = vec![file("/roms/a.rom", 12, 100), file("/roms/pack.zip#a.rom", 12, 90)];
    let first = reconcile(&KnownFiles::new(vec![]), &scanned, "/roms");
    assert_eq!(first.new_files, 2);
    let written: Vec<KnownFile> = scanned.iter().map(|f| KnownFile { path: f.path.clone(), size: f.size, mtime: f.mtime }).collect();
    let second = reconcile(&KnownFiles::new(written), &scanned, "/roms");
    assert_eq!((second.new_files, second.updated_files, second.removed.len()), (0, 0, 0));
    assert_eq!(second.unchanged_files, 2);
}

#[test]
fn root_matching_respects_components() {
    assert!(is_under_root("/roms/a.rom", "/roms"));
    assert!(is_under_root("/roms/a.rom", "/roms/"));
    assert!(!is_under_root("/roms2/a.rom", "/roms"));
    assert!(is_under_root("/roms/p.zip#a", "/roms/p.zip"));
    let existing = vec![known("/roms2/x.rom", 1, 1)];
    let r = reconcile(&KnownFiles::new(existing), &vec![], "/roms");
    assert!(r.removed.is_empty());
}

#[test]
fn snapshot_order_and_lookup() {
    let rows = vec![known("/a", 1, 1), known("/a/b", 2, 2), known("/b", 3, 3)];
    assert!(paths_increasing(&rows));
    assert!(!paths_increasing(&vec![known("/b", 1, 1), known("/a", 1, 1)]));
    assert!(!paths_increasing(&vec![known("/a", 1, 1), known("/a", 1, 1)]));
    let known_rows = KnownFiles::new(rows);
    assert_eq!(known_rows.lookup("/a/b"), Some(1));
    assert_eq!(known_rows.lookup("/c"), None);
    assert_eq!(known_rows.change_for("/a/b", 2, Some(2)), Change::Unchanged);
    assert_eq!(known_rows.change_for("/a/b", 2, Some(3)), Change::Updated);
    assert_eq!(known_rows.change_for("/z", 2, Some(2)), Change::New);
    let unordered = KnownFiles::new(vec![known("/b", 1, 1), known("/a", 2, 2)]);
    assert_eq!(unordered.lookup("/a"), Some(1));
    assert_eq!(unordered.change_for("/b", 1, Some(1)), Change::Unchanged);
}

#[test]
fn stale_rows_depend_on_the_container() {
    assert_eq!(disk_path("/roms/pack.zip#dir/a.rom"), "/roms/pack.zip");
    assert_eq!(disk_path("/roms/a.rom"), "/roms/a.rom");
}

#[test]
fn unordered_catalog_rows_reconcile_the_same() {
    let existing = vec![known("/roms/gone.rom", 3, 1), known("/roms/a.rom", 12, 100)];
    let scanned = vec![file("/roms/a.rom", 12, 100)];
    let r = reconcile(&KnownFiles::new(existing), &scanned, "/roms");
    assert_eq!(r.changes, vec![Change::Unchanged]);
    assert_eq!(r.removed, vec!["/roms/gone.rom".to_string()]);
}
