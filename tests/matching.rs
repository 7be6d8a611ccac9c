use romshelf::dat::DatEntry;
use romshelf::scan::ScannedFile;
use romshelf::verify::{is_name_correct, verify};

fn make_file(filename: &str, crc32: &str, sha1: &str) -> ScannedFile {
    ScannedFile {
        path: filename.to_string(),
        filename: filename.to_string(),
        size: 1024,
        mtime: None,
        crc32: crc32.to_string(),
        md5: "md5hash".to_string(),
        sha1: sha1.to_string(),
    }
}

fn make_entry(rom_name: &str, crc32: &str, sha1: &str) -> DatEntry {
    DatEntry {
        name: rom_name.to_string(),
        size: 1024,
        crc32: Some(crc32.to_string()),
        md5: None,
        sha1: Some(sha1.to_string()),
    }
}

#[test]
fn test_verified_match() {
    let files = vec![make_file("game.rom", "abcd1234", "sha1hash")];
    let entries = vec![make_entry("game.rom", "abcd1234", "sha1hash")];
    let result = verify(&files, &entries);
    assert_eq!(result.verified.len(), 1);
    assert_eq!(result.misnamed.len(), 0);
    assert_eq!(result.missing.len(), 0);
    assert_eq!(result.unmatched.len(), 0);
}

#[test]
fn test_misnamed_match() {
    let files = vec![make_file("wrong_name.rom", "abcd1234", "sha1hash")];
    let entries = vec![make_entry("correct_name.rom", "abcd1234", "sha1hash")];
    let result = verify(&files, &entries);
    assert_eq!(result.verified.len(), 0);
    assert_eq!(result.misnamed.len(), 1);
    assert_eq!(result.missing.len(), 0);
    assert_eq!(result.unmatched.len(), 0);
}

#[test]
fn test_missing_entry() {
    let files: Vec<ScannedFile> = vec![];
    let entries = vec![make_entry("game.rom", "abcd1234", "sha1hash")];
    let result = verify(&files, &entries);
    assert_eq!(result.verified.len(), 0);
    assert_eq!(result.misnamed.len(), 0);
    assert_eq!(result.missing.len(), 1);
    assert_eq!(result.unmatched.len(), 0);
}

#[test]
fn test_unmatched_file() {
    let files = vec![make_file("unknown.rom", "ffffffff", "unknown")];
    let entries = vec![make_entry("game.rom", "abcd1234", "sha1hash")];
    let result = verify(&files, &entries);
    assert_eq!(result.verified.len(), 0);
    assert_eq!(result.misnamed.len(), 0);
    assert_eq!(result.missing.len(), 1);
    assert_eq!(result.unmatched.len(), 1);
}

fn s1_entry() -> DatEntry {
    DatEntry {
        name: "a.rom".to_string(),
        size: 12,
        crc32: Some("57f4675d".to_string()),
        md5: None,
        sha1: Some("1eebdf4fdc9fc7bf283031b93f9aef3338de9052".to_string()),
    }
}

fn s1_file(path: &str, name: &str) -> ScannedFile {
    ScannedFile {
        path: path.to_string(),
        filename: name.to_string(),
        size: 12,
        mtime: Some(1),
        crc32: "57f4675d".to_string(),
        md5: "9473fdd0d880a43c21b7778d34872157".to_string(),
        sha1: "1eebdf4fdc9fc7bf283031b93f9aef3338de9052".to_string(),
    }
}

#[test]
fn end_to_end_verify_scenario() {
    let r = verify(&vec![s1_file("/roms/a.rom", "a.rom")], &vec![s1_entry()]);
    assert_eq!((r.verified.len(), r.misnamed.len(), r.missing.len(), r.unmatched.len()), (1, 0, 0, 0));
    assert_eq!(r.verified[0].entry.name, "a.rom");
    assert_eq!(r.verified[0].file.path, "/roms/a.rom");
}

#[test]
fn basename_differing_in_case_is_verified() {
    let r = verify(&vec![s1_file("/roms/A.ROM", "A.ROM")], &vec![s1_entry()]);
    assert_eq!(r.verified.len(), 1);
    assert_eq!(r.misnamed.len(), 0);
    assert!(is_name_correct("A.ROM", "a.rom"));
    assert!(!is_name_correct("other.rom", "a.rom"));
}

#[test]
fn other_basename_is_misnamed() {
    let r = verify(&vec![s1_file("/roms/other.rom", "other.rom")], &vec![s1_entry()]);
    assert_eq!(r.verified.len(), 0);
    assert_eq!(r.misnamed.len(), 1);
}

#[test]
fn every_digest_wrong_but_size_right_is_unmatched() {
    let mut f = s1_file("/roms/a.rom", "a.rom");
    f.crc32 = "00000000".to_string();
    f.md5 = "00000000000000000000000000000000".to_string();
    f.sha1 = "0000000000000000000000000000000000000000".to_string();
    let mut e = s1_entry();
    e.md5 = Some("9473fdd0d880a43c21b7778d34872157".to_string());
    let r = verify(&vec![f], &vec![e]);
    assert_eq!(r.unmatched.len(), 1);
    assert_eq!(r.missing.len(), 1);
}

#[test]
fn correct_crc_with_wrong_size_is_unmatched() {
    let mut f = s1_file("/roms/a.rom", "a.rom");
    f.size = 13;
    f.sha1 = "ffffffffffffffffffffffffffffffffffffffff".to_string();
    let r = verify(&vec![f], &vec![s1_entry()]);
    assert_eq!(r.unmatched.len(), 1);
    assert_eq!(r.verified.len() + r.misnamed.len(), 0);
}

#[test]
fn sha1_hit_wins_over_earlier_md5_hit() {
    let f = s1_file("/roms/a.rom", "a.rom");
    let by_md5 = DatEntry {
        name: "md5.rom".to_string(),
        size: 99,
        crc32: None,
        md5: Some("9473fdd0d880a43c21b7778d34872157".to_string()),
        sha1: None,
    };
    let r = verify(&vec![f], &vec![by_md5, s1_entry()]);
    assert_eq!(r.verified.len(), 1);
    assert_eq!(r.verified[0].entry.name, "a.rom");
    assert_eq!(r.missing.len(), 1);
    assert_eq!(r.missing[0].name, "md5.rom");
}

#[test]
fn duplicates_match_the_same_entry() {
    let files = vec![s1_file("/roms/a.rom", "a.rom"), s1_file("/roms/b/a.rom", "a.rom")];
    let r = verify(&files, &vec![s1_entry()]);
    assert_eq!(r.verified.len(), 2);
    assert_eq!(r.missing.len(), 0);
}

#[test]
fn unmatched_across_all_manifests() {
    let files = vec![s1_file("/roms/a.rom", "a.rom"), make_file("unknown.rom", "ffffffff", "unknown")];
    let other = vec![make_entry("game.rom", "abcd1234", "sha1hash")];
    let r = romshelf::verify::unmatched_in_all(&files, &vec![other, vec![s1_entry()]]);
    assert_eq!(r.len(), 1);
    assert_eq!(r[0].filename, "unknown.rom");
    assert_eq!(romshelf::verify::unmatched_in_all(&files, &vec![]).len(), 2);
}
