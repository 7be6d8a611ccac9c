use romshelf::records::{build_dat_tree, build_file_tree, category_segments, directory_segments, DatSummary, FileSummary};

fn summary(id: i64, name: &str, category: Option<&str>) -> DatSummary {
    DatSummary {
        id,
        name: name.to_string(),
        category: category.map(|c| c.to_string()),
        version: None,
        entry_count: 0,
        set_count: 0,
    }
}

#[test]
fn category_paths_split_into_segments() {
    assert_eq!(category_segments("Commodore//Amiga/"), vec!["Commodore".to_string(), "Amiga".to_string()]);
    assert!(category_segments("").is_empty());
    assert!(category_segments("///").is_empty());
}

#[test]
fn manifests_filed_by_category() {
    let tree = build_dat_tree(vec![
        summary(1, "Zeta", Some("A/B")),
        summary(2, "Alpha", Some("A/B")),
        summary(3, "Root one", None),
        summary(4, "Other", Some("A")),
    ]);
    assert_eq!(tree.name, "Root");
    assert_eq!(tree.dats.len(), 1);
    assert_eq!(tree.dats[0].name, "Root one");
    assert_eq!(tree.children.len(), 1);
    let a = &tree.children[0];
    assert_eq!(a.name, "A");
    assert_eq!(a.dats[0].name, "Other");
    let b = &a.children[0];
    assert_eq!(b.name, "B");
    let names: Vec<&str> = b.dats.iter().map(|d| d.name.as_str()).collect();
    assert_eq!(names, vec!["Alpha", "Zeta"]);
}

fn file(id: i64, path: &str, matched: bool) -> FileSummary {
    FileSummary {
        id,
        path: path.to_string(),
        filename: path.rsplit('/').next().unwrap().to_string(),
        size: 1,
        sha1: None,
        matched,
        match_name: None,
    }
}

#[test]
fn files_filed_by_directory_with_totals() {
    let tree = build_file_tree(vec![
        file(1, "/roms/x/b.rom", true),
        file(2, "/roms/x/a.rom", false),
        file(3, "/roms/c.rom", true),
        file(4, "/roms/pack.zip#d.rom", true),
        file(5, "/other/e.rom", false),
    ]);
    assert_eq!(tree.name, "Root");
    assert_eq!((tree.total_files, tree.matched_files), (5, 3));
    let names: Vec<&str> = tree.children.iter().map(|c| c.name.as_str()).collect();
    assert_eq!(names, vec!["other", "roms"]);
    let roms = &tree.children[1];
    assert_eq!((roms.total_files, roms.matched_files), (4, 3));
    let files: Vec<&str> = roms.files.iter().map(|f| f.filename.as_str()).collect();
    assert_eq!(files, vec!["c.rom", "pack.zip#d.rom"]);
    let x = &roms.children[0];
    assert_eq!(x.name, "x");
    let xs: Vec<&str> = x.files.iter().map(|f| f.filename.as_str()).collect();
    assert_eq!(xs, vec!["a.rom", "b.rom"]);
    assert_eq!((x.total_files, x.matched_files), (2, 1));
}

#[test]
fn directory_segments_of_paths() {
    assert_eq!(directory_segments("/roms/x/a.rom"), vec!["roms".to_string(), "x".to_string()]);
    assert!(directory_segments("/a.rom").is_empty());
    assert!(directory_segments("a.rom").is_empty());
}

#[test]
fn tree_children_in_name_order() {
    let tree = build_dat_tree(vec![summary(1, "a", Some("Zx")), summary(2, "b", Some("Amiga")), summary(3, "c", Some("Cpc"))]);
    let names: Vec<&str> = tree.children.iter().map(|c| c.name.as_str()).collect();
    assert_eq!(names, vec!["Amiga", "Cpc", "Zx"]);
}
