use romshelf::importer::{
    category_for_tree, clean_category_segments, decide_import, derive_category, find_duplicate, find_unchanged, import_category,
    DatImportOptions, ImportDecision, SourceRow,
};
use romshelf::organise::{
    archive_action, archive_path, plan_loose, group_archives, join_path, keyed_per_dat, keyed_per_set, plan_loose_item,
    rename_target, sanitise_path, archive_order, lex_less, Member, step_item, ArchiveAction, ItemAction, ItemEvent, ItemState, MatchedFile,
};

fn matched(source: &str, rom: &str, dat: &str, set: Option<&str>, cat: Option<&str>) -> MatchedFile {
    MatchedFile {
        source: source.to_string(),
        filename: source.rsplit('/').next().unwrap().to_string(),
        rom_name: rom.to_string(),
        dat_name: dat.to_string(),
        set_name: set.map(|s| s.to_string()),
        category: cat.map(|s| s.to_string()),
    }
}

#[test]
fn sanitise_replaces_reserved_characters() {
    assert_eq!(sanitise_path("a/b\\c:d*e?f\"g<h>i|j"), "a_b_c_d_e_f_g_h_i_j");
    assert_eq!(sanitise_path("Plain Name (1990)"), "Plain Name (1990)");
    assert_eq!(join_path("/out", "x"), "/out/x");
    assert_eq!(join_path("/out/", "x"), "/out/x");
}

#[test]
fn loose_plan_for_loose_and_archived_files() {
    let m = matched("/roms/A.ROM", "a.rom", "D", Some("Game: One"), Some("CPC/Games"));
    let p = plan_loose_item(&m, "/out");
    assert_eq!(p.source, "/roms/A.ROM");
    assert_eq!(p.target_dir, "/out/CPC/Games/Game_ One");
    assert_eq!(p.target, "/out/CPC/Games/Game_ One/a.rom");
    let z = matched("/roms/pack.zip#inner/a.rom", "a.rom", "D", None, None);
    let q = plan_loose_item(&z, "/out");
    assert_eq!(q.source, "/roms/pack.zip");
    assert_eq!(q.target, "/out/pack.zip");
}

#[test]
fn item_state_machine() {
    let probe = |s, t| ItemEvent::Probed { source_exists: s, target_exists: t };
    assert_eq!(step_item(ItemState::Planned, probe(false, false), false, false), (ItemState::Missing, ItemAction::ReportMissing));
    assert_eq!(step_item(ItemState::Planned, probe(true, true), false, false), (ItemState::Exists, ItemAction::ReportExists));
    assert_eq!(step_item(ItemState::Planned, probe(true, false), false, true), (ItemState::Executing, ItemAction::Write { copy: true }));
    assert_eq!(step_item(ItemState::Missing, ItemEvent::Skip, false, false), (ItemState::Skipped, ItemAction::Nothing));
    assert_eq!(step_item(ItemState::Executing, ItemEvent::Finished { ok: false }, false, false), (ItemState::Failed, ItemAction::Nothing));
    assert_eq!(step_item(ItemState::Executing, ItemEvent::Finished { ok: true }, false, false), (ItemState::Succeeded, ItemAction::Nothing));
}

#[test]
fn dry_run_only_previews() {
    let probe = ItemEvent::Probed { source_exists: true, target_exists: false };
    assert_eq!(step_item(ItemState::Planned, probe, true, false), (ItemState::Executing, ItemAction::Preview { copy: false }));
    assert_eq!(archive_action(true, false), ArchiveAction::Preview);
    assert_eq!(archive_action(false, true), ArchiveAction::KeepExisting);
    assert_eq!(archive_action(false, false), ArchiveAction::Create);
}

#[test]
fn archives_group_by_category_and_set() {
    let ms = vec![
        matched("/r/a", "a.rom", "D", Some("S1"), Some("C")),
        matched("/r/b", "b.rom", "D", None, None),
        matched("/r/c", "c.rom", "D", Some("S1"), Some("C")),
    ];
    let keyed: Vec<_> = ms.iter().map(keyed_per_set).collect();
    let groups = group_archives(&keyed);
    assert_eq!(groups.len(), 2);
    assert_eq!((groups[0].category.as_str(), groups[0].group.as_str()), ("C", "S1"));
    assert_eq!(groups[0].members.len(), 2);
    assert_eq!(groups[0].members[1].inner, "c.rom");
    assert_eq!((groups[1].category.as_str(), groups[1].group.as_str()), ("", "unknown"));
    assert_eq!(archive_path("/out", "C", "S:1"), ("/out/C".to_string(), "/out/C/S_1.zip".to_string()));
}

#[test]
fn per_manifest_archives_nest_sets() {
    let k = keyed_per_dat(&matched("/r/a", "a.rom", "My DAT", Some("G/1"), None));
    assert_eq!(k.group, "My DAT");
    assert_eq!(k.member.inner, "G_1/a.rom");
    let k2 = keyed_per_dat(&matched("/r/a", "a.rom", "My DAT", None, None));
    assert_eq!(k2.member.inner, "a.rom");
}

#[test]
fn rename_keeps_the_directory() {
    assert_eq!(rename_target("/roms/x/other.rom", "a.rom"), "/roms/x/a.rom");
    assert_eq!(rename_target("other.rom", "a.rom"), "a.rom");
}

fn source(name: &str, path: &str, sha1: &str, size: i64, mtime: Option<i64>) -> SourceRow {
    SourceRow {
        name: name.to_string(),
        file_path: path.to_string(),
        file_sha1: sha1.to_string(),
        file_size: size,
        file_mtime: mtime,
    }
}

#[test]
fn reimport_is_unchanged_then_duplicate() {
    let rows = vec![source("G", "/dats/g.dat", "abc", 100, Some(5))];
    assert!(matches!(decide_import(&rows, "/dats/g.dat", 100, Some(5), "abc"), ImportDecision::Unchanged { ref name } if name == "G"));
    assert!(matches!(decide_import(&rows, "/elsewhere/g.dat", 100, Some(5), "abc"), ImportDecision::Duplicate { ref name } if name == "G"));
    assert!(matches!(decide_import(&rows, "/dats/g.dat", 100, Some(6), "def"), ImportDecision::Import));
    assert_eq!(find_unchanged(&rows, "/dats/g.dat", 101, Some(5)), None);
    assert_eq!(find_duplicate(&rows, "abc"), Some(0));
}

#[test]
fn categories_from_options_or_root() {
    assert_eq!(clean_category_segments("/ Amiga/Games \\"), "Amiga/Games");
    assert_eq!(clean_category_segments("  /x/  "), "/x/");
    assert_eq!(derive_category("/dats/Commodore/Amiga/a.dat", "/dats"), Some("Commodore/Amiga".to_string()));
    assert_eq!(derive_category("/dats/a.dat", "/dats"), None);
    assert_eq!(derive_category("/datsx/y/a.dat", "/dats"), None);
    let opts = DatImportOptions { category: Some("Given".to_string()), category_root: Some("/dats".to_string()) };
    assert_eq!(import_category(&opts, "/dats/x/a.dat"), Some("Given".to_string()));
    let opts2 = DatImportOptions { category: None, category_root: Some("/dats/".to_string()) };
    assert_eq!(import_category(&opts2, "/dats/x/a.dat"), Some("x".to_string()));
}

#[test]
fn archive_members_sorted_by_folded_name() {
    let m = |n: &str| Member { source: format!("/src/{}", n), inner: n.to_string() };
    let sorted = archive_order(vec![m("b.rom"), m("A.rom"), m("set/C.rom"), m("a.bin")]);
    let names: Vec<&str> = sorted.iter().map(|x| x.inner.as_str()).collect();
    assert_eq!(names, vec!["a.bin", "A.rom", "b.rom", "set/C.rom"]);
    assert!(lex_less("abc", "abd"));
    assert!(lex_less("ab", "abc"));
    assert!(!lex_less("abc", "abc"));
    assert!(!lex_less("b", "a"));
}

#[test]
fn directory_import_categories() {
    assert_eq!(category_for_tree("TOSEC", "/packs/tosec/Amiga/Games/a.dat", "/packs/tosec"), Some("TOSEC/Amiga/Games".to_string()));
    assert_eq!(category_for_tree("TOSEC", "/packs/tosec/a.dat", "/packs/tosec"), Some("TOSEC".to_string()));
    assert_eq!(category_for_tree("", "/packs/tosec/a.dat", "/packs/tosec"), None);
    assert_eq!(category_for_tree("T", "/elsewhere/a.dat", "/packs/tosec"), None);
}

#[test]
fn loose_plan_moves_each_container_once() {
    let ms = vec![
        matched("/roms/pack.zip#a.rom", "a.rom", "D", None, None),
        matched("/roms/x.rom", "X.rom", "D", None, None),
        matched("/roms/pack.zip#b.rom", "b.rom", "D", None, None),
    ];
    let plans = plan_loose(&ms, "/out");
    let targets: Vec<&str> = plans.iter().map(|p| p.target.as_str()).collect();
    assert_eq!(targets, vec!["/out/pack.zip", "/out/X.rom"]);
}

#[test]
fn renames_only_misnamed_loose_files_once() {
    let mut a = matched("/roms/x/other.rom", "a.rom", "D", None, None);
    a.filename = "other.rom".to_string();
    let mut same = matched("/roms/x/A.ROM", "a.rom", "D", None, None);
    same.filename = "A.ROM".to_string();
    let inner = matched("/roms/p.zip#z.rom", "y.rom", "D", None, None);
    let plans = romshelf::organise::plan_renames(&vec![a, same, inner, matched("/roms/x/other.rom", "b.rom", "D2", None, None)]);
    assert_eq!(plans.len(), 1);
    assert_eq!(plans[0].target, "/roms/x/a.rom");
    assert_eq!(plans[0].name, "a.rom");
}
