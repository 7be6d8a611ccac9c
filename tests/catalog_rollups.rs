use romshelf::catalog::{recompute_rollups, Directory, FileStat};

fn dir(id: i64, path: &str, parent: Option<usize>) -> Directory {
    Directory {
        id,
        path: path.to_string(),
        name: path.rsplit('/').next().unwrap().to_string(),
        parent,
        file_count: 7,
        matched_count: 7,
        total_size: 7,
    }
}

fn counters(d: &Directory) -> (u64, u64, u64) {
    (d.file_count, d.matched_count, d.total_size)
}

#[test]
fn rollup_scenario_propagates_to_ancestors() {
    let mut dirs = vec![dir(1, "/roms", None), dir(2, "/roms/x", Some(0)), dir(3, "/roms/x/y", Some(1))];
    let files = vec![
        FileStat { directory: 2, size: 100, matched: true },
        FileStat { directory: 2, size: 200, matched: false },
    ];
    recompute_rollups(&mut dirs, &files);
    assert_eq!(counters(&dirs[2]), (2, 1, 300));
    assert_eq!(counters(&dirs[1]), (2, 1, 300));
    assert_eq!(counters(&dirs[0]), (2, 1, 300));
    assert_eq!(dirs[2].path, "/roms/x/y");
}

#[test]
fn rollup_is_idempotent_and_separates_siblings() {
    let mut dirs = vec![dir(1, "/r", None), dir(2, "/r/a", Some(0)), dir(3, "/r/b", Some(0)), dir(4, "/s", None)];
    let files = vec![
        FileStat { directory: 1, size: 10, matched: true },
        FileStat { directory: 2, size: 20, matched: true },
        FileStat { directory: 0, size: 1, matched: false },
        FileStat { directory: 3, size: 5, matched: true },
    ];
    recompute_rollups(&mut dirs, &files);
    let once: Vec<(u64, u64, u64)> = dirs.iter().map(counters).collect();
    assert_eq!(once, vec![(3, 2, 31), (1, 1, 10), (1, 1, 20), (1, 1, 5)]);
    recompute_rollups(&mut dirs, &files);
    let twice: Vec<(u64, u64, u64)> = dirs.iter().map(counters).collect();
    assert_eq!(once, twice);
}

#[test]
fn rollup_of_empty_catalog_is_zero() {
    let mut dirs = vec![dir(1, "/r", None)];
    recompute_rollups(&mut dirs, &vec![]);
    assert_eq!(counters(&dirs[0]), (0, 0, 0));
}
