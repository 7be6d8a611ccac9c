//! Rows that the catalog hands to its readers.
use vstd::prelude::*;
use vstd::multiset::Multiset;
use vstd::string::StringExecFns;
use crate::organise::{lex_less, lex_lt};
use crate::importer::dir_part;
use crate::text::{lemma_last_index, rfind_char, str_eq, substring};

verus! {

/// Statistics about the collection.
pub struct CollectionStats {
    pub dat_count: i64,
    pub entry_count: i64,
    pub scanned_files: i64,
    pub matched_files: i64,
    pub total_bytes_scanned: i64,
}

/// Summary of a loaded manifest.
pub struct DatSummary {
    pub id: i64,
    pub name: String,
    pub category: Option<String>,
    pub version: Option<String>,
    pub entry_count: i64,
    pub set_count: i64,
}

/// A node of the manifest tree, by category path.
pub struct DatTreeNode {
    pub name: String,
    pub children: Vec<DatTreeNode>,
    pub dats: Vec<DatSummary>,
}

/// Summary of a scanned file.
pub struct FileSummary {
    pub id: i64,
    pub path: String,
    pub filename: String,
    pub size: i64,
    pub sha1: Option<String>,
    pub matched: bool,
    pub match_name: Option<String>,
}

/// A node of the file tree, by directory path.
pub struct FileTreeNode {
    pub name: String,
    pub children: Vec<FileTreeNode>,
    pub files: Vec<FileSummary>,
    pub total_files: i64,
    pub matched_files: i64,
}

/// A directory with its rollup counters, for lazy tree loading.
pub struct DirectorySummary {
    pub id: i64,
    pub path: String,
    pub name: String,
    pub parent_id: Option<i64>,
    pub file_count: i64,
    pub matched_count: i64,
    pub total_size: i64,
    pub child_count: i64,
}

/// Resumable state of a long-running job, keyed by job type and source.
pub struct Checkpoint {
    pub job_type: String,
    pub source: String,
    pub last_token: String,
    pub updated_at: String,
}

/// A structured event sink; implementations must be shareable across threads.
pub trait ProgressSink<E> {
    fn emit(&self, event: E);
}


/// The position of the first child named `name`, from position `i` on.
pub open spec fn child_named(cs: Seq<DatTreeNode>, name: Seq<char>, i: int) -> Option<int>
    decreases cs.len() - i,
{
    if i < 0 || i >= cs.len() {
        None
    } else if cs[i].name@ == name {
        Some(i)
    } else {
        child_named(cs, name, i + 1)
    }
}

/// The manifests filed at `path` below `node`; empty where the path leads nowhere.
pub open spec fn dats_at(node: DatTreeNode, path: Seq<Seq<char>>) -> Seq<DatSummary>
    decreases path.len(),
{
    if path.len() == 0 {
        node.dats@
    } else {
        match child_named(node.children@, path[0], 0) {
            Some(k) => dats_at(node.children@[k], path.drop_first()),
            None => Seq::empty(),
        }
    }
}

/// Manifests ordered by name.
pub open spec fn dats_ordered(ds: Seq<DatSummary>) -> bool {
    forall|i: int, j: int| 0 <= i < j < ds.len() ==> !lex_lt((#[trigger] ds[j]).name@, (#[trigger] ds[i]).name@)
}

proof fn lemma_child_named(cs: Seq<DatTreeNode>, name: Seq<char>, i: int)
    requires
        0 <= i,
    ensures
        child_named(cs, name, i) matches Some(k) ==> i <= k < cs.len() && cs[k].name@ == name
            && forall|q: int| i <= q < k ==> (#[trigger] cs[q]).name@ != name,
        child_named(cs, name, i) is None ==> forall|q: int| i <= q < cs.len() ==> (#[trigger] cs[q]).name@ != name,
    decreases cs.len() - i,
{
    if i < cs.len() {
        lemma_child_named(cs, name, i + 1);
    }
}

proof fn lemma_child_named_at(cs: Seq<DatTreeNode>, name: Seq<char>, k: int, i: int)
    requires
        0 <= i <= k < cs.len(),
        cs[k].name@ == name,
        forall|q: int| i <= q < k ==> (#[trigger] cs[q]).name@ != name,
    ensures
        child_named(cs, name, i) == Some(k),
    decreases k - i,
{
    if i < k {
        lemma_child_named_at(cs, name, k, i + 1);
    }
}

proof fn lemma_empty_node(name: Seq<char>, node: DatTreeNode, path: Seq<Seq<char>>)
    requires
        node.children@.len() == 0,
        node.dats@.len() == 0,
    ensures
        dats_at(node, path) == Seq::<DatSummary>::empty(),
{
    if path.len() > 0 {
        assert(child_named(node.children@, path[0], 0) is None);
    }
}

proof fn lemma_head_tail(q: Seq<Seq<char>>, p: Seq<Seq<char>>)
    requires
        q.len() > 0,
        p.len() > 0,
        q[0] == p[0],
        q.drop_first() == p.drop_first(),
    ensures
        q == p,
{
    assert(q.drop_first().len() == q.len() - 1);
    assert(p.drop_first().len() == p.len() - 1);
    assert(q.len() == p.len());
    assert forall|i: int| 0 <= i < q.len() implies q[i] == p[i] by {
        if i > 0 {
            assert(q[i] == q.drop_first()[i - 1]);
            assert(p[i] == p.drop_first()[i - 1]);
        }
    }
    assert(q =~= p);
}

proof fn lemma_same_names(a: Seq<DatTreeNode>, b: Seq<DatTreeNode>, name: Seq<char>, i: int)
    requires
        0 <= i,
        a.len() == b.len(),
        forall|q: int| 0 <= q < a.len() ==> (#[trigger] b[q]).name == a[q].name,
    ensures
        child_named(a, name, i) == child_named(b, name, i),
    decreases a.len() - i,
{
    if i < a.len() {
        assert(b[i].name == a[i].name);
        lemma_same_names(a, b, name, i + 1);
    }
}

proof fn lemma_insert_other_name(a: Seq<DatTreeNode>, q: int, x: DatTreeNode, name: Seq<char>)
    requires
        0 <= q <= a.len(),
        x.name@ != name,
    ensures
        child_named(a.insert(q, x), name, 0) == (match child_named(a, name, 0) {
            Some(k) => Some(if k < q { k } else { k + 1 }),
            None => None,
        }),
{
    let b = a.insert(q, x);
    lemma_child_named(a, name, 0);
    lemma_child_named(b, name, 0);
    match child_named(a, name, 0) {
        Some(k) => {
            let k2 = if k < q { k } else { k + 1 };
            assert(b[k2] == a[k]);
            assert forall|i: int| 0 <= i < k2 implies (#[trigger] b[i]).name@ != name by {
                if i < q {
                    assert(b[i] == a[i]);
                } else if i > q {
                    assert(b[i] == a[i - 1]);
                }
            }
            lemma_child_named_at(b, name, k2, 0);
        },
        None => {
            if let Some(k) = child_named(b, name, 0) {
                if k < q {
                    assert(b[k] == a[k]);
                } else if k > q {
                    assert(b[k] == a[k - 1]);
                }
            }
        },
    }
}

fn first_child_named(cs: &Vec<DatTreeNode>, name: &str) -> (r: Option<usize>)
    ensures
        r matches Some(k) ==> child_named(cs@, name@, 0) == Some(k as int) && k < cs.len(),
        r is None ==> child_named(cs@, name@, 0) is None,
{
    let mut i: usize = 0;
    while i < cs.len()
        invariant
            i <= cs.len(),
            child_named(cs@, name@, 0) == child_named(cs@, name@, i as int),
        decreases cs.len() - i,
    {
        if str_eq(cs[i].name.as_str(), name) {
            return Some(i);
        }
        i = i + 1;
    }
    None
}

/// The views of the segments of a path.
pub open spec fn path_view(path: Seq<String>) -> Seq<Seq<char>> {
    path.map_values(|s: String| s@)
}

/// Files a manifest in `node` at the category path `path[from..]`, creating
/// the missing nodes on the way; a node's manifests stay ordered by name,
/// equal names in filing order.
pub fn insert_into_tree(node: &mut DatTreeNode, path: &Vec<String>, from: usize, dat: DatSummary)
    requires
        from <= path.len(),
        dats_ordered(dats_at(*old(node), path_view(path@).subrange(from as int, path.len() as int))),
    ensures
        final(node).name == old(node).name,
        ({
            let p = path_view(path@).subrange(from as int, path.len() as int);
            &&& dats_at(*final(node), p).to_multiset() == dats_at(*old(node), p).to_multiset().insert(dat)
            &&& dats_ordered(dats_at(*final(node), p))
            &&& forall|q: Seq<Seq<char>>| q != p ==> dats_at(*final(node), q) == dats_at(*old(node), q)
        }),
    decreases path.len() - from,
{
    broadcast use vstd::seq_lib::group_to_multiset_ensures;

    let ghost pv = path_view(path@);
    let ghost p = pv.subrange(from as int, path.len() as int);
    if from == path.len() {
        let mut q: usize = 0;
        while q < node.dats.len() && !lex_less(dat.name.as_str(), node.dats[q].name.as_str())
            invariant
                q <= node.dats.len(),
                forall|k: int| 0 <= k < q ==> !lex_lt(dat.name@, (#[trigger] node.dats@[k]).name@),
            decreases node.dats.len() - q,
        {
            q = q + 1;
        }
        let ghost before = node.dats@;
        let ghost kids = node.children@;
        proof {
            assert(p.len() == 0);
        }
        node.dats.insert(q, dat);
        proof {
            vstd::seq_lib::to_multiset_insert(before, q as int, dat);
            assert(node.dats@ == before.insert(q as int, dat));
            assert forall|i: int, j: int| 0 <= i < j < node.dats@.len() implies
                !lex_lt((#[trigger] node.dats@[j]).name@, (#[trigger] node.dats@[i]).name@) by {
                if j < q {
                    assert(node.dats@[i] == before[i] && node.dats@[j] == before[j]);
                } else if j == q {
                    assert(node.dats@[i] == before[i]);
                } else if i == q {
                    assert(node.dats@[j] == before[j - 1]);
                    assert(lex_lt(dat.name@, before[q as int].name@));
                    if lex_lt(before[j - 1].name@, dat.name@) {
                        if j - 1 == q {
                            crate::organise::lemma_lex_asym(before[j - 1].name@, dat.name@);
                        } else {
                            crate::organise::lemma_lex_trans(before[j - 1].name@, dat.name@, before[q as int].name@);
                        }
                    }
                } else if i < q {
                    assert(node.dats@[i] == before[i] && node.dats@[j] == before[j - 1]);
                } else {
                    assert(node.dats@[i] == before[i - 1] && node.dats@[j] == before[j - 1]);
                }
            }
            assert forall|q: Seq<Seq<char>>| q != p implies dats_at(*node, q) == dats_at(*old(node), q) by {
                if q.len() == 0 {
                    assert(q =~= p);
                }
                assert(node.children@ == kids);
            }
        }
        return;
    }
    let seg = path[from].as_str();
    proof {
        assert(p[0] == pv[from as int]);
        assert(p.drop_first() =~= pv.subrange(from + 1, path.len() as int));
        lemma_child_named(node.children@, seg@, 0);
    }
    let ghost old_children = node.children@;
    match first_child_named(&node.children, seg) {
        Some(k) => {
            let ghost old_dats = node.dats@;
            let mut child = node.children.remove(k);
            assert(child == old_children[k as int]);
            let ghost child0 = child;
            insert_into_tree(&mut child, path, from + 1, dat);
            node.children.insert(k, child);
            proof {
                assert forall|q: int| 0 <= q < k implies (#[trigger] node.children@[q]).name@ != seg@ by {
                    assert(node.children@[q] == old_children[q]);
                }
                lemma_child_named_at(node.children@, seg@, k as int, 0);
                assert forall|i: int| 0 <= i < old_children.len() implies (#[trigger] node.children@[i]).name == old_children[i].name by {
                    if i != k {
                        assert(node.children@[i] == old_children[i]);
                    }
                }
                assert forall|q: Seq<Seq<char>>| q != p implies dats_at(*node, q) == dats_at(*old(node), q) by {
                    if q.len() == 0 {
                        assert(node.dats@ == old_dats);
                    } else {
                        lemma_same_names(old_children, node.children@, q[0], 0);
                        assert(child_named(old_children, q[0], 0) == child_named(node.children@, q[0], 0));
                        if let Some(k2) = child_named(old_children, q[0], 0) {
                            lemma_child_named(old_children, q[0], 0);
                            if k2 != k {
                                assert(node.children@[k2] == old_children[k2]);
                            } else {
                                assert(node.children@[k as int] == child);
                                assert(old_children[k as int] == child0);
                                assert(q[0] == seg@);
                                assert(q.drop_first() != p.drop_first()) by {
                                    if q.drop_first() == p.drop_first() {
                                        lemma_head_tail(q, p);
                                    }
                                }
                                assert(dats_at(child, q.drop_first()) == dats_at(child0, q.drop_first()));
                            }
                        }
                    }
                }
            }
        },
        None => {
            let mut child = DatTreeNode { name: path[from].clone(), children: Vec::new(), dats: Vec::new() };
            let ghost child0 = child;
            proof {
                lemma_empty_node(seg@, child, p.drop_first());
            }
            insert_into_tree(&mut child, path, from + 1, dat);
            let mut n: usize = 0;
            while n < node.children.len() && !lex_less(seg, node.children[n].name.as_str())
                invariant
                    n <= node.children.len(),
                    node.children@ == old_children,
                decreases node.children.len() - n,
            {
                n = n + 1;
            }
            node.children.insert(n, child);
            proof {
                assert forall|q: int| 0 <= q < n implies (#[trigger] node.children@[q]).name@ != seg@ by {
                    assert(node.children@[q] == old_children[q]);
                }
                lemma_child_named_at(node.children@, seg@, n as int, 0);
                assert(dats_at(*old(node), p) == Seq::<DatSummary>::empty());
                assert forall|q: Seq<Seq<char>>| q != p implies dats_at(*node, q) == dats_at(*old(node), q) by {
                    if q.len() > 0 {
                        lemma_child_named(old_children, q[0], 0);
                        lemma_child_named(node.children@, q[0], 0);
                        if q[0] != seg@ {
                            lemma_insert_other_name(old_children, n as int, node.children@[n as int], q[0]);
                            assert(node.children@ == old_children.insert(n as int, node.children@[n as int]));
                            if let Some(k2) = child_named(old_children, q[0], 0) {
                                if k2 < n {
                                    assert(node.children@[k2] == old_children[k2]);
                                } else {
                                    assert(node.children@[k2 + 1] == old_children[k2]);
                                }
                            }
                        } else {
                            assert(q.drop_first() != p.drop_first()) by {
                                if q.drop_first() == p.drop_first() {
                                    lemma_head_tail(q, p);
                                }
                            }
                            lemma_empty_node(seg@, child0, q.drop_first());
                        }
                    }
                }
            }
        },
    }
}


/// The position of the first child named `name`, from position `i` on.
pub open spec fn file_child_named(cs: Seq<FileTreeNode>, name: Seq<char>, i: int) -> Option<int>
    decreases cs.len() - i,
{
    if i < 0 || i >= cs.len() {
        None
    } else if cs[i].name@ == name {
        Some(i)
    } else {
        file_child_named(cs, name, i + 1)
    }
}

/// The files filed at `path` below `node`; empty where the path leads nowhere.
pub open spec fn files_at(node: FileTreeNode, path: Seq<Seq<char>>) -> Seq<FileSummary>
    decreases path.len(),
{
    if path.len() == 0 {
        node.files@
    } else {
        match file_child_named(node.children@, path[0], 0) {
            Some(k) => files_at(node.children@[k], path.drop_first()),
            None => Seq::empty(),
        }
    }
}

/// Files ordered by file name.
pub open spec fn files_ordered(ds: Seq<FileSummary>) -> bool {
    forall|i: int, j: int| 0 <= i < j < ds.len() ==> !lex_lt((#[trigger] ds[j]).filename@, (#[trigger] ds[i]).filename@)
}

proof fn lemma_file_child_named(cs: Seq<FileTreeNode>, name: Seq<char>, i: int)
    requires
        0 <= i,
    ensures
        file_child_named(cs, name, i) matches Some(k) ==> i <= k < cs.len() && cs[k].name@ == name
            && forall|q: int| i <= q < k ==> (#[trigger] cs[q]).name@ != name,
        file_child_named(cs, name, i) is None ==> forall|q: int| i <= q < cs.len() ==> (#[trigger] cs[q]).name@ != name,
    decreases cs.len() - i,
{
    if i < cs.len() {
        lemma_file_child_named(cs, name, i + 1);
    }
}

proof fn lemma_file_child_named_at(cs: Seq<FileTreeNode>, name: Seq<char>, k: int, i: int)
    requires
        0 <= i <= k < cs.len(),
        cs[k].name@ == name,
        forall|q: int| i <= q < k ==> (#[trigger] cs[q]).name@ != name,
    ensures
        file_child_named(cs, name, i) == Some(k),
    decreases k - i,
{
    if i < k {
        lemma_file_child_named_at(cs, name, k, i + 1);
    }
}

proof fn lemma_empty_file_node(name: Seq<char>, node: FileTreeNode, path: Seq<Seq<char>>)
    requires
        node.children@.len() == 0,
        node.files@.len() == 0,
    ensures
        files_at(node, path) == Seq::<FileSummary>::empty(),
{
    if path.len() > 0 {
        assert(file_child_named(node.children@, path[0], 0) is None);
    }
}

proof fn lemma_same_file_names(a: Seq<FileTreeNode>, b: Seq<FileTreeNode>, name: Seq<char>, i: int)
    requires
        0 <= i,
        a.len() == b.len(),
        forall|q: int| 0 <= q < a.len() ==> (#[trigger] b[q]).name == a[q].name,
    ensures
        file_child_named(a, name, i) == file_child_named(b, name, i),
    decreases a.len() - i,
{
    if i < a.len() {
        assert(b[i].name == a[i].name);
        lemma_same_file_names(a, b, name, i + 1);
    }
}

proof fn lemma_insert_other_file_name(a: Seq<FileTreeNode>, q: int, x: FileTreeNode, name: Seq<char>)
    requires
        0 <= q <= a.len(),
        x.name@ != name,
    ensures
        file_child_named(a.insert(q, x), name, 0) == (match file_child_named(a, name, 0) {
            Some(k) => Some(if k < q { k } else { k + 1 }),
            None => None,
        }),
{
    let b = a.insert(q, x);
    lemma_file_child_named(a, name, 0);
    lemma_file_child_named(b, name, 0);
    match file_child_named(a, name, 0) {
        Some(k) => {
            let k2 = if k < q { k } else { k + 1 };
            assert(b[k2] == a[k]);
            assert forall|i: int| 0 <= i < k2 implies (#[trigger] b[i]).name@ != name by {
                if i < q {
                    assert(b[i] == a[i]);
                } else if i > q {
                    assert(b[i] == a[i - 1]);
                }
            }
            lemma_file_child_named_at(b, name, k2, 0);
        },
        None => {
            if let Some(k) = file_child_named(b, name, 0) {
                if k < q {
                    assert(b[k] == a[k]);
                } else if k > q {
                    assert(b[k] == a[k - 1]);
                }
            }
        },
    }
}

fn first_file_child_named(cs: &Vec<FileTreeNode>, name: &str) -> (r: Option<usize>)
    ensures
        r matches Some(k) ==> file_child_named(cs@, name@, 0) == Some(k as int) && k < cs.len(),
        r is None ==> file_child_named(cs@, name@, 0) is None,
{
    let mut i: usize = 0;
    while i < cs.len()
        invariant
            i <= cs.len(),
            file_child_named(cs@, name@, 0) == file_child_named(cs@, name@, i as int),
        decreases cs.len() - i,
    {
        if str_eq(cs[i].name.as_str(), name) {
            return Some(i);
        }
        i = i + 1;
    }
    None
}

/// Files a scanned file in `node` at the directory path `path[from..]`,
/// creating the missing nodes on the way; a node's files stay ordered by
/// file name, equal names in filing order, and its children by name.
pub fn insert_file_into_tree(node: &mut FileTreeNode, path: &Vec<String>, from: usize, file: FileSummary)
    requires
        from <= path.len(),
        files_ordered(files_at(*old(node), path_view(path@).subrange(from as int, path.len() as int))),
    ensures
        final(node).name == old(node).name,
        ({
            let p = path_view(path@).subrange(from as int, path.len() as int);
            &&& files_at(*final(node), p).to_multiset() == files_at(*old(node), p).to_multiset().insert(file)
            &&& files_ordered(files_at(*final(node), p))
            &&& forall|q: Seq<Seq<char>>| q != p ==> files_at(*final(node), q) == files_at(*old(node), q)
        }),
    decreases path.len() - from,
{
    broadcast use vstd::seq_lib::group_to_multiset_ensures;

    let ghost pv = path_view(path@);
    let ghost p = pv.subrange(from as int, path.len() as int);
    if from == path.len() {
        let mut q: usize = 0;
        while q < node.files.len() && !lex_less(file.filename.as_str(), node.files[q].filename.as_str())
            invariant
                q <= node.files.len(),
                forall|k: int| 0 <= k < q ==> !lex_lt(file.filename@, (#[trigger] node.files@[k]).filename@),
            decreases node.files.len() - q,
        {
            q = q + 1;
        }
        let ghost before = node.files@;
        let ghost kids = node.children@;
        proof {
            assert(p.len() == 0);
        }
        node.files.insert(q, file);
        proof {
            vstd::seq_lib::to_multiset_insert(before, q as int, file);
            assert(node.files@ == before.insert(q as int, file));
            assert forall|i: int, j: int| 0 <= i < j < node.files@.len() implies
                !lex_lt((#[trigger] node.files@[j]).filename@, (#[trigger] node.files@[i]).filename@) by {
                if j < q {
                    assert(node.files@[i] == before[i] && node.files@[j] == before[j]);
                } else if j == q {
                    assert(node.files@[i] == before[i]);
                } else if i == q {
                    assert(node.files@[j] == before[j - 1]);
                    assert(lex_lt(file.filename@, before[q as int].filename@));
                    if lex_lt(before[j - 1].filename@, file.filename@) {
                        if j - 1 == q {
                            crate::organise::lemma_lex_asym(before[j - 1].filename@, file.filename@);
                        } else {
                            crate::organise::lemma_lex_trans(before[j - 1].filename@, file.filename@, before[q as int].filename@);
                        }
                    }
                } else if i < q {
                    assert(node.files@[i] == before[i] && node.files@[j] == before[j - 1]);
                } else {
                    assert(node.files@[i] == before[i - 1] && node.files@[j] == before[j - 1]);
                }
            }
            assert forall|q: Seq<Seq<char>>| q != p implies files_at(*node, q) == files_at(*old(node), q) by {
                if q.len() == 0 {
                    assert(q =~= p);
                }
                assert(node.children@ == kids);
            }
        }
        return;
    }
    let seg = path[from].as_str();
    proof {
        assert(p[0] == pv[from as int]);
        assert(p.drop_first() =~= pv.subrange(from + 1, path.len() as int));
        lemma_file_child_named(node.children@, seg@, 0);
    }
    let ghost old_children = node.children@;
    match first_file_child_named(&node.children, seg) {
        Some(k) => {
            let ghost old_files = node.files@;
            let mut child = node.children.remove(k);
            assert(child == old_children[k as int]);
            let ghost child0 = child;
            insert_file_into_tree(&mut child, path, from + 1, file);
            node.children.insert(k, child);
            proof {
                assert forall|q: int| 0 <= q < k implies (#[trigger] node.children@[q]).name@ != seg@ by {
                    assert(node.children@[q] == old_children[q]);
                }
                lemma_file_child_named_at(node.children@, seg@, k as int, 0);
                assert forall|i: int| 0 <= i < old_children.len() implies (#[trigger] node.children@[i]).name == old_children[i].name by {
                    if i != k {
                        assert(node.children@[i] == old_children[i]);
                    }
                }
                assert forall|q: Seq<Seq<char>>| q != p implies files_at(*node, q) == files_at(*old(node), q) by {
                    if q.len() == 0 {
                        assert(node.files@ == old_files);
                    } else {
                        lemma_same_file_names(old_children, node.children@, q[0], 0);
                        assert(file_child_named(old_children, q[0], 0) == file_child_named(node.children@, q[0], 0));
                        if let Some(k2) = file_child_named(old_children, q[0], 0) {
                            lemma_file_child_named(old_children, q[0], 0);
                            if k2 != k {
                                assert(node.children@[k2] == old_children[k2]);
                            } else {
                                assert(node.children@[k as int] == child);
                                assert(old_children[k as int] == child0);
                                assert(q[0] == seg@);
                                assert(q.drop_first() != p.drop_first()) by {
                                    if q.drop_first() == p.drop_first() {
                                        lemma_head_tail(q, p);
                                    }
                                }
                                assert(files_at(child, q.drop_first()) == files_at(child0, q.drop_first()));
                            }
                        }
                    }
                }
            }
        },
        None => {
            let mut child = FileTreeNode { name: path[from].clone(), children: Vec::new(), files: Vec::new(), total_files: 0, matched_files: 0 };
            let ghost child0 = child;
            proof {
                lemma_empty_file_node(seg@, child, p.drop_first());
            }
            insert_file_into_tree(&mut child, path, from + 1, file);
            let mut n: usize = 0;
            while n < node.children.len() && !lex_less(seg, node.children[n].name.as_str())
                invariant
                    n <= node.children.len(),
                    node.children@ == old_children,
                decreases node.children.len() - n,
            {
                n = n + 1;
            }
            node.children.insert(n, child);
            proof {
                assert forall|q: int| 0 <= q < n implies (#[trigger] node.children@[q]).name@ != seg@ by {
                    assert(node.children@[q] == old_children[q]);
                }
                lemma_file_child_named_at(node.children@, seg@, n as int, 0);
                assert(files_at(*old(node), p) == Seq::<FileSummary>::empty());
                assert forall|q: Seq<Seq<char>>| q != p implies files_at(*node, q) == files_at(*old(node), q) by {
                    if q.len() > 0 {
                        lemma_file_child_named(old_children, q[0], 0);
                        lemma_file_child_named(node.children@, q[0], 0);
                        if q[0] != seg@ {
                            lemma_insert_other_file_name(old_children, n as int, node.children@[n as int], q[0]);
                            assert(node.children@ == old_children.insert(n as int, node.children@[n as int]));
                            if let Some(k2) = file_child_named(old_children, q[0], 0) {
                                if k2 < n {
                                    assert(node.children@[k2] == old_children[k2]);
                                } else {
                                    assert(node.children@[k2 + 1] == old_children[k2]);
                                }
                            }
                        } else {
                            assert(q.drop_first() != p.drop_first()) by {
                                if q.drop_first() == p.drop_first() {
                                    lemma_head_tail(q, p);
                                }
                            }
                            lemma_empty_file_node(seg@, child0, q.drop_first());
                        }
                    }
                }
            }
        },
    }
}


/// Splitting the first `n` characters at `/`: the finished non-empty
/// segments, and the segment in progress.
pub open spec fn split_upto(s: Seq<char>, n: int) -> (Seq<Seq<char>>, Seq<char>)
    decreases n,
{
    if n <= 0 {
        (Seq::empty(), Seq::empty())
    } else {
        let (done, cur) = split_upto(s, n - 1);
        if s[n - 1] == '/' {
            (if cur.len() > 0 { done.push(cur) } else { done }, Seq::empty())
        } else {
            (done, cur.push(s[n - 1]))
        }
    }
}

/// The non-empty `/`-separated segments of a category path.
pub open spec fn segments(s: Seq<char>) -> Seq<Seq<char>> {
    let (done, cur) = split_upto(s, s.len() as int);
    if cur.len() > 0 { done.push(cur) } else { done }
}

/// Splits a category path into its non-empty segments.
pub fn category_segments(s: &str) -> (r: Vec<String>)
    ensures
        path_view(r@) == segments(s@),
{
    let n = s.unicode_len();
    let mut done: Vec<String> = Vec::new();
    let mut cur = String::new();
    let mut i: usize = 0;
    while i < n
        invariant
            n == s@.len(),
            i <= n,
            (path_view(done@), cur@) == split_upto(s@, i as int),
        decreases n - i,
    {
        let c = s.get_char(i);
        if c == '/' {
            if cur.unicode_len() > 0 {
                let ghost before = path_view(done@);
                let ghost cv = cur@;
                done.push(cur);
                assert(path_view(done@) =~= before.push(cv));
            }
            cur = String::new();
        } else {
            let one = s.substring_char(i, i + 1);
            assert(one@ =~= seq![c]);
            let ghost before = cur@;
            cur.append(one);
            assert(cur@ =~= before.push(c));
        }
        i = i + 1;
    }
    if cur.unicode_len() > 0 {
        let ghost before = path_view(done@);
        let ghost cv = cur@;
        done.push(cur);
        assert(path_view(done@) =~= before.push(cv));
    }
    done
}

pub open spec fn category_of(d: DatSummary) -> Seq<char> {
    match d.category {
        Some(c) => c@,
        None => Seq::empty(),
    }
}

/// The manifests among the first `n` whose category path is `q`.
pub open spec fn filed_at(ds: Seq<DatSummary>, q: Seq<Seq<char>>, n: int) -> Multiset<DatSummary>
    decreases n,
{
    if n <= 0 {
        Multiset::empty()
    } else if segments(category_of(ds[n - 1])) == q {
        filed_at(ds, q, n - 1).insert(ds[n - 1])
    } else {
        filed_at(ds, q, n - 1)
    }
}

/// Builds the manifest tree: each manifest is filed at the node of its
/// category's segments below the root (the root itself when it has none),
/// and each node's manifests are ordered by name.
pub fn build_dat_tree(dats: Vec<DatSummary>) -> (r: DatTreeNode)
    ensures
        r.name@ == "Root"@,
        forall|q: Seq<Seq<char>>| #![auto] dats_at(r, q).to_multiset() == filed_at(dats@, q, dats@.len() as int),
        forall|q: Seq<Seq<char>>| #![auto] dats_ordered(dats_at(r, q)),
{
    broadcast use vstd::seq_lib::group_to_multiset_ensures;

    let ghost ds = dats@;
    let mut root = DatTreeNode { name: "Root".to_string(), children: Vec::new(), dats: Vec::new() };
    proof {
        assert forall|q: Seq<Seq<char>>| #![auto] dats_at(root, q) == Seq::<DatSummary>::empty() by {
            lemma_empty_node("Root"@, root, q);
        }
    }
    let n = dats.len();
    let mut rest = dats;
    let mut i: usize = 0;
    while rest.len() > 0
        invariant
            ds.len() == n,
            root.name@ == "Root"@,
            i + rest@.len() == ds.len(),
            rest@ == ds.subrange(i as int, ds.len() as int),
            forall|q: Seq<Seq<char>>| #![auto] dats_at(root, q).to_multiset() == filed_at(ds, q, i as int),
            forall|q: Seq<Seq<char>>| #![auto] dats_ordered(dats_at(root, q)),
        decreases rest.len(),
    {
        let d = rest.remove(0);
        assert(d == ds[i as int]);
        let segs = match &d.category {
            Some(c) => category_segments(c.as_str()),
            None => {
                let v: Vec<String> = Vec::new();
                assert(path_view(v@) =~= segments(Seq::empty()));
                v
            },
        };
        let ghost p = path_view(segs@);
        assert(path_view(segs@).subrange(0, segs@.len() as int) =~= p);
        assert(p == segments(category_of(ds[i as int])));
        let ghost root0 = root;
        insert_into_tree(&mut root, &segs, 0, d);
        proof {
            assert forall|q: Seq<Seq<char>>| #![auto] dats_at(root, q).to_multiset() == filed_at(ds, q, i + 1) by {
                assert(dats_at(root0, q).to_multiset() == filed_at(ds, q, i as int));
                assert(ds[i as int] == d);
                if q == p {
                    assert(dats_at(root, p).to_multiset() == dats_at(root0, p).to_multiset().insert(d));
                } else {
                    assert(dats_at(root, q) == dats_at(root0, q));
                }
            }
        }
        i = i + 1;
        assert(rest@ =~= ds.subrange(i as int, ds.len() as int));
    }
    root
}


/// The files at or below a node: its own files and those of its children,
/// recursively.
pub open spec fn tree_total(n: FileTreeNode) -> int
    decreases n,
{
    n.files@.len() + children_total(n, n.children@.len() as int)
}

pub open spec fn children_total(n: FileTreeNode, k: int) -> int
    decreases n, k,
{
    if k <= 0 || k > n.children@.len() {
        0
    } else {
        children_total(n, k - 1) + tree_total(n.children@[k - 1])
    }
}

/// The matched files at or below a node.
pub open spec fn tree_matched(n: FileTreeNode) -> int
    decreases n,
{
    matched_in(n.files@, n.files@.len() as int) + children_matched(n, n.children@.len() as int)
}

pub open spec fn children_matched(n: FileTreeNode, k: int) -> int
    decreases n, k,
{
    if k <= 0 || k > n.children@.len() {
        0
    } else {
        children_matched(n, k - 1) + tree_matched(n.children@[k - 1])
    }
}

/// The number of matched files among the first `k`.
pub open spec fn matched_in(fs: Seq<FileSummary>, k: int) -> int
    decreases k,
{
    if k <= 0 {
        0
    } else {
        matched_in(fs, k - 1) + if fs[k - 1].matched { 1int } else { 0 }
    }
}

/// A count, saturated at the largest `i64`.
pub open spec fn clamp(x: int) -> i64 {
    if x > i64::MAX { i64::MAX } else { x as i64 }
}

/// Every node's totals count the files at or below it (saturating).
pub open spec fn stats_ok(n: FileTreeNode) -> bool
    decreases n,
{
    &&& n.total_files == clamp(tree_total(n))
    &&& n.matched_files == clamp(tree_matched(n))
    &&& forall|k: int| 0 <= k < n.children@.len() ==> stats_ok(#[trigger] n.children@[k])
}

proof fn lemma_counts_nonneg(n: FileTreeNode)
    ensures
        tree_total(n) >= 0,
        tree_matched(n) >= 0,
    decreases n,
{
    lemma_children_nonneg(n, n.children@.len() as int);
    lemma_matched_nonneg(n.files@, n.files@.len() as int);
}

proof fn lemma_children_nonneg(n: FileTreeNode, k: int)
    ensures
        children_total(n, k) >= 0,
        children_matched(n, k) >= 0,
    decreases n, k,
{
    if 0 < k <= n.children@.len() {
        lemma_children_nonneg(n, k - 1);
        lemma_counts_nonneg(n.children@[k - 1]);
    }
}

proof fn lemma_matched_nonneg(fs: Seq<FileSummary>, k: int)
    ensures
        0 <= matched_in(fs, k) <= if k < 0 { 0 } else { k },
    decreases k,
{
    if k > 0 {
        lemma_matched_nonneg(fs, k - 1);
    }
}

fn sat_add(a: i64, b: i64) -> (r: i64)
    requires
        a >= 0,
        b >= 0,
    ensures
        r == clamp(a + b),
{
    if a > i64::MAX - b {
        i64::MAX
    } else {
        a + b
    }
}

proof fn lemma_clamp_add(x: int, y: int)
    requires
        x >= 0,
        y >= 0,
    ensures
        clamp(clamp(x) + clamp(y)) == clamp(x + y),
{
}

proof fn lemma_children_prefix(a: FileTreeNode, b: FileTreeNode, k: int)
    requires
        0 <= k <= a.children@.len(),
        k <= b.children@.len(),
        forall|j: int| 0 <= j < k ==> (#[trigger] a.children@[j]) == b.children@[j],
    ensures
        children_total(a, k) == children_total(b, k),
        children_matched(a, k) == children_matched(b, k),
    decreases k,
{
    if k > 0 {
        lemma_children_prefix(a, b, k - 1);
    }
}

/// Sets every node's totals to the number of files, and of matched files,
/// at or below it (saturating at the largest `i64`); names, files and the
/// shape of the tree are unchanged.
pub fn compute_file_tree_stats(node: &mut FileTreeNode)
    ensures
        stats_ok(*final(node)),
        final(node).name == old(node).name,
        final(node).files == old(node).files,
        final(node).children@.len() == old(node).children@.len(),
        forall|k: int| 0 <= k < old(node).children@.len() ==> (#[trigger] final(node).children@[k]).name == old(node).children@[k].name,
        forall|q: Seq<Seq<char>>| #![auto] files_at(*final(node), q) == files_at(*old(node), q),
    decreases *old(node),
{
    let ghost old_children = node.children@;
    let n = node.children.len();
    let mut k: usize = 0;
    while k < n
        invariant
            n == node.children@.len(),
            n == old_children.len(),
            k <= n,
            forall|j: int| 0 <= j < k ==> stats_ok(#[trigger] node.children@[j]),
            forall|j: int| 0 <= j < n ==> (#[trigger] node.children@[j]).name == old_children[j].name,
            forall|j: int| k <= j < n ==> (#[trigger] node.children@[j]) == old_children[j],
            old_children == old(node).children@,
            node.name == old(node).name,
            node.files == old(node).files,
            forall|j: int, q: Seq<Seq<char>>| #![auto] 0 <= j < k ==> files_at(node.children@[j], q) == files_at(old_children[j], q),
        decreases n - k,
    {
        let ghost before = node.children@;
        let mut c = node.children.remove(k);
        assert(c == old_children[k as int]);
        assert(decreases_to!(*old(node) => c));
        compute_file_tree_stats(&mut c);
        node.children.insert(k, c);
        proof {
            assert forall|j: int| 0 <= j < n implies (#[trigger] node.children@[j]).name == old_children[j].name by {
                if j != k {
                    assert(node.children@[j] == before[j]);
                }
            }
            assert forall|j: int| 0 <= j < k + 1 implies stats_ok(#[trigger] node.children@[j]) by {
                if j < k {
                    assert(node.children@[j] == before[j]);
                }
            }
            assert forall|j: int| k + 1 <= j < n implies (#[trigger] node.children@[j]) == old_children[j] by {
                assert(node.children@[j] == before[j]);
            }
            assert forall|j: int, q: Seq<Seq<char>>| #![auto] 0 <= j < k + 1 implies files_at(node.children@[j], q) == files_at(old_children[j], q) by {
                if j < k {
                    assert(node.children@[j] == before[j]);
                }
            }
        }
        k = k + 1;
    }
    let m = node.files.len();
    let mut matched: i64 = 0;
    let mut i: usize = 0;
    while i < m
        invariant
            m == node.files@.len(),
            i <= m,
            matched == clamp(matched_in(node.files@, i as int)),
            0 <= matched,
        decreases m - i,
    {
        proof {
            lemma_matched_nonneg(node.files@, i as int);
        }
        if node.files[i].matched {
            matched = sat_add(matched, 1);
        }
        i = i + 1;
    }
    let mut total: i64 = if m as u64 > i64::MAX as u64 { i64::MAX } else { m as i64 };
    let mut j: usize = 0;
    while j < n
        invariant
            n == node.children@.len(),
            m == node.files@.len(),
            j <= n,
            forall|q: int| 0 <= q < n ==> stats_ok(#[trigger] node.children@[q]),
            total == clamp(m + children_total(*node, j as int)),
            matched == clamp(matched_in(node.files@, m as int) + children_matched(*node, j as int)),
            total >= 0,
            matched >= 0,
        decreases n - j,
    {
        let ct = node.children[j].total_files;
        let cm = node.children[j].matched_files;
        proof {
            let ch = node.children@[j as int];
            assert(stats_ok(ch));
            lemma_counts_nonneg(ch);
            lemma_children_nonneg(*node, j as int);
            lemma_matched_nonneg(node.files@, m as int);
            lemma_clamp_add(m + children_total(*node, j as int), tree_total(ch));
            lemma_clamp_add(matched_in(node.files@, m as int) + children_matched(*node, j as int), tree_matched(ch));
        }
        total = sat_add(total, ct);
        matched = sat_add(matched, cm);
        j = j + 1;
    }
    let ghost pre = *node;
    node.total_files = total;
    node.matched_files = matched;
    proof {
        lemma_children_prefix(pre, *node, n as int);
        assert forall|q: int| 0 <= q < node.children@.len() implies stats_ok(#[trigger] node.children@[q]) by {
            assert(node.children@[q] == pre.children@[q]);
        }
        assert forall|q: Seq<Seq<char>>| #![auto] files_at(*node, q) == files_at(*old(node), q) by {
            if q.len() > 0 {
                lemma_same_file_names(old_children, node.children@, q[0], 0);
                lemma_file_child_named(old_children, q[0], 0);
                if let Some(kk) = file_child_named(old_children, q[0], 0) {
                    assert(files_at(node.children@[kk], q.drop_first()) == files_at(old_children[kk], q.drop_first()));
                }
            }
        }
    }
}


/// The files among the first `n` whose directory path is `q`.
pub open spec fn file_filed_at(fs: Seq<FileSummary>, q: Seq<Seq<char>>, n: int) -> Multiset<FileSummary>
    decreases n,
{
    if n <= 0 {
        Multiset::empty()
    } else if segments(dir_part(fs[n - 1].path@)) == q {
        file_filed_at(fs, q, n - 1).insert(fs[n - 1])
    } else {
        file_filed_at(fs, q, n - 1)
    }
}

/// The directory part of a file path, split into non-empty segments.
pub fn directory_segments(path: &str) -> (r: Vec<String>)
    ensures
        path_view(r@) == segments(dir_part(path@)),
{
    proof {
        lemma_last_index(path@, '/');
    }
    match rfind_char(path, '/') {
        Some(i) => {
            let d = substring(path, 0, i);
            category_segments(d.as_str())
        },
        None => {
            let v: Vec<String> = Vec::new();
            assert(path_view(v@) =~= segments(Seq::empty()));
            v
        },
    }
}

/// Builds the file tree: each file is filed at the node of its directory's
/// segments below the root, each node's files are ordered by file name and
/// its children by name, and every node's totals count the files (and the
/// matched files) at or below it.
pub fn build_file_tree(files: Vec<FileSummary>) -> (r: FileTreeNode)
    ensures
        r.name@ == "Root"@,
        forall|q: Seq<Seq<char>>| #![auto] files_at(r, q).to_multiset() == file_filed_at(files@, q, files@.len() as int),
        forall|q: Seq<Seq<char>>| #![auto] files_ordered(files_at(r, q)),
        stats_ok(r),
{
    broadcast use vstd::seq_lib::group_to_multiset_ensures;

    let ghost fs = files@;
    let mut root = FileTreeNode {
        name: "Root".to_string(),
        children: Vec::new(),
        files: Vec::new(),
        total_files: 0,
        matched_files: 0,
    };
    proof {
        assert forall|q: Seq<Seq<char>>| #![auto] files_at(root, q) == Seq::<FileSummary>::empty() by {
            lemma_empty_file_node("Root"@, root, q);
        }
    }
    let n = files.len();
    let mut rest = files;
    let mut i: usize = 0;
    while rest.len() > 0
        invariant
            fs.len() == n,
            root.name@ == "Root"@,
            i + rest@.len() == fs.len(),
            rest@ == fs.subrange(i as int, fs.len() as int),
            forall|q: Seq<Seq<char>>| #![auto] files_at(root, q).to_multiset() == file_filed_at(fs, q, i as int),
            forall|q: Seq<Seq<char>>| #![auto] files_ordered(files_at(root, q)),
        decreases rest.len(),
    {
        let f = rest.remove(0);
        assert(f == fs[i as int]);
        let segs = directory_segments(f.path.as_str());
        let ghost p = path_view(segs@);
        assert(path_view(segs@).subrange(0, segs@.len() as int) =~= p);
        let ghost root0 = root;
        insert_file_into_tree(&mut root, &segs, 0, f);
        proof {
            assert forall|q: Seq<Seq<char>>| #![auto] files_at(root, q).to_multiset() == file_filed_at(fs, q, i + 1) by {
                assert(files_at(root0, q).to_multiset() == file_filed_at(fs, q, i as int));
                assert(fs[i as int] == f);
                if q == p {
                    assert(files_at(root, p).to_multiset() == files_at(root0, p).to_multiset().insert(f));
                } else {
                    assert(files_at(root, q) == files_at(root0, q));
                }
            }
        }
        i = i + 1;
        assert(rest@ =~= fs.subrange(i as int, fs.len() as int));
    }
    let ghost built = root;
    compute_file_tree_stats(&mut root);
    proof {
        assert forall|q: Seq<Seq<char>>| #![auto] files_at(root, q).to_multiset() == file_filed_at(fs, q, n as int)
            && files_ordered(files_at(root, q)) by {
            assert(files_at(root, q) == files_at(built, q));
        }
    }
    root
}

} // verus!
