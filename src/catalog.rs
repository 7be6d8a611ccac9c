//! Catalog model: the directory forest with its rollup counters, and
//! checkpoints of resumable jobs.
use vstd::prelude::*;
use crate::text::{after_last, last_index_of, lemma_last_index, rfind_char, substring, file_name_of};

verus! {

/// A directory of the catalog. `parent` is the position of the parent
/// directory in the catalog's directory list; the counters are the rollups.
pub struct Directory {
    pub id: i64,
    pub path: String,
    pub name: String,
    pub parent: Option<usize>,
    pub file_count: u64,
    pub matched_count: u64,
    pub total_size: u64,
}

/// What a rollup reads of a scanned file: the position of its directory,
/// its size, and whether some manifest entry matches it.
pub struct FileStat {
    pub directory: usize,
    pub size: u64,
    pub matched: bool,
}

/// Parents come before their children, so the parent links form a forest.
pub open spec fn forest(dirs: Seq<Directory>) -> bool {
    forall|d: int| 0 <= d < dirs.len() ==> (#[trigger] dirs[d].parent matches Some(p) ==> p < d)
}

/// Every file belongs to a directory of the list.
pub open spec fn files_placed(dirs: Seq<Directory>, files: Seq<FileStat>) -> bool {
    forall|k: int| 0 <= k < files.len() ==> #[trigger] files[k].directory < dirs.len()
}

/// Directory `x` is `d` or lies below it.
pub open spec fn under(dirs: Seq<Directory>, x: int, d: int) -> bool
    decreases x,
{
    if x == d {
        true
    } else if 0 <= x < dirs.len() {
        match dirs[x].parent {
            Some(p) => if 0 <= p < x { under(dirs, p as int, d) } else { false },
            None => false,
        }
    } else {
        false
    }
}

/// The number of the first `n` files that lie under `d`.
pub open spec fn count_under(dirs: Seq<Directory>, files: Seq<FileStat>, d: int, n: int) -> int
    decreases n,
{
    if n <= 0 {
        0
    } else {
        count_under(dirs, files, d, n - 1) + if under(dirs, files[n - 1].directory as int, d) { 1int } else { 0 }
    }
}

/// The number of the first `n` files that lie under `d` and are matched.
pub open spec fn matched_under(dirs: Seq<Directory>, files: Seq<FileStat>, d: int, n: int) -> int
    decreases n,
{
    if n <= 0 {
        0
    } else {
        matched_under(dirs, files, d, n - 1) + if under(dirs, files[n - 1].directory as int, d)
            && files[n - 1].matched { 1int } else { 0 }
    }
}

/// The total size of the first `n` files that lie under `d`.
pub open spec fn size_under(dirs: Seq<Directory>, files: Seq<FileStat>, d: int, n: int) -> int
    decreases n,
{
    if n <= 0 {
        0
    } else {
        size_under(dirs, files, d, n - 1) + if under(dirs, files[n - 1].directory as int, d) {
            files[n - 1].size as int
        } else {
            0
        }
    }
}

/// The total size of the first `n` files.
pub open spec fn size_total(files: Seq<FileStat>, n: int) -> int
    decreases n,
{
    if n <= 0 {
        0
    } else {
        size_total(files, n - 1) + files[n - 1].size
    }
}

/// Directory `d` of `after` is directory `d` of `before` with its counters
/// set to the rollups over `files`.
pub open spec fn rolled_up(before: Seq<Directory>, after: Seq<Directory>, files: Seq<FileStat>) -> bool {
    &&& after.len() == before.len()
    &&& forall|d: int| 0 <= d < before.len() ==> {
        &&& (#[trigger] after[d]).id == before[d].id
        &&& after[d].path == before[d].path
        &&& after[d].name == before[d].name
        &&& after[d].parent == before[d].parent
        &&& after[d].file_count == count_under(before, files, d, files.len() as int)
        &&& after[d].matched_count == matched_under(before, files, d, files.len() as int)
        &&& after[d].total_size == size_under(before, files, d, files.len() as int)
    }
}

proof fn lemma_under_le(dirs: Seq<Directory>, x: int, d: int)
    requires
        under(dirs, x, d),
    ensures
        d <= x,
    decreases x,
{
    if x != d {
        let p = dirs[x].parent->0;
        lemma_under_le(dirs, p as int, d);
    }
}

proof fn lemma_under_trans(dirs: Seq<Directory>, x: int, y: int, d: int)
    requires
        under(dirs, x, y),
        under(dirs, y, d),
    ensures
        under(dirs, x, d),
    decreases x,
{
    if x != y {
        let p = dirs[x].parent->0;
        lemma_under_trans(dirs, p as int, y, d);
    }
}

proof fn lemma_size_bound(dirs: Seq<Directory>, files: Seq<FileStat>, d: int, n: int)
    ensures
        0 <= size_under(dirs, files, d, n) <= size_total(files, n),
        0 <= count_under(dirs, files, d, n) <= if n < 0 { 0 } else { n },
        0 <= matched_under(dirs, files, d, n) <= count_under(dirs, files, d, n),
    decreases n,
{
    if n > 0 {
        lemma_size_bound(dirs, files, d, n - 1);
    }
}

/// Whether `cur` names a directory that `d` is an ancestor of (or is).
pub open spec fn under_opt(dirs: Seq<Directory>, cur: Option<usize>, d: int) -> bool {
    match cur {
        Some(c) => under(dirs, c as int, d),
        None => false,
    }
}

/// Recomputes every directory's rollup counters from the files: a
/// directory's `file_count`, `matched_count` and `total_size` become the
/// number of files under it (recursively), the number of those that are
/// matched, and the sum of their sizes. The directory list is otherwise
/// unchanged.
pub fn recompute_rollups(dirs: &mut Vec<Directory>, files: &Vec<FileStat>)
    requires
        forest(old(dirs)@),
        files_placed(old(dirs)@, files@),
        size_total(files@, files@.len() as int) <= u64::MAX,
    ensures
        rolled_up(old(dirs)@, final(dirs)@, files@),
{
    let ghost before = dirs@;
    let ghost fs = files@;
    let mut k: usize = 0;
    while k < dirs.len()
        invariant
            forest(before),
            dirs@.len() == before.len(),
            k <= dirs.len(),
            forall|d: int| 0 <= d < before.len() ==> {
                &&& (#[trigger] dirs@[d]).id == before[d].id
                &&& dirs@[d].path == before[d].path
                &&& dirs@[d].name == before[d].name
                &&& dirs@[d].parent == before[d].parent
                &&& d < k ==> dirs@[d].file_count == 0 && dirs@[d].matched_count == 0 && dirs@[d].total_size == 0
            },
        decreases dirs.len() - k,
    {
        dirs[k].file_count = 0;
        dirs[k].matched_count = 0;
        dirs[k].total_size = 0;
        k = k + 1;
    }
    let mut i: usize = 0;
    while i < files.len()
        invariant
            fs == files@,
            forest(before),
            files_placed(before, fs),
            size_total(fs, fs.len() as int) <= u64::MAX,
            dirs@.len() == before.len(),
            i <= files.len(),
            forall|d: int| 0 <= d < before.len() ==> {
                &&& (#[trigger] dirs@[d]).id == before[d].id
                &&& dirs@[d].path == before[d].path
                &&& dirs@[d].name == before[d].name
                &&& dirs@[d].parent == before[d].parent
                &&& dirs@[d].file_count == count_under(before, fs, d, i as int)
                &&& dirs@[d].matched_count == matched_under(before, fs, d, i as int)
                &&& dirs@[d].total_size == size_under(before, fs, d, i as int)
            },
        decreases files.len() - i,
    {
        let f = &files[i];
        let ghost x0 = f.directory as int;
        assert(x0 < before.len());
        let mut cur: Option<usize> = Some(f.directory);
        while cur.is_some()
            invariant
                fs == files@,
                forest(before),
                files_placed(before, fs),
                size_total(fs, fs.len() as int) <= u64::MAX,
                dirs@.len() == before.len(),
                i < files.len(),
                f == files@[i as int],
                x0 == f.directory,
                x0 < before.len(),
                cur matches Some(c) ==> c < before.len() && under(before, x0, c as int),
                forall|d: int| 0 <= d < before.len() ==> {
                    let add = under(before, x0, d) && !under_opt(before, cur, d);
                    &&& (#[trigger] dirs@[d]).id == before[d].id
                    &&& dirs@[d].path == before[d].path
                    &&& dirs@[d].name == before[d].name
                    &&& dirs@[d].parent == before[d].parent
                    &&& dirs@[d].file_count == count_under(before, fs, d, i as int) + if add { 1int } else { 0 }
                    &&& dirs@[d].matched_count == matched_under(before, fs, d, i as int) + if add && f.matched { 1int } else { 0 }
                    &&& dirs@[d].total_size == size_under(before, fs, d, i as int) + if add { f.size as int } else { 0 }
                },
            decreases match cur { Some(c) => c + 1, None => 0 },
        {
            let c = cur.unwrap();
            proof {
                lemma_size_bound(before, fs, c as int, i as int + 1);
                lemma_size_bound(before, fs, c as int, i as int);
                assert(size_total(fs, i as int + 1) <= size_total(fs, fs.len() as int)) by {
                    lemma_total_mono(fs, i as int + 1, fs.len() as int);
                }
                assert(under(before, c as int, c as int));
                if let Some(p) = before[c as int].parent {
                    if under(before, p as int, c as int) {
                        lemma_under_le(before, p as int, c as int);
                    }
                }
            }
            dirs[c].file_count = dirs[c].file_count + 1;
            if f.matched {
                dirs[c].matched_count = dirs[c].matched_count + 1;
            }
            dirs[c].total_size = dirs[c].total_size + f.size;
            let next = dirs[c].parent;
            proof {
                if let Some(p) = next {
                    assert(before[c as int].parent == Some(p));
                    assert(p < c);
                    assert(under(before, p as int, p as int));
                    assert(under(before, c as int, p as int));
                    lemma_under_trans(before, x0, c as int, p as int);
                }
                assert forall|d: int| 0 <= d < before.len() && d != c implies
                    under_opt(before, next, d) == under(before, c as int, d) by {}
            }
            cur = next;
        }
        i = i + 1;
    }
}

proof fn lemma_total_mono(files: Seq<FileStat>, a: int, b: int)
    requires
        0 <= a <= b,
    ensures
        size_total(files, a) <= size_total(files, b),
    decreases b - a,
{
    if a < b {
        lemma_total_mono(files, a, b - 1);
    }
}

/// Two directory lists with the same parent links.
pub open spec fn same_links(a: Seq<Directory>, b: Seq<Directory>) -> bool {
    a.len() == b.len() && forall|d: int| 0 <= d < a.len() ==> (#[trigger] a[d]).parent == b[d].parent
}

proof fn lemma_under_links(a: Seq<Directory>, b: Seq<Directory>, x: int, d: int)
    requires
        same_links(a, b),
    ensures
        under(a, x, d) == under(b, x, d),
    decreases x,
{
    if x != d && 0 <= x < a.len() {
        assert(a[x].parent == b[x].parent);
        if let Some(p) = a[x].parent {
            if 0 <= p < x {
                lemma_under_links(a, b, p as int, d);
            }
        }
    }
}

proof fn lemma_sums_links(a: Seq<Directory>, b: Seq<Directory>, files: Seq<FileStat>, d: int, n: int)
    requires
        same_links(a, b),
    ensures
        count_under(a, files, d, n) == count_under(b, files, d, n),
        matched_under(a, files, d, n) == matched_under(b, files, d, n),
        size_under(a, files, d, n) == size_under(b, files, d, n),
    decreases n,
{
    if n > 0 {
        lemma_sums_links(a, b, files, d, n - 1);
        lemma_under_links(a, b, files[n - 1].directory as int, d);
    }
}

/// Recomputing the rollups is idempotent: a second recomputation over the
/// same files leaves every directory exactly as the first one did.
pub proof fn lemma_rollups_idempotent(
    d0: Seq<Directory>,
    d1: Seq<Directory>,
    d2: Seq<Directory>,
    files: Seq<FileStat>,
)
    requires
        forest(d0),
        files_placed(d0, files),
        rolled_up(d0, d1, files),
        rolled_up(d1, d2, files),
    ensures
        forest(d1),
        files_placed(d1, files),
        d2 == d1,
{
    assert(same_links(d0, d1)) by {
        assert forall|d: int| 0 <= d < d0.len() implies (#[trigger] d0[d]).parent == d1[d].parent by {
            assert(d1[d].parent == d0[d].parent);
        }
    }
    assert forall|d: int| 0 <= d < d1.len() implies (#[trigger] d1[d].parent matches Some(p) ==> p < d) by {
        assert(d1[d].parent == d0[d].parent);
    }
    assert forall|k: int| 0 <= k < files.len() implies #[trigger] files[k].directory < d1.len() by {}
    assert forall|d: int| 0 <= d < d1.len() implies d2[d] == d1[d] by {
        assert(d1[d].parent == d0[d].parent);
        lemma_sums_links(d0, d1, files, d, files.len() as int);
    }
    assert(d2 =~= d1);
}


/// A directory row as the catalog stores it.
pub struct DirRow {
    pub id: i64,
    pub path: String,
    pub name: String,
    pub parent_id: Option<i64>,
}

/// Why directory rows do not form a forest.
#[derive(Debug, PartialEq, Eq, Structural, Clone, Copy)]
pub enum ForestError {
    /// The rows are not in strictly increasing id order.
    Unordered { id: i64 },
    /// A row's parent is not a row with a smaller id.
    UnknownParent { id: i64, parent_id: i64 },
}

/// The ids strictly increase.
pub open spec fn ids_increasing(ids: Seq<i64>) -> bool {
    forall|a: int, b: int| 0 <= a < b < ids.len() ==> ids[a] < ids[b]
}

pub open spec fn row_ids(rows: Seq<DirRow>) -> Seq<i64> {
    rows.map_values(|r: DirRow| r.id)
}

/// Finds the position of `id` among strictly increasing ids.
pub fn index_of_id(ids: &Vec<i64>, id: i64) -> (r: Option<usize>)
    requires
        ids_increasing(ids@),
    ensures
        r matches Some(k) ==> k < ids.len() && ids@[k as int] == id,
        r is None ==> forall|k: int| 0 <= k < ids.len() ==> ids@[k] != id,
{
    let mut lo: usize = 0;
    let mut hi: usize = ids.len();
    while lo < hi
        invariant
            ids_increasing(ids@),
            lo <= hi <= ids.len(),
            forall|k: int| 0 <= k < lo ==> ids@[k] < id,
            forall|k: int| hi <= k < ids.len() ==> ids@[k] > id,
        decreases hi - lo,
    {
        let mid = lo + (hi - lo) / 2;
        if ids[mid] == id {
            return Some(mid);
        } else if ids[mid] < id {
            lo = mid + 1;
        } else {
            hi = mid;
        }
    }
    None
}

/// The rows linked into a directory forest with zero counters: the parent
/// of each directory is the position of the row with its parent id.
pub open spec fn linked(rows: Seq<DirRow>, dirs: Seq<Directory>) -> bool {
    &&& dirs.len() == rows.len()
    &&& forall|k: int| 0 <= k < rows.len() ==> {
        &&& (#[trigger] dirs[k]).id == rows[k].id
        &&& dirs[k].path == rows[k].path
        &&& dirs[k].name == rows[k].name
        &&& dirs[k].file_count == 0 && dirs[k].matched_count == 0 && dirs[k].total_size == 0
        &&& match rows[k].parent_id {
            Some(pid) => dirs[k].parent matches Some(p) && p < k && rows[p as int].id == pid,
            None => dirs[k].parent is None,
        }
    }
}

/// Links directory rows, ordered by id, into a forest. Fails when the ids
/// do not strictly increase, or when a parent is not a row with a smaller id.
pub fn link_directories(rows: Vec<DirRow>) -> (r: Result<Vec<Directory>, ForestError>)
    ensures
        r is Ok <==> ids_increasing(row_ids(rows@)) && forall|k: int| 0 <= k < rows@.len() ==>
            ((#[trigger] rows@[k]).parent_id matches Some(pid) ==> exists|p: int| 0 <= p < k && rows@[p].id == pid),
        r matches Ok(dirs) ==> linked(rows@, dirs@) && forest(dirs@),
{
    let ghost rs = rows@;
    let mut ids: Vec<i64> = Vec::new();
    let mut i: usize = 0;
    while i < rows.len()
        invariant
            rs == rows@,
            i <= rows.len(),
            ids@ == row_ids(rs).subrange(0, i as int),
            ids_increasing(ids@),
        decreases rows.len() - i,
    {
        if i > 0 && rows[i].id <= rows[i - 1].id {
            assert(!ids_increasing(row_ids(rs))) by {
                assert(row_ids(rs)[i - 1] == rs[i - 1].id);
                assert(row_ids(rs)[i as int] == rs[i as int].id);
            }
            return Err(ForestError::Unordered { id: rows[i].id });
        }
        ids.push(rows[i].id);
        proof {
            assert(ids@ =~= row_ids(rs).subrange(0, i + 1));
            assert forall|a: int, b: int| 0 <= a < b < ids@.len() implies ids@[a] < ids@[b] by {
                if b == i && a < i - 1 {
                    assert(ids@[a] < ids@[i - 1]);
                }
            }
        }
        i = i + 1;
    }
    assert(ids@ =~= row_ids(rs));
    let mut dirs: Vec<Directory> = Vec::new();
    let mut k: usize = 0;
    while k < rows.len()
        invariant
            rs == rows@,
            ids@ == row_ids(rs),
            ids_increasing(ids@),
            k <= rows.len(),
            linked(rs.subrange(0, k as int), dirs@),
            forest(dirs@),
            forall|j: int| 0 <= j < k ==> ((#[trigger] rs[j]).parent_id matches Some(pid) ==> exists|p: int| 0 <= p < j && rs[p].id == pid),
        decreases rows.len() - k,
    {
        let parent = match rows[k].parent_id {
            Some(pid) => match index_of_id(&ids, pid) {
                Some(p) => {
                    if p >= k {
                        assert forall|q: int| 0 <= q < k implies rs[q].id != pid by {
                            assert(ids@[q] == rs[q].id);
                            assert(ids@[p as int] == rs[p as int].id);
                            if q < p {
                                assert(ids@[q] < ids@[p as int]);
                            }
                        }
                        return Err(ForestError::UnknownParent { id: rows[k].id, parent_id: pid });
                    }
                    assert(ids@[p as int] == rs[p as int].id);
                    Some(p)
                },
                None => {
                    assert forall|q: int| 0 <= q < k implies rs[q].id != pid by {
                        assert(ids@[q] == rs[q].id);
                    }
                    return Err(ForestError::UnknownParent { id: rows[k].id, parent_id: pid });
                },
            },
            None => None,
        };
        let ghost before = dirs@;
        dirs.push(Directory {
            id: rows[k].id,
            path: rows[k].path.clone(),
            name: rows[k].name.clone(),
            parent,
            file_count: 0,
            matched_count: 0,
            total_size: 0,
        });
        proof {
            assert forall|j: int| 0 <= j < k + 1 implies (#[trigger] dirs@[j]).parent matches Some(q) ==> q < j by {
                if j < k {
                    assert(dirs@[j] == before[j]);
                }
            }
            let sub = rs.subrange(0, k + 1);
            assert forall|j: int| 0 <= j < sub.len() implies {
                &&& (#[trigger] dirs@[j]).id == sub[j].id
                &&& dirs@[j].path == sub[j].path
                &&& dirs@[j].name == sub[j].name
                &&& dirs@[j].file_count == 0 && dirs@[j].matched_count == 0 && dirs@[j].total_size == 0
                &&& match sub[j].parent_id {
                    Some(pid) => dirs@[j].parent matches Some(p) && p < j && sub[p as int].id == pid,
                    None => dirs@[j].parent is None,
                }
            } by {
                if j < k {
                    assert(dirs@[j] == before[j]);
                    assert(sub[j] == rs.subrange(0, k as int)[j]);
                    if let Some(p) = dirs@[j].parent {
                        assert(sub[p as int] == rs.subrange(0, k as int)[p as int]);
                    }
                }
            }
            if let Some(pid) = rs[k as int].parent_id {
                let p = parent->0;
                assert(0 <= p < k && rs[p as int].id == pid);
            }
        }
        k = k + 1;
    }
    assert(rs.subrange(0, k as int) =~= rs);
    Ok(dirs)
}

/// The parent of a directory path; `None` for a top-level directory.
pub open spec fn parent_path(path: Seq<char>) -> Option<Seq<char>> {
    match last_index_of(path, '/') {
        Some(i) => if i == 0 { None } else { Some(path.subrange(0, i)) },
        None => None,
    }
}

/// The short name of a directory: its last path component, or the whole
/// path when that is empty.
pub open spec fn short_name(path: Seq<char>) -> Seq<char> {
    let n = after_last(path, '/');
    if n.len() == 0 { path } else { n }
}

/// Computes the parent of a directory path.
pub fn parent_dir(path: &str) -> (r: Option<String>)
    ensures
        r matches Some(p) ==> parent_path(path@) == Some(p@),
        r is None ==> parent_path(path@) is None,
{
    proof {
        lemma_last_index(path@, '/');
    }
    match rfind_char(path, '/') {
        Some(i) => if i == 0 {
            None
        } else {
            Some(substring(path, 0, i))
        },
        None => None,
    }
}

/// Computes the short name of a directory path.
pub fn dir_name(path: &str) -> (r: String)
    ensures
        r@ == short_name(path@),
{
    let n = file_name_of(path);
    if n.unicode_len() == 0 {
        path.to_owned()
    } else {
        n
    }
}

} // verus!
