//! Scanner logic: scanned-file records, archive path encoding, work-item
//! classification and incremental reconciliation against the catalog.
use vstd::prelude::*;
use vstd::string::StringExecFns;
use crate::organise::{lemma_lex_total, lemma_lex_trans, lex_less, lex_lt};
use crate::text::{
    after_last, find_char, first_index_of, last_index_of, lemma_first_index, lemma_last_index, rfind_char,
    str_eq, substring, file_name_of,
};

verus! {

/// One concrete file found on disk or inside an archive.
pub struct ScannedFile {
    pub path: String,
    pub filename: String,
    pub size: u64,
    pub mtime: Option<i64>,
    pub crc32: String,
    pub md5: String,
    pub sha1: String,
}

impl Clone for ScannedFile {
    fn clone(&self) -> (r: Self)
        ensures
            r == *self,
    {
        ScannedFile {
            path: self.path.clone(),
            filename: self.filename.clone(),
            size: self.size,
            mtime: self.mtime,
            crc32: self.crc32.clone(),
            md5: self.md5.clone(),
            sha1: self.sha1.clone(),
        }
    }
}


/// The path of an archive-interior file: the container's path, `#`, then
/// the entry's path inside the container.
pub open spec fn interior_path(container: Seq<char>, entry: Seq<char>) -> Seq<char> {
    container + seq!['#'] + entry
}

/// Splits an archive-interior path at its first `#` into the container's
/// path and the entry's path; `None` for a loose file.
pub open spec fn split_interior(path: Seq<char>) -> Option<(Seq<char>, Seq<char>)> {
    match first_index_of(path, '#') {
        Some(i) => Some((path.subrange(0, i), path.subrange(i + 1, path.len() as int))),
        None => None,
    }
}

/// Builds the path of an entry inside a container.
pub fn archive_entry_path(container: &str, entry: &str) -> (r: String)
    ensures
        r@ == interior_path(container@, entry@),
{
    let mut p = container.to_owned();
    p.append("#");
    p.append(entry);
    proof {
        reveal_strlit("#");
    }
    assert(p@ =~= interior_path(container@, entry@));
    p
}

/// Splits an archive-interior path into container and entry paths.
pub fn split_archive_path(path: &str) -> (r: Option<(String, String)>)
    ensures
        r matches Some((c, e)) ==> split_interior(path@) == Some((c@, e@)),
        r is None ==> split_interior(path@) is None,
{
    proof {
        lemma_first_index(path@, '#');
    }
    let n = path.unicode_len();
    match find_char(path, '#') {
        Some(i) => Some((substring(path, 0, i), substring(path, i + 1, n))),
        None => None,
    }
}

/// An archive-interior path splits back into the container and entry it
/// was built from, whenever the container's path holds no `#`; so the part
/// before the first `#` of such a path is the container file.
pub proof fn lemma_interior_round_trip(container: Seq<char>, entry: Seq<char>)
    requires
        forall|k: int| 0 <= k < container.len() ==> container[k] != '#',
    ensures
        split_interior(interior_path(container, entry)) == Some((container, entry)),
{
    let p = interior_path(container, entry);
    let n = container.len() as int;
    assert(p[n] == '#');
    assert forall|k: int| 0 <= k < n implies p[k] != '#' by {
        assert(p[k] == container[k]);
    }
    lemma_first_index(p, '#');
    if first_index_of(p, '#') != Some(n) {
        match first_index_of(p, '#') {
            Some(i) => {
                assert(i <= n);
            },
            None => {
                assert(p[n] != '#');
            },
        }
    }
    assert(p.subrange(0, n) =~= container);
    assert(p.subrange(n + 1, p.len() as int) =~= entry);
}

/// The scanned record of an archive entry: its interior path, the last
/// component of the entry's path as its file name, the container's mtime,
/// and the entry's size and digests.
pub fn archive_entry_file(
    container: &str,
    entry: &str,
    size: u64,
    container_mtime: Option<i64>,
    crc32: String,
    md5: String,
    sha1: String,
) -> (r: ScannedFile)
    ensures
        r.path@ == interior_path(container@, entry@),
        r.filename@ == after_last(entry@, '/'),
        r.size == size,
        r.mtime == container_mtime,
        r.crc32 == crc32,
        r.md5 == md5,
        r.sha1 == sha1,
{
    ScannedFile {
        path: archive_entry_path(container, entry),
        filename: file_name_of(entry),
        size,
        mtime: container_mtime,
        crc32,
        md5,
        sha1,
    }
}

/// The code of the ASCII lowercase of a character; other characters keep their code.
pub open spec fn ascii_lower(c: char) -> int {
    if 'A' <= c <= 'Z' { (c as int) + 32 } else { c as int }
}

/// Equality of two strings up to ASCII case.
pub open spec fn eq_ascii_nocase(a: Seq<char>, b: Seq<char>) -> bool {
    a.len() == b.len() && forall|i: int| 0 <= i < a.len() ==> ascii_lower(#[trigger] a[i]) == ascii_lower(b[i])
}

fn lower_ascii_char(c: char) -> (r: u32)
    ensures
        r == ascii_lower(c),
{
    if 'A' <= c && c <= 'Z' {
        c as u32 + 32
    } else {
        c as u32
    }
}

/// Compares two strings ignoring ASCII case.
pub fn eq_ignore_ascii_case(a: &str, b: &str) -> (r: bool)
    ensures
        r == eq_ascii_nocase(a@, b@),
{
    let n = a.unicode_len();
    if n != b.unicode_len() {
        return false;
    }
    let mut i: usize = 0;
    while i < n
        invariant
            n == a@.len(),
            n == b@.len(),
            i <= n,
            forall|k: int| 0 <= k < i ==> ascii_lower(#[trigger] a@[k]) == ascii_lower(b@[k]),
        decreases n - i,
    {
        if lower_ascii_char(a.get_char(i)) != lower_ascii_char(b.get_char(i)) {
            return false;
        }
        i = i + 1;
    }
    true
}

/// The extension of a path: what follows the last `.` of its file name,
/// unless that dot opens the name.
pub open spec fn extension_of(path: Seq<char>) -> Option<Seq<char>> {
    let name = after_last(path, '/');
    match last_index_of(name, '.') {
        Some(i) => if i > 0 { Some(name.subrange(i + 1, name.len() as int)) } else { None },
        None => None,
    }
}

/// Computes the extension of a path.
pub fn extension(path: &str) -> (r: Option<String>)
    ensures
        r matches Some(e) ==> extension_of(path@) == Some(e@),
        r is None ==> extension_of(path@) is None,
{
    let name = file_name_of(path);
    let n = name.unicode_len();
    proof {
        lemma_last_index(name@, '.');
    }
    match rfind_char(name.as_str(), '.') {
        Some(i) => if i > 0 {
            Some(substring(name.as_str(), i + 1, n))
        } else {
            None
        },
        None => None,
    }
}

/// The path's extension is `ext`, ignoring ASCII case.
pub open spec fn has_extension(path: Seq<char>, ext: Seq<char>) -> bool {
    extension_of(path) matches Some(e) && eq_ascii_nocase(e, ext)
}

/// Whether a path names a ZIP container.
pub fn is_zip_file(path: &str) -> (r: bool)
    ensures
        r == has_extension(path@, "zip"@),
{
    match extension(path) {
        Some(e) => eq_ignore_ascii_case(e.as_str(), "zip"),
        None => false,
    }
}

/// Whether a path names a 7z container.
pub fn is_7z_file(path: &str) -> (r: bool)
    ensures
        r == has_extension(path@, "7z"@),
{
    match extension(path) {
        Some(e) => eq_ignore_ascii_case(e.as_str(), "7z"),
        None => false,
    }
}

/// How the scanner handles a discovered regular file.
#[derive(Debug, PartialEq, Eq, Structural, Clone, Copy)]
pub enum WorkKind {
    LooseFile,
    ZipContainer,
    SevenZContainer,
}

/// The work kind of a path, by extension.
pub open spec fn work_kind_of(path: Seq<char>) -> WorkKind {
    if has_extension(path, "zip"@) {
        WorkKind::ZipContainer
    } else if has_extension(path, "7z"@) {
        WorkKind::SevenZContainer
    } else {
        WorkKind::LooseFile
    }
}

/// Classifies a discovered regular file.
pub fn classify_path(path: &str) -> (r: WorkKind)
    ensures
        r == work_kind_of(path@),
{
    if is_zip_file(path) {
        WorkKind::ZipContainer
    } else if is_7z_file(path) {
        WorkKind::SevenZContainer
    } else {
        WorkKind::LooseFile
    }
}


/// A file row already in the catalog: its path, size and mtime.
pub struct KnownFile {
    pub path: String,
    pub size: u64,
    pub mtime: Option<i64>,
}

/// How a scanned file relates to the catalog before the scan.
#[derive(Debug, PartialEq, Eq, Structural, Clone, Copy)]
pub enum Change {
    New,
    Updated,
    Unchanged,
}

/// What the catalog knows of each path: its size and mtime.
pub type Snapshot = Map<Seq<char>, (u64, Option<i64>)>;

/// The catalog's view of the first `n` known rows.
pub open spec fn known_upto(rows: Seq<KnownFile>, n: int) -> Snapshot
    decreases n,
{
    if n <= 0 {
        Map::empty()
    } else {
        known_upto(rows, n - 1).insert(rows[n - 1].path@, (rows[n - 1].size, rows[n - 1].mtime))
    }
}

pub open spec fn known(rows: Seq<KnownFile>) -> Snapshot {
    known_upto(rows, rows.len() as int)
}

/// No two rows share a path.
pub open spec fn unique_paths(rows: Seq<KnownFile>) -> bool {
    forall|i: int, j: int| 0 <= i < j < rows.len() ==> (#[trigger] rows[i]).path@ != (#[trigger] rows[j]).path@
}

/// No two scanned files share a path.
pub open spec fn distinct_scanned(fs: Seq<ScannedFile>) -> bool {
    forall|i: int, j: int| 0 <= i < j < fs.len() ==> (#[trigger] fs[i]).path@ != (#[trigger] fs[j]).path@
}

/// A scanned file is unchanged when the catalog has its path with the same
/// size and mtime, updated when it has the path otherwise, and new else.
pub open spec fn change_of(snap: Snapshot, f: ScannedFile) -> Change {
    change_of_parts(snap, f.path@, f.size, f.mtime)
}

/// The change of a file at `path` with this size and mtime.
pub open spec fn change_of_parts(snap: Snapshot, path: Seq<char>, size: u64, mtime: Option<i64>) -> Change {
    if snap.contains_key(path) {
        if snap[path] == (size, mtime) { Change::Unchanged } else { Change::Updated }
    } else {
        Change::New
    }
}

/// The rows are in strictly increasing path order (by character code, the
/// order of the catalog's `ORDER BY path`).
pub open spec fn sorted_paths(rows: Seq<KnownFile>) -> bool {
    forall|i: int, j: int| 0 <= i < j < rows.len() ==> lex_lt((#[trigger] rows[i]).path@, (#[trigger] rows[j]).path@)
}

/// Whether the rows are in strictly increasing path order.
pub fn paths_increasing(rows: &Vec<KnownFile>) -> (r: bool)
    ensures
        r == sorted_paths(rows@),
{
    let mut i: usize = 1;
    if rows.len() == 0 {
        return true;
    }
    while i < rows.len()
        invariant
            1 <= i <= rows.len(),
            forall|a: int, b: int| 0 <= a < b < i ==> lex_lt((#[trigger] rows@[a]).path@, (#[trigger] rows@[b]).path@),
        decreases rows.len() - i,
    {
        if !lex_less(rows[i - 1].path.as_str(), rows[i].path.as_str()) {
            return false;
        }
        proof {
            assert forall|a: int, b: int| 0 <= a < b < i + 1 implies lex_lt((#[trigger] rows@[a]).path@, (#[trigger] rows@[b]).path@) by {
                if b == i && a < i - 1 {
                    lemma_lex_trans(rows@[a].path@, rows@[i - 1].path@, rows@[i as int].path@);
                }
            }
        }
        i = i + 1;
    }
    true
}

/// Finds the row with path `p` by binary search.
fn find_sorted(rows: &Vec<KnownFile>, p: &str) -> (r: Option<usize>)
    requires
        sorted_paths(rows@),
    ensures
        r matches Some(i) ==> i < rows.len() && rows@[i as int].path@ == p@,
        r is None ==> forall|i: int| 0 <= i < rows.len() ==> (#[trigger] rows@[i]).path@ != p@,
{
    let mut lo: usize = 0;
    let mut hi: usize = rows.len();
    while lo < hi
        invariant
            sorted_paths(rows@),
            lo <= hi <= rows.len(),
            forall|k: int| 0 <= k < lo ==> lex_lt((#[trigger] rows@[k]).path@, p@),
            forall|k: int| hi <= k < rows.len() ==> lex_lt(p@, (#[trigger] rows@[k]).path@),
        decreases hi - lo,
    {
        let mid = lo + (hi - lo) / 2;
        let m = rows[mid].path.as_str();
        if str_eq(m, p) {
            return Some(mid);
        }
        proof {
            lemma_lex_total(m@, p@);
        }
        if lex_less(m, p) {
            proof {
                assert forall|k: int| 0 <= k < mid + 1 implies lex_lt((#[trigger] rows@[k]).path@, p@) by {
                    if k < mid {
                        lemma_lex_trans(rows@[k].path@, m@, p@);
                    }
                }
            }
            lo = mid + 1;
        } else {
            proof {
                assert forall|k: int| mid <= k < rows.len() implies lex_lt(p@, (#[trigger] rows@[k]).path@) by {
                    if k > mid {
                        lemma_lex_trans(p@, m@, rows@[k].path@);
                    }
                }
            }
            hi = mid;
        }
    }
    proof {
        assert forall|i: int| 0 <= i < rows.len() implies (#[trigger] rows@[i]).path@ != p@ by {
            lemma_lex_total(p@, p@);
        }
    }
    None
}

fn find_linear(rows: &Vec<KnownFile>, p: &str) -> (r: Option<usize>)
    ensures
        r matches Some(i) ==> i < rows.len() && rows@[i as int].path@ == p@,
        r is None ==> forall|i: int| 0 <= i < rows.len() ==> (#[trigger] rows@[i]).path@ != p@,
{
    let mut i: usize = 0;
    while i < rows.len()
        invariant
            i <= rows.len(),
            forall|k: int| 0 <= k < i ==> (#[trigger] rows@[k]).path@ != p@,
        decreases rows.len() - i,
    {
        if str_eq(rows[i].path.as_str(), p) {
            return Some(i);
        }
        i = i + 1;
    }
    None
}

/// The catalog's file rows as a scan finds them, with unique paths. Rows
/// that come in path order (as the catalog's `ORDER BY path` gives them)
/// are looked up by binary search, others one by one.
pub struct KnownFiles {
    rows: Vec<KnownFile>,
    sorted: bool,
}

impl KnownFiles {
    /// The rows, in the order given.
    pub closed spec fn rows(&self) -> Seq<KnownFile> {
        self.rows@
    }

    /// The paths are unique, and the recorded order holds.
    pub closed spec fn wf(&self) -> bool {
        unique_paths(self.rows@) && (self.sorted ==> sorted_paths(self.rows@))
    }

    /// Takes the catalog rows, whose paths are unique.
    pub fn new(rows: Vec<KnownFile>) -> (r: Self)
        requires
            unique_paths(rows@),
        ensures
            r.wf(),
            r.rows() == rows@,
    {
        let sorted = paths_increasing(&rows);
        KnownFiles { rows, sorted }
    }

    /// The number of rows.
    pub fn len(&self) -> (r: usize)
        ensures
            r == self.rows().len(),
    {
        self.rows.len()
    }

    /// Finds the row with path `p`.
    pub fn lookup(&self, p: &str) -> (r: Option<usize>)
        requires
            self.wf(),
        ensures
            r matches Some(i) ==> i < self.rows().len() && self.rows()[i as int].path@ == p@,
            r is None ==> forall|i: int| 0 <= i < self.rows().len() ==> (#[trigger] self.rows()[i]).path@ != p@,
    {
        if self.sorted {
            find_sorted(&self.rows, p)
        } else {
            find_linear(&self.rows, p)
        }
    }

    /// How a file at `path` with this size and mtime relates to the
    /// catalog; an unchanged file need not be hashed again.
    pub fn change_for(&self, path: &str, size: u64, mtime: Option<i64>) -> (r: Change)
        requires
            self.wf(),
        ensures
            r == change_of_parts(known(self.rows()), path@, size, mtime),
    {
        proof {
            lemma_known_lookup(self.rows@, self.rows@.len() as int, path@);
        }
        match self.lookup(path) {
            Some(k) => {
                if self.rows[k].size == size && self.rows[k].mtime == mtime {
                    Change::Unchanged
                } else {
                    Change::Updated
                }
            },
            None => Change::New,
        }
    }
}

/// `p` lies under the scan root: it is the root, or continues it past a
/// `/` (or a `#`, for the entries of a container given as root).
pub open spec fn under_root(p: Seq<char>, root: Seq<char>) -> bool {
    &&& root.len() <= p.len()
    &&& p.subrange(0, root.len() as int) == root
    &&& (p.len() == root.len() || (root.len() > 0 && root.last() == '/') || p[root.len() as int] == '/'
        || p[root.len() as int] == '#')
}

/// Some scanned file has path `p`.
pub open spec fn seen(fs: Seq<ScannedFile>, p: Seq<char>) -> bool {
    exists|j: int| 0 <= j < fs.len() && (#[trigger] fs[j]).path@ == p
}

/// A catalog path is removed by a scan when it lies under the root and the
/// scan did not observe it.
pub open spec fn removed_by(fs: Seq<ScannedFile>, root: Seq<char>, p: Seq<char>) -> bool {
    under_root(p, root) && !seen(fs, p)
}

/// The paths among the first `n` rows that the scan removes, in row order.
pub open spec fn removed_upto(rows: Seq<KnownFile>, fs: Seq<ScannedFile>, root: Seq<char>, n: int) -> Seq<Seq<char>>
    decreases n,
{
    if n <= 0 {
        Seq::empty()
    } else {
        let prev = removed_upto(rows, fs, root, n - 1);
        if removed_by(fs, root, rows[n - 1].path@) { prev.push(rows[n - 1].path@) } else { prev }
    }
}

/// The number of the first `n` changes of kind `k`.
pub open spec fn count_change(cs: Seq<Change>, k: Change, n: int) -> int
    decreases n,
{
    if n <= 0 {
        0
    } else {
        count_change(cs, k, n - 1) + if cs[n - 1] == k { 1int } else { 0 }
    }
}

/// The outcome of reconciling a scan with the catalog: the change of each
/// scanned file, their counts, and the catalog paths to delete.
pub struct Reconciliation {
    pub changes: Vec<Change>,
    pub new_files: usize,
    pub updated_files: usize,
    pub unchanged_files: usize,
    pub removed: Vec<String>,
}

pub open spec fn changes_of(snap: Snapshot, fs: Seq<ScannedFile>) -> Seq<Change> {
    fs.map_values(|f: ScannedFile| change_of(snap, f))
}

pub open spec fn paths_view(v: Seq<String>) -> Seq<Seq<char>> {
    v.map_values(|s: String| s@)
}

proof fn lemma_known_lookup(rows: Seq<KnownFile>, n: int, p: Seq<char>)
    requires
        0 <= n <= rows.len(),
        unique_paths(rows),
    ensures
        known_upto(rows, n).contains_key(p) <==> exists|i: int| 0 <= i < n && (#[trigger] rows[i]).path@ == p,
        forall|i: int| 0 <= i < n && (#[trigger] rows[i]).path@ == p ==> known_upto(rows, n)[p] == (rows[i].size, rows[i].mtime),
    decreases n,
{
    if n > 0 {
        lemma_known_lookup(rows, n - 1, p);
        if known_upto(rows, n).contains_key(p) && rows[n - 1].path@ == p {
            assert(0 <= n - 1 < n && rows[n - 1].path@ == p);
        }
    }
}

/// Whether `p` lies under the scan root.
pub fn is_under_root(p: &str, root: &str) -> (r: bool)
    ensures
        r == under_root(p@, root@),
{
    let n = p.unicode_len();
    let m = root.unicode_len();
    if m > n {
        return false;
    }
    let head = p.substring_char(0, m);
    if !str_eq(head, root) {
        return false;
    }
    n == m || (m > 0 && root.get_char(m - 1) == '/') || p.get_char(m) == '/' || p.get_char(m) == '#'
}

/// Reconciles a scan of `root` with the catalog rows that existed before
/// it (in path order): each scanned file is new, updated or unchanged (same
/// path, size and mtime; such a file is neither re-hashed nor rewritten),
/// and every catalog path under the root that the scan did not observe is
/// removed. Paths outside the root are left alone.
pub fn reconcile(existing: &KnownFiles, scanned: &Vec<ScannedFile>, root: &str) -> (r: Reconciliation)
    requires
        existing.wf(),
    ensures
        r.changes@ == changes_of(known(existing.rows()), scanned@),
        r.new_files == count_change(r.changes@, Change::New, scanned@.len() as int),
        r.updated_files == count_change(r.changes@, Change::Updated, scanned@.len() as int),
        r.unchanged_files == count_change(r.changes@, Change::Unchanged, scanned@.len() as int),
        paths_view(r.removed@) == removed_upto(existing.rows(), scanned@, root@, existing.rows().len() as int),
{
    let rows = &existing.rows;
    let ghost snap = known(rows@);
    let ghost target = changes_of(snap, scanned@);
    let ghost fs = scanned@;
    let mut changes: Vec<Change> = Vec::new();
    let mut new_files: usize = 0;
    let mut updated_files: usize = 0;
    let mut unchanged_files: usize = 0;
    let mut seen_rows: Vec<bool> = Vec::new();
    let mut k: usize = 0;
    while k < rows.len()
        invariant
            k <= rows.len(),
            seen_rows.len() == k,
            forall|m: int| 0 <= m < k ==> !seen_rows@[m],
        decreases rows.len() - k,
    {
        seen_rows.push(false);
        k = k + 1;
    }
    let mut i: usize = 0;
    while i < scanned.len()
        invariant
            existing.wf(),
            rows@ == existing.rows(),
            unique_paths(rows@),
            snap == known(rows@),
            target == changes_of(snap, scanned@),
            fs == scanned@,
            i <= scanned.len(),
            changes@ == target.subrange(0, i as int),
            new_files == count_change(changes@, Change::New, i as int),
            updated_files == count_change(changes@, Change::Updated, i as int),
            unchanged_files == count_change(changes@, Change::Unchanged, i as int),
            new_files + updated_files + unchanged_files == i,
            seen_rows.len() == rows.len(),
            forall|m: int| 0 <= m < rows.len() ==> seen_rows@[m] == (exists|j: int| 0 <= j < i && (#[trigger] fs[j]).path@ == rows@[m].path@),
        decreases scanned.len() - i,
    {
        let f = &scanned[i];
        proof {
            lemma_known_lookup(rows@, rows@.len() as int, f.path@);
        }
        let found = existing.lookup(f.path.as_str());
        let c = match found {
            Some(k) => {
                if rows[k].size == f.size && rows[k].mtime == f.mtime {
                    Change::Unchanged
                } else {
                    Change::Updated
                }
            },
            None => Change::New,
        };
        assert(c == target[i as int]);
        if let Some(k) = found {
            seen_rows.set(k, true);
        }
        proof {
            assert forall|m: int| 0 <= m < rows.len() implies seen_rows@[m] == (exists|j: int| 0 <= j < i + 1 && (#[trigger] fs[j]).path@ == rows@[m].path@) by {
                if rows@[m].path@ == fs[i as int].path@ {
                    assert(0 <= i < i + 1 && fs[i as int].path@ == rows@[m].path@);
                    match found {
                        Some(k) => {
                            if k != m {
                                if (k as int) < m {
                                    assert(rows@[k as int].path@ != rows@[m].path@);
                                } else {
                                    assert(rows@[m].path@ != rows@[k as int].path@);
                                }
                            }
                        },
                        None => {},
                    }
                } else {
                    if exists|j: int| 0 <= j < i + 1 && (#[trigger] fs[j]).path@ == rows@[m].path@ {
                        let j = choose|j: int| 0 <= j < i + 1 && (#[trigger] fs[j]).path@ == rows@[m].path@;
                        assert(j < i);
                    }
                }
            }
        }
        let ghost before = changes@;
        changes.push(c);
        proof {
            assert(changes@.subrange(0, i as int) =~= before);
            lemma_count_prefix(changes@, before, i as int);
        }
        match c {
            Change::New => { new_files = new_files + 1; },
            Change::Updated => { updated_files = updated_files + 1; },
            Change::Unchanged => { unchanged_files = unchanged_files + 1; },
        }
        assert(changes@ =~= target.subrange(0, i + 1));
        i = i + 1;
    }
    assert(changes@ =~= target);
    let mut removed: Vec<String> = Vec::new();
    let mut k: usize = 0;
    while k < rows.len()
        invariant
            fs == scanned@,
            k <= rows.len(),
            seen_rows.len() == rows.len(),
            forall|m: int| 0 <= m < rows.len() ==> seen_rows@[m] == (exists|j: int| 0 <= j < fs.len() && (#[trigger] fs[j]).path@ == rows@[m].path@),
            paths_view(removed@) == removed_upto(rows@, scanned@, root@, k as int),
        decreases rows.len() - k,
    {
        let p = rows[k].path.as_str();
        assert(seen_rows@[k as int] == seen(fs, rows@[k as int].path@));
        if is_under_root(p, root) && !seen_rows[k] {
            let ghost before = removed@;
            removed.push(rows[k].path.clone());
            assert(paths_view(removed@) =~= paths_view(before).push(rows@[k as int].path@));
        }
        k = k + 1;
    }
    Reconciliation { changes, new_files, updated_files, unchanged_files, removed }
}

proof fn lemma_count_prefix(cs: Seq<Change>, prefix: Seq<Change>, n: int)
    requires
        0 <= n < cs.len(),
        cs.subrange(0, n) == prefix,
    ensures
        forall|k: Change| count_change(cs, k, n) == count_change(prefix, k, n),
{
    assert forall|k: Change| count_change(cs, k, n) == count_change(prefix, k, n) by {
        lemma_count_same(cs, prefix, k, n);
    }
}

proof fn lemma_count_same(a: Seq<Change>, b: Seq<Change>, k: Change, n: int)
    requires
        0 <= n <= a.len(),
        n <= b.len(),
        forall|i: int| 0 <= i < n ==> a[i] == b[i],
    ensures
        count_change(a, k, n) == count_change(b, k, n),
    decreases n,
{
    if n > 0 {
        lemma_count_same(a, b, k, n - 1);
    }
}

/// The catalog after a scan of `root` is written: observed files carry
/// their scanned size and mtime, removed paths are gone, and everything
/// else is as before.
pub open spec fn after_scan(snap: Snapshot, fs: Seq<ScannedFile>, root: Seq<char>) -> Snapshot {
    Map::new(
        |p: Seq<char>| seen(fs, p) || (snap.contains_key(p) && !removed_by(fs, root, p)),
        |p: Seq<char>| if seen(fs, p) {
            let j = choose|j: int| 0 <= j < fs.len() && (#[trigger] fs[j]).path@ == p;
            (fs[j].size, fs[j].mtime)
        } else {
            snap[p]
        },
    )
}

/// Scanning an unchanged directory a second time is a no-op: once the first
/// scan is written to the catalog, every file of the same scan is unchanged
/// (none new, none updated) and no catalog path is removed.
pub proof fn lemma_rescan_is_noop(snap: Snapshot, fs: Seq<ScannedFile>, root: Seq<char>)
    requires
        distinct_scanned(fs),
    ensures
        forall|j: int| 0 <= j < fs.len() ==> change_of(after_scan(snap, fs, root), #[trigger] fs[j]) == Change::Unchanged,
        forall|p: Seq<char>| after_scan(snap, fs, root).contains_key(p) ==> !removed_by(fs, root, p),
        count_change(changes_of(after_scan(snap, fs, root), fs), Change::New, fs.len() as int) == 0,
        count_change(changes_of(after_scan(snap, fs, root), fs), Change::Updated, fs.len() as int) == 0,
{
    let m = after_scan(snap, fs, root);
    assert forall|j: int| 0 <= j < fs.len() implies change_of(m, #[trigger] fs[j]) == Change::Unchanged by {
        let p = fs[j].path@;
        assert(seen(fs, p));
        assert(m.contains_key(p));
        let jj = choose|jj: int| 0 <= jj < fs.len() && (#[trigger] fs[jj]).path@ == p;
        if jj != j {
            if jj < j {
                assert(fs[jj].path@ != fs[j].path@);
            } else {
                assert(fs[j].path@ != fs[jj].path@);
            }
        }
    }
    lemma_no_new_updated(m, fs, fs.len() as int);
}

proof fn lemma_no_new_updated(m: Snapshot, fs: Seq<ScannedFile>, n: int)
    requires
        0 <= n <= fs.len(),
        forall|j: int| 0 <= j < fs.len() ==> change_of(m, #[trigger] fs[j]) == Change::Unchanged,
    ensures
        count_change(changes_of(m, fs), Change::New, n) == 0,
        count_change(changes_of(m, fs), Change::Updated, n) == 0,
    decreases n,
{
    if n > 0 {
        lemma_no_new_updated(m, fs, n - 1);
        assert(changes_of(m, fs)[n - 1] == change_of(m, fs[n - 1]));
    }
}


/// The file on disk that a catalog row depends on: the container of an
/// archive entry, or the file itself.
pub open spec fn disk_path_of(path: Seq<char>) -> Seq<char> {
    match split_interior(path) {
        Some((c, e)) => c,
        None => path,
    }
}

/// Computes the file on disk that a catalog row depends on; a row whose
/// file is gone is stale.
pub fn disk_path(path: &str) -> (r: String)
    ensures
        r@ == disk_path_of(path@),
{
    match split_archive_path(path) {
        Some((c, _)) => c,
        None => path.to_owned(),
    }
}

} // verus!
