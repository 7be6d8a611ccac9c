//! Manifest import: the unchanged and duplicate checks against the catalog,
//! the effective category, and the rows one import writes.
use vstd::prelude::*;
use crate::dat::{calls_view, clone_opt, opt_view, CallView, DatEntry, DatFormat, EntryView, VisitCall};
use vstd::string::StringExecFns;
use crate::text::{last_index_of, lemma_last_index, rfind_char, str_eq, substring};

verus! {

/// A manifest source already in the catalog.
pub struct SourceRow {
    pub name: String,
    pub file_path: String,
    pub file_sha1: String,
    pub file_size: i64,
    pub file_mtime: Option<i64>,
}

/// Source `s` was imported from `path` with this size and mtime.
pub open spec fn same_file(s: SourceRow, path: Seq<char>, size: i64, mtime: Option<i64>) -> bool {
    s.file_path@ == path && s.file_size == size && s.file_mtime == mtime
}

/// The first source that the unchanged check finds.
pub open spec fn first_unchanged(rows: Seq<SourceRow>, path: Seq<char>, size: i64, mtime: Option<i64>, i: int) -> Option<int>
    decreases rows.len() - i,
{
    if i < 0 || i >= rows.len() {
        None
    } else if same_file(rows[i], path, size, mtime) {
        Some(i)
    } else {
        first_unchanged(rows, path, size, mtime, i + 1)
    }
}

/// The first source with the given content digest.
pub open spec fn first_with_sha1(rows: Seq<SourceRow>, sha1: Seq<char>, i: int) -> Option<int>
    decreases rows.len() - i,
{
    if i < 0 || i >= rows.len() {
        None
    } else if rows[i].file_sha1@ == sha1 {
        Some(i)
    } else {
        first_with_sha1(rows, sha1, i + 1)
    }
}

/// Finds a source recorded with the same path, size and mtime: such a
/// manifest is unchanged and is not read again.
pub fn find_unchanged(rows: &Vec<SourceRow>, path: &str, size: i64, mtime: Option<i64>) -> (r: Option<usize>)
    ensures
        r matches Some(i) ==> first_unchanged(rows@, path@, size, mtime, 0) == Some(i as int) && i < rows.len(),
        r is None ==> first_unchanged(rows@, path@, size, mtime, 0) is None,
{
    let mut i: usize = 0;
    while i < rows.len()
        invariant
            i <= rows.len(),
            first_unchanged(rows@, path@, size, mtime, 0) == first_unchanged(rows@, path@, size, mtime, i as int),
        decreases rows.len() - i,
    {
        if str_eq(rows[i].file_path.as_str(), path) && rows[i].file_size == size && rows[i].file_mtime == mtime {
            return Some(i);
        }
        i = i + 1;
    }
    None
}

/// Finds a source with the same content digest: such a manifest is a duplicate.
pub fn find_duplicate(rows: &Vec<SourceRow>, sha1: &str) -> (r: Option<usize>)
    ensures
        r matches Some(i) ==> first_with_sha1(rows@, sha1@, 0) == Some(i as int) && i < rows.len(),
        r is None ==> first_with_sha1(rows@, sha1@, 0) is None,
{
    let mut i: usize = 0;
    while i < rows.len()
        invariant
            i <= rows.len(),
            first_with_sha1(rows@, sha1@, 0) == first_with_sha1(rows@, sha1@, i as int),
        decreases rows.len() - i,
    {
        if str_eq(rows[i].file_sha1.as_str(), sha1) {
            return Some(i);
        }
        i = i + 1;
    }
    None
}

/// What an import attempt decides before writing anything.
pub enum ImportDecision {
    /// Same path, size and mtime as a recorded source.
    Unchanged { name: String },
    /// Same content digest as a recorded source.
    Duplicate { name: String },
    /// A new manifest: it is imported.
    Import,
}

pub open spec fn decision_of(rows: Seq<SourceRow>, path: Seq<char>, size: i64, mtime: Option<i64>, sha1: Seq<char>) -> Option<Seq<char>> {
    match first_unchanged(rows, path, size, mtime, 0) {
        Some(i) => Some(rows[i].name@),
        None => match first_with_sha1(rows, sha1, 0) {
            Some(i) => Some(rows[i].name@),
            None => None,
        },
    }
}

/// No two sources share a content digest.
pub open spec fn sha1_unique(rows: Seq<SourceRow>) -> bool {
    forall|i: int, j: int| 0 <= i < j < rows.len() ==> (#[trigger] rows[i]).file_sha1@ != (#[trigger] rows[j]).file_sha1@
}

proof fn lemma_first_sha1(rows: Seq<SourceRow>, sha1: Seq<char>, i: int)
    requires
        0 <= i,
    ensures
        first_with_sha1(rows, sha1, i) is None <==> forall|k: int| i <= k < rows.len() ==> (#[trigger] rows[k]).file_sha1@ != sha1,
        first_with_sha1(rows, sha1, i) matches Some(k) ==> i <= k < rows.len() && rows[k].file_sha1@ == sha1,
    decreases rows.len() - i,
{
    if i < rows.len() {
        lemma_first_sha1(rows, sha1, i + 1);
    }
}

/// Content digests stay unique: a source is added only when the duplicate
/// check finds no source with its digest.
pub proof fn lemma_import_keeps_sha1_unique(rows: Seq<SourceRow>, new_row: SourceRow)
    requires
        sha1_unique(rows),
        first_with_sha1(rows, new_row.file_sha1@, 0) is None,
    ensures
        sha1_unique(rows.push(new_row)),
{
    lemma_first_sha1(rows, new_row.file_sha1@, 0);
    let r2 = rows.push(new_row);
    assert forall|i: int, j: int| 0 <= i < j < r2.len() implies (#[trigger] r2[i]).file_sha1@ != (#[trigger] r2[j]).file_sha1@ by {
        if j == rows.len() {
            assert(rows[i].file_sha1@ != new_row.file_sha1@);
        } else {
            assert(r2[i] == rows[i] && r2[j] == rows[j]);
        }
    }
}

proof fn lemma_first_unchanged(rows: Seq<SourceRow>, path: Seq<char>, size: i64, mtime: Option<i64>, i: int)
    requires
        0 <= i,
    ensures
        (exists|k: int| i <= k < rows.len() && same_file(#[trigger] rows[k], path, size, mtime)) ==> first_unchanged(rows, path, size, mtime, i) is Some,
    decreases rows.len() - i,
{
    if i < rows.len() {
        lemma_first_unchanged(rows, path, size, mtime, i + 1);
    }
}

/// Re-importing a bit-identical manifest file changes nothing: once its
/// source row is recorded, a second attempt with the same path, size, mtime
/// and digest is found unchanged (or a duplicate), so no row is written.
pub proof fn lemma_reimport_is_skipped(rows: Seq<SourceRow>, new_row: SourceRow)
    ensures
        decision_of(rows.push(new_row), new_row.file_path@, new_row.file_size, new_row.file_mtime, new_row.file_sha1@) is Some,
{
    let r2 = rows.push(new_row);
    assert(same_file(r2[rows.len() as int], new_row.file_path@, new_row.file_size, new_row.file_mtime));
    lemma_first_unchanged(r2, new_row.file_path@, new_row.file_size, new_row.file_mtime, 0);
}

/// With content digests unique across sources, a manifest that is not
/// unchanged but shares its digest with source `i` is a duplicate named
/// after that source, and the import writes nothing.
pub proof fn lemma_duplicate_names_its_source(
    rows: Seq<SourceRow>,
    path: Seq<char>,
    size: i64,
    mtime: Option<i64>,
    sha1: Seq<char>,
    i: int,
)
    requires
        sha1_unique(rows),
        0 <= i < rows.len(),
        rows[i].file_sha1@ == sha1,
        first_unchanged(rows, path, size, mtime, 0) is None,
    ensures
        decision_of(rows, path, size, mtime, sha1) == Some(rows[i].name@),
{
    lemma_first_sha1(rows, sha1, 0);
    let k = first_with_sha1(rows, sha1, 0)->0;
    if k != i {
        if k < i {
            assert(rows[k].file_sha1@ != rows[i].file_sha1@);
        } else {
            assert(rows[i].file_sha1@ != rows[k].file_sha1@);
        }
    }
}

/// Decides an import attempt once the file's digest is known.
pub fn decide_import(rows: &Vec<SourceRow>, path: &str, size: i64, mtime: Option<i64>, sha1: &str) -> (r: ImportDecision)
    ensures
        r matches ImportDecision::Unchanged { name } ==> first_unchanged(rows@, path@, size, mtime, 0) is Some
            && decision_of(rows@, path@, size, mtime, sha1@) == Some(name@),
        r matches ImportDecision::Duplicate { name } ==> first_unchanged(rows@, path@, size, mtime, 0) is None
            && decision_of(rows@, path@, size, mtime, sha1@) == Some(name@),
        r is Import <==> decision_of(rows@, path@, size, mtime, sha1@) is None,
{
    match find_unchanged(rows, path, size, mtime) {
        Some(i) => ImportDecision::Unchanged { name: rows[i].name.clone() },
        None => match find_duplicate(rows, sha1) {
            Some(i) => ImportDecision::Duplicate { name: rows[i].name.clone() },
            None => ImportDecision::Import,
        },
    }
}

/// An entry declares at least one digest.
pub open spec fn has_digest(e: EntryView) -> bool {
    e.crc32 is Some || e.md5 is Some || e.sha1 is Some
}

/// An entry to insert, with the position of its set among the import's sets.
pub struct PlannedEntry {
    pub set: Option<usize>,
    pub entry: DatEntry,
}

/// The rows one import writes: the source's header, its sets, and its
/// entries with the final entry count of the version.
pub struct ImportPlan {
    pub name: String,
    pub version: Option<String>,
    pub format: DatFormat,
    pub sets: Vec<String>,
    pub entries: Vec<PlannedEntry>,
    pub entry_count: u64,
    pub current_set: Option<usize>,
}

/// The plan as plain values.
pub struct PlanView {
    pub name: Seq<char>,
    pub version: Option<Seq<char>>,
    pub format: DatFormat,
    pub sets: Seq<Seq<char>>,
    pub entries: Seq<(Option<usize>, EntryView)>,
    pub current_set: Option<usize>,
}

impl View for ImportPlan {
    type V = PlanView;

    open spec fn view(&self) -> PlanView {
        PlanView {
            name: self.name@,
            version: opt_view(self.version),
            format: self.format,
            sets: self.sets@.map_values(|s: String| s@),
            entries: self.entries@.map_values(|p: PlannedEntry| (p.set, p.entry@)),
            current_set: self.current_set,
        }
    }
}

pub open spec fn empty_plan() -> PlanView {
    PlanView {
        name: Seq::empty(),
        version: None,
        format: DatFormat::Unknown,
        sets: Seq::empty(),
        entries: Seq::empty(),
        current_set: None,
    }
}

/// The effect of one visitor call on the plan: the header names the source
/// and its version, each set start adds a set, each rom with a digest adds
/// an entry in the open set; a rom without any digest is not recorded.
pub open spec fn plan_step(p: PlanView, call: CallView) -> PlanView {
    match call {
        CallView::DatStart { name, description, version, format } => PlanView { name, version, format, ..p },
        CallView::SetStart { name } => PlanView {
            sets: p.sets.push(name),
            current_set: Some(p.sets.len() as usize),
            ..p
        },
        CallView::SetEnd { name } => PlanView { current_set: None, ..p },
        CallView::Rom { entry } => if has_digest(entry) {
            PlanView { entries: p.entries.push((p.current_set, entry)), ..p }
        } else {
            p
        },
        CallView::DatEnd => p,
    }
}

pub open spec fn plan_upto(calls: Seq<CallView>, n: int) -> PlanView
    decreases n,
{
    if n <= 0 {
        empty_plan()
    } else {
        plan_step(plan_upto(calls, n - 1), calls[n - 1])
    }
}

/// The plan is well formed: every entry has a digest and belongs to no set
/// or to a set recorded before it.
pub open spec fn plan_ok(p: PlanView) -> bool {
    &&& forall|k: int| 0 <= k < p.entries.len() ==> has_digest((#[trigger] p.entries[k]).1)
    &&& forall|k: int| 0 <= k < p.entries.len() ==> ((#[trigger] p.entries[k]).0 matches Some(s) ==> s < p.sets.len())
    &&& p.current_set matches Some(s) ==> s < p.sets.len()
}

proof fn lemma_plan_ok(calls: Seq<CallView>, n: int)
    ensures
        plan_ok(plan_upto(calls, n)),
    decreases n,
{
    if n > 0 {
        lemma_plan_ok(calls, n - 1);
        let p = plan_upto(calls, n - 1);
        let q = plan_upto(calls, n);
        assert forall|k: int| 0 <= k < q.entries.len() implies has_digest((#[trigger] q.entries[k]).1)
            && (q.entries[k].0 matches Some(s) ==> s < q.sets.len()) by {
            if k < p.entries.len() {
                assert(q.entries[k] == p.entries[k]);
            }
        }
    }
}

fn entry_has_digest(e: &DatEntry) -> (r: bool)
    ensures
        r == has_digest(e@),
{
    e.crc32.is_some() || e.md5.is_some() || e.sha1.is_some()
}

/// Builds the rows of an import from the visitor calls of a manifest.
/// Each version's `entry_count` is the number of entry rows planned for
/// it, every planned entry has at least one digest, and a set row comes
/// before the entries that belong to it. A rom that declares no digest at
/// all cannot be matched and is not recorded, so `entry_count` counts the
/// roms with a digest, which may be fewer than the manifest lists.
pub fn plan_import(calls: &Vec<VisitCall>) -> (r: ImportPlan)
    ensures
        r@ == plan_upto(calls_view(calls@), calls@.len() as int),
        r.entry_count == r.entries@.len(),
        plan_ok(r@),
{
    let ghost cv = calls_view(calls@);
    let mut plan = ImportPlan {
        name: String::new(),
        version: None,
        format: DatFormat::Unknown,
        sets: Vec::new(),
        entries: Vec::new(),
        entry_count: 0,
        current_set: None,
    };
    assert(plan@ == empty_plan()) by {
        assert(plan@.sets =~= Seq::<Seq<char>>::empty());
        assert(plan@.entries =~= Seq::<(Option<usize>, EntryView)>::empty());
    }
    let mut i: usize = 0;
    while i < calls.len()
        invariant
            cv == calls_view(calls@),
            i <= calls.len(),
            plan@ == plan_upto(cv, i as int),
            plan.entry_count == plan.entries@.len(),
            plan.entries@.len() <= i,
        decreases calls.len() - i,
    {
        assert(cv[i as int] == calls@[i as int]@);
        match &calls[i] {
            VisitCall::DatStart(h) => {
                plan.name = h.name.clone();
                plan.version = clone_opt(&h.version);
                plan.format = h.format;
            },
            VisitCall::SetStart(s) => {
                let ghost before = plan@.sets;
                let idx = plan.sets.len();
                plan.sets.push(s.name.clone());
                assert(plan@.sets =~= before.push(s.name@));
                plan.current_set = Some(idx);
            },
            VisitCall::SetEnd(_) => {
                plan.current_set = None;
            },
            VisitCall::Rom(e) => {
                if entry_has_digest(e) {
                    let ghost before = plan@.entries;
                    plan.entries.push(PlannedEntry { set: plan.current_set, entry: e.clone() });
                    assert(plan@.entries =~= before.push((plan.current_set, e@)));
                    plan.entry_count = plan.entry_count + 1;
                }
            },
            VisitCall::DatEnd => {},
        }
        i = i + 1;
    }
    proof {
        lemma_plan_ok(cv, calls@.len() as int);
    }
    plan
}


/// The characters with the Unicode White_Space property.
pub open spec fn is_space(c: char) -> bool {
    ('\u{9}' <= c <= '\u{d}') || c == ' ' || c == '\u{85}' || c == '\u{a0}' || c == '\u{1680}'
        || ('\u{2000}' <= c <= '\u{200a}') || c == '\u{2028}' || c == '\u{2029}' || c == '\u{202f}'
        || c == '\u{205f}' || c == '\u{3000}'
}

pub open spec fn is_sep(c: char) -> bool {
    c == '/' || c == '\\'
}

/// The longest run of leading characters satisfying `p`.
pub open spec fn lead(s: Seq<char>, p: spec_fn(char) -> bool) -> int
    decreases s.len(),
{
    if s.len() > 0 && p(s[0]) { 1 + lead(s.drop_first(), p) } else { 0 }
}

/// The longest run of trailing characters satisfying `p`.
pub open spec fn trail(s: Seq<char>, p: spec_fn(char) -> bool) -> int
    decreases s.len(),
{
    if s.len() > 0 && p(s.last()) { 1 + trail(s.drop_last(), p) } else { 0 }
}

/// `s` without the leading and trailing characters satisfying `p`.
pub open spec fn trimmed(s: Seq<char>, p: spec_fn(char) -> bool) -> Seq<char> {
    let a = lead(s, p);
    if a == s.len() { Seq::empty() } else { s.subrange(a, s.len() - trail(s, p)) }
}

/// A category path without separators at its ends, then without white space at its ends.
pub open spec fn cleaned(s: Seq<char>) -> Seq<char> {
    trimmed(trimmed(s, |c: char| is_sep(c)), |c: char| is_space(c))
}

proof fn lemma_lead(s: Seq<char>, p: spec_fn(char) -> bool, i: int)
    requires
        0 <= i <= s.len(),
        forall|k: int| 0 <= k < i ==> p(#[trigger] s[k]),
        i == s.len() || !p(s[i]),
    ensures
        lead(s, p) == i,
    decreases i,
{
    if i > 0 {
        assert forall|k: int| 0 <= k < i - 1 implies p(#[trigger] s.drop_first()[k]) by {
            assert(s.drop_first()[k] == s[k + 1]);
        }
        if i - 1 < s.drop_first().len() {
            assert(s.drop_first()[i - 1] == s[i]);
        }
        lemma_lead(s.drop_first(), p, i - 1);
    }
}

proof fn lemma_trail(s: Seq<char>, p: spec_fn(char) -> bool, j: int)
    requires
        0 <= j <= s.len(),
        forall|k: int| j <= k < s.len() ==> p(#[trigger] s[k]),
        j == 0 || !p(s[j - 1]),
    ensures
        trail(s, p) == s.len() - j,
    decreases s.len() - j,
{
    if j < s.len() {
        assert forall|k: int| j <= k < s.len() - 1 implies p(#[trigger] s.drop_last()[k]) by {
            assert(s.drop_last()[k] == s[k]);
        }
        if j > 0 {
            assert(s.drop_last()[j - 1] == s[j - 1]);
        }
        lemma_trail(s.drop_last(), p, j);
    }
}

/// Trims separators (or, when `seps` is false, white space) from both ends of `s`.
fn trim_by(s: &str, seps: bool) -> (r: String)
    ensures
        seps ==> r@ == trimmed(s@, |c: char| is_sep(c)),
        !seps ==> r@ == trimmed(s@, |c: char| is_space(c)),
{
    let ghost p = if seps { |c: char| is_sep(c) } else { |c: char| is_space(c) };
    let n = s.unicode_len();
    let mut a: usize = 0;
    while a < n && trims(s.get_char(a), seps)
        invariant
            n == s@.len(),
            a <= n,
            p == (if seps { |c: char| is_sep(c) } else { |c: char| is_space(c) }),
            forall|k: int| 0 <= k < a ==> p(#[trigger] s@[k]),
        decreases n - a,
    {
        a = a + 1;
    }
    proof {
        lemma_lead(s@, p, a as int);
    }
    if a == n {
        return String::new();
    }
    let mut b: usize = n;
    while b > a && trims(s.get_char(b - 1), seps)
        invariant
            n == s@.len(),
            a < n,
            a <= b <= n,
            !p(s@[a as int]),
            p == (if seps { |c: char| is_sep(c) } else { |c: char| is_space(c) }),
            forall|k: int| b <= k < n ==> p(#[trigger] s@[k]),
        decreases b,
    {
        b = b - 1;
    }
    proof {
        lemma_trail(s@, p, b as int);
    }
    substring(s, a, b)
}

fn trims(c: char, seps: bool) -> (r: bool)
    ensures
        r == (if seps { is_sep(c) } else { is_space(c) }),
{
    if seps {
        is_sep_exec(c)
    } else {
        is_space_exec(c)
    }
}

fn is_sep_exec(c: char) -> (r: bool)
    ensures
        r == is_sep(c),
{
    c == '/' || c == '\\'
}

fn is_space_exec(c: char) -> (r: bool)
    ensures
        r == is_space(c),
{
    ('\u{9}' <= c && c <= '\u{d}') || c == ' ' || c == '\u{85}' || c == '\u{a0}' || c == '\u{1680}'
        || ('\u{2000}' <= c && c <= '\u{200a}') || c == '\u{2028}' || c == '\u{2029}' || c == '\u{202f}'
        || c == '\u{205f}' || c == '\u{3000}'
}

/// Trims separators, then white space, from both ends of a category path.
pub fn clean_category_segments(value: &str) -> (r: String)
    ensures
        r@ == cleaned(value@),
{
    let a = trim_by(value, true);
    trim_by(a.as_str(), false)
}

/// The path of a manifest relative to a root directory, when it lies under it.
pub open spec fn relative_to(path: Seq<char>, root: Seq<char>) -> Option<Seq<char>> {
    if root.len() <= path.len() && path.subrange(0, root.len() as int) == root {
        let rest = path.subrange(root.len() as int, path.len() as int);
        if root.len() > 0 && root.last() == '/' {
            Some(rest)
        } else if rest.len() == 0 {
            Some(rest)
        } else if rest[0] == '/' {
            Some(rest.drop_first())
        } else {
            None
        }
    } else {
        None
    }
}

/// The directory part of a relative path; empty for a bare file name.
pub open spec fn dir_part(rel: Seq<char>) -> Seq<char> {
    match last_index_of(rel, '/') {
        Some(i) => rel.subrange(0, i),
        None => Seq::empty(),
    }
}

/// The category a manifest gets from its place under the root: the cleaned
/// directory of its path relative to the root, when that is not empty.
pub open spec fn category_from_root(path: Seq<char>, root: Seq<char>) -> Option<Seq<char>> {
    match relative_to(path, root) {
        Some(rel) => {
            let c = cleaned(dir_part(rel));
            if c.len() == 0 { None } else { Some(c) }
        },
        None => None,
    }
}

/// The category of an import: the caller's category when given, else the
/// one derived from the manifest's place under `category_root`. No
/// category is read from the manifest's file name: naming conventions such
/// as TOSEC's are not parsed here, so a caller that wants one passes it.
pub open spec fn effective_category(given: Option<Seq<char>>, path: Seq<char>, root: Option<Seq<char>>) -> Option<Seq<char>> {
    match given {
        Some(c) => Some(c),
        None => match root {
            Some(r) => category_from_root(path, r),
            None => None,
        },
    }
}

/// Derives a category from the manifest's place under a root directory
/// (the file name itself is not parsed for a category).
pub fn derive_category(path: &str, root: &str) -> (r: Option<String>)
    ensures
        opt_view(r) == category_from_root(path@, root@),
{
    let n = path.unicode_len();
    let m = root.unicode_len();
    if m > n {
        return None;
    }
    let head = substring(path, 0, m);
    if !str_eq(head.as_str(), root) {
        return None;
    }
    let rest = substring(path, m, n);
    let k = rest.unicode_len();
    let rel = if m > 0 && root.get_char(m - 1) == '/' {
        rest
    } else if k == 0 {
        rest
    } else if rest.get_char(0) == '/' {
        let r = substring(rest.as_str(), 1, k);
        assert(r@ =~= rest@.drop_first());
        r
    } else {
        return None;
    };
    proof {
        lemma_last_index(rel@, '/');
    }
    let dir = match rfind_char(rel.as_str(), '/') {
        Some(i) => substring(rel.as_str(), 0, i),
        None => String::new(),
    };
    let c = clean_category_segments(dir.as_str());
    if c.unicode_len() == 0 {
        None
    } else {
        Some(c)
    }
}

/// Options of an import: the category to file it under, and a root
/// directory from which a category is derived when none is given.
pub struct DatImportOptions {
    pub category: Option<String>,
    pub category_root: Option<String>,
}

/// Computes the category an import files its manifest under.
pub fn import_category(options: &DatImportOptions, path: &str) -> (r: Option<String>)
    ensures
        opt_view(r) == effective_category(opt_view(options.category), path@, opt_view(options.category_root)),
{
    match &options.category {
        Some(c) => Some(c.clone()),
        None => match &options.category_root {
            Some(root) => derive_category(path, root.as_str()),
            None => None,
        },
    }
}


/// The category of a manifest found by a directory import: the label of
/// the imported tree, then the manifest's directory relative to the tree's
/// root; `None` when the manifest is outside the root or both are empty.
pub open spec fn tree_category(label: Seq<char>, path: Seq<char>, root: Seq<char>) -> Option<Seq<char>> {
    match relative_to(path, root) {
        Some(rel) => {
            let d = dir_part(rel);
            let c = if d.len() == 0 { label } else { label + seq!['/'] + d };
            if c.len() == 0 { None } else { Some(c) }
        },
        None => None,
    }
}

fn relative_path(path: &str, root: &str) -> (r: Option<String>)
    ensures
        opt_view(r) == relative_to(path@, root@),
{
    let n = path.unicode_len();
    let m = root.unicode_len();
    if m > n {
        return None;
    }
    let head = substring(path, 0, m);
    if !str_eq(head.as_str(), root) {
        return None;
    }
    let rest = substring(path, m, n);
    let k = rest.unicode_len();
    if m > 0 && root.get_char(m - 1) == '/' {
        Some(rest)
    } else if k == 0 {
        Some(rest)
    } else if rest.get_char(0) == '/' {
        let r = substring(rest.as_str(), 1, k);
        assert(r@ =~= rest@.drop_first());
        Some(r)
    } else {
        None
    }
}

/// Computes the category of a manifest found under `root` by a directory import.
pub fn category_for_tree(label: &str, path: &str, root: &str) -> (r: Option<String>)
    ensures
        opt_view(r) == tree_category(label@, path@, root@),
{
    let rel = match relative_path(path, root) {
        Some(rel) => rel,
        None => return None,
    };
    proof {
        lemma_last_index(rel@, '/');
    }
    let c = match rfind_char(rel.as_str(), '/') {
        Some(i) => if i == 0 {
            label.to_owned()
        } else {
            let mut c = label.to_owned();
            proof {
                reveal_strlit("/");
            }
            c.append("/");
            let d = substring(rel.as_str(), 0, i);
            c.append(d.as_str());
            assert(c@ =~= label@ + seq!['/'] + dir_part(rel@));
            c
        },
        None => label.to_owned(),
    };
    if c.unicode_len() == 0 {
        None
    } else {
        Some(c)
    }
}

} // verus!
