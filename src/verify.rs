//! Matching of scanned files against manifest entries and classification
//! into verified, misnamed, missing and unmatched.
use vstd::prelude::*;
use crate::dat::DatEntry;
use crate::scan::ScannedFile;
use crate::text::{lower_of, lowercase};

verus! {

/// A binding of a scanned file to the manifest entry it matched.
pub struct Match {
    pub file: ScannedFile,
    pub entry: DatEntry,
}

/// The four disjoint buckets of a verification.
pub struct VerifyResult {
    pub verified: Vec<Match>,
    pub misnamed: Vec<Match>,
    pub missing: Vec<DatEntry>,
    pub unmatched: Vec<ScannedFile>,
}

/// The entry's digest of the given kind equals the file's, where the entry
/// declares one: kind 0 is SHA-1, kind 1 is CRC32 together with the size,
/// kind 2 is MD5.
pub open spec fn hits(f: ScannedFile, e: DatEntry, kind: int) -> bool {
    if kind == 0 {
        e.sha1 is Some && e.sha1->0@ == f.sha1@
    } else if kind == 1 {
        e.crc32 is Some && e.crc32->0@ == f.crc32@ && e.size == f.size
    } else {
        e.md5 is Some && e.md5->0@ == f.md5@
    }
}

/// The first index at or after `i` whose entry the file hits by `kind`.
pub open spec fn first_hit_from(f: ScannedFile, es: Seq<DatEntry>, kind: int, i: int) -> Option<int>
    decreases es.len() - i,
{
    if i < 0 || i >= es.len() {
        None
    } else if hits(f, es[i], kind) {
        Some(i)
    } else {
        first_hit_from(f, es, kind, i + 1)
    }
}

/// The entry that a file resolves to: the first SHA-1 hit, else the first
/// CRC32-and-size hit, else the first MD5 hit, in manifest order.
pub open spec fn match_of(f: ScannedFile, es: Seq<DatEntry>) -> Option<int> {
    if first_hit_from(f, es, 0, 0) is Some {
        first_hit_from(f, es, 0, 0)
    } else if first_hit_from(f, es, 1, 0) is Some {
        first_hit_from(f, es, 1, 0)
    } else {
        first_hit_from(f, es, 2, 0)
    }
}

proof fn lemma_first_hit_bounds(f: ScannedFile, es: Seq<DatEntry>, kind: int, i: int)
    ensures
        first_hit_from(f, es, kind, i) matches Some(j) ==> i <= j < es.len() && hits(f, es[j], kind),
    decreases es.len() - i,
{
    if 0 <= i < es.len() && !hits(f, es[i], kind) {
        lemma_first_hit_bounds(f, es, kind, i + 1);
    }
}

proof fn lemma_match_bounds(f: ScannedFile, es: Seq<DatEntry>)
    ensures
        match_of(f, es) matches Some(j) ==> 0 <= j < es.len(),
{
    lemma_first_hit_bounds(f, es, 0, 0);
    lemma_first_hit_bounds(f, es, 1, 0);
    lemma_first_hit_bounds(f, es, 2, 0);
}

fn opt_eq(a: &Option<String>, b: &String) -> (r: bool)
    ensures
        r == (a is Some && a->0@ == b@),
{
    match a {
        Some(v) => *v == *b,
        None => false,
    }
}

fn hits_exec(f: &ScannedFile, e: &DatEntry, kind: u8) -> (r: bool)
    requires
        kind <= 2,
    ensures
        r == hits(*f, *e, kind as int),
{
    if kind == 0 {
        opt_eq(&e.sha1, &f.sha1)
    } else if kind == 1 {
        opt_eq(&e.crc32, &f.crc32) && e.size == f.size
    } else {
        opt_eq(&e.md5, &f.md5)
    }
}

fn first_hit(f: &ScannedFile, entries: &Vec<DatEntry>, kind: u8) -> (r: Option<usize>)
    requires
        kind <= 2,
    ensures
        r matches Some(j) ==> first_hit_from(*f, entries@, kind as int, 0) == Some(j as int),
        r is None ==> first_hit_from(*f, entries@, kind as int, 0) is None,
{
    let mut i: usize = 0;
    while i < entries.len()
        invariant
            kind <= 2,
            i <= entries.len(),
            first_hit_from(*f, entries@, kind as int, 0) == first_hit_from(*f, entries@, kind as int, i as int),
        decreases entries.len() - i,
    {
        if hits_exec(f, &entries[i], kind) {
            return Some(i);
        }
        i = i + 1;
    }
    None
}

/// Finds the manifest entry a file resolves to, by digest priority.
fn find_match(f: &ScannedFile, entries: &Vec<DatEntry>) -> (r: Option<usize>)
    ensures
        r matches Some(j) ==> match_of(*f, entries@) == Some(j as int) && j < entries.len(),
        r is None ==> match_of(*f, entries@) is None,
{
    proof {
        lemma_match_bounds(*f, entries@);
    }
    let by_sha1 = first_hit(f, entries, 0);
    if by_sha1.is_some() {
        return by_sha1;
    }
    let by_crc = first_hit(f, entries, 1);
    if by_crc.is_some() {
        return by_crc;
    }
    first_hit(f, entries, 2)
}

/// Whether a file's basename equals the declared name, ignoring case.
pub fn is_name_correct(filename: &str, rom_name: &str) -> (r: bool)
    ensures
        r == (lower_of(filename@) == lower_of(rom_name@)),
{
    let a = lowercase(filename);
    let b = lowercase(rom_name);
    a == b
}


/// The views of a sequence of strings.
pub open spec fn views(v: Seq<String>) -> Seq<Seq<char>> {
    v.map_values(|s: String| s@)
}

/// Some file among the first `n` resolves to entry `k`.
pub open spec fn matched_before(fs: Seq<ScannedFile>, es: Seq<DatEntry>, n: int, k: int) -> bool {
    exists|j: int| 0 <= j < n && match_of(#[trigger] fs[j], es) == Some(k)
}

/// The verified matches among the first `n` files, in file order; `fl` and
/// `el` are the case-folded file basenames and declared entry names.
pub open spec fn verified_upto(
    fs: Seq<ScannedFile>,
    es: Seq<DatEntry>,
    fl: Seq<Seq<char>>,
    el: Seq<Seq<char>>,
    n: int,
) -> Seq<Match>
    decreases n,
{
    if n <= 0 {
        Seq::empty()
    } else {
        let prev = verified_upto(fs, es, fl, el, n - 1);
        match match_of(fs[n - 1], es) {
            Some(i) => if fl[n - 1] == el[i] {
                prev.push(Match { file: fs[n - 1], entry: es[i] })
            } else {
                prev
            },
            None => prev,
        }
    }
}

/// The misnamed matches among the first `n` files, in file order.
pub open spec fn misnamed_upto(
    fs: Seq<ScannedFile>,
    es: Seq<DatEntry>,
    fl: Seq<Seq<char>>,
    el: Seq<Seq<char>>,
    n: int,
) -> Seq<Match>
    decreases n,
{
    if n <= 0 {
        Seq::empty()
    } else {
        let prev = misnamed_upto(fs, es, fl, el, n - 1);
        match match_of(fs[n - 1], es) {
            Some(i) => if fl[n - 1] != el[i] {
                prev.push(Match { file: fs[n - 1], entry: es[i] })
            } else {
                prev
            },
            None => prev,
        }
    }
}

/// The files among the first `n` that resolve to no entry, in file order.
pub open spec fn unmatched_upto(fs: Seq<ScannedFile>, es: Seq<DatEntry>, n: int) -> Seq<ScannedFile>
    decreases n,
{
    if n <= 0 {
        Seq::empty()
    } else {
        let prev = unmatched_upto(fs, es, n - 1);
        if match_of(fs[n - 1], es) is None {
            prev.push(fs[n - 1])
        } else {
            prev
        }
    }
}

/// The entries among the first `n` that no file resolves to, in manifest order.
pub open spec fn missing_upto(fs: Seq<ScannedFile>, es: Seq<DatEntry>, n: int) -> Seq<DatEntry>
    decreases n,
{
    if n <= 0 {
        Seq::empty()
    } else {
        let prev = missing_upto(fs, es, n - 1);
        if !matched_before(fs, es, fs.len() as int, n - 1) {
            prev.push(es[n - 1])
        } else {
            prev
        }
    }
}

/// The classification of `fs` against `es`, given the case-folded names.
pub open spec fn classified(
    r: VerifyResult,
    fs: Seq<ScannedFile>,
    es: Seq<DatEntry>,
    fl: Seq<Seq<char>>,
    el: Seq<Seq<char>>,
) -> bool {
    &&& r.verified@ == verified_upto(fs, es, fl, el, fs.len() as int)
    &&& r.misnamed@ == misnamed_upto(fs, es, fl, el, fs.len() as int)
    &&& r.missing@ == missing_upto(fs, es, es.len() as int)
    &&& r.unmatched@ == unmatched_upto(fs, es, fs.len() as int)
}

/// Classifies files against entries, given each file's case-folded basename
/// and each entry's case-folded declared name.
pub fn verify_folded(
    files: &Vec<ScannedFile>,
    entries: &Vec<DatEntry>,
    folded_files: &Vec<String>,
    folded_entries: &Vec<String>,
) -> (r: VerifyResult)
    requires
        folded_files.len() == files.len(),
        folded_entries.len() == entries.len(),
    ensures
        classified(r, files@, entries@, views(folded_files@), views(folded_entries@)),
{
    let ghost fs = files@;
    let ghost es = entries@;
    let ghost fl = views(folded_files@);
    let ghost el = views(folded_entries@);
    let mut verified: Vec<Match> = Vec::new();
    let mut misnamed: Vec<Match> = Vec::new();
    let mut unmatched: Vec<ScannedFile> = Vec::new();
    let mut flags: Vec<bool> = Vec::new();
    let mut k: usize = 0;
    while k < entries.len()
        invariant
            k <= entries.len(),
            flags.len() == k,
            forall|m: int| 0 <= m < k ==> !flags[m],
        decreases entries.len() - k,
    {
        flags.push(false);
        k = k + 1;
    }
    let mut i: usize = 0;
    while i < files.len()
        invariant
            fs == files@,
            es == entries@,
            fl == views(folded_files@),
            el == views(folded_entries@),
            folded_files.len() == files.len(),
            folded_entries.len() == entries.len(),
            i <= files.len(),
            flags.len() == entries.len(),
            forall|m: int| 0 <= m < entries.len() ==> flags[m] == matched_before(fs, es, i as int, m),
            verified@ == verified_upto(fs, es, fl, el, i as int),
            misnamed@ == misnamed_upto(fs, es, fl, el, i as int),
            unmatched@ == unmatched_upto(fs, es, i as int),
        decreases files.len() - i,
    {
        let f = &files[i];
        match find_match(f, entries) {
            Some(idx) => {
                flags.set(idx, true);
                let m = Match { file: f.clone(), entry: entries[idx].clone() };
                if folded_files[i] == folded_entries[idx] {
                    verified.push(m);
                } else {
                    misnamed.push(m);
                }
            },
            None => {
                unmatched.push(f.clone());
            },
        }
        assert forall|m: int| 0 <= m < entries.len() implies flags[m] == matched_before(
            fs,
            es,
            i + 1,
            m,
        ) by {
            if flags[m] && !matched_before(fs, es, i as int, m) {
                assert(match_of(fs[i as int], es) == Some(m));
            }
            if matched_before(fs, es, i + 1, m) && !matched_before(fs, es, i as int, m) {
                let j = choose|j: int| 0 <= j < i + 1 && match_of(#[trigger] fs[j], es) == Some(m);
                assert(j == i);
            }
        }
        i = i + 1;
    }
    let mut missing: Vec<DatEntry> = Vec::new();
    let mut k: usize = 0;
    while k < entries.len()
        invariant
            fs == files@,
            es == entries@,
            k <= entries.len(),
            flags.len() == entries.len(),
            forall|m: int| 0 <= m < entries.len() ==> flags[m] == matched_before(fs, es, fs.len() as int, m),
            missing@ == missing_upto(fs, es, k as int),
        decreases entries.len() - k,
    {
        if !flags[k] {
            missing.push(entries[k].clone());
        }
        k = k + 1;
    }
    VerifyResult { verified, misnamed, missing, unmatched }
}

/// The case-folded basenames of the files.
pub open spec fn folded_file_names(fs: Seq<ScannedFile>) -> Seq<Seq<char>> {
    fs.map_values(|f: ScannedFile| lower_of(f.filename@))
}

/// The case-folded declared names of the entries.
pub open spec fn folded_entry_names(es: Seq<DatEntry>) -> Seq<Seq<char>> {
    es.map_values(|e: DatEntry| lower_of(e.name@))
}

/// Classifies scanned files against manifest entries: a matched file is
/// verified when its basename equals the entry's name ignoring case, else
/// misnamed; entries that no file matched are missing; files that match no
/// entry are unmatched.
pub fn verify(files: &Vec<ScannedFile>, entries: &Vec<DatEntry>) -> (r: VerifyResult)
    ensures
        classified(r, files@, entries@, folded_file_names(files@), folded_entry_names(entries@)),
{
    let mut ff: Vec<String> = Vec::new();
    let mut i: usize = 0;
    while i < files.len()
        invariant
            i <= files.len(),
            ff.len() == i,
            forall|m: int| 0 <= m < i ==> ff[m]@ == lower_of(files@[m].filename@),
        decreases files.len() - i,
    {
        ff.push(lowercase(files[i].filename.as_str()));
        i = i + 1;
    }
    let mut fe: Vec<String> = Vec::new();
    let mut k: usize = 0;
    while k < entries.len()
        invariant
            k <= entries.len(),
            fe.len() == k,
            forall|m: int| 0 <= m < k ==> fe[m]@ == lower_of(entries@[m].name@),
        decreases entries.len() - k,
    {
        fe.push(lowercase(entries[k].name.as_str()));
        k = k + 1;
    }
    assert(views(ff@) =~= folded_file_names(files@));
    assert(views(fe@) =~= folded_entry_names(entries@));
    verify_folded(files, entries, &ff, &fe)
}


proof fn lemma_no_hit(f: ScannedFile, es: Seq<DatEntry>, kind: int, i: int)
    requires
        forall|k: int| 0 <= k < es.len() ==> !hits(f, #[trigger] es[k], kind),
    ensures
        first_hit_from(f, es, kind, i) is None,
    decreases es.len() - i,
{
    if 0 <= i < es.len() {
        lemma_no_hit(f, es, kind, i + 1);
    }
}

/// A file that no entry hits by any digest is unmatched. In particular a
/// right size does not match on its own, and a right CRC32 does not match
/// with a wrong size: the CRC32 path asks for both.
pub proof fn lemma_no_digest_hit_is_unmatched(f: ScannedFile, es: Seq<DatEntry>)
    requires
        forall|k: int| 0 <= k < es.len() ==> !hits(f, #[trigger] es[k], 0) && !hits(f, es[k], 1) && !hits(f, es[k], 2),
    ensures
        match_of(f, es) is None,
        forall|e: DatEntry| e.size != f.size ==> !hits(f, e, 1),
{
    lemma_no_hit(f, es, 0, 0);
    lemma_no_hit(f, es, 1, 0);
    lemma_no_hit(f, es, 2, 0);
}


/// No manifest has an entry that the file resolves to.
pub open spec fn matched_nowhere(f: ScannedFile, dats: Seq<Vec<DatEntry>>) -> bool {
    forall|d: int| 0 <= d < dats.len() ==> match_of(f, (#[trigger] dats[d])@) is None
}

/// The files among the first `n` that no manifest matches, in file order.
pub open spec fn unmatched_everywhere(fs: Seq<ScannedFile>, dats: Seq<Vec<DatEntry>>, n: int) -> Seq<ScannedFile>
    decreases n,
{
    if n <= 0 {
        Seq::empty()
    } else if matched_nowhere(fs[n - 1], dats) {
        unmatched_everywhere(fs, dats, n - 1).push(fs[n - 1])
    } else {
        unmatched_everywhere(fs, dats, n - 1)
    }
}

/// The files that match no entry of any of the manifests.
pub fn unmatched_in_all(files: &Vec<ScannedFile>, manifests: &Vec<Vec<DatEntry>>) -> (r: Vec<ScannedFile>)
    ensures
        r@ == unmatched_everywhere(files@, manifests@, files@.len() as int),
{
    let mut out: Vec<ScannedFile> = Vec::new();
    let mut i: usize = 0;
    while i < files.len()
        invariant
            i <= files.len(),
            out@ == unmatched_everywhere(files@, manifests@, i as int),
        decreases files.len() - i,
    {
        let f = &files[i];
        let mut nowhere = true;
        let mut d: usize = 0;
        while d < manifests.len()
            invariant
                d <= manifests.len(),
                nowhere == forall|q: int| 0 <= q < d ==> match_of(*f, (#[trigger] manifests@[q])@) is None,
            decreases manifests.len() - d,
        {
            if find_match(f, &manifests[d]).is_some() {
                nowhere = false;
            }
            d = d + 1;
        }
        if nowhere {
            out.push(f.clone());
        }
        i = i + 1;
    }
    out
}

} // verus!
