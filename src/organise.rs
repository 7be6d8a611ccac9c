//! Organiser planning: sanitised path components, target paths for each
//! mode, grouping into archives, and the per-item state machine.
use vstd::prelude::*;
use vstd::string::StringExecFns;
use crate::scan::{split_archive_path, split_interior};
use crate::text::{lower_of, lowercase};
use crate::text::{after_last, file_name_of, last_index_of, lemma_last_index, rfind_char, substring};

verus! {

/// The characters that cannot stand in a path component.
pub open spec fn reserved(c: char) -> bool {
    c == '/' || c == '\\' || c == ':' || c == '*' || c == '?' || c == '"' || c == '<' || c == '>' || c == '|'
}

/// A name with every reserved character replaced by `_`.
pub open spec fn sanitised(name: Seq<char>) -> Seq<char> {
    name.map_values(|c: char| if reserved(c) { '_' } else { c })
}

/// Makes a name from manifest data safe as a file or directory name.
pub fn sanitise_path(name: &str) -> (r: String)
    ensures
        r@ == sanitised(name@),
{
    let n = name.unicode_len();
    let mut out = String::new();
    let mut i: usize = 0;
    proof {
        reveal_strlit("_");
    }
    while i < n
        invariant
            n == name@.len(),
            i <= n,
            out@ == sanitised(name@.subrange(0, i as int)),
        decreases n - i,
    {
        let c = name.get_char(i);
        let ghost before = out@;
        proof {
            reveal_strlit("_");
        }
        if c == '/' || c == '\\' || c == ':' || c == '*' || c == '?' || c == '"' || c == '<' || c == '>' || c == '|' {
            out.append("_");
        } else {
            let one = name.substring_char(i, i + 1);
            assert(one@ =~= seq![c]);
            out.append(one);
        }
        assert(name@.subrange(0, i + 1) =~= name@.subrange(0, i as int).push(c));
        assert(sanitised(name@.subrange(0, i + 1)) =~= sanitised(name@.subrange(0, i as int)).push(
            if reserved(c) { '_' } else { c },
        ));
        assert(out@ =~= sanitised(name@.subrange(0, i + 1)));
        i = i + 1;
    }
    assert(name@.subrange(0, n as int) =~= name@);
    out
}

/// `base` joined with a relative component by one `/`.
pub open spec fn joined(base: Seq<char>, comp: Seq<char>) -> Seq<char> {
    if base.len() == 0 || base.last() == '/' { base + comp } else { base + seq!['/'] + comp }
}

/// Joins a relative component onto a directory path.
pub fn join_path(base: &str, comp: &str) -> (r: String)
    ensures
        r@ == joined(base@, comp@),
{
    let n = base.unicode_len();
    let mut p = base.to_owned();
    if !(n == 0 || base.get_char(n - 1) == '/') {
        proof {
            reveal_strlit("/");
        }
        p.append("/");
    }
    p.append(comp);
    assert(p@ =~= joined(base@, comp@));
    p
}

/// A manifest entry that some catalog file matches, with where it belongs.
pub struct MatchedFile {
    pub source: String,
    pub filename: String,
    pub rom_name: String,
    pub dat_name: String,
    pub set_name: Option<String>,
    pub category: Option<String>,
}

/// The directory a loose item goes to: the target, then the category, then
/// the sanitised set name.
pub open spec fn loose_dir(target: Seq<char>, category: Option<Seq<char>>, set: Option<Seq<char>>) -> Seq<char> {
    let base = match category {
        Some(c) => joined(target, c),
        None => target,
    };
    match set {
        Some(s) => joined(base, sanitised(s)),
        None => base,
    }
}

/// One planned move or copy of the loose layout.
pub struct LooseAction {
    pub source: String,
    pub target_dir: String,
    pub target: String,
}

pub open spec fn opt_seq(o: Option<String>) -> Option<Seq<char>> {
    match o {
        Some(s) => Some(s@),
        None => None,
    }
}

/// What a matched file becomes in the loose layout: a loose file moves under
/// its declared name; a file inside a container moves the whole container
/// under the container's own file name.
pub open spec fn loose_source(m: MatchedFile) -> (Seq<char>, Seq<char>) {
    match split_interior(m.source@) {
        Some((c, e)) => (c, after_last(c, '/')),
        None => (m.source@, m.rom_name@),
    }
}

/// The planned action of the loose layout for a matched file.
pub open spec fn loose_plan_of(m: MatchedFile, target: Seq<char>) -> (Seq<char>, Seq<char>, Seq<char>) {
    let (src, fname) = loose_source(m);
    let dir = loose_dir(target, opt_seq(m.category), opt_seq(m.set_name));
    (src, dir, joined(dir, fname))
}

/// Plans the loose layout for one matched file.
pub fn plan_loose_item(m: &MatchedFile, target: &str) -> (r: LooseAction)
    ensures
        (r.source@, r.target_dir@, r.target@) == loose_plan_of(*m, target@),
{
    let (src, fname) = match split_archive_path(m.source.as_str()) {
        Some((c, _e)) => {
            let f = file_name_of(c.as_str());
            (c, f)
        },
        None => (m.source.clone(), m.rom_name.clone()),
    };
    let base = match &m.category {
        Some(c) => join_path(target, c.as_str()),
        None => target.to_owned(),
    };
    let dir = match &m.set_name {
        Some(s) => {
            let clean = sanitise_path(s.as_str());
            join_path(base.as_str(), clean.as_str())
        },
        None => base,
    };
    let t = join_path(dir.as_str(), fname.as_str());
    LooseAction { source: src, target_dir: dir, target: t }
}

/// The state of one loose item while the organiser works on it.
#[derive(Debug, PartialEq, Eq, Structural, Clone, Copy)]
pub enum ItemState {
    Planned,
    Missing,
    Exists,
    Executing,
    Succeeded,
    Failed,
    Skipped,
}

/// What the organiser learns about an item.
#[derive(Debug, PartialEq, Eq, Structural, Clone, Copy)]
pub enum ItemEvent {
    /// Whether the source and the target exist on disk.
    Probed { source_exists: bool, target_exists: bool },
    /// The move or copy finished, well or not.
    Finished { ok: bool },
    /// The item is passed over.
    Skip,
}

/// What the organiser does next for an item.
#[derive(Debug, PartialEq, Eq, Structural, Clone, Copy)]
pub enum ItemAction {
    Nothing,
    ReportMissing,
    ReportExists,
    /// Print the planned move or copy without touching the disk.
    Preview { copy: bool },
    /// Create the target directory and move or copy the source.
    Write { copy: bool },
}

/// The organiser's decision for an item in a state on an event.
pub open spec fn item_step(state: ItemState, event: ItemEvent, dry_run: bool, copy: bool) -> (ItemState, ItemAction) {
    match (state, event) {
        (ItemState::Planned, ItemEvent::Probed { source_exists, target_exists }) => {
            if !source_exists {
                (ItemState::Missing, ItemAction::ReportMissing)
            } else if target_exists {
                (ItemState::Exists, ItemAction::ReportExists)
            } else if dry_run {
                (ItemState::Executing, ItemAction::Preview { copy })
            } else {
                (ItemState::Executing, ItemAction::Write { copy })
            }
        },
        (ItemState::Missing, ItemEvent::Skip) => (ItemState::Skipped, ItemAction::Nothing),
        (ItemState::Exists, ItemEvent::Skip) => (ItemState::Skipped, ItemAction::Nothing),
        (ItemState::Executing, ItemEvent::Finished { ok }) => (
            if ok { ItemState::Succeeded } else { ItemState::Failed },
            ItemAction::Nothing,
        ),
        _ => (state, ItemAction::Nothing),
    }
}

/// Advances a loose item: a missing source or an existing target is
/// reported and then skipped; otherwise the item is executed (previewed in
/// dry-run mode) and ends as succeeded or failed.
pub fn step_item(state: ItemState, event: ItemEvent, dry_run: bool, copy: bool) -> (r: (ItemState, ItemAction))
    ensures
        r == item_step(state, event, dry_run, copy),
{
    match (state, event) {
        (ItemState::Planned, ItemEvent::Probed { source_exists, target_exists }) => {
            if !source_exists {
                (ItemState::Missing, ItemAction::ReportMissing)
            } else if target_exists {
                (ItemState::Exists, ItemAction::ReportExists)
            } else if dry_run {
                (ItemState::Executing, ItemAction::Preview { copy })
            } else {
                (ItemState::Executing, ItemAction::Write { copy })
            }
        },
        (ItemState::Missing, ItemEvent::Skip) => (ItemState::Skipped, ItemAction::Nothing),
        (ItemState::Exists, ItemEvent::Skip) => (ItemState::Skipped, ItemAction::Nothing),
        (ItemState::Executing, ItemEvent::Finished { ok }) => (
            if ok { ItemState::Succeeded } else { ItemState::Failed },
            ItemAction::Nothing,
        ),
        _ => (state, ItemAction::Nothing),
    }
}

/// What the organiser does for one planned archive.
#[derive(Debug, PartialEq, Eq, Structural, Clone, Copy)]
pub enum ArchiveAction {
    /// Print the archive and its member count.
    Preview,
    /// Leave an archive that already exists alone.
    KeepExisting,
    /// Create the target directory and write the archive.
    Create,
}

pub open spec fn archive_step(dry_run: bool, archive_exists: bool) -> ArchiveAction {
    if dry_run {
        ArchiveAction::Preview
    } else if archive_exists {
        ArchiveAction::KeepExisting
    } else {
        ArchiveAction::Create
    }
}

/// Decides what to do for a planned archive.
pub fn archive_action(dry_run: bool, archive_exists: bool) -> (r: ArchiveAction)
    ensures
        r == archive_step(dry_run, archive_exists),
{
    if dry_run {
        ArchiveAction::Preview
    } else if archive_exists {
        ArchiveAction::KeepExisting
    } else {
        ArchiveAction::Create
    }
}

/// Organising in dry-run mode writes nothing: whatever the state of an item
/// and whatever is learnt about it, the decision is never a write, and no
/// archive is created.
pub proof fn lemma_dry_run_writes_nothing(state: ItemState, event: ItemEvent, copy: bool, archive_exists: bool)
    ensures
        !(item_step(state, event, true, copy).1 is Write),
        archive_step(true, archive_exists) != ArchiveAction::Create,
{
}

/// The path a misnamed loose file is renamed to: its directory joined with
/// the declared name.
pub open spec fn renamed_path(path: Seq<char>, correct: Seq<char>) -> Seq<char> {
    match last_index_of(path, '/') {
        Some(i) => joined(path.subrange(0, i), correct),
        None => correct,
    }
}

/// Computes the new path of a misnamed loose file.
pub fn rename_target(path: &str, correct_name: &str) -> (r: String)
    ensures
        r@ == renamed_path(path@, correct_name@),
{
    proof {
        lemma_last_index(path@, '/');
    }
    match rfind_char(path, '/') {
        Some(i) => {
            let dir = substring(path, 0, i);
            join_path(dir.as_str(), correct_name)
        },
        None => correct_name.to_owned(),
    }
}


/// One file to pack: where it is read from, and its name inside the archive.
pub struct Member {
    pub source: String,
    pub inner: String,
}

/// A file to pack, keyed by the archive it belongs to.
pub struct Keyed {
    pub category: String,
    pub group: String,
    pub member: Member,
}

/// One archive to create: its category directory, its name without the
/// extension, and its members in the order the matches came.
pub struct ArchiveGroup {
    pub category: String,
    pub group: String,
    pub members: Vec<Member>,
}

pub open spec fn member_view(m: Member) -> (Seq<char>, Seq<char>) {
    (m.source@, m.inner@)
}

pub open spec fn key_of(k: Keyed) -> (Seq<char>, Seq<char>) {
    (k.category@, k.group@)
}

/// The members, among the first `n` keyed files, of the archive with key `key`.
pub open spec fn members_of(items: Seq<Keyed>, key: (Seq<char>, Seq<char>), n: int) -> Seq<(Seq<char>, Seq<char>)>
    decreases n,
{
    if n <= 0 {
        Seq::empty()
    } else if key_of(items[n - 1]) == key {
        members_of(items, key, n - 1).push(member_view(items[n - 1].member))
    } else {
        members_of(items, key, n - 1)
    }
}

/// The grouping of `items` into `groups`: one group per distinct key, and
/// each group holds exactly the members with its key, in order.
pub open spec fn grouped(items: Seq<Keyed>, groups: Seq<ArchiveGroup>, n: int) -> bool {
    &&& forall|g: int, h: int| 0 <= g < h < groups.len() ==>
        ((#[trigger] groups[g]).category@, groups[g].group@) != ((#[trigger] groups[h]).category@, groups[h].group@)
    &&& forall|g: int| 0 <= g < groups.len() ==>
        (#[trigger] groups[g]).members@.map_values(|m: Member| member_view(m))
            == members_of(items, (groups[g].category@, groups[g].group@), n)
    &&& forall|j: int| 0 <= j < n ==> exists|g: int| 0 <= g < groups.len()
        && key_of(#[trigger] items[j]) == (groups[g].category@, groups[g].group@)
}

proof fn lemma_members_absent(items: Seq<Keyed>, key: (Seq<char>, Seq<char>), n: int)
    requires
        0 <= n <= items.len(),
        forall|j: int| 0 <= j < n ==> key_of(#[trigger] items[j]) != key,
    ensures
        members_of(items, key, n) == Seq::<(Seq<char>, Seq<char>)>::empty(),
    decreases n,
{
    if n > 0 {
        lemma_members_absent(items, key, n - 1);
    }
}

fn clone_member(m: &Member) -> (r: Member)
    ensures
        r.source@ == m.source@,
        r.inner@ == m.inner@,
{
    Member { source: m.source.clone(), inner: m.inner.clone() }
}

/// Groups keyed files into archives, one per distinct (category, name) key,
/// in order of first appearance; each archive's members keep the order of
/// the input.
pub fn group_archives(items: &Vec<Keyed>) -> (r: Vec<ArchiveGroup>)
    ensures
        grouped(items@, r@, items@.len() as int),
{
    let mut groups: Vec<ArchiveGroup> = Vec::new();
    let mut i: usize = 0;
    while i < items.len()
        invariant
            i <= items.len(),
            grouped(items@, groups@, i as int),
        decreases items.len() - i,
    {
        let it = &items[i];
        let ghost key = key_of(*it);
        let mut g: usize = 0;
        let mut found: Option<usize> = None;
        while g < groups.len()
            invariant
                g <= groups.len(),
                found matches Some(x) ==> x < groups.len() && (groups@[x as int].category@, groups@[x as int].group@) == key,
                found is None ==> forall|h: int| 0 <= h < g ==> (#[trigger] groups@[h].category@, groups@[h].group@) != key,
                key == key_of(*it),
            decreases groups.len() - g,
        {
            if found.is_none() && crate::text::str_eq(groups[g].category.as_str(), it.category.as_str())
                && crate::text::str_eq(groups[g].group.as_str(), it.group.as_str()) {
                found = Some(g);
            }
            g = g + 1;
        }
        let ghost old_groups = groups@;
        match found {
            Some(x) => {
                let mut grp = groups.remove(x);
                let ghost before = grp.members@.map_values(|m: Member| member_view(m));
                grp.members.push(clone_member(&it.member));
                assert(grp.members@.map_values(|m: Member| member_view(m)) =~= before.push(member_view(it.member)));
                groups.insert(x, grp);
                assert forall|h: int| 0 <= h < groups@.len() implies
                    (#[trigger] groups@[h]).members@.map_values(|m: Member| member_view(m))
                        == members_of(items@, (groups@[h].category@, groups@[h].group@), i + 1) by {
                    if h != x {
                        assert(groups@[h] == old_groups[h]);
                    }
                }
                assert forall|j: int| 0 <= j < i + 1 implies exists|h: int| 0 <= h < groups@.len()
                    && key_of(#[trigger] items@[j]) == (groups@[h].category@, groups@[h].group@) by {
                    if j < i {
                        let h0 = choose|h: int| 0 <= h < old_groups.len()
                            && key_of(items@[j]) == (old_groups[h].category@, old_groups[h].group@);
                        if h0 != x {
                            assert(groups@[h0] == old_groups[h0]);
                        } else {
                            assert(groups@[x as int].category == old_groups[x as int].category);
                            assert(groups@[x as int].group == old_groups[x as int].group);
                        }
                        assert(0 <= h0 < groups@.len() && key_of(items@[j]) == (groups@[h0].category@, groups@[h0].group@));
                    } else {
                        assert(key_of(items@[j]) == (groups@[x as int].category@, groups@[x as int].group@));
                    }
                }
            },
            None => {
                let mut members: Vec<Member> = Vec::new();
                members.push(clone_member(&it.member));
                proof {
                    lemma_members_absent(items@, key, i as int);
                }
                let grp = ArchiveGroup { category: it.category.clone(), group: it.group.clone(), members };
                assert(grp.members@.map_values(|m: Member| member_view(m)) =~= seq![member_view(it.member)]);
                groups.push(grp);
                assert forall|h: int| 0 <= h < groups@.len() implies
                    (#[trigger] groups@[h]).members@.map_values(|m: Member| member_view(m))
                        == members_of(items@, (groups@[h].category@, groups@[h].group@), i + 1) by {
                    if h < old_groups.len() {
                        assert(groups@[h] == old_groups[h]);
                    }
                }
                assert forall|j: int| 0 <= j < i + 1 implies exists|h: int| 0 <= h < groups@.len()
                    && key_of(#[trigger] items@[j]) == (groups@[h].category@, groups@[h].group@) by {
                    if j < i {
                        let h0 = choose|h: int| 0 <= h < old_groups.len()
                            && key_of(items@[j]) == (old_groups[h].category@, old_groups[h].group@);
                        assert(groups@[h0] == old_groups[h0]);
                    } else {
                        assert(key_of(items@[j]) == (groups@[old_groups.len() as int].category@, groups@[old_groups.len() as int].group@));
                    }
                }
            },
        }
        i = i + 1;
    }
    groups
}


pub open spec fn or_default(o: Option<String>, d: Seq<char>) -> Seq<char> {
    match o {
        Some(s) => s@,
        None => d,
    }
}

fn string_or(o: &Option<String>, d: &str) -> (r: String)
    ensures
        r@ == or_default(*o, d@),
{
    match o {
        Some(s) => s.clone(),
        None => d.to_owned(),
    }
}

/// Keys a matched file for the one-archive-per-set layout: by category and
/// set (`unknown` when it has none); it is packed under its declared name.
pub fn keyed_per_set(m: &MatchedFile) -> (r: Keyed)
    ensures
        r.category@ == or_default(m.category, Seq::empty()),
        r.group@ == or_default(m.set_name, "unknown"@),
        r.member.source@ == m.source@,
        r.member.inner@ == m.rom_name@,
{
    proof {
        reveal_strlit("");
    }
    Keyed {
        category: string_or(&m.category, ""),
        group: string_or(&m.set_name, "unknown"),
        member: Member { source: m.source.clone(), inner: m.rom_name.clone() },
    }
}

/// The name of a file inside a per-manifest archive: the sanitised set
/// name as a directory, then the declared name.
pub open spec fn inner_per_dat(set: Option<Seq<char>>, rom: Seq<char>) -> Seq<char> {
    match set {
        Some(s) => sanitised(s) + seq!['/'] + rom,
        None => rom,
    }
}

/// Keys a matched file for the one-archive-per-manifest layout: by
/// category and manifest name.
pub fn keyed_per_dat(m: &MatchedFile) -> (r: Keyed)
    ensures
        r.category@ == or_default(m.category, Seq::empty()),
        r.group@ == m.dat_name@,
        r.member.source@ == m.source@,
        r.member.inner@ == inner_per_dat(opt_seq(m.set_name), m.rom_name@),
{
    let inner = match &m.set_name {
        Some(set) => {
            let mut p = sanitise_path(set.as_str());
            proof {
                reveal_strlit("/");
            }
            p.append("/");
            p.append(m.rom_name.as_str());
            p
        },
        None => m.rom_name.clone(),
    };
    proof {
        reveal_strlit("");
    }
    Keyed {
        category: string_or(&m.category, ""),
        group: m.dat_name.clone(),
        member: Member { source: m.source.clone(), inner },
    }
}

/// Where an archive goes: the category directory under the target, and
/// the sanitised group name with `.zip` in it.
pub open spec fn archive_location(target: Seq<char>, category: Seq<char>, group: Seq<char>) -> (Seq<char>, Seq<char>) {
    let dir = joined(target, category);
    (dir, joined(dir, sanitised(group) + ".zip"@))
}

/// Computes the directory and path of an archive to create.
pub fn archive_path(target: &str, category: &str, group: &str) -> (r: (String, String))
    ensures
        (r.0@, r.1@) == archive_location(target@, category@, group@),
{
    let dir = join_path(target, category);
    let mut name = sanitise_path(group);
    name.append(".zip");
    let path = join_path(dir.as_str(), name.as_str());
    (dir, path)
}


/// Lexicographic order of strings by character code.
pub open spec fn lex_lt(a: Seq<char>, b: Seq<char>) -> bool
    decreases a.len(),
{
    if b.len() == 0 {
        false
    } else if a.len() == 0 {
        true
    } else if a[0] != b[0] {
        (a[0] as int) < (b[0] as int)
    } else {
        lex_lt(a.drop_first(), b.drop_first())
    }
}

pub(crate) proof fn lemma_lex_asym(a: Seq<char>, b: Seq<char>)
    ensures
        !(lex_lt(a, b) && lex_lt(b, a)),
    decreases a.len(),
{
    if a.len() > 0 && b.len() > 0 && a[0] == b[0] {
        lemma_lex_asym(a.drop_first(), b.drop_first());
    }
}

pub(crate) proof fn lemma_lex_trans(a: Seq<char>, b: Seq<char>, c: Seq<char>)
    requires
        lex_lt(a, b),
        lex_lt(b, c),
    ensures
        lex_lt(a, c),
    decreases a.len(),
{
    if a.len() > 0 && b.len() > 0 && c.len() > 0 && a[0] == b[0] && b[0] == c[0] {
        lemma_lex_trans(a.drop_first(), b.drop_first(), c.drop_first());
    }
}

pub(crate) proof fn lemma_lex_total(a: Seq<char>, b: Seq<char>)
    ensures
        a == b || lex_lt(a, b) || lex_lt(b, a),
        !lex_lt(a, a),
    decreases a.len(),
{
    if a.len() > 0 && b.len() > 0 && a[0] == b[0] {
        lemma_lex_total(a.drop_first(), b.drop_first());
        if a.drop_first() == b.drop_first() {
            assert(a.len() == b.len()) by {
                assert(a.drop_first().len() == a.len() - 1);
                assert(b.drop_first().len() == b.len() - 1);
            }
            assert forall|i: int| 0 <= i < a.len() implies a[i] == b[i] by {
                if i > 0 {
                    assert(a[i] == a.drop_first()[i - 1]);
                    assert(b[i] == b.drop_first()[i - 1]);
                }
            }
            assert(a =~= b);
        }
    }
    if a.len() > 0 {
        lemma_lex_total(a.drop_first(), a.drop_first());
    }
    if a.len() == 0 && b.len() == 0 {
        assert(a =~= b);
    }
}

/// Compares two strings by character code.
pub fn lex_less(a: &str, b: &str) -> (r: bool)
    ensures
        r == lex_lt(a@, b@),
{
    let n = a.unicode_len();
    let m = b.unicode_len();
    let mut i: usize = 0;
    assert(a@.subrange(0, n as int) =~= a@);
    assert(b@.subrange(0, m as int) =~= b@);
    while i < n && i < m
        invariant
            n == a@.len(),
            m == b@.len(),
            i <= n,
            i <= m,
            lex_lt(a@, b@) == lex_lt(a@.subrange(i as int, n as int), b@.subrange(i as int, m as int)),
        decreases n - i,
    {
        let x = a.get_char(i);
        let y = b.get_char(i);
        let ghost sa = a@.subrange(i as int, n as int);
        let ghost sb = b@.subrange(i as int, m as int);
        assert(sa[0] == x && sb[0] == y);
        if x != y {
            return (x as u32) < (y as u32);
        }
        assert(sa.drop_first() =~= a@.subrange(i + 1, n as int));
        assert(sb.drop_first() =~= b@.subrange(i + 1, m as int));
        i = i + 1;
    }
    i == n && i < m
}

/// Members ordered by their case-folded inner names.
pub open spec fn in_archive_order(ms: Seq<Member>) -> bool {
    forall|i: int, j: int| 0 <= i < j < ms.len() ==> !lex_lt(lower_of((#[trigger] ms[j]).inner@), lower_of((#[trigger] ms[i]).inner@))
}

/// Where a member with folded name `k` goes among `s`: before the first
/// member, from position `i` on, whose folded name is greater; so after
/// every member whose folded name is equal.
pub open spec fn insert_pos(s: Seq<Member>, k: Seq<char>, i: int) -> int
    decreases s.len() - i,
{
    if i < 0 || i >= s.len() {
        s.len() as int
    } else if lex_lt(k, lower_of(s[i].inner@)) {
        i
    } else {
        insert_pos(s, k, i + 1)
    }
}

/// The members in archive order: each inserted, in input order, after the
/// members already placed whose folded names are not greater. Members with
/// equal folded names thus keep their input order, and the same members
/// always give the same order.
pub open spec fn archive_sorted(ms: Seq<Member>) -> Seq<Member>
    decreases ms.len(),
{
    if ms.len() == 0 {
        Seq::empty()
    } else {
        let s = archive_sorted(ms.drop_last());
        s.insert(insert_pos(s, lower_of(ms.last().inner@), 0), ms.last())
    }
}

/// Orders the members of an archive ascending by their case-folded inner
/// names; members whose folded names are equal keep their order.
pub fn archive_order(members: Vec<Member>) -> (r: Vec<Member>)
    ensures
        r@ == archive_sorted(members@),
        r@.to_multiset() == members@.to_multiset(),
        in_archive_order(r@),
{
    broadcast use vstd::seq_lib::group_to_multiset_ensures;

    let ghost all = members@.to_multiset();
    let ghost ms = members@;
    let n = members.len();
    let mut rest = members;
    let mut out: Vec<Member> = Vec::new();
    let mut done: usize = 0;
    assert(ms.subrange(0, 0) =~= Seq::<Member>::empty());
    assert(rest@ =~= ms.subrange(0, ms.len() as int));
    while rest.len() > 0
        invariant
            out@.to_multiset().add(rest@.to_multiset()) == all,
            in_archive_order(out@),
            done + rest@.len() == ms.len(),
            ms.len() == n,
            rest@ == ms.subrange(done as int, ms.len() as int),
            out@ == archive_sorted(ms.subrange(0, done as int)),
        decreases rest.len(),
    {
        let ghost rest0 = rest@;
        let item = rest.remove(0);
        let key = lowercase(item.inner.as_str());
        let mut p: usize = 0;
        while p < out.len() && !lex_less(key.as_str(), lowercase(out[p].inner.as_str()).as_str())
            invariant
                p <= out.len(),
                key@ == lower_of(item.inner@),
                in_archive_order(out@),
                forall|k: int| 0 <= k < p ==> !lex_lt(key@, lower_of((#[trigger] out@[k]).inner@)),
                insert_pos(out@, key@, 0) == insert_pos(out@, key@, p as int),
            decreases out.len() - p,
        {
            p = p + 1;
        }
        proof {
            assert(insert_pos(out@, key@, 0) == p);
            assert(item == ms[done as int]);
            assert(ms.subrange(0, done + 1).drop_last() =~= ms.subrange(0, done as int));
            assert(ms.subrange(0, done + 1).last() == item);
        }
        let ghost before = out@;
        out.insert(p, item);
        proof {
            assert forall|i: int, j: int| 0 <= i < j < out@.len() implies !lex_lt(
                lower_of((#[trigger] out@[j]).inner@),
                lower_of((#[trigger] out@[i]).inner@),
            ) by {
                let kj = lower_of(out@[j].inner@);
                let ki = lower_of(out@[i].inner@);
                if j < p {
                    assert(out@[i] == before[i] && out@[j] == before[j]);
                } else if j == p {
                    assert(out@[i] == before[i]);
                } else if i == p {
                    assert(out@[j] == before[j - 1]);
                    assert(lex_lt(key@, lower_of(before[p as int].inner@)));
                    if lex_lt(kj, key@) {
                        if j - 1 == p {
                            lemma_lex_asym(kj, key@);
                        } else {
                            lemma_lex_trans(kj, key@, lower_of(before[p as int].inner@));
                            assert(!lex_lt(lower_of(before[j - 1].inner@), lower_of(before[p as int].inner@)));
                        }
                    }
                } else if i < p {
                    assert(out@[i] == before[i] && out@[j] == before[j - 1]);
                } else {
                    assert(out@[i] == before[i - 1] && out@[j] == before[j - 1]);
                }
            }
            assert(rest0 =~= rest@.insert(0, item));
            assert(rest@ =~= ms.subrange(done + 1, ms.len() as int));
            vstd::seq_lib::to_multiset_insert(rest@, 0, item);
            vstd::seq_lib::to_multiset_insert(before, p as int, item);
            assert(out@ == before.insert(p as int, item));
            assert(out@.to_multiset().add(rest@.to_multiset()) =~= before.to_multiset().add(rest0.to_multiset()));
        }
        done = done + 1;
    }
    assert(rest@.to_multiset() =~= vstd::multiset::Multiset::empty());
    assert(ms.subrange(0, done as int) =~= ms);
    out
}


pub open spec fn action_view(a: LooseAction) -> (Seq<char>, Seq<char>, Seq<char>) {
    (a.source@, a.target_dir@, a.target@)
}

/// The loose-layout actions for the first `n` matches: one per loose file,
/// and one per container however many of its entries match.
pub open spec fn loose_plans(ms: Seq<MatchedFile>, target: Seq<char>, n: int) -> Seq<(Seq<char>, Seq<char>, Seq<char>)>
    decreases n,
{
    if n <= 0 {
        Seq::empty()
    } else {
        let prev = loose_plans(ms, target, n - 1);
        let a = loose_plan_of(ms[n - 1], target);
        if split_interior(ms[n - 1].source@) is Some && exists|k: int| 0 <= k < prev.len() && (#[trigger] prev[k]).0 == a.0 {
            prev
        } else {
            prev.push(a)
        }
    }
}

/// Plans the loose layout for all matches.
pub fn plan_loose(matches: &Vec<MatchedFile>, target: &str) -> (r: Vec<LooseAction>)
    ensures
        r@.map_values(|a: LooseAction| action_view(a)) == loose_plans(matches@, target@, matches@.len() as int),
{
    let mut out: Vec<LooseAction> = Vec::new();
    let mut i: usize = 0;
    while i < matches.len()
        invariant
            i <= matches.len(),
            out@.map_values(|a: LooseAction| action_view(a)) == loose_plans(matches@, target@, i as int),
        decreases matches.len() - i,
    {
        let ghost prev = out@.map_values(|a: LooseAction| action_view(a));
        let m = &matches[i];
        let plan = plan_loose_item(m, target);
        let interior = split_archive_path(m.source.as_str()).is_some();
        let mut dup = false;
        if interior {
            let mut k: usize = 0;
            while k < out.len()
                invariant
                    k <= out.len(),
                    prev == out@.map_values(|a: LooseAction| action_view(a)),
                    dup == exists|q: int| 0 <= q < k && (#[trigger] prev[q]).0 == plan.source@,
                decreases out.len() - k,
            {
                if crate::text::str_eq(out[k].source.as_str(), plan.source.as_str()) {
                    assert(prev[k as int].0 == plan.source@);
                    dup = true;
                }
                k = k + 1;
            }
        }
        if !dup {
            let ghost pv = action_view(plan);
            out.push(plan);
            assert(out@.map_values(|a: LooseAction| action_view(a)) =~= prev.push(pv));
        }
        i = i + 1;
    }
    out
}


/// A misnamed loose file to rename in place: its path, its new path, and
/// the declared name.
pub struct Rename {
    pub source: String,
    pub target: String,
    pub name: String,
}

/// A match asks for a rename: the file is loose and its basename differs
/// from the declared name ignoring case.
pub open spec fn needs_rename(m: MatchedFile) -> bool {
    split_interior(m.source@) is None && lower_of(m.filename@) != lower_of(m.rom_name@)
}

/// The renames for the first `n` matches: one per misnamed loose file, for
/// the first match of that file.
pub open spec fn rename_plans(ms: Seq<MatchedFile>, n: int) -> Seq<(Seq<char>, Seq<char>, Seq<char>)>
    decreases n,
{
    if n <= 0 {
        Seq::empty()
    } else {
        let prev = rename_plans(ms, n - 1);
        let m = ms[n - 1];
        if needs_rename(m) && !exists|k: int| 0 <= k < prev.len() && (#[trigger] prev[k]).0 == m.source@ {
            prev.push((m.source@, renamed_path(m.source@, m.rom_name@), m.rom_name@))
        } else {
            prev
        }
    }
}

pub open spec fn rename_view(r: Rename) -> (Seq<char>, Seq<char>, Seq<char>) {
    (r.source@, r.target@, r.name@)
}

/// Plans the rename-only mode: each misnamed loose file is renamed, once,
/// to its declared name in its own directory.
pub fn plan_renames(matches: &Vec<MatchedFile>) -> (r: Vec<Rename>)
    ensures
        r@.map_values(|x: Rename| rename_view(x)) == rename_plans(matches@, matches@.len() as int),
{
    let mut out: Vec<Rename> = Vec::new();
    let mut i: usize = 0;
    while i < matches.len()
        invariant
            i <= matches.len(),
            out@.map_values(|x: Rename| rename_view(x)) == rename_plans(matches@, i as int),
        decreases matches.len() - i,
    {
        let ghost prev = out@.map_values(|x: Rename| rename_view(x));
        let m = &matches[i];
        let loose = split_archive_path(m.source.as_str()).is_none();
        let a = lowercase(m.filename.as_str());
        let b = lowercase(m.rom_name.as_str());
        if loose && a != b {
            let mut dup = false;
            let mut k: usize = 0;
            while k < out.len()
                invariant
                    k <= out.len(),
                    prev == out@.map_values(|x: Rename| rename_view(x)),
                    dup == exists|q: int| 0 <= q < k && (#[trigger] prev[q]).0 == m.source@,
                decreases out.len() - k,
            {
                if crate::text::str_eq(out[k].source.as_str(), m.source.as_str()) {
                    assert(prev[k as int].0 == m.source@);
                    dup = true;
                }
                k = k + 1;
            }
            if !dup {
                let plan = Rename {
                    source: m.source.clone(),
                    target: rename_target(m.source.as_str(), m.rom_name.as_str()),
                    name: m.rom_name.clone(),
                };
                let ghost pv = rename_view(plan);
                out.push(plan);
                assert(out@.map_values(|x: Rename| rename_view(x)) =~= prev.push(pv));
            }
        }
        i = i + 1;
    }
    out
}

} // verus!
