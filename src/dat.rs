//! Manifest model and parser: entries, sets, headers, the format tag, and
//! the Logiqx state machine that turns XML events into visitor calls.
use vstd::prelude::*;
use crate::text::{
    after_last, file_name_of, has_sub, last_index_of, lemma_last_index, lower_of, lowercase, rfind_char,
    str_contains, str_eq, substring,
};
use crate::xml::{xml_events, xml_tokens, ParseError};

verus! {

/// A single expected file of a manifest.
pub struct DatEntry {
    pub name: String,
    pub size: u64,
    pub crc32: Option<String>,
    pub md5: Option<String>,
    pub sha1: Option<String>,
}

pub(crate) fn clone_opt(s: &Option<String>) -> (r: Option<String>)
    ensures
        r == *s,
{
    match s {
        Some(v) => Some(v.clone()),
        None => None,
    }
}

/// The contents of an entry, as plain values.
pub struct EntryView {
    pub name: Seq<char>,
    pub size: u64,
    pub crc32: Option<Seq<char>>,
    pub md5: Option<Seq<char>>,
    pub sha1: Option<Seq<char>>,
}

pub open spec fn opt_view(o: Option<String>) -> Option<Seq<char>> {
    match o {
        Some(s) => Some(s@),
        None => None,
    }
}

impl View for DatEntry {
    type V = EntryView;

    open spec fn view(&self) -> EntryView {
        EntryView {
            name: self.name@,
            size: self.size,
            crc32: opt_view(self.crc32),
            md5: opt_view(self.md5),
            sha1: opt_view(self.sha1),
        }
    }
}

impl Clone for DatEntry {
    fn clone(&self) -> (r: Self)
        ensures
            r == *self,
    {
        DatEntry {
            name: self.name.clone(),
            size: self.size,
            crc32: clone_opt(&self.crc32),
            md5: clone_opt(&self.md5),
            sha1: clone_opt(&self.sha1),
        }
    }
}

/// Supported manifest formats, detected from the file name.
#[derive(Debug, PartialEq, Eq, Structural, Clone, Copy)]
pub enum DatFormat {
    Tosec,
    NoIntro,
    Redump,
    Mame,
    ClrMamePro,
    Unknown,
}

/// The format tag of a case-folded file name, by keyword; `clrmame` is
/// tested before `mame`, which it contains.
pub open spec fn format_of(lowered: Seq<char>) -> DatFormat {
    if has_sub(lowered, "tosec"@) {
        DatFormat::Tosec
    } else if has_sub(lowered, "no-intro"@) {
        DatFormat::NoIntro
    } else if has_sub(lowered, "redump"@) {
        DatFormat::Redump
    } else if has_sub(lowered, "clrmame"@) {
        DatFormat::ClrMamePro
    } else if has_sub(lowered, "mame"@) || has_sub(lowered, "softwarelist"@) {
        DatFormat::Mame
    } else {
        DatFormat::Unknown
    }
}

impl DatFormat {
    /// The format named by keywords in an already case-folded file name.
    pub fn from_lowered_name(lowered: &str) -> (r: DatFormat)
        ensures
            r == format_of(lowered@),
    {
        if str_contains(lowered, "tosec") {
            DatFormat::Tosec
        } else if str_contains(lowered, "no-intro") {
            DatFormat::NoIntro
        } else if str_contains(lowered, "redump") {
            DatFormat::Redump
        } else if str_contains(lowered, "clrmame") {
            DatFormat::ClrMamePro
        } else if str_contains(lowered, "mame") || str_contains(lowered, "softwarelist") {
            DatFormat::Mame
        } else {
            DatFormat::Unknown
        }
    }

    /// The format named by keywords in the file name of `path`, ignoring case.
    pub fn from_path(path: &str) -> (r: DatFormat)
        ensures
            r == format_of(lower_of(after_last(path@, '/'))),
    {
        let name = file_name_of(path);
        let lowered = lowercase(name.as_str());
        DatFormat::from_lowered_name(lowered.as_str())
    }

    /// The display label of the format.
    pub fn label(&self) -> (r: String)
        ensures
            r@ == format_label(*self),
    {
        match self {
            DatFormat::Tosec => "TOSEC".to_string(),
            DatFormat::NoIntro => "No-Intro".to_string(),
            DatFormat::Redump => "Redump".to_string(),
            DatFormat::Mame => "MAME".to_string(),
            DatFormat::ClrMamePro => "ClrMamePro".to_string(),
            DatFormat::Unknown => "Unknown".to_string(),
        }
    }
}

/// The display label of each format.
pub open spec fn format_label(f: DatFormat) -> Seq<char> {
    match f {
        DatFormat::Tosec => "TOSEC"@,
        DatFormat::NoIntro => "No-Intro"@,
        DatFormat::Redump => "Redump"@,
        DatFormat::Mame => "MAME"@,
        DatFormat::ClrMamePro => "ClrMamePro"@,
        DatFormat::Unknown => "Unknown"@,
    }
}

} // verus!

verus! {

/// An attribute of an XML element, as a key and its raw value.
pub struct XmlAttr {
    pub key: String,
    pub value: String,
}

/// The XML events the manifest parser reads, in document order.
pub enum XmlEvent {
    Start { name: String, attrs: Vec<XmlAttr> },
    Empty { name: String, attrs: Vec<XmlAttr> },
    End { name: String },
    Text { text: String },
    /// A comment, CDATA section, declaration, processing instruction or
    /// doctype; the manifest parser passes over it.
    Other,
}

/// An XML event as plain values; attributes are (key, value) pairs.
pub enum EventView {
    Start { name: Seq<char>, attrs: Seq<(Seq<char>, Seq<char>)> },
    Empty { name: Seq<char>, attrs: Seq<(Seq<char>, Seq<char>)> },
    End { name: Seq<char> },
    Text { text: Seq<char> },
    Other,
}

pub open spec fn attrs_view(a: Seq<XmlAttr>) -> Seq<(Seq<char>, Seq<char>)> {
    a.map_values(|x: XmlAttr| (x.key@, x.value@))
}

impl View for XmlEvent {
    type V = EventView;

    open spec fn view(&self) -> EventView {
        match self {
            XmlEvent::Start { name, attrs } => EventView::Start { name: name@, attrs: attrs_view(attrs@) },
            XmlEvent::Empty { name, attrs } => EventView::Empty { name: name@, attrs: attrs_view(attrs@) },
            XmlEvent::End { name } => EventView::End { name: name@ },
            XmlEvent::Text { text } => EventView::Text { text: text@ },
            XmlEvent::Other => EventView::Other,
        }
    }
}

/// Metadata emitted at the start of a manifest.
pub struct DatHeader {
    pub name: String,
    pub description: Option<String>,
    pub version: Option<String>,
    pub format: DatFormat,
}

/// The set currently being parsed.
pub struct DatSetInfo {
    pub name: String,
}

/// One call of the visitor protocol, in the order the parser makes them.
pub enum VisitCall {
    DatStart(DatHeader),
    SetStart(DatSetInfo),
    SetEnd(DatSetInfo),
    Rom(DatEntry),
    DatEnd,
}

/// A visitor call as plain values.
pub enum CallView {
    DatStart { name: Seq<char>, description: Option<Seq<char>>, version: Option<Seq<char>>, format: DatFormat },
    SetStart { name: Seq<char> },
    SetEnd { name: Seq<char> },
    Rom { entry: EntryView },
    DatEnd,
}

impl View for VisitCall {
    type V = CallView;

    open spec fn view(&self) -> CallView {
        match self {
            VisitCall::DatStart(h) => CallView::DatStart {
                name: h.name@,
                description: opt_view(h.description),
                version: opt_view(h.version),
                format: h.format,
            },
            VisitCall::SetStart(s) => CallView::SetStart { name: s.name@ },
            VisitCall::SetEnd(s) => CallView::SetEnd { name: s.name@ },
            VisitCall::Rom(e) => CallView::Rom { entry: e@ },
            VisitCall::DatEnd => CallView::DatEnd,
        }
    }
}

pub open spec fn calls_view(c: Seq<VisitCall>) -> Seq<CallView> {
    c.map_values(|x: VisitCall| x@)
}

/// The header field that the next text event fills.
#[derive(PartialEq, Eq, Structural, Clone, Copy)]
pub enum TextTarget {
    Name,
    Description,
    Version,
}

/// The parser's state between events.
pub struct ParseState {
    pub current_set: Option<DatSetInfo>,
    pub in_header: bool,
    pub target: Option<TextTarget>,
    pub name: String,
    pub description: Option<String>,
    pub version: Option<String>,
    pub started: bool,
}

/// The parser's state as plain values.
pub struct StateView {
    pub current_set: Option<Seq<char>>,
    pub in_header: bool,
    pub target: Option<TextTarget>,
    pub name: Seq<char>,
    pub description: Option<Seq<char>>,
    pub version: Option<Seq<char>>,
    pub started: bool,
}

impl View for ParseState {
    type V = StateView;

    open spec fn view(&self) -> StateView {
        StateView {
            current_set: match self.current_set {
                Some(s) => Some(s.name@),
                None => None,
            },
            in_header: self.in_header,
            target: self.target,
            name: self.name@,
            description: opt_view(self.description),
            version: opt_view(self.version),
            started: self.started,
        }
    }
}

pub open spec fn initial_state() -> StateView {
    StateView {
        current_set: None,
        in_header: false,
        target: None,
        name: Seq::empty(),
        description: None,
        version: None,
        started: false,
    }
}

/// The element names that open a set.
pub open spec fn is_set_tag(n: Seq<char>) -> bool {
    n == "game"@ || n == "machine"@ || n == "software"@
}

/// The manifest name at header time: the declared name, or the file stem
/// when none was declared; a longer description replaces it.
pub open spec fn header_name(st: StateView, stem: Seq<char>) -> Seq<char> {
    let base = if st.name.len() == 0 { stem } else { st.name };
    match st.description {
        Some(d) => if d.len() > base.len() { d } else { base },
        None => base,
    }
}

/// The header call is made once, before any set or rom.
pub open spec fn emit_spec(st: StateView, stem: Seq<char>, fmt: DatFormat) -> (StateView, Seq<CallView>) {
    if st.started {
        (st, Seq::empty())
    } else {
        (
            StateView { started: true, ..st },
            seq![CallView::DatStart {
                name: header_name(st, stem),
                description: st.description,
                version: st.version,
                format: fmt,
            }],
        )
    }
}

/// The value of the last attribute named `name` among the first `n`; empty when none.
pub open spec fn set_name_of(attrs: Seq<(Seq<char>, Seq<char>)>, n: int) -> Seq<char>
    decreases n,
{
    if n <= 0 {
        Seq::empty()
    } else if attrs[n - 1].0 == "name"@ {
        attrs[n - 1].1
    } else {
        set_name_of(attrs, n - 1)
    }
}

/// The value of a run of decimal digits.
pub open spec fn digits_value(s: Seq<char>) -> int
    decreases s.len(),
{
    if s.len() == 0 {
        0
    } else {
        digits_value(s.drop_last()) * 10 + (s.last() as int - '0' as int)
    }
}

pub open spec fn all_digits(s: Seq<char>) -> bool {
    forall|i: int| 0 <= i < s.len() ==> '0' <= #[trigger] s[i] <= '9'
}

/// A declared size: an optional `+` and decimal digits that fit in 64 bits;
/// anything else reads as zero.
pub open spec fn size_of_text(s: Seq<char>) -> u64 {
    let d = if s.len() > 0 && s[0] == '+' { s.drop_first() } else { s };
    if d.len() > 0 && all_digits(d) && digits_value(d) <= u64::MAX {
        digits_value(d) as u64
    } else {
        0
    }
}

pub open spec fn empty_entry() -> EntryView {
    EntryView { name: Seq::empty(), size: 0, crc32: None, md5: None, sha1: None }
}

/// The entry that the first `n` attributes of a rom element declare; later
/// attributes override earlier ones, and digests are case-folded.
pub open spec fn rom_of(attrs: Seq<(Seq<char>, Seq<char>)>, n: int) -> EntryView
    decreases n,
{
    if n <= 0 {
        empty_entry()
    } else {
        let e = rom_of(attrs, n - 1);
        let k = attrs[n - 1].0;
        let v = attrs[n - 1].1;
        if k == "name"@ {
            EntryView { name: v, ..e }
        } else if k == "size"@ {
            EntryView { size: size_of_text(v), ..e }
        } else if k == "crc"@ {
            EntryView { crc32: Some(lower_of(v)), ..e }
        } else if k == "md5"@ {
            EntryView { md5: Some(lower_of(v)), ..e }
        } else if k == "sha1"@ {
            EntryView { sha1: Some(lower_of(v)), ..e }
        } else {
            e
        }
    }
}

/// The effect of one event on the state, and the visitor calls it makes.
pub open spec fn step_spec(st: StateView, ev: EventView, stem: Seq<char>, fmt: DatFormat) -> (StateView, Seq<CallView>) {
    match ev {
        EventView::Start { name, attrs } => {
            if name == "header"@ {
                (StateView { in_header: true, ..st }, Seq::empty())
            } else if name == "name"@ && st.in_header {
                (StateView { target: Some(TextTarget::Name), ..st }, Seq::empty())
            } else if name == "description"@ && st.in_header {
                (StateView { target: Some(TextTarget::Description), ..st }, Seq::empty())
            } else if name == "version"@ && st.in_header {
                (StateView { target: Some(TextTarget::Version), ..st }, Seq::empty())
            } else if is_set_tag(name) {
                let (s1, c1) = emit_spec(st, stem, fmt);
                let set = set_name_of(attrs, attrs.len() as int);
                (StateView { current_set: Some(set), ..s1 }, c1.push(CallView::SetStart { name: set }))
            } else if name == "rom"@ {
                let (s1, c1) = emit_spec(st, stem, fmt);
                (s1, c1.push(CallView::Rom { entry: rom_of(attrs, attrs.len() as int) }))
            } else {
                (st, Seq::empty())
            }
        },
        EventView::Empty { name, attrs } => {
            if is_set_tag(name) {
                let (s1, c1) = emit_spec(st, stem, fmt);
                let set = set_name_of(attrs, attrs.len() as int);
                (s1, c1.push(CallView::SetStart { name: set }).push(CallView::SetEnd { name: set }))
            } else if name == "rom"@ {
                let (s1, c1) = emit_spec(st, stem, fmt);
                (s1, c1.push(CallView::Rom { entry: rom_of(attrs, attrs.len() as int) }))
            } else {
                (st, Seq::empty())
            }
        },
        EventView::End { name } => {
            let s0 = StateView { target: None, ..st };
            if name == "header"@ {
                emit_spec(StateView { in_header: false, ..s0 }, stem, fmt)
            } else if is_set_tag(name) {
                match st.current_set {
                    Some(set) => (StateView { current_set: None, ..s0 }, seq![CallView::SetEnd { name: set }]),
                    None => (s0, Seq::empty()),
                }
            } else {
                (s0, Seq::empty())
            }
        },
        EventView::Text { text } => {
            match st.target {
                Some(TextTarget::Name) => (StateView { name: text, ..st }, Seq::empty()),
                Some(TextTarget::Description) => (StateView { description: Some(text), ..st }, Seq::empty()),
                Some(TextTarget::Version) => (StateView { version: Some(text), ..st }, Seq::empty()),
                None => (st, Seq::empty()),
            }
        },
        EventView::Other => (st, Seq::empty()),
    }
}

/// The state after the first `n` events, and the calls made so far.
pub open spec fn run_spec(evs: Seq<EventView>, n: int, stem: Seq<char>, fmt: DatFormat) -> (StateView, Seq<CallView>)
    decreases n,
{
    if n <= 0 {
        (initial_state(), Seq::empty())
    } else {
        let (s, c) = run_spec(evs, n - 1, stem, fmt);
        let (s2, c2) = step_spec(s, evs[n - 1], stem, fmt);
        (s2, c + c2)
    }
}

/// All visitor calls for a document: those of its events, then the header
/// if no event triggered it, then the end call.
pub open spec fn calls_of(evs: Seq<EventView>, stem: Seq<char>, fmt: DatFormat) -> Seq<CallView> {
    let (s, c) = run_spec(evs, evs.len() as int, stem, fmt);
    let (s2, c2) = emit_spec(s, stem, fmt);
    (c + c2).push(CallView::DatEnd)
}

pub open spec fn events_view(e: Seq<XmlEvent>) -> Seq<EventView> {
    e.map_values(|x: XmlEvent| x@)
}

} // verus!

verus! {

proof fn lemma_digits_grow(s: Seq<char>, k: int)
    requires
        0 <= k <= s.len(),
        all_digits(s),
    ensures
        digits_value(s.subrange(0, k)) <= digits_value(s),
        0 <= digits_value(s.subrange(0, k)),
    decreases s.len() - k,
{
    lemma_digits_nonneg(s.subrange(0, k));
    if k < s.len() {
        let a = s.subrange(0, k);
        let b = s.subrange(0, k + 1);
        assert(b.drop_last() =~= a);
        assert(b.last() == s[k]);
        assert('0' <= s[k] <= '9');
        lemma_digits_grow(s, k + 1);
    } else {
        assert(s.subrange(0, k) =~= s);
    }
}

proof fn lemma_digits_nonneg(s: Seq<char>)
    requires
        all_digits(s),
    ensures
        0 <= digits_value(s),
    decreases s.len(),
{
    if s.len() > 0 {
        assert(all_digits(s.drop_last())) by {
            assert forall|i: int| 0 <= i < s.drop_last().len() implies '0' <= #[trigger] s.drop_last()[i] <= '9' by {
                assert(s.drop_last()[i] == s[i]);
            }
        }
        lemma_digits_nonneg(s.drop_last());
        assert('0' <= s[s.len() - 1] <= '9');
    }
}

/// Reads a declared size; text that is not a 64-bit decimal reads as zero.
pub fn parse_size(text: &str) -> (r: u64)
    ensures
        r == size_of_text(text@),
{
    let n = text.unicode_len();
    let ghost s = text@;
    let start: usize = if n > 0 && text.get_char(0) == '+' { 1 } else { 0 };
    let ghost d = s.subrange(start as int, n as int);
    assert(d =~= (if s.len() > 0 && s[0] == '+' { s.drop_first() } else { s }));
    if start == n {
        return 0;
    }
    let mut acc: u64 = 0;
    let mut i: usize = start;
    while i < n
        invariant
            s == text@,
            n == s.len(),
            start <= i <= n,
            start < n,
            d == s.subrange(start as int, n as int),
            d == (if s.len() > 0 && s[0] == '+' { s.drop_first() } else { s }),
            forall|k: int| start <= k < i ==> '0' <= #[trigger] s[k] <= '9',
            acc as int == digits_value(s.subrange(start as int, i as int)),
        decreases n - i,
    {
        let c = text.get_char(i);
        if c < '0' || c > '9' {
            assert(!all_digits(d)) by {
                assert(d[i - start] == c);
            }
            return 0;
        }
        let ghost pre = s.subrange(start as int, i as int);
        let ghost next = s.subrange(start as int, i + 1);
        assert(next.drop_last() =~= pre);
        assert(next.last() == c);
        let digit = (c as u32 - '0' as u32) as u64;
        match acc.checked_mul(10) {
            Some(m) => match m.checked_add(digit) {
                Some(v) => {
                    acc = v;
                },
                None => {
                    proof {
                        lemma_overflow_tail(s, start as int, i as int, n as int);
                    }
                    return 0;
                },
            },
            None => {
                proof {
                    lemma_overflow_tail(s, start as int, i as int, n as int);
                }
                return 0;
            },
        }
        i = i + 1;
    }
    assert(s.subrange(start as int, i as int) =~= d);
    assert(all_digits(d)) by {
        assert forall|k: int| 0 <= k < d.len() implies '0' <= #[trigger] d[k] <= '9' by {
            assert(d[k] == s[start + k]);
        }
    }
    acc
}

/// When the digits up to `i + 1` already exceed 64 bits, so does the whole
/// run of digits, or the run holds a non-digit.
proof fn lemma_overflow_tail(s: Seq<char>, start: int, i: int, n: int)
    requires
        0 <= start <= i < n <= s.len(),
        forall|k: int| start <= k < i ==> '0' <= #[trigger] s[k] <= '9',
        '0' <= s[i] <= '9',
        digits_value(s.subrange(start, i + 1)) > u64::MAX,
    ensures
        !(all_digits(s.subrange(start, n)) && digits_value(s.subrange(start, n)) <= u64::MAX),
{
    let d = s.subrange(start, n);
    if all_digits(d) {
        assert(d.subrange(0, i + 1 - start) =~= s.subrange(start, i + 1));
        lemma_digits_grow(d, i + 1 - start);
    }
}

/// Reads the entry declared by a rom element's attributes.
pub fn rom_from_attrs(attrs: &Vec<XmlAttr>) -> (r: DatEntry)
    ensures
        r@ == rom_of(attrs_view(attrs@), attrs@.len() as int),
{
    let ghost av = attrs_view(attrs@);
    let mut e = DatEntry { name: String::new(), size: 0, crc32: None, md5: None, sha1: None };
    let mut i: usize = 0;
    while i < attrs.len()
        invariant
            av == attrs_view(attrs@),
            i <= attrs.len(),
            e@ == rom_of(av, i as int),
        decreases attrs.len() - i,
    {
        let k = attrs[i].key.as_str();
        let v = attrs[i].value.as_str();
        assert(av[i as int] == (k@, v@));
        if str_eq(k, "name") {
            e.name = v.to_owned();
        } else if str_eq(k, "size") {
            e.size = parse_size(v);
        } else if str_eq(k, "crc") {
            e.crc32 = Some(lowercase(v));
        } else if str_eq(k, "md5") {
            e.md5 = Some(lowercase(v));
        } else if str_eq(k, "sha1") {
            e.sha1 = Some(lowercase(v));
        }
        i = i + 1;
    }
    e
}

/// Reads the name of a set element from its attributes.
fn set_name_from_attrs(attrs: &Vec<XmlAttr>) -> (r: String)
    ensures
        r@ == set_name_of(attrs_view(attrs@), attrs@.len() as int),
{
    let ghost av = attrs_view(attrs@);
    let mut name = String::new();
    let mut i: usize = 0;
    while i < attrs.len()
        invariant
            av == attrs_view(attrs@),
            i <= attrs.len(),
            name@ == set_name_of(av, i as int),
        decreases attrs.len() - i,
    {
        assert(av[i as int] == (attrs[i as int].key@, attrs[i as int].value@));
        if str_eq(attrs[i].key.as_str(), "name") {
            name = attrs[i].value.clone();
        }
        i = i + 1;
    }
    name
}

fn is_set_tag_exec(n: &str) -> (r: bool)
    ensures
        r == is_set_tag(n@),
{
    str_eq(n, "game") || str_eq(n, "machine") || str_eq(n, "software")
}

/// Makes the header call unless it was made already.
fn emit_header(st: &mut ParseState, stem: &str, fmt: DatFormat, calls: &mut Vec<VisitCall>)
    ensures
        final(st)@ == emit_spec(old(st)@, stem@, fmt).0,
        calls_view(final(calls)@) == calls_view(old(calls)@) + emit_spec(old(st)@, stem@, fmt).1,
{
    if st.started {
        assert(calls_view(calls@) =~= calls_view(calls@) + Seq::<CallView>::empty());
        return;
    }
    let mut name = if st.name.unicode_len() == 0 { stem.to_owned() } else { st.name.clone() };
    match &st.description {
        Some(d) => {
            if d.unicode_len() > name.unicode_len() {
                name = d.clone();
            }
        },
        None => {},
    }
    let header = DatHeader {
        name,
        description: clone_opt(&st.description),
        version: clone_opt(&st.version),
        format: fmt,
    };
    let ghost before = calls@;
    calls.push(VisitCall::DatStart(header));
    st.started = true;
    assert(calls_view(calls@) =~= calls_view(before) + emit_spec(old(st)@, stem@, fmt).1);
}

} // verus!

verus! {

impl Clone for DatSetInfo {
    fn clone(&self) -> (r: Self)
        ensures
            r == *self,
    {
        DatSetInfo { name: self.name.clone() }
    }
}

/// Applies one XML event to the parser state, appending the visitor calls it makes.
pub fn apply_event(st: &mut ParseState, ev: &XmlEvent, stem: &str, fmt: DatFormat, calls: &mut Vec<VisitCall>)
    ensures
        final(st)@ == step_spec(old(st)@, ev@, stem@, fmt).0,
        calls_view(final(calls)@) == calls_view(old(calls)@) + step_spec(old(st)@, ev@, stem@, fmt).1,
{
    let ghost c0 = calls_view(calls@);
    match ev {
        XmlEvent::Start { name, attrs } => {
            let n = name.as_str();
            if str_eq(n, "header") {
                st.in_header = true;
            } else if str_eq(n, "name") && st.in_header {
                st.target = Some(TextTarget::Name);
            } else if str_eq(n, "description") && st.in_header {
                st.target = Some(TextTarget::Description);
            } else if str_eq(n, "version") && st.in_header {
                st.target = Some(TextTarget::Version);
            } else if is_set_tag_exec(n) {
                emit_header(st, stem, fmt, calls);
                let set = DatSetInfo { name: set_name_from_attrs(attrs) };
                let ghost c1 = calls_view(calls@);
                calls.push(VisitCall::SetStart(set.clone()));
                assert(calls_view(calls@) =~= c1.push(CallView::SetStart { name: set.name@ }));
                st.current_set = Some(set);
            } else if str_eq(n, "rom") {
                emit_header(st, stem, fmt, calls);
                let ghost c1 = calls_view(calls@);
                let entry = rom_from_attrs(attrs);
                calls.push(VisitCall::Rom(entry));
                assert(calls_view(calls@) =~= c1.push(CallView::Rom { entry: entry@ }));
            }
        },
        XmlEvent::Empty { name, attrs } => {
            if is_set_tag_exec(name.as_str()) {
                emit_header(st, stem, fmt, calls);
                let set = DatSetInfo { name: set_name_from_attrs(attrs) };
                let ghost c1 = calls_view(calls@);
                calls.push(VisitCall::SetStart(set.clone()));
                calls.push(VisitCall::SetEnd(set));
                assert(calls_view(calls@) =~= c1.push(CallView::SetStart { name: set.name@ }).push(
                    CallView::SetEnd { name: set.name@ },
                ));
            } else if str_eq(name.as_str(), "rom") {
                emit_header(st, stem, fmt, calls);
                let ghost c1 = calls_view(calls@);
                let entry = rom_from_attrs(attrs);
                calls.push(VisitCall::Rom(entry));
                assert(calls_view(calls@) =~= c1.push(CallView::Rom { entry: entry@ }));
            }
        },
        XmlEvent::End { name } => {
            let n = name.as_str();
            st.target = None;
            if str_eq(n, "header") {
                st.in_header = false;
                emit_header(st, stem, fmt, calls);
            } else if is_set_tag_exec(n) {
                match st.current_set.take() {
                    Some(set) => {
                        calls.push(VisitCall::SetEnd(set));
                        assert(calls_view(calls@) =~= c0 + seq![CallView::SetEnd { name: set.name@ }]);
                    },
                    None => {},
                }
            }
        },
        XmlEvent::Text { text } => {
            match st.target {
                Some(TextTarget::Name) => {
                    st.name = text.clone();
                },
                Some(TextTarget::Description) => {
                    st.description = Some(text.clone());
                },
                Some(TextTarget::Version) => {
                    st.version = Some(text.clone());
                },
                None => {},
            }
        },
        XmlEvent::Other => {},
    }
    assert(calls_view(calls@) =~= c0 + step_spec(old(st)@, ev@, stem@, fmt).1);
}

/// Turns a document's XML events into the visitor calls of the manifest
/// protocol: one header call before any set or rom (the file stem names a
/// manifest that declares no name; a longer description replaces the name),
/// a start and end call around each set, one call per rom, and a final end call.
pub fn parse_events(events: &Vec<XmlEvent>, stem: &str, fmt: DatFormat) -> (r: Vec<VisitCall>)
    ensures
        calls_view(r@) == calls_of(events_view(events@), stem@, fmt),
{
    let ghost evs = events_view(events@);
    let mut st = ParseState {
        current_set: None,
        in_header: false,
        target: None,
        name: String::new(),
        description: None,
        version: None,
        started: false,
    };
    let mut calls: Vec<VisitCall> = Vec::new();
    assert(calls_view(calls@) =~= Seq::<CallView>::empty());
    let mut i: usize = 0;
    while i < events.len()
        invariant
            evs == events_view(events@),
            i <= events.len(),
            (st@, calls_view(calls@)) == run_spec(evs, i as int, stem@, fmt),
        decreases events.len() - i,
    {
        assert(evs[i as int] == events[i as int]@);
        apply_event(&mut st, &events[i], stem, fmt, &mut calls);
        i = i + 1;
    }
    emit_header(&mut st, stem, fmt, &mut calls);
    let ghost c2 = calls_view(calls@);
    calls.push(VisitCall::DatEnd);
    assert(calls_view(calls@) =~= c2.push(CallView::DatEnd));
    calls
}

} // verus!

verus! {

/// A set of a parsed manifest with its entries.
pub struct DatSet {
    pub name: String,
    pub roms: Vec<DatEntry>,
}

/// A whole manifest, materialised.
pub struct ParsedDat {
    pub name: String,
    pub version: Option<String>,
    pub sets: Vec<DatSet>,
}

/// A set as plain values.
pub struct SetView {
    pub name: Seq<char>,
    pub roms: Seq<EntryView>,
}

/// A manifest as plain values.
pub struct DatView {
    pub name: Seq<char>,
    pub version: Option<Seq<char>>,
    pub sets: Seq<SetView>,
}

pub open spec fn entries_view(v: Seq<DatEntry>) -> Seq<EntryView> {
    v.map_values(|e: DatEntry| e@)
}

impl View for DatSet {
    type V = SetView;

    open spec fn view(&self) -> SetView {
        SetView { name: self.name@, roms: entries_view(self.roms@) }
    }
}

pub open spec fn sets_view(v: Seq<DatSet>) -> Seq<SetView> {
    v.map_values(|s: DatSet| s@)
}

impl View for ParsedDat {
    type V = DatView;

    open spec fn view(&self) -> DatView {
        DatView { name: self.name@, version: opt_view(self.version), sets: sets_view(self.sets@) }
    }
}

/// The number of entries in the sets.
pub open spec fn total_roms(sets: Seq<SetView>) -> int
    decreases sets.len(),
{
    if sets.len() == 0 {
        0
    } else {
        total_roms(sets.drop_last()) + sets.last().roms.len()
    }
}

impl ParsedDat {
    /// The number of entries over all sets.
    pub fn entry_count(&self) -> (r: usize)
        requires
            total_roms(self@.sets) <= usize::MAX,
        ensures
            r == total_roms(self@.sets),
    {
        let mut total: usize = 0;
        let mut i: usize = 0;
        while i < self.sets.len()
            invariant
                i <= self.sets.len(),
                total_roms(self@.sets) <= usize::MAX,
                total == total_roms(self@.sets.subrange(0, i as int)),
            decreases self.sets.len() - i,
        {
            proof {
                lemma_total_prefix(self@.sets, i as int);
                assert(self@.sets.subrange(0, i + 1).drop_last() =~= self@.sets.subrange(0, i as int));
            }
            total = total + self.sets[i].roms.len();
            i = i + 1;
        }
        assert(self@.sets.subrange(0, i as int) =~= self@.sets);
        total
    }
}

proof fn lemma_total_prefix(sets: Seq<SetView>, k: int)
    requires
        0 <= k < sets.len(),
    ensures
        total_roms(sets.subrange(0, k + 1)) <= total_roms(sets),
        total_roms(sets.subrange(0, k + 1)) == total_roms(sets.subrange(0, k)) + sets[k].roms.len(),
    decreases sets.len() - k,
{
    assert(sets.subrange(0, k + 1).drop_last() =~= sets.subrange(0, k));
    if k + 1 < sets.len() {
        lemma_total_prefix(sets, k + 1);
    } else {
        assert(sets.subrange(0, k + 1) =~= sets);
    }
}

/// What the collecting visitor holds between calls.
pub struct CollectView {
    pub dat: DatView,
    pub current: Option<SetView>,
}

pub open spec fn flush(c: CollectView) -> Seq<SetView> {
    match c.current {
        Some(s) => c.dat.sets.push(s),
        None => c.dat.sets,
    }
}

/// The effect of one visitor call on the collected manifest; a rom outside
/// any set opens a set named `Default`.
pub open spec fn collect_step(c: CollectView, call: CallView) -> CollectView {
    match call {
        CallView::DatStart { name, description, version, format } => CollectView {
            dat: DatView { name: name, version: version, ..c.dat },
            ..c
        },
        CallView::SetStart { name } => CollectView {
            dat: DatView { sets: flush(c), ..c.dat },
            current: Some(SetView { name: name, roms: Seq::empty() }),
        },
        CallView::SetEnd { name } => CollectView { dat: DatView { sets: flush(c), ..c.dat }, current: None },
        CallView::Rom { entry } => match c.current {
            Some(s) => CollectView { current: Some(SetView { roms: s.roms.push(entry), ..s }), ..c },
            None => CollectView { current: Some(SetView { name: "Default"@, roms: seq![entry] }), ..c },
        },
        CallView::DatEnd => c,
    }
}

pub open spec fn collect_upto(calls: Seq<CallView>, n: int) -> CollectView
    decreases n,
{
    if n <= 0 {
        CollectView { dat: DatView { name: Seq::empty(), version: None, sets: Seq::empty() }, current: None }
    } else {
        collect_step(collect_upto(calls, n - 1), calls[n - 1])
    }
}

/// The manifest that a sequence of visitor calls describes.
pub open spec fn collected(calls: Seq<CallView>) -> DatView {
    let c = collect_upto(calls, calls.len() as int);
    DatView { sets: flush(c), ..c.dat }
}

/// A visitor that materialises the whole manifest.
pub struct CollectingVisitor {
    pub dat: ParsedDat,
    pub current_set: Option<DatSet>,
    /// The calls accepted so far.
    pub log: Ghost<Seq<CallView>>,
}

impl View for CollectingVisitor {
    type V = CollectView;

    open spec fn view(&self) -> CollectView {
        CollectView {
            dat: self.dat@,
            current: match self.current_set {
                Some(s) => Some(s@),
                None => None,
            },
        }
    }
}

impl CollectingVisitor {
    pub fn new() -> (r: Self)
        ensures
            r@ == collect_upto(Seq::empty(), 0),
    {
        let r = CollectingVisitor {
            dat: ParsedDat { name: String::new(), version: None, sets: Vec::new() },
            current_set: None,
            log: Ghost(Seq::empty()),
        };
        assert(r@.dat.sets =~= Seq::<SetView>::empty());
        r
    }

    fn flush_current(&mut self)
        ensures
            final(self)@.dat == (DatView { sets: flush(old(self)@), ..old(self)@.dat }),
            final(self)@.current is None,
            final(self).log == old(self).log,
    {
        match self.current_set.take() {
            Some(s) => {
                let ghost before = self.dat.sets@;
                let ghost sv = s@;
                self.dat.sets.push(s);
                assert(sets_view(self.dat.sets@) =~= sets_view(before).push(sv));
            },
            None => {},
        }
    }

    /// Applies one visitor call.
    pub fn apply(&mut self, call: &VisitCall)
        ensures
            final(self)@ == collect_step(old(self)@, call@),
            final(self).log == old(self).log,
    {
        match call {
            VisitCall::DatStart(h) => {
                self.dat.name = h.name.clone();
                self.dat.version = clone_opt(&h.version);
            },
            VisitCall::SetStart(s) => {
                self.flush_current();
                let set = DatSet { name: s.name.clone(), roms: Vec::new() };
                assert(set@.roms =~= Seq::<EntryView>::empty());
                self.current_set = Some(set);
            },
            VisitCall::SetEnd(_) => {
                self.flush_current();
            },
            VisitCall::Rom(e) => {
                match self.current_set.take() {
                    Some(mut s) => {
                        let ghost before = s@;
                        s.roms.push(e.clone());
                        assert(s@.roms =~= before.roms.push(e@));
                        self.current_set = Some(s);
                    },
                    None => {
                        let mut roms: Vec<DatEntry> = Vec::new();
                        roms.push(e.clone());
                        let set = DatSet { name: "Default".to_string(), roms };
                        assert(set@.roms =~= seq![e@]);
                        self.current_set = Some(set);
                    },
                }
            },
            VisitCall::DatEnd => {},
        }
    }

    /// The collected manifest, with any open set closed.
    pub fn into_dat(self) -> (r: ParsedDat)
        ensures
            r@ == (DatView { sets: flush(self@), ..self@.dat }),
    {
        let mut v = self;
        v.flush_current();
        v.dat
    }
}

/// Materialises the manifest that a sequence of visitor calls describes.
pub fn collect_calls(calls: &Vec<VisitCall>) -> (r: ParsedDat)
    ensures
        r@ == collected(calls_view(calls@)),
{
    let ghost cv = calls_view(calls@);
    let mut v = CollectingVisitor::new();
    let mut i: usize = 0;
    while i < calls.len()
        invariant
            cv == calls_view(calls@),
            i <= calls.len(),
            v@ == collect_upto(cv, i as int),
        decreases calls.len() - i,
    {
        v.apply(&calls[i]);
        i = i + 1;
    }
    v.into_dat()
}

} // verus!

verus! {

/// The stem of a file name: the part before its last `.`, unless that dot
/// opens the name.
pub open spec fn stem_of(name: Seq<char>) -> Seq<char> {
    match last_index_of(name, '.') {
        Some(i) => if i > 0 { name.subrange(0, i) } else { name },
        None => name,
    }
}

/// The name a manifest gets when it declares none: its file stem, or
/// `Unnamed DAT` when the path has no file name.
pub open spec fn fallback_name(path: Seq<char>) -> Seq<char> {
    let s = stem_of(after_last(path, '/'));
    if s.len() == 0 { "Unnamed DAT"@ } else { s }
}

/// Computes the name a manifest at `path` gets when it declares none.
pub fn fallback_name_of(path: &str) -> (r: String)
    ensures
        r@ == fallback_name(path@),
{
    let name = file_name_of(path);
    let n = name.unicode_len();
    let stem = match rfind_char(name.as_str(), '.') {
        Some(i) => if i > 0 {
            proof {
                lemma_last_index(name@, '.');
            }
            substring(name.as_str(), 0, i)
        } else {
            name
        },
        None => name,
    };
    if stem.unicode_len() == 0 {
        "Unnamed DAT".to_string()
    } else {
        stem
    }
}

/// The text of a document without a leading byte-order mark.
pub open spec fn without_bom(xml: Seq<char>) -> Seq<char> {
    if xml.len() > 0 && xml[0] == '\u{feff}' { xml.drop_first() } else { xml }
}

fn strip_bom(xml: &str) -> (r: String)
    ensures
        r@ == without_bom(xml@),
{
    let n = xml.unicode_len();
    if n > 0 && xml.get_char(0) == '\u{feff}' {
        let r = substring(xml, 1, n);
        assert(r@ =~= without_bom(xml@));
        r
    } else {
        xml.to_owned()
    }
}

/// The visitor calls for the manifest text of the file at `path`, or `None`
/// where its XML is malformed.
pub open spec fn manifest_calls(xml: Seq<char>, path: Seq<char>) -> Option<Seq<CallView>> {
    match xml_tokens(without_bom(xml)) {
        Some(evs) => Some(calls_of(evs, fallback_name(path), format_of(lower_of(after_last(path, '/'))))),
        None => None,
    }
}

/// Parses manifest text read from `path` into visitor calls.
pub fn parse_dat_calls(xml: &str, path: &str) -> (r: Result<Vec<VisitCall>, ParseError>)
    ensures
        r is Ok <==> manifest_calls(xml@, path@) is Some,
        r matches Ok(c) ==> manifest_calls(xml@, path@) == Some(calls_view(c@)),
{
    let text = strip_bom(xml);
    let events = xml_events(text.as_str())?;
    let stem = fallback_name_of(path);
    let fmt = DatFormat::from_path(path);
    Ok(parse_events(&events, stem.as_str(), fmt))
}

/// Parses manifest text read from `path` and materialises it.
pub fn parse_dat(xml: &str, path: &str) -> (r: Result<ParsedDat, ParseError>)
    ensures
        r is Ok <==> manifest_calls(xml@, path@) is Some,
        r matches Ok(d) ==> d@ == collected(manifest_calls(xml@, path@)->0),
{
    let calls = parse_dat_calls(xml, path)?;
    Ok(collect_calls(&calls))
}

} // verus!

verus! {

/// A failure reported by a visitor; it stops the parse.
pub struct VisitError {
    pub detail: String,
}

/// Receives the calls of the manifest protocol as the parser makes them.
/// A visitor is modelled by the calls it has accepted: an accepted call is
/// appended to `received`, a refused one leaves it as it was.
pub trait DatVisitor {
    /// The calls this visitor has accepted, in order.
    spec fn received(&self) -> Seq<CallView>;

    /// This visitor accepts every call.
    spec fn accepts_all(&self) -> bool;

    fn dat_start(&mut self, header: &DatHeader) -> (r: Result<(), VisitError>)
        ensures
            r is Ok ==> final(self).received() == old(self).received().push((VisitCall::DatStart(*header))@),
            r is Err ==> final(self).received() == old(self).received(),
            old(self).accepts_all() ==> r is Ok && final(self).accepts_all(),
    ;

    fn dat_end(&mut self) -> (r: Result<(), VisitError>)
        ensures
            r is Ok ==> final(self).received() == old(self).received().push(CallView::DatEnd),
            r is Err ==> final(self).received() == old(self).received(),
            old(self).accepts_all() ==> r is Ok && final(self).accepts_all(),
    ;

    fn set_start(&mut self, set: &DatSetInfo) -> (r: Result<(), VisitError>)
        ensures
            r is Ok ==> final(self).received() == old(self).received().push((VisitCall::SetStart(*set))@),
            r is Err ==> final(self).received() == old(self).received(),
            old(self).accepts_all() ==> r is Ok && final(self).accepts_all(),
    ;

    fn set_end(&mut self, set: &DatSetInfo) -> (r: Result<(), VisitError>)
        ensures
            r is Ok ==> final(self).received() == old(self).received().push((VisitCall::SetEnd(*set))@),
            r is Err ==> final(self).received() == old(self).received(),
            old(self).accepts_all() ==> r is Ok && final(self).accepts_all(),
    ;

    fn rom(&mut self, entry: &DatEntry) -> (r: Result<(), VisitError>)
        ensures
            r is Ok ==> final(self).received() == old(self).received().push((VisitCall::Rom(*entry))@),
            r is Err ==> final(self).received() == old(self).received(),
            old(self).accepts_all() ==> r is Ok && final(self).accepts_all(),
    ;
}

/// A visitor that had received `before` now holds `before` and a proper
/// prefix of `calls`: the calls after that prefix were never accepted.
pub open spec fn stopped_within(before: Seq<CallView>, after: Seq<CallView>, calls: Seq<CallView>) -> bool {
    exists|k: int| 0 <= k < calls.len() && after == before + #[trigger] calls.subrange(0, k)
}

/// Hands the calls to a visitor in order, stopping at its first failure,
/// whose error is returned: on success the visitor has received all the
/// calls, on failure exactly those before the refused one.
pub fn visit_all<V: DatVisitor>(calls: &Vec<VisitCall>, visitor: &mut V) -> (r: Result<usize, VisitError>)
    ensures
        r matches Ok(n) ==> n == calls.len() && final(visitor).received() == old(visitor).received() + calls_view(calls@),
        r is Err ==> stopped_within(old(visitor).received(), final(visitor).received(), calls_view(calls@)),
        old(visitor).accepts_all() ==> r is Ok,
        calls@.len() == 0 ==> r matches Ok(0),
{
    let ghost start = visitor.received();
    let ghost cv = calls_view(calls@);
    let mut i: usize = 0;
    assert(cv.subrange(0, 0) =~= Seq::<CallView>::empty());
    assert(start + Seq::<CallView>::empty() =~= start);
    while i < calls.len()
        invariant
            cv == calls_view(calls@),
            i <= calls.len(),
            visitor.received() == start + cv.subrange(0, i as int),
            old(visitor).accepts_all() ==> visitor.accepts_all(),
            start == old(visitor).received(),
        decreases calls.len() - i,
    {
        assert(cv[i as int] == calls@[i as int]@);
        let res = match &calls[i] {
            VisitCall::DatStart(h) => visitor.dat_start(h),
            VisitCall::SetStart(s) => visitor.set_start(s),
            VisitCall::SetEnd(s) => visitor.set_end(s),
            VisitCall::Rom(e) => visitor.rom(e),
            VisitCall::DatEnd => visitor.dat_end(),
        };
        match res {
            Err(e) => {
                assert(stopped_within(start, visitor.received(), cv)) by {
                    assert(0 <= i < cv.len() && visitor.received() == start + cv.subrange(0, i as int));
                }
                return Err(e);
            },
            Ok(()) => {},
        }
        assert(cv.subrange(0, i + 1) =~= cv.subrange(0, i as int).push(cv[i as int]));
        assert(start + cv.subrange(0, i + 1) =~= (start + cv.subrange(0, i as int)).push(cv[i as int]));
        i = i + 1;
    }
    assert(cv.subrange(0, i as int) =~= cv);
    Ok(i)
}

} // verus!

verus! {

/// Why a streamed parse stopped: malformed XML, or a visitor failure.
pub enum StreamError {
    Parse(ParseError),
    Visit(VisitError),
}

/// Parses manifest text read from `path` and streams the visitor calls to
/// `visitor`. Malformed XML fails (and only it gives a parse error) before
/// any call is made; otherwise the calls go to the visitor in order until it
/// refuses one, whose error is returned; a visitor that accepts every call
/// receives them all and the parse succeeds.
pub fn parse_dat_streaming<V: DatVisitor>(xml: &str, path: &str, visitor: &mut V) -> (r: Result<(), StreamError>)
    ensures
        r matches Err(StreamError::Parse(_)) <==> manifest_calls(xml@, path@) is None,
        manifest_calls(xml@, path@) is None ==> final(visitor).received() == old(visitor).received(),
        r is Ok ==> (manifest_calls(xml@, path@) matches Some(c) ==> final(visitor).received() == old(visitor).received() + c),
        r matches Err(StreamError::Visit(_)) ==> (manifest_calls(xml@, path@) matches Some(c)
            ==> stopped_within(old(visitor).received(), final(visitor).received(), c)),
        manifest_calls(xml@, path@) is Some && old(visitor).accepts_all() ==> r is Ok,
{
    match parse_dat_calls(xml, path) {
        Ok(calls) => {
            let ghost c = calls_view(calls@);
            match visit_all(&calls, visitor) {
                Ok(_) => Ok(()),
                Err(e) => {
                    let ghost k = choose|k: int|
                        0 <= k < calls@.len() && visitor.received() == old(visitor).received() + c.subrange(0, k);
                    assert(0 <= k < c.len() && visitor.received() == old(visitor).received() + c.subrange(0, k));
                    assert(manifest_calls(xml@, path@) == Some(c));
                    assert(stopped_within(old(visitor).received(), visitor.received(), c));
                    Err(StreamError::Visit(e))
                },
            }
        },
        Err(e) => Err(StreamError::Parse(e)),
    }
}

} // verus!

verus! {

/// A manifest whose header description is longer than its name (the
/// declared name, or the file stem when none is declared) is named by the
/// description: the header call carries the description as the name.
pub proof fn lemma_description_replaces_name(st: StateView, stem: Seq<char>, fmt: DatFormat, d: Seq<char>)
    requires
        !st.started,
        st.description == Some(d),
        d.len() > (if st.name.len() == 0 { stem } else { st.name }).len(),
    ensures
        emit_spec(st, stem, fmt).1 == seq![CallView::DatStart { name: d, description: Some(d), version: st.version, format: fmt }],
{
}

} // verus!

verus! {

impl Clone for DatHeader {
    fn clone(&self) -> (r: Self)
        ensures
            r == *self,
    {
        DatHeader {
            name: self.name.clone(),
            description: clone_opt(&self.description),
            version: clone_opt(&self.version),
            format: self.format,
        }
    }
}

impl CollectingVisitor {
    fn accept(&mut self, call: VisitCall)
        ensures
            final(self)@ == collect_step(old(self)@, call@),
            final(self).log@ == old(self).log@.push(call@),
    {
        self.apply(&call);
        self.log = Ghost(self.log@.push(call@));
    }
}

impl DatVisitor for CollectingVisitor {
    open spec fn received(&self) -> Seq<CallView> {
        self.log@
    }

    open spec fn accepts_all(&self) -> bool {
        true
    }

    fn dat_start(&mut self, header: &DatHeader) -> (r: Result<(), VisitError>) {
        self.accept(VisitCall::DatStart(header.clone()));
        Ok(())
    }

    fn dat_end(&mut self) -> (r: Result<(), VisitError>) {
        self.accept(VisitCall::DatEnd);
        Ok(())
    }

    fn set_start(&mut self, set: &DatSetInfo) -> (r: Result<(), VisitError>) {
        self.accept(VisitCall::SetStart(set.clone()));
        Ok(())
    }

    fn set_end(&mut self, set: &DatSetInfo) -> (r: Result<(), VisitError>) {
        self.accept(VisitCall::SetEnd(set.clone()));
        Ok(())
    }

    fn rom(&mut self, entry: &DatEntry) -> (r: Result<(), VisitError>) {
        self.accept(VisitCall::Rom(entry.clone()));
        Ok(())
    }
}

} // verus!

verus! {

/// The SHA-1 of a manifest file's bytes, as lowercase hex: the content
/// digest that identifies a manifest source.
pub fn hash_dat_file(contents: &[u8]) -> (r: String)
    ensures
        r@ == crate::digest::hex_bytes(crate::digest::sha1_of(contents@)),
        r@.len() == 40,
{
    crate::digest::hash_bytes(contents).sha1
}

} // verus!

verus! {

/// The number of header calls among `c`.
pub open spec fn starts(c: Seq<CallView>) -> int
    decreases c.len(),
{
    if c.len() == 0 {
        0
    } else {
        starts(c.drop_last()) + if c.last() is DatStart { 1int } else { 0 }
    }
}

/// The name carried by the last header call among the first `n` calls;
/// empty when there is none.
pub open spec fn last_start_name(c: Seq<CallView>, n: int) -> Seq<char>
    decreases n,
{
    if n <= 0 {
        Seq::empty()
    } else if c[n - 1] is DatStart {
        c[n - 1]->DatStart_name
    } else {
        last_start_name(c, n - 1)
    }
}

proof fn lemma_starts_add(a: Seq<CallView>, b: Seq<CallView>)
    ensures
        starts(a + b) == starts(a) + starts(b),
    decreases b.len(),
{
    if b.len() > 0 {
        lemma_starts_add(a, b.drop_last());
        assert((a + b).drop_last() =~= a + b.drop_last());
    }
}

proof fn lemma_emit_starts(st: StateView, stem: Seq<char>, fmt: DatFormat)
    ensures
        starts(emit_spec(st, stem, fmt).1) == if st.started { 0int } else { 1 },
        emit_spec(st, stem, fmt).0.started,
{
    assert(starts(Seq::<CallView>::empty()) == 0);
    if !st.started {
        let c = emit_spec(st, stem, fmt).1;
        assert(c.drop_last() =~= Seq::<CallView>::empty());
        assert(c.last() is DatStart);
        assert(starts(c) == starts(c.drop_last()) + 1);
    }
}

proof fn lemma_push_starts(c: Seq<CallView>, x: CallView)
    requires
        !(x is DatStart),
    ensures
        starts(c.push(x)) == starts(c),
{
    assert(c.push(x).drop_last() =~= c);
}

proof fn lemma_step_starts(st: StateView, ev: EventView, stem: Seq<char>, fmt: DatFormat)
    ensures
        ({
            let (s2, c2) = step_spec(st, ev, stem, fmt);
            &&& st.started ==> s2.started
            &&& starts(c2) == (if s2.started && !st.started { 1int } else { 0 })
        }),
{
    lemma_emit_starts(st, stem, fmt);
    let e = emit_spec(st, stem, fmt);
    match ev {
        EventView::Start { name, attrs } => {
            let set = set_name_of(attrs, attrs.len() as int);
            lemma_push_starts(e.1, CallView::SetStart { name: set });
            lemma_push_starts(e.1, CallView::Rom { entry: rom_of(attrs, attrs.len() as int) });
            assert(starts(Seq::<CallView>::empty()) == 0);
        },
        EventView::Empty { name, attrs } => {
            let set = set_name_of(attrs, attrs.len() as int);
            lemma_push_starts(e.1, CallView::SetStart { name: set });
            lemma_push_starts(e.1.push(CallView::SetStart { name: set }), CallView::SetEnd { name: set });
            lemma_push_starts(e.1, CallView::Rom { entry: rom_of(attrs, attrs.len() as int) });
            assert(starts(Seq::<CallView>::empty()) == 0);
        },
        EventView::End { name } => {
            let s0 = StateView { target: None, in_header: false, ..st };
            lemma_emit_starts(s0, stem, fmt);
            if let Some(set) = st.current_set {
                lemma_push_starts(Seq::<CallView>::empty(), CallView::SetEnd { name: set });
                assert(seq![CallView::SetEnd { name: set }] =~= Seq::<CallView>::empty().push(CallView::SetEnd { name: set }));
            }
            assert(starts(Seq::<CallView>::empty()) == 0);
        },
        _ => {
            assert(starts(Seq::<CallView>::empty()) == 0);
        },
    }
}

proof fn lemma_run_starts(evs: Seq<EventView>, n: int, stem: Seq<char>, fmt: DatFormat)
    ensures
        starts(run_spec(evs, n, stem, fmt).1) == if run_spec(evs, n, stem, fmt).0.started { 1int } else { 0 },
    decreases n,
{
    if n > 0 {
        lemma_run_starts(evs, n - 1, stem, fmt);
        let (s, c) = run_spec(evs, n - 1, stem, fmt);
        lemma_step_starts(s, evs[n - 1], stem, fmt);
        lemma_starts_add(c, step_spec(s, evs[n - 1], stem, fmt).1);
    } else {
        assert(starts(Seq::<CallView>::empty()) == 0);
    }
}

proof fn lemma_collect_name(c: Seq<CallView>, n: int)
    requires
        0 <= n <= c.len(),
    ensures
        collect_upto(c, n).dat.name == last_start_name(c, n),
    decreases n,
{
    if n > 0 {
        lemma_collect_name(c, n - 1);
    }
}

proof fn lemma_last_start_unique(c: Seq<CallView>, n: int, h: int)
    requires
        0 <= h < n <= c.len(),
        c[h] is DatStart,
        forall|k: int| h < k < n ==> !(#[trigger] c[k] is DatStart),
    ensures
        last_start_name(c, n) == c[h]->DatStart_name,
    decreases n,
{
    if n - 1 > h {
        lemma_last_start_unique(c, n - 1, h);
    }
}

proof fn lemma_one_start_index(c: Seq<CallView>)
    requires
        starts(c) == 1,
    ensures
        exists|h: int| 0 <= h < c.len() && (#[trigger] c[h]) is DatStart
            && forall|k: int| 0 <= k < c.len() && k != h ==> !(#[trigger] c[k] is DatStart),
    decreases c.len(),
{
    let p = c.drop_last();
    if c.last() is DatStart {
        lemma_no_start(p);
        assert forall|k: int| 0 <= k < c.len() && k != c.len() - 1 implies !(#[trigger] c[k] is DatStart) by {
            assert(c[k] == p[k]);
        }
        assert(c[c.len() - 1] is DatStart);
    } else {
        lemma_one_start_index(p);
        let h = choose|h: int| 0 <= h < p.len() && (#[trigger] p[h]) is DatStart
            && forall|k: int| 0 <= k < p.len() && k != h ==> !(#[trigger] p[k] is DatStart);
        assert(c[h] == p[h]);
        assert forall|k: int| 0 <= k < c.len() && k != h implies !(#[trigger] c[k] is DatStart) by {
            if k < p.len() {
                assert(c[k] == p[k]);
            }
        }
    }
}

proof fn lemma_no_start(c: Seq<CallView>)
    requires
        starts(c) == 0,
    ensures
        forall|k: int| 0 <= k < c.len() ==> !(#[trigger] c[k] is DatStart),
    decreases c.len(),
{
    if c.len() > 0 {
        let p = c.drop_last();
        lemma_starts_nonneg(p);
        lemma_no_start(p);
        assert forall|k: int| 0 <= k < c.len() implies !(#[trigger] c[k] is DatStart) by {
            if k < p.len() {
                assert(c[k] == p[k]);
            }
        }
    }
}

proof fn lemma_starts_nonneg(c: Seq<CallView>)
    ensures
        starts(c) >= 0,
    decreases c.len(),
{
    if c.len() > 0 {
        lemma_starts_nonneg(c.drop_last());
    }
}

/// Every document makes exactly one header call, and the manifest that the
/// calls describe is named by it: so, with the header call's name fixed at
/// emission, a description longer than the declared name (or the file stem)
/// names the parsed manifest.
pub proof fn lemma_manifest_named_by_header(evs: Seq<EventView>, stem: Seq<char>, fmt: DatFormat)
    ensures
        ({
            let c = calls_of(evs, stem, fmt);
            exists|h: int| 0 <= h < c.len() && (#[trigger] c[h]) is DatStart
                && collected(c).name == c[h]->DatStart_name
                && forall|k: int| 0 <= k < c.len() && k != h ==> !(#[trigger] c[k] is DatStart)
        }),
{
    let (s, c0) = run_spec(evs, evs.len() as int, stem, fmt);
    lemma_run_starts(evs, evs.len() as int, stem, fmt);
    lemma_emit_starts(s, stem, fmt);
    let e = emit_spec(s, stem, fmt).1;
    lemma_starts_add(c0, e);
    let c = calls_of(evs, stem, fmt);
    assert(c == (c0 + e).push(CallView::DatEnd));
    lemma_push_starts(c0 + e, CallView::DatEnd);
    lemma_one_start_index(c);
    let h = choose|h: int| 0 <= h < c.len() && (#[trigger] c[h]) is DatStart
        && forall|k: int| 0 <= k < c.len() && k != h ==> !(#[trigger] c[k] is DatStart);
    lemma_collect_name(c, c.len() as int);
    lemma_last_start_unique(c, c.len() as int, h);
}

} // verus!
