//! Whether a document's required sections are present and filled.
use vstd::prelude::*;
use crate::text::{
    append_chars, chars_of, lines_of, lower_of, lowercase, split_lines, string_of, trim,
    trim_chars, views,
};

verus! {

/// Whether `p` is a prefix of `s`.
pub open spec fn starts_with(s: Seq<char>, p: Seq<char>) -> bool {
    p.len() <= s.len() && s.subrange(0, p.len() as int) == p
}

/// Whether `n` occurs in `h` as a contiguous run.
pub open spec fn contains(h: Seq<char>, n: Seq<char>) -> bool {
    exists|i: int| 0 <= i && i + n.len() <= h.len() && #[trigger] h.subrange(i, i + n.len()) == n
}

/// Whether `n` occurs in `h` at position `i`.
fn occurs_at(h: &Vec<char>, n: &Vec<char>, i: usize) -> (r: bool)
    requires
        i + n@.len() <= h@.len(),
    ensures
        r == (h@.subrange(i as int, i + n@.len()) == n@),
{
    let hl = h.len();
    let mut k: usize = 0;
    while k < n.len()
        invariant
            k <= n@.len(),
            hl == h@.len(),
            i + n@.len() <= h@.len(),
            h@.subrange(i as int, i + k) == n@.subrange(0, k as int),
        decreases n@.len() - k,
    {
        if h[i + k] != n[k] {
            assert(h@.subrange(i as int, i + n@.len())[k as int] != n@[k as int]);
            return false;
        }
        assert(h@.subrange(i as int, i + k + 1) =~= n@.subrange(0, k + 1));
        k += 1;
    }
    assert(n@.subrange(0, n@.len() as int) =~= n@);
    true
}

/// Whether `n` occurs in `h`.
pub fn contains_chars(h: &Vec<char>, n: &Vec<char>) -> (r: bool)
    ensures
        r == contains(h@, n@),
{
    if n.len() > h.len() {
        return false;
    }
    if n.len() == 0 {
        assert(h@.subrange(0, 0 + n@.len() as int) =~= n@);
        return true;
    }
    let hl = h.len();
    let last = hl - n.len();
    let mut i: usize = 0;
    while i <= last
        invariant
            hl == h@.len(),
            last < hl,
            last + n@.len() == h@.len(),
            n@.len() > 0,
            forall|j: int| 0 <= j < i ==> #[trigger] h@.subrange(j, j + n@.len()) != n@,
        decreases last + 1 - i,
    {
        if occurs_at(h, n, i) {
            return true;
        }
        i += 1;
    }
    false
}

/// Whether `s` begins with the characters of `p`.
fn starts_with_str(s: &Vec<char>, p: &str) -> (r: bool)
    ensures
        r == starts_with(s@, p@),
{
    let pv = chars_of(p);
    if pv.len() > s.len() {
        return false;
    }
    occurs_at(s, &pv, 0)
}

/// Whether `s` holds exactly the characters of `p`.
fn equals_str(s: &Vec<char>, p: &str) -> (r: bool)
    ensures
        r == (s@ == p@),
{
    let pv = chars_of(p);
    if pv.len() != s.len() {
        return false;
    }
    let r = occurs_at(s, &pv, 0);
    assert(s@.subrange(0, s@.len() as int) =~= s@);
    r
}

/// The characters of `v`, lower-cased.
fn lower_chars(v: &Vec<char>) -> (r: Vec<char>)
    ensures
        r@ == lower_of(v@),
{
    let s = string_of(v);
    let l = lowercase(s.as_str());
    chars_of(l.as_str())
}

/// Whether `line` is a `## ` or `### ` heading whose text, case-insensitively,
/// contains `name`.
pub open spec fn heading_matches(line: Seq<char>, name: Seq<char>) -> bool {
    heading_matches_lower(line, lower_of(name))
}

/// Whether `line` is a `## ` or `### ` heading whose lower-cased text contains
/// `name_lower`.
pub open spec fn heading_matches_lower(line: Seq<char>, name_lower: Seq<char>) -> bool {
    let t = lower_of(trim(line));
    (starts_with(t, "## "@) || starts_with(t, "### "@)) && contains(t, name_lower)
}

/// The first index from `i` on of a line that heads section `name`, or the
/// number of lines if there is none.
pub open spec fn first_heading(ls: Seq<Seq<char>>, name: Seq<char>, i: int) -> int
    decreases ls.len() - i,
{
    if i < 0 || i >= ls.len() {
        ls.len() as int
    } else if heading_matches(ls[i], name) {
        i
    } else {
        first_heading(ls, name, i + 1)
    }
}

/// Number of `#` characters `s` begins with.
pub open spec fn hashes(s: Seq<char>) -> nat
    decreases s.len(),
{
    if s.len() > 0 && s[0] == '#' {
        1 + hashes(s.drop_first())
    } else {
        0
    }
}

/// Whether `line` is a heading of level `level` or higher (fewer `#`).
pub open spec fn closes_section(line: Seq<char>, level: nat) -> bool {
    let t = trim(line);
    t.len() > 0 && t[0] == '#' && hashes(t) <= level
}

/// The first index from `i` on of a line that closes a section of level
/// `level`, or the number of lines if there is none.
pub open spec fn section_end(ls: Seq<Seq<char>>, i: int, level: nat) -> int
    decreases ls.len() - i,
{
    if i < 0 || i >= ls.len() {
        ls.len() as int
    } else if closes_section(ls[i], level) {
        i
    } else {
        section_end(ls, i + 1, level)
    }
}

/// The lines `ls[a..b]`, each trimmed and followed by a newline.
pub open spec fn joined(ls: Seq<Seq<char>>, a: int, b: int) -> Seq<char>
    decreases b - a,
{
    if b <= a {
        seq![]
    } else {
        joined(ls, a, b - 1) + trim(ls[b - 1]).push('\n')
    }
}

/// The trimmed body of the first section headed by `name` in `content`, or
/// `None` if no heading matches.
pub open spec fn section_body(content: Seq<char>, name: Seq<char>) -> Option<Seq<char>> {
    let ls = lines_of(content);
    let h = first_heading(ls, name, 0);
    if h >= ls.len() {
        None
    } else {
        let e = section_end(ls, h + 1, hashes(trim(ls[h])));
        Some(trim(joined(ls, h + 1, e)))
    }
}

fn count_hashes(s: &Vec<char>) -> (r: usize)
    ensures
        r == hashes(s@),
{
    let mut i: usize = 0;
    assert(s@.subrange(0, s@.len() as int) =~= s@);
    while i < s.len() && s[i] == '#'
        invariant
            i <= s@.len(),
            hashes(s@) == i + hashes(s@.subrange(i as int, s@.len() as int)),
        decreases s@.len() - i,
    {
        assert(s@.subrange(i as int, s@.len() as int).drop_first() =~= s@.subrange(
            i + 1,
            s@.len() as int,
        ));
        i += 1;
    }
    i
}

fn matches_heading(line: &Vec<char>, name_lower: &Vec<char>) -> (r: bool)
    ensures
        r == heading_matches_lower(line@, name_lower@),
{
    let t = trim_chars(line);
    let lt = lower_chars(&t);
    (starts_with_str(&lt, "## ") || starts_with_str(&lt, "### ")) && contains_chars(&lt, name_lower)
}

/// The body of the first `## ` or `### ` section whose heading contains
/// `section_name` (ignoring case): the lines up to the next heading of the same
/// or a higher level, each trimmed and followed by a newline, the whole trimmed.
/// `None` if no heading matches.
pub fn extract_section(content: &str, section_name: &str) -> (r: Option<String>)
    ensures
        match r {
            None => section_body(content@, section_name@) is None,
            Some(b) => section_body(content@, section_name@) == Some(b@),
        },
{
    let name_lower = lower_chars(&chars_of(section_name));
    let v = chars_of(content);
    let lines = split_lines(&v);
    let ghost ls = lines_of(v@);
    let n = lines.len();
    let mut h: usize = 0;
    while h < n && !matches_heading(&lines[h], &name_lower)
        invariant
            h <= n == ls.len(),
            views(lines@) == ls,
            name_lower@ == lower_of(section_name@),
            first_heading(ls, section_name@, 0) == first_heading(ls, section_name@, h as int),
        decreases n - h,
    {
        assert(lines@[h as int]@ == ls[h as int]);
        h += 1;
    }
    if h == n {
        return None;
    }
    assert(lines@[h as int]@ == ls[h as int]);
    let level = count_hashes(&trim_chars(&lines[h]));
    let mut body: Vec<char> = Vec::new();
    let mut i: usize = h + 1;
    while i < n
        invariant
            h < i <= n == ls.len(),
            views(lines@) == ls,
            level == hashes(trim(ls[h as int])),
            section_end(ls, h + 1, level as nat) == section_end(ls, i as int, level as nat),
            body@ == joined(ls, h + 1, i as int),
        ensures
            h < i <= n,
            i == n || closes_section(ls[i as int], level as nat),
            section_end(ls, h + 1, level as nat) == section_end(ls, i as int, level as nat),
            body@ == joined(ls, h + 1, i as int),
        decreases n - i,
    {
        assert(lines@[i as int]@ == ls[i as int]);
        let t = trim_chars(&lines[i]);
        if t.len() > 0 && t[0] == '#' && count_hashes(&t) <= level {
            break;
        }
        append_chars(&mut body, &t);
        body.push('\n');
        i += 1;
    }
    let b = trim_chars(&body);
    Some(string_of(&b))
}

/// What a required section holds.
#[derive(PartialEq, Eq, Structural, Clone, Copy, Debug)]
pub enum SectionState {
    /// No heading matches the section.
    Missing,
    /// A heading matches, with nothing but a placeholder under it.
    Empty,
    /// A heading matches, with content under it.
    Present,
}

/// A body that stands in for content not yet written.
pub open spec fn is_placeholder(t: Seq<char>) -> bool {
    t == "tbd"@ || t == "todo"@ || t == "n/a"@ || t == "..."@ || t == "\u{2014}"@ || t
        == "placeholder"@
}

/// The state of a section with the given trimmed body, or with none.
pub open spec fn classify(body: Option<Seq<char>>) -> SectionState {
    match body {
        None => SectionState::Missing,
        Some(b) => if b.len() == 0 || is_placeholder(trim(lower_of(b))) {
            SectionState::Empty
        } else {
            SectionState::Present
        },
    }
}

/// The state of a section whose trimmed body is `body`: `Empty` for nothing
/// or a placeholder alone (ignoring case and surrounding whitespace), else
/// `Present`.
pub fn classify_body(body: &str) -> (r: SectionState)
    ensures
        r == classify(Some(body@)),
{
    let v = chars_of(body);
    if v.len() == 0 {
        return SectionState::Empty;
    }
    let t = trim_chars(&lower_chars(&v));
    if equals_str(&t, "tbd") || equals_str(&t, "todo") || equals_str(&t, "n/a") || equals_str(
        &t,
        "...",
    ) || equals_str(&t, "\u{2014}") || equals_str(&t, "placeholder") {
        SectionState::Empty
    } else {
        SectionState::Present
    }
}

/// Finds section `section_name` in `content` and tells whether it is
/// missing, empty or present.
pub fn find_section_content(content: &str, section_name: &str) -> (r: SectionState)
    ensures
        r == classify(section_body(content@, section_name@)),
{
    match extract_section(content, section_name) {
        None => SectionState::Missing,
        Some(b) => classify_body(b.as_str()),
    }
}

/// The required sections of a template, in order; `None` for a name that is
/// not one of `adr`, `handoff`, `design-doc`.
pub open spec fn template_sections(template: Seq<char>) -> Option<Seq<Seq<char>>> {
    if template == "adr"@ {
        Some(
            seq![
                "Context and Problem Statement"@,
                "Decision Drivers"@,
                "Considered Options"@,
                "Decision Outcome"@,
                "Consequences"@,
            ],
        )
    } else if template == "handoff"@ {
        Some(seq!["Where things stand"@, "Decisions made"@, "What's next"@, "Landmines"@])
    } else if template == "design-doc"@ {
        Some(
            seq![
                "Overview"@,
                "Context"@,
                "Approach"@,
                "Alternatives considered"@,
                "Consequences"@,
            ],
        )
    } else {
        None
    }
}

/// The characters of each string of `v`.
pub open spec fn str_views(v: Seq<&str>) -> Seq<Seq<char>> {
    v.map_values(|s: &str| s@)
}

/// The characters of each string of `v`.
pub open spec fn string_views(v: Seq<String>) -> Seq<Seq<char>> {
    v.map_values(|s: String| s@)
}

/// The required sections of the named template, in order.
pub fn required_sections(template: &str) -> (r: Option<Vec<&'static str>>)
    ensures
        match r {
            None => template_sections(template@) is None,
            Some(v) => template_sections(template@) == Some(str_views(v@)),
        },
{
    let t = chars_of(template);
    let mut v: Vec<&'static str> = Vec::new();
    if equals_str(&t, "adr") {
        v.push("Context and Problem Statement");
        v.push("Decision Drivers");
        v.push("Considered Options");
        v.push("Decision Outcome");
        v.push("Consequences");
    } else if equals_str(&t, "handoff") {
        v.push("Where things stand");
        v.push("Decisions made");
        v.push("What's next");
        v.push("Landmines");
    } else if equals_str(&t, "design-doc") {
        v.push("Overview");
        v.push("Context");
        v.push("Approach");
        v.push("Alternatives considered");
        v.push("Consequences");
    } else {
        return None;
    }
    assert(template_sections(template@)->0 =~= str_views(v@));
    Some(v)
}

/// The sections of `names` that are in state `st` in `content`, in order.
pub open spec fn sections_in_state(
    content: Seq<char>,
    names: Seq<Seq<char>>,
    st: SectionState,
) -> Seq<Seq<char>> {
    names.filter(|n: Seq<char>| classify(section_body(content, n)) == st)
}

/// The result of a completeness check on a known template.
pub struct CompletenessReport {
    /// Required sections with no heading, in template order.
    pub missing: Vec<String>,
    /// Required sections with a heading but no content, in template order.
    pub empty: Vec<String>,
}

impl CompletenessReport {
    /// Whether every required section is present.
    pub fn passed(&self) -> (r: bool)
        ensures
            r == (self.missing@.len() == 0 && self.empty@.len() == 0),
    {
        self.missing.len() == 0 && self.empty.len() == 0
    }
}

/// A template name that is not one of `adr`, `handoff`, `design-doc`.
pub struct UnknownTemplate {
    pub template: String,
}

impl UnknownTemplate {
    /// The names a template may have.
    pub fn valid_choices() -> (r: &'static str)
        ensures
            r@ == "adr, handoff, design-doc"@,
    {
        "adr, handoff, design-doc"
    }
}

/// Checks that every required section of `template` is present in `content`
/// with content that is not a placeholder. An unknown template is an error,
/// reported before any section is looked at.
pub fn check(content: &str, template: &str) -> (r: Result<CompletenessReport, UnknownTemplate>)
    ensures
        match template_sections(template@) {
            None => r is Err && r->Err_0.template@ == template@,
            Some(names) => r is Ok && string_views(r->Ok_0.missing@) == sections_in_state(
                content@,
                names,
                SectionState::Missing,
            ) && string_views(r->Ok_0.empty@) == sections_in_state(
                content@,
                names,
                SectionState::Empty,
            ),
        },
{
    let names = match required_sections(template) {
        None => {
            return Err(UnknownTemplate { template: template.to_owned() });
        },
        Some(v) => v,
    };
    let ghost ns = str_views(names@);
    let mut missing: Vec<String> = Vec::new();
    let mut empty: Vec<String> = Vec::new();
    let mut i: usize = 0;
    while i < names.len()
        invariant
            i <= names@.len(),
            ns == str_views(names@),
            string_views(missing@) == sections_in_state(
                content@,
                ns.subrange(0, i as int),
                SectionState::Missing,
            ),
            string_views(empty@) == sections_in_state(
                content@,
                ns.subrange(0, i as int),
                SectionState::Empty,
            ),
        decreases names@.len() - i,
    {
        proof {
            reveal(Seq::filter);
            assert(ns.subrange(0, i + 1).drop_last() =~= ns.subrange(0, i as int));
        }
        let name = names[i];
        let st = find_section_content(content, name);
        let ghost om = string_views(missing@);
        let ghost oe = string_views(empty@);
        match st {
            SectionState::Missing => {
                missing.push(name.to_owned());
                assert(string_views(missing@) =~= om.push(name@));
            },
            SectionState::Empty => {
                empty.push(name.to_owned());
                assert(string_views(empty@) =~= oe.push(name@));
            },
            SectionState::Present => {},
        }
        i += 1;
    }
    assert(ns.subrange(0, names@.len() as int) =~= ns);
    Ok(CompletenessReport { missing, empty })
}

} // verus!
