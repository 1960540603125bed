//! Descriptor parser: turns one INI-like document (`[group]` headers over
//! `key=value` fields) into an ordered sequence of named groups, tolerating
//! malformed lines.
//!
//! The parse is modelled line by line by [`parse_step`]; the executable
//! [`DesktopEntry::parse`] returns exactly that model's result, together with
//! one diagnostic per malformed line.

use vstd::prelude::*;

use crate::text::{find_char, find_in, lines_of, split_lines, str_eq, trim_bounds, trimmed};

verus! {

/// Semantic role of a field, classified from its key by exact, case-sensitive
/// string match.
#[derive(Clone, Copy, Debug, PartialEq, Eq, Structural)]
pub enum DEKey {
    UNKNOWN,
    Exec,
    Name,
    Icon,
    Comment,
    Terminal,
    TryExec,
    Type,
    MimeType,
    Categories,
    Keywords,
}

impl Default for DEKey {
    fn default() -> (r: Self)
        ensures
            r == DEKey::UNKNOWN,
    {
        DEKey::UNKNOWN
    }
}

/// One `key=value` line: both sides trimmed, the key also classified.
#[derive(Debug)]
pub struct DEField {
    pub kind: DEKey,
    pub key: String,
    pub value: String,
}

/// Specification-level image of a [`DEField`].
pub ghost struct FieldModel {
    pub kind: DEKey,
    pub key: Seq<char>,
    pub value: Seq<char>,
}

impl View for DEField {
    type V = FieldModel;

    open spec fn view(&self) -> FieldModel {
        FieldModel { kind: self.kind, key: self.key@, value: self.value@ }
    }
}

/// A named section of fields, in source order. The empty name denotes the
/// implicit group holding fields that precede any header.
#[derive(Debug)]
pub struct DEGroup {
    pub name: String,
    pub members: Vec<DEField>,
}

/// Specification-level image of a [`DEGroup`].
pub ghost struct GroupModel {
    pub name: Seq<char>,
    pub members: Seq<FieldModel>,
}

impl View for DEGroup {
    type V = GroupModel;

    open spec fn view(&self) -> GroupModel {
        GroupModel { name: self.name@, members: self.members@.map_values(|f: DEField| f@) }
    }
}

/// The parse result of one descriptor document: its groups, in the order the
/// headers appeared.
#[derive(Debug)]
pub struct DesktopEntry {
    pub groups: Vec<DEGroup>,
}

impl View for DesktopEntry {
    type V = Seq<GroupModel>;

    open spec fn view(&self) -> Seq<GroupModel> {
        self.groups@.map_values(|g: DEGroup| g@)
    }
}

/// A malformed line, reported with its 1-based line number and its text as it
/// stood in the document (untrimmed, line ending removed).
#[derive(Debug)]
pub struct Diagnostic {
    pub line: usize,
    pub text: String,
}

/// Specification-level image of a [`Diagnostic`].
pub ghost struct DiagnosticModel {
    pub line: nat,
    pub text: Seq<char>,
}

impl View for Diagnostic {
    type V = DiagnosticModel;

    open spec fn view(&self) -> DiagnosticModel {
        DiagnosticModel { line: self.line as nat, text: self.text@ }
    }
}

/// The classification of a raw key string.
pub open spec fn spec_classify(key: Seq<char>) -> DEKey {
    if key == "Exec"@ {
        DEKey::Exec
    } else if key == "Name"@ {
        DEKey::Name
    } else if key == "Icon"@ {
        DEKey::Icon
    } else if key == "Comment"@ {
        DEKey::Comment
    } else if key == "Terminal"@ {
        DEKey::Terminal
    } else if key == "TryExec"@ {
        DEKey::TryExec
    } else if key == "Type"@ {
        DEKey::Type
    } else if key == "MimeType"@ {
        DEKey::MimeType
    } else if key == "Categories"@ {
        DEKey::Categories
    } else if key == "Keywords"@ {
        DEKey::Keywords
    } else {
        DEKey::UNKNOWN
    }
}

/// A trimmed line that is skipped: empty, or a comment starting with `#`.
pub open spec fn is_comment_line(t: Seq<char>) -> bool {
    t.len() == 0 || t[0] == '#'
}

/// A trimmed line that opens a group: `[` first, `]` last.
pub open spec fn is_header_line(t: Seq<char>) -> bool {
    t.len() >= 2 && t[0] == '[' && t.last() == ']'
}

/// The group name carried by a header line: the bracket interior, trimmed.
pub open spec fn header_name(t: Seq<char>) -> Seq<char>
    recommends
        is_header_line(t),
{
    trimmed(t.subrange(1, t.len() - 1))
}

/// A trimmed line that carries a field: not a comment or header, and holding
/// at least one `=`.
pub open spec fn is_field_line(t: Seq<char>) -> bool {
    &&& !is_comment_line(t)
    &&& !is_header_line(t)
    &&& find_char(t, '=') < t.len()
}

/// The field carried by a field line, split at the first `=`: key left,
/// value right, both trimmed.
pub open spec fn field_of_line(t: Seq<char>) -> FieldModel
    recommends
        is_field_line(t),
{
    let i = find_char(t, '=');
    let key = trimmed(t.take(i));
    let value = trimmed(t.skip(i + 1));
    FieldModel { kind: spec_classify(key), key, value }
}

/// Intermediate parser state: closed groups, the group open at this point (if
/// any), and the diagnostics emitted so far.
pub ghost struct ParseState {
    pub groups: Seq<GroupModel>,
    pub current: Option<GroupModel>,
    pub diags: Seq<DiagnosticModel>,
}

/// The state before any line was read.
pub open spec fn empty_state() -> ParseState {
    ParseState { groups: Seq::empty(), current: None, diags: Seq::empty() }
}

/// The groups with the open group (if any) appended.
pub open spec fn close_current(groups: Seq<GroupModel>, current: Option<GroupModel>) -> Seq<
    GroupModel,
> {
    match current {
        Some(g) => groups.push(g),
        None => groups,
    }
}

/// The effect of one source line (0-based index `idx`) on the parser state:
/// comments are skipped; a header closes the open group and opens a fresh one,
/// even when the name repeats; a field is appended to the open group, opening
/// an implicit unnamed group if none is open; any other line yields one
/// diagnostic and changes nothing else.
pub open spec fn parse_step(st: ParseState, raw: Seq<char>, idx: nat) -> ParseState {
    let t = trimmed(raw);
    if is_comment_line(t) {
        st
    } else if is_header_line(t) {
        ParseState {
            groups: close_current(st.groups, st.current),
            current: Some(GroupModel { name: header_name(t), members: Seq::empty() }),
            diags: st.diags,
        }
    } else if is_field_line(t) {
        let f = field_of_line(t);
        match st.current {
            Some(g) => ParseState {
                groups: st.groups,
                current: Some(GroupModel { name: g.name, members: g.members.push(f) }),
                diags: st.diags,
            },
            None => ParseState {
                groups: st.groups,
                current: Some(GroupModel { name: Seq::empty(), members: seq![f] }),
                diags: st.diags,
            },
        }
    } else {
        ParseState {
            groups: st.groups,
            current: st.current,
            diags: st.diags.push(DiagnosticModel { line: idx + 1, text: raw }),
        }
    }
}

/// The parser state after the first `n` lines.
pub open spec fn parse_upto(lines: Seq<Seq<char>>, n: int) -> ParseState
    decreases n,
{
    if n <= 0 {
        empty_state()
    } else {
        parse_step(parse_upto(lines, n - 1), lines[n - 1], (n - 1) as nat)
    }
}

/// The groups of a fully parsed document.
pub open spec fn spec_groups(s: Seq<char>) -> Seq<GroupModel> {
    let lines = lines_of(s);
    let st = parse_upto(lines, lines.len() as int);
    close_current(st.groups, st.current)
}

/// The diagnostics of a fully parsed document.
pub open spec fn spec_diagnostics(s: Seq<char>) -> Seq<DiagnosticModel> {
    let lines = lines_of(s);
    parse_upto(lines, lines.len() as int).diags
}

impl DesktopEntry {
    /// The classification of a key: exact, case-sensitive match against the
    /// recognized key spellings, `UNKNOWN` otherwise.
    pub fn identify_type(key: &str) -> (r: DEKey)
        ensures
            r == spec_classify(key@),
    {
        if str_eq(key, "Exec") {
            DEKey::Exec
        } else if str_eq(key, "Name") {
            DEKey::Name
        } else if str_eq(key, "Icon") {
            DEKey::Icon
        } else if str_eq(key, "Comment") {
            DEKey::Comment
        } else if str_eq(key, "Terminal") {
            DEKey::Terminal
        } else if str_eq(key, "TryExec") {
            DEKey::TryExec
        } else if str_eq(key, "Type") {
            DEKey::Type
        } else if str_eq(key, "MimeType") {
            DEKey::MimeType
        } else if str_eq(key, "Categories") {
            DEKey::Categories
        } else if str_eq(key, "Keywords") {
            DEKey::Keywords
        } else {
            DEKey::UNKNOWN
        }
    }

    /// Parse one document, returning its groups and one diagnostic per
    /// malformed line. Never fails: every input yields a document.
    pub fn parse(contents: &str) -> (r: (DesktopEntry, Vec<Diagnostic>))
        ensures
            r.0@ == spec_groups(contents@),
            r.1@.map_values(|d: Diagnostic| d@) == spec_diagnostics(contents@),
    {
        let lines = split_lines(contents);
        let ghost lm = lines@.map_values(|l: String| l@);
        let mut groups: Vec<DEGroup> = Vec::new();
        let mut current: Option<DEGroup> = None;
        let mut diags: Vec<Diagnostic> = Vec::new();
        let mut i: usize = 0;
        proof {
            assert(groups@.map_values(|g: DEGroup| g@) =~= Seq::<GroupModel>::empty());
            assert(diags@.map_values(|d: Diagnostic| d@) =~= Seq::<DiagnosticModel>::empty());
        }
        while i < lines.len()
            invariant
                0 <= i <= lines.len(),
                lm == lines@.map_values(|l: String| l@),
                groups@.map_values(|g: DEGroup| g@) == parse_upto(lm, i as int).groups,
                match current {
                    Some(g) => parse_upto(lm, i as int).current == Some(g@),
                    None => parse_upto(lm, i as int).current is None,
                },
                diags@.map_values(|d: Diagnostic| d@) == parse_upto(lm, i as int).diags,
            decreases lines.len() - i,
        {
            let ghost st = parse_upto(lm, i as int);
            let line = &lines[i];
            proof {
                assert(lm[i as int] == line@);
            }
            let ghost t = trimmed(line@);
            let n = line.as_str().unicode_len();
            let (lo, hi) = trim_bounds(line.as_str(), 0, n);
            proof {
                assert(line@.subrange(0, n as int) =~= line@);
                assert(line@.subrange(lo as int, hi as int) == t);
            }
            if lo == hi || line.as_str().get_char(lo) == '#' {
                // comment or blank line: skipped
                proof {
                    assert(lo < hi ==> t[0] == line@[lo as int]);
                    assert(is_comment_line(t));
                }
            } else if hi - lo >= 2 && line.as_str().get_char(lo) == '[' && line.as_str().get_char(
                hi - 1,
            ) == ']' {
                // group header: close the open group, open a fresh one
                proof {
                    assert(t[0] == line@[lo as int]);
                    assert(t.last() == line@[hi - 1]);
                    assert(is_header_line(t));
                }
                let (a, b) = trim_bounds(line.as_str(), lo + 1, hi - 1);
                proof {
                    assert(t.subrange(1, t.len() - 1) =~= line@.subrange(lo + 1, hi - 1));
                    assert(line@.subrange(a as int, b as int) == header_name(t));
                }
                let name = line.as_str().substring_char(a, b).to_owned();
                let prev = current;
                if let Some(g) = prev {
                    let ghost old_groups = groups@.map_values(|g: DEGroup| g@);
                    groups.push(g);
                    proof {
                        assert(groups@.map_values(|g: DEGroup| g@) =~= old_groups.push(g@));
                    }
                }
                current = Some(DEGroup { name, members: Vec::new() });
                proof {
                    assert(current->0@.members =~= Seq::<FieldModel>::empty());
                }
            } else {
                let eq = find_in(line.as_str(), lo, hi, '=');
                proof {
                    assert(find_char(t, '=') == eq - lo);
                }
                if eq < hi {
                    // field line: split at the first `=`
                    proof {
                        assert(!is_comment_line(t) && !is_header_line(t));
                        assert(is_field_line(t));
                    }
                    let (k0, k1) = trim_bounds(line.as_str(), lo, eq);
                    let (v0, v1) = trim_bounds(line.as_str(), eq + 1, hi);
                    proof {
                        assert(t.take(eq - lo) =~= line@.subrange(lo as int, eq as int));
                        assert(t.skip((eq - lo) + 1) =~= line@.subrange(eq + 1, hi as int));
                        assert(line@.subrange(k0 as int, k1 as int) == field_of_line(t).key);
                        assert(line@.subrange(v0 as int, v1 as int) == field_of_line(t).value);
                    }
                    let key_slice = line.as_str().substring_char(k0, k1);
                    let kind = DesktopEntry::identify_type(key_slice);
                    let field = DEField {
                        kind,
                        key: key_slice.to_owned(),
                        value: line.as_str().substring_char(v0, v1).to_owned(),
                    };
                    proof {
                        assert(field@ == field_of_line(t));
                    }
                    let prev = current;
                    match prev {
                        Some(mut g) => {
                            let ghost old_members = g.members@.map_values(|f: DEField| f@);
                            g.members.push(field);
                            proof {
                                assert(g.members@.map_values(|f: DEField| f@) =~= old_members.push(
                                    field@,
                                ));
                            }
                            current = Some(g);
                        },
                        None => {
                            let mut members: Vec<DEField> = Vec::new();
                            members.push(field);
                            proof {
                                assert(members@.map_values(|f: DEField| f@) =~= seq![field@]);
                            }
                            current = Some(DEGroup { name: String::new(), members });
                        },
                    }
                } else {
                    // malformed line: report it, keep parsing
                    proof {
                        assert(!is_comment_line(t) && !is_header_line(t) && !is_field_line(t));
                    }
                    let ghost old_diags = diags@.map_values(|d: Diagnostic| d@);
                    let diag = Diagnostic { line: i + 1, text: line.clone() };
                    diags.push(diag);
                    proof {
                        assert(diags@.map_values(|d: Diagnostic| d@) =~= old_diags.push(diag@));
                    }
                }
            }
            i = i + 1;
            proof {
                assert(parse_upto(lm, i as int) == parse_step(st, lm[i - 1], (i - 1) as nat));
            }
        }
        proof {
            assert(lm.len() == lines@.len());
        }
        let entry = DesktopEntry { groups: match current {
            Some(g) => {
                let mut gs = groups;
                let ghost old_groups = gs@.map_values(|g: DEGroup| g@);
                gs.push(g);
                proof {
                    assert(gs@.map_values(|g: DEGroup| g@) =~= old_groups.push(g@));
                }
                gs
            },
            None => groups,
        } };
        (entry, diags)
    }

    /// Parse one document, discarding the diagnostics.
    pub fn from_str(contents: &str) -> (r: DesktopEntry)
        ensures
            r@ == spec_groups(contents@),
    {
        let (entry, _diags) = DesktopEntry::parse(contents);
        entry
    }
}

/// How many of the first `n` lines are header lines.
pub open spec fn count_headers_upto(lines: Seq<Seq<char>>, n: int) -> int
    decreases n,
{
    if n <= 0 {
        0
    } else {
        count_headers_upto(lines, n - 1) + if is_header_line(trimmed(lines[n - 1])) {
            1int
        } else {
            0int
        }
    }
}

/// Whether a field line occurs among the first `n` lines before any header
/// line, which makes the parser open a leading implicit group.
pub open spec fn leading_fields_upto(lines: Seq<Seq<char>>, n: int) -> bool
    decreases n,
{
    if n <= 0 {
        false
    } else {
        leading_fields_upto(lines, n - 1) || (is_field_line(trimmed(lines[n - 1]))
            && count_headers_upto(lines, n - 1) == 0)
    }
}

/// How many lines of the document are header lines.
pub open spec fn count_headers(lines: Seq<Seq<char>>) -> int {
    count_headers_upto(lines, lines.len() as int)
}

/// Whether a field line precedes every header line of the document.
pub open spec fn leading_fields(lines: Seq<Seq<char>>) -> bool {
    leading_fields_upto(lines, lines.len() as int)
}

/// Shape of the parser state after `n` lines: a group is open exactly when a
/// header or a leading field was seen, and closed plus open groups together
/// number one per header, plus one for a leading implicit group.
proof fn lemma_parse_upto_shape(lines: Seq<Seq<char>>, n: int)
    requires
        0 <= n <= lines.len(),
    ensures
        parse_upto(lines, n).current is Some <==> (count_headers_upto(lines, n) > 0
            || leading_fields_upto(lines, n)),
        parse_upto(lines, n).groups.len() + (if parse_upto(lines, n).current is Some {
            1int
        } else {
            0int
        }) == count_headers_upto(lines, n) + (if leading_fields_upto(lines, n) {
            1int
        } else {
            0int
        }),
        count_headers_upto(lines, n) >= 0,
    decreases n,
{
    if n > 0 {
        lemma_parse_upto_shape(lines, n - 1);
    }
}

/// A field whose kind is the classification of its key.
pub open spec fn wf_field(f: FieldModel) -> bool {
    f.kind == spec_classify(f.key)
}

/// A group all of whose fields are classified.
pub open spec fn wf_group(g: GroupModel) -> bool {
    forall|i: int| 0 <= i < g.members.len() ==> wf_field(#[trigger] g.members[i])
}

/// Every group of the parser state is classified, the open one included.
proof fn lemma_parse_upto_wf(lines: Seq<Seq<char>>, n: int)
    ensures
        forall|i: int|
            0 <= i < parse_upto(lines, n).groups.len() ==> wf_group(
                #[trigger] parse_upto(lines, n).groups[i],
            ),
        match parse_upto(lines, n).current {
            Some(g) => wf_group(g),
            None => true,
        },
    decreases n,
{
    if n > 0 {
        lemma_parse_upto_wf(lines, n - 1);
        let st = parse_upto(lines, n - 1);
        let t = trimmed(lines[n - 1]);
        if is_field_line(t) {
            match st.current {
                Some(g) => {
                    assert(wf_group(
                        GroupModel { name: g.name, members: g.members.push(field_of_line(t)) },
                    ));
                },
                None => {
                    assert(wf_group(GroupModel { name: Seq::empty(), members: seq![field_of_line(t)] }));
                },
            }
        }
        if is_header_line(t) && st.current is Some {
            assert(forall|i: int|
                0 <= i < parse_upto(lines, n).groups.len() ==> wf_group(
                    #[trigger] parse_upto(lines, n).groups[i],
                ));
        }
    }
}

/// Classification soundness: every field of every parsed group carries
/// exactly the classification of its key.
pub proof fn lemma_parse_classified(s: Seq<char>)
    ensures
        forall|i: int|
            0 <= i < spec_groups(s).len() ==> wf_group(#[trigger] spec_groups(s)[i]),
{
    let lines = lines_of(s);
    lemma_parse_upto_wf(lines, lines.len() as int);
}

/// Round-trip group count: a parsed document has exactly one group per header
/// line (comments and blanks ignored), plus one leading implicit group when
/// field lines precede the first header.
pub proof fn lemma_group_count(s: Seq<char>)
    ensures
        spec_groups(s).len() == count_headers(lines_of(s)) + (if leading_fields(lines_of(s)) {
            1int
        } else {
            0int
        }),
{
    let lines = lines_of(s);
    lemma_parse_upto_shape(lines, lines.len() as int);
}

} // verus!
