//! Entry index: the queryable view of parsed documents. Each document
//! contributes at most one launchable entry, derived from its primary group —
//! the first group holding a `Name`-classified field with a non-empty value.
//! Documents without such a group are excluded, and reported by position.

use vstd::prelude::*;

use crate::parser::{DEField, DEGroup, DEKey, DesktopEntry, FieldModel, GroupModel};

verus! {

/// A launchable candidate derived from one parsed document.
#[derive(Debug)]
pub struct Entry {
    /// Value of the first non-empty `Name` field of the primary group.
    pub display_name: String,
    /// Value of the first `Comment` field of the primary group, if any.
    pub description: Option<String>,
    /// Value of the first `Exec` field of the primary group, if any.
    pub exec_command: Option<String>,
    /// Position of the source document in the indexed sequence.
    pub doc_index: usize,
}

/// Specification-level image of an [`Entry`].
pub ghost struct EntryModel {
    pub display_name: Seq<char>,
    pub description: Option<Seq<char>>,
    pub exec_command: Option<Seq<char>>,
    pub doc_index: int,
}

impl View for Entry {
    type V = EntryModel;

    open spec fn view(&self) -> EntryModel {
        EntryModel {
            display_name: self.display_name@,
            description: match self.description {
                Some(ref s) => Some(s@),
                None => None,
            },
            exec_command: match self.exec_command {
                Some(ref s) => Some(s@),
                None => None,
            },
            doc_index: self.doc_index as int,
        }
    }
}

/// Index of the first field of kind `k`, or the member count if none.
pub open spec fn first_kind_index(members: Seq<FieldModel>, k: DEKey) -> int
    decreases members.len(),
{
    if members.len() == 0 {
        0
    } else if members[0].kind == k {
        0
    } else {
        1 + first_kind_index(members.drop_first(), k)
    }
}

/// Index of the first `Name` field with a non-empty value, or the member
/// count if none.
pub open spec fn first_name_index(members: Seq<FieldModel>) -> int
    decreases members.len(),
{
    if members.len() == 0 {
        0
    } else if members[0].kind == DEKey::Name && members[0].value.len() > 0 {
        0
    } else {
        1 + first_name_index(members.drop_first())
    }
}

/// A position preceded only by fields of other kinds and holding kind `k` (or
/// the end) is the first field of kind `k`.
proof fn lemma_first_kind_index_at(members: Seq<FieldModel>, k: DEKey, j: int)
    requires
        0 <= j <= members.len(),
        forall|l: int| 0 <= l < j ==> (#[trigger] members[l]).kind != k,
        j == members.len() || members[j].kind == k,
    ensures
        first_kind_index(members, k) == j,
    decreases j,
{
    if j > 0 {
        lemma_first_kind_index_at(members.drop_first(), k, j - 1);
    }
}

/// The corresponding characterization for [`first_name_index`].
proof fn lemma_first_name_index_at(members: Seq<FieldModel>, j: int)
    requires
        0 <= j <= members.len(),
        forall|l: int|
            0 <= l < j ==> !((#[trigger] members[l]).kind == DEKey::Name && members[l].value.len()
                > 0),
        j == members.len() || (members[j].kind == DEKey::Name && members[j].value.len() > 0),
    ensures
        first_name_index(members) == j,
    decreases j,
{
    if j > 0 {
        lemma_first_name_index_at(members.drop_first(), j - 1);
    }
}

/// Whether a group can name an entry: it holds a `Name` field with a
/// non-empty value.
pub open spec fn group_provides_name(g: GroupModel) -> bool {
    first_name_index(g.members) < g.members.len()
}

/// Index of the primary group — the first that provides a name — or the group
/// count if none does.
pub open spec fn primary_index(groups: Seq<GroupModel>) -> int
    decreases groups.len(),
{
    if groups.len() == 0 {
        0
    } else if group_provides_name(groups[0]) {
        0
    } else {
        1 + primary_index(groups.drop_first())
    }
}

/// The corresponding characterization for [`primary_index`].
proof fn lemma_primary_index_at(groups: Seq<GroupModel>, j: int)
    requires
        0 <= j <= groups.len(),
        forall|l: int| 0 <= l < j ==> !group_provides_name(#[trigger] groups[l]),
        j == groups.len() || group_provides_name(groups[j]),
    ensures
        primary_index(groups) == j,
    decreases j,
{
    if j > 0 {
        lemma_primary_index_at(groups.drop_first(), j - 1);
    }
}

/// Value of the first field of kind `k` in the group, if any. First
/// occurrence wins; later same-kind fields are ignored.
pub open spec fn first_kind_value(g: GroupModel, k: DEKey) -> Option<Seq<char>> {
    if first_kind_index(g.members, k) < g.members.len() {
        Some(g.members[first_kind_index(g.members, k)].value)
    } else {
        None
    }
}

/// The entry derived from a document standing at position `di`: `None` when
/// no group provides a name.
pub open spec fn entry_model_of(doc: Seq<GroupModel>, di: int) -> Option<EntryModel> {
    if primary_index(doc) < doc.len() {
        let g = doc[primary_index(doc)];
        Some(
            EntryModel {
                display_name: g.members[first_name_index(g.members)].value,
                description: first_kind_value(g, DEKey::Comment),
                exec_command: first_kind_value(g, DEKey::Exec),
                doc_index: di,
            },
        )
    } else {
        None
    }
}

/// The entries of the first `n` documents, in document order.
pub open spec fn spec_build_index(docs: Seq<Seq<GroupModel>>, n: int) -> Seq<EntryModel>
    decreases n,
{
    if n <= 0 {
        Seq::empty()
    } else {
        spec_build_index(docs, n - 1) + match entry_model_of(docs[n - 1], n - 1) {
            Some(e) => seq![e],
            None => Seq::empty(),
        }
    }
}

/// The positions of the first `n` documents that yield no entry, in order.
pub open spec fn spec_excluded(docs: Seq<Seq<GroupModel>>, n: int) -> Seq<int>
    decreases n,
{
    if n <= 0 {
        Seq::empty()
    } else {
        spec_excluded(docs, n - 1) + match entry_model_of(docs[n - 1], n - 1) {
            Some(e) => Seq::empty(),
            None => seq![n - 1],
        }
    }
}

/// Index of the first field of kind `k`, or the member count if none.
fn find_kind(members: &Vec<DEField>, k: DEKey) -> (r: usize)
    ensures
        r == first_kind_index(members@.map_values(|f: DEField| f@), k),
        r <= members@.len(),
{
    let ghost fm = members@.map_values(|f: DEField| f@);
    let mut i: usize = 0;
    while i < members.len()
        invariant
            0 <= i <= members@.len(),
            fm == members@.map_values(|f: DEField| f@),
            forall|l: int| 0 <= l < i ==> (#[trigger] fm[l]).kind != k,
        decreases members@.len() - i,
    {
        if members[i].kind == k {
            proof {
                lemma_first_kind_index_at(fm, k, i as int);
            }
            return i;
        }
        i = i + 1;
    }
    proof {
        lemma_first_kind_index_at(fm, k, i as int);
    }
    i
}

/// Index of the first `Name` field with a non-empty value, or the member
/// count if none.
fn find_name(members: &Vec<DEField>) -> (r: usize)
    ensures
        r == first_name_index(members@.map_values(|f: DEField| f@)),
        r <= members@.len(),
{
    let ghost fm = members@.map_values(|f: DEField| f@);
    let mut i: usize = 0;
    while i < members.len()
        invariant
            0 <= i <= members@.len(),
            fm == members@.map_values(|f: DEField| f@),
            forall|l: int|
                0 <= l < i ==> !((#[trigger] fm[l]).kind == DEKey::Name && fm[l].value.len() > 0),
        decreases members@.len() - i,
    {
        if members[i].kind == DEKey::Name && !members[i].value.as_str().is_empty() {
            proof {
                lemma_first_name_index_at(fm, i as int);
            }
            return i;
        }
        i = i + 1;
    }
    proof {
        lemma_first_name_index_at(fm, i as int);
    }
    i
}

/// Derive the entry of one document standing at position `di`, if its groups
/// provide a name.
pub fn entry_of(doc: &DesktopEntry, di: usize) -> (r: Option<Entry>)
    ensures
        match r {
            Some(e) => entry_model_of(doc@, di as int) == Some(e@),
            None => entry_model_of(doc@, di as int) is None,
        },
{
    let ghost gm = doc@;
    let mut i: usize = 0;
    while i < doc.groups.len()
        invariant
            0 <= i <= doc.groups@.len(),
            gm == doc@,
            gm.len() == doc.groups@.len(),
            forall|l: int| 0 <= l < i ==> !group_provides_name(#[trigger] gm[l]),
        decreases doc.groups@.len() - i,
    {
        proof {
            assert(gm[i as int] == doc.groups@[i as int]@);
        }
        let g = &doc.groups[i];
        let name_idx = find_name(&g.members);
        if name_idx < g.members.len() {
            proof {
                assert(group_provides_name(gm[i as int]));
                lemma_primary_index_at(gm, i as int);
            }
            let display_name = g.members[name_idx].value.clone();
            let comment_idx = find_kind(&g.members, DEKey::Comment);
            let description = if comment_idx < g.members.len() {
                Some(g.members[comment_idx].value.clone())
            } else {
                None
            };
            let exec_idx = find_kind(&g.members, DEKey::Exec);
            let exec_command = if exec_idx < g.members.len() {
                Some(g.members[exec_idx].value.clone())
            } else {
                None
            };
            let e = Entry { display_name, description, exec_command, doc_index: di };
            proof {
                let mm = gm[i as int].members;
                assert(mm[name_idx as int] == g.members@[name_idx as int]@);
                assert(comment_idx < g.members@.len() ==> mm[comment_idx as int] == g
                    .members@[comment_idx as int]@);
                assert(exec_idx < g.members@.len() ==> mm[exec_idx as int] == g
                    .members@[exec_idx as int]@);
                assert(entry_model_of(gm, di as int) == Some(e@));
            }
            return Some(e);
        }
        proof {
            assert(!group_provides_name(gm[i as int]));
        }
        i = i + 1;
    }
    proof {
        lemma_primary_index_at(gm, i as int);
    }
    None
}

/// Build the index of a document collection: one entry per document whose
/// groups provide a name, in document order, together with the positions of
/// the documents that were excluded for want of one.
pub fn build_index(docs: &Vec<DesktopEntry>) -> (r: (Vec<Entry>, Vec<usize>))
    ensures
        r.0@.map_values(|e: Entry| e@) == spec_build_index(
            docs@.map_values(|d: DesktopEntry| d@),
            docs@.len() as int,
        ),
        r.1@.map_values(|u: usize| u as int) == spec_excluded(
            docs@.map_values(|d: DesktopEntry| d@),
            docs@.len() as int,
        ),
{
    let ghost dm = docs@.map_values(|d: DesktopEntry| d@);
    let mut entries: Vec<Entry> = Vec::new();
    let mut excluded: Vec<usize> = Vec::new();
    let mut i: usize = 0;
    proof {
        assert(entries@.map_values(|e: Entry| e@) =~= spec_build_index(dm, 0));
        assert(excluded@.map_values(|u: usize| u as int) =~= spec_excluded(dm, 0));
    }
    while i < docs.len()
        invariant
            0 <= i <= docs@.len(),
            dm == docs@.map_values(|d: DesktopEntry| d@),
            dm.len() == docs@.len(),
            entries@.map_values(|e: Entry| e@) == spec_build_index(dm, i as int),
            excluded@.map_values(|u: usize| u as int) == spec_excluded(dm, i as int),
        decreases docs@.len() - i,
    {
        proof {
            assert(dm[i as int] == docs@[i as int]@);
        }
        let ghost old_entries = entries@.map_values(|e: Entry| e@);
        let ghost old_excluded = excluded@.map_values(|u: usize| u as int);
        match entry_of(&docs[i], i) {
            Some(e) => {
                let ghost em = e@;
                entries.push(e);
                proof {
                    assert(entries@.map_values(|e: Entry| e@) =~= old_entries.push(em));
                    assert(spec_build_index(dm, i as int + 1) =~= old_entries.push(em));
                    assert(spec_excluded(dm, i as int + 1) =~= old_excluded);
                }
            },
            None => {
                excluded.push(i);
                proof {
                    assert(excluded@.map_values(|u: usize| u as int) =~= old_excluded.push(
                        i as int,
                    ));
                    assert(spec_excluded(dm, i as int + 1) =~= old_excluded.push(i as int));
                    assert(spec_build_index(dm, i as int + 1) =~= old_entries);
                }
            },
        }
        i = i + 1;
    }
    (entries, excluded)
}

} // verus!
