//! Grouping of style units by canonical file name.
//!
//! Units that resolve to the same canonical name belong to one group. A
//! group's content is the concatenation of its members' texts, in the order
//! in which the members were registered. Groups are listed in the order in
//! which their first members were registered.

use vstd::prelude::*;
use vstd::string::*;

use crate::names::{canonical_file_name, canonical_name, lemma_canonical_name_is_canonical};
use crate::style_sheet::{StyleSheet, StyleUnit};

verus! {

/// The mathematical value of a group.
pub struct GroupView {
    /// The canonical file name that the members share.
    pub name: Seq<char>,
    /// The members' texts, concatenated.
    pub content: Seq<char>,
}

/// The units of one canonical file name, merged.
#[derive(Debug)]
pub struct Group {
    /// The canonical file name that the members share.
    pub name: String,
    /// The members' texts, concatenated in registration order.
    pub content: String,
}

impl View for Group {
    type V = GroupView;

    open spec fn view(&self) -> GroupView {
        GroupView { name: self.name@, content: self.content@ }
    }
}

impl DeepView for Group {
    type V = GroupView;

    open spec fn deep_view(&self) -> GroupView {
        self.view()
    }
}

/// The text filed under `file`: the texts of the units whose canonical name
/// is `file`, concatenated in the order of `units`.
pub open spec fn merged_content(units: Seq<StyleUnit>, file: Seq<char>) -> Seq<char>
    decreases units.len(),
{
    if units.len() == 0 {
        Seq::empty()
    } else if units.last().file() == file {
        merged_content(units.drop_last(), file) + units.last().text()
    } else {
        merged_content(units.drop_last(), file)
    }
}

/// The canonical names of `units`, each once, in the order of their first
/// occurrence.
pub open spec fn file_names(units: Seq<StyleUnit>) -> Seq<Seq<char>>
    decreases units.len(),
{
    if units.len() == 0 {
        Seq::empty()
    } else if file_names(units.drop_last()).contains(units.last().file()) {
        file_names(units.drop_last())
    } else {
        file_names(units.drop_last()).push(units.last().file())
    }
}

/// The groups of `units`: one for each canonical name, holding the text
/// filed under it.
pub open spec fn groups_of(units: Seq<StyleUnit>) -> Seq<GroupView> {
    Seq::new(
        file_names(units).len(),
        |j: int| GroupView {
            name: file_names(units)[j],
            content: merged_content(units, file_names(units)[j]),
        },
    )
}

/// The contents of `groups`, concatenated in order.
pub open spec fn concat_contents(groups: Seq<GroupView>) -> Seq<char>
    decreases groups.len(),
{
    if groups.len() == 0 {
        Seq::empty()
    } else {
        concat_contents(groups.drop_last()) + groups.last().content
    }
}

/// The text of the one style block that holds every group of `units`.
pub open spec fn inline_text(units: Seq<StyleUnit>) -> Seq<char> {
    concat_contents(groups_of(units))
}

/// One more unit adds its canonical name to the names, unless it is there.
pub proof fn lemma_file_names_push(units: Seq<StyleUnit>, unit: StyleUnit)
    ensures
        file_names(units.push(unit)) == if file_names(units).contains(unit.file()) {
            file_names(units)
        } else {
            file_names(units).push(unit.file())
        },
{
    assert(units.push(unit).drop_last() =~= units);
}

/// One more unit adds its text to the end of its own file, and to no other.
pub proof fn lemma_merged_content_push(units: Seq<StyleUnit>, unit: StyleUnit, file: Seq<char>)
    ensures
        merged_content(units.push(unit), file) == if unit.file() == file {
            merged_content(units, file) + unit.text()
        } else {
            merged_content(units, file)
        },
{
    assert(units.push(unit).drop_last() =~= units);
}

/// A canonical name is listed exactly if some unit resolves to it.
pub proof fn lemma_file_names_members(units: Seq<StyleUnit>, file: Seq<char>)
    ensures
        file_names(units).contains(file) <==> exists|i: int|
            0 <= i < units.len() && #[trigger] units[i].file() == file,
    decreases units.len(),
{
    if units.len() > 0 {
        let rest = units.drop_last();
        lemma_file_names_members(rest, file);
        lemma_file_names_members(rest, units.last().file());
        if file_names(units).contains(file) {
            if file_names(rest).contains(file) {
                let i = choose|i: int| 0 <= i < rest.len() && #[trigger] rest[i].file() == file;
                assert(units[i].file() == file);
            } else {
                let names = file_names(rest).push(units.last().file());
                let j = choose|j: int| 0 <= j < names.len() && names[j] == file;
                assert(j == names.len() - 1);
                assert(units[units.len() - 1].file() == file);
            }
        }
        if exists|i: int| 0 <= i < units.len() && #[trigger] units[i].file() == file {
            let i = choose|i: int| 0 <= i < units.len() && #[trigger] units[i].file() == file;
            if i < rest.len() {
                assert(rest[i].file() == file);
                assert(file_names(rest).contains(file));
                if !file_names(rest).contains(units.last().file()) {
                    let j = choose|j: int|
                        0 <= j < file_names(rest).len() && file_names(rest)[j] == file;
                    assert(file_names(units)[j] == file);
                }
            } else {
                if !file_names(rest).contains(file) {
                    assert(file_names(units)[file_names(units).len() - 1] == file);
                }
            }
        }
    }
}

/// No canonical name is listed twice.
pub proof fn lemma_file_names_distinct(units: Seq<StyleUnit>)
    ensures
        file_names(units).no_duplicates(),
    decreases units.len(),
{
    if units.len() > 0 {
        lemma_file_names_distinct(units.drop_last());
    }
}

/// Nothing is filed under a name that is not listed.
pub proof fn lemma_merged_content_unlisted(units: Seq<StyleUnit>, file: Seq<char>)
    requires
        !file_names(units).contains(file),
    ensures
        merged_content(units, file) == Seq::<char>::empty(),
    decreases units.len(),
{
    if units.len() > 0 {
        let rest = units.drop_last();
        if file_names(rest).contains(units.last().file()) {
            lemma_merged_content_unlisted(rest, file);
        } else {
            let names = file_names(rest).push(units.last().file());
            assert(names[names.len() - 1] == units.last().file());
            assert forall|j: int| 0 <= j < file_names(rest).len() implies file_names(rest)[j]
                != file by {
                assert(names[j] == file_names(rest)[j]);
            }
            lemma_merged_content_unlisted(rest, file);
        }
    }
}

/// What one more unit does to the groups: it extends the group of its file
/// where there is one, and opens a new group at the end where there is none.
pub proof fn lemma_groups_of_push(units: Seq<StyleUnit>, unit: StyleUnit)
    ensures
        file_names(units).contains(unit.file()) ==> groups_of(units.push(unit)) == groups_of(
            units,
        ).update(
            file_names(units).index_of(unit.file()),
            GroupView {
                name: unit.file(),
                content: merged_content(units, unit.file()) + unit.text(),
            },
        ),
        !file_names(units).contains(unit.file()) ==> groups_of(units.push(unit)) == groups_of(
            units,
        ).push(GroupView { name: unit.file(), content: unit.text() }),
{
    let names = file_names(units);
    let more = units.push(unit);
    lemma_file_names_push(units, unit);
    lemma_file_names_distinct(units);
    assert forall|j: int| 0 <= j < names.len() implies merged_content(more, names[j]) == if names[j]
        == unit.file() {
        merged_content(units, names[j]) + unit.text()
    } else {
        merged_content(units, names[j])
    } by {
        lemma_merged_content_push(units, unit, names[j]);
    }
    if names.contains(unit.file()) {
        let at = names.index_of(unit.file());
        assert(groups_of(more) =~= groups_of(units).update(
            at,
            GroupView {
                name: unit.file(),
                content: merged_content(units, unit.file()) + unit.text(),
            },
        ));
    } else {
        lemma_merged_content_unlisted(units, unit.file());
        lemma_merged_content_push(units, unit, unit.file());
        assert(Seq::<char>::empty() + unit.text() =~= unit.text());
        assert(groups_of(more) =~= groups_of(units).push(
            GroupView { name: unit.file(), content: unit.text() },
        ));
    }
}

/// Every listed name is canonical.
pub proof fn lemma_file_names_canonical(units: Seq<StyleUnit>, j: int)
    requires
        0 <= j < file_names(units).len(),
    ensures
        canonical_name(file_names(units)[j]) == file_names(units)[j],
{
    let file = file_names(units)[j];
    lemma_file_names_members(units, file);
    let i = choose|i: int| 0 <= i < units.len() && #[trigger] units[i].file() == file;
    lemma_canonical_name_is_canonical(units[i].name);
}

/// The names are listed in the order of their first occurrence: of two
/// listed names, the earlier one occurs among the units before the later
/// one does.
pub proof fn lemma_file_names_order(units: Seq<StyleUnit>, j: int, k: int)
    requires
        0 <= j < k < file_names(units).len(),
    ensures
        exists|i: int|
            {
                &&& 0 <= i < units.len()
                &&& #[trigger] units[i].file() == file_names(units)[j]
                &&& forall|l: int|
                    0 <= l <= i ==> (#[trigger] units[l]).file() != file_names(units)[k]
            },
    decreases units.len(),
{
    let names = file_names(units);
    let rest = units.drop_last();
    let old_names = file_names(rest);
    if k < old_names.len() {
        lemma_file_names_order(rest, j, k);
        let i = choose|i: int|
            {
                &&& 0 <= i < rest.len()
                &&& #[trigger] rest[i].file() == old_names[j]
                &&& forall|l: int| 0 <= l <= i ==> (#[trigger] rest[l]).file() != old_names[k]
            };
        assert(units[i].file() == names[j]);
        assert forall|l: int| 0 <= l <= i implies (#[trigger] units[l]).file() != names[k] by {
            assert(rest[l].file() != old_names[k]);
        }
    } else {
        // The later name was listed with the last unit, and occurs nowhere before it.
        assert(names[k] == units.last().file());
        assert(!old_names.contains(names[k]));
        lemma_file_names_members(rest, names[k]);
        assert(old_names[j] == names[j]);
        lemma_file_names_members(rest, names[j]);
        let i = choose|i: int| 0 <= i < rest.len() && #[trigger] rest[i].file() == names[j];
        assert(units[i].file() == names[j]);
        assert forall|l: int| 0 <= l <= i implies (#[trigger] units[l]).file() != names[k] by {
            assert(rest[l].file() != names[k]);
        }
    }
}

/// Each unit has its group: exactly one group carries the unit's canonical
/// name, and it holds the text filed under that name.
pub proof fn lemma_group_of_unit(units: Seq<StyleUnit>, i: int) -> (j: int)
    requires
        0 <= i < units.len(),
    ensures
        0 <= j < groups_of(units).len(),
        groups_of(units)[j].name == units[i].file(),
        groups_of(units)[j].content == merged_content(units, units[i].file()),
        forall|k: int|
            0 <= k < groups_of(units).len() && k != j ==> (#[trigger] groups_of(units)[k]).name
                != units[i].file(),
{
    lemma_file_names_members(units, units[i].file());
    lemma_file_names_distinct(units);
    file_names(units).index_of(units[i].file())
}

/// Grouping is a function of the registry: two groupings of the same units
/// are the same groups, with the same merged content under each name.
pub proof fn lemma_grouping_deterministic(
    units: Seq<StyleUnit>,
    first: Seq<GroupView>,
    second: Seq<GroupView>,
)
    requires
        first == groups_of(units),
        second == groups_of(units),
    ensures
        first == second,
        forall|j: int|
            0 <= j < first.len() ==> (#[trigger] first[j]).name == second[j].name && first[j].content
                == second[j].content && first[j].content == merged_content(units, first[j].name),
{
}

/// The units that stand for `groups`: one for each group, with the group's
/// name and content.
pub open spec fn units_of(groups: Seq<GroupView>) -> Seq<StyleUnit> {
    Seq::new(
        groups.len(),
        |j: int| StyleUnit { name: groups[j].name, content: Some(groups[j].content) },
    )
}

/// Groups with canonical names, no two alike, are their own grouping.
pub proof fn lemma_groups_of_units_of(groups: Seq<GroupView>)
    requires
        forall|j: int|
            0 <= j < groups.len() ==> canonical_name((#[trigger] groups[j]).name)
                == groups[j].name,
        forall|j: int, k: int|
            0 <= j < groups.len() && 0 <= k < groups.len() && j != k ==> (#[trigger] groups[j]).name
                != (#[trigger] groups[k]).name,
    ensures
        groups_of(units_of(groups)) == groups,
    decreases groups.len(),
{
    if groups.len() == 0 {
        assert(groups_of(units_of(groups)) =~= groups);
    } else {
        let rest = groups.drop_last();
        let last = groups.last();
        let unit = StyleUnit { name: last.name, content: Some(last.content) };
        lemma_groups_of_units_of(rest);
        assert(units_of(groups) =~= units_of(rest).push(unit));
        lemma_groups_of_push(units_of(rest), unit);
        let names = file_names(units_of(rest));
        assert(names.len() == rest.len());
        if names.contains(unit.file()) {
            let j = choose|j: int| 0 <= j < names.len() && names[j] == unit.file();
            assert(groups_of(units_of(rest))[j].name == names[j]);
            assert(groups[j].name == rest[j].name);
            assert(groups[groups.len() - 1].name == last.name);
            assert(false);
        }
        assert(groups_of(units_of(groups)) =~= groups);
    }
}

/// Grouping what has been grouped changes nothing.
pub proof fn lemma_grouping_idempotent(units: Seq<StyleUnit>)
    ensures
        groups_of(units_of(groups_of(units))) == groups_of(units),
{
    let groups = groups_of(units);
    lemma_file_names_distinct(units);
    assert forall|j: int| 0 <= j < groups.len() implies canonical_name(
        (#[trigger] groups[j]).name,
    ) == groups[j].name by {
        lemma_file_names_canonical(units, j);
    }
    lemma_groups_of_units_of(groups);
}

/// Whether `block` stands in `text` in one piece.
pub open spec fn holds_block(text: Seq<char>, block: Seq<char>) -> bool {
    exists|before: Seq<char>, after: Seq<char>| text == #[trigger] (before + block + after)
}

/// A piece of a piece of a text is a piece of the text.
pub proof fn lemma_holds_block_transitive(text: Seq<char>, part: Seq<char>, block: Seq<char>)
    requires
        holds_block(text, part),
        holds_block(part, block),
    ensures
        holds_block(text, block),
{
    let (outer_before, outer_after) = choose|before: Seq<char>, after: Seq<char>|
        text == #[trigger] (before + part + after);
    let (inner_before, inner_after) = choose|before: Seq<char>, after: Seq<char>|
        part == #[trigger] (before + block + after);
    let before = outer_before + inner_before;
    let after = inner_after + outer_after;
    assert(text =~= before + block + after);
}

/// The text filed under a unit's canonical name holds the unit's text in
/// one piece.
pub proof fn lemma_merged_content_holds_text(units: Seq<StyleUnit>, i: int)
    requires
        0 <= i < units.len(),
    ensures
        holds_block(merged_content(units, units[i].file()), units[i].text()),
    decreases units.len(),
{
    let file = units[i].file();
    let rest = units.drop_last();
    let whole = merged_content(units, file);
    if i == units.len() - 1 {
        let before = merged_content(rest, file);
        assert(whole =~= before + units[i].text() + Seq::<char>::empty());
    } else {
        lemma_merged_content_holds_text(rest, i);
        let (before, after) = choose|before: Seq<char>, after: Seq<char>|
            merged_content(rest, file) == #[trigger] (before + rest[i].text() + after);
        if units.last().file() == file {
            assert(whole =~= before + units[i].text() + (after + units.last().text()));
        } else {
            assert(whole =~= before + units[i].text() + after);
        }
    }
}

/// The concatenation of the groups' contents holds each group's content in
/// one piece.
pub proof fn lemma_concat_contents_holds_group(groups: Seq<GroupView>, j: int)
    requires
        0 <= j < groups.len(),
    ensures
        holds_block(concat_contents(groups), groups[j].content),
    decreases groups.len(),
{
    let rest = groups.drop_last();
    let whole = concat_contents(groups);
    if j == groups.len() - 1 {
        assert(whole =~= concat_contents(rest) + groups[j].content + Seq::<char>::empty());
    } else {
        lemma_concat_contents_holds_group(rest, j);
        let (before, after) = choose|before: Seq<char>, after: Seq<char>|
            concat_contents(rest) == #[trigger] (before + rest[j].content + after);
        assert(whole =~= before + groups[j].content + (after + groups.last().content));
    }
}

/// The style block holds the text of every unit, whole and in one piece.
pub proof fn lemma_inline_text_holds_every_text(units: Seq<StyleUnit>, i: int)
    requires
        0 <= i < units.len(),
    ensures
        holds_block(inline_text(units), units[i].text()),
{
    let j = lemma_group_of_unit(units, i);
    lemma_concat_contents_holds_group(groups_of(units), j);
    lemma_merged_content_holds_text(units, i);
    lemma_holds_block_transitive(
        inline_text(units),
        merged_content(units, units[i].file()),
        units[i].text(),
    );
}

/// The length of the units' texts, taken together.
pub open spec fn total_text_len(units: Seq<StyleUnit>) -> nat
    decreases units.len(),
{
    if units.len() == 0 {
        0
    } else {
        total_text_len(units.drop_last()) + units.last().text().len()
    }
}

/// Replacing one group changes the length of the concatenation by the
/// difference of the two contents' lengths.
pub proof fn lemma_concat_contents_update(groups: Seq<GroupView>, j: int, group: GroupView)
    requires
        0 <= j < groups.len(),
    ensures
        concat_contents(groups.update(j, group)).len() + groups[j].content.len()
            == concat_contents(groups).len() + group.content.len(),
    decreases groups.len(),
{
    let rest = groups.drop_last();
    if j == groups.len() - 1 {
        assert(groups.update(j, group).drop_last() =~= rest);
    } else {
        lemma_concat_contents_update(rest, j, group);
        assert(groups.update(j, group).drop_last() =~= rest.update(j, group));
    }
}

/// The style block is exactly as long as the units' texts taken together:
/// nothing is cut, and nothing is added.
pub proof fn lemma_inline_text_len(units: Seq<StyleUnit>)
    ensures
        inline_text(units).len() == total_text_len(units),
    decreases units.len(),
{
    if units.len() > 0 {
        let rest = units.drop_last();
        let unit = units.last();
        lemma_inline_text_len(rest);
        assert(units =~= rest.push(unit));
        lemma_groups_of_push(rest, unit);
        if file_names(rest).contains(unit.file()) {
            let at = file_names(rest).index_of(unit.file());
            lemma_concat_contents_update(
                groups_of(rest),
                at,
                GroupView {
                    name: unit.file(),
                    content: merged_content(rest, unit.file()) + unit.text(),
                },
            );
        } else {
            assert(groups_of(units).drop_last() =~= groups_of(rest));
        }
    }
}

/// Finds the group of `file`, if there is one.
fn find_group(groups: &Vec<Group>, file: &String) -> (found: Option<usize>)
    ensures
        match found {
            Some(at) => at < groups.len() && groups[at as int].name@ == file@,
            None => forall|j: int| 0 <= j < groups.len() ==> groups[j].name@ != file@,
        },
{
    let mut j: usize = 0;
    while j < groups.len()
        invariant
            j <= groups.len(),
            forall|k: int| 0 <= k < j ==> groups[k].name@ != file@,
        decreases groups.len() - j,
    {
        if groups[j].name == *file {
            return Some(j);
        }
        j += 1;
    }
    None
}

/// Groups the style sheets by canonical file name and merges the content of
/// each group.
pub fn group_units(sheets: &Vec<StyleSheet>) -> (groups: Vec<Group>)
    ensures
        groups.deep_view() == groups_of(sheets.deep_view()),
{
    let mut groups: Vec<Group> = Vec::new();
    let mut i: usize = 0;
    while i < sheets.len()
        invariant
            i <= sheets.len(),
            groups.deep_view() == groups_of(sheets.deep_view().take(i as int)),
        decreases sheets.len() - i,
    {
        let ghost seen = sheets.deep_view().take(i as int);
        let ghost unit = sheets[i as int]@;
        let ghost before = groups.deep_view();
        let file = canonical_file_name(sheets[i].name);
        let found = find_group(&groups, &file);
        proof {
            lemma_groups_of_push(seen, unit);
            lemma_file_names_distinct(seen);
            assert(sheets.deep_view().take(i as int + 1) =~= seen.push(unit));
            assert(before.len() == file_names(seen).len());
            assert forall|j: int| 0 <= j < before.len() implies before[j].name == groups[j].name@
                && before[j].name == file_names(seen)[j] by {}
        }
        match found {
            Some(at) => {
                proof {
                    assert(file_names(seen)[at as int] == unit.file());
                    assert(file_names(seen).index_of(unit.file()) == at);
                }
                if let Some(text) = sheets[i].content {
                    groups[at].content.append(text);
                }
                proof {
                    assert(merged_content(seen, unit.file()) + Seq::<char>::empty()
                        =~= merged_content(seen, unit.file()));
                    assert(groups.deep_view() =~= before.update(
                        at as int,
                        GroupView {
                            name: unit.file(),
                            content: merged_content(seen, unit.file()) + unit.text(),
                        },
                    ));
                }
            },
            None => {
                let mut content = String::new();
                if let Some(text) = sheets[i].content {
                    content.append(text);
                }
                proof {
                    assert(Seq::<char>::empty() + unit.text() =~= unit.text());
                    assert(!file_names(seen).contains(unit.file()));
                }
                groups.push(Group { name: file, content });
                proof {
                    assert(groups.deep_view() =~= before.push(
                        GroupView { name: unit.file(), content: unit.text() },
                    ));
                }
            },
        }
        i += 1;
    }
    proof {
        assert(sheets.deep_view().take(sheets.len() as int) =~= sheets.deep_view());
    }
    groups
}

/// Whether `file` is among `names`.
fn has_name(names: &Vec<String>, file: &String) -> (found: bool)
    ensures
        found == names.deep_view().contains(file@),
{
    let mut j: usize = 0;
    while j < names.len()
        invariant
            j <= names.len(),
            forall|k: int| 0 <= k < j ==> names[k]@ != file@,
        decreases names.len() - j,
    {
        if names[j] == *file {
            proof {
                assert(names.deep_view()[j as int] == file@);
            }
            return true;
        }
        j += 1;
    }
    proof {
        assert forall|k: int| 0 <= k < names.deep_view().len() implies names.deep_view()[k]
            != file@ by {
            assert(names.deep_view()[k] == names[k]@);
        }
    }
    false
}

/// Lists the canonical file names of the style sheets, each once, in the
/// order of their first occurrence. The sheets' content plays no part.
pub fn list_files(sheets: &Vec<StyleSheet>) -> (names: Vec<String>)
    ensures
        names.deep_view() == file_names(sheets.deep_view()),
{
    let mut names: Vec<String> = Vec::new();
    let mut i: usize = 0;
    while i < sheets.len()
        invariant
            i <= sheets.len(),
            names.deep_view() == file_names(sheets.deep_view().take(i as int)),
        decreases sheets.len() - i,
    {
        let ghost seen = sheets.deep_view().take(i as int);
        let ghost before = names.deep_view();
        let file = canonical_file_name(sheets[i].name);
        proof {
            lemma_file_names_push(seen, sheets[i as int]@);
            assert(sheets.deep_view().take(i as int + 1) =~= seen.push(sheets[i as int]@));
        }
        if !has_name(&names, &file) {
            names.push(file);
            proof {
                assert(names.deep_view() =~= before.push(sheets[i as int]@.file()));
            }
        }
        i += 1;
    }
    proof {
        assert(sheets.deep_view().take(sheets.len() as int) =~= sheets.deep_view());
    }
    names
}

/// Concatenates the contents of the groups, in their order.
pub fn concat_groups(groups: &Vec<Group>) -> (text: String)
    ensures
        text@ == concat_contents(groups.deep_view()),
{
    let mut text = String::new();
    let mut j: usize = 0;
    while j < groups.len()
        invariant
            j <= groups.len(),
            text@ == concat_contents(groups.deep_view().take(j as int)),
        decreases groups.len() - j,
    {
        proof {
            let next = groups.deep_view().take(j as int + 1);
            assert(next.drop_last() =~= groups.deep_view().take(j as int));
            assert(next.last() == groups[j as int]@);
        }
        text.append(groups[j].content.as_str());
        j += 1;
    }
    proof {
        assert(groups.deep_view().take(groups.len() as int) =~= groups.deep_view());
    }
    text
}

} // verus!
