//! Laws of what the list and the check of aliases say, in terms of the
//! definitions and references that they are given.

use crate::alias;
use crate::label;
use crate::reference_laws;
use crate::report;
use crate::report_laws;
use crate::text;
use vstd::prelude::*;

verus! {

// ---------------------------------------------------------------------------
// What belongs to one alias

/// The definitions of an alias are all those that name it, in their order.
pub proof fn law_definitions_of_an_alias(
    definitions: Seq<alias::DefinitionView>,
    name: Seq<char>,
)
    ensures
        report::definitions_of(definitions, name) == definitions.filter(
            |d: alias::DefinitionView| d.name == name,
        ),
    decreases definitions.len(),
{
    reveal(Seq::filter);
    if definitions.len() > 0 {
        law_definitions_of_an_alias(definitions.drop_last(), name);
    }
}

/// The references to an alias are all those that name it, in their order.
pub proof fn law_references_to_an_alias(uses: Seq<alias::UseView>, name: Seq<char>)
    ensures
        report::references_to(uses, name) == uses.filter(|u: alias::UseView| u.alias == name),
    decreases uses.len(),
{
    reveal(Seq::filter);
    if uses.len() > 0 {
        law_references_to_an_alias(uses.drop_last(), name);
    }
}

// ---------------------------------------------------------------------------
// The list

/// What the list says of one alias: the members of its first definition, the
/// file of every definition in their order, however many there are and whether
/// or not they agree, and whether they all give it the same members.
pub proof fn law_listing_tells_every_definition(
    definitions: Seq<alias::DefinitionView>,
    name: Seq<char>,
)
    ensures
        ({
            let own = definitions.filter(|d: alias::DefinitionView| d.name == name);
            let listing = report::listing_of(definitions, name);
            &&& listing.name == name
            &&& own.len() > 0 ==> listing.members == own[0].members
            &&& listing.defined_in == own.map_values(|d: alias::DefinitionView| d.file)
            &&& listing.consistent <==> forall|i: int, j: int|
                0 <= i < definitions.len() && 0 <= j < definitions.len() && (
                #[trigger] definitions[i]).name == name && (#[trigger] definitions[j]).name == name
                    ==> definitions[i].members == definitions[j].members
        }),
{
    law_definitions_of_an_alias(definitions, name);
}

/// The entries of the list are in the order of their names, so there is one for
/// each name at most. Each is about an alias that some definition names, and says
/// what is to be said of it.
pub proof fn law_list_is_in_order(definitions: Seq<alias::DefinitionView>, j: int, k: int) -> (i:
    int)
    requires
        0 <= j < report::alias_list(definitions).len(),
        0 <= k < report::alias_list(definitions).len(),
    ensures
        ({
            let list = report::alias_list(definitions);
            &&& j < k ==> text::text_before(list[j].name, list[k].name)
            &&& list[k] == report::listing_of(definitions, list[k].name)
            &&& 0 <= i < definitions.len()
            &&& definitions[i].name == list[k].name
        }),
{
    report_laws::law_report_is_in_order(definitions, Seq::<alias::UseView>::empty());
    let set = report::defined_names(definitions);
    let names = report::in_order(set);
    assert(names.contains(names[k]));
    assert(set.contains(names[k]));
    choose|i: int| 0 <= i < definitions.len() && (#[trigger] definitions[i]).name == names[k]
}

/// Every alias that is defined has an entry in the list.
pub proof fn law_every_alias_is_listed(definitions: Seq<alias::DefinitionView>, i: int) -> (k: int)
    requires
        0 <= i < definitions.len(),
    ensures
        0 <= k < report::alias_list(definitions).len(),
        report::alias_list(definitions)[k].name == definitions[i].name,
{
    report_laws::law_report_is_in_order(definitions, Seq::<alias::UseView>::empty());
    let set = report::defined_names(definitions);
    let names = report::in_order(set);
    let name = definitions[i].name;
    assert(report::defines(definitions, name));
    assert(set.contains(name));
    assert(names.contains(name));
    choose|k: int| 0 <= k < names.len() && names[k] == name
}

/// Every file that defines an alias is told: the entry of a definition's name in
/// the list holds the file of that definition, and as many files as there are
/// definitions of the name.
pub proof fn law_every_defining_file_is_listed(
    definitions: Seq<alias::DefinitionView>,
    i: int,
) -> (k: int)
    requires
        0 <= i < definitions.len(),
    ensures
        ({
            let list = report::alias_list(definitions);
            let name = definitions[i].name;
            let own = definitions.filter(|d: alias::DefinitionView| d.name == name);
            &&& 0 <= k < list.len()
            &&& list[k].name == name
            &&& list[k].defined_in.contains(definitions[i].file)
            &&& list[k].defined_in.len() == own.len()
            &&& list[k].members == own[0].members
        }),
{
    let list = report::alias_list(definitions);
    let name = definitions[i].name;
    let by_name = |d: alias::DefinitionView| d.name == name;
    let own = definitions.filter(by_name);
    let k = law_every_alias_is_listed(definitions, i);
    let _ = law_list_is_in_order(definitions, k, k);
    law_listing_tells_every_definition(definitions, name);
    definitions.lemma_filter_contains(by_name, i);
    assert(own.contains(definitions[i]));
    let j = choose|j: int| 0 <= j < own.len() && own[j] == definitions[i];
    assert(list[k].defined_in[j] == definitions[i].file);
    k
}

// ---------------------------------------------------------------------------
// The check

/// What the check says of a conflict: every definition of the alias, with its
/// file and its members, in their order.
pub proof fn law_conflict_tells_every_definition(
    definitions: Seq<alias::DefinitionView>,
    name: Seq<char>,
)
    ensures
        report::conflict_issue(definitions, name) == (report::IssueView::ConflictingDefinition {
            alias: name,
            definitions: definitions.filter(
                |d: alias::DefinitionView| d.name == name,
            ).map_values(|d: alias::DefinitionView| (d.file, d.members)),
        }),
{
    law_definitions_of_an_alias(definitions, name);
}

/// What the check says of an unresolved alias: every reference to it, with its
/// text, its file and its kind, in their order.
pub proof fn law_unresolved_tells_every_reference(uses: Seq<alias::UseView>, name: Seq<char>)
    ensures
        report::unresolved_issue(uses, name) == (report::IssueView::UnresolvedAlias {
            alias: name,
            used_at: uses.filter(|u: alias::UseView| u.alias == name).map_values(
                |u: alias::UseView| (u.label, u.file, u.kind),
            ),
        }),
{
    law_references_to_an_alias(uses, name);
}

/// How many conflicts the check reports.
pub open spec fn conflict_count(definitions: Seq<alias::DefinitionView>) -> int {
    report::in_order(report::conflicting_names(definitions)).len() as int
}

/// The check reports the conflicts first and then the unresolved aliases. A
/// conflict is about an alias of which two definitions give different members; an
/// unresolved alias is one that a reference names and no definition does. Each
/// issue says what is to be said of its alias.
pub proof fn law_check_reports_faults_only(
    definitions: Seq<alias::DefinitionView>,
    uses: Seq<alias::UseView>,
    k: int,
)
    requires
        0 <= k < report::alias_report(definitions, uses).issues.len(),
    ensures
        ({
            let issue = report::alias_report(definitions, uses).issues[k];
            &&& issue is ConflictingDefinition <==> k < conflict_count(definitions)
            &&& issue matches report::IssueView::ConflictingDefinition { alias, .. } ==> {
                &&& issue == report::conflict_issue(definitions, alias)
                &&& exists|i: int, j: int|
                    #![trigger definitions[i], definitions[j]]
                    0 <= i < definitions.len() && 0 <= j < definitions.len()
                        && definitions[i].name == alias && definitions[j].name == alias
                        && definitions[i].members != definitions[j].members
            }
            &&& issue matches report::IssueView::UnresolvedAlias { alias, .. } ==> {
                &&& issue == report::unresolved_issue(uses, alias)
                &&& exists|i: int| 0 <= i < uses.len() && (#[trigger] uses[i]).alias == alias
                &&& forall|i: int|
                    0 <= i < definitions.len() ==> (#[trigger] definitions[i]).name != alias
            }
        }),
{
    report_laws::law_report_is_in_order(definitions, uses);
    let conflicting = report::conflicting_names(definitions);
    let unresolved = report::unresolved_names(definitions, uses);
    let first = report::in_order(conflicting);
    let second = report::in_order(unresolved);
    let n = first.len() as int;
    if k < n {
        assert(first.contains(first[k]));
        assert(conflicting.contains(first[k]));
    } else {
        assert(second.contains(second[k - n]));
        assert(unresolved.contains(second[k - n]));
    }
}

/// Conflicts and unresolved aliases are each in the order of the names, so none
/// comes twice.
pub proof fn law_issues_are_in_order(
    definitions: Seq<alias::DefinitionView>,
    uses: Seq<alias::UseView>,
    j: int,
    k: int,
)
    requires
        0 <= j < k < report::alias_report(definitions, uses).issues.len(),
    ensures
        ({
            let issues = report::alias_report(definitions, uses).issues;
            &&& issues[j] is UnresolvedAlias ==> issues[k] is UnresolvedAlias
            &&& issues[k] is ConflictingDefinition ==> text::text_before(
                issues[j]->ConflictingDefinition_alias,
                issues[k]->ConflictingDefinition_alias,
            )
            &&& issues[j] is UnresolvedAlias ==> text::text_before(
                issues[j]->UnresolvedAlias_alias,
                issues[k]->UnresolvedAlias_alias,
            )
        }),
{
    report_laws::law_report_is_in_order(definitions, uses);
    law_check_reports_faults_only(definitions, uses, j);
    law_check_reports_faults_only(definitions, uses, k);
}

/// Two definitions that give one alias different members are reported: members
/// count with their order.
pub proof fn law_every_conflict_is_reported(
    definitions: Seq<alias::DefinitionView>,
    uses: Seq<alias::UseView>,
    i: int,
    j: int,
) -> (k: int)
    requires
        0 <= i < definitions.len(),
        0 <= j < definitions.len(),
        definitions[i].name == definitions[j].name,
        definitions[i].members != definitions[j].members,
    ensures
        0 <= k < report::alias_report(definitions, uses).issues.len(),
        report::alias_report(definitions, uses).issues[k] == report::conflict_issue(
            definitions,
            definitions[i].name,
        ),
{
    report_laws::law_report_is_in_order(definitions, uses);
    let conflicting = report::conflicting_names(definitions);
    let first = report::in_order(conflicting);
    let name = definitions[i].name;
    assert(report::conflicts(definitions, name));
    assert(conflicting.contains(name));
    assert(first.contains(name));
    choose|k: int| 0 <= k < first.len() && first[k] == name
}

/// A reference that no definition resolves is reported.
pub proof fn law_every_unresolved_reference_is_reported(
    definitions: Seq<alias::DefinitionView>,
    uses: Seq<alias::UseView>,
    i: int,
) -> (k: int)
    requires
        0 <= i < uses.len(),
        forall|j: int|
            0 <= j < definitions.len() ==> (#[trigger] definitions[j]).name != uses[i].alias,
    ensures
        0 <= k < report::alias_report(definitions, uses).issues.len(),
        report::alias_report(definitions, uses).issues[k] == report::unresolved_issue(
            uses,
            uses[i].alias,
        ),
{
    report_laws::law_report_is_in_order(definitions, uses);
    let unresolved = report::unresolved_names(definitions, uses);
    let second = report::in_order(unresolved);
    let name = uses[i].alias;
    assert(report::refers(uses, name));
    assert(!report::defines(definitions, name));
    assert(unresolved.contains(name));
    assert(second.contains(name));
    let k = choose|k: int| 0 <= k < second.len() && second[k] == name;
    conflict_count(definitions) + k
}

/// The counts of the check: as many aliases as the list has entries, and as many
/// references as there are.
pub proof fn law_check_counts_everything(
    definitions: Seq<alias::DefinitionView>,
    uses: Seq<alias::UseView>,
)
    ensures
        report::alias_report(definitions, uses).aliases_defined == report::alias_list(
            definitions,
        ).len(),
        report::alias_report(definitions, uses).alias_references == uses.len(),
{
}

/// The unused aliases are in the order of their names. Each is one that a
/// definition names and no reference does, with the file of every definition.
pub proof fn law_unused_aliases_are_told(
    definitions: Seq<alias::DefinitionView>,
    uses: Seq<alias::UseView>,
    j: int,
    k: int,
)
    requires
        0 <= j < report::alias_report(definitions, uses).unused.len(),
        0 <= k < report::alias_report(definitions, uses).unused.len(),
    ensures
        ({
            let unused = report::alias_report(definitions, uses).unused;
            let name = unused[k].alias;
            &&& j < k ==> text::text_before(unused[j].alias, name)
            &&& exists|i: int|
                0 <= i < definitions.len() && (#[trigger] definitions[i]).name == name
            &&& forall|i: int| 0 <= i < uses.len() ==> (#[trigger] uses[i]).alias != name
            &&& unused[k].defined_in == definitions.filter(
                |d: alias::DefinitionView| d.name == name,
            ).map_values(|d: alias::DefinitionView| d.file)
        }),
{
    report_laws::law_report_is_in_order(definitions, uses);
    let set = report::unused_names(definitions, uses);
    let names = report::in_order(set);
    assert(names.contains(names[k]));
    assert(set.contains(names[k]));
    law_definitions_of_an_alias(definitions, names[k]);
}

/// A definition of an alias that no reference names is told as unused.
pub proof fn law_every_unused_alias_is_told(
    definitions: Seq<alias::DefinitionView>,
    uses: Seq<alias::UseView>,
    i: int,
) -> (k: int)
    requires
        0 <= i < definitions.len(),
        forall|j: int| 0 <= j < uses.len() ==> (#[trigger] uses[j]).alias != definitions[i].name,
    ensures
        0 <= k < report::alias_report(definitions, uses).unused.len(),
        report::alias_report(definitions, uses).unused[k].alias == definitions[i].name,
{
    report_laws::law_report_is_in_order(definitions, uses);
    let set = report::unused_names(definitions, uses);
    let names = report::in_order(set);
    let name = definitions[i].name;
    assert(report::defines(definitions, name));
    assert(!report::refers(uses, name));
    assert(set.contains(name));
    assert(names.contains(name));
    choose|k: int| 0 <= k < names.len() && names[k] == name
}

/// Every label that needs fixing is told: a label of a sheet that refers to an
/// alias which nothing defines stands, with its file and kind, among the places
/// of that alias's issue.
pub proof fn law_every_unresolved_label_is_told(
    definitions: Seq<alias::DefinitionView>,
    before: Seq<alias::UseView>,
    labels: Seq<Seq<char>>,
    file: Seq<char>,
    kind: alias::UseKind,
    after: Seq<alias::UseView>,
    i: int,
) -> (k: int)
    requires
        0 <= i < labels.len(),
        label::alias_of(labels[i]) is Some,
        forall|j: int|
            0 <= j < definitions.len() ==> Some((#[trigger] definitions[j]).name)
                != label::alias_of(labels[i]),
    ensures
        ({
            let uses = before + alias::references_among(labels, file, kind) + after;
            let issues = report::alias_report(definitions, uses).issues;
            &&& 0 <= k < issues.len()
            &&& issues[k] is UnresolvedAlias
            &&& Some(issues[k]->UnresolvedAlias_alias) == label::alias_of(labels[i])
            &&& issues[k]->used_at.contains((labels[i], file, kind))
        }),
{
    let own = alias::references_among(labels, file, kind);
    let uses = before + own + after;
    let name = label::alias_of(labels[i])->0;
    let issues = report::alias_report(definitions, uses).issues;
    reference_laws::law_label_gives_its_own_reference(labels, file, kind, i);
    let m = labels.take(i).filter(|l: Seq<char>| label::alias_of(l) is Some).len() as int;
    let site = own[m];
    assert(uses[before.len() + m] == site);
    let k = law_every_unresolved_reference_is_reported(definitions, uses, before.len() + m);
    law_unresolved_tells_every_reference(uses, name);
    let by_name = |u: alias::UseView| u.alias == name;
    uses.lemma_filter_contains(by_name, before.len() + m);
    let found = uses.filter(by_name);
    assert(found.contains(site));
    let j = choose|j: int| 0 <= j < found.len() && found[j] == site;
    assert(issues[k]->used_at[j] == (labels[i], file, kind));
    k
}

/// An issue is told by its kind, and why it is one: an unresolved alias by its
/// name.
pub proof fn law_issues_say_why(alias: Seq<char>, issue: report::IssueView)
    requires
        issue matches report::IssueView::UnresolvedAlias { alias: told, .. } ==> told == alias,
    ensures
        issue is ConflictingDefinition ==> report::issue_kind(issue) == "conflicting_definition"@
            && report::issue_reason(issue)
            == "the same alias is defined more than once with different members; which one wins is not defined by the file format"@,
        issue is UnresolvedAlias ==> report::issue_kind(issue) == "unresolved_alias"@
            && report::issue_reason(issue) == "no sheet in this hierarchy defines '"@ + alias
            + "'. KiCad does not flag that: it reads the label as a one-member group and nets up 'PREFIX."@
            + alias + "'. The schematic looks right and the netlist is wrong."@,
{
}

} // verus!
