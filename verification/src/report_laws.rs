//! Laws of the reports on aliases.

use crate::alias;
use crate::label;
use crate::path;
use crate::report;
use crate::text;
use vstd::prelude::*;

verus! {

// ---------------------------------------------------------------------------
// Order

/// A name can be put in its place.
proof fn lemma_place(names: Seq<Seq<char>>, name: Seq<char>) -> (more: Seq<Seq<char>>)
    requires
        report::ascending(names),
        !names.contains(name),
    ensures
        report::ascending(more),
        forall|other: Seq<char>| #[trigger]
            more.contains(other) <==> names.contains(other) || other == name,
    decreases names.len(),
{
    if names.len() == 0 {
        let more = seq![name];
        assert(more[0] == name);
        more
    } else {
        let last = names[names.len() - 1];
        assert(names.contains(last));
        text::lemma_before_total(last, name);
        if text::text_before(last, name) {
            let more = names.push(name);
            assert forall|i: int, j: int| 0 <= i < j < more.len() implies text::text_before(
                #[trigger] more[i],
                #[trigger] more[j],
            ) by {
                if j == names.len() && i < names.len() - 1 {
                    assert(text::text_before(names[i], names[names.len() - 1]));
                    text::lemma_before_transitive(names[i], last, name);
                }
            }
            text::lemma_push_contains(names, name);
            more
        } else {
            let front = names.drop_last();
            assert forall|other: Seq<char>| front.contains(other) implies names.contains(
                other,
            ) by {
                let k = choose|k: int| 0 <= k < front.len() && front[k] == other;
                assert(names[k] == other);
            }
            let rest = lemma_place(front, name);
            let more = rest.push(last);
            assert forall|i: int, j: int| 0 <= i < j < more.len() implies text::text_before(
                #[trigger] more[i],
                #[trigger] more[j],
            ) by {
                if j == rest.len() {
                    assert(rest.contains(rest[i]));
                    if rest[i] != name {
                        let k = choose|k: int| 0 <= k < front.len() && front[k] == rest[i];
                        assert(text::text_before(names[k], names[names.len() - 1]));
                    }
                }
            }
            text::lemma_push_contains(rest, last);
            text::lemma_push_contains(front, last);
            assert(names == front.push(last));
            more
        }
    }
}

/// A set of some of `keys` can be listed.
proof fn lemma_listable(keys: Seq<Seq<char>>, set: Set<Seq<char>>)
    requires
        forall|name: Seq<char>| set.contains(name) ==> keys.contains(name),
    ensures
        report::lists(report::in_order(set), set),
    decreases keys.len(),
{
    if keys.len() == 0 {
        let names = Seq::<Seq<char>>::empty();
        assert(report::lists(names, set));
    } else {
        let last = keys.last();
        let rest = set.remove(last);
        assert forall|name: Seq<char>| rest.contains(name) implies keys.drop_last().contains(
            name,
        ) by {
            let k = choose|k: int| 0 <= k < keys.len() && keys[k] == name;
            assert(keys.drop_last()[k] == name);
        }
        lemma_listable(keys.drop_last(), rest);
        let names = report::in_order(rest);
        if set.contains(last) {
            assert(names.contains(last) <==> rest.contains(last));
            let more = lemma_place(names, last);
            assert forall|name: Seq<char>| #[trigger]
                more.contains(name) <==> set.contains(name) by {
                assert(names.contains(name) <==> rest.contains(name));
            }
            assert(report::lists(more, set));
        } else {
            assert(rest == set);
        }
    }
}

/// The names that a report goes through are those it is about, in the order of
/// strings, each once: the defined aliases, those in conflict, those that are
/// not resolved, and those that are not used.
pub proof fn law_report_is_in_order(
    definitions: Seq<alias::DefinitionView>,
    uses: Seq<alias::UseView>,
)
    ensures
        report::lists(
            report::in_order(report::defined_names(definitions)),
            report::defined_names(definitions),
        ),
        report::lists(
            report::in_order(report::conflicting_names(definitions)),
            report::conflicting_names(definitions),
        ),
        report::lists(
            report::in_order(report::unresolved_names(definitions, uses)),
            report::unresolved_names(definitions, uses),
        ),
        report::lists(
            report::in_order(report::unused_names(definitions, uses)),
            report::unused_names(definitions, uses),
        ),
{
    let defined = definitions.map_values(|d: alias::DefinitionView| d.name);
    let used = uses.map_values(|u: alias::UseView| u.alias);
    assert forall|name: Seq<char>| report::defines(definitions, name) implies defined.contains(
        name,
    ) by {
        let i = choose|i: int|
            0 <= i < definitions.len() && (#[trigger] definitions[i]).name == name;
        assert(defined[i] == name);
    }
    assert forall|name: Seq<char>| report::refers(uses, name) implies used.contains(name) by {
        let i = choose|i: int| 0 <= i < uses.len() && (#[trigger] uses[i]).alias == name;
        assert(used[i] == name);
    }
    lemma_listable(defined, report::defined_names(definitions));
    lemma_listable(defined, report::conflicting_names(definitions));
    lemma_listable(used, report::unresolved_names(definitions, uses));
    lemma_listable(defined, report::unused_names(definitions, uses));
}

// ---------------------------------------------------------------------------
// What the check finds

/// The check reports an alias as unresolved if and only if something refers to
/// it and no sheet defines it, and as conflicting if and only if two sheets, or
/// two places in one, give it different members.
pub proof fn law_check_finds_every_fault(
    definitions: Seq<alias::DefinitionView>,
    uses: Seq<alias::UseView>,
    name: Seq<char>,
)
    ensures
        report::alias_issues(definitions, uses).contains(report::unresolved_issue(uses, name))
            <==> report::refers(uses, name) && !report::defines(definitions, name),
        report::alias_issues(definitions, uses).contains(
            report::conflict_issue(definitions, name),
        ) <==> report::conflicts(definitions, name),
{
    law_report_is_in_order(definitions, uses);
    let first = report::in_order(report::conflicting_names(definitions));
    let second = report::in_order(report::unresolved_names(definitions, uses));
    let issues = report::alias_issues(definitions, uses);
    let n = first.len() as int;
    assert(first.contains(name) <==> report::conflicting_names(definitions).contains(name));
    assert(second.contains(name) <==> report::unresolved_names(definitions, uses).contains(name));
    assert forall|k: int| 0 <= k < issues.len() implies #[trigger] issues[k] == (if k < n {
        report::conflict_issue(definitions, first[k])
    } else {
        report::unresolved_issue(uses, second[k - n])
    }) by {}
    let unresolved = report::unresolved_issue(uses, name);
    let conflict = report::conflict_issue(definitions, name);
    if second.contains(name) {
        let k = choose|k: int| 0 <= k < second.len() && second[k] == name;
        assert(issues[n + k] == unresolved);
    }
    if issues.contains(unresolved) {
        let k = choose|k: int| 0 <= k < issues.len() && issues[k] == unresolved;
        assert(second[k - n] == name);
    }
    if first.contains(name) {
        let k = choose|k: int| 0 <= k < first.len() && first[k] == name;
        assert(issues[k] == conflict);
    }
    if issues.contains(conflict) {
        let k = choose|k: int| 0 <= k < issues.len() && issues[k] == conflict;
        assert(first[k] == name);
    }
}

/// A design has no faults if and only if every alias that is referred to is
/// defined somewhere and no two definitions of one alias differ. Where an alias
/// is defined does not matter, nor whether it is used.
pub proof fn law_sound_design_has_no_issues(
    definitions: Seq<alias::DefinitionView>,
    uses: Seq<alias::UseView>,
)
    ensures
        report::alias_issues(definitions, uses).len() == 0 <==> {
            &&& forall|name: Seq<char>| #[trigger]
                report::refers(uses, name) ==> report::defines(definitions, name)
            &&& forall|name: Seq<char>| !#[trigger] report::conflicts(definitions, name)
        },
{
    law_report_is_in_order(definitions, uses);
    let first = report::in_order(report::conflicting_names(definitions));
    let second = report::in_order(report::unresolved_names(definitions, uses));
    let issues = report::alias_issues(definitions, uses);
    if issues.len() == 0 {
        assert forall|name: Seq<char>| #[trigger] report::refers(uses, name) implies report::defines(
            definitions,
            name,
        ) by {
            assert(!second.contains(name));
            assert(!report::unresolved_names(definitions, uses).contains(name));
        }
        assert forall|name: Seq<char>| !#[trigger] report::conflicts(definitions, name) by {
            assert(!first.contains(name));
            assert(!report::conflicting_names(definitions).contains(name));
        }
    } else if first.len() > 0 {
        assert(first.contains(first[0]));
        assert(report::conflicts(definitions, first[0]));
    } else {
        assert(second.contains(second[0]));
        assert(report::refers(uses, second[0]) && !report::defines(definitions, second[0]));
    }
}

/// The list calls an alias consistent if and only if the check finds no conflict
/// in it.
pub proof fn law_list_and_check_agree(
    definitions: Seq<alias::DefinitionView>,
    uses: Seq<alias::UseView>,
    name: Seq<char>,
)
    ensures
        report::listing_of(definitions, name).consistent <==> !report::alias_issues(
            definitions,
            uses,
        ).contains(report::conflict_issue(definitions, name)),
{
    law_check_finds_every_fault(definitions, uses, name);
}

/// Defining an alias anywhere resolves every reference to it, and changes
/// nothing for any other.
pub proof fn law_defining_resolves(
    definitions: Seq<alias::DefinitionView>,
    uses: Seq<alias::UseView>,
    definition: alias::DefinitionView,
)
    ensures
        report::unresolved_names(definitions.push(definition), uses) == report::unresolved_names(
            definitions,
            uses,
        ).remove(definition.name),
{
    let more = definitions.push(definition);
    assert forall|name: Seq<char>| #[trigger]
        report::defines(more, name) <==> report::defines(definitions, name) || name
            == definition.name by {
        lemma_defines_one_more(definitions, definition, name);
    }
    assert(report::unresolved_names(more, uses) =~= report::unresolved_names(
        definitions,
        uses,
    ).remove(definition.name));
}

proof fn lemma_defines_one_more(
    definitions: Seq<alias::DefinitionView>,
    definition: alias::DefinitionView,
    name: Seq<char>,
)
    ensures
        report::defines(definitions.push(definition), name) <==> report::defines(definitions, name)
            || name == definition.name,
{
    let more = definitions.push(definition);
    if report::defines(definitions, name) {
        let i = choose|i: int|
            0 <= i < definitions.len() && (#[trigger] definitions[i]).name == name;
        assert(more[i].name == name);
    }
    if name == definition.name {
        assert(more[definitions.len() as int].name == name);
    }
    if report::defines(more, name) {
        let i = choose|i: int| 0 <= i < more.len() && (#[trigger] more[i]).name == name;
        if i < definitions.len() {
            assert(definitions[i].name == name);
        }
    }
}

/// A definition that stands in some sheet of a design counts in all of them: an
/// alias may be defined in a parent and used in a child.
pub proof fn law_definition_counts_in_every_sheet(
    sheets: Seq<alias::SheetAliasesView>,
    name: Seq<char>,
)
    ensures
        report::defines(alias::all_definitions(sheets), name) <==> exists|i: int|
            0 <= i < sheets.len() && report::defines(
                alias::sheet_definitions(#[trigger] sheets[i]),
                name,
            ),
    decreases sheets.len(),
{
    if sheets.len() > 0 {
        let front = sheets.drop_last();
        law_definition_counts_in_every_sheet(front, name);
        let a = alias::all_definitions(front);
        let b = alias::sheet_definitions(sheets.last());
        lemma_defines_concat(a, b, name);
        if report::defines(a, name) {
            let i = choose|i: int|
                0 <= i < front.len() && report::defines(
                    alias::sheet_definitions(#[trigger] front[i]),
                    name,
                );
            assert(sheets[i] == front[i]);
        }
        if exists|i: int|
            0 <= i < sheets.len() && report::defines(
                alias::sheet_definitions(#[trigger] sheets[i]),
                name,
            ) {
            let i = choose|i: int|
                0 <= i < sheets.len() && report::defines(
                    alias::sheet_definitions(#[trigger] sheets[i]),
                    name,
                );
            if i < front.len() {
                assert(front[i] == sheets[i]);
            }
        }
        if report::defines(b, name) {
            assert(sheets[sheets.len() - 1] == sheets.last());
        }
    }
}

proof fn lemma_defines_concat(
    a: Seq<alias::DefinitionView>,
    b: Seq<alias::DefinitionView>,
    name: Seq<char>,
)
    ensures
        report::defines(a + b, name) <==> report::defines(a, name) || report::defines(b, name),
{
    let c = a + b;
    if report::defines(a, name) {
        let i = choose|i: int| 0 <= i < a.len() && (#[trigger] a[i]).name == name;
        assert(c[i].name == name);
    }
    if report::defines(b, name) {
        let i = choose|i: int| 0 <= i < b.len() && (#[trigger] b[i]).name == name;
        assert(c[a.len() + i].name == name);
    }
    if report::defines(c, name) {
        let i = choose|i: int| 0 <= i < c.len() && (#[trigger] c[i]).name == name;
        if i < a.len() {
            assert(a[i].name == name);
        } else {
            assert(b[i - a.len()].name == name);
        }
    }
}

/// The sheet carries the text `label` on a label of any kind, or on a pin of a
/// child sheet.
pub open spec fn carries(sheet: alias::SheetLabelsView, label: Seq<char>) -> bool {
    sheet.texts matches Some(texts) && {
        ||| texts.labels.contains(label)
        ||| texts.global_labels.contains(label)
        ||| texts.hierarchical_labels.contains(label)
        ||| exists|k: int|
            0 <= k < texts.sheet_pins.len() && (#[trigger] texts.sheet_pins[k]).contains(label)
    }
}

/// Some text among `labels` refers to `name`.
spec fn mentions(labels: Seq<Seq<char>>, name: Seq<char>) -> bool {
    exists|label: Seq<char>| #[trigger]
        labels.contains(label) && label::alias_of(label) == Some(name)
}

proof fn lemma_refers_concat(a: Seq<alias::UseView>, b: Seq<alias::UseView>, name: Seq<char>)
    ensures
        report::refers(a + b, name) <==> report::refers(a, name) || report::refers(b, name),
{
    let c = a + b;
    if report::refers(a, name) {
        let i = choose|i: int| 0 <= i < a.len() && (#[trigger] a[i]).alias == name;
        assert(c[i].alias == name);
    }
    if report::refers(b, name) {
        let i = choose|i: int| 0 <= i < b.len() && (#[trigger] b[i]).alias == name;
        assert(c[a.len() + i].alias == name);
    }
    if report::refers(c, name) {
        let i = choose|i: int| 0 <= i < c.len() && (#[trigger] c[i]).alias == name;
        if i < a.len() {
            assert(a[i].alias == name);
        } else {
            assert(b[i - a.len()].alias == name);
        }
    }
}

proof fn lemma_refers_among(
    labels: Seq<Seq<char>>,
    file: Seq<char>,
    kind: alias::UseKind,
    name: Seq<char>,
)
    ensures
        report::refers(alias::references_among(labels, file, kind), name) <==> mentions(
            labels,
            name,
        ),
    decreases labels.len(),
{
    if labels.len() > 0 {
        let front = labels.drop_last();
        let last = labels.last();
        lemma_refers_among(front, file, kind, name);
        text::lemma_push_contains(front, last);
        assert(labels == front.push(last));
        let found = alias::references_among(front, file, kind);
        if let Some(alias) = label::alias_of(last) {
            let site = alias::UseView { alias, label: last, file, kind };
            lemma_refers_concat(found, seq![site], name);
            assert(found.push(site) == found + seq![site]);
            assert(report::refers(seq![site], name) <==> alias == name) by {
                assert(seq![site][0].alias == alias);
            }
        }
        assert(mentions(labels, name) <==> mentions(front, name) || label::alias_of(last) == Some(
            name,
        )) by {
            if mentions(front, name) {
                let label = choose|label: Seq<char>| #[trigger]
                    front.contains(label) && label::alias_of(label) == Some(name);
                assert(labels.contains(label));
            }
            assert(labels.contains(last));
        }
    }
}

proof fn lemma_refers_pins(pins: Seq<Seq<Seq<char>>>, file: Seq<char>, name: Seq<char>)
    ensures
        report::refers(alias::pin_references(pins, file), name) <==> exists|k: int|
            0 <= k < pins.len() && mentions(#[trigger] pins[k], name),
    decreases pins.len(),
{
    if pins.len() > 0 {
        let front = pins.drop_last();
        let last = pins[pins.len() - 1];
        lemma_refers_pins(front, file, name);
        lemma_refers_among(last, file, alias::UseKind::SheetPin, name);
        lemma_refers_concat(
            alias::pin_references(front, file),
            alias::references_among(last, file, alias::UseKind::SheetPin),
            name,
        );
        if exists|k: int| 0 <= k < front.len() && mentions(#[trigger] front[k], name) {
            let k = choose|k: int| 0 <= k < front.len() && mentions(#[trigger] front[k], name);
            assert(pins[k] == front[k]);
        }
        if exists|k: int| 0 <= k < pins.len() && mentions(#[trigger] pins[k], name) {
            let k = choose|k: int| 0 <= k < pins.len() && mentions(#[trigger] pins[k], name);
            if k < front.len() {
                assert(front[k] == pins[k]);
            }
        }
    }
}

proof fn lemma_refers_in_sheet(sheet: alias::SheetLabelsView, name: Seq<char>)
    ensures
        report::refers(alias::sheet_references(sheet), name) <==> exists|label: Seq<char>| #[trigger]
            carries(sheet, label) && label::alias_of(label) == Some(name),
{
    if let Some(texts) = sheet.texts {
        let file = path::label_of(sheet.path);
        let a = alias::references_among(texts.labels, file, alias::UseKind::Label);
        let b = alias::references_among(texts.global_labels, file, alias::UseKind::GlobalLabel);
        let c = alias::references_among(
            texts.hierarchical_labels,
            file,
            alias::UseKind::HierarchicalLabel,
        );
        let d = alias::pin_references(texts.sheet_pins, file);
        lemma_refers_among(texts.labels, file, alias::UseKind::Label, name);
        lemma_refers_among(texts.global_labels, file, alias::UseKind::GlobalLabel, name);
        lemma_refers_among(
            texts.hierarchical_labels,
            file,
            alias::UseKind::HierarchicalLabel,
            name,
        );
        lemma_refers_pins(texts.sheet_pins, file, name);
        lemma_refers_concat(a, b, name);
        lemma_refers_concat(a + b, c, name);
        lemma_refers_concat(a + b + c, d, name);
        if report::refers(alias::sheet_references(sheet), name) {
            let labels = if mentions(texts.labels, name) {
                texts.labels
            } else if mentions(texts.global_labels, name) {
                texts.global_labels
            } else if mentions(texts.hierarchical_labels, name) {
                texts.hierarchical_labels
            } else {
                texts.sheet_pins[choose|k: int|
                    0 <= k < texts.sheet_pins.len() && mentions(
                        #[trigger] texts.sheet_pins[k],
                        name,
                    )]
            };
            let label = choose|label: Seq<char>| #[trigger]
                labels.contains(label) && label::alias_of(label) == Some(name);
            assert(carries(sheet, label));
        }
    }
}

/// A reference counts wherever it stands: an alias is referred to if and only
/// if some label of any kind, or some sheet pin, in some sheet refers to it.
pub proof fn law_every_label_is_checked(sheets: Seq<alias::SheetLabelsView>, name: Seq<char>)
    ensures
        report::refers(alias::all_references(sheets), name) <==> exists|i: int, label: Seq<char>|
            0 <= i < sheets.len() && #[trigger] carries(sheets[i], label) && label::alias_of(label)
                == Some(name),
    decreases sheets.len(),
{
    if sheets.len() > 0 {
        let front = sheets.drop_last();
        let last = sheets[sheets.len() - 1];
        law_every_label_is_checked(front, name);
        lemma_refers_in_sheet(last, name);
        lemma_refers_concat(alias::all_references(front), alias::sheet_references(last), name);
        if report::refers(alias::all_references(front), name) {
            let (i, label) = choose|i: int, label: Seq<char>|
                0 <= i < front.len() && #[trigger] carries(front[i], label) && label::alias_of(
                    label,
                ) == Some(name);
            assert(carries(sheets[i], label));
        } else if report::refers(alias::sheet_references(last), name) {
            let label = choose|label: Seq<char>| #[trigger]
                carries(last, label) && label::alias_of(label) == Some(name);
            assert(carries(sheets[sheets.len() - 1], label));
        }
        if exists|i: int, label: Seq<char>|
            0 <= i < sheets.len() && #[trigger] carries(sheets[i], label) && label::alias_of(label)
                == Some(name) {
            let (i, label) = choose|i: int, label: Seq<char>|
                0 <= i < sheets.len() && #[trigger] carries(sheets[i], label) && label::alias_of(
                    label,
                ) == Some(name);
            if i < front.len() {
                assert(carries(front[i], label));
            }
        }
    }
}

/// The fault that the check is there for: a label in any sheet that refers to
/// an alias which no sheet defines is reported.
pub proof fn law_undefined_reference_is_reported(
    defining: Seq<alias::SheetAliasesView>,
    labelled: Seq<alias::SheetLabelsView>,
    i: int,
    label: Seq<char>,
    name: Seq<char>,
)
    requires
        0 <= i < labelled.len(),
        carries(labelled[i], label),
        label::alias_of(label) == Some(name),
        forall|k: int|
            0 <= k < defining.len() ==> !report::defines(
                alias::sheet_definitions(#[trigger] defining[k]),
                name,
            ),
    ensures
        report::alias_issues(
            alias::all_definitions(defining),
            alias::all_references(labelled),
        ).contains(report::unresolved_issue(alias::all_references(labelled), name)),
{
    law_definition_counts_in_every_sheet(defining, name);
    law_every_label_is_checked(labelled, name);
    law_check_finds_every_fault(
        alias::all_definitions(defining),
        alias::all_references(labelled),
        name,
    );
}

/// An alias that nothing refers to is no fault: defining one more leaves the
/// faults as they are.
pub proof fn law_unused_alias_is_no_fault(
    definitions: Seq<alias::DefinitionView>,
    uses: Seq<alias::UseView>,
    definition: alias::DefinitionView,
)
    requires
        !report::defines(definitions, definition.name),
        !report::refers(uses, definition.name),
    ensures
        report::alias_issues(definitions.push(definition), uses) == report::alias_issues(
            definitions,
            uses,
        ),
        report::unused_names(definitions.push(definition), uses).contains(definition.name),
{
    let more = definitions.push(definition);
    law_report_is_in_order(definitions, uses);
    law_defining_resolves(definitions, uses, definition);
    assert(report::unresolved_names(more, uses) =~= report::unresolved_names(definitions, uses));
    assert forall|name: Seq<char>| #[trigger]
        report::conflicts(more, name) <==> report::conflicts(definitions, name) by {
        if report::conflicts(definitions, name) {
            let (i, j) = choose|i: int, j: int|
                0 <= i < definitions.len() && 0 <= j < definitions.len() && (
                #[trigger] definitions[i]).name == name && (#[trigger] definitions[j]).name == name
                    && definitions[i].members != definitions[j].members;
            assert(more[i] == definitions[i] && more[j] == definitions[j]);
        }
        if report::conflicts(more, name) {
            let (i, j) = choose|i: int, j: int|
                0 <= i < more.len() && 0 <= j < more.len() && (#[trigger] more[i]).name == name && (
                #[trigger] more[j]).name == name && more[i].members != more[j].members;
            let n = definitions.len() as int;
            if i == n && j < n {
                assert(definitions[j].name == definition.name);
            } else if j == n && i < n {
                assert(definitions[i].name == definition.name);
            } else {
                assert(definitions[i] == more[i] && definitions[j] == more[j]);
            }
        }
    }
    assert(report::conflicting_names(more) =~= report::conflicting_names(definitions));
    let first = report::in_order(report::conflicting_names(definitions));
    assert forall|k: int| 0 <= k < first.len() implies report::conflict_issue(
        more,
        #[trigger] first[k],
    ) == report::conflict_issue(definitions, first[k]) by {
        assert(first.contains(first[k]));
        assert(report::conflicts(definitions, first[k]));
        assert(more.drop_last() == definitions);
        assert(first[k] != definition.name);
    }
    assert(report::alias_issues(more, uses) =~= report::alias_issues(definitions, uses));
    lemma_defines_one_more(definitions, definition, definition.name);
}

// ---------------------------------------------------------------------------
// What one more definition changes

/// Taking a name out of a list in order leaves a list in order.
proof fn lemma_in_order_without(set: Set<Seq<char>>, name: Seq<char>) -> (p: int)
    requires
        report::lists(report::in_order(set), set),
        set.contains(name),
    ensures
        0 <= p < report::in_order(set).len(),
        report::in_order(set)[p] == name,
        report::in_order(set.remove(name)) == report::in_order(set).remove(p),
        report::lists(report::in_order(set.remove(name)), set.remove(name)),
{
    let names = report::in_order(set);
    assert(names.contains(name) <==> set.contains(name));
    let p = choose|p: int| 0 <= p < names.len() && names[p] == name;
    let less = names.remove(p);
    let smaller = set.remove(name);
    assert forall|i: int, j: int| 0 <= i < j < less.len() implies text::text_before(
        #[trigger] less[i],
        #[trigger] less[j],
    ) by {
        let x = if i < p { i } else { i + 1 };
        let y = if j < p { j } else { j + 1 };
        assert(less[i] == names[x] && less[j] == names[y]);
    }
    assert forall|other: Seq<char>| #[trigger]
        less.contains(other) <==> smaller.contains(other) by {
        assert(names.contains(other) <==> set.contains(other));
        if less.contains(other) {
            let k = choose|k: int| 0 <= k < less.len() && less[k] == other;
            let x = if k < p { k } else { k + 1 };
            assert(names[x] == other);
            if other == name {
                if x < p {
                    assert(text::text_before(names[x], names[p]));
                } else {
                    assert(text::text_before(names[p], names[x]));
                }
                text::lemma_before_irreflexive(name);
            }
        }
        if smaller.contains(other) {
            let x = choose|x: int| 0 <= x < names.len() && names[x] == other;
            let k = if x < p { x } else { x - 1 };
            assert(less[k] == other);
        }
    }
    assert(report::lists(less, smaller));
    report::lemma_in_order(less, smaller);
    p
}

proof fn lemma_definitions_concat(
    a: Seq<alias::DefinitionView>,
    b: Seq<alias::DefinitionView>,
    name: Seq<char>,
)
    ensures
        report::definitions_of(a + b, name) == report::definitions_of(a, name)
            + report::definitions_of(b, name),
    decreases b.len(),
{
    if b.len() == 0 {
        assert(a + b == a);
    } else {
        lemma_definitions_concat(a, b.drop_last(), name);
        assert((a + b).drop_last() == a + b.drop_last());
        assert((a + b).last() == b.last());
    }
}

/// The definitions of an alias with one more put in at `k`.
proof fn lemma_definitions_insert(
    definitions: Seq<alias::DefinitionView>,
    k: int,
    definition: alias::DefinitionView,
    name: Seq<char>,
)
    requires
        0 <= k <= definitions.len(),
    ensures
        name != definition.name ==> report::definitions_of(
            definitions.insert(k, definition),
            name,
        ) == report::definitions_of(definitions, name),
        name == definition.name && !report::defines(definitions, name) ==> report::definitions_of(
            definitions.insert(k, definition),
            name,
        ) == seq![definition],
{
    let (a, b) = (definitions.take(k), definitions.skip(k));
    let one = seq![definition];
    assert(definitions == a + b);
    assert(definitions.insert(k, definition) == a + one + b);
    lemma_definitions_concat(a, b, name);
    lemma_definitions_concat(a, one, name);
    lemma_definitions_concat(a + one, b, name);
    assert(one.drop_last() == Seq::<alias::DefinitionView>::empty());
    assert(one.last() == definition);
    assert(report::definitions_of(one.drop_last(), name).len() == 0);
    if !report::defines(definitions, name) {
        lemma_defines_concat(a, b, name);
        lemma_undefined_has_none(a, name);
        lemma_undefined_has_none(b, name);
    }
    assert(report::definitions_of(definitions.insert(k, definition), name) =~= (if name
        == definition.name {
        report::definitions_of(a, name) + one + report::definitions_of(b, name)
    } else {
        report::definitions_of(definitions, name)
    }));
}

proof fn lemma_undefined_has_none(definitions: Seq<alias::DefinitionView>, name: Seq<char>)
    requires
        !report::defines(definitions, name),
    ensures
        report::definitions_of(definitions, name).len() == 0,
    decreases definitions.len(),
{
    if definitions.len() > 0 {
        let front = definitions.drop_last();
        assert(!report::defines(front, name)) by {
            if report::defines(front, name) {
                let i = choose|i: int| 0 <= i < front.len() && (#[trigger] front[i]).name == name;
                assert(definitions[i].name == name);
            }
        }
        lemma_undefined_has_none(front, name);
        assert(definitions[definitions.len() - 1].name != name);
    }
}

/// The definitions of an alias are those among all that name it.
proof fn lemma_definitions_among(
    definitions: Seq<alias::DefinitionView>,
    name: Seq<char>,
    d: alias::DefinitionView,
)
    ensures
        report::definitions_of(definitions, name).contains(d) <==> definitions.contains(d) && d.name
            == name,
    decreases definitions.len(),
{
    if definitions.len() > 0 {
        let front = definitions.drop_last();
        let last = definitions.last();
        let own = report::definitions_of(front, name);
        lemma_definitions_among(front, name, d);
        assert(definitions == front.push(last));
        lemma_push_holds(front, last, d);
        lemma_push_holds(own, last, d);
    }
}

proof fn lemma_push_holds(
    all: Seq<alias::DefinitionView>,
    last: alias::DefinitionView,
    d: alias::DefinitionView,
)
    ensures
        all.push(last).contains(d) <==> all.contains(d) || d == last,
{
    if all.contains(d) {
        let k = choose|k: int| 0 <= k < all.len() && all[k] == d;
        assert(all.push(last)[k] == d);
    }
    assert(all.push(last)[all.len() as int] == last);
}

/// Two of `own` give different members.
spec fn differ(own: Seq<alias::DefinitionView>) -> bool {
    exists|x: int, y: int|
        0 <= x < own.len() && 0 <= y < own.len() && (#[trigger] own[x]).members != (
        #[trigger] own[y]).members
}

/// Whether an alias is in conflict shows in its own definitions.
proof fn lemma_conflict_among(definitions: Seq<alias::DefinitionView>, name: Seq<char>)
    ensures
        report::conflicts(definitions, name) <==> differ(
            report::definitions_of(definitions, name),
        ),
{
    let own = report::definitions_of(definitions, name);
    if report::conflicts(definitions, name) {
        let (i, j) = choose|i: int, j: int|
            0 <= i < definitions.len() && 0 <= j < definitions.len() && (
            #[trigger] definitions[i]).name == name && (#[trigger] definitions[j]).name == name
                && definitions[i].members != definitions[j].members;
        assert(definitions.contains(definitions[i]) && definitions.contains(definitions[j]));
        lemma_definitions_among(definitions, name, definitions[i]);
        lemma_definitions_among(definitions, name, definitions[j]);
        let x = choose|x: int| 0 <= x < own.len() && own[x] == definitions[i];
        let y = choose|y: int| 0 <= y < own.len() && own[y] == definitions[j];
        assert(own[x].members != own[y].members);
    }
    if differ(own) {
        let (x, y) = choose|x: int, y: int|
            0 <= x < own.len() && 0 <= y < own.len() && (#[trigger] own[x]).members != (
            #[trigger] own[y]).members;
        assert(own.contains(own[x]) && own.contains(own[y]));
        lemma_definitions_among(definitions, name, own[x]);
        lemma_definitions_among(definitions, name, own[y]);
        let i = choose|i: int| 0 <= i < definitions.len() && definitions[i] == own[x];
        let j = choose|j: int| 0 <= j < definitions.len() && definitions[j] == own[y];
        assert(definitions[i].name == name && definitions[j].name == name);
    }
}

proof fn lemma_defines_insert(
    definitions: Seq<alias::DefinitionView>,
    k: int,
    definition: alias::DefinitionView,
    name: Seq<char>,
)
    requires
        0 <= k <= definitions.len(),
    ensures
        report::defines(definitions.insert(k, definition), name) <==> report::defines(
            definitions,
            name,
        ) || name == definition.name,
{
    let (a, b) = (definitions.take(k), definitions.skip(k));
    let one = seq![definition];
    assert(definitions == a + b);
    assert(definitions.insert(k, definition) == a + one + b);
    lemma_defines_concat(a, b, name);
    lemma_defines_concat(a, one, name);
    lemma_defines_concat(a + one, b, name);
    assert(one[0].name == definition.name);
}

/// Defining, anywhere in the design, an alias that is referred to and was defined
/// nowhere takes its issue, and no other, out of the report. One alias more is
/// defined; the references and the unused aliases are as before.
pub proof fn law_defining_takes_the_issue_out(
    definitions: Seq<alias::DefinitionView>,
    uses: Seq<alias::UseView>,
    k: int,
    definition: alias::DefinitionView,
) -> (p: int)
    requires
        0 <= k <= definitions.len(),
        report::refers(uses, definition.name),
        !report::defines(definitions, definition.name),
    ensures
        ({
            let before = report::alias_report(definitions, uses);
            let after = report::alias_report(definitions.insert(k, definition), uses);
            &&& 0 <= p < before.issues.len()
            &&& before.issues[p] == report::unresolved_issue(uses, definition.name)
            &&& after.issues == before.issues.remove(p)
            &&& after.aliases_defined == before.aliases_defined + 1
            &&& after.alias_references == before.alias_references
            &&& after.unused == before.unused
        }),
{
    let name = definition.name;
    let more = definitions.insert(k, definition);
    law_report_is_in_order(definitions, uses);
    law_report_is_in_order(more, uses);
    assert forall|n: Seq<char>| #[trigger]
        report::defines(more, n) <==> report::defines(definitions, n) || n == name by {
        lemma_defines_insert(definitions, k, definition, n);
    }
    assert forall|n: Seq<char>| #[trigger]
        report::conflicts(more, n) <==> report::conflicts(definitions, n) by {
        lemma_definitions_insert(definitions, k, definition, n);
        lemma_conflict_among(more, n);
        lemma_conflict_among(definitions, n);
        if n == name {
            lemma_undefined_has_none(definitions, n);
        }
    }
    let unresolved = report::unresolved_names(definitions, uses);
    let q = lemma_in_order_without(unresolved, name);
    assert(report::unresolved_names(more, uses) =~= unresolved.remove(name));
    let defined = report::defined_names(more);
    assert(defined.contains(name));
    let _ = lemma_in_order_without(defined, name);
    assert(report::defined_names(definitions) =~= defined.remove(name));
    assert(report::conflicting_names(more) =~= report::conflicting_names(definitions));
    assert(report::unused_names(more, uses) =~= report::unused_names(definitions, uses));
    let first = report::in_order(report::conflicting_names(definitions));
    let second = report::in_order(unresolved);
    let unused = report::in_order(report::unused_names(definitions, uses));
    let issues = report::alias_issues(definitions, uses);
    let p = first.len() + q;
    assert forall|i: int| 0 <= i < first.len() implies report::conflict_issue(
        more,
        #[trigger] first[i],
    ) == report::conflict_issue(definitions, first[i]) by {
        assert(first.contains(first[i]));
        assert(report::conflicts(definitions, first[i]));
        lemma_definitions_insert(definitions, k, definition, first[i]);
    }
    assert forall|i: int| 0 <= i < unused.len() implies report::definitions_of(
        more,
        #[trigger] unused[i],
    ) == report::definitions_of(definitions, unused[i]) by {
        assert(unused.contains(unused[i]));
        assert(report::unused_names(definitions, uses).contains(unused[i]));
        lemma_definitions_insert(definitions, k, definition, unused[i]);
    }
    assert(issues[p] == report::unresolved_issue(uses, second[q]));
    assert(report::alias_issues(more, uses) =~= issues.remove(p));
    assert(report::alias_report(more, uses).unused =~= report::alias_report(
        definitions,
        uses,
    ).unused);
    p
}

} // verus!
