//! Laws of collecting: every definition and every reference in the sheets of a
//! design is collected, once, with what it says and where it stands.

use crate::alias;
use crate::label;
use crate::path;
use vstd::prelude::*;

verus! {

// ---------------------------------------------------------------------------
// References

/// Every label that refers to an alias gives one reference of its own, and no
/// other label gives any: the references are the labels in their order, less
/// those that refer to nothing.
pub proof fn law_labels_give_their_references(
    labels: Seq<Seq<char>>,
    file: Seq<char>,
    kind: alias::UseKind,
)
    ensures
        alias::references_among(labels, file, kind) == labels.filter_map(
            |label: Seq<char>|
                match label::alias_of(label) {
                    Some(alias) => Some(alias::UseView { alias, label, file, kind }),
                    None => None,
                },
        ),
    decreases labels.len(),
{
    if labels.len() > 0 {
        law_labels_give_their_references(labels.drop_last(), file, kind);
    }
}

/// The references of a list of labels are as many as the labels in it that refer
/// to an alias. That of the label at `i` carries its alias, its text, its file
/// and its kind, and comes behind those of just the labels in front of it.
pub proof fn law_label_gives_its_own_reference(
    labels: Seq<Seq<char>>,
    file: Seq<char>,
    kind: alias::UseKind,
    i: int,
)
    ensures
        alias::references_among(labels, file, kind).len() == labels.filter(
            |label: Seq<char>| label::alias_of(label) is Some,
        ).len(),
        0 <= i < labels.len() && label::alias_of(labels[i]) is Some ==> {
            let k = labels.take(i).filter(
                |label: Seq<char>| label::alias_of(label) is Some,
            ).len() as int;
            &&& k < alias::references_among(labels, file, kind).len()
            &&& alias::references_among(labels, file, kind)[k] == (alias::UseView {
                alias: label::alias_of(labels[i])->0,
                label: labels[i],
                file,
                kind,
            })
        },
    decreases labels.len(),
{
    reveal(Seq::filter);
    if labels.len() > 0 {
        let front = labels.drop_last();
        law_label_gives_its_own_reference(front, file, kind, i);
        if 0 <= i < front.len() {
            assert(front.take(i) == labels.take(i));
            assert(front[i] == labels[i]);
        } else if i == front.len() {
            assert(labels.take(i) == front);
        }
    }
}

proof fn lemma_references_join(
    a: Seq<Seq<char>>,
    b: Seq<Seq<char>>,
    file: Seq<char>,
    kind: alias::UseKind,
)
    ensures
        alias::references_among(a + b, file, kind) == alias::references_among(a, file, kind)
            + alias::references_among(b, file, kind),
    decreases b.len(),
{
    if b.len() == 0 {
        assert(a + b == a);
    } else {
        lemma_references_join(a, b.drop_last(), file, kind);
        assert((a + b).drop_last() == a + b.drop_last());
        assert((a + b).last() == b.last());
    }
}

/// The pins of all child sheets count alike: their references are those of the
/// pins in a row.
pub proof fn law_sheet_pins_give_their_references(pins: Seq<Seq<Seq<char>>>, file: Seq<char>)
    ensures
        alias::pin_references(pins, file) == pins.flatten_alt().filter_map(
            |label: Seq<char>|
                match label::alias_of(label) {
                    Some(alias) => Some(
                        alias::UseView { alias, label, file, kind: alias::UseKind::SheetPin },
                    ),
                    None => None,
                },
        ),
    decreases pins.len(),
{
    let kind = alias::UseKind::SheetPin;
    law_labels_give_their_references(pins.flatten_alt(), file, kind);
    if pins.len() > 0 {
        let front = pins.drop_last();
        law_sheet_pins_give_their_references(front, file);
        law_labels_give_their_references(front.flatten_alt(), file, kind);
        lemma_references_join(front.flatten_alt(), pins.last(), file, kind);
    }
}

/// A sheet gives the references of its labels, of its global labels, of its
/// hierarchical labels and of the pins of its child sheets, each with its kind
/// and with the name of the sheet's file; one that does not load gives none.
pub proof fn law_sheet_gives_all_its_references(sheet: alias::SheetLabelsView)
    ensures
        sheet.texts is None ==> alias::sheet_references(sheet).len() == 0,
        sheet.texts matches Some(texts) ==> {
            let file = path::label_of(sheet.path);
            alias::sheet_references(sheet) == alias::references_among(
                texts.labels,
                file,
                alias::UseKind::Label,
            ) + alias::references_among(texts.global_labels, file, alias::UseKind::GlobalLabel)
                + alias::references_among(
                texts.hierarchical_labels,
                file,
                alias::UseKind::HierarchicalLabel,
            ) + alias::references_among(
                texts.sheet_pins.flatten_alt(),
                file,
                alias::UseKind::SheetPin,
            )
        },
{
    if let Some(texts) = sheet.texts {
        let file = path::label_of(sheet.path);
        law_sheet_pins_give_their_references(texts.sheet_pins, file);
        law_labels_give_their_references(
            texts.sheet_pins.flatten_alt(),
            file,
            alias::UseKind::SheetPin,
        );
    }
}

/// The references of a design are those of its sheets, sheet by sheet.
pub proof fn law_design_gives_all_its_references(
    a: Seq<alias::SheetLabelsView>,
    b: Seq<alias::SheetLabelsView>,
    sheet: alias::SheetLabelsView,
)
    ensures
        alias::all_references(Seq::empty()).len() == 0,
        alias::all_references(seq![sheet]) == alias::sheet_references(sheet),
        alias::all_references(a + b) == alias::all_references(a) + alias::all_references(b),
    decreases b.len(),
{
    let one = seq![sheet];
    let none = Seq::<alias::SheetLabelsView>::empty();
    assert(one.drop_last() == none);
    assert(alias::all_references(none) == Seq::<alias::UseView>::empty());
    assert(alias::all_references(one) == alias::sheet_references(sheet));
    if b.len() == 0 {
        assert(a + b == a);
    } else {
        law_design_gives_all_its_references(a, b.drop_last(), sheet);
        assert((a + b).drop_last() == a + b.drop_last());
        assert((a + b).last() == b.last());
    }
}

/// The kinds of references have these names in reports.
pub proof fn law_kinds_have_their_names()
    ensures
        alias::kind_name(alias::UseKind::Label) == "label"@,
        alias::kind_name(alias::UseKind::GlobalLabel) == "global_label"@,
        alias::kind_name(alias::UseKind::HierarchicalLabel) == "hierarchical_label"@,
        alias::kind_name(alias::UseKind::SheetPin) == "sheet_pin"@,
{
}

// ---------------------------------------------------------------------------
// Definitions

/// Of a list of items just the texts are kept, all of them and in their order.
pub proof fn law_texts_are_kept(items: Seq<Option<Seq<char>>>)
    ensures
        alias::texts_among(items) == items.filter_map(|item: Option<Seq<char>>| item),
    decreases items.len(),
{
    if items.len() > 0 {
        law_texts_are_kept(items.drop_last());
    }
}

/// The members of an alias node are the texts of its member list, none if it has
/// no list.
pub proof fn law_members_are_the_texts_of_the_list(node: alias::NodeView)
    ensures
        node.members matches Some(items) ==> alias::node_members(node) == items.filter_map(
            |item: Option<Seq<char>>| item,
        ),
        node.members is None ==> alias::node_members(node).len() == 0,
{
    if let Some(items) = node.members {
        law_texts_are_kept(items);
    }
}

/// Every alias node with a name gives one definition of its own, with its name,
/// its members and its file, and no other node gives any.
pub proof fn law_nodes_give_their_definitions(nodes: Seq<alias::NodeView>, file: Seq<char>)
    ensures
        alias::defined_in(nodes, file) == nodes.filter_map(
            |node: alias::NodeView|
                match node.name {
                    Some(name) => Some(
                        alias::DefinitionView { name, members: alias::node_members(node), file },
                    ),
                    None => None,
                },
        ),
    decreases nodes.len(),
{
    if nodes.len() > 0 {
        law_nodes_give_their_definitions(nodes.drop_last(), file);
    }
}

/// The definitions of a design are those of its sheets, sheet by sheet, each
/// with the name of the sheet's file; a sheet that does not parse gives none.
pub proof fn law_design_gives_all_its_definitions(
    a: Seq<alias::SheetAliasesView>,
    b: Seq<alias::SheetAliasesView>,
    sheet: alias::SheetAliasesView,
)
    ensures
        alias::all_definitions(Seq::empty()).len() == 0,
        alias::all_definitions(seq![sheet]) == match sheet.nodes {
            Some(nodes) => alias::defined_in(nodes, path::label_of(sheet.path)),
            None => Seq::empty(),
        },
        alias::all_definitions(a + b) == alias::all_definitions(a) + alias::all_definitions(b),
    decreases b.len(),
{
    let one = seq![sheet];
    let none = Seq::<alias::SheetAliasesView>::empty();
    assert(one.drop_last() == none);
    assert(alias::all_definitions(none) == Seq::<alias::DefinitionView>::empty());
    assert(alias::all_definitions(one) == alias::sheet_definitions(sheet));
    if b.len() == 0 {
        assert(a + b == a);
    } else {
        law_design_gives_all_its_definitions(a, b.drop_last(), sheet);
        assert((a + b).drop_last() == a + b.drop_last());
        assert((a + b).last() == b.last());
    }
}

} // verus!
