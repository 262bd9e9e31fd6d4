//! Bus aliases: what defines them, and what refers to them.

use crate::label;
use crate::path;
use crate::text;
use crate::tree;
use crate::tree::SheetNode;
use vstd::prelude::*;
use vstd::string::*;

verus! {

// ---------------------------------------------------------------------------
// Definitions

/// One `(bus_alias "NAME" (members ...))` block and the file it stands in.
#[derive(Debug)]
pub struct AliasDefinition {
    pub name: String,
    pub members: Vec<String>,
    pub file: String,
}

/// [`AliasDefinition`] as a mathematical value.
pub struct DefinitionView {
    pub name: Seq<char>,
    pub members: Seq<Seq<char>>,
    pub file: Seq<char>,
}

impl View for AliasDefinition {
    type V = DefinitionView;

    open spec fn view(&self) -> DefinitionView {
        DefinitionView {
            name: self.name@,
            members: text::views(self.members@),
            file: self.file@,
        }
    }
}

pub open spec fn definition_views(definitions: Seq<AliasDefinition>) -> Seq<DefinitionView> {
    definitions.map_values(|d: AliasDefinition| d@)
}

/// What a parsed sheet holds of one `bus_alias` node: the text behind the head,
/// if it is text, and the items behind the head of its `members` node, if it
/// has one; an item that is no text is `None`.
pub struct AliasNode {
    pub name: Option<String>,
    pub members: Option<Vec<Option<String>>>,
}

/// [`AliasNode`] as a mathematical value.
pub struct NodeView {
    pub name: Option<Seq<char>>,
    pub members: Option<Seq<Option<Seq<char>>>>,
}

pub open spec fn optionals(items: Seq<Option<String>>) -> Seq<Option<Seq<char>>> {
    items.map_values(|s: Option<String>| text::optional(s))
}

impl View for AliasNode {
    type V = NodeView;

    open spec fn view(&self) -> NodeView {
        NodeView {
            name: text::optional(self.name),
            members: match self.members {
                Some(items) => Some(optionals(items@)),
                None => None,
            },
        }
    }
}

pub open spec fn node_views(nodes: Seq<AliasNode>) -> Seq<NodeView> {
    nodes.map_values(|n: AliasNode| n@)
}

/// The texts among `items`, in their order.
pub open spec fn texts_among(items: Seq<Option<Seq<char>>>) -> Seq<Seq<char>>
    decreases items.len(),
{
    if items.len() == 0 {
        Seq::empty()
    } else {
        match items.last() {
            Some(t) => texts_among(items.drop_last()).push(t),
            None => texts_among(items.drop_last()),
        }
    }
}

/// The members that a node gives its alias.
pub open spec fn node_members(node: NodeView) -> Seq<Seq<char>> {
    match node.members {
        Some(items) => texts_among(items),
        None => Seq::empty(),
    }
}

/// The aliases that the nodes of the sheet `file` define: one for each node that
/// has a name, in their order.
pub open spec fn defined_in(nodes: Seq<NodeView>, file: Seq<char>) -> Seq<DefinitionView>
    decreases nodes.len(),
{
    if nodes.len() == 0 {
        Seq::empty()
    } else {
        let front = defined_in(nodes.drop_last(), file);
        match nodes.last().name {
            Some(name) => front.push(
                DefinitionView { name, members: node_members(nodes.last()), file },
            ),
            None => front,
        }
    }
}

/// The texts among `items`.
pub fn keep_texts(items: &Vec<Option<String>>) -> (texts: Vec<String>)
    ensures
        text::views(texts@) == texts_among(optionals(items@)),
{
    let ghost all = optionals(items@);
    let mut texts: Vec<String> = Vec::new();
    let mut i: usize = 0;
    assert(text::views(texts@) == Seq::<Seq<char>>::empty());
    while i < items.len()
        invariant
            i <= items@.len(),
            all == optionals(items@),
            text::views(texts@) == texts_among(all.take(i as int)),
        decreases items@.len() - i,
    {
        let ghost before = texts@;
        assert(all.take(i + 1).drop_last() == all.take(i as int));
        match &items[i] {
            Some(t) => {
                texts.push(t.clone());
                assert(text::views(texts@) == text::views(before).push(t@));
            },
            None => {},
        }
        i = i + 1;
    }
    assert(all.take(i as int) == all);
    texts
}

/// The aliases that one sheet defines. A sheet that does not parse defines none.
pub fn parse_bus_aliases(parsed: &Option<SheetNode>, file: &str) -> (definitions: Vec<
    AliasDefinition,
>)
    ensures
        definition_views(definitions@) == match parsed {
            Some(root) => defined_in(tree::alias_nodes_of(*root), file@),
            None => Seq::empty(),
        },
{
    let mut definitions: Vec<AliasDefinition> = Vec::new();
    assert(definition_views(definitions@) == Seq::<DefinitionView>::empty());
    let nodes: Vec<AliasNode> = match parsed {
        Some(root) => tree::alias_nodes(root),
        None => {
            return definitions;
        },
    };
    let ghost all = node_views(nodes@);
    let mut i: usize = 0;
    while i < nodes.len()
        invariant
            i <= nodes@.len(),
            all == node_views(nodes@),
            definition_views(definitions@) == defined_in(all.take(i as int), file@),
        decreases nodes@.len() - i,
    {
        let ghost before = definitions@;
        assert(all.take(i + 1).drop_last() == all.take(i as int));
        assert(all[i as int] == nodes@[i as int]@);
        match &nodes[i].name {
            Some(name) => {
                let members: Vec<String> = match &nodes[i].members {
                    Some(items) => keep_texts(items),
                    None => Vec::new(),
                };
                assert(text::views(members@) == node_members(all[i as int]));
                let definition = AliasDefinition {
                    name: name.clone(),
                    members,
                    file: file.to_string(),
                };
                let ghost view = definition@;
                definitions.push(definition);
                assert(definition_views(definitions@) == definition_views(before).push(view));
            },
            None => {},
        }
        i = i + 1;
    }
    assert(all.take(i as int) == all);
    definitions
}

/// One sheet as it parses; `None` if the file cannot be read or parsed.
pub struct SheetAliases {
    pub path: String,
    pub parsed: Option<SheetNode>,
}

/// [`SheetAliases`] as a mathematical value: the alias nodes of the sheet.
pub struct SheetAliasesView {
    pub path: Seq<char>,
    pub nodes: Option<Seq<NodeView>>,
}

impl View for SheetAliases {
    type V = SheetAliasesView;

    open spec fn view(&self) -> SheetAliasesView {
        SheetAliasesView {
            path: self.path@,
            nodes: match self.parsed {
                Some(root) => Some(tree::alias_nodes_of(root)),
                None => None,
            },
        }
    }
}

pub open spec fn sheet_aliases_views(sheets: Seq<SheetAliases>) -> Seq<SheetAliasesView> {
    sheets.map_values(|s: SheetAliases| s@)
}

/// The aliases that one sheet defines.
pub open spec fn sheet_definitions(sheet: SheetAliasesView) -> Seq<DefinitionView> {
    match sheet.nodes {
        Some(nodes) => defined_in(nodes, path::label_of(sheet.path)),
        None => Seq::empty(),
    }
}

/// The aliases that the sheets define, sheet by sheet.
pub open spec fn all_definitions(sheets: Seq<SheetAliasesView>) -> Seq<DefinitionView>
    decreases sheets.len(),
{
    if sheets.len() == 0 {
        Seq::empty()
    } else {
        all_definitions(sheets.drop_last()) + sheet_definitions(sheets.last())
    }
}

/// Every alias that the sheets of a design define, each with the file it stands
/// in.
pub fn collect_alias_definitions(sheets: &Vec<SheetAliases>) -> (definitions: Vec<AliasDefinition>)
    ensures
        definition_views(definitions@) == all_definitions(sheet_aliases_views(sheets@)),
{
    let ghost all = sheet_aliases_views(sheets@);
    let mut definitions: Vec<AliasDefinition> = Vec::new();
    let mut i: usize = 0;
    assert(definition_views(definitions@) == Seq::<DefinitionView>::empty());
    while i < sheets.len()
        invariant
            i <= sheets@.len(),
            all == sheet_aliases_views(sheets@),
            definition_views(definitions@) == all_definitions(all.take(i as int)),
        decreases sheets@.len() - i,
    {
        let ghost before = definitions@;
        assert(all.take(i + 1).drop_last() == all.take(i as int));
        assert(all[i as int] == sheets@[i as int]@);
        let file = path::file_label(sheets[i].path.as_str());
        let mut more = parse_bus_aliases(&sheets[i].parsed, file.as_str());
        let ghost added = more@;
        definitions.append(&mut more);
        assert(definition_views(definitions@) == definition_views(before) + definition_views(
            added,
        ));
        i = i + 1;
    }
    assert(all.take(i as int) == all);
    definitions
}

// ---------------------------------------------------------------------------
// References

/// What carries a reference to an alias.
#[derive(PartialEq, Eq, Structural, Clone, Copy, Debug)]
pub enum UseKind {
    Label,
    GlobalLabel,
    HierarchicalLabel,
    SheetPin,
}

/// The name of a kind in reports.
pub open spec fn kind_name(kind: UseKind) -> Seq<char> {
    match kind {
        UseKind::Label => "label"@,
        UseKind::GlobalLabel => "global_label"@,
        UseKind::HierarchicalLabel => "hierarchical_label"@,
        UseKind::SheetPin => "sheet_pin"@,
    }
}

impl UseKind {
    /// The name of this kind in reports.
    pub fn name(self) -> (name: &'static str)
        ensures
            name@ == kind_name(self),
    {
        match self {
            UseKind::Label => "label",
            UseKind::GlobalLabel => "global_label",
            UseKind::HierarchicalLabel => "hierarchical_label",
            UseKind::SheetPin => "sheet_pin",
        }
    }
}

/// One `PREFIX{ALIAS}` reference and where it was written.
#[derive(Debug)]
pub struct AliasUse {
    pub alias: String,
    pub label: String,
    pub file: String,
    pub kind: UseKind,
}

/// [`AliasUse`] as a mathematical value.
pub struct UseView {
    pub alias: Seq<char>,
    pub label: Seq<char>,
    pub file: Seq<char>,
    pub kind: UseKind,
}

impl View for AliasUse {
    type V = UseView;

    open spec fn view(&self) -> UseView {
        UseView {
            alias: self.alias@,
            label: self.label@,
            file: self.file@,
            kind: self.kind,
        }
    }
}

pub open spec fn use_views(uses: Seq<AliasUse>) -> Seq<UseView> {
    uses.map_values(|u: AliasUse| u@)
}

/// The texts of a sheet that can refer to an alias: those of its labels, by
/// kind, and the pin names of each child sheet that it places.
pub struct LabelTexts {
    pub labels: Vec<String>,
    pub global_labels: Vec<String>,
    pub hierarchical_labels: Vec<String>,
    pub sheet_pins: Vec<Vec<String>>,
}

/// The label texts of one sheet; `None` if the file does not load.
pub struct SheetLabels {
    pub path: String,
    pub texts: Option<LabelTexts>,
}

/// [`LabelTexts`] as a mathematical value.
pub struct LabelTextsView {
    pub labels: Seq<Seq<char>>,
    pub global_labels: Seq<Seq<char>>,
    pub hierarchical_labels: Seq<Seq<char>>,
    pub sheet_pins: Seq<Seq<Seq<char>>>,
}

/// [`SheetLabels`] as a mathematical value.
pub struct SheetLabelsView {
    pub path: Seq<char>,
    pub texts: Option<LabelTextsView>,
}

pub open spec fn pin_views(pins: Seq<Vec<String>>) -> Seq<Seq<Seq<char>>> {
    pins.map_values(|p: Vec<String>| text::views(p@))
}

impl View for LabelTexts {
    type V = LabelTextsView;

    open spec fn view(&self) -> LabelTextsView {
        LabelTextsView {
            labels: text::views(self.labels@),
            global_labels: text::views(self.global_labels@),
            hierarchical_labels: text::views(self.hierarchical_labels@),
            sheet_pins: pin_views(self.sheet_pins@),
        }
    }
}

impl View for SheetLabels {
    type V = SheetLabelsView;

    open spec fn view(&self) -> SheetLabelsView {
        SheetLabelsView {
            path: self.path@,
            texts: match self.texts {
                Some(texts) => Some(texts@),
                None => None,
            },
        }
    }
}

pub open spec fn sheet_labels_views(sheets: Seq<SheetLabels>) -> Seq<SheetLabelsView> {
    sheets.map_values(|s: SheetLabels| s@)
}

/// The references among `labels`, in their order.
pub open spec fn references_among(
    labels: Seq<Seq<char>>,
    file: Seq<char>,
    kind: UseKind,
) -> Seq<UseView>
    decreases labels.len(),
{
    if labels.len() == 0 {
        Seq::empty()
    } else {
        let front = references_among(labels.drop_last(), file, kind);
        match label::alias_of(labels.last()) {
            Some(alias) => front.push(UseView { alias, label: labels.last(), file, kind }),
            None => front,
        }
    }
}

/// The references among the pins of the child sheets, sheet by sheet.
pub open spec fn pin_references(pins: Seq<Seq<Seq<char>>>, file: Seq<char>) -> Seq<UseView>
    decreases pins.len(),
{
    if pins.len() == 0 {
        Seq::empty()
    } else {
        pin_references(pins.drop_last(), file) + references_among(
            pins.last(),
            file,
            UseKind::SheetPin,
        )
    }
}

/// The references in one sheet: labels, global labels, hierarchical labels and
/// sheet pins, in this order.
pub open spec fn sheet_references(sheet: SheetLabelsView) -> Seq<UseView> {
    match sheet.texts {
        Some(texts) => {
            let file = path::label_of(sheet.path);
            references_among(texts.labels, file, UseKind::Label) + references_among(
                texts.global_labels,
                file,
                UseKind::GlobalLabel,
            ) + references_among(texts.hierarchical_labels, file, UseKind::HierarchicalLabel)
                + pin_references(texts.sheet_pins, file)
        },
        None => Seq::empty(),
    }
}

/// The references in the sheets, sheet by sheet.
pub open spec fn all_references(sheets: Seq<SheetLabelsView>) -> Seq<UseView>
    decreases sheets.len(),
{
    if sheets.len() == 0 {
        Seq::empty()
    } else {
        all_references(sheets.drop_last()) + sheet_references(sheets.last())
    }
}

fn push_references(labels: &Vec<String>, file: &str, kind: UseKind, uses: &mut Vec<AliasUse>)
    ensures
        use_views(final(uses)@) == use_views(old(uses)@) + references_among(
            text::views(labels@),
            file@,
            kind,
        ),
{
    let ghost all = text::views(labels@);
    let ghost start = use_views(uses@);
    let mut i: usize = 0;
    assert(start == start + Seq::<UseView>::empty());
    while i < labels.len()
        invariant
            i <= labels@.len(),
            all == text::views(labels@),
            use_views(uses@) == start + references_among(all.take(i as int), file@, kind),
        decreases labels@.len() - i,
    {
        let ghost before = uses@;
        assert(all.take(i + 1).drop_last() == all.take(i as int));
        assert(all[i as int] == labels@[i as int]@);
        match label::alias_reference(labels[i].as_str()) {
            Some(alias) => {
                let site = AliasUse {
                    alias: alias.to_string(),
                    label: labels[i].clone(),
                    file: file.to_string(),
                    kind,
                };
                let ghost view = site@;
                uses.push(site);
                assert(use_views(uses@) == use_views(before).push(view));
            },
            None => {},
        }
        i = i + 1;
    }
    assert(all.take(i as int) == all);
}

/// Every reference to an alias in the sheets of a design.
pub fn collect_alias_uses(sheets: &Vec<SheetLabels>) -> (uses: Vec<AliasUse>)
    ensures
        use_views(uses@) == all_references(sheet_labels_views(sheets@)),
{
    let ghost all = sheet_labels_views(sheets@);
    let mut uses: Vec<AliasUse> = Vec::new();
    let mut i: usize = 0;
    assert(use_views(uses@) == Seq::<UseView>::empty());
    while i < sheets.len()
        invariant
            i <= sheets@.len(),
            all == sheet_labels_views(sheets@),
            use_views(uses@) == all_references(all.take(i as int)),
        decreases sheets@.len() - i,
    {
        let ghost start = use_views(uses@);
        assert(all.take(i + 1).drop_last() == all.take(i as int));
        assert(all[i as int] == sheets@[i as int]@);
        match &sheets[i].texts {
            Some(texts) => {
                let file = path::file_label(sheets[i].path.as_str());
                push_references(&texts.labels, file.as_str(), UseKind::Label, &mut uses);
                push_references(&texts.global_labels, file.as_str(), UseKind::GlobalLabel, &mut uses);
                push_references(
                    &texts.hierarchical_labels,
                    file.as_str(),
                    UseKind::HierarchicalLabel,
                    &mut uses,
                );
                let ghost labelled = use_views(uses@);
                let ghost pins = pin_views(texts.sheet_pins@);
                let mut k: usize = 0;
                assert(labelled == labelled + Seq::<UseView>::empty());
                while k < texts.sheet_pins.len()
                    invariant
                        k <= texts.sheet_pins@.len(),
                        pins == pin_views(texts.sheet_pins@),
                        use_views(uses@) == labelled + pin_references(pins.take(k as int), file@),
                    decreases texts.sheet_pins@.len() - k,
                {
                    assert(pins.take(k + 1).drop_last() == pins.take(k as int));
                    push_references(
                        &texts.sheet_pins[k],
                        file.as_str(),
                        UseKind::SheetPin,
                        &mut uses,
                    );
                    k = k + 1;
                }
                assert(pins.take(k as int) == pins);
                assert(use_views(uses@) == start + sheet_references(all[i as int]));
            },
            None => {},
        }
        i = i + 1;
    }
    assert(all.take(i as int) == all);
    uses
}

} // verus!
