//! Laws of the views: each shows all that a value holds, and as it holds it.
//! What the contracts say of a view they so say of the value.

use crate::add_alias;
use crate::alias;
use crate::draw;
use crate::hierarchy;
use crate::report;
use crate::symbols;
use crate::text;
use crate::tool;
use vstd::prelude::*;
use vstd::utf8::*;

verus! {

/// A list of strings is shown string by string, and so is one with gaps.
pub proof fn law_strings_are_shown(
    strings: Seq<String>,
    items: Seq<Option<String>>,
    pins: Seq<Vec<String>>,
    i: int,
)
    ensures
        text::views(strings).len() == strings.len(),
        0 <= i < strings.len() ==> text::views(strings)[i] == strings[i]@,
        alias::optionals(items).len() == items.len(),
        0 <= i < items.len() && items[i] is None ==> alias::optionals(items)[i] is None,
        0 <= i < items.len() && items[i] is Some ==> alias::optionals(items)[i] == Some(
            items[i]->0@,
        ),
        alias::pin_views(pins).len() == pins.len(),
        0 <= i < pins.len() ==> alias::pin_views(pins)[i] == text::views(pins[i]@),
        text::optional(None) is None,
        0 <= i < strings.len() ==> text::optional(Some(strings[i])) == Some(strings[i]@),
{
}

/// A definition is shown with its name, its members and its file.
pub proof fn law_definitions_are_shown(definitions: Seq<alias::AliasDefinition>, i: int)
    requires
        0 <= i < definitions.len(),
    ensures
        alias::definition_views(definitions).len() == definitions.len(),
        alias::definition_views(definitions)[i].name == definitions[i].name@,
        alias::definition_views(definitions)[i].members == text::views(definitions[i].members@),
        alias::definition_views(definitions)[i].file == definitions[i].file@,
{
}

/// An alias node is shown with its name and its members, as far as it has them,
/// and a parsed sheet with its path and all its alias nodes.
pub proof fn law_alias_nodes_are_shown(
    nodes: Seq<alias::AliasNode>,
    sheets: Seq<alias::SheetAliases>,
    i: int,
)
    ensures
        alias::node_views(nodes).len() == nodes.len(),
        0 <= i < nodes.len() ==> {
            let view = alias::node_views(nodes)[i];
            &&& view.name == text::optional(nodes[i].name)
            &&& nodes[i].members is None <==> view.members is None
            &&& nodes[i].members matches Some(items) ==> view.members == Some(
                alias::optionals(items@),
            )
        },
        alias::sheet_aliases_views(sheets).len() == sheets.len(),
        0 <= i < sheets.len() ==> {
            let view = alias::sheet_aliases_views(sheets)[i];
            &&& view.path == sheets[i].path@
            &&& sheets[i].parsed is None <==> view.nodes is None
            &&& sheets[i].parsed matches Some(root) ==> view.nodes == Some(
                crate::tree::alias_nodes_of(root),
            )
        },
{
}

/// A reference is shown with its alias, its label, its file and its kind, and the
/// labels of a sheet by kind, with its path.
pub proof fn law_references_are_shown(
    uses: Seq<alias::AliasUse>,
    sheets: Seq<alias::SheetLabels>,
    i: int,
)
    ensures
        alias::use_views(uses).len() == uses.len(),
        0 <= i < uses.len() ==> alias::use_views(uses)[i] == (alias::UseView {
            alias: uses[i].alias@,
            label: uses[i].label@,
            file: uses[i].file@,
            kind: uses[i].kind,
        }),
        alias::sheet_labels_views(sheets).len() == sheets.len(),
        0 <= i < sheets.len() ==> {
            let view = alias::sheet_labels_views(sheets)[i];
            &&& view.path == sheets[i].path@
            &&& sheets[i].texts is None <==> view.texts is None
            &&& sheets[i].texts matches Some(texts) ==> view.texts == Some(
                alias::LabelTextsView {
                    labels: text::views(texts.labels@),
                    global_labels: text::views(texts.global_labels@),
                    hierarchical_labels: text::views(texts.hierarchical_labels@),
                    sheet_pins: alias::pin_views(texts.sheet_pins@),
                },
            )
        },
{
}

/// A refusal is shown by its kind and what it is about, and a write with the bytes
/// of the sheet, its action, the members that were there and the reference form.
pub proof fn law_answers_to_requests_are_shown(
    refusal: add_alias::AliasRefusal,
    write: add_alias::AliasWrite,
)
    ensures
        refusal is MissingName <==> refusal@ is MissingName,
        refusal is MissingMembers <==> refusal@ is MissingMembers,
        refusal is NoMembers <==> refusal@ is NoMembers,
        refusal is NoPlace <==> refusal@ is NoPlace,
        refusal matches add_alias::AliasRefusal::SpacedName(name) ==> refusal@
            == add_alias::RefusalView::SpacedName(name@),
        refusal matches add_alias::AliasRefusal::BadMember(member) ==> refusal@
            == add_alias::RefusalView::BadMember(member@),
        write@.content == encode_utf8(write.content@),
        write@.action == write.action,
        write.previous is None <==> write@.previous is None,
        write.previous matches Some(previous) ==> write@.previous == Some(
            text::views(previous@),
        ),
        write@.reference_form == write.reference_form@,
{
}

/// Segments are shown with their ends, their node and whether their ends are
/// apart; a batch with what is drawn and what is refused.
pub proof fn law_segments_are_shown<P>(
    readings: Seq<Option<draw::SegmentReading<P>>>,
    batch: draw::SegmentBatch<P>,
    i: int,
)
    ensures
        draw::segment_views(readings).len() == readings.len(),
        0 <= i < readings.len() ==> match readings[i] {
            Some(r) => draw::segment_views(readings)[i] == Some(
                draw::SegmentView {
                    from: r.from,
                    to: r.to,
                    x_apart: r.x_apart,
                    y_apart: r.y_apart,
                    node: r.node@,
                },
            ),
            None => draw::segment_views(readings)[i] is None,
        },
        batch@.inserts == batch.inserts@,
        batch@.added == batch.added@,
        batch@.errors == text::views(batch.errors@),
{
}

/// Connections are shown with what they name and their site; what is drawn with
/// its items, what is connected and what is refused.
pub proof fn law_connections_are_shown<P>(
    readings: Seq<draw::ConnectionReading<P>>,
    items: Seq<draw::ConnectionItem<P>>,
    drawn: draw::FanOut<P>,
    i: int,
)
    ensures
        draw::connection_views(readings).len() == readings.len(),
        0 <= i < readings.len() ==> draw::connection_views(readings)[i] == (
        draw::ConnectionView {
            reference: text::optional(readings[i].reference),
            pin_number: text::optional(readings[i].pin_number),
            net: text::optional(readings[i].net),
            site: readings[i].site,
        }),
        draw::item_views(items).len() == items.len(),
        0 <= i < items.len() ==> draw::item_views(items)[i] == match items[i] {
            draw::ConnectionItem::Wire { from, to } => draw::ItemView::Wire { from, to },
            draw::ConnectionItem::Entry { at, direction } => draw::ItemView::Entry {
                at,
                direction,
            },
            draw::ConnectionItem::Label { net, at, rotation } => draw::ItemView::Label {
                net: net@,
                at,
                rotation,
            },
        },
        drawn@.items == draw::item_views(drawn.items@),
        drawn@.errors == text::views(drawn.errors@),
        drawn@.connected.len() == drawn.connected@.len(),
        0 <= i < drawn.connected@.len() ==> drawn@.connected[i] == (draw::ConnectedView {
            reference: drawn.connected@[i].reference@,
            pin: drawn.connected@[i].pin@,
            net: drawn.connected@[i].net@,
            pin_at: drawn.connected@[i].pin_at,
            entry_at: drawn.connected@[i].entry_at,
        }),
{
}

/// What was read of the sheets is shown note by note, and what has to be read next
/// with its path.
pub proof fn law_readings_are_shown(
    readings: hierarchy::SheetReadings,
    children: Seq<hierarchy::ChildSheet>,
    need: hierarchy::Need,
    i: int,
)
    ensures
        readings@.canonical.len() == readings.canonical@.len(),
        0 <= i < readings.canonical@.len() ==> readings@.canonical[i] == (
            readings.canonical@[i].path@,
            readings.canonical@[i].name@,
        ),
        readings@.children.len() == readings.children@.len(),
        0 <= i < readings.children@.len() ==> readings@.children[i] == (
            readings.children@[i].name@,
            hierarchy::child_views(readings.children@[i].children@),
        ),
        hierarchy::child_views(children).len() == children.len(),
        0 <= i < children.len() ==> hierarchy::child_views(children)[i].path
            == children[i].path@ && hierarchy::child_views(children)[i].exists
            == children[i].exists,
        need matches hierarchy::Need::Canonical(path) ==> need@
            == hierarchy::NeedView::Canonical(path@),
        need matches hierarchy::Need::Children { path, name } ==> need@
            == (hierarchy::NeedView::Children { path: path@, name: name@ }),
{
}

/// A list of aliases is shown entry by entry, each with its name, its members, its
/// files and whether its definitions agree.
pub proof fn law_listings_are_shown(listings: Seq<report::AliasListing>, i: int)
    requires
        0 <= i < listings.len(),
    ensures
        report::listing_views(listings).len() == listings.len(),
        report::listing_views(listings)[i] == (report::ListingView {
            name: listings[i].name@,
            members: text::views(listings[i].members@),
            defined_in: text::views(listings[i].defined_in@),
            consistent: listings[i].consistent,
        }),
{
}

/// A report is shown with its counts, its issues, each with its alias and all its
/// sites, and the unused aliases, each with its files.
pub proof fn law_reports_are_shown(
    checked: report::AliasReport,
    definitions: Seq<report::DefinitionSite>,
    uses: Seq<report::UseSite>,
    i: int,
)
    ensures
        checked@.aliases_defined == checked.aliases_defined,
        checked@.alias_references == checked.alias_references,
        checked@.issues.len() == checked.issues@.len(),
        0 <= i < checked.issues@.len() ==> checked@.issues[i] == match checked.issues@[i] {
            report::AliasIssue::ConflictingDefinition { alias, definitions } =>
                report::IssueView::ConflictingDefinition {
                alias: alias@,
                definitions: report::definition_site_views(definitions@),
            },
            report::AliasIssue::UnresolvedAlias { alias, used_at } =>
                report::IssueView::UnresolvedAlias {
                alias: alias@,
                used_at: report::use_site_views(used_at@),
            },
        },
        checked@.unused.len() == checked.unused@.len(),
        0 <= i < checked.unused@.len() ==> checked@.unused[i] == (report::UnusedView {
            alias: checked.unused@[i].alias@,
            defined_in: text::views(checked.unused@[i].defined_in@),
        }),
        report::definition_site_views(definitions).len() == definitions.len(),
        0 <= i < definitions.len() ==> report::definition_site_views(definitions)[i] == (
            definitions[i].file@,
            text::views(definitions[i].members@),
        ),
        report::use_site_views(uses).len() == uses.len(),
        0 <= i < uses.len() ==> report::use_site_views(uses)[i] == (
            uses[i].label@,
            uses[i].file@,
            uses[i].item,
        ),
{
}

/// A placed symbol is shown with its reference, its library symbol and its unit,
/// and a library symbol with its name and the pins of all its units.
pub proof fn law_symbols_are_shown(
    placed: symbols::PlacedSymbol,
    library: Seq<symbols::LibrarySymbol>,
    i: int,
    k: int,
)
    ensures
        placed@.reference == placed.reference@,
        placed@.lib_id == placed.lib_id@,
        placed@.unit == placed.unit,
        symbols::library_views(library).len() == library.len(),
        0 <= i < library.len() ==> {
            let view = symbols::library_views(library)[i];
            &&& view.id == text::optional(library[i].id)
            &&& view.units.len() == library[i].units@.len()
            &&& 0 <= k < library[i].units@.len() ==> view.units[k] == (
                library[i].units@[k].unit as int,
                text::views(library[i].units@[k].numbers@),
            )
        },
{
}

/// A tool is shown with its name, its description and its parameters, each with
/// its name, its description, its kind and whether it has to be given.
pub proof fn law_tools_are_shown(tools: Seq<tool::ToolDef>, i: int, k: int)
    requires
        0 <= i < tools.len(),
    ensures
        tool::tool_views(tools).len() == tools.len(),
        tool::tool_views(tools)[i].name == tools[i].name@,
        tool::tool_views(tools)[i].description == tools[i].description@,
        tool::tool_views(tools)[i].parameters.len() == tools[i].parameters@.len(),
        0 <= k < tools[i].parameters@.len() ==> {
            let parameter = tools[i].parameters@[k];
            tool::tool_views(tools)[i].parameters[k] == (tool::ParameterView {
                name: parameter.name@,
                description: text::optional(parameter.description),
                kind: match parameter.kind {
                    tool::ParameterKind::Text => tool::KindView::Text,
                    tool::ParameterKind::Number => tool::KindView::Number,
                    tool::ParameterKind::Flag(default) => tool::KindView::Flag(default),
                    tool::ParameterKind::Choice(names) => tool::KindView::Choice(
                        text::views(names@),
                    ),
                    tool::ParameterKind::TextList => tool::KindView::TextList,
                    tool::ParameterKind::NumberRecords(fields) => tool::KindView::NumberRecords(
                        text::views(fields@),
                    ),
                    tool::ParameterKind::TextRecords(fields) => tool::KindView::TextRecords(
                        text::views(fields@),
                    ),
                },
                required: parameter.required,
            })
        },
{
}

} // verus!
