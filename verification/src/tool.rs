//! The tools that a schematic editor offers for buses, as the table that callers
//! are shown: names, descriptions and parameters.

use crate::text;
use vstd::prelude::*;
use vstd::string::*;

verus! {

/// What a parameter holds.
#[derive(Debug)]
pub enum ParameterKind {
    Text,
    Number,
    /// Yes or no, and which of the two it is if it is not given.
    Flag(bool),
    /// One of these texts; the first, if it is not given.
    Choice(Vec<String>),
    /// A list of at least one text.
    TextList,
    /// A list of records, each with a number in all these fields.
    NumberRecords(Vec<String>),
    /// A list of records, each with a text in all these fields.
    TextRecords(Vec<String>),
}

/// A parameter of a tool.
#[derive(Debug)]
pub struct Parameter {
    pub name: String,
    pub description: Option<String>,
    pub kind: ParameterKind,
    pub required: bool,
}

/// A tool.
#[derive(Debug)]
pub struct ToolDef {
    pub name: &'static str,
    pub description: &'static str,
    pub parameters: Vec<Parameter>,
}

/// [`ParameterKind`] as a mathematical value.
pub enum KindView {
    Text,
    Number,
    Flag(bool),
    Choice(Seq<Seq<char>>),
    TextList,
    NumberRecords(Seq<Seq<char>>),
    TextRecords(Seq<Seq<char>>),
}

/// [`Parameter`] as a mathematical value.
pub struct ParameterView {
    pub name: Seq<char>,
    pub description: Option<Seq<char>>,
    pub kind: KindView,
    pub required: bool,
}

/// [`ToolDef`] as a mathematical value.
pub struct ToolView {
    pub name: Seq<char>,
    pub description: Seq<char>,
    pub parameters: Seq<ParameterView>,
}

impl View for ParameterKind {
    type V = KindView;

    open spec fn view(&self) -> KindView {
        match self {
            ParameterKind::Text => KindView::Text,
            ParameterKind::Number => KindView::Number,
            ParameterKind::Flag(default) => KindView::Flag(*default),
            ParameterKind::Choice(names) => KindView::Choice(text::views(names@)),
            ParameterKind::TextList => KindView::TextList,
            ParameterKind::NumberRecords(fields) => KindView::NumberRecords(text::views(fields@)),
            ParameterKind::TextRecords(fields) => KindView::TextRecords(text::views(fields@)),
        }
    }
}

impl View for Parameter {
    type V = ParameterView;

    open spec fn view(&self) -> ParameterView {
        ParameterView {
            name: self.name@,
            description: text::optional(self.description),
            kind: self.kind@,
            required: self.required,
        }
    }
}

impl View for ToolDef {
    type V = ToolView;

    open spec fn view(&self) -> ToolView {
        ToolView {
            name: self.name@,
            description: self.description@,
            parameters: parameter_views(self.parameters@),
        }
    }
}

pub open spec fn parameter_views(parameters: Seq<Parameter>) -> Seq<ParameterView> {
    parameters.map_values(|p: Parameter| p@)
}

pub open spec fn tool_views(tools: Seq<ToolDef>) -> Seq<ToolView> {
    tools.map_values(|t: ToolDef| t@)
}

/// A described parameter.
pub open spec fn described(
    name: Seq<char>,
    description: Seq<char>,
    kind: KindView,
    required: bool,
) -> ParameterView {
    ParameterView { name, description: Some(description), kind, required }
}

/// A number that needs no description.
pub open spec fn coordinate(name: Seq<char>) -> ParameterView {
    ParameterView { name, description: None, kind: KindView::Number, required: true }
}

/// The sheet that a tool works on.
pub open spec fn sheet_parameter() -> ParameterView {
    described("schematic"@, "Path to .kicad_sch file"@, KindView::Text, true)
}

/// Draws a bus segment.
pub open spec fn add_bus_tool() -> ToolView {
    ToolView {
        name: "add_bus"@,
        description: "Add a bus segment between two points. Geometrically a wire, but KiCad treats it as a bus: it carries the members named by the bus label attached to it (vector 'NAME[1..6]' or group '{A B C}'), and ordinary wires join it only through a bus entry."@,
        parameters: seq![
            sheet_parameter(),
            coordinate("x1"@),
            coordinate("y1"@),
            coordinate("x2"@),
            coordinate("y2"@),
        ],
    }
}

/// Draws several bus segments.
pub open spec fn batch_add_bus_tool() -> ToolView {
    ToolView {
        name: "batch_add_bus"@,
        description: "Add multiple bus segments in a single file read/write cycle."@,
        parameters: seq![
            sheet_parameter(),
            described(
                "buses"@,
                "List of {x1,y1,x2,y2} segments"@,
                KindView::NumberRecords(seq!["x1"@, "y1"@, "x2"@, "y2"@]),
                true,
            ),
        ],
    }
}

/// Draws a bus entry.
pub open spec fn add_bus_entry_tool() -> ToolView {
    ToolView {
        name: "add_bus_entry"@,
        description: "Add a bus entry — the 45-degree tick that connects a wire to a bus. Required: a wire and a bus that merely touch are NOT connected without one. 'x'/'y' are the end on the wire side; 'direction' says which way the tick runs to reach the bus."@,
        parameters: seq![
            sheet_parameter(),
            described(
                "x"@,
                "X of the wire-side end"@,
                KindView::Number,
                true,
            ),
            described(
                "y"@,
                "Y of the wire-side end"@,
                KindView::Number,
                true,
            ),
            described(
                "direction"@,
                "Which way the tick runs from 'at' to the bus"@,
                KindView::Choice(seq!["down_right"@, "down_left"@, "up_right"@, "up_left"@]),
                false,
            ),
        ],
    }
}

/// Fans pins out onto a bus.
pub open spec fn connect_pins_to_bus_tool() -> ToolView {
    ToolView {
        name: "connect_pins_to_bus"@,
        description: "Fan a set of pins out onto a bus: for each pin, a wire stub from the pin to the bus entry, the bus entry itself, and a net label naming the member. This is the whole connection — a stub without a label joins nothing, since bus membership is by name. Give the bus's fixed coordinate ('bus_y' for a horizontal bus, 'bus_x' for a vertical one); the bus segment itself is drawn separately with add_bus."@,
        parameters: seq![
            sheet_parameter(),
            described(
                "bus_y"@,
                "Y of a horizontal bus (omit if vertical)"@,
                KindView::Number,
                false,
            ),
            described(
                "bus_x"@,
                "X of a vertical bus (omit if horizontal)"@,
                KindView::Number,
                false,
            ),
            described(
                "connections"@,
                "List of {reference, pin_number, net} — net is the bus member name"@,
                KindView::TextRecords(seq!["reference"@, "pin_number"@, "net"@]),
                true,
            ),
        ],
    }
}

/// Defines a bus alias.
pub open spec fn add_bus_alias_tool() -> ToolView {
    ToolView {
        name: "add_bus_alias"@,
        description: "Define a bus alias on a sheet: (bus_alias \"NAME\" (members ...)). An alias lets a label or sheet pin name a whole bundle as 'PREFIX{NAME}', which KiCad expands into one 'PREFIX.MEMBER' net per member. Written where eeschema writes it, after lib_symbols. Idempotent: redefining a name replaces that block's member list rather than leaving two definitions of the same alias in one file."@,
        parameters: seq![
            sheet_parameter(),
            described(
                "name"@,
                "Alias name, as used inside the braces of 'PREFIX{NAME}'"@,
                KindView::Text,
                true,
            ),
            described(
                "members"@,
                "Member signal names, in order. Each becomes 'PREFIX.MEMBER'."@,
                KindView::TextList,
                true,
            ),
        ],
    }
}

/// Lists bus aliases.
pub open spec fn list_bus_aliases_tool() -> ToolView {
    ToolView {
        name: "list_bus_aliases"@,
        description: "List the bus aliases defined in a sheet and, by default, every sheet below it. Reports which file defines each alias, because eeschema's Bus Aliases dialog only ever shows the sheet currently open."@,
        parameters: seq![
            sheet_parameter(),
            described(
                "recursive"@,
                "Walk child sheets too (default true)"@,
                KindView::Flag(true),
                false,
            ),
        ],
    }
}

/// Checks bus aliases.
pub open spec fn validate_bus_aliases_tool() -> ToolView {
    ToolView {
        name: "validate_bus_aliases"@,
        description: "Check every 'PREFIX{ALIAS}' label, global label, hierarchical label and sheet pin in the hierarchy against the aliases actually defined in it. Reports an alias referenced but defined nowhere -- which KiCad does NOT flag, it silently nets up a one-member group named after the alias -- and the same alias defined in two files with different members. Aliases defined but never used are listed separately, as information rather than a fault. Read-only."@,
        parameters: seq![
            described(
                "schematic"@,
                "Path to the ROOT .kicad_sch file"@,
                KindView::Text,
                true,
            ),
        ],
    }
}

/// The tools, in the order in which they are offered.
pub open spec fn tool_table() -> Seq<ToolView> {
    seq![
        add_bus_tool(),
        batch_add_bus_tool(),
        add_bus_entry_tool(),
        connect_pins_to_bus_tool(),
        add_bus_alias_tool(),
        list_bus_aliases_tool(),
        validate_bus_aliases_tool(),
    ]
}

fn described_parameter(
    name: &str,
    description: &str,
    kind: ParameterKind,
    required: bool,
) -> (parameter: Parameter)
    ensures
        parameter@ == described(name@, description@, kind@, required),
{
    Parameter {
        name: name.to_string(),
        description: Some(description.to_string()),
        kind,
        required,
    }
}

fn coordinate_parameter(name: &str) -> (parameter: Parameter)
    ensures
        parameter@ == coordinate(name@),
{
    Parameter { name: name.to_string(), description: None, kind: ParameterKind::Number, required: true }
}

fn sheet() -> (parameter: Parameter)
    ensures
        parameter@ == sheet_parameter(),
{
    described_parameter("schematic", "Path to .kicad_sch file", ParameterKind::Text, true)
}

fn add_bus() -> (tool: ToolDef)
    ensures
        tool@ == add_bus_tool(),
{
    let parameters: Vec<Parameter> = vec![
        sheet(),
        coordinate_parameter("x1"),
        coordinate_parameter("y1"),
        coordinate_parameter("x2"),
        coordinate_parameter("y2"),
    ];
    assert(parameter_views(parameters@) == add_bus_tool().parameters);
    ToolDef {
        name: "add_bus",
        description: "Add a bus segment between two points. Geometrically a wire, but KiCad treats it as a bus: it carries the members named by the bus label attached to it (vector 'NAME[1..6]' or group '{A B C}'), and ordinary wires join it only through a bus entry.",
        parameters,
    }
}

fn batch_add_bus() -> (tool: ToolDef)
    ensures
        tool@ == batch_add_bus_tool(),
{
    let fields: Vec<String> = vec![
        "x1".to_string(),
        "y1".to_string(),
        "x2".to_string(),
        "y2".to_string(),
    ];
    assert(text::views(fields@) == seq!["x1"@, "y1"@, "x2"@, "y2"@]);
    let parameters: Vec<Parameter> = vec![
        sheet(),
        described_parameter(
            "buses",
            "List of {x1,y1,x2,y2} segments",
            ParameterKind::NumberRecords(fields),
            true,
        ),
    ];
    assert(parameter_views(parameters@) == batch_add_bus_tool().parameters);
    ToolDef {
        name: "batch_add_bus",
        description: "Add multiple bus segments in a single file read/write cycle.",
        parameters,
    }
}

fn add_bus_entry() -> (tool: ToolDef)
    ensures
        tool@ == add_bus_entry_tool(),
{
    let choices: Vec<String> = vec![
        "down_right".to_string(),
        "down_left".to_string(),
        "up_right".to_string(),
        "up_left".to_string(),
    ];
    assert(text::views(choices@) == seq!["down_right"@, "down_left"@, "up_right"@, "up_left"@]);
    let parameters: Vec<Parameter> = vec![
        sheet(),
        described_parameter(
            "x",
            "X of the wire-side end",
            ParameterKind::Number,
            true,
        ),
        described_parameter(
            "y",
            "Y of the wire-side end",
            ParameterKind::Number,
            true,
        ),
        described_parameter(
            "direction",
            "Which way the tick runs from 'at' to the bus",
            ParameterKind::Choice(choices),
            false,
        ),
    ];
    assert(parameter_views(parameters@) == add_bus_entry_tool().parameters);
    ToolDef {
        name: "add_bus_entry",
        description: "Add a bus entry — the 45-degree tick that connects a wire to a bus. Required: a wire and a bus that merely touch are NOT connected without one. 'x'/'y' are the end on the wire side; 'direction' says which way the tick runs to reach the bus.",
        parameters,
    }
}

fn connect_pins_to_bus() -> (tool: ToolDef)
    ensures
        tool@ == connect_pins_to_bus_tool(),
{
    let fields: Vec<String> = vec![
        "reference".to_string(),
        "pin_number".to_string(),
        "net".to_string(),
    ];
    assert(text::views(fields@) == seq!["reference"@, "pin_number"@, "net"@]);
    let parameters: Vec<Parameter> = vec![
        sheet(),
        described_parameter(
            "bus_y",
            "Y of a horizontal bus (omit if vertical)",
            ParameterKind::Number,
            false,
        ),
        described_parameter(
            "bus_x",
            "X of a vertical bus (omit if horizontal)",
            ParameterKind::Number,
            false,
        ),
        described_parameter(
            "connections",
            "List of {reference, pin_number, net} — net is the bus member name",
            ParameterKind::TextRecords(fields),
            true,
        ),
    ];
    assert(parameter_views(parameters@) == connect_pins_to_bus_tool().parameters);
    ToolDef {
        name: "connect_pins_to_bus",
        description: "Fan a set of pins out onto a bus: for each pin, a wire stub from the pin to the bus entry, the bus entry itself, and a net label naming the member. This is the whole connection — a stub without a label joins nothing, since bus membership is by name. Give the bus's fixed coordinate ('bus_y' for a horizontal bus, 'bus_x' for a vertical one); the bus segment itself is drawn separately with add_bus.",
        parameters,
    }
}

fn add_bus_alias() -> (tool: ToolDef)
    ensures
        tool@ == add_bus_alias_tool(),
{
    let parameters: Vec<Parameter> = vec![
        sheet(),
        described_parameter(
            "name",
            "Alias name, as used inside the braces of 'PREFIX{NAME}'",
            ParameterKind::Text,
            true,
        ),
        described_parameter(
            "members",
            "Member signal names, in order. Each becomes 'PREFIX.MEMBER'.",
            ParameterKind::TextList,
            true,
        ),
    ];
    assert(parameter_views(parameters@) == add_bus_alias_tool().parameters);
    ToolDef {
        name: "add_bus_alias",
        description: "Define a bus alias on a sheet: (bus_alias \"NAME\" (members ...)). An alias lets a label or sheet pin name a whole bundle as 'PREFIX{NAME}', which KiCad expands into one 'PREFIX.MEMBER' net per member. Written where eeschema writes it, after lib_symbols. Idempotent: redefining a name replaces that block's member list rather than leaving two definitions of the same alias in one file.",
        parameters,
    }
}

fn list_bus_aliases() -> (tool: ToolDef)
    ensures
        tool@ == list_bus_aliases_tool(),
{
    let parameters: Vec<Parameter> = vec![
        sheet(),
        described_parameter(
            "recursive",
            "Walk child sheets too (default true)",
            ParameterKind::Flag(true),
            false,
        ),
    ];
    assert(parameter_views(parameters@) == list_bus_aliases_tool().parameters);
    ToolDef {
        name: "list_bus_aliases",
        description: "List the bus aliases defined in a sheet and, by default, every sheet below it. Reports which file defines each alias, because eeschema's Bus Aliases dialog only ever shows the sheet currently open.",
        parameters,
    }
}

fn validate_bus_aliases() -> (tool: ToolDef)
    ensures
        tool@ == validate_bus_aliases_tool(),
{
    let parameters: Vec<Parameter> = vec![
        described_parameter(
            "schematic",
            "Path to the ROOT .kicad_sch file",
            ParameterKind::Text,
            true,
        ),
    ];
    assert(parameter_views(parameters@) == validate_bus_aliases_tool().parameters);
    ToolDef {
        name: "validate_bus_aliases",
        description: "Check every 'PREFIX{ALIAS}' label, global label, hierarchical label and sheet pin in the hierarchy against the aliases actually defined in it. Reports an alias referenced but defined nowhere -- which KiCad does NOT flag, it silently nets up a one-member group named after the alias -- and the same alias defined in two files with different members. Aliases defined but never used are listed separately, as information rather than a fault. Read-only.",
        parameters,
    }
}

/// The tools, in the order in which they are offered.
pub fn tools() -> (tools: Vec<ToolDef>)
    ensures
        tool_views(tools@) == tool_table(),
{
    let tools: Vec<ToolDef> = vec![
        add_bus(),
        batch_add_bus(),
        add_bus_entry(),
        connect_pins_to_bus(),
        add_bus_alias(),
        list_bus_aliases(),
        validate_bus_aliases(),
    ];
    assert(tool_views(tools@) == tool_table());
    tools
}

/// Every tool works on a sheet, which is named first and never left out.
pub proof fn law_every_tool_names_its_sheet(i: int)
    requires
        0 <= i < tool_table().len(),
    ensures
        tool_table()[i].parameters.len() > 0,
        tool_table()[i].parameters[0].name == "schematic"@,
        tool_table()[i].parameters[0].kind == KindView::Text,
        tool_table()[i].parameters[0].required,
{
}

/// Tools have different names, so a name says which one is meant.
pub proof fn law_tool_names_differ(i: int, j: int)
    requires
        0 <= i < j < tool_table().len(),
    ensures
        tool_table()[i].name != tool_table()[j].name,
{
    reveal_strlit("add_bus");
    reveal_strlit("batch_add_bus");
    reveal_strlit("add_bus_entry");
    reveal_strlit("connect_pins_to_bus");
    reveal_strlit("add_bus_alias");
    reveal_strlit("list_bus_aliases");
    reveal_strlit("validate_bus_aliases");
    let (a, b) = (tool_table()[i].name, tool_table()[j].name);
    if a == b {
        assert(a.len() == b.len());
        assert(a[0] == b[0]);
        assert(a.len() > 8 ==> a[8] == b[8]);
    }
}

/// A tool by its name and its parameters, each with its name, its kind and
/// whether it has to be given.
pub open spec fn takes(
    tool: ToolView,
    name: Seq<char>,
    parameters: Seq<(Seq<char>, KindView, bool)>,
) -> bool {
    &&& tool.name == name
    &&& tool.parameters.len() == parameters.len()
    &&& forall|i: int|
        0 <= i < parameters.len() ==> {
            &&& (#[trigger] tool.parameters[i]).name == parameters[i].0
            &&& tool.parameters[i].kind == parameters[i].1
            &&& tool.parameters[i].required == parameters[i].2
        }
}

/// What the tools take. Only the direction of an entry, the two coordinates of a
/// bus, of which a request gives one, and the wish to go down the sheets can be
/// left out.
pub proof fn law_tools_take_these_parameters()
    ensures
        ({
            let sheet = ("schematic"@, KindView::Text, true);
            let number = |name: Seq<char>, required: bool| (name, KindView::Number, required);
            let tools = tool_table();
            &&& tools.len() == 7
            &&& takes(
                tools[0],
                "add_bus"@,
                seq![
                    sheet,
                    number("x1"@, true),
                    number("y1"@, true),
                    number("x2"@, true),
                    number("y2"@, true),
                ],
            )
            &&& takes(
                tools[1],
                "batch_add_bus"@,
                seq![
                    sheet,
                    ("buses"@, KindView::NumberRecords(seq!["x1"@, "y1"@, "x2"@, "y2"@]), true),
                ],
            )
            &&& takes(
                tools[2],
                "add_bus_entry"@,
                seq![
                    sheet,
                    number("x"@, true),
                    number("y"@, true),
                    (
                        "direction"@,
                        KindView::Choice(
                            seq!["down_right"@, "down_left"@, "up_right"@, "up_left"@],
                        ),
                        false,
                    ),
                ],
            )
            &&& takes(
                tools[3],
                "connect_pins_to_bus"@,
                seq![
                    sheet,
                    number("bus_y"@, false),
                    number("bus_x"@, false),
                    (
                        "connections"@,
                        KindView::TextRecords(seq!["reference"@, "pin_number"@, "net"@]),
                        true,
                    ),
                ],
            )
            &&& takes(
                tools[4],
                "add_bus_alias"@,
                seq![sheet, ("name"@, KindView::Text, true), ("members"@, KindView::TextList, true)],
            )
            &&& takes(
                tools[5],
                "list_bus_aliases"@,
                seq![sheet, ("recursive"@, KindView::Flag(true), false)],
            )
            &&& takes(tools[6], "validate_bus_aliases"@, seq![sheet])
        }),
{
}

/// A tool and its parameters are described in these words; a parameter that needs
/// none has none.
pub open spec fn reads(
    tool: ToolView,
    description: Seq<char>,
    parameters: Seq<Option<Seq<char>>>,
) -> bool {
    &&& tool.description == description
    &&& tool.parameters.len() == parameters.len()
    &&& forall|i: int|
        0 <= i < parameters.len() ==> (#[trigger] tool.parameters[i]).description == parameters[i]
}

/// What callers are told of the tools.
pub proof fn law_tools_are_described()
    ensures
        ({
            let tools = tool_table();
            &&& reads(
                tools[0],
                "Add a bus segment between two points. Geometrically a wire, but KiCad treats it as a bus: it carries the members named by the bus label attached to it (vector 'NAME[1..6]' or group '{A B C}'), and ordinary wires join it only through a bus entry."@,
                seq![
                    Some("Path to .kicad_sch file"@),
                    None,
                    None,
                    None,
                    None,
                ],
            )
            &&& reads(
                tools[1],
                "Add multiple bus segments in a single file read/write cycle."@,
                seq![
                    Some("Path to .kicad_sch file"@),
                    Some("List of {x1,y1,x2,y2} segments"@),
                ],
            )
            &&& reads(
                tools[2],
                "Add a bus entry — the 45-degree tick that connects a wire to a bus. Required: a wire and a bus that merely touch are NOT connected without one. 'x'/'y' are the end on the wire side; 'direction' says which way the tick runs to reach the bus."@,
                seq![
                    Some("Path to .kicad_sch file"@),
                    Some("X of the wire-side end"@),
                    Some("Y of the wire-side end"@),
                    Some("Which way the tick runs from 'at' to the bus"@),
                ],
            )
            &&& reads(
                tools[3],
                "Fan a set of pins out onto a bus: for each pin, a wire stub from the pin to the bus entry, the bus entry itself, and a net label naming the member. This is the whole connection — a stub without a label joins nothing, since bus membership is by name. Give the bus's fixed coordinate ('bus_y' for a horizontal bus, 'bus_x' for a vertical one); the bus segment itself is drawn separately with add_bus."@,
                seq![
                    Some("Path to .kicad_sch file"@),
                    Some("Y of a horizontal bus (omit if vertical)"@),
                    Some("X of a vertical bus (omit if horizontal)"@),
                    Some("List of {reference, pin_number, net} — net is the bus member name"@),
                ],
            )
            &&& reads(
                tools[4],
                "Define a bus alias on a sheet: (bus_alias \"NAME\" (members ...)). An alias lets a label or sheet pin name a whole bundle as 'PREFIX{NAME}', which KiCad expands into one 'PREFIX.MEMBER' net per member. Written where eeschema writes it, after lib_symbols. Idempotent: redefining a name replaces that block's member list rather than leaving two definitions of the same alias in one file."@,
                seq![
                    Some("Path to .kicad_sch file"@),
                    Some("Alias name, as used inside the braces of 'PREFIX{NAME}'"@),
                    Some("Member signal names, in order. Each becomes 'PREFIX.MEMBER'."@),
                ],
            )
            &&& reads(
                tools[5],
                "List the bus aliases defined in a sheet and, by default, every sheet below it. Reports which file defines each alias, because eeschema's Bus Aliases dialog only ever shows the sheet currently open."@,
                seq![
                    Some("Path to .kicad_sch file"@),
                    Some("Walk child sheets too (default true)"@),
                ],
            )
            &&& reads(
                tools[6],
                "Check every 'PREFIX{ALIAS}' label, global label, hierarchical label and sheet pin in the hierarchy against the aliases actually defined in it. Reports an alias referenced but defined nowhere -- which KiCad does NOT flag, it silently nets up a one-member group named after the alias -- and the same alias defined in two files with different members. Aliases defined but never used are listed separately, as information rather than a fault. Read-only."@,
                seq![
                    Some("Path to the ROOT .kicad_sch file"@),
                ],
            )
        }),
{
}

} // verus!
