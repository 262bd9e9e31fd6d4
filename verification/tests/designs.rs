use sch_bus::alias::{
    collect_alias_definitions, collect_alias_uses, AliasDefinition, AliasUse, LabelTexts,
    SheetAliases, SheetLabels, UseKind,
};
use sch_bus::hierarchy::{
    hierarchy_files, listed_files, sheet_not_found, ChildSheet, Need, SheetReadings,
};
use sch_bus::report::{list_bus_aliases, validate_bus_aliases, AliasIssue};
use sch_bus::tree::{alias_nodes, library_names, SheetNode};

fn strings(texts: &[&str]) -> Vec<String> {
    texts.iter().map(|t| t.to_string()).collect()
}

/// A file on an imaginary disk: its path, its canonical name and the children
/// that it places, with whether they exist.
type File = (&'static str, &'static str, Vec<(&'static str, bool)>);

/// Answers what the walk asks for until it is done, and counts the questions.
fn walk(disk: &[File], root: &str) -> (Vec<String>, usize) {
    let mut known = SheetReadings::new();
    let mut asked = 0;
    loop {
        match hierarchy_files(&known, root) {
            Ok(files) => return (files, asked),
            Err(Need::Canonical(path)) => {
                let file = disk.iter().find(|f| f.0 == path).unwrap();
                known.note_canonical(path, file.1.to_string());
            }
            Err(Need::Children { path, name }) => {
                let file = disk.iter().find(|f| f.0 == path).unwrap();
                assert_eq!(file.1, name);
                let children = file
                    .2
                    .iter()
                    .map(|(path, exists)| ChildSheet {
                        path: path.to_string(),
                        exists: *exists,
                    })
                    .collect();
                known.note_children(name, children);
            }
        }
        asked += 1;
    }
}

fn atom(text: &str) -> SheetNode {
    SheetNode::Atom(text.to_string())
}

/// A list with this head.
fn list(head: &str, items: Vec<SheetNode>) -> SheetNode {
    let mut nodes = vec![atom(head)];
    nodes.extend(items);
    SheetNode::List(nodes)
}

fn node(name: &str, members: &[&str]) -> SheetNode {
    let members = members.iter().map(|m| atom(m)).collect();
    list("bus_alias", vec![atom(name), list("members", members)])
}

fn no_labels() -> LabelTexts {
    LabelTexts {
        labels: Vec::new(),
        global_labels: Vec::new(),
        hierarchical_labels: Vec::new(),
        sheet_pins: Vec::new(),
    }
}

/// A root sheet with the pin `DSI1{DSI}` on its child, a child with the
/// hierarchical label of the same name, and perhaps a definition in the root.
fn hierarchy_using(
    alias_defined: bool,
) -> (Vec<String>, Vec<AliasDefinition>, Vec<AliasUse>) {
    let disk: Vec<File> = vec![
        ("/d/root.kicad_sch", "/d/root.kicad_sch", vec![("/d/child.kicad_sch", true)]),
        ("/d/child.kicad_sch", "/d/child.kicad_sch", vec![]),
    ];
    let (files, _) = walk(&disk, "/d/root.kicad_sch");
    let nodes = if alias_defined {
        vec![node("DSI", &["D0_P", "D0_N"])]
    } else {
        vec![]
    };
    let definitions = collect_alias_definitions(&vec![
        SheetAliases {
            path: files[0].clone(),
            parsed: Some(list("kicad_sch", nodes)),
        },
        SheetAliases {
            path: files[1].clone(),
            parsed: Some(list("kicad_sch", vec![])),
        },
    ]);
    let uses = collect_alias_uses(&vec![
        SheetLabels {
            path: files[0].clone(),
            texts: Some(LabelTexts {
                sheet_pins: vec![strings(&["DSI1{DSI}"])],
                ..no_labels()
            }),
        },
        SheetLabels {
            path: files[1].clone(),
            texts: Some(LabelTexts {
                hierarchical_labels: strings(&["DSI1{DSI}"]),
                ..no_labels()
            }),
        },
    ]);
    (files, definitions, uses)
}

#[test]
fn an_alias_defined_in_the_parent_and_used_in_a_child_is_fine() {
    let (files, definitions, uses) = hierarchy_using(true);
    let report = validate_bus_aliases(&definitions, &uses);
    assert_eq!(files.len(), 2);
    assert_eq!(report.alias_references, 2, "sheet pin + child label");
    assert_eq!(report.issues.len(), 0);
    assert_eq!(report.aliases_defined, 1);
    assert!(report.unused.is_empty());
}

#[test]
fn an_alias_nothing_defines_is_reported() {
    let (_, definitions, uses) = hierarchy_using(false);
    let report = validate_bus_aliases(&definitions, &uses);
    assert_eq!(report.issues.len(), 1);
    assert_eq!(report.issues[0].kind(), "unresolved_alias");
    match &report.issues[0] {
        AliasIssue::UnresolvedAlias { alias, used_at } => {
            assert_eq!(alias, "DSI");
            assert_eq!(used_at.len(), 2);
            assert_eq!(used_at[0].file, "root.kicad_sch");
            assert_eq!(used_at[0].item.name(), "sheet_pin");
            assert_eq!(used_at[1].file, "child.kicad_sch");
            assert_eq!(used_at[1].item.name(), "hierarchical_label");
            assert_eq!(used_at[1].label, "DSI1{DSI}");
        }
        other => panic!("{other:?}"),
    }
    assert_eq!(
        report.issues[0].reason(),
        "no sheet in this hierarchy defines 'DSI'. KiCad does not flag that: it reads the label \
         as a one-member group and nets up 'PREFIX.DSI'. The schematic looks right and the \
         netlist is wrong."
    );
}

#[test]
fn list_reports_which_file_defines_each_alias() {
    let (_, definitions, _) = hierarchy_using(true);
    let aliases = list_bus_aliases(&definitions);
    assert_eq!(aliases.len(), 1);
    assert_eq!(aliases[0].name, "DSI");
    assert_eq!(aliases[0].members, strings(&["D0_P", "D0_N"]));
    assert_eq!(aliases[0].defined_in[0], "root.kicad_sch");
    assert!(aliases[0].consistent);
}

fn definition(name: &str, members: &[&str], file: &str) -> AliasDefinition {
    AliasDefinition {
        name: name.to_string(),
        members: strings(members),
        file: file.to_string(),
    }
}

fn reference(alias: &str, file: &str) -> AliasUse {
    AliasUse {
        alias: alias.to_string(),
        label: format!("P{{{}}}", alias),
        file: file.to_string(),
        kind: UseKind::Label,
    }
}

#[test]
fn conflicts_come_before_unresolved_aliases_and_both_in_order() {
    let definitions = vec![
        definition("Z", &["a"], "1"),
        definition("B", &["a"], "1"),
        definition("Z", &["b"], "2"),
        definition("M", &["m"], "1"),
        definition("B", &["a", "b"], "2"),
        definition("M", &["m"], "2"),
    ];
    let uses = vec![
        reference("Y", "1"),
        reference("M", "1"),
        reference("A", "2"),
        reference("Y", "3"),
    ];
    let report = validate_bus_aliases(&definitions, &uses);
    let found: Vec<(&str, &str)> = report
        .issues
        .iter()
        .map(|issue| match issue {
            AliasIssue::ConflictingDefinition { alias, .. } => (issue.kind(), alias.as_str()),
            AliasIssue::UnresolvedAlias { alias, .. } => (issue.kind(), alias.as_str()),
        })
        .collect();
    assert_eq!(
        found,
        vec![
            ("conflicting_definition", "B"),
            ("conflicting_definition", "Z"),
            ("unresolved_alias", "A"),
            ("unresolved_alias", "Y"),
        ]
    );
    match &report.issues[1] {
        AliasIssue::ConflictingDefinition { definitions, .. } => {
            assert_eq!(definitions.len(), 2);
            assert_eq!(definitions[0].file, "1");
            assert_eq!(definitions[0].members, strings(&["a"]));
            assert_eq!(definitions[1].file, "2");
            assert_eq!(definitions[1].members, strings(&["b"]));
        }
        other => panic!("{other:?}"),
    }
    assert_eq!(
        report.issues[0].reason(),
        "the same alias is defined more than once with different members; which one wins is not \
         defined by the file format"
    );
    assert_eq!(report.aliases_defined, 3);
    assert_eq!(report.alias_references, 4);
    let unused: Vec<&str> = report.unused.iter().map(|u| u.alias.as_str()).collect();
    assert_eq!(unused, vec!["B", "Z"]);
    assert_eq!(report.unused[0].defined_in, strings(&["1", "2"]));

    let listed = list_bus_aliases(&definitions);
    let consistent: Vec<(&str, bool)> =
        listed.iter().map(|l| (l.name.as_str(), l.consistent)).collect();
    assert_eq!(consistent, vec![("B", false), ("M", true), ("Z", false)]);
    assert_eq!(listed[2].members, strings(&["a"]));
    assert_eq!(listed[2].defined_in, strings(&["1", "2"]));
}

#[test]
fn members_in_another_order_are_other_members() {
    let definitions = vec![definition("A", &["x", "y"], "1"), definition("A", &["y", "x"], "1")];
    assert_eq!(validate_bus_aliases(&definitions, &vec![]).issues.len(), 1);
}

#[test]
fn a_design_without_aliases() {
    let report = validate_bus_aliases(&vec![], &vec![]);
    assert_eq!((report.aliases_defined, report.alias_references), (0, 0));
    assert!(report.issues.is_empty() && report.unused.is_empty());
    assert!(list_bus_aliases(&vec![]).is_empty());
}

#[test]
fn defining_an_alias_resolves_it_and_an_unused_one_is_no_fault() {
    let uses = vec![reference("A", "1")];
    let mut definitions = vec![];
    assert_eq!(validate_bus_aliases(&definitions, &uses).issues.len(), 1);
    definitions.push(definition("A", &["x"], "2"));
    assert_eq!(validate_bus_aliases(&definitions, &uses).issues.len(), 0);
    definitions.push(definition("B", &["x"], "2"));
    let report = validate_bus_aliases(&definitions, &uses);
    assert_eq!(report.issues.len(), 0);
    assert_eq!(report.unused.len(), 1);
}

#[test]
fn nodes_without_a_name_define_nothing() {
    let definitions = collect_alias_definitions(&vec![
        SheetAliases {
            path: "a/x.kicad_sch".to_string(),
            parsed: Some(list(
                "kicad_sch",
                vec![
                    list("bus_alias", vec![list("x", vec![]), list("members", vec![atom("m")])]),
                    list("bus_alias", vec![atom("A")]),
                    list(
                        "bus_alias",
                        vec![atom("B"), list("members", vec![list("x", vec![]), atom("m")])],
                    ),
                ],
            )),
        },
        SheetAliases { path: "a/broken.kicad_sch".to_string(), parsed: None },
    ]);
    let found: Vec<(&str, Vec<String>, &str)> = definitions
        .iter()
        .map(|d| (d.name.as_str(), d.members.clone(), d.file.as_str()))
        .collect();
    assert_eq!(
        found,
        vec![("A", vec![], "x.kicad_sch"), ("B", strings(&["m"]), "x.kicad_sch")]
    );
}

#[test]
fn references_are_collected_by_kind() {
    let uses = collect_alias_uses(&vec![
        SheetLabels { path: "gone.kicad_sch".to_string(), texts: None },
        SheetLabels {
            path: "s.kicad_sch".to_string(),
            texts: Some(LabelTexts {
                labels: strings(&["P{L}", "~{RESET}", "NET"]),
                global_labels: strings(&["P{G}"]),
                hierarchical_labels: strings(&["{A B}", "P{H}"]),
                sheet_pins: vec![strings(&["P{S1}", "X"]), strings(&[]), strings(&["P{S2}"])],
            }),
        },
    ]);
    let found: Vec<(&str, &str, UseKind)> = uses
        .iter()
        .map(|u| (u.alias.as_str(), u.label.as_str(), u.kind))
        .collect();
    assert_eq!(
        found,
        vec![
            ("L", "P{L}", UseKind::Label),
            ("G", "P{G}", UseKind::GlobalLabel),
            ("H", "P{H}", UseKind::HierarchicalLabel),
            ("S1", "P{S1}", UseKind::SheetPin),
            ("S2", "P{S2}", UseKind::SheetPin),
        ]
    );
    assert!(uses.iter().all(|u| u.file == "s.kicad_sch"));
    assert_eq!(UseKind::Label.name(), "label");
    assert_eq!(UseKind::GlobalLabel.name(), "global_label");
}

#[test]
fn a_walk_lists_parents_before_children_and_each_file_once() {
    let disk: Vec<File> = vec![
        ("r", "R", vec![("a", true), ("gone", false), ("b", true), ("./a", true)]),
        ("a", "A", vec![("c", true)]),
        ("./a", "A", vec![]),
        ("b", "B", vec![("c", true), ("r", true)]),
        ("c", "C", vec![("a", true)]),
    ];
    let (files, asked) = walk(&disk, "r");
    assert_eq!(files, strings(&["r", "a", "c", "b"]));
    // Five canonical names and the children of four files.
    assert_eq!(asked, 9);
}

#[test]
fn every_sheet_below_the_root_is_listed_however_deep() {
    let disk: Vec<File> = vec![
        ("r", "R", vec![("a", true), ("b", true)]),
        ("a", "A", vec![("b", true)]),
        ("b", "B", vec![("c", true)]),
        ("c", "C", vec![("r", true), ("c", true)]),
    ];
    assert_eq!(walk(&disk, "r").0, strings(&["r", "a", "b", "c"]));

    let mut known = SheetReadings::new();
    let depth = 200;
    for i in 0..depth {
        known.note_canonical(format!("p{i}"), format!("n{i}"));
        let child = ChildSheet { path: format!("p{}", i + 1), exists: i + 1 < depth };
        known.note_children(format!("n{i}"), vec![child]);
    }
    let files = hierarchy_files(&known, "p0").unwrap();
    assert_eq!(files.len(), depth);
    assert_eq!(files[depth - 1], "p199");
}

#[test]
fn a_walk_asks_for_what_it_needs() {
    let mut known = SheetReadings::new();
    assert!(matches!(hierarchy_files(&known, "r"), Err(Need::Canonical(p)) if p == "r"));
    known.note_canonical("r".to_string(), "R".to_string());
    assert!(matches!(hierarchy_files(&known, "r"), Err(Need::Children { path, name }) if path == "r" && name == "R"));
    known.note_children("R".to_string(), vec![]);
    assert_eq!(hierarchy_files(&known, "r").ok(), Some(strings(&["r"])));
    // The first reading of a path counts.
    known.note_canonical("r".to_string(), "other".to_string());
    known.note_children(
        "R".to_string(),
        vec![ChildSheet { path: "x".to_string(), exists: true }],
    );
    assert_eq!(hierarchy_files(&known, "r").ok(), Some(strings(&["r"])));
}

#[test]
fn a_list_goes_down_unless_told_otherwise() {
    let mut known = SheetReadings::new();
    let only = listed_files(&known, "r", Some(false)).ok();
    assert_eq!(only, Some(strings(&["r"])));
    assert!(matches!(listed_files(&known, "r", None), Err(Need::Canonical(p)) if p == "r"));
    known.note_canonical("r".to_string(), "R".to_string());
    known.note_canonical("a".to_string(), "A".to_string());
    let child = ChildSheet { path: "a".to_string(), exists: true };
    known.note_children("R".to_string(), vec![child]);
    known.note_children("A".to_string(), vec![]);
    for recursive in [None, Some(true)] {
        let files = listed_files(&known, "r", recursive).ok();
        assert_eq!(files, Some(strings(&["r", "a"])));
    }
    assert_eq!(sheet_not_found("x/y.kicad_sch"), "Schematic 'x/y.kicad_sch' not found");
}

#[test]
fn defining_takes_just_its_issue_out() {
    let mut definitions = vec![definition("B", &["a"], "1"), definition("B", &["b"], "2")];
    let uses = vec![reference("A", "1"), reference("C", "1"), reference("Z", "1")];
    let before = validate_bus_aliases(&definitions, &uses);
    definitions.insert(1, definition("C", &["m"], "3"));
    let after = validate_bus_aliases(&definitions, &uses);
    let names = |issues: &[AliasIssue]| -> Vec<String> {
        issues
            .iter()
            .map(|issue| match issue {
                AliasIssue::ConflictingDefinition { alias, .. } => alias.clone(),
                AliasIssue::UnresolvedAlias { alias, .. } => alias.clone(),
            })
            .collect()
    };
    assert_eq!(names(&before.issues), strings(&["B", "A", "C", "Z"]));
    assert_eq!(names(&after.issues), strings(&["B", "A", "Z"]));
    assert_eq!(after.aliases_defined, before.aliases_defined + 1);
    assert_eq!(after.alias_references, before.alias_references);
    assert_eq!(after.unused.len(), 1);
    assert_eq!(after.unused[0].alias, before.unused[0].alias);
}

#[test]
fn nodes_are_found_right_in_the_root() {
    let root = list(
        "kicad_sch",
        vec![
            node("A", &["x", "y"]),
            list("lib_symbols", vec![node("N", &["n"]), list("symbol", vec![atom("Device:R")])]),
            atom("bus_alias"),
            node("A", &["z"]),
            list("lib_symbols", vec![list("symbol", vec![atom("Device:C")])]),
        ],
    );
    let nodes = alias_nodes(&root);
    let found: Vec<_> = nodes.iter().map(|n| (n.name.as_deref(), n.members.as_ref())).collect();
    let some = |texts: &[&str]| -> Vec<Option<String>> {
        texts.iter().map(|t| Some(t.to_string())).collect()
    };
    assert_eq!(
        found,
        vec![(Some("A"), Some(&some(&["x", "y"]))), (Some("A"), Some(&some(&["z"])))]
    );
    assert_eq!(library_names(&root), some(&["Device:R"]));
    // A root that is itself an alias defines nothing.
    assert!(alias_nodes(&node("A", &["x"])).is_empty());
    assert!(alias_nodes(&atom("bus_alias")).is_empty());
    assert!(library_names(&list("kicad_sch", vec![])).is_empty());
}

#[test]
fn library_symbols_can_lack_a_name() {
    let symbols = vec![
        list("symbol", vec![]),
        list("symbol", vec![list("x", vec![])]),
        list("pin", vec![atom("1")]),
        list("symbol", vec![atom("L:S"), atom("more")]),
    ];
    let root = list("kicad_sch", vec![list("lib_symbols", symbols)]);
    assert_eq!(library_names(&root), vec![None, None, Some("L:S".to_string())]);
}
