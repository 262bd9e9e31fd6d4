use sch_bus::add_alias::{
    action_text, add_bus_alias, check_alias_request, AliasRefusal, AliasRequest, AliasWrite,
    EscapedAlias,
};
use sch_bus::alias::{parse_bus_aliases, AliasDefinition};
use sch_bus::block::{find_alias_span, format_bus_alias, sheet_indent, write_alias, AliasAction};
use sch_bus::sheet::{alias_insert_offset, close_of_node};
use sch_bus::tree::SheetNode;

fn sheet_with_lib_symbols() -> String {
    "(kicad_sch\n\t(version 20260306)\n\t(uuid \"11111111-1111-4111-8111-111111111111\")\n\
     \t(lib_symbols\n\t\t(symbol \"Device:R\"\n\t\t\t(property \"Description\" \"a ) paren\")\n\t\t)\n\t)\n\
     \t(junction\n\t\t(at 10 10)\n\t)\n)\n"
        .to_string()
}

fn strings(texts: &[&str]) -> Vec<String> {
    texts.iter().map(|t| t.to_string()).collect()
}

fn request(name: &str, members: &[&str]) -> Result<AliasRequest, AliasRefusal> {
    let members = members.iter().map(|m| Some(m.to_string())).collect();
    check_alias_request(&Some(name.to_string()), &Some(members))
}

/// Writes an alias whose texts need no escaping.
fn add(content: &str, name: &str, members: &[&str], defined: &[(&str, &[&str])]) -> AliasWrite {
    let request = request(name, members).unwrap();
    let escaped = EscapedAlias {
        name: name.to_string(),
        members: strings(members),
    };
    let atom = |text: &str| SheetNode::Atom(text.to_string());
    let mut root = vec![atom("kicad_sch")];
    for (name, members) in defined {
        let mut list = vec![atom("members")];
        list.extend(members.iter().map(|m| atom(m)));
        root.push(SheetNode::List(vec![atom("bus_alias"), atom(name), SheetNode::List(list)]));
    }
    let parsed = Some(SheetNode::List(root));
    let defined: Vec<AliasDefinition> = parse_bus_aliases(&parsed, "");
    match add_bus_alias(content, &request, &escaped, &defined) {
        Ok(write) => write,
        Err(refusal) => panic!("{}", refusal.message()),
    }
}

#[test]
fn insert_offset_lands_on_the_lib_symbols_paren() {
    let content = sheet_with_lib_symbols();
    let at = alias_insert_offset(&content).expect("an insertion point");
    assert!(at > content.find("(lib_symbols").unwrap());
    assert!(at < content.find("(junction").unwrap());
}

#[test]
fn alias_is_written_after_lib_symbols() {
    let write = add(
        &sheet_with_lib_symbols(),
        "DSI",
        &["D0_P", "D0_N", "C_P", "C_N"],
        &[],
    );
    assert_eq!(action_text(write.action), "added");
    assert_eq!(write.reference_form, "PREFIX{DSI}");
    assert!(write.previous.is_none());

    let text = write.content;
    assert!(
        text.contains("(bus_alias \"DSI\"\n\t\t(members \"D0_P\" \"D0_N\" \"C_P\" \"C_N\")\n\t)"),
        "{text}"
    );
    let alias_at = text.find("(bus_alias").unwrap();
    assert!(alias_at > text.find("(lib_symbols").unwrap(), "before lib_symbols");
    assert!(alias_at < text.find("(junction").unwrap(), "after the drawing starts");
}

#[test]
fn redefining_an_alias_replaces_it() {
    let first = add(&sheet_with_lib_symbols(), "UART", &["TX", "RX"], &[]);
    let write = add(
        &first.content,
        "UART",
        &["TX", "RX", "RTS"],
        &[("UART", &["TX", "RX"])],
    );

    assert_eq!(action_text(write.action), "replaced");
    assert_eq!(write.previous, Some(strings(&["TX", "RX"])));
    let text = write.content;
    assert_eq!(text.matches("(bus_alias").count(), 1, "{text}");
    assert!(text.contains("\"TX\" \"RX\" \"RTS\""), "{text}");
}

#[test]
fn a_member_with_whitespace_is_refused() {
    let refusal = request("X", &["OK", "not ok"]).unwrap_err();
    assert_eq!(
        refusal.message(),
        "Member 'not ok' is empty or contains whitespace; KiCad splits members on whitespace."
    );
}

#[test]
fn every_refusal_of_a_request() {
    let some = |texts: &[&str]| -> Option<Vec<Option<String>>> {
        Some(texts.iter().map(|t| Some(t.to_string())).collect())
    };
    let message = |name: Option<&str>, members: Option<Vec<Option<String>>>| {
        check_alias_request(&name.map(str::to_string), &members)
            .unwrap_err()
            .message()
    };
    assert_eq!(message(None, some(&["A"])), "Missing 'name'");
    assert_eq!(message(Some(" \t"), some(&["A"])), "Missing 'name'");
    assert_eq!(message(Some(""), None), "Missing 'name'");
    assert_eq!(
        message(Some("A B"), None),
        "Alias name 'A B' contains whitespace. KiCad splits a group bus on whitespace, so a \
         'PREFIX{NAME}' reference could never resolve to it."
    );
    assert_eq!(message(Some("A"), None), "Missing 'members' array");
    assert_eq!(message(Some("A"), some(&[])), "'members' must name at least one signal");
    assert_eq!(
        message(Some("A"), Some(vec![None, None])),
        "'members' must name at least one signal"
    );
    assert_eq!(
        message(Some("A"), some(&["B", "", "C D"])),
        "Member '' is empty or contains whitespace; KiCad splits members on whitespace."
    );
}

#[test]
fn items_that_are_no_text_are_passed_over() {
    let members = vec![None, Some("TX".to_string()), None, Some("RX".to_string())];
    let request = check_alias_request(&Some("UART".to_string()), &Some(members)).unwrap();
    assert_eq!(request.name, "UART");
    assert_eq!(request.members, strings(&["TX", "RX"]));
}

#[test]
fn a_sheet_without_a_place_is_refused() {
    let request = request("A", &["B"]).unwrap();
    let escaped = EscapedAlias {
        name: "A".to_string(),
        members: strings(&["B"]),
    };
    let refused = add_bus_alias("(kicad_sch)", &request, &escaped, &Vec::new());
    match refused {
        Err(refusal) => assert_eq!(
            refusal.message(),
            "Could not find anywhere to write the alias: the sheet has neither a lib_symbols \
             block nor a (uuid ...) node to anchor against."
        ),
        Ok(_) => panic!("written"),
    }
}

#[test]
fn nodes_close_outside_of_strings() {
    assert_eq!(close_of_node("(a)", 0), Some(2));
    assert_eq!(close_of_node("(a (b) c)x", 0), Some(8));
    assert_eq!(close_of_node("(a (b) c)", 3), Some(5));
    assert_eq!(close_of_node("(a \")\" b)", 0), Some(8));
    assert_eq!(close_of_node("(a \"\\\")\" b)", 0), Some(10));
    assert_eq!(close_of_node("(a \"\\\\\" b) c", 0), Some(9));
    assert_eq!(close_of_node("(a (b)", 0), None);
    assert_eq!(close_of_node("(a \"b)", 0), None);
    assert_eq!(close_of_node("a()", 0), None);
    assert_eq!(close_of_node("()", 2), None);
    assert_eq!(close_of_node("()", 9), None);
    assert_eq!(close_of_node("(Ω)", 0), Some(3));
}

#[test]
fn places_for_a_new_alias() {
    let tab = "(k\n\t(uuid \"1\")\n\t(lib_symbols (s \")\"))\n)";
    assert_eq!(
        alias_insert_offset(tab),
        Some(tab.find("))\n").unwrap() + 2)
    );
    let spaces = "(k\n  (uuid \"1\")\n  (lib_symbols)\n)";
    assert_eq!(
        alias_insert_offset(spaces),
        Some(spaces.find("symbols)").unwrap() + 8)
    );
    let uuid = "(k\n\t(uuid \"1\")\n\t(x)\n)";
    assert_eq!(alias_insert_offset(uuid), Some(uuid.find("\n\t(x)").unwrap()));
    let spaced_uuid = "(k\n  (uuid \"1\")\n)";
    assert_eq!(alias_insert_offset(spaced_uuid), Some(spaced_uuid.len() - 2));
    // An unclosed lib_symbols leaves no place, not even the uuid.
    assert_eq!(alias_insert_offset("(k\n\t(uuid \"1\")\n\t(lib_symbols"), None);
    assert_eq!(alias_insert_offset("(k\n\t(uuid \"1\")"), None);
    assert_eq!(alias_insert_offset(""), None);
}

#[test]
fn blocks_follow_the_indentation_of_the_sheet() {
    assert_eq!(sheet_indent("(k\n\t(a)\n)"), "\t");
    assert_eq!(sheet_indent("(k\n  (a)\n)"), "  ");
    assert_eq!(sheet_indent("(k\n\t\t(a)\n)"), "  ");
    assert_eq!(
        format_bus_alias("A", &strings(&["B", "C"]), "  "),
        "(bus_alias \"A\"\n    (members \"B\" \"C\")\n  )"
    );
    assert_eq!(
        format_bus_alias("A", &Vec::new(), "\t"),
        "(bus_alias \"A\"\n\t\t(members )\n\t)"
    );
}

#[test]
fn spans_of_blocks() {
    let sheet = "(k\n  (bus_alias \"AB\" (members \"x\"))\n  (bus_alias \"A\" (members \")\")))";
    let (start, end) = find_alias_span(sheet, "A").unwrap();
    assert_eq!(&sheet[start..end], "(bus_alias \"A\" (members \")\"))");
    assert_eq!(find_alias_span(sheet, "B"), None);
    assert_eq!(find_alias_span("(bus_alias \"A\" (members", "A"), None);
}

#[test]
fn a_write_changes_nothing_else() {
    let before = "(k\n  (uuid \"Ω\")\n  (bus_alias \"A\" (members \"x\"))\n  (text \"µ\")\n)\n";
    let edit = write_alias(before, "A", &strings(&["y"])).unwrap();
    assert_eq!(edit.action, AliasAction::Replaced);
    assert_eq!(
        edit.content,
        "(k\n  (uuid \"Ω\")\n  (bus_alias \"A\"\n    (members \"y\")\n  )\n  (text \"µ\")\n)\n"
    );
    let edit = write_alias(before, "B", &strings(&["y"])).unwrap();
    assert_eq!(edit.action, AliasAction::Added);
    assert_eq!(
        edit.content,
        "(k\n  (uuid \"Ω\")\n  (bus_alias \"B\"\n    (members \"y\")\n  )\n  (bus_alias \"A\" \
         (members \"x\"))\n  (text \"µ\")\n)\n"
    );
}

#[test]
fn writing_twice_is_writing_once() {
    let once = write_alias(&sheet_with_lib_symbols(), "A", &strings(&["x", "y"])).unwrap();
    assert_eq!(once.action, AliasAction::Added);
    let twice = write_alias(&once.content, "A", &strings(&["x", "y"])).unwrap();
    assert_eq!(twice.action, AliasAction::Replaced);
    assert_eq!(twice.content, once.content);
}

#[test]
fn the_last_definition_wins() {
    let sheet = sheet_with_lib_symbols();
    let first = write_alias(&sheet, "A", &strings(&["x"])).unwrap();
    let last = write_alias(&first.content, "A", &strings(&["y", "z"])).unwrap();
    let direct = write_alias(&sheet, "A", &strings(&["y", "z"])).unwrap();
    assert_eq!(last.content, direct.content);
}

#[test]
fn a_written_block_is_found_whole() {
    let name = "a\\\"(b";
    let members = strings(&["c)\\\\", "(bus_alias", "Ω"]);
    let edit = write_alias(&sheet_with_lib_symbols(), name, &members).unwrap();
    let (start, end) = find_alias_span(&edit.content, name).unwrap();
    assert_eq!(
        &edit.content[start..end],
        format_bus_alias(name, &members, "\t").as_str()
    );
    assert_eq!(edit.content.matches("(bus_alias \"").count(), 1);
}

#[test]
fn blocks_tell_their_alias() {
    let lists: [&[&str]; 6] = [&["x", "y"], &["y", "x"], &["x y"], &["x"], &["x\\\" \\\"y"], &["", "x"]];
    for (i, a) in lists.iter().enumerate() {
        for (j, b) in lists.iter().enumerate() {
            let same = format_bus_alias("A", &strings(a), "\t")
                == format_bus_alias("A", &strings(b), "\t");
            assert_eq!(same, i == j, "{a:?} {b:?}");
        }
    }
    assert_ne!(
        format_bus_alias("A", &strings(&["x"]), "\t"),
        format_bus_alias("B", &strings(&["x"]), "\t")
    );
}

#[test]
fn an_unended_definition_behind_the_place_is_left_alone() {
    let sheet = "(k\n  (uuid \"1\")\n  (bus_alias \"A\" (members";
    let once = write_alias(sheet, "A", &strings(&["x"])).unwrap();
    assert_eq!(once.action, AliasAction::Added);
    let twice = write_alias(&once.content, "A", &strings(&["x"])).unwrap();
    assert_eq!(twice.action, AliasAction::Replaced);
    assert_eq!(twice.content, once.content);
}

#[test]
fn a_definition_is_redefined_however_it_is_spaced() {
    let sheet = "(kicad_sch\n\t(lib_symbols)\n\t(bus_alias  \"DSI\" (members \"A\"))\n)\n";
    let write = add(sheet, "DSI", &["B"], &[("DSI", &["A"])]);
    assert_eq!(action_text(write.action), "replaced");
    assert_eq!(write.previous, Some(strings(&["A"])));
    assert_eq!(
        write.content,
        "(kicad_sch\n\t(lib_symbols)\n\t(bus_alias \"DSI\"\n\t\t(members \"B\")\n\t)\n)\n"
    );
    for written in [
        "(bus_alias\n\t\t\"DSI\"\n\t\t(members))",
        "( bus_alias \"DSI\")",
        "(bus_alias\"DSI\")",
        "(bus_alias DSI (members A))",
        "(bus_alias DSI)",
        "(bus_alias\tDSI(members))",
    ] {
        let sheet = format!("(k\n\t(lib_symbols)\n\t{written}\n)\n");
        let edit = write_alias(&sheet, "DSI", &strings(&["B"])).unwrap();
        assert_eq!(edit.action, AliasAction::Replaced, "{written}");
        assert_eq!(edit.content.matches("DSI").count(), 1, "{written}");
    }
}

#[test]
fn what_is_no_definition_is_left_alone() {
    for written in [
        "(bus_aliases \"DSI\")",
        "(bus_alias \"DSI1\")",
        "(bus_alias DSI1)",
        "(bus_aliasDSI)",
        "(bus_alias (x) \"DSI\")",
        "(text \"(bus_alias \\\"DSI\\\")\")",
        "(text \"(bus_alias DSI)\")",
    ] {
        let sheet = format!("(k\n\t(lib_symbols)\n\t{written}\n)\n");
        let edit = write_alias(&sheet, "DSI", &strings(&["B"])).unwrap();
        assert_eq!(edit.action, AliasAction::Added, "{written}");
        assert!(edit.content.contains(written), "{written}");
        assert_eq!(find_alias_span(&sheet, "DSI"), None, "{written}");
    }
}

#[test]
fn further_definitions_are_taken_out() {
    let sheet = "(k\n  (bus_alias \"A\" (members \"x\"))\n  (bus_alias \"B\" (members \"A\"))\n  \
                 (bus_alias  A (members \"y\"))\n  (bus_alias (bus_alias \"A\") \"A\")\n)\n";
    let edit = write_alias(sheet, "A", &strings(&["z"])).unwrap();
    assert_eq!(edit.action, AliasAction::Replaced);
    assert_eq!(
        edit.content,
        "(k\n  (bus_alias \"A\"\n    (members \"z\")\n  )\n  (bus_alias \"B\" (members \"A\"))\n  \
         \n  \n)\n"
    );
}

#[test]
fn an_unended_definition_in_front_is_left_alone() {
    let sheet = "(k\n  (bus_alias \"A\" (x\n  (uuid \"1\")\n";
    let once = write_alias(sheet, "A", &strings(&["x"])).unwrap();
    assert_eq!(once.action, AliasAction::Added);
    let twice = write_alias(&once.content, "A", &strings(&["x"])).unwrap();
    assert_eq!(twice.action, AliasAction::Replaced);
    assert_eq!(twice.content, once.content);
}

#[test]
fn places_are_looked_for_outside_of_strings() {
    let sheet = "(k (t \"\n\t(lib_symbols)\n\t(uuid 1)\n\")\n\t(uuid \"a\nb\")\n)";
    assert_eq!(alias_insert_offset(sheet), Some(sheet.len() - 2));
    assert_eq!(alias_insert_offset("(k (t \"\n\t(lib_symbols)\n\"))"), None);
}

#[test]
fn a_second_identical_write_reports_the_first() {
    let first = add(&sheet_with_lib_symbols(), "UART", &["TX", "RX"], &[]);
    let second = add(&first.content, "UART", &["TX", "RX"], &[("UART", &["TX", "RX"])]);
    assert_eq!(second.action, AliasAction::Replaced);
    assert_eq!(second.previous, Some(strings(&["TX", "RX"])));
    assert_eq!(second.content, first.content);
}

#[test]
fn the_members_of_the_first_definition_are_reported() {
    let sheet = "(kicad_sch\n  (lib_symbols)\n  (bus_alias \"DSI\" (members \"D0\"))\n  \
                 (bus_alias \"UART\" (members \"TX\" \"RX\"))\n  \
                 (bus_alias \"UART\" (members \"X\"))\n)\n";
    let defined: &[(&str, &[&str])] =
        &[("DSI", &["D0"]), ("UART", &["TX", "RX"]), ("UART", &["X"])];
    let write = add(sheet, "UART", &["TX"], defined);
    assert_eq!(write.action, AliasAction::Replaced);
    assert_eq!(write.previous, Some(strings(&["TX", "RX"])));
    assert_eq!(write.content.matches("\"UART\"").count(), 1);
    assert!(write.content.contains("(bus_alias \"DSI\" (members \"D0\"))"));
}

#[test]
fn the_definition_in_the_root_is_redefined() {
    let sheet = "(k(g(bus_alias\"A\"))(bus_alias\"A\"))";
    assert_eq!(find_alias_span(sheet, "A"), Some((19, 33)));
    let edit = write_alias(sheet, "A", &strings(&["x"])).unwrap();
    assert_eq!(edit.action, AliasAction::Replaced);
    assert_eq!(edit.content, "(k(g)(bus_alias \"A\"\n    (members \"x\")\n  ))");

    let sheet = "(k(bus_alias A)(g(bus_alias A)(bus_alias A))(bus_alias A))";
    let edit = write_alias(sheet, "A", &strings(&["x"])).unwrap();
    assert_eq!(edit.content, "(k(bus_alias \"A\"\n    (members \"x\")\n  )(g))");
}

#[test]
fn a_definition_elsewhere_is_redefined_in_its_place() {
    let sheet = "(k(g(bus_alias \"A\"))(h(bus_alias \"A\")))";
    let edit = write_alias(sheet, "A", &strings(&["x"])).unwrap();
    assert_eq!(edit.action, AliasAction::Replaced);
    assert_eq!(edit.content, "(k(g(bus_alias \"A\"\n    (members \"x\")\n  ))(h))");
}

#[test]
fn a_root_around_a_definition_stays() {
    let sheet = "(bus_alias \"A\" (bus_alias \"A\"))";
    let edit = write_alias(sheet, "A", &strings(&["x"])).unwrap();
    assert_eq!(edit.action, AliasAction::Replaced);
    assert_eq!(
        edit.content,
        "(bus_alias \"A\" (bus_alias \"A\"\n    (members \"x\")\n  ))"
    );
}

#[test]
fn other_aliases_are_kept() {
    let other = "(bus_alias  B\n    (members \"b\"))";
    let sheet = format!("(k\n  (lib_symbols)\n  {other}\n  (bus_alias \"A\" (members \"a\"))\n)\n");
    let added = write_alias(&sheet, "C", &strings(&["c"])).unwrap();
    assert_eq!(added.action, AliasAction::Added);
    let replaced = write_alias(&sheet, "A", &strings(&["x", "y"])).unwrap();
    assert_eq!(replaced.action, AliasAction::Replaced);
    for text in [added.content, replaced.content] {
        let (start, end) = find_alias_span(&text, "B").unwrap();
        assert_eq!(&text[start..end], other);
        assert_eq!(text.matches("(bus_alias  B").count(), 1);
    }
}

#[test]
fn other_aliases_are_kept_among_several_definitions() {
    let other = "(bus_alias \"B\" (members \"b\"))";
    let sheet = format!(
        "(k\n  (g (bus_alias A) {other})\n  (bus_alias A)\n  {other}\n  (bus_alias A)\n)\n"
    );
    let edit = write_alias(&sheet, "A", &strings(&["x"])).unwrap();
    assert_eq!(
        edit.content,
        format!(
            "(k\n  (g  {other})\n  (bus_alias \"A\"\n    (members \"x\")\n  )\n  {other}\n  \n)\n"
        )
    );
}
