use sch_bus::label::{alias_reference, split_group_bus};

#[test]
fn group_bus_split_survives_subscript_markup() {
    assert_eq!(split_group_bus("DSI1{DSI}"), Some(("DSI1", "DSI")));
    assert_eq!(
        split_group_bus("I_{2}C1{I_{2}C}"),
        Some(("I_{2}C1", "I_{2}C"))
    );
    assert_eq!(split_group_bus("{A B C}"), Some(("", "A B C")));
    assert_eq!(split_group_bus("SPI6_MOSI"), None);
    assert_eq!(split_group_bus("X_DIG[1..6]"), None);
}

#[test]
fn text_markup_is_not_a_group_bus() {
    for markup in ["~{RESET}", "~{CS_ACCEL}", "~{GPS_SAFEBOOT}", "_{sub}", "^{sup}"] {
        assert_eq!(split_group_bus(markup), None, "{markup} is markup");
        assert_eq!(alias_reference(markup), None, "{markup} names no alias");
    }
    // A name may still end in markup and carry a real group before it.
    assert_eq!(alias_reference("I_{2}C1{I_{2}C}"), Some("I_{2}C"));
}

#[test]
fn only_a_single_token_names_an_alias() {
    assert_eq!(alias_reference("DSI1{DSI}"), Some("DSI"));
    assert_eq!(alias_reference("I_{2}C1{I_{2}C}"), Some("I_{2}C"));
    assert_eq!(alias_reference("{A B C}"), None);
    assert_eq!(alias_reference("BUS{A B}"), None);
    assert_eq!(alias_reference("SPI6_MOSI"), None);
}

#[test]
fn unmatched_and_empty_groups() {
    assert_eq!(split_group_bus(""), None);
    assert_eq!(split_group_bus("}"), None);
    assert_eq!(split_group_bus("A}}"), None);
    assert_eq!(split_group_bus("{A}}"), None);
    assert_eq!(split_group_bus("{A} "), None);
    assert_eq!(split_group_bus("{"), None);
    assert_eq!(split_group_bus("A{}"), Some(("A", "")));
    assert_eq!(alias_reference("A{}"), None);
    assert_eq!(split_group_bus("A{{B}"), Some(("A{", "B")));
}

#[test]
fn markup_before_the_whole_group_hides_it() {
    assert_eq!(split_group_bus("A~{B{C}}"), None);
    assert_eq!(split_group_bus("A{~{B}}"), Some(("A", "~{B}")));
    assert_eq!(alias_reference("A{~{B}}"), Some("~{B}"));
}

#[test]
fn labels_beyond_ascii() {
    assert_eq!(split_group_bus("Ω{µBus}"), Some(("Ω", "µBus")));
    assert_eq!(alias_reference("Ω{µBus}"), Some("µBus"));
    assert_eq!(alias_reference("Ω{µ\u{2003}Bus}"), None);
    assert_eq!(alias_reference("Ω{\u{a0}}"), None);
}

#[test]
fn split_parts_make_up_the_label() {
    for label in ["DSI1{DSI}", "I_{2}C1{I_{2}C}", "{A B C}", "A{{B}", "Ω{µBus}"] {
        let (prefix, inner) = split_group_bus(label).unwrap();
        assert_eq!(format!("{}{{{}}}", prefix, inner), label);
    }
}
