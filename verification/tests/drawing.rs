use sch_bus::draw::{
    across_bus, batch_segments, bus_orientation, check_segment, connect_pins, connection_items,
    entry_place, label_rotation, own_lines, ConnectionItem, ConnectionReading, ConnectionSite,
    Orientation, SegmentReading,
};
use sch_bus::entry::BusEntryDirection;
use sch_bus::symbols::{
    resolve_pin, shown_units, LibrarySymbol, PinSite, PlacedSymbol, UnitPins,
};
use sch_bus::tool::{tools, ParameterKind};

#[test]
fn all_seven_tools_are_registered() {
    let names: Vec<_> = tools().iter().map(|t| t.name).collect();
    assert_eq!(
        names,
        vec![
            "add_bus",
            "batch_add_bus",
            "add_bus_entry",
            "connect_pins_to_bus",
            "add_bus_alias",
            "list_bus_aliases",
            "validate_bus_aliases"
        ]
    );
}

#[test]
fn tools_say_what_they_require() {
    let tools = tools();
    let required: Vec<Vec<&str>> = tools
        .iter()
        .map(|t| {
            t.parameters
                .iter()
                .filter(|p| p.required)
                .map(|p| p.name.as_str())
                .collect()
        })
        .collect();
    assert_eq!(
        required,
        vec![
            vec!["schematic", "x1", "y1", "x2", "y2"],
            vec!["schematic", "buses"],
            vec!["schematic", "x", "y"],
            vec!["schematic", "connections"],
            vec!["schematic", "name", "members"],
            vec!["schematic"],
            vec!["schematic"],
        ]
    );
    match &tools[2].parameters[3].kind {
        ParameterKind::Choice(names) => {
            assert_eq!(names, &vec!["down_right", "down_left", "up_right", "up_left"]);
        }
        other => panic!("{other:?}"),
    }
    assert!(matches!(tools[5].parameters[1].kind, ParameterKind::Flag(true)));
}

fn segment(id: u32, x_apart: bool, y_apart: bool) -> Option<SegmentReading<(u32, f64)>> {
    Some(SegmentReading {
        from: (id, 1.5),
        to: (id, 2.5),
        x_apart,
        y_apart,
        node: format!("(bus {id})"),
    })
}

#[test]
fn oblique_segments_are_refused() {
    assert_eq!(check_segment(true, false), Ok(()));
    assert_eq!(check_segment(false, true), Ok(()));
    assert_eq!(check_segment(false, false), Ok(()));
    assert_eq!(
        check_segment(true, true),
        Err("Bus segment must be horizontal or vertical".to_string())
    );
}

#[test]
fn a_batch_draws_what_it_can() {
    let mut readings = vec![
        segment(0, true, false),
        None,
        segment(2, true, true),
        segment(3, false, true),
    ];
    for _ in 4..11 {
        readings.push(None);
    }
    let requested = readings.len();
    let batch = match batch_segments(&Some(readings)) {
        Ok(batch) => batch,
        Err(message) => panic!("{message}"),
    };
    assert_eq!(batch.inserts, "\n  (bus 0)\n  (bus 3)");
    assert_eq!(batch.added, vec![((0, 1.5), (0, 2.5)), ((3, 1.5), (3, 2.5))]);
    assert_eq!(batch.errors[0], "Segment 1: needs x1, y1, x2, y2");
    assert_eq!(batch.errors[1], "Segment 2: must be horizontal or vertical");
    assert_eq!(batch.errors.last().unwrap(), "Segment 10: needs x1, y1, x2, y2");
    assert_eq!(batch.added.len() + batch.errors.len(), requested);
    let none: Option<Vec<Option<SegmentReading<(f64, f64)>>>> = None;
    assert_eq!(batch_segments(&none).err(), Some("Missing 'buses' array".to_string()));
}

#[test]
fn a_bus_has_one_fixed_coordinate() {
    assert_eq!(bus_orientation(true, true, false), Ok(Orientation::Horizontal));
    assert_eq!(bus_orientation(true, false, true), Ok(Orientation::Vertical));
    let message = "Give exactly one of 'bus_y' (horizontal bus) or 'bus_x' (vertical bus)";
    assert_eq!(bus_orientation(true, true, true), Err(message.to_string()));
    assert_eq!(bus_orientation(true, false, false), Err(message.to_string()));
    let missing = "Missing 'connections' array";
    assert_eq!(bus_orientation(false, true, false), Err(missing.to_string()));
    assert_eq!(bus_orientation(false, false, false), Err(missing.to_string()));
    assert_eq!(label_rotation(Orientation::Horizontal), 90);
    assert_eq!(label_rotation(Orientation::Vertical), 0);
}

type Point = (f64, f64);

/// An item in plain words.
fn words(item: &ConnectionItem<Point>) -> String {
    match item {
        ConnectionItem::Wire { from, to } => format!("wire {from:?} {to:?}"),
        ConnectionItem::Entry { at, direction } => format!("entry {at:?} {direction:?}"),
        ConnectionItem::Label { net, at, rotation } => format!("label {net} {at:?} {rotation}"),
    }
}

fn all_words(items: &[ConnectionItem<Point>]) -> Vec<String> {
    items.iter().map(words).collect()
}

#[test]
fn a_connection_runs_from_the_pin_to_the_entry() {
    let (pin, entry) = ((1.0, 2.0), (1.0, 7.46));
    let items =
        connection_items(Orientation::Horizontal, pin, entry, false, true, true, "D0");
    assert_eq!(
        all_words(&items),
        vec![
            "wire (1.0, 2.0) (1.0, 7.46)",
            "entry (1.0, 7.46) DownRight",
            "label D0 (1.0, 2.0) 90",
        ]
    );
    let items = connection_items(Orientation::Vertical, pin, entry, true, false, false, "D1");
    assert_eq!(
        all_words(&items),
        vec![
            "wire (1.0, 2.0) (1.0, 7.46)",
            "entry (1.0, 7.46) UpLeft",
            "label D1 (1.0, 2.0) 0",
        ]
    );
}

#[test]
fn a_stub_without_length_is_left_out() {
    let pin = (1.0, 2.0);
    let items = connection_items(Orientation::Vertical, pin, pin, false, false, true, "D0");
    assert_eq!(items.len(), 2);
    assert!(matches!(
        items[0],
        ConnectionItem::Entry { at: (1.0, 2.0), direction: BusEntryDirection::DownRight }
    ));
    assert!(matches!(items[1], ConnectionItem::Label { rotation: 0, .. }));
}

#[test]
fn nodes_go_on_lines_of_their_own() {
    let nodes = vec!["(wire)".to_string(), "(bus_entry)".to_string()];
    assert_eq!(own_lines(&nodes), "\n  (wire)\n  (bus_entry)");
    assert_eq!(own_lines(&vec![]), "");
}

fn connection(pin: Option<&str>, site: Option<(bool, bool)>) -> ConnectionReading<Point> {
    ConnectionReading {
        reference: Some("U1".to_string()),
        pin_number: pin.map(str::to_string),
        net: Some("D0".to_string()),
        site: site.map(|(x_apart, y_apart)| ConnectionSite {
            pin_at: (1.0, 2.0),
            entry_at: (1.0, 7.46),
            x_apart,
            y_apart,
            bus_is_beyond: true,
        }),
    }
}

#[test]
fn connections_are_drawn_whole_or_refused() {
    let readings = vec![
        connection(Some("1"), Some((false, true))),
        connection(None, Some((false, true))),
        connection(Some("2"), None),
        connection(Some("3"), Some((false, false))),
    ];
    let drawn = connect_pins(Orientation::Horizontal, &readings);
    assert_eq!(
        all_words(&drawn.items),
        vec![
            "wire (1.0, 2.0) (1.0, 7.46)",
            "entry (1.0, 7.46) DownRight",
            "label D0 (1.0, 2.0) 90",
            "entry (1.0, 7.46) DownRight",
            "label D0 (1.0, 2.0) 90",
        ]
    );
    assert_eq!(
        drawn.errors,
        vec![
            "Each connection needs reference, pin_number and net".to_string(),
            "Pin 2 of 'U1' not found".to_string(),
        ]
    );
    assert_eq!(drawn.connected.len(), 2);
    assert_eq!(drawn.connected[0].reference, "U1");
    assert_eq!(drawn.connected[0].pin, "1");
    assert_eq!(drawn.connected[0].net, "D0");
    assert_eq!(drawn.connected[0].pin_at, (1.0, 2.0));
    assert_eq!(drawn.connected[0].entry_at, (1.0, 7.46));
    assert_eq!(drawn.connected[1].pin, "3");
}

#[test]
fn connections_do_not_depend_on_each_other() {
    let one = vec![connection(Some("1"), Some((true, false)))];
    let other = vec![connection(Some("2"), None), connection(Some("3"), Some((false, false)))];
    let both = connect_pins(
        Orientation::Vertical,
        &vec![
            connection(Some("1"), Some((true, false))),
            connection(Some("2"), None),
            connection(Some("3"), Some((false, false))),
        ],
    );
    let one = connect_pins(Orientation::Vertical, &one);
    let other = connect_pins(Orientation::Vertical, &other);
    assert_eq!(all_words(&both.items), [all_words(&one.items), all_words(&other.items)].concat());
    assert_eq!(both.errors, [one.errors, other.errors].concat());
}

fn placed(reference: &str, lib_id: &str, unit: i64) -> PlacedSymbol {
    PlacedSymbol {
        reference: reference.to_string(),
        lib_id: lib_id.to_string(),
        unit,
    }
}

fn library(id: Option<&str>, units: &[(i64, &[&str])]) -> LibrarySymbol {
    LibrarySymbol {
        id: id.map(str::to_string),
        units: units
            .iter()
            .map(|(unit, numbers)| UnitPins {
                unit: *unit,
                numbers: numbers.iter().map(|n| n.to_string()).collect(),
            })
            .collect(),
    }
}

#[test]
fn a_pin_is_found_on_the_unit_that_owns_it() {
    let sheet = vec![
        placed("R1", "Device:R", 1),
        placed("U1", "Missing:X", 1),
        placed("U1", "Amp:Dual", 1),
        placed("U1", "Amp:Dual", 2),
    ];
    let symbols = vec![
        library(None, &[(1, &["6"])]),
        library(Some("Device:R"), &[(1, &["1", "2"])]),
        library(Some("Amp:Dual"), &[(1, &["1", "2", "3"]), (2, &["5", "6", "7"])]),
        library(Some("Amp:Dual"), &[(1, &["9"])]),
    ];
    assert_eq!(
        resolve_pin(&sheet, &symbols, "U1", "6"),
        Some(PinSite { placed: 3, library: 2, unit: 1, pin: 1 })
    );
    assert_eq!(
        resolve_pin(&sheet, &symbols, "U1", "1"),
        Some(PinSite { placed: 2, library: 2, unit: 0, pin: 0 })
    );
    assert_eq!(resolve_pin(&sheet, &symbols, "U1", "9"), None);
    assert_eq!(resolve_pin(&sheet, &symbols, "U2", "1"), None);
    assert_eq!(resolve_pin(&vec![], &symbols, "U1", "1"), None);
}

#[test]
fn entries_stand_level_with_their_pins() {
    let pin = (1.5, 2.5);
    assert_eq!(across_bus(Orientation::Horizontal, pin), 2.5);
    assert_eq!(across_bus(Orientation::Vertical, pin), 1.5);
    assert_eq!(entry_place(Orientation::Horizontal, pin, 7.0), (1.5, 7.0));
    assert_eq!(entry_place(Orientation::Vertical, pin, 7.0), (7.0, 2.5));
}

#[test]
fn a_unit_is_shown_once() {
    let sheet = vec![
        placed("U1", "Amp:Dual", 2),
        placed("R1", "Device:R", 1),
        placed("U2", "Amp:Dual", 1),
        placed("U2", "Amp:Dual", 2),
    ];
    assert_eq!(shown_units(&sheet, &Some("Amp:Dual".to_string())), vec![2, 1]);
    assert_eq!(shown_units(&sheet, &Some("Device:R".to_string())), vec![1]);
    assert_eq!(shown_units(&sheet, &Some("Device:C".to_string())), Vec::<i64>::new());
    assert_eq!(shown_units(&sheet, &None), Vec::<i64>::new());
}
