use sch_bus::entry::{
    entry_dir, entry_setback, entry_sides, parse_direction, requested_direction, tick_toward_bus,
    BusEntryDirection, EntrySides, SideNote, TICK,
};

/// The corner of an entry across from `(x, y)`, in millimetres.
fn far_corner(x: f64, y: f64, direction: BusEntryDirection) -> (f64, f64) {
    let round6 = |value: f64| (value * 1e6).round() / 1e6;
    let (dx, dy) = direction.size();
    (round6(x + dx as f64 / 100.0), round6(y + dy as f64 / 100.0))
}

/// The sheet of these tests has one bus, from (100.33, 100.33) to (150.11, 100.33).
fn on_bus(p: (f64, f64)) -> bool {
    (p.1 - 100.33).abs() < 0.001 && p.0 >= 100.33 && p.0 <= 150.11
}

fn sides_of(x: f64, y: f64) -> EntrySides<(f64, f64)> {
    let far = far_corner(x, y, parse_direction("down_right").unwrap());
    entry_sides((x, y), far, on_bus((x, y)), on_bus(far))
}

#[test]
fn bus_side_is_the_corner_that_actually_touches_the_bus() {
    let sides = sides_of(120.65, 100.33);
    assert_eq!(sides.bus_side, (120.65, 100.33));
    assert_eq!(sides.wire_side, (123.19, 102.87));
    assert!(sides.note.is_none(), "geometry decided");
}

#[test]
fn the_documented_wire_side_placement_keeps_its_labels() {
    let sides = sides_of(120.65, 97.79);
    assert_eq!(sides.wire_side, (120.65, 97.79));
    assert_eq!(sides.bus_side, (123.19, 100.33));
    assert!(sides.note.is_none());
}

#[test]
fn a_floating_entry_reports_the_convention_and_says_so() {
    let sides = sides_of(30.0, 30.0);
    assert_eq!(sides.wire_side.0, 30.0);
    assert_eq!(sides.bus_side.0, 32.54);
    let note = sides.note.expect("note present").words();
    assert!(note.contains("no bus touches"), "{note}");
}

#[test]
fn an_entry_between_two_buses_reports_the_convention() {
    let sides = entry_sides('a', 'f', true, true);
    assert_eq!((sides.bus_side, sides.wire_side), ('f', 'a'));
    assert_eq!(sides.note, Some(SideNote::BothTouch));
    assert!(SideNote::BothTouch.words().contains("both ends of this entry touch a bus"));
}

#[test]
fn sides_do_not_depend_on_the_corner_that_places_the_entry() {
    let one = entry_sides(1, 2, true, false);
    let other = entry_sides(2, 1, false, true);
    assert_eq!((one.bus_side, one.wire_side), (1, 2));
    assert_eq!((other.bus_side, other.wire_side), (1, 2));
    assert!(one.note.is_none() && other.note.is_none());
}

/// Offsets are in hundredths of a millimetre.
#[test]
fn entry_direction_follows_the_offset_signs() {
    assert!(matches!(entry_dir(254, 254), BusEntryDirection::DownRight));
    assert!(matches!(entry_dir(-254, 254), BusEntryDirection::DownLeft));
    assert!(matches!(entry_dir(254, -254), BusEntryDirection::UpRight));
    assert!(matches!(entry_dir(-254, -254), BusEntryDirection::UpLeft));
}

#[test]
fn an_offset_of_nothing_is_up_and_left() {
    assert_eq!(entry_dir(0, 0), BusEntryDirection::UpLeft);
    assert_eq!(entry_dir(0, 1), BusEntryDirection::DownLeft);
    assert_eq!(entry_dir(1, 0), BusEntryDirection::UpRight);
}

#[test]
fn direction_names_round_trip() {
    for (name, dir) in [
        ("down_right", BusEntryDirection::DownRight),
        ("down_left", BusEntryDirection::DownLeft),
        ("up_right", BusEntryDirection::UpRight),
        ("up_left", BusEntryDirection::UpLeft),
    ] {
        assert_eq!(parse_direction(name).unwrap().size(), dir.size());
    }
    assert!(parse_direction("sideways").is_none());
}

#[test]
fn a_direction_is_that_of_its_own_offset() {
    for name in ["down_right", "down_left", "up_right", "up_left"] {
        let direction = parse_direction(name).unwrap();
        let (dx, dy) = direction.size();
        assert_eq!(entry_dir(dx, dy), direction);
        assert_eq!((dx.abs(), dy.abs()), (TICK, TICK));
    }
    assert_eq!(BusEntryDirection::DownLeft.size(), (-254, 254));
}

#[test]
fn requests_for_a_direction() {
    assert_eq!(requested_direction(&None), Ok(BusEntryDirection::DownRight));
    assert_eq!(
        requested_direction(&Some("up_left".to_string())),
        Ok(BusEntryDirection::UpLeft)
    );
    assert_eq!(
        requested_direction(&Some("sideways".to_string())),
        Err("Unknown direction 'sideways'. Valid: down_right, down_left, up_right, up_left"
            .to_string())
    );
}

#[test]
fn ticks_run_from_the_pin_to_the_bus() {
    assert_eq!(tick_toward_bus(true), BusEntryDirection::DownRight);
    assert_eq!(tick_toward_bus(false), BusEntryDirection::UpLeft);
}

#[test]
fn ticks_end_on_the_bus() {
    for bus_is_beyond in [true, false] {
        let (dx, dy) = tick_toward_bus(bus_is_beyond).size();
        let start = 10_033 + entry_setback(bus_is_beyond);
        assert_eq!(start < 10_033, bus_is_beyond);
        assert_eq!((start + dx, start + dy), (10_033, 10_033));
    }
    assert_eq!((entry_setback(true), entry_setback(false)), (-254, 254));
}
