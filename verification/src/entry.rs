//! Bus entries: the ticks at 45 degrees that connect a wire to a bus.
//!
//! A wire and a bus that merely touch are not connected. The entry bridges the
//! last grid step between them, from its corner on the wire to its corner on
//! the bus.

use crate::text;
use vstd::prelude::*;
use vstd::string::*;

verus! {

// ---------------------------------------------------------------------------
// Directions

/// The length of a tick along each axis, one grid step, in hundredths of a
/// millimetre.
pub const TICK: i64 = 254;

/// Which way a tick runs. On a sheet x grows to the right and y down.
#[derive(PartialEq, Eq, Structural, Clone, Copy, Debug)]
pub enum BusEntryDirection {
    DownRight,
    DownLeft,
    UpRight,
    UpLeft,
}

/// The name of a direction in requests.
pub open spec fn direction_name(direction: BusEntryDirection) -> Seq<char> {
    match direction {
        BusEntryDirection::DownRight => "down_right"@,
        BusEntryDirection::DownLeft => "down_left"@,
        BusEntryDirection::UpRight => "up_right"@,
        BusEntryDirection::UpLeft => "up_left"@,
    }
}

/// The offset from one corner of an entry to the other.
pub open spec fn tick_offset(direction: BusEntryDirection) -> (int, int) {
    match direction {
        BusEntryDirection::DownRight => (TICK as int, TICK as int),
        BusEntryDirection::DownLeft => (-TICK, TICK as int),
        BusEntryDirection::UpRight => (TICK as int, -TICK),
        BusEntryDirection::UpLeft => (-TICK, -TICK),
    }
}

/// The direction of an offset: its signs say it all.
pub open spec fn direction_of(dx: int, dy: int) -> BusEntryDirection {
    if dx > 0 {
        if dy > 0 {
            BusEntryDirection::DownRight
        } else {
            BusEntryDirection::UpRight
        }
    } else {
        if dy > 0 {
            BusEntryDirection::DownLeft
        } else {
            BusEntryDirection::UpLeft
        }
    }
}

impl BusEntryDirection {
    /// The offset from one corner of an entry to the other, in hundredths of a
    /// millimetre.
    pub fn size(self) -> (offset: (i64, i64))
        ensures
            (offset.0 as int, offset.1 as int) == tick_offset(self),
    {
        match self {
            BusEntryDirection::DownRight => (TICK, TICK),
            BusEntryDirection::DownLeft => (-TICK, TICK),
            BusEntryDirection::UpRight => (TICK, -TICK),
            BusEntryDirection::UpLeft => (-TICK, -TICK),
        }
    }
}

/// Maps the offset of a tick onto the four directions.
pub fn entry_dir(dx: i64, dy: i64) -> (direction: BusEntryDirection)
    ensures
        direction == direction_of(dx as int, dy as int),
{
    match (dx > 0, dy > 0) {
        (true, true) => BusEntryDirection::DownRight,
        (false, true) => BusEntryDirection::DownLeft,
        (true, false) => BusEntryDirection::UpRight,
        (false, false) => BusEntryDirection::UpLeft,
    }
}

/// Reads the name of a direction.
pub fn parse_direction(s: &str) -> (direction: Option<BusEntryDirection>)
    ensures
        match direction {
            Some(direction) => s@ == direction_name(direction),
            None => forall|direction: BusEntryDirection|
                s@ != #[trigger] direction_name(direction),
        },
{
    if text::same_text(s, "down_right") {
        Some(BusEntryDirection::DownRight)
    } else if text::same_text(s, "down_left") {
        Some(BusEntryDirection::DownLeft)
    } else if text::same_text(s, "up_right") {
        Some(BusEntryDirection::UpRight)
    } else if text::same_text(s, "up_left") {
        Some(BusEntryDirection::UpLeft)
    } else {
        None
    }
}

/// The words about a direction that is none.
pub open spec fn unknown_direction(raw: Seq<char>) -> Seq<char> {
    "Unknown direction '"@ + raw + "'. Valid: down_right, down_left, up_right, up_left"@
}

/// The direction that a request asks for: down and to the right, unless it says
/// otherwise. For a name that is none, the words of the refusal.
pub fn requested_direction(raw: &Option<String>) -> (direction: Result<BusEntryDirection, String>)
    ensures
        match direction {
            Ok(direction) => match raw {
                Some(raw) => raw@ == direction_name(direction),
                None => direction == BusEntryDirection::DownRight,
            },
            Err(message) => raw matches Some(raw) && message@ == unknown_direction(raw@)
                && forall|direction: BusEntryDirection|
                raw@ != #[trigger] direction_name(direction),
        },
{
    match raw {
        Some(raw) => match parse_direction(raw.as_str()) {
            Some(direction) => Ok(direction),
            None => {
                let mut message = "Unknown direction '".to_string();
                message.append(raw.as_str());
                message.append("'. Valid: down_right, down_left, up_right, up_left");
                Err(message)
            },
        },
        None => Ok(BusEntryDirection::DownRight),
    }
}

/// The direction of the tick between a pin and a bus: away from the pin on both
/// axes if the bus lies at the larger coordinate, else the other way round.
pub open spec fn toward_bus(bus_is_beyond: bool) -> BusEntryDirection {
    if bus_is_beyond {
        BusEntryDirection::DownRight
    } else {
        BusEntryDirection::UpLeft
    }
}

/// The offset, across the bus, from the bus to the corner of an entry on the
/// wire: one tick, on the side of the pin.
pub open spec fn setback(bus_is_beyond: bool) -> int {
    if bus_is_beyond {
        -TICK
    } else {
        TICK as int
    }
}

/// The direction of the tick between a pin and a bus.
pub fn tick_toward_bus(bus_is_beyond: bool) -> (direction: BusEntryDirection)
    ensures
        direction == toward_bus(bus_is_beyond),
{
    let step: i64 = if bus_is_beyond {
        TICK
    } else {
        -TICK
    };
    entry_dir(step, step)
}

/// The offset, across the bus, from the bus to the corner of an entry on the
/// wire, in hundredths of a millimetre.
pub fn entry_setback(bus_is_beyond: bool) -> (offset: i64)
    ensures
        offset == setback(bus_is_beyond),
{
    if bus_is_beyond {
        -TICK
    } else {
        TICK
    }
}

/// The entry of a pin starts on the pin's side of the bus and ends on the bus,
/// however the bus runs.
pub proof fn law_tick_ends_on_the_bus(bus: int, bus_is_beyond: bool)
    ensures
        bus + setback(bus_is_beyond) < bus <==> bus_is_beyond,
        bus + setback(bus_is_beyond) + tick_offset(toward_bus(bus_is_beyond)).0 == bus,
        bus + setback(bus_is_beyond) + tick_offset(toward_bus(bus_is_beyond)).1 == bus,
{
}

/// Every direction is that of its own offset.
pub proof fn law_direction_follows_its_offset(direction: BusEntryDirection, dx: int, dy: int)
    requires
        tick_offset(direction) == (dx, dy),
    ensures
        direction_of(dx, dy) == direction,
{
}

/// Directions have different names, so a name says which one is meant.
pub proof fn law_direction_names_differ(a: BusEntryDirection, b: BusEntryDirection)
    requires
        direction_name(a) == direction_name(b),
    ensures
        a == b,
{
    reveal_strlit("down_right");
    reveal_strlit("down_left");
    reveal_strlit("up_right");
    reveal_strlit("up_left");
    let (x, y) = (direction_name(a), direction_name(b));
    assert(x.len() == y.len());
    if a != b {
        assert(x[0] == y[0]);
        assert(x[3] == y[3]);
        assert(x[5] == y[5]);
    }
}

// ---------------------------------------------------------------------------
// Sides

/// Why the sides of an entry are those of the convention.
#[derive(PartialEq, Eq, Structural, Clone, Copy, Debug)]
pub enum SideNote {
    BothTouch,
    NoneTouches,
}

/// The words of a note.
pub open spec fn note_words(note: SideNote) -> Seq<char> {
    match note {
        SideNote::BothTouch => "both ends of this entry touch a bus; sides are reported from the documented convention (x/y = wire side)"@,
        SideNote::NoneTouches => "no bus touches this entry; sides are reported from the documented convention (x/y = wire side)"@,
    }
}

impl SideNote {
    /// The words of this note.
    pub fn words(self) -> (words: &'static str)
        ensures
            words@ == note_words(self),
    {
        match self {
            SideNote::BothTouch => "both ends of this entry touch a bus; sides are reported from the documented convention (x/y = wire side)",
            SideNote::NoneTouches => "no bus touches this entry; sides are reported from the documented convention (x/y = wire side)",
        }
    }
}

/// Which corner of an entry is on the bus and which on the wire.
#[derive(Debug)]
pub struct EntrySides<P> {
    pub bus_side: P,
    pub wire_side: P,
    pub note: Option<SideNote>,
}

/// The sides of the entry from `at` to `far`. If one corner alone touches a bus
/// it is the bus side. Else the sheet does not tell, and by convention the
/// entry is placed by its corner on the wire; the note says so.
pub open spec fn sides<P>(at: P, far: P, at_on_bus: bool, far_on_bus: bool) -> EntrySides<P> {
    if at_on_bus && !far_on_bus {
        EntrySides { bus_side: at, wire_side: far, note: None }
    } else {
        EntrySides {
            bus_side: far,
            wire_side: at,
            note: if at_on_bus {
                Some(SideNote::BothTouch)
            } else if far_on_bus {
                None
            } else {
                Some(SideNote::NoneTouches)
            },
        }
    }
}

/// Tells the sides of an entry from the corners that touch a bus.
pub fn entry_sides<P>(at: P, far: P, at_on_bus: bool, far_on_bus: bool) -> (found: EntrySides<P>)
    ensures
        found == sides(at, far, at_on_bus, far_on_bus),
{
    match (at_on_bus, far_on_bus) {
        (true, false) => EntrySides { bus_side: at, wire_side: far, note: None },
        (false, true) => EntrySides { bus_side: far, wire_side: at, note: None },
        (true, true) => EntrySides {
            bus_side: far,
            wire_side: at,
            note: Some(SideNote::BothTouch),
        },
        (false, false) => EntrySides {
            bus_side: far,
            wire_side: at,
            note: Some(SideNote::NoneTouches),
        },
    }
}

/// Where the sheet tells the sides, it does not matter from which corner the
/// entry was placed.
pub proof fn law_sides_are_a_fact_of_the_sheet<P>(
    at: P,
    far: P,
    at_on_bus: bool,
    far_on_bus: bool,
)
    requires
        at_on_bus != far_on_bus,
    ensures
        sides(at, far, at_on_bus, far_on_bus) == sides(far, at, far_on_bus, at_on_bus),
        sides(at, far, at_on_bus, far_on_bus).note is None,
        sides(at, far, at_on_bus, far_on_bus).bus_side == if at_on_bus {
            at
        } else {
            far
        },
{
}

// ---------------------------------------------------------------------------
// Laws

/// The directions have these names in requests.
pub proof fn law_directions_have_their_names()
    ensures
        direction_name(BusEntryDirection::DownRight) == "down_right"@,
        direction_name(BusEntryDirection::DownLeft) == "down_left"@,
        direction_name(BusEntryDirection::UpRight) == "up_right"@,
        direction_name(BusEntryDirection::UpLeft) == "up_left"@,
{
}

/// A tick is one grid step long on either axis, 2.54 mm, and runs the way that its
/// direction says: x grows to the right and y down.
pub proof fn law_tick_is_one_grid_step(direction: BusEntryDirection)
    ensures
        ({
            let (dx, dy) = tick_offset(direction);
            let right = direction is DownRight || direction is UpRight;
            let down = direction is DownRight || direction is DownLeft;
            &&& dx == if right {
                254int
            } else {
                -254
            }
            &&& dy == if down {
                254int
            } else {
                -254
            }
        }),
{
}

/// An offset has the direction of its signs: to the right if it grows in x, and
/// down if it grows in y.
pub proof fn law_direction_is_that_of_the_signs(dx: int, dy: int)
    ensures
        tick_offset(direction_of(dx, dy)).0 > 0 <==> dx > 0,
        tick_offset(direction_of(dx, dy)).1 > 0 <==> dy > 0,
{
}

/// The entry of a pin stands one grid step in front of the bus, seen from the pin,
/// and its tick runs on from there, away from the pin.
pub proof fn law_entry_stands_between_pin_and_bus(bus_is_beyond: bool)
    ensures
        setback(bus_is_beyond) == if bus_is_beyond {
            -254int
        } else {
            254
        },
        toward_bus(bus_is_beyond) == if bus_is_beyond {
            BusEntryDirection::DownRight
        } else {
            BusEntryDirection::UpLeft
        },
{
}

/// The two corners of an entry are its two sides. Its placed corner is the bus
/// side if it alone touches a bus, and else the wire side. A note says why, just
/// where both corners touch a bus or none does.
pub proof fn law_sides_follow_the_bus<P>(at: P, far: P, at_on_bus: bool, far_on_bus: bool)
    ensures
        ({
            let found = sides(at, far, at_on_bus, far_on_bus);
            &&& at_on_bus && !far_on_bus ==> found.bus_side == at && found.wire_side == far
            &&& !at_on_bus || far_on_bus ==> found.bus_side == far && found.wire_side == at
            &&& found.note is None <==> at_on_bus != far_on_bus
            &&& found.note == Some(SideNote::BothTouch) <==> at_on_bus && far_on_bus
            &&& found.note == Some(SideNote::NoneTouches) <==> !at_on_bus && !far_on_bus
        }),
{
}

/// A name that is no direction is told, with those that are, and a note on the
/// sides of an entry says what the sheet does not.
pub proof fn law_entries_are_told_in_these_words(raw: Seq<char>)
    ensures
        unknown_direction(raw) == "Unknown direction '"@ + raw
            + "'. Valid: down_right, down_left, up_right, up_left"@,
        note_words(SideNote::BothTouch)
            == "both ends of this entry touch a bus; sides are reported from the documented convention (x/y = wire side)"@,
        note_words(SideNote::NoneTouches)
            == "no bus touches this entry; sides are reported from the documented convention (x/y = wire side)"@,
{
}

} // verus!
