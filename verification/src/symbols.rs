//! Finding the pin of a placed symbol.
//!
//! A part with several units is placed unit by unit, and every unit repeats the
//! reference of the part. A pin belongs to the unit that owns it.

use crate::text;
use vstd::prelude::*;
use vstd::string::*;

verus! {

/// A symbol that a sheet places.
pub struct PlacedSymbol {
    pub reference: String,
    /// The library symbol that it is an instance of.
    pub lib_id: String,
    pub unit: i64,
}

/// The numbers of the pins that a library symbol has in one of its units.
pub struct UnitPins {
    pub unit: i64,
    pub numbers: Vec<String>,
}

/// A library symbol: its name, if it is text, and the pins of its units.
pub struct LibrarySymbol {
    pub id: Option<String>,
    pub units: Vec<UnitPins>,
}

/// Where a pin was found: the placed symbol that owns it, the library symbol of
/// that, the entry of its unit there, and the pin in it.
#[derive(PartialEq, Eq, Structural, Clone, Copy, Debug)]
pub struct PinSite {
    pub placed: usize,
    pub library: usize,
    pub unit: usize,
    pub pin: usize,
}

/// [`PlacedSymbol`] as a mathematical value.
pub struct PlacedView {
    pub reference: Seq<char>,
    pub lib_id: Seq<char>,
    pub unit: int,
}

/// [`LibrarySymbol`] as a mathematical value.
pub struct LibraryView {
    pub id: Option<Seq<char>>,
    pub units: Seq<(int, Seq<Seq<char>>)>,
}

impl View for PlacedSymbol {
    type V = PlacedView;

    open spec fn view(&self) -> PlacedView {
        PlacedView { reference: self.reference@, lib_id: self.lib_id@, unit: self.unit as int }
    }
}

impl View for LibrarySymbol {
    type V = LibraryView;

    open spec fn view(&self) -> LibraryView {
        LibraryView {
            id: text::optional(self.id),
            units: self.units@.map_values(
                |u: UnitPins| (u.unit as int, text::views(u.numbers@)),
            ),
        }
    }
}

pub open spec fn library_views(library: Seq<LibrarySymbol>) -> Seq<LibraryView> {
    library.map_values(|s: LibrarySymbol| s@)
}

/// `i` is the first index of `items` at which `wanted` holds.
pub open spec fn is_first<T>(items: Seq<T>, wanted: spec_fn(T) -> bool, i: int) -> bool {
    &&& 0 <= i < items.len()
    &&& wanted(items[i])
    &&& forall|j: int| 0 <= j < i ==> !wanted(#[trigger] items[j])
}

/// The symbol that is an instance of `lib_id`.
pub open spec fn is_symbol(lib_id: Seq<char>) -> spec_fn(LibraryView) -> bool {
    |s: LibraryView| s.id == Some(lib_id)
}

/// The entry of `unit`.
pub open spec fn is_unit(unit: int) -> spec_fn((int, Seq<Seq<char>>)) -> bool {
    |u: (int, Seq<Seq<char>>)| u.0 == unit
}

/// The pin with this number.
pub open spec fn is_number(number: Seq<char>) -> spec_fn(Seq<char>) -> bool {
    |n: Seq<char>| n == number
}

/// The pin `number` of the placed symbol is pin `pin` in entry `unit` of library
/// symbol `symbol`, the first that fits at each step.
pub open spec fn owns_pin_at(
    placed: PlacedView,
    library: Seq<LibraryView>,
    number: Seq<char>,
    symbol: int,
    unit: int,
    pin: int,
) -> bool {
    &&& is_first(library, is_symbol(placed.lib_id), symbol)
    &&& is_first(library[symbol].units, is_unit(placed.unit), unit)
    &&& is_first(library[symbol].units[unit].1, is_number(number), pin)
}

/// The placed symbol owns the pin `number`.
pub open spec fn owns_pin(
    placed: PlacedView,
    library: Seq<LibraryView>,
    number: Seq<char>,
) -> bool {
    exists|symbol: int, unit: int, pin: int|
        owns_pin_at(placed, library, number, symbol, unit, pin)
}

/// The placed symbol carries `reference` and owns the pin `number`.
pub open spec fn answers(
    placed: PlacedView,
    library: Seq<LibraryView>,
    reference: Seq<char>,
    number: Seq<char>,
) -> bool {
    placed.reference == reference && owns_pin(placed, library, number)
}

fn find_symbol(library: &Vec<LibrarySymbol>, lib_id: &str) -> (at: Option<usize>)
    ensures
        match at {
            Some(i) => is_first(library_views(library@), is_symbol(lib_id@), i as int),
            None => forall|i: int| !is_first(library_views(library@), is_symbol(lib_id@), i),
        },
{
    let ghost all = library_views(library@);
    let mut i: usize = 0;
    while i < library.len()
        invariant
            i <= library@.len(),
            all == library_views(library@),
            forall|j: int| 0 <= j < i ==> !is_symbol(lib_id@)(#[trigger] all[j]),
        decreases library@.len() - i,
    {
        assert(all[i as int] == library@[i as int]@);
        if let Some(id) = &library[i].id {
            if text::same_text(id.as_str(), lib_id) {
                return Some(i);
            }
        }
        i = i + 1;
    }
    None
}

fn find_unit(symbol: &LibrarySymbol, unit: i64) -> (at: Option<usize>)
    ensures
        match at {
            Some(i) => is_first(symbol@.units, is_unit(unit as int), i as int),
            None => forall|i: int| !is_first(symbol@.units, is_unit(unit as int), i),
        },
{
    let ghost all = symbol@.units;
    let mut i: usize = 0;
    while i < symbol.units.len()
        invariant
            i <= symbol.units@.len(),
            all == symbol@.units,
            forall|j: int| 0 <= j < i ==> !is_unit(unit as int)(#[trigger] all[j]),
        decreases symbol.units@.len() - i,
    {
        assert(all[i as int].0 == symbol.units@[i as int].unit);
        if symbol.units[i].unit == unit {
            return Some(i);
        }
        i = i + 1;
    }
    None
}

fn find_number(numbers: &Vec<String>, number: &str) -> (at: Option<usize>)
    ensures
        match at {
            Some(i) => is_first(text::views(numbers@), is_number(number@), i as int),
            None => forall|i: int| !is_first(text::views(numbers@), is_number(number@), i),
        },
{
    let ghost all = text::views(numbers@);
    let mut i: usize = 0;
    while i < numbers.len()
        invariant
            i <= numbers@.len(),
            all == text::views(numbers@),
            forall|j: int| 0 <= j < i ==> !is_number(number@)(#[trigger] all[j]),
        decreases numbers@.len() - i,
    {
        assert(all[i as int] == numbers@[i as int]@);
        if text::same_text(numbers[i].as_str(), number) {
            return Some(i);
        }
        i = i + 1;
    }
    None
}

fn find_own_pin(
    placed: &PlacedSymbol,
    library: &Vec<LibrarySymbol>,
    number: &str,
) -> (at: Option<(usize, usize, usize)>)
    ensures
        match at {
            Some((symbol, unit, pin)) => owns_pin_at(
                placed@,
                library_views(library@),
                number@,
                symbol as int,
                unit as int,
                pin as int,
            ),
            None => !owns_pin(placed@, library_views(library@), number@),
        },
{
    let ghost all = library_views(library@);
    let symbol: usize = match find_symbol(library, placed.lib_id.as_str()) {
        Some(i) => i,
        None => {
            return None;
        },
    };
    assert(all[symbol as int] == library@[symbol as int]@);
    let unit: usize = match find_unit(&library[symbol], placed.unit) {
        Some(i) => i,
        None => {
            proof {
                assert forall|s: int, u: int, p: int|
                    !owns_pin_at(placed@, all, number@, s, u, p) by {
                    if owns_pin_at(placed@, all, number@, s, u, p) {
                        lemma_first_is_unique(all, is_symbol(placed@.lib_id), s, symbol as int);
                    }
                }
            }
            return None;
        },
    };
    assert(all[symbol as int].units[unit as int].1 == text::views(
        library@[symbol as int].units@[unit as int].numbers@,
    ));
    match find_number(&library[symbol].units[unit].numbers, number) {
        Some(pin) => Some((symbol, unit, pin)),
        None => {
            proof {
                assert forall|s: int, u: int, p: int|
                    !owns_pin_at(placed@, all, number@, s, u, p) by {
                    if owns_pin_at(placed@, all, number@, s, u, p) {
                        lemma_first_is_unique(all, is_symbol(placed@.lib_id), s, symbol as int);
                        lemma_first_is_unique(
                            all[symbol as int].units,
                            is_unit(placed@.unit),
                            u,
                            unit as int,
                        );
                    }
                }
            }
            None
        },
    }
}

proof fn lemma_first_is_unique<T>(items: Seq<T>, wanted: spec_fn(T) -> bool, i: int, j: int)
    requires
        is_first(items, wanted, i),
        is_first(items, wanted, j),
    ensures
        i == j,
{
    assert(wanted(items[i]) && wanted(items[j]));
}

/// Finds the pin `number` of the part `reference`: the first placed symbol with
/// this reference that owns the pin, and where it stands in its library symbol.
pub fn resolve_pin(
    placed: &Vec<PlacedSymbol>,
    library: &Vec<LibrarySymbol>,
    reference: &str,
    number: &str,
) -> (site: Option<PinSite>)
    ensures
        match site {
            Some(site) => {
                &&& site.placed < placed@.len()
                &&& placed@[site.placed as int].reference@ == reference@
                &&& owns_pin_at(
                    placed@[site.placed as int]@,
                    library_views(library@),
                    number@,
                    site.library as int,
                    site.unit as int,
                    site.pin as int,
                )
                &&& forall|j: int|
                    0 <= j < site.placed ==> !answers(
                        (#[trigger] placed@[j])@,
                        library_views(library@),
                        reference@,
                        number@,
                    )
            },
            None => forall|j: int|
                0 <= j < placed@.len() ==> !answers(
                    (#[trigger] placed@[j])@,
                    library_views(library@),
                    reference@,
                    number@,
                ),
        },
{
    let mut i: usize = 0;
    while i < placed.len()
        invariant
            i <= placed@.len(),
            forall|j: int|
                0 <= j < i ==> !answers(
                    (#[trigger] placed@[j])@,
                    library_views(library@),
                    reference@,
                    number@,
                ),
        decreases placed@.len() - i,
    {
        if text::same_text(placed[i].reference.as_str(), reference) {
            match find_own_pin(&placed[i], library, number) {
                Some((symbol, unit, pin)) => {
                    return Some(PinSite { placed: i, library: symbol, unit, pin });
                },
                None => {},
            }
        }
        i = i + 1;
    }
    None
}

// ---------------------------------------------------------------------------
// Units on a sheet

/// The placed symbol is an instance of the library symbol `id`, if that is text.
pub open spec fn shows(placed: PlacedSymbol, id: Option<Seq<char>>) -> bool {
    id == Some(placed.lib_id@)
}

/// The units of the library symbol `id` that are placed, each once, in the order
/// in which they first appear.
pub open spec fn units_shown(placed: Seq<PlacedSymbol>, id: Option<Seq<char>>) -> Seq<i64>
    decreases placed.len(),
{
    if placed.len() == 0 {
        Seq::empty()
    } else {
        let front = units_shown(placed.drop_last(), id);
        let last = placed.last();
        if shows(last, id) && !front.contains(last.unit) {
            front.push(last.unit)
        } else {
            front
        }
    }
}

/// The units of the library symbol `id` that a sheet places: those whose pins
/// have to be read.
pub fn shown_units(placed: &Vec<PlacedSymbol>, id: &Option<String>) -> (units: Vec<i64>)
    ensures
        units@ == units_shown(placed@, text::optional(*id)),
{
    let mut units: Vec<i64> = Vec::new();
    let mut i: usize = 0;
    while i < placed.len()
        invariant
            i <= placed@.len(),
            units@ == units_shown(placed@.take(i as int), text::optional(*id)),
        decreases placed@.len() - i,
    {
        assert(placed@.take(i + 1).drop_last() == placed@.take(i as int));
        if let Some(id) = id {
            if text::same_text(id.as_str(), placed[i].lib_id.as_str()) && !has_unit(
                &units,
                placed[i].unit,
            ) {
                units.push(placed[i].unit);
            }
        }
        i = i + 1;
    }
    assert(placed@.take(i as int) == placed@);
    units
}

fn has_unit(units: &Vec<i64>, unit: i64) -> (found: bool)
    ensures
        found == units@.contains(unit),
{
    let mut i: usize = 0;
    while i < units.len()
        invariant
            i <= units@.len(),
            forall|j: int| 0 <= j < i ==> units@[j] != unit,
        decreases units@.len() - i,
    {
        if units[i] == unit {
            return true;
        }
        i = i + 1;
    }
    false
}

/// A unit is listed if and only if a placed symbol shows it, and none twice.
pub proof fn law_shown_units_are_placed(placed: Seq<PlacedSymbol>, id: Option<Seq<char>>)
    ensures
        units_shown(placed, id).no_duplicates(),
        forall|unit: i64| #[trigger]
            units_shown(placed, id).contains(unit) <==> exists|i: int|
                0 <= i < placed.len() && shows(#[trigger] placed[i], id) && placed[i].unit == unit,
    decreases placed.len(),
{
    let units = units_shown(placed, id);
    if placed.len() > 0 {
        let (less, last) = (placed.drop_last(), placed.last());
        let front = units_shown(less, id);
        law_shown_units_are_placed(less, id);
        assert forall|unit: i64| #[trigger] units.contains(unit) <==> exists|i: int|
            0 <= i < placed.len() && shows(#[trigger] placed[i], id) && placed[i].unit == unit by {
            if units.contains(unit) {
                if front.contains(unit) {
                    let i = choose|i: int|
                        0 <= i < less.len() && shows(#[trigger] less[i], id) && less[i].unit
                            == unit;
                    assert(placed[i] == less[i]);
                } else {
                    assert(placed[placed.len() - 1] == last);
                }
            }
            if exists|i: int|
                0 <= i < placed.len() && shows(#[trigger] placed[i], id) && placed[i].unit
                    == unit {
                let i = choose|i: int|
                    0 <= i < placed.len() && shows(#[trigger] placed[i], id) && placed[i].unit
                        == unit;
                if i < less.len() {
                    assert(less[i] == placed[i]);
                    assert(front.contains(unit));
                    let k = choose|k: int| 0 <= k < front.len() && front[k] == unit;
                    assert(units[k] == unit);
                } else if !front.contains(unit) {
                    assert(units[front.len() as int] == unit);
                }
            }
        }
    }
}

// ---------------------------------------------------------------------------
// Laws

/// A placed symbol owns a pin if and only if the first library symbol with its
/// name lists, in the first entry for its unit, a pin with that number; of
/// several it is the first.
pub proof fn law_pin_belongs_to_the_unit(
    placed: PlacedView,
    library: Seq<LibraryView>,
    number: Seq<char>,
    symbol: int,
    unit: int,
    pin: int,
)
    ensures
        owns_pin_at(placed, library, number, symbol, unit, pin) <==> {
            &&& 0 <= symbol < library.len()
            &&& library[symbol].id == Some(placed.lib_id)
            &&& forall|j: int|
                0 <= j < symbol ==> (#[trigger] library[j]).id != Some(placed.lib_id)
            &&& 0 <= unit < library[symbol].units.len()
            &&& library[symbol].units[unit].0 == placed.unit
            &&& forall|j: int|
                0 <= j < unit ==> (#[trigger] library[symbol].units[j]).0 != placed.unit
            &&& 0 <= pin < library[symbol].units[unit].1.len()
            &&& library[symbol].units[unit].1[pin] == number
            &&& forall|j: int|
                0 <= j < pin ==> #[trigger] library[symbol].units[unit].1[j] != number
        },
{
    if is_first(library, is_symbol(placed.lib_id), symbol) {
        assert forall|j: int| 0 <= j < symbol implies (#[trigger] library[j]).id != Some(
            placed.lib_id,
        ) by {
            assert(!is_symbol(placed.lib_id)(library[j]));
        }
        let units = library[symbol].units;
        if is_first(units, is_unit(placed.unit), unit) {
            assert forall|j: int| 0 <= j < unit implies (#[trigger] units[j]).0 != placed.unit by {
                assert(!is_unit(placed.unit)(units[j]));
            }
            let numbers = units[unit].1;
            if is_first(numbers, is_number(number), pin) {
                assert forall|j: int| 0 <= j < pin implies #[trigger] numbers[j] != number by {
                    assert(!is_number(number)(numbers[j]));
                }
            }
        }
    }
}

/// A placed symbol answers for a pin of a part if and only if it carries the
/// reference of the part and owns the pin.
pub proof fn law_symbol_answers_for_its_own_pins(
    placed: PlacedView,
    library: Seq<LibraryView>,
    reference: Seq<char>,
    number: Seq<char>,
)
    ensures
        answers(placed, library, reference, number) <==> placed.reference == reference && exists|
            symbol: int,
            unit: int,
            pin: int,
        | owns_pin_at(placed, library, number, symbol, unit, pin),
{
}

/// The units that are shown are listed in the order in which they first appear:
/// one symbol more adds its unit at the end, if it shows the library symbol and
/// the unit is new, and else nothing.
pub proof fn law_shown_units_are_in_order(
    placed: Seq<PlacedSymbol>,
    symbol: PlacedSymbol,
    id: Option<Seq<char>>,
)
    ensures
        units_shown(Seq::empty(), id).len() == 0,
        units_shown(placed.push(symbol), id) == if id == Some(symbol.lib_id@) && !units_shown(
            placed,
            id,
        ).contains(symbol.unit) {
            units_shown(placed, id).push(symbol.unit)
        } else {
            units_shown(placed, id)
        },
{
    assert(placed.push(symbol).drop_last() == placed);
}

} // verus!
