//! Drawing on a sheet: bus segments, and the connections that fan pins out onto
//! a bus.
//!
//! Points are left abstract here (`P`). Whether two coordinates are apart is told
//! with each item; what is drawn and where, what is refused and in what words, is
//! decided here.

use crate::entry;
use crate::entry::BusEntryDirection;
use crate::text;
use vstd::prelude::*;
use vstd::string::*;

verus! {

/// A node on a line of its own, at the first level of indentation.
pub open spec fn on_own_line(node: Seq<char>) -> Seq<char> {
    "\n  "@ + node
}

/// Nodes one after the other, each on a line of its own.
pub open spec fn on_own_lines(nodes: Seq<Seq<char>>) -> Seq<char>
    decreases nodes.len(),
{
    if nodes.len() == 0 {
        Seq::empty()
    } else {
        on_own_lines(nodes.drop_last()) + on_own_line(nodes.last())
    }
}

/// Puts each node on a line of its own.
pub fn own_lines(nodes: &Vec<String>) -> (lines: String)
    ensures
        lines@ == on_own_lines(text::views(nodes@)),
{
    let ghost all = text::views(nodes@);
    let mut lines = String::new();
    let mut i: usize = 0;
    while i < nodes.len()
        invariant
            i <= nodes@.len(),
            all == text::views(nodes@),
            lines@ == on_own_lines(all.take(i as int)),
        decreases nodes@.len() - i,
    {
        let ghost before = lines@;
        assert(all.take(i + 1).drop_last() == all.take(i as int));
        lines.append("\n  ");
        lines.append(nodes[i].as_str());
        assert(lines@ == before + on_own_line(nodes@[i as int]@));
        i = i + 1;
    }
    assert(all.take(i as int) == all);
    lines
}

// ---------------------------------------------------------------------------
// Bus segments

/// A requested segment: its ends, whether they are apart on each axis, and the
/// node that draws it.
pub struct SegmentReading<P> {
    pub from: P,
    pub to: P,
    pub x_apart: bool,
    pub y_apart: bool,
    pub node: String,
}

/// [`SegmentReading`] as a mathematical value.
pub struct SegmentView<P> {
    pub from: P,
    pub to: P,
    pub x_apart: bool,
    pub y_apart: bool,
    pub node: Seq<char>,
}

impl<P> View for SegmentReading<P> {
    type V = SegmentView<P>;

    open spec fn view(&self) -> SegmentView<P> {
        SegmentView {
            from: self.from,
            to: self.to,
            x_apart: self.x_apart,
            y_apart: self.y_apart,
            node: self.node@,
        }
    }
}

pub open spec fn segment_views<P>(readings: Seq<Option<SegmentReading<P>>>) -> Seq<
    Option<SegmentView<P>>,
> {
    readings.map_values(
        |r: Option<SegmentReading<P>>|
            match r {
                Some(r) => Some(r@),
                None => None,
            },
    )
}

/// Buses run along an axis: a segment whose ends are apart on both is refused.
pub open spec fn is_oblique(x_apart: bool, y_apart: bool) -> bool {
    x_apart && y_apart
}

/// The words about a single oblique segment.
pub open spec fn oblique_message() -> Seq<char> {
    "Bus segment must be horizontal or vertical"@
}

/// Refuses a segment that runs along no axis.
pub fn check_segment(x_apart: bool, y_apart: bool) -> (checked: Result<(), String>)
    ensures
        match checked {
            Ok(()) => !is_oblique(x_apart, y_apart),
            Err(message) => is_oblique(x_apart, y_apart) && message@ == oblique_message(),
        },
{
    if x_apart && y_apart {
        Err("Bus segment must be horizontal or vertical".to_string())
    } else {
        Ok(())
    }
}

/// What becomes of several requested segments.
pub struct SegmentBatch<P> {
    /// The nodes that are drawn, each on a line of its own.
    pub inserts: String,
    /// The ends of the segments that are drawn.
    pub added: Vec<(P, P)>,
    /// The words about those that are not.
    pub errors: Vec<String>,
}

/// [`SegmentBatch`] as a mathematical value.
pub struct BatchView<P> {
    pub inserts: Seq<char>,
    pub added: Seq<(P, P)>,
    pub errors: Seq<Seq<char>>,
}

impl<P> View for SegmentBatch<P> {
    type V = BatchView<P>;

    open spec fn view(&self) -> BatchView<P> {
        BatchView {
            inserts: self.inserts@,
            added: self.added@,
            errors: text::views(self.errors@),
        }
    }
}

/// The words about the segment at `index` that lacks a coordinate.
pub open spec fn incomplete_segment(index: nat) -> Seq<char> {
    "Segment "@ + text::decimal(index) + ": needs x1, y1, x2, y2"@
}

/// The words about the segment at `index` that is oblique.
pub open spec fn oblique_segment(index: nat) -> Seq<char> {
    "Segment "@ + text::decimal(index) + ": must be horizontal or vertical"@
}

/// What becomes of several requested segments, `None` being one that lacks a
/// coordinate: each is drawn, or refused by its index, on its own.
pub open spec fn batch<P>(readings: Seq<Option<SegmentView<P>>>) -> BatchView<P>
    decreases readings.len(),
{
    if readings.len() == 0 {
        BatchView { inserts: Seq::empty(), added: Seq::empty(), errors: Seq::empty() }
    } else {
        let front = batch(readings.drop_last());
        let index = (readings.len() - 1) as nat;
        match readings.last() {
            None => BatchView { errors: front.errors.push(incomplete_segment(index)), ..front },
            Some(r) => if is_oblique(r.x_apart, r.y_apart) {
                BatchView { errors: front.errors.push(oblique_segment(index)), ..front }
            } else {
                BatchView {
                    inserts: front.inserts + on_own_line(r.node),
                    added: front.added.push((r.from, r.to)),
                    ..front
                }
            },
        }
    }
}

fn segment_error(index: usize, words: &str) -> (message: String)
    ensures
        message@ == "Segment "@ + text::decimal(index as nat) + words@,
{
    let mut message = "Segment ".to_string();
    message.append(text::decimal_text(index).as_str());
    message.append(words);
    message
}

/// Draws several segments at once. For a request without a list of segments, the
/// words of the refusal.
pub fn batch_segments<P: Copy>(requested: &Option<Vec<Option<SegmentReading<P>>>>) -> (drawn:
    Result<SegmentBatch<P>, String>)
    ensures
        match drawn {
            Ok(drawn) => requested matches Some(readings) && drawn@ == batch(
                segment_views(readings@),
            ),
            Err(message) => requested is None && message@ == "Missing 'buses' array"@,
        },
{
    let readings: &Vec<Option<SegmentReading<P>>> = match requested {
        Some(readings) => readings,
        None => {
            return Err("Missing 'buses' array".to_string());
        },
    };
    let ghost all = segment_views(readings@);
    let mut inserts = String::new();
    let mut added: Vec<(P, P)> = Vec::new();
    let mut errors: Vec<String> = Vec::new();
    let mut i: usize = 0;
    assert(text::views(errors@) == Seq::<Seq<char>>::empty());
    while i < readings.len()
        invariant
            i <= readings@.len(),
            all == segment_views(readings@),
            inserts@ == batch(all.take(i as int)).inserts,
            added@ == batch(all.take(i as int)).added,
            text::views(errors@) == batch(all.take(i as int)).errors,
        decreases readings@.len() - i,
    {
        let ghost before = errors@;
        assert(all.take(i + 1).drop_last() == all.take(i as int));
        match &readings[i] {
            None => {
                let message = segment_error(i, ": needs x1, y1, x2, y2");
                let ghost words = message@;
                errors.push(message);
                assert(text::views(errors@) == text::views(before).push(words));
            },
            Some(r) => {
                if r.x_apart && r.y_apart {
                    let message = segment_error(i, ": must be horizontal or vertical");
                    let ghost words = message@;
                    errors.push(message);
                    assert(text::views(errors@) == text::views(before).push(words));
                } else {
                    let ghost drawn = inserts@;
                    inserts.append("\n  ");
                    inserts.append(r.node.as_str());
                    assert(inserts@ == drawn + on_own_line(r.node@));
                    added.push((r.from, r.to));
                }
            },
        }
        i = i + 1;
    }
    assert(all.take(i as int) == all);
    Ok(SegmentBatch { inserts, added, errors })
}

/// Every requested segment is either drawn or refused.
pub proof fn law_every_segment_is_answered<P>(readings: Seq<Option<SegmentView<P>>>)
    ensures
        batch(readings).added.len() + batch(readings).errors.len() == readings.len(),
    decreases readings.len(),
{
    if readings.len() > 0 {
        law_every_segment_is_answered(readings.drop_last());
    }
}

// ---------------------------------------------------------------------------
// Connections

/// How a bus runs.
#[derive(PartialEq, Eq, Structural, Clone, Copy, Debug)]
pub enum Orientation {
    Horizontal,
    Vertical,
}

/// A request lists its connections and gives the coordinate that all points of
/// the bus share: its y for a horizontal one, its x for a vertical one, and never
/// both. For any other request, the words of the refusal.
pub fn bus_orientation(has_connections: bool, has_bus_y: bool, has_bus_x: bool) -> (orientation:
    Result<Orientation, String>)
    ensures
        match orientation {
            Ok(Orientation::Horizontal) => has_connections && has_bus_y && !has_bus_x,
            Ok(Orientation::Vertical) => has_connections && has_bus_x && !has_bus_y,
            Err(message) => if has_connections {
                has_bus_y == has_bus_x && message@
                    == "Give exactly one of 'bus_y' (horizontal bus) or 'bus_x' (vertical bus)"@
            } else {
                message@ == "Missing 'connections' array"@
            },
        },
{
    if !has_connections {
        return Err("Missing 'connections' array".to_string());
    }
    match (has_bus_y, has_bus_x) {
        (true, false) => Ok(Orientation::Horizontal),
        (false, true) => Ok(Orientation::Vertical),
        _ => Err(
            "Give exactly one of 'bus_y' (horizontal bus) or 'bus_x' (vertical bus)".to_string(),
        ),
    }
}

/// The rotation, in degrees, of a label on a stub that runs to the bus: the
/// stubs of a horizontal bus stand upright.
pub open spec fn rotation(orientation: Orientation) -> u16 {
    match orientation {
        Orientation::Horizontal => 90,
        Orientation::Vertical => 0,
    }
}

/// The rotation, in degrees, of a label on a stub that runs to the bus.
pub fn label_rotation(orientation: Orientation) -> (degrees: u16)
    ensures
        degrees == rotation(orientation),
{
    match orientation {
        Orientation::Horizontal => 90,
        Orientation::Vertical => 0,
    }
}

/// The coordinate of a point across a bus: the one that the points of the bus
/// share.
pub fn across_bus<C: Copy>(orientation: Orientation, point: (C, C)) -> (across: C)
    ensures
        across == match orientation {
            Orientation::Horizontal => point.1,
            Orientation::Vertical => point.0,
        },
{
    match orientation {
        Orientation::Horizontal => point.1,
        Orientation::Vertical => point.0,
    }
}

/// The corner of an entry on the wire: level with the pin along the bus, and at
/// `across` across it.
pub fn entry_place<C: Copy>(orientation: Orientation, pin: (C, C), across: C) -> (place: (C, C))
    ensures
        place == match orientation {
            Orientation::Horizontal => (pin.0, across),
            Orientation::Vertical => (across, pin.1),
        },
{
    match orientation {
        Orientation::Horizontal => (pin.0, across),
        Orientation::Vertical => (across, pin.1),
    }
}

/// One thing that is drawn for a connection.
#[derive(Debug)]
pub enum ConnectionItem<P> {
    Wire { from: P, to: P },
    /// A tick from its corner on the wire to the bus.
    Entry { at: P, direction: BusEntryDirection },
    Label { net: String, at: P, rotation: u16 },
}

/// [`ConnectionItem`] as a mathematical value.
pub enum ItemView<P> {
    Wire { from: P, to: P },
    Entry { at: P, direction: BusEntryDirection },
    Label { net: Seq<char>, at: P, rotation: u16 },
}

impl<P> View for ConnectionItem<P> {
    type V = ItemView<P>;

    open spec fn view(&self) -> ItemView<P> {
        match *self {
            ConnectionItem::Wire { from, to } => ItemView::Wire { from, to },
            ConnectionItem::Entry { at, direction } => ItemView::Entry { at, direction },
            ConnectionItem::Label { net, at, rotation } => ItemView::Label {
                net: net@,
                at,
                rotation,
            },
        }
    }
}

pub open spec fn item_views<P>(items: Seq<ConnectionItem<P>>) -> Seq<ItemView<P>> {
    items.map_values(|item: ConnectionItem<P>| item@)
}

/// The place of a connection: its pin and the corner of its entry on the wire,
/// whether these are apart on each axis, and whether the bus lies at the larger
/// coordinate.
#[derive(Clone, Copy)]
pub struct ConnectionSite<P> {
    pub pin_at: P,
    pub entry_at: P,
    pub x_apart: bool,
    pub y_apart: bool,
    pub bus_is_beyond: bool,
}

/// What is drawn to put a pin on a bus as `net`: a wire stub from the pin to the
/// entry, unless the pin sits there and the stub would have no length; the entry,
/// its tick toward the bus; and at the pin the label that puts the stub on the
/// bus.
pub open spec fn drawing<P>(
    orientation: Orientation,
    site: ConnectionSite<P>,
    net: Seq<char>,
) -> Seq<ItemView<P>> {
    (if site.x_apart || site.y_apart {
        seq![ItemView::Wire { from: site.pin_at, to: site.entry_at }]
    } else {
        Seq::empty()
    }) + seq![
        ItemView::Entry { at: site.entry_at, direction: entry::toward_bus(site.bus_is_beyond) },
        ItemView::Label { net, at: site.pin_at, rotation: rotation(orientation) },
    ]
}

/// What is drawn to put a pin on a bus as `net`.
pub fn connection_items<P: Copy>(
    orientation: Orientation,
    pin_at: P,
    entry_at: P,
    x_apart: bool,
    y_apart: bool,
    bus_is_beyond: bool,
    net: &str,
) -> (items: Vec<ConnectionItem<P>>)
    ensures
        item_views(items@) == drawing(
            orientation,
            (ConnectionSite { pin_at, entry_at, x_apart, y_apart, bus_is_beyond }),
            net@,
        ),
{
    let mut items: Vec<ConnectionItem<P>> = Vec::new();
    if x_apart || y_apart {
        items.push(ConnectionItem::Wire { from: pin_at, to: entry_at });
    }
    items.push(
        ConnectionItem::Entry { at: entry_at, direction: entry::tick_toward_bus(bus_is_beyond) },
    );
    items.push(
        ConnectionItem::Label {
            net: net.to_string(),
            at: pin_at,
            rotation: label_rotation(orientation),
        },
    );
    items
}

/// A requested connection: what it names, as far as that is text, and its place,
/// if the pin was found.
pub struct ConnectionReading<P> {
    pub reference: Option<String>,
    pub pin_number: Option<String>,
    pub net: Option<String>,
    pub site: Option<ConnectionSite<P>>,
}

/// A connection that was drawn.
#[derive(Debug)]
pub struct Connected<P> {
    pub reference: String,
    pub pin: String,
    pub net: String,
    pub pin_at: P,
    pub entry_at: P,
}

/// What becomes of several requested connections.
pub struct FanOut<P> {
    /// What is drawn, in order.
    pub items: Vec<ConnectionItem<P>>,
    pub connected: Vec<Connected<P>>,
    /// The words about the connections that are not drawn.
    pub errors: Vec<String>,
}

/// [`ConnectionReading`] as a mathematical value.
pub struct ConnectionView<P> {
    pub reference: Option<Seq<char>>,
    pub pin_number: Option<Seq<char>>,
    pub net: Option<Seq<char>>,
    pub site: Option<ConnectionSite<P>>,
}

/// [`Connected`] as a mathematical value.
pub struct ConnectedView<P> {
    pub reference: Seq<char>,
    pub pin: Seq<char>,
    pub net: Seq<char>,
    pub pin_at: P,
    pub entry_at: P,
}

/// [`FanOut`] as a mathematical value.
pub struct FanOutView<P> {
    pub items: Seq<ItemView<P>>,
    pub connected: Seq<ConnectedView<P>>,
    pub errors: Seq<Seq<char>>,
}

impl<P> View for ConnectionReading<P> {
    type V = ConnectionView<P>;

    open spec fn view(&self) -> ConnectionView<P> {
        ConnectionView {
            reference: text::optional(self.reference),
            pin_number: text::optional(self.pin_number),
            net: text::optional(self.net),
            site: self.site,
        }
    }
}

impl<P> View for Connected<P> {
    type V = ConnectedView<P>;

    open spec fn view(&self) -> ConnectedView<P> {
        ConnectedView {
            reference: self.reference@,
            pin: self.pin@,
            net: self.net@,
            pin_at: self.pin_at,
            entry_at: self.entry_at,
        }
    }
}

impl<P> View for FanOut<P> {
    type V = FanOutView<P>;

    open spec fn view(&self) -> FanOutView<P> {
        FanOutView {
            items: item_views(self.items@),
            connected: connected_views(self.connected@),
            errors: text::views(self.errors@),
        }
    }
}

pub open spec fn connection_views<P>(readings: Seq<ConnectionReading<P>>) -> Seq<
    ConnectionView<P>,
> {
    readings.map_values(|r: ConnectionReading<P>| r@)
}

pub open spec fn connected_views<P>(connected: Seq<Connected<P>>) -> Seq<ConnectedView<P>> {
    connected.map_values(|c: Connected<P>| c@)
}

/// The words about a connection that does not name all it has to.
pub open spec fn incomplete_connection() -> Seq<char> {
    "Each connection needs reference, pin_number and net"@
}

/// The words about a pin that was not found.
pub open spec fn missing_pin(reference: Seq<char>, pin_number: Seq<char>) -> Seq<char> {
    "Pin "@ + pin_number + " of '"@ + reference + "' not found"@
}

/// What becomes of several requested connections: each is drawn whole, or
/// refused, on its own.
pub open spec fn fan_out<P>(
    orientation: Orientation,
    readings: Seq<ConnectionView<P>>,
) -> FanOutView<P>
    decreases readings.len(),
{
    if readings.len() == 0 {
        FanOutView { items: Seq::empty(), connected: Seq::empty(), errors: Seq::empty() }
    } else {
        let front = fan_out(orientation, readings.drop_last());
        let r = readings.last();
        match (r.reference, r.pin_number, r.net) {
            (Some(reference), Some(pin_number), Some(net)) => match r.site {
                Some(site) => FanOutView {
                    items: front.items + drawing(orientation, site, net),
                    connected: front.connected.push(
                        ConnectedView {
                            reference,
                            pin: pin_number,
                            net,
                            pin_at: site.pin_at,
                            entry_at: site.entry_at,
                        },
                    ),
                    ..front
                },
                None => FanOutView {
                    errors: front.errors.push(missing_pin(reference, pin_number)),
                    ..front
                },
            },
            _ => FanOutView { errors: front.errors.push(incomplete_connection()), ..front },
        }
    }
}

/// Draws the connections that fan pins out onto a bus.
pub fn connect_pins<P: Copy>(
    orientation: Orientation,
    readings: &Vec<ConnectionReading<P>>,
) -> (drawn: FanOut<P>)
    ensures
        drawn@ == fan_out(orientation, connection_views(readings@)),
{
    let ghost all = connection_views(readings@);
    let mut items: Vec<ConnectionItem<P>> = Vec::new();
    let mut connected: Vec<Connected<P>> = Vec::new();
    let mut errors: Vec<String> = Vec::new();
    let mut i: usize = 0;
    assert(text::views(errors@) == Seq::<Seq<char>>::empty());
    assert(connected_views(connected@) == Seq::<ConnectedView<P>>::empty());
    assert(item_views(items@) == Seq::<ItemView<P>>::empty());
    while i < readings.len()
        invariant
            i <= readings@.len(),
            all == connection_views(readings@),
            item_views(items@) == fan_out(orientation, all.take(i as int)).items,
            connected_views(connected@) == fan_out(orientation, all.take(i as int)).connected,
            text::views(errors@) == fan_out(orientation, all.take(i as int)).errors,
        decreases readings@.len() - i,
    {
        let ghost refused = errors@;
        let ghost done = connected@;
        let ghost drawn = items@;
        assert(all.take(i + 1).drop_last() == all.take(i as int));
        assert(all[i as int] == readings@[i as int]@);
        let r: &ConnectionReading<P> = &readings[i];
        match (&r.reference, &r.pin_number, &r.net) {
            (Some(reference), Some(pin_number), Some(net)) => match &r.site {
                Some(site) => {
                    let mut new = connection_items(
                        orientation,
                        site.pin_at,
                        site.entry_at,
                        site.x_apart,
                        site.y_apart,
                        site.bus_is_beyond,
                        net.as_str(),
                    );
                    let ghost added = new@;
                    items.append(&mut new);
                    assert(item_views(items@) == item_views(drawn) + item_views(added));
                    let connection = Connected {
                        reference: reference.clone(),
                        pin: pin_number.clone(),
                        net: net.clone(),
                        pin_at: site.pin_at,
                        entry_at: site.entry_at,
                    };
                    let ghost view = connection@;
                    connected.push(connection);
                    assert(connected_views(connected@) == connected_views(done).push(view));
                },
                None => {
                    let mut message = "Pin ".to_string();
                    message.append(pin_number.as_str());
                    message.append(" of '");
                    message.append(reference.as_str());
                    message.append("' not found");
                    let ghost words = message@;
                    errors.push(message);
                    assert(text::views(errors@) == text::views(refused).push(words));
                },
            },
            _ => {
                let message = "Each connection needs reference, pin_number and net".to_string();
                let ghost words = message@;
                errors.push(message);
                assert(text::views(errors@) == text::views(refused).push(words));
            },
        }
        i = i + 1;
    }
    assert(all.take(i as int) == all);
    FanOut { items, connected, errors }
}

/// Every requested connection is either drawn or refused.
pub proof fn law_every_connection_is_answered<P>(
    orientation: Orientation,
    readings: Seq<ConnectionView<P>>,
)
    ensures
        ({
            let drawn = fan_out(orientation, readings);
            drawn.connected.len() + drawn.errors.len() == readings.len()
        }),
    decreases readings.len(),
{
    if readings.len() > 0 {
        law_every_connection_is_answered(orientation, readings.drop_last());
    }
}

/// A connection is drawn or refused regardless of the others: two requests at
/// once give what the one gives and then the other.
pub proof fn law_connections_are_independent<P>(
    orientation: Orientation,
    a: Seq<ConnectionView<P>>,
    b: Seq<ConnectionView<P>>,
)
    ensures
        ({
            let (one, other) = (fan_out(orientation, a), fan_out(orientation, b));
            let both = fan_out(orientation, a + b);
            &&& both.items == one.items + other.items
            &&& both.connected == one.connected + other.connected
            &&& both.errors == one.errors + other.errors
        }),
    decreases b.len(),
{
    if b.len() == 0 {
        assert(a + b == a);
    } else {
        law_connections_are_independent(orientation, a, b.drop_last());
        assert((a + b).drop_last() == a + b.drop_last());
        assert((a + b).last() == b.last());
    }
}

/// A connection whose pin was found is drawn whole, its entry and its label in
/// one piece: membership in a bus is by name, so none comes without the label.
pub proof fn law_connection_is_drawn_whole<P>(
    orientation: Orientation,
    readings: Seq<ConnectionView<P>>,
    i: int,
)
    requires
        0 <= i < readings.len(),
        readings[i].reference is Some,
        readings[i].pin_number is Some,
        readings[i].net is Some,
        readings[i].site is Some,
    ensures
        exists|before: Seq<ItemView<P>>, after: Seq<ItemView<P>>|
            fan_out(orientation, readings).items == #[trigger] (before + drawing(
                orientation,
                readings[i].site->0,
                readings[i].net->0,
            ) + after),
{
    let head = readings.take(i + 1);
    let tail = readings.skip(i + 1);
    let whole = drawing(orientation, readings[i].site->0, readings[i].net->0);
    assert(readings == head + tail);
    law_connections_are_independent(orientation, head, tail);
    assert(head.last() == readings[i]);
    let before = fan_out(orientation, head.drop_last()).items;
    let after = fan_out(orientation, tail).items;
    assert(fan_out(orientation, readings).items == before + whole + after);
}

} // verus!
