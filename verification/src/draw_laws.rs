//! Laws of drawing: every segment and every connection that can be drawn is
//! drawn, each on its own and in full.

use crate::draw;
use crate::entry;
use crate::text;
use vstd::prelude::*;

verus! {

// ---------------------------------------------------------------------------
// Lines

/// Nodes are put on lines one by one: each behind a line break and two spaces,
/// in their order, and nothing else.
pub proof fn law_nodes_are_lined_up(a: Seq<Seq<char>>, b: Seq<Seq<char>>, node: Seq<char>)
    ensures
        draw::on_own_lines(Seq::empty()) == Seq::<char>::empty(),
        draw::on_own_lines(seq![node]) == "\n  "@ + node,
        draw::on_own_lines(a + b) == draw::on_own_lines(a) + draw::on_own_lines(b),
    decreases b.len(),
{
    let one = seq![node];
    assert(one.drop_last() == Seq::<Seq<char>>::empty());
    assert(draw::on_own_lines(one.drop_last()) == Seq::<char>::empty());
    assert(draw::on_own_lines(one) == "\n  "@ + node);
    if b.len() == 0 {
        assert(a + b == a);
    } else {
        law_nodes_are_lined_up(a, b.drop_last(), node);
        assert((a + b).drop_last() == a + b.drop_last());
        assert((a + b).last() == b.last());
    }
}

// ---------------------------------------------------------------------------
// Bus segments

/// A segment is refused if and only if its ends differ on both axes.
pub proof fn law_segments_along_an_axis_are_drawn(x_apart: bool, y_apart: bool)
    ensures
        draw::is_oblique(x_apart, y_apart) <==> x_apart && y_apart,
        draw::oblique_message() == "Bus segment must be horizontal or vertical"@,
{
}

/// One segment more in a batch: it is drawn behind the others, or refused by its
/// index behind the other refusals, and changes nothing for the others.
pub proof fn law_segment_is_drawn_or_refused<P>(
    readings: Seq<Option<draw::SegmentView<P>>>,
    reading: Option<draw::SegmentView<P>>,
)
    ensures
        ({
            let before = draw::batch(readings);
            let after = draw::batch(readings.push(reading));
            let index = text::decimal(readings.len());
            match reading {
                Some(r) if !(r.x_apart && r.y_apart) => {
                    &&& after.inserts == before.inserts + "\n  "@ + r.node
                    &&& after.added == before.added.push((r.from, r.to))
                    &&& after.errors == before.errors
                },
                Some(_) => {
                    &&& after.inserts == before.inserts
                    &&& after.added == before.added
                    &&& after.errors == before.errors.push(
                        "Segment "@ + index + ": must be horizontal or vertical"@,
                    )
                },
                None => {
                    &&& after.inserts == before.inserts
                    &&& after.added == before.added
                    &&& after.errors == before.errors.push(
                        "Segment "@ + index + ": needs x1, y1, x2, y2"@,
                    )
                },
            }
        }),
        draw::batch(Seq::<Option<draw::SegmentView<P>>>::empty()).inserts.len() == 0,
        draw::batch(Seq::<Option<draw::SegmentView<P>>>::empty()).added.len() == 0,
        draw::batch(Seq::<Option<draw::SegmentView<P>>>::empty()).errors.len() == 0,
{
    let all = readings.push(reading);
    assert(all.drop_last() == readings);
    assert(all.last() == reading);
    if let Some(r) = reading {
        let before = draw::batch(readings).inserts;
        assert(before + ("\n  "@ + r.node) == before + "\n  "@ + r.node);
    }
}

/// A batch draws just the segments that can be drawn, in their order, each on a
/// line of its own, and reports the ends of just these.
pub proof fn law_batch_draws_every_segment<P>(readings: Seq<Option<draw::SegmentView<P>>>)
    ensures
        ({
            let drawn = readings.filter(
                |r: Option<draw::SegmentView<P>>| r is Some && !(r->0.x_apart && r->0.y_apart),
            );
            &&& draw::batch(readings).inserts == draw::on_own_lines(
                drawn.map_values(|r: Option<draw::SegmentView<P>>| r->0.node),
            )
            &&& draw::batch(readings).added == drawn.map_values(
                |r: Option<draw::SegmentView<P>>| (r->0.from, r->0.to),
            )
            &&& draw::batch(readings).errors.len() == readings.len() - drawn.len()
        }),
    decreases readings.len(),
{
    let keep = |r: Option<draw::SegmentView<P>>| r is Some && !(r->0.x_apart && r->0.y_apart);
    let node = |r: Option<draw::SegmentView<P>>| r->0.node;
    let ends = |r: Option<draw::SegmentView<P>>| (r->0.from, r->0.to);
    reveal(Seq::filter);
    let drawn = readings.filter(keep);
    if readings.len() == 0 {
        assert(drawn.map_values(node) == Seq::<Seq<char>>::empty());
    } else {
        let front = readings.drop_last();
        let last = readings.last();
        law_batch_draws_every_segment(front);
        law_segment_is_drawn_or_refused(front, last);
        assert(front.push(last) == readings);
        let before = front.filter(keep);
        if keep(last) {
            assert(drawn == before.push(last));
            assert(drawn.map_values(node) == before.map_values(node) + seq![last->0.node]);
            assert(drawn.map_values(ends) == before.map_values(ends).push(ends(last)));
            law_nodes_are_lined_up(before.map_values(node), seq![last->0.node], last->0.node);
        }
    }
}

/// Batches are independent: two at once draw what the one draws and then what
/// the other draws.
pub proof fn law_batches_are_independent<P>(
    a: Seq<Option<draw::SegmentView<P>>>,
    b: Seq<Option<draw::SegmentView<P>>>,
)
    ensures
        draw::batch(a + b).inserts == draw::batch(a).inserts + draw::batch(b).inserts,
        draw::batch(a + b).added == draw::batch(a).added + draw::batch(b).added,
        draw::batch(a + b).errors.len() == draw::batch(a).errors.len() + draw::batch(
            b,
        ).errors.len(),
        draw::batch(a + b).errors.take(draw::batch(a).errors.len() as int) == draw::batch(
            a,
        ).errors,
    decreases b.len(),
{
    if b.len() == 0 {
        assert(a + b == a);
    } else {
        let (front, last) = (b.drop_last(), b.last());
        law_batches_are_independent(a, front);
        assert((a + b) == (a + front).push(last));
        assert(b == front.push(last));
        law_segment_is_drawn_or_refused(a + front, last);
        law_segment_is_drawn_or_refused(front, last);
        let n = draw::batch(a).errors.len() as int;
        assert(draw::batch(a + b).errors.take(n) == draw::batch(a + front).errors.take(n));
    }
}

// ---------------------------------------------------------------------------
// Connections

/// The label on a stub of a horizontal bus stands upright, that on a stub of a
/// vertical one lies flat.
pub proof fn law_label_follows_its_stub()
    ensures
        draw::rotation(draw::Orientation::Horizontal) == 90,
        draw::rotation(draw::Orientation::Vertical) == 0,
{
}

/// A pin that was found is put on the bus: by a wire from the pin to the entry,
/// if these are apart on either axis, whichever way the bus runs and on whichever
/// side it lies; by the entry, whose tick runs toward the bus; and by a label at
/// the pin that names the net. It is these items and no other.
pub proof fn law_pin_is_wired_to_its_entry<P>(
    orientation: draw::Orientation,
    site: draw::ConnectionSite<P>,
    net: Seq<char>,
)
    ensures
        ({
            let items = draw::drawing(orientation, site, net);
            let n = items.len() as int;
            &&& n == if site.x_apart || site.y_apart {
                3int
            } else {
                2
            }
            &&& site.x_apart ==> items[0] == (draw::ItemView::Wire {
                from: site.pin_at,
                to: site.entry_at,
            })
            &&& site.y_apart ==> items[0] == (draw::ItemView::Wire {
                from: site.pin_at,
                to: site.entry_at,
            })
            &&& site.bus_is_beyond ==> items[n - 2] == (draw::ItemView::Entry {
                at: site.entry_at,
                direction: entry::BusEntryDirection::DownRight,
            })
            &&& !site.bus_is_beyond ==> items[n - 2] == (draw::ItemView::Entry {
                at: site.entry_at,
                direction: entry::BusEntryDirection::UpLeft,
            })
            &&& orientation is Horizontal ==> items[n - 1] == (draw::ItemView::Label {
                net,
                at: site.pin_at,
                rotation: 90,
            })
            &&& orientation is Vertical ==> items[n - 1] == (draw::ItemView::Label {
                net,
                at: site.pin_at,
                rotation: 0,
            })
        }),
{
}

/// One connection more: if it names a part, a pin and a net, and the pin was
/// found, its items come behind the others and it is reported with its places;
/// else it is refused in words that say why, and nothing is drawn for it. Nothing
/// changes for the others.
pub proof fn law_connection_is_drawn_or_refused<P>(
    orientation: draw::Orientation,
    readings: Seq<draw::ConnectionView<P>>,
    reading: draw::ConnectionView<P>,
)
    ensures
        ({
            let before = draw::fan_out(orientation, readings);
            let after = draw::fan_out(orientation, readings.push(reading));
            let named = reading.reference is Some && reading.pin_number is Some && reading.net
                is Some;
            &&& named && reading.site is Some ==> {
                &&& after.items == before.items + draw::drawing(
                    orientation,
                    reading.site->0,
                    reading.net->0,
                )
                &&& after.connected == before.connected.push(
                    draw::ConnectedView {
                        reference: reading.reference->0,
                        pin: reading.pin_number->0,
                        net: reading.net->0,
                        pin_at: reading.site->0.pin_at,
                        entry_at: reading.site->0.entry_at,
                    },
                )
                &&& after.errors == before.errors
            }
            &&& named && reading.site is None ==> {
                &&& after.items == before.items
                &&& after.connected == before.connected
                &&& after.errors == before.errors.push(
                    "Pin "@ + reading.pin_number->0 + " of '"@ + reading.reference->0
                        + "' not found"@,
                )
            }
            &&& !named ==> {
                &&& after.items == before.items
                &&& after.connected == before.connected
                &&& after.errors == before.errors.push(
                    "Each connection needs reference, pin_number and net"@,
                )
            }
        }),
        draw::fan_out(orientation, Seq::<draw::ConnectionView<P>>::empty()).items.len() == 0,
        draw::fan_out(orientation, Seq::<draw::ConnectionView<P>>::empty()).connected.len() == 0,
        draw::fan_out(orientation, Seq::<draw::ConnectionView<P>>::empty()).errors.len() == 0,
{
    let all = readings.push(reading);
    assert(all.drop_last() == readings);
    assert(all.last() == reading);
}

/// Every requested pin that was found is on the bus afterwards: among the items
/// that are drawn stand, next to each other, its wire (if pin and entry are
/// apart), its entry and its label.
pub proof fn law_found_pins_are_put_on_the_bus<P>(
    orientation: draw::Orientation,
    readings: Seq<draw::ConnectionView<P>>,
    i: int,
) -> (k: int)
    requires
        0 <= i < readings.len(),
        readings[i].reference is Some,
        readings[i].pin_number is Some,
        readings[i].net is Some,
        readings[i].site is Some,
    ensures
        ({
            let items = draw::fan_out(orientation, readings).items;
            let site = readings[i].site->0;
            &&& 0 <= k < items.len() - 1
            &&& items[k] matches draw::ItemView::Entry { at, .. } && at == site.entry_at
            &&& items[k + 1] matches draw::ItemView::Label { net, at, .. } && net
                == readings[i].net->0 && at == site.pin_at
            &&& site.x_apart || site.y_apart ==> k > 0 && items[k - 1] == (draw::ItemView::Wire {
                from: site.pin_at,
                to: site.entry_at,
            })
        }),
{
    let head = readings.take(i);
    let upto = readings.take(i + 1);
    let tail = readings.skip(i + 1);
    let site = readings[i].site->0;
    let whole = draw::drawing(orientation, site, readings[i].net->0);
    assert(upto == head.push(readings[i]));
    assert(readings == upto + tail);
    law_connection_is_drawn_or_refused(orientation, head, readings[i]);
    draw::law_connections_are_independent(orientation, upto, tail);
    law_pin_is_wired_to_its_entry(orientation, site, readings[i].net->0);
    let before = draw::fan_out(orientation, head).items;
    let items = draw::fan_out(orientation, readings).items;
    let k = before.len() + whole.len() - 2;
    assert(items == before + whole + draw::fan_out(orientation, tail).items);
    assert(items[k] == whole[whole.len() - 2]);
    assert(items[k + 1] == whole[whole.len() - 1]);
    if site.x_apart || site.y_apart {
        assert(items[k - 1] == whole[0]);
    }
    k
}

} // verus!
