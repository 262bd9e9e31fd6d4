//! Writing one alias keeps the definitions of the others.

use crate::block;
use crate::block_laws;
use crate::block_reading;
use crate::definitions;
use crate::sheet;
use crate::text;
use vstd::prelude::*;
use vstd::string::*;
use vstd::utf8::*;

verus! {

/// The bytes of the node at `i`.
pub open spec fn node_text(t: Seq<u8>, i: int) -> Seq<u8> {
    t.subrange(i, sheet::node_close(t, i)->0 + 1)
}

/// The offset `place` stands in the node at `i`.
pub open spec fn stands_around(t: Seq<u8>, i: int, place: int) -> bool {
    i < place <= sheet::node_close(t, i)->0
}

/// Where the offset `i` goes when what stands at `place` grows by `by`.
pub open spec fn moved(i: int, place: int, by: int) -> int {
    if i < place {
        i
    } else {
        i + by
    }
}

/// A node defines one alias only.
proof fn lemma_one_name(t: Seq<u8>, name: Seq<char>, other: Seq<char>, i: int)
    requires
        block::begins_definition(t, name, i),
        block::begins_definition(t, other, i),
        block::quotable(name),
        block::quotable(other),
    ensures
        name == other,
{
    let k = block::skip_blank(t, block::skip_blank(t, i + 1) + 9);
    let (v, w) = (encode_utf8(name), encode_utf8(other));
    let (p, q) = (encode_utf8(block::quoted(name)), encode_utf8(block::quoted(other)));
    block_reading::lemma_quoted_bytes(name);
    block_reading::lemma_quoted_bytes(other);
    if block::is_quoted_name(t, name, k) && block::is_quoted_name(t, other, k) {
        let (x, y) = (t.skip(k + p.len()), t.skip(k + q.len()));
        assert(t.skip(k) == p + x) by {
            assert(t.subrange(k, k + p.len()) + x == t.skip(k));
        }
        assert(t.skip(k) == q + y) by {
            assert(t.subrange(k, k + q.len()) + y == t.skip(k));
        }
        block_laws::lemma_quoted_unique(name, x, other, y);
    } else if block::is_quoted_name(t, name, k) {
        assert(t.subrange(k, k + p.len())[0] == t[k]);
        assert(t.subrange(k, k + w.len())[0] == t[k]);
        assert(!block::ends_word(w[0]));
    } else if block::is_quoted_name(t, other, k) {
        assert(t.subrange(k, k + q.len())[0] == t[k]);
        assert(t.subrange(k, k + v.len())[0] == t[k]);
        assert(!block::ends_word(v[0]));
    } else {
        if v.len() < w.len() {
            let n = v.len() as int;
            assert(t.subrange(k, k + w.len())[n] == t[k + n]);
            assert(!block::ends_word(w[n]));
        } else if w.len() < v.len() {
            let n = w.len() as int;
            assert(t.subrange(k, k + v.len())[n] == t[k + n]);
            assert(!block::ends_word(v[n]));
        }
        text::lemma_encode_injective(name, other);
    }
}

/// A definition in front of level text stays when other level text takes its
/// place, provided it begins just as well with the other text behind it.
proof fn lemma_kept_in_front(
    a: Seq<u8>,
    x: Seq<u8>,
    y: Seq<u8>,
    c: Seq<u8>,
    other: Seq<char>,
    j: int,
)
    requires
        sheet::outside_strings(a, a.len() as int),
        definitions::level(x),
        definitions::level(y),
        0 <= j < a.len(),
        block::defines_at(a + x + c, other, j),
        block::begins_definition(a + y + c, other, j),
    ensures
        block::defines_at(a + y + c, other, j),
        sheet::reading(a + y + c, j) == sheet::reading(a + x + c, j),
        !stands_around(a + x + c, j, a.len() as int) ==> node_text(a + y + c, j) == node_text(
            a + x + c,
            j,
        ),
{
    let (t, u) = (a + x + c, a + y + c);
    assert(t == a + (x + c) && u == a + (y + c));
    assert(t[j] == a[j]);
    definitions::lemma_reading_front(a, x + c, j);
    definitions::lemma_reading_front(a, y + c, j);
    definitions::lemma_swap(a, y, x, c, j);
    definitions::lemma_close_front(a, x + c, j);
    definitions::lemma_close_front(a, y + c, j);
    if !stands_around(t, j, a.len() as int) {
        let close = sheet::node_close(t, j)->0;
        assert(t.subrange(j, close + 1) == u.subrange(j, close + 1));
    }
}

/// A definition behind level text stays when other level text takes its place.
proof fn lemma_kept_behind(
    a: Seq<u8>,
    x: Seq<u8>,
    y: Seq<u8>,
    c: Seq<u8>,
    other: Seq<char>,
    k: int,
)
    requires
        sheet::outside_strings(a, a.len() as int),
        definitions::level(x),
        definitions::level(y),
        k >= 0,
        block::defines_at(a + x + c, other, a.len() + x.len() + k),
    ensures
        block::defines_at(a + y + c, other, a.len() + y.len() + k),
        sheet::reading(a + y + c, a.len() + y.len() + k) == sheet::reading(
            a + x + c,
            a.len() + x.len() + k,
        ),
        node_text(a + y + c, a.len() + y.len() + k) == node_text(
            a + x + c,
            a.len() + x.len() + k,
        ),
{
    let (t, u) = (a + x + c, a + y + c);
    let (m, n) = (a.len() + x.len(), a.len() + y.len());
    assert(c.take(0) == Seq::<u8>::empty());
    assert(a.take(a.len() as int) == a);
    definitions::lemma_reading_behind(a, x, c, 0);
    definitions::lemma_reading_behind(a, y, c, 0);
    definitions::lemma_reading_behind(a, x, c, k);
    definitions::lemma_reading_behind(a, y, c, k);
    assert(t.skip(m as int) == c && u.skip(n as int) == c);
    assert(sheet::outside_strings(t, m as int) && sheet::outside_strings(u, n as int));
    definitions::lemma_defines_rest(t, other, m as int, k);
    definitions::lemma_defines_rest(u, other, n as int, k);
    definitions::lemma_close_rest(t, m as int, k);
    definitions::lemma_close_rest(u, n as int, k);
    let close = sheet::node_close(c, k)->0;
    assert(t.subrange(m + k, m + close + 1) == c.subrange(k, close + 1));
    assert(u.subrange(n + k, n + close + 1) == c.subrange(k, close + 1));
}

/// `y`, a node behind `lead` bytes of white space, can take the place of `x`
/// behind `a`, and the other way round: `x` is a node too, or `a` ends a node.
spec fn exchange(a: Seq<u8>, x: Seq<u8>, y: Seq<u8>, lead: int) -> bool {
    &&& sheet::outside_strings(a, a.len() as int)
    &&& definitions::level(x)
    &&& definitions::level(y)
    &&& 0 <= lead < y.len()
    &&& forall|k: int| 0 <= k < lead ==> block::is_blank_byte(#[trigger] y[k])
    &&& y[lead] == sheet::OPEN
    &&& x.len() > 0 && x[0] == sheet::OPEN && lead == 0 || a.len() > 0 && a.last() == sheet::CLOSE
}

/// What an edit comes to where the sheet defines the alias once or not at all:
/// one piece of level text takes the place of another.
proof fn lemma_single_edit(
    t: Seq<u8>,
    name: Seq<char>,
    members: Seq<Seq<char>>,
    after: Seq<u8>,
    action: block::AliasAction,
) -> (pieces: (Seq<u8>, Seq<u8>, Seq<u8>, int, Seq<u8>))
    requires
        block::edited(t, name, members) == Some((after, action)),
        block::writable(name, members),
        forall|i: int| #[trigger]
            block::defines_at(t, name, i) ==> i == block_laws::place_of(t, name),
        block::alias_span(t, name) is None ==> {
            let at = block_laws::place_of(t, name);
            at > 0 && t[at - 1] == sheet::CLOSE
        },
    ensures
        ({
            let (a, x, y, lead, c) = pieces;
            &&& t == a + x + c
            &&& after == a + y + c
            &&& a.len() == block_laws::place_of(t, name)
            &&& exchange(a, x, y, lead)
            &&& y.skip(lead) == encode_utf8(
                block::alias_block(name, members, block::indentation(t)),
            )
            &&& match block::alias_span(t, name) {
                Some((start, end)) => x.len() == end - start && block::defines_at(t, name, start),
                None => x.len() == 0,
            }
        }),
{
    let indent = block::indentation(t);
    let b = encode_utf8(block::alias_block(name, members, indent));
    let n = t.len() as int;
    block::lemma_alias_span(t, name);
    sheet::lemma_insert_offset(t);
    block_laws::lemma_block_is_level(name, members, indent);
    match block::alias_span(t, name) {
        Some((start, end)) => {
            let (a, x, c) = (t.subrange(0, start), t.subrange(start, end), t.subrange(end, n));
            block_laws::lemma_front_of_first(t, name, start);
            sheet::lemma_behind_node(t, start);
            sheet::lemma_node_close(t, start, end - 1);
            assert forall|i: int| !#[trigger] block::defines_at(c, name, i) by {
                if block::defines_at(c, name, i) {
                    assert(t.skip(end) == c);
                    definitions::lemma_defines_rest(t, name, end, i);
                    assert(block::defines_at(t, name, end + i));
                }
            }
            definitions::lemma_stripped_clean(c, name);
            definitions::lemma_node_is_level(t, start, end - 1);
            assert(a.take(start) == t.take(start));
            assert(t == a + x + c);
            assert(b.skip(0) == b);
            assert(x[0] == t[start]);
            (a, x, b, 0, c)
        },
        None => {
            let at = sheet::insert_offset(t)->0;
            let (a, c) = (t.subrange(0, at), t.subrange(at, n));
            let none = Seq::<u8>::empty();
            let lead = encode_utf8("\n"@ + indent);
            block_laws::lemma_lead(indent);
            definitions::lemma_level_concat(lead, b);
            definitions::lemma_none_is_level();
            assert(a.take(at) == t.take(at));
            assert(t == a + none + c);
            assert(after == a + (lead + b) + c);
            assert((lead + b).skip(lead.len() as int) == b);
            assert(a.last() == t[at - 1]);
            (a, none, lead + b, lead.len() as int, c)
        },
    }
}

/// Behind `a` a definition begins with the one text just where it does with the
/// other.
#[verifier::spinoff_prover]
proof fn lemma_begins_both_ways(
    a: Seq<u8>,
    x: Seq<u8>,
    y: Seq<u8>,
    lead: int,
    c: Seq<u8>,
    other: Seq<char>,
    j: int,
)
    requires
        exchange(a, x, y, lead),
        block::quotable(other),
        0 <= j < a.len(),
        sheet::outside_strings(a, j),
        a[j] == sheet::OPEN,
    ensures
        block::begins_definition(a + x + c, other, j) <==> block::begins_definition(
            a + y + c,
            other,
            j,
        ),
{
    assert(a + x + c == a + (x + c) && a + y + c == a + (y + c));
    assert forall|k: int| 0 <= k < lead implies block::is_blank_byte(#[trigger] (y + c)[k]) by {
        assert((y + c)[k] == y[k]);
    }
    if a.last() == sheet::CLOSE {
        let p = a.len() - 1;
        definitions::lemma_outside_before_close(a, p);
        if block::begins_definition(a + x + c, other, j) {
            definitions::lemma_begins_whatever_follows(a, x + c, y + c, other, j, p);
        }
        if block::begins_definition(a + y + c, other, j) {
            definitions::lemma_begins_whatever_follows(a, y + c, x + c, other, j, p);
        }
    } else {
        if block::begins_definition(a + x + c, other, j) {
            definitions::lemma_begins_in_front(a, y + c, x + c, 0, other, j);
        }
        if block::begins_definition(a + y + c, other, j) {
            definitions::lemma_begins_in_front(a, x + c, y + c, 0, other, j);
        }
    }
}

/// A definition of another alias, before the exchange, is there after it.
#[verifier::spinoff_prover]
proof fn lemma_kept(
    a: Seq<u8>,
    x: Seq<u8>,
    y: Seq<u8>,
    lead: int,
    c: Seq<u8>,
    other: Seq<char>,
    i: int,
)
    requires
        exchange(a, x, y, lead),
        block::quotable(other),
        block::defines_at(a + x + c, other, i),
        i < a.len() || i >= a.len() + x.len(),
    ensures
        ({
            let j = moved(i, a.len() as int, y.len() - x.len());
            &&& block::defines_at(a + y + c, other, j)
            &&& sheet::reading(a + y + c, j) == sheet::reading(a + x + c, i)
            &&& !stands_around(a + x + c, i, a.len() as int) ==> node_text(a + y + c, j)
                == node_text(a + x + c, i)
        }),
{
    if i < a.len() {
        assert(a + x + c == a + (x + c));
        definitions::lemma_reading_front(a, x + c, i);
        lemma_begins_both_ways(a, x, y, lead, c, other, i);
        lemma_kept_in_front(a, x, y, c, other, i);
    } else {
        lemma_kept_behind(a, x, y, c, other, i - a.len() - x.len());
    }
}

/// A definition of another alias, after the exchange, was there before it.
#[verifier::spinoff_prover]
proof fn lemma_kept_back(
    a: Seq<u8>,
    x: Seq<u8>,
    y: Seq<u8>,
    lead: int,
    c: Seq<u8>,
    other: Seq<char>,
    j: int,
) -> (i: int)
    requires
        exchange(a, x, y, lead),
        block::quotable(other),
        block::defines_at(a + y + c, other, j),
        j < a.len() || j >= a.len() + y.len(),
    ensures
        block::defines_at(a + x + c, other, i),
        j == moved(i, a.len() as int, y.len() - x.len()),
{
    if j < a.len() {
        assert(a + y + c == a + (y + c));
        definitions::lemma_reading_front(a, y + c, j);
        lemma_begins_both_ways(a, x, y, lead, c, other, j);
        lemma_kept_in_front(a, y, x, c, other, j);
        j
    } else {
        lemma_kept_behind(a, y, x, c, other, j - a.len() - y.len());
        j - y.len() + x.len()
    }
}

/// A written block defines no other alias.
#[verifier::spinoff_prover]
proof fn lemma_not_in_block(
    a: Seq<u8>,
    y: Seq<u8>,
    lead: int,
    c: Seq<u8>,
    name: Seq<char>,
    members: Seq<Seq<char>>,
    indent: Seq<char>,
    other: Seq<char>,
    j: int,
)
    requires
        block::writable(name, members),
        block_reading::is_indent(indent),
        block::quotable(other),
        other != name,
        sheet::outside_strings(a, a.len() as int),
        0 <= lead < y.len(),
        forall|k: int| 0 <= k < lead ==> block::is_blank_byte(#[trigger] y[k]),
        y.skip(lead) == encode_utf8(block::alias_block(name, members, indent)),
        a.len() <= j < a.len() + y.len(),
    ensures
        !block::defines_at(a + y + c, other, j),
{
    let after = a + y + c;
    let b = y.skip(lead);
    let front = a + y.take(lead);
    let n = front.len() as int;
    assert(after == front + b + c);
    if block::defines_at(after, other, j) {
        if j < n {
            assert(after[j] == y[j - a.len()]);
        } else {
            assert(sheet::outside_strings(front, n)) by {
                definitions::lemma_reading_front(a, y.take(lead), a.len() as int);
                definitions::lemma_outside_run(front, a.len() as int, n);
            }
            if j > n {
                block_laws::lemma_nothing_inside(front, name, members, indent, c, other, j - n);
            } else {
                block_laws::lemma_block_defines(front, name, members, indent, c);
                lemma_one_name(after, name, other, j);
            }
        }
    }
}

/// Writing one alias keeps the definitions of every other: each is there before
/// and after, as deep, in the same order and, unless the alias is written inside
/// it, byte for byte the same. That holds of an addition behind a parenthesis, as behind
/// the `lib_symbols` node, and of a replacement of the one definition there is,
/// provided the other alias is not defined inside of that.
#[verifier::spinoff_prover]
pub proof fn law_other_aliases_are_kept(
    t: Seq<u8>,
    name: Seq<char>,
    members: Seq<Seq<char>>,
    after: Seq<u8>,
    action: block::AliasAction,
    other: Seq<char>,
)
    requires
        block::edited(t, name, members) == Some((after, action)),
        block::writable(name, members),
        block::quotable(other),
        other != name,
        forall|i: int| #[trigger]
            block::defines_at(t, name, i) ==> i == block_laws::place_of(t, name),
        match block::alias_span(t, name) {
            Some((start, end)) => forall|i: int|
                start < i < end ==> !#[trigger] block::defines_at(t, other, i),
            None => {
                let at = block_laws::place_of(t, name);
                at > 0 && t[at - 1] == sheet::CLOSE
            },
        },
    ensures
        ({
            let place = block_laws::place_of(t, name);
            let by = after.len() - t.len();
            &&& forall|i: int| #[trigger]
                block::defines_at(t, other, i) ==> {
                    let j = moved(i, place, by);
                    &&& block::defines_at(after, other, j)
                    &&& sheet::reading(after, j) == sheet::reading(t, i)
                    &&& !stands_around(t, i, place) ==> node_text(after, j) == node_text(t, i)
                }
            &&& forall|j: int| #[trigger]
                block::defines_at(after, other, j) ==> exists|i: int|
                    j == moved(i, place, by) && #[trigger] block::defines_at(t, other, i)
        }),
{
    let (a, x, y, lead, c) = lemma_single_edit(t, name, members, after, action);
    let indent = block::indentation(t);
    let place = a.len() as int;
    let by = after.len() - t.len();
    assert forall|i: int| #[trigger] block::defines_at(t, other, i) implies {
        let j = moved(i, place, by);
        &&& block::defines_at(after, other, j)
        &&& sheet::reading(after, j) == sheet::reading(t, i)
        &&& !stands_around(t, i, place) ==> node_text(after, j) == node_text(t, i)
    } by {
        if i == place && x.len() > 0 {
            lemma_one_name(t, name, other, i);
        }
        lemma_kept(a, x, y, lead, c, other, i);
    }
    assert forall|j: int| #[trigger] block::defines_at(after, other, j) implies exists|i: int|
        j == moved(i, place, by) && #[trigger] block::defines_at(t, other, i) by {
        if place <= j < place + y.len() {
            lemma_not_in_block(a, y, lead, c, name, members, indent, other, j);
        } else {
            let i = lemma_kept_back(a, x, y, lead, c, other, j);
            assert(block::defines_at(t, other, i));
        }
    }
}

// ---------------------------------------------------------------------------
// Definitions that are taken out

/// Taking out the bytes from `start` to `end` runs no two words into one.
pub open spec fn cuts_cleanly(t: Seq<u8>, start: int, end: int) -> bool {
    end == t.len() || block::ends_word(t[end]) || start > 0 && t[start - 1] == sheet::CLOSE
}

/// Where the offset `i` goes when the definitions of `name` are taken out of `t`.
/// It has no place where a node that is taken out stands around it, or where two
/// words run into one. The offset may lie outside of `t`, which is then a part of
/// a text.
pub open spec fn kept_place(t: Seq<u8>, name: Seq<char>, i: int) -> Option<int>
    decreases t.len(),
{
    match block::first_span(t, name) {
        Some((start, end)) => {
            proof {
                block::lemma_first_span(t, name);
            }
            if start <= i < end || !cuts_cleanly(t, start, end) {
                None
            } else {
                kept_place(
                    t.subrange(0, start) + t.subrange(end, t.len() as int),
                    name,
                    moved(i, start, start - end),
                )
            }
        },
        None => Some(i),
    }
}

/// None of the definitions of `name` that are taken out of `t` stands inside the
/// `len` bytes at `i`.
pub open spec fn kept_whole(t: Seq<u8>, name: Seq<char>, i: int, len: nat) -> bool
    decreases t.len(),
{
    match block::first_span(t, name) {
        Some((start, end)) => {
            proof {
                block::lemma_first_span(t, name);
            }
            &&& !(i < start < i + len)
            &&& kept_whole(
                t.subrange(0, start) + t.subrange(end, t.len() as int),
                name,
                moved(i, start, start - end),
                len,
            )
        },
        None => true,
    }
}

/// Taking out one node keeps the definitions that do not stand in it.
#[verifier::spinoff_prover]
proof fn lemma_cut(a: Seq<u8>, x: Seq<u8>, c: Seq<u8>, other: Seq<char>, i: int)
    requires
        sheet::outside_strings(a, a.len() as int),
        definitions::level(x),
        x.len() > 0 && x[0] == sheet::OPEN,
        c.len() == 0 || block::ends_word(c[0]) || a.len() > 0 && a.last() == sheet::CLOSE,
        block::quotable(other),
        block::defines_at(a + x + c, other, i),
        i < a.len() || i >= a.len() + x.len(),
    ensures
        block::defines_at(a + c, other, moved(i, a.len() as int, -x.len())),
        sheet::reading(a + c, moved(i, a.len() as int, -x.len())) == sheet::reading(a + x + c, i),
        !stands_around(a + x + c, i, a.len() as int) ==> node_text(
            a + c,
            moved(i, a.len() as int, -x.len()),
        ) == node_text(a + x + c, i),
{
    let none = Seq::<u8>::empty();
    definitions::lemma_none_is_level();
    assert(a + none + c == a + c);
    if i < a.len() {
        assert(a + x + c == a + (x + c));
        definitions::lemma_reading_front(a, x + c, i);
        definitions::lemma_begins_in_front(a, c, x + c, 0, other, i);
        lemma_kept_in_front(a, x, none, c, other, i);
    } else {
        lemma_kept_behind(a, x, none, c, other, i - a.len() - x.len());
    }
}

/// The bytes of a node are as many as it spans.
proof fn lemma_node_text(t: Seq<u8>, i: int)
    requires
        sheet::node_close(t, i) is Some,
    ensures
        node_text(t, i).len() == sheet::node_close(t, i)->0 + 1 - i,
{
    let close = sheet::node_close(t, i)->0;
    assert(sheet::closes_node(t, i, close));
}

/// Taking a node out of a part of a text keeps the definitions in the text that
/// do not stand in it.
#[verifier::spinoff_prover]
proof fn lemma_cut_of_part(
    p: Seq<u8>,
    u: Seq<u8>,
    c: Seq<u8>,
    start: int,
    end: int,
    other: Seq<char>,
    i: int,
)
    requires
        sheet::outside_strings(p, p.len() as int),
        c.len() == 0 || block::ends_word(c[0]),
        block::quotable(other),
        block::defines_at(p + u + c, other, i),
        sheet::outside_strings(u, start),
        sheet::closes_node(u, start, end - 1),
        cuts_cleanly(u, start, end),
        !(start <= i - p.len() < end),
    ensures
        ({
            let v = p + (u.subrange(0, start) + u.subrange(end, u.len() as int)) + c;
            let j = p.len() + moved(i - p.len(), start, start - end);
            let len = node_text(p + u + c, i).len();
            &&& block::defines_at(v, other, j)
            &&& sheet::reading(v, j) == sheet::reading(p + u + c, i)
            &&& !(i - p.len() < start < i - p.len() + len) ==> node_text(v, j) == node_text(
                p + u + c,
                i,
            )
        }),
{
    let (g, x, h) = (
        u.subrange(0, start),
        u.subrange(start, end),
        u.subrange(end, u.len() as int),
    );
    let (t, a, r) = (p + u + c, p + g, h + c);
    assert(sheet::outside_strings(a, a.len() as int)) by {
        definitions::lemma_outside_concat(p, u, start);
        assert((p + u).take(p.len() + start) == a.take(a.len() as int));
    }
    assert(definitions::level(x)) by {
        definitions::lemma_node_is_level(u, start, end - 1);
    }
    assert(x.len() > 0 && x[0] == sheet::OPEN) by {
        sheet::lemma_close_is_parenthesis(u, start, end - 1);
        assert(x[0] == u[start]);
    }
    assert(t =~= a + x + r);
    assert(a + r =~= p + (g + h) + c);
    assert(r.len() == 0 || block::ends_word(r[0]) || a.len() > 0 && a.last() == sheet::CLOSE) by {
        assert(h.len() > 0 ==> r[0] == u[end]);
        assert(h.len() == 0 ==> r == c);
        assert(start > 0 ==> a.last() == u[start - 1]);
    }
    lemma_cut(a, x, r, other, i);
    lemma_node_text(t, i);
}

/// Taking the definitions of an alias out of a part of a text keeps the
/// definitions of another in the text.
#[verifier::spinoff_prover]
proof fn lemma_strip_keeps(
    p: Seq<u8>,
    u: Seq<u8>,
    c: Seq<u8>,
    name: Seq<char>,
    other: Seq<char>,
    i: int,
)
    requires
        sheet::outside_strings(p, p.len() as int),
        c.len() == 0 || block::ends_word(c[0]),
        block::quotable(other),
        block::defines_at(p + u + c, other, i),
        kept_place(u, name, i - p.len()) is Some,
    ensures
        ({
            let v = p + block::stripped(u, name) + c;
            let j = p.len() + kept_place(u, name, i - p.len())->0;
            &&& block::defines_at(v, other, j)
            &&& sheet::reading(v, j) == sheet::reading(p + u + c, i)
            &&& kept_whole(u, name, i - p.len(), node_text(p + u + c, i).len()) ==> node_text(v, j)
                == node_text(p + u + c, i)
        }),
    decreases u.len(),
{
    block::lemma_first_span(u, name);
    if let Some((start, end)) = block::first_span(u, name) {
        let less = u.subrange(0, start) + u.subrange(end, u.len() as int);
        lemma_cut_of_part(p, u, c, start, end, other, i);
        lemma_strip_keeps(
            p,
            less,
            c,
            name,
            other,
            p.len() + moved(i - p.len(), start, start - end),
        );
        assert(block::stripped(u, name) == block::stripped(less, name));
    } else {
        assert(block::stripped(u, name) == u);
    }
}

/// The same of the first part of a text, and with a word ending behind it.
proof fn lemma_strip_front(u: Seq<u8>, c: Seq<u8>, name: Seq<char>, other: Seq<char>, i: int)
    requires
        c.len() > 0 && block::ends_word(c[0]),
        block::quotable(other),
        block::defines_at(u + c, other, i),
        kept_place(u, name, i) is Some,
    ensures
        ({
            let v = block::stripped(u, name) + c;
            let j = kept_place(u, name, i)->0;
            &&& block::defines_at(v, other, j)
            &&& sheet::reading(v, j) == sheet::reading(u + c, i)
            &&& kept_whole(u, name, i, node_text(u + c, i).len()) ==> node_text(v, j) == node_text(
                u + c,
                i,
            )
        }),
{
    let none = Seq::<u8>::empty();
    assert(none.take(0) == none);
    assert(none + u + c == u + c);
    assert(none + block::stripped(u, name) + c == block::stripped(u, name) + c);
    lemma_strip_keeps(none, u, c, name, other, i);
}

/// The same of the last part of a text, behind a node.
proof fn lemma_strip_back(
    f: Seq<u8>,
    b: Seq<u8>,
    u: Seq<u8>,
    name: Seq<char>,
    other: Seq<char>,
    i: int,
)
    requires
        sheet::outside_strings(f, f.len() as int),
        definitions::level(b),
        block::quotable(other),
        block::defines_at(f + b + u, other, i),
        kept_place(u, name, i - f.len() - b.len()) is Some,
    ensures
        ({
            let v = f + b + block::stripped(u, name);
            let k = i - f.len() - b.len();
            let j = f.len() + b.len() + kept_place(u, name, k)->0;
            &&& block::defines_at(v, other, j)
            &&& sheet::reading(v, j) == sheet::reading(f + b + u, i)
            &&& kept_whole(u, name, k, node_text(f + b + u, i).len()) ==> node_text(v, j)
                == node_text(f + b + u, i)
        }),
{
    let none = Seq::<u8>::empty();
    let p = f + b;
    assert(none.take(0) == none);
    definitions::lemma_reading_behind(f, b, none, 0);
    assert(p + none == p);
    assert(p.take(p.len() as int) == p);
    assert(f.take(f.len() as int) == f);
    assert(p + u + none == p + u);
    assert(p + block::stripped(u, name) + none == p + block::stripped(u, name));
    lemma_strip_keeps(p, u, none, name, other, i);
}

/// What stands behind a text goes behind what is left of it, as far as it stood,
/// and what stands in it stays in it.
proof fn lemma_kept_range(t: Seq<u8>, name: Seq<char>, n: int, i: int)
    requires
        n == t.len(),
        kept_place(t, name, i) is Some,
    ensures
        i >= n ==> kept_place(t, name, i)->0 == block::stripped(t, name).len() + (i - n),
        i < n ==> kept_place(t, name, i)->0 < block::stripped(t, name).len(),
    decreases t.len(),
{
    block::lemma_first_span(t, name);
    if let Some((start, end)) = block::first_span(t, name) {
        let u = t.subrange(0, start) + t.subrange(end, t.len() as int);
        lemma_kept_range(u, name, u.len() as int, moved(i, start, start - end));
        assert(block::stripped(t, name) == block::stripped(u, name));
    }
}

/// Text is stripped on both sides of a node that another one takes the place of.
#[verifier::spinoff_prover]
proof fn lemma_replacement_keeps(
    front: Seq<u8>,
    x: Seq<u8>,
    b: Seq<u8>,
    back: Seq<u8>,
    name: Seq<char>,
    other: Seq<char>,
    i: int,
)
    requires
        sheet::outside_strings(front, front.len() as int),
        definitions::level(x),
        x.len() > 0 && x[0] == sheet::OPEN,
        definitions::level(b),
        b.len() > 0 && b[0] == sheet::OPEN,
        block::quotable(other),
        block::defines_at(front + x + back, other, i),
        !(front.len() <= i < front.len() + x.len()),
        kept_place(front, name, i) is Some,
        ({
            let at = block::stripped(front, name).len();
            let k = kept_place(front, name, i)->0;
            kept_place(back, name, moved(k, at as int, b.len() - x.len()) - at - b.len()) is Some
        }),
    ensures
        ({
            let at = block::stripped(front, name).len();
            let k = kept_place(front, name, i)->0;
            let m = moved(k, at as int, b.len() - x.len()) - at - b.len();
            let j = at + b.len() + kept_place(back, name, m)->0;
            let t = front + x + back;
            let after = block::stripped(front, name) + b + block::stripped(back, name);
            let size = node_text(t, i).len();
            &&& block::defines_at(after, other, j)
            &&& sheet::reading(after, j) == sheet::reading(t, i)
            &&& kept_whole(front, name, i, size) && !(k < at < k + size) && kept_whole(
                back,
                name,
                m,
                size,
            ) ==> node_text(after, j) == node_text(t, i)
        }),
{
    let f = block::stripped(front, name);
    let k = kept_place(front, name, i)->0;
    let t = front + x + back;
    assert(sheet::outside_strings(f, f.len() as int)) by {
        definitions::lemma_stripped_reading(front, name);
        assert(f.take(f.len() as int) == f);
        assert(front.take(front.len() as int) == front);
    }
    assert(front + (x + back) =~= t);
    assert((x + back)[0] == x[0]);
    lemma_strip_front(front, x + back, name, other, i);
    assert(f + (x + back) =~= f + x + back);
    lemma_kept_range(front, name, front.len() as int, i);
    lemma_kept(f, x, b, 0, back, other, k);
    lemma_node_text(f + x + back, k);
    lemma_strip_back(f, b, back, name, other, moved(k, f.len() as int, b.len() - x.len()));
}

/// Where a definition at `i` goes when the definition of `name` from `start` to
/// `end` is replaced by `len` bytes, and the others are taken out.
pub open spec fn place_in_replacement(
    t: Seq<u8>,
    name: Seq<char>,
    start: int,
    end: int,
    len: nat,
    i: int,
) -> Option<int> {
    let (front, back) = (t.subrange(0, start), t.subrange(end, t.len() as int));
    let at = block::stripped(front, name).len();
    match kept_place(front, name, i) {
        Some(k) if !(start <= i < end) => match kept_place(
            back,
            name,
            moved(k, at as int, len - (end - start)) - at - len,
        ) {
            Some(j) => Some(at + len + j),
            None => None,
        },
        _ => None,
    }
}

/// The node at `i` has nothing inside that is replaced or taken out.
pub open spec fn whole_in_replacement(
    t: Seq<u8>,
    name: Seq<char>,
    start: int,
    end: int,
    len: nat,
    i: int,
) -> bool {
    let (front, back) = (t.subrange(0, start), t.subrange(end, t.len() as int));
    let at = block::stripped(front, name).len();
    let size = node_text(t, i).len();
    let k = kept_place(front, name, i)->0;
    &&& kept_whole(front, name, i, size)
    &&& !(k < at < k + size)
    &&& kept_whole(back, name, moved(k, at as int, len - (end - start)) - at - len, size)
}

/// Replacing an alias keeps the definitions of the others also where it was
/// defined more than once: each that stands in no node that is replaced or taken
/// out, as deep, and byte for byte if none of these stands in it. Words that a removal runs
/// into one are left out.
#[verifier::spinoff_prover]
pub proof fn law_replacement_keeps_others(
    t: Seq<u8>,
    name: Seq<char>,
    members: Seq<Seq<char>>,
    after: Seq<u8>,
    start: int,
    end: int,
    other: Seq<char>,
    i: int,
)
    requires
        block::edited(t, name, members) == Some((after, block::AliasAction::Replaced)),
        block::writable(name, members),
        block::alias_span(t, name) == Some((start, end)),
        block::quotable(other),
        block::defines_at(t, other, i),
    ensures
        ({
            let b = encode_utf8(block::alias_block(name, members, block::indentation(t)));
            place_in_replacement(t, name, start, end, b.len(), i) matches Some(j) ==> {
                &&& block::defines_at(after, other, j)
                &&& sheet::reading(after, j) == sheet::reading(t, i)
                &&& whole_in_replacement(t, name, start, end, b.len(), i) ==> node_text(after, j)
                    == node_text(t, i)
            }
        }),
{
    let indent = block::indentation(t);
    let b = encode_utf8(block::alias_block(name, members, indent));
    if place_in_replacement(t, name, start, end, b.len(), i) is Some {
        let (front, x, back) = (
            t.subrange(0, start),
            t.subrange(start, end),
            t.subrange(end, t.len() as int),
        );
        block::lemma_alias_span(t, name);
        block_laws::lemma_block_is_level(name, members, indent);
        definitions::lemma_node_is_level(t, start, end - 1);
        assert(x[0] == t[start]);
        assert(front.take(start) == t.take(start));
        assert(t == front + x + back);
        lemma_replacement_keeps(front, x, b, back, name, other, i);
    }
}

} // verus!
