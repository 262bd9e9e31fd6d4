//! What an edit does to the definitions of a sheet that it does not touch: a
//! definition is seen the same way wherever it stands, and whatever whole nodes
//! are put in or taken out behind it.

use crate::block;
use crate::block_reading;
use crate::sheet;
use crate::text;
use vstd::prelude::*;
use vstd::string::*;
use vstd::utf8::*;

verus! {

// ---------------------------------------------------------------------------
// Whole nodes

/// Read from outside quoted strings, `b` ends where it began, and never leaves a
/// node that it did not enter.
pub open spec fn level(b: Seq<u8>) -> bool {
    &&& sheet::scan(sheet::fresh(), b) == sheet::fresh()
    &&& forall|k: int| 0 <= k <= b.len() ==> #[trigger] sheet::reading(b, k).depth >= 0
}

/// A node is level.
pub proof fn lemma_node_is_level(t: Seq<u8>, start: int, i: int)
    requires
        sheet::closes_node(t, start, i),
    ensures
        level(t.subrange(start, i + 1)),
{
    let b = t.subrange(start, i + 1);
    sheet::lemma_close_is_parenthesis(t, start, i);
    assert forall|k: int| 0 <= k <= b.len() implies #[trigger] sheet::reading(b, k).depth >= 0 by {
        assert(b.take(k) == t.subrange(start, start + k));
        if 0 < k < b.len() {
            assert(sheet::scan(sheet::fresh(), t.subrange(start, start + k)).depth > 0);
        }
    }
    assert(b.drop_last() == t.subrange(start, i));
    assert(sheet::scan(sheet::fresh(), t.subrange(start, i)).depth > 0);
    sheet::lemma_scan_unquoted(sheet::fresh(), b);
}

/// No text is level.
pub proof fn lemma_none_is_level()
    ensures
        level(Seq::<u8>::empty()),
{
    let none = Seq::<u8>::empty();
    assert forall|k: int| 0 <= k <= none.len() implies #[trigger] sheet::reading(none, k).depth
        >= 0 by {
        assert(none.take(k) == none);
    }
}

pub proof fn lemma_level_concat(a: Seq<u8>, b: Seq<u8>)
    requires
        level(a),
        level(b),
    ensures
        level(a + b),
{
    let c = a + b;
    sheet::lemma_scan_concat(sheet::fresh(), a, b);
    assert forall|k: int| 0 <= k <= c.len() implies #[trigger] sheet::reading(c, k).depth >= 0 by {
        if k <= a.len() {
            assert(c.take(k) == a.take(k));
            assert(sheet::reading(a, k).depth >= 0);
        } else {
            let m = k - a.len();
            assert(c.take(k) == a + b.take(m));
            sheet::lemma_scan_concat(sheet::fresh(), a, b.take(m));
            assert(sheet::reading(b, m).depth >= 0);
        }
    }
}

/// A node closes if and only if the reader comes back out of it.
proof fn lemma_closes(t: Seq<u8>, i: int)
    requires
        sheet::outside_strings(t, i),
        i < t.len(),
        t[i] == sheet::OPEN,
    ensures
        sheet::node_close(t, i) is Some <==> exists|k: int|
            i < k <= t.len() && #[trigger] sheet::reading(t, k).depth <= sheet::reading(t, i).depth,
{
    let base = sheet::reading(t, i).depth;
    if let Some(c) = sheet::node_close(t, i) {
        sheet::lemma_behind_node(t, i);
        assert(sheet::reading(t, c + 1).depth <= base);
    }
    if exists|k: int| i < k <= t.len() && #[trigger] sheet::reading(t, k).depth <= base {
        let k = choose|k: int|
            i < k <= t.len() && #[trigger] sheet::reading(t, k).depth <= base;
        let p = |k: int| k <= t.len() && sheet::reading(t, k).depth <= base;
        assert(p(k));
        sheet::lemma_least_exists(p, i + 1, k);
        let c = sheet::least(p, i + 1)->0;
        assert(p(c));
        assert forall|j: int| i < j <= c - 1 implies #[trigger] sheet::scan(
            sheet::fresh(),
            t.subrange(i, j),
        ).depth > 0 by {
            assert(!p(j));
            sheet::lemma_reading_rest(t, i, j - i);
        }
        sheet::lemma_reading_rest(t, i, c - i);
        sheet::lemma_reading_next(t, c - 1);
        sheet::lemma_reading_next(t, i);
        assert(c - 1 > i ==> !p(c - 1));
        assert(sheet::closes_node(t, i, c - 1));
        sheet::lemma_node_close(t, i, c - 1);
    }
}

/// Putting level text in the place of level text closes no node in front of it
/// that did not close before.
pub proof fn lemma_swap(a: Seq<u8>, x: Seq<u8>, y: Seq<u8>, c: Seq<u8>, j: int)
    requires
        sheet::outside_strings(a, a.len() as int),
        level(x),
        level(y),
        0 <= j < a.len(),
        a[j] == sheet::OPEN,
        sheet::outside_strings(a, j),
        sheet::node_close(a + y + c, j) is Some,
    ensures
        sheet::node_close(a + x + c, j) is Some,
{
    let (t, u) = (a + x + c, a + y + c);
    let n = a.len() as int;
    let base = sheet::reading(a, j).depth;
    lemma_reading_front(a, x + c, j);
    lemma_reading_front(a, y + c, j);
    assert(t == a + (x + c) && u == a + (y + c));
    lemma_closes(u, j);
    lemma_closes(t, j);
    let k = choose|k: int| j < k <= u.len() && #[trigger] sheet::reading(u, k).depth <= base;
    if k <= n {
        lemma_reading_front(a, x + c, k);
        lemma_reading_front(a, y + c, k);
        assert(sheet::reading(t, k).depth <= base);
    } else {
        lemma_reading_front(a, x + c, n);
        lemma_reading_front(a, y + c, n);
        if k <= n + y.len() {
            sheet::lemma_reading_rest(u, n, k - n);
            assert(u.skip(n).take(k - n) == y.take(k - n));
            assert(sheet::reading(y, k - n).depth >= 0);
            assert(sheet::reading(t, n).depth <= base);
        } else {
            let m = k - n - y.len();
            lemma_reading_behind(a, y, c, m);
            lemma_reading_behind(a, x, c, m);
            assert(sheet::reading(t, n + x.len() + m).depth <= base);
        }
    }
}

/// What stands behind `a` does not show in it.
pub proof fn lemma_reading_front(a: Seq<u8>, b: Seq<u8>, k: int)
    requires
        0 <= k <= a.len(),
    ensures
        sheet::reading(a + b, k) == sheet::reading(a, k),
{
    assert((a + b).take(k) == a.take(k));
}

/// Level text does not show behind it.
pub proof fn lemma_reading_behind(a: Seq<u8>, x: Seq<u8>, c: Seq<u8>, m: int)
    requires
        sheet::outside_strings(a, a.len() as int),
        level(x),
        0 <= m <= c.len(),
    ensures
        sheet::reading(a + x + c, a.len() + x.len() + m) == sheet::scan(
            sheet::scan(sheet::fresh(), a),
            c.take(m),
        ),
{
    let t = a + x + c;
    let s = sheet::scan(sheet::fresh(), a);
    assert(a.take(a.len() as int) == a);
    assert(t.take(a.len() + x.len() + m) == a + x + c.take(m));
    sheet::lemma_scan_concat(sheet::fresh(), a + x, c.take(m));
    sheet::lemma_scan_concat(sheet::fresh(), a, x);
    sheet::lemma_scan_unquoted(sheet::fresh(), a);
    sheet::lemma_scan_deeper(s.depth, sheet::fresh(), x);
}

// ---------------------------------------------------------------------------
// The beginning of a definition

proof fn lemma_skip_blank_rest(t: Seq<u8>, a: int, i: int)
    requires
        0 <= a <= t.len(),
        0 <= i,
    ensures
        block::skip_blank(t, a + i) == a + block::skip_blank(t.skip(a), i),
    decreases t.len() - a - i,
{
    if a + i < t.len() {
        assert(t.skip(a)[i] == t[a + i]);
        if block::is_blank_byte(t[a + i]) {
            lemma_skip_blank_rest(t, a, i + 1);
        }
    }
}

proof fn lemma_occurs_rest(t: Seq<u8>, needle: Seq<u8>, a: int, i: int)
    requires
        0 <= a <= t.len(),
        0 <= i,
    ensures
        text::occurs_at(t.skip(a), needle, i) <==> text::occurs_at(t, needle, a + i),
{
    if i + needle.len() <= t.len() - a {
        assert(t.skip(a).subrange(i, i + needle.len()) == t.subrange(a + i, a + i + needle.len()));
    }
}

proof fn lemma_begins_rest(t: Seq<u8>, name: Seq<char>, a: int, i: int)
    requires
        0 <= a <= t.len(),
        0 <= i,
    ensures
        block::begins_definition(t.skip(a), name, i) <==> block::begins_definition(t, name, a + i),
{
    let r = t.skip(a);
    if i < r.len() {
        assert(r[i] == t[a + i]);
        lemma_skip_blank_rest(t, a, i + 1);
        block::lemma_skip_blank(r, i + 1);
        let head = block::skip_blank(r, i + 1);
        lemma_occurs_rest(t, encode_utf8("bus_alias"@), a, head);
        block::lemma_head_length();
        if text::occurs_at(r, encode_utf8("bus_alias"@), head) {
            lemma_skip_blank_rest(t, a, head + 9);
            block::lemma_skip_blank(r, head + 9);
            let k = block::skip_blank(r, head + 9);
            let word = encode_utf8(name);
            lemma_occurs_rest(t, encode_utf8(block::quoted(name)), a, k);
            lemma_occurs_rest(t, word, a, k);
            if k + word.len() < r.len() {
                assert(r[k + word.len()] == t[a + k + word.len()]);
            }
        }
    }
}

/// A node closes the same way in the rest of a text as in the text.
pub proof fn lemma_close_rest(t: Seq<u8>, a: int, i: int)
    requires
        0 <= a <= t.len(),
        0 <= i,
    ensures
        sheet::node_close(t.skip(a), i) is Some <==> sheet::node_close(t, a + i) is Some,
        sheet::node_close(t.skip(a), i) matches Some(c) ==> sheet::node_close(t, a + i) == Some(
            a + c,
        ),
{
    let r = t.skip(a);
    if sheet::node_close(r, i) is Some {
        let c = sheet::node_close(r, i)->0;
        assert(sheet::closes_node(r, i, c));
        assert(r.subrange(i, c + 1) == t.subrange(a + i, a + c + 1));
        assert forall|j: int| a + i < j <= a + c implies #[trigger] sheet::scan(
            sheet::fresh(),
            t.subrange(a + i, j),
        ).depth > 0 by {
            assert(r.subrange(i, j - a) == t.subrange(a + i, j));
            assert(sheet::scan(sheet::fresh(), r.subrange(i, j - a)).depth > 0);
        }
        assert(sheet::closes_node(t, a + i, a + c));
        sheet::lemma_node_close(t, a + i, a + c);
    }
    if sheet::node_close(t, a + i) is Some {
        let c = sheet::node_close(t, a + i)->0;
        assert(sheet::closes_node(t, a + i, c));
        assert(r.subrange(i, c - a + 1) == t.subrange(a + i, c + 1));
        assert forall|j: int| i < j <= c - a implies #[trigger] sheet::scan(
            sheet::fresh(),
            r.subrange(i, j),
        ).depth > 0 by {
            assert(r.subrange(i, j) == t.subrange(a + i, a + j));
            assert(sheet::scan(sheet::fresh(), t.subrange(a + i, a + j)).depth > 0);
        }
        assert(sheet::closes_node(r, i, c - a));
    }
}

/// A definition in the rest of a text is one in the text, and the other way
/// round, if the rest begins outside quoted strings.
pub proof fn lemma_defines_rest(t: Seq<u8>, name: Seq<char>, a: int, i: int)
    requires
        sheet::outside_strings(t, a),
        0 <= i,
    ensures
        block::defines_at(t.skip(a), name, i) <==> block::defines_at(t, name, a + i),
{
    lemma_begins_rest(t, name, a, i);
    lemma_close_rest(t, a, i);
    if i <= t.len() - a {
        sheet::lemma_reading_rest(t, a, i);
    }
}

/// Where the name item of a definition that begins at `i` stands.
spec fn item_start(t: Seq<u8>, i: int) -> int {
    block::skip_blank(t, block::skip_blank(t, i + 1) + 9)
}

/// The offset behind the name of a definition that begins at `i`.
pub closed spec fn item_end(t: Seq<u8>, name: Seq<char>, i: int) -> int {
    let k = item_start(t, i);
    if block::is_quoted_name(t, name, k) {
        k + encode_utf8(block::quoted(name)).len()
    } else {
        k + encode_utf8(name).len()
    }
}

/// White space is skipped up to a byte that is none.
proof fn lemma_skip_blank_stops(t: Seq<u8>, i: int, p: int)
    requires
        0 <= i <= p < t.len(),
        !block::is_blank_byte(t[p]),
    ensures
        i <= block::skip_blank(t, i) <= p,
        !block::is_blank_byte(t[block::skip_blank(t, i)]),
        forall|k: int| i <= k < block::skip_blank(t, i) ==> block::is_blank_byte(#[trigger] t[k]),
    decreases p - i,
{
    if block::is_blank_byte(t[i]) {
        lemma_skip_blank_stops(t, i + 1, p);
    }
}

proof fn lemma_head_bytes()
    ensures
        encode_utf8("bus_alias"@).len() == 9,
        forall|i: int|
            0 <= i < 9 ==> {
                let c = #[trigger] encode_utf8("bus_alias"@)[i];
                !block::ends_word(c) && c != sheet::BACKSLASH
            },
{
    reveal_strlit("bus_alias");
    is_ascii_chars_encode_utf8("bus_alias"@);
    let h = encode_utf8("bus_alias"@);
    assert forall|i: int| 0 <= i < 9 implies {
        let c = #[trigger] h[i];
        !block::ends_word(c) && c != sheet::BACKSLASH
    } by {
        assert("bus_alias"@[i] as u8 == h[i]);
    }
}

/// A run without quotes keeps a reader outside strings.
pub proof fn lemma_outside_run(t: Seq<u8>, i: int, k: int)
    requires
        sheet::outside_strings(t, i),
        i <= k <= t.len(),
        forall|j: int| i <= j < k ==> #[trigger] t[j] != sheet::QUOTE,
    ensures
        sheet::outside_strings(t, k),
    decreases k - i,
{
    if i < k {
        lemma_outside_run(t, i, k - 1);
        sheet::lemma_reading_next(t, k - 1);
        assert(t[k - 1] != sheet::QUOTE);
    }
}

/// A definition names its alias before any further node opens or any node closes.
proof fn lemma_item_before(t: Seq<u8>, name: Seq<char>, j: int, p: int)
    requires
        block::begins_definition(t, name, j),
        sheet::outside_strings(t, j),
        j < p < t.len(),
        t[p] == sheet::OPEN || t[p] == sheet::CLOSE,
        sheet::outside_strings(t, p),
        block::quotable(name),
    ensures
        j < item_start(t, j) < item_end(t, name, j) <= p,
        block::skip_blank(t, j + 1) + 9 <= item_start(t, j),
        j < block::skip_blank(t, j + 1),
        !block::is_blank_byte(t[item_end(t, name, j) - 1]),
        t[item_end(t, name, j) - 1] != sheet::CLOSE,
{
    let h = block::skip_blank(t, j + 1);
    let head = encode_utf8("bus_alias"@);
    lemma_head_bytes();
    lemma_skip_blank_stops(t, j + 1, p);
    assert forall|x: int| 0 <= x < 9 implies #[trigger] t[h + x] == head[x] by {
        assert(t.subrange(h, h + 9)[x] == t[h + x]);
    }
    if h + 9 > p {
        assert(t[h + (p - h)] == head[p - h]);
        assert(false);
    }
    lemma_skip_blank_stops(t, h + 9, p);
    let k = block::skip_blank(t, h + 9);
    let word = encode_utf8(name);
    let in_quotes = encode_utf8(block::quoted(name));
    block_reading::lemma_quoted_bytes(name);
    if block::is_quoted_name(t, name, k) {
        let n = in_quotes.len() as int;
        assert forall|x: int| 0 <= x < n implies #[trigger] t[k + x] == in_quotes[x] by {
            assert(t.subrange(k, k + n)[x] == t[k + x]);
        }
        assert(t[k + 0] == sheet::QUOTE);
        assert(t[k + (n - 1)] == sheet::QUOTE);
        if p < k + n {
            assert(k < p < k + n - 1);
            assert forall|x: int| j <= x < k implies #[trigger] t[x] != sheet::QUOTE by {
                if h <= x < h + 9 {
                    assert(t[h + (x - h)] == head[x - h]);
                }
            }
            lemma_outside_run(t, j, k);
            sheet::lemma_scan_unquoted(sheet::fresh(), t.take(k));
            let q = p - k - 1;
            sheet::lemma_reading_rest(t, k, q + 1);
            assert(t.subrange(k, k + q + 1) == seq![sheet::QUOTE] + word.take(q)) by {
                assert forall|x: int| 0 <= x <= q implies t.subrange(k, k + q + 1)[x] == (
                seq![sheet::QUOTE] + word.take(q))[x] by {
                    assert(t[k + x] == in_quotes[x]);
                }
            }
            let one = seq![sheet::QUOTE];
            sheet::lemma_scan_concat(sheet::fresh(), one, word.take(q));
            assert(one.drop_last() == Seq::<u8>::empty());
            assert(sheet::scan(sheet::fresh(), one.drop_last()) == sheet::fresh());
            assert(sheet::scan(sheet::fresh(), one) == (sheet::Scan {
                depth: 0,
                quoted: true,
                escaped: false,
            }));
            assert(false);
        }
    } else {
        let n = word.len() as int;
        assert forall|x: int| 0 <= x < n implies #[trigger] t[k + x] == word[x] by {
            assert(t.subrange(k, k + n)[x] == t[k + x]);
        }
        assert(t[k + (n - 1)] == word[n - 1]);
        if p < k + n {
            assert(t[k + (p - k)] == word[p - k]);
            assert(false);
        }
    }
}

proof fn lemma_skip_blank_same(t: Seq<u8>, u: Seq<u8>, i: int, p: int)
    requires
        0 <= i <= p < t.len(),
        p < u.len(),
        forall|k: int| i <= k <= p ==> #[trigger] t[k] == u[k],
        !block::is_blank_byte(t[p]),
    ensures
        block::skip_blank(t, i) == block::skip_blank(u, i),
    decreases p - i,
{
    if block::is_blank_byte(t[i]) {
        lemma_skip_blank_same(t, u, i + 1, p);
    }
}

proof fn lemma_occurs_same(t: Seq<u8>, u: Seq<u8>, needle: Seq<u8>, i: int)
    requires
        text::occurs_at(t, needle, i),
        i + needle.len() <= u.len(),
        forall|k: int| i <= k < i + needle.len() ==> #[trigger] t[k] == u[k],
    ensures
        text::occurs_at(u, needle, i),
{
    assert(t.subrange(i, i + needle.len()) == u.subrange(i, i + needle.len()));
}

/// Where the texts agree up to the end of the name, a definition begins in both.
proof fn lemma_begins_same(t: Seq<u8>, u: Seq<u8>, name: Seq<char>, j: int)
    requires
        block::begins_definition(t, name, j),
        ({
            let e = item_end(t, name, j);
            &&& j < block::skip_blank(t, j + 1) <= block::skip_blank(t, j + 1) + 9 <= item_start(
                t,
                j,
            ) < e <= t.len()
            &&& e <= u.len()
            &&& forall|k: int| j <= k < e ==> #[trigger] t[k] == u[k]
            &&& !block::is_blank_byte(t[e - 1])
            &&& e < u.len() ==> block::is_quoted_name(t, name, item_start(t, j))
                || block::ends_word(u[e])
        }),
    ensures
        block::begins_definition(u, name, j),
{
    let e = item_end(t, name, j);
    let h = block::skip_blank(t, j + 1);
    let k = item_start(t, j);
    block::lemma_head_length();
    assert(t[j] == u[j]);
    lemma_skip_blank_same(t, u, j + 1, e - 1);
    lemma_occurs_same(t, u, encode_utf8("bus_alias"@), h);
    lemma_skip_blank_same(t, u, h + 9, e - 1);
    if block::is_quoted_name(t, name, k) {
        lemma_occurs_same(t, u, encode_utf8(block::quoted(name)), k);
    } else {
        lemma_occurs_same(t, u, encode_utf8(name), k);
    }
}

// ---------------------------------------------------------------------------
// No definition in front

/// Text `a` with `x` behind it becomes `a` with `y` behind it, where `y` opens a
/// node behind `lead` bytes of white space. A definition that then begins in
/// `a` began there before.
pub proof fn lemma_begins_in_front(
    a: Seq<u8>,
    x: Seq<u8>,
    y: Seq<u8>,
    lead: int,
    name: Seq<char>,
    j: int,
)
    requires
        sheet::outside_strings(a, a.len() as int),
        block::quotable(name),
        0 <= lead < y.len(),
        forall|k: int| 0 <= k < lead ==> block::is_blank_byte(#[trigger] y[k]),
        y[lead] == sheet::OPEN,
        x.len() > 0 && block::ends_word(x[0]) || a.len() > 0 && a.last() == sheet::CLOSE || x.len()
            == 0,
        0 <= j < a.len(),
        block::begins_definition(a + y, name, j),
        sheet::outside_strings(a, j),
    ensures
        block::begins_definition(a + x, name, j),
{
    let (t, u) = (a + y, a + x);
    let n = a.len() as int;
    let p = n + lead;
    lemma_reading_front(a, y, j);
    lemma_reading_front(a, y, n);
    assert(sheet::outside_strings(t, n));
    assert forall|k: int| n <= k < p implies #[trigger] t[k] != sheet::QUOTE by {
        assert(t[k] == y[k - n]);
    }
    lemma_outside_run(t, n, p);
    lemma_item_before(t, name, j, p);
    let e = item_end(t, name, j);
    if e > n {
        assert(t[e - 1] == y[e - 1 - n]);
        assert(false);
    }
    assert forall|k: int| j <= k < e implies #[trigger] t[k] == u[k] by {}
    if e == n {
        assert(t[e - 1] == a.last());
        if u.len() > n {
            assert(u[n] == x[0]);
        }
    } else {
        assert(t[e] == u[e]);
    }
    lemma_begins_same(t, u, name, j);
}

// ---------------------------------------------------------------------------
// Definitions in a prefix

/// A parenthesis in front of an offset outside quoted strings stands outside
/// them too.
pub proof fn lemma_outside_before_close(t: Seq<u8>, i: int)
    requires
        0 <= i < t.len(),
        t[i] == sheet::CLOSE,
        sheet::outside_strings(t, i + 1),
    ensures
        sheet::outside_strings(t, i),
{
    sheet::lemma_reading_next(t, i);
}

/// What a node reads as does not depend on what follows it.
pub proof fn lemma_close_front(a: Seq<u8>, b: Seq<u8>, j: int)
    requires
        0 <= j < a.len(),
    ensures
        sheet::node_close(a, j) matches Some(c) ==> sheet::node_close(a + b, j) == Some(c) && j < c
            < a.len(),
        sheet::node_close(a + b, j) matches Some(c) ==> c < a.len() ==> sheet::node_close(a, j)
            == Some(c),
{
    let t = a + b;
    if let Some(c) = sheet::node_close(a, j) {
        assert(sheet::closes_node(a, j, c));
        sheet::lemma_close_is_parenthesis(a, j, c);
        assert(t.subrange(j, c + 1) == a.subrange(j, c + 1));
        assert forall|k: int| j < k <= c implies #[trigger] sheet::scan(
            sheet::fresh(),
            t.subrange(j, k),
        ).depth > 0 by {
            assert(t.subrange(j, k) == a.subrange(j, k));
            assert(sheet::scan(sheet::fresh(), a.subrange(j, k)).depth > 0);
        }
        assert(sheet::closes_node(t, j, c));
        sheet::lemma_node_close(t, j, c);
    }
    if let Some(c) = sheet::node_close(t, j) {
        assert(sheet::closes_node(t, j, c));
        if c < a.len() {
            assert(t.subrange(j, c + 1) == a.subrange(j, c + 1));
            assert forall|k: int| j < k <= c implies #[trigger] sheet::scan(
                sheet::fresh(),
                a.subrange(j, k),
            ).depth > 0 by {
                assert(t.subrange(j, k) == a.subrange(j, k));
                assert(sheet::scan(sheet::fresh(), t.subrange(j, k)).depth > 0);
            }
            assert(sheet::closes_node(a, j, c));
            sheet::lemma_node_close(a, j, c);
        }
    }
}

/// Where a definition begins in `a`, one begins there whatever follows `a`, if a
/// parenthesis outside quoted strings stands in `a` behind it.
pub proof fn lemma_begins_whatever_follows(
    a: Seq<u8>,
    b: Seq<u8>,
    c: Seq<u8>,
    name: Seq<char>,
    j: int,
    p: int,
)
    requires
        block::begins_definition(a + b, name, j),
        sheet::outside_strings(a, j),
        block::quotable(name),
        j < p < a.len(),
        a[p] == sheet::OPEN || a[p] == sheet::CLOSE,
        sheet::outside_strings(a, p),
    ensures
        block::begins_definition(a + c, name, j),
{
    let (t, u) = (a + b, a + c);
    lemma_reading_front(a, b, j);
    lemma_reading_front(a, b, p);
    lemma_item_before(t, name, j, p);
    let e = item_end(t, name, j);
    assert forall|k: int| j <= k < e implies #[trigger] t[k] == u[k] by {}
    assert(t[e] == u[e]);
    lemma_begins_same(t, u, name, j);
}

/// A definition in the first part of a text is one in the whole.
pub proof fn lemma_defines_extended(a: Seq<u8>, b: Seq<u8>, name: Seq<char>, j: int)
    requires
        block::defines_at(a, name, j),
        block::quotable(name),
    ensures
        block::defines_at(a + b, name, j),
        sheet::node_close(a + b, j) matches Some(c) && j < c < a.len(),
{
    sheet::lemma_behind_node(a, j);
    let c = sheet::node_close(a, j)->0;
    sheet::lemma_close_is_parenthesis(a, j, c);
    lemma_outside_before_close(a, c);
    let none = Seq::<u8>::empty();
    assert(a + none == a);
    lemma_begins_whatever_follows(a, none, b, name, j, c);
    lemma_close_front(a, b, j);
    lemma_reading_front(a, b, j);
}

/// A definition that opens and closes in front of a further node is one in the
/// text up to there.
pub proof fn lemma_defines_in_front(a: Seq<u8>, b: Seq<u8>, name: Seq<char>, j: int)
    requires
        block::defines_at(a + b, name, j),
        block::quotable(name),
        sheet::outside_strings(a, a.len() as int),
        b.len() > 0 && b[0] == sheet::OPEN,
        j < a.len(),
        sheet::node_close(a + b, j)->0 < a.len(),
    ensures
        block::defines_at(a, name, j),
{
    let none = Seq::<u8>::empty();
    lemma_reading_front(a, b, j);
    lemma_begins_in_front(a, none, b, 0, name, j);
    assert(a + none == a);
    lemma_close_front(a, b, j);
}

// ---------------------------------------------------------------------------
// Taking definitions out

/// A text whose definitions are taken out has none.
pub proof fn lemma_stripped(t: Seq<u8>, name: Seq<char>)
    ensures
        forall|i: int| !#[trigger] block::defines_at(block::stripped(t, name), name, i),
    decreases t.len(),
{
    block::lemma_first_span(t, name);
    if let Some((start, end)) = block::first_span(t, name) {
        let shorter = t.subrange(0, start) + t.subrange(end, t.len() as int);
        lemma_stripped(shorter, name);
        assert(block::stripped(t, name) == block::stripped(shorter, name));
    } else {
        assert(block::stripped(t, name) == t);
    }
}

/// A text without definitions stays as it is.
pub proof fn lemma_stripped_clean(t: Seq<u8>, name: Seq<char>)
    requires
        forall|i: int| !#[trigger] block::defines_at(t, name, i),
    ensures
        block::stripped(t, name) == t,
{
    block::lemma_first_span(t, name);
}

/// Taking definitions out does not show behind them.
pub proof fn lemma_stripped_reading(t: Seq<u8>, name: Seq<char>)
    ensures
        sheet::scan(sheet::fresh(), block::stripped(t, name)) == sheet::scan(sheet::fresh(), t),
    decreases t.len(),
{
    block::lemma_first_span(t, name);
    if let Some((start, end)) = block::first_span(t, name) {
        let (g, x, h) = (
            t.subrange(0, start),
            t.subrange(start, end),
            t.subrange(end, t.len() as int),
        );
        lemma_stripped_reading(g + h, name);
        lemma_node_is_level(t, start, end - 1);
        assert(g.take(start) == t.take(start));
        lemma_reading_behind(g, x, h, h.len() as int);
        assert(h.take(h.len() as int) == h);
        assert(t == g + x + h);
        assert(t.take(t.len() as int) == t);
        sheet::lemma_scan_concat(sheet::fresh(), g, h);
        assert(block::stripped(t, name) == block::stripped(g + h, name));
    } else {
        assert(block::stripped(t, name) == t);
    }
}

/// Taking definitions out closes no node in front of them that did not close
/// before.
pub proof fn lemma_stripped_closes(f: Seq<u8>, c: Seq<u8>, name: Seq<char>, j: int)
    requires
        sheet::outside_strings(f, f.len() as int),
        0 <= j < f.len(),
        f[j] == sheet::OPEN,
        sheet::outside_strings(f, j),
        sheet::node_close(f + block::stripped(c, name), j) is Some,
    ensures
        sheet::node_close(f + c, j) is Some,
    decreases c.len(),
{
    block::lemma_first_span(c, name);
    if let Some((start, end)) = block::first_span(c, name) {
        let (g, x, h) = (
            c.subrange(0, start),
            c.subrange(start, end),
            c.subrange(end, c.len() as int),
        );
        lemma_stripped_closes(f, g + h, name, j);
        let none = Seq::<u8>::empty();
        assert(f + (g + h) == (f + g) + none + h);
        assert(f + c == (f + g) + x + h);
        lemma_none_is_level();
        lemma_node_is_level(c, start, end - 1);
        lemma_outside_concat(f, c, start);
        assert((f + c).take(f.len() + start) == (f + g).take((f + g).len() as int));
        lemma_reading_front(f, g, j);
        lemma_swap(f + g, x, none, h, j);
    }
}

/// Outside strings in the rest is outside strings in the whole.
pub proof fn lemma_outside_concat(f: Seq<u8>, c: Seq<u8>, i: int)
    requires
        sheet::outside_strings(f, f.len() as int),
        sheet::outside_strings(c, i),
    ensures
        sheet::outside_strings(f + c, f.len() + i),
{
    let n = f.len() as int;
    lemma_reading_front(f, c, n);
    sheet::lemma_reading_rest(f + c, n, i);
    assert((f + c).skip(n) == c);
}

} // verus!
