//! Laws of writing aliases: a written block is found again and gives back what
//! was written, writing twice is writing once, and after a write a sheet defines
//! the alias exactly once, however often it did before.

use crate::block;
use crate::block_reading;
use crate::definitions;
use crate::sheet;
use crate::text;
use vstd::prelude::*;
use vstd::string::*;
use vstd::utf8::*;

verus! {

// ---------------------------------------------------------------------------
// The shape of an edit

/// What stands in front of the block that [`block::edited`] writes.
pub open spec fn in_front(t: Seq<u8>, name: Seq<char>) -> Seq<u8> {
    match block::alias_span(t, name) {
        Some((start, _)) => block::stripped(t.subrange(0, start), name),
        None => t.subrange(0, sheet::insert_offset(t)->0) + encode_utf8(
            "\n"@ + block::indentation(t),
        ),
    }
}

/// What stands behind the block that [`block::edited`] writes.
pub open spec fn behind(t: Seq<u8>, name: Seq<char>) -> Seq<u8> {
    match block::alias_span(t, name) {
        Some((_, end)) => block::stripped(t.subrange(end, t.len() as int), name),
        None => t.subrange(sheet::insert_offset(t)->0, t.len() as int),
    }
}

/// Where [`block::edited`] writes.
pub open spec fn place_of(t: Seq<u8>, name: Seq<char>) -> int {
    match block::alias_span(t, name) {
        Some((start, _)) => start,
        None => sheet::insert_offset(t)->0,
    }
}

/// A written block is level.
pub proof fn lemma_block_is_level(name: Seq<char>, members: Seq<Seq<char>>, indent: Seq<char>)
    requires
        block::writable(name, members),
        block_reading::is_indent(indent),
    ensures
        definitions::level(encode_utf8(block::alias_block(name, members, indent))),
        encode_utf8(block::alias_block(name, members, indent)).len() > 0,
        encode_utf8(block::alias_block(name, members, indent))[0] == sheet::OPEN,
{
    let none = Seq::<u8>::empty();
    let b = encode_utf8(block::alias_block(name, members, indent));
    block_reading::law_written_block_is_one_node(none, name, members, indent, none);
    assert(none + b + none == b);
    assert(sheet::closes_node(b, 0, b.len() - 1));
    definitions::lemma_node_is_level(b, 0, b.len() - 1);
    assert(b.subrange(0, b.len() as int) == b);
}

/// The line break and the indentation in front of an added block.
pub proof fn lemma_lead(indent: Seq<char>)
    requires
        block_reading::is_indent(indent),
    ensures
        definitions::level(encode_utf8("\n"@ + indent)),
        encode_utf8("\n"@ + indent).len() > 1,
        encode_utf8("\n"@ + indent)[0] == sheet::NEWLINE,
        forall|k: int|
            0 <= k < encode_utf8("\n"@ + indent).len() ==> block::is_blank_byte(
                #[trigger] encode_utf8("\n"@ + indent)[k],
            ),
        encode_utf8("\n"@ + indent) == seq![sheet::NEWLINE] + encode_utf8(indent),
{
    block_reading::lemma_literal_bytes();
    block_reading::lemma_indent_bytes(indent);
    text::lemma_encode_concat("\n"@, indent);
    let b = encode_utf8("\n"@ + indent);
    assert(block_reading::plain(b));
    block_reading::lemma_scan_plain(0, b);
    assert forall|k: int| 0 <= k <= b.len() implies #[trigger] sheet::reading(b, k).depth >= 0 by {
        assert(block_reading::plain(b.take(k)));
        block_reading::lemma_scan_plain(0, b.take(k));
    }
}

/// The place of a written block is outside quoted strings, as deep as before.
#[verifier::spinoff_prover]
pub proof fn lemma_front_is_outside(
    t: Seq<u8>,
    name: Seq<char>,
    members: Seq<Seq<char>>,
    after: Seq<u8>,
    action: block::AliasAction,
)
    requires
        block::edited(t, name, members) == Some((after, action)),
    ensures
        sheet::outside_strings(in_front(t, name), in_front(t, name).len() as int),
        sheet::scan(sheet::fresh(), in_front(t, name)).depth == sheet::reading(
            t,
            place_of(t, name),
        ).depth,
        after == in_front(t, name) + encode_utf8(
            block::alias_block(name, members, block::indentation(t)),
        ) + behind(t, name),
        forall|i: int| !#[trigger] block::defines_at(behind(t, name), name, i),
{
    block::lemma_alias_span(t, name);
    sheet::lemma_insert_offset(t);
    let front = in_front(t, name);
    assert(front.take(front.len() as int) == front);
    match block::alias_span(t, name) {
        Some((start, end)) => {
            assert(t.subrange(0, start) == t.take(start));
            definitions::lemma_stripped_reading(t.subrange(0, start), name);
            definitions::lemma_stripped(t.subrange(end, t.len() as int), name);
        },
        None => {
            let at = sheet::insert_offset(t)->0;
            let a = t.subrange(0, at);
            let lead = encode_utf8("\n"@ + block::indentation(t));
            let none = Seq::<u8>::empty();
            lemma_lead(block::indentation(t));
            assert(a.take(at) == t.take(at));
            assert(a.take(at) == a);
            definitions::lemma_reading_behind(a, lead, none, 0);
            assert(a + lead + none == front);
            assert(none.take(0) == none);
            assert forall|i: int| !#[trigger] block::defines_at(behind(t, name), name, i) by {
                if block::defines_at(behind(t, name), name, i) {
                    assert(t.skip(at) == behind(t, name));
                    definitions::lemma_defines_rest(t, name, at, i);
                    assert(block::defines_at(t, name, at + i));
                }
            }
        },
    }
}

// ---------------------------------------------------------------------------
// One definition per alias

/// Nothing in front of a block that replaces the first definition of an alias
/// defines it.
#[verifier::spinoff_prover]
proof fn lemma_nothing_before_first(
    t: Seq<u8>,
    name: Seq<char>,
    start: int,
    end: int,
    b: Seq<u8>,
    j: int,
)
    requires
        block::defines_at(t, name, start),
        sheet::closes_node(t, start, end - 1),
        forall|i: int| i < start ==> !#[trigger] block::defines_at(t, name, i),
        block::quotable(name),
        definitions::level(b),
        b.len() > 0 && b[0] == sheet::OPEN,
        j < start,
    ensures
        !block::defines_at(
            t.subrange(0, start) + b + block::stripped(t.subrange(end, t.len() as int), name),
            name,
            j,
        ),
{
    let (a, x, c) = (t.subrange(0, start), t.skip(start), t.subrange(end, t.len() as int));
    let rest = block::stripped(c, name);
    let after = a + b + rest;
    assert(after == a + (b + rest));
    assert(t == a + x);
    assert(a.take(start) == t.take(start));
    if block::defines_at(after, name, j) {
        assert(after[j] == a[j]);
        definitions::lemma_reading_front(a, b + rest, j);
        definitions::lemma_reading_front(a, x, j);
        assert(sheet::outside_strings(a, j));
        definitions::lemma_begins_in_front(a, x, b + rest, 0, name, j);
        assert(sheet::node_close(a + b + c, j) is Some) by {
            let none = Seq::<u8>::empty();
            definitions::lemma_reading_behind(a, b, none, 0);
            assert(a + b + none == a + b);
            assert((a + b).take((a + b).len() as int) == a + b);
            assert(none.take(0) == none);
            assert(a.take(a.len() as int) == a);
            definitions::lemma_reading_front(a, b, j);
            definitions::lemma_stripped_closes(a + b, c, name, j);
        }
        definitions::lemma_node_is_level(t, start, end - 1);
        definitions::lemma_swap(a, t.subrange(start, end), b, c, j);
        assert(a + t.subrange(start, end) + c == t);
        assert(block::defines_at(t, name, j));
    }
}

/// What stands in front of the first definition of an alias has none to strip.
pub proof fn lemma_front_of_first(t: Seq<u8>, name: Seq<char>, start: int)
    requires
        0 <= start <= t.len(),
        block::quotable(name),
        forall|i: int| i < start ==> !#[trigger] block::defines_at(t, name, i),
    ensures
        block::stripped(t.subrange(0, start), name) == t.subrange(0, start),
{
    let a = t.subrange(0, start);
    assert(a + t.skip(start) == t);
    assert forall|i: int| !#[trigger] block::defines_at(a, name, i) by {
        if block::defines_at(a, name, i) {
            definitions::lemma_defines_extended(a, t.skip(start), name, i);
        }
    }
    definitions::lemma_stripped_clean(a, name);
}

/// A definition in front of a block whose surroundings are stripped can only be
/// the root around it.
#[verifier::spinoff_prover]
proof fn lemma_only_root_around(
    front: Seq<u8>,
    b: Seq<u8>,
    name: Seq<char>,
    j: int,
)
    requires
        sheet::outside_strings(front, front.len() as int),
        sheet::scan(sheet::fresh(), front).depth == 1,
        forall|i: int| !#[trigger] block::defines_at(front, name, i),
        block::quotable(name),
        b.len() > 0 && b[0] == sheet::OPEN,
        j < front.len(),
        block::defines_at(front + b, name, j),
    ensures
        block::is_root_around(front + b, j, front.len() as int),
{
    let t = front + b;
    let n = front.len() as int;
    let c = sheet::node_close(t, j)->0;
    assert(sheet::closes_node(t, j, c));
    sheet::lemma_close_is_parenthesis(t, j, c);
    assert(t[n] == b[0]);
    if c < n {
        definitions::lemma_defines_in_front(front, b, name, j);
    }
    assert(front.take(n) == front);
    definitions::lemma_reading_front(front, b, n);
    sheet::lemma_reading_rest(t, j, n - j);
    assert(sheet::scan(sheet::fresh(), t.subrange(j, n)).depth > 0);
}

/// Nothing in front of a block that is added defines its alias.
#[verifier::spinoff_prover]
proof fn lemma_nothing_before_added(
    t: Seq<u8>,
    name: Seq<char>,
    at: int,
    lead: Seq<u8>,
    b: Seq<u8>,
    j: int,
)
    requires
        block::alias_span(t, name) is None,
        sheet::is_place(t, at),
        block::quotable(name),
        definitions::level(lead),
        forall|k: int| 0 <= k < lead.len() ==> block::is_blank_byte(#[trigger] lead[k]),
        definitions::level(b),
        b.len() > 0 && b[0] == sheet::OPEN,
        j < at + lead.len(),
    ensures
        !block::defines_at(
            t.subrange(0, at) + lead + b + t.subrange(at, t.len() as int),
            name,
            j,
        ),
{
    let (a, c) = (t.subrange(0, at), t.subrange(at, t.len() as int));
    let y = lead + b + c;
    let after = a + lead + b + c;
    block::lemma_alias_span(t, name);
    assert(after == a + y);
    assert(t == a + c);
    if block::defines_at(after, name, j) {
        if j >= at {
            assert(after[j] == lead[j - at]);
        } else {
            assert(after[j] == a[j]);
            definitions::lemma_reading_front(a, y, j);
            definitions::lemma_reading_front(a, c, j);
            assert(a.take(a.len() as int) == t.take(at));
            assert(y[lead.len() as int] == b[0]);
            assert forall|k: int| 0 <= k < lead.len() implies block::is_blank_byte(
                #[trigger] y[k],
            ) by {
                assert(y[k] == lead[k]);
            }
            definitions::lemma_begins_in_front(a, c, y, lead.len() as int, name, j);
            let none = Seq::<u8>::empty();
            definitions::lemma_level_concat(lead, b);
            definitions::lemma_none_is_level();
            assert(after == a + (lead + b) + c);
            definitions::lemma_swap(a, none, lead + b, c, j);
            assert(a + none + c == t);
            assert(block::defines_at(t, name, j));
        }
    }
}

/// Nothing in front of a written block defines its alias, but for a root around
/// it.
#[verifier::spinoff_prover]
proof fn lemma_nothing_in_front(
    t: Seq<u8>,
    name: Seq<char>,
    members: Seq<Seq<char>>,
    after: Seq<u8>,
    action: block::AliasAction,
    j: int,
)
    requires
        block::edited(t, name, members) == Some((after, action)),
        block::writable(name, members),
        j < in_front(t, name).len(),
    ensures
        block::defines_at(after, name, j) ==> block::defined_in_root(t, name)
            && block::is_root_around(after, j, in_front(t, name).len() as int),
{
    let indent = block::indentation(t);
    let b = encode_utf8(block::alias_block(name, members, indent));
    lemma_block_is_level(name, members, indent);
    lemma_lead(indent);
    lemma_front_is_outside(t, name, members, after, action);
    block::lemma_alias_span(t, name);
    sheet::lemma_insert_offset(t);
    match block::alias_span(t, name) {
        Some((start, end)) => if block::defined_in_root(t, name) {
            let front = in_front(t, name);
            definitions::lemma_stripped(t.subrange(0, start), name);
            assert(after == front + (b + behind(t, name)));
            if block::defines_at(after, name, j) {
                lemma_only_root_around(front, b + behind(t, name), name, j);
            }
        } else {
            lemma_front_of_first(t, name, start);
            lemma_nothing_before_first(t, name, start, end, b, j);
        },
        None => lemma_nothing_before_added(
            t,
            name,
            sheet::insert_offset(t)->0,
            encode_utf8("\n"@ + indent),
            b,
            j,
        ),
    }
}

/// Behind its first byte a block defines no alias at all.
#[verifier::spinoff_prover]
pub proof fn lemma_nothing_inside(
    front: Seq<u8>,
    name: Seq<char>,
    members: Seq<Seq<char>>,
    indent: Seq<char>,
    rest: Seq<u8>,
    other: Seq<char>,
    x: int,
)
    requires
        sheet::outside_strings(front, front.len() as int),
        block::writable(name, members),
        block_reading::is_indent(indent),
        0 < x < encode_utf8(block::alias_block(name, members, indent)).len(),
    ensures
        !block::defines_at(
            front + encode_utf8(block::alias_block(name, members, indent)) + rest,
            other,
            front.len() + x,
        ),
{
    let b = encode_utf8(block::alias_block(name, members, indent));
    let t = front + b + rest;
    let n = front.len() as int;
    let r = b + rest;
    assert(t == front + r);
    assert(t.skip(n) == r);
    definitions::lemma_reading_front(front, r, n);
    if block::defines_at(t, other, n + x) {
        definitions::lemma_defines_rest(t, other, n, x);
        definitions::lemma_reading_front(b, rest, x);
        assert(b[x] == r[x]);
        block_reading::lemma_block_opens(name, members, indent, x);
        assert(r[x + 1] == b[x + 1]);
        block::lemma_head_length();
        let head = encode_utf8("bus_alias"@);
        assert(r.subrange(x + 1, x + 10)[0] == head[0]);
        reveal_strlit("bus_alias");
        is_ascii_chars_encode_utf8("bus_alias"@);
        assert("bus_alias"@[0] as u8 == head[0]);
    }
}

/// A written block defines its alias.
#[verifier::spinoff_prover]
pub proof fn lemma_block_defines(
    front: Seq<u8>,
    name: Seq<char>,
    members: Seq<Seq<char>>,
    indent: Seq<char>,
    rest: Seq<u8>,
)
    requires
        sheet::outside_strings(front, front.len() as int),
        block::writable(name, members),
        block_reading::is_indent(indent),
    ensures
        block::defines_at(
            front + encode_utf8(block::alias_block(name, members, indent)) + rest,
            name,
            front.len() as int,
        ),
{
    let b = encode_utf8(block::alias_block(name, members, indent));
    let t = front + b + rest;
    let n = front.len() as int;
    let r = b + rest;
    assert(t == front + r);
    assert(t.skip(n) == r);
    definitions::lemma_reading_front(front, r, n);
    block_reading::law_written_block_is_one_node(front, name, members, indent, rest);
    let words = "(bus_alias "@;
    let item = block::quoted(name);
    let tail = "\n"@ + indent + indent + "(members "@ + block::quoted_list(members) + ")\n"@ + indent
        + ")"@;
    assert(block::alias_block(name, members, indent) == words + (item + tail));
    text::lemma_encode_concat(words, item + tail);
    text::lemma_encode_concat(item, tail);
    let (w, q, z) = (encode_utf8(words), encode_utf8(item), encode_utf8(tail) + rest);
    reveal_strlit("(bus_alias ");
    reveal_strlit("bus_alias");
    is_ascii_chars_encode_utf8(words);
    is_ascii_chars_encode_utf8("bus_alias"@);
    let head = encode_utf8("bus_alias"@);
    assert(w.len() == 11 && head.len() == 9);
    assert(r == w + (q + z));
    assert forall|i: int| 0 <= i < 11 implies #[trigger] r[i] == words[i] as u8 by {
        assert(r[i] == w[i]);
    }
    assert(r[0] == sheet::OPEN && r[1] == 0x62 && r[10] == 0x20);
    assert(r.subrange(1, 10) == head) by {
        assert forall|i: int| 0 <= i < 9 implies r.subrange(1, 10)[i] == head[i] by {
            assert(r[i + 1] == words[i + 1] as u8);
            assert(words[i + 1] == "bus_alias"@[i]);
        }
    }
    assert(block::skip_blank(r, 1) == 1);
    block_reading::lemma_quoted_bytes(name);
    assert(r[11] == q[0]);
    assert(block::skip_blank(r, 11) == 11);
    assert(block::skip_blank(r, 10) == 11);
    assert(r.subrange(11, (11 + q.len()) as int) == q);
    assert(block::begins_definition(r, name, 0));
    assert(r.take(0) == Seq::<u8>::empty());
    let none = Seq::<u8>::empty();
    block_reading::law_written_block_is_one_node(none, name, members, indent, rest);
    assert(none + b + rest == r);
    assert(block::defines_at(r, name, 0));
    definitions::lemma_defines_rest(t, name, n, 0);
}

/// After a write a sheet defines the alias exactly once, at the block that was
/// written: a definition is replaced, never doubled, and any other is taken out.
/// The block stands as deep as what it replaces, so in the root if the alias was
/// defined there.
#[verifier::spinoff_prover]
pub proof fn law_write_defines_once(
    t: Seq<u8>,
    name: Seq<char>,
    members: Seq<Seq<char>>,
    after: Seq<u8>,
    action: block::AliasAction,
)
    requires
        block::edited(t, name, members) == Some((after, action)),
        block::writable(name, members),
    ensures
        block::is_sole_definition(after, name, in_front(t, name).len() as int),
        sheet::reading(after, in_front(t, name).len() as int).depth == sheet::reading(
            t,
            place_of(t, name),
        ).depth,
        block::defined_in_root(t, name) ==> block::defined_in_root(after, name),
        !block::defined_in_root(t, name) ==> forall|i: int| #[trigger]
            block::defines_at(after, name, i) ==> i == in_front(t, name).len(),
{
    let indent = block::indentation(t);
    let front = in_front(t, name);
    let b = encode_utf8(block::alias_block(name, members, indent));
    let rest = behind(t, name);
    let n = front.len() as int;
    lemma_front_is_outside(t, name, members, after, action);
    lemma_block_defines(front, name, members, indent, rest);
    lemma_block_is_level(name, members, indent);
    assert(front.take(n) == front);
    assert(after == front + (b + rest));
    definitions::lemma_reading_front(front, b + rest, n);
    assert forall|i: int| #[trigger] block::defines_at(after, name, i) implies i == n
        || block::defined_in_root(t, name) && block::is_root_around(after, i, n) by {
        if i < n {
            lemma_nothing_in_front(t, name, members, after, action, i);
        } else if n < i < n + b.len() {
            lemma_nothing_inside(front, name, members, indent, rest, name, i - n);
        } else if i > n {
            let a = n + b.len();
            definitions::lemma_reading_behind(front, b, rest, 0);
            assert(rest.take(0) == Seq::<u8>::empty());
            assert(sheet::outside_strings(after, a));
            assert(after.skip(a) == rest);
            definitions::lemma_defines_rest(after, name, a, i - a);
            assert(block::defines_at(rest, name, i - a));
        }
    }
    block::lemma_alias_span(t, name);
}

/// A write replaces if and only if the sheet defined the alias.
pub proof fn law_write_replaces_what_is_defined(
    t: Seq<u8>,
    name: Seq<char>,
    members: Seq<Seq<char>>,
    after: Seq<u8>,
    action: block::AliasAction,
)
    requires
        block::edited(t, name, members) == Some((after, action)),
    ensures
        action == block::AliasAction::Replaced <==> exists|i: int| #[trigger]
            block::defines_at(t, name, i),
{
    block::lemma_alias_span(t, name);
}

/// Writing an alias and looking it up finds just the block that was written.
#[verifier::spinoff_prover]
pub proof fn law_written_alias_is_found(
    t: Seq<u8>,
    name: Seq<char>,
    members: Seq<Seq<char>>,
    after: Seq<u8>,
    action: block::AliasAction,
)
    requires
        block::edited(t, name, members) == Some((after, action)),
        block::writable(name, members),
    ensures
        ({
            let block = encode_utf8(block::alias_block(name, members, block::indentation(t)));
            let start = in_front(t, name).len() as int;
            &&& after == in_front(t, name) + block + behind(t, name)
            &&& block::alias_span(after, name) == Some((start, start + block.len()))
        }),
{
    let indent = block::indentation(t);
    let front = in_front(t, name);
    let start = front.len() as int;
    lemma_front_is_outside(t, name, members, after, action);
    law_write_defines_once(t, name, members, after, action);
    block::lemma_alias_span(after, name);
    block::lemma_alias_span(t, name);
    let (found, _) = block::alias_span(after, name)->0;
    assert(found == start) by {
        assert(block::defines_at(after, name, start));
        assert(block::defines_at(after, name, found));
        if sheet::reading(after, start).depth == 1 {
            assert(block::defined_in_root(after, name));
        }
    }
    block_reading::law_written_block_is_one_node(front, name, members, indent, behind(t, name));
}

// ---------------------------------------------------------------------------
// White space in names

/// No byte of `b` is `c`.
spec fn free_of(b: Seq<u8>, c: u8) -> bool {
    forall|i: int| 0 <= i < b.len() ==> #[trigger] b[i] != c
}

proof fn lemma_scalar_bytes(c: u32)
    requires
        is_scalar(c),
        c >= 0x80,
    ensures
        forall|i: int| 0 <= i < encode_scalar(c).len() ==> #[trigger] encode_scalar(c)[i] >= 0x80,
{
    if has_width_2_encoding(c) {
        assert(leading_byte_width_2(c) >= 0x80) by (bit_vector)
            requires
                has_width_2_encoding(c),
        ;
    } else if has_width_3_encoding(c) {
        assert(leading_byte_width_3(c) >= 0x80) by (bit_vector)
            requires
                has_width_3_encoding(c),
        ;
    } else {
        assert(leading_byte_width_4(c) >= 0x80) by (bit_vector)
            requires
                has_width_4_encoding(c),
        ;
    }
    assert(last_continuation_byte(c) >= 0x80) by (bit_vector);
    assert(second_last_continuation_byte(c) >= 0x80) by (bit_vector);
    assert(third_last_continuation_byte(c) >= 0x80) by (bit_vector);
}

/// A text without white space has no byte of white space.
proof fn lemma_no_space_bytes(s: Seq<char>)
    requires
        !text::has_space(s),
    ensures
        free_of(encode_utf8(s), 0x20),
        free_of(encode_utf8(s), 0x09),
        free_of(encode_utf8(s), sheet::NEWLINE),
    decreases s.len(),
{
    if s.len() > 0 {
        assert(!text::is_space(s[0]));
        assert(!text::has_space(s.drop_first())) by {
            if text::has_space(s.drop_first()) {
                let i = choose|i: int|
                    0 <= i < s.drop_first().len() && text::is_space(#[trigger] s.drop_first()[i]);
                assert(text::is_space(s[i + 1]));
            }
        }
        lemma_no_space_bytes(s.drop_first());
        let c = s[0] as u32;
        char_is_scalar(s[0]);
        if c >= 0x80 {
            lemma_scalar_bytes(c);
        } else {
            assert(leading_byte_width_1(c) == c as u8) by (bit_vector)
                requires
                    c < 0x80,
            ;
        }
    }
}

/// What stands in front of a written block has no definition left in it.
#[verifier::spinoff_prover]
proof fn lemma_front_is_clean(
    t: Seq<u8>,
    name: Seq<char>,
    members: Seq<Seq<char>>,
    after: Seq<u8>,
    action: block::AliasAction,
)
    requires
        block::edited(t, name, members) == Some((after, action)),
        block::writable(name, members),
    ensures
        block::stripped(in_front(t, name), name) == in_front(t, name),
{
    let front = in_front(t, name);
    let b = encode_utf8(block::alias_block(name, members, block::indentation(t)));
    assert forall|i: int| !#[trigger] block::defines_at(front, name, i) by {
        if block::defines_at(front, name, i) {
            block::lemma_alias_span(t, name);
            match block::alias_span(t, name) {
                Some((start, _)) => definitions::lemma_stripped(t.subrange(0, start), name),
                None => {
                    lemma_front_is_outside(t, name, members, after, action);
                    law_write_defines_once(t, name, members, after, action);
                    assert(after == front + (b + behind(t, name)));
                    definitions::lemma_defines_extended(front, b + behind(t, name), name, i);
                },
            }
        }
    }
    definitions::lemma_stripped_clean(front, name);
}

// ---------------------------------------------------------------------------
// Writing twice

/// Members without white space.
pub open spec fn members_spaceless(members: Seq<Seq<char>>) -> bool {
    forall|i: int| 0 <= i < members.len() ==> !text::has_space(#[trigger] members[i])
}

proof fn lemma_list_free_of_tab(members: Seq<Seq<char>>)
    requires
        members_spaceless(members),
    ensures
        free_of(encode_utf8(block::quoted_list(members)), 0x09),
    decreases members.len(),
{
    if members.len() > 0 {
        let last = members[members.len() - 1];
        block_reading::lemma_literal_bytes();
        lemma_no_space_bytes(last);
        text::lemma_encode_concat("\""@, last);
        text::lemma_encode_concat("\""@ + last, "\""@);
        if members.len() > 1 {
            let front = members.drop_last();
            assert forall|i: int| 0 <= i < front.len() implies !text::has_space(
                #[trigger] front[i],
            ) by {
                assert(front[i] == members[i]);
            }
            lemma_list_free_of_tab(front);
            let list = block::quoted_list(front);
            text::lemma_encode_concat(list, " "@);
            text::lemma_encode_concat(list + " "@, block::quoted(last));
        }
    }
}

/// In a sheet indented by spaces a written block holds no tab.
proof fn lemma_block_free_of_tab(name: Seq<char>, members: Seq<Seq<char>>)
    requires
        !text::has_space(name),
        members_spaceless(members),
    ensures
        free_of(encode_utf8(block::alias_block(name, members, "  "@)), 0x09),
{
    let indent = "  "@;
    let l = block::quoted_list(members);
    let c2 = "(bus_alias "@ + block::quoted(name);
    let c3 = c2 + "\n"@;
    let c4 = c3 + indent;
    let c5 = c4 + indent;
    let c6 = c5 + "(members "@;
    let c7 = c6 + l;
    let c8 = c7 + ")\n"@;
    let c9 = c8 + indent;
    text::lemma_encode_concat(c2, "\n"@);
    text::lemma_encode_concat(c3, indent);
    text::lemma_encode_concat(c4, indent);
    text::lemma_encode_concat(c5, "(members "@);
    text::lemma_encode_concat(c6, l);
    text::lemma_encode_concat(c7, ")\n"@);
    text::lemma_encode_concat(c8, indent);
    text::lemma_encode_concat(c9, ")"@);
    block_reading::lemma_literal_bytes();
    lemma_no_space_bytes(name);
    text::lemma_encode_concat("(bus_alias "@, block::quoted(name));
    block_reading::lemma_quoted_bytes(name);
    lemma_list_free_of_tab(members);
    reveal_strlit("(bus_alias ");
    reveal_strlit("(members ");
    is_ascii_chars_encode_utf8("(bus_alias "@);
    is_ascii_chars_encode_utf8("(members "@);
    let a = encode_utf8("(bus_alias "@);
    assert forall|i: int| 0 <= i < a.len() implies #[trigger] a[i] != 0x09 by {
        assert("(bus_alias "@[i] as u8 == a[i]);
    }
    let m = encode_utf8("(members "@);
    assert forall|i: int| 0 <= i < m.len() implies #[trigger] m[i] != 0x09 by {
        assert("(members "@[i] as u8 == m[i]);
    }
    assert(free_of(encode_utf8(c2), 0x09));
    assert(free_of(encode_utf8(c5), 0x09));
    assert(free_of(encode_utf8(c7), 0x09));
    assert(free_of(encode_utf8(c9), 0x09));
}

/// Text without a tab, from the beginning of a line on and up to a parenthesis,
/// brings no node behind a tab into a sheet.
proof fn lemma_no_mark(a: Seq<u8>, m: Seq<u8>, c: Seq<u8>)
    requires
        !text::occurs(a + c, seq![sheet::NEWLINE, 0x09u8, sheet::OPEN]),
        m.len() > 0,
        m[0] == sheet::NEWLINE,
        m.last() == sheet::CLOSE,
        free_of(m, 0x09),
    ensures
        !text::occurs(a + m + c, seq![sheet::NEWLINE, 0x09u8, sheet::OPEN]),
{
    let mark = seq![sheet::NEWLINE, 0x09u8, sheet::OPEN];
    let (t, after) = (a + c, a + m + c);
    let (at, end) = (a.len() as int, (a.len() + m.len()) as int);
    assert forall|j: int| !text::occurs_at(after, mark, j) by {
        if text::occurs_at(after, mark, j) {
            let three = after.subrange(j, j + 3);
            assert(three[0] == after[j] && three[1] == after[j + 1] && three[2] == after[j + 2]);
            if j + 3 <= at {
                assert(t.subrange(j, j + 3) == three);
                assert(text::occurs_at(t, mark, j));
            } else if j >= end {
                let k = j - m.len();
                assert(t.subrange(k, k + 3) == three);
                assert(text::occurs_at(t, mark, k));
            } else if j + 1 < at {
                assert(after[at] == m[0]);
            } else if j + 1 < end {
                assert(after[j + 1] == m[j + 1 - at]);
            } else {
                assert(after[j] == m.last());
            }
        }
    }
}

/// Adding an alias keeps the indentation of a sheet.
#[verifier::spinoff_prover]
pub proof fn law_adding_keeps_indentation(
    t: Seq<u8>,
    name: Seq<char>,
    members: Seq<Seq<char>>,
    after: Seq<u8>,
)
    requires
        block::edited(t, name, members) == Some((after, block::AliasAction::Added)),
        block::writable(name, members),
        !text::has_space(name),
        members_spaceless(members),
    ensures
        block::indentation(after) == block::indentation(t),
{
    let indent = block::indentation(t);
    let block = encode_utf8(block::alias_block(name, members, indent));
    let lead = encode_utf8("\n"@ + indent);
    let mark = seq![sheet::NEWLINE, 0x09u8, sheet::OPEN];
    let at = sheet::insert_offset(t)->0;
    sheet::lemma_insert_offset(t);
    lemma_block_is_level(name, members, indent);
    lemma_lead(indent);
    block_reading::lemma_literal_bytes();
    block_reading::lemma_scan_block(name, members, indent);
    let (a, c) = (t.subrange(0, at), t.subrange(at, t.len() as int));
    assert(t == a + c);
    assert(after == a + (lead + block) + c);
    if text::occurs(t, mark) {
        assert(after.subrange(at, at + 3) == mark) by {
            assert(after[at] == lead[0] && after[at + 1] == lead[1] && after[at + 2] == block[0]);
        }
        assert(text::occurs_at(after, mark, at));
    } else {
        lemma_block_free_of_tab(name, members);
        lemma_no_mark(a, lead + block, c);
    }
}

/// Writing the same alias twice is writing it once: the second write replaces
/// the block of the first by itself. After a replacement this takes a sheet
/// whose indentation did not stand on the replaced block alone.
#[verifier::spinoff_prover]
pub proof fn law_writing_twice_is_writing_once(
    t: Seq<u8>,
    name: Seq<char>,
    members: Seq<Seq<char>>,
    after: Seq<u8>,
    action: block::AliasAction,
)
    requires
        block::edited(t, name, members) == Some((after, action)),
        block::writable(name, members),
        !text::has_space(name),
        members_spaceless(members),
        action == block::AliasAction::Replaced ==> block::indentation(after)
            == block::indentation(t),
    ensures
        block::edited(after, name, members) == Some((after, block::AliasAction::Replaced)),
{
    if action == block::AliasAction::Added {
        law_adding_keeps_indentation(t, name, members, after);
    }
    law_written_alias_is_found(t, name, members, after, action);
    let block = encode_utf8(block::alias_block(name, members, block::indentation(t)));
    let front = in_front(t, name);
    let start = front.len() as int;
    let end = start + block.len();
    assert(after.subrange(0, start) == front);
    assert(after.subrange(end, after.len() as int) == behind(t, name));
    lemma_front_is_outside(t, name, members, after, action);
    lemma_front_is_clean(t, name, members, after, action);
    definitions::lemma_stripped_clean(behind(t, name), name);
}

/// Redefining an alias keeps nothing of its old definition: the result is that
/// of defining it with the new members at once, in the same place.
#[verifier::spinoff_prover]
pub proof fn law_last_definition_wins(
    t: Seq<u8>,
    name: Seq<char>,
    first: Seq<Seq<char>>,
    members: Seq<Seq<char>>,
    between: Seq<u8>,
    action: block::AliasAction,
)
    requires
        block::edited(t, name, first) == Some((between, action)),
        block::writable(name, first),
        !text::has_space(name),
        members_spaceless(first),
        action == block::AliasAction::Replaced ==> block::indentation(between)
            == block::indentation(t),
    ensures
        block::edited(t, name, members) matches Some((direct, _)) && block::edited(
            between,
            name,
            members,
        ) == Some((direct, block::AliasAction::Replaced)),
{
    if action == block::AliasAction::Added {
        law_adding_keeps_indentation(t, name, first, between);
    }
    law_written_alias_is_found(t, name, first, between, action);
    let block = encode_utf8(block::alias_block(name, first, block::indentation(t)));
    let front = in_front(t, name);
    let start = front.len() as int;
    let end = start + block.len();
    assert(between.subrange(0, start) == front);
    assert(between.subrange(end, between.len() as int) == behind(t, name));
    lemma_front_is_outside(t, name, first, between, action);
    lemma_front_is_clean(t, name, first, between, action);
    definitions::lemma_stripped_clean(behind(t, name), name);
}

// ---------------------------------------------------------------------------
// A block tells its alias

/// A string ends at its closing quote and nowhere else.
proof fn lemma_quoted_apart(s: Seq<char>, x: Seq<u8>, t: Seq<char>, y: Seq<u8>)
    requires
        block::quotable(s),
        block::quotable(t),
        encode_utf8(block::quoted(s)) + x == encode_utf8(block::quoted(t)) + y,
    ensures
        encode_utf8(s).len() >= encode_utf8(t).len(),
{
    let (a, b) = (encode_utf8(s), encode_utf8(t));
    let q = seq![sheet::QUOTE];
    block_reading::lemma_quoted_bytes(s);
    block_reading::lemma_quoted_bytes(t);
    let text = q + a + q + x;
    assert(text == q + b + q + y);
    if a.len() < b.len() {
        let k = a.len() as int;
        assert(b.take(k + 1) == a.push(sheet::QUOTE)) by {
            assert forall|i: int| 0 <= i <= k implies b[i] == #[trigger] a.push(
                sheet::QUOTE,
            )[i] by {
                assert(text[i + 1] == b[i]);
            }
        }
        assert(a.push(sheet::QUOTE).drop_last() == a);
        assert(a.take(k) == a);
        assert(sheet::scan(block_reading::in_quotes(0), a.take(k)).quoted);
        assert(sheet::scan(block_reading::in_quotes(0), b.take(k + 1)).quoted);
    }
}

/// What a text begins with between quotes, and what follows it.
pub proof fn lemma_quoted_unique(s: Seq<char>, x: Seq<u8>, t: Seq<char>, y: Seq<u8>)
    requires
        block::quotable(s),
        block::quotable(t),
        encode_utf8(block::quoted(s)) + x == encode_utf8(block::quoted(t)) + y,
    ensures
        s == t,
        x == y,
{
    lemma_quoted_apart(s, x, t, y);
    lemma_quoted_apart(t, y, s, x);
    block_reading::lemma_quoted_bytes(s);
    block_reading::lemma_quoted_bytes(t);
    let (a, b) = (encode_utf8(block::quoted(s)), encode_utf8(block::quoted(t)));
    let n = a.len() as int;
    assert((a + x).take(n) == a);
    assert((b + y).take(n) == b);
    assert((a + x).skip(n) == x);
    assert((b + y).skip(n) == y);
    assert(a.subrange(1, n - 1) == encode_utf8(s));
    assert(b.subrange(1, n - 1) == encode_utf8(t));
    text::lemma_encode_injective(s, t);
}

/// A list of several members begins with the first.
proof fn lemma_list_from_front(members: Seq<Seq<char>>)
    requires
        members.len() > 1,
    ensures
        block::quoted_list(members) == block::quoted(members[0]) + (" "@ + block::quoted_list(
            members.drop_first(),
        )),
    decreases members.len(),
{
    let front = members.drop_last();
    let rest = members.drop_first();
    let (first, last) = (block::quoted(members[0]), block::quoted(members.last()));
    assert(front[0] == members[0] && rest.last() == members.last());
    if members.len() == 2 {
        assert(block::quoted_list(front) == first);
        assert(block::quoted_list(rest) == last);
    } else {
        let middle = block::quoted_list(front.drop_first());
        lemma_list_from_front(front);
        assert(front.drop_first() == rest.drop_last());
        assert(block::quoted_list(rest) == middle + " "@ + last);
    }
    assert(block::quoted_list(members) == block::quoted_list(front) + " "@ + last);
}

/// The members that a list is made of, where a parenthesis follows it.
proof fn lemma_list_unique(
    members: Seq<Seq<char>>,
    x: Seq<u8>,
    others: Seq<Seq<char>>,
    y: Seq<u8>,
)
    requires
        forall|i: int| 0 <= i < members.len() ==> block::quotable(#[trigger] members[i]),
        forall|i: int| 0 <= i < others.len() ==> block::quotable(#[trigger] others[i]),
        x.len() > 0 && x[0] == sheet::CLOSE,
        y.len() > 0 && y[0] == sheet::CLOSE,
        encode_utf8(block::quoted_list(members)) + x == encode_utf8(block::quoted_list(others)) + y,
    ensures
        members == others,
    decreases members.len(),
{
    let a = lemma_list_split(members, x);
    let b = lemma_list_split(others, y);
    let text = encode_utf8(block::quoted_list(members)) + x;
    if members.len() == 0 || others.len() == 0 {
        assert(members.len() == 0 && others.len() == 0) by {
            assert(text[0] == sheet::CLOSE);
            if members.len() > 0 {
                block_reading::lemma_quoted_bytes(members[0]);
                assert(text[0] == sheet::QUOTE);
            }
            if others.len() > 0 {
                block_reading::lemma_quoted_bytes(others[0]);
                assert(text[0] == sheet::QUOTE);
            }
        }
        assert(members == others);
    } else {
        lemma_quoted_unique(members[0], a, others[0], b);
        if members.len() == 1 || others.len() == 1 {
            assert(members == others);
        } else {
            let (m, o) = (members.drop_first(), others.drop_first());
            assert forall|i: int| 0 <= i < m.len() implies block::quotable(#[trigger] m[i]) by {
                assert(m[i] == members[i + 1]);
            }
            assert forall|i: int| 0 <= i < o.len() implies block::quotable(#[trigger] o[i]) by {
                assert(o[i] == others[i + 1]);
            }
            assert(a.skip(1) == encode_utf8(block::quoted_list(m)) + x);
            assert(b.skip(1) == encode_utf8(block::quoted_list(o)) + y);
            lemma_list_unique(m, x, o, y);
            assert(members == seq![members[0]] + m);
            assert(others == seq![others[0]] + o);
        }
    }
}

/// What follows the first member of a list.
proof fn lemma_list_split(members: Seq<Seq<char>>, x: Seq<u8>) -> (rest: Seq<u8>)
    ensures
        members.len() == 0 ==> encode_utf8(block::quoted_list(members)) + x == x,
        members.len() > 0 ==> encode_utf8(block::quoted_list(members)) + x == encode_utf8(
            block::quoted(members[0]),
        ) + rest,
        members.len() == 1 ==> rest == x,
        members.len() > 1 ==> rest == seq![0x20u8] + (encode_utf8(
            block::quoted_list(members.drop_first()),
        ) + x),
{
    if members.len() <= 1 {
        assert(encode_utf8(Seq::<char>::empty()) + x == x);
        x
    } else {
        let list = block::quoted_list(members.drop_first());
        lemma_list_from_front(members);
        block_reading::lemma_literal_bytes();
        text::lemma_encode_concat(" "@, list);
        text::lemma_encode_concat(block::quoted(members[0]), " "@ + list);
        let rest = seq![0x20u8] + (encode_utf8(list) + x);
        assert(encode_utf8(block::quoted_list(members)) + x == encode_utf8(
            block::quoted(members[0]),
        ) + rest);
        rest
    }
}

/// The block between its name and its members.
proof fn lemma_block_split(name: Seq<char>, members: Seq<Seq<char>>, indent: Seq<char>) -> (end:
    Seq<u8>)
    ensures
        end.len() > 0 && end[0] == sheet::CLOSE,
        encode_utf8(block::alias_block(name, members, indent)) == encode_utf8("(bus_alias "@) + (
        encode_utf8(block::quoted(name)) + (encode_utf8("\n"@ + indent + indent + "(members "@) + (
        encode_utf8(block::quoted_list(members)) + end))),
{
    let words = "(bus_alias "@;
    let between = "\n"@ + indent + indent + "(members "@;
    let list = block::quoted_list(members);
    let close = ")\n"@ + indent + ")"@;
    assert(block::alias_block(name, members, indent) == words + (block::quoted(name) + (between + (
    list + close))));
    text::lemma_encode_concat(words, block::quoted(name) + (between + (list + close)));
    text::lemma_encode_concat(block::quoted(name), between + (list + close));
    text::lemma_encode_concat(between, list + close);
    text::lemma_encode_concat(list, close);
    block_reading::lemma_literal_bytes();
    text::lemma_encode_concat(")\n"@, indent);
    text::lemma_encode_concat(")\n"@ + indent, ")"@);
    encode_utf8(close)
}

/// A block tells the alias that it defines: blocks with another name or other
/// members, or with the same in another order, read differently.
pub proof fn law_block_tells_its_alias(
    name: Seq<char>,
    members: Seq<Seq<char>>,
    indent: Seq<char>,
    other: Seq<char>,
    others: Seq<Seq<char>>,
    other_indent: Seq<char>,
)
    requires
        block::writable(name, members),
        block::writable(other, others),
        block_reading::is_indent(indent),
        block_reading::is_indent(other_indent),
        block::alias_block(name, members, indent) == block::alias_block(
            other,
            others,
            other_indent,
        ),
    ensures
        name == other,
        members == others,
{
    let end = lemma_block_split(name, members, indent);
    let other_end = lemma_block_split(other, others, other_indent);
    let words = encode_utf8("(bus_alias "@);
    let between = encode_utf8("\n"@ + indent + indent + "(members "@);
    let other_between = encode_utf8("\n"@ + other_indent + other_indent + "(members "@);
    let list = encode_utf8(block::quoted_list(members)) + end;
    let other_list = encode_utf8(block::quoted_list(others)) + other_end;
    let a = encode_utf8(block::quoted(name)) + (between + list);
    let b = encode_utf8(block::quoted(other)) + (other_between + other_list);
    assert((words + a).skip(words.len() as int) == a);
    assert((words + b).skip(words.len() as int) == b);
    lemma_quoted_unique(name, between + list, other, other_between + other_list);
    assert(indent == other_indent) by {
        lemma_second_byte(indent);
        lemma_second_byte(other_indent);
        assert((between + list)[1] == between[1]);
        assert((other_between + other_list)[1] == other_between[1]);
    }
    assert((between + list).skip(between.len() as int) == list);
    assert((between + other_list).skip(between.len() as int) == other_list);
    lemma_list_unique(members, end, others, other_end);
}

proof fn lemma_second_byte(indent: Seq<char>)
    requires
        block_reading::is_indent(indent),
    ensures
        encode_utf8("\n"@ + indent + indent + "(members "@).len() > 1,
        indent == "\t"@ <==> encode_utf8("\n"@ + indent + indent + "(members "@)[1] == 0x09,
{
    block_reading::lemma_literal_bytes();
    text::lemma_encode_concat("\n"@, indent);
    text::lemma_encode_concat("\n"@ + indent, indent);
    text::lemma_encode_concat("\n"@ + indent + indent, "(members "@);
}

/// Writing an alias and reading the block that is found for it gives back the
/// name and the members that were written, in their order.
pub proof fn law_written_alias_reads_back(
    t: Seq<u8>,
    name: Seq<char>,
    members: Seq<Seq<char>>,
    after: Seq<u8>,
    action: block::AliasAction,
    read_name: Seq<char>,
    read_members: Seq<Seq<char>>,
    read_indent: Seq<char>,
)
    requires
        block::edited(t, name, members) == Some((after, action)),
        block::writable(name, members),
        block::writable(read_name, read_members),
        block_reading::is_indent(read_indent),
        block::alias_span(after, name) matches Some((start, end)) && after.subrange(start, end)
            == encode_utf8(block::alias_block(read_name, read_members, read_indent)),
    ensures
        read_name == name,
        read_members == members,
{
    law_written_alias_is_found(t, name, members, after, action);
    let indent = block::indentation(t);
    let block = block::alias_block(name, members, indent);
    let start = in_front(t, name).len() as int;
    let end = start + encode_utf8(block).len();
    assert(after.subrange(start, end) == encode_utf8(block));
    text::lemma_encode_injective(
        block,
        block::alias_block(read_name, read_members, read_indent),
    );
    law_block_tells_its_alias(
        read_name,
        read_members,
        read_indent,
        name,
        members,
        indent,
    );
}

} // verus!
