//! How a written alias block reads: as one node, with one node inside it.

use crate::block;
use crate::sheet;
use crate::text;
use vstd::prelude::*;
use vstd::string::*;
use vstd::utf8::*;

verus! {

// ---------------------------------------------------------------------------
// Reading a text piece by piece

/// No byte of `b` is a parenthesis or a quote.
pub open spec fn plain(b: Seq<u8>) -> bool {
    forall|i: int|
        0 <= i < b.len() ==> #[trigger] b[i] != sheet::OPEN && b[i] != sheet::CLOSE && b[i]
            != sheet::QUOTE
}

/// Some node stays open behind every byte of `b`, read from `s` on.
pub open spec fn stays_open(s: sheet::Scan, b: Seq<u8>) -> bool {
    forall|k: int| 0 < k <= b.len() ==> #[trigger] sheet::scan(s, b.take(k)).depth > 0
}

/// A reader inside `depth` nodes and outside quotes.
pub open spec fn inside(depth: int) -> sheet::Scan {
    sheet::Scan { depth, quoted: false, escaped: false }
}

/// A reader inside a quoted string.
pub open spec fn in_quotes(depth: int) -> sheet::Scan {
    sheet::Scan { depth, quoted: true, escaped: false }
}

pub proof fn lemma_open_concat(s: sheet::Scan, a: Seq<u8>, b: Seq<u8>)
    requires
        stays_open(s, a),
        stays_open(sheet::scan(s, a), b),
    ensures
        stays_open(s, a + b),
{
    assert forall|k: int| 0 < k <= (a + b).len() implies #[trigger] sheet::scan(
        s,
        (a + b).take(k),
    ).depth > 0 by {
        if k <= a.len() {
            assert((a + b).take(k) == a.take(k));
            assert(sheet::scan(s, a.take(k)).depth > 0);
        } else {
            let m = k - a.len();
            assert((a + b).take(k) == a + b.take(m));
            sheet::lemma_scan_concat(s, a, b.take(m));
            assert(sheet::scan(sheet::scan(s, a), b.take(m)).depth > 0);
        }
    }
}

pub proof fn lemma_scan_plain(depth: int, b: Seq<u8>)
    requires
        plain(b),
    ensures
        sheet::scan(inside(depth), b) == inside(depth),
        depth > 0 ==> stays_open(inside(depth), b),
    decreases b.len(),
{
    if b.len() > 0 {
        assert forall|i: int| 0 <= i < b.drop_last().len() implies #[trigger] b.drop_last()[i]
            != sheet::OPEN && b.drop_last()[i] != sheet::CLOSE && b.drop_last()[i]
            != sheet::QUOTE by {
            assert(b.drop_last()[i] == b[i]);
        }
        lemma_scan_plain(depth, b.drop_last());
        assert(b[b.len() - 1] != sheet::OPEN);
        assert forall|k: int| depth > 0 && 0 < k <= b.len() implies #[trigger] sheet::scan(
            inside(depth),
            b.take(k),
        ).depth > 0 by {
            if k < b.len() {
                assert(b.take(k) == b.drop_last().take(k));
            } else {
                assert(b.take(k) == b);
            }
        }
    }
}

/// Reading one byte.
pub proof fn lemma_scan_one(s: sheet::Scan, c: u8)
    ensures
        sheet::scan(s, seq![c]) == sheet::scan_byte(s, c),
        sheet::scan_byte(s, c).depth > 0 ==> stays_open(s, seq![c]),
{
    let b = seq![c];
    assert(b.drop_last() == Seq::<u8>::empty());
    assert(sheet::scan(s, b.drop_last()) == s);
    assert forall|k: int|
        sheet::scan_byte(s, c).depth > 0 && 0 < k <= b.len() implies #[trigger] sheet::scan(
        s,
        b.take(k),
    ).depth > 0 by {
        assert(b.take(k) == b);
    }
}

/// Reading a parenthesis and then plain bytes.
pub proof fn lemma_scan_parenthesis(depth: int, b: Seq<u8>)
    requires
        b.len() > 0,
        b[0] == sheet::OPEN || b[0] == sheet::CLOSE,
        plain(b.skip(1)),
    ensures
        b[0] == sheet::OPEN ==> sheet::scan(inside(depth), b) == inside(depth + 1) && (depth >= 0
            ==> stays_open(inside(depth), b)),
        b[0] == sheet::CLOSE ==> sheet::scan(inside(depth), b) == inside(depth - 1) && (depth > 1
            ==> stays_open(inside(depth), b)),
{
    let first = seq![b[0]];
    let rest = b.skip(1);
    let after = if b[0] == sheet::OPEN {
        depth + 1
    } else {
        depth - 1
    };
    assert(b == first + rest);
    lemma_scan_one(inside(depth), b[0]);
    lemma_scan_plain(after, rest);
    sheet::lemma_scan_concat(inside(depth), first, rest);
    if after > 0 {
        lemma_open_concat(inside(depth), first, rest);
    }
}

// ---------------------------------------------------------------------------
// Quoted strings

pub proof fn lemma_scan_in_quotes(depth: int, b: Seq<u8>, k: int)
    requires
        0 <= k <= b.len(),
        forall|j: int| 0 <= j <= b.len() ==> #[trigger] sheet::scan(in_quotes(0), b.take(j)).quoted,
    ensures
        sheet::scan(in_quotes(depth), b.take(k)) == (sheet::Scan {
            depth,
            quoted: true,
            escaped: sheet::scan(in_quotes(0), b.take(k)).escaped,
        }),
    decreases k,
{
    if k > 0 {
        lemma_scan_in_quotes(depth, b, k - 1);
        assert(b.take(k).drop_last() == b.take(k - 1));
        assert(sheet::scan(in_quotes(0), b.take(k)).quoted);
        assert(sheet::scan(in_quotes(0), b.take(k - 1)).quoted);
    }
}

pub proof fn lemma_literal_bytes()
    ensures
        encode_utf8("\""@) == seq![sheet::QUOTE],
        encode_utf8(" "@) == seq![0x20u8],
        encode_utf8("\n"@) == seq![sheet::NEWLINE],
        encode_utf8(")"@) == seq![sheet::CLOSE],
        encode_utf8("\t"@) == seq![0x09u8],
        encode_utf8("  "@) == seq![0x20u8, 0x20u8],
        encode_utf8(")\n"@) == seq![sheet::CLOSE, sheet::NEWLINE],
        encode_utf8("\n\t("@) == seq![sheet::NEWLINE, 0x09u8, sheet::OPEN],
{
    reveal_strlit("\"");
    reveal_strlit(" ");
    reveal_strlit("\n");
    reveal_strlit(")");
    reveal_strlit("\t");
    reveal_strlit("  ");
    reveal_strlit(")\n");
    reveal_strlit("\n\t(");
    is_ascii_chars_encode_utf8("\""@);
    is_ascii_chars_encode_utf8(" "@);
    is_ascii_chars_encode_utf8("\n"@);
    is_ascii_chars_encode_utf8(")"@);
    is_ascii_chars_encode_utf8("\t"@);
    is_ascii_chars_encode_utf8("  "@);
    is_ascii_chars_encode_utf8(")\n"@);
    is_ascii_chars_encode_utf8("\n\t("@);
}

/// Reading a quoted string leaves the reader where it was.
pub proof fn lemma_scan_quoted(depth: int, s: Seq<char>)
    requires
        block::quotable(s),
        depth > 0,
    ensures
        sheet::scan(inside(depth), encode_utf8(block::quoted(s))) == inside(depth),
        stays_open(inside(depth), encode_utf8(block::quoted(s))),
{
    let b = encode_utf8(s);
    let q = seq![sheet::QUOTE];
    lemma_literal_bytes();
    text::lemma_encode_concat("\""@, s);
    text::lemma_encode_concat("\""@ + s, "\""@);
    assert(encode_utf8(block::quoted(s)) == (q + b) + q);
    lemma_scan_one(inside(depth), sheet::QUOTE);
    assert(b.take(b.len() as int) == b);
    assert forall|k: int| 0 <= k <= b.len() implies #[trigger] sheet::scan(
        in_quotes(depth),
        b.take(k),
    ).depth == depth by {
        lemma_scan_in_quotes(depth, b, k);
    }
    lemma_scan_in_quotes(depth, b, b.len() as int);
    assert(stays_open(in_quotes(depth), b));
    sheet::lemma_scan_concat(inside(depth), q, b);
    lemma_open_concat(inside(depth), q, b);
    lemma_scan_one(in_quotes(depth), sheet::QUOTE);
    sheet::lemma_scan_concat(inside(depth), q + b, q);
    lemma_open_concat(inside(depth), q + b, q);
}

pub proof fn lemma_scan_quoted_list(depth: int, members: Seq<Seq<char>>)
    requires
        forall|i: int| 0 <= i < members.len() ==> block::quotable(#[trigger] members[i]),
        depth > 0,
    ensures
        sheet::scan(inside(depth), encode_utf8(block::quoted_list(members))) == inside(depth),
        stays_open(inside(depth), encode_utf8(block::quoted_list(members))),
    decreases members.len(),
{
    if members.len() == 0 {
    } else if members.len() == 1 {
        lemma_scan_quoted(depth, members[0]);
    } else {
        let front = members.drop_last();
        let list = block::quoted_list(front);
        let last = block::quoted(members.last());
        assert forall|i: int| 0 <= i < front.len() implies block::quotable(#[trigger] front[i]) by {
            assert(front[i] == members[i]);
        }
        lemma_scan_quoted_list(depth, front);
        lemma_scan_quoted(depth, members[members.len() - 1]);
        lemma_literal_bytes();
        text::lemma_encode_concat(list, " "@);
        text::lemma_encode_concat(list + " "@, last);
        let (a, b, c) = (encode_utf8(list), encode_utf8(" "@), encode_utf8(last));
        lemma_scan_plain(depth, b);
        sheet::lemma_scan_concat(inside(depth), a, b);
        lemma_open_concat(inside(depth), a, b);
        sheet::lemma_scan_concat(inside(depth), a + b, c);
        lemma_open_concat(inside(depth), a + b, c);
    }
}

// ---------------------------------------------------------------------------
// A written block is one node

/// Indentation as sheets have it.
pub open spec fn is_indent(indent: Seq<char>) -> bool {
    indent == "\t"@ || indent == "  "@
}

/// The block without its last parenthesis.
pub open spec fn unclosed_block(name: Seq<char>, members: Seq<Seq<char>>, indent: Seq<char>) -> Seq<char> {
    "(bus_alias "@ + block::quoted(name) + "\n"@ + indent + indent + "(members "@
        + block::quoted_list(members) + ")\n"@ + indent
}

pub proof fn lemma_opening_words()
    ensures
        encode_utf8("(bus_alias "@).len() == 11,
        encode_utf8("(bus_alias "@)[0] == sheet::OPEN,
        encode_utf8("(bus_alias "@)[10] == 0x20,
        plain(encode_utf8("(bus_alias "@).skip(1)),
        forall|i: int|
            1 <= i < 10 ==> #[trigger] encode_utf8("(bus_alias "@)[i] != 0x20 && encode_utf8(
                "(bus_alias "@,
            )[i] != sheet::NEWLINE,
        encode_utf8("(members "@).len() == 9,
        encode_utf8("(members "@)[0] == sheet::OPEN,
        plain(encode_utf8("(members "@).skip(1)),
{
    reveal_strlit("(bus_alias ");
    reveal_strlit("(members ");
    is_ascii_chars_encode_utf8("(bus_alias "@);
    is_ascii_chars_encode_utf8("(members "@);
    let a = encode_utf8("(bus_alias "@);
    let m = encode_utf8("(members "@);
    assert forall|i: int| 0 <= i < a.skip(1).len() implies #[trigger] a.skip(1)[i] != sheet::OPEN
        && a.skip(1)[i] != sheet::CLOSE && a.skip(1)[i] != sheet::QUOTE by {
        assert(a.skip(1)[i] == a[i + 1]);
        assert("(bus_alias "@[i + 1] as u8 == a[i + 1]);
    }
    assert forall|i: int| 0 <= i < m.skip(1).len() implies #[trigger] m.skip(1)[i] != sheet::OPEN
        && m.skip(1)[i] != sheet::CLOSE && m.skip(1)[i] != sheet::QUOTE by {
        assert(m.skip(1)[i] == m[i + 1]);
        assert("(members "@[i + 1] as u8 == m[i + 1]);
    }
}

pub proof fn lemma_indent_bytes(indent: Seq<char>)
    requires
        is_indent(indent),
    ensures
        0 < encode_utf8(indent).len() <= 2,
        forall|i: int|
            0 <= i < encode_utf8(indent).len() ==> #[trigger] encode_utf8(indent)[i] == 0x09
                || encode_utf8(indent)[i] == 0x20,
        plain(encode_utf8(indent)),
{
    lemma_literal_bytes();
}

/// A written block reads as one node: it is open up to its last byte.
pub proof fn lemma_scan_block(name: Seq<char>, members: Seq<Seq<char>>, indent: Seq<char>)
    requires
        block::writable(name, members),
        is_indent(indent),
    ensures
        stays_open(sheet::fresh(), encode_utf8(unclosed_block(name, members, indent))),
        sheet::scan(sheet::fresh(), encode_utf8(unclosed_block(name, members, indent)))
            == inside(1),
        encode_utf8(block::alias_block(name, members, indent)) == encode_utf8(
            unclosed_block(name, members, indent),
        ).push(sheet::CLOSE),
{
    lemma_literal_bytes();
    lemma_opening_words();
    lemma_indent_bytes(indent);
    let n = block::quoted(name);
    let l = block::quoted_list(members);
    let c1 = "(bus_alias "@;
    let c2 = c1 + n;
    let c3 = c2 + "\n"@;
    let c4 = c3 + indent;
    let c5 = c4 + indent;
    let c6 = c5 + "(members "@;
    let c7 = c6 + l;
    let c8 = c7 + ")\n"@;
    let c9 = c8 + indent;
    text::lemma_encode_concat(c1, n);
    text::lemma_encode_concat(c2, "\n"@);
    text::lemma_encode_concat(c3, indent);
    text::lemma_encode_concat(c4, indent);
    text::lemma_encode_concat(c5, "(members "@);
    text::lemma_encode_concat(c6, l);
    text::lemma_encode_concat(c7, ")\n"@);
    text::lemma_encode_concat(c8, indent);
    text::lemma_encode_concat(c9, ")"@);
    assert(inside(0) == sheet::fresh());
    let newline = encode_utf8("\n"@);
    let close = encode_utf8(")\n"@);
    assert(plain(newline));
    assert(close.skip(1) == seq![sheet::NEWLINE]);
    assert(plain(close.skip(1)));
    lemma_scan_parenthesis(0, encode_utf8(c1));
    lemma_scan_quoted(1, name);
    lemma_step(c1, n, 1, 1);
    lemma_scan_plain(1, newline);
    lemma_step(c2, "\n"@, 1, 1);
    lemma_scan_plain(1, encode_utf8(indent));
    lemma_step(c3, indent, 1, 1);
    lemma_step(c4, indent, 1, 1);
    lemma_scan_parenthesis(1, encode_utf8("(members "@));
    lemma_step(c5, "(members "@, 1, 2);
    lemma_scan_quoted_list(2, members);
    lemma_step(c6, l, 2, 2);
    lemma_scan_parenthesis(2, close);
    lemma_step(c7, ")\n"@, 2, 1);
    lemma_step(c8, indent, 1, 1);
    assert(encode_utf8(c9) + seq![sheet::CLOSE] == encode_utf8(c9).push(sheet::CLOSE));
}

/// One more piece behind a text that was read up to `depth` open nodes.
pub proof fn lemma_step(a: Seq<char>, b: Seq<char>, depth: int, after: int)
    requires
        sheet::scan(sheet::fresh(), encode_utf8(a)) == inside(depth),
        stays_open(sheet::fresh(), encode_utf8(a)),
        sheet::scan(inside(depth), encode_utf8(b)) == inside(after),
        stays_open(inside(depth), encode_utf8(b)),
    ensures
        sheet::scan(sheet::fresh(), encode_utf8(a + b)) == inside(after),
        stays_open(sheet::fresh(), encode_utf8(a + b)),
{
    text::lemma_encode_concat(a, b);
    sheet::lemma_scan_concat(sheet::fresh(), encode_utf8(a), encode_utf8(b));
    lemma_open_concat(sheet::fresh(), encode_utf8(a), encode_utf8(b));
}

/// Wherever a block is written, the node that opens with it closes with it.
pub proof fn law_written_block_is_one_node(
    before: Seq<u8>,
    name: Seq<char>,
    members: Seq<Seq<char>>,
    indent: Seq<char>,
    after: Seq<u8>,
)
    requires
        block::writable(name, members),
        is_indent(indent),
    ensures
        ({
            let block = encode_utf8(block::alias_block(name, members, indent));
            sheet::node_close(before + block + after, before.len() as int) == Some(
                before.len() + block.len() - 1,
            )
        }),
{
    lemma_scan_block(name, members, indent);
    let body = encode_utf8(unclosed_block(name, members, indent));
    let block = encode_utf8(block::alias_block(name, members, indent));
    let t = before + block + after;
    let start = before.len() as int;
    let i = start + block.len() - 1;
    assert(t.subrange(start, i + 1) == block);
    assert(block.drop_last() == body);
    assert forall|j: int| start < j <= i implies #[trigger] sheet::scan(
        sheet::fresh(),
        t.subrange(start, j),
    ).depth > 0 by {
        assert(t.subrange(start, j) == body.take(j - start));
    }
    assert(body.len() > 0) by {
        if body.len() == 0 {
            assert(sheet::scan(sheet::fresh(), body) == sheet::fresh());
        }
    }
    assert(t[start] == sheet::OPEN) by {
        assert(t.subrange(start, start + 1) == body.take(1));
        assert(sheet::scan(sheet::fresh(), body.take(1)).depth > 0);
        lemma_scan_one(sheet::fresh(), t[start]);
        assert(body.take(1) == seq![t[start]]);
    }
    assert(sheet::closes_node(t, start, i));
    sheet::lemma_node_close(t, start, i);
}


// ---------------------------------------------------------------------------
// The nodes that a block opens

/// Every parenthesis that `b` opens, read from `s` on, stands in a string.
pub open spec fn opens_nothing(s: sheet::Scan, b: Seq<u8>) -> bool {
    forall|x: int|
        0 <= x < b.len() && #[trigger] b[x] == sheet::OPEN ==> sheet::scan(s, b.take(x)).quoted
}

pub proof fn lemma_opens_nothing_concat(s: sheet::Scan, a: Seq<u8>, b: Seq<u8>)
    requires
        opens_nothing(s, a),
        opens_nothing(sheet::scan(s, a), b),
    ensures
        opens_nothing(s, a + b),
{
    let c = a + b;
    assert forall|x: int| 0 <= x < c.len() && #[trigger] c[x] == sheet::OPEN implies sheet::scan(
        s,
        c.take(x),
    ).quoted by {
        if x < a.len() {
            assert(a[x] == sheet::OPEN);
            assert(c.take(x) == a.take(x));
        } else {
            let y = x - a.len();
            assert(b[y] == sheet::OPEN);
            assert(c.take(x) == a + b.take(y));
            sheet::lemma_scan_concat(s, a, b.take(y));
        }
    }
}

pub proof fn lemma_plain_opens_nothing(s: sheet::Scan, b: Seq<u8>)
    requires
        plain(b),
    ensures
        opens_nothing(s, b),
{
}

pub proof fn lemma_quoted_opens_nothing(depth: int, s: Seq<char>)
    requires
        block::quotable(s),
        depth > 0,
    ensures
        opens_nothing(inside(depth), encode_utf8(block::quoted(s))),
{
    let b = encode_utf8(s);
    let q = seq![sheet::QUOTE];
    lemma_quoted_bytes(s);
    lemma_scan_one(inside(depth), sheet::QUOTE);
    assert(opens_nothing(in_quotes(depth), b)) by {
        assert forall|x: int| 0 <= x < b.len() && #[trigger] b[x] == sheet::OPEN implies sheet::scan(
            in_quotes(depth),
            b.take(x),
        ).quoted by {
            lemma_scan_in_quotes(depth, b, x);
        }
    }
    assert(opens_nothing(inside(depth), q));
    lemma_opens_nothing_concat(inside(depth), q, b);
    assert(opens_nothing(sheet::scan(inside(depth), q + b), q));
    lemma_opens_nothing_concat(inside(depth), q + b, q);
}

pub proof fn lemma_quoted_bytes(s: Seq<char>)
    ensures
        encode_utf8(block::quoted(s)) == seq![sheet::QUOTE] + encode_utf8(s) + seq![sheet::QUOTE],
{
    lemma_literal_bytes();
    text::lemma_encode_concat("\""@, s);
    text::lemma_encode_concat("\""@ + s, "\""@);
}

pub proof fn lemma_list_opens_nothing(depth: int, members: Seq<Seq<char>>)
    requires
        forall|i: int| 0 <= i < members.len() ==> block::quotable(#[trigger] members[i]),
        depth > 0,
    ensures
        opens_nothing(inside(depth), encode_utf8(block::quoted_list(members))),
    decreases members.len(),
{
    if members.len() == 1 {
        lemma_quoted_opens_nothing(depth, members[0]);
    } else if members.len() > 1 {
        let front = members.drop_last();
        let list = block::quoted_list(front);
        let last = block::quoted(members.last());
        assert forall|i: int| 0 <= i < front.len() implies block::quotable(#[trigger] front[i]) by {
            assert(front[i] == members[i]);
        }
        lemma_list_opens_nothing(depth, front);
        lemma_scan_quoted_list(depth, front);
        lemma_quoted_opens_nothing(depth, members[members.len() - 1]);
        lemma_literal_bytes();
        text::lemma_encode_concat(list, " "@);
        text::lemma_encode_concat(list + " "@, last);
        let (a, b, c) = (encode_utf8(list), encode_utf8(" "@), encode_utf8(last));
        lemma_scan_plain(depth, b);
        lemma_plain_opens_nothing(inside(depth), b);
        lemma_opens_nothing_concat(inside(depth), a, b);
        sheet::lemma_scan_concat(inside(depth), a, b);
        lemma_opens_nothing_concat(inside(depth), a + b, c);
    }
}

pub proof fn lemma_opens_nothing_step(s: sheet::Scan, a: Seq<char>, b: Seq<char>)
    requires
        opens_nothing(s, encode_utf8(a)),
        opens_nothing(sheet::scan(s, encode_utf8(a)), encode_utf8(b)),
    ensures
        opens_nothing(s, encode_utf8(a + b)),
        sheet::scan(s, encode_utf8(a + b)) == sheet::scan(
            sheet::scan(s, encode_utf8(a)),
            encode_utf8(b),
        ),
{
    text::lemma_encode_concat(a, b);
    sheet::lemma_scan_concat(s, encode_utf8(a), encode_utf8(b));
    lemma_opens_nothing_concat(s, encode_utf8(a), encode_utf8(b));
}

/// A block between its two opening parentheses.
pub open spec fn block_head(name: Seq<char>, indent: Seq<char>) -> Seq<char> {
    "bus_alias "@ + block::quoted(name) + "\n"@ + indent + indent
}

/// A block behind its second opening parenthesis.
pub open spec fn block_tail(members: Seq<Seq<char>>, indent: Seq<char>) -> Seq<char> {
    "members "@ + block::quoted_list(members) + ")\n"@ + indent + ")"@
}

pub proof fn lemma_block_pieces(name: Seq<char>, members: Seq<Seq<char>>, indent: Seq<char>)
    ensures
        encode_utf8(block::alias_block(name, members, indent)) == seq![sheet::OPEN] + encode_utf8(
            block_head(name, indent),
        ) + seq![sheet::OPEN] + encode_utf8(block_tail(members, indent)),
        encode_utf8(block_tail(members, indent)).len() > 0,
        encode_utf8(block_tail(members, indent))[0] == 0x6d,
{
    reveal_strlit("(bus_alias ");
    reveal_strlit("bus_alias ");
    reveal_strlit("(members ");
    reveal_strlit("members ");
    reveal_strlit("(");
    is_ascii_chars_encode_utf8("("@);
    is_ascii_chars_encode_utf8("members "@);
    let open = "("@;
    let (h, l) = (block_head(name, indent), block_tail(members, indent));
    assert("(bus_alias "@ == open + "bus_alias "@);
    assert("(members "@ == open + "members "@);
    assert(block::alias_block(name, members, indent) == open + h + open + l);
    text::lemma_encode_concat(open, h);
    text::lemma_encode_concat(open + h, open);
    text::lemma_encode_concat(open + h + open, l);
    assert(encode_utf8(open) == seq![sheet::OPEN]);
    let rest = block::quoted_list(members) + ")\n"@ + indent + ")"@;
    assert(l == "members "@ + rest);
    text::lemma_encode_concat("members "@, rest);
}

/// The only nodes that open in a block are the block itself and its `members`.
pub proof fn lemma_block_opens(
    name: Seq<char>,
    members: Seq<Seq<char>>,
    indent: Seq<char>,
    x: int,
)
    requires
        block::writable(name, members),
        is_indent(indent),
    ensures
        ({
            let b = encode_utf8(block::alias_block(name, members, indent));
            0 < x < b.len() && b[x] == sheet::OPEN && !sheet::reading(b, x).quoted ==> x + 1
                < b.len() && b[x + 1] == 0x6d
        }),
{
    let b = encode_utf8(block::alias_block(name, members, indent));
    let (h, l) = (encode_utf8(block_head(name, indent)), encode_utf8(block_tail(members, indent)));
    let open = seq![sheet::OPEN];
    lemma_block_pieces(name, members, indent);
    if 0 < x < b.len() && b[x] == sheet::OPEN {
        let n = h.len() as int;
        lemma_head_and_tail(name, members, indent);
        lemma_scan_one(sheet::fresh(), sheet::OPEN);
        if x < n + 1 {
            assert(h[x - 1] == sheet::OPEN);
            assert(b.take(x) == open + h.take(x - 1));
            sheet::lemma_scan_concat(sheet::fresh(), open, h.take(x - 1));
        } else if x == n + 1 {
            assert(b[x + 1] == l[0]);
        } else {
            let y = x - n - 2;
            assert(l[y] == sheet::OPEN);
            assert(b.take(x) == open + h + open + l.take(y));
            sheet::lemma_scan_concat(sheet::fresh(), open, h);
            sheet::lemma_scan_concat(sheet::fresh(), open + h, open);
            lemma_scan_one(inside(1), sheet::OPEN);
            sheet::lemma_scan_concat(sheet::fresh(), open + h + open, l.take(y));
        }
    }
}

proof fn lemma_head_and_tail(name: Seq<char>, members: Seq<Seq<char>>, indent: Seq<char>)
    requires
        block::writable(name, members),
        is_indent(indent),
    ensures
        opens_nothing(inside(1), encode_utf8(block_head(name, indent))),
        sheet::scan(inside(1), encode_utf8(block_head(name, indent))) == inside(1),
        opens_nothing(inside(2), encode_utf8(block_tail(members, indent))),
{
    reveal_strlit("bus_alias ");
    reveal_strlit("members ");
    is_ascii_chars_encode_utf8("bus_alias "@);
    is_ascii_chars_encode_utf8("members "@);
    lemma_literal_bytes();
    lemma_indent_bytes(indent);
    let (a, m) = (encode_utf8("bus_alias "@), encode_utf8("members "@));
    assert forall|i: int| 0 <= i < a.len() implies #[trigger] a[i] != sheet::OPEN && a[i]
        != sheet::CLOSE && a[i] != sheet::QUOTE by {
        assert("bus_alias "@[i] as u8 == a[i]);
    }
    assert forall|i: int| 0 <= i < m.len() implies #[trigger] m[i] != sheet::OPEN && m[i]
        != sheet::CLOSE && m[i] != sheet::QUOTE by {
        assert("members "@[i] as u8 == m[i]);
    }
    assert(plain(a) && plain(m) && plain(encode_utf8("\n"@)));
    let i1 = inside(1);
    let c1 = "bus_alias "@;
    let c2 = c1 + block::quoted(name);
    let c3 = c2 + "\n"@;
    let c4 = c3 + indent;
    lemma_scan_plain(1, a);
    lemma_scan_quoted(1, name);
    lemma_quoted_opens_nothing(1, name);
    lemma_opens_nothing_step(i1, c1, block::quoted(name));
    lemma_scan_plain(1, encode_utf8("\n"@));
    lemma_opens_nothing_step(i1, c2, "\n"@);
    lemma_scan_plain(1, encode_utf8(indent));
    lemma_opens_nothing_step(i1, c3, indent);
    lemma_opens_nothing_step(i1, c4, indent);
    let i2 = inside(2);
    let d1 = "members "@;
    let d2 = d1 + block::quoted_list(members);
    let d3 = d2 + ")\n"@;
    let d4 = d3 + indent;
    lemma_scan_plain(2, m);
    lemma_scan_quoted_list(2, members);
    lemma_list_opens_nothing(2, members);
    lemma_opens_nothing_step(i2, d1, block::quoted_list(members));
    assert(opens_nothing(i2, encode_utf8(")\n"@)));
    lemma_opens_nothing_step(i2, d2, ")\n"@);
    let s3 = sheet::scan(i2, encode_utf8(d3));
    assert(opens_nothing(s3, encode_utf8(indent)));
    lemma_opens_nothing_step(i2, d3, indent);
    let s4 = sheet::scan(i2, encode_utf8(d4));
    assert(opens_nothing(s4, encode_utf8(")"@)));
    lemma_opens_nothing_step(i2, d4, ")"@);
}

} // verus!
