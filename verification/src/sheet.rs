//! The text of a schematic sheet: where a node ends, and where a new bus alias
//! goes.
//!
//! A sheet is one S-expression. Offsets are byte offsets into its text.

use crate::text;
use vstd::prelude::*;
use vstd::string::*;
use vstd::utf8::*;

verus! {

/// `(`
pub const OPEN: u8 = 0x28;

/// `)`
pub const CLOSE: u8 = 0x29;

/// `"`
pub const QUOTE: u8 = 0x22;

/// `\\`
pub const BACKSLASH: u8 = 0x5c;

/// The byte that ends a line.
pub const NEWLINE: u8 = 0x0a;

// ---------------------------------------------------------------------------
// Where a node ends

/// How far a reader of S-expressions has come: the number of nodes that are
/// open, and whether it is inside a quoted string, just behind a backslash.
pub struct Scan {
    pub depth: int,
    pub quoted: bool,
    pub escaped: bool,
}

/// A reader in front of a node.
pub open spec fn fresh() -> Scan {
    Scan { depth: 0, quoted: false, escaped: false }
}

/// Reads one byte. Parentheses count only outside quoted strings, and a quote
/// behind a backslash does not end a string.
pub open spec fn scan_byte(s: Scan, c: u8) -> Scan {
    if s.quoted {
        if s.escaped {
            Scan { escaped: false, ..s }
        } else if c == BACKSLASH {
            Scan { escaped: true, ..s }
        } else if c == QUOTE {
            Scan { quoted: false, ..s }
        } else {
            s
        }
    } else if c == QUOTE {
        Scan { quoted: true, ..s }
    } else if c == OPEN {
        Scan { depth: s.depth + 1, ..s }
    } else if c == CLOSE {
        Scan { depth: s.depth - 1, ..s }
    } else {
        s
    }
}

/// Reads `bytes`, one after the other.
pub open spec fn scan(s: Scan, bytes: Seq<u8>) -> Scan
    decreases bytes.len(),
{
    if bytes.len() == 0 {
        s
    } else {
        scan_byte(scan(s, bytes.drop_last()), bytes.last())
    }
}

/// Reading `a` and then `b`.
pub proof fn lemma_scan_concat(s: Scan, a: Seq<u8>, b: Seq<u8>)
    ensures
        scan(s, a + b) == scan(scan(s, a), b),
    decreases b.len(),
{
    if b.len() == 0 {
        assert(a + b == a);
    } else {
        lemma_scan_concat(s, a, b.drop_last());
        assert((a + b).drop_last() == a + b.drop_last());
        assert((a + b).last() == b.last());
    }
}

/// Outside quotes there is no backslash to remember.
pub proof fn lemma_scan_unquoted(s: Scan, b: Seq<u8>)
    requires
        !s.quoted ==> !s.escaped,
    ensures
        !scan(s, b).quoted ==> !scan(s, b).escaped,
    decreases b.len(),
{
    if b.len() > 0 {
        lemma_scan_unquoted(s, b.drop_last());
    }
}

/// A reader that starts inside some nodes reads as one in front of all.
pub proof fn lemma_scan_deeper(depth: int, s: Scan, b: Seq<u8>)
    ensures
        scan(Scan { depth: s.depth + depth, ..s }, b) == (Scan {
            depth: scan(s, b).depth + depth,
            ..scan(s, b)
        }),
    decreases b.len(),
{
    if b.len() > 0 {
        lemma_scan_deeper(depth, s, b.drop_last());
    }
}

/// How far a reader of the whole text has come at offset `i`.
pub open spec fn reading(t: Seq<u8>, i: int) -> Scan {
    scan(fresh(), t.take(i))
}

/// Offset `i` stands outside quoted strings.
pub open spec fn outside_strings(t: Seq<u8>, i: int) -> bool {
    0 <= i <= t.len() && !reading(t, i).quoted
}

/// What a reader sees from offset `i` on, if that stands outside quoted strings,
/// is what it sees of the rest alone, but for the nodes that are open.
pub proof fn lemma_reading_rest(t: Seq<u8>, i: int, k: int)
    requires
        outside_strings(t, i),
        0 <= k <= t.len() - i,
    ensures
        reading(t, i + k) == (Scan {
            depth: reading(t, i).depth + reading(t.skip(i), k).depth,
            ..reading(t.skip(i), k)
        }),
        reading(t.skip(i), k) == scan(fresh(), t.subrange(i, i + k)),
{
    assert(t.take(i + k) == t.take(i) + t.skip(i).take(k));
    lemma_scan_concat(fresh(), t.take(i), t.skip(i).take(k));
    lemma_scan_unquoted(fresh(), t.take(i));
    lemma_scan_deeper(reading(t, i).depth, fresh(), t.skip(i).take(k));
    assert(t.skip(i).take(k) == t.subrange(i, i + k));
}

/// Reading one more byte.
pub proof fn lemma_reading_next(t: Seq<u8>, i: int)
    requires
        0 <= i < t.len(),
    ensures
        reading(t, i + 1) == scan_byte(reading(t, i), t[i]),
{
    assert(t.take(i + 1).drop_last() == t.take(i));
}

/// Reads one byte, as far as quotes go.
pub fn read_byte(in_string: bool, escaped: bool, c: u8) -> (after: (bool, bool))
    ensures
        forall|depth: int|
            {
                let after_byte = #[trigger] scan_byte(
                    Scan { depth, quoted: in_string, escaped },
                    c,
                );
                after == (after_byte.quoted, after_byte.escaped)
            },
{
    if in_string {
        if escaped {
            (true, false)
        } else if c == BACKSLASH {
            (true, true)
        } else {
            (c != QUOTE, false)
        }
    } else {
        (c == QUOTE, escaped)
    }
}

/// `i` is the least offset from `from` on at which `p` holds.
pub open spec fn is_least(p: spec_fn(int) -> bool, from: int, i: int) -> bool {
    &&& from <= i
    &&& p(i)
    &&& forall|j: int| from <= j < i ==> !#[trigger] p(j)
}

/// The least offset from `from` on at which `p` holds, if there is one.
pub open spec fn least(p: spec_fn(int) -> bool, from: int) -> Option<int> {
    if exists|i: int| is_least(p, from, i) {
        Some(choose|i: int| is_least(p, from, i))
    } else {
        None
    }
}

/// There is one least offset only.
pub proof fn lemma_least(p: spec_fn(int) -> bool, from: int, i: int)
    requires
        is_least(p, from, i),
    ensures
        least(p, from) == Some(i),
{
    let k = choose|k: int| is_least(p, from, k);
    assert(is_least(p, from, k));
    assert(p(k) && p(i));
}

/// Where `p` holds at all, it has a least offset.
pub proof fn lemma_least_exists(p: spec_fn(int) -> bool, from: int, i: int)
    requires
        from <= i,
        p(i),
    ensures
        least(p, from) matches Some(k) && is_least(p, from, k) && k <= i,
    decreases i - from,
{
    if exists|j: int| from <= j < i && #[trigger] p(j) {
        let j = choose|j: int| from <= j < i && #[trigger] p(j);
        lemma_least_exists(p, from, j);
    } else {
        lemma_least(p, from, i);
    }
}

/// The node that opens at `start` is closed by the parenthesis at `i`.
pub open spec fn closes_node(t: Seq<u8>, start: int, i: int) -> bool {
    &&& 0 <= start <= i < t.len()
    &&& t[start] == OPEN
    &&& scan(fresh(), t.subrange(start, i + 1)).depth == 0
    &&& forall|j: int|
        start < j <= i ==> #[trigger] scan(fresh(), t.subrange(start, j)).depth > 0
}

/// The offset of the parenthesis that closes the node at `start`.
pub open spec fn node_close(t: Seq<u8>, start: int) -> Option<int> {
    if exists|i: int| closes_node(t, start, i) {
        Some(choose|i: int| closes_node(t, start, i))
    } else {
        None
    }
}

/// A node is closed at one offset only.
pub proof fn lemma_node_close(t: Seq<u8>, start: int, i: int)
    requires
        closes_node(t, start, i),
    ensures
        node_close(t, start) == Some(i),
{
    let k = choose|k: int| closes_node(t, start, k);
    assert(closes_node(t, start, k));
    if i < k {
        assert(scan(fresh(), t.subrange(start, i + 1)).depth > 0);
    } else if k < i {
        assert(scan(fresh(), t.subrange(start, k + 1)).depth > 0);
    }
}

proof fn lemma_scan_next(t: Seq<u8>, start: int, i: int)
    requires
        0 <= start <= i < t.len(),
    ensures
        scan(fresh(), t.subrange(start, i + 1)) == scan_byte(
            scan(fresh(), t.subrange(start, i)),
            t[i],
        ),
{
    assert(t.subrange(start, i + 1).drop_last() == t.subrange(start, i));
}

/// What closes a node is a closing parenthesis behind its opening one.
pub proof fn lemma_close_is_parenthesis(t: Seq<u8>, start: int, i: int)
    requires
        closes_node(t, start, i),
    ensures
        start < i,
        t[i] == CLOSE,
{
    lemma_scan_next(t, start, i);
    assert(t.subrange(start, start) == Seq::<u8>::empty());
}

/// Byte offset of the `)` that closes the node at `start`. Quoted strings are
/// honoured: descriptions hold parentheses, and those end no node.
pub fn close_of_node(content: &str, start: usize) -> (close: Option<usize>)
    ensures
        match close {
            Some(i) => node_close(content.spec_bytes(), start as int) == Some(i as int),
            None => node_close(content.spec_bytes(), start as int) is None,
        },
        close matches Some(i) ==> closes_node(content.spec_bytes(), start as int, i as int),
{
    let bytes = content.as_bytes();
    let ghost t = content.spec_bytes();
    if start >= bytes.len() || bytes[start] != OPEN {
        assert forall|i: int| !closes_node(t, start as int, i) by {}
        return None;
    }
    let mut depth: usize = 0;
    let mut in_string: bool = false;
    let mut escaped: bool = false;
    let mut i: usize = start;
    assert(t.subrange(start as int, start as int) == Seq::<u8>::empty());
    while i < bytes.len()
        invariant
            bytes@ == t,
            t == content.spec_bytes(),
            start <= i <= t.len(),
            start < t.len(),
            t[start as int] == OPEN,
            depth <= i - start,
            scan(fresh(), t.subrange(start as int, i as int)) == (Scan {
                depth: depth as int,
                quoted: in_string,
                escaped,
            }),
            i == start ==> !in_string,
            forall|j: int|
                start < j <= i ==> #[trigger] scan(fresh(), t.subrange(start as int, j)).depth > 0,
        decreases bytes@.len() - i,
    {
        let c: u8 = bytes[i];
        proof {
            lemma_scan_next(t, start as int, i as int);
        }
        if in_string {
            if escaped {
                escaped = false;
            } else if c == BACKSLASH {
                escaped = true;
            } else if c == QUOTE {
                in_string = false;
            }
        } else if c == QUOTE {
            in_string = true;
        } else if c == OPEN {
            depth = depth + 1;
        } else if c == CLOSE {
            depth = depth - 1;
            if depth == 0 {
                proof {
                    assert(closes_node(t, start as int, i as int));
                    lemma_node_close(t, start as int, i as int);
                }
                return Some(i);
            }
        }
        i = i + 1;
    }
    proof {
        assert forall|k: int| !closes_node(t, start as int, k) by {
            if start <= k < t.len() {
                assert(scan(fresh(), t.subrange(start as int, k + 1)).depth > 0);
            }
        }
    }
    None
}

// ---------------------------------------------------------------------------
// Where a new alias goes

/// `needle` stands at `i`, outside quoted strings.
pub open spec fn stands_outside(t: Seq<u8>, needle: Seq<u8>) -> spec_fn(int) -> bool {
    |i: int| text::occurs_at(t, needle, i) && outside_strings(t, i)
}

/// A line ends at `i`, outside quoted strings.
pub open spec fn ends_line(t: Seq<u8>) -> spec_fn(int) -> bool {
    |i: int| 0 <= i < t.len() && t[i] == NEWLINE && outside_strings(t, i)
}

/// Offset behind the node that opens at `start`.
pub open spec fn behind_node(t: Seq<u8>, start: int) -> Option<int> {
    match node_close(t, start) {
        Some(i) => Some(i + 1),
        None => None,
    }
}

/// Where a new alias is written: straight behind the `lib_symbols` node, or, in
/// a sheet without one, at the end of the line of the sheet's `uuid`. Both are
/// looked for at the first level of indentation, by tab and then by two spaces,
/// and outside quoted strings. A `lib_symbols` node that never closes leaves no
/// place.
pub open spec fn insert_offset(t: Seq<u8>) -> Option<int> {
    match least(stands_outside(t, "\n\t(lib_symbols".spec_bytes()), 0) {
        Some(found) => behind_node(t, found + 2),
        None => match least(stands_outside(t, "\n  (lib_symbols".spec_bytes()), 0) {
            Some(found) => behind_node(t, found + 3),
            None => match least(stands_outside(t, "\n\t(uuid ".spec_bytes()), 0) {
                Some(found) => least(ends_line(t), found + 2),
                None => match least(stands_outside(t, "\n  (uuid ".spec_bytes()), 0) {
                    Some(found) => least(ends_line(t), found + 3),
                    None => None,
                },
            },
        },
    }
}

/// An offset for a new alias: inside the sheet and outside quoted strings,
/// behind a parenthesis or at the end of a line.
pub open spec fn is_place(t: Seq<u8>, at: int) -> bool {
    &&& outside_strings(t, at)
    &&& (at < t.len() && t[at] == NEWLINE) || (at > 0 && t[at - 1] == CLOSE)
}

/// A new alias goes to such an offset.
pub proof fn lemma_insert_offset(t: Seq<u8>)
    ensures
        insert_offset(t) matches Some(at) ==> is_place(t, at),
{
    if let Some(at) = insert_offset(t) {
        let tab_symbols = stands_outside(t, "\n\t(lib_symbols".spec_bytes());
        let symbols = stands_outside(t, "\n  (lib_symbols".spec_bytes());
        lemma_opener_bytes();
        if let Some(found) = least(tab_symbols, 0) {
            assert(is_least(tab_symbols, 0, found));
            lemma_opener_start(t, "\n\t(lib_symbols".spec_bytes(), found, 2);
            lemma_behind_node(t, found + 2);
        } else if let Some(found) = least(symbols, 0) {
            assert(is_least(symbols, 0, found));
            lemma_opener_start(t, "\n  (lib_symbols".spec_bytes(), found, 3);
            lemma_behind_node(t, found + 3);
        } else {
            let from = match least(stands_outside(t, "\n\t(uuid ".spec_bytes()), 0) {
                Some(found) => found + 2,
                None => least(stands_outside(t, "\n  (uuid ".spec_bytes()), 0)->0 + 3,
            };
            assert(is_least(ends_line(t), from, at));
        }
    }
}

/// The parenthesis of an opener stands outside quoted strings as the opener does.
proof fn lemma_opener_start(t: Seq<u8>, opener: Seq<u8>, found: int, indent: int)
    requires
        text::occurs_at(t, opener, found),
        outside_strings(t, found),
        0 <= indent < opener.len(),
        opener[indent] == OPEN,
        forall|k: int|
            0 <= k < indent ==> #[trigger] opener[k] != QUOTE && opener[k] != OPEN && opener[k]
                != CLOSE,
    ensures
        outside_strings(t, found + indent),
        t[found + indent] == OPEN,
    decreases indent,
{
    assert(t.subrange(found, found + opener.len())[indent] == t[found + indent]);
    lemma_outside_run(t, opener, found, indent);
}

proof fn lemma_outside_run(t: Seq<u8>, opener: Seq<u8>, found: int, n: int)
    requires
        text::occurs_at(t, opener, found),
        outside_strings(t, found),
        0 <= n <= opener.len(),
        forall|k: int|
            0 <= k < n ==> #[trigger] opener[k] != QUOTE && opener[k] != OPEN && opener[k] != CLOSE,
    ensures
        outside_strings(t, found + n),
    decreases n,
{
    if n > 0 {
        lemma_outside_run(t, opener, found, n - 1);
        lemma_reading_next(t, found + n - 1);
        assert(t.subrange(found, found + opener.len())[n - 1] == t[found + n - 1]);
        assert(opener[n - 1] != QUOTE);
    }
}

/// Behind a node that opens outside quoted strings a reader is outside them.
pub proof fn lemma_behind_node(t: Seq<u8>, start: int)
    requires
        outside_strings(t, start),
    ensures
        node_close(t, start) matches Some(i) ==> {
            &&& closes_node(t, start, i)
            &&& t[i] == CLOSE
            &&& outside_strings(t, i + 1)
            &&& reading(t, i + 1).depth == reading(t, start).depth
        },
{
    if let Some(i) = node_close(t, start) {
        assert(closes_node(t, start, i));
        lemma_close_is_parenthesis(t, start, i);
        lemma_reading_rest(t, start, i + 1 - start);
        lemma_scan_next(t, start, i);
    }
}

proof fn lemma_opener_bytes()
    ensures
        "\n\t(lib_symbols".spec_bytes().len() == 14,
        "\n\t(lib_symbols".spec_bytes()[0] == NEWLINE,
        "\n\t(lib_symbols".spec_bytes()[1] == 0x09,
        "\n\t(lib_symbols".spec_bytes()[2] == OPEN,
        "\n  (lib_symbols".spec_bytes().len() == 15,
        "\n  (lib_symbols".spec_bytes()[0] == NEWLINE,
        "\n  (lib_symbols".spec_bytes()[1] == 0x20,
        "\n  (lib_symbols".spec_bytes()[2] == 0x20,
        "\n  (lib_symbols".spec_bytes()[3] == OPEN,
        "\n\t(uuid ".spec_bytes().len() == 8,
        "\n  (uuid ".spec_bytes().len() == 9,
{
    reveal_strlit("\n\t(lib_symbols");
    reveal_strlit("\n  (lib_symbols");
    reveal_strlit("\n\t(uuid ");
    reveal_strlit("\n  (uuid ");
    is_ascii_spec_bytes("\n\t(lib_symbols");
    is_ascii_spec_bytes("\n  (lib_symbols");
    is_ascii_spec_bytes("\n\t(uuid ");
    is_ascii_spec_bytes("\n  (uuid ");
}

/// The first `needle` outside quoted strings.
fn find_outside(bytes: &[u8], needle: &[u8]) -> (at: Option<usize>)
    ensures
        match at {
            Some(i) => is_least(stands_outside(bytes@, needle@), 0, i as int) && least(
                stands_outside(bytes@, needle@),
                0,
            ) == Some(i as int),
            None => least(stands_outside(bytes@, needle@), 0) is None,
        },
{
    let ghost t = bytes@;
    let ghost p = stands_outside(t, needle@);
    let mut in_string: bool = false;
    let mut escaped: bool = false;
    let mut i: usize = 0;
    loop
        invariant
            t == bytes@,
            p == stands_outside(t, needle@),
            i <= t.len(),
            in_string == reading(t, i as int).quoted,
            escaped == reading(t, i as int).escaped,
            forall|j: int| 0 <= j < i ==> !#[trigger] p(j),
        decreases t.len() - i,
    {
        if !in_string && text::stands_at(bytes, needle, i) {
            proof {
                assert(p(i as int));
                lemma_least(p, 0, i as int);
            }
            return Some(i);
        }
        if i == bytes.len() {
            assert forall|k: int| !is_least(p, 0, k) by {
                if is_least(p, 0, k) {
                    assert(p(k));
                }
            }
            return None;
        }
        proof {
            lemma_reading_next(t, i as int);
        }
        let (quoted, behind_backslash) = read_byte(in_string, escaped, bytes[i]);
        in_string = quoted;
        escaped = behind_backslash;
        i = i + 1;
    }
}

/// The first end of a line from `from` on, outside quoted strings.
fn end_of_line(bytes: &[u8], from: usize) -> (end: Option<usize>)
    requires
        from <= bytes@.len(),
        outside_strings(bytes@, from as int),
    ensures
        match end {
            Some(i) => least(ends_line(bytes@), from as int) == Some(i as int) && i < bytes@.len()
                && bytes@[i as int] == NEWLINE,
            None => least(ends_line(bytes@), from as int) is None,
        },
{
    let ghost t = bytes@;
    let ghost p = ends_line(t);
    let mut in_string: bool = false;
    let mut escaped: bool = false;
    let mut i: usize = from;
    proof {
        lemma_scan_unquoted(fresh(), t.take(from as int));
    }
    while i < bytes.len()
        invariant
            t == bytes@,
            p == ends_line(t),
            from <= i <= t.len(),
            in_string == reading(t, i as int).quoted,
            escaped == reading(t, i as int).escaped,
            forall|j: int| from <= j < i ==> !#[trigger] p(j),
        decreases t.len() - i,
    {
        if !in_string && bytes[i] == NEWLINE {
            proof {
                assert(p(i as int));
                lemma_least(p, from as int, i as int);
            }
            return Some(i);
        }
        proof {
            lemma_reading_next(t, i as int);
        }
        let (quoted, behind_backslash) = read_byte(in_string, escaped, bytes[i]);
        in_string = quoted;
        escaped = behind_backslash;
        i = i + 1;
    }
    assert forall|k: int| !is_least(p, from as int, k) by {
        if is_least(p, from as int, k) {
            assert(p(k));
        }
    }
    None
}

/// Byte offset at which a new alias is written, if the sheet has a place for it.
pub fn alias_insert_offset(content: &str) -> (at: Option<usize>)
    ensures
        match at {
            Some(i) => insert_offset(content.spec_bytes()) == Some(i as int),
            None => insert_offset(content.spec_bytes()) is None,
        },
        at matches Some(i) ==> i <= content.spec_bytes().len() && is_char_boundary(
            content.spec_bytes(),
            i as int,
        ),
{
    let bytes = content.as_bytes();
    // A text has no more bytes than `usize` counts.
    let _length: usize = bytes.len();
    let ghost t = content.spec_bytes();
    proof {
        encode_utf8_valid_utf8(content@);
        lemma_opener_bytes();
    }
    if let Some(found) = find_outside(bytes, "\n\t(lib_symbols".as_bytes()) {
        return behind(content, found + 2);
    }
    if let Some(found) = find_outside(bytes, "\n  (lib_symbols".as_bytes()) {
        return behind(content, found + 3);
    }
    let from: usize = if let Some(found) = find_outside(bytes, "\n\t(uuid ".as_bytes()) {
        proof {
            reveal_strlit("\n\t(uuid ");
            is_ascii_spec_bytes("\n\t(uuid ");
            lemma_outside_run(t, "\n\t(uuid ".spec_bytes(), found as int, 2);
        }
        found + 2
    } else if let Some(found) = find_outside(bytes, "\n  (uuid ".as_bytes()) {
        proof {
            reveal_strlit("\n  (uuid ");
            is_ascii_spec_bytes("\n  (uuid ");
            lemma_outside_run(t, "\n  (uuid ".spec_bytes(), found as int, 3);
        }
        found + 3
    } else {
        return None;
    };
    match end_of_line(bytes, from) {
        Some(i) => {
            proof {
                text::lemma_ascii_boundaries(bytes@, i as int);
            }
            Some(i)
        },
        None => None,
    }
}

fn behind(content: &str, start: usize) -> (at: Option<usize>)
    ensures
        match at {
            Some(i) => behind_node(content.spec_bytes(), start as int) == Some(i as int),
            None => behind_node(content.spec_bytes(), start as int) is None,
        },
        at matches Some(i) ==> i <= content.spec_bytes().len() && is_char_boundary(
            content.spec_bytes(),
            i as int,
        ),
{
    // A text has no more bytes than `usize` counts.
    let _length: usize = content.as_bytes().len();
    match close_of_node(content, start) {
        Some(i) => {
            proof {
                encode_utf8_valid_utf8(content@);
                lemma_close_is_parenthesis(content.spec_bytes(), start as int, i as int);
                text::lemma_ascii_boundaries(content.spec_bytes(), i as int);
            }
            Some(i + 1)
        },
        None => None,
    }
}

} // verus!
