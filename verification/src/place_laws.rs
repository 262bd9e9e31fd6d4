//! Laws of reading a sheet and of the place of a new alias in it.

use crate::block;
use crate::block_laws;
use crate::definitions;
use crate::sheet;
use crate::text;
use vstd::prelude::*;
use vstd::string::*;

verus! {

// ---------------------------------------------------------------------------
// Reading

/// Outside quoted strings a reader counts parentheses: it stands inside as many
/// nodes more as there are opening ones beyond the closing ones.
pub proof fn law_reader_counts_parentheses(s: sheet::Scan, b: Seq<u8>)
    requires
        !s.quoted,
        !b.contains(0x22),
    ensures
        sheet::scan(s, b).depth == s.depth + b.filter(|c: u8| c == 0x28).len() - b.filter(
            |c: u8| c == 0x29,
        ).len(),
        !sheet::scan(s, b).quoted,
        sheet::scan(s, b).escaped == s.escaped,
    decreases b.len(),
{
    reveal(Seq::filter);
    if b.len() > 0 {
        let front = b.drop_last();
        assert(!front.contains(0x22)) by {
            if front.contains(0x22) {
                let k = choose|k: int| 0 <= k < front.len() && front[k] == 0x22;
                assert(b[k] == 0x22);
            }
        }
        assert(b[b.len() - 1] != 0x22);
        law_reader_counts_parentheses(s, front);
    }
}

/// A quoted string is passed over whole: it begins and ends with a quote, and in
/// it neither a parenthesis counts nor a quote behind a backslash.
pub proof fn law_reader_passes_over_strings(depth: int, b: Seq<u8>, c: u8)
    requires
        !b.contains(0x22),
        !b.contains(0x5c),
    ensures
        ({
            let outside = (sheet::Scan { depth, quoted: false, escaped: false });
            let inside = (sheet::Scan { depth, quoted: true, escaped: false });
            &&& sheet::scan(outside, seq![0x22u8]) == inside
            &&& sheet::scan(inside, b) == inside
            &&& sheet::scan(inside, seq![0x5cu8, c]) == inside
            &&& sheet::scan(inside, seq![0x22u8]) == outside
        }),
    decreases b.len(),
{
    let inside = (sheet::Scan { depth, quoted: true, escaped: false });
    let outside = (sheet::Scan { depth, quoted: false, escaped: false });
    let quote = seq![0x22u8];
    let pair = seq![0x5cu8, c];
    let none = Seq::<u8>::empty();
    assert(quote.drop_last() == none);
    assert(sheet::scan(inside, none) == inside && sheet::scan(outside, none) == outside);
    assert(sheet::scan(outside, quote) == inside && sheet::scan(inside, quote) == outside);
    assert(pair.drop_last() == seq![0x5cu8]);
    assert(seq![0x5cu8].drop_last() == none);
    assert(sheet::scan(inside, seq![0x5cu8]) == (sheet::Scan {
        depth,
        quoted: true,
        escaped: true,
    }));
    if b.len() > 0 {
        let front = b.drop_last();
        assert forall|x: u8| front.contains(x) implies b.contains(x) by {
            let k = choose|k: int| 0 <= k < front.len() && front[k] == x;
            assert(b[k] == x);
        }
        assert(b.contains(b[b.len() - 1]));
        law_reader_passes_over_strings(depth, front, c);
    }
}

/// A reader reads on from where it is, and nothing that it has not come to
/// counts.
pub proof fn law_reader_reads_on(t: Seq<u8>, i: int, k: int)
    requires
        0 <= i,
        0 <= k,
        i + k <= t.len(),
    ensures
        sheet::reading(t, 0) == (sheet::Scan { depth: 0, quoted: false, escaped: false }),
        sheet::reading(t, i + k) == sheet::scan(sheet::reading(t, i), t.subrange(i, i + k)),
        sheet::outside_strings(t, i) <==> !sheet::reading(t, i).quoted,
{
    assert(t.take(i + k) == t.take(i) + t.subrange(i, i + k));
    sheet::lemma_scan_concat(sheet::fresh(), t.take(i), t.subrange(i, i + k));
    assert(t.take(0) == Seq::<u8>::empty());
}

/// A node opens with a parenthesis and ends with the first one that takes a
/// reader, who begins to read there, out of it again.
pub proof fn law_node_ends_where_it_is_left(t: Seq<u8>, start: int, i: int)
    requires
        0 <= start <= t.len(),
    ensures
        sheet::node_close(t, start) == Some(i) <==> {
            &&& start < i < t.len()
            &&& t[start] == 0x28
            &&& sheet::reading(t.skip(start), i + 1 - start).depth == 0
            &&& forall|j: int|
                0 < j <= i - start ==> #[trigger] sheet::reading(t.skip(start), j).depth > 0
        },
{
    let r = t.skip(start);
    if sheet::node_close(t, start) == Some(i) {
        assert(sheet::closes_node(t, start, i));
        sheet::lemma_close_is_parenthesis(t, start, i);
        assert(r.take(i + 1 - start) == t.subrange(start, i + 1));
        assert forall|j: int| 0 < j <= i - start implies #[trigger] sheet::reading(r, j).depth
            > 0 by {
            assert(r.take(j) == t.subrange(start, start + j));
            assert(sheet::scan(sheet::fresh(), t.subrange(start, start + j)).depth > 0);
        }
    }
    if start < i < t.len() && t[start] == 0x28 && sheet::reading(r, i + 1 - start).depth == 0 && (
    forall|j: int| 0 < j <= i - start ==> #[trigger] sheet::reading(r, j).depth > 0) {
        assert(r.take(i + 1 - start) == t.subrange(start, i + 1));
        assert forall|j: int| start < j <= i implies #[trigger] sheet::scan(
            sheet::fresh(),
            t.subrange(start, j),
        ).depth > 0 by {
            assert(r.take(j - start) == t.subrange(start, j));
            assert(sheet::reading(r, j - start).depth > 0);
        }
        assert(sheet::closes_node(t, start, i));
        sheet::lemma_node_close(t, start, i);
    }
}

/// The node that opens at `start`, outside quoted strings, ends with the first
/// parenthesis behind which the sheet is as deep again as in front of the node.
pub proof fn law_node_keeps_the_depth(t: Seq<u8>, start: int, i: int)
    requires
        sheet::outside_strings(t, start),
        sheet::node_close(t, start) == Some(i),
    ensures
        start < i < t.len(),
        t[i] == 0x29,
        sheet::outside_strings(t, i + 1),
        sheet::reading(t, i + 1).depth == sheet::reading(t, start).depth,
        forall|j: int|
            start < j <= i ==> #[trigger] sheet::reading(t, j).depth > sheet::reading(
                t,
                start,
            ).depth,
{
    sheet::lemma_behind_node(t, start);
    sheet::lemma_close_is_parenthesis(t, start, i);
    assert forall|j: int| start < j <= i implies #[trigger] sheet::reading(t, j).depth
        > sheet::reading(t, start).depth by {
        sheet::lemma_reading_rest(t, start, j - start);
        assert(sheet::scan(sheet::fresh(), t.subrange(start, j)).depth > 0);
    }
}

// ---------------------------------------------------------------------------
// The place of a new alias

/// `opener` stands at `i`, outside quoted strings.
pub open spec fn opens_at(t: Seq<u8>, opener: Seq<u8>, i: int) -> bool {
    &&& 0 <= i
    &&& i + opener.len() <= t.len()
    &&& t.subrange(i, i + opener.len()) == opener
    &&& !sheet::reading(t, i).quoted
}

/// What stands in front of the `lib_symbols` node of a sheet: a line break and
/// the indentation of the first level, a tab or two spaces.
pub open spec fn symbols_opener(tab: bool) -> Seq<u8> {
    if tab {
        "\n\t(lib_symbols".spec_bytes()
    } else {
        "\n  (lib_symbols".spec_bytes()
    }
}

/// What stands in front of the `uuid` of a sheet.
pub open spec fn uuid_opener(tab: bool) -> Seq<u8> {
    if tab {
        "\n\t(uuid ".spec_bytes()
    } else {
        "\n  (uuid ".spec_bytes()
    }
}

/// The first `opener` of a sheet stands at `i`.
pub open spec fn opens_first_at(t: Seq<u8>, opener: Seq<u8>, i: int) -> bool {
    &&& opens_at(t, opener, i)
    &&& forall|j: int| j < i ==> !#[trigger] opens_at(t, opener, j)
}

proof fn lemma_opener_found(t: Seq<u8>, opener: Seq<u8>, i: int)
    requires
        opens_first_at(t, opener, i),
    ensures
        sheet::least(sheet::stands_outside(t, opener), 0) == Some(i),
{
    let p = sheet::stands_outside(t, opener);
    assert(p(i));
    assert forall|j: int| 0 <= j < i implies !#[trigger] p(j) by {
        assert(!opens_at(t, opener, j));
    }
    sheet::lemma_least(p, 0, i);
}

proof fn lemma_opener_missing(t: Seq<u8>, opener: Seq<u8>)
    requires
        forall|j: int| !#[trigger] opens_at(t, opener, j),
    ensures
        sheet::least(sheet::stands_outside(t, opener), 0) is None,
{
    let p = sheet::stands_outside(t, opener);
    assert forall|i: int| !sheet::is_least(p, 0, i) by {
        if sheet::is_least(p, 0, i) {
            assert(p(i));
            assert(opens_at(t, opener, i));
        }
    }
}

/// A new alias goes right behind the parenthesis that closes the `lib_symbols`
/// node: the first one at the first level of indentation, by tab or, in a sheet
/// without such a one, by two spaces. The place is as deep in the sheet as the
/// node, so in the root if the node is. A node that never closes leaves no place.
pub proof fn law_alias_goes_behind_lib_symbols(t: Seq<u8>, tab: bool, i: int)
    requires
        opens_first_at(t, symbols_opener(tab), i),
        tab || forall|j: int| !#[trigger] opens_at(t, symbols_opener(true), j),
    ensures
        ({
            let start = i + if tab {
                2int
            } else {
                3
            };
            &&& t[start] == 0x28
            &&& !sheet::reading(t, start).quoted
            &&& sheet::reading(t, start).depth == sheet::reading(t, i).depth
            &&& sheet::node_close(t, start) matches Some(close) ==> {
                &&& sheet::insert_offset(t) == Some(close + 1)
                &&& t[close] == 0x29
                &&& !sheet::reading(t, close + 1).quoted
                &&& sheet::reading(t, close + 1).depth == sheet::reading(t, i).depth
            }
            &&& sheet::node_close(t, start) is None ==> sheet::insert_offset(t) is None
        }),
{
    let opener = symbols_opener(tab);
    let start = i + if tab {
        2int
    } else {
        3
    };
    reveal_strlit("\n\t(lib_symbols");
    reveal_strlit("\n  (lib_symbols");
    is_ascii_spec_bytes("\n\t(lib_symbols");
    is_ascii_spec_bytes("\n  (lib_symbols");
    lemma_opener_found(t, opener, i);
    if !tab {
        lemma_opener_missing(t, symbols_opener(true));
    }
    assert forall|k: int| i <= k < i + opener.len() implies #[trigger] t[k] == opener[k - i] by {
        assert(t.subrange(i, i + opener.len())[k - i] == t[k]);
    }
    sheet::lemma_reading_next(t, i);
    sheet::lemma_reading_next(t, i + 1);
    if !tab {
        sheet::lemma_reading_next(t, i + 2);
    }
    sheet::lemma_behind_node(t, start);
}

/// In a sheet without a `lib_symbols` node a new alias goes to the end of the line
/// of the `uuid`, the first one at the first level of indentation, by tab or else
/// by two spaces: to the first line break behind it outside quoted strings. Where
/// there is none, there is no place.
pub proof fn law_alias_goes_behind_the_uuid(t: Seq<u8>, tab: bool, i: int)
    requires
        forall|j: int| !#[trigger] opens_at(t, symbols_opener(true), j),
        forall|j: int| !#[trigger] opens_at(t, symbols_opener(false), j),
        opens_first_at(t, uuid_opener(tab), i),
        tab || forall|j: int| !#[trigger] opens_at(t, uuid_opener(true), j),
    ensures
        sheet::insert_offset(t) matches Some(at) ==> {
            &&& i < at < t.len()
            &&& t[at] == 0x0a
            &&& !sheet::reading(t, at).quoted
            &&& forall|j: int| i < j < at && #[trigger] t[j] == 0x0a ==> sheet::reading(t, j).quoted
        },
        sheet::insert_offset(t) is None ==> forall|j: int|
            i < j < t.len() && #[trigger] t[j] == 0x0a ==> sheet::reading(t, j).quoted,
{
    let opener = uuid_opener(tab);
    let start = i + if tab {
        2int
    } else {
        3
    };
    reveal_strlit("\n\t(uuid ");
    reveal_strlit("\n  (uuid ");
    is_ascii_spec_bytes("\n\t(uuid ");
    is_ascii_spec_bytes("\n  (uuid ");
    lemma_opener_found(t, opener, i);
    lemma_opener_missing(t, symbols_opener(true));
    lemma_opener_missing(t, symbols_opener(false));
    if !tab {
        lemma_opener_missing(t, uuid_opener(true));
    }
    assert forall|k: int| i <= k < i + opener.len() implies #[trigger] t[k] == opener[k - i] by {
        assert(t.subrange(i, i + opener.len())[k - i] == t[k]);
    }
    assert(forall|k: int| i < k < start ==> #[trigger] t[k] != 0x0a);
    let p = sheet::ends_line(t);
    assert(sheet::insert_offset(t) == sheet::least(p, start));
    if let Some(at) = sheet::insert_offset(t) {
        assert(sheet::is_least(p, start, at));
        assert(p(at));
        assert forall|j: int| i < j < at && #[trigger] t[j] == 0x0a implies sheet::reading(
            t,
            j,
        ).quoted by {
            assert(!p(j));
        }
    } else {
        assert forall|j: int| i < j < t.len() && #[trigger] t[j] == 0x0a implies sheet::reading(
            t,
            j,
        ).quoted by {
            if p(j) {
                sheet::lemma_least_exists(p, start, j);
            }
        }
    }
}

/// A sheet with neither has no place for a new alias.
pub proof fn law_no_anchor_leaves_no_place(t: Seq<u8>)
    requires
        forall|j: int| !#[trigger] opens_at(t, symbols_opener(true), j),
        forall|j: int| !#[trigger] opens_at(t, symbols_opener(false), j),
        forall|j: int| !#[trigger] opens_at(t, uuid_opener(true), j),
        forall|j: int| !#[trigger] opens_at(t, uuid_opener(false), j),
    ensures
        sheet::insert_offset(t) is None,
{
    lemma_opener_missing(t, symbols_opener(true));
    lemma_opener_missing(t, symbols_opener(false));
    lemma_opener_missing(t, uuid_opener(true));
    lemma_opener_missing(t, uuid_opener(false));
}

/// An alias that is added behind a `lib_symbols` node in the root is defined in
/// the root, where definitions count.
pub proof fn law_added_alias_counts(
    t: Seq<u8>,
    tab: bool,
    i: int,
    name: Seq<char>,
    members: Seq<Seq<char>>,
) -> (at: int)
    requires
        opens_first_at(t, symbols_opener(tab), i),
        tab || forall|j: int| !#[trigger] opens_at(t, symbols_opener(true), j),
        sheet::reading(t, i).depth == 1,
        sheet::node_close(
            t,
            i + if tab {
                2int
            } else {
                3
            },
        ) is Some,
        block::writable(name, members),
        forall|j: int| !#[trigger] block::defines_at(t, name, j),
    ensures
        block::edited(t, name, members) matches Some((after, action)) && {
            &&& action == block::AliasAction::Added
            &&& block::defines_at(after, name, at)
            &&& sheet::reading(after, at).depth == 1
            &&& forall|j: int| #[trigger] block::defines_at(after, name, j) ==> j == at
        },
{
    law_alias_goes_behind_lib_symbols(t, tab, i);
    block::lemma_alias_span(t, name);
    let (after, action) = block::edited(t, name, members)->0;
    block_laws::law_write_defines_once(t, name, members, after, action);
    block_laws::in_front(t, name).len() as int
}

// ---------------------------------------------------------------------------
// What a write leaves alone

/// The indentation is a tab if some node of the sheet stands behind a line break
/// and a tab, else two spaces.
pub proof fn law_indentation_is_that_of_the_sheet(t: Seq<u8>)
    ensures
        (exists|i: int| 0 <= i && i + 3 <= t.len() && #[trigger] t.subrange(i, i + 3) == seq![
            0x0au8,
            0x09u8,
            0x28u8,
        ]) ==> block::indentation(t) == "\t"@,
        (forall|i: int| 0 <= i && i + 3 <= t.len() ==> #[trigger] t.subrange(i, i + 3) != seq![
            0x0au8,
            0x09u8,
            0x28u8,
        ]) ==> block::indentation(t) == "  "@,
{
    reveal_strlit("\n\t(");
    is_ascii_spec_bytes("\n\t(");
    let mark = seq![0x0au8, 0x09u8, 0x28u8];
    assert("\n\t(".spec_bytes() == mark);
    if exists|i: int| 0 <= i && i + 3 <= t.len() && #[trigger] t.subrange(i, i + 3) == mark {
        let i = choose|i: int| 0 <= i && i + 3 <= t.len() && #[trigger] t.subrange(i, i + 3) == mark;
        assert(text::occurs_at(t, mark, i));
    }
    if text::occurs(t, mark) {
        let i = choose|i: int| text::occurs_at(t, mark, i);
        assert(t.subrange(i, i + 3) == mark);
    }
}

/// An alias that the sheet does not define is added at the place for it, on a
/// line of its own, and every other byte stays as and where it was. Without a
/// place nothing is written.
pub proof fn law_adding_changes_nothing_else(
    t: Seq<u8>,
    name: Seq<char>,
    members: Seq<Seq<char>>,
)
    requires
        forall|j: int| !#[trigger] block::defines_at(t, name, j),
    ensures
        sheet::insert_offset(t) is None ==> block::edited(t, name, members) is None,
        sheet::insert_offset(t) matches Some(at) ==> {
            let indent = block::indentation(t);
            let line = vstd::utf8::encode_utf8(
                "\n"@ + indent + block::alias_block(name, members, indent),
            );
            &&& 0 <= at <= t.len()
            &&& block::edited(t, name, members) == Some(
                (t.take(at) + line + t.skip(at), block::AliasAction::Added),
            )
        },
{
    block::lemma_alias_span(t, name);
    sheet::lemma_insert_offset(t);
    let indent = block::indentation(t);
    let b = block::alias_block(name, members, indent);
    text::lemma_encode_concat("\n"@ + indent, b);
    if let Some(at) = sheet::insert_offset(t) {
        let (lead, body) = (
            vstd::utf8::encode_utf8("\n"@ + indent),
            vstd::utf8::encode_utf8(b),
        );
        assert(t.subrange(0, at) + lead + body + t.subrange(at, t.len() as int) == t.take(at) + (
        lead + body) + t.skip(at));
    }
}

/// The one definition that a sheet has of an alias is replaced where it stands,
/// and every other byte stays as and where it was.
pub proof fn law_replacing_changes_nothing_else(
    t: Seq<u8>,
    name: Seq<char>,
    members: Seq<Seq<char>>,
    i: int,
)
    requires
        block::quotable(name),
        block::defines_at(t, name, i),
        forall|j: int| #[trigger] block::defines_at(t, name, j) ==> j == i,
    ensures
        ({
            let end = sheet::node_close(t, i)->0 + 1;
            let b = block::alias_block(name, members, block::indentation(t));
            &&& i < end <= t.len()
            &&& block::edited(t, name, members) == Some(
                (
                    t.take(i) + vstd::utf8::encode_utf8(b) + t.skip(end),
                    block::AliasAction::Replaced,
                ),
            )
        }),
{
    law_first_definition_in_the_root_is_taken(t, name);
    let (start, end) = block::alias_span(t, name)->0;
    assert(start == i);
    block_laws::lemma_front_of_first(t, name, i);
    sheet::lemma_behind_node(t, i);
    let c = t.subrange(end, t.len() as int);
    assert forall|k: int| !#[trigger] block::defines_at(c, name, k) by {
        if block::defines_at(c, name, k) {
            assert(t.skip(end) == c);
            definitions::lemma_defines_rest(t, name, end, k);
            assert(block::defines_at(t, name, end + k));
        }
    }
    definitions::lemma_stripped_clean(c, name);
    assert(t.take(i) == t.subrange(0, i) && t.skip(end) == c);
}

/// Of several definitions the first one in the root is the one that counts, and
/// where the root has none, the first there is. It reaches to behind the
/// parenthesis that closes it.
pub proof fn law_first_definition_in_the_root_is_taken(t: Seq<u8>, name: Seq<char>)
    ensures
        block::alias_span(t, name) is None <==> forall|j: int|
            !#[trigger] block::defines_at(t, name, j),
        block::alias_span(t, name) matches Some((start, end)) ==> {
            &&& block::defines_at(t, name, start)
            &&& sheet::node_close(t, start) == Some(end - 1)
            &&& sheet::reading(t, start).depth == 1 || forall|j: int| #[trigger]
                block::defines_at(t, name, j) ==> sheet::reading(t, j).depth != 1
            &&& forall|j: int|
                j < start && #[trigger] block::defines_at(t, name, j) ==> sheet::reading(
                    t,
                    start,
                ).depth == 1 && sheet::reading(t, j).depth != 1
        },
{
    block::lemma_alias_span(t, name);
    let p = block::defining_in_root(t, name);
    if let Some((start, end)) = block::alias_span(t, name) {
        sheet::lemma_node_close(t, start, end - 1);
        if let Some(k) = sheet::least(p, 0) {
            assert(sheet::is_least(p, 0, k));
            assert forall|j: int| j < start && #[trigger] block::defines_at(
                t,
                name,
                j,
            ) implies sheet::reading(t, j).depth != 1 by {
                assert(!p(j));
            }
        } else {
            assert forall|j: int| #[trigger] block::defines_at(t, name, j) implies sheet::reading(
                t,
                j,
            ).depth != 1 by {
                if p(j) {
                    sheet::lemma_least_exists(p, 0, j);
                }
            }
        }
    }
}

/// Stripping a text of an alias takes out its definitions, the first one first,
/// until there is none, and no other byte.
pub proof fn law_stripping_takes_out_definitions_only(t: Seq<u8>, name: Seq<char>, i: int)
    ensures
        (forall|j: int| !#[trigger] block::defines_at(t, name, j)) ==> block::stripped(t, name)
            == t,
        block::defines_at(t, name, i) && (forall|j: int|
            j < i ==> !#[trigger] block::defines_at(t, name, j)) ==> block::stripped(t, name)
            == block::stripped(t.take(i) + t.skip(sheet::node_close(t, i)->0 + 1), name),
        forall|j: int| !#[trigger] block::defines_at(block::stripped(t, name), name, j),
{
    definitions::lemma_stripped(t, name);
    block::lemma_first_span(t, name);
    if block::defines_at(t, name, i) && (forall|j: int|
        j < i ==> !#[trigger] block::defines_at(t, name, j)) {
        let (start, end) = block::first_span(t, name)->0;
        assert(start == i) by {
            let p = block::defining(t, name);
            assert(sheet::is_least(p, 0, start));
            assert(p(i));
        }
        sheet::lemma_node_close(t, i, end - 1);
        assert(t.take(i) == t.subrange(0, i) && t.skip(end) == t.subrange(end, t.len() as int));
    }
}

/// An alias that the sheet defines is replaced at the definition that counts; the
/// text in front of that and the text behind it are stripped of the others.
pub proof fn law_replacing_strips_the_others(
    t: Seq<u8>,
    name: Seq<char>,
    members: Seq<Seq<char>>,
    start: int,
    end: int,
)
    requires
        block::alias_span(t, name) == Some((start, end)),
    ensures
        block::edited(t, name, members) == Some(
            (
                block::stripped(t.take(start), name) + vstd::utf8::encode_utf8(
                    block::alias_block(name, members, block::indentation(t)),
                ) + block::stripped(t.skip(end), name),
                block::AliasAction::Replaced,
            ),
        ),
{
    block::lemma_alias_span(t, name);
    assert(t.take(start) == t.subrange(0, start));
    assert(t.skip(end) == t.subrange(end, t.len() as int));
}

} // verus!
