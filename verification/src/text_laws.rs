//! Laws of texts: white space, the order of strings, numerals.

use crate::text;
use vstd::prelude::*;
use vstd::utf8::*;

verus! {

/// White space is what Unicode calls so: tabs, line breaks and spaces of all
/// widths, and no other character.
pub proof fn law_white_space_is_that_of_unicode(c: char)
    ensures
        text::is_space(c) <==> c == '\t' || c == '\n' || c == '\u{b}' || c == '\u{c}' || c == '\r'
            || c == ' ' || c == '\u{85}' || c == '\u{a0}' || c == '\u{1680}' || '\u{2000}' <= c
            <= '\u{200a}' || c == '\u{2028}' || c == '\u{2029}' || c == '\u{202f}' || c
            == '\u{205f}' || c == '\u{3000}',
{
}

/// A text is blank if all of it is white space, and spaced if any of it is.
pub proof fn law_blank_and_spaced(s: Seq<char>, c: char)
    ensures
        text::is_blank(Seq::empty()),
        !text::has_space(Seq::empty()),
        text::is_blank(s.push(c)) <==> text::is_blank(s) && text::is_space(c),
        text::has_space(s.push(c)) <==> text::has_space(s) || text::is_space(c),
{
    let more = s.push(c);
    if text::is_blank(more) {
        assert forall|i: int| 0 <= i < s.len() implies text::is_space(#[trigger] s[i]) by {
            assert(more[i] == s[i]);
        }
        assert(text::is_space(more[s.len() as int]));
    }
    if text::has_space(s) {
        let i = choose|i: int| 0 <= i < s.len() && text::is_space(#[trigger] s[i]);
        assert(text::is_space(more[i]));
    }
    if text::is_space(c) {
        assert(text::is_space(more[s.len() as int]));
    }
    if text::has_space(more) {
        let i = choose|i: int| 0 <= i < more.len() && text::is_space(#[trigger] more[i]);
        if i < s.len() {
            assert(text::is_space(s[i]));
        }
    }
}

/// The order of strings is that of a dictionary over their bytes: a text comes
/// before what continues it, and of two texts that begin alike the one with the
/// smaller byte where they first differ.
pub proof fn law_texts_are_ordered_by_their_bytes(
    a: Seq<char>,
    b: Seq<char>,
    common: Seq<u8>,
    x: Seq<u8>,
    y: Seq<u8>,
)
    requires
        encode_utf8(a) == common + x,
        encode_utf8(b) == common + y,
    ensures
        x.len() == 0 && y.len() > 0 ==> text::text_before(a, b),
        x.len() > 0 && y.len() > 0 && x[0] < y[0] ==> text::text_before(a, b),
        x.len() > 0 && y.len() == 0 ==> !text::text_before(a, b),
        x.len() > 0 && y.len() > 0 && x[0] > y[0] ==> !text::text_before(a, b),
        a == b ==> !text::text_before(a, b),
{
    let (p, q) = (encode_utf8(a), encode_utf8(b));
    let n = common.len() as int;
    if y.len() > 0 && (x.len() == 0 || x[0] < y[0]) {
        assert(text::differs_before(p, q, n));
    }
    if x.len() > 0 && (y.len() == 0 || x[0] > y[0]) {
        assert(text::differs_before(q, p, n));
        text::lemma_before_asymmetric(b, a);
    }
    if a == b {
        text::lemma_before_irreflexive(a);
    }
}

/// A numeral is made of digits, without a zero in front, and its digits make up
/// the number again.
pub proof fn law_numeral_is_that_of_its_number(n: nat)
    ensures
        text::decimal(n).len() > 0,
        forall|i: int| 0 <= i < text::decimal(n).len() ==> '0' <= #[trigger] text::decimal(n)[i]
            <= '9',
        text::decimal(n).len() > 1 ==> text::decimal(n)[0] != '0',
        text::decimal(n).fold_left(
            0int,
            |value: int, c: char| 10 * value + (c as int - '0' as int),
        ) == n,
    decreases n,
{
    let f = |value: int, c: char| 10 * value + (c as int - '0' as int);
    let s = text::decimal(n);
    assert(text::digit(n % 10) as int == '0' as int + (n % 10) as int);
    if n < 10 {
        assert(s.drop_last() == Seq::<char>::empty());
        assert(s.drop_last().fold_left(0int, f) == 0);
        assert(s.last() == text::digit(n));
        assert(n % 10 == n);
    } else {
        let front = text::decimal(n / 10);
        law_numeral_is_that_of_its_number(n / 10);
        assert(s.drop_last() == front);
        assert(s.last() == text::digit(n % 10));
        assert(s[0] == front[0]);
        if front.len() == 1 {
            assert(n / 10 > 0);
            if front[0] == '0' {
                assert(front.drop_last() == Seq::<char>::empty());
                assert(front.drop_last().fold_left(0int, f) == 0);
                assert(front.fold_left(0int, f) == 0);
            }
        }
        assert(s.fold_left(0int, f) == 10 * (n / 10) + n % 10);
    }
}

proof fn lemma_first_exists(t: Seq<u8>, needle: Seq<u8>, i: int)
    requires
        text::occurs_at(t, needle, i),
    ensures
        exists|k: int| text::is_first_occurrence(t, needle, k),
    decreases i,
{
    if exists|j: int| j < i && text::occurs_at(t, needle, j) {
        let j = choose|j: int| j < i && text::occurs_at(t, needle, j);
        lemma_first_exists(t, needle, j);
    } else {
        assert(text::is_first_occurrence(t, needle, i));
    }
}

/// A search finds the first place where the bytes looked for stand, and fails only
/// where they stand nowhere.
pub proof fn law_search_finds_the_first_place(t: Seq<u8>, needle: Seq<u8>)
    ensures
        text::first_occurrence(t, needle) matches Some(i) ==> {
            &&& 0 <= i <= t.len() - needle.len()
            &&& t.subrange(i, i + needle.len()) == needle
            &&& forall|j: int|
                0 <= j < i ==> #[trigger] t.subrange(j, j + needle.len()) != needle
        },
        text::first_occurrence(t, needle) is None ==> forall|j: int|
            0 <= j <= t.len() - needle.len() ==> #[trigger] t.subrange(j, j + needle.len())
                != needle,
{
    if let Some(i) = text::first_occurrence(t, needle) {
        let k = choose|k: int| text::occurs_at(t, needle, k);
        lemma_first_exists(t, needle, k);
        assert(text::is_first_occurrence(t, needle, i));
        assert forall|j: int| 0 <= j < i implies #[trigger] t.subrange(j, j + needle.len())
            != needle by {
            assert(!text::occurs_at(t, needle, j));
        }
    } else {
        assert forall|j: int| 0 <= j <= t.len() - needle.len() implies #[trigger] t.subrange(
            j,
            j + needle.len(),
        ) != needle by {
            assert(!text::occurs_at(t, needle, j));
        }
    }
}

} // verus!
