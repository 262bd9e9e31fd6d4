//! Text primitives shared by the rest of the crate: white space, byte search,
//! equality and order of strings, decimal numerals.
//!
//! Sheets are edited at byte offsets, so search works on the UTF-8 bytes of a
//! text. Names and labels are read as characters.

use vstd::prelude::*;
use vstd::string::*;
use vstd::utf8::*;

verus! {

// ---------------------------------------------------------------------------
// White space

/// The characters with the Unicode `White_Space` property.
pub open spec fn is_space(c: char) -> bool {
    let code = c as u32;
    ||| 0x9 <= code <= 0xd
    ||| code == 0x20
    ||| code == 0x85
    ||| code == 0xa0
    ||| code == 0x1680
    ||| 0x2000 <= code <= 0x200a
    ||| code == 0x2028
    ||| code == 0x2029
    ||| code == 0x202f
    ||| code == 0x205f
    ||| code == 0x3000
}

/// Some character of `s` is white space.
pub open spec fn has_space(s: Seq<char>) -> bool {
    exists|i: int| 0 <= i < s.len() && is_space(#[trigger] s[i])
}

/// Every character of `s` is white space, which holds of the empty text too.
pub open spec fn is_blank(s: Seq<char>) -> bool {
    forall|i: int| 0 <= i < s.len() ==> is_space(#[trigger] s[i])
}

/// Tells whether `c` is white space.
pub fn is_whitespace(c: char) -> (space: bool)
    ensures
        space == is_space(c),
{
    let code: u32 = c as u32;
    (0x9 <= code && code <= 0xd) || code == 0x20 || code == 0x85 || code == 0xa0 || code == 0x1680
        || (0x2000 <= code && code <= 0x200a) || code == 0x2028 || code == 0x2029 || code == 0x202f
        || code == 0x205f || code == 0x3000
}

/// Tells whether any character of `s` is white space.
pub fn contains_whitespace(s: &str) -> (found: bool)
    ensures
        found == has_space(s@),
{
    for c in it: s.chars()
        invariant
            it.seq() == s@,
            forall|j: int| 0 <= j < it.index() ==> !is_space(#[trigger] s@[j]),
    {
        if is_whitespace(c) {
            assert(is_space(s@[it.index()]));
            return true;
        }
    }
    false
}

/// Tells whether nothing is left of `s` once white space is trimmed off.
pub fn trims_to_nothing(s: &str) -> (blank: bool)
    ensures
        blank == is_blank(s@),
{
    for c in it: s.chars()
        invariant
            it.seq() == s@,
            forall|j: int| 0 <= j < it.index() ==> is_space(#[trigger] s@[j]),
    {
        if !is_whitespace(c) {
            assert(!is_space(s@[it.index()]));
            return false;
        }
    }
    true
}

/// The text of a string that may be missing.
pub open spec fn optional(s: Option<String>) -> Option<Seq<char>> {
    match s {
        Some(s) => Some(s@),
        None => None,
    }
}

/// The texts that a vector of strings holds.
pub open spec fn views(strings: Seq<String>) -> Seq<Seq<char>> {
    strings.map_values(|s: String| s@)
}

/// A copy of a vector of strings.
pub fn copy_texts(strings: &Vec<String>) -> (copy: Vec<String>)
    ensures
        views(copy@) == views(strings@),
{
    let mut copy: Vec<String> = Vec::new();
    let mut i: usize = 0;
    while i < strings.len()
        invariant
            i <= strings@.len(),
            copy@.len() == i,
            forall|j: int| 0 <= j < i ==> #[trigger] copy@[j] == strings@[j],
        decreases strings@.len() - i,
    {
        copy.push(strings[i].clone());
        i = i + 1;
    }
    assert(copy@ == strings@);
    copy
}

/// The characters of `s`.
pub fn characters(s: &str) -> (chars: Vec<char>)
    ensures
        chars@ == s@,
{
    let mut chars: Vec<char> = Vec::new();
    for c in it: s.chars()
        invariant
            it.seq() == s@,
            chars@ == s@.take(it.index()),
    {
        chars.push(c);
        assert(s@.take(it.index() + 1) == s@.take(it.index()).push(c));
    }
    assert(s@.take(s@.len() as int) == s@);
    chars
}

/// The texts of a list with one more.
pub proof fn lemma_push_contains(names: Seq<Seq<char>>, name: Seq<char>)
    ensures
        forall|other: Seq<char>| #[trigger]
            names.push(name).contains(other) <==> names.contains(other) || other == name,
{
    assert forall|other: Seq<char>| #[trigger]
        names.push(name).contains(other) <==> names.contains(other) || other == name by {
        if names.contains(other) {
            let k = choose|k: int| 0 <= k < names.len() && names[k] == other;
            assert(names.push(name)[k] == other);
        }
        if other == name {
            assert(names.push(name)[names.len() as int] == name);
        }
    }
}

// ---------------------------------------------------------------------------
// UTF-8

/// Encoding distributes over concatenation.
pub proof fn lemma_encode_concat(a: Seq<char>, b: Seq<char>)
    ensures
        encode_utf8(a + b) == encode_utf8(a) + encode_utf8(b),
    decreases a.len(),
{
    if a.len() == 0 {
        assert(a + b == b);
        assert(encode_utf8(a) + encode_utf8(b) == encode_utf8(b));
    } else {
        lemma_encode_concat(a.drop_first(), b);
        assert((a + b).drop_first() == a.drop_first() + b);
        assert((a + b)[0] == a[0]);
    }
}

/// Two texts with the same bytes are the same text.
pub proof fn lemma_encode_injective(a: Seq<char>, b: Seq<char>)
    requires
        encode_utf8(a) == encode_utf8(b),
    ensures
        a == b,
{
    encode_utf8_decode_utf8(a);
    encode_utf8_decode_utf8(b);
}

/// A text can be cut before and after any ASCII byte.
pub proof fn lemma_ascii_boundaries(bytes: Seq<u8>, i: int)
    requires
        valid_utf8(bytes),
        0 <= i < bytes.len(),
        bytes[i] < 0x80,
    ensures
        is_char_boundary(bytes, i),
        is_char_boundary(bytes, i + 1),
{
    is_char_boundary_iff_not_is_continuation_byte(bytes, i);
    is_char_boundary_start_end_of_seq(bytes);
    if i + 1 < bytes.len() {
        valid_utf8_split(bytes, i);
        let tail = bytes.subrange(i, bytes.len() as int);
        assert(tail[0] == bytes[i]);
        let rest = pop_first_scalar(tail);
        assert(valid_utf8(rest));
        assert(rest[0] == bytes[i + 1]);
        assert(valid_first_scalar(rest));
        is_char_boundary_iff_not_is_continuation_byte(bytes, i + 1);
    }
}

// ---------------------------------------------------------------------------
// Search

/// `needle` stands in `text` at byte offset `i`.
pub open spec fn occurs_at(text: Seq<u8>, needle: Seq<u8>, i: int) -> bool {
    &&& 0 <= i
    &&& i + needle.len() <= text.len()
    &&& text.subrange(i, i + needle.len()) == needle
}

/// `needle` stands somewhere in `text`.
pub open spec fn occurs(text: Seq<u8>, needle: Seq<u8>) -> bool {
    exists|i: int| occurs_at(text, needle, i)
}

/// `i` is the leftmost offset at which `needle` stands in `text`.
pub open spec fn is_first_occurrence(text: Seq<u8>, needle: Seq<u8>, i: int) -> bool {
    &&& occurs_at(text, needle, i)
    &&& forall|j: int| j < i ==> !occurs_at(text, needle, j)
}

/// The leftmost offset at which `needle` stands in `text`, if there is one.
pub open spec fn first_occurrence(text: Seq<u8>, needle: Seq<u8>) -> Option<int> {
    if occurs(text, needle) {
        Some(choose|i: int| is_first_occurrence(text, needle, i))
    } else {
        None
    }
}

/// A leftmost offset is what [`first_occurrence`] names.
pub proof fn lemma_first_occurrence(text: Seq<u8>, needle: Seq<u8>, i: int)
    requires
        is_first_occurrence(text, needle, i),
    ensures
        first_occurrence(text, needle) == Some(i),
{
    let k = choose|k: int| is_first_occurrence(text, needle, k);
    assert(is_first_occurrence(text, needle, k));
    assert(!(i < k) && !(k < i));
}

/// Tells whether `needle` stands in `text` at byte offset `at`.
pub fn stands_at(text: &[u8], needle: &[u8], at: usize) -> (found: bool)
    ensures
        found == occurs_at(text@, needle@, at as int),
{
    let end: usize = text.len();
    if at > end || needle.len() > end - at {
        return false;
    }
    let mut k: usize = 0;
    while k < needle.len()
        invariant
            k <= needle@.len(),
            at + needle@.len() <= end == text@.len(),
            forall|j: int| 0 <= j < k ==> text@[at + j] == #[trigger] needle@[j],
        decreases needle@.len() - k,
    {
        if text[at + k] != needle[k] {
            assert(text@.subrange(at as int, at + needle@.len())[k as int] != needle@[k as int]);
            return false;
        }
        k = k + 1;
    }
    assert(text@.subrange(at as int, at + needle@.len()) == needle@);
    true
}

/// The byte offset of the first `needle` in `text`.
pub fn find(text: &[u8], needle: &[u8]) -> (at: Option<usize>)
    ensures
        match at {
            Some(i) => first_occurrence(text@, needle@) == Some(i as int),
            None => first_occurrence(text@, needle@) is None,
        },
        at matches Some(i) ==> is_first_occurrence(text@, needle@, i as int),
        at is None ==> !occurs(text@, needle@),
{
    if needle.len() > text.len() {
        assert forall|j: int| !occurs_at(text@, needle@, j) by {}
        return None;
    }
    let last: usize = text.len() - needle.len();
    let mut i: usize = 0;
    loop
        invariant
            i <= last,
            last == text@.len() - needle@.len(),
            forall|j: int| j < i ==> !occurs_at(text@, needle@, j),
        decreases last - i,
    {
        if stands_at(text, needle, i) {
            proof {
                lemma_first_occurrence(text@, needle@, i as int);
            }
            return Some(i);
        }
        if i == last {
            assert forall|j: int| !occurs_at(text@, needle@, j) by {}
            return None;
        }
        i = i + 1;
    }
}

// ---------------------------------------------------------------------------
// Equality and order

/// `a` comes before `b` in the order of strings, which compares bytes: at the
/// first place where they differ `a` has the smaller byte, or `a` ends there.
pub open spec fn bytes_before(a: Seq<u8>, b: Seq<u8>) -> bool {
    exists|k: int| differs_before(a, b, k)
}

/// `a` and `b` agree on their first `k` bytes, and there `a` falls behind.
pub open spec fn differs_before(a: Seq<u8>, b: Seq<u8>, k: int) -> bool {
    &&& 0 <= k <= a.len()
    &&& k < b.len()
    &&& forall|j: int| 0 <= j < k ==> #[trigger] a[j] == b[j]
    &&& k == a.len() || a[k] < b[k]
}

/// [`bytes_before`] on texts.
pub open spec fn text_before(a: Seq<char>, b: Seq<char>) -> bool {
    bytes_before(encode_utf8(a), encode_utf8(b))
}

/// No text comes before itself.
pub proof fn lemma_before_irreflexive(a: Seq<char>)
    ensures
        !text_before(a, a),
{
}

/// The order of texts is transitive.
pub proof fn lemma_before_transitive(a: Seq<char>, b: Seq<char>, c: Seq<char>)
    requires
        text_before(a, b),
        text_before(b, c),
    ensures
        text_before(a, c),
{
    let (x, y, z) = (encode_utf8(a), encode_utf8(b), encode_utf8(c));
    let i = choose|k: int| differs_before(x, y, k);
    let j = choose|k: int| differs_before(y, z, k);
    let k = if i < j { i } else { j };
    assert forall|m: int| 0 <= m < k implies #[trigger] x[m] == z[m] by {
        assert(x[m] == y[m]);
        assert(y[m] == z[m]);
    }
    if i < j {
        assert(y[i] == z[i]);
    } else if j < i {
        assert(x[j] == y[j]);
    }
    assert(differs_before(x, z, k));
}

/// Of two different texts one comes before the other.
pub proof fn lemma_before_total(a: Seq<char>, b: Seq<char>)
    ensures
        text_before(a, b) || a == b || text_before(b, a),
{
    lemma_bytes_total(encode_utf8(a), encode_utf8(b), 0);
    if encode_utf8(a) == encode_utf8(b) {
        lemma_encode_injective(a, b);
    }
}

proof fn lemma_bytes_total(a: Seq<u8>, b: Seq<u8>, k: int)
    requires
        0 <= k <= a.len(),
        k <= b.len(),
        forall|j: int| 0 <= j < k ==> #[trigger] a[j] == b[j],
    ensures
        bytes_before(a, b) || a == b || bytes_before(b, a),
    decreases a.len() - k,
{
    if k == a.len() && k == b.len() {
        assert(a == b);
    } else if k == a.len() || (k < b.len() && a[k] < b[k]) {
        assert(differs_before(a, b, k));
    } else if k == b.len() || b[k] < a[k] {
        assert(differs_before(b, a, k));
    } else {
        lemma_bytes_total(a, b, k + 1);
    }
}

/// Where a text comes in the order of strings, seen from another.
#[derive(PartialEq, Eq, Structural, Clone, Copy, Debug)]
pub enum Place {
    Before,
    Same,
    After,
}

/// Places `a` with respect to `b` in the order of strings.
pub fn place(a: &str, b: &str) -> (p: Place)
    ensures
        p == Place::Same <==> a@ == b@,
        p == Place::Before <==> text_before(a@, b@),
        p == Place::After <==> text_before(b@, a@),
{
    let x = a.as_bytes();
    let y = b.as_bytes();
    let mut k: usize = 0;
    while k < x.len() && k < y.len() && x[k] == y[k]
        invariant
            k <= x@.len(),
            k <= y@.len(),
            forall|j: int| 0 <= j < k ==> #[trigger] x@[j] == y@[j],
        decreases x@.len() - k,
    {
        k = k + 1;
    }
    if k == x.len() && k == y.len() {
        proof {
            assert(x@ == y@);
            lemma_encode_injective(a@, b@);
            lemma_before_irreflexive(a@);
        }
        Place::Same
    } else if k < y.len() && (k == x.len() || x[k] < y[k]) {
        proof {
            assert(differs_before(x@, y@, k as int));
            lemma_before_asymmetric(a@, b@);
            lemma_before_irreflexive(a@);
        }
        Place::Before
    } else {
        proof {
            assert(differs_before(y@, x@, k as int));
            lemma_before_asymmetric(b@, a@);
            lemma_before_irreflexive(a@);
        }
        Place::After
    }
}

/// Of two texts at most one comes before the other.
pub proof fn lemma_before_asymmetric(a: Seq<char>, b: Seq<char>)
    requires
        text_before(a, b),
    ensures
        !text_before(b, a),
{
    if text_before(b, a) {
        lemma_before_transitive(a, b, a);
        lemma_before_irreflexive(a);
    }
}

/// Tells whether two texts are the same.
pub fn same_text(a: &str, b: &str) -> (same: bool)
    ensures
        same == (a@ == b@),
{
    match place(a, b) {
        Place::Same => true,
        _ => false,
    }
}

// ---------------------------------------------------------------------------
// Decimal numerals

/// The character of the decimal digit `d`.
pub open spec fn digit(d: nat) -> char
    recommends
        d < 10,
{
    ('0' as nat + d) as char
}

/// The decimal numeral of `n`, without leading zeros.
pub open spec fn decimal(n: nat) -> Seq<char>
    decreases n,
{
    if n < 10 {
        seq![digit(n)]
    } else {
        decimal(n / 10).push(digit(n % 10))
    }
}

fn digit_text(d: usize) -> (s: &'static str)
    requires
        d < 10,
    ensures
        s@ == seq![digit(d as nat)],
{
    proof {
        reveal_strlit("0");
        reveal_strlit("1");
        reveal_strlit("2");
        reveal_strlit("3");
        reveal_strlit("4");
        reveal_strlit("5");
        reveal_strlit("6");
        reveal_strlit("7");
        reveal_strlit("8");
        reveal_strlit("9");
    }
    if d == 0 {
        "0"
    } else if d == 1 {
        "1"
    } else if d == 2 {
        "2"
    } else if d == 3 {
        "3"
    } else if d == 4 {
        "4"
    } else if d == 5 {
        "5"
    } else if d == 6 {
        "6"
    } else if d == 7 {
        "7"
    } else if d == 8 {
        "8"
    } else {
        "9"
    }
}

/// The decimal numeral of `n`.
pub fn decimal_text(n: usize) -> (s: String)
    ensures
        s@ == decimal(n as nat),
    decreases n,
{
    if n < 10 {
        digit_text(n).to_string()
    } else {
        let mut s = decimal_text(n / 10);
        s.append(digit_text(n % 10));
        s
    }
}

} // verus!
