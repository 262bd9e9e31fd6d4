//! Laws of how a definition is spelled in a sheet, and of how it is written.

use crate::block;
use crate::sheet;
use crate::text;
use vstd::prelude::*;
use vstd::string::*;
use vstd::utf8::*;

verus! {

/// The bytes of `t` from `i` to in front of `k` are white space: tabs, line
/// breaks and spaces.
pub open spec fn blank_between(t: Seq<u8>, i: int, k: int) -> bool {
    forall|j: int| i <= j < k ==> 0x09 <= #[trigger] t[j] <= 0x0d || t[j] == 0x20
}

/// The bytes `word` stand in `t` from `i` on.
pub open spec fn stands_from(t: Seq<u8>, word: Seq<u8>, i: int) -> bool {
    0 <= i && i + word.len() <= t.len() && t.subrange(i, i + word.len()) == word
}

/// White space, a parenthesis or a quote: what ends a word.
pub open spec fn parts_words(c: u8) -> bool {
    0x09 <= c <= 0x0d || c == 0x20 || c == 0x28 || c == 0x29 || c == 0x22
}

/// Behind the parenthesis at `i` stand the word `bus_alias`, from `h` on, and the
/// name, from `k` on, with nothing but white space in front of either. The name
/// stands between quotes, or, as a word of its own, without.
pub open spec fn spelled(t: Seq<u8>, name: Seq<char>, i: int, h: int, k: int) -> bool {
    let word = encode_utf8(name);
    &&& i < h
    &&& h + 9 <= k <= t.len()
    &&& blank_between(t, i + 1, h)
    &&& stands_from(t, encode_utf8("bus_alias"@), h)
    &&& blank_between(t, h + 9, k)
    &&& {
        ||| stands_from(t, encode_utf8("\""@ + name + "\""@), k)
        ||| {
            &&& k > h + 9
            &&& word.len() > 0
            &&& forall|j: int|
                0 <= j < word.len() ==> !parts_words(#[trigger] word[j]) && word[j] != 0x5c
            &&& stands_from(t, word, k)
            &&& k + word.len() == t.len() || parts_words(t[k + word.len()])
        }
    }
}

proof fn lemma_skip_to(t: Seq<u8>, i: int, k: int)
    requires
        0 <= i <= k <= t.len(),
        blank_between(t, i, k),
        k < t.len() ==> !block::is_blank_byte(t[k]),
    ensures
        block::skip_blank(t, i) == k,
    decreases k - i,
{
    if i < k {
        assert(block::is_blank_byte(t[i]));
        lemma_skip_to(t, i + 1, k);
    }
}

proof fn lemma_skipped(t: Seq<u8>, i: int)
    requires
        0 <= i <= t.len(),
    ensures
        i <= block::skip_blank(t, i) <= t.len(),
        blank_between(t, i, block::skip_blank(t, i)),
    decreases t.len() - i,
{
    if i < t.len() && block::is_blank_byte(t[i]) {
        lemma_skipped(t, i + 1);
    }
}

proof fn lemma_words()
    ensures
        encode_utf8("bus_alias"@).len() == 9,
        encode_utf8("bus_alias"@)[0] == 0x62,
{
    reveal_strlit("bus_alias");
    is_ascii_chars_encode_utf8("bus_alias"@);
}

proof fn lemma_begins_with_quote(name: Seq<char>)
    ensures
        encode_utf8("\""@ + name + "\""@).len() > 0,
        encode_utf8("\""@ + name + "\""@)[0] == 0x22,
{
    reveal_strlit("\"");
    is_ascii_chars_encode_utf8("\""@);
    text::lemma_encode_concat("\""@ + name, "\""@);
    text::lemma_encode_concat("\""@, name);
}

/// A node defines an alias if and only if it opens outside quoted strings, closes
/// again, and is spelled as a definition of it: however it is spaced, and with
/// the name between quotes or as a bare word.
pub proof fn law_definition_is_spelled(t: Seq<u8>, name: Seq<char>, i: int)
    ensures
        block::defines_at(t, name, i) <==> {
            &&& 0 <= i < t.len()
            &&& t[i] == 0x28
            &&& !sheet::reading(t, i).quoted
            &&& sheet::node_close(t, i) is Some
            &&& exists|h: int, k: int| spelled(t, name, i, h, k)
        },
{
    lemma_words();
    lemma_begins_with_quote(name);
    let word = encode_utf8(name);
    if block::defines_at(t, name, i) {
        lemma_skipped(t, i + 1);
        let h = block::skip_blank(t, i + 1);
        lemma_skipped(t, h + 9);
        let k = block::skip_blank(t, h + 9);
        if !block::is_quoted_name(t, name, k) {
            assert forall|j: int| 0 <= j < word.len() implies !parts_words(#[trigger] word[j])
                && word[j] != 0x5c by {
                assert(!block::ends_word(word[j]));
            }
        }
        assert(spelled(t, name, i, h, k));
    }
    if 0 <= i < t.len() && t[i] == 0x28 && !sheet::reading(t, i).quoted && sheet::node_close(t, i)
        is Some && exists|h: int, k: int| spelled(t, name, i, h, k) {
        let (h, k) = choose|h: int, k: int| spelled(t, name, i, h, k);
        assert(t.subrange(h, h + 9)[0] == t[h]);
        lemma_skip_to(t, i + 1, h);
        if stands_from(t, encode_utf8("\""@ + name + "\""@), k) {
            let item = encode_utf8("\""@ + name + "\""@);
            assert(t.subrange(k, k + item.len())[0] == t[k]);
            lemma_skip_to(t, h + 9, k);
            assert(block::is_quoted_name(t, name, k));
        } else {
            assert(t.subrange(k, k + word.len())[0] == t[k]);
            assert(!parts_words(word[0]));
            lemma_skip_to(t, h + 9, k);
            assert forall|j: int| 0 <= j < word.len() implies !block::ends_word(
                #[trigger] word[j],
            ) && word[j] != sheet::BACKSLASH by {
                assert(!parts_words(word[j]));
            }
            assert(block::is_bare_name(t, name, k));
        }
    }
}

/// A block names its alias and lists its members, each on lines of their own.
pub proof fn law_block_is_written_out(
    name: Seq<char>,
    members: Seq<Seq<char>>,
    indent: Seq<char>,
)
    ensures
        block::alias_block(name, members, indent) == "(bus_alias "@ + ("\""@ + name + "\""@)
            + "\n"@ + indent + indent + "(members "@ + block::quoted_list(members) + ")\n"@ + indent
            + ")"@,
{
}

/// The members stand in the block one by one: each between quotes, all of them
/// and in their order, with one space between two.
pub proof fn law_members_are_written_in_order(
    a: Seq<Seq<char>>,
    b: Seq<Seq<char>>,
    member: Seq<char>,
)
    ensures
        block::quoted_list(Seq::empty()) == Seq::<char>::empty(),
        block::quoted_list(seq![member]) == "\""@ + member + "\""@,
        a.len() > 0 && b.len() > 0 ==> block::quoted_list(a + b) == block::quoted_list(a) + " "@
            + block::quoted_list(b),
    decreases b.len(),
{
    if a.len() > 0 && b.len() > 0 {
        let c = a + b;
        let front = b.drop_last();
        assert(c.drop_last() == a + front);
        assert(c.last() == b.last());
        if front.len() == 0 {
            assert(a + front == a);
            assert(b[0] == b.last());
        } else {
            law_members_are_written_in_order(a, front, member);
            let (x, y, z) = (
                block::quoted_list(a),
                block::quoted_list(front),
                block::quoted(b.last()),
            );
            assert(x + " "@ + y + " "@ + z == x + " "@ + (y + " "@ + z));
        }
    }
}

} // verus!
