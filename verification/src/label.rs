//! Bus labels.
//!
//! A label names the signals that a bus carries in one of three forms: a vector
//! `X_DIG[1..6]`, a group `{A B C}`, or a reference `DSI1{DSI}` to a bus alias.
//! This module takes the last two apart.

use crate::text;
use vstd::prelude::*;
use vstd::string::*;

verus! {

/// What a character adds to the count of groups that are open when a label is
/// read from its end: a closing brace enters a group, an opening one leaves it.
pub open spec fn brace_weight(c: char) -> int {
    if c == '}' {
        1
    } else if c == '{' {
        -1
    } else {
        0
    }
}

/// How many more closing than opening braces stand in `s` from `i` on.
pub open spec fn depth_from(s: Seq<char>, i: int) -> int
    decreases s.len() - i,
{
    if i >= s.len() {
        0
    } else {
        depth_from(s, i + 1) + brace_weight(s[i])
    }
}

/// `i` is the brace that the closing brace at the end of `s` matches.
pub open spec fn is_group_open(s: Seq<char>, i: int) -> bool {
    &&& 0 <= i < s.len()
    &&& s.last() == '}'
    &&& depth_from(s, i) == 0
    &&& forall|j: int| i < j < s.len() ==> #[trigger] depth_from(s, j) > 0
}

/// The brace that the closing brace at the end of `s` matches, if `s` ends in
/// one and it has a match.
pub open spec fn group_open(s: Seq<char>) -> Option<int> {
    if exists|i: int| is_group_open(s, i) {
        Some(choose|i: int| is_group_open(s, i))
    } else {
        None
    }
}

/// `~{X}`, `_{X}` and `^{X}` are overbar, subscript and superscript: these
/// characters before a brace make it text markup.
pub open spec fn is_markup(c: char) -> bool {
    c == '~' || c == '_' || c == '^'
}

/// The prefix and the inner text of a group bus label.
pub open spec fn group_parts(s: Seq<char>) -> Option<(Seq<char>, Seq<char>)> {
    match group_open(s) {
        Some(i) => if i > 0 && is_markup(s[i - 1]) {
            None
        } else {
            Some((s.subrange(0, i), s.subrange(i + 1, s.len() - 1)))
        },
        None => None,
    }
}

/// The alias that a label refers to: the inner text of a group, unless that is
/// empty or lists several members.
pub open spec fn alias_of(s: Seq<char>) -> Option<Seq<char>> {
    match group_parts(s) {
        Some((_, inner)) => if inner.len() == 0 || text::has_space(inner) {
            None
        } else {
            Some(inner)
        },
        None => None,
    }
}

/// The matching brace is unique.
proof fn lemma_group_open(s: Seq<char>, i: int)
    requires
        is_group_open(s, i),
    ensures
        group_open(s) == Some(i),
{
    let k = choose|k: int| is_group_open(s, k);
    assert(is_group_open(s, k));
    assert(!(i < k) && !(k < i));
}

/// Splits a group bus label into its prefix and what stands between the braces:
/// `DSI1{DSI}` into `DSI1` and `DSI`.
///
/// The group is matched from the end, brace by brace, because subscript markup
/// puts braces inside names: `I_{2}C1{I_{2}C}` has the prefix `I_{2}C1`.
pub fn split_group_bus(label: &str) -> (parts: Option<(&str, &str)>)
    ensures
        match parts {
            Some((prefix, inner)) => group_parts(label@) == Some((prefix@, inner@)),
            None => group_parts(label@) is None,
        },
{
    let chars = text::characters(label);
    let n: usize = chars.len();
    if n == 0 || chars[n - 1] != '}' {
        return None;
    }
    let mut depth: usize = 0;
    let mut i: usize = n;
    while i > 0
        invariant
            chars@ == label@,
            n == chars@.len(),
            n > 0,
            chars@[n - 1] == '}',
            i <= n,
            depth <= n - i,
            depth == depth_from(label@, i as int),
            i < n ==> depth > 0,
            forall|j: int| i <= j < n ==> #[trigger] depth_from(label@, j) > 0,
        decreases i,
    {
        i = i - 1;
        let c = chars[i];
        assert(depth_from(label@, i as int) == depth_from(label@, i + 1) + brace_weight(c));
        if c == '}' {
            depth = depth + 1;
        } else if c == '{' {
            depth = depth - 1;
            if depth == 0 {
                proof {
                    lemma_group_open(label@, i as int);
                }
                if i > 0 {
                    let before = chars[i - 1];
                    if before == '~' || before == '_' || before == '^' {
                        return None;
                    }
                }
                return Some((label.substring_char(0, i), label.substring_char(i + 1, n - 1)));
            }
        }
    }
    proof {
        assert forall|k: int| !is_group_open(label@, k) by {
            if 0 <= k < n {
                assert(depth_from(label@, k) > 0);
            }
        }
    }
    None
}

/// The alias a label refers to, if it refers to one. White space between the
/// braces makes an explicit member list, which names no alias.
pub fn alias_reference(label: &str) -> (alias: Option<&str>)
    ensures
        match alias {
            Some(name) => alias_of(label@) == Some(name@),
            None => alias_of(label@) is None,
        },
{
    match split_group_bus(label) {
        Some((_, inner)) => if inner.is_empty() || text::contains_whitespace(inner) {
            None
        } else {
            Some(inner)
        },
        None => None,
    }
}

// ---------------------------------------------------------------------------
// Laws

/// Every group that `s` closes it also opens, and in that order.
pub open spec fn balanced(s: Seq<char>) -> bool {
    &&& depth_from(s, 0) == 0
    &&& forall|i: int| 0 <= i <= s.len() ==> #[trigger] depth_from(s, i) >= 0
}

/// The label of a group bus with the given prefix and inner text.
pub open spec fn group_label(prefix: Seq<char>, inner: Seq<char>) -> Seq<char> {
    prefix + seq!['{'] + inner + seq!['}']
}

proof fn lemma_depth_of_concat(a: Seq<char>, b: Seq<char>, i: int)
    requires
        0 <= i <= a.len() + b.len(),
    ensures
        i <= a.len() ==> depth_from(a + b, i) == depth_from(a, i) + depth_from(b, 0),
        i >= a.len() ==> depth_from(a + b, i) == depth_from(b, i - a.len()),
    decreases a.len() + b.len() - i,
{
    if i < a.len() + b.len() {
        lemma_depth_of_concat(a, b, i + 1);
        if i < a.len() {
            assert((a + b)[i] == a[i]);
        } else {
            assert((a + b)[i] == b[i - a.len()]);
        }
    }
}

/// What a label is split into makes up the label again, and the inner text is
/// balanced: splitting loses nothing and cuts no brace pair apart.
pub proof fn law_split_parts_rejoin(s: Seq<char>, prefix: Seq<char>, inner: Seq<char>)
    requires
        group_parts(s) == Some((prefix, inner)),
    ensures
        group_label(prefix, inner) == s,
        balanced(inner),
{
    let i = group_open(s)->0;
    assert(is_group_open(s, i));
    let n = s.len() as int;
    assert(depth_from(s, n - 1) == 1) by {
        assert(depth_from(s, n) == 0);
    }
    assert(i < n - 1);
    assert(depth_from(s, i) == depth_from(s, i + 1) + brace_weight(s[i]));
    assert(depth_from(s, i + 1) > 0);
    assert(s[i] == '{' && depth_from(s, i + 1) == 1);
    let head = s.subrange(0, i + 1);
    let close = seq!['}'];
    assert(s == head + (inner + close));
    assert(depth_from(close, 0) == 1) by {
        assert(depth_from(close, 1) == 0);
    }
    assert forall|k: int| 0 <= k <= inner.len() implies #[trigger] depth_from(inner, k)
        == depth_from(s, i + 1 + k) - 1 by {
        lemma_depth_of_concat(head, inner + close, i + 1 + k);
        lemma_depth_of_concat(inner, close, k);
    }
    assert(group_label(prefix, inner) == s);
}

/// A label made of a prefix that does not end in markup and a balanced inner
/// text is split into just these two.
pub proof fn law_split_recovers_parts(prefix: Seq<char>, inner: Seq<char>)
    requires
        balanced(inner),
        prefix.len() > 0 ==> !is_markup(prefix.last()),
    ensures
        group_parts(group_label(prefix, inner)) == Some((prefix, inner)),
{
    lemma_group_of_label(prefix, inner);
    let s = group_label(prefix, inner);
    assert(s.subrange(0, prefix.len() as int) == prefix);
    assert(s.subrange(prefix.len() as int + 1, s.len() - 1) == inner);
    if prefix.len() > 0 {
        assert(s[prefix.len() - 1] == prefix.last());
    }
}

/// A name that carries text markup is no group bus, whatever it marks up.
pub proof fn law_markup_is_no_group(prefix: Seq<char>, inner: Seq<char>)
    requires
        balanced(inner),
        prefix.len() > 0,
        is_markup(prefix.last()),
    ensures
        group_parts(group_label(prefix, inner)) is None,
        alias_of(group_label(prefix, inner)) is None,
{
    lemma_group_of_label(prefix, inner);
    assert(group_label(prefix, inner)[prefix.len() - 1] == prefix.last());
}

/// `PREFIX{NAME}` refers to the alias `NAME`: one name without white space.
pub proof fn law_reference_names_its_alias(prefix: Seq<char>, name: Seq<char>)
    requires
        balanced(name),
        name.len() > 0,
        !text::has_space(name),
        prefix.len() > 0 ==> !is_markup(prefix.last()),
    ensures
        alias_of(group_label(prefix, name)) == Some(name),
{
    law_split_recovers_parts(prefix, name);
}

/// A group that lists its members, as `{A B C}` does, names no alias.
pub proof fn law_member_list_names_no_alias(prefix: Seq<char>, members: Seq<char>)
    requires
        balanced(members),
        text::has_space(members),
    ensures
        alias_of(group_label(prefix, members)) is None,
{
    if prefix.len() > 0 && is_markup(prefix.last()) {
        law_markup_is_no_group(prefix, members);
    } else {
        law_split_recovers_parts(prefix, members);
    }
}

proof fn lemma_group_of_label(prefix: Seq<char>, inner: Seq<char>)
    requires
        balanced(inner),
    ensures
        group_open(group_label(prefix, inner)) == Some(prefix.len() as int),
{
    let s = group_label(prefix, inner);
    let open = seq!['{'];
    let close = seq!['}'];
    assert(s == prefix + (open + (inner + close)));
    assert(s.last() == '}');
    assert(depth_from(close, 0) == 1) by {
        assert(depth_from(close, 1) == 0);
    }
    let i = prefix.len() as int;
    assert forall|j: int| i < j < s.len() implies #[trigger] depth_from(s, j) > 0 by {
        lemma_depth_of_concat(prefix, open + (inner + close), j);
        lemma_depth_of_concat(open, inner + close, j - i);
        lemma_depth_of_concat(inner, close, j - i - 1);
    }
    lemma_depth_of_concat(prefix, open + (inner + close), i);
    lemma_depth_of_concat(open, inner + close, 0);
    lemma_depth_of_concat(inner, close, 0);
    assert(depth_from(open, 0) == -1) by {
        assert(depth_from(open, 1) == 0);
    }
    lemma_group_open(s, i);
}

/// Between the braces of `s`, read from its end, no group is opened that was not
/// closed, and all are opened in the end: as many opening as closing braces in
/// all, and never more opening ones behind any place.
pub open spec fn closes_what_it_opens(s: Seq<char>) -> bool {
    &&& s.filter(|c: char| c == '{').len() == s.filter(|c: char| c == '}').len()
    &&& forall|k: int|
        0 <= k <= s.len() ==> (#[trigger] s.skip(k)).filter(|c: char| c == '{').len() <= s.skip(
            k,
        ).filter(|c: char| c == '}').len()
}

proof fn lemma_depth_counts(s: Seq<char>, i: int)
    requires
        0 <= i <= s.len(),
    ensures
        depth_from(s, i) == s.skip(i).filter(|c: char| c == '}').len() - s.skip(i).filter(
            |c: char| c == '{',
        ).len(),
    decreases s.len() - i,
{
    let close = |c: char| c == '}';
    let open = |c: char| c == '{';
    reveal(Seq::filter);
    if i < s.len() {
        lemma_depth_counts(s, i + 1);
        let one = seq![s[i]];
        assert(s.skip(i) == one + s.skip(i + 1));
        Seq::filter_distributes_over_add(one, s.skip(i + 1), close);
        Seq::filter_distributes_over_add(one, s.skip(i + 1), open);
        assert(one.drop_last() == Seq::<char>::empty());
        assert(one.last() == s[i]);
        assert(one.drop_last().filter(close).len() == 0);
        assert(one.drop_last().filter(open).len() == 0);
    }
}

proof fn lemma_balanced_counts(s: Seq<char>)
    ensures
        balanced(s) <==> closes_what_it_opens(s),
{
    assert(s.skip(0) == s);
    lemma_depth_counts(s, 0);
    if balanced(s) {
        assert forall|k: int| 0 <= k <= s.len() implies (#[trigger] s.skip(k)).filter(
            |c: char| c == '{',
        ).len() <= s.skip(k).filter(|c: char| c == '}').len() by {
            lemma_depth_counts(s, k);
            assert(depth_from(s, k) >= 0);
        }
    }
    if closes_what_it_opens(s) {
        assert forall|k: int| 0 <= k <= s.len() implies #[trigger] depth_from(s, k) >= 0 by {
            lemma_depth_counts(s, k);
            assert(s.skip(k).filter(|c: char| c == '{').len() <= s.skip(k).filter(
                |c: char| c == '}',
            ).len());
        }
    }
}

/// A label is a group bus if and only if it is a prefix and an inner text between
/// braces, where the inner text opens every group that it closes, and the prefix
/// does not end in `~`, `_` or `^`. It is split into just these two.
pub proof fn law_label_is_split_at_its_group(
    s: Seq<char>,
    prefix: Seq<char>,
    inner: Seq<char>,
)
    ensures
        group_parts(s) == Some((prefix, inner)) <==> {
            &&& s == prefix + seq!['{'] + inner + seq!['}']
            &&& closes_what_it_opens(inner)
            &&& prefix.len() > 0 ==> prefix.last() != '~' && prefix.last() != '_' && prefix.last()
                != '^'
        },
{
    lemma_balanced_counts(inner);
    if group_parts(s) == Some((prefix, inner)) {
        law_split_parts_rejoin(s, prefix, inner);
        let i = group_open(s)->0;
        assert(is_group_open(s, i));
        if prefix.len() > 0 {
            assert(prefix.last() == s[i - 1]);
        }
    }
    if s == prefix + seq!['{'] + inner + seq!['}'] && closes_what_it_opens(inner) && (prefix.len()
        > 0 ==> prefix.last() != '~' && prefix.last() != '_' && prefix.last() != '^') {
        assert(s == group_label(prefix, inner));
        law_split_recovers_parts(prefix, inner);
    }
}

/// A label refers to an alias if and only if it is a group bus whose inner text
/// is one word, and it refers to that.
pub proof fn law_label_refers_to_its_inner_word(s: Seq<char>, name: Seq<char>)
    ensures
        alias_of(s) == Some(name) <==> {
            &&& exists|prefix: Seq<char>| #[trigger] group_parts(s) == Some((prefix, name))
            &&& name.len() > 0
            &&& forall|i: int| 0 <= i < name.len() ==> !text::is_space(#[trigger] name[i])
        },
{
    if alias_of(s) == Some(name) {
        let (prefix, inner) = group_parts(s)->0;
        assert(group_parts(s) == Some((prefix, name)));
    }
}

} // verus!
