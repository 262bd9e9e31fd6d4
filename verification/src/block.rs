//! Bus alias blocks, `(bus_alias "NAME" (members ...))`, in the text of a sheet.
//!
//! Names and members are given here as they stand between the quotes of the
//! sheet, that is with quotes and backslashes already escaped.

use crate::sheet;
use crate::text;
use vstd::prelude::*;
use vstd::string::*;
use vstd::utf8::*;

verus! {

// ---------------------------------------------------------------------------
// What a block looks like

/// `s` between quotes.
pub open spec fn quoted(s: Seq<char>) -> Seq<char> {
    "\""@ + s + "\""@
}

/// The members between quotes, one space apart.
pub open spec fn quoted_list(members: Seq<Seq<char>>) -> Seq<char>
    decreases members.len(),
{
    if members.len() == 0 {
        Seq::empty()
    } else if members.len() == 1 {
        quoted(members[0])
    } else {
        quoted_list(members.drop_last()) + " "@ + quoted(members.last())
    }
}

/// The block that defines the alias `name`, written at the first level of
/// indentation of a sheet indented by `indent`.
pub open spec fn alias_block(
    name: Seq<char>,
    members: Seq<Seq<char>>,
    indent: Seq<char>,
) -> Seq<char> {
    "(bus_alias "@ + quoted(name) + "\n"@ + indent + indent + "(members "@ + quoted_list(members)
        + ")\n"@ + indent + ")"@
}

/// Writes the block that defines an alias.
pub fn format_bus_alias(name: &str, members: &Vec<String>, indent: &str) -> (block: String)
    ensures
        block@ == alias_block(name@, text::views(members@), indent@),
{
    let ghost views = text::views(members@);
    let mut list = String::new();
    let mut i: usize = 0;
    while i < members.len()
        invariant
            i <= members@.len(),
            views == text::views(members@),
            list@ == quoted_list(views.take(i as int)),
        decreases members@.len() - i,
    {
        if i > 0 {
            list.append(" ");
        }
        list.append("\"");
        list.append(members[i].as_str());
        list.append("\"");
        proof {
            assert(views.take(i + 1).drop_last() == views.take(i as int));
            assert(views.take(i + 1).last() == members@[i as int]@);
        }
        i = i + 1;
    }
    assert(views.take(i as int) == views);
    let mut block = "(bus_alias ".to_string();
    block.append("\"");
    block.append(name);
    block.append("\"");
    block.append("\n");
    block.append(indent);
    block.append(indent);
    block.append("(members ");
    block.append(list.as_str());
    block.append(")\n");
    block.append(indent);
    block.append(")");
    block
}

/// `s` can stand between quotes: it holds no quote that would end the string,
/// and no backslash at its end that would escape the closing quote.
pub open spec fn quotable(s: Seq<char>) -> bool {
    let b = encode_utf8(s);
    let opened = (sheet::Scan { depth: 0, quoted: true, escaped: false });
    &&& forall|k: int| 0 <= k <= b.len() ==> #[trigger] sheet::scan(opened, b.take(k)).quoted
    &&& !sheet::scan(opened, b).escaped
}

/// What an alias can be defined with: a name and members that can stand between
/// quotes.
pub open spec fn writable(name: Seq<char>, members: Seq<Seq<char>>) -> bool {
    &&& quotable(name)
    &&& forall|i: int| 0 <= i < members.len() ==> quotable(#[trigger] members[i])
}

// ---------------------------------------------------------------------------
// Finding a definition

/// White space between the items of a node.
pub open spec fn is_blank_byte(c: u8) -> bool {
    0x09 <= c <= 0x0d || c == 0x20
}

/// The first offset from `i` on without white space.
pub open spec fn skip_blank(t: Seq<u8>, i: int) -> int
    decreases t.len() - i,
{
    if 0 <= i < t.len() && is_blank_byte(t[i]) {
        skip_blank(t, i + 1)
    } else {
        i
    }
}

/// A bare word ends in front of this byte.
pub open spec fn ends_word(c: u8) -> bool {
    is_blank_byte(c) || c == sheet::OPEN || c == sheet::CLOSE || c == sheet::QUOTE
}

/// `b` can stand in a sheet without quotes.
pub open spec fn is_bare(b: Seq<u8>) -> bool {
    &&& b.len() > 0
    &&& forall|i: int| 0 <= i < b.len() ==> !ends_word(#[trigger] b[i]) && b[i] != sheet::BACKSLASH
}

/// The item at `i` is `name` between quotes.
pub open spec fn is_quoted_name(t: Seq<u8>, name: Seq<char>, i: int) -> bool {
    text::occurs_at(t, encode_utf8(quoted(name)), i)
}

/// The item at `i` is `name` as a bare word.
pub open spec fn is_bare_name(t: Seq<u8>, name: Seq<char>, i: int) -> bool {
    let word = encode_utf8(name);
    &&& is_bare(word)
    &&& text::occurs_at(t, word, i)
    &&& i + word.len() < t.len() ==> ends_word(t[i + word.len()])
}

/// The next item from `i` on, behind any white space, is `name`.
pub open spec fn names_next(t: Seq<u8>, name: Seq<char>, i: int) -> bool {
    let k = skip_blank(t, i);
    is_quoted_name(t, name, k) || (k > i && is_bare_name(t, name, k))
}

/// `(`, `bus_alias` and `name` follow each other from `i` on, with any white
/// space between them.
pub open spec fn begins_definition(t: Seq<u8>, name: Seq<char>, i: int) -> bool {
    let head = skip_blank(t, i + 1);
    &&& 0 <= i < t.len()
    &&& t[i] == sheet::OPEN
    &&& text::occurs_at(t, encode_utf8("bus_alias"@), head)
    &&& names_next(t, name, head + 9)
}

/// A node that defines the alias `name` opens at `i`: outside quoted strings,
/// with the head `bus_alias` and then the name, and it closes. The name counts
/// as it stands in the sheet, between quotes or as a bare word.
pub open spec fn defines_at(t: Seq<u8>, name: Seq<char>, i: int) -> bool {
    &&& begins_definition(t, name, i)
    &&& sheet::outside_strings(t, i)
    &&& sheet::node_close(t, i) is Some
}

/// [`defines_at`] by offset.
pub open spec fn defining(t: Seq<u8>, name: Seq<char>) -> spec_fn(int) -> bool {
    |i: int| defines_at(t, name, i)
}

/// A definition that stands right in the root of the sheet, by offset.
pub open spec fn defining_in_root(t: Seq<u8>, name: Seq<char>) -> spec_fn(int) -> bool {
    |i: int| defines_at(t, name, i) && sheet::reading(t, i).depth == 1
}

/// The root of the sheet defines the alias `name`.
pub open spec fn defined_in_root(t: Seq<u8>, name: Seq<char>) -> bool {
    exists|i: int| #[trigger] defines_at(t, name, i) && sheet::reading(t, i).depth == 1
}

/// The node at `j` stands around `i` and in no node itself.
pub open spec fn is_root_around(t: Seq<u8>, j: int, i: int) -> bool {
    &&& j < i
    &&& sheet::reading(t, j).depth <= 0
    &&& sheet::node_close(t, j) matches Some(close) && i < close
}

/// `i` is the one node of `t` that defines the alias `name`. A root around it
/// does not count: a root that is itself such a node defines nothing.
pub open spec fn is_sole_definition(t: Seq<u8>, name: Seq<char>, i: int) -> bool {
    &&& defines_at(t, name, i)
    &&& forall|j: int| #[trigger] defines_at(t, name, j) ==> j == i || is_root_around(t, j, i)
}

/// Exactly one node of `t` defines the alias `name`.
pub open spec fn defined_once(t: Seq<u8>, name: Seq<char>) -> bool {
    exists|i: int| #[trigger] is_sole_definition(t, name, i)
}

/// The offset of the node at `start`, and the offset behind it.
pub open spec fn node_span(t: Seq<u8>, start: int) -> (int, int) {
    (start, sheet::node_close(t, start)->0 + 1)
}

/// The first node, at any depth, that defines the alias `name`.
pub open spec fn first_span(t: Seq<u8>, name: Seq<char>) -> Option<(int, int)> {
    match sheet::least(defining(t, name), 0) {
        Some(start) => Some(node_span(t, start)),
        None => None,
    }
}

/// The node that defines the alias `name`: its offset, and the offset behind it.
/// A definition counts in the root of a sheet, so the first one there is taken;
/// where there is none, the first at any depth.
pub open spec fn alias_span(t: Seq<u8>, name: Seq<char>) -> Option<(int, int)> {
    match sheet::least(defining_in_root(t, name), 0) {
        Some(start) => Some(node_span(t, start)),
        None => first_span(t, name),
    }
}

/// What [`first_span`] finds is the first definition there is.
pub proof fn lemma_first_span(t: Seq<u8>, name: Seq<char>)
    ensures
        first_span(t, name) matches Some((start, end)) ==> {
            &&& sheet::is_least(defining(t, name), 0, start)
            &&& defines_at(t, name, start)
            &&& sheet::closes_node(t, start, end - 1)
            &&& 0 <= start < end <= t.len()
        },
        first_span(t, name) is None ==> forall|i: int| !#[trigger] defines_at(t, name, i),
{
    let p = defining(t, name);
    if let Some((start, end)) = first_span(t, name) {
        assert(sheet::is_least(p, 0, start));
        assert(p(start));
        assert(sheet::closes_node(t, start, end - 1));
    } else {
        assert forall|i: int| !#[trigger] defines_at(t, name, i) by {
            if defines_at(t, name, i) {
                assert(p(i));
                sheet::lemma_least_exists(p, 0, i);
            }
        }
    }
}

/// What [`alias_span`] finds is a definition in the root, or, where none stands
/// there, the first definition there is.
pub proof fn lemma_alias_span(t: Seq<u8>, name: Seq<char>)
    ensures
        alias_span(t, name) matches Some((start, end)) ==> {
            &&& defines_at(t, name, start)
            &&& sheet::closes_node(t, start, end - 1)
            &&& 0 <= start < end <= t.len()
            &&& if defined_in_root(t, name) {
                sheet::reading(t, start).depth == 1
            } else {
                forall|j: int| j < start ==> !#[trigger] defines_at(t, name, j)
            }
        },
        alias_span(t, name) is None ==> forall|i: int| !#[trigger] defines_at(t, name, i),
{
    let p = defining_in_root(t, name);
    lemma_first_span(t, name);
    if let Some(start) = sheet::least(p, 0) {
        assert(sheet::is_least(p, 0, start));
        assert(p(start));
        assert(sheet::closes_node(t, start, sheet::node_close(t, start)->0));
    } else {
        assert(!defined_in_root(t, name)) by {
            if defined_in_root(t, name) {
                let i = choose|i: int| #[trigger]
                    defines_at(t, name, i) && sheet::reading(t, i).depth == 1;
                assert(p(i));
                sheet::lemma_least_exists(p, 0, i);
            }
        }
        if let Some((start, _)) = first_span(t, name) {
            assert forall|j: int| j < start implies !#[trigger] defines_at(t, name, j) by {
                assert(j >= 0 ==> !defining(t, name)(j));
            }
        }
    }
}

/// Skipping white space stays in the text.
pub proof fn lemma_skip_blank(t: Seq<u8>, i: int)
    requires
        0 <= i <= t.len(),
    ensures
        i <= skip_blank(t, i) <= t.len(),
    decreases t.len() - i,
{
    if i < t.len() && is_blank_byte(t[i]) {
        lemma_skip_blank(t, i + 1);
    }
}

/// The length of `bus_alias`.
pub proof fn lemma_head_length()
    ensures
        encode_utf8("bus_alias"@).len() == 9,
{
    reveal_strlit("bus_alias");
    is_ascii_chars_encode_utf8("bus_alias"@);
}

fn is_blank(c: u8) -> (blank: bool)
    ensures
        blank == is_blank_byte(c),
{
    (0x09 <= c && c <= 0x0d) || c == 0x20
}

fn ends_bare(c: u8) -> (ends: bool)
    ensures
        ends == ends_word(c),
{
    is_blank(c) || c == sheet::OPEN || c == sheet::CLOSE || c == sheet::QUOTE
}

fn skip(bytes: &[u8], from: usize) -> (at: usize)
    requires
        from <= bytes@.len(),
    ensures
        at == skip_blank(bytes@, from as int),
        from <= at <= bytes@.len(),
{
    let mut i: usize = from;
    while i < bytes.len() && is_blank(bytes[i])
        invariant
            from <= i <= bytes@.len(),
            skip_blank(bytes@, from as int) == skip_blank(bytes@, i as int),
        decreases bytes@.len() - i,
    {
        i = i + 1;
    }
    i
}

fn can_be_bare(word: &[u8]) -> (bare: bool)
    ensures
        bare == is_bare(word@),
{
    let mut i: usize = 0;
    while i < word.len()
        invariant
            i <= word@.len(),
            forall|j: int|
                0 <= j < i ==> !ends_word(#[trigger] word@[j]) && word@[j] != sheet::BACKSLASH,
        decreases word@.len() - i,
    {
        if ends_bare(word[i]) || word[i] == sheet::BACKSLASH {
            return false;
        }
        i = i + 1;
    }
    word.len() > 0
}

fn is_definition_start(bytes: &[u8], name: &str, i: usize) -> (begins: bool)
    ensures
        begins == begins_definition(bytes@, name@, i as int),
{
    let length: usize = bytes.len();
    if i >= length || bytes[i] != sheet::OPEN {
        return false;
    }
    let head: usize = skip(bytes, i + 1);
    if !text::stands_at(bytes, "bus_alias".as_bytes(), head) {
        return false;
    }
    proof {
        lemma_head_length();
    }
    let at: usize = skip(bytes, head + 9);
    let mut in_quotes = "\"".to_string();
    in_quotes.append(name);
    in_quotes.append("\"");
    assert(in_quotes@ == quoted(name@));
    if text::stands_at(bytes, in_quotes.as_str().as_bytes(), at) {
        return true;
    }
    let word = name.as_bytes();
    if at == head + 9 || !can_be_bare(word) || !text::stands_at(bytes, word, at) {
        return false;
    }
    let end: usize = at + word.len();
    end == length || ends_bare(bytes[end])
}

/// The definitions that are looked for: those in the root, or all.
spec fn looked_for(t: Seq<u8>, name: Seq<char>, in_root: bool) -> spec_fn(int) -> bool {
    if in_root {
        defining_in_root(t, name)
    } else {
        defining(t, name)
    }
}

fn find_definition(content: &str, name: &str, in_root: bool) -> (span: Option<(usize, usize)>)
    ensures
        match span {
            Some((start, end)) => {
                &&& sheet::least(looked_for(content.spec_bytes(), name@, in_root), 0) == Some(
                    start as int,
                )
                &&& node_span(content.spec_bytes(), start as int) == (start as int, end as int)
                &&& start < end <= content.spec_bytes().len()
                &&& is_char_boundary(content.spec_bytes(), start as int)
                &&& is_char_boundary(content.spec_bytes(), end as int)
            },
            None => sheet::least(looked_for(content.spec_bytes(), name@, in_root), 0) is None,
        },
{
    let bytes = content.as_bytes();
    // A text has no more bytes than `usize` counts.
    let _length: usize = bytes.len();
    let ghost t = content.spec_bytes();
    let ghost p = looked_for(t, name@, in_root);
    let mut in_string: bool = false;
    let mut escaped: bool = false;
    let mut depth: i128 = 0;
    let mut i: usize = 0;
    while i < bytes.len()
        invariant
            bytes@ == t,
            t == content.spec_bytes(),
            p == looked_for(t, name@, in_root),
            i <= t.len(),
            in_string == sheet::reading(t, i as int).quoted,
            escaped == sheet::reading(t, i as int).escaped,
            depth == sheet::reading(t, i as int).depth,
            -i <= depth <= i,
            forall|j: int| 0 <= j < i ==> !#[trigger] p(j),
        decreases t.len() - i,
    {
        if !in_string && (!in_root || depth == 1) && is_definition_start(bytes, name, i) {
            if let Some(close) = sheet::close_of_node(content, i) {
                proof {
                    assert(p(i as int));
                    sheet::lemma_least(p, 0, i as int);
                    encode_utf8_valid_utf8(content@);
                    sheet::lemma_close_is_parenthesis(t, i as int, close as int);
                    text::lemma_ascii_boundaries(t, i as int);
                    text::lemma_ascii_boundaries(t, close as int);
                }
                return Some((i, close + 1));
            }
        }
        assert(!p(i as int));
        proof {
            sheet::lemma_reading_next(t, i as int);
        }
        let c: u8 = bytes[i];
        if !in_string && c == sheet::OPEN {
            depth = depth + 1;
        } else if !in_string && c == sheet::CLOSE {
            depth = depth - 1;
        }
        let (quoted, behind_backslash) = sheet::read_byte(in_string, escaped, c);
        in_string = quoted;
        escaped = behind_backslash;
        i = i + 1;
    }
    assert forall|k: int| !sheet::is_least(p, 0, k) by {
        if sheet::is_least(p, 0, k) {
            assert(p(k));
        }
    }
    None
}

/// Span of the node that defines the alias `name`, from its first byte to behind
/// its last.
pub fn find_alias_span(content: &str, name: &str) -> (span: Option<(usize, usize)>)
    ensures
        match span {
            Some((start, end)) => alias_span(content.spec_bytes(), name@) == Some(
                (start as int, end as int),
            ),
            None => alias_span(content.spec_bytes(), name@) is None,
        },
        span matches Some((start, end)) ==> {
            &&& start < end <= content.spec_bytes().len()
            &&& is_char_boundary(content.spec_bytes(), start as int)
            &&& is_char_boundary(content.spec_bytes(), end as int)
        },
{
    match find_definition(content, name, true) {
        Some(span) => Some(span),
        None => find_definition(content, name, false),
    }
}

// ---------------------------------------------------------------------------
// Writing a block

/// The indentation of a sheet: a tab if any node of its first level stands
/// behind one, else two spaces.
pub open spec fn indentation(t: Seq<u8>) -> Seq<char> {
    if text::occurs(t, "\n\t(".spec_bytes()) {
        "\t"@
    } else {
        "  "@
    }
}

/// What a write did to a sheet.
#[derive(PartialEq, Eq, Structural, Clone, Copy, Debug)]
pub enum AliasAction {
    Added,
    Replaced,
}

/// A sheet after a write.
pub struct AliasEdit {
    pub content: String,
    pub action: AliasAction,
}

/// `t` without the nodes that define the alias `name`: the first is taken out
/// until there is none.
pub open spec fn stripped(t: Seq<u8>, name: Seq<char>) -> Seq<u8>
    decreases t.len(),
{
    match first_span(t, name) {
        Some((start, end)) => {
            proof {
                lemma_first_span(t, name);
            }
            stripped(t.subrange(0, start) + t.subrange(end, t.len() as int), name)
        },
        None => t,
    }
}

/// The sheet `t` with the alias `name` defined as `members`. The node that
/// defines it is replaced where it stands, and the text on both sides is
/// stripped of any other definition of it. Else a block is added on a line of
/// its own, and every other byte stays. Without a place for it there is no
/// result.
pub open spec fn edited(t: Seq<u8>, name: Seq<char>, members: Seq<Seq<char>>) -> Option<
    (Seq<u8>, AliasAction),
> {
    let indent = indentation(t);
    let block = encode_utf8(alias_block(name, members, indent));
    let end_of_text = t.len() as int;
    match alias_span(t, name) {
        Some((start, end)) => Some(
            (
                stripped(t.subrange(0, start), name) + block + stripped(
                    t.subrange(end, end_of_text),
                    name,
                ),
                AliasAction::Replaced,
            ),
        ),
        None => match sheet::insert_offset(t) {
            Some(at) => Some(
                (
                    t.subrange(0, at) + encode_utf8("\n"@ + indent) + block + t.subrange(
                        at,
                        end_of_text,
                    ),
                    AliasAction::Added,
                ),
            ),
            None => None,
        },
    }
}

/// Matches the indentation of a sheet, so that its next save by the editor
/// leaves every other line alone.
pub fn sheet_indent(content: &str) -> (indent: &'static str)
    ensures
        indent@ == indentation(content.spec_bytes()),
{
    match text::find(content.as_bytes(), "\n\t(".as_bytes()) {
        Some(_) => "\t",
        None => "  ",
    }
}

/// Takes out the nodes that define the alias `name`.
fn strip(content: &str, name: &str) -> (rest: String)
    ensures
        encode_utf8(rest@) == stripped(content.spec_bytes(), name@),
{
    let mut rest = content.to_string();
    loop
        invariant
            stripped(encode_utf8(rest@), name@) == stripped(content.spec_bytes(), name@),
        decreases encode_utf8(rest@).len(),
    {
        match find_definition(rest.as_str(), name, false) {
            Some((start, end)) => {
                let (before, _) = rest.as_str().split_at(start);
                let (_, after) = rest.as_str().split_at(end);
                let mut shorter = before.to_string();
                shorter.append(after);
                proof {
                    text::lemma_encode_concat(before@, after@);
                }
                rest = shorter;
            },
            None => {
                return rest;
            },
        }
    }
}

/// Defines the alias `name` as `members` in a sheet.
pub fn write_alias(content: &str, name: &str, members: &Vec<String>) -> (edit: Option<AliasEdit>)
    ensures
        match edit {
            Some(edit) => edited(content.spec_bytes(), name@, text::views(members@)) == Some(
                (encode_utf8(edit.content@), edit.action),
            ),
            None => edited(content.spec_bytes(), name@, text::views(members@)) is None,
        },
{
    let indent = sheet_indent(content);
    let block = format_bus_alias(name, members, indent);
    match find_alias_span(content, name) {
        Some((start, end)) => {
            let (before, _) = content.split_at(start);
            let (_, after) = content.split_at(end);
            let front = strip(before, name);
            let rest = strip(after, name);
            let mut edited = front.clone();
            edited.append(block.as_str());
            edited.append(rest.as_str());
            proof {
                text::lemma_encode_concat(front@, block@);
                text::lemma_encode_concat(front@ + block@, rest@);
            }
            Some(AliasEdit { content: edited, action: AliasAction::Replaced })
        },
        None => match sheet::alias_insert_offset(content) {
            Some(at) => {
                let (before, after) = content.split_at(at);
                let mut lead = "\n".to_string();
                lead.append(indent);
                let mut edited = before.to_string();
                edited.append(lead.as_str());
                edited.append(block.as_str());
                edited.append(after);
                proof {
                    text::lemma_encode_concat(before@, lead@);
                    text::lemma_encode_concat(before@ + lead@, block@);
                    text::lemma_encode_concat(before@ + lead@ + block@, after@);
                }
                Some(AliasEdit { content: edited, action: AliasAction::Added })
            },
            None => None,
        },
    }
}

} // verus!
