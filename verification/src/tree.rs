//! Parsed sheets, as far as bus aliases and library symbols go.
//!
//! A sheet parses to a tree of nodes. A list is known by its head, the text that
//! it begins with, and holds items behind it.

use crate::alias;
use crate::alias::AliasNode;
use crate::text;
use vstd::prelude::*;
use vstd::string::*;

verus! {

/// A node of a parsed sheet: an atom with its text, or a list of nodes.
#[derive(Debug)]
pub enum SheetNode {
    Atom(String),
    List(Vec<SheetNode>),
}

/// The text of an atom.
pub open spec fn atom_text(node: SheetNode) -> Option<Seq<char>> {
    match node {
        SheetNode::Atom(t) => Some(t@),
        SheetNode::List(_) => None,
    }
}

/// The items of a list, its head included.
pub open spec fn items(node: SheetNode) -> Seq<SheetNode> {
    match node {
        SheetNode::Atom(_) => Seq::empty(),
        SheetNode::List(nodes) => nodes@,
    }
}

/// `node` is a list with this head.
pub open spec fn has_head(node: SheetNode, head: Seq<char>) -> bool {
    items(node).len() > 0 && atom_text(items(node)[0]) == Some(head)
}

/// Those of `nodes` that are lists with this head, in their order.
pub open spec fn with_head(nodes: Seq<SheetNode>, head: Seq<char>) -> Seq<SheetNode>
    decreases nodes.len(),
{
    if nodes.len() == 0 {
        Seq::empty()
    } else {
        let front = with_head(nodes.drop_last(), head);
        if has_head(nodes.last(), head) {
            front.push(nodes.last())
        } else {
            front
        }
    }
}

/// The first of `nodes` that is a list with this head.
pub open spec fn first_with_head(nodes: Seq<SheetNode>, head: Seq<char>) -> Option<SheetNode> {
    if with_head(nodes, head).len() > 0 {
        Some(with_head(nodes, head)[0])
    } else {
        None
    }
}

/// The text of the item behind the head, if it is an atom.
pub open spec fn second_text(node: SheetNode) -> Option<Seq<char>> {
    if items(node).len() > 1 {
        atom_text(items(node)[1])
    } else {
        None
    }
}

/// The texts of the items behind the head, `None` for a list among them.
pub open spec fn texts_behind_head(node: SheetNode) -> Seq<Option<Seq<char>>> {
    if items(node).len() == 0 {
        Seq::empty()
    } else {
        items(node).drop_first().map_values(|n: SheetNode| atom_text(n))
    }
}

/// What a `bus_alias` node says: the name behind its head, and the items of its
/// `members` node.
pub open spec fn alias_node_of(node: SheetNode) -> alias::NodeView {
    alias::NodeView {
        name: second_text(node),
        members: match first_with_head(items(node), "members"@) {
            Some(members) => Some(texts_behind_head(members)),
            None => None,
        },
    }
}

/// What the `bus_alias` nodes say that stand right in the root of a sheet.
pub open spec fn alias_nodes_of(root: SheetNode) -> Seq<alias::NodeView> {
    with_head(items(root), "bus_alias"@).map_values(|n: SheetNode| alias_node_of(n))
}

/// The names of the symbols in the `lib_symbols` node of a sheet.
pub open spec fn library_names_of(root: SheetNode) -> Seq<Option<Seq<char>>> {
    match first_with_head(items(root), "lib_symbols"@) {
        Some(library) => with_head(items(library), "symbol"@).map_values(
            |n: SheetNode| second_text(n),
        ),
        None => Seq::empty(),
    }
}

fn is_headed(node: &SheetNode, head: &str) -> (found: bool)
    ensures
        found == has_head(*node, head@),
{
    match node {
        SheetNode::Atom(_) => false,
        SheetNode::List(nodes) => {
            if nodes.len() == 0 {
                return false;
            }
            match &nodes[0] {
                SheetNode::Atom(t) => text::same_text(t.as_str(), head),
                SheetNode::List(_) => false,
            }
        },
    }
}

fn text_of(node: &SheetNode) -> (found: Option<String>)
    ensures
        text::optional(found) == atom_text(*node),
{
    match node {
        SheetNode::Atom(t) => Some(t.clone()),
        SheetNode::List(_) => None,
    }
}

fn text_behind_head(node: &SheetNode) -> (found: Option<String>)
    ensures
        text::optional(found) == second_text(*node),
{
    match node {
        SheetNode::Atom(_) => None,
        SheetNode::List(nodes) => if nodes.len() > 1 {
            text_of(&nodes[1])
        } else {
            None
        },
    }
}

fn behind_head(node: &SheetNode) -> (texts: Vec<Option<String>>)
    ensures
        alias::optionals(texts@) == texts_behind_head(*node),
{
    let mut texts: Vec<Option<String>> = Vec::new();
    let ghost all = texts_behind_head(*node);
    match node {
        SheetNode::Atom(_) => {},
        SheetNode::List(nodes) => {
            let mut i: usize = 1;
            while i < nodes.len()
                invariant
                    *node == SheetNode::List(*nodes),
                    all == texts_behind_head(*node),
                    1 <= i,
                    nodes@.len() > 0 ==> i <= nodes@.len(),
                    nodes@.len() == 0 ==> i == 1,
                    texts@.len() == i - 1,
                    forall|j: int|
                        0 <= j < i - 1 ==> text::optional(#[trigger] texts@[j]) == all[j],
                decreases nodes@.len() - i,
            {
                texts.push(text_of(&nodes[i]));
                assert(all[i - 1] == atom_text(nodes@[i as int]));
                i = i + 1;
            }
        },
    }
    assert(alias::optionals(texts@) == all);
    texts
}

fn find<'a>(node: &'a SheetNode, head: &str) -> (found: Option<&'a SheetNode>)
    ensures
        match found {
            Some(found) => first_with_head(items(*node), head@) == Some(*found),
            None => first_with_head(items(*node), head@) is None,
        },
{
    match node {
        SheetNode::Atom(_) => None,
        SheetNode::List(nodes) => {
            let ghost all = nodes@;
            let mut i: usize = 0;
            while i < nodes.len()
                invariant
                    i <= nodes@.len(),
                    all == nodes@,
                    items(*node) == all,
                    with_head(all.take(i as int), head@).len() == 0,
                decreases nodes@.len() - i,
            {
                assert(all.take(i + 1).drop_last() == all.take(i as int));
                if is_headed(&nodes[i], head) {
                    proof {
                        assert(all.take(i + 1).last() == all[i as int]);
                        assert(with_head(all.take(i + 1), head@)[0] == all[i as int]);
                        lemma_first_with_head(all, i + 1, head@);
                    }
                    return Some(&nodes[i]);
                }
                i = i + 1;
            }
            assert(all.take(i as int) == all);
            None
        },
    }
}

/// The first one of a prefix is the first of all.
proof fn lemma_first_with_head(nodes: Seq<SheetNode>, n: int, head: Seq<char>)
    requires
        0 <= n <= nodes.len(),
        with_head(nodes.take(n), head).len() > 0,
    ensures
        with_head(nodes, head).len() > 0,
        with_head(nodes, head)[0] == with_head(nodes.take(n), head)[0],
    decreases nodes.len() - n,
{
    if n == nodes.len() {
        assert(nodes.take(n) == nodes);
    } else {
        assert(nodes.take(n + 1).drop_last() == nodes.take(n));
        lemma_first_with_head(nodes, n + 1, head);
    }
}

fn read_alias(node: &SheetNode) -> (read: AliasNode)
    ensures
        read@ == alias_node_of(*node),
{
    let name = text_behind_head(node);
    let members: Option<Vec<Option<String>>> = match find(node, "members") {
        Some(members) => Some(behind_head(members)),
        None => None,
    };
    AliasNode { name, members }
}

/// The `bus_alias` nodes of a sheet: those that stand right in its root.
pub fn alias_nodes(root: &SheetNode) -> (nodes: Vec<AliasNode>)
    ensures
        alias::node_views(nodes@) == alias_nodes_of(*root),
{
    let mut found: Vec<AliasNode> = Vec::new();
    let ghost read = |n: SheetNode| alias_node_of(n);
    match root {
        SheetNode::Atom(_) => {},
        SheetNode::List(nodes) => {
            let ghost all = nodes@;
            let mut i: usize = 0;
            assert(alias::node_views(found@) == with_head(all.take(0), "bus_alias"@).map_values(
                read,
            ));
            while i < nodes.len()
                invariant
                    i <= nodes@.len(),
                    all == nodes@,
                    read == (|n: SheetNode| alias_node_of(n)),
                    alias::node_views(found@) == with_head(
                        all.take(i as int),
                        "bus_alias"@,
                    ).map_values(read),
                decreases nodes@.len() - i,
            {
                let ghost before = found@;
                let ghost front = with_head(all.take(i as int), "bus_alias"@);
                assert(all.take(i + 1).drop_last() == all.take(i as int));
                if is_headed(&nodes[i], "bus_alias") {
                    let node = read_alias(&nodes[i]);
                    let ghost view = node@;
                    found.push(node);
                    assert(alias::node_views(found@) == alias::node_views(before).push(view));
                    assert(front.push(all[i as int]).map_values(read) == front.map_values(
                        read,
                    ).push(view));
                }
                i = i + 1;
            }
            assert(all.take(i as int) == all);
        },
    }
    assert(alias::node_views(found@) == alias_nodes_of(*root));
    found
}

/// The names of the library symbols of a sheet, `None` for one without a name.
pub fn library_names(root: &SheetNode) -> (names: Vec<Option<String>>)
    ensures
        alias::optionals(names@) == library_names_of(*root),
{
    let mut names: Vec<Option<String>> = Vec::new();
    let ghost read = |n: SheetNode| second_text(n);
    if let Some(library) = find(root, "lib_symbols") {
        match library {
            SheetNode::Atom(_) => {},
            SheetNode::List(nodes) => {
                let ghost all = nodes@;
                let mut i: usize = 0;
                assert(alias::optionals(names@) == with_head(all.take(0), "symbol"@).map_values(
                    read,
                ));
                while i < nodes.len()
                    invariant
                        i <= nodes@.len(),
                        all == nodes@,
                        read == (|n: SheetNode| second_text(n)),
                        alias::optionals(names@) == with_head(
                            all.take(i as int),
                            "symbol"@,
                        ).map_values(read),
                    decreases nodes@.len() - i,
                {
                    let ghost before = names@;
                    let ghost front = with_head(all.take(i as int), "symbol"@);
                    assert(all.take(i + 1).drop_last() == all.take(i as int));
                    if is_headed(&nodes[i], "symbol") {
                        let name = text_behind_head(&nodes[i]);
                        let ghost view = text::optional(name);
                        names.push(name);
                        assert(alias::optionals(names@) == alias::optionals(before).push(view));
                        assert(front.push(all[i as int]).map_values(read) == front.map_values(
                            read,
                        ).push(view));
                    }
                    i = i + 1;
                }
                assert(all.take(i as int) == all);
            },
        }
    }
    assert(alias::optionals(names@) == library_names_of(*root));
    names
}

// ---------------------------------------------------------------------------
// Laws

/// `node` is what a block that defines `name` as `members` parses to: its head,
/// its name, and a list of its members behind the head `members`.
pub open spec fn is_alias_node(
    node: SheetNode,
    name: Seq<char>,
    members: Seq<Seq<char>>,
) -> bool {
    &&& items(node).len() == 3
    &&& atom_text(items(node)[0]) == Some("bus_alias"@)
    &&& atom_text(items(node)[1]) == Some(name)
    &&& has_head(items(node)[2], "members"@)
    &&& texts_behind_head(items(node)[2]) == members.map_values(|m: Seq<char>| Some(m))
}

/// Of two atoms and a node only the node can have a head.
proof fn lemma_three(all: Seq<SheetNode>, head: Seq<char>)
    requires
        all.len() == 3,
        atom_text(all[0]) is Some,
        atom_text(all[1]) is Some,
    ensures
        with_head(all, head) == if has_head(all[2], head) {
            seq![all[2]]
        } else {
            Seq::empty()
        },
{
    let none = Seq::<SheetNode>::empty();
    let (one, two) = (seq![all[0]], seq![all[0], all[1]]);
    assert(one.drop_last() == none && one.last() == all[0]);
    assert(with_head(one.drop_last(), head) == none);
    assert(!has_head(all[0], head) && !has_head(all[1], head));
    assert(with_head(one, head) == none);
    assert(two.drop_last() == one && two.last() == all[1]);
    assert(with_head(two, head) == none);
    assert(all.drop_last() == two && all.last() == all[2]);
}

proof fn lemma_all_texts(members: Seq<Seq<char>>)
    ensures
        alias::texts_among(members.map_values(|m: Seq<char>| Some(m))) == members,
    decreases members.len(),
{
    let all = members.map_values(|m: Seq<char>| Some(m));
    if members.len() > 0 {
        let front = members.drop_last();
        lemma_all_texts(front);
        assert(all.drop_last() == front.map_values(|m: Seq<char>| Some(m)));
        assert(all.last() == Some(members.last()));
        assert(front.push(members.last()) == members);
    }
}

/// An alias node gives back the name and the members that it was made of.
pub proof fn law_alias_node_is_read(node: SheetNode, name: Seq<char>, members: Seq<Seq<char>>)
    requires
        is_alias_node(node, name, members),
    ensures
        alias_node_of(node).name == Some(name),
        alias::node_members(alias_node_of(node)) == members,
{
    let all = items(node);
    lemma_three(all, "members"@);
    lemma_all_texts(members);
}

/// The aliases that a sheet defines are those of its alias nodes, one for each
/// and in their order, however often a name comes again.
pub proof fn law_alias_nodes_are_read_in_order(
    nodes: Seq<SheetNode>,
    names: Seq<Seq<char>>,
    members: Seq<Seq<Seq<char>>>,
    file: Seq<char>,
)
    requires
        names.len() == nodes.len(),
        members.len() == nodes.len(),
        forall|j: int|
            0 <= j < nodes.len() ==> is_alias_node(#[trigger] nodes[j], names[j], members[j]),
    ensures
        ({
            let defined = alias::defined_in(
                nodes.map_values(|n: SheetNode| alias_node_of(n)),
                file,
            );
            &&& defined.len() == nodes.len()
            &&& forall|j: int|
                0 <= j < nodes.len() ==> #[trigger] defined[j] == (alias::DefinitionView {
                    name: names[j],
                    members: members[j],
                    file,
                })
        }),
    decreases nodes.len(),
{
    let read = |n: SheetNode| alias_node_of(n);
    let views = nodes.map_values(read);
    if nodes.len() > 0 {
        let n = nodes.len() - 1;
        let front = nodes.drop_last();
        assert forall|j: int| 0 <= j < front.len() implies is_alias_node(
            #[trigger] front[j],
            names.drop_last()[j],
            members.drop_last()[j],
        ) by {
            assert(front[j] == nodes[j]);
        }
        law_alias_nodes_are_read_in_order(front, names.drop_last(), members.drop_last(), file);
        assert(views.drop_last() == front.map_values(read));
        assert(is_alias_node(nodes[n], names[n], members[n]));
        law_alias_node_is_read(nodes[n], names[n], members[n]);
        assert(views.last() == alias_node_of(nodes[n]));
        let defined = alias::defined_in(views, file);
        let before = alias::defined_in(views.drop_last(), file);
        assert forall|j: int| 0 <= j < nodes.len() implies #[trigger] defined[j] == (
        alias::DefinitionView { name: names[j], members: members[j], file }) by {
            if j < n {
                assert(defined[j] == before[j]);
            }
        }
    }
}

/// A definition counts in the root of a sheet only: a root that is itself an
/// alias node defines nothing.
pub proof fn law_root_itself_defines_nothing(
    root: SheetNode,
    name: Seq<char>,
    members: Seq<Seq<char>>,
)
    requires
        is_alias_node(root, name, members),
    ensures
        alias_nodes_of(root).len() == 0,
{
    reveal_strlit("bus_alias");
    reveal_strlit("members");
    let all = items(root);
    assert("bus_alias"@.len() != "members"@.len());
    lemma_three(all, "bus_alias"@);
}

/// `node` is a list that begins with an atom, and the text of that is `head`.
pub open spec fn begins_with(node: SheetNode, head: Seq<char>) -> bool {
    match node {
        SheetNode::List(nodes) => nodes@.len() > 0 && match nodes@[0] {
            SheetNode::Atom(t) => t@ == head,
            SheetNode::List(_) => false,
        },
        SheetNode::Atom(_) => false,
    }
}

/// The lists that are looked for by a head are all those that begin with it, in
/// their order.
pub proof fn law_lists_are_found_by_their_head(nodes: Seq<SheetNode>, head: Seq<char>)
    ensures
        with_head(nodes, head) == nodes.filter(|n: SheetNode| begins_with(n, head)),
        first_with_head(nodes, head) is None <==> nodes.filter(
            |n: SheetNode| begins_with(n, head),
        ).len() == 0,
        first_with_head(nodes, head) matches Some(found) ==> found == nodes.filter(
            |n: SheetNode| begins_with(n, head),
        )[0],
    decreases nodes.len(),
{
    reveal(Seq::filter);
    if nodes.len() > 0 {
        law_lists_are_found_by_their_head(nodes.drop_last(), head);
        assert(has_head(nodes.last(), head) <==> begins_with(nodes.last(), head));
    }
}

/// The text of an atom among `nodes`, at `i`.
pub open spec fn text_at(nodes: Seq<SheetNode>, i: int) -> Option<Seq<char>> {
    if 0 <= i < nodes.len() {
        match nodes[i] {
            SheetNode::Atom(t) => Some(t@),
            SheetNode::List(_) => None,
        }
    } else {
        None
    }
}

/// An alias node says its name right behind its head, if there stands an atom, and
/// its members behind the head of the first `members` list in it, one for every
/// item, in their order.
pub proof fn law_alias_node_says_name_and_members(nodes: Vec<SheetNode>)
    ensures
        ({
            let read = alias_node_of(SheetNode::List(nodes));
            let lists = nodes@.filter(|n: SheetNode| begins_with(n, "members"@));
            &&& read.name == text_at(nodes@, 1)
            &&& read.members is Some <==> lists.len() > 0
            &&& read.members matches Some(items) ==> {
                &&& lists[0] matches SheetNode::List(list)
                &&& items.len() == list@.len() - 1
                &&& forall|i: int|
                    0 <= i < items.len() ==> #[trigger] items[i] == text_at(list@, i + 1)
            }
        }),
{
    law_lists_are_found_by_their_head(nodes@, "members"@);
    let by_head = |n: SheetNode| begins_with(n, "members"@);
    let lists = nodes@.filter(by_head);
    if lists.len() > 0 {
        nodes@.lemma_filter_pred(by_head, 0);
        assert(begins_with(lists[0], "members"@));
    }
}

/// The aliases of a sheet are read from the `bus_alias` lists right in its root,
/// all of them and in their order; a sheet that is a mere atom has none.
pub proof fn law_root_gives_all_its_alias_nodes(root: SheetNode)
    ensures
        root matches SheetNode::List(nodes) ==> alias_nodes_of(root) == nodes@.filter(
            |n: SheetNode| begins_with(n, "bus_alias"@),
        ).map_values(|n: SheetNode| alias_node_of(n)),
        root is Atom ==> alias_nodes_of(root).len() == 0,
{
    law_lists_are_found_by_their_head(items(root), "bus_alias"@);
}

/// The library symbols of a sheet are the `symbol` lists in the first
/// `lib_symbols` list of its root, all of them and in their order, each named by
/// the atom behind its head. A sheet that is a mere atom has none.
pub proof fn law_library_gives_all_its_symbols(nodes: Vec<SheetNode>, atom: String)
    ensures
        library_names_of(SheetNode::Atom(atom)).len() == 0,
        ({
            let names = library_names_of(SheetNode::List(nodes));
            let libraries = nodes@.filter(|n: SheetNode| begins_with(n, "lib_symbols"@));
            &&& libraries.len() == 0 ==> names.len() == 0
            &&& libraries.len() > 0 ==> {
                &&& libraries[0] matches SheetNode::List(list)
                &&& ({
                    let symbols = list@.filter(|n: SheetNode| begins_with(n, "symbol"@));
                    &&& names.len() == symbols.len()
                    &&& forall|i: int|
                        0 <= i < names.len() ==> {
                            &&& symbols[i] matches SheetNode::List(symbol)
                            &&& #[trigger] names[i] == text_at(symbol@, 1)
                        }
                })
            }
        }),
{
    let by_library = |n: SheetNode| begins_with(n, "lib_symbols"@);
    let by_symbol = |n: SheetNode| begins_with(n, "symbol"@);
    law_lists_are_found_by_their_head(nodes@, "lib_symbols"@);
    let libraries = nodes@.filter(by_library);
    if libraries.len() > 0 {
        nodes@.lemma_filter_pred(by_library, 0);
        assert(begins_with(libraries[0], "lib_symbols"@));
        let list = items(libraries[0]);
        law_lists_are_found_by_their_head(list, "symbol"@);
        let symbols = list.filter(by_symbol);
        assert forall|i: int| 0 <= i < symbols.len() implies begins_with(
            #[trigger] symbols[i],
            "symbol"@,
        ) by {
            list.lemma_filter_pred(by_symbol, i);
        }
    }
}

} // verus!
