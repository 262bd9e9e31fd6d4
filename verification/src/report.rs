//! Reports on the aliases of a design: what it defines, and where definitions
//! and references do not fit together.
//!
//! KiCad does not flag a reference to an alias that no sheet defines. It reads
//! `DSI1{DSI}` as a group with the one member `DSI`, so the schematic looks
//! right and the netlist is wrong. The check here is for exactly that.

use crate::alias;
use crate::alias::{AliasDefinition, AliasUse, UseKind};
use crate::text;
use vstd::prelude::*;
use vstd::string::*;

verus! {

// ---------------------------------------------------------------------------
// Names in order

/// `names` are in the order of strings, each once.
pub open spec fn ascending(names: Seq<Seq<char>>) -> bool {
    forall|i: int, j: int|
        0 <= i < j < names.len() ==> text::text_before(#[trigger] names[i], #[trigger] names[j])
}

/// `names` are those of `set`, in the order of strings, each once.
pub open spec fn lists(names: Seq<Seq<char>>, set: Set<Seq<char>>) -> bool {
    &&& ascending(names)
    &&& forall|name: Seq<char>| #[trigger] names.contains(name) <==> set.contains(name)
}

/// The names of `set` in the order of strings.
pub open spec fn in_order(set: Set<Seq<char>>) -> Seq<Seq<char>> {
    choose|names: Seq<Seq<char>>| lists(names, set)
}

/// There is one order only.
pub proof fn lemma_in_order(names: Seq<Seq<char>>, set: Set<Seq<char>>)
    requires
        lists(names, set),
    ensures
        in_order(set) == names,
{
    let chosen = in_order(set);
    assert(lists(chosen, set));
    assert forall|name: Seq<char>| names.contains(name) <==> chosen.contains(name) by {
        assert(set.contains(name) <==> names.contains(name));
        assert(set.contains(name) <==> chosen.contains(name));
    }
    lemma_ascending_unique(names, chosen);
}

proof fn lemma_ascending_unique(a: Seq<Seq<char>>, b: Seq<Seq<char>>)
    requires
        ascending(a),
        ascending(b),
        forall|name: Seq<char>| a.contains(name) <==> b.contains(name),
    ensures
        a == b,
    decreases a.len(),
{
    if a.len() == 0 {
        if b.len() > 0 {
            assert(b.contains(b[0]));
            assert(a.contains(b[0]));
        }
    } else {
        let (m, n) = (a.len() - 1, b.len() - 1);
        assert(a.contains(a[m]));
        let j = choose|j: int| 0 <= j < b.len() && b[j] == a[m];
        assert(b.contains(b[n]));
        let i = choose|i: int| 0 <= i < a.len() && a[i] == b[n];
        if j < n {
            assert(text::text_before(b[j], b[n]));
            if i < m {
                assert(text::text_before(a[i], a[m]));
                text::lemma_before_asymmetric(b[j], b[n]);
            } else {
                text::lemma_before_irreflexive(a[m]);
            }
            assert(false);
        }
        let (x, y) = (a.drop_last(), b.drop_last());
        assert forall|name: Seq<char>| x.contains(name) <==> y.contains(name) by {
            lemma_contains_front(a, name);
            lemma_contains_front(b, name);
        }
        lemma_ascending_unique(x, y);
        assert(a == x.push(a[m]));
        assert(b == y.push(b[n]));
    }
}

proof fn lemma_contains_front(a: Seq<Seq<char>>, name: Seq<char>)
    requires
        ascending(a),
        a.len() > 0,
    ensures
        a.drop_last().contains(name) <==> a.contains(name) && name != a.last(),
{
    let x = a.drop_last();
    if x.contains(name) {
        let i = choose|i: int| 0 <= i < x.len() && x[i] == name;
        assert(a[i] == name);
        assert(text::text_before(a[i], a[a.len() - 1]));
        text::lemma_before_irreflexive(name);
    }
    if a.contains(name) && name != a.last() {
        let i = choose|i: int| 0 <= i < a.len() && a[i] == name;
        assert(x[i] == name);
    }
}

/// Puts `name` in its place among `names`, unless it is there.
fn insert_name(names: &mut Vec<String>, name: &str)
    requires
        ascending(text::views(old(names)@)),
    ensures
        ascending(text::views(final(names)@)),
        forall|other: Seq<char>| #[trigger]
            text::views(final(names)@).contains(other) <==> text::views(old(names)@).contains(other)
                || other == name@,
{
    let ghost before = text::views(names@);
    let mut i: usize = 0;
    while i < names.len()
        invariant
            i <= names@.len(),
            before == text::views(names@),
            before == text::views(old(names)@),
            ascending(before),
            forall|j: int| 0 <= j < i ==> text::text_before(#[trigger] before[j], name@),
        ensures
            i < before.len() ==> text::text_before(name@, before[i as int]),
        decreases names@.len() - i,
    {
        assert(before[i as int] == names@[i as int]@);
        match text::place(names[i].as_str(), name) {
            text::Place::Before => {
                i = i + 1;
            },
            text::Place::Same => {
                assert(before.contains(name@));
                return;
            },
            text::Place::After => {
                break;
            },
        }
    }
    names.insert(i, name.to_string());
    proof {
        let after = text::views(names@);
        let n = name@;
        assert(after == before.insert(i as int, n));
        assert forall|k: int| i <= k < before.len() implies text::text_before(
            n,
            #[trigger] before[k],
        ) by {
            if k > i {
                text::lemma_before_transitive(n, before[i as int], before[k]);
            }
        }
        assert forall|a: int, b: int| 0 <= a < b < after.len() implies text::text_before(
            #[trigger] after[a],
            #[trigger] after[b],
        ) by {
            let x = if a < i { a } else { a - 1 };
            let y = if b < i { b } else { b - 1 };
            if a != i {
                assert(after[a] == before[x]);
            }
            if b != i {
                assert(after[b] == before[y]);
            }
        }
        assert forall|other: Seq<char>| #[trigger]
            after.contains(other) <==> before.contains(other) || other == n by {
            if before.contains(other) {
                let k = choose|k: int| 0 <= k < before.len() && before[k] == other;
                if k < i {
                    assert(after[k] == other);
                } else {
                    assert(after[k + 1] == other);
                }
            }
            if other == n {
                assert(after[i as int] == n);
            }
            if after.contains(other) && other != n {
                let k = choose|k: int| 0 <= k < after.len() && after[k] == other;
                if k < i {
                    assert(before[k] == other);
                } else {
                    assert(before[k - 1] == other);
                }
            }
        }
    }
}

// ---------------------------------------------------------------------------
// Definitions and references of one alias

/// Some sheet defines `name`.
pub open spec fn defines(definitions: Seq<alias::DefinitionView>, name: Seq<char>) -> bool {
    exists|i: int| 0 <= i < definitions.len() && (#[trigger] definitions[i]).name == name
}

/// Some label refers to `name`.
pub open spec fn refers(uses: Seq<alias::UseView>, name: Seq<char>) -> bool {
    exists|i: int| 0 <= i < uses.len() && (#[trigger] uses[i]).alias == name
}

/// Two definitions of `name` give it different members.
pub open spec fn conflicts(definitions: Seq<alias::DefinitionView>, name: Seq<char>) -> bool {
    exists|i: int, j: int|
        0 <= i < definitions.len() && 0 <= j < definitions.len() && (
        #[trigger] definitions[i]).name == name && (#[trigger] definitions[j]).name == name
            && definitions[i].members != definitions[j].members
}

/// The definitions of `name`, in their order.
pub open spec fn definitions_of(
    definitions: Seq<alias::DefinitionView>,
    name: Seq<char>,
) -> Seq<alias::DefinitionView>
    decreases definitions.len(),
{
    if definitions.len() == 0 {
        Seq::empty()
    } else {
        let front = definitions_of(definitions.drop_last(), name);
        if definitions.last().name == name {
            front.push(definitions.last())
        } else {
            front
        }
    }
}

/// The references to `name`, in their order.
pub open spec fn references_to(uses: Seq<alias::UseView>, name: Seq<char>) -> Seq<alias::UseView>
    decreases uses.len(),
{
    if uses.len() == 0 {
        Seq::empty()
    } else {
        let front = references_to(uses.drop_last(), name);
        if uses.last().alias == name {
            front.push(uses.last())
        } else {
            front
        }
    }
}

/// The files of some definitions.
pub open spec fn files_of(definitions: Seq<alias::DefinitionView>) -> Seq<Seq<char>> {
    definitions.map_values(|d: alias::DefinitionView| d.file)
}

fn is_defined(definitions: &Vec<AliasDefinition>, name: &str) -> (found: bool)
    ensures
        found == defines(alias::definition_views(definitions@), name@),
{
    let ghost all = alias::definition_views(definitions@);
    let mut i: usize = 0;
    while i < definitions.len()
        invariant
            i <= definitions@.len(),
            all == alias::definition_views(definitions@),
            forall|j: int| 0 <= j < i ==> (#[trigger] all[j]).name != name@,
        decreases definitions@.len() - i,
    {
        assert(all[i as int] == definitions@[i as int]@);
        if text::same_text(definitions[i].name.as_str(), name) {
            return true;
        }
        i = i + 1;
    }
    false
}

fn is_referred_to(uses: &Vec<AliasUse>, name: &str) -> (found: bool)
    ensures
        found == refers(alias::use_views(uses@), name@),
{
    let ghost all = alias::use_views(uses@);
    let mut i: usize = 0;
    while i < uses.len()
        invariant
            i <= uses@.len(),
            all == alias::use_views(uses@),
            forall|j: int| 0 <= j < i ==> (#[trigger] all[j]).alias != name@,
        decreases uses@.len() - i,
    {
        assert(all[i as int] == uses@[i as int]@);
        if text::same_text(uses[i].alias.as_str(), name) {
            return true;
        }
        i = i + 1;
    }
    false
}

fn same_texts(a: &Vec<String>, b: &Vec<String>) -> (same: bool)
    ensures
        same == (text::views(a@) == text::views(b@)),
{
    let ghost (x, y) = (text::views(a@), text::views(b@));
    if a.len() != b.len() {
        assert(x.len() != y.len());
        return false;
    }
    let mut i: usize = 0;
    while i < a.len()
        invariant
            i <= a@.len() == b@.len(),
            x == text::views(a@),
            y == text::views(b@),
            forall|j: int| 0 <= j < i ==> #[trigger] x[j] == y[j],
        decreases a@.len() - i,
    {
        if !text::same_text(a[i].as_str(), b[i].as_str()) {
            assert(x[i as int] != y[i as int]);
            return false;
        }
        i = i + 1;
    }
    assert(x == y);
    true
}

fn is_in_conflict(definitions: &Vec<AliasDefinition>, name: &str) -> (found: bool)
    ensures
        found == conflicts(alias::definition_views(definitions@), name@),
{
    let ghost all = alias::definition_views(definitions@);
    let mut first: usize = 0;
    while first < definitions.len() && !text::same_text(definitions[first].name.as_str(), name)
        invariant
            first <= definitions@.len(),
            all == alias::definition_views(definitions@),
            forall|j: int| 0 <= j < first ==> (#[trigger] all[j]).name != name@,
        decreases definitions@.len() - first,
    {
        first = first + 1;
    }
    if first == definitions.len() {
        return false;
    }
    assert(all[first as int] == definitions@[first as int]@);
    let mut i: usize = first;
    while i < definitions.len()
        invariant
            first <= i <= definitions@.len(),
            first < definitions@.len(),
            all == alias::definition_views(definitions@),
            all[first as int].name == name@,
            forall|j: int|
                0 <= j < i && (#[trigger] all[j]).name == name@ ==> all[j].members
                    == all[first as int].members,
        decreases definitions@.len() - i,
    {
        assert(all[i as int] == definitions@[i as int]@);
        assert(all[first as int] == definitions@[first as int]@);
        if text::same_text(definitions[i].name.as_str(), name) && !same_texts(
            &definitions[i].members,
            &definitions[first].members,
        ) {
            return true;
        }
        i = i + 1;
    }
    false
}

fn files_defining(definitions: &Vec<AliasDefinition>, name: &str) -> (files: Vec<String>)
    ensures
        text::views(files@) == files_of(
            definitions_of(alias::definition_views(definitions@), name@),
        ),
{
    let ghost all = alias::definition_views(definitions@);
    let mut files: Vec<String> = Vec::new();
    let mut i: usize = 0;
    assert(text::views(files@) == files_of(definitions_of(all.take(0), name@)));
    while i < definitions.len()
        invariant
            i <= definitions@.len(),
            all == alias::definition_views(definitions@),
            text::views(files@) == files_of(definitions_of(all.take(i as int), name@)),
        decreases definitions@.len() - i,
    {
        let ghost before = files@;
        let ghost front = definitions_of(all.take(i as int), name@);
        assert(all.take(i + 1).drop_last() == all.take(i as int));
        assert(all[i as int] == definitions@[i as int]@);
        if text::same_text(definitions[i].name.as_str(), name) {
            files.push(definitions[i].file.clone());
            assert(text::views(files@) == text::views(before).push(all[i as int].file));
            assert(files_of(front.push(all[i as int])) == files_of(front).push(all[i as int].file));
        }
        i = i + 1;
    }
    assert(all.take(i as int) == all);
    files
}

// ---------------------------------------------------------------------------
// The names that a report goes through

/// The aliases that some sheet defines.
pub open spec fn defined_names(definitions: Seq<alias::DefinitionView>) -> Set<Seq<char>> {
    Set::new(|name: Seq<char>| defines(definitions, name))
}

/// The aliases that are defined more than once, with different members.
pub open spec fn conflicting_names(definitions: Seq<alias::DefinitionView>) -> Set<Seq<char>> {
    Set::new(|name: Seq<char>| conflicts(definitions, name))
}

/// The aliases that are referred to and that no sheet defines.
pub open spec fn unresolved_names(
    definitions: Seq<alias::DefinitionView>,
    uses: Seq<alias::UseView>,
) -> Set<Seq<char>> {
    Set::new(|name: Seq<char>| refers(uses, name) && !defines(definitions, name))
}

/// The aliases that some sheet defines and that nothing refers to.
pub open spec fn unused_names(
    definitions: Seq<alias::DefinitionView>,
    uses: Seq<alias::UseView>,
) -> Set<Seq<char>> {
    Set::new(|name: Seq<char>| defines(definitions, name) && !refers(uses, name))
}

fn name_defined(definitions: &Vec<AliasDefinition>) -> (names: Vec<String>)
    ensures
        lists(
            text::views(names@),
            defined_names(alias::definition_views(definitions@)),
        ),
{
    let ghost all = alias::definition_views(definitions@);
    let mut names: Vec<String> = Vec::new();
    let mut i: usize = 0;
    while i < definitions.len()
        invariant
            i <= definitions@.len(),
            all == alias::definition_views(definitions@),
            ascending(text::views(names@)),
            forall|name: Seq<char>| #[trigger]
                text::views(names@).contains(name) <==> defines(all.take(i as int), name),
        decreases definitions@.len() - i,
    {
        let ghost before = text::views(names@);
        insert_name(&mut names, definitions[i].name.as_str());
        proof {
            assert(all[i as int] == definitions@[i as int]@);
            assert forall|name: Seq<char>| #[trigger]
                text::views(names@).contains(name) <==> defines(all.take(i + 1), name) by {
                lemma_defines_push(all, i as int, name);
                assert(before.contains(name) <==> defines(all.take(i as int), name));
            }
        }
        i = i + 1;
    }
    assert(all.take(i as int) == all);
    names
}

proof fn lemma_defines_push(all: Seq<alias::DefinitionView>, i: int, name: Seq<char>)
    requires
        0 <= i < all.len(),
    ensures
        defines(all.take(i + 1), name) <==> defines(all.take(i), name) || all[i].name == name,
{
    if defines(all.take(i), name) {
        let k = choose|k: int| 0 <= k < all.take(i).len() && (#[trigger] all.take(i)[k]).name == name;
        assert(all.take(i + 1)[k].name == name);
    }
    if all[i].name == name {
        assert(all.take(i + 1)[i].name == name);
    }
    if defines(all.take(i + 1), name) {
        let k = choose|k: int|
            0 <= k < all.take(i + 1).len() && (#[trigger] all.take(i + 1)[k]).name == name;
        if k < i {
            assert(all.take(i)[k].name == name);
        }
    }
}

fn name_conflicting(definitions: &Vec<AliasDefinition>) -> (names: Vec<String>)
    ensures
        lists(
            text::views(names@),
            conflicting_names(alias::definition_views(definitions@)),
        ),
{
    let ghost all = alias::definition_views(definitions@);
    let mut names: Vec<String> = Vec::new();
    let mut i: usize = 0;
    while i < definitions.len()
        invariant
            i <= definitions@.len(),
            all == alias::definition_views(definitions@),
            ascending(text::views(names@)),
            forall|name: Seq<char>| #[trigger]
                text::views(names@).contains(name) <==> defines(all.take(i as int), name)
                    && conflicts(all, name),
        decreases definitions@.len() - i,
    {
        let ghost before = text::views(names@);
        assert(all[i as int] == definitions@[i as int]@);
        if is_in_conflict(definitions, definitions[i].name.as_str()) {
            insert_name(&mut names, definitions[i].name.as_str());
        }
        proof {
            assert forall|name: Seq<char>| #[trigger]
                text::views(names@).contains(name) <==> defines(all.take(i + 1), name)
                    && conflicts(all, name) by {
                lemma_defines_push(all, i as int, name);
                assert(before.contains(name) <==> defines(all.take(i as int), name) && conflicts(
                    all,
                    name,
                ));
            }
        }
        i = i + 1;
    }
    assert(all.take(i as int) == all);
    names
}

fn name_unused(definitions: &Vec<AliasDefinition>, uses: &Vec<AliasUse>) -> (names: Vec<String>)
    ensures
        lists(
            text::views(names@),
            unused_names(alias::definition_views(definitions@), alias::use_views(uses@)),
        ),
{
    let ghost all = alias::definition_views(definitions@);
    let ghost sites = alias::use_views(uses@);
    let mut names: Vec<String> = Vec::new();
    let mut i: usize = 0;
    while i < definitions.len()
        invariant
            i <= definitions@.len(),
            all == alias::definition_views(definitions@),
            sites == alias::use_views(uses@),
            ascending(text::views(names@)),
            forall|name: Seq<char>| #[trigger]
                text::views(names@).contains(name) <==> defines(all.take(i as int), name)
                    && !refers(sites, name),
        decreases definitions@.len() - i,
    {
        let ghost before = text::views(names@);
        assert(all[i as int] == definitions@[i as int]@);
        if !is_referred_to(uses, definitions[i].name.as_str()) {
            insert_name(&mut names, definitions[i].name.as_str());
        }
        proof {
            assert forall|name: Seq<char>| #[trigger]
                text::views(names@).contains(name) <==> defines(all.take(i + 1), name) && !refers(
                    sites,
                    name,
                ) by {
                lemma_defines_push(all, i as int, name);
                assert(before.contains(name) <==> defines(all.take(i as int), name) && !refers(
                    sites,
                    name,
                ));
            }
        }
        i = i + 1;
    }
    assert(all.take(i as int) == all);
    names
}

fn name_unresolved(definitions: &Vec<AliasDefinition>, uses: &Vec<AliasUse>) -> (names: Vec<
    String,
>)
    ensures
        lists(
            text::views(names@),
            unresolved_names(alias::definition_views(definitions@), alias::use_views(uses@)),
        ),
{
    let ghost all = alias::definition_views(definitions@);
    let ghost sites = alias::use_views(uses@);
    let mut names: Vec<String> = Vec::new();
    let mut i: usize = 0;
    while i < uses.len()
        invariant
            i <= uses@.len(),
            all == alias::definition_views(definitions@),
            sites == alias::use_views(uses@),
            ascending(text::views(names@)),
            forall|name: Seq<char>| #[trigger]
                text::views(names@).contains(name) <==> refers(sites.take(i as int), name)
                    && !defines(all, name),
        decreases uses@.len() - i,
    {
        let ghost before = text::views(names@);
        assert(sites[i as int] == uses@[i as int]@);
        if !is_defined(definitions, uses[i].alias.as_str()) {
            insert_name(&mut names, uses[i].alias.as_str());
        }
        proof {
            assert forall|name: Seq<char>| #[trigger]
                text::views(names@).contains(name) <==> refers(sites.take(i + 1), name)
                    && !defines(all, name) by {
                lemma_refers_push(sites, i as int, name);
                assert(before.contains(name) <==> refers(sites.take(i as int), name) && !defines(
                    all,
                    name,
                ));
            }
        }
        i = i + 1;
    }
    assert(sites.take(i as int) == sites);
    names
}

proof fn lemma_refers_push(all: Seq<alias::UseView>, i: int, name: Seq<char>)
    requires
        0 <= i < all.len(),
    ensures
        refers(all.take(i + 1), name) <==> refers(all.take(i), name) || all[i].alias == name,
{
    if refers(all.take(i), name) {
        let k = choose|k: int|
            0 <= k < all.take(i).len() && (#[trigger] all.take(i)[k]).alias == name;
        assert(all.take(i + 1)[k].alias == name);
    }
    if all[i].alias == name {
        assert(all.take(i + 1)[i].alias == name);
    }
    if refers(all.take(i + 1), name) {
        let k = choose|k: int|
            0 <= k < all.take(i + 1).len() && (#[trigger] all.take(i + 1)[k]).alias == name;
        if k < i {
            assert(all.take(i)[k].alias == name);
        }
    }
}

// ---------------------------------------------------------------------------
// The list of aliases

/// One alias of a design.
#[derive(Debug)]
pub struct AliasListing {
    pub name: String,
    /// The members that its first definition gives it.
    pub members: Vec<String>,
    /// The files that define it.
    pub defined_in: Vec<String>,
    /// Whether all its definitions give it the same members.
    pub consistent: bool,
}

/// [`AliasListing`] as a mathematical value.
pub struct ListingView {
    pub name: Seq<char>,
    pub members: Seq<Seq<char>>,
    pub defined_in: Seq<Seq<char>>,
    pub consistent: bool,
}

impl View for AliasListing {
    type V = ListingView;

    open spec fn view(&self) -> ListingView {
        ListingView {
            name: self.name@,
            members: text::views(self.members@),
            defined_in: text::views(self.defined_in@),
            consistent: self.consistent,
        }
    }
}

pub open spec fn listing_views(listings: Seq<AliasListing>) -> Seq<ListingView> {
    listings.map_values(|l: AliasListing| l@)
}

/// What a list of aliases says of `name`.
pub open spec fn listing_of(
    definitions: Seq<alias::DefinitionView>,
    name: Seq<char>,
) -> ListingView {
    let own = definitions_of(definitions, name);
    ListingView {
        name,
        members: own[0].members,
        defined_in: files_of(own),
        consistent: !conflicts(definitions, name),
    }
}

/// The aliases of a design, in the order of their names.
pub open spec fn alias_list(definitions: Seq<alias::DefinitionView>) -> Seq<ListingView> {
    in_order(defined_names(definitions)).map_values(
        |name: Seq<char>| listing_of(definitions, name),
    )
}

fn first_members(definitions: &Vec<AliasDefinition>, name: &str) -> (members: Vec<String>)
    requires
        defines(alias::definition_views(definitions@), name@),
    ensures
        text::views(members@) == definitions_of(
            alias::definition_views(definitions@),
            name@,
        )[0].members,
{
    let ghost all = alias::definition_views(definitions@);
    let mut i: usize = 0;
    while i < definitions.len()
        invariant
            i <= definitions@.len(),
            all == alias::definition_views(definitions@),
            definitions_of(all.take(i as int), name@).len() == 0,
            forall|j: int| 0 <= j < i ==> (#[trigger] all[j]).name != name@,
        decreases definitions@.len() - i,
    {
        assert(all.take(i + 1).drop_last() == all.take(i as int));
        assert(all[i as int] == definitions@[i as int]@);
        if text::same_text(definitions[i].name.as_str(), name) {
            proof {
                lemma_first_definition(all, i + 1, name@);
            }
            return text::copy_texts(&definitions[i].members);
        }
        i = i + 1;
    }
    Vec::new()
}

/// The first definition among a prefix is the first of all.
proof fn lemma_first_definition(all: Seq<alias::DefinitionView>, n: int, name: Seq<char>)
    requires
        0 <= n <= all.len(),
        definitions_of(all.take(n), name).len() > 0,
    ensures
        definitions_of(all, name).len() > 0,
        definitions_of(all, name)[0] == definitions_of(all.take(n), name)[0],
    decreases all.len() - n,
{
    if n == all.len() {
        assert(all.take(n) == all);
    } else {
        assert(all.take(n + 1).drop_last() == all.take(n));
        lemma_first_definition(all, n + 1, name);
    }
}

/// Lists the aliases of a design with the files that define them.
pub fn list_bus_aliases(definitions: &Vec<AliasDefinition>) -> (listings: Vec<AliasListing>)
    ensures
        listing_views(listings@) == alias_list(alias::definition_views(definitions@)),
{
    let ghost all = alias::definition_views(definitions@);
    let names = name_defined(definitions);
    let ghost ordered = text::views(names@);
    proof {
        lemma_in_order(ordered, defined_names(all));
    }
    let mut listings: Vec<AliasListing> = Vec::new();
    let mut i: usize = 0;
    while i < names.len()
        invariant
            i <= names@.len(),
            all == alias::definition_views(definitions@),
            ordered == text::views(names@),
            lists(ordered, defined_names(all)),
            listings@.len() == i,
            forall|j: int| 0 <= j < i ==> (#[trigger] listings@[j])@ == listing_of(all, ordered[j]),
        decreases names@.len() - i,
    {
        let name: &String = &names[i];
        assert(ordered[i as int] == name@);
        assert(ordered.contains(name@));
        listings.push(
            AliasListing {
                name: name.clone(),
                members: first_members(definitions, name.as_str()),
                defined_in: files_defining(definitions, name.as_str()),
                consistent: !is_in_conflict(definitions, name.as_str()),
            },
        );
        i = i + 1;
    }
    assert(listing_views(listings@) == alias_list(all));
    listings
}

// ---------------------------------------------------------------------------
// The check of aliases

/// One definition of an alias that is defined in different ways.
#[derive(Debug)]
pub struct DefinitionSite {
    pub file: String,
    pub members: Vec<String>,
}

/// One reference to an alias that no sheet defines.
#[derive(Debug)]
pub struct UseSite {
    pub label: String,
    pub file: String,
    pub item: UseKind,
}

/// A fault in the aliases of a design.
#[derive(Debug)]
pub enum AliasIssue {
    /// The same alias, defined in different ways.
    ConflictingDefinition { alias: String, definitions: Vec<DefinitionSite> },
    /// An alias that is referred to and that no sheet defines.
    UnresolvedAlias { alias: String, used_at: Vec<UseSite> },
}

/// An alias that is defined and that nothing refers to. This is no fault.
#[derive(Debug)]
pub struct UnusedAlias {
    pub alias: String,
    pub defined_in: Vec<String>,
}

/// What the check found.
#[derive(Debug)]
pub struct AliasReport {
    /// How many aliases the design defines.
    pub aliases_defined: usize,
    /// How many references to aliases it holds.
    pub alias_references: usize,
    /// The conflicts, by alias, and then the unresolved aliases.
    pub issues: Vec<AliasIssue>,
    pub unused: Vec<UnusedAlias>,
}

/// [`AliasIssue`] as a mathematical value.
pub enum IssueView {
    ConflictingDefinition {
        alias: Seq<char>,
        definitions: Seq<(Seq<char>, Seq<Seq<char>>)>,
    },
    UnresolvedAlias { alias: Seq<char>, used_at: Seq<(Seq<char>, Seq<char>, UseKind)> },
}

/// [`UnusedAlias`] as a mathematical value.
pub struct UnusedView {
    pub alias: Seq<char>,
    pub defined_in: Seq<Seq<char>>,
}

/// [`AliasReport`] as a mathematical value.
pub struct ReportView {
    pub aliases_defined: nat,
    pub alias_references: nat,
    pub issues: Seq<IssueView>,
    pub unused: Seq<UnusedView>,
}

pub open spec fn definition_site_views(sites: Seq<DefinitionSite>) -> Seq<
    (Seq<char>, Seq<Seq<char>>),
> {
    sites.map_values(|s: DefinitionSite| (s.file@, text::views(s.members@)))
}

pub open spec fn use_site_views(sites: Seq<UseSite>) -> Seq<(Seq<char>, Seq<char>, UseKind)> {
    sites.map_values(|s: UseSite| (s.label@, s.file@, s.item))
}

impl View for AliasIssue {
    type V = IssueView;

    open spec fn view(&self) -> IssueView {
        match self {
            AliasIssue::ConflictingDefinition { alias, definitions } =>
                IssueView::ConflictingDefinition {
                alias: alias@,
                definitions: definition_site_views(definitions@),
            },
            AliasIssue::UnresolvedAlias { alias, used_at } => IssueView::UnresolvedAlias {
                alias: alias@,
                used_at: use_site_views(used_at@),
            },
        }
    }
}

impl View for UnusedAlias {
    type V = UnusedView;

    open spec fn view(&self) -> UnusedView {
        UnusedView { alias: self.alias@, defined_in: text::views(self.defined_in@) }
    }
}

impl View for AliasReport {
    type V = ReportView;

    open spec fn view(&self) -> ReportView {
        ReportView {
            aliases_defined: self.aliases_defined as nat,
            alias_references: self.alias_references as nat,
            issues: issue_views(self.issues@),
            unused: unused_views(self.unused@),
        }
    }
}

pub open spec fn issue_views(issues: Seq<AliasIssue>) -> Seq<IssueView> {
    issues.map_values(|i: AliasIssue| i@)
}

pub open spec fn unused_views(unused: Seq<UnusedAlias>) -> Seq<UnusedView> {
    unused.map_values(|u: UnusedAlias| u@)
}

/// The issue of an alias that is defined in different ways: every definition.
pub open spec fn conflict_issue(
    definitions: Seq<alias::DefinitionView>,
    name: Seq<char>,
) -> IssueView {
    IssueView::ConflictingDefinition {
        alias: name,
        definitions: definitions_of(definitions, name).map_values(
            |d: alias::DefinitionView| (d.file, d.members),
        ),
    }
}

/// The issue of an alias that no sheet defines: every reference to it.
pub open spec fn unresolved_issue(uses: Seq<alias::UseView>, name: Seq<char>) -> IssueView {
    IssueView::UnresolvedAlias {
        alias: name,
        used_at: references_to(uses, name).map_values(
            |u: alias::UseView| (u.label, u.file, u.kind),
        ),
    }
}

/// The faults in the aliases of a design: the conflicts in the order of the
/// names, and then the unresolved aliases in the order of theirs.
pub open spec fn alias_issues(
    definitions: Seq<alias::DefinitionView>,
    uses: Seq<alias::UseView>,
) -> Seq<IssueView> {
    in_order(conflicting_names(definitions)).map_values(
        |name: Seq<char>| conflict_issue(definitions, name),
    ) + in_order(unresolved_names(definitions, uses)).map_values(
        |name: Seq<char>| unresolved_issue(uses, name),
    )
}

/// What the check says of a design.
pub open spec fn alias_report(
    definitions: Seq<alias::DefinitionView>,
    uses: Seq<alias::UseView>,
) -> ReportView {
    ReportView {
        aliases_defined: in_order(defined_names(definitions)).len(),
        alias_references: uses.len(),
        issues: alias_issues(definitions, uses),
        unused: in_order(unused_names(definitions, uses)).map_values(
            |name: Seq<char>| UnusedView {
                alias: name,
                defined_in: files_of(definitions_of(definitions, name)),
            },
        ),
    }
}

fn definition_sites(definitions: &Vec<AliasDefinition>, name: &str) -> (sites: Vec<DefinitionSite>)
    ensures
        definition_site_views(sites@) == definitions_of(
            alias::definition_views(definitions@),
            name@,
        ).map_values(|d: alias::DefinitionView| (d.file, d.members)),
{
    let ghost all = alias::definition_views(definitions@);
    let ghost pair = |d: alias::DefinitionView| (d.file, d.members);
    let mut sites: Vec<DefinitionSite> = Vec::new();
    let mut i: usize = 0;
    assert(definition_site_views(sites@) == definitions_of(all.take(0), name@).map_values(pair));
    while i < definitions.len()
        invariant
            i <= definitions@.len(),
            all == alias::definition_views(definitions@),
            pair == (|d: alias::DefinitionView| (d.file, d.members)),
            definition_site_views(sites@) == definitions_of(
                all.take(i as int),
                name@,
            ).map_values(pair),
        decreases definitions@.len() - i,
    {
        let ghost before = sites@;
        let ghost front = definitions_of(all.take(i as int), name@);
        assert(all.take(i + 1).drop_last() == all.take(i as int));
        assert(all[i as int] == definitions@[i as int]@);
        if text::same_text(definitions[i].name.as_str(), name) {
            let site = DefinitionSite {
                file: definitions[i].file.clone(),
                members: text::copy_texts(&definitions[i].members),
            };
            sites.push(site);
            assert(definition_site_views(sites@) == definition_site_views(before).push(
                pair(all[i as int]),
            ));
            assert(front.push(all[i as int]).map_values(pair) == front.map_values(pair).push(
                pair(all[i as int]),
            ));
        }
        i = i + 1;
    }
    assert(all.take(i as int) == all);
    sites
}

fn use_sites(uses: &Vec<AliasUse>, name: &str) -> (sites: Vec<UseSite>)
    ensures
        use_site_views(sites@) == references_to(alias::use_views(uses@), name@).map_values(
            |u: alias::UseView| (u.label, u.file, u.kind),
        ),
{
    let ghost all = alias::use_views(uses@);
    let ghost triple = |u: alias::UseView| (u.label, u.file, u.kind);
    let mut sites: Vec<UseSite> = Vec::new();
    let mut i: usize = 0;
    assert(use_site_views(sites@) == references_to(all.take(0), name@).map_values(triple));
    while i < uses.len()
        invariant
            i <= uses@.len(),
            all == alias::use_views(uses@),
            triple == (|u: alias::UseView| (u.label, u.file, u.kind)),
            use_site_views(sites@) == references_to(all.take(i as int), name@).map_values(triple),
        decreases uses@.len() - i,
    {
        let ghost before = sites@;
        let ghost front = references_to(all.take(i as int), name@);
        assert(all.take(i + 1).drop_last() == all.take(i as int));
        assert(all[i as int] == uses@[i as int]@);
        if text::same_text(uses[i].alias.as_str(), name) {
            let site = UseSite {
                label: uses[i].label.clone(),
                file: uses[i].file.clone(),
                item: uses[i].kind,
            };
            sites.push(site);
            assert(use_site_views(sites@) == use_site_views(before).push(triple(all[i as int])));
            assert(front.push(all[i as int]).map_values(triple) == front.map_values(triple).push(
                triple(all[i as int]),
            ));
        }
        i = i + 1;
    }
    assert(all.take(i as int) == all);
    sites
}

/// Checks the references to aliases in a design against its definitions.
pub fn validate_bus_aliases(definitions: &Vec<AliasDefinition>, uses: &Vec<AliasUse>) -> (report:
    AliasReport)
    ensures
        report@ == alias_report(alias::definition_views(definitions@), alias::use_views(uses@)),
{
    let ghost all = alias::definition_views(definitions@);
    let ghost sites = alias::use_views(uses@);
    let defined = name_defined(definitions);
    let conflicting = name_conflicting(definitions);
    let unresolved = name_unresolved(definitions, uses);
    let unreferenced = name_unused(definitions, uses);
    proof {
        lemma_in_order(text::views(defined@), defined_names(all));
        lemma_in_order(text::views(conflicting@), conflicting_names(all));
        lemma_in_order(text::views(unresolved@), unresolved_names(all, sites));
        lemma_in_order(text::views(unreferenced@), unused_names(all, sites));
    }
    let mut issues: Vec<AliasIssue> = Vec::new();
    let ghost first = text::views(conflicting@);
    let mut i: usize = 0;
    while i < conflicting.len()
        invariant
            i <= conflicting@.len(),
            all == alias::definition_views(definitions@),
            first == text::views(conflicting@),
            issues@.len() == i,
            forall|j: int| 0 <= j < i ==> (#[trigger] issues@[j])@ == conflict_issue(all, first[j]),
        decreases conflicting@.len() - i,
    {
        let name: &String = &conflicting[i];
        issues.push(
            AliasIssue::ConflictingDefinition {
                alias: name.clone(),
                definitions: definition_sites(definitions, name.as_str()),
            },
        );
        i = i + 1;
    }
    let ghost second = text::views(unresolved@);
    let ghost n = first.len();
    let mut k: usize = 0;
    while k < unresolved.len()
        invariant
            k <= unresolved@.len(),
            sites == alias::use_views(uses@),
            second == text::views(unresolved@),
            n == first.len(),
            issues@.len() == n + k,
            forall|j: int| 0 <= j < n ==> (#[trigger] issues@[j])@ == conflict_issue(all, first[j]),
            forall|j: int|
                n <= j < n + k ==> (#[trigger] issues@[j])@ == unresolved_issue(
                    sites,
                    second[j - n],
                ),
        decreases unresolved@.len() - k,
    {
        let name: &String = &unresolved[k];
        issues.push(
            AliasIssue::UnresolvedAlias {
                alias: name.clone(),
                used_at: use_sites(uses, name.as_str()),
            },
        );
        k = k + 1;
    }
    assert(issue_views(issues@) == alias_issues(all, sites));
    let mut unused: Vec<UnusedAlias> = Vec::new();
    let ghost third = text::views(unreferenced@);
    let mut m: usize = 0;
    while m < unreferenced.len()
        invariant
            m <= unreferenced@.len(),
            all == alias::definition_views(definitions@),
            third == text::views(unreferenced@),
            unused@.len() == m,
            forall|j: int|
                0 <= j < m ==> (#[trigger] unused@[j])@ == (UnusedView {
                    alias: third[j],
                    defined_in: files_of(definitions_of(all, third[j])),
                }),
        decreases unreferenced@.len() - m,
    {
        let name: &String = &unreferenced[m];
        unused.push(
            UnusedAlias {
                alias: name.clone(),
                defined_in: files_defining(definitions, name.as_str()),
            },
        );
        m = m + 1;
    }
    assert(unused_views(unused@) == alias_report(all, sites).unused);
    AliasReport {
        aliases_defined: defined.len(),
        alias_references: uses.len(),
        issues,
        unused,
    }
}

// ---------------------------------------------------------------------------
// The words of a report

/// The name of the kind of an issue.
pub open spec fn issue_kind(issue: IssueView) -> Seq<char> {
    match issue {
        IssueView::ConflictingDefinition { .. } => "conflicting_definition"@,
        IssueView::UnresolvedAlias { .. } => "unresolved_alias"@,
    }
}

/// Why an issue is a fault.
pub open spec fn issue_reason(issue: IssueView) -> Seq<char> {
    match issue {
        IssueView::ConflictingDefinition { .. } =>
            "the same alias is defined more than once with different members; which one wins is not defined by the file format"@,
        IssueView::UnresolvedAlias { alias, .. } => "no sheet in this hierarchy defines '"@ + alias
            + "'. KiCad does not flag that: it reads the label as a one-member group and nets up 'PREFIX."@
            + alias + "'. The schematic looks right and the netlist is wrong."@,
    }
}

impl AliasIssue {
    /// The name of the kind of this issue.
    pub fn kind(&self) -> (kind: &'static str)
        ensures
            kind@ == issue_kind(self@),
    {
        match self {
            AliasIssue::ConflictingDefinition { .. } => "conflicting_definition",
            AliasIssue::UnresolvedAlias { .. } => "unresolved_alias",
        }
    }

    /// Why this issue is a fault.
    pub fn reason(&self) -> (reason: String)
        ensures
            reason@ == issue_reason(self@),
    {
        match self {
            AliasIssue::ConflictingDefinition { .. } =>
                "the same alias is defined more than once with different members; which one wins is not defined by the file format".to_string(),
            AliasIssue::UnresolvedAlias { alias, .. } => {
                let mut reason = "no sheet in this hierarchy defines '".to_string();
                reason.append(alias.as_str());
                reason.append(
                    "'. KiCad does not flag that: it reads the label as a one-member group and nets up 'PREFIX.",
                );
                reason.append(alias.as_str());
                reason.append("'. The schematic looks right and the netlist is wrong.");
                reason
            },
        }
    }
}

} // verus!
