//! Adding a bus alias to a sheet: which requests are refused, and what becomes
//! of the sheet otherwise.

use crate::alias;
use crate::alias::AliasDefinition;
use crate::block;
use crate::block::AliasAction;
use crate::block_laws;
use crate::label;
use crate::sheet;
use crate::text;
use vstd::prelude::*;
use vstd::string::*;
use vstd::utf8::*;

verus! {

/// A request that passed the check.
#[derive(Debug)]
pub struct AliasRequest {
    pub name: String,
    pub members: Vec<String>,
}

/// Why no alias was written.
#[derive(Debug)]
pub enum AliasRefusal {
    /// The request has no name, or a blank one.
    MissingName,
    /// The name holds white space.
    SpacedName(String),
    /// The request has no member list.
    MissingMembers,
    /// The member list names nothing.
    NoMembers,
    /// This member is empty or holds white space.
    BadMember(String),
    /// The sheet has no place for an alias.
    NoPlace,
}

/// [`AliasRefusal`] as a mathematical value.
pub enum RefusalView {
    MissingName,
    SpacedName(Seq<char>),
    MissingMembers,
    NoMembers,
    BadMember(Seq<char>),
    NoPlace,
}

impl View for AliasRefusal {
    type V = RefusalView;

    open spec fn view(&self) -> RefusalView {
        match self {
            AliasRefusal::MissingName => RefusalView::MissingName,
            AliasRefusal::SpacedName(name) => RefusalView::SpacedName(name@),
            AliasRefusal::MissingMembers => RefusalView::MissingMembers,
            AliasRefusal::NoMembers => RefusalView::NoMembers,
            AliasRefusal::BadMember(member) => RefusalView::BadMember(member@),
            AliasRefusal::NoPlace => RefusalView::NoPlace,
        }
    }
}

/// The words of a refusal.
pub open spec fn refusal_message(refusal: RefusalView) -> Seq<char> {
    match refusal {
        RefusalView::MissingName => "Missing 'name'"@,
        RefusalView::SpacedName(name) => "Alias name '"@ + name
            + "' contains whitespace. KiCad splits a group bus on whitespace, so a 'PREFIX{NAME}' reference could never resolve to it."@,
        RefusalView::MissingMembers => "Missing 'members' array"@,
        RefusalView::NoMembers => "'members' must name at least one signal"@,
        RefusalView::BadMember(member) => "Member '"@ + member
            + "' is empty or contains whitespace; KiCad splits members on whitespace."@,
        RefusalView::NoPlace => "Could not find anywhere to write the alias: the sheet has neither a lib_symbols block nor a (uuid ...) node to anchor against."@,
    }
}

impl AliasRefusal {
    /// The words of this refusal.
    pub fn message(&self) -> (message: String)
        ensures
            message@ == refusal_message(self@),
    {
        match self {
            AliasRefusal::MissingName => "Missing 'name'".to_string(),
            AliasRefusal::SpacedName(name) => {
                let mut message = "Alias name '".to_string();
                message.append(name.as_str());
                message.append(
                    "' contains whitespace. KiCad splits a group bus on whitespace, so a 'PREFIX{NAME}' reference could never resolve to it.",
                );
                message
            },
            AliasRefusal::MissingMembers => "Missing 'members' array".to_string(),
            AliasRefusal::NoMembers => "'members' must name at least one signal".to_string(),
            AliasRefusal::BadMember(member) => {
                let mut message = "Member '".to_string();
                message.append(member.as_str());
                message.append(
                    "' is empty or contains whitespace; KiCad splits members on whitespace.",
                );
                message
            },
            AliasRefusal::NoPlace => "Could not find anywhere to write the alias: the sheet has neither a lib_symbols block nor a (uuid ...) node to anchor against.".to_string(),
        }
    }
}

/// A member that KiCad could not read back: members are split on white space.
pub open spec fn is_bad_member(member: Seq<char>) -> bool {
    text::is_blank(member) || text::has_space(member)
}

/// The first bad one among `members`.
pub open spec fn first_bad_member(members: Seq<Seq<char>>) -> Option<Seq<char>>
    decreases members.len(),
{
    if members.len() == 0 {
        None
    } else if is_bad_member(members[0]) {
        Some(members[0])
    } else {
        first_bad_member(members.drop_first())
    }
}

/// Why a request is refused, if it is. Of the requested members only those that
/// are text count.
pub open spec fn request_refusal(
    name: Option<Seq<char>>,
    members: Option<Seq<Option<Seq<char>>>>,
) -> Option<RefusalView> {
    if name is None || text::is_blank(name->0) {
        Some(RefusalView::MissingName)
    } else if text::has_space(name->0) {
        Some(RefusalView::SpacedName(name->0))
    } else if members is None {
        Some(RefusalView::MissingMembers)
    } else if alias::texts_among(members->0).len() == 0 {
        Some(RefusalView::NoMembers)
    } else {
        match first_bad_member(alias::texts_among(members->0)) {
            Some(member) => Some(RefusalView::BadMember(member)),
            None => None,
        }
    }
}

fn find_bad_member(members: &Vec<String>) -> (bad: Option<&String>)
    ensures
        match bad {
            Some(member) => first_bad_member(text::views(members@)) == Some(member@),
            None => first_bad_member(text::views(members@)) is None,
        },
{
    let ghost all = text::views(members@);
    let mut i: usize = 0;
    assert(all.skip(0) == all);
    while i < members.len()
        invariant
            i <= members@.len(),
            all == text::views(members@),
            first_bad_member(all) == first_bad_member(all.skip(i as int)),
        decreases members@.len() - i,
    {
        let member: &String = &members[i];
        assert(all.skip(i as int)[0] == member@);
        assert(all.skip(i as int).drop_first() == all.skip(i + 1));
        if text::trims_to_nothing(member.as_str()) || text::contains_whitespace(member.as_str()) {
            return Some(member);
        }
        i = i + 1;
    }
    None
}

/// Checks a request: the name as given, if it is text, and the items of the
/// member list, if there is one; an item that is no text is `None`.
pub fn check_alias_request(
    name: &Option<String>,
    members: &Option<Vec<Option<String>>>,
) -> (request: Result<AliasRequest, AliasRefusal>)
    ensures
        ({
            let items = match members {
                Some(items) => Some(alias::optionals(items@)),
                None => None,
            };
            match request {
                Ok(request) => {
                    &&& request_refusal(text::optional(*name), items) is None
                    &&& text::optional(*name) == Some(request.name@)
                    &&& text::views(request.members@) == alias::texts_among(items->0)
                },
                Err(refusal) => request_refusal(text::optional(*name), items) == Some(refusal@),
            }
        }),
{
    let name: &String = match name {
        Some(name) => name,
        None => {
            return Err(AliasRefusal::MissingName);
        },
    };
    if text::trims_to_nothing(name.as_str()) {
        return Err(AliasRefusal::MissingName);
    }
    if text::contains_whitespace(name.as_str()) {
        return Err(AliasRefusal::SpacedName(name.clone()));
    }
    let items: &Vec<Option<String>> = match members {
        Some(items) => items,
        None => {
            return Err(AliasRefusal::MissingMembers);
        },
    };
    let members = alias::keep_texts(items);
    if members.is_empty() {
        return Err(AliasRefusal::NoMembers);
    }
    match find_bad_member(&members) {
        Some(member) => Err(AliasRefusal::BadMember(member.clone())),
        None => Ok(AliasRequest { name: name.clone(), members }),
    }
}

// ---------------------------------------------------------------------------
// The write

/// A request as it is written between quotes: name and members escaped.
pub struct EscapedAlias {
    pub name: String,
    pub members: Vec<String>,
}

/// What a write did.
pub struct AliasWrite {
    /// The sheet after the write.
    pub content: String,
    pub action: AliasAction,
    /// The members that a replaced definition had, as far as the sheet parsed.
    pub previous: Option<Vec<String>>,
    /// How a label refers to the alias.
    pub reference_form: String,
}

/// The members that the first definition of `name` gives it.
pub open spec fn members_of(
    definitions: Seq<alias::DefinitionView>,
    name: Seq<char>,
) -> Option<Seq<Seq<char>>>
    decreases definitions.len(),
{
    if definitions.len() == 0 {
        None
    } else if definitions[0].name == name {
        Some(definitions[0].members)
    } else {
        members_of(definitions.drop_first(), name)
    }
}

/// How a label refers to the alias `name`.
pub open spec fn reference_form(name: Seq<char>) -> Seq<char> {
    "PREFIX{"@ + name + "}"@
}

/// [`AliasWrite`] as a mathematical value, with the bytes of the sheet.
pub struct WriteView {
    pub content: Seq<u8>,
    pub action: AliasAction,
    pub previous: Option<Seq<Seq<char>>>,
    pub reference_form: Seq<char>,
}

impl View for AliasWrite {
    type V = WriteView;

    open spec fn view(&self) -> WriteView {
        WriteView {
            content: encode_utf8(self.content@),
            action: self.action,
            previous: match self.previous {
                Some(previous) => Some(text::views(previous@)),
                None => None,
            },
            reference_form: self.reference_form@,
        }
    }
}

/// What writing the alias `name` into the sheet `t` does, where `written_name`
/// and `written_members` are its name and members as they stand between quotes,
/// and `defined` the aliases that the sheet defines.
pub open spec fn written(
    t: Seq<u8>,
    name: Seq<char>,
    written_name: Seq<char>,
    written_members: Seq<Seq<char>>,
    defined: Seq<alias::DefinitionView>,
) -> Option<WriteView> {
    match block::edited(t, written_name, written_members) {
        Some((content, action)) => Some(
            WriteView {
                content,
                action,
                previous: if action == AliasAction::Replaced {
                    members_of(defined, name)
                } else {
                    None
                },
                reference_form: reference_form(name),
            },
        ),
        None => None,
    }
}

/// The name of an action in reports.
pub open spec fn action_name(action: AliasAction) -> Seq<char> {
    match action {
        AliasAction::Added => "added"@,
        AliasAction::Replaced => "replaced"@,
    }
}

/// The name of an action in reports.
pub fn action_text(action: AliasAction) -> (name: &'static str)
    ensures
        name@ == action_name(action),
{
    match action {
        AliasAction::Added => "added",
        AliasAction::Replaced => "replaced",
    }
}

fn find_members(definitions: &Vec<AliasDefinition>, name: &str) -> (members: Option<Vec<String>>)
    ensures
        match members {
            Some(members) => members_of(alias::definition_views(definitions@), name@) == Some(
                text::views(members@),
            ),
            None => members_of(alias::definition_views(definitions@), name@) is None,
        },
{
    let ghost all = alias::definition_views(definitions@);
    let mut i: usize = 0;
    assert(all.skip(0) == all);
    while i < definitions.len()
        invariant
            i <= definitions@.len(),
            all == alias::definition_views(definitions@),
            members_of(all, name@) == members_of(all.skip(i as int), name@),
        decreases definitions@.len() - i,
    {
        assert(all.skip(i as int)[0] == definitions@[i as int]@);
        assert(all.skip(i as int).drop_first() == all.skip(i + 1));
        if text::same_text(definitions[i].name.as_str(), name) {
            return Some(text::copy_texts(&definitions[i].members));
        }
        i = i + 1;
    }
    None
}

/// Writes an alias into a sheet. `escaped` is the request with its name and
/// members escaped for quotes, and `defined` the aliases that the sheet defines.
///
/// An alias that the sheet defines is redefined in its place: that of its first
/// definition right in the root, or of its first one anywhere where the root has
/// none. Its other definitions are taken out, so the sheet then defines it
/// exactly once: in the root where it did so before, or where a new definition
/// goes to a place in the root. A root around it that is such a node itself
/// counts as none. That takes texts in `escaped` that can stand between quotes.
pub fn add_bus_alias(
    content: &str,
    request: &AliasRequest,
    escaped: &EscapedAlias,
    defined: &Vec<AliasDefinition>,
) -> (write: Result<AliasWrite, AliasRefusal>)
    ensures
        ({
            let result = written(
                content.spec_bytes(),
                request.name@,
                escaped.name@,
                text::views(escaped.members@),
                alias::definition_views(defined@),
            );
            match write {
                Ok(write) => result == Some(write@),
                Err(refusal) => result is None && refusal == AliasRefusal::NoPlace,
            }
        }),
        write matches Ok(write) ==> (write.action == AliasAction::Replaced <==> exists|i: int|
            #[trigger] block::defines_at(content.spec_bytes(), escaped.name@, i)),
        write matches Ok(write) ==> block::writable(escaped.name@, text::views(escaped.members@))
            ==> block::defined_once(encode_utf8(write.content@), escaped.name@),
        write matches Ok(write) ==> block::writable(escaped.name@, text::views(escaped.members@))
            && (block::defined_in_root(content.spec_bytes(), escaped.name@) || sheet::reading(
            content.spec_bytes(),
            block_laws::place_of(content.spec_bytes(), escaped.name@),
        ).depth == 1) ==> block::defined_in_root(encode_utf8(write.content@), escaped.name@),
{
    match block::write_alias(content, escaped.name.as_str(), &escaped.members) {
        Some(edit) => {
            proof {
                let (t, name) = (content.spec_bytes(), escaped.name@);
                let members = text::views(escaped.members@);
                let after = encode_utf8(edit.content@);
                block_laws::law_write_replaces_what_is_defined(t, name, members, after, edit.action);
                if block::writable(name, members) {
                    block_laws::law_write_defines_once(t, name, members, after, edit.action);
                }
            }
            let previous = match edit.action {
                AliasAction::Replaced => find_members(defined, request.name.as_str()),
                AliasAction::Added => None,
            };
            let mut form = "PREFIX{".to_string();
            form.append(request.name.as_str());
            form.append("}");
            Ok(
                AliasWrite {
                    content: edit.content,
                    action: edit.action,
                    previous,
                    reference_form: form,
                },
            )
        },
        None => Err(AliasRefusal::NoPlace),
    }
}

// ---------------------------------------------------------------------------
// Laws

/// A request that is not refused names its alias and every member by one word.
pub proof fn law_accepted_request_is_clean(
    name: Option<Seq<char>>,
    members: Option<Seq<Option<Seq<char>>>>,
)
    requires
        request_refusal(name, members) is None,
    ensures
        name is Some && name->0.len() > 0 && !text::has_space(name->0),
        members is Some && alias::texts_among(members->0).len() > 0,
        forall|i: int|
            0 <= i < alias::texts_among(members->0).len() ==> {
                let member = #[trigger] alias::texts_among(members->0)[i];
                member.len() > 0 && !text::has_space(member)
            },
{
    let texts = alias::texts_among(members->0);
    assert forall|i: int| 0 <= i < texts.len() implies !is_bad_member(#[trigger] texts[i]) by {
        lemma_no_bad_member(texts, i);
    }
}

proof fn lemma_no_bad_member(members: Seq<Seq<char>>, i: int)
    requires
        first_bad_member(members) is None,
        0 <= i < members.len(),
    ensures
        !is_bad_member(members[i]),
    decreases members.len(),
{
    if i > 0 {
        lemma_no_bad_member(members.drop_first(), i - 1);
        assert(members.drop_first()[i - 1] == members[i]);
    }
}

/// No label refers to an alias whose name holds white space, or has none: it is
/// these names that are refused.
pub proof fn law_refused_name_could_never_resolve(label: Seq<char>, name: Seq<char>)
    requires
        label::alias_of(label) == Some(name),
    ensures
        name.len() > 0,
        !text::has_space(name),
        label::balanced(name),
{
    let (prefix, inner) = label::group_parts(label)->0;
    label::law_split_parts_rejoin(label, prefix, inner);
}

/// The reference form of an accepted alias refers to it, provided its braces are
/// balanced, as they are in names with markup.
pub proof fn law_reference_form_resolves(name: Seq<char>)
    requires
        name.len() > 0,
        !text::has_space(name),
        label::balanced(name),
    ensures
        label::alias_of(reference_form(name)) == Some(name),
{
    reveal_strlit("PREFIX{");
    reveal_strlit("PREFIX");
    reveal_strlit("}");
    let prefix = "PREFIX"@;
    assert("PREFIX{"@ == prefix + seq!['{']);
    assert("}"@ == seq!['}']);
    label::law_reference_names_its_alias(prefix, name);
    assert(reference_form(name) == label::group_label(prefix, name));
}

/// Adding an alias twice: the second write replaces the first by itself, leaves
/// the sheet as it is, and reports the members as those that were there, given
/// that the sheet is then read as defining the alias with them.
pub proof fn law_second_write_reports_the_first(
    t: Seq<u8>,
    name: Seq<char>,
    members: Seq<Seq<char>>,
    written_name: Seq<char>,
    written_members: Seq<Seq<char>>,
    defined: Seq<alias::DefinitionView>,
    first: WriteView,
    then_defined: Seq<alias::DefinitionView>,
)
    requires
        written(t, name, written_name, written_members, defined) == Some(first),
        first.action == AliasAction::Added,
        block::writable(written_name, written_members),
        !text::has_space(written_name),
        block_laws::members_spaceless(written_members),
        members_of(then_defined, name) == Some(members),
    ensures
        written(first.content, name, written_name, written_members, then_defined) == Some(
            WriteView {
                content: first.content,
                action: AliasAction::Replaced,
                previous: Some(members),
                reference_form: first.reference_form,
            },
        ),
{
    block_laws::law_writing_twice_is_writing_once(
        t,
        written_name,
        written_members,
        first.content,
        first.action,
    );
}

/// A member of which nothing is to be seen, or that white space would split.
pub open spec fn cannot_be_read_back(member: Seq<char>) -> bool {
    member.len() == 0 || exists|i: int|
        0 <= i < member.len() && text::is_space(#[trigger] member[i])
}

/// A name that a label can refer to: one word.
pub open spec fn is_one_word(name: Seq<char>) -> bool {
    name.len() > 0 && forall|i: int|
        0 <= i < name.len() ==> !text::is_space(#[trigger] name[i])
}

proof fn lemma_texts_join(a: Seq<Option<Seq<char>>>, b: Seq<Option<Seq<char>>>)
    ensures
        alias::texts_among(a + b) == alias::texts_among(a) + alias::texts_among(b),
    decreases b.len(),
{
    if b.len() == 0 {
        assert(a + b == a);
    } else {
        lemma_texts_join(a, b.drop_last());
        assert((a + b).drop_last() == a + b.drop_last());
        assert((a + b).last() == b.last());
    }
}

/// The first bad member stands at an item of the list, and no item in front of it
/// is bad.
proof fn lemma_first_bad(items: Seq<Option<Seq<char>>>) -> (i: int)
    ensures
        match first_bad_member(alias::texts_among(items)) {
            Some(bad) => {
                &&& 0 <= i < items.len()
                &&& items[i] == Some(bad)
                &&& cannot_be_read_back(bad)
                &&& forall|j: int|
                    0 <= j < i ==> ((#[trigger] items[j]) matches Some(m)
                        ==> !cannot_be_read_back(m))
            },
            None => forall|j: int|
                0 <= j < items.len() ==> ((#[trigger] items[j]) matches Some(m)
                    ==> !cannot_be_read_back(m)),
        },
        alias::texts_among(items).len() == 0 <==> forall|j: int|
            0 <= j < items.len() ==> (#[trigger] items[j]) is None,
    decreases items.len(),
{
    if items.len() == 0 {
        0
    } else {
        let one = seq![items[0]];
        let rest = items.drop_first();
        let k = lemma_first_bad(rest);
        assert(items == one + rest);
        lemma_texts_join(one, rest);
        assert(one.drop_last() == Seq::<Option<Seq<char>>>::empty());
        assert(alias::texts_among(one.drop_last()) == Seq::<Seq<char>>::empty());
        assert(forall|j: int| 0 <= j < rest.len() ==> #[trigger] rest[j] == items[j + 1]);
        assert(forall|j: int| 0 < j < items.len() ==> #[trigger] items[j] == rest[j - 1]);
        let texts = alias::texts_among(items);
        match items[0] {
            None => {
                assert(texts == alias::texts_among(rest));
                k + 1
            },
            Some(m) => {
                assert(texts[0] == m);
                assert(texts.drop_first() == alias::texts_among(rest));
                assert(is_bad_member(m) <==> cannot_be_read_back(m)) by {
                    if text::is_blank(m) && m.len() > 0 {
                        assert(text::is_space(m[0]));
                    }
                }
                if is_bad_member(m) {
                    0
                } else {
                    k + 1
                }
            },
        }
    }
}

/// A request is accepted if and only if its name is one word, its member list
/// holds a text, and every text in that is one word.
pub proof fn law_sound_request_is_accepted(
    name: Option<Seq<char>>,
    members: Option<Seq<Option<Seq<char>>>>,
)
    ensures
        request_refusal(name, members) is None <==> {
            &&& name matches Some(name) && is_one_word(name)
            &&& members matches Some(items) && {
                &&& exists|i: int| 0 <= i < items.len() && (#[trigger] items[i]) is Some
                &&& forall|i: int|
                    0 <= i < items.len() ==> ((#[trigger] items[i]) matches Some(m)
                        ==> is_one_word(m))
            }
        },
{
    if let Some(items) = members {
        let _ = lemma_first_bad(items);
        assert forall|i: int| 0 <= i < items.len() && (#[trigger] items[i]) is Some implies (
        is_one_word(items[i]->0) <==> !cannot_be_read_back(items[i]->0)) by {}
    }
    if let Some(name) = name {
        if text::is_blank(name) && name.len() > 0 {
            assert(text::is_space(name[0]));
        }
    }
}

/// Of the faults of a request the first one is told: a name that is missing or
/// blank, one with white space, a member list that is missing, one without a
/// text, and the first text in it that is no word.
pub proof fn law_first_fault_is_told(
    name: Option<Seq<char>>,
    members: Option<Seq<Option<Seq<char>>>>,
) -> (i: int)
    ensures
        ({
            let blank = name is None || forall|k: int|
                0 <= k < name->0.len() ==> text::is_space(#[trigger] name->0[k]);
            let items = members->0;
            let refusal = request_refusal(name, members);
            &&& blank <==> refusal == Some(RefusalView::MissingName)
            &&& !blank && !is_one_word(name->0) <==> refusal is Some && refusal->0 is SpacedName
            &&& refusal matches Some(RefusalView::SpacedName(told)) ==> name == Some(told)
            &&& !blank && is_one_word(name->0) && members is None <==> refusal == Some(
                RefusalView::MissingMembers,
            )
            &&& !blank && is_one_word(name->0) && members is Some && (forall|k: int|
                0 <= k < items.len() ==> (#[trigger] items[k]) is None) <==> refusal == Some(
                RefusalView::NoMembers,
            )
            &&& refusal matches Some(RefusalView::BadMember(told)) ==> {
                &&& 0 <= i < items.len()
                &&& items[i] == Some(told)
                &&& !is_one_word(told)
                &&& forall|k: int|
                    0 <= k < i ==> ((#[trigger] items[k]) matches Some(m) ==> is_one_word(m))
            }
            &&& refusal != Some(RefusalView::NoPlace)
        }),
{
    if let Some(name) = name {
        if name.len() > 0 && text::is_blank(name) {
            assert(text::is_space(name[0]));
        }
    }
    match members {
        Some(items) => {
            let i = lemma_first_bad(items);
            assert forall|k: int| 0 <= k < items.len() && (#[trigger] items[k]) is Some implies (
            is_one_word(items[k]->0) <==> !cannot_be_read_back(items[k]->0)) by {}
            i
        },
        None => 0,
    }
}

/// The members that an alias had are those of its first definition; an alias that
/// nothing defines had none.
pub proof fn law_first_definition_gives_the_members(
    definitions: Seq<alias::DefinitionView>,
    name: Seq<char>,
    i: int,
)
    ensures
        0 <= i < definitions.len() && definitions[i].name == name && (forall|j: int|
            0 <= j < i ==> (#[trigger] definitions[j]).name != name) ==> members_of(
            definitions,
            name,
        ) == Some(definitions[i].members),
        (forall|j: int| 0 <= j < definitions.len() ==> (#[trigger] definitions[j]).name != name)
            ==> members_of(definitions, name) is None,
    decreases definitions.len(),
{
    if definitions.len() > 0 {
        let rest = definitions.drop_first();
        law_first_definition_gives_the_members(rest, name, i - 1);
        assert(forall|j: int| 0 <= j < rest.len() ==> #[trigger] rest[j] == definitions[j + 1]);
    }
}

/// A write tells what it did to the sheet: the text and the action are those of
/// the edit, the members that were there are told of a replacement only, and a
/// label refers to the alias by its name in braces.
pub proof fn law_write_tells_what_it_did(
    t: Seq<u8>,
    name: Seq<char>,
    written_name: Seq<char>,
    written_members: Seq<Seq<char>>,
    defined: Seq<alias::DefinitionView>,
)
    ensures
        match written(t, name, written_name, written_members, defined) {
            Some(write) => {
                &&& block::edited(t, written_name, written_members) == Some(
                    (write.content, write.action),
                )
                &&& write.action == AliasAction::Replaced ==> write.previous == members_of(
                    defined,
                    name,
                )
                &&& write.action == AliasAction::Added ==> write.previous is None
                &&& write.reference_form == "PREFIX{"@ + name + "}"@
            },
            None => block::edited(t, written_name, written_members) is None,
        },
        action_name(AliasAction::Added) == "added"@,
        action_name(AliasAction::Replaced) == "replaced"@,
{
}

/// A refusal says what is wrong, and with which name or member.
pub proof fn law_refusals_say_why(text: Seq<char>)
    ensures
        refusal_message(RefusalView::MissingName) == "Missing 'name'"@,
        refusal_message(RefusalView::SpacedName(text)) == "Alias name '"@ + text
            + "' contains whitespace. KiCad splits a group bus on whitespace, so a 'PREFIX{NAME}' reference could never resolve to it."@,
        refusal_message(RefusalView::MissingMembers) == "Missing 'members' array"@,
        refusal_message(RefusalView::NoMembers) == "'members' must name at least one signal"@,
        refusal_message(RefusalView::BadMember(text)) == "Member '"@ + text
            + "' is empty or contains whitespace; KiCad splits members on whitespace."@,
        refusal_message(RefusalView::NoPlace)
            == "Could not find anywhere to write the alias: the sheet has neither a lib_symbols block nor a (uuid ...) node to anchor against."@,
{
}

} // verus!
