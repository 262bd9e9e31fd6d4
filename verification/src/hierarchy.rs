//! The sheets of a design.
//!
//! A sheet places child sheets, which are files of their own, and a file can be
//! placed more than once, even in itself. The walk here lists every file once,
//! from the root down. It reads no file: what it has to know of one is handed to
//! it, and where that is not enough it says what to read next.

use crate::text;
use vstd::prelude::*;
use vstd::string::*;

verus! {

// ---------------------------------------------------------------------------
// What was read from disk

/// The canonical name of a path: two paths to one file have the same.
pub struct CanonicalName {
    pub path: String,
    pub name: String,
}

/// A child sheet that a sheet places, and whether there is such a file.
pub struct ChildSheet {
    pub path: String,
    pub exists: bool,
}

/// The children that a sheet, given by its canonical name, places; none, for a
/// file that does not load.
pub struct SheetChildren {
    pub name: String,
    pub children: Vec<ChildSheet>,
}

/// Everything that was read so far.
pub struct SheetReadings {
    pub canonical: Vec<CanonicalName>,
    pub children: Vec<SheetChildren>,
}

/// What the walk has to know next.
#[derive(Debug)]
pub enum Need {
    /// The canonical name of this path.
    Canonical(String),
    /// The children of the sheet at this path, which has this canonical name.
    Children { path: String, name: String },
}

/// [`ChildSheet`] as a mathematical value.
pub struct ChildView {
    pub path: Seq<char>,
    pub exists: bool,
}

/// [`SheetReadings`] as a mathematical value.
pub struct ReadingsView {
    pub canonical: Seq<(Seq<char>, Seq<char>)>,
    pub children: Seq<(Seq<char>, Seq<ChildView>)>,
}

/// [`Need`] as a mathematical value.
pub enum NeedView {
    Canonical(Seq<char>),
    Children { path: Seq<char>, name: Seq<char> },
}

impl View for ChildSheet {
    type V = ChildView;

    open spec fn view(&self) -> ChildView {
        ChildView { path: self.path@, exists: self.exists }
    }
}

impl View for SheetReadings {
    type V = ReadingsView;

    open spec fn view(&self) -> ReadingsView {
        ReadingsView {
            canonical: self.canonical@.map_values(|c: CanonicalName| (c.path@, c.name@)),
            children: self.children@.map_values(
                |c: SheetChildren| (c.name@, child_views(c.children@)),
            ),
        }
    }
}

impl View for Need {
    type V = NeedView;

    open spec fn view(&self) -> NeedView {
        match self {
            Need::Canonical(path) => NeedView::Canonical(path@),
            Need::Children { path, name } => NeedView::Children { path: path@, name: name@ },
        }
    }
}

pub open spec fn child_views(children: Seq<ChildSheet>) -> Seq<ChildView> {
    children.map_values(|c: ChildSheet| c@)
}

/// The first value that `entries` hold for `key`.
pub open spec fn lookup<T>(entries: Seq<(Seq<char>, T)>, key: Seq<char>) -> Option<T>
    decreases entries.len(),
{
    if entries.len() == 0 {
        None
    } else {
        match lookup(entries.drop_last(), key) {
            Some(value) => Some(value),
            None => if entries.last().0 == key {
                Some(entries.last().1)
            } else {
                None
            },
        }
    }
}

impl ReadingsView {
    /// The canonical name of `path`, if it was read.
    pub open spec fn canonical_of(self, path: Seq<char>) -> Option<Seq<char>> {
        lookup(self.canonical, path)
    }

    /// The children of the sheet with this canonical name, if they were read.
    pub open spec fn children_of(self, name: Seq<char>) -> Option<Seq<ChildView>> {
        lookup(self.children, name)
    }
}

impl SheetReadings {
    /// Nothing read yet.
    pub fn new() -> (readings: SheetReadings)
        ensures
            readings@.canonical.len() == 0,
            readings@.children.len() == 0,
    {
        SheetReadings { canonical: Vec::new(), children: Vec::new() }
    }

    /// Notes the canonical name of a path.
    pub fn note_canonical(&mut self, path: String, name: String)
        ensures
            final(self)@.canonical == old(self)@.canonical.push((path@, name@)),
            final(self)@.children == old(self)@.children,
    {
        self.canonical.push(CanonicalName { path, name });
        assert(self@.canonical == old(self)@.canonical.push((path@, name@)));
    }

    /// Notes the children of the sheet with this canonical name.
    pub fn note_children(&mut self, name: String, children: Vec<ChildSheet>)
        ensures
            final(self)@.canonical == old(self)@.canonical,
            final(self)@.children == old(self)@.children.push((name@, child_views(children@))),
    {
        let ghost entry = (name@, child_views(children@));
        self.children.push(SheetChildren { name, children });
        assert(self@.children == old(self)@.children.push(entry));
    }

    fn canonical_name(&self, path: &str) -> (name: Option<&String>)
        ensures
            match name {
                Some(name) => self@.canonical_of(path@) == Some(name@),
                None => self@.canonical_of(path@) is None,
            },
    {
        let ghost entries = self@.canonical;
        let mut i: usize = 0;
        while i < self.canonical.len()
            invariant
                i <= self.canonical@.len(),
                entries == self@.canonical,
                lookup(entries.take(i as int), path@) is None,
            decreases self.canonical@.len() - i,
        {
            assert(entries.take(i + 1).drop_last() == entries.take(i as int));
            if text::same_text(self.canonical[i].path.as_str(), path) {
                proof {
                    lemma_lookup_prefix(entries, i + 1, path@);
                }
                return Some(&self.canonical[i].name);
            }
            i = i + 1;
        }
        assert(entries.take(i as int) == entries);
        None
    }

    fn children(&self, name: &str) -> (children: Option<&Vec<ChildSheet>>)
        ensures
            match children {
                Some(children) => self@.children_of(name@) == Some(child_views(children@)),
                None => self@.children_of(name@) is None,
            },
    {
        let ghost entries = self@.children;
        let mut i: usize = 0;
        while i < self.children.len()
            invariant
                i <= self.children@.len(),
                entries == self@.children,
                lookup(entries.take(i as int), name@) is None,
            decreases self.children@.len() - i,
        {
            assert(entries.take(i + 1).drop_last() == entries.take(i as int));
            if text::same_text(self.children[i].name.as_str(), name) {
                proof {
                    lemma_lookup_prefix(entries, i + 1, name@);
                }
                return Some(&self.children[i].children);
            }
            i = i + 1;
        }
        assert(entries.take(i as int) == entries);
        None
    }
}

/// What a prefix of the entries holds for a key, all of them hold.
proof fn lemma_lookup_prefix<T>(entries: Seq<(Seq<char>, T)>, n: int, key: Seq<char>)
    requires
        0 <= n <= entries.len(),
        lookup(entries.take(n), key) is Some,
    ensures
        lookup(entries, key) == lookup(entries.take(n), key),
    decreases entries.len() - n,
{
    if n == entries.len() {
        assert(entries.take(n) == entries);
    } else {
        assert(entries.take(n + 1).drop_last() == entries.take(n));
        lemma_lookup_prefix(entries, n + 1, key);
    }
}

// ---------------------------------------------------------------------------
// The walk

/// The files listed so far, and their canonical names.
pub struct WalkView {
    pub visited: Seq<Seq<char>>,
    pub files: Seq<Seq<char>>,
}

/// A walk that has listed nothing.
pub open spec fn nothing_listed() -> WalkView {
    WalkView { visited: Seq::empty(), files: Seq::empty() }
}

/// A walk that has listed one file more.
pub open spec fn one_more(state: WalkView, path: Seq<char>, name: Seq<char>) -> WalkView {
    WalkView { visited: state.visited.push(name), files: state.files.push(path) }
}

/// The paths of the children that exist, in their order.
pub open spec fn existing(children: Seq<ChildView>) -> Seq<Seq<char>>
    decreases children.len(),
{
    if children.len() == 0 {
        Seq::empty()
    } else if children.last().exists {
        existing(children.drop_last()).push(children.last().path)
    } else {
        existing(children.drop_last())
    }
}

/// How many of the canonical names that were read are not listed yet.
pub open spec fn unlisted(canonical: Seq<(Seq<char>, Seq<char>)>, visited: Seq<Seq<char>>) -> nat
    decreases canonical.len(),
{
    if canonical.len() == 0 {
        0
    } else if visited.contains(canonical.last().1) {
        unlisted(canonical.drop_last(), visited)
    } else {
        unlisted(canonical.drop_last(), visited) + 1
    }
}

/// Listing a file leaves fewer to list.
pub proof fn lemma_unlisted(
    canonical: Seq<(Seq<char>, Seq<char>)>,
    visited: Seq<Seq<char>>,
    path: Seq<char>,
    name: Seq<char>,
)
    ensures
        unlisted(canonical, visited.push(name)) <= unlisted(canonical, visited),
        lookup(canonical, path) == Some(name) && !visited.contains(name) ==> unlisted(
            canonical,
            visited.push(name),
        ) < unlisted(canonical, visited),
    decreases canonical.len(),
{
    if canonical.len() > 0 {
        lemma_unlisted(canonical.drop_last(), visited, path, name);
        let last = canonical.last().1;
        let more = visited.push(name);
        if visited.contains(last) {
            let i = choose|i: int| 0 <= i < visited.len() && visited[i] == last;
            assert(more[i] == last);
        }
        if last == name {
            assert(more[visited.len() as int] == name);
        }
    }
}

/// The walk that has the paths `pending` before it, from the first on. A file
/// that is listed, under whatever path, is passed over. Any other is listed, and
/// its children come next, in their order.
pub open spec fn walk(
    known: ReadingsView,
    pending: Seq<Seq<char>>,
    state: WalkView,
) -> Result<WalkView, NeedView>
    decreases unlisted(known.canonical, state.visited), pending.len(),
{
    if pending.len() == 0 {
        Ok(state)
    } else {
        let path = pending[0];
        let rest = pending.drop_first();
        match known.canonical_of(path) {
            None => Err(NeedView::Canonical(path)),
            Some(name) => if state.visited.contains(name) {
                walk(known, rest, state)
            } else {
                match known.children_of(name) {
                    None => Err(NeedView::Children { path, name }),
                    Some(children) => {
                        proof {
                            lemma_unlisted(known.canonical, state.visited, path, name);
                        }
                        walk(known, existing(children) + rest, one_more(state, path, name))
                    },
                }
            },
        }
    }
}

/// The listing of the design below `root`.
pub open spec fn listing(known: ReadingsView, root: Seq<char>) -> Result<WalkView, NeedView> {
    walk(known, seq![root], nothing_listed())
}

fn holds(names: &Vec<String>, name: &str) -> (found: bool)
    ensures
        found == text::views(names@).contains(name@),
{
    let ghost views = text::views(names@);
    let mut i: usize = 0;
    while i < names.len()
        invariant
            i <= names@.len(),
            views == text::views(names@),
            forall|j: int| 0 <= j < i ==> #[trigger] views[j] != name@,
        decreases names@.len() - i,
    {
        assert(views[i as int] == names@[i as int]@);
        if text::same_text(names[i].as_str(), name) {
            return true;
        }
        i = i + 1;
    }
    false
}

/// Puts the existing ones of `children` in front of the paths that are pending.
/// Those are held from the last to the first.
fn push_children(pending: &mut Vec<String>, children: &Vec<ChildSheet>)
    ensures
        text::views(final(pending)@).reverse() == existing(child_views(children@)) + text::views(
            old(pending)@,
        ).reverse(),
{
    let ghost views = child_views(children@);
    let ghost before = text::views(pending@).reverse();
    let mut i: usize = children.len();
    let ghost mut front: Seq<Seq<char>> = Seq::empty();
    assert(views.take(i as int) == views);
    assert(existing(views) == existing(views.take(i as int)) + front);
    assert(text::views(pending@).reverse() == front + before);
    while i > 0
        invariant
            i <= children@.len(),
            views == child_views(children@),
            existing(views) == existing(views.take(i as int)) + front,
            text::views(pending@).reverse() == front + before,
        decreases i,
    {
        i = i - 1;
        let ghost held = text::views(pending@);
        assert(views.take(i + 1).drop_last() == views.take(i as int));
        assert(views[i as int] == children@[i as int]@);
        if children[i].exists {
            pending.push(children[i].path.clone());
            proof {
                let path = views[i as int].path;
                assert(text::views(pending@) == held.push(path));
                assert(held.push(path).reverse() == seq![path] + held.reverse());
                assert(existing(views) == existing(views.take(i as int)) + (seq![path] + front));
                front = seq![path] + front;
            }
        }
    }
    assert(existing(views.take(0)) == Seq::<Seq<char>>::empty());
}

/// The root sheet and every sheet below it: each file once, a parent before its
/// children. Where `known` does not hold enough, what has to be read next.
pub fn hierarchy_files(known: &SheetReadings, root: &str) -> (files: Result<Vec<String>, Need>)
    ensures
        match files {
            Ok(files) => listing(known@, root@) matches Ok(end) && end.files == text::views(files@),
            Err(need) => listing(known@, root@) == Err::<WalkView, NeedView>(need@),
        },
{
    let mut out: Vec<String> = Vec::new();
    let mut visited: Vec<String> = Vec::new();
    let mut pending: Vec<String> = Vec::new();
    pending.push(root.to_string());
    assert(text::views(out@) == Seq::<Seq<char>>::empty());
    assert(text::views(visited@) == Seq::<Seq<char>>::empty());
    assert(text::views(pending@).reverse() == seq![root@]);
    loop
        invariant
            walk(
                known@,
                text::views(pending@).reverse(),
                WalkView { visited: text::views(visited@), files: text::views(out@) },
            ) == listing(known@, root@),
        decreases unlisted(known@.canonical, text::views(visited@)), pending@.len(),
    {
        let ghost held = text::views(pending@);
        let ghost state = WalkView { visited: text::views(visited@), files: text::views(out@) };
        let path: String = match pending.pop() {
            Some(path) => path,
            None => {
                return Ok(out);
            },
        };
        assert(held == text::views(pending@).push(path@));
        assert(held.reverse()[0] == path@);
        assert(held.reverse().drop_first() == text::views(pending@).reverse());
        let name: &String = match known.canonical_name(path.as_str()) {
            Some(name) => name,
            None => {
                return Err(Need::Canonical(path));
            },
        };
        if !holds(&visited, name.as_str()) {
            match known.children(name.as_str()) {
                Some(children) => {
                    push_children(&mut pending, children);
                    proof {
                        lemma_unlisted(known@.canonical, state.visited, path@, name@);
                    }
                    let ghost (seen, files) = (visited@, out@);
                    let ghost view = path@;
                    visited.push(name.clone());
                    out.push(path);
                    assert(text::views(visited@) == text::views(seen).push(name@));
                    assert(text::views(out@) == text::views(files).push(view));
                },
                None => {
                    return Err(Need::Children { path, name: name.clone() });
                },
            }
        }
    }
}

/// The sheets that a list of aliases covers: the root and every sheet below it,
/// unless the request says that it is not to go down.
pub fn listed_files(known: &SheetReadings, root: &str, recursive: Option<bool>) -> (files: Result<
    Vec<String>,
    Need,
>)
    ensures
        recursive == Some(false) ==> (files matches Ok(files) && text::views(files@)
            == seq![root@]),
        recursive != Some(false) ==> match files {
            Ok(files) => listing(known@, root@) matches Ok(end) && end.files == text::views(files@),
            Err(need) => listing(known@, root@) == Err::<WalkView, NeedView>(need@),
        },
{
    match recursive {
        Some(false) => {
            let files: Vec<String> = vec![root.to_string()];
            assert(text::views(files@) == seq![root@]);
            Ok(files)
        },
        _ => hierarchy_files(known, root),
    }
}

/// The words about a root sheet that does not exist.
pub fn sheet_not_found(path: &str) -> (message: String)
    ensures
        message@ == "Schematic '"@ + path@ + "' not found"@,
{
    let mut message = "Schematic '".to_string();
    message.append(path);
    message.append("' not found");
    message
}

// ---------------------------------------------------------------------------
// Laws

/// The sheet at `parent` places the sheet at `child`, and that file exists.
pub open spec fn places(known: ReadingsView, parent: Seq<char>, child: Seq<char>) -> bool {
    known.canonical_of(parent) matches Some(name) && known.children_of(name) matches Some(children)
        && exists|i: int|
        0 <= i < children.len() && #[trigger] children[i].exists && children[i].path == child
}

/// A chain of sheets, each placed by the one before, leads from `root` to `path`
/// in `steps` steps.
pub open spec fn stands_below(
    known: ReadingsView,
    root: Seq<char>,
    path: Seq<char>,
    steps: nat,
) -> bool
    decreases steps,
{
    if steps == 0 {
        path == root
    } else {
        exists|parent: Seq<char>|
            stands_below(known, root, parent, (steps - 1) as nat) && #[trigger] places(
                known,
                parent,
                path,
            )
    }
}

/// The file at `path` is listed, under this path or another.
pub open spec fn is_listed(known: ReadingsView, visited: Seq<Seq<char>>, path: Seq<char>) -> bool {
    known.canonical_of(path) matches Some(name) && visited.contains(name)
}

/// `path` is the root, where nothing is listed, or a child of a listed file.
pub open spec fn is_come_to(
    known: ReadingsView,
    root: Seq<char>,
    files: Seq<Seq<char>>,
    n: int,
    path: Seq<char>,
) -> bool {
    if n == 0 {
        path == root
    } else {
        exists|j: int| 0 <= j < n && #[trigger] places(known, files[j], path)
    }
}

/// No file is listed twice, and every file is the root, if it is the first, or a
/// child of a file listed before it.
pub open spec fn is_listing(known: ReadingsView, root: Seq<char>, state: WalkView) -> bool {
    &&& state.visited.len() == state.files.len()
    &&& state.visited.no_duplicates()
    &&& forall|i: int|
        0 <= i < state.files.len() ==> known.canonical_of(#[trigger] state.files[i]) == Some(
            state.visited[i],
        )
    &&& forall|i: int|
        0 <= i < state.files.len() ==> is_come_to(
            known,
            root,
            state.files,
            i,
            #[trigger] state.files[i],
        )
}

/// Every child of the sheet with this canonical name is listed.
spec fn children_listed(known: ReadingsView, visited: Seq<Seq<char>>, name: Seq<char>) -> bool {
    known.children_of(name) matches Some(children) && forall|i: int|
        0 <= i < children.len() && #[trigger] children[i].exists ==> is_listed(
            known,
            visited,
            children[i].path,
        )
}

proof fn lemma_existing(children: Seq<ChildView>, path: Seq<char>)
    ensures
        existing(children).contains(path) <==> exists|i: int|
            0 <= i < children.len() && #[trigger] children[i].exists && children[i].path == path,
    decreases children.len(),
{
    if children.len() > 0 {
        let front = children.drop_last();
        let last = children[children.len() - 1];
        let paths = existing(front);
        lemma_existing(front, path);
        if last.exists {
            let more = paths.push(last.path);
            if paths.contains(path) {
                let k = choose|k: int| 0 <= k < paths.len() && paths[k] == path;
                assert(more[k] == path);
            }
            assert(more[paths.len() as int] == last.path);
            if more.contains(path) {
                let k = choose|k: int| 0 <= k < more.len() && more[k] == path;
                if k < paths.len() {
                    assert(paths[k] == path);
                }
            }
        }
        if exists|i: int|
            0 <= i < front.len() && #[trigger] front[i].exists && front[i].path == path {
            let i = choose|i: int|
                0 <= i < front.len() && #[trigger] front[i].exists && front[i].path == path;
            assert(children[i].exists && children[i].path == path);
        }
        if exists|i: int|
            0 <= i < children.len() && #[trigger] children[i].exists && children[i].path == path {
            let i = choose|i: int|
                0 <= i < children.len() && #[trigger] children[i].exists && children[i].path
                    == path;
            if i < front.len() {
                assert(front[i].exists && front[i].path == path);
            }
        }
    }
}

/// What a finished walk has listed: all that was listed before it, all that was
/// pending, and with every file that it added the children of that.
#[verifier::spinoff_prover]
#[verifier::rlimit(40)]
proof fn lemma_walk_lists(
    known: ReadingsView,
    pending: Seq<Seq<char>>,
    state: WalkView,
    end: WalkView,
)
    requires
        walk(known, pending, state) == Ok::<WalkView, NeedView>(end),
    ensures
        forall|name: Seq<char>| #[trigger]
            state.visited.contains(name) ==> end.visited.contains(name),
        forall|i: int|
            0 <= i < pending.len() ==> is_listed(known, end.visited, #[trigger] pending[i]),
        forall|name: Seq<char>| #[trigger]
            end.visited.contains(name) && !state.visited.contains(name) ==> children_listed(
                known,
                end.visited,
                name,
            ),
    decreases unlisted(known.canonical, state.visited), pending.len(),
{
    if pending.len() > 0 {
        let path = pending[0];
        let rest = pending.drop_first();
        let name = known.canonical_of(path)->0;
        if state.visited.contains(name) {
            lemma_walk_lists(known, rest, state, end);
            assert forall|i: int| 0 <= i < pending.len() implies is_listed(
                known,
                end.visited,
                #[trigger] pending[i],
            ) by {
                if i > 0 {
                    assert(pending[i] == rest[i - 1]);
                }
            }
        } else {
            let children = known.children_of(name)->0;
            let paths = existing(children);
            let next = one_more(state, path, name);
            lemma_unlisted(known.canonical, state.visited, path, name);
            lemma_walk_lists(known, paths + rest, next, end);
            text::lemma_push_contains(state.visited, name);
            assert(next.visited.contains(name));
            assert forall|other: Seq<char>| #[trigger]
                state.visited.contains(other) implies end.visited.contains(other) by {
                assert(next.visited.contains(other));
            }
            assert forall|i: int| 0 <= i < pending.len() implies is_listed(
                known,
                end.visited,
                #[trigger] pending[i],
            ) by {
                if i > 0 {
                    assert((paths + rest)[paths.len() + i - 1] == pending[i]);
                }
            }
            assert(children_listed(known, end.visited, name)) by {
                assert forall|i: int|
                    0 <= i < children.len() && #[trigger] children[i].exists implies is_listed(
                    known,
                    end.visited,
                    children[i].path,
                ) by {
                    lemma_existing(children, children[i].path);
                    let k = choose|k: int| 0 <= k < paths.len() && paths[k] == children[i].path;
                    assert((paths + rest)[k] == children[i].path);
                }
            }
        }
    }
}

/// A walk that keeps the order of a listing.
#[verifier::spinoff_prover]
#[verifier::rlimit(40)]
proof fn lemma_walk_orders(
    known: ReadingsView,
    root: Seq<char>,
    pending: Seq<Seq<char>>,
    state: WalkView,
    end: WalkView,
)
    requires
        walk(known, pending, state) == Ok::<WalkView, NeedView>(end),
        is_listing(known, root, state),
        state.files.len() > 0 || pending.len() <= 1,
        forall|i: int|
            0 <= i < pending.len() ==> is_come_to(
                known,
                root,
                state.files,
                state.files.len() as int,
                #[trigger] pending[i],
            ),
    ensures
        is_listing(known, root, end),
    decreases unlisted(known.canonical, state.visited), pending.len(),
{
    if pending.len() > 0 {
        let path = pending[0];
        let rest = pending.drop_first();
        let name = known.canonical_of(path)->0;
        if state.visited.contains(name) {
            assert forall|i: int| 0 <= i < rest.len() implies is_come_to(
                known,
                root,
                state.files,
                state.files.len() as int,
                #[trigger] rest[i],
            ) by {
                assert(rest[i] == pending[i + 1]);
            }
            lemma_walk_orders(known, root, rest, state, end);
        } else {
            let children = known.children_of(name)->0;
            let paths = existing(children);
            let next = one_more(state, path, name);
            let n = state.files.len() as int;
            lemma_unlisted(known.canonical, state.visited, path, name);
            assert forall|i: int| 0 <= i < next.files.len() implies is_come_to(
                known,
                root,
                next.files,
                i,
                #[trigger] next.files[i],
            ) by {
                if i < n {
                    assert(next.files[i] == state.files[i]);
                }
                if i > 0 {
                    let j = choose|j: int|
                        0 <= j < i && #[trigger] places(known, state.files[j], next.files[i]);
                    assert(places(known, next.files[j], next.files[i]));
                }
            }
            let all = paths + rest;
            assert forall|i: int| 0 <= i < all.len() implies is_come_to(
                known,
                root,
                next.files,
                n + 1,
                #[trigger] all[i],
            ) by {
                if i < paths.len() {
                    assert(paths.contains(paths[i]));
                    lemma_existing(children, paths[i]);
                    assert(places(known, next.files[n], all[i]));
                } else {
                    let other = pending[i - paths.len() + 1];
                    assert(all[i] == other);
                    let j = choose|j: int|
                        0 <= j < n && #[trigger] places(known, state.files[j], other);
                    assert(places(known, next.files[j], other));
                }
            }
            lemma_walk_orders(known, root, all, next, end);
        }
    }
}

/// A finished listing begins with the root, lists no file twice, and lists
/// nothing but the root and children of files listed before.
pub proof fn law_listing_goes_down_from_the_root(
    known: ReadingsView,
    root: Seq<char>,
    end: WalkView,
)
    requires
        listing(known, root) == Ok::<WalkView, NeedView>(end),
    ensures
        is_listing(known, root, end),
        end.files.len() > 0,
        end.files[0] == root,
{
    let pending = seq![root];
    lemma_walk_orders(known, root, pending, nothing_listed(), end);
    lemma_walk_lists(known, pending, nothing_listed(), end);
    assert(is_listed(known, end.visited, pending[0]));
    assert(is_come_to(known, root, end.files, 0, end.files[0]));
}

/// Every sheet below the root is listed, however deep it stands and however
/// often or where else its file is placed: what a chain of sheets, each placed
/// by the one before, leads to from the root.
pub proof fn law_every_sheet_below_is_listed(
    known: ReadingsView,
    root: Seq<char>,
    end: WalkView,
    path: Seq<char>,
    steps: nat,
)
    requires
        listing(known, root) == Ok::<WalkView, NeedView>(end),
        stands_below(known, root, path, steps),
    ensures
        known.canonical_of(path) is Some,
        end.visited.contains(known.canonical_of(path)->0),
        exists|i: int|
            0 <= i < end.files.len() && known.canonical_of(#[trigger] end.files[i])
                == known.canonical_of(path),
    decreases steps,
{
    let pending = seq![root];
    lemma_walk_lists(known, pending, nothing_listed(), end);
    if steps == 0 {
        assert(is_listed(known, end.visited, pending[0]));
    } else {
        let parent = choose|parent: Seq<char>|
            stands_below(known, root, parent, (steps - 1) as nat) && #[trigger] places(
                known,
                parent,
                path,
            );
        law_every_sheet_below_is_listed(known, root, end, parent, (steps - 1) as nat);
        let name = known.canonical_of(parent)->0;
        assert(end.visited.contains(name));
        assert(!nothing_listed().visited.contains(name));
        assert(children_listed(known, end.visited, name));
        let children = known.children_of(name)->0;
        let i = choose|i: int|
            0 <= i < children.len() && #[trigger] children[i].exists && children[i].path == path;
        assert(is_listed(known, end.visited, children[i].path));
    }
    law_listing_goes_down_from_the_root(known, root, end);
    let k = choose|k: int|
        0 <= k < end.visited.len() && end.visited[k] == known.canonical_of(path)->0;
    assert(known.canonical_of(end.files[k]) == known.canonical_of(path));
}

/// Nothing else is listed: every listed file stands below the root.
pub proof fn law_only_sheets_below_are_listed(
    known: ReadingsView,
    root: Seq<char>,
    end: WalkView,
    i: int,
)
    requires
        listing(known, root) == Ok::<WalkView, NeedView>(end),
        0 <= i < end.files.len(),
    ensures
        exists|steps: nat| #[trigger] stands_below(known, root, end.files[i], steps),
    decreases i,
{
    law_listing_goes_down_from_the_root(known, root, end);
    assert(is_come_to(known, root, end.files, i, end.files[i]));
    if i == 0 {
        assert(stands_below(known, root, end.files[i], 0));
    } else {
        let j = choose|j: int| 0 <= j < i && #[trigger] places(known, end.files[j], end.files[i]);
        law_only_sheets_below_are_listed(known, root, end, j);
        let steps = choose|steps: nat| #[trigger] stands_below(known, root, end.files[j], steps);
        assert(stands_below(known, root, end.files[i], steps + 1));
    }
}

/// `more` holds what `known` holds, and perhaps something else.
pub open spec fn extends(known: ReadingsView, more: ReadingsView) -> bool {
    &&& forall|path: Seq<char>| #[trigger]
        known.canonical_of(path) is Some ==> more.canonical_of(path) == known.canonical_of(path)
    &&& forall|name: Seq<char>| #[trigger]
        known.children_of(name) is Some ==> more.children_of(name) == known.children_of(name)
}

/// Noting what was read takes nothing back.
pub proof fn law_notes_extend(known: ReadingsView, more: ReadingsView)
    requires
        known.canonical.is_prefix_of(more.canonical),
        known.children.is_prefix_of(more.children),
    ensures
        extends(known, more),
{
    assert forall|path: Seq<char>| #[trigger]
        known.canonical_of(path) is Some implies more.canonical_of(path) == known.canonical_of(
        path,
    ) by {
        let n = known.canonical.len() as int;
        assert(more.canonical.take(n) == known.canonical);
        lemma_lookup_prefix(more.canonical, n, path);
    }
    assert forall|name: Seq<char>| #[trigger]
        known.children_of(name) is Some implies more.children_of(name) == known.children_of(
        name,
    ) by {
        let n = known.children.len() as int;
        assert(more.children.take(n) == known.children);
        lemma_lookup_prefix(more.children, n, name);
    }
}

/// What is read later does not change a listing: a walk that finished finishes
/// the same way.
pub proof fn law_finished_walk_stands(
    known: ReadingsView,
    more: ReadingsView,
    pending: Seq<Seq<char>>,
    state: WalkView,
)
    requires
        extends(known, more),
        walk(known, pending, state) is Ok,
    ensures
        walk(more, pending, state) == walk(known, pending, state),
    decreases unlisted(known.canonical, state.visited), pending.len(),
{
    if pending.len() > 0 {
        let path = pending[0];
        let rest = pending.drop_first();
        assert(known.canonical_of(path) is Some);
        let name = known.canonical_of(path)->0;
        if state.visited.contains(name) {
            law_finished_walk_stands(known, more, rest, state);
        } else {
            assert(known.children_of(name) is Some);
            lemma_unlisted(known.canonical, state.visited, path, name);
            law_finished_walk_stands(
                known,
                more,
                existing(known.children_of(name)->0) + rest,
                one_more(state, path, name),
            );
        }
    }
}

/// A walk asks only for what was not read yet, so whoever answers comes closer
/// to the listing every time.
pub proof fn law_walk_asks_for_news(
    known: ReadingsView,
    pending: Seq<Seq<char>>,
    state: WalkView,
    need: NeedView,
)
    requires
        walk(known, pending, state) == Err::<WalkView, NeedView>(need),
    ensures
        need matches NeedView::Canonical(path) ==> known.canonical_of(path) is None,
        need matches NeedView::Children { path, name } ==> known.canonical_of(path) == Some(name)
            && known.children_of(name) is None,
    decreases unlisted(known.canonical, state.visited), pending.len(),
{
    let path = pending[0];
    let rest = pending.drop_first();
    if let Some(name) = known.canonical_of(path) {
        if state.visited.contains(name) {
            law_walk_asks_for_news(known, rest, state, need);
        } else if let Some(children) = known.children_of(name) {
            lemma_unlisted(known.canonical, state.visited, path, name);
            law_walk_asks_for_news(
                known,
                existing(children) + rest,
                one_more(state, path, name),
                need,
            );
        }
    }
}

/// What was noted first counts: a key is looked up at its first entry, and is
/// unknown if it has none.
pub proof fn law_first_note_counts<T>(entries: Seq<(Seq<char>, T)>, key: Seq<char>, i: int)
    ensures
        0 <= i < entries.len() && entries[i].0 == key && (forall|j: int|
            0 <= j < i ==> (#[trigger] entries[j]).0 != key) ==> lookup(entries, key) == Some(
            entries[i].1,
        ),
        (forall|j: int| 0 <= j < entries.len() ==> (#[trigger] entries[j]).0 != key) ==> lookup(
            entries,
            key,
        ) is None,
    decreases entries.len(),
{
    if entries.len() > 0 {
        let front = entries.drop_last();
        law_first_note_counts(front, key, i);
        assert(forall|j: int| 0 <= j < front.len() ==> #[trigger] front[j] == entries[j]);
        assert(entries.last() == entries[entries.len() - 1]);
    }
}

/// The children that a walk goes down to are those that exist, all of them and in
/// their order.
pub proof fn law_existing_children_are_kept(children: Seq<ChildView>)
    ensures
        existing(children) == children.filter(|c: ChildView| c.exists).map_values(
            |c: ChildView| c.path,
        ),
    decreases children.len(),
{
    reveal(Seq::filter);
    let (kept, named) = (|c: ChildView| c.exists, |c: ChildView| c.path);
    if children.len() == 0 {
        assert(existing(children) == children.filter(kept).map_values(named));
    } else {
        let front = children.drop_last();
        law_existing_children_are_kept(front);
        let before = front.filter(kept);
        if children.last().exists {
            assert(before.push(children.last()).map_values(named) == before.map_values(
                named,
            ).push(children.last().path));
        }
    }
}

/// A walk goes through its paths one after the other: it is done with the first
/// ones, and all below them, before it comes to the next.
pub proof fn law_walk_goes_one_by_one(
    known: ReadingsView,
    a: Seq<Seq<char>>,
    b: Seq<Seq<char>>,
    state: WalkView,
)
    ensures
        walk(known, a + b, state) == match walk(known, a, state) {
            Ok(end) => walk(known, b, end),
            Err(need) => Err(need),
        },
        walk(known, Seq::empty(), state) == Ok::<WalkView, NeedView>(state),
    decreases unlisted(known.canonical, state.visited), a.len(),
{
    if a.len() == 0 {
        assert(a + b == b);
    } else {
        let path = a[0];
        let rest = a.drop_first();
        assert((a + b)[0] == path);
        assert((a + b).drop_first() == rest + b);
        if let Some(name) = known.canonical_of(path) {
            if state.visited.contains(name) {
                law_walk_goes_one_by_one(known, rest, b, state);
            } else if let Some(children) = known.children_of(name) {
                lemma_unlisted(known.canonical, state.visited, path, name);
                let below = existing(children);
                assert(below + (rest + b) == (below + rest) + b);
                law_walk_goes_one_by_one(known, below + rest, b, one_more(state, path, name));
            }
        }
    }
}

/// A walk that comes to a sheet lists it, under the path by which it came, and
/// then goes down to its children, unless the file is listed already. Where it
/// does not know the canonical name of the path, or the children of the file, it
/// asks for that.
pub proof fn law_walk_lists_a_sheet_and_goes_down(
    known: ReadingsView,
    path: Seq<char>,
    state: WalkView,
)
    ensures
        ({
            let end = walk(known, seq![path], state);
            match known.canonical_of(path) {
                None => end == Err::<WalkView, NeedView>(NeedView::Canonical(path)),
                Some(name) => if state.visited.contains(name) {
                    end == Ok::<WalkView, NeedView>(state)
                } else {
                    match known.children_of(name) {
                        None => end == Err::<WalkView, NeedView>(
                            NeedView::Children { path, name },
                        ),
                        Some(children) => end == walk(
                            known,
                            children.filter(|c: ChildView| c.exists).map_values(
                                |c: ChildView| c.path,
                            ),
                            WalkView {
                                visited: state.visited.push(name),
                                files: state.files.push(path),
                            },
                        ),
                    }
                },
            }
        }),
{
    let one = seq![path];
    assert(one.drop_first() == Seq::<Seq<char>>::empty());
    assert(one[0] == path);
    law_walk_goes_one_by_one(known, Seq::empty(), Seq::empty(), state);
    if let Some(name) = known.canonical_of(path) {
        if !state.visited.contains(name) {
            if let Some(children) = known.children_of(name) {
                law_existing_children_are_kept(children);
                assert(existing(children) + one.drop_first() == existing(children));
            }
        }
    }
}

/// A listing is the walk from the root with nothing listed before, over what was
/// noted: canonical names by path, and children by canonical name.
pub proof fn law_listing_walks_from_the_root(
    known: ReadingsView,
    root: Seq<char>,
    path: Seq<char>,
    name: Seq<char>,
)
    ensures
        listing(known, root) == walk(
            known,
            seq![root],
            WalkView { visited: Seq::empty(), files: Seq::empty() },
        ),
        known.canonical_of(path) == lookup(known.canonical, path),
        known.children_of(name) == lookup(known.children, name),
{
}

} // verus!
