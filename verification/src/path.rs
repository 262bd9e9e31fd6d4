//! Paths of sheet files, as text with `/` between the components.

use crate::text;
use vstd::prelude::*;
use vstd::string::*;

verus! {

/// Where the last component of `path` begins: behind its last `/`.
pub open spec fn component_start(path: Seq<char>) -> int
    decreases path.len(),
{
    if path.len() == 0 || path.last() == '/' {
        path.len() as int
    } else {
        component_start(path.drop_last())
    }
}

/// The last component of `path`.
pub open spec fn last_component(path: Seq<char>) -> Seq<char> {
    path.subrange(component_start(path), path.len() as int)
}

/// The name of the file or directory that `path` ends in. A `/` at the end and
/// a `.` behind another component say nothing; the root, a lone `.` and a path
/// that ends in `..` have no name.
pub open spec fn file_name(path: Seq<char>) -> Option<Seq<char>>
    decreases path.len(),
{
    if path.len() == 0 {
        None
    } else if path.last() == '/' {
        file_name(path.drop_last())
    } else if last_component(path) == seq!['.'] {
        file_name(path.drop_last())
    } else if last_component(path) == seq!['.', '.'] {
        None
    } else {
        Some(last_component(path))
    }
}

/// How a file is shown: by its name, or by the whole path where it has none.
pub open spec fn label_of(path: Seq<char>) -> Seq<char> {
    match file_name(path) {
        Some(name) => name,
        None => path,
    }
}

/// `k` begins the last component of `path` if no `/` stands behind it and one
/// stands right before it.
proof fn lemma_component_start(path: Seq<char>, k: int)
    requires
        0 <= k <= path.len(),
        forall|j: int| k <= j < path.len() ==> #[trigger] path[j] != '/',
        k > 0 ==> path[k - 1] == '/',
    ensures
        component_start(path) == k,
    decreases path.len(),
{
    if k < path.len() {
        assert(path[path.len() - 1] != '/');
        lemma_component_start(path.drop_last(), k);
    } else if path.len() > 0 {
        assert(path.last() == path[k - 1]);
    }
}

/// How the file at `path` is shown in a report.
pub fn file_label(path: &str) -> (label: String)
    ensures
        label@ == label_of(path@),
{
    let chars = text::characters(path);
    let ghost p = path@;
    let mut end: usize = chars.len();
    assert(p.take(end as int) == p);
    while end > 0
        invariant
            chars@ == p,
            p == path@,
            end <= chars@.len(),
            file_name(p) == file_name(p.take(end as int)),
        decreases end,
    {
        let ghost head = p.take(end as int);
        assert(head.drop_last() == p.take(end - 1));
        if chars[end - 1] == '/' {
            end = end - 1;
        } else {
            let mut start: usize = end;
            while start > 0 && chars[start - 1] != '/'
                invariant
                    chars@ == p,
                    start <= end <= chars@.len(),
                    forall|j: int| start <= j < end ==> #[trigger] p[j] != '/',
                decreases start,
            {
                start = start - 1;
            }
            proof {
                lemma_component_start(head, start as int);
                assert(last_component(head) == p.subrange(start as int, end as int));
            }
            if end - start == 1 && chars[start] == '.' {
                assert(p.subrange(start as int, end as int) == seq!['.']);
                end = end - 1;
            } else if end - start == 2 && chars[start] == '.' && chars[start + 1] == '.' {
                assert(p.subrange(start as int, end as int) == seq!['.', '.']);
                assert(seq!['.', '.'].len() != seq!['.'].len());
                return path.to_string();
            } else {
                proof {
                    let name = p.subrange(start as int, end as int);
                    if name == seq!['.'] {
                        assert(name[0] == '.');
                    }
                    if name == seq!['.', '.'] {
                        assert(name[0] == '.' && name[1] == '.');
                    }
                }
                return path.substring_char(start, end).to_string();
            }
        }
    }
    path.to_string()
}

/// A file is shown by its name whatever directory it stands in.
pub proof fn law_label_is_the_file_name(directory: Seq<char>, name: Seq<char>)
    requires
        name.len() > 0,
        !name.contains('/'),
        name != seq!['.'],
        name != seq!['.', '.'],
    ensures
        label_of(directory + seq!['/'] + name) == name,
        label_of(name) == name,
{
    let path = directory + seq!['/'] + name;
    let k = directory.len() as int + 1;
    assert forall|j: int| k <= j < path.len() implies #[trigger] path[j] != '/' by {
        assert(path[j] == name[j - k]);
    }
    lemma_component_start(path, k);
    assert(last_component(path) == name);
    assert(path[path.len() - 1] != '/');
    assert forall|j: int| 0 <= j < name.len() implies #[trigger] name[j] != '/' by {}
    lemma_component_start(name, 0);
    assert(last_component(name) == name);
    assert(name[name.len() - 1] != '/');
}

/// A separator at the end of a path says nothing, nor does a `.` behind one, so
/// the path is named as it is without. What ends in `..` has no name and is shown
/// whole, and so are the empty path and a lone `.`.
pub proof fn law_label_passes_over_the_end(path: Seq<char>)
    ensures
        file_name(path + seq!['/']) == file_name(path),
        file_name(path + seq!['/', '.']) == file_name(path),
        file_name(path + seq!['/', '.', '.']) is None,
        file_name(Seq::empty()) is None,
        file_name(seq!['.']) is None,
        file_name(seq!['.', '.']) is None,
        file_name(path) is None ==> label_of(path) == path,
        file_name(path) matches Some(name) ==> label_of(path) == name,
{
    let a = path + seq!['/'];
    assert(a.drop_last() == path);
    let b = path + seq!['/', '.'];
    assert(b.drop_last() == a);
    lemma_component_start(b, path.len() as int + 1);
    assert(last_component(b) == seq!['.']);
    let c = path + seq!['/', '.', '.'];
    lemma_component_start(c, path.len() as int + 1);
    assert(last_component(c) == seq!['.', '.']);
    assert(seq!['.', '.'].len() != seq!['.'].len());
    let d = seq!['.'];
    lemma_component_start(d, 0);
    assert(last_component(d) == d);
    assert(d.drop_last() == Seq::<char>::empty());
    assert(file_name(d.drop_last()) is None);
    let e = seq!['.', '.'];
    lemma_component_start(e, 0);
    assert(last_component(e) == e);
}

} // verus!
