//! Paths as text: components, parents, names and joins.
//!
//! A path is a list of components between slashes. Empty components carry
//! nothing, and neither does `.` anywhere but at the start of a relative path.

use vstd::prelude::*;
use vstd::slice::slice_subrange;
use crate::text;

verus! {

/// A path that starts at the root.
pub open spec fn is_absolute(p: Seq<char>) -> bool {
    p.len() > 0 && p[0] == '/'
}

/// The components among the first pieces between the slashes.
pub open spec fn components_of(pieces: Seq<Seq<char>>) -> Seq<Seq<char>>
    decreases pieces.len(),
{
    if pieces.len() == 0 {
        Seq::empty()
    } else {
        let rest = components_of(pieces.drop_last());
        let piece = pieces.last();
        if piece.len() == 0 || (piece == "."@ && pieces.len() > 1) {
            rest
        } else {
            rest.push(piece)
        }
    }
}

/// The components of a path.
pub open spec fn components(p: Seq<char>) -> Seq<Seq<char>> {
    components_of(text::split_on(p, '/'))
}

/// Two texts that name one path.
pub open spec fn same_path(a: Seq<char>, b: Seq<char>) -> bool {
    is_absolute(a) == is_absolute(b) && components(a) == components(b)
}

/// The components of a path.
fn list_components(p: &[char]) -> (r: Vec<Vec<char>>)
    ensures
        r.deep_view() == components(p@),
{
    let pieces: Vec<Vec<char>> = text::split_chars(p, '/');
    let dot: Vec<char> = text::chars_of(".");
    let mut out: Vec<Vec<char>> = Vec::new();
    let mut i: usize = 0;
    let ghost all = pieces.deep_view();
    assert(all.take(0) =~= Seq::<Seq<char>>::empty());
    assert(out.deep_view() =~= Seq::<Seq<char>>::empty());
    while i < pieces.len()
        invariant
            i <= pieces@.len(),
            all == pieces.deep_view(),
            dot@ == "."@,
            out.deep_view() == components_of(all.take(i as int)),
        decreases pieces@.len() - i,
    {
        let ghost before = out.deep_view();
        let piece: Vec<char> = text::slice_to_chars(pieces[i].as_slice());
        assert(all.take(i + 1).drop_last() =~= all.take(i as int));
        assert(all[i as int] =~= piece@);
        if piece.len() == 0 || (i > 0 && text::same_chars(piece.as_slice(), dot.as_slice())) {
        } else {
            let ghost added = piece.deep_view();
            assert(added =~= piece@);
            out.push(piece);
            assert(out.deep_view() =~= before.push(added));
        }
        i += 1;
    }
    assert(all.take(i as int) =~= all);
    out
}

/// Whether two lists hold the same texts.
fn same_list(a: &Vec<Vec<char>>, b: &Vec<Vec<char>>) -> (r: bool)
    ensures
        r == (a.deep_view() == b.deep_view()),
{
    if a.len() != b.len() {
        assert(a.deep_view().len() != b.deep_view().len());
        return false;
    }
    let mut i: usize = 0;
    while i < a.len()
        invariant
            i <= a@.len(),
            a@.len() == b@.len(),
            forall|k: int| 0 <= k < i ==> a.deep_view()[k] == b.deep_view()[k],
        decreases a@.len() - i,
    {
        assert(a.deep_view()[i as int] =~= a@[i as int]@);
        assert(b.deep_view()[i as int] =~= b@[i as int]@);
        if !text::same_chars(a[i].as_slice(), b[i].as_slice()) {
            return false;
        }
        i += 1;
    }
    assert(a.deep_view() =~= b.deep_view());
    true
}

/// Whether two texts name one path.
pub fn names_same(a: &str, b: &str) -> (r: bool)
    ensures
        r == same_path(a@, b@),
{
    if text::same_text(a, b) {
        return true;
    }
    let x: Vec<char> = text::chars_of(a);
    let y: Vec<char> = text::chars_of(b);
    let x_root: bool = x.len() > 0 && x[0] == '/';
    let y_root: bool = y.len() > 0 && y[0] == '/';
    if x_root != y_root {
        return false;
    }
    same_list(&list_components(x.as_slice()), &list_components(y.as_slice()))
}

/// A path is the same as one in a list.
pub open spec fn listed(list: Seq<Seq<char>>, p: Seq<char>) -> bool {
    exists|i: int| 0 <= i < list.len() && same_path(#[trigger] list[i], p)
}

/// Whether a path is the same as one in a list.
pub fn is_listed(list: &Vec<String>, p: &str) -> (r: bool)
    ensures
        r == listed(list.deep_view(), p@),
{
    let mut i: usize = 0;
    while i < list.len()
        invariant
            i <= list@.len(),
            forall|k: int| 0 <= k < i ==> !same_path(#[trigger] list.deep_view()[k], p@),
        decreases list@.len() - i,
    {
        assert(list.deep_view()[i as int] == list@[i as int]@);
        if names_same(list[i].as_str(), p) {
            return true;
        }
        i += 1;
    }
    false
}

/// No path stands in a list twice.
pub open spec fn once_each(list: Seq<Seq<char>>) -> bool {
    forall|i: int, j: int|
        0 <= i < j < list.len() ==> !same_path(#[trigger] list[i], #[trigger] list[j])
}

/// A path without the slashes and the `.` components at its end.
pub open spec fn trim_back(p: Seq<char>) -> Seq<char>
    decreases p.len(),
{
    if p.len() <= 1 {
        p
    } else if p.last() == '/' || (p.last() == '.' && p[p.len() - 2] == '/') {
        trim_back(p.drop_last())
    } else {
        p
    }
}

/// The part of a path before the slashes and the `.` components at its end.
fn cut_back<'a>(p: &'a [char]) -> (r: &'a [char])
    ensures
        r@ == trim_back(p@),
{
    let mut n: usize = p.len();
    assert(p@.take(n as int) =~= p@);
    while n > 1 && (p[n - 1] == '/' || (p[n - 1] == '.' && p[n - 2] == '/'))
        invariant
            n <= p@.len(),
            trim_back(p@.take(n as int)) == trim_back(p@),
        decreases n,
    {
        assert(p@.take(n as int).drop_last() =~= p@.take(n - 1));
        n -= 1;
    }
    let r: &[char] = slice_subrange(p, 0, n);
    assert(r@ =~= p@.take(n as int));
    r
}

/// The last component of a path, where that is a name.
pub open spec fn file_name(p: Seq<char>) -> Option<Seq<char>> {
    let t = trim_back(p);
    let name = t.skip(text::after_last(t, '/'));
    if name.len() == 0 || name == "."@ || name == ".."@ {
        None
    } else {
        Some(name)
    }
}

/// The last component of a path, where that is a name.
pub fn name_of(p: &[char]) -> (r: Option<Vec<char>>)
    ensures
        r is Some <==> file_name(p@) is Some,
        r matches Some(name) ==> file_name(p@) == Some(name@),
{
    let t: &[char] = cut_back(p);
    let at: usize = text::find_after_last(t, '/');
    let name: &[char] = slice_subrange(t, at, t.len());
    assert(name@ =~= t@.skip(at as int));
    let dot: Vec<char> = text::chars_of(".");
    let dots: Vec<char> = text::chars_of("..");
    if name.len() == 0 || text::same_chars(name, dot.as_slice()) || text::same_chars(
        name,
        dots.as_slice(),
    ) {
        None
    } else {
        Some(text::slice_to_chars(name))
    }
}

/// A path without its last component. The root and the empty path have none.
pub open spec fn parent(p: Seq<char>) -> Option<Seq<char>> {
    let t = trim_back(p);
    let at = text::after_last(t, '/');
    if t.len() == 0 || t == "/"@ {
        None
    } else if at <= 1 {
        Some(t.take(at))
    } else {
        Some(trim_back(t.take(at)))
    }
}

/// A path without its last component.
pub fn parent_of(p: &[char]) -> (r: Option<Vec<char>>)
    ensures
        r is Some <==> parent(p@) is Some,
        r matches Some(dir) ==> parent(p@) == Some(dir@),
{
    let t: &[char] = cut_back(p);
    let at: usize = text::find_after_last(t, '/');
    let root: Vec<char> = text::chars_of("/");
    if t.len() == 0 || text::same_chars(t, root.as_slice()) {
        return None;
    }
    let front: &[char] = slice_subrange(t, 0, at);
    assert(front@ =~= t@.take(at as int));
    if at <= 1 {
        Some(text::slice_to_chars(front))
    } else {
        Some(text::slice_to_chars(cut_back(front)))
    }
}

/// A name in a directory. An absolute name stands for itself.
pub open spec fn join(dir: Seq<char>, name: Seq<char>) -> Seq<char> {
    if is_absolute(name) || dir.len() == 0 {
        name
    } else if dir.last() == '/' {
        dir + name
    } else {
        dir.push('/') + name
    }
}

/// A name in a directory.
pub fn joined(dir: &str, name: &str) -> (r: String)
    ensures
        r@ == join(dir@, name@),
{
    let d: Vec<char> = text::chars_of(dir);
    let n: Vec<char> = text::chars_of(name);
    let mut out: String = String::new();
    if (n.len() > 0 && n[0] == '/') || d.len() == 0 {
        out.append(name);
        assert(out@ =~= name@);
        return out;
    }
    out.append(dir);
    if d[d.len() - 1] != '/' {
        out.push('/');
    }
    out.append(name);
    assert(out@ =~= join(dir@, name@));
    out
}

} // verus!
