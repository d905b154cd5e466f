//! Symbols and versions: what is reported, by the fields of the symbols.

use vstd::prelude::*;
use crate::analyze::link;
use crate::analyze::{ResolutionView, UnresolvedView, VersionView};
use crate::elf::{Binding, ElfView};
use crate::order;
use crate::text;

verus! {

// ---------------------------------------------------------------------------
// Symbols
// ---------------------------------------------------------------------------

/// The symbol at `(o, k)` is a strong import of this: it is undefined, and its
/// binding is global.
pub open spec fn asks(
    objects: Seq<ElfView>,
    labels: Seq<Seq<char>>,
    o: int,
    k: int,
    x: UnresolvedView,
) -> bool {
    &&& 0 <= o < objects.len() && 0 <= k < objects[o].symbols.len()
    &&& labels[o] == x.object
    &&& objects[o].symbols[k].undefined
    &&& objects[o].symbols[k].binding == Binding::Global
    &&& objects[o].symbols[k].name == x.name
    &&& {
        let index = objects[o].symbols[k].version_index;
        let versions = objects[o].version_by_index;
        if versions.contains_key(index) {
            x.version == Some(versions[index].0)
        } else {
            x.version is None
        }
    }
}

/// The symbol at `(o, k)` is a definition that an import of this name and
/// version may be bound to: a global, a weak or a unique one, with no version
/// or the same one where one is asked for.
pub open spec fn answers(
    objects: Seq<ElfView>,
    o: int,
    k: int,
    name: Seq<char>,
    version: Option<Seq<char>>,
) -> bool {
    &&& 0 <= o < objects.len() && 0 <= k < objects[o].symbols.len()
    &&& !objects[o].symbols[k].undefined
    &&& objects[o].symbols[k].binding == Binding::Global || objects[o].symbols[k].binding
        == Binding::Weak || objects[o].symbols[k].binding == Binding::GnuUnique
    &&& objects[o].symbols[k].name == name
    &&& {
        let index = objects[o].symbols[k].version_index;
        let versions = objects[o].defined_by_index;
        version matches Some(v) ==> versions.contains_key(index) ==> versions[index] == v
    }
}

/// What satisfies an import is a symbol that answers it.
proof fn lemma_answers(objects: Seq<ElfView>, name: Seq<char>, version: Option<Seq<char>>)
    ensures
        link::satisfied(objects, name, version) <==> exists|o: int, k: int| #[trigger]
            answers(objects, o, k, name, version),
{
    if link::satisfied(objects, name, version) {
        let (o, k) = choose|o: int, k: int| #[trigger]
            link::defines(objects, o, k, name) && (version is None || link::version_at(
                objects,
                o,
                k,
            ) is None || link::version_at(objects, o, k) == version);
        assert(answers(objects, o, k, name, version));
    }
    if exists|o: int, k: int| #[trigger] answers(objects, o, k, name, version) {
        let (o, k) = choose|o: int, k: int| #[trigger] answers(objects, o, k, name, version);
        assert(link::defines(objects, o, k, name));
    }
}

/// A symbol is reported for an object exactly where the object has a strong
/// import of it that no symbol of any object answers.
pub proof fn what_nothing_answers_is_unresolved(
    objects: Seq<ElfView>,
    labels: Seq<Seq<char>>,
    x: UnresolvedView,
)
    requires
        labels.len() == objects.len(),
    ensures
        link::unresolved_of(objects, labels).contains(x) <==> (exists|o: int, k: int| #[trigger]
            asks(objects, labels, o, k, x)) && !(exists|o: int, k: int| #[trigger]
            answers(objects, o, k, x.name, x.version)),
{
    link::exactly_the_open_imports_are_reported(objects, labels, x);
    lemma_answers(objects, x.name, x.version);
    let import = (x.name, x.version);
    if exists|o: int|
        0 <= o < objects.len() && #[trigger] link::asked_in_vain(objects, o, import) && labels[o]
            == x.object {
        let o = choose|o: int|
            0 <= o < objects.len() && #[trigger] link::asked_in_vain(objects, o, import)
                && labels[o] == x.object;
        let k = choose|k: int|
            0 <= k < objects[o].symbols.len() && link::is_strong_import(
                #[trigger] objects[o].symbols[k],
            ) && link::import_of(objects[o], objects[o].symbols[k]) == import;
        assert(asks(objects, labels, o, k, x));
    }
    if (exists|o: int, k: int| #[trigger] asks(objects, labels, o, k, x)) && !link::satisfied(
        objects,
        x.name,
        x.version,
    ) {
        let (o, k) = choose|o: int, k: int| #[trigger] asks(objects, labels, o, k, x);
        assert(link::is_strong_import(objects[o].symbols[k]));
        assert(link::import_of(objects[o], objects[o].symbols[k]) == import);
        assert(link::asked_in_vain(objects, o, import));
    }
}

/// The bindings that the upper half of `st_info` tells: 0 is local, 1 global,
/// 2 weak and 10 unique; every other value is kept.
pub proof fn bindings_are_told_by_their_numbers(raw: u8)
    ensures
        Binding::of_raw(raw) == Binding::Local <==> raw == 0,
        Binding::of_raw(raw) == Binding::Global <==> raw == 1,
        Binding::of_raw(raw) == Binding::Weak <==> raw == 2,
        Binding::of_raw(raw) == Binding::GnuUnique <==> raw == 10,
        raw != 0 && raw != 1 && raw != 2 && raw != 10 ==> Binding::of_raw(raw) == Binding::Other(
            raw,
        ),
{
}

/// A definition whose raw binding is 1, 2 or 10 satisfies every import of its
/// name that asks for no version: none is reported, of whatever object.
pub proof fn linkable_definitions_satisfy(
    objects: Seq<ElfView>,
    labels: Seq<Seq<char>>,
    o: int,
    k: int,
    raw: u8,
    object: Seq<char>,
)
    requires
        labels.len() == objects.len(),
        0 <= o < objects.len(),
        0 <= k < objects[o].symbols.len(),
        objects[o].symbols[k].binding == Binding::of_raw(raw),
        raw == 1 || raw == 2 || raw == 10,
        !objects[o].symbols[k].undefined,
    ensures
        !link::unresolved_of(objects, labels).contains(
            UnresolvedView { name: objects[o].symbols[k].name, version: None, object },
        ),
{
    let name = objects[o].symbols[k].name;
    bindings_are_told_by_their_numbers(raw);
    assert(answers(objects, o, k, name, None));
    what_nothing_answers_is_unresolved(objects, labels, UnresolvedView { name, version: None, object });
}

/// A local definition satisfies nothing, and neither does one of an unknown
/// binding: where a name has no others, every strong import of it is reported.
pub proof fn other_definitions_do_not_satisfy(
    objects: Seq<ElfView>,
    labels: Seq<Seq<char>>,
    o: int,
    k: int,
    x: UnresolvedView,
)
    requires
        labels.len() == objects.len(),
        asks(objects, labels, o, k, x),
        forall|p: int, j: int|
            0 <= p < objects.len() && 0 <= j < objects[p].symbols.len() && (
            #[trigger] objects[p].symbols[j]).name == x.name && !objects[p].symbols[j].undefined
                ==> exists|raw: u8|
                raw != 1 && raw != 2 && raw != 10 && objects[p].symbols[j].binding
                    == #[trigger] Binding::of_raw(raw),
    ensures
        link::unresolved_of(objects, labels).contains(x),
{
    what_nothing_answers_is_unresolved(objects, labels, x);
    if exists|p: int, j: int| #[trigger] answers(objects, p, j, x.name, x.version) {
        let (p, j) = choose|p: int, j: int| #[trigger] answers(objects, p, j, x.name, x.version);
        let symbol = objects[p].symbols[j];
        let raw = choose|raw: u8|
            raw != 1 && raw != 2 && raw != 10 && symbol.binding == #[trigger] Binding::of_raw(raw);
        bindings_are_told_by_their_numbers(raw);
    }
}

/// A weak import is never reported, and neither is a definition: only what some
/// object marks as undefined and global is.
pub proof fn only_strong_imports_are_unresolved(
    objects: Seq<ElfView>,
    labels: Seq<Seq<char>>,
    i: int,
)
    requires
        labels.len() == objects.len(),
        0 <= i < link::unresolved_of(objects, labels).len(),
    ensures
        ({
            let x = link::unresolved_of(objects, labels)[i];
            exists|o: int, k: int| #[trigger] asks(objects, labels, o, k, x)
        }),
{
    let x = link::unresolved_of(objects, labels)[i];
    assert(link::unresolved_of(objects, labels).contains(x));
    what_nothing_answers_is_unresolved(objects, labels, x);
}

// ---------------------------------------------------------------------------
// Versions
// ---------------------------------------------------------------------------

/// The object at `o` records that the library called `file` must provide
/// `version`.
pub open spec fn records(objects: Seq<ElfView>, o: int, file: Seq<char>, version: Seq<char>) -> bool {
    exists|n: int, v: int| #[trigger] records_at(objects, o, n, v, file, version)
}

/// It does so in its need `n`, as version `v`.
pub open spec fn records_at(
    objects: Seq<ElfView>,
    o: int,
    n: int,
    v: int,
    file: Seq<char>,
    version: Seq<char>,
) -> bool {
    &&& 0 <= o < objects.len() && 0 <= n < objects[o].version_needs.len()
    &&& objects[o].version_needs[n].file == file
    &&& 0 <= v < objects[o].version_needs[n].versions.len()
    &&& objects[o].version_needs[n].versions[v] == version
}

/// The library finding `i` is for `file`, it was found at `path`, and the
/// object at `p` is the one that stands there.
pub open spec fn leads_to(g: link::Graph, file: Seq<char>, i: int, path: Seq<char>, p: int) -> bool {
    &&& 0 <= i < g.libraries.len() && g.libraries[i].name == file
    &&& g.libraries[i].resolution == ResolutionView::Found(path)
    &&& 0 <= p < g.keys.len() && g.keys[p] == g.places[i]
}

/// No name and no object stands twice.
pub open spec fn is_distinct(g: link::Graph) -> bool {
    &&& g.keys.len() == g.objects.len()
    &&& g.keys.no_duplicates()
    &&& forall|i: int, j: int|
        0 <= i < j < g.libraries.len() ==> (#[trigger] g.libraries[i]).name != (
        #[trigger] g.libraries[j]).name
}

proof fn lemma_index_in(list: Seq<Seq<char>>, item: Seq<char>)
    ensures
        link::index_in(list, item) matches Some(i) ==> 0 <= i < list.len() && list[i] == item,
        link::index_in(list, item) is None ==> !list.contains(item),
    decreases list.len(),
{
    if list.len() > 0 {
        let front = list.drop_last();
        lemma_index_in(front, item);
        if link::index_in(list, item) is None && list.contains(item) {
            let k = choose|k: int| 0 <= k < list.len() && list[k] == item;
            assert(front[k] == item);
            assert(front.contains(item));
        }
    }
}

proof fn lemma_library_at(libraries: Seq<crate::analyze::LibraryView>, name: Seq<char>)
    ensures
        crate::analyze::walk::library_at(libraries, name) matches Some(i) ==> 0 <= i
            < libraries.len() && libraries[i].name == name,
        crate::analyze::walk::library_at(libraries, name) is None ==> forall|i: int|
            0 <= i < libraries.len() ==> (#[trigger] libraries[i]).name != name,
    decreases libraries.len(),
{
    if libraries.len() > 0 {
        let front = libraries.drop_last();
        lemma_library_at(front, name);
        if crate::analyze::walk::library_at(libraries, name) is None {
            assert forall|i: int| 0 <= i < libraries.len() implies (#[trigger] libraries[i]).name
                != name by {
                if i < front.len() {
                    assert(front[i] == libraries[i]);
                }
            }
        }
    }
}

proof fn lemma_provider(g: link::Graph, file: Seq<char>, i: int, path: Seq<char>, p: int)
    requires
        is_distinct(g),
        leads_to(g, file, i, path, p),
    ensures
        g.provider(file) == Some((path, g.objects[p])),
{
    lemma_library_at(g.libraries, file);
    let k = crate::analyze::walk::library_at(g.libraries, file)->0;
    assert(k == i);
    lemma_index_in(g.keys, g.places[i]);
    assert(g.keys.contains(g.places[i]));
}

proof fn lemma_wants(
    needs: Seq<crate::elf::VersionNeedView>,
    file: Seq<char>,
    version: Seq<char>,
)
    ensures
        link::wants(needs).contains((file, version)) <==> exists|n: int, v: int|
            0 <= n < needs.len() && 0 <= v < needs[n].versions.len() && needs[n].file == file
                && #[trigger] needs[n].versions[v] == version,
    decreases needs.len(),
{
    let all = link::wants(needs);
    if needs.len() > 0 {
        let front = needs.drop_last();
        let last = needs.last();
        let head = link::wants(front);
        let tail = Seq::new(last.versions.len(), |i: int| (last.file, last.versions[i]));
        assert(all == head + tail);
        lemma_wants(front, file, version);
        if all.contains((file, version)) {
            let i = choose|i: int| 0 <= i < all.len() && all[i] == (file, version);
            if i < head.len() {
                assert(head[i] == (file, version));
                assert(head.contains((file, version)));
                let (n, v) = choose|n: int, v: int|
                    0 <= n < front.len() && 0 <= v < front[n].versions.len() && front[n].file
                        == file && #[trigger] front[n].versions[v] == version;
                assert(needs[n].versions[v] == version);
            } else {
                assert(tail[i - head.len()] == (file, version));
                assert(needs[needs.len() - 1].versions[i - head.len()] == version);
            }
        }
        if exists|n: int, v: int|
            0 <= n < needs.len() && 0 <= v < needs[n].versions.len() && needs[n].file == file
                && #[trigger] needs[n].versions[v] == version {
            let (n, v) = choose|n: int, v: int|
                0 <= n < needs.len() && 0 <= v < needs[n].versions.len() && needs[n].file == file
                    && #[trigger] needs[n].versions[v] == version;
            if n < front.len() {
                assert(front[n].versions[v] == version);
                let i = choose|i: int| 0 <= i < head.len() && head[i] == (file, version);
                assert(all[i] == (file, version));
            } else {
                assert(tail[v] == (file, version));
                assert(all[head.len() + v] == (file, version));
            }
        }
    }
}

/// Every version that any object records as needed from a library that was
/// found, and that the object which stands there does not define, is reported:
/// with the object that needs it, the library and the path at which it was
/// found.
pub proof fn every_recorded_version_is_checked(
    g: link::Graph,
    labels: Seq<Seq<char>>,
    o: int,
    file: Seq<char>,
    version: Seq<char>,
    i: int,
    path: Seq<char>,
    p: int,
)
    requires
        labels.len() == g.objects.len(),
        is_distinct(g),
        records(g.objects, o, file, version),
        leads_to(g, file, i, path, p),
        !g.objects[p].defined_versions.contains(version),
    ensures
        exists|x: VersionView| #[trigger]
            g.version_problems(labels).contains(x) && x.object == labels[o] && x.library == file
                && x.required == version && x.library_path == Some(path) && x.best_provided
                == link::closest_of(g.objects[p].defined_versions, version),
{
    lemma_provider(g, file, i, path, p);
    let (n, v) = choose|n: int, v: int| #[trigger] records_at(g.objects, o, n, v, file, version);
    let needs = g.objects[o].version_needs;
    assert(needs[n].versions[v] == version);
    lemma_wants(needs, file, version);
    link::every_lacking_version_is_reported(g, labels, o, (file, version));
    assert(g.version_problems(labels).contains(g.version_problem(labels[o], (file, version))));
}

/// What is reported of versions is true: some object of that label records the
/// version as needed from the library, the library was found at the path that
/// is named, and what stands there does not define the version.
pub proof fn every_reported_version_lacks(g: link::Graph, labels: Seq<Seq<char>>, x: VersionView)
    requires
        labels.len() == g.objects.len(),
        is_distinct(g),
        g.version_problems(labels).contains(x),
    ensures
        exists|o: int|
            0 <= o < g.objects.len() && #[trigger] labels[o] == x.object && records(
                g.objects,
                o,
                x.library,
                x.required,
            ),
        exists|i: int, p: int| #[trigger]
            leads_to(g, x.library, i, x.library_path->0, p) && !g.objects[p].defined_versions.contains(
                x.required,
            ) && x.best_provided == link::closest_of(g.objects[p].defined_versions, x.required),
        x.library_path is Some,
{
    link::only_lacking_versions_are_reported(g, labels, x);
    let o = choose|o: int| #[trigger] link::is_lacking(g, labels, o, x);
    let needs = g.objects[o].version_needs;
    lemma_wants(needs, x.library, x.required);
    let (n, v) = choose|n: int, v: int|
        0 <= n < needs.len() && 0 <= v < needs[n].versions.len() && needs[n].file == x.library
            && #[trigger] needs[n].versions[v] == x.required;
    assert(records_at(g.objects, o, n, v, x.library, x.required));
    assert(labels[o] == x.object);
    lemma_library_at(g.libraries, x.library);
    let i = crate::analyze::walk::library_at(g.libraries, x.library)->0;
    lemma_index_in(g.keys, g.places[i]);
    let p = link::index_in(g.keys, g.places[i])->0;
    assert(leads_to(g, x.library, i, x.library_path->0, p));
}

/// A version is written as a prefix that ends in a dot, and a number behind
/// it.
pub open spec fn is_numbered(version: Seq<char>, prefix: Seq<char>, n: u32) -> bool {
    &&& prefix.len() > 0 && prefix.last() == '.'
    &&& version.len() > prefix.len()
    &&& version.take(prefix.len() as int) == prefix
    &&& text::number(version.skip(prefix.len() as int)) == Some(n)
}

proof fn lemma_after_last(s: Seq<char>, c: char)
    ensures
        0 <= text::after_last(s, c) <= s.len(),
        text::after_last(s, c) > 0 ==> s[text::after_last(s, c) - 1] == c,
        forall|k: int| text::after_last(s, c) <= k < s.len() ==> #[trigger] s[k] != c,
    decreases s.len(),
{
    if s.len() > 0 && s.last() != c {
        let front = s.drop_last();
        lemma_after_last(front, c);
        assert forall|k: int| text::after_last(s, c) <= k < s.len() implies #[trigger] s[k] != c by {
            if k < front.len() {
                assert(front[k] == s[k]);
            }
        }
        let n = text::after_last(s, c);
        assert(n > 0 ==> front[n - 1] == s[n - 1]);
    }
}

/// The digits of a number hold no dot.
proof fn lemma_number_has_no_dot(s: Seq<char>)
    requires
        text::number(s) is Some,
    ensures
        !s.contains('.'),
        s.len() > 0,
{
    if s.contains('.') {
        let k = choose|k: int| 0 <= k < s.len() && s[k] == '.';
        if s[0] == '+' {
            assert(s.drop_first()[k - 1] == '.');
        } else {
            assert(text::is_digit(s[k]));
        }
    }
}

/// Where a version `prefix.n` is needed, the version that is said to be
/// provided is one of those that are, with the same prefix and a number below
/// `n`, and no provided version of that prefix has a number between. Where none
/// is below, nothing is named.
pub proof fn the_version_below_is_named(
    provided: Seq<Seq<char>>,
    required: Seq<char>,
    prefix: Seq<char>,
    n: u32,
    other: int,
    m: u32,
)
    requires
        is_numbered(required, prefix, n),
        0 <= other < provided.len(),
        is_numbered(provided[other], prefix, m),
    ensures
        m < n ==> (link::closest_of(provided, required) matches Some(v) && provided.contains(v)
            && exists|k: u32| #[trigger] is_numbered(v, prefix, k) && m <= k < n),
{
    let at = text::after_last(required, '.');
    lemma_after_last(required, '.');
    lemma_number_has_no_dot(required.skip(prefix.len() as int));
    let p = prefix.len() as int;
    assert(required.take(p)[p - 1] == required[p - 1]);
    assert(at == p) by {
        if at > p {
            assert(required.skip(p)[at - 1 - p] == '.');
            assert(required.skip(p).contains('.'));
        }
    }
    assert(required.take(at) == prefix);
    link::the_closest_version_is_the_newest_older_one(provided, required, other);
    assert(text::starts_with(provided[other], prefix)) by {
        assert(provided[other].subrange(0, p) =~= provided[other].take(p));
    }
    if m < n {
        let v = link::closest_of(provided, required)->0;
        let k = link::number_under(prefix, v)->0;
        lemma_number_has_no_dot(v.skip(p));
        assert(v.take(p) =~= v.subrange(0, p));
        assert(is_numbered(v, prefix, k));
    }
}

/// A version is named as provided only where it is, and is older: it has the
/// prefix of the one that is needed, and a lower number.
pub proof fn what_is_named_is_provided_and_older(provided: Seq<Seq<char>>, required: Seq<char>)
    requires
        link::closest_of(provided, required) is Some,
    ensures
        provided.contains(link::closest_of(provided, required)->0),
        exists|prefix: Seq<char>, n: u32, k: u32|
            #![trigger is_numbered(required, prefix, n), is_numbered(link::closest_of(provided, required)->0, prefix, k)]
            is_numbered(required, prefix, n) && is_numbered(
                link::closest_of(provided, required)->0,
                prefix,
                k,
            ) && k < n,
{
    let at = text::after_last(required, '.');
    lemma_after_last(required, '.');
    let prefix = required.take(at);
    let n = text::number(required.skip(at))->0;
    let v = link::closest_of(provided, required)->0;
    lemma_number_has_no_dot(required.skip(at));
    link::lemma_highest_below(provided, prefix, n);
    let k = link::number_under(prefix, v)->0;
    lemma_number_has_no_dot(v.skip(at));
    assert(prefix.last() == '.');
    assert(v.take(at) =~= v.subrange(0, at));
    assert(is_numbered(required, prefix, n));
    assert(is_numbered(v, prefix, k));
}

/// Lists are in the order of the texts that they are sorted by: symbols by
/// name, and by object where the names are the same; versions by library, and
/// by version where the libraries are the same.
pub proof fn findings_come_in_order(g: link::Graph, labels: Seq<Seq<char>>, i: int, j: int)
    ensures
        ({
            let s = link::unresolved_of(g.objects, labels);
            0 <= i < j < s.len() ==> {
                ||| text::text_less(s[i].name, s[j].name)
                ||| s[i].name == s[j].name && !text::text_less(s[j].object, s[i].object)
            }
        }),
        ({
            let v = g.version_problems(labels);
            0 <= i < j < v.len() ==> {
                ||| text::text_less(v[i].library, v[j].library)
                ||| v[i].library == v[j].library && !text::text_less(v[j].required, v[i].required)
            }
        }),
{
    link::findings_are_sorted(g, labels, i, j);
    let s = link::unresolved_of(g.objects, labels);
    if 0 <= i < j < s.len() {
        order::pair_order_is_total(
            (s[i].name, s[i].object),
            (s[j].name, s[j].object),
            (s[i].name, s[i].object),
        );
        text::text_order_is_total(s[i].name, s[j].name, s[i].name);
        text::text_order_is_total(s[i].object, s[j].object, s[i].object);
    }
    let v = g.version_problems(labels);
    if 0 <= i < j < v.len() {
        text::text_order_is_total(v[i].library, v[j].library, v[i].library);
        text::text_order_is_total(v[i].required, v[j].required, v[i].required);
    }
}

} // verus!
