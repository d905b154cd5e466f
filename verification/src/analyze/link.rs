//! Which symbols and versions the objects of a graph leave open.

use vstd::prelude::*;
use vstd::slice::slice_subrange;
use super::walk;
use super::{
    LibResolution, LibraryFinding, LibraryView, ResolutionView, UnresolvedSymbol, UnresolvedView,
    VersionProblem, VersionView,
};
use crate::elf::{
    Binding, DynSymbol, DynSymbolView, ElfFile, ElfView, VersionNeed, VersionNeedView,
};
use crate::order;
use crate::text;

verus! {

// ---------------------------------------------------------------------------
// What is defined
// ---------------------------------------------------------------------------

/// The symbol at `(o, k)` defines a name, for other objects to link against.
pub open spec fn defines(objects: Seq<ElfView>, o: int, k: int, name: Seq<char>) -> bool {
    &&& 0 <= o < objects.len()
    &&& 0 <= k < objects[o].symbols.len()
    &&& objects[o].symbols[k].is_definition()
    &&& objects[o].symbols[k].name == name
}

/// The version under which the symbol at `(o, k)` is defined. One whose index
/// names no version is unversioned.
pub open spec fn version_at(objects: Seq<ElfView>, o: int, k: int) -> Option<Seq<char>> {
    objects[o].defined_version(objects[o].symbols[k].version_index)
}

/// Some object defines what an import asks for. Definitions are matched by name
/// *and* version where both are known, so `foo@OTHER` cannot satisfy an import
/// of `foo@VER`; an unversioned definition may satisfy a versioned import, and
/// an unversioned reference binds to any definition of the name.
pub open spec fn satisfied(
    objects: Seq<ElfView>,
    name: Seq<char>,
    version: Option<Seq<char>>,
) -> bool {
    exists|o: int, k: int| #[trigger]
        defines(objects, o, k, name) && (version is None || version_at(objects, o, k) is None
            || version_at(objects, o, k) == version)
}

/// A number for some bytes, to file names by.
spec fn hash(s: Seq<u8>) -> nat
    decreases s.len(),
{
    if s.len() == 0 {
        5381
    } else {
        (hash(s.drop_last()) * 33 + s.last() as nat) % 0xffff_fffb
    }
}

/// The number of a name.
fn hash_of(name: &str) -> (r: u64)
    ensures
        r == hash(vstd::utf8::encode_utf8(name@)),
{
    let bytes: &[u8] = name.as_bytes();
    let mut h: u64 = 5381;
    let mut i: usize = 0;
    assert(bytes@.take(0) =~= Seq::<u8>::empty());
    while i < bytes.len()
        invariant
            i <= bytes@.len(),
            h < 0xffff_fffb,
            h == hash(bytes@.take(i as int)),
        decreases bytes@.len() - i,
    {
        assert(bytes@.take(i + 1).drop_last() =~= bytes@.take(i as int));
        h = (h * 33 + bytes[i] as u64) % 0xffff_fffb;
        i += 1;
    }
    assert(bytes@.take(i as int) =~= bytes@);
    h
}

/// How many drawers the definitions are filed in.
const DRAWERS: usize = 0x1_0000;

/// The drawer of a name.
spec fn drawer(name: Seq<char>) -> int {
    (hash(vstd::utf8::encode_utf8(name)) % (DRAWERS as nat)) as int
}

/// The definitions of a graph, filed by name.
struct Definitions {
    drawers: Vec<Vec<(usize, usize)>>,
}

impl Definitions {
    /// The symbol at `(o, k)` is filed if it is a definition.
    spec fn has(self, objects: Seq<ElfView>, o: int, k: int) -> bool {
        objects[o].symbols[k].is_definition() ==> exists|j: int|
            0 <= j < self.drawers@[drawer(objects[o].symbols[k].name)]@.len()
                && self.drawers@[drawer(objects[o].symbols[k].name)]@[j].0 == o
                && #[trigger] self.drawers@[drawer(objects[o].symbols[k].name)]@[j].1 == k
    }

    /// Everything filed is a symbol of the objects.
    spec fn in_range(self, objects: Seq<ElfView>) -> bool {
        &&& self.drawers@.len() == DRAWERS
        &&& forall|d: int, j: int|
            0 <= d < DRAWERS && 0 <= j < self.drawers@[d]@.len() ==> (
            #[trigger] self.drawers@[d]@[j]).0 < objects.len() && self.drawers@[d]@[j].1
                < objects[self.drawers@[d]@[j].0 as int].symbols.len()
    }

    /// Everything before `(o, k)` is filed.
    spec fn filed_to(self, objects: Seq<ElfView>, object: int, symbol: int) -> bool {
        forall|o: int, k: int|
            0 <= o < objects.len() && 0 <= k < objects[o].symbols.len() && (o < object || (o
                == object && k < symbol)) ==> #[trigger] self.has(objects, o, k)
    }

    /// No drawer holds anything yet.
    fn new() -> (r: Self)
        ensures
            r.drawers@.len() == DRAWERS,
            forall|d: int| 0 <= d < DRAWERS ==> (#[trigger] r.drawers@[d])@.len() == 0,
    {
        let mut drawers: Vec<Vec<(usize, usize)>> = Vec::new();
        let mut i: usize = 0;
        while i < DRAWERS
            invariant
                i <= DRAWERS,
                drawers@.len() == i,
                forall|d: int| 0 <= d < i ==> (#[trigger] drawers@[d])@.len() == 0,
            decreases DRAWERS - i,
        {
            drawers.push(Vec::new());
            i += 1;
        }
        Definitions { drawers }
    }

    /// Files the symbol at `(o, k)`.
    fn file(&mut self, objects: &Vec<ElfFile>, o: usize, k: usize)
        requires
            old(self).in_range(objects.deep_view()),
            o < objects@.len(),
            k < objects@[o as int].symbols@.len(),
            old(self).filed_to(objects.deep_view(), o as int, k as int),
        ensures
            final(self).in_range(objects.deep_view()),
            final(self).filed_to(objects.deep_view(), o as int, k + 1),
    {
        let ghost all = objects.deep_view();
        let ghost before = *self;
        let symbol: &DynSymbol = &objects[o].symbols[k];
        assert(all[o as int] == objects@[o as int].deep_view());
        assert(all[o as int].symbols[k as int] == symbol.deep_view());
        if symbol.satisfies() {
            let d: usize = (hash_of(symbol.name.as_str()) % (DRAWERS as u64)) as usize;
            assert(d == drawer(symbol.name@));
            self.drawers[d].push((o, k));
            let ghost pushed = before.drawers@[d as int]@;
            assert(self.drawers@[d as int]@ == pushed.push((o, k)));
            assert forall|e: int| 0 <= e < DRAWERS && e != d implies #[trigger] self.drawers@[e]
                == before.drawers@[e] by {}
            assert(self.in_range(all)) by {
                assert forall|e: int, j: int|
                    0 <= e < DRAWERS && 0 <= j < self.drawers@[e]@.len() implies (
                #[trigger] self.drawers@[e]@[j]).0 < all.len() && self.drawers@[e]@[j].1
                    < all[self.drawers@[e]@[j].0 as int].symbols.len() by {
                    if e == d {
                        if j < pushed.len() {
                            assert(self.drawers@[e]@[j] == before.drawers@[e]@[j]);
                        }
                    } else {
                        assert(self.drawers@[e] == before.drawers@[e]);
                        assert(self.drawers@[e]@[j] == before.drawers@[e]@[j]);
                    }
                }
            }
            assert forall|a: int, b: int|
                0 <= a < all.len() && 0 <= b < all[a].symbols.len() && (a < o || (a == o && b < k
                    + 1)) implies #[trigger] self.has(all, a, b) by {
                let e = drawer(all[a].symbols[b].name);
                if a == o && b == k {
                    assert(self.drawers@[e]@[pushed.len() as int].1 == k);
                } else {
                    assert(before.has(all, a, b));
                    if all[a].symbols[b].is_definition() {
                        let j = choose|j: int|
                            0 <= j < before.drawers@[e]@.len() && before.drawers@[e]@[j].0 == a
                                && #[trigger] before.drawers@[e]@[j].1 == b;
                        assert(self.drawers@[e]@[j] == before.drawers@[e]@[j]);
                        assert(self.drawers@[e]@[j].1 == b);
                    }
                }
            }
        } else {
            assert forall|a: int, b: int|
                0 <= a < all.len() && 0 <= b < all[a].symbols.len() && (a < o || (a == o && b < k
                    + 1)) implies #[trigger] self.has(all, a, b) by {
                if !(a == o && b == k) {
                    assert(before.has(all, a, b));
                }
            }
        }
    }

    /// Files the definitions of all objects.
    fn of(objects: &Vec<ElfFile>) -> (r: Self)
        ensures
            r.in_range(objects.deep_view()),
            r.filed_to(objects.deep_view(), objects@.len() as int, 0),
    {
        let ghost all = objects.deep_view();
        let mut definitions: Definitions = Definitions::new();
        let mut o: usize = 0;
        while o < objects.len()
            invariant
                o <= objects@.len(),
                all == objects.deep_view(),
                definitions.in_range(all),
                definitions.filed_to(all, o as int, 0),
            decreases objects@.len() - o,
        {
            let mut k: usize = 0;
            assert(all[o as int] == objects@[o as int].deep_view());
            while k < objects[o].symbols.len()
                invariant
                    o < objects@.len(),
                    k <= objects@[o as int].symbols@.len(),
                    all == objects.deep_view(),
                    all[o as int].symbols.len() == objects@[o as int].symbols@.len(),
                    definitions.in_range(all),
                    definitions.filed_to(all, o as int, k as int),
                decreases objects@[o as int].symbols@.len() - k,
            {
                definitions.file(objects, o, k);
                k += 1;
            }
            assert(definitions.filed_to(all, o + 1, 0)) by {
                assert forall|a: int, b: int|
                    0 <= a < all.len() && 0 <= b < all[a].symbols.len() && a < o
                        + 1 implies #[trigger] definitions.has(all, a, b) by {}
            }
            o += 1;
        }
        definitions
    }

    /// Whether some object defines what an import asks for.
    fn satisfy(&self, objects: &Vec<ElfFile>, name: &str, version: Option<&str>) -> (r: bool)
        requires
            self.in_range(objects.deep_view()),
            self.filed_to(objects.deep_view(), objects@.len() as int, 0),
        ensures
            r == satisfied(objects.deep_view(), name@, version.deep_view()),
    {
        let ghost all = objects.deep_view();
        let ghost want = version.deep_view();
        let d: usize = (hash_of(name) % (DRAWERS as u64)) as usize;
        assert(d == drawer(name@));
        let filed: &Vec<(usize, usize)> = &self.drawers[d];
        let mut j: usize = 0;
        while j < filed.len()
            invariant
                j <= filed@.len(),
                d < DRAWERS,
                all == objects.deep_view(),
                want == version.deep_view(),
                self.in_range(all),
                filed == self.drawers@[d as int],
                forall|i: int|
                    0 <= i < j ==> !(defines(
                        all,
                        (#[trigger] filed@[i]).0 as int,
                        filed@[i].1 as int,
                        name@,
                    ) && (want is None || version_at(all, filed@[i].0 as int, filed@[i].1 as int)
                        is None || version_at(all, filed@[i].0 as int, filed@[i].1 as int)
                        == want)),
            decreases filed@.len() - j,
        {
            let (o, k): (usize, usize) = filed[j];
            assert(self.drawers@[d as int]@[j as int] == (o, k));
            let object: &ElfFile = &objects[o];
            assert(all[o as int] == object.deep_view());
            let symbol: &DynSymbol = &object.symbols[k];
            assert(all[o as int].symbols[k as int] == symbol.deep_view());
            if symbol.satisfies() && text::same_text(symbol.name.as_str(), name) {
                assert(defines(all, o as int, k as int, name@));
                match (version, object.defined_version_name(symbol.version_index)) {
                    (Some(wanted), Some(defined)) => {
                        if text::same_text(wanted, defined) {
                            return true;
                        }
                    },
                    _ => {
                        return true;
                    },
                }
            }
            j += 1;
        }
        proof {
            if satisfied(all, name@, want) {
                let (o, k) = choose|o: int, k: int| #[trigger]
                    defines(all, o, k, name@) && (want is None || version_at(all, o, k) is None
                        || version_at(all, o, k) == want);
                assert(self.has(all, o, k));
                let i = choose|i: int|
                    0 <= i < self.drawers@[d as int]@.len() && self.drawers@[d as int]@[i].0 == o
                        && #[trigger] self.drawers@[d as int]@[i].1 == k;
                assert(filed@[i].0 == o);
            }
        }
        false
    }
}

// ---------------------------------------------------------------------------
// Unresolved symbols
// ---------------------------------------------------------------------------

/// A strong undefined import. Weak ones may stay 0.
pub open spec fn is_strong_import(symbol: DynSymbolView) -> bool {
    symbol.undefined && symbol.binding is Global
}

/// What a symbol of an object asks for.
pub open spec fn import_of(object: ElfView, symbol: DynSymbolView) -> (Seq<char>, Option<Seq<char>>) {
    (symbol.name, object.needed_version(symbol.version_index))
}

/// What the first `n` symbols of an object ask for in vain, each once.
pub open spec fn open_imports(objects: Seq<ElfView>, o: int, n: int) -> Seq<
    (Seq<char>, Option<Seq<char>>),
>
    decreases n,
{
    if n <= 0 {
        Seq::empty()
    } else {
        let rest = open_imports(objects, o, n - 1);
        let symbol = objects[o].symbols[n - 1];
        let import = import_of(objects[o], symbol);
        if is_strong_import(symbol) && !satisfied(objects, import.0, import.1) && !rest.contains(
            import,
        ) {
            rest.push(import)
        } else {
            rest
        }
    }
}

/// What an object called `label` asks for in vain.
pub open spec fn unresolved_in(
    imports: Seq<(Seq<char>, Option<Seq<char>>)>,
    label: Seq<char>,
) -> Seq<UnresolvedView> {
    Seq::new(
        imports.len(),
        |i: int| UnresolvedView { name: imports[i].0, version: imports[i].1, object: label },
    )
}

/// What the first `n` objects ask for in vain.
pub open spec fn unresolved_to(objects: Seq<ElfView>, labels: Seq<Seq<char>>, n: int) -> Seq<
    UnresolvedView,
>
    decreases n,
{
    if n <= 0 {
        Seq::empty()
    } else {
        unresolved_to(objects, labels, n - 1) + unresolved_in(
            open_imports(objects, n - 1, objects[n - 1].symbols.len() as int),
            labels[n - 1],
        )
    }
}

/// What unresolved symbols are sorted by.
pub open spec fn unresolved_keys(list: Seq<UnresolvedView>) -> Seq<(Seq<char>, Seq<char>)> {
    Seq::new(list.len(), |i: int| (list[i].name, list[i].object))
}

/// What the objects ask for in vain, by name and object.
pub open spec fn unresolved_of(objects: Seq<ElfView>, labels: Seq<Seq<char>>) -> Seq<
    UnresolvedView,
> {
    let list = unresolved_to(objects, labels, objects.len() as int);
    order::arranged(list, order::stable_order(unresolved_keys(list)))
}

/// Whether a version is the one that an import of a list has.
fn same_version(a: &Option<String>, b: Option<&str>) -> (r: bool)
    ensures
        r == (a.deep_view() == b.deep_view()),
{
    match (a, b) {
        (Some(x), Some(y)) => text::same_text(x.as_str(), y),
        (None, None) => true,
        _ => false,
    }
}

/// Whether a list, from `start` on, holds an import.
fn has_import(list: &Vec<UnresolvedSymbol>, start: usize, name: &str, version: Option<&str>) -> (r:
    bool)
    requires
        start <= list@.len(),
    ensures
        r == exists|i: int|
            start <= i < list@.len() && (#[trigger] list@[i]).name@ == name@
                && list@[i].version.deep_view() == version.deep_view(),
{
    let mut i: usize = start;
    while i < list.len()
        invariant
            start <= i <= list@.len(),
            forall|k: int|
                start <= k < i ==> !((#[trigger] list@[k]).name@ == name@
                    && list@[k].version.deep_view() == version.deep_view()),
        decreases list@.len() - i,
    {
        if text::same_text(list[i].name.as_str(), name) && same_version(&list[i].version, version) {
            return true;
        }
        i += 1;
    }
    false
}

/// Appends what one object asks for in vain.
fn push_unresolved(
    out: &mut Vec<UnresolvedSymbol>,
    definitions: &Definitions,
    objects: &Vec<ElfFile>,
    o: usize,
    label: &str,
)
    requires
        o < objects@.len(),
        definitions.in_range(objects.deep_view()),
        definitions.filed_to(objects.deep_view(), objects@.len() as int, 0),
    ensures
        final(out).deep_view() == old(out).deep_view() + unresolved_in(
            open_imports(
                objects.deep_view(),
                o as int,
                objects.deep_view()[o as int].symbols.len() as int,
            ),
            label@,
        ),
{
    let ghost all = objects.deep_view();
    let ghost before = out.deep_view();
    let start: usize = out.len();
    let object: &ElfFile = &objects[o];
    assert(all[o as int] == object.deep_view());
    let mut n: usize = 0;
    assert(before + unresolved_in(open_imports(all, o as int, 0), label@) =~= before);
    while n < object.symbols.len()
        invariant
            n <= object.symbols@.len(),
            o < objects@.len(),
            all == objects.deep_view(),
            all[o as int] == object.deep_view(),
            definitions.in_range(all),
            definitions.filed_to(all, objects@.len() as int, 0),
            start == before.len(),
            out.deep_view() == before + unresolved_in(
                open_imports(all, o as int, n as int),
                label@,
            ),
        decreases object.symbols@.len() - n,
    {
        let ghost imports = open_imports(all, o as int, n as int);
        let ghost so_far = out.deep_view();
        assert(out@.len() == so_far.len());
        let symbol: &DynSymbol = &object.symbols[n];
        assert(all[o as int].symbols[n as int] == symbol.deep_view());
        let strong: bool = match symbol.binding {
            Binding::Global => symbol.undefined,
            _ => false,
        };
        if strong {
            let version: Option<&str> = object.version_name(symbol.version_index);
            let ghost import = import_of(all[o as int], symbol.deep_view());
            assert(import == (symbol.name@, version.deep_view()));
            if !definitions.satisfy(objects, symbol.name.as_str(), version) {
                let known: bool = has_import(out, start, symbol.name.as_str(), version);
                assert(known == imports.contains(import)) by {
                    assert forall|i: int| start <= i < out@.len() implies (
                    #[trigger] out@[i]).deep_view() == unresolved_in(imports, label@)[i - start] by {
                        assert(out.deep_view()[i] == out@[i].deep_view());
                    }
                    if known {
                        let i = choose|i: int|
                            start <= i < out@.len() && (#[trigger] out@[i]).name@ == symbol.name@
                                && out@[i].version.deep_view() == version.deep_view();
                        assert(imports[i - start] == import);
                    }
                    if imports.contains(import) {
                        let i = choose|i: int| 0 <= i < imports.len() && imports[i] == import;
                        assert(out@[i + start].deep_view() == unresolved_in(imports, label@)[i]);
                    }
                }
                if !known {
                    let version: Option<String> = match version {
                        Some(v) => Some(v.to_owned()),
                        None => None,
                    };
                    let finding: UnresolvedSymbol = UnresolvedSymbol {
                        name: symbol.name.clone(),
                        version,
                        object: label.to_owned(),
                    };
                    let ghost added = finding.deep_view();
                    out.push(finding);
                    assert(out.deep_view() =~= so_far.push(added));
                    assert(so_far.push(added) =~= before + unresolved_in(
                        imports.push(import),
                        label@,
                    ));
                }
            }
        }
        n += 1;
    }
}

/// A copy of an unresolved symbol.
fn copy_unresolved(symbol: &UnresolvedSymbol) -> (r: UnresolvedSymbol)
    ensures
        r.deep_view() == symbol.deep_view(),
{
    UnresolvedSymbol {
        name: symbol.name.clone(),
        version: match &symbol.version {
            Some(v) => Some(v.clone()),
            None => None,
        },
        object: symbol.object.clone(),
    }
}

/// Unresolved symbols by name and object.
fn sort_unresolved(list: &Vec<UnresolvedSymbol>) -> (r: Vec<UnresolvedSymbol>)
    ensures
        r.deep_view() == order::arranged(
            list.deep_view(),
            order::stable_order(unresolved_keys(list.deep_view())),
        ),
{
    let ghost all = list.deep_view();
    let ghost want_keys = unresolved_keys(all);
    let mut keys: Vec<(Vec<char>, Vec<char>)> = Vec::new();
    let mut i: usize = 0;
    while i < list.len()
        invariant
            i <= list@.len(),
            all == list.deep_view(),
            want_keys == unresolved_keys(all),
            keys.deep_view() == want_keys.take(i as int),
        decreases list@.len() - i,
    {
        let ghost so_far = keys.deep_view();
        let key: (Vec<char>, Vec<char>) = (
            text::chars_of(list[i].name.as_str()),
            text::chars_of(list[i].object.as_str()),
        );
        let ghost added = key.deep_view();
        assert(all[i as int] == list@[i as int].deep_view());
        assert(added.0 =~= all[i as int].name);
        assert(added.1 =~= all[i as int].object);
        keys.push(key);
        assert(keys.deep_view() =~= so_far.push(added));
        i += 1;
        assert(keys.deep_view() =~= want_keys.take(i as int));
    }
    assert(keys.deep_view() =~= want_keys);
    let sorted: Vec<usize> = order::sort_order(&keys);
    let ghost want = order::arranged(all, order::stable_order(want_keys));
    assert(want.len() == sorted@.len()) by {
        assert(order::indices(sorted@).len() == sorted@.len());
    }
    let mut out: Vec<UnresolvedSymbol> = Vec::new();
    let mut j: usize = 0;
    assert(out.deep_view() =~= want.take(0));
    while j < sorted.len()
        invariant
            j <= sorted@.len(),
            all == list.deep_view(),
            want == order::arranged(all, order::stable_order(want_keys)),
            want.len() == sorted@.len(),
            order::indices(sorted@) == order::stable_order(want_keys),
            forall|k: int| 0 <= k < sorted@.len() ==> #[trigger] sorted@[k] < list@.len(),
            out.deep_view() == want.take(j as int),
        decreases sorted@.len() - j,
    {
        let ghost so_far = out.deep_view();
        let at: usize = sorted[j];
        assert(order::indices(sorted@)[j as int] == at);
        let item: UnresolvedSymbol = copy_unresolved(&list[at]);
        let ghost added = item.deep_view();
        assert(added == want[j as int]);
        out.push(item);
        assert(out.deep_view() =~= so_far.push(added));
        j += 1;
        assert(out.deep_view() =~= want.take(j as int));
    }
    assert(out.deep_view() =~= want);
    out
}

/// Lists the symbols that no object of the graph defines.
///
/// A symbol is resolved if some object in the graph defines it: that is the
/// global scope the loader builds before relocating.
pub fn unresolved_symbols(objects: &Vec<ElfFile>, labels: &Vec<String>) -> (r: Vec<
    UnresolvedSymbol,
>)
    requires
        labels@.len() == objects@.len(),
    ensures
        r.deep_view() == unresolved_of(objects.deep_view(), labels.deep_view()),
{
    let ghost all = objects.deep_view();
    let ghost names = labels.deep_view();
    let definitions: Definitions = Definitions::of(objects);
    let mut list: Vec<UnresolvedSymbol> = Vec::new();
    let mut o: usize = 0;
    assert(list.deep_view() =~= Seq::<UnresolvedView>::empty());
    while o < objects.len()
        invariant
            o <= objects@.len(),
            labels@.len() == objects@.len(),
            all == objects.deep_view(),
            names == labels.deep_view(),
            definitions.in_range(all),
            definitions.filed_to(all, objects@.len() as int, 0),
            list.deep_view() == unresolved_to(all, names, o as int),
        decreases objects@.len() - o,
    {
        push_unresolved(&mut list, &definitions, objects, o, labels[o].as_str());
        assert(names[o as int] == labels@[o as int]@);
        o += 1;
    }
    sort_unresolved(&list)
}

// ---------------------------------------------------------------------------
// The closest version
// ---------------------------------------------------------------------------

/// The number of a version under a prefix.
pub open spec fn number_under(prefix: Seq<char>, version: Seq<char>) -> Option<u32> {
    if text::starts_with(version, prefix) {
        text::number(version.skip(prefix.len() as int))
    } else {
        None
    }
}

/// The highest of some versions under a prefix that is below a number; the last
/// one where several are.
pub open spec fn highest_below(provided: Seq<Seq<char>>, prefix: Seq<char>, limit: u32) -> Option<
    (u32, Seq<char>),
>
    decreases provided.len(),
{
    if provided.len() == 0 {
        None
    } else {
        let rest = highest_below(provided.drop_last(), prefix, limit);
        match number_under(prefix, provided.last()) {
            Some(n) => if n < limit && (rest matches Some(best) ==> n >= best.0) {
                Some((n, provided.last()))
            } else {
                rest
            },
            None => rest,
        }
    }
}

/// The closest older version. Versions are told apart by the number behind
/// their last dot.
pub open spec fn closest_of(provided: Seq<Seq<char>>, required: Seq<char>) -> Option<Seq<char>> {
    let at = text::after_last(required, '.');
    if at == 0 {
        None
    } else {
        match text::number(required.skip(at)) {
            None => None,
            Some(limit) => match highest_below(provided, required.take(at), limit) {
                Some(best) => Some(best.1),
                None => None,
            },
        }
    }
}

/// The closest version the system does provide, for "provides 2.41" messages.
pub fn best_provided(provided: &Vec<String>, required: &str) -> (r: Option<String>)
    ensures
        r.deep_view() == closest_of(provided.deep_view(), required@),
{
    let chars: Vec<char> = text::chars_of(required);
    let at: usize = text::find_after_last(chars.as_slice(), '.');
    if at == 0 {
        return None;
    }
    let prefix: &[char] = slice_subrange(chars.as_slice(), 0, at);
    let digits: &[char] = slice_subrange(chars.as_slice(), at, chars.len());
    assert(prefix@ =~= required@.take(at as int));
    assert(digits@ =~= required@.skip(at as int));
    let limit: u32 = match text::parse_number(digits) {
        Some(limit) => limit,
        None => {
            return None;
        },
    };
    let ghost all = provided.deep_view();
    let mut best: Option<(u32, usize)> = None;
    let mut i: usize = 0;
    assert(all.take(0) =~= Seq::<Seq<char>>::empty());
    while i < provided.len()
        invariant
            i <= provided@.len(),
            all == provided.deep_view(),
            best is Some <==> highest_below(all.take(i as int), prefix@, limit) is Some,
            best matches Some((n, k)) ==> k < i && highest_below(
                all.take(i as int),
                prefix@,
                limit,
            ) == Some((n, all[k as int])),
        decreases provided@.len() - i,
    {
        assert(all.take(i + 1).drop_last() =~= all.take(i as int));
        assert(all[i as int] == provided@[i as int]@);
        let version: Vec<char> = text::chars_of(provided[i].as_str());
        if text::begins_with(version.as_slice(), prefix) {
            let rest: &[char] = slice_subrange(version.as_slice(), prefix.len(), version.len());
            assert(rest@ =~= version@.skip(prefix@.len() as int));
            match text::parse_number(rest) {
                Some(n) => {
                    let newer: bool = match best {
                        Some((m, _)) => n >= m,
                        None => true,
                    };
                    if n < limit && newer {
                        best = Some((n, i));
                    }
                },
                None => {},
            }
        }
        i += 1;
    }
    assert(all.take(i as int) =~= all);
    match best {
        Some((_, k)) => Some(provided[k].clone()),
        None => None,
    }
}

pub proof fn lemma_highest_below(provided: Seq<Seq<char>>, prefix: Seq<char>, limit: u32)
    ensures
        highest_below(provided, prefix, limit) matches Some((n, v)) ==> provided.contains(v)
            && number_under(prefix, v) == Some(n) && n < limit,
        forall|i: int|
            0 <= i < provided.len() ==> (number_under(prefix, #[trigger] provided[i]) matches Some(
                m,
            ) ==> m < limit ==> highest_below(provided, prefix, limit) is Some && (highest_below(
                provided,
                prefix,
                limit,
            )->0).0 >= m),
    decreases provided.len(),
{
    if provided.len() > 0 {
        let front = provided.drop_last();
        lemma_highest_below(front, prefix, limit);
        assert(provided[provided.len() - 1] == provided.last());
        match highest_below(front, prefix, limit) {
            Some((_, v)) => {
                let k = choose|k: int| 0 <= k < front.len() && front[k] == v;
                assert(provided[k] == v);
            },
            None => {},
        }
        assert forall|i: int| 0 <= i < provided.len() implies (number_under(
            prefix,
            #[trigger] provided[i],
        ) matches Some(m) ==> m < limit ==> highest_below(provided, prefix, limit) is Some && (
        highest_below(provided, prefix, limit)->0).0 >= m) by {
            if i < front.len() {
                assert(front[i] == provided[i]);
            }
        }
    }
}

/// The closest version is one that is provided, and older than the required
/// one; and no provided version that is older is newer than it. Where one is
/// provided that is older, one is named.
pub proof fn the_closest_version_is_the_newest_older_one(
    provided: Seq<Seq<char>>,
    required: Seq<char>,
    other: int,
)
    requires
        0 <= other < provided.len(),
    ensures
        ({
            let at = text::after_last(required, '.');
            let prefix = required.take(at);
            let limit = text::number(required.skip(at));
            &&& closest_of(provided, required) matches Some(v) ==> provided.contains(v) && (
            number_under(prefix, v) matches Some(n) && (limit matches Some(l) && n < l))
            &&& at > 0 && limit is Some && (number_under(prefix, provided[other]) matches Some(m)
                && m < limit->0) ==> (closest_of(provided, required) matches Some(v) && (
            number_under(prefix, v) matches Some(n) && n >= number_under(
                prefix,
                provided[other],
            )->0))
        }),
{
    let at = text::after_last(required, '.');
    match text::number(required.skip(at)) {
        Some(limit) => {
            lemma_highest_below(provided, required.take(at), limit);
        },
        None => {},
    }
}

// ---------------------------------------------------------------------------
// Version problems
// ---------------------------------------------------------------------------

/// The versions that an object needs, each with the library that it needs it
/// from.
pub open spec fn wants(needs: Seq<VersionNeedView>) -> Seq<(Seq<char>, Seq<char>)>
    decreases needs.len(),
{
    if needs.len() == 0 {
        Seq::empty()
    } else {
        wants(needs.drop_last()) + Seq::new(
            needs.last().versions.len(),
            |i: int| (needs.last().file, needs.last().versions[i]),
        )
    }
}

/// The findings of a walk that version questions are answered by.
pub struct Graph {
    pub keys: Seq<Seq<char>>,
    pub objects: Seq<ElfView>,
    pub libraries: Seq<LibraryView>,
    pub places: Seq<Seq<char>>,
}

/// The place of a text in a list.
pub open spec fn index_in(list: Seq<Seq<char>>, item: Seq<char>) -> Option<int>
    decreases list.len(),
{
    if list.len() == 0 {
        None
    } else {
        match index_in(list.drop_last(), item) {
            Some(i) => Some(i),
            None => if list.last() == item {
                Some(list.len() - 1)
            } else {
                None
            },
        }
    }
}

impl Graph {
    /// The path and the object that a library name leads to, where it was
    /// found.
    pub open spec fn provider(self, file: Seq<char>) -> Option<(Seq<char>, ElfView)> {
        match walk::library_at(self.libraries, file) {
            None => None,
            Some(i) => match self.libraries[i].resolution {
                ResolutionView::Found(path) => match index_in(self.keys, self.places[i]) {
                    Some(k) => Some((path, self.objects[k])),
                    None => None,
                },
                _ => None,
            },
        }
    }

    /// A version is needed from a library that was found and does not define
    /// it.
    pub open spec fn lacks(self, want: (Seq<char>, Seq<char>)) -> bool {
        self.provider(want.0) matches Some((_, library)) && !library.defined_versions.contains(
            want.1,
        )
    }

    /// The first `n` of some needed versions that are lacking, each once.
    pub open spec fn lacking(self, all: Seq<(Seq<char>, Seq<char>)>, n: int) -> Seq<
        (Seq<char>, Seq<char>),
    >
        decreases n,
    {
        if n <= 0 {
            Seq::empty()
        } else {
            let rest = self.lacking(all, n - 1);
            if self.lacks(all[n - 1]) && !rest.contains(all[n - 1]) {
                rest.push(all[n - 1])
            } else {
                rest
            }
        }
    }

    /// What is said of a version that is lacking.
    pub open spec fn version_problem(
        self,
        label: Seq<char>,
        want: (Seq<char>, Seq<char>),
    ) -> VersionView {
        let (path, library) = self.provider(want.0)->0;
        VersionView {
            object: label,
            library: want.0,
            required: want.1,
            library_path: Some(path),
            best_provided: closest_of(library.defined_versions, want.1),
        }
    }

    /// What is said of the versions that an object called `label` lacks.
    pub open spec fn problems_of(self, label: Seq<char>, lacking: Seq<(Seq<char>, Seq<char>)>) -> Seq<
        VersionView,
    > {
        Seq::new(lacking.len(), |i: int| self.version_problem(label, lacking[i]))
    }

    /// What is said of the versions that the first `n` objects lack.
    pub open spec fn problems_to(self, labels: Seq<Seq<char>>, n: int) -> Seq<VersionView>
        decreases n,
    {
        if n <= 0 {
            Seq::empty()
        } else {
            let all = wants(self.objects[n - 1].version_needs);
            self.problems_to(labels, n - 1) + self.problems_of(
                labels[n - 1],
                self.lacking(all, all.len() as int),
            )
        }
    }

    /// What is said of the versions that are lacking, by library and version.
    pub open spec fn version_problems(self, labels: Seq<Seq<char>>) -> Seq<VersionView> {
        let list = self.problems_to(labels, self.objects.len() as int);
        order::arranged(list, order::stable_order(version_keys(list)))
    }
}

/// What version problems are sorted by.
pub open spec fn version_keys(list: Seq<VersionView>) -> Seq<(Seq<char>, Seq<char>)> {
    Seq::new(list.len(), |i: int| (list[i].library, list[i].required))
}

/// The graph that some findings make.
pub open spec fn graph_of(
    keys: Seq<Seq<char>>,
    objects: Seq<ElfView>,
    libraries: Seq<LibraryView>,
    places: Seq<Seq<char>>,
) -> Graph {
    Graph { keys, objects, libraries, places }
}

/// A library that was found: where, and which object it is.
struct Provider {
    library: usize,
    object: usize,
}

/// Finds a text in a list.
fn find_index(list: &Vec<String>, item: &str) -> (r: Option<usize>)
    ensures
        r is Some <==> index_in(list.deep_view(), item@) is Some,
        r matches Some(i) ==> i < list@.len() && index_in(list.deep_view(), item@) == Some(
            i as int,
        ),
{
    let ghost all = list.deep_view();
    let mut i: usize = 0;
    assert(all.take(0) =~= Seq::<Seq<char>>::empty());
    while i < list.len()
        invariant
            i <= list@.len(),
            all == list.deep_view(),
            index_in(all.take(i as int), item@) is None,
        decreases list@.len() - i,
    {
        assert(all.take(i + 1).drop_last() =~= all.take(i as int));
        assert(all[i as int] == list@[i as int]@);
        if text::same_text(list[i].as_str(), item) {
            proof {
                lemma_index_stays(all, i + 1, item@);
            }
            return Some(i);
        }
        i += 1;
    }
    assert(all.take(i as int) =~= all);
    None
}

/// An index in front is the one that is found.
proof fn lemma_index_stays(list: Seq<Seq<char>>, n: int, item: Seq<char>)
    requires
        0 <= n <= list.len(),
        index_in(list.take(n), item) is Some,
    ensures
        index_in(list, item) == index_in(list.take(n), item),
    decreases list.len() - n,
{
    if n < list.len() {
        assert(list.take(n + 1).drop_last() =~= list.take(n));
        lemma_index_stays(list, n + 1, item);
    } else {
        assert(list.take(n) =~= list);
    }
}

/// Finds the library that a name leads to.
fn find_provider(
    keys: &Vec<String>,
    objects: &Vec<ElfFile>,
    libraries: &Vec<LibraryFinding>,
    places: &Vec<String>,
    file: &str,
) -> (r: Option<Provider>)
    requires
        keys@.len() == objects@.len(),
        places@.len() == libraries@.len(),
    ensures
        ({
            let graph = graph_of(
                keys.deep_view(),
                objects.deep_view(),
                libraries.deep_view(),
                places.deep_view(),
            );
            &&& r is Some <==> graph.provider(file@) is Some
            &&& r matches Some(p) ==> p.library < libraries@.len() && p.object < objects@.len() && (
            libraries@[p.library as int].resolution matches LibResolution::Found(path)
                && graph.provider(file@) == Some(
                (path@, objects@[p.object as int].deep_view()),
            ))
        }),
{
    match walk::find_library(libraries, file) {
        None => None,
        Some(i) => {
            assert(libraries.deep_view()[i as int] == libraries@[i as int].deep_view());
            assert(places.deep_view()[i as int] == places@[i as int]@);
            match &libraries[i].resolution {
                LibResolution::Found(_) => match find_index(keys, places[i].as_str()) {
                    Some(k) => {
                        assert(objects.deep_view()[k as int] == objects@[k as int].deep_view());
                        Some(Provider { library: i, object: k })
                    },
                    None => None,
                },
                _ => None,
            }
        },
    }
}

/// Lists the versions that an object needs.
fn list_wants(needs: &Vec<VersionNeed>) -> (r: Vec<(String, String)>)
    ensures
        r.deep_view() == wants(needs.deep_view()),
{
    let ghost all = needs.deep_view();
    let mut out: Vec<(String, String)> = Vec::new();
    let mut i: usize = 0;
    assert(all.take(0) =~= Seq::<VersionNeedView>::empty());
    assert(out.deep_view() =~= Seq::<(Seq<char>, Seq<char>)>::empty());
    while i < needs.len()
        invariant
            i <= needs@.len(),
            all == needs.deep_view(),
            out.deep_view() == wants(all.take(i as int)),
        decreases needs@.len() - i,
    {
        let ghost before = out.deep_view();
        let need: &VersionNeed = &needs[i];
        let ghost view = need.deep_view();
        assert(all[i as int] == view);
        assert(all.take(i + 1).drop_last() =~= all.take(i as int));
        let ghost added = Seq::new(view.versions.len(), |k: int| (view.file, view.versions[k]));
        let mut j: usize = 0;
        assert(before + added.take(0) =~= before);
        while j < need.versions.len()
            invariant
                j <= need.versions@.len(),
                view == need.deep_view(),
                added == Seq::new(view.versions.len(), |k: int| (view.file, view.versions[k])),
                out.deep_view() == before + added.take(j as int),
            decreases need.versions@.len() - j,
        {
            let ghost so_far = out.deep_view();
            let want: (String, String) = (need.file.clone(), need.versions[j].clone());
            let ghost one = want.deep_view();
            assert(one == added[j as int]);
            out.push(want);
            assert(out.deep_view() =~= so_far.push(one));
            j += 1;
            assert(out.deep_view() =~= before + added.take(j as int));
        }
        assert(added.take(j as int) =~= added);
        assert(all.take(i + 1).last() == view);
        assert(wants(all.take(i + 1)) =~= before + added);
        i += 1;
    }
    assert(all.take(i as int) =~= all);
    out
}

/// Whether a list, from `start` on, holds a problem with this version.
fn has_problem(list: &Vec<VersionProblem>, start: usize, library: &str, required: &str) -> (r: bool)
    requires
        start <= list@.len(),
    ensures
        r == exists|i: int|
            start <= i < list@.len() && (#[trigger] list@[i]).library@ == library@
                && list@[i].required@ == required@,
{
    let mut i: usize = start;
    while i < list.len()
        invariant
            start <= i <= list@.len(),
            forall|k: int|
                start <= k < i ==> !((#[trigger] list@[k]).library@ == library@
                    && list@[k].required@ == required@),
        decreases list@.len() - i,
    {
        if text::same_text(list[i].library.as_str(), library) && text::same_text(
            list[i].required.as_str(),
            required,
        ) {
            return true;
        }
        i += 1;
    }
    false
}

/// Appends what is said of the versions that one object lacks.
fn push_problems(
    out: &mut Vec<VersionProblem>,
    keys: &Vec<String>,
    objects: &Vec<ElfFile>,
    libraries: &Vec<LibraryFinding>,
    places: &Vec<String>,
    o: usize,
    label: &str,
)
    requires
        o < objects@.len(),
        keys@.len() == objects@.len(),
        places@.len() == libraries@.len(),
    ensures
        ({
            let graph = graph_of(
                keys.deep_view(),
                objects.deep_view(),
                libraries.deep_view(),
                places.deep_view(),
            );
            let all = wants(objects.deep_view()[o as int].version_needs);
            final(out).deep_view() == old(out).deep_view() + graph.problems_of(
                label@,
                graph.lacking(all, all.len() as int),
            )
        }),
{
    let ghost graph = graph_of(
        keys.deep_view(),
        objects.deep_view(),
        libraries.deep_view(),
        places.deep_view(),
    );
    let ghost before = out.deep_view();
    let start: usize = out.len();
    assert(objects.deep_view()[o as int] == objects@[o as int].deep_view());
    let list: Vec<(String, String)> = list_wants(&objects[o].version_needs);
    let ghost all = list.deep_view();
    let mut n: usize = 0;
    assert(before + graph.problems_of(label@, graph.lacking(all, 0)) =~= before);
    while n < list.len()
        invariant
            n <= list@.len(),
            keys@.len() == objects@.len(),
            places@.len() == libraries@.len(),
            graph == graph_of(
                keys.deep_view(),
                objects.deep_view(),
                libraries.deep_view(),
                places.deep_view(),
            ),
            all == list.deep_view(),
            start == before.len(),
            out.deep_view() == before + graph.problems_of(label@, graph.lacking(all, n as int)),
        decreases list@.len() - n,
    {
        let ghost lacking = graph.lacking(all, n as int);
        let ghost so_far = out.deep_view();
        assert(out@.len() == so_far.len());
        let file: &str = list[n].0.as_str();
        let required: &str = list[n].1.as_str();
        let ghost want = all[n as int];
        assert(want == (file@, required@));
        match find_provider(keys, objects, libraries, places, file) {
            Some(provider) => {
                let library: &ElfFile = &objects[provider.object];
                assert(library.deep_view().defined_versions
                    == library.defined_versions.deep_view());
                if !text::has_text(&library.defined_versions, required) {
                    let known: bool = has_problem(out, start, file, required);
                    assert(known == lacking.contains(want)) by {
                        assert forall|i: int| start <= i < out@.len() implies (
                        #[trigger] out@[i]).deep_view() == graph.problems_of(label@, lacking)[i
                            - start] by {
                            assert(out.deep_view()[i] == out@[i].deep_view());
                        }
                        if known {
                            let i = choose|i: int|
                                start <= i < out@.len() && (#[trigger] out@[i]).library@ == file@
                                    && out@[i].required@ == required@;
                            assert(lacking[i - start] == want);
                        }
                        if lacking.contains(want) {
                            let i = choose|i: int| 0 <= i < lacking.len() && lacking[i] == want;
                            assert(out@[i + start].deep_view() == graph.problems_of(
                                label@,
                                lacking,
                            )[i]);
                        }
                    }
                    if !known {
                        let path: String = match &libraries[provider.library].resolution {
                            LibResolution::Found(path) => path.clone(),
                            _ => String::new(),
                        };
                        let problem: VersionProblem = VersionProblem {
                            object: label.to_owned(),
                            library: file.to_owned(),
                            required: required.to_owned(),
                            library_path: Some(path),
                            best_provided: best_provided(&library.defined_versions, required),
                        };
                        let ghost added = problem.deep_view();
                        assert(added == graph.version_problem(label@, want));
                        out.push(problem);
                        assert(out.deep_view() =~= so_far.push(added));
                        assert(so_far.push(added) =~= before + graph.problems_of(
                            label@,
                            lacking.push(want),
                        ));
                    }
                }
            },
            None => {},
        }
        n += 1;
    }
}

/// A copy of a version problem.
fn copy_problem(problem: &VersionProblem) -> (r: VersionProblem)
    ensures
        r.deep_view() == problem.deep_view(),
{
    VersionProblem {
        object: problem.object.clone(),
        library: problem.library.clone(),
        required: problem.required.clone(),
        library_path: match &problem.library_path {
            Some(path) => Some(path.clone()),
            None => None,
        },
        best_provided: match &problem.best_provided {
            Some(version) => Some(version.clone()),
            None => None,
        },
    }
}

/// Version problems by library and version.
fn sort_problems(list: &Vec<VersionProblem>) -> (r: Vec<VersionProblem>)
    ensures
        r.deep_view() == order::arranged(
            list.deep_view(),
            order::stable_order(version_keys(list.deep_view())),
        ),
{
    let ghost all = list.deep_view();
    let ghost want_keys = version_keys(all);
    let mut keys: Vec<(Vec<char>, Vec<char>)> = Vec::new();
    let mut i: usize = 0;
    while i < list.len()
        invariant
            i <= list@.len(),
            all == list.deep_view(),
            want_keys == version_keys(all),
            keys.deep_view() == want_keys.take(i as int),
        decreases list@.len() - i,
    {
        let ghost so_far = keys.deep_view();
        let key: (Vec<char>, Vec<char>) = (
            text::chars_of(list[i].library.as_str()),
            text::chars_of(list[i].required.as_str()),
        );
        let ghost added = key.deep_view();
        assert(all[i as int] == list@[i as int].deep_view());
        assert(added.0 =~= all[i as int].library);
        assert(added.1 =~= all[i as int].required);
        keys.push(key);
        assert(keys.deep_view() =~= so_far.push(added));
        i += 1;
        assert(keys.deep_view() =~= want_keys.take(i as int));
    }
    assert(keys.deep_view() =~= want_keys);
    let sorted: Vec<usize> = order::sort_order(&keys);
    let ghost want = order::arranged(all, order::stable_order(want_keys));
    assert(want.len() == sorted@.len()) by {
        assert(order::indices(sorted@).len() == sorted@.len());
    }
    let mut out: Vec<VersionProblem> = Vec::new();
    let mut j: usize = 0;
    assert(out.deep_view() =~= want.take(0));
    while j < sorted.len()
        invariant
            j <= sorted@.len(),
            all == list.deep_view(),
            want == order::arranged(all, order::stable_order(want_keys)),
            want.len() == sorted@.len(),
            order::indices(sorted@) == order::stable_order(want_keys),
            forall|k: int| 0 <= k < sorted@.len() ==> #[trigger] sorted@[k] < list@.len(),
            out.deep_view() == want.take(j as int),
        decreases sorted@.len() - j,
    {
        let ghost so_far = out.deep_view();
        let at: usize = sorted[j];
        assert(order::indices(sorted@)[j as int] == at);
        let item: VersionProblem = copy_problem(&list[at]);
        let ghost added = item.deep_view();
        assert(added == want[j as int]);
        out.push(item);
        assert(out.deep_view() =~= so_far.push(added));
        j += 1;
        assert(out.deep_view() =~= want.take(j as int));
    }
    assert(out.deep_view() =~= want);
    out
}

/// Lists the versions that libraries were found to lack.
///
/// Version requirements are checked per (object, providing library) pair, which
/// is exactly the granularity `.gnu.version_r` records. A missing library is
/// reported as such, not here.
pub fn version_problems(
    keys: &Vec<String>,
    objects: &Vec<ElfFile>,
    libraries: &Vec<LibraryFinding>,
    places: &Vec<String>,
    labels: &Vec<String>,
) -> (r: Vec<VersionProblem>)
    requires
        keys@.len() == objects@.len(),
        places@.len() == libraries@.len(),
        labels@.len() == objects@.len(),
    ensures
        r.deep_view() == graph_of(
            keys.deep_view(),
            objects.deep_view(),
            libraries.deep_view(),
            places.deep_view(),
        ).version_problems(labels.deep_view()),
{
    let ghost graph = graph_of(
        keys.deep_view(),
        objects.deep_view(),
        libraries.deep_view(),
        places.deep_view(),
    );
    let ghost names = labels.deep_view();
    let mut list: Vec<VersionProblem> = Vec::new();
    let mut o: usize = 0;
    assert(list.deep_view() =~= Seq::<VersionView>::empty());
    while o < objects.len()
        invariant
            o <= objects@.len(),
            keys@.len() == objects@.len(),
            places@.len() == libraries@.len(),
            labels@.len() == objects@.len(),
            graph == graph_of(
                keys.deep_view(),
                objects.deep_view(),
                libraries.deep_view(),
                places.deep_view(),
            ),
            names == labels.deep_view(),
            list.deep_view() == graph.problems_to(names, o as int),
        decreases objects@.len() - o,
    {
        push_problems(&mut list, keys, objects, libraries, places, o, labels[o].as_str());
        assert(names[o as int] == labels@[o as int]@);
        o += 1;
    }
    sort_problems(&list)
}

// ---------------------------------------------------------------------------
// Laws
// ---------------------------------------------------------------------------

/// `foo@OTHER` cannot satisfy an import of `foo@VER`: where every definition of
/// a name has another version, nothing satisfies the import.
pub proof fn another_version_does_not_satisfy(
    objects: Seq<ElfView>,
    name: Seq<char>,
    version: Seq<char>,
)
    requires
        forall|o: int, k: int| #[trigger]
            defines(objects, o, k, name) ==> version_at(objects, o, k) is Some && version_at(
                objects,
                o,
                k,
            ) != Some(version),
    ensures
        !satisfied(objects, name, Some(version)),
{
}

/// More objects satisfy no fewer imports.
pub proof fn more_objects_satisfy_no_less(
    objects: Seq<ElfView>,
    more: Seq<ElfView>,
    name: Seq<char>,
    version: Option<Seq<char>>,
)
    requires
        satisfied(objects, name, version),
    ensures
        satisfied(objects + more, name, version),
{
    let all = objects + more;
    let (o, k) = choose|o: int, k: int| #[trigger]
        defines(objects, o, k, name) && (version is None || version_at(objects, o, k) is None
            || version_at(objects, o, k) == version);
    assert(all[o] == objects[o]);
    assert(defines(all, o, k, name));
    assert(version_at(all, o, k) == version_at(objects, o, k));
}

proof fn lemma_open_imports(objects: Seq<ElfView>, o: int, n: int)
    requires
        0 <= o < objects.len(),
        0 <= n <= objects[o].symbols.len(),
    ensures
        forall|k: int|
            0 <= k < n && is_strong_import(#[trigger] objects[o].symbols[k]) && !satisfied(
                objects,
                import_of(objects[o], objects[o].symbols[k]).0,
                import_of(objects[o], objects[o].symbols[k]).1,
            ) ==> open_imports(objects, o, n).contains(
                import_of(objects[o], objects[o].symbols[k]),
            ),
        forall|i: int|
            0 <= i < open_imports(objects, o, n).len() ==> asked_in_vain(
                objects,
                o,
                #[trigger] open_imports(objects, o, n)[i],
            ),
        open_imports(objects, o, n).no_duplicates(),
    decreases n,
{
    if n > 0 {
        lemma_open_imports(objects, o, n - 1);
        let rest = open_imports(objects, o, n - 1);
        let whole = open_imports(objects, o, n);
        let symbol = objects[o].symbols[n - 1];
        let import = import_of(objects[o], symbol);
        assert forall|x: (Seq<char>, Option<Seq<char>>)| rest.contains(x) implies #[trigger]
        whole.contains(x) by {
            let i = choose|i: int| 0 <= i < rest.len() && rest[i] == x;
            assert(whole[i] == x);
        }
        assert forall|k: int|
            0 <= k < n && is_strong_import(#[trigger] objects[o].symbols[k]) && !satisfied(
                objects,
                import_of(objects[o], objects[o].symbols[k]).0,
                import_of(objects[o], objects[o].symbols[k]).1,
            ) implies whole.contains(import_of(objects[o], objects[o].symbols[k])) by {
            if k == n - 1 {
                if !rest.contains(import) {
                    assert(whole[rest.len() as int] == import);
                }
            }
        }
        assert forall|i: int| 0 <= i < whole.len() implies asked_in_vain(
            objects,
            o,
            #[trigger] whole[i],
        ) by {
            if i < rest.len() {
                assert(whole[i] == rest[i]);
            } else {
                assert(whole[i] == import_of(objects[o], objects[o].symbols[n - 1]));
            }
        }
        assert forall|a: int, b: int| 0 <= a < b < whole.len() implies whole[a] != whole[b] by {
            if b == rest.len() {
                assert(rest[a] == whole[a]);
                assert(rest.contains(rest[a]));
            }
        }
    }
}

/// Some strong import of an object asks for this, and no object defines it.
pub open spec fn asked_in_vain(
    objects: Seq<ElfView>,
    o: int,
    import: (Seq<char>, Option<Seq<char>>),
) -> bool {
    &&& !satisfied(objects, import.0, import.1)
    &&& exists|k: int|
        0 <= k < objects[o].symbols.len() && is_strong_import(
            #[trigger] objects[o].symbols[k],
        ) && import_of(objects[o], objects[o].symbols[k]) == import
}

proof fn lemma_unresolved_to(objects: Seq<ElfView>, labels: Seq<Seq<char>>, n: int, x: UnresolvedView)
    requires
        labels.len() == objects.len(),
        0 <= n <= objects.len(),
    ensures
        unresolved_to(objects, labels, n).contains(x) <==> exists|o: int|
            0 <= o < n && #[trigger] asked_in_vain(objects, o, (x.name, x.version)) && labels[o]
                == x.object,
    decreases n,
{
    if n > 0 {
        lemma_unresolved_to(objects, labels, n - 1, x);
        let o = n - 1;
        let import = (x.name, x.version);
        let all = open_imports(objects, o, objects[o].symbols.len() as int);
        lemma_open_imports(objects, o, objects[o].symbols.len() as int);
        let front = unresolved_to(objects, labels, n - 1);
        let back = unresolved_in(all, labels[o]);
        let whole = front + back;
        if whole.contains(x) {
            let i = choose|i: int| 0 <= i < whole.len() && whole[i] == x;
            if i < front.len() {
                assert(front[i] == x);
                assert(front.contains(x));
            } else {
                assert(back[i - front.len()] == x);
                assert(all[i - front.len()] == import);
                assert(asked_in_vain(objects, o, import));
            }
        }
        if exists|p: int|
            0 <= p < n && #[trigger] asked_in_vain(objects, p, import) && labels[p] == x.object {
            let p = choose|p: int|
                0 <= p < n && #[trigger] asked_in_vain(objects, p, import) && labels[p]
                    == x.object;
            if p < n - 1 {
                assert(front.contains(x));
                let i = choose|i: int| 0 <= i < front.len() && front[i] == x;
                assert(whole[i] == x);
            } else {
                assert(all.contains(import));
                let i = choose|i: int| 0 <= i < all.len() && all[i] == import;
                assert(back[i] == x);
                assert(whole[front.len() + i] == x);
            }
        }
    }
}

/// A symbol is reported as unresolved exactly where some object has a strong
/// import of it that no object of the graph satisfies.
pub proof fn exactly_the_open_imports_are_reported(
    objects: Seq<ElfView>,
    labels: Seq<Seq<char>>,
    x: UnresolvedView,
)
    requires
        labels.len() == objects.len(),
    ensures
        unresolved_of(objects, labels).contains(x) <==> exists|o: int|
            0 <= o < objects.len() && #[trigger] asked_in_vain(objects, o, (x.name, x.version))
                && labels[o] == x.object,
{
    let list = unresolved_to(objects, labels, objects.len() as int);
    lemma_unresolved_to(objects, labels, objects.len() as int, x);
    order::arranging_keeps_the_items(list, unresolved_keys(list), x);
}

proof fn lemma_lacking(g: Graph, all: Seq<(Seq<char>, Seq<char>)>, n: int)
    requires
        0 <= n <= all.len(),
    ensures
        forall|k: int|
            0 <= k < n && g.lacks(#[trigger] all[k]) ==> g.lacking(all, n).contains(all[k]),
        forall|i: int|
            0 <= i < g.lacking(all, n).len() ==> g.lacks(#[trigger] g.lacking(all, n)[i])
                && all.contains(g.lacking(all, n)[i]),
        g.lacking(all, n).no_duplicates(),
    decreases n,
{
    if n > 0 {
        lemma_lacking(g, all, n - 1);
        let rest = g.lacking(all, n - 1);
        let whole = g.lacking(all, n);
        assert forall|x: (Seq<char>, Seq<char>)| rest.contains(x) implies #[trigger] whole.contains(
            x,
        ) by {
            let i = choose|i: int| 0 <= i < rest.len() && rest[i] == x;
            assert(whole[i] == x);
        }
        assert forall|k: int| 0 <= k < n && g.lacks(#[trigger] all[k]) implies whole.contains(
            all[k],
        ) by {
            if k == n - 1 && !rest.contains(all[k]) {
                assert(whole[rest.len() as int] == all[k]);
            }
        }
        assert forall|i: int| 0 <= i < whole.len() implies g.lacks(#[trigger] whole[i])
            && all.contains(whole[i]) by {
            if i < rest.len() {
                assert(whole[i] == rest[i]);
            } else {
                assert(whole[i] == all[n - 1]);
            }
        }
        assert forall|a: int, b: int| 0 <= a < b < whole.len() implies whole[a] != whole[b] by {
            if b == rest.len() {
                assert(rest[a] == whole[a]);
                assert(rest.contains(rest[a]));
            }
        }
    }
}

proof fn lemma_problems_to(
    g: Graph,
    labels: Seq<Seq<char>>,
    n: int,
    o: int,
    want: (Seq<char>, Seq<char>),
)
    requires
        labels.len() == g.objects.len(),
        0 <= o < n <= g.objects.len(),
        g.lacks(want),
        wants(g.objects[o].version_needs).contains(want),
    ensures
        g.problems_to(labels, n).contains(g.version_problem(labels[o], want)),
    decreases n,
{
    let all = wants(g.objects[n - 1].version_needs);
    let front = g.problems_to(labels, n - 1);
    let lacking = g.lacking(all, all.len() as int);
    let back = g.problems_of(labels[n - 1], lacking);
    let whole = front + back;
    let x = g.version_problem(labels[o], want);
    if o < n - 1 {
        lemma_problems_to(g, labels, n - 1, o, want);
        let i = choose|i: int| 0 <= i < front.len() && front[i] == x;
        assert(whole[i] == x);
    } else {
        lemma_lacking(g, all, all.len() as int);
        let k = choose|k: int| 0 <= k < all.len() && all[k] == want;
        assert(lacking.contains(all[k]));
        let i = choose|i: int| 0 <= i < lacking.len() && lacking[i] == want;
        assert(back[i] == x);
        assert(whole[front.len() + i] == x);
    }
}

/// Every version that an object needs from a library that was found, and that
/// the library does not define, is reported.
pub proof fn every_lacking_version_is_reported(
    g: Graph,
    labels: Seq<Seq<char>>,
    o: int,
    want: (Seq<char>, Seq<char>),
)
    requires
        labels.len() == g.objects.len(),
        0 <= o < g.objects.len(),
        wants(g.objects[o].version_needs).contains(want),
        g.lacks(want),
    ensures
        g.version_problems(labels).contains(g.version_problem(labels[o], want)),
{
    let list = g.problems_to(labels, g.objects.len() as int);
    let x = g.version_problem(labels[o], want);
    lemma_problems_to(g, labels, g.objects.len() as int, o, want);
    order::arranging_keeps_the_items(list, version_keys(list), x);
}

/// An object called by this label needs a version from a library that was found
/// and does not define it.
pub open spec fn is_lacking(g: Graph, labels: Seq<Seq<char>>, o: int, x: VersionView) -> bool {
    &&& 0 <= o < g.objects.len()
    &&& wants(g.objects[o].version_needs).contains((x.library, x.required))
    &&& g.lacks((x.library, x.required))
    &&& x == g.version_problem(labels[o], (x.library, x.required))
}

proof fn lemma_only_problems(g: Graph, labels: Seq<Seq<char>>, n: int, i: int)
    requires
        labels.len() == g.objects.len(),
        0 <= n <= g.objects.len(),
        0 <= i < g.problems_to(labels, n).len(),
    ensures
        exists|o: int| #[trigger] is_lacking(g, labels, o, g.problems_to(labels, n)[i]),
    decreases n,
{
    let all = wants(g.objects[n - 1].version_needs);
    let front = g.problems_to(labels, n - 1);
    let lacking = g.lacking(all, all.len() as int);
    let back = g.problems_of(labels[n - 1], lacking);
    let whole = front + back;
    if i < front.len() {
        lemma_only_problems(g, labels, n - 1, i);
        let o = choose|o: int| #[trigger] is_lacking(g, labels, o, front[i]);
        assert(is_lacking(g, labels, o, whole[i]));
    } else {
        lemma_lacking(g, all, all.len() as int);
        let want = lacking[i - front.len()];
        assert(whole[i] == back[i - front.len()]);
        assert(is_lacking(g, labels, n - 1, whole[i]));
    }
}

/// Only versions that are lacking are reported.
pub proof fn only_lacking_versions_are_reported(g: Graph, labels: Seq<Seq<char>>, x: VersionView)
    requires
        labels.len() == g.objects.len(),
        g.version_problems(labels).contains(x),
    ensures
        exists|o: int| #[trigger] is_lacking(g, labels, o, x),
{
    let list = g.problems_to(labels, g.objects.len() as int);
    order::arranging_keeps_the_items(list, version_keys(list), x);
    let i = choose|i: int| 0 <= i < list.len() && list[i] == x;
    lemma_only_problems(g, labels, g.objects.len() as int, i);
}

proof fn lemma_symbols_differ(objects: Seq<ElfView>, labels: Seq<Seq<char>>, n: int)
    requires
        labels.len() == objects.len(),
        labels.no_duplicates(),
        0 <= n <= objects.len(),
    ensures
        unresolved_to(objects, labels, n).no_duplicates(),
    decreases n,
{
    if n > 0 {
        lemma_symbols_differ(objects, labels, n - 1);
        let o = n - 1;
        let all = open_imports(objects, o, objects[o].symbols.len() as int);
        lemma_open_imports(objects, o, objects[o].symbols.len() as int);
        let front = unresolved_to(objects, labels, n - 1);
        let back = unresolved_in(all, labels[o]);
        let whole = front + back;
        assert forall|i: int, j: int| 0 <= i < j < whole.len() implies whole[i] != whole[j] by {
            let f = front.len() as int;
            if j < f {
                assert(front[i] != front[j]);
            } else if i < f {
                lemma_unresolved_to(objects, labels, n - 1, front[i]);
                assert(front.contains(front[i]));
                assert(back[j - f].object == labels[o]);
            } else {
                assert(all[i - f] != all[j - f]);
                assert(back[i - f] != back[j - f]);
            }
        }
    }
}

proof fn lemma_problems_differ(g: Graph, labels: Seq<Seq<char>>, n: int)
    requires
        labels.len() == g.objects.len(),
        labels.no_duplicates(),
        0 <= n <= g.objects.len(),
    ensures
        g.problems_to(labels, n).no_duplicates(),
        forall|i: int|
            0 <= i < g.problems_to(labels, n).len() ==> exists|o: int|
                0 <= o < n && #[trigger] labels[o] == (#[trigger] g.problems_to(
                    labels,
                    n,
                )[i]).object,
    decreases n,
{
    if n > 0 {
        lemma_problems_differ(g, labels, n - 1);
        let all = wants(g.objects[n - 1].version_needs);
        lemma_lacking(g, all, all.len() as int);
        let lacking = g.lacking(all, all.len() as int);
        let front = g.problems_to(labels, n - 1);
        let back = g.problems_of(labels[n - 1], lacking);
        let whole = front + back;
        let f = front.len() as int;
        assert forall|i: int, j: int| 0 <= i < j < whole.len() implies whole[i] != whole[j] by {
            if j < f {
                assert(front[i] != front[j]);
            } else if i < f {
                let o = choose|o: int| 0 <= o < n - 1 && #[trigger] labels[o] == front[i].object;
                assert(labels[o] != labels[n - 1]);
                assert(back[j - f].object == labels[n - 1]);
            } else {
                assert(lacking[i - f] != lacking[j - f]);
                assert(back[i - f] != back[j - f]);
            }
        }
        assert forall|i: int| 0 <= i < whole.len() implies exists|o: int|
            0 <= o < n && #[trigger] labels[o] == (#[trigger] whole[i]).object by {
            if i < f {
                let o = choose|o: int| 0 <= o < n - 1 && #[trigger] labels[o] == front[i].object;
                assert(labels[o] == whole[i].object);
            } else {
                assert(back[i - f].object == labels[n - 1]);
            }
        }
    }
}

/// Where the objects go by different labels, no unresolved symbol and no
/// version problem is listed twice.
pub proof fn nothing_is_listed_twice(g: Graph, labels: Seq<Seq<char>>)
    requires
        labels.len() == g.objects.len(),
        labels.no_duplicates(),
    ensures
        unresolved_of(g.objects, labels).no_duplicates(),
        g.version_problems(labels).no_duplicates(),
{
    let symbols = unresolved_to(g.objects, labels, g.objects.len() as int);
    lemma_symbols_differ(g.objects, labels, g.objects.len() as int);
    order::arranging_repeats_nothing(symbols, unresolved_keys(symbols));
    let versions = g.problems_to(labels, g.objects.len() as int);
    lemma_problems_differ(g, labels, g.objects.len() as int);
    order::arranging_repeats_nothing(versions, version_keys(versions));
}

/// The report lists unresolved symbols by name and object, and version problems
/// by library and version.
pub proof fn findings_are_sorted(
    g: Graph,
    labels: Seq<Seq<char>>,
    i: int,
    j: int,
)
    ensures
        ({
            let symbols = unresolved_of(g.objects, labels);
            0 <= i < j < symbols.len() ==> !order::pair_less(
                (symbols[j].name, symbols[j].object),
                (symbols[i].name, symbols[i].object),
            )
        }),
        ({
            let versions = g.version_problems(labels);
            0 <= i < j < versions.len() ==> !order::pair_less(
                (versions[j].library, versions[j].required),
                (versions[i].library, versions[i].required),
            )
        }),
{
    let symbols = unresolved_to(g.objects, labels, g.objects.len() as int);
    let a = unresolved_keys(symbols);
    order::order_is_sorted(a);
    order::order_is_a_permutation(a);
    if 0 <= i < j < symbols.len() {
        let order = order::stable_order(a);
        order::pair_order_is_total(a[order[i]], a[order[j]], a[order[i]]);
    }
    let versions = g.problems_to(labels, g.objects.len() as int);
    let b = version_keys(versions);
    order::order_is_sorted(b);
    order::order_is_a_permutation(b);
    if 0 <= i < j < versions.len() {
        let order = order::stable_order(b);
        order::pair_order_is_total(b[order[i]], b[order[j]], b[order[i]]);
    }
}

} // verus!
