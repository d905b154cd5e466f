//! ELF images: what is read from the tables that a well-formed image holds.

use vstd::prelude::*;
use super::{lemma_picked_from_first, name_at, number_at};
use crate::elf;
use crate::elf::reader;
use crate::elf::reader::Endian;
use crate::elf::symbols;
use crate::elf::symbols::IndexedNeedView;
use crate::elf::{Binding, Class, DynSymbolView, SymType};

verus! {

// ---------------------------------------------------------------------------
// Version needs
// ---------------------------------------------------------------------------

/// A record of `.gnu.version_r`: the library that it names, the versions that
/// it needs from it with their indices, and where the record and its versions
/// stand.
pub struct NeedRecord {
    pub file: Seq<char>,
    pub versions: Seq<(u16, Seq<char>)>,
    pub at: int,
    pub aux: Seq<int>,
}

/// Version `j` of a record stands where it says: its index at 6, its name at 8,
/// and the distance to the next one at 12, which is 0 for the last.
pub open spec fn version_stands(
    region: Seq<u8>,
    e: Endian,
    strtab: Seq<u8>,
    r: NeedRecord,
    j: int,
) -> bool {
    let a = r.aux[j];
    let next = number_at(region, e, a + 12, 4);
    &&& 0 <= a && a + 16 <= region.len()
    &&& number_at(region, e, a + 6, 2) == r.versions[j].0
    &&& name_at(strtab, number_at(region, e, a + 8, 4) as int, r.versions[j].1)
    &&& j + 1 < r.aux.len() ==> next > 0 && r.aux[j + 1] == a + next
    &&& j + 1 == r.aux.len() ==> next == 0
}

/// The versions of a record stand where it says, linked by their distances.
pub open spec fn versions_stand(region: Seq<u8>, e: Endian, strtab: Seq<u8>, r: NeedRecord) -> bool {
    &&& r.aux.len() == r.versions.len()
    &&& forall|j: int|
        0 <= j < r.aux.len() ==> #[trigger] version_stands(region, e, strtab, r, j)
}

/// The record stands where it says: the number of its versions at 2, the name
/// of the library at 4, the distance to the first version at 8.
pub open spec fn record_stands(region: Seq<u8>, e: Endian, strtab: Seq<u8>, r: NeedRecord) -> bool {
    &&& 0 <= r.at && r.at + 16 <= region.len()
    &&& r.file.len() > 0
    &&& number_at(region, e, r.at + 2, 2) == r.versions.len()
    &&& name_at(strtab, number_at(region, e, r.at + 4, 4) as int, r.file)
    &&& r.aux.len() > 0 ==> r.aux[0] == r.at + number_at(region, e, r.at + 8, 4)
    &&& versions_stand(region, e, strtab, r)
}

/// The records stand one behind the other, linked by the distances at 12, of
/// which the last one is 0.
pub open spec fn records_stand(
    region: Seq<u8>,
    e: Endian,
    strtab: Seq<u8>,
    records: Seq<NeedRecord>,
) -> bool {
    &&& records.len() > 0
    &&& records[0].at == 0
    &&& forall|i: int|
        0 <= i < records.len() ==> #[trigger] record_leads_on(region, e, strtab, records, i)
}

/// Record `i` stands where it says, and its distance leads to the next one.
pub open spec fn record_leads_on(
    region: Seq<u8>,
    e: Endian,
    strtab: Seq<u8>,
    records: Seq<NeedRecord>,
    i: int,
) -> bool {
    let r = records[i];
    let next = number_at(region, e, r.at + 12, 4);
    &&& record_stands(region, e, strtab, r)
    &&& i + 1 < records.len() ==> next > 0 && records[i + 1].at == r.at + next
    &&& i + 1 == records.len() ==> next == 0
}

proof fn lemma_reads(region: Seq<u8>, e: Endian, at: int)
    requires
        region.len() <= usize::MAX,
        0 <= at,
        at <= usize::MAX,
    ensures
        at + 2 <= region.len() ==> (reader::read_u16(region, e, at as usize) matches Ok(v) && v
            == number_at(region, e, at, 2)),
        at + 4 <= region.len() ==> (reader::read_u32(region, e, at as usize) matches Ok(v) && v
            == number_at(region, e, at, 4)),
{
    super::reads_give_what_stands_there(region, e, at as usize);
}

proof fn lemma_versions_read(
    region: Seq<u8>,
    e: Endian,
    strtab: Seq<u8>,
    r: NeedRecord,
    j: int,
)
    requires
        region.len() <= usize::MAX,
        versions_stand(region, e, strtab, r),
        0 <= j < r.aux.len(),
    ensures
        symbols::aux_from(region, e, strtab, r.aux[j] as usize, (r.aux.len() - j) as nat)
            == r.versions.skip(j),
    decreases r.aux.len() - j,
{
    assert(version_stands(region, e, strtab, r, j));
    let a = r.aux[j];
    let here = (r.versions[j].0, r.versions[j].1);
    lemma_reads(region, e, a + 6);
    lemma_reads(region, e, a + 8);
    lemma_reads(region, e, a + 12);
    super::texts_end_at_the_first_zero(
        strtab,
        number_at(region, e, a + 8, 4) as usize,
        r.versions[j].1,
    );
    assert(r.versions.skip(j) =~= seq![here] + r.versions.skip(j + 1));
    if j + 1 < r.aux.len() {
        assert(version_stands(region, e, strtab, r, j + 1));
        lemma_versions_read(region, e, strtab, r, j + 1);
    } else {
        assert(r.versions.skip(j + 1) =~= Seq::<(u16, Seq<char>)>::empty());
        assert(seq![here] + Seq::<(u16, Seq<char>)>::empty() =~= seq![here]);
    }
}

/// What is read of a record.
pub open spec fn need_of(r: NeedRecord) -> IndexedNeedView {
    IndexedNeedView { file: r.file, indexed: r.versions }
}

proof fn lemma_records_read(
    region: Seq<u8>,
    e: Endian,
    strtab: Seq<u8>,
    records: Seq<NeedRecord>,
    i: int,
    n: nat,
)
    requires
        region.len() <= usize::MAX,
        records_stand(region, e, strtab, records),
        0 <= i < records.len(),
        n >= records.len() - i,
    ensures
        symbols::needs_from(region, e, strtab, records[i].at as usize, n) == records.skip(
            i,
        ).map_values(|r: NeedRecord| need_of(r)),
    decreases records.len() - i,
{
    assert(record_leads_on(region, e, strtab, records, i));
    let r = records[i];
    let all = records.skip(i).map_values(|r: NeedRecord| need_of(r));
    lemma_reads(region, e, r.at + 2);
    lemma_reads(region, e, r.at + 4);
    lemma_reads(region, e, r.at + 8);
    lemma_reads(region, e, r.at + 12);
    super::texts_end_at_the_first_zero(
        strtab,
        number_at(region, e, r.at + 4, 4) as usize,
        r.file,
    );
    if r.aux.len() > 0 {
        assert(version_stands(region, e, strtab, r, 0));
        lemma_versions_read(region, e, strtab, r, 0);
        assert(r.versions.skip(0) =~= r.versions);
    } else {
        assert(r.versions =~= Seq::<(u16, Seq<char>)>::empty());
    }
    let rest = records.skip(i + 1).map_values(|r: NeedRecord| need_of(r));
    assert(all =~= seq![need_of(r)] + rest);
    if i + 1 < records.len() {
        assert(record_leads_on(region, e, strtab, records, i + 1));
        lemma_records_read(region, e, strtab, records, i + 1, (n - 1) as nat);
    } else {
        assert(all =~= seq![need_of(r)]);
    }
}

/// Every record of `.gnu.version_r` is read, in its order, with the library
/// that it names and all of its versions, as long as there are no more than are
/// followed.
pub proof fn every_version_need_is_read(
    region: Seq<u8>,
    e: Endian,
    strtab: Seq<u8>,
    records: Seq<NeedRecord>,
)
    requires
        region.len() <= usize::MAX,
        records_stand(region, e, strtab, records),
        records.len() <= 4096,
    ensures
        ({
            let needs = symbols::needs_from(
                region,
                e,
                strtab,
                0,
                symbols::VERSION_LIMIT as nat,
            );
            &&& needs.len() == records.len()
            &&& forall|i: int|
                0 <= i < records.len() ==> (#[trigger] needs[i]).file == records[i].file
                    && needs[i].indexed == records[i].versions
        }),
        ({
            let needs = elf::plain_needs(
                symbols::needs_from(region, e, strtab, 0, symbols::VERSION_LIMIT as nat),
            );
            &&& needs.len() == records.len()
            &&& forall|i: int|
                0 <= i < records.len() ==> (#[trigger] needs[i]).file == records[i].file
                    && needs[i].versions.len() == records[i].versions.len()
            &&& forall|i: int, j: int|
                0 <= i < records.len() && 0 <= j < records[i].versions.len() ==> (
                #[trigger] needs[i].versions[j]) == records[i].versions[j].1
        }),
{
    let limit = symbols::VERSION_LIMIT as nat;
    lemma_records_read(region, e, strtab, records, 0, limit);
    assert(records.skip(0) =~= records);
}

/// Version `j` of need `i` gives the index, and none behind it does.
pub open spec fn gives_last(needs: Seq<IndexedNeedView>, i: int, j: int, index: u16) -> bool {
    &&& 0 <= i < needs.len() && 0 <= j < needs[i].indexed.len()
    &&& needs[i].indexed[j].0 == index
    &&& forall|q: int| j < q < needs[i].indexed.len() ==> (#[trigger] needs[i].indexed[q]).0 != index
    &&& forall|p: int, q: int|
        i < p < needs.len() && 0 <= q < needs[p].indexed.len() ==> (
        #[trigger] needs[p].indexed[q]).0 != index
}

/// The table by index holds, for each version that a need gives, its name and
/// the library that it is needed from; where two give one index, the later one.
pub proof fn needed_versions_are_found_by_index(
    needs: Seq<IndexedNeedView>,
    i: int,
    j: int,
    index: u16,
)
    requires
        gives_last(needs, i, j, index),
    ensures
        elf::versions_by_index(needs).contains_key(index),
        elf::versions_by_index(needs)[index] == (needs[i].indexed[j].1, needs[i].file),
    decreases needs.len(),
{
    let front = needs.drop_last();
    let last = needs.last();
    let before = elf::versions_by_index(front);
    if i < front.len() {
        assert(front[i] == needs[i]);
        assert forall|p: int, q: int|
            i < p < front.len() && 0 <= q < front[p].indexed.len() implies (
        #[trigger] front[p].indexed[q]).0 != index by {
            assert(needs[p].indexed[q].0 != index);
        }
        needed_versions_are_found_by_index(front, i, j, index);
        assert forall|q: int| 0 <= q < last.indexed.len() implies (
        #[trigger] last.indexed[q]).0 != index by {
            assert(needs[needs.len() - 1].indexed[q].0 != index);
        }
        lemma_need_without(before, last.file, last.indexed, index);
    } else {
        lemma_need_with(before, last.file, last.indexed, j, index);
    }
}

/// An index that no need gives is not in the table.
pub proof fn other_indices_are_unknown(needs: Seq<IndexedNeedView>, index: u16)
    requires
        forall|p: int, q: int|
            0 <= p < needs.len() && 0 <= q < needs[p].indexed.len() ==> (
            #[trigger] needs[p].indexed[q]).0 != index,
    ensures
        !elf::versions_by_index(needs).contains_key(index),
    decreases needs.len(),
{
    if needs.len() > 0 {
        let front = needs.drop_last();
        let last = needs.last();
        assert forall|p: int, q: int|
            0 <= p < front.len() && 0 <= q < front[p].indexed.len() implies (
        #[trigger] front[p].indexed[q]).0 != index by {
            assert(needs[p].indexed[q].0 != index);
        }
        other_indices_are_unknown(front, index);
        assert forall|q: int| 0 <= q < last.indexed.len() implies (
        #[trigger] last.indexed[q]).0 != index by {
            assert(needs[needs.len() - 1].indexed[q].0 != index);
        }
        lemma_need_without(elf::versions_by_index(front), last.file, last.indexed, index);
    }
}

proof fn lemma_need_without(
    table: Map<u16, (Seq<char>, Seq<char>)>,
    file: Seq<char>,
    indexed: Seq<(u16, Seq<char>)>,
    index: u16,
)
    requires
        forall|q: int| 0 <= q < indexed.len() ==> (#[trigger] indexed[q]).0 != index,
    ensures
        elf::with_need(table, file, indexed).contains_key(index) == table.contains_key(index),
        elf::with_need(table, file, indexed)[index] == table[index],
    decreases indexed.len(),
{
    if indexed.len() > 0 {
        let front = indexed.drop_last();
        assert forall|q: int| 0 <= q < front.len() implies (#[trigger] front[q]).0 != index by {
            assert(indexed[q].0 != index);
        }
        lemma_need_without(table, file, front, index);
        assert(indexed[indexed.len() - 1].0 != index);
    }
}

proof fn lemma_need_with(
    table: Map<u16, (Seq<char>, Seq<char>)>,
    file: Seq<char>,
    indexed: Seq<(u16, Seq<char>)>,
    j: int,
    index: u16,
)
    requires
        0 <= j < indexed.len(),
        indexed[j].0 == index,
        forall|q: int| j < q < indexed.len() ==> (#[trigger] indexed[q]).0 != index,
    ensures
        elf::with_need(table, file, indexed).contains_key(index),
        elf::with_need(table, file, indexed)[index] == (indexed[j].1, file),
    decreases indexed.len(),
{
    if j < indexed.len() - 1 {
        let front = indexed.drop_last();
        assert forall|q: int| j < q < front.len() implies (#[trigger] front[q]).0 != index by {
            assert(indexed[q].0 != index);
        }
        lemma_need_with(table, file, front, j, index);
        assert(indexed[indexed.len() - 1].0 != index);
    }
}

// ---------------------------------------------------------------------------
// Version definitions
// ---------------------------------------------------------------------------

/// A record of `.gnu.version_d`: the index and the name of a version, and where
/// it stands.
pub struct DefinitionRecord {
    pub index: u16,
    pub name: Seq<char>,
    pub at: int,
}

/// The records stand one behind the other: the index at 4, the distance to the
/// first name at 12, the distance to the next record at 16, of which the last
/// one is 0.
pub open spec fn definitions_stand(
    region: Seq<u8>,
    e: Endian,
    strtab: Seq<u8>,
    records: Seq<DefinitionRecord>,
) -> bool {
    &&& records.len() > 0
    &&& records[0].at == 0
    &&& forall|i: int|
        0 <= i < records.len() ==> #[trigger] definition_leads_on(region, e, strtab, records, i)
}

/// Record `i` stands where it says, and its distance leads to the next one.
pub open spec fn definition_leads_on(
    region: Seq<u8>,
    e: Endian,
    strtab: Seq<u8>,
    records: Seq<DefinitionRecord>,
    i: int,
) -> bool {
    let r = records[i];
    let aux = r.at + number_at(region, e, r.at + 12, 4);
    let next = number_at(region, e, r.at + 16, 4);
    &&& 0 <= r.at && r.at + 20 <= region.len()
    &&& aux + 4 <= region.len()
    &&& number_at(region, e, r.at + 4, 2) == r.index
    &&& name_at(strtab, number_at(region, e, aux, 4) as int, r.name)
    &&& i + 1 < records.len() ==> next > 0 && records[i + 1].at == r.at + next
    &&& i + 1 == records.len() ==> next == 0
}

proof fn lemma_definitions_read(
    region: Seq<u8>,
    e: Endian,
    strtab: Seq<u8>,
    records: Seq<DefinitionRecord>,
    i: int,
    n: nat,
)
    requires
        region.len() <= usize::MAX,
        definitions_stand(region, e, strtab, records),
        0 <= i < records.len(),
        n >= records.len() - i,
    ensures
        symbols::definitions_from(region, e, strtab, records[i].at as usize, n) == records.skip(
            i,
        ).map_values(|r: DefinitionRecord| (r.index, r.name)),
    decreases records.len() - i,
{
    assert(definition_leads_on(region, e, strtab, records, i));
    let r = records[i];
    let all = records.skip(i).map_values(|r: DefinitionRecord| (r.index, r.name));
    let aux = r.at + number_at(region, e, r.at + 12, 4);
    lemma_reads(region, e, r.at + 4);
    lemma_reads(region, e, r.at + 12);
    lemma_reads(region, e, r.at + 16);
    lemma_reads(region, e, aux);
    super::texts_end_at_the_first_zero(strtab, number_at(region, e, aux, 4) as usize, r.name);
    let rest = records.skip(i + 1).map_values(|r: DefinitionRecord| (r.index, r.name));
    assert(all =~= seq![(r.index, r.name)] + rest);
    if i + 1 < records.len() {
        assert(definition_leads_on(region, e, strtab, records, i + 1));
        lemma_definitions_read(region, e, strtab, records, i + 1, (n - 1) as nat);
    } else {
        assert(all =~= seq![(r.index, r.name)]);
    }
}

/// Every record of `.gnu.version_d` is read, in its order, with its index and
/// its first name, as long as there are no more than are followed.
pub proof fn every_version_definition_is_read(
    region: Seq<u8>,
    e: Endian,
    strtab: Seq<u8>,
    records: Seq<DefinitionRecord>,
)
    requires
        region.len() <= usize::MAX,
        definitions_stand(region, e, strtab, records),
        records.len() <= 4096,
    ensures
        ({
            let defined = symbols::definitions_from(
                region,
                e,
                strtab,
                0,
                symbols::VERSION_LIMIT as nat,
            );
            &&& defined.len() == records.len()
            &&& forall|i: int|
                0 <= i < records.len() ==> (#[trigger] defined[i]).0 == records[i].index
                    && defined[i].1 == records[i].name
            &&& elf::names_of(defined).len() == records.len()
            &&& forall|i: int|
                0 <= i < records.len() ==> #[trigger] elf::names_of(defined)[i] == records[i].name
        }),
{
    lemma_definitions_read(region, e, strtab, records, 0, symbols::VERSION_LIMIT as nat);
    assert(records.skip(0) =~= records);
}

/// The table by index holds the name of each version that is defined; where two
/// definitions give one index, the later one.
pub proof fn defined_versions_are_found_by_index(
    defined: Seq<(u16, Seq<char>)>,
    i: int,
    index: u16,
)
    requires
        0 <= i < defined.len(),
        defined[i].0 == index,
        forall|k: int| i < k < defined.len() ==> (#[trigger] defined[k]).0 != index,
    ensures
        elf::definitions_by_index(defined).contains_key(index),
        elf::definitions_by_index(defined)[index] == defined[i].1,
    decreases defined.len(),
{
    if i < defined.len() - 1 {
        let front = defined.drop_last();
        assert forall|k: int| i < k < front.len() implies (#[trigger] front[k]).0 != index by {
            assert(defined[k].0 != index);
        }
        defined_versions_are_found_by_index(front, i, index);
        assert(defined[defined.len() - 1].0 != index);
    }
}

/// An index that no definition gives is not in the table.
pub proof fn undefined_indices_are_unknown(defined: Seq<(u16, Seq<char>)>, index: u16)
    requires
        forall|k: int| 0 <= k < defined.len() ==> (#[trigger] defined[k]).0 != index,
    ensures
        !elf::definitions_by_index(defined).contains_key(index),
    decreases defined.len(),
{
    if defined.len() > 0 {
        let front = defined.drop_last();
        assert forall|k: int| 0 <= k < front.len() implies (#[trigger] front[k]).0 != index by {
            assert(defined[k].0 != index);
        }
        undefined_indices_are_unknown(front, index);
        assert(defined[defined.len() - 1].0 != index);
    }
}

// ---------------------------------------------------------------------------
// Symbols
// ---------------------------------------------------------------------------

/// An entry of `.dynsym`: its name, empty where it has none, its `st_info`, its
/// `st_shndx` and the value that `.gnu.version` gives it.
pub struct SymbolRecord {
    pub name: Seq<char>,
    pub info: u8,
    pub section: u16,
    pub version: u16,
}

/// Where the parts of an entry stand in it.
pub open spec fn info_place(class: Class) -> int {
    if class is Elf64 {
        4
    } else {
        12
    }
}

pub open spec fn section_place(class: Class) -> int {
    if class is Elf64 {
        6
    } else {
        14
    }
}

/// The entry stands at `at`.
pub open spec fn symbol_stands(
    d: Seq<u8>,
    e: Endian,
    class: Class,
    at: int,
    strtab: Seq<u8>,
    r: SymbolRecord,
) -> bool {
    let name_off = number_at(d, e, at, 4) as int;
    &&& 0 <= at && at + 16 <= d.len()
    &&& d[at + info_place(class)] == r.info
    &&& number_at(d, e, at + section_place(class), 2) == r.section
    &&& if name_off == 0 {
        r.name.len() == 0
    } else {
        name_at(strtab, name_off, r.name)
    }
}

/// The entries stand at equal distances, and the version table gives each its
/// value.
pub open spec fn symbols_stand(
    d: Seq<u8>,
    e: Endian,
    class: Class,
    offset: int,
    stride: int,
    strtab: Seq<u8>,
    versym: Seq<u16>,
    records: Seq<SymbolRecord>,
) -> bool {
    forall|i: int|
        0 <= i < records.len() ==> {
            &&& symbol_stands(d, e, class, offset + i * stride, strtab, #[trigger] records[i])
            &&& i < versym.len() ==> versym[i] == records[i].version
            &&& i >= versym.len() ==> records[i].version == 0
        }
}

/// What is known of an entry that has a name.
pub open spec fn symbol_of(r: SymbolRecord) -> Option<DynSymbolView> {
    if r.name.len() > 0 {
        Some(
            DynSymbolView {
                name: r.name,
                binding: Binding::of_raw((r.info / 16) as u8),
                sym_type: SymType::of_raw((r.info % 16) as u8),
                undefined: r.section == 0,
                version_index: (r.version % 0x8000) as u16,
            },
        )
    } else {
        None
    }
}

proof fn lemma_symbols_read(
    d: Seq<u8>,
    e: Endian,
    class: Class,
    offset: usize,
    stride: usize,
    strtab: Seq<u8>,
    versym: Seq<u16>,
    records: Seq<SymbolRecord>,
    i: usize,
)
    requires
        d.len() <= usize::MAX,
        records.len() <= usize::MAX,
        symbols_stand(d, e, class, offset as int, stride as int, strtab, versym, records),
        i <= records.len(),
    ensures
        symbols::symbols_from(
            d,
            e,
            class,
            offset,
            i,
            records.len() as usize,
            stride,
            strtab,
            versym,
        ) == records.skip(i as int).filter_map(|r: SymbolRecord| symbol_of(r)),
    decreases records.len() - i,
{
    let f = |r: SymbolRecord| symbol_of(r);
    let rest = records.skip(i as int);
    if i < records.len() {
        let r = records[i as int];
        let at = offset + i * stride;
        assert(symbol_stands(d, e, class, at, strtab, r));
        lemma_symbols_read(
            d,
            e,
            class,
            offset,
            stride,
            strtab,
            versym,
            records,
            (i + 1) as usize,
        );
        lemma_picked_from_first(rest, f);
        assert(rest.drop_first() =~= records.skip(i + 1));
        assert(rest[0] == r);
        super::reads_give_what_stands_there(d, e, at as usize);
        super::reads_give_what_stands_there(d, e, (at + info_place(class)) as usize);
        super::reads_give_what_stands_there(d, e, (at + section_place(class)) as usize);
        let name_off = number_at(d, e, at, 4);
        super::texts_end_at_the_first_zero(strtab, name_off as usize, r.name);
        let info = r.info;
        assert(info >> 4 == info / 16) by (bit_vector);
        assert(info & 0x0f == info % 16) by (bit_vector);
        if i < versym.len() {
            let v = versym[i as int];
            assert(v & 0x7fff == v % 0x8000) by (bit_vector);
        }
    } else {
        assert(rest =~= Seq::<SymbolRecord>::empty());
    }
}

/// Every entry of `.dynsym` that has a name is read, in its order: with the
/// binding that the upper half of `st_info` tells and the type that the lower
/// half does, as undefined where `st_shndx` is 0, and with the version index
/// but for its highest bit. An entry without a name is passed over.
pub proof fn every_named_symbol_is_read(
    d: Seq<u8>,
    e: Endian,
    class: Class,
    offset: usize,
    stride: usize,
    strtab: Seq<u8>,
    versym: Seq<u16>,
    records: Seq<SymbolRecord>,
)
    requires
        d.len() <= usize::MAX,
        records.len() <= usize::MAX,
        symbols_stand(d, e, class, offset as int, stride as int, strtab, versym, records),
    ensures
        symbols::symbols_from(
            d,
            e,
            class,
            offset,
            0,
            records.len() as usize,
            stride,
            strtab,
            versym,
        ) == records.filter_map(|r: SymbolRecord| symbol_of(r)),
{
    lemma_symbols_read(d, e, class, offset, stride, strtab, versym, records, 0);
    assert(records.skip(0) =~= records);
}

/// A table of which the count says too much is read as far as it goes: what
/// lies outside the image adds nothing to the entries in front.
pub proof fn entries_outside_add_nothing(
    d: Seq<u8>,
    e: Endian,
    class: Class,
    offset: usize,
    i: usize,
    count: usize,
    more: usize,
    stride: usize,
    strtab: Seq<u8>,
    versym: Seq<u16>,
)
    requires
        d.len() <= usize::MAX,
        i <= count <= more,
        offset + count * stride + section_place(class) + 2 > d.len(),
    ensures
        symbols::symbols_from(d, e, class, offset, i, more, stride, strtab, versym)
            == symbols::symbols_from(d, e, class, offset, i, count, stride, strtab, versym),
    decreases count - i,
{
    let at = elf::tables::entry_offset(offset, i, stride);
    super::reads_give_what_stands_there(d, e, at);
    super::reads_give_what_stands_there(
        d,
        e,
        at.saturating_add(elf::tables::by_class(class, 6, 14)),
    );
    if i < count {
        entries_outside_add_nothing(
            d,
            e,
            class,
            offset,
            (i + 1) as usize,
            count,
            more,
            stride,
            strtab,
            versym,
        );
    }
}

/// Symbol types are told by the lower half of `st_info`.
pub proof fn symbol_types_are_told_by_their_numbers(raw: u8)
    ensures
        SymType::of_raw(raw) == SymType::NoType <==> raw == 0,
        SymType::of_raw(raw) == SymType::Object <==> raw == 1,
        SymType::of_raw(raw) == SymType::Func <==> raw == 2,
        SymType::of_raw(raw) == SymType::Section <==> raw == 3,
        SymType::of_raw(raw) == SymType::File <==> raw == 4,
        SymType::of_raw(raw) == SymType::Common <==> raw == 5,
        SymType::of_raw(raw) == SymType::Tls <==> raw == 6,
        SymType::of_raw(raw) == SymType::GnuIfunc <==> raw == 10,
        raw > 6 && raw != 10 ==> SymType::of_raw(raw) == SymType::Other(raw),
{
}

proof fn lemma_halfwords(d: Seq<u8>, e: Endian, offset: usize, i: usize, count: usize, k: int)
    requires
        d.len() <= usize::MAX,
        i <= k < count,
        offset + 2 * (k + 1) <= d.len(),
    ensures
        ({
            let v = symbols::halfwords_from(d, e, offset, i, count);
            k - i < v.len() && v[k - i] == number_at(d, e, offset + 2 * k, 2)
        }),
    decreases k - i,
{
    let at = offset + 2 * i;
    super::reads_give_what_stands_there(d, e, at as usize);
    assert(elf::tables::entry_offset(offset, i, 2) == at);
    if i < k {
        lemma_halfwords(d, e, offset, (i + 1) as usize, count, k);
    }
}

/// The version table gives each symbol the two-byte number that stands in its
/// place, as far as the image goes.
pub proof fn every_symbol_has_its_version(d: Seq<u8>, e: Endian, offset: usize, count: usize, k: int)
    requires
        d.len() <= usize::MAX,
        0 <= k < count,
        offset + 2 * (k + 1) <= d.len(),
    ensures
        ({
            let v = symbols::halfwords_from(d, e, offset, 0, count);
            k < v.len() && v[k] == number_at(d, e, offset + 2 * k, 2)
        }),
{
    lemma_halfwords(d, e, offset, 0, count, k);
}

/// An index leads to the version that was read for it and to the library that
/// has to provide it; one for which nothing was read leads nowhere.
pub proof fn versions_are_looked_up_by_index(o: elf::ElfView, index: u16)
    ensures
        o.version_by_index.contains_key(index) ==> o.needed_version(index) == Some(
            o.version_by_index[index].0,
        ) && o.needed_from(index) == Some(o.version_by_index[index].1),
        !o.version_by_index.contains_key(index) ==> o.needed_version(index) is None
            && o.needed_from(index) is None,
        o.defined_by_index.contains_key(index) ==> o.defined_version(index) == Some(
            o.defined_by_index[index],
        ),
        !o.defined_by_index.contains_key(index) ==> o.defined_version(index) is None,
{
}

/// The version table holds no more numbers than there are symbols.
pub proof fn no_symbol_has_two_versions(d: Seq<u8>, e: Endian, offset: usize, i: usize, count: usize)
    requires
        i <= count,
    ensures
        symbols::halfwords_from(d, e, offset, i, count).len() <= count - i,
    decreases count - i,
{
    if i < count {
        no_symbol_has_two_versions(d, e, offset, (i + 1) as usize, count);
    }
}

/// A record that ends beyond the region, or that comes behind as many as are
/// read, adds nothing, and neither does anything behind it.
pub proof fn cut_records_add_nothing(
    region: Seq<u8>,
    e: Endian,
    strtab: Seq<u8>,
    pos: usize,
    n: nat,
)
    requires
        region.len() <= usize::MAX,
    ensures
        n == 0 || pos + 16 > region.len() ==> symbols::needs_from(region, e, strtab, pos, n).len()
            == 0,
        n == 0 || pos + 16 > region.len() ==> symbols::aux_from(region, e, strtab, pos, n).len()
            == 0,
        n == 0 || pos + 20 > region.len() ==> symbols::definitions_from(
            region,
            e,
            strtab,
            pos,
            n,
        ).len() == 0,
{
    super::reads_give_what_stands_there(region, e, pos.saturating_add(12));
    super::reads_give_what_stands_there(region, e, pos.saturating_add(16));
}

/// A record of needs without a file name is passed over, and so is a version
/// without a name; what stands behind them is read.
pub proof fn nameless_records_are_passed_over(
    region: Seq<u8>,
    e: Endian,
    strtab: Seq<u8>,
    pos: usize,
    n: nat,
)
    requires
        region.len() <= usize::MAX,
        n > 0,
        pos + 16 <= region.len(),
        pos + number_at(region, e, pos + 12, 4) <= usize::MAX,
    ensures
        ({
            let next = number_at(region, e, pos + 12, 4);
            let behind = (pos + next) as usize;
            let file = reader::text_at_offset(
                strtab,
                number_at(region, e, pos + 4, 4) as u32 as usize,
            );
            let name = reader::text_at_offset(
                strtab,
                number_at(region, e, pos + 8, 4) as u32 as usize,
            );
            let needs = symbols::needs_from(region, e, strtab, pos, n);
            let versions = symbols::aux_from(region, e, strtab, pos, n);
            let nameless = file matches Some(f) ==> f.len() == 0;
            &&& nameless && next == 0 ==> needs.len() == 0
            &&& nameless && next > 0 ==> needs == symbols::needs_from(
                region,
                e,
                strtab,
                behind,
                (n - 1) as nat,
            )
            &&& name is None && next == 0 ==> versions.len() == 0
            &&& name is None && next > 0 ==> versions == symbols::aux_from(
                region,
                e,
                strtab,
                behind,
                (n - 1) as nat,
            )
        }),
{
    let behind = (pos + number_at(region, e, pos + 12, 4)) as usize;
    let none = Seq::<symbols::IndexedNeedView>::empty();
    let nothing = Seq::<(u16, Seq<char>)>::empty();
    let needs = symbols::needs_from(region, e, strtab, behind, (n - 1) as nat);
    let versions = symbols::aux_from(region, e, strtab, behind, (n - 1) as nat);
    super::reads_give_what_stands_there(region, e, (pos + 2) as usize);
    super::reads_give_what_stands_there(region, e, (pos + 4) as usize);
    super::reads_give_what_stands_there(region, e, (pos + 6) as usize);
    super::reads_give_what_stands_there(region, e, (pos + 8) as usize);
    super::reads_give_what_stands_there(region, e, (pos + 12) as usize);
    assert(none + needs =~= needs);
    assert(nothing + versions =~= versions);
}

} // verus!
