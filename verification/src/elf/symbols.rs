//! The dynamic symbol table and the GNU symbol version tables.

use vstd::prelude::*;
use super::reader;
use super::reader::{Bytes, Endian};
use super::tables;
use super::tables::{Phdr, Shdr};
use super::{Binding, Class, DynSymbol, DynSymbolView, SymType};

verus! {

pub const SHT_GNU_VERDEF: u32 = 0x6fff_fffd;

pub const SHT_GNU_VERNEED: u32 = 0x6fff_fffe;

pub const SHT_GNU_VERSYM: u32 = 0x6fff_ffff;

pub const DT_VERSYM: i64 = 0x6fff_fff0;

pub const DT_VERDEF: i64 = 0x6fff_fffc;

pub const DT_VERNEED: i64 = 0x6fff_fffe;

/// At most this many entries of a version table are followed.
pub const VERSION_LIMIT: usize = 4096;

// ---------------------------------------------------------------------------
// Symbol versions
// ---------------------------------------------------------------------------

/// The two-byte numbers from entry `i` on, up to entry `count` or to the end
/// of the image.
pub open spec fn halfwords_from(
    d: Seq<u8>,
    e: Endian,
    offset: usize,
    i: usize,
    count: usize,
) -> Seq<u16>
    decreases count - i,
{
    if i >= count {
        Seq::empty()
    } else {
        match reader::read_u16(d, e, tables::entry_offset(offset, i, 2)) {
            Ok(v) => seq![v] + halfwords_from(d, e, offset, (i + 1) as usize, count),
            Err(_) => Seq::empty(),
        }
    }
}

/// The version of each symbol.
pub open spec fn versym_of(
    d: Seq<u8>,
    e: Endian,
    shdrs: Seq<Shdr>,
    shstr: Seq<u8>,
    phdrs: Seq<Phdr>,
    dynamic: Seq<(i64, u64)>,
    sym_count: usize,
) -> Seq<u16> {
    match tables::section_of(shdrs, shstr, ".gnu.version"@, SHT_GNU_VERSYM) {
        Some(s) => halfwords_from(d, e, s.sh_offset as usize, 0, (s.sh_size as usize) / 2),
        None => match tables::dyn_offset(dynamic, phdrs, DT_VERSYM) {
            Some(off) => halfwords_from(d, e, off, 0, sym_count),
            None => Seq::empty(),
        },
    }
}

/// Reads two-byte numbers, up to `count` of them or to the end of the image.
fn read_halfwords(b: &Bytes, offset: usize, count: usize) -> (r: Vec<u16>)
    ensures
        r@ == halfwords_from(b@, b.order(), offset, 0, count),
{
    let mut out: Vec<u16> = Vec::new();
    let mut i: usize = 0;
    let ghost whole = halfwords_from(b@, b.order(), offset, 0, count);
    assert(out@ + whole =~= whole);
    while i < count
        invariant
            i <= count,
            whole == halfwords_from(b@, b.order(), offset, 0, count),
            out@ + halfwords_from(b@, b.order(), offset, i, count) == whole,
        decreases count - i,
    {
        match b.u16(tables::offset_of_entry(offset, i, 2)) {
            Ok(v) => {
                let ghost before = out@;
                out.push(v);
                assert(out@ + halfwords_from(b@, b.order(), offset, (i + 1) as usize, count)
                    =~= before + (seq![v] + halfwords_from(
                    b@,
                    b.order(),
                    offset,
                    (i + 1) as usize,
                    count,
                )));
            },
            Err(_) => {
                assert(out@ =~= whole);
                return out;
            },
        }
        i += 1;
    }
    assert(out@ =~= whole);
    out
}

/// Reads the version of each symbol.
pub fn read_versym(
    b: &Bytes,
    shdrs: &[Shdr],
    shstr: &Bytes,
    phdrs: &[Phdr],
    dynamic: &[(i64, u64)],
    sym_count: usize,
) -> (r: Vec<u16>)
    ensures
        r@ == versym_of(b@, b.order(), shdrs@, shstr@, phdrs@, dynamic@, sym_count),
{
    match tables::find_section(shdrs, shstr, ".gnu.version", SHT_GNU_VERSYM) {
        Some(s) => read_halfwords(b, s.sh_offset as usize, (s.sh_size as usize) / 2),
        None => match tables::find_dyn_offset(dynamic, phdrs, DT_VERSYM) {
            Some(off) => read_halfwords(b, off, sym_count),
            None => {
                let none: Vec<u16> = Vec::new();
                assert(none@ =~= Seq::<u16>::empty());
                none
            },
        },
    }
}

// ---------------------------------------------------------------------------
// Symbols
// ---------------------------------------------------------------------------

/// The name offset, the info byte and the section index of the symbol table
/// entry at `at`.
pub open spec fn raw_symbol(d: Seq<u8>, e: Endian, class: Class, at: usize) -> Option<
    (u32, u8, u16),
> {
    let name = reader::read_u32(d, e, at);
    let info = reader::read_u8(d, at.saturating_add(tables::by_class(class, 4, 12)));
    let shndx = reader::read_u16(d, e, at.saturating_add(tables::by_class(class, 6, 14)));
    if name is Ok && info is Ok && shndx is Ok {
        Some((name->Ok_0, info->Ok_0, shndx->Ok_0))
    } else {
        None
    }
}

/// The name of a symbol that has one.
pub open spec fn symbol_name(strtab: Seq<u8>, name_off: u32) -> Option<Seq<char>> {
    if name_off == 0 {
        None
    } else {
        match reader::text_at_offset(strtab, name_off as usize) {
            Some(name) => if name.len() > 0 {
                Some(name)
            } else {
                None
            },
            None => None,
        }
    }
}

/// The version index of symbol `i`. Bit 15 of the table's value marks a
/// non-default version; the index is the rest.
pub open spec fn version_index_of(versym: Seq<u16>, i: int) -> u16 {
    if i < versym.len() {
        versym[i] & 0x7fff
    } else {
        0
    }
}

/// The named symbols from entry `i` on, up to entry `count` or to the first
/// entry that leaves the image.
pub open spec fn symbols_from(
    d: Seq<u8>,
    e: Endian,
    class: Class,
    offset: usize,
    i: usize,
    count: usize,
    stride: usize,
    strtab: Seq<u8>,
    versym: Seq<u16>,
) -> Seq<DynSymbolView>
    decreases count - i,
{
    if i >= count {
        Seq::empty()
    } else {
        match raw_symbol(d, e, class, tables::entry_offset(offset, i, stride)) {
            None => Seq::empty(),
            Some((name_off, info, shndx)) => {
                let rest = symbols_from(
                    d,
                    e,
                    class,
                    offset,
                    (i + 1) as usize,
                    count,
                    stride,
                    strtab,
                    versym,
                );
                match symbol_name(strtab, name_off) {
                    None => rest,
                    Some(name) => seq![
                        DynSymbolView {
                            name,
                            binding: Binding::of_raw(info >> 4),
                            sym_type: SymType::of_raw(info & 0x0f),
                            undefined: shndx == 0,
                            version_index: version_index_of(versym, i as int),
                        },
                    ] + rest,
                }
            },
        }
    }
}

/// The distance between symbol table entries, which is never 0.
pub open spec fn symbol_stride(stride: usize) -> usize {
    if stride == 0 {
        1
    } else {
        stride
    }
}

/// Reads the symbol table entry at `at`.
fn read_raw_symbol(b: &Bytes, class: Class, at: usize) -> (r: Option<(u32, u8, u16)>)
    ensures
        r == raw_symbol(b@, b.order(), class, at),
{
    let (info_off, shndx_off): (usize, usize) = match class {
        Class::Elf64 => (4, 6),
        Class::Elf32 => (12, 14),
    };
    match (b.u32(at), b.u8(at.saturating_add(info_off)), b.u16(at.saturating_add(shndx_off))) {
        (Ok(name), Ok(info), Ok(shndx)) => Some((name, info, shndx)),
        _ => None,
    }
}

/// Reads the name of a symbol that has one.
fn read_symbol_name(strtab: &Bytes, name_off: u32) -> (r: Option<String>)
    ensures
        r.deep_view() == symbol_name(strtab@, name_off),
        r matches Some(s) ==> !s@.contains('\0'),
{
    if name_off == 0 {
        return None;
    }
    match strtab.cstr(name_off as usize) {
        Some(name) => if name.as_str().is_empty() {
            None
        } else {
            Some(name)
        },
        None => None,
    }
}

/// Reads the named symbols of a symbol table.
///
/// `count` comes from untrusted metadata and may be absurd. A symbol table
/// cannot extend past the end of the file, so reading stops at the first entry
/// that falls off the end.
pub fn read_symbols(
    b: &Bytes,
    class: Class,
    offset: usize,
    count: usize,
    stride: usize,
    strtab: &Bytes,
    versym: &[u16],
) -> (r: Vec<DynSymbol>)
    ensures
        r.deep_view() == symbols_from(
            b@,
            b.order(),
            class,
            offset,
            0,
            count,
            symbol_stride(stride),
            strtab@,
            versym@,
        ),
        forall|k: int|
            0 <= k < r@.len() ==> !(#[trigger] r.deep_view()[k]).name.contains('\0'),
{
    let step: usize = if stride == 0 {
        1
    } else {
        stride
    };
    let mut out: Vec<DynSymbol> = Vec::new();
    let mut i: usize = 0;
    let ghost whole = symbols_from(
        b@,
        b.order(),
        class,
        offset,
        0,
        count,
        step,
        strtab@,
        versym@,
    );
    assert(out.deep_view() + whole =~= whole);
    while i < count
        invariant
            i <= count,
            step == symbol_stride(stride),
            forall|k: int|
                0 <= k < out@.len() ==> !(#[trigger] out.deep_view()[k]).name.contains('\0'),
            whole == symbols_from(
                b@,
                b.order(),
                class,
                offset,
                0,
                count,
                step,
                strtab@,
                versym@,
            ),
            out.deep_view() + symbols_from(
                b@,
                b.order(),
                class,
                offset,
                i,
                count,
                step,
                strtab@,
                versym@,
            ) == whole,
        decreases count - i,
    {
        let at: usize = tables::offset_of_entry(offset, i, step);
        let (name_off, info, shndx): (u32, u8, u16) = match read_raw_symbol(b, class, at) {
            Some(raw) => raw,
            None => {
                assert(out.deep_view() =~= whole);
                return out;
            },
        };
        if let Some(name) = read_symbol_name(strtab, name_off) {
            let version_index: u16 = if i < versym.len() {
                versym[i] & 0x7fff
            } else {
                0
            };
            let ghost before = out.deep_view();
            let ghost rest = symbols_from(
                b@,
                b.order(),
                class,
                offset,
                (i + 1) as usize,
                count,
                step,
                strtab@,
                versym@,
            );
            let symbol: DynSymbol = DynSymbol {
                name,
                binding: Binding::from_raw(info >> 4),
                sym_type: SymType::from_raw(info & 0x0f),
                undefined: shndx == 0,
                version_index,
            };
            let ghost added = symbol.deep_view();
            out.push(symbol);
            assert(out.deep_view() =~= before.push(added));
            assert(out.deep_view() + rest =~= before + (seq![added] + rest));
        }
        i += 1;
    }
    assert(out.deep_view() =~= whole);
    out
}

// ---------------------------------------------------------------------------
// Version needs and definitions
// ---------------------------------------------------------------------------

/// The bytes of a version table: those of its section, or all that follow the
/// address that the dynamic table gives.
pub open spec fn version_region(
    d: Seq<u8>,
    section: Option<Shdr>,
    dyn_off: Option<usize>,
) -> Option<Seq<u8>> {
    let place = match section {
        Some(s) => Some((s.sh_offset as usize, s.sh_size as usize)),
        None => match dyn_off {
            Some(off) => Some((off, (d.len() as usize).saturating_sub(off))),
            None => None,
        },
    };
    match place {
        Some((offset, size)) => if offset >= d.len() {
            None
        } else if size <= d.len() - offset {
            Some(d.subrange(offset as int, offset + size))
        } else {
            Some(d.skip(offset as int))
        },
        None => None,
    }
}

/// The bytes of a version table.
fn find_version_region<'a>(b: &Bytes<'a>, section: Option<Shdr>, dyn_off: Option<usize>) -> (r:
    Option<Bytes<'a>>)
    ensures
        r is Some <==> version_region(b@, section, dyn_off) is Some,
        r matches Some(region) ==> version_region(b@, section, dyn_off) == Some(region@)
            && region.order() == b.order(),
{
    let len: usize = b.len();
    let (offset, size): (usize, usize) = match section {
        Some(s) => (s.sh_offset as usize, s.sh_size as usize),
        None => match dyn_off {
            Some(off) => (off, len.saturating_sub(off)),
            None => {
                return None;
            },
        },
    };
    if offset >= len {
        return None;
    }
    let kept: usize = if size <= len - offset {
        size
    } else {
        len - offset
    };
    let bytes: &'a [u8] = tables::slice_or_empty(b, offset, kept);
    assert(bytes@ =~= b@.subrange(offset as int, offset + kept));
    assert(kept == len - offset ==> bytes@ =~= b@.skip(offset as int));
    Some(Bytes::new(bytes, b.endian()))
}

/// The indices and names in a chain of at most `n` version-need entries, the
/// first of them at `aux`.
pub open spec fn aux_from(region: Seq<u8>, e: Endian, strtab: Seq<u8>, aux: usize, n: nat) -> Seq<
    (u16, Seq<char>),
>
    decreases n,
{
    let index = reader::read_u16(region, e, aux.saturating_add(6));
    let name_off = reader::read_u32(region, e, aux.saturating_add(8));
    let next = reader::read_u32(region, e, aux.saturating_add(12));
    if n == 0 || index is Err || name_off is Err || next is Err {
        Seq::empty()
    } else {
        let here = match reader::text_at_offset(strtab, name_off->Ok_0 as usize) {
            Some(name) => seq![(index->Ok_0, name)],
            None => Seq::empty(),
        };
        if next->Ok_0 == 0 {
            here
        } else {
            here + aux_from(
                region,
                e,
                strtab,
                aux.saturating_add(next->Ok_0 as usize),
                (n - 1) as nat,
            )
        }
    }
}

/// The versions that one object needs from another, with their indices.
pub struct IndexedNeedView {
    pub file: Seq<char>,
    pub indexed: Seq<(u16, Seq<char>)>,
}

/// The version needs in a chain of at most `n` entries, the first of them at
/// `pos`. An entry without a file name is left out.
pub open spec fn needs_from(region: Seq<u8>, e: Endian, strtab: Seq<u8>, pos: usize, n: nat) -> Seq<
    IndexedNeedView,
>
    decreases n,
{
    let count = reader::read_u16(region, e, pos.saturating_add(2));
    let file_off = reader::read_u32(region, e, pos.saturating_add(4));
    let aux = reader::read_u32(region, e, pos.saturating_add(8));
    let next = reader::read_u32(region, e, pos.saturating_add(12));
    if n == 0 || count is Err || file_off is Err || aux is Err || next is Err {
        Seq::empty()
    } else {
        let here = match reader::text_at_offset(strtab, file_off->Ok_0 as usize) {
            Some(file) => if file.len() > 0 {
                seq![
                    IndexedNeedView {
                        file,
                        indexed: aux_from(
                            region,
                            e,
                            strtab,
                            pos.saturating_add(aux->Ok_0 as usize),
                            count->Ok_0 as nat,
                        ),
                    },
                ]
            } else {
                Seq::empty()
            },
            None => Seq::empty(),
        };
        if next->Ok_0 == 0 {
            here
        } else {
            here + needs_from(
                region,
                e,
                strtab,
                pos.saturating_add(next->Ok_0 as usize),
                (n - 1) as nat,
            )
        }
    }
}

/// The version needs of an object.
pub open spec fn version_needs_of(
    d: Seq<u8>,
    e: Endian,
    shdrs: Seq<Shdr>,
    shstr: Seq<u8>,
    phdrs: Seq<Phdr>,
    dynamic: Seq<(i64, u64)>,
    strtab: Seq<u8>,
) -> Seq<IndexedNeedView> {
    match version_region(
        d,
        tables::section_of(shdrs, shstr, ".gnu.version_r"@, SHT_GNU_VERNEED),
        tables::dyn_offset(dynamic, phdrs, DT_VERNEED),
    ) {
        Some(region) => needs_from(region, e, strtab, 0, VERSION_LIMIT as nat),
        None => Seq::empty(),
    }
}

/// A version need with the version indices it maps.
#[derive(Debug, Clone)]
pub struct IndexedVersionNeed {
    pub file: String,
    pub indexed: Vec<(u16, String)>,
}

impl DeepView for IndexedVersionNeed {
    type V = IndexedNeedView;

    open spec fn deep_view(&self) -> IndexedNeedView {
        IndexedNeedView { file: self.file@, indexed: self.indexed.deep_view() }
    }
}

/// Reads a chain of version-need entries.
fn read_aux(region: &Bytes, strtab: &Bytes, start: usize, count: usize) -> (r: Vec<(u16, String)>)
    ensures
        r.deep_view() == aux_from(region@, region.order(), strtab@, start, count as nat),
{
    let mut out: Vec<(u16, String)> = Vec::new();
    let mut aux: usize = start;
    let mut left: usize = count;
    let ghost whole = aux_from(region@, region.order(), strtab@, start, count as nat);
    assert(out.deep_view() + whole =~= whole);
    while left > 0
        invariant
            out.deep_view() + aux_from(region@, region.order(), strtab@, aux, left as nat) == whole,
            whole == aux_from(region@, region.order(), strtab@, start, count as nat),
        decreases left,
    {
        let (index, name_off, next): (u16, u32, u32) = match (
            region.u16(aux.saturating_add(6)),
            region.u32(aux.saturating_add(8)),
            region.u32(aux.saturating_add(12)),
        ) {
            (Ok(index), Ok(name_off), Ok(next)) => (index, name_off, next),
            _ => {
                assert(out.deep_view() =~= whole);
                return out;
            },
        };
        let ghost before = out.deep_view();
        let ghost rest = aux_from(
            region@,
            region.order(),
            strtab@,
            aux.saturating_add(next as usize),
            (left - 1) as nat,
        );
        let found: Option<String> = strtab.cstr(name_off as usize);
        match found {
            Some(name) => {
                let entry: (u16, String) = (index, name);
                let ghost added = entry.deep_view();
                out.push(entry);
                assert(out.deep_view() =~= before.push(added));
                assert(out.deep_view() =~= before + seq![added]);
                assert(out.deep_view() + rest =~= before + (seq![added] + rest));
            },
            None => {
                assert(before + Seq::<(u16, Seq<char>)>::empty() =~= before);
                assert(Seq::<(u16, Seq<char>)>::empty() + rest =~= rest);
            },
        }
        if next == 0 {
            return out;
        }
        aux = aux.saturating_add(next as usize);
        left -= 1;
    }
    assert(out.deep_view() =~= whole);
    out
}

/// Reads a chain of version needs.
fn read_needs(region: &Bytes, strtab: &Bytes) -> (r: Vec<IndexedVersionNeed>)
    ensures
        r.deep_view() == needs_from(region@, region.order(), strtab@, 0, VERSION_LIMIT as nat),
{
    let mut out: Vec<IndexedVersionNeed> = Vec::new();
    let mut pos: usize = 0;
    let mut left: usize = VERSION_LIMIT;
    let ghost whole = needs_from(region@, region.order(), strtab@, 0, VERSION_LIMIT as nat);
    assert(out.deep_view() + whole =~= whole);
    while left > 0
        invariant
            out.deep_view() + needs_from(region@, region.order(), strtab@, pos, left as nat)
                == whole,
            whole == needs_from(region@, region.order(), strtab@, 0, VERSION_LIMIT as nat),
        decreases left,
    {
        let (count, file_off, aux, next): (u16, u32, u32, u32) = match (
            region.u16(pos.saturating_add(2)),
            region.u32(pos.saturating_add(4)),
            region.u32(pos.saturating_add(8)),
            region.u32(pos.saturating_add(12)),
        ) {
            (Ok(count), Ok(file_off), Ok(aux), Ok(next)) => (count, file_off, aux, next),
            _ => {
                assert(out.deep_view() =~= whole);
                return out;
            },
        };
        let ghost before = out.deep_view();
        let ghost rest = needs_from(
            region@,
            region.order(),
            strtab@,
            pos.saturating_add(next as usize),
            (left - 1) as nat,
        );
        assert(before + Seq::<IndexedNeedView>::empty() =~= before);
        assert(Seq::<IndexedNeedView>::empty() + rest =~= rest);
        let found: Option<String> = strtab.cstr(file_off as usize);
        match found {
            Some(file) => {
                if !file.as_str().is_empty() {
                    let indexed: Vec<(u16, String)> = read_aux(
                        region,
                        strtab,
                        pos.saturating_add(aux as usize),
                        count as usize,
                    );
                    let need: IndexedVersionNeed = IndexedVersionNeed { file, indexed };
                    let ghost added = need.deep_view();
                    out.push(need);
                    assert(out.deep_view() =~= before.push(added));
                    assert(out.deep_view() =~= before + seq![added]);
                    assert(out.deep_view() + rest =~= before + (seq![added] + rest));
                }
            },
            None => {},
        }
        if next == 0 {
            return out;
        }
        pos = pos.saturating_add(next as usize);
        left -= 1;
    }
    assert(out.deep_view() =~= whole);
    out
}

/// Reads `.gnu.version_r`: the versions that the object needs from others.
pub fn read_version_needs(
    b: &Bytes,
    shdrs: &[Shdr],
    shstr: &Bytes,
    phdrs: &[Phdr],
    dynamic: &[(i64, u64)],
    strtab: &Bytes,
) -> (r: Vec<IndexedVersionNeed>)
    ensures
        r.deep_view() == version_needs_of(
            b@,
            b.order(),
            shdrs@,
            shstr@,
            phdrs@,
            dynamic@,
            strtab@,
        ),
{
    let section: Option<Shdr> = tables::find_section(
        shdrs,
        shstr,
        ".gnu.version_r",
        SHT_GNU_VERNEED,
    );
    let dyn_off: Option<usize> = tables::find_dyn_offset(dynamic, phdrs, DT_VERNEED);
    match find_version_region(b, section, dyn_off) {
        Some(region) => read_needs(&region, strtab),
        None => {
            let none: Vec<IndexedVersionNeed> = Vec::new();
            assert(none.deep_view() =~= Seq::<IndexedNeedView>::empty());
            none
        },
    }
}

/// The defined versions in a chain of at most `n` entries, the first of them
/// at `pos`. The first name of an entry is that of the version; later ones name
/// the parent versions, which are defined elsewhere.
pub open spec fn definitions_from(
    region: Seq<u8>,
    e: Endian,
    strtab: Seq<u8>,
    pos: usize,
    n: nat,
) -> Seq<(u16, Seq<char>)>
    decreases n,
{
    let index = reader::read_u16(region, e, pos.saturating_add(4));
    let aux = reader::read_u32(region, e, pos.saturating_add(12));
    let next = reader::read_u32(region, e, pos.saturating_add(16));
    if n == 0 || index is Err || aux is Err || next is Err {
        Seq::empty()
    } else {
        let here = match reader::read_u32(region, e, pos.saturating_add(aux->Ok_0 as usize)) {
            Ok(name_off) => match reader::text_at_offset(strtab, name_off as usize) {
                Some(name) => seq![(index->Ok_0, name)],
                None => Seq::empty(),
            },
            Err(_) => Seq::empty(),
        };
        if next->Ok_0 == 0 {
            here
        } else {
            here + definitions_from(
                region,
                e,
                strtab,
                pos.saturating_add(next->Ok_0 as usize),
                (n - 1) as nat,
            )
        }
    }
}

/// The versions that an object defines, with their indices.
pub open spec fn defined_versions_of(
    d: Seq<u8>,
    e: Endian,
    shdrs: Seq<Shdr>,
    shstr: Seq<u8>,
    phdrs: Seq<Phdr>,
    dynamic: Seq<(i64, u64)>,
    strtab: Seq<u8>,
) -> Seq<(u16, Seq<char>)> {
    match version_region(
        d,
        tables::section_of(shdrs, shstr, ".gnu.version_d"@, SHT_GNU_VERDEF),
        tables::dyn_offset(dynamic, phdrs, DT_VERDEF),
    ) {
        Some(region) => definitions_from(region, e, strtab, 0, VERSION_LIMIT as nat),
        None => Seq::empty(),
    }
}

/// Reads a chain of version definitions.
fn read_definitions(region: &Bytes, strtab: &Bytes) -> (r: Vec<(u16, String)>)
    ensures
        r.deep_view() == definitions_from(
            region@,
            region.order(),
            strtab@,
            0,
            VERSION_LIMIT as nat,
        ),
{
    let mut out: Vec<(u16, String)> = Vec::new();
    let mut pos: usize = 0;
    let mut left: usize = VERSION_LIMIT;
    let ghost whole = definitions_from(region@, region.order(), strtab@, 0, VERSION_LIMIT as nat);
    assert(out.deep_view() + whole =~= whole);
    while left > 0
        invariant
            out.deep_view() + definitions_from(region@, region.order(), strtab@, pos, left as nat)
                == whole,
            whole == definitions_from(region@, region.order(), strtab@, 0, VERSION_LIMIT as nat),
        decreases left,
    {
        let (index, aux, next): (u16, u32, u32) = match (
            region.u16(pos.saturating_add(4)),
            region.u32(pos.saturating_add(12)),
            region.u32(pos.saturating_add(16)),
        ) {
            (Ok(index), Ok(aux), Ok(next)) => (index, aux, next),
            _ => {
                assert(out.deep_view() =~= whole);
                return out;
            },
        };
        let ghost before = out.deep_view();
        let ghost rest = definitions_from(
            region@,
            region.order(),
            strtab@,
            pos.saturating_add(next as usize),
            (left - 1) as nat,
        );
        assert(before + Seq::<(u16, Seq<char>)>::empty() =~= before);
        assert(Seq::<(u16, Seq<char>)>::empty() + rest =~= rest);
        if let Ok(name_off) = region.u32(pos.saturating_add(aux as usize)) {
            let found: Option<String> = strtab.cstr(name_off as usize);
            match found {
                Some(name) => {
                    let entry: (u16, String) = (index, name);
                    let ghost added = entry.deep_view();
                    out.push(entry);
                    assert(out.deep_view() =~= before.push(added));
                    assert(out.deep_view() =~= before + seq![added]);
                    assert(out.deep_view() + rest =~= before + (seq![added] + rest));
                },
                None => {},
            }
        }
        if next == 0 {
            return out;
        }
        pos = pos.saturating_add(next as usize);
        left -= 1;
    }
    assert(out.deep_view() =~= whole);
    out
}

/// Reads `.gnu.version_d`, returning each defined version's index and name.
///
/// The index is the value that appears in `.gnu.version` for symbols defining
/// that version, which is what makes per-symbol version checks possible.
pub fn read_defined_versions(
    b: &Bytes,
    shdrs: &[Shdr],
    shstr: &Bytes,
    phdrs: &[Phdr],
    dynamic: &[(i64, u64)],
    strtab: &Bytes,
) -> (r: Vec<(u16, String)>)
    ensures
        r.deep_view() == defined_versions_of(
            b@,
            b.order(),
            shdrs@,
            shstr@,
            phdrs@,
            dynamic@,
            strtab@,
        ),
{
    let section: Option<Shdr> = tables::find_section(
        shdrs,
        shstr,
        ".gnu.version_d",
        SHT_GNU_VERDEF,
    );
    let dyn_off: Option<usize> = tables::find_dyn_offset(dynamic, phdrs, DT_VERDEF);
    match find_version_region(b, section, dyn_off) {
        Some(region) => read_definitions(&region, strtab),
        None => {
            let none: Vec<(u16, String)> = Vec::new();
            assert(none.deep_view() =~= Seq::<(u16, Seq<char>)>::empty());
            none
        },
    }
}

// ---------------------------------------------------------------------------
// Laws
// ---------------------------------------------------------------------------

/// Reading symbols stops at the end of the image: however many a table claims
/// to hold, each one that is read starts inside the image, so there are no more
/// than fit.
pub proof fn symbol_reading_stops_at_the_end(
    d: Seq<u8>,
    e: Endian,
    class: Class,
    offset: usize,
    i: usize,
    count: usize,
    stride: usize,
    strtab: Seq<u8>,
    versym: Seq<u16>,
)
    requires
        d.len() <= usize::MAX,
    ensures
        ({
            let n = symbols_from(d, e, class, offset, i, count, stride, strtab, versym).len();
            &&& i <= count ==> n <= count - i
            &&& n > 0 ==> offset + (i + n - 1) * stride < d.len()
        }),
    decreases count - i,
{
    let n = symbols_from(d, e, class, offset, i, count, stride, strtab, versym).len() as int;
    if i < count {
        let at = tables::entry_offset(offset, i, stride);
        match raw_symbol(d, e, class, at) {
            None => {},
            Some(_) => {
                let next = (i + 1) as usize;
                symbol_reading_stops_at_the_end(
                    d,
                    e,
                    class,
                    offset,
                    next,
                    count,
                    stride,
                    strtab,
                    versym,
                );
                let rest = symbols_from(
                    d,
                    e,
                    class,
                    offset,
                    next,
                    count,
                    stride,
                    strtab,
                    versym,
                ).len() as int;
                assert(at + 4 <= d.len());
                assert(offset + i * stride < d.len());
                if n > 0 {
                    if rest > 0 {
                        assert((i + n - 1) * stride <= (next + rest - 1) * stride)
                            by (nonlinear_arith)
                            requires
                                i + n - 1 <= next + rest - 1,
                                stride >= 0,
                        ;
                    } else {
                        assert(n == 1);
                    }
                }
            },
        }
    }
}

} // verus!
