//! A small, dependency-free ELF reader.
//!
//! Only a handful of facts are read from an ELF object: the machine it
//! targets, how it is started (the interpreter), which shared objects it asks
//! for, and which symbols it expects those objects to provide. Everything else
//! (relocations, notes, debug info) is deliberately ignored.

use std::collections::HashMap;
use vstd::prelude::*;
use crate::text;
use reader::{Bytes, Endian};
use symbols::{IndexedNeedView, IndexedVersionNeed};
use tables::{Header, Phdr, Sections, Shdr};

pub mod reader;
pub mod symbols;
pub mod tables;

verus! {

broadcast use vstd::std_specs::hash::group_hash_axioms;

pub const ELFCLASS32: u8 = 1;

pub const ELFCLASS64: u8 = 2;

pub const ELFDATA2LSB: u8 = 1;

pub const ELFDATA2MSB: u8 = 2;

pub const SHT_DYNAMIC: u32 = 6;

pub const SHT_DYNSYM: u32 = 11;

pub const DT_NEEDED: i64 = 1;

pub const DT_STRTAB: i64 = 5;

pub const DT_SYMTAB: i64 = 6;

pub const DT_STRSZ: i64 = 10;

pub const DT_SYMENT: i64 = 11;

pub const DT_SONAME: i64 = 14;

pub const DT_RPATH: i64 = 15;

pub const DT_RUNPATH: i64 = 29;

pub const DT_FLAGS_1: i64 = 0x6fff_fffb;

/// `DF_1_PIE`: this `ET_DYN` object is a position-independent executable.
pub const DF_1_PIE: u64 = 0x0800_0000;

/// Something went wrong while reading an ELF object.
#[derive(Debug)]
pub enum ElfError {
    /// The buffer does not start with the ELF magic.
    NotElf,
    /// The file ended before a structure the parser needed.
    Truncated(String),
    /// The file is ELF, but internally inconsistent.
    Malformed(String),
    /// The file could not be read from disk.
    Io(String),
}

/// What an [`ElfError`] holds.
pub enum ElfErrorView {
    NotElf,
    Truncated(Seq<char>),
    Malformed(Seq<char>),
    Io(Seq<char>),
}

impl ElfErrorView {
    /// The text of the error.
    pub open spec fn text(self) -> Seq<char> {
        match self {
            ElfErrorView::NotElf => "not an ELF file"@,
            ElfErrorView::Truncated(m) => "truncated ELF file: "@ + m,
            ElfErrorView::Malformed(m) => "malformed ELF file: "@ + m,
            ElfErrorView::Io(m) => m,
        }
    }
}

impl DeepView for ElfError {
    type V = ElfErrorView;

    open spec fn deep_view(&self) -> ElfErrorView {
        match self {
            ElfError::NotElf => ElfErrorView::NotElf,
            ElfError::Truncated(m) => ElfErrorView::Truncated(m@),
            ElfError::Malformed(m) => ElfErrorView::Malformed(m@),
            ElfError::Io(m) => ElfErrorView::Io(m@),
        }
    }
}

impl ElfError {
    /// The text of the error.
    pub fn message(&self) -> (r: String)
        ensures
            r@ == self.deep_view().text(),
    {
        let mut out: String = String::new();
        match self {
            ElfError::NotElf => {
                out.append("not an ELF file");
            },
            ElfError::Truncated(m) => {
                out.append("truncated ELF file: ");
                out.append(m.as_str());
            },
            ElfError::Malformed(m) => {
                out.append("malformed ELF file: ");
                out.append(m.as_str());
            },
            ElfError::Io(m) => {
                out.append(m.as_str());
            },
        }
        assert(out@ =~= self.deep_view().text());
        out
    }
}

/// ELF word size.
#[derive(Debug, Clone, Copy, PartialEq, Eq, Structural)]
pub enum Class {
    Elf32,
    Elf64,
}

impl Class {
    /// The word size in bits.
    pub open spec fn width(self) -> u32 {
        match self {
            Class::Elf32 => 32,
            Class::Elf64 => 64,
        }
    }

    pub fn bits(self) -> (r: u32)
        ensures
            r == self.width(),
    {
        match self {
            Class::Elf32 => 32,
            Class::Elf64 => 64,
        }
    }
}

/// The `e_type` field.
#[derive(Debug, Clone, Copy, PartialEq, Eq, Structural)]
pub enum ElfType {
    Relocatable,
    Executable,
    Shared,
    Core,
    Other(u16),
}

impl ElfType {
    /// The type that an `e_type` value stands for.
    pub open spec fn of_raw(value: u16) -> ElfType {
        if value == 1 {
            ElfType::Relocatable
        } else if value == 2 {
            ElfType::Executable
        } else if value == 3 {
            ElfType::Shared
        } else if value == 4 {
            ElfType::Core
        } else {
            ElfType::Other(value)
        }
    }

    pub(crate) fn from_raw(value: u16) -> (r: Self)
        ensures
            r == ElfType::of_raw(value),
    {
        match value {
            1 => ElfType::Relocatable,
            2 => ElfType::Executable,
            3 => ElfType::Shared,
            4 => ElfType::Core,
            other => ElfType::Other(other),
        }
    }
}

/// Symbol binding (`st_info >> 4`).
#[derive(Debug, Clone, Copy, PartialEq, Eq, Structural)]
pub enum Binding {
    Local,
    Global,
    Weak,
    GnuUnique,
    Other(u8),
}

impl Binding {
    /// The binding that a raw value stands for.
    pub open spec fn of_raw(value: u8) -> Binding {
        if value == 0 {
            Binding::Local
        } else if value == 1 {
            Binding::Global
        } else if value == 2 {
            Binding::Weak
        } else if value == 10 {
            Binding::GnuUnique
        } else {
            Binding::Other(value)
        }
    }

    pub(crate) fn from_raw(value: u8) -> (r: Self)
        ensures
            r == Binding::of_raw(value),
    {
        match value {
            0 => Binding::Local,
            1 => Binding::Global,
            2 => Binding::Weak,
            10 => Binding::GnuUnique,
            other => Binding::Other(other),
        }
    }

    /// The bindings that can satisfy another object's import.
    pub open spec fn is_provider(self) -> bool {
        self is Global || self is Weak || self is GnuUnique
    }

    /// Bindings that can satisfy another object's import.
    pub(crate) fn provides(self) -> (r: bool)
        ensures
            r == self.is_provider(),
    {
        match self {
            Binding::Global => true,
            Binding::Weak => true,
            Binding::GnuUnique => true,
            _ => false,
        }
    }
}

/// Symbol type (`st_info & 0x0f`).
#[derive(Debug, Clone, Copy, PartialEq, Eq, Structural)]
pub enum SymType {
    NoType,
    Object,
    Func,
    Section,
    File,
    Common,
    Tls,
    GnuIfunc,
    Other(u8),
}

impl SymType {
    /// The symbol type that a raw value stands for.
    pub open spec fn of_raw(value: u8) -> SymType {
        if value == 0 {
            SymType::NoType
        } else if value == 1 {
            SymType::Object
        } else if value == 2 {
            SymType::Func
        } else if value == 3 {
            SymType::Section
        } else if value == 4 {
            SymType::File
        } else if value == 5 {
            SymType::Common
        } else if value == 6 {
            SymType::Tls
        } else if value == 10 {
            SymType::GnuIfunc
        } else {
            SymType::Other(value)
        }
    }

    pub(crate) fn from_raw(value: u8) -> (r: Self)
        ensures
            r == SymType::of_raw(value),
    {
        match value {
            0 => SymType::NoType,
            1 => SymType::Object,
            2 => SymType::Func,
            3 => SymType::Section,
            4 => SymType::File,
            5 => SymType::Common,
            6 => SymType::Tls,
            10 => SymType::GnuIfunc,
            other => SymType::Other(other),
        }
    }
}

/// One entry of `.dynsym`.
#[derive(Debug, Clone)]
pub struct DynSymbol {
    pub name: String,
    pub binding: Binding,
    pub sym_type: SymType,
    /// `st_shndx == SHN_UNDEF`: this object imports the symbol.
    pub undefined: bool,
    /// Index into the GNU version tables (0 = local, 1 = global/base).
    pub version_index: u16,
}

/// What a [`DynSymbol`] holds.
pub struct DynSymbolView {
    pub name: Seq<char>,
    pub binding: Binding,
    pub sym_type: SymType,
    pub undefined: bool,
    pub version_index: u16,
}

impl DynSymbolView {
    /// A definition that other objects may link against.
    pub open spec fn is_definition(self) -> bool {
        !self.undefined && self.binding.is_provider()
    }
}

impl DeepView for DynSymbol {
    type V = DynSymbolView;

    open spec fn deep_view(&self) -> DynSymbolView {
        DynSymbolView {
            name: self.name@,
            binding: self.binding,
            sym_type: self.sym_type,
            undefined: self.undefined,
            version_index: self.version_index,
        }
    }
}

impl DynSymbol {
    /// True when this symbol is a definition other objects may link against.
    pub fn satisfies(&self) -> (r: bool)
        ensures
            r == self.deep_view().is_definition(),
    {
        !self.undefined && self.binding.provides()
    }
}

/// A versioned import: `file` must provide each of `versions`.
///
/// This is the `GLIBC_2.42` machinery: an object records which symbol versions
/// it needs from which shared object.
#[derive(Debug, Clone)]
pub struct VersionNeed {
    pub file: String,
    pub versions: Vec<String>,
}

/// What a [`VersionNeed`] holds.
pub struct VersionNeedView {
    pub file: Seq<char>,
    pub versions: Seq<Seq<char>>,
}

impl DeepView for VersionNeed {
    type V = VersionNeedView;

    open spec fn deep_view(&self) -> VersionNeedView {
        VersionNeedView { file: self.file@, versions: self.versions.deep_view() }
    }
}

/// The name and the owner of each needed symbol version, by version index.
#[derive(Debug, Clone)]
pub struct VersionTable {
    entries: HashMap<u16, (String, String)>,
}

impl DeepView for VersionTable {
    type V = Map<u16, (Seq<char>, Seq<char>)>;

    closed spec fn deep_view(&self) -> Map<u16, (Seq<char>, Seq<char>)> {
        self.entries@.map_values(|entry: (String, String)| (entry.0@, entry.1@))
    }
}

impl VersionTable {
    /// An empty table.
    fn new() -> (r: Self)
        ensures
            r.deep_view() == Map::<u16, (Seq<char>, Seq<char>)>::empty(),
    {
        let r: VersionTable = VersionTable { entries: HashMap::new() };
        assert(r.deep_view() =~= Map::<u16, (Seq<char>, Seq<char>)>::empty());
        r
    }

    /// Sets the name and the owner of a version.
    fn insert(&mut self, index: u16, name: String, file: String)
        ensures
            final(self).deep_view() == old(self).deep_view().insert(index, (name@, file@)),
    {
        let ghost entry = (name, file);
        self.entries.insert(index, (name, file));
        assert(self.deep_view() =~= old(self).deep_view().insert(index, (entry.0@, entry.1@)));
    }
}

/// The name of each defined symbol version, by version index.
#[derive(Debug, Clone)]
pub struct DefinitionTable {
    names: HashMap<u16, String>,
}

impl DeepView for DefinitionTable {
    type V = Map<u16, Seq<char>>;

    closed spec fn deep_view(&self) -> Map<u16, Seq<char>> {
        self.names@.map_values(|name: String| name@)
    }
}

impl DefinitionTable {
    /// An empty table.
    fn new() -> (r: Self)
        ensures
            r.deep_view() == Map::<u16, Seq<char>>::empty(),
    {
        let r: DefinitionTable = DefinitionTable { names: HashMap::new() };
        assert(r.deep_view() =~= Map::<u16, Seq<char>>::empty());
        r
    }

    /// Sets the name of a version.
    fn insert(&mut self, index: u16, name: String)
        ensures
            final(self).deep_view() == old(self).deep_view().insert(index, name@),
    {
        let ghost text = name@;
        self.names.insert(index, name);
        assert(self.deep_view() =~= old(self).deep_view().insert(index, text));
    }
}

/// The parsed, useful subset of an ELF object.
#[derive(Debug, Clone)]
pub struct ElfFile {
    pub path: String,
    pub class: Class,
    pub endian: Endian,
    pub etype: ElfType,
    pub machine: u16,
    pub entry: u64,
    /// `PT_INTERP`: the dynamic loader that starts this program.
    pub interpreter: Option<String>,
    /// `DT_SONAME`: the name this object wants to be known by.
    pub soname: Option<String>,
    /// `DT_NEEDED`: shared objects this one imports.
    pub needed: Vec<String>,
    /// `DT_RPATH`: legacy search path (transitive, ignored if RUNPATH is set).
    pub rpath: Vec<String>,
    /// `DT_RUNPATH`: modern search path (applies to this object only).
    pub runpath: Vec<String>,
    /// True when the object has a `PT_DYNAMIC`/`.dynamic` table.
    pub has_dynamic: bool,
    /// `DT_FLAGS_1`; bit `DF_1_PIE` marks a position-independent executable.
    pub flags_1: u64,
    pub symbols: Vec<DynSymbol>,
    /// Versioned imports grouped by the object that must provide them.
    pub version_needs: Vec<VersionNeed>,
    /// Version names this object itself defines (from `.gnu.version_d`).
    pub defined_versions: Vec<String>,
    /// Version name/owner for each symbol version index.
    pub version_by_index: VersionTable,
    /// Defined version names keyed by `.gnu.version` index.
    pub defined_version_map: DefinitionTable,
}

/// What an [`ElfFile`] holds.
pub struct ElfView {
    pub path: Seq<char>,
    pub class: Class,
    pub endian: Endian,
    pub etype: ElfType,
    pub machine: u16,
    pub entry: u64,
    pub interpreter: Option<Seq<char>>,
    pub soname: Option<Seq<char>>,
    pub needed: Seq<Seq<char>>,
    pub rpath: Seq<Seq<char>>,
    pub runpath: Seq<Seq<char>>,
    pub has_dynamic: bool,
    pub flags_1: u64,
    pub symbols: Seq<DynSymbolView>,
    pub version_needs: Seq<VersionNeedView>,
    pub defined_versions: Seq<Seq<char>>,
    /// The name of each needed version and the object that must provide it.
    pub version_by_index: Map<u16, (Seq<char>, Seq<char>)>,
    /// The name of each defined version.
    pub defined_by_index: Map<u16, Seq<char>>,
}

impl ElfView {
    /// The names end where they ended in the image: there is no NUL in the
    /// interpreter, in the name of the object, in those of the libraries that
    /// it needs and in those of its symbols.
    pub open spec fn names_are_ended(self) -> bool {
        &&& self.interpreter matches Some(path) ==> !path.contains('\0')
        &&& self.soname matches Some(name) ==> !name.contains('\0')
        &&& forall|i: int| 0 <= i < self.needed.len() ==> !(#[trigger] self.needed[i]).contains('\0')
        &&& forall|i: int|
            0 <= i < self.symbols.len() ==> !(#[trigger] self.symbols[i]).name.contains('\0')
    }
}

impl DeepView for ElfFile {
    type V = ElfView;

    open spec fn deep_view(&self) -> ElfView {
        ElfView {
            path: self.path@,
            class: self.class,
            endian: self.endian,
            etype: self.etype,
            machine: self.machine,
            entry: self.entry,
            interpreter: self.interpreter.deep_view(),
            soname: self.soname.deep_view(),
            needed: self.needed.deep_view(),
            rpath: self.rpath.deep_view(),
            runpath: self.runpath.deep_view(),
            has_dynamic: self.has_dynamic,
            flags_1: self.flags_1,
            symbols: self.symbols.deep_view(),
            version_needs: self.version_needs.deep_view(),
            defined_versions: self.defined_versions.deep_view(),
            version_by_index: self.version_by_index.deep_view(),
            defined_by_index: self.defined_version_map.deep_view(),
        }
    }
}

// ---------------------------------------------------------------------------
// What an image says
// ---------------------------------------------------------------------------

/// The first four bytes of every ELF file.
pub open spec fn magic() -> Seq<u8> {
    seq![0x7fu8, 0x45u8, 0x4cu8, 0x46u8]
}

/// The word size that an identification byte stands for.
pub open spec fn class_of(byte: u8) -> Option<Class> {
    if byte == ELFCLASS32 {
        Some(Class::Elf32)
    } else if byte == ELFCLASS64 {
        Some(Class::Elf64)
    } else {
        None
    }
}

/// The byte order that an identification byte stands for.
pub open spec fn endian_of(byte: u8) -> Option<Endian> {
    if byte == ELFDATA2LSB {
        Some(Endian::Little)
    } else if byte == ELFDATA2MSB {
        Some(Endian::Big)
    } else {
        None
    }
}

/// The section names.
pub open spec fn section_names(d: Seq<u8>, shdrs: Seq<Shdr>, shstrndx: usize) -> Seq<u8> {
    if shstrndx != 0 && shstrndx < shdrs.len() {
        tables::span_or_empty(
            d,
            shdrs[shstrndx as int].sh_offset as usize,
            shdrs[shstrndx as int].sh_size as usize,
        )
    } else {
        Seq::empty()
    }
}

/// The interpreter that the image names.
pub open spec fn interpreter_of(d: Seq<u8>, phdrs: Seq<Phdr>) -> Option<Seq<char>> {
    match tables::typed_segment(phdrs, tables::PT_INTERP) {
        Some(p) => match reader::span(d, p.p_offset as usize, p.p_filesz as usize) {
            Ok(s) => {
                let name = text::utf8_lossy(s.take(reader::first_zero(s)));
                if name.len() > 0 {
                    Some(name)
                } else {
                    None
                }
            },
            Err(_) => None,
        },
        None => None,
    }
}

/// Where the dynamic table stands: through `PT_DYNAMIC`, or through the
/// `.dynamic` section on files whose program headers are unusual.
pub open spec fn dynamic_place(shdrs: Seq<Shdr>, phdrs: Seq<Phdr>) -> Option<(usize, usize)> {
    match tables::typed_segment(phdrs, tables::PT_DYNAMIC) {
        Some(p) => Some((p.p_offset as usize, p.p_filesz as usize)),
        None => match tables::typed_section(shdrs, SHT_DYNAMIC) {
            Some(s) => Some((s.sh_offset as usize, s.sh_size as usize)),
            None => None,
        },
    }
}

/// The dynamic table.
pub open spec fn dynamic_of(
    d: Seq<u8>,
    e: Endian,
    class: Class,
    shdrs: Seq<Shdr>,
    phdrs: Seq<Phdr>,
) -> Result<Seq<(i64, u64)>, reader::OutOfBounds> {
    match dynamic_place(shdrs, phdrs) {
        Some((off, size)) => tables::dynamic_at(d, e, class, off, size),
        None => Ok(Seq::empty()),
    }
}

/// The dynamic string table.
pub open spec fn strtab_of(
    d: Seq<u8>,
    shdrs: Seq<Shdr>,
    shstr: Seq<u8>,
    phdrs: Seq<Phdr>,
    dynamic: Seq<(i64, u64)>,
) -> Seq<u8> {
    match tables::named_section(shdrs, shstr, ".dynstr"@) {
        Some(s) => tables::span_or_empty(d, s.sh_offset as usize, s.sh_size as usize),
        None => match tables::dyn_offset(dynamic, phdrs, DT_STRTAB) {
            Some(off) => {
                let size = match tables::dyn_value(dynamic, DT_STRSZ) {
                    Some(v) => v as usize,
                    None => 0,
                };
                if size > 0 {
                    tables::span_or_empty(d, off, size)
                } else {
                    tables::tail_or_empty(d, off)
                }
            },
            None => Seq::empty(),
        },
    }
}

/// The names of the objects that the dynamic table asks for.
pub open spec fn needed_names(dynamic: Seq<(i64, u64)>, strtab: Seq<u8>) -> Seq<Seq<char>>
    decreases dynamic.len(),
{
    if dynamic.len() == 0 {
        Seq::empty()
    } else {
        let rest = needed_names(dynamic.drop_last(), strtab);
        if dynamic.last().0 == DT_NEEDED {
            match reader::text_at_offset(strtab, dynamic.last().1 as usize) {
                Some(name) => rest.push(name),
                None => rest,
            }
        } else {
            rest
        }
    }
}

/// The text that the first entry with a tag names.
pub open spec fn dyn_text(dynamic: Seq<(i64, u64)>, strtab: Seq<u8>, tag: i64) -> Option<Seq<char>> {
    match tables::dyn_value(dynamic, tag) {
        Some(v) => reader::text_at_offset(strtab, v as usize),
        None => None,
    }
}

/// The pieces that are not empty.
pub open spec fn nonempty(pieces: Seq<Seq<char>>) -> Seq<Seq<char>>
    decreases pieces.len(),
{
    if pieces.len() == 0 {
        Seq::empty()
    } else {
        let rest = nonempty(pieces.drop_last());
        if pieces.last().len() > 0 {
            rest.push(pieces.last())
        } else {
            rest
        }
    }
}

/// The directories in a colon-separated list.
pub open spec fn paths_in(value: Seq<char>) -> Seq<Seq<char>> {
    nonempty(text::split_on(value, ':'))
}

/// The directories that the first entry with a tag lists.
pub open spec fn dyn_paths(dynamic: Seq<(i64, u64)>, strtab: Seq<u8>, tag: i64) -> Seq<Seq<char>> {
    match dyn_text(dynamic, strtab, tag) {
        Some(value) => paths_in(value),
        None => Seq::empty(),
    }
}

/// The offset of the symbol table, the number of its entries and the distance
/// between them. The hash table states the symbol count independently of the
/// section's size, so it caps the count when the section header is damaged.
pub open spec fn symbol_place(
    d: Seq<u8>,
    e: Endian,
    class: Class,
    shdrs: Seq<Shdr>,
    shstr: Seq<u8>,
    phdrs: Seq<Phdr>,
    dynamic: Seq<(i64, u64)>,
) -> (usize, usize, usize) {
    let hashed = tables::hash_count(d, e, class, phdrs, dynamic);
    match tables::section_of(shdrs, shstr, ".dynsym"@, SHT_DYNSYM) {
        Some(s) => {
            let stride = if s.sh_entsize as usize == 0 {
                tables::sym_size(class)
            } else {
                s.sh_entsize as usize
            };
            let in_section = (s.sh_size as usize) / stride;
            let count = match hashed {
                Some(n) => if n < in_section {
                    n
                } else {
                    in_section
                },
                None => in_section,
            };
            (s.sh_offset as usize, count, stride)
        },
        None => match tables::dyn_value(dynamic, DT_SYMTAB) {
            Some(vaddr) => {
                let off = match tables::offset_of_vaddr(phdrs, vaddr) {
                    Some(off) => off,
                    None => 0,
                };
                let stride = match tables::dyn_value(dynamic, DT_SYMENT) {
                    Some(v) => if v as usize == 0 {
                        tables::sym_size(class)
                    } else {
                        v as usize
                    },
                    None => tables::sym_size(class),
                };
                let count = match hashed {
                    Some(n) => n,
                    None => 0,
                };
                (off, count, stride)
            },
            None => (0, 0, tables::sym_size(class)),
        },
    }
}

/// The dynamic symbols.
pub open spec fn symbols_of(
    d: Seq<u8>,
    e: Endian,
    class: Class,
    shdrs: Seq<Shdr>,
    shstr: Seq<u8>,
    phdrs: Seq<Phdr>,
    dynamic: Seq<(i64, u64)>,
    strtab: Seq<u8>,
) -> Seq<DynSymbolView> {
    let (off, count, stride) = symbol_place(d, e, class, shdrs, shstr, phdrs, dynamic);
    if stride >= tables::sym_size(class) {
        symbols::symbols_from(
            d,
            e,
            class,
            off,
            0,
            count,
            stride,
            strtab,
            symbols::versym_of(d, e, shdrs, shstr, phdrs, dynamic, count),
        )
    } else {
        Seq::empty()
    }
}

/// The names in a list of indexed names.
pub open spec fn names_of(indexed: Seq<(u16, Seq<char>)>) -> Seq<Seq<char>> {
    indexed.map_values(|entry: (u16, Seq<char>)| entry.1)
}

/// The version needs, without their indices.
pub open spec fn plain_needs(needs: Seq<IndexedNeedView>) -> Seq<VersionNeedView> {
    needs.map_values(
        |need: IndexedNeedView| VersionNeedView { file: need.file, versions: names_of(need.indexed) },
    )
}

/// A table of version names and owners, with those of one need added.
pub open spec fn with_need(
    table: Map<u16, (Seq<char>, Seq<char>)>,
    file: Seq<char>,
    indexed: Seq<(u16, Seq<char>)>,
) -> Map<u16, (Seq<char>, Seq<char>)>
    decreases indexed.len(),
{
    if indexed.len() == 0 {
        table
    } else {
        with_need(table, file, indexed.drop_last()).insert(
            indexed.last().0,
            (indexed.last().1, file),
        )
    }
}

/// The name and the owner of each needed version: those of the last need that
/// gives the index.
pub open spec fn versions_by_index(needs: Seq<IndexedNeedView>) -> Map<u16, (Seq<char>, Seq<char>)>
    decreases needs.len(),
{
    if needs.len() == 0 {
        Map::empty()
    } else {
        with_need(versions_by_index(needs.drop_last()), needs.last().file, needs.last().indexed)
    }
}

/// The name of each defined version: that of the last definition which gives
/// the index.
pub open spec fn definitions_by_index(defined: Seq<(u16, Seq<char>)>) -> Map<u16, Seq<char>>
    decreases defined.len(),
{
    if defined.len() == 0 {
        Map::empty()
    } else {
        definitions_by_index(defined.drop_last()).insert(defined.last().0, defined.last().1)
    }
}

/// The facts of an image whose tables have been read.
pub open spec fn facts(
    path: Seq<char>,
    d: Seq<u8>,
    e: Endian,
    class: Class,
    header: Header,
    shdrs: Seq<Shdr>,
    shstr: Seq<u8>,
    phdrs: Seq<Phdr>,
    dynamic: Seq<(i64, u64)>,
) -> ElfView {
    let strtab = strtab_of(d, shdrs, shstr, phdrs, dynamic);
    let needs = symbols::version_needs_of(d, e, shdrs, shstr, phdrs, dynamic, strtab);
    let defined = symbols::defined_versions_of(d, e, shdrs, shstr, phdrs, dynamic, strtab);
    ElfView {
        path,
        class,
        endian: e,
        etype: header.etype,
        machine: header.machine,
        entry: header.entry,
        interpreter: interpreter_of(d, phdrs),
        soname: dyn_text(dynamic, strtab, DT_SONAME),
        needed: needed_names(dynamic, strtab),
        rpath: dyn_paths(dynamic, strtab, DT_RPATH),
        runpath: dyn_paths(dynamic, strtab, DT_RUNPATH),
        has_dynamic: dynamic.len() > 0,
        flags_1: match tables::dyn_value(dynamic, DT_FLAGS_1) {
            Some(v) => v,
            None => 0,
        },
        symbols: symbols_of(d, e, class, shdrs, shstr, phdrs, dynamic, strtab),
        version_needs: plain_needs(needs),
        defined_versions: names_of(defined),
        version_by_index: versions_by_index(needs),
        defined_by_index: definitions_by_index(defined),
    }
}

/// What an image of a known word size and byte order says, or why it cannot be
/// read.
pub open spec fn parsed_tables(path: Seq<char>, d: Seq<u8>, e: Endian, class: Class) -> Result<
    ElfView,
    ElfErrorView,
> {
    if d.len() < tables::header_size(class) {
        Err(ElfErrorView::Truncated(tables::short_header_text(d.len(), class)))
    } else {
        let header = tables::header_of(d, e, class);
        match tables::sections_of(d, e, class, header) {
            Err(x) => Err(ElfErrorView::Truncated(x.text())),
            Ok((shdrs, shstrndx, phnum)) => match tables::segments_of(d, e, class, header, phnum) {
                Err(x) => Err(ElfErrorView::Truncated(x.text())),
                Ok(phdrs) => match dynamic_of(d, e, class, shdrs, phdrs) {
                    Err(x) => Err(ElfErrorView::Truncated(x.text())),
                    Ok(dynamic) => Ok(
                        facts(
                            path,
                            d,
                            e,
                            class,
                            header,
                            shdrs,
                            section_names(d, shdrs, shstrndx),
                            phdrs,
                            dynamic,
                        ),
                    ),
                },
            },
        }
    }
}

/// What an image says, or why it cannot be read.
pub open spec fn parsed(path: Seq<char>, d: Seq<u8>) -> Result<ElfView, ElfErrorView> {
    if d.len() < 16 || d.take(4) != magic() {
        Err(ElfErrorView::NotElf)
    } else if class_of(d[4]) is None {
        Err(ElfErrorView::Malformed("unknown ELF class "@ + text::decimal(d[4] as nat)))
    } else if endian_of(d[5]) is None {
        Err(ElfErrorView::Malformed("unknown ELF data encoding "@ + text::decimal(d[5] as nat)))
    } else {
        parsed_tables(path, d, endian_of(d[5])->0, class_of(d[4])->0)
    }
}

/// The bytes of a file, or the error that came up in reading it.
pub open spec fn content_of(content: Result<Vec<u8>, String>) -> Result<Seq<u8>, Seq<char>> {
    match content {
        Ok(data) => Ok(data@),
        Err(error) => Err(error@),
    }
}

/// What a file says, or why it cannot be read.
pub open spec fn parsed_file(path: Seq<char>, content: Result<Seq<u8>, Seq<char>>) -> Result<
    ElfView,
    ElfErrorView,
> {
    match content {
        Ok(d) => parsed(path, d),
        Err(error) => Err(ElfErrorView::Io(error)),
    }
}

// ---------------------------------------------------------------------------
// Reading an image
// ---------------------------------------------------------------------------

/// Splits a `DT_RPATH`/`DT_RUNPATH`/`LD_LIBRARY_PATH` value.
pub fn split_paths(value: &str) -> (r: Vec<String>)
    ensures
        r.deep_view() == paths_in(value@),
{
    let chars: Vec<char> = text::chars_of(value);
    let pieces: Vec<Vec<char>> = text::split_chars(chars.as_slice(), ':');
    let mut out: Vec<String> = Vec::new();
    let mut i: usize = 0;
    assert(pieces.deep_view().take(0) =~= Seq::<Seq<char>>::empty());
    assert(out.deep_view() =~= Seq::<Seq<char>>::empty());
    while i < pieces.len()
        invariant
            i <= pieces@.len(),
            out.deep_view() == nonempty(pieces.deep_view().take(i as int)),
        decreases pieces@.len() - i,
    {
        let ghost before = out.deep_view();
        assert(pieces.deep_view().take(i + 1).drop_last() =~= pieces.deep_view().take(i as int));
        assert(pieces.deep_view()[i as int] =~= pieces@[i as int]@);
        if pieces[i].len() > 0 {
            let piece: String = text::string_of(pieces[i].as_slice());
            let ghost added = piece@;
            out.push(piece);
            assert(out.deep_view() =~= before.push(added));
        }
        i += 1;
    }
    assert(pieces.deep_view().take(i as int) =~= pieces.deep_view());
    out
}

/// Reads the interpreter that the image names.
fn read_interpreter(b: &Bytes, phdrs: &[Phdr]) -> (r: Option<String>)
    ensures
        r.deep_view() == interpreter_of(b@, phdrs@),
        r matches Some(s) ==> !s@.contains('\0'),
{
    match tables::segment_by_type(phdrs, tables::PT_INTERP) {
        Some(p) => match b.slice(p.p_offset as usize, p.p_filesz as usize) {
            Ok(s) => {
                let end: usize = reader::find_zero(s);
                let name: &[u8] = vstd::slice::slice_subrange(s, 0, end);
                assert(name@ =~= s@.take(end as int));
                proof {
                    reader::lemma_first_zero(s@);
                }
                let path: String = text::decode_lossy(name);
                if path.as_str().is_empty() {
                    None
                } else {
                    Some(path)
                }
            },
            Err(_) => None,
        },
        None => None,
    }
}

/// Reads the dynamic table.
fn find_dynamic(b: &Bytes, class: Class, shdrs: &[Shdr], phdrs: &[Phdr]) -> (r: Result<
    Vec<(i64, u64)>,
    reader::OutOfBounds,
>)
    ensures
        r matches Ok(v) ==> dynamic_of(b@, b.order(), class, shdrs@, phdrs@) == Ok::<
            Seq<(i64, u64)>,
            reader::OutOfBounds,
        >(v@),
        r matches Err(x) ==> dynamic_of(b@, b.order(), class, shdrs@, phdrs@) == Err::<
            Seq<(i64, u64)>,
            reader::OutOfBounds,
        >(x),
{
    match tables::segment_by_type(phdrs, tables::PT_DYNAMIC) {
        Some(p) => tables::read_dynamic(b, class, p.p_offset as usize, p.p_filesz as usize),
        None => match tables::section_by_type(shdrs, SHT_DYNAMIC) {
            Some(s) => tables::read_dynamic(b, class, s.sh_offset as usize, s.sh_size as usize),
            None => {
                let none: Vec<(i64, u64)> = Vec::new();
                assert(none@ =~= Seq::<(i64, u64)>::empty());
                Ok(none)
            },
        },
    }
}

/// Finds the dynamic string table.
fn find_strtab<'a>(
    b: &Bytes<'a>,
    shdrs: &[Shdr],
    shstr: &Bytes,
    phdrs: &[Phdr],
    dynamic: &[(i64, u64)],
) -> (r: &'a [u8])
    ensures
        r@ == strtab_of(b@, shdrs@, shstr@, phdrs@, dynamic@),
{
    match tables::section_by_name(shdrs, shstr, ".dynstr") {
        Some(s) => tables::slice_or_empty(b, s.sh_offset as usize, s.sh_size as usize),
        None => match tables::find_dyn_offset(dynamic, phdrs, DT_STRTAB) {
            Some(off) => {
                let size: usize = match tables::dyn_get(dynamic, DT_STRSZ) {
                    Some(v) => v as usize,
                    None => 0,
                };
                if size > 0 {
                    tables::slice_or_empty(b, off, size)
                } else {
                    tables::rest_or_empty(b, off)
                }
            },
            None => {
                let none: &'a [u8] = vstd::slice::slice_subrange(b.raw(), 0, 0);
                assert(none@ =~= Seq::<u8>::empty());
                none
            },
        },
    }
}

/// Reads the names of the objects that the dynamic table asks for.
fn read_needed(dynamic: &[(i64, u64)], strtab: &Bytes) -> (r: Vec<String>)
    ensures
        r.deep_view() == needed_names(dynamic@, strtab@),
        forall|k: int| 0 <= k < r@.len() ==> !(#[trigger] r.deep_view()[k]).contains('\0'),
{
    let mut out: Vec<String> = Vec::new();
    let mut i: usize = 0;
    assert(dynamic@.take(0) =~= Seq::<(i64, u64)>::empty());
    assert(out.deep_view() =~= Seq::<Seq<char>>::empty());
    while i < dynamic.len()
        invariant
            i <= dynamic@.len(),
            out.deep_view() == needed_names(dynamic@.take(i as int), strtab@),
            forall|k: int| 0 <= k < out@.len() ==> !(#[trigger] out.deep_view()[k]).contains('\0'),
        decreases dynamic@.len() - i,
    {
        let ghost before = out.deep_view();
        assert(dynamic@.take(i + 1).drop_last() =~= dynamic@.take(i as int));
        if dynamic[i].0 == DT_NEEDED {
            let found: Option<String> = strtab.cstr(dynamic[i].1 as usize);
            match found {
                Some(name) => {
                    let ghost added = name@;
                    out.push(name);
                    assert(out.deep_view() =~= before.push(added));
                },
                None => {},
            }
        }
        i += 1;
    }
    assert(dynamic@.take(i as int) =~= dynamic@);
    out
}

/// Reads the text that the first entry with a tag names.
fn read_dyn_text(dynamic: &[(i64, u64)], strtab: &Bytes, tag: i64) -> (r: Option<String>)
    ensures
        r.deep_view() == dyn_text(dynamic@, strtab@, tag),
        r matches Some(s) ==> !s@.contains('\0'),
{
    match tables::dyn_get(dynamic, tag) {
        Some(v) => strtab.cstr(v as usize),
        None => None,
    }
}

/// Reads the directories that the first entry with a tag lists.
fn read_dyn_paths(dynamic: &[(i64, u64)], strtab: &Bytes, tag: i64) -> (r: Vec<String>)
    ensures
        r.deep_view() == dyn_paths(dynamic@, strtab@, tag),
{
    match read_dyn_text(dynamic, strtab, tag) {
        Some(value) => split_paths(value.as_str()),
        None => {
            let none: Vec<String> = Vec::new();
            assert(none.deep_view() =~= Seq::<Seq<char>>::empty());
            none
        },
    }
}

/// Locates the symbol table: its offset, the number of its entries and the
/// distance between them.
fn find_symbols(
    b: &Bytes,
    class: Class,
    shdrs: &[Shdr],
    shstr: &Bytes,
    phdrs: &[Phdr],
    dynamic: &[(i64, u64)],
) -> (r: (usize, usize, usize))
    ensures
        r == symbol_place(b@, b.order(), class, shdrs@, shstr@, phdrs@, dynamic@),
{
    let hashed: Option<usize> = tables::hash_symbol_count(b, class, phdrs, dynamic);
    match tables::find_section(shdrs, shstr, ".dynsym", SHT_DYNSYM) {
        Some(s) => {
            let stride: usize = if s.sh_entsize as usize == 0 {
                tables::default_sym_size(class)
            } else {
                s.sh_entsize as usize
            };
            let in_section: usize = (s.sh_size as usize) / stride;
            let count: usize = match hashed {
                Some(n) => if n < in_section {
                    n
                } else {
                    in_section
                },
                None => in_section,
            };
            (s.sh_offset as usize, count, stride)
        },
        None => match tables::dyn_get(dynamic, DT_SYMTAB) {
            Some(vaddr) => {
                let off: usize = match tables::vaddr_to_offset(phdrs, vaddr) {
                    Some(off) => off,
                    None => 0,
                };
                let stride: usize = match tables::dyn_get(dynamic, DT_SYMENT) {
                    Some(v) => if v as usize == 0 {
                        tables::default_sym_size(class)
                    } else {
                        v as usize
                    },
                    None => tables::default_sym_size(class),
                };
                let count: usize = match hashed {
                    Some(n) => n,
                    None => 0,
                };
                (off, count, stride)
            },
            None => (0, 0, tables::default_sym_size(class)),
        },
    }
}

/// Reads the dynamic symbols.
fn find_and_read_symbols(
    b: &Bytes,
    class: Class,
    shdrs: &[Shdr],
    shstr: &Bytes,
    phdrs: &[Phdr],
    dynamic: &[(i64, u64)],
    strtab: &Bytes,
) -> (r: Vec<DynSymbol>)
    ensures
        r.deep_view() == symbols_of(
            b@,
            b.order(),
            class,
            shdrs@,
            shstr@,
            phdrs@,
            dynamic@,
            strtab@,
        ),
        forall|k: int|
            0 <= k < r@.len() ==> !(#[trigger] r.deep_view()[k]).name.contains('\0'),
{
    let (off, count, stride): (usize, usize, usize) = find_symbols(
        b,
        class,
        shdrs,
        shstr,
        phdrs,
        dynamic,
    );
    let versym: Vec<u16> = symbols::read_versym(b, shdrs, shstr, phdrs, dynamic, count);
    if stride >= tables::default_sym_size(class) {
        symbols::read_symbols(b, class, off, count, stride, strtab, versym.as_slice())
    } else {
        let none: Vec<DynSymbol> = Vec::new();
        assert(none.deep_view() =~= Seq::<DynSymbolView>::empty());
        none
    }
}

/// Splits a version need into its plain form, and enters its versions into the
/// table.
fn flatten_need(need: &IndexedVersionNeed, table: &mut VersionTable) -> (r: VersionNeed)
    ensures
        r.deep_view() == (VersionNeedView {
            file: need.file@,
            versions: names_of(need.indexed.deep_view()),
        }),
        final(table).deep_view() == with_need(
            old(table).deep_view(),
            need.file@,
            need.indexed.deep_view(),
        ),
{
    let file: String = need.file.clone();
    let indexed: &Vec<(u16, String)> = &need.indexed;
    let mut versions: Vec<String> = Vec::new();
    let mut i: usize = 0;
    assert(indexed.deep_view().take(0) =~= Seq::<(u16, Seq<char>)>::empty());
    assert(versions.deep_view() =~= names_of(Seq::<(u16, Seq<char>)>::empty()));
    while i < indexed.len()
        invariant
            i <= indexed@.len(),
            versions.deep_view() == names_of(indexed.deep_view().take(i as int)),
            table.deep_view() == with_need(
                old(table).deep_view(),
                file@,
                indexed.deep_view().take(i as int),
            ),
        decreases indexed@.len() - i,
    {
        let ghost before = versions.deep_view();
        assert(indexed.deep_view().take(i + 1).drop_last() =~= indexed.deep_view().take(i as int));
        assert(indexed.deep_view()[i as int] == (indexed@[i as int].0, indexed@[i as int].1@));
        let name: String = indexed[i].1.clone();
        let ghost added = name@;
        table.insert(indexed[i].0, name.clone(), file.clone());
        versions.push(name);
        i += 1;
        assert(versions.deep_view() =~= before.push(added));
        assert(versions.deep_view() =~= names_of(indexed.deep_view().take(i as int)));
    }
    assert(indexed.deep_view().take(i as int) =~= indexed.deep_view());
    VersionNeed { file, versions }
}

/// Splits the version needs into their plain form and a table of versions.
fn flatten_needs(needs: &Vec<IndexedVersionNeed>) -> (r: (Vec<VersionNeed>, VersionTable))
    ensures
        r.0.deep_view() == plain_needs(needs.deep_view()),
        r.1.deep_view() == versions_by_index(needs.deep_view()),
{
    let ghost all = needs.deep_view();
    let mut plain: Vec<VersionNeed> = Vec::new();
    let mut table: VersionTable = VersionTable::new();
    let mut i: usize = 0;
    assert(all.take(0) =~= Seq::<IndexedNeedView>::empty());
    assert(plain.deep_view() =~= plain_needs(all.take(0)));
    while i < needs.len()
        invariant
            i <= needs@.len(),
            all == needs.deep_view(),
            plain.deep_view() == plain_needs(all.take(i as int)),
            table.deep_view() == versions_by_index(all.take(i as int)),
        decreases needs@.len() - i,
    {
        let ghost before = plain.deep_view();
        assert(all.take(i + 1).drop_last() =~= all.take(i as int));
        assert(all[i as int] == needs@[i as int].deep_view());
        let flat: VersionNeed = flatten_need(&needs[i], &mut table);
        let ghost added = flat.deep_view();
        plain.push(flat);
        i += 1;
        assert(plain.deep_view() =~= before.push(added));
        assert(plain.deep_view() =~= plain_needs(all.take(i as int)));
    }
    assert(all.take(i as int) =~= all);
    (plain, table)
}

/// Splits the defined versions into their names and a table.
fn flatten_definitions(defined: &Vec<(u16, String)>) -> (r: (Vec<String>, DefinitionTable))
    ensures
        r.0.deep_view() == names_of(defined.deep_view()),
        r.1.deep_view() == definitions_by_index(defined.deep_view()),
{
    let mut names: Vec<String> = Vec::new();
    let mut table: DefinitionTable = DefinitionTable::new();
    let mut i: usize = 0;
    let ghost all = defined.deep_view();
    assert(all.take(0) =~= Seq::<(u16, Seq<char>)>::empty());
    assert(names.deep_view() =~= names_of(all.take(0)));
    while i < defined.len()
        invariant
            i <= defined@.len(),
            all == defined.deep_view(),
            names.deep_view() == names_of(all.take(i as int)),
            table.deep_view() == definitions_by_index(all.take(i as int)),
        decreases defined@.len() - i,
    {
        let ghost before = names.deep_view();
        assert(all.take(i + 1).drop_last() =~= all.take(i as int));
        assert(all[i as int] == (defined@[i as int].0, defined@[i as int].1@));
        let name: String = defined[i].1.clone();
        let ghost added = name@;
        table.insert(defined[i].0, name.clone());
        names.push(name);
        i += 1;
        assert(names.deep_view() =~= before.push(added));
        assert(names.deep_view() =~= names_of(all.take(i as int)));
    }
    assert(all.take(i as int) =~= all);
    (names, table)
}

/// Reads the facts of an image whose tables have been read.
fn read_facts(
    path: &str,
    b: &Bytes,
    class: Class,
    header: &Header,
    shdrs: &[Shdr],
    shstr: &Bytes,
    phdrs: &[Phdr],
    dynamic: &[(i64, u64)],
) -> (r: ElfFile)
    ensures
        r.deep_view() == facts(
            path@,
            b@,
            b.order(),
            class,
            *header,
            shdrs@,
            shstr@,
            phdrs@,
            dynamic@,
        ),
        r.deep_view().names_are_ended(),
{
    let endian: Endian = b.endian();
    let strtab: Bytes = Bytes::new(find_strtab(b, shdrs, shstr, phdrs, dynamic), endian);
    let flags_1: u64 = match tables::dyn_get(dynamic, DT_FLAGS_1) {
        Some(v) => v,
        None => 0,
    };
    let needs: Vec<IndexedVersionNeed> = symbols::read_version_needs(
        b,
        shdrs,
        shstr,
        phdrs,
        dynamic,
        &strtab,
    );
    let defined: Vec<(u16, String)> = symbols::read_defined_versions(
        b,
        shdrs,
        shstr,
        phdrs,
        dynamic,
        &strtab,
    );
    let (defined_versions, defined_version_map): (Vec<String>, DefinitionTable) =
        flatten_definitions(&defined);
    let (version_needs, version_by_index): (Vec<VersionNeed>, VersionTable) = flatten_needs(&needs);
    ElfFile {
        path: path.to_owned(),
        class,
        endian,
        etype: header.etype,
        machine: header.machine,
        entry: header.entry,
        interpreter: read_interpreter(b, phdrs),
        soname: read_dyn_text(dynamic, &strtab, DT_SONAME),
        needed: read_needed(dynamic, &strtab),
        rpath: read_dyn_paths(dynamic, &strtab, DT_RPATH),
        runpath: read_dyn_paths(dynamic, &strtab, DT_RUNPATH),
        has_dynamic: dynamic.len() > 0,
        flags_1,
        symbols: find_and_read_symbols(b, class, shdrs, shstr, phdrs, dynamic, &strtab),
        version_needs,
        defined_versions,
        version_by_index,
        defined_version_map,
    }
}

/// The text `prefix` followed by a number.
fn numbered(prefix: &str, n: u8) -> (r: String)
    ensures
        r@ == prefix@ + text::decimal(n as nat),
{
    let mut out: String = String::new();
    out.append(prefix);
    text::push_decimal(&mut out, n as u64);
    assert(out@ =~= prefix@ + text::decimal(n as nat));
    out
}

/// Whether an image begins with the ELF magic.
pub fn has_magic(data: &[u8]) -> (r: bool)
    ensures
        r == (data@.len() >= 4 && data@.take(4) == magic()),
{
    if data.len() >= 4 && data[0] == 0x7f && data[1] == 0x45 && data[2] == 0x4c && data[3] == 0x46 {
        assert(data@.take(4) =~= magic());
        true
    } else {
        proof {
            if data@.len() >= 4 && data@.take(4) == magic() {
                assert(data@.take(4)[0] == 0x7f && data@.take(4)[1] == 0x45 && data@.take(4)[2]
                    == 0x4c && data@.take(4)[3] == 0x46);
            }
        }
        false
    }
}

impl ElfFile {
    /// Reads the tables of an image of a known word size and byte order.
    fn parse_tables(path: &str, b: &Bytes, class: Class) -> (r: Result<Self, ElfError>)
        ensures
            r matches Ok(elf) ==> parsed_tables(path@, b@, b.order(), class) == Ok::<
                ElfView,
                ElfErrorView,
            >(elf.deep_view()),
            r matches Err(x) ==> parsed_tables(path@, b@, b.order(), class) == Err::<
                ElfView,
                ElfErrorView,
            >(x.deep_view()),
            r matches Ok(elf) ==> elf.deep_view().names_are_ended(),
    {
        let header: Header = match tables::read_header(b, class) {
            Ok(header) => header,
            Err(m) => {
                return Err(ElfError::Truncated(m));
            },
        };
        let sections: Sections = match tables::read_sections(b, class, &header) {
            Ok(sections) => sections,
            Err(x) => {
                return Err(ElfError::Truncated(x.message()));
            },
        };
        let shdrs: &[Shdr] = sections.shdrs.as_slice();
        let segments: Vec<Phdr> = match tables::read_segments(b, class, &header, sections.phnum) {
            Ok(segments) => segments,
            Err(x) => {
                return Err(ElfError::Truncated(x.message()));
            },
        };
        let phdrs: &[Phdr] = segments.as_slice();
        let table: Vec<(i64, u64)> = match find_dynamic(b, class, shdrs, phdrs) {
            Ok(table) => table,
            Err(x) => {
                return Err(ElfError::Truncated(x.message()));
            },
        };
        let names: &[u8] = if sections.shstrndx != 0 && sections.shstrndx < shdrs.len() {
            let s: Shdr = shdrs[sections.shstrndx];
            tables::slice_or_empty(b, s.sh_offset as usize, s.sh_size as usize)
        } else {
            vstd::slice::slice_subrange(b.raw(), 0, 0)
        };
        assert(names@ =~= section_names(b@, shdrs@, sections.shstrndx));
        let shstr: Bytes = Bytes::new(names, b.endian());
        Ok(read_facts(path, b, class, &header, shdrs, &shstr, phdrs, table.as_slice()))
    }

    /// Parses an in-memory ELF image.
    pub fn parse_bytes(path: &str, data: &[u8]) -> (r: Result<Self, ElfError>)
        ensures
            r matches Ok(elf) ==> parsed(path@, data@) == Ok::<ElfView, ElfErrorView>(
                elf.deep_view(),
            ),
            r matches Err(x) ==> parsed(path@, data@) == Err::<ElfView, ElfErrorView>(
                x.deep_view(),
            ),
            r matches Ok(elf) ==> elf.deep_view().names_are_ended(),
    {
        if data.len() < 16 || !has_magic(data) {
            return Err(ElfError::NotElf);
        }
        let class: Class = match data[4] {
            ELFCLASS32 => Class::Elf32,
            ELFCLASS64 => Class::Elf64,
            other => {
                return Err(ElfError::Malformed(numbered("unknown ELF class ", other)));
            },
        };
        let endian: Endian = match data[5] {
            ELFDATA2LSB => Endian::Little,
            ELFDATA2MSB => Endian::Big,
            other => {
                return Err(ElfError::Malformed(numbered("unknown ELF data encoding ", other)));
            },
        };
        ElfFile::parse_tables(path, &Bytes::new(data, endian), class)
    }

    /// Parses the ELF file at `path`, of which the content, or the error that
    /// came up in reading it, is given.
    pub fn parse(path: &str, content: &Result<Vec<u8>, String>) -> (r: Result<Self, ElfError>)
        ensures
            r matches Ok(elf) ==> parsed_file(path@, content_of(*content)) == Ok::<
                ElfView,
                ElfErrorView,
            >(elf.deep_view()),
            r matches Err(x) ==> parsed_file(path@, content_of(*content)) == Err::<
                ElfView,
                ElfErrorView,
            >(x.deep_view()),
            r matches Ok(elf) ==> elf.deep_view().names_are_ended(),
    {
        match content {
            Ok(data) => ElfFile::parse_bytes(path, data.as_slice()),
            Err(error) => Err(ElfError::Io(error.clone())),
        }
    }
}

// ---------------------------------------------------------------------------
// What kind of object it is
// ---------------------------------------------------------------------------

impl ElfView {
    /// Started directly, as opposed to being a library.
    pub open spec fn program(self) -> bool {
        (self.etype is Executable || self.etype is Shared) && self.interpreter is Some
    }

    /// An `ET_DYN` executable that carries its own runtime.
    pub open spec fn static_pie(self) -> bool {
        self.etype is Shared && self.interpreter is None && (self.flags_1 & DF_1_PIE != 0 || (
        self.soname is None && self.entry != 0))
    }

    /// A program, for which the execute bit matters.
    pub open spec fn runnable(self) -> bool {
        self.etype is Executable || (self.etype is Shared && (self.interpreter is Some
            || self.static_pie()))
    }

    /// A short human description of the kind of object.
    pub open spec fn kind_text(self) -> Seq<char> {
        match self.etype {
            ElfType::Executable => if self.interpreter is Some {
                "dynamically linked executable"@
            } else if self.has_dynamic {
                "executable without an interpreter"@
            } else {
                "statically linked executable"@
            },
            ElfType::Shared => if self.interpreter is Some {
                "position-independent executable (PIE)"@
            } else if self.static_pie() {
                "static position-independent executable (PIE)"@
            } else if self.soname is Some {
                "shared library"@
            } else {
                "position-independent object"@
            },
            ElfType::Relocatable => "relocatable object"@,
            ElfType::Core => "core dump"@,
            ElfType::Other(_) => "ELF object"@,
        }
    }

    /// The name of a needed version.
    pub open spec fn needed_version(self, index: u16) -> Option<Seq<char>> {
        if self.version_by_index.contains_key(index) {
            Some(self.version_by_index[index].0)
        } else {
            None
        }
    }

    /// The object that must provide a needed version.
    pub open spec fn needed_from(self, index: u16) -> Option<Seq<char>> {
        if self.version_by_index.contains_key(index) {
            Some(self.version_by_index[index].1)
        } else {
            None
        }
    }

    /// The name of a defined version.
    pub open spec fn defined_version(self, index: u16) -> Option<Seq<char>> {
        if self.defined_by_index.contains_key(index) {
            Some(self.defined_by_index[index])
        } else {
            None
        }
    }
}

impl VersionTable {
    /// The name and the owner of a version.
    fn get(&self, index: u16) -> (r: Option<&(String, String)>)
        ensures
            r is Some <==> self.deep_view().contains_key(index),
            r matches Some(entry) ==> self.deep_view()[index] == (entry.0@, entry.1@),
    {
        self.entries.get(&index)
    }
}

impl DefinitionTable {
    /// The name of a version.
    fn get(&self, index: u16) -> (r: Option<&String>)
        ensures
            r is Some <==> self.deep_view().contains_key(index),
            r matches Some(name) ==> self.deep_view()[index] == name@,
    {
        self.names.get(&index)
    }
}

impl ElfFile {
    /// A short human description of what kind of object this is.
    pub fn kind(&self) -> (r: &'static str)
        ensures
            r@ == self.deep_view().kind_text(),
    {
        match self.etype {
            ElfType::Executable => if self.interpreter.is_some() {
                "dynamically linked executable"
            } else if self.has_dynamic {
                "executable without an interpreter"
            } else {
                "statically linked executable"
            },
            ElfType::Shared => if self.interpreter.is_some() {
                "position-independent executable (PIE)"
            } else if self.is_static_pie() {
                "static position-independent executable (PIE)"
            } else if self.soname.is_some() {
                "shared library"
            } else {
                "position-independent object"
            },
            ElfType::Relocatable => "relocatable object",
            ElfType::Core => "core dump",
            ElfType::Other(_) => "ELF object",
        }
    }

    /// This program is started directly (as opposed to being a library).
    pub fn is_program(&self) -> (r: bool)
        ensures
            r == self.deep_view().program(),
    {
        match self.etype {
            ElfType::Executable => self.interpreter.is_some(),
            ElfType::Shared => self.interpreter.is_some(),
            _ => false,
        }
    }

    /// An `ET_DYN` executable that carries its own runtime (no `PT_INTERP`).
    ///
    /// `DT_FLAGS_1` with `DF_1_PIE` is authoritative; the fallback covers older
    /// toolchains that statically link a PIE without setting the flag.
    pub fn is_static_pie(&self) -> (r: bool)
        ensures
            r == self.deep_view().static_pie(),
    {
        self.etype == ElfType::Shared && self.interpreter.is_none() && (self.flags_1 & DF_1_PIE != 0
            || (self.soname.is_none() && self.entry != 0))
    }

    /// The execute bit matters for this object: it is a program, not a library.
    ///
    /// A plain shared library is normally not executable, so only executables
    /// (static or dynamic), dynamic PIEs and static PIEs qualify.
    pub fn is_runnable(&self) -> (r: bool)
        ensures
            r == self.deep_view().runnable(),
    {
        match self.etype {
            ElfType::Executable => true,
            ElfType::Shared => self.interpreter.is_some() || self.is_static_pie(),
            _ => false,
        }
    }

    /// The version name attached to a symbol, if it is versioned.
    pub fn version_name(&self, index: u16) -> (r: Option<&str>)
        ensures
            r.deep_view() == self.deep_view().needed_version(index),
    {
        match self.version_by_index.get(index) {
            Some(entry) => Some(entry.0.as_str()),
            None => None,
        }
    }

    /// The object that must provide the version attached to a symbol.
    pub fn version_file(&self, index: u16) -> (r: Option<&str>)
        ensures
            r.deep_view() == self.deep_view().needed_from(index),
    {
        match self.version_by_index.get(index) {
            Some(entry) => Some(entry.1.as_str()),
            None => None,
        }
    }

    /// The name of a version this object defines, by `.gnu.version` index.
    pub fn defined_version_name(&self, index: u16) -> (r: Option<&str>)
        ensures
            r.deep_view() == self.deep_view().defined_version(index),
    {
        match self.defined_version_map.get(index) {
            Some(name) => Some(name.as_str()),
            None => None,
        }
    }
}

/// Every program that is started directly is runnable, and so is every static
/// PIE; a relocatable object or a core dump never is.
pub proof fn programs_are_runnable(elf: ElfView)
    ensures
        elf.program() ==> elf.runnable(),
        elf.static_pie() ==> elf.runnable() && !elf.program(),
        elf.etype is Relocatable || elf.etype is Core ==> !elf.runnable(),
{
}

/// Where an object was found changes nothing in what it says: parsing the same
/// bytes under another path gives the same facts, or the same error.
pub proof fn parsing_ignores_the_path(a: Seq<char>, b: Seq<char>, d: Seq<u8>)
    ensures
        parsed(a, d) matches Ok(elf) ==> parsed(b, d) == Ok::<ElfView, ElfErrorView>(
            ElfView { path: b, ..elf },
        ),
        parsed(a, d) is Err ==> parsed(b, d) == parsed(a, d),
{
}

// ---------------------------------------------------------------------------
// Architecture names
// ---------------------------------------------------------------------------

/// The conventional name of an `e_machine` value.
pub open spec fn machine_text(machine: u16) -> Seq<char> {
    if machine == 0x0003 {
        "i386"@
    } else if machine == 0x0008 {
        "MIPS"@
    } else if machine == 0x0014 {
        "PowerPC"@
    } else if machine == 0x0015 {
        "PowerPC64"@
    } else if machine == 0x0016 {
        "s390"@
    } else if machine == 0x0028 {
        "ARM"@
    } else if machine == 0x002a {
        "SuperH"@
    } else if machine == 0x0032 {
        "IA-64"@
    } else if machine == 0x003e {
        "x86-64"@
    } else if machine == 0x00b7 {
        "AArch64"@
    } else if machine == 0x00f3 {
        "RISC-V"@
    } else if machine == 0x0102 {
        "LoongArch"@
    } else {
        "unknown architecture"@
    }
}

/// The conventional name of an `e_machine` value.
pub fn machine_name(machine: u16) -> (r: &'static str)
    ensures
        r@ == machine_text(machine),
{
    match machine {
        0x0003 => "i386",
        0x0008 => "MIPS",
        0x0014 => "PowerPC",
        0x0015 => "PowerPC64",
        0x0016 => "s390",
        0x0028 => "ARM",
        0x002a => "SuperH",
        0x0032 => "IA-64",
        0x003e => "x86-64",
        0x00b7 => "AArch64",
        0x00f3 => "RISC-V",
        0x0102 => "LoongArch",
        _ => "unknown architecture",
    }
}

/// The `e_machine` value of a host architecture, named as Rust names targets.
pub open spec fn machine_of_arch(arch: Seq<char>) -> Option<u16> {
    if arch == "x86"@ {
        Some(0x0003u16)
    } else if arch == "x86_64"@ {
        Some(0x003eu16)
    } else if arch == "arm"@ {
        Some(0x0028u16)
    } else if arch == "aarch64"@ {
        Some(0x00b7u16)
    } else if arch == "riscv32"@ || arch == "riscv64"@ {
        Some(0x00f3u16)
    } else if arch == "powerpc"@ {
        Some(0x0014u16)
    } else if arch == "powerpc64"@ {
        Some(0x0015u16)
    } else if arch == "s390x"@ {
        Some(0x0016u16)
    } else if arch == "loongarch64"@ {
        Some(0x0102u16)
    } else if arch == "mips"@ || arch == "mips64"@ {
        Some(0x0008u16)
    } else {
        None
    }
}

/// The `e_machine` value matching the machine the program itself runs on.
pub fn host_machine(arch: &str) -> (r: Option<u16>)
    ensures
        r == machine_of_arch(arch@),
{
    if text::same_text(arch, "x86") {
        Some(0x0003)
    } else if text::same_text(arch, "x86_64") {
        Some(0x003e)
    } else if text::same_text(arch, "arm") {
        Some(0x0028)
    } else if text::same_text(arch, "aarch64") {
        Some(0x00b7)
    } else if text::same_text(arch, "riscv32") || text::same_text(arch, "riscv64") {
        Some(0x00f3)
    } else if text::same_text(arch, "powerpc") {
        Some(0x0014)
    } else if text::same_text(arch, "powerpc64") {
        Some(0x0015)
    } else if text::same_text(arch, "s390x") {
        Some(0x0016)
    } else if text::same_text(arch, "loongarch64") {
        Some(0x0102)
    } else if text::same_text(arch, "mips") || text::same_text(arch, "mips64") {
        Some(0x0008)
    } else {
        None
    }
}

/// A human name for the host machine.
pub open spec fn host_text(arch: Seq<char>) -> Seq<char> {
    match machine_of_arch(arch) {
        Some(machine) => machine_text(machine),
        None => "this machine"@,
    }
}

/// A human name for the host machine.
pub fn host_name(arch: &str) -> (r: &'static str)
    ensures
        r@ == host_text(arch@),
{
    match host_machine(arch) {
        Some(machine) => machine_name(machine),
        None => "this machine",
    }
}

} // verus!
