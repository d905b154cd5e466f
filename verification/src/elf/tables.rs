//! The raw tables of an ELF image: headers, the dynamic table and the symbol
//! count of the hash tables.
//!
//! Offsets come from the file and cannot be trusted. Where one would pass the
//! end of the address space it is held at that end, where every read fails.

use vstd::prelude::*;
use vstd::slice::slice_subrange;
use crate::text;
use super::reader;
use super::reader::{Bytes, Endian, OutOfBounds};
use super::{Class, ElfType};

verus! {

/// Loadable segment.
pub const PT_LOAD: u32 = 1;

/// The segment that holds the dynamic table.
pub const PT_DYNAMIC: u32 = 2;

/// The segment that names the interpreter.
pub const PT_INTERP: u32 = 3;

pub const DT_HASH: i64 = 4;

pub const DT_GNU_HASH: i64 = 0x6fff_fef5;

/// The ELF header, without the identification bytes.
#[derive(Debug, Clone, Copy)]
pub struct Header {
    pub etype: ElfType,
    pub machine: u16,
    pub entry: u64,
    pub phoff: u64,
    pub shoff: u64,
    pub phentsize: usize,
    pub phnum: usize,
    pub shentsize: usize,
    pub shnum: usize,
    pub shstrndx: usize,
}

/// One program header.
#[derive(Debug, Clone, Copy)]
pub struct Phdr {
    pub p_type: u32,
    pub p_offset: u64,
    pub p_vaddr: u64,
    pub p_filesz: u64,
}

/// One section header.
#[derive(Debug, Clone, Copy)]
pub struct Shdr {
    pub sh_name: u32,
    pub sh_type: u32,
    pub sh_offset: u64,
    pub sh_size: u64,
    pub sh_link: u32,
    pub sh_info: u32,
    pub sh_entsize: u64,
}

// ---------------------------------------------------------------------------
// Offsets and words
// ---------------------------------------------------------------------------

/// The first number for 64-bit objects, the second for 32-bit ones.
pub open spec fn by_class(class: Class, wide: usize, narrow: usize) -> usize {
    match class {
        Class::Elf64 => wide,
        Class::Elf32 => narrow,
    }
}

/// The first number for 64-bit objects, the second for 32-bit ones.
fn pick(class: Class, wide: usize, narrow: usize) -> (r: usize)
    ensures
        r == by_class(class, wide, narrow),
{
    match class {
        Class::Elf64 => wide,
        Class::Elf32 => narrow,
    }
}

/// The offset of entry `i` of a table at `base`.
pub open spec fn entry_offset(base: usize, i: usize, stride: usize) -> usize {
    if base + i * stride > usize::MAX {
        usize::MAX
    } else {
        (base + i * stride) as usize
    }
}

/// The offset of entry `i` of a table at `base`.
pub fn offset_of_entry(base: usize, i: usize, stride: usize) -> (r: usize)
    ensures
        r == entry_offset(base, i, stride),
{
    match i.checked_mul(stride) {
        Some(delta) => base.saturating_add(delta),
        None => usize::MAX,
    }
}

/// A number as wide as the object's addresses.
pub open spec fn read_word(d: Seq<u8>, e: Endian, class: Class, offset: usize) -> Result<
    u64,
    OutOfBounds,
> {
    match class {
        Class::Elf64 => reader::read_u64(d, e, offset),
        Class::Elf32 => match reader::read_u32(d, e, offset) {
            Ok(v) => Ok(v as u64),
            Err(x) => Err(x),
        },
    }
}

/// A number as wide as the object's addresses.
fn word(b: &Bytes, class: Class, offset: usize) -> (r: Result<u64, OutOfBounds>)
    ensures
        r == read_word(b@, b.order(), class, offset),
{
    match class {
        Class::Elf64 => b.u64(offset),
        Class::Elf32 => match b.u32(offset) {
            Ok(v) => Ok(v as u64),
            Err(x) => Err(x),
        },
    }
}

/// The bytes at `offset`, or none where they do not all lie in the image.
pub open spec fn span_or_empty(d: Seq<u8>, offset: usize, size: usize) -> Seq<u8> {
    match reader::span(d, offset, size) {
        Ok(s) => s,
        Err(_) => Seq::empty(),
    }
}

/// The bytes at `offset`, or none where they do not all lie in the image.
pub fn slice_or_empty<'a>(b: &Bytes<'a>, offset: usize, size: usize) -> (r: &'a [u8])
    ensures
        r@ == span_or_empty(b@, offset, size),
{
    match b.slice(offset, size) {
        Ok(s) => s,
        Err(_) => {
            let r: &[u8] = slice_subrange(b.raw(), 0, 0);
            assert(r@ =~= Seq::<u8>::empty());
            r
        },
    }
}

/// The bytes from `offset` on, or none where it lies past the end.
pub open spec fn tail_or_empty(d: Seq<u8>, offset: usize) -> Seq<u8> {
    if offset <= d.len() {
        d.skip(offset as int)
    } else {
        Seq::empty()
    }
}

/// The bytes from `offset` on, or none where it lies past the end.
pub fn rest_or_empty<'a>(b: &Bytes<'a>, offset: usize) -> (r: &'a [u8])
    ensures
        r@ == tail_or_empty(b@, offset),
{
    let raw: &'a [u8] = b.raw();
    let at: usize = if offset <= raw.len() {
        offset
    } else {
        raw.len()
    };
    let r: &'a [u8] = slice_subrange(raw, at, raw.len());
    assert(r@ =~= tail_or_empty(b@, offset));
    r
}

// ---------------------------------------------------------------------------
// Headers
// ---------------------------------------------------------------------------

/// The size of a program header.
pub open spec fn phdr_size(class: Class) -> usize {
    by_class(class, 56, 32)
}

/// The size of a program header.
pub fn expected_phdr_size(class: Class) -> (r: usize)
    ensures
        r == phdr_size(class),
{
    pick(class, 56, 32)
}

/// The size of a section header.
pub open spec fn shdr_size(class: Class) -> usize {
    by_class(class, 64, 40)
}

/// The size of a section header.
pub fn expected_shdr_size(class: Class) -> (r: usize)
    ensures
        r == shdr_size(class),
{
    pick(class, 64, 40)
}

/// The size of a symbol table entry.
pub open spec fn sym_size(class: Class) -> usize {
    by_class(class, 24, 16)
}

/// The size of a symbol table entry.
pub fn default_sym_size(class: Class) -> (r: usize)
    ensures
        r == sym_size(class),
{
    pick(class, 24, 16)
}

/// The size of the ELF header.
pub open spec fn header_size(class: Class) -> usize {
    by_class(class, 64, 52)
}

/// The header of an image that is long enough to hold one.
pub open spec fn header_of(d: Seq<u8>, e: Endian, class: Class) -> Header {
    Header {
        etype: ElfType::of_raw(reader::read_u16(d, e, 16)->Ok_0),
        machine: reader::read_u16(d, e, 18)->Ok_0,
        entry: read_word(d, e, class, 24)->Ok_0,
        phoff: read_word(d, e, class, by_class(class, 32, 28))->Ok_0,
        shoff: read_word(d, e, class, by_class(class, 40, 32))->Ok_0,
        phentsize: reader::read_u16(d, e, by_class(class, 54, 42))->Ok_0 as usize,
        phnum: reader::read_u16(d, e, by_class(class, 56, 44))->Ok_0 as usize,
        shentsize: reader::read_u16(d, e, by_class(class, 58, 46))->Ok_0 as usize,
        shnum: reader::read_u16(d, e, by_class(class, 60, 48))->Ok_0 as usize,
        shstrndx: reader::read_u16(d, e, by_class(class, 62, 50))->Ok_0 as usize,
    }
}

/// Reads the fields of the ELF header.
fn read_header_fields(b: &Bytes, class: Class) -> (r: Result<Header, OutOfBounds>)
    requires
        b@.len() >= header_size(class),
    ensures
        r == Ok::<Header, OutOfBounds>(header_of(b@, b.order(), class)),
{
    let etype: ElfType = ElfType::from_raw(b.u16(16)?);
    let machine: u16 = b.u16(18)?;
    let entry: u64 = word(b, class, 24)?;
    let phoff: u64 = word(b, class, pick(class, 32, 28))?;
    let shoff: u64 = word(b, class, pick(class, 40, 32))?;
    let phentsize: usize = b.u16(pick(class, 54, 42))? as usize;
    let phnum: usize = b.u16(pick(class, 56, 44))? as usize;
    let shentsize: usize = b.u16(pick(class, 58, 46))? as usize;
    let shnum: usize = b.u16(pick(class, 60, 48))? as usize;
    let shstrndx: usize = b.u16(pick(class, 62, 50))? as usize;
    Ok(
        Header {
            etype,
            machine,
            entry,
            phoff,
            shoff,
            phentsize,
            phnum,
            shentsize,
            shnum,
            shstrndx,
        },
    )
}

/// What is said of an image that is too short for its header.
pub open spec fn short_header_text(len: nat, class: Class) -> Seq<char> {
    "ELF header is "@ + text::decimal(len) + " bytes, expected at least "@ + text::decimal(
        header_size(class) as nat,
    )
}

/// Reads the ELF header, or says how short the image is.
pub fn read_header(b: &Bytes, class: Class) -> (r: Result<Header, String>)
    ensures
        b@.len() >= header_size(class) ==> r == Ok::<Header, String>(
            header_of(b@, b.order(), class),
        ),
        b@.len() < header_size(class) ==> r is Err && r->Err_0@ == short_header_text(
            b@.len(),
            class,
        ),
{
    let minimum: usize = pick(class, 64, 52);
    if b.len() < minimum {
        let mut out: String = String::new();
        out.append("ELF header is ");
        text::push_decimal(&mut out, b.len() as u64);
        out.append(" bytes, expected at least ");
        text::push_decimal(&mut out, minimum as u64);
        assert(out@ =~= short_header_text(b@.len(), class));
        return Err(out);
    }
    match read_header_fields(b, class) {
        Ok(header) => Ok(header),
        Err(e) => Err(e.message()),
    }
}

/// The program header at `off`, or the error of the first read that fails.
pub open spec fn phdr_at(d: Seq<u8>, e: Endian, class: Class, off: usize) -> Result<
    Phdr,
    OutOfBounds,
> {
    let p_type = reader::read_u32(d, e, off);
    let p_offset = read_word(d, e, class, off.saturating_add(by_class(class, 8, 4)));
    let p_vaddr = read_word(d, e, class, off.saturating_add(by_class(class, 16, 8)));
    let p_filesz = read_word(d, e, class, off.saturating_add(by_class(class, 32, 16)));
    if p_type is Err {
        Err(p_type->Err_0)
    } else if p_offset is Err {
        Err(p_offset->Err_0)
    } else if p_vaddr is Err {
        Err(p_vaddr->Err_0)
    } else if p_filesz is Err {
        Err(p_filesz->Err_0)
    } else {
        Ok(
            Phdr {
                p_type: p_type->Ok_0,
                p_offset: p_offset->Ok_0,
                p_vaddr: p_vaddr->Ok_0,
                p_filesz: p_filesz->Ok_0,
            },
        )
    }
}

/// Reads the program header at `off`.
pub fn read_phdr(b: &Bytes, class: Class, off: usize) -> (r: Result<Phdr, OutOfBounds>)
    ensures
        r == phdr_at(b@, b.order(), class, off),
{
    let p_type: u32 = b.u32(off)?;
    let p_offset: u64 = word(b, class, off.saturating_add(pick(class, 8, 4)))?;
    let p_vaddr: u64 = word(b, class, off.saturating_add(pick(class, 16, 8)))?;
    let p_filesz: u64 = word(b, class, off.saturating_add(pick(class, 32, 16)))?;
    Ok(Phdr { p_type, p_offset, p_vaddr, p_filesz })
}

/// The section header at `off`, or the error of the first read that fails.
pub open spec fn shdr_at(d: Seq<u8>, e: Endian, class: Class, off: usize) -> Result<
    Shdr,
    OutOfBounds,
> {
    let sh_name = reader::read_u32(d, e, off);
    let sh_type = reader::read_u32(d, e, off.saturating_add(4));
    let sh_offset = read_word(d, e, class, off.saturating_add(by_class(class, 24, 16)));
    let sh_size = read_word(d, e, class, off.saturating_add(by_class(class, 32, 20)));
    let sh_link = reader::read_u32(d, e, off.saturating_add(by_class(class, 40, 24)));
    let sh_info = reader::read_u32(d, e, off.saturating_add(by_class(class, 44, 28)));
    let sh_entsize = read_word(d, e, class, off.saturating_add(by_class(class, 56, 36)));
    if sh_name is Err {
        Err(sh_name->Err_0)
    } else if sh_type is Err {
        Err(sh_type->Err_0)
    } else if sh_offset is Err {
        Err(sh_offset->Err_0)
    } else if sh_size is Err {
        Err(sh_size->Err_0)
    } else if sh_link is Err {
        Err(sh_link->Err_0)
    } else if sh_info is Err {
        Err(sh_info->Err_0)
    } else if sh_entsize is Err {
        Err(sh_entsize->Err_0)
    } else {
        Ok(
            Shdr {
                sh_name: sh_name->Ok_0,
                sh_type: sh_type->Ok_0,
                sh_offset: sh_offset->Ok_0,
                sh_size: sh_size->Ok_0,
                sh_link: sh_link->Ok_0,
                sh_info: sh_info->Ok_0,
                sh_entsize: sh_entsize->Ok_0,
            },
        )
    }
}

/// Reads the section header at `off`.
pub fn read_shdr(b: &Bytes, class: Class, off: usize) -> (r: Result<Shdr, OutOfBounds>)
    ensures
        r == shdr_at(b@, b.order(), class, off),
{
    let sh_name: u32 = b.u32(off)?;
    let sh_type: u32 = b.u32(off.saturating_add(4))?;
    let sh_offset: u64 = word(b, class, off.saturating_add(pick(class, 24, 16)))?;
    let sh_size: u64 = word(b, class, off.saturating_add(pick(class, 32, 20)))?;
    let sh_link: u32 = b.u32(off.saturating_add(pick(class, 40, 24)))?;
    let sh_info: u32 = b.u32(off.saturating_add(pick(class, 44, 28)))?;
    let sh_entsize: u64 = word(b, class, off.saturating_add(pick(class, 56, 36)))?;
    Ok(Shdr { sh_name, sh_type, sh_offset, sh_size, sh_link, sh_info, sh_entsize })
}

// ---------------------------------------------------------------------------
// Tables of headers
// ---------------------------------------------------------------------------

/// The first `n` section headers, or the error of the first that is not there.
pub open spec fn shdrs_upto(
    d: Seq<u8>,
    e: Endian,
    class: Class,
    shoff: usize,
    stride: usize,
    n: nat,
) -> Result<Seq<Shdr>, OutOfBounds>
    decreases n,
{
    if n == 0 {
        Ok(Seq::empty())
    } else {
        match shdrs_upto(d, e, class, shoff, stride, (n - 1) as nat) {
            Err(x) => Err(x),
            Ok(v) => match shdr_at(d, e, class, entry_offset(shoff, (n - 1) as usize, stride)) {
                Err(x) => Err(x),
                Ok(h) => Ok(v.push(h)),
            },
        }
    }
}

proof fn lemma_shdrs_error_stays(
    d: Seq<u8>,
    e: Endian,
    class: Class,
    shoff: usize,
    stride: usize,
    k: nat,
    n: nat,
)
    requires
        k <= n,
        shdrs_upto(d, e, class, shoff, stride, k) is Err,
    ensures
        shdrs_upto(d, e, class, shoff, stride, n) == shdrs_upto(d, e, class, shoff, stride, k),
    decreases n,
{
    if k < n {
        lemma_shdrs_error_stays(d, e, class, shoff, stride, k, (n - 1) as nat);
    }
}

/// The first `n` program headers, or the error of the first that is not there.
pub open spec fn phdrs_upto(
    d: Seq<u8>,
    e: Endian,
    class: Class,
    phoff: usize,
    stride: usize,
    n: nat,
) -> Result<Seq<Phdr>, OutOfBounds>
    decreases n,
{
    if n == 0 {
        Ok(Seq::empty())
    } else {
        match phdrs_upto(d, e, class, phoff, stride, (n - 1) as nat) {
            Err(x) => Err(x),
            Ok(v) => match phdr_at(d, e, class, entry_offset(phoff, (n - 1) as usize, stride)) {
                Err(x) => Err(x),
                Ok(h) => Ok(v.push(h)),
            },
        }
    }
}

proof fn lemma_phdrs_error_stays(
    d: Seq<u8>,
    e: Endian,
    class: Class,
    phoff: usize,
    stride: usize,
    k: nat,
    n: nat,
)
    requires
        k <= n,
        phdrs_upto(d, e, class, phoff, stride, k) is Err,
    ensures
        phdrs_upto(d, e, class, phoff, stride, n) == phdrs_upto(d, e, class, phoff, stride, k),
    decreases n,
{
    if k < n {
        lemma_phdrs_error_stays(d, e, class, phoff, stride, k, (n - 1) as nat);
    }
}

/// Reads `n` section headers.
pub fn read_shdrs(b: &Bytes, class: Class, shoff: usize, stride: usize, n: usize) -> (r: Result<
    Vec<Shdr>,
    OutOfBounds,
>)
    ensures
        r matches Ok(v) ==> shdrs_upto(b@, b.order(), class, shoff, stride, n as nat) == Ok::<
            Seq<Shdr>,
            OutOfBounds,
        >(v@),
        r matches Err(x) ==> shdrs_upto(b@, b.order(), class, shoff, stride, n as nat) == Err::<
            Seq<Shdr>,
            OutOfBounds,
        >(x),
{
    let mut out: Vec<Shdr> = Vec::new();
    let mut i: usize = 0;
    while i < n
        invariant
            i <= n,
            shdrs_upto(b@, b.order(), class, shoff, stride, i as nat) == Ok::<
                Seq<Shdr>,
                OutOfBounds,
            >(out@),
        decreases n - i,
    {
        match read_shdr(b, class, offset_of_entry(shoff, i, stride)) {
            Ok(h) => {
                out.push(h);
            },
            Err(x) => {
                proof {
                    lemma_shdrs_error_stays(
                        b@,
                        b.order(),
                        class,
                        shoff,
                        stride,
                        (i + 1) as nat,
                        n as nat,
                    );
                }
                return Err(x);
            },
        }
        i += 1;
    }
    Ok(out)
}

/// Reads `n` program headers.
pub fn read_phdrs(b: &Bytes, class: Class, phoff: usize, stride: usize, n: usize) -> (r: Result<
    Vec<Phdr>,
    OutOfBounds,
>)
    ensures
        r matches Ok(v) ==> phdrs_upto(b@, b.order(), class, phoff, stride, n as nat) == Ok::<
            Seq<Phdr>,
            OutOfBounds,
        >(v@),
        r matches Err(x) ==> phdrs_upto(b@, b.order(), class, phoff, stride, n as nat) == Err::<
            Seq<Phdr>,
            OutOfBounds,
        >(x),
{
    let mut out: Vec<Phdr> = Vec::new();
    let mut i: usize = 0;
    while i < n
        invariant
            i <= n,
            phdrs_upto(b@, b.order(), class, phoff, stride, i as nat) == Ok::<
                Seq<Phdr>,
                OutOfBounds,
            >(out@),
        decreases n - i,
    {
        match read_phdr(b, class, offset_of_entry(phoff, i, stride)) {
            Ok(h) => {
                out.push(h);
            },
            Err(x) => {
                proof {
                    lemma_phdrs_error_stays(
                        b@,
                        b.order(),
                        class,
                        phoff,
                        stride,
                        (i + 1) as nat,
                        n as nat,
                    );
                }
                return Err(x);
            },
        }
        i += 1;
    }
    Ok(out)
}

/// The section headers, with the index of the section that names them and the
/// number of program headers.
pub struct Sections {
    pub shdrs: Vec<Shdr>,
    pub shstrndx: usize,
    pub phnum: usize,
}

/// The section headers, the index of the section that names them and the
/// number of program headers. Where the counts in the header overflow, the
/// real values stand in section 0.
pub open spec fn sections_of(d: Seq<u8>, e: Endian, class: Class, h: Header) -> Result<
    (Seq<Shdr>, usize, usize),
    OutOfBounds,
> {
    if h.shoff != 0 && h.shentsize >= shdr_size(class) {
        match shdr_at(d, e, class, h.shoff as usize) {
            Err(x) => Err(x),
            Ok(first) => {
                let shnum = if h.shnum == 0 {
                    first.sh_size as usize
                } else {
                    h.shnum
                };
                let shstrndx = if h.shstrndx == 0xffff {
                    first.sh_link as usize
                } else {
                    h.shstrndx
                };
                let phnum = if h.phnum == 0xffff {
                    first.sh_info as usize
                } else {
                    h.phnum
                };
                match shdrs_upto(d, e, class, h.shoff as usize, h.shentsize, shnum as nat) {
                    Err(x) => Err(x),
                    Ok(v) => Ok((v, shstrndx, phnum)),
                }
            },
        }
    } else {
        Ok((Seq::empty(), h.shstrndx, h.phnum))
    }
}

/// Reads the section headers.
pub fn read_sections(b: &Bytes, class: Class, h: &Header) -> (r: Result<Sections, OutOfBounds>)
    ensures
        r matches Ok(s) ==> sections_of(b@, b.order(), class, *h) == Ok::<
            (Seq<Shdr>, usize, usize),
            OutOfBounds,
        >((s.shdrs@, s.shstrndx, s.phnum)),
        r matches Err(x) ==> sections_of(b@, b.order(), class, *h) == Err::<
            (Seq<Shdr>, usize, usize),
            OutOfBounds,
        >(x),
{
    if h.shoff != 0 && h.shentsize >= expected_shdr_size(class) {
        let first: Shdr = read_shdr(b, class, h.shoff as usize)?;
        let shnum: usize = if h.shnum == 0 {
            first.sh_size as usize
        } else {
            h.shnum
        };
        let shstrndx: usize = if h.shstrndx == 0xffff {
            first.sh_link as usize
        } else {
            h.shstrndx
        };
        let phnum: usize = if h.phnum == 0xffff {
            first.sh_info as usize
        } else {
            h.phnum
        };
        let shdrs: Vec<Shdr> = read_shdrs(b, class, h.shoff as usize, h.shentsize, shnum)?;
        Ok(Sections { shdrs, shstrndx, phnum })
    } else {
        let shdrs: Vec<Shdr> = Vec::new();
        assert(shdrs@ =~= Seq::<Shdr>::empty());
        Ok(Sections { shdrs, shstrndx: h.shstrndx, phnum: h.phnum })
    }
}

/// The program headers.
pub open spec fn segments_of(d: Seq<u8>, e: Endian, class: Class, h: Header, phnum: usize) -> Result<
    Seq<Phdr>,
    OutOfBounds,
> {
    if h.phoff != 0 && h.phentsize >= phdr_size(class) {
        phdrs_upto(d, e, class, h.phoff as usize, h.phentsize, phnum as nat)
    } else {
        Ok(Seq::empty())
    }
}

/// Reads the program headers.
pub fn read_segments(b: &Bytes, class: Class, h: &Header, phnum: usize) -> (r: Result<
    Vec<Phdr>,
    OutOfBounds,
>)
    ensures
        r matches Ok(v) ==> segments_of(b@, b.order(), class, *h, phnum) == Ok::<
            Seq<Phdr>,
            OutOfBounds,
        >(v@),
        r matches Err(x) ==> segments_of(b@, b.order(), class, *h, phnum) == Err::<
            Seq<Phdr>,
            OutOfBounds,
        >(x),
{
    if h.phoff != 0 && h.phentsize >= expected_phdr_size(class) {
        read_phdrs(b, class, h.phoff as usize, h.phentsize, phnum)
    } else {
        let phdrs: Vec<Phdr> = Vec::new();
        assert(phdrs@ =~= Seq::<Phdr>::empty());
        Ok(phdrs)
    }
}

// ---------------------------------------------------------------------------
// Lookups
// ---------------------------------------------------------------------------

/// The first section of a type.
pub open spec fn typed_section(shdrs: Seq<Shdr>, sh_type: u32) -> Option<Shdr>
    decreases shdrs.len(),
{
    if shdrs.len() == 0 {
        None
    } else if shdrs[0].sh_type == sh_type {
        Some(shdrs[0])
    } else {
        typed_section(shdrs.drop_first(), sh_type)
    }
}

/// The first section of a type.
pub fn section_by_type(shdrs: &[Shdr], sh_type: u32) -> (r: Option<Shdr>)
    ensures
        r == typed_section(shdrs@, sh_type),
{
    let mut i: usize = 0;
    assert(shdrs@.skip(0) =~= shdrs@);
    while i < shdrs.len()
        invariant
            i <= shdrs@.len(),
            typed_section(shdrs@.skip(i as int), sh_type) == typed_section(shdrs@, sh_type),
        decreases shdrs@.len() - i,
    {
        if shdrs[i].sh_type == sh_type {
            return Some(shdrs[i]);
        }
        assert(shdrs@.skip(i as int).drop_first() =~= shdrs@.skip(i + 1));
        i += 1;
    }
    None
}

/// The first section of a name; `shstr` holds the names.
pub open spec fn named_section(shdrs: Seq<Shdr>, shstr: Seq<u8>, name: Seq<char>) -> Option<Shdr>
    decreases shdrs.len(),
{
    if shdrs.len() == 0 {
        None
    } else if reader::text_at_offset(shstr, shdrs[0].sh_name as usize) == Some(name) {
        Some(shdrs[0])
    } else {
        named_section(shdrs.drop_first(), shstr, name)
    }
}

/// The first section of a name; `shstr` holds the names.
pub fn section_by_name(shdrs: &[Shdr], shstr: &Bytes, name: &str) -> (r: Option<Shdr>)
    ensures
        r == named_section(shdrs@, shstr@, name@),
{
    let mut i: usize = 0;
    assert(shdrs@.skip(0) =~= shdrs@);
    while i < shdrs.len()
        invariant
            i <= shdrs@.len(),
            named_section(shdrs@.skip(i as int), shstr@, name@) == named_section(
                shdrs@,
                shstr@,
                name@,
            ),
        decreases shdrs@.len() - i,
    {
        let found: Option<String> = shstr.cstr(shdrs[i].sh_name as usize);
        if let Some(text) = &found {
            if text::same_text(text.as_str(), name) {
                return Some(shdrs[i]);
            }
        }
        assert(shdrs@.skip(i as int).drop_first() =~= shdrs@.skip(i + 1));
        i += 1;
    }
    None
}

/// The first section of a name or, failing that, of a type.
pub open spec fn section_of(
    shdrs: Seq<Shdr>,
    shstr: Seq<u8>,
    name: Seq<char>,
    sh_type: u32,
) -> Option<Shdr> {
    match named_section(shdrs, shstr, name) {
        Some(s) => Some(s),
        None => typed_section(shdrs, sh_type),
    }
}

/// The first section of a name or, failing that, of a type.
pub fn find_section(shdrs: &[Shdr], shstr: &Bytes, name: &str, sh_type: u32) -> (r: Option<Shdr>)
    ensures
        r == section_of(shdrs@, shstr@, name@, sh_type),
{
    match section_by_name(shdrs, shstr, name) {
        Some(s) => Some(s),
        None => section_by_type(shdrs, sh_type),
    }
}

/// The first segment of a type.
pub open spec fn typed_segment(phdrs: Seq<Phdr>, p_type: u32) -> Option<Phdr>
    decreases phdrs.len(),
{
    if phdrs.len() == 0 {
        None
    } else if phdrs[0].p_type == p_type {
        Some(phdrs[0])
    } else {
        typed_segment(phdrs.drop_first(), p_type)
    }
}

/// The first segment of a type.
pub fn segment_by_type(phdrs: &[Phdr], p_type: u32) -> (r: Option<Phdr>)
    ensures
        r == typed_segment(phdrs@, p_type),
{
    let mut i: usize = 0;
    assert(phdrs@.skip(0) =~= phdrs@);
    while i < phdrs.len()
        invariant
            i <= phdrs@.len(),
            typed_segment(phdrs@.skip(i as int), p_type) == typed_segment(phdrs@, p_type),
        decreases phdrs@.len() - i,
    {
        if phdrs[i].p_type == p_type {
            return Some(phdrs[i]);
        }
        assert(phdrs@.skip(i as int).drop_first() =~= phdrs@.skip(i + 1));
        i += 1;
    }
    None
}

/// Where a loadable segment puts a virtual address in the file.
pub open spec fn loads(p: Phdr, vaddr: u64) -> bool {
    p.p_type == PT_LOAD && p.p_vaddr <= vaddr < p.p_vaddr.saturating_add(p.p_filesz)
}

/// The file offset of a virtual address: that of the first loadable segment
/// which holds it.
pub open spec fn offset_of_vaddr(phdrs: Seq<Phdr>, vaddr: u64) -> Option<usize>
    decreases phdrs.len(),
{
    if phdrs.len() == 0 {
        None
    } else if loads(phdrs[0], vaddr) {
        Some(phdrs[0].p_offset.saturating_add((vaddr - phdrs[0].p_vaddr) as u64) as usize)
    } else {
        offset_of_vaddr(phdrs.drop_first(), vaddr)
    }
}

/// Maps a virtual address to a file offset using the loadable segments.
pub fn vaddr_to_offset(phdrs: &[Phdr], vaddr: u64) -> (r: Option<usize>)
    ensures
        r == offset_of_vaddr(phdrs@, vaddr),
{
    let mut i: usize = 0;
    assert(phdrs@.skip(0) =~= phdrs@);
    while i < phdrs.len()
        invariant
            i <= phdrs@.len(),
            offset_of_vaddr(phdrs@.skip(i as int), vaddr) == offset_of_vaddr(phdrs@, vaddr),
        decreases phdrs@.len() - i,
    {
        let p: Phdr = phdrs[i];
        if p.p_type == PT_LOAD && vaddr >= p.p_vaddr && vaddr < p.p_vaddr.saturating_add(
            p.p_filesz,
        ) {
            return Some(p.p_offset.saturating_add(vaddr - p.p_vaddr) as usize);
        }
        assert(phdrs@.skip(i as int).drop_first() =~= phdrs@.skip(i + 1));
        i += 1;
    }
    None
}

// ---------------------------------------------------------------------------
// The dynamic table
// ---------------------------------------------------------------------------

/// The tag of a dynamic table entry.
pub open spec fn tag_at(d: Seq<u8>, e: Endian, class: Class, at: usize) -> Result<i64, OutOfBounds> {
    match class {
        Class::Elf64 => match reader::read_u64(d, e, at) {
            Ok(v) => Ok(v as i64),
            Err(x) => Err(x),
        },
        Class::Elf32 => match reader::read_u32(d, e, at) {
            Ok(v) => Ok(v as i32 as i64),
            Err(x) => Err(x),
        },
    }
}

/// The tag of a dynamic table entry.
fn read_tag(b: &Bytes, class: Class, at: usize) -> (r: Result<i64, OutOfBounds>)
    ensures
        r == tag_at(b@, b.order(), class, at),
{
    match class {
        Class::Elf64 => match b.u64(at) {
            Ok(v) => Ok(v as i64),
            Err(x) => Err(x),
        },
        Class::Elf32 => match b.u32(at) {
            Ok(v) => Ok(v as i32 as i64),
            Err(x) => Err(x),
        },
    }
}

/// The dynamic table entries from entry `i` on: up to the entry with tag 0, or
/// to entry `count`, or to the first read that fails, which fails the whole.
pub open spec fn dynamic_from(
    d: Seq<u8>,
    e: Endian,
    class: Class,
    off: usize,
    i: usize,
    count: usize,
) -> Result<Seq<(i64, u64)>, OutOfBounds>
    decreases count - i,
{
    if i >= count {
        Ok(Seq::empty())
    } else {
        let at = entry_offset(off, i, by_class(class, 16, 8));
        let tag = tag_at(d, e, class, at);
        let value = read_word(d, e, class, at.saturating_add(by_class(class, 8, 4)));
        if tag is Err {
            Err(tag->Err_0)
        } else if value is Err {
            Err(value->Err_0)
        } else if tag->Ok_0 == 0 {
            Ok(Seq::empty())
        } else {
            match dynamic_from(d, e, class, off, (i + 1) as usize, count) {
                Ok(rest) => Ok(seq![(tag->Ok_0, value->Ok_0)] + rest),
                Err(x) => Err(x),
            }
        }
    }
}

/// The dynamic table that fills `size` bytes at `off`.
pub open spec fn dynamic_at(d: Seq<u8>, e: Endian, class: Class, off: usize, size: usize) -> Result<
    Seq<(i64, u64)>,
    OutOfBounds,
> {
    dynamic_from(d, e, class, off, 0, size / by_class(class, 16, 8))
}

/// What a whole is, of which `done` has been read and `rest` remains.
pub open spec fn then_rest<T>(done: Seq<T>, rest: Result<Seq<T>, OutOfBounds>) -> Result<
    Seq<T>,
    OutOfBounds,
> {
    match rest {
        Ok(v) => Ok(done + v),
        Err(x) => Err(x),
    }
}

/// Reads the dynamic table that fills `size` bytes at `off`.
pub fn read_dynamic(b: &Bytes, class: Class, off: usize, size: usize) -> (r: Result<
    Vec<(i64, u64)>,
    OutOfBounds,
>)
    ensures
        r matches Ok(v) ==> dynamic_at(b@, b.order(), class, off, size) == Ok::<
            Seq<(i64, u64)>,
            OutOfBounds,
        >(v@),
        r matches Err(x) ==> dynamic_at(b@, b.order(), class, off, size) == Err::<
            Seq<(i64, u64)>,
            OutOfBounds,
        >(x),
{
    let stride: usize = pick(class, 16, 8);
    let count: usize = size / stride;
    let mut entries: Vec<(i64, u64)> = Vec::new();
    let mut i: usize = 0;
    let ghost whole = dynamic_at(b@, b.order(), class, off, size);
    proof {
        if whole is Ok {
            assert(entries@ + whole->Ok_0 =~= whole->Ok_0);
        }
    }
    while i < count
        invariant
            i <= count,
            stride == by_class(class, 16, 8),
            whole == dynamic_at(b@, b.order(), class, off, size),
            then_rest(entries@, dynamic_from(b@, b.order(), class, off, i, count)) == whole,
        ensures
            whole == Ok::<Seq<(i64, u64)>, OutOfBounds>(entries@),
        decreases count - i,
    {
        let at: usize = offset_of_entry(off, i, stride);
        let tag: i64 = match read_tag(b, class, at) {
            Ok(v) => v,
            Err(x) => {
                return Err(x);
            },
        };
        let value: u64 = match word(b, class, at.saturating_add(pick(class, 8, 4))) {
            Ok(v) => v,
            Err(x) => {
                return Err(x);
            },
        };
        if tag == 0 {
            assert(entries@ + Seq::<(i64, u64)>::empty() =~= entries@);
            break;
        }
        let ghost before = entries@;
        entries.push((tag, value));
        proof {
            let rest = dynamic_from(b@, b.order(), class, off, (i + 1) as usize, count);
            if rest is Ok {
                assert(entries@ + rest->Ok_0 =~= before + (seq![(tag, value)] + rest->Ok_0));
            }
        }
        i += 1;
        proof {
            if i == count {
                assert(entries@ + Seq::<(i64, u64)>::empty() =~= entries@);
            }
        }
    }
    Ok(entries)
}

/// The value of the first entry with a tag.
pub open spec fn dyn_value(dynamic: Seq<(i64, u64)>, tag: i64) -> Option<u64>
    decreases dynamic.len(),
{
    if dynamic.len() == 0 {
        None
    } else if dynamic[0].0 == tag {
        Some(dynamic[0].1)
    } else {
        dyn_value(dynamic.drop_first(), tag)
    }
}

/// The value of the first entry with a tag.
pub fn dyn_get(dynamic: &[(i64, u64)], tag: i64) -> (r: Option<u64>)
    ensures
        r == dyn_value(dynamic@, tag),
{
    let mut i: usize = 0;
    assert(dynamic@.skip(0) =~= dynamic@);
    while i < dynamic.len()
        invariant
            i <= dynamic@.len(),
            dyn_value(dynamic@.skip(i as int), tag) == dyn_value(dynamic@, tag),
        decreases dynamic@.len() - i,
    {
        if dynamic[i].0 == tag {
            return Some(dynamic[i].1);
        }
        assert(dynamic@.skip(i as int).drop_first() =~= dynamic@.skip(i + 1));
        i += 1;
    }
    None
}

/// The file offset of the address that the first entry with a tag holds.
pub open spec fn dyn_offset(
    dynamic: Seq<(i64, u64)>,
    phdrs: Seq<Phdr>,
    tag: i64,
) -> Option<usize> {
    match dyn_value(dynamic, tag) {
        Some(vaddr) => offset_of_vaddr(phdrs, vaddr),
        None => None,
    }
}

/// The file offset of the address that the first entry with a tag holds.
pub fn find_dyn_offset(dynamic: &[(i64, u64)], phdrs: &[Phdr], tag: i64) -> (r: Option<usize>)
    ensures
        r == dyn_offset(dynamic@, phdrs@, tag),
{
    match dyn_get(dynamic, tag) {
        Some(vaddr) => vaddr_to_offset(phdrs, vaddr),
        None => None,
    }
}

// ---------------------------------------------------------------------------
// Symbol counts
// ---------------------------------------------------------------------------

/// A hash chain may be followed up to this position.
pub const CHAIN_LIMIT: usize = 4_000_000;

/// The position at which the hash chain that is at `pos` ends: the first value
/// with its lowest bit set. None where the chain leaves the image or runs on
/// past the limit.
pub open spec fn chain_end(d: Seq<u8>, e: Endian, chains_off: usize, pos: usize) -> Option<usize>
    decreases (if pos <= CHAIN_LIMIT { CHAIN_LIMIT + 1 - pos } else { 0 }),
{
    match reader::read_u32(d, e, entry_offset(chains_off, pos, 4)) {
        Err(_) => None,
        Ok(value) => if value % 2 == 1 {
            Some(pos)
        } else if pos >= CHAIN_LIMIT {
            None
        } else {
            chain_end(d, e, chains_off, (pos + 1) as usize)
        },
    }
}

/// One more than the highest symbol index in the first `n` hash buckets, or 0
/// where they are all empty. None where the table is damaged.
pub open spec fn buckets_end(
    d: Seq<u8>,
    e: Endian,
    buckets_off: usize,
    chains_off: usize,
    symoffset: usize,
    n: nat,
) -> Option<usize>
    decreases n,
{
    if n == 0 {
        Some(0)
    } else {
        match buckets_end(d, e, buckets_off, chains_off, symoffset, (n - 1) as nat) {
            None => None,
            Some(highest) => match reader::read_u32(
                d,
                e,
                entry_offset(buckets_off, (n - 1) as usize, 4),
            ) {
                Err(_) => None,
                Ok(first) => if first == 0 {
                    Some(highest)
                } else if (first as usize) < symoffset {
                    None
                } else {
                    match chain_end(d, e, chains_off, (first as usize - symoffset) as usize) {
                        None => None,
                        Some(last) => {
                            let end = symoffset.saturating_add(last).saturating_add(1);
                            Some(if end > highest { end } else { highest })
                        },
                    }
                },
            },
        }
    }
}

proof fn lemma_buckets_damage_stays(
    d: Seq<u8>,
    e: Endian,
    buckets_off: usize,
    chains_off: usize,
    symoffset: usize,
    k: nat,
    n: nat,
)
    requires
        k <= n,
        buckets_end(d, e, buckets_off, chains_off, symoffset, k) is None,
    ensures
        buckets_end(d, e, buckets_off, chains_off, symoffset, n) is None,
    decreases n,
{
    if k < n {
        lemma_buckets_damage_stays(d, e, buckets_off, chains_off, symoffset, k, (n - 1) as nat);
    }
}

/// The number of symbols that the GNU hash table at `offset` implies.
pub open spec fn gnu_hash_count(d: Seq<u8>, e: Endian, class: Class, offset: usize) -> Option<usize> {
    let nbuckets = reader::read_u32(d, e, offset);
    let symoffset = reader::read_u32(d, e, offset.saturating_add(4));
    let bloom_size = reader::read_u32(d, e, offset.saturating_add(8));
    if nbuckets is Err || symoffset is Err || bloom_size is Err {
        None
    } else {
        let buckets_off = entry_offset(
            offset.saturating_add(16),
            bloom_size->Ok_0 as usize,
            by_class(class, 8, 4),
        );
        let chains_off = entry_offset(buckets_off, nbuckets->Ok_0 as usize, 4);
        match buckets_end(
            d,
            e,
            buckets_off,
            chains_off,
            symoffset->Ok_0 as usize,
            nbuckets->Ok_0 as nat,
        ) {
            Some(end) => if end > 0 {
                Some(end)
            } else {
                None
            },
            None => None,
        }
    }
}

/// Follows the hash chain at `pos` to its end.
fn find_chain_end(b: &Bytes, chains_off: usize, pos: usize) -> (r: Option<usize>)
    ensures
        r == chain_end(b@, b.order(), chains_off, pos),
{
    let mut at: usize = pos;
    loop
        invariant
            chain_end(b@, b.order(), chains_off, at) == chain_end(b@, b.order(), chains_off, pos),
        decreases (if at <= CHAIN_LIMIT { CHAIN_LIMIT + 1 - at } else { 0 }),
    {
        match b.u32(offset_of_entry(chains_off, at, 4)) {
            Err(_) => {
                return None;
            },
            Ok(value) => {
                if value % 2 == 1 {
                    return Some(at);
                }
            },
        }
        if at >= CHAIN_LIMIT {
            return None;
        }
        at += 1;
    }
}

/// Walks the GNU hash chains to find the highest symbol index.
pub fn gnu_hash_symbol_count(b: &Bytes, class: Class, offset: usize) -> (r: Option<usize>)
    ensures
        r == gnu_hash_count(b@, b.order(), class, offset),
{
    let nbuckets: usize = match b.u32(offset) {
        Ok(v) => v as usize,
        Err(_) => {
            return None;
        },
    };
    let symoffset: usize = match b.u32(offset.saturating_add(4)) {
        Ok(v) => v as usize,
        Err(_) => {
            return None;
        },
    };
    let bloom_size: usize = match b.u32(offset.saturating_add(8)) {
        Ok(v) => v as usize,
        Err(_) => {
            return None;
        },
    };
    let buckets_off: usize = offset_of_entry(offset.saturating_add(16), bloom_size, pick(class, 8, 4));
    let chains_off: usize = offset_of_entry(buckets_off, nbuckets, 4);
    let mut highest: usize = 0;
    let mut bucket: usize = 0;
    while bucket < nbuckets
        invariant
            bucket <= nbuckets,
            buckets_end(b@, b.order(), buckets_off, chains_off, symoffset, bucket as nat) == Some(
                highest,
            ),
            gnu_hash_count(b@, b.order(), class, offset) == (match buckets_end(
                b@,
                b.order(),
                buckets_off,
                chains_off,
                symoffset,
                nbuckets as nat,
            ) {
                Some(end) => if end > 0 {
                    Some(end)
                } else {
                    None
                },
                None => None,
            }),
        decreases nbuckets - bucket,
    {
        proof {
            if buckets_end(b@, b.order(), buckets_off, chains_off, symoffset, (bucket + 1) as nat) is None {
                lemma_buckets_damage_stays(
                    b@,
                    b.order(),
                    buckets_off,
                    chains_off,
                    symoffset,
                    (bucket + 1) as nat,
                    nbuckets as nat,
                );
            }
        }
        let first: usize = match b.u32(offset_of_entry(buckets_off, bucket, 4)) {
            Ok(v) => v as usize,
            Err(_) => {
                return None;
            },
        };
        if first != 0 {
            if first < symoffset {
                return None;
            }
            match find_chain_end(b, chains_off, first - symoffset) {
                None => {
                    return None;
                },
                Some(last) => {
                    let end: usize = symoffset.saturating_add(last).saturating_add(1);
                    if end > highest {
                        highest = end;
                    }
                },
            }
        }
        bucket += 1;
    }
    if highest > 0 {
        Some(highest)
    } else {
        None
    }
}

/// The number of symbols that the hash tables imply.
pub open spec fn hash_count(
    d: Seq<u8>,
    e: Endian,
    class: Class,
    phdrs: Seq<Phdr>,
    dynamic: Seq<(i64, u64)>,
) -> Option<usize> {
    match dyn_offset(dynamic, phdrs, DT_HASH) {
        Some(off) => match reader::read_u32(d, e, off.saturating_add(4)) {
            Ok(n) => Some(n as usize),
            Err(_) => None,
        },
        None => match dyn_offset(dynamic, phdrs, DT_GNU_HASH) {
            Some(off) => gnu_hash_count(d, e, class, off),
            None => None,
        },
    }
}

/// Determines the number of `.dynsym` entries from DT_HASH or DT_GNU_HASH.
///
/// Needed for binaries whose section headers were stripped: without them the
/// symbol count is only implied by the hash table.
pub fn hash_symbol_count(b: &Bytes, class: Class, phdrs: &[Phdr], dynamic: &[(i64, u64)]) -> (r:
    Option<usize>)
    ensures
        r == hash_count(b@, b.order(), class, phdrs@, dynamic@),
{
    if let Some(off) = find_dyn_offset(dynamic, phdrs, DT_HASH) {
        // The second word of the table, the number of chains, is the number
        // of symbols.
        return match b.u32(off.saturating_add(4)) {
            Ok(n) => Some(n as usize),
            Err(_) => None,
        };
    }
    if let Some(off) = find_dyn_offset(dynamic, phdrs, DT_GNU_HASH) {
        return gnu_hash_symbol_count(b, class, off);
    }
    None
}

} // verus!
