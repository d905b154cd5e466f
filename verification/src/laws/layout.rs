//! ELF images: the header, the tables that it leads to, and the facts that are
//! read from them.

use vstd::prelude::*;
use super::{name_at, number_at};
use crate::elf;
use crate::elf::reader;
use crate::elf::reader::{Endian, OutOfBounds};
use crate::elf::symbols;
use crate::elf::tables;
use crate::elf::tables::{Header, Phdr, Shdr};
use crate::elf::{Class, ElfErrorView, ElfType, ElfView};
use crate::text;

verus! {

// ---------------------------------------------------------------------------
// The header
// ---------------------------------------------------------------------------

/// An image begins with the four bytes of the magic and twelve more.
pub open spec fn begins_as_elf(d: Seq<u8>) -> bool {
    d.len() >= 16 && d[0] == 0x7f && d[1] == 0x45 && d[2] == 0x4c && d[3] == 0x46
}

/// The size of the header of a class.
pub open spec fn header_length(class_byte: u8) -> nat {
    if class_byte == 1 {
        52
    } else {
        64
    }
}

/// What does not begin as an ELF image is none; one of an unknown class or byte
/// order is malformed; one that ends in its header is truncated. Each error
/// says what is wrong.
pub proof fn what_is_wrong_with_an_image(path: Seq<char>, d: Seq<u8>)
    ensures
        !begins_as_elf(d) <==> elf::parsed(path, d) == Err::<ElfView, ElfErrorView>(
            ElfErrorView::NotElf,
        ),
        begins_as_elf(d) && d[4] != 1 && d[4] != 2 ==> elf::parsed(path, d) == Err::<
            ElfView,
            ElfErrorView,
        >(ElfErrorView::Malformed("unknown ELF class "@ + text::decimal(d[4] as nat))),
        begins_as_elf(d) && (d[4] == 1 || d[4] == 2) && d[5] != 1 && d[5] != 2 ==> elf::parsed(
            path,
            d,
        ) == Err::<ElfView, ElfErrorView>(
            ElfErrorView::Malformed("unknown ELF data encoding "@ + text::decimal(d[5] as nat)),
        ),
        begins_as_elf(d) && (d[4] == 1 || d[4] == 2) && (d[5] == 1 || d[5] == 2) && d.len()
            < header_length(d[4]) ==> elf::parsed(path, d) == Err::<ElfView, ElfErrorView>(
            ElfErrorView::Truncated(
                "ELF header is "@ + text::decimal(d.len()) + " bytes, expected at least "@
                    + text::decimal(header_length(d[4])),
            ),
        ),
        elf::parsed(path, d) matches Ok(elf) ==> begins_as_elf(d) && d.len() >= header_length(d[4])
            && (d[4] == 1 && elf.class == Class::Elf32 || d[4] == 2 && elf.class == Class::Elf64)
            && (d[5] == 1 && elf.endian == Endian::Little || d[5] == 2 && elf.endian == Endian::Big)
            && elf.path == path,
{
    if d.len() >= 16 {
        let magic = d.take(4);
        if magic == elf::magic() {
            assert(magic[0] == 0x7f && magic[1] == 0x45 && magic[2] == 0x4c && magic[3] == 0x46);
        }
        if begins_as_elf(d) {
            assert(magic =~= elf::magic());
        }
    }
}

/// The texts of the errors.
pub proof fn errors_say_what_is_wrong(m: Seq<char>)
    ensures
        ElfErrorView::NotElf.text() == "not an ELF file"@,
        ElfErrorView::Truncated(m).text() == "truncated ELF file: "@ + m,
        ElfErrorView::Malformed(m).text() == "malformed ELF file: "@ + m,
        ElfErrorView::Io(m).text() == m,
{
}

/// A read outside is told with its size, its place and the length of the data.
pub proof fn reads_outside_are_told(x: OutOfBounds)
    ensures
        x.text() == "read of "@ + text::decimal(x.size as nat) + " byte(s) at offset "@
            + text::decimal(x.offset as nat) + " exceeds the "@ + text::decimal(x.len as nat)
            + " byte buffer"@,
{
}

/// The number of four or eight bytes that stands at a place, by the class.
pub open spec fn word_at(d: Seq<u8>, e: Endian, class: Class, at: int) -> nat {
    if class is Elf64 {
        number_at(d, e, at, 8)
    } else {
        number_at(d, e, at, 4)
    }
}

/// Where something stands in a table of each class.
pub open spec fn of_class(class: Class, wide: int, narrow: int) -> int {
    if class is Elf64 {
        wide
    } else {
        narrow
    }
}

proof fn lemma_word(d: Seq<u8>, e: Endian, class: Class, at: int)
    requires
        d.len() <= usize::MAX,
        0 <= at <= usize::MAX,
    ensures
        at + of_class(class, 8, 4) <= d.len() ==> (tables::read_word(d, e, class, at as usize)
            matches Ok(v) && v == word_at(d, e, class, at)),
        at + of_class(class, 8, 4) > d.len() ==> tables::read_word(d, e, class, at as usize) is Err,
{
    super::reads_give_what_stands_there(d, e, at as usize);
}

/// The type, the machine and the entry point are the numbers at 16, 18 and 24,
/// and the places, the sizes and the counts of the tables those that the class
/// puts where.
#[verifier::rlimit(40)]
pub proof fn the_header_is_read(d: Seq<u8>, e: Endian, class: Class)
    requires
        d.len() <= usize::MAX,
        d.len() >= of_class(class, 64, 52),
    ensures
        ({
            let h = tables::header_of(d, e, class);
            &&& h.machine == number_at(d, e, 18, 2)
            &&& h.etype == ElfType::of_raw(number_at(d, e, 16, 2) as u16)
            &&& h.entry == word_at(d, e, class, 24)
            &&& h.phoff == word_at(d, e, class, of_class(class, 32, 28))
            &&& h.shoff == word_at(d, e, class, of_class(class, 40, 32))
            &&& h.phentsize == number_at(d, e, of_class(class, 54, 42), 2)
            &&& h.phnum == number_at(d, e, of_class(class, 56, 44), 2)
            &&& h.shentsize == number_at(d, e, of_class(class, 58, 46), 2)
            &&& h.shnum == number_at(d, e, of_class(class, 60, 48), 2)
            &&& h.shstrndx == number_at(d, e, of_class(class, 62, 50), 2)
        }),
{
    super::reads_give_what_stands_there(d, e, 16);
    super::reads_give_what_stands_there(d, e, 18);
    lemma_word(d, e, class, 24);
    lemma_word(d, e, class, of_class(class, 32, 28));
    lemma_word(d, e, class, of_class(class, 40, 32));
    super::reads_give_what_stands_there(d, e, of_class(class, 54, 42) as usize);
    super::reads_give_what_stands_there(d, e, of_class(class, 56, 44) as usize);
    super::reads_give_what_stands_there(d, e, of_class(class, 58, 46) as usize);
    super::reads_give_what_stands_there(d, e, of_class(class, 60, 48) as usize);
    super::reads_give_what_stands_there(d, e, of_class(class, 62, 50) as usize);
}

/// The types that `e_type` tells: 1 is a relocatable object, 2 an executable, 3
/// a shared object and 4 a core dump; every other value is kept.
pub proof fn types_are_told_by_their_numbers(raw: u16)
    ensures
        ElfType::of_raw(raw) == ElfType::Relocatable <==> raw == 1,
        ElfType::of_raw(raw) == ElfType::Executable <==> raw == 2,
        ElfType::of_raw(raw) == ElfType::Shared <==> raw == 3,
        ElfType::of_raw(raw) == ElfType::Core <==> raw == 4,
        raw == 0 || raw > 4 ==> ElfType::of_raw(raw) == ElfType::Other(raw),
{
}

/// What is read of an image says what its header says.
pub proof fn an_image_says_what_its_header_says(path: Seq<char>, d: Seq<u8>)
    requires
        d.len() <= usize::MAX,
        elf::parsed(path, d) is Ok,
    ensures
        ({
            let elf = elf::parsed(path, d)->Ok_0;
            &&& elf.machine == number_at(d, elf.endian, 18, 2)
            &&& elf.etype == ElfType::of_raw(number_at(d, elf.endian, 16, 2) as u16)
            &&& elf.entry == word_at(d, elf.endian, elf.class, 24)
        }),
{
    let elf = elf::parsed(path, d)->Ok_0;
    what_is_wrong_with_an_image(path, d);
    the_header_is_read(d, elf.endian, elf.class);
}

// ---------------------------------------------------------------------------
// Sections and segments
// ---------------------------------------------------------------------------

/// A program header at `at` says this.
pub open spec fn phdr_stands(d: Seq<u8>, e: Endian, class: Class, at: int, p: Phdr) -> bool {
    &&& 0 <= at && at + of_class(class, 40, 20) <= d.len()
    &&& p.p_type == number_at(d, e, at, 4)
    &&& p.p_offset == word_at(d, e, class, at + of_class(class, 8, 4))
    &&& p.p_vaddr == word_at(d, e, class, at + of_class(class, 16, 8))
    &&& p.p_filesz == word_at(d, e, class, at + of_class(class, 32, 16))
}

/// A section header at `at` says this.
pub open spec fn shdr_stands(d: Seq<u8>, e: Endian, class: Class, at: int, s: Shdr) -> bool {
    &&& 0 <= at && at + of_class(class, 64, 40) <= d.len()
    &&& s.sh_name == number_at(d, e, at, 4)
    &&& s.sh_type == number_at(d, e, at + 4, 4)
    &&& s.sh_offset == word_at(d, e, class, at + of_class(class, 24, 16))
    &&& s.sh_size == word_at(d, e, class, at + of_class(class, 32, 20))
    &&& s.sh_link == number_at(d, e, at + of_class(class, 40, 24), 4)
    &&& s.sh_info == number_at(d, e, at + of_class(class, 44, 28), 4)
    &&& s.sh_entsize == word_at(d, e, class, at + of_class(class, 56, 36))
}

/// A program header is read exactly where it lies in the image.
pub proof fn a_program_header_is_read(d: Seq<u8>, e: Endian, class: Class, at: usize)
    requires
        d.len() <= usize::MAX,
    ensures
        tables::phdr_at(d, e, class, at) is Ok <==> at + of_class(class, 40, 20) <= d.len(),
        tables::phdr_at(d, e, class, at) matches Ok(p) ==> phdr_stands(d, e, class, at as int, p),
{
    super::reads_give_what_stands_there(d, e, at);
    super::reads_give_what_stands_there(d, e, at.saturating_add(tables::by_class(class, 8, 4)));
    super::reads_give_what_stands_there(d, e, at.saturating_add(tables::by_class(class, 16, 8)));
    super::reads_give_what_stands_there(d, e, at.saturating_add(tables::by_class(class, 32, 16)));
}

/// A section header is read exactly where it lies in the image.
#[verifier::rlimit(40)]
pub proof fn a_section_header_is_read(d: Seq<u8>, e: Endian, class: Class, at: usize)
    requires
        d.len() <= usize::MAX,
    ensures
        tables::shdr_at(d, e, class, at) is Ok <==> at + of_class(class, 64, 40) <= d.len(),
        tables::shdr_at(d, e, class, at) matches Ok(s) ==> shdr_stands(d, e, class, at as int, s),
{
    super::reads_give_what_stands_there(d, e, at);
    super::reads_give_what_stands_there(d, e, at.saturating_add(4));
    super::reads_give_what_stands_there(d, e, at.saturating_add(tables::by_class(class, 24, 16)));
    super::reads_give_what_stands_there(d, e, at.saturating_add(tables::by_class(class, 32, 20)));
    super::reads_give_what_stands_there(d, e, at.saturating_add(tables::by_class(class, 40, 24)));
    super::reads_give_what_stands_there(d, e, at.saturating_add(tables::by_class(class, 44, 28)));
    super::reads_give_what_stands_there(d, e, at.saturating_add(tables::by_class(class, 56, 36)));
}

/// Every program header of a table is read, each at its distance.
#[verifier::rlimit(40)]
pub proof fn every_program_header_is_read(
    d: Seq<u8>,
    e: Endian,
    class: Class,
    phoff: usize,
    stride: usize,
    n: nat,
)
    requires
        d.len() <= usize::MAX,
        n <= usize::MAX,
    ensures
        tables::phdrs_upto(d, e, class, phoff, stride, n) is Ok <==> forall|i: int|
            0 <= i < n ==> phoff + #[trigger] (i * stride) + of_class(class, 40, 20) <= d.len(),
        tables::phdrs_upto(d, e, class, phoff, stride, n) matches Ok(v) ==> v.len() == n && forall|
            i: int,
        |
            0 <= i < n ==> phdr_stands(d, e, class, phoff + i * stride, #[trigger] v[i]),
    decreases n,
{
    if n > 0 {
        let m = (n - 1) as nat;
        every_program_header_is_read(d, e, class, phoff, stride, m);
        let at = tables::entry_offset(phoff, m as usize, stride);
        a_program_header_is_read(d, e, class, at);
        assert(phoff + m * stride == phoff + (n - 1) * stride);
        if tables::phdrs_upto(d, e, class, phoff, stride, n) is Ok {
            assert forall|i: int| 0 <= i < n implies phoff + #[trigger] (i * stride) + of_class(
                class,
                40,
                20,
            ) <= d.len() by {
                if i == m {
                }
            }
        }
        if forall|i: int|
            0 <= i < n ==> phoff + #[trigger] (i * stride) + of_class(class, 40, 20) <= d.len() {
            assert(phoff + (m as int) * stride + of_class(class, 40, 20) <= d.len());
        }
    }
}

/// Every section header of a table is read, each at its distance.
#[verifier::rlimit(40)]
pub proof fn every_section_header_is_read(
    d: Seq<u8>,
    e: Endian,
    class: Class,
    shoff: usize,
    stride: usize,
    n: nat,
)
    requires
        d.len() <= usize::MAX,
        n <= usize::MAX,
    ensures
        tables::shdrs_upto(d, e, class, shoff, stride, n) is Ok <==> forall|i: int|
            0 <= i < n ==> shoff + #[trigger] (i * stride) + of_class(class, 64, 40) <= d.len(),
        tables::shdrs_upto(d, e, class, shoff, stride, n) matches Ok(v) ==> v.len() == n && forall|
            i: int,
        |
            0 <= i < n ==> shdr_stands(d, e, class, shoff + i * stride, #[trigger] v[i]),
    decreases n,
{
    if n > 0 {
        let m = (n - 1) as nat;
        every_section_header_is_read(d, e, class, shoff, stride, m);
        let at = tables::entry_offset(shoff, m as usize, stride);
        a_section_header_is_read(d, e, class, at);
        if forall|i: int|
            0 <= i < n ==> shoff + #[trigger] (i * stride) + of_class(class, 64, 40) <= d.len() {
            assert(shoff + (m as int) * stride + of_class(class, 64, 40) <= d.len());
        }
    }
}

/// The section table is read where the header gives its place and a size of its
/// entries that is large enough. Numbers that do not fit in the header stand in
/// the first section: the count in its size, the index of the names in its
/// link, and the count of the segments in its info.
pub proof fn sections_are_read_as_the_header_says(d: Seq<u8>, e: Endian, class: Class, h: Header)
    ensures
        h.shoff == 0 || h.shentsize < of_class(class, 64, 40) ==> tables::sections_of(
            d,
            e,
            class,
            h,
        ) == Ok::<(Seq<Shdr>, usize, usize), OutOfBounds>((Seq::empty(), h.shstrndx, h.phnum)),
        h.shoff != 0 && h.shentsize >= of_class(class, 64, 40) ==> (match tables::shdr_at(
            d,
            e,
            class,
            h.shoff as usize,
        ) {
            Err(x) => tables::sections_of(d, e, class, h) == Err::<
                (Seq<Shdr>, usize, usize),
                OutOfBounds,
            >(x),
            Ok(first) => {
                let count = if h.shnum != 0 {
                    h.shnum
                } else {
                    first.sh_size as usize
                };
                let names = if h.shstrndx != 0xffff {
                    h.shstrndx
                } else {
                    first.sh_link as usize
                };
                let segments = if h.phnum != 0xffff {
                    h.phnum
                } else {
                    first.sh_info as usize
                };
                match tables::shdrs_upto(
                    d,
                    e,
                    class,
                    h.shoff as usize,
                    h.shentsize,
                    count as nat,
                ) {
                    Err(x) => tables::sections_of(d, e, class, h) == Err::<
                        (Seq<Shdr>, usize, usize),
                        OutOfBounds,
                    >(x),
                    Ok(v) => tables::sections_of(d, e, class, h) == Ok::<
                        (Seq<Shdr>, usize, usize),
                        OutOfBounds,
                    >((v, names, segments)),
                }
            },
        }),
        h.phoff == 0 || h.phentsize < of_class(class, 56, 32) ==> forall|n: usize|
            #[trigger] tables::segments_of(d, e, class, h, n) == Ok::<Seq<Phdr>, OutOfBounds>(
                Seq::empty(),
            ),
        h.phoff != 0 && h.phentsize >= of_class(class, 56, 32) ==> forall|n: usize|
            #[trigger] tables::segments_of(d, e, class, h, n) == tables::phdrs_upto(
                d,
                e,
                class,
                h.phoff as usize,
                h.phentsize,
                n as nat,
            ),
{
}

/// The first segment of a type is the one that is looked at.
pub proof fn the_first_segment_of_a_type_counts(phdrs: Seq<Phdr>, kind: u32, i: int)
    ensures
        0 <= i < phdrs.len() && phdrs[i].p_type == kind && (forall|k: int|
            0 <= k < i ==> (#[trigger] phdrs[k]).p_type != kind) ==> tables::typed_segment(
            phdrs,
            kind,
        ) == Some(phdrs[i]),
        (forall|k: int| 0 <= k < phdrs.len() ==> (#[trigger] phdrs[k]).p_type != kind)
            ==> tables::typed_segment(phdrs, kind) is None,
    decreases phdrs.len(),
{
    if phdrs.len() > 0 {
        let rest = phdrs.drop_first();
        the_first_segment_of_a_type_counts(rest, kind, i - 1);
        assert forall|k: int| 0 <= k < rest.len() implies #[trigger] rest[k] == phdrs[k + 1] by {}
        if phdrs[0].p_type == kind && i > 0 {
            assert(!(forall|k: int| 0 <= k < i ==> (#[trigger] phdrs[k]).p_type != kind));
        }
    }
}

/// The first section of a type is the one that is looked at.
pub proof fn the_first_section_of_a_type_counts(shdrs: Seq<Shdr>, kind: u32, i: int)
    ensures
        0 <= i < shdrs.len() && shdrs[i].sh_type == kind && (forall|k: int|
            0 <= k < i ==> (#[trigger] shdrs[k]).sh_type != kind) ==> tables::typed_section(
            shdrs,
            kind,
        ) == Some(shdrs[i]),
        (forall|k: int| 0 <= k < shdrs.len() ==> (#[trigger] shdrs[k]).sh_type != kind)
            ==> tables::typed_section(shdrs, kind) is None,
    decreases shdrs.len(),
{
    if shdrs.len() > 0 {
        let rest = shdrs.drop_first();
        the_first_section_of_a_type_counts(rest, kind, i - 1);
        assert forall|k: int| 0 <= k < rest.len() implies #[trigger] rest[k] == shdrs[k + 1] by {}
        if shdrs[0].sh_type == kind && i > 0 {
            assert(!(forall|k: int| 0 <= k < i ==> (#[trigger] shdrs[k]).sh_type != kind));
        }
    }
}

/// The section is called by a name of the name table.
pub open spec fn is_called(shstr: Seq<u8>, s: Shdr, name: Seq<char>) -> bool {
    name_at(shstr, s.sh_name as int, name)
}

/// The first section that is called by a name is the one that is looked at.
pub proof fn the_first_section_of_a_name_counts(
    shdrs: Seq<Shdr>,
    shstr: Seq<u8>,
    name: Seq<char>,
    i: int,
)
    ensures
        0 <= i < shdrs.len() && is_called(shstr, shdrs[i], name) && (forall|k: int|
            0 <= k < i ==> !is_called(shstr, #[trigger] shdrs[k], name)) ==> tables::named_section(
            shdrs,
            shstr,
            name,
        ) == Some(shdrs[i]),
        (forall|k: int| 0 <= k < shdrs.len() ==> !is_called(shstr, #[trigger] shdrs[k], name))
            ==> tables::named_section(shdrs, shstr, name) is None,
    decreases shdrs.len(),
{
    if shdrs.len() > 0 {
        let rest = shdrs.drop_first();
        super::texts_end_at_the_first_zero(shstr, shdrs[0].sh_name as usize, name);
        the_first_section_of_a_name_counts(rest, shstr, name, i - 1);
        assert forall|k: int| 0 <= k < rest.len() implies #[trigger] rest[k] == shdrs[k + 1] by {}
        if is_called(shstr, shdrs[0], name) && i > 0 {
            assert(!(forall|k: int|
                0 <= k < i ==> !is_called(shstr, #[trigger] shdrs[k], name)));
        }
    }
}

/// A section is looked for by its name, and by its type where none has the
/// name.
pub proof fn names_go_before_types(
    shdrs: Seq<Shdr>,
    shstr: Seq<u8>,
    name: Seq<char>,
    kind: u32,
)
    ensures
        tables::named_section(shdrs, shstr, name) is Some ==> tables::section_of(
            shdrs,
            shstr,
            name,
            kind,
        ) == tables::named_section(shdrs, shstr, name),
        tables::named_section(shdrs, shstr, name) is None ==> tables::section_of(
            shdrs,
            shstr,
            name,
            kind,
        ) == tables::typed_section(shdrs, kind),
{
}

/// A loadable segment holds an address.
pub open spec fn holds(p: Phdr, vaddr: u64) -> bool {
    p.p_type == 1 && p.p_vaddr <= vaddr && vaddr < p.p_vaddr + p.p_filesz && vaddr < u64::MAX
}

/// An address stands in the file where the first loadable segment that holds it
/// puts it.
pub proof fn addresses_are_mapped_by_the_first_segment(phdrs: Seq<Phdr>, vaddr: u64, i: int)
    requires
        vaddr < u64::MAX,
    ensures
        0 <= i < phdrs.len() && holds(phdrs[i], vaddr) && (forall|k: int|
            0 <= k < i ==> !holds(#[trigger] phdrs[k], vaddr)) && phdrs[i].p_offset + (vaddr
            - phdrs[i].p_vaddr) <= usize::MAX ==> (tables::offset_of_vaddr(phdrs, vaddr) matches Some(
            off,
        ) && off == phdrs[i].p_offset + (vaddr - phdrs[i].p_vaddr)),
        (forall|k: int| 0 <= k < phdrs.len() ==> !holds(#[trigger] phdrs[k], vaddr))
            ==> tables::offset_of_vaddr(phdrs, vaddr) is None,
    decreases phdrs.len(),
{
    if phdrs.len() > 0 {
        let rest = phdrs.drop_first();
        addresses_are_mapped_by_the_first_segment(rest, vaddr, i - 1);
        assert(holds(phdrs[0], vaddr) == tables::loads(phdrs[0], vaddr));
        assert forall|k: int| 0 <= k < rest.len() implies #[trigger] rest[k] == phdrs[k + 1] by {}
        if holds(phdrs[0], vaddr) && i > 0 {
            assert(!(forall|k: int| 0 <= k < i ==> !holds(#[trigger] phdrs[k], vaddr)));
        }
    }
}

// ---------------------------------------------------------------------------
// The dynamic table
// ---------------------------------------------------------------------------

/// The size of an entry of the dynamic table.
pub open spec fn dyn_size(class: Class) -> int {
    of_class(class, 16, 8)
}

/// The entry at `at` has this tag and this value.
pub open spec fn dyn_stands(
    d: Seq<u8>,
    e: Endian,
    class: Class,
    at: int,
    entry: (i64, u64),
) -> bool {
    &&& 0 <= at && at + dyn_size(class) <= d.len()
    &&& entry.1 == word_at(d, e, class, at + of_class(class, 8, 4))
    &&& class is Elf64 ==> entry.0 == number_at(d, e, at, 8) as u64 as i64
    &&& class is Elf32 ==> entry.0 == number_at(d, e, at, 4) as u32 as i32 as i64
}

#[verifier::rlimit(40)]
proof fn lemma_dynamic(
    d: Seq<u8>,
    e: Endian,
    class: Class,
    off: usize,
    i: usize,
    count: usize,
    entries: Seq<(i64, u64)>,
)
    requires
        d.len() <= usize::MAX,
        i <= entries.len() <= count,
        forall|k: int|
            0 <= k < entries.len() ==> dyn_stands(
                d,
                e,
                class,
                off + k * dyn_size(class),
                #[trigger] entries[k],
            ) && entries[k].0 != 0,
        entries.len() < count ==> exists|last: (i64, u64)| #[trigger]
            dyn_stands(d, e, class, off + entries.len() * dyn_size(class), last) && last.0 == 0,
    ensures
        tables::dynamic_from(d, e, class, off, i, count) == Ok::<Seq<(i64, u64)>, OutOfBounds>(
            entries.skip(i as int),
        ),
    decreases count - i,
{
    let at = off + i * dyn_size(class);
    if i < count {
        if i < entries.len() {
            let entry = entries[i as int];
            assert(dyn_stands(d, e, class, at, entry));
            super::reads_give_what_stands_there(d, e, at as usize);
            lemma_word(d, e, class, at + of_class(class, 8, 4));
            lemma_dynamic(d, e, class, off, (i + 1) as usize, count, entries);
            assert(entries.skip(i as int) =~= seq![entry] + entries.skip(i + 1));
        } else {
            let last = choose|last: (i64, u64)| #[trigger]
                dyn_stands(d, e, class, off + entries.len() * dyn_size(class), last) && last.0 == 0;
            assert(dyn_stands(d, e, class, at, last));
            super::reads_give_what_stands_there(d, e, at as usize);
            lemma_word(d, e, class, at + of_class(class, 8, 4));
            assert(entries.skip(i as int) =~= Seq::<(i64, u64)>::empty());
        }
    } else {
        assert(entries.skip(i as int) =~= Seq::<(i64, u64)>::empty());
    }
}

/// The entries of the dynamic table are read up to the first one with tag 0, or
/// to the end of the table where there is none.
pub proof fn the_dynamic_table_is_read_to_its_end(
    d: Seq<u8>,
    e: Endian,
    class: Class,
    off: usize,
    size: usize,
    entries: Seq<(i64, u64)>,
)
    requires
        d.len() <= usize::MAX,
        entries.len() <= size as int / dyn_size(class),
        forall|k: int|
            0 <= k < entries.len() ==> dyn_stands(
                d,
                e,
                class,
                off + k * dyn_size(class),
                #[trigger] entries[k],
            ) && entries[k].0 != 0,
        entries.len() < size as int / dyn_size(class) ==> exists|last: (i64, u64)| #[trigger]
            dyn_stands(d, e, class, off + entries.len() * dyn_size(class), last) && last.0 == 0,
    ensures
        tables::dynamic_at(d, e, class, off, size) == Ok::<Seq<(i64, u64)>, OutOfBounds>(entries),
{
    let count = (size as int / dyn_size(class)) as usize;
    lemma_dynamic(d, e, class, off, 0, count, entries);
    assert(entries.skip(0) =~= entries);
}

proof fn lemma_cut_dynamic(
    d: Seq<u8>,
    e: Endian,
    class: Class,
    off: usize,
    i: usize,
    count: usize,
    entries: Seq<(i64, u64)>,
)
    requires
        d.len() <= usize::MAX,
        i <= entries.len() < count,
        forall|k: int|
            0 <= k < entries.len() ==> dyn_stands(
                d,
                e,
                class,
                off + k * dyn_size(class),
                #[trigger] entries[k],
            ) && entries[k].0 != 0,
        off + entries.len() * dyn_size(class) + dyn_size(class) > d.len(),
    ensures
        tables::dynamic_from(d, e, class, off, i, count) is Err,
    decreases count - i,
{
    let at = off + i * dyn_size(class);
    if i < entries.len() {
        let entry = entries[i as int];
        assert(dyn_stands(d, e, class, at, entry));
        super::reads_give_what_stands_there(d, e, at as usize);
        lemma_word(d, e, class, at + of_class(class, 8, 4));
        lemma_cut_dynamic(d, e, class, off, (i + 1) as usize, count, entries);
    } else {
        let start = tables::entry_offset(off, i, of_class(class, 16, 8) as usize);
        super::reads_give_what_stands_there(d, e, start);
        super::reads_give_what_stands_there(
            d,
            e,
            start.saturating_add(tables::by_class(class, 8, 4)),
        );
    }
}

/// A dynamic table whose entries leave the image before one with tag 0 is a
/// damaged one.
pub proof fn a_cut_dynamic_table_is_damaged(
    d: Seq<u8>,
    e: Endian,
    class: Class,
    off: usize,
    size: usize,
    entries: Seq<(i64, u64)>,
)
    requires
        d.len() <= usize::MAX,
        entries.len() < size as int / dyn_size(class),
        forall|k: int|
            0 <= k < entries.len() ==> dyn_stands(
                d,
                e,
                class,
                off + k * dyn_size(class),
                #[trigger] entries[k],
            ) && entries[k].0 != 0,
        off + entries.len() * dyn_size(class) + dyn_size(class) > d.len(),
    ensures
        tables::dynamic_at(d, e, class, off, size) is Err,
{
    let count = (size as int / dyn_size(class)) as usize;
    lemma_cut_dynamic(d, e, class, off, 0, count, entries);
}

/// The first entry with a tag counts.
pub proof fn the_first_entry_with_a_tag_counts(dynamic: Seq<(i64, u64)>, tag: i64, i: int)
    ensures
        0 <= i < dynamic.len() && dynamic[i].0 == tag && (forall|k: int|
            0 <= k < i ==> (#[trigger] dynamic[k]).0 != tag) ==> tables::dyn_value(dynamic, tag)
            == Some(dynamic[i].1),
        (forall|k: int| 0 <= k < dynamic.len() ==> (#[trigger] dynamic[k]).0 != tag)
            ==> tables::dyn_value(dynamic, tag) is None,
    decreases dynamic.len(),
{
    if dynamic.len() > 0 {
        let rest = dynamic.drop_first();
        the_first_entry_with_a_tag_counts(rest, tag, i - 1);
        assert forall|k: int| 0 <= k < rest.len() implies #[trigger] rest[k] == dynamic[k + 1] by {}
        if dynamic[0].0 == tag && i > 0 {
            assert(!(forall|k: int| 0 <= k < i ==> (#[trigger] dynamic[k]).0 != tag));
        }
    }
}

// ---------------------------------------------------------------------------
// The facts
// ---------------------------------------------------------------------------

/// The name that an entry of the dynamic table asks for.
pub open spec fn needed_by_entry(strtab: Seq<u8>) -> spec_fn((i64, u64)) -> Option<Seq<char>> {
    |entry: (i64, u64)|
        if entry.0 == 1 {
            reader::text_at_offset(strtab, entry.1 as usize)
        } else {
            None
        }
}

proof fn lemma_needed(dynamic: Seq<(i64, u64)>, strtab: Seq<u8>)
    ensures
        elf::needed_names(dynamic, strtab) == dynamic.filter_map(needed_by_entry(strtab)),
    decreases dynamic.len(),
{
    if dynamic.len() > 0 {
        lemma_needed(dynamic.drop_last(), strtab);
        let rest = elf::needed_names(dynamic.drop_last(), strtab);
        match needed_by_entry(strtab)(dynamic.last()) {
            Some(name) => {
                assert(rest.push(name) =~= rest + seq![name]);
            },
            None => {},
        }
    }
}

/// The text that the first entry with a tag names in the string table.
pub open spec fn text_of_tag(
    dynamic: Seq<(i64, u64)>,
    strtab: Seq<u8>,
    tag: i64,
) -> Option<Seq<char>> {
    match tables::dyn_value(dynamic, tag) {
        Some(off) => reader::text_at_offset(strtab, off as usize),
        None => None,
    }
}

/// What is said of an image comes from its dynamic table: every entry with tag
/// 1 names a library that is needed, in their order; the first one with tag 14
/// its own name, those with the tags 15 and 29 the two directory lists, and the
/// one with the tag `0x6ffffffb` its flags.
pub proof fn the_dynamic_table_says_what_is_needed(
    path: Seq<char>,
    d: Seq<u8>,
    e: Endian,
    class: Class,
    header: Header,
    shdrs: Seq<Shdr>,
    shstr: Seq<u8>,
    phdrs: Seq<Phdr>,
    dynamic: Seq<(i64, u64)>,
)
    ensures
        ({
            let elf = elf::facts(path, d, e, class, header, shdrs, shstr, phdrs, dynamic);
            let strtab = elf::strtab_of(d, shdrs, shstr, phdrs, dynamic);
            let needs = symbols::version_needs_of(d, e, shdrs, shstr, phdrs, dynamic, strtab);
            let defined = symbols::defined_versions_of(d, e, shdrs, shstr, phdrs, dynamic, strtab);
            &&& elf.needed == dynamic.filter_map(needed_by_entry(strtab))
            &&& elf.soname == text_of_tag(dynamic, strtab, 14)
            &&& text_of_tag(dynamic, strtab, 15) is None ==> elf.rpath.len() == 0
            &&& text_of_tag(dynamic, strtab, 15) matches Some(v) ==> elf.rpath == elf::paths_in(v)
            &&& text_of_tag(dynamic, strtab, 29) is None ==> elf.runpath.len() == 0
            &&& text_of_tag(dynamic, strtab, 29) matches Some(v) ==> elf.runpath == elf::paths_in(v)
            &&& elf.has_dynamic == (dynamic.len() > 0)
            &&& elf.interpreter == elf::interpreter_of(d, phdrs)
            &&& elf.symbols == elf::symbols_of(d, e, class, shdrs, shstr, phdrs, dynamic, strtab)
            &&& tables::dyn_value(dynamic, 0x6fff_fffb) is None ==> elf.flags_1 == 0
            &&& tables::dyn_value(dynamic, 0x6fff_fffb) matches Some(v) ==> elf.flags_1 == v
            &&& elf.version_needs == elf::plain_needs(needs) && elf.version_by_index
                == elf::versions_by_index(needs)
            &&& elf.defined_versions == elf::names_of(defined) && elf.defined_by_index
                == elf::definitions_by_index(defined)
        }),
{
    lemma_needed(dynamic, elf::strtab_of(d, shdrs, shstr, phdrs, dynamic));
}

/// What is read of an image that parses are the facts of its tables: those that
/// the header leads to.
pub proof fn an_image_is_read_through_its_tables(path: Seq<char>, d: Seq<u8>)
    requires
        elf::parsed(path, d) is Ok,
    ensures
        ({
            let elf = elf::parsed(path, d)->Ok_0;
            let e = elf.endian;
            let class = elf.class;
            let h = tables::header_of(d, e, class);
            &&& tables::sections_of(d, e, class, h) matches Ok((shdrs, names, segments))
            &&& tables::segments_of(d, e, class, h, segments) matches Ok(phdrs)
            &&& elf::dynamic_of(d, e, class, shdrs, phdrs) matches Ok(dynamic)
            &&& elf == elf::facts(
                path,
                d,
                e,
                class,
                h,
                shdrs,
                elf::section_names(d, shdrs, names),
                phdrs,
                dynamic,
            )
        }),
{
}

/// A damaged table makes the image a truncated one; the first read that leaves
/// it is told.
pub proof fn a_damaged_table_is_told(path: Seq<char>, d: Seq<u8>, e: Endian, class: Class)
    requires
        begins_as_elf(d),
        d[4] == of_class(class, 2, 1),
        e is Little ==> d[5] == 1,
        e is Big ==> d[5] == 2,
        d.len() >= of_class(class, 64, 52),
    ensures
        ({
            let h = tables::header_of(d, e, class);
            match tables::sections_of(d, e, class, h) {
                Err(x) => elf::parsed(path, d) == Err::<ElfView, ElfErrorView>(
                    ElfErrorView::Truncated(x.text()),
                ),
                Ok((shdrs, names, segments)) => match tables::segments_of(d, e, class, h, segments) {
                    Err(x) => elf::parsed(path, d) == Err::<ElfView, ElfErrorView>(
                        ElfErrorView::Truncated(x.text()),
                    ),
                    Ok(phdrs) => match elf::dynamic_of(d, e, class, shdrs, phdrs) {
                        Err(x) => elf::parsed(path, d) == Err::<ElfView, ElfErrorView>(
                            ElfErrorView::Truncated(x.text()),
                        ),
                        Ok(_) => elf::parsed(path, d) is Ok,
                    },
                },
            }
        }),
{
    assert(d.take(4) =~= elf::magic());
}

/// The interpreter is the text in the first segment of type 3, up to a zero
/// byte or to the end of the segment; an empty one is none.
pub proof fn the_interpreter_is_named_by_its_segment(d: Seq<u8>, phdrs: Seq<Phdr>, n: int)
    ensures
        tables::typed_segment(phdrs, 3) is None ==> elf::interpreter_of(d, phdrs) is None,
        tables::typed_segment(phdrs, 3) matches Some(p) ==> {
            let at = p.p_offset as usize;
            let size = p.p_filesz as usize;
            &&& at + size > d.len() ==> elf::interpreter_of(d, phdrs) is None
            &&& at + size <= d.len() && 0 <= n <= size && (n < size ==> d[at + n] == 0) && (forall|
                k: int,
            |
                at <= k < at + n ==> #[trigger] d[k] != 0) ==> {
                let name = text::utf8_lossy(d.subrange(at as int, at + n));
                elf::interpreter_of(d, phdrs) == if name.len() > 0 {
                    Some(name)
                } else {
                    None
                }
            }
        },
{
    match tables::typed_segment(phdrs, 3) {
        Some(p) => {
            let at = p.p_offset as usize;
            let size = p.p_filesz as usize;
            if at + size <= d.len() {
                let s = d.subrange(at as int, at + size);
                reader::lemma_first_zero(s);
                let z = reader::first_zero(s);
                if 0 <= n <= size && (n < size ==> d[at + n] == 0) && (forall|k: int|
                    at <= k < at + n ==> #[trigger] d[k] != 0) {
                    assert(z == n) by {
                        if z < n {
                            assert(s[z] == d[at + z]);
                        }
                        if n < z {
                            assert(s[n] == d[at + n]);
                        }
                    }
                    assert(s.take(n) =~= d.subrange(at as int, at + n));
                }
            }
        },
        None => {},
    }
}

/// The dynamic table stands where the first segment of type 2 says, and where
/// there is none where the first section of type 6 does; where there is none
/// either, it is empty.
pub proof fn the_dynamic_table_is_looked_for(
    d: Seq<u8>,
    e: Endian,
    class: Class,
    shdrs: Seq<Shdr>,
    phdrs: Seq<Phdr>,
)
    ensures
        tables::typed_segment(phdrs, 2) matches Some(p) ==> elf::dynamic_of(
            d,
            e,
            class,
            shdrs,
            phdrs,
        ) == tables::dynamic_at(d, e, class, p.p_offset as usize, p.p_filesz as usize),
        tables::typed_segment(phdrs, 2) is None ==> (tables::typed_section(shdrs, 6) matches Some(s)
            ==> elf::dynamic_of(d, e, class, shdrs, phdrs) == tables::dynamic_at(
            d,
            e,
            class,
            s.sh_offset as usize,
            s.sh_size as usize,
        )),
        tables::typed_segment(phdrs, 2) is None && tables::typed_section(shdrs, 6) is None
            ==> elf::dynamic_of(d, e, class, shdrs, phdrs) == Ok::<Seq<(i64, u64)>, OutOfBounds>(
            Seq::empty(),
        ),
{
}

/// The string table is the section `.dynstr`. Where there is none, it stands at
/// the address that the dynamic table gives with tag 5, in the length that it
/// gives with tag 10, or to the end of the image.
pub proof fn the_string_table_is_looked_for(
    d: Seq<u8>,
    shdrs: Seq<Shdr>,
    shstr: Seq<u8>,
    phdrs: Seq<Phdr>,
    dynamic: Seq<(i64, u64)>,
)
    ensures
        ({
            let strtab = elf::strtab_of(d, shdrs, shstr, phdrs, dynamic);
            match tables::named_section(shdrs, shstr, ".dynstr"@) {
                Some(s) => {
                    let at = s.sh_offset as usize;
                    let size = s.sh_size as usize;
                    &&& at + size <= d.len() ==> strtab == d.subrange(at as int, at + size)
                    &&& at + size > d.len() ==> strtab.len() == 0
                },
                None => match tables::dyn_value(dynamic, 5) {
                    None => strtab.len() == 0,
                    Some(vaddr) => match tables::offset_of_vaddr(phdrs, vaddr) {
                        None => strtab.len() == 0,
                        Some(at) => {
                            let size = match tables::dyn_value(dynamic, 10) {
                                Some(v) => v as usize,
                                None => 0usize,
                            };
                            &&& size > 0 && at + size <= d.len() ==> strtab == d.subrange(
                                at as int,
                                at + size,
                            )
                            &&& size > 0 && at + size > d.len() ==> strtab.len() == 0
                            &&& size == 0 && at <= d.len() ==> strtab == d.subrange(
                                at as int,
                                d.len() as int,
                            )
                            &&& size == 0 && at > d.len() ==> strtab.len() == 0
                        },
                    },
                },
            }
        }),
{
    match tables::named_section(shdrs, shstr, ".dynstr"@) {
        Some(_) => {},
        None => match tables::dyn_offset(dynamic, phdrs, 5) {
            Some(at) => {
                if at <= d.len() {
                    assert(d.skip(at as int) =~= d.subrange(at as int, d.len() as int));
                }
            },
            None => {},
        },
    }
}

/// The names of the sections are the bytes of the section that the header
/// names.
pub proof fn section_names_stand_in_their_section(d: Seq<u8>, shdrs: Seq<Shdr>, index: usize)
    ensures
        index == 0 || index >= shdrs.len() ==> elf::section_names(d, shdrs, index).len() == 0,
        index > 0 && index < shdrs.len() ==> {
            let at = shdrs[index as int].sh_offset as usize;
            let size = shdrs[index as int].sh_size as usize;
            &&& at + size <= d.len() ==> elf::section_names(d, shdrs, index) == d.subrange(
                at as int,
                at + size,
            )
            &&& at + size > d.len() ==> elf::section_names(d, shdrs, index).len() == 0
        },
{
}

/// The symbol table is the section `.dynsym`, or the first one of its type. It
/// holds as many entries as fit in it, and no more than the hash table says. The
/// distance between them is the one that the section gives, or the size of an
/// entry where it gives none.
pub proof fn the_symbol_section_is_read(
    d: Seq<u8>,
    e: Endian,
    class: Class,
    shdrs: Seq<Shdr>,
    shstr: Seq<u8>,
    phdrs: Seq<Phdr>,
    dynamic: Seq<(i64, u64)>,
    s: Shdr,
)
    requires
        tables::section_of(shdrs, shstr, ".dynsym"@, 11) == Some(s),
    ensures
        ({
            let (off, count, stride) = elf::symbol_place(d, e, class, shdrs, shstr, phdrs, dynamic);
            let entry = if s.sh_entsize as usize == 0 {
                of_class(class, 24, 16)
            } else {
                s.sh_entsize as usize as int
            };
            let fit = s.sh_size as usize as int / entry;
            &&& off == s.sh_offset as usize && stride == entry
            &&& tables::hash_count(d, e, class, phdrs, dynamic) is None ==> count == fit
            &&& tables::hash_count(d, e, class, phdrs, dynamic) matches Some(n) ==> count == if n
                < fit {
                n as int
            } else {
                fit
            }
        }),
{
}

/// Without such a section, the symbol table stands at the address that the
/// dynamic table gives with tag 6, with the distance of tag 11 between its
/// entries, and holds as many as the hash table says.
pub proof fn the_symbol_table_is_found_without_sections(
    d: Seq<u8>,
    e: Endian,
    class: Class,
    shdrs: Seq<Shdr>,
    shstr: Seq<u8>,
    phdrs: Seq<Phdr>,
    dynamic: Seq<(i64, u64)>,
    vaddr: u64,
    at: usize,
    n: usize,
)
    requires
        tables::section_of(shdrs, shstr, ".dynsym"@, 11) is None,
        tables::dyn_value(dynamic, 6) == Some(vaddr),
        tables::offset_of_vaddr(phdrs, vaddr) == Some(at),
        tables::hash_count(d, e, class, phdrs, dynamic) == Some(n),
    ensures
        ({
            let (off, count, stride) = elf::symbol_place(d, e, class, shdrs, shstr, phdrs, dynamic);
            &&& off == at && count == n
            &&& (tables::dyn_value(dynamic, 11) matches Some(v) && v as usize != 0) ==> stride
                == tables::dyn_value(dynamic, 11)->0 as usize
            &&& tables::dyn_value(dynamic, 11) is None ==> stride == of_class(class, 24, 16)
        }),
{
}

/// Without a section, a table that the dynamic table does not name, or that no
/// hash table counts, holds no symbols.
pub proof fn a_table_that_is_not_counted_is_empty(
    d: Seq<u8>,
    e: Endian,
    class: Class,
    shdrs: Seq<Shdr>,
    shstr: Seq<u8>,
    phdrs: Seq<Phdr>,
    dynamic: Seq<(i64, u64)>,
)
    requires
        tables::section_of(shdrs, shstr, ".dynsym"@, 11) is None,
        tables::dyn_value(dynamic, 6) is None || tables::hash_count(d, e, class, phdrs, dynamic)
            is None,
    ensures
        elf::symbol_place(d, e, class, shdrs, shstr, phdrs, dynamic).1 == 0,
{
}

/// The symbols are read from that place with the versions that `.gnu.version`
/// gives, as long as the entries are far enough apart.
pub proof fn symbols_are_read_from_their_place(
    d: Seq<u8>,
    e: Endian,
    class: Class,
    shdrs: Seq<Shdr>,
    shstr: Seq<u8>,
    phdrs: Seq<Phdr>,
    dynamic: Seq<(i64, u64)>,
    strtab: Seq<u8>,
)
    ensures
        ({
            let (off, count, stride) = elf::symbol_place(d, e, class, shdrs, shstr, phdrs, dynamic);
            let read = elf::symbols_of(d, e, class, shdrs, shstr, phdrs, dynamic, strtab);
            &&& stride >= of_class(class, 24, 16) ==> read == symbols::symbols_from(
                d,
                e,
                class,
                off,
                0,
                count,
                stride,
                strtab,
                symbols::versym_of(d, e, shdrs, shstr, phdrs, dynamic, count),
            )
            &&& stride < of_class(class, 24, 16) ==> read.len() == 0
        }),
{
}

/// The version table is the section `.gnu.version`, or the first one of its
/// type, with two bytes for each symbol; without it, it stands at the address
/// of tag `0x6ffffff0`, with one entry for each symbol.
pub proof fn the_version_table_is_looked_for(
    d: Seq<u8>,
    e: Endian,
    shdrs: Seq<Shdr>,
    shstr: Seq<u8>,
    phdrs: Seq<Phdr>,
    dynamic: Seq<(i64, u64)>,
    count: usize,
)
    ensures
        tables::section_of(shdrs, shstr, ".gnu.version"@, 0x6fff_ffff) matches Some(s)
            ==> symbols::versym_of(d, e, shdrs, shstr, phdrs, dynamic, count)
            == symbols::halfwords_from(d, e, s.sh_offset as usize, 0, s.sh_size as usize / 2),
        tables::section_of(shdrs, shstr, ".gnu.version"@, 0x6fff_ffff) is None ==> (
        tables::dyn_value(dynamic, 0x6fff_fff0) matches Some(vaddr) ==> (tables::offset_of_vaddr(
            phdrs,
            vaddr,
        ) matches Some(at) ==> symbols::versym_of(d, e, shdrs, shstr, phdrs, dynamic, count)
            == symbols::halfwords_from(d, e, at, 0, count))),
{
}

/// The records of needed versions are those of the section `.gnu.version_r`, or
/// of the first one of its type, as far as the image goes; without it, they
/// stand at the address of tag `0x6ffffffe`. Those of defined versions are found
/// in the same way, through `.gnu.version_d` and the tag `0x6ffffffc`.
pub proof fn version_records_are_looked_for(
    d: Seq<u8>,
    e: Endian,
    shdrs: Seq<Shdr>,
    shstr: Seq<u8>,
    phdrs: Seq<Phdr>,
    dynamic: Seq<(i64, u64)>,
    strtab: Seq<u8>,
)
    requires
        d.len() <= usize::MAX,
    ensures
        ({
            let needs = symbols::version_needs_of(d, e, shdrs, shstr, phdrs, dynamic, strtab);
            let defined = symbols::defined_versions_of(d, e, shdrs, shstr, phdrs, dynamic, strtab);
            &&& match region_of(
                d,
                tables::section_of(shdrs, shstr, ".gnu.version_r"@, 0x6fff_fffe),
                phdrs,
                tables::dyn_value(dynamic, 0x6fff_fffe),
            ) {
                Some(region) => needs == symbols::needs_from(region, e, strtab, 0, 4096),
                None => needs.len() == 0,
            }
            &&& match region_of(
                d,
                tables::section_of(shdrs, shstr, ".gnu.version_d"@, 0x6fff_fffd),
                phdrs,
                tables::dyn_value(dynamic, 0x6fff_fffc),
            ) {
                Some(region) => defined == symbols::definitions_from(region, e, strtab, 0, 4096),
                None => defined.len() == 0,
            }
        }),
{
    let s = tables::section_of(shdrs, shstr, ".gnu.version_r"@, 0x6fff_fffe);
    let t = tables::section_of(shdrs, shstr, ".gnu.version_d"@, 0x6fff_fffd);
    lemma_region(d, s, phdrs, tables::dyn_value(dynamic, 0x6fff_fffe));
    lemma_region(d, t, phdrs, tables::dyn_value(dynamic, 0x6fff_fffc));
}

/// The bytes of a section as far as the image goes, or those from an address on
/// to the end of the image.
pub open spec fn region_of(
    d: Seq<u8>,
    section: Option<Shdr>,
    phdrs: Seq<Phdr>,
    vaddr: Option<u64>,
) -> Option<Seq<u8>> {
    if section is Some {
        let at = (section->0).sh_offset as usize as int;
        let end = at + (section->0).sh_size as usize;
        if at >= d.len() {
            None
        } else {
            Some(
                d.subrange(
                    at,
                    if end <= d.len() {
                        end
                    } else {
                        d.len() as int
                    },
                ),
            )
        }
    } else if vaddr is Some && tables::offset_of_vaddr(phdrs, vaddr->0) is Some {
        let at = tables::offset_of_vaddr(phdrs, vaddr->0)->0;
        if at >= d.len() {
            None
        } else {
            Some(d.subrange(at as int, d.len() as int))
        }
    } else {
        None
    }
}

proof fn lemma_region(d: Seq<u8>, section: Option<Shdr>, phdrs: Seq<Phdr>, vaddr: Option<u64>)
    requires
        d.len() <= usize::MAX,
    ensures
        symbols::version_region(
            d,
            section,
            match vaddr {
                Some(v) => tables::offset_of_vaddr(phdrs, v),
                None => None,
            },
        ) == region_of(d, section, phdrs, vaddr),
{
    match section {
        Some(s) => {
            let at = s.sh_offset as usize as int;
            if at < d.len() {
                assert(d.skip(at) =~= d.subrange(at, d.len() as int));
            }
        },
        None => {},
    }
}

// ---------------------------------------------------------------------------
// Hash tables
// ---------------------------------------------------------------------------

/// The number of symbols is the second number of the table that tag 4 gives;
/// without it, the one that the GNU hash table implies.
pub proof fn the_hash_table_counts_the_symbols(
    d: Seq<u8>,
    e: Endian,
    class: Class,
    phdrs: Seq<Phdr>,
    dynamic: Seq<(i64, u64)>,
    vaddr: u64,
    at: usize,
)
    requires
        d.len() <= usize::MAX,
        tables::offset_of_vaddr(phdrs, vaddr) == Some(at),
    ensures
        tables::dyn_value(dynamic, 4) == Some(vaddr) && at + 8 <= d.len() ==> (tables::hash_count(
            d,
            e,
            class,
            phdrs,
            dynamic,
        ) matches Some(n) && n == number_at(d, e, at + 4, 4)),
        tables::dyn_value(dynamic, 4) == Some(vaddr) && at + 8 > d.len() ==> tables::hash_count(
            d,
            e,
            class,
            phdrs,
            dynamic,
        ) is None,
        tables::dyn_value(dynamic, 4) is None && tables::dyn_value(dynamic, 0x6fff_fef5) is None
            ==> tables::hash_count(d, e, class, phdrs, dynamic) is None,
        tables::dyn_value(dynamic, 4) is None && tables::dyn_value(dynamic, 0x6fff_fef5) == Some(
            vaddr,
        ) ==> tables::hash_count(d, e, class, phdrs, dynamic) == tables::gnu_hash_count(
            d,
            e,
            class,
            at,
        ),
{
    super::reads_give_what_stands_there(d, e, at.saturating_add(4));
}

/// A GNU hash table: where its buckets and its chains stand, and how many
/// buckets there are.
pub open spec fn gnu_hash_stands(
    d: Seq<u8>,
    e: Endian,
    class: Class,
    at: int,
    buckets: int,
    n: int,
    first: int,
    chains: int,
) -> bool {
    &&& 0 <= at && at + 16 <= d.len()
    &&& n == number_at(d, e, at, 4)
    &&& first == number_at(d, e, at + 4, 4)
    &&& buckets == at + 16 + number_at(d, e, at + 8, 4) * of_class(class, 8, 4)
    &&& chains == buckets + 4 * n
    &&& chains <= d.len()
}

/// A chain that begins at `from` ends at `to`: there, and nowhere before, the
/// lowest bit is set.
pub open spec fn chain_ends(d: Seq<u8>, e: Endian, chains: int, from: int, to: int) -> bool {
    &&& 0 <= from <= to && chains + 4 * to + 4 <= d.len()
    &&& number_at(d, e, chains + 4 * to, 4) % 2 == 1
    &&& forall|k: int|
        from <= k < to ==> #[trigger] number_at(d, e, chains + 4 * k, 4) % 2 == 0
}

proof fn lemma_chain(d: Seq<u8>, e: Endian, chains: usize, from: usize, to: usize)
    requires
        d.len() <= usize::MAX,
        chain_ends(d, e, chains as int, from as int, to as int),
        to < 4_000_000,
    ensures
        tables::chain_end(d, e, chains, from) == Some(to),
    decreases to - from,
{
    super::reads_give_what_stands_there(d, e, (chains + 4 * from) as usize);
    assert(tables::entry_offset(chains, from, 4) == chains + 4 * from);
    if from < to {
        assert(number_at(d, e, chains + 4 * from, 4) % 2 == 0);
        lemma_chain(d, e, chains, (from + 1) as usize, to);
    }
}

/// The bucket `i` of a table.
pub open spec fn bucket(d: Seq<u8>, e: Endian, buckets: int, i: int) -> nat {
    number_at(d, e, buckets + 4 * i, 4)
}

/// The table implies a count: that behind the last symbol of any chain. `ends`
/// holds the end of the chain of each bucket that is not empty.
pub open spec fn counts(
    d: Seq<u8>,
    e: Endian,
    buckets: int,
    n: int,
    first: int,
    chains: int,
    ends: Seq<int>,
    count: int,
) -> bool {
    &&& ends.len() == n
    &&& forall|i: int| 0 <= i < n ==> #[trigger] bucket_counts(d, e, buckets, first, chains, ends, count, i)
    &&& count == 0 || exists|i: int|
        0 <= i < n && #[trigger] bucket(d, e, buckets, i) != 0 && count == first + ends[i] + 1
}

pub open spec fn bucket_counts(
    d: Seq<u8>,
    e: Endian,
    buckets: int,
    first: int,
    chains: int,
    ends: Seq<int>,
    count: int,
    i: int,
) -> bool {
    bucket(d, e, buckets, i) != 0 ==> {
        &&& bucket(d, e, buckets, i) >= first
        &&& chain_ends(d, e, chains, bucket(d, e, buckets, i) - first, ends[i])
        &&& ends[i] < 4_000_000
        &&& first + ends[i] + 1 <= count
    }
}

#[verifier::rlimit(40)]
proof fn lemma_buckets(
    d: Seq<u8>,
    e: Endian,
    buckets: usize,
    n: nat,
    first: usize,
    chains: usize,
    ends: Seq<int>,
    count: int,
    m: nat,
)
    requires
        d.len() <= usize::MAX,
        chains == buckets + 4 * n,
        chains <= d.len(),
        0 <= first <= 0xffff_ffff,
        0 <= count <= usize::MAX,
        m <= n,
        ends.len() == n,
        forall|i: int|
            0 <= i < n ==> #[trigger] bucket_counts(
                d,
                e,
                buckets as int,
                first as int,
                chains as int,
                ends,
                count,
                i,
            ),
    ensures
        tables::buckets_end(d, e, buckets, chains, first, m) matches Some(r) && r <= count && (
        forall|i: int|
            0 <= i < m && #[trigger] bucket(d, e, buckets as int, i) != 0 ==> first + ends[i] + 1
                <= r),
    decreases m,
{
    if m > 0 {
        let i = m - 1;
        lemma_buckets(d, e, buckets, n, first, chains, ends, count, i as nat);
        assert(bucket_counts(
            d,
            e,
            buckets as int,
            first as int,
            chains as int,
            ends,
            count,
            i,
        ));
        super::reads_give_what_stands_there(d, e, (buckets + 4 * i) as usize);
        assert(tables::entry_offset(buckets, i as usize, 4) == buckets + 4 * i);
        let b = bucket(d, e, buckets as int, i);
        if b != 0 {
            lemma_chain(d, e, chains, (b - first) as usize, ends[i] as usize);
        }
    }
}

/// A GNU hash table that ends in its head, or with a bucket that leads before
/// the first symbol that it holds, implies nothing.
pub proof fn a_damaged_gnu_hash_table_counts_nothing(
    d: Seq<u8>,
    e: Endian,
    class: Class,
    at: usize,
    buckets: int,
    n: int,
    first: int,
    chains: int,
    i: int,
)
    requires
        d.len() <= usize::MAX,
    ensures
        at + 12 > d.len() ==> tables::gnu_hash_count(d, e, class, at) is None,
        gnu_hash_stands(d, e, class, at as int, buckets, n, first, chains) && 0 <= i < n && 0
            < bucket(d, e, buckets, i) < first ==> tables::gnu_hash_count(d, e, class, at) is None,
{
    super::reads_give_what_stands_there(d, e, at);
    super::reads_give_what_stands_there(d, e, at.saturating_add(4));
    super::reads_give_what_stands_there(d, e, at.saturating_add(8));
    if gnu_hash_stands(d, e, class, at as int, buckets, n, first, chains) && 0 <= i < n && 0
        < bucket(d, e, buckets, i) < first {
        lemma_gnu_hash(d, e, class, at, buckets, n, first, chains);
        lemma_low_bucket(d, e, buckets as usize, n as nat, first as usize, chains as usize, i);
    }
}

proof fn lemma_low_bucket(
    d: Seq<u8>,
    e: Endian,
    buckets: usize,
    n: nat,
    first: usize,
    chains: usize,
    i: int,
)
    requires
        d.len() <= usize::MAX,
        0 <= i < n,
        buckets + 4 * n <= d.len(),
        0 < bucket(d, e, buckets as int, i) < first,
    ensures
        tables::buckets_end(d, e, buckets, chains, first, n) is None,
    decreases n,
{
    if i < n - 1 {
        lemma_low_bucket(d, e, buckets, (n - 1) as nat, first, chains, i);
    } else {
        super::reads_give_what_stands_there(d, e, (buckets + 4 * i) as usize);
        assert(tables::entry_offset(buckets, i as usize, 4) == buckets + 4 * i);
    }
}

#[verifier::rlimit(40)]
proof fn lemma_gnu_hash(
    d: Seq<u8>,
    e: Endian,
    class: Class,
    at: usize,
    buckets: int,
    n: int,
    first: int,
    chains: int,
)
    requires
        d.len() <= usize::MAX,
        gnu_hash_stands(d, e, class, at as int, buckets, n, first, chains),
    ensures
        0 <= buckets <= chains,
        0 <= n <= 0xffff_ffff,
        0 <= first <= 0xffff_ffff,
        tables::gnu_hash_count(d, e, class, at) == (match tables::buckets_end(
            d,
            e,
            buckets as usize,
            chains as usize,
            first as usize,
            n as nat,
        ) {
            Some(end) => if end > 0 {
                Some(end)
            } else {
                None
            },
            None => None,
        }),
{
    super::reads_give_what_stands_there(d, e, at);
    super::reads_give_what_stands_there(d, e, (at + 4) as usize);
    super::reads_give_what_stands_there(d, e, (at + 8) as usize);
    let bloom = number_at(d, e, at + 8, 4);
    assert(buckets == at + 16 + bloom * of_class(class, 8, 4));
    assert(tables::entry_offset((at + 16) as usize, bloom as usize, tables::by_class(class, 8, 4))
        == buckets);
    assert(tables::entry_offset(buckets as usize, n as usize, 4) == chains);
}

/// The GNU hash table implies that there are as many symbols as stand up to the
/// end of the last chain; a table whose buckets are all empty implies nothing.
#[verifier::rlimit(40)]
pub proof fn the_gnu_hash_table_counts_to_the_last_chain(
    d: Seq<u8>,
    e: Endian,
    class: Class,
    at: usize,
    buckets: int,
    n: int,
    first: int,
    chains: int,
    ends: Seq<int>,
    count: int,
)
    requires
        d.len() <= usize::MAX,
        gnu_hash_stands(d, e, class, at as int, buckets, n, first, chains),
        counts(d, e, buckets, n, first, chains, ends, count),
        0 <= count <= usize::MAX,
    ensures
        count > 0 ==> tables::gnu_hash_count(d, e, class, at) == Some(count as usize),
        count == 0 ==> tables::gnu_hash_count(d, e, class, at) is None,
{
    lemma_gnu_hash(d, e, class, at, buckets, n, first, chains);
    lemma_buckets(
        d,
        e,
        buckets as usize,
        n as nat,
        first as usize,
        chains as usize,
        ends,
        count,
        n as nat,
    );
    if count > 0 {
        let i = choose|i: int|
            0 <= i < n && #[trigger] bucket(d, e, buckets, i) != 0 && count == first + ends[i] + 1;
        assert(bucket(d, e, buckets as usize as int, i) != 0);
    }
}

} // verus!
