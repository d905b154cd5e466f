//! What the results must satisfy, said of what goes in and what comes out:
//! of the bytes of a file, of the entries of a table, of the lines of a text.
//!
//! The statements are over numbers and names as they stand in the bytes, so
//! that they can be read without knowing how a table is walked.

use vstd::prelude::*;
use crate::elf::reader;
use crate::elf::reader::Endian;
use crate::text;

pub mod advice;
pub mod graph;
pub mod image;
pub mod layout;
pub mod linking;
pub mod page;
pub mod running;
pub mod scripts;
pub mod search;
pub mod settings;
pub mod words;

verus! {

// ---------------------------------------------------------------------------
// Numbers and names in bytes
// ---------------------------------------------------------------------------

/// The number that the `size` bytes at `at` write.
pub open spec fn number_at(d: Seq<u8>, e: Endian, at: int, size: int) -> nat {
    reader::value_of(e, d.subrange(at, at + size))
}

/// At `off` stands a name that ends before a zero byte.
pub open spec fn name_at(d: Seq<u8>, off: int, name: Seq<char>) -> bool {
    exists|n: int| #[trigger] ends_after(d, off, n) && name == text::utf8_lossy(d.subrange(off, off + n))
}

/// The first zero byte from `off` on is `n` bytes behind it.
pub open spec fn ends_after(d: Seq<u8>, off: int, n: int) -> bool {
    &&& 0 <= off && 0 <= n && off + n < d.len()
    &&& d[off + n] == 0
    &&& forall|k: int| off <= k < off + n ==> #[trigger] d[k] != 0
}

/// Two bytes write a number with the less significant one first, or last.
pub proof fn two_bytes_write_a_number(s: Seq<u8>)
    requires
        s.len() == 2,
    ensures
        reader::value_of(Endian::Little, s) == s[0] + 0x100 * s[1],
        reader::value_of(Endian::Big, s) == 0x100 * s[0] + s[1],
        reader::value_of(Endian::Little, s) <= 0xffff,
        reader::value_of(Endian::Big, s) <= 0xffff,
{
    reveal_with_fuel(reader::le_value, 3);
    reveal_with_fuel(reader::be_value, 3);
}

/// Four bytes write a number with the least significant one first, or last.
pub proof fn four_bytes_write_a_number(s: Seq<u8>)
    requires
        s.len() == 4,
    ensures
        reader::value_of(Endian::Little, s) == s[0] + 0x100 * s[1] + 0x1_0000 * s[2] + 0x100_0000
            * s[3],
        reader::value_of(Endian::Big, s) == 0x100_0000 * s[0] + 0x1_0000 * s[1] + 0x100 * s[2]
            + s[3],
        reader::value_of(Endian::Little, s) <= 0xffff_ffff,
        reader::value_of(Endian::Big, s) <= 0xffff_ffff,
{
    reveal_with_fuel(reader::le_value, 5);
    reveal_with_fuel(reader::be_value, 5);
}

/// Eight bytes write two numbers of four bytes, the less significant one first,
/// or last.
pub proof fn eight_bytes_write_a_number(s: Seq<u8>)
    requires
        s.len() == 8,
    ensures
        reader::value_of(Endian::Little, s) == reader::value_of(Endian::Little, s.take(4))
            + 0x1_0000_0000 * reader::value_of(Endian::Little, s.skip(4)),
        reader::value_of(Endian::Big, s) == 0x1_0000_0000 * reader::value_of(
            Endian::Big,
            s.take(4),
        ) + reader::value_of(Endian::Big, s.skip(4)),
        reader::value_of(Endian::Little, s) <= u64::MAX,
        reader::value_of(Endian::Big, s) <= u64::MAX,
{
    reveal_with_fuel(reader::le_value, 9);
    reveal_with_fuel(reader::be_value, 9);
    four_bytes_write_a_number(s.take(4));
    four_bytes_write_a_number(s.skip(4));
}

/// A read gives the number that stands there, where it all lies in the data,
/// and an error that names the place, the size and the length where it does
/// not.
pub proof fn reads_give_what_stands_there(d: Seq<u8>, e: Endian, at: usize)
    requires
        d.len() <= usize::MAX,
    ensures
        at + 1 <= d.len() ==> reader::read_u8(d, at) == Ok::<u8, reader::OutOfBounds>(d[at as int]),
        at + 2 <= d.len() ==> (reader::read_u16(d, e, at) matches Ok(v) && v == number_at(
            d,
            e,
            at as int,
            2,
        )),
        at + 4 <= d.len() ==> (reader::read_u32(d, e, at) matches Ok(v) && v == number_at(
            d,
            e,
            at as int,
            4,
        )),
        at + 8 <= d.len() ==> (reader::read_u64(d, e, at) matches Ok(v) && v == number_at(
            d,
            e,
            at as int,
            8,
        )),
        at + 1 > d.len() ==> (reader::read_u8(d, at) matches Err(x) && x.offset == at && x.size == 1
            && x.len == d.len()),
        at + 2 > d.len() ==> (reader::read_u16(d, e, at) matches Err(x) && x.offset == at && x.size
            == 2 && x.len == d.len()),
        at + 4 > d.len() ==> (reader::read_u32(d, e, at) matches Err(x) && x.offset == at && x.size
            == 4 && x.len == d.len()),
        at + 8 > d.len() ==> (reader::read_u64(d, e, at) matches Err(x) && x.offset == at && x.size
            == 8 && x.len == d.len()),
{
    let i = at as int;
    if at + 2 <= d.len() {
        two_bytes_write_a_number(d.subrange(i, i + 2));
    }
    if at + 4 <= d.len() {
        four_bytes_write_a_number(d.subrange(i, i + 4));
    }
    if at + 8 <= d.len() {
        eight_bytes_write_a_number(d.subrange(i, i + 8));
    }
}

/// A text is read from `off` exactly where a zero byte follows, and ends before
/// the first one.
pub proof fn texts_end_at_the_first_zero(d: Seq<u8>, off: usize, name: Seq<char>)
    ensures
        reader::text_at_offset(d, off) == Some(name) <==> name_at(d, off as int, name),
        reader::text_at_offset(d, off) is None <==> forall|k: int|
            off <= k < d.len() ==> #[trigger] d[k] != 0,
{
    let i = off as int;
    if off <= d.len() {
        let rest = d.skip(i);
        let n = reader::first_zero(rest);
        reader::lemma_first_zero(rest);
        assert forall|k: int| i <= k < d.len() implies #[trigger] d[k] == rest[k - i] by {}
        if n < rest.len() {
            assert(ends_after(d, i, n));
            assert(d.subrange(i, i + n) =~= rest.take(n));
            assert forall|m: int| #[trigger] ends_after(d, i, m) implies m == n by {
                if m < n {
                    assert(rest[m] != 0);
                }
                if n < m {
                    assert(d[i + n] != 0);
                }
            }
        } else {
            assert forall|m: int| !#[trigger] ends_after(d, i, m) by {
                if ends_after(d, i, m) {
                    assert(rest[m] != 0);
                }
            }
        }
    }
}

// ---------------------------------------------------------------------------
// Picking from the front
// ---------------------------------------------------------------------------

/// What is picked from two lists, one behind the other, is what is picked from
/// each.
pub proof fn lemma_picked_from_sum<A, B>(a: Seq<A>, b: Seq<A>, f: spec_fn(A) -> Option<B>)
    ensures
        (a + b).filter_map(f) == a.filter_map(f) + b.filter_map(f),
    decreases b.len(),
{
    if b.len() == 0 {
        assert(a + b =~= a);
        assert(a.filter_map(f) + b.filter_map(f) =~= a.filter_map(f));
    } else {
        lemma_picked_from_sum(a, b.drop_last(), f);
        assert((a + b).drop_last() =~= a + b.drop_last());
        assert((a + b).last() == b.last());
        assert((a + b).filter_map(f) =~= a.filter_map(f) + b.filter_map(f));
    }
}

/// What is picked from a list begins with what is picked from its first item.
pub proof fn lemma_picked_from_first<A, B>(s: Seq<A>, f: spec_fn(A) -> Option<B>)
    requires
        s.len() > 0,
    ensures
        s.filter_map(f) == (match f(s[0]) {
            Some(x) => seq![x] + s.drop_first().filter_map(f),
            None => s.drop_first().filter_map(f),
        }),
{
    let one = seq![s[0]];
    assert(s =~= one + s.drop_first());
    lemma_picked_from_sum(one, s.drop_first(), f);
    assert(one.drop_last() =~= Seq::<A>::empty());
    assert(one.drop_last().filter_map(f) =~= Seq::<B>::empty());
    assert(one.filter_map(f) =~= (match f(s[0]) {
        Some(x) => seq![x],
        None => Seq::empty(),
    }));
    assert(Seq::<B>::empty() + s.drop_first().filter_map(f) =~= s.drop_first().filter_map(f));
}

} // verus!
