//! Reading the parts of a decoded message-pack value.
use vstd::prelude::*;
use crate::msgpack::{Decoded, Item};
use crate::octets::copied;

verus! {

/// The byte strings among a list of values, in order.
pub open spec fn binaries_of(items: Seq<crate::msgpack::Packed>) -> Seq<Seq<u8>>
    decreases items.len(),
{
    if items.len() == 0 {
        Seq::empty()
    } else {
        let rest = binaries_of(items.drop_last());
        match items.last() {
            crate::msgpack::Packed::Binary(b) => rest.push(b),
            _ => rest,
        }
    }
}

/// The byte strings among a list of values, in order.
pub fn binaries(items: &Vec<Decoded>) -> (r: Vec<Vec<u8>>)
    ensures
        crate::octets::views(r@) == binaries_of(crate::msgpack::packed_items(items@)),
{
    let ghost all = crate::msgpack::packed_items(items@);
    let mut out: Vec<Vec<u8>> = Vec::new();
    let mut i: usize = 0;
    assert(crate::octets::views(out@) =~= binaries_of(all.take(0)));
    while i < items.len()
        invariant
            0 <= i <= items@.len(),
            all == crate::msgpack::packed_items(items@),
            crate::octets::views(out@) == binaries_of(all.take(i as int)),
        decreases items@.len() - i,
    {
        proof {
            assert(all.take(i + 1).drop_last() =~= all.take(i as int));
            assert(all.take(i + 1).last() == items@[i as int]@);
        }
        if let Decoded::Binary(b) = &items[i] {
            let ghost before = out@;
            let item: Vec<u8> = copied(b.as_slice());
            out.push(item);
            assert(crate::octets::views(out@) =~= crate::octets::views(before).push(item@));
        }
        i += 1;
    }
    assert(all.take(items@.len() as int) =~= all);
    out
}

/// A list of byte strings as values.
pub open spec fn binary_items(list: Seq<Seq<u8>>) -> Seq<crate::msgpack::Packed> {
    Seq::new(list.len(), |i: int| crate::msgpack::Packed::Binary(list[i]))
}

/// A list of byte strings as a value to be written.
pub fn binary_list(list: Vec<Vec<u8>>) -> (r: Item)
    ensures
        r@ == crate::msgpack::Packed::Array(binary_items(crate::octets::views(list@))),
{
    broadcast use crate::msgpack::group_item_views;

    let mut out: Vec<Item> = Vec::new();
    let ghost all = crate::octets::views(list@);
    for x in it: list
        invariant
            it.seq() == list@,
            all == crate::octets::views(list@),
            crate::msgpack::item_views(out@) == binary_items(all).take(it.index()),
    {
        let ghost i = it.index();
        let ghost before = out@;
        let item: Item = Item::Binary(x);
        out.push(item);
        proof {
            assert(crate::msgpack::item_views(out@) =~= crate::msgpack::item_views(before).push(item@));
            assert(binary_items(all).take(i + 1) =~= binary_items(all).take(i).push(binary_items(all)[i]));
        }
    }
    assert(binary_items(all).take(list@.len() as int) =~= binary_items(all));
    Item::Array(out)
}

/// The byte strings of a list of byte strings are that list.
pub proof fn lemma_binaries_of_list(list: Seq<Seq<u8>>)
    ensures
        binaries_of(binary_items(list)) == list,
    decreases list.len(),
{
    if list.len() > 0 {
        lemma_binaries_of_list(list.drop_last());
        assert(binary_items(list).drop_last() =~= binary_items(list.drop_last()));
        assert(list.drop_last().push(list.last()) =~= list);
    } else {
        assert(binaries_of(binary_items(list)) =~= list);
    }
}

/// A list of byte strings that fits the wire form does so as a value.
pub proof fn lemma_list_fits(list: Seq<Seq<u8>>, depth: nat)
    requires
        crate::msgpack::list_fits(list),
        depth > 0,
    ensures
        crate::msgpack::fits(crate::msgpack::Packed::Array(binary_items(list)), depth),
{
    let items = binary_items(list);
    assert forall|i: int| 0 <= i < items.len() implies crate::msgpack::fits(#[trigger] items[i], (depth - 1) as nat) by {
        assert(items[i] == crate::msgpack::Packed::Binary(list[i]));
        assert(list[i].len() <= u32::MAX);
    }
}

/// The integer that a value is, where it is one that fits.
pub open spec fn integer_of(p: crate::msgpack::Packed) -> Option<i64> {
    match p {
        crate::msgpack::Packed::UInt(n) => if n <= i64::MAX {
            Some(n as i64)
        } else {
            None
        },
        crate::msgpack::Packed::NegInt(n) => Some(n),
        _ => None,
    }
}

/// The integer that a value is, where it is one that fits.
pub fn integer(v: &Decoded) -> (r: Option<i64>)
    ensures
        r == integer_of(v@),
{
    match v {
        Decoded::UInt(n) => if *n <= 0x7fff_ffff_ffff_ffff {
            Some(*n as i64)
        } else {
            None
        },
        Decoded::NegInt(n) => Some(*n),
        _ => None,
    }
}

/// A number: an integer, or a float held by its bits.
#[derive(Clone, Copy, Debug, PartialEq, Eq, Structural)]
pub enum Number {
    Whole(u64),
    Negative(i64),
    Float32(u32),
    Float64(u64),
}

/// The number that a value is, where it is one.
pub open spec fn number_of(p: crate::msgpack::Packed) -> Option<Number> {
    match p {
        crate::msgpack::Packed::UInt(n) => Some(Number::Whole(n)),
        crate::msgpack::Packed::NegInt(n) => Some(Number::Negative(n)),
        crate::msgpack::Packed::F32(bits) => Some(Number::Float32(bits)),
        crate::msgpack::Packed::F64(bits) => Some(Number::Float64(bits)),
        _ => None,
    }
}

/// The number that a value is, where it is one.
pub fn number(v: &Decoded) -> (r: Option<Number>)
    ensures
        r == number_of(v@),
{
    match v {
        Decoded::UInt(n) => Some(Number::Whole(*n)),
        Decoded::NegInt(n) => Some(Number::Negative(*n)),
        Decoded::F32(bits) => Some(Number::Float32(*bits)),
        Decoded::F64(bits) => Some(Number::Float64(*bits)),
        _ => None,
    }
}

/// The bytes of a number of kilobytes, counted in thousands. A number below
/// nothing stands for nothing, and one that is too large for the most that
/// there is. Nothing is known here of a float.
pub open spec fn kilobytes_of(n: Number) -> Option<u64> {
    match n {
        Number::Whole(k) => if k * 1000 <= u64::MAX {
            Some((k * 1000) as u64)
        } else {
            Some(u64::MAX)
        },
        Number::Negative(_) => Some(0),
        _ => None,
    }
}

/// The bytes of a number of kilobytes, as [`kilobytes_of`] says.
pub fn kilobytes(n: Number) -> (r: Option<u64>)
    ensures
        r == kilobytes_of(n),
{
    match n {
        Number::Whole(k) => if k <= 18_446_744_073_709_551 {
            Some(k * 1000)
        } else {
            Some(u64::MAX)
        },
        Number::Negative(_) => Some(0),
        _ => None,
    }
}

/// The items of a value, where it is an array.
pub open spec fn array_of(p: crate::msgpack::Packed) -> Option<Seq<crate::msgpack::Packed>> {
    match p {
        crate::msgpack::Packed::Array(items) => Some(items),
        _ => None,
    }
}

/// The items of a value, where it is an array.
pub fn array(v: &Decoded) -> (r: Option<&Vec<Decoded>>)
    ensures
        r is Some <==> array_of(v@) is Some,
        r matches Some(items) ==> array_of(v@) == Some(crate::msgpack::packed_items(items@)),
{
    match v {
        Decoded::Array(items) => {
            proof {
                crate::msgpack::lemma_decoded_array(*items);
            }
            Some(items)
        },
        _ => None,
    }
}

/// The bytes of a value, where it is a byte string.
pub open spec fn binary_of(p: crate::msgpack::Packed) -> Option<Seq<u8>> {
    match p {
        crate::msgpack::Packed::Binary(b) => Some(b),
        _ => None,
    }
}

/// A copy of the bytes of a value, where it is a byte string.
pub fn binary(v: &Decoded) -> (r: Option<Vec<u8>>)
    ensures
        crate::octets::opt_view(r) == binary_of(v@),
{
    match v {
        Decoded::Binary(b) => Some(copied(b.as_slice())),
        _ => None,
    }
}

/// The byte strings of a list are taken in their order, each of them, and what
/// is none is left out.
pub proof fn law_every_byte_string_is_taken(
    a: Seq<crate::msgpack::Packed>,
    b: Seq<crate::msgpack::Packed>,
    p: crate::msgpack::Packed,
)
    ensures
        binaries_of(a + b) == binaries_of(a) + binaries_of(b),
        p is Binary ==> binaries_of(seq![p]) == seq![p->Binary_0],
        !(p is Binary) ==> binaries_of(seq![p]).len() == 0,
        binaries_of(Seq::empty()).len() == 0,
    decreases b.len(),
{
    assert(seq![p].drop_last() =~= Seq::empty());
    assert(binaries_of(seq![p].drop_last()) =~= Seq::empty());
    if p is Binary {
        assert(binaries_of(seq![p]) =~= seq![p->Binary_0]);
    }
    if b.len() == 0 {
        assert(a + b =~= a);
        assert(binaries_of(a) + binaries_of(b) =~= binaries_of(a));
    } else {
        law_every_byte_string_is_taken(a, b.drop_last(), p);
        assert((a + b).drop_last() =~= a + b.drop_last());
        assert((a + b).last() == b.last());
        assert(binaries_of(a + b) =~= binaries_of(a) + binaries_of(b));
    }
}

/// An integer is read as itself, positive or negative, as far as it fits, and a
/// limit in kilobytes as a thousand bytes each: as much as fits, and nothing
/// where it is negative.
pub proof fn law_numbers_are_read(n: u64, m: i64)
    ensures
        n <= i64::MAX ==> integer_of(crate::msgpack::Packed::UInt(n)) == Some(n as i64),
        n > i64::MAX ==> integer_of(crate::msgpack::Packed::UInt(n)) is None,
        integer_of(crate::msgpack::Packed::NegInt(m)) == Some(m),
        n * 1000 <= u64::MAX ==> kilobytes_of(Number::Whole(n)) == Some((n * 1000) as u64),
        n * 1000 > u64::MAX ==> kilobytes_of(Number::Whole(n)) == Some(u64::MAX),
        kilobytes_of(Number::Negative(m)) == Some(0u64),
        number_of(crate::msgpack::Packed::UInt(n)) == Some(Number::Whole(n)),
        number_of(crate::msgpack::Packed::NegInt(m)) == Some(Number::Negative(m)),
{
}

} // verus!
