//! The announce of a node: its name, the work it asks of a blob, and the
//! version of the protocol that it speaks.
use vstd::prelude::*;
use vstd::utf8::*;
use crate::fields::{array, array_of};
use crate::msgpack::{msgpack_read, msgpack_write, packed_items, read_value, write_value, Decoded, Item, Packed};
use crate::octets::copied;
use crate::text::string_from_utf8;

verus! {

/// The version of the protocol that this node speaks.
pub const PROTOCOL_VERSION: u8 = 1;

/// What a node says of itself.
pub struct NodeAnnounce {
    pub display_name: String,
    pub stamp_cost: Option<u32>,
    pub protocol_version: u8,
}

/// The value of an announce.
pub open spec fn node_announce_value(name: Seq<char>, stamp_cost: Option<u32>) -> Packed {
    Packed::Array(
        seq![
            Packed::Binary(encode_utf8(name)),
            match stamp_cost {
                Some(c) => Packed::UInt(c as u64),
                None => Packed::Nil,
            },
            Packed::UInt(PROTOCOL_VERSION as u64),
        ],
    )
}

/// The wire form of an announce.
pub fn encode_node_announce(display_name: &str, stamp_cost: Option<u32>) -> (r: Vec<u8>)
    ensures
        r@ == msgpack_write(node_announce_value(display_name@, stamp_cost)),
        encode_utf8(display_name@).len() <= u32::MAX ==> msgpack_read(r@) == Some(
            node_announce_value(display_name@, stamp_cost),
        ),
{
    broadcast use crate::msgpack::group_item_views;

    let name: Vec<u8> = copied(display_name.as_bytes());
    let cost: Item = match stamp_cost {
        Some(c) => Item::UInt(c as u64),
        None => Item::Nil,
    };
    let items: Vec<Item> = vec![Item::Binary(name), cost, Item::UInt(PROTOCOL_VERSION as u64)];
    proof {
        let p = node_announce_value(display_name@, stamp_cost);
        assert(crate::msgpack::item_views(items@) =~= p->Array_0);
        if encode_utf8(display_name@).len() <= u32::MAX {
            assert(crate::msgpack::fits(p->Array_0[0], (crate::msgpack::MAX_NESTING - 1) as nat));
            assert(crate::msgpack::fits(p->Array_0[1], (crate::msgpack::MAX_NESTING - 1) as nat));
            assert(crate::msgpack::fits(p->Array_0[2], (crate::msgpack::MAX_NESTING - 1) as nat));
            assert(crate::msgpack::fits(p, crate::msgpack::MAX_NESTING as nat));
        }
    }
    write_value(Item::Array(items))
}

/// The name that an announce gives: bytes that are valid UTF-8, or a string;
/// none otherwise.
pub open spec fn announced_name(items: Seq<Packed>) -> Seq<char> {
    if items.len() == 0 {
        Seq::empty()
    } else {
        match items[0] {
            Packed::Binary(b) => if valid_utf8(b) {
                decode_utf8(b)
            } else {
                Seq::empty()
            },
            Packed::Str(s) => s,
            _ => Seq::empty(),
        }
    }
}

/// The number at a place of an announce, where there is one.
pub open spec fn announced_number(items: Seq<Packed>, i: int) -> Option<u64> {
    if i < items.len() {
        match items[i] {
            Packed::UInt(n) => Some(n),
            _ => None,
        }
    } else {
        None
    }
}

/// What the items of an announce say: the name, the low bits of the cost
/// where one is asked, and the low bits of the version, which is nothing where
/// none is given.
pub open spec fn announces(a: NodeAnnounce, items: Seq<Packed>) -> bool {
    &&& a.display_name@ == announced_name(items)
    &&& a.stamp_cost == (match announced_number(items, 1) {
        Some(n) => Some(n as u32),
        None => None,
    })
    &&& a.protocol_version == (match announced_number(items, 2) {
        Some(n) => n as u8,
        None => 0,
    })
}

fn item_number(items: &Vec<Decoded>, i: usize) -> (r: Option<u64>)
    ensures
        r == announced_number(packed_items(items@), i as int),
{
    if i < items.len() {
        match &items[i] {
            Decoded::UInt(n) => Some(*n),
            _ => None,
        }
    } else {
        None
    }
}

fn item_name(items: &Vec<Decoded>) -> (r: String)
    ensures
        r@ == announced_name(packed_items(items@)),
{
    let none: String = "".to_owned();
    proof {
        reveal_strlit("");
        assert(none@ =~= Seq::empty());
    }
    if items.len() == 0 {
        return none;
    }
    match &items[0] {
        Decoded::Binary(b) => match string_from_utf8(copied(b.as_slice())) {
            Some(s) => s,
            None => none,
        },
        Decoded::Str(s) => s.as_str().to_owned(),
        _ => none,
    }
}

/// What a decoded announce says; nothing where it is no array.
pub fn node_announce(value: &Decoded) -> (r: Option<NodeAnnounce>)
    ensures
        r is Some <==> array_of(value@) is Some,
        r matches Some(a) ==> announces(a, array_of(value@)->0),
{
    let items: &Vec<Decoded> = match array(value) {
        Some(a) => a,
        None => return None,
    };
    let stamp_cost: Option<u32> = match item_number(items, 1) {
        Some(n) => Some(
            (#[verifier::truncate]
            (n as u32)),
        ),
        None => None,
    };
    let protocol_version: u8 = match item_number(items, 2) {
        Some(n) => (#[verifier::truncate]
        (n as u8)),
        None => 0,
    };
    Some(NodeAnnounce { display_name: item_name(items), stamp_cost, protocol_version })
}

/// What an announce in its wire form says.
pub fn decode_node_announce(data: &[u8]) -> (r: Option<NodeAnnounce>)
    ensures
        match msgpack_read(data@) {
            Some(p) => (r is Some <==> array_of(p) is Some) && (r matches Some(a) ==> announces(a, array_of(p)->0)),
            None => r is None,
        },
{
    match read_value(data) {
        Some(v) => node_announce(&v),
        None => None,
    }
}

/// An announce that this library writes is read as what it was made of.
pub proof fn law_announce_round_trip(name: Seq<char>, stamp_cost: Option<u32>, a: NodeAnnounce)
    requires
        announces(a, array_of(node_announce_value(name, stamp_cost))->0),
    ensures
        a.display_name@ == name,
        a.stamp_cost == stamp_cost,
        a.protocol_version == PROTOCOL_VERSION,
{
    encode_utf8_valid_utf8(name);
    encode_utf8_decode_utf8(name);
    if let Some(c) = stamp_cost {
        assert((c as u64) as u32 == c);
    }
    assert((PROTOCOL_VERSION as u64) as u8 == PROTOCOL_VERSION);
}

/// An announce gives the name of a node in its first place, as bytes of a text or
/// as a text, its cost in the second and its version in the third. What is
/// missing or of another kind counts as no name, no cost and version zero.
pub proof fn law_what_a_node_announces(a: NodeAnnounce, items: Seq<Packed>)
    requires
        announces(a, items),
    ensures
        items.len() == 0 ==> a.display_name@.len() == 0 && a.stamp_cost is None && a.protocol_version == 0,
        items.len() > 0 && items[0] is Str ==> a.display_name@ == items[0]->Str_0,
        items.len() > 0 && items[0] is Binary && valid_utf8(items[0]->Binary_0) ==> a.display_name@ == decode_utf8(
            items[0]->Binary_0,
        ),
        items.len() > 0 && !(items[0] is Str) && !(items[0] is Binary) ==> a.display_name@.len() == 0,
        items.len() > 1 && items[1] is UInt && items[1]->UInt_0 <= u32::MAX ==> a.stamp_cost == Some(
            items[1]->UInt_0 as u32,
        ),
        items.len() <= 1 || !(items[1] is UInt) ==> a.stamp_cost is None,
        items.len() > 2 && items[2] is UInt && items[2]->UInt_0 <= u8::MAX ==> a.protocol_version
            == items[2]->UInt_0,
        items.len() <= 2 || !(items[2] is UInt) ==> a.protocol_version == 0,
{
}

} // verus!
