//! Message-pack values and their wire form.
use vstd::prelude::*;
use vstd::utf8::*;
use rmpv::Value;
use crate::octets::views;
use crate::subscription::triple_views;

verus! {

/// A message-pack value. A float is held by its bits.
pub enum Decoded {
    Nil,
    Boolean(bool),
    /// An integer that is not negative.
    UInt(u64),
    /// A negative integer.
    NegInt(i64),
    F32(u32),
    F64(u64),
    /// A string that is valid UTF-8.
    Str(String),
    /// A string whose bytes are not valid UTF-8.
    RawStr(Vec<u8>),
    Binary(Vec<u8>),
    Array(Vec<Decoded>),
    Table(Vec<(Decoded, Decoded)>),
    Ext(i8, Vec<u8>),
}

/// What a [`Decoded`] holds.
pub enum Packed {
    Nil,
    Boolean(bool),
    UInt(u64),
    NegInt(i64),
    F32(u32),
    F64(u64),
    Str(Seq<char>),
    RawStr(Seq<u8>),
    Binary(Seq<u8>),
    Array(Seq<Packed>),
    Table(Seq<(Packed, Packed)>),
    Ext(i8, Seq<u8>),
}

impl View for Decoded {
    type V = Packed;

    open spec fn view(&self) -> Packed
        decreases self,
    {
        match *self {
            Decoded::Nil => Packed::Nil,
            Decoded::Boolean(b) => Packed::Boolean(b),
            Decoded::UInt(n) => Packed::UInt(n),
            Decoded::NegInt(n) => Packed::NegInt(n),
            Decoded::F32(bits) => Packed::F32(bits),
            Decoded::F64(bits) => Packed::F64(bits),
            Decoded::Str(s) => Packed::Str(s@),
            Decoded::RawStr(b) => Packed::RawStr(b@),
            Decoded::Binary(b) => Packed::Binary(b@),
            Decoded::Array(items) => Packed::Array(
                Seq::new(
                    items@.len(),
                    |i: int|
                        if 0 <= i < items@.len() {
                            items@[i].view()
                        } else {
                            arbitrary()
                        },
                ),
            ),
            Decoded::Table(pairs) => Packed::Table(
                Seq::new(
                    pairs@.len(),
                    |i: int|
                        if 0 <= i < pairs@.len() {
                            (pairs@[i].0.view(), pairs@[i].1.view())
                        } else {
                            arbitrary()
                        },
                ),
            ),
            Decoded::Ext(tag, b) => Packed::Ext(tag, b@),
        }
    }
}

/// The contents of a list of values.
pub open spec fn packed_items(items: Seq<Decoded>) -> Seq<Packed> {
    Seq::new(items.len(), |i: int| items[i]@)
}

/// The contents of a list of pairs of values.
pub open spec fn packed_pairs(pairs: Seq<(Decoded, Decoded)>) -> Seq<(Packed, Packed)> {
    Seq::new(pairs.len(), |i: int| (pairs[i].0@, pairs[i].1@))
}

/// A message-pack value to be written.
pub enum Item {
    Nil,
    Boolean(bool),
    UInt(u64),
    Str(String),
    Binary(Vec<u8>),
    Array(Vec<Item>),
    Table(Vec<(Item, Item)>),
}

impl View for Item {
    type V = Packed;

    open spec fn view(&self) -> Packed
        decreases self,
    {
        match *self {
            Item::Nil => Packed::Nil,
            Item::Boolean(b) => Packed::Boolean(b),
            Item::UInt(n) => Packed::UInt(n),
            Item::Str(s) => Packed::Str(s@),
            Item::Binary(b) => Packed::Binary(b@),
            Item::Array(items) => Packed::Array(
                Seq::new(
                    items@.len(),
                    |i: int|
                        if 0 <= i < items@.len() {
                            items@[i].view()
                        } else {
                            arbitrary()
                        },
                ),
            ),
            Item::Table(pairs) => Packed::Table(
                Seq::new(
                    pairs@.len(),
                    |i: int|
                        if 0 <= i < pairs@.len() {
                            (pairs@[i].0.view(), pairs@[i].1.view())
                        } else {
                            arbitrary()
                        },
                ),
            ),
        }
    }
}

/// The contents of a list of values to be written.
pub open spec fn item_views(items: Seq<Item>) -> Seq<Packed> {
    Seq::new(items.len(), |i: int| items[i]@)
}

/// The contents of a list of pairs to be written.
pub open spec fn entry_views(pairs: Seq<(Item, Item)>) -> Seq<(Packed, Packed)> {
    Seq::new(pairs.len(), |i: int| (pairs[i].0@, pairs[i].1@))
}

pub broadcast proof fn lemma_nil_view()
    ensures
        #[trigger] Item::Nil.view() == Packed::Nil,
{
}

pub broadcast proof fn lemma_boolean_view(b: bool)
    ensures
        #[trigger] Item::Boolean(b).view() == Packed::Boolean(b),
{
}

pub broadcast proof fn lemma_uint_view(n: u64)
    ensures
        #[trigger] Item::UInt(n).view() == Packed::UInt(n),
{
}

pub broadcast proof fn lemma_str_view(s: String)
    ensures
        #[trigger] Item::Str(s).view() == Packed::Str(s@),
{
}

pub broadcast proof fn lemma_binary_view(b: Vec<u8>)
    ensures
        #[trigger] Item::Binary(b).view() == Packed::Binary(b@),
{
}

pub broadcast proof fn lemma_array_view(items: Vec<Item>)
    ensures
        #[trigger] Item::Array(items).view() == Packed::Array(item_views(items@)),
{
    reveal_with_fuel(<Item as View>::view, 2);
    assert(Item::Array(items).view()->Array_0 =~= item_views(items@));
}

pub broadcast proof fn lemma_table_view(pairs: Vec<(Item, Item)>)
    ensures
        #[trigger] Item::Table(pairs).view() == Packed::Table(entry_views(pairs@)),
{
    reveal_with_fuel(<Item as View>::view, 2);
    assert(Item::Table(pairs).view()->Table_0 =~= entry_views(pairs@));
}

/// What each value to be written holds.
pub broadcast group group_item_views {
    lemma_nil_view,
    lemma_boolean_view,
    lemma_uint_view,
    lemma_str_view,
    lemma_binary_view,
    lemma_array_view,
    lemma_table_view,
}

/// What a decoded array holds.
pub proof fn lemma_decoded_array(items: Vec<Decoded>)
    ensures
        Decoded::Array(items)@ == Packed::Array(packed_items(items@)),
{
    reveal_with_fuel(<Decoded as View>::view, 2);
    assert(Decoded::Array(items)@->Array_0 =~= packed_items(items@));
}

/// What a decoded table holds.
pub proof fn lemma_decoded_table(pairs: Vec<(Decoded, Decoded)>)
    ensures
        Decoded::Table(pairs)@ == Packed::Table(packed_pairs(pairs@)),
{
    reveal_with_fuel(<Decoded as View>::view, 2);
    assert(Decoded::Table(pairs)@->Table_0 =~= packed_pairs(pairs@));
}

/// Whether `p` is made of the kinds of value that are written here, with every
/// string, byte string, array and table within what the length field of the
/// wire form can count, and at most `depth` levels of arrays and tables.
pub open spec fn fits(p: Packed, depth: nat) -> bool
    decreases depth,
{
    match p {
        Packed::Str(s) => encode_utf8(s).len() <= u32::MAX,
        Packed::Binary(b) => b.len() <= u32::MAX,
        Packed::F32(_) | Packed::F64(_) | Packed::RawStr(_) | Packed::Ext(_, _) => false,
        Packed::Array(items) => depth > 0 && items.len() <= u32::MAX && forall|i: int|
            0 <= i < items.len() ==> fits(#[trigger] items[i], (depth - 1) as nat),
        Packed::Table(pairs) => depth > 0 && pairs.len() <= u32::MAX && forall|i: int|
            0 <= i < pairs.len() ==> fits((#[trigger] pairs[i]).0, (depth - 1) as nat) && fits(
                pairs[i].1,
                (depth - 1) as nat,
            ),
        _ => true,
    }
}

/// The levels of nesting within which what is written can be read back.
pub const MAX_NESTING: u64 = 64;

#[verifier::external_type_specification]
#[verifier::external_body]
pub struct ExOutsideValue(rmpv::Value);

/// What an outside message-pack value holds.
pub uninterp spec fn value_contents(v: rmpv::Value) -> Packed;

/// What `rmpv::decode::read_value` finds at the start of a byte string.
pub uninterp spec fn msgpack_read(bytes: Seq<u8>) -> Option<Packed>;

/// The bytes that `rmpv::encode::write_value` writes for a value.
pub uninterp spec fn msgpack_write(p: Packed) -> Seq<u8>;

/// The text of the error with which `rmpv::decode::read_value` refuses a byte
/// string.
pub uninterp spec fn msgpack_error(bytes: Seq<u8>) -> Seq<char>;

/// The debugging text of an `rmpv::Value` that holds this.
pub uninterp spec fn value_text(p: Packed) -> Seq<char>;

/// `rmpv::decode::read_value`: the value at the start of `data`, or the text of
/// the error where the bytes are no value.
#[verifier::external_body]
fn decode_outside(data: &[u8]) -> (r: Result<rmpv::Value, String>)
    ensures
        r matches Ok(v) ==> msgpack_read(data@) == Some(value_contents(v)),
        r matches Err(e) ==> msgpack_read(data@) is None && e@ == msgpack_error(data@),
{
    match rmpv::decode::read_value(&mut std::io::Cursor::new(data)) {
        Ok(v) => Ok(v),
        Err(e) => Err(format!("{e}")),
    }
}

/// The debugging text of an `rmpv::Value`, which depends on what the value
/// holds and on nothing else.
#[verifier::external_body]
fn debug_outside(v: &rmpv::Value) -> (r: String)
    ensures
        r@ == value_text(value_contents(*v)),
{
    format!("{v:?}")
}

/// An outside value, taken apart by one level.
enum Peeled {
    Nil,
    Boolean(bool),
    /// The number as an unsigned and as a signed one, where it fits.
    Whole(Option<u64>, Option<i64>),
    F32(u32),
    F64(u64),
    /// The text, where the bytes are valid UTF-8, and the bytes.
    Text(Option<String>, Vec<u8>),
    Binary(Vec<u8>),
    Array(Vec<rmpv::Value>),
    Table(Vec<(rmpv::Value, rmpv::Value)>),
    Ext(i8, Vec<u8>),
}

/// The contents of a list of outside values.
pub open spec fn value_list(items: Seq<rmpv::Value>) -> Seq<Packed> {
    items.map_values(|v: rmpv::Value| value_contents(v))
}

/// The contents of a list of pairs of outside values.
pub open spec fn value_pairs(pairs: Seq<(rmpv::Value, rmpv::Value)>) -> Seq<(Packed, Packed)> {
    pairs.map_values(|p: (rmpv::Value, rmpv::Value)| (value_contents(p.0), value_contents(p.1)))
}

/// What a value taken apart by one level holds.
spec fn peeled_contents(p: Peeled) -> Packed {
    match p {
        Peeled::Nil => Packed::Nil,
        Peeled::Boolean(b) => Packed::Boolean(b),
        Peeled::Whole(Some(n), _) => Packed::UInt(n),
        Peeled::Whole(None, n) => Packed::NegInt(n->0),
        Peeled::F32(bits) => Packed::F32(bits),
        Peeled::F64(bits) => Packed::F64(bits),
        Peeled::Text(Some(s), _) => Packed::Str(s@),
        Peeled::Text(None, b) => Packed::RawStr(b@),
        Peeled::Binary(b) => Packed::Binary(b@),
        Peeled::Array(items) => Packed::Array(value_list(items@)),
        Peeled::Table(pairs) => Packed::Table(value_pairs(pairs@)),
        Peeled::Ext(tag, b) => Packed::Ext(tag, b@),
    }
}

/// `rmpv::Value`, told apart by its variants. A number fits at least one of
/// the two integer types.
#[verifier::external_body]
fn peel(v: rmpv::Value) -> (r: Peeled)
    ensures
        peeled_contents(r) == value_contents(v),
        !(r matches Peeled::Whole(None, None)),
{
    match v {
        Value::Nil => Peeled::Nil,
        Value::Boolean(b) => Peeled::Boolean(b),
        Value::Integer(n) => Peeled::Whole(n.as_u64(), n.as_i64()),
        Value::F32(x) => Peeled::F32(x.to_bits()),
        Value::F64(x) => Peeled::F64(x.to_bits()),
        Value::String(s) => Peeled::Text(s.as_str().map(str::to_owned), s.into_bytes()),
        Value::Binary(b) => Peeled::Binary(b),
        Value::Array(a) => Peeled::Array(a),
        Value::Map(m) => Peeled::Table(m),
        Value::Ext(tag, b) => Peeled::Ext(tag, b),
    }
}

/// The same value in the library's own type.
fn from_outside(v: rmpv::Value) -> (r: Decoded)
    ensures
        r@ == value_contents(v),
    decreases value_contents(v),
{
    match peel(v) {
        Peeled::Nil => Decoded::Nil,
        Peeled::Boolean(b) => Decoded::Boolean(b),
        Peeled::Whole(Some(n), _) => Decoded::UInt(n),
        Peeled::Whole(None, Some(n)) => Decoded::NegInt(n),
        Peeled::Whole(None, None) => Decoded::Nil,
        Peeled::F32(bits) => Decoded::F32(bits),
        Peeled::F64(bits) => Decoded::F64(bits),
        Peeled::Text(Some(s), _) => Decoded::Str(s),
        Peeled::Text(None, b) => Decoded::RawStr(b),
        Peeled::Binary(b) => Decoded::Binary(b),
        Peeled::Array(items) => {
            let mut out: Vec<Decoded> = Vec::new();
            for x in it: items
                invariant
                    it.seq() == items@,
                    value_contents(v) == Packed::Array(value_list(items@)),
                    packed_items(out@) == value_list(items@).take(it.index()),
            {
                let ghost i = it.index();
                proof {
                    assert(value_list(items@)[i] == value_contents(x));
                    assert(decreases_to!(value_contents(v) => value_contents(v)->Array_0));
                    assert(decreases_to!(value_contents(v)->Array_0 => value_contents(v)->Array_0[i]));
                }
                let item: Decoded = from_outside(x);
                let ghost before = out@;
                out.push(item);
                assert(packed_items(out@) =~= packed_items(before).push(item@));
                assert(value_list(items@).take(i + 1) =~= value_list(items@).take(i).push(value_list(items@)[i]));
            }
            proof {
                lemma_decoded_array(out);
                assert(value_list(items@).take(items@.len() as int) =~= value_list(items@));
            }
            Decoded::Array(out)
        },
        Peeled::Table(pairs) => {
            let mut out: Vec<(Decoded, Decoded)> = Vec::new();
            for x in it: pairs
                invariant
                    it.seq() == pairs@,
                    value_contents(v) == Packed::Table(value_pairs(pairs@)),
                    packed_pairs(out@) == value_pairs(pairs@).take(it.index()),
            {
                let ghost i = it.index();
                proof {
                    assert(value_pairs(pairs@)[i] == (value_contents(x.0), value_contents(x.1)));
                    assert(decreases_to!(value_contents(v) => value_contents(v)->Table_0));
                    assert(decreases_to!(value_contents(v)->Table_0 => value_contents(v)->Table_0[i]));
                    assert(decreases_to!(value_contents(v)->Table_0[i] => value_contents(v)->Table_0[i].0));
                    assert(decreases_to!(value_contents(v)->Table_0[i] => value_contents(v)->Table_0[i].1));
                }
                let key: Decoded = from_outside(x.0);
                let value: Decoded = from_outside(x.1);
                let ghost before = out@;
                out.push((key, value));
                assert(packed_pairs(out@) =~= packed_pairs(before).push((key@, value@)));
                assert(value_pairs(pairs@).take(i + 1) =~= value_pairs(pairs@).take(i).push(value_pairs(pairs@)[i]));
            }
            proof {
                lemma_decoded_table(out);
                assert(value_pairs(pairs@).take(pairs@.len() as int) =~= value_pairs(pairs@));
            }
            Decoded::Table(out)
        },
        Peeled::Ext(tag, b) => Decoded::Ext(tag, b),
    }
}

/// The parts of an outside value, one level of it.
enum Parts {
    Nil,
    Boolean(bool),
    UInt(u64),
    Str(String),
    Binary(Vec<u8>),
    Array(Vec<rmpv::Value>),
    Table(Vec<(rmpv::Value, rmpv::Value)>),
}

/// What the parts make up.
spec fn parts_contents(p: Parts) -> Packed {
    match p {
        Parts::Nil => Packed::Nil,
        Parts::Boolean(b) => Packed::Boolean(b),
        Parts::UInt(n) => Packed::UInt(n),
        Parts::Str(s) => Packed::Str(s@),
        Parts::Binary(b) => Packed::Binary(b@),
        Parts::Array(items) => Packed::Array(value_list(items@)),
        Parts::Table(pairs) => Packed::Table(value_pairs(pairs@)),
    }
}

/// `rmpv::Value`, put together from its parts.
#[verifier::external_body]
fn assemble(p: Parts) -> (r: rmpv::Value)
    ensures
        value_contents(r) == parts_contents(p),
{
    match p {
        Parts::Nil => Value::Nil,
        Parts::Boolean(b) => Value::Boolean(b),
        Parts::UInt(n) => Value::Integer(n.into()),
        Parts::Str(s) => Value::String(s.into()),
        Parts::Binary(b) => Value::Binary(b),
        Parts::Array(items) => Value::Array(items),
        Parts::Table(pairs) => Value::Map(pairs),
    }
}

/// The same value in the outside type.
fn to_outside(v: Item) -> (r: rmpv::Value)
    ensures
        value_contents(r) == v@,
    decreases v,
{
    broadcast use group_item_views;

    match v {
        Item::Nil => assemble(Parts::Nil),
        Item::Boolean(b) => assemble(Parts::Boolean(b)),
        Item::UInt(n) => assemble(Parts::UInt(n)),
        Item::Str(s) => assemble(Parts::Str(s)),
        Item::Binary(b) => assemble(Parts::Binary(b)),
        Item::Array(items) => {
            let mut out: Vec<rmpv::Value> = Vec::new();
            for x in it: items
                invariant
                    it.seq() == items@,
                    v == Item::Array(items),
                    value_list(out@) == item_views(items@).take(it.index()),
            {
                let ghost i = it.index();
                proof {
                    assert(x == items@[i]);
                    assert(decreases_to!(v => v->Array_0));
                    assert(decreases_to!(v->Array_0 => v->Array_0@));
                    assert(decreases_to!(v->Array_0@ => v->Array_0@[i]));
                }
                let item: rmpv::Value = to_outside(x);
                let ghost before = out@;
                out.push(item);
                assert(value_list(out@) =~= value_list(before).push(value_contents(item)));
                assert(item_views(items@).take(i + 1) =~= item_views(items@).take(i).push(item_views(items@)[i]));
            }
            assert(item_views(items@).take(items@.len() as int) =~= item_views(items@));
            assemble(Parts::Array(out))
        },
        Item::Table(pairs) => {
            let mut out: Vec<(rmpv::Value, rmpv::Value)> = Vec::new();
            for x in it: pairs
                invariant
                    it.seq() == pairs@,
                    v == Item::Table(pairs),
                    value_pairs(out@) == entry_views(pairs@).take(it.index()),
            {
                let ghost i = it.index();
                proof {
                    assert(x == pairs@[i]);
                    assert(decreases_to!(v => v->Table_0));
                    assert(decreases_to!(v->Table_0 => v->Table_0@));
                    assert(decreases_to!(v->Table_0@ => v->Table_0@[i]));
                    assert(decreases_to!(v->Table_0@[i] => v->Table_0@[i].0));
                    assert(decreases_to!(v->Table_0@[i] => v->Table_0@[i].1));
                }
                let key: rmpv::Value = to_outside(x.0);
                let value: rmpv::Value = to_outside(x.1);
                let ghost before = out@;
                out.push((key, value));
                assert(value_pairs(out@) =~= value_pairs(before).push((value_contents(key), value_contents(value))));
                assert(entry_views(pairs@).take(i + 1) =~= entry_views(pairs@).take(i).push(entry_views(pairs@)[i]));
            }
            assert(entry_views(pairs@).take(pairs@.len() as int) =~= entry_views(pairs@));
            assemble(Parts::Table(out))
        },
    }
}

/// `rmpv::encode::write_value` into a byte vector, which cannot fail. Reading
/// the bytes gives the value back, as long as its lengths fit the wire form.
#[verifier::external_body]
fn encode_outside(v: &rmpv::Value) -> (r: Vec<u8>)
    ensures
        r@ == msgpack_write(value_contents(*v)),
        fits(value_contents(*v), MAX_NESTING as nat) ==> msgpack_read(r@) == Some(value_contents(*v)),
{
    let mut buf = Vec::new();
    let _ = rmpv::encode::write_value(&mut buf, v);
    buf
}

/// The value at the start of `data`.
pub fn read_value(data: &[u8]) -> (r: Option<Decoded>)
    ensures
        r matches Some(v) ==> msgpack_read(data@) == Some(v@),
        r is None <==> msgpack_read(data@) is None,
{
    match decode_outside(data) {
        Ok(v) => Some(from_outside(v)),
        Err(_) => None,
    }
}

/// Why `data` does not start with a value, where it does not.
pub fn read_error(data: &[u8]) -> (r: Option<String>)
    ensures
        r is Some <==> msgpack_read(data@) is None,
        r matches Some(text) ==> text@ == msgpack_error(data@),
{
    match decode_outside(data) {
        Ok(_) => None,
        Err(e) => Some(e),
    }
}

/// The debugging text of the value at the start of `data`.
pub fn found_text(data: &[u8]) -> (r: Option<String>)
    ensures
        r is Some <==> msgpack_read(data@) is Some,
        r matches Some(text) ==> text@ == value_text(msgpack_read(data@)->0),
{
    match decode_outside(data) {
        Ok(v) => Some(debug_outside(&v)),
        Err(_) => None,
    }
}

/// The debugging text of item `i` of the array at the start of `data`.
pub fn found_item_text(data: &[u8], i: usize) -> (r: Option<String>)
    ensures
        r is Some <==> (msgpack_read(data@) matches Some(Packed::Array(items)) && i < items.len()),
        r matches Some(text) ==> text@ == value_text(msgpack_read(data@)->0->Array_0[i as int]),
{
    if let Ok(v) = decode_outside(data) {
        if let Peeled::Array(items) = peel(v) {
            if i < items.len() {
                return Some(debug_outside(&items[i]));
            }
        }
    }
    None
}

/// The wire form of `v`.
pub fn write_value(v: Item) -> (r: Vec<u8>)
    ensures
        r@ == msgpack_write(v@),
        fits(v@, MAX_NESTING as nat) ==> msgpack_read(r@) == Some(v@),
{
    encode_outside(&to_outside(v))
}

/// The wire form of item `i` of the array at the start of `data`.
pub fn rewritten_item(data: &[u8], i: usize) -> (r: Option<Vec<u8>>)
    ensures
        r is Some <==> (msgpack_read(data@) matches Some(Packed::Array(items)) && i < items.len()),
        r matches Some(bytes) ==> bytes@ == msgpack_write(msgpack_read(data@)->0->Array_0[i as int]),
{
    if let Ok(v) = decode_outside(data) {
        if let Peeled::Array(items) = peel(v) {
            if i < items.len() {
                return Some(encode_outside(&items[i]));
            }
        }
    }
    None
}

/// Whether `rmp_serde` reads a `bool` at the start of a byte string, and which.
pub open spec fn bool_read(bytes: Seq<u8>) -> Option<bool> {
    if bytes.len() == 0 {
        None
    } else if bytes[0] == 0xc3 {
        Some(true)
    } else if bytes[0] == 0xc2 {
        Some(false)
    } else {
        None
    }
}

/// `rmp_serde::to_vec` of a `bool`: the single byte `0xc3` or `0xc2`.
#[verifier::external_body]
pub(crate) fn write_bool(b: bool) -> (r: Vec<u8>)
    ensures
        r@ == seq![if b { 0xc3u8 } else { 0xc2u8 }],
{
    rmp_serde::to_vec(&b).unwrap_or_default()
}

/// `rmp_serde::from_slice` of a `bool`: what the first byte says, if it is one
/// of the two that stand for a `bool`; the bytes behind it are not looked at.
#[verifier::external_body]
pub(crate) fn read_bool(data: &[u8]) -> (r: Option<bool>)
    ensures
        r == bool_read(data@),
{
    rmp_serde::from_slice::<bool>(data).ok()
}

/// The bytes that `rmp_serde::to_vec` writes for a list of byte strings.
pub uninterp spec fn hash_list_write(list: Seq<Seq<u8>>) -> Seq<u8>;

/// The list of byte strings that `rmp_serde::from_slice` reads.
pub uninterp spec fn hash_list_read(bytes: Seq<u8>) -> Option<Seq<Seq<u8>>>;

/// The bytes that `rmp_serde::to_vec` writes for a list of pairs of byte
/// strings.
pub uninterp spec fn pair_list_write(list: Seq<(Seq<u8>, Seq<u8>)>) -> Seq<u8>;

/// The list of pairs of byte strings that `rmp_serde::from_slice` reads.
pub uninterp spec fn pair_list_read(bytes: Seq<u8>) -> Option<Seq<(Seq<u8>, Seq<u8>)>>;

/// The contents of a list of pairs of byte strings.
pub open spec fn pair_views(list: Seq<(Vec<u8>, Vec<u8>)>) -> Seq<(Seq<u8>, Seq<u8>)> {
    list.map_values(|p: (Vec<u8>, Vec<u8>)| (p.0@, p.1@))
}

/// Whether a list, and each byte string in it, is short enough for the length
/// fields of the wire form.
pub open spec fn list_fits(list: Seq<Seq<u8>>) -> bool {
    list.len() <= u32::MAX && forall|i: int| 0 <= i < list.len() ==> (#[trigger] list[i]).len() <= u32::MAX
}

/// As [`list_fits`], for pairs.
pub open spec fn pairs_fit(list: Seq<(Seq<u8>, Seq<u8>)>) -> bool {
    list.len() <= u32::MAX && forall|i: int|
        0 <= i < list.len() ==> (#[trigger] list[i]).0.len() <= u32::MAX && list[i].1.len() <= u32::MAX
}

/// The bytes that `rmp_serde::to_vec` writes for a list of triples of byte
/// strings.
pub uninterp spec fn triple_list_write(list: Seq<(Seq<u8>, Seq<u8>, Seq<u8>)>) -> Seq<u8>;

/// The list of triples of byte strings that `rmp_serde::from_slice` reads.
pub uninterp spec fn triple_list_read(bytes: Seq<u8>) -> Option<Seq<(Seq<u8>, Seq<u8>, Seq<u8>)>>;

/// As [`list_fits`], for triples.
pub open spec fn triples_fit(list: Seq<(Seq<u8>, Seq<u8>, Seq<u8>)>) -> bool {
    list.len() <= u32::MAX && forall|i: int|
        0 <= i < list.len() ==> (#[trigger] list[i]).0.len() <= u32::MAX && list[i].1.len() <= u32::MAX
            && list[i].2.len() <= u32::MAX
}

/// `rmp_serde::to_vec` of a list of triples, each written as an array of three.
/// Reading the bytes gives the list back, as long as its lengths fit.
#[verifier::external_body]
pub(crate) fn write_triple_list(list: &Vec<(Vec<u8>, Vec<u8>, Vec<u8>)>) -> (r: Vec<u8>)
    ensures
        r@ == triple_list_write(triple_views(list@)),
        triples_fit(triple_views(list@)) ==> triple_list_read(r@) == Some(triple_views(list@)),
{
    rmp_serde::to_vec(list).unwrap_or_default()
}

/// `rmp_serde::from_slice` of a list of triples of byte strings.
#[verifier::external_body]
pub(crate) fn read_triple_list(data: &[u8]) -> (r: Option<Vec<(Vec<u8>, Vec<u8>, Vec<u8>)>>)
    ensures
        r matches Some(list) ==> triple_list_read(data@) == Some(triple_views(list@)),
        r is None ==> triple_list_read(data@) is None,
{
    rmp_serde::from_slice(data).ok()
}

/// The bytes that `rmp_serde::to_vec` writes for a list of entries of three
/// byte strings and a number.
pub uninterp spec fn entry_list_write(list: Seq<(Seq<u8>, Seq<u8>, Seq<u8>, u64)>) -> Seq<u8>;

/// The list of entries of three byte strings and a number that
/// `rmp_serde::from_slice` reads.
pub uninterp spec fn entry_list_read(bytes: Seq<u8>) -> Option<Seq<(Seq<u8>, Seq<u8>, Seq<u8>, u64)>>;

/// The contents of a list of entries of three byte strings and a number.
pub open spec fn entry_list_views(list: Seq<(Vec<u8>, Vec<u8>, Vec<u8>, u64)>) -> Seq<
    (Seq<u8>, Seq<u8>, Seq<u8>, u64),
> {
    list.map_values(|e: (Vec<u8>, Vec<u8>, Vec<u8>, u64)| (e.0@, e.1@, e.2@, e.3))
}

/// As [`list_fits`], for entries.
pub open spec fn entries_fit(list: Seq<(Seq<u8>, Seq<u8>, Seq<u8>, u64)>) -> bool {
    list.len() <= u32::MAX && forall|i: int|
        0 <= i < list.len() ==> (#[trigger] list[i]).0.len() <= u32::MAX && list[i].1.len() <= u32::MAX
            && list[i].2.len() <= u32::MAX
}

/// `rmp_serde::to_vec` of a list of entries, each written as an array of four.
/// Reading the bytes gives the list back, as long as its lengths fit.
#[verifier::external_body]
pub(crate) fn write_entry_list(list: &Vec<(Vec<u8>, Vec<u8>, Vec<u8>, u64)>) -> (r: Vec<u8>)
    ensures
        r@ == entry_list_write(entry_list_views(list@)),
        entries_fit(entry_list_views(list@)) ==> entry_list_read(r@) == Some(entry_list_views(list@)),
{
    rmp_serde::to_vec(list).unwrap_or_default()
}

/// `rmp_serde::from_slice` of a list of entries of three byte strings and a
/// number.
#[verifier::external_body]
pub(crate) fn read_entry_list(data: &[u8]) -> (r: Option<Vec<(Vec<u8>, Vec<u8>, Vec<u8>, u64)>>)
    ensures
        r matches Some(list) ==> entry_list_read(data@) == Some(entry_list_views(list@)),
        r is None ==> entry_list_read(data@) is None,
{
    rmp_serde::from_slice(data).ok()
}

/// `rmp_serde::to_vec` of a list of byte strings, each written as an array of
/// integers. Reading the bytes gives the list back, as long as its lengths fit.
#[verifier::external_body]
pub(crate) fn write_hash_list(list: &Vec<Vec<u8>>) -> (r: Vec<u8>)
    ensures
        r@ == hash_list_write(views(list@)),
        list_fits(views(list@)) ==> hash_list_read(r@) == Some(views(list@)),
{
    rmp_serde::to_vec(list).unwrap_or_default()
}

/// `rmp_serde::from_slice` of a list of byte strings.
#[verifier::external_body]
pub(crate) fn read_hash_list(data: &[u8]) -> (r: Option<Vec<Vec<u8>>>)
    ensures
        r matches Some(list) ==> hash_list_read(data@) == Some(views(list@)),
        r is None ==> hash_list_read(data@) is None,
{
    rmp_serde::from_slice(data).ok()
}

/// `rmp_serde::to_vec` of a list of pairs, each written as an array of two.
/// Reading the bytes gives the list back, as long as its lengths fit.
#[verifier::external_body]
pub(crate) fn write_pair_list(list: &Vec<(Vec<u8>, Vec<u8>)>) -> (r: Vec<u8>)
    ensures
        r@ == pair_list_write(pair_views(list@)),
        pairs_fit(pair_views(list@)) ==> pair_list_read(r@) == Some(pair_views(list@)),
{
    rmp_serde::to_vec(list).unwrap_or_default()
}

/// `rmp_serde::from_slice` of a list of pairs of byte strings.
#[verifier::external_body]
pub(crate) fn read_pair_list(data: &[u8]) -> (r: Option<Vec<(Vec<u8>, Vec<u8>)>>)
    ensures
        r matches Some(list) ==> pair_list_read(data@) == Some(pair_views(list@)),
        r is None ==> pair_list_read(data@) is None,
{
    rmp_serde::from_slice(data).ok()
}

/// A byte says yes or no by its value, whatever stands behind it, and any other
/// byte, or none, says neither.
pub proof fn law_how_yes_and_no_are_read(bytes: Seq<u8>)
    ensures
        bool_read(bytes) == Some(true) <==> bytes.len() > 0 && bytes[0] == 0xc3,
        bool_read(bytes) == Some(false) <==> bytes.len() > 0 && bytes[0] == 0xc2,
        bool_read(bytes) is None <==> bytes.len() == 0 || (bytes[0] != 0xc2 && bytes[0] != 0xc3),
{
}

} // verus!
