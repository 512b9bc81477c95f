//! What the propagation protocol puts on the wire.
use vstd::prelude::*;
use crate::fields::{array, binaries, binary, binary_list, integer, kilobytes, number, Number};
use crate::msgpack::{read_value, rewritten_item, write_value, Decoded, Item};
use crate::notify::rns::LogLevel;
use crate::text::{decimal, decimal_text};

verus! {

/// The caller has not identified itself.
pub const ERROR_NO_IDENTITY: u8 = 0xf0;

/// The caller is not one that this node peers with.
pub const ERROR_NO_ACCESS: u8 = 0xf1;

/// The peering key of the caller is not strong enough.
pub const ERROR_INVALID_KEY: u8 = 0xf3;

/// The request is not one that the protocol knows.
pub const ERROR_INVALID_DATA: u8 = 0xf4;

/// The metadata key of a node's name.
pub const PN_META_NAME: u8 = 0x01;

/// The wire form of an error code.
pub open spec fn error_reply(code: u8) -> Seq<u8> {
    crate::msgpack::msgpack_write(crate::msgpack::Packed::UInt(code as u64))
}

/// The wire form of an error code.
pub fn encode_error(code: u8) -> (r: Vec<u8>)
    ensures
        r@ == error_reply(code),
        crate::msgpack::msgpack_read(r@) == Some(crate::msgpack::Packed::UInt(code as u64)),
{
    broadcast use crate::msgpack::group_item_views;

    write_value(Item::UInt(code as u64))
}

/// The messages of a batch: the byte strings of the list that is its second
/// item.
pub open spec fn batch_of(p: crate::msgpack::Packed) -> Option<Seq<Seq<u8>>> {
    match crate::fields::array_of(p) {
        Some(items) => if items.len() >= 2 {
            match crate::fields::array_of(items[1]) {
                Some(values) => Some(crate::fields::binaries_of(values)),
                None => None,
            }
        } else {
            None
        },
        None => None,
    }
}

/// The messages of a batch, as [`batch_of`] says.
pub fn batch_messages(value: &Decoded) -> (r: Option<Vec<Vec<u8>>>)
    ensures
        crate::octets::opt_views(r) == batch_of(value@),
{
    let items: &Vec<Decoded> = match array(value) {
        Some(a) => a,
        None => return None,
    };
    if items.len() < 2 {
        return None;
    }
    match array(&items[1]) {
        Some(values) => Some(binaries(values)),
        None => None,
    }
}

/// The messages of a batch in its wire form `[timebase, [message, ...]]`, a
/// client's packet or a peer's transfer. An entry that is no byte string is no
/// message.
pub fn decode_propagation_batch(data: &[u8]) -> (r: Option<Vec<Vec<u8>>>)
    ensures
        crate::octets::opt_views(r) == (match crate::msgpack::msgpack_read(data@) {
            Some(p) => batch_of(p),
            None => None,
        }),
{
    match read_value(data) {
        Some(v) => batch_messages(&v),
        None => None,
    }
}

/// The first value of a list that is no byte string.
pub open spec fn first_other(values: Seq<crate::msgpack::Packed>) -> Option<crate::msgpack::Packed>
    decreases values.len(),
{
    if values.len() == 0 {
        None
    } else if values[0] is Binary {
        first_other(values.skip(1))
    } else {
        Some(values[0])
    }
}

/// The name of a kind of value, as the log has it.
pub open spec fn kind_name_of(p: crate::msgpack::Packed) -> Seq<char> {
    match p {
        crate::msgpack::Packed::Str(_) | crate::msgpack::Packed::RawStr(_) => "str"@,
        crate::msgpack::Packed::Array(_) => "array"@,
        crate::msgpack::Packed::Nil => "nil"@,
        _ => "another type"@,
    }
}

fn kind_name(v: &Decoded) -> (r: &'static str)
    ensures
        r@ == kind_name_of(v@),
{
    match v {
        Decoded::Str(_) | Decoded::RawStr(_) => "str",
        Decoded::Array(_) => "array",
        Decoded::Nil => "nil",
        _ => "another type",
    }
}

/// The line for a batch of which entries were dropped, because they are no byte
/// strings.
pub open spec fn dropped_entries_text(values: Seq<crate::msgpack::Packed>, kept: nat) -> Seq<char> {
    "[lxmf.prop] batch of "@ + decimal_text(values.len()) + " entries: "@ + decimal_text(
        (values.len() - kept) as nat,
    ) + " dropped for not being msgpack bin (sender packs bytes as "@ + (match first_other(values) {
        Some(p) => kind_name_of(p),
        None => "?"@,
    }) + ")"@
}

/// What the log gets for a batch, given what was read of it: nothing where
/// every entry is a message. No batch of which something is dropped goes
/// without a line.
pub open spec fn batch_line_of(read: Option<crate::msgpack::Packed>) -> Option<(LogLevel, Seq<char>)> {
    match read {
        Some(crate::msgpack::Packed::Array(items)) => if items.len() >= 2 && items[1] is Array {
            let values = items[1]->Array_0;
            let kept = crate::fields::binaries_of(values).len();
            if kept < values.len() {
                Some((LogLevel::Warning, dropped_entries_text(values, kept)))
            } else {
                None
            }
        } else {
            Some((LogLevel::Debug, "[lxmf.prop] packet missing message array"@))
        },
        _ => Some((LogLevel::Warning, "[lxmf.prop] malformed packet"@)),
    }
}

/// There are no more byte strings in a list than values.
proof fn lemma_binaries_are_among(values: Seq<crate::msgpack::Packed>)
    ensures
        crate::fields::binaries_of(values).len() <= values.len(),
    decreases values.len(),
{
    if values.len() > 0 {
        lemma_binaries_are_among(values.drop_last());
    }
}

/// A batch goes without a line only where all its entries are messages.
pub proof fn law_no_entry_is_dropped_in_silence(p: crate::msgpack::Packed)
    ensures
        batch_line_of(Some(p)) is None ==> (batch_of(p) matches Some(messages) && messages.len()
            == p->Array_0[1]->Array_0.len()),
{
    lemma_binaries_are_among(p->Array_0[1]->Array_0);
}

/// What the log gets for a batch, as [`batch_line_of`] says, given what was
/// decoded of it.
pub fn batch_line_for(value: Option<&Decoded>) -> (r: Option<(LogLevel, String)>)
    ensures
        match value {
            Some(v) => line_view(r) == batch_line_of(Some(v@)),
            None => line_view(r) == batch_line_of(None),
        },
{
    let items: &Vec<Decoded> = match value {
        Some(v) => match array(v) {
            Some(a) => a,
            None => return Some((LogLevel::Warning, "[lxmf.prop] malformed packet".to_owned())),
        },
        None => return Some((LogLevel::Warning, "[lxmf.prop] malformed packet".to_owned())),
    };
    if items.len() < 2 {
        return Some((LogLevel::Debug, "[lxmf.prop] packet missing message array".to_owned()));
    }
    let values: &Vec<Decoded> = match array(&items[1]) {
        Some(values) => values,
        None => return Some((LogLevel::Debug, "[lxmf.prop] packet missing message array".to_owned())),
    };
    let kept: usize = binaries(values).len();
    if kept >= values.len() {
        return None;
    }
    let ghost all = crate::msgpack::packed_items(values@);
    let mut kind: &'static str = "?";
    let mut i: usize = 0;
    assert(all.skip(0) =~= all);
    while i < values.len()
        invariant_except_break
            0 <= i <= values@.len(),
            all == crate::msgpack::packed_items(values@),
            first_other(all) == first_other(all.skip(i as int)),
            kind@ == "?"@,
        ensures
            kind@ == (match first_other(all) {
                Some(p) => kind_name_of(p),
                None => "?"@,
            }),
        decreases values@.len() - i,
    {
        proof {
            assert(all.skip(i as int)[0] == values@[i as int]@);
            assert(all.skip(i as int).skip(1) =~= all.skip(i + 1));
        }
        match &values[i] {
            Decoded::Binary(_) => {},
            other => {
                kind = kind_name(other);
                break;
            },
        }
        i += 1;
    }
    let text: String = "[lxmf.prop] batch of ".to_owned().concat(decimal(values.len() as u64).as_str()).concat(
        " entries: ",
    ).concat(decimal((values.len() - kept) as u64).as_str()).concat(
        " dropped for not being msgpack bin (sender packs bytes as ",
    ).concat(kind).concat(")");
    Some((LogLevel::Warning, text))
}

/// The contents of a line for the log.
pub open spec fn line_view(line: Option<(LogLevel, String)>) -> Option<(LogLevel, Seq<char>)> {
    match line {
        Some((level, text)) => Some((level, text@)),
        None => None,
    }
}

/// What the log gets for a batch in its wire form, as [`batch_line_of`] says.
pub fn batch_line(data: &[u8]) -> (r: Option<(LogLevel, String)>)
    ensures
        line_view(r) == batch_line_of(crate::msgpack::msgpack_read(data@)),
{
    match read_value(data) {
        Some(v) => batch_line_for(Some(&v)),
        None => batch_line_for(None),
    }
}

/// The value that a transfer of messages to a peer is written as.
pub open spec fn transfer_value(messages: Seq<Seq<u8>>) -> crate::msgpack::Packed {
    crate::msgpack::Packed::Array(
        seq![
            crate::msgpack::Packed::UInt(0),
            crate::msgpack::Packed::Array(crate::fields::binary_items(messages)),
        ],
    )
}

/// The wire form of a transfer of messages to a peer, which is that of a
/// batch.
pub fn encode_transfer(messages: Vec<Vec<u8>>) -> (r: Vec<u8>)
    ensures
        r@ == crate::msgpack::msgpack_write(transfer_value(crate::octets::views(messages@))),
        crate::msgpack::list_fits(crate::octets::views(messages@)) ==> crate::msgpack::msgpack_read(r@) == Some(
            transfer_value(crate::octets::views(messages@)),
        ),
{
    broadcast use crate::msgpack::group_item_views;

    let ghost list = crate::octets::views(messages@);
    let body: Item = binary_list(messages);
    let items: Vec<Item> = vec![Item::UInt(0), body];
    proof {
        assert(crate::msgpack::item_views(items@) =~= transfer_value(list)->Array_0);
        if crate::msgpack::list_fits(list) {
            crate::fields::lemma_list_fits(list, (crate::msgpack::MAX_NESTING - 1) as nat);
            assert(crate::msgpack::fits(
                crate::msgpack::Packed::UInt(0),
                (crate::msgpack::MAX_NESTING - 1) as nat,
            ));
        }
    }
    write_value(Item::Array(items))
}

/// A receiver takes every message of a transfer out of it, in order.
pub proof fn law_transfer_is_a_batch(messages: Seq<Seq<u8>>)
    ensures
        batch_of(transfer_value(messages)) == Some(messages),
{
    crate::fields::lemma_binaries_of_list(messages);
}

/// What a node says of itself in a propagation announce.
pub struct PropagationAnnounce {
    /// The timestamp of the announce, in the announcing node's own clock.
    pub timebase: i64,
    /// Whether the node takes messages.
    pub enabled: bool,
    /// The most kilobytes that it takes in a message.
    pub transfer_limit: Option<Number>,
    /// The most kilobytes that it takes in a sync.
    pub sync_limit: Option<Number>,
    pub stamp_cost: u32,
    pub stamp_flexibility: u32,
    pub peering_cost: u32,
    /// The metadata, in its wire form.
    pub metadata: Vec<u8>,
}

/// What a [`PropagationAnnounce`] holds.
pub struct AnnounceView {
    pub timebase: i64,
    pub enabled: bool,
    pub transfer_limit: Option<Number>,
    pub sync_limit: Option<Number>,
    pub stamp_cost: u32,
    pub stamp_flexibility: u32,
    pub peering_cost: u32,
    pub metadata: Seq<u8>,
}

impl View for PropagationAnnounce {
    type V = AnnounceView;

    open spec fn view(&self) -> AnnounceView {
        AnnounceView {
            timebase: self.timebase,
            enabled: self.enabled,
            transfer_limit: self.transfer_limit,
            sync_limit: self.sync_limit,
            stamp_cost: self.stamp_cost,
            stamp_flexibility: self.stamp_flexibility,
            peering_cost: self.peering_cost,
            metadata: self.metadata@,
        }
    }
}

/// The low bits of an announced cost, nothing where it is no integer.
pub open spec fn cost_of(p: crate::msgpack::Packed) -> u32 {
    match crate::fields::integer_of(p) {
        Some(n) => n as u32,
        None => 0,
    }
}

fn cost(v: &Decoded) -> (r: u32)
    ensures
        r == cost_of(v@),
{
    match integer(v) {
        Some(n) => (#[verifier::truncate]
        (n as u32)),
        None => 0,
    }
}

/// The costs of an announce: three integers, each nothing where there are
/// fewer.
pub open spec fn costs_of(p: crate::msgpack::Packed) -> (u32, u32, u32) {
    match crate::fields::array_of(p) {
        Some(items) => if items.len() >= 3 {
            (cost_of(items[0]), cost_of(items[1]), cost_of(items[2]))
        } else {
            (0, 0, 0)
        },
        None => (0, 0, 0),
    }
}

fn costs(v: &Decoded) -> (r: (u32, u32, u32))
    ensures
        r == costs_of(v@),
{
    match array(v) {
        Some(items) => if items.len() >= 3 {
            (cost(&items[0]), cost(&items[1]), cost(&items[2]))
        } else {
            (0, 0, 0)
        },
        None => (0, 0, 0),
    }
}

/// What an announce of at least seven items says: its timestamp, whether the
/// node takes messages, its two limits, its costs and its metadata.
pub open spec fn announce_of(p: crate::msgpack::Packed) -> Option<AnnounceView> {
    match crate::fields::array_of(p) {
        Some(items) => if items.len() >= 7 {
            Some(
                AnnounceView {
                    timebase: match crate::fields::integer_of(items[1]) {
                        Some(n) => n,
                        None => 0,
                    },
                    enabled: items[2] == crate::msgpack::Packed::Boolean(true),
                    transfer_limit: crate::fields::number_of(items[3]),
                    sync_limit: crate::fields::number_of(items[4]),
                    stamp_cost: costs_of(items[5]).0,
                    stamp_flexibility: costs_of(items[5]).1,
                    peering_cost: costs_of(items[5]).2,
                    metadata: crate::msgpack::msgpack_write(items[6]),
                },
            )
        } else {
            None
        },
        None => None,
    }
}

/// What an announce says, given the wire form of its metadata.
pub fn announce_fields(value: &Decoded, metadata: Vec<u8>) -> (r: Option<PropagationAnnounce>)
    ensures
        r is Some <==> announce_of(value@) is Some,
        r matches Some(a) ==> a@ == (AnnounceView { metadata: metadata@, ..announce_of(value@)->0 }),
{
    let items: &Vec<Decoded> = match array(value) {
        Some(a) => a,
        None => return None,
    };
    if items.len() < 7 {
        return None;
    }
    let timebase: i64 = match integer(&items[1]) {
        Some(n) => n,
        None => 0,
    };
    let enabled: bool = match &items[2] {
        Decoded::Boolean(b) => *b,
        _ => false,
    };
    let all: (u32, u32, u32) = costs(&items[5]);
    Some(
        PropagationAnnounce {
            timebase,
            enabled,
            transfer_limit: number(&items[3]),
            sync_limit: number(&items[4]),
            stamp_cost: all.0,
            stamp_flexibility: all.1,
            peering_cost: all.2,
            metadata,
        },
    )
}

/// What an announce says in its wire form.
pub fn read_propagation_announce(data: &[u8]) -> (r: Option<PropagationAnnounce>)
    ensures
        match crate::msgpack::msgpack_read(data@) {
            Some(p) => (r is Some <==> announce_of(p) is Some) && (r matches Some(a) ==> Some(a@) == announce_of(p)),
            None => r is None,
        },
{
    match read_value(data) {
        Some(v) => {
            let metadata: Vec<u8> = match rewritten_item(data, 6) {
                Some(m) => m,
                None => return None,
            };
            announce_fields(&v, metadata)
        },
        None => None,
    }
}

/// The bytes that an announced limit stands for: none where no limit is
/// announced.
pub open spec fn limit_bytes_of(n: Option<Number>) -> Option<u64> {
    match n {
        Some(k) => crate::fields::kilobytes_of(k),
        None => Some(0),
    }
}

/// The two limits of an announce in bytes: the one for a message, and the one
/// for a sync, which is that for a message where none above nothing is
/// announced. Nothing is known here where one of them is a float.
pub open spec fn announced_limits_of(transfer: Option<Number>, sync: Option<Number>) -> Option<(u64, u64)> {
    match (limit_bytes_of(transfer), limit_bytes_of(sync)) {
        (Some(t), Some(s)) => Some(
            (
                t,
                if s > 0 {
                    s
                } else {
                    t
                },
            ),
        ),
        _ => None,
    }
}

fn limit_bytes(n: Option<Number>) -> (r: Option<u64>)
    ensures
        r == limit_bytes_of(n),
{
    match n {
        Some(k) => kilobytes(k),
        None => Some(0),
    }
}

/// The two limits of an announce in bytes, as [`announced_limits_of`] says.
pub fn announced_limits(transfer: Option<Number>, sync: Option<Number>) -> (r: Option<(u64, u64)>)
    ensures
        r == announced_limits_of(transfer, sync),
{
    match (limit_bytes(transfer), limit_bytes(sync)) {
        (Some(t), Some(s)) => Some(
            (
                t,
                if s > 0 {
                    s
                } else {
                    t
                },
            ),
        ),
        _ => None,
    }
}

/// The value of this node's own announce: a marker, the second of the
/// announce, that it takes messages, its limits in megabytes, its costs, and
/// its name.
pub open spec fn own_announce(
    second: u64,
    transfer_limit_bytes: u64,
    sync_limit_bytes: u64,
    stamp_cost: u32,
    stamp_flexibility: u32,
    peering_cost: u32,
    name: Seq<u8>,
) -> crate::msgpack::Packed {
    crate::msgpack::Packed::Array(
        seq![
            crate::msgpack::Packed::Boolean(false),
            crate::msgpack::Packed::UInt(second),
            crate::msgpack::Packed::Boolean(true),
            crate::msgpack::Packed::UInt(transfer_limit_bytes / 1_048_576),
            crate::msgpack::Packed::UInt(sync_limit_bytes / 1_048_576),
            crate::msgpack::Packed::Array(
                seq![
                    crate::msgpack::Packed::UInt(stamp_cost as u64),
                    crate::msgpack::Packed::UInt(stamp_flexibility as u64),
                    crate::msgpack::Packed::UInt(peering_cost as u64),
                ],
            ),
            crate::msgpack::Packed::Table(
                seq![
                    (
                        crate::msgpack::Packed::UInt(PN_META_NAME as u64),
                        crate::msgpack::Packed::Binary(name),
                    ),
                ],
            ),
        ],
    )
}

/// The wire form of this node's own announce.
pub fn encode_own_announce(
    second: u64,
    transfer_limit_bytes: u64,
    sync_limit_bytes: u64,
    stamp_cost: u32,
    stamp_flexibility: u32,
    peering_cost: u32,
    name: Vec<u8>,
) -> (r: Vec<u8>)
    ensures
        r@ == crate::msgpack::msgpack_write(
            own_announce(
                second,
                transfer_limit_bytes,
                sync_limit_bytes,
                stamp_cost,
                stamp_flexibility,
                peering_cost,
                name@,
            ),
        ),
        name@.len() <= u32::MAX ==> crate::msgpack::msgpack_read(r@) == Some(
            own_announce(
                second,
                transfer_limit_bytes,
                sync_limit_bytes,
                stamp_cost,
                stamp_flexibility,
                peering_cost,
                name@,
            ),
        ),
{
    broadcast use crate::msgpack::group_item_views;

    let ghost told = name@;
    let all: Vec<Item> = vec![
        Item::UInt(stamp_cost as u64),
        Item::UInt(stamp_flexibility as u64),
        Item::UInt(peering_cost as u64),
    ];
    let metadata: Vec<(Item, Item)> = vec![(Item::UInt(PN_META_NAME as u64), Item::Binary(name))];
    let ghost p = own_announce(
        second,
        transfer_limit_bytes,
        sync_limit_bytes,
        stamp_cost,
        stamp_flexibility,
        peering_cost,
        told,
    );
    proof {
        assert(crate::msgpack::item_views(all@) =~= p->Array_0[5]->Array_0);
        assert(crate::msgpack::entry_views(metadata@) =~= p->Array_0[6]->Table_0);
    }
    let items: Vec<Item> = vec![
        Item::Boolean(false),
        Item::UInt(second),
        Item::Boolean(true),
        Item::UInt(transfer_limit_bytes / 1_048_576),
        Item::UInt(sync_limit_bytes / 1_048_576),
        Item::Array(all),
        Item::Table(metadata),
    ];
    proof {
        assert(crate::msgpack::item_views(items@) =~= p->Array_0);
        if told.len() <= u32::MAX {
            reveal_with_fuel(crate::msgpack::fits, 4);
            assert(crate::msgpack::fits(p->Array_0[5], (crate::msgpack::MAX_NESTING - 1) as nat));
            assert(crate::msgpack::fits(p->Array_0[6], (crate::msgpack::MAX_NESTING - 1) as nat));
            assert(crate::msgpack::fits(p, crate::msgpack::MAX_NESTING as nat));
        }
    }
    write_value(Item::Array(items))
}

/// A node that reads this node's announce learns its costs, and its limits
/// in whole megabytes.
pub proof fn law_own_announce_is_understood(
    second: u64,
    transfer_limit_bytes: u64,
    sync_limit_bytes: u64,
    stamp_cost: u32,
    stamp_flexibility: u32,
    peering_cost: u32,
    name: Seq<u8>,
)
    requires
        second <= i64::MAX,
    ensures
        ({
            let p = own_announce(
                second,
                transfer_limit_bytes,
                sync_limit_bytes,
                stamp_cost,
                stamp_flexibility,
                peering_cost,
                name,
            );
            announce_of(p) == Some(
                AnnounceView {
                    timebase: second as i64,
                    enabled: true,
                    transfer_limit: Some(Number::Whole(transfer_limit_bytes / 1_048_576)),
                    sync_limit: Some(Number::Whole(sync_limit_bytes / 1_048_576)),
                    stamp_cost,
                    stamp_flexibility,
                    peering_cost,
                    metadata: crate::msgpack::msgpack_write(p->Array_0[6]),
                },
            )
        }),
{
    assert((stamp_cost as i64) as u32 == stamp_cost);
    assert((stamp_flexibility as i64) as u32 == stamp_flexibility);
    assert((peering_cost as i64) as u32 == peering_cost);
}

/// The peering key and the offered ids of an offer.
pub open spec fn offer_of(p: crate::msgpack::Packed) -> Option<(Seq<u8>, Seq<Seq<u8>>)> {
    match crate::fields::array_of(p) {
        Some(items) => if items.len() >= 2 {
            match crate::fields::binary_of(items[0]) {
                Some(key) => Some(
                    (
                        key,
                        match crate::fields::array_of(items[1]) {
                            Some(list) => crate::fields::binaries_of(list),
                            None => Seq::empty(),
                        },
                    ),
                ),
                None => None,
            }
        } else {
            None
        },
        None => None,
    }
}

/// The peering key and the offered ids of an offer, as [`offer_of`] says.
pub fn offer_fields(value: &Decoded) -> (r: Option<(Vec<u8>, Vec<Vec<u8>>)>)
    ensures
        r is Some <==> offer_of(value@) is Some,
        r matches Some(o) ==> offer_of(value@) == Some((o.0@, crate::octets::views(o.1@))),
{
    let items: &Vec<Decoded> = match array(value) {
        Some(a) => a,
        None => return None,
    };
    if items.len() < 2 {
        return None;
    }
    let key: Vec<u8> = match binary(&items[0]) {
        Some(k) => k,
        None => return None,
    };
    let ids: Vec<Vec<u8>> = match array(&items[1]) {
        Some(list) => binaries(list),
        None => Vec::new(),
    };
    proof {
        if crate::fields::array_of(items@[1]@) is None {
            assert(crate::octets::views(ids@) =~= Seq::<Seq<u8>>::empty());
        }
    }
    Some((key, ids))
}

/// The value of an offer of messages to a peer.
pub open spec fn offer_value(key: Seq<u8>, ids: Seq<Seq<u8>>) -> crate::msgpack::Packed {
    crate::msgpack::Packed::Array(
        seq![
            crate::msgpack::Packed::Binary(key),
            crate::msgpack::Packed::Array(crate::fields::binary_items(ids)),
        ],
    )
}

/// The wire form of an offer of messages to a peer.
pub fn encode_offer(key: Vec<u8>, ids: Vec<Vec<u8>>) -> (r: Vec<u8>)
    ensures
        r@ == crate::msgpack::msgpack_write(offer_value(key@, crate::octets::views(ids@))),
        key@.len() <= u32::MAX && crate::msgpack::list_fits(crate::octets::views(ids@))
            ==> crate::msgpack::msgpack_read(r@) == Some(offer_value(key@, crate::octets::views(ids@))),
{
    broadcast use crate::msgpack::group_item_views;

    let ghost list = crate::octets::views(ids@);
    let ghost told = key@;
    let body: Item = binary_list(ids);
    let items: Vec<Item> = vec![Item::Binary(key), body];
    proof {
        assert(crate::msgpack::item_views(items@) =~= offer_value(told, list)->Array_0);
        if told.len() <= u32::MAX && crate::msgpack::list_fits(list) {
            crate::fields::lemma_list_fits(list, (crate::msgpack::MAX_NESTING - 1) as nat);
            assert(crate::msgpack::fits(
                crate::msgpack::Packed::Binary(told),
                (crate::msgpack::MAX_NESTING - 1) as nat,
            ));
        }
    }
    write_value(Item::Array(items))
}

/// A peer takes the key and every id of an offer out of it, in order.
pub proof fn law_offer_is_understood(key: Seq<u8>, ids: Seq<Seq<u8>>)
    ensures
        offer_of(offer_value(key, ids)) == Some((key, ids)),
{
    crate::fields::lemma_binaries_of_list(ids);
}

/// What a peer answers to an offer.
pub enum OfferResponse {
    /// It does not know who is asking.
    NoIdentity,
    /// It does not peer with this node.
    AccessDenied,
    /// The peering key is not strong enough.
    InvalidKey,
    /// It has every message.
    HasAll,
    /// It wants every message.
    WantsAll,
    /// It wants these messages.
    Wants(Vec<Vec<u8>>),
    /// Nothing that the protocol knows.
    Unexpected,
}

/// What an [`OfferResponse`] holds.
pub enum ResponseView {
    NoIdentity,
    AccessDenied,
    InvalidKey,
    HasAll,
    WantsAll,
    Wants(Seq<Seq<u8>>),
    Unexpected,
}

impl View for OfferResponse {
    type V = ResponseView;

    open spec fn view(&self) -> ResponseView {
        match *self {
            OfferResponse::NoIdentity => ResponseView::NoIdentity,
            OfferResponse::AccessDenied => ResponseView::AccessDenied,
            OfferResponse::InvalidKey => ResponseView::InvalidKey,
            OfferResponse::HasAll => ResponseView::HasAll,
            OfferResponse::WantsAll => ResponseView::WantsAll,
            OfferResponse::Wants(ids) => ResponseView::Wants(crate::octets::views(ids@)),
            OfferResponse::Unexpected => ResponseView::Unexpected,
        }
    }
}

/// The error code that an integer carries in its low byte.
pub open spec fn code_of(p: crate::msgpack::Packed) -> Option<u8> {
    match p {
        crate::msgpack::Packed::UInt(_) | crate::msgpack::Packed::NegInt(_) => match crate::fields::integer_of(p) {
            Some(n) => Some(n as u8),
            None => Some(0),
        },
        _ => None,
    }
}

/// What a value says in answer to an offer.
pub open spec fn response_of(p: Option<crate::msgpack::Packed>) -> ResponseView {
    match p {
        Some(crate::msgpack::Packed::Boolean(true)) => ResponseView::WantsAll,
        Some(crate::msgpack::Packed::Boolean(false)) => ResponseView::HasAll,
        Some(crate::msgpack::Packed::Array(list)) => ResponseView::Wants(crate::fields::binaries_of(list)),
        Some(v) => if code_of(v) == Some(ERROR_NO_IDENTITY) {
            ResponseView::NoIdentity
        } else if code_of(v) == Some(ERROR_NO_ACCESS) {
            ResponseView::AccessDenied
        } else if code_of(v) == Some(ERROR_INVALID_KEY) {
            ResponseView::InvalidKey
        } else {
            ResponseView::Unexpected
        },
        None => ResponseView::Unexpected,
    }
}

fn code(v: &Decoded) -> (r: Option<u8>)
    ensures
        r == code_of(v@),
{
    match v {
        Decoded::UInt(_) | Decoded::NegInt(_) => match integer(v) {
            Some(n) => Some(
                (#[verifier::truncate]
                (n as u8)),
            ),
            None => Some(0),
        },
        _ => None,
    }
}

/// What a value says in answer to an offer, as [`response_of`] says.
pub fn offer_response(value: &Option<Decoded>) -> (r: OfferResponse)
    ensures
        r@ == response_of(match *value {
            Some(v) => Some(v@),
            None => None,
        }),
{
    let v: &Decoded = match value {
        Some(v) => v,
        None => return OfferResponse::Unexpected,
    };
    match v {
        Decoded::Boolean(true) => OfferResponse::WantsAll,
        Decoded::Boolean(false) => OfferResponse::HasAll,
        Decoded::Array(list) => {
            proof {
                crate::msgpack::lemma_decoded_array(*list);
            }
            OfferResponse::Wants(binaries(list))
        },
        _ => match code(v) {
            Some(c) => if c == ERROR_NO_IDENTITY {
                OfferResponse::NoIdentity
            } else if c == ERROR_NO_ACCESS {
                OfferResponse::AccessDenied
            } else if c == ERROR_INVALID_KEY {
                OfferResponse::InvalidKey
            } else {
                OfferResponse::Unexpected
            },
            None => OfferResponse::Unexpected,
        },
    }
}

/// What a peer's answer in its wire form says; no answer says nothing.
pub fn read_offer_response(data: Option<&[u8]>) -> (r: OfferResponse)
    ensures
        r@ == response_of(match data {
            Some(d) => crate::msgpack::msgpack_read(d@),
            None => None,
        }),
{
    let value: Option<Decoded> = match data {
        Some(d) => read_value(d),
        None => None,
    };
    offer_response(&value)
}

/// The value that answers an offer of `offered` messages of which `wanted` are
/// lacking.
pub open spec fn offer_reply_value(wanted: Seq<Seq<u8>>, offered: nat) -> crate::msgpack::Packed {
    if wanted.len() == 0 {
        crate::msgpack::Packed::Boolean(false)
    } else if wanted.len() == offered {
        crate::msgpack::Packed::Boolean(true)
    } else {
        crate::msgpack::Packed::Array(crate::fields::binary_items(wanted))
    }
}

/// The wire form of the answer to an offer.
pub fn encode_offer_reply(wanted: Vec<Vec<u8>>, offered: usize) -> (r: Vec<u8>)
    ensures
        r@ == crate::msgpack::msgpack_write(offer_reply_value(crate::octets::views(wanted@), offered as nat)),
        crate::msgpack::list_fits(crate::octets::views(wanted@)) ==> crate::msgpack::msgpack_read(r@) == Some(
            offer_reply_value(crate::octets::views(wanted@), offered as nat),
        ),
{
    broadcast use crate::msgpack::group_item_views;

    let ghost list = crate::octets::views(wanted@);
    assert(list.len() == wanted@.len());
    if wanted.len() == 0 {
        write_value(Item::Boolean(false))
    } else if wanted.len() == offered {
        write_value(Item::Boolean(true))
    } else {
        proof {
            if crate::msgpack::list_fits(list) {
                crate::fields::lemma_list_fits(list, crate::msgpack::MAX_NESTING as nat);
            }
        }
        write_value(binary_list(wanted))
    }
}

/// The answer to an offer is understood as what it is meant to say: which of
/// the offered messages are wanted.
pub proof fn law_offer_reply_is_understood(wanted: Seq<Seq<u8>>, offered: nat)
    ensures
        response_of(Some(offer_reply_value(wanted, offered))) == (if wanted.len() == 0 {
            ResponseView::HasAll
        } else if wanted.len() == offered {
            ResponseView::WantsAll
        } else {
            ResponseView::Wants(wanted)
        }),
{
    crate::fields::lemma_binaries_of_list(wanted);
}

/// An error that this node sends is understood by a peer as that error.
pub proof fn law_error_is_understood()
    ensures
        response_of(Some(crate::msgpack::Packed::UInt(ERROR_NO_IDENTITY as u64))) == ResponseView::NoIdentity,
        response_of(Some(crate::msgpack::Packed::UInt(ERROR_NO_ACCESS as u64))) == ResponseView::AccessDenied,
        response_of(Some(crate::msgpack::Packed::UInt(ERROR_INVALID_KEY as u64))) == ResponseView::InvalidKey,
{
}

/// A part of a request for messages.
pub enum Selection {
    /// Nothing is said.
    Nothing,
    /// These messages.
    Ids(Vec<Vec<u8>>),
    /// Nothing that the protocol knows.
    Other,
}

/// What a [`Selection`] holds.
pub enum SelectionView {
    Nothing,
    Ids(Seq<Seq<u8>>),
    Other,
}

impl View for Selection {
    type V = SelectionView;

    open spec fn view(&self) -> SelectionView {
        match *self {
            Selection::Nothing => SelectionView::Nothing,
            Selection::Ids(ids) => SelectionView::Ids(crate::octets::views(ids@)),
            Selection::Other => SelectionView::Other,
        }
    }
}

/// A client's request for messages.
pub struct GetRequest {
    /// The messages that the client wants.
    pub wants: Selection,
    /// The messages that the client has.
    pub haves: Selection,
    /// The most kilobytes that the client takes.
    pub limit: Option<Number>,
}

/// What a part of a request selects.
pub open spec fn selection_of(items: Seq<crate::msgpack::Packed>, i: int) -> SelectionView {
    if i >= items.len() {
        SelectionView::Nothing
    } else {
        match items[i] {
            crate::msgpack::Packed::Nil => SelectionView::Nothing,
            crate::msgpack::Packed::Array(list) => SelectionView::Ids(crate::fields::binaries_of(list)),
            _ => SelectionView::Other,
        }
    }
}

fn selection(items: &Vec<Decoded>, i: usize) -> (r: Selection)
    ensures
        r@ == selection_of(crate::msgpack::packed_items(items@), i as int),
{
    if i >= items.len() {
        return Selection::Nothing;
    }
    match &items[i] {
        Decoded::Nil => Selection::Nothing,
        Decoded::Array(list) => {
            proof {
                crate::msgpack::lemma_decoded_array(*list);
            }
            Selection::Ids(binaries(list))
        },
        _ => Selection::Other,
    }
}

/// Whether a request for messages asks for this.
pub open spec fn asks_for(r: GetRequest, p: crate::msgpack::Packed) -> bool {
    match crate::fields::array_of(p) {
        Some(items) => {
            &&& r.wants@ == selection_of(items, 0)
            &&& r.haves@ == selection_of(items, 1)
            &&& r.limit == (if items.len() > 2 {
                crate::fields::number_of(items[2])
            } else {
                None
            })
        },
        None => false,
    }
}

/// The parts of a request for messages `[wants, haves, limit]`.
pub fn get_fields(value: &Decoded) -> (r: Option<GetRequest>)
    ensures
        r is Some <==> crate::fields::array_of(value@) is Some,
        r matches Some(q) ==> asks_for(q, value@),
{
    let items: &Vec<Decoded> = match array(value) {
        Some(a) => a,
        None => return None,
    };
    let limit: Option<Number> = if items.len() > 2 {
        number(&items[2])
    } else {
        None
    };
    Some(GetRequest { wants: selection(items, 0), haves: selection(items, 1), limit })
}

/// The value of a list of messages or of message ids.
pub open spec fn list_value(list: Seq<Seq<u8>>) -> crate::msgpack::Packed {
    crate::msgpack::Packed::Array(crate::fields::binary_items(list))
}

/// The wire form of a list of messages or of message ids.
pub fn encode_list(list: Vec<Vec<u8>>) -> (r: Vec<u8>)
    ensures
        r@ == crate::msgpack::msgpack_write(list_value(crate::octets::views(list@))),
        crate::msgpack::list_fits(crate::octets::views(list@)) ==> crate::msgpack::msgpack_read(r@) == Some(
            list_value(crate::octets::views(list@)),
        ),
{
    proof {
        if crate::msgpack::list_fits(crate::octets::views(list@)) {
            crate::fields::lemma_list_fits(crate::octets::views(list@), crate::msgpack::MAX_NESTING as nat);
        }
    }
    write_value(binary_list(list))
}

/// The kind of entry that a batch is said to hold is that of the first entry
/// that is no byte string, where there is one.
pub proof fn law_first_other_entry(values: Seq<crate::msgpack::Packed>, k: int)
    requires
        0 <= k <= values.len(),
        forall|i: int| 0 <= i < k ==> (#[trigger] values[i]) is Binary,
        k < values.len() ==> !(values[k] is Binary),
    ensures
        first_other(values) == (if k < values.len() {
            Some(values[k])
        } else {
            None
        }),
    decreases values.len(),
{
    if values.len() > 0 && k > 0 {
        let rest = values.skip(1);
        assert(values[0] is Binary);
        assert forall|i: int| 0 <= i < k - 1 implies (#[trigger] rest[i]) is Binary by {
            assert(rest[i] == values[i + 1]);
        }
        law_first_other_entry(rest, k - 1);
    }
}

/// A batch is an array whose second entry is a list, and holds the byte strings
/// of that list.
pub proof fn law_what_a_batch_holds(items: Seq<crate::msgpack::Packed>)
    ensures
        items.len() >= 2 && items[1] is Array ==> batch_of(crate::msgpack::Packed::Array(items)) == Some(
            crate::fields::binaries_of(items[1]->Array_0),
        ),
        items.len() < 2 || !(items[1] is Array) ==> batch_of(crate::msgpack::Packed::Array(items)) is None,
{
}

/// The announce of a node says in its places when it was made, whether the node
/// is in service, its two limits, its three costs, and further data. Where a
/// place does not hold a number, it counts as zero.
pub proof fn law_what_an_announce_says(items: Seq<crate::msgpack::Packed>)
    ensures
        items.len() < 7 ==> announce_of(crate::msgpack::Packed::Array(items)) is None,
        items.len() >= 7 ==> {
            let a = announce_of(crate::msgpack::Packed::Array(items))->0;
            &&& announce_of(crate::msgpack::Packed::Array(items)) is Some
            &&& items[1] is UInt && items[1]->UInt_0 <= i64::MAX ==> a.timebase == items[1]->UInt_0
            &&& items[1] is NegInt ==> a.timebase == items[1]->NegInt_0
            &&& a.enabled <==> items[2] == crate::msgpack::Packed::Boolean(true)
            &&& items[3] is UInt ==> a.transfer_limit == Some(Number::Whole(items[3]->UInt_0))
            &&& items[4] is UInt ==> a.sync_limit == Some(Number::Whole(items[4]->UInt_0))
            &&& items[5] is Array && items[5]->Array_0.len() >= 3 ==> {
                let costs = items[5]->Array_0;
                &&& costs[0] is UInt && costs[0]->UInt_0 <= u32::MAX ==> a.stamp_cost == costs[0]->UInt_0
                &&& costs[1] is UInt && costs[1]->UInt_0 <= u32::MAX ==> a.stamp_flexibility == costs[1]->UInt_0
                &&& costs[2] is UInt && costs[2]->UInt_0 <= u32::MAX ==> a.peering_cost == costs[2]->UInt_0
            }
            &&& !(items[5] is Array && items[5]->Array_0.len() >= 3) ==> a.stamp_cost == 0 && a.stamp_flexibility == 0 && a.peering_cost == 0
            &&& a.metadata == crate::msgpack::msgpack_write(items[6])
        },
{
}

/// The limits of an announce are in kilobytes. Where the limit for a sync is
/// zero, or none is announced, that for a message counts for both.
pub proof fn law_announced_limits(t: u64, s: u64)
    requires
        t * 1000 <= u64::MAX,
        s * 1000 <= u64::MAX,
    ensures
        s > 0 ==> announced_limits_of(Some(Number::Whole(t)), Some(Number::Whole(s))) == Some(
            ((t * 1000) as u64, (s * 1000) as u64),
        ),
        announced_limits_of(Some(Number::Whole(t)), Some(Number::Whole(0))) == Some(
            ((t * 1000) as u64, (t * 1000) as u64),
        ),
        announced_limits_of(Some(Number::Whole(t)), None) == Some(((t * 1000) as u64, (t * 1000) as u64)),
        announced_limits_of(None, None) == Some((0u64, 0u64)),
{
}

/// An offer is an array of a key and a list, and offers the byte strings of the
/// list.
pub proof fn law_what_an_offer_holds(items: Seq<crate::msgpack::Packed>)
    ensures
        offer_of(crate::msgpack::Packed::Array(items)) is Some <==> items.len() >= 2 && items[0] is Binary,
        items.len() >= 2 && items[0] is Binary && items[1] is Array ==> offer_of(crate::msgpack::Packed::Array(items))
            == Some((items[0]->Binary_0, crate::fields::binaries_of(items[1]->Array_0))),
{
}

/// The answer to an offer is yes or no to everything, a list of what is wanted,
/// or a number that says why it was refused. Anything else is not understood.
pub proof fn law_how_an_answer_is_read(list: Seq<crate::msgpack::Packed>, n: u64)
    requires
        n <= 0xff,
    ensures
        response_of(Some(crate::msgpack::Packed::Boolean(true))) is WantsAll,
        response_of(Some(crate::msgpack::Packed::Boolean(false))) is HasAll,
        response_of(Some(crate::msgpack::Packed::Array(list))) == ResponseView::Wants(crate::fields::binaries_of(list)),
        response_of(Some(crate::msgpack::Packed::UInt(n))) is NoIdentity <==> n == 0xf0,
        response_of(Some(crate::msgpack::Packed::UInt(n))) is AccessDenied <==> n == 0xf1,
        response_of(Some(crate::msgpack::Packed::UInt(n))) is InvalidKey <==> n == 0xf3,
        n != 0xf0 && n != 0xf1 && n != 0xf3 ==> response_of(Some(crate::msgpack::Packed::UInt(n))) is Unexpected,
        response_of(Some(crate::msgpack::Packed::Nil)) is Unexpected,
        response_of(None) is Unexpected,
{
}

/// Nothing is wanted of an offer where all is stored, everything where nothing
/// is, and otherwise what is named.
pub proof fn law_how_an_offer_is_answered(wanted: Seq<Seq<u8>>, offered: nat)
    ensures
        wanted.len() == 0 ==> offer_reply_value(wanted, offered) == crate::msgpack::Packed::Boolean(false),
        wanted.len() > 0 && wanted.len() == offered ==> offer_reply_value(wanted, offered)
            == crate::msgpack::Packed::Boolean(true),
        wanted.len() > 0 && wanted.len() != offered ==> {
            &&& offer_reply_value(wanted, offered) is Array
            &&& offer_reply_value(wanted, offered)->Array_0.len() == wanted.len()
            &&& forall|i: int|
                0 <= i < wanted.len() ==> #[trigger] offer_reply_value(wanted, offered)->Array_0[i]
                    == crate::msgpack::Packed::Binary(wanted[i])
        },
{
}

/// A request for messages names in its first place what is wanted and in its
/// second what the client has: nothing where the place is missing or empty, or
/// the byte strings of a list.
pub proof fn law_what_a_request_selects(items: Seq<crate::msgpack::Packed>, i: int)
    requires
        0 <= i,
    ensures
        i >= items.len() ==> selection_of(items, i) is Nothing,
        i < items.len() && items[i] is Nil ==> selection_of(items, i) is Nothing,
        i < items.len() && items[i] is Array ==> selection_of(items, i) == SelectionView::Ids(
            crate::fields::binaries_of(items[i]->Array_0),
        ),
        i < items.len() && !(items[i] is Nil) && !(items[i] is Array) ==> selection_of(items, i) is Other,
{
}

/// A list goes out as the byte strings that it holds, one for one, and a refusal
/// as its number.
pub proof fn law_how_a_list_is_sent(list: Seq<Seq<u8>>, code: u8)
    ensures
        list_value(list) is Array,
        list_value(list)->Array_0.len() == list.len(),
        forall|i: int|
            0 <= i < list.len() ==> #[trigger] list_value(list)->Array_0[i] == crate::msgpack::Packed::Binary(list[i]),
        error_reply(code) == crate::msgpack::msgpack_write(crate::msgpack::Packed::UInt(code as u64)),
{
}

/// A request for messages is read place by place: what is wanted, what is there,
/// and the most that is to be sent.
pub proof fn law_how_a_request_is_read(r: GetRequest, items: Seq<crate::msgpack::Packed>)
    requires
        asks_for(r, crate::msgpack::Packed::Array(items)),
    ensures
        items.len() == 0 || items[0] is Nil ==> r.wants@ is Nothing,
        items.len() <= 1 || items[1] is Nil ==> r.haves@ is Nothing,
        items.len() > 0 && items[0] is Array ==> r.wants@ == SelectionView::Ids(
            crate::fields::binaries_of(items[0]->Array_0),
        ),
        items.len() > 1 && items[1] is Array ==> r.haves@ == SelectionView::Ids(
            crate::fields::binaries_of(items[1]->Array_0),
        ),
        items.len() > 2 && items[2] is UInt ==> r.limit == Some(Number::Whole(items[2]->UInt_0)),
        items.len() <= 2 ==> r.limit is None,
{
}

/// The log gets nothing for a batch of which every entry is a byte string, a
/// warning where some entry is none, and where the list is missing a word on
/// that.
pub proof fn law_what_the_log_gets(items: Seq<crate::msgpack::Packed>)
    ensures
        items.len() >= 2 && items[1] is Array && (forall|i: int|
            0 <= i < items[1]->Array_0.len() ==> (#[trigger] items[1]->Array_0[i]) is Binary) ==> batch_line_of(
            Some(crate::msgpack::Packed::Array(items)),
        ) is None,
        items.len() >= 2 && items[1] is Array && (exists|i: int|
            0 <= i < items[1]->Array_0.len() && !((#[trigger] items[1]->Array_0[i]) is Binary)) ==> (batch_line_of(
            Some(crate::msgpack::Packed::Array(items)),
        ) matches Some(line) && line.0 is Warning),
        items.len() < 2 || !(items[1] is Array) ==> (batch_line_of(Some(crate::msgpack::Packed::Array(items))) matches Some(
            line,
        ) && line.0 is Debug),
        batch_line_of(None) matches Some(line) && line.0 is Warning,
{
    if items.len() >= 2 && items[1] is Array {
        lemma_how_many_are_taken(items[1]->Array_0);
    }
}

proof fn lemma_how_many_are_taken(values: Seq<crate::msgpack::Packed>)
    ensures
        crate::fields::binaries_of(values).len() <= values.len(),
        crate::fields::binaries_of(values).len() == values.len() <==> forall|i: int|
            0 <= i < values.len() ==> (#[trigger] values[i]) is Binary,
    decreases values.len(),
{
    if values.len() > 0 {
        let rest = values.drop_last();
        lemma_how_many_are_taken(rest);
        assert forall|i: int| 0 <= i < rest.len() implies rest[i] == #[trigger] values[i] by {}
        assert(values[values.len() - 1] == values.last());
    }
}

} // verus!
