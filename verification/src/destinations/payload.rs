//! The wire forms of requests and responses.
use vstd::prelude::*;
use vstd::utf8::encode_utf8;
use crate::deferred_queue::{pending_views, Pending, PendingBlob};
use crate::destinations::CHANNEL_HASH_LEN;
use crate::digest::{truncated_hash, truncated_hash_of};
use crate::fields::{array, array_of, binary, binary_of};
use crate::msgpack::{
    fits, found_item_text, found_text, item_views, msgpack_error, msgpack_read, msgpack_write, packed_items, read_error,
    read_value, value_text, write_value, Decoded, Item, Packed, MAX_NESTING,
};
use crate::octets::{copied, holds, opt_view, views};
use crate::text::{decimal, decimal_text};

verus! {

/// The bytes of the public keys of an identity, and of a signature.
pub const KEY_LEN: usize = 64;

/// The byte string at the start of `bytes`, and nothing where there is none.
pub open spec fn bin_at(bytes: Seq<u8>) -> Seq<u8> {
    match msgpack_read(bytes) {
        Some(Packed::Binary(b)) => b,
        _ => Seq::empty(),
    }
}

/// The byte string at the start of `data`, and an empty one where there is
/// none.
pub fn decode_msgpack_bin(data: &[u8]) -> (r: Vec<u8>)
    ensures
        r@ == bin_at(data@),
{
    match read_value(data) {
        Some(Decoded::Binary(b)) => b,
        _ => Vec::new(),
    }
}

/// What is wrong with the form of a signed request.
#[derive(Clone, Copy, Debug, PartialEq, Eq, Structural)]
pub enum PayloadFault {
    /// The bytes are no value.
    NotAValue,
    /// The value is no array of three.
    NotThreeItems,
    /// What is signed is neither bytes nor text.
    ValueKind,
    /// The public keys are no byte string.
    KeyKind,
    /// The signature is no byte string.
    SignatureKind,
    /// The public keys have this length.
    KeyLength(usize),
    /// The signature has this length.
    SignatureLength(usize),
}

/// The text of a fault, given what was found in the place where it is.
pub open spec fn fault_text(fault: PayloadFault, found: Seq<char>) -> Seq<char> {
    match fault {
        PayloadFault::NotAValue => "msgpack decode: "@ + found,
        PayloadFault::NotThreeItems => "expected fixarray-3, got "@ + found,
        PayloadFault::ValueKind => "payload[0] not bin/str: "@ + found,
        PayloadFault::KeyKind => "payload[1] not bin (pubkey)"@,
        PayloadFault::SignatureKind => "payload[2] not bin (sig)"@,
        PayloadFault::KeyLength(n) => "pubkey len "@ + decimal_text(n as nat) + " != 64"@,
        PayloadFault::SignatureLength(n) => "sig len "@ + decimal_text(n as nat) + " != 64"@,
    }
}

impl PayloadFault {
    /// What is written to the log, given what was found in the place where the
    /// fault is.
    pub fn text(self, found: &str) -> (r: String)
        ensures
            r@ == fault_text(self, found@),
    {
        match self {
            PayloadFault::NotAValue => "msgpack decode: ".to_owned().concat(found),
            PayloadFault::NotThreeItems => "expected fixarray-3, got ".to_owned().concat(found),
            PayloadFault::ValueKind => "payload[0] not bin/str: ".to_owned().concat(found),
            PayloadFault::KeyKind => "payload[1] not bin (pubkey)".to_owned(),
            PayloadFault::SignatureKind => "payload[2] not bin (sig)".to_owned(),
            PayloadFault::KeyLength(n) => {
                let head: String = "pubkey len ".to_owned();
                head.concat(decimal(n as u64).as_str()).concat(" != 64")
            },
            PayloadFault::SignatureLength(n) => {
                let head: String = "sig len ".to_owned();
                head.concat(decimal(n as u64).as_str()).concat(" != 64")
            },
        }
    }
}

/// Why a signed request is refused.
pub enum PayloadError {
    /// Its form is wrong: the fault, and what was found in its place.
    Malformed(PayloadFault, String),
    /// The public keys are not valid, for this reason.
    InvalidKey(String),
    /// The signature does not hold.
    BadSignature,
}

/// The text of a [`PayloadError`].
pub open spec fn payload_error_text(e: PayloadError) -> Seq<char> {
    match e {
        PayloadError::Malformed(fault, found) => fault_text(fault, found@),
        PayloadError::InvalidKey(reason) => "from_public_key: "@ + reason@,
        PayloadError::BadSignature => "signature verification failed"@,
    }
}

impl PayloadError {
    /// What is written to the log.
    pub fn text(&self) -> (r: String)
        ensures
            r@ == payload_error_text(*self),
    {
        match self {
            PayloadError::Malformed(fault, found) => fault.text(found.as_str()),
            PayloadError::InvalidKey(reason) => {
                let head: String = "from_public_key: ".to_owned();
                head.concat(reason.as_str())
            },
            PayloadError::BadSignature => "signature verification failed".to_owned(),
        }
    }
}

/// The parts of a signed request: what is signed, the public keys of the
/// signer, and the signature.
pub struct SignedPayload {
    pub value: Vec<u8>,
    pub public_key: Vec<u8>,
    pub signature: Vec<u8>,
}

/// What a [`SignedPayload`] holds.
pub struct SignedParts {
    pub value: Seq<u8>,
    pub public_key: Seq<u8>,
    pub signature: Seq<u8>,
}

impl View for SignedPayload {
    type V = SignedParts;

    open spec fn view(&self) -> SignedParts {
        SignedParts { value: self.value@, public_key: self.public_key@, signature: self.signature@ }
    }
}

/// The bytes that a value stands for where it is to be signed: a byte string,
/// or the bytes of a text.
pub open spec fn signed_bytes(p: Packed) -> Option<Seq<u8>> {
    match p {
        Packed::Binary(b) => Some(b),
        Packed::Str(s) => Some(encode_utf8(s)),
        Packed::RawStr(b) => Some(b),
        _ => None,
    }
}

/// What a signed request holds, or why it is refused before the signature is
/// looked at. The first reason that applies counts.
pub open spec fn signed_parts(p: Option<Packed>) -> Result<SignedParts, PayloadFault> {
    match p {
        None => Err(PayloadFault::NotAValue),
        Some(v) => match array_of(v) {
            None => Err(PayloadFault::NotThreeItems),
            Some(items) => if items.len() != 3 {
                Err(PayloadFault::NotThreeItems)
            } else {
                match (signed_bytes(items[0]), binary_of(items[1]), binary_of(items[2])) {
                    (None, _, _) => Err(PayloadFault::ValueKind),
                    (_, None, _) => Err(PayloadFault::KeyKind),
                    (_, _, None) => Err(PayloadFault::SignatureKind),
                    (Some(value), Some(public_key), Some(signature)) => if public_key.len() != KEY_LEN {
                        Err(PayloadFault::KeyLength(public_key.len() as usize))
                    } else if signature.len() != KEY_LEN {
                        Err(PayloadFault::SignatureLength(signature.len() as usize))
                    } else {
                        Ok(SignedParts { value, public_key, signature })
                    },
                }
            },
        },
    }
}

fn value_bytes(v: &Decoded) -> (r: Option<Vec<u8>>)
    ensures
        opt_view(r) == signed_bytes(v@),
{
    match v {
        Decoded::Binary(b) => Some(copied(b.as_slice())),
        Decoded::Str(s) => Some(copied(s.as_str().as_bytes())),
        Decoded::RawStr(b) => Some(copied(b.as_slice())),
        _ => None,
    }
}

/// The parts of a signed request that was decoded, as [`signed_parts`] says.
pub fn signed_payload(value: &Decoded) -> (r: Result<SignedPayload, PayloadFault>)
    ensures
        match r {
            Ok(s) => signed_parts(Some(value@)) == Ok::<SignedParts, PayloadFault>(s@),
            Err(e) => signed_parts(Some(value@)) == Err::<SignedParts, PayloadFault>(e),
        },
{
    match array(value) {
        Some(items) => {
            if items.len() != 3 {
                return Err(PayloadFault::NotThreeItems);
            }
            let ghost all = packed_items(items@);
            assert(all[0] == items@[0]@ && all[1] == items@[1]@ && all[2] == items@[2]@);
            match (value_bytes(&items[0]), binary(&items[1]), binary(&items[2])) {
                (None, _, _) => Err(PayloadFault::ValueKind),
                (_, None, _) => Err(PayloadFault::KeyKind),
                (_, _, None) => Err(PayloadFault::SignatureKind),
                (Some(v), Some(k), Some(s)) => {
                    if k.len() != KEY_LEN {
                        Err(PayloadFault::KeyLength(k.len()))
                    } else if s.len() != KEY_LEN {
                        Err(PayloadFault::SignatureLength(s.len()))
                    } else {
                        Ok(SignedPayload { value: v, public_key: k, signature: s })
                    }
                },
            }
        },
        None => Err(PayloadFault::NotThreeItems),
    }
}

/// What was found in the place of a fault of the request that `bytes` are.
pub open spec fn found_at(fault: PayloadFault, bytes: Seq<u8>) -> Seq<char> {
    match fault {
        PayloadFault::NotAValue => msgpack_error(bytes),
        PayloadFault::NotThreeItems => value_text(msgpack_read(bytes)->0),
        PayloadFault::ValueKind => value_text(msgpack_read(bytes)->0->Array_0[0]),
        _ => Seq::empty(),
    }
}

fn text_found(fault: PayloadFault, data: &[u8]) -> (r: String)
    requires
        signed_parts(msgpack_read(data@)) == Err::<SignedParts, PayloadFault>(fault),
    ensures
        r@ == found_at(fault, data@),
{
    let text: Option<String> = match fault {
        PayloadFault::NotAValue => read_error(data),
        PayloadFault::NotThreeItems => found_text(data),
        PayloadFault::ValueKind => found_item_text(data, 0),
        _ => None,
    };
    match text {
        Some(t) => t,
        None => {
            let empty: String = String::new();
            assert(empty@ =~= Seq::empty());
            empty
        },
    }
}

/// Takes a signed request apart, as [`signed_parts`] says.
pub fn open_signed_payload(data: &[u8]) -> (r: Result<SignedPayload, PayloadError>)
    ensures
        match r {
            Ok(s) => signed_parts(msgpack_read(data@)) == Ok::<SignedParts, PayloadFault>(s@),
            Err(e) => e matches PayloadError::Malformed(fault, found) && signed_parts(msgpack_read(data@)) == Err::<
                SignedParts,
                PayloadFault,
            >(fault) && found@ == found_at(fault, data@),
        },
{
    let opened: Result<SignedPayload, PayloadFault> = match read_value(data) {
        Some(v) => signed_payload(&v),
        None => Err(PayloadFault::NotAValue),
    };
    match opened {
        Ok(s) => Ok(s),
        Err(fault) => Err(PayloadError::Malformed(fault, text_found(fault, data))),
    }
}

/// A request whose signature holds: what was signed, and who signed it.
pub struct Signed {
    pub value: Vec<u8>,
    pub identity_hash: Vec<u8>,
    pub public_key: Vec<u8>,
}

/// Judges a signed request once its keys and its signature were looked at. The
/// signer is known by the hash of the public keys.
pub fn verify_signed_payload(payload: SignedPayload, key: Result<(), String>, signature_holds: bool) -> (r: Result<
    Signed,
    PayloadError,
>)
    ensures
        r is Ok <==> key is Ok && signature_holds,
        r matches Ok(s) ==> s.value == payload.value && s.public_key == payload.public_key && s.identity_hash@
            == truncated_hash_of(payload.public_key@),
        key matches Err(e) ==> r == Err::<Signed, PayloadError>(PayloadError::InvalidKey(e)),
        key is Ok && !signature_holds ==> r == Err::<Signed, PayloadError>(PayloadError::BadSignature),
{
    match key {
        Err(e) => Err(PayloadError::InvalidKey(e)),
        Ok(()) => {
            if !signature_holds {
                return Err(PayloadError::BadSignature);
            }
            let identity_hash: Vec<u8> = truncated_hash(payload.public_key.as_slice());
            Ok(Signed { value: payload.value, identity_hash, public_key: payload.public_key })
        },
    }
}

/// A signed request as a value.
pub open spec fn signed_value(value: Seq<u8>, public_key: Seq<u8>, signature: Seq<u8>) -> Packed {
    Packed::Array(seq![Packed::Binary(value), Packed::Binary(public_key), Packed::Binary(signature)])
}

/// The wire form of a signed request.
pub fn encode_signed_payload(value: Vec<u8>, public_key: Vec<u8>, signature: Vec<u8>) -> (r: Vec<u8>)
    ensures
        r@ == msgpack_write(signed_value(value@, public_key@, signature@)),
        value@.len() <= u32::MAX && public_key@.len() <= u32::MAX && signature@.len() <= u32::MAX ==> msgpack_read(r@)
            == Some(signed_value(value@, public_key@, signature@)),
{
    broadcast use crate::msgpack::group_item_views;

    let ghost p = signed_value(value@, public_key@, signature@);
    let items: Vec<Item> = vec![Item::Binary(value), Item::Binary(public_key), Item::Binary(signature)];
    proof {
        assert(item_views(items@) =~= p->Array_0);
        if value@.len() <= u32::MAX && public_key@.len() <= u32::MAX && signature@.len() <= u32::MAX {
            assert(fits(p->Array_0[0], (MAX_NESTING - 1) as nat));
            assert(fits(p->Array_0[1], (MAX_NESTING - 1) as nat));
            assert(fits(p->Array_0[2], (MAX_NESTING - 1) as nat));
            assert(fits(p, MAX_NESTING as nat));
        }
    }
    write_value(Item::Array(items))
}

/// A signed request is taken apart into what it was made of, where the keys
/// and the signature have their lengths.
pub proof fn law_signed_request_is_understood(value: Seq<u8>, public_key: Seq<u8>, signature: Seq<u8>)
    requires
        public_key.len() == KEY_LEN,
        signature.len() == KEY_LEN,
    ensures
        signed_parts(Some(signed_value(value, public_key, signature))) == Ok::<SignedParts, PayloadFault>(
            SignedParts { value, public_key, signature },
        ),
{
}

/// The response to a request for a stream.
pub open spec fn stream_open_value(ok: bool, reason: Option<Seq<char>>) -> Packed {
    Packed::Array(
        seq![
            Packed::Boolean(ok),
            match reason {
                Some(text) => Packed::Str(text),
                None => Packed::Nil,
            },
        ],
    )
}

/// The contents of an optional text.
pub open spec fn opt_text(s: Option<&str>) -> Option<Seq<char>> {
    match s {
        Some(t) => Some(t@),
        None => None,
    }
}

/// The wire form of the response to a request for a stream.
pub fn encode_stream_open_response(ok: bool, reason: Option<&str>) -> (r: Vec<u8>)
    ensures
        r@ == msgpack_write(stream_open_value(ok, opt_text(reason))),
{
    broadcast use crate::msgpack::group_item_views;

    let text: Item = match reason {
        Some(t) => Item::Str(t.to_owned()),
        None => Item::Nil,
    };
    let items: Vec<Item> = vec![Item::Boolean(ok), text];
    assert(item_views(items@) =~= stream_open_value(ok, opt_text(reason))->Array_0);
    write_value(Item::Array(items))
}

/// What is wrong with a list of channels.
#[derive(Clone, Copy, Debug, PartialEq, Eq, Structural)]
pub enum FilterFault {
    /// The bytes are no value.
    NotAValue,
    /// The value is no array.
    NotAList,
    /// The entry in this place is no byte string.
    EntryKind(usize),
    /// An entry has this length.
    EntryLength(usize),
}

/// The text of a fault, given what was found in its place.
pub open spec fn filter_fault_text(fault: FilterFault, found: Seq<char>) -> Seq<char> {
    match fault {
        FilterFault::NotAValue => "channel stream config decode: "@ + found,
        FilterFault::NotAList => "channel stream config must be bin(16) or array of bin(16), got "@ + found,
        FilterFault::EntryKind(_) => "channel stream config entries must be bin(16), got "@ + found,
        FilterFault::EntryLength(n) => "channel stream config entry len "@ + decimal_text(n as nat) + " != 16"@,
    }
}

impl FilterFault {
    /// What is written to the log, given what was found in the place of the
    /// fault.
    pub fn text(self, found: &str) -> (r: String)
        ensures
            r@ == filter_fault_text(self, found@),
    {
        match self {
            FilterFault::NotAValue => "channel stream config decode: ".to_owned().concat(found),
            FilterFault::NotAList => {
                "channel stream config must be bin(16) or array of bin(16), got ".to_owned().concat(found)
            },
            FilterFault::EntryKind(_) => "channel stream config entries must be bin(16), got ".to_owned().concat(found),
            FilterFault::EntryLength(n) => {
                let head: String = "channel stream config entry len ".to_owned();
                head.concat(decimal(n as u64).as_str()).concat(" != 16")
            },
        }
    }
}

/// The channels that a list of values names, each once, or the fault of the
/// first value that is no channel hash.
pub open spec fn filters_of(items: Seq<Packed>) -> Result<Seq<Seq<u8>>, FilterFault>
    decreases items.len(),
{
    if items.len() == 0 {
        Ok(Seq::empty())
    } else {
        match filters_of(items.drop_last()) {
            Err(e) => Err(e),
            Ok(found) => match items.last() {
                Packed::Binary(b) => if b.len() != CHANNEL_HASH_LEN {
                    Err(FilterFault::EntryLength(b.len() as usize))
                } else if found.contains(b) {
                    Ok(found)
                } else {
                    Ok(found.push(b))
                },
                _ => Err(FilterFault::EntryKind((items.len() - 1) as usize)),
            },
        }
    }
}

/// The channels that a stream is asked for: a single hash, or a list.
pub open spec fn stream_filters(bytes: Seq<u8>, read: Option<Packed>) -> Result<Seq<Seq<u8>>, FilterFault> {
    if bytes.len() == CHANNEL_HASH_LEN {
        Ok(seq![bytes])
    } else {
        match read {
            None => Err(FilterFault::NotAValue),
            Some(v) => match array_of(v) {
                Some(items) => filters_of(items),
                None => Err(FilterFault::NotAList),
            },
        }
    }
}

/// The contents of a result of channels.
pub open spec fn filter_views(r: Result<Vec<Vec<u8>>, FilterFault>) -> Result<Seq<Seq<u8>>, FilterFault> {
    match r {
        Ok(list) => Ok(views(list@)),
        Err(fault) => Err(fault),
    }
}

/// The first fault stays.
proof fn lemma_filters_fail(items: Seq<Packed>, n: int)
    requires
        0 <= n <= items.len(),
        filters_of(items.take(n)) is Err,
    ensures
        filters_of(items) == filters_of(items.take(n)),
    decreases items.len(),
{
    if n == items.len() {
        assert(items.take(n) =~= items);
    } else {
        assert(items.drop_last().take(n) =~= items.take(n));
        lemma_filters_fail(items.drop_last(), n);
    }
}

/// The channels that a decoded list names, as [`filters_of`] says.
pub fn channel_filters(items: &Vec<Decoded>) -> (r: Result<Vec<Vec<u8>>, FilterFault>)
    ensures
        filter_views(r) == filters_of(packed_items(items@)),
        r matches Err(fault) ==> match fault {
            FilterFault::EntryKind(i) => i < items@.len(),
            FilterFault::EntryLength(_) => true,
            _ => false,
        },
{
    let ghost all = packed_items(items@);
    let mut found: Vec<Vec<u8>> = Vec::new();
    let mut i: usize = 0;
    assert(views(found@) =~= Seq::empty());
    while i < items.len()
        invariant
            0 <= i <= items@.len(),
            all == packed_items(items@),
            filters_of(all.take(i as int)) == Ok::<Seq<Seq<u8>>, FilterFault>(views(found@)),
        decreases items@.len() - i,
    {
        proof {
            assert(all.take(i + 1).drop_last() =~= all.take(i as int));
            assert(all.take(i + 1).last() == items@[i as int]@);
        }
        match &items[i] {
            Decoded::Binary(b) => {
                if b.len() != CHANNEL_HASH_LEN {
                    proof {
                        lemma_filters_fail(all, i + 1);
                    }
                    return Err(FilterFault::EntryLength(b.len()));
                }
                if !holds(found.as_slice(), b.as_slice()) {
                    let ghost was = views(found@);
                    let item: Vec<u8> = copied(b.as_slice());
                    found.push(item);
                    assert(views(found@) =~= was.push(item@));
                }
            },
            _ => {
                proof {
                    lemma_filters_fail(all, i + 1);
                }
                return Err(FilterFault::EntryKind(i));
            },
        }
        i += 1;
    }
    assert(all.take(all.len() as int) =~= all);
    Ok(found)
}

/// What was found in the place of a fault of the list of channels that `bytes`
/// are.
pub open spec fn filter_found_at(fault: FilterFault, bytes: Seq<u8>) -> Seq<char> {
    match fault {
        FilterFault::NotAValue => msgpack_error(bytes),
        FilterFault::NotAList => value_text(msgpack_read(bytes)->0),
        FilterFault::EntryKind(i) => value_text(msgpack_read(bytes)->0->Array_0[i as int]),
        FilterFault::EntryLength(_) => Seq::empty(),
    }
}

/// The channels that a stream is asked for, as [`stream_filters`] says, or the
/// text of the fault.
pub fn decode_channel_stream_filters(value_bytes: &[u8]) -> (r: Result<Vec<Vec<u8>>, String>)
    ensures
        match r {
            Ok(list) => stream_filters(value_bytes@, msgpack_read(value_bytes@)) == Ok::<Seq<Seq<u8>>, FilterFault>(
                views(list@),
            ),
            Err(text) => stream_filters(value_bytes@, msgpack_read(value_bytes@)) matches Err(fault) && text@
                == filter_fault_text(fault, filter_found_at(fault, value_bytes@)),
        },
{
    if value_bytes.len() == CHANNEL_HASH_LEN {
        let list: Vec<Vec<u8>> = vec![copied(value_bytes)];
        assert(views(list@) =~= seq![value_bytes@]);
        return Ok(list);
    }
    let found: Result<Vec<Vec<u8>>, FilterFault> = match read_value(value_bytes) {
        None => Err(FilterFault::NotAValue),
        Some(v) => match array(&v) {
            Some(items) => channel_filters(items),
            None => Err(FilterFault::NotAList),
        },
    };
    assert(filter_views(found) == stream_filters(value_bytes@, msgpack_read(value_bytes@)));
    match found {
        Ok(list) => Ok(list),
        Err(fault) => {
            let text: Option<String> = match fault {
                FilterFault::NotAValue => read_error(value_bytes),
                FilterFault::NotAList => found_text(value_bytes),
                FilterFault::EntryKind(i) => found_item_text(value_bytes, i),
                FilterFault::EntryLength(_) => None,
            };
            match text {
                Some(t) => Err(fault.text(t.as_str())),
                None => {
                    proof {
                        reveal_strlit("");
                        assert(""@ =~= Seq::<char>::empty());
                    }
                    Err(fault.text(""))
                },
            }
        },
    }
}

/// The channels that a stream is opened for are channel hashes, none of them
/// twice.
pub proof fn law_stream_filters_are_distinct(items: Seq<Packed>)
    ensures
        filters_of(items) matches Ok(list) ==> list.no_duplicates() && forall|i: int|
            0 <= i < list.len() ==> (#[trigger] list[i]).len() == CHANNEL_HASH_LEN,
    decreases items.len(),
{
    if items.len() > 0 {
        law_stream_filters_are_distinct(items.drop_last());
        if let Ok(found) = filters_of(items.drop_last()) {
            if let Packed::Binary(b) = items.last() {
                if b.len() == CHANNEL_HASH_LEN && !found.contains(b) {
                    let list = found.push(b);
                    assert forall|i: int, j: int| 0 <= i < j < list.len() implies list[i] != list[j] by {
                        if j == found.len() && list[i] == list[j] {
                            assert(found[i] == b);
                        }
                    }
                }
            }
        }
    }
}

/// The channel that a pull is for: the bytes themselves, or the byte string
/// that they encode, where that has the length of a channel hash.
pub open spec fn pulled_channel(bytes: Seq<u8>, encoded: Seq<u8>) -> Option<Seq<u8>> {
    if bytes.len() == CHANNEL_HASH_LEN {
        Some(bytes)
    } else if encoded.len() == CHANNEL_HASH_LEN {
        Some(encoded)
    } else {
        None
    }
}

/// The channel that a pull is for, as [`pulled_channel`] says.
pub fn decode_channel_pull_request(data: &[u8]) -> (r: Result<Vec<u8>, String>)
    ensures
        match r {
            Ok(c) => pulled_channel(data@, bin_at(data@)) == Some(c@),
            Err(e) => pulled_channel(data@, bin_at(data@)) is None && e@
                == "channel pull request must carry bin(16) channel hash, got "@ + decimal_text(bin_at(data@).len())
                + " bytes"@,
        },
{
    if data.len() == CHANNEL_HASH_LEN {
        return Ok(copied(data));
    }
    let channel_hash: Vec<u8> = decode_msgpack_bin(data);
    if channel_hash.len() != CHANNEL_HASH_LEN {
        let head: String = "channel pull request must carry bin(16) channel hash, got ".to_owned();
        return Err(head.concat(decimal(channel_hash.len() as u64).as_str()).concat(" bytes"));
    }
    Ok(channel_hash)
}

/// Blobs as values: each with its channel.
pub open spec fn pulled_items(pending: Seq<Pending>) -> Seq<Packed> {
    Seq::new(
        pending.len(),
        |i: int| Packed::Array(seq![Packed::Binary(pending[i].channel), Packed::Binary(pending[i].blob)]),
    )
}

/// The response to a pull: the blobs of a page, and whether there are more.
pub open spec fn pull_value(pending: Seq<Pending>, more_pending: bool) -> Packed {
    Packed::Array(seq![Packed::Array(pulled_items(pending)), Packed::Boolean(more_pending)])
}

/// Whether a page is short enough for the length fields of the wire form.
pub open spec fn page_fits(pending: Seq<Pending>) -> bool {
    pending.len() <= u32::MAX && forall|i: int|
        0 <= i < pending.len() ==> (#[trigger] pending[i]).channel.len() <= u32::MAX && pending[i].blob.len()
            <= u32::MAX
}

proof fn lemma_page_fits(pending: Seq<Pending>, more_pending: bool)
    requires
        page_fits(pending),
    ensures
        fits(pull_value(pending, more_pending), MAX_NESTING as nat),
{
    let p = pull_value(pending, more_pending);
    let items = pulled_items(pending);
    let d1 = (MAX_NESTING - 1) as nat;
    let d2 = (MAX_NESTING - 2) as nat;
    let d3 = (MAX_NESTING - 3) as nat;
    assert forall|i: int| 0 <= i < items.len() implies fits(#[trigger] items[i], d2) by {
        let pair = items[i]->Array_0;
        assert(pending[i].channel.len() <= u32::MAX);
        assert(fits(pair[0], d3));
        assert(fits(pair[1], d3));
    }
    assert(fits(p->Array_0[0], d1));
    assert(fits(p->Array_0[1], d1));
}

/// The wire form of the response to a pull.
pub fn encode_pull_response(pending: Vec<PendingBlob>, more_pending: bool) -> (r: Vec<u8>)
    ensures
        r@ == msgpack_write(pull_value(pending_views(pending@), more_pending)),
        page_fits(pending_views(pending@)) ==> msgpack_read(r@) == Some(
            pull_value(pending_views(pending@), more_pending),
        ),
{
    broadcast use crate::msgpack::group_item_views;

    let ghost all = pending_views(pending@);
    let mut pairs: Vec<Item> = Vec::new();
    assert(item_views(pairs@) =~= pulled_items(all).take(0));
    for b in it: pending
        invariant
            it.seq() == pending@,
            all == pending_views(pending@),
            item_views(pairs@) == pulled_items(all).take(it.index()),
    {
        let ghost i = it.index();
        let ghost was = item_views(pairs@);
        let ghost view = b@;
        let pair: Vec<Item> = vec![Item::Binary(b.channel_hash), Item::Binary(b.blob)];
        proof {
            assert(all[i] == view);
            assert(item_views(pair@)[0] == Packed::Binary(view.channel));
            assert(item_views(pair@)[1] == Packed::Binary(view.blob));
            assert(item_views(pair@) =~= pulled_items(all)[i]->Array_0);
            crate::msgpack::lemma_array_view(pair);
        }
        let item: Item = Item::Array(pair);
        assert(item@ == pulled_items(all)[i]);
        pairs.push(item);
        proof {
            assert(item_views(pairs@) =~= was.push(item@));
            assert(pulled_items(all).take(i + 1) =~= pulled_items(all).take(i).push(pulled_items(all)[i]));
        }
    }
    assert(pulled_items(all).take(all.len() as int) =~= pulled_items(all));
    let items: Vec<Item> = vec![Item::Array(pairs), Item::Boolean(more_pending)];
    proof {
        assert(item_views(items@) =~= pull_value(all, more_pending)->Array_0);
        if page_fits(all) {
            lemma_page_fits(all, more_pending);
        }
    }
    write_value(Item::Array(items))
}

/// The response to a subscription: whether it was made, and the cost of
/// stamps, which is nothing where none are asked for.
pub open spec fn subscribe_value(ok: bool, cost: Option<u32>) -> Packed {
    Packed::Array(
        seq![
            Packed::Boolean(ok),
            match cost {
                Some(c) => Packed::UInt(c as u64),
                None => Packed::Nil,
            },
        ],
    )
}

/// The wire form of the response to a subscription.
pub fn encode_subscribe_response(ok: bool, cost: Option<u32>) -> (r: Vec<u8>)
    ensures
        r@ == msgpack_write(subscribe_value(ok, cost)),
        msgpack_read(r@) == Some(subscribe_value(ok, cost)),
{
    broadcast use crate::msgpack::group_item_views;

    let second: Item = match cost {
        Some(c) => Item::UInt(c as u64),
        None => Item::Nil,
    };
    let items: Vec<Item> = vec![Item::Boolean(ok), second];
    proof {
        let p = subscribe_value(ok, cost);
        assert(item_views(items@) =~= p->Array_0);
        assert(fits(p->Array_0[0], (MAX_NESTING - 1) as nat));
        assert(fits(p->Array_0[1], (MAX_NESTING - 1) as nat));
        assert(fits(p, MAX_NESTING as nat));
    }
    write_value(Item::Array(items))
}

/// A signed request is an array of three, what is signed, which is bytes or a
/// text, and two byte strings of 64 bytes, and is taken apart into these.
/// Anything else is refused.
pub proof fn law_what_a_signed_request_is(p: Option<Packed>)
    ensures
        signed_parts(p) is Ok <==> (p matches Some(Packed::Array(items)) && items.len() == 3 && (items[0] is Binary
            || items[0] is Str || items[0] is RawStr) && items[1] is Binary && items[1]->Binary_0.len() == 64
            && items[2] is Binary && items[2]->Binary_0.len() == 64),
        signed_parts(p) matches Ok(s) ==> {
            let items = p->0->Array_0;
            &&& items[0] is Binary ==> s.value == items[0]->Binary_0
            &&& items[0] is RawStr ==> s.value == items[0]->RawStr_0
            &&& items[0] is Str ==> s.value == encode_utf8(items[0]->Str_0)
            &&& s.public_key == items[1]->Binary_0
            &&& s.signature == items[2]->Binary_0
        },
{
}

/// What is wrong with a request is the first thing that is: its form, then the
/// kind of each part, then the length of the keys, then that of the signature.
pub proof fn law_first_fault_is_named(items: Seq<Packed>)
    ensures
        signed_parts(None) == Err::<SignedParts, PayloadFault>(PayloadFault::NotAValue),
        items.len() != 3 ==> signed_parts(Some(Packed::Array(items))) == Err::<SignedParts, PayloadFault>(
            PayloadFault::NotThreeItems,
        ),
        items.len() == 3 ==> {
            let value = items[0] is Binary || items[0] is Str || items[0] is RawStr;
            let r = signed_parts(Some(Packed::Array(items)));
            &&& !value ==> r == Err::<SignedParts, PayloadFault>(PayloadFault::ValueKind)
            &&& value && !(items[1] is Binary) ==> r == Err::<SignedParts, PayloadFault>(PayloadFault::KeyKind)
            &&& value && items[1] is Binary && !(items[2] is Binary) ==> r == Err::<SignedParts, PayloadFault>(
                PayloadFault::SignatureKind,
            )
            &&& value && items[1] is Binary && items[2] is Binary && items[1]->Binary_0.len() != 64 ==> r == Err::<
                SignedParts,
                PayloadFault,
            >(PayloadFault::KeyLength(items[1]->Binary_0.len() as usize))
            &&& value && items[1] is Binary && items[2] is Binary && items[1]->Binary_0.len() == 64
                && items[2]->Binary_0.len() != 64 ==> r == Err::<SignedParts, PayloadFault>(
                PayloadFault::SignatureLength(items[2]->Binary_0.len() as usize),
            )
        },
{
}

/// A list of channels is taken exactly where every entry is a byte string of 16
/// bytes. Every channel in it is then asked for, and no other, in the order in
/// which they first stand in the list.
pub proof fn law_every_channel_is_asked_for(items: Seq<Packed>)
    ensures
        filters_of(items) is Ok <==> forall|i: int|
            0 <= i < items.len() ==> (#[trigger] items[i]) is Binary && items[i]->Binary_0.len() == 16,
        filters_of(items) matches Ok(list) ==> {
            &&& forall|c: Seq<u8>| #[trigger] list.contains(c) <==> items.contains(Packed::Binary(c))
            &&& list.no_duplicates()
            &&& forall|i: int, j: int|
                0 <= i < j < list.len() ==> comes_first(items, #[trigger] list[i], #[trigger] list[j])
        },
    decreases items.len(),
{
    law_stream_filters_are_distinct(items);
    if items.len() > 0 {
        let rest = items.drop_last();
        law_every_channel_is_asked_for(rest);
        assert forall|i: int| 0 <= i < rest.len() implies rest[i] == #[trigger] items[i] by {}
        if filters_of(items) is Ok {
            let list = filters_of(items)->Ok_0;
            let found = filters_of(rest)->Ok_0;
            let b = items.last()->Binary_0;
            assert forall|c: Seq<u8>| #[trigger] list.contains(c) <==> items.contains(Packed::Binary(c)) by {
                if list.contains(c) {
                    if found.contains(c) {
                        let k = rest.index_of(Packed::Binary(c));
                        assert(items[k] == Packed::Binary(c));
                    } else {
                        assert(list[list.index_of(c)] == b);
                        assert(items[items.len() - 1] == Packed::Binary(c));
                    }
                }
                if items.contains(Packed::Binary(c)) {
                    let k = items.index_of(Packed::Binary(c));
                    if k < rest.len() {
                        assert(rest[k] == Packed::Binary(c));
                        assert(found.contains(c));
                        assert(list[found.index_of(c)] == c);
                    } else if !found.contains(c) {
                        assert(list[found.len() as int] == c);
                    }
                }
            }
            assert forall|i: int, j: int| 0 <= i < j < list.len() implies comes_first(
                items,
                #[trigger] list[i],
                #[trigger] list[j],
            ) by {
                assert(found[i] == list[i]);
                if j < found.len() {
                    assert(found[j] == list[j]);
                    assert(comes_first(rest, found[i], found[j]));
                    let k = choose|k: int|
                        0 <= k < rest.len() && #[trigger] rest[k] == Packed::Binary(list[i]) && forall|m: int|
                            0 <= m <= k ==> #[trigger] rest[m] != Packed::Binary(list[j]);
                    assert(items[k] == Packed::Binary(list[i]));
                    assert forall|m: int| 0 <= m <= k implies #[trigger] items[m] != Packed::Binary(list[j]) by {
                        assert(rest[m] == items[m]);
                    }
                } else {
                    assert(found.contains(list[i]));
                    let k = rest.index_of(Packed::Binary(list[i]));
                    assert(items[k] == Packed::Binary(list[i]));
                    assert forall|m: int| 0 <= m <= k implies #[trigger] items[m] != Packed::Binary(list[j]) by {
                        if items[m] == Packed::Binary(list[j]) {
                            assert(rest[m] == items[m]);
                            assert(rest.contains(Packed::Binary(b)));
                            assert(found.contains(b));
                        }
                    }
                }
            }
        }
    }
}

/// Whether `one` stands in `items` before any `other` does.
pub open spec fn comes_first(items: Seq<Packed>, one: Seq<u8>, other: Seq<u8>) -> bool {
    exists|k: int|
        0 <= k < items.len() && #[trigger] items[k] == Packed::Binary(one) && forall|m: int|
            0 <= m <= k ==> #[trigger] items[m] != Packed::Binary(other)
}

/// A list of channels is refused for the first entry that is no channel hash.
pub proof fn law_first_bad_entry_is_named(items: Seq<Packed>, k: int)
    requires
        0 <= k < items.len() <= usize::MAX,
        forall|i: int|
            0 <= i < k ==> (#[trigger] items[i]) is Binary && items[i]->Binary_0.len() == 16,
        !(items[k] is Binary && items[k]->Binary_0.len() == 16),
    ensures
        items[k] is Binary ==> filters_of(items) == Err::<Seq<Seq<u8>>, FilterFault>(
            FilterFault::EntryLength(items[k]->Binary_0.len() as usize),
        ),
        !(items[k] is Binary) ==> filters_of(items) == Err::<Seq<Seq<u8>>, FilterFault>(
            FilterFault::EntryKind(k as usize),
        ),
    decreases items.len(),
{
    let rest = items.drop_last();
    assert forall|i: int| 0 <= i < rest.len() implies rest[i] == #[trigger] items[i] by {}
    if k < rest.len() {
        law_first_bad_entry_is_named(rest, k);
    } else {
        law_every_channel_is_asked_for(rest);
    }
}

/// Sixteen bytes name a channel by themselves, to stream or to pull it,
/// whatever they could be read as. Other bytes name one to pull where they are
/// read as a byte string of sixteen bytes, and channels to stream where they
/// are read as a list of such.
pub proof fn law_bare_hash_names_a_channel(bytes: Seq<u8>, read: Option<Packed>, encoded: Seq<u8>)
    ensures
        bytes.len() == 16 ==> stream_filters(bytes, read) == Ok::<Seq<Seq<u8>>, FilterFault>(seq![bytes])
            && pulled_channel(bytes, encoded) == Some(bytes),
        bytes.len() != 16 && encoded.len() == 16 ==> pulled_channel(bytes, encoded) == Some(encoded),
        bytes.len() != 16 && encoded.len() != 16 ==> pulled_channel(bytes, encoded) is None,
        bytes.len() != 16 && read is None ==> stream_filters(bytes, read) == Err::<Seq<Seq<u8>>, FilterFault>(
            FilterFault::NotAValue,
        ),
        bytes.len() != 16 && (read matches Some(v) && !(v is Array)) ==> stream_filters(bytes, read) == Err::<
            Seq<Seq<u8>>,
            FilterFault,
        >(FilterFault::NotAList),
        bytes.len() != 16 && (read matches Some(v) && v is Array) ==> stream_filters(bytes, read) == filters_of(
            read->0->Array_0,
        ),
{
}

/// The answers to requests are arrays of two: to open a stream, whether it is
/// open and why not; to subscribe, whether it is granted and the cost of a
/// stamp, if one is asked for.
pub proof fn law_answers_are_pairs(ok: bool, reason: Seq<char>, cost: u32)
    ensures
        stream_open_value(ok, None) == Packed::Array(seq![Packed::Boolean(ok), Packed::Nil]),
        stream_open_value(ok, Some(reason)) == Packed::Array(seq![Packed::Boolean(ok), Packed::Str(reason)]),
        subscribe_value(ok, None) == Packed::Array(seq![Packed::Boolean(ok), Packed::Nil]),
        subscribe_value(ok, Some(cost)) == Packed::Array(seq![Packed::Boolean(ok), Packed::UInt(cost as u64)]),
{
    assert(stream_open_value(ok, None)->Array_0 =~= seq![Packed::Boolean(ok), Packed::Nil]);
    assert(stream_open_value(ok, Some(reason))->Array_0 =~= seq![Packed::Boolean(ok), Packed::Str(reason)]);
    assert(subscribe_value(ok, None)->Array_0 =~= seq![Packed::Boolean(ok), Packed::Nil]);
    assert(subscribe_value(ok, Some(cost))->Array_0 =~= seq![Packed::Boolean(ok), Packed::UInt(cost as u64)]);
}

/// A byte string at the start is read as its bytes, and anything else as none.
pub proof fn law_byte_string_at_the_start(bytes: Seq<u8>)
    ensures
        msgpack_read(bytes) matches Some(p) && p is Binary ==> bin_at(bytes) == msgpack_read(bytes)->0->Binary_0,
        !(msgpack_read(bytes) matches Some(p) && p is Binary) ==> bin_at(bytes).len() == 0,
{
}

/// A page fits into an answer where it has no more than 4294967295 blobs, and
/// none of them or of their channels is longer.
pub proof fn law_when_a_page_fits(pending: Seq<Pending>)
    ensures
        page_fits(pending) <==> pending.len() <= 0xffff_ffff && forall|i: int|
            0 <= i < pending.len() ==> (#[trigger] pending[i]).channel.len() <= 0xffff_ffff && pending[i].blob.len()
                <= 0xffff_ffff,
{
}

/// A request counts as signed exactly where its keys are those of an identity and
/// the signature holds. Its signer is the identity of the keys, and what is
/// signed is what came.
pub proof fn law_who_signed_a_request(
    payload: SignedPayload,
    key: Result<(), String>,
    signature_holds: bool,
    r: Result<Signed, PayloadError>,
)
    requires
        call_ensures(verify_signed_payload, (payload, key, signature_holds), r),
    ensures
        r is Ok <==> key is Ok && signature_holds,
        r is Ok ==> r->Ok_0.value@ == payload.value@ && r->Ok_0.public_key@ == payload.public_key@
            && r->Ok_0.identity_hash@ == crate::digest::sha256_of(payload.public_key@).subrange(0, 16),
        key is Ok && !signature_holds ==> r == Err::<Signed, PayloadError>(PayloadError::BadSignature),
        key is Err ==> r == Err::<Signed, PayloadError>(PayloadError::InvalidKey(key->Err_0)),
{
}

} // verus!
