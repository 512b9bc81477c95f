//! Requests to open a live stream on a link.
use vstd::prelude::*;
use crate::config::NodeConfig;
use crate::destinations::fed_node::FedNode;
use crate::destinations::payload::{
    decode_channel_stream_filters, encode_stream_open_response, stream_filters, stream_open_value, FilterFault,
    PayloadError, Signed,
};
use crate::digest::TRUNCATED_HASH_LEN;
use crate::distro::{delivery_hash_of, lxmf_delivery_hash_from_pubkey};
use crate::id_map::{has_key, put};
use crate::msgpack::{msgpack_read, msgpack_write, Packed};
use crate::notify::channel_view;
use crate::octets::{copied, same_bytes, views};
use crate::stream_registry::{keeps_other_delivery, keeps_stream_of, ChannelStream};
use crate::subscription::{subscribed, Subscription, SubscriptionTable};

verus! {

/// Whether a subscriber is subscribed to each of a list of channels.
pub open spec fn subscribed_to_all(subs: Seq<Subscription>, subscriber: Seq<u8>, channels: Seq<Seq<u8>>) -> bool {
    forall|i: int| 0 <= i < channels.len() ==> subscribed(subs, subscriber, #[trigger] channels[i])
}

fn is_subscribed_to_all(table: &SubscriptionTable, subscriber_hash: &[u8], channels: &Vec<Vec<u8>>) -> (r: bool)
    ensures
        r == subscribed_to_all(table@, subscriber_hash@, views(channels@)),
{
    let ghost all = views(channels@);
    let mut i: usize = 0;
    while i < channels.len()
        invariant
            0 <= i <= channels@.len(),
            all == views(channels@),
            forall|j: int| 0 <= j < i ==> subscribed(table@, subscriber_hash@, #[trigger] all[j]),
        decreases channels@.len() - i,
    {
        assert(all[i as int] == channels@[i as int]@);
        if !table.is_subscribed(subscriber_hash, channels[i].as_slice()) {
            return false;
        }
        i += 1;
    }
    true
}

/// The channels that a signed request for a stream names, or the fault.
pub open spec fn requested_channels(signed: Signed) -> Result<Seq<Seq<u8>>, FilterFault> {
    stream_filters(signed.value@, msgpack_read(signed.value@))
}

/// Why a stream of channels is not opened, where it is not.
pub open spec fn channel_stream_refusal(
    subs: Seq<Subscription>,
    link: Option<Seq<u8>>,
    signed: Result<Signed, PayloadError>,
) -> Option<Seq<char>> {
    if link is None {
        Some("no_link"@)
    } else {
        match signed {
            Err(_) => Some("bad_signature"@),
            Ok(s) => match requested_channels(s) {
                Err(_) => Some("bad_channel_config"@),
                Ok(channels) => if !subscribed_to_all(subs, s.identity_hash@, channels) {
                    Some("not_subscribed"@)
                } else {
                    None
                },
            },
        }
    }
}

/// Why a stream of messages is not opened, where it is not: the signer has to
/// name the address under which its own messages come in, on a node that
/// takes messages, and on a link that has no stream yet.
pub open spec fn message_stream_refusal(
    config: NodeConfig,
    streams: Seq<(Seq<u8>, Seq<u8>)>,
    link: Option<Seq<u8>>,
    signed: Result<Signed, PayloadError>,
) -> Option<Seq<char>> {
    match (link, signed) {
        (None, _) => Some("no_link"@),
        (Some(_), Err(_)) => Some("bad_signature"@),
        (Some(id), Ok(s)) => if s.value@.len() != TRUNCATED_HASH_LEN {
            Some("bad_delivery_hash"@)
        } else if delivery_hash_of(s.public_key@) != s.value@ {
            Some("delivery_mismatch"@)
        } else if !config.lxmf_propagation_enabled {
            Some("feature_disabled"@)
        } else if has_key(streams, id) {
            Some("already_open"@)
        } else {
            None
        },
    }
}

/// The response to a request for a stream.
pub open spec fn stream_reply(refusal: Option<Seq<char>>) -> Seq<u8> {
    msgpack_write(stream_open_value(refusal is None, refusal))
}

impl FedNode {
    /// Opens a live stream of channels on a link, in the place of what the
    /// signer had open.
    pub fn on_channel_stream_open(&mut self, link_id: Option<&[u8]>, signed: Result<Signed, PayloadError>) -> (r: Vec<u8>)
        requires
            old(self).wf(),
        ensures
            final(self).wf(),
            *final(self) == (FedNode { channel_streams: final(self).channel_streams, ..*old(self) }),
            r@ == stream_reply(
                channel_stream_refusal(old(self).subscription_table@, channel_view(link_id), signed),
            ),
            match channel_stream_refusal(old(self).subscription_table@, channel_view(link_id), signed) {
                Some(_) => *final(self) == *old(self),
                None => final(self).channel_streams@ == put(
                    old(self).channel_streams@.filter(
                        keeps_stream_of(link_id->0@, signed->Ok_0.identity_hash@),
                    ),
                    link_id->0@,
                    ChannelStream {
                        subscriber: signed->Ok_0.identity_hash@,
                        channels: requested_channels(signed->Ok_0)->Ok_0,
                    },
                ),
            },
    {
        let link: &[u8] = match link_id {
            Some(l) => l,
            None => return encode_stream_open_response(false, Some("no_link")),
        };
        let s: Signed = match signed {
            Ok(s) => s,
            Err(_) => return encode_stream_open_response(false, Some("bad_signature")),
        };
        let channels: Vec<Vec<u8>> = match decode_channel_stream_filters(s.value.as_slice()) {
            Ok(list) => list,
            Err(_) => return encode_stream_open_response(false, Some("bad_channel_config")),
        };
        if !is_subscribed_to_all(&self.subscription_table, s.identity_hash.as_slice(), &channels) {
            return encode_stream_open_response(false, Some("not_subscribed"));
        }
        self.channel_streams.configure(link, s.identity_hash, channels);
        encode_stream_open_response(true, None)
    }

    /// Opens a live stream of messages on a link, in the place of what was
    /// open for the same address.
    pub fn on_propagation_stream_open(&mut self, link_id: Option<&[u8]>, signed: Result<Signed, PayloadError>) -> (r:
        Vec<u8>)
        requires
            old(self).wf(),
        ensures
            final(self).wf(),
            *final(self) == (FedNode { propagation_streams: final(self).propagation_streams, ..*old(self) }),
            ({
                let refusal = message_stream_refusal(
                    old(self).config,
                    old(self).propagation_streams@,
                    channel_view(link_id),
                    signed,
                );
                &&& r@ == stream_reply(refusal)
                &&& refusal is Some ==> final(self).propagation_streams@ == old(self).propagation_streams@
                &&& refusal is None ==> final(self).propagation_streams@ == old(self).propagation_streams@.filter(
                    keeps_other_delivery(link_id->0@, signed->Ok_0.value@),
                ).push((link_id->0@, signed->Ok_0.value@))
            }),
    {
        let link: &[u8] = match link_id {
            Some(l) => l,
            None => return encode_stream_open_response(false, Some("no_link")),
        };
        let s: Signed = match signed {
            Ok(s) => s,
            Err(_) => return encode_stream_open_response(false, Some("bad_signature")),
        };
        if s.value.len() != TRUNCATED_HASH_LEN {
            return encode_stream_open_response(false, Some("bad_delivery_hash"));
        }
        let expected: Vec<u8> = lxmf_delivery_hash_from_pubkey(s.public_key.as_slice());
        if !same_bytes(expected.as_slice(), s.value.as_slice()) {
            return encode_stream_open_response(false, Some("delivery_mismatch"));
        }
        if !self.config.lxmf_propagation_enabled {
            return encode_stream_open_response(false, Some("feature_disabled"));
        }
        match self.propagation_streams.register(link, copied(s.value.as_slice())) {
            Err(code) => encode_stream_open_response(false, Some(code)),
            Ok(()) => encode_stream_open_response(true, None),
        }
    }
}

/// A stream of channels is opened exactly where there is a link, the request is
/// signed, it names channels, and its signer is subscribed to every one of
/// them. What fails first in this order is the reason that is given.
pub proof fn law_who_may_stream_channels(
    subs: Seq<Subscription>,
    link: Option<Seq<u8>>,
    signed: Result<Signed, PayloadError>,
    on: spec_fn(Seq<u8>) -> bool,
)
    requires
        signed matches Ok(s) ==> forall|c: Seq<u8>| #[trigger]
            on(c) <==> exists|k: int|
                0 <= k < subs.len() && (#[trigger] subs[k]).subscriber == s.identity_hash@ && subs[k].channel == c,
    ensures
        link is None ==> channel_stream_refusal(subs, link, signed) == Some("no_link"@),
        link is Some && signed is Err ==> channel_stream_refusal(subs, link, signed) == Some("bad_signature"@),
        link is Some && signed is Ok && requested_channels(signed->Ok_0) is Err ==> channel_stream_refusal(
            subs,
            link,
            signed,
        ) == Some("bad_channel_config"@),
        link is Some && (signed matches Ok(s) && requested_channels(s) is Ok) ==> {
            let asked = requested_channels(signed->Ok_0)->Ok_0;
            &&& (forall|i: int| 0 <= i < asked.len() ==> on(#[trigger] asked[i])) ==> channel_stream_refusal(
                subs,
                link,
                signed,
            ) is None
            &&& (exists|i: int| 0 <= i < asked.len() && !on(#[trigger] asked[i])) ==> channel_stream_refusal(
                subs,
                link,
                signed,
            ) == Some("not_subscribed"@)
        },
{
    if link is Some && (signed matches Ok(s) && requested_channels(s) is Ok) {
        let asked = requested_channels(signed->Ok_0)->Ok_0;
        let who = signed->Ok_0.identity_hash@;
        assert forall|i: int| 0 <= i < asked.len() implies (subscribed(subs, who, #[trigger] asked[i]) <==> on(
            asked[i],
        )) by {}
        if forall|i: int| 0 <= i < asked.len() ==> on(#[trigger] asked[i]) {
            assert(subscribed_to_all(subs, who, asked));
        }
    }
}

/// A stream of messages is opened exactly where there is a link, the request is
/// signed, it names the hash under which the signer's messages come in, the
/// node passes messages on, and no stream is open on the link. What fails first
/// in this order is the reason that is given.
pub proof fn law_who_may_stream_messages(
    config: NodeConfig,
    streams: Seq<(Seq<u8>, Seq<u8>)>,
    link: Seq<u8>,
    signed: Signed,
)
    ensures
        ({
            let r = message_stream_refusal(config, streams, Some(link), Ok(signed));
            let length = signed.value@.len() == 16;
            let own = delivery_hash_of(signed.public_key@) == signed.value@;
            let open = exists|i: int| 0 <= i < streams.len() && (#[trigger] streams[i]).0 == link;
            &&& r is None <==> length && own && config.lxmf_propagation_enabled && !open
            &&& !length ==> r == Some("bad_delivery_hash"@)
            &&& length && !own ==> r == Some("delivery_mismatch"@)
            &&& length && own && !config.lxmf_propagation_enabled ==> r == Some("feature_disabled"@)
            &&& length && own && config.lxmf_propagation_enabled && open ==> r == Some("already_open"@)
        }),
{
}

/// Without a link, and without a signature that holds, no stream of messages is
/// opened.
pub proof fn law_no_stream_without_link_and_signature(
    config: NodeConfig,
    streams: Seq<(Seq<u8>, Seq<u8>)>,
    link: Seq<u8>,
    signed: Result<Signed, PayloadError>,
    e: PayloadError,
)
    ensures
        message_stream_refusal(config, streams, None, signed) == Some("no_link"@),
        message_stream_refusal(config, streams, Some(link), Err(e)) == Some("bad_signature"@),
{
}

/// The answer to a request for a stream says that it is open exactly where it
/// was not refused, and the reason where it was.
pub proof fn law_refusal_is_answered(reason: Seq<char>)
    ensures
        stream_reply(None) == msgpack_write(Packed::Array(seq![Packed::Boolean(true), Packed::Nil])),
        stream_reply(Some(reason)) == msgpack_write(Packed::Array(seq![Packed::Boolean(false), Packed::Str(reason)])),
{
    crate::destinations::payload::law_answers_are_pairs(true, reason, 0);
    crate::destinations::payload::law_answers_are_pairs(false, reason, 0);
}

/// A stream of channels that is opened is there for its link and its subscriber,
/// and one that is refused changes nothing.
pub proof fn law_opened_stream_is_there(
    node: &mut FedNode,
    link_id: Option<&[u8]>,
    signed: Result<Signed, PayloadError>,
    r: Vec<u8>,
)
    requires
        call_ensures(FedNode::on_channel_stream_open, (node, link_id, signed), r),
    ensures
        ({
            let refusal = channel_stream_refusal(
                old(node).subscription_table@,
                channel_view(link_id),
                signed,
            );
            &&& refusal is Some ==> *final(node) == *old(node) && r@ == msgpack_write(
                Packed::Array(seq![Packed::Boolean(false), Packed::Str(refusal->0)]),
            )
            &&& refusal is None ==> r@ == msgpack_write(Packed::Array(seq![Packed::Boolean(true), Packed::Nil]))
            &&& refusal is None ==> exists|i: int|
                0 <= i < final(node).channel_streams@.len() && (#[trigger] final(node).channel_streams@[i]).0
                    == link_id->0@ && final(node).channel_streams@[i].1.subscriber == signed->Ok_0.identity_hash@
        }),
{
    let refusal = channel_stream_refusal(old(node).subscription_table@, channel_view(link_id), signed);
    if refusal is Some {
        law_refusal_is_answered(refusal->0);
    } else {
        law_refusal_is_answered(Seq::empty());
        let kept = old(node).channel_streams@.filter(keeps_stream_of(link_id->0@, signed->Ok_0.identity_hash@));
        let new = ChannelStream {
            subscriber: signed->Ok_0.identity_hash@,
            channels: requested_channels(signed->Ok_0)->Ok_0,
        };
        let after = put(kept, link_id->0@, new);
        if has_key(kept, link_id->0@) {
            let k = choose|k: int| 0 <= k < kept.len() && (#[trigger] kept[k]).0 == link_id->0@;
            assert(after[k] == (link_id->0@, new));
        } else {
            assert(after[kept.len() as int] == (link_id->0@, new));
        }
    }
}

/// A stream of messages that is opened is there for its link, and one that is
/// refused changes nothing.
pub proof fn law_opened_message_stream_is_there(
    node: &mut FedNode,
    link_id: Option<&[u8]>,
    signed: Result<Signed, PayloadError>,
    r: Vec<u8>,
)
    requires
        call_ensures(FedNode::on_propagation_stream_open, (node, link_id, signed), r),
    ensures
        link_id is None || signed is Err || !old(node).config.lxmf_propagation_enabled
            ==> final(node).propagation_streams@ == old(node).propagation_streams@,
        link_id is Some && signed is Ok && signed->Ok_0.value@.len() == 16 && delivery_hash_of(
            signed->Ok_0.public_key@,
        ) == signed->Ok_0.value@ && old(node).config.lxmf_propagation_enabled && (forall|i: int|
            0 <= i < old(node).propagation_streams@.len() ==> (#[trigger] old(node).propagation_streams@[i]).0
                != link_id->0@) ==> {
            &&& final(node).propagation_streams@.len() > 0
            &&& final(node).propagation_streams@.last() == (link_id->0@, signed->Ok_0.value@)
            &&& r@ == msgpack_write(Packed::Array(seq![Packed::Boolean(true), Packed::Nil]))
        },
{
    if link_id is Some && signed is Ok {
        law_who_may_stream_messages(
            old(node).config,
            old(node).propagation_streams@,
            link_id->0@,
            signed->Ok_0,
        );
        law_refusal_is_answered(Seq::empty());
    }
}

} // verus!
