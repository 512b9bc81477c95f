//! The keys and the address of a channel, which follow from its name alone.
//!
//! Anyone who knows the name arrives at the same keys:
//!
//! ```text
//! seed          = sha256(channel_name)
//! channel_hash  = sha256(x25519_pub(seed) || ed25519_pub(seed))[..16]
//! ```
//!
//! The name of a channel that anyone may find starts with the segment
//! `public`; that of a private one is a secret.
use vstd::prelude::*;
use vstd::slice::slice_subrange;
use vstd::utf8::encode_utf8;
use crate::digest::{dotted_name, join_name, sha256, sha256_of, texts, truncated_hash, truncated_hash_of};
use crate::octets::{copied, joined};

verus! {

/// The bytes of a key.
pub const KEY_LEN: usize = 32;

/// The X25519 public key of a 32-byte secret.
pub uninterp spec fn x25519_public_of(secret: Seq<u8>) -> Seq<u8>;

/// The Ed25519 public key of a 32-byte secret.
pub uninterp spec fn ed25519_public_of(secret: Seq<u8>) -> Seq<u8>;

/// `x25519_dalek::PublicKey::from` of the `StaticSecret` that holds these
/// bytes: a public key of 32 bytes.
#[verifier::external_body]
fn x25519_public(secret: &[u8]) -> (r: Vec<u8>)
    requires
        secret@.len() == KEY_LEN,
    ensures
        r@ == x25519_public_of(secret@),
        r@.len() == KEY_LEN,
{
    let bytes: [u8; 32] = secret.try_into().unwrap();
    let secret = x25519_dalek::StaticSecret::from(bytes);
    x25519_dalek::PublicKey::from(&secret).as_bytes().to_vec()
}

/// `ed25519_dalek::PublicKey::from` of the `SecretKey` that holds these bytes:
/// a public key of 32 bytes. Any 32 bytes are a secret key.
#[verifier::external_body]
fn ed25519_public(secret: &[u8]) -> (r: Vec<u8>)
    requires
        secret@.len() == KEY_LEN,
    ensures
        r@ == ed25519_public_of(secret@),
        r@.len() == KEY_LEN,
{
    let secret = ed25519_dalek::SecretKey::from_bytes(secret).unwrap();
    ed25519_dalek::PublicKey::from(&secret).as_bytes().to_vec()
}

/// The keys of a channel.
pub struct ChannelKeypair {
    pub name: String,
    pub x25519_secret: Vec<u8>,
    pub x25519_public: Vec<u8>,
    pub ed25519_secret: Vec<u8>,
    pub ed25519_public: Vec<u8>,
}

/// The seed of a channel's keys: the digest of its name.
pub open spec fn seed_of(name: Seq<char>) -> Seq<u8> {
    sha256_of(encode_utf8(name))
}

/// The public keys of a channel.
pub open spec fn bundle_of(name: Seq<char>) -> Seq<u8> {
    x25519_public_of(seed_of(name)) + ed25519_public_of(seed_of(name))
}

/// The address of a channel.
pub open spec fn channel_hash_of(name: Seq<char>) -> Seq<u8> {
    truncated_hash_of(bundle_of(name))
}

/// A name made of segments with dots between them.
pub open spec fn joined_path(segments: Seq<Seq<char>>) -> Seq<char> {
    if segments.len() == 0 {
        Seq::empty()
    } else {
        dotted_name(segments[0], segments.skip(1))
    }
}

impl ChannelKeypair {
    /// Whether these are the keys of the channel of this name.
    pub open spec fn is_of(&self, name: Seq<char>) -> bool {
        &&& self.name@ == name
        &&& self.x25519_secret@ == seed_of(name)
        &&& self.ed25519_secret@ == seed_of(name)
        &&& self.x25519_public@ == x25519_public_of(seed_of(name))
        &&& self.ed25519_public@ == ed25519_public_of(seed_of(name))
        &&& self.x25519_public@.len() == KEY_LEN
        &&& self.ed25519_public@.len() == KEY_LEN
    }

    /// The keys of the channel of this name.
    pub fn from_name(name: &str) -> (r: Self)
        ensures
            r.is_of(name@),
    {
        let seed: Vec<u8> = sha256(name.as_bytes());
        ChannelKeypair {
            name: name.to_owned(),
            x25519_public: x25519_public(seed.as_slice()),
            ed25519_public: ed25519_public(seed.as_slice()),
            x25519_secret: copied(seed.as_slice()),
            ed25519_secret: seed,
        }
    }

    /// The keys of the channel whose name is made of these segments.
    pub fn from_path(segments: &[&str]) -> (r: Self)
        ensures
            r.is_of(joined_path(texts(segments@))),
    {
        if segments.len() == 0 {
            proof {
                reveal_strlit("");
                assert(""@ =~= Seq::empty());
            }
            return ChannelKeypair::from_name("");
        }
        let rest: &[&str] = slice_subrange(segments, 1, segments.len());
        assert(texts(rest@) =~= texts(segments@).skip(1));
        let name: String = join_name(segments[0], rest);
        ChannelKeypair::from_name(name.as_str())
    }

    /// The public keys, the one for encryption first.
    pub fn public_key_bundle(&self) -> (r: Vec<u8>)
        ensures
            r@ == self.x25519_public@ + self.ed25519_public@,
    {
        joined(self.x25519_public.as_slice(), self.ed25519_public.as_slice())
    }

    /// The secret keys, the one for encryption first.
    pub fn private_key_bundle(&self) -> (r: Vec<u8>)
        ensures
            r@ == self.x25519_secret@ + self.ed25519_secret@,
    {
        joined(self.x25519_secret.as_slice(), self.ed25519_secret.as_slice())
    }

    /// The address of the channel.
    pub fn hash(&self) -> (r: Vec<u8>)
        ensures
            r@ == truncated_hash_of(self.x25519_public@ + self.ed25519_public@),
            r@.len() == 16,
    {
        truncated_hash(self.public_key_bundle().as_slice())
    }
}

/// Two parties that know the name of a channel arrive at the same keys and at
/// the same address.
pub proof fn law_name_determines_address(a: ChannelKeypair, b: ChannelKeypair, name: Seq<char>)
    requires
        a.is_of(name),
        b.is_of(name),
    ensures
        a.x25519_secret@ == b.x25519_secret@,
        a.ed25519_secret@ == b.ed25519_secret@,
        a.x25519_public@ + a.ed25519_public@ == bundle_of(name),
        b.x25519_public@ + b.ed25519_public@ == bundle_of(name),
        truncated_hash_of(a.x25519_public@ + a.ed25519_public@) == channel_hash_of(name),
{
}

} // verus!
