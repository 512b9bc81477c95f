//! Digests, and the addresses that are made of them.
use vstd::prelude::*;
use vstd::utf8::encode_utf8;
use sha2::Digest;
use crate::octets::{joined, slice_of};

verus! {

/// The bytes of a truncated digest: an identity hash or a destination hash.
pub const TRUNCATED_HASH_LEN: usize = 16;

/// The bytes of a name digest within a destination hash.
pub const NAME_HASH_LEN: usize = 10;

/// The SHA-256 digest of a byte string.
pub uninterp spec fn sha256_of(data: Seq<u8>) -> Seq<u8>;

/// `sha2::Sha256::digest`: the digest of `data`, 32 bytes long.
#[verifier::external_body]
pub(crate) fn sha256(data: &[u8]) -> (r: Vec<u8>)
    ensures
        r@ == sha256_of(data@),
        r@.len() == 32,
{
    sha2::Sha256::digest(data).to_vec()
}

/// The first 16 bytes of the digest of `data`.
pub open spec fn truncated_hash_of(data: Seq<u8>) -> Seq<u8> {
    sha256_of(data).take(TRUNCATED_HASH_LEN as int)
}

/// The first 16 bytes of the digest of `data`.
pub fn truncated_hash(data: &[u8]) -> (r: Vec<u8>)
    ensures
        r@ == truncated_hash_of(data@),
        r@.len() == TRUNCATED_HASH_LEN,
{
    let full: Vec<u8> = sha256(data);
    slice_of(full.as_slice(), 0, TRUNCATED_HASH_LEN)
}

/// The dotted name of an aspect chain under an application name.
pub open spec fn dotted_name(app_name: Seq<char>, aspects: Seq<Seq<char>>) -> Seq<char>
    decreases aspects.len(),
{
    if aspects.len() == 0 {
        app_name
    } else {
        dotted_name(app_name, aspects.drop_last()) + seq!['.'] + aspects.last()
    }
}

/// The views of a list of strings.
pub open spec fn texts(list: Seq<&str>) -> Seq<Seq<char>> {
    list.map_values(|s: &str| s@)
}

/// The destination hash of the aspect chain `aspects` of `app_name`, as seen
/// by every peer that knows the identity hash.
pub open spec fn destination_hash_of(
    identity_hash: Seq<u8>,
    app_name: Seq<char>,
    aspects: Seq<Seq<char>>,
) -> Seq<u8> {
    truncated_hash_of(
        sha256_of(encode_utf8(dotted_name(app_name, aspects))).take(NAME_HASH_LEN as int)
            + identity_hash,
    )
}

/// Joins an application name and its aspects with dots.
pub fn join_name(app_name: &str, aspects: &[&str]) -> (r: String)
    ensures
        r@ == dotted_name(app_name@, texts(aspects@)),
{
    let mut name: String = app_name.to_owned();
    let mut i: usize = 0;
    assert(texts(aspects@).take(0) =~= Seq::<Seq<char>>::empty());
    while i < aspects.len()
        invariant
            0 <= i <= aspects@.len(),
            name@ == dotted_name(app_name@, texts(aspects@).take(i as int)),
        decreases aspects@.len() - i,
    {
        proof {
            let next = texts(aspects@).take(i + 1);
            assert(next.drop_last() =~= texts(aspects@).take(i as int));
            assert(next.last() == aspects@[i as int]@);
            reveal_strlit(".");
        }
        name = name.concat(".");
        name = name.concat(aspects[i]);
        assert("."@ =~= seq!['.']);
        i += 1;
    }
    assert(texts(aspects@).take(aspects@.len() as int) =~= texts(aspects@));
    name
}

/// The destination hash of an aspect chain:
/// `sha256(sha256("app.aspect...")[..10] || identity_hash)[..16]`.
pub fn destination_hash(identity_hash: &[u8], app_name: &str, aspects: &[&str]) -> (r: Vec<u8>)
    ensures
        r@ == destination_hash_of(identity_hash@, app_name@, texts(aspects@)),
        r@.len() == TRUNCATED_HASH_LEN,
{
    let name: String = join_name(app_name, aspects);
    let full: Vec<u8> = sha256(name.as_str().as_bytes());
    let name_hash: Vec<u8> = slice_of(full.as_slice(), 0, NAME_HASH_LEN);
    assert(name_hash@ =~= sha256_of(encode_utf8(name@)).take(NAME_HASH_LEN as int));
    truncated_hash(joined(name_hash.as_slice(), identity_hash).as_slice())
}

/// The parts of a name stand in their order with a dot before each.
pub proof fn law_parts_of_a_name(app_name: Seq<char>, a: Seq<Seq<char>>, b: Seq<Seq<char>>, part: Seq<char>)
    ensures
        dotted_name(app_name, Seq::empty()) == app_name,
        dotted_name(app_name, seq![part]) == app_name + seq!['.'] + part,
        dotted_name(app_name, a + b) == dotted_name(dotted_name(app_name, a), b),
    decreases b.len(),
{
    assert(seq![part].drop_last() =~= Seq::empty());
    assert(dotted_name(app_name, seq![part].drop_last()) == app_name);
    if b.len() == 0 {
        assert(a + b =~= a);
    } else {
        law_parts_of_a_name(app_name, a, b.drop_last(), part);
        assert((a + b).drop_last() =~= a + b.drop_last());
        assert((a + b).last() == b.last());
    }
}

/// The hash of a destination is made of the first 10 bytes of the digest of its
/// name and of the hash of its identity, and is itself the first 16 bytes of a
/// digest.
pub proof fn law_hash_of_a_destination(identity_hash: Seq<u8>, app_name: Seq<char>, part: Seq<char>)
    ensures
        destination_hash_of(identity_hash, app_name, seq![part]) == sha256_of(
            sha256_of(encode_utf8(app_name + seq!['.'] + part)).subrange(0, 10) + identity_hash,
        ).subrange(0, 16),
{
    law_parts_of_a_name(app_name, Seq::empty(), Seq::empty(), part);
}

} // verus!
