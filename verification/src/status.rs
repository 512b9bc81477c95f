//! What a node writes down about itself for its operator.
use vstd::prelude::*;
use crate::destinations::fed_node::Service;
use crate::destinations::APP_NAME;
use crate::digest::{dotted_name, join_name};
use crate::text::{decimal, decimal_text, hex, hex_text};

verus! {

/// The quotient of `n` and `unit`, rounded to the nearest whole number, and to
/// the even one of two that are as near.
pub open spec fn rounded(n: int, unit: int) -> int {
    let q = n / unit;
    let rest = n % unit;
    if 2 * rest > unit || (2 * rest == unit && q % 2 == 1) {
        q + 1
    } else {
        q
    }
}

/// A number of bytes in larger units, with one decimal.
pub open spec fn in_units(b: u64, unit: int, name: Seq<char>) -> Seq<char> {
    let tenths = rounded(10 * b, unit);
    decimal_text((tenths / 10) as nat) + "."@ + decimal_text((tenths % 10) as nat) + name
}

/// A number of bytes for the eye.
pub open spec fn bytes_text(b: u64) -> Seq<char> {
    if b < 1024 {
        decimal_text(b as nat) + " B"@
    } else if b < 1_048_576 {
        in_units(b, 1024, " KiB"@)
    } else {
        in_units(b, 1_048_576, " MiB"@)
    }
}

fn unit_text(b: u64, unit: u64, name: &str) -> (r: String)
    requires
        unit == 1024 || unit == 1_048_576,
    ensures
        r@ == in_units(b, unit as int, name@),
{
    let n: u128 = 10 * (b as u128);
    let q: u128 = n / (unit as u128);
    let rest: u128 = n % (unit as u128);
    let up: bool = 2 * rest > unit as u128 || (2 * rest == unit as u128 && q % 2 == 1);
    let tenths: u128 = if up {
        q + 1
    } else {
        q
    };
    assert(tenths == rounded(10 * b, unit as int));
    assert(tenths / 10 <= u64::MAX);
    let whole: String = decimal((tenths / 10) as u64);
    whole.concat(".").concat(decimal((tenths % 10) as u64).as_str()).concat(name)
}

/// A number of bytes for the eye, as [`bytes_text`] says.
pub fn format_bytes(b: u64) -> (r: String)
    ensures
        r@ == bytes_text(b),
{
    if b < 1024 {
        decimal(b).concat(" B")
    } else if b < 1_048_576 {
        unit_text(b, 1024, " KiB")
    } else {
        unit_text(b, 1_048_576, " MiB")
    }
}

/// A network interface, as it stands.
pub struct InterfaceStatus {
    pub name: String,
    pub online: bool,
    pub address: Option<String>,
    pub port: Option<u16>,
    pub rx_bytes: u64,
    pub tx_bytes: u64,
}

/// What a node writes down.
pub struct NodeStatus {
    pub node_name: String,
    pub identity_hash: Vec<u8>,
    /// The address for propagated messages, where the node takes them.
    pub propagation_hash: Option<Vec<u8>>,
    /// What the node was built from.
    pub commit: String,
    pub interfaces: Vec<InterfaceStatus>,
    pub uptime_secs: u64,
    pub subscribers: usize,
    pub blobs: usize,
    pub notify_registrations: usize,
}

/// The text of a truth value.
pub open spec fn bool_text(b: bool) -> Seq<char> {
    if b {
        "true"@
    } else {
        "false"@
    }
}

/// What is written down of an interface.
pub open spec fn interface_text(i: InterfaceStatus) -> Seq<char> {
    let head = "    {\n      \"name\": \""@ + i.name@ + "\",\n      \"connected\": "@ + bool_text(i.online) + ","@;
    let address = match i.address {
        Some(a) => head + "\n      \"address\": \""@ + a@ + "\","@,
        None => head,
    };
    let port = match i.port {
        Some(p) => address + "\n      \"port\": "@ + decimal_text(p as nat) + ","@,
        None => address,
    };
    port + "\n      \"rx_bytes\": "@ + decimal_text(i.rx_bytes as nat) + ",\n      \"tx_bytes\": "@ + decimal_text(
        i.tx_bytes as nat,
    ) + "\n    }"@
}

/// What is written down of a list of interfaces.
pub open spec fn interfaces_text(list: Seq<InterfaceStatus>) -> Seq<char>
    decreases list.len(),
{
    if list.len() == 0 {
        Seq::empty()
    } else if list.len() == 1 {
        interface_text(list[0])
    } else {
        interfaces_text(list.drop_last()) + ",\n"@ + interface_text(list.last())
    }
}

/// The order in which the destinations are written down.
pub open spec fn listed_services() -> Seq<Service> {
    seq![
        Service::Node,
        Service::Delivery,
        Service::Channel,
        Service::Notify,
        Service::ChannelSubscribe,
        Service::ChannelUnsubscribe,
        Service::ChannelPublish,
        Service::ChannelPull,
        Service::ChannelStream,
        Service::PropagationStream,
        Service::NotifyRegister,
        Service::NotifyUnregister,
        Service::DistroRegister,
        Service::DistroUnregister,
        Service::DistroList,
    ]
}

/// What is written down of a list of destinations: a name and a hash each.
pub open spec fn destinations_text(services: Seq<Service>, identity: Seq<u8>) -> Seq<char>
    decreases services.len(),
{
    if services.len() == 0 {
        Seq::empty()
    } else {
        let s = services.last();
        destinations_text(services.drop_last(), identity) + "    \""@ + dotted_name(APP_NAME@, s.spec_aspects())
            + "\": \""@ + hex_text(s.hash_of(identity)) + "\",\n"@
    }
}

/// The first seven characters of the name of a commit.
pub open spec fn short_commit(commit: Seq<char>) -> Seq<char> {
    if commit.len() >= 7 {
        commit.take(7)
    } else {
        commit
    }
}

/// The hexadecimal text of a hash that may be absent.
pub open spec fn opt_hex(h: Option<Vec<u8>>) -> Seq<char> {
    match h {
        Some(b) => hex_text(b@),
        None => Seq::empty(),
    }
}

/// Everything that a node writes down.
pub open spec fn status_text(s: NodeStatus) -> Seq<char> {
    let head = "{\n  \"node_name\": \""@ + s.node_name@ + "\",\n  \"identity\": \""@ + hex_text(s.identity_hash@)
        + "\",\n  \"destinations\": {\n"@;
    let destinations = head + destinations_text(listed_services(), s.identity_hash@) + "    \"lxmf.propagation\": \""@
        + opt_hex(s.propagation_hash) + "\"\n  },\n  \"distro_marker\": \"DISTRO_ENABLED_v1\",\n  \"commit_hash\": \""@
        + short_commit(s.commit@) + "\",\n"@;
    let interfaces = if s.interfaces@.len() == 0 {
        destinations + "  \"interfaces\": [],\n"@
    } else {
        destinations + "  \"interfaces\": [\n"@ + interfaces_text(s.interfaces@) + "\n  ],\n"@
    };
    interfaces + "  \"stats\": {\n    \"uptime_secs\": "@ + decimal_text(s.uptime_secs as nat)
        + ",\n    \"subscribers\": "@ + decimal_text(s.subscribers as nat) + ",\n    \"blobs\": "@ + decimal_text(
        s.blobs as nat,
    ) + ",\n    \"notify_registrations\": "@ + decimal_text(s.notify_registrations as nat) + "\n  }\n}\n"@
}

fn write_interface(i: &InterfaceStatus) -> (r: String)
    ensures
        r@ == interface_text(*i),
{
    let head: String = "    {\n      \"name\": \"".to_owned();
    let online: &str = if i.online {
        "true"
    } else {
        "false"
    };
    let mut out: String = head.concat(i.name.as_str()).concat("\",\n      \"connected\": ").concat(online).concat(",");
    if let Some(a) = &i.address {
        out = out.concat("\n      \"address\": \"").concat(a.as_str()).concat("\",");
    }
    if let Some(p) = i.port {
        out = out.concat("\n      \"port\": ").concat(decimal(p as u64).as_str()).concat(",");
    }
    out.concat("\n      \"rx_bytes\": ").concat(decimal(i.rx_bytes).as_str()).concat(",\n      \"tx_bytes\": ").concat(
        decimal(i.tx_bytes).as_str(),
    ).concat("\n    }")
}

fn write_interfaces(list: &Vec<InterfaceStatus>) -> (r: String)
    ensures
        r@ == interfaces_text(list@),
{
    let mut out: String = String::new();
    let mut i: usize = 0;
    assert(out@ =~= interfaces_text(list@.take(0)));
    while i < list.len()
        invariant
            0 <= i <= list@.len(),
            out@ == interfaces_text(list@.take(i as int)),
        decreases list@.len() - i,
    {
        proof {
            assert(list@.take(i + 1).drop_last() =~= list@.take(i as int));
            assert(list@.take(i + 1).last() == list@[i as int]);
            assert(list@.take(i + 1)[0] == list@[0]);
        }
        let text: String = write_interface(&list[i]);
        if i == 0 {
            out = text;
        } else {
            out = out.concat(",\n").concat(text.as_str());
        }
        i += 1;
    }
    assert(list@.take(list@.len() as int) =~= list@);
    out
}

fn write_destinations(identity_hash: &[u8]) -> (r: String)
    ensures
        r@ == destinations_text(listed_services(), identity_hash@),
{
    let order: Vec<Service> = vec![
        Service::Node,
        Service::Delivery,
        Service::Channel,
        Service::Notify,
        Service::ChannelSubscribe,
        Service::ChannelUnsubscribe,
        Service::ChannelPublish,
        Service::ChannelPull,
        Service::ChannelStream,
        Service::PropagationStream,
        Service::NotifyRegister,
        Service::NotifyUnregister,
        Service::DistroRegister,
        Service::DistroUnregister,
        Service::DistroList,
    ];
    assert(order@ =~= listed_services());
    let mut out: String = String::new();
    let mut i: usize = 0;
    assert(out@ =~= destinations_text(order@.take(0), identity_hash@));
    while i < order.len()
        invariant
            0 <= i <= order@.len(),
            out@ == destinations_text(order@.take(i as int), identity_hash@),
        decreases order@.len() - i,
    {
        proof {
            assert(order@.take(i + 1).drop_last() =~= order@.take(i as int));
            assert(order@.take(i + 1).last() == order@[i as int]);
        }
        let s: Service = order[i];
        let name: String = join_name(APP_NAME, s.aspects().as_slice());
        let hash: Vec<u8> = s.hash(identity_hash);
        out = out.concat("    \"").concat(name.as_str()).concat("\": \"").concat(hex(hash.as_slice()).as_str()).concat(
            "\",\n",
        );
        i += 1;
    }
    assert(order@.take(order@.len() as int) =~= order@);
    out
}

/// Everything that a node writes down, as [`status_text`] says.
pub fn write_status(s: &NodeStatus) -> (r: String)
    ensures
        r@ == status_text(*s),
{
    let head: String = "{\n  \"node_name\": \"".to_owned();
    let mut out: String = head.concat(s.node_name.as_str()).concat("\",\n  \"identity\": \"").concat(
        hex(s.identity_hash.as_slice()).as_str(),
    ).concat("\",\n  \"destinations\": {\n");
    let propagation: String = match &s.propagation_hash {
        Some(h) => hex(h.as_slice()),
        None => String::new(),
    };
    assert(propagation@ =~= opt_hex(s.propagation_hash));
    let commit: String = if s.commit.as_str().unicode_len() >= 7 {
        s.commit.as_str().substring_char(0, 7).to_owned()
    } else {
        s.commit.as_str().to_owned()
    };
    assert(commit@ =~= short_commit(s.commit@));
    out = out.concat(write_destinations(s.identity_hash.as_slice()).as_str()).concat(
        "    \"lxmf.propagation\": \"",
    ).concat(propagation.as_str()).concat(
        "\"\n  },\n  \"distro_marker\": \"DISTRO_ENABLED_v1\",\n  \"commit_hash\": \"",
    ).concat(commit.as_str()).concat("\",\n");
    if s.interfaces.len() == 0 {
        out = out.concat("  \"interfaces\": [],\n");
    } else {
        out = out.concat("  \"interfaces\": [\n").concat(write_interfaces(&s.interfaces).as_str()).concat("\n  ],\n");
    }
    out.concat("  \"stats\": {\n    \"uptime_secs\": ").concat(decimal(s.uptime_secs).as_str()).concat(
        ",\n    \"subscribers\": ",
    ).concat(decimal(s.subscribers as u64).as_str()).concat(",\n    \"blobs\": ").concat(
        decimal(s.blobs as u64).as_str(),
    ).concat(",\n    \"notify_registrations\": ").concat(decimal(s.notify_registrations as u64).as_str()).concat(
        "\n  }\n}\n",
    )
}

/// A number is rounded to the nearest multiple of the unit, and one that lies
/// in the middle to the even one.
pub proof fn law_rounded_to_the_nearest(n: int, unit: int)
    requires
        0 <= n,
        0 < unit,
    ensures
        -unit <= 2 * (rounded(n, unit) * unit - n) <= unit,
        2 * (rounded(n, unit) * unit - n) == unit || 2 * (rounded(n, unit) * unit - n) == -unit ==> rounded(n, unit) % 2
            == 0,
{
    let q = n / unit;
    let rest = n % unit;
    vstd::arithmetic::div_mod::lemma_fundamental_div_mod(n, unit);
    assert(unit * q + rest == n);
    assert(0 <= rest < unit) by (nonlinear_arith)
        requires
            rest == n % unit,
            0 < unit,
    ;
    assert(q * unit == unit * q) by (nonlinear_arith);
    assert((q + 1) * unit == unit * q + unit) by (nonlinear_arith);
}

/// The interfaces are listed in their order with a comma between any two.
pub proof fn law_interfaces_are_listed(list: Seq<InterfaceStatus>, i: InterfaceStatus)
    ensures
        interfaces_text(seq![i]) == interface_text(i),
        list.len() > 0 ==> interfaces_text(list.push(i)) == interfaces_text(list) + ",\n"@ + interface_text(i),
{
    if list.len() > 0 {
        assert(list.push(i).drop_last() =~= list);
    }
}

/// The destinations are listed in their order, each with its name and its hash.
pub proof fn law_destinations_are_listed(a: Seq<Service>, b: Seq<Service>, identity: Seq<u8>)
    ensures
        destinations_text(a + b, identity) == destinations_text(a, identity) + destinations_text(b, identity),
        destinations_text(Seq::empty(), identity).len() == 0,
    decreases b.len(),
{
    if b.len() == 0 {
        assert(a + b =~= a);
        assert(destinations_text(a, identity) + destinations_text(b, identity) =~= destinations_text(a, identity));
    } else {
        law_destinations_are_listed(a, b.drop_last(), identity);
        assert((a + b).drop_last() =~= a + b.drop_last());
        assert((a + b).last() == b.last());
        assert(destinations_text(a + b, identity) =~= destinations_text(a, identity) + destinations_text(b, identity));
    }
}

/// Sizes below a kibibyte are given in bytes, and larger ones in the largest unit
/// of which there is one, with one digit behind the point.
pub proof fn law_unit_of_a_size(b: u64)
    ensures
        b < 1024 ==> bytes_text(b) == decimal_text(b as nat) + " B"@,
        1024 <= b < 1024 * 1024 ==> bytes_text(b) == in_units(b, 1024, " KiB"@),
        b >= 1024 * 1024 ==> bytes_text(b) == in_units(b, 1_048_576, " MiB"@),
{
}

/// The size of a whole number of units is that number, with a zero behind the
/// point.
pub proof fn law_whole_units(n: u64, unit: int, name: Seq<char>)
    requires
        0 < unit,
        n * unit <= u64::MAX,
    ensures
        in_units((n * unit) as u64, unit, name) == decimal_text(n as nat) + "."@ + decimal_text(0) + name,
{
    let b = (n * unit) as u64;
    assert(0 <= n * unit) by (nonlinear_arith)
        requires
            0 < unit,
            0 <= n,
    ;
    assert(10 * b == (10 * n) * unit) by (nonlinear_arith)
        requires
            b == n * unit,
    ;
    assert((10 * b) / unit == 10 * n && (10 * b) % unit == 0) by (nonlinear_arith)
        requires
            10 * b == (10 * n) * unit,
            0 < unit,
    ;
}

/// A commit is named by its first seven letters, or by all where it has fewer.
pub proof fn law_short_name_of_a_commit(commit: Seq<char>)
    ensures
        commit.len() <= 7 ==> short_commit(commit) == commit,
        commit.len() > 7 ==> short_commit(commit) == commit.subrange(0, 7),
        bool_text(true) == "true"@,
        bool_text(false) == "false"@,
{
    if commit.len() == 7 {
        assert(commit.take(7) =~= commit);
    }
}

/// The status lists the interfaces where there are any, and says that there are
/// none where there are none.
pub proof fn law_status_lists_the_interfaces(s: NodeStatus)
    ensures
        s.interfaces@.len() > 0 ==> exists|a: Seq<char>, b: Seq<char>| #[trigger]
            (a + interfaces_text(s.interfaces@) + b) == status_text(s),
        s.interfaces@.len() == 0 ==> exists|a: Seq<char>, b: Seq<char>| #[trigger]
            (a + "  \"interfaces\": [],\n"@ + b) == status_text(s),
{
    let head = "{\n  \"node_name\": \""@ + s.node_name@ + "\",\n  \"identity\": \""@ + hex_text(s.identity_hash@)
        + "\",\n  \"destinations\": {\n"@;
    let destinations = head + destinations_text(listed_services(), s.identity_hash@) + "    \"lxmf.propagation\": \""@
        + opt_hex(s.propagation_hash) + "\"\n  },\n  \"distro_marker\": \"DISTRO_ENABLED_v1\",\n  \"commit_hash\": \""@
        + short_commit(s.commit@) + "\",\n"@;
    let tail = "  \"stats\": {\n    \"uptime_secs\": "@ + decimal_text(s.uptime_secs as nat)
        + ",\n    \"subscribers\": "@ + decimal_text(s.subscribers as nat) + ",\n    \"blobs\": "@ + decimal_text(
        s.blobs as nat,
    ) + ",\n    \"notify_registrations\": "@ + decimal_text(s.notify_registrations as nat) + "\n  }\n}\n"@;
    if s.interfaces@.len() > 0 {
        let a = destinations + "  \"interfaces\": [\n"@;
        let b = "\n  ],\n"@ + tail;
        assert(a + interfaces_text(s.interfaces@) + b =~= status_text(s));
    } else {
        assert(destinations + "  \"interfaces\": [],\n"@ + tail =~= status_text(s));
    }
}

} // verus!
