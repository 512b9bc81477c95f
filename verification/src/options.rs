//! The options of the program, and what they make of the configuration.
//!
//! What the command line says counts before what the configuration file says,
//! and that before what is set where neither says anything.
use vstd::prelude::*;
use crate::clock::SECOND;
use crate::config::{path_in, join_path, NodeConfig, TierPolicy};
use crate::destinations::notify_command::opt_string;
use crate::octets::{opt_view, views};
use crate::text::{decode_hex, hex_bytes, parse_u32, parse_u64, text_views, trimmed, trimmed_text, u32_of, u64_of};

verus! {

/// The bytes of the hash of a node.
pub const NODE_HASH_LEN: usize = 16;

/// The bytes of a megabyte.
pub const MEGABYTE: u64 = 1_048_576;

/// The value behind the first occurrence of a flag that has one behind it.
pub open spec fn value_after(args: Seq<Seq<char>>, flag: Seq<char>) -> Option<Seq<char>>
    decreases args.len(),
{
    if args.len() < 2 {
        None
    } else if args[0] == flag {
        Some(args[1])
    } else {
        value_after(args.skip(1), flag)
    }
}

/// The contents of an optional text.
pub open spec fn opt_str(s: Option<&str>) -> Option<Seq<char>> {
    match s {
        Some(t) => Some(t@),
        None => None,
    }
}

/// The value of a flag, as [`value_after`] says.
pub fn arg_value<'a>(args: &'a [String], flag: &str) -> (r: Option<&'a str>)
    ensures
        opt_str(r) == value_after(text_views(args@), flag@),
{
    let wanted: String = flag.to_owned();
    let ghost all = text_views(args@);
    let n: usize = args.len();
    let mut i: usize = 0;
    assert(all.skip(0) =~= all);
    while i < n && n - i >= 2
        invariant
            0 <= i <= n,
            n == args@.len(),
            all == text_views(args@),
            wanted@ == flag@,
            value_after(all, flag@) == value_after(all.skip(i as int), flag@),
        decreases args@.len() - i,
    {
        proof {
            assert(all.skip(i as int)[0] == args@[i as int]@);
            assert(all.skip(i as int)[1] == args@[i + 1]@);
            assert(all.skip(i as int).skip(1) =~= all.skip(i + 1));
        }
        if args[i] == wanted {
            return Some(args[i + 1].as_str());
        }
        i += 1;
    }
    None
}

/// Whether a flag is given.
pub fn has_flag(args: &[String], flag: &str) -> (r: bool)
    ensures
        r == text_views(args@).contains(flag@),
{
    let wanted: String = flag.to_owned();
    let ghost all = text_views(args@);
    let mut i: usize = 0;
    while i < args.len()
        invariant
            0 <= i <= args@.len(),
            all == text_views(args@),
            wanted@ == flag@,
            forall|j: int| 0 <= j < i ==> #[trigger] all[j] != flag@,
        decreases args@.len() - i,
    {
        assert(all[i as int] == args@[i as int]@);
        if args[i] == wanted {
            return true;
        }
        i += 1;
    }
    false
}

/// The values of a flag that may be given more than once, from position `i`
/// on.
pub open spec fn values_after(args: Seq<Seq<char>>, flag: Seq<char>, i: int) -> Seq<Seq<char>>
    decreases args.len() - i,
{
    if i < 0 || i >= args.len() {
        Seq::empty()
    } else if args[i] == flag && i + 1 < args.len() {
        seq![args[i + 1]] + values_after(args, flag, i + 2)
    } else {
        values_after(args, flag, i + 1)
    }
}

/// The values of a flag that may be given more than once, behind the name of
/// the program.
pub fn arg_values(args: &[String], flag: &str) -> (r: Vec<String>)
    ensures
        text_views(r@) == values_after(text_views(args@), flag@, 1),
{
    let wanted: String = flag.to_owned();
    let ghost all = text_views(args@);
    let ghost want = values_after(all, flag@, 1);
    let mut out: Vec<String> = Vec::new();
    let n: usize = args.len();
    let mut i: usize = 1;
    assert(text_views(out@) + want =~= want);
    while i < n
        invariant
            1 <= i,
            n == args@.len(),
            want == values_after(all, flag@, 1),
            all == text_views(args@),
            wanted@ == flag@,
            text_views(out@) + values_after(all, flag@, i as int) == want,
        decreases n - i,
    {
        assert(all[i as int] == args@[i as int]@);
        if args[i] == wanted && i < n - 1 {
            let ghost was = text_views(out@);
            let value: String = args[i + 1].as_str().to_owned();
            out.push(value);
            proof {
                assert(all[i + 1] == args@[i + 1]@);
                assert(text_views(out@) =~= was.push(value@));
                assert(values_after(all, flag@, i as int) == seq![value@] + values_after(all, flag@, i + 2));
                assert(was + (seq![value@] + values_after(all, flag@, i + 2)) =~= was.push(value@) + values_after(
                    all,
                    flag@,
                    i + 2,
                ));
            }
            if i == n - 2 {
                assert(values_after(all, flag@, i + 2) =~= Seq::empty());
                assert(text_views(out@) + Seq::<Seq<char>>::empty() =~= text_views(out@));
                return out;
            }
            i += 2;
        } else {
            i += 1;
        }
    }
    assert(text_views(out@) + Seq::<Seq<char>>::empty() =~= text_views(out@));
    out
}

/// The hashes that texts stand for, or the first text that stands for none.
pub open spec fn hashes_of(list: Seq<Seq<char>>) -> Result<Seq<Seq<u8>>, Seq<char>>
    decreases list.len(),
{
    if list.len() == 0 {
        Ok(Seq::empty())
    } else {
        match hashes_of(list.drop_last()) {
            Err(e) => Err(e),
            Ok(rest) => match hex_bytes(trimmed_text(list.last())) {
                Some(b) => Ok(rest.push(b)),
                None => Err(list.last()),
            },
        }
    }
}

proof fn lemma_hashes_fail(list: Seq<Seq<char>>, n: int)
    requires
        0 <= n <= list.len(),
        hashes_of(list.take(n)) is Err,
    ensures
        hashes_of(list) == hashes_of(list.take(n)),
    decreases list.len(),
{
    if n == list.len() {
        assert(list.take(n) =~= list);
    } else {
        assert(list.drop_last().take(n) =~= list.take(n));
        lemma_hashes_fail(list.drop_last(), n);
    }
}

/// The hashes that texts stand for; where one stands for none, the error is
/// `complaint` followed by that text.
pub fn parse_hashes(list: &Vec<String>, complaint: &str) -> (r: Result<Vec<Vec<u8>>, String>)
    ensures
        match hashes_of(text_views(list@)) {
            Ok(hashes) => r matches Ok(v) && views(v@) == hashes,
            Err(text) => r matches Err(e) && e@ == complaint@ + text,
        },
{
    let ghost all = text_views(list@);
    let mut out: Vec<Vec<u8>> = Vec::new();
    let mut i: usize = 0;
    assert(views(out@) =~= Seq::empty());
    while i < list.len()
        invariant
            0 <= i <= list@.len(),
            all == text_views(list@),
            hashes_of(all.take(i as int)) == Ok::<Seq<Seq<u8>>, Seq<char>>(views(out@)),
        decreases list@.len() - i,
    {
        proof {
            assert(all.take(i + 1).drop_last() =~= all.take(i as int));
            assert(all.take(i + 1).last() == list@[i as int]@);
        }
        match decode_hex(trimmed(list[i].as_str()).as_str()) {
            Some(b) => {
                let ghost was = views(out@);
                out.push(b);
                assert(views(out@) =~= was.push(b@));
            },
            None => {
                proof {
                    lemma_hashes_fail(all, i + 1);
                }
                let head: String = complaint.to_owned();
                return Err(head.concat(list[i].as_str()));
            },
        }
        i += 1;
    }
    assert(all.take(all.len() as int) =~= all);
    Ok(out)
}

/// The hash of a node that a text stands for.
pub open spec fn node_hash_of(text: Seq<char>) -> Option<Seq<u8>> {
    match hex_bytes(trimmed_text(text)) {
        Some(b) => if b.len() == NODE_HASH_LEN {
            Some(b)
        } else {
            None
        },
        None => None,
    }
}

fn node_hash(text: &str) -> (r: Option<Vec<u8>>)
    ensures
        opt_view(r) == node_hash_of(text@),
{
    match decode_hex(trimmed(text).as_str()) {
        Some(b) => {
            if b.len() == NODE_HASH_LEN {
                Some(b)
            } else {
                None
            }
        },
        None => None,
    }
}

/// The hashes of nodes among texts; what is none is passed over.
pub open spec fn node_hashes_of(list: Seq<Seq<char>>) -> Seq<Seq<u8>>
    decreases list.len(),
{
    if list.len() == 0 {
        Seq::empty()
    } else {
        match node_hash_of(list.last()) {
            Some(b) => node_hashes_of(list.drop_last()).push(b),
            None => node_hashes_of(list.drop_last()),
        }
    }
}

fn node_hashes(list: &Vec<String>) -> (r: Vec<Vec<u8>>)
    ensures
        views(r@) == node_hashes_of(text_views(list@)),
{
    let ghost all = text_views(list@);
    let mut out: Vec<Vec<u8>> = Vec::new();
    let mut i: usize = 0;
    assert(views(out@) =~= Seq::empty());
    while i < list.len()
        invariant
            0 <= i <= list@.len(),
            all == text_views(list@),
            views(out@) == node_hashes_of(all.take(i as int)),
        decreases list@.len() - i,
    {
        proof {
            assert(all.take(i + 1).drop_last() =~= all.take(i as int));
            assert(all.take(i + 1).last() == list@[i as int]@);
        }
        if let Some(b) = node_hash(list[i].as_str()) {
            let ghost was = views(out@);
            out.push(b);
            assert(views(out@) =~= was.push(b@));
        }
        i += 1;
    }
    assert(all.take(all.len() as int) =~= all);
    out
}

/// What a configuration file says of a tier.
#[derive(Clone, Copy, Debug, PartialEq, Eq, Structural)]
pub struct PolicySettings {
    pub stamp_cost: Option<u32>,
    pub stamp_flexibility: Option<u32>,
    pub deferred_queue_limit: Option<usize>,
    pub deferred_pull_batch_limit: Option<usize>,
    pub allow_notify_registration: Option<bool>,
    pub allow_subscription: Option<bool>,
    pub trusted_backup_only: Option<bool>,
}

/// What a configuration file says.
pub struct FileSettings {
    pub name: Option<String>,
    pub announce_interval_minutes: Option<u64>,
    pub announce_at_start: Option<bool>,
    pub lxmf_propagation: Option<bool>,
    pub lxmf_propagation_autopeer: Option<bool>,
    pub default_policy: PolicySettings,
    pub vip_policy: PolicySettings,
    pub vip_subscribers: Vec<String>,
    pub trusted_backup_peers: Vec<String>,
    pub primary_node: Option<String>,
    pub secondary_nodes: Vec<String>,
    /// Time without a sign of an owner after which it is taken to be gone.
    pub owner_offline: Option<u64>,
    pub peering_cost: Option<u32>,
    pub static_peers: Vec<String>,
    pub from_static_only: Option<bool>,
    pub propagation_peers: Vec<String>,
    pub limit_mb: Option<u64>,
    pub transfer_limit_mb: Option<u64>,
    pub sync_limit_mb: Option<u64>,
}

/// The first of two values that is there.
pub open spec fn first_of<A>(a: Option<A>, b: Option<A>) -> Option<A> {
    if a is Some {
        a
    } else {
        b
    }
}

/// A value, or what stands for its absence.
pub open spec fn or_else<A>(a: Option<A>, b: A) -> A {
    match a {
        Some(v) => v,
        None => b,
    }
}

fn or_default<A: Copy>(a: Option<A>, b: A) -> (r: A)
    ensures
        r == or_else(a, b),
{
    match a {
        Some(v) => v,
        None => b,
    }
}

/// The number behind a flag, where there is one.
pub open spec fn u32_arg(args: Seq<Seq<char>>, flag: Seq<char>) -> Option<u32> {
    match value_after(args, flag) {
        Some(text) => u32_of(text),
        None => None,
    }
}

fn u32_value(args: &[String], flag: &str) -> (r: Option<u32>)
    ensures
        r == u32_arg(text_views(args@), flag@),
{
    match arg_value(args, flag) {
        Some(text) => parse_u32(text),
        None => None,
    }
}

/// The number behind a flag, where there is one.
pub open spec fn u64_arg(args: Seq<Seq<char>>, flag: Seq<char>) -> Option<u64> {
    match value_after(args, flag) {
        Some(text) => u64_of(text),
        None => None,
    }
}

fn u64_value(args: &[String], flag: &str) -> (r: Option<u64>)
    ensures
        r == u64_arg(text_views(args@), flag@),
{
    match arg_value(args, flag) {
        Some(text) => parse_u64(text),
        None => None,
    }
}

/// The tier of everyone. A cost of nothing asks for no stamps.
pub open spec fn default_policy_of(args: Seq<Seq<char>>, file: PolicySettings) -> TierPolicy {
    TierPolicy {
        stamp_cost: Some(or_else(first_of(u32_arg(args, "--stamp-cost"@), file.stamp_cost), 16)),
        stamp_flexibility: Some(or_else(first_of(u32_arg(args, "--stamp-flexibility"@), file.stamp_flexibility), 3)),
        deferred_queue_limit: or_else(file.deferred_queue_limit, 256),
        deferred_pull_batch_limit: file.deferred_pull_batch_limit,
        allow_notify_registration: or_else(file.allow_notify_registration, true),
        allow_subscription: or_else(file.allow_subscription, true),
        trusted_backup_only: or_else(file.trusted_backup_only, false),
    }
}

/// The tier of listed subscribers.
pub open spec fn vip_policy_of(file: PolicySettings) -> TierPolicy {
    TierPolicy {
        stamp_cost: Some(or_else(file.stamp_cost, 8)),
        stamp_flexibility: Some(or_else(file.stamp_flexibility, 2)),
        deferred_queue_limit: or_else(file.deferred_queue_limit, 1024),
        deferred_pull_batch_limit: file.deferred_pull_batch_limit,
        allow_notify_registration: or_else(file.allow_notify_registration, true),
        allow_subscription: or_else(file.allow_subscription, true),
        trusted_backup_only: or_else(file.trusted_backup_only, false),
    }
}

/// The tier of everyone, as [`default_policy_of`] says.
pub fn default_policy(args: &[String], file: &PolicySettings) -> (r: TierPolicy)
    ensures
        r == default_policy_of(text_views(args@), *file),
{
    let cost: Option<u32> = u32_value(args, "--stamp-cost");
    let flexibility: Option<u32> = u32_value(args, "--stamp-flexibility");
    TierPolicy {
        stamp_cost: Some(or_default(if cost.is_some() {
            cost
        } else {
            file.stamp_cost
        }, 16)),
        stamp_flexibility: Some(or_default(if flexibility.is_some() {
            flexibility
        } else {
            file.stamp_flexibility
        }, 3)),
        deferred_queue_limit: or_default(file.deferred_queue_limit, 256),
        deferred_pull_batch_limit: file.deferred_pull_batch_limit,
        allow_notify_registration: or_default(file.allow_notify_registration, true),
        allow_subscription: or_default(file.allow_subscription, true),
        trusted_backup_only: or_default(file.trusted_backup_only, false),
    }
}

/// The tier of listed subscribers, as [`vip_policy_of`] says.
pub fn vip_policy(file: &PolicySettings) -> (r: TierPolicy)
    ensures
        r == vip_policy_of(*file),
{
    TierPolicy {
        stamp_cost: Some(or_default(file.stamp_cost, 8)),
        stamp_flexibility: Some(or_default(file.stamp_flexibility, 2)),
        deferred_queue_limit: or_default(file.deferred_queue_limit, 1024),
        deferred_pull_batch_limit: file.deferred_pull_batch_limit,
        allow_notify_registration: or_default(file.allow_notify_registration, true),
        allow_subscription: or_default(file.allow_subscription, true),
        trusted_backup_only: or_default(file.trusted_backup_only, false),
    }
}

/// The megabytes of storage.
pub open spec fn storage_mb(args: Seq<Seq<char>>, file: FileSettings) -> u64 {
    or_else(first_of(u64_arg(args, "--storage-limit"@), file.limit_mb), 2000)
}

/// Whether the sizes and times fit once they are in bytes and seconds.
pub open spec fn in_range(args: Seq<Seq<char>>, file: FileSettings) -> bool {
    &&& storage_mb(args, file) * MEGABYTE <= u64::MAX
    &&& file.transfer_limit_mb matches Some(m) ==> m * MEGABYTE <= u64::MAX
    &&& file.sync_limit_mb matches Some(m) ==> m * MEGABYTE <= u64::MAX
    &&& file.announce_interval_minutes matches Some(m) ==> m * 60 <= u64::MAX
}

fn storage(args: &[String], file: &FileSettings) -> (r: u64)
    ensures
        r == storage_mb(text_views(args@), *file),
{
    match u64_value(args, "--storage-limit") {
        Some(m) => m,
        None => or_default(file.limit_mb, 2000),
    }
}

/// Whether the sizes and times fit, as [`in_range`] says.
pub fn settings_in_range(args: &[String], file: &FileSettings) -> (r: bool)
    ensures
        r == in_range(text_views(args@), *file),
{
    let most: u64 = u64::MAX / MEGABYTE;
    let transfer: bool = match file.transfer_limit_mb {
        Some(m) => m <= most,
        None => true,
    };
    let sync: bool = match file.sync_limit_mb {
        Some(m) => m <= most,
        None => true,
    };
    let interval: bool = match file.announce_interval_minutes {
        Some(m) => m <= u64::MAX / 60,
        None => true,
    };
    storage(args, file) <= most && transfer && sync && interval
}

/// A list of hashes, those of the command line in the place of those of the
/// file where there are any.
pub open spec fn chosen(cli: Seq<Seq<u8>>, file: Seq<Seq<u8>>) -> Seq<Seq<u8>> {
    if cli.len() > 0 {
        cli
    } else {
        file
    }
}

/// The first complaint about the hashes that are given, in the order in which
/// they are looked at.
pub open spec fn complaint_of(args: Seq<Seq<char>>, file: FileSettings) -> Option<Seq<char>> {
    let cli_static = hashes_of(values_after(args, "--static-peer"@, 1));
    let cli_secondary = hashes_of(values_after(args, "--secondary-node"@, 1));
    let file_static = hashes_of(text_views(file.static_peers@));
    if hashes_of(text_views(file.vip_subscribers@)) matches Err(t) {
        Some("Invalid VIP subscriber hash in config: "@ + hashes_of(text_views(file.vip_subscribers@))->Err_0)
    } else if hashes_of(text_views(file.trusted_backup_peers@)) is Err {
        Some("Invalid trusted_backup_peer hash in config: "@ + hashes_of(text_views(file.trusted_backup_peers@))->Err_0)
    } else if cli_static is Err {
        Some("Invalid --static-peer hash: "@ + cli_static->Err_0)
    } else if cli_static->Ok_0.len() == 0 && file_static is Err {
        Some("Invalid static_peer in config: "@ + file_static->Err_0)
    } else if cli_secondary is Err {
        Some("Invalid --secondary-node hash: "@ + cli_secondary->Err_0)
    } else if hashes_of(text_views(file.propagation_peers@)) is Err {
        Some("Invalid propagation_peer hash in config: "@ + hashes_of(text_views(file.propagation_peers@))->Err_0)
    } else {
        None
    }
}

/// The directory of the node's files: the one behind `--config`, and else
/// `.rfed` under the home directory.
pub fn config_dir(args: &[String], home: &str) -> (r: String)
    ensures
        r@ == (match value_after(text_views(args@), "--config"@) {
            Some(dir) => dir,
            None => path_in(home@, ".rfed"@),
        }),
{
    match arg_value(args, "--config") {
        Some(dir) => dir.to_owned(),
        None => join_path(home, ".rfed"),
    }
}

/// The seconds between announces where neither the command line nor the file
/// says how many.
pub const DEFAULT_ANNOUNCE_INTERVAL_SECS: u64 = 21_600;

/// What a configuration that was put together holds.
pub open spec fn is_merged(
    c: NodeConfig,
    args: Seq<Seq<char>>,
    file: FileSettings,
    dir: Seq<char>,
    announce_interval_secs: Option<u64>,
    owner_offline: Option<u64>,
) -> bool {
    &&& c.config_dir@ == dir
    &&& c.identity_file@ == or_else(value_after(args, "--identity"@), path_in(dir, "identity"@))
    &&& c.display_name@ == or_else(first_of(value_after(args, "--name"@), opt_string(file.name)), "rfed"@)
    &&& c.announce_interval_secs == (match (announce_interval_secs, file.announce_interval_minutes) {
        (Some(s), _) => s as int,
        (None, Some(m)) => m * 60,
        (None, None) => DEFAULT_ANNOUNCE_INTERVAL_SECS as int,
    })
    &&& c.announce_at_start == (!args.contains("--no-announce-at-start"@) && or_else(file.announce_at_start, true))
    &&& c.default_policy == default_policy_of(args, file.default_policy)
    &&& c.vip_policy == vip_policy_of(file.vip_policy)
    &&& views(c.vip_subscribers@) == hashes_of(text_views(file.vip_subscribers@))->Ok_0
    &&& c.peering_cost == Some(or_else(first_of(u32_arg(args, "--peering-cost"@), file.peering_cost), 18))
    &&& c.storage_limit_bytes == storage_mb(args, file) * MEGABYTE
    &&& c.transfer_limit_bytes is Some <==> file.transfer_limit_mb is Some
    &&& c.transfer_limit_bytes matches Some(b) ==> b == file.transfer_limit_mb->0 * MEGABYTE
    &&& c.sync_limit_bytes is Some <==> file.sync_limit_mb is Some
    &&& c.sync_limit_bytes matches Some(b) ==> b == file.sync_limit_mb->0 * MEGABYTE
    &&& views(c.static_peers@) == chosen(
        hashes_of(values_after(args, "--static-peer"@, 1))->Ok_0,
        hashes_of(text_views(file.static_peers@))->Ok_0,
    )
    &&& c.from_static_only == (args.contains("--from-static-only"@) || or_else(file.from_static_only, false))
    &&& views(c.trusted_backup_peers@) == hashes_of(text_views(file.trusted_backup_peers@))->Ok_0
    &&& opt_view(c.primary_node) == (match file.primary_node {
        Some(text) => node_hash_of(text@),
        None => None,
    })
    &&& views(c.secondary_nodes@) == chosen(
        hashes_of(values_after(args, "--secondary-node"@, 1))->Ok_0,
        node_hashes_of(text_views(file.secondary_nodes@)),
    )
    &&& c.owner_offline == or_else(first_of(owner_offline, file.owner_offline), (90 * SECOND) as u64)
    &&& c.lxmf_propagation_enabled == or_else(file.lxmf_propagation, false)
    &&& c.lxmf_propagation_autopeer == or_else(file.lxmf_propagation_autopeer, false)
    &&& views(c.lxmf_propagation_peers@) == hashes_of(text_views(file.propagation_peers@))->Ok_0
}

/// Puts the configuration together out of the command line and the file. The
/// two times that may be fractions are given as they were read: the seconds
/// between announces, and the time after which an owner is taken to be gone.
pub fn merge_config(
    args: &[String],
    file: &FileSettings,
    dir: String,
    rns_config_dir: Option<String>,
    announce_interval_secs: Option<u64>,
    owner_offline: Option<u64>,
) -> (r: Result<NodeConfig, String>)
    requires
        in_range(text_views(args@), *file),
    ensures
        match complaint_of(text_views(args@), *file) {
            Some(text) => r matches Err(e) && e@ == text,
            None => r matches Ok(c) && c.rns_config_dir == rns_config_dir && is_merged(
                c,
                text_views(args@),
                *file,
                dir@,
                announce_interval_secs,
                owner_offline,
            ),
        },
{
    let vip_subscribers: Vec<Vec<u8>> = match parse_hashes(
        &file.vip_subscribers,
        "Invalid VIP subscriber hash in config: ",
    ) {
        Ok(v) => v,
        Err(e) => return Err(e),
    };
    let trusted_backup_peers: Vec<Vec<u8>> = match parse_hashes(
        &file.trusted_backup_peers,
        "Invalid trusted_backup_peer hash in config: ",
    ) {
        Ok(v) => v,
        Err(e) => return Err(e),
    };
    let cli_static: Vec<Vec<u8>> = match parse_hashes(
        &arg_values(args, "--static-peer"),
        "Invalid --static-peer hash: ",
    ) {
        Ok(v) => v,
        Err(e) => return Err(e),
    };
    assert(views(cli_static@).len() == cli_static@.len());
    let static_peers: Vec<Vec<u8>> = if cli_static.len() > 0 {
        cli_static
    } else {
        match parse_hashes(&file.static_peers, "Invalid static_peer in config: ") {
            Ok(v) => v,
            Err(e) => return Err(e),
        }
    };
    let cli_secondary: Vec<Vec<u8>> = match parse_hashes(
        &arg_values(args, "--secondary-node"),
        "Invalid --secondary-node hash: ",
    ) {
        Ok(v) => v,
        Err(e) => return Err(e),
    };
    assert(views(cli_secondary@).len() == cli_secondary@.len());
    let secondary_nodes: Vec<Vec<u8>> = if cli_secondary.len() > 0 {
        cli_secondary
    } else {
        node_hashes(&file.secondary_nodes)
    };
    let lxmf_propagation_peers: Vec<Vec<u8>> = match parse_hashes(
        &file.propagation_peers,
        "Invalid propagation_peer hash in config: ",
    ) {
        Ok(v) => v,
        Err(e) => return Err(e),
    };
    let identity_file: String = match arg_value(args, "--identity") {
        Some(path) => path.to_owned(),
        None => join_path(dir.as_str(), "identity"),
    };
    let display_name: String = match arg_value(args, "--name") {
        Some(name) => name.to_owned(),
        None => match &file.name {
            Some(name) => name.as_str().to_owned(),
            None => "rfed".to_owned(),
        },
    };
    let interval: u64 = match announce_interval_secs {
        Some(s) => s,
        None => match file.announce_interval_minutes {
            Some(m) => m * 60,
            None => DEFAULT_ANNOUNCE_INTERVAL_SECS,
        },
    };
    let peering_cost: u32 = match u32_value(args, "--peering-cost") {
        Some(c) => c,
        None => or_default(file.peering_cost, 18),
    };
    let primary_node: Option<Vec<u8>> = match &file.primary_node {
        Some(text) => node_hash(text.as_str()),
        None => None,
    };
    let offline: u64 = match owner_offline {
        Some(t) => t,
        None => or_default(file.owner_offline, 90 * SECOND),
    };
    let storage_limit: u64 = storage(args, file);
    Ok(
        NodeConfig {
            config_dir: dir,
            rns_config_dir,
            identity_file,
            display_name,
            announce_interval_secs: interval,
            announce_at_start: !has_flag(args, "--no-announce-at-start") && or_default(file.announce_at_start, true),
            default_policy: default_policy(args, &file.default_policy),
            vip_policy: vip_policy(&file.vip_policy),
            vip_subscribers,
            peering_cost: Some(peering_cost),
            storage_limit_bytes: storage_limit * MEGABYTE,
            transfer_limit_bytes: match file.transfer_limit_mb {
                Some(m) => Some(m * MEGABYTE),
                None => None,
            },
            sync_limit_bytes: match file.sync_limit_mb {
                Some(m) => Some(m * MEGABYTE),
                None => None,
            },
            static_peers,
            from_static_only: has_flag(args, "--from-static-only") || or_default(file.from_static_only, false),
            trusted_backup_peers,
            primary_node,
            secondary_nodes,
            owner_offline: offline,
            lxmf_propagation_enabled: or_default(file.lxmf_propagation, false),
            lxmf_propagation_autopeer: or_default(file.lxmf_propagation_autopeer, false),
            lxmf_propagation_peers,
        },
    )
}

/// The value of a flag is what stands behind the first occurrence of it, and
/// there is none where it does not occur with something behind it.
pub proof fn law_first_flag_counts(args: Seq<Seq<char>>, flag: Seq<char>, k: int)
    requires
        0 <= k,
        forall|i: int| 0 <= i < k && i + 1 < args.len() ==> #[trigger] args[i] != flag,
        k + 1 < args.len() ==> args[k] == flag,
    ensures
        value_after(args, flag) == (if k + 1 < args.len() {
            Some(args[k + 1])
        } else {
            None
        }),
    decreases args.len(),
{
    if args.len() >= 2 && k > 0 {
        let rest = args.skip(1);
        assert(args[0] != flag);
        assert forall|i: int| 0 <= i < k - 1 && i + 1 < rest.len() implies #[trigger] rest[i] != flag by {
            assert(args[i + 1] != flag);
        }
        law_first_flag_counts(rest, flag, k - 1);
    }
}

/// The values of a flag that may occur often are those behind each occurrence,
/// in their order.
pub proof fn law_every_flag_counts(args: Seq<Seq<char>>, flag: Seq<char>, value: Seq<char>, i: int)
    requires
        0 <= i <= args.len(),
        i < args.len() ==> args.last() != flag,
    ensures
        values_after(args + seq![flag, value], flag, i) == values_after(args, flag, i) + seq![value],
        (forall|j: int| i <= j < args.len() ==> #[trigger] args[j] != flag) ==> values_after(args, flag, i).len() == 0,
    decreases args.len() - i,
{
    let more = args + seq![flag, value];
    if i == args.len() {
        assert(more[i] == flag);
        assert(more[i + 1] == value);
        assert(values_after(more, flag, i + 2) =~= Seq::empty());
        assert(values_after(more, flag, i) =~= seq![value]);
        assert(values_after(args, flag, i) + seq![value] =~= seq![value]);
    } else {
        assert(more[i] == args[i]);
        if args[i] == flag {
            assert(args[args.len() - 1] == args.last());
            assert(i + 1 < args.len());
            assert(more[i + 1] == args[i + 1]);
            law_every_flag_counts(args, flag, value, i + 2);
            assert(values_after(more, flag, i) =~= values_after(args, flag, i) + seq![value]);
        } else {
            law_every_flag_counts(args, flag, value, i + 1);
        }
    }
}

/// A list of hashes is taken exactly where every entry, without the white space
/// around it, is a text of hexadecimal digits, each as the bytes that it stands
/// for. Otherwise the first entry that is none is named.
pub proof fn law_list_of_hashes(list: Seq<Seq<char>>, k: int)
    requires
        0 <= k <= list.len(),
        forall|i: int| 0 <= i < k ==> hex_bytes(trimmed_text(#[trigger] list[i])) is Some,
        k < list.len() ==> hex_bytes(trimmed_text(list[k])) is None,
    ensures
        k < list.len() ==> hashes_of(list) == Err::<Seq<Seq<u8>>, Seq<char>>(list[k]),
        k == list.len() ==> {
            &&& hashes_of(list) is Ok
            &&& hashes_of(list)->Ok_0.len() == list.len()
            &&& forall|i: int|
                0 <= i < list.len() ==> Some(#[trigger] hashes_of(list)->Ok_0[i]) == hex_bytes(trimmed_text(list[i]))
        },
    decreases list.len(),
{
    if list.len() > 0 {
        let rest = list.drop_last();
        assert forall|i: int| 0 <= i < rest.len() implies rest[i] == #[trigger] list[i] by {}
        law_list_of_hashes(
            rest,
            if k < rest.len() {
                k
            } else {
                rest.len() as int
            },
        );
    }
}

/// Of the configured nodes those count that are hashes of 16 bytes, in their
/// order, and the others are passed over.
pub proof fn law_configured_nodes_that_count(a: Seq<Seq<char>>, b: Seq<Seq<char>>, text: Seq<char>)
    ensures
        node_hashes_of(a + b) == node_hashes_of(a) + node_hashes_of(b),
        ({
            let read = hex_bytes(trimmed_text(text));
            &&& read is Some && read->0.len() == 16 ==> node_hashes_of(seq![text]) == seq![read->0]
            &&& !(read is Some && read->0.len() == 16) ==> node_hashes_of(seq![text]).len() == 0
        }),
        node_hashes_of(Seq::empty()).len() == 0,
    decreases b.len(),
{
    assert(seq![text].drop_last() =~= Seq::empty());
    assert(node_hashes_of(seq![text].drop_last()) =~= Seq::empty());
    if node_hash_of(text) is Some {
        assert(node_hashes_of(seq![text]) =~= seq![node_hash_of(text)->0]);
    }
    if b.len() == 0 {
        assert(a + b =~= a);
        assert(node_hashes_of(a) + node_hashes_of(b) =~= node_hashes_of(a));
    } else {
        law_configured_nodes_that_count(a, b.drop_last(), text);
        assert((a + b).drop_last() =~= a + b.drop_last());
        assert((a + b).last() == b.last());
        assert(node_hashes_of(a + b) =~= node_hashes_of(a) + node_hashes_of(b));
    }
}

/// What the command line says counts before what the file says, and that before
/// what is set where neither says anything.
pub proof fn law_command_line_counts_first(
    c: NodeConfig,
    args: Seq<Seq<char>>,
    file: FileSettings,
    dir: Seq<char>,
    interval: Option<u64>,
    offline: Option<u64>,
)
    requires
        is_merged(c, args, file, dir, interval, offline),
    ensures
        value_after(args, "--name"@) matches Some(v) ==> c.display_name@ == v,
        value_after(args, "--name"@) is None && file.name is Some ==> c.display_name@ == file.name->0@,
        value_after(args, "--name"@) is None && file.name is None ==> c.display_name@ == "rfed"@,
        value_after(args, "--identity"@) matches Some(v) ==> c.identity_file@ == v,
        interval matches Some(s) ==> c.announce_interval_secs == s,
        interval is None && file.announce_interval_minutes is Some ==> c.announce_interval_secs
            == file.announce_interval_minutes->0 * 60,
        interval is None && file.announce_interval_minutes is None ==> c.announce_interval_secs == 6 * 60 * 60,
        u32_arg(args, "--stamp-cost"@) matches Some(n) ==> c.default_policy.stamp_cost == Some(n),
        u32_arg(args, "--stamp-cost"@) is None && file.default_policy.stamp_cost is Some
            ==> c.default_policy.stamp_cost == file.default_policy.stamp_cost,
        u32_arg(args, "--stamp-cost"@) is None && file.default_policy.stamp_cost is None
            ==> c.default_policy.stamp_cost == Some(16u32),
        u32_arg(args, "--peering-cost"@) matches Some(n) ==> c.peering_cost == Some(n),
        u32_arg(args, "--peering-cost"@) is None && file.peering_cost is None ==> c.peering_cost == Some(18u32),
        u64_arg(args, "--storage-limit"@) matches Some(n) ==> c.storage_limit_bytes == n * 1_048_576,
        u64_arg(args, "--storage-limit"@) is None && file.limit_mb is Some ==> c.storage_limit_bytes
            == file.limit_mb->0 * 1_048_576,
        u64_arg(args, "--storage-limit"@) is None && file.limit_mb is None ==> c.storage_limit_bytes == 2000
            * 1_048_576,
        offline matches Some(t) ==> c.owner_offline == t,
        offline is None && file.owner_offline is Some ==> c.owner_offline == file.owner_offline->0,
        offline is None && file.owner_offline is None ==> c.owner_offline == 90 * 1_000_000_000,
{
}

/// A flag switches on or off what it names, whatever the file says, and without
/// it the file decides. Where neither says anything, the node announces itself
/// at its start, takes messages from all peers, passes none on, and lets
/// everybody subscribe and register.
pub proof fn law_switches(
    c: NodeConfig,
    args: Seq<Seq<char>>,
    file: FileSettings,
    dir: Seq<char>,
    interval: Option<u64>,
    offline: Option<u64>,
)
    requires
        is_merged(c, args, file, dir, interval, offline),
    ensures
        args.contains("--no-announce-at-start"@) ==> !c.announce_at_start,
        !args.contains("--no-announce-at-start"@) && file.announce_at_start is Some ==> c.announce_at_start
            == file.announce_at_start->0,
        !args.contains("--no-announce-at-start"@) && file.announce_at_start is None ==> c.announce_at_start,
        args.contains("--from-static-only"@) ==> c.from_static_only,
        !args.contains("--from-static-only"@) && file.from_static_only is Some ==> c.from_static_only
            == file.from_static_only->0,
        !args.contains("--from-static-only"@) && file.from_static_only is None ==> !c.from_static_only,
        file.lxmf_propagation is Some ==> c.lxmf_propagation_enabled == file.lxmf_propagation->0,
        file.lxmf_propagation is None ==> !c.lxmf_propagation_enabled,
        file.lxmf_propagation_autopeer is Some ==> c.lxmf_propagation_autopeer == file.lxmf_propagation_autopeer->0,
        file.lxmf_propagation_autopeer is None ==> !c.lxmf_propagation_autopeer,
        file.default_policy.allow_subscription is None ==> c.default_policy.allow_subscription,
        file.default_policy.allow_subscription is Some ==> c.default_policy.allow_subscription
            == file.default_policy.allow_subscription->0,
        file.default_policy.allow_notify_registration is None ==> c.default_policy.allow_notify_registration,
        file.default_policy.allow_notify_registration is Some ==> c.default_policy.allow_notify_registration
            == file.default_policy.allow_notify_registration->0,
        file.vip_policy.allow_subscription is None ==> c.vip_policy.allow_subscription,
        file.vip_policy.allow_subscription is Some ==> c.vip_policy.allow_subscription
            == file.vip_policy.allow_subscription->0,
        file.vip_policy.stamp_cost is Some ==> c.vip_policy.stamp_cost == file.vip_policy.stamp_cost,
        file.vip_policy.stamp_cost is None ==> c.vip_policy.stamp_cost == Some(8u32),
        file.default_policy.deferred_queue_limit is Some ==> c.default_policy.deferred_queue_limit
            == file.default_policy.deferred_queue_limit->0,
        file.default_policy.deferred_queue_limit is None ==> c.default_policy.deferred_queue_limit == 256,
        file.vip_policy.deferred_queue_limit is Some ==> c.vip_policy.deferred_queue_limit
            == file.vip_policy.deferred_queue_limit->0,
        file.vip_policy.deferred_queue_limit is None ==> c.vip_policy.deferred_queue_limit == 1024,
{
}

/// The peers and the further nodes of the command line count instead of those of
/// the file, where it names any.
pub proof fn law_lists_are_not_mixed(cli: Seq<Seq<u8>>, file: Seq<Seq<u8>>)
    ensures
        cli.len() > 0 ==> chosen(cli, file) == cli,
        cli.len() == 0 ==> chosen(cli, file) == file,
{
}

/// Nothing is complained of exactly where every hash that counts can be read:
/// those of the privileged subscribers, of the trusted nodes and of the peers
/// for messages, those of the command line, and the configured peers where the
/// command line names none.
pub proof fn law_when_nothing_is_complained_of(args: Seq<Seq<char>>, file: FileSettings)
    ensures
        complaint_of(args, file) is None <==> {
            let cli_static = hashes_of(values_after(args, "--static-peer"@, 1));
            &&& hashes_of(text_views(file.vip_subscribers@)) is Ok
            &&& hashes_of(text_views(file.trusted_backup_peers@)) is Ok
            &&& hashes_of(text_views(file.propagation_peers@)) is Ok
            &&& hashes_of(values_after(args, "--secondary-node"@, 1)) is Ok
            &&& cli_static is Ok
            &&& cli_static->Ok_0.len() == 0 ==> hashes_of(text_views(file.static_peers@)) is Ok
        },
{
}

/// The sizes and times of the configuration are in range exactly where they fit
/// once they are turned into bytes and seconds.
pub proof fn law_what_is_in_range(args: Seq<Seq<char>>, file: FileSettings, mb: u64)
    requires
        mb == (if u64_arg(args, "--storage-limit"@) is Some {
            u64_arg(args, "--storage-limit"@)->0
        } else if file.limit_mb is Some {
            file.limit_mb->0
        } else {
            2000
        }),
    ensures
        in_range(args, file) <==> {
            &&& mb * 1_048_576 <= u64::MAX
            &&& file.transfer_limit_mb is Some ==> file.transfer_limit_mb->0 * 1_048_576 <= u64::MAX
            &&& file.sync_limit_mb is Some ==> file.sync_limit_mb->0 * 1_048_576 <= u64::MAX
            &&& file.announce_interval_minutes is Some ==> file.announce_interval_minutes->0 * 60 <= u64::MAX
        },
{
}

/// The lists of the configuration are the hashes that were read, in their order:
/// those of the privileged subscribers, of the trusted nodes, of the peers for
/// messages, and of the peers and further nodes of the command line where it
/// names any.
pub proof fn law_lists_of_the_configuration(
    c: NodeConfig,
    args: Seq<Seq<char>>,
    file: FileSettings,
    dir: Seq<char>,
    interval: Option<u64>,
    offline: Option<u64>,
    i: int,
)
    requires
        is_merged(c, args, file, dir, interval, offline),
        complaint_of(args, file) is None,
    ensures
        c.vip_subscribers@.len() == file.vip_subscribers@.len(),
        0 <= i < c.vip_subscribers@.len() ==> Some(c.vip_subscribers@[i]@) == hex_bytes(
            trimmed_text(file.vip_subscribers@[i]@),
        ),
        c.trusted_backup_peers@.len() == file.trusted_backup_peers@.len(),
        0 <= i < c.trusted_backup_peers@.len() ==> Some(c.trusted_backup_peers@[i]@) == hex_bytes(
            trimmed_text(file.trusted_backup_peers@[i]@),
        ),
        c.lxmf_propagation_peers@.len() == file.propagation_peers@.len(),
        0 <= i < c.lxmf_propagation_peers@.len() ==> Some(c.lxmf_propagation_peers@[i]@) == hex_bytes(
            trimmed_text(file.propagation_peers@[i]@),
        ),
        ({
            let named = values_after(args, "--static-peer"@, 1);
            &&& named.len() > 0 ==> c.static_peers@.len() == named.len()
            &&& named.len() > 0 && 0 <= i < named.len() ==> Some(c.static_peers@[i]@) == hex_bytes(
                trimmed_text(named[i]),
            )
            &&& named.len() == 0 ==> c.static_peers@.len() == file.static_peers@.len()
        }),
        c.config_dir@ == dir,
{
    law_when_nothing_is_complained_of(args, file);
    lemma_read_list(text_views(file.vip_subscribers@), c.vip_subscribers@);
    lemma_read_list(text_views(file.trusted_backup_peers@), c.trusted_backup_peers@);
    lemma_read_list(text_views(file.propagation_peers@), c.lxmf_propagation_peers@);
    let named = values_after(args, "--static-peer"@, 1);
    lemma_hashes_len(named);
    if named.len() > 0 {
        lemma_read_list(named, c.static_peers@);
    } else {
        lemma_read_list(text_views(file.static_peers@), c.static_peers@);
    }
}

proof fn lemma_hashes_len(list: Seq<Seq<char>>)
    ensures
        hashes_of(list) is Ok ==> hashes_of(list)->Ok_0.len() == list.len(),
    decreases list.len(),
{
    if list.len() > 0 {
        lemma_hashes_len(list.drop_last());
    }
}

proof fn lemma_read_list(list: Seq<Seq<char>>, read: Seq<Vec<u8>>)
    requires
        hashes_of(list) is Ok,
        views(read) == hashes_of(list)->Ok_0,
    ensures
        read.len() == list.len(),
        forall|i: int| 0 <= i < list.len() ==> Some((#[trigger] read[i])@) == hex_bytes(trimmed_text(list[i])),
{
    lemma_all_are_hashes(list);
    law_list_of_hashes(list, list.len() as int);
    assert(views(read).len() == read.len());
    assert forall|i: int| 0 <= i < list.len() implies Some((#[trigger] read[i])@) == hex_bytes(
        trimmed_text(list[i]),
    ) by {
        assert(views(read)[i] == read[i]@);
        assert(hashes_of(list)->Ok_0[i] == read[i]@);
    }
}

proof fn lemma_all_are_hashes(list: Seq<Seq<char>>)
    requires
        hashes_of(list) is Ok,
    ensures
        forall|i: int| 0 <= i < list.len() ==> hex_bytes(trimmed_text(#[trigger] list[i])) is Some,
    decreases list.len(),
{
    if list.len() > 0 {
        let rest = list.drop_last();
        lemma_all_are_hashes(rest);
        assert forall|i: int| 0 <= i < list.len() implies hex_bytes(trimmed_text(#[trigger] list[i])) is Some by {
            if i < rest.len() {
                assert(rest[i] == list[i]);
            }
        }
    }
}

} // verus!
