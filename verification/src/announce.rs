//! The decisions of an announce: which parameters it carries, which store
//! commands it issues, and the bencoded reply.

use crate::common::{parse_info_hash_bytes, spec_parse_info_hash};
use crate::routing::has_prefix;
use crate::peer::{compact_peer_len, generate_peer, spec_compact_peer, IpAddress};
use crate::query::{
    is_plain_key, is_plain_value, lemma_lookup_last_pair_wins, lemma_lookup_other_pair,
    lemma_lookup_single_other_pair, lemma_lookup_single_pair, pair_bytes, all_digits, digits_value, parse_unsigned, query_lookup, query_value, spec_parse_unsigned,
};
use vstd::prelude::*;
use vstd::string::StringExecFns;
use vstd::string::StringSliceAdditionalSpecFns;
use vstd::utf8::{is_ascii_chars, is_ascii_chars_encode_utf8};

verus! {

/// The parameters of a valid announce.
pub struct AnnounceRequest {
    /// Lowercase hex of the torrent's twenty-byte info hash.
    pub info_hash: String,
    /// Port the peer listens on.
    pub port: u16,
    /// Bytes the peer still has to download; zero for a seed.
    pub left: u64,
    /// How many entries of each list the peer asks for.
    pub numwant: u64,
}

impl View for AnnounceRequest {
    type V = (Seq<char>, u16, u64, u64);

    open spec fn view(&self) -> (Seq<char>, u16, u64, u64) {
        (self.info_hash@, self.port, self.left, self.numwant)
    }
}

/// Views a parse result as the model's.
pub open spec fn request_result_view(r: Result<AnnounceRequest, String>) -> Result<
    (Seq<char>, u16, u64, u64),
    Seq<char>,
> {
    match r {
        Ok(req) => Ok(req@),
        Err(e) => Err(e@),
    }
}

/// The `numwant` the peer asked for: 50 when absent.
pub open spec fn spec_numwant(q: Seq<u8>) -> Option<nat> {
    match query_lookup(q, "numwant".spec_bytes()) {
        None => Some(50),
        Some(w) => spec_parse_unsigned(w, u64::MAX as nat),
    }
}

/// The checks on `compact` and `numwant`, once the other parameters are read.
pub open spec fn spec_parse_announce_tail(q: Seq<u8>, info_hash: Seq<char>, port: u16, left: u64)
    -> Result<(Seq<char>, u16, u64, u64), Seq<char>> {
    match query_lookup(q, "compact".spec_bytes()) {
        None => Err("No compact specified"@),
        Some(c) => match spec_parse_unsigned(c, u64::MAX as nat) {
            None => Err("Invalid compact specified"@),
            Some(compact) => if compact != 1 {
                Err("This tracker only supports compact responses"@)
            } else {
                match spec_numwant(q) {
                    None => Err("Invalid numwant specified"@),
                    Some(w) => Ok((info_hash, port, left, w as u64)),
                }
            },
        },
    }
}

/// What an announce query (the raw bytes after `?`) asks for, or the message of the
/// first check that fails: `info_hash`, `port`, `left`, `compact` (which must be 1)
/// and `numwant` (50 by default), in that order.
pub open spec fn spec_parse_announce(q: Seq<u8>) -> Result<(Seq<char>, u16, u64, u64), Seq<char>> {
    match query_lookup(q, "info_hash".spec_bytes()) {
        None => Err("No info_hash specified"@),
        Some(raw) => match spec_parse_info_hash(raw) {
            Err(e) => Err(e),
            Ok(info_hash) => match query_lookup(q, "port".spec_bytes()) {
                None => Err("No port specified"@),
                Some(p) => match spec_parse_unsigned(p, 65535) {
                    None => Err("Invalid port specified"@),
                    Some(port) => match query_lookup(q, "left".spec_bytes()) {
                        None => Err("No left specified"@),
                        Some(l) => match spec_parse_unsigned(l, u64::MAX as nat) {
                            None => Err("Invalid left specified"@),
                            Some(left) => spec_parse_announce_tail(
                                q,
                                info_hash,
                                port as u16,
                                left as u64,
                            ),
                        },
                    },
                },
            },
        },
    }
}

fn parse_announce_tail(query: &[u8], info_hash: String, port: u16, left: u64) -> (r: Result<
    AnnounceRequest,
    String,
>)
    ensures
        request_result_view(r) == spec_parse_announce_tail(query@, info_hash@, port, left),
{
    let compact = match query_value(query, "compact".as_bytes()) {
        None => return Err("No compact specified".to_owned()),
        Some(c) => match parse_unsigned(c, u64::MAX) {
            None => return Err("Invalid compact specified".to_owned()),
            Some(v) => v,
        },
    };
    if compact != 1 {
        return Err("This tracker only supports compact responses".to_owned());
    }
    let numwant = match query_value(query, "numwant".as_bytes()) {
        None => 50,
        Some(w) => match parse_unsigned(w, u64::MAX) {
            None => return Err("Invalid numwant specified".to_owned()),
            Some(v) => v,
        },
    };
    Ok(AnnounceRequest { info_hash, port, left, numwant })
}

/// Reads the parameters of an announce from its raw query string.
pub fn parse_announce(query: &[u8]) -> (r: Result<AnnounceRequest, String>)
    ensures
        request_result_view(r) == spec_parse_announce(query@),
{
    let info_hash = match query_value(query, "info_hash".as_bytes()) {
        None => return Err("No info_hash specified".to_owned()),
        Some(raw) => parse_info_hash_bytes(raw),
    };
    let info_hash = match info_hash {
        Ok(h) => h,
        Err(e) => return Err(e),
    };
    let port = match query_value(query, "port".as_bytes()) {
        None => return Err("No port specified".to_owned()),
        Some(p) => match parse_unsigned(p, 65535) {
            None => return Err("Invalid port specified".to_owned()),
            Some(v) => v as u16,
        },
    };
    let left = match query_value(query, "left".as_bytes()) {
        None => return Err("No left specified".to_owned()),
        Some(l) => match parse_unsigned(l, u64::MAX) {
            None => return Err("Invalid left specified".to_owned()),
            Some(v) => v,
        },
    };
    parse_announce_tail(query, info_hash, port, left)
}

/// The raw address a peer asks to be announced under: `ip` for a peer that
/// connected over IPv4; `ipv6`, or else `ip`, for one that connected over IPv6.
pub open spec fn spec_ip_param(q: Seq<u8>, v6: bool) -> Option<Seq<u8>> {
    if v6 {
        match query_lookup(q, "ipv6".spec_bytes()) {
            Some(v) => Some(v),
            None => query_lookup(q, "ip".spec_bytes()),
        }
    } else {
        query_lookup(q, "ip".spec_bytes())
    }
}

/// Finds the raw address a peer asks to be announced under (see [`spec_ip_param`]).
pub fn ip_param<'a>(query: &'a [u8], v6: bool) -> (r: Option<&'a [u8]>)
    ensures
        match spec_ip_param(query@, v6) {
            Some(v) => r matches Some(x) && x@ == v,
            None => r is None,
        },
{
    if v6 {
        match query_value(query, "ipv6".as_bytes()) {
            Some(v) => Some(v),
            None => query_value(query, "ip".as_bytes()),
        }
    } else {
        query_value(query, "ip".as_bytes())
    }
}

/// The sorted-set key under which the seeds of a torrent are kept (one set per
/// address family).
pub open spec fn seeds_key(info_hash: Seq<char>, v6: bool) -> Seq<char> {
    "torrent:"@ + info_hash + ":seeds"@ + (if v6 { "6"@ } else { Seq::<char>::empty() })
}

/// The sorted-set key under which the other peers of a torrent are kept.
pub open spec fn peers_key(info_hash: Seq<char>, v6: bool) -> Seq<char> {
    "torrent:"@ + info_hash + ":peers"@ + (if v6 { "6"@ } else { Seq::<char>::empty() })
}

fn make_key(info_hash: &String, kind: &str, v6: bool) -> (key: String)
    ensures
        key@ == "torrent:"@ + info_hash@ + kind@ + (if v6 { "6"@ } else { Seq::<char>::empty() }),
{
    let mut key = "torrent:".to_owned();
    key.append(info_hash.as_str());
    key.append(kind);
    if v6 {
        key.append("6");
    } else {
        assert(key@ + Seq::<char>::empty() =~= key@);
    }
    key
}

/// A command on the sorted sets of the store. The replies of removals and
/// additions are not part of the result of the pipeline they stand in.
pub enum RedisCommand {
    /// `ZREMRANGEBYSCORE key min max`
    RemoveRangeByScore { key: String, min: i64, max: i64 },
    /// `ZCARD key`
    Count { key: String },
    /// `ZRANGE key start stop`
    Range { key: String, start: i64, stop: u64 },
    /// `ZADD key score member`
    Add { key: String, score: i64, member: Vec<u8> },
}

/// The model of a [`RedisCommand`].
pub enum CommandModel {
    RemoveRangeByScore(Seq<char>, i64, i64),
    Count(Seq<char>),
    Range(Seq<char>, i64, u64),
    Add(Seq<char>, i64, Seq<u8>),
}

impl View for RedisCommand {
    type V = CommandModel;

    open spec fn view(&self) -> CommandModel {
        match self {
            RedisCommand::RemoveRangeByScore { key, min, max } => CommandModel::RemoveRangeByScore(
                key@,
                *min,
                *max,
            ),
            RedisCommand::Count { key } => CommandModel::Count(key@),
            RedisCommand::Range { key, start, stop } => CommandModel::Range(key@, *start, *stop),
            RedisCommand::Add { key, score, member } => CommandModel::Add(key@, *score, member@),
        }
    }
}

/// The models of a list of commands.
pub open spec fn commands_view(cmds: Seq<RedisCommand>) -> Seq<CommandModel> {
    cmds.map_values(|c: RedisCommand| c@)
}

/// Whether an announce at `now_secs` (seconds since the epoch) can compute its
/// millisecond times without leaving `i64`.
pub open spec fn time_in_range(now_secs: i64, drop_threshold: u32) -> bool {
    i64::MIN <= now_secs * 1000 - drop_threshold * 1000 && now_secs * 1000 <= i64::MAX
}

/// The pipeline an announce runs at `now_secs`: drop the entries of both sets older
/// than `drop_threshold` seconds, count both sets, read the first `numwant + 1`
/// entries of each, and add the peer, scored by the time in milliseconds, to the seeds
/// when it has nothing left to download and to the other peers otherwise.
pub open spec fn spec_announce_commands(
    req: (Seq<char>, u16, u64, u64),
    ip: IpAddress,
    drop_threshold: u32,
    now_secs: i64,
) -> Seq<CommandModel> {
    let v6 = ip.spec_is_v6();
    let seeds = seeds_key(req.0, v6);
    let peers = peers_key(req.0, v6);
    let time_now = (now_secs * 1000) as i64;
    let time_drop = (now_secs * 1000 - drop_threshold * 1000) as i64;
    seq![
        CommandModel::RemoveRangeByScore(seeds, 0, time_drop),
        CommandModel::RemoveRangeByScore(peers, 0, time_drop),
        CommandModel::Count(seeds),
        CommandModel::Count(peers),
        CommandModel::Range(seeds, 0, req.3),
        CommandModel::Range(peers, 0, req.3),
        CommandModel::Add(
            if req.2 == 0 { seeds } else { peers },
            time_now,
            spec_compact_peer(ip, req.1),
        ),
    ]
}

/// The store commands of an announce of `req`, announced under `ip`, at `now_secs`.
pub fn announce_commands_at(req: &AnnounceRequest, ip: IpAddress, drop_threshold: u32, now_secs: i64)
    -> (cmds: Vec<RedisCommand>)
    requires
        time_in_range(now_secs, drop_threshold),
    ensures
        commands_view(cmds@) == spec_announce_commands(req@, ip, drop_threshold, now_secs),
{
    let v6 = ip.is_v6();
    let peer = generate_peer(ip, req.port);
    let time_now: i64 = now_secs * 1000;
    let time_drop: i64 = time_now - (drop_threshold as i64) * 1000;
    let mut cmds: Vec<RedisCommand> = Vec::new();
    cmds.push(
        RedisCommand::RemoveRangeByScore { key: make_key(&req.info_hash, ":seeds", v6), min: 0, max: time_drop },
    );
    cmds.push(
        RedisCommand::RemoveRangeByScore { key: make_key(&req.info_hash, ":peers", v6), min: 0, max: time_drop },
    );
    cmds.push(RedisCommand::Count { key: make_key(&req.info_hash, ":seeds", v6) });
    cmds.push(RedisCommand::Count { key: make_key(&req.info_hash, ":peers", v6) });
    cmds.push(RedisCommand::Range { key: make_key(&req.info_hash, ":seeds", v6), start: 0, stop: req.numwant });
    cmds.push(RedisCommand::Range { key: make_key(&req.info_hash, ":peers", v6), start: 0, stop: req.numwant });
    let target = if req.left == 0 {
        make_key(&req.info_hash, ":seeds", v6)
    } else {
        make_key(&req.info_hash, ":peers", v6)
    };
    cmds.push(RedisCommand::Add { key: target, score: time_now, member: peer });
    assert(commands_view(cmds@) =~= spec_announce_commands(req@, ip, drop_threshold, now_secs));
    cmds
}

/// `time::get_time` of the time crate reads the system clock; this returns the
/// `sec` field of what it gives, the whole seconds since the Unix epoch. Nothing is
/// claimed of its value, which depends on the machine's clock.
#[verifier::external_body]
fn clock_seconds() -> i64 {
    time::get_time().sec
}

/// The store commands of an announce of `req` under `ip`, at the time the system
/// clock gives. Returns that time with the commands, or with `None` where the time
/// in milliseconds would not fit an `i64`.
pub fn announce_commands(req: &AnnounceRequest, ip: IpAddress, drop_threshold: u32) -> (r: (
    i64,
    Option<Vec<RedisCommand>>,
))
    ensures
        match r.1 {
            Some(cmds) => time_in_range(r.0, drop_threshold) && commands_view(cmds@)
                == spec_announce_commands(req@, ip, drop_threshold, r.0),
            None => !time_in_range(r.0, drop_threshold),
        },
{
    let now_secs = clock_seconds();
    let now_ms: i128 = (now_secs as i128) * 1000;
    let drop_ms: i128 = now_ms - (drop_threshold as i128) * 1000;
    if now_ms > i64::MAX as i128 || drop_ms < i64::MIN as i128 {
        return (now_secs, None);
    }
    (now_secs, Some(announce_commands_at(req, ip, drop_threshold, now_secs)))
}

/// The ASCII decimal digits of `n`, without leading zeros.
pub open spec fn decimal(n: nat) -> Seq<u8>
    decreases n,
{
    if n < 10 {
        seq![(n + 48) as u8]
    } else {
        decimal(n / 10) + seq![(n % 10 + 48) as u8]
    }
}

/// The entries of a list, one after the other.
pub open spec fn concat_entries(entries: Seq<Seq<u8>>) -> Seq<u8>
    decreases entries.len(),
{
    if entries.len() == 0 {
        Seq::<u8>::empty()
    } else {
        concat_entries(entries.drop_last()) + entries.last()
    }
}

/// The byte contents of a list of entries.
pub open spec fn entries_view(entries: Seq<Vec<u8>>) -> Seq<Seq<u8>> {
    entries.map_values(|e: Vec<u8>| e@)
}

fn push_all(out: &mut Vec<u8>, bytes: &[u8])
    ensures
        final(out)@ == old(out)@ + bytes@,
{
    let n = bytes.len();
    let ghost start = out@;
    for i in 0..n
        invariant
            n == bytes@.len(),
            out@ == start + bytes@.subrange(0, i as int),
    {
        out.push(bytes[i]);
        assert(bytes@.subrange(0, i + 1) =~= bytes@.subrange(0, i as int).push(bytes@[i as int]));
    }
    assert(bytes@.subrange(0, n as int) =~= bytes@);
}

fn push_decimal(out: &mut Vec<u8>, n: u128)
    ensures
        final(out)@ == old(out)@ + decimal(n as nat),
    decreases n,
{
    let ghost start = out@;
    if n >= 10 {
        push_decimal(out, n / 10);
    }
    out.push(((n % 10) as u8) + 48);
    if n >= 10 {
        assert(out@ =~= start + decimal(n as nat));
    } else {
        assert(out@ =~= start + decimal(n as nat));
    }
}

fn push_entries(out: &mut Vec<u8>, entries: &Vec<Vec<u8>>)
    ensures
        final(out)@ == old(out)@ + concat_entries(entries_view(entries@)),
{
    let n = entries.len();
    let ghost start = out@;
    for i in 0..n
        invariant
            n == entries@.len(),
            out@ == start + concat_entries(entries_view(entries@.subrange(0, i as int))),
    {
        let ghost before = out@;
        push_all(out, entries[i].as_slice());
        assert(entries_view(entries@.subrange(0, i + 1)).drop_last() =~= entries_view(
            entries@.subrange(0, i as int),
        ));
        assert(out@ =~= start + concat_entries(entries_view(entries@.subrange(0, i + 1))));
    }
    assert(entries@.subrange(0, n as int) =~= entries@);
}

/// How many stored peers a reply lists: a seed is not sent the other seeds.
pub open spec fn response_count(is_seed: bool, seeds: Seq<Seq<u8>>, peers: Seq<Seq<u8>>) -> nat {
    if is_seed {
        peers.len()
    } else {
        seeds.len() + peers.len()
    }
}

/// The compact list a reply carries: the peers that still download for a seed, the
/// seeds and then those peers for anyone else.
pub open spec fn response_list(is_seed: bool, seeds: Seq<Seq<u8>>, peers: Seq<Seq<u8>>) -> Seq<u8> {
    if is_seed {
        concat_entries(peers)
    } else {
        concat_entries(seeds) + concat_entries(peers)
    }
}

/// The start of a reply, up to the key of its compact list: the totals, the
/// interval, and `peers` (or `peers6` over IPv6).
pub open spec fn response_header(total_seeds: u32, total_peers: u32, announce_interval: u32, v6: bool)
    -> Seq<u8> {
    "d8:completei".spec_bytes() + decimal(total_seeds as nat) + "e10:incompletei".spec_bytes()
        + decimal(total_peers as nat) + "e8:intervali".spec_bytes() + decimal(
        announce_interval as nat,
    ) + "e".spec_bytes() + (if v6 {
        "6:peers6".spec_bytes()
    } else {
        "5:peers".spec_bytes()
    })
}

/// The bencoded reply to an announce: the two totals and the interval, then the
/// compact list (`peers`, or `peers6` over IPv6) of the stored peers, prefixed by its
/// length counted as one entry per stored peer; a seed is given only the peers that
/// still download, any other peer the seeds first and then the other peers.
pub open spec fn spec_announce_response(
    total_seeds: u32,
    total_peers: u32,
    announce_interval: u32,
    v6: bool,
    is_seed: bool,
    seeds: Seq<Seq<u8>>,
    peers: Seq<Seq<u8>>,
) -> Seq<u8> {
    let count = response_count(is_seed, seeds, peers);
    let list = response_list(is_seed, seeds, peers);
    response_header(total_seeds, total_peers, announce_interval, v6) + decimal(
        compact_peer_len(v6) * count,
    ) + ":".spec_bytes() + list + "e".spec_bytes()
}

/// Builds the reply to an announce from what the store gave back (see
/// [`spec_announce_response`]); `is_seed` is whether the peer has nothing left.
pub fn announce_response(
    total_seeds: u32,
    total_peers: u32,
    announce_interval: u32,
    v6: bool,
    is_seed: bool,
    seeds: &Vec<Vec<u8>>,
    peers: &Vec<Vec<u8>>,
) -> (response: Vec<u8>)
    ensures
        response@ == spec_announce_response(
            total_seeds,
            total_peers,
            announce_interval,
            v6,
            is_seed,
            entries_view(seeds@),
            entries_view(peers@),
        ),
{
    let mut response: Vec<u8> = Vec::new();
    push_all(&mut response, "d8:completei".as_bytes());
    push_decimal(&mut response, total_seeds as u128);
    push_all(&mut response, "e10:incompletei".as_bytes());
    push_decimal(&mut response, total_peers as u128);
    push_all(&mut response, "e8:intervali".as_bytes());
    push_decimal(&mut response, announce_interval as u128);
    push_all(&mut response, "e".as_bytes());
    let size_of_peer: u128 = if v6 {
        push_all(&mut response, "6:peers6".as_bytes());
        18
    } else {
        push_all(&mut response, "5:peers".as_bytes());
        6
    };
    if is_seed {
        push_decimal(&mut response, size_of_peer * (peers.len() as u128));
        push_all(&mut response, ":".as_bytes());
        push_entries(&mut response, peers);
    } else {
        push_decimal(&mut response, size_of_peer * (seeds.len() as u128 + peers.len() as u128));
        push_all(&mut response, ":".as_bytes());
        push_entries(&mut response, seeds);
        push_entries(&mut response, peers);
    }
    push_all(&mut response, "e".as_bytes());
    assert(response@ =~= spec_announce_response(
        total_seeds,
        total_peers,
        announce_interval,
        v6,
        is_seed,
        entries_view(seeds@),
        entries_view(peers@),
    ));
    response
}

/// Entries of one size concatenate to that size times their number.
pub proof fn lemma_concat_entries_len(entries: Seq<Seq<u8>>, size: nat)
    requires
        forall|i: int| 0 <= i < entries.len() ==> (#[trigger] entries[i]).len() == size,
    ensures
        concat_entries(entries).len() == size * entries.len(),
    decreases entries.len(),
{
    if entries.len() > 0 {
        lemma_concat_entries_len(entries.drop_last(), size);
        assert(size * entries.len() == size * (entries.len() - 1) + size) by (nonlinear_arith);
    }
}

/// Where the store holds only entries of the peer family's size, the length a reply
/// declares for its compact list is the length of the list.
pub proof fn lemma_response_list_length(
    v6: bool,
    is_seed: bool,
    seeds: Seq<Seq<u8>>,
    peers: Seq<Seq<u8>>,
)
    requires
        forall|i: int| 0 <= i < seeds.len() ==> (#[trigger] seeds[i]).len() == compact_peer_len(v6),
        forall|i: int| 0 <= i < peers.len() ==> (#[trigger] peers[i]).len() == compact_peer_len(v6),
    ensures
        response_list(is_seed, seeds, peers).len() == compact_peer_len(v6) * response_count(
            is_seed,
            seeds,
            peers,
        ),
{
    let size = compact_peer_len(v6);
    lemma_concat_entries_len(seeds, size);
    lemma_concat_entries_len(peers, size);
    assert(size * (seeds.len() + peers.len()) == size * seeds.len() + size * peers.len())
        by (nonlinear_arith);
}

proof fn lemma_decimal_shape(n: nat)
    ensures
        decimal(n).len() > 0,
        all_digits(decimal(n)),
        digits_value(decimal(n)) == n,
    decreases n,
{
    if n >= 10 {
        lemma_decimal_shape(n / 10);
        let d = decimal(n);
        assert(d.drop_last() =~= decimal(n / 10));
        assert(d.last() == (n % 10 + 48) as u8);
        assert((n / 10) * 10 + n % 10 == n);
        assert(digits_value(d) == digits_value(decimal(n / 10)) * 10 + (d.last() - 0x30) as nat);
        assert forall|k: int| 0 <= k < d.len() implies 0x30u8 <= #[trigger] d[k] && d[k] <= 0x39u8 by {
            if k < d.len() - 1 {
                assert(d[k] == decimal(n / 10)[k]);
            }
        }
    } else {
        let d = decimal(n);
        assert(d.drop_last() =~= Seq::<u8>::empty());
        assert(d.last() == (n + 48) as u8);
        assert(digits_value(d) == digits_value(d.drop_last()) * 10 + (d.last() - 0x30) as nat);
    }
}

/// The numbers a reply writes read back as themselves: any number written in
/// decimal parses to that number wherever it is within the bound.
pub proof fn lemma_decimal_parses_back(n: nat, max: nat)
    requires
        n <= max,
    ensures
        spec_parse_unsigned(decimal(n), max) == Some(n),
{
    lemma_decimal_shape(n);
    assert(decimal(n)[0] != 0x2bu8);
}

/// A reply is well-formed bencode wherever the store holds entries of the peer
/// family's size: after the header, the number before `:` is the byte length of the
/// compact list that follows it, for seeds and downloading peers alike.
pub proof fn lemma_response_declares_list_length(
    total_seeds: u32,
    total_peers: u32,
    announce_interval: u32,
    v6: bool,
    is_seed: bool,
    seeds: Seq<Seq<u8>>,
    peers: Seq<Seq<u8>>,
)
    requires
        forall|i: int| 0 <= i < seeds.len() ==> (#[trigger] seeds[i]).len() == compact_peer_len(v6),
        forall|i: int| 0 <= i < peers.len() ==> (#[trigger] peers[i]).len() == compact_peer_len(v6),
    ensures
        ({
            let list = response_list(is_seed, seeds, peers);
            spec_announce_response(
                total_seeds,
                total_peers,
                announce_interval,
                v6,
                is_seed,
                seeds,
                peers,
            ) == response_header(total_seeds, total_peers, announce_interval, v6) + decimal(
                list.len(),
            ) + ":".spec_bytes() + list + "e".spec_bytes()
        }),
{
    lemma_response_list_length(v6, is_seed, seeds, peers);
}

/// A reply opens with the number of seeds, then of downloading peers, then the
/// interval, each in decimal, and then the key of the compact list of the peer's
/// family; each of the numbers reads back as itself.
pub proof fn lemma_response_opens_with_totals(
    total_seeds: u32,
    total_peers: u32,
    announce_interval: u32,
    v6: bool,
    is_seed: bool,
    seeds: Seq<Seq<u8>>,
    peers: Seq<Seq<u8>>,
)
    ensures
        has_prefix(
            spec_announce_response(
                total_seeds,
                total_peers,
                announce_interval,
                v6,
                is_seed,
                seeds,
                peers,
            ),
            "d8:completei".spec_bytes() + decimal(total_seeds as nat)
                + "e10:incompletei".spec_bytes() + decimal(total_peers as nat)
                + "e8:intervali".spec_bytes() + decimal(announce_interval as nat) + "e".spec_bytes()
                + (if v6 {
                "6:peers6".spec_bytes()
            } else {
                "5:peers".spec_bytes()
            }),
        ),
        spec_parse_unsigned(decimal(total_seeds as nat), u32::MAX as nat) == Some(total_seeds as nat),
        spec_parse_unsigned(decimal(total_peers as nat), u32::MAX as nat) == Some(total_peers as nat),
        spec_parse_unsigned(decimal(announce_interval as nat), u32::MAX as nat) == Some(
            announce_interval as nat,
        ),
{
    let rest = decimal(compact_peer_len(v6) * response_count(is_seed, seeds, peers))
        + ":".spec_bytes() + response_list(is_seed, seeds, peers) + "e".spec_bytes();
    let header = response_header(total_seeds, total_peers, announce_interval, v6);
    assert(spec_announce_response(
        total_seeds,
        total_peers,
        announce_interval,
        v6,
        is_seed,
        seeds,
        peers,
    ) =~= header + rest);
    assert((header + rest).subrange(0, header.len() as int) =~= header);
    lemma_decimal_parses_back(total_seeds as nat, u32::MAX as nat);
    lemma_decimal_parses_back(total_peers as nat, u32::MAX as nat);
    lemma_decimal_parses_back(announce_interval as nat, u32::MAX as nat);
}

/// A seed is sent only the peers that still download; anyone else is sent the
/// seeds and then those peers.
pub proof fn lemma_seeds_not_sent_to_seeds(seeds: Seq<Seq<u8>>, peers: Seq<Seq<u8>>)
    ensures
        response_list(true, seeds, peers) == concat_entries(peers),
        response_list(false, seeds, peers) == concat_entries(seeds) + concat_entries(peers),
        response_count(true, seeds, peers) == peers.len(),
        response_count(false, seeds, peers) == seeds.len() + peers.len(),
{
}

/// Both range reads of an announce go from 0 to the `numwant` of the request, one
/// on the seeds and one on the peers of the announcing family; no other range is read.
pub proof fn lemma_ranges_read_numwant(
    req: (Seq<char>, u16, u64, u64),
    ip: IpAddress,
    drop_threshold: u32,
    now_secs: i64,
)
    ensures
        ({
            let plan = spec_announce_commands(req, ip, drop_threshold, now_secs);
            let v6 = ip.spec_is_v6();
            &&& plan.contains(CommandModel::Range(seeds_key(req.0, v6), 0, req.3))
            &&& plan.contains(CommandModel::Range(peers_key(req.0, v6), 0, req.3))
            &&& forall|i: int|
                0 <= i < plan.len() ==> (#[trigger] plan[i] matches CommandModel::Range(
                    _,
                    start,
                    stop,
                ) ==> start == 0 && stop == req.3)
        }),
{
    let plan = spec_announce_commands(req, ip, drop_threshold, now_secs);
    assert(plan[4] == CommandModel::Range(seeds_key(req.0, ip.spec_is_v6()), 0, req.3));
    assert(plan[5] == CommandModel::Range(peers_key(req.0, ip.spec_is_v6()), 0, req.3));
}

/// The pruning bound of an announce lies exactly `drop_threshold` seconds before the
/// score the peer is recorded with, which is the announce time in milliseconds; the
/// peer is recorded as a seed exactly when it has nothing left.
pub proof fn lemma_prune_bound_and_score(
    req: (Seq<char>, u16, u64, u64),
    ip: IpAddress,
    drop_threshold: u32,
    now_secs: i64,
)
    requires
        time_in_range(now_secs, drop_threshold),
    ensures
        ({
            let plan = spec_announce_commands(req, ip, drop_threshold, now_secs);
            let v6 = ip.spec_is_v6();
            &&& plan.len() == 7
            &&& plan[6] matches CommandModel::Add(key, score, member) && score == now_secs * 1000
                && member == spec_compact_peer(ip, req.1) && key == (if req.2 == 0 {
                seeds_key(req.0, v6)
            } else {
                peers_key(req.0, v6)
            })
            &&& forall|i: int|
                0 <= i < plan.len() ==> (#[trigger] plan[i] matches CommandModel::RemoveRangeByScore(
                    _,
                    min,
                    max,
                ) ==> min == 0 && max == now_secs * 1000 - drop_threshold * 1000)
        }),
{
}

proof fn lemma_ascii_literal_bytes(s: &str)
    requires
        is_ascii_chars(s@),
    ensures
        s.spec_bytes() =~= Seq::new(s@.len(), |i: int| s@[i] as u8),
{
    is_ascii_chars_encode_utf8(s@);
}

/// The bytes of the parameter names an announce reads.
proof fn lemma_parameter_names()
    ensures
        "info_hash".spec_bytes() == seq![0x69u8, 0x6e, 0x66, 0x6f, 0x5f, 0x68, 0x61, 0x73, 0x68],
        "port".spec_bytes() == seq![0x70u8, 0x6f, 0x72, 0x74],
        "left".spec_bytes() == seq![0x6cu8, 0x65, 0x66, 0x74],
        "compact".spec_bytes() == seq![0x63u8, 0x6f, 0x6d, 0x70, 0x61, 0x63, 0x74],
        "numwant".spec_bytes() == seq![0x6eu8, 0x75, 0x6d, 0x77, 0x61, 0x6e, 0x74],
{
    reveal_strlit("info_hash");
    reveal_strlit("port");
    reveal_strlit("left");
    reveal_strlit("compact");
    reveal_strlit("numwant");
    lemma_ascii_literal_bytes("info_hash");
    lemma_ascii_literal_bytes("port");
    lemma_ascii_literal_bytes("left");
    lemma_ascii_literal_bytes("compact");
    lemma_ascii_literal_bytes("numwant");
    assert("info_hash".spec_bytes() =~= seq![0x69u8, 0x6e, 0x66, 0x6f, 0x5f, 0x68, 0x61, 0x73, 0x68]);
    assert("port".spec_bytes() =~= seq![0x70u8, 0x6f, 0x72, 0x74]);
    assert("left".spec_bytes() =~= seq![0x6cu8, 0x65, 0x66, 0x74]);
    assert("compact".spec_bytes() =~= seq![0x63u8, 0x6f, 0x6d, 0x70, 0x61, 0x63, 0x74]);
    assert("numwant".spec_bytes() =~= seq![0x6eu8, 0x75, 0x6d, 0x77, 0x61, 0x6e, 0x74]);
}

/// The announce query `info_hash=RAW&port=P&left=L&compact=1`, followed by
/// `&numwant=W` where a `numwant` is given, with the numbers in decimal.
pub open spec fn announce_query(raw: Seq<u8>, port: u16, left: u64, numwant: Option<u64>) -> Seq<u8> {
    let base = pair_bytes("info_hash".spec_bytes(), raw) + seq![0x26u8] + pair_bytes(
        "port".spec_bytes(),
        decimal(port as nat),
    ) + seq![0x26u8] + pair_bytes("left".spec_bytes(), decimal(left as nat)) + seq![0x26u8]
        + pair_bytes("compact".spec_bytes(), decimal(1));
    match numwant {
        Some(w) => base + seq![0x26u8] + pair_bytes("numwant".spec_bytes(), decimal(w as nat)),
        None => base,
    }
}

proof fn lemma_decimal_is_plain(n: nat)
    ensures
        is_plain_value(decimal(n)),
{
    lemma_decimal_shape(n);
    let d = decimal(n);
    assert forall|i: int| 0 <= i < d.len() implies #[trigger] d[i] != 0x26u8 by {
        assert(0x30u8 <= d[i]);
    }
}

/// An announce reads back what its query carries: with a valid info hash, any port,
/// any `left` up to `u64::MAX` and `compact=1`, it is accepted with exactly that info
/// hash, port and `left`, and with the `numwant` given, or 50 where none is.
pub proof fn lemma_parse_announce_reads_values(
    raw: Seq<u8>,
    port: u16,
    left: u64,
    numwant: Option<u64>,
)
    requires
        is_plain_value(raw),
        spec_parse_info_hash(raw) is Ok,
    ensures
        spec_parse_announce(announce_query(raw, port, left, numwant)) == Ok::<
            (Seq<char>, u16, u64, u64),
            Seq<char>,
        >((
            spec_parse_info_hash(raw)->Ok_0,
            port,
            left,
            match numwant {
                Some(w) => w,
                None => 50u64,
            },
        )),
{
    lemma_parameter_names();
    let k_hash = "info_hash".spec_bytes();
    let k_port = "port".spec_bytes();
    let k_left = "left".spec_bytes();
    let k_compact = "compact".spec_bytes();
    let k_numwant = "numwant".spec_bytes();
    assert(is_plain_key(k_hash));
    assert(is_plain_key(k_port));
    assert(is_plain_key(k_left));
    assert(is_plain_key(k_compact));
    assert(is_plain_key(k_numwant));
    assert(k_hash != k_port && k_hash != k_left && k_hash != k_compact && k_hash != k_numwant) by {
        assert(k_hash.len() != k_port.len() && k_hash.len() != k_left.len());
        assert(k_hash.len() != k_compact.len() && k_hash.len() != k_numwant.len());
    }
    assert(k_port != k_left) by {
        assert(k_port[0] != k_left[0]);
    }
    assert(k_port != k_compact && k_port != k_numwant) by {
        assert(k_port.len() != k_compact.len() && k_port.len() != k_numwant.len());
    }
    assert(k_left != k_compact && k_left != k_numwant) by {
        assert(k_left.len() != k_compact.len() && k_left.len() != k_numwant.len());
    }
    assert(k_compact != k_numwant) by {
        assert(k_compact[0] != k_numwant[0]);
    }
    let dp = decimal(port as nat);
    let dl = decimal(left as nat);
    let d1 = decimal(1);
    lemma_decimal_is_plain(port as nat);
    lemma_decimal_is_plain(left as nat);
    lemma_decimal_is_plain(1);
    lemma_decimal_parses_back(port as nat, 65535);
    lemma_decimal_parses_back(left as nat, u64::MAX as nat);
    lemma_decimal_parses_back(1, u64::MAX as nat);

    let a = pair_bytes(k_hash, raw);
    let b = a + seq![0x26u8] + pair_bytes(k_port, dp);
    let c = b + seq![0x26u8] + pair_bytes(k_left, dl);
    let d = c + seq![0x26u8] + pair_bytes(k_compact, d1);
    let q = announce_query(raw, port, left, numwant);

    // Lookups in the query without `numwant`.
    lemma_lookup_single_pair(k_hash, raw);
    lemma_lookup_other_pair(a, k_hash, k_port, dp);
    lemma_lookup_other_pair(b, k_hash, k_left, dl);
    lemma_lookup_other_pair(c, k_hash, k_compact, d1);
    lemma_lookup_last_pair_wins(a, k_port, dp);
    lemma_lookup_other_pair(b, k_port, k_left, dl);
    lemma_lookup_other_pair(c, k_port, k_compact, d1);
    lemma_lookup_last_pair_wins(b, k_left, dl);
    lemma_lookup_other_pair(c, k_left, k_compact, d1);
    lemma_lookup_last_pair_wins(c, k_compact, d1);
    lemma_lookup_single_other_pair(k_hash, raw, k_numwant);
    lemma_lookup_other_pair(a, k_numwant, k_port, dp);
    lemma_lookup_other_pair(b, k_numwant, k_left, dl);
    lemma_lookup_other_pair(c, k_numwant, k_compact, d1);

    match numwant {
        Some(w) => {
            let dw = decimal(w as nat);
            lemma_decimal_is_plain(w as nat);
            lemma_decimal_parses_back(w as nat, u64::MAX as nat);
            assert(q == d + seq![0x26u8] + pair_bytes(k_numwant, dw));
            lemma_lookup_other_pair(d, k_hash, k_numwant, dw);
            lemma_lookup_other_pair(d, k_port, k_numwant, dw);
            lemma_lookup_other_pair(d, k_left, k_numwant, dw);
            lemma_lookup_other_pair(d, k_compact, k_numwant, dw);
            lemma_lookup_last_pair_wins(d, k_numwant, dw);
        },
        None => {
            assert(q == d);
        },
    }
}

} // verus!
