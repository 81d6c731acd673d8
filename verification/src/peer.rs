//! Peer addresses and their compact encoding.

use byteorder::{BigEndian, WriteBytesExt};
use vstd::prelude::*;

verus! {

/// An IP address: four octets, or eight 16-bit segments.
#[derive(Clone, Copy, Debug)]
pub enum IpAddress {
    V4([u8; 4]),
    V6([u16; 8]),
}

impl IpAddress {
    /// Whether this is an IPv6 address.
    pub open spec fn spec_is_v6(&self) -> bool {
        self is V6
    }

    /// Whether this is an IPv6 address.
    #[verifier::when_used_as_spec(spec_is_v6)]
    pub fn is_v6(&self) -> (r: bool)
        ensures
            r == self.spec_is_v6(),
    {
        match self {
            IpAddress::V4(_) => false,
            IpAddress::V6(_) => true,
        }
    }
}

/// The two bytes of `v`, most significant first.
pub open spec fn be16(v: u16) -> Seq<u8> {
    seq![(v / 256) as u8, (v % 256) as u8]
}

/// The big-endian bytes of a sequence of 16-bit segments.
pub open spec fn be16_all(segments: Seq<u16>) -> Seq<u8>
    decreases segments.len(),
{
    if segments.len() == 0 {
        Seq::<u8>::empty()
    } else {
        be16_all(segments.drop_last()) + be16(segments.last())
    }
}

/// The compact form of a peer: the address bytes in network order, then the
/// port, big-endian.
pub open spec fn spec_compact_peer(ip: IpAddress, port: u16) -> Seq<u8> {
    match ip {
        IpAddress::V4(octets) => octets@ + be16(port),
        IpAddress::V6(segments) => be16_all(segments@) + be16(port),
    }
}

/// The length of a compact peer entry of the given family.
pub open spec fn compact_peer_len(v6: bool) -> nat {
    if v6 {
        18
    } else {
        6
    }
}

/// `WriteBytesExt::write_u16::<BigEndian>` of the byteorder crate, on a `Vec<u8>`:
/// it appends the two bytes of `value`, most significant first. Writing to a
/// `Vec<u8>` only appends, so it cannot fail.
#[verifier::external_body]
fn write_u16_be(buf: &mut Vec<u8>, value: u16)
    ensures
        final(buf)@ == old(buf)@ + be16(value),
{
    buf.write_u16::<BigEndian>(value).unwrap()
}

/// Generates the compact peer entry (address, then port) announced to other peers.
pub fn generate_peer(ip: IpAddress, port: u16) -> (retval: Vec<u8>)
    ensures
        retval@ == spec_compact_peer(ip, port),
        retval@.len() == compact_peer_len(ip.spec_is_v6()),
{
    let mut retval: Vec<u8>;
    match ip {
        IpAddress::V4(octets) => {
            retval = Vec::with_capacity(6);
            for i in 0..4
                invariant
                    retval@ == octets@.subrange(0, i as int),
            {
                retval.push(octets[i]);
                assert(octets@.subrange(0, i + 1) =~= octets@.subrange(0, i as int).push(octets@[i as int]));
            }
            assert(octets@.subrange(0, 4) =~= octets@);
        },
        IpAddress::V6(segments) => {
            retval = Vec::with_capacity(18);
            for i in 0..8
                invariant
                    retval@ == be16_all(segments@.subrange(0, i as int)),
                    retval@.len() == 2 * i,
            {
                write_u16_be(&mut retval, segments[i]);
                assert(segments@.subrange(0, i + 1).drop_last() =~= segments@.subrange(0, i as int));
            }
            assert(segments@.subrange(0, 8) =~= segments@);
        },
    }
    write_u16_be(&mut retval, port);
    retval
}

/// The address a peer is announced under: the one it asked for, where it gave one of
/// the family it connected with, else the address it connected from.
pub open spec fn spec_select_ip(requested: Option<IpAddress>, remote: IpAddress) -> IpAddress {
    match requested {
        Some(ip) => if ip.spec_is_v6() == remote.spec_is_v6() {
            ip
        } else {
            remote
        },
        None => remote,
    }
}

/// Chooses the address a peer is announced under (see [`spec_select_ip`]).
pub fn select_ip(requested: Option<IpAddress>, remote: IpAddress) -> (ip: IpAddress)
    ensures
        ip == spec_select_ip(requested, remote),
        ip.spec_is_v6() == remote.spec_is_v6(),
{
    match requested {
        Some(ip) => if ip.is_v6() == remote.is_v6() {
            ip
        } else {
            remote
        },
        None => remote,
    }
}

/// The peer entry written for an announce has the size of the family the peer
/// connected with, whatever address it asked for.
pub proof fn lemma_selected_peer_len(requested: Option<IpAddress>, remote: IpAddress, port: u16)
    ensures
        spec_compact_peer(spec_select_ip(requested, remote), port).len() == compact_peer_len(
            remote.spec_is_v6(),
        ),
{
    let ip = spec_select_ip(requested, remote);
    match ip {
        IpAddress::V4(octets) => {},
        IpAddress::V6(segments) => {
            lemma_be16_all_len(segments@);
        },
    }
}

/// Each segment gives two bytes.
pub proof fn lemma_be16_all_len(segments: Seq<u16>)
    ensures
        be16_all(segments).len() == 2 * segments.len(),
    decreases segments.len(),
{
    if segments.len() > 0 {
        lemma_be16_all_len(segments.drop_last());
    }
}

/// A peer is announced under the address it asks for whenever that address is of
/// the family it connected with, over IPv6 as over IPv4; otherwise, or where it asks
/// for none, under the address it connected from.
pub proof fn lemma_select_ip_prefers_request(asked: IpAddress, remote: IpAddress)
    ensures
        asked.spec_is_v6() == remote.spec_is_v6() ==> spec_select_ip(Some(asked), remote) == asked,
        asked.spec_is_v6() != remote.spec_is_v6() ==> spec_select_ip(Some(asked), remote) == remote,
        spec_select_ip(None, remote) == remote,
{
}

} // verus!
