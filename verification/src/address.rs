//! The wire form of the address of a peer, and the packet that tells of a
//! peer that went away.

use vstd::prelude::*;
use crate::serializer::{Reader, ReaderError, Writer};

verus! {

/// The address of a host.
#[derive(Clone, Copy, Debug, PartialEq, Eq, Structural)]
pub enum IpAddress {
    /// Four numbers of one byte.
    V4(u8, u8, u8, u8),
    /// Eight numbers of two bytes.
    V6(u16, u16, u16, u16, u16, u16, u16, u16),
}

/// The address of a peer: a host and a port.
#[derive(Clone, Copy, Debug, PartialEq, Eq, Structural)]
pub struct SocketAddress {
    pub ip: IpAddress,
    pub port: u16,
}

/// The two bytes of a number, the greater first.
pub open spec fn pair(n: u16) -> Seq<u8> {
    seq![(n / 256) as u8, (n % 256) as u8]
}

/// The wire form of an address: a byte that tells the kind of host, the
/// numbers of the host, and the port.
pub open spec fn address_bytes(address: SocketAddress) -> Seq<u8> {
    match address.ip {
        IpAddress::V4(a, b, c, d) => seq![0u8, a, b, c, d] + pair(address.port),
        IpAddress::V6(a, b, c, d, e, f, g, h) => seq![1u8] + pair(a) + pair(b) + pair(c) + pair(d)
            + pair(e) + pair(f) + pair(g) + pair(h) + pair(address.port),
    }
}

/// The number of two bytes that `bytes` holds at `at`, the greater first.
pub open spec fn number_at(bytes: Seq<u8>, at: int) -> u16 {
    (bytes[at] as int * 256 + bytes[at + 1] as int) as u16
}

/// The address that the front of `bytes` holds, with the number of bytes it
/// takes, or nothing where the bytes end too early.
pub open spec fn read_address(bytes: Seq<u8>) -> Option<(SocketAddress, int)> {
    if bytes.len() < 1 {
        None
    } else if bytes[0] != 1 {
        if bytes.len() < 7 {
            None
        } else {
            Some(
                (
                    SocketAddress {
                        ip: IpAddress::V4(bytes[1], bytes[2], bytes[3], bytes[4]),
                        port: number_at(bytes, 5),
                    },
                    7,
                ),
            )
        }
    } else if bytes.len() < 19 {
        None
    } else {
        Some(
            (
                SocketAddress {
                    ip: IpAddress::V6(
                        number_at(bytes, 1),
                        number_at(bytes, 3),
                        number_at(bytes, 5),
                        number_at(bytes, 7),
                        number_at(bytes, 9),
                        number_at(bytes, 11),
                        number_at(bytes, 13),
                        number_at(bytes, 15),
                    ),
                    port: number_at(bytes, 17),
                },
                19,
            ),
        )
    }
}

fn push_pair(bytes: &mut Vec<u8>, n: u16)
    ensures
        final(bytes)@ == old(bytes)@ + pair(n),
{
    bytes.push((n / 256) as u8);
    bytes.push((n % 256) as u8);
    proof {
        assert(bytes@ =~= old(bytes)@ + pair(n));
    }
}

/// The wire form of an address.
pub fn ip_to_bytes(ip: &SocketAddress) -> (bytes: Vec<u8>)
    ensures
        bytes@ == address_bytes(*ip),
{
    let mut bytes: Vec<u8> = Vec::new();
    match ip.ip {
        IpAddress::V4(a, b, c, d) => {
            bytes.push(0);
            bytes.push(a);
            bytes.push(b);
            bytes.push(c);
            bytes.push(d);
            proof {
                assert(bytes@ =~= seq![0u8, a, b, c, d]);
            }
        },
        IpAddress::V6(a, b, c, d, e, f, g, h) => {
            bytes.push(1);
            proof {
                assert(bytes@ =~= seq![1u8]);
            }
            push_pair(&mut bytes, a);
            push_pair(&mut bytes, b);
            push_pair(&mut bytes, c);
            push_pair(&mut bytes, d);
            push_pair(&mut bytes, e);
            push_pair(&mut bytes, f);
            push_pair(&mut bytes, g);
            push_pair(&mut bytes, h);
        },
    }
    push_pair(&mut bytes, ip.port);
    bytes
}

/// Reads an address. Where the bytes end before the address does, the reader
/// may have moved on.
pub fn ip_from_bytes(reader: &mut Reader) -> (r: Result<SocketAddress, ReaderError>)
    ensures
        match r {
            Ok(address) => read_address(old(reader).left()) matches Some((read, taken)) && read
                == address && final(reader).left() == old(reader).left().skip(taken),
            Err(e) => read_address(old(reader).left()) is None && e == ReaderError::InvalidSize,
        },
{
    let ghost bytes = reader.left();
    let is_v6 = reader.read_bool()?;
    if !is_v6 {
        let a = reader.read_u8()?;
        let b = reader.read_u8()?;
        let c = reader.read_u8()?;
        let d = reader.read_u8()?;
        let port = reader.read_u16()?;
        proof {
            assert(reader.left() =~= bytes.skip(7));
        }
        Ok(SocketAddress { ip: IpAddress::V4(a, b, c, d), port })
    } else {
        let a = reader.read_u16()?;
        let b = reader.read_u16()?;
        let c = reader.read_u16()?;
        let d = reader.read_u16()?;
        let e = reader.read_u16()?;
        let f = reader.read_u16()?;
        let g = reader.read_u16()?;
        let h = reader.read_u16()?;
        let port = reader.read_u16()?;
        proof {
            assert(reader.left() =~= bytes.skip(19));
        }
        Ok(SocketAddress { ip: IpAddress::V6(a, b, c, d, e, f, g, h), port })
    }
}

/// Reading the wire form of an address, whatever follows it, gives the
/// address back and takes exactly its wire form.
pub proof fn lemma_address_round_trip(address: SocketAddress, rest: Seq<u8>)
    ensures
        read_address(address_bytes(address) + rest) == Some(
            (address, address_bytes(address).len() as int),
        ),
{
    let bytes = address_bytes(address) + rest;
    match address.ip {
        IpAddress::V4(a, b, c, d) => {
            assert(address_bytes(address).len() == 7);
            assert(bytes[0] == 0 && bytes[1] == a && bytes[2] == b && bytes[3] == c && bytes[4]
                == d);
            assert(bytes[5] == (address.port / 256) as u8 && bytes[6] == (address.port % 256) as u8);
        },
        IpAddress::V6(a, b, c, d, e, f, g, h) => {
            assert(address_bytes(address).len() == 19);
            assert(bytes[0] == 1);
            assert(bytes[1] == (a / 256) as u8 && bytes[2] == (a % 256) as u8);
            assert(bytes[3] == (b / 256) as u8 && bytes[4] == (b % 256) as u8);
            assert(bytes[5] == (c / 256) as u8 && bytes[6] == (c % 256) as u8);
            assert(bytes[7] == (d / 256) as u8 && bytes[8] == (d % 256) as u8);
            assert(bytes[9] == (e / 256) as u8 && bytes[10] == (e % 256) as u8);
            assert(bytes[11] == (f / 256) as u8 && bytes[12] == (f % 256) as u8);
            assert(bytes[13] == (g / 256) as u8 && bytes[14] == (g % 256) as u8);
            assert(bytes[15] == (h / 256) as u8 && bytes[16] == (h % 256) as u8);
            assert(bytes[17] == (address.port / 256) as u8 && bytes[18] == (address.port
                % 256) as u8);
        },
    }
}

/// The packet that tells a peer that one of our peers went away, so that
/// both keep track of the peers they have in common.
#[derive(Clone, Copy, Debug, PartialEq, Eq, Structural)]
pub struct PacketPeerDisconnected {
    pub addr: SocketAddress,
}

impl PacketPeerDisconnected {
    pub fn new(addr: SocketAddress) -> (packet: PacketPeerDisconnected)
        ensures
            packet.addr == addr,
    {
        PacketPeerDisconnected { addr }
    }

    pub fn get_addr(&self) -> (addr: &SocketAddress)
        ensures
            *addr == self.addr,
    {
        &self.addr
    }

    /// Reads the packet: the address of the peer.
    pub fn read(reader: &mut Reader) -> (r: Result<PacketPeerDisconnected, ReaderError>)
        ensures
            match r {
                Ok(packet) => read_address(old(reader).left()) matches Some((read, taken)) && read
                    == packet.addr && final(reader).left() == old(reader).left().skip(taken),
                Err(e) => read_address(old(reader).left()) is None && e == ReaderError::InvalidSize,
            },
    {
        let addr = ip_from_bytes(reader)?;
        Ok(PacketPeerDisconnected::new(addr))
    }

    /// Writes the packet: the address of the peer.
    pub fn write(&self, writer: &mut Writer)
        ensures
            final(writer).bytes@ == old(writer).bytes@ + address_bytes(self.addr),
    {
        writer.write_bytes(&ip_to_bytes(&self.addr));
    }
}

} // verus!
