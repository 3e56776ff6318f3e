//! IPv4: addresses, the header, the ones' complement checksum, and one route.
//!
//! Reassembly is left out. A datagram that arrives as a fragment -- either the
//! more-fragments bit is set or the fragment offset is non-zero -- is dropped
//! rather than held, so nothing above ever sees half a datagram. Nothing this
//! stack sends is larger than the link's maximum transmission unit, so it
//! never fragments either: a payload that would not fit is refused with
//! EMSGSIZE at the protocol that offered it.

use crate::bytes::{self, extend, push_be16, push_be32, put_be16, read_be16, read_be32};
use crate::errno::Errno;
use crate::net::arp;
use crate::net::config;
use crate::net::ether;
use crate::net::link::{loop_back, source_for, Link, LinkView};
use crate::net::icmp;
use crate::net::stack::Net;
use crate::net::tcp;
use crate::net::tcp_table;
use crate::net::udp;
use vstd::prelude::*;
use vstd::slice::slice_subrange;
use vstd::string::StringSliceAdditionalSpecFns;

verus! {

/// An IPv4 address, held in host byte order.
#[derive(Clone, Copy, PartialEq, Eq, PartialOrd, Ord, Debug, Default, Structural)]
pub struct Ipv4Addr(pub u32);

impl Ipv4Addr {
    /// The address written `a.b.c.d`.
    pub open spec fn dotted(a: int, b: int, c: int, d: int) -> Ipv4Addr {
        Ipv4Addr((a * 0x100_0000 + b * 0x1_0000 + c * 0x100 + d) as u32)
    }

    /// The address's four bytes, in the order they go on the wire.
    pub open spec fn octets(self) -> Seq<u8> {
        bytes::be32_bytes(self.0 as int)
    }

    /// 0.0.0.0.
    pub open spec fn unspecified(self) -> bool {
        self.0 == 0
    }

    /// 255.255.255.255.
    pub open spec fn limited_broadcast(self) -> bool {
        self.0 == 0xFFFF_FFFF
    }

    /// 224.0.0.0 to 239.255.255.255.
    pub open spec fn multicast(self) -> bool {
        0xE000_0000 <= self.0 < 0xF000_0000
    }

    /// 127.0.0.0 to 127.255.255.255.
    pub open spec fn loopback(self) -> bool {
        0x7F00_0000 <= self.0 < 0x8000_0000
    }

    pub fn new(a: u8, b: u8, c: u8, d: u8) -> (address: Ipv4Addr)
        ensures
            address == Ipv4Addr::dotted(a as int, b as int, c as int, d as int),
            address.octets() == seq![a, b, c, d],
    {
        let address = Ipv4Addr(
            a as u32 * 0x100_0000 + b as u32 * 0x1_0000 + c as u32 * 0x100 + d as u32,
        );
        proof {
            bytes::be32_digits(a, b, c, d);
        }
        address
    }

    pub fn from_be_bytes(bytes: [u8; 4]) -> (address: Ipv4Addr)
        ensures
            address.0 == bytes::be32(bytes@, 0),
            address.octets() == bytes@,
    {
        let address = Ipv4Addr::new(bytes[0], bytes[1], bytes[2], bytes[3]);
        assert(address.octets() =~= bytes@);
        address
    }

    pub fn to_be_bytes(self) -> (bytes: [u8; 4])
        ensures
            bytes@ == self.octets(),
    {
        let v: u32 = self.0;
        let bytes: [u8; 4] = [
            (v / 0x100_0000) as u8,
            (v / 0x1_0000 % 0x100) as u8,
            (v / 0x100 % 0x100) as u8,
            (v % 0x100) as u8,
        ];
        assert(bytes@ =~= self.octets());
        bytes
    }

    pub fn is_unspecified(self) -> (r: bool)
        ensures
            r == self.unspecified(),
    {
        self.0 == 0
    }

    pub fn is_broadcast(self) -> (r: bool)
        ensures
            r == self.limited_broadcast(),
    {
        self.0 == 0xFFFF_FFFF
    }

    pub fn is_multicast(self) -> (r: bool)
        ensures
            r == self.multicast(),
    {
        self.0 / 0x1000_0000 == 0xE
    }

    pub fn is_loopback(self) -> (r: bool)
        ensures
            r == self.loopback(),
    {
        self.0 / 0x100_0000 == 127
    }
}

/// The address at `at` of a packet.
pub fn address_at(bytes: &[u8], at: usize) -> (address: Ipv4Addr)
    requires
        at + 4 <= bytes@.len(),
    ensures
        address.0 == bytes::be32(bytes@, at as int),
{
    Ipv4Addr(read_be32(bytes, at))
}

pub fn push_address(out: &mut Vec<u8>, address: Ipv4Addr)
    ensures
        final(out)@ == old(out)@ + address.octets(),
{
    push_be32(out, address.0);
}

/// An address is the number its four bytes spell.
pub proof fn octets_round_trip(address: Ipv4Addr)
    ensures
        bytes::be32(address.octets(), 0) == address.0,
{
}

// ---- dotted quad notation --------------------------------------------------

/// The pieces `separator` cuts a text into. There is always at least one, and
/// one more for each separator.
pub open spec fn split(text: Seq<u8>, separator: u8) -> Seq<Seq<u8>>
    decreases text.len(),
{
    if text.len() == 0 {
        seq![Seq::<u8>::empty()]
    } else {
        let before = split(text.drop_last(), separator);
        if text.last() == separator {
            before.push(Seq::<u8>::empty())
        } else {
            before.drop_last().push(before.last().push(text.last()))
        }
    }
}

pub open spec fn is_digit(byte: u8) -> bool {
    0x30 <= byte <= 0x39
}

/// The number a run of decimal digits spells.
pub open spec fn decimal(digits: Seq<u8>) -> int
    decreases digits.len(),
{
    if digits.len() == 0 {
        0
    } else {
        decimal(digits.drop_last()) * 10 + (digits.last() - 0x30)
    }
}

/// The digits of a number that may carry a plus sign.
pub open spec fn unsigned(part: Seq<u8>) -> Seq<u8> {
    if part.len() > 0 && part[0] == 0x2B {
        part.skip(1)
    } else {
        part
    }
}

/// One part of a dotted quad: one to three characters that spell a number
/// below 256.
pub open spec fn is_octet(part: Seq<u8>) -> bool {
    &&& 1 <= part.len() <= 3
    &&& unsigned(part).len() > 0
    &&& forall|i: int| 0 <= i < unsigned(part).len() ==> is_digit(#[trigger] unsigned(part)[i])
    &&& decimal(unsigned(part)) < 256
}

/// Four numbers separated by dots.
pub open spec fn is_dotted_quad(text: Seq<u8>) -> bool {
    let parts = split(text, 0x2E);
    &&& parts.len() == 4
    &&& is_octet(parts[0])
    &&& is_octet(parts[1])
    &&& is_octet(parts[2])
    &&& is_octet(parts[3])
}

pub open spec fn octet_value(part: Seq<u8>) -> int {
    decimal(unsigned(part))
}

/// The address a dotted quad names.
pub open spec fn dotted_quad(text: Seq<u8>) -> Ipv4Addr {
    let parts = split(text, 0x2E);
    Ipv4Addr::dotted(
        octet_value(parts[0]),
        octet_value(parts[1]),
        octet_value(parts[2]),
        octet_value(parts[3]),
    )
}

/// One to three decimal digits, with an optional plus sign among them, below
/// 256.
fn parse_octet(part: &[u8]) -> (value: Option<u8>)
    ensures
        value is Some <==> is_octet(part@),
        value matches Some(v) ==> v == octet_value(part@),
{
    if part.len() == 0 || part.len() > 3 {
        return None;
    }
    let start: usize = if part[0] == 0x2B {
        1
    } else {
        0
    };
    let ghost digits = unsigned(part@);
    assert(digits =~= part@.skip(start as int));
    if start == part.len() {
        return None;
    }
    let mut value: u32 = 0;
    let mut i: usize = start;
    while i < part.len()
        invariant
            start <= i <= part@.len() <= 3,
            start <= 1,
            digits == part@.skip(start as int),
            digits == unsigned(part@),
            forall|k: int| 0 <= k < i - start ==> is_digit(#[trigger] digits[k]),
            value == decimal(digits.take(i - start)),
            i - start == 0 ==> value == 0,
            i - start == 1 ==> value < 10,
            i - start == 2 ==> value < 100,
            i - start == 3 ==> value < 1000,
        decreases part@.len() - i,
    {
        assert(digits[i - start] == part@[i as int]);
        if part[i] < 0x30 || part[i] > 0x39 {
            assert(!is_digit(unsigned(part@)[i - start]));
            return None;
        }
        value = value * 10 + (part[i] - 0x30) as u32;
        i += 1;
        assert(digits.take(i - start).drop_last() =~= digits.take(i - 1 - start));
    }
    assert(digits.take(i - start) =~= digits);
    if value > 255 {
        return None;
    }
    Some(value as u8)
}

/// Cut a text into its pieces.
fn split_text(text: &[u8], separator: u8) -> (parts: Vec<Vec<u8>>)
    ensures
        parts@.len() == split(text@, separator).len(),
        forall|k: int|
            0 <= k < parts@.len() ==> (#[trigger] parts@[k])@ == split(text@, separator)[k],
{
    let mut parts: Vec<Vec<u8>> = Vec::new();
    let mut current: Vec<u8> = Vec::new();
    let mut i: usize = 0;
    assert(text@.take(0).len() == 0);
    assert(current@ =~= Seq::<u8>::empty());
    while i < text.len()
        invariant
            i <= text@.len(),
            parts@.len() + 1 == split(text@.take(i as int), separator).len(),
            forall|k: int|
                0 <= k < parts@.len() ==> (#[trigger] parts@[k])@ == split(
                    text@.take(i as int),
                    separator,
                )[k],
            current@ == split(text@.take(i as int), separator).last(),
        decreases text@.len() - i,
    {
        let ghost before = text@.take(i as int);
        let ghost now = text@.take(i + 1);
        assert(now.drop_last() =~= before);
        if text[i] == separator {
            parts.push(current);
            current = Vec::new();
            assert(current@ =~= Seq::<u8>::empty());
        } else {
            current.push(text[i]);
        }
        i += 1;
    }
    assert(text@.take(i as int) =~= text@);
    parts.push(current);
    parts
}

/// Parse dotted quad notation. Used by the kernel command line.
pub fn parse_address(text: &str) -> (address: Option<Ipv4Addr>)
    ensures
        address is Some <==> is_dotted_quad(text.spec_bytes()),
        address matches Some(a) ==> a == dotted_quad(text.spec_bytes()),
{
    let parts = split_text(text.as_bytes(), 0x2E);
    if parts.len() != 4 {
        return None;
    }
    match (
        parse_octet(parts[0].as_slice()),
        parse_octet(parts[1].as_slice()),
        parse_octet(parts[2].as_slice()),
        parse_octet(parts[3].as_slice()),
    ) {
        (Some(a), Some(b), Some(c), Some(d)) => Some(Ipv4Addr::new(a, b, c, d)),
        _ => None,
    }
}

// ---- the checksum ----------------------------------------------------------

pub const PROTO_ICMP: u8 = 1;

pub const PROTO_TCP: u8 = 6;

pub const PROTO_UDP: u8 = 17;

pub const HEADER_LEN: usize = 20;

pub const DEFAULT_TTL: u8 = 64;

pub const FLAG_DONT_FRAGMENT: u16 = 0x4000;

pub const FLAG_MORE_FRAGMENTS: u16 = 0x2000;

pub const FRAGMENT_OFFSET_MASK: u16 = 0x1FFF;

/// The sum of a byte string's sixteen bit big-endian words, with the odd
/// trailing byte treated as the high half of a word.
pub open spec fn word_sum(s: Seq<u8>) -> int
    decreases s.len(),
{
    if s.len() == 0 {
        0
    } else if s.len() == 1 {
        s[0] * 0x100
    } else {
        bytes::be16(s, 0) + word_sum(s.skip(2))
    }
}

/// The sixteen bit ones' complement number a running sum stands for, once the
/// carries are folded back in: the remainder modulo 65535, with zero kept for
/// the sum that is zero itself.
pub open spec fn folded(total: int) -> int {
    if total == 0 {
        0
    } else {
        (total - 1) % 0xFFFF + 1
    }
}

/// The checksum a running sum gives: the complement of the folded number.
pub open spec fn complement(total: int) -> int {
    0xFFFF - folded(total)
}

/// The checksum of a byte string.
pub open spec fn checksum_of(s: Seq<u8>) -> int {
    complement(word_sum(s))
}

/// A sum of words is no more than all its words at their largest.
pub proof fn word_sum_bound(s: Seq<u8>)
    ensures
        0 <= word_sum(s) <= 0xFFFF * ((s.len() + 1) / 2),
    decreases s.len(),
{
    if s.len() >= 2 {
        word_sum_bound(s.skip(2));
        assert(s.skip(2).len() == s.len() - 2);
    }
}

/// Putting a number over two zero bytes that line up with a word adds it to
/// the sum.
pub proof fn word_sum_put(s: Seq<u8>, at: int, value: int)
    requires
        0 <= at,
        at + 1 < s.len(),
        at % 2 == 0,
        s[at] == 0,
        s[at + 1] == 0,
        0 <= value <= 0xFFFF,
    ensures
        word_sum(bytes::put16(s, at, value)) == word_sum(s) + value,
    decreases s.len(),
{
    let t = bytes::put16(s, at, value);
    if at == 0 {
        assert(t.skip(2) =~= s.skip(2));
    } else {
        word_sum_put(s.skip(2), at - 2, value);
        assert(t.skip(2) =~= bytes::put16(s.skip(2), at - 2, value));
        assert(t[0] == s[0] && t[1] == s[1]);
    }
}

/// Words that are even in length keep their sum when more follow them.
pub proof fn word_sum_concat(a: Seq<u8>, b: Seq<u8>)
    requires
        a.len() % 2 == 0,
    ensures
        word_sum(a + b) == word_sum(a) + word_sum(b),
    decreases a.len(),
{
    if a.len() == 0 {
        assert(a + b =~= b);
    } else {
        word_sum_concat(a.skip(2), b);
        assert((a + b).skip(2) =~= a.skip(2) + b);
    }
}

/// Adding the checksum to the sum it was taken over leaves a sum whose own
/// checksum is zero, which is what a receiver tests for.
pub proof fn complement_cancels(total: int)
    requires
        0 <= total,
    ensures
        complement(total + complement(total)) == 0,
        0 <= complement(total) <= 0xFFFF,
{
    if total > 0 {
        let f = folded(total);
        assert(total - f == 0xFFFF * ((total - 1) / 0xFFFF));
        let sum = total + 0xFFFF - f;
        assert(sum - 1 == 0xFFFF * ((total - 1) / 0xFFFF) + 0xFFFE);
        assert((sum - 1) % 0xFFFF == 0xFFFE);
    }
}

/// A packet whose checksum field was zero while the checksum was taken, and
/// then filled in with it, passes the receiver's test. `rest` is whatever else
/// the sum covers, such as a pseudo header.
pub proof fn checksum_fills_in(s: Seq<u8>, at: int, rest: int)
    requires
        0 <= at,
        at + 1 < s.len(),
        at % 2 == 0,
        s[at] == 0,
        s[at + 1] == 0,
        0 <= rest,
    ensures
        complement(rest + word_sum(bytes::put16(s, at, complement(rest + word_sum(s))))) == 0,
{
    word_sum_bound(s);
    complement_cancels(rest + word_sum(s));
    word_sum_put(s, at, complement(rest + word_sum(s)));
}

/// A running sum of sixteen bit big-endian words, with the odd trailing byte
/// treated as the high half of a word.
pub fn sum(bytes: &[u8], start: u32) -> (total: u32)
    requires
        start + word_sum(bytes@) <= u32::MAX,
    ensures
        total == start + word_sum(bytes@),
{
    let mut total: u32 = start;
    let mut i: usize = 0;
    assert(bytes@.skip(0) =~= bytes@);
    while bytes.len() - i > 1
        invariant
            i <= bytes@.len(),
            total + word_sum(bytes@.skip(i as int)) == start + word_sum(bytes@),
            start + word_sum(bytes@) <= u32::MAX,
        decreases bytes@.len() - i,
    {
        proof {
            assert(bytes@.skip(i as int).skip(2) =~= bytes@.skip(i + 2));
            word_sum_bound(bytes@.skip(i + 2));
            assert(bytes::be16(bytes@.skip(i as int), 0) == bytes::be16(bytes@, i as int));
        }
        total += read_be16(bytes, i) as u32;
        i += 2;
    }
    if i < bytes.len() {
        total += bytes[i] as u32 * 0x100;
    }
    total
}

/// Fold the carries back in and complement: the value that goes in the header.
pub fn fold(total: u32) -> (value: u16)
    ensures
        value == complement(total as int),
{
    let mut left: u32 = total;
    while left >= 0x1_0000
        invariant
            folded(left as int) == folded(total as int),
        decreases left,
    {
        let ghost before = left as int;
        left = left % 0x1_0000 + left / 0x1_0000;
        proof {
            let high = before / 0x1_0000;
            assert(before == left + 0xFFFF * high);
            assert(left >= 1);
            vstd::arithmetic::div_mod::lemma_mod_multiples_vanish(high, left - 1, 0xFFFF);
            assert((before - 1) % 0xFFFF == (left - 1) % 0xFFFF);
        }
    }
    (0xFFFF - left) as u16
}

/// The checksum of a byte string short enough for its sum to be held.
pub fn checksum(bytes: &[u8]) -> (value: u16)
    requires
        word_sum(bytes@) <= u32::MAX,
    ensures
        value == checksum_of(bytes@),
{
    fold(sum(bytes, 0))
}

/// What the IP header adds to a TCP or UDP checksum.
pub open spec fn pseudo_total(
    source: Ipv4Addr,
    destination: Ipv4Addr,
    protocol: u8,
    length: int,
) -> int {
    source.0 / 0x1_0000 + source.0 % 0x1_0000 + destination.0 / 0x1_0000 + destination.0 % 0x1_0000
        + protocol + length
}

/// The part of a TCP or UDP checksum that comes from the IP header.
pub fn pseudo_sum(source: Ipv4Addr, destination: Ipv4Addr, protocol: u8, length: usize) -> (total:
    u32)
    requires
        pseudo_total(source, destination, protocol, length as int) <= u32::MAX,
    ensures
        total == pseudo_total(source, destination, protocol, length as int),
{
    let s: u32 = source.0;
    let d: u32 = destination.0;
    s / 0x1_0000 + s % 0x1_0000 + d / 0x1_0000 + d % 0x1_0000 + protocol as u32 + length as u32
}

/// The checksum of a TCP or UDP packet: over the pseudo header and then over
/// the packet.
pub open spec fn transport_checksum(
    source: Ipv4Addr,
    destination: Ipv4Addr,
    protocol: u8,
    packet: Seq<u8>,
) -> int {
    complement(pseudo_total(source, destination, protocol, packet.len() as int) + word_sum(packet))
}

/// The longest packet a transport checksum is taken over: nothing longer fits
/// in a datagram.
pub const MAX_DATAGRAM: usize = 0xFFFF;

/// Take a transport checksum.
pub fn transport_sum(source: Ipv4Addr, destination: Ipv4Addr, protocol: u8, packet: &[u8]) -> (value:
    u16)
    requires
        packet@.len() <= MAX_DATAGRAM,
    ensures
        value == transport_checksum(source, destination, protocol, packet@),
{
    proof {
        word_sum_bound(packet@);
    }
    fold(sum(packet, pseudo_sum(source, destination, protocol, packet.len())))
}

// ---- the header ------------------------------------------------------------

#[derive(Clone, Copy, PartialEq, Eq, Debug, Structural)]
pub struct Header {
    pub ihl: usize,
    pub total_length: usize,
    pub identification: u16,
    pub flags_and_offset: u16,
    pub ttl: u8,
    pub protocol: u8,
    pub source: Ipv4Addr,
    pub destination: Ipv4Addr,
}

impl Header {
    /// More fragments follow this one, or this one does not start the
    /// datagram.
    pub open spec fn fragment(&self) -> bool {
        ||| self.flags_and_offset / 0x2000 % 2 == 1
        ||| self.flags_and_offset % 0x2000 != 0
    }

    pub fn is_fragment(&self) -> (r: bool)
        ensures
            r == self.fragment(),
    {
        let flags: u16 = self.flags_and_offset;
        let more: u16 = flags & FLAG_MORE_FRAGMENTS;
        let offset: u16 = flags & FRAGMENT_OFFSET_MASK;
        proof {
            assert((flags & 0x2000) != 0 <==> (flags / 0x2000) % 2 == 1) by (bit_vector);
            assert(flags & 0x1FFF == flags % 0x2000) by (bit_vector);
        }
        more != 0 || offset != 0
    }
}

/// The header length a datagram's first byte announces, in bytes.
pub open spec fn announced_ihl(bytes: Seq<u8>) -> int {
    bytes[0] % 16 * 4
}

/// A datagram whose lengths and header checksum agree: version four, a header
/// that is whole and sums to zero, and a total length that covers the header
/// and is all there. Bytes past the total length are padding.
pub open spec fn well_formed(bytes: Seq<u8>) -> bool {
    &&& bytes.len() >= HEADER_LEN
    &&& bytes[0] / 16 == 4
    &&& HEADER_LEN <= announced_ihl(bytes) <= bytes.len()
    &&& checksum_of(bytes.take(announced_ihl(bytes))) == 0
    &&& announced_ihl(bytes) <= bytes::be16(bytes, 2) <= bytes.len()
}

/// The fields of a datagram's header.
pub open spec fn header_of(bytes: Seq<u8>) -> Header {
    Header {
        ihl: announced_ihl(bytes) as usize,
        total_length: bytes::be16(bytes, 2) as usize,
        identification: bytes::be16(bytes, 4) as u16,
        flags_and_offset: bytes::be16(bytes, 6) as u16,
        ttl: bytes[8],
        protocol: bytes[9],
        source: Ipv4Addr(bytes::be32(bytes, 12) as u32),
        destination: Ipv4Addr(bytes::be32(bytes, 16) as u32),
    }
}

/// What a datagram carries behind its header.
pub open spec fn payload_of(bytes: Seq<u8>) -> Seq<u8> {
    bytes.subrange(announced_ihl(bytes), bytes::be16(bytes, 2))
}

/// Split a datagram into its header and its payload, refusing anything whose
/// lengths or checksum do not agree.
pub fn parse(bytes: &[u8]) -> (parsed: Option<(Header, &[u8])>)
    ensures
        parsed is Some <==> well_formed(bytes@),
        parsed matches Some((header, payload)) ==> {
            &&& header == header_of(bytes@)
            &&& payload@ == payload_of(bytes@)
        },
{
    if bytes.len() < HEADER_LEN {
        return None;
    }
    if bytes[0] / 16 != 4 {
        return None;
    }
    let ihl: usize = (bytes[0] % 16) as usize * 4;
    if ihl < HEADER_LEN || bytes.len() < ihl {
        return None;
    }
    let head = slice_subrange(bytes, 0, ihl);
    assert(head@ =~= bytes@.take(ihl as int));
    proof {
        word_sum_bound(head@);
    }
    if checksum(head) != 0 {
        return None;
    }
    let total_length: usize = read_be16(bytes, 2) as usize;
    // A frame padded up to the minimum length is longer than its datagram; one
    // truncated by the link is shorter, and cannot be trusted.
    if total_length < ihl || total_length > bytes.len() {
        return None;
    }
    let header = Header {
        ihl,
        total_length,
        identification: read_be16(bytes, 4),
        flags_and_offset: read_be16(bytes, 6),
        ttl: bytes[8],
        protocol: bytes[9],
        source: address_at(bytes, 12),
        destination: address_at(bytes, 16),
    };
    Some((header, slice_subrange(bytes, ihl, total_length)))
}

/// The twenty byte header of a datagram, with nothing in its checksum yet.
pub open spec fn bare_header(
    source: Ipv4Addr,
    destination: Ipv4Addr,
    protocol: u8,
    length: int,
    identification: u16,
) -> Seq<u8> {
    seq![0x45u8, 0u8] + bytes::be16_bytes(HEADER_LEN + length) + bytes::be16_bytes(identification as int)
        + bytes::be16_bytes(FLAG_DONT_FRAGMENT as int) + seq![DEFAULT_TTL, protocol, 0u8, 0u8]
        + source.octets() + destination.octets()
}

/// A datagram with no options and the don't-fragment bit set.
pub open spec fn datagram_bytes(
    source: Ipv4Addr,
    destination: Ipv4Addr,
    protocol: u8,
    payload: Seq<u8>,
    identification: u16,
) -> Seq<u8> {
    header_bytes(source, destination, protocol, payload.len() as int, identification) + payload
}

/// Build a datagram with no options and the don't-fragment bit set. The
/// identification is the caller's, who counts datagrams.
pub fn build(
    source: Ipv4Addr,
    destination: Ipv4Addr,
    protocol: u8,
    payload: &[u8],
    identification: u16,
) -> (datagram: Vec<u8>)
    requires
        HEADER_LEN + payload@.len() <= MAX_DATAGRAM,
    ensures
        datagram@ == datagram_bytes(source, destination, protocol, payload@, identification),
{
    let total: usize = HEADER_LEN + payload.len();
    let mut out: Vec<u8> = Vec::new();
    out.push(0x45);
    out.push(0);
    push_be16(&mut out, total as u16);
    push_be16(&mut out, identification);
    push_be16(&mut out, FLAG_DONT_FRAGMENT);
    out.push(DEFAULT_TTL);
    out.push(protocol);
    out.push(0);
    out.push(0);
    push_address(&mut out, source);
    push_address(&mut out, destination);
    let ghost bare = bare_header(
        source,
        destination,
        protocol,
        payload@.len() as int,
        identification,
    );
    assert(out@ =~= bare);
    proof {
        word_sum_bound(bare);
        complement_cancels(word_sum(bare));
    }
    let header_checksum: u16 = checksum(out.as_slice());
    put_be16(&mut out, 10, header_checksum);
    extend(&mut out, payload);
    out
}

/// A header as it goes on the wire.
pub open spec fn header_bytes(
    source: Ipv4Addr,
    destination: Ipv4Addr,
    protocol: u8,
    length: int,
    identification: u16,
) -> Seq<u8> {
    let bare = bare_header(source, destination, protocol, length, identification);
    bytes::put16(bare, 10, checksum_of(bare))
}

/// The fields of a built header.
#[verifier::spinoff_prover]
proof fn built_header(
    source: Ipv4Addr,
    destination: Ipv4Addr,
    protocol: u8,
    length: int,
    identification: u16,
)
    requires
        0 <= length,
        HEADER_LEN + length <= MAX_DATAGRAM,
    ensures
        ({
            let head = header_bytes(source, destination, protocol, length, identification);
            &&& head.len() == HEADER_LEN
            &&& head[0] == 0x45
            &&& bytes::be16(head, 2) == HEADER_LEN + length
            &&& bytes::be16(head, 4) == identification
            &&& bytes::be16(head, 6) == FLAG_DONT_FRAGMENT
            &&& head[8] == DEFAULT_TTL
            &&& head[9] == protocol
            &&& bytes::be32(head, 12) == source.0
            &&& bytes::be32(head, 16) == destination.0
            &&& checksum_of(head) == 0
        }),
{
    let bare = bare_header(source, destination, protocol, length, identification);
    let head = header_bytes(source, destination, protocol, length, identification);
    assert(bare.len() == 20);
    checksum_fills_in(bare, 10, 0);
    assert(head.subrange(2, 4) =~= bytes::be16_bytes(HEADER_LEN + length));
    bytes::be16_at(head, 2, HEADER_LEN + length);
    assert(head.subrange(4, 6) =~= bytes::be16_bytes(identification as int));
    bytes::be16_at(head, 4, identification as int);
    assert(head.subrange(6, 8) =~= bytes::be16_bytes(FLAG_DONT_FRAGMENT as int));
    bytes::be16_at(head, 6, FLAG_DONT_FRAGMENT as int);
    assert(head.subrange(12, 16) =~= source.octets());
    bytes::be32_at(head, 12, source.0 as int);
    assert(head.subrange(16, 20) =~= destination.octets());
    bytes::be32_at(head, 16, destination.0 as int);
}

/// Taking a built datagram apart gives back what it was built from, whatever
/// padding the link put behind it: it is well formed, it is no fragment, and
/// the addresses, the protocol and the payload are the ones it was given.
pub proof fn datagram_round_trip(
    source: Ipv4Addr,
    destination: Ipv4Addr,
    protocol: u8,
    payload: Seq<u8>,
    identification: u16,
    padding: Seq<u8>,
)
    requires
        HEADER_LEN + payload.len() <= MAX_DATAGRAM,
    ensures
        ({
            let wire = datagram_bytes(source, destination, protocol, payload, identification)
                + padding;
            &&& well_formed(wire)
            &&& header_of(wire).source == source
            &&& header_of(wire).destination == destination
            &&& header_of(wire).protocol == protocol
            &&& header_of(wire).identification == identification
            &&& header_of(wire).ttl == DEFAULT_TTL
            &&& !header_of(wire).fragment()
            &&& payload_of(wire) == payload
        }),
{
    let head = header_bytes(source, destination, protocol, payload.len() as int, identification);
    let wire = datagram_bytes(source, destination, protocol, payload, identification) + padding;
    built_header(source, destination, protocol, payload.len() as int, identification);
    assert(wire =~= head + payload + padding);
    assert(forall|i: int| 0 <= i < 20 ==> wire[i] == head[i]);
    assert(wire.take(20) =~= head);
    assert(payload_of(wire) =~= payload);
}

// ---- sending -------------------------------------------------------------------

/// An address this machine may put in the source field of a datagram for
/// `destination`: its own, its loopback addresses, and 0.0.0.0 for a broadcast
/// while it has none. An address it no longer has is not one of them.
pub open spec fn may_send_from(l: LinkView, source: Ipv4Addr, destination: Ipv4Addr) -> bool {
    ||| source.loopback()
    ||| l.is_ours(source)
    ||| (source.unspecified() && l.config is None && destination.limited_broadcast())
}

/// The address a datagram is handed to on the link, if it can be sent at all.
/// The default route: anything off the local subnet goes to the gateway. With
/// no address there is no route, and a broadcast needs none.
pub open spec fn first_hop(l: LinkView, destination: Ipv4Addr) -> Option<Ipv4Addr> {
    match l.config {
        Some(config) => config::next_hop_of(config, destination),
        None => if destination.limited_broadcast() {
            Some(destination)
        } else {
            None
        },
    }
}

/// One payload sent as a datagram.
pub open spec fn payload_sent(
    l: LinkView,
    source: Ipv4Addr,
    destination: Ipv4Addr,
    protocol: u8,
    payload: Seq<u8>,
    now: u64,
) -> (LinkView, Result<(), Errno>) {
    if HEADER_LEN + payload.len() > ether::MTU {
        (l, Err(Errno::EMSGSIZE))
    } else if !may_send_from(l, source, destination) {
        (l, Err(Errno::EADDRNOTAVAIL))
    } else {
        let datagram = datagram_bytes(source, destination, protocol, payload, l.next_id);
        let numbered = LinkView { next_id: l.next_id.wrapping_add(1), ..l };
        if destination.loopback() || l.is_ours(destination) {
            (numbered.looped_back(datagram), Ok(()))
        } else {
            match first_hop(l, destination) {
                Some(hop) => arp::datagram_sent(numbered, hop, datagram, now),
                None => (numbered, Err(Errno::ENETUNREACH)),
            }
        }
    }
}

/// The address a datagram for `destination` is handed to on this link.
pub fn next_hop(link: &Link, destination: Ipv4Addr) -> (hop: Option<Ipv4Addr>)
    ensures
        hop == first_hop(link@, destination),
{
    match link.config {
        Some(config) => config.next_hop(destination),
        None => if destination.is_broadcast() {
            Some(destination)
        } else {
            None
        },
    }
}

/// Send one datagram from the address this machine talks to the destination
/// from.
pub fn send(link: &mut Link, destination: Ipv4Addr, protocol: u8, payload: &[u8], now: u64) -> (result:
    Result<(), Errno>)
    requires
        old(link)@.valid(),
        now <= tcp::LAST_TICK,
    ensures
        final(link)@.valid(),
        (final(link)@, result) == (match old(link)@.source_towards(destination) {
            Ok(source) => payload_sent(
                old(link)@,
                source,
                destination,
                protocol,
                payload@,
                now,
            ),
            Err(reason) => (old(link)@, Err(reason)),
        }),
{
    match source_for(link, destination) {
        Ok(source) => send_from(link, source, destination, protocol, payload, now),
        Err(reason) => Err(reason),
    }
}

/// Send one datagram, choosing the next hop and resolving its hardware address
/// on the way.
pub fn send_from(
    link: &mut Link,
    source: Ipv4Addr,
    destination: Ipv4Addr,
    protocol: u8,
    payload: &[u8],
    now: u64,
) -> (result: Result<(), Errno>)
    requires
        old(link)@.valid(),
        now <= tcp::LAST_TICK,
    ensures
        final(link)@.valid(),
        (final(link)@, result) == payload_sent(
            old(link)@,
            source,
            destination,
            protocol,
            payload@,
            now,
        ),
{
    if payload.len() > ether::MTU - HEADER_LEN {
        // No fragmentation: the caller has to offer something that fits.
        return Err(Errno::EMSGSIZE);
    }
    let ours = match link.config {
        Some(config) => source == config.address(),
        None => source.is_unspecified() && destination.is_broadcast(),
    };
    if !source.is_loopback() && !ours {
        return Err(Errno::EADDRNOTAVAIL);
    }
    let datagram = build(source, destination, protocol, payload, link.next_id);
    link.next_id = link.next_id.wrapping_add(1);
    let to_us = match link.config {
        Some(config) => destination == config.address(),
        None => false,
    };
    // Anything addressed to this machine is handed back to this machine.
    if destination.is_loopback() || to_us {
        loop_back(link, datagram);
        return Ok(());
    }
    match next_hop(link, destination) {
        Some(hop) => arp::send_datagram(link, hop, datagram, now),
        None => Err(Errno::ENETUNREACH),
    }
}

// ---- receiving -----------------------------------------------------------------

/// Where a datagram came from: off a card, or from this machine talking to
/// itself. The two have different addresses to answer to.
#[derive(Clone, Copy, PartialEq, Eq, Debug, Structural)]
pub enum Origin {
    Card,
    Loopback,
}

/// Whether a datagram is for this machine.
///
/// A datagram off a card that claims this machine's own address is either a
/// loop or a forgery, and 127/8 names whoever is asking, so it never crosses a
/// link in either field. While the machine has no address, the only datagrams
/// it takes off the card are broadcasts.
pub open spec fn is_for_us(l: LinkView, header: Header, origin: Origin) -> bool {
    match origin {
        Origin::Card => {
            &&& !l.is_ours(header.source)
            &&& !header.source.loopback()
            &&& !header.destination.loopback()
            &&& match l.config {
                Some(config) => {
                    ||| header.destination == config.spec_address()
                    ||| header.destination.limited_broadcast()
                    ||| header.destination == config::subnet_broadcast(
                        config.spec_address(),
                        config.spec_netmask(),
                    )
                },
                None => header.destination.limited_broadcast(),
            }
        },
        Origin::Loopback => header.destination.loopback() || l.is_ours(header.destination),
    }
}

/// Whether a datagram's sender is a neighbour whose hardware address it shows.
pub open spec fn shows_neighbour(l: LinkView, header: Header, origin: Origin) -> bool {
    &&& origin == Origin::Card
    &&& !header.source.unspecified()
    &&& l.config matches Some(config) && config::same_subnet(
        header.source,
        config.spec_address(),
        config.spec_netmask(),
    )
}

/// What looking at a datagram's header leaves to be done: nothing, or a
/// payload for a protocol.
pub enum Admitted<'a> {
    Nothing,
    Payload(Header, &'a [u8]),
}

/// What a datagram does to the link before its payload is looked at.
pub open spec fn admitted(
    l: LinkView,
    bytes: Seq<u8>,
    source_mac: [u8; 6],
    origin: Origin,
    now: u64,
) -> LinkView {
    if well_formed(bytes) && is_for_us(l, header_of(bytes), origin) && shows_neighbour(
        l,
        header_of(bytes),
        origin,
    ) {
        arp::learned(l, header_of(bytes).source, source_mac, now)
    } else {
        l
    }
}

/// Whether a datagram's payload is handed on: it is for this machine, and
/// whole.
pub open spec fn is_admitted(l: LinkView, bytes: Seq<u8>, origin: Origin) -> bool {
    &&& well_formed(bytes)
    &&& is_for_us(l, header_of(bytes), origin)
    &&& !header_of(bytes).fragment()
}

/// Look at one received datagram, already stripped of its Ethernet header, and
/// say whether its payload is for a protocol here.
pub fn look_at<'a>(
    link: &mut Link,
    bytes: &'a [u8],
    source_mac: [u8; 6],
    origin: Origin,
    now: u64,
) -> (result: Admitted<'a>)
    requires
        old(link)@.valid(),
        now <= tcp::LAST_TICK,
    ensures
        final(link)@.valid(),
        final(link)@ == admitted(old(link)@, bytes@, source_mac, origin, now),
        result is Payload <==> is_admitted(old(link)@, bytes@, origin),
        result matches Admitted::Payload(header, payload) ==> {
            &&& header == header_of(bytes@)
            &&& payload@ == payload_of(bytes@)
        },
{
    let (header, payload) = match parse(bytes) {
        Some(parsed) => parsed,
        None => {
            return Admitted::Nothing;
        },
    };
    let ours = match link.config {
        Some(config) => header.destination == config.address(),
        None => false,
    };
    let for_us = match origin {
        Origin::Card => {
            let from_us = match link.config {
                Some(config) => header.source == config.address(),
                None => false,
            };
            if from_us || header.source.is_loopback() || header.destination.is_loopback() {
                return Admitted::Nothing;
            }
            let subnet = match link.config {
                Some(config) => header.destination == config.broadcast(),
                None => false,
            };
            ours || header.destination.is_broadcast() || subnet
        },
        // Built here for here; nothing else reaches the queue it came from.
        Origin::Loopback => header.destination.is_loopback() || ours,
    };
    if !for_us {
        return Admitted::Nothing;
    }
    // A neighbour that talks to us has just proved which hardware address it
    // is at, which saves a request the next time we answer it.
    let on_link = match link.config {
        Some(config) => config.on_link(header.source),
        None => false,
    };
    if origin == Origin::Card && on_link && !header.source.is_unspecified() {
        arp::learn(link, header.source, source_mac, now);
    }
    if header.is_fragment() {
        return Admitted::Nothing;
    }
    Admitted::Payload(header, payload)
}

/// One received IPv4 datagram, already stripped of its Ethernet header.
pub fn receive(
    net: &mut Net,
    bytes: &[u8],
    source_mac: [u8; 6],
    origin: Origin,
    now: u64,
    clock_ns: u64,
)
    requires
        old(net)@.valid(),
        now <= tcp::LAST_TICK,
    ensures
        final(net)@ == old(net)@.packet_taken(bytes@, source_mac, origin, now, clock_ns),
        final(net)@.valid(),
{
    match look_at(&mut net.link, bytes, source_mac, origin, now) {
        Admitted::Nothing => {},
        Admitted::Payload(header, payload) => {
            if header.protocol == PROTO_ICMP {
                icmp::receive(&mut net.link, header.source, header.destination, payload, now);
            } else if header.protocol == PROTO_UDP {
                udp::receive(net, header.source, header.destination, payload);
            } else if header.protocol == PROTO_TCP {
                tcp_table::receive(
                    net,
                    header.source,
                    header.destination,
                    payload,
                    now,
                    clock_ns,
                );
            }
        },
    }
}

} // verus!
