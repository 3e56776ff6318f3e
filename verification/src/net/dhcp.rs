//! DHCP: asking the network for an address.
//!
//! RFC 2131's client, far enough to take a lease and keep it: DISCOVER, OFFER,
//! REQUEST, then ACK or NAK; renewing at T1 with the server that granted the
//! lease, rebinding at T2 with any server that will answer, and giving the
//! address up when the lease runs out. The options read are RFC 2132's netmask
//! (1), routers (3), name servers (6), lease time (51), server identifier (54),
//! and the renewal and rebinding times (58, 59).
//!
//! It talks through an ordinary UDP socket bound to port 68, so what it sends
//! and what it hears go through the same IP and UDP code as every program's.
//! Every message sent before a lease is held sets the broadcast flag, which
//! asks the server to broadcast its answer rather than send it to an address
//! the machine does not have yet.
//!
//! The client decides and its caller acts. `poll` reads what has arrived,
//! looks at the clock, and returns what should happen -- messages to send, a
//! configuration to publish -- in the order it should happen, having done none
//! of it. The order matters: a lease that has run out is given up before the
//! DISCOVER that follows it is sent, so that DISCOVER leaves from 0.0.0.0 and
//! not from the address just given up.
//!
//! Left out: probing an offered address with ARP before using it and declining
//! it if somebody answers; reusing a remembered lease after a reboot; releasing
//! the lease at shutdown; and the random wait of one to ten seconds before the
//! first DISCOVER.

use crate::bytes::{self, copy_of, extend, push_be16, push_be32, read_be32};
use crate::net::config::{self, Config};
use crate::net::ether::{self, mac_at, same_mac};
use crate::net::ip::{address_at, push_address, Ipv4Addr};
use vstd::prelude::*;
use vstd::slice::slice_subrange;

verus! {

pub const SERVER_PORT: u16 = 67;

pub const CLIENT_PORT: u16 = 68;

pub const OP_REQUEST: u8 = 1;

pub const OP_REPLY: u8 = 2;

pub const HARDWARE_ETHERNET: u8 = 1;

pub const HARDWARE_LEN: u8 = 6;

/// Set in `flags` to ask for the answer to be broadcast.
pub const FLAG_BROADCAST: u16 = 0x8000;

/// The fixed BOOTP header is 236 bytes, and the magic cookie that says what
/// follows is DHCP options takes four more.
pub const COOKIE_AT: usize = 236;

pub const OPTIONS_AT: usize = 240;

pub const MAGIC_COOKIE: [u8; 4] = [99, 130, 83, 99];

/// The server name and boot file fields, which option 52 can say hold options.
pub const SNAME_AT: usize = 44;

pub const FILE_AT: usize = 108;

/// BOOTP's messages were 300 bytes, and servers that still refuse anything
/// shorter exist, so a shorter message is padded out to this.
pub const MIN_MESSAGE_LEN: usize = 300;

pub const DISCOVER: u8 = 1;

pub const OFFER: u8 = 2;

pub const REQUEST: u8 = 3;

pub const ACK: u8 = 5;

pub const NAK: u8 = 6;

pub const OPTION_PAD: u8 = 0;

pub const OPTION_NETMASK: u8 = 1;

pub const OPTION_ROUTERS: u8 = 3;

pub const OPTION_NAMESERVERS: u8 = 6;

pub const OPTION_REQUESTED_ADDRESS: u8 = 50;

pub const OPTION_LEASE_TIME: u8 = 51;

pub const OPTION_OVERLOAD: u8 = 52;

pub const OPTION_MESSAGE_TYPE: u8 = 53;

pub const OPTION_SERVER: u8 = 54;

pub const OPTION_PARAMETERS: u8 = 55;

pub const OPTION_RENEWAL_TIME: u8 = 58;

pub const OPTION_REBINDING_TIME: u8 = 59;

pub const OPTION_CLIENT_ID: u8 = 61;

pub const OPTION_END: u8 = 255;

/// The options the client asks servers to send: the netmask, the routers, the
/// name servers, the lease time, T1 and T2.
pub const PARAMETERS: [u8; 6] = [1, 3, 6, 51, 58, 59];

/// Timer ticks in a second.
pub const HZ: u64 = 100;

/// RFC 2131 section 4.1: the first retransmission after four seconds, the
/// wait doubling each time to at most 64, and each wait moved by up to a
/// second either way so that clients started together do not stay together.
pub const FIRST_RETRANSMIT: u64 = 400;

pub const MAX_RETRANSMIT: u64 = 6400;

pub const JITTER: u64 = 100;

/// REQUESTs sent to the server whose offer was taken before starting over
/// with a DISCOVER.
pub const REQUEST_ATTEMPTS: u32 = 4;

/// RFC 2131 section 4.4.5: in RENEWING and REBINDING the REQUEST goes again
/// after half the time left, but no sooner than a minute.
pub const MIN_RENEW_RETRANSMIT: u64 = 6000;

/// A server has to say how long a lease is (RFC 2131 table 3). A message that
/// does not is taken as granting an hour, which is what busybox's udhcpc
/// assumes.
pub const DEFAULT_LEASE_SECONDS: u32 = 3600;

/// The shortest lease taken at its word. Renewal comes at half the lease, so a
/// lease of a second or of none would have the client renewing as fast as the
/// server can answer; anything shorter is taken as this long.
pub const MIN_LEASE_SECONDS: u32 = 20;

/// All ones is a lease that never runs out (RFC 2131 section 3.3).
pub const INFINITE: u32 = 0xFFFF_FFFF;

// ---- what a server sends -------------------------------------------------------

/// A server's message, checked and taken apart. Only the fields and options
/// the client uses are kept.
pub struct Reply {
    pub kind: u8,
    pub xid: u32,
    pub chaddr: [u8; 6],
    pub yiaddr: Ipv4Addr,
    pub server: Option<Ipv4Addr>,
    pub netmask: Option<Ipv4Addr>,
    pub routers: Vec<Ipv4Addr>,
    pub nameservers: Vec<Ipv4Addr>,
    pub lease_seconds: Option<u32>,
    pub renewal_seconds: Option<u32>,
    pub rebinding_seconds: Option<u32>,
}

/// What a server's message says.
#[verifier::ext_equal]
pub struct ReplyView {
    pub kind: u8,
    pub xid: u32,
    pub chaddr: Seq<u8>,
    pub yiaddr: Ipv4Addr,
    pub server: Option<Ipv4Addr>,
    pub netmask: Option<Ipv4Addr>,
    pub routers: Seq<Ipv4Addr>,
    pub nameservers: Seq<Ipv4Addr>,
    pub lease_seconds: Option<u32>,
    pub renewal_seconds: Option<u32>,
    pub rebinding_seconds: Option<u32>,
}

impl View for Reply {
    type V = ReplyView;

    open spec fn view(&self) -> ReplyView {
        ReplyView {
            kind: self.kind,
            xid: self.xid,
            chaddr: self.chaddr@,
            yiaddr: self.yiaddr,
            server: self.server,
            netmask: self.netmask,
            routers: self.routers@,
            nameservers: self.nameservers@,
            lease_seconds: self.lease_seconds,
            renewal_seconds: self.renewal_seconds,
            rebinding_seconds: self.rebinding_seconds,
        }
    }
}

/// What an area of options holds on top of what was read before it, as far as
/// its end option or its last byte. An option split over several entries is
/// joined back together in the order the pieces came (RFC 3396). Nothing, when
/// an option's length runs past the area.
pub open spec fn options_in(area: Seq<u8>, so_far: Map<u8, Seq<u8>>) -> Option<Map<u8, Seq<u8>>>
    decreases area.len(),
{
    if area.len() == 0 || area[0] == OPTION_END {
        Some(so_far)
    } else if area[0] == OPTION_PAD {
        options_in(area.skip(1), so_far)
    } else if area.len() < 2 || 2 + area[1] > area.len() {
        None
    } else {
        let value = area.subrange(2, 2 + area[1]);
        let joined = if so_far.contains_key(area[0]) {
            so_far[area[0]] + value
        } else {
            value
        };
        options_in(area.skip(2 + area[1]), so_far.insert(area[0], joined))
    }
}

/// Every option of a message. Option 52 says the file and server name fields
/// hold more options, read in that order (RFC 2131 section 4.1).
pub open spec fn options_of(message: Seq<u8>) -> Option<Map<u8, Seq<u8>>> {
    match options_in(message.skip(OPTIONS_AT as int), Map::empty()) {
        None => None,
        Some(first) => if !first.contains_key(OPTION_OVERLOAD) {
            Some(first)
        } else if first[OPTION_OVERLOAD].len() != 1 || !(1 <= first[OPTION_OVERLOAD][0] <= 3) {
            None
        } else {
            let which = first[OPTION_OVERLOAD][0];
            let file = message.subrange(FILE_AT as int, COOKIE_AT as int);
            let sname = message.subrange(SNAME_AT as int, FILE_AT as int);
            match (if which == 2 {
                Some(first)
            } else {
                options_in(file, first)
            }) {
                None => None,
                Some(second) => if which == 1 {
                    Some(second)
                } else {
                    options_in(sname, second)
                },
            }
        },
    }
}

/// An option that is absent or `size` bytes long.
pub open spec fn sized(options: Map<u8, Seq<u8>>, code: u8, size: int) -> bool {
    options.contains_key(code) ==> options[code].len() == size
}

/// An option that is absent or a list of addresses: at least one, and nothing
/// left over.
pub open spec fn is_list(options: Map<u8, Seq<u8>>, code: u8) -> bool {
    options.contains_key(code) ==> options[code].len() > 0 && options[code].len() % 4 == 0
}

/// Every option the client uses is as long as its meaning needs.
pub open spec fn meaningful(options: Map<u8, Seq<u8>>) -> bool {
    &&& options.contains_key(OPTION_MESSAGE_TYPE)
    &&& sized(options, OPTION_MESSAGE_TYPE, 1)
    &&& sized(options, OPTION_SERVER, 4)
    &&& sized(options, OPTION_NETMASK, 4)
    &&& is_list(options, OPTION_ROUTERS)
    &&& is_list(options, OPTION_NAMESERVERS)
    &&& sized(options, OPTION_LEASE_TIME, 4)
    &&& sized(options, OPTION_RENEWAL_TIME, 4)
    &&& sized(options, OPTION_REBINDING_TIME, 4)
}

/// A message from a server to an Ethernet client whose options can be read and
/// mean something.
pub open spec fn is_reply(message: Seq<u8>) -> bool {
    &&& message.len() >= OPTIONS_AT
    &&& message[0] == OP_REPLY
    &&& message[1] == HARDWARE_ETHERNET
    &&& message[2] == HARDWARE_LEN
    &&& message.subrange(COOKIE_AT as int, OPTIONS_AT as int) == MAGIC_COOKIE@
    &&& options_of(message) matches Some(options) && meaningful(options)
}

pub open spec fn number_in(options: Map<u8, Seq<u8>>, code: u8) -> Option<u32> {
    if options.contains_key(code) {
        Some(bytes::be32(options[code], 0) as u32)
    } else {
        None
    }
}

pub open spec fn address_in(options: Map<u8, Seq<u8>>, code: u8) -> Option<Ipv4Addr> {
    match number_in(options, code) {
        Some(number) => Some(Ipv4Addr(number)),
        None => None,
    }
}

/// The addresses a byte string lists, four bytes each.
pub open spec fn listed(value: Seq<u8>) -> Seq<Ipv4Addr> {
    Seq::new(value.len() / 4, |i: int| Ipv4Addr(bytes::be32(value, 4 * i) as u32))
}

pub open spec fn addresses_in(options: Map<u8, Seq<u8>>, code: u8) -> Seq<Ipv4Addr> {
    if options.contains_key(code) {
        listed(options[code])
    } else {
        Seq::empty()
    }
}

/// What a reply says.
pub open spec fn reply_of(message: Seq<u8>) -> ReplyView {
    let options = options_of(message)->0;
    ReplyView {
        kind: options[OPTION_MESSAGE_TYPE][0],
        xid: bytes::be32(message, 4) as u32,
        chaddr: message.subrange(28, 34),
        yiaddr: Ipv4Addr(bytes::be32(message, 16) as u32),
        server: address_in(options, OPTION_SERVER),
        netmask: address_in(options, OPTION_NETMASK),
        routers: addresses_in(options, OPTION_ROUTERS),
        nameservers: addresses_in(options, OPTION_NAMESERVERS),
        lease_seconds: number_in(options, OPTION_LEASE_TIME),
        renewal_seconds: number_in(options, OPTION_RENEWAL_TIME),
        rebinding_seconds: number_in(options, OPTION_REBINDING_TIME),
    }
}

/// Options as a message carries them, by their code.
pub struct Options {
    slots: Vec<Option<Vec<u8>>>,
}

impl View for Options {
    type V = Map<u8, Seq<u8>>;

    closed spec fn view(&self) -> Map<u8, Seq<u8>> {
        Map::new(
            |code: u8| self.slots@[code as int] is Some,
            |code: u8| self.slots@[code as int]->0@,
        )
    }
}

impl Options {
    pub closed spec fn valid(&self) -> bool {
        self.slots@.len() == 256
    }

    pub fn new() -> (options: Options)
        ensures
            options.valid(),
            options@ == Map::<u8, Seq<u8>>::empty(),
    {
        let mut slots: Vec<Option<Vec<u8>>> = Vec::new();
        let mut i: usize = 0;
        while i < 256
            invariant
                i <= 256,
                slots@.len() == i,
                forall|k: int| 0 <= k < i ==> (#[trigger] slots@[k]) is None,
            decreases 256 - i,
        {
            slots.push(None);
            i += 1;
        }
        let options = Options { slots };
        assert(options@ =~= Map::<u8, Seq<u8>>::empty());
        options
    }

    /// Append one piece of an option.
    fn join(&mut self, code: u8, value: &[u8])
        requires
            old(self).valid(),
        ensures
            final(self).valid(),
            final(self)@ == old(self)@.insert(
                code,
                if old(self)@.contains_key(code) {
                    old(self)@[code] + value@
                } else {
                    value@
                },
            ),
    {
        let mut joined: Vec<u8> = match &self.slots[code as usize] {
            Some(existing) => copy_of(existing.as_slice()),
            None => Vec::new(),
        };
        extend(&mut joined, value);
        let ghost text = joined@;
        self.slots.set(code as usize, Some(joined));
        proof {
            let expected = old(self)@.insert(
                code,
                if old(self)@.contains_key(code) {
                    old(self)@[code] + value@
                } else {
                    value@
                },
            );
            assert(Seq::<u8>::empty() + value@ =~= value@);
            assert(self@ =~= expected);
        }
    }

    /// Read one area of options, as far as its end option or its last byte.
    /// False when an option's length runs past the area.
    pub fn read(&mut self, area: &[u8]) -> (good: bool)
        requires
            old(self).valid(),
        ensures
            final(self).valid(),
            good == (options_in(area@, old(self)@) is Some),
            good ==> Some(final(self)@) == options_in(area@, old(self)@),
    {
        let mut at: usize = 0;
        assert(area@.skip(0) =~= area@);
        while at < area.len()
            invariant
                at <= area@.len(),
                self.valid(),
                options_in(area@.skip(at as int), self@) == options_in(area@, old(self)@),
            decreases area@.len() - at,
        {
            let ghost left = area@.skip(at as int);
            assert(left[0] == area@[at as int]);
            let code: u8 = area[at];
            if code == OPTION_END {
                return true;
            }
            if code == OPTION_PAD {
                at += 1;
                assert(left.skip(1) =~= area@.skip(at as int));
                continue;
            }
            if area.len() - at < 2 {
                return false;
            }
            assert(left[1] == area@[at + 1]);
            let length: usize = area[at + 1] as usize;
            if area.len() - at < 2 + length {
                return false;
            }
            let value = slice_subrange(area, at + 2, at + 2 + length);
            assert(value@ =~= left.subrange(2, 2 + length));
            self.join(code, value);
            at += 2 + length;
            assert(left.skip(2 + length) =~= area@.skip(at as int));
        }
        // Run off the end with no end option. RFC 2131 asks for one, but the
        // area has already been measured by IP and UDP, so everything that was
        // sent has been read.
        true
    }

    pub fn get(&self, code: u8) -> (value: Option<&[u8]>)
        requires
            self.valid(),
        ensures
            value is Some <==> self@.contains_key(code),
            value matches Some(v) ==> v@ == self@[code],
    {
        match &self.slots[code as usize] {
            Some(value) => Some(value.as_slice()),
            None => None,
        }
    }

    /// A one byte option: its value if it is there, or that it is malformed.
    fn one_byte(&self, code: u8) -> (value: Result<Option<u8>, ()>)
        requires
            self.valid(),
        ensures
            value is Ok <==> sized(self@, code, 1),
            value matches Ok(v) ==> v == (if self@.contains_key(code) {
                Some(self@[code][0])
            } else {
                None
            }),
    {
        match self.get(code) {
            None => Ok(None),
            Some(value) => if value.len() == 1 {
                Ok(Some(value[0]))
            } else {
                Err(())
            },
        }
    }

    /// A four byte number: its value if it is there, or that it is malformed.
    fn seconds(&self, code: u8) -> (value: Result<Option<u32>, ()>)
        requires
            self.valid(),
        ensures
            value is Ok <==> sized(self@, code, 4),
            value matches Ok(v) ==> v == number_in(self@, code),
    {
        match self.get(code) {
            None => Ok(None),
            Some(value) => if value.len() == 4 {
                Ok(Some(read_be32(value, 0)))
            } else {
                Err(())
            },
        }
    }

    /// An address: its value if it is there, or that it is malformed.
    fn address(&self, code: u8) -> (value: Result<Option<Ipv4Addr>, ()>)
        requires
            self.valid(),
        ensures
            value is Ok <==> sized(self@, code, 4),
            value matches Ok(v) ==> v == address_in(self@, code),
    {
        match self.seconds(code) {
            Ok(Some(number)) => Ok(Some(Ipv4Addr(number))),
            Ok(None) => Ok(None),
            Err(()) => Err(()),
        }
    }

    /// A list of addresses: at least one, and nothing left over.
    fn addresses(&self, code: u8) -> (value: Result<Vec<Ipv4Addr>, ()>)
        requires
            self.valid(),
        ensures
            value is Ok <==> is_list(self@, code),
            value matches Ok(v) ==> v@ == addresses_in(self@, code),
    {
        let mut list: Vec<Ipv4Addr> = Vec::new();
        assert(list@ =~= Seq::empty());
        match self.get(code) {
            None => Ok(list),
            Some(value) => {
                if value.len() == 0 || value.len() % 4 != 0 {
                    return Err(());
                }
                let mut at: usize = 0;
                while at < value.len()
                    invariant
                        at <= value@.len(),
                        at % 4 == 0,
                        value@.len() % 4 == 0,
                        list@ == listed(value@).take(at as int / 4),
                    decreases value@.len() - at,
                {
                    list.push(address_at(value, at));
                    at += 4;
                    assert(list@ =~= listed(value@).take(at as int / 4));
                }
                assert(listed(value@).take(at as int / 4) =~= listed(value@));
                Ok(list)
            },
        }
    }
}

impl Reply {
    /// Take a message apart, or refuse it.
    ///
    /// Every length is checked against the bytes that are there before
    /// anything is read. An option this client uses whose length is not the
    /// one its meaning needs refuses the whole message: a server that sends a
    /// four-byte address in three bytes has said nothing about the rest that
    /// can be believed either.
    pub fn parse(message: &[u8]) -> (reply: Option<Reply>)
        ensures
            reply is Some <==> is_reply(message@),
            reply matches Some(r) ==> r@ == reply_of(message@),
    {
        if message.len() < OPTIONS_AT {
            return None;
        }
        if message[0] != OP_REPLY || message[1] != HARDWARE_ETHERNET || message[2]
            != HARDWARE_LEN {
            return None;
        }
        let cookie = slice_subrange(message, COOKIE_AT, OPTIONS_AT);
        if !bytes::same_bytes(cookie, MAGIC_COOKIE.as_slice()) {
            return None;
        }
        let area = slice_subrange(message, OPTIONS_AT, message.len());
        assert(area@ =~= message@.skip(OPTIONS_AT as int));
        let mut options = Options::new();
        if !options.read(area) {
            return None;
        }
        match options.one_byte(OPTION_OVERLOAD) {
            Err(()) => {
                return None;
            },
            Ok(None) => {},
            Ok(Some(overload)) => {
                if overload < 1 || overload > 3 {
                    return None;
                }
                if overload != 2 {
                    let file = slice_subrange(message, FILE_AT, COOKIE_AT);
                    if !options.read(file) {
                        return None;
                    }
                }
                if overload != 1 {
                    let sname = slice_subrange(message, SNAME_AT, FILE_AT);
                    if !options.read(sname) {
                        return None;
                    }
                }
            },
        }
        assert(options_of(message@) == Some(options@));
        let kind: u8 = match options.one_byte(OPTION_MESSAGE_TYPE) {
            Ok(Some(kind)) => kind,
            _ => {
                return None;
            },
        };
        match (
            options.address(OPTION_SERVER),
            options.address(OPTION_NETMASK),
            options.addresses(OPTION_ROUTERS),
            options.addresses(OPTION_NAMESERVERS),
            options.seconds(OPTION_LEASE_TIME),
            options.seconds(OPTION_RENEWAL_TIME),
            options.seconds(OPTION_REBINDING_TIME),
        ) {
            (
                Ok(server),
                Ok(netmask),
                Ok(routers),
                Ok(nameservers),
                Ok(lease_seconds),
                Ok(renewal_seconds),
                Ok(rebinding_seconds),
            ) => Some(
                Reply {
                    kind,
                    xid: read_be32(message, 4),
                    chaddr: mac_at(message, 28),
                    yiaddr: address_at(message, 16),
                    server,
                    netmask,
                    routers,
                    nameservers,
                    lease_seconds,
                    renewal_seconds,
                    rebinding_seconds,
                },
            ),
            _ => None,
        }
    }
}

// ---- what the client sends -----------------------------------------------------

/// The fields that vary between the messages this client sends. The fields a
/// client always leaves at zero are written as zero by `build`.
#[derive(Clone, Copy, PartialEq, Eq, Debug, Structural)]
pub struct Outgoing {
    pub kind: u8,
    pub xid: u32,
    pub secs: u16,
    /// Set until a lease is held, because until then an answer sent to the
    /// offered address would not be taken off the card.
    pub broadcast: bool,
    pub ciaddr: Ipv4Addr,
    pub requested: Option<Ipv4Addr>,
    pub server: Option<Ipv4Addr>,
}

/// An address option, if there is an address.
pub open spec fn address_option(code: u8, address: Option<Ipv4Addr>) -> Seq<u8> {
    match address {
        Some(a) => seq![code, 4u8] + a.octets(),
        None => Seq::empty(),
    }
}

/// The options a message of this client carries. The client identifier is the
/// card's address with its hardware type in front (RFC 2132 section 9.14),
/// which is what a server keys the lease on.
pub open spec fn request_options(o: Outgoing, mac: Seq<u8>) -> Seq<u8> {
    seq![OPTION_MESSAGE_TYPE, 1u8, o.kind] + (seq![OPTION_CLIENT_ID, 7u8, HARDWARE_ETHERNET] + mac)
        + address_option(OPTION_REQUESTED_ADDRESS, o.requested) + address_option(
        OPTION_SERVER,
        o.server,
    ) + (seq![OPTION_PARAMETERS, 6u8] + PARAMETERS@) + seq![OPTION_END]
}

/// The BOOTP header of a message of this client.
pub open spec fn request_header(o: Outgoing, mac: Seq<u8>) -> Seq<u8> {
    seq![OP_REQUEST, HARDWARE_ETHERNET, HARDWARE_LEN, 0u8] + bytes::be32_bytes(o.xid as int)
        + bytes::be16_bytes(o.secs as int) + bytes::be16_bytes(
        if o.broadcast {
            FLAG_BROADCAST as int
        } else {
            0
        },
    ) + o.ciaddr.octets() + ether::zeroes(12) + mac + ether::zeroes(202)
}

/// A message of this client, padded to the length the oldest servers expect.
pub open spec fn request_bytes(o: Outgoing, mac: Seq<u8>) -> Seq<u8> {
    let message = request_header(o, mac) + MAGIC_COOKIE@ + request_options(o, mac);
    message + ether::zeroes(MIN_MESSAGE_LEN - message.len())
}

fn push_zeroes(out: &mut Vec<u8>, count: usize)
    ensures
        final(out)@ == old(out)@ + ether::zeroes(count as int),
{
    let mut left: usize = count;
    assert(out@ =~= old(out)@ + ether::zeroes(0));
    while left > 0
        invariant
            left <= count,
            out@ == old(out)@ + ether::zeroes(count - left),
        decreases left,
    {
        out.push(0);
        left -= 1;
        assert(out@ =~= old(out)@ + ether::zeroes(count - left));
    }
}

impl Outgoing {
    pub fn build(&self, mac: [u8; 6]) -> (message: Vec<u8>)
        ensures
            message@ == request_bytes(*self, mac@),
            MIN_MESSAGE_LEN <= message@.len() <= 320,
    {
        let mut out: Vec<u8> = Vec::new();
        out.push(OP_REQUEST);
        out.push(HARDWARE_ETHERNET);
        out.push(HARDWARE_LEN);
        out.push(0);
        push_be32(&mut out, self.xid);
        push_be16(&mut out, self.secs);
        push_be16(
            &mut out,
            if self.broadcast {
                FLAG_BROADCAST
            } else {
                0
            },
        );
        push_address(&mut out, self.ciaddr);
        push_zeroes(&mut out, 12);
        extend(&mut out, mac.as_slice());
        push_zeroes(&mut out, 202);
        assert(out@ =~= request_header(*self, mac@));
        extend(&mut out, MAGIC_COOKIE.as_slice());
        let mut options: Vec<u8> = Vec::new();
        options.push(OPTION_MESSAGE_TYPE);
        options.push(1);
        options.push(self.kind);
        options.push(OPTION_CLIENT_ID);
        options.push(7);
        options.push(HARDWARE_ETHERNET);
        extend(&mut options, mac.as_slice());
        if let Some(requested) = self.requested {
            options.push(OPTION_REQUESTED_ADDRESS);
            options.push(4);
            push_address(&mut options, requested);
        }
        if let Some(server) = self.server {
            options.push(OPTION_SERVER);
            options.push(4);
            push_address(&mut options, server);
        }
        options.push(OPTION_PARAMETERS);
        options.push(6);
        extend(&mut options, PARAMETERS.as_slice());
        options.push(OPTION_END);
        assert(options@ =~= request_options(*self, mac@));
        extend(&mut out, options.as_slice());
        if out.len() < MIN_MESSAGE_LEN {
            let missing: usize = MIN_MESSAGE_LEN - out.len();
            push_zeroes(&mut out, missing);
        }
        assert(out@ =~= request_bytes(*self, mac@));
        out
    }
}

// ---- the client ------------------------------------------------------------------

/// The last tick the client is asked about: the longest lease there is, counted
/// from it, still ends before the counter does.
pub const LAST_POLL: u64 = 0xFFFF_FF9B_FFFF_FFFF;

/// Random numbers drawn for the client to use, in the order it uses them.
pub struct Draws {
    values: Vec<u64>,
    used: usize,
}

impl View for Draws {
    type V = Seq<u64>;

    closed spec fn view(&self) -> Seq<u64> {
        self.values@.skip(self.used as int)
    }
}

impl Draws {
    pub closed spec fn valid(&self) -> bool {
        self.used <= self.values@.len()
    }

    pub fn new(values: Vec<u64>) -> (draws: Draws)
        ensures
            draws.valid(),
            draws@ == values@,
    {
        let draws = Draws { values, used: 0 };
        assert(draws@ =~= values@);
        draws
    }

    /// How many are left.
    pub fn left(&self) -> (count: usize)
        requires
            self.valid(),
        ensures
            count == self@.len(),
    {
        self.values.len() - self.used
    }

    /// The next one.
    pub fn draw(&mut self) -> (value: u64)
        requires
            old(self).valid(),
            old(self)@.len() > 0,
        ensures
            final(self).valid(),
            value == old(self)@[0],
            final(self)@ == old(self)@.skip(1),
    {
        assert(self.used < self.values.len());
        let value: u64 = self.values[self.used];
        self.used = self.used + 1;
        assert(self@ =~= old(self)@.skip(1));
        value
    }
}

/// One run of messages sharing a transaction id.
#[derive(Clone, Copy, PartialEq, Eq, Debug, Structural)]
pub struct Exchange {
    pub xid: u32,
    /// When the exchange began, which the `secs` field counts from.
    pub began: u64,
    /// When the first REQUEST of this exchange went out. A lease is counted
    /// from the REQUEST that was answered (RFC 2131 section 4.4.1), and
    /// counting from the first one is never later than that.
    pub first_sent: u64,
    pub sent: u32,
    /// When to send again, or to give up.
    pub deadline: u64,
}

/// An exchange that begins at `now`, with a transaction id out of a random
/// number.
pub open spec fn begun(now: u64, draw: u64) -> Exchange {
    Exchange {
        xid: (draw % 0x1_0000_0000) as u32,
        began: now,
        first_sent: now,
        sent: 0,
        deadline: now,
    }
}

/// Whole seconds since an exchange began, as far as sixteen bits count.
pub open spec fn seconds_since(began: u64, now: u64) -> u16 {
    if now <= began {
        0
    } else if (now - began) / HZ as int > 0xFFFF {
        0xFFFF
    } else {
        ((now - began) / HZ as int) as u16
    }
}

/// One more message sent, as far as thirty-two bits count.
pub open spec fn counted(sent: u32) -> u32 {
    if sent == u32::MAX {
        sent
    } else {
        (sent + 1) as u32
    }
}

impl Exchange {
    pub fn new(now: u64, draw: u64) -> (exchange: Exchange)
        ensures
            exchange == begun(now, draw),
    {
        Exchange {
            xid: (draw % 0x1_0000_0000) as u32,
            began: now,
            first_sent: now,
            sent: 0,
            deadline: now,
        }
    }

    pub fn secs(&self, now: u64) -> (secs: u16)
        ensures
            secs == seconds_since(self.began, now),
    {
        if now <= self.began {
            return 0;
        }
        let whole: u64 = (now - self.began) / HZ;
        if whole > 0xFFFF {
            0xFFFF
        } else {
            whole as u16
        }
    }
}

/// What the server whose offer was taken offered.
#[derive(Clone, Copy, PartialEq, Eq, Debug, Structural)]
pub struct Offer {
    pub address: Ipv4Addr,
    pub server: Ipv4Addr,
}

/// A lease held: the configuration it gives, who gave it, and the ticks at
/// which it has to be renewed, rebound and given up.
#[derive(Clone, Copy, PartialEq, Eq, Debug, Structural)]
pub struct Lease {
    pub config: Config,
    pub server: Ipv4Addr,
    pub seconds: u32,
    pub renew_at: u64,
    pub rebind_at: u64,
    pub expires_at: u64,
}

/// How long a reply's lease is taken to be.
pub open spec fn lease_length(reply: ReplyView) -> u32 {
    let named = match reply.lease_seconds {
        Some(seconds) => seconds,
        None => DEFAULT_LEASE_SECONDS,
    };
    if named < MIN_LEASE_SECONDS {
        MIN_LEASE_SECONDS
    } else {
        named
    }
}

/// T2: the server's own if it is no later than the end of the lease, and
/// seven eighths of the lease otherwise.
pub open spec fn rebinding_time(reply: ReplyView) -> int {
    let length = lease_length(reply);
    match reply.rebinding_seconds {
        Some(t2) => if t2 <= length {
            t2 as int
        } else {
            length * 7 / 8
        },
        None => length * 7 / 8,
    }
}

/// T1: the server's own if it is no later than T2, and half the lease, or T2
/// if that is sooner, otherwise.
pub open spec fn renewal_time(reply: ReplyView) -> int {
    let length = lease_length(reply);
    let t2 = rebinding_time(reply);
    let half = if length / 2 < t2 {
        (length / 2) as int
    } else {
        t2
    };
    match reply.renewal_seconds {
        Some(t1) => if t1 <= t2 {
            t1 as int
        } else {
            half
        },
        None => half,
    }
}

/// The lease a reply grants, counted from `start`.
pub open spec fn granted(config: Config, server: Ipv4Addr, reply: ReplyView, start: u64) -> Lease {
    let seconds = lease_length(reply);
    if seconds == INFINITE {
        Lease {
            config,
            server,
            seconds,
            renew_at: u64::MAX,
            rebind_at: u64::MAX,
            expires_at: u64::MAX,
        }
    } else {
        Lease {
            config,
            server,
            seconds,
            renew_at: (start + renewal_time(reply) * HZ) as u64,
            rebind_at: (start + rebinding_time(reply) * HZ) as u64,
            expires_at: (start + seconds * HZ) as u64,
        }
    }
}

impl Lease {
    /// A lease is renewed before it is rebound, and rebound before it ends.
    pub open spec fn in_order(&self) -> bool {
        &&& self.renew_at <= self.rebind_at <= self.expires_at
        &&& self.config.sound()
    }

    pub fn new(config: Config, server: Ipv4Addr, reply: &Reply, start: u64) -> (lease: Lease)
        requires
            config.sound(),
            start <= LAST_POLL,
        ensures
            lease == granted(config, server, reply@, start),
            lease.in_order(),
            lease.expires_at >= start + MIN_LEASE_SECONDS * HZ,
    {
        let named: u32 = match reply.lease_seconds {
            Some(seconds) => seconds,
            None => DEFAULT_LEASE_SECONDS,
        };
        let seconds: u32 = if named < MIN_LEASE_SECONDS {
            MIN_LEASE_SECONDS
        } else {
            named
        };
        if seconds == INFINITE {
            return Lease {
                config,
                server,
                seconds,
                renew_at: u64::MAX,
                rebind_at: u64::MAX,
                expires_at: u64::MAX,
            };
        }
        let length: u64 = seconds as u64;
        // RFC 2131 section 4.4.5: T1 is half the lease and T2 seven eighths of
        // it unless the server says otherwise. A server's own times are taken
        // when they are in order -- T2 no later than the end, T1 no later than
        // T2 -- and the defaults take the place of any that are not.
        let mut t2: u64 = length * 7 / 8;
        if let Some(named_t2) = reply.rebinding_seconds {
            if named_t2 as u64 <= length {
                t2 = named_t2 as u64;
            }
        }
        let mut t1: u64 = if length / 2 < t2 {
            length / 2
        } else {
            t2
        };
        if let Some(named_t1) = reply.renewal_seconds {
            if named_t1 as u64 <= t2 {
                t1 = named_t1 as u64;
            }
        }
        Lease {
            config,
            server,
            seconds,
            renew_at: start + t1 * HZ,
            rebind_at: start + t2 * HZ,
            expires_at: start + length * HZ,
        }
    }
}

/// RFC 2131's client states, figure 5, less INIT-REBOOT and REBOOTING.
#[derive(Clone, Copy, PartialEq, Eq, Debug, Structural)]
pub enum State {
    /// Nothing held and nothing asked. The first DISCOVER goes at `at`.
    Init { at: u64 },
    /// DISCOVERs out, waiting for an offer.
    Selecting(Exchange),
    /// An offer taken, and a REQUEST out for it.
    Requesting(Exchange, Offer),
    /// A lease held, with nothing to say until T1.
    Bound(Lease),
    /// Past T1: asking the server that granted the lease to extend it.
    Renewing(Exchange, Lease),
    /// Past T2: asking any server at all.
    Rebinding(Exchange, Lease),
}

impl State {
    /// The lease held, if one is.
    pub open spec fn lease(self) -> Option<Lease> {
        match self {
            State::Bound(lease) => Some(lease),
            State::Renewing(_, lease) => Some(lease),
            State::Rebinding(_, lease) => Some(lease),
            _ => None,
        }
    }

    /// The configuration the client holds, if it holds one.
    pub open spec fn held(self) -> Option<Config> {
        match self.lease() {
            Some(lease) => Some(lease.config),
            None => None,
        }
    }

    /// The tick at which there is next something to do.
    pub open spec fn deadline(self) -> u64 {
        match self {
            State::Init { at } => at,
            State::Selecting(exchange) => exchange.deadline,
            State::Requesting(exchange, _) => exchange.deadline,
            State::Bound(lease) => lease.renew_at,
            State::Renewing(exchange, lease) => if exchange.deadline < lease.rebind_at {
                exchange.deadline
            } else {
                lease.rebind_at
            },
            State::Rebinding(exchange, lease) => if exchange.deadline < lease.expires_at {
                exchange.deadline
            } else {
                lease.expires_at
            },
        }
    }

    /// A lease held is one whose times are in order, and the exchange a lease
    /// would be counted from has begun.
    pub open spec fn valid(self) -> bool {
        &&& self.lease() matches Some(lease) ==> lease.in_order()
        &&& match self {
            State::Selecting(exchange) => exchange.first_sent <= LAST_POLL,
            State::Requesting(exchange, _) => exchange.first_sent <= LAST_POLL,
            State::Renewing(exchange, _) => exchange.first_sent <= LAST_POLL,
            State::Rebinding(exchange, _) => exchange.first_sent <= LAST_POLL,
            _ => true,
        }
    }
}

/// Something `poll` decided should happen, for its caller to do.
pub enum Effect {
    /// Send this message to port 67 at this address.
    Send { to: Ipv4Addr, message: Vec<u8> },
    /// This is now the machine's configuration.
    Configure(Option<Config>),
}

/// What an effect is.
#[verifier::ext_equal]
pub enum EffectView {
    Send { to: Ipv4Addr, message: Seq<u8> },
    Configure(Option<Config>),
}

impl View for Effect {
    type V = EffectView;

    open spec fn view(&self) -> EffectView {
        match self {
            Effect::Send { to, message } => EffectView::Send { to: *to, message: message@ },
            Effect::Configure(config) => EffectView::Configure(*config),
        }
    }
}

/// What a list of effects is.
pub open spec fn views(effects: Seq<Effect>) -> Seq<EffectView> {
    Seq::new(effects.len(), |i: int| effects[i]@)
}

proof fn views_push(effects: Seq<Effect>, effect: Effect)
    ensures
        views(effects.push(effect)) == views(effects) + seq![effect@],
{
    assert(views(effects.push(effect)) =~= views(effects) + seq![effect@]);
}

/// `delay`, moved by a uniform amount of up to a second either way.
pub open spec fn moved(delay: u64, draw: u64) -> u64 {
    (delay - JITTER + draw % (2 * JITTER + 1) as u64) as u64
}

/// The wait after the `sent`th message of a DISCOVER or first REQUEST, before
/// it is moved: four seconds, doubled for each message up to 64.
pub open spec fn plain_backoff(sent: u32) -> u64 {
    if sent <= 1 {
        FIRST_RETRANSMIT
    } else if sent == 2 {
        800
    } else if sent == 3 {
        1600
    } else if sent == 4 {
        3200
    } else {
        MAX_RETRANSMIT
    }
}

fn randomized(delay: u64, draw: u64) -> (wait: u64)
    requires
        FIRST_RETRANSMIT <= delay <= MAX_RETRANSMIT,
    ensures
        wait == moved(delay, draw),
        delay - JITTER <= wait <= delay + JITTER,
{
    delay - JITTER + draw % 201
}

fn backoff(sent: u32, draw: u64) -> (wait: u64)
    ensures
        wait == moved(plain_backoff(sent), draw),
        FIRST_RETRANSMIT - JITTER <= wait <= MAX_RETRANSMIT + JITTER,
{
    let plain: u64 = if sent <= 1 {
        FIRST_RETRANSMIT
    } else if sent == 2 {
        FIRST_RETRANSMIT * 2
    } else if sent == 3 {
        FIRST_RETRANSMIT * 4
    } else if sent == 4 {
        FIRST_RETRANSMIT * 8
    } else {
        MAX_RETRANSMIT
    };
    randomized(plain, draw)
}

/// When to send a REQUEST again in RENEWING or REBINDING, where the state that
/// follows takes over at `end`: after half the time left, but no sooner than a
/// minute and no later than `end`.
pub open spec fn next_request(now: u64, end: u64) -> u64 {
    let half = if end > now {
        (end - now) / 2
    } else {
        0
    };
    let wait = if half < MIN_RENEW_RETRANSMIT {
        MIN_RENEW_RETRANSMIT as int
    } else {
        half
    };
    if now + wait < end {
        (now + wait) as u64
    } else {
        end
    }
}

fn retransmit_before(now: u64, end: u64) -> (tick: u64)
    ensures
        tick == next_request(now, end),
{
    let half: u64 = if end > now {
        (end - now) / 2
    } else {
        0
    };
    let wait: u64 = if half < MIN_RENEW_RETRANSMIT {
        MIN_RENEW_RETRANSMIT
    } else {
        half
    };
    let tick: u64 = now.saturating_add(wait);
    if tick < end {
        tick
    } else {
        end
    }
}

/// The netmask a reply gives its address.
pub open spec fn netmask_from(reply: ReplyView) -> Ipv4Addr {
    match reply.netmask {
        Some(netmask) => netmask,
        None => config::class_mask(reply.yiaddr),
    }
}

/// The first router of a list that could be the gateway of an address. Routers
/// are listed in order of preference (RFC 2132 section 3.5); one that is not on
/// the subnet could only be reached through a route this stack has no way to
/// hold.
pub open spec fn gateway_among(
    routers: Seq<Ipv4Addr>,
    address: Ipv4Addr,
    netmask: Ipv4Addr,
) -> Option<Ipv4Addr>
    decreases routers.len(),
{
    if routers.len() == 0 {
        None
    } else if config::configurable(address, netmask, Some(routers[0])) {
        Some(routers[0])
    } else {
        gateway_among(routers.skip(1), address, netmask)
    }
}

/// Whether a reply's addresses make a configuration.
pub open spec fn is_usable(reply: ReplyView) -> bool {
    config::configurable(
        reply.yiaddr,
        netmask_from(reply),
        gateway_among(reply.routers, reply.yiaddr, netmask_from(reply)),
    )
}

/// The configuration a server's message describes, with `nameserver=` in place
/// of its name servers if the command line gave one.
pub open spec fn configured_by(reply: ReplyView, nameserver: Option<Ipv4Addr>) -> Config {
    Config::of(
        reply.yiaddr,
        netmask_from(reply),
        gateway_among(reply.routers, reply.yiaddr, netmask_from(reply)),
        config::kept_servers(
            match nameserver {
                Some(server) => seq![server],
                None => reply.nameservers,
            },
        ),
    )
}

fn find_gateway(routers: &[Ipv4Addr], address: Ipv4Addr, netmask: Ipv4Addr) -> (gateway: Option<
    Ipv4Addr,
>)
    ensures
        gateway == gateway_among(routers@, address, netmask),
{
    let mut i: usize = 0;
    let none: Vec<Ipv4Addr> = Vec::new();
    assert(routers@.skip(0) =~= routers@);
    while i < routers.len()
        invariant
            i <= routers@.len(),
            gateway_among(routers@.skip(i as int), address, netmask) == gateway_among(
                routers@,
                address,
                netmask,
            ),
        decreases routers@.len() - i,
    {
        assert(routers@.skip(i as int).skip(1) =~= routers@.skip(i + 1));
        if Config::new(address, netmask, Some(routers[i]), none.as_slice()).is_ok() {
            return Some(routers[i]);
        }
        i += 1;
    }
    None
}

fn config_from(reply: &Reply, nameserver: Option<Ipv4Addr>) -> (result: Option<Config>)
    ensures
        result is Some <==> is_usable(reply@),
        result matches Some(config) ==> config == configured_by(reply@, nameserver)
            && config.sound(),
{
    let netmask = match reply.netmask {
        Some(netmask) => netmask,
        None => Config::class_netmask(reply.yiaddr),
    };
    let gateway = find_gateway(reply.routers.as_slice(), reply.yiaddr, netmask);
    let result = match nameserver {
        Some(server) => {
            let mut only: Vec<Ipv4Addr> = Vec::new();
            only.push(server);
            assert(only@ =~= seq![server]);
            Config::new(reply.yiaddr, netmask, gateway, only.as_slice())
        },
        None => Config::new(reply.yiaddr, netmask, gateway, reply.nameservers.as_slice()),
    };
    match result {
        Ok(config) => Some(config),
        Err(_) => None,
    }
}

/// What the client did: the state it is in afterwards, what it wants done, and
/// the random numbers it has not used.
#[verifier::ext_equal]
pub struct Turn {
    pub state: State,
    pub effects: Seq<EffectView>,
    pub draws: Seq<u64>,
}

/// Nothing happened.
pub open spec fn unchanged(state: State, draws: Seq<u64>) -> Turn {
    Turn { state, effects: Seq::empty(), draws }
}

/// Start over, but not at once: a server that refuses every time would
/// otherwise be asked as fast as it can answer.
pub open spec fn later(now: u64, draw: u64) -> State {
    State::Init { at: (now + moved(FIRST_RETRANSMIT, draw)) as u64 }
}

/// A lease is granted. Its configuration is published unless it is the one
/// already held; one that cannot be used takes away whatever is held.
pub open spec fn on_grant(
    state: State,
    nameserver: Option<Ipv4Addr>,
    reply: ReplyView,
    server: Ipv4Addr,
    start: u64,
    now: u64,
    draws: Seq<u64>,
) -> Turn {
    if !is_usable(reply) {
        Turn {
            state: later(now, draws[0]),
            effects: if state.held() is Some {
                seq![EffectView::Configure(None)]
            } else {
                Seq::empty()
            },
            draws: draws.skip(1),
        }
    } else {
        let config = configured_by(reply, nameserver);
        Turn {
            state: State::Bound(granted(config, server, reply, start)),
            effects: if state.held() == Some(config) {
                Seq::empty()
            } else {
                seq![EffectView::Configure(Some(config))]
            },
            draws,
        }
    }
}

/// What a server's message does. Every broadcast answer to every client on the
/// segment arrives: only one naming this card and the exchange under way is
/// about this client.
pub open spec fn after_reply(
    state: State,
    mac: Seq<u8>,
    nameserver: Option<Ipv4Addr>,
    reply: ReplyView,
    now: u64,
    draws: Seq<u64>,
) -> Turn {
    if reply.chaddr != mac {
        unchanged(state, draws)
    } else {
        match state {
            State::Selecting(exchange) => if reply.xid != exchange.xid || reply.kind != OFFER
                || reply.server is None || !is_usable(reply) {
                unchanged(state, draws)
            } else {
                unchanged(
                    State::Requesting(
                        Exchange { first_sent: now, sent: 0, deadline: now, ..exchange },
                        Offer { address: reply.yiaddr, server: reply.server->0 },
                    ),
                    draws,
                )
            },
            State::Requesting(exchange, offer) => if reply.xid != exchange.xid || (
            reply.server is Some && reply.server->0 != offer.server) {
                unchanged(state, draws)
            } else if reply.kind == ACK {
                on_grant(
                    state,
                    nameserver,
                    reply,
                    offer.server,
                    exchange.first_sent,
                    now,
                    draws,
                )
            } else if reply.kind == NAK {
                unchanged(later(now, draws[0]), draws.skip(1))
            } else {
                unchanged(state, draws)
            },
            State::Renewing(exchange, lease) => if reply.xid != exchange.xid || (
            reply.server is Some && reply.server->0 != lease.server) {
                unchanged(state, draws)
            } else {
                after_extension(state, exchange, lease, nameserver, reply, now, draws)
            },
            State::Rebinding(exchange, lease) => if reply.xid != exchange.xid {
                unchanged(state, draws)
            } else {
                after_extension(state, exchange, lease, nameserver, reply, now, draws)
            },
            State::Init { .. } => unchanged(state, draws),
            State::Bound(_) => unchanged(state, draws),
        }
    }
}

/// An answer to a request to extend a lease.
pub open spec fn after_extension(
    state: State,
    exchange: Exchange,
    lease: Lease,
    nameserver: Option<Ipv4Addr>,
    reply: ReplyView,
    now: u64,
    draws: Seq<u64>,
) -> Turn {
    let server = match reply.server {
        Some(server) => server,
        None => lease.server,
    };
    if reply.kind == ACK {
        on_grant(state, nameserver, reply, server, exchange.first_sent, now, draws)
    } else if reply.kind == NAK {
        Turn {
            state: later(now, draws[0]),
            effects: seq![EffectView::Configure(None)],
            draws: draws.skip(1),
        }
    } else {
        unchanged(state, draws)
    }
}

/// A message sent to a server, or to all of them.
pub open spec fn sent_to(to: Ipv4Addr, message: Outgoing, mac: Seq<u8>) -> EffectView {
    EffectView::Send { to, message: request_bytes(message, mac) }
}

/// The DISCOVER an exchange sends.
pub open spec fn discover(exchange: Exchange, now: u64) -> Outgoing {
    Outgoing {
        kind: DISCOVER,
        xid: exchange.xid,
        secs: seconds_since(exchange.began, now),
        broadcast: true,
        ciaddr: Ipv4Addr(0),
        requested: None,
        server: None,
    }
}

/// The REQUEST that takes an offer: broadcast, naming the chosen server, so
/// the servers whose offers were not taken hear that as well.
pub open spec fn request_for(exchange: Exchange, offer: Offer, now: u64) -> Outgoing {
    Outgoing {
        kind: REQUEST,
        xid: exchange.xid,
        secs: seconds_since(exchange.began, now),
        broadcast: true,
        ciaddr: Ipv4Addr(0),
        requested: Some(offer.address),
        server: Some(offer.server),
    }
}

/// The REQUEST that asks for more time. RFC 2131 table 5 has it name neither
/// the address nor the server.
pub open spec fn extension(exchange: Exchange, lease: Lease, now: u64) -> Outgoing {
    Outgoing {
        kind: REQUEST,
        xid: exchange.xid,
        secs: seconds_since(exchange.began, now),
        broadcast: false,
        ciaddr: lease.config.spec_address(),
        requested: None,
        server: None,
    }
}

/// An exchange after one more message, with the next due at `deadline`.
pub open spec fn asked_again(exchange: Exchange, deadline: u64) -> Exchange {
    Exchange { sent: counted(exchange.sent), deadline, ..exchange }
}

/// The wait after one more DISCOVER or first REQUEST of an exchange.
pub open spec fn wait_after(exchange: Exchange, now: u64, draw: u64) -> u64 {
    (now + moved(plain_backoff(counted(exchange.sent)), draw)) as u64
}

/// One look at the clock: whatever is due is done, or the state moves on. The
/// flag says whether there is more to look at.
pub open spec fn timer_pass(state: State, mac: Seq<u8>, now: u64, draws: Seq<u64>) -> (Turn, bool) {
    match state {
        State::Init { at } => if now < at {
            (unchanged(state, draws), false)
        } else {
            (unchanged(State::Selecting(begun(now, draws[0])), draws.skip(1)), true)
        },
        State::Selecting(exchange) => if now < exchange.deadline {
            (unchanged(state, draws), false)
        } else {
            (
                Turn {
                    state: State::Selecting(
                        asked_again(exchange, wait_after(exchange, now, draws[0])),
                    ),
                    effects: seq![
                        sent_to(Ipv4Addr(0xFFFF_FFFF), discover(exchange, now), mac),
                    ],
                    draws: draws.skip(1),
                },
                false,
            )
        },
        State::Requesting(exchange, offer) => if now < exchange.deadline {
            (unchanged(state, draws), false)
        } else if exchange.sent >= REQUEST_ATTEMPTS {
            (unchanged(State::Init { at: now }, draws), true)
        } else {
            (
                Turn {
                    state: State::Requesting(
                        asked_again(exchange, wait_after(exchange, now, draws[0])),
                        offer,
                    ),
                    effects: seq![
                        sent_to(
                            Ipv4Addr(0xFFFF_FFFF),
                            request_for(exchange, offer, now),
                            mac,
                        ),
                    ],
                    draws: draws.skip(1),
                },
                false,
            )
        },
        State::Bound(lease) => if now < lease.renew_at {
            (unchanged(state, draws), false)
        } else {
            (unchanged(State::Renewing(begun(now, draws[0]), lease), draws.skip(1)), true)
        },
        State::Renewing(exchange, lease) => if now >= lease.rebind_at {
            (unchanged(State::Rebinding(begun(now, draws[0]), lease), draws.skip(1)), true)
        } else if now < exchange.deadline {
            (unchanged(state, draws), false)
        } else {
            (
                Turn {
                    state: State::Renewing(
                        asked_again(exchange, next_request(now, lease.rebind_at)),
                        lease,
                    ),
                    effects: seq![sent_to(lease.server, extension(exchange, lease, now), mac)],
                    draws,
                },
                false,
            )
        },
        State::Rebinding(exchange, lease) => if now >= lease.expires_at {
            (
                Turn {
                    state: State::Init { at: now },
                    effects: seq![EffectView::Configure(None)],
                    draws,
                },
                true,
            )
        } else if now < exchange.deadline {
            (unchanged(state, draws), false)
        } else {
            (
                Turn {
                    state: State::Rebinding(
                        asked_again(exchange, next_request(now, lease.expires_at)),
                        lease,
                    ),
                    effects: seq![
                        sent_to(
                            Ipv4Addr(0xFFFF_FFFF),
                            extension(exchange, lease, now),
                            mac,
                        ),
                    ],
                    draws,
                },
                false,
            )
        },
    }
}

/// As many looks at the clock as it takes, and at most `passes`.
pub open spec fn after_passes(
    state: State,
    mac: Seq<u8>,
    now: u64,
    draws: Seq<u64>,
    passes: nat,
) -> Turn
    decreases passes,
{
    if passes == 0 {
        unchanged(state, draws)
    } else {
        let (turn, more) = timer_pass(state, mac, now, draws);
        if more {
            let rest = after_passes(turn.state, mac, now, turn.draws, (passes - 1) as nat);
            Turn {
                state: rest.state,
                effects: turn.effects + rest.effects,
                draws: rest.draws,
            }
        } else {
            turn
        }
    }
}

/// How many looks at the clock one call takes. A lease passes through at most
/// five states on its way back to a DISCOVER, which is how many can come due
/// at once when the clock has not been looked at for a long time.
pub const TIMER_PASSES: usize = 8;

/// What looking at the clock does.
pub open spec fn after_timer(state: State, mac: Seq<u8>, now: u64, draws: Seq<u64>) -> Turn {
    after_passes(state, mac, now, draws, TIMER_PASSES as nat)
}

pub struct Client {
    /// The place of the client's socket in the socket table.
    pub socket: usize,
    pub mac: [u8; 6],
    /// `nameserver=` from the command line, which takes the place of whatever
    /// name servers a lease names.
    pub nameserver: Option<Ipv4Addr>,
    pub state: State,
    pub link_up: bool,
}

impl Client {
    /// The lease held, if one is.
    pub fn lease(&self) -> (lease: Option<Lease>)
        ensures
            lease == self.state.lease(),
    {
        match self.state {
            State::Bound(lease) => Some(lease),
            State::Renewing(_, lease) => Some(lease),
            State::Rebinding(_, lease) => Some(lease),
            _ => None,
        }
    }

    /// The tick at which `poll` next has something to do if nothing arrives.
    pub fn next_deadline(&self) -> (tick: u64)
        ensures
            tick == self.state.deadline(),
    {
        match self.state {
            State::Init { at } => at,
            State::Selecting(exchange) => exchange.deadline,
            State::Requesting(exchange, _) => exchange.deadline,
            State::Bound(lease) => lease.renew_at,
            State::Renewing(exchange, lease) => if exchange.deadline < lease.rebind_at {
                exchange.deadline
            } else {
                lease.rebind_at
            },
            State::Rebinding(exchange, lease) => if exchange.deadline < lease.expires_at {
                exchange.deadline
            } else {
                lease.expires_at
            },
        }
    }

    fn send(&self, effects: &mut Vec<Effect>, to: Ipv4Addr, message: Outgoing)
        ensures
            views(final(effects)@) == views(old(effects)@) + seq![
                sent_to(to, message, self.mac@),
            ],
    {
        let effect = Effect::Send { to, message: message.build(self.mac) };
        proof {
            views_push(effects@, effect);
        }
        effects.push(effect);
    }

    fn take_lease(
        &mut self,
        reply: &Reply,
        server: Ipv4Addr,
        start: u64,
        now: u64,
        draws: &mut Draws,
        effects: &mut Vec<Effect>,
    )
        requires
            old(self).state.valid(),
            start <= LAST_POLL,
            now <= LAST_POLL,
            old(draws).valid(),
            old(draws)@.len() > 0,
        ensures
            ({
                let turn = on_grant(
                    old(self).state,
                    old(self).nameserver,
                    reply@,
                    server,
                    start,
                    now,
                    old(draws)@,
                );
                &&& *final(self) == Client { state: turn.state, ..*old(self) }
                &&& views(final(effects)@) == views(old(effects)@) + turn.effects
                &&& final(draws)@ == turn.draws
            }),
            final(self).state.valid(),
            final(draws).valid(),
    {
        let held = self.lease();
        proof {
            assert(views(effects@) + Seq::<EffectView>::empty() =~= views(effects@));
        }
        match config_from(reply, self.nameserver) {
            None => {
                if held.is_some() {
                    proof {
                        views_push(effects@, Effect::Configure(None));
                    }
                    effects.push(Effect::Configure(None));
                }
                self.state = State::Init { at: now + randomized(FIRST_RETRANSMIT, draws.draw()) };
            },
            Some(config) => {
                let lease = Lease::new(config, server, reply, start);
                let same = match held {
                    Some(previous) => previous.config == config,
                    None => false,
                };
                if !same {
                    proof {
                        views_push(effects@, Effect::Configure(Some(config)));
                    }
                    effects.push(Effect::Configure(Some(config)));
                }
                self.state = State::Bound(lease);
            },
        }
    }

    /// Take one message from a server.
    pub fn on_reply(
        &mut self,
        reply: &Reply,
        now: u64,
        draws: &mut Draws,
        effects: &mut Vec<Effect>,
    )
        requires
            old(self).state.valid(),
            now <= LAST_POLL,
            old(draws).valid(),
            old(draws)@.len() > 0,
        ensures
            ({
                let turn = after_reply(
                    old(self).state,
                    old(self).mac@,
                    old(self).nameserver,
                    reply@,
                    now,
                    old(draws)@,
                );
                &&& *final(self) == Client { state: turn.state, ..*old(self) }
                &&& views(final(effects)@) == views(old(effects)@) + turn.effects
                &&& final(draws)@ == turn.draws
            }),
            final(self).state.valid(),
            final(draws).valid(),
    {
        proof {
            assert(views(effects@) + Seq::<EffectView>::empty() =~= views(effects@));
        }
        if !same_mac(&reply.chaddr, &self.mac) {
            return;
        }
        match self.state {
            State::Selecting(exchange) => {
                if reply.xid != exchange.xid || reply.kind != OFFER {
                    return;
                }
                // An offer names its server (RFC 2131 table 3), and the REQUEST
                // that takes it has to name the same one.
                let server = match reply.server {
                    Some(server) => server,
                    None => {
                        return;
                    },
                };
                if config_from(reply, self.nameserver).is_none() {
                    return;
                }
                // The first acceptable offer is taken. The REQUEST carries the
                // same transaction id, and goes out from `on_timer` straight
                // after this.
                let offer = Offer { address: reply.yiaddr, server };
                let exchange = Exchange { first_sent: now, sent: 0, deadline: now, ..exchange };
                self.state = State::Requesting(exchange, offer);
            },
            State::Requesting(exchange, offer) => {
                if reply.xid != exchange.xid {
                    return;
                }
                // Every server hears the REQUEST, and those it does not name
                // are to stay quiet: an answer from one of them is not about
                // this request.
                if let Some(server) = reply.server {
                    if server != offer.server {
                        return;
                    }
                }
                if reply.kind == ACK {
                    self.take_lease(reply, offer.server, exchange.first_sent, now, draws, effects);
                } else if reply.kind == NAK {
                    self.state =
                    State::Init { at: now + randomized(FIRST_RETRANSMIT, draws.draw()) };
                }
            },
            State::Renewing(exchange, lease) => {
                if reply.xid != exchange.xid {
                    return;
                }
                // A renewal goes to the server that granted the lease, so only
                // its answer counts.
                if let Some(server) = reply.server {
                    if server != lease.server {
                        return;
                    }
                }
                self.on_extension(exchange, lease, reply, now, draws, effects);
            },
            State::Rebinding(exchange, lease) => {
                if reply.xid != exchange.xid {
                    return;
                }
                self.on_extension(exchange, lease, reply, now, draws, effects);
            },
            _ => {},
        }
    }

    fn on_extension(
        &mut self,
        exchange: Exchange,
        lease: Lease,
        reply: &Reply,
        now: u64,
        draws: &mut Draws,
        effects: &mut Vec<Effect>,
    )
        requires
            old(self).state.valid(),
            exchange.first_sent <= LAST_POLL,
            now <= LAST_POLL,
            old(draws).valid(),
            old(draws)@.len() > 0,
        ensures
            ({
                let turn = after_extension(
                    old(self).state,
                    exchange,
                    lease,
                    old(self).nameserver,
                    reply@,
                    now,
                    old(draws)@,
                );
                &&& *final(self) == Client { state: turn.state, ..*old(self) }
                &&& views(final(effects)@) == views(old(effects)@) + turn.effects
                &&& final(draws)@ == turn.draws
            }),
            final(self).state.valid(),
            final(draws).valid(),
    {
        proof {
            assert(views(effects@) + Seq::<EffectView>::empty() =~= views(effects@));
        }
        let server = match reply.server {
            Some(server) => server,
            None => lease.server,
        };
        if reply.kind == ACK {
            self.take_lease(reply, server, exchange.first_sent, now, draws, effects);
        } else if reply.kind == NAK {
            proof {
                views_push(effects@, Effect::Configure(None));
            }
            effects.push(Effect::Configure(None));
            self.state = State::Init { at: now + randomized(FIRST_RETRANSMIT, draws.draw()) };
        }
    }

    /// One look at the clock. True when there is more to look at.
    fn timer_step(&mut self, now: u64, draws: &mut Draws, effects: &mut Vec<Effect>) -> (more: bool)
        requires
            old(self).state.valid(),
            now <= LAST_POLL,
            old(draws).valid(),
            old(draws)@.len() > 0,
        ensures
            ({
                let (turn, again) = timer_pass(
                    old(self).state,
                    old(self).mac@,
                    now,
                    old(draws)@,
                );
                &&& *final(self) == Client { state: turn.state, ..*old(self) }
                &&& views(final(effects)@) == views(old(effects)@) + turn.effects
                &&& final(draws)@ == turn.draws
                &&& more == again
            }),
            final(self).state.valid(),
            final(draws).valid(),
            final(draws)@.len() >= old(draws)@.len() - 1,
    {
        proof {
            assert(views(effects@) + Seq::<EffectView>::empty() =~= views(effects@));
        }
        match self.state {
            State::Init { at } => {
                if now < at {
                    return false;
                }
                self.state = State::Selecting(Exchange::new(now, draws.draw()));
                true
            },
            State::Selecting(exchange) => {
                if now < exchange.deadline {
                    return false;
                }
                let message = Outgoing {
                    kind: DISCOVER,
                    xid: exchange.xid,
                    secs: exchange.secs(now),
                    broadcast: true,
                    ciaddr: Ipv4Addr(0),
                    requested: None,
                    server: None,
                };
                self.send(effects, Ipv4Addr(0xFFFF_FFFF), message);
                let sent: u32 = exchange.sent.saturating_add(1);
                let deadline: u64 = now + backoff(sent, draws.draw());
                self.state = State::Selecting(Exchange { sent, deadline, ..exchange });
                false
            },
            State::Requesting(exchange, offer) => {
                if now < exchange.deadline {
                    return false;
                }
                if exchange.sent >= REQUEST_ATTEMPTS {
                    self.state = State::Init { at: now };
                    return true;
                }
                let message = Outgoing {
                    kind: REQUEST,
                    xid: exchange.xid,
                    secs: exchange.secs(now),
                    broadcast: true,
                    ciaddr: Ipv4Addr(0),
                    requested: Some(offer.address),
                    server: Some(offer.server),
                };
                self.send(effects, Ipv4Addr(0xFFFF_FFFF), message);
                let sent: u32 = exchange.sent.saturating_add(1);
                let deadline: u64 = now + backoff(sent, draws.draw());
                self.state = State::Requesting(Exchange { sent, deadline, ..exchange }, offer);
                false
            },
            State::Bound(lease) => {
                if now < lease.renew_at {
                    return false;
                }
                self.state = State::Renewing(Exchange::new(now, draws.draw()), lease);
                true
            },
            State::Renewing(exchange, lease) => {
                if now >= lease.rebind_at {
                    self.state = State::Rebinding(Exchange::new(now, draws.draw()), lease);
                    return true;
                }
                if now < exchange.deadline {
                    return false;
                }
                // To the server that granted the lease, from the address it
                // granted.
                let message = Outgoing {
                    kind: REQUEST,
                    xid: exchange.xid,
                    secs: exchange.secs(now),
                    broadcast: false,
                    ciaddr: lease.config.address(),
                    requested: None,
                    server: None,
                };
                self.send(effects, lease.server, message);
                let sent: u32 = exchange.sent.saturating_add(1);
                let deadline: u64 = retransmit_before(now, lease.rebind_at);
                self.state = State::Renewing(Exchange { sent, deadline, ..exchange }, lease);
                false
            },
            State::Rebinding(exchange, lease) => {
                if now >= lease.expires_at {
                    proof {
                        views_push(effects@, Effect::Configure(None));
                    }
                    effects.push(Effect::Configure(None));
                    self.state = State::Init { at: now };
                    return true;
                }
                if now < exchange.deadline {
                    return false;
                }
                let message = Outgoing {
                    kind: REQUEST,
                    xid: exchange.xid,
                    secs: exchange.secs(now),
                    broadcast: false,
                    ciaddr: lease.config.address(),
                    requested: None,
                    server: None,
                };
                self.send(effects, Ipv4Addr(0xFFFF_FFFF), message);
                let sent: u32 = exchange.sent.saturating_add(1);
                let deadline: u64 = retransmit_before(now, lease.expires_at);
                self.state = State::Rebinding(Exchange { sent, deadline, ..exchange }, lease);
                false
            },
        }
    }

    /// Look at the clock. Each pass either finds nothing due and stops, or
    /// moves to another state.
    pub fn on_timer(&mut self, now: u64, draws: &mut Draws, effects: &mut Vec<Effect>)
        requires
            old(self).state.valid(),
            now <= LAST_POLL,
            old(draws).valid(),
            old(draws)@.len() >= TIMER_PASSES,
        ensures
            ({
                let turn = after_timer(old(self).state, old(self).mac@, now, old(draws)@);
                &&& *final(self) == Client { state: turn.state, ..*old(self) }
                &&& views(final(effects)@) == views(old(effects)@) + turn.effects
                &&& final(draws)@ == turn.draws
            }),
            final(self).state.valid(),
            final(draws).valid(),
    {
        let mut passes: usize = TIMER_PASSES;
        let mut more: bool = true;
        let ghost whole = after_timer(self.state, self.mac@, now, draws@);
        let ghost said = views(effects@);
        while more && passes > 0
            invariant
                self.state.valid(),
                *self == (Client { state: self.state, ..*old(self) }),
                now <= LAST_POLL,
                draws.valid(),
                passes <= TIMER_PASSES,
                draws@.len() >= passes,
                more ==> {
                    let rest = after_passes(self.state, self.mac@, now, draws@, passes as nat);
                    &&& rest.state == whole.state
                    &&& rest.draws == whole.draws
                    &&& views(effects@) + rest.effects == said + whole.effects
                },
                !more ==> {
                    &&& self.state == whole.state
                    &&& draws@ == whole.draws
                    &&& views(effects@) == said + whole.effects
                },
            decreases passes,
        {
            let ghost before = after_passes(self.state, self.mac@, now, draws@, passes as nat);
            let ghost sofar = views(effects@);
            let ghost pass = timer_pass(self.state, self.mac@, now, draws@);
            more = self.timer_step(now, draws, effects);
            passes -= 1;
            proof {
                if more {
                    let rest = after_passes(self.state, self.mac@, now, draws@, passes as nat);
                    assert(before.effects == pass.0.effects + rest.effects);
                    assert(views(effects@) + rest.effects =~= sofar + (pass.0.effects
                        + rest.effects));
                }
            }
        }
        proof {
            if more {
                assert(views(effects@) + Seq::<EffectView>::empty() =~= views(effects@));
            }
        }
    }
}

} // verus!
