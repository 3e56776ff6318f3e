//! TCP.
//!
//! What is here is the passive open path and the data transfer that follows
//! it: a listening socket answers a connection request, completes the
//! handshake, hands the connection to accept, delivers in-order data,
//! acknowledges what it takes, retransmits what is not acknowledged, and
//! closes in order with the wait state at the end. An active open is here too.
//!
//! What is not here, all of which only matters on a link that loses or
//! reorders packets:
//!
//!   * No reassembly queue. A segment that arrives out of order is dropped and
//!     the acknowledgement repeats what is still wanted, so the sender has to
//!     send everything from that point again.
//!   * Loss recovery is the retransmission timer alone. There is no duplicate
//!     acknowledgement count, no fast retransmit, no fast recovery, and no
//!     selective acknowledgement, so one lost segment costs a whole timeout
//!     and a go-back-N retransmission.
//!   * The retransmission timeout is a fixed starting value doubled on each
//!     loss. Round trip time is never measured.
//!   * Congestion control is slow start and the textbook congestion avoidance
//!     increment, reset to one segment on every timeout.
//!   * No Nagle, no delayed acknowledgement, no window scaling, no timestamps
//!     and so no protection against wrapped sequence numbers.
//!
//! A connection sends nothing by itself. Every operation that would put a
//! segment on the wire appends it to a list the caller sends from, and every
//! operation that reads the clock is told what it says.

use crate::bytes::{self, copy_range, drop_front, extend, push_be16, push_be32, put_be16, read_be16, read_be32};
use crate::errno::Errno;
use crate::net::ip;
use crate::net::socket::Endpoint;
use vstd::prelude::*;
use vstd::slice::slice_subrange;

verus! {

pub const FIN: u8 = 0x01;

pub const SYN: u8 = 0x02;

pub const RST: u8 = 0x04;

pub const PSH: u8 = 0x08;

pub const ACK: u8 = 0x10;

pub const URG: u8 = 0x20;

pub const HEADER_LEN: usize = 20;

/// The largest payload one segment carries: a 1500 byte link less the IPv4
/// and TCP headers.
pub const MSS: usize = 1460;

/// The smallest maximum segment size a peer is allowed to insist on.
pub const MIN_MSS: usize = 536;

/// Bytes a connection will hold in each direction.
pub const RECEIVE_WINDOW: usize = 32768;

pub const SEND_BUFFER: usize = 32768;

/// Timer values, in timer ticks. The tick is ten milliseconds.
pub const INITIAL_RTO: u64 = 50;

pub const MAX_RTO: u64 = 600;

pub const MAX_RETRIES: u32 = 8;

pub const SYN_RETRIES: u32 = 5;

/// Twice the maximum segment lifetime. A real stack waits sixty seconds; this
/// waits ten, because nothing here runs long enough for a segment from an old
/// connection to turn up, and a shorter wait keeps the socket table small.
pub const TIME_WAIT_TICKS: u64 = 1000;

/// How long a connection whose descriptor is gone waits in FIN-WAIT-2 for the
/// other end to finish.
pub const FIN_WAIT_2_TICKS: u64 = 6000;

/// The last tick at which a timer may still be set. At a hundred ticks a
/// second the counter is half a billion years from it.
pub const LAST_TICK: u64 = 0xFFFF_FFFF_FFFF_0000;

// ---- sequence numbers ------------------------------------------------------

/// How far `b` lies ahead of `a` on the circle of sequence numbers.
pub open spec fn ahead(a: u32, b: u32) -> int {
    if b >= a {
        b - a
    } else {
        b - a + 0x1_0000_0000
    }
}

/// `a` comes before `b`: `b` is ahead by no more than half the circle.
pub open spec fn before(a: u32, b: u32) -> bool {
    1 <= ahead(a, b) <= 0x8000_0000
}

/// `a` is `b` or comes before it.
pub open spec fn at_or_before(a: u32, b: u32) -> bool {
    ahead(a, b) <= 0x8000_0000
}

/// `a` comes after `b`: it is ahead by less than half the circle.
pub open spec fn after(a: u32, b: u32) -> bool {
    1 <= ahead(b, a) < 0x8000_0000
}

pub fn seq_lt(a: u32, b: u32) -> (r: bool)
    ensures
        r == before(a, b),
{
    a.wrapping_sub(b) >= 0x8000_0000
}

pub fn seq_le(a: u32, b: u32) -> (r: bool)
    ensures
        r == at_or_before(a, b),
{
    let distance: u32 = a.wrapping_sub(b);
    distance == 0 || distance >= 0x8000_0000
}

pub fn seq_gt(a: u32, b: u32) -> (r: bool)
    ensures
        r == after(a, b),
{
    let distance: u32 = a.wrapping_sub(b);
    distance != 0 && distance < 0x8000_0000
}

/// The order does not depend on where on the circle the numbers sit: moving
/// both by the same amount, across the wrap or not, changes no comparison.
pub proof fn sequence_order_is_rotation_free(a: u32, b: u32, by: u32)
    ensures
        before(a.wrapping_add(by), b.wrapping_add(by)) == before(a, b),
        at_or_before(a.wrapping_add(by), b.wrapping_add(by)) == at_or_before(a, b),
        after(a.wrapping_add(by), b.wrapping_add(by)) == after(a, b),
{
}

/// Anything less than half the circle ahead comes after, and nothing comes
/// before itself.
pub proof fn sequence_order_is_distance(a: u32, by: u32)
    requires
        by < 0x8000_0000,
    ensures
        before(a, a.wrapping_add(by)) == (by > 0),
        at_or_before(a, a.wrapping_add(by)),
        after(a.wrapping_add(by), a) == (by > 0),
        !after(a, a.wrapping_add(by)),
        before(a.wrapping_add(by), a) == false,
{
}

// ---- states ----------------------------------------------------------------

#[derive(Clone, Copy, PartialEq, Eq, Debug, Structural)]
pub enum State {
    Closed,
    Listen,
    SynSent,
    SynReceived,
    Established,
    FinWait1,
    FinWait2,
    CloseWait,
    Closing,
    LastAck,
    TimeWait,
}

impl State {
    /// Both ends have agreed sequence numbers.
    pub open spec fn synchronised(self) -> bool {
        !(self is Closed || self is Listen || self is SynSent || self is SynReceived)
    }

    /// Something may still have to be sent, or sent again.
    pub open spec fn sending(self) -> bool {
        self is Established || self is CloseWait || self is FinWait1 || self is Closing
            || self is LastAck
    }

    /// True once both ends have agreed sequence numbers, so data may flow and
    /// a name may be reported for the far end.
    pub fn is_synchronised(self) -> (r: bool)
        ensures
            r == self.synchronised(),
    {
        matches!(
            self,
            State::Established
                | State::FinWait1
                | State::FinWait2
                | State::CloseWait
                | State::Closing
                | State::LastAck
                | State::TimeWait
        )
    }

    pub fn can_output(self) -> (r: bool)
        ensures
            r == self.sending(),
    {
        matches!(
            self,
            State::Established
                | State::CloseWait
                | State::FinWait1
                | State::Closing
                | State::LastAck
        )
    }

    pub fn name(self) -> (text: &'static str)
        ensures
            text@ == (match self {
                State::Closed => "CLOSED"@,
                State::Listen => "LISTEN"@,
                State::SynSent => "SYN-SENT"@,
                State::SynReceived => "SYN-RECEIVED"@,
                State::Established => "ESTABLISHED"@,
                State::FinWait1 => "FIN-WAIT-1"@,
                State::FinWait2 => "FIN-WAIT-2"@,
                State::CloseWait => "CLOSE-WAIT"@,
                State::Closing => "CLOSING"@,
                State::LastAck => "LAST-ACK"@,
                State::TimeWait => "TIME-WAIT"@,
            }),
    {
        match self {
            State::Closed => "CLOSED",
            State::Listen => "LISTEN",
            State::SynSent => "SYN-SENT",
            State::SynReceived => "SYN-RECEIVED",
            State::Established => "ESTABLISHED",
            State::FinWait1 => "FIN-WAIT-1",
            State::FinWait2 => "FIN-WAIT-2",
            State::CloseWait => "CLOSE-WAIT",
            State::Closing => "CLOSING",
            State::LastAck => "LAST-ACK",
            State::TimeWait => "TIME-WAIT",
        }
    }
}

// ---- segments --------------------------------------------------------------

pub struct Segment<'a> {
    pub source_port: u16,
    pub destination_port: u16,
    pub sequence: u32,
    pub acknowledgement: u32,
    pub flags: u8,
    pub window: u16,
    pub mss: Option<u16>,
    pub payload: &'a [u8],
}

/// What a segment says.
#[verifier::ext_equal]
pub struct SegmentView {
    pub source_port: u16,
    pub destination_port: u16,
    pub sequence: u32,
    pub acknowledgement: u32,
    pub flags: u8,
    pub window: u16,
    pub mss: Option<u16>,
    pub payload: Seq<u8>,
}

impl<'a> View for Segment<'a> {
    type V = SegmentView;

    open spec fn view(&self) -> SegmentView {
        SegmentView {
            source_port: self.source_port,
            destination_port: self.destination_port,
            sequence: self.sequence,
            acknowledgement: self.acknowledgement,
            flags: self.flags,
            window: self.window,
            mss: self.mss,
            payload: self.payload@,
        }
    }
}

impl SegmentView {
    pub open spec fn has(self, flag: u8) -> bool {
        self.flags & flag != 0
    }

    /// How many sequence numbers the segment consumes.
    pub open spec fn length(self) -> int {
        self.payload.len() + (if self.has(SYN) {
            1int
        } else {
            0
        }) + (if self.has(FIN) {
            1int
        } else {
            0
        })
    }
}

/// The maximum segment size an option list announces: the last well formed
/// option of that kind before the list ends or stops making sense.
pub open spec fn mss_option(options: Seq<u8>, found: Option<u16>) -> Option<u16>
    decreases options.len(),
{
    if options.len() == 0 || options[0] == 0 {
        found
    } else if options[0] == 1 {
        mss_option(options.skip(1), found)
    } else if options.len() < 2 || options[1] < 2 || options[1] > options.len() {
        found
    } else {
        mss_option(
            options.skip(options[1] as int),
            if options[0] == 2 && options[1] == 4 {
                Some(bytes::be16(options, 2) as u16)
            } else {
                found
            },
        )
    }
}

/// Where a segment's payload starts.
pub open spec fn data_offset(bytes: Seq<u8>) -> int {
    bytes[12] / 16 * 4
}

/// A segment whose header, options included, is all there.
pub open spec fn is_segment(bytes: Seq<u8>) -> bool {
    &&& bytes.len() >= HEADER_LEN
    &&& HEADER_LEN <= data_offset(bytes) <= bytes.len()
}

/// The fields of a segment.
pub open spec fn segment_of(bytes: Seq<u8>) -> SegmentView {
    SegmentView {
        source_port: bytes::be16(bytes, 0) as u16,
        destination_port: bytes::be16(bytes, 2) as u16,
        sequence: bytes::be32(bytes, 4) as u32,
        acknowledgement: bytes::be32(bytes, 8) as u32,
        flags: bytes[13],
        window: bytes::be16(bytes, 14) as u16,
        mss: mss_option(bytes.subrange(HEADER_LEN as int, data_offset(bytes)), None),
        payload: bytes.skip(data_offset(bytes)),
    }
}

impl<'a> Segment<'a> {
    pub fn parse(bytes: &'a [u8]) -> (segment: Option<Segment<'a>>)
        ensures
            segment is Some <==> is_segment(bytes@),
            segment matches Some(s) ==> s@ == segment_of(bytes@),
    {
        if bytes.len() < HEADER_LEN {
            return None;
        }
        let offset: usize = (bytes[12] / 16) as usize * 4;
        if offset < HEADER_LEN || bytes.len() < offset {
            return None;
        }
        let ghost options = bytes@.subrange(HEADER_LEN as int, offset as int);
        let mut mss: Option<u16> = None;
        let mut i: usize = HEADER_LEN;
        assert(options.skip(0) =~= options);
        while i < offset
            invariant_except_break
                HEADER_LEN <= i <= offset <= bytes@.len(),
                offset <= 60,
                options == bytes@.subrange(HEADER_LEN as int, offset as int),
                mss_option(options.skip(i - HEADER_LEN), mss) == mss_option(options, None),
            ensures
                mss == mss_option(options, None),
            decreases offset - i,
        {
            let ghost left = options.skip(i - HEADER_LEN);
            assert(left[0] == bytes@[i as int]);
            assert(left.len() == offset - i);
            let kind: u8 = bytes[i];
            if kind == 0 {
                // End of the option list.
                break;
            }
            if kind == 1 {
                // One byte of padding.
                i += 1;
                assert(left.skip(1) =~= options.skip(i - HEADER_LEN));
            } else {
                if i + 1 >= offset {
                    break;
                }
                assert(left[1] == bytes@[i + 1]);
                let length: usize = bytes[i + 1] as usize;
                if length < 2 || i + length > offset {
                    break;
                }
                if kind == 2 && length == 4 {
                    assert(bytes::be16(left, 2) == bytes::be16(bytes@, i + 2));
                    mss = Some(read_be16(bytes, i + 2));
                }
                i += length;
                assert(left.skip(length as int) =~= options.skip(i - HEADER_LEN));
            }
        }
        let payload = slice_subrange(bytes, offset, bytes.len());
        assert(payload@ =~= bytes@.skip(offset as int));
        Some(
            Segment {
                source_port: read_be16(bytes, 0),
                destination_port: read_be16(bytes, 2),
                sequence: read_be32(bytes, 4),
                acknowledgement: read_be32(bytes, 8),
                flags: bytes[13],
                window: read_be16(bytes, 14),
                mss,
                payload,
            },
        )
    }

    /// How many sequence numbers this segment consumes.
    pub fn length(&self) -> (length: u32)
        requires
            self.payload@.len() <= ip::MAX_DATAGRAM,
        ensures
            length == self@.length(),
    {
        let mut length: u32 = self.payload.len() as u32;
        if self.flags & SYN != 0 {
            length += 1;
        }
        if self.flags & FIN != 0 {
            length += 1;
        }
        length
    }
}

/// One segment a connection wants sent, with the two ends it runs between. A
/// source address of 0.0.0.0 stands for whichever address this machine talks
/// to the destination from.
pub struct Outgoing {
    pub source: Endpoint,
    pub destination: Endpoint,
    pub sequence: u32,
    pub acknowledgement: u32,
    pub flags: u8,
    pub window: u16,
    pub mss: Option<u16>,
    pub payload: Vec<u8>,
}

/// What an outgoing segment says.
#[verifier::ext_equal]
pub struct OutgoingView {
    pub source: Endpoint,
    pub destination: Endpoint,
    pub sequence: u32,
    pub acknowledgement: u32,
    pub flags: u8,
    pub window: u16,
    pub mss: Option<u16>,
    pub payload: Seq<u8>,
}

impl View for Outgoing {
    type V = OutgoingView;

    open spec fn view(&self) -> OutgoingView {
        OutgoingView {
            source: self.source,
            destination: self.destination,
            sequence: self.sequence,
            acknowledgement: self.acknowledgement,
            flags: self.flags,
            window: self.window,
            mss: self.mss,
            payload: self.payload@,
        }
    }
}

/// What a list of outgoing segments says.
pub open spec fn views(segments: Seq<Outgoing>) -> Seq<OutgoingView> {
    Seq::new(segments.len(), |i: int| segments[i]@)
}

/// A segment's header and options, with nothing in its checksum yet, followed
/// by its payload.
pub open spec fn bare_segment(o: OutgoingView) -> Seq<u8> {
    let options = options_of(o);
    bytes::be16_bytes(o.source.port as int) + bytes::be16_bytes(o.destination.port as int) + bytes::be32_bytes(
        o.sequence as int,
    ) + bytes::be32_bytes(o.acknowledgement as int) + seq![
        ((HEADER_LEN + options.len()) * 4) as u8,
        o.flags,
    ] + bytes::be16_bytes(o.window as int) + seq![0u8, 0u8, 0u8, 0u8] + options + o.payload
}

/// A segment as it goes on the wire.
pub open spec fn segment_bytes(o: OutgoingView) -> Seq<u8> {
    let bare = bare_segment(o);
    bytes::put16(
        bare,
        16,
        ip::transport_checksum(o.source.address, o.destination.address, ip::PROTO_TCP, bare),
    )
}

/// The most a segment built here may carry: a datagram's worth, less the
/// longest header.
pub const MAX_PAYLOAD: usize = 65511;

/// Build one segment, checksum included.
pub fn build(
    source: Endpoint,
    destination: Endpoint,
    sequence: u32,
    acknowledgement: u32,
    flags: u8,
    window: u16,
    mss: Option<u16>,
    payload: &[u8],
) -> (segment: Vec<u8>)
    requires
        payload@.len() <= MAX_PAYLOAD,
    ensures
        segment@ == segment_bytes(
            OutgoingView {
                source,
                destination,
                sequence,
                acknowledgement,
                flags,
                window,
                mss,
                payload: payload@,
            },
        ),
{
    let ghost o = OutgoingView {
        source,
        destination,
        sequence,
        acknowledgement,
        flags,
        window,
        mss,
        payload: payload@,
    };
    let options: u8 = if mss.is_some() {
        4
    } else {
        0
    };
    let mut segment: Vec<u8> = Vec::new();
    push_be16(&mut segment, source.port);
    push_be16(&mut segment, destination.port);
    push_be32(&mut segment, sequence);
    push_be32(&mut segment, acknowledgement);
    segment.push((HEADER_LEN as u8 + options) * 4);
    segment.push(flags);
    push_be16(&mut segment, window);
    push_be16(&mut segment, 0);
    push_be16(&mut segment, 0);
    if let Some(mss) = mss {
        segment.push(2);
        segment.push(4);
        push_be16(&mut segment, mss);
    }
    extend(&mut segment, payload);
    assert(segment@ =~= bare_segment(o));
    let checksum: u16 = ip::transport_sum(
        source.address,
        destination.address,
        ip::PROTO_TCP,
        segment.as_slice(),
    );
    put_be16(&mut segment, 16, checksum);
    segment
}

/// The options a segment carries.
pub open spec fn options_of(o: OutgoingView) -> Seq<u8> {
    match o.mss {
        Some(mss) => seq![2u8, 4u8] + bytes::be16_bytes(mss as int),
        None => Seq::<u8>::empty(),
    }
}

/// The ports and sequence numbers of a built segment.
#[verifier::spinoff_prover]
proof fn built_numbers(o: OutgoingView)
    ensures
        bytes::be16(segment_bytes(o), 0) == o.source.port,
        bytes::be16(segment_bytes(o), 2) == o.destination.port,
        bytes::be32(segment_bytes(o), 4) == o.sequence,
        bytes::be32(segment_bytes(o), 8) == o.acknowledgement,
{
    let wire = segment_bytes(o);
    assert(wire.subrange(0, 2) =~= bytes::be16_bytes(o.source.port as int));
    bytes::be16_at(wire, 0, o.source.port as int);
    assert(wire.subrange(2, 4) =~= bytes::be16_bytes(o.destination.port as int));
    bytes::be16_at(wire, 2, o.destination.port as int);
    assert(wire.subrange(4, 8) =~= bytes::be32_bytes(o.sequence as int));
    bytes::be32_at(wire, 4, o.sequence as int);
    assert(wire.subrange(8, 12) =~= bytes::be32_bytes(o.acknowledgement as int));
    bytes::be32_at(wire, 8, o.acknowledgement as int);
}

/// The rest of a built segment.
#[verifier::spinoff_prover]
proof fn built_rest(o: OutgoingView)
    ensures
        segment_bytes(o).len() == HEADER_LEN + options_of(o).len() + o.payload.len(),
        data_offset(segment_bytes(o)) == HEADER_LEN + options_of(o).len(),
        segment_bytes(o)[13] == o.flags,
        bytes::be16(segment_bytes(o), 14) == o.window,
        segment_bytes(o).skip(HEADER_LEN as int) == options_of(o) + o.payload,
{
    let wire = segment_bytes(o);
    assert(wire.skip(HEADER_LEN as int) =~= options_of(o) + o.payload);
    assert(wire.subrange(14, 16) =~= bytes::be16_bytes(o.window as int));
    bytes::be16_at(wire, 14, o.window as int);
}

/// A built segment passes the receiver's checksum test and says what it was
/// built from.
#[verifier::spinoff_prover]
pub proof fn segment_round_trip(o: OutgoingView)
    requires
        o.payload.len() <= MAX_PAYLOAD,
    ensures
        ({
            let wire = segment_bytes(o);
            &&& is_segment(wire)
            &&& ip::transport_checksum(
                o.source.address,
                o.destination.address,
                ip::PROTO_TCP,
                wire,
            ) == 0
            &&& segment_of(wire) == SegmentView {
                source_port: o.source.port,
                destination_port: o.destination.port,
                sequence: o.sequence,
                acknowledgement: o.acknowledgement,
                flags: o.flags,
                window: o.window,
                mss: o.mss,
                payload: o.payload,
            }
        }),
{
    let bare = bare_segment(o);
    let wire = segment_bytes(o);
    let options = options_of(o);
    built_numbers(o);
    built_rest(o);
    assert(bare[16] == 0 && bare[17] == 0 && bare.len() == wire.len()) by {
        assert(bare.subrange(16, 20) =~= seq![0u8, 0u8, 0u8, 0u8]);
        assert(bare[16] == bare.subrange(16, 20)[0]);
        assert(bare[17] == bare.subrange(16, 20)[1]);
    }
    ip::checksum_fills_in(
        bare,
        16,
        ip::pseudo_total(
            o.source.address,
            o.destination.address,
            ip::PROTO_TCP,
            bare.len() as int,
        ),
    );
    assert(wire.subrange(20, data_offset(wire)) =~= wire.skip(20).take(options.len() as int));
    assert(wire.skip(20).take(options.len() as int) =~= options);
    assert(wire.skip(data_offset(wire)) =~= wire.skip(20).skip(options.len() as int));
    assert(wire.skip(20).skip(options.len() as int) =~= o.payload);
    assert(mss_option(options, None) == o.mss) by {
        if o.mss is Some {
            assert(options.skip(4).len() == 0);
            assert(bytes::be16(options, 2) == o.mss->0);
            assert(mss_option(options.skip(4), o.mss) == o.mss);
        }
    }
}

/// `x` turned left by thirteen bits.
pub open spec fn turned(x: u32) -> u32 {
    (x << 13u32) | (x >> 19u32)
}

/// What tells one connection from another in its starting sequence number.
pub open spec fn salt_of(local: Endpoint, remote: Endpoint) -> u32 {
    ((local.port as u32) << 16u32) ^ (remote.port as u32) ^ turned(remote.address.0)
}

/// A number stirred into one that gives nothing away without the secret.
pub open spec fn stirred(salt: u32, secret: u64) -> u32 {
    let low = (secret % 0x1_0000_0000) as u32;
    let high = (secret / 0x1_0000_0000) as u32;
    let a = (salt ^ low).wrapping_mul(0x9E37_79B9);
    let b = (a ^ (a >> 15u32) ^ high).wrapping_mul(0x85EB_CA6B);
    let c = (b ^ (b >> 13u32)).wrapping_mul(0xC2B2_AE35);
    c ^ (c >> 16u32)
}

/// A starting sequence number that differs between connections and advances
/// with the clock, so a segment left over from an earlier connection between
/// the same two ports falls outside the new one's window. The clock goes up by
/// one every four microseconds.
///
/// One connection's number must not give away another's, which is the whole of
/// what a blind sender is otherwise missing, so the rest of it rests on a
/// secret drawn when the machine starts.
pub open spec fn first_sequence(
    local: Endpoint,
    remote: Endpoint,
    monotonic_ns: u64,
    secret: u64,
) -> u32 {
    let clock = (monotonic_ns / 4000 % 0x1_0000_0000) as u32;
    clock.wrapping_add(stirred(salt_of(local, remote), secret))
}

/// The starting sequence number of a connection opened when the monotonic
/// clock reads `monotonic_ns`.
pub fn initial_sequence(local: Endpoint, remote: Endpoint, monotonic_ns: u64, secret: u64) -> (sequence:
    u32)
    ensures
        sequence == first_sequence(local, remote, monotonic_ns, secret),
{
    let clock: u32 = (monotonic_ns / 4000 % 0x1_0000_0000) as u32;
    let far: u32 = remote.address.0;
    let salt: u32 = ((local.port as u32) << 16u32) ^ (remote.port as u32) ^ ((far << 13u32) | (far
        >> 19u32));
    let low: u32 = (secret % 0x1_0000_0000) as u32;
    let high: u32 = (secret / 0x1_0000_0000) as u32;
    let a: u32 = (salt ^ low).wrapping_mul(0x9E37_79B9);
    let b: u32 = (a ^ (a >> 15u32) ^ high).wrapping_mul(0x85EB_CA6B);
    let c: u32 = (b ^ (b >> 13u32)).wrapping_mul(0xC2B2_AE35);
    clock.wrapping_add(c ^ (c >> 16u32))
}

// ---- the transmission control block ---------------------------------------

pub struct Tcb {
    pub state: State,
    pub local: Endpoint,
    pub remote: Endpoint,
    pub bound: bool,
    pub iss: u32,
    pub send_unacknowledged: u32,
    pub send_next: u32,
    pub send_window: u32,
    pub window_sequence: u32,
    pub window_ack: u32,
    pub irs: u32,
    pub receive_next: u32,
    /// Everything from `send_unacknowledged` onwards: what has been sent and
    /// not acknowledged, followed by what has not been sent.
    pub pending: Vec<u8>,
    pub received: Vec<u8>,
    /// Room in the receive buffer that has not been offered to the other end:
    /// the right edge of the window moves by whole segments only.
    pub held_back: usize,
    /// The user has finished writing; a FIN follows the queued data.
    pub fin_queued: bool,
    /// The sequence number our FIN occupies, once it has been sent.
    pub fin_sequence: Option<u32>,
    pub fin_acknowledged: bool,
    pub fin_received: bool,
    pub read_shutdown: bool,
    /// No descriptor names this connection any more. Nothing can read what
    /// arrives and nothing can close it a second time, so the states that
    /// wait on the other end have to give up by themselves.
    pub abandoned: bool,
    pub error: Option<Errno>,
    pub peer_mss: usize,
    /// Tick at which the unacknowledged data is sent again. Zero is off.
    pub retransmit_at: u64,
    pub rto: u64,
    pub retries: u32,
    /// Tick at which a state that waits on a clock rather than on the other
    /// end gives up: TIME-WAIT's two segment lifetimes, and the bound on
    /// FIN-WAIT-2. Zero is off.
    pub expire_at: u64,
    pub congestion_window: u32,
    pub slow_start_threshold: u32,
    pub backlog: usize,
    /// The connections a listener has answered and nobody has accepted yet,
    /// by their place in the socket table.
    pub children: Vec<usize>,
}

/// Everything a connection remembers.
#[verifier::ext_equal]
pub struct TcbView {
    pub state: State,
    pub local: Endpoint,
    pub remote: Endpoint,
    pub bound: bool,
    pub iss: u32,
    pub send_unacknowledged: u32,
    pub send_next: u32,
    pub send_window: u32,
    pub window_sequence: u32,
    pub window_ack: u32,
    pub irs: u32,
    pub receive_next: u32,
    pub pending: Seq<u8>,
    pub received: Seq<u8>,
    pub held_back: usize,
    pub fin_queued: bool,
    pub fin_sequence: Option<u32>,
    pub fin_acknowledged: bool,
    pub fin_received: bool,
    pub read_shutdown: bool,
    pub abandoned: bool,
    pub error: Option<Errno>,
    pub peer_mss: usize,
    pub retransmit_at: u64,
    pub rto: u64,
    pub retries: u32,
    pub expire_at: u64,
    pub congestion_window: u32,
    pub slow_start_threshold: u32,
    pub backlog: usize,
    pub children: Seq<usize>,
}

impl View for Tcb {
    type V = TcbView;

    open spec fn view(&self) -> TcbView {
        TcbView {
            state: self.state,
            local: self.local,
            remote: self.remote,
            bound: self.bound,
            iss: self.iss,
            send_unacknowledged: self.send_unacknowledged,
            send_next: self.send_next,
            send_window: self.send_window,
            window_sequence: self.window_sequence,
            window_ack: self.window_ack,
            irs: self.irs,
            receive_next: self.receive_next,
            pending: self.pending@,
            received: self.received@,
            held_back: self.held_back,
            fin_queued: self.fin_queued,
            fin_sequence: self.fin_sequence,
            fin_acknowledged: self.fin_acknowledged,
            fin_received: self.fin_received,
            read_shutdown: self.read_shutdown,
            abandoned: self.abandoned,
            error: self.error,
            peer_mss: self.peer_mss,
            retransmit_at: self.retransmit_at,
            rto: self.rto,
            retries: self.retries,
            expire_at: self.expire_at,
            congestion_window: self.congestion_window,
            slow_start_threshold: self.slow_start_threshold,
            backlog: self.backlog,
            children: self.children@,
        }
    }
}

/// What an operation on a connection did: what the connection remembers
/// afterwards, what it wants sent, and whether something a waiter cares about
/// changed.
#[verifier::ext_equal]
pub struct Step {
    pub tcb: TcbView,
    pub sent: Seq<OutgoingView>,
    pub woke: bool,
}

impl TcbView {
    /// A connection nothing has happened to yet.
    pub open spec fn fresh() -> TcbView {
        TcbView {
            state: State::Closed,
            local: Endpoint::nobody(),
            remote: Endpoint::nobody(),
            bound: false,
            iss: 0,
            send_unacknowledged: 0,
            send_next: 0,
            send_window: MSS as u32,
            window_sequence: 0,
            window_ack: 0,
            irs: 0,
            receive_next: 0,
            pending: Seq::empty(),
            received: Seq::empty(),
            held_back: 0,
            fin_queued: false,
            fin_sequence: None,
            fin_acknowledged: false,
            fin_received: false,
            read_shutdown: false,
            abandoned: false,
            error: None,
            peer_mss: MSS,
            retransmit_at: 0,
            rto: INITIAL_RTO,
            retries: 0,
            expire_at: 0,
            congestion_window: MSS as u32,
            slow_start_threshold: 0x1_0000,
            backlog: 1,
            children: Seq::empty(),
        }
    }

    /// What holds of a connection between any two operations on it: neither
    /// buffer is over its limit, the peer's segment size and the
    /// retransmission timeout stay between their bounds, a connection that is
    /// closed or only listening has no timer running, any other has not used
    /// up its retries, and one that nobody names and that only the other end
    /// could finish has a time to end at.
    pub open spec fn valid(self) -> bool {
        &&& self.pending.len() <= SEND_BUFFER
        &&& self.received.len() + self.held_back <= RECEIVE_WINDOW
        &&& MIN_MSS <= self.peer_mss <= MSS
        &&& INITIAL_RTO <= self.rto <= MAX_RTO
        &&& self.retries <= MAX_RETRIES + 1
        &&& self.idle() ==> self.retransmit_at == 0
        &&& !self.idle() ==> self.retries <= MAX_RETRIES
        &&& self.error != Some(Errno::EAGAIN)
        &&& self.expire_at < u64::MAX
        &&& self.state is FinWait2 && self.abandoned ==> self.expire_at != 0
    }

    /// Nothing is open: no connection, or only a listener.
    pub open spec fn idle(self) -> bool {
        self.state is Closed || self.state is Listen
    }

    /// How much more this end is prepared to receive.
    pub open spec fn window(self) -> u16 {
        if self.received.len() + self.held_back < RECEIVE_WINDOW {
            (RECEIVE_WINDOW - self.received.len() - self.held_back) as u16
        } else {
            0
        }
    }

    /// Room freed in the receive buffer. It is held back until the right edge
    /// of the window can move by a whole segment: an edge that followed every
    /// byte read would have the other end send segments of a few bytes.
    pub open spec fn freeing(self, freed: int) -> TcbView {
        let back = self.held_back + freed;
        let free = RECEIVE_WINDOW - self.received.len();
        TcbView {
            held_back: if back >= self.peer_mss {
                0
            } else if back > free {
                free as usize
            } else {
                back as usize
            },
            ..self
        }
    }

    /// A segment this connection would send. It names the next byte wanted if
    /// it acknowledges anything, and always how much room there is.
    pub open spec fn segment(self, flags: u8, sequence: u32, payload: Seq<u8>, with_mss: bool)
        -> OutgoingView {
        OutgoingView {
            source: self.local,
            destination: self.remote,
            sequence,
            acknowledgement: if flags & ACK != 0 {
                self.receive_next
            } else {
                0
            },
            flags,
            window: self.window(),
            mss: if with_mss {
                Some(MSS as u16)
            } else {
                None
            },
            payload,
        }
    }

    /// A segment with nothing in it.
    pub open spec fn control(self, flags: u8, sequence: u32, with_mss: bool) -> OutgoingView {
        self.segment(flags, sequence, Seq::empty(), with_mss)
    }

    /// Saying where this end is.
    pub open spec fn acknowledgement(self) -> OutgoingView {
        self.control(ACK, self.send_next, false)
    }

    /// The retransmission timer started, unless it is running already.
    pub open spec fn armed(self, now: u64) -> TcbView {
        TcbView {
            retransmit_at: if self.retransmit_at == 0 {
                (now + self.rto) as u64
            } else {
                self.retransmit_at
            },
            ..self
        }
    }

    pub open spec fn quiet(self, woke: bool) -> Step {
        Step { tcb: self, sent: Seq::empty(), woke }
    }

    /// How far what has been sent runs past what has been acknowledged.
    pub open spec fn in_flight(self) -> int {
        ahead(self.send_unacknowledged, self.send_next)
    }

    /// The sequence number the two windows stop at.
    pub open spec fn send_limit(self) -> u32 {
        self.send_unacknowledged.wrapping_add(
            if self.send_window < self.congestion_window {
                self.send_window
            } else {
                self.congestion_window
            },
        )
    }

    /// How many bytes of the pending data go in the next segment: as many as
    /// are waiting, as one segment carries, and as fit below `limit`.
    pub open spec fn next_chunk(self, limit: u32) -> int {
        let waiting = self.pending.len() - self.in_flight();
        let room = ahead(self.send_next, limit);
        if waiting <= 0 || !before(self.send_next, limit) {
            0
        } else if waiting <= self.peer_mss && waiting <= room {
            waiting
        } else if self.peer_mss <= room {
            self.peer_mss as int
        } else {
            room
        }
    }

    /// Send pending data up to `limit`, and the FIN behind it once nothing
    /// else is waiting.
    #[verifier::opaque]
    pub open spec fn sent_up_to(self, limit: u32, now: u64) -> (TcbView, Seq<OutgoingView>)
        decreases self.pending.len() - self.in_flight(),
    {
        if self.pending.len() > SEND_BUFFER {
            (self, Seq::empty())
        } else if self.pending.len() > self.in_flight() {
            let n = self.next_chunk(limit);
            if n <= 0 {
                (self, Seq::empty())
            } else {
                let (rest, sent) = self.past_chunk(n, now).sent_up_to(limit, now);
                (rest, seq![self.chunk(n)] + sent)
            }
        } else if self.fin_queued && self.fin_sequence is None {
            (
                TcbView {
                    fin_sequence: Some(self.send_next),
                    send_next: self.send_next.wrapping_add(1),
                    ..self
                }.armed(now),
                seq![self.control(FIN | ACK, self.send_next, false)],
            )
        } else {
            (self, Seq::empty())
        }
    }

    /// Send whatever the windows allow.
    pub open spec fn flushed(self, now: u64) -> (TcbView, Seq<OutgoingView>) {
        if self.state.sending() {
            self.sent_up_to(self.send_limit(), now)
        } else {
            (self, Seq::empty())
        }
    }

    /// Start an active open.
    pub open spec fn opened(self, now: u64, clock_ns: u64, secret: u64) -> (TcbView, Seq<OutgoingView>) {
        let iss = first_sequence(self.local, self.remote, clock_ns, secret);
        let asking = TcbView {
            iss,
            send_unacknowledged: iss,
            send_next: iss.wrapping_add(1),
            state: State::SynSent,
            congestion_window: MSS as u32,
            rto: INITIAL_RTO,
            retries: 0,
            held_back: 0,
            ..self
        };
        (asking.armed(now), seq![asking.control(SYN, iss, true)])
    }

    /// The segment size the peer's request allows: what it named, within
    /// bounds, and what was assumed before if it named none.
    pub open spec fn agreed_mss(self, segment: SegmentView) -> usize {
        match segment.mss {
            Some(mss) => if mss < MIN_MSS {
                MIN_MSS
            } else if mss > MSS {
                MSS
            } else {
                mss as usize
            },
            None => self.peer_mss,
        }
    }

    /// The state a connection request establishes at the end that answers it.
    pub open spec fn accepted(self, segment: SegmentView, clock_ns: u64, secret: u64) -> TcbView {
        let iss = first_sequence(self.local, self.remote, clock_ns, secret);
        TcbView {
            irs: segment.sequence,
            receive_next: segment.sequence.wrapping_add(1),
            peer_mss: self.agreed_mss(segment),
            send_window: segment.window as u32,
            window_sequence: segment.sequence,
            iss,
            send_unacknowledged: iss,
            send_next: iss.wrapping_add(1),
            window_ack: iss,
            state: State::SynReceived,
            congestion_window: MSS as u32,
            rto: INITIAL_RTO,
            ..self
        }
    }

    /// The connection is gone, and so is everything queued to be sent.
    pub open spec fn aborted(self) -> (TcbView, Seq<OutgoingView>) {
        (
            TcbView {
                state: State::Closed,
                retransmit_at: 0,
                pending: Seq::empty(),
                fin_queued: false,
                ..self
            },
            if self.state.synchronised() || self.state is SynReceived {
                seq![self.control(RST | ACK, self.send_next, false)]
            } else {
                Seq::empty()
            },
        )
    }

    /// Stop writing.
    pub open spec fn write_shut(self, now: u64) -> (TcbView, Seq<OutgoingView>) {
        if self.fin_queued {
            (self, Seq::empty())
        } else {
            match self.state {
                State::Established | State::SynReceived => TcbView {
                    fin_queued: true,
                    state: State::FinWait1,
                    ..self
                }.flushed(now),
                State::CloseWait => TcbView {
                    fin_queued: true,
                    state: State::LastAck,
                    ..self
                }.flushed(now),
                State::SynSent | State::Listen | State::Closed => (
                    TcbView { state: State::Closed, retransmit_at: 0, ..self },
                    Seq::empty(),
                ),
                _ => (self, Seq::empty()),
            }
        }
    }

    // ---- user operations ---------------------------------------------------

    /// Queue bytes to be sent: what is remembered, what is sent, and what the
    /// caller is told.
    pub open spec fn written(self, buf: Seq<u8>, now: u64) -> (
        TcbView,
        Seq<OutgoingView>,
        Result<usize, Errno>,
    ) {
        match self.state {
            State::Established | State::CloseWait => if self.fin_queued {
                (self, Seq::empty(), Err(Errno::EPIPE))
            } else if self.pending.len() >= SEND_BUFFER {
                (self, Seq::empty(), Err(Errno::EAGAIN))
            } else {
                let room = SEND_BUFFER - self.pending.len();
                let n = if room < buf.len() {
                    room
                } else {
                    buf.len() as int
                };
                let (tcb, sent) = TcbView {
                    pending: self.pending + buf.take(n),
                    ..self
                }.flushed(now);
                (tcb, sent, Ok(n as usize))
            },
            State::SynSent | State::SynReceived => (self, Seq::empty(), Err(Errno::EAGAIN)),
            State::Closed => (
                TcbView { error: None, ..self },
                Seq::empty(),
                match self.error {
                    Some(reason) => Err(reason),
                    None => Err(Errno::ENOTCONN),
                },
            ),
            State::Listen => (self, Seq::empty(), Err(Errno::ENOTCONN)),
            _ => (self, Seq::empty(), Err(Errno::EPIPE)),
        }
    }

    /// The bytes a read of up to `size` copies out.
    pub open spec fn readable(self, size: int) -> Seq<u8> {
        if size < self.received.len() {
            self.received.take(size)
        } else {
            self.received
        }
    }

    /// Read up to `size` bytes.
    pub open spec fn read_out(self, size: int, peek: bool) -> (
        TcbView,
        Seq<OutgoingView>,
        Result<usize, Errno>,
    ) {
        let n = self.readable(size).len();
        if self.received.len() > 0 {
            if peek {
                (self, Seq::empty(), Ok(n as usize))
            } else {
                let after = TcbView {
                    received: self.received.skip(n as int),
                    ..self
                }.freeing(n as int);
                let reopened = self.window() < self.peer_mss && after.window() >= self.peer_mss;
                (
                    after,
                    if reopened && self.state.synchronised() {
                        seq![after.acknowledgement()]
                    } else {
                        Seq::empty()
                    },
                    Ok(n as usize),
                )
            }
        } else if size == 0 || self.fin_received || self.read_shutdown {
            (self, Seq::empty(), Ok(0))
        } else if self.state is Closed {
            (
                TcbView { error: None, ..self },
                Seq::empty(),
                match self.error {
                    Some(reason) => Err(reason),
                    None => Ok(0),
                },
            )
        } else if self.state is Listen {
            (self, Seq::empty(), Err(Errno::ENOTCONN))
        } else {
            (self, Seq::empty(), Err(Errno::EAGAIN))
        }
    }

    // ---- what arrives ------------------------------------------------------

    /// The first test of RFC 793 section 3.9: some part of the segment falls in the
    /// window this end is waiting for.
    pub open spec fn accepts(self, segment: SegmentView) -> bool {
        let window = self.window() as u32;
        let first = segment.sequence;
        let right = self.receive_next.wrapping_add(window);
        if segment.length() == 0 {
            if window == 0 {
                first == self.receive_next
            } else {
                at_or_before(self.receive_next, first) && before(first, right)
            }
        } else if window == 0 {
            false
        } else {
            let last = first.wrapping_add((segment.length() - 1) as u32);
            ||| at_or_before(self.receive_next, first) && before(first, right)
            ||| at_or_before(self.receive_next, last) && before(last, right)
        }
    }

    /// The answer to a segment outside the window. Nothing in it is believed;
    /// the answer says where this end actually is. A reset draws none, and a
    /// connection request repeated during the handshake draws the handshake's
    /// own answer again.
    pub open spec fn on_outside(self, segment: SegmentView, now: u64) -> Step {
        if segment.has(RST) {
            self.quiet(false)
        } else if self.state is SynReceived && segment.has(SYN) && !segment.has(ACK)
            && segment.sequence == self.irs {
            Step {
                tcb: self.armed(now),
                sent: seq![self.control(SYN | ACK, self.iss, true)],
                woke: false,
            }
        } else {
            Step { tcb: self, sent: seq![self.acknowledgement()], woke: false }
        }
    }

    /// Whether an acknowledgement covers something sent and not yet
    /// acknowledged, and nothing that was never sent.
    pub open spec fn confirms(self, acknowledgement: u32) -> bool {
        after(acknowledgement, self.send_unacknowledged) && at_or_before(
            acknowledgement,
            self.send_next,
        )
    }

    /// Slow start below the threshold, one segment per window above it.
    pub open spec fn grown_window(self) -> u32 {
        let by = if self.congestion_window < self.slow_start_threshold {
            MSS as int
        } else if self.congestion_window == 0 {
            MSS * MSS
        } else if self.congestion_window > MSS * MSS {
            1
        } else {
            MSS * MSS / self.congestion_window as int
        };
        if self.congestion_window + by > u32::MAX {
            u32::MAX
        } else {
            (self.congestion_window + by) as u32
        }
    }

    /// What an acknowledgement of something outstanding does: the bytes it
    /// covers leave the queue, the FIN is known to have arrived if it covers
    /// that, and the timer starts over or stops.
    pub open spec fn confirmed(self, acknowledgement: u32, now: u64) -> TcbView {
        let covers_fin = self.fin_sequence is Some && before(
            self.fin_sequence->0,
            acknowledgement,
        ) && !self.fin_acknowledged;
        let bytes = ahead(self.send_unacknowledged, acknowledgement) - (if covers_fin {
            1int
        } else {
            0
        });
        TcbView {
            fin_acknowledged: self.fin_acknowledged || covers_fin,
            pending: self.pending.skip(
                if bytes < self.pending.len() {
                    bytes
                } else {
                    self.pending.len() as int
                },
            ),
            send_unacknowledged: acknowledgement,
            retries: 0,
            rto: INITIAL_RTO,
            congestion_window: self.grown_window(),
            retransmit_at: if acknowledgement == self.send_next {
                0
            } else {
                (now + INITIAL_RTO) as u64
            },
            ..self
        }
    }

    /// The send window, taken from a segment that carries a newer view of it
    /// than the one already held.
    pub open spec fn window_updated(self, segment: SegmentView) -> TcbView {
        if before(self.window_sequence, segment.sequence) || (self.window_sequence
            == segment.sequence && at_or_before(self.window_ack, segment.acknowledgement)) {
            TcbView {
                send_window: segment.window as u32,
                window_sequence: segment.sequence,
                window_ack: segment.acknowledgement,
                ..self
            }
        } else {
            self
        }
    }

    /// Both ends have finished; wait out what may still be on the link.
    pub open spec fn waiting_out(self, now: u64) -> TcbView {
        TcbView {
            state: State::TimeWait,
            expire_at: (now + TIME_WAIT_TICKS) as u64,
            retransmit_at: 0,
            pending: Seq::empty(),
            read_shutdown: true,
            received: if self.abandoned {
                Seq::empty()
            } else {
                self.received
            },
            ..self
        }
    }

    /// This end has finished and the other has not.
    pub open spec fn half_closed(self, now: u64) -> TcbView {
        TcbView {
            state: State::FinWait2,
            expire_at: if self.abandoned {
                (now + FIN_WAIT_2_TICKS) as u64
            } else {
                self.expire_at
            },
            ..self
        }
    }

    /// Our own FIN being acknowledged moves the close along.
    pub open spec fn close_advanced(self, now: u64) -> (TcbView, bool) {
        if !self.fin_acknowledged {
            (self, false)
        } else {
            match self.state {
                State::FinWait1 => (self.half_closed(now), false),
                State::Closing => (self.waiting_out(now), true),
                State::LastAck => (
                    TcbView { state: State::Closed, retransmit_at: 0, ..self },
                    true,
                ),
                _ => (self, false),
            }
        }
    }

    /// The part of a segment's payload that has not been delivered already.
    pub open spec fn unseen(self, segment: SegmentView) -> Seq<u8> {
        if before(segment.sequence, self.receive_next) {
            let seen = ahead(segment.sequence, self.receive_next);
            if seen >= segment.payload.len() {
                Seq::empty()
            } else {
                segment.payload.skip(seen)
            }
        } else {
            segment.payload
        }
    }

    /// Where that part starts.
    pub open spec fn unseen_at(self, segment: SegmentView) -> u32 {
        if before(segment.sequence, self.receive_next) {
            self.receive_next
        } else {
            segment.sequence
        }
    }

    /// Whether anything arriving now could still be read.
    pub open spec fn reading(self) -> bool {
        &&& !self.read_shutdown
        &&& !self.abandoned
        &&& self.state is Established || self.state is FinWait1 || self.state is FinWait2
    }

    /// Whether a segment brings the byte that is wanted next.
    pub open spec fn brings_next(self, segment: SegmentView) -> bool {
        self.unseen_at(segment) == self.receive_next && self.unseen(segment).len() > 0
    }

    /// Take a segment's data if it is what is wanted next: as much as there is
    /// room for if somebody can read it, and all of it, to nowhere, if nobody
    /// ever will. Anything further on is dropped.
    pub open spec fn data_taken(self, segment: SegmentView) -> (TcbView, bool) {
        if !self.brings_next(segment) {
            (self, false)
        } else if !self.reading() {
            (
                TcbView {
                    receive_next: self.receive_next.wrapping_add(
                        self.unseen(segment).len() as u32,
                    ),
                    ..self
                }.freeing(self.unseen(segment).len() as int),
                false,
            )
        } else {
            let n = if self.unseen(segment).len() < self.window() {
                self.unseen(segment).len() as int
            } else {
                self.window() as int
            };
            (
                TcbView {
                    received: self.received + self.unseen(segment).take(n),
                    receive_next: self.receive_next.wrapping_add(n as u32),
                    ..self
                },
                true,
            )
        }
    }

    /// Take the FIN at `at`, if every byte before it has been taken. The first
    /// flag says whether a waiter should look, the second whether an
    /// acknowledgement is owed.
    pub open spec fn fin_taken(self, at: u32, now: u64) -> (TcbView, bool, bool) {
        if self.receive_next == at {
            if self.fin_received {
                (self, false, true)
            } else {
                let over = TcbView {
                    fin_received: true,
                    receive_next: self.receive_next.wrapping_add(1),
                    ..self
                }.freeing(1);
                (
                    match self.state {
                        State::Established => TcbView { state: State::CloseWait, ..over },
                        State::FinWait1 => TcbView { state: State::Closing, ..over },
                        State::FinWait2 => over.waiting_out(now),
                        _ => over,
                    },
                    true,
                    true,
                )
            }
        } else {
            (self, false, self.fin_received && self.receive_next == at.wrapping_add(1))
        }
    }

    /// What a segment that acknowledges something does to an open connection,
    /// once its flags have been dealt with.
    pub open spec fn on_data(self, segment: SegmentView, now: u64, woke: bool) -> Step {
        let confirms = self.confirms(segment.acknowledgement);
        let a = if confirms {
            self.confirmed(segment.acknowledgement, now)
        } else {
            self
        };
        let b = a.window_updated(segment);
        let (c, closed) = b.close_advanced(now);
        let (d, delivered) = c.data_taken(segment);
        let fin_at = c.unseen_at(segment).wrapping_add(c.unseen(segment).len() as u32);
        let (e, ended, fin_owed) = if segment.has(FIN) {
            d.fin_taken(fin_at, now)
        } else {
            (d, false, false)
        };
        let owed = segment.payload.len() > 0 || fin_owed;
        let acknowledgement = if owed && !(e.state is Closed) {
            seq![e.acknowledgement()]
        } else {
            Seq::empty()
        };
        let (f, sent) = e.flushed(now);
        Step {
            tcb: f,
            sent: acknowledgement + sent,
            woke: woke || confirms || closed || delivered || ended,
        }
    }

    /// What an answer to this end's own connection request does.
    pub open spec fn on_answer(self, segment: SegmentView, now: u64) -> Step {
        let good = before(self.iss, segment.acknowledgement) && at_or_before(
            segment.acknowledgement,
            self.send_next,
        );
        if segment.has(ACK) && !good {
            if segment.has(RST) {
                self.quiet(false)
            } else {
                Step {
                    tcb: self,
                    sent: seq![self.control(RST, segment.acknowledgement, false)],
                    woke: false,
                }
            }
        } else if segment.has(RST) {
            TcbView {
                state: State::Closed,
                retransmit_at: 0,
                error: Some(Errno::ECONNREFUSED),
                ..self
            }.quiet(true)
        } else if !segment.has(SYN) {
            self.quiet(false)
        } else {
            let agreed = TcbView {
                irs: segment.sequence,
                receive_next: segment.sequence.wrapping_add(1),
                peer_mss: self.agreed_mss(segment),
                send_window: segment.window as u32,
                window_sequence: segment.sequence,
                ..self
            };
            if segment.has(ACK) {
                let open = TcbView {
                    send_unacknowledged: segment.acknowledgement,
                    window_ack: segment.acknowledgement,
                    state: State::Established,
                    retransmit_at: 0,
                    retries: 0,
                    ..agreed
                };
                let (flushed, sent) = open.flushed(now);
                Step { tcb: flushed, sent: seq![open.acknowledgement()] + sent, woke: true }
            } else {
                // Both ends opened at once.
                let both = TcbView { state: State::SynReceived, ..agreed };
                Step {
                    tcb: both.armed(now),
                    sent: seq![both.control(SYN | ACK, both.iss, true)],
                    woke: false,
                }
            }
        }
    }

    /// What an arriving segment does.
    pub open spec fn on_arrival(self, segment: SegmentView, now: u64) -> Step {
        if self.state is SynSent {
            self.on_answer(segment, now)
        } else if self.idle() {
            self.quiet(false)
        } else if !self.accepts(segment) {
            self.on_outside(segment, now)
        } else if segment.has(RST) {
            if segment.sequence != self.receive_next {
                // RFC 5961 section 3: inside the window, but not the byte that
                // is wanted next. Say where this end is and wait for a reset
                // that names it.
                Step { tcb: self, sent: seq![self.acknowledgement()], woke: false }
            } else {
                TcbView {
                    state: State::Closed,
                    retransmit_at: 0,
                    pending: Seq::empty(),
                    error: if self.error is None {
                        Some(Errno::ECONNRESET)
                    } else {
                        self.error
                    },
                    ..self
                }.quiet(true)
            }
        } else if segment.has(SYN) {
            // RFC 5961 section 4: a connection request inside an open
            // connection draws an acknowledgement rather than a reset.
            Step { tcb: self, sent: seq![self.acknowledgement()], woke: false }
        } else if !segment.has(ACK) {
            self.quiet(false)
        } else if self.state is SynReceived {
            if before(self.send_unacknowledged, segment.acknowledgement) && at_or_before(
                segment.acknowledgement,
                self.send_next,
            ) {
                TcbView {
                    state: State::Established,
                    retransmit_at: 0,
                    retries: 0,
                    ..self
                }.on_data(segment, now, true)
            } else {
                // An acknowledgement for something never sent.
                Step {
                    tcb: self,
                    sent: seq![self.control(RST, segment.acknowledgement, false)],
                    woke: false,
                }
            }
        } else {
            self.on_data(segment, now, false)
        }
    }

    // ---- timers ------------------------------------------------------------

    /// The earlier of the two timers that are running.
    pub open spec fn deadline(self) -> u64 {
        if self.expire_at != 0 && (self.retransmit_at == 0 || self.expire_at
            <= self.retransmit_at) {
            self.expire_at
        } else if self.retransmit_at != 0 {
            self.retransmit_at
        } else {
            u64::MAX
        }
    }

    /// No descriptor names this connection any more, so a wait that only the
    /// other end could finish gets a bound.
    pub open spec fn orphaned(self, now: u64) -> TcbView {
        TcbView {
            abandoned: true,
            expire_at: if self.state is FinWait2 && self.expire_at == 0 {
                (now + FIN_WAIT_2_TICKS) as u64
            } else {
                self.expire_at
            },
            ..self
        }
    }

    /// How often this state asks again.
    pub open spec fn retry_limit(self) -> u32 {
        if self.state is SynSent || self.state is SynReceived {
            SYN_RETRIES
        } else {
            MAX_RETRIES
        }
    }

    /// The state a retransmission starts from: the timeout doubled, the
    /// congestion window back at one segment.
    pub open spec fn backed_off(self, now: u64) -> TcbView {
        let rto = if self.rto * 2 < MAX_RTO {
            (self.rto * 2) as u64
        } else {
            MAX_RTO
        };
        TcbView {
            retries: (self.retries + 1) as u32,
            rto,
            retransmit_at: (now + rto) as u64,
            slow_start_threshold: if self.in_flight() / 2 < 2 * MSS {
                (2 * MSS) as u32
            } else {
                (self.in_flight() / 2) as u32
            },
            congestion_window: MSS as u32,
            ..self
        }
    }

    /// What reaching a timer does.
    pub open spec fn on_deadline(self, now: u64) -> Step {
        if self.expire_at != 0 {
            // Waiting on a clock rather than on the other end: there is
            // nothing to send, and reaching the deadline is the end of it.
            if now >= self.expire_at {
                TcbView {
                    state: State::Closed,
                    expire_at: 0,
                    retransmit_at: 0,
                    pending: Seq::empty(),
                    ..self
                }.quiet(true)
            } else {
                self.quiet(false)
            }
        } else if self.retransmit_at == 0 || now < self.retransmit_at {
            self.quiet(false)
        } else if self.retries + 1 > self.retry_limit() {
            let (gone, sent) = self.aborted();
            Step {
                tcb: TcbView {
                    retries: (self.retries + 1) as u32,
                    error: Some(Errno::ETIMEDOUT),
                    ..gone
                },
                sent,
                woke: true,
            }
        } else {
            let again = self.backed_off(now);
            if self.state is SynSent {
                Step { tcb: again, sent: seq![again.control(SYN, self.iss, true)], woke: false }
            } else if self.state is SynReceived {
                Step {
                    tcb: again,
                    sent: seq![again.control(SYN | ACK, self.iss, true)],
                    woke: false,
                }
            } else {
                // Go back to the first byte the other end has not confirmed.
                let back = TcbView {
                    send_next: self.send_unacknowledged,
                    fin_sequence: None,
                    ..again
                };
                if self.send_window == 0 && self.pending.len() > 0 {
                    // No room at the other end. One byte keeps the exchange
                    // going until a window update arrives.
                    Step {
                        tcb: TcbView { send_next: back.send_next.wrapping_add(1), ..back },
                        sent: seq![
                            back.segment(ACK, back.send_next, self.pending.take(1), false),
                        ],
                        woke: false,
                    }
                } else {
                    let (flushed, sent) = back.flushed(now);
                    Step { tcb: flushed, sent, woke: false }
                }
            }
        }
    }
}

/// One more outgoing segment is one more thing said.
proof fn views_push(segments: Seq<Outgoing>, segment: Outgoing)
    ensures
        views(segments.push(segment)) == views(segments).push(segment@),
{
    assert(views(segments.push(segment)) =~= views(segments).push(segment@));
}

impl TcbView {
    /// The segment the next `n` bytes of pending data go in.
    pub open spec fn chunk(self, n: int) -> OutgoingView {
        self.segment(
            if self.in_flight() + n == self.pending.len() {
                ACK | PSH
            } else {
                ACK
            },
            self.send_next,
            self.pending.subrange(self.in_flight(), self.in_flight() + n),
            false,
        )
    }

    /// The connection after those bytes have been sent.
    pub open spec fn past_chunk(self, n: int, now: u64) -> TcbView {
        TcbView { send_next: self.send_next.wrapping_add(n as u32), ..self }.armed(now)
    }

    /// Sending what the window allows starts with the next chunk, if there is
    /// one.
    proof fn sent_up_to_chunk(self, limit: u32, now: u64)
        requires
            self.pending.len() <= SEND_BUFFER,
            self.next_chunk(limit) > 0,
        ensures
            ({
                let n = self.next_chunk(limit);
                let later = self.past_chunk(n, now);
                &&& self.sent_up_to(limit, now).0 == later.sent_up_to(limit, now).0
                &&& self.sent_up_to(limit, now).1 == seq![self.chunk(n)] + later.sent_up_to(
                    limit,
                    now,
                ).1
                &&& later.in_flight() == self.in_flight() + n
            }),
    {
        reveal_with_fuel(TcbView::sent_up_to, 1);
    }

    /// It ends with the FIN, or with nothing.
    proof fn sent_up_to_end(self, limit: u32, now: u64)
        requires
            self.pending.len() <= SEND_BUFFER,
            self.next_chunk(limit) <= 0,
        ensures
            self.pending.len() > self.in_flight() || !self.fin_queued || self.fin_sequence is Some
                ==> self.sent_up_to(limit, now) == (self, Seq::<OutgoingView>::empty()),
            self.pending.len() <= self.in_flight() && self.fin_queued && self.fin_sequence is None
                ==> self.sent_up_to(limit, now) == (
                TcbView {
                    fin_sequence: Some(self.send_next),
                    send_next: self.send_next.wrapping_add(1),
                    ..self
                }.armed(now),
                seq![self.control(FIN | ACK, self.send_next, false)],
            ),
    {
        reveal_with_fuel(TcbView::sent_up_to, 1);
    }
}

impl Tcb {
    pub fn new() -> (tcb: Tcb)
        ensures
            tcb@ == TcbView::fresh(),
            tcb@.valid(),
    {
        let tcb = Tcb {
            state: State::Closed,
            local: Endpoint::unspecified(),
            remote: Endpoint::unspecified(),
            bound: false,
            iss: 0,
            send_unacknowledged: 0,
            send_next: 0,
            send_window: MSS as u32,
            window_sequence: 0,
            window_ack: 0,
            irs: 0,
            receive_next: 0,
            pending: Vec::new(),
            received: Vec::new(),
            held_back: 0,
            fin_queued: false,
            fin_sequence: None,
            fin_acknowledged: false,
            fin_received: false,
            read_shutdown: false,
            abandoned: false,
            error: None,
            peer_mss: MSS,
            retransmit_at: 0,
            rto: INITIAL_RTO,
            retries: 0,
            expire_at: 0,
            congestion_window: MSS as u32,
            slow_start_threshold: 0x1_0000,
            backlog: 1,
            children: Vec::new(),
        };
        assert(tcb@ =~= TcbView::fresh());
        tcb
    }

    pub fn effective_mss(&self) -> (mss: usize)
        requires
            self@.valid(),
        ensures
            mss == self@.peer_mss,
    {
        if self.peer_mss < MSS {
            self.peer_mss
        } else {
            MSS
        }
    }

    /// How much more this end is prepared to receive.
    pub fn advertised_window(&self) -> (window: u16)
        ensures
            window == self@.window(),
    {
        if self.received.len() < RECEIVE_WINDOW {
            let free: usize = RECEIVE_WINDOW - self.received.len();
            if self.held_back < free {
                return (free - self.held_back) as u16;
            }
        }
        0
    }

    /// Take note of room freed in the receive buffer.
    fn free_room(&mut self, freed: usize)
        requires
            old(self)@.valid(),
            freed <= 0x1_0000,
        ensures
            final(self)@ == old(self)@.freeing(freed as int),
            final(self)@.valid(),
    {
        let back: usize = self.held_back + freed;
        let free: usize = RECEIVE_WINDOW - self.received.len();
        self.held_back = if back >= self.effective_mss() {
            0
        } else if back > free {
            free
        } else {
            back
        };
    }

    fn send_segment(
        &self,
        flags: u8,
        sequence: u32,
        payload: Vec<u8>,
        with_mss: bool,
        out: &mut Vec<Outgoing>,
    )
        ensures
            views(final(out)@) == views(old(out)@).push(
                self@.segment(flags, sequence, payload@, with_mss),
            ),
    {
        let segment = Outgoing {
            source: self.local,
            destination: self.remote,
            sequence,
            acknowledgement: if flags & ACK != 0 {
                self.receive_next
            } else {
                0
            },
            flags,
            window: self.advertised_window(),
            mss: if with_mss {
                Some(MSS as u16)
            } else {
                None
            },
            payload,
        };
        proof {
            views_push(out@, segment);
        }
        out.push(segment);
    }

    fn send_control(&self, flags: u8, sequence: u32, with_mss: bool, out: &mut Vec<Outgoing>)
        ensures
            views(final(out)@) == views(old(out)@) + seq![
                self@.control(flags, sequence, with_mss),
            ],
    {
        let nothing: Vec<u8> = Vec::new();
        assert(nothing@ =~= Seq::<u8>::empty());
        self.send_segment(flags, sequence, nothing, with_mss, out);
        assert(views(out@) =~= views(old(out)@) + seq![self@.control(flags, sequence, with_mss)]);
    }

    fn acknowledge(&self, out: &mut Vec<Outgoing>)
        ensures
            views(final(out)@) == views(old(out)@) + seq![self@.acknowledgement()],
    {
        self.send_control(ACK, self.send_next, false, out);
    }

    fn arm_retransmit(&mut self, now: u64)
        requires
            old(self)@.valid(),
            now <= LAST_TICK,
        ensures
            final(self)@ == old(self)@.armed(now),
    {
        if self.retransmit_at == 0 {
            self.retransmit_at = now + self.rto;
        }
        assert(self@ =~= old(self)@.armed(now));
    }

    /// Answer a connection request.
    pub fn send_syn_ack(&mut self, now: u64, out: &mut Vec<Outgoing>)
        requires
            old(self)@.valid(),
            !old(self)@.idle(),
            now <= LAST_TICK,
        ensures
            final(self)@ == old(self)@.armed(now),
            final(self)@.valid(),
            views(final(out)@) == views(old(out)@) + seq![
                old(self)@.control(SYN | ACK, old(self)@.iss, true),
            ],
    {
        self.send_control(SYN | ACK, self.iss, true, out);
        self.arm_retransmit(now);
    }

    // ---- opening -----------------------------------------------------------

    /// Start an active open: send the first connection request.
    pub fn open(&mut self, now: u64, monotonic_ns: u64, secret: u64, out: &mut Vec<Outgoing>)
        requires
            old(self)@.valid(),
            now <= LAST_TICK,
        ensures
            final(self)@ == old(self)@.opened(now, monotonic_ns, secret).0,
            final(self)@.valid(),
            views(final(out)@) == views(old(out)@) + old(self)@.opened(now, monotonic_ns, secret).1,
    {
        let iss: u32 = initial_sequence(self.local, self.remote, monotonic_ns, secret);
        self.iss = iss;
        self.send_unacknowledged = iss;
        self.send_next = iss;
        self.state = State::SynSent;
        self.congestion_window = MSS as u32;
        self.rto = INITIAL_RTO;
        self.retries = 0;
        self.held_back = 0;
        self.send_control(SYN, self.iss, true, out);
        self.send_next = iss.wrapping_add(1);
        self.arm_retransmit(now);
        assert(self@ =~= old(self)@.opened(now, monotonic_ns, secret).0);
        assert(views(out@) =~= views(old(out)@) + old(self)@.opened(now, monotonic_ns, secret).1);
    }

    /// The segment size a peer that named `mss` gets.
    fn clamp_mss(mss: u16) -> (clamped: usize)
        ensures
            MIN_MSS <= clamped <= MSS,
            mss < MIN_MSS ==> clamped == MIN_MSS,
            mss > MSS ==> clamped == MSS,
            MIN_MSS <= mss <= MSS ==> clamped == mss,
    {
        let wanted: usize = mss as usize;
        if wanted < MIN_MSS {
            MIN_MSS
        } else if wanted > MSS {
            MSS
        } else {
            wanted
        }
    }

    /// Take the state a connection request establishes. The answering segment
    /// is sent separately, once the socket is in the table.
    pub fn accept_open(&mut self, segment: &Segment, monotonic_ns: u64, secret: u64)
        requires
            old(self)@.valid(),
            old(self)@.retries <= MAX_RETRIES,
        ensures
            final(self)@ == old(self)@.accepted(segment@, monotonic_ns, secret),
            final(self)@.valid(),
    {
        self.irs = segment.sequence;
        self.receive_next = segment.sequence.wrapping_add(1);
        if let Some(mss) = segment.mss {
            self.peer_mss = Self::clamp_mss(mss);
        }
        self.send_window = segment.window as u32;
        self.window_sequence = segment.sequence;
        self.iss = initial_sequence(self.local, self.remote, monotonic_ns, secret);
        self.send_unacknowledged = self.iss;
        self.send_next = self.iss.wrapping_add(1);
        self.window_ack = self.iss;
        self.state = State::SynReceived;
        self.congestion_window = MSS as u32;
        self.rto = INITIAL_RTO;
        assert(self@ =~= old(self)@.accepted(segment@, monotonic_ns, secret));
    }

    // ---- output ------------------------------------------------------------

    /// Send the next `n` bytes of pending data.
    fn send_chunk(&mut self, n: usize, now: u64, out: &mut Vec<Outgoing>)
        requires
            old(self)@.valid(),
            old(self)@.state.sending(),
            now <= LAST_TICK,
            old(self)@.in_flight() + n <= old(self)@.pending.len(),
        ensures
            final(self)@ == old(self)@.past_chunk(n as int, now),
            views(final(out)@) == views(old(out)@) + seq![old(self)@.chunk(n as int)],
    {
        let from: usize = self.send_next.wrapping_sub(self.send_unacknowledged) as usize;
        let chunk: Vec<u8> = copy_range(self.pending.as_slice(), from, from + n);
        let sequence: u32 = self.send_next;
        let flags: u8 = if from + n == self.pending.len() {
            ACK | PSH
        } else {
            ACK
        };
        self.send_segment(flags, sequence, chunk, false, out);
        assert(views(out@) =~= views(old(out)@) + seq![old(self)@.chunk(n as int)]);
        self.send_next = sequence.wrapping_add(n as u32);
        self.arm_retransmit(now);
    }

    /// Send the FIN that follows everything queued.
    fn send_fin(&mut self, now: u64, out: &mut Vec<Outgoing>)
        requires
            old(self)@.valid(),
            now <= LAST_TICK,
        ensures
            final(self)@ == (TcbView {
                fin_sequence: Some(old(self)@.send_next),
                send_next: old(self)@.send_next.wrapping_add(1),
                ..old(self)@
            }.armed(now)),
            views(final(out)@) == views(old(out)@) + seq![
                old(self)@.control(FIN | ACK, old(self)@.send_next, false),
            ],
    {
        let sequence: u32 = self.send_next;
        self.send_control(FIN | ACK, sequence, false, out);
        self.fin_sequence = Some(sequence);
        self.send_next = sequence.wrapping_add(1);
        self.arm_retransmit(now);
    }

    /// Send the next chunk of pending data, or the FIN behind it, if the
    /// windows allow one. True when there may be more to send.
    fn output_step(&mut self, limit: u32, now: u64, out: &mut Vec<Outgoing>) -> (more: bool)
        requires
            old(self)@.valid(),
            old(self)@.state.sending(),
            now <= LAST_TICK,
        ensures
            final(self)@.valid(),
            final(self)@.state == old(self)@.state,
            !more ==> {
                &&& final(self)@ == old(self)@.sent_up_to(limit, now).0
                &&& views(final(out)@) == views(old(out)@) + old(self)@.sent_up_to(limit, now).1
            },
            more ==> {
                &&& final(self)@.pending == old(self)@.pending
                &&& old(self)@.in_flight() < final(self)@.in_flight()
                    <= final(self)@.pending.len()
                &&& final(self)@.sent_up_to(limit, now).0 == old(self)@.sent_up_to(limit, now).0
                &&& views(final(out)@) + final(self)@.sent_up_to(limit, now).1 == views(old(out)@)
                    + old(self)@.sent_up_to(limit, now).1
            },
    {
        let ghost current = self@;
        let offset: u32 = self.send_next.wrapping_sub(self.send_unacknowledged);
        assert(offset == self@.in_flight());
        if (offset as usize) < self.pending.len() {
            let available: usize = self.pending.len() - offset as usize;
            if !seq_lt(self.send_next, limit) {
                proof {
                    current.sent_up_to_end(limit, now);
                    assert(views(out@) + Seq::<OutgoingView>::empty() =~= views(out@));
                }
                return false;
            }
            let room: u32 = limit.wrapping_sub(self.send_next);
            let mut n: usize = available;
            if self.effective_mss() < n {
                n = self.effective_mss();
            }
            if (room as usize) < n {
                n = room as usize;
            }
            assert(n == current.next_chunk(limit));
            self.send_chunk(n, now, out);
            proof {
                current.sent_up_to_chunk(limit, now);
                let later = self@.sent_up_to(limit, now).1;
                assert(views(out@) + later =~= views(old(out)@) + (seq![current.chunk(n as int)]
                    + later));
            }
            true
        } else if self.fin_queued && self.fin_sequence.is_none() {
            self.send_fin(now, out);
            proof {
                current.sent_up_to_end(limit, now);
            }
            false
        } else {
            proof {
                current.sent_up_to_end(limit, now);
                assert(views(out@) + Seq::<OutgoingView>::empty() =~= views(out@));
            }
            false
        }
    }

    /// Send whatever the windows allow.
    pub fn output(&mut self, now: u64, out: &mut Vec<Outgoing>)
        requires
            old(self)@.valid(),
            now <= LAST_TICK,
        ensures
            final(self)@ == old(self)@.flushed(now).0,
            final(self)@.valid(),
            views(final(out)@) == views(old(out)@) + old(self)@.flushed(now).1,
    {
        if !self.state.can_output() {
            assert(views(out@) =~= views(old(out)@) + Seq::<OutgoingView>::empty());
            return;
        }
        let usable: u32 = if self.send_window < self.congestion_window {
            self.send_window
        } else {
            self.congestion_window
        };
        let limit: u32 = self.send_unacknowledged.wrapping_add(usable);
        let ghost whole = self@.sent_up_to(limit, now);
        let ghost said = views(out@);
        let mut more: bool = true;
        while more
            invariant
                self@.valid(),
                self@.state.sending(),
                now <= LAST_TICK,
                more ==> self@.sent_up_to(limit, now).0 == whole.0,
                more ==> views(out@) + self@.sent_up_to(limit, now).1 == said + whole.1,
                !more ==> self@ == whole.0,
                !more ==> views(out@) == said + whole.1,
            decreases (if more { 1int } else { 0 }), self@.pending.len() - self@.in_flight(),
        {
            more = self.output_step(limit, now, out);
        }
    }

    // ---- user operations ---------------------------------------------------

    /// Queue as much of `buf` as there is room for, and send what the windows
    /// allow. What is refused is refused for the connection's state, or
    /// because the queue is full.
    pub fn write(&mut self, buf: &[u8], now: u64, out: &mut Vec<Outgoing>) -> (result: Result<
        usize,
        Errno,
    >)
        requires
            old(self)@.valid(),
            now <= LAST_TICK,
        ensures
            final(self)@.valid(),
            final(self)@ == old(self)@.written(buf@, now).0,
            views(final(out)@) == views(old(out)@) + old(self)@.written(buf@, now).1,
            result == old(self)@.written(buf@, now).2,
    {
        proof {
            assert(views(out@) =~= views(out@) + Seq::<OutgoingView>::empty());
        }
        match self.state {
            State::Established | State::CloseWait => {},
            State::SynSent | State::SynReceived => {
                return Err(Errno::EAGAIN);
            },
            State::Closed => {
                let reason = self.error.take();
                assert(self@ =~= TcbView { error: None, ..old(self)@ });
                return match reason {
                    Some(err) => Err(err),
                    None => Err(Errno::ENOTCONN),
                };
            },
            State::Listen => {
                return Err(Errno::ENOTCONN);
            },
            _ => {
                return Err(Errno::EPIPE);
            },
        }
        if self.fin_queued {
            return Err(Errno::EPIPE);
        }
        let room: usize = SEND_BUFFER - self.pending.len();
        if room == 0 {
            return Err(Errno::EAGAIN);
        }
        let n: usize = if room < buf.len() {
            room
        } else {
            buf.len()
        };
        let taken = slice_subrange(buf, 0, n);
        assert(taken@ =~= buf@.take(n as int));
        extend(&mut self.pending, taken);
        assert(self@ =~= TcbView { pending: old(self)@.pending + buf@.take(n as int), ..old(self)@ });
        self.output(now, out);
        Ok(n)
    }

    /// Copy the first `n` received bytes into a buffer.
    fn copy_out(&self, buf: &mut [u8], n: usize)
        requires
            n <= old(buf)@.len(),
            n <= self@.received.len(),
        ensures
            final(buf)@.len() == old(buf)@.len(),
            final(buf)@ == self@.received.take(n as int) + old(buf)@.skip(n as int),
    {
        let mut i: usize = 0;
        assert(buf@ =~= self@.received.take(0) + old(buf)@.skip(0));
        while i < n
            invariant
                i <= n <= buf@.len(),
                n <= self@.received.len(),
                buf@.len() == old(buf)@.len(),
                buf@ == self@.received.take(i as int) + old(buf)@.skip(i as int),
            decreases n - i,
        {
            buf[i] = self.received[i];
            i += 1;
            assert(buf@ =~= self@.received.take(i as int) + old(buf)@.skip(i as int));
        }
    }

    /// Copy out what has been received, and say so if taking it has opened a
    /// window that was shut. With nothing to read, an end is reported as no
    /// bytes and anything else as the reason.
    pub fn read(&mut self, buf: &mut [u8], peek: bool, out: &mut Vec<Outgoing>) -> (result: Result<
        usize,
        Errno,
    >)
        requires
            old(self)@.valid(),
        ensures
            final(self)@.valid(),
            final(self)@ == old(self)@.read_out(old(buf)@.len() as int, peek).0,
            views(final(out)@) == views(old(out)@) + old(self)@.read_out(
                old(buf)@.len() as int,
                peek,
            ).1,
            result == old(self)@.read_out(old(buf)@.len() as int, peek).2,
            final(buf)@.len() == old(buf)@.len(),
            final(buf)@ == old(self)@.readable(old(buf)@.len() as int) + old(buf)@.skip(
                old(self)@.readable(old(buf)@.len() as int).len() as int,
            ),
    {
        proof {
            assert(views(out@) =~= views(out@) + Seq::<OutgoingView>::empty());
        }
        if self.received.len() > 0 {
            let before: u16 = self.advertised_window();
            let n: usize = if buf.len() < self.received.len() {
                buf.len()
            } else {
                self.received.len()
            };
            self.copy_out(buf, n);
            assert(self@.received.take(n as int) =~= self@.readable(buf@.len() as int));
            if !peek {
                drop_front(&mut self.received, n);
                assert(self@ =~= TcbView {
                    received: old(self)@.received.skip(n as int),
                    ..old(self)@
                });
                self.free_room(n);
                // A window that was closed and is now open again has to be
                // advertised, or the other end waits for a segment that only
                // this acknowledgement can carry.
                let after: u16 = self.advertised_window();
                let mss: usize = self.effective_mss();
                if (before as usize) < mss && after as usize >= mss {
                    if self.state.is_synchronised() {
                        self.acknowledge(out);
                    }
                }
            }
            return Ok(n);
        }
        assert(buf@ =~= self@.readable(buf@.len() as int) + old(buf)@.skip(0));
        if buf.len() == 0 {
            return Ok(0);
        }
        if self.fin_received || self.read_shutdown {
            return Ok(0);
        }
        match self.state {
            State::Closed => {
                let reason = self.error.take();
                assert(self@ =~= TcbView { error: None, ..old(self)@ });
                match reason {
                    Some(err) => Err(err),
                    None => Ok(0),
                }
            },
            State::Listen => Err(Errno::ENOTCONN),
            _ => Err(Errno::EAGAIN),
        }
    }

    /// Stop writing: a FIN goes out behind whatever is still queued.
    pub fn shutdown_write(&mut self, now: u64, out: &mut Vec<Outgoing>)
        requires
            old(self)@.valid(),
            now <= LAST_TICK,
        ensures
            final(self)@ == old(self)@.write_shut(now).0,
            final(self)@.valid(),
            views(final(out)@) == views(old(out)@) + old(self)@.write_shut(now).1,
    {
        proof {
            assert(views(out@) =~= views(out@) + Seq::<OutgoingView>::empty());
        }
        if self.fin_queued {
            return;
        }
        match self.state {
            State::Established | State::SynReceived => {
                self.fin_queued = true;
                self.state = State::FinWait1;
            },
            State::CloseWait => {
                self.fin_queued = true;
                self.state = State::LastAck;
            },
            State::SynSent | State::Listen | State::Closed => {
                self.state = State::Closed;
                self.retransmit_at = 0;
                return;
            },
            _ => {
                return;
            },
        }
        self.output(now, out);
    }

    /// Tear the connection down now and tell the other end so.
    pub fn abort(&mut self, out: &mut Vec<Outgoing>)
        requires
            old(self)@.valid(),
        ensures
            final(self)@ == old(self)@.aborted().0,
            final(self)@.valid(),
            views(final(out)@) == views(old(out)@) + old(self)@.aborted().1,
    {
        proof {
            assert(views(out@) =~= views(out@) + Seq::<OutgoingView>::empty());
        }
        if self.state.is_synchronised() || self.state == State::SynReceived {
            self.send_control(RST | ACK, self.send_next, false, out);
        }
        self.state = State::Closed;
        self.retransmit_at = 0;
        self.pending.clear();
        self.fin_queued = false;
        assert(self@ =~= old(self)@.aborted().0);
    }
}

impl Tcb {
    // ---- input -------------------------------------------------------------

    /// The first test of RFC 793 section 3.9: does this segment fall anywhere in
    /// the window this end is waiting for? A segment that does not belongs to
    /// some other conversation, or to nobody at all, and nothing in it may be
    /// acted on -- not the flags, not the acknowledgement, not the data.
    pub fn acceptable(&self, segment: &Segment) -> (r: bool)
        requires
            segment@.payload.len() <= ip::MAX_DATAGRAM,
        ensures
            r == self@.accepts(segment@),
    {
        let window: u32 = self.advertised_window() as u32;
        let length: u32 = segment.length();
        let first: u32 = segment.sequence;
        let right: u32 = self.receive_next.wrapping_add(window);
        if length == 0 {
            if window == 0 {
                return first == self.receive_next;
            }
            return seq_le(self.receive_next, first) && seq_lt(first, right);
        }
        if window == 0 {
            return false;
        }
        let last: u32 = first.wrapping_add(length - 1);
        (seq_le(self.receive_next, first) && seq_lt(first, right)) || (seq_le(
            self.receive_next,
            last,
        ) && seq_lt(last, right))
    }

    /// What to do with a segment that fell outside the window. Nothing in it
    /// is believed; the answer says where this end actually is, which is what
    /// a peer that is genuinely out of step needs and what someone guessing
    /// at the connection cannot see.
    fn on_unacceptable(&mut self, segment: &Segment, now: u64, out: &mut Vec<Outgoing>) -> (woke:
        bool)
        requires
            old(self)@.valid(),
            !old(self)@.idle(),
            now <= LAST_TICK,
        ensures
            final(self)@ == old(self)@.on_outside(segment@, now).tcb,
            final(self)@.valid(),
            views(final(out)@) == views(old(out)@) + old(self)@.on_outside(segment@, now).sent,
            woke == old(self)@.on_outside(segment@, now).woke,
    {
        if segment.flags & RST != 0 {
            // RFC 5961 section 3: a reset this far out is not answered at
            // all. An answer would tell whoever guessed how close they came.
            assert(views(out@) =~= views(out@) + Seq::<OutgoingView>::empty());
            return false;
        }
        if self.state == State::SynReceived && segment.flags & SYN != 0 && segment.flags & ACK
            == 0 && segment.sequence == self.irs {
            // The connection request again, because our answer was lost. It
            // sits one before what is wanted next, so the window test turns
            // it away, and it is still the handshake carrying on.
            self.send_syn_ack(now, out);
            return false;
        }
        self.acknowledge(out);
        false
    }

    /// How much the congestion window grows to on an acknowledgement.
    fn grow_window(&self) -> (window: u32)
        ensures
            window == self@.grown_window(),
    {
        let by: u32 = if self.congestion_window < self.slow_start_threshold {
            MSS as u32
        } else if self.congestion_window == 0 {
            2131600
        } else {
            let increment: u32 = 2131600 / self.congestion_window;
            proof {
                let w = self.congestion_window as int;
                assert(MSS * MSS == 2131600);
                if w > 2131600 {
                    vstd::arithmetic::div_mod::lemma_basic_div(2131600, w);
                } else {
                    vstd::arithmetic::div_mod::lemma_div_non_zero(2131600, w);
                }
            }
            if increment < 1 {
                1
            } else {
                increment
            }
        };
        self.congestion_window.saturating_add(by)
    }

    /// Take an acknowledgement of something outstanding. True when it was one.
    fn take_acknowledgement(&mut self, acknowledgement: u32, now: u64) -> (confirms: bool)
        requires
            old(self)@.valid(),
            !old(self)@.idle(),
            now <= LAST_TICK,
        ensures
            confirms == old(self)@.confirms(acknowledgement),
            final(self)@ == if confirms {
                old(self)@.confirmed(acknowledgement, now)
            } else {
                old(self)@
            },
            final(self)@.valid(),
    {
        if !(seq_gt(acknowledgement, self.send_unacknowledged) && seq_le(
            acknowledgement,
            self.send_next,
        )) {
            return false;
        }
        let mut acked: usize = acknowledgement.wrapping_sub(self.send_unacknowledged) as usize;
        if let Some(fin_sequence) = self.fin_sequence {
            if seq_lt(fin_sequence, acknowledgement) && !self.fin_acknowledged {
                self.fin_acknowledged = true;
                acked = acked - 1;
            }
        }
        let drop_count: usize = if acked < self.pending.len() {
            acked
        } else {
            self.pending.len()
        };
        drop_front(&mut self.pending, drop_count);
        self.send_unacknowledged = acknowledgement;
        self.retries = 0;
        self.rto = INITIAL_RTO;
        self.congestion_window = self.grow_window();
        self.retransmit_at =
        if self.send_unacknowledged == self.send_next {
            0
        } else {
            now + self.rto
        };
        true
    }

    /// The send window, taken from the most recent segment that carries a
    /// newer view of it than the one already held.
    fn take_window(&mut self, segment: &Segment)
        requires
            old(self)@.valid(),
        ensures
            final(self)@ == old(self)@.window_updated(segment@),
            final(self)@.valid(),
    {
        if seq_lt(self.window_sequence, segment.sequence) || (self.window_sequence
            == segment.sequence && seq_le(self.window_ack, segment.acknowledgement)) {
            self.send_window = segment.window as u32;
            self.window_sequence = segment.sequence;
            self.window_ack = segment.acknowledgement;
        }
    }

    fn enter_time_wait(&mut self, now: u64)
        requires
            old(self)@.valid(),
            !old(self)@.idle(),
            now <= LAST_TICK,
        ensures
            final(self)@ == old(self)@.waiting_out(now),
            final(self)@.valid(),
    {
        self.state = State::TimeWait;
        self.expire_at = now + TIME_WAIT_TICKS;
        self.retransmit_at = 0;
        self.pending.clear();
        self.read_shutdown = true;
        if self.abandoned {
            // Both ends have finished and no descriptor is left, so what
            // arrived and was never read is held for nobody.
            self.received.clear();
        }
    }

    fn enter_fin_wait_2(&mut self, now: u64)
        requires
            old(self)@.valid(),
            !old(self)@.idle(),
            now <= LAST_TICK,
        ensures
            final(self)@ == old(self)@.half_closed(now),
            final(self)@.valid(),
    {
        self.state = State::FinWait2;
        if self.abandoned {
            self.expire_at = now + FIN_WAIT_2_TICKS;
        }
    }

    /// Our own FIN being acknowledged moves the close along.
    fn advance_close(&mut self, now: u64) -> (woke: bool)
        requires
            old(self)@.valid(),
            !old(self)@.idle(),
            now <= LAST_TICK,
        ensures
            (final(self)@, woke) == old(self)@.close_advanced(now),
            final(self)@.valid(),
    {
        if !self.fin_acknowledged {
            return false;
        }
        match self.state {
            State::FinWait1 => {
                self.enter_fin_wait_2(now);
                false
            },
            State::Closing => {
                self.enter_time_wait(now);
                true
            },
            State::LastAck => {
                self.state = State::Closed;
                self.retransmit_at = 0;
                true
            },
            _ => false,
        }
    }

    /// Whether anything arriving now could still be read. A connection with
    /// no descriptor has nobody to read it, one whose read side is shut has
    /// been told there is nothing more, and in any other state the other end
    /// has already finished sending.
    pub fn can_receive(&self) -> (r: bool)
        ensures
            r == self@.reading(),
    {
        !self.read_shutdown && !self.abandoned && matches!(
            self.state,
            State::Established | State::FinWait1 | State::FinWait2
        )
    }

    /// Take a segment's data. Anything already delivered is trimmed off the
    /// front; anything beyond what is wanted next is dropped, because there is
    /// no queue to hold it in. The second result is where a FIN behind this
    /// data sits.
    fn take_data(&mut self, segment: &Segment) -> (result: (bool, u32))
        requires
            old(self)@.valid(),
            segment@.payload.len() <= ip::MAX_DATAGRAM,
        ensures
            (final(self)@, result.0) == old(self)@.data_taken(segment@),
            result.1 == old(self)@.unseen_at(segment@).wrapping_add(
                old(self)@.unseen(segment@).len() as u32,
            ),
            final(self)@.valid(),
    {
        let mut start: usize = 0;
        let mut sequence: u32 = segment.sequence;
        if seq_lt(sequence, self.receive_next) {
            let skip: usize = self.receive_next.wrapping_sub(sequence) as usize;
            start =
            if skip >= segment.payload.len() {
                segment.payload.len()
            } else {
                skip
            };
            sequence = self.receive_next;
        }
        let payload = slice_subrange(segment.payload, start, segment.payload.len());
        assert(payload@ =~= self@.unseen(segment@));
        let fin_sequence: u32 = sequence.wrapping_add(payload.len() as u32);
        let mut delivered: bool = false;
        if sequence == self.receive_next && payload.len() > 0 {
            if !self.can_receive() {
                // Nobody will ever read this. Taking it off the sequence
                // space anyway is what keeps the other end from sending it
                // again forever.
                self.receive_next = self.receive_next.wrapping_add(payload.len() as u32);
                self.free_room(payload.len());
            } else {
                let free: usize = self.advertised_window() as usize;
                let n: usize = if payload.len() < free {
                    payload.len()
                } else {
                    free
                };
                let taken = slice_subrange(payload, 0, n);
                assert(taken@ =~= payload@.take(n as int));
                extend(&mut self.received, taken);
                self.receive_next = self.receive_next.wrapping_add(n as u32);
                delivered = true;
            }
        }
        (delivered, fin_sequence)
    }

    /// Take the FIN that sits at `at`, once every byte before it has been
    /// taken. The results are whether a waiter should look and whether an
    /// acknowledgement is owed.
    fn take_fin(&mut self, at: u32, now: u64) -> (result: (bool, bool))
        requires
            old(self)@.valid(),
            now <= LAST_TICK,
        ensures
            (final(self)@, result.0, result.1) == old(self)@.fin_taken(at, now),
            final(self)@.valid(),
    {
        if self.receive_next == at {
            if self.fin_received {
                return (false, true);
            }
            self.fin_received = true;
            self.receive_next = self.receive_next.wrapping_add(1);
            self.free_room(1);
            match self.state {
                State::Established => {
                    self.state = State::CloseWait;
                },
                State::FinWait1 => {
                    self.state = State::Closing;
                },
                State::FinWait2 => {
                    self.enter_time_wait(now);
                },
                _ => {},
            }
            (true, true)
        } else {
            (false, self.fin_received && self.receive_next == at.wrapping_add(1))
        }
    }

    /// The part of a segment that is not about opening or tearing down: what
    /// it acknowledges, the window it announces, its data, and its FIN.
    fn on_established(
        &mut self,
        segment: &Segment,
        now: u64,
        already_woke: bool,
        out: &mut Vec<Outgoing>,
    ) -> (woke: bool)
        requires
            old(self)@.valid(),
            !old(self)@.idle(),
            segment@.payload.len() <= ip::MAX_DATAGRAM,
            now <= LAST_TICK,
        ensures
            final(self)@ == old(self)@.on_data(segment@, now, already_woke).tcb,
            final(self)@.valid(),
            views(final(out)@) == views(old(out)@) + old(self)@.on_data(
                segment@,
                now,
                already_woke,
            ).sent,
            woke == old(self)@.on_data(segment@, now, already_woke).woke,
    {
        let confirms: bool = self.take_acknowledgement(segment.acknowledgement, now);
        self.take_window(segment);
        let closed: bool = self.advance_close(now);
        let (delivered, fin_at) = self.take_data(segment);
        let mut need_ack: bool = segment.payload.len() > 0;
        let mut ended: bool = false;
        // The FIN sits one past the segment's data, and is only taken once
        // every byte before it has been.
        if segment.flags & FIN != 0 {
            let (fin_ended, fin_owed) = self.take_fin(fin_at, now);
            ended = fin_ended;
            if fin_owed {
                need_ack = true;
            }
        }
        if need_ack && self.state != State::Closed {
            self.acknowledge(out);
        }
        self.output(now, out);
        proof {
            let step = old(self)@.on_data(segment@, now, already_woke);
            assert(views(out@) =~= views(old(out)@) + step.sent);
        }
        already_woke || confirms || closed || delivered || ended
    }

    /// An answer to this end's own connection request.
    #[verifier::spinoff_prover]
    #[verifier::rlimit(60)]
    fn on_syn_sent(&mut self, segment: &Segment, now: u64, out: &mut Vec<Outgoing>) -> (woke: bool)
        requires
            old(self)@.valid(),
            old(self)@.state is SynSent,
            now <= LAST_TICK,
        ensures
            final(self)@ == old(self)@.on_answer(segment@, now).tcb,
            final(self)@.valid(),
            views(final(out)@) == views(old(out)@) + old(self)@.on_answer(segment@, now).sent,
            woke == old(self)@.on_answer(segment@, now).woke,
    {
        proof {
            assert(views(out@) =~= views(out@) + Seq::<OutgoingView>::empty());
        }
        if segment.flags & ACK != 0 && !(seq_lt(self.iss, segment.acknowledgement) && seq_le(
            segment.acknowledgement,
            self.send_next,
        )) {
            if segment.flags & RST == 0 {
                self.send_control(RST, segment.acknowledgement, false, out);
            }
            return false;
        }
        if segment.flags & RST != 0 {
            self.state = State::Closed;
            self.retransmit_at = 0;
            self.error = Some(Errno::ECONNREFUSED);
            return true;
        }
        if segment.flags & SYN == 0 {
            return false;
        }
        self.irs = segment.sequence;
        self.receive_next = segment.sequence.wrapping_add(1);
        if let Some(mss) = segment.mss {
            self.peer_mss = Self::clamp_mss(mss);
        }
        self.send_window = segment.window as u32;
        self.window_sequence = segment.sequence;
        if segment.flags & ACK != 0 {
            self.send_unacknowledged = segment.acknowledgement;
            self.window_ack = segment.acknowledgement;
            self.state = State::Established;
            self.retransmit_at = 0;
            self.retries = 0;
            self.acknowledge(out);
            self.output(now, out);
            assert(views(out@) =~= views(old(out)@) + old(self)@.on_answer(segment@, now).sent);
            return true;
        }
        // Both ends opened at once.
        self.state = State::SynReceived;
        self.send_syn_ack(now, out);
        false
    }

    /// Take one arriving segment. True when something a waiter cares about
    /// changed.
    pub fn on_segment(&mut self, segment: &Segment, now: u64, out: &mut Vec<Outgoing>) -> (woke:
        bool)
        requires
            old(self)@.valid(),
            segment@.payload.len() <= ip::MAX_DATAGRAM,
            now <= LAST_TICK,
        ensures
            final(self)@ == old(self)@.on_arrival(segment@, now).tcb,
            final(self)@.valid(),
            views(final(out)@) == views(old(out)@) + old(self)@.on_arrival(segment@, now).sent,
            woke == old(self)@.on_arrival(segment@, now).woke,
    {
        proof {
            assert(views(out@) =~= views(out@) + Seq::<OutgoingView>::empty());
        }
        match self.state {
            State::SynSent => {
                return self.on_syn_sent(segment, now, out);
            },
            State::Closed | State::Listen => {
                return false;
            },
            _ => {},
        }
        if !self.acceptable(segment) {
            return self.on_unacceptable(segment, now, out);
        }
        if segment.flags & RST != 0 {
            if segment.sequence != self.receive_next {
                // Inside the window, but not the byte that is wanted next. Say
                // where this end is and wait for a reset that names it, which
                // leaves a blind sender one number to find rather than a whole
                // window of them.
                self.acknowledge(out);
                return false;
            }
            self.state = State::Closed;
            self.retransmit_at = 0;
            self.pending.clear();
            if self.error.is_none() {
                self.error = Some(Errno::ECONNRESET);
            }
            return true;
        }
        if segment.flags & SYN != 0 {
            // A peer that really has restarted answers this acknowledgement
            // with a reset of its own, which does carry the sequence number
            // this end named.
            self.acknowledge(out);
            return false;
        }
        if segment.flags & ACK == 0 {
            return false;
        }
        let mut woke: bool = false;
        if self.state == State::SynReceived {
            if seq_lt(self.send_unacknowledged, segment.acknowledgement) && seq_le(
                segment.acknowledgement,
                self.send_next,
            ) {
                self.state = State::Established;
                self.retransmit_at = 0;
                self.retries = 0;
                woke = true;
            } else {
                // An acknowledgement for something never sent.
                self.send_control(RST, segment.acknowledgement, false, out);
                return false;
            }
        }
        self.on_established(segment, now, woke, out)
    }

    // ---- timers ------------------------------------------------------------

    /// The last descriptor naming this connection has gone.
    pub fn abandon(&mut self, now: u64)
        requires
            old(self)@.valid(),
            now <= LAST_TICK,
        ensures
            final(self)@ == old(self)@.orphaned(now),
            final(self)@.valid(),
    {
        self.abandoned = true;
        if self.state == State::FinWait2 && self.expire_at == 0 {
            self.expire_at = now + FIN_WAIT_2_TICKS;
        }
    }

    /// The next tick at which `on_timer` has something to do, or the end of
    /// time when no timer is running.
    pub fn next_deadline(&self) -> (tick: u64)
        ensures
            tick == self@.deadline(),
    {
        let mut earliest: u64 = u64::MAX;
        if self.expire_at != 0 {
            earliest = self.expire_at;
        }
        if self.retransmit_at != 0 && self.retransmit_at < earliest {
            earliest = self.retransmit_at;
        }
        earliest
    }

    /// Send again what has not been acknowledged, or give up.
    pub fn on_timer(&mut self, now: u64, out: &mut Vec<Outgoing>) -> (woke: bool)
        requires
            old(self)@.valid(),
            now <= LAST_TICK,
        ensures
            final(self)@ == old(self)@.on_deadline(now).tcb,
            final(self)@.valid(),
            views(final(out)@) == views(old(out)@) + old(self)@.on_deadline(now).sent,
            woke == old(self)@.on_deadline(now).woke,
    {
        proof {
            assert(views(out@) =~= views(out@) + Seq::<OutgoingView>::empty());
        }
        if self.expire_at != 0 {
            if now >= self.expire_at {
                self.state = State::Closed;
                self.expire_at = 0;
                self.retransmit_at = 0;
                self.pending.clear();
                return true;
            }
            return false;
        }
        if self.retransmit_at == 0 || now < self.retransmit_at {
            return false;
        }
        self.retries += 1;
        let limit: u32 = match self.state {
            State::SynSent | State::SynReceived => SYN_RETRIES,
            _ => MAX_RETRIES,
        };
        if self.retries > limit {
            self.abandon_connection(out);
            return true;
        }
        let doubled: u64 = self.rto * 2;
        self.rto = if doubled < MAX_RTO {
            doubled
        } else {
            MAX_RTO
        };
        self.retransmit_at = now + self.rto;
        let flight: u32 = self.send_next.wrapping_sub(self.send_unacknowledged);
        let floor: u32 = 2920;
        self.slow_start_threshold = if flight / 2 < floor {
            floor
        } else {
            flight / 2
        };
        self.congestion_window = MSS as u32;
        assert(self@ =~= old(self)@.backed_off(now));
        match self.state {
            State::SynSent => {
                self.send_control(SYN, self.iss, true, out);
            },
            State::SynReceived => {
                self.send_control(SYN | ACK, self.iss, true, out);
            },
            _ => {
                // Go back to the first byte the other end has not confirmed.
                self.send_next = self.send_unacknowledged;
                self.fin_sequence = None;
                if self.send_window == 0 && self.pending.len() > 0 {
                    // No room at the other end. One byte keeps the exchange
                    // going until a window update arrives.
                    let byte: Vec<u8> = copy_range(self.pending.as_slice(), 0, 1);
                    assert(byte@ =~= self@.pending.take(1));
                    let sequence: u32 = self.send_next;
                    self.send_segment(ACK, sequence, byte, false, out);
                    self.send_next = sequence.wrapping_add(1);
                    assert(views(out@) =~= views(old(out)@) + old(self)@.on_deadline(now).sent);
                } else {
                    self.output(now, out);
                }
            },
        }
        false
    }

    /// The other end has not answered for as long as this end will ask.
    fn abandon_connection(&mut self, out: &mut Vec<Outgoing>)
        requires
            old(self)@.pending.len() <= SEND_BUFFER,
            old(self)@.received.len() + old(self)@.held_back <= RECEIVE_WINDOW,
            MIN_MSS <= old(self)@.peer_mss <= MSS,
            INITIAL_RTO <= old(self)@.rto <= MAX_RTO,
            old(self)@.retries <= MAX_RETRIES + 1,
            old(self)@.expire_at < u64::MAX,
        ensures
            final(self)@ == (TcbView {
                error: Some(Errno::ETIMEDOUT),
                ..old(self)@.aborted().0
            }),
            final(self)@.valid(),
            views(final(out)@) == views(old(out)@) + old(self)@.aborted().1,
    {
        proof {
            assert(views(out@) =~= views(out@) + Seq::<OutgoingView>::empty());
        }
        if self.state.is_synchronised() || self.state == State::SynReceived {
            self.send_control(RST | ACK, self.send_next, false, out);
        }
        self.state = State::Closed;
        self.retransmit_at = 0;
        self.pending.clear();
        self.fin_queued = false;
        self.error = Some(Errno::ETIMEDOUT);
    }
}

} // verus!
