//! UDP: ports over IPv4, and one queue of whole datagrams per socket.

use crate::bytes::{self, copy_of, extend, push_be16, put_be16, read_be16};
use crate::errno::Errno;
use crate::net::ether;
use crate::net::ip::{self, Ipv4Addr};
use crate::net::link::{source_for, Link, LinkView};
use crate::net::socket::{self, lookup_datagram, Endpoint, Protocol};
use crate::net::stack::Net;
use crate::net::tcp;
use vstd::prelude::*;
use vstd::slice::slice_subrange;

verus! {

pub const HEADER_LEN: usize = 8;

/// Datagrams a socket will hold for a reader that has not turned up. Past
/// this the oldest is dropped, which is what a datagram protocol promises.
pub const QUEUE_LIMIT: usize = 64;

pub const QUEUE_BYTES: usize = 65536;

/// One datagram waiting to be read, and where it came from.
pub struct Held {
    pub from: Endpoint,
    pub data: Vec<u8>,
}

#[verifier::ext_equal]
pub struct HeldView {
    pub from: Endpoint,
    pub data: Seq<u8>,
}

impl View for Held {
    type V = HeldView;

    open spec fn view(&self) -> HeldView {
        HeldView { from: self.from, data: self.data@ }
    }
}

pub open spec fn held_views(queue: Seq<Held>) -> Seq<HeldView> {
    Seq::new(queue.len(), |i: int| queue[i]@)
}

pub struct UdpState {
    pub local: Endpoint,
    /// Set by connect: where an address-less send goes, and the only source a
    /// receive will accept.
    pub remote: Option<Endpoint>,
    pub bound: bool,
    pub write_shutdown: bool,
    pub read_shutdown: bool,
    pub error: Option<Errno>,
    pub queue: Vec<Held>,
    pub queued_bytes: usize,
}

#[verifier::ext_equal]
pub struct UdpView {
    pub local: Endpoint,
    pub remote: Option<Endpoint>,
    pub bound: bool,
    pub write_shutdown: bool,
    pub read_shutdown: bool,
    pub error: Option<Errno>,
    pub queue: Seq<HeldView>,
    pub queued_bytes: usize,
}

impl View for UdpState {
    type V = UdpView;

    open spec fn view(&self) -> UdpView {
        UdpView {
            local: self.local,
            remote: self.remote,
            bound: self.bound,
            write_shutdown: self.write_shutdown,
            read_shutdown: self.read_shutdown,
            error: self.error,
            queue: held_views(self.queue@),
            queued_bytes: self.queued_bytes,
        }
    }
}

/// How many bytes a queue holds.
pub open spec fn total(queue: Seq<HeldView>) -> int
    decreases queue.len(),
{
    if queue.len() == 0 {
        0
    } else {
        queue[0].data.len() + total(queue.skip(1))
    }
}

/// A queue with room for one more datagram of `size` bytes: the oldest are
/// dropped until there is.
pub open spec fn made_room(queue: Seq<HeldView>, size: int) -> Seq<HeldView>
    decreases queue.len(),
{
    if queue.len() > 0 && (queue.len() >= QUEUE_LIMIT || total(queue) + size > QUEUE_BYTES) {
        made_room(queue.skip(1), size)
    } else {
        queue
    }
}

pub(crate) proof fn total_push(queue: Seq<HeldView>, item: HeldView)
    ensures
        total(queue.push(item)) == total(queue) + item.data.len(),
        total(queue) >= 0,
    decreases queue.len(),
{
    if queue.len() == 0 {
        assert(queue.push(item).skip(1) =~= Seq::empty());
        assert(total(queue.push(item).skip(1)) == 0);
    } else {
        assert(queue.push(item).skip(1) =~= queue.skip(1).push(item));
        total_push(queue.skip(1), item);
    }
}

/// What waits first is part of all that waits.
pub(crate) proof fn total_covers_the_first(queue: Seq<HeldView>)
    requires
        queue.len() > 0,
    ensures
        queue[0].data.len() <= total(queue),
{
    total_nonnegative(queue.skip(1));
}

proof fn total_nonnegative(queue: Seq<HeldView>)
    ensures
        total(queue) >= 0,
    decreases queue.len(),
{
    if queue.len() > 0 {
        total_nonnegative(queue.skip(1));
    }
}

/// What is dropped is the oldest, and only ever the oldest: what is left is
/// the end of the queue, it fits, and nothing is dropped that did not have to
/// be.
pub proof fn room_is_made_from_the_front(queue: Seq<HeldView>, size: int)
    requires
        0 <= size <= QUEUE_BYTES,
    ensures
        ({
            let left = made_room(queue, size);
            let gone = queue.len() - left.len();
            &&& 0 <= gone
            &&& left == queue.skip(gone)
            &&& left.len() < QUEUE_LIMIT
            &&& total(left) + size <= QUEUE_BYTES
            &&& gone > 0 ==> queue.skip(gone - 1).len() >= QUEUE_LIMIT || total(
                queue.skip(gone - 1),
            ) + size > QUEUE_BYTES
        }),
    decreases queue.len(),
{
    total_nonnegative(queue);
    let left = made_room(queue, size);
    if queue.len() > 0 && (queue.len() >= QUEUE_LIMIT || total(queue) + size > QUEUE_BYTES) {
        room_is_made_from_the_front(queue.skip(1), size);
        let gone = queue.len() - left.len();
        assert(queue.skip(1).skip(gone - 1) =~= queue.skip(gone));
        if gone > 1 {
            assert(queue.skip(1).skip(gone - 2) =~= queue.skip(gone - 1));
        } else {
            assert(queue.skip(0) =~= queue);
        }
    } else {
        assert(queue.skip(0) =~= queue);
    }
}

impl UdpView {
    pub open spec fn fresh() -> UdpView {
        UdpView {
            local: Endpoint::nobody(),
            remote: None,
            bound: false,
            write_shutdown: false,
            read_shutdown: false,
            error: None,
            queue: Seq::empty(),
            queued_bytes: 0,
        }
    }

    /// The count of bytes is the bytes that are there, and neither limit is
    /// passed.
    pub open spec fn valid(self) -> bool {
        &&& self.queued_bytes == total(self.queue)
        &&& self.queue.len() <= QUEUE_LIMIT
        &&& self.queued_bytes <= QUEUE_BYTES
    }

    /// One more datagram queued.
    pub open spec fn enqueued(self, from: Endpoint, data: Seq<u8>) -> UdpView {
        let queue = made_room(self.queue, data.len() as int).push(HeldView { from, data });
        UdpView { queue, queued_bytes: total(queue) as usize, ..self }
    }

    /// The oldest datagram gone from the queue.
    pub open spec fn taken(self) -> UdpView {
        let queue = self.queue.skip(1);
        UdpView { queue, queued_bytes: total(queue) as usize, ..self }
    }

    /// Nothing will be read from this socket again.
    pub open spec fn read_shut(self) -> UdpView {
        UdpView { queue: Seq::empty(), queued_bytes: 0, read_shutdown: true, ..self }
    }

    /// What a read reports, and where it came from.
    pub open spec fn read_result(self, size: int) -> Result<(usize, Endpoint), Errno> {
        if self.queue.len() == 0 {
            if self.read_shutdown {
                Ok((0, Endpoint::nobody()))
            } else {
                Err(Errno::EAGAIN)
            }
        } else {
            Ok((self.readable(size).len() as usize, self.queue[0].from))
        }
    }

    /// The bytes a read into a buffer of `size` bytes copies out: the oldest
    /// datagram, cut off at the buffer's end.
    pub open spec fn readable(self, size: int) -> Seq<u8> {
        if self.queue.len() == 0 {
            Seq::empty()
        } else if size < self.queue[0].data.len() {
            self.queue[0].data.take(size)
        } else {
            self.queue[0].data
        }
    }

    /// Where a send goes: where it is told to, or else where the socket is
    /// connected to.
    pub open spec fn destination(self, to: Option<Endpoint>) -> Option<Endpoint> {
        match to {
            Some(endpoint) => Some(endpoint),
            None => self.remote,
        }
    }

    /// What a send does to the link, and what it reports.
    pub open spec fn sent(self, l: LinkView, buf: Seq<u8>, to: Option<Endpoint>, now: u64) -> (
        LinkView,
        Result<usize, Errno>,
    ) {
        if self.write_shutdown {
            (l, Err(Errno::EPIPE))
        } else {
            match self.destination(to) {
                None => (l, Err(Errno::EDESTADDRREQ)),
                Some(destination) => if destination.port == 0 {
                    (l, Err(Errno::EINVAL))
                } else if HEADER_LEN + buf.len() + ip::HEADER_LEN > ether::MTU {
                    (l, Err(Errno::EMSGSIZE))
                } else if self.local.port == 0 {
                    (l, Err(Errno::EINVAL))
                } else {
                    let source = if self.local.address.unspecified() {
                        l.source_towards(destination.address)
                    } else {
                        Ok(self.local.address)
                    };
                    match source {
                        Err(reason) => (l, Err(reason)),
                        Ok(address) => {
                            let (after, result) = ip::payload_sent(
                                l,
                                address,
                                destination.address,
                                ip::PROTO_UDP,
                                datagram_bytes(
                                    Endpoint { address, port: self.local.port },
                                    destination,
                                    buf,
                                ),
                                now,
                            );
                            (
                                after,
                                match result {
                                    Ok(_) => Ok(buf.len() as usize),
                                    Err(reason) => Err(reason),
                                },
                            )
                        },
                    }
                },
            }
        }
    }
}

impl UdpState {
    pub fn new() -> (state: UdpState)
        ensures
            state@ == UdpView::fresh(),
            state@.valid(),
    {
        let state = UdpState {
            local: Endpoint::unspecified(),
            remote: None,
            bound: false,
            write_shutdown: false,
            read_shutdown: false,
            error: None,
            queue: Vec::new(),
            queued_bytes: 0,
        };
        assert(state@ =~= UdpView::fresh());
        state
    }

    pub fn queued_bytes(&self) -> (count: usize)
        requires
            self@.valid(),
        ensures
            count == total(self@.queue),
    {
        self.queued_bytes
    }

    /// Nothing will be read from this socket again: what is queued is thrown
    /// away, and the room it took with it.
    pub fn shutdown_read(&mut self)
        ensures
            final(self)@ == old(self)@.read_shut(),
            final(self)@.valid(),
    {
        self.queue.clear();
        self.queued_bytes = 0;
        self.read_shutdown = true;
        assert(self@.queue =~= Seq::empty());
    }

    pub fn enqueue(&mut self, from: Endpoint, data: &[u8])
        requires
            old(self)@.valid(),
            data@.len() <= QUEUE_BYTES,
        ensures
            final(self)@ == old(self)@.enqueued(from, data@),
            final(self)@.valid(),
    {
        let ghost before = self@;
        while self.queue.len() > 0 && (self.queue.len() >= QUEUE_LIMIT || self.queued_bytes
            + data.len() > QUEUE_BYTES)
            invariant
                self@.valid(),
                data@.len() <= QUEUE_BYTES,
                self@ == (UdpView { queue: self@.queue, queued_bytes: self.queued_bytes, ..before }),
                made_room(self@.queue, data@.len() as int) == made_room(
                    before.queue,
                    data@.len() as int,
                ),
            decreases self.queue@.len(),
        {
            let ghost queue = self@.queue;
            proof {
                total_nonnegative(queue.skip(1));
                assert(queue[0] == self.queue@[0]@);
            }
            let dropped = self.queue.remove(0);
            assert(held_views(self.queue@) =~= queue.skip(1));
            self.queued_bytes = self.queued_bytes - dropped.data.len();
        }
        proof {
            total_nonnegative(self@.queue);
        }
        let ghost kept = self@.queue;
        self.queued_bytes = self.queued_bytes + data.len();
        self.queue.push(Held { from, data: copy_of(data) });
        proof {
            let item = HeldView { from, data: data@ };
            assert(held_views(self.queue@) =~= kept.push(item));
            total_push(kept, item);
            room_is_made_from_the_front(before.queue, data@.len() as int);
        }
    }

    /// One whole datagram, truncated to the buffer offered. What does not fit
    /// is discarded, which is what a datagram socket does.
    pub fn receive(&mut self, buf: &mut [u8], peek: bool) -> (result: Result<
        (usize, Endpoint),
        Errno,
    >)
        requires
            old(self)@.valid(),
        ensures
            final(self)@.valid(),
            result == old(self)@.read_result(old(buf)@.len() as int),
            final(self)@ == if peek || old(self)@.queue.len() == 0 {
                old(self)@
            } else {
                old(self)@.taken()
            },
            final(buf)@ == old(self)@.readable(old(buf)@.len() as int) + old(buf)@.skip(
                old(self)@.readable(old(buf)@.len() as int).len() as int,
            ),
    {
        if self.queue.len() == 0 {
            assert(buf@ =~= Seq::<u8>::empty() + old(buf)@.skip(0));
            if self.read_shutdown {
                // Linux reports the end here rather than waiting for a
                // datagram that nobody would be able to read.
                return Ok((0, Endpoint::unspecified()));
            }
            return Err(Errno::EAGAIN);
        }
        let ghost queue = self@.queue;
        assert(queue[0] == self.queue@[0]@);
        let n: usize = if buf.len() < self.queue[0].data.len() {
            buf.len()
        } else {
            self.queue[0].data.len()
        };
        let from = self.queue[0].from;
        let mut i: usize = 0;
        assert(buf@ =~= queue[0].data.take(0) + old(buf)@.skip(0));
        while i < n
            invariant
                i <= n <= buf@.len(),
                self@ == old(self)@,
                self.queue@.len() > 0,
                queue == self@.queue,
                queue[0] == self.queue@[0]@,
                n <= queue[0].data.len(),
                buf@.len() == old(buf)@.len(),
                buf@ == queue[0].data.take(i as int) + old(buf)@.skip(i as int),
            decreases n - i,
        {
            buf[i] = self.queue[0].data[i];
            i += 1;
            assert(buf@ =~= queue[0].data.take(i as int) + old(buf)@.skip(i as int));
        }
        assert(queue[0].data.take(n as int) == self@.readable(buf@.len() as int));
        if !peek {
            proof {
                total_nonnegative(queue.skip(1));
            }
            let gone = self.queue.remove(0);
            assert(held_views(self.queue@) =~= queue.skip(1));
            self.queued_bytes = self.queued_bytes - gone.data.len();
        }
        Ok((n, from))
    }

    pub fn send(&self, link: &mut Link, buf: &[u8], to: Option<Endpoint>, now: u64) -> (result:
        Result<usize, Errno>)
        requires
            old(link)@.valid(),
            now <= tcp::LAST_TICK,
        ensures
            final(link)@.valid(),
            (final(link)@, result) == self@.sent(old(link)@, buf@, to, now),
    {
        if self.write_shutdown {
            return Err(Errno::EPIPE);
        }
        let chosen = match to {
            Some(endpoint) => Some(endpoint),
            None => self.remote,
        };
        let destination = match chosen {
            Some(destination) => destination,
            None => {
                return Err(Errno::EDESTADDRREQ);
            },
        };
        if destination.port == 0 {
            return Err(Errno::EINVAL);
        }
        if buf.len() > ether::MTU - ip::HEADER_LEN - HEADER_LEN {
            return Err(Errno::EMSGSIZE);
        }
        if self.local.port == 0 {
            return Err(Errno::EINVAL);
        }
        let source_address = if self.local.address.is_unspecified() {
            match source_for(link, destination.address) {
                Ok(address) => address,
                Err(reason) => {
                    return Err(reason);
                },
            }
        } else {
            self.local.address
        };
        let source = Endpoint::new(source_address, self.local.port);
        let datagram = build(source, destination, buf);
        match ip::send_from(
            link,
            source_address,
            destination.address,
            ip::PROTO_UDP,
            datagram.as_slice(),
            now,
        ) {
            Ok(_) => Ok(buf.len()),
            Err(reason) => Err(reason),
        }
    }
}

// ---- datagrams -----------------------------------------------------------------

/// A datagram with nothing in its checksum yet.
pub open spec fn bare_datagram(source: Endpoint, destination: Endpoint, payload: Seq<u8>) -> Seq<
    u8,
> {
    bytes::be16_bytes(source.port as int) + bytes::be16_bytes(destination.port as int)
        + bytes::be16_bytes(HEADER_LEN + payload.len()) + seq![0u8, 0u8] + payload
}

/// Zero means "not computed", so a checksum that comes out zero is sent as the
/// other representation of zero in ones' complement.
pub open spec fn sent_checksum(checksum: int) -> int {
    if checksum == 0 {
        0xFFFF
    } else {
        checksum
    }
}

/// A datagram as it goes on the wire.
pub open spec fn datagram_bytes(source: Endpoint, destination: Endpoint, payload: Seq<u8>) -> Seq<
    u8,
> {
    let bare = bare_datagram(source, destination, payload);
    bytes::put16(
        bare,
        6,
        sent_checksum(
            ip::transport_checksum(source.address, destination.address, ip::PROTO_UDP, bare),
        ),
    )
}

/// Build one UDP datagram, checksum included.
///
/// IPv4 lets the checksum be left at zero; it is computed here anyway, because
/// a wrong one is the kind of fault that is invisible until something else
/// refuses the packet.
pub fn build(source: Endpoint, destination: Endpoint, payload: &[u8]) -> (datagram: Vec<u8>)
    requires
        HEADER_LEN + payload@.len() <= ip::MAX_DATAGRAM,
    ensures
        datagram@ == datagram_bytes(source, destination, payload@),
{
    let length: usize = HEADER_LEN + payload.len();
    let mut datagram: Vec<u8> = Vec::new();
    push_be16(&mut datagram, source.port);
    push_be16(&mut datagram, destination.port);
    push_be16(&mut datagram, length as u16);
    datagram.push(0);
    datagram.push(0);
    extend(&mut datagram, payload);
    assert(datagram@ =~= bare_datagram(source, destination, payload@));
    let checksum: u16 = ip::transport_sum(
        source.address,
        destination.address,
        ip::PROTO_UDP,
        datagram.as_slice(),
    );
    put_be16(
        &mut datagram,
        6,
        if checksum == 0 {
            0xFFFF
        } else {
            checksum
        },
    );
    datagram
}

/// A datagram whose length is one it can have, and whose checksum, if it
/// carries one, is right. Bytes past its own length are padding.
pub open spec fn is_datagram(source: Ipv4Addr, destination: Ipv4Addr, packet: Seq<u8>) -> bool {
    &&& packet.len() >= HEADER_LEN
    &&& HEADER_LEN <= bytes::be16(packet, 4) <= packet.len()
    &&& bytes::be16(packet, 6) == 0 || ip::transport_checksum(
        source,
        destination,
        ip::PROTO_UDP,
        packet.take(bytes::be16(packet, 4)),
    ) == 0
}

/// A datagram taken apart.
pub struct Datagram<'a> {
    pub from: Endpoint,
    pub to: Endpoint,
    pub data: &'a [u8],
}

/// The port a datagram came from, at the address it came from.
pub open spec fn sender_of(source: Ipv4Addr, packet: Seq<u8>) -> Endpoint {
    Endpoint { address: source, port: bytes::be16(packet, 0) as u16 }
}

/// The port a datagram is for, at the address it is for.
pub open spec fn receiver_of(destination: Ipv4Addr, packet: Seq<u8>) -> Endpoint {
    Endpoint { address: destination, port: bytes::be16(packet, 2) as u16 }
}

/// What a datagram carries.
pub open spec fn data_of(packet: Seq<u8>) -> Seq<u8> {
    packet.subrange(HEADER_LEN as int, bytes::be16(packet, 4))
}

/// Take a datagram apart, or refuse it.
pub fn parse<'a>(source: Ipv4Addr, destination: Ipv4Addr, packet: &'a [u8]) -> (datagram: Option<
    Datagram<'a>,
>)
    ensures
        datagram is Some <==> is_datagram(source, destination, packet@),
        datagram matches Some(d) ==> {
            &&& d.from == sender_of(source, packet@)
            &&& d.to == receiver_of(destination, packet@)
            &&& d.data@ == data_of(packet@)
            &&& d.data@.len() <= ip::MAX_DATAGRAM
        },
{
    if packet.len() < HEADER_LEN {
        return None;
    }
    let length: usize = read_be16(packet, 4) as usize;
    if length < HEADER_LEN || length > packet.len() {
        return None;
    }
    let whole = slice_subrange(packet, 0, length);
    assert(whole@ =~= packet@.take(length as int));
    let carried: u16 = read_be16(packet, 6);
    if carried != 0 {
        if ip::transport_sum(source, destination, ip::PROTO_UDP, whole) != 0 {
            return None;
        }
    }
    let data = slice_subrange(packet, HEADER_LEN, length);
    Some(
        Datagram {
            from: Endpoint::new(source, read_be16(packet, 0)),
            to: Endpoint::new(destination, read_be16(packet, 2)),
            data,
        },
    )
}

/// A built datagram passes the receiver's tests and says what it was built
/// from.
#[verifier::spinoff_prover]
pub proof fn datagram_round_trip(source: Endpoint, destination: Endpoint, payload: Seq<u8>)
    requires
        HEADER_LEN + payload.len() <= ip::MAX_DATAGRAM,
    ensures
        ({
            let wire = datagram_bytes(source, destination, payload);
            &&& is_datagram(source.address, destination.address, wire)
            &&& bytes::be16(wire, 6) != 0
            &&& sender_of(source.address, wire) == source
            &&& receiver_of(destination.address, wire) == destination
            &&& data_of(wire) == payload
        }),
{
    let bare = bare_datagram(source, destination, payload);
    let wire = datagram_bytes(source, destination, payload);
    let pseudo = ip::pseudo_total(
        source.address,
        destination.address,
        ip::PROTO_UDP,
        bare.len() as int,
    );
    let sum = pseudo + ip::word_sum(bare);
    let c = ip::complement(sum);
    ip::word_sum_bound(bare);
    ip::complement_cancels(sum);
    assert(bare[6] == 0 && bare[7] == 0 && bare.len() == HEADER_LEN + payload.len());
    ip::word_sum_put(bare, 6, sent_checksum(c));
    if c == 0 {
        // Adding all ones to a sum changes nothing about its checksum, as long
        // as the sum is not zero, and a zero checksum is never that of zero.
        assert(sum > 0);
        assert((sum + 0xFFFF - 1) % 0xFFFF == (sum - 1) % 0xFFFF);
    }
    assert(wire.subrange(0, 2) =~= bytes::be16_bytes(source.port as int));
    bytes::be16_at(wire, 0, source.port as int);
    assert(wire.subrange(2, 4) =~= bytes::be16_bytes(destination.port as int));
    bytes::be16_at(wire, 2, destination.port as int);
    assert(wire.subrange(4, 6) =~= bytes::be16_bytes(HEADER_LEN + payload.len()));
    bytes::be16_at(wire, 4, HEADER_LEN + payload.len());
    assert(wire.subrange(6, 8) =~= bytes::be16_bytes(sent_checksum(c)));
    bytes::be16_at(wire, 6, sent_checksum(c));
    assert(wire.take(wire.len() as int) =~= wire);
    assert(data_of(wire) =~= payload);
}

/// One received UDP datagram.
pub fn receive(net: &mut Net, source: Ipv4Addr, destination: Ipv4Addr, packet: &[u8])
    requires
        old(net)@.valid(),
    ensures
        final(net)@ == old(net)@.datagram_taken(source, destination, packet@),
        final(net)@.valid(),
{
    let datagram = match parse(source, destination, packet) {
        Some(datagram) => datagram,
        None => {
            return;
        },
    };
    let id: usize = match lookup_datagram(&net.sockets, datagram.to, datagram.from) {
        Some(id) => id,
        None => {
            // Nothing is listening.
            return;
        },
    };
    let ghost before = net.sockets@;
    assert(before.slots[id as int]->0.valid());
    let mut socket = net.sockets.take(id);
    if let Protocol::Udp(state) = &mut socket.inner {
        state.enqueue(datagram.from, datagram.data);
    }
    proof {
        let expected = before.at(id).with_udp(
            before.at(id).inner->Udp_0.enqueued(datagram.from, datagram.data@),
        );
        assert((*socket)@ =~= expected);
        socket::replacing_keeps_order(before, id, (*socket)@);
    }
    net.sockets.put(id, socket);
    net.link.woken = true;
}

} // verus!
