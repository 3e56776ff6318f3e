//! The protocol stack against a card that only remembers what it was handed.
//!
//! Frames are handed to `receive` by hand, and every expectation is written
//! out field by field rather than built with the code that produced the frame,
//! so a header laid out wrongly fails rather than agreeing with itself.

use kernel::errno::Errno;
use kernel::net::arp;
use kernel::net::config::{resolver_file, Config};
use kernel::net::ether;
use kernel::net::ip::{self, Ipv4Addr};
use kernel::net::link;
use kernel::net::socket::{self, Endpoint, InetSocket, Protocol};
use kernel::net::socket_ops::{self, Attempt, Waiting};
use kernel::net::stack::{self, Net};
use kernel::net::tcp;
use kernel::net::tcp_table;
use kernel::net::udp;

const OUR_MAC: [u8; 6] = [0x52, 0x54, 0x00, 0x12, 0x34, 0x56];
const PEER_MAC: [u8; 6] = [0x52, 0x55, 0x0A, 0x00, 0x02, 0x02];
const NOW: u64 = 1_000;
const CLOCK: u64 = 10_000_000_000;
/// The number the machine drew when it started.
const SECRET: u64 = 0x0123_4567_89AB_CDEF;
/// What is offered at first: the whole receive buffer, nothing taken yet.
const WINDOW: u16 = tcp::RECEIVE_WINDOW as u16;

fn our_ip() -> Ipv4Addr {
    Ipv4Addr::new(10, 0, 2, 15)
}

fn peer_ip() -> Ipv4Addr {
    Ipv4Addr::new(10, 0, 2, 2)
}

fn nameserver_ip() -> Ipv4Addr {
    Ipv4Addr::new(10, 0, 2, 3)
}

fn unspecified() -> Ipv4Addr {
    Ipv4Addr::new(0, 0, 0, 0)
}

fn everyone() -> Ipv4Addr {
    Ipv4Addr::new(255, 255, 255, 255)
}

fn netmask() -> Ipv4Addr {
    Ipv4Addr::new(255, 255, 255, 0)
}

fn test_config() -> Config {
    Config::new(our_ip(), netmask(), Some(peer_ip()), &[nameserver_ip()]).unwrap()
}

/// A machine with a card, a link and an address, that already knows where the
/// peer is.
fn machine() -> Net {
    let mut net = Net::new(SECRET);
    link::attach(&mut net.link, OUR_MAC);
    net.link.up = true;
    link::configure(&mut net.link, Some(test_config()));
    arp::learn(&mut net.link, peer_ip(), PEER_MAC, NOW);
    net.link.outbox.clear();
    net
}

fn sent(net: &mut Net) -> Vec<Vec<u8>> {
    let frames = net.link.outbox.clone();
    net.link.outbox.clear();
    frames
}

fn framed(to: [u8; 6], from: [u8; 6], ethertype: u16, payload: &[u8]) -> Vec<u8> {
    let mut out = Vec::new();
    out.extend_from_slice(&to);
    out.extend_from_slice(&from);
    out.extend_from_slice(&ethertype.to_be_bytes());
    out.extend_from_slice(payload);
    while out.len() < 60 {
        out.push(0);
    }
    out
}

fn expected_frame(ethertype: u16, payload: &[u8]) -> Vec<u8> {
    framed(PEER_MAC, OUR_MAC, ethertype, payload)
}

/// An IPv4 datagram, header written out field by field.
fn datagram(
    identification: u16,
    protocol: u8,
    source: Ipv4Addr,
    destination: Ipv4Addr,
    payload: &[u8],
) -> Vec<u8> {
    let mut out = vec![0x45, 0x00];
    out.extend_from_slice(&((20 + payload.len()) as u16).to_be_bytes());
    out.extend_from_slice(&identification.to_be_bytes());
    out.extend_from_slice(&[0x40, 0x00, 64, protocol, 0, 0]);
    out.extend_from_slice(&source.to_be_bytes());
    out.extend_from_slice(&destination.to_be_bytes());
    let checksum = ip::checksum(&out);
    out[10..12].copy_from_slice(&checksum.to_be_bytes());
    out.extend_from_slice(payload);
    out
}

#[allow(clippy::too_many_arguments)]
fn segment(
    source_port: u16,
    destination_port: u16,
    sequence: u32,
    acknowledgement: u32,
    flags: u8,
    window: u16,
    options: &[u8],
    payload: &[u8],
    source: Ipv4Addr,
    destination: Ipv4Addr,
) -> Vec<u8> {
    let offset = 20 + options.len();
    let mut out = Vec::new();
    out.extend_from_slice(&source_port.to_be_bytes());
    out.extend_from_slice(&destination_port.to_be_bytes());
    out.extend_from_slice(&sequence.to_be_bytes());
    out.extend_from_slice(&acknowledgement.to_be_bytes());
    out.push(((offset / 4) as u8) << 4);
    out.push(flags);
    out.extend_from_slice(&window.to_be_bytes());
    out.extend_from_slice(&[0, 0, 0, 0]);
    out.extend_from_slice(options);
    out.extend_from_slice(payload);
    let pseudo = ip::pseudo_sum(source, destination, ip::PROTO_TCP, out.len());
    let checksum = ip::fold(ip::sum(&out, pseudo));
    out[16..18].copy_from_slice(&checksum.to_be_bytes());
    out
}

fn udp_datagram(
    source_port: u16,
    destination_port: u16,
    payload: &[u8],
    source: Ipv4Addr,
    destination: Ipv4Addr,
) -> Vec<u8> {
    let length = 8 + payload.len();
    let mut out = Vec::new();
    out.extend_from_slice(&source_port.to_be_bytes());
    out.extend_from_slice(&destination_port.to_be_bytes());
    out.extend_from_slice(&(length as u16).to_be_bytes());
    out.extend_from_slice(&[0, 0]);
    out.extend_from_slice(payload);
    let pseudo = ip::pseudo_sum(source, destination, ip::PROTO_UDP, length);
    let mut checksum = ip::fold(ip::sum(&out, pseudo));
    if checksum == 0 {
        checksum = 0xFFFF;
    }
    out[6..8].copy_from_slice(&checksum.to_be_bytes());
    out
}

fn identification_of(frame: &[u8]) -> u16 {
    u16::from_be_bytes([frame[18], frame[19]])
}

fn deliver(net: &mut Net, ethertype: u16, payload: &[u8]) {
    let bytes = framed(OUR_MAC, PEER_MAC, ethertype, payload);
    stack::receive(net, &bytes, NOW, CLOCK);
}

fn deliver_between(
    net: &mut Net,
    protocol: u8,
    payload: &[u8],
    source: Ipv4Addr,
    destination: Ipv4Addr,
) {
    let bytes = datagram(0x4242, protocol, source, destination, payload);
    deliver(net, ether::ETHERTYPE_IPV4, &bytes);
}

fn deliver_ip(net: &mut Net, protocol: u8, payload: &[u8]) {
    deliver_between(net, protocol, payload, peer_ip(), our_ip());
}

/// A segment from the peer to this machine.
#[allow(clippy::too_many_arguments)]
fn from_peer(
    net: &mut Net,
    source_port: u16,
    destination_port: u16,
    sequence: u32,
    acknowledgement: u32,
    flags: u8,
    options: &[u8],
    payload: &[u8],
) {
    let bytes = segment(
        source_port,
        destination_port,
        sequence,
        acknowledgement,
        flags,
        64240,
        options,
        payload,
        peer_ip(),
        our_ip(),
    );
    deliver_ip(net, ip::PROTO_TCP, &bytes);
}

/// The frame that carries a segment from this machine to the peer.
#[allow(clippy::too_many_arguments)]
fn expected_segment(
    frame: &[u8],
    source_port: u16,
    destination_port: u16,
    sequence: u32,
    acknowledgement: u32,
    flags: u8,
    window: u16,
    options: &[u8],
    payload: &[u8],
) -> Vec<u8> {
    let body = segment(
        source_port,
        destination_port,
        sequence,
        acknowledgement,
        flags,
        window,
        options,
        payload,
        our_ip(),
        peer_ip(),
    );
    expected_frame(
        ether::ETHERTYPE_IPV4,
        &datagram(identification_of(frame), ip::PROTO_TCP, our_ip(), peer_ip(), &body),
    )
}

fn listening(net: &mut Net, address: Ipv4Addr, port: u16, backlog: usize) -> usize {
    let id = net.sockets.create(true);
    let config = net.link.config;
    InetSocket::bind(&mut net.sockets, id, Endpoint::new(address, port), config).unwrap();
    InetSocket::listen(&mut net.sockets, id, backlog, config).unwrap();
    id
}

fn datagram_socket(net: &mut Net, address: Ipv4Addr, port: u16) -> usize {
    let id = net.sockets.create(false);
    let config = net.link.config;
    InetSocket::bind(&mut net.sockets, id, Endpoint::new(address, port), config).unwrap();
    id
}

fn tcb(net: &Net, id: usize) -> &tcp::Tcb {
    match &net.sockets.get(id).unwrap().inner {
        Protocol::Tcp(tcb) => tcb,
        Protocol::Udp(_) => panic!("not a stream"),
    }
}

fn udp_state(net: &Net, id: usize) -> &udp::UdpState {
    match &net.sockets.get(id).unwrap().inner {
        Protocol::Udp(state) => state,
        Protocol::Tcp(_) => panic!("not a datagram socket"),
    }
}

/// A connection that has finished its handshake.
struct Connection {
    listener: usize,
    socket: usize,
    port: u16,
    client_next: u32,
    server_next: u32,
}

fn establish(net: &mut Net, server_port: u16, client_port: u16, client_iss: u32) -> Connection {
    let listener = listening(net, unspecified(), server_port, 4);
    from_peer(net, client_port, server_port, client_iss, 0, tcp::SYN, &[], &[]);
    let answers = sent(net);
    assert_eq!(answers.len(), 1);
    let server_iss = tcp::Segment::parse(&answers[0][34..]).unwrap().sequence;
    from_peer(
        net,
        client_port,
        server_port,
        client_iss.wrapping_add(1),
        server_iss.wrapping_add(1),
        tcp::ACK,
        &[],
        &[],
    );
    sent(net);
    let socket = InetSocket::accept_ready(net, listener, NOW, CLOCK).unwrap().unwrap();
    Connection {
        listener,
        socket,
        port: client_port,
        client_next: client_iss.wrapping_add(1),
        server_next: server_iss.wrapping_add(1),
    }
}

fn is_bare_ack(frame: &[u8], port: u16, sequence: u32, acknowledgement: u32) -> bool {
    let (_, body) = ip::parse(&frame[14..]).unwrap();
    let parsed = tcp::Segment::parse(body).unwrap();
    parsed.destination_port == port
        && parsed.flags == tcp::ACK
        && parsed.sequence == sequence
        && parsed.acknowledgement == acknowledgement
        && parsed.payload.is_empty()
}

fn echo_request() -> Vec<u8> {
    let mut request = vec![8, 0, 0, 0, 0x13, 0x37, 0x00, 0x09];
    request.extend_from_slice(b"abcdefghijklmnopqrstuvwabcdefghi");
    let checksum = ip::checksum(&request);
    request[2..4].copy_from_slice(&checksum.to_be_bytes());
    request
}

fn arp_packet(
    operation: u16,
    sender_mac: [u8; 6],
    sender: Ipv4Addr,
    target_mac: [u8; 6],
    target: Ipv4Addr,
) -> Vec<u8> {
    let mut packet = vec![0x00, 0x01, 0x08, 0x00, 6, 4];
    packet.extend_from_slice(&operation.to_be_bytes());
    packet.extend_from_slice(&sender_mac);
    packet.extend_from_slice(&sender.to_be_bytes());
    packet.extend_from_slice(&target_mac);
    packet.extend_from_slice(&target.to_be_bytes());
    packet
}

// ---- addresses and checksums -----------------------------------------------

/// The ones' complement sum, against the worked example in RFC 1071 and a
/// header whose checksum is known.
#[test]
fn checksums() {
    let example = [0x00u8, 0x01, 0xf2, 0x03, 0xf4, 0xf5, 0xf6, 0xf7];
    assert_eq!(ip::checksum(&example), 0x220d);

    let header = [
        0x45u8, 0x00, 0x00, 0x73, 0x00, 0x00, 0x40, 0x00, 0x40, 0x11, 0x00, 0x00, 0xc0, 0xa8,
        0x00, 0x01, 0xc0, 0xa8, 0x00, 0xc7,
    ];
    assert_eq!(ip::checksum(&header), 0xb861);

    let mut filled = header;
    filled[10] = 0xb8;
    filled[11] = 0x61;
    assert_eq!(ip::checksum(&filled), 0);
}

#[test]
fn an_odd_byte_is_summed_as_if_a_zero_followed_it() {
    assert_eq!(ip::checksum(&[0x12, 0x34, 0x56]), ip::checksum(&[0x12, 0x34, 0x56, 0x00]));
    assert_eq!(ip::checksum(&[0x12, 0x34, 0x56]), 0x97cb);
}

#[test]
fn addresses_are_read_from_text() {
    assert_eq!(ip::parse_address("10.0.2.15"), Some(our_ip()));
    assert_eq!(ip::parse_address("255.255.255.255"), Some(everyone()));
    for text in ["", "10.0.2", "10.0.2.256", "10.0.2.15.1", "10..2.15", "a.b.c.d", "10.0.2.15 "] {
        assert_eq!(ip::parse_address(text), None, "{}", text);
    }
}

#[test]
fn kinds_of_address() {
    assert!(unspecified().is_unspecified());
    assert!(everyone().is_broadcast());
    assert!(Ipv4Addr::new(224, 0, 0, 1).is_multicast());
    assert!(!Ipv4Addr::new(223, 255, 255, 255).is_multicast());
    assert!(Ipv4Addr::new(127, 9, 9, 9).is_loopback());
    assert!(!our_ip().is_loopback());
    assert_eq!(Ipv4Addr::from_be_bytes([10, 0, 2, 15]).to_be_bytes(), [10, 0, 2, 15]);
}

#[test]
fn a_datagram_is_built_and_read_back() {
    let built = ip::build(our_ip(), peer_ip(), ip::PROTO_UDP, b"payload", 0x1234);
    assert_eq!(built, datagram(0x1234, ip::PROTO_UDP, our_ip(), peer_ip(), b"payload"));
    let (header, payload) = ip::parse(&built).unwrap();
    assert_eq!(header.source, our_ip());
    assert_eq!(header.destination, peer_ip());
    assert!(!header.is_fragment());
    assert_eq!(payload, b"payload");

    let mut damaged = built.clone();
    damaged[8] ^= 1;
    assert!(ip::parse(&damaged).is_none());
    assert!(ip::parse(&built[..built.len() - 1]).is_none());
    assert!(ip::parse(&[]).is_none());
}

#[test]
fn frames_are_padded_and_read_back() {
    let built = ether::build(PEER_MAC, OUR_MAC, ether::ETHERTYPE_ARP, &[1, 2, 3]);
    assert_eq!(built, expected_frame(ether::ETHERTYPE_ARP, &[1, 2, 3]));
    let parsed = ether::Frame::parse(&built).unwrap();
    assert_eq!(parsed.destination, PEER_MAC);
    assert_eq!(parsed.source, OUR_MAC);
    assert_eq!(parsed.ethertype, ether::ETHERTYPE_ARP);
    assert!(ether::Frame::parse(&built[..13]).is_none());
    assert!(ether::is_group(&ether::BROADCAST));
    assert!(!ether::is_group(&OUR_MAC));
}

// ---- address resolution ----------------------------------------------------

/// A request for our address is answered, byte for byte.
#[test]
fn address_resolution() {
    let mut net = Net::new(SECRET);
    link::attach(&mut net.link, OUR_MAC);
    net.link.up = true;
    link::configure(&mut net.link, Some(test_config()));
    let request = arp_packet(1, PEER_MAC, peer_ip(), [0; 6], our_ip());
    deliver(&mut net, ether::ETHERTYPE_ARP, &request);

    let replies = sent(&mut net);
    let reply = arp_packet(2, OUR_MAC, our_ip(), PEER_MAC, peer_ip());
    assert_eq!(replies, vec![expected_frame(ether::ETHERTYPE_ARP, &reply)]);

    // The request also taught us where the other end is.
    assert_eq!(arp::lookup(&net.link, peer_ip(), NOW), Some(PEER_MAC));

    // And a request for an address that is not ours is ignored.
    let elsewhere = arp_packet(1, PEER_MAC, peer_ip(), [0; 6], Ipv4Addr::new(10, 0, 2, 99));
    deliver(&mut net, ether::ETHERTYPE_ARP, &elsewhere);
    assert!(sent(&mut net).is_empty());

    // A reply nobody asked for, claiming this machine's own address.
    let impostor: [u8; 6] = [0x52, 0x55, 0x0A, 0x00, 0x02, 0x63];
    let claim = arp_packet(2, impostor, our_ip(), PEER_MAC, peer_ip());
    deliver(&mut net, ether::ETHERTYPE_ARP, &claim);
    assert_eq!(arp::lookup(&net.link, our_ip(), NOW), None);
}

#[test]
fn a_datagram_waits_for_its_hardware_address() {
    let mut net = machine();
    let other = Ipv4Addr::new(10, 0, 2, 77);
    let other_mac = [0x52, 0x55, 0x0A, 0x00, 0x02, 0x4D];
    let packet = ip::build(our_ip(), other, ip::PROTO_UDP, b"held", 9);
    assert_eq!(arp::send_datagram(&mut net.link, other, packet.clone(), NOW), Ok(()));
    let asked = sent(&mut net);
    let question = arp_packet(1, OUR_MAC, our_ip(), [0; 6], other);
    assert_eq!(asked, vec![framed([0xFF; 6], OUR_MAC, ether::ETHERTYPE_ARP, &question)]);

    let answer = arp_packet(2, other_mac, other, OUR_MAC, our_ip());
    deliver(&mut net, ether::ETHERTYPE_ARP, &answer);
    assert_eq!(sent(&mut net), vec![framed(other_mac, OUR_MAC, ether::ETHERTYPE_IPV4, &packet)]);
}

#[test]
fn a_neighbour_that_never_answers_is_given_up() {
    let mut net = machine();
    let other = Ipv4Addr::new(10, 0, 2, 77);
    let packet = ip::build(our_ip(), other, ip::PROTO_UDP, b"held", 9);
    assert_eq!(arp::send_datagram(&mut net.link, other, packet, NOW), Ok(()));
    let mut asked = sent(&mut net).len();
    let mut now = NOW;
    while arp::next_deadline(&net.link) < NOW + arp::ENTRY_LIFETIME {
        now = arp::next_deadline(&net.link);
        arp::expire(&mut net.link, now);
        asked += sent(&mut net).len();
    }
    assert_eq!(asked, arp::MAX_REQUESTS as usize);
    assert_eq!(now, NOW + arp::MAX_REQUESTS as u64 * arp::REQUEST_INTERVAL);
    assert_eq!(arp::lookup(&net.link, other, now), None);
}

/// What was learned of a neighbour is believed for its lifetime, and asked for
/// again after that, with what is to be sent held until it answers.
#[test]
fn an_aged_neighbour_is_asked_again() {
    let mut net = machine();
    let other = Ipv4Addr::new(10, 0, 2, 77);
    let mac = [0x52, 0x55, 0x0A, 0x00, 0x02, 0x4D];
    let moved = [0x52, 0x55, 0x0A, 0x00, 0x02, 0x4E];
    arp::learn(&mut net.link, other, mac, NOW);
    let last = NOW + arp::ENTRY_LIFETIME - 1;
    let packet = ip::build(our_ip(), other, ip::PROTO_UDP, b"x", 9);
    assert_eq!(arp::lookup(&net.link, other, last), Some(mac));
    assert_eq!(arp::send_datagram(&mut net.link, other, packet.clone(), last), Ok(()));
    assert_eq!(sent(&mut net), vec![framed(mac, OUR_MAC, ether::ETHERTYPE_IPV4, &packet)]);

    let after = last + 1;
    let held = net.link.cache.len();
    assert_eq!(arp::lookup(&net.link, other, after), None);
    assert_eq!(arp::send_datagram(&mut net.link, other, packet.clone(), after), Ok(()));
    let question = arp_packet(1, OUR_MAC, our_ip(), [0; 6], other);
    assert_eq!(
        sent(&mut net),
        vec![framed([0xFF; 6], OUR_MAC, ether::ETHERTYPE_ARP, &question)]
    );
    assert_eq!(net.link.cache.len(), held);
    arp::learn(&mut net.link, other, moved, after);
    assert_eq!(sent(&mut net), vec![framed(moved, OUR_MAC, ether::ETHERTYPE_IPV4, &packet)]);
    assert_eq!(arp::lookup(&net.link, other, after), Some(moved));
}

#[test]
fn no_more_neighbours_are_held_than_there_is_room_for() {
    let mut net = machine();
    for host in 0..=255u8 {
        arp::learn(&mut net.link, Ipv4Addr::new(10, 0, 2, host), PEER_MAC, NOW + host as u64);
    }
    assert!(net.link.cache.len() <= arp::MAX_ENTRIES);
}

// ---- echo ------------------------------------------------------------------

/// A ping is answered with an echo reply whose checksum is right.
#[test]
fn echo() {
    let mut net = machine();
    let body = b"abcdefghijklmnopqrstuvwabcdefghi";
    let mut request = vec![8, 0, 0, 0, 0x13, 0x37, 0x00, 0x05];
    request.extend_from_slice(body);
    let checksum = ip::checksum(&request);
    request[2..4].copy_from_slice(&checksum.to_be_bytes());
    deliver_ip(&mut net, ip::PROTO_ICMP, &request);

    let replies = sent(&mut net);
    assert_eq!(replies.len(), 1);
    let mut reply = vec![0, 0, 0, 0, 0x13, 0x37, 0x00, 0x05];
    reply.extend_from_slice(body);
    let checksum = ip::checksum(&reply);
    reply[2..4].copy_from_slice(&checksum.to_be_bytes());
    let expected = expected_frame(
        ether::ETHERTYPE_IPV4,
        &datagram(identification_of(&replies[0]), ip::PROTO_ICMP, our_ip(), peer_ip(), &reply),
    );
    assert_eq!(replies[0], expected);

    let (header, payload) = ip::parse(&replies[0][14..]).unwrap();
    assert_eq!(ip::checksum(&replies[0][14..14 + header.ihl]), 0);
    assert_eq!(ip::checksum(payload), 0);
}

#[test]
fn a_damaged_echo_request_draws_nothing() {
    let mut net = machine();
    let mut request = echo_request();
    request[9] ^= 0x40;
    deliver_ip(&mut net, ip::PROTO_ICMP, &request);
    assert!(sent(&mut net).is_empty());
}

// ---- connections -----------------------------------------------------------

/// A connection request for a port nobody is listening on is refused.
#[test]
fn refused() {
    let mut net = machine();
    from_peer(&mut net, 40000, 9999, 0x0102_0304, 0, tcp::SYN, &[], &[]);
    let frames = sent(&mut net);
    assert_eq!(frames.len(), 1);
    let expected = expected_segment(
        &frames[0],
        9999,
        40000,
        0,
        0x0102_0305,
        tcp::RST | tcp::ACK,
        0,
        &[],
        &[],
    );
    assert_eq!(frames[0], expected);
}

/// The whole of a served connection: the handshake, a request, an answer, and
/// an orderly close.
#[test]
fn connection() {
    const CLIENT_PORT: u16 = 40001;
    const SERVER_PORT: u16 = 8080;
    const CLIENT_ISS: u32 = 0x1122_3344;
    let mut net = machine();
    let listener = listening(&mut net, unspecified(), SERVER_PORT, 8);
    assert!(net.sockets.get(listener).unwrap().is_listening());

    // ---- the connection request ----
    from_peer(
        &mut net,
        CLIENT_PORT,
        SERVER_PORT,
        CLIENT_ISS,
        0,
        tcp::SYN,
        &[2, 4, 0x05, 0xB4],
        &[],
    );
    let frames = sent(&mut net);
    assert_eq!(frames.len(), 1);
    let parsed = tcp::Segment::parse(&frames[0][34..]).unwrap();
    let server_iss = parsed.sequence;
    assert_eq!(parsed.acknowledgement, CLIENT_ISS + 1);
    assert_eq!(parsed.flags, tcp::SYN | tcp::ACK);
    assert_ne!(server_iss, 0);
    assert_ne!(server_iss, CLIENT_ISS);
    assert_ne!(server_iss, CLIENT_ISS + 1);
    let expected = expected_segment(
        &frames[0],
        SERVER_PORT,
        CLIENT_PORT,
        server_iss,
        CLIENT_ISS + 1,
        tcp::SYN | tcp::ACK,
        WINDOW,
        &[2, 4, 0x05, 0xB4],
        &[],
    );
    assert_eq!(frames[0], expected);

    // ---- the acknowledgement that completes it ----
    from_peer(
        &mut net,
        CLIENT_PORT,
        SERVER_PORT,
        CLIENT_ISS + 1,
        server_iss + 1,
        tcp::ACK,
        &[],
        &[],
    );
    assert!(sent(&mut net).is_empty());

    let accepted = InetSocket::accept_ready(&mut net, listener, NOW, CLOCK).unwrap().unwrap();
    assert_eq!(
        net.sockets.get(accepted).unwrap().peer_endpoint(),
        Ok(Endpoint::new(peer_ip(), CLIENT_PORT))
    );
    assert_eq!(
        net.sockets.get(accepted).unwrap().local_endpoint(),
        Endpoint::new(our_ip(), SERVER_PORT)
    );
    assert_eq!(InetSocket::accept_ready(&mut net, listener, NOW, CLOCK), Ok(None));

    // ---- a request arrives ----
    let request = b"GET / HTTP/1.1\r\nHost: claudeos\r\n\r\n";
    from_peer(
        &mut net,
        CLIENT_PORT,
        SERVER_PORT,
        CLIENT_ISS + 1,
        server_iss + 1,
        tcp::PSH | tcp::ACK,
        &[],
        request,
    );
    let frames = sent(&mut net);
    assert_eq!(frames.len(), 1);
    let client_next = CLIENT_ISS + 1 + request.len() as u32;
    let expected = expected_segment(
        &frames[0],
        SERVER_PORT,
        CLIENT_PORT,
        server_iss + 1,
        client_next,
        tcp::ACK,
        WINDOW - request.len() as u16,
        &[],
        &[],
    );
    assert_eq!(frames[0], expected);

    let mut buf = [0u8; 256];
    assert!(InetSocket::readable(&net.sockets, accepted));
    let (n, from) =
        InetSocket::receive_into(&mut net, accepted, &mut buf, false, NOW).unwrap();
    assert_eq!(&buf[..n], request);
    assert_eq!(from, Endpoint::new(peer_ip(), CLIENT_PORT));

    // ---- the answer goes back ----
    let answer = b"HTTP/1.1 200 OK\r\nContent-Length: 2\r\n\r\nhi";
    assert_eq!(InetSocket::send(&mut net, accepted, answer, None, NOW), Ok(answer.len()));
    let frames = sent(&mut net);
    assert_eq!(frames.len(), 1);
    let expected = expected_segment(
        &frames[0],
        SERVER_PORT,
        CLIENT_PORT,
        server_iss + 1,
        client_next,
        tcp::PSH | tcp::ACK,
        // The right edge of the window has not moved since the handshake: the
        // request that was read out of the socket freed 34 bytes, and the edge
        // only moves when it can move by a whole segment.
        WINDOW - request.len() as u16,
        &[],
        answer,
    );
    assert_eq!(frames[0], expected);

    // The other end takes it.
    let server_next = server_iss + 1 + answer.len() as u32;
    from_peer(&mut net, CLIENT_PORT, SERVER_PORT, client_next, server_next, tcp::ACK, &[], &[]);
    assert!(sent(&mut net).is_empty());
    assert_eq!(tcb(&net, accepted).retransmit_at, 0);

    // ---- the close ----
    socket_ops::close(&mut net, accepted, NOW, CLOCK);
    let frames = sent(&mut net);
    assert_eq!(frames.len(), 1);
    let expected = expected_segment(
        &frames[0],
        SERVER_PORT,
        CLIENT_PORT,
        server_next,
        client_next,
        tcp::FIN | tcp::ACK,
        WINDOW - request.len() as u16,
        &[],
        &[],
    );
    assert_eq!(frames[0], expected);
    assert_eq!(tcb(&net, accepted).state, tcp::State::FinWait1);

    from_peer(
        &mut net,
        CLIENT_PORT,
        SERVER_PORT,
        client_next,
        server_next + 1,
        tcp::ACK,
        &[],
        &[],
    );
    assert_eq!(tcb(&net, accepted).state, tcp::State::FinWait2);
    assert!(sent(&mut net).is_empty());

    from_peer(
        &mut net,
        CLIENT_PORT,
        SERVER_PORT,
        client_next,
        server_next + 1,
        tcp::FIN | tcp::ACK,
        &[],
        &[],
    );
    let frames = sent(&mut net);
    assert_eq!(frames.len(), 1);
    let expected = expected_segment(
        &frames[0],
        SERVER_PORT,
        CLIENT_PORT,
        server_next + 1,
        client_next + 1,
        tcp::ACK,
        WINDOW - request.len() as u16 - 1,
        &[],
        &[],
    );
    assert_eq!(frames[0], expected);
    assert_eq!(tcb(&net, accepted).state, tcp::State::TimeWait);
    socket_ops::close(&mut net, listener, NOW, CLOCK);
}

/// An active open: the request, the answer, and the acknowledgement of it.
#[test]
fn a_connection_opened_from_here() {
    let mut net = machine();
    let id = net.sockets.create(true);
    assert_eq!(
        InetSocket::connect(&mut net, id, Endpoint::new(peer_ip(), 80), NOW, CLOCK),
        Ok(())
    );
    let frames = sent(&mut net);
    assert_eq!(frames.len(), 1);
    let (_, body) = ip::parse(&frames[0][14..]).unwrap();
    let request = tcp::Segment::parse(body).unwrap();
    assert_eq!(request.flags, tcp::SYN);
    assert_eq!(request.destination_port, 80);
    assert_eq!(request.source_port, socket::EPHEMERAL_FIRST);
    assert_eq!(request.mss, Some(1460));
    assert_eq!(
        request.sequence,
        tcp::initial_sequence(
            Endpoint::new(our_ip(), socket::EPHEMERAL_FIRST),
            Endpoint::new(peer_ip(), 80),
            CLOCK,
            SECRET
        )
    );
    let (port, sequence) = (request.source_port, request.sequence);
    assert!(net.sockets.get(id).unwrap().connecting());

    from_peer(
        &mut net,
        80,
        port,
        77,
        sequence.wrapping_add(1),
        tcp::SYN | tcp::ACK,
        &[2, 4, 0x02, 0x00],
        &[],
    );
    let frames = sent(&mut net);
    assert_eq!(frames.len(), 1);
    assert!(is_bare_ack(&frames[0], 80, sequence.wrapping_add(1), 78));
    assert_eq!(tcb(&net, id).state, tcp::State::Established);
    // A segment size of 512 is raised to the smallest that may be insisted on.
    assert_eq!(tcb(&net, id).effective_mss(), tcp::MIN_MSS);
}

#[test]
fn a_refused_connection_says_so() {
    let mut net = machine();
    let id = net.sockets.create(true);
    InetSocket::connect(&mut net, id, Endpoint::new(peer_ip(), 80), NOW, CLOCK).unwrap();
    sent(&mut net);
    let (port, iss) = (tcb(&net, id).local.port, tcb(&net, id).iss);
    from_peer(&mut net, 80, port, 0, iss.wrapping_add(1), tcp::RST | tcp::ACK, &[], &[]);
    assert_eq!(tcb(&net, id).state, tcp::State::Closed);
    let mut socket = net.sockets.take(id);
    assert_eq!(socket.connection_progress(), Err(Errno::ECONNREFUSED));
    net.sockets.put(id, socket);
    assert_eq!(
        InetSocket::connect(&mut net, id, Endpoint::new(peer_ip(), 80), NOW, CLOCK),
        Ok(())
    );
    assert_eq!(
        InetSocket::connect(&mut net, id, Endpoint::new(peer_ip(), 80), NOW, CLOCK),
        Err(Errno::EALREADY)
    );
}

// ---- segments outside the window -------------------------------------------

#[test]
fn a_reset_outside_the_window_leaves_the_connection_up() {
    let mut net = machine();
    let up = establish(&mut net, 8081, 40100, 2_000_000);
    from_peer(
        &mut net,
        up.port,
        8081,
        0xDEAD_BEEF,
        up.server_next,
        tcp::RST | tcp::ACK,
        &[],
        &[],
    );
    assert_eq!(tcb(&net, up.socket).state, tcp::State::Established);
    // Answering would tell a blind sender how close it got.
    assert!(sent(&mut net).is_empty());
}

#[test]
fn a_reset_at_the_next_byte_closes_the_connection() {
    let mut net = machine();
    let up = establish(&mut net, 8081, 40100, 2_000_000);
    from_peer(&mut net, up.port, 8081, up.client_next, up.server_next, tcp::RST, &[], &[]);
    assert_eq!(tcb(&net, up.socket).state, tcp::State::Closed);
    let mut buf = [0u8; 8];
    assert_eq!(
        InetSocket::receive_into(&mut net, up.socket, &mut buf, false, NOW),
        Err(Errno::ECONNRESET)
    );
}

#[test]
fn a_stray_connection_request_draws_an_acknowledgement() {
    let mut net = machine();
    let up = establish(&mut net, 8081, 40101, 3_000_000);
    from_peer(&mut net, up.port, 8081, 0x1234_5678, 0, tcp::SYN, &[], &[]);
    assert_eq!(tcb(&net, up.socket).state, tcp::State::Established);
    let frames = sent(&mut net);
    assert_eq!(frames.len(), 1);
    assert!(is_bare_ack(&frames[0], up.port, up.server_next, up.client_next));
}

#[test]
fn a_stale_finish_is_not_the_end_of_the_stream() {
    let mut net = machine();
    let up = establish(&mut net, 8081, 40102, 1_000_000);
    from_peer(&mut net, up.port, 8081, 7, up.server_next, tcp::FIN | tcp::ACK, &[], &[]);
    assert!(!tcb(&net, up.socket).fin_received);
    assert_eq!(tcb(&net, up.socket).state, tcp::State::Established);
    let frames = sent(&mut net);
    assert_eq!(frames.len(), 1);
    assert!(is_bare_ack(&frames[0], up.port, up.server_next, up.client_next));
}

/// The one case where a repeated connection request is not an attack: our
/// answer was lost, and the handshake has to carry on.
#[test]
fn a_repeated_connection_request_is_answered_again() {
    let mut net = machine();
    listening(&mut net, unspecified(), 8081, 4);
    from_peer(&mut net, 40103, 8081, 4_000_000, 0, tcp::SYN, &[], &[]);
    let first = sent(&mut net);
    from_peer(&mut net, 40103, 8081, 4_000_000, 0, tcp::SYN, &[], &[]);
    let again = sent(&mut net);
    let first = tcp::Segment::parse(&first[0][34..]).unwrap();
    let again = tcp::Segment::parse(&again[0][34..]).unwrap();
    assert_eq!(first.flags, tcp::SYN | tcp::ACK);
    assert_eq!(again.flags, tcp::SYN | tcp::ACK);
    assert_eq!(first.sequence, again.sequence);
    assert_eq!(again.acknowledgement, 4_000_001);
}

// ---- what a link does to segments ------------------------------------------

#[test]
fn a_segment_delivered_twice_is_taken_once() {
    let mut net = machine();
    let up = establish(&mut net, 8085, 40500, 11_000_000);
    for _ in 0..2 {
        from_peer(
            &mut net,
            up.port,
            8085,
            up.client_next,
            up.server_next,
            tcp::PSH | tcp::ACK,
            &[],
            b"twelve bytes",
        );
    }
    assert_eq!(tcb(&net, up.socket).received.len(), 12);
    let frames = sent(&mut net);
    assert_eq!(frames.len(), 2);
    for frame in &frames {
        assert!(is_bare_ack(frame, up.port, up.server_next, up.client_next + 12));
    }
}

#[test]
fn a_damaged_segment_is_neither_taken_nor_answered() {
    let mut net = machine();
    let up = establish(&mut net, 8085, 40501, 12_000_000);
    let good = segment(
        up.port,
        8085,
        up.client_next,
        up.server_next,
        tcp::PSH | tcp::ACK,
        64240,
        &[],
        b"damaged",
        peer_ip(),
        our_ip(),
    );
    let mut damaged = good.clone();
    damaged[16] ^= 0x40;
    deliver_ip(&mut net, ip::PROTO_TCP, &damaged);
    assert_eq!(tcb(&net, up.socket).received.len(), 0);
    assert!(sent(&mut net).is_empty());
    deliver_ip(&mut net, ip::PROTO_TCP, &good);
    assert_eq!(tcb(&net, up.socket).received.len(), 7);
}

/// A segment past a gap is not taken; the answer names the missing byte.
#[test]
fn a_segment_past_a_gap_is_asked_for_again() {
    let mut net = machine();
    let up = establish(&mut net, 8086, 40600, 14_000_000);
    from_peer(
        &mut net,
        up.port,
        8086,
        up.client_next + 10,
        up.server_next,
        tcp::PSH | tcp::ACK,
        &[],
        b"abcdefghij",
    );
    assert_eq!(tcb(&net, up.socket).received.len(), 0);
    let frames = sent(&mut net);
    assert_eq!(frames.len(), 1);
    assert!(is_bare_ack(&frames[0], up.port, up.server_next, up.client_next));
    from_peer(
        &mut net,
        up.port,
        8086,
        up.client_next,
        up.server_next,
        tcp::PSH | tcp::ACK,
        &[],
        b"1234567890abcdefghij",
    );
    let mut buf = [0u8; 64];
    let (n, _) = InetSocket::receive_into(&mut net, up.socket, &mut buf, false, NOW).unwrap();
    assert_eq!(&buf[..n], b"1234567890abcdefghij");
}

/// A long transfer over a link that loses one in seven of what is sent.
#[test]
fn a_transfer_over_a_link_that_loses_segments_arrives_whole() {
    let mut net = machine();
    let up = establish(&mut net, 8085, 40502, 13_000_000);
    let body: Vec<u8> = (0..96 * 1024u32).map(|i| (i % 251) as u8).collect();
    let mut stream: Vec<u8> = Vec::new();
    let mut wanted = up.server_next;
    let mut offset = 0;
    let mut carried = 0usize;
    let mut lost = 0usize;
    let mut now = NOW;
    for _ in 0..8192 {
        if stream.len() == body.len() {
            break;
        }
        while offset < body.len() {
            match InetSocket::send(&mut net, up.socket, &body[offset..], None, now) {
                Ok(0) | Err(_) => break,
                Ok(n) => offset += n,
            }
        }
        let frames = sent(&mut net);
        if frames.is_empty() {
            now = tcb(&net, up.socket).next_deadline();
            assert_ne!(now, u64::MAX);
            tcp_table::on_tick(&mut net, now);
            continue;
        }
        for frame in frames {
            carried += 1;
            if carried <= 96 && carried % 7 == 0 {
                lost += 1;
                continue;
            }
            let (_, packet) = ip::parse(&frame[14..]).unwrap();
            let parsed = tcp::Segment::parse(packet).unwrap();
            if parsed.sequence == wanted {
                stream.extend_from_slice(parsed.payload);
                wanted = wanted.wrapping_add(parsed.payload.len() as u32);
            }
            let answer = segment(
                up.port,
                8085,
                up.client_next,
                wanted,
                tcp::ACK,
                64240,
                &[],
                &[],
                peer_ip(),
                our_ip(),
            );
            let packet = datagram(0x4242, ip::PROTO_TCP, peer_ip(), our_ip(), &answer);
            let bytes = framed(OUR_MAC, PEER_MAC, ether::ETHERTYPE_IPV4, &packet);
            stack::receive(&mut net, &bytes, now, CLOCK);
        }
    }
    assert_eq!(stream, body);
    assert!(lost >= 9);
}

/// The timeout doubles each time it runs out, and the connection is given up
/// after the last try.
#[test]
fn an_unanswered_connection_times_out() {
    let mut net = machine();
    let up = establish(&mut net, 8087, 40700, 19_000_000);
    InetSocket::send(&mut net, up.socket, b"lost on the way", None, NOW).unwrap();
    sent(&mut net);
    assert_eq!(tcb(&net, up.socket).next_deadline(), NOW + tcp::INITIAL_RTO);
    let mut waits = Vec::new();
    let mut now = NOW;
    while tcb(&net, up.socket).state == tcp::State::Established {
        let deadline = tcb(&net, up.socket).next_deadline();
        waits.push(deadline - now);
        now = deadline;
        tcp_table::on_tick(&mut net, now);
    }
    assert_eq!(waits, vec![50, 100, 200, 400, 600, 600, 600, 600, 600]);
    assert_eq!(tcb(&net, up.socket).state, tcp::State::Closed);
    assert_eq!(tcb(&net, up.socket).error, Some(Errno::ETIMEDOUT));
}

// ---- a connection the program has closed -----------------------------------

#[test]
fn abandoned_connection() {
    let mut net = machine();
    let up = establish(&mut net, 8082, 40200, 5_000_000);
    socket_ops::close(&mut net, up.socket, NOW, CLOCK);
    sent(&mut net);
    let server_next = up.server_next.wrapping_add(1);
    from_peer(&mut net, up.port, 8082, up.client_next, server_next, tcp::ACK, &[], &[]);
    assert_eq!(tcb(&net, up.socket).state, tcp::State::FinWait2);
    sent(&mut net);
    let deadline = tcb(&net, up.socket).next_deadline();
    assert_ne!(deadline, u64::MAX);

    // The other end sends data at a socket no descriptor names.
    let payload = [0x5Au8; 1024];
    from_peer(
        &mut net,
        up.port,
        8082,
        up.client_next,
        server_next,
        tcp::PSH | tcp::ACK,
        &[],
        &payload,
    );
    assert_eq!(tcb(&net, up.socket).received.len(), 0);
    let frames = sent(&mut net);
    assert_eq!(frames.len(), 1);
    assert!(is_bare_ack(&frames[0], up.port, server_next, up.client_next + 1024));

    // And then the other end says nothing at all.
    tcp_table::on_tick(&mut net, deadline - 1);
    assert_eq!(socket::count(&net.sockets), 2);
    tcp_table::on_tick(&mut net, deadline);
    assert_eq!(socket::count(&net.sockets), 1);
    assert_eq!(socket::all(&net.sockets), vec![up.listener]);
}

#[test]
fn the_wait_state_holds_nothing() {
    let mut net = machine();
    let up = establish(&mut net, 8082, 40201, 6_000_000);
    socket_ops::close(&mut net, up.socket, NOW, CLOCK);
    sent(&mut net);
    from_peer(
        &mut net,
        up.port,
        8082,
        up.client_next,
        up.server_next.wrapping_add(1),
        tcp::FIN | tcp::ACK,
        &[],
        &[],
    );
    assert_eq!(tcb(&net, up.socket).state, tcp::State::TimeWait);
    assert_eq!(tcb(&net, up.socket).received.len(), 0);
    assert!(tcb(&net, up.socket).read_shutdown);
    assert_eq!(tcb(&net, up.socket).next_deadline(), NOW + tcp::TIME_WAIT_TICKS);
}

// ---- addresses this machine does not have ----------------------------------

#[test]
fn a_socket_on_the_loopback_address_is_not_on_the_network() {
    let mut net = machine();
    let loopback = Ipv4Addr::new(127, 0, 0, 1);
    listening(&mut net, loopback, 8083, 4);
    let request = segment(
        40300, 8083, 7_000_000, 0, tcp::SYN, 64240, &[], &[], peer_ip(), loopback,
    );
    deliver_between(&mut net, ip::PROTO_TCP, &request, peer_ip(), loopback);
    assert!(sent(&mut net).is_empty());
    assert_eq!(socket::count(&net.sockets), 1);
}

#[test]
fn foreign_addresses() {
    let mut net = machine();
    let subnet_broadcast = Ipv4Addr::new(10, 0, 2, 255);
    listening(&mut net, unspecified(), 8083, 4);
    for destination in [everyone(), subnet_broadcast] {
        for (port, sequence) in [(8083, 7_100_000), (9999, 7_200_000)] {
            let request = segment(
                40300, port, sequence, 0, tcp::SYN, 64240, &[], &[], peer_ip(), destination,
            );
            deliver_between(&mut net, ip::PROTO_TCP, &request, peer_ip(), destination);
            assert!(sent(&mut net).is_empty());
            assert_eq!(socket::count(&net.sockets), 1);
        }
        deliver_between(&mut net, ip::PROTO_ICMP, &echo_request(), peer_ip(), destination);
        assert!(sent(&mut net).is_empty());
    }

    // A frame claiming to come from us.
    let request = segment(
        40300, 8083, 7_300_000, 0, tcp::SYN, 64240, &[], &[], our_ip(), our_ip(),
    );
    deliver_between(&mut net, ip::PROTO_TCP, &request, our_ip(), our_ip());
    assert!(sent(&mut net).is_empty());
    assert_eq!(socket::count(&net.sockets), 1);

    // What a broadcast is still for.
    let id = datagram_socket(&mut net, unspecified(), 7779);
    let to_all = udp_datagram(5555, 7779, b"to everyone", peer_ip(), subnet_broadcast);
    deliver_between(&mut net, ip::PROTO_UDP, &to_all, peer_ip(), subnet_broadcast);
    let mut buf = [0u8; 64];
    let (n, _) = InetSocket::receive_into(&mut net, id, &mut buf, false, NOW).unwrap();
    assert_eq!(&buf[..n], b"to everyone");
}

/// Datagrams to this machine itself never reach the card.
#[test]
fn the_loopback_delivers_to_this_machine() {
    let mut net = machine();
    let id = datagram_socket(&mut net, unspecified(), 7780);
    let to = Endpoint::new(Ipv4Addr::new(127, 0, 0, 1), 7780);
    assert_eq!(InetSocket::send(&mut net, id, b"myself", Some(to), NOW), Ok(6));
    assert!(sent(&mut net).is_empty());
    assert!(link::loopback_pending(&net.link));
    stack::poll(&mut net, NOW, CLOCK);
    assert!(!link::loopback_pending(&net.link));
    let mut buf = [0u8; 16];
    let (n, from) = InetSocket::receive_into(&mut net, id, &mut buf, false, NOW).unwrap();
    assert_eq!(&buf[..n], b"myself");
    assert_eq!(from.port, 7780);
}

// ---- initial sequence numbers ----------------------------------------------

#[test]
fn a_starting_number_differs_between_connections_and_moves_with_the_clock() {
    let local = Endpoint::new(our_ip(), 8084);
    let remote = Endpoint::new(peer_ip(), 40400);
    let first = tcp::initial_sequence(local, remote, CLOCK, SECRET);
    let second =
        tcp::initial_sequence(local, Endpoint::new(peer_ip(), 40401), CLOCK, SECRET);
    let later = tcp::initial_sequence(local, remote, CLOCK + 4_000_000, SECRET);
    let elsewhere = tcp::initial_sequence(local, remote, CLOCK, SECRET + 1);
    assert_ne!(first, second);
    assert_ne!(first, elsewhere);
    assert_eq!(later.wrapping_sub(first), 1000);
}

/// One connection's number and what is published of the connections do not
/// give away another's.
#[test]
fn initial_sequence_numbers() {
    const SERVER_PORT: u16 = 8084;
    const PORTS: [u16; 4] = [40400, 40401, 40402, 40403];
    let salt = |remote_port: u16| {
        let salt =
            ((SERVER_PORT as u32) << 16) ^ (remote_port as u32) ^ peer_ip().0.rotate_left(13);
        salt.wrapping_mul(0x9E37_79B9)
    };
    let mut net = machine();
    listening(&mut net, unspecified(), SERVER_PORT, 8);
    let mut numbers = Vec::new();
    for port in PORTS {
        from_peer(&mut net, port, SERVER_PORT, 9_000_000, 0, tcp::SYN, &[], &[]);
        let frames = sent(&mut net);
        assert_eq!(frames.len(), 1);
        let (_, body) = ip::parse(&frames[0][14..]).unwrap();
        numbers.push(tcp::Segment::parse(body).unwrap().sequence);
    }
    let clock = numbers[0].wrapping_sub(salt(PORTS[0]));
    let mut predicted = 0;
    for (number, port) in numbers.iter().zip(PORTS).skip(1) {
        let guess = clock.wrapping_add(salt(port));
        if (number.wrapping_sub(guess) as i32).unsigned_abs() < 1 << 16 {
            predicted += 1;
        }
    }
    assert!(predicted <= 1);
}

/// What is read out of a full buffer is offered again a segment at a time.
#[test]
fn a_closed_window_opens_by_a_whole_segment() {
    let mut net = machine();
    let up = establish(&mut net, 8094, 44000, 1_000);
    let mut sequence = up.client_next;
    let block = [0x33u8; 1024];
    for _ in 0..tcp::RECEIVE_WINDOW / block.len() {
        from_peer(
            &mut net,
            up.port,
            8094,
            sequence,
            up.server_next,
            tcp::PSH | tcp::ACK,
            &[],
            &block,
        );
        sequence = sequence.wrapping_add(block.len() as u32);
    }
    sent(&mut net);
    assert_eq!(tcb(&net, up.socket).advertised_window(), 0);
    let mut buf = [0u8; 1000];
    InetSocket::receive_into(&mut net, up.socket, &mut buf, false, NOW).unwrap();
    assert_eq!(tcb(&net, up.socket).advertised_window(), 0);
    assert!(sent(&mut net).is_empty());
    InetSocket::receive_into(&mut net, up.socket, &mut buf, false, NOW).unwrap();
    assert_eq!(tcb(&net, up.socket).advertised_window(), 2000);
    let frames = sent(&mut net);
    assert_eq!(frames.len(), 1);
    assert!(is_bare_ack(&frames[0], up.port, up.server_next, sequence));
}

#[test]
fn sequence_numbers_compare_round_the_wrap() {
    assert!(tcp::seq_lt(0xFFFF_FFFF, 0));
    assert!(tcp::seq_gt(5, 0xFFFF_FFF0));
    assert!(tcp::seq_le(7, 7));
    assert!(!tcp::seq_lt(7, 7));
}

// ---- datagrams -------------------------------------------------------------

/// A datagram socket takes what arrives and sends what it is given.
#[test]
fn datagrams() {
    let mut net = machine();
    let id = datagram_socket(&mut net, unspecified(), 7777);
    let ping = udp_datagram(5555, 7777, b"ping", peer_ip(), our_ip());
    deliver_ip(&mut net, ip::PROTO_UDP, &ping);
    let mut buf = [0u8; 64];
    let (n, from) = InetSocket::receive_into(&mut net, id, &mut buf, false, NOW).unwrap();
    assert_eq!(&buf[..n], b"ping");
    assert_eq!(from, Endpoint::new(peer_ip(), 5555));
    assert!(sent(&mut net).is_empty());

    let to = Endpoint::new(peer_ip(), 5555);
    assert_eq!(InetSocket::send(&mut net, id, b"pong", Some(to), NOW), Ok(4));
    let frames = sent(&mut net);
    assert_eq!(frames.len(), 1);
    let pong = udp_datagram(7777, 5555, b"pong", our_ip(), peer_ip());
    let expected = expected_frame(
        ether::ETHERTYPE_IPV4,
        &datagram(identification_of(&frames[0]), ip::PROTO_UDP, our_ip(), peer_ip(), &pong),
    );
    assert_eq!(frames[0], expected);

    // A datagram for a port nothing is bound to is dropped in silence.
    let nobody = udp_datagram(5555, 7778, b"nobody", peer_ip(), our_ip());
    deliver_ip(&mut net, ip::PROTO_UDP, &nobody);
    assert!(sent(&mut net).is_empty());

    // Shutting the read side down throws away what is queued, and the count
    // of queued bytes goes with it.
    for text in [b"first datagram".as_slice(), b"second datagram".as_slice()] {
        let bytes = udp_datagram(5555, 7777, text, peer_ip(), our_ip());
        deliver_ip(&mut net, ip::PROTO_UDP, &bytes);
    }
    assert_eq!(udp_state(&net, id).queued_bytes(), 29);
    assert_eq!(InetSocket::shutdown(&mut net, id, true, false, NOW), Ok(()));
    assert_eq!(udp_state(&net, id).queued_bytes(), 0);
    let (n, _) = InetSocket::receive_into(&mut net, id, &mut buf, false, NOW).unwrap();
    assert_eq!(n, 0);
    let later = udp_datagram(5555, 7777, b"later", peer_ip(), our_ip());
    deliver_ip(&mut net, ip::PROTO_UDP, &later);
    assert_eq!(udp_state(&net, id).queued_bytes(), 5);
}

#[test]
fn a_full_datagram_queue_drops_its_oldest() {
    let mut state = udp::UdpState::new();
    let from = Endpoint::new(peer_ip(), 5555);
    for i in 0..udp::QUEUE_LIMIT + 3 {
        state.enqueue(from, &[i as u8]);
    }
    assert_eq!(state.queued_bytes(), udp::QUEUE_LIMIT);
    let mut buf = [0u8; 4];
    assert_eq!(state.receive(&mut buf, true), Ok((1, from)));
    assert_eq!(buf[0], 3);
    assert_eq!(state.receive(&mut buf, false), Ok((1, from)));
    assert_eq!(state.receive(&mut buf, false), Ok((1, from)));
    assert_eq!(buf[0], 4);
}

#[test]
fn a_connected_datagram_socket_hears_only_its_peer() {
    let mut net = machine();
    let id = datagram_socket(&mut net, unspecified(), 7777);
    InetSocket::connect(&mut net, id, Endpoint::new(peer_ip(), 5555), NOW, CLOCK).unwrap();
    let stranger = udp_datagram(6666, 7777, b"no", peer_ip(), our_ip());
    deliver_ip(&mut net, ip::PROTO_UDP, &stranger);
    assert_eq!(udp_state(&net, id).queued_bytes(), 0);
    let friend = udp_datagram(5555, 7777, b"yes", peer_ip(), our_ip());
    deliver_ip(&mut net, ip::PROTO_UDP, &friend);
    assert_eq!(udp_state(&net, id).queued_bytes(), 3);
    assert_eq!(InetSocket::send(&mut net, id, b"back", None, NOW), Ok(4));
}

#[test]
fn a_datagram_with_nowhere_to_go_is_refused() {
    let mut net = machine();
    let id = datagram_socket(&mut net, unspecified(), 7777);
    assert_eq!(
        InetSocket::send(&mut net, id, b"x", None, NOW),
        Err(Errno::EDESTADDRREQ)
    );
    let to = Endpoint::new(peer_ip(), 5555);
    let long = vec![0u8; 70_000];
    assert_eq!(
        InetSocket::send(&mut net, id, &long, Some(to), NOW),
        Err(Errno::EMSGSIZE)
    );
    InetSocket::shutdown(&mut net, id, false, true, NOW).unwrap();
    assert_eq!(
        InetSocket::send(&mut net, id, b"x", Some(to), NOW),
        Err(Errno::EPIPE)
    );
}

// ---- ports -----------------------------------------------------------------

#[test]
fn a_port_is_bound_once() {
    let mut net = machine();
    let config = net.link.config;
    datagram_socket(&mut net, unspecified(), 7000);
    let second = net.sockets.create(false);
    assert_eq!(
        InetSocket::bind(&mut net.sockets, second, Endpoint::new(unspecified(), 7000), config),
        Err(Errno::EADDRINUSE)
    );
    assert_eq!(
        InetSocket::bind(
            &mut net.sockets,
            second,
            Endpoint::new(Ipv4Addr::new(10, 0, 2, 16), 7001),
            config
        ),
        Err(Errno::EADDRNOTAVAIL)
    );
    // A stream may have the number a datagram socket has.
    listening(&mut net, unspecified(), 7000, 1);
    InetSocket::bind_ephemeral(&mut net.sockets, second, config).unwrap();
    assert_eq!(
        net.sockets.get(second).unwrap().local_endpoint().port,
        socket::EPHEMERAL_FIRST
    );
    assert_eq!(
        InetSocket::bind(&mut net.sockets, second, Endpoint::new(unspecified(), 7002), config),
        Err(Errno::EINVAL)
    );
}

#[test]
fn an_ephemeral_port_that_is_taken_is_passed_over() {
    let mut net = machine();
    datagram_socket(&mut net, unspecified(), socket::EPHEMERAL_FIRST);
    assert_eq!(
        socket::allocate_port(&mut net.sockets, false),
        Ok(socket::EPHEMERAL_FIRST + 1)
    );
    assert_eq!(socket::allocate_port(&mut net.sockets, true), Ok(socket::EPHEMERAL_FIRST + 2));
}

#[test]
fn a_listener_drops_what_its_backlog_has_no_room_for() {
    let mut net = machine();
    listening(&mut net, unspecified(), 8090, 2);
    for i in 0..3u16 {
        from_peer(&mut net, 41000 + i, 8090, 100, 0, tcp::SYN, &[], &[]);
    }
    assert_eq!(sent(&mut net).len(), 2);
    assert_eq!(socket::count(&net.sockets), 3);
}

#[test]
fn closing_a_listener_resets_what_nobody_accepted() {
    let mut net = machine();
    let listener = listening(&mut net, unspecified(), 8090, 2);
    from_peer(&mut net, 41000, 8090, 100, 0, tcp::SYN, &[], &[]);
    let answer = sent(&mut net);
    let iss = tcp::Segment::parse(&answer[0][34..]).unwrap().sequence;
    from_peer(&mut net, 41000, 8090, 101, iss.wrapping_add(1), tcp::ACK, &[], &[]);
    sent(&mut net);
    socket_ops::close(&mut net, listener, NOW, CLOCK);
    let frames = sent(&mut net);
    assert_eq!(frames.len(), 1);
    let (_, body) = ip::parse(&frames[0][14..]).unwrap();
    assert_ne!(tcp::Segment::parse(body).unwrap().flags & tcp::RST, 0);
    assert!(socket::is_empty(&net.sockets));
}

#[test]
fn what_a_socket_says_of_itself() {
    let mut net = machine();
    let stream = net.sockets.create(true);
    assert_eq!(net.sockets.get(stream).unwrap().peer_endpoint(), Err(Errno::ENOTCONN));
    assert!(!net.sockets.get(stream).unwrap().is_detached());
    let mut buf = [0u8; 8];
    assert_eq!(
        InetSocket::send(&mut net, stream, b"x", None, NOW),
        Err(Errno::ENOTCONN)
    );
    let listener = listening(&mut net, unspecified(), 8091, 1);
    assert_eq!(
        InetSocket::receive_into(&mut net, listener, &mut buf, false, NOW),
        Err(Errno::ENOTCONN)
    );
    let datagram = datagram_socket(&mut net, unspecified(), 7000);
    assert_eq!(
        InetSocket::listen(&mut net.sockets, datagram, 1, None),
        Err(Errno::EOPNOTSUPP)
    );
    assert_eq!(
        InetSocket::receive_into(&mut net, datagram, &mut buf, false, NOW),
        Err(Errno::EAGAIN)
    );
    assert_eq!(socket_ops::wait_for(true, true, 0), Waiting::Ready);
}

#[test]
fn a_read_waits_only_where_it_may() {
    let mut net = machine();
    let up = establish(&mut net, 8092, 42000, 1);
    let mut buf = [0u8; 8];
    let blocked =
        InetSocket::try_read(&mut net, up.socket, &mut buf, false, false, NOW, CLOCK);
    assert!(matches!(blocked, Attempt::Wait));
    let refused = InetSocket::try_read(&mut net, up.socket, &mut buf, true, false, NOW, CLOCK);
    assert!(matches!(refused, Attempt::Done(Err(Errno::EAGAIN))));
    InetSocket::shutdown(&mut net, up.socket, false, true, NOW).unwrap();
    let (written, signalled) = InetSocket::try_write(
        &mut net, up.socket, b"x", false, None, true, NOW, CLOCK,
    );
    assert!(matches!(written, Attempt::Done(Err(Errno::EPIPE))));
    assert!(signalled);
}

/// A socket is readable exactly where a read would not be told to come back.
#[test]
fn a_read_side_shut_down_is_readable() {
    let mut net = machine();
    let up = establish(&mut net, 8093, 42001, 1);
    let id = datagram_socket(&mut net, unspecified(), 7778);
    let mut buf = [0u8; 8];
    for socket in [up.socket, id] {
        assert!(!InetSocket::readable(&net.sockets, socket));
        assert_eq!(
            InetSocket::receive_into(&mut net, socket, &mut buf, false, NOW).err(),
            Some(Errno::EAGAIN)
        );
        InetSocket::shutdown(&mut net, socket, true, false, NOW).unwrap();
        assert!(InetSocket::readable(&net.sockets, socket));
        let read = InetSocket::receive_into(&mut net, socket, &mut buf, false, NOW).unwrap();
        assert_eq!(read.0, 0);
    }
}

/// A frame the card does not take is its sender's to know of, where the sender
/// is a datagram socket. A stream sends again.
#[test]
fn a_frame_the_card_refuses_is_reported() {
    let mut net = machine();
    let up = establish(&mut net, 8094, 42002, 1);
    let id = datagram_socket(&mut net, unspecified(), 7779);
    let to = Some(Endpoint::new(peer_ip(), 5555));
    let result = InetSocket::send(&mut net, id, b"lost", to, NOW);
    assert_eq!(result, Ok(4));
    assert_eq!(sent(&mut net).len(), 1);
    assert_eq!(InetSocket::send_answered(&net.sockets, id, result, None), Ok(4));
    assert_eq!(
        InetSocket::send_answered(&net.sockets, id, result, Some(Errno::EIO)),
        Err(Errno::EIO)
    );
    let (settled, signalled) = InetSocket::settle_write(
        &mut net, id, result, Some(Errno::EIO), false, true, NOW, CLOCK,
    );
    assert!(matches!(settled, Attempt::Done(Err(Errno::EIO))));
    assert!(!signalled);
    // One that failed already fails for its own reason.
    let refused = InetSocket::send(&mut net, id, b"x", None, NOW);
    assert!(sent(&mut net).is_empty());
    assert_eq!(
        InetSocket::send_answered(&net.sockets, id, refused, Some(Errno::EIO)),
        Err(Errno::EDESTADDRREQ)
    );
    let result = InetSocket::send(&mut net, up.socket, b"kept", None, NOW);
    assert_eq!(
        InetSocket::send_answered(&net.sockets, up.socket, result, Some(Errno::EIO)),
        Ok(4)
    );
}

// ---- configurations --------------------------------------------------------

/// What `Config::new` takes and what it refuses.
#[test]
fn configurations() {
    assert!(Config::new(our_ip(), netmask(), Some(peer_ip()), &[nameserver_ip()]).is_ok());
    for address in [
        unspecified(),
        everyone(),
        Ipv4Addr::new(127, 0, 0, 1),
        Ipv4Addr::new(224, 0, 0, 1),
        Ipv4Addr::new(10, 0, 2, 255),
        Ipv4Addr::new(10, 0, 2, 0),
    ] {
        assert!(Config::new(address, netmask(), None, &[]).is_err());
    }
    assert!(Config::new(our_ip(), Ipv4Addr::new(255, 0, 255, 0), None, &[]).is_err());
    assert!(Config::new(our_ip(), unspecified(), None, &[]).is_err());
    assert!(Config::new(our_ip(), netmask(), Some(Ipv4Addr::new(10, 0, 3, 1)), &[]).is_err());
    assert!(Config::new(our_ip(), netmask(), Some(our_ip()), &[]).is_err());
    let one = Ipv4Addr::new(1, 1, 1, 1);
    let eight = Ipv4Addr::new(8, 8, 8, 8);
    let servers =
        [unspecified(), nameserver_ip(), one, eight, Ipv4Addr::new(9, 9, 9, 9)];
    let config = Config::new(our_ip(), netmask(), None, &servers).unwrap();
    assert_eq!(config.nameservers(), vec![nameserver_ip(), one, eight]);
    assert_eq!(
        Config::class_netmask(Ipv4Addr::new(10, 1, 2, 3)),
        Ipv4Addr::new(255, 0, 0, 0)
    );
    assert_eq!(
        Config::class_netmask(Ipv4Addr::new(172, 16, 0, 1)),
        Ipv4Addr::new(255, 255, 0, 0)
    );
    assert_eq!(Config::class_netmask(Ipv4Addr::new(192, 168, 86, 57)), netmask());
}

#[test]
fn where_a_datagram_goes_next() {
    let config = test_config();
    assert_eq!(config.prefix_len(), 24);
    assert_eq!(config.broadcast(), Ipv4Addr::new(10, 0, 2, 255));
    assert!(config.on_link(Ipv4Addr::new(10, 0, 2, 200)));
    assert_eq!(config.next_hop(Ipv4Addr::new(10, 0, 2, 200)), Some(Ipv4Addr::new(10, 0, 2, 200)));
    assert_eq!(config.next_hop(Ipv4Addr::new(8, 8, 8, 8)), Some(peer_ip()));
    let alone = Config::new(our_ip(), netmask(), None, &[]).unwrap();
    assert_eq!(alone.next_hop(Ipv4Addr::new(8, 8, 8, 8)), None);
}

#[test]
fn the_resolver_file_names_each_server() {
    let text = String::from_utf8(resolver_file(&[nameserver_ip(), peer_ip()])).unwrap();
    let lines: Vec<&str> =
        text.lines().filter(|line| line.starts_with("nameserver")).collect();
    assert_eq!(lines, vec!["nameserver 10.0.2.3", "nameserver 10.0.2.2"]);
}

/// With no configuration, a socket reaches nothing but the broadcast address
/// and nothing but a broadcast reaches it.
#[test]
fn no_address() {
    const PORT: u16 = 7790;
    let mut net = machine();
    link::configure(&mut net.link, None);
    sent(&mut net);
    let id = datagram_socket(&mut net, unspecified(), PORT);
    assert_eq!(
        InetSocket::send(&mut net, id, b"hello", Some(Endpoint::new(peer_ip(), 5555)), NOW),
        Err(Errno::ENETUNREACH)
    );
    for address in [peer_ip(), everyone()] {
        let stream = net.sockets.create(true);
        assert_eq!(
            InetSocket::connect(&mut net, stream, Endpoint::new(address, 80), NOW, CLOCK),
            Err(Errno::ENETUNREACH)
        );
    }
    assert!(sent(&mut net).is_empty());
    let bound = net.sockets.create(false);
    assert_eq!(
        InetSocket::bind(&mut net.sockets, bound, Endpoint::new(our_ip(), PORT + 1), None),
        Err(Errno::EADDRNOTAVAIL)
    );

    let to_all = Endpoint::new(everyone(), 5555);
    assert_eq!(InetSocket::send(&mut net, id, b"anyone?", Some(to_all), NOW), Ok(7));
    let frames = sent(&mut net);
    assert_eq!(frames.len(), 1);
    let body = udp_datagram(PORT, 5555, b"anyone?", unspecified(), everyone());
    let packet =
        datagram(identification_of(&frames[0]), ip::PROTO_UDP, unspecified(), everyone(), &body);
    assert_eq!(frames[0], framed([0xFF; 6], OUR_MAC, ether::ETHERTYPE_IPV4, &packet));

    let to_address = udp_datagram(5555, PORT, b"to an address", peer_ip(), our_ip());
    deliver_ip(&mut net, ip::PROTO_UDP, &to_address);
    assert_eq!(udp_state(&net, id).queued_bytes(), 0);
    let subnet_broadcast = Ipv4Addr::new(10, 0, 2, 255);
    let to_subnet = udp_datagram(5555, PORT, b"to a subnet", peer_ip(), subnet_broadcast);
    deliver_between(&mut net, ip::PROTO_UDP, &to_subnet, peer_ip(), subnet_broadcast);
    assert_eq!(udp_state(&net, id).queued_bytes(), 0);
    let to_everyone = udp_datagram(5555, PORT, b"to everyone", peer_ip(), everyone());
    deliver_between(&mut net, ip::PROTO_UDP, &to_everyone, peer_ip(), everyone());
    assert_eq!(udp_state(&net, id).queued_bytes(), 11);

    let question = arp_packet(1, PEER_MAC, peer_ip(), [0; 6], our_ip());
    deliver(&mut net, ether::ETHERTYPE_ARP, &question);
    deliver_ip(&mut net, ip::PROTO_ICMP, &echo_request());
    assert!(sent(&mut net).is_empty());
}

#[test]
fn an_address_taken_away_from_under_a_socket() {
    let mut net = machine();
    let id = datagram_socket(&mut net, our_ip(), 7792);
    let other =
        Config::new(Ipv4Addr::new(10, 0, 2, 16), netmask(), Some(peer_ip()), &[]).unwrap();
    link::configure(&mut net.link, Some(other));
    sent(&mut net);
    assert_eq!(
        InetSocket::send(&mut net, id, b"stale", Some(Endpoint::new(peer_ip(), 5555)), NOW),
        Err(Errno::EADDRNOTAVAIL)
    );
    assert!(sent(&mut net).is_empty());
}

// ---- frames that go missing on purpose -------------------------------------

#[test]
fn one_frame_in_three_goes_missing() {
    let mut counter = 0;
    let mut gone = Vec::new();
    for i in 0..9 {
        let (missing, next) = link::lost(3, counter);
        counter = next;
        if missing {
            gone.push(i);
        }
    }
    assert_eq!(gone, vec![2, 5, 8]);
    assert!(!link::lost(0, 2).0);
}

#[test]
fn nothing_is_sent_without_a_card() {
    let mut net = Net::new(SECRET);
    assert_eq!(link::transmit(&mut net.link, vec![0; 60]), Err(Errno::ENODEV));
    assert!(sent(&mut net).is_empty());
}

/// The clock drives what waits on it, and says when it is next wanted.
#[test]
fn the_next_deadline_is_the_soonest() {
    let mut net = machine();
    let idle = stack::next_deadline(&net, NOW);
    let up = establish(&mut net, 8093, 43000, 1);
    InetSocket::send(&mut net, up.socket, b"waiting", None, NOW).unwrap();
    assert_eq!(stack::next_deadline(&net, NOW), NOW + tcp::INITIAL_RTO);
    assert!(idle > NOW + tcp::INITIAL_RTO);
    sent(&mut net);
    stack::tick(&mut net, NOW + tcp::INITIAL_RTO, CLOCK);
    assert_eq!(sent(&mut net).len(), 1);
}
