//! The DHCP client against a server played by hand: one lease from the first
//! discover to its end, refusals, malformed messages, and retransmission. The
//! client never reads the clock itself; these tests say what time it is.

use kernel::net::arp;
use kernel::net::config::Config;
use kernel::net::dhcp::{self, Client, Draws, Reply, LAST_POLL};
use kernel::net::dhcp_client::DRAWS;
use kernel::net::ether;
use kernel::net::ip::{self, Ipv4Addr};
use kernel::net::link;
use kernel::net::socket;
use kernel::net::stack::{self, Net};

const OUR_MAC: [u8; 6] = [0x52, 0x54, 0x00, 0x12, 0x34, 0x56];
const PEER_MAC: [u8; 6] = [0x52, 0x55, 0x0A, 0x00, 0x02, 0x02];
const CLOCK: u64 = 10_000_000_000;
const START: u64 = 1_000_000;
const HZ: u64 = dhcp::HZ;
/// A lease time option of one day.
const A_DAY: [u8; 6] = [51, 4, 0x00, 0x01, 0x51, 0x80];
/// Where the DHCP message starts in a frame: after the Ethernet, IPv4 and UDP
/// headers.
const DHCP_AT: usize = 14 + 20 + 8;

fn our_ip() -> Ipv4Addr {
    Ipv4Addr::new(10, 0, 2, 15)
}

fn peer_ip() -> Ipv4Addr {
    Ipv4Addr::new(10, 0, 2, 2)
}

fn unspecified() -> Ipv4Addr {
    Ipv4Addr::new(0, 0, 0, 0)
}

fn everyone() -> Ipv4Addr {
    Ipv4Addr::new(255, 255, 255, 255)
}

fn netmask() -> Ipv4Addr {
    Ipv4Addr::new(255, 255, 255, 0)
}

fn framed(to: [u8; 6], from: [u8; 6], ethertype: u16, payload: &[u8]) -> Vec<u8> {
    let mut out = Vec::new();
    out.extend_from_slice(&to);
    out.extend_from_slice(&from);
    out.extend_from_slice(&ethertype.to_be_bytes());
    out.extend_from_slice(payload);
    while out.len() < 60 {
        out.push(0);
    }
    out
}

fn datagram(
    identification: u16,
    protocol: u8,
    source: Ipv4Addr,
    destination: Ipv4Addr,
    payload: &[u8],
) -> Vec<u8> {
    let mut out = vec![0x45, 0x00];
    out.extend_from_slice(&((20 + payload.len()) as u16).to_be_bytes());
    out.extend_from_slice(&identification.to_be_bytes());
    out.extend_from_slice(&[0x40, 0x00, 64, protocol, 0, 0]);
    out.extend_from_slice(&source.to_be_bytes());
    out.extend_from_slice(&destination.to_be_bytes());
    let checksum = ip::checksum(&out);
    out[10..12].copy_from_slice(&checksum.to_be_bytes());
    out.extend_from_slice(payload);
    out
}

fn udp_datagram(
    source_port: u16,
    destination_port: u16,
    payload: &[u8],
    source: Ipv4Addr,
    destination: Ipv4Addr,
) -> Vec<u8> {
    let length = 8 + payload.len();
    let mut out = Vec::new();
    out.extend_from_slice(&source_port.to_be_bytes());
    out.extend_from_slice(&destination_port.to_be_bytes());
    out.extend_from_slice(&(length as u16).to_be_bytes());
    out.extend_from_slice(&[0, 0]);
    out.extend_from_slice(payload);
    let pseudo = ip::pseudo_sum(source, destination, ip::PROTO_UDP, length);
    let mut checksum = ip::fold(ip::sum(&out, pseudo));
    if checksum == 0 {
        checksum = 0xFFFF;
    }
    out[6..8].copy_from_slice(&checksum.to_be_bytes());
    out
}

fn identification_of(frame: &[u8]) -> u16 {
    u16::from_be_bytes([frame[18], frame[19]])
}

fn lease_dns() -> Ipv4Addr {
    Ipv4Addr::new(10, 0, 2, 53)
}

/// A machine with a card and a link, and no address.
fn machine() -> Net {
    let mut net = Net::new(7);
    link::attach(&mut net.link, OUR_MAC);
    net.link.up = true;
    net
}

fn sent(net: &mut Net) -> Vec<Vec<u8>> {
    let frames = net.link.outbox.clone();
    net.link.outbox.clear();
    frames
}

/// Random numbers for one turn of the client.
fn random(seed: u64) -> Draws {
    let mut state = seed.wrapping_mul(0x9E37_79B9_7F4A_7C15) | 1;
    let mut values = Vec::new();
    for _ in 0..DRAWS {
        state ^= state << 13;
        state ^= state >> 7;
        state ^= state << 17;
        values.push(state);
    }
    Draws::new(values)
}

fn run(client: &mut Client, net: &mut Net, now: u64) {
    let mut draws = random(now);
    client.run(net, now, &mut draws);
}

fn new_client(net: &mut Net, nameserver: Option<Ipv4Addr>) -> Client {
    match Client::new(net, OUR_MAC, nameserver, START) {
        Ok(client) => client,
        Err(_) => panic!("a client on port 68"),
    }
}

fn arp_reply() -> Vec<u8> {
    let mut packet = vec![0x00, 0x01, 0x08, 0x00, 6, 4, 0x00, 0x02];
    packet.extend_from_slice(&PEER_MAC);
    packet.extend_from_slice(&peer_ip().to_be_bytes());
    packet.extend_from_slice(&OUR_MAC);
    packet.extend_from_slice(&our_ip().to_be_bytes());
    packet
}

fn expected_broadcast(payload: &[u8]) -> Vec<u8> {
    framed([0xFF; 6], OUR_MAC, ether::ETHERTYPE_IPV4, payload)
}

/// A message as a DHCP server sends one, fields written out one by one.
fn bootp_reply(xid: u32, chaddr: [u8; 6], yiaddr: Ipv4Addr, options: &[u8]) -> Vec<u8> {
    let mut out = vec![2, 1, 6, 0];
    out.extend_from_slice(&xid.to_be_bytes());
    out.extend_from_slice(&[0, 0, 0x80, 0x00]);
    out.extend_from_slice(&[0; 4]);
    out.extend_from_slice(&yiaddr.to_be_bytes());
    out.extend_from_slice(&[0; 8]);
    out.extend_from_slice(&chaddr);
    out.extend_from_slice(&[0; 10]);
    out.extend_from_slice(&[0; 192]);
    out.extend_from_slice(&[99, 130, 83, 99]);
    out.extend_from_slice(options);
    out
}

/// A server's options: the message type, the server, the netmask, the router
/// and the name server, then `extra`, then the end.
fn server_options(kind: u8, extra: &[u8]) -> Vec<u8> {
    let mut options = vec![53, 1, kind];
    options.extend_from_slice(&[54, 4, 10, 0, 2, 2]);
    options.extend_from_slice(&[1, 4, 255, 255, 255, 0]);
    options.extend_from_slice(&[3, 4, 10, 0, 2, 2]);
    options.extend_from_slice(&[6, 4, 10, 0, 2, 53]);
    options.extend_from_slice(extra);
    options.push(255);
    options
}

/// A message as this client should have sent it, padded to 300 bytes.
fn bootp_request(xid: u32, secs: u16, flags: u16, ciaddr: Ipv4Addr, options: &[u8]) -> Vec<u8> {
    let mut out = vec![1, 1, 6, 0];
    out.extend_from_slice(&xid.to_be_bytes());
    out.extend_from_slice(&secs.to_be_bytes());
    out.extend_from_slice(&flags.to_be_bytes());
    out.extend_from_slice(&ciaddr.to_be_bytes());
    out.extend_from_slice(&[0; 12]);
    out.extend_from_slice(&OUR_MAC);
    out.extend_from_slice(&[0; 10]);
    out.extend_from_slice(&[0; 192]);
    out.extend_from_slice(&[99, 130, 83, 99]);
    out.extend_from_slice(options);
    while out.len() < 300 {
        out.push(0);
    }
    out
}

/// The options this client should send.
fn client_options(kind: u8, requested: Option<Ipv4Addr>, server: Option<Ipv4Addr>) -> Vec<u8> {
    let mut options = vec![53, 1, kind, 61, 7, 1];
    options.extend_from_slice(&OUR_MAC);
    if let Some(requested) = requested {
        options.extend_from_slice(&[50, 4]);
        options.extend_from_slice(&requested.to_be_bytes());
    }
    if let Some(server) = server {
        options.extend_from_slice(&[54, 4]);
        options.extend_from_slice(&server.to_be_bytes());
    }
    options.extend_from_slice(&[55, 6, 1, 3, 6, 51, 58, 59]);
    options.push(255);
    options
}

fn xid_of(frame: &[u8]) -> u32 {
    u32::from_be_bytes([
        frame[DHCP_AT + 4],
        frame[DHCP_AT + 5],
        frame[DHCP_AT + 6],
        frame[DHCP_AT + 7],
    ])
}

/// The message type of a message this client sent, which is its first option.
fn kind_of(frame: &[u8]) -> u8 {
    frame[DHCP_AT + 242]
}

/// A server's message to port 68, broadcast.
fn deliver_broadcast(net: &mut Net, message: &[u8], now: u64) {
    let body = udp_datagram(67, 68, message, peer_ip(), everyone());
    let packet = datagram(0x4242, ip::PROTO_UDP, peer_ip(), everyone(), &body);
    let bytes = framed([0xFF; 6], PEER_MAC, ether::ETHERTYPE_IPV4, &packet);
    stack::receive(net, &bytes, now, CLOCK);
}

/// A server's message to port 68 at this machine's address, which is how a
/// renewal is answered.
fn deliver_to_us(net: &mut Net, message: &[u8], now: u64) {
    let body = udp_datagram(67, 68, message, peer_ip(), our_ip());
    let packet = datagram(0x4242, ip::PROTO_UDP, peer_ip(), our_ip(), &body);
    let bytes = framed(OUR_MAC, PEER_MAC, ether::ETHERTYPE_IPV4, &packet);
    stack::receive(net, &bytes, now, CLOCK);
}

fn deliver_arp_reply(net: &mut Net, now: u64) {
    let bytes = framed(OUR_MAC, PEER_MAC, ether::ETHERTYPE_ARP, &arp_reply());
    stack::receive(net, &bytes, now, CLOCK);
}

/// What the server hands out.
fn leased_config() -> Config {
    Config::new(our_ip(), netmask(), Some(peer_ip()), &[lease_dns()]).unwrap()
}

/// Take a client through discover, offer, request and a day's acknowledgement.
fn lease_up(client: &mut Client, net: &mut Net) -> u32 {
    run(client, net, START);
    let xid = xid_of(&sent(net)[0]);
    let offer = bootp_reply(xid, OUR_MAC, our_ip(), &server_options(dhcp::OFFER, &A_DAY));
    deliver_broadcast(net, &offer, START + 1);
    run(client, net, START + 1);
    assert_eq!(sent(net).len(), 1);
    let granted = bootp_reply(xid, OUR_MAC, our_ip(), &server_options(dhcp::ACK, &A_DAY));
    deliver_broadcast(net, &granted, START + 2);
    run(client, net, START + 2);
    assert!(client.lease().is_some());
    xid
}

/// One lease from the first discover to its end: taken, renewed with the
/// server that granted it, rebound with anyone, and given up.
#[test]
fn dhcp_exchange() {
    let mut net = machine();
    let mut client = new_client(&mut net, None);

    // ---- the discover ----
    run(&mut client, &mut net, START);
    let frames = sent(&mut net);
    assert_eq!(frames.len(), 1);
    let xid = xid_of(&frames[0]);
    let options = client_options(dhcp::DISCOVER, None, None);
    let message = bootp_request(xid, 0, 0x8000, unspecified(), &options);
    let body = udp_datagram(68, 67, &message, unspecified(), everyone());
    let id = identification_of(&frames[0]);
    assert_eq!(
        frames[0],
        expected_broadcast(&datagram(id, ip::PROTO_UDP, unspecified(), everyone(), &body))
    );
    let wait = client.next_deadline() - START;
    assert!((3 * HZ..=5 * HZ).contains(&wait));

    // ---- answers that are not this client's ----
    let offer = server_options(dhcp::OFFER, &A_DAY);
    deliver_broadcast(&mut net, &bootp_reply(xid ^ 1, OUR_MAC, our_ip(), &offer), START + 1);
    deliver_broadcast(&mut net, &bootp_reply(xid, PEER_MAC, our_ip(), &offer), START + 1);
    run(&mut client, &mut net, START + 1);
    assert!(sent(&mut net).is_empty());

    // ---- the offer, and the request for it ----
    deliver_broadcast(&mut net, &bootp_reply(xid, OUR_MAC, our_ip(), &offer), START + 2);
    run(&mut client, &mut net, START + 2);
    let frames = sent(&mut net);
    assert_eq!(frames.len(), 1);
    let options = client_options(dhcp::REQUEST, Some(our_ip()), Some(peer_ip()));
    let message = bootp_request(xid, 0, 0x8000, unspecified(), &options);
    let body = udp_datagram(68, 67, &message, unspecified(), everyone());
    let id = identification_of(&frames[0]);
    assert_eq!(
        frames[0],
        expected_broadcast(&datagram(id, ip::PROTO_UDP, unspecified(), everyone(), &body))
    );

    // ---- the acknowledgement ----
    let granted = server_options(dhcp::ACK, &A_DAY);
    deliver_broadcast(&mut net, &bootp_reply(xid, OUR_MAC, our_ip(), &granted), START + 3);
    run(&mut client, &mut net, START + 3);
    assert!(sent(&mut net).is_empty());
    assert_eq!(link::config(&net.link), Some(leased_config()));
    let requested_at = START + 2;
    let lease = client.lease().unwrap();
    assert_eq!(lease.renew_at, requested_at + 43_200 * HZ);
    assert_eq!(lease.rebind_at, requested_at + 75_600 * HZ);
    assert_eq!(lease.expires_at, requested_at + 86_400 * HZ);
    let text = String::from_utf8(net.link.resolver.clone().unwrap()).unwrap();
    let servers: Vec<&str> =
        text.lines().filter(|line| line.starts_with("nameserver")).collect();
    assert_eq!(servers, vec!["nameserver 10.0.2.53"]);

    // ---- T1: renewing with the server that granted it ----
    let t1 = requested_at + 43_200 * HZ;
    run(&mut client, &mut net, t1 - 1);
    assert!(sent(&mut net).is_empty());
    run(&mut client, &mut net, t1);
    // The configuration changed, which forgot every hardware address, so the
    // renewal to the server waits on the server's.
    let frames = sent(&mut net);
    assert_eq!(frames.len(), 1);
    assert_eq!(u16::from_be_bytes([frames[0][12], frames[0][13]]), ether::ETHERTYPE_ARP);
    deliver_arp_reply(&mut net, t1);
    let frames = sent(&mut net);
    assert_eq!(frames.len(), 1);
    let renew_xid = xid_of(&frames[0]);
    let options = client_options(dhcp::REQUEST, None, None);
    let message = bootp_request(renew_xid, 0, 0, our_ip(), &options);
    let body = udp_datagram(68, 67, &message, our_ip(), peer_ip());
    let id = identification_of(&frames[0]);
    let packet = datagram(id, ip::PROTO_UDP, our_ip(), peer_ip(), &body);
    assert_eq!(frames[0], framed(PEER_MAC, OUR_MAC, ether::ETHERTYPE_IPV4, &packet));
    assert_ne!(renew_xid, xid);

    // 1200 seconds, T1 at 600 and T2 at 900.
    let shorter = [51, 4, 0, 0, 0x04, 0xB0, 58, 4, 0, 0, 0x02, 0x58, 59, 4, 0, 0, 0x03, 0x84];
    let renewed = server_options(dhcp::ACK, &shorter);
    deliver_to_us(&mut net, &bootp_reply(renew_xid, OUR_MAC, our_ip(), &renewed), t1 + 1);
    run(&mut client, &mut net, t1 + 1);
    assert!(sent(&mut net).is_empty());
    assert_eq!(link::config(&net.link), Some(leased_config()));
    let lease = client.lease().unwrap();
    assert_eq!(lease.renew_at, t1 + 600 * HZ);
    assert_eq!(lease.rebind_at, t1 + 900 * HZ);
    assert_eq!(lease.expires_at, t1 + 1200 * HZ);

    // ---- T2: rebinding with anyone ----
    run(&mut client, &mut net, t1 + 600 * HZ);
    assert_eq!(sent(&mut net).len(), 1);
    run(&mut client, &mut net, t1 + 900 * HZ);
    let frames = sent(&mut net);
    assert_eq!(frames.len(), 1);
    let rebind_xid = xid_of(&frames[0]);
    let options = client_options(dhcp::REQUEST, None, None);
    let message = bootp_request(rebind_xid, 0, 0, our_ip(), &options);
    let body = udp_datagram(68, 67, &message, our_ip(), everyone());
    let id = identification_of(&frames[0]);
    assert_eq!(
        frames[0],
        expected_broadcast(&datagram(id, ip::PROTO_UDP, our_ip(), everyone(), &body))
    );

    // ---- the end of the lease ----
    let end = t1 + 1200 * HZ;
    run(&mut client, &mut net, end - 1);
    assert!(link::config(&net.link).is_some());
    sent(&mut net);
    run(&mut client, &mut net, end);
    assert!(link::config(&net.link).is_none());
    assert!(client.lease().is_none());
    let frames = sent(&mut net);
    assert_eq!(frames.len(), 1);
    assert_eq!(kind_of(&frames[0]), dhcp::DISCOVER);
    assert_eq!(&frames[0][26..30], &[0, 0, 0, 0]);
    client.stop(&mut net, end, CLOCK);
    assert!(socket::is_empty(&net.sockets));
}

const REFUSAL: [u8; 10] = [53, 1, dhcp::NAK, 54, 4, 10, 0, 2, 2, 255];

/// A refusal in answer to the first request takes nothing, and the client asks
/// again after a wait.
#[test]
fn dhcp_refusal() {
    let mut net = machine();
    let mut client = new_client(&mut net, None);
    run(&mut client, &mut net, START);
    let xid = xid_of(&sent(&mut net)[0]);
    let offer = server_options(dhcp::OFFER, &A_DAY);
    deliver_broadcast(&mut net, &bootp_reply(xid, OUR_MAC, our_ip(), &offer), START + 1);
    run(&mut client, &mut net, START + 1);
    sent(&mut net);
    deliver_broadcast(&mut net, &bootp_reply(xid, OUR_MAC, unspecified(), &REFUSAL), START + 2);
    run(&mut client, &mut net, START + 2);
    assert!(link::config(&net.link).is_none());
    assert!(client.lease().is_none());
    assert!(sent(&mut net).is_empty());
    let wait = client.next_deadline() - (START + 2);
    assert!((3 * HZ..=5 * HZ).contains(&wait));
    let next = client.next_deadline();
    run(&mut client, &mut net, next);
    let frames = sent(&mut net);
    assert_eq!(frames.len(), 1);
    assert_eq!(kind_of(&frames[0]), dhcp::DISCOVER);
    assert_ne!(xid_of(&frames[0]), xid);
}

/// A refusal in answer to a renewal takes the address away.
#[test]
fn a_refused_renewal_takes_the_address_away() {
    let mut net = machine();
    let mut client = new_client(&mut net, None);
    lease_up(&mut client, &mut net);
    assert_eq!(link::config(&net.link), Some(leased_config()));
    let t1 = client.lease().unwrap().renew_at;
    run(&mut client, &mut net, t1);
    deliver_arp_reply(&mut net, t1);
    let frames = sent(&mut net);
    let renew_xid = xid_of(frames.last().unwrap());
    deliver_to_us(&mut net, &bootp_reply(renew_xid, OUR_MAC, unspecified(), &REFUSAL), t1 + 1);
    run(&mut client, &mut net, t1 + 1);
    assert!(link::config(&net.link).is_none());
    assert!(client.lease().is_none());
}

/// Messages wrong in the ways a length can be wrong. None of them is taken,
/// and none stops a good one after them from being taken.
#[test]
fn dhcp_malformed() {
    let named = Ipv4Addr::new(1, 1, 1, 1);
    let mut net = machine();
    let mut client = new_client(&mut net, Some(named));
    run(&mut client, &mut net, START);
    let xid = xid_of(&sent(&mut net)[0]);

    let server: [u8; 6] = [54, 4, 10, 0, 2, 2];
    let offering: [u8; 3] = [53, 1, dhcp::OFFER];
    let reply = |options: &[&[u8]]| bootp_reply(xid, OUR_MAC, our_ip(), &options.concat());
    let mut file_overrun = reply(&[&offering, &server, &[52, 1, 1, 255]]);
    file_overrun[108] = 6;
    file_overrun[109] = 250;
    let mut cut_short = reply(&[&offering, &server, &A_DAY, &[255]]);
    cut_short.truncate(238);
    let wrong: [Vec<u8>; 8] = [
        // An option running past the end of the message.
        reply(&[&offering, &server, &[1, 200, 255, 255, 255, 0]]),
        // A netmask three bytes long.
        reply(&[&offering, &server, &[1, 3, 255, 255, 255], &A_DAY, &[255]]),
        // A message type two bytes long.
        reply(&[&[53, 2, dhcp::OFFER, dhcp::OFFER], &server, &[255]]),
        // A router list with a byte left over.
        reply(&[&offering, &server, &[3, 5, 10, 0, 2, 2, 0], &[255]]),
        // An overload option naming fields that do not exist.
        reply(&[&offering, &server, &[52, 1, 4], &[255]]),
        // An option running past the end of the file field.
        file_overrun,
        // An offer naming no server.
        reply(&[&offering, &A_DAY, &[255]]),
        // A message cut off inside the magic cookie.
        cut_short,
    ];
    for message in &wrong {
        deliver_broadcast(&mut net, message, START + 1);
        run(&mut client, &mut net, START + 1);
        assert!(sent(&mut net).is_empty());
    }

    let offer = server_options(dhcp::OFFER, &A_DAY);
    deliver_broadcast(&mut net, &bootp_reply(xid, OUR_MAC, our_ip(), &offer), START + 2);
    run(&mut client, &mut net, START + 2);
    let frames = sent(&mut net);
    assert_eq!(frames.len(), 1);
    assert_eq!(kind_of(&frames[0]), dhcp::REQUEST);
    let granted = server_options(dhcp::ACK, &A_DAY);
    deliver_broadcast(&mut net, &bootp_reply(xid, OUR_MAC, our_ip(), &granted), START + 3);
    run(&mut client, &mut net, START + 3);
    assert_eq!(link::config(&net.link).unwrap().nameservers(), vec![named]);
}

/// The parser alone, against every way a good message can be cut short and
/// every value each of its length bytes could hold.
#[test]
fn no_cut_and_no_length_byte_stops_the_parser() {
    let good = bootp_reply(7, OUR_MAC, our_ip(), &server_options(dhcp::ACK, &A_DAY));
    assert!(Reply::parse(&good).is_some());
    for cut in 0..good.len() {
        let _ = Reply::parse(&good[..cut]);
    }
    let mut at = 240;
    while at + 1 < good.len() && good[at] != 255 {
        for length in 0..=255u8 {
            let mut changed = good.clone();
            changed[at + 1] = length;
            let _ = Reply::parse(&changed);
        }
        at += 2 + good[at + 1] as usize;
    }
}

#[test]
fn what_a_reply_says() {
    let good = bootp_reply(0x0102_0304, OUR_MAC, our_ip(), &server_options(dhcp::ACK, &A_DAY));
    let reply = Reply::parse(&good).unwrap();
    assert_eq!(reply.kind, dhcp::ACK);
    assert_eq!(reply.xid, 0x0102_0304);
    assert_eq!(reply.chaddr, OUR_MAC);
    assert_eq!(reply.yiaddr, our_ip());
    assert_eq!(reply.server, Some(peer_ip()));
    assert_eq!(reply.netmask, Some(netmask()));
    assert_eq!(reply.routers, vec![peer_ip()]);
    assert_eq!(reply.nameservers, vec![lease_dns()]);
    assert_eq!(reply.lease_seconds, Some(86_400));
    assert_eq!(reply.renewal_seconds, None);
    assert_eq!(reply.rebinding_seconds, None);
}

/// Option 52 moving options into the file field, and the name server option
/// split in two, one half in each place (RFC 3396).
#[test]
fn options_in_the_file_field_are_read_and_split_ones_joined() {
    let named = Ipv4Addr::new(1, 1, 1, 1);
    let mut options = vec![53, 1, dhcp::ACK, 54, 4, 10, 0, 2, 2, 52, 1, 1];
    options.extend_from_slice(&[6, 4, 10, 0, 2, 53, 255]);
    let mut carried = bootp_reply(9, OUR_MAC, our_ip(), &options);
    carried[108..120].copy_from_slice(&[1, 4, 255, 255, 255, 0, 6, 4, 1, 1, 1, 1]);
    carried[120] = 255;
    let parsed = Reply::parse(&carried).unwrap();
    assert_eq!(parsed.netmask, Some(netmask()));
    assert_eq!(parsed.nameservers, vec![lease_dns(), named]);
}

/// The discover goes again after 4, 8, 16, 32 and then every 64 seconds, each
/// moved by up to a second, all in one exchange; and a link that comes up
/// starts the asking again at once.
#[test]
fn dhcp_retransmission() {
    let mut net = machine();
    let mut client = new_client(&mut net, None);
    run(&mut client, &mut net, START);
    let xid = xid_of(&sent(&mut net)[0]);
    let mut now = START;
    for seconds in [4u64, 8, 16, 32, 64, 64] {
        let deadline = client.next_deadline();
        assert!(((seconds - 1) * HZ..=(seconds + 1) * HZ).contains(&(deadline - now)));
        run(&mut client, &mut net, deadline);
        let frames = sent(&mut net);
        assert_eq!(frames.len(), 1);
        assert_eq!(xid_of(&frames[0]), xid);
        assert_eq!(kind_of(&frames[0]), dhcp::DISCOVER);
        let secs = u16::from_be_bytes([frames[0][DHCP_AT + 8], frames[0][DHCP_AT + 9]]) as u64;
        assert_eq!(secs, (deadline - START) / HZ);
        now = deadline;
    }
    net.link.up = false;
    run(&mut client, &mut net, now + 1);
    net.link.up = true;
    run(&mut client, &mut net, now + 2);
    let frames = sent(&mut net);
    assert_eq!(frames.len(), 1);
    assert_eq!(kind_of(&frames[0]), dhcp::DISCOVER);
    assert_ne!(xid_of(&frames[0]), xid);
}

/// A lease shorter than the client will bother with, one with no length, and
/// one that never ends.
#[test]
fn the_length_of_a_lease() {
    let config = leased_config();
    let offered = |extra: &[u8]| {
        let message = bootp_reply(1, OUR_MAC, our_ip(), &server_options(dhcp::ACK, extra));
        Reply::parse(&message).unwrap()
    };
    let short = dhcp::Lease::new(config, peer_ip(), &offered(&[51, 4, 0, 0, 0, 1]), START);
    assert_eq!(short.seconds, dhcp::MIN_LEASE_SECONDS);
    assert_eq!(short.expires_at, START + 20 * HZ);
    let unsaid = dhcp::Lease::new(config, peer_ip(), &offered(&[]), START);
    assert_eq!(unsaid.seconds, dhcp::DEFAULT_LEASE_SECONDS);
    assert_eq!(unsaid.renew_at, START + 1800 * HZ);
    let forever =
        dhcp::Lease::new(config, peer_ip(), &offered(&[51, 4, 0xFF, 0xFF, 0xFF, 0xFF]), START);
    assert_eq!(forever.expires_at, u64::MAX);
    assert_eq!((forever.renew_at, forever.rebind_at), (u64::MAX, u64::MAX));
    // The longest lease that ends, counted from the last tick there is.
    let last =
        dhcp::Lease::new(config, peer_ip(), &offered(&[51, 4, 0xFF, 0xFF, 0xFF, 0xFE]), LAST_POLL);
    assert_eq!(last.expires_at, LAST_POLL + 0xFFFF_FFFE * HZ);
    assert!(LAST_POLL <= last.renew_at && last.renew_at <= last.rebind_at);
    assert!(last.rebind_at <= last.expires_at && last.expires_at < u64::MAX);
}

#[test]
fn a_leased_machine_forgets_its_neighbours_when_its_address_goes() {
    let mut net = machine();
    link::configure(&mut net.link, Some(leased_config()));
    arp::learn(&mut net.link, peer_ip(), PEER_MAC, START);
    assert_eq!(arp::lookup(&net.link, peer_ip(), START), Some(PEER_MAC));
    link::configure(&mut net.link, None);
    assert_eq!(arp::lookup(&net.link, peer_ip(), START), None);
}
