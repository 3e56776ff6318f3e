//! The link this machine is on: the card it sends through, the addresses it
//! uses there, and what it knows of its neighbours.
//!
//! Nothing here reaches a card. A frame the stack sends goes to the back of
//! `outbox`, and whoever drives the card puts the outbox on the wire, oldest
//! first.

use crate::errno::Errno;
use crate::net::arp::{self, Entry, EntryView};
use crate::net::config::{self, resolver_file, Config};
use crate::net::ip::Ipv4Addr;
use vstd::prelude::*;

verus! {

pub struct Link {
    /// The hardware address of the card that is attached, if one is.
    pub card: Option<[u8; 6]>,
    /// Whether the card says there is something at the other end of its cable.
    pub up: bool,
    /// Frames for the card to send.
    pub outbox: Vec<Vec<u8>>,
    /// One frame in this many is thrown away in each direction. Zero is off.
    pub loss: u32,
    pub sent: u32,
    pub arrived: u32,
    pub config: Option<Config>,
    /// The name servers the resolver's file last named.
    pub published: Option<Vec<Ipv4Addr>>,
    /// What the resolver's file should say, until it has been written.
    pub resolver: Option<Vec<u8>>,
    /// Datagrams for this machine itself, waiting to be delivered.
    pub loopback: Vec<Vec<u8>>,
    /// The identification the next datagram gets.
    pub next_id: u16,
    /// Which hardware address is at which address.
    pub cache: Vec<Entry>,
    /// Something a task may be asleep on has changed. Whoever runs the stack
    /// wakes them and clears this.
    pub woken: bool,
    /// What nobody on the network knows: a number drawn at random when the
    /// machine started.
    pub secret: u64,
}

#[verifier::ext_equal]
pub struct LinkView {
    pub card: Option<[u8; 6]>,
    pub up: bool,
    pub outbox: Seq<Seq<u8>>,
    pub loss: u32,
    pub sent: u32,
    pub arrived: u32,
    pub config: Option<Config>,
    pub published: Option<Seq<Ipv4Addr>>,
    pub resolver: Option<Seq<u8>>,
    pub loopback: Seq<Seq<u8>>,
    pub next_id: u16,
    pub cache: Seq<EntryView>,
    pub woken: bool,
    pub secret: u64,
}

/// A list of byte strings.
pub open spec fn texts(list: Seq<Vec<u8>>) -> Seq<Seq<u8>> {
    Seq::new(list.len(), |i: int| list[i]@)
}

pub proof fn texts_push(list: Seq<Vec<u8>>, item: Vec<u8>)
    ensures
        texts(list.push(item)) == texts(list).push(item@),
{
    assert(texts(list.push(item)) =~= texts(list).push(item@));
}

impl View for Link {
    type V = LinkView;

    open spec fn view(&self) -> LinkView {
        LinkView {
            card: self.card,
            up: self.up,
            outbox: texts(self.outbox@),
            loss: self.loss,
            sent: self.sent,
            arrived: self.arrived,
            config: self.config,
            published: match self.published {
                Some(servers) => Some(servers@),
                None => None,
            },
            resolver: match self.resolver {
                Some(text) => Some(text@),
                None => None,
            },
            loopback: texts(self.loopback@),
            next_id: self.next_id,
            cache: arp::views(self.cache@),
            woken: self.woken,
            secret: self.secret,
        }
    }
}

/// Datagrams held for local delivery. Past this the oldest is dropped, the
/// same as a card whose ring is full.
pub const LOOPBACK_LIMIT: usize = 256;

/// Whether a frame is one of those that go missing, when one in `one_in` does
/// and `counter` have gone before it. Counted rather than drawn at random, so
/// a run loses the same frames as the run before it.
pub open spec fn goes_missing(one_in: u32, counter: u32) -> bool {
    one_in != 0 && counter % one_in == one_in - 1
}

impl LinkView {
    /// A machine with no card and no address.
    pub open spec fn bare(secret: u64) -> LinkView {
        LinkView {
            card: None,
            up: false,
            outbox: Seq::empty(),
            loss: 0,
            sent: 0,
            arrived: 0,
            config: None,
            published: None,
            resolver: None,
            loopback: Seq::empty(),
            next_id: 1,
            cache: Seq::empty(),
            woken: false,
            secret,
        }
    }

    /// What holds of a link between any two operations on it.
    pub open spec fn valid(self) -> bool {
        &&& self.config matches Some(config) ==> config.sound()
        &&& self.loopback.len() <= LOOPBACK_LIMIT
        &&& forall|i: int| 0 <= i < self.cache.len() ==> (#[trigger] self.cache[i]).valid()
        &&& self.cache.len() <= arp::MAX_ENTRIES
    }

    /// The hardware address the stack answers to, which is the card's.
    pub open spec fn mac(self) -> [u8; 6] {
        match self.card {
            Some(mac) => mac,
            None => arp::no_mac(),
        }
    }

    /// Whether `address` is this machine's own.
    pub open spec fn is_ours(self, address: Ipv4Addr) -> bool {
        self.config matches Some(config) && config.spec_address() == address
    }

    /// One frame sent, if there is a card to send it through. A frame the link
    /// loses is one that went out as far as everything above is concerned.
    pub open spec fn transmitted(self, frame: Seq<u8>) -> (LinkView, Result<(), Errno>) {
        let counted = if self.loss == 0 {
            self
        } else {
            LinkView { sent: self.sent.wrapping_add(1), ..self }
        };
        if goes_missing(self.loss, self.sent) {
            (counted, Ok(()))
        } else if self.card is None {
            (counted, Err(Errno::ENODEV))
        } else {
            (LinkView { outbox: self.outbox.push(frame), ..counted }, Ok(()))
        }
    }

    /// There is a card, and something at the other end of its cable.
    pub open spec fn is_up(self) -> bool {
        self.card is Some && self.up
    }

    /// Something a sleeper may be waiting for has changed, if `something`
    /// says so.
    pub open spec fn waking(self, something: bool) -> LinkView {
        LinkView { woken: self.woken || something, ..self }
    }

    /// One datagram queued for this machine itself. Whoever is asleep on a
    /// socket has to look again: the queue is delivered by whichever task next
    /// runs the stack, and that may be one of them.
    pub open spec fn looped_back(self, datagram: Seq<u8>) -> LinkView {
        let room = if self.loopback.len() >= LOOPBACK_LIMIT {
            self.loopback.skip(1)
        } else {
            self.loopback
        };
        LinkView { loopback: room.push(datagram), woken: true, ..self }
    }

    /// The address to send from when talking to `destination`.
    ///
    /// With no address, the only thing that can be sent is a broadcast from
    /// 0.0.0.0: RFC 1122 section 3.2.1.3 allows that source only while a host
    /// is learning its own address, and a broadcast is the only destination
    /// that needs no route.
    pub open spec fn source_towards(self, destination: Ipv4Addr) -> Result<Ipv4Addr, Errno> {
        if destination.loopback() {
            Ok(Ipv4Addr::dotted(127, 0, 0, 1))
        } else {
            match self.config {
                Some(config) => Ok(config.spec_address()),
                None => if destination.limited_broadcast() {
                    Ok(Ipv4Addr(0))
                } else {
                    Err(Errno::ENETUNREACH)
                },
            }
        }
    }

    /// A configuration in place of the old one, whole. Anything learned under
    /// another one is about a different network, and the resolver is told of
    /// name servers it was not told of before. A configuration taken away
    /// leaves the resolver alone.
    pub open spec fn configured(self, config: Option<Config>) -> LinkView {
        if self.config == config {
            self
        } else {
            let changed = LinkView { config, cache: Seq::empty(), ..self };
            match config {
                None => changed,
                Some(c) => if self.published == Some(c.spec_nameservers()) {
                    changed
                } else {
                    LinkView {
                        published: Some(c.spec_nameservers()),
                        resolver: Some(config::resolver_text(c.spec_nameservers())),
                        ..changed
                    }
                },
            }
        }
    }
}

impl Link {
    pub fn new(secret: u64) -> (link: Link)
        ensures
            link@ == LinkView::bare(secret),
            link@.valid(),
    {
        let link = Link {
            card: None,
            up: false,
            outbox: Vec::new(),
            loss: 0,
            sent: 0,
            arrived: 0,
            config: None,
            published: None,
            resolver: None,
            loopback: Vec::new(),
            next_id: 1,
            cache: Vec::new(),
            woken: false,
            secret,
        };
        assert(link@ =~= LinkView::bare(secret));
        link
    }
}

/// The card's hardware address, or zeroes when there is no card.
pub fn mac(link: &Link) -> (mac: [u8; 6])
    ensures
        mac == link@.mac(),
{
    match link.card {
        Some(mac) => mac,
        None => arp::zero_mac(),
    }
}

/// Register the card the stack sends through.
pub fn attach(link: &mut Link, mac: [u8; 6])
    ensures
        final(link)@ == (LinkView { card: Some(mac), ..old(link)@ }),
{
    link.card = Some(mac);
}

/// The hardware address of the card the stack sends through, if there is one.
pub fn interface(link: &Link) -> (mac: Option<[u8; 6]>)
    ensures
        mac == link@.card,
{
    link.card
}

/// Lose one frame in `one_in` in each direction, or none for zero.
pub fn set_loss(link: &mut Link, one_in: u32)
    ensures
        final(link)@ == (LinkView { loss: one_in, ..old(link)@ }),
{
    link.loss = one_in;
}

/// Whether this frame is one of the ones that goes missing, and the counter
/// after it.
pub fn lost(one_in: u32, counter: u32) -> (result: (bool, u32))
    ensures
        result.0 == goes_missing(one_in, counter),
        result.1 == if one_in == 0 {
            counter
        } else {
            counter.wrapping_add(1)
        },
{
    if one_in == 0 {
        return (false, counter);
    }
    (counter % one_in == one_in - 1, counter.wrapping_add(1))
}

/// Send one frame, if there is a card to send it through.
pub fn transmit(link: &mut Link, frame: Vec<u8>) -> (result: Result<(), Errno>)
    ensures
        (final(link)@, result) == old(link)@.transmitted(frame@),
{
    let (missing, counter) = lost(link.loss, link.sent);
    link.sent = counter;
    if missing {
        return Ok(());
    }
    if link.card.is_none() {
        return Err(Errno::ENODEV);
    }
    proof {
        texts_push(link.outbox@, frame);
    }
    link.outbox.push(frame);
    Ok(())
}

/// There is a card, and something at the other end of its cable.
pub fn link_up(link: &Link) -> (r: bool)
    ensures
        r == link@.is_up(),
{
    link.card.is_some() && link.up
}

/// Replace the configuration, whole. `None` takes the address away.
pub fn configure(link: &mut Link, config: Option<Config>)
    requires
        old(link)@.valid(),
        config matches Some(c) ==> c.sound(),
    ensures
        final(link)@ == old(link)@.configured(config),
        final(link)@.valid(),
{
    let same = match (link.config, config) {
        (Some(a), Some(b)) => a == b,
        (None, None) => true,
        _ => false,
    };
    if same {
        return;
    }
    link.config = config;
    arp::clear(link);
    publish_nameservers(link);
}

/// Tell programs where names are looked up.
///
/// Programs with their own resolver read /etc/resolv.conf, so that is where
/// the name servers go, and it is written only when they change.
fn publish_nameservers(link: &mut Link)
    requires
        old(link)@.config matches Some(c) ==> c.sound(),
    ensures
        final(link)@ == (match old(link)@.config {
            None => old(link)@,
            Some(c) => if old(link)@.published == Some(c.spec_nameservers()) {
                old(link)@
            } else {
                LinkView {
                    published: Some(c.spec_nameservers()),
                    resolver: Some(config::resolver_text(c.spec_nameservers())),
                    ..old(link)@
                }
            },
        }),
{
    let config = match link.config {
        Some(config) => config,
        None => {
            return;
        },
    };
    let servers = config.nameservers();
    let already = match &link.published {
        Some(published) => same_servers(published.as_slice(), servers.as_slice()),
        None => false,
    };
    if already {
        return;
    }
    let text = resolver_file(servers.as_slice());
    link.resolver = Some(text);
    link.published = Some(servers);
}

fn same_servers(a: &[Ipv4Addr], b: &[Ipv4Addr]) -> (same: bool)
    ensures
        same == (a@ == b@),
{
    if a.len() != b.len() {
        return false;
    }
    let mut i: usize = 0;
    while i < a.len()
        invariant
            a@.len() == b@.len(),
            i <= a@.len(),
            forall|k: int| 0 <= k < i ==> a@[k] == b@[k],
        decreases a@.len() - i,
    {
        if a[i] != b[i] {
            return false;
        }
        i += 1;
    }
    assert(a@ =~= b@);
    true
}

/// The configuration as it stands, or `None` while this machine has no
/// address.
pub fn config(link: &Link) -> (config: Option<Config>)
    ensures
        config == link@.config,
{
    link.config
}

/// The address to send from when talking to `destination`.
pub fn source_for(link: &Link, destination: Ipv4Addr) -> (source: Result<Ipv4Addr, Errno>)
    ensures
        source == link@.source_towards(destination),
{
    if destination.is_loopback() {
        return Ok(Ipv4Addr::new(127, 0, 0, 1));
    }
    match link.config {
        Some(config) => Ok(config.address()),
        None => if destination.is_broadcast() {
            Ok(Ipv4Addr(0))
        } else {
            Err(Errno::ENETUNREACH)
        },
    }
}

/// Queue a datagram addressed to this machine. It cannot be delivered where it
/// is built, so it waits for `poll`.
pub fn loop_back(link: &mut Link, datagram: Vec<u8>)
    requires
        old(link)@.valid(),
    ensures
        final(link)@ == old(link)@.looped_back(datagram@),
        final(link)@.valid(),
{
    if link.loopback.len() >= LOOPBACK_LIMIT {
        link.loopback.remove(0);
        assert(texts(link.loopback@) =~= old(link)@.loopback.skip(1));
    }
    proof {
        texts_push(link.loopback@, datagram);
    }
    link.loopback.push(datagram);
    link.woken = true;
}

pub fn loopback_pending(link: &Link) -> (pending: bool)
    ensures
        pending == (link@.loopback.len() > 0),
{
    link.loopback.len() > 0
}

} // verus!
