//! Intel 8254x gigabit Ethernet: what its rings, registers and interrupts come
//! to.
//!
//! The card is a pair of rings in memory. Each ring is an array of
//! sixteen-byte descriptors; each descriptor names a buffer by *physical*
//! address, because the card's DMA engine does not go through the page tables.
//! Two register pairs per ring say who owns what: the head is the card's
//! cursor and the tail is the kernel's, and the card works on descriptors from
//! the head up to but not including the tail.
//!
//! What a register has to be given is handed out here as a list of writes, in
//! order, and what one read gives is an argument.
//!
//! The interrupt handler does not parse anything. It moves every completed
//! frame into a queue, and says whether the network task has to be woken.

use crate::errno::Errno;
use crate::net::rx_queue::{QueueView, RxQueue};
use vstd::prelude::*;

verus! {

pub const VENDOR_INTEL: u16 = 0x8086;

pub const DEVICE_82540EM: u16 = 0x100E;

// Registers, as byte offsets from the start of the block. Each is 32 bits.
/// Device control.
pub const CTRL: u32 = 0x0000;

/// Device status.
pub const STATUS: u32 = 0x0008;

/// EEPROM read.
pub const EERD: u32 = 0x0014;

/// Interrupt cause, read to acknowledge.
pub const ICR: u32 = 0x00C0;

/// Interrupt throttling interval.
pub const ITR: u32 = 0x00C4;

/// Interrupt mask set.
pub const IMS: u32 = 0x00D0;

/// Interrupt mask clear.
pub const IMC: u32 = 0x00D8;

/// Receive control.
pub const RCTL: u32 = 0x0100;

/// Transmit control.
pub const TCTL: u32 = 0x0400;

/// Transmit inter-packet gap.
pub const TIPG: u32 = 0x0410;

/// Receive ring base, low 32 bits.
pub const RDBAL: u32 = 0x2800;

/// Receive ring base, high 32 bits.
pub const RDBAH: u32 = 0x2804;

/// Receive ring length in bytes.
pub const RDLEN: u32 = 0x2808;

/// Receive head, the card's cursor.
pub const RDH: u32 = 0x2810;

/// Receive tail, the kernel's cursor.
pub const RDT: u32 = 0x2818;

/// Receive interrupt delay.
pub const RDTR: u32 = 0x2820;

/// Receive absolute interrupt delay.
pub const RADV: u32 = 0x282C;

pub const TDBAL: u32 = 0x3800;

pub const TDBAH: u32 = 0x3804;

pub const TDLEN: u32 = 0x3808;

pub const TDH: u32 = 0x3810;

pub const TDT: u32 = 0x3818;

/// Transmit interrupt delay.
pub const TIDV: u32 = 0x3820;

/// Transmit absolute interrupt delay.
pub const TADV: u32 = 0x382C;

/// Multicast table array, 128 words.
pub const MTA: u32 = 0x5200;

/// Receive address 0, low four bytes.
pub const RAL0: u32 = 0x5400;

/// Receive address 0, high two bytes plus flags.
pub const RAH0: u32 = 0x5404;

/// Device reset, self-clearing.
pub const CTRL_RST: u32 = 0x0400_0000;

/// Set link up, auto speed detection and full duplex.
pub const CTRL_ON: u32 = 0x61;

/// Link reset, PHY reset, inverted loss of signal and VLAN tag stripping: what
/// must stay clear on copper.
pub const CTRL_OFF: u32 = 0xC000_0088;

pub const STATUS_FD: u32 = 0x1;

/// Link up.
pub const STATUS_LU: u32 = 0x2;

pub const EERD_START: u32 = 0x1;

pub const EERD_DONE: u32 = 0x10;

/// How often a word of the EEPROM is asked for before it is given up on.
pub const EEPROM_TRIES: u32 = 100_000;

/// A receive overrun: a frame was dropped.
pub const INT_RXO: u32 = 0x40;

/// A frame arrived, the ring runs low, a frame was dropped, or the link
/// changed. Transmit completion is polled, because a transmit may not sleep.
pub const INT_WANTED: u32 = 0xD4;

/// Receiving, with broadcasts, which ARP needs, and the four-byte Ethernet CRC
/// stripped; buffers of 2048 bytes, and neither promiscuous nor looped back.
pub const RCTL_VALUE: u32 = 0x0400_8002;

/// Transmitting, with short frames padded out to the minimum, a collision
/// threshold of 16 and a collision distance of 64 byte times.
pub const TCTL_VALUE: u32 = 0x0004_010A;

/// Inter-packet gap: 10 byte times back to back, then 8 and 6 for the two
/// receive-side parts.
pub const TIPG_VALUE: u32 = 0x0060_200A;

/// Receive address high: the entry holds a valid address.
pub const RAH_AV: u32 = 0x8000_0000;

/// Descriptors per ring. The ring length register counts bytes and must be a
/// multiple of 128, so this has to be a multiple of eight.
pub const RX_DESCS: usize = 32;

pub const TX_DESCS: usize = 32;

/// Bytes per packet buffer, which must match the size RCTL announces.
pub const BUFFER_SIZE: usize = 2048;

/// Bytes in a descriptor.
pub const DESC_BYTES: usize = 16;

/// The shortest frame: an Ethernet header.
pub const MIN_FRAME: usize = 14;

/// Descriptor done.
pub const RX_STATUS_DD: u8 = 1;

/// End of packet.
pub const RX_STATUS_EOP: u8 = 2;

/// This descriptor ends the frame, the card appends the CRC, and it reports
/// when it has gone out.
pub const TX_CMD: u8 = 0x0B;

pub const TX_STATUS_DD: u8 = 1;

/// How long a transmit waits for the card before giving up.
pub const TX_SPIN_LIMIT: u32 = 10_000_000;

/// Legacy receive descriptor.
#[derive(Debug, Clone, Copy, PartialEq, Eq, Structural)]
pub struct RxDesc {
    /// Physical address of the buffer the card fills.
    pub addr: u64,
    /// Bytes written, set by the card.
    pub length: u16,
    pub checksum: u16,
    pub status: u8,
    pub errors: u8,
    pub special: u16,
}

/// Legacy transmit descriptor.
#[derive(Debug, Clone, Copy, PartialEq, Eq, Structural)]
pub struct TxDesc {
    pub addr: u64,
    pub length: u16,
    /// Checksum offset; unused, whole frames are built.
    pub cso: u8,
    pub cmd: u8,
    pub status: u8,
    pub css: u8,
    pub special: u16,
}

/// A register to write.
#[derive(Debug, Clone, Copy, PartialEq, Eq, Structural)]
pub struct Write {
    pub offset: u32,
    pub value: u32,
}

/// The low and the high half of an address.
pub open spec fn low_half(addr: u64) -> u32 {
    (addr % 0x1_0000_0000) as u32
}

pub open spec fn high_half(addr: u64) -> u32 {
    (addr / 0x1_0000_0000) as u32
}

/// An empty receive descriptor pointing at descriptor `index`'s buffer.
pub open spec fn fresh_rx(rx_buffers: u64, index: int) -> RxDesc {
    RxDesc {
        addr: (rx_buffers + index * BUFFER_SIZE) as u64,
        length: 0,
        checksum: 0,
        status: 0,
        errors: 0,
        special: 0,
    }
}

/// A transmit descriptor with nothing in it. Done from the start: nothing is
/// in flight yet, and a transmit reads this before reusing a descriptor.
pub open spec fn fresh_tx(tx_buffers: u64, index: int) -> TxDesc {
    TxDesc {
        addr: (tx_buffers + index * BUFFER_SIZE) as u64,
        length: 0,
        cso: 0,
        cmd: 0,
        status: TX_STATUS_DD,
        css: 0,
        special: 0,
    }
}

/// A transmit descriptor for a whole frame.
pub open spec fn filled_tx(tx_buffers: u64, index: int, length: u16) -> TxDesc {
    TxDesc {
        addr: (tx_buffers + index * BUFFER_SIZE) as u64,
        length,
        cso: 0,
        cmd: TX_CMD,
        status: 0,
        css: 0,
        special: 0,
    }
}

// ---- registers ------------------------------------------------------------------------

/// What to write to ask for a word of the serial EEPROM.
pub fn eeprom_request(word: u16) -> (value: u32)
    ensures
        value == word * 0x100 + EERD_START,
{
    word as u32 * 0x100 + EERD_START
}

/// What a read of the EEPROM register says.
#[derive(Debug, Clone, Copy, PartialEq, Eq, Structural)]
pub enum Eeprom {
    /// The word.
    Word(u16),
    /// Nothing yet: read it again.
    NotYet,
    /// Nothing, and it has been read often enough.
    GiveUp,
}

/// What the EEPROM register says on read number `tries`, counted from zero.
pub fn eeprom_answer(value: u32, tries: u32) -> (answer: Eeprom)
    ensures
        answer == (if value & EERD_DONE != 0 {
            Eeprom::Word((value / 0x1_0000) as u16)
        } else if tries + 1 < EEPROM_TRIES {
            Eeprom::NotYet
        } else {
            Eeprom::GiveUp
        }),
{
    if value & EERD_DONE != 0 {
        Eeprom::Word((value / 0x1_0000) as u16)
    } else if tries < EEPROM_TRIES - 1 {
        Eeprom::NotYet
    } else {
        Eeprom::GiveUp
    }
}

/// The address three words spell, low byte first.
pub open spec fn mac_of_words(w0: u16, w1: u16, w2: u16) -> Seq<u8> {
    seq![
        (w0 % 256) as u8,
        (w0 / 256) as u8,
        (w1 % 256) as u8,
        (w1 / 256) as u8,
        (w2 % 256) as u8,
        (w2 / 256) as u8,
    ]
}

/// The hardware address: out of the EEPROM if there is one, otherwise out of
/// receive address register zero, which reset loads on parts that have no
/// EEPROM attached.
pub fn read_mac(w0: Option<u16>, w1: Option<u16>, w2: Option<u16>, ral: u32, rah: u32) -> (mac: [u8; 6])
    ensures
        mac@ == (if w0 is Some && w1 is Some && w2 is Some && !(w0->0 == 0 && w1->0 == 0 && w2->0
            == 0) {
            mac_of_words(w0->0, w1->0, w2->0)
        } else {
            mac_of_words(
                (ral % 0x1_0000) as u16,
                (ral / 0x1_0000) as u16,
                (rah % 0x1_0000) as u16,
            )
        }),
{
    let mut a: u16 = (ral % 0x1_0000) as u16;
    let mut b: u16 = (ral / 0x1_0000) as u16;
    let mut c: u16 = (rah % 0x1_0000) as u16;
    if let Some(x) = w0 {
        if let Some(y) = w1 {
            if let Some(z) = w2 {
                if x != 0 || y != 0 || z != 0 {
                    a = x;
                    b = y;
                    c = z;
                }
            }
        }
    }
    let mac: [u8; 6] = [
        (a % 256) as u8,
        (a / 256) as u8,
        (b % 256) as u8,
        (b / 256) as u8,
        (c % 256) as u8,
        (c / 256) as u8,
    ];
    assert(mac@ =~= mac_of_words(a, b, c));
    mac
}

/// What masks the card off before a reset.
pub fn quiet_writes() -> (writes: Vec<Write>)
    ensures
        writes@ == seq![
            Write { offset: IMC, value: 0xFFFF_FFFF },
            Write { offset: RCTL, value: 0 },
            Write { offset: TCTL, value: 0 },
        ],
{
    let mut writes: Vec<Write> = Vec::new();
    writes.push(Write { offset: IMC, value: 0xFFFF_FFFF });
    writes.push(Write { offset: RCTL, value: 0 });
    writes.push(Write { offset: TCTL, value: 0 });
    assert(writes@ =~= seq![
        Write { offset: IMC, value: 0xFFFF_FFFF },
        Write { offset: RCTL, value: 0 },
        Write { offset: TCTL, value: 0 },
    ]);
    writes
}

/// Device control with the reset bit set.
pub fn reset_control(ctrl: u32) -> (value: u32)
    ensures
        value == ctrl | CTRL_RST,
{
    ctrl | CTRL_RST
}

/// Whether the card is still resetting. The bit clears itself when it is done.
pub fn is_resetting(ctrl: u32) -> (r: bool)
    ensures
        r == (ctrl & CTRL_RST != 0),
{
    ctrl & CTRL_RST != 0
}

/// Device control with the link up, the PHY negotiating speed, and the bits
/// that would break a copper link clear.
pub fn link_control(ctrl: u32) -> (value: u32)
    ensures
        value == (ctrl | CTRL_ON) & !CTRL_OFF,
{
    (ctrl | CTRL_ON) & !CTRL_OFF
}

pub fn link_up(status: u32) -> (r: bool)
    ensures
        r == (status & STATUS_LU != 0),
{
    status & STATUS_LU != 0
}

/// Link speed in megabits, from the two speed bits of the status.
pub fn link_speed(status: u32) -> (speed: u32)
    ensures
        speed == (if status / 64 % 4 == 0 {
            10u32
        } else if status / 64 % 4 == 1 {
            100
        } else {
            1000
        }),
{
    match status / 64 % 4 {
        0 => 10,
        1 => 100,
        _ => 1000,
    }
}

pub fn full_duplex(status: u32) -> (r: bool)
    ensures
        r == (status & STATUS_FD != 0),
{
    status & STATUS_FD != 0
}

// ---- the card ---------------------------------------------------------------------------

/// The card: where its rings and buffers are, and where the kernel has got to
/// in each ring.
pub struct E1000 {
    mac: [u8; 6],
    rx_ring: u64,
    tx_ring: u64,
    rx_buffers: u64,
    tx_buffers: u64,
    /// Next descriptor the card is expected to have filled.
    rx_next: usize,
    /// Next descriptor to use, which is also the tail.
    tx_next: usize,
    /// Interrupts the card raised that were its own.
    irq_count: u64,
    /// Times the card reported it had run out of receive descriptors.
    overruns: u64,
}

/// Where a card is.
#[verifier::ext_equal]
pub struct CardView {
    pub mac: Seq<u8>,
    pub rx_ring: u64,
    pub tx_ring: u64,
    pub rx_buffers: u64,
    pub tx_buffers: u64,
    pub rx_next: int,
    pub tx_next: int,
    pub interrupts: u64,
    pub overruns: u64,
}

impl CardView {
    /// Every buffer has an address, and the kernel is somewhere in each ring.
    pub open spec fn valid(self) -> bool {
        &&& self.rx_buffers + RX_DESCS * BUFFER_SIZE <= u64::MAX
        &&& self.tx_buffers + TX_DESCS * BUFFER_SIZE <= u64::MAX
        &&& 0 <= self.rx_next < RX_DESCS
        &&& 0 <= self.tx_next < TX_DESCS
    }
}

impl View for E1000 {
    type V = CardView;

    closed spec fn view(&self) -> CardView {
        CardView {
            mac: self.mac@,
            rx_ring: self.rx_ring,
            tx_ring: self.tx_ring,
            rx_buffers: self.rx_buffers,
            tx_buffers: self.tx_buffers,
            rx_next: self.rx_next as int,
            tx_next: self.tx_next as int,
            interrupts: self.irq_count,
            overruns: self.overruns,
        }
    }
}

/// One more, as far as a count goes.
pub open spec fn counted(count: u64) -> u64 {
    if count < u64::MAX {
        (count + 1) as u64
    } else {
        count
    }
}

/// What a drain works on: the ring as the card has left it, the queue, where
/// the kernel is, and the tails it has given back so far.
#[verifier::ext_equal]
pub struct Drain {
    pub ring: Seq<RxDesc>,
    pub queue: QueueView,
    pub next: int,
    pub tails: Seq<u32>,
    pub taken: nat,
}

/// Whether a descriptor holds a frame to keep: all of one, with no error, and
/// no shorter than a header nor longer than a buffer.
pub open spec fn is_kept(desc: RxDesc) -> bool {
    &&& desc.status & RX_STATUS_EOP != 0
    &&& desc.errors == 0
    &&& MIN_FRAME <= desc.length <= BUFFER_SIZE
}

impl Drain {
    pub open spec fn is_done(self) -> bool {
        self.ring[self.next].status & RX_STATUS_DD == 0
    }

    /// One descriptor's frame queued, and the descriptor lent back. It is
    /// written over whole before the tail moves past it.
    pub open spec fn one_more(self, buffers: Seq<u8>, rx_buffers: u64) -> Drain {
        let desc = self.ring[self.next];
        let from = self.next * BUFFER_SIZE;
        Drain {
            ring: self.ring.update(self.next, fresh_rx(rx_buffers, self.next)),
            queue: if is_kept(desc) {
                self.queue.pushed(buffers.subrange(from, from + desc.length))
            } else {
                self.queue
            },
            next: if self.next + 1 == RX_DESCS {
                0
            } else {
                self.next + 1
            },
            tails: self.tails.push(self.next as u32),
            taken: if is_kept(desc) {
                self.taken + 1
            } else {
                self.taken
            },
        }
    }

    /// Every completed descriptor taken, as far as `most` go.
    pub open spec fn drained(self, buffers: Seq<u8>, rx_buffers: u64, most: nat) -> Drain
        decreases most,
    {
        if most == 0 || self.is_done() {
            self
        } else {
            self.one_more(buffers, rx_buffers).drained(buffers, rx_buffers, (most - 1) as nat)
        }
    }
}

/// A frame on its way out.
#[derive(Debug, Clone, Copy, PartialEq, Eq, Structural)]
pub struct Sending {
    /// Which descriptor it goes in.
    pub index: usize,
    pub length: u16,
    /// Whether the card has been told.
    pub filled: bool,
    pub spins: u32,
}

/// What to do about a frame on its way out next.
#[derive(Debug, Clone, Copy, PartialEq, Eq, Structural)]
pub enum TxAction {
    /// Read the descriptor's status again.
    Look,
    /// Copy the frame into the descriptor's buffer, write the descriptor, and
    /// then move the tail to `tail`. The descriptor has to be in memory before
    /// the card is told to look.
    Fill { desc: TxDesc, tail: u32 },
    /// It has gone out.
    Sent,
    /// The card has stopped answering.
    Failed,
}

impl E1000 {
    pub closed spec fn valid(&self) -> bool {
        self@.valid()
    }

    pub proof fn is_valid(&self)
        requires
            self.valid(),
        ensures
            self@.valid(),
    {
    }

    /// A card whose descriptor rings share the page at `rings`. A ring's base
    /// must be sixteen-byte aligned and its length a multiple of 128 bytes; a
    /// page boundary and a half-page offset satisfy both.
    pub fn new(mac: [u8; 6], rings: u64, rx_buffers: u64, tx_buffers: u64) -> (card: E1000)
        requires
            rings + 4096 <= u64::MAX,
            rx_buffers + RX_DESCS * BUFFER_SIZE <= u64::MAX,
            tx_buffers + TX_DESCS * BUFFER_SIZE <= u64::MAX,
        ensures
            card.valid(),
            card@ == (CardView {
                mac: mac@,
                rx_ring: rings,
                tx_ring: (rings + 2048) as u64,
                rx_buffers,
                tx_buffers,
                rx_next: 0,
                tx_next: 0,
                interrupts: 0,
                overruns: 0,
            }),
    {
        E1000 {
            mac,
            rx_ring: rings,
            tx_ring: rings + 2048,
            rx_buffers,
            tx_buffers,
            rx_next: 0,
            tx_next: 0,
            irq_count: 0,
            overruns: 0,
        }
    }

    pub fn mac(&self) -> (mac: [u8; 6])
        ensures
            mac@ == self@.mac,
    {
        self.mac
    }

    /// Interrupts the card raised that were its own.
    pub fn interrupts(&self) -> (count: u64)
        ensures
            count == self@.interrupts,
    {
        self.irq_count
    }

    /// Times the card reported it had run out of receive descriptors.
    pub fn overruns(&self) -> (count: u64)
        ensures
            count == self@.overruns,
    {
        self.overruns
    }

    /// An empty receive descriptor pointing at descriptor `index`'s buffer.
    pub fn fresh_rx_desc(&self, index: usize) -> (desc: RxDesc)
        requires
            self.valid(),
            index < RX_DESCS,
        ensures
            desc == fresh_rx(self@.rx_buffers, index as int),
    {
        RxDesc {
            addr: self.rx_buffers + (index * BUFFER_SIZE) as u64,
            length: 0,
            checksum: 0,
            status: 0,
            errors: 0,
            special: 0,
        }
    }

    /// The receive ring as it is handed to the card, and the writes that point
    /// the card at it and lend it every descriptor but one. The tail is the
    /// kernel's cursor and the card stops when the head reaches it, so a tail
    /// one short of the end keeps the ring from looking empty by looking full.
    ///
    /// No delay between a frame arriving and the interrupt: the handler is
    /// cheap enough that coalescing would only add latency.
    pub fn setup_rx(&self) -> (r: (Vec<RxDesc>, Vec<Write>))
        requires
            self.valid(),
        ensures
            r.0@ == Seq::new(RX_DESCS as nat, |i: int| fresh_rx(self@.rx_buffers, i)),
            r.1@ == seq![
                Write { offset: RDBAL, value: low_half(self@.rx_ring) },
                Write { offset: RDBAH, value: high_half(self@.rx_ring) },
                Write { offset: RDLEN, value: 512 },
                Write { offset: RDH, value: 0 },
                Write { offset: RDT, value: 31 },
                Write { offset: RDTR, value: 0 },
                Write { offset: RADV, value: 0 },
                Write { offset: ITR, value: 0 },
            ],
    {
        let mut ring: Vec<RxDesc> = Vec::new();
        while ring.len() < RX_DESCS
            invariant
                self.valid(),
                ring@.len() <= RX_DESCS,
                forall|i: int|
                    0 <= i < ring@.len() ==> #[trigger] ring@[i] == fresh_rx(self@.rx_buffers, i),
            decreases RX_DESCS - ring@.len(),
        {
            let index: usize = ring.len();
            ring.push(self.fresh_rx_desc(index));
        }
        assert(ring@ =~= Seq::new(RX_DESCS as nat, |i: int| fresh_rx(self@.rx_buffers, i)));
        let mut writes: Vec<Write> = Vec::new();
        writes.push(Write { offset: RDBAL, value: (self.rx_ring % 0x1_0000_0000) as u32 });
        writes.push(Write { offset: RDBAH, value: (self.rx_ring / 0x1_0000_0000) as u32 });
        writes.push(Write { offset: RDLEN, value: (RX_DESCS * DESC_BYTES) as u32 });
        writes.push(Write { offset: RDH, value: 0 });
        writes.push(Write { offset: RDT, value: (RX_DESCS - 1) as u32 });
        writes.push(Write { offset: RDTR, value: 0 });
        writes.push(Write { offset: RADV, value: 0 });
        writes.push(Write { offset: ITR, value: 0 });
        assert(writes@ =~= seq![
            Write { offset: RDBAL, value: low_half(self@.rx_ring) },
            Write { offset: RDBAH, value: high_half(self@.rx_ring) },
            Write { offset: RDLEN, value: 512 },
            Write { offset: RDH, value: 0 },
            Write { offset: RDT, value: 31 },
            Write { offset: RDTR, value: 0 },
            Write { offset: RADV, value: 0 },
            Write { offset: ITR, value: 0 },
        ]);
        (ring, writes)
    }

    /// Start receiving.
    ///
    /// Separate from `setup_rx` so it happens after the interrupt handler is
    /// in place: a frame that lands in the ring before then raises nothing,
    /// and sits there until some later frame's interrupt sweeps it up.
    pub fn enable_rx(&self) -> (write: Write)
        ensures
            write == (Write { offset: RCTL, value: RCTL_VALUE }),
    {
        Write { offset: RCTL, value: RCTL_VALUE }
    }

    /// The transmit ring as it is handed to the card, and the writes that
    /// point the card at it and start it.
    pub fn setup_tx(&self) -> (r: (Vec<TxDesc>, Vec<Write>))
        requires
            self.valid(),
        ensures
            r.0@ == Seq::new(TX_DESCS as nat, |i: int| fresh_tx(self@.tx_buffers, i)),
            r.1@ == seq![
                Write { offset: TDBAL, value: low_half(self@.tx_ring) },
                Write { offset: TDBAH, value: high_half(self@.tx_ring) },
                Write { offset: TDLEN, value: 512 },
                Write { offset: TDH, value: 0 },
                Write { offset: TDT, value: 0 },
                Write { offset: TIDV, value: 0 },
                Write { offset: TADV, value: 0 },
                Write { offset: TCTL, value: TCTL_VALUE },
                Write { offset: TIPG, value: TIPG_VALUE },
            ],
    {
        let mut ring: Vec<TxDesc> = Vec::new();
        while ring.len() < TX_DESCS
            invariant
                self.valid(),
                ring@.len() <= TX_DESCS,
                forall|i: int|
                    0 <= i < ring@.len() ==> #[trigger] ring@[i] == fresh_tx(self@.tx_buffers, i),
            decreases TX_DESCS - ring@.len(),
        {
            let index: usize = ring.len();
            ring.push(
                TxDesc {
                    addr: self.tx_buffers + (index * BUFFER_SIZE) as u64,
                    length: 0,
                    cso: 0,
                    cmd: 0,
                    status: TX_STATUS_DD,
                    css: 0,
                    special: 0,
                },
            );
        }
        assert(ring@ =~= Seq::new(TX_DESCS as nat, |i: int| fresh_tx(self@.tx_buffers, i)));
        let mut writes: Vec<Write> = Vec::new();
        writes.push(Write { offset: TDBAL, value: (self.tx_ring % 0x1_0000_0000) as u32 });
        writes.push(Write { offset: TDBAH, value: (self.tx_ring / 0x1_0000_0000) as u32 });
        writes.push(Write { offset: TDLEN, value: (TX_DESCS * DESC_BYTES) as u32 });
        writes.push(Write { offset: TDH, value: 0 });
        writes.push(Write { offset: TDT, value: 0 });
        writes.push(Write { offset: TIDV, value: 0 });
        writes.push(Write { offset: TADV, value: 0 });
        writes.push(Write { offset: TCTL, value: TCTL_VALUE });
        writes.push(Write { offset: TIPG, value: TIPG_VALUE });
        assert(writes@ =~= seq![
            Write { offset: TDBAL, value: low_half(self@.tx_ring) },
            Write { offset: TDBAH, value: high_half(self@.tx_ring) },
            Write { offset: TDLEN, value: 512 },
            Write { offset: TDH, value: 0 },
            Write { offset: TDT, value: 0 },
            Write { offset: TIDV, value: 0 },
            Write { offset: TADV, value: 0 },
            Write { offset: TCTL, value: TCTL_VALUE },
            Write { offset: TIPG, value: TIPG_VALUE },
        ]);
        (ring, writes)
    }

    /// The writes that put the hardware address into receive address register
    /// zero, so the card's filter accepts frames addressed to it. Everything
    /// else in the filter is off: no multicast groups joined.
    pub fn set_receive_address(&self) -> (writes: Vec<Write>)
        ensures
            writes@.len() == 130,
            writes@[0] == (Write {
                offset: RAL0,
                value: (self@.mac[0] + self@.mac[1] * 0x100 + self@.mac[2] * 0x1_0000
                    + self@.mac[3] * 0x100_0000) as u32,
            }),
            writes@[1] == (Write {
                offset: RAH0,
                value: (self@.mac[4] + self@.mac[5] * 0x100 + RAH_AV) as u32,
            }),
            forall|i: int|
                0 <= i < 128 ==> #[trigger] writes@[i + 2] == (Write {
                    offset: (MTA + i * 4) as u32,
                    value: 0,
                }),
    {
        let mac = self.mac;
        let mut writes: Vec<Write> = Vec::new();
        writes.push(
            Write {
                offset: RAL0,
                value: mac[0] as u32 + mac[1] as u32 * 0x100 + mac[2] as u32 * 0x1_0000 + mac[3] as u32
                    * 0x100_0000,
            },
        );
        writes.push(
            Write { offset: RAH0, value: mac[4] as u32 + mac[5] as u32 * 0x100 + RAH_AV },
        );
        let mut entry: u32 = 0;
        while entry < 128
            invariant
                entry <= 128,
                writes@.len() == entry + 2,
                mac@ == self@.mac,
                writes@[0] == (Write {
                    offset: RAL0,
                    value: (mac@[0] + mac@[1] * 0x100 + mac@[2] * 0x1_0000 + mac@[3]
                        * 0x100_0000) as u32,
                }),
                writes@[1] == (Write {
                    offset: RAH0,
                    value: (mac@[4] + mac@[5] * 0x100 + RAH_AV) as u32,
                }),
                forall|i: int|
                    0 <= i < entry ==> #[trigger] writes@[i + 2] == (Write {
                        offset: (MTA + i * 4) as u32,
                        value: 0,
                    }),
            decreases 128 - entry,
        {
            writes.push(Write { offset: MTA + entry * 4, value: 0 });
            entry += 1;
        }
        writes
    }

    /// Move every completed frame off the receive ring into the queue, and
    /// lend the descriptors back. How many frames there were, and the tails to
    /// write, each of them after the descriptor it gives back.
    ///
    /// This copies and does nothing else: no parsing, and no call into the
    /// protocol code.
    pub fn drain_rx(&mut self, ring: &mut Vec<RxDesc>, buffers: &[u8], queue: &mut RxQueue) -> (r: (
        usize,
        Vec<u32>,
    ))
        requires
            old(self).valid(),
            old(queue).valid(),
            old(ring)@.len() == RX_DESCS,
            buffers@.len() == RX_DESCS * BUFFER_SIZE,
        ensures
            final(self).valid(),
            final(queue).valid(),
            ({
                let done = (Drain {
                    ring: old(ring)@,
                    queue: old(queue)@,
                    next: old(self)@.rx_next,
                    tails: Seq::empty(),
                    taken: 0,
                }).drained(buffers@, old(self)@.rx_buffers, RX_DESCS as nat);
                &&& final(ring)@ == done.ring
                &&& final(queue)@ == done.queue
                &&& final(self)@ == CardView { rx_next: done.next, ..old(self)@ }
                &&& r.0 == done.taken
                &&& r.1@ == done.tails
            }),
    {
        let mut taken: usize = 0;
        let mut tails: Vec<u32> = Vec::new();
        let mut steps: usize = 0;
        let ghost first = Drain {
            ring: ring@,
            queue: queue@,
            next: self@.rx_next,
            tails: Seq::empty(),
            taken: 0,
        };
        let ghost whole = first.drained(buffers@, self@.rx_buffers, RX_DESCS as nat);
        assert(tails@ =~= Seq::empty());
        // The done bit is the last thing the card writes, so it is read first:
        // everything else in the descriptor is only meaningful once it is set.
        while steps < RX_DESCS && ring[self.rx_next].status & RX_STATUS_DD != 0
            invariant
                self.valid(),
                queue.valid(),
                steps <= RX_DESCS,
                taken <= steps,
                ring@.len() == RX_DESCS,
                buffers@.len() == RX_DESCS * BUFFER_SIZE,
                self.rx_next < RX_DESCS,
                self@ == (CardView { rx_next: self@.rx_next, ..old(self)@ }),
                (Drain {
                    ring: ring@,
                    queue: queue@,
                    next: self@.rx_next,
                    tails: tails@,
                    taken: taken as nat,
                }).drained(buffers@, old(self)@.rx_buffers, (RX_DESCS - steps) as nat) == whole,
            decreases RX_DESCS - steps,
        {
            let next: usize = self.rx_next;
            let desc = ring[next];
            let ghost now = Drain {
                ring: ring@,
                queue: queue@,
                next: next as int,
                tails: tails@,
                taken: taken as nat,
            };
            let length: usize = desc.length as usize;
            // A frame split across descriptors would need reassembly, but the
            // buffers are larger than the maximum frame, so one descriptor is
            // always one frame.
            let kept = desc.status & RX_STATUS_EOP != 0 && desc.errors == 0 && length >= MIN_FRAME
                && length <= BUFFER_SIZE;
            if kept {
                let from: usize = next * BUFFER_SIZE;
                let frame = crate::bytes::copy_range(buffers, from, from + length);
                queue.push(frame.as_slice());
                taken += 1;
            }
            // Lend the descriptor back. The whole thing is rewritten, buffer
            // address included, because the write-back does not promise to
            // leave it alone. The tail must not move before the status byte is
            // clear, or the card can refill the descriptor and have its new
            // done bit overwritten by this store.
            let fresh = self.fresh_rx_desc(next);
            ring.set(next, fresh);
            tails.push(next as u32);
            self.rx_next = if next + 1 == RX_DESCS {
                0
            } else {
                next + 1
            };
            steps += 1;
            assert(now.one_more(buffers@, old(self)@.rx_buffers) == (Drain {
                ring: ring@,
                queue: queue@,
                next: self@.rx_next,
                tails: tails@,
                taken: taken as nat,
            }));
        }
        (taken, tails)
    }

    /// Deal with what the interrupt cause register said. Whether the network
    /// task has to be woken, and the receive tails to write.
    ///
    /// Reading the cause register is what clears it and drops the card's
    /// interrupt line. The line is level triggered and may be shared, so a
    /// cause of zero means the interrupt belonged to something else. Where the
    /// ring filled before anybody got here and the card dropped frames on its
    /// own, draining is the whole remedy; the count is there so a stack that
    /// loses frames can tell where.
    pub fn handle_interrupt(
        &mut self,
        cause: u32,
        ring: &mut Vec<RxDesc>,
        buffers: &[u8],
        queue: &mut RxQueue,
    ) -> (r: (bool, Vec<u32>))
        requires
            old(self).valid(),
            old(queue).valid(),
            old(ring)@.len() == RX_DESCS,
            buffers@.len() == RX_DESCS * BUFFER_SIZE,
        ensures
            final(self).valid(),
            final(queue).valid(),
            cause == 0 ==> !r.0 && r.1@.len() == 0 && final(self)@ == old(self)@ && final(ring)@
                == old(ring)@ && final(queue)@ == old(queue)@,
            cause != 0 ==> {
                let done = (Drain {
                    ring: old(ring)@,
                    queue: old(queue)@,
                    next: old(self)@.rx_next,
                    tails: Seq::empty(),
                    taken: 0,
                }).drained(buffers@, old(self)@.rx_buffers, RX_DESCS as nat);
                &&& final(ring)@ == done.ring
                &&& final(queue)@ == done.queue
                &&& final(self)@ == CardView {
                    rx_next: done.next,
                    interrupts: counted(old(self)@.interrupts),
                    overruns: if cause & INT_RXO != 0 {
                        counted(old(self)@.overruns)
                    } else {
                        old(self)@.overruns
                    },
                    ..old(self)@
                }
                &&& r.0 == (done.taken > 0)
                &&& r.1@ == done.tails
            },
    {
        if cause == 0 {
            return (false, Vec::new());
        }
        if self.irq_count < u64::MAX {
            self.irq_count += 1;
        }
        if cause & INT_RXO != 0 {
            if self.overruns < u64::MAX {
                self.overruns += 1;
            }
        }
        let (taken, tails) = self.drain_rx(ring, buffers, queue);
        (taken > 0, tails)
    }

    /// Begin to send a frame of `length` bytes: in the descriptor at the tail,
    /// once the card is finished with it. A frame shorter than a header or
    /// longer than a buffer is refused.
    pub fn transmit(&self, length: usize) -> (result: Result<Sending, Errno>)
        ensures
            result == (if length < MIN_FRAME || length > BUFFER_SIZE {
                Err::<Sending, Errno>(Errno::EINVAL)
            } else {
                Ok(
                    Sending {
                        index: self@.tx_next as usize,
                        length: length as u16,
                        filled: false,
                        spins: 0,
                    },
                )
            }),
    {
        if length < MIN_FRAME || length > BUFFER_SIZE {
            return Err(Errno::EINVAL);
        }
        Ok(Sending { index: self.tx_next, length: length as u16, filled: false, spins: 0 })
    }

    /// Go on sending a frame, given the status of its descriptor.
    ///
    /// The descriptor at the tail has to be one the card is finished with.
    /// Every descriptor starts marked done and a transmit waits for the done
    /// bit before it is over, so this only waits if the ring has wrapped onto
    /// something still in flight. A transmit may not sleep, so the waits are
    /// spins, and a card that does not answer in time is an error.
    pub fn transmit_step(&mut self, sending: &mut Sending, status: u8) -> (action: TxAction)
        requires
            old(self).valid(),
            old(sending).index < TX_DESCS,
            old(sending).spins <= TX_SPIN_LIMIT,
        ensures
            final(self).valid(),
            (final(self)@, *final(sending), action) == went_on(old(self)@, *old(sending), status),
    {
        if status & TX_STATUS_DD == 0 {
            sending.spins = sending.spins + 1;
            return if sending.spins > TX_SPIN_LIMIT {
                TxAction::Failed
            } else {
                TxAction::Look
            };
        }
        if sending.filled {
            return TxAction::Sent;
        }
        let index: usize = sending.index;
        let next: usize = if index + 1 == TX_DESCS {
            0
        } else {
            index + 1
        };
        self.tx_next = next;
        sending.filled = true;
        sending.spins = 0;
        TxAction::Fill {
            desc: TxDesc {
                addr: self.tx_buffers + (index * BUFFER_SIZE) as u64,
                length: sending.length,
                cso: 0,
                cmd: TX_CMD,
                status: 0,
                css: 0,
                special: 0,
            },
            tail: next as u32,
        }
    }
}

/// What going on to send a frame comes to, given the status of its descriptor:
/// the card, how far the frame has got, and what to do next.
pub open spec fn went_on(card: CardView, was: Sending, status: u8) -> (CardView, Sending, TxAction) {
    let next: int = if was.index + 1 == TX_DESCS {
        0
    } else {
        was.index + 1
    };
    if status & TX_STATUS_DD == 0 {
        (
            card,
            Sending { spins: (was.spins + 1) as u32, ..was },
            if was.spins + 1 > TX_SPIN_LIMIT {
                TxAction::Failed
            } else {
                TxAction::Look
            },
        )
    } else if was.filled {
        (card, was, TxAction::Sent)
    } else {
        (
            CardView { tx_next: next, ..card },
            Sending { filled: true, spins: 0, ..was },
            TxAction::Fill {
                desc: filled_tx(card.tx_buffers, was.index as int, was.length),
                tail: next as u32,
            },
        )
    }
}

/// A drain leaves nothing the card has completed: the descriptor it stops at
/// is one the card has not filled.
pub proof fn a_drain_leaves_nothing(drain: Drain, buffers: Seq<u8>, rx_buffers: u64)
    requires
        drain.ring.len() == RX_DESCS,
        0 <= drain.next < RX_DESCS,
    ensures
        drain.drained(buffers, rx_buffers, RX_DESCS as nat).is_done(),
{
    draining(drain, buffers, rx_buffers, RX_DESCS as nat);
}

/// The place `k` after another on a ring.
spec fn place(next: int, k: int) -> int {
    if next + k < RX_DESCS {
        next + k
    } else {
        next + k - RX_DESCS
    }
}

proof fn draining(drain: Drain, buffers: Seq<u8>, rx_buffers: u64, most: nat)
    requires
        drain.ring.len() == RX_DESCS,
        0 <= drain.next < RX_DESCS,
        most <= RX_DESCS,
        forall|k: int|
            most <= k < RX_DESCS ==> (#[trigger] drain.ring[place(drain.next, k)]).status
                & RX_STATUS_DD == 0,
    ensures
        drain.drained(buffers, rx_buffers, most).is_done(),
    decreases most,
{
    assert(0u8 & RX_STATUS_DD == 0) by (bit_vector);
    if most > 0 && !drain.is_done() {
        let after = drain.one_more(buffers, rx_buffers);
        assert forall|k: int| most - 1 <= k < RX_DESCS implies (#[trigger] after.ring[place(
            after.next,
            k,
        )]).status & RX_STATUS_DD == 0 by {
            if k + 1 < RX_DESCS {
                assert(place(after.next, k) == place(drain.next, k + 1));
                if place(drain.next, k + 1) != drain.next {
                    assert(after.ring[place(drain.next, k + 1)] == drain.ring[place(
                        drain.next,
                        k + 1,
                    )]);
                }
            } else {
                assert(place(after.next, k) == drain.next);
            }
        }
        draining(after, buffers, rx_buffers, (most - 1) as nat);
    } else if most == 0 {
        assert(place(drain.next, 0) == drain.next);
        assert(drain.ring[place(drain.next, 0)].status & RX_STATUS_DD == 0);
    }
}

// ---- bring-up ---------------------------------------------------------------------------

/// Why a card that was found is not brought up.
#[derive(Debug, Clone, Copy, PartialEq, Eq, Structural)]
pub enum Refused {
    /// Without a routed line nothing would ever tell the kernel a frame had
    /// arrived.
    InterruptLine,
    /// Base address register 0 is not memory.
    NotMemory,
    /// Base address register 0 is unassigned.
    Unassigned,
}

/// Whether a card that was found can be brought up: where its registers are
/// and how much of them there is, from the line its interrupt is on and what
/// base address register 0 holds where that is memory.
pub fn probe(irq_line: u8, bar: Option<(u64, u64)>) -> (found: Result<(u64, u64), Refused>)
    ensures
        found == (if irq_line == 0 || irq_line > 15 {
            Err::<(u64, u64), Refused>(Refused::InterruptLine)
        } else {
            match bar {
                None => Err::<(u64, u64), Refused>(Refused::NotMemory),
                Some((addr, size)) => if addr == 0 || size == 0 {
                    Err::<(u64, u64), Refused>(Refused::Unassigned)
                } else {
                    Ok((addr, size))
                },
            }
        }),
{
    if irq_line == 0 || irq_line > 15 {
        return Err(Refused::InterruptLine);
    }
    match bar {
        None => Err(Refused::NotMemory),
        Some((addr, size)) => if addr == 0 || size == 0 {
            Err(Refused::Unassigned)
        } else {
            Ok((addr, size))
        },
    }
}

/// How many pages hold `bytes` bytes.
pub fn pages_for(bytes: usize) -> (pages: usize)
    requires
        bytes + 4095 <= usize::MAX,
    ensures
        pages == (bytes + 4095) / 4096,
{
    (bytes + 4095) / 4096
}

/// What else an interrupt on a line the card shares may be for. PCI interrupt
/// lines are shared, and can land on one the console also uses, so it is
/// passed on rather than swallowed.
#[derive(Debug, Clone, Copy, PartialEq, Eq, Structural)]
pub enum Shared {
    Keyboard,
    Serial,
    Nothing,
}

pub fn also_for(irq: u8) -> (other: Shared)
    ensures
        other == (if irq == 1 {
            Shared::Keyboard
        } else if irq == 3 || irq == 4 {
            Shared::Serial
        } else {
            Shared::Nothing
        }),
{
    match irq {
        1 => Shared::Keyboard,
        3 => Shared::Serial,
        4 => Shared::Serial,
        _ => Shared::Nothing,
    }
}

} // verus!
