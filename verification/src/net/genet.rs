//! Broadcom GENET v5, the wired Ethernet inside a BCM2711: its rings, its
//! registers, and what its interrupts come to.
//!
//! **It is not on a bus that can be enumerated.** The firmware describes it in
//! the device tree, with where the registers are, which interrupt line it
//! raises, and what hardware address the board was built with.
//!
//! **The descriptors are not in memory.** They are 256 twelve-byte slots inside
//! the device's own register block. Only the packet buffers are in memory, and
//! the caches are not coherent with the device.
//!
//! **The link is a separate chip**, which is what `genet_phy` is about. Nothing
//! can be sent until it says the link is up, and what it settled on has to be
//! written back into the controller, which does not find out by itself.
//!
//! What a register has to be given is handed out here as a list of operations,
//! in order, and what one read gives is an argument.

use crate::errno::Errno;
use crate::mm::frame::{BitmapAllocator, FramesView};
use crate::net::genet_phy::{self, mac_from, phy_address_from, phy_mode_from, Link, PhyMode};
use crate::net::rx_queue::{QueueView, RxQueue};
use vstd::prelude::*;

verus! {

// Registers, as byte offsets from the start of the window. Each is 32 bits.
/// Version, and which PHY is fitted.
pub const SYS_REV_CTRL: u32 = 0x0000;

/// Which kind of PHY the port is wired to.
pub const SYS_PORT_CTRL: u32 = 0x0004;

/// Bit 1 holds the MAC in reset.
pub const SYS_RBUF_FLUSH_CTRL: u32 = 0x0008;

pub const FLUSH_RESET: u32 = 0x2;

/// An external gigabit PHY on RGMII.
pub const PORT_MODE_EXT_GPHY: u32 = 3;

pub const EXT_RGMII_OOB_CTRL: u32 = 0x008C;

/// Tell the RGMII block the link is up. Without it nothing leaves the port.
pub const RGMII_LINK: u32 = 0x10;

/// Out-of-band status input, which this board does not use.
pub const OOB_DISABLE: u32 = 0x20;

pub const RGMII_MODE_EN: u32 = 0x40;

/// Turn *off* the delay the controller otherwise puts on the transmit clock.
pub const ID_MODE_DIS: u32 = 0x1_0000;

/// The first of the two interrupt controllers inside the block.
pub const INTRL2_0: u32 = 0x0200;

pub const INTRL2_1: u32 = 0x0240;

pub const INTRL2_CPU_STAT: u32 = 0x00;

pub const INTRL2_CPU_CLEAR: u32 = 0x08;

pub const INTRL2_CPU_MASK_STATUS: u32 = 0x0C;

pub const INTRL2_CPU_MASK_SET: u32 = 0x10;

pub const INTRL2_CPU_MASK_CLEAR: u32 = 0x14;

pub const IRQ_RBUF_OVERFLOW: u32 = 0x200;

/// A receive descriptor's worth of work is done on the default ring.
pub const IRQ_RXDMA_DONE: u32 = 0x2000;

pub const RBUF_CTRL: u32 = 0x0300;

/// Put a 64-byte status block in front of every received frame.
pub const RBUF_64B_EN: u32 = 0x1;

/// Put two bytes in front of every received frame, so the IP header inside it
/// lands on a four-byte boundary.
pub const RBUF_ALIGN_2B: u32 = 0x2;

pub const RBUF_TBUF_SIZE_CTRL: u32 = 0x03B4;

pub const TBUF_CTRL: u32 = 0x0600;

/// Expect a 64-byte status block in front of every frame handed over.
pub const TBUF_64B_EN: u32 = 0x1;

pub const UMAC_CMD: u32 = 0x0808;

pub const UMAC_MAC0: u32 = 0x080C;

pub const UMAC_MAC1: u32 = 0x0810;

pub const UMAC_MAX_FRAME_LEN: u32 = 0x0814;

pub const UMAC_TX_FLUSH: u32 = 0x0B34;

pub const UMAC_MIB_CTRL: u32 = 0x0D80;

pub const UMAC_MDIO_CMD: u32 = 0x0E14;

pub const UMAC_MDF_CTRL: u32 = 0x0E50;

/// Transmit and receive enabled.
pub const CMD_ENABLE: u32 = 0x3;

/// Take every frame, whoever it is addressed to.
pub const CMD_PROMISC: u32 = 0x10;

/// Half duplex.
pub const CMD_HD_EN: u32 = 0x400;

/// Reset, with the (RG)MII looped back inside the block so the receive clock is
/// steady while the MAC is being set up.
pub const CMD_RESET: u32 = 0xA000;

/// Pause frames ignored in both directions.
pub const CMD_PAUSE_IGNORE: u32 = 0x1000_0100;

/// What a link's settings replace: the speed, the duplex, the pauses, the reset
/// and the loop.
pub const CMD_LINK_BITS: u32 = 0x1000_A50C;

/// Every counter reset.
pub const MIB_RESET: u32 = 0x7;

/// Body 1500, Ethernet header 14, VLAN tag 4, Broadcom tag 6, CRC 4, pad 8.
pub const MAX_FRAME_LEN: u32 = 1536;

/// Descriptors the hardware has, per direction.
pub const TOTAL_DESCS: usize = 256;

/// Three 32-bit words to a descriptor.
pub const DESC_SIZE: u32 = 12;

pub const DESC_LENGTH_STATUS: u32 = 0x00;

pub const DESC_ADDRESS_LO: u32 = 0x04;

pub const DESC_ADDRESS_HI: u32 = 0x08;

pub const RDMA_DESCS: u32 = 0x2000;

pub const TDMA_DESCS: u32 = 0x4000;

/// The ring every frame goes through. Sixteen priority rings sit below it and
/// none of them is enabled.
pub const DEFAULT_RING: u32 = 16;

pub const RDMA_RING: u32 = 0x3000;

pub const TDMA_RING: u32 = 0x5000;

pub const RDMA_CTRL: u32 = 0x3040;

pub const TDMA_CTRL: u32 = 0x5040;

/// Where the descriptors, the rings and the control registers of the two
/// directions are follows from how large each is: 256 descriptors, then
/// seventeen ring register sets of 64 bytes, then the control registers.
pub proof fn the_blocks_follow_each_other()
    ensures
        RDMA_RING == RDMA_DESCS + TOTAL_DESCS * DESC_SIZE + DEFAULT_RING * 0x40,
        TDMA_RING == TDMA_DESCS + TOTAL_DESCS * DESC_SIZE + DEFAULT_RING * 0x40,
        RDMA_CTRL == RDMA_RING + 0x40,
        TDMA_CTRL == TDMA_RING + 0x40,
{
}

// Per-ring registers. Where the two directions give one a different meaning it
// has two names.
pub const RDMA_WRITE_PTR: u32 = 0x00;

pub const TDMA_READ_PTR: u32 = 0x00;

/// The device's cursor.
pub const RDMA_PROD_INDEX: u32 = 0x08;

/// The device's cursor.
pub const TDMA_CONS_INDEX: u32 = 0x08;

/// The kernel's cursor.
pub const RDMA_CONS_INDEX: u32 = 0x0C;

/// The kernel's cursor.
pub const TDMA_PROD_INDEX: u32 = 0x0C;

pub const DMA_RING_BUF_SIZE: u32 = 0x10;

pub const DMA_START_ADDR: u32 = 0x14;

pub const DMA_END_ADDR: u32 = 0x1C;

pub const DMA_MBUF_DONE_THRESH: u32 = 0x24;

pub const RDMA_XON_XOFF_THRESH: u32 = 0x28;

pub const TDMA_FLOW_PERIOD: u32 = 0x28;

pub const RDMA_READ_PTR: u32 = 0x2C;

pub const TDMA_WRITE_PTR: u32 = 0x2C;

// Control registers of one direction.
pub const DMA_RING_CFG: u32 = 0x00;

pub const DMA_CTRL: u32 = 0x04;

pub const DMA_SCB_BURST_SIZE: u32 = 0x0C;

/// Per-ring interrupt timeout, one register each from ring zero up.
pub const DMA_RING0_TIMEOUT: u32 = 0x2C;

pub const DMA_EN: u32 = 0x1;

/// The engine, and the default ring in it.
pub const DMA_ENABLE: u32 = 0x2_0001;

pub const RING_CFG: u32 = 0x1_0000;

/// How much the controller may move in one burst on the internal bus.
pub const DMA_MAX_BURST_LENGTH: u32 = 0x08;

pub const DMA_EOP: u32 = 0x4000;

pub const DMA_SOP: u32 = 0x2000;

/// The status half of a whole frame's transmit descriptor: the queue tag all
/// ones, the CRC appended, and the descriptor both the start and the end.
pub const TX_STATUS: u32 = 0x7FC0;

/// Every error a received descriptor can report.
pub const DMA_RX_ERRORS: u32 = 0x1F;

/// Bytes per packet buffer.
pub const BUFFER_SIZE: usize = 2048;

/// The two bytes in front of a received frame. The length the descriptor
/// reports includes them.
pub const RX_BUF_OFFSET: usize = 2;

/// The shortest frame: an Ethernet header.
pub const MIN_FRAME: usize = 14;

/// Descriptors used, of the 256 there are. A ring's size has to divide the
/// index space so that a descriptor's position is the index's low bits.
pub const RX_DESCS: usize = 256;

pub const TX_DESCS: usize = 64;

/// Both indices count frames modulo this, whatever the ring's size is.
pub const INDICES: u32 = 0x1_0000;

/// Flow control thresholds for the receive ring, in descriptors: ask the other
/// end to pause when five are left, resume when sixteen are free again.
pub const FC_THRESHOLDS: u32 = 0x5_0010;

/// How long a transmit waits for a descriptor before the frame is dropped, in
/// microseconds. Long enough for a gigabit link to empty a full ring twice over
/// and short enough not to hold the timer off if it never does.
pub const TX_WAIT_US: u64 = 2_000;

/// Ticks between looks at the phy. The link changes when a cable is moved, so
/// half a second is as often as it is worth asking.
pub const LINK_POLL_TICKS: u64 = 50;

/// What the arithmetic takes for granted: the rings fit in the descriptors
/// there are and divide the index space, no buffer straddles a page, and a
/// frame the controller accepts fits in one.
pub proof fn the_sizes_fit()
    ensures
        RX_DESCS <= TOTAL_DESCS,
        TX_DESCS <= TOTAL_DESCS,
        INDICES as int % RX_DESCS as int == 0,
        INDICES as int % TX_DESCS as int == 0,
        4096int % BUFFER_SIZE as int == 0,
        MAX_FRAME_LEN <= BUFFER_SIZE,
{
}

/// Something to do to the registers.
#[derive(Debug, Clone, Copy, PartialEq, Eq, Structural)]
pub enum Op {
    Write { offset: u32, value: u32 },
    /// Read it, clear some bits, set others, and write it back.
    Modify { offset: u32, clear: u32, set: u32 },
    /// Wait this many microseconds.
    Delay(u64),
}

// ---- the arithmetic of the rings --------------------------------------------------------

/// Where descriptor `index` of the receive ring is, as an offset into the
/// register window.
pub fn rx_desc(index: usize) -> (offset: u32)
    requires
        index <= TOTAL_DESCS,
    ensures
        offset == RDMA_DESCS + index * DESC_SIZE,
{
    RDMA_DESCS + index as u32 * DESC_SIZE
}

pub fn tx_desc(index: usize) -> (offset: u32)
    requires
        index <= TOTAL_DESCS,
    ensures
        offset == TDMA_DESCS + index * DESC_SIZE,
{
    TDMA_DESCS + index as u32 * DESC_SIZE
}

/// Which descriptor a producer or consumer index refers to. The index counts
/// frames and wraps at 65536; the ring holds `count` descriptors and `count`
/// divides 65536, so the wrap of one is the wrap of the other.
pub fn slot(index: u32, count: usize) -> (place: usize)
    requires
        0 < count <= 0x1_0000,
    ensures
        place == index as int % count as int,
        place < count,
{
    (index % count as u32) as usize
}

/// How far one cursor is ahead of the other, across the point where both wrap.
pub open spec fn ahead(producer: u32, consumer: u32) -> int {
    (producer - consumer) % 0x1_0000
}

/// How many descriptors the far cursor is ahead of the near one, across the
/// point where both wrap.
pub fn outstanding(producer: u32, consumer: u32) -> (count: u32)
    ensures
        count == ahead(producer, consumer),
{
    let a: u32 = producer % INDICES;
    let b: u32 = consumer % INDICES;
    if a >= b {
        a - b
    } else {
        a + INDICES - b
    }
}

/// Going on by what is outstanding gets from one cursor to the other, and the
/// place in the ring moves with the cursor across the wrap.
pub proof fn cursors_and_places_wrap_together(producer: u32, consumer: u32, count: usize)
    requires
        producer < INDICES,
        consumer < INDICES,
        count == RX_DESCS || count == TX_DESCS,
    ensures
        (consumer + ahead(producer, consumer)) % 0x1_0000 == producer,
        (consumer + 1) % 0x1_0000 % (count as int) == (consumer as int % count as int + 1) % (
        count as int),
{
}

/// The length-and-status word for a frame of `len` bytes occupying one whole
/// descriptor.
pub fn tx_length_status(len: usize) -> (word: u32)
    requires
        len <= 0xFFFF,
    ensures
        word == len * 0x1_0000 + TX_STATUS,
{
    len as u32 * 0x1_0000 + TX_STATUS
}

/// The byte count out of a received descriptor's word, including the two
/// alignment bytes in front of the frame.
pub fn rx_length(length_status: u32) -> (len: usize)
    ensures
        len == length_status / 0x1_0000 % 0x1000,
{
    (length_status / 0x1_0000 % 0x1000) as usize
}

/// Where a ring starts, in 32-bit words.
pub fn ring_start_word(first: usize) -> (word: u32)
    requires
        first <= TOTAL_DESCS,
    ensures
        word == first * 3,
{
    first as u32 * 3
}

/// Where a ring ends, in 32-bit words: the last word, not one past it.
pub fn ring_end_word(count: usize) -> (word: u32)
    requires
        0 < count <= TOTAL_DESCS,
    ensures
        word == count * 3 - 1,
{
    count as u32 * 3 - 1
}

/// `micros` microseconds, as a count of counter ticks. Rounded up, so a wait
/// shorter than one tick still waits for one. A counter that reports no rate
/// waits for none.
pub fn counter_ticks(micros: u64, frequency: u64) -> (ticks: u64)
    requires
        micros * frequency + 999_999 <= u64::MAX,
    ensures
        ticks == (if frequency == 0 {
            0
        } else {
            (micros * frequency + 999_999) / 1_000_000
        }),
{
    if frequency == 0 {
        return 0;
    }
    (micros * frequency + 999_999) / 1_000_000
}

/// The version in the top byte of the revision register. The part reports one
/// more than the generation it belongs to from the fourth on.
pub fn version(revision: u32) -> (version: u32)
    ensures
        ({
            let major = revision / 0x100_0000 % 16;
            version == (if major == 6 {
                5
            } else if major == 5 {
                4
            } else if major == 0 {
                1
            } else {
                major as int
            })
        }),
{
    let major: u32 = revision / 0x100_0000 % 16;
    match major {
        6 => 5,
        5 => 4,
        0 => 1,
        other => other,
    }
}

// ---- bringing the controller up ---------------------------------------------------------

/// Point the port at an external gigabit PHY and set the RGMII block up for it.
///
/// The out-of-band status input is not wired, and the RGMII block has to be
/// switched on or the port does nothing at all. The delay the controller puts
/// on the transmit clock is turned off only for plain RGMII, where the board's
/// traces are meant to have done it.
pub fn set_port_mode(mode: PhyMode) -> (ops: Vec<Op>)
    ensures
        ops@ == seq![
            Op::Write { offset: SYS_PORT_CTRL, value: PORT_MODE_EXT_GPHY },
            Op::Modify {
                offset: EXT_RGMII_OOB_CTRL,
                clear: OOB_DISABLE | ID_MODE_DIS,
                set: if mode is Rgmii {
                    RGMII_MODE_EN | ID_MODE_DIS
                } else {
                    RGMII_MODE_EN | 0
                },
            },
        ],
{
    let id_mode_dis: u32 = match mode {
        PhyMode::Rgmii => ID_MODE_DIS,
        _ => 0,
    };
    let mut ops: Vec<Op> = Vec::new();
    ops.push(Op::Write { offset: SYS_PORT_CTRL, value: PORT_MODE_EXT_GPHY });
    ops.push(
        Op::Modify {
            offset: EXT_RGMII_OOB_CTRL,
            clear: OOB_DISABLE | ID_MODE_DIS,
            set: RGMII_MODE_EN | id_mode_dis,
        },
    );
    assert(ops@ =~= seq![
        Op::Write { offset: SYS_PORT_CTRL, value: PORT_MODE_EXT_GPHY },
        Op::Modify {
            offset: EXT_RGMII_OOB_CTRL,
            clear: OOB_DISABLE | ID_MODE_DIS,
            set: RGMII_MODE_EN | id_mode_dis,
        },
    ]);
    ops
}

/// Hold the MAC in reset and quiet the receive buffer, so that the management
/// bus can be used while nothing is moving.
pub fn hold_in_reset() -> (ops: Vec<Op>)
    ensures
        ops@ == seq![
            Op::Write { offset: SYS_RBUF_FLUSH_CTRL, value: 0 },
            Op::Delay(10),
            Op::Write { offset: UMAC_CMD, value: 0 },
            Op::Write { offset: UMAC_CMD, value: CMD_RESET },
            Op::Delay(2),
        ],
{
    let mut ops: Vec<Op> = Vec::new();
    ops.push(Op::Write { offset: SYS_RBUF_FLUSH_CTRL, value: 0 });
    ops.push(Op::Delay(10));
    ops.push(Op::Write { offset: UMAC_CMD, value: 0 });
    ops.push(Op::Write { offset: UMAC_CMD, value: CMD_RESET });
    ops.push(Op::Delay(2));
    assert(ops@ =~= seq![
        Op::Write { offset: SYS_RBUF_FLUSH_CTRL, value: 0 },
        Op::Delay(10),
        Op::Write { offset: UMAC_CMD, value: 0 },
        Op::Write { offset: UMAC_CMD, value: CMD_RESET },
        Op::Delay(2),
    ]);
    ops
}

/// Every interrupt masked and acknowledged.
pub open spec fn masking() -> Seq<Op> {
    seq![
        Op::Write { offset: 0x210, value: 0xFFFF_FFFF },
        Op::Write { offset: 0x208, value: 0xFFFF_FFFF },
        Op::Write { offset: 0x250, value: 0xFFFF_FFFF },
        Op::Write { offset: 0x248, value: 0xFFFF_FFFF },
    ]
}

pub fn mask_interrupts(ops: &mut Vec<Op>)
    ensures
        final(ops)@ == old(ops)@ + masking(),
{
    ops.push(Op::Write { offset: INTRL2_0 + INTRL2_CPU_MASK_SET, value: 0xFFFF_FFFF });
    ops.push(Op::Write { offset: INTRL2_0 + INTRL2_CPU_CLEAR, value: 0xFFFF_FFFF });
    ops.push(Op::Write { offset: INTRL2_1 + INTRL2_CPU_MASK_SET, value: 0xFFFF_FFFF });
    ops.push(Op::Write { offset: INTRL2_1 + INTRL2_CPU_CLEAR, value: 0xFFFF_FFFF });
    assert(ops@ =~= old(ops)@ + masking());
}

/// Take the MAC through its reset and leave it configured but stopped, given
/// what the flush register held.
///
/// Raising and lowering the bit that holds the MAC in reset is what takes it
/// out. Two bytes go in front of every received frame, and no status blocks in
/// either direction: they are cleared outright, so that a reset value of one
/// cannot turn a frame into sixty-four bytes of status followed by a truncated
/// frame.
pub fn reset(flush: u32) -> (ops: Vec<Op>)
    ensures
        ops@ == seq![
            Op::Write { offset: SYS_RBUF_FLUSH_CTRL, value: flush | FLUSH_RESET },
            Op::Delay(10),
            Op::Write { offset: SYS_RBUF_FLUSH_CTRL, value: flush & !FLUSH_RESET },
            Op::Delay(10),
            Op::Write { offset: SYS_RBUF_FLUSH_CTRL, value: 0 },
            Op::Delay(10),
            Op::Write { offset: UMAC_CMD, value: 0 },
            Op::Write { offset: UMAC_CMD, value: CMD_RESET },
            Op::Delay(2),
            Op::Write { offset: UMAC_CMD, value: 0 },
            Op::Write { offset: UMAC_MIB_CTRL, value: MIB_RESET },
            Op::Write { offset: UMAC_MIB_CTRL, value: 0 },
            Op::Write { offset: UMAC_MAX_FRAME_LEN, value: MAX_FRAME_LEN },
            Op::Modify { offset: RBUF_CTRL, clear: RBUF_64B_EN, set: RBUF_ALIGN_2B },
            Op::Modify { offset: TBUF_CTRL, clear: TBUF_64B_EN, set: 0 },
            Op::Write { offset: RBUF_TBUF_SIZE_CTRL, value: 1 },
        ] + masking(),
{
    let mut ops: Vec<Op> = Vec::new();
    ops.push(Op::Write { offset: SYS_RBUF_FLUSH_CTRL, value: flush | FLUSH_RESET });
    ops.push(Op::Delay(10));
    ops.push(Op::Write { offset: SYS_RBUF_FLUSH_CTRL, value: flush & !FLUSH_RESET });
    ops.push(Op::Delay(10));
    ops.push(Op::Write { offset: SYS_RBUF_FLUSH_CTRL, value: 0 });
    ops.push(Op::Delay(10));
    ops.push(Op::Write { offset: UMAC_CMD, value: 0 });
    ops.push(Op::Write { offset: UMAC_CMD, value: CMD_RESET });
    ops.push(Op::Delay(2));
    ops.push(Op::Write { offset: UMAC_CMD, value: 0 });
    ops.push(Op::Write { offset: UMAC_MIB_CTRL, value: MIB_RESET });
    ops.push(Op::Write { offset: UMAC_MIB_CTRL, value: 0 });
    ops.push(Op::Write { offset: UMAC_MAX_FRAME_LEN, value: MAX_FRAME_LEN });
    ops.push(Op::Modify { offset: RBUF_CTRL, clear: RBUF_64B_EN, set: RBUF_ALIGN_2B });
    ops.push(Op::Modify { offset: TBUF_CTRL, clear: TBUF_64B_EN, set: 0 });
    ops.push(Op::Write { offset: RBUF_TBUF_SIZE_CTRL, value: 1 });
    assert(ops@ =~= seq![
        Op::Write { offset: SYS_RBUF_FLUSH_CTRL, value: flush | FLUSH_RESET },
        Op::Delay(10),
        Op::Write { offset: SYS_RBUF_FLUSH_CTRL, value: flush & !FLUSH_RESET },
        Op::Delay(10),
        Op::Write { offset: SYS_RBUF_FLUSH_CTRL, value: 0 },
        Op::Delay(10),
        Op::Write { offset: UMAC_CMD, value: 0 },
        Op::Write { offset: UMAC_CMD, value: CMD_RESET },
        Op::Delay(2),
        Op::Write { offset: UMAC_CMD, value: 0 },
        Op::Write { offset: UMAC_MIB_CTRL, value: MIB_RESET },
        Op::Write { offset: UMAC_MIB_CTRL, value: 0 },
        Op::Write { offset: UMAC_MAX_FRAME_LEN, value: MAX_FRAME_LEN },
        Op::Modify { offset: RBUF_CTRL, clear: RBUF_64B_EN, set: RBUF_ALIGN_2B },
        Op::Modify { offset: TBUF_CTRL, clear: TBUF_64B_EN, set: 0 },
        Op::Write { offset: RBUF_TBUF_SIZE_CTRL, value: 1 },
    ]);
    mask_interrupts(&mut ops);
    ops
}

/// Write the hardware address where the controller keeps it: the first four
/// bytes in one register and the last two in the next, each in the order they
/// go on the wire. And leave the controller's destination-address filter
/// switched off: the stack already discards frames that are not addressed to
/// this machine, and a filter programmed wrongly drops every frame with nothing
/// to show for it.
pub fn set_hw_addr(mac: &[u8; 6]) -> (ops: Vec<Op>)
    ensures
        ops@ == seq![
            Op::Write {
                offset: UMAC_MAC0,
                value: (mac@[0] * 0x100_0000 + mac@[1] * 0x1_0000 + mac@[2] * 0x100
                    + mac@[3]) as u32,
            },
            Op::Write { offset: UMAC_MAC1, value: (mac@[4] * 0x100 + mac@[5]) as u32 },
            Op::Write { offset: UMAC_MDF_CTRL, value: 0 },
            Op::Modify { offset: UMAC_CMD, clear: 0, set: CMD_PROMISC },
        ],
{
    let mut ops: Vec<Op> = Vec::new();
    let first: u32 = mac[0] as u32 * 0x100_0000 + mac[1] as u32 * 0x1_0000 + mac[2] as u32 * 0x100
        + mac[3] as u32;
    let second: u32 = mac[4] as u32 * 0x100 + mac[5] as u32;
    ops.push(Op::Write { offset: UMAC_MAC0, value: first });
    ops.push(Op::Write { offset: UMAC_MAC1, value: second });
    ops.push(Op::Write { offset: UMAC_MDF_CTRL, value: 0 });
    ops.push(Op::Modify { offset: UMAC_CMD, clear: 0, set: CMD_PROMISC });
    assert(ops@ =~= seq![
        Op::Write { offset: UMAC_MAC0, value: first },
        Op::Write { offset: UMAC_MAC1, value: second },
        Op::Write { offset: UMAC_MDF_CTRL, value: 0 },
        Op::Modify { offset: UMAC_CMD, clear: 0, set: CMD_PROMISC },
    ]);
    ops
}

/// Stop both engines and empty the transmit path.
pub fn disable_dma() -> (ops: Vec<Op>)
    ensures
        ops@ == seq![
            Op::Modify { offset: (TDMA_CTRL + DMA_CTRL) as u32, clear: DMA_EN, set: 0 },
            Op::Modify { offset: (RDMA_CTRL + DMA_CTRL) as u32, clear: DMA_EN, set: 0 },
            Op::Write { offset: UMAC_TX_FLUSH, value: 1 },
            Op::Delay(10),
            Op::Write { offset: UMAC_TX_FLUSH, value: 0 },
        ],
{
    let mut ops: Vec<Op> = Vec::new();
    ops.push(Op::Modify { offset: TDMA_CTRL + DMA_CTRL, clear: DMA_EN, set: 0 });
    ops.push(Op::Modify { offset: RDMA_CTRL + DMA_CTRL, clear: DMA_EN, set: 0 });
    ops.push(Op::Write { offset: UMAC_TX_FLUSH, value: 1 });
    ops.push(Op::Delay(10));
    ops.push(Op::Write { offset: UMAC_TX_FLUSH, value: 0 });
    assert(ops@ =~= seq![
        Op::Modify { offset: (TDMA_CTRL + DMA_CTRL) as u32, clear: DMA_EN, set: 0 },
        Op::Modify { offset: (RDMA_CTRL + DMA_CTRL) as u32, clear: DMA_EN, set: 0 },
        Op::Write { offset: UMAC_TX_FLUSH, value: 1 },
        Op::Delay(10),
        Op::Write { offset: UMAC_TX_FLUSH, value: 0 },
    ]);
    ops
}

pub fn enable_dma() -> (ops: Vec<Op>)
    ensures
        ops@ == seq![
            Op::Modify { offset: (RDMA_CTRL + DMA_CTRL) as u32, clear: 0, set: DMA_ENABLE },
            Op::Modify { offset: (TDMA_CTRL + DMA_CTRL) as u32, clear: 0, set: DMA_ENABLE },
        ],
{
    let mut ops: Vec<Op> = Vec::new();
    ops.push(Op::Modify { offset: RDMA_CTRL + DMA_CTRL, clear: 0, set: DMA_ENABLE });
    ops.push(Op::Modify { offset: TDMA_CTRL + DMA_CTRL, clear: 0, set: DMA_ENABLE });
    assert(ops@ =~= seq![
        Op::Modify { offset: (RDMA_CTRL + DMA_CTRL) as u32, clear: 0, set: DMA_ENABLE },
        Op::Modify { offset: (TDMA_CTRL + DMA_CTRL) as u32, clear: 0, set: DMA_ENABLE },
    ]);
    ops
}

/// The bits of the command register a link's speed takes. The speed is what
/// selects the transmit clock; getting it wrong does not slow the link down, it
/// corrupts every frame sent.
pub open spec fn speed_bits(speed: u32) -> u32 {
    if speed == 1000 {
        8
    } else if speed == 100 {
        4
    } else {
        0
    }
}

/// What a link's settings set.
pub open spec fn link_bits(link: Link) -> u32 {
    let base = speed_bits(link.speed) | CMD_PAUSE_IGNORE;
    let duplex = if link.full_duplex {
        base
    } else {
        base | CMD_HD_EN
    };
    duplex | CMD_PROMISC | CMD_ENABLE
}

/// What tells the controller what the link turned out to be, and lets frames
/// through or stops them.
pub open spec fn link_ops(link: Link) -> Seq<Op> {
    if !link.up {
        seq![
            Op::Modify { offset: EXT_RGMII_OOB_CTRL, clear: RGMII_LINK, set: 0 },
            Op::Modify { offset: UMAC_CMD, clear: CMD_ENABLE, set: 0 },
        ]
    } else {
        seq![
            Op::Modify { offset: EXT_RGMII_OOB_CTRL, clear: 0, set: RGMII_LINK },
            Op::Modify { offset: UMAC_CMD, clear: CMD_LINK_BITS, set: link_bits(link) },
        ]
    }
}

/// Tell the controller what the link turned out to be, and let frames through.
///
/// Nothing here negotiates pause frames or would know what to do with one, so
/// both directions ignore them whatever the duplex is. Every frame is taken,
/// because the stack decides what is addressed to it.
pub fn apply_link(link: Link) -> (ops: Vec<Op>)
    ensures
        ops@ == link_ops(link),
{
    let mut ops: Vec<Op> = Vec::new();
    if !link.up {
        ops.push(Op::Modify { offset: EXT_RGMII_OOB_CTRL, clear: RGMII_LINK, set: 0 });
        ops.push(Op::Modify { offset: UMAC_CMD, clear: CMD_ENABLE, set: 0 });
        assert(ops@ =~= link_ops(link));
        return ops;
    }
    ops.push(Op::Modify { offset: EXT_RGMII_OOB_CTRL, clear: 0, set: RGMII_LINK });
    let speed: u32 = match link.speed {
        1000 => 8,
        100 => 4,
        _ => 0,
    };
    let mut set: u32 = speed | CMD_PAUSE_IGNORE;
    if !link.full_duplex {
        set = set | CMD_HD_EN;
    }
    set = set | CMD_PROMISC | CMD_ENABLE;
    ops.push(Op::Modify { offset: UMAC_CMD, clear: CMD_LINK_BITS, set });
    assert(ops@ =~= link_ops(link));
    ops
}

// ---- the controller -----------------------------------------------------------------------

/// The controller: its address, its buffers, where the kernel is in each ring,
/// what the link last was, and what has been counted.
pub struct Genet {
    mac: [u8; 6],
    mode: PhyMode,
    phy: u8,
    rx_buffers: Vec<u64>,
    tx_buffers: Vec<u64>,
    /// Frames handed back to the device so far, which is the register the
    /// kernel owns and also says which descriptor comes next.
    consumer: u32,
    /// Frames handed to the device so far.
    producer: u32,
    link: Link,
    irq_count: u64,
    overruns: u64,
    /// The highest the receive engine's own count of discarded frames has been
    /// seen at. It is cumulative and there is no way to clear it that does not
    /// also write the producer index, which belongs to the device.
    discards: u64,
    /// Frames given up on because the transmit ring stayed full.
    blocked: u64,
}

#[verifier::ext_equal]
pub struct GenetView {
    pub mac: Seq<u8>,
    pub mode: PhyMode,
    pub phy: u8,
    pub rx_buffers: Seq<u64>,
    pub tx_buffers: Seq<u64>,
    pub consumer: u32,
    pub producer: u32,
    pub link: Link,
    pub interrupts: u64,
    pub overruns: u64,
    pub discards: u64,
    pub blocked: u64,
}

impl GenetView {
    pub open spec fn valid(self) -> bool {
        &&& self.rx_buffers.len() == RX_DESCS
        &&& self.tx_buffers.len() == TX_DESCS
        &&& self.consumer < INDICES
        &&& self.producer < INDICES
        &&& self.discards <= 0xFFFF
        &&& self.overruns <= u64::MAX - 0x1_0000
    }
}

impl View for Genet {
    type V = GenetView;

    closed spec fn view(&self) -> GenetView {
        GenetView {
            mac: self.mac@,
            mode: self.mode,
            phy: self.phy,
            rx_buffers: self.rx_buffers@,
            tx_buffers: self.tx_buffers@,
            consumer: self.consumer,
            producer: self.producer,
            link: self.link,
            interrupts: self.irq_count,
            overruns: self.overruns,
            discards: self.discards,
            blocked: self.blocked,
        }
    }
}

/// One more, as far as a count goes.
pub open spec fn counted(count: u64, last: u64) -> u64 {
    if count < last {
        (count + 1) as u64
    } else {
        count
    }
}

/// What a drain works on: the queue, the kernel's cursor, and the cursors it
/// has given back so far.
#[verifier::ext_equal]
pub struct Drain {
    pub queue: QueueView,
    pub consumer: u32,
    pub cursors: Seq<u32>,
    pub taken: nat,
}

/// Whether a descriptor's word is that of a frame to keep: all of one, of a
/// length one can have, with no error.
pub open spec fn is_kept(word: u32) -> bool {
    let length = word / 0x1_0000 % 0x1000;
    &&& word & DMA_SOP != 0
    &&& word & DMA_EOP != 0
    &&& RX_BUF_OFFSET + MIN_FRAME <= length <= BUFFER_SIZE
    &&& word & DMA_RX_ERRORS == 0
}

impl Drain {
    /// One descriptor's frame queued, without the two bytes in front of it,
    /// and the descriptor lent back. The buffer address has not moved, so only
    /// the cursor advances.
    pub open spec fn one_more(self, words: Seq<u32>, buffers: Seq<Seq<u8>>) -> Drain {
        let place = self.consumer as int % 256;
        let word = words[place];
        let next = ((self.consumer + 1) % 0x1_0000) as u32;
        Drain {
            queue: if is_kept(word) {
                self.queue.pushed(
                    buffers[place].subrange(2, (word / 0x1_0000 % 0x1000) as int),
                )
            } else {
                self.queue
            },
            consumer: next,
            cursors: self.cursors.push(next),
            taken: if is_kept(word) {
                self.taken + 1
            } else {
                self.taken
            },
        }
    }

    pub open spec fn drained(self, words: Seq<u32>, buffers: Seq<Seq<u8>>, ready: nat) -> Drain
        decreases ready,
    {
        if ready == 0 {
            self
        } else {
            self.one_more(words, buffers).drained(words, buffers, (ready - 1) as nat)
        }
    }
}

/// The bytes of each buffer.
pub open spec fn contents(buffers: Seq<Vec<u8>>) -> Seq<Seq<u8>> {
    Seq::new(buffers.len(), |i: int| buffers[i]@)
}

/// How many descriptors there are to drain. A ring cannot have more
/// outstanding than it has descriptors; more than that means the two cursors
/// have lost each other, and walking the difference would read descriptors the
/// device is still writing.
pub open spec fn ready(cursor: u32, consumer: u32) -> nat {
    let count = ahead(cursor, consumer);
    if count > RX_DESCS {
        RX_DESCS as nat
    } else {
        count as nat
    }
}

impl GenetView {
    /// What draining the ring leaves, with what the drain gave.
    pub open spec fn drained(
        self,
        cursor: u32,
        words: Seq<u32>,
        buffers: Seq<Seq<u8>>,
        queue: QueueView,
    ) -> (GenetView, Drain) {
        let first = Drain { queue, consumer: self.consumer, cursors: Seq::empty(), taken: 0 };
        let done = first.drained(words, buffers, ready(cursor, self.consumer));
        let discarded = (cursor / 0x1_0000) as u64;
        (
            GenetView {
                consumer: done.consumer,
                discards: if self.discards < discarded {
                    discarded
                } else {
                    self.discards
                },
                ..self
            },
            done,
        )
    }
}

/// What to do about a frame on its way out.
#[derive(Debug, Clone, PartialEq, Eq)]
pub enum TxAction {
    /// Read the consumer index again.
    Wait,
    /// Copy the frame into buffer `index`, at `buffer`, push it out of the
    /// cache, and then do the operations.
    Send { index: usize, buffer: u64, ops: Vec<Op> },
    /// The ring stayed full: the frame is dropped.
    Blocked,
}

/// Where to say a frame is, and that there is one more.
pub open spec fn send_ops(index: int, buffer: u64, len: int, producer: u32) -> Seq<Op> {
    let desc = TDMA_DESCS + index * DESC_SIZE;
    seq![
        Op::Write {
            offset: (desc + DESC_ADDRESS_LO) as u32,
            value: (buffer % 0x1_0000_0000) as u32,
        },
        Op::Write {
            offset: (desc + DESC_ADDRESS_HI) as u32,
            value: (buffer / 0x1_0000_0000) as u32,
        },
        Op::Write {
            offset: (desc + DESC_LENGTH_STATUS) as u32,
            value: (len * 0x1_0000 + TX_STATUS) as u32,
        },
        Op::Write { offset: (TDMA_RING + TDMA_PROD_INDEX) as u32, value: producer },
    ]
}

impl Genet {
    pub closed spec fn valid(&self) -> bool {
        self@.valid()
    }

    pub proof fn is_valid(&self)
        requires
            self.valid(),
        ensures
            self@.valid(),
    {
    }

    pub fn new(mac: [u8; 6], mode: PhyMode, phy: u8, rx_buffers: Vec<u64>, tx_buffers: Vec<u64>) -> (card:
        Genet)
        requires
            rx_buffers@.len() == RX_DESCS,
            tx_buffers@.len() == TX_DESCS,
        ensures
            card.valid(),
            card@ == (GenetView {
                mac: mac@,
                mode,
                phy,
                rx_buffers: rx_buffers@,
                tx_buffers: tx_buffers@,
                consumer: 0,
                producer: 0,
                link: genet_phy::no_link(),
                interrupts: 0,
                overruns: 0,
                discards: 0,
                blocked: 0,
            }),
    {
        Genet {
            mac,
            mode,
            phy,
            rx_buffers,
            tx_buffers,
            consumer: 0,
            producer: 0,
            link: Link { up: false, speed: 0, full_duplex: false },
            irq_count: 0,
            overruns: 0,
            discards: 0,
            blocked: 0,
        }
    }

    pub fn mac(&self) -> (mac: [u8; 6])
        ensures
            mac@ == self@.mac,
    {
        self.mac
    }

    /// What the link was when it was last looked at.
    pub fn link(&self) -> (link: Link)
        ensures
            link == self@.link,
    {
        self.link
    }

    /// Whether the link was up when it was last looked at.
    pub fn link_up(&self) -> (up: bool)
        ensures
            up == self@.link.up,
    {
        self.link.up
    }

    /// Frames given up on because the transmit ring stayed full.
    pub fn transmits_dropped(&self) -> (count: u64)
        ensures
            count == self@.blocked,
    {
        self.blocked
    }

    pub fn interrupts(&self) -> (count: u64)
        ensures
            count == self@.interrupts,
    {
        self.irq_count
    }

    /// Times the controller had nowhere to put a frame: once for each overflow
    /// it interrupted about, plus the count the receive engine keeps of frames
    /// it discarded because no descriptor was free.
    pub fn overruns(&self) -> (count: u64)
        requires
            self.valid(),
        ensures
            count == self@.overruns + self@.discards,
    {
        self.overruns + self.discards
    }

    /// Look at what the PHY says and, if the link has changed, what to tell the
    /// controller.
    pub fn poll_link(&mut self, now: Link) -> (ops: Option<Vec<Op>>)
        requires
            old(self).valid(),
        ensures
            final(self).valid(),
            final(self)@ == (GenetView { link: now, ..old(self)@ }),
            now == old(self)@.link ==> ops is None,
            now != old(self)@.link ==> ops is Some && ops->0@ == link_ops(now),
    {
        if now.up == self.link.up && now.speed == self.link.speed && now.full_duplex
            == self.link.full_duplex {
            return None;
        }
        self.link = now;
        Some(apply_link(now))
    }

    /// Point every receive descriptor at its buffer and set the ring's bounds.
    /// The device's producer index is read after this, and `start_rx` goes on
    /// from what it says.
    pub fn setup_rx(&self) -> (ops: Vec<Op>)
        requires
            self.valid(),
        ensures
            ops@ == seq![
                Op::Write {
                    offset: (RDMA_CTRL + DMA_SCB_BURST_SIZE) as u32,
                    value: DMA_MAX_BURST_LENGTH,
                },
            ] + Seq::new(
                2 * RX_DESCS as nat,
                |i: int| address_op(RDMA_DESCS, self@.rx_buffers, i),
            ) + seq![
                Op::Write { offset: (RDMA_RING + DMA_START_ADDR) as u32, value: 0 },
                Op::Write { offset: (RDMA_RING + RDMA_READ_PTR) as u32, value: 0 },
                Op::Write { offset: (RDMA_RING + RDMA_WRITE_PTR) as u32, value: 0 },
                Op::Write { offset: (RDMA_RING + DMA_END_ADDR) as u32, value: 767 },
                Op::Write { offset: (RDMA_RING + RDMA_PROD_INDEX) as u32, value: 0 },
                Op::Write { offset: (RDMA_RING + RDMA_CONS_INDEX) as u32, value: 0 },
            ],
    {
        let mut ops: Vec<Op> = Vec::new();
        let ghost burst = Op::Write {
            offset: (RDMA_CTRL + DMA_SCB_BURST_SIZE) as u32,
            value: DMA_MAX_BURST_LENGTH,
        };
        ops.push(
            Op::Write { offset: RDMA_CTRL + DMA_SCB_BURST_SIZE, value: DMA_MAX_BURST_LENGTH },
        );
        assert(ops@ =~= seq![burst] + Seq::new(
            0,
            |i: int| address_op(RDMA_DESCS, self@.rx_buffers, i),
        ));
        let mut index: usize = 0;
        while index < RX_DESCS
            invariant
                index <= RX_DESCS,
                self.valid(),
                self.rx_buffers@.len() == RX_DESCS,
                ops@ == seq![burst] + Seq::new(
                    2 * index as nat,
                    |i: int| address_op(RDMA_DESCS, self@.rx_buffers, i),
                ),
            decreases RX_DESCS - index,
        {
            let ghost so_far = ops@;
            let buffer: u64 = self.rx_buffers[index];
            let desc: u32 = rx_desc(index);
            ops.push(
                Op::Write {
                    offset: desc + DESC_ADDRESS_LO,
                    value: (buffer % 0x1_0000_0000) as u32,
                },
            );
            ops.push(
                Op::Write {
                    offset: desc + DESC_ADDRESS_HI,
                    value: (buffer / 0x1_0000_0000) as u32,
                },
            );
            assert((2 * index) / 2 == index && (2 * index + 1) / 2 == index);
            index += 1;
            assert(ops@ =~= seq![burst] + Seq::new(
                2 * index as nat,
                |i: int| address_op(RDMA_DESCS, self@.rx_buffers, i),
            ));
        }
        let ghost first = ops@;
        ops.push(Op::Write { offset: RDMA_RING + DMA_START_ADDR, value: ring_start_word(0) });
        ops.push(Op::Write { offset: RDMA_RING + RDMA_READ_PTR, value: ring_start_word(0) });
        ops.push(Op::Write { offset: RDMA_RING + RDMA_WRITE_PTR, value: ring_start_word(0) });
        ops.push(Op::Write { offset: RDMA_RING + DMA_END_ADDR, value: ring_end_word(RX_DESCS) });
        ops.push(Op::Write { offset: RDMA_RING + RDMA_PROD_INDEX, value: 0 });
        ops.push(Op::Write { offset: RDMA_RING + RDMA_CONS_INDEX, value: 0 });
        assert(ops@ =~= first + seq![
            Op::Write { offset: (RDMA_RING + DMA_START_ADDR) as u32, value: 0 },
            Op::Write { offset: (RDMA_RING + RDMA_READ_PTR) as u32, value: 0 },
            Op::Write { offset: (RDMA_RING + RDMA_WRITE_PTR) as u32, value: 0 },
            Op::Write { offset: (RDMA_RING + DMA_END_ADDR) as u32, value: 767 },
            Op::Write { offset: (RDMA_RING + RDMA_PROD_INDEX) as u32, value: 0 },
            Op::Write { offset: (RDMA_RING + RDMA_CONS_INDEX) as u32, value: 0 },
        ]);
        ops
    }

    /// Go on from what the device's producer index read back as.
    ///
    /// It belongs to the device and a write to it does not necessarily take, so
    /// rather than assuming it is zero the kernel's consumer index is set to
    /// whatever it actually reads back as, and the descriptor cursor is derived
    /// from that. One descriptor's worth of work is enough to interrupt for,
    /// and no timeout on top of it.
    pub fn start_rx(&mut self, producer_index: u32) -> (ops: Vec<Op>)
        requires
            old(self).valid(),
        ensures
            final(self).valid(),
            ({
                let producer = (producer_index % 0x1_0000) as u32;
                let first = (producer % 256 * 3) as u32;
                &&& final(self)@ == GenetView { consumer: producer, ..old(self)@ }
                &&& ops@ == seq![
                    Op::Write { offset: (RDMA_RING + RDMA_CONS_INDEX) as u32, value: producer },
                    Op::Write { offset: (RDMA_RING + RDMA_READ_PTR) as u32, value: first },
                    Op::Write { offset: (RDMA_RING + RDMA_WRITE_PTR) as u32, value: first },
                    Op::Write {
                        offset: (RDMA_RING + DMA_RING_BUF_SIZE) as u32,
                        value: 0x0100_0800,
                    },
                    Op::Write {
                        offset: (RDMA_RING + RDMA_XON_XOFF_THRESH) as u32,
                        value: FC_THRESHOLDS,
                    },
                    Op::Write { offset: (RDMA_RING + DMA_MBUF_DONE_THRESH) as u32, value: 1 },
                    Op::Write { offset: 0x30AC, value: 0 },
                    Op::Write { offset: (RDMA_CTRL + DMA_RING_CFG) as u32, value: RING_CFG },
                ]
            }),
    {
        let producer: u32 = producer_index % INDICES;
        self.consumer = producer;
        let first: u32 = ring_start_word(slot(producer, RX_DESCS));
        let mut ops: Vec<Op> = Vec::new();
        ops.push(Op::Write { offset: RDMA_RING + RDMA_CONS_INDEX, value: producer });
        ops.push(Op::Write { offset: RDMA_RING + RDMA_READ_PTR, value: first });
        ops.push(Op::Write { offset: RDMA_RING + RDMA_WRITE_PTR, value: first });
        ops.push(
            Op::Write {
                offset: RDMA_RING + DMA_RING_BUF_SIZE,
                value: RX_DESCS as u32 * 0x1_0000 + BUFFER_SIZE as u32,
            },
        );
        ops.push(Op::Write { offset: RDMA_RING + RDMA_XON_XOFF_THRESH, value: FC_THRESHOLDS });
        ops.push(Op::Write { offset: RDMA_RING + DMA_MBUF_DONE_THRESH, value: 1 });
        ops.push(
            Op::Write { offset: RDMA_CTRL + DMA_RING0_TIMEOUT + DEFAULT_RING * 4, value: 0 },
        );
        ops.push(Op::Write { offset: RDMA_CTRL + DMA_RING_CFG, value: RING_CFG });
        assert(ops@ =~= seq![
            Op::Write { offset: (RDMA_RING + RDMA_CONS_INDEX) as u32, value: producer },
            Op::Write { offset: (RDMA_RING + RDMA_READ_PTR) as u32, value: first },
            Op::Write { offset: (RDMA_RING + RDMA_WRITE_PTR) as u32, value: first },
            Op::Write { offset: (RDMA_RING + DMA_RING_BUF_SIZE) as u32, value: 0x0100_0800 },
            Op::Write {
                offset: (RDMA_RING + RDMA_XON_XOFF_THRESH) as u32,
                value: FC_THRESHOLDS,
            },
            Op::Write { offset: (RDMA_RING + DMA_MBUF_DONE_THRESH) as u32, value: 1 },
            Op::Write { offset: 0x30AC, value: 0 },
            Op::Write { offset: (RDMA_CTRL + DMA_RING_CFG) as u32, value: RING_CFG },
        ]);
        ops
    }

    /// Point every transmit descriptor at its buffer and set the ring's bounds.
    /// The consumer index is the device's here, so it is the one read back.
    pub fn setup_tx(&self) -> (ops: Vec<Op>)
        requires
            self.valid(),
        ensures
            ops@ == seq![
                Op::Write {
                    offset: (TDMA_CTRL + DMA_SCB_BURST_SIZE) as u32,
                    value: DMA_MAX_BURST_LENGTH,
                },
            ] + Seq::new(
                3 * TX_DESCS as nat,
                |i: int| tx_desc_op(self@.tx_buffers, i),
            ) + seq![
                Op::Write { offset: (TDMA_RING + DMA_START_ADDR) as u32, value: 0 },
                Op::Write { offset: (TDMA_RING + TDMA_READ_PTR) as u32, value: 0 },
                Op::Write { offset: (TDMA_RING + TDMA_WRITE_PTR) as u32, value: 0 },
                Op::Write { offset: (TDMA_RING + DMA_END_ADDR) as u32, value: 191 },
                Op::Write { offset: (TDMA_RING + TDMA_PROD_INDEX) as u32, value: 0 },
                Op::Write { offset: (TDMA_RING + TDMA_CONS_INDEX) as u32, value: 0 },
            ],
    {
        let mut ops: Vec<Op> = Vec::new();
        let ghost burst = Op::Write {
            offset: (TDMA_CTRL + DMA_SCB_BURST_SIZE) as u32,
            value: DMA_MAX_BURST_LENGTH,
        };
        ops.push(
            Op::Write { offset: TDMA_CTRL + DMA_SCB_BURST_SIZE, value: DMA_MAX_BURST_LENGTH },
        );
        assert(ops@ =~= seq![burst] + Seq::new(0, |i: int| tx_desc_op(self@.tx_buffers, i)));
        let mut index: usize = 0;
        while index < TX_DESCS
            invariant
                index <= TX_DESCS,
                self.valid(),
                self.tx_buffers@.len() == TX_DESCS,
                ops@ == seq![burst] + Seq::new(
                    3 * index as nat,
                    |i: int| tx_desc_op(self@.tx_buffers, i),
                ),
            decreases TX_DESCS - index,
        {
            let buffer: u64 = self.tx_buffers[index];
            let desc: u32 = tx_desc(index);
            ops.push(
                Op::Write {
                    offset: desc + DESC_ADDRESS_LO,
                    value: (buffer % 0x1_0000_0000) as u32,
                },
            );
            ops.push(
                Op::Write {
                    offset: desc + DESC_ADDRESS_HI,
                    value: (buffer / 0x1_0000_0000) as u32,
                },
            );
            ops.push(Op::Write { offset: desc + DESC_LENGTH_STATUS, value: 0 });
            assert((3 * index) / 3 == index && (3 * index + 1) / 3 == index && (3 * index + 2) / 3
                == index);
            index += 1;
            assert(ops@ =~= seq![burst] + Seq::new(
                3 * index as nat,
                |i: int| tx_desc_op(self@.tx_buffers, i),
            ));
        }
        let ghost first = ops@;
        ops.push(Op::Write { offset: TDMA_RING + DMA_START_ADDR, value: ring_start_word(0) });
        ops.push(Op::Write { offset: TDMA_RING + TDMA_READ_PTR, value: ring_start_word(0) });
        ops.push(Op::Write { offset: TDMA_RING + TDMA_WRITE_PTR, value: ring_start_word(0) });
        ops.push(Op::Write { offset: TDMA_RING + DMA_END_ADDR, value: ring_end_word(TX_DESCS) });
        ops.push(Op::Write { offset: TDMA_RING + TDMA_PROD_INDEX, value: 0 });
        ops.push(Op::Write { offset: TDMA_RING + TDMA_CONS_INDEX, value: 0 });
        assert(ops@ =~= first + seq![
            Op::Write { offset: (TDMA_RING + DMA_START_ADDR) as u32, value: 0 },
            Op::Write { offset: (TDMA_RING + TDMA_READ_PTR) as u32, value: 0 },
            Op::Write { offset: (TDMA_RING + TDMA_WRITE_PTR) as u32, value: 0 },
            Op::Write { offset: (TDMA_RING + DMA_END_ADDR) as u32, value: 191 },
            Op::Write { offset: (TDMA_RING + TDMA_PROD_INDEX) as u32, value: 0 },
            Op::Write { offset: (TDMA_RING + TDMA_CONS_INDEX) as u32, value: 0 },
        ]);
        ops
    }

    /// Go on from what the device's consumer index read back as.
    pub fn start_tx(&mut self, consumer_index: u32) -> (ops: Vec<Op>)
        requires
            old(self).valid(),
        ensures
            final(self).valid(),
            ({
                let consumer = (consumer_index % 0x1_0000) as u32;
                let first = (consumer % 64 * 3) as u32;
                &&& final(self)@ == GenetView { producer: consumer, ..old(self)@ }
                &&& ops@ == seq![
                    Op::Write { offset: (TDMA_RING + TDMA_PROD_INDEX) as u32, value: consumer },
                    Op::Write { offset: (TDMA_RING + TDMA_READ_PTR) as u32, value: first },
                    Op::Write { offset: (TDMA_RING + TDMA_WRITE_PTR) as u32, value: first },
                    Op::Write { offset: (TDMA_RING + DMA_MBUF_DONE_THRESH) as u32, value: 1 },
                    Op::Write { offset: (TDMA_RING + TDMA_FLOW_PERIOD) as u32, value: 0 },
                    Op::Write {
                        offset: (TDMA_RING + DMA_RING_BUF_SIZE) as u32,
                        value: 0x0040_0800,
                    },
                    Op::Write { offset: (TDMA_CTRL + DMA_RING_CFG) as u32, value: RING_CFG },
                ]
            }),
    {
        let consumer: u32 = consumer_index % INDICES;
        self.producer = consumer;
        let first: u32 = ring_start_word(slot(consumer, TX_DESCS));
        let mut ops: Vec<Op> = Vec::new();
        ops.push(Op::Write { offset: TDMA_RING + TDMA_PROD_INDEX, value: consumer });
        ops.push(Op::Write { offset: TDMA_RING + TDMA_READ_PTR, value: first });
        ops.push(Op::Write { offset: TDMA_RING + TDMA_WRITE_PTR, value: first });
        ops.push(Op::Write { offset: TDMA_RING + DMA_MBUF_DONE_THRESH, value: 1 });
        ops.push(Op::Write { offset: TDMA_RING + TDMA_FLOW_PERIOD, value: 0 });
        ops.push(
            Op::Write {
                offset: TDMA_RING + DMA_RING_BUF_SIZE,
                value: TX_DESCS as u32 * 0x1_0000 + BUFFER_SIZE as u32,
            },
        );
        ops.push(Op::Write { offset: TDMA_CTRL + DMA_RING_CFG, value: RING_CFG });
        assert(ops@ =~= seq![
            Op::Write { offset: (TDMA_RING + TDMA_PROD_INDEX) as u32, value: consumer },
            Op::Write { offset: (TDMA_RING + TDMA_READ_PTR) as u32, value: first },
            Op::Write { offset: (TDMA_RING + TDMA_WRITE_PTR) as u32, value: first },
            Op::Write { offset: (TDMA_RING + DMA_MBUF_DONE_THRESH) as u32, value: 1 },
            Op::Write { offset: (TDMA_RING + TDMA_FLOW_PERIOD) as u32, value: 0 },
            Op::Write { offset: (TDMA_RING + DMA_RING_BUF_SIZE) as u32, value: 0x0040_0800 },
            Op::Write { offset: (TDMA_CTRL + DMA_RING_CFG) as u32, value: RING_CFG },
        ]);
        ops
    }

    /// Move every completed frame off the receive ring into the queue, given
    /// the device's cursor, the descriptors' words and the buffers. How many
    /// frames there were, and the consumer indices to write.
    ///
    /// The engine keeps a count of frames it had nowhere to put in the top half
    /// of the register the producer index is in, so the index is masked out of
    /// it before it is compared with anything. The count of bytes includes the
    /// two alignment bytes in front of the frame and excludes the Ethernet CRC.
    pub fn drain_rx(
        &mut self,
        cursor: u32,
        words: &Vec<u32>,
        buffers: &Vec<Vec<u8>>,
        queue: &mut RxQueue,
    ) -> (r: (usize, Vec<u32>))
        requires
            old(self).valid(),
            old(queue).valid(),
            words@.len() == RX_DESCS,
            buffers@.len() == RX_DESCS,
            forall|i: int|
                0 <= i < RX_DESCS ==> (#[trigger] buffers@[i])@.len() == BUFFER_SIZE,
        ensures
            final(self).valid(),
            final(queue).valid(),
            ({
                let (after, done) = old(self)@.drained(
                    cursor,
                    words@,
                    contents(buffers@),
                    old(queue)@,
                );
                &&& final(self)@ == after
                &&& final(queue)@ == done.queue
                &&& r.0 == done.taken
                &&& r.1@ == done.cursors
            }),
    {
        let producer: u32 = cursor % INDICES;
        let discarded: u64 = (cursor / 0x1_0000) as u64;
        let mut taken: usize = 0;
        let mut cursors: Vec<u32> = Vec::new();
        let mut left: u32 = outstanding(producer, self.consumer);
        if left as usize > RX_DESCS {
            left = RX_DESCS as u32;
        }
        let ghost view = contents(buffers@);
        let ghost first = Drain {
            queue: queue@,
            consumer: self@.consumer,
            cursors: Seq::empty(),
            taken: 0,
        };
        let ghost whole = first.drained(words@, view, left as nat);
        assert(ahead(producer, self.consumer) == ahead(cursor, self.consumer));
        assert(cursors@ =~= Seq::empty());
        while left > 0
            invariant
                self.valid(),
                queue.valid(),
                left <= RX_DESCS,
                taken + left <= RX_DESCS,
                self.consumer < INDICES,
                words@.len() == RX_DESCS,
                buffers@.len() == RX_DESCS,
                view == contents(buffers@),
                forall|i: int|
                    0 <= i < RX_DESCS ==> (#[trigger] buffers@[i])@.len() == BUFFER_SIZE,
                self@ == (GenetView { consumer: self@.consumer, ..old(self)@ }),
                (Drain {
                    queue: queue@,
                    consumer: self@.consumer,
                    cursors: cursors@,
                    taken: taken as nat,
                }).drained(words@, view, left as nat) == whole,
            decreases left,
        {
            let ghost now = Drain {
                queue: queue@,
                consumer: self@.consumer,
                cursors: cursors@,
                taken: taken as nat,
            };
            let index: usize = slot(self.consumer, RX_DESCS);
            let word: u32 = words[index];
            let length: usize = rx_length(word);
            let whole_frame = word & DMA_SOP != 0 && word & DMA_EOP != 0;
            let sane = length >= RX_BUF_OFFSET + MIN_FRAME && length <= BUFFER_SIZE;
            if whole_frame && sane && word & DMA_RX_ERRORS == 0 {
                assert(buffers@[index as int]@.len() == BUFFER_SIZE);
                let frame = crate::bytes::copy_range(
                    buffers[index].as_slice(),
                    RX_BUF_OFFSET,
                    length,
                );
                queue.push(frame.as_slice());
                taken += 1;
            }
            self.consumer = (self.consumer + 1) % INDICES;
            cursors.push(self.consumer);
            left -= 1;
            assert(now.one_more(words@, view) == (Drain {
                queue: queue@,
                consumer: self@.consumer,
                cursors: cursors@,
                taken: taken as nat,
            }));
        }
        if self.discards < discarded {
            self.discards = discarded;
        }
        (taken, cursors)
    }

    /// Deal with an interrupt, given what is pending and what is masked: what to
    /// acknowledge, whether the network task has to be woken, and the consumer
    /// indices to write. Nothing to acknowledge means it was not this
    /// controller's.
    pub fn handle_interrupt(
        &mut self,
        pending: u32,
        masked: u32,
        cursor: u32,
        words: &Vec<u32>,
        buffers: &Vec<Vec<u8>>,
        queue: &mut RxQueue,
    ) -> (r: (Option<Op>, bool, Vec<u32>))
        requires
            old(self).valid(),
            old(queue).valid(),
            words@.len() == RX_DESCS,
            buffers@.len() == RX_DESCS,
            forall|i: int|
                0 <= i < RX_DESCS ==> (#[trigger] buffers@[i])@.len() == BUFFER_SIZE,
        ensures
            final(self).valid(),
            final(queue).valid(),
            ({
                let status = pending & !masked;
                let noted = GenetView {
                    interrupts: counted(old(self)@.interrupts, u64::MAX),
                    overruns: if status & IRQ_RBUF_OVERFLOW != 0 {
                        counted(old(self)@.overruns, (u64::MAX - 0x1_0000) as u64)
                    } else {
                        old(self)@.overruns
                    },
                    ..old(self)@
                };
                if status == 0 {
                    &&& r.0 is None
                    &&& !r.1
                    &&& r.2@.len() == 0
                    &&& final(self)@ == old(self)@
                    &&& final(queue)@ == old(queue)@
                } else {
                    &&& r.0 == Some(
                        Op::Write { offset: (INTRL2_0 + INTRL2_CPU_CLEAR) as u32, value: status },
                    )
                    &&& if status & IRQ_RXDMA_DONE == 0 {
                        &&& !r.1
                        &&& r.2@.len() == 0
                        &&& final(self)@ == noted
                        &&& final(queue)@ == old(queue)@
                    } else {
                        let (after, done) = noted.drained(
                            cursor,
                            words@,
                            contents(buffers@),
                            old(queue)@,
                        );
                        &&& r.1 == (done.taken > 0)
                        &&& r.2@ == done.cursors
                        &&& final(self)@ == after
                        &&& final(queue)@ == done.queue
                    }
                }
            }),
    {
        let status: u32 = pending & !masked;
        if status == 0 {
            return (None, false, Vec::new());
        }
        let clear = Op::Write { offset: INTRL2_0 + INTRL2_CPU_CLEAR, value: status };
        if self.irq_count < u64::MAX {
            self.irq_count += 1;
        }
        if status & IRQ_RBUF_OVERFLOW != 0 {
            if self.overruns < u64::MAX - 0x1_0000 {
                self.overruns += 1;
            }
        }
        if status & IRQ_RXDMA_DONE == 0 {
            return (Some(clear), false, Vec::new());
        }
        let (taken, cursors) = self.drain_rx(cursor, words, buffers, queue);
        (Some(clear), taken > 0, cursors)
    }

    /// Whether a frame of `len` bytes may be sent at all. Nothing can leave a
    /// port whose other end is not there, and the descriptor would sit in the
    /// ring until it was.
    pub fn transmit(&self, len: usize) -> (result: Result<(), Errno>)
        ensures
            result == (if len < MIN_FRAME || len > BUFFER_SIZE {
                Err::<(), Errno>(Errno::EINVAL)
            } else if !self@.link.up {
                Err(Errno::ENETDOWN)
            } else {
                Ok(())
            }),
    {
        if len < MIN_FRAME || len > BUFFER_SIZE {
            return Err(Errno::EINVAL);
        }
        if !self.link.up {
            return Err(Errno::ENETDOWN);
        }
        Ok(())
    }

    /// Go on sending a frame, given the device's consumer index and how long it
    /// has been waited for.
    ///
    /// A transmit may not sleep, so the wait for a descriptor is a spin, and it
    /// is short: a ring of sixty-four only fills if sixty-four frames have been
    /// handed over faster than the wire takes them, and a dropped frame is what
    /// a full card does anyway.
    pub fn transmit_step(&mut self, len: usize, consumer_index: u32, waited: u64, limit: u64) -> (action:
        TxAction)
        requires
            old(self).valid(),
            len <= BUFFER_SIZE,
        ensures
            final(self).valid(),
            is_sending_on(
                old(self)@,
                final(self)@,
                len as int,
                consumer_index,
                waited > limit,
                action,
            ),
    {
        let consumer: u32 = consumer_index % INDICES;
        assert(ahead(self.producer, consumer) == ahead(self.producer, consumer_index));
        if outstanding(self.producer, consumer) as usize >= TX_DESCS {
            if waited > limit {
                if self.blocked < u64::MAX {
                    self.blocked += 1;
                }
                return TxAction::Blocked;
            }
            return TxAction::Wait;
        }
        let index: usize = slot(self.producer, TX_DESCS);
        let buffer: u64 = self.tx_buffers[index];
        let desc: u32 = tx_desc(index);
        self.producer = (self.producer + 1) % INDICES;
        let next: u32 = self.producer;
        let mut ops: Vec<Op> = Vec::new();
        ops.push(
            Op::Write { offset: desc + DESC_ADDRESS_LO, value: (buffer % 0x1_0000_0000) as u32 },
        );
        ops.push(
            Op::Write { offset: desc + DESC_ADDRESS_HI, value: (buffer / 0x1_0000_0000) as u32 },
        );
        ops.push(
            Op::Write { offset: desc + DESC_LENGTH_STATUS, value: tx_length_status(len) },
        );
        ops.push(Op::Write { offset: TDMA_RING + TDMA_PROD_INDEX, value: next });
        assert(ops@ =~= send_ops(index as int, buffer, len as int, next));
        TxAction::Send { index, buffer, ops }
    }
}

/// What going on to send a frame comes to, given the device's consumer index:
/// the controller before and after, and what to do next.
pub open spec fn is_sending_on(
    before: GenetView,
    after: GenetView,
    len: int,
    consumer_index: u32,
    too_long: bool,
    action: TxAction,
) -> bool {
    let index = before.producer as int % 64;
    let next = ((before.producer + 1) % 0x1_0000) as u32;
    if ahead(before.producer, consumer_index) < TX_DESCS {
        &&& after == GenetView { producer: next, ..before }
        &&& action matches TxAction::Send { index: at, buffer, ops } && at == index && buffer
            == before.tx_buffers[index] && ops@ == send_ops(index, buffer, len, next)
    } else if too_long {
        &&& after == GenetView { blocked: counted(before.blocked, u64::MAX), ..before }
        &&& action is Blocked
    } else {
        &&& after == before
        &&& action is Wait
    }
}

/// Operation `i` of those that point descriptors at their buffers: the low half
/// of each address and then the high half.
pub open spec fn address_op(base: u32, buffers: Seq<u64>, i: int) -> Op {
    let buffer = buffers[i / 2];
    let desc = base + i / 2 * DESC_SIZE;
    if i % 2 == 0 {
        Op::Write {
            offset: (desc + DESC_ADDRESS_LO) as u32,
            value: (buffer % 0x1_0000_0000) as u32,
        }
    } else {
        Op::Write {
            offset: (desc + DESC_ADDRESS_HI) as u32,
            value: (buffer / 0x1_0000_0000) as u32,
        }
    }
}

/// Operation `i` of those that point transmit descriptors at their buffers: the
/// two halves of each address, and a length of nothing.
pub open spec fn tx_desc_op(buffers: Seq<u64>, i: int) -> Op {
    let buffer = buffers[i / 3];
    let desc = TDMA_DESCS + i / 3 * DESC_SIZE;
    if i % 3 == 0 {
        Op::Write {
            offset: (desc + DESC_ADDRESS_LO) as u32,
            value: (buffer % 0x1_0000_0000) as u32,
        }
    } else if i % 3 == 1 {
        Op::Write {
            offset: (desc + DESC_ADDRESS_HI) as u32,
            value: (buffer / 0x1_0000_0000) as u32,
        }
    } else {
        Op::Write { offset: (desc + DESC_LENGTH_STATUS) as u32, value: 0 }
    }
}

// ---- bring-up -----------------------------------------------------------------------------

/// Packet buffers out of pages, two to a page, until there are enough or there
/// are no more pages.
pub open spec fn buffers_from(frames: FramesView, left: nat) -> (FramesView, Option<Seq<u64>>)
    decreases left,
{
    if left == 0 {
        (frames, Some(Seq::empty()))
    } else {
        match frames.allocated() {
            (after, None) => (after, None),
            (after, Some(page)) => if left == 1 {
                (after, Some(seq![page]))
            } else {
                match buffers_from(after, (left - 2) as nat) {
                    (last, None) => (last, None),
                    (last, Some(rest)) => (
                        last,
                        Some(seq![page, (page + BUFFER_SIZE) as u64] + rest),
                    ),
                }
            },
        }
    }
}

/// Allocate `count` packet buffers and give back their physical addresses.
///
/// One page holds two buffers exactly, so this asks for pages one at a time
/// rather than for one run of contiguous memory: a buffer only has to be
/// contiguous in itself, and each is named to the device separately.
pub fn allocate_buffers(allocator: &mut BitmapAllocator, count: usize) -> (buffers: Option<Vec<u64>>)
    requires
        old(allocator).valid(),
        old(allocator)@.frames() * 4096 + BUFFER_SIZE <= u64::MAX,
    ensures
        final(allocator).valid(),
        ({
            let (after, found) = buffers_from(old(allocator)@, count as nat);
            &&& final(allocator)@ == after
            &&& found is Some <==> buffers is Some
            &&& buffers matches Some(list) ==> list@ == found->0
        }),
{
    let mut buffers: Vec<u64> = Vec::new();
    let mut left: usize = count;
    let ghost first = allocator@;
    let ghost whole = buffers_from(first, count as nat);
    assert(whole.1 is Some ==> buffers@ + whole.1->0 =~= whole.1->0);
    while left > 0
        invariant
            allocator.valid(),
            allocator@.frames() == first.frames(),
            first.frames() * 4096 + BUFFER_SIZE <= u64::MAX,
            left <= count,
            first == old(allocator)@,
            whole == buffers_from(first, count as nat),
            whole.0 == buffers_from(allocator@, left as nat).0,
            whole.1 is Some <==> buffers_from(allocator@, left as nat).1 is Some,
            whole.1 is Some ==> buffers@ + buffers_from(allocator@, left as nat).1->0
                == whole.1->0,
        decreases left,
    {
        let ghost now = allocator@;
        let ghost so_far = buffers@;
        let page: u64 = match allocator.alloc_contiguous(1) {
            Some(page) => page,
            None => {
                return None;
            },
        };
        proof {
            an_allocated_frame_is_covered(now);
        }
        buffers.push(page);
        if left > 1 {
            buffers.push(page + BUFFER_SIZE as u64);
            left -= 2;
            proof {
                let rest = buffers_from(allocator@, left as nat).1;
                if rest is Some {
                    assert(so_far + (seq![page, (page + BUFFER_SIZE) as u64] + rest->0)
                        =~= buffers@ + rest->0);
                }
            }
        } else {
            left = 0;
            assert(so_far + seq![page] =~= buffers@);
            assert(buffers@ + Seq::<u64>::empty() =~= buffers@);
        }
    }
    assert(buffers@ + Seq::<u64>::empty() =~= buffers@);
    Some(buffers)
}

/// A frame handed out is one the allocator covers.
proof fn an_allocated_frame_is_covered(frames: FramesView)
    ensures
        frames.allocated().1 matches Some(page) ==> 0 <= frames.next_frame()->0 < frames.frames(),
        frames.allocated().0.frames() == frames.frames(),
{
    first_clear_is_covered(frames.held, frames.hint / 64 * 64);
    first_clear_is_covered(frames.held, 0);
}

proof fn first_clear_is_covered(held: Seq<bool>, from: int)
    ensures
        crate::mm::frame::first_clear(held, from) matches Some(f) ==> 0 <= f < held.len(),
    decreases held.len() - from,
{
    if 0 <= from < held.len() && held[from] {
        first_clear_is_covered(held, from + 1);
    }
}

/// What a node of the device tree says about a controller.
pub struct Described<'a> {
    /// Whether the tree marks it enabled.
    pub enabled: bool,
    /// Where its registers are, and how much of them there is.
    pub reg: Option<(u64, u64)>,
    pub interrupt: Option<u8>,
    pub mac_address: Option<&'a [u8]>,
    pub local_mac_address: Option<&'a [u8]>,
    pub address: Option<&'a [u8]>,
    pub phy_mode: Option<&'a [u8]>,
    pub phy_connection_type: Option<&'a [u8]>,
    /// The bus address of the node its phy handle names.
    pub phy: Option<u64>,
}

/// Why a controller is not brought up.
#[derive(Debug, Clone, Copy, PartialEq, Eq, Structural)]
pub enum NotBroughtUp {
    /// No device tree, so nothing says where the controller is.
    NoTree,
    /// No node of the kind: this board has none.
    NoNode,
    /// The tree marks it disabled.
    Disabled,
    /// The node has no address the processor can reach.
    NoRegisters,
    /// The registers are outside the window device attributes cover.
    OutsideTheWindow,
    NoInterrupt,
    /// Inventing an address would put a duplicate on the network.
    NoAddress,
    UnknownMode,
    NoPhy,
}

/// What a controller that can be brought up is found to be.
pub struct Found {
    pub base: u64,
    pub size: u64,
    pub irq: u8,
    pub mac: [u8; 6],
    pub mode: PhyMode,
    pub phy: u8,
}

/// The name a node's mode goes by, in either spelling.
pub open spec fn mode_in(node: Described) -> Option<PhyMode> {
    match node.phy_mode {
        Some(value) => genet_phy::mode_named(genet_phy::up_to_zero(value@)),
        None => match node.phy_connection_type {
            Some(value) => genet_phy::mode_named(genet_phy::up_to_zero(value@)),
            None => None,
        },
    }
}

/// The address a node carries, in the first of its spellings that has one.
pub open spec fn mac_in(node: Described) -> Option<Seq<u8>> {
    if genet_phy::station_in(node.mac_address) is Some {
        genet_phy::station_in(node.mac_address)
    } else if genet_phy::station_in(node.local_mac_address) is Some {
        genet_phy::station_in(node.local_mac_address)
    } else {
        genet_phy::station_in(node.address)
    }
}

/// Why a controller is not to be brought up, as the questions come.
pub open spec fn objection(
    has_tree: bool,
    node: Option<Described>,
    device_base: u64,
    window_end: u64,
) -> Option<NotBroughtUp> {
    match node {
        None => Some(
            if has_tree {
                NotBroughtUp::NoNode
            } else {
                NotBroughtUp::NoTree
            },
        ),
        Some(n) => if !n.enabled {
            Some(NotBroughtUp::Disabled)
        } else if n.reg is None {
            Some(NotBroughtUp::NoRegisters)
        } else if (n.reg->0).0 < device_base || (n.reg->0).0 + (n.reg->0).1 > window_end {
            Some(NotBroughtUp::OutsideTheWindow)
        } else if n.interrupt is None {
            Some(NotBroughtUp::NoInterrupt)
        } else if mac_in(n) is None {
            Some(NotBroughtUp::NoAddress)
        } else if mode_in(n) is None {
            Some(NotBroughtUp::UnknownMode)
        } else if n.phy is None || n.phy->0 > 31 {
            Some(NotBroughtUp::NoPhy)
        } else {
            None
        },
    }
}

/// Decide from the device tree whether there is a controller to bring up, and
/// what it is.
///
/// The window is where the direct map has device attributes, which is where
/// every peripheral on this chip lives. Something that claims to be this
/// controller and is not there is worth refusing rather than poking. Every way
/// of failing leaves the kernel booting normally without a network.
pub fn probe(has_tree: bool, node: Option<Described>, device_base: u64, window_end: u64) -> (found:
    Result<Found, NotBroughtUp>)
    ensures
        match objection(has_tree, node, device_base, window_end) {
            Some(why) => found matches Err(refused) && refused == why,
            None => found matches Ok(it) && it.base == (node->0.reg->0).0 && it.size
                == (node->0.reg->0).1 && it.irq == node->0.interrupt->0 && Some(it.mac@) == mac_in(
                node->0,
            ) && Some(it.mode) == mode_in(node->0) && it.phy == node->0.phy->0,
        },
{
    let node = match node {
        Some(node) => node,
        None => {
            return Err(
                if has_tree {
                    NotBroughtUp::NoNode
                } else {
                    NotBroughtUp::NoTree
                },
            );
        },
    };
    if !node.enabled {
        return Err(NotBroughtUp::Disabled);
    }
    let (base, size) = match node.reg {
        Some(reg) => reg,
        None => {
            return Err(NotBroughtUp::NoRegisters);
        },
    };
    if base < device_base || base > window_end || size > window_end - base {
        return Err(NotBroughtUp::OutsideTheWindow);
    }
    let irq: u8 = match node.interrupt {
        Some(irq) => irq,
        None => {
            return Err(NotBroughtUp::NoInterrupt);
        },
    };
    let mac = match mac_from(node.mac_address, node.local_mac_address, node.address) {
        Some(mac) => mac,
        None => {
            return Err(NotBroughtUp::NoAddress);
        },
    };
    let mode = match phy_mode_from(node.phy_mode, node.phy_connection_type) {
        Some(mode) => mode,
        None => {
            return Err(NotBroughtUp::UnknownMode);
        },
    };
    let phy: u8 = match phy_address_from(node.phy) {
        Some(phy) => phy,
        None => {
            return Err(NotBroughtUp::NoPhy);
        },
    };
    Ok(Found { base, size, irq, mac, mode, phy })
}

/// Whether it is time to look at the phy again.
pub fn link_poll_is_due(now: u64, last: u64) -> (due: bool)
    ensures
        due == ((now - last) % 0x1_0000_0000_0000_0000 >= LINK_POLL_TICKS),
{
    now.wrapping_sub(last) >= LINK_POLL_TICKS
}

} // verus!
