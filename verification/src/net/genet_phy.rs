//! The management bus of a Broadcom GENET controller, and the chip on the
//! other end of it.
//!
//! The chip is what negotiates speed and duplex with the far end. It is
//! reached through one register that takes a command and holds the answer, so
//! what is here is the commands, what the answers mean, and what the two ends
//! have agreed on.

use vstd::prelude::*;

verus! {

/// A management transfer is under way.
pub const MDIO_START_BUSY: u32 = 0x2000_0000;

/// The PHY never answered.
pub const MDIO_READ_FAIL: u32 = 0x1000_0000;

pub const MDIO_RD: u32 = 0x0800_0000;

pub const MDIO_WR: u32 = 0x0400_0000;

/// Microseconds to wait for one management transfer.
pub const MDIO_TIMEOUT_US: u32 = 20_000;

/// Milliseconds to wait for the PHY to come out of its reset.
pub const PHY_RESET_TIMEOUT_MS: u32 = 500;

// The registers every PHY has.
pub const MII_BMCR: u8 = 0x00;

pub const MII_BMSR: u8 = 0x01;

pub const MII_PHYSID1: u8 = 0x02;

pub const MII_PHYSID2: u8 = 0x03;

pub const MII_ADVERTISE: u8 = 0x04;

pub const MII_LPA: u8 = 0x05;

pub const MII_CTRL1000: u8 = 0x09;

pub const MII_STAT1000: u8 = 0x0A;

/// The windows behind which the delay settings are.
pub const MII_BCM54XX_AUX_CTL: u8 = 0x18;

pub const MII_BCM54XX_SHD: u8 = 0x1C;

pub const BMCR_RESET: u16 = 0x8000;

/// Negotiate, and start again.
pub const BMCR_NEGOTIATE: u16 = 0x1200;

pub const BMSR_LSTATUS: u16 = 0x0004;

pub const BMSR_ANEGCOMPLETE: u16 = 0x0020;

pub const ADVERTISE_10HALF: u16 = 0x0020;

pub const ADVERTISE_10FULL: u16 = 0x0040;

pub const ADVERTISE_100HALF: u16 = 0x0080;

pub const ADVERTISE_100FULL: u16 = 0x0100;

/// Everything below a gigabit that a copper port can do.
pub const ADVERTISE_ALL: u16 = 0x01E1;

// The gigabit pair, which live in other registers, and whose numbering starts
// again from the bottom.
pub const ADVERTISE_1000HALF: u16 = 0x0100;

pub const ADVERTISE_1000FULL: u16 = 0x0200;

pub const AUXCTL_SHDWSEL_MISC: u16 = 0x07;

pub const AUXCTL_MISC_RGMII_SKEW_EN: u16 = 0x0100;

pub const AUXCTL_MISC_WREN: u16 = 0x8000;

pub const SHD_CLK_CTL: u16 = 0x03;

pub const SHD_CLK_CTL_GTXCLK_EN: u16 = 0x0200;

pub const SHD_WRITE: u16 = 0x8000;

/// How the port is wired between the controller and the PHY, which decides
/// which end puts the quarter-cycle delay on which clock. The tree says.
#[derive(Debug, Clone, Copy, PartialEq, Eq, Structural)]
pub enum PhyMode {
    /// Neither end delays anything; the board's traces do it.
    Rgmii,
    /// The PHY delays the receive clock, the controller the transmit clock.
    RgmiiRxId,
    /// The PHY delays the transmit clock.
    RgmiiTxId,
    /// The PHY delays both.
    RgmiiId,
}

/// What the link settled on, or that it has not.
#[derive(Debug, Clone, Copy, PartialEq, Eq, Structural)]
pub struct Link {
    pub up: bool,
    pub speed: u32,
    pub full_duplex: bool,
}

/// No link.
pub open spec fn no_link() -> Link {
    Link { up: false, speed: 0, full_duplex: false }
}

// ---- the bus ------------------------------------------------------------------------

/// The command that reads a register of a PHY. It is written once as it is,
/// and again with the busy bit.
pub fn mdio_read_command(phy: u8, reg: u8) -> (command: u32)
    requires
        phy < 32,
        reg < 32,
    ensures
        command == MDIO_RD + phy * 0x20_0000 + reg * 0x1_0000,
{
    MDIO_RD + phy as u32 * 0x20_0000 + reg as u32 * 0x1_0000
}

/// The command that writes a register of a PHY.
pub fn mdio_write_command(phy: u8, reg: u8, value: u16) -> (command: u32)
    requires
        phy < 32,
        reg < 32,
    ensures
        command == MDIO_WR + phy * 0x20_0000 + reg * 0x1_0000 + value,
{
    MDIO_WR + phy as u32 * 0x20_0000 + reg as u32 * 0x1_0000 + value as u32
}

/// A command with the busy bit, which starts the transfer.
pub fn started(command: u32) -> (value: u32)
    ensures
        value == command | MDIO_START_BUSY,
{
    command | MDIO_START_BUSY
}

/// What polling for the end of a transfer comes to.
#[derive(Debug, Clone, Copy, PartialEq, Eq, Structural)]
pub enum Transfer {
    Over,
    /// Wait a microsecond and look again.
    UnderWay,
    GivenUp,
}

/// Whether a transfer is over, on look number `looks` at the command register.
/// One frame on this bus takes about 26 microseconds; the limit is far beyond
/// that and is only there so a bus with nothing driving it cannot stop the
/// kernel.
pub fn mdio_wait(value: u32, looks: u32) -> (state: Transfer)
    ensures
        state == (if looks >= MDIO_TIMEOUT_US {
            Transfer::GivenUp
        } else if value & MDIO_START_BUSY == 0 {
            Transfer::Over
        } else {
            Transfer::UnderWay
        }),
{
    if looks >= MDIO_TIMEOUT_US {
        Transfer::GivenUp
    } else if value & MDIO_START_BUSY == 0 {
        Transfer::Over
    } else {
        Transfer::UnderWay
    }
}

/// The answer to a read. The controller reports a transfer the PHY never
/// answered; that is what an empty address looks like, so it is nothing rather
/// than a value of all ones.
pub fn mdio_answer(value: u32) -> (answer: Option<u16>)
    ensures
        answer == (if value & MDIO_READ_FAIL != 0 {
            None
        } else {
            Some((value % 0x1_0000) as u16)
        }),
{
    if value & MDIO_READ_FAIL != 0 {
        None
    } else {
        Some((value % 0x1_0000) as u16)
    }
}

/// What selects a window of the auxiliary control register for reading: all
/// ones in the select field, and the window's number further up.
pub fn auxctl_select(window: u16) -> (value: u16)
    requires
        window < 16,
    ensures
        value == 7 + window * 0x1000,
{
    7 + window * 0x1000
}

/// What selects a shadow register for reading.
pub fn shadow_select(window: u16) -> (value: u16)
    ensures
        value == window % 32 * 0x400,
{
    window % 32 * 0x400
}

/// The bottom ten bits, which are what a shadow register holds.
pub fn shadow_answer(value: u16) -> (answer: u16)
    ensures
        answer == value % 0x400,
{
    value % 0x400
}

/// What writes a shadow register.
pub fn shadow_write(window: u16, value: u16) -> (written: u16)
    ensures
        written == SHD_WRITE + window % 32 * 0x400 + value % 0x400,
{
    SHD_WRITE + window % 32 * 0x400 + value % 0x400
}

// ---- the chip -----------------------------------------------------------------------

/// Whether the PHY delays the receive clock.
pub open spec fn delays_rx(mode: PhyMode) -> bool {
    mode is RgmiiRxId || mode is RgmiiId
}

/// Whether the PHY delays the transmit clock.
pub open spec fn delays_tx(mode: PhyMode) -> bool {
    mode is RgmiiTxId || mode is RgmiiId
}

/// What the miscellaneous window has to become for the receive clock to be
/// delayed where the port's wiring says: the skew on or off, the write enabled,
/// and the window's own number.
pub fn rx_delay_setting(misc: u16, mode: PhyMode) -> (value: u16)
    ensures
        value == AUXCTL_SHDWSEL_MISC | (if delays_rx(mode) {
            (misc | AUXCTL_MISC_WREN) | AUXCTL_MISC_RGMII_SKEW_EN
        } else {
            (misc | AUXCTL_MISC_WREN) & !AUXCTL_MISC_RGMII_SKEW_EN
        }),
{
    let misc: u16 = misc | AUXCTL_MISC_WREN;
    let value: u16 = match mode {
        PhyMode::RgmiiRxId => misc | AUXCTL_MISC_RGMII_SKEW_EN,
        PhyMode::RgmiiId => misc | AUXCTL_MISC_RGMII_SKEW_EN,
        _ => misc & !AUXCTL_MISC_RGMII_SKEW_EN,
    };
    AUXCTL_SHDWSEL_MISC | value
}

/// What the clock control register has to become for the transmit clock to be
/// delayed where the port's wiring says.
pub fn tx_delay_setting(clock: u16, mode: PhyMode) -> (value: u16)
    ensures
        value == (if delays_tx(mode) {
            clock | SHD_CLK_CTL_GTXCLK_EN
        } else {
            clock & !SHD_CLK_CTL_GTXCLK_EN
        }),
{
    match mode {
        PhyMode::RgmiiTxId => clock | SHD_CLK_CTL_GTXCLK_EN,
        PhyMode::RgmiiId => clock | SHD_CLK_CTL_GTXCLK_EN,
        _ => clock & !SHD_CLK_CTL_GTXCLK_EN,
    }
}

/// What looking whether the PHY is still in its reset comes to. The bit clears
/// itself; it is polled in millisecond steps, and given up on after half a
/// second.
pub fn reset_is_over(answer: Option<u16>, looks: u32) -> (over: bool)
    ensures
        over == (looks >= PHY_RESET_TIMEOUT_MS || (answer matches Some(value) && value & BMCR_RESET
            == 0)),
{
    if looks >= PHY_RESET_TIMEOUT_MS {
        return true;
    }
    match answer {
        Some(value) => value & BMCR_RESET == 0,
        None => false,
    }
}

/// The registers to write to have the PHY negotiate: everything a gigabit
/// copper port can do is advertised, and the other end chooses.
pub fn negotiation() -> (writes: Vec<(u8, u16)>)
    ensures
        writes@ == seq![
            (MII_ADVERTISE, ADVERTISE_ALL),
            (MII_CTRL1000, 0x0300u16),
            (MII_BMCR, BMCR_NEGOTIATE),
        ],
{
    let mut writes: Vec<(u8, u16)> = Vec::new();
    writes.push((MII_ADVERTISE, ADVERTISE_ALL));
    writes.push((MII_CTRL1000, 0x0300));
    writes.push((MII_BMCR, BMCR_NEGOTIATE));
    assert(writes@ =~= seq![
        (MII_ADVERTISE, ADVERTISE_ALL),
        (MII_CTRL1000, 0x0300u16),
        (MII_BMCR, BMCR_NEGOTIATE),
    ]);
    writes
}

/// The PHY's own number, or nothing where nothing answers: an address with
/// nothing behind it reads as all zeroes or all ones.
pub fn phy_id(high: Option<u16>, low: Option<u16>) -> (id: Option<u32>)
    ensures
        id == (match (high, low) {
            (Some(h), Some(l)) => {
                let whole = (h * 0x1_0000 + l) as u32;
                if whole == 0 || whole == 0xFFFF_FFFF {
                    None::<u32>
                } else {
                    Some(whole)
                }
            },
            _ => None::<u32>,
        }),
{
    match (high, low) {
        (Some(h), Some(l)) => {
            let whole: u32 = h as u32 * 0x1_0000 + l as u32;
            if whole == 0 || whole == 0xFFFF_FFFF {
                None
            } else {
                Some(whole)
            }
        },
        _ => None,
    }
}

/// What both ends can do at a gigabit: in full duplex, in half, or not at all.
/// The far end's abilities arrive shifted two places from where ours sit.
pub open spec fn gigabit_in_common(ours: Option<u16>, theirs: Option<u16>) -> Option<bool> {
    match (ours, theirs) {
        (Some(a), Some(b)) => {
            let common = a & ((b / 4) as u16);
            if common & ADVERTISE_1000FULL != 0 {
                Some(true)
            } else if common & ADVERTISE_1000HALF != 0 {
                Some(false)
            } else {
                None
            }
        },
        _ => None,
    }
}

/// The fastest that both ends can do below a gigabit.
pub open spec fn fastest_in_common(common: u16) -> Link {
    if common & ADVERTISE_100FULL != 0 {
        Link { up: true, speed: 100, full_duplex: true }
    } else if common & ADVERTISE_100HALF != 0 {
        Link { up: true, speed: 100, full_duplex: false }
    } else if common & ADVERTISE_10FULL != 0 {
        Link { up: true, speed: 10, full_duplex: true }
    } else if common & ADVERTISE_10HALF != 0 {
        Link { up: true, speed: 10, full_duplex: false }
    } else {
        no_link()
    }
}

/// An answer, or zero.
pub open spec fn or_zero(answer: Option<u16>) -> u16 {
    match answer {
        Some(value) => value,
        None => 0,
    }
}

/// What the PHY says the link is now, from what its registers answered: the
/// status twice, what each end can do at a gigabit, and what each can do below
/// it.
///
/// Reading the status twice is the standard's own instruction: the
/// loss-of-link bit latches, so the first read reports whether it has ever been
/// down since the last read and the second reports the state now. Until the two
/// ends have agreed the speed registers do not mean anything. What both ends
/// can do is what each advertised, and the fastest of those wins.
pub fn read_link(
    first_status: Option<u16>,
    status: Option<u16>,
    ctrl1000: Option<u16>,
    stat1000: Option<u16>,
    advertise: Option<u16>,
    partner: Option<u16>,
) -> (link: Link)
    ensures
        link == (if first_status is None || status is None || status->0 & BMSR_LSTATUS == 0
            || status->0 & BMSR_ANEGCOMPLETE == 0 {
            no_link()
        } else {
            match gigabit_in_common(ctrl1000, stat1000) {
                Some(full_duplex) => Link { up: true, speed: 1000, full_duplex },
                None => fastest_in_common(or_zero(advertise) & or_zero(partner)),
            }
        }),
{
    let down = Link { up: false, speed: 0, full_duplex: false };
    if first_status.is_none() {
        return down;
    }
    let status: u16 = match status {
        Some(status) => status,
        None => {
            return down;
        },
    };
    if status & BMSR_LSTATUS == 0 {
        return down;
    }
    if status & BMSR_ANEGCOMPLETE == 0 {
        return down;
    }
    if let Some(ours) = ctrl1000 {
        if let Some(theirs) = stat1000 {
            let common: u16 = ours & (theirs / 4);
            if common & ADVERTISE_1000FULL != 0 {
                return Link { up: true, speed: 1000, full_duplex: true };
            }
            if common & ADVERTISE_1000HALF != 0 {
                return Link { up: true, speed: 1000, full_duplex: false };
            }
        }
    }
    let ours: u16 = match advertise {
        Some(value) => value,
        None => 0,
    };
    let theirs: u16 = match partner {
        Some(value) => value,
        None => 0,
    };
    let common: u16 = ours & theirs;
    if common & ADVERTISE_100FULL != 0 {
        Link { up: true, speed: 100, full_duplex: true }
    } else if common & ADVERTISE_100HALF != 0 {
        Link { up: true, speed: 100, full_duplex: false }
    } else if common & ADVERTISE_10FULL != 0 {
        Link { up: true, speed: 10, full_duplex: true }
    } else if common & ADVERTISE_10HALF != 0 {
        Link { up: true, speed: 10, full_duplex: false }
    } else {
        down
    }
}

// ---- what the device tree says ------------------------------------------------------

/// Whether some bytes are a station's address: six of them, not all zero,
/// which is a placeholder, and without the multicast bit in the first.
pub open spec fn is_station_address(value: Seq<u8>) -> bool {
    &&& value.len() == 6
    &&& value != seq![0u8, 0, 0, 0, 0, 0]
    &&& value[0] % 2 == 0
}

/// The bytes of a property as a station's address, where they are one.
pub open spec fn station_in(value: Option<&[u8]>) -> Option<Seq<u8>> {
    match value {
        Some(bytes) => if is_station_address(bytes@) {
            Some(bytes@)
        } else {
            None
        },
        None => None,
    }
}

fn station_address(value: Option<&[u8]>) -> (mac: Option<[u8; 6]>)
    ensures
        mac is Some <==> station_in(value) is Some,
        mac matches Some(bytes) ==> bytes@ == station_in(value)->0,
{
    let bytes = match value {
        Some(bytes) => bytes,
        None => {
            return None;
        },
    };
    if bytes.len() != 6 {
        return None;
    }
    let mac: [u8; 6] = [bytes[0], bytes[1], bytes[2], bytes[3], bytes[4], bytes[5]];
    assert(mac@ =~= bytes@);
    if mac[0] == 0 && mac[1] == 0 && mac[2] == 0 && mac[3] == 0 && mac[4] == 0 && mac[5] == 0 {
        assert(bytes@ =~= seq![0u8, 0, 0, 0, 0, 0]);
        return None;
    }
    assert(bytes@ != seq![0u8, 0, 0, 0, 0, 0]) by {
        let zero = seq![0u8, 0, 0, 0, 0, 0];
        assert(zero[0] == 0 && zero[1] == 0 && zero[2] == 0 && zero[3] == 0 && zero[4] == 0
            && zero[5] == 0);
    }
    if mac[0] % 2 != 0 {
        return None;
    }
    Some(mac)
}

/// The hardware address a node's properties carry, out of the first of three
/// spellings that has one. The address is per-board and the firmware is the
/// only thing that knows it, so there is no fallback.
pub fn mac_from(mac_address: Option<&[u8]>, local: Option<&[u8]>, address: Option<&[u8]>) -> (mac:
    Option<[u8; 6]>)
    ensures
        match mac {
            None => station_in(mac_address) is None && station_in(local) is None && station_in(
                address,
            ) is None,
            Some(bytes) => Some(bytes@) == (if station_in(mac_address) is Some {
                station_in(mac_address)
            } else if station_in(local) is Some {
                station_in(local)
            } else {
                station_in(address)
            }),
        },
{
    if let Some(mac) = station_address(mac_address) {
        return Some(mac);
    }
    if let Some(mac) = station_address(local) {
        return Some(mac);
    }
    station_address(address)
}

/// What comes before the first zero byte.
pub open spec fn up_to_zero(value: Seq<u8>) -> Seq<u8>
    decreases value.len(),
{
    if value.len() == 0 || value[0] == 0 {
        Seq::empty()
    } else {
        seq![value[0]] + up_to_zero(value.skip(1))
    }
}

/// The wiring a name stands for.
pub open spec fn mode_named(name: Seq<u8>) -> Option<PhyMode> {
    // "rgmii" and then nothing, "-rxid", "-txid" or "-id".
    if name == seq![114u8, 103, 109, 105, 105] {
        Some(PhyMode::Rgmii)
    } else if name == seq![114u8, 103, 109, 105, 105, 45, 114, 120, 105, 100] {
        Some(PhyMode::RgmiiRxId)
    } else if name == seq![114u8, 103, 109, 105, 105, 45, 116, 120, 105, 100] {
        Some(PhyMode::RgmiiTxId)
    } else if name == seq![114u8, 103, 109, 105, 105, 45, 105, 100] {
        Some(PhyMode::RgmiiId)
    } else {
        None
    }
}

/// How the port is wired, from what a node calls it, with the older spelling
/// of the property where the newer one is not there.
pub fn phy_mode_from(phy_mode: Option<&[u8]>, connection_type: Option<&[u8]>) -> (mode: Option<
    PhyMode,
>)
    ensures
        mode == (match phy_mode {
            Some(value) => mode_named(up_to_zero(value@)),
            None => match connection_type {
                Some(value) => mode_named(up_to_zero(value@)),
                None => None,
            },
        }),
{
    let value = match phy_mode {
        Some(value) => value,
        None => match connection_type {
            Some(value) => value,
            None => {
                return None;
            },
        },
    };
    let mut name: Vec<u8> = Vec::new();
    let mut at: usize = 0;
    assert(value@.skip(0) =~= value@);
    assert(name@ + up_to_zero(value@) =~= up_to_zero(value@));
    while at < value.len() && value[at] != 0
        invariant
            at <= value@.len(),
            name@ + up_to_zero(value@.skip(at as int)) == up_to_zero(value@),
        decreases value@.len() - at,
    {
        let ghost so_far = name@;
        let ghost rest = value@.skip(at as int);
        name.push(value[at]);
        at += 1;
        assert(rest.skip(1) =~= value@.skip(at as int));
        assert(so_far + (seq![rest[0]] + up_to_zero(rest.skip(1))) =~= name@ + up_to_zero(
            value@.skip(at as int),
        ));
    }
    assert(up_to_zero(value@.skip(at as int)) =~= Seq::empty());
    assert(name@ =~= up_to_zero(value@));
    named_mode(name.as_slice())
}

fn named_mode(name: &[u8]) -> (mode: Option<PhyMode>)
    ensures
        mode == mode_named(name@),
{
    let plain: [u8; 5] = [114, 103, 109, 105, 105];
    let rxid: [u8; 10] = [114, 103, 109, 105, 105, 45, 114, 120, 105, 100];
    let txid: [u8; 10] = [114, 103, 109, 105, 105, 45, 116, 120, 105, 100];
    let id: [u8; 8] = [114, 103, 109, 105, 105, 45, 105, 100];
    assert(plain@ =~= seq![114u8, 103, 109, 105, 105]);
    assert(rxid@ =~= seq![114u8, 103, 109, 105, 105, 45, 114, 120, 105, 100]);
    assert(txid@ =~= seq![114u8, 103, 109, 105, 105, 45, 116, 120, 105, 100]);
    assert(id@ =~= seq![114u8, 103, 109, 105, 105, 45, 105, 100]);
    if crate::bytes::same_bytes(name, plain.as_slice()) {
        Some(PhyMode::Rgmii)
    } else if crate::bytes::same_bytes(name, rxid.as_slice()) {
        Some(PhyMode::RgmiiRxId)
    } else if crate::bytes::same_bytes(name, txid.as_slice()) {
        Some(PhyMode::RgmiiTxId)
    } else if crate::bytes::same_bytes(name, id.as_slice()) {
        Some(PhyMode::RgmiiId)
    } else {
        None
    }
}

/// Where the PHY answers on the management bus, from the address of the node
/// the Ethernet node points at. There is no fallback scan: an address guessed
/// wrong talks to nothing.
pub fn phy_address_from(address: Option<u64>) -> (phy: Option<u8>)
    ensures
        phy == (match address {
            Some(at) => if at > 31 {
                None::<u8>
            } else {
                Some(at as u8)
            },
            None => None::<u8>,
        }),
{
    match address {
        Some(at) => if at > 31 {
            None
        } else {
            Some(at as u8)
        },
        None => None,
    }
}

} // verus!
