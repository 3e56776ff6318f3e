//! What can be checked about the network cards with no card present: the
//! arithmetic of the rings, the words of a descriptor, what is taken out of a
//! device tree, and what each register read leads to.

use kernel::errno::Errno;
use kernel::mm::frame::{self, BitmapAllocator, BootMap, Platform, Region};
use kernel::net::arptest::{self, Stage, Verdict, Wait};
use kernel::net::card::{self, Driver, Probing};
use kernel::net::e1000::{self, E1000, Eeprom, RxDesc, Shared};
use kernel::net::genet::{self, Described, Genet, NotBroughtUp, Op};
use kernel::net::genet_phy::{self, Link, PhyMode, Transfer};
use kernel::net::rx_queue::{rounds_due, RxQueue, QUEUE_SLOTS};
use kernel::text;

const MAC: [u8; 6] = [0xdc, 0xa6, 0x32, 0x01, 0x02, 0x03];

fn allocator() -> BitmapAllocator {
    let boot = BootMap {
        regions: vec![Region { addr: 0x10_0000, len: 0x40_0000, usable: true }],
        reserved: Vec::new(),
        modules: Vec::new(),
    };
    let platform = Platform {
        claimed: Vec::new(),
        kernel_phys_start: 0x10_0000,
        kernel_phys_end: 0x11_0000,
        device_phys_base: 0x1_0000_0000,
        hhdm_limit: 0x1_0000_0000,
    };
    frame::init(&boot, &platform).unwrap()
}

// ---- the board's own ethernet ----------------------------------------------

#[test]
fn registers() {
    assert_eq!(genet::RDMA_RING, 0x3000);
    assert_eq!(genet::TDMA_RING, 0x5000);
    assert_eq!(genet::RDMA_CTRL, 0x3040);
    assert_eq!(genet::TDMA_CTRL, 0x5040);
    assert_eq!(genet::UMAC_MDIO_CMD, 0xE14);
    assert!(genet::TDMA_CTRL + 0x90 < 0x1_0000);
    assert_eq!(genet::rx_desc(0), 0x2000);
    assert_eq!(genet::rx_desc(255), 0x2000 + 255 * 12);
    assert_eq!(genet::tx_desc(255), 0x4000 + 255 * 12);
    assert_eq!(genet::rx_desc(256), 0x2C00);
}

#[test]
fn rings() {
    assert_eq!(genet::slot(0, 256), 0);
    assert_eq!(genet::slot(255, 256), 255);
    assert_eq!(genet::slot(256, 256), 0);
    assert_eq!(genet::slot(70, 64), 6);
    assert_eq!(genet::slot(65535, 64), 63);
    assert_eq!(genet::slot(0, 64), 0);

    assert_eq!(genet::outstanding(7, 7), 0);
    assert_eq!(genet::outstanding(10, 7), 3);
    assert_eq!(genet::outstanding(2, 65535), 3);
    assert_eq!(genet::outstanding(64, 0), 64);

    assert_eq!(genet::ring_start_word(0), 0);
    assert_eq!(genet::ring_start_word(16), 48);
    assert_eq!(genet::ring_end_word(256), 767);
    assert_eq!(genet::ring_end_word(64), 191);
}

#[test]
fn descriptors() {
    let word = genet::tx_length_status(60);
    assert_eq!(word, 0x003C_7FC0);
    assert_eq!(word >> 16, 60);
    assert_ne!(word & 0x0040, 0);
    assert_ne!(word & 0x2000, 0);
    assert_ne!(word & 0x4000, 0);
    assert_eq!((word >> 7) & 0x3F, 0x3F);
    assert_eq!(genet::tx_length_status(1536) >> 16, 1536);
    assert_eq!(genet::rx_length(0x0040_2000 | 0x6000), 64);
    assert_eq!(genet::rx_length(0x05EE_6000), 1518);
}

/// The packet buffers, which are cut two to a page.
#[test]
fn buffers() {
    let mut memory = allocator();
    let free = memory.free_frames();
    let buffers = genet::allocate_buffers(&mut memory, 5).unwrap();
    assert_eq!(buffers.len(), 5);
    assert!(buffers.iter().all(|&b| b % 2048 == 0));
    for (i, &a) in buffers.iter().enumerate() {
        assert!(buffers[i + 1..].iter().all(|&b| a != b));
    }
    assert_eq!(buffers[0] + 2048, buffers[1]);
    assert_eq!(buffers[2] + 2048, buffers[3]);
    assert!(buffers.iter().all(|&b| b % 4096 + 2048 <= 4096));
    assert_eq!(memory.free_frames(), free - 3);
    assert!(genet::allocate_buffers(&mut memory, 100_000).is_none());
}

fn card() -> Genet {
    let rx: Vec<u64> = (0..genet::RX_DESCS as u64).map(|i| 0x10_0000 + i * 2048).collect();
    let tx: Vec<u64> = (0..genet::TX_DESCS as u64).map(|i| 0x20_0000 + i * 2048).collect();
    Genet::new(MAC, PhyMode::RgmiiRxId, 1, rx, tx)
}

#[test]
fn a_card_takes_what_its_ring_holds() {
    let mut card = card();
    card.start_rx(65534);
    let mut words = vec![0u32; genet::RX_DESCS];
    let mut buffers = vec![vec![0u8; genet::BUFFER_SIZE]; genet::RX_DESCS];
    let whole = genet::DMA_SOP | genet::DMA_EOP;
    // Places 254 and 255, then 0 after the cursor has wrapped. The second of
    // them has an error.
    for (place, length, status) in [(254, 62u32, whole), (255, 62, whole | 1), (0, 72, whole)] {
        words[place] = length << 16 | status;
        buffers[place][2] = place as u8;
    }
    let mut queue = RxQueue::prepared();
    let (taken, cursors) = card.drain_rx(1, &words, &buffers, &mut queue);
    assert_eq!(taken, 2);
    assert_eq!(cursors, vec![65535, 0, 1]);
    let mut frame = Vec::new();
    assert!(queue.pop(&mut frame));
    assert_eq!((frame.len(), frame[0]), (60, 254));
    assert!(queue.pop(&mut frame));
    assert_eq!((frame.len(), frame[0]), (70, 0));
    assert!(!queue.pop(&mut frame));
    // Nothing more until the card's cursor moves.
    assert_eq!(card.drain_rx(1, &words, &buffers, &mut queue).0, 0);
}

#[test]
fn a_frame_goes_out_through_the_next_descriptor() {
    let mut card = card();
    card.start_tx(65535);
    assert_eq!(card.transmit(10), Err(Errno::EINVAL));
    assert_eq!(card.transmit(60), Err(Errno::ENETDOWN));
    let up = Link { up: true, speed: 1000, full_duplex: true };
    assert!(card.poll_link(up).is_some());
    assert!(card.poll_link(up).is_none());
    assert!(card.link_up());
    assert_eq!(card.transmit(60), Ok(()));
    match card.transmit_step(60, 65535, 0, 100) {
        genet::TxAction::Send { index, buffer, ops } => {
            assert_eq!(index, 63);
            assert_eq!(buffer, 0x20_0000 + 63 * 2048);
            let first = Op::Write { offset: genet::tx_desc(63) + genet::DESC_ADDRESS_LO, value: buffer as u32 };
            assert!(ops.contains(&first));
            let word = Op::Write { offset: genet::tx_desc(63), value: 0x003C_7FC0 };
            assert!(ops.contains(&word));
            let told = Op::Write { offset: genet::TDMA_RING + genet::TDMA_PROD_INDEX, value: 0 };
            assert_eq!(ops.last(), Some(&told));
        }
        _ => panic!("there was room"),
    }
    for _ in 1..64 {
        assert!(matches!(card.transmit_step(60, 65535, 0, 100), genet::TxAction::Send { .. }));
    }
    assert_eq!(card.transmit_step(60, 65535, 100, 100), genet::TxAction::Wait);
    assert_eq!(card.transmit_step(60, 65535, 101, 100), genet::TxAction::Blocked);
    assert_eq!(card.transmits_dropped(), 1);
}

/// What the driver takes out of a tree, with the numbers of the real board.
#[test]
fn what_a_device_tree_says_of_the_controller() {
    let node = || Described {
        enabled: true,
        reg: Some((0xFD58_0000, 0x1_0000)),
        interrupt: Some(189),
        mac_address: None,
        local_mac_address: Some(&MAC),
        address: None,
        phy_mode: Some(b"rgmii-rxid\0"),
        phy_connection_type: None,
        phy: Some(1),
    };
    let found = genet::probe(true, Some(node()), 0xFC00_0000, 0x1_0000_0000).unwrap();
    assert_eq!((found.base, found.size), (0xFD58_0000, 0x1_0000));
    assert_eq!((found.irq, found.phy), (189, 1));
    assert_eq!(found.mac, MAC);
    assert_eq!(found.mode, PhyMode::RgmiiRxId);

    let refused = |node: Option<Described>| {
        genet::probe(true, node, 0xFC00_0000, 0x1_0000_0000).err().unwrap()
    };
    assert_eq!(
        genet::probe(false, None, 0xFC00_0000, 0x1_0000_0000).err(),
        Some(NotBroughtUp::NoTree)
    );
    assert_eq!(refused(None), NotBroughtUp::NoNode);
    assert_eq!(refused(Some(Described { enabled: false, ..node() })), NotBroughtUp::Disabled);
    assert_eq!(refused(Some(Described { reg: None, ..node() })), NotBroughtUp::NoRegisters);
    assert_eq!(
        refused(Some(Described { reg: Some((0x7D58_0000, 0x1_0000)), ..node() })),
        NotBroughtUp::OutsideTheWindow
    );
    assert_eq!(refused(Some(Described { interrupt: None, ..node() })), NotBroughtUp::NoInterrupt);
    assert_eq!(
        refused(Some(Described { local_mac_address: None, ..node() })),
        NotBroughtUp::NoAddress
    );
    assert_eq!(
        refused(Some(Described { phy_mode: Some(b"mii\0"), ..node() })),
        NotBroughtUp::UnknownMode
    );
    assert_eq!(refused(Some(Described { phy: None, ..node() })), NotBroughtUp::NoPhy);
}

#[test]
fn the_register_lists() {
    assert_eq!(genet::version(0x0600_0000), 5);
    assert!(genet::hold_in_reset().len() > 0);
    let ops = genet::set_hw_addr(&MAC);
    assert!(ops.contains(&Op::Write { offset: genet::UMAC_MAC0, value: 0xDCA6_3201 }));
    assert!(ops.contains(&Op::Write { offset: genet::UMAC_MAC1, value: 0x0203 }));
    assert_eq!(genet::counter_ticks(2_000, 54_000_000), 108_000);
    assert_eq!(genet::counter_ticks(1, 1_500_000), 2);
    assert!(genet::link_poll_is_due(150, 100));
    assert!(!genet::link_poll_is_due(149, 100));
}

// ---- the phy ---------------------------------------------------------------

#[test]
fn the_management_bus() {
    assert_eq!(genet_phy::mdio_read_command(1, genet_phy::MII_BMSR), 0x0821_0000);
    assert_eq!(genet_phy::mdio_write_command(1, genet_phy::MII_BMCR, 0x1200), 0x0420_1200);
    assert_eq!(genet_phy::started(0x0821_0000), 0x2821_0000);
    assert_eq!(genet_phy::mdio_answer(0x0821_796D), Some(0x796D));
    assert_eq!(genet_phy::mdio_answer(0x1821_796D), None);
    assert_eq!(genet_phy::mdio_wait(0x2821_0000, 0), Transfer::UnderWay);
    assert_eq!(genet_phy::mdio_wait(0x0821_0000, 0), Transfer::Over);
    assert_eq!(
        genet_phy::mdio_wait(0x2821_0000, genet_phy::MDIO_TIMEOUT_US),
        Transfer::GivenUp
    );
    assert_eq!(genet_phy::phy_id(Some(0x600D), Some(0x84A2)), Some(0x600D_84A2));
    assert_eq!(genet_phy::phy_id(Some(0xFFFF), Some(0xFFFF)), None);
}

#[test]
fn the_fastest_that_both_ends_advertise() {
    let up = Some(genet_phy::BMSR_LSTATUS | genet_phy::BMSR_ANEGCOMPLETE);
    let all = Some(genet_phy::ADVERTISE_ALL);
    let gigabit = genet_phy::read_link(
        up,
        up,
        Some(genet_phy::ADVERTISE_1000FULL),
        Some(genet_phy::ADVERTISE_1000FULL << 2),
        all,
        all,
    );
    assert_eq!(gigabit, Link { up: true, speed: 1000, full_duplex: true });
    let hundred = genet_phy::read_link(up, up, Some(0), Some(0), all, all);
    assert_eq!(hundred, Link { up: true, speed: 100, full_duplex: true });
    let ten = genet_phy::read_link(
        up,
        up,
        Some(0),
        Some(0),
        all,
        Some(genet_phy::ADVERTISE_10HALF),
    );
    assert_eq!(ten, Link { up: true, speed: 10, full_duplex: false });
    let down = genet_phy::read_link(Some(0), Some(0), None, None, None, None);
    assert_eq!(down, Link { up: false, speed: 0, full_duplex: false });
}

#[test]
fn how_a_port_is_wired() {
    let mode = |text: &'static [u8]| genet_phy::phy_mode_from(Some(text), None);
    assert_eq!(mode(b"rgmii\0"), Some(PhyMode::Rgmii));
    assert_eq!(mode(b"rgmii-id\0"), Some(PhyMode::RgmiiId));
    assert_eq!(mode(b"rgmii-txid\0"), Some(PhyMode::RgmiiTxId));
    assert_eq!(mode(b"sgmii\0"), None);
    assert_eq!(
        genet_phy::phy_mode_from(None, Some(b"rgmii-rxid\0")),
        Some(PhyMode::RgmiiRxId)
    );
    assert_eq!(genet_phy::phy_address_from(Some(1)), Some(1));
    assert_eq!(genet_phy::phy_address_from(Some(32)), None);
    assert_eq!(genet_phy::mac_from(None, Some(&MAC), None), Some(MAC));
    assert_eq!(genet_phy::mac_from(Some(&[0; 6]), Some(&MAC), None), Some(MAC));
    assert_eq!(genet_phy::mac_from(None, Some(&MAC[..5]), None), None);
}

// ---- the emulated card -----------------------------------------------------

#[test]
fn the_address_in_the_eeprom() {
    assert_eq!(e1000::eeprom_request(2), 0x0201);
    assert_eq!(e1000::eeprom_answer(0x5452_0010, 0), Eeprom::Word(0x5452));
    assert_eq!(e1000::eeprom_answer(0, 0), Eeprom::NotYet);
    assert_eq!(e1000::eeprom_answer(0, e1000::EEPROM_TRIES), Eeprom::GiveUp);
    assert_eq!(
        e1000::read_mac(Some(0x5452), Some(0x1200), Some(0x5634), 0, 0),
        [0x52, 0x54, 0x00, 0x12, 0x34, 0x56]
    );
    assert_eq!(
        e1000::read_mac(None, None, None, 0x1200_5452, 0x8000_5634),
        [0x52, 0x54, 0x00, 0x12, 0x34, 0x56]
    );
}

#[test]
fn what_the_status_register_says() {
    assert!(e1000::link_up(0x2));
    assert!(!e1000::link_up(0x1));
    assert_eq!(e1000::link_speed(0x80), 1000);
    assert_eq!(e1000::link_speed(0x40), 100);
    assert_eq!(e1000::link_speed(0), 10);
    assert!(e1000::full_duplex(0x1));
    assert!(e1000::is_resetting(e1000::reset_control(0)));
    assert_eq!(e1000::link_control(0xC000_0088), 0x61);
}

#[test]
fn which_cards_are_brought_up() {
    assert_eq!(e1000::probe(11, Some((0xFEB0_0000, 0x2_0000))), Ok((0xFEB0_0000, 0x2_0000)));
    assert_eq!(e1000::probe(0, Some((1, 1))), Err(e1000::Refused::InterruptLine));
    assert_eq!(e1000::probe(16, Some((1, 1))), Err(e1000::Refused::InterruptLine));
    assert_eq!(e1000::probe(11, None), Err(e1000::Refused::NotMemory));
    assert_eq!(e1000::probe(11, Some((0, 1))), Err(e1000::Refused::Unassigned));
    assert_eq!(e1000::pages_for(1), 1);
    assert_eq!(e1000::pages_for(4097), 2);
    assert_eq!(e1000::also_for(1), Shared::Keyboard);
    assert_eq!(e1000::also_for(4), Shared::Serial);
    assert_eq!(e1000::also_for(11), Shared::Nothing);
}

#[test]
fn a_drain_takes_every_finished_frame() {
    let mut card = E1000::new(MAC, 0x10_0000, 0x20_0000, 0x30_0000);
    let (mut ring, writes) = card.setup_rx();
    assert_eq!(ring.len(), e1000::RX_DESCS);
    assert_eq!(ring[3].addr, 0x20_0000 + 3 * 2048);
    assert!(writes.iter().any(|w| w.offset == e1000::RDBAL && w.value == 0x10_0000));
    let mut buffers = vec![0u8; e1000::RX_DESCS * e1000::BUFFER_SIZE];
    for (place, errors) in [(0usize, 0u8), (1, 1), (2, 0)] {
        ring[place] = RxDesc {
            length: 60,
            status: e1000::RX_STATUS_DD | e1000::RX_STATUS_EOP,
            errors,
            ..ring[place]
        };
        buffers[place * e1000::BUFFER_SIZE] = 7 + place as u8;
    }
    let mut queue = RxQueue::prepared();
    let (taken, tails) = card.drain_rx(&mut ring, &buffers, &mut queue);
    assert_eq!(taken, 2);
    assert_eq!(tails, vec![0, 1, 2]);
    assert_eq!(ring[0].status, 0);
    assert_eq!(queue.waiting(), 2);
    let mut frame = Vec::new();
    assert!(queue.pop(&mut frame));
    assert_eq!((frame.len(), frame[0]), (60, 7));
    ring[3] = RxDesc {
        length: 60,
        status: e1000::RX_STATUS_DD | e1000::RX_STATUS_EOP,
        ..ring[3]
    };
    let (wake, tails) = card.handle_interrupt(e1000::INT_RXO, &mut ring, &buffers, &mut queue);
    assert!(wake);
    assert_eq!(tails, vec![3]);
    assert_eq!(card.overruns(), 1);
    let (wake, _) = card.handle_interrupt(0, &mut ring, &buffers, &mut queue);
    assert!(!wake);
    assert_eq!(card.interrupts(), 1);
}

#[test]
fn a_frame_is_sent_through_the_ring() {
    let mut card = E1000::new(MAC, 0x10_0000, 0x20_0000, 0x30_0000);
    assert_eq!(card.transmit(0), Err(Errno::EINVAL));
    assert_eq!(card.transmit(e1000::BUFFER_SIZE + 1), Err(Errno::EINVAL));
    let mut sending = card.transmit(60).unwrap();
    match card.transmit_step(&mut sending, e1000::TX_STATUS_DD) {
        e1000::TxAction::Fill { desc, tail } => {
            assert_eq!(desc.addr, 0x30_0000);
            assert_eq!((desc.length, desc.cmd, desc.status), (60, e1000::TX_CMD, 0));
            assert_eq!(tail, 1);
        }
        other => panic!("{:?}", other),
    }
    assert_eq!(card.transmit_step(&mut sending, 0), e1000::TxAction::Look);
    assert_eq!(
        card.transmit_step(&mut sending, e1000::TX_STATUS_DD),
        e1000::TxAction::Sent
    );
    sending.filled = true;
    sending.spins = e1000::TX_SPIN_LIMIT;
    assert_eq!(card.transmit_step(&mut sending, 0), e1000::TxAction::Failed);
}

// ---- frames on their way to the stack --------------------------------------

#[test]
fn a_full_queue_drops_what_comes_last() {
    let mut queue = RxQueue::prepared();
    for i in 0..QUEUE_SLOTS + 2 {
        queue.push(&[i as u8]);
    }
    assert_eq!(queue.waiting(), QUEUE_SLOTS);
    assert_eq!(queue.dropped(), 2);
    let mut frame = Vec::new();
    for i in 0..QUEUE_SLOTS {
        assert!(queue.pop(&mut frame));
        assert_eq!(frame, vec![i as u8]);
    }
    assert!(!queue.pop(&mut frame));
    // A queue nobody has prepared holds nothing.
    let mut bare = RxQueue::new();
    bare.push(&[1]);
    assert_eq!(bare.waiting(), 0);
    assert_eq!(bare.dropped(), 1);
    assert_eq!(rounds_due(10, 10), 0);
}

// ---- the check of the card -------------------------------------------------

#[test]
fn the_check_asks_and_recognises_the_answer() {
    let ours = [0x52, 0x54, 0x00, 0x12, 0x34, 0x56];
    let request = arptest::build_request(&ours, [10, 0, 2, 15], [10, 0, 2, 2]);
    assert_eq!(&request[..6], &[0xFF; 6]);
    assert_eq!(&request[6..12], &ours);
    assert_eq!(&request[12..22], &[8, 6, 0, 1, 8, 0, 6, 4, 0, 1]);
    assert_eq!(&request[28..32], &[10, 0, 2, 15]);
    assert_eq!(&request[38..42], &[10, 0, 2, 2]);
    assert_eq!(arptest::observe(&request, [10, 0, 2, 2]), None);

    let mut reply = Vec::new();
    reply.extend_from_slice(&ours);
    reply.extend_from_slice(&MAC);
    reply.extend_from_slice(&[8, 6, 0, 1, 8, 0, 6, 4, 0, 2]);
    reply.extend_from_slice(&MAC);
    reply.extend_from_slice(&[10, 0, 2, 2]);
    reply.extend_from_slice(&ours);
    reply.extend_from_slice(&[10, 0, 2, 15]);
    assert_eq!(arptest::observe(&reply, [10, 0, 2, 2]), Some(MAC));
    assert_eq!(arptest::observe(&reply, [10, 0, 2, 3]), None);
    assert_eq!(arptest::observe(&reply[..41], [10, 0, 2, 2]), None);
}

#[test]
fn the_check_passes_when_the_gateway_answers_twice() {
    let mut stage = Stage::Asking(0);
    for unanswered in 1..arptest::ATTEMPTS {
        stage = arptest::run(stage, None);
        assert_eq!(stage, Stage::Asking(unanswered));
    }
    assert_eq!(arptest::run(stage, None), Stage::Over(Verdict::NoReply));
    let again = arptest::run(stage, Some((MAC, 1)));
    assert_eq!(again, Stage::Again(MAC));
    assert_eq!(arptest::run(again, Some((MAC, 2))), Stage::Over(Verdict::Twice(2)));
    let other = [9; 6];
    assert_eq!(
        arptest::run(again, Some((other, 2))),
        Stage::Over(Verdict::SomebodyElse(other))
    );
    assert_eq!(arptest::run(again, None), Stage::Over(Verdict::NoSecondReply));
    assert_eq!(arptest::tally(Verdict::Twice(2)), (2, 0));
    assert_eq!(arptest::tally(Verdict::NoReply), (0, 1));
    assert_eq!(arptest::exchange(100, 120, true), Wait::Answered);
    assert_eq!(arptest::exchange(100, 120, false), Wait::Sleep);
    assert_eq!(arptest::exchange(100, 150, false), Wait::TimedOut);
}

#[test]
fn a_hardware_address_in_text() {
    assert_eq!(text::format_mac(&MAC).to_vec(), b"dc:a6:32:01:02:03".to_vec());
    let mut out = Vec::new();
    text::push_decimal(&mut out, 0);
    text::push_decimal(&mut out, 18_446_744_073_709_551_615);
    assert_eq!(out, b"018446744073709551615".to_vec());
}

// ---- which card ------------------------------------------------------------

#[test]
fn the_first_driver_that_finds_its_card_is_the_one() {
    assert_eq!(card::probe(true, &[]), Probing::Ask(Driver::E1000));
    assert_eq!(card::probe(true, &[true]), Probing::Over(Some(Driver::E1000)));
    assert_eq!(card::probe(true, &[false]), Probing::Ask(Driver::Genet));
    assert_eq!(card::probe(true, &[false, true]), Probing::Over(Some(Driver::Genet)));
    assert_eq!(card::probe(true, &[false, false]), Probing::Over(None));
    assert_eq!(card::probe(false, &[]), Probing::Ask(Driver::E1000));
    assert_eq!(card::probe(false, &[false]), Probing::Over(None));
    assert_eq!(card::start_task(true, true), Some(Driver::E1000));
    assert_eq!(card::start_task(false, true), Some(Driver::Genet));
    assert_eq!(card::start_task(false, false), None);
}
