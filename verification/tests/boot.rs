//! What the loader leaves behind, a tree written node by node, and the small
//! things of the card reader.

use kernel::device_tree::{self, Builder};
use kernel::mmc::delay::{now_us, sleep_ticks, spin_is_over, Deadline};
use kernel::mmc::select_voltage;
use kernel::multiboot::{self, cstr_at, parse};

fn put(memory: &mut [u8], at: usize, value: u32) {
    memory[at..at + 4].copy_from_slice(&value.to_le_bytes());
}

/// A blob at 0x100 with a command line, two modules and a memory map.
fn loaded() -> Vec<u8> {
    let mut memory = vec![0u8; 0x4000];
    let info = 0x100;
    put(&mut memory, info, 1 | 4 | 8 | 64);
    put(&mut memory, info + 4, 639);
    put(&mut memory, info + 8, 130_048);
    put(&mut memory, info + 16, 0x800);
    memory[0x800..0x80B].copy_from_slice(b"console=ser");
    put(&mut memory, info + 20, 2);
    put(&mut memory, info + 24, 0x900);
    put(&mut memory, 0x900, 0x1000);
    put(&mut memory, 0x904, 0x2000);
    put(&mut memory, 0x908, 0x980);
    memory[0x980..0x984].copy_from_slice(b"init");
    put(&mut memory, 0x910, 0x2000);
    put(&mut memory, 0x914, 0x2800);
    put(&mut memory, 0x918, 0);
    put(&mut memory, info + 44, 48);
    put(&mut memory, info + 48, 0xA00);
    for (at, base, len, kind) in
        [(0xA00, 0u32, 0x9_FC00u32, 1u32), (0xA18, 0x10_0000, 0x7F0_0000, 1)]
    {
        put(&mut memory, at, 20);
        put(&mut memory, at + 4, base);
        put(&mut memory, at + 12, len);
        put(&mut memory, at + 20, kind);
    }
    memory
}

#[test]
fn what_the_loader_says() {
    let memory = loaded();
    let info = parse(&memory, 0x100);
    assert_eq!(info.info_phys, 0x100);
    assert_eq!((info.mem_lower_kb, info.mem_upper_kb), (639, 130_048));
    assert_eq!(info.cmdline_phys, 0x800);
    assert_eq!(cstr_at(&memory, info.cmdline_phys), Some("console=ser".to_string()));
    assert_eq!(info.modules.len(), 2);
    assert_eq!(info.modules[0].len(), 0x1000);
    assert_eq!(cstr_at(&memory, info.modules[0].cmdline), Some("init".to_string()));
    assert_eq!(cstr_at(&memory, info.modules[1].cmdline), None);
    assert_eq!(info.regions.len(), 2);
    assert_eq!(info.regions[1].end(), 0x800_0000);
    assert!(info.regions[1].is_usable());
    // Everything the loader placed is below this.
    assert_eq!(info.reserved_end, 0x2800);
}

#[test]
fn a_command_line_that_is_no_text_is_none() {
    let mut memory = loaded();
    memory[0x800..0x804].copy_from_slice("h\u{e9}!".as_bytes());
    memory[0x804] = 0;
    assert_eq!(cstr_at(&memory, 0x800), Some("h\u{e9}!".to_string()));
    // The first byte of a character without its second.
    memory[0x802] = b'!';
    assert_eq!(cstr_at(&memory, 0x800), None);
    memory[0x800] = 0;
    assert_eq!(cstr_at(&memory, 0x800), Some(String::new()));
    // Nobody looks further than this for the end.
    let long = vec![b'a'; 3 * multiboot::MAX_CMDLINE];
    assert_eq!(cstr_at(&long, 1), Some("a".repeat(multiboot::MAX_CMDLINE)));
}

#[test]
fn without_a_map_the_basic_report_serves() {
    let mut memory = loaded();
    put(&mut memory, 0x100, 1);
    let info = parse(&memory, 0x100);
    assert!(info.modules.is_empty());
    assert_eq!(info.cmdline_phys, 0);
    assert_eq!(info.regions.len(), 2);
    assert_eq!((info.regions[0].addr, info.regions[0].len), (0, 639 * 1024));
    assert_eq!((info.regions[1].addr, info.regions[1].len), (0x10_0000, 130_048 * 1024));
    assert_eq!(info.reserved_end, 0x180);
}

#[test]
fn no_more_modules_are_kept_than_there_is_room_for() {
    let mut memory = loaded();
    put(&mut memory, 0x114, 200);
    assert_eq!(parse(&memory, 0x100).modules.len(), multiboot::MAX_MODULES);
}

// ---- a device tree ---------------------------------------------------------

fn word(blob: &[u8], at: usize) -> u32 {
    u32::from_be_bytes([blob[at], blob[at + 1], blob[at + 2], blob[at + 3]])
}

/// A tree of one property, written out byte by byte.
#[test]
fn a_tree_of_one_property() {
    let mut tree = Builder::new();
    tree.begin_node("");
    tree.prop_u32("#size-cells", 2);
    tree.end_node();
    let blob = tree.finish();
    let mut expected: Vec<u8> = Vec::new();
    let structure: [u32; 8] = [1, 0, 3, 4, 0, 2, 2, 9];
    let strings = b"#size-cells\0";
    let total = 56 + 32 + strings.len() as u32;
    for value in [0xD00D_FEEDu32, total, 56, 88, 40, 17, 16, 0, strings.len() as u32, 32] {
        expected.extend_from_slice(&value.to_be_bytes());
    }
    expected.extend_from_slice(&[0; 16]);
    for value in structure {
        expected.extend_from_slice(&value.to_be_bytes());
    }
    expected.extend_from_slice(strings);
    assert_eq!(blob, expected);
}

#[test]
fn a_name_is_kept_once_however_often_it_is_used() {
    let mut tree = Builder::new();
    let reg = tree.intern("reg");
    let status = tree.intern("status");
    assert_eq!((reg, status), (0, 4));
    assert_eq!(tree.intern("reg"), 0);
    assert_eq!(tree.intern("status"), 4);
    assert_eq!(tree.intern("stat"), 11);
}

#[test]
fn every_token_starts_on_a_boundary() {
    let mut tree = Builder::new();
    tree.begin_node("ethernet@7d580000");
    tree.prop_str("phy-mode", "rgmii-rxid");
    tree.prop("local-mac-address", &[0xdc, 0xa6, 0x32, 0x01, 0x02, 0x03]);
    tree.prop_cells("reg", &[0x0, 0x7d58_0000, 0x0, 0x0001_0000]);
    tree.end_node();
    let blob = tree.finish();
    assert_eq!(word(&blob, 0), device_tree::MAGIC);
    assert_eq!(word(&blob, 4) as usize, blob.len());
    assert_eq!(word(&blob, 36) % 4, 0);
    // The node's name takes eighteen bytes with its zero, so its first
    // property is twenty-four bytes on.
    let structure = word(&blob, 8) as usize;
    assert_eq!(word(&blob, structure), device_tree::BEGIN_NODE);
    assert_eq!(word(&blob, structure + 24), device_tree::PROP);
    assert_eq!(word(&blob, structure + 28), 11);
}

// ---- the card reader -------------------------------------------------------

#[test]
fn the_highest_voltage_both_sides_can_do() {
    assert_eq!(select_voltage(0x00FF_8000, 0x0030_0000), 0x0030_0000);
    assert_eq!(select_voltage(0x00FF_8000, 0x0010_0000), 0x0010_0000);
    assert_eq!(select_voltage(0x80FF_8080, 0x00FF_8080), 0x00C0_0000);
    assert_eq!(select_voltage(0x0000_007F, 0x00FF_FFFF), 0);
    assert_eq!(select_voltage(0x00FF_8000, 0), 0);
}

#[test]
fn waits_and_deadlines() {
    assert_eq!(now_us(54_000_000, 54_000_000), 1_000_000);
    assert_eq!(now_us(27, 54_000_000), 0);
    assert_eq!(sleep_ticks(1, 100), 1);
    assert_eq!(sleep_ticks(0, 100), 1);
    assert_eq!(sleep_ticks(11, 100), 2);
    assert!(!spin_is_over(100, 109, 10));
    assert!(spin_is_over(100, 110, 10));
    let deadline = Deadline::after_ms(1_000, 2);
    assert!(!deadline.expired(2_999));
    assert!(deadline.expired(3_000));
    assert!(Deadline::after_us(0, 5).expired(5));
}
