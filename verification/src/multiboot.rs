//! Multiboot1 boot information, decoded into owned structs.
//!
//! The loader-supplied blob is packed, so every field is read byte by byte at
//! an explicit offset rather than overlaid with a struct. Physical memory is a
//! slice that begins at address zero; what lies past its end reads as zero.

use vstd::prelude::*;

verus! {

pub const MULTIBOOT_BOOTLOADER_MAGIC: u32 = 0x2BADB002;

pub const MEMORY_AVAILABLE: u32 = 1;

pub const MAX_REGIONS: usize = 32;

pub const MAX_MODULES: usize = 8;

/// The longest command line that is looked for the end of.
pub const MAX_CMDLINE: usize = 4096;

/// Bytes the blob itself may take.
pub const INFO_BYTES: u64 = 128;

#[derive(Debug, Clone, Copy, PartialEq, Eq, Structural)]
pub struct MemRegion {
    pub addr: u64,
    pub len: u64,
    pub typ: u32,
}

impl MemRegion {
    pub fn end(&self) -> (end: u64)
        requires
            self.addr + self.len <= u64::MAX,
        ensures
            end == self.addr + self.len,
    {
        self.addr + self.len
    }

    pub fn is_usable(&self) -> (r: bool)
        ensures
            r == (self.typ == MEMORY_AVAILABLE),
    {
        self.typ == MEMORY_AVAILABLE
    }
}

#[derive(Debug, Clone, Copy, PartialEq, Eq, Structural)]
pub struct Module {
    pub start: u64,
    pub end: u64,
    pub cmdline: u64,
}

impl Module {
    pub fn len(&self) -> (len: usize)
        requires
            self.start <= self.end,
            self.end - self.start <= usize::MAX,
        ensures
            len == self.end - self.start,
    {
        (self.end - self.start) as usize
    }
}

pub struct BootInfo {
    /// Physical address of the multiboot info blob itself.
    pub info_phys: u64,
    pub flags: u32,
    pub mem_lower_kb: u32,
    pub mem_upper_kb: u32,
    /// At most `MAX_REGIONS` of the memory map's entries.
    pub regions: Vec<MemRegion>,
    /// At most `MAX_MODULES` of the modules.
    pub modules: Vec<Module>,
    pub cmdline_phys: u64,
    /// Physical end of everything the loader placed in memory (info blob,
    /// module contents, command lines). The frame allocator must not hand any
    /// of this out before it has been consumed.
    pub reserved_end: u64,
}

// ---- reading memory -----------------------------------------------------------------

/// The byte at an address.
pub open spec fn byte_at(memory: Seq<u8>, addr: int) -> u8 {
    if 0 <= addr < memory.len() {
        memory[addr]
    } else {
        0
    }
}

/// The four bytes at an address, the lowest first.
pub open spec fn word_at(memory: Seq<u8>, addr: int) -> int {
    byte_at(memory, addr) + byte_at(memory, addr + 1) * 0x100 + byte_at(memory, addr + 2) * 0x1_0000
        + byte_at(memory, addr + 3) * 0x100_0000
}

/// The eight bytes at an address, the lowest first.
pub open spec fn double_at(memory: Seq<u8>, addr: int) -> int {
    word_at(memory, addr) + word_at(memory, addr + 4) * 0x1_0000_0000
}

fn rd8(memory: &[u8], addr: u64) -> (value: u8)
    ensures
        value == byte_at(memory@, addr as int),
{
    if addr < memory.len() as u64 {
        memory[addr as usize]
    } else {
        0
    }
}

fn rd32(memory: &[u8], addr: u64) -> (value: u32)
    requires
        addr + 4 <= u64::MAX,
    ensures
        value == word_at(memory@, addr as int),
{
    rd8(memory, addr) as u32 + rd8(memory, addr + 1) as u32 * 0x100 + rd8(memory, addr + 2) as u32
        * 0x1_0000 + rd8(memory, addr + 3) as u32 * 0x100_0000
}

fn rd64(memory: &[u8], addr: u64) -> (value: u64)
    requires
        addr + 8 <= u64::MAX,
    ensures
        value == double_at(memory@, addr as int),
{
    rd32(memory, addr) as u64 + rd32(memory, addr + 4) as u64 * 0x1_0000_0000
}

/// How far a string goes from `so_far` bytes into it: to the byte that ends
/// it, or to where nobody looks any further.
pub open spec fn string_length(memory: Seq<u8>, addr: int, so_far: int) -> int
    decreases MAX_CMDLINE - so_far,
{
    if so_far >= MAX_CMDLINE || byte_at(memory, addr + so_far) == 0 {
        so_far
    } else {
        string_length(memory, addr, so_far + 1)
    }
}

/// The length of the string at `addr`, which is at most `MAX_CMDLINE`.
pub fn cstr_len(memory: &[u8], addr: u64) -> (len: usize)
    requires
        addr + MAX_CMDLINE <= u64::MAX,
    ensures
        len == string_length(memory@, addr as int, 0),
        len <= MAX_CMDLINE,
{
    let mut len: usize = 0;
    while len < MAX_CMDLINE && rd8(memory, addr + len as u64) != 0
        invariant
            len <= MAX_CMDLINE,
            addr + MAX_CMDLINE <= u64::MAX,
            string_length(memory@, addr as int, len as int) == string_length(
                memory@,
                addr as int,
                0,
            ),
        decreases MAX_CMDLINE - len,
    {
        len += 1;
    }
    len
}

/// The bytes of the string at `addr`.
pub open spec fn string_at(memory: Seq<u8>, addr: int) -> Seq<u8> {
    Seq::new(string_length(memory, addr, 0) as nat, |i: int| byte_at(memory, addr + i))
}

/// `String::from_utf8`: it returns the text that the bytes encode where they
/// are UTF-8, and an error otherwise.
#[verifier::external_body]
fn from_utf8(bytes: Vec<u8>) -> (text: Option<String>)
    ensures
        match text {
            None => !vstd::utf8::valid_utf8(bytes@),
            Some(s) => vstd::utf8::valid_utf8(bytes@) && s@ == vstd::utf8::decode_utf8(bytes@),
        },
{
    String::from_utf8(bytes).ok()
}

/// The string at `addr`, or `None` where there is no address or the bytes are
/// no text.
pub fn cstr_at(memory: &[u8], addr: u64) -> (text: Option<String>)
    requires
        addr + MAX_CMDLINE <= u64::MAX,
    ensures
        match text {
            None => addr == 0 || !vstd::utf8::valid_utf8(string_at(memory@, addr as int)),
            Some(s) => {
                &&& addr != 0
                &&& vstd::utf8::valid_utf8(string_at(memory@, addr as int))
                &&& s@ == vstd::utf8::decode_utf8(string_at(memory@, addr as int))
            },
        },
{
    if addr == 0 {
        return None;
    }
    let len = cstr_len(memory, addr);
    let mut bytes: Vec<u8> = Vec::new();
    while bytes.len() < len
        invariant
            bytes@.len() <= len,
            len <= MAX_CMDLINE,
            addr + MAX_CMDLINE <= u64::MAX,
            forall|i: int|
                0 <= i < bytes@.len() ==> #[trigger] bytes@[i] == byte_at(memory@, addr + i),
        decreases len - bytes@.len(),
    {
        let next = rd8(memory, addr + bytes.len() as u64);
        bytes.push(next);
    }
    assert(bytes@ =~= string_at(memory@, addr as int));
    from_utf8(bytes)
}

// ---- what the blob says ---------------------------------------------------------------

pub open spec fn higher(a: int, b: int) -> int {
    if a < b {
        b
    } else {
        a
    }
}

/// Past a command line and the byte that ends it, where there is one.
pub open spec fn past_cmdline(memory: Seq<u8>, addr: int, reserved: int) -> int {
    if addr == 0 {
        reserved
    } else {
        higher(reserved, addr + string_length(memory, addr, 0) + 1)
    }
}

pub open spec fn module_at(memory: Seq<u8>, addr: int) -> Module {
    Module {
        start: word_at(memory, addr) as u64,
        end: word_at(memory, addr + 4) as u64,
        cmdline: word_at(memory, addr + 8) as u64,
    }
}

/// Past the contents and the command lines of the first `count` modules.
pub open spec fn past_modules(memory: Seq<u8>, addr: int, count: nat, reserved: int) -> int
    decreases count,
{
    if count == 0 {
        reserved
    } else {
        let module = module_at(memory, addr + (count - 1) * 16);
        past_cmdline(
            memory,
            module.cmdline as int,
            higher(
                past_modules(memory, addr, (count - 1) as nat, reserved),
                module.end as int,
            ),
        )
    }
}

pub open spec fn region_at(memory: Seq<u8>, addr: int) -> MemRegion {
    MemRegion {
        addr: double_at(memory, addr + 4) as u64,
        len: double_at(memory, addr + 12) as u64,
        typ: word_at(memory, addr + 20) as u32,
    }
}

/// The memory map's entries from `at` on. Each begins with its size, which
/// does not count itself; one too small to hold an entry ends the map.
pub open spec fn map_from(memory: Seq<u8>, at: int, end: int, room: nat) -> Seq<MemRegion>
    decreases room,
{
    let size = word_at(memory, at);
    if room == 0 || at + 4 > end || size < 20 {
        Seq::empty()
    } else {
        seq![region_at(memory, at)] + map_from(memory, at + size + 4, end, (room - 1) as nat)
    }
}

/// What one bit of the flags says is there.
pub open spec fn says(flags: int, bit: int) -> bool {
    flags / bit % 2 == 1
}

/// The regions a blob describes: the memory map, or where it gives none, what
/// the basic report of low and high memory says.
pub open spec fn regions_of(memory: Seq<u8>, phys: int) -> Seq<MemRegion> {
    let flags = word_at(memory, phys);
    let addr = word_at(memory, phys + 48);
    let mapped = if says(flags, 64) {
        map_from(memory, addr, addr + word_at(memory, phys + 44), MAX_REGIONS as nat)
    } else {
        Seq::empty()
    };
    if mapped.len() == 0 && says(flags, 1) {
        seq![
            MemRegion {
                addr: 0,
                len: (word_at(memory, phys + 4) * 1024) as u64,
                typ: MEMORY_AVAILABLE,
            },
            MemRegion {
                addr: 0x10_0000,
                len: (word_at(memory, phys + 8) * 1024) as u64,
                typ: MEMORY_AVAILABLE,
            },
        ]
    } else {
        mapped
    }
}

/// How many modules a blob describes, as far as they are kept.
pub open spec fn modules_in(memory: Seq<u8>, phys: int) -> nat {
    let count = word_at(memory, phys + 20);
    if !says(word_at(memory, phys), 8) {
        0
    } else if count < MAX_MODULES {
        count as nat
    } else {
        MAX_MODULES as nat
    }
}

/// Where everything the loader placed in memory ends.
pub open spec fn reserved_by(memory: Seq<u8>, phys: int) -> int {
    let flags = word_at(memory, phys);
    let blob = phys + INFO_BYTES;
    let line = if says(flags, 4) {
        past_cmdline(memory, word_at(memory, phys + 16), blob)
    } else {
        blob
    };
    let modules = word_at(memory, phys + 24);
    let placed = if says(flags, 8) {
        past_modules(
            memory,
            modules,
            modules_in(memory, phys),
            higher(line, modules + word_at(memory, phys + 20) * 16),
        )
    } else {
        line
    };
    if says(flags, 64) {
        higher(placed, word_at(memory, phys + 48) + word_at(memory, phys + 44))
    } else {
        placed
    }
}

impl BootInfo {
    /// Whether this is what the blob at `phys` says.
    pub open spec fn describes(&self, memory: Seq<u8>, phys: u64) -> bool {
        let flags = word_at(memory, phys as int);
        &&& self.info_phys == phys
        &&& self.flags == flags
        &&& self.mem_lower_kb == (if says(flags, 1) {
            word_at(memory, phys + 4)
        } else {
            0
        })
        &&& self.mem_upper_kb == (if says(flags, 1) {
            word_at(memory, phys + 8)
        } else {
            0
        })
        &&& self.regions@ == regions_of(memory, phys as int)
        &&& self.modules@ == Seq::new(
            modules_in(memory, phys as int),
            |i: int| module_at(memory, word_at(memory, phys + 24) + i * 16),
        )
        &&& self.cmdline_phys == (if says(flags, 4) {
            word_at(memory, phys + 16)
        } else {
            0
        })
        &&& self.reserved_end == reserved_by(memory, phys as int)
    }
}

fn later(a: u64, b: u64) -> (c: u64)
    ensures
        c == higher(a as int, b as int),
{
    if a < b {
        b
    } else {
        a
    }
}

/// Past a command line, where there is one.
fn skip_cmdline(memory: &[u8], addr: u64, reserved: u64) -> (past: u64)
    requires
        addr <= u32::MAX,
    ensures
        past == past_cmdline(memory@, addr as int, reserved as int),
{
    if addr == 0 {
        reserved
    } else {
        later(reserved, addr + cstr_len(memory, addr) as u64 + 1)
    }
}

/// The modules a blob describes, and past what they take.
fn read_modules(memory: &[u8], addr: u64, count: usize, reserved: u64) -> (r: (Vec<Module>, u64))
    requires
        addr <= u32::MAX,
        count <= MAX_MODULES,
    ensures
        r.0@ == Seq::new(count as nat, |i: int| module_at(memory@, addr + i * 16)),
        r.1 == past_modules(memory@, addr as int, count as nat, reserved as int),
{
    let mut modules: Vec<Module> = Vec::new();
    let mut past: u64 = reserved;
    while modules.len() < count
        invariant
            addr <= u32::MAX,
            count <= MAX_MODULES,
            modules@.len() <= count,
            forall|i: int|
                0 <= i < modules@.len() ==> #[trigger] modules@[i] == module_at(
                    memory@,
                    addr + i * 16,
                ),
            past == past_modules(memory@, addr as int, modules@.len(), reserved as int),
        decreases count - modules@.len(),
    {
        let base: u64 = addr + modules.len() as u64 * 16;
        let module = Module {
            start: rd32(memory, base) as u64,
            end: rd32(memory, base + 4) as u64,
            cmdline: rd32(memory, base + 8) as u64,
        };
        past = skip_cmdline(memory, module.cmdline, later(past, module.end));
        modules.push(module);
        assert((modules@.len() - 1) as nat == modules@.len() - 1);
    }
    assert(modules@ =~= Seq::new(count as nat, |i: int| module_at(memory@, addr + i * 16)));
    (modules, past)
}

/// The entries of a memory map.
fn read_map(memory: &[u8], addr: u64, len: u64) -> (regions: Vec<MemRegion>)
    requires
        addr <= u32::MAX,
        len <= u32::MAX,
    ensures
        regions@ == map_from(memory@, addr as int, addr + len, MAX_REGIONS as nat),
{
    let mut regions: Vec<MemRegion> = Vec::new();
    let mut at: u64 = addr;
    let end: u64 = addr + len;
    let ghost all = map_from(memory@, addr as int, end as int, MAX_REGIONS as nat);
    assert(regions@ + all =~= all);
    while at + 4 <= end && regions.len() < MAX_REGIONS
        invariant_except_break
            regions@ + map_from(
                memory@,
                at as int,
                end as int,
                (MAX_REGIONS - regions@.len()) as nat,
            ) == all,
        invariant
            end <= 0x1_FFFF_FFFF,
            at <= 0x3_FFFF_FFFF,
            regions@.len() <= MAX_REGIONS,
        ensures
            regions@ == all,
        decreases MAX_REGIONS - regions@.len(),
    {
        let size: u64 = rd32(memory, at) as u64;
        if size < 20 {
            assert(regions@ + Seq::<MemRegion>::empty() =~= regions@);
            break;
        }
        let ghost so_far = regions@;
        let region = MemRegion {
            addr: rd64(memory, at + 4),
            len: rd64(memory, at + 12),
            typ: rd32(memory, at + 20),
        };
        regions.push(region);
        proof {
            let rest = map_from(
                memory@,
                at + size + 4,
                end as int,
                (MAX_REGIONS - regions@.len()) as nat,
            );
            assert(so_far + (seq![region] + rest) =~= regions@ + rest);
        }
        at = at + size + 4;
        assert(at + 4 > end || regions@.len() == MAX_REGIONS ==> regions@ + Seq::<
            MemRegion,
        >::empty() =~= regions@);
    }
    regions
}

/// Decode the blob the loader left at `phys`.
pub fn parse(memory: &[u8], phys: u64) -> (info: BootInfo)
    requires
        phys + INFO_BYTES <= u64::MAX,
    ensures
        info.describes(memory@, phys),
{
    let flags: u32 = rd32(memory, phys);
    let mut reserved: u64 = phys + INFO_BYTES;
    let mut mem_lower_kb: u32 = 0;
    let mut mem_upper_kb: u32 = 0;
    if flags % 2 == 1 {
        mem_lower_kb = rd32(memory, phys + 4);
        mem_upper_kb = rd32(memory, phys + 8);
    }
    let mut cmdline_phys: u64 = 0;
    if flags / 4 % 2 == 1 {
        cmdline_phys = rd32(memory, phys + 16) as u64;
        reserved = skip_cmdline(memory, cmdline_phys, reserved);
    }
    // Modules: their count at +20, and where they are described at +24.
    let mut modules: Vec<Module> = Vec::new();
    if flags / 8 % 2 == 1 {
        let count: u32 = rd32(memory, phys + 20);
        let addr: u64 = rd32(memory, phys + 24) as u64;
        let kept: usize = if count < MAX_MODULES as u32 {
            count as usize
        } else {
            MAX_MODULES
        };
        let read = read_modules(memory, addr, kept, later(reserved, addr + count as u64 * 16));
        modules = read.0;
        reserved = read.1;
    }
    // Memory map: its length at +44, and where it is at +48.
    let mut regions: Vec<MemRegion> = Vec::new();
    if flags / 64 % 2 == 1 {
        let len: u64 = rd32(memory, phys + 44) as u64;
        let addr: u64 = rd32(memory, phys + 48) as u64;
        reserved = later(reserved, addr + len);
        regions = read_map(memory, addr, len);
    }
    // Fall back to the basic report if no map came in.
    if regions.len() == 0 && flags % 2 == 1 {
        regions.push(
            MemRegion { addr: 0, len: mem_lower_kb as u64 * 1024, typ: MEMORY_AVAILABLE },
        );
        regions.push(
            MemRegion { addr: 0x10_0000, len: mem_upper_kb as u64 * 1024, typ: MEMORY_AVAILABLE },
        );
    }
    assert(regions@ =~= regions_of(memory@, phys as int));
    let info = BootInfo {
        info_phys: phys,
        flags,
        mem_lower_kb,
        mem_upper_kb,
        regions,
        modules,
        cmdline_phys,
        reserved_end: reserved,
    };
    assert(info.modules@ =~= Seq::new(
        modules_in(memory@, phys as int),
        |i: int| module_at(memory@, word_at(memory@, phys + 24) + i * 16),
    ));
    info
}

/// Everything a blob placed in memory lies below where it says that ends: the
/// blob, the command line with the byte that ends it, each kept module's
/// contents and command line, and the memory map.
pub proof fn nothing_is_placed_past_the_end(memory: Seq<u8>, phys: int)
    ensures
        ({
            let flags = word_at(memory, phys);
            let end = reserved_by(memory, phys);
            let line = word_at(memory, phys + 16);
            &&& phys + INFO_BYTES <= end
            &&& says(flags, 4) && line != 0 ==> line + string_length(memory, line, 0) < end
            &&& says(flags, 64) ==> word_at(memory, phys + 48) + word_at(memory, phys + 44) <= end
            &&& forall|i: int|
                0 <= i < modules_in(memory, phys) ==> {
                    let module = #[trigger] module_at(
                        memory,
                        word_at(memory, phys + 24) + i * 16,
                    );
                    &&& module.end <= end
                    &&& module.cmdline != 0 ==> module.cmdline + string_length(
                        memory,
                        module.cmdline as int,
                        0,
                    ) < end
                }
        }),
{
    let addr = word_at(memory, phys + 24);
    let flags = word_at(memory, phys);
    let count = modules_in(memory, phys);
    if says(flags, 8) {
        let blob = phys + INFO_BYTES;
        let line = if says(flags, 4) {
            past_cmdline(memory, word_at(memory, phys + 16), blob)
        } else {
            blob
        };
        modules_lie_below(
            memory,
            addr,
            count,
            higher(line, addr + word_at(memory, phys + 20) * 16),
        );
    }
}

proof fn modules_lie_below(memory: Seq<u8>, addr: int, count: nat, reserved: int)
    ensures
        ({
            let end = past_modules(memory, addr, count, reserved);
            &&& reserved <= end
            &&& forall|i: int|
                0 <= i < count ==> {
                    let module = #[trigger] module_at(memory, addr + i * 16);
                    &&& module.end <= end
                    &&& module.cmdline != 0 ==> module.cmdline + string_length(
                        memory,
                        module.cmdline as int,
                        0,
                    ) < end
                }
        }),
    decreases count,
{
    if count > 0 {
        modules_lie_below(memory, addr, (count - 1) as nat, reserved);
    }
}

} // verus!
