# kernel

The memory manager, the network stack, the network card logic and the boot
parsers of a small kernel, as verified Rust.

The library does not touch hardware. Registers, clocks, random numbers and
memory are arguments; frames to send, registers to write and translations to
flush are results. That makes every operation a function with a contract, and
the contracts are stated over the views the types carry.

- `mm`: page tables and the walk over them, the frame allocator, the kernel
  heap, the record of a program's regions, faults, copy on write and forking.
  `mm::walk::Machine` is what a machine supplies underneath; `mm::ram::Ram` is
  one made of ordinary memory.
  `mm::own_page` says which frames new pages take and what they leave alone,
  `mm::holding` counts the references a space holds, and the files named
  `fork_*.rs` say what a fork does to them, what it leaves alone, which
  translations it has thrown away, and why only a want of frames stops it.
- `net`: Ethernet, ARP, IPv4, ICMP, UDP, TCP, sockets and a DHCP client, with
  `net::stack::Net` holding all of their state; and the decisions of two
  network card drivers, `net::e1000` and `net::genet`.
- `multiboot`, `device_tree`, `mmc`: what a boot loader leaves behind, a
  flattened device tree written node by node, and what a card reader waits for.

Files named `*_laws.rs` hold properties that span several operations.

One function of the standard library is taken at its word: `String::from_utf8`,
which `multiboot` reads command lines with.

`app/` is the ordinary Rust around it: device registers, descriptor rings,
the network task and what is printed.
