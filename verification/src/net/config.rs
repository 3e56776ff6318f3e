//! The addresses this machine uses on its link, which change together.

use crate::net::ip::Ipv4Addr;
use crate::text::{self, push_address_text, push_decimal, push_text};
use vstd::prelude::*;
use vstd::string::StringSliceAdditionalSpecFns;

verus! {

/// As many name servers as a resolver reads: musl and Go both stop at three.
pub const MAX_NAMESERVERS: usize = 3;

/// The addresses this machine uses on its link.
///
/// The protocols read this rather than naming any address themselves. It is
/// only ever replaced whole: a reader takes one copy and makes every decision
/// about a packet from that copy, so nothing pairs a new address with an old
/// netmask.
///
/// `new` is the only way to make one, so a value of this type is an address a
/// host can hold, with a netmask that is a netmask and a gateway on the same
/// subnet. A machine with no address holds no `Config` at all; there is no
/// 0.0.0.0 standing in for an address, for a reader to take as one.
#[derive(Clone, Copy, PartialEq, Eq, Debug, Structural)]
pub struct Config {
    address: Ipv4Addr,
    netmask: Ipv4Addr,
    gateway: Option<Ipv4Addr>,
    /// Where a name would be looked up. Nothing in the kernel resolves names;
    /// these are here so programs can be told. The slots past
    /// `nameserver_count` are always zero, so two configurations naming the
    /// same servers compare equal.
    nameserver_0: Ipv4Addr,
    nameserver_1: Ipv4Addr,
    nameserver_2: Ipv4Addr,
    nameserver_count: usize,
}

/// An address a host can have as its own. 0/8 means "this network" and 127/8
/// means "this machine" (RFC 1122 section 3.2.1.3), 224/4 is multicast, and
/// 240/4 is reserved and includes the all-ones broadcast.
pub open spec fn host_address(address: Ipv4Addr) -> bool {
    &&& 0x0100_0000 <= address.0 < 0xE000_0000
    &&& !address.loopback()
}

fn is_host_address(address: Ipv4Addr) -> (r: bool)
    ensures
        r == host_address(address),
{
    let first: u32 = address.0 / 0x100_0000;
    first != 0 && first != 127 && first < 224
}

pub open spec fn power_of_two(n: int) -> bool
    decreases n,
{
    n == 1 || (n > 1 && n % 2 == 0 && power_of_two(n / 2))
}

/// How often a power of two can be halved.
pub open spec fn halvings(n: int) -> int
    decreases n,
{
    if n <= 1 {
        0
    } else {
        1 + halvings(n / 2)
    }
}

/// How many addresses share the part of an address a netmask covers.
pub open spec fn subnet_size(netmask: Ipv4Addr) -> int {
    0x1_0000_0000 - netmask.0
}

/// A netmask is ones and then zeroes, which makes the number of addresses in
/// its subnet a power of two. All zeroes is not one: it would put every
/// address in the world on the link.
pub open spec fn is_netmask(netmask: Ipv4Addr) -> bool {
    netmask.0 != 0 && power_of_two(subnet_size(netmask))
}

/// Whether two addresses are on one subnet.
pub open spec fn same_subnet(a: Ipv4Addr, b: Ipv4Addr, netmask: Ipv4Addr) -> bool {
    a.0 as int / subnet_size(netmask) == b.0 as int / subnet_size(netmask)
}

/// An address that names the subnet itself, or every host on it. A subnet of
/// one or two addresses has neither (RFC 3021).
pub open spec fn names_subnet(address: Ipv4Addr, netmask: Ipv4Addr) -> bool {
    let size = subnet_size(netmask);
    size > 2 && (address.0 as int % size == 0 || address.0 as int % size == size - 1)
}

/// A gateway has to be another host on the subnet.
pub open spec fn good_gateway(address: Ipv4Addr, netmask: Ipv4Addr, gateway: Ipv4Addr) -> bool {
    gateway != address && host_address(gateway) && same_subnet(gateway, address, netmask)
}

/// An address a name server could answer on. 127.0.0.1 is one a program can
/// be told about, so only the addresses nothing answers on are left out.
pub open spec fn can_answer(server: Ipv4Addr) -> bool {
    !server.unspecified() && !server.limited_broadcast() && !server.multicast()
}

/// The first three name servers of a list that could answer.
pub open spec fn kept_servers(servers: Seq<Ipv4Addr>) -> Seq<Ipv4Addr>
    decreases servers.len(),
{
    if servers.len() == 0 {
        Seq::empty()
    } else {
        let kept = kept_servers(servers.drop_last());
        if kept.len() < MAX_NAMESERVERS && can_answer(servers.last()) {
            kept.push(servers.last())
        } else {
            kept
        }
    }
}

/// No more name servers are kept than a configuration has room for.
pub proof fn kept_servers_fit(servers: Seq<Ipv4Addr>)
    ensures
        kept_servers(servers).len() <= MAX_NAMESERVERS,
    decreases servers.len(),
{
    if servers.len() > 0 {
        kept_servers_fit(servers.drop_last());
    }
}

fn is_power_of_two(n: u64) -> (r: bool)
    requires
        n > 0,
    ensures
        r == power_of_two(n as int),
{
    let mut left: u64 = n;
    while left % 2 == 0
        invariant
            left > 0,
            power_of_two(left as int) == power_of_two(n as int),
        decreases left,
    {
        left = left / 2;
    }
    left == 1
}

impl Config {
    pub closed spec fn spec_address(&self) -> Ipv4Addr {
        self.address
    }

    pub closed spec fn spec_netmask(&self) -> Ipv4Addr {
        self.netmask
    }

    pub closed spec fn spec_gateway(&self) -> Option<Ipv4Addr> {
        self.gateway
    }

    /// The name servers this configuration holds.
    pub closed spec fn spec_nameservers(&self) -> Seq<Ipv4Addr> {
        seq![self.nameserver_0, self.nameserver_1, self.nameserver_2].take(
            self.nameserver_count as int,
        )
    }

    pub closed spec fn slots_in_order(&self) -> bool {
        &&& self.nameserver_count <= MAX_NAMESERVERS
        &&& self.nameserver_count < 3 ==> self.nameserver_2 == Ipv4Addr(0)
        &&& self.nameserver_count < 2 ==> self.nameserver_1 == Ipv4Addr(0)
        &&& self.nameserver_count < 1 ==> self.nameserver_0 == Ipv4Addr(0)
    }

    /// What every configuration is: an address a host can hold that names
    /// neither its subnet nor everybody on it, a netmask that is one, a
    /// gateway that is another host on the subnet if there is one, and at most
    /// three name servers.
    pub open spec fn sound(&self) -> bool {
        &&& host_address(self.spec_address())
        &&& is_netmask(self.spec_netmask())
        &&& !names_subnet(self.spec_address(), self.spec_netmask())
        &&& self.spec_gateway() matches Some(gateway) ==> good_gateway(
            self.spec_address(),
            self.spec_netmask(),
            gateway,
        )
        &&& self.slots_in_order()
        &&& self.spec_nameservers().len() <= MAX_NAMESERVERS
    }

    /// The configuration with these addresses and these name servers, of which
    /// there are at most three.
    pub closed spec fn of(
        address: Ipv4Addr,
        netmask: Ipv4Addr,
        gateway: Option<Ipv4Addr>,
        servers: Seq<Ipv4Addr>,
    ) -> Config {
        Config {
            address,
            netmask,
            gateway,
            nameserver_0: if servers.len() > 0 {
                servers[0]
            } else {
                Ipv4Addr(0)
            },
            nameserver_1: if servers.len() > 1 {
                servers[1]
            } else {
                Ipv4Addr(0)
            },
            nameserver_2: if servers.len() > 2 {
                servers[2]
            } else {
                Ipv4Addr(0)
            },
            nameserver_count: servers.len() as usize,
        }
    }

    /// A configuration is the addresses it was made of.
    pub proof fn of_is_made_of(
        address: Ipv4Addr,
        netmask: Ipv4Addr,
        gateway: Option<Ipv4Addr>,
        servers: Seq<Ipv4Addr>,
    )
        requires
            servers.len() <= MAX_NAMESERVERS,
        ensures
            ({
                let config = Config::of(address, netmask, gateway, servers);
                &&& config.spec_address() == address
                &&& config.spec_netmask() == netmask
                &&& config.spec_gateway() == gateway
                &&& config.spec_nameservers() == servers
                &&& configurable(address, netmask, gateway) ==> config.sound()
            }),
    {
        assert(Config::of(address, netmask, gateway, servers).spec_nameservers() =~= servers);
    }

    /// Two configurations with the same addresses are the same configuration.
    pub proof fn same_addresses_are_the_same(a: Config, b: Config)
        requires
            a.sound(),
            b.sound(),
            a.spec_address() == b.spec_address(),
            a.spec_netmask() == b.spec_netmask(),
            a.spec_gateway() == b.spec_gateway(),
            a.spec_nameservers() == b.spec_nameservers(),
        ensures
            a == b,
    {
        assert(a.spec_nameservers().len() == a.nameserver_count);
        assert(b.spec_nameservers().len() == b.nameserver_count);
        assert(a.nameserver_count > 0 ==> a.spec_nameservers()[0] == a.nameserver_0);
        assert(b.nameserver_count > 0 ==> b.spec_nameservers()[0] == b.nameserver_0);
        assert(a.nameserver_count > 1 ==> a.spec_nameservers()[1] == a.nameserver_1);
        assert(b.nameserver_count > 1 ==> b.spec_nameservers()[1] == b.nameserver_1);
        assert(a.nameserver_count > 2 ==> a.spec_nameservers()[2] == a.nameserver_2);
        assert(b.nameserver_count > 2 ==> b.spec_nameservers()[2] == b.nameserver_2);
    }

    /// A configuration, or the reason these addresses cannot be one.
    ///
    /// Name servers past the third are left out, and so is any entry nothing
    /// could answer on -- zero, a broadcast, a multicast address -- rather
    /// than refusing an otherwise usable lease over one bad entry.
    pub fn new(
        address: Ipv4Addr,
        netmask: Ipv4Addr,
        gateway: Option<Ipv4Addr>,
        nameservers: &[Ipv4Addr],
    ) -> (result: Result<Config, &'static str>)
        ensures
            result is Ok <==> configurable(address, netmask, gateway),
            result matches Ok(config) ==> {
                &&& config == Config::of(address, netmask, gateway, kept_servers(nameservers@))
                &&& config.sound()
                &&& config.spec_address() == address
                &&& config.spec_netmask() == netmask
                &&& config.spec_gateway() == gateway
                &&& config.spec_nameservers() == kept_servers(nameservers@)
            },
            result matches Err(reason) ==> reason@ == (if !host_address(address) {
                "the address is not one a host can hold"@
            } else if !is_netmask(netmask) {
                "the netmask is not a run of ones followed by zeroes"@
            } else if names_subnet(address, netmask) {
                "the address is its subnet's network or broadcast address"@
            } else {
                "the gateway is not another host on the address's subnet"@
            }),
    {
        if !is_host_address(address) {
            return Err("the address is not one a host can hold");
        }
        let size: u64 = 0x1_0000_0000u64 - netmask.0 as u64;
        if netmask.0 == 0 || !is_power_of_two(size) {
            return Err("the netmask is not a run of ones followed by zeroes");
        }
        // A /31 or a /32 has no network or broadcast address; on anything
        // wider, those two are not addresses a host can hold.
        let host: u64 = address.0 as u64 % size;
        if size > 2 && (host == 0 || host == size - 1) {
            return Err("the address is its subnet's network or broadcast address");
        }
        let mut config = Config {
            address,
            netmask,
            gateway: None,
            nameserver_0: Ipv4Addr(0),
            nameserver_1: Ipv4Addr(0),
            nameserver_2: Ipv4Addr(0),
            nameserver_count: 0,
        };
        assert(config.sound());
        if let Some(router) = gateway {
            if router == address || !is_host_address(router) || !config.on_link(router) {
                return Err("the gateway is not another host on the address's subnet");
            }
            config.gateway = Some(router);
        }
        let ghost bare = config;
        let mut i: usize = 0;
        assert(nameservers@.take(0) =~= Seq::empty());
        assert(config.spec_nameservers() =~= kept_servers(nameservers@.take(0)));
        while i < nameservers.len()
            invariant
                i <= nameservers@.len(),
                config.address == bare.address,
                config.netmask == bare.netmask,
                config.gateway == bare.gateway,
                config.slots_in_order(),
                config.spec_nameservers() == kept_servers(nameservers@.take(i as int)),
            decreases nameservers@.len() - i,
        {
            let server = nameservers[i];
            assert(nameservers@.take(i + 1).drop_last() =~= nameservers@.take(i as int));
            let ghost before = config.spec_nameservers();
            assert(before.len() == config.nameserver_count);
            if config.nameserver_count < MAX_NAMESERVERS && !server.is_unspecified()
                && !server.is_broadcast() && !server.is_multicast() {
                if config.nameserver_count == 0 {
                    config.nameserver_0 = server;
                } else if config.nameserver_count == 1 {
                    config.nameserver_1 = server;
                } else {
                    config.nameserver_2 = server;
                }
                config.nameserver_count = config.nameserver_count + 1;
                assert(config.spec_nameservers() =~= before.push(server));
            }
            i += 1;
        }
        assert(nameservers@.take(i as int) =~= nameservers@);
        assert(config.spec_nameservers().len() == config.nameserver_count);
        proof {
            let servers = config.spec_nameservers();
            Config::of_is_made_of(address, netmask, gateway, servers);
            Config::same_addresses_are_the_same(
                config,
                Config::of(address, netmask, gateway, servers),
            );
        }
        Ok(config)
    }

    /// The netmask an address implies when nothing names one: the one its
    /// class had before addresses were classless, which is what Linux assumes
    /// for an `ip=` given without a netmask.
    pub fn class_netmask(address: Ipv4Addr) -> (netmask: Ipv4Addr)
        ensures
            netmask == class_mask(address),
    {
        let first: u32 = address.0 / 0x100_0000;
        if first <= 127 {
            Ipv4Addr::new(255, 0, 0, 0)
        } else if first <= 191 {
            Ipv4Addr::new(255, 255, 0, 0)
        } else {
            Ipv4Addr::new(255, 255, 255, 0)
        }
    }

    pub fn address(&self) -> (address: Ipv4Addr)
        ensures
            address == self.spec_address(),
    {
        self.address
    }

    pub fn netmask(&self) -> (netmask: Ipv4Addr)
        ensures
            netmask == self.spec_netmask(),
    {
        self.netmask
    }

    pub fn gateway(&self) -> (gateway: Option<Ipv4Addr>)
        ensures
            gateway == self.spec_gateway(),
    {
        self.gateway
    }

    pub fn nameservers(&self) -> (servers: Vec<Ipv4Addr>)
        requires
            self.sound(),
        ensures
            servers@ == self.spec_nameservers(),
    {
        let mut servers: Vec<Ipv4Addr> = Vec::new();
        if self.nameserver_count > 0 {
            servers.push(self.nameserver_0);
        }
        if self.nameserver_count > 1 {
            servers.push(self.nameserver_1);
        }
        if self.nameserver_count > 2 {
            servers.push(self.nameserver_2);
        }
        assert(servers@ =~= self.spec_nameservers());
        servers
    }

    /// The netmask as a count of its ones, which is how it is printed.
    pub fn prefix_len(&self) -> (length: u32)
        requires
            self.sound(),
        ensures
            length == prefix_of(self.spec_netmask()),
    {
        let mut size: u64 = 0x1_0000_0000u64 - self.netmask.0 as u64;
        let mut ones: u32 = 32;
        proof {
            vstd::arithmetic::power2::lemma2_to64();
            halvings_bound(size as int, 32);
        }
        while size > 1
            invariant
                0 < size <= 0x1_0000_0000,
                ones - halvings(size as int) == prefix_of(self.netmask),
                prefix_of(self.netmask) >= 0,
                ones <= 32,
            decreases size,
        {
            proof {
                vstd::arithmetic::power2::lemma2_to64();
                halvings_bound(size as int / 2, 32);
            }
            size = size / 2;
            ones = ones - 1;
        }
        ones
    }

    /// True when `other` is on this machine's own subnet, so a datagram for it
    /// goes straight there rather than through the gateway.
    pub fn on_link(&self, other: Ipv4Addr) -> (r: bool)
        ensures
            r == same_subnet(other, self.spec_address(), self.spec_netmask()),
    {
        let size: u64 = 0x1_0000_0000u64 - self.netmask.0 as u64;
        other.0 as u64 / size == self.address.0 as u64 / size
    }

    /// The address every host on this subnet answers to.
    pub fn broadcast(&self) -> (address: Ipv4Addr)
        requires
            self.sound(),
        ensures
            address == subnet_broadcast(self.spec_address(), self.spec_netmask()),
    {
        let size: u64 = 0x1_0000_0000u64 - self.netmask.0 as u64;
        proof {
            subnet_fits(self.spec_address(), self.spec_netmask());
        }
        let first: u64 = self.address.0 as u64 - self.address.0 as u64 % size;
        Ipv4Addr((first + (size - 1)) as u32)
    }

    /// The address a datagram for `destination` is handed to: the destination
    /// itself when it is on this subnet or is a broadcast, the gateway when it
    /// is anywhere else, and nobody when there is no gateway.
    pub fn next_hop(&self, destination: Ipv4Addr) -> (hop: Option<Ipv4Addr>)
        ensures
            hop == next_hop_of(*self, destination),
    {
        if destination.is_broadcast() || destination.is_multicast() || self.on_link(destination) {
            Some(destination)
        } else {
            self.gateway
        }
    }

    /// `192.168.86.57/24 gateway 192.168.86.1 dns 192.168.86.1`, which is how
    /// the boot log names a configuration.
    pub fn describe(&self) -> (out: Vec<u8>)
        requires
            self.sound(),
        ensures
            out@ == config_text(*self),
    {
        let mut out: Vec<u8> = Vec::new();
        push_address_text(&mut out, self.address);
        out.push(0x2F);
        push_decimal(&mut out, self.prefix_len() as u64);
        match self.gateway {
            Some(gateway) => {
                push_text(&mut out, " gateway ");
                push_address_text(&mut out, gateway);
            },
            None => {
                push_text(&mut out, " no gateway");
            },
        }
        let servers = self.nameservers();
        let ghost head = out@;
        assert(head =~= config_head_text(*self));
        if servers.len() == 0 {
            push_text(&mut out, " no dns");
            assert(out@ =~= config_text(*self));
            return out;
        }
        push_text(&mut out, " dns");
        let ghost named = out@;
        let mut i: usize = 0;
        assert(servers@.take(0) =~= Seq::empty());
        assert(out@ =~= named + servers_text(servers@.take(0)));
        while i < servers.len()
            invariant
                i <= servers@.len(),
                out@ == named + servers_text(servers@.take(i as int)),
            decreases servers@.len() - i,
        {
            assert(servers@.take(i + 1).drop_last() =~= servers@.take(i as int));
            out.push(0x20);
            push_address_text(&mut out, servers[i]);
            i += 1;
            assert(out@ =~= named + servers_text(servers@.take(i as int)));
        }
        assert(servers@.take(i as int) =~= servers@);
        assert(out@ =~= config_text(*self));
        out
    }
}

/// The addresses `Config::new` takes.
pub open spec fn configurable(
    address: Ipv4Addr,
    netmask: Ipv4Addr,
    gateway: Option<Ipv4Addr>,
) -> bool {
    &&& host_address(address)
    &&& is_netmask(netmask)
    &&& !names_subnet(address, netmask)
    &&& gateway matches Some(router) ==> good_gateway(address, netmask, router)
}

/// The netmask of an address's class.
pub open spec fn class_mask(address: Ipv4Addr) -> Ipv4Addr {
    if address.0 < 0x8000_0000 {
        Ipv4Addr::dotted(255, 0, 0, 0)
    } else if address.0 < 0xC000_0000 {
        Ipv4Addr::dotted(255, 255, 0, 0)
    } else {
        Ipv4Addr::dotted(255, 255, 255, 0)
    }
}

/// How many ones a netmask starts with.
pub open spec fn prefix_of(netmask: Ipv4Addr) -> int {
    32 - halvings(subnet_size(netmask))
}

/// The last address of a subnet.
pub open spec fn subnet_broadcast(address: Ipv4Addr, netmask: Ipv4Addr) -> Ipv4Addr {
    let size = subnet_size(netmask);
    Ipv4Addr((address.0 as int / size * size + size - 1) as u32)
}

/// Where a datagram goes first.
pub open spec fn next_hop_of(config: Config, destination: Ipv4Addr) -> Option<Ipv4Addr> {
    if destination.limited_broadcast() || destination.multicast() || same_subnet(
        destination,
        config.spec_address(),
        config.spec_netmask(),
    ) {
        Some(destination)
    } else {
        config.spec_gateway()
    }
}

proof fn halvings_bound(n: int, limit: nat)
    requires
        n <= vstd::arithmetic::power2::pow2(limit),
    ensures
        0 <= halvings(n) <= limit,
    decreases limit,
{
    vstd::arithmetic::power2::lemma2_to64();
    if n > 1 {
        if limit == 0 {
            assert(false);
        }
        vstd::arithmetic::power2::lemma_pow2_unfold(limit);
        halvings_bound(n / 2, (limit - 1) as nat);
    }
}

/// A power of two of at most 2^32 divides 2^32, so no subnet runs past the
/// last address.
proof fn subnet_fits(address: Ipv4Addr, netmask: Ipv4Addr)
    requires
        is_netmask(netmask),
    ensures
        ({
            let size = subnet_size(netmask);
            let first = address.0 as int / size * size;
            &&& first == address.0 - address.0 as int % size
            &&& 0 <= first
            &&& first + size <= 0x1_0000_0000
        }),
{
    let size = subnet_size(netmask);
    vstd::arithmetic::power2::lemma2_to64();
    power_of_two_divides(size, 32);
    vstd::arithmetic::div_mod::lemma_fundamental_div_mod(address.0 as int, size);
    let q = address.0 as int / size;
    let n = 0x1_0000_0000int / size;
    vstd::arithmetic::div_mod::lemma_fundamental_div_mod(0x1_0000_0000, size);
    assert(n * size == 0x1_0000_0000) by (nonlinear_arith)
        requires
            0x1_0000_0000 == size * n + 0,
    ;
    assert(q < n) by (nonlinear_arith)
        requires
            size * q <= address.0,
            n * size == 0x1_0000_0000,
            size > 0,
    ;
    assert((q + 1) * size <= n * size) by (nonlinear_arith)
        requires
            q + 1 <= n,
            size > 0,
    ;
    assert((q + 1) * size == q * size + size) by (nonlinear_arith);
    assert(q * size == size * q) by (nonlinear_arith);
    assert(0 <= q * size) by (nonlinear_arith)
        requires
            q >= 0,
            size > 0,
    ;
}

proof fn power_of_two_divides(n: int, exponent: nat)
    requires
        power_of_two(n),
        0 < n <= vstd::arithmetic::power2::pow2(exponent),
    ensures
        vstd::arithmetic::power2::pow2(exponent) as int % n == 0,
    decreases exponent,
{
    vstd::arithmetic::power2::lemma2_to64();
    if n > 1 {
        vstd::arithmetic::power2::lemma_pow2_unfold(exponent);
        let half = vstd::arithmetic::power2::pow2((exponent - 1) as nat) as int;
        power_of_two_divides(n / 2, (exponent - 1) as nat);
        let k = half / (n / 2);
        vstd::arithmetic::div_mod::lemma_fundamental_div_mod(half, n / 2);
        assert(2 * half == k * n) by (nonlinear_arith)
            requires
                half == (n / 2) * k,
                n % 2 == 0,
        ;
        vstd::arithmetic::div_mod::lemma_mod_multiples_basic(k, n);
    }
}

// ---- as text -----------------------------------------------------------------

pub open spec fn config_head_text(config: Config) -> Seq<u8> {
    text::address_text(config.spec_address()) + seq![0x2Fu8] + text::decimal_text(
        prefix_of(config.spec_netmask()) as nat,
    ) + (match config.spec_gateway() {
        Some(gateway) => " gateway ".spec_bytes() + text::address_text(gateway),
        None => " no gateway".spec_bytes(),
    })
}

/// Each server behind a space.
pub open spec fn servers_text(servers: Seq<Ipv4Addr>) -> Seq<u8>
    decreases servers.len(),
{
    if servers.len() == 0 {
        Seq::empty()
    } else {
        servers_text(servers.drop_last()) + seq![0x20u8] + text::address_text(servers.last())
    }
}

/// A configuration as the boot log names it.
pub open spec fn config_text(config: Config) -> Seq<u8> {
    if config.spec_nameservers().len() == 0 {
        config_head_text(config) + " no dns".spec_bytes()
    } else {
        config_head_text(config) + " dns".spec_bytes() + servers_text(config.spec_nameservers())
    }
}

/// Each server on a line of its own.
pub open spec fn resolver_lines(servers: Seq<Ipv4Addr>) -> Seq<u8>
    decreases servers.len(),
{
    if servers.len() == 0 {
        Seq::empty()
    } else {
        resolver_lines(servers.drop_last()) + "nameserver ".spec_bytes() + text::address_text(
            servers.last(),
        ) + seq![0x0Au8]
    }
}

/// What /etc/resolv.conf says when these are the name servers.
pub open spec fn resolver_text(servers: Seq<Ipv4Addr>) -> Seq<u8> {
    "# Written by the kernel from its network configuration, and written\n# again whenever that changes.\n".spec_bytes()
        + resolver_lines(servers)
}

/// The text of /etc/resolv.conf for a list of name servers.
pub fn resolver_file(servers: &[Ipv4Addr]) -> (out: Vec<u8>)
    ensures
        out@ == resolver_text(servers@),
{
    let mut out: Vec<u8> = Vec::new();
    push_text(
        &mut out,
        "# Written by the kernel from its network configuration, and written\n# again whenever that changes.\n",
    );
    let ghost head = out@;
    let mut i: usize = 0;
    assert(servers@.take(0) =~= Seq::empty());
    assert(out@ =~= head + resolver_lines(servers@.take(0)));
    while i < servers.len()
        invariant
            i <= servers@.len(),
            out@ == head + resolver_lines(servers@.take(i as int)),
        decreases servers@.len() - i,
    {
        assert(servers@.take(i + 1).drop_last() =~= servers@.take(i as int));
        push_text(&mut out, "nameserver ");
        push_address_text(&mut out, servers[i]);
        out.push(0x0A);
        i += 1;
        assert(out@ =~= head + resolver_lines(servers@.take(i as int)));
    }
    assert(servers@.take(i as int) =~= servers@);
    assert(out@ =~= resolver_text(servers@));
    out
}

} // verus!
