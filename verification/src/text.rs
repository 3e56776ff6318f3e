//! Numbers and addresses as text.

use crate::bytes::extend;
use crate::net::ip::{self, Ipv4Addr};
use vstd::prelude::*;
use vstd::string::StringSliceAdditionalSpecFns;

verus! {

/// A number in decimal, most significant digit first, with no leading zeroes.
pub open spec fn decimal_text(value: nat) -> Seq<u8>
    decreases value,
{
    if value < 10 {
        seq![(0x30 + value) as u8]
    } else {
        decimal_text(value / 10).push((0x30 + value % 10) as u8)
    }
}

/// A number below sixteen as one lower case hexadecimal digit.
pub open spec fn hex_digit(value: int) -> u8 {
    if value < 10 {
        (0x30 + value) as u8
    } else {
        (0x57 + value) as u8
    }
}

/// A byte as two lower case hexadecimal digits.
pub open spec fn hex_text(byte: u8) -> Seq<u8> {
    seq![hex_digit(byte as int / 16), hex_digit(byte as int % 16)]
}

/// An address in dotted quad notation.
pub open spec fn address_text(address: Ipv4Addr) -> Seq<u8> {
    let b = address.octets();
    decimal_text(b[0] as nat) + seq![0x2Eu8] + decimal_text(b[1] as nat) + seq![0x2Eu8]
        + decimal_text(b[2] as nat) + seq![0x2Eu8] + decimal_text(b[3] as nat)
}

/// A hardware address: six bytes in hexadecimal with colons between.
pub open spec fn mac_text(mac: Seq<u8>) -> Seq<u8>
    decreases mac.len(),
{
    if mac.len() == 0 {
        Seq::empty()
    } else if mac.len() == 1 {
        hex_text(mac[0])
    } else {
        mac_text(mac.drop_last()) + seq![0x3Au8] + hex_text(mac.last())
    }
}

/// The digits of a number of at most ten digits, least significant last.
pub fn push_decimal(out: &mut Vec<u8>, value: u64)
    ensures
        final(out)@ == old(out)@ + decimal_text(value as nat),
    decreases value,
{
    if value >= 10 {
        push_decimal(out, value / 10);
    }
    out.push(0x30 + (value % 10) as u8);
    assert(out@ =~= old(out)@ + decimal_text(value as nat));
}

fn hex_of(value: u8) -> (digit: u8)
    requires
        value < 16,
    ensures
        digit == hex_digit(value as int),
{
    if value < 10 {
        0x30 + value
    } else {
        0x57 + value
    }
}

pub fn push_address_text(out: &mut Vec<u8>, address: Ipv4Addr)
    ensures
        final(out)@ == old(out)@ + address_text(address),
{
    let b = address.to_be_bytes();
    push_decimal(out, b[0] as u64);
    out.push(0x2E);
    push_decimal(out, b[1] as u64);
    out.push(0x2E);
    push_decimal(out, b[2] as u64);
    out.push(0x2E);
    push_decimal(out, b[3] as u64);
    assert(out@ =~= old(out)@ + address_text(address));
}

/// A hardware address as text.
pub fn format_mac(mac: &[u8; 6]) -> (text: Vec<u8>)
    ensures
        text@ == mac_text(mac@),
{
    let mut out: Vec<u8> = Vec::new();
    let mut i: usize = 0;
    assert(mac@.take(0) =~= Seq::empty());
    assert(out@ =~= mac_text(mac@.take(0)));
    while i < 6
        invariant
            i <= 6,
            mac@.len() == 6,
            out@ == mac_text(mac@.take(i as int)),
        decreases 6 - i,
    {
        let ghost before = out@;
        if i > 0 {
            out.push(0x3A);
        }
        out.push(hex_of(mac[i] / 16));
        out.push(hex_of(mac[i] % 16));
        i += 1;
        proof {
            let now = mac@.take(i as int);
            assert(now.drop_last() =~= mac@.take(i - 1));
            if i == 1 {
                assert(mac_text(mac@.take(0)) =~= Seq::empty());
                assert(out@ =~= hex_text(now[0]));
            } else {
                assert(out@ =~= before + seq![0x3Au8] + hex_text(now.last()));
            }
        }
    }
    assert(mac@.take(6) =~= mac@);
    out
}

/// Two texts appended: the name in front and the address behind it.
pub fn push_text(out: &mut Vec<u8>, text: &str)
    ensures
        final(out)@ == old(out)@ + text.spec_bytes(),
{
    extend(out, text.as_bytes());
}

// ---- reading back what was written ------------------------------------------

/// The digits of a number spell that number, and are digits.
pub proof fn decimal_round_trip(value: nat)
    ensures
        ip::decimal(decimal_text(value)) == value,
        decimal_text(value).len() > 0,
        forall|i: int|
            0 <= i < decimal_text(value).len() ==> ip::is_digit(#[trigger] decimal_text(value)[i]),
        value < 10 ==> decimal_text(value).len() == 1,
        value < 100 ==> decimal_text(value).len() <= 2,
        value < 1000 ==> decimal_text(value).len() <= 3,
    decreases value,
{
    let text = decimal_text(value);
    if value < 10 {
        assert(text.drop_last() =~= Seq::empty());
        assert(ip::decimal(text.drop_last()) == 0);
    } else {
        decimal_round_trip(value / 10);
        assert(text.drop_last() =~= decimal_text(value / 10));
    }
}

/// A text with no separator in it is one piece, appended to the last one.
proof fn split_extend(front: Seq<u8>, more: Seq<u8>, separator: u8)
    requires
        forall|i: int| 0 <= i < more.len() ==> #[trigger] more[i] != separator,
    ensures
        ip::split(front, separator).len() > 0,
        ip::split(front + more, separator) == ip::split(front, separator).drop_last().push(
            ip::split(front, separator).last() + more,
        ),
    decreases more.len(),
{
    split_nonempty(front, separator);
    let parts = ip::split(front, separator);
    if more.len() == 0 {
        assert(front + more =~= front);
        assert(parts.last() + more =~= parts.last());
        assert(parts.drop_last().push(parts.last()) =~= parts);
    } else {
        let shorter = more.drop_last();
        split_extend(front, shorter, separator);
        assert((front + more).drop_last() =~= front + shorter);
        assert((front + more).last() == more.last());
        let before = ip::split(front + shorter, separator);
        assert(before.drop_last() =~= parts.drop_last());
        assert(before.last().push(more.last()) =~= parts.last() + more);
    }
}

proof fn split_nonempty(text: Seq<u8>, separator: u8)
    ensures
        ip::split(text, separator).len() > 0,
    decreases text.len(),
{
    if text.len() > 0 {
        split_nonempty(text.drop_last(), separator);
    }
}

/// A separator starts a new, empty piece.
proof fn split_separator(front: Seq<u8>, separator: u8)
    ensures
        ip::split(front.push(separator), separator) == ip::split(front, separator).push(
            Seq::<u8>::empty(),
        ),
{
    assert(front.push(separator).drop_last() =~= front);
}

/// An address written in dotted quad notation is read back as itself.
pub proof fn address_round_trip(address: Ipv4Addr)
    ensures
        ip::is_dotted_quad(address_text(address)),
        ip::dotted_quad(address_text(address)) == address,
{
    let b = address.octets();
    let d0 = decimal_text(b[0] as nat);
    let d1 = decimal_text(b[1] as nat);
    let d2 = decimal_text(b[2] as nat);
    let d3 = decimal_text(b[3] as nat);
    decimal_round_trip(b[0] as nat);
    decimal_round_trip(b[1] as nat);
    decimal_round_trip(b[2] as nat);
    decimal_round_trip(b[3] as nat);
    let dot = 0x2Eu8;
    let none = Seq::<u8>::empty();
    split_extend(none, d0, dot);
    assert(none + d0 =~= d0);
    let s0 = ip::split(d0, dot);
    assert(s0 =~= seq![d0]);
    split_separator(d0, dot);
    split_extend(d0.push(dot), d1, dot);
    let t1 = d0.push(dot) + d1;
    assert(ip::split(t1, dot) =~= seq![d0, d1]);
    split_separator(t1, dot);
    split_extend(t1.push(dot), d2, dot);
    let t2 = t1.push(dot) + d2;
    assert(ip::split(t2, dot) =~= seq![d0, d1, d2]);
    split_separator(t2, dot);
    split_extend(t2.push(dot), d3, dot);
    let t3 = t2.push(dot) + d3;
    assert(ip::split(t3, dot) =~= seq![d0, d1, d2, d3]);
    assert(t3 =~= address_text(address));
    assert(ip::unsigned(d0) == d0 && ip::unsigned(d1) == d1 && ip::unsigned(d2) == d2
        && ip::unsigned(d3) == d3);
    ip::octets_round_trip(address);
}

} // verus!
