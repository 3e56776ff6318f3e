//! What a board's two SD host controllers have in common.
//!
//! One carries a radio over SDIO and the other is wired to a card slot. Both
//! are driven the same way, and what a card and its host agree on is decided
//! here.

pub mod delay;

use vstd::prelude::*;

verus! {

/// The highest bit set at or below bit `from`, or bit 0.
pub open spec fn top_bit(value: u32, from: nat) -> nat
    decreases from,
{
    if from == 0 || value & (1u32 << from) != 0 {
        from
    } else {
        top_bit(value, (from - 1) as nat)
    }
}

/// The voltages both a card and its host can do: those below the defined range
/// dropped, and what the host cannot supply dropped.
pub open spec fn common_voltages(ocr: u32, host_ocr: u32) -> u32 {
    ocr & !0x7Fu32 & 0x00FF_FFFF & host_ocr
}

/// The voltages to use with a card: of those both sides can do, the highest
/// and the one below it.
pub fn select_voltage(ocr: u32, host_ocr: u32) -> (voltages: u32)
    ensures
        ({
            let common = common_voltages(ocr, host_ocr);
            voltages == (if common == 0 {
                0
            } else {
                common & (3u32 << ((top_bit(common, 23) - 1) as u32))
            })
        }),
        common_voltages(ocr, host_ocr) != 0 ==> 7 <= top_bit(common_voltages(ocr, host_ocr), 23),
{
    let common: u32 = ocr & !0x7F & 0x00FF_FFFF & host_ocr;
    if common == 0 {
        return 0;
    }
    let mut bit: u32 = 23;
    assert(common >> 24 == 0) by (bit_vector)
        requires
            common == ocr & !0x7Fu32 & 0x00FF_FFFF & host_ocr,
    ;
    assert(common & 0x7F == 0) by (bit_vector)
        requires
            common == ocr & !0x7Fu32 & 0x00FF_FFFF & host_ocr,
    ;
    while bit > 0 && common & (1u32 << bit) == 0
        invariant
            bit <= 23,
            common >> ((bit + 1) as u32) == 0,
            top_bit(common, 23) == top_bit(common, bit as nat),
        decreases bit,
    {
        assert(common >> ((bit + 1) as u32) == 0 && common & (1u32 << bit) == 0 && bit <= 23
            ==> common >> bit == 0) by (bit_vector);
        bit -= 1;
    }
    // Bits 0 to 6 are masked off above, so the highest bit left is at least 7.
    assert(common != 0 && common & 0x7F == 0 && common >> ((bit + 1) as u32) == 0 && bit <= 23
        ==> bit >= 7) by (bit_vector);
    common & (3u32 << (bit - 1))
}

/// The voltages to choose from are those both sides name, out of the ones that
/// mean a voltage at all: bits seven to twenty-three.
pub proof fn which_voltages_are_common(ocr: u32, host_ocr: u32, bit: u32)
    requires
        bit < 32,
    ensures
        (common_voltages(ocr, host_ocr) & (1u32 << bit) != 0) == (7 <= bit < 24 && ocr & (1u32
            << bit) != 0 && host_ocr & (1u32 << bit) != 0),
{
    assert(((ocr & !0x7Fu32 & 0x00FF_FFFF & host_ocr) & (1u32 << bit) != 0) == (7 <= bit && bit < 24
        && ocr & (1u32 << bit) != 0 && host_ocr & (1u32 << bit) != 0)) by (bit_vector)
        requires
            bit < 32,
    ;
}

/// The highest bit is set, and none above it is.
pub proof fn what_the_top_bit_is(value: u32, from: nat, bit: nat)
    requires
        bit <= from < 32,
        value & (1u32 << bit) != 0,
    ensures
        bit <= top_bit(value, from) <= from,
        value & (1u32 << top_bit(value, from)) != 0,
    decreases from,
{
    if from > 0 && value & (1u32 << from) == 0 {
        what_the_top_bit_is(value, (from - 1) as nat, bit);
    }
}

} // verus!
