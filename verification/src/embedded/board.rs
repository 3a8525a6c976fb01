//! Registers of the board: display power, speaker amplifier, codec.

use super::fixed;
use vstd::prelude::*;

verus! {

/// Bus address of the power controller.
pub const PMIC_ADDR: u8 = 0x6E;

/// Bus address of the audio codec.
pub const ES8311_ADDR: u8 = 0x18;

/// First and last address of a scan of the bus.
pub const SCAN_FIRST: u8 = 0x03;

pub const SCAN_LAST: u8 = 0x77;

/// Pin function of the power controller's pins: set for the special one.
pub const REG_FUNCTION: u8 = 0x16;

/// Direction of the pins: set for output.
pub const REG_DIRECTION: u8 = 0x10;

/// Drive of the pins: set for open drain.
pub const REG_DRIVE: u8 = 0x13;

/// Level of the pins.
pub const REG_LEVEL: u8 = 0x11;

/// Idle sleep of the power controller.
pub const REG_SLEEP: u8 = 0x09;

/// Pin that powers the display.
pub const LCD_PIN: u8 = 4;

/// Pin that enables the speaker amplifier.
pub const PA_PIN: u8 = 8;

/// A change of one register.
#[derive(Clone, Copy, Debug, PartialEq, Eq, Structural)]
pub enum RegOp {
    /// Set the bits of the mask.
    BitOn { reg: u8, mask: u8 },
    /// Clear the bits of the mask.
    BitOff { reg: u8, mask: u8 },
    /// Write a value.
    Write { reg: u8, value: u8 },
}

impl RegOp {
    /// The register that changes.
    pub open spec fn target(self) -> u8 {
        match self {
            RegOp::BitOn { reg, .. } => reg,
            RegOp::BitOff { reg, .. } => reg,
            RegOp::Write { reg, .. } => reg,
        }
    }

    /// What it becomes.
    pub open spec fn result(self, current: u8) -> u8 {
        match self {
            RegOp::BitOn { mask, .. } => current | mask,
            RegOp::BitOff { mask, .. } => current & !mask,
            RegOp::Write { value, .. } => value,
        }
    }

    /// The register that changes.
    pub fn register(self) -> (reg: u8)
        ensures
            reg == self.target(),
    {
        match self {
            RegOp::BitOn { reg, .. } => reg,
            RegOp::BitOff { reg, .. } => reg,
            RegOp::Write { reg, .. } => reg,
        }
    }

    /// Whether its value has to be read first.
    pub fn needs_read(self) -> (yes: bool)
        ensures
            yes == !(self is Write),
    {
        match self {
            RegOp::BitOn { .. } => true,
            RegOp::BitOff { .. } => true,
            RegOp::Write { .. } => false,
        }
    }

    /// What to write, given the value of the register.
    pub fn value(self, current: u8) -> (v: u8)
        ensures
            v == self.result(current),
    {
        match self {
            RegOp::BitOn { mask, .. } => current | mask,
            RegOp::BitOff { mask, .. } => current & !mask,
            RegOp::Write { value, .. } => value,
        }
    }
}

/// Registers after the first `n` changes.
pub open spec fn after(regs: spec_fn(u8) -> u8, ops: Seq<RegOp>, n: int) -> spec_fn(u8) -> u8
    decreases n,
{
    if n <= 0 {
        regs
    } else {
        let before = after(regs, ops, n - 1);
        let op = ops[n - 1];
        |r: u8|
            if r == op.target() {
                op.result(before(r))
            } else {
                before(r)
            }
    }
}

/// The changes that make a pin a push-pull output of a level.
pub open spec fn output_ops(pin: u8, high: bool) -> Seq<RegOp> {
    seq![
        RegOp::BitOff { reg: REG_FUNCTION, mask: pin },
        RegOp::BitOn { reg: REG_DIRECTION, mask: pin },
        RegOp::BitOff { reg: REG_DRIVE, mask: pin },
        if high {
            RegOp::BitOn { reg: REG_LEVEL, mask: pin }
        } else {
            RegOp::BitOff { reg: REG_LEVEL, mask: pin }
        },
    ]
}

/// The changes that make a pin a push-pull output of a level.
fn pin_output(pin: u8, high: bool) -> (ops: Vec<RegOp>)
    ensures
        ops@ == output_ops(pin, high),
{
    let mut ops: Vec<RegOp> = Vec::new();
    ops.push(RegOp::BitOff { reg: REG_FUNCTION, mask: pin });
    ops.push(RegOp::BitOn { reg: REG_DIRECTION, mask: pin });
    ops.push(RegOp::BitOff { reg: REG_DRIVE, mask: pin });
    if high {
        ops.push(RegOp::BitOn { reg: REG_LEVEL, mask: pin });
    } else {
        ops.push(RegOp::BitOff { reg: REG_LEVEL, mask: pin });
    }
    assert(ops@ =~= output_ops(pin, high));
    ops
}

/// The changes that switch the display on: its pin goes high, and the power
/// controller no longer falls asleep.
pub open spec fn lcd_power_ops() -> Seq<RegOp> {
    output_ops(LCD_PIN, true).push(RegOp::Write { reg: REG_SLEEP, value: 0 })
}

/// The changes that switch the display on.
pub fn lcd_power_sequence() -> (ops: Vec<RegOp>)
    ensures
        ops@ == lcd_power_ops(),
{
    let mut ops: Vec<RegOp> = pin_output(LCD_PIN, true);
    ops.push(RegOp::Write { reg: REG_SLEEP, value: 0 });
    ops
}

/// The changes that prepare the amplifier's pin: an output, and low.
pub fn speaker_setup_sequence() -> (ops: Vec<RegOp>)
    ensures
        ops@ == output_ops(PA_PIN, false),
{
    pin_output(PA_PIN, false)
}

/// The change that switches the amplifier on or off.
pub fn speaker_switch(on: bool) -> (op: RegOp)
    ensures
        op == (if on {
            RegOp::BitOn { reg: REG_LEVEL, mask: PA_PIN }
        } else {
            RegOp::BitOff { reg: REG_LEVEL, mask: PA_PIN }
        }),
{
    if on {
        RegOp::BitOn { reg: REG_LEVEL, mask: PA_PIN }
    } else {
        RegOp::BitOff { reg: REG_LEVEL, mask: PA_PIN }
    }
}

/// The writes that set the codec up for playing.
pub open spec fn es8311_writes() -> Seq<(u8, u8)> {
    seq![
        (0x00u8, 0x80u8),
        (0x01, 0xB5),
        (0x02, 0x18),
        (0x0D, 0x01),
        (0x12, 0x00),
        (0x13, 0x10),
        (0x32, 0x80),
        (0x37, 0x08),
    ]
}

/// The writes that set the codec up for playing: reset, clock from the bit
/// clock, analog part, converter, output stage, volume, no equalizer.
pub fn es8311_sequence() -> (writes: Vec<(u8, u8)>)
    ensures
        writes@ == es8311_writes(),
{
    let mut writes: Vec<(u8, u8)> = Vec::new();
    writes.push((0x00, 0x80));
    writes.push((0x01, 0xB5));
    writes.push((0x02, 0x18));
    writes.push((0x0D, 0x01));
    writes.push((0x12, 0x00));
    writes.push((0x13, 0x10));
    writes.push((0x32, 0x80));
    writes.push((0x37, 0x08));
    assert(writes@ =~= es8311_writes());
    writes
}

/// Making a pin an output does so, and touches no other pin and no other
/// register.
pub proof fn law_output_is_set_up(regs: spec_fn(u8) -> u8, pin: u8, high: bool, other: u8, r: u8)
    requires
        other & pin == 0,
        r != REG_FUNCTION && r != REG_DIRECTION && r != REG_DRIVE && r != REG_LEVEL,
    ensures
        ({
            let set = after(regs, output_ops(pin, high), 4);
            &&& set(REG_FUNCTION) & pin == 0
            &&& set(REG_DIRECTION) & pin == pin
            &&& set(REG_DRIVE) & pin == 0
            &&& set(REG_LEVEL) & pin == (if high {
                pin
            } else {
                0
            })
            &&& set(REG_FUNCTION) & other == regs(REG_FUNCTION) & other
            &&& set(REG_DIRECTION) & other == regs(REG_DIRECTION) & other
            &&& set(REG_DRIVE) & other == regs(REG_DRIVE) & other
            &&& set(REG_LEVEL) & other == regs(REG_LEVEL) & other
            &&& set(r) == regs(r)
        }),
{
    reveal_with_fuel(after, 5);
    lemma_masks(regs(REG_FUNCTION), pin, other);
    lemma_masks(regs(REG_DIRECTION), pin, other);
    lemma_masks(regs(REG_DRIVE), pin, other);
    lemma_masks(regs(REG_LEVEL), pin, other);
}

proof fn lemma_masks(v: u8, pin: u8, other: u8)
    requires
        other & pin == 0,
    ensures
        (v | pin) & pin == pin,
        (v & !pin) & pin == 0,
        (v | pin) & other == v & other,
        (v & !pin) & other == v & other,
{
    assert((v | pin) & pin == pin) by (bit_vector);
    assert((v & !pin) & pin == 0) by (bit_vector);
    assert((v | pin) & other == v & other && (v & !pin) & other == v & other) by (bit_vector)
        requires
            other & pin == 0,
    ;
}

/// The display is powered after the changes: its pin is a high output and the
/// sleep is off.
pub proof fn law_display_is_powered(regs: spec_fn(u8) -> u8)
    ensures
        ({
            let set = after(regs, lcd_power_ops(), 5);
            &&& set(REG_FUNCTION) & LCD_PIN == 0
            &&& set(REG_DIRECTION) & LCD_PIN == LCD_PIN
            &&& set(REG_DRIVE) & LCD_PIN == 0
            &&& set(REG_LEVEL) & LCD_PIN == LCD_PIN
            &&& set(REG_SLEEP) == 0
        }),
{
    reveal_with_fuel(after, 6);
    assert(0u8 & LCD_PIN == 0) by (bit_vector);
    lemma_masks(regs(REG_FUNCTION), LCD_PIN, 0);
    lemma_masks(regs(REG_DIRECTION), LCD_PIN, 0);
    lemma_masks(regs(REG_DRIVE), LCD_PIN, 0);
    lemma_masks(regs(REG_LEVEL), LCD_PIN, 0);
}

/// Devices found on the bus: the first sixteen.
pub struct BusScan {
    found: heapless::Vec<u8, 16>,
}

impl BusScan {
    /// The addresses found.
    pub closed spec fn addresses(&self) -> Seq<u8> {
        fixed::found_addresses(self.found)
    }

    /// Nothing found yet.
    pub fn new() -> (scan: BusScan)
        ensures
            scan.addresses() == Seq::<u8>::empty(),
    {
        BusScan { found: fixed::found_new() }
    }

    /// Note whether a device answered.
    pub fn note(&mut self, addr: u8, answered: bool)
        ensures
            final(self).addresses() == (if answered && old(self).addresses().len() < 16 {
                old(self).addresses().push(addr)
            } else {
                old(self).addresses()
            }),
    {
        if answered {
            let _ = fixed::found_push(&mut self.found, addr);
        }
    }

    /// The addresses found.
    pub fn devices(&self) -> (all: &[u8])
        ensures
            all@ == self.addresses(),
    {
        fixed::found_as_slice(&self.found)
    }
}

} // verus!
