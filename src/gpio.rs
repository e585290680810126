//! General-purpose digital I/O: bank and pin naming, and the register bit
//! computations behind direction, level and toggle operations.
use vstd::prelude::*;

verus! {

/// Register block base of bank 0.
pub const GPIO0_BASE: usize = 0xFD8A0000;
/// Register block base of bank 1.
pub const GPIO1_BASE: usize = 0xFEC20000;
/// Register block base of bank 2.
pub const GPIO2_BASE: usize = 0xFEC30000;
/// Register block base of bank 3.
pub const GPIO3_BASE: usize = 0xFEC40000;
/// Register block base of bank 4.
pub const GPIO4_BASE: usize = 0xFEC50000;

/// Output data register (one bit per pin).
pub const GPIO_SWPORT_DR: usize = 0x0000;
/// Direction register (one bit per pin, set for output).
pub const GPIO_SWPORT_DDR: usize = 0x0004;
/// External port register: the level seen on each pin.
pub const GPIO_EXT_PORT: usize = 0x0050;

/// One of the five banks of 32 pins.
#[derive(Debug, Clone, Copy, PartialEq, Eq, Structural)]
pub enum GpioBank {
    Gpio0,
    Gpio1,
    Gpio2,
    Gpio3,
    Gpio4,
}

/// Pin direction.
#[derive(Debug, Clone, Copy, PartialEq, Eq, Structural)]
pub enum GpioDirection {
    Input,
    Output,
}

/// Pin level.
#[derive(Debug, Clone, Copy, PartialEq, Eq, Structural)]
pub enum GpioLevel {
    Low,
    High,
}

/// Number of a bank, 0 to 4.
pub open spec fn bank_index_spec(bank: GpioBank) -> u8 {
    match bank {
        GpioBank::Gpio0 => 0,
        GpioBank::Gpio1 => 1,
        GpioBank::Gpio2 => 2,
        GpioBank::Gpio3 => 3,
        GpioBank::Gpio4 => 4,
    }
}

/// Base address of a bank's register block.
pub open spec fn bank_base_spec(bank: GpioBank) -> usize {
    match bank {
        GpioBank::Gpio0 => GPIO0_BASE,
        GpioBank::Gpio1 => GPIO1_BASE,
        GpioBank::Gpio2 => GPIO2_BASE,
        GpioBank::Gpio3 => GPIO3_BASE,
        GpioBank::Gpio4 => GPIO4_BASE,
    }
}

/// Offset of a pin group letter within its bank: A, B, C, D (either case)
/// start at pins 0, 8, 16, 24.
pub open spec fn group_offset_spec(group: char) -> Option<u8> {
    if group == 'A' || group == 'a' {
        Some(0u8)
    } else if group == 'B' || group == 'b' {
        Some(8u8)
    } else if group == 'C' || group == 'c' {
        Some(16u8)
    } else if group == 'D' || group == 'd' {
        Some(24u8)
    } else {
        None
    }
}

impl GpioBank {
    /// The bank with number `index`, if there is one (0 to 4).
    pub fn from_index(index: u8) -> (r: Option<GpioBank>)
        ensures
            r is Some <==> index < 5,
            r matches Some(b) ==> bank_index_spec(b) == index,
    {
        match index {
            0 => Some(GpioBank::Gpio0),
            1 => Some(GpioBank::Gpio1),
            2 => Some(GpioBank::Gpio2),
            3 => Some(GpioBank::Gpio3),
            4 => Some(GpioBank::Gpio4),
            _ => None,
        }
    }

    /// The bank's number.
    pub fn index(&self) -> (r: u8)
        ensures
            r == bank_index_spec(*self),
    {
        match self {
            GpioBank::Gpio0 => 0,
            GpioBank::Gpio1 => 1,
            GpioBank::Gpio2 => 2,
            GpioBank::Gpio3 => 3,
            GpioBank::Gpio4 => 4,
        }
    }

    /// Base address of the bank's register block.
    pub fn base(&self) -> (r: usize)
        ensures
            r == bank_base_spec(*self),
    {
        match self {
            GpioBank::Gpio0 => GPIO0_BASE,
            GpioBank::Gpio1 => GPIO1_BASE,
            GpioBank::Gpio2 => GPIO2_BASE,
            GpioBank::Gpio3 => GPIO3_BASE,
            GpioBank::Gpio4 => GPIO4_BASE,
        }
    }
}

/// One pin: the base of its bank's register block and its number (0 to 31)
/// within the bank.
pub struct GpioPin {
    base: usize,
    pin: u8,
}

impl GpioPin {
    pub closed spec fn base_spec(&self) -> usize {
        self.base
    }

    pub closed spec fn pin_spec(&self) -> u8 {
        self.pin
    }

    /// The pin number is a bit position of a 32-bit register.
    pub open spec fn wf(&self) -> bool {
        self.pin_spec() < 32
    }

    /// Pin `pin` of `bank`; `pin` must be below 32.
    pub fn new(bank: GpioBank, pin: u8) -> (r: GpioPin)
        requires
            pin < 32,
        ensures
            r.wf(),
            r.base_spec() == bank_base_spec(bank),
            r.pin_spec() == pin,
    {
        GpioPin { base: bank.base(), pin }
    }

    /// Base address of the pin's register block.
    pub fn base(&self) -> (r: usize)
        ensures
            r == self.base_spec(),
    {
        self.base
    }

    /// The pin's number within its bank.
    pub fn pin(&self) -> (r: u8)
        ensures
            r == self.pin_spec(),
    {
        self.pin
    }

    /// The pin's bit in a bank register.
    pub fn mask(&self) -> (r: u32)
        requires
            self.wf(),
        ensures
            r == 1u32 << self.pin_spec(),
    {
        1u32 << self.pin
    }

    /// Direction register value `ddr` with this pin's bit set for output and
    /// cleared for input; the other bits are kept.
    pub fn direction_bits(&self, ddr: u32, direction: GpioDirection) -> (r: u32)
        requires
            self.wf(),
        ensures
            direction == GpioDirection::Output ==> r == ddr | (1u32 << self.pin_spec()),
            direction == GpioDirection::Input ==> r == ddr & !(1u32 << self.pin_spec()),
    {
        let m = self.mask();
        match direction {
            GpioDirection::Output => ddr | m,
            GpioDirection::Input => ddr & !m,
        }
    }

    /// Data register value `dr` with this pin's bit set for high and cleared
    /// for low; the other bits are kept.
    pub fn level_bits(&self, dr: u32, level: GpioLevel) -> (r: u32)
        requires
            self.wf(),
        ensures
            level == GpioLevel::High ==> r == dr | (1u32 << self.pin_spec()),
            level == GpioLevel::Low ==> r == dr & !(1u32 << self.pin_spec()),
    {
        let m = self.mask();
        match level {
            GpioLevel::High => dr | m,
            GpioLevel::Low => dr & !m,
        }
    }

    /// Data register value `dr` with this pin's bit inverted.
    pub fn toggled_bits(&self, dr: u32) -> (r: u32)
        requires
            self.wf(),
        ensures
            r == dr ^ (1u32 << self.pin_spec()),
    {
        dr ^ self.mask()
    }

    /// Level of this pin in an external port register value.
    pub fn level_in(&self, ext: u32) -> (r: GpioLevel)
        requires
            self.wf(),
        ensures
            r == (if ext & (1u32 << self.pin_spec()) != 0 {
                GpioLevel::High
            } else {
                GpioLevel::Low
            }),
    {
        if ext & self.mask() != 0 {
            GpioLevel::High
        } else {
            GpioLevel::Low
        }
    }
}

/// Bank and pin number of the pin named `GPIO<bank>_<group><pin>`, such as
/// bank 0, group 'B', pin 5 for pin 13 of bank 0. The bank must be below 5,
/// the pin below 8, and the group one of A, B, C, D in either case.
pub fn parse_gpio_name(bank: u8, group: char, pin: u8) -> (r: (GpioBank, u8))
    requires
        bank < 5,
        pin < 8,
        group_offset_spec(group) is Some,
    ensures
        bank_index_spec(r.0) == bank,
        r.1 == group_offset_spec(group)->Some_0 + pin,
        r.1 < 32,
{
    let bank_enum = match GpioBank::from_index(bank) {
        Some(b) => b,
        None => GpioBank::Gpio0,
    };
    let group_offset: u8 = match group {
        'A' | 'a' => 0,
        'B' | 'b' => 8,
        'C' | 'c' => 16,
        _ => 24,
    };
    (bank_enum, group_offset + pin)
}

} // verus!
