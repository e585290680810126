use drivers::gpio::{
    parse_gpio_name, GpioBank, GpioDirection, GpioLevel, GpioPin, GPIO0_BASE, GPIO3_BASE,
};

#[test]
fn parse_gpio0_b5() {
    assert_eq!(parse_gpio_name(0, 'B', 5), (GpioBank::Gpio0, 13));
}

#[test]
fn parse_lower_case_group() {
    assert_eq!(parse_gpio_name(4, 'd', 7), (GpioBank::Gpio4, 31));
    assert_eq!(parse_gpio_name(2, 'a', 0), (GpioBank::Gpio2, 0));
    assert_eq!(parse_gpio_name(3, 'C', 1), (GpioBank::Gpio3, 17));
}

#[test]
fn bank_numbers() {
    assert_eq!(GpioBank::from_index(1), Some(GpioBank::Gpio1));
    assert_eq!(GpioBank::from_index(5), None);
    assert_eq!(GpioBank::Gpio4.index(), 4);
    assert_eq!(GpioBank::Gpio3.base(), GPIO3_BASE);
}

#[test]
fn pin_of_bank() {
    let p = GpioPin::new(GpioBank::Gpio0, 13);
    assert_eq!(p.base(), GPIO0_BASE);
    assert_eq!(p.pin(), 13);
    assert_eq!(p.mask(), 1 << 13);
}

#[test]
fn pin_register_bits() {
    let p = GpioPin::new(GpioBank::Gpio1, 31);
    assert_eq!(p.direction_bits(0x1, GpioDirection::Output), 0x8000_0001);
    assert_eq!(p.direction_bits(0xFFFF_FFFF, GpioDirection::Input), 0x7FFF_FFFF);
    assert_eq!(p.level_bits(0, GpioLevel::High), 0x8000_0000);
    assert_eq!(p.level_bits(0x8000_0002, GpioLevel::Low), 0x2);
    assert_eq!(p.toggled_bits(0x8000_0000), 0);
    assert_eq!(p.toggled_bits(0), 0x8000_0000);
    assert_eq!(p.level_in(0x8000_0000), GpioLevel::High);
    assert_eq!(p.level_in(0x7FFF_FFFF), GpioLevel::Low);
}
