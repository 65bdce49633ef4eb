use elo_touch::protocol::{
    check_flags, coordinate, is_valid_flags, Direction, TouchEvent, FRAME_LEN, OFF_MASK, ON_MASK,
    PRESS_BIT,
};

#[test]
fn masks_have_their_wire_values() {
    assert_eq!(ON_MASK, 0x88);
    assert_eq!(OFF_MASK, 0x37);
    assert_eq!(PRESS_BIT, 0x40);
    assert_eq!(FRAME_LEN, 5);
}

#[test]
fn check_flags_wants_every_bit_of_the_mask() {
    assert!(check_flags(0x88, 0x88));
    assert!(check_flags(0xFF, 0x88));
    assert!(!check_flags(0x80, 0x88));
    assert!(!check_flags(0x08, 0x88));
    assert!(!check_flags(0x00, 0x88));
    assert!(check_flags(0x00, 0x00));
    assert!(check_flags(0x5A, 0x00));
}

#[test]
fn only_two_bytes_are_flags_bytes() {
    for byte in 0..=255u8 {
        assert_eq!(is_valid_flags(byte), byte == 0x88 || byte == 0xC8, "byte {:#04x}", byte);
    }
}

#[test]
fn flags_byte_with_press_bit_clear_is_a_release() {
    assert!(is_valid_flags(0b1000_1000));
    assert_eq!(Direction::from_flags(0b1000_1000), Direction::Release);
}

#[test]
fn flags_byte_with_press_bit_set_is_a_press() {
    assert!(is_valid_flags(0b1100_1000));
    assert_eq!(Direction::from_flags(0b1100_1000), Direction::Press);
}

#[test]
fn byte_with_the_off_bits_set_is_no_flags_byte() {
    assert!(check_flags(0b1011_1111, ON_MASK));
    assert!(!check_flags(!0b1011_1111u8, OFF_MASK));
    assert!(!check_flags(0b1011_1111, PRESS_BIT));
    assert!(!is_valid_flags(0b1011_1111));
}

#[test]
fn zero_byte_is_no_flags_byte() {
    assert!(!check_flags(0b0000_0000, ON_MASK));
    assert!(!is_valid_flags(0b0000_0000));
}

#[test]
fn all_ones_is_no_flags_byte() {
    assert!(!is_valid_flags(0xFF));
}

#[test]
fn direction_goes_by_the_press_bit_alone() {
    for byte in 0..=255u8 {
        let expected = if byte & 0x40 != 0 { Direction::Press } else { Direction::Release };
        assert_eq!(Direction::from_flags(byte), expected, "byte {:#04x}", byte);
    }
}

#[test]
fn coordinate_is_big_endian() {
    assert_eq!(coordinate(0x01, 0x2C), 300);
    assert_eq!(coordinate(0x00, 0x64), 100);
    assert_eq!(coordinate(0x00, 0x00), 0);
    assert_eq!(coordinate(0x00, 0xFF), 255);
    assert_eq!(coordinate(0x01, 0x00), 256);
    assert_eq!(coordinate(0xFF, 0xFF), 65535);
    assert_eq!(coordinate(0x12, 0x34), 0x1234);
}

#[test]
fn coordinate_is_high_times_256_plus_low() {
    for high in 0..=255u8 {
        for low in 0..=255u8 {
            assert_eq!(coordinate(high, low), (high as u16) * 256 + (low as u16));
            assert_eq!(coordinate(high, low), ((high as u16) << 8) | (low as u16));
        }
    }
}

#[test]
fn from_frame_decodes_a_release() {
    assert_eq!(
        TouchEvent::from_frame(&[0x88, 0x01, 0x2C, 0x00, 0x64]),
        Some(TouchEvent { direction: Direction::Release, x: 300, y: 100 })
    );
}

#[test]
fn from_frame_decodes_a_press() {
    assert_eq!(
        TouchEvent::from_frame(&[0xC8, 0x00, 0x0A, 0x00, 0x14]),
        Some(TouchEvent { direction: Direction::Press, x: 10, y: 20 })
    );
}

#[test]
fn from_frame_refuses_a_bad_flags_byte() {
    assert_eq!(TouchEvent::from_frame(&[0x00, 0x01, 0x2C, 0x00, 0x64]), None);
    assert_eq!(TouchEvent::from_frame(&[0xBF, 0x01, 0x2C, 0x00, 0x64]), None);
    assert_eq!(TouchEvent::from_frame(&[0x89, 0x01, 0x2C, 0x00, 0x64]), None);
}

#[test]
fn from_frame_takes_the_coordinates_as_they_come() {
    assert_eq!(
        TouchEvent::from_frame(&[0x88, 0xFF, 0xFF, 0xFF, 0xFF]),
        Some(TouchEvent { direction: Direction::Release, x: 65535, y: 65535 })
    );
    assert_eq!(
        TouchEvent::from_frame(&[0xC8, 0x88, 0xC8, 0xC8, 0x88]),
        Some(TouchEvent { direction: Direction::Press, x: 0x88C8, y: 0xC888 })
    );
}
