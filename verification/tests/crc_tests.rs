use sdspi::crc7;
use sdspi::crc7_check;

#[test]
fn crc7_go_idle_vector() {
    // the standard CMD0 reference frame is 40 00 00 00 00 95
    assert_eq!(crc7(&[0x40, 0x00, 0x00, 0x00, 0x00]), 0x95);
}

#[test]
fn crc7_interface_condition_vector() {
    // the standard CMD8 reference frame is 48 00 00 01 AA 87
    assert_eq!(crc7(&[0x48, 0x00, 0x00, 0x01, 0xAA]), 0x87);
}

#[test]
fn crc7_empty_message() {
    // a zero register shifted onto the wire: stop bit only
    assert_eq!(crc7(&[]), 0x01);
}

#[test]
fn crc7_self_check_leaves_zero() {
    let messages: [&[u8]; 5] = [
        &[],
        &[0x40, 0x00, 0x00, 0x00, 0x00],
        &[0x48, 0x00, 0x00, 0x01, 0xAA],
        &[0xFF, 0xFF, 0xFF, 0xFF, 0xFF],
        &[0x12, 0x34, 0x56, 0x78, 0x9A, 0xBC, 0xDE, 0xF0, 0x11],
    ];
    for message in messages {
        let mut frame = message.to_vec();
        frame.push(crc7(message));
        assert_eq!(crc7_check(&frame), 0);
    }
}

#[test]
fn crc7_check_sees_corruption() {
    let mut frame = vec![0x40, 0x00, 0x00, 0x00, 0x00];
    frame.push(crc7(&frame));
    frame[2] ^= 0x04;
    assert_ne!(crc7_check(&frame), 0);
}
