use sdspi::crc7;
use sdspi::crc7_check;
use sdspi::LinkFault;
use sdspi::ScriptedSpi;
use sdspi::SpiTransport;
use sdspi::Transport;

fn transport(responses: Vec<u8>) -> SpiTransport<ScriptedSpi> {
    SpiTransport::new(ScriptedSpi::new(responses))
}

#[test]
fn command_frame_go_idle() {
    let mut t = transport(vec![]);
    assert_eq!(t.write_card_command(0, 0), Ok(()));
    let spi = t.free();
    assert_eq!(spi.log().as_slice(), &[0x40, 0x00, 0x00, 0x00, 0x00, 0x95]);
}

#[test]
fn command_frame_interface_condition() {
    let mut t = transport(vec![]);
    assert_eq!(t.write_card_command(8, 0x1AA), Ok(()));
    let spi = t.free();
    assert_eq!(spi.log().as_slice(), &[0x48, 0x00, 0x00, 0x01, 0xAA, 0x87]);
}

#[test]
fn command_frame_big_endian_argument() {
    let mut t = transport(vec![]);
    assert_eq!(t.write_card_command(17, 0x12345678), Ok(()));
    let spi = t.free();
    let frame = spi.log();
    assert_eq!(frame.len(), 6);
    assert_eq!(&frame[0..5], &[0x51, 0x12, 0x34, 0x56, 0x78]);
    assert_eq!(frame[5], crc7(&frame[0..5]));
    assert_eq!(crc7_check(frame), 0);
}

#[test]
fn command_frames_accumulate() {
    let mut t = transport(vec![]);
    assert_eq!(t.write_card_command(0, 0), Ok(()));
    assert_eq!(t.write_card_command(8, 0x1AA), Ok(()));
    let spi = t.free();
    assert_eq!(
        spi.log().as_slice(),
        &[0x40, 0x00, 0x00, 0x00, 0x00, 0x95, 0x48, 0x00, 0x00, 0x01, 0xAA, 0x87],
    );
}

#[test]
fn read_response_u8_returns_card_byte() {
    let mut t = transport(vec![0x05]);
    assert_eq!(t.read_card_response_u8(), Ok(0x05));
    let spi = t.free();
    assert_eq!(spi.log().as_slice(), &[0xFF]);
    assert_eq!(spi.handed().as_slice(), &[0x05]);
}

#[test]
fn read_response_u32_is_big_endian() {
    let mut t = transport(vec![0x00, 0x00, 0x01, 0x00]);
    assert_eq!(t.read_card_response_u32(), Ok(256));
    let spi = t.free();
    assert_eq!(spi.log().as_slice(), &[0xFF, 0xFF, 0xFF, 0xFF]);
}

#[test]
fn read_response_u32_value() {
    let mut t = transport(vec![0xDE, 0xAD, 0xBE, 0xEF]);
    assert_eq!(t.read_card_response_u32(), Ok(0xDEADBEEF));
}

#[test]
fn read_response_u128_is_big_endian() {
    let bytes: Vec<u8> = (0u8..16).collect();
    let mut t = transport(bytes);
    assert_eq!(t.read_card_response_u128(), Ok(0x000102030405060708090A0B0C0D0E0Fu128));
    let spi = t.free();
    assert_eq!(spi.log().as_slice(), &[0xFF; 16]);
}

#[test]
fn read_response_u32_pads_with_idle_bytes() {
    // a short script: the card leaves the bus idle for the tail bytes
    let mut t = transport(vec![0xAB]);
    assert_eq!(t.read_card_response_u32(), Ok(0xABFFFFFF));
}

#[test]
fn write_data_verbatim() {
    let mut t = transport(vec![]);
    assert_eq!(t.write_data(&[0xA5, 0x5A, 0x07]), Ok(()));
    let spi = t.free();
    assert_eq!(spi.log().as_slice(), &[0xA5, 0x5A, 0x07]);
    assert_eq!(spi.handed().len(), 0);
}

#[test]
fn read_data_fills_buffer_and_drives_sentinels() {
    let mut t = transport(vec![9, 8, 7]);
    let mut buf = vec![0x12, 0x12, 0x12, 0x12, 0x12];
    assert_eq!(t.read_data(&mut buf), Ok(()));
    assert_eq!(buf.as_slice(), &[9, 8, 7, 0xFF, 0xFF]);
    let spi = t.free();
    assert_eq!(spi.log().as_slice(), &[0xFF; 5]);
}

#[test]
fn read_data_empty_buffer() {
    let mut t = transport(vec![]);
    let mut buf: Vec<u8> = vec![];
    assert_eq!(t.read_data(&mut buf), Ok(()));
    assert_eq!(buf.len(), 0);
    assert_eq!(t.free().log().len(), 0);
}

#[test]
fn flush_card_drives_255_sentinels() {
    let mut t = transport(vec![]);
    assert_eq!(t.flush_card(), Ok(()));
    let spi = t.free();
    assert_eq!(spi.log().len(), 255);
    assert!(spi.log().iter().all(|&b| b == 0xFF));
}

#[test]
fn is_busy_only_idle_byte_means_free() {
    for (byte, busy) in [(0x00u8, true), (0x01, true), (0xFE, true), (0xFF, false)] {
        let mut t = transport(vec![byte]);
        assert_eq!(t.is_busy(), Ok(busy));
        let spi = t.free();
        assert_eq!(spi.log().as_slice(), &[0xFF]);
    }
}

#[test]
fn is_busy_idle_script_means_free() {
    let mut t = transport(vec![]);
    assert_eq!(t.is_busy(), Ok(false));
}

#[test]
fn failed_command_write_propagates_error() {
    let mut t = SpiTransport::new(ScriptedSpi::failing_after(vec![], 0));
    assert_eq!(t.write_card_command(0, 0), Err(LinkFault));
    assert_eq!(t.free().log().len(), 0);
}

#[test]
fn failed_read_propagates_error() {
    let mut t = SpiTransport::new(ScriptedSpi::failing_after(vec![0xAA, 0xBB], 2));
    assert_eq!(t.read_card_response_u32(), Err(LinkFault));
    let spi = t.free();
    assert_eq!(spi.log().len(), 0);
    assert_eq!(spi.handed().len(), 0);
}

#[test]
fn failed_flush_stops_at_the_faulting_exchange() {
    let mut t = SpiTransport::new(ScriptedSpi::failing_after(vec![], 10));
    assert_eq!(t.flush_card(), Err(LinkFault));
    let spi = t.free();
    assert_eq!(spi.log().as_slice(), &[0xFF; 10]);
}

#[test]
fn failed_read_data_leaves_sentinel_fill() {
    let mut t = SpiTransport::new(ScriptedSpi::failing_after(vec![], 3));
    let mut buf = vec![1, 2, 3, 4, 5, 6, 7, 8];
    assert_eq!(t.read_data(&mut buf), Err(LinkFault));
    assert_eq!(buf.as_slice(), &[0xFF; 8]);
    assert_eq!(t.free().log().len(), 0);
}

#[test]
fn failed_busy_sample_propagates_error() {
    let mut t = SpiTransport::new(ScriptedSpi::failing_after(vec![], 0));
    assert_eq!(t.is_busy(), Err(LinkFault));
    assert_eq!(t.read_card_response_u8(), Err(LinkFault));
}

#[test]
fn error_budget_allows_earlier_exchanges() {
    let mut t = SpiTransport::new(ScriptedSpi::failing_after(vec![0x3C], 1));
    assert_eq!(t.read_card_response_u8(), Ok(0x3C));
    assert_eq!(t.read_card_response_u8(), Err(LinkFault));
    assert_eq!(t.free().log().as_slice(), &[0xFF]);
}

#[test]
fn spi_accessor_borrows_underlying_device() {
    let mut t = transport(vec![]);
    assert_eq!(t.write_card_command(0, 0), Ok(()));
    assert_eq!(t.spi().log().len(), 6);
    assert_eq!(t.write_card_command(0, 0), Ok(()));
    assert_eq!(t.free().log().len(), 12);
}

#[test]
fn free_returns_the_device() {
    let spi = ScriptedSpi::new(vec![0x42]);
    let mut t = SpiTransport::new(spi);
    assert_eq!(t.read_card_response_u8(), Ok(0x42));
    let back = t.free();
    assert_eq!(back.handed().as_slice(), &[0x42]);
}
