//! Card-oriented transport over a full-duplex serial link.
//!
//! The wire is modelled by two ghost histories on the underlying device: the
//! bytes it has driven out and the bytes it has read back, oldest first.
//! Every operation's contract states exactly which bytes leave on the wire
//! and how the bytes read back are interpreted.

use vstd::prelude::*;

use crate::crc::crc7;
use crate::crc::crc7_residue;
use crate::crc::crc7_spec;
use crate::crc::lemma_crc7_self_check;

verus! {

/// The idle-level fill byte driven during every read exchange.
pub const SENTINEL: u8 = 0xFF;

/// `n` sentinel fill bytes.
pub open spec fn sentinel_bytes(n: nat) -> Seq<u8> {
    Seq::new(n, |i: int| SENTINEL)
}

/// Every sentinel fill byte is `0xFF`, whatever the requested length.
pub proof fn lemma_sentinel_bytes(n: nat)
    ensures
        sentinel_bytes(n).len() == n,
        forall|i: int| 0 <= i < n ==> sentinel_bytes(n)[i] == 0xFF,
{
}

/// The six bytes of a command frame: the start byte with the fixed `0x40`
/// marker, the argument big-endian, and the CRC7 checksum of the first five.
pub open spec fn frame_bytes(command: u8, arg: u32) -> Seq<u8> {
    let payload = seq![
        0x40 | command,
        (arg >> 24) as u8,
        (arg >> 16) as u8,
        (arg >> 8) as u8,
        arg as u8,
    ];
    payload.push(crc7_spec(payload))
}

/// Four bytes read most significant first.
pub open spec fn be_u32(b: Seq<u8>) -> u32
    recommends
        b.len() == 4,
{
    ((b[0] as u32) << 24) | ((b[1] as u32) << 16) | ((b[2] as u32) << 8) | (b[3] as u32)
}

/// Sixteen bytes read most significant first.
pub open spec fn be_u128(b: Seq<u8>) -> u128
    recommends
        b.len() == 16,
{
    ((b[0] as u128) << 120) | ((b[1] as u128) << 112) | ((b[2] as u128) << 104)
        | ((b[3] as u128) << 96) | ((b[4] as u128) << 88) | ((b[5] as u128) << 80)
        | ((b[6] as u128) << 72) | ((b[7] as u128) << 64) | ((b[8] as u128) << 56)
        | ((b[9] as u128) << 48) | ((b[10] as u128) << 40) | ((b[11] as u128) << 32)
        | ((b[12] as u128) << 24) | ((b[13] as u128) << 16) | ((b[14] as u128) << 8)
        | (b[15] as u128)
}


/// The place value of a byte string read most significant first.
pub open spec fn be_value(b: Seq<u8>) -> int
    decreases b.len(),
{
    if b.len() == 0 {
        0
    } else {
        256 * be_value(b.drop_last()) + b.last()
    }
}

proof fn lemma_be_value_take_step(b: Seq<u8>, k: int)
    requires
        0 <= k < b.len(),
    ensures
        be_value(b.take(k + 1)) == 256 * be_value(b.take(k)) + b[k],
{
    assert(b.take(k + 1).drop_last() =~= b.take(k));
}

proof fn lemma_be_value4(b: Seq<u8>)
    requires
        b.len() == 4,
    ensures
        be_value(b) == 256 * (256 * (256 * ((b[0] as int)) + b[1]) + b[2]) + b[3],
{
    assert(b.take(0) =~= Seq::<u8>::empty());
    lemma_be_value_take_step(b, 0);
    lemma_be_value_take_step(b, 1);
    lemma_be_value_take_step(b, 2);
    lemma_be_value_take_step(b, 3);
    assert(b.take(4) =~= b);
}

proof fn lemma_be_value16(b: Seq<u8>)
    requires
        b.len() == 16,
    ensures
        be_value(b) == 256 * (256 * (256 * (256 * (256 * (256 * (256 * (256 * (256 * (256 * (256 * (256 * (256 * (256 * (256 * ((b[0] as int)) + b[1]) + b[2]) + b[3]) + b[4]) + b[5]) + b[6]) + b[7]) + b[8]) + b[9]) + b[10]) + b[11]) + b[12]) + b[13]) + b[14]) + b[15],
{
    assert(b.take(0) =~= Seq::<u8>::empty());
    lemma_be_value_take_step(b, 0);
    lemma_be_value_take_step(b, 1);
    lemma_be_value_take_step(b, 2);
    lemma_be_value_take_step(b, 3);
    lemma_be_value_take_step(b, 4);
    lemma_be_value_take_step(b, 5);
    lemma_be_value_take_step(b, 6);
    lemma_be_value_take_step(b, 7);
    lemma_be_value_take_step(b, 8);
    lemma_be_value_take_step(b, 9);
    lemma_be_value_take_step(b, 10);
    lemma_be_value_take_step(b, 11);
    lemma_be_value_take_step(b, 12);
    lemma_be_value_take_step(b, 13);
    lemma_be_value_take_step(b, 14);
    lemma_be_value_take_step(b, 15);
    assert(b.take(16) =~= b);
}

/// A four-byte big-endian read is the base-256 value of its bytes.
pub proof fn lemma_be_u32_value(b: Seq<u8>)
    requires
        b.len() == 4,
    ensures
        be_u32(b) as int == be_value(b),
{
    lemma_be_value4(b);
    let x0 = b[0];
    let x1 = b[1];
    let x2 = b[2];
    let x3 = b[3];
    assert((((x0 as u32) << 24) | ((x1 as u32) << 16) | ((x2 as u32) << 8) | (x3 as u32)) as int == 256 * (256 * (256 * (x0 as int) + x1) + x2) + x3) by (bit_vector);
}

/// A sixteen-byte big-endian read is the base-256 value of its bytes.
pub proof fn lemma_be_u128_value(b: Seq<u8>)
    requires
        b.len() == 16,
    ensures
        be_u128(b) as int == be_value(b),
{
    lemma_be_value16(b);
    let x0 = b[0];
    let x1 = b[1];
    let x2 = b[2];
    let x3 = b[3];
    let x4 = b[4];
    let x5 = b[5];
    let x6 = b[6];
    let x7 = b[7];
    let x8 = b[8];
    let x9 = b[9];
    let x10 = b[10];
    let x11 = b[11];
    let x12 = b[12];
    let x13 = b[13];
    let x14 = b[14];
    let x15 = b[15];
    assert((((x0 as u128) << 120) | ((x1 as u128) << 112) | ((x2 as u128) << 104) | ((x3 as u128) << 96) | ((x4 as u128) << 88) | ((x5 as u128) << 80) | ((x6 as u128) << 72) | ((x7 as u128) << 64) | ((x8 as u128) << 56) | ((x9 as u128) << 48) | ((x10 as u128) << 40) | ((x11 as u128) << 32) | ((x12 as u128) << 24) | ((x13 as u128) << 16) | ((x14 as u128) << 8) | (x15 as u128)) as int == 256 * (256 * (256 * (256 * (256 * (256 * (256 * (256 * (256 * (256 * (256 * (256 * (256 * (256 * (256 * ((x0 as int)) + x1) + x2) + x3) + x4) + x5) + x6) + x7) + x8) + x9) + x10) + x11) + x12) + x13) + x14) + x15) by (bit_vector);
}

/// The command frame, for every command index and argument: six bytes; the
/// start byte is the fixed `0x40` marker over the six index bits; the
/// argument stands big-endian in bytes 1..5; the final byte is the CRC7 of
/// the first five, so the whole frame passes the reference decoder with a
/// zero remainder.
pub proof fn lemma_command_frame(command: u8, arg: u32)
    requires
        command < 64,
    ensures
        frame_bytes(command, arg).len() == 6,
        frame_bytes(command, arg)[0] == 0x40 | (command & 0x3f),
        be_value(frame_bytes(command, arg).subrange(1, 5)) == arg as int,
        frame_bytes(command, arg)[5] == crc7_spec(frame_bytes(command, arg).take(5)),
        crc7_residue(frame_bytes(command, arg)) == 0,
{
    let frame = frame_bytes(command, arg);
    let payload = seq![
        0x40 | command,
        (arg >> 24) as u8,
        (arg >> 16) as u8,
        (arg >> 8) as u8,
        arg as u8,
    ];
    assert(frame.take(5) =~= payload);
    assert((0x40 | command) == (0x40 | (command & 0x3f))) by (bit_vector)
        requires command < 64;
    let b = frame.subrange(1, 5);
    assert(b =~= seq![(arg >> 24) as u8, (arg >> 16) as u8, (arg >> 8) as u8, arg as u8]);
    lemma_be_value4(b);
    assert(256 * (256 * (256 * ((((arg >> 24) as u8) as int)) + ((arg >> 16) as u8)) + ((arg >> 8) as u8)) + (arg as u8) == arg) by (bit_vector);
    lemma_crc7_self_check(payload);
    assert(frame =~= payload.push(crc7_spec(payload)));
}

/// A synchronous full-duplex byte-exchange device: it always drives a byte
/// while reading one.  The two ghost histories record every byte driven out
/// and every byte captured, oldest first; a failed call leaves both as they
/// were.  Library users implement this for their own links; `ScriptedSpi`
/// is the crate's own realization.
pub trait SpiDevice {
    /// Error reported by the link when an exchange fails.
    type Error;

    /// Every byte this device has driven onto the wire, oldest first.  The
    /// default stands only so that unverified realizations need not name a
    /// ghost history; verified realizations supply their own.
    open spec fn written(&self) -> Seq<u8> {
        Seq::empty()
    }

    /// Every byte this device has read back from the wire, oldest first.
    open spec fn received(&self) -> Seq<u8> {
        Seq::empty()
    }

    /// Drive `data` while capturing one byte per driven byte into `read`.
    fn transfer(&mut self, read: &mut Vec<u8>, data: &[u8]) -> (r: Result<(), Self::Error>)
        requires
            old(read)@.len() == data@.len(),
        ensures
            r is Ok ==> final(self).written() == old(self).written() + data@,
            r is Ok ==> final(read)@.len() == data@.len(),
            r is Ok ==> final(self).received() == old(self).received() + final(read)@,
            r is Err ==> final(self).written() == old(self).written()
                && final(self).received() == old(self).received()
                && final(read)@ == old(read)@,
    ;

    /// Drive `data`; whatever the card answers is not captured.
    fn send(&mut self, data: &[u8]) -> (r: Result<(), Self::Error>)
        ensures
            r is Ok ==> final(self).written() == old(self).written() + data@,
            r is Ok ==> final(self).received() == old(self).received(),
            r is Err ==> final(self).written() == old(self).written()
                && final(self).received() == old(self).received(),
    ;

    /// Drive the current contents of `words` while overwriting it, byte by
    /// byte, with what is read back.
    fn transfer_in_place(&mut self, words: &mut Vec<u8>) -> (r: Result<(), Self::Error>)
        ensures
            r is Ok ==> final(self).written() == old(self).written() + old(words)@,
            r is Ok ==> final(words)@.len() == old(words)@.len(),
            r is Ok ==> final(self).received() == old(self).received() + final(words)@,
            r is Err ==> final(self).written() == old(self).written()
                && final(self).received() == old(self).received()
                && final(words)@ == old(words)@,
    ;
}

/// Abstract SD card transportation interface.  The contracts are stated over
/// the same two wire histories as `SpiDevice`: which bytes each operation
/// drives out, and what it makes of the bytes read back.
pub trait Transport {
    /// Transport error type.
    type Error;

    /// Every byte driven onto the wire so far, oldest first.
    spec fn written(&self) -> Seq<u8>;

    /// Every byte read back from the wire so far, oldest first.
    spec fn received(&self) -> Seq<u8>;

    /// Write command and argument to the card as one six-byte frame.
    fn write_card_command(&mut self, command: u8, arg: u32) -> (r: Result<(), Self::Error>)
        ensures
            r is Ok ==> final(self).written() == old(self).written() + frame_bytes(command, arg),
            r is Ok ==> final(self).received() == old(self).received(),
            r is Err ==> final(self).written() == old(self).written()
                && final(self).received() == old(self).received(),
    ;

    /// Read a one-byte card response: exchange one sentinel byte and return
    /// what the card drives back.
    fn read_card_response_u8(&mut self) -> (r: Result<u8, Self::Error>)
        ensures
            r is Ok ==> final(self).written() == old(self).written() + sentinel_bytes(1),
            r is Ok ==> final(self).received() == old(self).received().push(r->Ok_0),
            r is Err ==> final(self).written() == old(self).written()
                && final(self).received() == old(self).received(),
    ;

    /// Read a four-byte card response, interpreted big-endian.
    fn read_card_response_u32(&mut self) -> (r: Result<u32, Self::Error>)
        ensures
            r is Ok ==> {
                &&& final(self).written() == old(self).written() + sentinel_bytes(4)
                &&& final(self).received().len() == old(self).received().len() + 4
                &&& final(self).received().take(old(self).received().len() as int)
                    == old(self).received()
                &&& r->Ok_0 == be_u32(
                    final(self).received().skip(old(self).received().len() as int))
            },
            r is Err ==> final(self).written() == old(self).written()
                && final(self).received() == old(self).received(),
    ;

    /// Read a sixteen-byte card response, interpreted big-endian.
    fn read_card_response_u128(&mut self) -> (r: Result<u128, Self::Error>)
        ensures
            r is Ok ==> {
                &&& final(self).written() == old(self).written() + sentinel_bytes(16)
                &&& final(self).received().len() == old(self).received().len() + 16
                &&& final(self).received().take(old(self).received().len() as int)
                    == old(self).received()
                &&& r->Ok_0 == be_u128(
                    final(self).received().skip(old(self).received().len() as int))
            },
            r is Err ==> final(self).written() == old(self).written()
                && final(self).received() == old(self).received(),
    ;

    /// Write a data buffer to the card verbatim; no response is read.
    fn write_data(&mut self, buf: &[u8]) -> (r: Result<(), Self::Error>)
        ensures
            r is Ok ==> final(self).written() == old(self).written() + buf@,
            r is Ok ==> final(self).received() == old(self).received(),
            r is Err ==> final(self).written() == old(self).written()
                && final(self).received() == old(self).received(),
    ;

    /// Fill `buf` with the card's bytes by exchanging one sentinel byte per
    /// byte of `buf`; the buffer's initial contents are discarded.
    fn read_data(&mut self, buf: &mut Vec<u8>) -> (r: Result<(), Self::Error>)
        ensures
            r is Ok ==> {
                &&& final(self).written() == old(self).written()
                    + sentinel_bytes(old(buf)@.len())
                &&& final(buf)@.len() == old(buf)@.len()
                &&& final(self).received() == old(self).received() + final(buf)@
            },
            r is Err ==> final(self).written() == old(self).written()
                && final(self).received() == old(self).received()
                && final(buf)@ == sentinel_bytes(old(buf)@.len()),
    ;

    /// Drive 255 sentinel exchanges to let the card settle, ignoring every
    /// byte read back.
    fn flush_card(&mut self) -> (r: Result<(), Self::Error>)
        ensures
            r is Ok ==> {
                &&& final(self).written() == old(self).written() + sentinel_bytes(255)
                &&& final(self).received().len() == old(self).received().len() + 255
                &&& final(self).received().take(old(self).received().len() as int)
                    == old(self).received()
            },
            r is Err ==> exists|k: nat| {
                &&& k < 255
                &&& final(self).written() == old(self).written() + sentinel_bytes(k)
                &&& final(self).received().len() == old(self).received().len() + k
                &&& final(self).received().take(old(self).received().len() as int)
                    == old(self).received()
            },
    ;

    /// Sample one byte: the card is busy unless it drives the idle level.
    fn is_busy(&mut self) -> (r: Result<bool, Self::Error>)
        ensures
            r is Ok ==> {
                &&& final(self).written() == old(self).written() + sentinel_bytes(1)
                &&& final(self).received().len() == old(self).received().len() + 1
                &&& final(self).received().take(old(self).received().len() as int)
                    == old(self).received()
                &&& (r->Ok_0 <==> final(self).received().last() != 0xFF)
            },
            r is Err ==> final(self).written() == old(self).written()
                && final(self).received() == old(self).received(),
    ;
}

/// SPI as an abstract SD card transportation.
pub struct SpiTransport<SPI> {
    spi: SPI,
}

impl<SPI: SpiDevice> SpiTransport<SPI> {
    /// The wrapped device.
    pub closed spec fn device(&self) -> SPI {
        self.spi
    }

    /// Create a new SD/MMC transportation interface from an owned serial
    /// device.
    pub fn new(spi: SPI) -> (r: Self)
        ensures
            r.device() == spi,
    {
        SpiTransport { spi }
    }

    /// Get a temporary borrow on the underlying SPI device, e.g. to
    /// reconfigure the link.
    pub fn spi(&mut self) -> (r: &mut SPI)
        ensures
            *r == old(self).device(),
            final(self).device() == *final(r),
    {
        &mut self.spi
    }

    /// Release the underlying SPI and free the interface.
    pub fn free(self) -> (r: SPI)
        ensures
            r == self.device(),
    {
        self.spi
    }

    /// Send one byte and receive one byte from the card.
    fn transfer_byte(&mut self, byte: u8) -> (r: Result<u8, SPI::Error>)
        ensures
            r is Ok ==> final(self).device().written()
                == old(self).device().written().push(byte),
            r is Ok ==> final(self).device().received()
                == old(self).device().received().push(r->Ok_0),
            r is Err ==> final(self).device().written() == old(self).device().written()
                && final(self).device().received() == old(self).device().received(),
    {
        let ghost pre_w = self.device().written();
        let ghost pre_r = self.device().received();
        let mut read_buf: Vec<u8> = Vec::new();
        read_buf.push(0);
        let mut data: Vec<u8> = Vec::new();
        data.push(byte);
        match self.spi.transfer(&mut read_buf, data.as_slice()) {
            Ok(()) => {
                let b = read_buf[0];
                proof {
                    assert(pre_w + data@ =~= pre_w.push(byte));
                    assert(read_buf@ =~= seq![b]);
                    assert(pre_r + read_buf@ =~= pre_r.push(b));
                }
                Ok(b)
            },
            Err(e) => Err(e),
        }
    }
}

impl<SPI: SpiDevice> Transport for SpiTransport<SPI> {
    type Error = SPI::Error;

    open spec fn written(&self) -> Seq<u8> {
        self.device().written()
    }

    open spec fn received(&self) -> Seq<u8> {
        self.device().received()
    }

    fn write_card_command(&mut self, command: u8, arg: u32) -> (r: Result<(), Self::Error>) {
        let mut buf: Vec<u8> = Vec::new();
        buf.push(0x40 | command);
        buf.push((arg >> 24) as u8);
        buf.push((arg >> 16) as u8);
        buf.push((arg >> 8) as u8);
        buf.push(arg as u8);
        proof {
            assert(buf@ =~= seq![
                0x40 | command,
                (arg >> 24) as u8,
                (arg >> 16) as u8,
                (arg >> 8) as u8,
                arg as u8,
            ]);
        }
        let check = crc7(buf.as_slice());
        buf.push(check);
        proof {
            assert(buf@ =~= frame_bytes(command, arg));
        }
        self.spi.send(buf.as_slice())
    }

    fn read_card_response_u8(&mut self) -> (r: Result<u8, Self::Error>) {
        let ghost pre_w = self.device().written();
        match self.transfer_byte(SENTINEL) {
            Ok(b) => {
                proof {
                    assert(pre_w + sentinel_bytes(1) =~= pre_w.push(SENTINEL));
                }
                Ok(b)
            },
            Err(e) => Err(e),
        }
    }

    fn read_card_response_u32(&mut self) -> (r: Result<u32, Self::Error>) {
        let ghost pre_r = self.device().received();
        let mut read_buf: Vec<u8> = Vec::new();
        let mut fill: Vec<u8> = Vec::new();
        let mut i: usize = 0;
        while i < 4
            invariant
                read_buf@.len() == i,
                fill@ == sentinel_bytes(i as nat),
                i <= 4,
            decreases 4 - i,
        {
            read_buf.push(0);
            fill.push(SENTINEL);
            proof {
                assert(fill@ =~= sentinel_bytes((i + 1) as nat));
            }
            i += 1;
        }
        match self.spi.transfer(&mut read_buf, fill.as_slice()) {
            Ok(()) => {
                let b0 = read_buf[0];
                let b1 = read_buf[1];
                let b2 = read_buf[2];
                let b3 = read_buf[3];
                let v = ((b0 as u32) << 24) | ((b1 as u32) << 16) | ((b2 as u32) << 8)
                    | (b3 as u32);
                proof {
                    assert((pre_r + read_buf@).take(pre_r.len() as int) =~= pre_r);
                    assert((pre_r + read_buf@).skip(pre_r.len() as int) =~= read_buf@);
                    assert(fill@ =~= sentinel_bytes(4));
                }
                Ok(v)
            },
            Err(e) => Err(e),
        }
    }

    fn read_card_response_u128(&mut self) -> (r: Result<u128, Self::Error>) {
        let ghost pre_r = self.device().received();
        let mut read_buf: Vec<u8> = Vec::new();
        let mut fill: Vec<u8> = Vec::new();
        let mut i: usize = 0;
        while i < 16
            invariant
                read_buf@.len() == i,
                fill@ == sentinel_bytes(i as nat),
                i <= 16,
            decreases 16 - i,
        {
            read_buf.push(0);
            fill.push(SENTINEL);
            proof {
                assert(fill@ =~= sentinel_bytes((i + 1) as nat));
            }
            i += 1;
        }
        match self.spi.transfer(&mut read_buf, fill.as_slice()) {
            Ok(()) => {
                let v = ((read_buf[0] as u128) << 120) | ((read_buf[1] as u128) << 112)
                    | ((read_buf[2] as u128) << 104) | ((read_buf[3] as u128) << 96)
                    | ((read_buf[4] as u128) << 88) | ((read_buf[5] as u128) << 80)
                    | ((read_buf[6] as u128) << 72) | ((read_buf[7] as u128) << 64)
                    | ((read_buf[8] as u128) << 56) | ((read_buf[9] as u128) << 48)
                    | ((read_buf[10] as u128) << 40) | ((read_buf[11] as u128) << 32)
                    | ((read_buf[12] as u128) << 24) | ((read_buf[13] as u128) << 16)
                    | ((read_buf[14] as u128) << 8) | (read_buf[15] as u128);
                proof {
                    assert((pre_r + read_buf@).take(pre_r.len() as int) =~= pre_r);
                    assert((pre_r + read_buf@).skip(pre_r.len() as int) =~= read_buf@);
                    assert(fill@ =~= sentinel_bytes(16));
                }
                Ok(v)
            },
            Err(e) => Err(e),
        }
    }

    fn write_data(&mut self, buf: &[u8]) -> (r: Result<(), Self::Error>) {
        self.spi.send(buf)
    }

    fn read_data(&mut self, buf: &mut Vec<u8>) -> (r: Result<(), Self::Error>) {
        let n = buf.len();
        let mut fill: Vec<u8> = Vec::new();
        let mut i: usize = 0;
        while i < n
            invariant
                fill@ == sentinel_bytes(i as nat),
                i <= n,
            decreases n - i,
        {
            fill.push(SENTINEL);
            proof {
                assert(fill@ =~= sentinel_bytes((i + 1) as nat));
            }
            i += 1;
        }
        *buf = fill;
        self.spi.transfer_in_place(buf)
    }

    #[verifier::loop_isolation(false)]
    fn flush_card(&mut self) -> (r: Result<(), Self::Error>) {
        let ghost pre_written = self.device().written();
        let ghost pre_received = self.device().received();
        let mut i: usize = 0;
        while i < 255
            invariant
                i <= 255,
                self.device().written() == pre_written + sentinel_bytes(i as nat),
                self.device().received().len() == pre_received.len() + i,
                self.device().received().take(pre_received.len() as int) == pre_received,
            decreases 255 - i,
        {
            let ghost cur_received = self.device().received();
            match self.transfer_byte(SENTINEL) {
                Ok(_) => {},
                Err(e) => {
                    proof {
                        let k = i as nat;
                        assert(k < 255
                            && self.written() == pre_written + sentinel_bytes(k)
                            && self.received().len() == pre_received.len() + k
                            && self.received().take(pre_received.len() as int)
                                == pre_received);
                        assert(exists|k: nat| {
                            &&& k < 255
                            &&& self.written() == pre_written + sentinel_bytes(k)
                            &&& self.received().len() == pre_received.len() + k
                            &&& self.received().take(pre_received.len() as int)
                                == pre_received
                        });
                    }
                    return Err(e);
                },
            }
            proof {
                assert((pre_written + sentinel_bytes(i as nat)).push(SENTINEL)
                    =~= pre_written + sentinel_bytes((i + 1) as nat));
                assert(cur_received.push(self.device().received().last())
                    .take(pre_received.len() as int) =~= pre_received);
            }
            i += 1;
        }
        Ok(())
    }

    fn is_busy(&mut self) -> (r: Result<bool, Self::Error>) {
        let ghost pre_w = self.device().written();
        let ghost pre_r = self.device().received();
        match self.transfer_byte(SENTINEL) {
            Ok(b) => {
                proof {
                    assert(pre_w + sentinel_bytes(1) =~= pre_w.push(SENTINEL));
                    assert(self.device().received().take(pre_r.len() as int) =~= pre_r);
                }
                Ok(b != SENTINEL)
            },
            Err(e) => Err(e),
        }
    }
}

} // verus!
