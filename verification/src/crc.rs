//! The 7-bit cyclic redundancy check that terminates a command frame.
//!
//! The generator polynomial is x^7 + x^3 + 1 with initial value zero; the
//! message is consumed byte by byte, most significant bit first.  On the wire
//! the 7-bit remainder occupies bits 7..1 of the final frame byte and bit 0
//! is the stop bit, always one.

use vstd::prelude::*;

verus! {

/// One step of the CRC7 feedback register: shift in one message bit.  The
/// register holds the running remainder in its low seven bits.
pub open spec fn crc7_step(state: u8, bit: bool) -> u8 {
    if ((state & 0x40) != 0) != bit {
        ((state << 1) ^ 0x09) & 0x7f
    } else {
        (state << 1) & 0x7f
    }
}

/// The register after consuming a sequence of bits, oldest first.
pub open spec fn crc7_run(state: u8, bits: Seq<bool>) -> u8
    decreases bits.len(),
{
    if bits.len() == 0 {
        state
    } else {
        crc7_step(crc7_run(state, bits.drop_last()), bits.last())
    }
}

/// The eight bits of one byte, most significant first.
pub open spec fn byte_bits(b: u8) -> Seq<bool> {
    Seq::new(8, |i: int| ((b >> ((7 - i) as u8)) & 1) == 1)
}

/// The CRC7 register after consuming every bit of `s`, starting from zero.
pub open spec fn crc7_state(s: Seq<u8>) -> u8
    decreases s.len(),
{
    if s.len() == 0 {
        0
    } else {
        crc7_run(crc7_state(s.drop_last()), byte_bits(s.last()))
    }
}

/// The checksum byte as it stands on the wire: the 7-bit remainder of `s` in
/// bits 7..1 and the stop bit, always one, in bit 0.
pub open spec fn crc7_spec(s: Seq<u8>) -> u8 {
    (crc7_state(s) << 1) | 1
}

/// The seven checksum bits of a wire byte, most significant first: bits
/// 7..1.  Bit 0 is the stop bit and carries no checksum information.
pub open spec fn checksum_bits(w: u8) -> Seq<bool> {
    Seq::new(7, |i: int| ((w >> ((7 - i) as u8)) & 1) == 1)
}

/// Remainder a reference decoder is left with after consuming a framed
/// message: every byte of `frame` but the last, then the seven checksum
/// bits of the last byte.
pub open spec fn crc7_residue(frame: Seq<u8>) -> u8
    recommends
        frame.len() >= 1,
{
    crc7_run(crc7_state(frame.drop_last()), checksum_bits(frame.last()))
}

proof fn lemma_step_bound(state: u8, bit: bool)
    ensures
        crc7_step(state, bit) < 128,
{
    assert(((state << 1) ^ 0x09) & 0x7f < 128) by (bit_vector);
    assert((state << 1) & 0x7f < 128) by (bit_vector);
}

/// Unfolds one step of `crc7_run` over a prefix of `bits`.
proof fn lemma_run_take_step(state: u8, bits: Seq<bool>, k: int)
    requires
        0 <= k < bits.len(),
    ensures
        crc7_run(state, bits.take(k + 1)) == crc7_step(crc7_run(state, bits.take(k)), bits[k]),
{
    assert(bits.take(k + 1).drop_last() =~= bits.take(k));
}

/// Unfolds one step of `crc7_state` over a prefix of `s`.
proof fn lemma_state_take_step(s: Seq<u8>, k: int)
    requires
        0 <= k < s.len(),
    ensures
        crc7_state(s.take(k + 1)) == crc7_run(crc7_state(s.take(k)), byte_bits(s[k])),
{
    assert(s.take(k + 1).drop_last() =~= s.take(k));
}

proof fn lemma_run_bound(state: u8, bits: Seq<bool>)
    requires
        state < 128,
    ensures
        crc7_run(state, bits) < 128,
    decreases bits.len(),
{
    if bits.len() == 0 {
    } else {
        lemma_run_bound(state, bits.drop_last());
        lemma_step_bound(crc7_run(state, bits.drop_last()), bits.last());
    }
}

proof fn lemma_state_bound(s: Seq<u8>)
    ensures
        crc7_state(s) < 128,
    decreases s.len(),
{
    if s.len() == 0 {
    } else {
        lemma_state_bound(s.drop_last());
        lemma_run_bound(crc7_state(s.drop_last()), byte_bits(s.last()));
    }
}

/// Feeding a 7-bit remainder's own bits back into a register that holds that
/// remainder shifts the register out to zero: no feedback ever fires.
proof fn lemma_shift_out(r: u8)
    requires
        r < 128,
    ensures
        crc7_run(r, checksum_bits((r << 1) | 1)) == 0,
{
    let w = (r << 1) | 1;
    let bits = checksum_bits(w);
    assert(bits.take(0) =~= Seq::<bool>::empty());
    assert(crc7_run(r, bits.take(0)) == r);

    let s1 = (r << 1) & 0x7f;
    assert(bits[0] == (((w >> 7) & 1) == 1));
    assert((((w >> 7) & 1) == 1) == ((r & 0x40) != 0)) by (bit_vector)
        requires w == (r << 1) | 1;
    lemma_run_take_step(r, bits, 0);
    assert(crc7_run(r, bits.take(1)) == crc7_step(r, bits[0]));
    assert(crc7_step(r, bits[0]) == s1);

    let s2 = (r << 2) & 0x7f;
    assert(bits[1] == (((w >> 6) & 1) == 1));
    assert((((w >> 6) & 1) == 1) == ((((r << 1) & 0x7f) & 0x40) != 0)) by (bit_vector)
        requires w == (r << 1) | 1;
    assert(((((r << 1) & 0x7f) << 1) & 0x7f) == ((r << 2) & 0x7f)) by (bit_vector);
    lemma_run_take_step(r, bits, 1);
    assert(crc7_run(r, bits.take(2)) == s2);

    let s3 = (r << 3) & 0x7f;
    assert(bits[2] == (((w >> 5) & 1) == 1));
    assert((((w >> 5) & 1) == 1) == ((((r << 2) & 0x7f) & 0x40) != 0)) by (bit_vector)
        requires w == (r << 1) | 1;
    assert(((((r << 2) & 0x7f) << 1) & 0x7f) == ((r << 3) & 0x7f)) by (bit_vector);
    lemma_run_take_step(r, bits, 2);
    assert(crc7_run(r, bits.take(3)) == s3);

    let s4 = (r << 4) & 0x7f;
    assert(bits[3] == (((w >> 4) & 1) == 1));
    assert((((w >> 4) & 1) == 1) == ((((r << 3) & 0x7f) & 0x40) != 0)) by (bit_vector)
        requires w == (r << 1) | 1;
    assert(((((r << 3) & 0x7f) << 1) & 0x7f) == ((r << 4) & 0x7f)) by (bit_vector);
    lemma_run_take_step(r, bits, 3);
    assert(crc7_run(r, bits.take(4)) == s4);

    let s5 = (r << 5) & 0x7f;
    assert(bits[4] == (((w >> 3) & 1) == 1));
    assert((((w >> 3) & 1) == 1) == ((((r << 4) & 0x7f) & 0x40) != 0)) by (bit_vector)
        requires w == (r << 1) | 1;
    assert(((((r << 4) & 0x7f) << 1) & 0x7f) == ((r << 5) & 0x7f)) by (bit_vector);
    lemma_run_take_step(r, bits, 4);
    assert(crc7_run(r, bits.take(5)) == s5);

    let s6 = (r << 6) & 0x7f;
    assert(bits[5] == (((w >> 2) & 1) == 1));
    assert((((w >> 2) & 1) == 1) == ((((r << 5) & 0x7f) & 0x40) != 0)) by (bit_vector)
        requires w == (r << 1) | 1;
    assert(((((r << 5) & 0x7f) << 1) & 0x7f) == ((r << 6) & 0x7f)) by (bit_vector);
    lemma_run_take_step(r, bits, 5);
    assert(crc7_run(r, bits.take(6)) == s6);

    assert(bits[6] == (((w >> 1) & 1) == 1));
    assert((((w >> 1) & 1) == 1) == ((((r << 6) & 0x7f) & 0x40) != 0)) by (bit_vector)
        requires w == (r << 1) | 1;
    assert(((((r << 6) & 0x7f) << 1) & 0x7f) == 0) by (bit_vector);
    lemma_run_take_step(r, bits, 6);
    assert(crc7_run(r, bits.take(7)) == 0);

    assert(bits.take(7) =~= bits);
}

/// The CRC7 self-check: appending the produced checksum byte to any message
/// and running the result back through the reference decoder leaves a zero
/// remainder.
pub proof fn lemma_crc7_self_check(s: Seq<u8>)
    ensures
        crc7_residue(s.push(crc7_spec(s))) == 0,
{
    lemma_state_bound(s);
    let frame = s.push(crc7_spec(s));
    assert(frame.drop_last() =~= s);
    lemma_shift_out(crc7_state(s));
}

/// Shift the eight bits of `byte` into the register, most significant first.
fn feed_byte(state: u8, byte: u8) -> (r: u8)
    ensures
        r == crc7_run(state, byte_bits(byte)),
{
    let mut crc = state;
    let mut bit: usize = 0;
    while bit < 8
        invariant
            bit <= 8,
            crc == crc7_run(state, byte_bits(byte).take(bit as int)),
        decreases 8 - bit,
    {
        let sh: u8 = (7 - bit) as u8;
        let mb = ((byte >> sh) & 1) == 1;
        let fb = (crc & 0x40) != 0;
        let ghost prev = crc;
        if fb != mb {
            crc = ((crc << 1) ^ 0x09) & 0x7f;
        } else {
            crc = (crc << 1) & 0x7f;
        }
        proof {
            assert(byte_bits(byte)[bit as int] == mb);
            assert(crc == crc7_step(prev, mb));
            lemma_run_take_step(state, byte_bits(byte), bit as int);
        }
        bit += 1;
    }
    proof {
        assert(byte_bits(byte).take(8) =~= byte_bits(byte));
    }
    crc
}

/// CRC7 of `data`, as the final byte of a command frame: the remainder in
/// bits 7..1, the stop bit set in bit 0.
pub fn crc7(data: &[u8]) -> (r: u8)
    ensures
        r == crc7_spec(data@),
{
    let n = data.len();
    let mut crc: u8 = 0;
    let mut i: usize = 0;
    while i < n
        invariant
            n == data@.len(),
            i <= n,
            crc == crc7_state(data@.take(i as int)),
        decreases n - i,
    {
        let byte = *vstd::slice::slice_index_get(data, i);
        crc = feed_byte(crc, byte);
        proof {
            lemma_state_take_step(data@, i as int);
        }
        i += 1;
    }
    proof {
        assert(data@.take(n as int) =~= data@);
    }
    (crc << 1) | 1
}

/// Run the reference decoder over a framed message: every byte of `frame`
/// but the last, then the seven checksum bits of the last byte.  A frame
/// whose final byte is the CRC7 of the rest leaves a zero remainder.
pub fn crc7_check(frame: &[u8]) -> (r: u8)
    requires
        frame@.len() >= 1,
    ensures
        r == crc7_residue(frame@),
{
    let n = frame.len();
    let mut crc: u8 = 0;
    let mut i: usize = 0;
    while i < n - 1
        invariant
            n == frame@.len(),
            1 <= n,
            i <= n - 1,
            crc == crc7_state(frame@.take(i as int)),
        decreases n - 1 - i,
    {
        let byte = *vstd::slice::slice_index_get(frame, i);
        crc = feed_byte(crc, byte);
        proof {
            lemma_state_take_step(frame@, i as int);
        }
        i += 1;
    }
    proof {
        assert(frame@.take((n - 1) as int) =~= frame@.drop_last());
    }
    let last = *vstd::slice::slice_index_get(frame, n - 1);
    let ghost base = crc7_state(frame@.drop_last());
    let mut bit: usize = 0;
    while bit < 7
        invariant
            bit <= 7,
            n == frame@.len(),
            1 <= n,
            last == frame@.last(),
            base == crc7_state(frame@.drop_last()),
            crc == crc7_run(base, checksum_bits(last).take(bit as int)),
        decreases 7 - bit,
    {
        let sh: u8 = (7 - bit) as u8;
        let mb = ((last >> sh) & 1) == 1;
        let fb = (crc & 0x40) != 0;
        let ghost prev = crc;
        if fb != mb {
            crc = ((crc << 1) ^ 0x09) & 0x7f;
        } else {
            crc = (crc << 1) & 0x7f;
        }
        proof {
            assert(checksum_bits(last)[bit as int] == mb);
            assert(crc == crc7_step(prev, mb));
            lemma_run_take_step(base, checksum_bits(last), bit as int);
        }
        bit += 1;
    }
    proof {
        assert(checksum_bits(last).take(7) =~= checksum_bits(last));
    }
    crc
}

} // verus!
