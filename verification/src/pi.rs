//! What the drivers of the board's timer and serial port compute from the
//! words they read and for the bytes they write.
use vstd::prelude::*;

verus! {

/// The bit of the serial port's status word that is set while a received
/// byte waits to be read.
pub const DATA_READY: u32 = 1;

/// The bit of the serial port's status word that is set while the port can
/// take a byte to send.
pub const TX_AVAILABLE: u32 = 1 << 5;

/// The timer's count of microseconds, from the high and the low word of its
/// counter.
pub fn timer_count(chi: u32, clo: u32) -> (count: u64)
    ensures
        count == chi as int * 0x1_0000_0000 + clo as int,
{
    let hi = (chi as u64) << 32;
    assert(hi == chi as u64 * 0x1_0000_0000 && hi | (clo as u64) == hi + (clo as u64))
        by (bit_vector)
        requires
            hi == (chi as u64) << 32,
    ;
    hi | (clo as u64)
}

/// Whether every bit of `mask` is set in `value`.
pub fn has_mask(value: u32, mask: u32) -> (set: bool)
    ensures
        set == (value & mask == mask),
{
    value & mask == mask
}

/// The bytes that go down the serial line for `text`: a carriage return goes
/// before every line feed.
pub open spec fn expanded(text: Seq<u8>) -> Seq<u8>
    decreases text.len(),
{
    if text.len() == 0 {
        Seq::empty()
    } else if text.last() == 10 {
        expanded(text.drop_last()).push(13).push(10)
    } else {
        expanded(text.drop_last()).push(text.last())
    }
}

/// The bytes to send for `text`.
pub fn expand_newlines(text: &[u8]) -> (out: Vec<u8>)
    ensures
        out@ == expanded(text@),
{
    let mut out: Vec<u8> = Vec::new();
    let mut i: usize = 0;
    while i < text.len()
        invariant
            i <= text@.len(),
            out@ == expanded(text@.subrange(0, i as int)),
        decreases text@.len() - i,
    {
        let byte = text[i];
        proof {
            assert(text@.subrange(0, i + 1).drop_last() == text@.subrange(0, i as int));
        }
        if byte == 10 {
            out.push(13);
        }
        out.push(byte);
        i = i + 1;
    }
    proof {
        assert(text@.subrange(0, i as int) == text@);
    }
    out
}

} // verus!
