//! The samples of a WAV file: what follows the first `data` mark and the four
//! bytes of length after it, read as 16-bit numbers with the lower byte first.

use vstd::prelude::*;

verus! {

/// Whether the four bytes at `at` spell `data`.
pub open spec fn marked(bytes: Seq<u8>, at: int) -> bool {
    &&& 0 <= at
    &&& at + 4 <= bytes.len()
    &&& bytes[at] == 0x64
    &&& bytes[at + 1] == 0x61
    &&& bytes[at + 2] == 0x74
    &&& bytes[at + 3] == 0x61
}

/// Whether `at` is the first place where the bytes spell `data`.
pub open spec fn first_mark(bytes: Seq<u8>, at: int) -> bool {
    marked(bytes, at) && forall|p: int| 0 <= p < at ==> !marked(bytes, p)
}

/// The signed 16-bit number with the lower byte `low` and the higher byte `high`.
pub open spec fn sample_of(low: u8, high: u8) -> i16 {
    if high >= 128 {
        (low + 256 * high - 65536) as i16
    } else {
        (low + 256 * high) as i16
    }
}

/// The samples that the bytes from `start` on hold; a last odd byte is left out.
pub open spec fn samples_from(bytes: Seq<u8>, start: int) -> Seq<i16> {
    Seq::new(
        ((bytes.len() - start) / 2) as nat,
        |i: int| sample_of(bytes[start + 2 * i], bytes[start + 2 * i + 1]),
    )
}

/// The samples of a WAV file, or `None` if the bytes hold no `data` mark or
/// end before the mark's eight bytes are over.
pub fn wav_samples(buf: &[u8]) -> (res: Option<Vec<i16>>)
    ensures
        match res {
            Some(samples) => exists|at: int|
                first_mark(buf@, at) && at + 8 <= buf@.len() && samples@ == samples_from(
                    buf@,
                    at + 8,
                ),
            None => forall|at: int| first_mark(buf@, at) ==> at + 8 > buf@.len(),
        },
{
    let len: usize = buf.len();
    let mut at: usize = 0;
    let mut found: bool = false;
    while !found && len >= 4 && at <= len - 4
        invariant
            len == buf@.len(),
            forall|p: int| 0 <= p < at ==> !marked(buf@, p),
            found ==> marked(buf@, at as int),
        decreases len - at + (if found { 0int } else { 1int }),
    {
        if buf[at] == 0x64 && buf[at + 1] == 0x61 && buf[at + 2] == 0x74 && buf[at + 3] == 0x61 {
            found = true;
        } else {
            at += 1;
        }
    }
    if !found {
        assert forall|p: int| first_mark(buf@, p) implies p + 8 > buf@.len() by {
            if p >= at {
                assert(!marked(buf@, p));
            }
        }
        return None;
    }
    assert(first_mark(buf@, at as int));
    if len - at < 8 {
        assert forall|p: int| first_mark(buf@, p) implies p + 8 > buf@.len() by {
            if p < at {
                assert(!marked(buf@, p));
            } else if p > at {
                assert(marked(buf@, at as int));
            }
        }
        return None;
    }
    let start: usize = at + 8;
    let count: usize = (len - start) / 2;
    let mut samples: Vec<i16> = Vec::new();
    let mut i: usize = 0;
    while i < count
        invariant
            i <= count,
            len == buf@.len(),
            start <= len,
            count == (len - start) / 2,
            samples@.len() == i,
            forall|k: int|
                0 <= k < i ==> samples@[k] == sample_of(
                    buf@[start + 2 * k],
                    buf@[start + 2 * k + 1],
                ),
        decreases count - i,
    {
        let low: u8 = buf[start + 2 * i];
        let high: u8 = buf[start + 2 * i + 1];
        let word: i32 = low as i32 + 256 * (high as i32);
        let sample: i16 = if high >= 128 { (word - 65536) as i16 } else { word as i16 };
        samples.push(sample);
        i += 1;
    }
    assert(samples@ =~= samples_from(buf@, start as int));
    Some(samples)
}

} // verus!
