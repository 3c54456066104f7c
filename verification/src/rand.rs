use vstd::prelude::*;

verus! {

/// Relies on getrandom::getrandom: fills the buffer with bytes from the
/// operating system's entropy source, returning Err only if that source
/// fails. Nothing is assumed about the value of the bytes.
#[verifier::external_body]
fn os_entropy_u64() -> Option<u64> {
    let mut buf = [0u8; 8];
    match getrandom::getrandom(&mut buf) {
        Ok(()) => Some(u64::from_ne_bytes(buf)),
        Err(_) => None,
    }
}

/// Uniform random integer in the half-open range `min..max`.
///
/// A fresh 64-bit draw is rejected and retried while it falls into the
/// (tiny) tail of the 64-bit space that would make a plain remainder
/// biased, so the result is an unbiased uniform sample. The number of
/// retries is capped; once the cap is hit (each retry fires with
/// probability below one half, so this is vanishingly rare) the remainder
/// of the last draw is used directly. A draw that the entropy source
/// refused counts as rejected.
pub fn genrand(min: usize, max: usize) -> (r: usize)
    requires
        min < max,
    ensures
        min <= r < max,
{
    let range = (max - min) as u64;
    let max_usable = u64::MAX - u64::MAX % range;
    let mut value: u64 = 0;
    let mut tries: u64 = 0;
    let mut accepted = false;
    while !accepted && tries < 64
        invariant
            range == max - min,
            range >= 1,
        decreases 64u64 - tries,
    {
        match os_entropy_u64() {
            Some(v) => {
                value = v;
                if v < max_usable {
                    accepted = true;
                }
            },
            None => {},
        }
        tries = tries + 1;
    }
    let rem = value % range;
    min + rem as usize
}

} // verus!
