use vstd::prelude::*;

verus! {

/// A hasher for small integer keys: the digest is the last value written.
pub struct SimpleHasher(pub u64);

/// The 64-bit finalizer that spreads the bits of `x` over the whole word.
pub open spec fn mix(x: u64) -> u64 {
    let a = x ^ (x >> 33);
    let b = a.wrapping_mul(0xff51afd7ed558ccd);
    let c = b ^ (b >> 33);
    let d = c.wrapping_mul(0xc4ceb9fe1a85ec53);
    d ^ (d >> 33)
}

/// The first `n` bytes of `bytes` read as a little-endian number.
pub open spec fn le_value(bytes: Seq<u8>, n: int) -> u64
    decreases n,
{
    if n <= 0 {
        0
    } else {
        le_value(bytes, n - 1) | ((bytes[n - 1] as u64) << ((8 * (n - 1)) as u64))
    }
}

impl SimpleHasher {
    /// The digest that `write` leaves for `bytes`: the value of its first
    /// eight bytes, little-endian.
    pub open spec fn digest_of(bytes: Seq<u8>) -> u64 {
        le_value(bytes, if bytes.len() < 8 { bytes.len() as int } else { 8 })
    }
}

impl Default for SimpleHasher {
    fn default() -> (r: Self)
        ensures
            r.0 == 0,
    {
        SimpleHasher(0)
    }
}

impl std::hash::Hasher for SimpleHasher {
    fn finish(&self) -> (r: u64)
        ensures
            r == self.0,
    {
        self.0
    }

    fn write(&mut self, bytes: &[u8])
        ensures
            final(self).0 == Self::digest_of(bytes@),
    {
        let mut data: u64 = 0;
        let mut k: usize = 0;
        while k < bytes.len() && k < 8
            invariant
                k <= 8,
                k <= bytes@.len(),
                data == le_value(bytes@, k as int),
            decreases 8 - k,
        {
            let shift: u64 = 8 * (k as u64);
            data = data | ((bytes[k] as u64) << shift);
            k = k + 1;
        }
        self.0 = data;
    }

    fn write_i32(&mut self, i: i32)
        ensures
            final(self).0 == mix(i as u64),
    {
        let mut hash: u64 = #[verifier::truncate] (i as u64);
        hash = hash ^ (hash >> 33);
        hash = hash.wrapping_mul(0xff51afd7ed558ccd);
        hash = hash ^ (hash >> 33);
        hash = hash.wrapping_mul(0xc4ceb9fe1a85ec53);
        hash = hash ^ (hash >> 33);
        self.0 = hash;
    }
}

} // verus!
