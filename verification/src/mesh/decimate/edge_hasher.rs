use vstd::prelude::*;
use crate::utils::simple_hasher::le_value;

verus! {

/// A hasher for keys that are hashes already: the digest is the number
/// written last.
pub struct EdgeHasher {
    pub hash: u64,
}

impl Default for EdgeHasher {
    fn default() -> (r: Self)
        ensures
            r.hash == 0,
    {
        EdgeHasher { hash: 0 }
    }
}

impl std::hash::Hasher for EdgeHasher {
    fn finish(&self) -> (r: u64)
        ensures
            r == self.hash,
    {
        self.hash
    }

    /// Takes the first eight bytes as a little-endian number.
    fn write(&mut self, bytes: &[u8])
        ensures
            final(self).hash == le_value(bytes@, if bytes@.len() < 8 {
                bytes@.len() as int
            } else {
                8
            }),
    {
        let mut data: u64 = 0;
        let mut k: usize = 0;
        while k < bytes.len() && k < 8
            invariant
                k <= 8,
                k <= bytes@.len(),
                data == le_value(bytes@, k as int),
            decreases 8 - k,
        {
            let shift: u64 = 8 * (k as u64);
            data = data | ((bytes[k] as u64) << shift);
            k = k + 1;
        }
        self.hash = data;
    }

    fn write_u64(&mut self, i: u64)
        ensures
            final(self).hash == i,
    {
        self.hash = i;
    }
}

} // verus!
