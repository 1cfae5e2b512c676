use vstd::prelude::*;
use vstd::std_specs::cmp::PartialEqSpecImpl;

verus! {

/// An edge between two position slots. The two ends are not ordered: an
/// edge equals the edge with its ends exchanged.
#[derive(Debug, Copy, Clone)]
pub struct Edge {
    pub pos_a: u32,
    pub pos_b: u32,
}

impl Edge {
    pub fn new(pos_a: u32, pos_b: u32) -> (r: Self)
        ensures
            r.pos_a == pos_a,
            r.pos_b == pos_b,
    {
        Self { pos_a, pos_b }
    }

    /// The two edges join the same pair of positions.
    pub open spec fn same(self, other: Self) -> bool {
        (self.pos_a == other.pos_a && self.pos_b == other.pos_b) || (self.pos_a == other.pos_b
            && self.pos_b == other.pos_a)
    }

    /// The smaller of the two positions.
    pub open spec fn low(self) -> u32 {
        if self.pos_a <= self.pos_b {
            self.pos_a
        } else {
            self.pos_b
        }
    }

    /// The larger of the two positions.
    pub open spec fn high(self) -> u32 {
        if self.pos_a <= self.pos_b {
            self.pos_b
        } else {
            self.pos_a
        }
    }

    /// The number that stands for the edge in the queue: the smaller
    /// position in the upper half, the larger in the lower half.
    pub open spec fn spec_key(self) -> u64 {
        (self.low() as u64 * 0x1_0000_0000 + self.high() as u64) as u64
    }

    /// The number that stands for the edge in the queue.
    pub fn key(&self) -> (k: u64)
        ensures
            k == self.spec_key(),
    {
        proof {
            lemma_key_fits(self.low(), self.high());
        }
        if self.pos_a <= self.pos_b {
            (self.pos_a as u64) * 0x1_0000_0000 + (self.pos_b as u64)
        } else {
            (self.pos_b as u64) * 0x1_0000_0000 + (self.pos_a as u64)
        }
    }

    /// The edge that a key stands for, with its smaller position first.
    pub fn from_key(key: u64) -> (r: Self)
        ensures
            r.pos_a == key / 0x1_0000_0000,
            r.pos_b == key % 0x1_0000_0000,
    {
        Self { pos_a: (key / 0x1_0000_0000) as u32, pos_b: (key % 0x1_0000_0000) as u32 }
    }

    /// The hash of the edge, the same for both orders of its ends: the
    /// wrapped sum of the positions in the upper half, their distance in
    /// the lower half.
    pub open spec fn spec_hash_code(self) -> u64 {
        (self.pos_a.wrapping_add(self.pos_b) as u64 * 0x1_0000_0000 + (self.high() - self.low()) as u64) as u64
    }

    /// The hash of the edge.
    pub fn hash_code(&self) -> (h: u64)
        ensures
            h == self.spec_hash_code(),
    {
        let sum = self.pos_a.wrapping_add(self.pos_b);
        let distance = if self.pos_a <= self.pos_b {
            self.pos_b - self.pos_a
        } else {
            self.pos_a - self.pos_b
        };
        proof {
            lemma_key_fits(sum, distance);
        }
        (sum as u64) * 0x1_0000_0000 + (distance as u64)
    }
}

/// Two 32-bit halves make a 64-bit number, from which they can be read
/// back.
pub proof fn lemma_key_fits(hi: u32, lo: u32)
    ensures
        hi as u64 * 0x1_0000_0000 + lo as u64 <= u64::MAX,
        (hi as int * 0x1_0000_0000 + lo as int) / 0x1_0000_0000 == hi,
        (hi as int * 0x1_0000_0000 + lo as int) % 0x1_0000_0000 == lo,
{
    let p = hi as int;
    let q = lo as int;
    assert(p * 0x1_0000_0000 + q <= 0xffff_ffff_ffff_ffff) by (nonlinear_arith)
        requires
            0 <= p <= 0xffff_ffff,
            0 <= q <= 0xffff_ffff,
    ;
    assert((p * 0x1_0000_0000 + q) / 0x1_0000_0000 == p && (p * 0x1_0000_0000 + q) % 0x1_0000_0000
        == q) by (nonlinear_arith)
        requires
            0 <= p,
            0 <= q < 0x1_0000_0000,
    ;
}

impl PartialEq for Edge {
    fn eq(&self, other: &Self) -> (r: bool) {
        (self.pos_a == other.pos_a && self.pos_b == other.pos_b) || (self.pos_a == other.pos_b
            && self.pos_b == other.pos_a)
    }
}

impl PartialEqSpecImpl for Edge {
    open spec fn obeys_eq_spec() -> bool {
        true
    }

    open spec fn eq_spec(&self, other: &Self) -> bool {
        (self.pos_a == other.pos_a && self.pos_b == other.pos_b) || (self.pos_a == other.pos_b
            && self.pos_b == other.pos_a)
    }
}

impl Eq for Edge {

}

/// `std::hash::Hasher::write_u64`: hands one number to the hasher. Nothing
/// is claimed of the state that the hasher is left in.
#[verifier::external_body]
fn feed<H: std::hash::Hasher>(state: &mut H, value: u64) {
    state.write_u64(value);
}

impl std::hash::Hash for Edge {
    fn hash<H: std::hash::Hasher>(&self, state: &mut H) {
        feed(state, self.hash_code());
    }
}

/// Edges are equal exactly if their keys are, and equal edges have equal
/// hashes.
pub proof fn lemma_edge_key(a: Edge, b: Edge)
    ensures
        a.same(b) <==> a.spec_key() == b.spec_key(),
        a.same(b) ==> a.spec_hash_code() == b.spec_hash_code(),
{
    lemma_key_fits(a.low(), a.high());
    lemma_key_fits(b.low(), b.high());
}

} // verus!
