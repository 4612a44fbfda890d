//! A random bool generator. One random word is drawn at a time and its
//! bits are handed out one by one.

use vstd::prelude::*;

use fastrand::Rng;

verus! {

#[verifier::external_type_specification]
#[verifier::external_body]
pub struct ExRng(Rng);

/// Relies on `fastrand::Rng::new`: a freshly seeded generator.
#[verifier::external_body]
fn rng_new() -> Rng {
    Rng::new()
}

/// Relies on `fastrand::Rng::u64`: a random word; nothing is promised
/// of its value.
#[verifier::external_body]
fn rng_u64(rng: &mut Rng) -> u64 {
    rng.u64(..)
}

pub struct BoolGen {
    rng: Rng,
    bits: u64,
    mask: u64,
}

impl BoolGen {
    /// The mask is always zero or a single bit.
    pub closed spec fn wf(&self) -> bool {
        self.mask == 0 || exists|k: u64| k < 64 && self.mask == #[trigger] (1u64 << k)
    }

    pub fn new() -> (r: BoolGen)
        ensures
            r.wf(),
    {
        proof {
            assert(1u64 == 1u64 << 0u64) by (bit_vector);
        }
        BoolGen { rng: rng_new(), bits: 0, mask: 0 }
    }

    /// The next random bit.
    pub fn gen(&mut self) -> (r: bool)
        requires
            old(self).wf(),
        ensures
            final(self).wf(),
    {
        if self.mask == 0 {
            self.bits = rng_u64(&mut self.rng);
            self.mask = 1;
            proof {
                assert(1u64 == 1u64 << 0u64) by (bit_vector);
            }
        }
        let result = self.bits & self.mask != 0;
        let ghost m = self.mask;
        self.mask = self.mask.wrapping_shl(1);
        proof {
            let k = choose|k: u64| k < 64 && m == #[trigger] (1u64 << k);
            assert((1u64 << k).wrapping_shl(1) == 0 || (k < 63 && (1u64 << k).wrapping_shl(1)
                == 1u64 << ((k + 1) as u64))) by (bit_vector)
                requires
                    k < 64,
            ;
        }
        result
    }
}

} // verus!
