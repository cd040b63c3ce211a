//! Materials whose state holds no colour: the false-colour debugging
//! material and the photon-mapping material, and the check that an
//! ambient-occlusion material takes a square number of samples.
use vstd::prelude::*;

verus! {

/// Material that maps the x, y, z components of the normal to r, g, b.
/// Used for debugging purposes.
#[derive(Debug, Clone, Copy)]
pub struct FalseColourMaterial {}

impl FalseColourMaterial {
    pub fn new() -> (m: Self)
        ensures
            m == (FalseColourMaterial {}),
    {
        FalseColourMaterial {}
    }
}

/// Material whose colour is estimated from the photon maps.
#[derive(Debug, Clone, Copy)]
pub struct PhotonMappingMaterial {}

impl PhotonMappingMaterial {
    pub fn new() -> (m: Self)
        ensures
            m == (PhotonMappingMaterial {}),
    {
        PhotonMappingMaterial {}
    }
}

impl Default for PhotonMappingMaterial {
    fn default() -> (m: Self)
        ensures
            m == (PhotonMappingMaterial {}),
    {
        PhotonMappingMaterial {}
    }
}

/// `n` is the square of a natural number.
pub open spec fn is_square(n: int) -> bool {
    exists|k: int| 0 <= k && #[trigger] (k * k) == n
}

proof fn lemma_square_monotone(j: int, k: int)
    requires
        0 <= k <= j,
    ensures
        k * k <= j * j,
{
    assert(k * k <= j * j) by (nonlinear_arith)
        requires
            0 <= k <= j,
    ;
}

fn square(k: u64) -> (s: u64)
    requires
        k <= 65536,
    ensures
        s == k * k,
{
    assert(k * k <= 65536 * 65536) by (nonlinear_arith)
        requires
            k <= 65536,
    ;
    k * k
}

/// Whether `n` is a square number (an ambient-occlusion material lays its
/// samples out on a square grid and accepts only such counts).
pub fn is_square_number(n: u32) -> (r: bool)
    ensures
        r == is_square(n as int),
{
    let mut k: u64 = 0;
    while square(k) < n as u64
        invariant
            k <= 65536,
            forall|j: int| 0 <= j < k ==> #[trigger] (j * j) < n,
        decreases 65536 - k,
    {
        proof {
            if k + 1 > 65536 {
                assert(k * k >= 65536 * 65536) by (nonlinear_arith)
                    requires
                        k >= 65536,
                ;
            }
        }
        k = k + 1;
    }
    let r = square(k) == n as u64;
    proof {
        if !r {
            assert forall|j: int| 0 <= j implies #[trigger] (j * j) != n by {
                if j >= k {
                    lemma_square_monotone(j, k as int);
                }
            }
        }
    }
    r
}

} // verus!
