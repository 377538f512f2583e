use vstd::prelude::*;
use vstd::arithmetic::power2::{pow2, lemma2_to64, lemma_pow2_strictly_increases, lemma_pow2_subtracts, lemma_pow2_unfold};

verus! {

/// Number of levels of detail of a terrain chunk's mesh.
pub const LOD_COUNT: u8 = 6;

/// Subdivisions of the plane mesh of the finest level of detail.
pub const FINEST_SUBDIVISIONS: u32 = 1024;

/// Subdivisions of the mesh of level `lod`: the finest count halved `lod` times
/// (integer division by `2^lod`).
pub open spec fn subdivisions_at(lod: nat) -> nat {
    FINEST_SUBDIVISIONS as nat / pow2(lod)
}

/// Number of subdivisions of the plane mesh used at level of detail `lod`,
/// `1024 / 2^lod`; the power `2^lod` must fit in a `u32`.
pub fn lod_subdivisions(lod: usize) -> (n: u32)
    requires
        lod < 32,
    ensures
        n == 1024nat / pow2(lod as nat),
        n == subdivisions_at(lod as nat),
{
    proof {
        lemma2_to64();
    }
    let mut p: u32 = 1;
    let mut k: usize = 0;
    while k < lod
        invariant
            k <= lod < 32,
            p == pow2(k as nat),
            pow2(32) == 0x1_0000_0000,
        decreases lod - k,
    {
        proof {
            lemma_pow2_unfold((k + 1) as nat);
            lemma_pow2_strictly_increases((k + 1) as nat, 32);
        }
        p = p * 2;
        k = k + 1;
    }
    FINEST_SUBDIVISIONS / p
}

/// While the mesh still has at least two subdivisions, each coarser level of
/// detail has exactly half the subdivisions of the previous one; the finest level has 1024.
pub proof fn lemma_each_level_halves(lod: nat)
    requires
        lod < 10,
    ensures
        subdivisions_at(0) == 1024,
        subdivisions_at(lod) == 2 * subdivisions_at(lod + 1),
{
    lemma2_to64();
    lemma_pow2_subtracts(lod, 10);
    lemma_pow2_subtracts(lod + 1, 10);
    lemma_pow2_unfold((10 - lod) as nat);
    assert((10 - (lod + 1)) as nat == ((10 - lod) as nat - 1) as nat);
}

} // verus!
