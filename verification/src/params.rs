use vstd::prelude::*;

use crate::field::{pack_bits_into_fe, zext, Fe, FE_BITS};
use franklin_crypto::bellman::pairing::bn256::{Bn256, Fr, FrRepr};
use franklin_crypto::bellman::pairing::ff::PrimeField;

verus! {

/// Number of bits in a leaf identifier.
pub const ID_BIT_LENGTH: usize = 128;

/// Number of bits in a leaf balance.
pub const BALANCE_BIT_LENGTH: usize = 128;

/// Depth of the Merkle tree; every authentication path has this length.
pub const TREE_DEPTH: usize = 32;

/// Total bit length of a Bn256 scalar-field element.
pub const FR_NUM_BITS: usize = 254;

/// Largest bit length at which every bit string names a distinct field
/// element; a fixed-length decomposition is unambiguous up to this width.
pub const FR_CAPACITY: usize = 253;

#[verifier::external_type_specification]
#[verifier::external_body]
pub struct ExBn256RescueParams(franklin_crypto::rescue::bn256::Bn256RescueParams);

/// The Rescue round parameters for the Bn256 scalar field, constructed once
/// and passed by reference into every component that hashes.  The only
/// constructor is [`RescueParams::new`], so every value of this type holds the
/// standard two-to-one parameter set.
pub struct RescueParams {
    inner: franklin_crypto::rescue::bn256::Bn256RescueParams,
}

impl RescueParams {
    /// Relies on `Bn256RescueParams::new_checked_2_into_1`: the standard,
    /// deterministic two-to-one Rescue parameter set for Bn256.
    #[verifier::external_body]
    pub fn new() -> RescueParams {
        RescueParams { inner: franklin_crypto::rescue::bn256::Bn256RescueParams::new_checked_2_into_1() }
    }
}

/// The two-to-one Rescue compression function over canonical bit
/// representations.  Rescue is a fixed algebraic permutation; its output
/// depends on the two inputs alone.
pub uninterp spec fn hash_of(a: Seq<bool>, b: Seq<bool>) -> Seq<bool>;

/// Relies on `franklin_crypto::rescue::rescue_hash`: a deterministic sponge
/// over the Rescue permutation that compresses two field elements into one.
/// With the two-to-one parameter set the output is a single field element,
/// returned here in canonical representation.
#[verifier::external_body]
fn rescue_hash_pair(params: &RescueParams, a: &Fe, b: &Fe) -> (r: Fe)
    requires
        a.wf(),
        b.wf(),
    ensures
        r@ == hash_of(a@, b@),
        r.wf(),
{
    let fa = Fr::from_repr(FrRepr(a.limbs)).expect("canonical representation");
    let fb = Fr::from_repr(FrRepr(b.limbs)).expect("canonical representation");
    let out = franklin_crypto::rescue::rescue_hash::<Bn256>(&params.inner, &[fa, fb]);
    Fe { limbs: out[0].into_repr().0 }
}

/// Compress an ordered pair of field elements into one: the node operation of
/// the Merkle tree, in native (unconstrained) evaluation.
pub fn rescue_compress(params: &RescueParams, a: &Fe, b: &Fe) -> (r: Fe)
    requires
        a.wf(),
        b.wf(),
    ensures
        r@ == hash_of(a@, b@),
        r.wf(),
{
    rescue_hash_pair(params, a, b)
}

/// The digest of a full-width leaf encoding: the 256 bits are repacked, in
/// order and without loss, into two field elements — as many leading bits per
/// element as the hash input capacity allows — and the pair is compressed.
pub open spec fn digest_of_bits(b: Seq<bool>) -> Seq<bool> {
    hash_of(zext(b.take(FR_CAPACITY as int)), zext(b.skip(FR_CAPACITY as int)))
}

/// Hash a full-width leaf encoding in native mode: repack the bits into the
/// minimal number of field elements the hash capacity allows, then compress.
pub fn hash_leaf_bits(params: &RescueParams, bits: &Vec<bool>) -> (r: Fe)
    requires
        bits@.len() == FE_BITS,
    ensures
        r@ == digest_of_bits(bits@),
        r.wf(),
{
    let mut lo: Vec<bool> = Vec::new();
    let mut i: usize = 0;
    while i < FR_CAPACITY
        invariant
            i <= FR_CAPACITY,
            bits@.len() == FE_BITS,
            lo@ == bits@.subrange(0, i as int),
        decreases FR_CAPACITY - i,
    {
        lo.push(bits[i]);
        proof {
            assert(lo@ =~= bits@.subrange(0, i + 1));
        }
        i += 1;
    }
    let mut hi: Vec<bool> = Vec::new();
    let mut j: usize = FR_CAPACITY;
    while j < FE_BITS
        invariant
            FR_CAPACITY <= j <= FE_BITS,
            bits@.len() == FE_BITS,
            hi@ == bits@.subrange(FR_CAPACITY as int, j as int),
        decreases FE_BITS - j,
    {
        hi.push(bits[j]);
        proof {
            assert(hi@ =~= bits@.subrange(FR_CAPACITY as int, j + 1));
        }
        j += 1;
    }
    proof {
        assert(lo@ =~= bits@.take(FR_CAPACITY as int));
        assert(hi@ =~= bits@.skip(FR_CAPACITY as int));
    }
    let p0 = pack_bits_into_fe(&lo);
    let p1 = pack_bits_into_fe(&hi);
    rescue_compress(params, &p0, &p1)
}

} // verus!
