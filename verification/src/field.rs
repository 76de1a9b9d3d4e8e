use vstd::prelude::*;
use vstd::arithmetic::power2::{
    pow2, lemma_pow2_adds, lemma_pow2_strictly_increases, lemma_pow2_unfold, lemma2_to64,
    lemma2_to64_rest,
};

verus! {

/// Number of bits in the canonical little-endian representation of a field
/// element: four 64-bit limbs.
pub const FE_BITS: usize = 256;

/// The scalar-field modulus of the Bn256 curve.
pub open spec fn fr_modulus() -> nat {
    21888242871839275222246405745257275088548364400416034343698204186575808495617nat
}

/// Bit `j` of a 64-bit limb.
pub open spec fn u64_bit(x: u64, j: u64) -> bool {
    (x >> j) & 1u64 == 1u64
}

/// Bit `i` of a little-endian limb sequence; `false` outside the range.
pub open spec fn limb_bit(t: Seq<u64>, i: int) -> bool {
    0 <= i && i < t.len() * 64 && u64_bit(t[i / 64], (i % 64) as u64)
}

/// Little-endian weighted sum of a bit sequence: the value the bits stand for.
pub open spec fn bits_val(b: Seq<bool>) -> nat
    decreases b.len(),
{
    if b.len() == 0 {
        0
    } else {
        bits_val(b.drop_last()) + if b.last() {
            pow2((b.len() - 1) as nat)
        } else {
            0
        }
    }
}

/// A bit sequence zero-extended to the full width of a field element.
pub open spec fn zext(b: Seq<bool>) -> Seq<bool> {
    Seq::new(FE_BITS as nat, |i: int| 0 <= i < b.len() && b[i])
}

/// All bits at positions `n` and above are clear: the value fits in `n` bits.
pub open spec fn fits(b: Seq<bool>, n: int) -> bool {
    forall|i: int| n <= i < b.len() ==> !b[i]
}

/// A field element of the Bn256 scalar field, held as its canonical
/// little-endian 64-bit limbs.  Its view is the 256-bit little-endian bit
/// sequence of that representation.
#[derive(Clone, Copy, Debug)]
pub struct Fe {
    pub limbs: [u64; 4],
}

impl View for Fe {
    type V = Seq<bool>;

    open spec fn view(&self) -> Seq<bool> {
        Seq::new(FE_BITS as nat, |i: int| limb_bit(self.limbs@, i))
    }
}

impl Fe {
    /// A well-formed element holds the canonical representative: its value is
    /// below the field modulus.
    pub open spec fn wf(&self) -> bool {
        bits_val(self@) < fr_modulus()
    }

    /// The zero element.
    pub fn zero() -> (r: Fe)
        ensures
            forall|i: int| 0 <= i < FE_BITS ==> !r@[i],
            r.wf(),
    {
        let r = Fe { limbs: [0u64; 4] };
        proof {
            assert(forall|j: u64| (0u64 >> j) & 1u64 == 0u64) by (bit_vector);
            assert(forall|i: int| 0 <= i < FE_BITS ==> !r@[i]);
            lemma_bits_val_all_false(r@);
        }
        r
    }

    /// Bit `i` of the element, little-endian.
    pub fn get_bit(&self, i: usize) -> (r: bool)
        requires
            i < FE_BITS,
        ensures
            r == self@[i as int],
    {
        let limb = self.limbs[i / 64];
        (limb >> ((i % 64) as u64)) & 1u64 == 1u64
    }

    /// The element whose value is the given 64-bit integer.
    pub fn from_u64(x: u64) -> (r: Fe)
        ensures
            forall|i: int| 0 <= i < 64 ==> r@[i] == u64_bit(x, i as u64),
            forall|i: int| 64 <= i < FE_BITS ==> !r@[i],
            fits(r@, 64),
            r.wf(),
    {
        let r = Fe { limbs: [x, 0u64, 0u64, 0u64] };
        proof {
            assert(forall|j: u64| (0u64 >> j) & 1u64 == 0u64) by (bit_vector);
            assert(forall|i: int| 64 <= i < FE_BITS ==> !r@[i]);
            lemma_fits_below_modulus(r@, 64);
        }
        r
    }

    /// The element whose value is the given 128-bit integer.
    pub fn from_u128(x: u128) -> (r: Fe)
        ensures
            forall|i: int| 0 <= i < 64 ==> r@[i] == u64_bit(x as u64, i as u64),
            forall|i: int| 64 <= i < 128 ==> r@[i] == u64_bit((x >> 64) as u64, (i - 64) as u64),
            fits(r@, 128),
            r.wf(),
    {
        let r = Fe { limbs: [x as u64, (x >> 64u128) as u64, 0u64, 0u64] };
        proof {
            assert(forall|j: u64| (0u64 >> j) & 1u64 == 0u64) by (bit_vector);
            assert(forall|i: int| 128 <= i < FE_BITS ==> !r@[i]);
            lemma_fits_below_modulus(r@, 128);
        }
        r
    }
}

impl PartialEq for Fe {
    /// Two elements are equal exactly when their bit sequences agree.
    fn eq(&self, other: &Fe) -> (r: bool) {
        let mut i: usize = 0;
        while i < FE_BITS
            invariant
                i <= FE_BITS,
                forall|j: int| 0 <= j < i ==> self@[j] == other@[j],
            decreases FE_BITS - i,
        {
            if self.get_bit(i) != other.get_bit(i) {
                return false;
            }
            i += 1;
        }
        proof {
            assert(self@ =~= other@);
        }
        true
    }
}

impl vstd::std_specs::cmp::PartialEqSpecImpl for Fe {
    open spec fn obeys_eq_spec() -> bool {
        true
    }

    open spec fn eq_spec(&self, other: &Fe) -> bool {
        self@ == other@
    }
}

impl Eq for Fe {
}

/// Collect 64 bits of `bits`, starting at `start`, into one limb; positions
/// past the end of `bits` are clear.
fn pack_limb(bits: &Vec<bool>, start: usize) -> (x: u64)
    requires
        start <= 192,
    ensures
        forall|k: u64| k < 64 ==> u64_bit(x, k) == (start + k < bits@.len() && bits@[start + k]),
{
    proof {
        assert(forall|y: u64, k: u64, m: u64| k < 64 && m < 64 ==> u64_bit(y | (1u64 << k), m)
            == (m == k || u64_bit(y, m))) by (bit_vector);
        assert(forall|j: u64| (0u64 >> j) & 1u64 == 0u64) by (bit_vector);
    }
    let mut x: u64 = 0;
    let mut k: usize = 0;
    while k < 64
        invariant
            start <= 192,
            k <= 64,
            forall|m: u64| m < k ==> u64_bit(x, m) == (start + m < bits@.len() && bits@[start + m]),
            forall|m: u64| k <= m < 64 ==> !u64_bit(x, m),
            forall|y: u64, kk: u64, m: u64| kk < 64 && m < 64 ==> u64_bit(y | (1u64 << kk), m)
                == (m == kk || u64_bit(y, m)),
        decreases 64 - k,
    {
        if start + k < bits.len() && bits[start + k] {
            x = x | (1u64 << (k as u64));
        }
        k += 1;
    }
    x
}

/// Repack an ordered bit sequence of at most the safe capacity into the field
/// element whose low bits are exactly that sequence; no reordering, no loss.
pub fn pack_bits_into_fe(bits: &Vec<bool>) -> (r: Fe)
    requires
        bits@.len() <= 253,
    ensures
        r@ == zext(bits@),
        r.wf(),
{
    let l0 = pack_limb(bits, 0);
    let l1 = pack_limb(bits, 64);
    let l2 = pack_limb(bits, 128);
    let l3 = pack_limb(bits, 192);
    let r = Fe { limbs: [l0, l1, l2, l3] };
    proof {
        assert forall|i: int| 0 <= i < FE_BITS implies r@[i] == (0 <= i < bits@.len()
            && bits@[i]) by {
            let j = i / 64;
            let m = i % 64;
            assert(limb_bit(r.limbs@, i) == u64_bit(r.limbs@[j], m as u64));
        }
        assert(r@ =~= zext(bits@));
        lemma_fits_below_modulus(r@, 253);
    }
    r
}

/// A sequence with no set bit stands for zero.
pub proof fn lemma_bits_val_all_false(b: Seq<bool>)
    requires
        forall|i: int| 0 <= i < b.len() ==> !b[i],
    ensures
        bits_val(b) == 0,
    decreases b.len(),
{
    if b.len() > 0 {
        lemma_bits_val_all_false(b.drop_last());
    }
}

/// Clearing bits beyond `n` leaves the weighted sum to the first `n` bits.
pub proof fn lemma_bits_val_prefix(b: Seq<bool>, n: int)
    requires
        0 <= n <= b.len(),
        fits(b, n),
    ensures
        bits_val(b) == bits_val(b.take(n)),
    decreases b.len(),
{
    if b.len() > n {
        assert(!b.last());
        assert(b.drop_last() =~= b.take(b.len() - 1));
        assert(b.take(b.len() - 1).take(n) =~= b.take(n));
        lemma_bits_val_prefix(b.drop_last(), n);
    } else {
        assert(b.take(n) =~= b);
    }
}

/// The weighted sum of `n` bits is below `2^n`.
pub proof fn lemma_bits_val_bound(b: Seq<bool>)
    ensures
        bits_val(b) < pow2(b.len() as nat),
    decreases b.len(),
{
    lemma2_to64();
    if b.len() > 0 {
        lemma_bits_val_bound(b.drop_last());
        lemma_pow2_unfold(b.len() as nat);
    }
}

/// A set bit at position `i` puts the weighted sum at `2^i` or above.
pub proof fn lemma_bit_set_lower_bound(b: Seq<bool>, i: int)
    requires
        0 <= i < b.len(),
        b[i],
    ensures
        bits_val(b) >= pow2(i as nat),
    decreases b.len(),
{
    if i < b.len() - 1 {
        lemma_bit_set_lower_bound(b.drop_last(), i);
    }
}

/// Concrete values for the powers of two that bound this library's widths.
pub proof fn lemma_pow2_constants()
    ensures
        pow2(64) == 0x10000000000000000,
        pow2(128) == 340282366920938463463374607431768211456,
        pow2(253) == 14474011154664524427946373126085988481658748083205070504932198000989141204992,
        pow2(254) == 28948022309329048855892746252171976963317496166410141009864396001978282409984,
{
    lemma2_to64();
    lemma2_to64_rest();
    lemma_pow2_adds(64, 64);
    lemma_pow2_adds(128, 64);
    lemma_pow2_adds(192, 61);
    lemma_pow2_adds(192, 62);
}

/// A 256-bit sequence whose value fits in `n <= 253` bits stands for a value
/// below the field modulus.
pub proof fn lemma_fits_below_modulus(b: Seq<bool>, n: int)
    requires
        0 <= n <= 253,
        n <= b.len(),
        fits(b, n),
    ensures
        bits_val(b) < fr_modulus(),
{
    lemma_bits_val_prefix(b, n);
    lemma_bits_val_bound(b.take(n));
    lemma_pow2_constants();
    if n < 253 {
        lemma_pow2_strictly_increases(n as nat, 253);
    }
}

/// Round-trip: a field element representable in `n` bits, `n` at most the
/// safe capacity, decomposes into `n` bits whose little-endian weighted sum
/// is exactly the element's value, and zero-extending those `n` bits back to
/// full width reproduces the element's bit representation.
pub proof fn lemma_round_trip(fe: Fe, n: int)
    requires
        0 <= n <= 253,
        fits(fe@, n),
    ensures
        bits_val(fe@.take(n)) == bits_val(fe@),
        zext(fe@.take(n)) == fe@,
{
    lemma_bits_val_prefix(fe@, n);
    assert(zext(fe@.take(n)) =~= fe@);
}

/// A well-formed element has its top two bits clear: its value is below
/// `2^254`, and a set bit at 254 or 255 would push it to `2^254` or above.
pub proof fn lemma_wf_fits_254(fe: Fe)
    requires
        fe.wf(),
    ensures
        fits(fe@, 254),
{
    lemma_pow2_constants();
    assert forall|i: int| 254 <= i < fe@.len() implies !fe@[i] by {
        if fe@[i] {
            lemma_bit_set_lower_bound(fe@, i);
            if i > 254 {
                lemma_pow2_strictly_increases(254, i as nat);
            }
        }
    }
}

} // verus!
