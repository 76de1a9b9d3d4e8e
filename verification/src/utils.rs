use vstd::prelude::*;

use crate::field::{fits, u64_bit, limb_bit, Fe, FE_BITS};
use crate::params::{BALANCE_BIT_LENGTH, FR_CAPACITY, FR_NUM_BITS, ID_BIT_LENGTH};

verus! {

/// The one failure circuit synthesis can report: a witness value that is
/// required at proving time is absent.  A semantically wrong but well-shaped
/// witness is not an error here; it surfaces later as an unsatisfied
/// constraint system.
#[derive(Clone, Copy, Debug, PartialEq, Eq, Structural)]
pub enum SynthesisError {
    AssignmentMissing,
}

/// A value that can render itself as an ordered little-endian bit sequence.
pub trait GetBits {
    /// The bit sequence the value stands for.
    spec fn spec_bits(&self) -> Seq<bool>;

    fn get_bits_le(&self) -> (r: Vec<bool>)
        ensures
            r@ == self.spec_bits(),
    ;
}

/// A value that can render exactly `n` little-endian bits of itself,
/// zero-padded past its natural magnitude.
pub trait GetBitsFixed {
    /// Bit `i` of the value; `false` beyond its representation.
    spec fn spec_bit(&self, i: int) -> bool;

    fn get_bits_le_fixed(&self, n: usize) -> (r: Vec<bool>)
        ensures
            r@.len() == n,
            forall|i: int| 0 <= i < n ==> r@[i] == self.spec_bit(i),
    ;
}

impl GetBitsFixed for Fe {
    open spec fn spec_bit(&self, i: int) -> bool {
        0 <= i < FE_BITS && self@[i]
    }

    /// Get exactly `n` bits from the element in little-endian order.  If `n`
    /// exceeds the representation's bit length, the result is padded with
    /// `false` to exactly match `n`.
    fn get_bits_le_fixed(&self, n: usize) -> (r: Vec<bool>) {
        let mut r: Vec<bool> = Vec::new();
        let mut i: usize = 0;
        while i < n
            invariant
                i <= n,
                r@.len() == i,
                forall|j: int| 0 <= j < i ==> r@[j] == self.spec_bit(j),
            decreases n - i,
        {
            if i < FE_BITS {
                r.push(self.get_bit(i));
            } else {
                r.push(false);
            }
            i += 1;
        }
        r
    }
}

impl GetBits for u64 {
    open spec fn spec_bits(&self) -> Seq<bool> {
        Seq::new(16, |i: int| u64_bit(if *self == u64::MAX { 0u64 } else { (*self + 1) as u64 }, i as u64))
    }

    /// The sixteen low bits of the successor of the value, little-endian.
    fn get_bits_le(&self) -> (r: Vec<bool>) {
        let y: u64 = if *self == u64::MAX { 0 } else { *self + 1 };
        proof {
            assert(forall|v: u64, k: u64| k < 63 ==> (v >> k) >> 1u64 == v >> (k + 1)) by (bit_vector);
            assert(forall|v: u64| v >> 0u64 == v) by (bit_vector);
        }
        let mut acc: Vec<bool> = Vec::new();
        let mut i: u64 = y;
        let mut k: usize = 0;
        while k < 16
            invariant
                k <= 16,
                acc@.len() == k,
                i == y >> (k as u64),
                forall|j: int| 0 <= j < k ==> acc@[j] == u64_bit(y, j as u64),
                forall|v: u64, kk: u64| kk < 63 ==> (v >> kk) >> 1u64 == v >> (kk + 1),
            decreases 16 - k,
        {
            acc.push(i & 1u64 == 1u64);
            proof {
                assert((i & 1u64 == 1u64) == u64_bit(y, k as u64)) by {
                    assert(forall|v: u64| v & 1u64 == (v >> 0u64) & 1u64) by (bit_vector);
                }
            }
            i = i >> 1u64;
            k += 1;
        }
        assert(acc@ =~= self.spec_bits());
        acc
    }
}

/// Little-endian bit iterator over a sequence of 64-bit limbs.
#[derive(Debug)]
pub struct BitIteratorLe {
    pub t: Vec<u64>,
    pub n: usize,
    pub len: usize,
}

impl BitIteratorLe {
    /// The limbs the iterator walks.
    pub open spec fn spec_limbs(&self) -> Seq<u64> {
        self.t@
    }

    /// The position of the next bit to hand out.
    pub open spec fn spec_pos(&self) -> int {
        self.n as int
    }

    pub open spec fn wf(&self) -> bool {
        self.len == self.t@.len() * 64 && self.n <= self.len
    }

    pub fn new(t: Vec<u64>) -> (r: BitIteratorLe)
        requires
            t@.len() <= usize::MAX / 64,
        ensures
            r.wf(),
            r.spec_limbs() == t@,
            r.spec_pos() == 0,
    {
        let len = t.len() * 64;
        BitIteratorLe { t, n: 0, len }
    }

    /// Hand out the bit at the current position and advance, or report the
    /// end of the limbs.
    pub fn next(&mut self) -> (r: Option<bool>)
        requires
            old(self).wf(),
        ensures
            final(self).wf(),
            final(self).spec_limbs() == old(self).spec_limbs(),
            old(self).spec_pos() < old(self).spec_limbs().len() * 64 ==> (
                r == Some(limb_bit(old(self).spec_limbs(), old(self).spec_pos()))
                && final(self).spec_pos() == old(self).spec_pos() + 1
            ),
            old(self).spec_pos() >= old(self).spec_limbs().len() * 64 ==> (
                r is None && final(self).spec_pos() == old(self).spec_pos()
            ),
    {
        if self.n == self.len {
            None
        } else {
            let part = self.n / 64;
            let bit = self.n - (64 * part);
            proof {
                assert(forall|v: u64, b: u64| b < 64 ==> ((v & (1u64 << b)) > 0) == ((v >> b)
                    & 1u64 == 1u64)) by (bit_vector);
            }
            self.n += 1;
            Some(self.t[part] & (1u64 << (bit as u64)) > 0)
        }
    }
}

/// A leaf whose fields may each be unknown (during parameter generation) or
/// known (during proving).
#[derive(Clone, Copy)]
pub struct LeafWitness {
    pub id: Option<Fe>,
    pub balance: Option<Fe>,
}

/// A leaf record: an identifier and a balance, each within its declared bit
/// width.
#[derive(Clone, Copy)]
pub struct Leaf {
    pub id: Fe,
    pub balance: Fe,
}

impl Leaf {
    /// Both fields are canonical and fit their declared widths; values are
    /// zero-padded, never truncated.
    pub open spec fn wf(&self) -> bool {
        self.id.wf() && self.balance.wf() && fits(self.id@, ID_BIT_LENGTH as int) && fits(
            self.balance@,
            BALANCE_BIT_LENGTH as int,
        )
    }
}

impl GetBits for Leaf {
    open spec fn spec_bits(&self) -> Seq<bool> {
        self.id@.take(ID_BIT_LENGTH as int) + self.balance@.take(BALANCE_BIT_LENGTH as int)
    }

    /// The identifier's 128 bits followed by the balance's 128 bits.
    fn get_bits_le(&self) -> (r: Vec<bool>) {
        let mut leaf_content = self.id.get_bits_le_fixed(ID_BIT_LENGTH);
        let mut balance_bits = self.balance.get_bits_le_fixed(BALANCE_BIT_LENGTH);
        leaf_content.append(&mut balance_bits);
        assert(leaf_content@ =~= self.spec_bits());
        leaf_content
    }
}

impl Default for Leaf {
    /// The default leaf: identifier and balance both zero.
    fn default() -> (r: Leaf)
        ensures
            r.wf(),
            forall|i: int| 0 <= i < FE_BITS ==> !r.id@[i],
            forall|i: int| 0 <= i < FE_BITS ==> !r.balance@[i],
    {
        Leaf { id: Fe::zero(), balance: Fe::zero() }
    }
}

/// A circuit wire bundle: a numeric value, its fixed-length boolean bit
/// decomposition, and the declared bit length.
pub struct CircuitElement {
    pub number: Fe,
    pub bits_le: Vec<bool>,
    pub length: usize,
}

impl CircuitElement {
    pub open spec fn spec_number(&self) -> Fe {
        self.number
    }

    pub open spec fn spec_length(&self) -> int {
        self.length as int
    }

    /// The bit wires are exactly the declared count and each one mirrors the
    /// corresponding bit of the number.
    pub open spec fn wf(&self) -> bool {
        self.number.wf() && self.bits_le@.len() == self.length && self.length <= FE_BITS
            && forall|i: int| 0 <= i < self.length ==> self.bits_le@[i] == self.number@[i]
    }

    /// The decomposition constraint: the weighted sum of the bit wires equals
    /// the number.  It holds exactly when the value fits the declared length;
    /// a wider value makes the surrounding constraint system unsatisfiable.
    pub open spec fn decomposition_holds(&self) -> bool {
        fits(self.number@, self.length as int)
    }

    pub fn get_bits_le(&self) -> (r: Vec<bool>)
        ensures
            r@ == self.bits_le@,
    {
        let mut r: Vec<bool> = Vec::new();
        let mut i: usize = 0;
        while i < self.bits_le.len()
            invariant
                i <= self.bits_le@.len(),
                r@ == self.bits_le@.take(i as int),
            decreases self.bits_le@.len() - i,
        {
            r.push(self.bits_le[i]);
            i += 1;
        }
        assert(r@ =~= self.bits_le@);
        r
    }

    /// Whether the decomposition constraint is met by this witness.
    pub fn check_decomposition(&self) -> (r: bool)
        requires
            self.wf(),
        ensures
            r == self.decomposition_holds(),
    {
        let mut i: usize = self.length;
        while i < FE_BITS
            invariant
                self.wf(),
                self.length <= i <= FE_BITS,
                forall|j: int| self.length <= j < i ==> !self.number@[j],
            decreases FE_BITS - i,
        {
            if self.number.get_bit(i) {
                return false;
            }
            i += 1;
        }
        true
    }

    /// Decompose a witnessed field element into exactly `max_length` boolean
    /// wires, or fail when the witness is absent.
    pub fn from_fe_with_known_length(field_element: &Option<Fe>, max_length: usize) -> (r: Result<
        CircuitElement,
        SynthesisError,
    >)
        requires
            max_length <= FR_NUM_BITS,
            field_element matches Some(fe) ==> fe.wf(),
        ensures
            r is Err <==> field_element is None,
            r matches Ok(ce) ==> {
                &&& ce.wf()
                &&& ce.spec_number() == field_element->Some_0
                &&& ce.spec_length() == max_length
            },
    {
        match field_element {
            None => Err(SynthesisError::AssignmentMissing),
            Some(number) => Self::from_number_with_known_length(*number, max_length),
        }
    }

    /// Decompose a field element into exactly `max_length` boolean wires.
    /// Within the safe capacity a direct fixed-length decomposition is used;
    /// at the full field width the stricter decomposition applies, which also
    /// pins the value below the modulus — native well-formedness already
    /// grants that, so the bits are simply the full-width decomposition.
    pub fn from_number_with_known_length(number: Fe, max_length: usize) -> (r: Result<
        CircuitElement,
        SynthesisError,
    >)
        requires
            max_length <= FR_NUM_BITS,
            number.wf(),
        ensures
            r matches Ok(ce) && ce.wf() && ce.spec_number() == number && ce.spec_length()
                == max_length,
            r matches Ok(ce) ==> (max_length > FR_CAPACITY ==> ce.decomposition_holds()),
    {
        let bits = if max_length <= FR_CAPACITY {
            number.get_bits_le_fixed(max_length)
        } else {
            proof {
                crate::field::lemma_wf_fits_254(number);
            }
            number.get_bits_le_fixed(FR_NUM_BITS)
        };
        Ok(CircuitElement { number, bits_le: bits, length: max_length })
    }
}

/// The circuit-side image of a leaf: both fields decomposed to their declared
/// widths.
pub struct CircuitLeaf {
    pub id: CircuitElement,
    pub balance: CircuitElement,
}

/// Decompose both leaf fields, or fail when either witness value is absent.
pub fn get_circuit_leaf_from_witness(leaf_witness: &LeafWitness) -> (r: Result<
    CircuitLeaf,
    SynthesisError,
>)
    requires
        leaf_witness.id matches Some(fe) ==> fe.wf(),
        leaf_witness.balance matches Some(fe) ==> fe.wf(),
    ensures
        r is Err <==> (leaf_witness.id is None || leaf_witness.balance is None),
        r matches Ok(cl) ==> {
            &&& cl.id.wf()
            &&& cl.id.spec_number() == leaf_witness.id->0
            &&& cl.id.spec_length() == ID_BIT_LENGTH
            &&& cl.balance.wf()
            &&& cl.balance.spec_number() == leaf_witness.balance->0
            &&& cl.balance.spec_length() == BALANCE_BIT_LENGTH
        },
{
    let id = CircuitElement::from_fe_with_known_length(&leaf_witness.id, ID_BIT_LENGTH)?;
    let balance = CircuitElement::from_fe_with_known_length(
        &leaf_witness.balance,
        BALANCE_BIT_LENGTH,
    )?;
    Ok(CircuitLeaf { id, balance })
}

/// Take every sibling value out of the witness vector, or fail on the first
/// absent one.
pub fn allocate_numbers_vec(witness_vec: &Vec<Option<Fe>>) -> (r: Result<Vec<Fe>, SynthesisError>)
    requires
        forall|i: int| 0 <= i < witness_vec@.len() ==> (#[trigger] witness_vec@[i] matches Some(fe)
            ==> fe.wf()),
    ensures
        r is Err <==> exists|i: int| 0 <= i < witness_vec@.len() && witness_vec@[i] is None,
        r matches Ok(v) ==> {
            &&& v@.len() == witness_vec@.len()
            &&& forall|i: int| 0 <= i < v@.len() ==> witness_vec@[i] == Some(v@[i])
        },
{
    let mut allocated: Vec<Fe> = Vec::new();
    let mut i: usize = 0;
    while i < witness_vec.len()
        invariant
            i <= witness_vec@.len(),
            allocated@.len() == i,
            forall|j: int| 0 <= j < i ==> witness_vec@[j] == Some(allocated@[j]),
        decreases witness_vec@.len() - i,
    {
        match &witness_vec[i] {
            None => {
                return Err(SynthesisError::AssignmentMissing);
            },
            Some(fe) => {
                allocated.push(*fe);
            },
        }
        i += 1;
    }
    Ok(allocated)
}

} // verus!
