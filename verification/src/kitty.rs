use vstd::prelude::*;

verus! {

/// A creature's attribute payload: 16 bytes of "DNA", fixed when the
/// creature is created and never changed afterwards.
#[derive(Clone, Copy, PartialEq, Eq, Debug)]
pub struct Kitty(pub [u8; 16]);

/// Per-bit selection between two parents' bytes: wherever a selector bit is
/// set the first parent's bit is taken, wherever it is clear the second's.
pub open spec fn spec_combine(dna1: u8, dna2: u8, selector: u8) -> u8 {
    (selector & dna1) | (!selector & dna2)
}

/// Mix one byte of each parent's DNA under a one-byte selector mask.
pub fn combine_dna(dna1: u8, dna2: u8, selector: u8) -> (r: u8)
    ensures
        r == spec_combine(dna1, dna2, selector),
{
    (selector & dna1) | (!selector & dna2)
}

/// Every bit of the combined byte equals the first parent's bit where the
/// selector bit is 1 and the second parent's bit where it is 0.
pub proof fn lemma_combine_dna_bits(dna1: u8, dna2: u8, selector: u8)
    by (bit_vector)
    ensures
        forall|j: u8|
            j < 8 ==> #[trigger] ((spec_combine(dna1, dna2, selector) >> j) & 1) == (if (selector
                >> j) & 1 == 1 {
                (dna1 >> j) & 1
            } else {
                (dna2 >> j) & 1
            }),
{
}

} // verus!
