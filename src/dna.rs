//! The breeding engine: per-bit combination of two parent genomes.
use vstd::prelude::*;

verus! {

/// Number of bytes in a genome.
pub const GENOME_LEN: usize = 16;

/// A kitty's genetic payload.
pub type Genome = [u8; 16];

/// Bit `i` of `x`.
pub open spec fn bit(x: u8, i: u8) -> bool {
    (x >> i) & 1u8 == 1u8
}

/// The byte whose bit `i` is `dna1`'s bit `i` where `selector`'s bit `i` is set,
/// and `dna2`'s bit `i` otherwise.
pub open spec fn mix(dna1: u8, dna2: u8, selector: u8) -> u8 {
    (selector & dna1) | (!selector & dna2)
}

/// The genome whose byte `i` mixes byte `i` of each parent under byte `i` of
/// the selector.
pub open spec fn mix_genome(dna1: Seq<u8>, dna2: Seq<u8>, selector: Seq<u8>) -> Seq<u8> {
    Seq::new(dna1.len(), |i: int| mix(dna1[i], dna2[i], selector[i]))
}

/// Each bit of `mix` comes from exactly one parent, chosen by the selector.
pub proof fn lemma_mix_bits(dna1: u8, dna2: u8, selector: u8)
    ensures
        forall|i: u8|
            i < 8 ==> #[trigger] bit(mix(dna1, dna2, selector), i) == if bit(selector, i) {
                bit(dna1, i)
            } else {
                bit(dna2, i)
            },
{
    assert(forall|i: u8|
        i < 8 ==> #[trigger] bit((selector & dna1) | (!selector & dna2), i) == if bit(
            selector,
            i,
        ) {
            bit(dna1, i)
        } else {
            bit(dna2, i)
        }) by (bit_vector);
}

/// Combines one byte of two parent genomes: each bit comes from `dna1` where
/// the matching bit of `selector` is set, else from `dna2`.
pub fn combine_dna(dna1: u8, dna2: u8, selector: u8) -> (r: u8)
    ensures
        r == mix(dna1, dna2, selector),
        forall|i: u8|
            i < 8 ==> #[trigger] bit(r, i) == if bit(selector, i) {
                bit(dna1, i)
            } else {
                bit(dna2, i)
            },
{
    let r = (selector & dna1) | (!selector & dna2);
    proof {
        lemma_mix_bits(dna1, dna2, selector);
        assert(r == mix(dna1, dna2, selector));
    }
    r
}

/// Combines two parent genomes byte by byte under a selector genome.
pub fn combine_genome(dna1: &Genome, dna2: &Genome, selector: &Genome) -> (r: Genome)
    ensures
        r@ == mix_genome(dna1@, dna2@, selector@),
{
    let mut new_dna: Genome = [0u8; 16];
    let mut i: usize = 0;
    while i < GENOME_LEN
        invariant
            i <= GENOME_LEN,
            new_dna@.len() == GENOME_LEN,
            dna1@.len() == GENOME_LEN,
            dna2@.len() == GENOME_LEN,
            selector@.len() == GENOME_LEN,
            forall|j: int| 0 <= j < i ==> new_dna@[j] == mix(dna1@[j], dna2@[j], selector@[j]),
        decreases GENOME_LEN - i,
    {
        new_dna[i] = combine_dna(dna1[i], dna2[i], selector[i]);
        i = i + 1;
    }
    assert(new_dna@ =~= mix_genome(dna1@, dna2@, selector@));
    new_dna
}

} // verus!
