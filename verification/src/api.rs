//! The engine's operations as consumed by an external request layer:
//! plain, pre-parsed inputs in, plain values out, every failure a value
//! of [`GenomeError`]. Each operation validates, decodes, computes and
//! packs the transport fields of the result into a [`DnaInfo`].

use vstd::pervasive::unreached;
use vstd::prelude::*;

use crate::codec::{encode_chars, lemma_encodes_injective, spec_decode, spec_encodes, spec_is_valid};
use crate::dna::{crossover, latent, mutated, similarity, GenomeError, DNA};
use crate::rng::{states, Rng};

verus! {

/// The plain values a caller serializes for transport: the shape, the
/// canonical string form, the latent vector and its length.
#[derive(Debug)]
pub struct DnaInfo {
    pub pool_size: u16,
    pub gene_size: u16,
    pub dna_str: String,
    pub raw_value: Vec<u8>,
    pub raw_size: usize,
}

/// The info record faithfully describes the pool `bits` of shape `p`, `g`.
pub open spec fn info_matches(info: DnaInfo, p: u16, g: u16, bits: Seq<Seq<bool>>) -> bool {
    &&& info.pool_size == p
    &&& info.gene_size == g
    &&& info.dna_str@ == encode_chars(p as nat, g as nat, bits)
    &&& info.raw_value@ == latent(bits, g as nat)
    &&& info.raw_size == p as nat * g as nat
}

/// Packs the transport fields of a well-formed DNA.
fn dna_info(d: &DNA) -> (r: DnaInfo)
    requires
        d.wf(),
    ensures
        info_matches(r, d.pool_size, d.gene_size, d.bits()),
{
    let dna_str = d.to_string();
    let raw_value = d.to_latent_vec();
    let raw_size = raw_value.len();
    DnaInfo { pool_size: d.pool_size, gene_size: d.gene_size, dna_str, raw_value, raw_size }
}

/// Generates a fresh random DNA of the requested shape and reports it.
/// The engine accepts any `u16` shape; the upper bound of 512 on either
/// dimension is the caller's policy, enforced before this call.
pub fn generate_dna(pool_size: u16, gene_size: u16, rng: &mut Rng) -> (r: DnaInfo)
    ensures
        info_matches(
            r,
            pool_size,
            gene_size,
            crate::dna::generated(pool_size as nat, gene_size as nat, old(rng).state),
        ),
        final(rng).state == states(old(rng).state, pool_size as nat * gene_size as nat),
{
    let d = DNA::new(pool_size, gene_size, rng);
    dna_info(&d)
}

/// Decodes an encoded string and reports the DNA it denotes; fails with
/// `DecodeError` exactly on invalid strings. The reported string form is
/// the input itself (the round trip).
pub fn decode_dna(s: &str) -> (r: Result<DnaInfo, GenomeError>)
    ensures
        r is Ok <==> spec_is_valid(s@),
        r matches Ok(info) ==> ({
            let t = spec_decode(s@);
            &&& info_matches(info, t.0, t.1, t.2)
            &&& info.dna_str@ == s@
        }),
        r is Err ==> r == Err::<DnaInfo, GenomeError>(GenomeError::DecodeError),
{
    match DNA::from(s) {
        Ok(d) => {
            proof {
                assert(spec_encodes(s@, (d.pool_size, d.gene_size, d.bits())));
                lemma_encodes_injective(
                    s@,
                    spec_decode(s@),
                    (d.pool_size, d.gene_size, d.bits()),
                );
            }
            Ok(dna_info(&d))
        },
        Err(e) => Err(e),
    }
}

/// Compares two encoded DNA: `InvalidEncoding` when either string fails
/// validation, `ShapeMismatch` when the decoded shapes differ, otherwise
/// their similarity count.
pub fn compare_dna(s1: &str, s2: &str) -> (r: Result<u32, GenomeError>)
    ensures
        r == Err::<u32, GenomeError>(GenomeError::InvalidEncoding) <==> !(spec_is_valid(s1@)
            && spec_is_valid(s2@)),
        spec_is_valid(s1@) && spec_is_valid(s2@) ==> ({
            let t1 = spec_decode(s1@);
            let t2 = spec_decode(s2@);
            &&& (r == Err::<u32, GenomeError>(GenomeError::ShapeMismatch) <==> !(t1.0 == t2.0
                && t1.1 == t2.1))
            &&& (t1.0 == t2.0 && t1.1 == t2.1 ==> r == Ok::<u32, GenomeError>(
                similarity(t1.2, t2.2) as u32,
            ))
        }),
{
    if !DNA::is_valid(s1) || !DNA::is_valid(s2) {
        return Err(GenomeError::InvalidEncoding);
    }
    let d1 = match DNA::from(s1) {
        Ok(d) => d,
        Err(_) => unreached(),
    };
    let d2 = match DNA::from(s2) {
        Ok(d) => d,
        Err(_) => unreached(),
    };
    proof {
        lemma_encodes_injective(s1@, spec_decode(s1@), (d1.pool_size, d1.gene_size, d1.bits()));
        lemma_encodes_injective(s2@, spec_decode(s2@), (d2.pool_size, d2.gene_size, d2.bits()));
    }
    DNA::compare(d1, d2)
}

/// Merges two encoded DNA: `InvalidEncoding` when either string fails
/// validation, `ShapeMismatch` when the shapes differ, otherwise the
/// child reported in full. The generator is consumed only when a mutating
/// merge actually happens.
pub fn merge_dna(s1: &str, s2: &str, allow_mutation: bool, rng: &mut Rng) -> (r: Result<
    DnaInfo,
    GenomeError,
>)
    ensures
        r == Err::<DnaInfo, GenomeError>(GenomeError::InvalidEncoding) <==> !(spec_is_valid(s1@)
            && spec_is_valid(s2@)),
        !(spec_is_valid(s1@) && spec_is_valid(s2@)) ==> final(rng).state == old(rng).state,
        spec_is_valid(s1@) && spec_is_valid(s2@) ==> ({
            let t1 = spec_decode(s1@);
            let t2 = spec_decode(s2@);
            &&& (r == Err::<DnaInfo, GenomeError>(GenomeError::ShapeMismatch) <==> !(t1.0 == t2.0
                && t1.1 == t2.1))
            &&& (!(t1.0 == t2.0 && t1.1 == t2.1) ==> final(rng).state == old(rng).state)
            &&& (t1.0 == t2.0 && t1.1 == t2.1 ==> ({
                let child = if allow_mutation {
                    mutated(crossover(t1.2, t2.2), t1.1 as nat, old(rng).state)
                } else {
                    crossover(t1.2, t2.2)
                };
                &&& r matches Ok(info)
                &&& info_matches(info, t1.0, t1.1, child)
                &&& final(rng).state == if allow_mutation {
                    states(old(rng).state, t1.0 as nat * t1.1 as nat)
                } else {
                    old(rng).state
                }
            }))
        }),
{
    if !DNA::is_valid(s1) || !DNA::is_valid(s2) {
        return Err(GenomeError::InvalidEncoding);
    }
    let d1 = match DNA::from(s1) {
        Ok(d) => d,
        Err(_) => unreached(),
    };
    let d2 = match DNA::from(s2) {
        Ok(d) => d,
        Err(_) => unreached(),
    };
    proof {
        lemma_encodes_injective(s1@, spec_decode(s1@), (d1.pool_size, d1.gene_size, d1.bits()));
        lemma_encodes_injective(s2@, spec_decode(s2@), (d2.pool_size, d2.gene_size, d2.bits()));
    }
    match DNA::merge(d1, d2, allow_mutation, rng) {
        Ok(c) => Ok(dna_info(&c)),
        Err(e) => Err(e),
    }
}

/// Decodes an encoded DNA and zeroes the gene at `position`:
/// `DecodeError` on an invalid string, `PositionOutOfRange` if and only
/// if `position` is not below the decoded `pool_size`.
pub fn zero_dna(s: &str, position: u16) -> (r: Result<DnaInfo, GenomeError>)
    ensures
        r == Err::<DnaInfo, GenomeError>(GenomeError::DecodeError) <==> !spec_is_valid(s@),
        spec_is_valid(s@) ==> ({
            let t = spec_decode(s@);
            &&& (r == Err::<DnaInfo, GenomeError>(GenomeError::PositionOutOfRange) <==> position
                >= t.0)
            &&& (position < t.0 ==> ({
                &&& r matches Ok(info)
                &&& info_matches(
                    info,
                    t.0,
                    t.1,
                    t.2.update(position as int, Seq::new(t.1 as nat, |j: int| false)),
                )
            }))
        }),
{
    let mut d = match DNA::from(s) {
        Ok(d) => d,
        Err(e) => {
            return Err(e);
        },
    };
    proof {
        lemma_encodes_injective(s@, spec_decode(s@), (d.pool_size, d.gene_size, d.bits()));
    }
    match d.zero_at(position) {
        Ok(_) => Ok(dna_info(&d)),
        Err(e) => Err(e),
    }
}

} // verus!
