//! The `DNA` value type: a pool of `pool_size` genes, each a fixed-width
//! sequence of `gene_size` bits, together with point mutation (zeroing),
//! the numeric latent projection, the similarity metric, generation and
//! the crossover/merge operator.

use vstd::prelude::*;

use crate::rng::{draw, states, Rng};

verus! {

/// The error taxonomy of the engine. Every failure is a returned value,
/// never a panic.
#[derive(Clone, Copy, Debug, PartialEq, Eq, Structural)]
pub enum GenomeError {
    /// A string failed structural validation before an operation.
    InvalidEncoding,
    /// Decoding was attempted on a malformed string.
    DecodeError,
    /// Two operands have different `pool_size` or `gene_size`.
    ShapeMismatch,
    /// A gene index is not below `pool_size`.
    PositionOutOfRange,
}

/// A fixed-width unit of genetic information: an ordered sequence of bits.
#[derive(Clone, Debug)]
pub struct Gene {
    pub bits: Vec<bool>,
}

impl View for Gene {
    type V = Seq<bool>;

    open spec fn view(&self) -> Seq<bool> {
        self.bits@
    }
}

/// An ordered, fixed-length pool of `pool_size` genes of uniform width
/// `gene_size`.
#[derive(Clone, Debug)]
pub struct DNA {
    pub pool_size: u16,
    pub gene_size: u16,
    pub genes: Vec<Gene>,
}

impl DNA {
    /// Well-formedness: the pool holds exactly `pool_size` genes and every
    /// gene is exactly `gene_size` bits wide.
    pub open spec fn wf(self) -> bool {
        &&& self.genes@.len() == self.pool_size
        &&& forall|i: int|
            0 <= i < self.genes@.len() ==> (#[trigger] self.genes@[i])@.len() == self.gene_size
    }

    /// The mathematical content of a DNA: its genes as a sequence of bit
    /// sequences.
    pub open spec fn bits(self) -> Seq<Seq<bool>> {
        self.genes@.map(|i: int, g: Gene| g@)
    }
}

impl Gene {
    /// A gene of the given width with every bit clear.
    pub fn zeroed(width: u16) -> (r: Gene)
        ensures
            r@ == Seq::new(width as nat, |j: int| false),
    {
        let mut bits: Vec<bool> = Vec::new();
        let mut j: usize = 0;
        while j < width as usize
            invariant
                j <= width as usize,
                bits@ == Seq::new(j as nat, |k: int| false),
            decreases width as usize - j,
        {
            bits.push(false);
            proof {
                assert(bits@ =~= Seq::new((j + 1) as nat, |k: int| false));
            }
            j += 1;
        }
        let g = Gene { bits };
        proof {
            assert(g@ =~= Seq::new(width as nat, |j: int| false));
        }
        g
    }

    /// Clears every bit of the gene, keeping its width.
    pub fn zero(&mut self)
        ensures
            final(self)@.len() == old(self)@.len(),
            final(self)@ == Seq::new(old(self)@.len(), |j: int| false),
    {
        let n = self.bits.len();
        let mut j: usize = 0;
        while j < n
            invariant
                j <= n,
                self.bits@.len() == n,
                forall|k: int| 0 <= k < j ==> self.bits@[k] == false,
                forall|k: int| j <= k < n ==> self.bits@[k] == old(self).bits@[k],
            decreases n - j,
        {
            self.bits.set(j, false);
            j += 1;
        }
        proof {
            assert(self@ =~= Seq::new(old(self)@.len(), |j: int| false));
        }
    }
}

/// The latent projection of a gene pool of width `g`: one number per bit,
/// gene order preserved; bit `j` of gene `i` lands at index `i * g + j`.
pub open spec fn latent(genes: Seq<Seq<bool>>, g: nat) -> Seq<u8> {
    Seq::new(
        genes.len() * g,
        |k: int|
            if genes[k / (g as int)][k % (g as int)] {
                1u8
            } else {
                0u8
            },
    )
}

impl DNA {
    /// Flattens the gene pool into a numeric vector, one element per bit
    /// (1 for a set bit, 0 for a clear one), preserving gene order. The
    /// length is always `pool_size * gene_size`.
    pub fn to_latent_vec(&self) -> (r: Vec<u8>)
        requires
            self.wf(),
        ensures
            r@ == latent(self.bits(), self.gene_size as nat),
            r@.len() == self.pool_size as nat * self.gene_size as nat,
    {
        let g = self.gene_size as usize;
        let p = self.pool_size as usize;
        let ghost target = latent(self.bits(), self.gene_size as nat);
        let mut out: Vec<u8> = Vec::new();
        let mut i: usize = 0;
        while i < p
            invariant
                self.wf(),
                i <= p,
                p == self.pool_size,
                g == self.gene_size,
                target == latent(self.bits(), self.gene_size as nat),
                out@.len() == i * g,
                forall|k: int| 0 <= k < out@.len() ==> out@[k] == target[k],
            decreases p - i,
        {
            let mut j: usize = 0;
            while j < g
                invariant
                    self.wf(),
                    i < p,
                    j <= g,
                    p == self.pool_size,
                    g == self.gene_size,
                    target == latent(self.bits(), self.gene_size as nat),
                    out@.len() == i * g + j,
                    forall|k: int| 0 <= k < out@.len() ==> out@[k] == target[k],
                decreases g - j,
            {
                proof {
                    vstd::arithmetic::mul::lemma_mul_upper_bound(
                        i as int,
                        p as int - 1,
                        g as int,
                        g as int,
                    );
                    vstd::arithmetic::div_mod::lemma_fundamental_div_mod_converse_div(
                        i * g + j,
                        g as int,
                        i as int,
                        j as int,
                    );
                    vstd::arithmetic::div_mod::lemma_fundamental_div_mod_converse_mod(
                        i * g + j,
                        g as int,
                        i as int,
                        j as int,
                    );
                    vstd::arithmetic::mul::lemma_mul_is_distributive_add_other_way(
                        g as int,
                        p as int - 1,
                        1,
                    );
                }
                let bit = self.genes[i].bits[j];
                out.push(if bit {
                    1
                } else {
                    0
                });
                j += 1;
            }
            proof {
                vstd::arithmetic::mul::lemma_mul_is_distributive_add_other_way(g as int, i as int, 1);
            }
            i += 1;
        }
        proof {
            assert(out@ =~= target);
        }
        out
    }

    /// Structural equality of two well-formed DNA values: same shape and
    /// the same bits in every position.
    pub fn equals(&self, other: &DNA) -> (r: bool)
        requires
            self.wf(),
            other.wf(),
        ensures
            r == (self.pool_size == other.pool_size && self.gene_size == other.gene_size
                && self.bits() == other.bits()),
    {
        if self.pool_size != other.pool_size || self.gene_size != other.gene_size {
            return false;
        }
        let p = self.pool_size as usize;
        let g = self.gene_size as usize;
        let mut i: usize = 0;
        while i < p
            invariant
                self.wf(),
                other.wf(),
                i <= p,
                p == self.pool_size == other.pool_size,
                g == self.gene_size == other.gene_size,
                forall|a: int| 0 <= a < i ==> self.bits()[a] == other.bits()[a],
            decreases p - i,
        {
            let mut j: usize = 0;
            while j < g
                invariant
                    self.wf(),
                    other.wf(),
                    i < p,
                    j <= g,
                    p == self.pool_size == other.pool_size,
                    g == self.gene_size == other.gene_size,
                    forall|b: int| 0 <= b < j ==> self.bits()[i as int][b] == other.bits()[i as int][b],
                decreases g - j,
            {
                if self.genes[i].bits[j] != other.genes[i].bits[j] {
                    proof {
                        assert(self.bits()[i as int] == self.genes@[i as int]@);
                        assert(other.bits()[i as int] == other.genes@[i as int]@);
                        assert(self.bits()[i as int][j as int] != other.bits()[i as int][j as int]);
                    }
                    return false;
                }
                j += 1;
            }
            proof {
                assert(self.bits()[i as int] =~= other.bits()[i as int]);
            }
            i += 1;
        }
        proof {
            assert(self.bits() =~= other.bits());
        }
        true
    }

    /// Validates `position < pool_size` (failing with `PositionOutOfRange`
    /// otherwise, and exactly then) and clears every bit of the gene at
    /// `position`, leaving all other genes untouched.
    pub fn zero_at(&mut self, position: u16) -> (r: Result<(), GenomeError>)
        requires
            old(self).wf(),
        ensures
            final(self).wf(),
            final(self).pool_size == old(self).pool_size,
            final(self).gene_size == old(self).gene_size,
            r == Err::<(), GenomeError>(GenomeError::PositionOutOfRange) <==> position
                >= old(self).pool_size,
            position >= old(self).pool_size ==> *final(self) == *old(self),
            position < old(self).pool_size ==> {
                &&& r == Ok::<(), GenomeError>(())
                &&& final(self).bits() == old(self).bits().update(
                    position as int,
                    Seq::new(old(self).gene_size as nat, |j: int| false),
                )
            },
    {
        if position >= self.pool_size {
            return Err(GenomeError::PositionOutOfRange);
        }
        let zero_gene = Gene::zeroed(self.gene_size);
        self.genes.set(position as usize, zero_gene);
        proof {
            assert(self.bits() =~= old(self).bits().update(
                position as int,
                Seq::new(old(self).gene_size as nat, |j: int| false),
            ));
        }
        Ok(())
    }
}

/// How many bit positions two genes agree on (over their common width).
pub open spec fn gene_matches(x: Seq<bool>, y: Seq<bool>) -> nat
    decreases x.len(),
{
    if x.len() == 0 || y.len() == 0 {
        0
    } else {
        gene_matches(x.drop_last(), y.drop_last()) + if x.last() == y.last() {
            1nat
        } else {
            0nat
        }
    }
}

/// The similarity of two gene pools: the total number of bit positions on
/// which corresponding genes agree. For two well-formed DNA of the same
/// shape the maximum is `pool_size * gene_size`, reached exactly on
/// identical bits.
pub open spec fn similarity(a: Seq<Seq<bool>>, b: Seq<Seq<bool>>) -> nat
    decreases a.len(),
{
    if a.len() == 0 || b.len() == 0 {
        0
    } else {
        similarity(a.drop_last(), b.drop_last()) + gene_matches(a.last(), b.last())
    }
}

/// Gene-level symmetry: matching bit positions do not depend on the order
/// of the two genes.
pub proof fn lemma_gene_matches_symmetric(x: Seq<bool>, y: Seq<bool>)
    ensures
        gene_matches(x, y) == gene_matches(y, x),
    decreases x.len(),
{
    if x.len() == 0 || y.len() == 0 {
    } else {
        lemma_gene_matches_symmetric(x.drop_last(), y.drop_last());
    }
}

/// A gene agrees with itself on every bit position.
pub proof fn lemma_gene_matches_self(x: Seq<bool>)
    ensures
        gene_matches(x, x) == x.len(),
    decreases x.len(),
{
    if x.len() == 0 {
    } else {
        lemma_gene_matches_self(x.drop_last());
    }
}

/// Matching positions never exceed the first gene's width.
pub proof fn lemma_gene_matches_bound(x: Seq<bool>, y: Seq<bool>)
    ensures
        gene_matches(x, y) <= x.len(),
    decreases x.len(),
{
    if x.len() == 0 || y.len() == 0 {
    } else {
        lemma_gene_matches_bound(x.drop_last(), y.drop_last());
    }
}

/// Symmetry of the similarity metric: `similarity(a, b) == similarity(b, a)`
/// for all gene pools `a`, `b`.
pub proof fn lemma_similarity_symmetric(a: Seq<Seq<bool>>, b: Seq<Seq<bool>>)
    ensures
        similarity(a, b) == similarity(b, a),
    decreases a.len(),
{
    if a.len() == 0 || b.len() == 0 {
    } else {
        lemma_similarity_symmetric(a.drop_last(), b.drop_last());
        lemma_gene_matches_symmetric(a.last(), b.last());
    }
}

/// Self-similarity: a pool of `n` genes of uniform width `g` compared with
/// itself scores the maximum, `n * g`.
pub proof fn lemma_similarity_self(a: Seq<Seq<bool>>, g: nat)
    requires
        forall|i: int| 0 <= i < a.len() ==> (#[trigger] a[i]).len() == g,
    ensures
        similarity(a, a) == a.len() * g,
    decreases a.len(),
{
    if a.len() == 0 {
    } else {
        lemma_similarity_self(a.drop_last(), g);
        lemma_gene_matches_self(a.last());
        vstd::arithmetic::mul::lemma_mul_is_distributive_sub_other_way(
            g as int,
            a.len() as int,
            1,
        );
    }
}

/// Similarity is bounded by the first pool's bit count when its genes are
/// at most `g` wide.
pub proof fn lemma_similarity_bound(a: Seq<Seq<bool>>, b: Seq<Seq<bool>>, g: nat)
    requires
        forall|i: int| 0 <= i < a.len() ==> (#[trigger] a[i]).len() <= g,
    ensures
        similarity(a, b) <= a.len() * g,
    decreases a.len(),
{
    if a.len() == 0 || b.len() == 0 {
        vstd::arithmetic::mul::lemma_mul_nonnegative(a.len() as int, g as int);
    } else {
        lemma_similarity_bound(a.drop_last(), b.drop_last(), g);
        lemma_gene_matches_bound(a.last(), b.last());
        vstd::arithmetic::mul::lemma_mul_is_distributive_sub_other_way(
            g as int,
            a.len() as int,
            1,
        );
    }
}

impl DNA {
    /// The largest value `compare` can return for this shape: the total
    /// bit count `pool_size * gene_size`, reached exactly when a DNA is
    /// compared with one holding identical bits.
    pub fn max_similarity(&self) -> (r: u32)
        ensures
            r as int == self.pool_size as int * self.gene_size as int,
    {
        proof {
            vstd::arithmetic::mul::lemma_mul_upper_bound(
                self.pool_size as int,
                65535,
                self.gene_size as int,
                65535,
            );
            vstd::arithmetic::mul::lemma_mul_nonnegative(
                self.pool_size as int,
                self.gene_size as int,
            );
        }
        self.pool_size as u32 * self.gene_size as u32
    }

    /// The similarity of two DNA of equal shape, as a count of agreeing bit
    /// positions; `ShapeMismatch` if and only if `pool_size` or `gene_size`
    /// differ.
    pub fn compare(dna1: DNA, dna2: DNA) -> (r: Result<u32, GenomeError>)
        requires
            dna1.wf(),
            dna2.wf(),
        ensures
            r == Err::<u32, GenomeError>(GenomeError::ShapeMismatch) <==> !(dna1.pool_size
                == dna2.pool_size && dna1.gene_size == dna2.gene_size),
            dna1.pool_size == dna2.pool_size && dna1.gene_size == dna2.gene_size ==> r
                == Ok::<u32, GenomeError>(similarity(dna1.bits(), dna2.bits()) as u32),
    {
        if dna1.pool_size != dna2.pool_size || dna1.gene_size != dna2.gene_size {
            return Err(GenomeError::ShapeMismatch);
        }
        let p = dna1.pool_size as usize;
        let g = dna1.gene_size as usize;
        let ghost a = dna1.bits();
        let ghost b = dna2.bits();
        let mut total: u32 = 0;
        let mut i: usize = 0;
        while i < p
            invariant
                dna1.wf(),
                dna2.wf(),
                i <= p,
                p == dna1.pool_size == dna2.pool_size,
                g == dna1.gene_size == dna2.gene_size,
                a == dna1.bits(),
                b == dna2.bits(),
                total == similarity(a.take(i as int), b.take(i as int)),
                total <= i * g,
            decreases p - i,
        {
            let mut cnt: u32 = 0;
            let mut j: usize = 0;
            while j < g
                invariant
                    dna1.wf(),
                    dna2.wf(),
                    i < p,
                    j <= g,
                    p == dna1.pool_size == dna2.pool_size,
                    g == dna1.gene_size == dna2.gene_size,
                    a == dna1.bits(),
                    b == dna2.bits(),
                    cnt == gene_matches(a[i as int].take(j as int), b[i as int].take(j as int)),
                    cnt <= j,
                decreases g - j,
            {
                let ghost xs = a[i as int].take(j as int + 1);
                let ghost ys = b[i as int].take(j as int + 1);
                proof {
                    assert(xs.drop_last() =~= a[i as int].take(j as int));
                    assert(ys.drop_last() =~= b[i as int].take(j as int));
                    assert(a[i as int] == dna1.genes@[i as int]@);
                    assert(b[i as int] == dna2.genes@[i as int]@);
                }
                if dna1.genes[i].bits[j] == dna2.genes[i].bits[j] {
                    cnt += 1;
                }
                j += 1;
            }
            proof {
                assert(a[i as int].take(g as int) =~= a[i as int]);
                assert(b[i as int].take(g as int) =~= b[i as int]);
                assert(a.take(i as int + 1).drop_last() =~= a.take(i as int));
                assert(b.take(i as int + 1).drop_last() =~= b.take(i as int));
                assert(a.take(i as int + 1).last() == a[i as int]);
                vstd::arithmetic::mul::lemma_mul_is_distributive_add_other_way(
                    g as int,
                    i as int,
                    1,
                );
                vstd::arithmetic::mul::lemma_mul_upper_bound(
                    i as int + 1,
                    p as int,
                    g as int,
                    g as int,
                );
                assert(p as int * g as int <= 65535 * 65535) by (nonlinear_arith)
                    requires
                        0 <= p as int <= 65535,
                        0 <= g as int <= 65535,
                ;
            }
            total += cnt;
            i += 1;
        }
        proof {
            assert(a.take(p as int) =~= a);
            assert(b.take(p as int) =~= b);
        }
        Ok(total)
    }
}

/// The gene pool produced by `p * g` successive draws from generator state
/// `s0`: bit `j` of gene `i` comes from draw number `i * g + j` (its lowest
/// bit).
pub open spec fn generated(p: nat, g: nat, s0: u64) -> Seq<Seq<bool>> {
    Seq::new(
        p,
        |i: int| Seq::new(g, |j: int| draw(s0, (i * g + j) as nat) & 1 == 1),
    )
}

/// The deterministic recombination rule: gene `i` of the child comes from
/// the first parent on even positions and from the second parent on odd
/// positions.
pub open spec fn crossover(a: Seq<Seq<bool>>, b: Seq<Seq<bool>>) -> Seq<Seq<bool>> {
    Seq::new(
        a.len(),
        |i: int|
            if i % 2 == 0 {
                a[i]
            } else {
                b[i]
            },
    )
}

/// Whether the mutation pass flips bit `j` of gene `i`: one draw per bit,
/// a flip when its low four bits are zero (a fixed rate of 1 in 16).
pub open spec fn mutation_flip(s0: u64, g: nat, i: int, j: int) -> bool {
    draw(s0, (i * g + j) as nat) & 0xF == 0
}

/// A gene pool of width `g` after the mutation pass driven by generator
/// state `s0`.
pub open spec fn mutated(genes: Seq<Seq<bool>>, g: nat, s0: u64) -> Seq<Seq<bool>> {
    Seq::new(
        genes.len(),
        |i: int| Seq::new(g, |j: int| genes[i][j] != mutation_flip(s0, g, i, j)),
    )
}

impl DNA {
    /// Constructs a DNA of exactly `pool_size` genes of width `gene_size`,
    /// every bit drawn from the generator: one draw per bit, in gene order.
    pub fn new(pool_size: u16, gene_size: u16, rng: &mut Rng) -> (r: DNA)
        ensures
            r.wf(),
            r.pool_size == pool_size,
            r.gene_size == gene_size,
            r.bits() == generated(pool_size as nat, gene_size as nat, old(rng).state),
            final(rng).state == states(
                old(rng).state,
                pool_size as nat * gene_size as nat,
            ),
    {
        let ghost s0 = rng.state;
        let ghost target = generated(pool_size as nat, gene_size as nat, s0);
        let p = pool_size as usize;
        let g = gene_size as usize;
        let mut genes: Vec<Gene> = Vec::new();
        let mut i: usize = 0;
        while i < p
            invariant
                i <= p,
                p == pool_size,
                g == gene_size,
                target == generated(pool_size as nat, gene_size as nat, s0),
                rng.state == states(s0, (i * g) as nat),
                genes@.len() == i,
                forall|a: int| 0 <= a < i ==> (#[trigger] genes@[a])@ == target[a],
            decreases p - i,
        {
            let mut bits: Vec<bool> = Vec::new();
            let mut j: usize = 0;
            while j < g
                invariant
                    i < p,
                    j <= g,
                    p == pool_size,
                    g == gene_size,
                    target == generated(pool_size as nat, gene_size as nat, s0),
                    rng.state == states(s0, (i * g + j) as nat),
                    bits@.len() == j,
                    forall|b: int| 0 <= b < j ==> bits@[b] == target[i as int][b],
                decreases g - j,
            {
                proof {
                    vstd::arithmetic::mul::lemma_mul_nonnegative(i as int, g as int);
                }
                let v = rng.next_u64();
                bits.push(v & 1 == 1);
                j += 1;
            }
            proof {
                assert(bits@ =~= target[i as int]);
                vstd::arithmetic::mul::lemma_mul_is_distributive_add_other_way(
                    g as int,
                    i as int,
                    1,
                );
            }
            genes.push(Gene { bits });
            i += 1;
        }
        let d = DNA { pool_size, gene_size, genes };
        proof {
            assert(d.bits() =~= target);
        }
        d
    }

    /// Combines two parents of equal shape into a child of that same shape
    /// (`ShapeMismatch` if and only if the shapes differ): deterministic
    /// alternating crossover, followed — only when `allow_mutation` holds —
    /// by a pseudo-random mutation pass that flips bits at a fixed rate.
    /// Without mutation the result is a pure function of the parents and
    /// the generator is left untouched.
    pub fn merge(dna1: DNA, dna2: DNA, allow_mutation: bool, rng: &mut Rng) -> (r: Result<
        DNA,
        GenomeError,
    >)
        requires
            dna1.wf(),
            dna2.wf(),
        ensures
            r == Err::<DNA, GenomeError>(GenomeError::ShapeMismatch) <==> !(dna1.pool_size
                == dna2.pool_size && dna1.gene_size == dna2.gene_size),
            !(dna1.pool_size == dna2.pool_size && dna1.gene_size == dna2.gene_size)
                ==> final(rng).state == old(rng).state,
            dna1.pool_size == dna2.pool_size && dna1.gene_size == dna2.gene_size ==> ({
                &&& r matches Ok(c)
                &&& c.wf()
                &&& c.pool_size == dna1.pool_size
                &&& c.gene_size == dna1.gene_size
                &&& c.bits() == if allow_mutation {
                    mutated(
                        crossover(dna1.bits(), dna2.bits()),
                        dna1.gene_size as nat,
                        old(rng).state,
                    )
                } else {
                    crossover(dna1.bits(), dna2.bits())
                }
                &&& final(rng).state == if allow_mutation {
                    states(old(rng).state, dna1.pool_size as nat * dna1.gene_size as nat)
                } else {
                    old(rng).state
                }
            }),
    {
        if dna1.pool_size != dna2.pool_size || dna1.gene_size != dna2.gene_size {
            return Err(GenomeError::ShapeMismatch);
        }
        let ghost s0 = rng.state;
        let ghost cross = crossover(dna1.bits(), dna2.bits());
        let ghost target = if allow_mutation {
            mutated(cross, dna1.gene_size as nat, s0)
        } else {
            cross
        };
        let p = dna1.pool_size as usize;
        let g = dna1.gene_size as usize;
        let mut genes: Vec<Gene> = Vec::new();
        let mut i: usize = 0;
        while i < p
            invariant
                dna1.wf(),
                dna2.wf(),
                i <= p,
                p == dna1.pool_size == dna2.pool_size,
                g == dna1.gene_size == dna2.gene_size,
                cross == crossover(dna1.bits(), dna2.bits()),
                target == if allow_mutation {
                    mutated(cross, dna1.gene_size as nat, s0)
                } else {
                    cross
                },
                rng.state == if allow_mutation {
                    states(s0, (i * g) as nat)
                } else {
                    s0
                },
                genes@.len() == i,
                forall|a: int| 0 <= a < i ==> (#[trigger] genes@[a])@ == target[a],
                forall|a: int| 0 <= a < i ==> (#[trigger] genes@[a])@.len() == g,
            decreases p - i,
        {
            let mut bits: Vec<bool> = Vec::new();
            let mut j: usize = 0;
            while j < g
                invariant
                    dna1.wf(),
                    dna2.wf(),
                    i < p,
                    j <= g,
                    p == dna1.pool_size == dna2.pool_size,
                    g == dna1.gene_size == dna2.gene_size,
                    cross == crossover(dna1.bits(), dna2.bits()),
                    target == if allow_mutation {
                        mutated(cross, dna1.gene_size as nat, s0)
                    } else {
                        cross
                    },
                    rng.state == if allow_mutation {
                        states(s0, (i * g + j) as nat)
                    } else {
                        s0
                    },
                    bits@.len() == j,
                    forall|b: int| 0 <= b < j ==> bits@[b] == target[i as int][b],
                decreases g - j,
            {
                proof {
                    vstd::arithmetic::mul::lemma_mul_nonnegative(i as int, g as int);
                    assert(dna1.bits()[i as int] == dna1.genes@[i as int]@);
                    assert(dna2.bits()[i as int] == dna2.genes@[i as int]@);
                }
                let parent_bit = if i % 2 == 0 {
                    dna1.genes[i].bits[j]
                } else {
                    dna2.genes[i].bits[j]
                };
                let bit = if allow_mutation {
                    let v = rng.next_u64();
                    parent_bit != (v & 0xF == 0)
                } else {
                    parent_bit
                };
                bits.push(bit);
                j += 1;
            }
            proof {
                assert(bits@ =~= target[i as int]);
                vstd::arithmetic::mul::lemma_mul_is_distributive_add_other_way(
                    g as int,
                    i as int,
                    1,
                );
            }
            genes.push(Gene { bits });
            i += 1;
        }
        let c = DNA { pool_size: dna1.pool_size, gene_size: dna1.gene_size, genes };
        proof {
            assert(c.bits() =~= target);
        }
        Ok(c)
    }
}

} // verus!
