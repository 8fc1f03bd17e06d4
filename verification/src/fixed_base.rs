//! Multiples of one fixed group element, from a table of its multiples.

use crate::curve::{log_mul, Affine, Projective};
use crate::msm::lemma_scalar_bound;
use crate::scalar::{group_order, window_of, Scalar};
use vstd::arithmetic::div_mod::{
    lemma_add_mod_noop, lemma_fundamental_div_mod_converse, lemma_mod_breakdown, lemma_small_mod,
};
use vstd::arithmetic::power2::{lemma2_to64, lemma_pow2_adds, lemma_pow2_pos, pow2};
use vstd::prelude::*;

verus! {

/// The factor by which the entry at `index` multiplies the base: the digit
/// `index % 256` at the window `index / 256`.
pub open spec fn entry_factor(index: int) -> int {
    (index % 256) * pow2((8 * (index / 256)) as nat)
}

/// For each of the 32 windows of eight bits of a scalar and each of the 256
/// digits of a window, the multiple of the base that the digit stands for
/// there.
pub struct FixedBaseTable {
    base: Affine,
    entries: Vec<Affine>,
}

impl FixedBaseTable {
    /// Each entry is the multiple of the base that its place stands for.
    #[verifier::type_invariant]
    closed spec fn inv(self) -> bool {
        &&& self.entries@.len() == 8192
        &&& forall|i: int|
            0 <= i < 8192 ==> (#[trigger] self.entries@[i]).log() == log_mul(
                entry_factor(i),
                self.base.log(),
            )
    }

    /// The multiple of the generator that the base is.
    pub closed spec fn base_log(self) -> int {
        self.base.log()
    }

    /// The table of the multiples of `base`.
    pub fn new(base: &Affine) -> (table: FixedBaseTable)
        ensures
            table.base_log() == base.log(),
    {
        let ghost l = base.log();
        let mut entries: Vec<Affine> = Vec::new();
        let mut step = base.to_projective();
        let mut w: usize = 0;
        proof {
            lemma2_to64();
            lemma_small_mod(l as nat, group_order() as nat);
            assert(pow2(0) * l == l) by (nonlinear_arith)
                requires
                    pow2(0) == 1,
            ;
        }
        while w < 32
            invariant
                w <= 32,
                l == base.log(),
                entries@.len() == 256 * w,
                step.log() == log_mul(pow2((8 * w) as nat) as int, l),
                forall|i: int|
                    0 <= i < 256 * w ==> (#[trigger] entries@[i]).log() == log_mul(entry_factor(i), l),
            decreases 32 - w,
        {
            let ghost weight = pow2((8 * w) as nat) as int;
            let mut multiple = Projective::identity();
            let mut d: usize = 0;
            proof {
                assert(0 * (weight * l) == 0);
            }
            while d < 256
                invariant
                    d <= 256,
                    w < 32,
                    weight == pow2((8 * w) as nat),
                    entries@.len() == 256 * w + d,
                    step.log() == log_mul(weight, l),
                    multiple.log() == (d * (weight * l)) % group_order(),
                    forall|i: int|
                        0 <= i < 256 * w + d ==> (#[trigger] entries@[i]).log() == log_mul(
                            entry_factor(i),
                            l,
                        ),
                decreases 256 - d,
            {
                entries.push(multiple.to_affine());
                proof {
                    let i = 256 * w + d;
                    lemma_fundamental_div_mod_converse(i as int, 256, w as int, d as int);
                    assert(entry_factor(i as int) * l == d * (weight * l)) by (nonlinear_arith)
                        requires
                            entry_factor(i as int) == d * weight,
                    ;
                }
                multiple = multiple.add(&step);
                proof {
                    lemma_add_mod_noop(d * (weight * l), weight * l, group_order());
                    assert(d * (weight * l) + weight * l == (d + 1) * (weight * l))
                        by (nonlinear_arith);
                }
                d = d + 1;
            }
            step = multiple;
            proof {
                lemma2_to64();
                lemma_pow2_adds((8 * w) as nat, 8);
                assert((8 * (w + 1)) as nat == (8 * w) as nat + 8);
                assert(pow2((8 * (w + 1)) as nat) == weight * 256);
                assert(256 * (weight * l) == (weight * 256) * l) by (nonlinear_arith);
            }
            w = w + 1;
        }
        FixedBaseTable { base: *base, entries }
    }

    /// The base `scalar` times over.
    pub fn mul(&self, scalar: &Scalar) -> (p: Projective)
        ensures
            p.log() == log_mul(scalar@ as int, self.base_log()),
    {
        proof {
            use_type_invariant(self);
            lemma2_to64();
        }
        let ghost l = self.base.log();
        let ghost k = scalar@;
        let mut p = Projective::identity();
        let mut w: usize = 0;
        proof {
            assert(k % 1 == 0);
            assert(0 * l == 0);
        }
        while w < 32
            invariant
                w <= 32,
                k == scalar@,
                l == self.base.log(),
                self.entries@.len() == 8192,
                forall|i: int|
                    0 <= i < 8192 ==> (#[trigger] self.entries@[i]).log() == log_mul(
                        entry_factor(i),
                        l,
                    ),
                p.log() == ((k % pow2((8 * w) as nat)) * l) % group_order(),
            decreases 32 - w,
        {
            let start: u32 = 8 * (w as u32);
            let d = scalar.digit(start, 8);
            proof {
                lemma2_to64();
            }
            let index: usize = 256 * w + d as usize;
            let ghost weight = pow2((8 * w) as nat);
            let ghost low = k % weight;
            p = p.add_mixed(&self.entries[index]);
            proof {
                lemma_pow2_pos((8 * w) as nat);
                lemma_pow2_adds((8 * w) as nat, 8);
                lemma_fundamental_div_mod_converse(index as int, 256, w as int, d as int);
                lemma_mod_breakdown(k as int, weight as int, 256);
                assert(window_of(k, (8 * w) as nat, 8) == d);
                assert((8 * (w + 1)) as nat == (8 * w) as nat + 8);
                assert(pow2((8 * (w + 1)) as nat) == weight * 256);
                assert(k % pow2((8 * (w + 1)) as nat) == weight * d + low);
                lemma_add_mod_noop(low * l, entry_factor(index as int) * l, group_order());
                assert(low * l + (d * weight) * l == (weight * d + low) * l) by (nonlinear_arith);
            }
            w = w + 1;
        }
        proof {
            lemma_scalar_bound(*scalar);
            lemma_small_mod(k, pow2(256));
        }
        p
    }
}

} // verus!
