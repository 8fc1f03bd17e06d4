//! Multi-scalar multiplication: the sum of the products of scalars and group
//! elements, paired by position.

use crate::bits::log2;
use crate::coordinates::{
    affine_multiple, jacobian_sum, small, AffineCoordinates, JacobianCoordinates, Triple,
};
use crate::curve::{log_add, log_mul, Affine, Projective};
use crate::scalar::{group_order, window_of, Scalar};
use vstd::arithmetic::div_mod::{
    lemma_add_mod_noop, lemma_add_mod_noop_right, lemma_basic_div, lemma_div_denominator,
    lemma_fundamental_div_mod, lemma_mul_mod_noop_right,
};
use vstd::arithmetic::power2::{
    lemma2_to64, lemma2_to64_rest, lemma_pow2_adds, lemma_pow2_pos, lemma_pow2_strictly_increases,
    lemma_pow2_unfold, pow2,
};
use rayon::iter::{IntoParallelIterator, ParallelIterator};
use vstd::prelude::*;

verus! {

/// The sum of `weights[i] * logs[i]` over the first `n` positions.
pub open spec fn dot(weights: Seq<int>, logs: Seq<int>, n: nat) -> int
    decreases n,
{
    if n == 0 {
        0
    } else {
        dot(weights, logs, (n - 1) as nat) + weights[n - 1] * logs[n - 1]
    }
}

/// The multiples of the generator that the elements are.
pub open spec fn point_logs(bases: Seq<Affine>) -> Seq<int> {
    Seq::new(bases.len(), |i: int| bases[i].log())
}

/// The numbers that the scalars are.
pub open spec fn scalar_values(scalars: Seq<Scalar>) -> Seq<int> {
    Seq::new(scalars.len(), |i: int| scalars[i]@ as int)
}

/// How many pairs the two sequences form: the excess of the longer is left out.
pub open spec fn paired(bases: Seq<Affine>, scalars: Seq<Scalar>) -> nat {
    if bases.len() <= scalars.len() {
        bases.len()
    } else {
        scalars.len()
    }
}

/// The multiple of the generator that the sum of `scalars[i] * bases[i]` over
/// all pairs is.
pub open spec fn msm_log(bases: Seq<Affine>, scalars: Seq<Scalar>) -> int {
    dot(scalar_values(scalars), point_logs(bases), paired(bases, scalars)) % group_order()
}

/// No pair, no sum: the result is the neutral element.
pub proof fn law_msm_of_nothing(bases: Seq<Affine>, scalars: Seq<Scalar>)
    requires
        bases.len() == 0 || scalars.len() == 0,
    ensures
        msm_log(bases, scalars) == 0,
{
}

/// One more pair adds its product to the sum: the sum is the one that
/// adding up the products one after the other gives.
pub proof fn law_msm_accumulates(bases: Seq<Affine>, scalars: Seq<Scalar>, base: Affine, scalar: Scalar)
    requires
        bases.len() == scalars.len(),
    ensures
        msm_log(bases.push(base), scalars.push(scalar)) == log_add(
            msm_log(bases, scalars),
            log_mul(scalar@ as int, base.log()),
        ),
{
    let n = bases.len();
    let ws = scalar_values(scalars);
    let ls = point_logs(bases);
    let ws1 = scalar_values(scalars.push(scalar));
    let ls1 = point_logs(bases.push(base));
    lemma_dot_agree(ws1, ls1, ws, ls, n);
    lemma_add_mod_noop(dot(ws, ls, n), scalar@ * base.log(), group_order());
}

/// What the longer sequence holds beyond the shorter one plays no part.
pub proof fn law_msm_ignores_excess(bases: Seq<Affine>, scalars: Seq<Scalar>)
    ensures
        msm_log(bases, scalars) == msm_log(
            bases.subrange(0, paired(bases, scalars) as int),
            scalars.subrange(0, paired(bases, scalars) as int),
        ),
{
    let n = paired(bases, scalars);
    lemma_dot_agree(
        scalar_values(scalars),
        point_logs(bases),
        scalar_values(scalars.subrange(0, n as int)),
        point_logs(bases.subrange(0, n as int)),
        n,
    );
}

/// Sums over sequences that agree on the first `n` positions are equal.
pub proof fn lemma_dot_agree(xs: Seq<int>, ks: Seq<int>, ys: Seq<int>, ls: Seq<int>, n: nat)
    requires
        forall|i: int| 0 <= i < n ==> xs[i] == ys[i] && ks[i] == ls[i],
    ensures
        dot(xs, ks, n) == dot(ys, ls, n),
    decreases n,
{
    if n > 0 {
        lemma_dot_agree(xs, ks, ys, ls, (n - 1) as nat);
    }
}

/// Of each scalar, the `width` bits from bit `start`.
pub open spec fn digits_at(scalars: Seq<Scalar>, start: nat, width: nat) -> Seq<int> {
    Seq::new(scalars.len(), |i: int| window_of(scalars[i]@, start, width) as int)
}

/// Of each scalar, what stands above the low `shift` bits.
pub open spec fn tops_at(scalars: Seq<Scalar>, shift: nat) -> Seq<int> {
    Seq::new(scalars.len(), |i: int| (scalars[i]@ / pow2(shift)) as int)
}

/// The sum of the logs at those of the first `n` positions whose digit is `k`.
pub open spec fn bucket(digits: Seq<int>, logs: Seq<int>, n: nat, k: int) -> int
    decreases n,
{
    if n == 0 {
        0
    } else {
        bucket(digits, logs, (n - 1) as nat, k) + if digits[n - 1] == k {
            logs[n - 1]
        } else {
            0
        }
    }
}

/// The sum of the buckets `j ..= m`.
pub open spec fn tail(digits: Seq<int>, logs: Seq<int>, n: nat, j: int, m: int) -> int
    decreases m + 1 - j,
{
    if j > m {
        0
    } else {
        bucket(digits, logs, n, j) + tail(digits, logs, n, j + 1, m)
    }
}

/// The sum of the buckets `j ..= m`, bucket `k` counted `k - j + 1` times.
pub open spec fn weighted_tail(digits: Seq<int>, logs: Seq<int>, n: nat, j: int, m: int) -> int
    decreases m + 1 - j,
{
    if j > m {
        0
    } else {
        tail(digits, logs, n, j, m) + weighted_tail(digits, logs, n, j + 1, m)
    }
}

/// The width of the windows for `n` pairs: a step function of `n` that
/// never falls, through widths that divide a limb.
pub open spec fn window_width(n: nat) -> nat {
    if n <= 2 {
        1
    } else if n <= 16 {
        2
    } else if n <= 512 {
        4
    } else if n <= 65536 {
        8
    } else {
        16
    }
}

/// More pairs never get narrower windows.
pub proof fn law_window_width_monotonic(a: nat, b: nat)
    requires
        a <= b,
    ensures
        window_width(a) <= window_width(b),
{
}

/// The width of the windows for `n` pairs, in bits.
pub fn window_bits(n: usize) -> (c: u32)
    ensures
        c == window_width(n as nat),
{
    let k = log2(n);
    proof {
        lemma2_to64();
        lemma2_to64_rest();
        if k >= 2 {
            if k - 1 > 1 {
                lemma_pow2_strictly_increases(1, (k - 1) as nat);
            }
        } else {
            if k < 1 {
                lemma_pow2_strictly_increases(k as nat, 1);
            }
        }
        if k >= 5 {
            if k - 1 > 4 {
                lemma_pow2_strictly_increases(4, (k - 1) as nat);
            }
        } else {
            if k < 4 {
                lemma_pow2_strictly_increases(k as nat, 4);
            }
        }
        if k >= 10 {
            if k - 1 > 9 {
                lemma_pow2_strictly_increases(9, (k - 1) as nat);
            }
        } else {
            if k < 9 {
                lemma_pow2_strictly_increases(k as nat, 9);
            }
        }
        if k >= 17 {
            if k - 1 > 16 {
                lemma_pow2_strictly_increases(16, (k - 1) as nat);
            }
        } else {
            if k < 16 {
                lemma_pow2_strictly_increases(k as nat, 16);
            }
        }
    }
    if k < 2 {
        1
    } else if k < 5 {
        2
    } else if k < 10 {
        4
    } else if k < 17 {
        8
    } else {
        16
    }
}

/// The number of pairs that sequences of these lengths form.
pub open spec fn pairs(bases: nat, scalars: nat) -> nat {
    if bases <= scalars {
        bases
    } else {
        scalars
    }
}

/// The multiples of the generator that the coordinates stand for.
pub open spec fn coordinate_logs(bases: Seq<AffineCoordinates>) -> Seq<int> {
    Seq::new(bases.len(), |i: int| bases[i].log())
}

/// The coordinates that adding up the first `n` products, one after the
/// other from the point at infinity, gives.
pub open spec fn naive_sum(bases: Seq<AffineCoordinates>, scalars: Seq<Scalar>, n: nat) -> Triple
    decreases n,
{
    if n == 0 {
        (small(0), small(1), small(0))
    } else {
        let before = naive_sum(bases, scalars, (n - 1) as nat);
        let base = bases[n - 1];
        let term = affine_multiple(base.x@, base.y@, base.infinity, scalars[n - 1].limbs@);
        jacobian_sum(before.0, before.1, before.2, term.0, term.1, term.2)
    }
}

/// The sum of `scalars[i] * bases[i]` over all pairs, each product made by
/// doubling and adding and the products added up in their order. The bases
/// are taken as they come. Where they are elements of the group, the sum is
/// the element that `msm` gives.
pub fn naive_variable_base_msm(bases: &[AffineCoordinates], scalars: &[Scalar]) -> (acc:
    JacobianCoordinates)
    requires
        forall|i: int| 0 <= i < pairs(bases@.len(), scalars@.len()) ==> (#[trigger] bases@[i]).reduced(),
    ensures
        acc.coordinates() == naive_sum(bases@, scalars@, pairs(bases@.len(), scalars@.len())),
        acc.reduced(),
        (forall|i: int| 0 <= i < pairs(bases@.len(), scalars@.len()) ==> (#[trigger] bases@[i]).in_group())
            ==> acc.in_group() && acc.log() == dot(
            scalar_values(scalars@),
            coordinate_logs(bases@),
            pairs(bases@.len(), scalars@.len()),
        ) % group_order(),
{
    let n = if bases.len() <= scalars.len() {
        bases.len()
    } else {
        scalars.len()
    };
    let ghost ws = scalar_values(scalars@);
    let ghost ls = coordinate_logs(bases@);
    let ghost all = forall|i: int| 0 <= i < n ==> (#[trigger] bases@[i]).in_group();
    let mut acc = JacobianCoordinates::zero();
    let mut i: usize = 0;
    while i < n
        invariant
            i <= n,
            n == pairs(bases@.len(), scalars@.len()),
            ws == scalar_values(scalars@),
            ls == coordinate_logs(bases@),
            all == (forall|i: int| 0 <= i < n ==> (#[trigger] bases@[i]).in_group()),
            forall|i: int| 0 <= i < n ==> (#[trigger] bases@[i]).reduced(),
            acc.coordinates() == naive_sum(bases@, scalars@, i as nat),
            acc.reduced(),
            all ==> acc.in_group() && acc.log() == dot(ws, ls, i as nat) % group_order(),
        decreases n - i,
    {
        let base = bases[i];
        assert(bases@[i as int].reduced());
        let term = base.mul_bits(&scalars[i]);
        let ghost before = dot(ws, ls, i as nat);
        let ghost product = ws[i as int] * ls[i as int];
        acc = acc.add(&term);
        proof {
            if all {
                assert(bases@[i as int].in_group());
                lemma_add_mod_noop(before, product, group_order());
            }
        }
        i = i + 1;
    }
    acc
}

/// The sum reads the first `n` bases and scalars and nothing else: what
/// the longer sequence holds beyond the pairs plays no part.
pub proof fn law_naive_sum_reads_pairs(
    bases: Seq<AffineCoordinates>,
    scalars: Seq<Scalar>,
    other_bases: Seq<AffineCoordinates>,
    other_scalars: Seq<Scalar>,
    n: nat,
)
    requires
        forall|i: int|
            0 <= i < n ==> bases[i].coordinates() == other_bases[i].coordinates() && scalars[i].limbs@
                == other_scalars[i].limbs@,
    ensures
        naive_sum(bases, scalars, n) == naive_sum(other_bases, other_scalars, n),
    decreases n,
{
    if n > 0 {
        law_naive_sum_reads_pairs(bases, scalars, other_bases, other_scalars, (n - 1) as nat);
    }
}

/// Elements with the same coordinates weigh the same: the sum that `msm`
/// gives for elements is the one that `naive_variable_base_msm` gives for
/// their coordinates.
pub proof fn law_msm_is_naive(
    elements: Seq<Affine>,
    bases: Seq<AffineCoordinates>,
    scalars: Seq<Scalar>,
)
    requires
        elements.len() == bases.len(),
        forall|i: int|
            0 <= i < bases.len() ==> (#[trigger] elements[i]).coordinates() == bases[i].coordinates(),
    ensures
        msm_log(elements, scalars) == dot(
            scalar_values(scalars),
            coordinate_logs(bases),
            pairs(bases.len(), scalars.len()),
        ) % group_order(),
{
    let n = pairs(bases.len(), scalars.len());
    lemma_dot_agree(
        scalar_values(scalars),
        point_logs(elements),
        scalar_values(scalars),
        coordinate_logs(bases),
        n,
    );
}

/// The sum of `scalars[i] * bases[i]` over all pairs, by windows and buckets.
///
/// The scalars are cut into windows of `window_bits` bits, and the sums of
/// the windows are made, each on its own and at the same time as the others.
/// Then, for each window from the most significant down and in this order,
/// the sum so far is doubled once per bit and the window's own sum is added.
pub fn msm(bases: &[Affine], scalars: &[Scalar]) -> (total: Projective)
    ensures
        total.log() == msm_log(bases@, scalars@),
{
    let n = if bases.len() <= scalars.len() {
        bases.len()
    } else {
        scalars.len()
    };
    let c = window_bits(n);
    let windows: u32 = 256 / c;
    let ghost ls = point_logs(bases@);
    let sums = window_sums(bases, scalars, n, c, windows);
    let mut total = Projective::identity();
    let mut w: u32 = windows;
    proof {
        lemma_tops_vanish(scalars@, ls, n as nat);
        assert(c == 1 || c == 2 || c == 4 || c == 8 || c == 16);
        assert(windows * c == 256) by {
            if c == 1 {
                assert(windows == 256);
            } else if c == 2 {
                assert(windows == 128);
            } else if c == 4 {
                assert(windows == 64);
            } else if c == 8 {
                assert(windows == 32);
            } else {
                assert(windows == 16);
            }
        }
    }
    while w > 0
        invariant
            w <= windows,
            windows * c == 256,
            c == 1 || c == 2 || c == 4 || c == 8 || c == 16,
            n == paired(bases@, scalars@),
            ls == point_logs(bases@),
            sums@.len() == windows,
            forall|v: int|
                0 <= v < windows ==> (#[trigger] sums@[v]).log() == dot(
                    digits_at(scalars@, (v * c) as nat, c as nat),
                    ls,
                    n as nat,
                ) % group_order(),
            total.log() == dot(tops_at(scalars@, (w * c) as nat), ls, n as nat) % group_order(),
        decreases w,
    {
        let ghost above = dot(tops_at(scalars@, (w * c) as nat), ls, n as nat);
        w = w - 1;
        let start: u32 = w * c;
        let mut j: u32 = 0;
        proof {
            lemma2_to64();
        }
        while j < c
            invariant
                j <= c,
                total.log() == (pow2(j as nat) * above) % group_order(),
            decreases c - j,
        {
            total = total.double();
            proof {
                lemma_pow2_unfold((j + 1) as nat);
                lemma_mul_mod_noop_right(2, pow2(j as nat) * above, group_order());
                assert(2 * (pow2(j as nat) * above) == pow2((j + 1) as nat) * above)
                    by (nonlinear_arith)
                    requires
                        pow2((j + 1) as nat) == 2 * pow2(j as nat),
                ;
            }
            j = j + 1;
        }
        let ghost here = dot(digits_at(scalars@, start as nat, c as nat), ls, n as nat);
        total = total.add(&sums[w as usize]);
        proof {
            lemma_add_mod_noop(pow2(c as nat) * above, here, group_order());
            lemma_window_step(scalars@, ls, n as nat, start as nat, c as nat);
            assert(start + c == (w + 1) * c) by (nonlinear_arith)
                requires
                    start == w * c,
            ;
        }
    }
    proof {
        lemma_tops_at_zero(scalars@, ls, n as nat);
    }
    total
}

/// Whether windows of such a width lie each within one limb.
pub open spec fn width_fits(width: u32) -> bool {
    width == 1 || width == 2 || width == 4 || width == 8 || width == 16
}

/// `into_par_iter`, `map` and `collect` of `rayon` over the numbers of the
/// windows: the sum of each window, at the place of its number. The sums are
/// made on the threads of a pool, and come in the order of the numbers.
#[verifier::external_body]
fn window_sums(bases: &[Affine], scalars: &[Scalar], n: usize, width: u32, windows: u32) -> (sums:
    Vec<Projective>)
    requires
        n <= bases@.len(),
        n <= scalars@.len(),
        width_fits(width),
        windows * width == 256,
    ensures
        sums@.len() == windows,
        forall|w: int|
            0 <= w < windows ==> (#[trigger] sums@[w]).log() == dot(
                digits_at(scalars@, (w * width) as nat, width as nat),
                point_logs(bases@),
                n as nat,
            ) % group_order(),
{
    (0..windows).into_par_iter().map(|w| window_sum_at(bases, scalars, n, w, width)).collect()
}

/// The sum of the window with the number `w`.
pub fn window_sum_at(bases: &[Affine], scalars: &[Scalar], n: usize, w: u32, width: u32) -> (sum:
    Projective)
    requires
        n <= bases@.len(),
        n <= scalars@.len(),
        width_fits(width),
        w * width < 256,
    ensures
        sum.log() == dot(
            digits_at(scalars@, (w * width) as nat, width as nat),
            point_logs(bases@),
            n as nat,
        ) % group_order(),
{
    let start: u32 = w * width;
    assert(start % 64 + width <= 64) by {
        if width == 1 {
        } else if width == 2 {
            assert(start == 2 * w) by (nonlinear_arith)
                requires
                    start == w * width,
                    width == 2,
            ;
            assert(start % 2 == 0);
        } else if width == 4 {
            assert(start == 4 * w) by (nonlinear_arith)
                requires
                    start == w * width,
                    width == 4,
            ;
            assert(start % 4 == 0);
        } else if width == 8 {
            assert(start == 8 * w) by (nonlinear_arith)
                requires
                    start == w * width,
                    width == 8,
            ;
            assert(start % 8 == 0);
        } else {
            assert(start == 16 * w) by (nonlinear_arith)
                requires
                    start == w * width,
                    width == 16,
            ;
            assert(start % 16 == 0);
        }
    }
    window_sum(bases, scalars, n, start, width)
}

/// The sum of `digit[i] * bases[i]` over the first `n` pairs, where `digit[i]`
/// is the window of `width` bits from bit `start` of `scalars[i]`.
///
/// Each base is added into the bucket of its digit. The buckets are then
/// added up from the highest down, and the running sums are added up in
/// turn, which counts bucket `k` exactly `k` times.
pub fn window_sum(bases: &[Affine], scalars: &[Scalar], n: usize, start: u32, width: u32) -> (sum:
    Projective)
    requires
        n <= bases@.len(),
        n <= scalars@.len(),
        start < 256,
        1 <= width <= 16,
        start % 64 + width <= 64,
    ensures
        sum.log() == dot(digits_at(scalars@, start as nat, width as nat), point_logs(bases@), n as nat)
            % group_order(),
{
    proof {
        lemma2_to64();
        lemma_pow2_pos(width as nat);
        if width < 16 {
            lemma_pow2_strictly_increases(width as nat, 16);
        }
        vstd::bits::lemma_u64_shl_is_mul(1, width as u64);
    }
    let m: usize = ((1u64 << width) - 1) as usize;
    let ghost ds = digits_at(scalars@, start as nat, width as nat);
    let ghost ls = point_logs(bases@);
    let mut buckets: Vec<Projective> = Vec::new();
    let mut k: usize = 0;
    while k < m
        invariant
            k <= m,
            buckets@.len() == k,
            forall|j: int| 0 <= j < k ==> (#[trigger] buckets@[j]).log() == 0,
        decreases m - k,
    {
        buckets.push(Projective::identity());
        k = k + 1;
    }
    proof {
        assert forall|j: int| 0 <= j < m implies (#[trigger] buckets@[j]).log() == bucket(
            ds,
            ls,
            0,
            j + 1,
        ) % group_order() by {}
    }
    let mut i: usize = 0;
    while i < n
        invariant
            i <= n,
            n <= bases@.len(),
            n <= scalars@.len(),
            start < 256,
            1 <= width <= 16,
            start % 64 + width <= 64,
            m + 1 == pow2(width as nat),
            buckets@.len() == m,
            ds == digits_at(scalars@, start as nat, width as nat),
            ls == point_logs(bases@),
            forall|j: int|
                0 <= j < m ==> (#[trigger] buckets@[j]).log() == bucket(ds, ls, i as nat, j + 1)
                    % group_order(),
        decreases n - i,
    {
        let d = scalars[i].digit(start, width);
        if d != 0 {
            let slot: usize = (d - 1) as usize;
            let ghost before = bucket(ds, ls, i as nat, d as int);
            let grown = buckets[slot].add_mixed(&bases[i]);
            buckets.set(slot, grown);
            proof {
                lemma_add_mod_noop_right(ls[i as int], before, group_order());
            }
        }
        i = i + 1;
    }
    let mut running = Projective::identity();
    let mut sum = Projective::identity();
    let mut j: usize = m;
    while j > 0
        invariant
            j <= m,
            buckets@.len() == m,
            forall|t: int|
                0 <= t < m ==> (#[trigger] buckets@[t]).log() == bucket(ds, ls, n as nat, t + 1)
                    % group_order(),
            running.log() == tail(ds, ls, n as nat, j + 1, m as int) % group_order(),
            sum.log() == weighted_tail(ds, ls, n as nat, j + 1, m as int) % group_order(),
        decreases j,
    {
        let ghost old_tail = tail(ds, ls, n as nat, j + 1, m as int);
        let ghost old_sum = weighted_tail(ds, ls, n as nat, j + 1, m as int);
        let ghost b = bucket(ds, ls, n as nat, j as int);
        running = running.add(&buckets[j - 1]);
        sum = sum.add(&running);
        proof {
            lemma_add_mod_noop(old_tail, b, group_order());
            lemma_add_mod_noop(old_sum, b + old_tail, group_order());
        }
        j = j - 1;
    }
    proof {
        assert forall|t: int| 0 <= t < n implies 0 <= #[trigger] ds[t] <= m by {
            lemma_window_bound(scalars@[t]@, start as nat, width as nat);
        }
        lemma_buckets_weigh_digits(ds, ls, n as nat, m as int);
    }
    sum
}

/// A window is below `2^width`.
pub proof fn lemma_window_bound(value: nat, start: nat, width: nat)
    ensures
        window_of(value, start, width) < pow2(width),
{
    lemma_pow2_pos(width);
    vstd::arithmetic::div_mod::lemma_mod_bound((value / pow2(start)) as int, pow2(width) as int);
}

/// If each weight is `a` times another plus a third, so is the sum.
proof fn lemma_dot_linear(xs: Seq<int>, ys: Seq<int>, zs: Seq<int>, logs: Seq<int>, a: int, n: nat)
    requires
        forall|i: int| 0 <= i < n ==> xs[i] == a * ys[i] + zs[i],
    ensures
        dot(xs, logs, n) == a * dot(ys, logs, n) + dot(zs, logs, n),
    decreases n,
{
    if n > 0 {
        lemma_dot_linear(xs, ys, zs, logs, a, (n - 1) as nat);
        let i = n - 1;
        let l = logs[i];
        let dy = dot(ys, logs, (n - 1) as nat);
        assert((a * ys[i] + zs[i]) * l == a * (ys[i] * l) + zs[i] * l) by (nonlinear_arith);
        assert(a * (dy + ys[i] * l) == a * dy + a * (ys[i] * l)) by (nonlinear_arith);
    } else {
        assert(a * 0 == 0);
    }
}

/// What stands above bit `start` is `2^width` times what stands above bit
/// `start + width`, plus the window between the two.
proof fn lemma_window_step(scalars: Seq<Scalar>, logs: Seq<int>, n: nat, start: nat, width: nat)
    requires
        n <= scalars.len(),
    ensures
        dot(tops_at(scalars, start), logs, n) == pow2(width) * dot(
            tops_at(scalars, start + width),
            logs,
            n,
        ) + dot(digits_at(scalars, start, width), logs, n),
{
    let xs = tops_at(scalars, start);
    let ys = tops_at(scalars, start + width);
    let zs = digits_at(scalars, start, width);
    assert forall|i: int| 0 <= i < n implies xs[i] == pow2(width) * ys[i] + zs[i] by {
        let v = scalars[i]@;
        let t = v / pow2(start);
        lemma_pow2_pos(start);
        lemma_pow2_pos(width);
        lemma_pow2_adds(start, width);
        lemma_div_denominator(v as int, pow2(start) as int, pow2(width) as int);
        lemma_fundamental_div_mod(t as int, pow2(width) as int);
    }
    lemma_dot_linear(xs, ys, zs, logs, pow2(width) as int, n);
}

/// Nothing of a scalar stands above bit 256.
proof fn lemma_tops_vanish(scalars: Seq<Scalar>, logs: Seq<int>, n: nat)
    requires
        n <= scalars.len(),
    ensures
        dot(tops_at(scalars, 256), logs, n) == 0,
    decreases n,
{
    if n > 0 {
        lemma_tops_vanish(scalars, logs, (n - 1) as nat);
        lemma_scalar_bound(scalars[n - 1]);
        lemma_basic_div(scalars[n - 1]@ as int, pow2(256) as int);
        assert(tops_at(scalars, 256)[n - 1] == 0);
        assert(0 * logs[n - 1] == 0);
    }
}

/// All of a scalar stands above bit 0.
proof fn lemma_tops_at_zero(scalars: Seq<Scalar>, logs: Seq<int>, n: nat)
    requires
        n <= scalars.len(),
    ensures
        dot(tops_at(scalars, 0), logs, n) == dot(scalar_values(scalars), logs, n),
{
    lemma2_to64();
    assert forall|i: int| 0 <= i < n implies tops_at(scalars, 0)[i] == scalar_values(scalars)[i] by {
        assert(scalars[i]@ / 1 == scalars[i]@);
    }
    lemma_dot_agree(tops_at(scalars, 0), logs, scalar_values(scalars), logs, n);
}

/// A scalar is below `2^256`.
pub proof fn lemma_scalar_bound(s: Scalar)
    ensures
        s@ < pow2(256),
{
    lemma2_to64();
    lemma2_to64_rest();
    lemma_pow2_adds(64, 64);
    lemma_pow2_adds(64, 128);
    lemma_pow2_adds(64, 192);
    let b = pow2(64);
    let l0 = s.limbs@[0] as nat;
    let l1 = s.limbs@[1] as nat;
    let l2 = s.limbs@[2] as nat;
    let l3 = s.limbs@[3] as nat;
    assert(l0 + l1 * b + l2 * (b * b) + l3 * (b * (b * b)) < b * (b * (b * b))) by (nonlinear_arith)
        requires
            l0 < b,
            l1 < b,
            l2 < b,
            l3 < b,
    ;
    assert(pow2(128) == b * b);
    assert(pow2(192) == b * (b * b));
    assert(pow2(256) == b * (b * (b * b)));
}

/// One more position, of digit `d` and log `l`, adds `l` to every sum of
/// buckets that holds bucket `d`.
proof fn lemma_tail_grows(digits: Seq<int>, logs: Seq<int>, n: nat, j: int, m: int)
    requires
        1 <= j,
    ensures
        tail(digits, logs, n + 1, j, m) == tail(digits, logs, n, j, m) + if j <= digits[n as int]
            <= m {
            logs[n as int]
        } else {
            0
        },
    decreases m + 1 - j,
{
    if j <= m {
        lemma_tail_grows(digits, logs, n, j + 1, m);
    }
}

/// It adds `(d - j + 1) * l` to the weighted sum from bucket `j`.
proof fn lemma_weighted_tail_grows(digits: Seq<int>, logs: Seq<int>, n: nat, j: int, m: int)
    requires
        1 <= j,
    ensures
        weighted_tail(digits, logs, n + 1, j, m) == weighted_tail(digits, logs, n, j, m) + if j
            <= digits[n as int] <= m {
            (digits[n as int] - j + 1) * logs[n as int]
        } else {
            0
        },
    decreases m + 1 - j,
{
    if j <= m {
        lemma_weighted_tail_grows(digits, logs, n, j + 1, m);
        lemma_tail_grows(digits, logs, n, j, m);
        let d = digits[n as int];
        let l = logs[n as int];
        if j <= d <= m {
            assert((d - j + 1) * l == l + (d - j) * l) by (nonlinear_arith);
            if j == d {
                assert((d - j) * l == 0) by (nonlinear_arith)
                    requires
                        j == d,
                ;
            } else {
                assert((d - (j + 1) + 1) * l == (d - j) * l);
            }
        }
    }
}

/// With no position, every sum of buckets is 0.
proof fn lemma_tails_empty(digits: Seq<int>, logs: Seq<int>, j: int, m: int)
    ensures
        tail(digits, logs, 0, j, m) == 0,
        weighted_tail(digits, logs, 0, j, m) == 0,
    decreases m + 1 - j,
{
    if j <= m {
        lemma_tails_empty(digits, logs, j + 1, m);
    }
}

/// Bucket `k` counted `k` times, over all buckets, is the sum of
/// `digit * log` over all positions.
proof fn lemma_buckets_weigh_digits(digits: Seq<int>, logs: Seq<int>, n: nat, m: int)
    requires
        forall|i: int| 0 <= i < n ==> 0 <= #[trigger] digits[i] <= m,
    ensures
        weighted_tail(digits, logs, n, 1, m) == dot(digits, logs, n),
    decreases n,
{
    if n == 0 {
        lemma_tails_empty(digits, logs, 1, m);
    } else {
        let p = (n - 1) as nat;
        lemma_buckets_weigh_digits(digits, logs, p, m);
        lemma_weighted_tail_grows(digits, logs, p, 1, m);
        let d = digits[p as int];
        if d == 0 {
            assert(d * logs[p as int] == 0) by (nonlinear_arith)
                requires
                    d == 0,
            ;
        }
    }
}

} // verus!
