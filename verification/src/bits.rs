//! Integer logarithm and the bit-reversal permutation.

use vstd::arithmetic::div_mod::{
    lemma_div_denominator, lemma_fundamental_div_mod, lemma_fundamental_div_mod_converse,
    lemma_mod_breakdown,
};
use vstd::arithmetic::power2::{lemma2_to64, lemma_pow2_pos, lemma_pow2_unfold, pow2};
use vstd::bits::lemma_u64_shr_is_div;
use vstd::prelude::*;

verus! {

/// The number whose `n` low bits are those of `a` in reverse order: bit `i`
/// of `a` becomes bit `n - 1 - i`. Bits of `a` from `n` upwards play no part.
pub open spec fn reverse_bits_spec(a: nat, n: nat) -> nat
    decreases n,
{
    if n == 0 {
        0
    } else {
        (a % 2) * pow2((n - 1) as nat) + reverse_bits_spec(a / 2, (n - 1) as nat)
    }
}

/// `len` indices, each below `2^log_len`, that bit reversal maps among
/// themselves. Every `2^log_len` and every `2^log_len - 1` is such a length.
pub open spec fn closed_under_reversal(len: nat, log_len: nat) -> bool {
    &&& len <= pow2(log_len)
    &&& forall|i: nat| i < len ==> #[trigger] reverse_bits_spec(i, log_len) < len
}

/// `u64::reverse_bits`: the least significant bit becomes the most
/// significant one, the second the second, and so on through all 64.
pub assume_specification[ u64::reverse_bits ](x: u64) -> (r: u64)
    ensures
        r == reverse_bits_spec(x as nat, 64),
;

/// A reversal of `n` bits is below `2^n`.
pub proof fn lemma_reverse_bound(a: nat, n: nat)
    ensures
        reverse_bits_spec(a, n) < pow2(n),
    decreases n,
{
    lemma_pow2_pos(n);
    if n > 0 {
        lemma_reverse_bound(a / 2, (n - 1) as nat);
        lemma_pow2_unfold(n);
        assert((a % 2) * pow2((n - 1) as nat) <= pow2((n - 1) as nat)) by (nonlinear_arith)
            requires
                a % 2 <= 1,
        ;
    }
}

/// Reversal reads only the `n` low bits.
pub proof fn law_reverse_ignores_high_bits(a: nat, n: nat)
    ensures
        reverse_bits_spec(a % pow2(n), n) == reverse_bits_spec(a, n),
    decreases n,
{
    lemma_pow2_pos(n);
    if n > 0 {
        let h = pow2((n - 1) as nat);
        lemma_pow2_pos((n - 1) as nat);
        lemma_pow2_unfold(n);
        let r = a % pow2(n);
        assert(pow2(n) == 2 * h);
        lemma_mod_breakdown(a as int, 2, h as int);
        assert(r == 2 * ((a / 2) % h) + a % 2);
        assert(r % 2 == a % 2 && r / 2 == (a / 2) % h) by {
            lemma_fundamental_div_mod_converse(r as int, 2, ((a / 2) % h) as int, (a % 2) as int);
        }
        law_reverse_ignores_high_bits(a / 2, (n - 1) as nat);
    }
}

/// Peeling the top bit instead of the bottom one.
proof fn lemma_reverse_top(a: nat, n: nat)
    requires
        n > 0,
        a < pow2(n),
    ensures
        reverse_bits_spec(a, n) == 2 * reverse_bits_spec(a % pow2((n - 1) as nat), (n - 1) as nat)
            + a / pow2((n - 1) as nat),
    decreases n,
{
    let h = pow2((n - 1) as nat);
    lemma_pow2_pos((n - 1) as nat);
    lemma_pow2_unfold(n);
    if n == 1 {
        lemma2_to64();
        assert(reverse_bits_spec(a / 2, 0) == 0);
        assert(reverse_bits_spec(a % h, 0) == 0);
    } else {
        let q = pow2((n - 2) as nat);
        lemma_pow2_pos((n - 2) as nat);
        lemma_pow2_unfold((n - 1) as nat);
        assert(h == 2 * q);
        let b = a / 2;
        lemma_reverse_top(b, (n - 1) as nat);
        // the low half of `a`, peeled at the bottom
        let l = a % h;
        lemma_mod_breakdown(a as int, 2, q as int);
        assert(l == 2 * (b % q) + a % 2);
        assert(l % 2 == a % 2 && l / 2 == b % q) by {
            lemma_fundamental_div_mod_converse(l as int, 2, (b % q) as int, (a % 2) as int);
        }
        assert(reverse_bits_spec(l, (n - 1) as nat) == (l % 2) * q + reverse_bits_spec(
            l / 2,
            (n - 2) as nat,
        ));
        assert(b / q == a / h) by {
            lemma_div_denominator(a as int, 2, q as int);
        }
        assert(2 * ((a % 2) * q) == (a % 2) * h) by (nonlinear_arith)
            requires
                h == 2 * q,
        ;
    }
}

/// Reversing twice gives the number back.
pub proof fn law_reverse_involution(a: nat, n: nat)
    requires
        a < pow2(n),
    ensures
        reverse_bits_spec(reverse_bits_spec(a, n), n) == a,
    decreases n,
{
    if n > 0 {
        let h = pow2((n - 1) as nat);
        lemma_pow2_pos((n - 1) as nat);
        lemma_pow2_unfold(n);
        let low = reverse_bits_spec(a / 2, (n - 1) as nat);
        let b = reverse_bits_spec(a, n);
        lemma_reverse_bound(a / 2, (n - 1) as nat);
        lemma_reverse_bound(a, n);
        assert(b == h * (a % 2) + low) by (nonlinear_arith)
            requires
                b == (a % 2) * h + low,
        ;
        lemma_fundamental_div_mod_converse(b as int, h as int, (a % 2) as int, low as int);
        assert(b / h == a % 2 && b % h == low);
        lemma_reverse_top(b, n);
        assert(a / 2 < h);
        law_reverse_involution(a / 2, (n - 1) as nat);
        assert(reverse_bits_spec(low, (n - 1) as nat) == a / 2);
        assert(reverse_bits_spec(b, n) == 2 * (a / 2) + a % 2);
    } else {
        lemma2_to64();
    }
}

/// A full block of `2^log_len` indices is closed under reversal.
pub proof fn law_power_of_two_closed(log_len: nat)
    ensures
        closed_under_reversal(pow2(log_len), log_len),
{
    assert forall|i: nat| i < pow2(log_len) implies #[trigger] reverse_bits_spec(i, log_len)
        < pow2(log_len) by {
        lemma_reverse_bound(i, log_len);
    }
}

/// So is the block without its last index, which reversal leaves in place.
pub proof fn law_power_of_two_less_one_closed(log_len: nat)
    ensures
        closed_under_reversal((pow2(log_len) - 1) as nat, log_len),
{
    lemma_pow2_pos(log_len);
    let top = (pow2(log_len) - 1) as nat;
    assert forall|i: nat| i < top implies #[trigger] reverse_bits_spec(i, log_len) < top by {
        lemma_reverse_bound(i, log_len);
        if reverse_bits_spec(i, log_len) == top {
            law_reverse_involution(i, log_len);
            lemma_all_ones_fixed(log_len);
        }
    }
}

/// The number of `n` ones is its own reversal.
proof fn lemma_all_ones_fixed(n: nat)
    ensures
        reverse_bits_spec((pow2(n) - 1) as nat, n) == pow2(n) - 1,
    decreases n,
{
    lemma_pow2_pos(n);
    if n > 0 {
        let h = pow2((n - 1) as nat);
        lemma_pow2_pos((n - 1) as nat);
        lemma_pow2_unfold(n);
        let a = (pow2(n) - 1) as nat;
        assert(a == 2 * (h - 1) + 1);
        lemma_fundamental_div_mod_converse(a as int, 2, h - 1, 1);
        assert(a % 2 == 1 && a / 2 == h - 1);
        lemma_all_ones_fixed((n - 1) as nat);
        assert(reverse_bits_spec(a / 2, (n - 1) as nat) == h - 1);
        assert((a % 2) * h == h) by (nonlinear_arith)
            requires
                a % 2 == 1,
        ;
    } else {
        lemma2_to64();
    }
}

/// The least `r` with `x <= 2^r`; 0 for `x == 0`.
pub fn log2(x: usize) -> (r: u32)
    ensures
        x <= pow2(r as nat),
        r > 0 ==> pow2((r - 1) as nat) < x,
        r <= 64,
{
    proof {
        lemma2_to64();
    }
    if x <= 1 {
        return 0;
    }
    let mut r: u32 = 1;
    let mut p: usize = 2;
    while p < x
        invariant
            1 <= r <= 63,
            r < usize::BITS,
            p == pow2(r as nat),
            pow2((r - 1) as nat) < x,
        decreases usize::BITS - r,
    {
        proof {
            lemma_pow2_unfold((r + 1) as nat);
            if r + 1 == usize::BITS {
                lemma_usize_below_pow2_bits(x);
            } else {
                lemma_pow2_bound_by_bits(r as nat);
            }
        }
        if r + 1 == usize::BITS {
            return r + 1;
        }
        p = p * 2;
        r = r + 1;
    }
    r
}

/// Every `usize` is below two to the number of its bits.
proof fn lemma_usize_below_pow2_bits(x: usize)
    ensures
        x < pow2(usize::BITS as nat),
{
    lemma2_to64();
    vstd::arithmetic::power2::lemma2_to64_rest();
}

/// A power of two below the top bit can be doubled.
proof fn lemma_pow2_bound_by_bits(r: nat)
    requires
        r + 1 < usize::BITS,
    ensures
        2 * pow2(r) <= usize::MAX,
{
    lemma_pow2_unfold(r + 1);
    lemma_usize_top();
    if r + 1 < (usize::BITS - 1) as nat {
        vstd::arithmetic::power2::lemma_pow2_strictly_increases(r + 1, (usize::BITS - 1) as nat);
    }
}

/// The top bit alone is a `usize`.
proof fn lemma_usize_top()
    ensures
        pow2((usize::BITS - 1) as nat) <= usize::MAX,
{
    lemma2_to64();
    vstd::arithmetic::power2::lemma2_to64_rest();
}

/// The `log_len` low bits of `a`, reversed.
pub fn bitrev(a: u64, log_len: u32) -> (r: u64)
    requires
        1 <= log_len <= 64,
    ensures
        r == reverse_bits_spec(a as nat, log_len as nat),
{
    let shift: u32 = 64 - log_len;
    let full = a.reverse_bits();
    let r = full >> shift;
    proof {
        lemma_u64_shr_is_div(full, shift as u64);
        lemma_reverse_shift(a as nat, log_len as nat, 64);
    }
    r
}

/// Dropping the low `m - n` bits of an `m`-bit reversal leaves the `n`-bit one.
proof fn lemma_reverse_shift(a: nat, n: nat, m: nat)
    requires
        n <= m,
    ensures
        reverse_bits_spec(a, m) / pow2((m - n) as nat) == reverse_bits_spec(a, n),
    decreases n,
{
    let d = pow2((m - n) as nat);
    lemma_pow2_pos((m - n) as nat);
    if n == 0 {
        lemma_reverse_bound(a, m);
        vstd::arithmetic::div_mod::lemma_basic_div(reverse_bits_spec(a, m) as int, d as int);
    } else {
        let h = pow2((n - 1) as nat);
        lemma_pow2_pos((n - 1) as nat);
        vstd::arithmetic::power2::lemma_pow2_adds((m - n) as nat, (n - 1) as nat);
        assert(pow2((m - 1) as nat) == d * h);
        lemma_reverse_shift(a / 2, (n - 1) as nat, (m - 1) as nat);
        let rest = reverse_bits_spec(a / 2, (m - 1) as nat);
        let bit = a % 2;
        assert(reverse_bits_spec(a, m) == d * (bit * h) + rest) by (nonlinear_arith)
            requires
                reverse_bits_spec(a, m) == bit * pow2((m - 1) as nat) + rest,
                pow2((m - 1) as nat) == d * h,
        ;
        lemma_fundamental_div_mod(rest as int, d as int);
        let q = rest / d;
        let s = rest % d;
        assert(d * (bit * h) + rest == d * (bit * h + q) + s) by (nonlinear_arith)
            requires
                rest == d * q + s,
        ;
        lemma_fundamental_div_mod_converse(
            reverse_bits_spec(a, m) as int,
            d as int,
            (bit * h + q) as int,
            s as int,
        );
    }
}

/// Swaps, once, every entry with the one at the bit-reversed index. A vector
/// of one entry, whose indices have no bits, is left as it is.
pub fn derange_helper<T: Copy>(xi: &mut Vec<T>, log_len: u32)
    requires
        log_len <= 64,
        closed_under_reversal(old(xi)@.len(), log_len as nat),
    ensures
        final(xi)@.len() == old(xi)@.len(),
        forall|i: int|
            0 <= i < old(xi)@.len() ==> final(xi)@[i] == old(xi)@[reverse_bits_spec(
                i as nat,
                log_len as nat,
            ) as int],
{
    let n = xi.len();
    if n < 3 {
        proof {
            lemma_fixed_ends(n as nat, log_len as nat);
        }
        return ;
    }
    let last: usize = n - 1;
    let mut idx: usize = 1;
    proof {
        lemma_fixed_ends(n as nat, log_len as nat);
        // three indices need two bits at least
        lemma2_to64();
        assert(log_len >= 2);
    }
    while idx < last
        invariant
            1 <= idx <= last,
            last == n - 1,
            n == xi@.len(),
            n == old(xi)@.len(),
            1 <= log_len <= 64,
            closed_under_reversal(n as nat, log_len as nat),
            forall|i: int|
                0 <= i < n ==> xi@[i] == old(xi)@[placed(i as nat, idx as nat, log_len as nat) as int],
        decreases last - idx,
    {
        let ridx = bitrev(idx as u64, log_len);
        let ghost before = xi@;
        proof {
            assert(reverse_bits_spec(idx as nat, log_len as nat) < n);
            law_reverse_involution(idx as nat, log_len as nat);
        }
        if (idx as u64) < ridx {
            let j = ridx as usize;
            let a = xi[idx];
            let b = xi[j];
            xi.set(idx, b);
            xi.set(j, a);
        }
        proof {
            assert forall|i: int| 0 <= i < n implies xi@[i] == old(xi)@[placed(
                i as nat,
                (idx + 1) as nat,
                log_len as nat,
            ) as int] by {
                let r = reverse_bits_spec(i as nat, log_len as nat);
                assert(r < n);
                law_reverse_involution(i as nat, log_len as nat);
                assert(before[i] == old(xi)@[placed(i as nat, idx as nat, log_len as nat) as int]);
                assert(before[r as int] == old(xi)@[placed(r, idx as nat, log_len as nat) as int]);
            }
        }
        idx = idx + 1;
    }
    proof {
        assert forall|i: int| 0 <= i < n implies xi@[i] == old(xi)@[reverse_bits_spec(
            i as nat,
            log_len as nat,
        ) as int] by {
            let r = reverse_bits_spec(i as nat, log_len as nat);
            assert(r < n);
            law_reverse_involution(i as nat, log_len as nat);
            law_reverse_involution(r, log_len as nat);
        }
    }
}

/// Where the entry now at `i` stood at first, once every index below `done`
/// has been visited: a pair is swapped when its smaller index is visited.
pub open spec fn placed(i: nat, done: nat, log_len: nat) -> nat {
    let r = reverse_bits_spec(i, log_len);
    if i < done || r < done {
        r
    } else {
        i
    }
}

/// Index 0 is its own reversal, so nothing has moved before the first visit.
proof fn lemma_fixed_ends(n: nat, log_len: nat)
    requires
        closed_under_reversal(n, log_len),
    ensures
        forall|i: nat| i < n ==> #[trigger] placed(i, 1, log_len) == i,
        n < 3 ==> forall|i: nat| i < n ==> #[trigger] reverse_bits_spec(i, log_len) == i,
{
    lemma_reverse_zero(log_len);
    assert forall|i: nat| i < n implies #[trigger] placed(i, 1, log_len) == i by {
        let r = reverse_bits_spec(i, log_len);
        if r == 0 {
            law_reverse_involution(i, log_len);
        }
    }
    if n < 3 {
        assert forall|i: nat| i < n implies #[trigger] reverse_bits_spec(i, log_len) == i by {
            let r = reverse_bits_spec(i, log_len);
            assert(r < n);
            law_reverse_involution(i, log_len);
            if i == 0 {
            } else if r == 0 {
            } else {
                if n == 2 {
                    assert(i == 1 && r == 1);
                }
            }
        }
    }
}

/// Zero is its own reversal.
proof fn lemma_reverse_zero(n: nat)
    ensures
        reverse_bits_spec(0, n) == 0,
    decreases n,
{
    if n > 0 {
        lemma_reverse_zero((n - 1) as nat);
        assert(0nat % 2 == 0 && 0nat / 2 == 0);
        assert(0 * pow2((n - 1) as nat) == 0);
    }
}

} // verus!
