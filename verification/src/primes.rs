//! Primality testing by trial division up to the square root, and the
//! strided prime search that the parallel workers split among themselves.

use vstd::prelude::*;

verus! {

broadcast use vstd::seq_lib::group_seq_properties;

/// Primality: greater than one, with no divisor strictly between one and
/// itself.
pub open spec fn spec_is_prime(v: u32) -> bool {
    v > 1 && forall|d: int| 2 <= d < v ==> #[trigger] (v as int % d) != 0
}

/// A composite number has a divisor no larger than its square root.
proof fn lemma_small_divisor(v: u32, k: int)
    requires
        2 <= k < v,
        v as int % k == 0,
    ensures
        exists|e: int| 2 <= e && e * e <= v && #[trigger] (v as int % e) == 0,
{
    let vi = v as int;
    vstd::arithmetic::div_mod::lemma_fundamental_div_mod(vi, k);
    let q = vi / k;
    assert(vi == k * q);
    if k * k <= vi {
        assert(2 <= k && k * k <= v && vi % k == 0);
    } else {
        assert(q >= 2) by (nonlinear_arith)
            requires
                vi == k * q,
                2 <= k < vi,
        ;
        assert(q * q <= vi) by (nonlinear_arith)
            requires
                vi == k * q,
                k * k > vi,
                q >= 2,
                k >= 2,
        ;
        assert(vi % q == 0) by {
            vstd::arithmetic::div_mod::lemma_mod_multiples_basic(k, q);
            assert((k * q) % q == 0);
        }
        assert(2 <= q && q * q <= v && vi % q == 0);
    }
}

/// Whether `v` is prime, by trial division up to the square root.
pub fn is_prime(v: u32) -> (r: bool)
    ensures
        r == spec_is_prime(v),
{
    if v <= 1 {
        return false;
    }
    let mut d: u32 = 2;
    loop
        invariant
            2 <= d,
            v > 1,
            d <= v,
            forall|e: int| 2 <= e < d ==> #[trigger] (v as int % e) != 0,
        ensures
            2 <= d <= v,
            (d as u64) * (d as u64) > v as u64,
            forall|e: int| 2 <= e < d ==> #[trigger] (v as int % e) != 0,
        decreases v - d,
    {
        proof {
            assert((d as u64) * (d as u64) <= 0xFFFFFFFFu64 * 0xFFFFFFFFu64) by (nonlinear_arith)
                requires
                    d as u64 <= 0xFFFFFFFFu64,
            ;
        }
        let sq = (d as u64) * (d as u64);
        if sq > v as u64 {
            break;
        }
        if v % d == 0 {
            proof {
                assert(d < v) by (nonlinear_arith)
                    requires
                        2 <= d,
                        (d as u64) * (d as u64) <= v as u64,
                        v > 1,
                ;
                assert(v as int % (d as int) == 0);
            }
            return false;
        }
        proof {
            assert(d + 1 <= v) by (nonlinear_arith)
                requires
                    2 <= d,
                    (d as u64) * (d as u64) <= v as u64,
                    v > 1,
            ;
        }
        d = d + 1;
    }
    proof {
        assert forall|e: int| 2 <= e < v implies #[trigger] (v as int % e) != 0 by {
            if v as int % e == 0 {
                lemma_small_divisor(v, e);
                let w = choose|w: int| 2 <= w && w * w <= v && #[trigger] (v as int % w) == 0;
                assert(w < d) by (nonlinear_arith)
                    requires
                        w * w <= v,
                        (d as u64) * (d as u64) > v as u64,
                        w >= 2,
                        d >= 2,
                ;
                assert(v as int % w != 0);
                assert(false);
            }
        }
    }
    true
}

/// The primes among `from, from + step, from + 2·step, …` up to `end`,
/// in ascending order.
pub open spec fn spec_stepped_primes(from: int, end: int, step: int) -> Seq<u32>
    recommends
        step >= 1,
        0 <= from,
        end <= u32::MAX,
    decreases end + step - from,
        when step >= 1
{
    if from > end || from > u32::MAX {
        Seq::empty()
    } else {
        let rest = spec_stepped_primes(from + step, end, step);
        if spec_is_prime(from as u32) {
            seq![from as u32] + rest
        } else {
            rest
        }
    }
}

/// Every prime in the strided range `start, start + step, …, ≤ end`, in
/// ascending order. The stride is how many workers share the search.
pub fn find_primes(start: u32, end: u32, step: u32) -> (r: Vec<u32>)
    requires
        step >= 1,
    ensures
        r@ == spec_stepped_primes(start as int, end as int, step as int),
{
    let mut out: Vec<u32> = Vec::new();
    let mut v: u64 = start as u64;
    while v <= end as u64
        invariant
            step >= 1,
            start as int <= v,
            v == start as u64 || v <= end as u64 + step as u64,
            spec_stepped_primes(start as int, end as int, step as int) == out@
                + spec_stepped_primes(v as int, end as int, step as int),
        decreases end as u64 + step as u64 - v,
    {
        let ghost before = out@;
        let c = v as u32;
        if is_prime(c) {
            out.push(c);
            proof {
                assert(out@ =~= before.push(c));
                assert(seq![c] + spec_stepped_primes(
                    v as int + step as int,
                    end as int,
                    step as int,
                ) == spec_stepped_primes(v as int, end as int, step as int));
                assert(before.push(c) + spec_stepped_primes(
                    v + step as int,
                    end as int,
                    step as int,
                ) =~= before + (seq![c] + spec_stepped_primes(
                    v + step as int,
                    end as int,
                    step as int,
                )));
            }
        }
        v = v + step as u64;
    }
    proof {
        assert(spec_stepped_primes(v as int, end as int, step as int) =~= Seq::<u32>::empty());
        assert(out@ + Seq::<u32>::empty() =~= out@);
    }
    out
}

} // verus!
