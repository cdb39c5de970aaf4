//! Exact nonnegative rational values, used for size variances and score
//! averages.  A `Ratio` stands for `num / den`; every ratio the library
//! produces has a positive denominator.

use vstd::prelude::*;

verus! {

/// A nonnegative rational number `num / den`.
#[derive(Clone, Copy, Debug, PartialEq, Eq, Structural)]
pub struct Ratio {
    pub num: u128,
    pub den: u128,
}

/// Value order on ratios with positive denominators, by cross
/// multiplication.
pub open spec fn ratio_le(a: Ratio, b: Ratio) -> bool {
    a.num * b.den <= b.num * a.den
}

/// With positive denominators the value order is total.
pub proof fn lemma_ratio_le_total(a: Ratio, b: Ratio)
    requires
        a.den >= 1,
        b.den >= 1,
    ensures
        ratio_le(a, b) || ratio_le(b, a),
{
}

/// With positive denominators the value order is transitive.
pub proof fn lemma_ratio_le_transitive(a: Ratio, b: Ratio, c: Ratio)
    requires
        a.den >= 1,
        b.den >= 1,
        c.den >= 1,
        ratio_le(a, b),
        ratio_le(b, c),
    ensures
        ratio_le(a, c),
{
    assert(a.num * c.den <= c.num * a.den) by (nonlinear_arith)
        requires
            a.den >= 1,
            b.den >= 1,
            c.den >= 1,
            a.num * b.den <= b.num * a.den,
            b.num * c.den <= c.num * b.den,
    ;
}

/// Compares two ratios exactly without overflowing: quotients first, then
/// the remainders cross-multiplied, which stay within range because each
/// remainder is below its denominator.
pub fn ratio_le_exec(a: &Ratio, b: &Ratio) -> (r: bool)
    requires
        a.den >= 1,
        b.den >= 1,
        a.den <= 0x8000_0000_0000_0000,
        b.den <= 0x8000_0000_0000_0000,
    ensures
        r == ratio_le(*a, *b),
{
    let qa = a.num / a.den;
    let ra = a.num % a.den;
    let qb = b.num / b.den;
    let rb = b.num % b.den;
    proof {
        vstd::arithmetic::div_mod::lemma_fundamental_div_mod(a.num as int, a.den as int);
        vstd::arithmetic::div_mod::lemma_fundamental_div_mod(b.num as int, b.den as int);
        assert(qa == a.num as int / a.den as int && ra == a.num as int % a.den as int);
        assert(qb == b.num as int / b.den as int && rb == b.num as int % b.den as int);
        if qa < qb {
            assert(a.num * b.den < b.num * a.den) by (nonlinear_arith)
                requires
                    a.den >= 1,
                    b.den >= 1,
                    a.num == a.den * (qa as int) + ra,
                    b.num == b.den * (qb as int) + rb,
                    0 <= ra < a.den,
                    0 <= rb < b.den,
                    qa < qb,
            ;
        }
        if qa > qb {
            assert(a.num * b.den > b.num * a.den) by (nonlinear_arith)
                requires
                    a.den >= 1,
                    b.den >= 1,
                    a.num == a.den * (qa as int) + ra,
                    b.num == b.den * (qb as int) + rb,
                    0 <= ra < a.den,
                    0 <= rb < b.den,
                    qa > qb,
            ;
        }
        if qa == qb {
            assert((a.num * b.den <= b.num * a.den) == (ra * b.den <= rb * a.den))
                by (nonlinear_arith)
                requires
                    a.den >= 1,
                    b.den >= 1,
                    a.num == a.den * (qa as int) + ra,
                    b.num == b.den * (qb as int) + rb,
                    0 <= ra < a.den,
                    0 <= rb < b.den,
                    qa == qb,
            ;
        }
    }
    if qa != qb {
        qa < qb
    } else {
        proof {
            assert(ra < a.den && rb < b.den);
            assert((ra as int) * (b.den as int) < 0x4000_0000_0000_0000_0000_0000_0000_0000)
                by (nonlinear_arith)
                requires
                    0 <= ra < 0x8000_0000_0000_0000,
                    0 <= b.den <= 0x8000_0000_0000_0000,
            ;
            assert((rb as int) * (a.den as int) < 0x4000_0000_0000_0000_0000_0000_0000_0000)
                by (nonlinear_arith)
                requires
                    0 <= rb < 0x8000_0000_0000_0000,
                    0 <= a.den <= 0x8000_0000_0000_0000,
            ;
        }
        ra * b.den <= rb * a.den
    }
}

/// The value order as a function value, for use with sequence sorting.
pub open spec fn ratio_leq_fn() -> spec_fn(Ratio, Ratio) -> bool {
    |a: Ratio, b: Ratio| ratio_le(a, b)
}

/// The two central elements of the values of `s` arranged in value order:
/// what stands at the middle of some sorted arrangement (the two are the
/// same element when the length is odd).
pub open spec fn is_median_ratio_pair(s: Seq<Ratio>, lo: Ratio, hi: Ratio) -> bool {
    exists|t: Seq<Ratio>|
        #![auto]
        t.to_multiset() == s.to_multiset() && vstd::relations::sorted_by(t, ratio_leq_fn())
            && s.len() > 0 && lo == t[(s.len() - 1) as int / 2] && hi == t[s.len() as int / 2]
}

/// Arranges ratios in value order.
pub fn sort_ratios(v: &Vec<Ratio>) -> (r: Vec<Ratio>)
    requires
        forall|i: int|
            0 <= i < v@.len() ==> 1 <= (#[trigger] v@[i]).den <= 0x8000_0000_0000_0000,
    ensures
        r@.to_multiset() == v@.to_multiset(),
        vstd::relations::sorted_by(r@, ratio_leq_fn()),
        r@.len() == v@.len(),
{
    broadcast use vstd::seq_lib::group_to_multiset_ensures;

    let mut r: Vec<Ratio> = Vec::new();
    let mut k: usize = 0;
    proof {
        assert(v@.take(0) =~= Seq::<Ratio>::empty());
        assert(r@.to_multiset() =~= v@.take(0).to_multiset());
    }
    while k < v.len()
        invariant
            k <= v@.len(),
            r@.len() == k,
            r@.to_multiset() == v@.take(k as int).to_multiset(),
            forall|m: int, n: int| 0 <= m < n < r@.len() ==> ratio_le(#[trigger] r@[m], #[trigger] r@[n]),
            forall|i: int|
                0 <= i < v@.len() ==> 1 <= (#[trigger] v@[i]).den <= 0x8000_0000_0000_0000,
            forall|i: int|
                0 <= i < r@.len() ==> 1 <= (#[trigger] r@[i]).den <= 0x8000_0000_0000_0000,
        decreases v@.len() - k,
    {
        let x = v[k];
        let ghost prev = r@;
        let mut i: usize = 0;
        while i < r.len() && ratio_le_exec(&r[i], &x)
            invariant
                i <= r@.len(),
                r@ == prev,
                forall|j: int| 0 <= j < i ==> ratio_le(#[trigger] r@[j], x),
                1 <= x.den <= 0x8000_0000_0000_0000,
                forall|j: int|
                    0 <= j < r@.len() ==> 1 <= (#[trigger] r@[j]).den <= 0x8000_0000_0000_0000,
            decreases r@.len() - i,
        {
            i += 1;
        }
        r.insert(i, x);
        proof {
            prev.insert_ensures(i as int, x);
            if i < prev.len() {
                assert(!ratio_le(prev[i as int], x));
                lemma_ratio_le_total(prev[i as int], x);
                assert(ratio_le(x, prev[i as int]));
            }
            assert forall|m: int, n: int| 0 <= m < n < r@.len() implies ratio_le(
                #[trigger] r@[m],
                #[trigger] r@[n],
            ) by {
                if n < i {
                    assert(r@[m] == prev[m] && r@[n] == prev[n]);
                } else if m > i {
                    assert(r@[m] == prev[m - 1] && r@[n] == prev[n - 1]);
                } else if m == i {
                    assert(r@[m] == x && r@[n] == prev[n - 1]);
                    if n - 1 > i {
                        lemma_ratio_le_transitive(x, prev[i as int], prev[n - 1]);
                    }
                } else if n == i {
                    assert(r@[m] == prev[m] && r@[n] == x);
                    assert(ratio_le(prev[m], x));
                } else {
                    assert(m < i && n > i);
                    assert(r@[m] == prev[m] && r@[n] == prev[n - 1]);
                    if n - 1 == i {
                        lemma_ratio_le_transitive(prev[m], x, prev[i as int]);
                    } else {
                        lemma_ratio_le_transitive(x, prev[i as int], prev[n - 1]);
                        lemma_ratio_le_transitive(prev[m], x, prev[n - 1]);
                    }
                }
            }
            assert(v@.take(k as int + 1) =~= v@.take(k as int).push(v@[k as int]));
            vstd::seq_lib::to_multiset_insert(prev, i as int, x);
            vstd::seq_lib::to_multiset_build(v@.take(k as int), v@[k as int]);
            assert(v@.take(k as int).push(v@[k as int]).to_multiset() =~= v@.take(
                k as int,
            ).to_multiset().insert(v@[k as int]));
            assert(v@.take(k as int + 1).to_multiset() == v@.take(
                k as int,
            ).to_multiset().insert(x));
            assert forall|j: int| 0 <= j < r@.len() implies 1 <= (#[trigger] r@[j]).den
                <= 0x8000_0000_0000_0000 by {
                if j < i {
                    assert(r@[j] == prev[j]);
                } else if j == i {
                    assert(r@[j] == x);
                } else {
                    assert(r@[j] == prev[j - 1]);
                }
            }
        }
        k += 1;
    }
    proof {
        assert(v@.take(k as int) =~= v@);
        let f = ratio_leq_fn();
        assert forall|m: int, n: int| 0 <= m < n < r@.len() implies #[trigger] f(r@[m], r@[n]) by {
            assert(ratio_le(r@[m], r@[n]));
        }
        assert(vstd::relations::sorted_by(r@, ratio_leq_fn()));
    }
    r
}

} // verus!
