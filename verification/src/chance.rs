//! The chance that at least one of several independent events happens,
//! computed exactly: the product of the complements is carried digit by
//! digit, whatever its length, and rounded once at the end.

use vstd::prelude::*;

verus! {

/// The value that stands for probability one where chances are given:
/// chances are counted in millionths.
pub const ONE: u32 = 1_000_000;

/// The value that stands for probability one where chances are computed:
/// results are counted in millionths of millionths of millionths.
pub const FINE: u64 = 1_000_000_000_000_000_000;

/// How many units of [`FINE`] make one unit of [`ONE`].
pub const FINE_PER_ONE: u64 = 1_000_000_000_000;

/// Every chance of `ps` is at most one.
pub open spec fn all_chances(ps: Seq<u32>) -> bool {
    forall|i: int| 0 <= i < ps.len() ==> #[trigger] ps[i] <= ONE
}

/// `ONE` to the power `n`.
pub open spec fn one_to(n: nat) -> int
    decreases n,
{
    if n == 0 {
        1
    } else {
        one_to((n - 1) as nat) * ONE
    }
}

/// The product of the complements of `ps`, exactly: a number of
/// `ONE`-to-the-`len`-ths.
pub open spec fn stay_exact(ps: Seq<u32>) -> int
    decreases ps.len(),
{
    if ps.len() == 0 {
        1
    } else {
        stay_exact(ps.drop_last()) * (ONE - ps.last())
    }
}

/// The chance that at least one of the events with chances `ps` happens, in
/// units of [`FINE`]: one minus the product of the complements, the product
/// rounded down to a whole unit once.
pub open spec fn leave_chance(ps: Seq<u32>) -> int {
    FINE - stay_exact(ps) * FINE / one_to(ps.len())
}

/// The sum, over the events in order, of the chance that this one happens and
/// none before it did, exactly: a number of `ONE`-to-the-`len`-ths.
pub open spec fn leave_series(ps: Seq<u32>) -> int
    decreases ps.len(),
{
    if ps.len() == 0 {
        0
    } else {
        leave_series(ps.drop_last()) * ONE + ps.last() * stay_exact(ps.drop_last())
    }
}

/// The number that `digits` spell in base `ONE`, lowest digit first.
pub open spec fn number(digits: Seq<u32>) -> int
    decreases digits.len(),
{
    if digits.len() == 0 {
        0
    } else {
        number(digits.drop_last()) + digits.last() * one_to((digits.len() - 1) as nat)
    }
}

/// Every digit of `digits` is below the base.
pub open spec fn are_digits(digits: Seq<u32>) -> bool {
    forall|i: int| 0 <= i < digits.len() ==> #[trigger] digits[i] < ONE
}

/// Powers of `ONE` multiply by adding exponents, and are positive.
pub proof fn lemma_one_to(a: nat, b: nat)
    ensures
        one_to(a + b) == one_to(a) * one_to(b),
        0 < one_to(a),
    decreases a + b,
{
    if a > 0 {
        lemma_one_to((a - 1) as nat, 0);
        let w = one_to((a - 1) as nat);
        assert(0 < w * ONE) by (nonlinear_arith)
            requires
                0 < w,
        ;
    }
    if b > 0 {
        lemma_one_to(a, (b - 1) as nat);
        let x = one_to(a);
        let y = one_to((b - 1) as nat);
        assert((x * y) * ONE == x * (y * ONE)) by (nonlinear_arith);
    } else {
        assert(one_to(a) * 1 == one_to(a));
    }
}

/// `FINE` is the third power of `ONE`.
pub proof fn lemma_fine()
    ensures
        one_to(3) == FINE,
{
    assert(one_to(1) == ONE) by {
        reveal_with_fuel(one_to, 2);
    }
    assert(one_to(2) == ONE * ONE) by {
        reveal_with_fuel(one_to, 3);
    }
    assert(one_to(3) == one_to(2) * ONE);
}

/// The exact product of the complements lies between zero and one.
pub proof fn lemma_stay_exact_range(ps: Seq<u32>)
    requires
        all_chances(ps),
    ensures
        0 <= stay_exact(ps) <= one_to(ps.len()),
        0 < one_to(ps.len()),
    decreases ps.len(),
{
    lemma_one_to(ps.len(), 0);
    if ps.len() > 0 {
        let init = ps.drop_last();
        assert(all_chances(init)) by {
            assert forall|i: int| 0 <= i < init.len() implies #[trigger] init[i] <= ONE by {
                assert(init[i] == ps[i]);
            }
        }
        lemma_stay_exact_range(init);
        let e = stay_exact(init);
        let q = ONE - ps.last();
        let w = one_to(init.len());
        assert(0 <= e * q <= w * ONE) by (nonlinear_arith)
            requires
                0 <= e <= w,
                0 <= q <= ONE,
        ;
    }
}

/// The chance computed against the exact value. It lies between zero and
/// one; it is never below the exact chance that at least one event happens,
/// one minus the product of the complements, and exceeds it by less than one
/// unit of [`FINE`], whatever the number of events (both sides are brought
/// to the denominator `ONE` to the power `len`). With no events it is zero.
pub proof fn lemma_leave_chance_exact(ps: Seq<u32>)
    requires
        all_chances(ps),
    ensures
        0 <= leave_chance(ps) <= FINE,
        (one_to(ps.len()) - stay_exact(ps)) * FINE <= leave_chance(ps) * one_to(ps.len()),
        leave_chance(ps) * one_to(ps.len()) < (one_to(ps.len()) - stay_exact(ps)) * FINE + one_to(ps.len()),
        ps.len() == 0 ==> leave_chance(ps) == 0,
{
    lemma_stay_exact_range(ps);
    let e = stay_exact(ps);
    let w = one_to(ps.len());
    let f = FINE as int;
    let q = e * f / w;
    assert(0 <= q <= f && q * w <= e * f && e * f < (q + 1) * w) by (nonlinear_arith)
        requires
            0 <= e <= w,
            0 < w,
            0 < f,
            q == e * f / w,
    ;
    assert((w - e) * f <= (f - q) * w && (f - q) * w < (w - e) * f + w) by (nonlinear_arith)
        requires
            q * w <= e * f,
            e * f < (q + 1) * w,
    ;
    if ps.len() == 0 {
        assert(1 * f / 1 == f);
    }
}

/// The sum over the events and the complement of the product are one and the
/// same number: what the series adds up to is exactly one minus the product
/// of the complements.
pub proof fn lemma_leave_series(ps: Seq<u32>)
    ensures
        leave_series(ps) == one_to(ps.len()) - stay_exact(ps),
    decreases ps.len(),
{
    if ps.len() > 0 {
        let init = ps.drop_last();
        lemma_leave_series(init);
        let l0 = leave_series(init);
        let e0 = stay_exact(init);
        let w = one_to(init.len());
        let p = ps.last() as int;
        let d = ONE as int;
        assert(l0 * d + p * e0 == w * d - e0 * (d - p)) by (nonlinear_arith)
            requires
                l0 == w - e0,
        ;
    }
}

/// The product of the complements of two runs of events, one after the
/// other, is the product of their products.
pub proof fn lemma_stay_exact_concat(a: Seq<u32>, b: Seq<u32>)
    ensures
        stay_exact(a + b) == stay_exact(a) * stay_exact(b),
    decreases b.len(),
{
    if b.len() == 0 {
        assert(a + b == a);
        assert(stay_exact(a) * 1 == stay_exact(a));
    } else {
        lemma_stay_exact_concat(a, b.drop_last());
        assert((a + b).drop_last() == a + b.drop_last());
        assert((a + b).last() == b.last());
        let x = stay_exact(a);
        let y = stay_exact(b.drop_last());
        let q = ONE - b.last();
        assert((x * y) * q == x * (y * q)) by (nonlinear_arith);
    }
}

/// Taking one event out divides the product by its complement.
pub proof fn lemma_stay_exact_remove(ps: Seq<u32>, i: int)
    requires
        0 <= i < ps.len(),
    ensures
        stay_exact(ps) == stay_exact(ps.remove(i)) * (ONE - ps[i]),
{
    let front = ps.take(i);
    let one = seq![ps[i]];
    let back = ps.skip(i + 1);
    assert(ps == (front + one) + back);
    assert(ps.remove(i) == front + back);
    lemma_stay_exact_concat(front + one, back);
    lemma_stay_exact_concat(front, one);
    lemma_stay_exact_concat(front, back);
    assert(one.len() == 1);
    assert(one.last() == ps[i]);
    assert(one.drop_last().len() == 0);
    assert(stay_exact(one.drop_last()) == 1);
    assert(stay_exact(one) == 1 * (ONE - ps[i]));
    let x = stay_exact(front);
    let y = stay_exact(back);
    let q = ONE - ps[i];
    assert((x * q) * y == (x * y) * q) by (nonlinear_arith);
}

/// The order of the events does not matter: the same chances in another
/// order give the same product, and so the same chance that at least one
/// event happens.
pub proof fn lemma_order_does_not_matter(ps: Seq<u32>, qs: Seq<u32>)
    requires
        ps.to_multiset() == qs.to_multiset(),
    ensures
        stay_exact(ps) == stay_exact(qs),
        leave_chance(ps) == leave_chance(qs),
    decreases ps.len(),
{
    broadcast use vstd::seq_lib::group_to_multiset_ensures;

    ps.to_multiset_ensures();
    qs.to_multiset_ensures();
    assert(ps.len() == qs.len());
    if ps.len() > 0 {
        let x = ps.last();
        let init = ps.drop_last();
        assert(ps.contains(x)) by {
            assert(ps[ps.len() - 1] == x);
        }
        assert(qs.to_multiset().count(x) > 0);
        assert(qs.contains(x));
        let j = choose|j: int| 0 <= j < qs.len() && qs[j] == x;
        assert(init == ps.remove(ps.len() - 1));
        assert(init.to_multiset() == ps.to_multiset().remove(x));
        assert(qs.remove(j).to_multiset() == qs.to_multiset().remove(x));
        lemma_order_does_not_matter(init, qs.remove(j));
        lemma_stay_exact_remove(qs, j);
    }
}

/// One more digit on top adds that digit times the base to the power of the
/// count of the digits below it.
pub proof fn lemma_number_push(digits: Seq<u32>, digit: u32)
    ensures
        number(digits.push(digit)) == number(digits) + digit * one_to(digits.len()),
{
    assert(digits.push(digit).drop_last() == digits);
}

/// The four digits `a`, `b`, `c`, `d`, lowest first, spell
/// `a + b * ONE + c * ONE^2 + d * ONE^3`.
pub proof fn lemma_number_four(a: u32, b: u32, c: u32, d: u32)
    ensures
        number(seq![a, b, c, d]) == a + b * 1_000_000 + c * 1_000_000_000_000 + d * 1_000_000_000_000_000_000,
{
    let s0 = Seq::<u32>::empty();
    let s1 = s0.push(a);
    let s2 = s1.push(b);
    let s3 = s2.push(c);
    let s4 = s3.push(d);
    assert(s4 == seq![a, b, c, d]);
    lemma_number_push(s0, a);
    lemma_number_push(s1, b);
    lemma_number_push(s2, c);
    lemma_number_push(s3, d);
    lemma_fine();
    assert(one_to(0) == 1);
    assert(one_to(1) == 1_000_000) by {
        reveal_with_fuel(one_to, 2);
    }
    assert(one_to(2) == 1_000_000_000_000) by {
        reveal_with_fuel(one_to, 3);
    }
    assert(number(s0) == 0);
    assert(a * 1 == a);
}

/// Digits below the base spell a number below the base to the power of
/// their count.
pub proof fn lemma_number_bound(digits: Seq<u32>)
    requires
        are_digits(digits),
    ensures
        0 <= number(digits) < one_to(digits.len()),
    decreases digits.len(),
{
    if digits.len() > 0 {
        let init = digits.drop_last();
        assert(are_digits(init)) by {
            assert forall|i: int| 0 <= i < init.len() implies #[trigger] init[i] < ONE by {
                assert(init[i] == digits[i]);
            }
        }
        lemma_number_bound(init);
        let w = one_to(init.len());
        let d = digits.last() as int;
        assert(0 <= d * w && number(init) + d * w < w * ONE) by (nonlinear_arith)
            requires
                0 <= number(init) < w,
                0 <= d < ONE,
        ;
    }
}

/// A number is its low digits plus the base to their count times its high
/// digits.
pub proof fn lemma_number_split(digits: Seq<u32>, k: int)
    requires
        0 <= k <= digits.len(),
    ensures
        number(digits) == number(digits.take(k)) + one_to(k as nat) * number(digits.skip(k)),
    decreases digits.len(),
{
    if k == digits.len() {
        assert(digits.take(k) == digits);
        assert(digits.skip(k).len() == 0);
        assert(one_to(k as nat) * 0 == 0);
    } else {
        let init = digits.drop_last();
        lemma_number_split(init, k);
        assert(init.take(k) == digits.take(k));
        assert(init.skip(k) == digits.skip(k).drop_last());
        assert(digits.skip(k).last() == digits.last());
        let high = (digits.len() - 1 - k) as nat;
        lemma_one_to(k as nat, high);
        let w = one_to(k as nat);
        let v = one_to(high);
        let d = digits.last() as int;
        let n0 = number(init.skip(k));
        assert(w * (n0 + d * v) == w * n0 + d * (w * v)) by (nonlinear_arith);
    }
}

/// The number `digits` times `factor`, digit by digit.
pub fn times(digits: &Vec<u32>, factor: u32) -> (product: Vec<u32>)
    requires
        are_digits(digits@),
        factor <= ONE,
    ensures
        are_digits(product@),
        product@.len() == digits@.len() + 1,
        number(product@) == number(digits@) * factor,
{
    let n: usize = digits.len();
    let mut product: Vec<u32> = Vec::new();
    let mut carry: u64 = 0;
    let mut i: usize = 0;
    assert(digits@.take(0).len() == 0);
    while i < n
        invariant
            i <= n,
            n == digits@.len(),
            are_digits(digits@),
            factor <= ONE,
            product@.len() == i,
            are_digits(product@),
            carry <= ONE,
            number(product@) + carry * one_to(i as nat) == number(digits@.take(i as int)) * factor,
        decreases n - i,
    {
        let digit: u32 = digits[i];
        assert(digit < ONE);
        assert(digit * factor + carry <= ONE * ONE) by (nonlinear_arith)
            requires
                digit < ONE,
                factor <= ONE,
                carry <= ONE,
        ;
        let t: u64 = digit as u64 * factor as u64 + carry;
        let low: u32 = (t % (ONE as u64)) as u32;
        let high: u64 = t / (ONE as u64);
        proof {
            let before = number(product@);
            let upto = number(digits@.take(i as int));
            let w = one_to(i as nat);
            assert(digits@.take(i + 1).drop_last() == digits@.take(i as int));
            assert(digits@.take(i + 1).last() == digit);
            assert(product@.push(low).drop_last() == product@);
            assert(one_to((i + 1) as nat) == w * ONE);
            assert(before + low * w + high * (w * ONE) == (upto + digit * w) * factor) by (nonlinear_arith)
                requires
                    before + carry * w == upto * factor,
                    digit * factor + carry == high * ONE + low,
            ;
        }
        product.push(low);
        carry = high;
        i = i + 1;
    }
    proof {
        assert(digits@.take(n as int) == digits@);
        lemma_number_bound(digits@);
        lemma_number_bound(product@);
        let w = one_to(n as nat);
        let v = number(digits@);
        assert(carry < ONE) by (nonlinear_arith)
            requires
                number(product@) + carry * w == v * factor,
                0 <= number(product@),
                0 <= v < w,
                0 <= factor <= ONE,
                0 <= carry,
        ;
        assert(product@.push(carry as u32).drop_last() == product@);
    }
    product.push(carry as u32);
    product
}

/// The chance that at least one of the events with chances `chances`
/// happens, in units of [`FINE`]; zero with no events.
pub fn at_least_one(chances: &Vec<u32>) -> (chance: u64)
    requires
        all_chances(chances@),
    ensures
        chance == leave_chance(chances@),
        chance <= FINE,
        chances@.len() == 0 ==> chance == 0,
{
    let n: usize = chances.len();
    let mut digits: Vec<u32> = Vec::new();
    digits.push(0);
    digits.push(0);
    digits.push(0);
    digits.push(1);
    proof {
        lemma_fine();
        lemma_number_four(0, 0, 0, 1);
        assert(digits@ == seq![0u32, 0u32, 0u32, 1u32]);
        assert(chances@.take(0).len() == 0);
        assert(FINE * 1 == FINE);
    }
    let mut i: usize = 0;
    while i < n
        invariant
            i <= n,
            n == chances@.len(),
            all_chances(chances@),
            are_digits(digits@),
            digits@.len() == 4 + i,
            number(digits@) == FINE * stay_exact(chances@.take(i as int)),
        decreases n - i,
    {
        let ghost before = stay_exact(chances@.take(i as int));
        let chance: u32 = chances[i];
        proof {
            assert(chances@.take(i + 1).drop_last() == chances@.take(i as int));
            assert(chances@.take(i + 1).last() == chance);
            assert((FINE * before) * (ONE - chance) == FINE * (before * (ONE - chance))) by (nonlinear_arith);
        }
        digits = times(&digits, ONE - chance);
        i = i + 1;
    }
    let len: usize = digits.len();
    let low: u128 = digits[len - 4] as u128;
    let mid: u128 = digits[len - 3] as u128;
    let high: u128 = digits[len - 2] as u128;
    let top: u128 = digits[len - 1] as u128;
    let stay: u128 = low + mid * 1_000_000 + high * 1_000_000_000_000 + top * 1_000_000_000_000_000_000;
    proof {
        assert(chances@.take(n as int) == chances@);
        lemma_fine();
        lemma_stay_exact_range(chances@);
        lemma_leave_chance_exact(chances@);
        lemma_number_split(digits@, n as int);
        let front = digits@.take(n as int);
        let back = digits@.skip(n as int);
        assert(are_digits(front)) by {
            assert forall|k: int| 0 <= k < front.len() implies #[trigger] front[k] < ONE by {
                assert(front[k] == digits@[k]);
            }
        }
        lemma_number_bound(front);
        assert(number(back) == stay) by {
            lemma_number_four(digits@[n as int], digits@[n + 1], digits@[n + 2], digits@[n + 3]);
            assert(back == seq![digits@[n as int], digits@[n + 1], digits@[n + 2], digits@[n + 3]]);
        }
        let w = one_to(n as nat);
        let a = number(digits@);
        let e = stay_exact(chances@);
        assert(a / w == stay) by (nonlinear_arith)
            requires
                a == number(front) + w * stay,
                0 <= number(front) < w,
        ;
        assert(e * FINE == FINE * e) by (nonlinear_arith);
    }
    (FINE as u128 - stay) as u64
}

} // verus!
