use crate::multiplicity::{char_multiplicities, count_bytes, counts_below};
use vstd::prelude::*;

verus! {

/// Passwords whose entropy reaches this many bits count as secure.
pub const ENTROPY_THRESHOLD_BITS: u32 = 72;

/// The number of passwords that a secure policy must admit: two to the
/// power of `ENTROPY_THRESHOLD_BITS`.
pub const SECURE_SPACE: u128 = 4722366482869645213696;

/// Candidate lengths for a suggestion lie below this bound.
pub const MAX_SUGGESTED_LENGTH: usize = 1000;

/// The number of ways to choose `k` of `n` positions.
pub open spec fn binomial(n: nat, k: nat) -> nat
    decreases n,
{
    if k == 0 {
        1
    } else if n == 0 {
        0
    } else {
        binomial((n - 1) as nat, (k - 1) as nat) + binomial((n - 1) as nat, k)
    }
}

pub open spec fn power(b: nat, e: nat) -> nat
    decreases e,
{
    if e == 0 {
        1
    } else {
        b * power(b, (e - 1) as nat)
    }
}

pub open spec fn factorial(n: nat) -> nat
    decreases n,
{
    if n == 0 {
        1
    } else {
        n * factorial((n - 1) as nat)
    }
}

pub open spec fn sum_of(s: Seq<nat>) -> nat
    decreases s.len(),
{
    if s.len() == 0 {
        0
    } else {
        sum_of(s.drop_last()) + s.last()
    }
}

pub open spec fn product_of_factorials(s: Seq<nat>) -> nat
    decreases s.len(),
{
    if s.len() == 0 {
        1
    } else {
        product_of_factorials(s.drop_last()) * factorial(s.last())
    }
}

/// The number of distinct orderings of a multiset whose distinct members occur
/// `mults[0]`, `mults[1]`, ... times: the last member's places are chosen among
/// all places, the rest are ordered recursively.
pub open spec fn multinomial(mults: Seq<nat>) -> nat
    decreases mults.len(),
{
    if mults.len() == 0 {
        1
    } else {
        multinomial(mults.drop_last()) * binomial(sum_of(mults), mults.last())
    }
}

/// The number of passwords of `length` characters over an alphabet of
/// `alphabet_size` that hold forced characters with multiplicities `mults`:
/// the places of the forced characters, their orderings among those places,
/// and a free choice for every other place.
pub open spec fn password_space(length: nat, alphabet_size: nat, mults: Seq<nat>) -> nat {
    binomial(length, sum_of(mults)) * multinomial(mults) * power(
        alphabet_size,
        (length - sum_of(mults)) as nat,
    )
}

/// A password of `length` characters reaches the entropy threshold: the
/// forced characters fit, and log2 of the number of passwords is at least
/// `ENTROPY_THRESHOLD_BITS`.
pub open spec fn is_secure_length(length: nat, alphabet_size: nat, mults: Seq<nat>) -> bool {
    &&& sum_of(mults) <= length
    &&& password_space(length, alphabet_size, mults) >= power(2, ENTROPY_THRESHOLD_BITS as nat)
}

pub open spec fn extra_multiplicities(extra: Option<&[u8]>) -> Seq<nat> {
    match extra {
        Some(e) => char_multiplicities(e@),
        None => seq![],
    }
}

/// The least length from 1 below `MAX_SUGGESTED_LENGTH` that is secure, if any.
pub open spec fn suggested_length(alphabet_size: nat, mults: Seq<nat>) -> Option<usize> {
    if exists|n: usize| 1 <= n < MAX_SUGGESTED_LENGTH && is_secure_length(n as nat, alphabet_size, mults) {
        Some(
            choose|n: usize|
                1 <= n < MAX_SUGGESTED_LENGTH && is_secure_length(n as nat, alphabet_size, mults) && forall|
                    j: usize,
                | 1 <= j < n ==> !is_secure_length(j as nat, alphabet_size, mults),
        )
    } else {
        None
    }
}

pub open spec fn capped(x: nat, cap: nat) -> nat {
    if x < cap {
        x
    } else {
        cap
    }
}

pub proof fn lemma_binomial_zero(n: nat, k: nat)
    requires
        n < k,
    ensures
        binomial(n, k) == 0,
    decreases n,
{
    if n > 0 {
        lemma_binomial_zero((n - 1) as nat, (k - 1) as nat);
        lemma_binomial_zero((n - 1) as nat, k);
    }
}

pub proof fn lemma_binomial_positive(n: nat, k: nat)
    requires
        k <= n,
    ensures
        binomial(n, k) >= 1,
    decreases n,
{
    if k > 0 {
        lemma_binomial_positive((n - 1) as nat, (k - 1) as nat);
    }
}

proof fn lemma_binomial_one(n: nat)
    ensures
        binomial(n, 1) == n,
    decreases n,
{
    if n > 0 {
        lemma_binomial_one((n - 1) as nat);
        assert(binomial((n - 1) as nat, 0) == 1);
    }
}

/// `(i + 1) * C(m + 1, i + 1) == (m + 1) * C(m, i)`.
pub proof fn lemma_binomial_absorption(m: nat, i: nat)
    ensures
        (i + 1) * binomial(m + 1, i + 1) == (m + 1) * binomial(m, i),
    decreases m,
{
    if i == 0 {
        lemma_binomial_one(m + 1);
        assert(binomial(m, 0) == 1);
        assert(binomial(m + 1, 1) == m + 1);
    } else if m == 0 {
        lemma_binomial_zero(1, i + 1);
        lemma_binomial_zero(0, i);
        assert(binomial(m + 1, i + 1) == 0);
        assert(binomial(m, i) == 0);
        assert((i + 1) * 0 == 0) by (nonlinear_arith);
    } else {
        let m1 = (m - 1) as nat;
        let i1 = (i - 1) as nat;
        lemma_binomial_absorption(m1, i1);
        lemma_binomial_absorption(m1, i);
        let a = binomial(m, i);
        let b = binomial(m, i + 1);
        let c = binomial(m1, i1);
        let d = binomial(m1, i);
        assert(binomial(m + 1, i + 1) == a + b);
        assert(a == c + d);
        assert(i * a == m * c);
        assert((i + 1) * b == m * d);
        assert((i + 1) * (a + b) == (m + 1) * a) by (nonlinear_arith)
            requires
                a == c + d,
                i * a == m * c,
                (i + 1) * b == m * d,
        ;
    }
}

/// Along a diagonal of Pascal's triangle the values do not decrease.
pub proof fn lemma_binomial_diagonal(m: nat, i: nat, d: nat)
    ensures
        binomial(m, i) <= binomial(m + d, i + d),
    decreases d,
{
    if d > 0 {
        lemma_binomial_diagonal(m, i, (d - 1) as nat);
        assert(binomial(m + d, i + d) == binomial((m + d - 1) as nat, (i + d - 1) as nat)
            + binomial((m + d - 1) as nat, i + d));
    }
}

pub proof fn lemma_power_positive(b: nat, e: nat)
    requires
        b >= 1,
    ensures
        power(b, e) >= 1,
    decreases e,
{
    if e > 0 {
        lemma_power_positive(b, (e - 1) as nat);
        assert(b * power(b, (e - 1) as nat) >= 1) by (nonlinear_arith)
            requires
                b >= 1,
                power(b, (e - 1) as nat) >= 1,
        ;
    }
}

pub proof fn lemma_multinomial_positive(mults: Seq<nat>)
    ensures
        multinomial(mults) >= 1,
    decreases mults.len(),
{
    if mults.len() > 0 {
        lemma_multinomial_positive(mults.drop_last());
        lemma_binomial_positive(sum_of(mults), mults.last());
        let x = multinomial(mults.drop_last());
        let y = binomial(sum_of(mults), mults.last());
        assert(x * y >= 1) by (nonlinear_arith)
            requires
                x >= 1,
                y >= 1,
        ;
    }
}

/// Capping both factors of a product of positive numbers caps the product.
pub proof fn lemma_capped_product(x: nat, y: nat, cap: nat)
    requires
        x >= 1,
        y >= 1,
    ensures
        capped(capped(x, cap) * capped(y, cap), cap) == capped(x * y, cap),
{
    let cx = capped(x, cap);
    let cy = capped(y, cap);
    if x >= cap {
        assert(cx * cy >= cap) by (nonlinear_arith)
            requires
                cx == cap,
                cy >= 1 || cap == 0,
                cy <= y,
        ;
        assert(x * y >= cap) by (nonlinear_arith)
            requires
                x >= cap,
                y >= 1,
        ;
    } else if y >= cap {
        assert(cx * cy >= cap) by (nonlinear_arith)
            requires
                cy == cap,
                cx >= 1,
        ;
        assert(x * y >= cap) by (nonlinear_arith)
            requires
                y >= cap,
                x >= 1,
        ;
    }
}

proof fn lemma_sum_prefix(s: Seq<nat>, i: int)
    requires
        0 <= i <= s.len(),
    ensures
        sum_of(s.subrange(0, i)) <= sum_of(s),
    decreases s.len(),
{
    if i < s.len() {
        assert(s.drop_last().subrange(0, i) == s.subrange(0, i));
        lemma_sum_prefix(s.drop_last(), i);
    } else {
        assert(s.subrange(0, i) == s);
    }
}

pub proof fn lemma_factorial_positive(n: nat)
    ensures
        factorial(n) >= 1,
    decreases n,
{
    if n > 0 {
        lemma_factorial_positive((n - 1) as nat);
        let f = factorial((n - 1) as nat);
        assert(n * f >= 1) by (nonlinear_arith)
            requires
                n >= 1,
                f >= 1,
        ;
    }
}

/// `C(n, k) * k! * (n - k)! == n!`.
pub proof fn lemma_binomial_factorials(n: nat, k: nat)
    requires
        k <= n,
    ensures
        binomial(n, k) * factorial(k) * factorial((n - k) as nat) == factorial(n),
    decreases n,
{
    if k == 0 {
        assert(factorial(0) == 1);
        assert(binomial(n, k) == 1);
        assert(1 * 1 * factorial(n) == factorial(n));
    } else if k == n {
        lemma_binomial_factorials((n - 1) as nat, (k - 1) as nat);
        lemma_binomial_zero((n - 1) as nat, k);
        lemma_factorial_positive((n - 1) as nat);
        let c = binomial((n - 1) as nat, (k - 1) as nat);
        let f = factorial((n - 1) as nat);
        assert(factorial(0) == 1);
        assert(c * f * 1 == f);
        assert(c == 1) by (nonlinear_arith)
            requires
                c * f * 1 == f,
                f >= 1,
        ;
        assert(binomial(n, k) == 1);
        assert(factorial(k) == factorial(n));
        assert(factorial((n - k) as nat) == 1);
        assert(1 * factorial(n) * 1 == factorial(n));
    } else {
        let n1 = (n - 1) as nat;
        let k1 = (k - 1) as nat;
        lemma_binomial_factorials(n1, k1);
        lemma_binomial_factorials(n1, k);
        let a = binomial(n1, k1);
        let b = binomial(n1, k);
        let fk1 = factorial(k1);
        let fk = factorial(k);
        let fnk = factorial((n - k) as nat);
        let fnk1 = factorial((n1 - k) as nat);
        let f = factorial(n1);
        assert(binomial(n, k) == a + b);
        assert(fk == k * fk1);
        assert(fnk == (n - k) * fnk1);
        assert((n1 - k1) as nat == (n - k) as nat);
        assert(a * fk1 * fnk == f);
        assert(b * fk * fnk1 == f);
        assert(factorial(n) == n * f);
        assert((a + b) * fk * fnk == n * f) by (nonlinear_arith)
            requires
                fk == k * fk1,
                fnk == (n - k) * fnk1,
                a * fk1 * fnk == f,
                b * fk * fnk1 == f,
                k < n,
        ;
    }
}

/// `multinomial(mults) * (product of mults[i]!) == (sum of mults)!`.
pub proof fn lemma_multinomial_factorials(mults: Seq<nat>)
    ensures
        multinomial(mults) * product_of_factorials(mults) == factorial(sum_of(mults)),
    decreases mults.len(),
{
    if mults.len() == 0 {
        assert(factorial(0) == 1);
        assert(sum_of(mults) == 0);
        assert(multinomial(mults) == 1);
        assert(product_of_factorials(mults) == 1);
    } else {
        let init = mults.drop_last();
        let c = mults.last();
        let s = sum_of(mults);
        lemma_multinomial_factorials(init);
        lemma_binomial_factorials(s, c);
        let m = multinomial(init);
        let p = product_of_factorials(init);
        let b = binomial(s, c);
        let fc = factorial(c);
        let fr = factorial((s - c) as nat);
        assert((s - c) as nat == sum_of(init));
        assert(m * p == fr);
        assert(b * fc * fr == factorial(s));
        assert(multinomial(mults) == m * b);
        assert(product_of_factorials(mults) == p * fc);
        assert((m * b) * (p * fc) == factorial(s)) by (nonlinear_arith)
            requires
                m * p == fr,
                b * fc * fr == factorial(s),
        ;
    }
}

/// The count of passwords is the formula of factorials and powers that the
/// entropy in bits is the logarithm of:
/// `space * (n - m)! * (product of c!) == n! * a^(n - m)`, where `m` is the
/// number of forced characters and `c` ranges over their multiplicities.
pub proof fn lemma_password_space_factorials(length: nat, alphabet_size: nat, mults: Seq<nat>)
    requires
        sum_of(mults) <= length,
    ensures
        password_space(length, alphabet_size, mults) * factorial(
            (length - sum_of(mults)) as nat,
        ) * product_of_factorials(mults) == factorial(length) * power(
            alphabet_size,
            (length - sum_of(mults)) as nat,
        ),
{
    let m = sum_of(mults);
    lemma_binomial_factorials(length, m);
    lemma_multinomial_factorials(mults);
    let b = binomial(length, m);
    let mu = multinomial(mults);
    let pw = power(alphabet_size, (length - m) as nat);
    let fr = factorial((length - m) as nat);
    let p = product_of_factorials(mults);
    let fm = factorial(m);
    assert(b * fm * fr == factorial(length));
    assert(mu * p == fm);
    assert(b * mu * pw * fr * p == factorial(length) * pw) by (nonlinear_arith)
        requires
            b * fm * fr == factorial(length),
            mu * p == fm,
    ;
}

/// Without forced characters every place is free: an empty set of extra
/// characters counts as none.
pub proof fn lemma_space_without_forced(length: nat, alphabet_size: nat)
    ensures
        password_space(length, alphabet_size, Seq::empty()) == power(alphabet_size, length),
{
    let e = Seq::<nat>::empty();
    assert(sum_of(e) == 0);
    assert(multinomial(e) == 1);
    assert(binomial(length, 0) == 1);
    assert((length - sum_of(e)) as nat == length);
    assert(password_space(length, alphabet_size, e) == 1 * 1 * power(alphabet_size, length));
    let p = power(alphabet_size, length);
    assert(1 * 1 * p == p) by (nonlinear_arith);
}

/// `m` distinct forced characters that fill the whole password can stand in
/// `m!` orders, and nothing else is free.
pub proof fn lemma_space_distinct_forced(m: nat, alphabet_size: nat)
    ensures
        password_space(m, alphabet_size, Seq::new(m, |i: int| 1nat)) == factorial(m),
{
    let ones = Seq::new(m, |i: int| 1nat);
    lemma_ones(m);
    lemma_multinomial_factorials(ones);
    lemma_binomial_factorials(m, m);
    lemma_factorial_positive(m);
    assert(factorial(0) == 1);
    assert(binomial(m, m) * factorial(m) * 1 == factorial(m));
    assert(binomial(m, m) == 1) by (nonlinear_arith)
        requires
            binomial(m, m) * factorial(m) * 1 == factorial(m),
            factorial(m) >= 1,
    ;
    assert(power(alphabet_size, 0) == 1);
}

proof fn lemma_ones(m: nat)
    ensures
        sum_of(Seq::new(m, |i: int| 1nat)) == m,
        product_of_factorials(Seq::new(m, |i: int| 1nat)) == 1,
    decreases m,
{
    if m > 0 {
        lemma_ones((m - 1) as nat);
        assert(Seq::new(m, |i: int| 1nat).drop_last() == Seq::new((m - 1) as nat, |i: int| 1nat));
        assert(factorial(1) == 1 * factorial(0));
    }
}

/// One character forced `m` times, filling the whole password, leaves a
/// single password.
pub proof fn lemma_space_repeated_forced(m: nat, alphabet_size: nat)
    ensures
        password_space(m, alphabet_size, seq![m]) == 1,
{
    let s = seq![m];
    assert(s.drop_last() == Seq::<nat>::empty());
    assert(sum_of(Seq::<nat>::empty()) == 0);
    assert(multinomial(Seq::<nat>::empty()) == 1);
    assert(s.last() == m);
    assert(sum_of(s) == m);
    lemma_binomial_factorials(m, m);
    lemma_factorial_positive(m);
    assert(factorial(0) == 1);
    assert(binomial(m, m) == 1) by (nonlinear_arith)
        requires
            binomial(m, m) * factorial(m) * factorial(0) == factorial(m),
            factorial(0) == 1,
            factorial(m) >= 1,
    ;
    assert(multinomial(s) == 1 * binomial(m, m));
    assert(power(alphabet_size, 0) == 1);
    assert(password_space(m, alphabet_size, s) == 1 * 1 * 1);
}

/// `x * y`, or `cap` where the product reaches it.
fn mul_capped(x: u128, y: u128, cap: u128) -> (r: u128)
    ensures
        r == capped((x * y) as nat, cap as nat),
{
    match x.checked_mul(y) {
        Some(p) => if p < cap {
            p
        } else {
            cap
        },
        None => cap,
    }
}

/// `C(n, k)`, or `cap` where it reaches it.
fn binomial_capped(n: usize, k: usize, cap: u128) -> (r: u128)
    requires
        k <= n < MAX_SUGGESTED_LENGTH,
        1 < cap <= SECURE_SPACE,
    ensures
        r == capped(binomial(n as nat, k as nat), cap as nat),
{
    let base: usize = n - k;
    let mut b: u128 = 1;
    let mut i: usize = 0;
    while i < k
        invariant
            i <= k <= n < MAX_SUGGESTED_LENGTH,
            base == n - k,
            1 < cap <= SECURE_SPACE,
            b < cap,
            b == binomial((base + i) as nat, i as nat),
        decreases k - i,
    {
        proof {
            lemma_binomial_absorption((base + i) as nat, i as nat);
            let f = (base + i + 1) as int;
            assert(b * f <= SECURE_SPACE * 1000) by (nonlinear_arith)
                requires
                    b < SECURE_SPACE,
                    0 <= f <= 1000,
            ;
            assert(b * f == f * b) by (nonlinear_arith);
        }
        let t: u128 = b * ((base + i + 1) as u128);
        let next: u128 = t / ((i + 1) as u128);
        proof {
            let x = binomial((base + i + 1) as nat, (i + 1) as nat);
            assert(t == (i + 1) * x);
            vstd::arithmetic::div_mod::lemma_div_multiples_vanish(x as int, (i + 1) as int);
            assert(next == x);
        }
        if next >= cap {
            proof {
                lemma_binomial_diagonal((base + i + 1) as nat, (i + 1) as nat, (k - i - 1) as nat);
            }
            return cap;
        }
        b = next;
        i += 1;
    }
    b
}

/// `a` to the power `e`, or `cap` where it reaches it.
fn power_capped(a: u128, e: usize, cap: u128) -> (r: u128)
    requires
        a >= 1,
    ensures
        r == capped(power(a as nat, e as nat), cap as nat),
{
    let ac: u128 = if a < cap {
        a
    } else {
        cap
    };
    let mut p: u128 = if 1 < cap {
        1
    } else {
        cap
    };
    let mut j: usize = 0;
    while j < e
        invariant
            j <= e,
            a >= 1,
            ac == capped(a as nat, cap as nat),
            p == capped(power(a as nat, j as nat), cap as nat),
        decreases e - j,
    {
        proof {
            lemma_power_positive(a as nat, j as nat);
            lemma_capped_product(power(a as nat, j as nat), a as nat, cap as nat);
            assert(power(a as nat, (j + 1) as nat) == a * power(a as nat, j as nat));
            assert(power(a as nat, j as nat) * (a as nat) == (a as nat) * power(a as nat, j as nat))
                by (nonlinear_arith);
        }
        p = mul_capped(p, ac, cap);
        j += 1;
    }
    p
}

/// The multiplicities of the distinct bytes of `bytes`, by ascending byte value.
fn multiplicities_by_value(bytes: &[u8]) -> (r: Vec<usize>)
    ensures
        r@.map_values(|c: usize| c as nat) == char_multiplicities(bytes@),
{
    let counts = count_bytes(bytes);
    let mut r: Vec<usize> = Vec::new();
    let mut v: usize = 0;
    while v < 256
        invariant
            v <= 256,
            counts.len() == 256,
            forall|i: int| 0 <= i < 256 ==> counts[i] == crate::multiplicity::byte_count(bytes@, i as u8),
            r@.map_values(|c: usize| c as nat) == counts_below(bytes@, v as nat),
        decreases 256 - v,
    {
        let ghost prev = r@;
        if counts[v] > 0 {
            r.push(counts[v]);
            assert(r@.map_values(|c: usize| c as nat) == prev.map_values(|c: usize| c as nat).push(
                counts[v as int] as nat,
            ));
        }
        v += 1;
    }
    r
}

/// The sum of `mults`, or `None` where it reaches `MAX_SUGGESTED_LENGTH`.
fn bounded_sum(mults: &Vec<usize>) -> (r: Option<usize>)
    ensures
        match r {
            Some(m) => m == sum_of(mults@.map_values(|c: usize| c as nat)) && m
                < MAX_SUGGESTED_LENGTH,
            None => sum_of(mults@.map_values(|c: usize| c as nat)) >= MAX_SUGGESTED_LENGTH,
        },
{
    let ghost s = mults@.map_values(|c: usize| c as nat);
    let mut total: usize = 0;
    let mut i: usize = 0;
    while i < mults.len()
        invariant
            i <= mults.len(),
            s == mults@.map_values(|c: usize| c as nat),
            total == sum_of(s.subrange(0, i as int)),
            total < MAX_SUGGESTED_LENGTH,
        decreases mults.len() - i,
    {
        proof {
            assert(s.subrange(0, i + 1).drop_last() == s.subrange(0, i as int));
        }
        if mults[i] >= MAX_SUGGESTED_LENGTH - total {
            proof {
                lemma_sum_prefix(s, i + 1);
            }
            return None;
        }
        total = total + mults[i];
        i += 1;
    }
    assert(s.subrange(0, i as int) == s);
    Some(total)
}

/// The multinomial coefficient of `mults`, or `cap` where it reaches it.
fn multinomial_capped(mults: &Vec<usize>, cap: u128) -> (r: u128)
    requires
        sum_of(mults@.map_values(|c: usize| c as nat)) < MAX_SUGGESTED_LENGTH,
        1 < cap <= SECURE_SPACE,
    ensures
        r == capped(multinomial(mults@.map_values(|c: usize| c as nat)), cap as nat),
{
    let ghost s = mults@.map_values(|c: usize| c as nat);
    let mut p: u128 = 1;
    let mut total: usize = 0;
    let mut i: usize = 0;
    while i < mults.len()
        invariant
            i <= mults.len(),
            s == mults@.map_values(|c: usize| c as nat),
            sum_of(s) < MAX_SUGGESTED_LENGTH,
            1 < cap <= SECURE_SPACE,
            total == sum_of(s.subrange(0, i as int)),
            p == capped(multinomial(s.subrange(0, i as int)), cap as nat),
        decreases mults.len() - i,
    {
        let ghost pre = s.subrange(0, i as int);
        let ghost cur = s.subrange(0, i + 1);
        proof {
            assert(cur.drop_last() == pre);
            lemma_sum_prefix(s, i + 1);
            lemma_multinomial_positive(pre);
            lemma_binomial_positive(sum_of(cur), cur.last());
            lemma_capped_product(multinomial(pre), binomial(sum_of(cur), cur.last()), cap as nat);
        }
        total = total + mults[i];
        let b = binomial_capped(total, mults[i], cap);
        p = mul_capped(p, b, cap);
        i += 1;
    }
    assert(s.subrange(0, i as int) == s);
    p
}

/// Suggests the minimum length for a secure password: the least length from 1
/// below `MAX_SUGGESTED_LENGTH` at which the forced characters fit and the
/// passwords of that length number at least two to the power of
/// `ENTROPY_THRESHOLD_BITS`; `None` where there is no such length, and for
/// an empty base set, whose entropy is undefined.
pub fn suggest_password_length(base_charset: &[u8], extra_charset: Option<&[u8]>) -> (r: Option<
    usize,
>)
    ensures
        r == if base_charset@.len() == 0 {
            None
        } else {
            suggested_length(base_charset@.len(), extra_multiplicities(extra_charset))
        },
{
    if base_charset.len() == 0 {
        return None;
    }
    let ghost a = base_charset@.len();
    let mults: Vec<usize> = match extra_charset {
        Some(e) => multiplicities_by_value(e),
        None => Vec::new(),
    };
    let ghost s = mults@.map_values(|c: usize| c as nat);
    assert(s == extra_multiplicities(extra_charset));
    proof {
        lemma_secure_space();
    }
    let m = match bounded_sum(&mults) {
        Some(m) => m,
        None => {
            assert forall|n: usize| 1 <= n < MAX_SUGGESTED_LENGTH implies !is_secure_length(
                n as nat,
                a,
                s,
            ) by {}
            return None;
        },
    };
    let multi = multinomial_capped(&mults, SECURE_SPACE);
    let alphabet_size = base_charset.len() as u128;
    let mut n: usize = 1;
    while n < MAX_SUGGESTED_LENGTH
        invariant
            1 <= n <= MAX_SUGGESTED_LENGTH,
            a == base_charset@.len(),
            a >= 1,
            alphabet_size == a,
            s == extra_multiplicities(extra_charset),
            m == sum_of(s),
            multi == capped(multinomial(s), SECURE_SPACE as nat),
            SECURE_SPACE == power(2, ENTROPY_THRESHOLD_BITS as nat),
            forall|j: usize| 1 <= j < n ==> !is_secure_length(j as nat, a, s),
        decreases MAX_SUGGESTED_LENGTH - n,
    {
        if n >= m {
            let b = binomial_capped(n, m, SECURE_SPACE);
            let f = power_capped(alphabet_size, n - m, SECURE_SPACE);
            let bm = mul_capped(b, multi, SECURE_SPACE);
            let space = mul_capped(bm, f, SECURE_SPACE);
            proof {
                let bn = binomial(n as nat, m as nat);
                let mn = multinomial(s);
                let pn = power(a, (n - m) as nat);
                lemma_binomial_positive(n as nat, m as nat);
                lemma_multinomial_positive(s);
                lemma_power_positive(a, (n - m) as nat);
                lemma_capped_product(bn, mn, SECURE_SPACE as nat);
                assert(bn * mn >= 1) by (nonlinear_arith)
                    requires
                        bn >= 1,
                        mn >= 1,
                ;
                lemma_capped_product(bn * mn, pn, SECURE_SPACE as nat);
                assert(space == capped(password_space(n as nat, a, s), SECURE_SPACE as nat));
            }
            if space >= SECURE_SPACE {
                proof {
                    assert(is_secure_length(n as nat, a, s));
                    lemma_first_secure(a, s, n);
                }
                return Some(n);
            }
        }
        n += 1;
    }
    None
}

proof fn lemma_first_secure(a: nat, s: Seq<nat>, n: usize)
    requires
        1 <= n < MAX_SUGGESTED_LENGTH,
        is_secure_length(n as nat, a, s),
        forall|j: usize| 1 <= j < n ==> !is_secure_length(j as nat, a, s),
    ensures
        suggested_length(a, s) == Some(n),
{
    let k = choose|k: usize|
        1 <= k < MAX_SUGGESTED_LENGTH && is_secure_length(k as nat, a, s) && forall|j: usize|
            1 <= j < k ==> !is_secure_length(j as nat, a, s);
    if k < n {
    } else if k > n {
        assert(!is_secure_length(n as nat, a, s));
    }
}

proof fn lemma_power_add(b: nat, e1: nat, e2: nat)
    ensures
        power(b, e1 + e2) == power(b, e1) * power(b, e2),
    decreases e1,
{
    if e1 > 0 {
        lemma_power_add(b, (e1 - 1) as nat, e2);
        assert(((e1 - 1) as nat + e2) as nat == (e1 + e2 - 1) as nat);
        assert(power(b, e1 + e2) == b * power(b, (e1 + e2 - 1) as nat));
        let x = power(b, (e1 - 1) as nat);
        let y = power(b, e2);
        assert(power(b, e1) == b * x);
        assert(b * (x * y) == (b * x) * y) by (nonlinear_arith);
    } else {
        assert(power(b, e1) == 1);
        assert(e1 + e2 == e2);
    }
}

/// `SECURE_SPACE` is two to the power of `ENTROPY_THRESHOLD_BITS`.
pub proof fn lemma_secure_space()
    ensures
        SECURE_SPACE == power(2, ENTROPY_THRESHOLD_BITS as nat),
{
    reveal_with_fuel(power, 10);
    assert(power(2, 9) == 512);
    lemma_power_add(2, 9, 9);
    assert(power(2, 18) == 262144);
    lemma_power_add(2, 18, 18);
    assert(power(2, 36) == 68719476736);
    lemma_power_add(2, 36, 36);
    assert(power(2, 72) == 4722366482869645213696);
}

} // verus!
