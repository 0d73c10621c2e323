//! Exact decimal numeric keys.
//!
//! A numeric key is a sign, a sequence of significant decimal digits and a
//! power-of-ten exponent; the value it stands for is
//! `(-1)^neg * mant(digits) * 10^exp`. Keys are kept canonical (no leading or
//! trailing zero digit, a single representation of zero), so two keys stand
//! for the same value exactly when they are equal. The ordering is defined by
//! comparing the values as integers after rescaling to a common exponent, and
//! the executable comparison is proved against that definition.

use vstd::prelude::*;
use vstd::arithmetic::power::pow;
use vstd::arithmetic::power::lemma_pow0;
use vstd::arithmetic::power::lemma_pow1;
use vstd::arithmetic::power::lemma_pow_adds;
use vstd::arithmetic::power::lemma_pow_positive;
use vstd::arithmetic::power::lemma_pow_increases;
use vstd::arithmetic::mul::lemma_mul_inequality;
use vstd::arithmetic::mul::lemma_mul_strict_inequality;
use vstd::arithmetic::mul::lemma_mul_is_associative;
use vstd::arithmetic::mul::lemma_mul_is_distributive_add_other_way;
use vstd::arithmetic::mul::lemma_mul_strictly_positive;
use vstd::arithmetic::mul::lemma_mul_unary_negation;
use vstd::arithmetic::mul::lemma_mul_by_zero_is_zero;
use crate::order::Relation;

verus! {

/// Bound on the magnitude of a key's exponent. Parsing never leaves this
/// range (an input line fits in memory, and the largest suffix adds twelve),
/// and it keeps the executable comparison free of overflow.
pub const EXP_LIMIT: i128 = 1_000_000_000_000_000_000_000_000;

/// Mathematical view of a numeric key.
pub struct NumView {
    pub neg: bool,
    pub digits: Seq<u8>,
    pub exp: int,
}

/// An exact decimal numeric key in canonical form.
pub struct NumValue {
    pub neg: bool,
    pub digits: Vec<u8>,
    pub exp: i128,
}

impl View for NumValue {
    type V = NumView;

    open spec fn view(&self) -> NumView {
        NumView { neg: self.neg, digits: self.digits@, exp: self.exp as int }
    }
}

pub open spec fn digits_wf(ds: Seq<u8>) -> bool {
    forall|i: int| 0 <= i < ds.len() ==> ds[i] <= 9
}

/// Canonical form: decimal digits only, a bounded exponent, no leading or
/// trailing zero digit, and zero itself written with an empty digit sequence,
/// a positive sign and exponent zero.
pub open spec fn num_view_wf(v: NumView) -> bool {
    &&& digits_wf(v.digits)
    &&& -(EXP_LIMIT as int) <= v.exp <= EXP_LIMIT as int
    &&& v.digits.len() <= EXP_LIMIT as int
    &&& (if v.digits.len() == 0 {
        !v.neg && v.exp == 0
    } else {
        v.digits[0] != 0 && v.digits[v.digits.len() - 1] != 0
    })
}

impl NumValue {
    pub open spec fn wf(&self) -> bool {
        num_view_wf(self@)
    }
}

/// `10^e`, clamped to `10^0` below zero; used only at nonnegative exponents.
pub open spec fn pow10(e: int) -> int {
    pow(10, (if e >= 0 { e } else { 0 }) as nat)
}

/// The integer named by a digit sequence read most significant first.
pub open spec fn mant(ds: Seq<u8>) -> int
    decreases ds.len(),
{
    if ds.len() == 0 {
        0
    } else {
        mant(ds.drop_last()) * 10 + ds.last()
    }
}

/// The value of `v` scaled by `10^(-m)`, an integer whenever `m <= v.exp`.
pub open spec fn sval(v: NumView, m: int) -> int {
    (if v.neg { -1int } else { 1int }) * mant(v.digits) * pow10(v.exp - m)
}

pub open spec fn min_exp(a: NumView, b: NumView) -> int {
    if a.exp <= b.exp { a.exp } else { b.exp }
}

/// Ordering of two numeric keys: the order of their values, compared as
/// integers at the common scale of the smaller exponent.
pub open spec fn num_cmp(a: NumView, b: NumView) -> Relation {
    let m = min_exp(a, b);
    if sval(a, m) < sval(b, m) {
        Relation::Less
    } else if sval(a, m) == sval(b, m) {
        Relation::Equal
    } else {
        Relation::Greater
    }
}

pub open spec fn num_le(a: NumView, b: NumView) -> bool {
    num_cmp(a, b) != Relation::Greater
}

pub proof fn lemma_pow10_pos(e: int)
    ensures
        pow10(e) >= 1,
{
    lemma_pow_positive(10, (if e >= 0 { e } else { 0 }) as nat);
}

pub proof fn lemma_pow10_adds(e1: int, e2: int)
    requires
        e1 >= 0,
        e2 >= 0,
    ensures
        pow10(e1 + e2) == pow10(e1) * pow10(e2),
{
    lemma_pow_adds(10, e1 as nat, e2 as nat);
}

pub proof fn lemma_pow10_step(e: int)
    requires
        e >= 1,
    ensures
        pow10(e) == 10 * pow10(e - 1),
{
    lemma_pow_adds(10, 1nat, (e - 1) as nat);
    lemma_pow1(10);
}

pub proof fn lemma_pow10_increases(e1: int, e2: int)
    requires
        0 <= e1 <= e2,
    ensures
        pow10(e1) <= pow10(e2),
{
    lemma_pow_increases(10, e1 as nat, e2 as nat);
}

/// A digit sequence names a nonnegative integer, whatever its entries.
pub proof fn lemma_mant_nonneg(ds: Seq<u8>)
    ensures
        mant(ds) >= 0,
    decreases ds.len(),
{
    if ds.len() > 0 {
        lemma_mant_nonneg(ds.drop_last());
    }
}

/// A well-formed digit sequence names an integer in `[0, 10^len)`.
pub proof fn lemma_mant_upper(ds: Seq<u8>)
    requires
        digits_wf(ds),
    ensures
        0 <= mant(ds) < pow10(ds.len() as int),
    decreases ds.len(),
{
    if ds.len() == 0 {
        lemma_pow0(10);
    } else {
        let dl = ds.drop_last();
        assert(digits_wf(dl));
        lemma_mant_upper(dl);
        lemma_pow10_step(ds.len() as int);
        lemma_mul_inequality(mant(dl), pow10(ds.len() - 1) - 1, 10);
        assert(ds.last() <= 9);
    }
}

/// With a nonzero leading digit the named integer is at least `10^(len-1)`.
pub proof fn lemma_mant_lower(ds: Seq<u8>)
    requires
        digits_wf(ds),
        ds.len() > 0,
        ds[0] != 0,
    ensures
        mant(ds) >= pow10(ds.len() - 1),
    decreases ds.len(),
{
    if ds.len() == 1 {
        lemma_pow0(10);
        assert(mant(ds.drop_last()) == 0);
        assert(ds.last() == ds[0]);
        assert(mant(ds) == mant(ds.drop_last()) * 10 + ds.last());
    } else {
        let dl = ds.drop_last();
        assert(digits_wf(dl));
        assert(dl[0] == ds[0]);
        lemma_mant_lower(dl);
        lemma_pow10_step(ds.len() - 1);
        lemma_mul_inequality(pow10(ds.len() - 2), mant(dl), 10);
        assert(mant(ds) == mant(dl) * 10 + ds.last());
    }
}

/// Reads the signed scaled value off its parts, by the sign of the key.
pub proof fn lemma_sval_parts(v: NumView, m: int)
    ensures
        !v.neg ==> sval(v, m) == mant(v.digits) * pow10(v.exp - m),
        v.neg ==> sval(v, m) == -(mant(v.digits) * pow10(v.exp - m)),
        v.digits.len() == 0 ==> sval(v, m) == 0,
{
    let mt = mant(v.digits);
    let p = pow10(v.exp - m);
    if v.neg {
        lemma_mul_unary_negation(mt, p);
        assert((-1int) * mt == -mt);
        assert(sval(v, m) == ((-1int) * mt) * p);
    } else {
        assert(sval(v, m) == (1int * mt) * p);
        assert(1int * mt == mt);
    }
    if v.digits.len() == 0 {
        lemma_mul_by_zero_is_zero(p);
    }
}

/// Splitting a digit sequence splits its integer: the prefix is scaled by
/// ten to the length of the suffix.
pub proof fn lemma_mant_append(x: Seq<u8>, y: Seq<u8>)
    ensures
        mant(x + y) == mant(x) * pow10(y.len() as int) + mant(y),
    decreases y.len(),
{
    if y.len() == 0 {
        assert(x + y =~= x);
        lemma_pow0(10);
    } else {
        let ydl = y.drop_last();
        assert((x + y).drop_last() =~= x + ydl);
        assert((x + y).last() == y.last());
        lemma_mant_append(x, ydl);
        lemma_pow10_step(y.len() as int);
        lemma_mul_is_associative(mant(x), pow10(y.len() - 1), 10);
    }
}

/// The integer of a nonempty digit sequence decomposed at its head.
pub proof fn lemma_mant_head(ds: Seq<u8>)
    requires
        ds.len() > 0,
    ensures
        mant(ds) == ds[0] * pow10(ds.len() - 1) + mant(ds.drop_first()),
{
    assert(ds =~= seq![ds[0]] + ds.drop_first());
    lemma_mant_append(seq![ds[0]], ds.drop_first());
    let s1 = seq![ds[0]];
    assert(s1.drop_last() =~= Seq::<u8>::empty());
    assert(mant(Seq::<u8>::empty()) == 0);
    assert(mant(s1) == mant(s1.drop_last()) * 10 + s1.last());
    assert(s1.last() == ds[0]);
}

/// Rescaling to a smaller exponent multiplies the scaled value by the
/// matching power of ten.
pub proof fn lemma_sval_rescale(v: NumView, m1: int, m2: int)
    requires
        m2 <= m1 <= v.exp,
    ensures
        sval(v, m2) == sval(v, m1) * pow10(m1 - m2),
{
    let s = if v.neg { -1int } else { 1int };
    lemma_pow10_adds(v.exp - m1, m1 - m2);
    lemma_mul_is_associative(s * mant(v.digits), pow10(v.exp - m1), pow10(m1 - m2));
}

/// The comparison may be read off at any common scale, not only at the
/// smaller of the two exponents.
pub proof fn lemma_num_cmp_at(a: NumView, b: NumView, m: int)
    requires
        m <= a.exp,
        m <= b.exp,
    ensures
        num_cmp(a, b) == Relation::Less <==> sval(a, m) < sval(b, m),
        num_cmp(a, b) == Relation::Equal <==> sval(a, m) == sval(b, m),
        num_cmp(a, b) == Relation::Greater <==> sval(a, m) > sval(b, m),
{
    let mm = min_exp(a, b);
    if m < mm {
        lemma_sval_rescale(a, mm, m);
        lemma_sval_rescale(b, mm, m);
        lemma_pow10_pos(mm - m);
        let p = pow10(mm - m);
        let x = sval(a, mm);
        let y = sval(b, mm);
        if x < y {
            lemma_mul_strict_inequality(x, y, p);
        }
        if y < x {
            lemma_mul_strict_inequality(y, x, p);
        }
    }
}

/// The numeric order is total: of two keys, one is less than or equal to the
/// other.
pub proof fn lemma_num_le_total(a: NumView, b: NumView)
    ensures
        num_le(a, b) || num_le(b, a),
{
    let mm = min_exp(a, b);
    assert(min_exp(b, a) == mm);
}

/// Swapping the arguments swaps `Less` and `Greater`.
pub proof fn lemma_num_cmp_flip(a: NumView, b: NumView)
    ensures
        num_cmp(b, a) == (match num_cmp(a, b) {
            Relation::Less => Relation::Greater,
            Relation::Equal => Relation::Equal,
            Relation::Greater => Relation::Less,
        }),
{
    assert(min_exp(b, a) == min_exp(a, b));
}

/// The numeric order is transitive.
pub proof fn lemma_num_le_trans(a: NumView, b: NumView, c: NumView)
    requires
        num_le(a, b),
        num_le(b, c),
    ensures
        num_le(a, c),
{
    let m1 = min_exp(a, b);
    let m2 = min_exp(b, c);
    let m3 = min_exp(a, c);
    let m = if m1 <= m2 { if m1 <= m3 { m1 } else { m3 } } else if m2 <= m3 { m2 } else { m3 };
    lemma_num_cmp_at(a, b, m);
    lemma_num_cmp_at(b, c, m);
    lemma_num_cmp_at(a, c, m);
}

/// The first index at which two different digit sequences part ways, the
/// shorter no longer than the longer.
proof fn lemma_first_diff(x: Seq<u8>, y: Seq<u8>) -> (k: int)
    requires
        !(x =~= y),
        x.len() <= y.len(),
    ensures
        0 <= k <= x.len(),
        forall|j: int| 0 <= j < k ==> x[j] == y[j],
        k < x.len() ==> x[k] != y[k],
        k == x.len() ==> x.len() < y.len(),
    decreases x.len(),
{
    if x.len() == 0 {
        0
    } else if x[0] != y[0] {
        0
    } else {
        assert(!(x.drop_first() =~= y.drop_first())) by {
            if x.drop_first() =~= y.drop_first() {
                assert(x.len() == y.len());
                assert forall|j: int| 0 <= j < x.len() implies x[j] == y[j] by {
                    if j > 0 {
                        assert(x[j] == x.drop_first()[j - 1]);
                        assert(y[j] == y.drop_first()[j - 1]);
                    }
                }
                assert(x =~= y);
            }
        }
        let k0 = lemma_first_diff(x.drop_first(), y.drop_first());
        assert forall|j: int| 0 <= j < k0 + 1 implies x[j] == y[j] by {
            if j > 0 {
                assert(x.drop_first()[j - 1] == y.drop_first()[j - 1]);
            }
        }
        k0 + 1
    }
}

/// Canonical forms are unique: two well-formed keys that compare `Equal`
/// are the same key.
pub proof fn lemma_num_eq_canonical(a: NumView, b: NumView)
    requires
        num_view_wf(a),
        num_view_wf(b),
        num_cmp(a, b) == Relation::Equal,
    ensures
        a == b,
{
    let m = min_exp(a, b);
    lemma_sval_parts(a, m);
    lemma_sval_parts(b, m);
    if a.digits.len() > 0 {
        lemma_mant_lower(a.digits);
        lemma_pow10_pos(a.digits.len() - 1);
        lemma_pow10_pos(a.exp - m);
        lemma_mul_strictly_positive(mant(a.digits), pow10(a.exp - m));
    }
    if b.digits.len() > 0 {
        lemma_mant_lower(b.digits);
        lemma_pow10_pos(b.digits.len() - 1);
        lemma_pow10_pos(b.exp - m);
        lemma_mul_strictly_positive(mant(b.digits), pow10(b.exp - m));
    }
    if a.digits.len() == 0 && b.digits.len() == 0 {
        assert(a.digits =~= b.digits);
    } else if a.digits.len() == 0 || b.digits.len() == 0 {
        assert(false);
    } else {
        assert(a.neg == b.neg);
        assert(mant(a.digits) * pow10(a.exp - m) == mant(b.digits) * pow10(b.exp - m));
        if a.digits.len() + a.exp < b.digits.len() + b.exp {
            lemma_mag_ord(a, b, m);
            assert(false);
        }
        if b.digits.len() + b.exp < a.digits.len() + a.exp {
            lemma_mag_ord(b, a, m);
            assert(false);
        }
        if !(a.digits =~= b.digits) {
            if a.digits.len() <= b.digits.len() {
                let k = lemma_first_diff(a.digits, b.digits);
                if k == a.digits.len() {
                    lemma_mag_lex_prefix(a, b, m);
                } else if a.digits[k] < b.digits[k] {
                    lemma_mag_lex_diff(a, b, m, k);
                } else {
                    lemma_mag_lex_diff(b, a, m, k);
                }
            } else {
                assert(!(b.digits =~= a.digits));
                let k = lemma_first_diff(b.digits, a.digits);
                if k == b.digits.len() {
                    lemma_mag_lex_prefix(b, a, m);
                } else if a.digits[k] < b.digits[k] {
                    lemma_mag_lex_diff(a, b, m, k);
                } else {
                    lemma_mag_lex_diff(b, a, m, k);
                }
            }
            assert(false);
        }
        assert(a.digits == b.digits);
        assert(a.exp == b.exp);
    }
}

/// A shorter order of magnitude means a smaller positive value.
proof fn lemma_mag_ord(a: NumView, b: NumView, m: int)
    requires
        digits_wf(a.digits),
        digits_wf(b.digits),
        a.digits.len() > 0,
        b.digits.len() > 0,
        a.digits[0] != 0,
        b.digits[0] != 0,
        m <= a.exp,
        m <= b.exp,
        a.digits.len() + a.exp < b.digits.len() + b.exp,
    ensures
        mant(a.digits) * pow10(a.exp - m) < mant(b.digits) * pow10(b.exp - m),
{
    let la = a.digits.len() as int;
    let lb = b.digits.len() as int;
    let ea = a.exp;
    let eb = b.exp;
    lemma_mant_upper(a.digits);
    lemma_mant_lower(b.digits);
    lemma_pow10_pos(ea - m);
    lemma_pow10_pos(eb - m);
    // mant(a) * 10^(ea-m) < 10^la * 10^(ea-m) == 10^(la+ea-m)
    lemma_mul_strict_inequality(mant(a.digits), pow10(la), pow10(ea - m));
    lemma_pow10_adds(la, ea - m);
    // 10^(la+ea-m) <= 10^(lb-1+eb-m)
    lemma_pow10_increases(la + ea - m, lb - 1 + eb - m);
    // 10^(lb-1+eb-m) == 10^(lb-1) * 10^(eb-m) <= mant(b) * 10^(eb-m)
    lemma_pow10_adds(lb - 1, eb - m);
    lemma_mul_inequality(pow10(lb - 1), mant(b.digits), pow10(eb - m));
}

/// Equal order of magnitude: the first differing digit decides.
proof fn lemma_mag_lex_diff(a: NumView, b: NumView, m: int, k: int)
    requires
        digits_wf(a.digits),
        digits_wf(b.digits),
        m <= a.exp,
        m <= b.exp,
        a.digits.len() + a.exp == b.digits.len() + b.exp,
        0 <= k < a.digits.len(),
        k < b.digits.len(),
        forall|i: int| 0 <= i < k ==> a.digits[i] == b.digits[i],
        a.digits[k] < b.digits[k],
    ensures
        mant(a.digits) * pow10(a.exp - m) < mant(b.digits) * pow10(b.exp - m),
{
    let la = a.digits.len() as int;
    let lb = b.digits.len() as int;
    let ea = a.exp;
    let eb = b.exp;
    let p = pow10(ea - m);
    let q = pow10(eb - m);
    let pre = a.digits.take(k);
    let ask = a.digits.skip(k);
    let bsk = b.digits.skip(k);
    assert(b.digits.take(k) =~= pre);
    assert(a.digits =~= pre + ask);
    assert(b.digits =~= pre + bsk);
    lemma_mant_append(pre, ask);
    lemma_mant_append(pre, bsk);
    lemma_pow10_pos(ea - m);
    lemma_pow10_pos(eb - m);
    // mant(a) * p == mant(pre) * r + mant(ask) * p  where r = 10^(la-k+ea-m)
    lemma_mul_is_distributive_add_other_way(p, mant(pre) * pow10(la - k), mant(ask));
    lemma_mul_is_associative(mant(pre), pow10(la - k), p);
    lemma_pow10_adds(la - k, ea - m);
    lemma_mul_is_distributive_add_other_way(q, mant(pre) * pow10(lb - k), mant(bsk));
    lemma_mul_is_associative(mant(pre), pow10(lb - k), q);
    lemma_pow10_adds(lb - k, eb - m);
    let r = pow10(la - k + ea - m);
    assert(la - k + ea - m == lb - k + eb - m);
    assert(mant(a.digits) * p == mant(pre) * r + mant(ask) * p);
    assert(mant(b.digits) * q == mant(pre) * r + mant(bsk) * q);
    // mant(ask) < (a[k] + 1) * 10^(la-k-1)
    assert(ask[0] == a.digits[k]);
    assert(bsk[0] == b.digits[k]);
    lemma_mant_head(ask);
    lemma_mant_head(bsk);
    assert(digits_wf(ask.drop_first()));
    lemma_mant_upper(ask.drop_first());
    let pla = pow10(la - k - 1);
    let plb = pow10(lb - k - 1);
    lemma_mul_is_distributive_add_other_way(pla, a.digits[k] as int, 1);
    assert(mant(ask) < (a.digits[k] + 1) * pla);
    // mant(ask) * p < ((a[k]+1) * pla) * p <= (b[k] * pla) * p
    lemma_mul_strict_inequality(mant(ask), (a.digits[k] + 1) * pla, p);
    lemma_mul_inequality((a.digits[k] + 1) as int, b.digits[k] as int, pla);
    lemma_mul_inequality((a.digits[k] + 1) * pla, (b.digits[k] as int) * pla, p);
    // (b[k] * pla) * p == b[k] * (pla * p) == b[k] * (plb * q) == (b[k] * plb) * q
    lemma_mul_is_associative(b.digits[k] as int, pla, p);
    lemma_pow10_adds(la - k - 1, ea - m);
    lemma_pow10_adds(lb - k - 1, eb - m);
    assert(la - k - 1 + ea - m == lb - k - 1 + eb - m);
    assert(pla * p == plb * q);
    lemma_mul_is_associative(b.digits[k] as int, plb, q);
    // (b[k] * plb) * q <= mant(bsk) * q
    lemma_mant_upper(bsk.drop_first());
    assert(mant(bsk) >= (b.digits[k] as int) * plb);
    lemma_mul_inequality((b.digits[k] as int) * plb, mant(bsk), q);
    assert(mant(ask) * p < mant(bsk) * q);
}

/// Equal order of magnitude: a digit sequence that is a strict prefix of the
/// other names the smaller positive value, because the longer one ends in a
/// nonzero digit.
proof fn lemma_mag_lex_prefix(a: NumView, b: NumView, m: int)
    requires
        digits_wf(a.digits),
        digits_wf(b.digits),
        m <= a.exp,
        m <= b.exp,
        a.digits.len() + a.exp == b.digits.len() + b.exp,
        a.digits.len() < b.digits.len(),
        forall|i: int| 0 <= i < a.digits.len() ==> a.digits[i] == b.digits[i],
        b.digits[b.digits.len() - 1] != 0,
    ensures
        mant(a.digits) * pow10(a.exp - m) < mant(b.digits) * pow10(b.exp - m),
{
    let la = a.digits.len() as int;
    let lb = b.digits.len() as int;
    let ea = a.exp;
    let eb = b.exp;
    let p = pow10(ea - m);
    let q = pow10(eb - m);
    let bsk = b.digits.skip(la);
    assert(b.digits.take(la) =~= a.digits);
    assert(b.digits =~= a.digits + bsk);
    lemma_mant_append(a.digits, bsk);
    // mant(b) * q == (mant(a) * 10^(lb-la)) * q + mant(bsk) * q
    lemma_mul_is_distributive_add_other_way(q, mant(a.digits) * pow10(lb - la), mant(bsk));
    lemma_mul_is_associative(mant(a.digits), pow10(lb - la), q);
    lemma_pow10_adds(lb - la, eb - m);
    assert(lb - la + eb - m == ea - m);
    assert(mant(b.digits) * q == mant(a.digits) * p + mant(bsk) * q);
    // mant(bsk) >= 1 since its last digit is b's last digit, which is nonzero
    assert(bsk.last() == b.digits[lb - 1]);
    lemma_mant_upper(bsk.drop_last());
    assert(mant(bsk) >= 1);
    lemma_pow10_pos(eb - m);
    lemma_mul_inequality(1, mant(bsk), q);
}

/// Compares the magnitudes of two nonzero canonical keys.
fn cmp_mag(a: &NumValue, b: &NumValue) -> (r: Relation)
    requires
        a.wf(),
        b.wf(),
        a.digits.len() > 0,
        b.digits.len() > 0,
    ensures
        ({
            let m = min_exp(a@, b@);
            let ua = mant(a@.digits) * pow10(a@.exp - m);
            let ub = mant(b@.digits) * pow10(b@.exp - m);
            &&& (r == Relation::Less <==> ua < ub)
            &&& (r == Relation::Equal <==> ua == ub)
            &&& (r == Relation::Greater <==> ua > ub)
        }),
{
    let ghost m = min_exp(a@, b@);
    let oa: i128 = a.digits.len() as i128 + a.exp;
    let ob: i128 = b.digits.len() as i128 + b.exp;
    if oa < ob {
        proof {
            lemma_mag_ord(a@, b@, m);
            lemma_mant_upper(a@.digits);
            lemma_pow10_pos(a@.exp - m);
        }
        return Relation::Less;
    }
    if ob < oa {
        proof {
            lemma_mag_ord(b@, a@, m);
        }
        return Relation::Greater;
    }
    let la = a.digits.len();
    let lb = b.digits.len();
    let n = if la < lb { la } else { lb };
    let mut k: usize = 0;
    while k < n
        invariant
            k <= n,
            n == if la < lb { la } else { lb },
            la == a.digits.len(),
            lb == b.digits.len(),
            a.wf(),
            b.wf(),
            la > 0,
            lb > 0,
            a@.exp + la == b@.exp + lb,
            m == min_exp(a@, b@),
            forall|i: int| 0 <= i < k ==> a.digits[i] == b.digits[i],
        decreases n - k,
    {
        let da = a.digits[k];
        let db = b.digits[k];
        if da < db {
            proof {
                lemma_mag_lex_diff(a@, b@, m, k as int);
            }
            return Relation::Less;
        }
        if db < da {
            proof {
                lemma_mag_lex_diff(b@, a@, m, k as int);
            }
            return Relation::Greater;
        }
        k = k + 1;
    }
    if la == lb {
        proof {
            assert(a@.digits =~= b@.digits);
        }
        Relation::Equal
    } else if la < lb {
        proof {
            lemma_mag_lex_prefix(a@, b@, m);
        }
        Relation::Less
    } else {
        proof {
            lemma_mag_lex_prefix(b@, a@, m);
        }
        Relation::Greater
    }
}

/// Compares two canonical numeric keys by their values.
pub fn cmp_num(a: &NumValue, b: &NumValue) -> (r: Relation)
    requires
        a.wf(),
        b.wf(),
    ensures
        r == num_cmp(a@, b@),
{
    let ghost m = min_exp(a@, b@);
    proof {
        lemma_sval_parts(a@, m);
        lemma_sval_parts(b@, m);
    }
    let az = a.digits.len() == 0;
    let bz = b.digits.len() == 0;
    if az && bz {
        return Relation::Equal;
    }
    if az {
        proof {
            lemma_mant_lower(b@.digits);
            lemma_pow10_pos(b@.digits.len() - 1);
            lemma_pow10_pos(b@.exp - m);
            lemma_mul_strictly_positive(mant(b@.digits), pow10(b@.exp - m));
        }
        if b.neg {
            return Relation::Greater;
        } else {
            return Relation::Less;
        }
    }
    if bz {
        proof {
            lemma_mant_lower(a@.digits);
            lemma_pow10_pos(a@.digits.len() - 1);
            lemma_pow10_pos(a@.exp - m);
            lemma_mul_strictly_positive(mant(a@.digits), pow10(a@.exp - m));
        }
        if a.neg {
            return Relation::Less;
        } else {
            return Relation::Greater;
        }
    }
    proof {
        lemma_mant_lower(a@.digits);
        lemma_mant_lower(b@.digits);
        lemma_pow10_pos(a@.digits.len() - 1);
        lemma_pow10_pos(b@.digits.len() - 1);
        lemma_pow10_pos(a@.exp - m);
        lemma_pow10_pos(b@.exp - m);
        lemma_mul_strictly_positive(mant(a@.digits), pow10(a@.exp - m));
        lemma_mul_strictly_positive(mant(b@.digits), pow10(b@.exp - m));
    }
    if a.neg != b.neg {
        if a.neg {
            return Relation::Less;
        } else {
            return Relation::Greater;
        }
    }
    let mag = cmp_mag(a, b);
    if a.neg {
        match mag {
            Relation::Less => Relation::Greater,
            Relation::Equal => Relation::Equal,
            Relation::Greater => Relation::Less,
        }
    } else {
        mag
    }
}

} // verus!
