//! Parsing a line into an exact decimal key, and rendering a key back as
//! text.
//!
//! The accepted grammar is an optional sign, then decimal digits with at most
//! one point among them and at least one digit in total. Any other line
//! parses to the defined fallback value zero; a parse failure is never an
//! error. A magnitude suffix (`k`/`m`/`b`/`t`, case-insensitive) on the last
//! character scales the parsed value by 10^3, 10^6, 10^9 or 10^12.

use vstd::prelude::*;
use vstd::string::StringExecFns;
use crate::chars::digit_val;
use crate::chars::is_digit;
use crate::chars::is_digit_char;
use crate::numkey::NumValue;
use crate::numkey::NumView;
use crate::numkey::digits_wf;
use crate::numkey::num_view_wf;
use crate::numkey::EXP_LIMIT;

verus! {

/// Index of the first decimal point, or the length if there is none.
pub open spec fn point_pos(t: Seq<char>) -> nat
    decreases t.len(),
{
    if t.len() == 0 {
        0
    } else if t[0] == '.' {
        0
    } else {
        (1 + point_pos(t.drop_first())) as nat
    }
}

pub proof fn lemma_point_pos(t: Seq<char>)
    ensures
        point_pos(t) <= t.len(),
        point_pos(t) < t.len() ==> t[point_pos(t) as int] == '.',
        forall|m: int| 0 <= m < point_pos(t) ==> t[m] != '.',
    decreases t.len(),
{
    if t.len() > 0 && t[0] != '.' {
        let d = t.drop_first();
        lemma_point_pos(d);
        assert(point_pos(t) == 1 + point_pos(d));
        assert forall|m: int| 0 <= m < point_pos(t) implies t[m] != '.' by {
            if m > 0 {
                assert(t[m] == d[m - 1]);
            }
        }
        if point_pos(t) < t.len() {
            assert(t[point_pos(t) as int] == d[point_pos(d) as int]);
        }
    }
}

/// 1 if the line opens with an explicit sign.
pub open spec fn sign_len(s: Seq<char>) -> int {
    if s.len() > 0 && (s[0] == '+' || s[0] == '-') {
        1
    } else {
        0
    }
}

pub open spec fn neg_sign(s: Seq<char>) -> bool {
    s.len() > 0 && s[0] == '-'
}

/// The line with its sign removed.
pub open spec fn unsigned_of(s: Seq<char>) -> Seq<char> {
    s.skip(sign_len(s))
}

/// Whether the line is a number of the accepted grammar.
pub open spec fn wf_number(s: Seq<char>) -> bool {
    let t = unsigned_of(s);
    let p = point_pos(t) as int;
    &&& t.len() >= 1
    &&& (p < t.len() ==> t.len() >= 2)
    &&& forall|i: int| 0 <= i < t.len() && i != p ==> is_digit(t[i])
}

/// The digits of a well-formed number with the point taken out, in order.
pub open spec fn raw_digits(s: Seq<char>) -> Seq<u8> {
    let t = unsigned_of(s);
    let p = point_pos(t) as int;
    let cnt = if p < t.len() {
        (t.len() - 1) as int
    } else {
        t.len() as int
    };
    Seq::new(cnt as nat, |d: int| if d < p { digit_val(t[d]) } else { digit_val(t[d + 1]) })
}

/// How many digits stand after the decimal point.
pub open spec fn frac_len(s: Seq<char>) -> int {
    let t = unsigned_of(s);
    let p = point_pos(t) as int;
    if p < t.len() {
        t.len() - p - 1
    } else {
        0
    }
}

pub open spec fn all_zero(ds: Seq<u8>) -> bool {
    forall|i: int| 0 <= i < ds.len() ==> ds[i] == 0
}

/// Number of leading zero digits.
pub open spec fn lead_zeros(ds: Seq<u8>) -> nat
    decreases ds.len(),
{
    if ds.len() == 0 || ds[0] != 0 {
        0
    } else {
        (1 + lead_zeros(ds.drop_first())) as nat
    }
}

/// Number of trailing zero digits.
pub open spec fn tail_zeros(ds: Seq<u8>) -> nat
    decreases ds.len(),
{
    if ds.len() == 0 || ds.last() != 0 {
        0
    } else {
        (1 + tail_zeros(ds.drop_last())) as nat
    }
}

pub proof fn lemma_lead_zeros(ds: Seq<u8>)
    ensures
        lead_zeros(ds) <= ds.len(),
        lead_zeros(ds) < ds.len() ==> ds[lead_zeros(ds) as int] != 0,
        forall|i: int| 0 <= i < lead_zeros(ds) ==> ds[i] == 0,
    decreases ds.len(),
{
    if ds.len() > 0 && ds[0] == 0 {
        let d = ds.drop_first();
        lemma_lead_zeros(d);
        assert(lead_zeros(ds) == 1 + lead_zeros(d));
        assert forall|i: int| 0 <= i < lead_zeros(ds) implies ds[i] == 0 by {
            if i > 0 {
                assert(ds[i] == d[i - 1]);
            }
        }
        if lead_zeros(ds) < ds.len() {
            assert(ds[lead_zeros(ds) as int] == d[lead_zeros(d) as int]);
        }
    }
}

pub proof fn lemma_tail_zeros(ds: Seq<u8>)
    ensures
        tail_zeros(ds) <= ds.len(),
        tail_zeros(ds) < ds.len() ==> ds[ds.len() - tail_zeros(ds) - 1] != 0,
        forall|i: int| ds.len() - tail_zeros(ds) <= i < ds.len() ==> ds[i] == 0,
    decreases ds.len(),
{
    if ds.len() > 0 && ds.last() == 0 {
        let d = ds.drop_last();
        lemma_tail_zeros(d);
        assert(tail_zeros(ds) == 1 + tail_zeros(d));
        assert forall|i: int| ds.len() - tail_zeros(ds) <= i < ds.len() implies ds[i] == 0 by {
            if i < ds.len() - 1 {
                assert(ds[i] == d[i]);
            }
        }
        if tail_zeros(ds) < ds.len() {
            assert(ds[ds.len() - tail_zeros(ds) - 1] == d[d.len() - tail_zeros(d) - 1]);
        }
    }
}

pub open spec fn zero_view() -> NumView {
    NumView { neg: false, digits: Seq::empty(), exp: 0 }
}

/// The canonical key for sign `neg`, digit sequence `ds` and exponent `e`:
/// leading zeros dropped, trailing zeros folded into the exponent, and zero
/// itself written in its single canonical form.
pub open spec fn canon_view(neg: bool, ds: Seq<u8>, e: int) -> NumView {
    if all_zero(ds) {
        zero_view()
    } else {
        NumView {
            neg,
            digits: ds.subrange(lead_zeros(ds) as int, ds.len() - tail_zeros(ds)),
            exp: e + tail_zeros(ds),
        }
    }
}

/// What a line parses to: the canonical key of its digits, or zero when the
/// line is not a number of the grammar.
pub open spec fn parse_plain_spec(s: Seq<char>) -> NumView {
    if wf_number(s) {
        canon_view(neg_sign(s), raw_digits(s), -frac_len(s))
    } else {
        zero_view()
    }
}

/// The decimal exponent a magnitude suffix adds, 0 for no suffix.
pub open spec fn suffix_exp(c: char) -> int {
    if c == 'k' || c == 'K' {
        3
    } else if c == 'm' || c == 'M' {
        6
    } else if c == 'b' || c == 'B' {
        9
    } else if c == 't' || c == 'T' {
        12
    } else {
        0
    }
}

pub open spec fn has_suffix(s: Seq<char>) -> bool {
    s.len() > 0 && suffix_exp(s.last()) != 0
}

/// Scaling by a power of ten leaves zero alone and otherwise moves the
/// exponent.
pub open spec fn scale_view(v: NumView, e: int) -> NumView {
    if v.digits.len() == 0 {
        v
    } else {
        NumView { neg: v.neg, digits: v.digits, exp: v.exp + e }
    }
}

/// What a line parses to under suffix-aware numeric parsing.
pub open spec fn parse_suffix_spec(s: Seq<char>) -> NumView {
    if has_suffix(s) {
        scale_view(parse_plain_spec(s.drop_last()), suffix_exp(s.last()))
    } else {
        parse_plain_spec(s)
    }
}

/// The canonical zero key.
pub fn zero_value() -> (r: NumValue)
    ensures
        r@ == zero_view(),
        r.wf(),
        r@.exp == 0,
{
    let r = NumValue { neg: false, digits: Vec::new(), exp: 0 };
    proof {
        assert(r@.digits =~= Seq::<u8>::empty());
    }
    r
}

/// Parses a line as a plain decimal number; a line outside the grammar
/// parses to zero.
pub fn parse_plain(s: &str) -> (r: NumValue)
    ensures
        r@ == parse_plain_spec(s@),
        r.wf(),
        -2 * s@.len() <= r@.exp <= 2 * s@.len(),
{
    let n = s.unicode_len();
    let mut i0: usize = 0;
    let mut neg = false;
    if n > 0 {
        let c0 = s.get_char(0);
        if c0 == '+' {
            i0 = 1;
        } else if c0 == '-' {
            neg = true;
            i0 = 1;
        }
    }
    let ghost t = unsigned_of(s@);
    proof {
        assert(i0 as int == sign_len(s@));
        assert(neg == neg_sign(s@));
        assert(t.len() == n - i0);
        assert(forall|m: int| 0 <= m < t.len() ==> t[m] == s@[i0 + m]);
    }
    // Validation scan: find the point, require digits everywhere else.
    let mut pp: usize = n;
    let mut j: usize = i0;
    while j < n
        invariant
            i0 <= j <= n,
            n == s@.len(),
            i0 as int == sign_len(s@),
            t == unsigned_of(s@),
            t.len() == n - i0,
            forall|m: int| 0 <= m < t.len() ==> t[m] == s@[i0 + m],
            pp == n || (i0 <= pp && pp < j),
            pp < n ==> t[pp - i0] == '.',
            forall|m: int|
                0 <= m < j - i0 && (pp == n || m != pp - i0) ==> (t[m] != '.' && is_digit(t[m])),
        decreases n - j,
    {
        let c = s.get_char(j);
        if c == '.' {
            if pp < n {
                proof {
                    if wf_number(s@) {
                        let p = point_pos(t) as int;
                        if p != pp - i0 {
                            assert(is_digit(t[pp - i0]));
                        } else {
                            assert(is_digit(t[j - i0]));
                        }
                        assert(false);
                    }
                }
                return zero_value();
            }
            pp = j;
        } else if is_digit_char(c) {
        } else {
            proof {
                if wf_number(s@) {
                    let p = point_pos(t) as int;
                    lemma_point_pos(t);
                    if p == j - i0 {
                        assert(t[p] == '.');
                    } else {
                        assert(is_digit(t[j - i0]));
                    }
                    assert(false);
                }
            }
            return zero_value();
        }
        j = j + 1;
    }
    let has_p = pp < n;
    let tl = n - i0;
    let cnt = if has_p { tl - 1 } else { tl };
    proof {
        lemma_point_pos(t);
        let p = point_pos(t) as int;
        if has_p {
            if p < pp - i0 {
                assert(t[p] == '.');
                assert(false);
            }
            if p > pp - i0 {
                assert(t[pp - i0] != '.');
                assert(false);
            }
            assert(p == pp - i0);
        } else {
            if p < t.len() {
                assert(t[p] == '.');
                assert(false);
            }
            assert(p == t.len());
        }
    }
    if cnt == 0 {
        proof {
            if wf_number(s@) {
                assert(t.len() >= 1);
                assert(has_p);
                assert(t.len() >= 2);
                assert(false);
            }
        }
        return zero_value();
    }
    proof {
        assert(wf_number(s@));
    }
    let ghost rd = raw_digits(s@);
    let ghost p = point_pos(t) as int;
    proof {
        assert(rd.len() == cnt);
    }
    // Collect the digits, skipping the point.
    let mut dv: Vec<u8> = Vec::new();
    let mut j2: usize = i0;
    while j2 < n
        invariant
            i0 <= j2 <= n,
            n == s@.len(),
            t == unsigned_of(s@),
            t.len() == n - i0,
            forall|m: int| 0 <= m < t.len() ==> t[m] == s@[i0 + m],
            p == point_pos(t) as int,
            has_p ==> (i0 <= pp < n && p == pp - i0 && t[p] == '.'),
            !has_p ==> p == t.len(),
            forall|m: int| 0 <= m < t.len() && m != p ==> is_digit(t[m]),
            rd == raw_digits(s@),
            rd.len() == cnt,
            cnt == if has_p { n - i0 - 1 } else { n - i0 },
            dv@.len() == if has_p && j2 > pp {
                j2 - i0 - 1
            } else {
                j2 - i0
            },
            forall|d: int| 0 <= d < dv@.len() ==> dv@[d] == rd[d],
        decreases n - j2,
    {
        let c = s.get_char(j2);
        if c == '.' {
            proof {
                assert(t[j2 - i0] == '.');
                assert(j2 - i0 == p);
            }
        } else {
            proof {
                assert(t[j2 - i0] != '.');
                assert(j2 - i0 != p);
                assert(is_digit(t[j2 - i0]));
                assert(c == t[j2 - i0]);
            }
            let d = (c as u8) - 48;
            let ghost old_dv = dv@;
            dv.push(d);
            proof {
                let m = j2 - i0;
                let di = old_dv.len() as int;
                if has_p && j2 > pp {
                    assert(di == m - 1);
                    assert(rd[di] == digit_val(t[di + 1]));
                } else {
                    assert(di == m);
                    assert(rd[di] == digit_val(t[di]));
                }
                assert(d == digit_val(t[m]));
            }
        }
        j2 = j2 + 1;
    }
    proof {
        assert(dv@ =~= rd);
    }
    // Strip leading and trailing zeros into canonical form.
    let dlen = dv.len();
    let mut fnz: usize = 0;
    while fnz < dlen && dv[fnz] == 0
        invariant
            fnz <= dlen,
            dlen == dv.len(),
            dv@ == rd,
            forall|m: int| 0 <= m < fnz ==> rd[m] == 0,
        decreases dlen - fnz,
    {
        fnz = fnz + 1;
    }
    if fnz == dlen {
        proof {
            assert(all_zero(rd));
        }
        return zero_value();
    }
    let mut lnz: usize = dlen;
    while lnz > fnz && dv[lnz - 1] == 0
        invariant
            fnz <= lnz <= dlen,
            dlen == dv.len(),
            dv@ == rd,
            rd[fnz as int] != 0,
            forall|m: int| lnz <= m < dlen ==> rd[m] == 0,
        decreases lnz,
    {
        lnz = lnz - 1;
    }
    proof {
        assert(rd[lnz - 1] != 0);
        lemma_lead_zeros(rd);
        lemma_tail_zeros(rd);
        let lz = lead_zeros(rd) as int;
        if lz < fnz {
            assert(rd[lz] != 0);
            assert(false);
        }
        if lz > fnz {
            assert(rd[fnz as int] == 0);
            assert(false);
        }
        let tz = tail_zeros(rd) as int;
        if dlen - tz > lnz {
            assert(rd[dlen - tz - 1] != 0);
            assert(rd[dlen - tz - 1] == 0);
            assert(false);
        }
        if dlen - tz < lnz {
            assert(rd[lnz - 1] == 0);
            assert(false);
        }
        assert(tz == dlen - lnz);
    }
    let mut outd: Vec<u8> = Vec::new();
    let mut m2: usize = fnz;
    while m2 < lnz
        invariant
            fnz <= m2 <= lnz <= dlen,
            dlen == dv.len(),
            dv@ == rd,
            outd@ =~= rd.subrange(fnz as int, m2 as int),
        decreases lnz - m2,
    {
        let ghost old_outd = outd@;
        let d = dv[m2];
        outd.push(d);
        m2 = m2 + 1;
        proof {
            assert(outd@ =~= old_outd.push(rd[m2 - 1]));
            assert(outd@ =~= rd.subrange(fnz as int, m2 as int));
        }
    }
    let frac: usize = if has_p { n - 1 - pp } else { 0 };
    let texp: i128 = (dlen as i128) - (lnz as i128) - (frac as i128);
    let r = NumValue { neg, digits: outd, exp: texp };
    proof {
        assert(frac as int == frac_len(s@));
        let v = canon_view(neg_sign(s@), rd, -frac_len(s@));
        assert(!all_zero(rd));
        assert(r@.digits =~= v.digits);
        assert(r@.exp == v.exp);
        assert(r@ == parse_plain_spec(s@));
        assert(digits_wf(rd)) by {
            assert(forall|d: int| 0 <= d < rd.len() ==> rd[d] <= 9) by {
                assert forall|d: int| 0 <= d < rd.len() implies rd[d] <= 9 by {
                    if d < p {
                        assert(is_digit(t[d]));
                    } else {
                        assert(is_digit(t[d + 1]));
                    }
                }
            }
        }
        assert(digits_wf(r@.digits));
        assert(r@.digits[0] == rd[fnz as int]);
        assert(r@.digits[r@.digits.len() - 1] == rd[lnz - 1]);
        assert(num_view_wf(r@));
    }
    r
}

/// The decimal exponent of a magnitude suffix character.
fn suffix_val(c: char) -> (e: i128)
    ensures
        e as int == suffix_exp(c),
        0 <= e <= 12,
{
    if c == 'k' || c == 'K' {
        3
    } else if c == 'm' || c == 'M' {
        6
    } else if c == 'b' || c == 'B' {
        9
    } else if c == 't' || c == 'T' {
        12
    } else {
        0
    }
}

/// Parses a line as a decimal number with an optional magnitude suffix.
pub fn parse_with_suffix(s: &str) -> (r: NumValue)
    ensures
        r@ == parse_suffix_spec(s@),
        r.wf(),
{
    let n = s.unicode_len();
    if n == 0 {
        return parse_plain(s);
    }
    let c = s.get_char(n - 1);
    let e = suffix_val(c);
    if e == 0 {
        parse_plain(s)
    } else {
        let pre = s.substring_char(0, n - 1);
        proof {
            assert(pre@ =~= s@.drop_last());
        }
        let mut v = parse_plain(pre);
        if v.digits.len() > 0 {
            proof {
                assert(-2 * (n as int) <= v@.exp <= 2 * (n as int));
                assert(n <= usize::MAX);
            }
            v.exp = v.exp + e;
        }
        proof {
            assert(v@ == scale_view(parse_plain_spec(s@.drop_last()), suffix_exp(s@.last())));
        }
        v
    }
}

/// The character for a single decimal digit.
pub open spec fn digit_char(d: int) -> char {
    if d == 0 {
        '0'
    } else if d == 1 {
        '1'
    } else if d == 2 {
        '2'
    } else if d == 3 {
        '3'
    } else if d == 4 {
        '4'
    } else if d == 5 {
        '5'
    } else if d == 6 {
        '6'
    } else if d == 7 {
        '7'
    } else if d == 8 {
        '8'
    } else {
        '9'
    }
}

/// The characters of a digit sequence.
pub open spec fn dchars(ds: Seq<u8>) -> Seq<char> {
    Seq::new(ds.len(), |i: int| digit_char(ds[i] as int))
}

/// A run of `k` zero characters.
pub open spec fn zeros(k: int) -> Seq<char> {
    Seq::new((if k >= 0 { k } else { 0 }) as nat, |i: int| '0')
}

/// The plain decimal rendering of a key: no exponent notation, a leading
/// `0` before a bare fraction, a `-` sign on negative values, `0` for zero.
pub open spec fn render_spec(v: NumView) -> Seq<char> {
    if v.digits.len() == 0 {
        seq!['0']
    } else {
        let sign = if v.neg {
            seq!['-']
        } else {
            Seq::<char>::empty()
        };
        let n = v.digits.len() as int;
        if v.exp >= 0 {
            sign + dchars(v.digits) + zeros(v.exp)
        } else if n + v.exp > 0 {
            sign + dchars(v.digits.take(n + v.exp)) + seq!['.'] + dchars(v.digits.skip(n + v.exp))
        } else {
            sign + seq!['0', '.'] + zeros(-v.exp - n) + dchars(v.digits)
        }
    }
}

/// Appends the characters of `ds[from..to]`.
fn append_digits(out: &mut String, ds: &Vec<u8>, from: usize, to: usize)
    requires
        from <= to <= ds.len(),
        digits_wf(ds@),
    ensures
        final(out)@ == old(out)@ + dchars(ds@.subrange(from as int, to as int)),
{
    let mut k = from;
    proof {
        assert(old(out)@ + dchars(ds@.subrange(from as int, from as int)) =~= old(out)@);
    }
    while k < to
        invariant
            from <= k <= to <= ds.len(),
            digits_wf(ds@),
            out@ == old(out)@ + dchars(ds@.subrange(from as int, k as int)),
        decreases to - k,
    {
        let ghost pre = out@;
        let d = ds[k];
        if d == 0 {
            out.append("0");
            proof {
                reveal_strlit("0");
            }
        } else if d == 1 {
            out.append("1");
            proof {
                reveal_strlit("1");
            }
        } else if d == 2 {
            out.append("2");
            proof {
                reveal_strlit("2");
            }
        } else if d == 3 {
            out.append("3");
            proof {
                reveal_strlit("3");
            }
        } else if d == 4 {
            out.append("4");
            proof {
                reveal_strlit("4");
            }
        } else if d == 5 {
            out.append("5");
            proof {
                reveal_strlit("5");
            }
        } else if d == 6 {
            out.append("6");
            proof {
                reveal_strlit("6");
            }
        } else if d == 7 {
            out.append("7");
            proof {
                reveal_strlit("7");
            }
        } else if d == 8 {
            out.append("8");
            proof {
                reveal_strlit("8");
            }
        } else {
            out.append("9");
            proof {
                reveal_strlit("9");
                assert(d == 9);
            }
        }
        k = k + 1;
        proof {
            assert(out@ =~= pre.push(digit_char(ds@[k - 1] as int)));
            assert(ds@.subrange(from as int, k as int) =~= ds@.subrange(
                from as int,
                k - 1,
            ).push(ds@[k - 1]));
            assert(dchars(ds@.subrange(from as int, k as int)) =~= dchars(
                ds@.subrange(from as int, k - 1),
            ).push(digit_char(ds@[k - 1] as int)));
            assert(out@ =~= old(out)@ + dchars(ds@.subrange(from as int, k as int)));
        }
    }
}

/// Appends `e` zero characters.
fn append_zeros(out: &mut String, e: i128)
    requires
        e >= 0,
    ensures
        final(out)@ == old(out)@ + zeros(e as int),
{
    let mut i: i128 = 0;
    proof {
        assert(old(out)@ + zeros(0) =~= old(out)@);
    }
    while i < e
        invariant
            0 <= i <= e,
            out@ == old(out)@ + zeros(i as int),
        decreases e - i,
    {
        let ghost pre = out@;
        out.append("0");
        i = i + 1;
        proof {
            reveal_strlit("0");
            assert(out@ =~= pre.push('0'));
            assert(zeros(i as int) =~= zeros(i - 1).push('0'));
            assert(out@ =~= old(out)@ + zeros(i as int));
        }
    }
}

/// Renders a key as plain decimal text.
pub fn render_num(v: &NumValue) -> (r: String)
    requires
        v.wf(),
    ensures
        r@ == render_spec(v@),
{
    let mut out = String::new();
    if v.digits.len() == 0 {
        out.append("0");
        proof {
            reveal_strlit("0");
            assert(out@ =~= seq!['0']);
        }
        return out;
    }
    if v.neg {
        out.append("-");
        proof {
            reveal_strlit("-");
            assert(out@ =~= seq!['-']);
        }
    }
    let ghost sign = if v.neg {
        seq!['-']
    } else {
        Seq::<char>::empty()
    };
    proof {
        assert(out@ =~= sign);
    }
    let n = v.digits.len();
    if v.exp >= 0 {
        append_digits(&mut out, &v.digits, 0, n);
        append_zeros(&mut out, v.exp);
        proof {
            assert(v@.digits.subrange(0, n as int) =~= v@.digits);
            assert(out@ =~= render_spec(v@));
        }
    } else if v.exp > -(n as i128) {
        let ip = ((n as i128) + v.exp) as usize;
        proof {
            assert(0 < (n as i128) + v.exp < n as i128);
            assert(ip as int == n + v@.exp);
        }
        append_digits(&mut out, &v.digits, 0, ip);
        out.append(".");
        append_digits(&mut out, &v.digits, ip, n);
        proof {
            reveal_strlit(".");
            assert(v@.digits.subrange(0, ip as int) =~= v@.digits.take(n + v@.exp));
            assert(v@.digits.subrange(ip as int, n as int) =~= v@.digits.skip(n + v@.exp));
            assert(out@ =~= render_spec(v@));
        }
    } else {
        out.append("0");
        out.append(".");
        append_zeros(&mut out, -v.exp - (n as i128));
        append_digits(&mut out, &v.digits, 0, n);
        proof {
            reveal_strlit("0");
            reveal_strlit(".");
            assert(v@.digits.subrange(0, n as int) =~= v@.digits);
            assert(out@ =~= render_spec(v@));
        }
    }
    out
}

} // verus!
