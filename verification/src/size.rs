//! Capacities as text: a decimal number and, after it, perhaps one of the
//! units `K`, `M`, `G`, `T`, each 1024 times the one before.

use vstd::prelude::*;
use vstd::string::StringExecFns;
use crate::error::UtilsError;
use crate::text::{find, has_at, lemma_find, lemma_has_char_at, to_chars};

verus! {

/// Whether `c` is a decimal digit.
pub open spec fn is_digit(c: char) -> bool {
    '0' <= c && c <= '9'
}

/// The value of the digit `c`.
pub open spec fn digit(c: char) -> nat {
    (c as int - '0' as int) as nat
}

/// Every character of `s` is a decimal digit.
pub open spec fn all_digits(s: Seq<char>) -> bool {
    forall|i: int| 0 <= i < s.len() ==> is_digit(#[trigger] s[i])
}

/// The number that the digits `s` write; 0 where there is none.
pub open spec fn number(s: Seq<char>) -> nat
    decreases s.len(),
{
    if s.len() == 0 {
        0
    } else {
        10 * number(s.drop_last()) + digit(s.last())
    }
}

/// Ten to the power `n`.
pub open spec fn pow10(n: nat) -> nat
    decreases n,
{
    if n == 0 {
        1
    } else {
        10 * pow10((n - 1) as nat)
    }
}

/// A decimal number, taken apart: its sign, the digits before the point and
/// the digits after it.
pub struct Decimal {
    pub negative: bool,
    pub whole: Seq<char>,
    pub frac: Seq<char>,
}

/// The one-character pattern that parts the whole from the fraction.
pub open spec fn point() -> Seq<char> {
    seq!['.']
}

/// `s` read as a decimal number: a sign or none, digits, and perhaps a point
/// and digits; in all at least one digit.
pub open spec fn decimal(s: Seq<char>) -> Option<Decimal> {
    let signed = s.len() > 0 && (s[0] == '-' || s[0] == '+');
    let body = if signed {
        s.skip(1)
    } else {
        s
    };
    let (whole, frac) = match find(body, point(), 0) {
        Some(p) => (body.take(p), body.skip(p + 1)),
        None => (body, Seq::empty()),
    };
    if all_digits(whole) && all_digits(frac) && whole.len() + frac.len() > 0 {
        Some(Decimal { negative: signed && s[0] == '-', whole, frac })
    } else {
        None
    }
}

/// How many bytes the unit `c` has; `None` where `c` is no unit.
pub open spec fn unit_of(c: char) -> Option<nat> {
    if c == 'K' {
        Some(1024)
    } else if c == 'M' {
        Some(1024 * 1024)
    } else if c == 'G' {
        Some(1024 * 1024 * 1024)
    } else if c == 'T' {
        Some(1024 * 1024 * 1024 * 1024)
    } else {
        None
    }
}

/// The decimal `d` in units of `unit` bytes, as whole bytes: what is beyond
/// the last whole byte is dropped, and a negative number gives no byte.
pub open spec fn scaled(d: Decimal, unit: nat) -> nat {
    if d.negative {
        0
    } else {
        number(d.whole) * unit + (number(d.frac) * unit) / pow10(d.frac.len())
    }
}

/// The capacity that `s` writes, in bytes; `None` where `s` is empty or
/// what stands before the unit is no decimal number.
pub open spec fn capacity_of(s: Seq<char>) -> Option<nat> {
    if s.len() == 0 {
        None
    } else {
        match unit_of(s.last()) {
            Some(unit) => match decimal(s.drop_last()) {
                Some(d) => Some(scaled(d, unit)),
                None => None,
            },
            None => match decimal(s) {
                Some(d) => Some(scaled(d, 1)),
                None => None,
            },
        }
    }
}

/// `n` as a `u64`: the largest one where `n` is beyond it.
pub open spec fn saturated(n: nat) -> u64 {
    if n > u64::MAX {
        u64::MAX
    } else {
        n as u64
    }
}

/// The bytes of a decimal are its exact worth without what is beyond the
/// last whole byte: with `p` as ten to the count of digits after the point
/// and `n / p` as the number, they are the largest count `b` with
/// `b <= (n / p) * unit`.
pub proof fn lemma_scaled_is_floor(d: Decimal, unit: nat)
    requires
        !d.negative,
    ensures
        ({
            let p = pow10(d.frac.len());
            let n = number(d.whole) * p + number(d.frac);
            scaled(d, unit) * p <= n * unit < (scaled(d, unit) + 1) * p
        }),
{
    let w = number(d.whole) as int;
    let f = number(d.frac) as int;
    let p = pow10(d.frac.len()) as int;
    let u = unit as int;
    let q = (f * u) / p;
    let r = (f * u) % p;
    lemma_pow10_positive(d.frac.len());
    vstd::arithmetic::div_mod::lemma_fundamental_div_mod(f * u, p);
    vstd::arithmetic::div_mod::lemma_mod_bound(f * u, p);
    assert((w * u + q) * p <= (w * p + f) * u < (w * u + q + 1) * p) by (nonlinear_arith)
        requires
            f * u == p * q + r,
            0 <= r < p,
    ;
}

/// In a unit that is 1024 times `unit`, a number gives at least 1024 times
/// as many bytes, and exactly that many where it has no digit after the
/// point.
pub proof fn lemma_scaled_by_1024(d: Decimal, unit: nat)
    ensures
        scaled(d, 1024 * unit) >= 1024 * scaled(d, unit),
        d.frac.len() == 0 ==> scaled(d, 1024 * unit) == 1024 * scaled(d, unit),
{
    if !d.negative {
        let w = number(d.whole) as int;
        let f = number(d.frac) as int;
        let p = pow10(d.frac.len()) as int;
        let u = unit as int;
        let q = (f * u) / p;
        lemma_pow10_positive(d.frac.len());
        assert(w * (1024 * u) == 1024 * (w * u)) by (nonlinear_arith);
        assert(f * (1024 * u) == 1024 * (f * u)) by (nonlinear_arith);
        vstd::arithmetic::div_mod::lemma_fundamental_div_mod(f * u, p);
        vstd::arithmetic::div_mod::lemma_mod_bound(f * u, p);
        assert((1024 * q) * p <= 1024 * (f * u)) by (nonlinear_arith)
            requires
                f * u == p * q + (f * u) % p,
                0 <= (f * u) % p,
        ;
        vstd::arithmetic::div_mod::lemma_div_is_ordered((1024 * q) * p, 1024 * (f * u), p);
        vstd::arithmetic::div_mod::lemma_div_multiples_vanish(1024 * q, p);
        assert(((1024 * q) * p) / p == 1024 * q) by {
            assert((1024 * q) * p == p * (1024 * q)) by (nonlinear_arith);
        }
        if d.frac.len() == 0 {
            assert(f == 0);
            assert(p == 1);
            assert(f * u == 0) by (nonlinear_arith)
                requires
                    f == 0,
            ;
            assert(f * (1024 * u) == 0) by (nonlinear_arith)
                requires
                    f == 0,
            ;
        }
    }
}

/// What a decimal number writes alone is its count of bytes, and with a
/// unit after it its count of such units.
pub proof fn lemma_capacity_with_unit(n: Seq<char>, c: char)
    requires
        decimal(n) is Some,
    ensures
        capacity_of(n) == Some(scaled(decimal(n).unwrap(), 1)),
        unit_of(c) matches Some(unit) ==> capacity_of(n.push(c)) == Some(
            scaled(decimal(n).unwrap(), unit),
        ),
{
    assert(n.push(c).drop_last() =~= n);
    let signed = n.len() > 0 && (n[0] == '-' || n[0] == '+');
    let body = if signed {
        n.skip(1)
    } else {
        n
    };
    lemma_find(body, point(), 0);
    assert(body.len() > 0 && n.last() == body.last());
    match find(body, point(), 0) {
        Some(p) => {
            lemma_has_char_at(body, '.', p);
            let frac = body.skip(p + 1);
            if frac.len() > 0 {
                assert(is_digit(frac[frac.len() - 1]));
                assert(frac[frac.len() - 1] == body.last());
            } else {
                assert(body.last() == '.');
            }
        },
        None => {
            assert(is_digit(body[body.len() - 1]));
        },
    }
}

/// Each unit is worth 1024 of the unit before it: for a decimal number `n`,
/// the capacity with the next unit is at least 1024 times the capacity
/// with this one, and exactly that where `n` has no digit after the point.
pub proof fn lemma_units_rise(n: Seq<char>)
    requires
        decimal(n) is Some,
    ensures
        capacity_of(n) is Some,
        capacity_of(n.push('K')) is Some,
        capacity_of(n.push('M')) is Some,
        capacity_of(n.push('G')) is Some,
        capacity_of(n.push('T')) is Some,
        capacity_of(n.push('K'))->0 >= 1024 * capacity_of(n)->0,
        capacity_of(n.push('M'))->0 >= 1024 * capacity_of(n.push('K'))->0,
        capacity_of(n.push('G'))->0 >= 1024 * capacity_of(n.push('M'))->0,
        capacity_of(n.push('T'))->0 >= 1024 * capacity_of(n.push('G'))->0,
        decimal(n)->0.frac.len() == 0 ==> {
            &&& capacity_of(n.push('K'))->0 == 1024 * capacity_of(n)->0
            &&& capacity_of(n.push('M'))->0 == 1024 * capacity_of(n.push('K'))->0
            &&& capacity_of(n.push('G'))->0 == 1024 * capacity_of(n.push('M'))->0
            &&& capacity_of(n.push('T'))->0 == 1024 * capacity_of(n.push('G'))->0
        },
{
    let d = decimal(n).unwrap();
    lemma_capacity_with_unit(n, 'K');
    lemma_capacity_with_unit(n, 'M');
    lemma_capacity_with_unit(n, 'G');
    lemma_capacity_with_unit(n, 'T');
    lemma_scaled_by_1024(d, 1);
    lemma_scaled_by_1024(d, 1024);
    lemma_scaled_by_1024(d, 1024 * 1024);
    lemma_scaled_by_1024(d, 1024 * 1024 * 1024);
}

/// The number that the digit values `ds` write.
spec fn value(ds: Seq<u8>) -> nat
    decreases ds.len(),
{
    if ds.len() == 0 {
        0
    } else {
        10 * value(ds.drop_last()) + ds.last() as nat
    }
}

/// Each of `ds` is the value of a digit.
spec fn small(ds: Seq<u8>) -> bool {
    forall|i: int| 0 <= i < ds.len() ==> #[trigger] ds[i] < 10
}

/// A power of ten is not zero.
proof fn lemma_pow10_positive(n: nat)
    ensures
        pow10(n) > 0,
    decreases n,
{
    if n > 0 {
        lemma_pow10_positive((n - 1) as nat);
    }
}

/// A digit in front counts for ten to the number of digits behind it.
proof fn lemma_value_front(x: u8, ds: Seq<u8>)
    ensures
        value(seq![x] + ds) == x * pow10(ds.len()) + value(ds),
    decreases ds.len(),
{
    let all = seq![x] + ds;
    assert(all.last() == if ds.len() == 0 {
        x
    } else {
        ds.last()
    });
    if ds.len() == 0 {
        assert(all.drop_last() =~= Seq::<u8>::empty());
        assert(value(all.drop_last()) == 0);
        assert(pow10(0) == 1);
        assert(x * pow10(0) == x as int) by (nonlinear_arith)
            requires
                pow10(0) == 1,
        ;
    } else {
        assert(all.drop_last() =~= seq![x] + ds.drop_last());
        lemma_value_front(x, ds.drop_last());
        let p = pow10((ds.len() - 1) as nat) as int;
        let v = value(ds.drop_last()) as int;
        let xi = x as int;
        let last = ds.last() as int;
        assert(pow10(ds.len()) == 10 * p);
        assert(value(all.drop_last()) == xi * p + v);
        assert(value(all) == 10 * (xi * p + v) + last);
        assert(10 * (xi * p + v) + last == xi * (10 * p) + (10 * v + last)) by (nonlinear_arith);
    }
}

/// Digits write a number below ten to their count.
proof fn lemma_value_bound(ds: Seq<u8>)
    requires
        small(ds),
    ensures
        value(ds) < pow10(ds.len()),
    decreases ds.len(),
{
    if ds.len() > 0 {
        assert(small(ds.drop_last())) by {
            assert forall|i: int| 0 <= i < ds.drop_last().len() implies #[trigger] ds.drop_last()[i]
                < 10 by {
                assert(ds.drop_last()[i] == ds[i]);
            }
        }
        lemma_value_bound(ds.drop_last());
    }
}

/// Digits and their values write the same number.
proof fn lemma_number_is_value(s: Seq<char>, ds: Seq<u8>)
    requires
        s.len() == ds.len(),
        forall|i: int| 0 <= i < s.len() ==> digit(s[i]) == #[trigger] ds[i],
    ensures
        number(s) == value(ds),
    decreases s.len(),
{
    if s.len() > 0 {
        lemma_number_is_value(s.drop_last(), ds.drop_last());
    }
}

/// Multiplies the fraction that the digits write by 1024: the digits become
/// those of the product's fraction, and its whole part is returned.
fn times_1024(frac: &mut Vec<u8>) -> (carry: u64)
    requires
        small(old(frac)@),
    ensures
        final(frac)@.len() == old(frac)@.len(),
        small(final(frac)@),
        value(old(frac)@) * 1024 == carry * pow10(old(frac)@.len()) + value(final(frac)@),
        carry < 1024,
{
    let len: usize = frac.len();
    let ghost before = frac@;
    let mut carry: u64 = 0;
    let mut i: usize = len;
    proof {
        assert(before.subrange(len as int, len as int) =~= Seq::<u8>::empty());
    }
    while i > 0
        invariant
            i <= len,
            frac@.len() == len,
            before.len() == len,
            small(before),
            small(frac@),
            carry < 1024,
            forall|j: int| 0 <= j < i ==> frac@[j] == before[j],
            value(before.subrange(i as int, len as int)) * 1024 == carry * pow10((len - i) as nat)
                + value(frac@.subrange(i as int, len as int)),
        decreases i,
    {
        let ghost tail_before = before.subrange(i as int, len as int);
        let ghost tail_now = frac@.subrange(i as int, len as int);
        let x: u8 = frac[i - 1];
        let t: u64 = x as u64 * 1024 + carry;
        let low: u8 = (t % 10) as u8;
        let ghost old_carry = carry;
        frac.set(i - 1, low);
        carry = t / 10;
        proof {
            let p = pow10((len - i) as nat) as int;
            lemma_value_front(x, tail_before);
            lemma_value_front(low, tail_now);
            assert(before.subrange(i - 1, len as int) =~= seq![x] + tail_before);
            assert(frac@.subrange(i - 1, len as int) =~= seq![low] + tail_now);
            let vb = value(tail_before) as int;
            let vn = value(tail_now) as int;
            let xi = x as int;
            let ti = t as int;
            let li = low as int;
            let ci = carry as int;
            let oc = old_carry as int;
            assert(ti == 10 * ci + li);
            assert((xi * p + vb) * 1024 == ci * (10 * p) + (li * p + vn)) by (nonlinear_arith)
                requires
                    vb * 1024 == oc * p + vn,
                    ti == xi * 1024 + oc,
                    ti == 10 * ci + li,
            ;
            assert(pow10((len - (i - 1)) as nat) == 10 * p);
        }
        i -= 1;
    }
    proof {
        assert(before.subrange(0, len as int) =~= before);
        assert(frac@.subrange(0, len as int) =~= frac@);
    }
    carry
}

/// `unit` is one byte or one of the four units.
spec fn is_unit(unit: u64) -> bool {
    unit == 1 || unit == 1024 || unit == 1024 * 1024 || unit == 1024 * 1024 * 1024 || unit == 1024
        * 1024 * 1024 * 1024
}

/// The whole part of `unit` times the fraction that the digits write.
fn fraction_times(frac: Vec<u8>, unit: u64) -> (r: u64)
    requires
        small(frac@),
        is_unit(unit),
    ensures
        r == (value(frac@) * unit) / (pow10(frac@.len()) as int),
        r < unit,
{
    let ghost orig = frac@;
    let ghost p = pow10(orig.len()) as int;
    let mut frac = frac;
    let mut total: u64 = 0;
    let mut mult: u64 = 1;
    while mult < unit
        invariant
            is_unit(unit),
            is_unit(mult),
            mult <= unit,
            small(frac@),
            frac@.len() == orig.len(),
            p == pow10(orig.len()),
            value(orig) * mult == total * p + value(frac@),
            total < mult,
        decreases unit - mult,
    {
        let ghost v0 = value(frac@) as int;
        let ghost t0 = total as int;
        let ghost m0 = mult as int;
        let c = times_1024(&mut frac);
        total = total * 1024 + c;
        mult = mult * 1024;
        proof {
            let vo = value(orig) as int;
            let v1 = value(frac@) as int;
            let ci = c as int;
            assert(vo * (m0 * 1024) == (t0 * 1024 + ci) * p + v1) by (nonlinear_arith)
                requires
                    vo * m0 == t0 * p + v0,
                    v0 * 1024 == ci * p + v1,
            ;
        }
    }
    proof {
        lemma_value_bound(frac@);
        lemma_pow10_positive(orig.len());
        vstd::arithmetic::div_mod::lemma_fundamental_div_mod_converse(
            value(orig) * unit,
            p,
            total as int,
            value(frac@) as int,
        );
    }
    total
}

/// Whether `c` is a decimal digit.
fn is_digit_char(c: char) -> (r: bool)
    ensures
        r == is_digit(c),
{
    '0' <= c && c <= '9'
}

/// The value of the digit `c`.
fn digit_of(c: char) -> (r: u8)
    requires
        is_digit(c),
    ensures
        r == digit(c),
        r < 10,
{
    (c as u32 - '0' as u32) as u8
}

/// Where the digits that begin at `from` end.
fn digits_end(s: &Vec<char>, from: usize, end: usize) -> (r: usize)
    requires
        from <= end <= s@.len(),
    ensures
        from <= r <= end,
        all_digits(s@.subrange(from as int, r as int)),
        r < end ==> !is_digit(s@[r as int]),
{
    let mut i: usize = from;
    while i < end && is_digit_char(s[i])
        invariant
            from <= i <= end <= s@.len(),
            all_digits(s@.subrange(from as int, i as int)),
        decreases end - i,
    {
        proof {
            let next = s@.subrange(from as int, i + 1);
            assert forall|j: int| 0 <= j < next.len() implies is_digit(#[trigger] next[j]) by {
                if j < i - from {
                    assert(next[j] == s@.subrange(from as int, i as int)[j]);
                }
            }
        }
        i += 1;
    }
    i
}

/// The largest whole part that is told apart: a capacity with a whole part
/// of this size or more is beyond every `u64`.
spec fn whole_cap() -> nat {
    0x1_0000_0000_0000_0000
}

/// The number that the digits from `from` up to `to` write, or the cap where
/// it is beyond the cap.
fn whole_of(s: &Vec<char>, from: usize, to: usize) -> (r: u128)
    requires
        from <= to <= s@.len(),
        all_digits(s@.subrange(from as int, to as int)),
    ensures
        r == if number(s@.subrange(from as int, to as int)) < whole_cap() {
            number(s@.subrange(from as int, to as int))
        } else {
            whole_cap()
        },
{
    let mut r: u128 = 0;
    let mut i: usize = from;
    while i < to
        invariant
            from <= i <= to <= s@.len(),
            all_digits(s@.subrange(from as int, to as int)),
            r == if number(s@.subrange(from as int, i as int)) < whole_cap() {
                number(s@.subrange(from as int, i as int))
            } else {
                whole_cap()
            },
        decreases to - i,
    {
        proof {
            assert(s@.subrange(from as int, to as int)[i - from] == s@[i as int]);
            assert(s@.subrange(from as int, i + 1).drop_last() =~= s@.subrange(
                from as int,
                i as int,
            ));
        }
        let d = digit_of(s[i]);
        let next: u128 = r * 10 + d as u128;
        r = if next < 0x1_0000_0000_0000_0000 {
            next
        } else {
            0x1_0000_0000_0000_0000
        };
        i += 1;
    }
    r
}

/// The values of the digits from `from` up to `to`.
fn digit_values(s: &Vec<char>, from: usize, to: usize) -> (r: Vec<u8>)
    requires
        from <= to <= s@.len(),
        all_digits(s@.subrange(from as int, to as int)),
    ensures
        small(r@),
        value(r@) == number(s@.subrange(from as int, to as int)),
        r@.len() == to - from,
{
    let ghost digits = s@.subrange(from as int, to as int);
    let mut r: Vec<u8> = Vec::new();
    let mut i: usize = from;
    while i < to
        invariant
            from <= i <= to <= s@.len(),
            digits == s@.subrange(from as int, to as int),
            all_digits(digits),
            r@.len() == i - from,
            forall|j: int| 0 <= j < r@.len() ==> #[trigger] r@[j] == digit(digits[j]) && r@[j] < 10,
        decreases to - i,
    {
        assert(digits[i - from] == s@[i as int]);
        r.push(digit_of(s[i]));
        i += 1;
    }
    proof {
        lemma_number_is_value(digits, r@);
    }
    r
}

/// How a decimal number is found in `t`: after the sign, which ends at
/// `start`, digits up to `whole_end`; then, where a point follows, digits up
/// to `frac_end`. It is a number where that is the end of `t` and a digit was
/// met.
proof fn lemma_decimal(t: Seq<char>, start: int, whole_end: int, frac_end: int)
    requires
        start == if t.len() > 0 && (t[0] == '-' || t[0] == '+') {
            1int
        } else {
            0int
        },
        start <= whole_end <= frac_end <= t.len(),
        all_digits(t.subrange(start, whole_end)),
        whole_end < t.len() ==> !is_digit(t[whole_end]),
        whole_end < t.len() && t[whole_end] == '.' ==> {
            &&& whole_end < frac_end
            &&& all_digits(t.subrange(whole_end + 1, frac_end))
            &&& frac_end < t.len() ==> !is_digit(t[frac_end])
        },
        !(whole_end < t.len() && t[whole_end] == '.') ==> frac_end == whole_end,
    ensures
        decimal(t) == if frac_end == t.len() && t.subrange(start, whole_end).len() + (
        if whole_end < frac_end {
            t.subrange(whole_end + 1, frac_end)
        } else {
            Seq::empty()
        }).len() > 0 {
            Some(
                Decimal {
                    negative: start == 1 && t[0] == '-',
                    whole: t.subrange(start, whole_end),
                    frac: if whole_end < frac_end {
                        t.subrange(whole_end + 1, frac_end)
                    } else {
                        Seq::empty()
                    },
                },
            )
        } else {
            None
        },
{
    let body = if start == 1 {
        t.skip(1)
    } else {
        t
    };
    let q = whole_end - start;
    let digits = t.subrange(start, whole_end);
    assert forall|j: int| 0 <= j < q implies !has_at(body, point(), j) by {
        lemma_has_char_at(body, '.', j);
        assert(body[j] == digits[j]);
        assert(is_digit(digits[j]));
    }
    lemma_find(body, point(), 0);
    lemma_has_char_at(body, '.', q);
    if whole_end < t.len() && t[whole_end] == '.' {
        assert(body[q] == '.');
        assert(find(body, point(), 0) == Some(q));
        let whole = body.take(q);
        let frac = body.skip(q + 1);
        assert(whole =~= digits);
        if frac_end == t.len() {
            assert(frac =~= t.subrange(whole_end + 1, frac_end));
        } else {
            assert(frac[frac_end - whole_end - 1] == t[frac_end]);
            assert(!all_digits(frac));
        }
    } else {
        assert(frac_end == whole_end);
        match find(body, point(), 0) {
            Some(p) => {
                lemma_has_char_at(body, '.', p);
                assert(q < p);
                assert(body.take(p)[q] == t[whole_end]);
                assert(!all_digits(body.take(p)));
            },
            None => {
                if whole_end < t.len() {
                    assert(body[q] == t[whole_end]);
                    assert(!all_digits(body));
                } else {
                    assert(body =~= digits);
                }
            },
        }
    }
}

/// The capacity, as far as a `u64` holds it, that the decimal number before
/// `end` writes in units of `unit` bytes.
fn read_scaled(s: &Vec<char>, end: usize, unit: u64) -> (r: Option<u64>)
    requires
        end <= s@.len(),
        is_unit(unit),
    ensures
        r == match decimal(s@.take(end as int)) {
            Some(d) => Some(saturated(scaled(d, unit as nat))),
            None => None,
        },
{
    let ghost t = s@.take(end as int);
    let signed = end > 0 && (s[0] == '-' || s[0] == '+');
    let start: usize = if signed {
        1
    } else {
        0
    };
    let whole_end = digits_end(s, start, end);
    let pointed = whole_end < end && s[whole_end] == '.';
    let frac_start: usize = if pointed {
        whole_end + 1
    } else {
        whole_end
    };
    let frac_end = digits_end(s, frac_start, end);
    proof {
        assert(t.subrange(start as int, whole_end as int) =~= s@.subrange(
            start as int,
            whole_end as int,
        ));
        if pointed {
            assert(t.subrange(whole_end + 1, frac_end as int) =~= s@.subrange(
                frac_start as int,
                frac_end as int,
            ));
        } else {
            assert(s@.subrange(frac_start as int, frac_end as int) =~= Seq::<char>::empty()) by {
                if whole_end < end {
                    if frac_end > whole_end {
                        assert(s@.subrange(frac_start as int, frac_end as int)[0] == s@[whole_end as int]);
                    }
                }
            }
        }
        lemma_decimal(t, start as int, whole_end as int, frac_end as int);
    }
    if frac_end < end || (whole_end - start) + (frac_end - frac_start) == 0 {
        return None;
    }
    if signed && s[0] == '-' {
        return Some(0);
    }
    let whole = whole_of(s, start, whole_end);
    let digits = digit_values(s, frac_start, frac_end);
    let part = fraction_times(digits, unit);
    let ghost exact = number(s@.subrange(start as int, whole_end as int));
    assert(whole * unit <= 0x1_0000_0000_0000_0000 * 0x100_0000_0000) by (nonlinear_arith)
        requires
            whole <= 0x1_0000_0000_0000_0000,
            unit <= 0x100_0000_0000,
    ;
    let total: u128 = whole * (unit as u128) + part as u128;
    proof {
        if exact >= whole_cap() {
            assert(exact * unit >= whole_cap()) by (nonlinear_arith)
                requires
                    exact >= whole_cap(),
                    unit >= 1,
            ;
            assert(whole * unit >= whole_cap()) by (nonlinear_arith)
                requires
                    whole == whole_cap(),
                    unit >= 1,
            ;
        }
    }
    if total > u64::MAX as u128 {
        Some(u64::MAX)
    } else {
        Some(total as u64)
    }
}

/// The capacity that the characters `s` write, as far as a `u64` holds it.
fn read_capacity(s: &Vec<char>) -> (r: Option<u64>)
    ensures
        r == match capacity_of(s@) {
            Some(n) => Some(saturated(n)),
            None => None,
        },
{
    let len = s.len();
    if len == 0 {
        return None;
    }
    let last = s[len - 1];
    assert(s@.take(len - 1) =~= s@.drop_last());
    assert(s@.take(len as int) =~= s@);
    if last == 'K' {
        read_scaled(s, len - 1, 1024)
    } else if last == 'M' {
        read_scaled(s, len - 1, 1024 * 1024)
    } else if last == 'G' {
        read_scaled(s, len - 1, 1024 * 1024 * 1024)
    } else if last == 'T' {
        read_scaled(s, len - 1, 1024 * 1024 * 1024 * 1024)
    } else {
        read_scaled(s, len, 1)
    }
}

/// The capacity that `size` writes, in bytes: the number times its unit,
/// without what is beyond the last whole byte, and `u64::MAX` where that is
/// more than a `u64` holds. An error where `size` writes no capacity.
pub fn parse_capacity(size: &str) -> (r: Result<u64, UtilsError>)
    ensures
        match capacity_of(size@) {
            Some(n) => r matches Ok(bytes) && bytes == saturated(n),
            None => r matches Err(UtilsError::BlockError(m)) && m@ == "invalid size: "@ + size@,
        },
{
    let chars = to_chars(size);
    match read_capacity(&chars) {
        Some(bytes) => Ok(bytes),
        None => {
            let mut m = String::from_str("invalid size: ");
            m.append(size);
            Err(UtilsError::BlockError(m))
        },
    }
}

/// The capacity that `size` writes, in bytes, for a `size` that writes one.
pub fn capacity(size: &str) -> (r: u64)
    requires
        capacity_of(size@) is Some,
    ensures
        r == saturated(capacity_of(size@).unwrap()),
{
    let chars = to_chars(size);
    match read_capacity(&chars) {
        Some(bytes) => bytes,
        None => 0,
    }
}

} // verus!
