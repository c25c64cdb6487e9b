//! Exact values of decimal numeric literals.
//!
//! A literal such as `-12.5e-3` denotes the rational `m * 10^s` with integer
//! mantissa `m = -125` and scale `s = -4`.  This module gives that value a
//! mathematical meaning, and provides verified comparisons on a normalized
//! representation, so that the distribution builder can check parameter
//! domains exactly, without any floating-point arithmetic.
use vstd::prelude::*;

verus! {

/// Ten to the power `e`.
pub open spec fn pow10(e: nat) -> int
    decreases e,
{
    if e == 0 {
        1
    } else {
        10 * pow10((e - 1) as nat)
    }
}

pub proof fn lemma_pow10_pos(e: nat)
    ensures
        pow10(e) >= 1,
    decreases e,
{
    if e > 0 {
        lemma_pow10_pos((e - 1) as nat);
    }
}

pub proof fn lemma_pow10_adds(a: nat, b: nat)
    ensures
        pow10(a + b) == pow10(a) * pow10(b),
    decreases a,
{
    if a == 0 {
    } else {
        lemma_pow10_adds((a - 1) as nat, b);
        assert((a + b) as nat > 0);
        assert(pow10(a + b) == 10 * pow10((a + b - 1) as nat));
        assert(10 * (pow10((a - 1) as nat) * pow10(b)) == (10 * pow10((a - 1) as nat)) * pow10(b))
            by (nonlinear_arith);
    }
}

pub proof fn lemma_pow10_increases(a: nat, b: nat)
    requires
        a <= b,
    ensures
        pow10(a) <= pow10(b),
    decreases b,
{
    if a < b {
        lemma_pow10_increases(a, (b - 1) as nat);
        lemma_pow10_pos((b - 1) as nat);
    }
}

/// The integer value of a most-significant-first decimal digit sequence.
pub open spec fn digits_val(ds: Seq<u8>) -> int
    decreases ds.len(),
{
    if ds.len() == 0 {
        0
    } else {
        digits_val(ds.drop_last()) * 10 + ds.last()
    }
}

/// Every element is a single decimal digit value (0 through 9).
pub open spec fn all_digits(ds: Seq<u8>) -> bool {
    forall|i: int| 0 <= i < ds.len() ==> #[trigger] ds[i] < 10
}

pub proof fn lemma_digits_val_bounds(ds: Seq<u8>)
    requires
        all_digits(ds),
    ensures
        0 <= digits_val(ds) < pow10(ds.len() as nat),
        ds.len() > 0 && ds[0] >= 1 ==> digits_val(ds) >= pow10((ds.len() - 1) as nat),
    decreases ds.len(),
{
    if ds.len() == 0 {
    } else {
        let dd = ds.drop_last();
        assert(all_digits(dd)) by {
            assert(forall|i: int| 0 <= i < dd.len() ==> dd[i] == ds[i]);
        }
        lemma_digits_val_bounds(dd);
        assert(pow10(ds.len() as nat) == 10 * pow10((ds.len() - 1) as nat));
        if ds.len() > 1 && ds[0] >= 1 {
            assert(dd[0] == ds[0]);
            assert(pow10((ds.len() - 1) as nat) == 10 * pow10((ds.len() - 2) as nat));
        }
    }
}

pub proof fn lemma_digits_val_append(x: Seq<u8>, y: Seq<u8>)
    ensures
        digits_val(x + y) == digits_val(x) * pow10(y.len() as nat) + digits_val(y),
    decreases y.len(),
{
    if y.len() == 0 {
        assert(x + y =~= x);
    } else {
        let yy = y.drop_last();
        lemma_digits_val_append(x, yy);
        assert((x + y).drop_last() =~= x + yy);
        assert((x + y).last() == y.last());
        assert(pow10(y.len() as nat) == 10 * pow10((y.len() - 1) as nat));
        assert((digits_val(x) * pow10(yy.len() as nat)) * 10 == digits_val(x) * (10 * pow10(
            yy.len() as nat,
        ))) by (nonlinear_arith);
    }
}

/// value(m, s) = m * 10^s.  Whether value(m1, s1) < value(m2, s2).
pub open spec fn val_lt(m1: int, s1: int, m2: int, s2: int) -> bool {
    if s1 >= s2 {
        m1 * pow10((s1 - s2) as nat) < m2
    } else {
        m1 < m2 * pow10((s2 - s1) as nat)
    }
}

/// Whether value(m1, s1) <= value(m2, s2).
pub open spec fn val_le(m1: int, s1: int, m2: int, s2: int) -> bool {
    if s1 >= s2 {
        m1 * pow10((s1 - s2) as nat) <= m2
    } else {
        m1 <= m2 * pow10((s2 - s1) as nat)
    }
}

pub proof fn lemma_val_le_not_lt(m1: int, s1: int, m2: int, s2: int)
    ensures
        val_le(m1, s1, m2, s2) == !val_lt(m2, s2, m1, s1),
{
    assert(pow10(0) == 1);
    if s1 == s2 {
        assert(m1 * pow10((s1 - s2) as nat) == m1) by (nonlinear_arith)
            requires
                s1 == s2,
                pow10(0) == 1,
        ;
        assert(m2 * pow10((s2 - s1) as nat) == m2) by (nonlinear_arith)
            requires
                s1 == s2,
                pow10(0) == 1,
        ;
    }
}

/// Comparing values at a common lower scale `t` is the same comparison.
pub proof fn lemma_val_lt_common(m1: int, s1: int, m2: int, s2: int, t: int)
    requires
        t <= s1,
        t <= s2,
    ensures
        val_lt(m1, s1, m2, s2) == (m1 * pow10((s1 - t) as nat) < m2 * pow10((s2 - t) as nat)),
{
    if s1 >= s2 {
        let d = (s1 - s2) as nat;
        let c = (s2 - t) as nat;
        lemma_pow10_adds(d, c);
        lemma_pow10_pos(c);
        assert((s1 - t) as nat == d + c);
        assert((m1 * pow10(d)) * pow10(c) == m1 * (pow10(d) * pow10(c))) by (nonlinear_arith);
        let a = m1 * pow10(d);
        assert((a < m2) == (a * pow10(c) < m2 * pow10(c))) by (nonlinear_arith)
            requires
                pow10(c) >= 1,
        ;
    } else {
        let d = (s2 - s1) as nat;
        let c = (s1 - t) as nat;
        lemma_pow10_adds(d, c);
        lemma_pow10_pos(c);
        assert((s2 - t) as nat == d + c);
        assert((m2 * pow10(d)) * pow10(c) == m2 * (pow10(d) * pow10(c))) by (nonlinear_arith);
        let b = m2 * pow10(d);
        assert((m1 < b) == (m1 * pow10(c) < b * pow10(c))) by (nonlinear_arith)
            requires
                pow10(c) >= 1,
        ;
    }
}

/// Shifting both scales by the same amount does not change the comparison.
pub proof fn lemma_val_lt_shift(m1: int, s1: int, m2: int, s2: int, c: int)
    ensures
        val_lt(m1, s1 + c, m2, s2 + c) == val_lt(m1, s1, m2, s2),
{
}

/// Sign facts: comparison against the value zero is the sign of the mantissa.
pub proof fn lemma_val_sign(m: int, s: int)
    ensures
        val_lt(m, s, 0, 0) == (m < 0),
        val_lt(0, 0, m, s) == (m > 0),
{
    if s >= 0 {
        lemma_pow10_pos((s - 0) as nat);
        let p = pow10((s - 0) as nat);
        assert((m * p < 0) == (m < 0)) by (nonlinear_arith)
            requires
                p >= 1,
        ;
        assert((0 < m * p) == (0 < m)) by (nonlinear_arith)
            requires
                p >= 1,
        ;
    }
}

/// Negating both mantissas mirrors the comparison.
pub proof fn lemma_val_lt_neg(m1: int, s1: int, m2: int, s2: int)
    ensures
        val_lt(m1, s1, m2, s2) == val_lt(-m2, s2, -m1, s1),
{
    assert(pow10(0) == 1);
    if s1 == s2 {
        assert(m1 * pow10((s1 - s2) as nat) == m1) by (nonlinear_arith)
            requires
                s1 == s2,
                pow10(0) == 1,
        ;
        assert((-m2) * pow10((s2 - s1) as nat) == -m2) by (nonlinear_arith)
            requires
                s1 == s2,
                pow10(0) == 1,
        ;
    } else if s1 > s2 {
        let p = pow10((s1 - s2) as nat);
        assert((-m1) * p == -(m1 * p)) by (nonlinear_arith);
    } else {
        let p = pow10((s2 - s1) as nat);
        assert((-m2) * p == -(m2 * p)) by (nonlinear_arith);
    }
}

/// The digit at index `i`, reading zero beyond either end.
pub open spec fn digit_at(a: Seq<u8>, i: int) -> u8 {
    if 0 <= i < a.len() {
        a[i]
    } else {
        0
    }
}

/// All but the first element; the empty sequence stays empty.
pub open spec fn tail1(a: Seq<u8>) -> Seq<u8> {
    if a.len() == 0 {
        a
    } else {
        a.subrange(1, a.len() as int)
    }
}

/// Lexicographic strict order on digit sequences aligned at their left edge,
/// reading zeros past either end, so that `[1, 5]` and `[1, 5, 0]` are equal.
pub open spec fn lex_lt(a: Seq<u8>, b: Seq<u8>) -> bool
    decreases a.len() + b.len(),
{
    if a.len() == 0 && b.len() == 0 {
        false
    } else if digit_at(a, 0) < digit_at(b, 0) {
        true
    } else if digit_at(a, 0) > digit_at(b, 0) {
        false
    } else {
        lex_lt(tail1(a), tail1(b))
    }
}

proof fn lemma_head_decomp(a: Seq<u8>)
    ensures
        digits_val(a) == digit_at(a, 0) * pow10(tail1(a).len() as nat) + digits_val(tail1(a)),
{
    if a.len() == 0 {
        assert(pow10(0) == 1);
    } else {
        let x = a.subrange(0, 1);
        let y = a.subrange(1, a.len() as int);
        assert(x + y =~= a);
        lemma_digits_val_append(x, y);
        assert(x.drop_last() =~= Seq::<u8>::empty());
        reveal_with_fuel(digits_val, 2);
        assert(digits_val(x) == a[0]);
    }
}

/// Comparing the fractions `0.a` and `0.b` digit by digit is exact.
proof fn lemma_lex_val(a: Seq<u8>, b: Seq<u8>)
    requires
        all_digits(a),
        all_digits(b),
    ensures
        val_lt(digits_val(a), -(a.len() as int), digits_val(b), -(b.len() as int)) == lex_lt(a, b),
    decreases a.len() + b.len(),
{
    let la = a.len() as int;
    let lb = b.len() as int;
    let ma = digits_val(a);
    let mb = digits_val(b);
    assert(pow10(0) == 1);
    if a.len() == 0 && b.len() == 0 {
    } else {
        let large = if la >= lb {
            la
        } else {
            lb
        };
        lemma_val_lt_common(ma, -la, mb, -lb, -large);
        let ta = tail1(a);
        let tb = tail1(b);
        let lta = ta.len() as int;
        let ltb = tb.len() as int;
        let x = digit_at(a, 0) as int;
        let y = digit_at(b, 0) as int;
        assert(all_digits(ta) && all_digits(tb)) by {
            assert(forall|i: int| 0 <= i < ta.len() ==> ta[i] == a[i + 1]);
            assert(forall|i: int| 0 <= i < tb.len() ==> tb[i] == b[i + 1]);
        }
        lemma_head_decomp(a);
        lemma_head_decomp(b);
        lemma_digits_val_bounds(ta);
        lemma_digits_val_bounds(tb);
        let mta = digits_val(ta);
        let mtb = digits_val(tb);
        // scale factors at the common scale `-large`
        let pa = pow10((large - la) as nat);
        let pb = pow10((large - lb) as nat);
        lemma_pow10_pos((large - la) as nat);
        lemma_pow10_pos((large - lb) as nat);
        // decompose each side at the common scale
        assert(ma * pa == x * pow10((large - 1) as nat) + mta * (if a.len() == 0 {
            0
        } else {
            pa
        })) by {
            if a.len() == 0 {
                assert(ma == 0);
                assert(large == lb >= 1);
                assert(ma * pa == 0) by (nonlinear_arith)
                    requires
                        ma == 0,
                ;
                assert(x == 0 && mta == 0);
                assert(x * pow10((large - 1) as nat) == 0) by (nonlinear_arith)
                    requires
                        x == 0,
                ;
            } else {
                assert(lta == la - 1);
                assert(ma == x * pow10(lta as nat) + mta);
                lemma_pow10_adds(lta as nat, (large - la) as nat);
                assert((x * pow10(lta as nat) + mta) * pa == x * (pow10(lta as nat) * pa) + mta
                    * pa) by (nonlinear_arith);
                assert(pow10(lta as nat) * pa == pow10((large - 1) as nat));
            }
        }
        assert(mb * pb == y * pow10((large - 1) as nat) + mtb * (if b.len() == 0 {
            0
        } else {
            pb
        })) by {
            if b.len() == 0 {
                assert(mb == 0);
                assert(large == la >= 1);
                assert(mb * pb == 0) by (nonlinear_arith)
                    requires
                        mb == 0,
                ;
                assert(y == 0 && mtb == 0);
                assert(y * pow10((large - 1) as nat) == 0) by (nonlinear_arith)
                    requires
                        y == 0,
                ;
            } else {
                assert(ltb == lb - 1);
                assert(mb == y * pow10(ltb as nat) + mtb);
                lemma_pow10_adds(ltb as nat, (large - lb) as nat);
                assert((y * pow10(ltb as nat) + mtb) * pb == y * (pow10(ltb as nat) * pb) + mtb
                    * pb) by (nonlinear_arith);
                assert(pow10(ltb as nat) * pb == pow10((large - 1) as nat));
            }
        }
        // tail terms are bounded by pow10(large - 1)
        let ra = if a.len() == 0 {
            0int
        } else {
            mta * pa
        };
        let rb = if b.len() == 0 {
            0int
        } else {
            mtb * pb
        };
        assert(0 <= ra < pow10((large - 1) as nat)) by {
            if a.len() == 0 {
                lemma_pow10_pos((large - 1) as nat);
            } else {
                assert(mta < pow10(lta as nat));
                lemma_pow10_adds(lta as nat, (large - la) as nat);
                assert(mta * pa < pow10(lta as nat) * pa && 0 <= mta * pa) by (nonlinear_arith)
                    requires
                        0 <= mta < pow10(lta as nat),
                        pa >= 1,
                ;
                assert(pow10(lta as nat) * pa == pow10((large - 1) as nat));
            }
        }
        assert(0 <= rb < pow10((large - 1) as nat)) by {
            if b.len() == 0 {
                lemma_pow10_pos((large - 1) as nat);
            } else {
                assert(mtb < pow10(ltb as nat));
                lemma_pow10_adds(ltb as nat, (large - lb) as nat);
                assert(mtb * pb < pow10(ltb as nat) * pb && 0 <= mtb * pb) by (nonlinear_arith)
                    requires
                        0 <= mtb < pow10(ltb as nat),
                        pb >= 1,
                ;
                assert(pow10(ltb as nat) * pb == pow10((large - 1) as nat));
            }
        }
        let phead = pow10((large - 1) as nat);
        if x < y {
            assert(x * phead + ra < y * phead + rb) by (nonlinear_arith)
                requires
                    x < y,
                    0 <= ra < phead,
                    0 <= rb,
            ;
        } else if x > y {
            assert(y * phead + rb < x * phead + ra) by (nonlinear_arith)
                requires
                    y < x,
                    0 <= rb < phead,
                    0 <= ra,
            ;
        } else {
            // heads equal: the comparison is the tails' comparison
            lemma_lex_val(ta, tb);
            let tlarge = if lta >= ltb {
                lta
            } else {
                ltb
            };
            lemma_val_lt_common(mta, -lta, mtb, -ltb, -tlarge);
            // relate the tail scale factors to pa, pb
            assert((mta * pow10((tlarge - lta) as nat) < mtb * pow10((tlarge - ltb) as nat)) == (ra
                < rb)) by {
                if a.len() == 0 && b.len() == 0 {
                } else if a.len() == 0 {
                    // mta == 0, so both sides compare 0 against the b tail term
                    assert(mta * pow10((tlarge - lta) as nat) == 0) by (nonlinear_arith)
                        requires
                            mta == 0,
                    ;
                    assert((0 < mtb * pow10((tlarge - ltb) as nat)) == (0 < mtb)) by (
                    nonlinear_arith)
                        requires
                            pow10((tlarge - ltb) as nat) >= 1,
                    {
                        lemma_pow10_pos((tlarge - ltb) as nat);
                    }
                    assert((0 < mtb * pb) == (0 < mtb)) by (nonlinear_arith)
                        requires
                            pb >= 1,
                    ;
                } else if b.len() == 0 {
                    assert(mtb * pow10((tlarge - ltb) as nat) == 0) by (nonlinear_arith)
                        requires
                            mtb == 0,
                    ;
                    assert((mta * pow10((tlarge - lta) as nat) < 0) == (mta < 0)) by (
                    nonlinear_arith)
                        requires
                            pow10((tlarge - lta) as nat) >= 1,
                    {
                        lemma_pow10_pos((tlarge - lta) as nat);
                    }
                    assert((mta * pa < 0) == (mta < 0)) by (nonlinear_arith)
                        requires
                            pa >= 1,
                    ;
                } else {
                    // both tails shrink by one: tlarge == large - 1 and the
                    // scale factors agree
                    assert(tlarge == large - 1);
                    assert((tlarge - lta) as nat == (large - la) as nat);
                    assert((tlarge - ltb) as nat == (large - lb) as nat);
                }
            }
        }
    }
}

/// Strict order of two normalized nonzero magnitudes `0.d * 10^e` (leading
/// digit nonzero): decided by the adjusted exponent, then digit order.
pub proof fn lemma_norm_lt(d1: Seq<u8>, e1: int, d2: Seq<u8>, e2: int)
    requires
        all_digits(d1),
        all_digits(d2),
        d1.len() > 0,
        d2.len() > 0,
        d1[0] >= 1,
        d2[0] >= 1,
    ensures
        val_lt(digits_val(d1), e1 - d1.len(), digits_val(d2), e2 - d2.len()) == (e1 < e2 || (e1
            == e2 && lex_lt(d1, d2))),
{
    let l1 = d1.len() as int;
    let l2 = d2.len() as int;
    let m1 = digits_val(d1);
    let m2 = digits_val(d2);
    lemma_digits_val_bounds(d1);
    lemma_digits_val_bounds(d2);
    if e1 == e2 {
        lemma_val_lt_shift(m1, -l1, m2, -l2, e1);
        lemma_lex_val(d1, d2);
    } else {
        let s1 = e1 - l1;
        let s2 = e2 - l2;
        let t = if s1 <= s2 {
            s1
        } else {
            s2
        };
        lemma_val_lt_common(m1, s1, m2, s2, t);
        let p1 = pow10((s1 - t) as nat);
        let p2 = pow10((s2 - t) as nat);
        lemma_pow10_pos((s1 - t) as nat);
        lemma_pow10_pos((s2 - t) as nat);
        lemma_pow10_adds(l1 as nat, (s1 - t) as nat);
        lemma_pow10_adds(l2 as nat, (s2 - t) as nat);
        assert(pow10(l1 as nat) * p1 == pow10((e1 - t) as nat));
        assert(pow10(l2 as nat) * p2 == pow10((e2 - t) as nat));
        lemma_pow10_adds((l1 - 1) as nat, (s1 - t) as nat);
        lemma_pow10_adds((l2 - 1) as nat, (s2 - t) as nat);
        assert(pow10((l1 - 1) as nat) * p1 == pow10((e1 - 1 - t) as nat));
        assert(pow10((l2 - 1) as nat) * p2 == pow10((e2 - 1 - t) as nat));
        assert(m1 * p1 < pow10(l1 as nat) * p1) by (nonlinear_arith)
            requires
                m1 < pow10(l1 as nat),
                p1 >= 1,
        ;
        assert(m2 * p2 < pow10(l2 as nat) * p2) by (nonlinear_arith)
            requires
                m2 < pow10(l2 as nat),
                p2 >= 1,
        ;
        assert(pow10((l1 - 1) as nat) * p1 <= m1 * p1) by (nonlinear_arith)
            requires
                pow10((l1 - 1) as nat) <= m1,
                p1 >= 1,
        ;
        assert(pow10((l2 - 1) as nat) * p2 <= m2 * p2) by (nonlinear_arith)
            requires
                pow10((l2 - 1) as nat) <= m2,
                p2 >= 1,
        ;
        if e1 < e2 {
            lemma_pow10_increases((e1 - t) as nat, (e2 - 1 - t) as nat);
        } else {
            lemma_pow10_increases((e2 - t) as nat, (e1 - 1 - t) as nat);
        }
    }
}

/// Absolute value of an integer.
pub open spec fn abs_i(m: int) -> int {
    if m < 0 {
        -m
    } else {
        m
    }
}

pub proof fn lemma_val_zero(s1: int, s2: int)
    ensures
        !val_lt(0, s1, 0, s2),
{
    if s1 >= s2 {
        lemma_pow10_pos((s1 - s2) as nat);
        assert(0 * pow10((s1 - s2) as nat) == 0) by (nonlinear_arith);
    } else {
        assert(0 * pow10((s2 - s1) as nat) == 0) by (nonlinear_arith);
    }
}

pub proof fn lemma_val_sign_gen(m: int, s: int, s0: int)
    ensures
        val_lt(m, s, 0, s0) == (m < 0),
        val_lt(0, s0, m, s) == (m > 0),
{
    lemma_val_lt_shift(m, s - s0, 0, 0, s0);
    lemma_val_lt_shift(0, 0, m, s - s0, s0);
    lemma_val_sign(m, s - s0);
}

pub proof fn lemma_val_lt_mixed(m1: int, s1: int, m2: int, s2: int)
    requires
        m1 < 0,
        m2 > 0,
    ensures
        val_lt(m1, s1, m2, s2),
{
    let t = if s1 <= s2 {
        s1
    } else {
        s2
    };
    lemma_val_lt_common(m1, s1, m2, s2, t);
    lemma_pow10_pos((s1 - t) as nat);
    lemma_pow10_pos((s2 - t) as nat);
    assert(m1 * pow10((s1 - t) as nat) < 0) by (nonlinear_arith)
        requires
            m1 < 0,
            pow10((s1 - t) as nat) >= 1,
    ;
    assert(m2 * pow10((s2 - t) as nat) > 0) by (nonlinear_arith)
        requires
            m2 > 0,
            pow10((s2 - t) as nat) >= 1,
    ;
}

proof fn lemma_lex_lt_empty(t: Seq<u8>)
    ensures
        !lex_lt(t, Seq::<u8>::empty()),
    decreases t.len(),
{
    if t.len() > 0 {
        lemma_lex_lt_empty(tail1(t));
    }
}

proof fn lemma_digits_val_zeros(ds: Seq<u8>)
    requires
        forall|i: int| 0 <= i < ds.len() ==> #[trigger] ds[i] == 0,
    ensures
        digits_val(ds) == 0,
    decreases ds.len(),
{
    if ds.len() > 0 {
        lemma_digits_val_zeros(ds.drop_last());
    }
}

/// A parsed numeric literal: optional minus sign, integer digits, fraction
/// digits, and a signed decimal exponent, all stored as digit values 0..=9.
#[derive(Debug)]
pub struct NumLit {
    neg: bool,
    int_digits: Vec<u8>,
    frac_digits: Vec<u8>,
    exp_neg: bool,
    exp_digits: Vec<u8>,
}

/// The mathematical content of a numeric literal.
pub ghost struct NumView {
    pub neg: bool,
    pub ints: Seq<u8>,
    pub fracs: Seq<u8>,
    pub eneg: bool,
    pub exps: Seq<u8>,
}

impl View for NumLit {
    type V = NumView;

    closed spec fn view(&self) -> NumView {
        NumView {
            neg: self.neg,
            ints: self.int_digits@,
            fracs: self.frac_digits@,
            eneg: self.exp_neg,
            exps: self.exp_digits@,
        }
    }
}


/// The views of a sequence of literals.
pub open spec fn views_of(v: Seq<NumLit>) -> Seq<NumView> {
    v.map_values(|l: NumLit| l@)
}

/// A well-formed literal: digit values only, and at least one mantissa digit.
pub open spec fn lit_wf(v: NumView) -> bool {
    &&& all_digits(v.ints)
    &&& all_digits(v.fracs)
    &&& all_digits(v.exps)
    &&& v.ints.len() + v.fracs.len() > 0
}

/// |mantissa|: the integer the digits of the literal spell with the decimal
/// point removed.
pub open spec fn lit_abs_mant(v: NumView) -> int {
    digits_val(v.ints + v.fracs)
}

/// Signed mantissa.
pub open spec fn lit_mant(v: NumView) -> int {
    if v.neg {
        -lit_abs_mant(v)
    } else {
        lit_abs_mant(v)
    }
}

/// The literal's written exponent, signed.
pub open spec fn lit_exp(v: NumView) -> int {
    if v.eneg {
        -digits_val(v.exps)
    } else {
        digits_val(v.exps)
    }
}

/// The scale: the literal denotes `lit_mant * 10^lit_scale`.
pub open spec fn lit_scale(v: NumView) -> int {
    lit_exp(v) - v.fracs.len()
}

impl NumLit {
    #[verifier::type_invariant]
    pub closed spec fn inv(&self) -> bool {
        lit_wf(self@)
    }

    /// Build a literal from its parts; `None` if some element is not a digit
    /// value, or there is no mantissa digit at all.
    pub fn new(neg: bool, int_digits: Vec<u8>, frac_digits: Vec<u8>, exp_neg: bool, exp_digits: Vec<
        u8,
    >) -> (r: Option<NumLit>)
        ensures
            match r {
                Some(l) => l@ == (NumView {
                    neg,
                    ints: int_digits@,
                    fracs: frac_digits@,
                    eneg: exp_neg,
                    exps: exp_digits@,
                }) && lit_wf(l@),
                None => !lit_wf(
                    NumView {
                        neg,
                        ints: int_digits@,
                        fracs: frac_digits@,
                        eneg: exp_neg,
                        exps: exp_digits@,
                    },
                ),
            },
    {
        if int_digits.len() == 0 && frac_digits.len() == 0 {
            return None;
        }
        if !digits_ok(&int_digits) || !digits_ok(&frac_digits) || !digits_ok(&exp_digits) {
            return None;
        }
        Some(NumLit { neg, int_digits, frac_digits, exp_neg, exp_digits })
    }

    /// In-crate constructor for callers that have already established
    /// well-formedness.
    pub(crate) fn new_checked(neg: bool, int_digits: Vec<u8>, frac_digits: Vec<u8>, exp_neg: bool, exp_digits: Vec<
        u8,
    >) -> (r: NumLit)
        requires
            lit_wf(
                NumView {
                    neg,
                    ints: int_digits@,
                    fracs: frac_digits@,
                    eneg: exp_neg,
                    exps: exp_digits@,
                },
            ),
        ensures
            r@ == (NumView {
                neg,
                ints: int_digits@,
                fracs: frac_digits@,
                eneg: exp_neg,
                exps: exp_digits@,
            }),
    {
        NumLit { neg, int_digits, frac_digits, exp_neg, exp_digits }
    }

    /// An equal-valued copy.
    pub fn duplicate(&self) -> (r: NumLit)
        ensures
            r@ == self@,
    {
        proof {
            use_type_invariant(self);
        }
        NumLit {
            neg: self.neg,
            int_digits: copy_bytes(&self.int_digits),
            frac_digits: copy_bytes(&self.frac_digits),
            exp_neg: self.exp_neg,
            exp_digits: copy_bytes(&self.exp_digits),
        }
    }

    pub fn is_neg(&self) -> (r: bool)
        ensures
            r == self@.neg,
    {
        self.neg
    }

    pub fn int_part(&self) -> (r: &Vec<u8>)
        ensures
            r@ == self@.ints,
    {
        &self.int_digits
    }

    pub fn frac_part(&self) -> (r: &Vec<u8>)
        ensures
            r@ == self@.fracs,
    {
        &self.frac_digits
    }

    pub fn is_exp_neg(&self) -> (r: bool)
        ensures
            r == self@.eneg,
    {
        self.exp_neg
    }

    pub fn exp_part(&self) -> (r: &Vec<u8>)
        ensures
            r@ == self@.exps,
    {
        &self.exp_digits
    }
}

/// Marker exponent for a literal whose written exponent is too large to
/// evaluate; any such value lies far outside every distribution domain.
pub const SAT_EXP: i128 = 10_000_000_000_000_000_000;

// parsing of an exponent digit string saturates here (10^20)
pub const SAT_VAL: i128 = 100_000_000_000_000_000_000;

/// A literal value in normalized form `(+/-) 0.digits * 10^e` with a nonzero
/// leading digit, or zero with no digits.  `e` is the stored, possibly
/// saturated exponent; `te` is the exact one.
pub struct Dec {
    pub neg: bool,
    pub digits: Vec<u8>,
    pub e: i128,
    pub te: Ghost<int>,
}

pub open spec fn dec_wf(d: Dec) -> bool {
    &&& all_digits(d.digits@)
    &&& (d.digits@.len() > 0 ==> d.digits@[0] >= 1)
    &&& (d.digits@.len() == 0 ==> !d.neg && d.e == 0 && d.te@ == 0)
    &&& (d.e as int == d.te@ || (d.e == SAT_EXP && d.te@ >= SAT_EXP as int) || (d.e == -SAT_EXP
        && d.te@ <= -(SAT_EXP as int)))
}

/// Signed mantissa of the normalized value.
pub open spec fn dec_mant(d: Dec) -> int {
    if d.neg {
        -digits_val(d.digits@)
    } else {
        digits_val(d.digits@)
    }
}

/// Scale of the normalized value: it denotes `dec_mant * 10^dec_scale`.
pub open spec fn dec_scale(d: Dec) -> int {
    d.te@ - d.digits@.len()
}

/// A byte-for-byte copy of a vector.
pub fn copy_bytes(v: &Vec<u8>) -> (out: Vec<u8>)
    ensures
        out@ == v@,
{
    let mut out: Vec<u8> = Vec::new();
    let mut i: usize = 0;
    while i < v.len()
        invariant
            0 <= i <= v@.len(),
            out@ =~= v@.subrange(0, i as int),
        decreases v@.len() - i,
    {
        out.push(v[i]);
        i = i + 1;
    }
    assert(out@ =~= v@);
    out
}

fn digits_ok(v: &Vec<u8>) -> (r: bool)
    ensures
        r == all_digits(v@),
{
    let mut i: usize = 0;
    while i < v.len()
        invariant
            0 <= i <= v@.len(),
            forall|j: int| 0 <= j < i ==> #[trigger] v@[j] < 10,
        decreases v@.len() - i,
    {
        if v[i] >= 10 {
            return false;
        }
        i = i + 1;
    }
    true
}

/// Comparing a zero value ignores its scale.
pub proof fn lemma_val_lt_zero_mant(s1: int, s2: int, m: int, s: int)
    ensures
        val_lt(0, s1, m, s) == val_lt(0, s2, m, s),
        val_lt(m, s, 0, s1) == val_lt(m, s, 0, s2),
{
    lemma_val_sign_gen(m, s, s1);
    lemma_val_sign_gen(m, s, s2);
}

proof fn lemma_val_lt_mixed2(m1: int, s1: int, m2: int, s2: int)
    requires
        m1 >= 0,
        m2 <= 0,
    ensures
        !val_lt(m1, s1, m2, s2),
{
    let t = if s1 <= s2 {
        s1
    } else {
        s2
    };
    lemma_val_lt_common(m1, s1, m2, s2, t);
    lemma_pow10_pos((s1 - t) as nat);
    lemma_pow10_pos((s2 - t) as nat);
    assert(m1 * pow10((s1 - t) as nat) >= 0) by (nonlinear_arith)
        requires
            m1 >= 0,
            pow10((s1 - t) as nat) >= 1,
    ;
    assert(m2 * pow10((s2 - t) as nat) <= 0) by (nonlinear_arith)
        requires
            m2 <= 0,
            pow10((s2 - t) as nat) >= 1,
    ;
}

fn parse_exp_digits(v: &Vec<u8>) -> (ev: i128)
    requires
        all_digits(v@),
    ensures
        0 <= ev <= SAT_VAL,
        (ev as int == digits_val(v@) && ev < SAT_VAL) || (ev == SAT_VAL && digits_val(v@)
            >= SAT_VAL as int),
{
    let mut ev: i128 = 0;
    let mut i: usize = 0;
    while i < v.len()
        invariant
            0 <= i <= v@.len(),
            all_digits(v@),
            0 <= ev <= SAT_VAL,
            (ev as int == digits_val(v@.subrange(0, i as int)) && ev < SAT_VAL) || (ev == SAT_VAL
                && digits_val(v@.subrange(0, i as int)) >= SAT_VAL as int),
        decreases v@.len() - i,
    {
        let d = v[i];
        proof {
            let pre = v@.subrange(0, i as int);
            let pre1 = v@.subrange(0, i as int + 1);
            assert(pre1.drop_last() =~= pre);
            assert(pre1.last() == v@[i as int]);
            assert(digits_val(pre1) == digits_val(pre) * 10 + v@[i as int]);
            assert(all_digits(pre)) by {
                assert(forall|j: int| 0 <= j < pre.len() ==> pre[j] == v@[j]);
            }
            lemma_digits_val_bounds(pre);
        }
        if ev < SAT_EXP {
            ev = ev * 10 + d as i128;
        } else {
            ev = SAT_VAL;
        }
        i = i + 1;
    }
    assert(v@.subrange(0, v@.len() as int) =~= v@);
    ev
}

/// Normalize a literal: same mantissa and scale, leading zeros removed.  When
/// the written exponent is beyond evaluation, the stored exponent saturates
/// and only its ghost twin is exact.
pub fn normalize(lit: &NumLit) -> (d: Dec)
    ensures
        dec_wf(d),
        dec_mant(d) == lit_mant(lit@),
        dec_mant(d) != 0 ==> dec_scale(d) == lit_scale(lit@),
        lit_wf(lit@),
{
    proof {
        use_type_invariant(lit);
    }
    let ints = lit.int_part();
    let fracs = lit.frac_part();
    let mut digs: Vec<u8> = Vec::new();
    let mut i: usize = 0;
    while i < ints.len()
        invariant
            0 <= i <= ints@.len(),
            digs@ =~= ints@.subrange(0, i as int),
        decreases ints@.len() - i,
    {
        digs.push(ints[i]);
        i = i + 1;
    }
    let mut j: usize = 0;
    while j < fracs.len()
        invariant
            0 <= j <= fracs@.len(),
            digs@ =~= ints@ + fracs@.subrange(0, j as int),
        decreases fracs@.len() - j,
    {
        digs.push(fracs[j]);
        j = j + 1;
    }
    assert(digs@ =~= ints@ + fracs@);
    let ghost full = digs@;
    // find the first nonzero digit
    let mut k: usize = 0;
    while k < digs.len() && digs[k] == 0
        invariant
            0 <= k <= full.len(),
            digs@ == full,
            forall|t: int| 0 <= t < k ==> #[trigger] full[t] == 0,
        decreases full.len() - k,
    {
        k = k + 1;
    }
    if k == digs.len() {
        // every digit is zero: the literal denotes zero
        proof {
            lemma_digits_val_zeros(full);
        }
        let d = Dec { neg: false, digits: Vec::new(), e: 0, te: Ghost(0int) };
        assert(dec_mant(d) == 0);
        return d;
    }
    let mut nd: Vec<u8> = Vec::new();
    let mut t: usize = k;
    while t < digs.len()
        invariant
            k <= t <= full.len(),
            digs@ == full,
            nd@ =~= full.subrange(k as int, t as int),
        decreases full.len() - t,
    {
        nd.push(digs[t]);
        t = t + 1;
    }
    assert(nd@ =~= full.subrange(k as int, full.len() as int));
    proof {
        // stripping the zero prefix keeps the mantissa value
        let pre = full.subrange(0, k as int);
        assert(pre + nd@ =~= full);
        lemma_digits_val_append(pre, nd@);
        lemma_digits_val_zeros(pre);
        assert(0 * pow10(nd@.len() as nat) == 0) by (nonlinear_arith);
        assert(digits_val(full) == digits_val(nd@));
        assert(all_digits(nd@)) by {
            assert(forall|q: int| 0 <= q < nd@.len() ==> nd@[q] == full[k + q]);
        }
        assert(nd@[0] == full[k as int]);
        lemma_digits_val_bounds(nd@);
        lemma_pow10_pos((nd@.len() - 1) as nat);
    }
    let ev = parse_exp_digits(lit.exp_part());
    let eneg = lit.is_exp_neg();
    let neg = lit.is_neg();
    let ints_len = ints.len();
    let ghost te_true: int = lit_exp(lit@) + ints_len as int - k as int;
    proof {
        // te_true makes the normalized scale equal the literal's scale
        assert(full.len() == ints@.len() + fracs@.len());
        assert(nd@.len() == full.len() - k);
    }
    let e: i128;
    if ev == SAT_VAL {
        proof {
            assert(digits_val(lit@.exps) >= SAT_VAL as int);
            assert(ints_len as int <= usize::MAX as int);
        }
        e = if eneg {
            -SAT_EXP
        } else {
            SAT_EXP
        };
    } else {
        let se: i128 = if eneg {
            -ev
        } else {
            ev
        };
        e = se + ints_len as i128 - k as i128;
    }
    let d = Dec { neg, digits: nd, e, te: Ghost(te_true) };
    proof {
        assert(digits_val(d.digits@) >= 1);
        assert(dec_scale(d) == lit_scale(lit@)) by {
            assert(te_true - nd@.len() == lit_exp(lit@) - fracs@.len());
        }
    }
    d
}

fn lex_less(x: &[u8], y: &[u8]) -> (r: bool)
    ensures
        r == lex_lt(x@, y@),
    decreases x@.len() + y@.len(),
{
    if x.len() == 0 && y.len() == 0 {
        return false;
    }
    let dx = if x.len() > 0 {
        x[0]
    } else {
        0
    };
    let dy = if y.len() > 0 {
        y[0]
    } else {
        0
    };
    if dx < dy {
        true
    } else if dx > dy {
        false
    } else {
        let tx = if x.len() == 0 {
            x
        } else {
            vstd::slice::slice_subrange(x, 1, x.len())
        };
        let ty = if y.len() == 0 {
            y
        } else {
            vstd::slice::slice_subrange(y, 1, y.len())
        };
        assert(tx@ =~= tail1(x@));
        assert(ty@ =~= tail1(y@));
        lex_less(tx, ty)
    }
}

/// Strict comparison of two normalized values, exact.
pub fn dec_lt(a: &Dec, b: &Dec) -> (r: bool)
    requires
        dec_wf(*a),
        dec_wf(*b),
        a.e as int == a.te@,
        b.e as int == b.te@,
    ensures
        r == val_lt(dec_mant(*a), dec_scale(*a), dec_mant(*b), dec_scale(*b)),
{
    let az = a.digits.len() == 0;
    let bz = b.digits.len() == 0;
    proof {
        if !az {
            lemma_digits_val_bounds(a.digits@);
            lemma_pow10_pos((a.digits@.len() - 1) as nat);
        }
        if !bz {
            lemma_digits_val_bounds(b.digits@);
            lemma_pow10_pos((b.digits@.len() - 1) as nat);
        }
    }
    if az && bz {
        proof {
            lemma_val_zero(dec_scale(*a), dec_scale(*b));
        }
        false
    } else if az {
        proof {
            lemma_val_sign_gen(dec_mant(*b), dec_scale(*b), dec_scale(*a));
        }
        !b.neg
    } else if bz {
        proof {
            lemma_val_sign_gen(dec_mant(*a), dec_scale(*a), dec_scale(*b));
        }
        a.neg
    } else if a.neg && !b.neg {
        proof {
            lemma_val_lt_mixed(dec_mant(*a), dec_scale(*a), dec_mant(*b), dec_scale(*b));
        }
        true
    } else if !a.neg && b.neg {
        proof {
            lemma_val_lt_mixed2(dec_mant(*a), dec_scale(*a), dec_mant(*b), dec_scale(*b));
        }
        false
    } else if !a.neg {
        proof {
            lemma_norm_lt(a.digits@, a.te@, b.digits@, b.te@);
        }
        if a.e < b.e {
            true
        } else if a.e > b.e {
            false
        } else {
            lex_less(a.digits.as_slice(), b.digits.as_slice())
        }
    } else {
        proof {
            lemma_val_lt_neg(dec_mant(*a), dec_scale(*a), dec_mant(*b), dec_scale(*b));
            lemma_norm_lt(b.digits@, b.te@, a.digits@, a.te@);
        }
        if b.e < a.e {
            true
        } else if b.e > a.e {
            false
        } else {
            lex_less(b.digits.as_slice(), a.digits.as_slice())
        }
    }
}

/// Non-strict comparison, exact.
pub fn dec_le(a: &Dec, b: &Dec) -> (r: bool)
    requires
        dec_wf(*a),
        dec_wf(*b),
        a.e as int == a.te@,
        b.e as int == b.te@,
    ensures
        r == val_le(dec_mant(*a), dec_scale(*a), dec_mant(*b), dec_scale(*b)),
{
    proof {
        lemma_val_le_not_lt(dec_mant(*a), dec_scale(*a), dec_mant(*b), dec_scale(*b));
    }
    !dec_lt(b, a)
}

/// Whether |a| < |b|, exact.
pub fn dec_abs_lt(a: &Dec, b: &Dec) -> (r: bool)
    requires
        dec_wf(*a),
        dec_wf(*b),
        a.e as int == a.te@,
        b.e as int == b.te@,
    ensures
        r == val_lt(abs_i(dec_mant(*a)), dec_scale(*a), abs_i(dec_mant(*b)), dec_scale(*b)),
{
    let az = a.digits.len() == 0;
    let bz = b.digits.len() == 0;
    proof {
        if !az {
            lemma_digits_val_bounds(a.digits@);
            lemma_pow10_pos((a.digits@.len() - 1) as nat);
        }
        if !bz {
            lemma_digits_val_bounds(b.digits@);
            lemma_pow10_pos((b.digits@.len() - 1) as nat);
        }
    }
    if bz {
        proof {
            if az {
                lemma_val_zero(dec_scale(*a), dec_scale(*b));
            } else {
                lemma_val_sign_gen(abs_i(dec_mant(*a)), dec_scale(*a), dec_scale(*b));
            }
        }
        false
    } else if az {
        proof {
            lemma_val_sign_gen(abs_i(dec_mant(*b)), dec_scale(*b), dec_scale(*a));
        }
        true
    } else {
        proof {
            lemma_norm_lt(a.digits@, a.te@, b.digits@, b.te@);
        }
        if a.e < b.e {
            true
        } else if a.e > b.e {
            false
        } else {
            lex_less(a.digits.as_slice(), b.digits.as_slice())
        }
    }
}

/// The magnitude rule for distribution parameters: a parameter must be zero
/// or have |v| in [10^-44, 10^38), so that it keeps a nonzero, finite value
/// at the 32-bit float precision the runtime samples with.
pub open spec fn repr_ok(m: int, s: int) -> bool {
    m == 0 || (val_le(1, -44, abs_i(m), s) && val_lt(abs_i(m), s, 1, 38))
}

/// Exec check of `repr_ok`; on a normalized value it is a bound on the
/// adjusted exponent, so a saturated exponent always fails it.
pub fn dec_repr_ok(d: &Dec) -> (r: bool)
    requires
        dec_wf(*d),
    ensures
        r == repr_ok(dec_mant(*d), dec_scale(*d)),
        r && dec_mant(*d) != 0 ==> d.e as int == d.te@,
{
    if d.digits.len() == 0 {
        return true;
    }
    proof {
        lemma_digits_val_bounds(d.digits@);
        lemma_pow10_pos((d.digits@.len() - 1) as nat);
        let one = seq![1u8];
        assert(one.drop_last() =~= Seq::<u8>::empty());
        reveal_with_fuel(digits_val, 2);
        assert(digits_val(one) == 1);
        assert(all_digits(one)) by {
            assert(forall|i: int| 0 <= i < one.len() ==> one[i] == 1);
        }
        assert(!lex_lt(d.digits@, one)) by {
            if digit_at(d.digits@, 0) == 1 {
                assert(tail1(one) =~= Seq::<u8>::empty());
                lemma_lex_lt_empty(tail1(d.digits@));
            }
        }
        let dv = digits_val(d.digits@);
        let s = dec_scale(*d);
        // |v| < 10^38 exactly when the adjusted exponent is at most 38
        lemma_norm_lt(d.digits@, d.te@, one, 39);
        assert(val_lt(dv, s, 1, 38) == (d.te@ <= 38));
        // |v| >= 10^-44 exactly when the adjusted exponent is at least -43
        lemma_norm_lt(d.digits@, d.te@, one, -43);
        assert(val_lt(dv, s, 1, -44) == (d.te@ <= -44));
        lemma_val_le_not_lt(1, -44, dv, s);
        assert(abs_i(dec_mant(*d)) == dv);
    }
    -43 <= d.e && d.e <= 38
}

/// Whether the value is zero.
pub fn dec_is_zero(d: &Dec) -> (r: bool)
    requires
        dec_wf(*d),
    ensures
        r == (dec_mant(*d) == 0),
{
    proof {
        if d.digits@.len() > 0 {
            lemma_digits_val_bounds(d.digits@);
            lemma_pow10_pos((d.digits@.len() - 1) as nat);
        }
    }
    d.digits.len() == 0
}

/// Whether the value is strictly positive.
pub fn dec_is_pos(d: &Dec) -> (r: bool)
    requires
        dec_wf(*d),
    ensures
        r == (dec_mant(*d) > 0),
{
    proof {
        if d.digits@.len() > 0 {
            lemma_digits_val_bounds(d.digits@);
            lemma_pow10_pos((d.digits@.len() - 1) as nat);
        }
    }
    !d.neg && d.digits.len() > 0
}

} // verus!
