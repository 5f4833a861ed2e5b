//! What the comparison operators mean.

use crate::event::{CmpOp, FieldValue, Float, RuleValue};
use vstd::arithmetic::power2::{lemma_pow2_adds, lemma_pow2_pos, lemma_pow2_strictly_increases, pow2};
use vstd::prelude::*;

verus! {

/// On two integers each operator is the mathematical relation; the operators of
/// texts hold of none.
pub proof fn integers_compare_as_numbers(l: i64, r: i64)
    ensures
        ({
            let says = |op: CmpOp|
                FieldValue::Int(l).deep_view().satisfies(op, RuleValue::Int(r).deep_view());
            &&& says(CmpOp::Eq) <==> l as int == r as int
            &&& says(CmpOp::Ne) <==> l as int != r as int
            &&& says(CmpOp::Lt) <==> (l as int) < (r as int)
            &&& says(CmpOp::Gt) <==> (l as int) > (r as int)
            &&& says(CmpOp::Le) <==> l as int <= r as int
            &&& says(CmpOp::Ge) <==> l as int >= r as int
            &&& !says(CmpOp::Contains)
            &&& !says(CmpOp::StartsWith)
        }),
{
}

/// Texts are equal or not, hold or do not hold another text, start or do not start
/// with it; they have no order.
pub proof fn texts_compare_by_their_characters(l: String, r: String)
    ensures
        ({
            let says = |op: CmpOp|
                FieldValue::Str(l).deep_view().satisfies(op, RuleValue::Str(r).deep_view());
            &&& says(CmpOp::Eq) <==> l@ == r@
            &&& says(CmpOp::Ne) <==> l@ != r@
            &&& says(CmpOp::Contains) <==> exists|before: Seq<char>, after: Seq<char>|
                l@ == #[trigger] (before + r@ + after)
            &&& says(CmpOp::StartsWith) <==> exists|after: Seq<char>|
                l@ == #[trigger] (r@ + after)
            &&& !says(CmpOp::Lt)
            &&& !says(CmpOp::Gt)
            &&& !says(CmpOp::Le)
            &&& !says(CmpOp::Ge)
        }),
{
    let says = |op: CmpOp|
        FieldValue::Str(l).deep_view().satisfies(op, RuleValue::Str(r).deep_view());
    let (s, p) = (l@, r@);
    if says(CmpOp::Contains) {
        let i = choose|i: int|
            0 <= i <= s.len() - p.len() && #[trigger] s.subrange(i, i + p.len()) == p;
        let (before, after) = (s.take(i), s.skip(i + p.len()));
        assert(s =~= before + p + after);
    }
    if exists|before: Seq<char>, after: Seq<char>| s == #[trigger] (before + p + after) {
        let (before, after) = choose|before: Seq<char>, after: Seq<char>|
            s == #[trigger] (before + p + after);
        let i = before.len() as int;
        assert(s.subrange(i, i + p.len()) =~= p);
    }
    if says(CmpOp::StartsWith) {
        let after = s.skip(p.len() as int);
        assert(s =~= p + after);
    }
    if exists|after: Seq<char>| s == #[trigger] (p + after) {
        let after = choose|after: Seq<char>| s == #[trigger] (p + after);
        assert(s.take(p.len() as int) =~= p);
    }
}

/// Truth values are equal or not, and no more.
pub proof fn truth_values_are_equal_or_not(l: bool, r: bool)
    ensures
        ({
            let says = |op: CmpOp|
                FieldValue::Bool(l).deep_view().satisfies(op, RuleValue::Bool(r).deep_view());
            &&& says(CmpOp::Eq) <==> (l <==> r)
            &&& says(CmpOp::Ne) <==> (l <==> !r)
            &&& !says(CmpOp::Lt)
            &&& !says(CmpOp::Gt)
            &&& !says(CmpOp::Le)
            &&& !says(CmpOp::Ge)
            &&& !says(CmpOp::Contains)
            &&& !says(CmpOp::StartsWith)
        }),
{
}

/// The value of a finite number, in units of the least positive one: the fraction
/// and, but for the smallest numbers, the leading one, shifted by the exponent.
pub open spec fn units(bits: int) -> int {
    let sign = bits / 0x8000_0000_0000_0000;
    let exponent = (bits / 0x10_0000_0000_0000) % 0x800;
    let fraction = bits % 0x10_0000_0000_0000;
    let size = if exponent == 0 {
        fraction
    } else {
        (0x10_0000_0000_0000 + fraction) * pow2((exponent - 1) as nat)
    };
    if sign == 0 {
        size
    } else {
        -size
    }
}

/// All bits of the exponent are set, and some bit of the fraction.
pub open spec fn not_a_number(bits: int) -> bool {
    (bits / 0x10_0000_0000_0000) % 0x800 == 0x7ff && bits % 0x10_0000_0000_0000 != 0
}

/// The sizes of numbers grow with the bits below the sign.
proof fn sizes_grow(a: int, b: int)
    requires
        0 <= a < b < 0x8000_0000_0000_0000,
    ensures
        0 <= units(a) < units(b),
{
    let (ea, fa) = (a / 0x10_0000_0000_0000, a % 0x10_0000_0000_0000);
    let (eb, fb) = (b / 0x10_0000_0000_0000, b % 0x10_0000_0000_0000);
    assert(a / 0x8000_0000_0000_0000 == 0 && b / 0x8000_0000_0000_0000 == 0);
    assert(0 <= ea < 0x800 && 0 <= eb < 0x800);
    assert(ea % 0x800 == ea && eb % 0x800 == eb);
    assert(0x10_0000_0000_0000 * ea + fa < 0x10_0000_0000_0000 * eb + fb);
    let one = 0x10_0000_0000_0000int;
    if ea > 0 {
        lemma_pow2_pos((ea - 1) as nat);
        let pa = pow2((ea - 1) as nat) as int;
        assert(0 <= (one + fa) * pa) by (nonlinear_arith)
            requires
                fa >= 0,
                pa > 0,
                one > 0,
        ;
    }
    if ea == eb {
        assert(fa < fb);
        if ea > 0 {
            let p = pow2((ea - 1) as nat) as int;
            assert((one + fa) * p < (one + fb) * p) by (nonlinear_arith)
                requires
                    fa < fb,
                    p > 0,
            ;
        }
    } else {
        assert(ea < eb);
        let pb = pow2((eb - 1) as nat) as int;
        lemma_pow2_pos((eb - 1) as nat);
        assert(one * pb <= (one + fb) * pb) by (nonlinear_arith)
            requires
                fb >= 0,
                pb > 0,
        ;
        if ea == 0 {
            assert(one <= one * pb) by (nonlinear_arith)
                requires
                    pb >= 1,
                    one > 0,
            ;
        } else {
            let pa = pow2((ea - 1) as nat) as int;
            lemma_pow2_adds(1, (ea - 1) as nat);
            assert(pow2(1) == 2) by {
                vstd::arithmetic::power2::lemma2_to64();
            }
            if ea < eb - 1 {
                lemma_pow2_strictly_increases(ea as nat, (eb - 1) as nat);
            }
            assert(2 * pa <= pb);
            assert((one + fa) * pa < one * pb) by (nonlinear_arith)
                requires
                    fa < one,
                    0 < pa,
                    2 * pa <= pb,
                    one > 0,
            ;
        }
    }
}

/// On two floating-point numbers each operator is the relation of their values,
/// the two zeros being one; what is not a number is unequal to all, and has no
/// order. An infinity counts as what its bits would be worth.
pub proof fn floats_compare_by_value(l: u64, r: u64)
    ensures
        ({
            let says = |op: CmpOp|
                FieldValue::Float(Float { bits: l }).deep_view().satisfies(
                    op,
                    RuleValue::Float(Float { bits: r }).deep_view(),
                );
            let (a, b) = (units(l as int), units(r as int));
            let numbers = !not_a_number(l as int) && !not_a_number(r as int);
            &&& says(CmpOp::Eq) <==> numbers && a == b
            &&& says(CmpOp::Ne) <==> !(numbers && a == b)
            &&& says(CmpOp::Lt) <==> numbers && a < b
            &&& says(CmpOp::Gt) <==> numbers && a > b
            &&& says(CmpOp::Le) <==> numbers && a <= b
            &&& says(CmpOp::Ge) <==> numbers && a >= b
            &&& !says(CmpOp::Contains)
            &&& !says(CmpOp::StartsWith)
        }),
{
    let (x, y) = (Float { bits: l }, Float { bits: r });
    let (m, n) = (x.magnitude(), y.magnitude());
    assert(x.is_nan() == not_a_number(l as int)) by {
        nan_by_parts(l);
    }
    assert(y.is_nan() == not_a_number(r as int)) by {
        nan_by_parts(r);
    }
    sign_and_size(l);
    sign_and_size(r);
    assert(units(0) == 0);
    if m < n {
        sizes_grow(m, n);
    }
    if n < m {
        sizes_grow(n, m);
    }
    if 0 < m {
        sizes_grow(0, m);
    }
    if 0 < n {
        sizes_grow(0, n);
    }
}

proof fn nan_by_parts(bits: u64)
    ensures
        (Float { bits }).is_nan() == not_a_number(bits as int),
{
}

/// The sign bit negates.
proof fn sign_and_size(bits: u64)
    ensures
        units(bits as int) == if bits >= 0x8000_0000_0000_0000 {
            -units((Float { bits }).magnitude())
        } else {
            units((Float { bits }).magnitude())
        },
{
    let b = bits as int;
    if b >= 0x8000_0000_0000_0000 {
        let m = b - 0x8000_0000_0000_0000;
        assert(b / 0x10_0000_0000_0000 == m / 0x10_0000_0000_0000 + 0x800);
        assert(b % 0x10_0000_0000_0000 == m % 0x10_0000_0000_0000);
        assert((m / 0x10_0000_0000_0000 + 0x800) % 0x800 == (m / 0x10_0000_0000_0000) % 0x800);
    }
}

/// `!=` holds exactly where `==` does not, of values of one type.
pub proof fn unequal_is_not_equal(field: FieldValue, literal: RuleValue)
    requires
        match (field, literal) {
            (FieldValue::Int(_), RuleValue::Int(_)) => true,
            (FieldValue::Float(_), RuleValue::Float(_)) => true,
            (FieldValue::Str(_), RuleValue::Str(_)) => true,
            (FieldValue::Bool(_), RuleValue::Bool(_)) => true,
            _ => false,
        },
    ensures
        field.deep_view().satisfies(CmpOp::Ne, literal.deep_view()) <==> !field.deep_view().satisfies(
            CmpOp::Eq,
            literal.deep_view(),
        ),
{
}

/// A literal of another type than the field satisfies no operator, whatever the
/// two values.
pub proof fn other_types_satisfy_nothing(field: FieldValue, literal: RuleValue, op: CmpOp)
    requires
        match (field, literal) {
            (FieldValue::Int(_), RuleValue::Int(_)) => false,
            (FieldValue::Float(_), RuleValue::Float(_)) => false,
            (FieldValue::Str(_), RuleValue::Str(_)) => false,
            (FieldValue::Bool(_), RuleValue::Bool(_)) => false,
            _ => true,
        },
    ensures
        !field.deep_view().satisfies(op, literal.deep_view()),
{
}

} // verus!
