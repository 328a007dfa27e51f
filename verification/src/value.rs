use vstd::prelude::*;

verus! {

/// An exact rational number in sign-magnitude form: the value is
/// `num / den`, negated when `neg` is set.
///
/// Values are not reduced to lowest terms; the denominator is always
/// positive and zero always carries a positive sign, so a value is zero
/// exactly when `num` is zero.
#[derive(Clone, Copy, Debug, PartialEq, Eq, Structural)]
pub struct Value {
    pub neg: bool,
    pub num: u128,
    pub den: u128,
}

/// Negation: flip the sign of a non-zero value; zero is unchanged.
pub open spec fn spec_neg(a: Value) -> Value {
    if a.num == 0 {
        a
    } else {
        Value { neg: !a.neg, num: a.num, den: a.den }
    }
}

/// The sum `a + b`, over the common denominator `a.den * b.den`, or
/// `None` when a numerator or denominator leaves `u128`.
pub open spec fn spec_add(a: Value, b: Value) -> Option<Value> {
    let ta = a.num * b.den;
    let tb = b.num * a.den;
    let d = a.den * b.den;
    if ta > u128::MAX || tb > u128::MAX || d > u128::MAX {
        None
    } else if a.neg == b.neg {
        if ta + tb > u128::MAX {
            None
        } else {
            Some(
                Value {
                    neg: if ta + tb == 0 { false } else { a.neg },
                    num: (ta + tb) as u128,
                    den: d as u128,
                },
            )
        }
    } else if ta >= tb {
        Some(
            Value {
                neg: if ta == tb { false } else { a.neg },
                num: (ta - tb) as u128,
                den: d as u128,
            },
        )
    } else {
        Some(Value { neg: b.neg, num: (tb - ta) as u128, den: d as u128 })
    }
}

/// The difference `a - b`, as `a + (-b)`.
pub open spec fn spec_sub(a: Value, b: Value) -> Option<Value> {
    spec_add(a, spec_neg(b))
}

/// The product `a * b`, or `None` when it leaves `u128`.
pub open spec fn spec_mul(a: Value, b: Value) -> Option<Value> {
    let n = a.num * b.num;
    let d = a.den * b.den;
    if n > u128::MAX || d > u128::MAX {
        None
    } else {
        Some(
            Value {
                neg: if n == 0 { false } else { a.neg != b.neg },
                num: n as u128,
                den: d as u128,
            },
        )
    }
}

/// The quotient `a / b`, meaningful only for `b` non-zero, or `None`
/// when a numerator or denominator leaves `u128`.
pub open spec fn spec_div(a: Value, b: Value) -> Option<Value>
    recommends
        b.num != 0,
{
    let n = a.num * b.den;
    let d = a.den * b.num;
    if n > u128::MAX || d > u128::MAX {
        None
    } else {
        Some(
            Value {
                neg: if n == 0 { false } else { a.neg != b.neg },
                num: n as u128,
                den: d as u128,
            },
        )
    }
}

/// The remainder `a % b` for `b` non-zero: `a - b * t`, where
/// `t = trunc(a / b)` is the quotient rounded toward zero.  The sign of a
/// non-zero remainder follows the dividend.  `None` when an intermediate
/// product leaves `u128`.
pub open spec fn spec_rem(a: Value, b: Value) -> Option<Value>
    recommends
        b.num != 0,
{
    let x = a.num * b.den;
    let y = a.den * b.num;
    if x > u128::MAX || y > u128::MAX {
        None
    } else {
        let q = x / y;
        let bt_num = b.num * q;
        if bt_num > u128::MAX {
            None
        } else {
            let bt = Value {
                neg: if bt_num == 0 { false } else { a.neg },
                num: bt_num as u128,
                den: b.den,
            };
            spec_sub(a, bt)
        }
    }
}

impl Value {
    /// Well-formed: positive denominator, and zero carries no sign.
    pub open spec fn wf(self) -> bool {
        &&& self.den >= 1
        &&& self.num == 0 ==> !self.neg
    }

    /// The signed numerator, as a mathematical integer.  A well-formed
    /// value denotes the rational number `self.ival() / self.den`.
    pub open spec fn ival(self) -> int {
        if self.neg {
            -(self.num as int)
        } else {
            self.num as int
        }
    }

    /// Negate this value.
    pub fn negate(self) -> (r: Value)
        requires
            self.wf(),
        ensures
            r == spec_neg(self),
            r.wf(),
    {
        if self.num == 0 {
            self
        } else {
            Value { neg: !self.neg, num: self.num, den: self.den }
        }
    }

    /// Add `b` to this value; `None` reports overflow of the `u128`
    /// representation.
    pub fn add(self, b: Value) -> (r: Option<Value>)
        requires
            self.wf(),
            b.wf(),
        ensures
            r == spec_add(self, b),
            r matches Some(v) ==> v.wf(),
    {
        let ta = match self.num.checked_mul(b.den) {
            Some(x) => x,
            None => return None,
        };
        let tb = match b.num.checked_mul(self.den) {
            Some(x) => x,
            None => return None,
        };
        let d = match self.den.checked_mul(b.den) {
            Some(x) => x,
            None => return None,
        };
        proof {
            assert(self.den as int * b.den as int >= 1) by (nonlinear_arith)
                requires
                    self.den >= 1,
                    b.den >= 1,
            ;
        }
        if self.neg == b.neg {
            let n = match ta.checked_add(tb) {
                Some(x) => x,
                None => return None,
            };
            Some(Value { neg: if n == 0 { false } else { self.neg }, num: n, den: d })
        } else if ta >= tb {
            Some(Value { neg: if ta == tb { false } else { self.neg }, num: ta - tb, den: d })
        } else {
            Some(Value { neg: b.neg, num: tb - ta, den: d })
        }
    }

    /// Subtract `b` from this value; `None` reports overflow.
    pub fn sub(self, b: Value) -> (r: Option<Value>)
        requires
            self.wf(),
            b.wf(),
        ensures
            r == spec_sub(self, b),
            r matches Some(v) ==> v.wf(),
    {
        self.add(b.negate())
    }

    /// Multiply this value by `b`; `None` reports overflow.
    pub fn mul(self, b: Value) -> (r: Option<Value>)
        requires
            self.wf(),
            b.wf(),
        ensures
            r == spec_mul(self, b),
            r matches Some(v) ==> v.wf(),
    {
        let n = match self.num.checked_mul(b.num) {
            Some(x) => x,
            None => return None,
        };
        let d = match self.den.checked_mul(b.den) {
            Some(x) => x,
            None => return None,
        };
        proof {
            assert(self.den as int * b.den as int >= 1) by (nonlinear_arith)
                requires
                    self.den >= 1,
                    b.den >= 1,
            ;
        }
        Some(Value { neg: if n == 0 { false } else { self.neg != b.neg }, num: n, den: d })
    }

    /// Divide this value by the non-zero value `b`; `None` reports
    /// overflow.
    pub fn div(self, b: Value) -> (r: Option<Value>)
        requires
            self.wf(),
            b.wf(),
            b.num != 0,
        ensures
            r == spec_div(self, b),
            r matches Some(v) ==> v.wf(),
    {
        let n = match self.num.checked_mul(b.den) {
            Some(x) => x,
            None => return None,
        };
        let d = match self.den.checked_mul(b.num) {
            Some(x) => x,
            None => return None,
        };
        proof {
            assert(self.den as int * b.num as int >= 1) by (nonlinear_arith)
                requires
                    self.den >= 1,
                    b.num >= 1,
            ;
        }
        Some(Value { neg: if n == 0 { false } else { self.neg != b.neg }, num: n, den: d })
    }

    /// The remainder of this value divided by the non-zero value `b`;
    /// `None` reports overflow.
    pub fn rem(self, b: Value) -> (r: Option<Value>)
        requires
            self.wf(),
            b.wf(),
            b.num != 0,
        ensures
            r == spec_rem(self, b),
            r matches Some(v) ==> v.wf(),
    {
        let x = match self.num.checked_mul(b.den) {
            Some(v) => v,
            None => return None,
        };
        let y = match self.den.checked_mul(b.num) {
            Some(v) => v,
            None => return None,
        };
        proof {
            assert(self.den as int * b.num as int >= 1) by (nonlinear_arith)
                requires
                    self.den >= 1,
                    b.num >= 1,
            ;
        }
        let q = x / y;
        let bt_num = match b.num.checked_mul(q) {
            Some(v) => v,
            None => return None,
        };
        let bt = Value { neg: if bt_num == 0 { false } else { self.neg }, num: bt_num, den: b.den };
        self.sub(bt)
    }
}

/// The integer `mag` under the sign `neg`.
pub open spec fn signed(neg: bool, mag: int) -> int {
    if neg {
        -mag
    } else {
        mag
    }
}

pub proof fn lemma_signed_mul(n1: bool, m1: int, n2: bool, m2: int)
    ensures
        signed(n1, m1) * signed(n2, m2) == signed(n1 != n2, m1 * m2),
{
    assert((-m1) * m2 == -(m1 * m2)) by (nonlinear_arith);
    assert(m1 * (-m2) == -(m1 * m2)) by (nonlinear_arith);
    assert((-m1) * (-m2) == m1 * m2) by (nonlinear_arith);
}

pub proof fn lemma_signed_scale(n: bool, m: int, k: int)
    ensures
        signed(n, m) * k == signed(n, m * k),
{
    assert((-m) * k == -(m * k)) by (nonlinear_arith);
}

/// Negation is exact: it flips the sign of the denoted rational and
/// keeps the denominator.
pub proof fn lemma_neg_exact(a: Value)
    requires
        a.wf(),
    ensures
        spec_neg(a).wf(),
        spec_neg(a).den == a.den,
        spec_neg(a).ival() == -a.ival(),
{
}

/// Negating a value twice gives back the value itself.
pub proof fn lemma_neg_involutive(a: Value)
    requires
        a.wf(),
    ensures
        spec_neg(spec_neg(a)) == a,
{
}

/// Addition is exact: over the common denominator `a.den * b.den`, the
/// sum's numerator is the sum of the scaled signed numerators.
pub proof fn lemma_add_exact(a: Value, b: Value, c: Value)
    requires
        a.wf(),
        b.wf(),
        spec_add(a, b) == Some(c),
    ensures
        c.den == a.den * b.den,
        c.ival() == a.ival() * b.den + b.ival() * a.den,
{
    let ta = a.num * b.den;
    let tb = b.num * a.den;
    assert(ta >= 0 && tb >= 0) by (nonlinear_arith)
        requires
            a.num >= 0,
            b.num >= 0,
            a.den >= 0,
            b.den >= 0,
            ta == a.num * b.den,
            tb == b.num * a.den,
    ;
    assert(a.ival() == signed(a.neg, a.num as int));
    assert(b.ival() == signed(b.neg, b.num as int));
    lemma_signed_scale(a.neg, a.num as int, b.den as int);
    lemma_signed_scale(b.neg, b.num as int, a.den as int);
    assert(a.ival() * b.den == signed(a.neg, ta));
    assert(b.ival() * a.den == signed(b.neg, tb));
    assert(c.ival() == signed(c.neg, c.num as int));
}

/// Subtraction is exact, as addition of the negated value.
pub proof fn lemma_sub_exact(a: Value, b: Value, c: Value)
    requires
        a.wf(),
        b.wf(),
        spec_sub(a, b) == Some(c),
    ensures
        c.den == a.den * b.den,
        c.ival() == a.ival() * b.den - b.ival() * a.den,
{
    lemma_neg_exact(b);
    lemma_add_exact(a, spec_neg(b), c);
    assert((-b.ival()) * a.den == -(b.ival() * (a.den as int))) by (nonlinear_arith);
}

/// Multiplication is exact: numerators multiply and denominators
/// multiply.
pub proof fn lemma_mul_exact(a: Value, b: Value, c: Value)
    requires
        a.wf(),
        b.wf(),
        spec_mul(a, b) == Some(c),
    ensures
        c.den == a.den * b.den,
        c.ival() == a.ival() * b.ival(),
{
    lemma_signed_mul(a.neg, a.num as int, b.neg, b.num as int);
    assert(c.ival() == signed(a.neg != b.neg, (a.num * b.num) as int));
}

/// Division is exact: the quotient `c` satisfies `c * b == a` as
/// rationals, stated with denominators cross-multiplied.
pub proof fn lemma_div_exact(a: Value, b: Value, c: Value)
    requires
        a.wf(),
        b.wf(),
        b.num != 0,
        spec_div(a, b) == Some(c),
    ensures
        c.den == a.den * b.num,
        c.ival() * b.ival() * a.den == a.ival() * (c.den * b.den),
{
    let n = a.num * b.den;
    assert(c.ival() == signed(a.neg != b.neg, n));
    lemma_signed_mul(a.neg != b.neg, n, b.neg, b.num as int);
    assert(c.ival() * b.ival() == signed(a.neg, n * b.num));
    lemma_signed_scale(a.neg, n * b.num, a.den as int);
    lemma_signed_scale(a.neg, a.num as int, (a.den * b.num) * b.den);
    assert((a.num * b.den) * b.num * a.den == a.num * ((a.den * b.num) * b.den)) by (nonlinear_arith);
}

/// The integer quotient of `a` by `b`, rounded toward zero.
pub open spec fn trunc_div(a: Value, b: Value) -> int
    recommends
        a.wf(),
        b.wf(),
        b.num != 0,
{
    let q = (a.num * b.den) / (a.den * b.num);
    signed(a.neg != b.neg, q)
}

/// The remainder is exact: `c == a - b * t` as rationals, where `t` is
/// the quotient of `a` by `b` rounded toward zero, stated over the
/// common denominator `a.den * b.den`.
pub proof fn lemma_rem_exact(a: Value, b: Value, c: Value)
    requires
        a.wf(),
        b.wf(),
        b.num != 0,
        spec_rem(a, b) == Some(c),
    ensures
        c.den == a.den * b.den,
        c.ival() == a.ival() * b.den - b.ival() * trunc_div(a, b) * a.den,
{
    let q = (a.num * b.den) / (a.den * b.num);
    let bt_num = b.num * q;
    let bt = Value {
        neg: if bt_num == 0 { false } else { a.neg },
        num: bt_num as u128,
        den: b.den,
    };
    assert((a.num * b.den) >= 0 && (a.den * b.num) >= 1) by (nonlinear_arith)
        requires
            a.num >= 0,
            b.den >= 0,
            a.den >= 1,
            b.num >= 1,
    ;
    assert(q >= 0) by (nonlinear_arith)
        requires
            q == (a.num * b.den) / (a.den * b.num),
            (a.num * b.den) >= 0,
            (a.den * b.num) >= 1,
    ;
    assert(bt_num >= 0) by (nonlinear_arith)
        requires
            b.num >= 0,
            q >= 0,
            bt_num == b.num * q,
    ;
    assert(bt.wf());
    lemma_sub_exact(a, bt, c);
    assert(bt.ival() == signed(a.neg, bt_num));
    lemma_signed_mul(b.neg, b.num as int, a.neg != b.neg, q);
    assert(b.ival() * trunc_div(a, b) == signed(a.neg, bt_num));
    lemma_signed_scale(a.neg, bt_num, a.den as int);
}

} // verus!
