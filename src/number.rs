use vstd::prelude::*;

verus! {

/// A decimal number `(-1)^negative * mantissa / 10^scale`, kept in lowest
/// terms: no trailing zero digit after the point and no negative zero, so
/// that two numbers are equal exactly when their values are.
#[derive(PartialEq, Eq, Structural, Debug, Clone, Copy)]
pub struct Number {
    pub negative: bool,
    pub mantissa: u64,
    pub scale: usize,
}

/// `(m, s)` with trailing zero digits after the point removed.
pub open spec fn normalize(m: nat, s: nat) -> (nat, nat)
    decreases s,
{
    if s > 0 && m % 10 == 0 {
        normalize(m / 10, (s - 1) as nat)
    } else {
        (m, s)
    }
}

impl Number {
    pub open spec fn wf(self) -> bool {
        &&& (self.scale == 0 || self.mantissa % 10 != 0)
        &&& (self.mantissa == 0 ==> !self.negative)
    }

    /// The number written by the digits of `m` with the last `s` of them
    /// after the decimal point.
    pub open spec fn decimal(m: nat, s: nat) -> Number {
        Number {
            negative: false,
            mantissa: normalize(m, s).0 as u64,
            scale: normalize(m, s).1 as usize,
        }
    }

    /// The whole number `n`, negated where `negative` holds.
    pub open spec fn whole(negative: bool, n: u64) -> Number {
        Number { negative: negative && n != 0, mantissa: n, scale: 0 }
    }

    pub fn integer(negative: bool, n: u64) -> (r: Number)
        ensures
            r == Number::whole(negative, n),
            r.wf(),
    {
        Number { negative: negative && n != 0, mantissa: n, scale: 0 }
    }

    /// The number with `scale` digits of `mantissa` after the point, in
    /// lowest terms.
    pub fn from_decimal(mantissa: u64, scale: usize) -> (r: Number)
        ensures
            r == Number::decimal(mantissa as nat, scale as nat),
            r.wf(),
    {
        let mut m: u64 = mantissa;
        let mut s: usize = scale;
        while s > 0 && m % 10 == 0
            invariant
                normalize(m as nat, s as nat) == normalize(mantissa as nat, scale as nat),
            decreases s,
        {
            m = m / 10;
            s = s - 1;
        }
        proof {
            lemma_normalize_done(m as nat, s as nat);
        }
        Number { negative: false, mantissa: m, scale: s }
    }
}

proof fn lemma_normalize_done(m: nat, s: nat)
    requires
        !(s > 0 && m % 10 == 0),
    ensures
        normalize(m, s) == (m, s),
        s == 0 || m % 10 != 0,
        m == 0 ==> s == 0,
{
}

} // verus!
