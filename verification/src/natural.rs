//! Natural numbers of any size, as little-endian sequences of 16-bit digits.
//! They hold the exact sums of fractions that the prisoner's dilemma needs.
use vstd::prelude::*;

verus! {

/// The radix of the digits.
pub open spec fn radix() -> nat {
    65536
}

/// `radix()` to the power `k`.
pub open spec fn radix_pow(k: nat) -> nat
    decreases k,
{
    if k == 0 {
        1
    } else {
        radix() * radix_pow((k - 1) as nat)
    }
}

/// The number that little-endian digits `s` stand for.
pub open spec fn digits_value(s: Seq<u32>) -> nat
    decreases s.len(),
{
    if s.len() == 0 {
        0
    } else {
        digits_value(s.drop_last()) + radix_pow((s.len() - 1) as nat) * (s.last() as nat)
    }
}

/// Every digit is below the radix.
pub open spec fn digits_valid(s: Seq<u32>) -> bool {
    forall|i: int| 0 <= i < s.len() ==> #[trigger] s[i] < radix()
}

/// A natural number.
#[derive(Debug)]
pub struct Natural {
    digits: Vec<u32>,
}

impl Natural {
    /// The number.
    pub closed spec fn value(&self) -> nat {
        digits_value(self.digits@)
    }

    /// The digits are in range.
    pub closed spec fn wf(&self) -> bool {
        digits_valid(self.digits@)
    }
}

proof fn lemma_radix_pow_positive(k: nat)
    ensures
        radix_pow(k) >= 1,
    decreases k,
{
    if k > 0 {
        lemma_radix_pow_positive((k - 1) as nat);
    }
}

proof fn lemma_radix_pow_adds(a: nat, b: nat)
    ensures
        radix_pow(a + b) == radix_pow(a) * radix_pow(b),
    decreases a,
{
    if a > 0 {
        lemma_radix_pow_adds((a - 1) as nat, b);
        let pa = radix_pow((a - 1) as nat);
        let pb = radix_pow(b);
        let pab = radix_pow((a - 1 + b) as nat);
        assert(pab == pa * pb);
        assert(radix_pow(a) == radix() * pa);
        assert((a + b - 1) as nat == (a - 1 + b) as nat);
        assert(radix_pow(a + b) == radix() * pab);
        assert(radix() * (pa * pb) == (radix() * pa) * pb) by (nonlinear_arith);
    } else {
        assert(radix_pow(0) == 1);
        assert(a + b == b);
    }
}

proof fn lemma_value_push(s: Seq<u32>, x: u32)
    ensures
        digits_value(s.push(x)) == digits_value(s) + radix_pow(s.len()) * x,
{
    assert(s.push(x).drop_last() =~= s);
}

proof fn lemma_value_bound(s: Seq<u32>)
    requires
        digits_valid(s),
    ensures
        digits_value(s) < radix_pow(s.len()),
    decreases s.len(),
{
    if s.len() > 0 {
        let d = s.drop_last();
        lemma_value_bound(d);
        let p = radix_pow(d.len());
        let v = digits_value(d);
        let x = s.last();
        assert(x < radix());
        assert(v + p * x < p * radix()) by (nonlinear_arith)
            requires
                v < p,
                x < radix(),
                x >= 0,
        ;
        assert(radix_pow(s.len()) == radix() * p);
    }
}

proof fn lemma_value_split(s: Seq<u32>, i: int)
    requires
        0 <= i <= s.len(),
    ensures
        digits_value(s) == digits_value(s.take(i)) + radix_pow(i as nat) * digits_value(s.skip(i)),
    decreases s.len(),
{
    if i == s.len() {
        assert(s.take(i) =~= s);
        assert(s.skip(i).len() == 0);
        assert(digits_value(s.skip(i)) == 0);
        assert(radix_pow(i as nat) * 0 == 0);
    } else {
        let d = s.drop_last();
        lemma_value_split(d, i);
        assert(d.take(i) =~= s.take(i));
        assert(s.skip(i).drop_last() =~= d.skip(i));
        let n = s.len();
        lemma_radix_pow_adds(i as nat, (n - 1 - i) as nat);
        let pi = radix_pow(i as nat);
        let pr = radix_pow((n - 1 - i) as nat);
        let vt = digits_value(d.skip(i));
        let x = s.last() as nat;
        assert(s.skip(i).len() == n - i);
        assert(s.skip(i).last() == s.last());
        assert(digits_value(s.skip(i)) == vt + pr * x);
        assert(digits_value(s) == digits_value(d) + radix_pow((n - 1) as nat) * x);
        assert(radix_pow((n - 1) as nat) == pi * pr);
        assert(pi * (vt + pr * x) == pi * vt + (pi * pr) * x) by (nonlinear_arith);
        assert(digits_value(d) == digits_value(s.take(i)) + pi * vt);
        assert(digits_value(s) == digits_value(s.take(i)) + pi * vt + (pi * pr) * x);
    }
}

proof fn lemma_value_zeros(s: Seq<u32>, n: nat)
    ensures
        digits_value(s + Seq::new(n, |i: int| 0u32)) == digits_value(s),
    decreases n,
{
    if n > 0 {
        let z = Seq::new(n, |i: int| 0u32);
        let z1 = Seq::new((n - 1) as nat, |i: int| 0u32);
        lemma_value_zeros(s, (n - 1) as nat);
        assert((s + z).drop_last() =~= s + z1);
        assert((s + z).last() == 0u32);
        assert(radix_pow(((s + z).len() - 1) as nat) * 0 == 0);
    } else {
        assert(s + Seq::new(n, |i: int| 0u32) =~= s);
    }
}

impl Natural {
    /// The number `k`.
    pub fn from_u128(k: u128) -> (r: Natural)
        ensures
            r.wf(),
            r.value() == k,
    {
        let mut digits: Vec<u32> = Vec::new();
        let mut rest = k;
        proof {
            assert(digits_value(digits@) == 0);
            assert(radix_pow(0) == 1);
        }
        while rest > 0
            invariant
                digits_valid(digits@),
                digits_value(digits@) + radix_pow(digits@.len()) * rest == k,
            decreases rest,
        {
            let ghost before = digits@;
            let d = (rest % 65536) as u32;
            let q = rest / 65536;
            digits.push(d);
            proof {
                lemma_value_push(before, d);
                let p = radix_pow(before.len());
                assert(radix_pow(digits@.len()) == radix() * p);
                assert(rest == d + 65536 * q);
                assert(p * rest == p * d + (65536 * p) * q) by (nonlinear_arith)
                    requires
                        rest == d + 65536 * q,
                ;
            }
            rest = q;
        }
        Natural { digits }
    }

    /// `self` times `k`.
    pub fn mul_small(&self, k: u128) -> (r: Natural)
        requires
            self.wf(),
            k < 0x10_0000_0000_0000_0000_0000_0000,
        ensures
            r.wf(),
            r.value() == self.value() * k,
    {
        let x = &self.digits;
        let mut digits: Vec<u32> = Vec::new();
        let mut carry: u128 = 0;
        proof {
            assert(radix_pow(0) == 1);
            assert(x@.take(0).len() == 0);
            assert(digits_value(x@.take(0)) == 0);
            assert(digits_value(x@.take(0)) * k == 0);
            assert(digits_value(digits@) == 0);
        }
        for i in 0..x.len()
            invariant
                digits_valid(x@),
                k < 0x10_0000_0000_0000_0000_0000_0000,
                digits@.len() == i,
                digits_valid(digits@),
                carry < k || (carry == 0 && k == 0),
                digits_value(digits@) + radix_pow(i as nat) * carry == digits_value(x@.take(i as int)) * k,
        {
            let ghost before = digits@;
            let xi = x[i] as u128;
            proof {
                assert(x@[i as int] < radix());
                assert(xi * k <= 65535 * k) by (nonlinear_arith)
                    requires
                        xi <= 65535,
                ;
            }
            let t = xi * k + carry;
            let d = (t % 65536) as u32;
            let q = t / 65536;
            digits.push(d);
            proof {
                lemma_value_push(before, d);
                assert(x@.take(i + 1).drop_last() =~= x@.take(i as int));
                let p = radix_pow(i as nat);
                assert(radix_pow((i + 1) as nat) == radix() * p);
                assert(t == d + 65536 * q);
                assert(p * t == p * d + (65536 * p) * q) by (nonlinear_arith)
                    requires
                        t == d + 65536 * q,
                ;
                assert(p * t == p * carry + (p * xi) * k) by (nonlinear_arith)
                    requires
                        t == xi * k + carry,
                ;
                assert(digits_value(x@.take(i + 1)) * k == digits_value(x@.take(i as int)) * k + (p * xi)
                    * k) by (nonlinear_arith)
                    requires
                        digits_value(x@.take(i + 1)) == digits_value(x@.take(i as int)) + p * xi,
                ;
                assert(q < k || (q == 0 && k == 0)) by (nonlinear_arith)
                    requires
                        t == xi * k + carry,
                        xi <= 65535,
                        carry < k || (carry == 0 && k == 0),
                        q == t / 65536,
                ;
            }
            carry = q;
        }
        proof {
            assert(x@.take(x@.len() as int) =~= x@);
        }
        while carry > 0
            invariant
                digits_valid(digits@),
                digits_value(digits@) + radix_pow(digits@.len()) * carry == digits_value(x@) * k,
            decreases carry,
        {
            let ghost before = digits@;
            let d = (carry % 65536) as u32;
            let q = carry / 65536;
            digits.push(d);
            proof {
                lemma_value_push(before, d);
                let p = radix_pow(before.len());
                assert(radix_pow(digits@.len()) == radix() * p);
                assert(carry == d + 65536 * q);
                assert(p * carry == p * d + (65536 * p) * q) by (nonlinear_arith)
                    requires
                        carry == d + 65536 * q,
                ;
            }
            carry = q;
        }
        Natural { digits }
    }

    /// A copy of the digits, padded with zeros to length `n`.
    fn padded(&self, n: usize) -> (v: Vec<u32>)
        requires
            self.wf(),
            self.digits@.len() <= n,
        ensures
            v@.len() == n,
            digits_valid(v@),
            digits_value(v@) == self.value(),
    {
        let mut v: Vec<u32> = Vec::new();
        for i in 0..self.digits.len()
            invariant
                digits_valid(self.digits@),
                v@ == self.digits@.take(i as int),
        {
            v.push(self.digits[i]);
            proof {
                assert(v@ =~= self.digits@.take(i + 1));
            }
        }
        proof {
            assert(v@ =~= self.digits@);
        }
        let ghost base = v@;
        while v.len() < n
            invariant
                base == self.digits@,
                digits_valid(base),
                v@.len() <= n,
                v@.len() >= base.len(),
                v@ == base + Seq::new((v@.len() - base.len()) as nat, |i: int| 0u32),
            decreases n - v@.len(),
        {
            v.push(0);
            proof {
                assert(v@ =~= base + Seq::new((v@.len() - base.len()) as nat, |i: int| 0u32));
            }
        }
        proof {
            lemma_value_zeros(base, (v@.len() - base.len()) as nat);
        }
        v
    }

    /// `self` plus `other`.
    pub fn add(&self, other: &Natural) -> (r: Natural)
        requires
            self.wf(),
            other.wf(),
        ensures
            r.wf(),
            r.value() == self.value() + other.value(),
    {
        let n = if self.digits.len() >= other.digits.len() {
            self.digits.len()
        } else {
            other.digits.len()
        };
        let x = self.padded(n);
        let y = other.padded(n);
        let mut digits: Vec<u32> = Vec::new();
        let mut carry: u32 = 0;
        proof {
            assert(radix_pow(0) == 1);
            assert(x@.take(0).len() == 0);
            assert(y@.take(0).len() == 0);
            assert(digits_value(x@.take(0)) == 0);
            assert(digits_value(y@.take(0)) == 0);
        }
        for i in 0..n
            invariant
                x@.len() == n,
                y@.len() == n,
                digits_valid(x@),
                digits_valid(y@),
                digits@.len() == i,
                digits_valid(digits@),
                carry <= 1,
                digits_value(digits@) + radix_pow(i as nat) * carry == digits_value(x@.take(i as int))
                    + digits_value(y@.take(i as int)),
        {
            let ghost before = digits@;
            proof {
                assert(x@[i as int] < radix());
                assert(y@[i as int] < radix());
            }
            let t = x[i] + y[i] + carry;
            let d = t % 65536;
            let q = t / 65536;
            digits.push(d);
            proof {
                lemma_value_push(before, d);
                assert(x@.take(i + 1).drop_last() =~= x@.take(i as int));
                assert(y@.take(i + 1).drop_last() =~= y@.take(i as int));
                let p = radix_pow(i as nat);
                assert(radix_pow((i + 1) as nat) == radix() * p);
                assert(t == d + 65536 * q);
                assert(p * t == p * d + (65536 * p) * q) by (nonlinear_arith)
                    requires
                        t == d + 65536 * q,
                ;
                assert(p * t == p * carry + p * x@[i as int] + p * y@[i as int]) by (nonlinear_arith)
                    requires
                        t == x@[i as int] + y@[i as int] + carry,
                ;
            }
            carry = q;
        }
        proof {
            assert(x@.take(n as int) =~= x@);
            assert(y@.take(n as int) =~= y@);
        }
        if carry > 0 {
            let ghost before = digits@;
            digits.push(carry);
            proof {
                lemma_value_push(before, carry);
            }
        }
        Natural { digits }
    }

    /// Whether `self` is at least `other`.
    pub fn ge(&self, other: &Natural) -> (r: bool)
        requires
            self.wf(),
            other.wf(),
        ensures
            r == (self.value() >= other.value()),
    {
        let n = if self.digits.len() >= other.digits.len() {
            self.digits.len()
        } else {
            other.digits.len()
        };
        let x = self.padded(n);
        let y = other.padded(n);
        let mut i = n;
        proof {
            assert(x@.skip(n as int) =~= y@.skip(n as int));
        }
        while i > 0 && x[i - 1] == y[i - 1]
            invariant
                x@.len() == n,
                y@.len() == n,
                i <= n,
                x@.skip(i as int) == y@.skip(i as int),
            decreases i,
        {
            proof {
                assert(x@.skip(i - 1) =~= seq![x@[i - 1]] + x@.skip(i as int));
                assert(y@.skip(i - 1) =~= seq![y@[i - 1]] + y@.skip(i as int));
            }
            i = i - 1;
        }
        proof {
            lemma_value_split(x@, i as int);
            lemma_value_split(y@, i as int);
        }
        if i == 0 {
            proof {
                assert(x@.take(0).len() == 0);
                assert(y@.take(0).len() == 0);
            }
            return true;
        }
        let r = x[i - 1] > y[i - 1];
        proof {
            let tx = x@.take(i as int);
            let ty = y@.take(i as int);
            assert(tx.drop_last() =~= x@.take(i - 1));
            assert(ty.drop_last() =~= y@.take(i - 1));
            assert(digits_valid(x@.take(i - 1)));
            assert(digits_valid(y@.take(i - 1)));
            lemma_value_bound(x@.take(i - 1));
            lemma_value_bound(y@.take(i - 1));
            let p = radix_pow((i - 1) as nat);
            let vx = digits_value(x@.take(i - 1));
            let vy = digits_value(y@.take(i - 1));
            let a = x@[i - 1];
            let b = y@[i - 1];
            assert(digits_value(tx) == vx + p * a);
            assert(digits_value(ty) == vy + p * b);
            if a > b {
                assert(vx + p * a > vy + p * b) by (nonlinear_arith)
                    requires
                        vy < p,
                        vx >= 0,
                        a >= b + 1,
                ;
            } else {
                assert(vx + p * a < vy + p * b) by (nonlinear_arith)
                    requires
                        vx < p,
                        vy >= 0,
                        b >= a + 1,
                ;
            }
            let top = digits_value(x@.skip(i as int));
            let q = radix_pow(i as nat);
            assert(digits_value(y@.skip(i as int)) == top);
        }
        r
    }
}

} // verus!
