//! Prime field arithmetic with modulus `1 + 407 * 2^119`.

use vstd::arithmetic::div_mod::*;
use vstd::arithmetic::power::*;
use vstd::prelude::*;

verus! {

/// The prime modulus of the field.
pub const MODULUS: u128 = 270497897142230380135924736767050121217;

/// Number of bits needed to write the modulus.
pub const BITS: u32 = 128;

/// A multiplicative generator of the nonzero elements of the field.
pub const GENERATOR: u128 = 85408008396924667383611388730472331217;

pub open spec fn modulus() -> int {
    MODULUS as int
}

/// The field product of two canonical values.
pub open spec fn fmul(a: int, b: int) -> int {
    (a * b) % modulus()
}

/// `x` raised to `k` in the field.
pub open spec fn fpow(x: int, k: nat) -> int {
    pow(x, k) % modulus()
}

/// The candidate inverse `x^(p-2)`, kept when it checks out.
pub open spec fn inverse_of(x: int) -> Option<int> {
    if x == 0 {
        None
    } else if fmul(x, fpow(x, (MODULUS - 2) as nat)) == 1 {
        Some(fpow(x, (MODULUS - 2) as nat))
    } else {
        None
    }
}

/// An element of the field, held by its canonical representative.
#[derive(Clone, Copy, Debug, PartialEq, Eq, Structural, Hash)]
pub struct BaseFelt {
    pub value: u128,
}

impl View for BaseFelt {
    type V = int;

    open spec fn view(&self) -> int {
        self.value as int
    }
}

pub open spec fn opt_view(x: Option<BaseFelt>) -> Option<int> {
    match x {
        Some(y) => Some(y@),
        None => None,
    }
}

pub open spec fn all_wf(s: Seq<BaseFelt>) -> bool {
    forall|i: int| 0 <= i < s.len() ==> #[trigger] s[i].wf()
}

proof fn lemma_mod_combine(a: int, c: int, q: int, m: int)
    requires
        m > 0,
    ensures
        ((a % m) + (c % m) * q) % m == (a + c * q) % m,
{
    lemma_mul_mod_noop_left(c, q, m);
    lemma_add_mod_noop(a % m, (c % m) * q, m);
    lemma_mod_twice(a, m);
    lemma_add_mod_noop(a, c * q, m);
}

proof fn lemma_mul_congruent(a: int, x: int, y: int, m: int)
    requires
        m > 0,
        x % m == y % m,
    ensures
        ((a % m) * x) % m == (a * y) % m,
{
    lemma_mul_mod_noop_left(a, x, m);
    lemma_mul_mod_noop_right(a, x, m);
    lemma_mul_mod_noop_right(a, y, m);
}


/// Product of the nonzero entries among the first `n` of `s`.
pub open spec fn prefix_product(s: Seq<BaseFelt>, n: nat) -> int
    decreases n,
{
    if n == 0 {
        1
    } else if s[n - 1]@ == 0 {
        prefix_product(s, (n - 1) as nat)
    } else {
        fmul(prefix_product(s, (n - 1) as nat), s[n - 1]@)
    }
}

proof fn lemma_fmul3(a: int, b: int, c: int)
    ensures
        fmul(a, fmul(b, c)) == (a * b * c) % modulus(),
        fmul(fmul(a, b), c) == (a * b * c) % modulus(),
        fmul(a, b) == fmul(b, a),
{
    lemma_mul_mod_noop_right(a, b * c, modulus());
    lemma_mul_mod_noop_left(a * b, c, modulus());
    assert(a * (b * c) == a * b * c) by (nonlinear_arith);
    assert(a * b == b * a) by (nonlinear_arith);
}


/// Whenever `inverse` yields a value it is a multiplicative inverse, and zero
/// has none.
pub proof fn lemma_inverse_inverts(x: int)
    ensures
        inverse_of(0) is None,
        inverse_of(x) matches Some(y) ==> fmul(x, y) == 1,
{
}

/// Inverses are unique: an inverse found by batch inversion is the one that
/// `inverse` yields, wherever `inverse` yields one.
pub proof fn lemma_inverse_unique(x: int, y: int, z: int)
    requires
        0 <= x < modulus(),
        0 <= y < modulus(),
        0 <= z < modulus(),
        fmul(x, y) == 1,
        fmul(x, z) == 1,
    ensures
        y == z,
{
    lemma_fmul3(y, x, z);
    lemma_fmul3(z, x, y);
    lemma_fmul3(x, y, 1);
    lemma_fmul3(x, z, 1);
    assert(y * x * z == z * x * y) by (nonlinear_arith);
    lemma_small_mod(y as nat, modulus() as nat);
    lemma_small_mod(z as nat, modulus() as nat);
    vstd::arithmetic::mul::lemma_mul_basics(y);
    vstd::arithmetic::mul::lemma_mul_basics(z);
}

/// `x^0 = 1` for every `x`, `0^k = 0` for `k > 0`, and
/// `x^(a+b) = x^a * x^b`.
pub proof fn lemma_pow_laws(x: int, a: nat, b: nat)
    ensures
        fpow(x, 0) == 1,
        a > 0 ==> fpow(0, a) == 0,
        fpow(x, a + b) == fmul(fpow(x, a), fpow(x, b)),
{
    lemma_pow0(x);
    lemma_small_mod(1, modulus() as nat);
    if a > 0 {
        lemma0_pow(a);
    }
    lemma_pow_adds(x, a, b);
    lemma_mul_mod_noop(pow(x, a), pow(x, b), modulus());
}


proof fn lemma_batch_agrees(values: Seq<BaseFelt>, r: Seq<Option<BaseFelt>>)
    requires
        r.len() == values.len(),
        all_wf(values),
        forall|i: int|
            0 <= i < values.len() ==> (#[trigger] r[i] matches Some(y) ==> y.wf() && fmul(
                values[i]@,
                y@,
            ) == 1),
    ensures
        forall|i: int|
            0 <= i < values.len() && #[trigger] r[i] is Some && inverse_of(values[i]@) is Some
                ==> opt_view(r[i]) == inverse_of(values[i]@),
{
    assert forall|i: int|
        0 <= i < values.len() && #[trigger] r[i] is Some && inverse_of(
            values[i]@,
        ) is Some implies opt_view(r[i]) == inverse_of(values[i]@) by {
        let x = values[i]@;
        let y = r[i]->Some_0@;
        let z = inverse_of(x)->Some_0;
        assert(values[i].wf());
        assert(0 <= z < modulus());
        lemma_inverse_unique(x, y, z);
    }
}

impl BaseFelt {
    pub open spec fn wf(self) -> bool {
        self.value < MODULUS
    }

    /// The element represented by `value`, reduced modulo the prime.
    pub fn new(value: u128) -> (r: BaseFelt)
        ensures
            r.wf(),
            r@ == value as int % modulus(),
    {
        BaseFelt { value: value % MODULUS }
    }

    pub fn zero() -> (r: BaseFelt)
        ensures
            r.wf(),
            r@ == 0,
    {
        BaseFelt { value: 0 }
    }

    pub fn one() -> (r: BaseFelt)
        ensures
            r.wf(),
            r@ == 1,
    {
        BaseFelt { value: 1 }
    }

    pub fn is_zero(&self) -> (r: bool)
        ensures
            r == (self@ == 0),
    {
        self.value == 0
    }

    /// Canonical integer representative.
    pub fn as_integer(&self) -> (r: u128)
        ensures
            r as int == self@,
    {
        self.value
    }

    pub fn add(self, o: BaseFelt) -> (r: BaseFelt)
        requires
            self.wf(),
            o.wf(),
        ensures
            r.wf(),
            r@ == (self@ + o@) % modulus(),
    {
        if self.value >= MODULUS - o.value {
            let r = BaseFelt { value: self.value - (MODULUS - o.value) };
            proof {
                lemma_fundamental_div_mod(self@ + o@, modulus());
                assert((self@ + o@) % modulus() == self@ + o@ - modulus()) by {
                    lemma_small_mod((self@ + o@ - modulus()) as nat, modulus() as nat);
                    lemma_mod_add_multiples_vanish(self@ + o@ - modulus(), modulus());
                }
            }
            r
        } else {
            proof {
                lemma_small_mod((self@ + o@) as nat, modulus() as nat);
            }
            BaseFelt { value: self.value + o.value }
        }
    }

    pub fn sub(self, o: BaseFelt) -> (r: BaseFelt)
        requires
            self.wf(),
            o.wf(),
        ensures
            r.wf(),
            r@ == (self@ - o@) % modulus(),
    {
        if self.value >= o.value {
            proof {
                lemma_small_mod((self@ - o@) as nat, modulus() as nat);
            }
            BaseFelt { value: self.value - o.value }
        } else {
            proof {
                lemma_small_mod((self@ - o@ + modulus()) as nat, modulus() as nat);
                lemma_mod_add_multiples_vanish(self@ - o@, modulus());
            }
            BaseFelt { value: self.value + (MODULUS - o.value) }
        }
    }

    pub fn neg(self) -> (r: BaseFelt)
        requires
            self.wf(),
        ensures
            r.wf(),
            r@ == (-self@) % modulus(),
    {
        BaseFelt::zero().sub(self)
    }

    /// Field product, by doubling and adding over the bits of `o`.
    pub fn mul(self, o: BaseFelt) -> (r: BaseFelt)
        requires
            self.wf(),
            o.wf(),
        ensures
            r.wf(),
            r@ == fmul(self@, o@),
    {
        let mut res = BaseFelt { value: 0 };
        let mut acc = self;
        let mut k: u128 = o.value;
        proof {
            lemma_small_mod(self@ as nat, modulus() as nat);
        }
        while k > 0
            invariant
                res.wf(),
                acc.wf(),
                (res@ + acc@ * k) % modulus() == fmul(self@, o@),
            decreases k,
        {
            let ghost old_res = res@;
            let ghost old_acc = acc@;
            let ghost b: int = (k % 2) as int;
            let ghost q: int = (k / 2) as int;
            if k % 2 == 1 {
                res = res.add(acc);
                assert(b == 1);
            } else {
                proof {
                    lemma_small_mod(res@ as nat, modulus() as nat);
                }
                assert(b == 0);
            }
            acc = acc.add(acc);
            k = k / 2;
            proof {
                assert(res@ == (old_res + b * old_acc) % modulus());
                assert(acc@ == (2 * old_acc) % modulus());
                lemma_mod_combine(old_res + b * old_acc, 2 * old_acc, q, modulus());
                assert(old_res + b * old_acc + 2 * old_acc * q == old_res + old_acc * (2 * q + b))
                    by (nonlinear_arith);
            }
        }
        res
    }

    pub fn square(&self) -> (r: BaseFelt)
        requires
            self.wf(),
        ensures
            r.wf(),
            r@ == fmul(self@, self@),
    {
        self.mul(*self)
    }

    pub fn square_in_place(&mut self)
        requires
            old(self).wf(),
        ensures
            final(self).wf(),
            final(self)@ == fmul(old(self)@, old(self)@),
    {
        *self = self.mul(*self);
    }

    pub fn double(&self) -> (r: BaseFelt)
        requires
            self.wf(),
        ensures
            r.wf(),
            r@ == (self@ + self@) % modulus(),
    {
        self.add(*self)
    }

    pub fn double_in_place(&mut self)
        requires
            old(self).wf(),
        ensures
            final(self).wf(),
            final(self)@ == (old(self)@ + old(self)@) % modulus(),
    {
        *self = self.add(*self);
    }

    /// Binary exponentiation, scanning the bits of `power` from the lowest.
    pub fn pow(self, power: u128) -> (r: BaseFelt)
        requires
            self.wf(),
        ensures
            r.wf(),
            r@ == fpow(self@, power as nat),
    {
        if power == 0 {
            proof {
                lemma_pow0(self@);
                lemma_small_mod(1, modulus() as nat);
            }
            return BaseFelt::one();
        } else if self.value == 0 {
            proof {
                lemma0_pow(power as nat);
            }
            return BaseFelt::zero();
        }
        let mut res = BaseFelt::one();
        let mut p: u128 = power;
        let mut acc = self;
        proof {
            lemma_small_mod(self@ as nat, modulus() as nat);
            lemma_small_mod(1, modulus() as nat);
        }
        while p > 0
            invariant
                res.wf(),
                acc.wf(),
                (res@ * pow(acc@, p as nat)) % modulus() == fpow(self@, power as nat),
            decreases p,
        {
            let ghost old_res = res@;
            let ghost old_acc = acc@;
            let ghost b: nat = (p % 2) as nat;
            let ghost q: nat = (p / 2) as nat;
            if p % 2 == 1 {
                res = res.mul(acc);
                proof {
                    lemma_pow1(old_acc);
                }
            } else {
                proof {
                    lemma_pow0(old_acc);
                    lemma_small_mod(old_res as nat, modulus() as nat);
                }
            }
            acc.square_in_place();
            p = p / 2;
            proof {
                assert(res@ == (old_res * pow(old_acc, b)) % modulus());
                lemma_pow_mod_noop(old_acc * old_acc, q, modulus());
                lemma_square_is_pow2(old_acc);
                lemma_pow_multiplies(old_acc, 2, q);
                lemma_pow_adds(old_acc, 2 * q, b);
                assert(p as nat == q);
                lemma_mul_congruent(
                    old_res * pow(old_acc, b),
                    pow(acc@, q),
                    pow(old_acc, 2 * q),
                    modulus(),
                );
                assert(old_res * pow(old_acc, b) * pow(old_acc, 2 * q) == old_res * (pow(
                    old_acc,
                    2 * q,
                ) * pow(old_acc, b))) by (nonlinear_arith);
            }
        }
        proof {
            lemma_pow0(acc@);
            lemma_small_mod(res@ as nat, modulus() as nat);
        }
        res
    }

    /// The multiplicative inverse by Fermat's exponent `p - 2`, checked
    /// before it is returned; zero has none.
    pub fn inverse(&self) -> (r: Option<BaseFelt>)
        requires
            self.wf(),
        ensures
            opt_view(r) == inverse_of(self@),
            r matches Some(y) ==> y.wf(),
    {
        if self.value == 0 {
            return None;
        }
        let y = self.pow(MODULUS - 2);
        if self.mul(y).value == 1 {
            Some(y)
        } else {
            None
        }
    }

    /// Montgomery batch inversion: one inversion of the product of the
    /// nonzero entries, then a walk back that peels off one entry at a time.
    pub fn batch_inverse(values: &Vec<BaseFelt>) -> (r: Vec<Option<BaseFelt>>)
        requires
            all_wf(values@),
        ensures
            r.len() == values.len(),
            forall|i: int| 0 <= i < values.len() && values[i]@ == 0 ==> r[i] is None,
            forall|i: int|
                0 <= i < values.len() ==> (#[trigger] r[i] matches Some(y) ==> y.wf() && fmul(
                    values[i]@,
                    y@,
                ) == 1),
            inverse_of(prefix_product(values@, values.len() as nat)) is Some ==> forall|i: int|
                0 <= i < values.len() && values[i]@ != 0 ==> #[trigger] r[i] is Some,
            forall|i: int|
                0 <= i < values.len() && #[trigger] r[i] is Some && inverse_of(values[i]@) is Some
                    ==> opt_view(r[i]) == inverse_of(values[i]@),
    {
        let n = values.len();
        let mut acc = BaseFelt::one();
        let mut partials: Vec<BaseFelt> = Vec::new();
        let mut i: usize = 0;
        while i < n
            invariant
                n == values.len(),
                all_wf(values@),
                i <= n,
                partials.len() == i,
                acc.wf(),
                acc@ == prefix_product(values@, i as nat),
                forall|k: int|
                    0 <= k < i ==> (#[trigger] partials[k]).wf() && partials[k]@ == prefix_product(
                        values@,
                        k as nat,
                    ),
            decreases n - i,
        {
            partials.push(acc);
            let v = values[i];
            if !v.is_zero() {
                acc = acc.mul(v);
            }
            i += 1;
        }
        let mut output: Vec<Option<BaseFelt>> = Vec::new();
        let mut j: usize = 0;
        while j < n
            invariant
                output.len() == j,
                j <= n,
                forall|k: int| 0 <= k < j ==> #[trigger] output[k] is None,
            decreases n - j,
        {
            output.push(None);
            j += 1;
        }
        let inv = acc.inverse();
        match inv {
            None => {
                proof {
                    lemma_batch_agrees(values@, output@);
                }
                output
            },
            Some(first) => {
                let mut running = first;
                proof {
                    lemma_fmul3(acc@, running@, 1);
                }
                let mut i: usize = n;
                while i > 0
                    invariant
                        n == values.len(),
                        all_wf(values@),
                        i <= n,
                        partials.len() == n,
                        forall|k: int|
                            0 <= k < n ==> (#[trigger] partials[k]).wf() && partials[k]@
                                == prefix_product(values@, k as nat),
                        running.wf(),
                        fmul(running@, prefix_product(values@, i as nat)) == 1,
                        output.len() == n,
                        forall|k: int| 0 <= k < n && values[k]@ == 0 ==> output[k] is None,
                        forall|k: int|
                            0 <= k < n ==> (#[trigger] output[k] matches Some(y) ==> y.wf()
                                && fmul(values[k]@, y@) == 1),
                        forall|k: int|
                            i <= k < n && values[k]@ != 0 ==> #[trigger] output[k] is Some,
                    decreases i,
                {
                    i -= 1;
                    let v = values[i];
                    assert(values@[i as int] == v);
                    assert(prefix_product(values@, (i + 1) as nat) == if v@ == 0 {
                        prefix_product(values@, i as nat)
                    } else {
                        fmul(prefix_product(values@, i as nat), v@)
                    });
                    if !v.is_zero() {
                        let pp = partials[i];
                        let y = pp.mul(running);
                        proof {
                            lemma_fmul3(v@, pp@, running@);
                            lemma_fmul3(running@, pp@, v@);
                            assert(v@ * pp@ * running@ == running@ * pp@ * v@)
                                by (nonlinear_arith);
                        }
                        assert(pp@ == prefix_product(values@, i as nat));
                        assert(fmul(v@, y@) == 1);
                        output.set(i, Some(y));
                        assert(forall|k: int|
                            0 <= k < n ==> (#[trigger] output[k] matches Some(z) ==> z.wf()
                                && fmul(values[k]@, z@) == 1));
                        let ghost old_running = running@;
                        running = running.mul(v);
                        proof {
                            lemma_fmul3(old_running, v@, pp@);
                            assert(old_running * v@ * pp@ == old_running * pp@ * v@)
                                by (nonlinear_arith);
                        }
                    }
                }
                proof {
                    lemma_batch_agrees(values@, output@);
                }
                output
            },
        }
    }
}


/// The arithmetic capability of a prime-field element that the sponge and
/// its parameter derivation rely on.
pub trait Felt: Sized {
    /// The canonical value of the element.
    spec fn value_of(&self) -> int;

    /// The order of the field.
    spec fn order() -> int;

    fn as_integer(&self) -> (r: u128)
        ensures
            r as int == self.value_of(),
    ;

    fn square(&self) -> (r: Self)
        requires
            0 <= self.value_of() < Self::order(),
        ensures
            0 <= r.value_of() < Self::order(),
            r.value_of() == (self.value_of() * self.value_of()) % Self::order(),
    ;

    fn double(&self) -> (r: Self)
        requires
            0 <= self.value_of() < Self::order(),
        ensures
            0 <= r.value_of() < Self::order(),
            r.value_of() == (self.value_of() + self.value_of()) % Self::order(),
    ;

    fn pow(&self, power: u128) -> (r: Self)
        requires
            0 <= self.value_of() < Self::order(),
        ensures
            0 <= r.value_of() < Self::order(),
            r.value_of() == pow(self.value_of(), power as nat) % Self::order(),
    ;

    /// The multiplicative inverse, when one is found; zero has none.
    fn inverse(&self) -> (r: Option<Self>)
        requires
            0 <= self.value_of() < Self::order(),
        ensures
            self.value_of() == 0 ==> r is None,
            r matches Some(y) ==> 0 <= y.value_of() < Self::order() && (self.value_of()
                * y.value_of()) % Self::order() == 1,
    ;
}

/// A prime field with a known modulus.
pub trait PrimeFelt: Felt {
    /// The prime modulus.
    fn modulus() -> (r: u128)
        ensures
            r as int == Self::order(),
    ;

    /// Bits needed to write the modulus.
    fn bits() -> (r: u32)
        ensures
            r == BITS,
    ;
}

impl Felt for BaseFelt {
    open spec fn value_of(&self) -> int {
        self.value as int
    }

    open spec fn order() -> int {
        modulus()
    }

    fn as_integer(&self) -> (r: u128) {
        BaseFelt::as_integer(self)
    }

    fn square(&self) -> (r: BaseFelt) {
        BaseFelt::square(self)
    }

    fn double(&self) -> (r: BaseFelt) {
        BaseFelt::double(self)
    }

    fn pow(&self, power: u128) -> (r: BaseFelt) {
        BaseFelt::pow(*self, power)
    }

    fn inverse(&self) -> (r: Option<BaseFelt>) {
        BaseFelt::inverse(self)
    }
}

impl PrimeFelt for BaseFelt {
    fn modulus() -> (r: u128) {
        MODULUS
    }

    fn bits() -> (r: u32) {
        BITS
    }
}

} // verus!
