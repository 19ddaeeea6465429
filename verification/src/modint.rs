//! The modular-integer value type: a residue normalized into `[0, m)` paired
//! with a modulus tag, together with its arithmetic operators, inverse and
//! exponentiation routines, and factorial-style product helpers.

use crate::arith::{
    digit_val, falling_prod, lemma_falling_prod_step, lemma_radix_val_prefix_le,
    lemma_rising_prod_step, radix_val, rising_prod, spec_gcd,
};
use vstd::arithmetic::div_mod::{
    lemma_fundamental_div_mod, lemma_fundamental_div_mod_converse_mod, lemma_mod_bound,
    lemma_add_mod_noop_right, lemma_mod_decreases, lemma_mod_multiples_vanish,
    lemma_mul_mod_noop_general, lemma_mul_mod_noop_left, lemma_mul_mod_noop_right,
    lemma_small_mod, lemma_sub_mod_noop_right,
};
use vstd::arithmetic::power::{
    lemma_pow1, lemma_pow_adds, lemma_pow_mod_noop, lemma_pow_multiplies, lemma_square_is_pow2,
    pow,
};
use vstd::prelude::*;

verus! {

/// The Bezout coefficient of the first argument that
/// `num_integer::Integer::extended_gcd` computes; it is a function of the two
/// arguments alone, while the exact representative the algorithm picks is not
/// worth spelling out.
pub uninterp spec fn bezout_x(a: int, m: int) -> int;

/// `n` reduced into `[0, m)`: the truncating remainder, corrected by one
/// addition of `m` when it comes out negative.
fn compensated_rem(n: i64, m: u32) -> (r: i64)
    requires
        1 <= m,
    ensures
        r as int == (n as int) % (m as int),
        0 <= r < m,
{
    let t: i64 = n % (m as i64);
    proof {
        lemma_truncated_rem_to_euclidean(n as int, m as int, t as int);
    }
    if t >= 0 {
        t
    } else {
        t + m as i64
    }
}

/// The modulus tag of a modular integer: either committed to a concrete
/// positive modulus, or still neutral (an identity seed that adopts the
/// modulus of whatever fixed-modulus value it is first combined with).
#[derive(Debug, Copy, Clone, PartialEq, Eq, Structural)]
pub enum Modulo {
    Static(u32),
    Dynamic,
}

impl Modulo {
    /// The concrete modulus, if one has been committed.
    pub fn get(&self) -> (r: Option<u32>)
        ensures
            r == match *self {
                Modulo::Static(m) => Some(m),
                Modulo::Dynamic => None,
            },
    {
        match self {
            Modulo::Static(m) => Some(*m),
            Modulo::Dynamic => None,
        }
    }
}

/// A residue paired with its modulus tag. Arithmetic consumes its operands
/// and produces a fresh value; nothing is mutated in place.
///
/// No implicit cast back to a primitive integer is offered: `get` hands the
/// residue out explicitly, so the modulus context is never lost by accident.
#[derive(Debug, Clone, Copy)]
pub struct ModInt {
    num: i64,
    modulo: Modulo,
}

impl ModInt {
    /// The residue this value holds.
    pub closed spec fn residue(self) -> int {
        self.num as int
    }

    /// The modulus tag this value carries.
    pub closed spec fn tag(self) -> Modulo {
        self.modulo
    }

    /// The committed modulus of a `Static`-tagged value.
    pub open spec fn modulus(self) -> int {
        self.tag()->Static_0 as int
    }

    /// Well-formedness: a committed modulus is positive and bounds the
    /// residue; a neutral value holds a plain non-negative integer (an
    /// identity seed, or a digit-string value not yet reduced).
    pub open spec fn wf(self) -> bool {
        match self.tag() {
            Modulo::Static(m) => 1 <= m && 0 <= self.residue() < m,
            Modulo::Dynamic => 0 <= self.residue(),
        }
    }

    /// Whether the modulus is committed.
    pub open spec fn is_static(self) -> bool {
        self.tag() is Static
    }
}

/// The compatibility relation: two committed moduli must agree; a neutral
/// operand always adopts a committed one; two neutral operands cannot be
/// combined, as no concrete modulus can be derived for the result.
pub open spec fn compatible(a: ModInt, b: ModInt) -> bool {
    match (a.tag(), b.tag()) {
        (Modulo::Static(x), Modulo::Static(y)) => x == y,
        (Modulo::Dynamic, Modulo::Dynamic) => false,
        _ => true,
    }
}

/// The modulus two compatible operands share.
pub open spec fn shared_mod(a: ModInt, b: ModInt) -> int {
    match (a.tag(), b.tag()) {
        (Modulo::Static(x), _) => x as int,
        (_, Modulo::Static(y)) => y as int,
        _ => 1,
    }
}

/// Evaluates the compatibility relation: the shared modulus (a placeholder
/// `1` when there is none) and whether the operands may be combined.
fn check_mod_eq(a: &ModInt, b: &ModInt) -> (r: (u32, bool))
    requires
        a.wf(),
        b.wf(),
    ensures
        r.1 == compatible(*a, *b),
        r.1 ==> r.0 as int == shared_mod(*a, *b) && 1 <= r.0,
{
    match (a.modulo, b.modulo) {
        (Modulo::Static(x), Modulo::Static(y)) => {
            if x == y {
                (x, true)
            } else {
                (1, false)
            }
        },
        (Modulo::Static(m), Modulo::Dynamic) => (m, true),
        (Modulo::Dynamic, Modulo::Static(m)) => (m, true),
        (Modulo::Dynamic, Modulo::Dynamic) => (1, false),
    }
}

impl ModInt {
    /// Reduces `n` into `[0, m)` and commits the value to modulus `m`.
    pub fn new(n: i64, m: u32) -> (r: Self)
        requires
            1 <= m,
        ensures
            r.wf(),
            r.tag() == Modulo::Static(m),
            r.residue() == (n as int) % (m as int),
            0 <= r.residue() < m,
    {
        let num = compensated_rem(n, m);
        Self { num, modulo: Modulo::Static(m) }
    }

    /// Hands the residue out as a plain integer.
    pub fn get(&self) -> (r: i64)
        ensures
            r as int == self.residue(),
    {
        self.num
    }

    /// The residue `r` with `r * self ≡ 1 (mod m)` whenever the residue is
    /// coprime to the modulus, found through the extended Euclidean
    /// algorithm. When the residue shares a factor with the modulus no
    /// inverse exists, and the value that comes back, though inside
    /// `[0, m)`, inverts nothing: staying coprime is the caller's burden.
    pub fn inv(&self) -> (r: i64)
        requires
            self.wf(),
            self.is_static(),
        ensures
            0 <= r < self.modulus(),
            r as int == bezout_x(self.residue(), self.modulus()) % self.modulus(),
            spec_gcd(self.residue() as nat, self.modulus() as nat) == 1 ==> (self.residue()
                * r) % self.modulus() == 1int % self.modulus(),
    {
        let m: u32 = match self.modulo {
            Modulo::Static(m) => m,
            Modulo::Dynamic => 1,
        };
        let g = extended_gcd_i64(self.num, m as i64);
        proof {
            let a = self.residue();
            let mi = m as int;
            let x = g.1 as int;
            let y = g.2 as int;
            if spec_gcd(a as nat, mi as nat) == 1 {
                assert(a * x == mi * (-y) + 1) by (nonlinear_arith)
                    requires
                        a * x + mi * y == 1,
                ;
                lemma_mod_multiples_vanish(-y, 1, mi);
                lemma_mul_mod_noop_right(a, x, mi);
            }
        }
        compensated_rem(g.1, m)
    }

    /// The modulus tag itself, for callers that must branch on whether a
    /// value has committed to a modulus yet.
    pub fn get_modulo(&self) -> (r: Modulo)
        ensures
            r == self.tag(),
    {
        self.modulo
    }

    /// The committed modulus; only a `Static`-tagged value has one.
    pub fn get_mod(&self) -> (r: usize)
        requires
            self.is_static(),
        ensures
            r as int == self.modulus(),
    {
        match self.modulo {
            Modulo::Static(m) => m as usize,
            Modulo::Dynamic => 0,
        }
    }
}

impl ModInt {
    /// Modular addition. Both operands already lie within the shared
    /// modulus, so the raw sum is at most one subtraction of `m` away from
    /// its canonical residue.
    pub fn add(self, rhs: Self) -> (r: Self)
        requires
            self.wf(),
            rhs.wf(),
            compatible(self, rhs),
            self.residue() <= shared_mod(self, rhs),
            rhs.residue() <= shared_mod(self, rhs),
        ensures
            r.wf(),
            r.tag() == Modulo::Static(shared_mod(self, rhs) as u32),
            r.residue() == (self.residue() + rhs.residue()) % shared_mod(self, rhs),
    {
        let c = check_mod_eq(&self, &rhs);
        let m = c.0;
        let sum: i64 = self.num + rhs.num;
        proof {
            let s = self.residue() + rhs.residue();
            let mi = m as int;
            assert(s < 2 * mi);
            if s >= mi {
                lemma_fundamental_div_mod_converse_mod(s, mi, 1, s - mi);
            } else {
                lemma_small_mod(s as nat, mi as nat);
            }
        }
        let num: i64 = if sum >= m as i64 {
            sum - m as i64
        } else {
            sum
        };
        Self { num, modulo: Modulo::Static(m) }
    }

    /// Modular subtraction: the raw difference can be negative, so the full
    /// compensated reduction is applied.
    pub fn sub(self, rhs: Self) -> (r: Self)
        requires
            self.wf(),
            rhs.wf(),
            compatible(self, rhs),
        ensures
            r.wf(),
            r.tag() == Modulo::Static(shared_mod(self, rhs) as u32),
            r.residue() == (self.residue() - rhs.residue()) % shared_mod(self, rhs),
    {
        let c = check_mod_eq(&self, &rhs);
        let num = compensated_rem(self.num - rhs.num, c.0);
        Self { num, modulo: Modulo::Static(c.0) }
    }

    /// Modular multiplication, through an intermediate wide enough to hold
    /// the product of any two residues.
    pub fn mul(self, rhs: Self) -> (r: Self)
        requires
            self.wf(),
            rhs.wf(),
            compatible(self, rhs),
        ensures
            r.wf(),
            r.tag() == Modulo::Static(shared_mod(self, rhs) as u32),
            r.residue() == (self.residue() * rhs.residue()) % shared_mod(self, rhs),
    {
        let c = check_mod_eq(&self, &rhs);
        let m = c.0;
        proof {
            assert(self.residue() * rhs.residue() < 0x8000_0000_0000_0000 * 0x8000_0000_0000_0000)
                by (nonlinear_arith)
                requires
                    0 <= self.residue() < 0x8000_0000_0000_0000,
                    0 <= rhs.residue() < 0x8000_0000_0000_0000,
            ;
            lemma_mod_bound(self.residue() * rhs.residue(), m as int);
        }
        let p: u128 = (self.num as u128) * (rhs.num as u128);
        let num: i64 = (p % (m as u128)) as i64;
        Self { num, modulo: Modulo::Static(m) }
    }

    /// Modular division, defined as multiplication by the divisor's inverse.
    /// When the divisor is coprime to the modulus the result is the one
    /// residue whose product with the divisor gives back the dividend; for a
    /// non-invertible divisor the result inverts nothing (see [`Self::inv`]).
    pub fn div(self, rhs: Self) -> (r: Self)
        requires
            self.wf(),
            rhs.wf(),
            compatible(self, rhs),
            rhs.is_static(),
        ensures
            r.wf(),
            r.tag() == Modulo::Static(shared_mod(self, rhs) as u32),
            r.residue() == (self.residue() * (bezout_x(rhs.residue(), shared_mod(self, rhs))
                % shared_mod(self, rhs))) % shared_mod(self, rhs),
            spec_gcd(rhs.residue() as nat, shared_mod(self, rhs) as nat) == 1 ==> (r.residue()
                * rhs.residue()) % shared_mod(self, rhs) == self.residue() % shared_mod(self, rhs),
    {
        let c = check_mod_eq(&self, &rhs);
        let m = c.0;
        let bi = rhs.inv();
        proof {
            let a = self.residue();
            let b = rhs.residue();
            let v = bi as int;
            let mi = m as int;
            assert(a * v < 0x8000_0000_0000_0000 * 0x8000_0000_0000_0000) by (nonlinear_arith)
                requires
                    0 <= a < 0x8000_0000_0000_0000,
                    0 <= v < 0x8000_0000_0000_0000,
            ;
            lemma_mod_bound(a * v, mi);
            if spec_gcd(b as nat, mi as nat) == 1 {
                lemma_mul_mod_noop_left(a * v, b, mi);
                assert((a * v) * b == a * (v * b)) by (nonlinear_arith);
                lemma_mul_mod_noop_right(a, v * b, mi);
                assert(v * b == b * v) by (nonlinear_arith);
                lemma_mul_mod_noop_right(a, 1int, mi);
            }
        }
        let p: u128 = (self.num as u128) * (bi as u128);
        let num: i64 = (p % (m as u128)) as i64;
        Self { num, modulo: Modulo::Static(m) }
    }

    /// The truncating remainder of the two residues; both are non-negative,
    /// so no compensation is needed and the result stays below the modulus.
    pub fn rem(self, rhs: Self) -> (r: Self)
        requires
            self.wf(),
            rhs.wf(),
            compatible(self, rhs),
            rhs.residue() != 0,
        ensures
            r.wf(),
            r.tag() == Modulo::Static(shared_mod(self, rhs) as u32),
            r.residue() == self.residue() % rhs.residue(),
    {
        let c = check_mod_eq(&self, &rhs);
        proof {
            lemma_mod_bound(self.residue(), rhs.residue());
            lemma_mod_decreases(self.residue() as nat, rhs.residue() as nat);
        }
        let num: i64 = ((self.num as u64) % (rhs.num as u64)) as i64;
        Self { num, modulo: Modulo::Static(c.0) }
    }
}

impl ModInt {
    /// `lhs += rhs`, as replacing the binding with the sum.
    pub fn add_assign(&mut self, rhs: Self)
        requires
            old(self).wf(),
            rhs.wf(),
            compatible(*old(self), rhs),
            old(self).residue() <= shared_mod(*old(self), rhs),
            rhs.residue() <= shared_mod(*old(self), rhs),
        ensures
            final(self).wf(),
            final(self).tag() == Modulo::Static(shared_mod(*old(self), rhs) as u32),
            final(self).residue() == (old(self).residue() + rhs.residue()) % shared_mod(
                *old(self),
                rhs,
            ),
    {
        *self = (*self).add(rhs);
    }

    /// `lhs -= rhs`, as replacing the binding with the difference.
    pub fn sub_assign(&mut self, rhs: Self)
        requires
            old(self).wf(),
            rhs.wf(),
            compatible(*old(self), rhs),
        ensures
            final(self).wf(),
            final(self).tag() == Modulo::Static(shared_mod(*old(self), rhs) as u32),
            final(self).residue() == (old(self).residue() - rhs.residue()) % shared_mod(
                *old(self),
                rhs,
            ),
    {
        *self = (*self).sub(rhs);
    }

    /// `lhs *= rhs`, as replacing the binding with the product.
    pub fn mul_assign(&mut self, rhs: Self)
        requires
            old(self).wf(),
            rhs.wf(),
            compatible(*old(self), rhs),
        ensures
            final(self).wf(),
            final(self).tag() == Modulo::Static(shared_mod(*old(self), rhs) as u32),
            final(self).residue() == (old(self).residue() * rhs.residue()) % shared_mod(
                *old(self),
                rhs,
            ),
    {
        *self = (*self).mul(rhs);
    }

    /// `lhs /= rhs`, as replacing the binding with the quotient.
    pub fn div_assign(&mut self, rhs: Self)
        requires
            old(self).wf(),
            rhs.wf(),
            compatible(*old(self), rhs),
            rhs.is_static(),
        ensures
            final(self).wf(),
            final(self).tag() == Modulo::Static(shared_mod(*old(self), rhs) as u32),
            final(self).residue() == (old(self).residue() * (bezout_x(
                rhs.residue(),
                shared_mod(*old(self), rhs),
            ) % shared_mod(*old(self), rhs))) % shared_mod(*old(self), rhs),
    {
        *self = (*self).div(rhs);
    }

    /// `lhs %= rhs`, as replacing the binding with the remainder.
    pub fn rem_assign(&mut self, rhs: Self)
        requires
            old(self).wf(),
            rhs.wf(),
            compatible(*old(self), rhs),
            rhs.residue() != 0,
        ensures
            final(self).wf(),
            final(self).tag() == Modulo::Static(shared_mod(*old(self), rhs) as u32),
            final(self).residue() == old(self).residue() % rhs.residue(),
    {
        *self = (*self).rem(rhs);
    }

    /// The additive identity seed: residue `0` under the neutral modulus. It
    /// adopts a concrete modulus the moment it is combined with a
    /// fixed-modulus value.
    pub fn zero() -> (r: Self)
        ensures
            r.wf(),
            r.tag() == Modulo::Dynamic,
            r.residue() == 0,
    {
        Self { num: 0, modulo: Modulo::Dynamic }
    }

    /// Whether the residue is `0`, whatever the modulus tag.
    pub fn is_zero(&self) -> (r: bool)
        ensures
            r == (self.residue() == 0),
    {
        self.num == 0
    }

    /// The multiplicative identity seed: residue `1` under the neutral
    /// modulus.
    pub fn one() -> (r: Self)
        ensures
            r.wf(),
            r.tag() == Modulo::Dynamic,
            r.residue() == 1,
    {
        Self { num: 1, modulo: Modulo::Dynamic }
    }

    /// Whether the residue is `1`, whatever the modulus tag.
    pub fn is_one(&self) -> (r: bool)
        ensures
            r == (self.residue() == 1),
    {
        self.num == 1
    }

    /// Equality of residues. Comparing values under incompatible moduli is a
    /// programming error, not a data condition, and is ruled out up front.
    pub fn equals(&self, other: &Self) -> (r: bool)
        requires
            self.wf(),
            other.wf(),
            compatible(*self, *other),
        ensures
            r == (self.residue() == other.residue()),
    {
        self.num == other.num
    }

    /// Ordering of residues, probed defensively: values under incompatible
    /// moduli are reported incomparable instead of failing hard.
    pub fn partial_cmp(&self, other: &Self) -> (r: Option<core::cmp::Ordering>)
        requires
            self.wf(),
            other.wf(),
        ensures
            r == if !compatible(*self, *other) {
                None
            } else if self.residue() < other.residue() {
                Some(core::cmp::Ordering::Less)
            } else if self.residue() == other.residue() {
                Some(core::cmp::Ordering::Equal)
            } else {
                Some(core::cmp::Ordering::Greater)
            },
    {
        let c = check_mod_eq(self, other);
        if !c.1 {
            None
        } else if self.num < other.num {
            Some(core::cmp::Ordering::Less)
        } else if self.num == other.num {
            Some(core::cmp::Ordering::Equal)
        } else {
            Some(core::cmp::Ordering::Greater)
        }
    }

    /// The residue as a plain `usize`; an explicit accessor, so the modulus
    /// context can only be dropped on purpose.
    pub fn to_usize(&self) -> (r: usize)
        requires
            self.wf(),
            self.residue() <= usize::MAX,
        ensures
            r as int == self.residue(),
    {
        self.num as usize
    }
}

impl ModInt {
    /// Binary exponentiation: square and multiply, with accumulator and
    /// running base kept reduced at every step so no intermediate outgrows
    /// the product of two residues.
    fn pow_mod(&self, exp: usize) -> (r: Self)
        requires
            self.wf(),
            self.is_static(),
        ensures
            r.wf(),
            r.tag() == self.tag(),
            r.residue() == pow(self.residue(), exp as nat) % self.modulus(),
    {
        let m = self.modulus_u32();
        let m64: u64 = m as u64;
        let ghost a = self.residue();
        let ghost mi = m as int;
        let mut res: u64 = 1;
        let mut base: u64 = self.num as u64;
        let mut e: usize = exp;
        while e > 0
            invariant
                1 <= mi <= u32::MAX,
                m64 as int == mi,
                res <= u32::MAX,
                0 <= base < mi,
                (res as int * pow(base as int, e as nat)) % mi == pow(a, exp as nat) % mi,
            decreases e,
        {
            let ghost res0 = res as int;
            let ghost b0 = base as int;
            let ghost e0 = e as nat;
            proof {
                assert(e & 1 == e % 2) by (bit_vector);
                assert(e >> 1 == e / 2) by (bit_vector);
                assert(res * base <= 0xFFFF_FFFF * 0xFFFF_FFFF) by (nonlinear_arith)
                    requires
                        res <= 0xFFFF_FFFF && base <= 0xFFFF_FFFF,
                ;
                assert(base * base <= 0xFFFF_FFFF * 0xFFFF_FFFF) by (nonlinear_arith)
                    requires
                        base <= 0xFFFF_FFFF,
                ;
            }
            if e & 1 != 0 {
                res = (res * base) % m64;
                proof {
                    lemma_mod_bound(res0 * b0, mi);
                }
            }
            base = (base * base) % m64;
            e = e >> 1;
            proof {
                lemma_mod_bound(b0 * b0, mi);
                lemma_pow_step(res0, b0, e0, mi);
            }
        }
        proof {
            vstd::arithmetic::power::lemma_pow0(base as int);
        }
        Self::new(res as i64, m)
    }

    /// Raises the value to the power `exp` under its modulus; the zeroth
    /// power is the residue of `1`.
    pub fn pow(self, exp: usize) -> (r: Self)
        requires
            self.wf(),
            self.is_static(),
        ensures
            r.wf(),
            r.tag() == self.tag(),
            r.residue() == pow(self.residue(), exp as nat) % self.modulus(),
    {
        self.pow_mod(exp)
    }

    /// The falling factorial-style product
    /// `self * (self-1) * ... * (self-take+1)` under this value's modulus,
    /// accumulated as `take` plain multiplications; taking nothing leaves
    /// the bare multiplicative seed, for which no modulus is needed.
    pub fn falling(self, take: usize) -> (r: Self)
        requires
            self.wf(),
            take >= 1 ==> self.is_static(),
        ensures
            r.wf(),
            take == 0 ==> r.tag() == Modulo::Dynamic && r.residue() == 1,
            take >= 1 ==> r.tag() == self.tag() && r.residue() == falling_prod(
                self.residue(),
                take as nat,
            ) % self.modulus(),
    {
        if take == 0 {
            return Self::one();
        }
        let ghost x = self.residue();
        let ghost mi = self.modulus();
        let mut res = Self::one();
        let mut c = self;
        let mut i: usize = 0;
        proof {
            lemma_small_mod(x as nat, mi as nat);
        }
        while i < take
            invariant
                i <= take,
                self.wf(),
                self.is_static(),
                x == self.residue(),
                mi == self.modulus(),
                c.wf(),
                c.tag() == self.tag(),
                c.residue() == (x - i) % mi,
                i == 0 ==> res.tag() == Modulo::Dynamic && res.residue() == 1,
                i >= 1 ==> res.tag() == self.tag() && res.residue() == falling_prod(x, i as nat)
                    % mi,
            decreases take - i,
        {
            let ghost r0 = res.residue();
            let ghost c0 = c.residue();
            res = res.mul(c);
            c = c.sub(Self::one());
            proof {
                lemma_small_mod(x as nat, mi as nat);
                assert(res.residue() == (r0 * c0) % mi);
                if i == 0 {
                    assert(falling_prod(x - 1, 0) == 1);
                    assert(falling_prod(x, 1) == x * falling_prod(x - 1, 0));
                } else {
                    lemma_mul_mod_noop_general(falling_prod(x, i as nat), x - i, mi);
                    lemma_falling_prod_step(x, i as nat);
                }
                lemma_add_mod_noop_right(-1, x - i, mi);
            }
            i += 1;
        }
        res
    }

    /// The rising factorial-style product
    /// `self * (self+1) * ... * (self+take-1)` under this value's modulus;
    /// taking nothing leaves the bare multiplicative seed, for which no
    /// modulus is needed.
    pub fn rising(self, take: usize) -> (r: Self)
        requires
            self.wf(),
            take >= 1 ==> self.is_static(),
        ensures
            r.wf(),
            take == 0 ==> r.tag() == Modulo::Dynamic && r.residue() == 1,
            take >= 1 ==> r.tag() == self.tag() && r.residue() == rising_prod(
                self.residue(),
                take as nat,
            ) % self.modulus(),
    {
        if take == 0 {
            return Self::one();
        }
        let ghost x = self.residue();
        let ghost mi = self.modulus();
        let mut res = Self::one();
        let mut c = self;
        let mut i: usize = 0;
        proof {
            lemma_small_mod(x as nat, mi as nat);
        }
        while i < take
            invariant
                i <= take,
                self.wf(),
                self.is_static(),
                x == self.residue(),
                mi == self.modulus(),
                c.wf(),
                c.tag() == self.tag(),
                c.residue() == (x + i) % mi,
                i == 0 ==> res.tag() == Modulo::Dynamic && res.residue() == 1,
                i >= 1 ==> res.tag() == self.tag() && res.residue() == rising_prod(x, i as nat)
                    % mi,
            decreases take - i,
        {
            res = res.mul(c);
            c = c.add_i64(1);
            proof {
                lemma_small_mod(x as nat, mi as nat);
                if i == 0 {
                    assert(rising_prod(x + 1, 0) == 1);
                    assert(rising_prod(x, 1) == x * rising_prod(x + 1, 0));
                } else {
                    lemma_mul_mod_noop_general(rising_prod(x, i as nat), x + i, mi);
                    lemma_rising_prod_step(x, i as nat);
                }
                lemma_add_mod_noop_right(1, x + i, mi);
            }
            i += 1;
        }
        res
    }

    /// Reads a digit string, most significant digit first, in the given
    /// radix. The value arrives under the neutral modulus: callers commit it
    /// by combining it with a fixed-modulus value.
    pub fn from_str_radix(s: &str, radix: u32) -> (r: Self)
        requires
            2 <= radix <= 36,
            forall|i: int| 0 <= i < s@.len() ==> digit_val(s@[i]) < radix,
            radix_val(s@, radix as int) <= i64::MAX,
        ensures
            r.wf(),
            r.tag() == Modulo::Dynamic,
            r.residue() == radix_val(s@, radix as int),
    {
        let r = Self::try_from_str_radix(s, radix);
        proof {
            assert(r is Some);
        }
        match r {
            Some(v) => v,
            None => Self::zero(),
        }
    }

    /// As [`Self::from_str_radix`], but total: a character that is no digit
    /// of the radix, or a value that outgrows the 64-bit signed range, comes
    /// back as `None` instead of being ruled out up front.
    pub fn try_from_str_radix(s: &str, radix: u32) -> (r: Option<Self>)
        requires
            2 <= radix <= 36,
        ensures
            r is Some <==> ((forall|i: int| 0 <= i < s@.len() ==> digit_val(s@[i]) < radix)
                && radix_val(s@, radix as int) <= i64::MAX),
            r is Some ==> {
                let v = r->0;
                &&& v.wf()
                &&& v.tag() == Modulo::Dynamic
                &&& v.residue() == radix_val(s@, radix as int)
            },
    {
        let ghost rx = radix as int;
        let n = s.unicode_len();
        let mut num: i64 = 0;
        let mut i: usize = 0;
        while i < n
            invariant
                2 <= radix <= 36,
                rx == radix as int,
                i <= n,
                n == s@.len(),
                0 <= num,
                num as int == radix_val(s@.take(i as int), rx),
                forall|j: int| 0 <= j < i ==> digit_val(s@[j]) < radix,
            decreases n - i,
        {
            let ch = s.get_char(i);
            let d = match char_to_digit(ch, radix) {
                Some(d) => d,
                None => {
                    return None;
                },
            };
            proof {
                assert(s@.take(i + 1).drop_last() =~= s@.take(i as int));
                assert(s@.take(i + 1).last() == s@[i as int]);
            }
            num = match num.checked_mul(radix as i64) {
                Some(p) => match p.checked_add(d as i64) {
                    Some(v) => v,
                    None => {
                        proof {
                            lemma_radix_val_overflow(s@, rx, i as int);
                        }
                        return None;
                    },
                },
                None => {
                    proof {
                        assert(num * radix >= num) by (nonlinear_arith)
                            requires
                                num >= 0 && radix >= 1,
                        ;
                        lemma_radix_val_overflow(s@, rx, i as int);
                    }
                    return None;
                },
            };
            i += 1;
        }
        proof {
            assert(s@.take(n as int) =~= s@);
        }
        Some(Self { num, modulo: Modulo::Dynamic })
    }

    /// The committed modulus as a `u32`; the form the constructor takes.
    fn modulus_u32(&self) -> (r: u32)
        requires
            self.is_static(),
        ensures
            r as int == self.modulus(),
            self.tag() == Modulo::Static(r),
    {
        match self.modulo {
            Modulo::Static(m) => m,
            Modulo::Dynamic => 1,
        }
    }

    /// Addition with a plain integer: the integer is first reduced under
    /// this value's modulus, then added.
    pub fn add_i64(self, rhs: i64) -> (r: Self)
        requires
            self.wf(),
            self.is_static(),
        ensures
            r.wf(),
            r.tag() == self.tag(),
            r.residue() == (self.residue() + rhs as int) % self.modulus(),
    {
        let m = self.modulus_u32();
        proof {
            lemma_mod_bound(rhs as int, m as int);
            lemma_add_mod_noop_right(self.residue(), rhs as int, m as int);
        }
        self.add(Self::new(rhs, m))
    }

    /// Subtraction of a plain integer, reduced under this value's modulus.
    pub fn sub_i64(self, rhs: i64) -> (r: Self)
        requires
            self.wf(),
            self.is_static(),
        ensures
            r.wf(),
            r.tag() == self.tag(),
            r.residue() == (self.residue() - rhs as int) % self.modulus(),
    {
        let m = self.modulus_u32();
        proof {
            lemma_sub_mod_noop_right(self.residue(), rhs as int, m as int);
        }
        self.sub(Self::new(rhs, m))
    }

    /// Multiplication by a plain integer, reduced under this value's
    /// modulus.
    pub fn mul_i64(self, rhs: i64) -> (r: Self)
        requires
            self.wf(),
            self.is_static(),
        ensures
            r.wf(),
            r.tag() == self.tag(),
            r.residue() == (self.residue() * rhs as int) % self.modulus(),
    {
        let m = self.modulus_u32();
        proof {
            lemma_mul_mod_noop_right(self.residue(), rhs as int, m as int);
        }
        self.mul(Self::new(rhs, m))
    }

    /// Division by a plain integer, reduced under this value's modulus and
    /// then inverted as in [`Self::div`].
    pub fn div_i64(self, rhs: i64) -> (r: Self)
        requires
            self.wf(),
            self.is_static(),
        ensures
            r.wf(),
            r.tag() == self.tag(),
            r.residue() == (self.residue() * (bezout_x(
                (rhs as int) % self.modulus(),
                self.modulus(),
            ) % self.modulus())) % self.modulus(),
            spec_gcd(((rhs as int) % self.modulus()) as nat, self.modulus() as nat) == 1 ==> (
            r.residue() * rhs as int) % self.modulus() == self.residue() % self.modulus(),
    {
        let m = self.modulus_u32();
        let d = Self::new(rhs, m);
        proof {
            if spec_gcd(d.residue() as nat, m as nat) == 1 {
                lemma_mul_mod_noop_right(
                    (self.residue() * (bezout_x(d.residue(), m as int) % (m as int))) % (
                    m as int),
                    rhs as int,
                    m as int,
                );
            }
        }
        self.div(d)
    }
}

/// Conversion of a plain integer into a modular integer under a given
/// modulus, for the primitive integer types.
pub trait IntoModInt: Copy {
    /// The mathematical value being converted.
    spec fn to_int(self) -> int;

    /// `self` reduced into `[0, modulo)` and committed to that modulus.
    fn to_mint(self, modulo: u32) -> (r: ModInt)
        requires
            1 <= modulo,
            i64::MIN <= self.to_int() <= i64::MAX,
        ensures
            r.wf(),
            r.tag() == Modulo::Static(modulo),
            r.residue() == self.to_int() % (modulo as int),
    ;
}

impl IntoModInt for usize {
    open spec fn to_int(self) -> int {
        self as int
    }

    fn to_mint(self, modulo: u32) -> (r: ModInt) {
        ModInt::new(self as i64, modulo)
    }
}

impl IntoModInt for u8 {
    open spec fn to_int(self) -> int {
        self as int
    }

    fn to_mint(self, modulo: u32) -> (r: ModInt) {
        ModInt::new(self as i64, modulo)
    }
}

impl IntoModInt for u16 {
    open spec fn to_int(self) -> int {
        self as int
    }

    fn to_mint(self, modulo: u32) -> (r: ModInt) {
        ModInt::new(self as i64, modulo)
    }
}

impl IntoModInt for u32 {
    open spec fn to_int(self) -> int {
        self as int
    }

    fn to_mint(self, modulo: u32) -> (r: ModInt) {
        ModInt::new(self as i64, modulo)
    }
}

impl IntoModInt for u64 {
    open spec fn to_int(self) -> int {
        self as int
    }

    fn to_mint(self, modulo: u32) -> (r: ModInt) {
        ModInt::new(self as i64, modulo)
    }
}

impl IntoModInt for isize {
    open spec fn to_int(self) -> int {
        self as int
    }

    fn to_mint(self, modulo: u32) -> (r: ModInt) {
        ModInt::new(self as i64, modulo)
    }
}

impl IntoModInt for i8 {
    open spec fn to_int(self) -> int {
        self as int
    }

    fn to_mint(self, modulo: u32) -> (r: ModInt) {
        ModInt::new(self as i64, modulo)
    }
}

impl IntoModInt for i16 {
    open spec fn to_int(self) -> int {
        self as int
    }

    fn to_mint(self, modulo: u32) -> (r: ModInt) {
        ModInt::new(self as i64, modulo)
    }
}

impl IntoModInt for i32 {
    open spec fn to_int(self) -> int {
        self as int
    }

    fn to_mint(self, modulo: u32) -> (r: ModInt) {
        ModInt::new(self as i64, modulo)
    }
}

impl IntoModInt for i64 {
    open spec fn to_int(self) -> int {
        self as int
    }

    fn to_mint(self, modulo: u32) -> (r: ModInt) {
        ModInt::new(self, modulo)
    }
}

/// Law: the zero seed is the additive identity. It is compatible with any
/// fixed-modulus value, that value's own modulus is the shared one, and the
/// sum's residue — what [`ModInt::add`] returns — is the value's own.
pub proof fn lemma_additive_identity(a: ModInt, z: ModInt)
    requires
        a.wf(),
        z.wf(),
        a.is_static(),
        z.tag() == Modulo::Dynamic,
        z.residue() == 0,
    ensures
        compatible(a, z),
        shared_mod(a, z) == a.modulus(),
        (a.residue() + z.residue()) % shared_mod(a, z) == a.residue(),
{
    lemma_small_mod(a.residue() as nat, a.modulus() as nat);
}

/// Law: the one seed is the multiplicative identity. It is compatible with
/// any fixed-modulus value, that value's own modulus is the shared one, and
/// the product's residue — what [`ModInt::mul`] returns — is the value's
/// own.
pub proof fn lemma_multiplicative_identity(a: ModInt, o: ModInt)
    requires
        a.wf(),
        o.wf(),
        a.is_static(),
        o.tag() == Modulo::Dynamic,
        o.residue() == 1,
    ensures
        compatible(a, o),
        shared_mod(a, o) == a.modulus(),
        (a.residue() * o.residue()) % shared_mod(a, o) == a.residue(),
{
    lemma_small_mod(a.residue() as nat, a.modulus() as nat);
}

/// Law: combining values from different arithmetic domains is refused.
/// Two values committed to different moduli, or two values neither of which
/// has committed to one, fail the compatibility relation — and every binary
/// operator, assignment form and equality test requires that relation, so no
/// such combination can produce a value. The failure is irrecoverable by
/// design: unverified callers must test first and abort on mismatch, as the
/// operator glue around this library does.
pub proof fn lemma_cross_modulus_rejected(a: ModInt, b: ModInt)
    ensures
        a.is_static() && b.is_static() && a.modulus() != b.modulus() ==> !compatible(a, b),
        a.tag() == Modulo::Dynamic && b.tag() == Modulo::Dynamic ==> !compatible(a, b),
{
}

/// Law: division is consistent with multiplying by the inverse. Take `binv`
/// to be `b.inv()` committed under the shared modulus, so that its residue
/// multiplies with `b` back to `1` — which [`ModInt::inv`] guarantees for a
/// divisor coprime to the modulus. Then any residue whose product with `b`
/// gives `a` back — in particular the one [`ModInt::div`] returns — is
/// exactly the residue [`ModInt::mul`] gives for `a * binv`.
pub proof fn lemma_div_consistency(a: ModInt, b: ModInt, binv: ModInt, q: int)
    requires
        a.wf(),
        b.wf(),
        binv.wf(),
        compatible(a, b),
        b.is_static(),
        binv.tag() == b.tag(),
        (binv.residue() * b.residue()) % shared_mod(a, b) == 1int % shared_mod(a, b),
        0 <= q < shared_mod(a, b),
        (q * b.residue()) % shared_mod(a, b) == a.residue() % shared_mod(a, b),
    ensures
        compatible(a, binv),
        shared_mod(a, binv) == shared_mod(a, b),
        q == (a.residue() * binv.residue()) % shared_mod(a, b),
{
    let m = shared_mod(a, b);
    let av = a.residue();
    let bv = b.residue();
    let v = binv.residue();
    lemma_mul_mod_noop_left(q * bv, v, m);
    lemma_mul_mod_noop_left(av, v, m);
    assert((q * bv) * v == q * (bv * v)) by (nonlinear_arith);
    lemma_mul_mod_noop_right(q, bv * v, m);
    assert(bv * v == v * bv) by (nonlinear_arith);
    lemma_mul_mod_noop_right(q, 1int, m);
    lemma_small_mod(q as nat, m as nat);
}

/// The value of a digit character in the given radix, when it has one:
/// decimal digits, then letters of either case counting from ten.
fn char_to_digit(c: char, radix: u32) -> (d: Option<u32>)
    requires
        2 <= radix <= 36,
    ensures
        d == if digit_val(c) < radix {
            Some(digit_val(c) as u32)
        } else {
            None::<u32>
        },
{
    let v = c as u32;
    let raw: u32 = if v >= '0' as u32 && v <= '9' as u32 {
        v - '0' as u32
    } else if v >= 'a' as u32 && v <= 'z' as u32 {
        v - 'a' as u32 + 10
    } else if v >= 'A' as u32 && v <= 'Z' as u32 {
        v - 'A' as u32 + 10
    } else {
        36
    };
    if raw < radix {
        Some(raw)
    } else {
        None
    }
}

/// When one more digit would push the running value past `i64::MAX`, the
/// whole string's value is past it too.
proof fn lemma_radix_val_overflow(s: Seq<char>, radix: int, i: int)
    requires
        1 <= radix,
        0 <= i < s.len(),
        radix_val(s.take(i), radix) * radix + digit_val(s[i]) > i64::MAX,
    ensures
        radix_val(s, radix) > i64::MAX,
{
    assert(s.take(i + 1).drop_last() =~= s.take(i));
    assert(s.take(i + 1).last() == s[i]);
    lemma_radix_val_prefix_le(s, radix, i + 1);
}

/// Relies on `num_integer::Integer::extended_gcd`: its documentation promises
/// the non-negative gcd together with Bezout coefficients satisfying
/// `gcd == x * a + y * b`, and the coefficients depend on the arguments
/// alone. The ranges asked of the arguments keep every intermediate of its
/// computation inside `i64`.
#[verifier::external_body]
fn extended_gcd_i64(a: i64, m: i64) -> (r: (i64, i64, i64))
    requires
        0 <= a <= u32::MAX,
        1 <= m <= u32::MAX,
    ensures
        0 <= r.0,
        r.0 as nat == spec_gcd(a as nat, m as nat),
        a as int * r.1 as int + m as int * r.2 as int == r.0 as int,
        r.1 as int == bezout_x(a as int, m as int),
{
    let g = num_integer::Integer::extended_gcd(&a, &m);
    (g.gcd, g.x, g.y)
}

/// One square-and-multiply step keeps the exponentiation invariant: folding
/// the base into the accumulator on an odd exponent, then squaring the base
/// and halving the exponent, leaves the running product unchanged modulo
/// `mi`.
proof fn lemma_pow_step(res0: int, b0: int, e0: nat, mi: int)
    requires
        1 <= mi,
        1 <= e0,
        0 <= res0,
        0 <= b0,
    ensures
        e0 % 2 == 1 ==> (((res0 * b0) % mi) * pow((b0 * b0) % mi, e0 / 2)) % mi == (res0 * pow(
            b0,
            e0,
        )) % mi,
        e0 % 2 == 0 ==> (res0 * pow((b0 * b0) % mi, e0 / 2)) % mi == (res0 * pow(b0, e0)) % mi,
{
    let h = e0 / 2;
    let p = pow((b0 * b0) % mi, h);
    lemma_square_is_pow2(b0);
    lemma_pow_multiplies(b0, 2, h);
    lemma_pow_mod_noop(b0 * b0, h, mi);
    assert(p % mi == pow(b0, 2 * h) % mi);
    if e0 % 2 == 1 {
        let x = res0 * b0;
        lemma_mul_mod_noop_left(x, p, mi);
        lemma_mul_mod_noop_right(x, p, mi);
        lemma_mul_mod_noop_right(x, pow(b0, 2 * h), mi);
        assert((x % mi * p) % mi == (x * pow(b0, 2 * h)) % mi);
        lemma_pow1(b0);
        lemma_pow_adds(b0, 1, 2 * h);
        assert(x * pow(b0, 2 * h) == res0 * pow(b0, e0)) by (nonlinear_arith)
            requires
                x == res0 * b0,
                pow(b0, e0) == pow(b0, 1) * pow(b0, 2 * h),
                pow(b0, 1) == b0,
        ;
    } else {
        lemma_mul_mod_noop_right(res0, p, mi);
        lemma_mul_mod_noop_right(res0, pow(b0, 2 * h), mi);
    }
}

/// The truncating remainder `t` of `n` by `m` turns into the Euclidean one by
/// at most a single correction: it either is it, or sits exactly `m` below it.
proof fn lemma_truncated_rem_to_euclidean(n: int, m: int, t: int)
    requires
        1 <= m,
        n >= 0 ==> t == n % m,
        n < 0 ==> t == -((-n) % m),
    ensures
        0 <= t ==> t == n % m,
        t < 0 ==> t + m == n % m,
{
    if n >= 0 {
        lemma_mod_bound(n, m);
    } else {
        let q = (-n) / m;
        let r = (-n) % m;
        lemma_fundamental_div_mod(-n, m);
        lemma_mod_bound(-n, m);
        if r == 0 {
            assert(n == (-q) * m + 0) by (nonlinear_arith)
                requires
                    -n == m * q,
            ;
            lemma_fundamental_div_mod_converse_mod(n, m, -q, 0);
        } else {
            assert(n == (-q - 1) * m + (m - r)) by (nonlinear_arith)
                requires
                    -n == m * q + r,
            ;
            lemma_fundamental_div_mod_converse_mod(n, m, -q - 1, m - r);
        }
    }
}

} // verus!
