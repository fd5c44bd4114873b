//! Fixed-point decimals with eighteen decimal places, counted in attos.

use vstd::prelude::*;
use scrypto::math::CheckedMul;
use scrypto::math::Decimal as LedgerDecimal;
use scrypto::math::I192;

verus! {

/// Number of attos in one whole unit.
pub const ATTOS_PER_UNIT: i128 = 1_000_000_000_000_000_000i128;

/// A decimal amount with eighteen decimal places, held as its count of attos.
///
/// The count is an `i128`, so amounts reach about 1.7e20 whole units, where
/// the ledger's decimals reach about 3.1e39: amounts beyond that range cannot
/// be held, and functions that add amounts ask that the sum stay in range.
#[derive(Clone, Copy, Debug, PartialEq, Eq, Structural)]
pub struct Decimal {
    pub attos: i128,
}

/// Division of `n` by the positive `d`, rounded toward zero.
pub open spec fn trunc_div(n: int, d: int) -> int
    recommends
        d > 0,
{
    if n >= 0 {
        n / d
    } else {
        -((-n) / d)
    }
}

/// The attos of the product of two decimals given by their attos, rounded toward zero.
pub open spec fn mul_attos(a: int, b: int) -> int {
    trunc_div(a * b, ATTOS_PER_UNIT as int)
}

/// Whether an integer fits in an `i128`.
pub open spec fn fits_i128(x: int) -> bool {
    i128::MIN <= x <= i128::MAX
}

/// Ten to the power `n`.
pub open spec fn pow10(n: nat) -> int
    decreases n,
{
    if n == 0 {
        1
    } else {
        10 * pow10((n - 1) as nat)
    }
}

/// `scrypto::math::Decimal::checked_mul` on the decimals with the given attos.
///
/// The ledger's multiplication widens both operands to 256 bits, divides the
/// product by one unit (rounding toward zero, as `bnum` division does) and fails
/// when the quotient does not fit in 192 bits. The result is handed back as attos
/// when it fits in an `i128`, and as `None` otherwise.
#[verifier::external_body]
fn ledger_checked_mul(a: i128, b: i128) -> (r: Option<i128>)
    ensures
        r == (if fits_i128(mul_attos(a as int, b as int)) {
            Some(mul_attos(a as int, b as int) as i128)
        } else {
            None::<i128>
        }),
{
    let product = LedgerDecimal::from_attos(I192::from(a)).checked_mul(LedgerDecimal::from_attos(I192::from(b)))?;
    i128::try_from(product.attos()).ok()
}

impl Decimal {
    /// The decimal zero.
    pub fn zero() -> (r: Self)
        ensures
            r.attos == 0,
    {
        Decimal { attos: 0 }
    }

    /// The decimal with the given count of attos.
    pub fn from_attos(attos: i128) -> (r: Self)
        ensures
            r.attos == attos,
    {
        Decimal { attos }
    }

    /// The decimal equal to the whole number `n`.
    pub fn from_units(n: i64) -> (r: Self)
        ensures
            r.attos == n * ATTOS_PER_UNIT,
    {
        assert(i64::MIN * ATTOS_PER_UNIT <= n * ATTOS_PER_UNIT <= i64::MAX * ATTOS_PER_UNIT) by (nonlinear_arith)
            requires i64::MIN <= n <= i64::MAX;
        Decimal { attos: (n as i128) * ATTOS_PER_UNIT }
    }

    /// The product of two decimals, rounded toward zero, or `None` where it does
    /// not fit.
    pub fn checked_mul(self, other: Self) -> (r: Option<Self>)
        ensures
            r == (if fits_i128(mul_attos(self.attos as int, other.attos as int)) {
                Some(Decimal { attos: mul_attos(self.attos as int, other.attos as int) as i128 })
            } else {
                None::<Decimal>
            }),
    {
        match ledger_checked_mul(self.attos, other.attos) {
            Some(attos) => Some(Decimal { attos }),
            None => None,
        }
    }
}

/// The number of attos in the smallest amount of a resource with the given
/// divisibility: ten to the power `18 - divisibility`.
pub fn smallest_unit(divisibility: u8) -> (r: i128)
    requires
        divisibility <= 18,
    ensures
        r == pow10((18 - divisibility) as nat),
        1 <= r <= ATTOS_PER_UNIT,
        r * pow10(divisibility as nat) == ATTOS_PER_UNIT,
{
    let n: u8 = 18 - divisibility;
    let mut r: i128 = 1;
    let mut i: u8 = 0;
    proof {
        reveal_with_fuel(pow10, 19);
        lemma_pow10_monotone(0, 18);
    }
    while i < n
        invariant
            i <= n <= 18,
            r == pow10(i as nat),
            1 <= r <= pow10(i as nat),
            pow10(18) == ATTOS_PER_UNIT,
        decreases n - i,
    {
        proof {
            lemma_pow10_monotone((i + 1) as nat, 18);
            assert(pow10((i + 1) as nat) == 10 * pow10(i as nat));
        }
        r = r * 10;
        i = i + 1;
    }
    proof {
        lemma_pow10_monotone(n as nat, 18);
        lemma_pow10_add(n as nat, divisibility as nat);
    }
    r
}

/// Ten to a sum of exponents is the product of ten to each.
pub proof fn lemma_pow10_add(m: nat, n: nat)
    ensures
        pow10(m) * pow10(n) == pow10(m + n),
    decreases n,
{
    if n > 0 {
        lemma_pow10_add(m, (n - 1) as nat);
        let a = pow10(m);
        let b = pow10((n - 1) as nat);
        assert(pow10(n) == 10 * b);
        assert(pow10(m + n) == 10 * pow10((m + n - 1) as nat));
        assert(a * (10 * b) == 10 * (a * b)) by (nonlinear_arith);
    }
}

/// `pow10` grows with its exponent.
pub proof fn lemma_pow10_monotone(m: nat, n: nat)
    requires
        m <= n,
    ensures
        1 <= pow10(m) <= pow10(n),
    decreases n,
{
    if m < n {
        lemma_pow10_monotone(m, (n - 1) as nat);
    } else if n > 0 {
        lemma_pow10_monotone((n - 1) as nat, (n - 1) as nat);
    }
}

} // verus!
