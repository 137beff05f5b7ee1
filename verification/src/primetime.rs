//! Prime time: answering whether a requested number is prime.
use vstd::prelude::*;
use vstd::arithmetic::div_mod::{lemma_fundamental_div_mod, lemma_mod_multiples_basic};
use vstd::arithmetic::mul::lemma_mul_is_commutative;
use vstd::string::StringExecFns;

verus! {

/// `n` is prime: at least two, and no number from two up to `n` (itself
/// excluded) divides it.
pub open spec fn prime(n: nat) -> bool {
    n >= 2 && forall|d: nat| 2 <= d < n ==> #[trigger] (n % d) != 0
}

/// A divisor of `n` at or above `p`, where `p * p > n`, pairs with a
/// divisor below `p`.
proof fn lemma_divisor_pair(n: nat, d: nat, p: nat)
    requires
        2 <= d < n,
        n % d == 0,
        p * p > n,
        d >= p,
    ensures
        2 <= n / d < p,
        n % (n / d) == 0,
{
    let e = n / d;
    lemma_fundamental_div_mod(n as int, d as int);
    assert(n == d * e);
    assert(e >= 2) by (nonlinear_arith)
        requires
            n == d * e,
            d < n,
            2 <= d,
    ;
    assert(e < p) by (nonlinear_arith)
        requires
            n == d * e,
            d >= p,
            p * p > n,
    ;
    lemma_mod_multiples_basic(d as int, e as int);
    lemma_mul_is_commutative(d as int, e as int);
}

/// Whether `n` is prime, trying divisors up to its square root.
pub fn is_prime(n: u64) -> (r: bool)
    ensures
        r == prime(n as nat),
{
    if n < 2 {
        return false;
    }
    let mut p: u64 = 2;
    while p <= n / p
        invariant
            2 <= p <= n,
            forall|d: nat| 2 <= d < p ==> #[trigger] ((n as nat) % d) != 0,
        decreases n - p,
    {
        assert(p * p <= n && p < n) by (nonlinear_arith)
            requires
                2 <= p,
                p <= n / p,
        ;
        if n % p == 0 {
            assert(!prime(n as nat)) by {
                assert((n as nat) % (p as nat) == 0);
            }
            return false;
        }
        p = p + 1;
    }
    assert(p * p > n) by (nonlinear_arith)
        requires
            2 <= p,
            p > n / p,
    ;
    assert forall|d: nat| 2 <= d < n implies #[trigger] ((n as nat) % d) != 0 by {
        if d >= p && (n as nat) % d == 0 {
            lemma_divisor_pair(n as nat, d, p as nat);
            let e = (n as nat) / d;
            assert((n as nat) % e != 0);
        }
    }
    true
}

/// Why a request gets an error instead of an answer.
#[derive(Debug, PartialEq, Eq)]
pub enum MessageError {
    NotAMap,
    Invalid,
}

/// The `method` field of a request: absent, a string, or another value.
#[derive(Debug, PartialEq, Eq)]
pub enum MethodField {
    Missing,
    Text(String),
    NotText,
}

/// The `number` field of a request: absent, not a number, a number that
/// fits in a `u64`, or another number (negative, or with a fraction or an
/// exponent).
#[derive(Debug, PartialEq, Eq)]
pub enum NumberField {
    Missing,
    NotANumber,
    Unsigned(u64),
    OtherNumber,
}

/// The one method a request may name.
pub open spec fn method_name() -> Seq<char> {
    seq!['i', 's', 'P', 'r', 'i', 'm', 'e']
}

/// The answer to a request with these fields: whether the number is prime
/// (a number that is not a `u64` is not), or an error where the method is
/// not `isPrime` or the number is missing or not a number.
pub open spec fn answer(method: MethodField, number: NumberField) -> Result<bool, MessageError> {
    match method {
        MethodField::Text(name) if name@ == method_name() => match number {
            NumberField::Missing => Err(MessageError::Invalid),
            NumberField::NotANumber => Err(MessageError::Invalid),
            NumberField::Unsigned(n) => Ok(prime(n as nat)),
            NumberField::OtherNumber => Ok(false),
        },
        _ => Err(MessageError::Invalid),
    }
}

/// Answers a request, given its two fields.
pub fn process_message(method: &MethodField, number: &NumberField) -> (r: Result<bool, MessageError>)
    ensures
        r == answer(*method, *number),
{
    let wanted = String::from_str("isPrime");
    proof {
        reveal_strlit("isPrime");
        assert(wanted@ =~= method_name());
    }
    match method {
        MethodField::Text(name) => {
            let same = *name == wanted;
            assert(same == (name@ == wanted@));
            if !same {
                return Err(MessageError::Invalid);
            }
        },
        _ => {
            return Err(MessageError::Invalid);
        },
    }
    match number {
        NumberField::Missing => Err(MessageError::Invalid),
        NumberField::NotANumber => Err(MessageError::Invalid),
        NumberField::Unsigned(n) => Ok(is_prime(*n)),
        NumberField::OtherNumber => Ok(false),
    }
}

} // verus!
