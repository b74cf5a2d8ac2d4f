use vstd::prelude::*;

verus! {

pub type IntptrT = i32;
pub type UintptrT = u32;
pub type PhysaddrT = u32;

/// The largest multiple of `n` that is at most `a`.
pub open spec fn rounddown_of(a: int, n: int) -> int {
    a - a % n
}

/// The smallest multiple of `n` that is at least `a`.
pub open spec fn roundup_of(a: int, n: int) -> int {
    rounddown_of(a + n - 1, n)
}

pub fn rounddown(a: u32, n: u32) -> (r: u32)
    requires
        n > 0,
    ensures
        r == rounddown_of(a as int, n as int),
{
    proof {
        vstd::arithmetic::div_mod::lemma_mod_decreases(a as nat, n as nat);
    }
    a - a % n
}

pub fn roundup(a: u32, n: u32) -> (r: u32)
    requires
        n > 0,
        a + n <= u32::MAX,
    ensures
        r == roundup_of(a as int, n as int),
{
    rounddown(a + n - 1, n)
}

/// Rounding down gives a multiple of `n` in `(a - n, a]`.
pub proof fn lemma_rounddown(a: int, n: int)
    requires
        a >= 0,
        n > 0,
    ensures
        rounddown_of(a, n) % n == 0,
        a - n < rounddown_of(a, n) <= a,
        rounddown_of(a, n) == (a / n) * n,
{
    vstd::arithmetic::div_mod::lemma_fundamental_div_mod(a, n);
    vstd::arithmetic::div_mod::lemma_mod_multiples_basic(a / n, n);
    vstd::arithmetic::mul::lemma_mul_is_commutative(n, a / n);
}

/// Rounding up gives the smallest multiple of `n` that is at least `a`.
pub proof fn lemma_roundup(a: int, n: int)
    requires
        a >= 0,
        n > 0,
    ensures
        roundup_of(a, n) % n == 0,
        a <= roundup_of(a, n) < a + n,
        a % n == 0 ==> roundup_of(a, n) == a,
{
    lemma_rounddown(a + n - 1, n);
    if a % n == 0 {
        vstd::arithmetic::div_mod::lemma_fundamental_div_mod(a, n);
        vstd::arithmetic::mul::lemma_mul_is_commutative(n, a / n);
        vstd::arithmetic::div_mod::lemma_fundamental_div_mod_converse(a + n - 1, n, a / n, n - 1);
    }
}

} // verus!
