use vstd::arithmetic::div_mod::lemma_fundamental_div_mod;
use vstd::arithmetic::power2::{lemma2_to64, lemma_pow2_pos, lemma_pow2_strictly_increases, pow2};
use vstd::bits::{lemma_u64_shl_is_mul, lemma_u64_shr_is_div};
use vstd::prelude::*;

verus! {

/// Index of an object in the heap.
pub type Handle = usize;

/// A dynamic value. Numbers are held as the raw bits of an IEEE-754 double.
#[derive(Clone, Copy, PartialEq, Eq, Debug, Structural)]
pub enum Value {
    Nil,
    Bool(bool),
    Num(u64),
    Obj(Handle),
}

/// Truthiness: only `Nil` and `false` are falsy.
pub open spec fn is_truthy(v: Value) -> bool {
    match v {
        Value::Nil => false,
        Value::Bool(b) => b,
        _ => true,
    }
}

/// The biased exponent field of a double.
pub open spec fn exponent_of(bits: u64) -> int {
    (bits as int / 0x10000000000000) % 0x800
}

/// The stored fraction field of a double.
pub open spec fn fraction_of(bits: u64) -> int {
    bits as int % 0x10000000000000
}

/// The list index a number stands for: the number itself when it is a whole
/// number from 0 up to below 2^64, and none otherwise (negative, fractional,
/// infinite, NaN or too large). A finite double is its significand scaled by
/// two to the power of its unbiased exponent.
pub open spec fn index_of_bits(bits: u64) -> Option<u64> {
    let e = exponent_of(bits);
    let m = fraction_of(bits) + 0x10000000000000;
    if e == 0 && fraction_of(bits) == 0 {
        Some(0)
    } else if bits >= 0x8000000000000000u64 || e < 1023 || e >= 1087 {
        None
    } else if e >= 1075 {
        Some((m * pow2((e - 1075) as nat)) as u64)
    } else if m % (pow2((1075 - e) as nat) as int) == 0 {
        Some((m / (pow2((1075 - e) as nat) as int)) as u64)
    } else {
        None
    }
}

/// The list index that the number with these bits stands for, if any.
pub fn index_from_bits(bits: u64) -> (r: Option<u64>)
    ensures
        r == index_of_bits(bits),
{
    let exp = (bits >> 52u64) & 0x7ffu64;
    let frac = bits & 0xfffffffffffffu64;
    proof {
        assert(((bits >> 52u64) & 0x7ffu64) == (bits / 0x10000000000000u64) % 0x800u64) by (bit_vector);
        assert((bits & 0xfffffffffffffu64) == bits % 0x10000000000000u64) by (bit_vector);
        assert((bits >> 63u64 == 1u64) == (bits >= 0x8000000000000000u64)) by (bit_vector);
    }
    if exp == 0 && frac == 0 {
        return Some(0);
    }
    if (bits >> 63u64) == 1 || exp < 1023 || exp >= 1087 {
        return None;
    }
    let m = frac | 0x10000000000000u64;
    proof {
        assert(frac < 0x10000000000000u64 ==> (frac | 0x10000000000000u64) == frac + 0x10000000000000u64)
            by (bit_vector);
        lemma2_to64();
    }
    if exp >= 1075 {
        let k = exp - 1075;
        proof {
            assert(pow2(k as nat) <= 2048) by {
                if k < 11 {
                    lemma_pow2_strictly_increases(k as nat, 11);
                }
            }
            assert(m * pow2(k as nat) <= 0x1fffffffffffff * 2048) by (nonlinear_arith)
                requires
                    m <= 0x1fffffffffffff,
                    pow2(k as nat) <= 2048,
            ;
            lemma_u64_shl_is_mul(m, k);
        }
        Some(m << k)
    } else {
        let k = 1075 - exp;
        let q = m >> k;
        proof {
            lemma_u64_shr_is_div(m, k);
            lemma_pow2_pos(k as nat);
            lemma_fundamental_div_mod(m as int, pow2(k as nat) as int);
            assert(q * pow2(k as nat) <= m) by (nonlinear_arith)
                requires
                    q == m as nat / pow2(k as nat),
                    pow2(k as nat) > 0,
            ;
            lemma_u64_shl_is_mul(q, k);
        }
        if (q << k) == m {
            Some(q)
        } else {
            None
        }
    }
}

impl Value {
    pub fn nil() -> (r: Value)
        ensures
            r == Value::Nil,
    {
        Value::Nil
    }

    pub fn truelit() -> (r: Value)
        ensures
            r == Value::Bool(true),
    {
        Value::Bool(true)
    }

    pub fn falselit() -> (r: Value)
        ensures
            r == Value::Bool(false),
    {
        Value::Bool(false)
    }

    /// A number from the raw bits of a double.
    pub fn from_raw(bits: u64) -> (r: Value)
        ensures
            r == Value::Num(bits),
    {
        Value::Num(bits)
    }

    pub fn truthy(&self) -> (r: bool)
        ensures
            r == is_truthy(*self),
    {
        match self {
            Value::Nil => false,
            Value::Bool(b) => *b,
            _ => true,
        }
    }

    pub fn as_object(&self) -> (r: Option<Handle>)
        ensures
            r == (match *self {
                Value::Obj(h) => Some(h),
                _ => None::<Handle>,
            }),
    {
        match self {
            Value::Obj(h) => Some(*h),
            _ => None,
        }
    }
}

} // verus!
