use vstd::prelude::*;
use vstd::arithmetic::div_mod::*;
use crate::field::{is_inverse_mod, PrimeField};
use crate::group::Group;

verus! {

/// The Mersenne prime `2^31 - 1`.
pub const MODULUS: u64 = 2147483647;

/// An integer modulo `2^31 - 1`.
#[derive(Clone, Copy, Debug, PartialEq, Eq)]
pub struct Mersenne31 {
    pub v: u64,
}

/// An element of the additive group of the integers modulo `2^31 - 1`.
///
/// The group has prime order and its scalar field is `Mersenne31`. Logarithms
/// in it are divisions, so it hides nothing: it is the group on which the
/// arguments of this library can be run and checked by hand.
#[derive(Clone, Copy, Debug, PartialEq, Eq)]
pub struct Mersenne31Point {
    pub v: u64,
}

/// Nothing between 1 and the modulus divides it.
#[verifier::rlimit(100)]
pub proof fn lemma_modulus_prime()
    ensures
        forall|d: u32| 1 < d < 2147483647u32 ==> #[trigger] (2147483647u32 % d) != 0,
{
    assert(forall|d: u32| 1 < d < 2147483647u32 ==> #[trigger] (2147483647u32 % d) != 0)
        by (bit_vector);
}

/// The remainder of the modulus by `c` is not zero.
pub proof fn lemma_no_divisor(c: int)
    requires
        1 < c < MODULUS,
    ensures
        MODULUS as int % c != 0,
{
    lemma_modulus_prime();
    let d = c as u32;
    assert(2147483647u32 % d != 0);
    assert((2147483647u32 % d) as int == 2147483647int % (d as int));
}

/// With `P = c * q + r`, multiplying `c` by `P - q` gives `r` modulo `P`.
pub proof fn lemma_inverse_step(c: int, q: int, r: int)
    requires
        MODULUS as int == c * q + r,
        0 <= r < MODULUS,
    ensures
        (c * (MODULUS - q)) % (MODULUS as int) == r,
{
    let p = MODULUS as int;
    assert(c * (p - q) == p * (c - 1) + r) by (nonlinear_arith)
        requires
            p == c * q + r,
    ;
    lemma_mod_multiples_vanish(c - 1, r, p);
    lemma_small_mod(r as nat, p as nat);
}

/// The inverse of `a`, by the recurrence `inv(a) = -(P / a) * inv(P % a)`.
pub open spec fn inverse_spec(a: int) -> int
    decreases a,
{
    if a <= 1 {
        1
    } else {
        ((MODULUS - MODULUS as int / a) * inverse_spec(MODULUS as int % a)) % (MODULUS as int)
    }
}

pub proof fn lemma_inverse_spec(a: int)
    requires
        0 < a < MODULUS,
    ensures
        is_inverse_mod(MODULUS as int, a, inverse_spec(a)),
    decreases a,
{
    let p = MODULUS as int;
    if a > 1 {
        let q = p / a;
        let r = p % a;
        lemma_no_divisor(a);
        lemma_fundamental_div_mod(p, a);
        lemma_mod_bound(p, a);
        lemma_inverse_spec(r);
        let w = inverse_spec(r);
        lemma_inverse_step(a, q, r);
        // a * ((P - q) * w) = (a * (P - q)) * w, which is r * w modulo P
        lemma_mul_mod_noop_right(a, (p - q) * w, p);
        assert(a * ((p - q) * w) == (a * (p - q)) * w) by (nonlinear_arith);
        lemma_mul_mod_noop_left(a * (p - q), w, p);
    }
}

/// The residue that a byte string, read as a big-endian number, reduces to.
pub open spec fn reduce_bytes(bytes: Seq<u8>) -> int
    decreases bytes.len(),
{
    if bytes.len() == 0 {
        0
    } else {
        (reduce_bytes(bytes.drop_last()) * 256 + bytes.last()) % (MODULUS as int)
    }
}

/// The four little-endian bytes of `v`.
pub open spec fn encode4(v: int) -> Seq<u8> {
    seq![
        (v % 256) as u8,
        (v / 256 % 256) as u8,
        (v / 65536 % 256) as u8,
        (v / 16777216 % 256) as u8,
    ]
}

/// The number that four little-endian bytes stand for.
pub open spec fn decode4(b: Seq<u8>) -> int {
    b[0] + 256 * b[1] + 65536 * b[2] + 16777216 * b[3]
}

/// The four little-endian bytes of a number below `2^32`.
fn bytes4(x: u64) -> (r: Vec<u8>)
    requires
        x < 0x1_0000_0000,
    ensures
        r@ == encode4(x as int),
{
    let mut r: Vec<u8> = Vec::new();
    r.push((x % 256) as u8);
    r.push((x / 256 % 256) as u8);
    r.push((x / 65536 % 256) as u8);
    r.push((x / 16777216 % 256) as u8);
    proof {
        assert(r@ =~= encode4(x as int));
    }
    r
}

impl PrimeField for Mersenne31 {
    open spec fn modulus() -> int {
        MODULUS as int
    }

    open spec fn value(&self) -> int {
        (self.v % MODULUS) as int
    }

    open spec fn encode_spec(v: int) -> Seq<u8> {
        encode4(v)
    }

    open spec fn reduce_spec(bytes: Seq<u8>) -> int {
        reduce_bytes(bytes)
    }

    proof fn lemma_modulus() {
    }

    proof fn lemma_value_range(&self) {
    }

    proof fn lemma_invertible(a: int) {
        lemma_inverse_spec(a);
    }

    fn zero() -> (r: Self) {
        Mersenne31 { v: 0 }
    }

    fn one() -> (r: Self) {
        Mersenne31 { v: 1 }
    }

    fn add(&self, rhs: &Self) -> (r: Self) {
        Mersenne31 { v: (self.v % MODULUS + rhs.v % MODULUS) % MODULUS }
    }

    fn sub(&self, rhs: &Self) -> (r: Self) {
        Mersenne31 { v: (self.v % MODULUS + MODULUS - rhs.v % MODULUS) % MODULUS }
    }

    fn mul(&self, rhs: &Self) -> (r: Self) {
        let a = self.v % MODULUS;
        let b = rhs.v % MODULUS;
        proof {
            assert(a * b < 0x4000_0000_0000_0000) by (nonlinear_arith)
                requires
                    a < 0x8000_0000,
                    b < 0x8000_0000,
            ;
        }
        Mersenne31 { v: (a * b) % MODULUS }
    }

    fn inverse(&self) -> (r: Option<Self>) {
        let a0 = self.v % MODULUS;
        if a0 == 0 {
            return None;
        }
        let mut cur = a0;
        let mut acc: u64 = 1;
        while cur > 1
            invariant
                0 < cur < MODULUS,
                acc < MODULUS,
                0 < a0 < MODULUS,
                (a0 * acc) % (MODULUS as int) == cur,
            decreases cur,
        {
            let q = MODULUS / cur;
            let r = MODULUS % cur;
            let f = MODULUS - q;
            proof {
                assert(acc * f < 0x4000_0000_0000_0000) by (nonlinear_arith)
                    requires
                        acc < 0x8000_0000,
                        f < 0x8000_0000,
                ;
            }
            let next = (acc * f) % MODULUS;
            proof {
                let p = MODULUS as int;
                lemma_no_divisor(cur as int);
                lemma_fundamental_div_mod(p, cur as int);
                lemma_inverse_step(cur as int, q as int, r as int);
                // a0 * next = (a0 * acc) * f, which is cur * f modulo P
                lemma_mul_mod_noop_right(a0 as int, acc * f, p);
                assert(a0 * (acc * f) == (a0 * acc) * f) by (nonlinear_arith);
                lemma_mul_mod_noop_left(a0 * acc, f as int, p);
            }
            acc = next;
            cur = r;
        }
        Some(Mersenne31 { v: acc })
    }

    fn eq(&self, rhs: &Self) -> (r: bool) {
        self.v % MODULUS == rhs.v % MODULUS
    }

    fn to_bytes(&self) -> (r: Vec<u8>) {
        bytes4(self.v % MODULUS)
    }

    fn from_uniform_bytes(bytes: &[u8]) -> (r: Self) {
        let mut acc: u64 = 0;
        let mut i: usize = 0;
        while i < bytes.len()
            invariant
                i <= bytes@.len(),
                acc < MODULUS,
                acc == reduce_bytes(bytes@.take(i as int)),
            decreases bytes@.len() - i,
        {
            acc = (acc * 256 + bytes[i] as u64) % MODULUS;
            proof {
                assert(bytes@.take(i + 1).drop_last() =~= bytes@.take(i as int));
            }
            i += 1;
        }
        proof {
            assert(bytes@.take(i as int) =~= bytes@);
        }
        Mersenne31 { v: acc }
    }
}

impl Group for Mersenne31Point {
    type Scalar = Mersenne31;

    open spec fn identity_spec() -> Self {
        Mersenne31Point { v: 0 }
    }

    open spec fn add_spec(self, rhs: Self) -> Self {
        Mersenne31Point { v: ((self.v % MODULUS + rhs.v % MODULUS) % (MODULUS as int)) as u64 }
    }

    open spec fn mul_spec(self, s: int) -> Self {
        Mersenne31Point { v: (((self.v % MODULUS) * s) % (MODULUS as int)) as u64 }
    }

    open spec fn same(self, rhs: Self) -> bool {
        self.v % MODULUS == rhs.v % MODULUS
    }

    open spec fn compress_spec(self) -> Seq<u8> {
        encode4((self.v % MODULUS) as int)
    }

    open spec fn decompress_spec(bytes: Seq<u8>) -> Option<Self> {
        if bytes.len() == 4 && decode4(bytes) < MODULUS {
            Some(Mersenne31Point { v: decode4(bytes) as u64 })
        } else {
            None
        }
    }

    /// The point `s^2 + 7`.
    open spec fn from_scalar_spec(s: int) -> Self {
        Mersenne31Point { v: ((s * s + 7) % (MODULUS as int)) as u64 }
    }

    proof fn lemma_add_commutative(a: Self, b: Self) {
    }

    proof fn lemma_add_associative(a: Self, b: Self, c: Self) {
    }

    proof fn lemma_identity(r: int) {
        assert(0 * r == 0);
    }

    proof fn lemma_mul_distributes(a: Self, b: Self, r: int) {
        let p = MODULUS as int;
        let (x, y) = ((a.v % MODULUS) as int, (b.v % MODULUS) as int);
        lemma_mul_mod_noop_left(x + y, r, p);
        assert((x + y) * r == x * r + y * r) by (nonlinear_arith);
        lemma_add_mod_noop(x * r, y * r, p);
    }

    proof fn lemma_mul_adds(g: Self, s: int, t: int) {
        let p = MODULUS as int;
        let x = (g.v % MODULUS) as int;
        lemma_mul_mod_noop_right(x, s + t, p);
        assert(x * (s + t) == x * s + x * t) by (nonlinear_arith);
        lemma_add_mod_noop(x * s, x * t, p);
    }

    proof fn lemma_mul_associative(g: Self, s: int, r: int) {
        let p = MODULUS as int;
        let x = (g.v % MODULUS) as int;
        lemma_mul_mod_noop_left(x * s, r, p);
        assert((x * s) * r == x * (s * r)) by (nonlinear_arith);
    }

    fn identity() -> (r: Self) {
        Mersenne31Point { v: 0 }
    }

    fn add(&self, rhs: &Self) -> (r: Self) {
        Mersenne31Point { v: (self.v % MODULUS + rhs.v % MODULUS) % MODULUS }
    }

    fn mul(&self, s: &Mersenne31) -> (r: Self) {
        let a = self.v % MODULUS;
        let b = s.v % MODULUS;
        proof {
            assert(a * b < 0x4000_0000_0000_0000) by (nonlinear_arith)
                requires
                    a < 0x8000_0000,
                    b < 0x8000_0000,
            ;
        }
        Mersenne31Point { v: (a * b) % MODULUS }
    }

    fn eq(&self, rhs: &Self) -> (r: bool) {
        self.v % MODULUS == rhs.v % MODULUS
    }

    fn compress(&self) -> (r: Vec<u8>) {
        bytes4(self.v % MODULUS)
    }

    fn decompress(bytes: &[u8]) -> (r: Option<Self>) {
        if bytes.len() != 4 {
            return None;
        }
        let v: u64 = bytes[0] as u64 + 256 * (bytes[1] as u64) + 65536 * (bytes[2] as u64)
            + 16777216 * (bytes[3] as u64);
        if v < MODULUS {
            Some(Mersenne31Point { v })
        } else {
            None
        }
    }

    fn from_scalar(s: &Mersenne31) -> (r: Self) {
        let a = s.v % MODULUS;
        proof {
            assert(a * a < 0x4000_0000_0000_0000) by (nonlinear_arith)
                requires
                    a < 0x8000_0000,
            ;
        }
        Mersenne31Point { v: (a * a + 7) % MODULUS }
    }
}

} // verus!
