use vstd::prelude::*;
use vstd::arithmetic::div_mod::*;
use crate::errors::NovaError;

verus! {

/// `b` is the canonical inverse of `a` modulo `p`.
pub open spec fn is_inverse_mod(p: int, a: int, b: int) -> bool {
    0 <= b < p && (a * b) % p == 1
}

/// Number of bytes drawn from a transcript for one challenge scalar.
pub const CHALLENGE_BYTES: usize = 64;

/// A prime field whose elements are viewed as their canonical residues.
///
/// An implementation supplies the arithmetic; every contract of this library
/// is stated over `value()`, an integer in `[0, modulus())`.
pub trait PrimeField: Sized + Copy {
    /// The order of the field.
    spec fn modulus() -> int;

    /// The canonical residue that this element stands for.
    spec fn value(&self) -> int;

    /// The canonical byte encoding of a residue.
    spec fn encode_spec(v: int) -> Seq<u8>;

    /// The residue that uniformly drawn bytes reduce to.
    spec fn reduce_spec(bytes: Seq<u8>) -> int;

    proof fn lemma_modulus()
        ensures
            Self::modulus() > 1,
    ;

    proof fn lemma_value_range(&self)
        ensures
            0 <= self.value() < Self::modulus(),
    ;

    /// Every non-zero residue has an inverse: the modulus is prime.
    proof fn lemma_invertible(a: int)
        requires
            0 < a < Self::modulus(),
        ensures
            exists|b: int| is_inverse_mod(Self::modulus(), a, b),
    ;

    fn zero() -> (r: Self)
        ensures
            r.value() == 0,
    ;

    fn one() -> (r: Self)
        ensures
            r.value() == 1,
    ;

    fn add(&self, rhs: &Self) -> (r: Self)
        ensures
            r.value() == (self.value() + rhs.value()) % Self::modulus(),
    ;

    fn sub(&self, rhs: &Self) -> (r: Self)
        ensures
            r.value() == (self.value() - rhs.value()) % Self::modulus(),
    ;

    fn mul(&self, rhs: &Self) -> (r: Self)
        ensures
            r.value() == (self.value() * rhs.value()) % Self::modulus(),
    ;

    /// `None` exactly on zero.
    fn inverse(&self) -> (r: Option<Self>)
        ensures
            self.value() == 0 ==> r is None,
            self.value() != 0 ==> r is Some && is_inverse_mod(
                Self::modulus(),
                self.value(),
                r.unwrap().value(),
            ),
    ;

    fn eq(&self, rhs: &Self) -> (r: bool)
        ensures
            r == (self.value() == rhs.value()),
    ;

    fn to_bytes(&self) -> (r: Vec<u8>)
        ensures
            r@ == Self::encode_spec(self.value()),
            r@.len() <= u32::MAX,
    ;

    fn from_uniform_bytes(bytes: &[u8]) -> (r: Self)
        ensures
            r.value() == Self::reduce_spec(bytes@),
    ;
}

/// The residues of a sequence of field elements.
pub open spec fn values<F: PrimeField>(s: Seq<F>) -> Seq<int> {
    Seq::new(s.len(), |i: int| s[i].value())
}

/// The integer dot product of the common prefix of two sequences.
pub open spec fn dot(a: Seq<int>, b: Seq<int>) -> int
    decreases a.len(),
{
    if a.len() == 0 || b.len() == 0 {
        0
    } else {
        dot(a.drop_last(), b.drop_last()) + a.last() * b.last()
    }
}

/// The inner product of two equally long vectors.
pub fn inner_product<F: PrimeField>(a: &[F], b: &[F]) -> (r: F)
    requires
        a@.len() == b@.len(),
    ensures
        r.value() == dot(values(a@), values(b@)) % F::modulus(),
{
    let mut acc = F::zero();
    let mut i: usize = 0;
    proof {
        F::lemma_modulus();
        lemma_small_mod(0, F::modulus() as nat);
    }
    while i < a.len()
        invariant
            0 <= i <= a@.len(),
            a@.len() == b@.len(),
            F::modulus() > 1,
            acc.value() == dot(values(a@).take(i as int), values(b@).take(i as int))
                % F::modulus(),
        decreases a@.len() - i,
    {
        let t = a[i].mul(&b[i]);
        let ghost prev = acc.value();
        acc = acc.add(&t);
        proof {
            let va = values(a@);
            let vb = values(b@);
            let p = F::modulus();
            assert(va.take(i + 1).drop_last() =~= va.take(i as int));
            assert(vb.take(i + 1).drop_last() =~= vb.take(i as int));
            let d = dot(va.take(i as int), vb.take(i as int));
            assert(dot(va.take(i + 1), vb.take(i + 1)) == d + va[i as int] * vb[i as int]);
            lemma_add_mod_noop(d, va[i as int] * vb[i as int], p);
        }
        i += 1;
    }
    proof {
        assert(values(a@).take(i as int) =~= values(a@));
        assert(values(b@).take(i as int) =~= values(b@));
    }
    acc
}

/// The integer product of all entries of a sequence.
pub open spec fn prod(s: Seq<int>) -> int
    decreases s.len(),
{
    if s.len() == 0 {
        1
    } else {
        prod(s.drop_last()) * s.last()
    }
}

/// No entry of the sequence is zero.
pub open spec fn all_nonzero(s: Seq<int>) -> bool {
    forall|i: int| 0 <= i < s.len() ==> s[i] != 0
}

/// `(x * y * z) % p` does not change when `x * y` is reduced first.
pub proof fn lemma_mul3_mod(x: int, y: int, z: int, p: int)
    requires
        p > 0,
    ensures
        (((x * y) % p) * z) % p == (x * (y * z)) % p,
        (x * ((y * z) % p)) % p == (x * (y * z)) % p,
        (x * y) * z == x * (y * z),
{
    lemma_mul_mod_noop_left(x * y, z, p);
    lemma_mul_mod_noop_right(x, y * z, p);
    assert((x * y) * z == x * (y * z)) by (nonlinear_arith);
}

/// A residue has at most one canonical inverse.
pub proof fn lemma_inverse_unique(p: int, a: int, b: int, c: int)
    requires
        p > 1,
        is_inverse_mod(p, a, b),
        is_inverse_mod(p, a, c),
    ensures
        b == c,
{
    // b = b * (a * c) = (b * a) * c = c, all modulo p
    lemma_mul3_mod(b, a, c, p);
    lemma_mul3_mod(c, a, b, p);
    assert(b * (a * c) == c * (a * b)) by (nonlinear_arith);
    assert(b * 1 == b && c * 1 == c);
    lemma_small_mod(b as nat, p as nat);
    lemma_small_mod(c as nat, p as nat);
}

/// In a field a product of residues is zero exactly when a factor is.
pub proof fn lemma_prod_zero<F: PrimeField>(s: Seq<int>)
    requires
        forall|i: int| 0 <= i < s.len() ==> 0 <= #[trigger] s[i] < F::modulus(),
    ensures
        (prod(s) % F::modulus() != 0) <==> all_nonzero(s),
    decreases s.len(),
{
    let p = F::modulus();
    F::lemma_modulus();
    if s.len() == 0 {
        lemma_small_mod(1, p as nat);
    } else {
        let t = s.drop_last();
        let v = s.last();
        lemma_prod_zero::<F>(t);
        if v == 0 {
            assert(prod(t) * 0 == 0);
            lemma_small_mod(0, p as nat);
            assert(s[s.len() - 1] == 0);
        } else if !all_nonzero(t) {
            let i = choose|i: int| 0 <= i < t.len() && t[i] == 0;
            assert(s[i] == 0);
            lemma_mul_mod_noop_left(prod(t), v, p);
            assert(0 * v == 0);
            lemma_small_mod(0, p as nat);
        } else {
            assert forall|i: int| 0 <= i < s.len() implies s[i] != 0 by {
                if i < t.len() {
                    assert(t[i] != 0);
                }
            }
            if (prod(t) * v) % p == 0 {
                F::lemma_invertible(v);
                let w = choose|w: int| is_inverse_mod(p, v, w);
                // prod(t) = prod(t) * (v * w) = (prod(t) * v) * w = 0, all modulo p
                lemma_mul3_mod(prod(t), v, w, p);
                assert(0 * w == 0);
                assert(prod(t) * 1 == prod(t));
                lemma_small_mod(0, p as nat);
            }
        }
    }
}

/// A vector of `n` copies of `x`.
fn filled<F: PrimeField>(x: F, n: usize) -> (r: Vec<F>)
    ensures
        r@.len() == n,
        forall|i: int| 0 <= i < n ==> r@[i] == x,
{
    let mut r: Vec<F> = Vec::new();
    let mut i: usize = 0;
    while i < n
        invariant
            i <= n,
            r@.len() == i,
            forall|j: int| 0 <= j < i ==> r@[j] == x,
        decreases n - i,
    {
        r.push(x);
        i += 1;
    }
    r
}

/// Inverts every entry with a single field inversion.
///
/// Succeeds exactly when no entry is zero; each entry of the result is then
/// the inverse of the entry at the same place.
pub fn batch_invert<F: PrimeField>(v: &[F]) -> (r: Result<Vec<F>, NovaError>)
    ensures
        r is Ok <==> all_nonzero(values(v@)),
        r is Err ==> r == Err::<Vec<F>, NovaError>(NovaError::InvalidIPA),
        r is Ok ==> r.unwrap()@.len() == v@.len() && forall|i: int|
            0 <= i < v@.len() ==> is_inverse_mod(
                F::modulus(),
                #[trigger] values(v@)[i],
                r.unwrap()@[i].value(),
            ),
{
    let n = v.len();
    let ghost vals = values(v@);
    let ghost p = F::modulus();
    let mut products: Vec<F> = Vec::new();
    let mut acc = F::one();
    let mut i: usize = 0;
    proof {
        F::lemma_modulus();
        lemma_small_mod(1, p as nat);
        assert forall|i: int| 0 <= i < vals.len() implies 0 <= #[trigger] vals[i] < p by {
            v@[i].lemma_value_range();
        }
        lemma_prod_zero::<F>(vals);
    }
    while i < n
        invariant
            i <= n,
            n == v@.len(),
            vals == values(v@),
            p == F::modulus(),
            p > 1,
            products@.len() == i,
            forall|j: int| 0 <= j < i ==> (#[trigger] products@[j]).value() == prod(vals.take(j)) % p,
            acc.value() == prod(vals.take(i as int)) % p,
        decreases n - i,
    {
        products.push(acc);
        acc = acc.mul(&v[i]);
        proof {
            assert(vals.take(i + 1).drop_last() =~= vals.take(i as int));
            lemma_mul_mod_noop_left(prod(vals.take(i as int)), vals[i as int], p);
        }
        i += 1;
    }
    proof {
        assert(vals.take(n as int) =~= vals);
    }
    let inverted = acc.inverse();
    if inverted.is_none() {
        return Err(NovaError::InvalidIPA);
    }
    let mut acc = inverted.unwrap();
    let mut inv = filled(F::zero(), n);
    let mut k: usize = n;
    proof {
        assert(((prod(vals) % p) * acc.value()) % p == 1);
        assert((prod(vals) % p) * acc.value() == acc.value() * (prod(vals) % p))
            by (nonlinear_arith);
    }
    while k > 0
        invariant
            k <= n,
            n == v@.len(),
            vals == values(v@),
            p == F::modulus(),
            p > 1,
            products@.len() == n,
            inv@.len() == n,
            forall|j: int| 0 <= j < n ==> (#[trigger] products@[j]).value() == prod(vals.take(j)) % p,
            (acc.value() * (prod(vals.take(k as int)) % p)) % p == 1,
            forall|j: int| k <= j < n ==> is_inverse_mod(p, #[trigger] vals[j], inv@[j].value()),
        decreases k,
    {
        let j = k - 1;
        let tmp = acc.mul(&v[j]);
        let e = products[j].mul(&acc);
        inv.set(j, e);
        proof {
            let pj = prod(vals.take(j as int));
            let vj = vals[j as int];
            let a = acc.value();
            assert(vals.take(k as int).drop_last() =~= vals.take(j as int));
            assert(prod(vals.take(k as int)) == pj * vj);
            e.lemma_value_range();
            // a * (pj * vj) is 1 modulo p
            lemma_mul_mod_noop_right(a, pj * vj, p);
            assert((a * (pj * vj)) % p == 1);
            // e = pj * a, so vj * e = a * (pj * vj)
            lemma_mul_mod_noop_left(pj, a, p);
            assert(e.value() == (pj * a) % p);
            lemma_mul_mod_noop_right(vj, pj * a, p);
            assert(vj * (pj * a) == a * (pj * vj)) by (nonlinear_arith);
            assert((vj * e.value()) % p == 1);
            // tmp = a * vj, so tmp * pj = a * (pj * vj)
            lemma_mul_mod_noop_left(a * vj, pj, p);
            lemma_mul_mod_noop_right(tmp.value(), pj, p);
            assert((a * vj) * pj == a * (pj * vj)) by (nonlinear_arith);
            assert((tmp.value() * (pj % p)) % p == 1);
        }
        acc = tmp;
        k = j;
    }
    Ok(inv)
}

/// In a field, a product of two residues is zero only if one of them is.
pub proof fn lemma_no_zero_divisors<F: PrimeField>(a: int, b: int)
    requires
        0 <= a < F::modulus(),
        0 <= b < F::modulus(),
        (a * b) % F::modulus() == 0,
    ensures
        a == 0 || b == 0,
{
    let s = seq![a, b];
    assert(s.drop_last() =~= seq![a]);
    assert(seq![a].drop_last() =~= Seq::<int>::empty());
    assert(prod(Seq::<int>::empty()) == 1);
    assert(seq![a].last() == a && s.last() == b);
    assert(prod(seq![a]) == 1 * a);
    assert(prod(s) == a * b);
    lemma_prod_zero::<F>(s);
    if a != 0 && b != 0 {
        assert forall|i: int| 0 <= i < s.len() implies s[i] != 0 by {}
    }
}

/// A number strictly between `-p` and `p` that `p` divides is zero.
pub proof fn lemma_residue_zero(p: int, v: int)
    requires
        p > 0,
        -p < v < p,
        v % p == 0,
    ensures
        v == 0,
{
    if v > 0 {
        lemma_small_mod(v as nat, p as nat);
    } else if v < 0 {
        lemma_mod_add_multiples_vanish(v, p);
        lemma_small_mod((v + p) as nat, p as nat);
    }
}

/// Two numbers that agree modulo `p` differ by a multiple of `p`.
pub proof fn lemma_congruent_difference(p: int, a: int, b: int)
    requires
        p > 0,
        a % p == b % p,
    ensures
        (a - b) % p == 0,
{
    lemma_sub_mod_noop(a, b, p);
    lemma_small_mod(0, p as nat);
}

/// Batch inversion agrees with inversion entry by entry: what it gives at
/// a place is what inverting the entry at that place gives.
pub proof fn lemma_batch_invert_pointwise<F: PrimeField>(
    v: Seq<int>,
    batch: Seq<int>,
    i: int,
    single: int,
)
    requires
        0 <= i < v.len(),
        batch.len() == v.len(),
        forall|j: int| 0 <= j < v.len() ==> is_inverse_mod(F::modulus(), #[trigger] v[j], batch[j]),
        is_inverse_mod(F::modulus(), v[i], single),
    ensures
        batch[i] == single,
{
    F::lemma_modulus();
    assert(is_inverse_mod(F::modulus(), v[i], batch[i]));
    lemma_inverse_unique(F::modulus(), v[i], batch[i], single);
}

} // verus!
