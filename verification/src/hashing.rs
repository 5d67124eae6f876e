//! Polynomial rolling hash over a sliding byte window, modular
//! exponentiation, and the chunk fingerprint function.

use vstd::arithmetic::div_mod::{
    lemma_add_mod_noop, lemma_add_mod_noop_right, lemma_mod_twice,
    lemma_mul_mod_noop_left, lemma_mul_mod_noop_right, lemma_small_mod, lemma_sub_mod_noop_right,
};
use vstd::arithmetic::power::{
    lemma_pow0, lemma_pow1, lemma_pow_adds, lemma_pow_mod_noop, lemma_pow_multiplies,
    lemma_square_is_pow2, pow,
};
use vstd::prelude::*;

verus! {

/// Multiplier of the window hash.
pub const BASE: u64 = 257;

/// Modulus of the window hash.
pub const MODULUS: u64 = 1_000_000_007;

/// Window hash of a byte sequence: `h_0 = 0`,
/// `h_{k+1} = (h_k * BASE + byte) mod MODULUS`.
#[verifier::opaque]
pub open spec fn poly_hash(s: Seq<u8>) -> int
    decreases s.len(),
{
    if s.len() == 0 {
        0
    } else {
        (poly_hash(s.drop_last()) * (BASE as int) + s.last()) % (MODULUS as int)
    }
}

pub proof fn lemma_poly_hash_bounds(s: Seq<u8>)
    ensures
        0 <= poly_hash(s) < MODULUS,
    decreases s.len(),
{
    reveal(poly_hash);
    if s.len() != 0 {
        lemma_poly_hash_bounds(s.drop_last());
    }
}

pub proof fn lemma_poly_hash_empty()
    ensures
        poly_hash(Seq::<u8>::empty()) == 0,
{
    reveal(poly_hash);
}

/// One definitional step: appending a byte multiplies by `BASE`, adds the
/// byte and reduces.
pub proof fn lemma_poly_hash_push(s: Seq<u8>, x: u8)
    ensures
        poly_hash(s.push(x)) == (poly_hash(s) * (BASE as int) + x) % (MODULUS as int),
{
    reveal(poly_hash);
    assert(s.push(x).drop_last() =~= s);
    assert(s.push(x).last() == x);
}

/// A window hash in "front" form: the first byte contributes
/// `byte * BASE^(len-1)`, the rest hash as usual.
#[verifier::rlimit(50)]
pub proof fn lemma_poly_hash_prepend(c: u8, t: Seq<u8>)
    ensures
        poly_hash(seq![c] + t) == ((c as int) * pow(BASE as int, t.len()) + poly_hash(t)) % (
        MODULUS as int),
    decreases t.len(),
{
    reveal(poly_hash);
    let m = MODULUS as int;
    let b = BASE as int;
    if t.len() == 0 {
        assert(seq![c] + t =~= seq![c]);
        assert((seq![c]).drop_last() =~= Seq::<u8>::empty());
        lemma_pow0(b);
        lemma_small_mod((c as int) as nat, m as nat);
        assert(poly_hash(Seq::<u8>::empty()) == 0);
        assert((seq![c]).last() == c);
        assert(poly_hash(seq![c]) == (poly_hash((seq![c]).drop_last()) * b + (seq![c]).last()) % m);
        assert(poly_hash(seq![c]) == ((0 * b + c) % m));
    } else {
        let t0 = t.drop_last();
        let x = t.last();
        let n0 = t0.len();
        lemma_poly_hash_prepend(c, t0);
        let h0 = poly_hash(t0);
        let p0 = pow(b, n0);
        let p1 = pow(b, n0 + 1);
        let core = (c as int) * p0 + h0;
        assert(poly_hash(seq![c] + t) == ((core % m) * b + x) % m) by {
            assert((seq![c] + t).drop_last() =~= seq![c] + t0);
            assert((seq![c] + t).last() == x);
        }
        assert(((core % m) * b + x) % m == (core * b + x) % m) by {
            lemma_add_mod_noop((core % m) * b, x as int, m);
            lemma_mul_mod_noop_left(core, b, m);
            lemma_add_mod_noop(core * b, x as int, m);
            lemma_small_mod(x as nat, m as nat);
        }
        assert(core * b + x == (c as int) * p1 + (h0 * b + x)) by {
            assert(p1 == p0 * b) by {
                lemma_pow1(b);
                lemma_pow_adds(b, n0, 1);
            }
            assert(((c as int) * p0 + h0) * b + x == (c as int) * (p0 * b) + (h0 * b + x))
                by (nonlinear_arith);
        }
        assert(((c as int) * p1 + (h0 * b + x)) % m == ((c as int) * p1 + poly_hash(t)) % m) by {
            assert(poly_hash(t) == (h0 * b + x) % m);
            lemma_add_mod_noop_right((c as int) * p1, h0 * b + x, m);
            lemma_add_mod_noop_right((c as int) * p1, poly_hash(t), m);
            vstd::arithmetic::div_mod::lemma_mod_twice(h0 * b + x, m);
        }
        assert(t.len() == n0 + 1);
    }
}

/// The subtract-multiply-add update: remove the outgoing byte's
/// contribution (`outgoing * BASE^(window-1) mod MODULUS`, the factor
/// passed as `out_factor`), shift by `BASE`, add the incoming byte.
pub open spec fn roll_update(h: int, outgoing: u8, incoming: u8, out_factor: int) -> int {
    (((h + MODULUS - ((outgoing as int) * out_factor) % (MODULUS as int)) % (MODULUS as int)) * (
    BASE as int) + incoming) % (MODULUS as int)
}

/// The O(1) rolling update law: dropping the window's first byte and
/// appending an incoming byte changes the window hash exactly as the
/// subtract-multiply-add update computes it.
pub proof fn lemma_poly_hash_roll(w: Seq<u8>, x: u8)
    requires
        w.len() >= 1,
    ensures
        poly_hash(w.drop_first().push(x)) == roll_update(
            poly_hash(w),
            w[0],
            x,
            pow(BASE as int, (w.len() - 1) as nat) % (MODULUS as int),
        ),
{
    reveal(poly_hash);
    let m = MODULUS as int;
    let b = BASE as int;
    let t = w.drop_first();
    let n1 = t.len();
    let c = w[0];
    assert(w =~= seq![c] + t);
    lemma_poly_hash_prepend(c, t);
    lemma_poly_hash_bounds(t);
    lemma_poly_hash_bounds(w);
    let full = (c as int) * pow(b, n1) + poly_hash(t);
    assert(poly_hash(w) == full % m);
    let sub = ((c as int) * (pow(b, n1) % m)) % m;
    // sub == (c * pow(b, n1)) % m
    lemma_mul_mod_noop_right(c as int, pow(b, n1), m);
    assert(sub == ((c as int) * pow(b, n1)) % m);
    let d = (poly_hash(w) + m - sub) % m;
    // d == poly_hash(t)
    let cp = (c as int) * pow(b, n1);
    // replace full % m by full under the outer mod, then cancel c * pow
    lemma_sub_mod_noop_right(full % m + m, cp, m);
    assert((full % m + m - cp % m) % m == (full % m + m - cp) % m);
    vstd::arithmetic::div_mod::lemma_mod_add_multiples_vanish(full % m - cp, m);
    assert((full % m + m - cp) % m == (full % m - cp) % m);
    vstd::arithmetic::div_mod::lemma_sub_mod_noop(full, cp, m);
    lemma_mod_twice(full, m);
    lemma_mod_twice(cp, m);
    assert((full % m - cp % m) % m == (full - cp) % m);
    lemma_sub_mod_noop_right(full % m, cp, m);
    assert((full % m - cp) % m == (full % m - cp % m) % m);
    assert(full - cp == poly_hash(t));
    lemma_small_mod(poly_hash(t) as nat, m as nat);
    assert(d == poly_hash(t));
    // and the final fold is the definition of poly_hash(t.push(x))
    assert((t.push(x)).drop_last() =~= t);
    assert((t.push(x)).last() == x);
}

/// Modular exponentiation by squaring. When the exponent is zero the
/// result is 1 without reduction, as the repeated-squaring loop leaves
/// its accumulator untouched.
pub fn fast_pow(base: u64, exp: usize, modulus: u64) -> (r: u64)
    requires
        1 <= modulus,
        modulus <= 0x1_0000_0000u64,
    ensures
        r == (if exp == 0 {
            1int
        } else {
            pow(base as int, exp as nat) % (modulus as int)
        }),
        r < modulus || r == 1,
{
    let m = modulus;
    let mut result: u64 = 1;
    let mut b: u64 = base % m;
    let mut e: usize = exp;
    proof {
        lemma_pow_mod_noop(base as int, exp as nat, m as int);
    }
    while e > 0
        invariant
            1 <= m <= 0x1_0000_0000u64,
            b < m,
            e <= exp,
            result < m || result == 1,
            exp == 0 ==> result == 1,
            (result as int * pow(b as int, e as nat)) % (m as int) == pow(base as int, exp as nat)
                % (m as int),
            (e == 0 && exp > 0) ==> result < m,
        decreases e,
    {
        let ghost r0 = result as int;
        let ghost b0 = b as int;
        let ghost e0 = e as nat;
        let ghost mi = m as int;
        let ghost e1 = (e0 / 2) as nat;
        if e % 2 == 1 {
            proof {
                assert(r0 * b0 < 0x1_0000_0000_0000_0000) by (nonlinear_arith)
                    requires
                        0 <= r0,
                        0 <= b0,
                        r0 < mi || r0 == 1,
                        b0 < mi,
                        1 <= mi <= 0x1_0000_0000,
                ;
            }
            result = (result * b) % m;
            proof {
                // r0 * pow(b0, e0) == (r0 * b0) * pow(b0, 2 * e1)
                lemma_pow_adds(b0, 1nat, (2 * e1) as nat);
                lemma_pow1(b0);
                assert(pow(b0, e0) == b0 * pow(b0, (2 * e1) as nat));
                assert(r0 * (b0 * pow(b0, (2 * e1) as nat)) == (r0 * b0) * pow(
                    b0,
                    (2 * e1) as nat,
                )) by (nonlinear_arith);
                lemma_mul_mod_noop_left(r0 * b0, pow(b0, (2 * e1) as nat), mi);
                assert((result as int * pow(b0, (2 * e1) as nat)) % mi == pow(
                    base as int,
                    exp as nat,
                ) % mi);
            }
        } else {
            proof {
                assert(e0 == 2 * e1);
                assert((result as int * pow(b0, (2 * e1) as nat)) % mi == pow(
                    base as int,
                    exp as nat,
                ) % mi);
            }
        }
        let ghost r1 = result as int;
        proof {
            assert(b0 * b0 < 0x1_0000_0000_0000_0000) by (nonlinear_arith)
                requires
                    0 <= b0,
                    b0 < mi,
                    1 <= mi <= 0x1_0000_0000,
            ;
        }
        e = e / 2;
        b = (b * b) % m;
        proof {
            // pow(b0, 2 * e1) == pow(b0 * b0, e1)
            lemma_square_is_pow2(b0);
            lemma_pow_multiplies(b0, 2nat, e1);
            assert(pow(b0 * b0, e1) == pow(b0, (2 * e1) as nat));
            // replace the squared base by its reduction mod m
            lemma_pow_mod_noop(b0 * b0, e1, mi);
            lemma_mul_mod_noop_right(r1, pow(b0 * b0, e1), mi);
            lemma_mul_mod_noop_right(r1, pow((b0 * b0) % mi, e1), mi);
            assert((r1 * pow(b as int, e as nat)) % mi == pow(base as int, exp as nat) % mi);
        }
    }
    proof {
        lemma_pow0(b as int);
        assert(pow(b as int, 0nat) == 1);
        assert((result as int) % (m as int) == pow(base as int, exp as nat) % (m as int));
        if exp > 0 {
            lemma_small_mod(result as nat, m as nat);
        }
    }
    result
}

/// Deterministic, order-sensitive chunk fingerprint:
/// `h_0 = 0`, `h_{k+1} = h_k * 31 + byte`, wrapping at 64 bits.
#[verifier::opaque]
pub open spec fn fingerprint_of(bytes: Seq<u8>) -> u64
    decreases bytes.len(),
{
    if bytes.len() == 0 {
        0u64
    } else {
        vstd::wrapping::u64_specs::wrapping_add(
            vstd::wrapping::u64_specs::wrapping_mul(fingerprint_of(bytes.drop_last()), 31u64),
            bytes.last() as u64,
        )
    }
}

/// Reduces a chunk's bytes to a fixed-width fingerprint. Two byte-identical
/// chunks always produce the same fingerprint; collisions are tolerated as
/// rare false-positive matches.
pub fn simple_hash(bytes: &[u8]) -> (h: u64)
    ensures
        h == fingerprint_of(bytes@),
{
    let mut h: u64 = 0;
    let n: usize = bytes.len();
    let mut i: usize = 0;
    proof {
        reveal(fingerprint_of);
    }
    while i < n
        invariant
            n == bytes@.len(),
            i <= n,
            h == fingerprint_of(bytes@.take(i as int)),
        decreases n - i,
    {
        proof {
            reveal(fingerprint_of);
            assert(bytes@.take(i + 1).drop_last() =~= bytes@.take(i as int));
        }
        h = h.wrapping_mul(31).wrapping_add(bytes[i] as u64);
        i = i + 1;
    }
    proof {
        reveal(fingerprint_of);
        assert(bytes@.take(n as int) =~= bytes@);
    }
    h
}

} // verus!
