//! Packing of short tuples of 32-bit identifiers into one 128-bit hash key.
//!
//! A key is built one identifier at a time: `push(base, m)` appends `m` to the
//! tuple that `base` stands for. A tuple of up to four identifiers fits.

use vstd::prelude::*;
use vstd::arithmetic::div_mod::lemma_fundamental_div_mod_converse;

verus! {

/// Number of values of one identifier, `2^32`.
pub const RADIX: u128 = 0x1_0000_0000;

/// Exclusive bound on a key to which one more identifier can be appended, `2^96`.
pub const BASE_LIMIT: u128 = 0x1_0000_0000_0000_0000_0000_0000;

/// The key of the tuple `base` extended by `m`.
pub open spec fn push(base: u128, m: u32) -> u128 {
    (base * RADIX + m) as u128
}

/// The key of a pair.
pub open spec fn key2(a: u32, b: u32) -> u128 {
    push(a as u128, b)
}

/// The key of a triple.
pub open spec fn key3(a: u32, b: u32, c: u32) -> u128 {
    push(key2(a, b), c)
}

/// The key of a quadruple.
pub open spec fn key4(a: u32, b: u32, c: u32, d: u32) -> u128 {
    push(key3(a, b, c), d)
}

/// The tuple without its last identifier.
pub open spec fn front(k: u128) -> u128 {
    k / RADIX
}

/// The last identifier of the tuple.
pub open spec fn last(k: u128) -> u32 {
    (k % RADIX) as u32
}

/// Appending is undone by `front` and `last`, and stays below the next limit.
pub proof fn lemma_push(base: u128, m: u32)
    requires
        base < BASE_LIMIT,
    ensures
        base * RADIX + m < BASE_LIMIT * RADIX,
        front(push(base, m)) == base,
        last(push(base, m)) == m,
{
    assert(base * RADIX + m < BASE_LIMIT * RADIX) by (nonlinear_arith)
        requires
            base < BASE_LIMIT,
            m < RADIX,
            RADIX > 0,
    ;
    assert(BASE_LIMIT * RADIX == 0x1_0000_0000_0000_0000_0000_0000_0000_0000int) by (nonlinear_arith);
    let x: int = base * RADIX + m;
    lemma_fundamental_div_mod_converse(x, RADIX as int, base as int, m as int);
}

/// A key is rebuilt from its `front` and `last`.
pub proof fn lemma_front_last(k: u128)
    ensures
        front(k) < BASE_LIMIT,
        push(front(k), last(k)) == k,
{
    assert(k / RADIX < BASE_LIMIT && (k / RADIX) * RADIX + (k % RADIX) == k) by (bit_vector)
        requires
            RADIX == 0x1_0000_0000u128,
            BASE_LIMIT == 0x1_0000_0000_0000_0000_0000_0000u128,
    ;
}

/// Bounds on the keys of pairs and triples, so that they can be extended.
pub proof fn lemma_key_bounds(a: u32, b: u32, c: u32)
    ensures
        (a as u128) < BASE_LIMIT,
        key2(a, b) < BASE_LIMIT,
        key3(a, b, c) < BASE_LIMIT,
        key2(a, b) < RADIX * RADIX,
        key3(a, b, c) < RADIX * RADIX * RADIX,
{
    assert(a as u128 * RADIX + b < RADIX * RADIX) by (nonlinear_arith)
        requires
            a < RADIX,
            b < RADIX,
    ;
    assert(RADIX * RADIX == 0x1_0000_0000_0000_0000int) by (nonlinear_arith);
    let k: u128 = key2(a, b);
    assert(k * RADIX + c < RADIX * RADIX * RADIX) by (nonlinear_arith)
        requires
            k < RADIX * RADIX,
            c < RADIX,
    ;
    assert(RADIX * RADIX * RADIX == 0x1_0000_0000_0000_0000_0000_0000int) by (nonlinear_arith);
}

/// Whether `k` is the key of a pair.
pub open spec fn is_key2(k: u128) -> bool {
    front(front(k)) == 0
}

/// Whether `k` is the key of a triple.
pub open spec fn is_key3(k: u128) -> bool {
    front(front(front(k))) == 0
}

/// The pair whose key `k` is.
pub open spec fn pair_of(k: u128) -> (u32, u32) {
    (last(front(k)), last(k))
}

/// The triple whose key `k` is.
pub open spec fn triple_of(k: u128) -> (u32, u32, u32) {
    (last(front(front(k))), last(front(k)), last(k))
}

/// The quadruple whose key `k` is.
pub open spec fn quad_of(k: u128) -> (u32, u32, u32, u32) {
    (last(front(front(front(k)))), last(front(front(k))), last(front(k)), last(k))
}

/// Pairs and their keys correspond one to one.
pub proof fn lemma_key2(a: u32, b: u32)
    ensures
        is_key2(key2(a, b)),
        pair_of(key2(a, b)) == (a, b),
        key2(a, b) < BASE_LIMIT,
{
    lemma_key_bounds(a, b, 0);
    lemma_push(a as u128, b);
    assert(front(a as u128) == 0 && last(a as u128) == a) by (bit_vector)
        requires
            RADIX == 0x1_0000_0000u128,
            front(a as u128) == (a as u128) / RADIX,
            last(a as u128) == (((a as u128) % RADIX) as u32),
    ;
}

/// Triples and their keys correspond one to one.
pub proof fn lemma_key3(a: u32, b: u32, c: u32)
    ensures
        is_key3(key3(a, b, c)),
        triple_of(key3(a, b, c)) == (a, b, c),
        key3(a, b, c) < BASE_LIMIT,
{
    lemma_key2(a, b);
    lemma_key_bounds(a, b, c);
    lemma_push(key2(a, b), c);
}

/// Quadruples and their keys correspond one to one.
pub proof fn lemma_key4(a: u32, b: u32, c: u32, d: u32)
    ensures
        quad_of(key4(a, b, c, d)) == (a, b, c, d),
{
    lemma_key3(a, b, c);
    lemma_push(key3(a, b, c), d);
}

/// A key of a pair is the key of the pair it unpacks to.
pub proof fn lemma_pair_of(k: u128)
    requires
        is_key2(k),
    ensures
        key2(pair_of(k).0, pair_of(k).1) == k,
{
    lemma_front_last(k);
    lemma_front_last(front(k));
    assert(front(k) == last(front(k)) as u128) by {
        assert(push(0, last(front(k))) == last(front(k)) as u128);
    }
}

/// A key of a triple is the key of the triple it unpacks to.
pub proof fn lemma_triple_of(k: u128)
    requires
        is_key3(k),
    ensures
        key3(triple_of(k).0, triple_of(k).1, triple_of(k).2) == k,
{
    lemma_front_last(k);
    lemma_pair_of(front(k));
}

/// Every key is the key of the quadruple it unpacks to.
pub proof fn lemma_quad_of(k: u128)
    ensures
        key4(quad_of(k).0, quad_of(k).1, quad_of(k).2, quad_of(k).3) == k,
{
    lemma_front_last(k);
    assert(is_key3(front(k))) by {
        assert(k / RADIX / RADIX / RADIX / RADIX == 0) by (bit_vector)
            requires
                RADIX == 0x1_0000_0000u128,
        ;
    }
    lemma_triple_of(front(k));
}

/// Computes `push(base, m)`.
pub fn make(base: u128, m: u32) -> (k: u128)
    requires
        base < BASE_LIMIT,
    ensures
        k == push(base, m),
{
    proof {
        lemma_push(base, m);
    }
    base * RADIX + (m as u128)
}

/// Computes the key of a pair.
pub fn make2(a: u32, b: u32) -> (k: u128)
    ensures
        k == key2(a, b),
        k < BASE_LIMIT,
{
    proof {
        lemma_key_bounds(a, b, 0);
    }
    make(a as u128, b)
}

/// Computes the key of a triple.
pub fn make3(a: u32, b: u32, c: u32) -> (k: u128)
    ensures
        k == key3(a, b, c),
        k < BASE_LIMIT,
{
    proof {
        lemma_key_bounds(a, b, c);
    }
    make(make2(a, b), c)
}

/// Computes the key of a quadruple.
pub fn make4(a: u32, b: u32, c: u32, d: u32) -> (k: u128)
    ensures
        k == key4(a, b, c, d),
{
    make(make3(a, b, c), d)
}

/// Unpacks the key of a pair.
pub fn unmake2(k: u128) -> (r: (u32, u32))
    requires
        is_key2(k),
    ensures
        r == pair_of(k),
        key2(r.0, r.1) == k,
{
    proof {
        lemma_pair_of(k);
    }
    let (f, b) = split(k);
    let (_, a) = split(f);
    (a, b)
}

/// Unpacks the key of a triple.
pub fn unmake3(k: u128) -> (r: (u32, u32, u32))
    requires
        is_key3(k),
    ensures
        r == triple_of(k),
        key3(r.0, r.1, r.2) == k,
{
    proof {
        lemma_triple_of(k);
    }
    let (f, c) = split(k);
    let (g, b) = split(f);
    let (_, a) = split(g);
    (a, b, c)
}

/// Unpacks the key of a quadruple.
pub fn unmake4(k: u128) -> (r: (u32, u32, u32, u32))
    ensures
        r == quad_of(k),
        key4(r.0, r.1, r.2, r.3) == k,
{
    proof {
        lemma_quad_of(k);
    }
    let (f, d) = split(k);
    let (g, c) = split(f);
    let (h, b) = split(g);
    let (_, a) = split(h);
    (a, b, c, d)
}

/// Splits a key into its `front` and `last`.
pub fn split(k: u128) -> (r: (u128, u32))
    ensures
        r.0 == front(k),
        r.1 == last(k),
        r.0 < BASE_LIMIT,
        push(r.0, r.1) == k,
{
    proof {
        lemma_front_last(k);
    }
    (k / RADIX, (k % RADIX) as u32)
}

} // verus!
