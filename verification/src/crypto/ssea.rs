//! SSEA obfuscation primitives: a linear congruential generator, a keyed
//! permutation, delta coding and a generator-driven XOR mask.
//!
//! All byte arithmetic is modulo 256 and all generator arithmetic modulo
//! `2^32`.

use vstd::arithmetic::div_mod::lemma_fundamental_div_mod;
use vstd::arithmetic::div_mod::lemma_fundamental_div_mod_converse;
use vstd::arithmetic::div_mod::lemma_mod_multiples_vanish;
use vstd::prelude::*;

verus! {

/// Generator multiplier.
pub const LCG_A: u32 = 1_103_515_245;

/// Generator increment.
pub const LCG_C: u32 = 12_345;

/// Multiplier of two generator steps taken at once.
pub const LCG_A2: u32 = 3265436265;

/// Increment of two generator steps taken at once.
pub const LCG_C2: u32 = 3554416254;

/// Multiplier of three generator steps taken at once.
pub const LCG_A3: u32 = 2155723957;

/// Increment of three generator steps taken at once.
pub const LCG_C3: u32 = 2802067423;

// ---------------------------------------------------------------------------
// The generator
// ---------------------------------------------------------------------------

/// One generator step.
pub open spec fn lcg_step(x: int) -> int {
    (x * 1_103_515_245 + 12_345) % 0x1_0000_0000
}

/// The seed after one draw: three steps on.
#[verifier::opaque]
pub open spec fn lcg_state(seed: u32) -> u32 {
    lcg_step(lcg_step(lcg_step(seed as int))) as u32
}

/// The 31-bit value of one draw: 11, 10 and 10 bits of the three steps.
#[verifier::opaque]
pub open spec fn lcg_output(seed: u32) -> u32 {
    let n1: int = lcg_step(seed as int);
    let n2: int = lcg_step(n1);
    let n3: int = lcg_step(n2);
    ((n1 / 65_536 % 2048) * 0x10_0000 + (n2 / 65_536 % 1024) * 1024 + n3 / 65_536 % 1024) as u32
}

/// Draws are 31-bit values.
pub proof fn law_lcg_output_is_31_bit(seed: u32)
    ensures
        lcg_output(seed) < 0x8000_0000,
{
    reveal(lcg_output);
}

/// A draw takes three steps of the generator `x -> 1103515245 x + 12345` modulo
/// `2^32`, gives 11, 10 and 10 bits from the upper halves of the three, and
/// leaves the third behind as the seed.
pub proof fn law_lcg_draw(seed: u32, a: int, b: int, c: int)
    requires
        a == (1_103_515_245 * seed + 12_345) % 0x1_0000_0000,
        b == (1_103_515_245 * a + 12_345) % 0x1_0000_0000,
        c == (1_103_515_245 * b + 12_345) % 0x1_0000_0000,
    ensures
        lcg_state(seed) == c,
        lcg_output(seed) / 0x10_0000 == a / 65_536 % 2048,
        lcg_output(seed) / 1024 % 1024 == b / 65_536 % 1024,
        lcg_output(seed) % 1024 == c / 65_536 % 1024,
{
    reveal(lcg_state);
    reveal(lcg_output);
    assert(lcg_step(seed as int) == a);
    assert(lcg_step(a) == b);
    assert(lcg_step(b) == c);
    let p: int = a / 65_536 % 2048;
    let q: int = b / 65_536 % 1024;
    let r: int = c / 65_536 % 1024;
    let w: int = p * 0x10_0000 + q * 1024 + r;
    assert(w / 0x10_0000 == p);
    assert(w / 1024 == p * 1024 + q);
    assert(w / 1024 % 1024 == q);
    assert(w % 1024 == r);
}

proof fn lemma_affine_reduce(x: int, a: int, c: int, ra: int, rc: int, k: int, d: int, m: int)
    requires
        m > 0,
        a == ra + k * m,
        c == rc + d * m,
    ensures
        (x * a + c) % m == (x * ra + rc) % m,
{
    assert(x * a + c == (x * k + d) * m + (x * ra + rc)) by (nonlinear_arith)
        requires
            a == ra + k * m,
            c == rc + d * m,
    ;
    assert((x * k + d) * m == m * (x * k + d)) by (nonlinear_arith);
    lemma_mod_multiples_vanish(x * k + d, x * ra + rc, m);
}

proof fn lemma_affine_chain(t: int, a: int, c: int, m: int)
    requires
        m > 0,
    ensures
        (t % m * a + c) % m == (t * a + c) % m,
{
    lemma_fundamental_div_mod(t, m);
    let q: int = t / m;
    let low: int = t % m;
    assert(t * a + c == m * (q * a) + (low * a + c)) by (nonlinear_arith)
        requires
            t == m * q + low,
    ;
    lemma_mod_multiples_vanish(q * a, low * a + c, m);
}

#[verifier::spinoff_prover]
proof fn lemma_two_steps(s: u32)
    ensures
        (s * LCG_A2 + LCG_C2) % 0x1_0000_0000 == lcg_step(lcg_step(s as int)),
{
    let m: int = 0x1_0000_0000;
    let x: int = s as int;
    let a: int = 1_103_515_245;
    let c: int = 12_345;
    lemma_affine_chain(x * a + c, a, c, m);
    assert((x * a + c) * a + c == x * (a * a) + (c * a + c)) by (nonlinear_arith);
    let k: int = (a * a - LCG_A2) / m;
    let d: int = (c * a + c - LCG_C2) / m;
    lemma_affine_reduce(x, a * a, c * a + c, LCG_A2 as int, LCG_C2 as int, k, d, m);
}

#[verifier::spinoff_prover]
proof fn lemma_three_steps(s: u32)
    ensures
        (s * LCG_A3 + LCG_C3) % 0x1_0000_0000 == lcg_step(lcg_step(lcg_step(s as int))),
{
    lemma_two_steps(s);
    let m: int = 0x1_0000_0000;
    let x: int = s as int;
    let a: int = 1_103_515_245;
    let c: int = 12_345;
    let a2: int = LCG_A2 as int;
    let c2: int = LCG_C2 as int;
    lemma_affine_chain(x * a2 + c2, a, c, m);
    assert((x * a2 + c2) * a + c == x * (a2 * a) + (c2 * a + c)) by (nonlinear_arith);
    let k: int = (a2 * a - LCG_A3) / m;
    let d: int = (c2 * a + c - LCG_C3) / m;
    lemma_affine_reduce(x, a2 * a, c2 * a + c, LCG_A3 as int, LCG_C3 as int, k, d, m);
}

/// `s * a + c` modulo `2^32`.
fn affine(s: u32, a: u32, c: u32) -> (r: u32)
    ensures
        r == (s * a + c) % 0x1_0000_0000,
{
    proof {
        let p: int = s * a;
        assert((p % 0x1_0000_0000 + c) % 0x1_0000_0000 == (p + c) % 0x1_0000_0000);
    }
    s.wrapping_mul(a).wrapping_add(c)
}

/// Advances the seed by three generator steps and returns a 31-bit value made
/// of the three.
///
/// Each step is an affine map of the seed, so the three are evaluated
/// independently of one another.
pub fn lcg_next(seed: &mut u32) -> (r: u32)
    ensures
        *final(seed) == lcg_state(*old(seed)),
        r == lcg_output(*old(seed)),
        r < 0x8000_0000,
{
    let s: u32 = *seed;
    let n1: u32 = affine(s, LCG_A, LCG_C);
    let n2: u32 = affine(s, LCG_A2, LCG_C2);
    let n3: u32 = affine(s, LCG_A3, LCG_C3);
    proof {
        lemma_two_steps(s);
        lemma_three_steps(s);
        reveal(lcg_state);
        reveal(lcg_output);
    }
    *seed = n3;
    (n1 / 65_536 % 2048) * 0x10_0000 + (n2 / 65_536 % 1024) * 1024 + n3 / 65_536 % 1024
}

/// Draw from the closed range `[min, max]`.
pub fn lcg_range(seed: &mut u32, min: u32, max: u32) -> (r: u32)
    requires
        min <= max,
        max - min < u32::MAX,
    ensures
        *final(seed) == lcg_state(*old(seed)),
        r == min + lcg_output(*old(seed)) as int % (max - min + 1),
        min <= r <= max,
{
    let v: u32 = lcg_next(seed);
    v % (max - min + 1) + min
}

// ---------------------------------------------------------------------------
// Remainder by multiplication
// ---------------------------------------------------------------------------

/// The multiplier for [`fast_mod`] with divisor `d`: `2^64 / d`, rounded up.
pub open spec fn magic_of(d: u32) -> int {
    0xffff_ffff_ffff_ffffint / d as int + 1
}

/// Computes the multiplier for [`fast_mod`] with a fixed divisor.
pub fn fastmod_magic(d: u32) -> (r: u64)
    requires
        d >= 2,
    ensures
        r == magic_of(d),
{
    proof {
        assert(0xffff_ffff_ffff_ffffint / d as int <= 0x7fff_ffff_ffff_ffff) by (nonlinear_arith)
            requires
                d >= 2,
        ;
    }
    u64::MAX / (d as u64) + 1
}

proof fn lemma_fast_mod(x: int, magic: int, d: int)
    requires
        0 <= x < 0x1_0000_0000,
        2 <= d < 0x1_0000_0000,
        magic == 0xffff_ffff_ffff_ffffint / d + 1,
    ensures
        (magic * x) % 0x1_0000_0000_0000_0000 * d / 0x1_0000_0000_0000_0000 == x % d,
{
    let w: int = 0x1_0000_0000_0000_0000;
    let k: int = 0xffff_ffff_ffff_ffffint / d;
    let s: int = 0xffff_ffff_ffff_ffffint % d;
    let e: int = d - 1 - s;
    lemma_fundamental_div_mod(0xffff_ffff_ffff_ffffint, d);
    assert(magic * d == w + e) by (nonlinear_arith)
        requires
            magic == k + 1,
            0xffff_ffff_ffff_ffffint == d * k + s,
            e == d - 1 - s,
            w == 0x1_0000_0000_0000_0000,
    ;
    let q: int = x / d;
    let r: int = x % d;
    lemma_fundamental_div_mod(x, d);
    let low: int = q * e + magic * r;
    assert(magic * x == q * w + low) by (nonlinear_arith)
        requires
            x == d * q + r,
            magic * d == w + e,
            low == q * e + magic * r,
    ;
    assert(low * d == r * w + e * x) by (nonlinear_arith)
        requires
            x == d * q + r,
            magic * d == w + e,
            low == q * e + magic * r,
    ;
    assert(0 <= e * x < w) by (nonlinear_arith)
        requires
            0 <= e < 0x1_0000_0000,
            0 <= x < 0x1_0000_0000,
            w == 0x1_0000_0000_0000_0000,
    ;
    assert(0 <= low) by (nonlinear_arith)
        requires
            low == q * e + magic * r,
            q >= 0,
            e >= 0,
            magic >= 0,
            r >= 0,
    ;
    assert(low < w) by (nonlinear_arith)
        requires
            low * d == r * w + e * x,
            e * x < w,
            r + 1 <= d,
            d > 0,
            w > 0,
    ;
    lemma_fundamental_div_mod_converse(magic * x, w, q, low);
    lemma_fundamental_div_mod_converse(low * d, w, r, e * x);
}

/// `x % d` by two multiplications, with the multiplier of [`fastmod_magic`].
pub fn fast_mod(x: u32, magic: u64, d: u32) -> (r: u32)
    requires
        d >= 2,
        magic == magic_of(d),
    ensures
        r == x % d,
{
    proof {
        lemma_fast_mod(x as int, magic as int, d as int);
        let low: int = (magic * x) % 0x1_0000_0000_0000_0000;
        assert(low * d < 0x1_0000_0000_0000_0000_0000_0000) by (nonlinear_arith)
            requires
                0 <= low < 0x1_0000_0000_0000_0000,
                2 <= d < 0x1_0000_0000,
        ;
        assert(low * d >= 0) by (nonlinear_arith)
            requires
                0 <= low,
                d >= 2,
        ;
    }
    let lowbits: u64 = magic.wrapping_mul(x as u64);
    let product: u128 = (lowbits as u128) * (d as u128);
    (product / 0x1_0000_0000_0000_0000) as u32
}

// ---------------------------------------------------------------------------
// Keyed permutation
// ---------------------------------------------------------------------------

/// `s` with the elements at `i` and `j` exchanged.
pub open spec fn swapped(s: Seq<u8>, i: int, j: int) -> Seq<u8> {
    s.update(i, s[j]).update(j, s[i])
}

/// The partner of position `i` in the swap chain.
pub open spec fn partner(i: int, key: u32, size: nat) -> int {
    ((i as u32) ^ key) as int % size as int
}

/// The first `n` swaps of the chain, in order.
pub open spec fn swap_chain(s: Seq<u8>, key: u32, n: nat) -> Seq<u8>
    decreases n,
{
    if n == 0 {
        s
    } else {
        let before: Seq<u8> = swap_chain(s, key, (n - 1) as nat);
        swapped(before, n - 1, partner(n - 1, key, s.len()))
    }
}

/// The first `n` swaps of the chain, in reverse order.
pub open spec fn swap_chain_back(s: Seq<u8>, key: u32, n: nat) -> Seq<u8>
    decreases n,
{
    if n == 0 {
        s
    } else {
        swap_chain_back(
            swapped(s, n - 1, partner(n - 1, key, s.len())),
            key,
            (n - 1) as nat,
        )
    }
}

/// The keyed permutation of `s`.
pub open spec fn shuffled(s: Seq<u8>, key: u32) -> Seq<u8> {
    swap_chain(s, key, s.len())
}

/// The inverse permutation of `s`.
pub open spec fn unshuffled(s: Seq<u8>, key: u32) -> Seq<u8> {
    swap_chain_back(s, key, s.len())
}

/// Unshuffling undoes shuffling.
pub proof fn law_unshuffle_inverts_shuffle(s: Seq<u8>, key: u32)
    ensures
        unshuffled(shuffled(s, key), key) == s,
{
    lemma_swap_chain_len(s, key, s.len());
    lemma_back_inverts_chain(s, key, s.len());
}

/// Shuffling undoes unshuffling.
pub proof fn law_shuffle_inverts_unshuffle(s: Seq<u8>, key: u32)
    ensures
        shuffled(unshuffled(s, key), key) == s,
{
    lemma_swap_chain_back_len(s, key, s.len());
    lemma_chain_inverts_back(s, key, s.len());
}

/// Shuffling keeps the bytes and only moves them.
pub proof fn law_shuffle_permutes(s: Seq<u8>, key: u32)
    ensures
        shuffled(s, key).len() == s.len(),
        shuffled(s, key).to_multiset() == s.to_multiset(),
{
    lemma_swap_chain_len(s, key, s.len());
    lemma_swap_chain_multiset(s, key, s.len());
}

/// Where the byte at position `i` of `size` bytes stands after the first `n`
/// exchanges: exchange number `m` swaps position `m` with `(m ^ key) % size`.
pub open spec fn travelled(i: int, key: u32, size: int, n: nat) -> int
    decreases n,
{
    if n == 0 {
        i
    } else {
        let a: int = n - 1;
        let b: int = ((a as u32) ^ key) as int % size;
        let p: int = travelled(i, key, size, (n - 1) as nat);
        if p == a {
            b
        } else if p == b {
            a
        } else {
            p
        }
    }
}

/// Where each byte goes: position `m` is exchanged with `(m ^ key) % size`, for
/// each `m` in turn, and the byte is found where that has taken it.
pub proof fn law_shuffle_moves(s: Seq<u8>, key: u32, i: int)
    requires
        0 <= i < s.len(),
    ensures
        0 <= travelled(i, key, s.len() as int, s.len()) < s.len(),
        shuffled(s, key)[travelled(i, key, s.len() as int, s.len())] == s[i],
        unshuffled(s, key)[i] == s[travelled(i, key, s.len() as int, s.len())],
{
    lemma_chain_moves(s, key, s.len(), i);
    let t: Seq<u8> = unshuffled(s, key);
    lemma_swap_chain_back_len(s, key, s.len());
    law_shuffle_inverts_unshuffle(s, key);
    lemma_chain_moves(t, key, s.len(), i);
}

proof fn lemma_chain_moves(s: Seq<u8>, key: u32, n: nat, i: int)
    requires
        n <= s.len(),
        0 <= i < s.len(),
    ensures
        0 <= travelled(i, key, s.len() as int, n) < s.len(),
        swap_chain(s, key, n)[travelled(i, key, s.len() as int, n)] == s[i],
    decreases n,
{
    if n > 0 {
        lemma_chain_moves(s, key, (n - 1) as nat, i);
        lemma_swap_chain_len(s, key, (n - 1) as nat);
        lemma_partner_range(n - 1, key, s.len());
    }
}

/// Up to two bytes the permutation is the identity.
pub proof fn law_shuffle_short_identity(s: Seq<u8>, key: u32)
    requires
        s.len() <= 2,
    ensures
        shuffled(s, key) == s,
{
    reveal_with_fuel(swap_chain, 3);
    if s.len() == 1 {
        assert(partner(0, key, 1) == 0);
        assert(shuffled(s, key) =~= s);
    } else if s.len() == 2 {
        assert((0u32 ^ key) == key && ((1u32 ^ key) % 2 == 1 <==> key % 2 == 0)) by (bit_vector);
        assert(shuffled(s, key) =~= s);
    }
}

pub proof fn lemma_swap_chain_len(s: Seq<u8>, key: u32, n: nat)
    requires
        n <= s.len(),
    ensures
        swap_chain(s, key, n).len() == s.len(),
    decreases n,
{
    if n > 0 {
        lemma_swap_chain_len(s, key, (n - 1) as nat);
    }
}

pub proof fn lemma_swap_chain_back_len(s: Seq<u8>, key: u32, n: nat)
    requires
        n <= s.len(),
    ensures
        swap_chain_back(s, key, n).len() == s.len(),
    decreases n,
{
    if n > 0 {
        lemma_swap_chain_back_len(
            swapped(s, n - 1, partner(n - 1, key, s.len())),
            key,
            (n - 1) as nat,
        );
    }
}

proof fn lemma_partner_range(i: int, key: u32, size: nat)
    requires
        size > 0,
    ensures
        0 <= partner(i, key, size) < size,
{
}

proof fn lemma_swapped_twice(s: Seq<u8>, i: int, j: int)
    requires
        0 <= i < s.len(),
        0 <= j < s.len(),
    ensures
        swapped(swapped(s, i, j), i, j) == s,
{
    assert(swapped(swapped(s, i, j), i, j) =~= s);
}

proof fn lemma_back_inverts_chain(s: Seq<u8>, key: u32, n: nat)
    requires
        n <= s.len(),
    ensures
        swap_chain_back(swap_chain(s, key, n), key, n) == s,
    decreases n,
{
    if n > 0 {
        let m: nat = (n - 1) as nat;
        lemma_swap_chain_len(s, key, m);
        lemma_partner_range(n - 1, key, s.len());
        lemma_swapped_twice(swap_chain(s, key, m), n - 1, partner(n - 1, key, s.len()));
        lemma_back_inverts_chain(s, key, m);
    }
}

proof fn lemma_chain_inverts_back(s: Seq<u8>, key: u32, n: nat)
    requires
        n <= s.len(),
    ensures
        swap_chain(swap_chain_back(s, key, n), key, n) == s,
    decreases n,
{
    if n > 0 {
        let m: nat = (n - 1) as nat;
        let j: int = partner(n - 1, key, s.len());
        lemma_partner_range(n - 1, key, s.len());
        let inner: Seq<u8> = swapped(s, n - 1, j);
        lemma_chain_inverts_back(inner, key, m);
        lemma_swap_chain_back_len(inner, key, m);
        lemma_swapped_twice(s, n - 1, j);
    }
}

/// One changed byte changes one byte of the inverse permutation: the one at the
/// position it moves to.
pub proof fn lemma_unshuffle_update(s: Seq<u8>, key: u32, i: int, x: u8) -> (p: int)
    requires
        0 <= i < s.len(),
    ensures
        0 <= p < s.len(),
        unshuffled(s, key).len() == s.len(),
        unshuffled(s, key)[p] == s[i],
        unshuffled(s.update(i, x), key) == unshuffled(s, key).update(p, x),
{
    lemma_swap_chain_back_len(s, key, s.len());
    lemma_back_update(s, key, s.len(), i, x)
}

proof fn lemma_back_update(s: Seq<u8>, key: u32, n: nat, i: int, x: u8) -> (p: int)
    requires
        n <= s.len(),
        0 <= i < s.len(),
    ensures
        0 <= p < s.len(),
        swap_chain_back(s, key, n)[p] == s[i],
        swap_chain_back(s.update(i, x), key, n) == swap_chain_back(s, key, n).update(p, x),
    decreases n,
{
    if n == 0 {
        i
    } else {
        let a: int = n - 1;
        let b: int = partner(a, key, s.len());
        lemma_partner_range(a, key, s.len());
        let moved: int = if i == a {
            b
        } else if i == b {
            a
        } else {
            i
        };
        assert(swapped(s.update(i, x), a, b) =~= swapped(s, a, b).update(moved, x));
        lemma_back_update(swapped(s, a, b), key, (n - 1) as nat, moved, x)
    }
}

proof fn lemma_swap_chain_multiset(s: Seq<u8>, key: u32, n: nat)
    requires
        n <= s.len(),
    ensures
        swap_chain(s, key, n).to_multiset() == s.to_multiset(),
    decreases n,
{
    if n > 0 {
        let m: nat = (n - 1) as nat;
        let before: Seq<u8> = swap_chain(s, key, m);
        let j: int = partner(n - 1, key, s.len());
        lemma_swap_chain_len(s, key, m);
        lemma_swap_chain_multiset(s, key, m);
        lemma_partner_range(n - 1, key, s.len());
        vstd::seq_lib::to_multiset_update(before, n - 1, before[j]);
        let mid: Seq<u8> = before.update(n - 1, before[j]);
        vstd::seq_lib::to_multiset_update(mid, j, before[n - 1]);
        before.to_multiset_ensures();
        mid.to_multiset_ensures();
        assert(mid[j] == before[j]);
        assert(before.to_multiset().count(before[n - 1]) > 0);
        assert(before.to_multiset().count(before[j]) > 0);
        assert(swapped(before, n - 1, j).to_multiset() =~= before.to_multiset());
    }
}

/// Key-driven in-place permutation: position `i` is swapped with position
/// `(i ^ key) % size`, for each `i` in turn.
pub fn shuffle(data: &mut [u8], key: u32)
    requires
        old(data)@.len() <= u32::MAX,
    ensures
        final(data)@ == shuffled(old(data)@, key),
        final(data)@.len() == old(data)@.len(),
{
    let size: usize = data.len();
    let ghost start: Seq<u8> = data@;
    if size < 2 {
        proof {
            law_shuffle_short_identity(start, key);
        }
        return;
    }
    let size32: u32 = size as u32;
    let magic: u64 = fastmod_magic(size32);
    let mut i: usize = 0;
    while i < size
        invariant
            size == start.len(),
            size == data@.len(),
            2 <= size <= u32::MAX,
            size32 == size,
            magic == magic_of(size32),
            i <= size,
            data@ == swap_chain(start, key, i as nat),
        decreases size - i,
    {
        let j: usize = fast_mod((i as u32) ^ key, magic, size32) as usize;
        let x: u8 = data[i];
        let y: u8 = data[j];
        data[i] = y;
        data[j] = x;
        i += 1;
    }
}

/// Exact inverse of [`shuffle`]: the swap chain run backwards.
pub fn unshuffle(data: &mut [u8], key: u32)
    requires
        old(data)@.len() <= u32::MAX,
    ensures
        final(data)@ == unshuffled(old(data)@, key),
        final(data)@.len() == old(data)@.len(),
{
    let size: usize = data.len();
    let ghost start: Seq<u8> = data@;
    if size < 2 {
        proof {
            reveal_with_fuel(swap_chain_back, 2);
            if size == 1 {
                assert(swapped(start, 0, partner(0, key, 1)) =~= start);
            }
        }
        return;
    }
    let size32: u32 = size as u32;
    let magic: u64 = fastmod_magic(size32);
    let mut i: usize = size;
    while i > 0
        invariant
            size == start.len(),
            size == data@.len(),
            2 <= size <= u32::MAX,
            size32 == size,
            magic == magic_of(size32),
            i <= size,
            swap_chain_back(start, key, size as nat) == swap_chain_back(data@, key, i as nat),
        decreases i,
    {
        i -= 1;
        let j: usize = fast_mod((i as u32) ^ key, magic, size32) as usize;
        let x: u8 = data[i];
        let y: u8 = data[j];
        data[i] = y;
        data[j] = x;
    }
}

// ---------------------------------------------------------------------------
// Delta coding
// ---------------------------------------------------------------------------

/// Differences of neighbouring bytes, the first taken from the key byte.
pub open spec fn delta_encoded(s: Seq<u8>, kf: u32) -> Seq<u8> {
    Seq::new(
        s.len(),
        |i: int|
            if i == 0 {
                ((s[0] as int - kf as int % 256) % 256) as u8
            } else {
                ((s[i] as int - s[i - 1] as int) % 256) as u8
            },
    )
}

/// The key byte plus the first `n` bytes of `s`, modulo 256.
pub open spec fn running_sum(s: Seq<u8>, kf: u32, n: nat) -> int
    decreases n,
{
    if n == 0 {
        kf as int % 256
    } else {
        (running_sum(s, kf, (n - 1) as nat) + s[n - 1]) % 256
    }
}

/// Running sums of the bytes, started from the key byte.
pub open spec fn delta_decoded(s: Seq<u8>, kf: u32) -> Seq<u8> {
    Seq::new(s.len(), |i: int| running_sum(s, kf, (i + 1) as nat) as u8)
}

/// Decoding undoes delta encoding.
pub proof fn law_delta_decode_inverts_encode(s: Seq<u8>, kf: u32)
    ensures
        delta_decoded(delta_encoded(s, kf), kf) == s,
{
    assert forall|i: int| 0 <= i < s.len() implies running_sum(
        delta_encoded(s, kf),
        kf,
        (i + 1) as nat,
    ) == s[i] by {
        lemma_sum_of_deltas(s, kf, (i + 1) as nat);
    }
    assert(delta_decoded(delta_encoded(s, kf), kf) =~= s);
}

/// Each delta added to the byte before it, or to the low byte of the key for the
/// first, gives the byte.
pub proof fn law_deltas(s: Seq<u8>, kf: u32, i: int)
    requires
        0 <= i < s.len(),
    ensures
        delta_encoded(s, kf).len() == s.len(),
        i == 0 ==> (delta_encoded(s, kf)[0] + kf % 256) % 256 == s[0],
        i > 0 ==> (delta_encoded(s, kf)[i] + s[i - 1]) % 256 == s[i] as int,
{
}

/// Encoding undoes delta decoding.
pub proof fn law_delta_encode_inverts_decode(s: Seq<u8>, kf: u32)
    ensures
        delta_encoded(delta_decoded(s, kf), kf) == s,
{
    let d: Seq<u8> = delta_decoded(s, kf);
    assert forall|i: int| 0 <= i < s.len() implies delta_encoded(d, kf)[i] == s[i] by {
        lemma_running_sum_range(s, kf, i as nat);
        lemma_running_sum_range(s, kf, (i + 1) as nat);
        let p: int = running_sum(s, kf, i as nat);
        let n: int = running_sum(s, kf, (i + 1) as nat);
        assert(n == (p + s[i]) % 256);
        assert((n - p) % 256 == s[i] as int);
    }
    assert(delta_encoded(d, kf) =~= s);
}

proof fn lemma_running_sum_range(s: Seq<u8>, kf: u32, n: nat)
    ensures
        0 <= running_sum(s, kf, n) < 256,
{
}

proof fn lemma_sum_of_deltas(s: Seq<u8>, kf: u32, n: nat)
    requires
        1 <= n <= s.len(),
    ensures
        running_sum(delta_encoded(s, kf), kf, n) == s[n - 1],
    decreases n,
{
    let d: Seq<u8> = delta_encoded(s, kf);
    if n > 1 {
        lemma_sum_of_deltas(s, kf, (n - 1) as nat);
    } else {
        assert(running_sum(d, kf, 0) == kf as int % 256);
    }
}

/// In-place delta encoding: `out[0] = in[0] - kf`, `out[i] = in[i] - in[i-1]`.
pub fn delta_encode(data: &mut [u8], kf: u32)
    ensures
        final(data)@ == delta_encoded(old(data)@, kf),
        final(data)@.len() == old(data)@.len(),
{
    let ghost start: Seq<u8> = data@;
    let mut prev: u8 = (kf % 256) as u8;
    let mut i: usize = 0;
    while i < data.len()
        invariant
            data@.len() == start.len(),
            i <= start.len(),
            prev as int == if i == 0 { kf as int % 256 } else { start[i - 1] as int },
            forall|j: int| 0 <= j < i ==> #[trigger] data@[j] == delta_encoded(start, kf)[j],
            forall|j: int| i <= j < start.len() ==> #[trigger] data@[j] == start[j],
        decreases start.len() - i,
    {
        let cur: u8 = data[i];
        data[i] = cur.wrapping_sub(prev);
        prev = cur;
        i += 1;
    }
    assert(data@ =~= delta_encoded(start, kf));
}

/// In-place inverse of [`delta_encode`].
pub fn delta_decode(data: &mut [u8], kf: u32)
    ensures
        final(data)@ == delta_decoded(old(data)@, kf),
        final(data)@.len() == old(data)@.len(),
{
    let ghost start: Seq<u8> = data@;
    let mut acc: u8 = (kf % 256) as u8;
    let mut i: usize = 0;
    while i < data.len()
        invariant
            data@.len() == start.len(),
            i <= start.len(),
            acc as int == running_sum(start, kf, i as nat),
            forall|j: int| 0 <= j < i ==> #[trigger] data@[j] == delta_decoded(start, kf)[j],
            forall|j: int| i <= j < start.len() ==> #[trigger] data@[j] == start[j],
        decreases start.len() - i,
    {
        acc = acc.wrapping_add(data[i]);
        data[i] = acc;
        i += 1;
    }
    assert(data@ =~= delta_decoded(start, kf));
}

// ---------------------------------------------------------------------------
// Generator-driven XOR mask
// ---------------------------------------------------------------------------

/// The `n`-th mask word: each draw is the seed of the next.
pub open spec fn mask_word(kf: u32, n: nat) -> u32
    decreases n,
{
    if n == 0 {
        lcg_output(kf)
    } else {
        lcg_output(mask_word(kf, (n - 1) as nat))
    }
}

/// Byte `k` of a word, least significant first.
pub open spec fn word_byte(w: u32, k: int) -> u8 {
    if k == 0 {
        (w % 256) as u8
    } else if k == 1 {
        (w / 256 % 256) as u8
    } else if k == 2 {
        (w / 65_536 % 256) as u8
    } else {
        (w / 16_777_216 % 256) as u8
    }
}

/// The mask of byte `i` in a message of `len` bytes: the words in order, four
/// bytes each. A rest of two bytes uses up a word, so that the last byte of a
/// rest of three starts a word of its own.
pub open spec fn mask_byte(kf: u32, len: nat, i: int) -> u8 {
    if len % 4 == 3 && i == len - 1 {
        word_byte(mask_word(kf, (i / 4 + 1) as nat), 0)
    } else {
        word_byte(mask_word(kf, (i / 4) as nat), i % 4)
    }
}

/// The message under its mask.
pub open spec fn masked(s: Seq<u8>, kf: u32) -> Seq<u8> {
    Seq::new(s.len(), |i: int| s[i] ^ mask_byte(kf, s.len(), i))
}

/// The mask is its own inverse.
pub proof fn law_mask_self_inverse(s: Seq<u8>, kf: u32)
    ensures
        masked(masked(s, kf), kf) == s,
{
    assert forall|i: int| 0 <= i < s.len() implies masked(masked(s, kf), kf)[i] == s[i] by {
        lemma_xor_twice(s[i], mask_byte(kf, s.len(), i));
    }
    assert(masked(masked(s, kf), kf) =~= s);
}

/// The mask: the draws of the generator, each the seed of the next, four bytes
/// of each, least significant first; where three bytes are left over, the last
/// of them takes the low byte of the next draw. It does not depend on what is
/// masked.
pub proof fn law_mask_words(s: Seq<u8>, kf: u32, n: nat)
    requires
        4 * n + 4 <= s.len(),
    ensures
        mask_word(kf, 0) == lcg_output(kf),
        mask_word(kf, n + 1) == lcg_output(mask_word(kf, n)),
        ({
            let m: Seq<u8> = masked(Seq::new(s.len(), |i: int| 0u8), kf);
            let a: int = 4 * n as int;
            &&& m[a] + 256 * m[a + 1] + 65_536 * m[a + 2] + 16_777_216 * m[a + 3] == mask_word(kf, n)
            &&& forall|i: int|
                0 <= i < s.len() ==> #[trigger] masked(s, kf)[i] == s[i] ^ masked(
                    Seq::new(s.len(), |i: int| 0u8),
                    kf,
                )[i]
        }),
{
    let zeros: Seq<u8> = Seq::new(s.len(), |i: int| 0u8);
    let m: Seq<u8> = masked(zeros, kf);
    assert forall|i: int| 0 <= i < s.len() implies #[trigger] m[i] == mask_byte(
        kf,
        s.len(),
        i,
    ) by {
        lemma_zero_xor(mask_byte(kf, s.len(), i));
    }
    let w: u32 = mask_word(kf, n);
    let a: int = 4 * n as int;
    assert(a / 4 == n && (a + 1) / 4 == n && (a + 2) / 4 == n && (a + 3) / 4 == n);
    assert(a % 4 == 0 && (a + 1) % 4 == 1 && (a + 2) % 4 == 2 && (a + 3) % 4 == 3);
    assert(m[a] == word_byte(w, 0) && m[a + 1] == word_byte(w, 1) && m[a + 2] == word_byte(w, 2)
        && m[a + 3] == word_byte(w, 3));
}

/// The mask of the bytes behind the last whole word.
pub proof fn law_mask_rest(s: Seq<u8>, kf: u32)
    requires
        s.len() % 4 != 0,
    ensures
        ({
            let n: nat = s.len() / 4;
            let w: u32 = mask_word(kf, n);
            let a: int = 4 * n as int;
            &&& masked(s, kf)[a] == s[a] ^ ((w % 256) as u8)
            &&& s.len() % 4 >= 2 ==> masked(s, kf)[a + 1] == s[a + 1] ^ ((w / 256 % 256) as u8)
            &&& s.len() % 4 == 3 ==> masked(s, kf)[a + 2] == s[a + 2] ^ ((mask_word(kf, n + 1)
                % 256) as u8)
        }),
{
}

proof fn lemma_zero_xor(b: u8)
    ensures
        0u8 ^ b == b,
{
    assert(0u8 ^ b == b) by (bit_vector);
}

/// XOR with the same byte twice changes nothing.
pub proof fn lemma_xor_twice(a: u8, b: u8)
    ensures
        (a ^ b) ^ b == a,
{
    assert((a ^ b) ^ b == a) by (bit_vector);
}

/// Byte `k` of a word, least significant first.
fn byte_of(w: u32, k: usize) -> (r: u8)
    requires
        k < 4,
    ensures
        r == word_byte(w, k as int),
{
    if k == 0 {
        (w % 256) as u8
    } else if k == 1 {
        (w / 256 % 256) as u8
    } else if k == 2 {
        (w / 65_536 % 256) as u8
    } else {
        (w / 16_777_216 % 256) as u8
    }
}

/// XORs the data with a mask whose words evolve with the generator: the seed
/// of each draw is the value of the draw before.
///
/// Self-inverse for a fixed key. Words are applied least significant byte
/// first; a last odd byte takes the low byte of the current word.
pub fn masked_xor_random_next(data: &mut [u8], kf: u32)
    ensures
        final(data)@ == masked(old(data)@, kf),
        final(data)@.len() == old(data)@.len(),
{
    let ghost start: Seq<u8> = data@;
    let len: usize = data.len();
    let mut seed: u32 = kf;
    let mut key: u32 = lcg_next(&mut seed);
    let whole: usize = len - len % 4;
    let mut i: usize = 0;
    while i < whole
        invariant
            len == start.len(),
            len == data@.len(),
            whole == len - len % 4,
            i <= whole,
            key == mask_word(kf, (i / 4) as nat),
            forall|j: int| 0 <= j < i ==> #[trigger] data@[j] == start[j] ^ mask_byte(kf, len as nat, j),
            forall|j: int| i <= j < len ==> #[trigger] data@[j] == start[j],
        decreases whole - i,
    {
        let k: usize = i % 4;
        data[i] = data[i] ^ byte_of(key, k);
        if k == 3 {
            let mut word: u32 = key;
            key = lcg_next(&mut word);
            assert((i + 1) / 4 == i / 4 + 1);
        } else {
            assert((i + 1) / 4 == i / 4);
        }
        i += 1;
    }
    let rest: usize = len % 4;
    if rest >= 2 {
        data[whole] = data[whole] ^ byte_of(key, 0);
        data[whole + 1] = data[whole + 1] ^ byte_of(key, 1);
        let mut word: u32 = key;
        key = lcg_next(&mut word);
        assert(key == mask_word(kf, (whole / 4 + 1) as nat));
    }
    if rest % 2 == 1 {
        data[len - 1] = data[len - 1] ^ byte_of(key, 0);
    }
    proof {
        assert forall|j: int| 0 <= j < len implies #[trigger] data@[j] == start[j] ^ mask_byte(
            kf,
            len as nat,
            j,
        ) by {
            if j >= whole {
                assert(j / 4 == whole / 4);
                assert(j % 4 == j - whole);
            }
        }
        assert(data@ =~= masked(start, kf));
    }
}

} // verus!
