//! Big-endian numbers and byte-wise XOR.

use vstd::prelude::*;

verus! {

/// `256` to the power of `w`.
pub open spec fn pow256(w: nat) -> nat
    decreases w,
{
    if w == 0 {
        1
    } else {
        256 * pow256((w - 1) as nat)
    }
}

/// The number that big-endian bytes stand for.
pub open spec fn be_value(s: Seq<u8>) -> nat
    decreases s.len(),
{
    if s.len() == 0 {
        0
    } else {
        be_value(s.drop_last()) * 256 + s.last() as nat
    }
}

/// The low `w` bytes of `n`, most significant first.
pub open spec fn be_bytes(n: nat, w: nat) -> Seq<u8>
    decreases w,
{
    if w == 0 {
        Seq::empty()
    } else {
        be_bytes(n / 256, (w - 1) as nat).push((n % 256) as u8)
    }
}

/// `w` bytes stand for a number below `256^w`.
pub proof fn lemma_be_value_bound(s: Seq<u8>)
    ensures
        be_value(s) < pow256(s.len()),
    decreases s.len(),
{
    if s.len() > 0 {
        lemma_be_value_bound(s.drop_last());
    }
}

/// The bytes of a number stand for that number, modulo `256^w`.
pub proof fn lemma_be_value_of_bytes(n: nat, w: nat)
    ensures
        be_bytes(n, w).len() == w,
        n < pow256(w) ==> be_value(be_bytes(n, w)) == n,
    decreases w,
{
    if w > 0 {
        lemma_be_value_of_bytes(n / 256, (w - 1) as nat);
        assert(be_bytes(n, w).drop_last() =~= be_bytes(n / 256, (w - 1) as nat));
    }
}

/// The bytes of the number that bytes stand for are these bytes.
pub proof fn lemma_be_bytes_of_value(s: Seq<u8>)
    ensures
        be_bytes(be_value(s), s.len()) == s,
    decreases s.len(),
{
    if s.len() > 0 {
        lemma_be_bytes_of_value(s.drop_last());
        assert(s.drop_last().push(s.last()) =~= s);
    }
}

/// The last `k` of the `w` bytes of a number stand for the number modulo
/// `256^k`.
pub proof fn lemma_be_low_bytes(n: nat, w: nat, k: nat)
    requires
        k <= w,
    ensures
        be_bytes(n, w).len() == w,
        be_value(be_bytes(n, w).subrange(w - k, w as int)) == n % pow256(k),
    decreases w,
{
    lemma_be_value_of_bytes(n, w);
    let s: Seq<u8> = be_bytes(n, w).subrange(w - k, w as int);
    if k > 0 {
        let m: nat = n / 256;
        let v: nat = (w - 1) as nat;
        let j: nat = (k - 1) as nat;
        lemma_be_low_bytes(m, v, j);
        assert(s.drop_last() =~= be_bytes(m, v).subrange(v - j, v as int));
        lemma_pow256_positive(j);
        vstd::arithmetic::div_mod::lemma_mod_breakdown(n as int, 256, pow256(j) as int);
    }
}

/// Powers are positive.
pub proof fn lemma_pow256_positive(w: nat)
    ensures
        pow256(w) >= 1,
    decreases w,
{
    if w > 0 {
        lemma_pow256_positive((w - 1) as nat);
    }
}

/// `a` with each byte XORed with the byte of `b` at its position.
pub open spec fn xored(a: Seq<u8>, b: Seq<u8>) -> Seq<u8> {
    Seq::new(a.len(), |i: int| a[i] ^ b[i])
}

/// XOR with the same bytes twice changes nothing.
pub proof fn lemma_xored_twice(a: Seq<u8>, b: Seq<u8>)
    ensures
        xored(xored(a, b), b) == a,
{
    assert forall|i: int| 0 <= i < a.len() implies xored(xored(a, b), b)[i] == a[i] by {
        crate::crypto::ssea::lemma_xor_twice(a[i], b[i]);
    }
    assert(xored(xored(a, b), b) =~= a);
}

/// Big-endian: each byte more counts the number before it 256 times, and the low
/// bytes of a number, so many as it needs, stand for the number.
pub proof fn law_big_endian(s: Seq<u8>, b: u8, n: nat, w: nat)
    ensures
        be_value(Seq::empty()) == 0,
        be_value(s.push(b)) == 256 * be_value(s) + b,
        be_bytes(n, w).len() == w,
        n < pow256(w) ==> be_value(be_bytes(n, w)) == n,
        pow256(0) == 1,
        pow256(w + 1) == 256 * pow256(w),
{
    assert(s.push(b).drop_last() =~= s);
    lemma_be_bytes_len(n, w);
    if n < pow256(w) {
        lemma_be_value_of_bytes(n, w);
    }
}

proof fn lemma_be_bytes_len(n: nat, w: nat)
    ensures
        be_bytes(n, w).len() == w,
    decreases w,
{
    if w > 0 {
        lemma_be_bytes_len(n / 256, (w - 1) as nat);
    }
}

/// The number of up to sixteen big-endian bytes.
pub fn u128_from_be(s: &[u8]) -> (r: u128)
    requires
        s@.len() <= 16,
    ensures
        r == be_value(s@),
{
    let mut acc: u128 = 0;
    let mut i: usize = 0;
    while i < s.len()
        invariant
            i <= s@.len() <= 16,
            acc == be_value(s@.take(i as int)),
        decreases s@.len() - i,
    {
        proof {
            assert(s@.take(i + 1).drop_last() =~= s@.take(i as int));
            lemma_be_value_bound(s@.take(i + 1));
            reveal_with_fuel(pow256, 17);
        }
        acc = acc * 256 + s[i] as u128;
        i += 1;
    }
    assert(s@.take(i as int) =~= s@);
    acc
}

/// The sixteen big-endian bytes of a number.
pub fn be_bytes_u128(v: u128) -> (r: [u8; 16])
    ensures
        r@ == be_bytes(v as nat, 16),
{
    let mut out: [u8; 16] = [0u8; 16];
    let mut n: u128 = v;
    let mut i: usize = 16;
    proof {
        assert(be_bytes(v as nat, 16) + out@.skip(16) =~= be_bytes(v as nat, 16));
    }
    while i > 0
        invariant
            i <= 16,
            out@.len() == 16,
            be_bytes(v as nat, 16) == be_bytes(n as nat, i as nat) + out@.skip(i as int),
        decreases i,
    {
        let ghost before: Seq<u8> = out@;
        i -= 1;
        out[i] = (n % 256) as u8;
        proof {
            assert(be_bytes(n as nat, (i + 1) as nat) + before.skip(i + 1) =~= be_bytes(
                n as nat / 256,
                i as nat,
            ) + out@.skip(i as int));
        }
        n /= 256;
    }
    assert(be_bytes(n as nat, 0) + out@.skip(0) =~= out@);
    out
}

/// The eight big-endian bytes of a number.
pub fn be_bytes_u64(v: u64) -> (r: [u8; 8])
    ensures
        r@ == be_bytes(v as nat, 8),
{
    let mut out: [u8; 8] = [0u8; 8];
    let mut n: u64 = v;
    let mut i: usize = 8;
    proof {
        assert(be_bytes(v as nat, 8) + out@.skip(8) =~= be_bytes(v as nat, 8));
    }
    while i > 0
        invariant
            i <= 8,
            out@.len() == 8,
            be_bytes(v as nat, 8) == be_bytes(n as nat, i as nat) + out@.skip(i as int),
        decreases i,
    {
        let ghost before: Seq<u8> = out@;
        i -= 1;
        out[i] = (n % 256) as u8;
        proof {
            assert(be_bytes(n as nat, (i + 1) as nat) + before.skip(i + 1) =~= be_bytes(
                n as nat / 256,
                i as nat,
            ) + out@.skip(i as int));
        }
        n /= 256;
    }
    assert(be_bytes(n as nat, 0) + out@.skip(0) =~= out@);
    out
}

/// Appends `src` to `out`.
pub fn append(out: &mut Vec<u8>, src: &[u8])
    ensures
        final(out)@ == old(out)@ + src@,
{
    out.extend_from_slice(src);
    assert(out@ =~= old(out)@ + src@);
}

} // verus!
