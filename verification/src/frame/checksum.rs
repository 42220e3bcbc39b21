//! Standard Internet checksum (RFC 1071), used by the base94 first-frame
//! extended header to detect tampering and truncation.

use vstd::prelude::*;

verus! {

/// The sum of the big-endian 16-bit words of `data`, an odd last byte counted
/// as the high byte of a word.
pub open spec fn word_sum(data: Seq<u8>) -> nat
    decreases data.len(),
{
    if data.len() == 0 {
        0
    } else if data.len() % 2 == 1 {
        word_sum(data.drop_last()) + 256 * data.last() as nat
    } else {
        word_sum(data.drop_last()) + data.last() as nat
    }
}

/// The one's-complement sum of 16-bit words whose plain sum is `sum`: carries
/// are added back in, so zero comes from zero alone.
pub open spec fn folded(sum: nat) -> nat {
    if sum == 0 {
        0
    } else {
        ((sum - 1) % 65_535 + 1) as nat
    }
}

/// The Internet checksum of `data`.
pub open spec fn checksum(data: Seq<u8>) -> u16 {
    (65_535 - folded(word_sum(data))) as u16
}

/// The checksum completes the sum of the 16-bit words, high byte first, to a
/// multiple of 65535; an odd last byte is the high byte of a word.
pub proof fn law_checksum_completes_sum(data: Seq<u8>, hi: u8, lo: u8)
    ensures
        (word_sum(data) + checksum(data)) % 65_535 == 0,
        checksum(data) == 65_535 <==> word_sum(data) == 0,
        word_sum(Seq::empty()) == 0,
        data.len() % 2 == 0 ==> word_sum(data.push(hi).push(lo)) == word_sum(data) + 256 * hi + lo,
        data.len() % 2 == 0 ==> word_sum(data.push(hi)) == word_sum(data) + 256 * hi,
{
    let one: Seq<u8> = data.push(hi);
    let two: Seq<u8> = one.push(lo);
    assert(two.drop_last() =~= one);
    assert(one.drop_last() =~= data);
    assert(two.last() == lo && one.last() == hi);
    if data.len() % 2 == 0 {
        assert(word_sum(one) == word_sum(data) + 256 * hi as nat);
        assert(word_sum(two) == word_sum(one) + lo as nat);
    }
}

/// The word sum of `n` bytes is at most `65535` for each begun word.
pub proof fn lemma_word_sum_bound(data: Seq<u8>)
    ensures
        word_sum(data) <= 65_535 * ((data.len() + 1) / 2),
        data.len() % 2 == 1 ==> word_sum(data) <= 65_535 * (data.len() / 2) + 65_280,
    decreases data.len(),
{
    if data.len() > 0 {
        lemma_word_sum_bound(data.drop_last());
    }
}

proof fn lemma_word_sum_monotonic(data: Seq<u8>, i: int)
    requires
        0 <= i <= data.len(),
    ensures
        word_sum(data.take(i)) <= word_sum(data),
    decreases data.len(),
{
    if i < data.len() {
        lemma_word_sum_monotonic(data.drop_last(), i);
        assert(data.drop_last().take(i) =~= data.take(i));
    } else {
        assert(data.take(i) =~= data);
    }
}

/// One's complement of the 16-bit one's-complement sum over big-endian 16-bit
/// words. The plain sum has to fit in 32 bits, which it does for every input
/// of up to 128 KiB.
pub fn inet_chksum(data: &[u8]) -> (r: u16)
    requires
        word_sum(data@) <= u32::MAX,
    ensures
        r == checksum(data@),
{
    let mut sum: u32 = 0;
    let mut i: usize = 0;
    while i < data.len()
        invariant
            i <= data@.len(),
            word_sum(data@) <= u32::MAX,
            sum == word_sum(data@.take(i as int)),
        decreases data@.len() - i,
    {
        proof {
            assert(data@.take(i + 1).drop_last() =~= data@.take(i as int));
            lemma_word_sum_monotonic(data@, i + 1);
        }
        if i % 2 == 0 {
            sum += 256 * data[i] as u32;
        } else {
            sum += data[i] as u32;
        }
        i += 1;
    }
    proof {
        assert(data@.take(i as int) =~= data@);
    }
    let ghost total: nat = sum as nat;
    while sum >= 65_536
        invariant
            folded(sum as nat) == folded(total),
        decreases sum,
    {
        let high: u32 = sum / 65_536;
        let low: u32 = sum % 65_536;
        proof {
            lemma_fold_step(high as int, low as int);
        }
        sum = low + high;
    }
    (65_535 - sum) as u16
}

proof fn lemma_fold_step(high: int, low: int)
    requires
        high >= 1,
        0 <= low < 65_536,
    ensures
        folded((high * 65_536 + low) as nat) == folded((high + low) as nat),
{
    assert((high * 65_536 + low - 1) == 65_535 * high + (high + low - 1));
    vstd::arithmetic::div_mod::lemma_mod_multiples_vanish(high, high + low - 1, 65_535);
}

/// A single 16-bit word of checksummed data cannot change without changing the
/// checksum, except between `0x0000` and `0xFFFF`.
pub proof fn law_checksum_detects_word_change(rest: nat, a: nat, b: nat)
    requires
        a < 65_536,
        b < 65_536,
        folded(rest + a) == folded(rest + b),
    ensures
        a == b || (a == 0 && b == 65_535) || (a == 65_535 && b == 0),
{
    if a != b {
        let s: int = (rest + a) as int;
        let t: int = (rest + b) as int;
        if s == 0 || t == 0 {
            assert(rest == 0);
            assert(false);
        }
        assert((s - 1) % 65_535 == (t - 1) % 65_535);
        assert((s - t) % 65_535 == 0);
    }
}

} // verus!
