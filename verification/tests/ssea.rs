//! Keyed byte transforms.

use nextppp::crypto::ssea::{
    delta_decode, delta_encode, fast_mod, fastmod_magic, lcg_next, lcg_range,
    masked_xor_random_next, shuffle, unshuffle,
};

#[test]
fn lcg_is_deterministic_and_31bit() {
    let mut a = 154_543_927u32;
    let mut b = 154_543_927u32;
    for _ in 0..1000 {
        let (x, y) = (lcg_next(&mut a), lcg_next(&mut b));
        assert_eq!(x, y);
        assert_eq!(x & 0x8000_0000, 0, "31-bit output expected");
    }
    assert_ne!(a, 154_543_927, "seed must advance");
}

/// Three chained steps.
fn lcg_next_reference(seed: &mut u32) -> u32 {
    let mut next = *seed;
    next = next.wrapping_mul(1_103_515_245).wrapping_add(12_345);
    let mut result = (next / 65_536) % 2048;
    next = next.wrapping_mul(1_103_515_245).wrapping_add(12_345);
    result = (result << 10) ^ ((next / 65_536) % 1024);
    next = next.wrapping_mul(1_103_515_245).wrapping_add(12_345);
    result = (result << 10) ^ ((next / 65_536) % 1024);
    *seed = next;
    result
}

#[test]
fn lcg_restructure_matches_reference() {
    let mut a: u32;
    let mut b: u32;
    for seed in [0u32, 1, 42, 154_543_927, u32::MAX] {
        a = seed;
        b = seed;
        for _ in 0..1000 {
            assert_eq!(lcg_next(&mut a), lcg_next_reference(&mut b));
            assert_eq!(a, b);
        }
    }
}

#[test]
fn fast_mod_matches_hardware_division() {
    let mut s = 0x1234_5678_9abc_def0u64;
    let mut step = || {
        s ^= s << 13;
        s ^= s >> 7;
        s ^= s << 17;
        s
    };
    let divisors: Vec<u32> = (2u32..3000)
        .chain([
            4096,
            65536,
            65539,
            830_584,
            u32::MAX / 2 + 1,
            2u32.pow(31) - 1,
        ])
        .collect();
    for d in divisors {
        let magic = fastmod_magic(d);
        for _ in 0..64 {
            let x = (step() >> 32) as u32;
            assert_eq!(fast_mod(x, magic, d), x % d, "d={d} x={x}");
        }
        for x in [0u32, 1, d - 1, d, d + 1, u32::MAX] {
            assert_eq!(fast_mod(x, magic, d), x % d, "d={d} x={x}");
        }
    }
}

#[test]
fn lcg_range_stays_in_bounds() {
    let mut seed = 42u32;
    for _ in 0..1000 {
        let v = lcg_range(&mut seed, 262_144, 830_584);
        assert!((262_144..=830_584).contains(&v));
    }
    assert_eq!(lcg_range(&mut seed, 7, 7), 7);
}

#[test]
fn shuffle_roundtrip_various_sizes() {
    let mut seed = 1u32;
    for size in [0usize, 1, 2, 3, 7, 64, 255, 1000, 65540] {
        let key = lcg_next(&mut seed);
        let original: Vec<u8> = (0..size).map(|i| (i * 31 % 251) as u8).collect();
        let mut data = original.clone();
        shuffle(&mut data, key);
        unshuffle(&mut data, key);
        assert_eq!(data, original, "size {size} roundtrip failed");
        unshuffle(&mut data, key);
        shuffle(&mut data, key);
        assert_eq!(data, original, "size {size} reverse roundtrip failed");
    }
}

#[test]
fn shuffle_actually_permutes_for_suitable_keys() {
    let mut data = [1u8, 2, 3];
    shuffle(&mut data, 1);
    assert_eq!(data, [3, 2, 1]);
    let mut two = [1u8, 2];
    shuffle(&mut two, 0x5a5a_5a5a);
    assert_eq!(two, [1, 2]);
}

#[test]
fn shuffle_keeps_the_bytes() {
    let mut data: Vec<u8> = (0..100u8).collect();
    shuffle(&mut data, 77);
    assert_ne!(data, (0..100u8).collect::<Vec<u8>>());
    data.sort_unstable();
    assert_eq!(data, (0..100u8).collect::<Vec<u8>>());
}

#[test]
fn delta_roundtrip() {
    let kf = 154_543_927u32;
    let original: Vec<u8> = (0..1000u32).map(|i| (i * 7 % 256) as u8).collect();
    let mut data = original.clone();
    delta_encode(&mut data, kf);
    assert_ne!(data, original);
    delta_decode(&mut data, kf);
    assert_eq!(data, original);
}

#[test]
fn delta_known_bytes() {
    let mut data = [10u8, 12, 5];
    delta_encode(&mut data, 3);
    assert_eq!(data, [7, 2, 249]);
    delta_decode(&mut data, 3);
    assert_eq!(data, [10, 12, 5]);
}

#[test]
fn delta_first_byte_matches_formula() {
    let kf = 0xabu32;
    let mut data = [0x10u8];
    delta_encode(&mut data, kf);
    assert_eq!(data[0], 0x10u8.wrapping_sub(0xab));
}

#[test]
fn masked_xor_is_self_inverse() {
    let mut seed = 9u32;
    for len in [1usize, 2, 3, 4, 5, 8, 17, 100, 4097] {
        let key = lcg_next(&mut seed);
        let original: Vec<u8> = (0..len).map(|i| (i * 91 % 253) as u8).collect();
        let mut data = original.clone();
        masked_xor_random_next(&mut data, key);
        assert_ne!(&data, &original, "len {len}");
        masked_xor_random_next(&mut data, key);
        assert_eq!(data, original, "len {len}");
    }
}

/// Word-wise mask.
fn masked_reference(data: &mut [u8], kf: u32) {
    let mut kf = lcg_next_reference(&mut { kf });
    let mut chunks = data.chunks_exact_mut(4);
    for word in &mut chunks {
        let v = u32::from_le_bytes(word.try_into().unwrap()) ^ kf;
        word.copy_from_slice(&v.to_le_bytes());
        kf = lcg_next_reference(&mut { kf });
    }
    let rest = chunks.into_remainder();
    if rest.len() >= 2 {
        let v = u16::from_le_bytes([rest[0], rest[1]]) ^ kf as u16;
        rest[0..2].copy_from_slice(&v.to_le_bytes());
        kf = lcg_next_reference(&mut { kf });
    }
    if rest.len() % 2 == 1 {
        let last = rest.len() - 1;
        rest[last] ^= kf as u8;
    }
}

#[test]
fn masked_xor_matches_word_by_word() {
    for len in 0..40usize {
        let mut a: Vec<u8> = (0..len).map(|i| (i * 7) as u8).collect();
        let mut b = a.clone();
        masked_xor_random_next(&mut a, 0x0102_0304 + len as u32);
        masked_reference(&mut b, 0x0102_0304 + len as u32);
        assert_eq!(a, b, "len {len}");
    }
}
