//! The base94 codec.

use nextppp::base94::{
    all_ge, count_sub_ge, decimal_decode, decimal_encode, decode_into, encode_into,
    encode_into_with_len, encoded_len, DecodeError, DECIMAL_MAX_LEN, ESCAPE_RADIX,
};
use nextppp::crypto::ssea::{delta_decode, delta_encode};

fn sample(n: usize) -> Vec<u8> {
    let mut v = vec![0u8; n];
    let mut s = 0x0bad_c0de_dead_beefu64;
    for b in &mut v {
        s ^= s << 13;
        s ^= s >> 7;
        s ^= s << 17;
        *b = (s >> 56) as u8;
    }
    v
}

#[test]
fn roundtrip_and_printable() {
    for kf in [0u32, 1, 93, 94, 0xff, 0xdead_beef] {
        let original: Vec<u8> = (0..=u8::MAX).collect();
        let mut encoded = Vec::new();
        encode_into(&mut encoded, &original, kf);
        assert!(encoded.iter().all(|&c| (0x20..=0x7e).contains(&c)));
        assert_eq!(encoded.len(), encoded_len(&original, kf));
        let mut decoded = Vec::new();
        decode_into(&mut decoded, &encoded, kf).unwrap();
        assert_eq!(decoded, original);
    }
}

#[test]
fn roundtrip_large_and_edge_shapes() {
    let mut s = 0x0bad_c0deu64;
    let mut step = || {
        s ^= s << 13;
        s ^= s >> 7;
        s ^= s << 17;
        (s >> 56) as u8
    };
    let all_escape: Vec<u8> = (0..2000).map(|i| 93u8.wrapping_add(i as u8 % 163)).collect();
    let no_escape: Vec<u8> = vec![7u8; 2001];
    for dataset in [all_escape, no_escape] {
        for kf in [0u32, 0x5a5a_5a5a] {
            let mut encoded = Vec::new();
            encode_into(&mut encoded, &dataset, kf);
            assert_eq!(encoded.len(), encoded_len(&dataset, kf));
            let mut decoded = Vec::new();
            decode_into(&mut decoded, &encoded, kf).unwrap();
            assert_eq!(decoded, dataset);
        }
    }
    let mut random: Vec<u8> = (0..65_537).map(|_| step()).collect();
    random[0] = 0x93;
    let mut encoded = Vec::new();
    encode_into(&mut encoded, &random, 154_543_927);
    let mut decoded = Vec::new();
    decode_into(&mut decoded, &encoded, 154_543_927).unwrap();
    assert_eq!(decoded, random);
}

#[test]
fn decode_uses_existing_out_prefix() {
    let original = vec![0xde, 0xad, 0xbe, 0xef];
    let mut encoded = Vec::new();
    encode_into(&mut encoded, &original, 123);
    let mut out = b"prefix".to_vec();
    decode_into(&mut out, &encoded, 123).unwrap();
    assert_eq!(out, [b"prefix".as_slice(), original.as_slice()].concat());
}

#[test]
fn escape_boundaries() {
    let mut encoded = Vec::new();
    encode_into(&mut encoded, &[0, 92, 93, 94, 255], 0);
    assert_eq!(encoded, [0x20, 0x7c, 0x7d, 0x20, 0x7d, 0x21, 0x7e, 0x65]);
}

#[test]
fn decode_rejects_garbage() {
    let mut out = Vec::new();
    assert!(decode_into(&mut out, &[0x1f], 0).is_err());
    assert!(decode_into(&mut out, &[0x7f], 0).is_err());
    assert!(decode_into(&mut out, &[0x7d], 0).is_err());
    assert!(decode_into(&mut out, &[0x7d, 0x7e], 0).is_err());
    assert!(decode_into(&mut out, &[0x7e, 0x7e], 0).is_err());
    assert!(decode_into(&mut out, &[0x7f, 0x20], 0).is_err());
    assert!(out.is_empty(), "no partial output on failure");
    assert_eq!(DecodeError.message(), "invalid base94 data");
}

/// Greedy scalar decoder.
fn decode_reference(out: &mut Vec<u8>, src: &[u8], kf: u32) -> Result<(), DecodeError> {
    let kf8 = kf as u8;
    let start = out.len();
    let mut i = 0;
    while i < src.len() {
        let c = src[i];
        if c < 0x20 {
            out.truncate(start);
            return Err(DecodeError);
        }
        let b = c - 0x20;
        if b < ESCAPE_RADIX {
            out.push(b.wrapping_add(kf8));
            i += 1;
            continue;
        }
        if b > 94 {
            out.truncate(start);
            return Err(DecodeError);
        }
        let Some(&c2) = src.get(i + 1) else {
            out.truncate(start);
            return Err(DecodeError);
        };
        if c2 < 0x20 {
            out.truncate(start);
            return Err(DecodeError);
        }
        let b2 = c2 - 0x20;
        if b2 > ESCAPE_RADIX {
            out.truncate(start);
            return Err(DecodeError);
        }
        if b == 94 && b2 > 0xff - 2 * ESCAPE_RADIX {
            out.truncate(start);
            return Err(DecodeError);
        }
        let v = u32::from(b - ESCAPE_RADIX + 1) * u32::from(ESCAPE_RADIX) + u32::from(b2);
        out.push((v as u8).wrapping_add(kf8));
        i += 2;
    }
    Ok(())
}

#[test]
fn decode_fuzz_matches_reference() {
    let mut s = 0x00c0_ffee_d00d_feedu64;
    let mut next = || {
        s ^= s << 13;
        s ^= s >> 7;
        s ^= s << 17;
        s
    };
    for len in [
        0usize, 1, 15, 16, 17, 31, 33, 64, 100, 199, 200, 201, 255, 256, 257, 513,
    ] {
        for _ in 0..40 {
            let input: Vec<u8> = (0..len)
                .map(|_| {
                    let r = (next() >> 32) as u8;
                    match r % 8 {
                        0..=4 => 0x20 + (r % 93),
                        5 => 0x7b,
                        6 => 0x7d + (r % 2),
                        _ => r,
                    }
                })
                .collect();
            for kf in [0u32, 77, 0x5a5a_5a5a] {
                let mut got = Vec::new();
                let mut want = Vec::new();
                let a = decode_into(&mut got, &input, kf);
                let b = decode_reference(&mut want, &input, kf);
                assert_eq!(a.is_ok(), b.is_ok(), "len={len} kf={kf} ok-ness");
                if let (Ok(()), Ok(())) = (a, b) {
                    assert_eq!(got, want, "len={len} kf={kf}");
                }
            }
        }
    }
}

#[test]
fn decode_rejects_7e_follower_in_simd_block() {
    let input: Vec<u8> = b"ppppppppp#i}~C}(".to_vec();
    assert_eq!(input.len(), 16);
    let mut out = Vec::new();
    assert!(decode_into(&mut out, &input, 125).is_err());
    assert_eq!(out, [] as [u8; 0]);
    for shift in 0..15usize {
        let mut v = vec![0x41u8; 16];
        v[shift] = 0x7d;
        v[shift + 1] = 0x7e;
        let mut out = Vec::new();
        assert!(decode_into(&mut out, &v, 0).is_err(), "shift {shift}");
    }
    let mut v = vec![0x41u8; 16];
    v[0] = 0x7e;
    v[1] = 0x7d;
    let mut out = Vec::new();
    assert!(decode_into(&mut out, &v, 0).is_err());
    assert_eq!(out, [] as [u8; 0]);
}

#[test]
fn decode_legal_adjacent_escape_pair() {
    let mut big = vec![0x7du8; 64];
    big.extend_from_slice(&[0x41; 8]);
    for kf in [0u32, 200] {
        let mut got = Vec::new();
        decode_into(&mut got, &big, kf).unwrap();
        let mut want = Vec::new();
        decode_reference(&mut want, &big, kf).unwrap();
        assert_eq!(got, want);
        assert_eq!(got.len(), 32 + 8);
    }
}

#[test]
fn decimal_roundtrip() {
    let mut buf = [0u8; DECIMAL_MAX_LEN];
    for v in [0u64, 1, 93, 94, 830_583, u64::from(u32::MAX), u64::MAX] {
        let len = decimal_encode(v, &mut buf);
        let digits = &buf[..len];
        assert!(digits.iter().all(|&c| c >= 0x20));
        if v > 0 {
            assert_ne!(digits[0], 0x20, "no leading zero");
        }
        assert_eq!(decimal_decode(digits).unwrap(), v);
        if len <= 3 {
            let mut padded = [0x20u8; 3];
            padded[3 - len..].copy_from_slice(digits);
            assert_eq!(decimal_decode(&padded).unwrap(), v);
        }
    }
}

#[test]
fn decimal_known_value() {
    let mut buf = [0u8; DECIMAL_MAX_LEN];
    let len = decimal_encode(8836, &mut buf);
    assert_eq!(len, 3);
    assert_eq!(&buf[..3], &[0x21, 0x20, 0x20]);
}

#[test]
fn decimal_rejects_bad_digits_and_overflow() {
    assert!(decimal_decode(&[]).is_err());
    assert!(decimal_decode(&[0x1f]).is_err());
    assert!(decimal_decode(&[0x7e]).is_err());
    assert!(decimal_decode(&[0x7d; 10]).is_err());
    assert_eq!(decimal_decode(&[0x7d]), Ok(93));
}

#[test]
fn decimal_leaves_the_rest_of_the_buffer() {
    let mut buf = [0xeeu8; DECIMAL_MAX_LEN];
    let len = decimal_encode(95, &mut buf);
    assert_eq!(len, 2);
    assert_eq!(buf[..2], [0x21, 0x21]);
    assert!(buf[2..].iter().all(|&b| b == 0xee));
}

#[test]
fn encode_with_len_appends() {
    let mut out = vec![1u8, 2];
    let len = encoded_len(&[0, 200], 0);
    assert_eq!(len, 3);
    encode_into_with_len(&mut out, &[0, 200], 0, len);
    assert_eq!(out, [1, 2, 0x20, 0x7e, 0x20 + 14]);
}

#[test]
fn pieces_decode_independently() {
    let mut a = Vec::new();
    encode_into(&mut a, &[1, 250, 3], 9);
    let mut b = Vec::new();
    encode_into(&mut b, &[4, 5], 9);
    a.extend_from_slice(&b);
    let mut out = Vec::new();
    decode_into(&mut out, &a, 9).unwrap();
    assert_eq!(out, [1, 250, 3, 4, 5]);
}

#[test]
fn simd_simd_matches_scalar() {
    for n in [0usize, 1, 2, 15, 16, 17, 31, 32, 33, 100, 65536, 65539] {
        let src = sample(n);
        for kf in [0u8, 1, 0x5a, 0xa7] {
            let count = src.iter().filter(|b| b.wrapping_sub(kf) >= 93).count();
            assert_eq!(count_sub_ge(&src, kf, 93), count, "count n={n} kf={kf}");
            assert_eq!(all_ge(&src, 1), src.iter().all(|&b| b >= 1), "all n={n}");
        }
    }
}

#[test]
fn simd_matches_scalar() {
    for n in [0usize, 1, 2, 15, 16, 17, 31, 32, 33, 100, 65536, 65539] {
        let src = sample(n);
        for kf in [0u8, 1, 0x5a, 0xa7] {
            let count = src.iter().filter(|b| b.wrapping_sub(kf) >= 93).count();
            assert_eq!(count_sub_ge(&src, kf, 93), count, "count n={n} kf={kf}");
            assert_eq!(all_ge(&src, 1), src.iter().all(|&b| b >= 1), "all n={n}");

            let mut a = src.clone();
            let mut b = src.clone();
            delta_encode(&mut a, u32::from(kf));
            let mut prev = kf;
            for x in &mut b {
                let cur = *x;
                *x = cur.wrapping_sub(prev);
                prev = cur;
            }
            assert_eq!(a, b, "enc n={n} kf={kf}");

            let mut a = src.clone();
            let mut b = src.clone();
            delta_decode(&mut a, u32::from(kf));
            let mut acc = kf;
            for x in &mut b {
                acc = acc.wrapping_add(*x);
                *x = acc;
            }
            assert_eq!(a, b, "dec n={n} kf={kf}");
        }
    }
}

#[test]
fn delta_roundtrip_through_simd() {
    let src = sample(65539);
    let mut data = src.clone();
    delta_encode(&mut data, 154);
    delta_decode(&mut data, 154);
    assert_eq!(data, src);
}
