use fingerprint::bits::{
    align, check_hash, digest_matches, distance, first_channel, from_bools, from_upow, from_usize, samples_from_lines, to_i16,
    to_u8, to_upow,
};
use fingerprint::gf::GaloisField;
use fingerprint::hash::hash_symbols;
use fingerprint::pairing::{
    attempt_window, message_attempt, message_step, pair_attempt, pair_step, seal_message, split_recording,
    unpack_transmission, Attempt, Config,
};
use fingerprint::poly::Poly;
use fingerprint::rs::ReedSolomon;
use sha2::Digest;

fn gf16() -> GaloisField {
    GaloisField::new(4, 0b10011, 0b0010)
}

fn rs16() -> ReedSolomon {
    ReedSolomon { n: 15, k: 9, field: gf16() }
}

fn small_config() -> Config {
    Config {
        slice_size: 2,
        num_bands: 3,
        rec_frames: 0,
        pair_frames: 2,
        key_len: 0,
        slices: 2,
        send_len: 0,
        rs_n: 15,
        rs_k: 9,
        gf_pow: 4,
        gf_gen: 2,
        gf_prim: 0b10011,
    }
}

// ---- the field ----

#[test]
fn field_tables_gf16() {
    let f = gf16();
    assert_eq!(f.gf_ilog, vec![1, 2, 4, 8, 3, 6, 12, 11, 5, 10, 7, 14, 15, 13, 9, 1]);
    assert_eq!(f.gf_log, vec![0, 15, 1, 4, 2, 8, 5, 10, 3, 14, 9, 7, 6, 13, 11, 12]);
    assert_eq!(f.generator, 2);
}

#[test]
fn field_logs_distinct_gf16() {
    let f = gf16();
    for i in 0..16 {
        for j in 0..16 {
            if i != j {
                assert!(f.gf_log[i] != f.gf_log[j]);
                assert!(f.gf_ilog[i] != f.gf_ilog[j] || f.gf_ilog[i] == 1);
            }
        }
    }
}

#[test]
fn field_rejects_out_of_range() {
    let f = gf16();
    assert_eq!(f.sum(17, 1), Err("args out of bounds"));
    assert_eq!(f.mult(17, 2), Err("args out of bounds"));
    assert_eq!(f.div(1, 17), Err("args out of bounds"));
    assert_eq!(f.div(3, 0), Err("Division by zero"));
    assert_eq!(f.div(0, 3), Ok(0));
    assert_eq!(f.sum(16, 3), Ok(19));
}

#[test]
fn field_exact_values_gf16() {
    let f = gf16();
    assert_eq!(f.mult(2, 8), Ok(3));
    assert_eq!(f.mult(7, 0), Ok(0));
    assert_eq!(f.div(3, 8), Ok(2));
    assert_eq!(f.sum(5, 6), Ok(3));
    assert_eq!(f.pow(2, 4), Ok(3));
    assert_eq!(f.pow(2, 15), Ok(1));
    assert_eq!(f.pow(9, 0), Ok(1));
}

#[test]
fn field_laws_on_gf16() {
    let f = gf16();
    for a in 0..16 {
        for b in 0..16 {
            let ab = f.mult(a, b).unwrap();
            assert_eq!(ab, f.mult(b, a).unwrap());
            if b != 0 {
                assert_eq!(f.div(ab, b), Ok(a));
            }
            for c in 0..16 {
                let left = f.mult(a, f.sum(b, c).unwrap()).unwrap();
                let right = f.sum(ab, f.mult(a, c).unwrap()).unwrap();
                assert_eq!(left, right);
                let assoc1 = f.mult(ab, c).unwrap();
                let assoc2 = f.mult(a, f.mult(b, c).unwrap()).unwrap();
                assert_eq!(assoc1, assoc2);
            }
        }
    }
}

#[test]
fn field_inverse_gf16() {
    let f = gf16();
    assert_eq!(f.mult_inverse(0), None);
    assert_eq!(f.mult_inverse(2), Some(9));
    assert_eq!(f.mult_inverse(15), Some(8));
    for x in 1..16 {
        let t = f.mult_inverse(x).unwrap();
        assert_eq!(f.mult(x, t), Ok(1));
    }
}

// ---- polynomials ----

#[test]
fn poly_deg_mononomial_shift() {
    assert_eq!(Poly { coeffs: vec![1, 0, 3, 0, 0] }.deg(), 2);
    assert_eq!(Poly { coeffs: vec![0, 0] }.deg(), 0);
    assert_eq!(Poly { coeffs: vec![] }.deg(), 0);
    assert_eq!(Poly::mononomial(7, 3).coeffs, vec![0, 0, 0, 7]);
    assert_eq!(Poly::mononomial(0, 0).coeffs, vec![0]);
    assert_eq!(Poly { coeffs: vec![4, 5] }.shift(2).coeffs, vec![0, 0, 4, 5]);
}

#[test]
fn poly_sum_and_product_exact() {
    let f = gf16();
    let a = Poly { coeffs: vec![2, 1] };
    let b = Poly { coeffs: vec![3, 1] };
    assert_eq!(f.mult_poly(&a, &b).unwrap().coeffs, vec![6, 1, 1]);
    assert_eq!(f.sum_poly(&a, &b).unwrap().coeffs, vec![1, 0]);
    let c = Poly { coeffs: vec![1, 2, 3] };
    assert_eq!(f.sum_poly(&a, &c).unwrap().coeffs, vec![3, 3, 3]);
    assert!(matches!(f.sum_poly(&a, &Poly { coeffs: vec![17] }), Err("args out of bounds")));
}

#[test]
fn poly_eval_and_roots() {
    let f = gf16();
    let p = Poly { coeffs: vec![6, 1, 1] };
    assert_eq!(f.eval_poly_at(&p, 2), Ok(0));
    assert_eq!(f.eval_poly_at(&p, 3), Ok(0));
    assert_eq!(f.eval_poly_at(&p, 0), Ok(6));
    assert_eq!(f.roots(&p), Ok(vec![2, 3]));
    assert_eq!(f.eval_poly_at(&Poly { coeffs: vec![1, 20] }, 3), Err("args out of bounds"));
}

#[test]
fn poly_division_exact() {
    let f = gf16();
    let p = Poly { coeffs: vec![1, 2, 3, 4] };
    let d = Poly { coeffs: vec![5, 1] };
    let (q, r) = f.div_poly(&p, &d).unwrap();
    assert_eq!(q.coeffs, vec![5, 4, 4]);
    assert_eq!(r.coeffs, vec![3, 0]);
    assert!(r.deg() < d.deg());
    // quotient * divisor + remainder = dividend, at every point of the field
    let back = f.sum_poly(&f.mult_poly(&q, &d).unwrap(), &r).unwrap();
    for x in 0..16 {
        assert_eq!(f.eval_poly_at(&back, x), f.eval_poly_at(&p, x));
    }
}

#[test]
fn poly_division_of_product_is_exact() {
    let f = gf16();
    let a = Poly { coeffs: vec![9, 4, 1, 12, 0] };
    let b = Poly { coeffs: vec![7, 0, 3] };
    let prod = f.mult_poly(&a, &b).unwrap();
    let (q, r) = f.div_poly(&prod, &b).unwrap();
    assert_eq!(q.coeffs, vec![9, 4, 1, 12]);
    assert!(r.coeffs.iter().all(|c| *c == 0));
    let (q2, r2) = f.div_poly(&prod, &Poly { coeffs: vec![9, 4, 1, 12] }).unwrap();
    assert_eq!(q2.coeffs, vec![7, 0, 3]);
    assert!(r2.coeffs.iter().all(|c| *c == 0));
}

#[test]
fn poly_division_by_constants() {
    let f = gf16();
    let p = Poly { coeffs: vec![1, 7, 0] };
    let (q, r) = f.div_poly(&p, &Poly::mononomial(1, 0)).unwrap();
    assert_eq!(q.coeffs, vec![1, 7]);
    assert_eq!(r.coeffs, vec![0]);
    assert!(matches!(f.div_poly(&p, &Poly::mononomial(0, 0)), Err("Division by zero")));
    let (q2, _) = f.div_poly(&p, &Poly::mononomial(2, 0)).unwrap();
    assert_eq!(q2.coeffs, vec![f.div(1, 2).unwrap(), f.div(7, 2).unwrap()]);
}

#[test]
fn poly_ring_laws_on_values() {
    let f = gf16();
    let a = Poly { coeffs: vec![9, 4, 1, 12] };
    let b = Poly { coeffs: vec![7, 0, 3] };
    let c = Poly { coeffs: vec![1, 15] };
    let zero = Poly::mononomial(0, 0);
    let one = Poly::mononomial(1, 0);
    let by_zero = f.mult_poly(&a, &zero).unwrap();
    let by_one = f.mult_poly(&a, &one).unwrap();
    let plus_zero = f.sum_poly(&a, &zero).unwrap();
    let s = f.sum_poly(&a, &b).unwrap();
    let back = f.sum_poly(&s, &a).unwrap();
    let left = f.mult_poly(&a, &f.sum_poly(&b, &c).unwrap()).unwrap();
    let right = f.sum_poly(&f.mult_poly(&a, &b).unwrap(), &f.mult_poly(&a, &c).unwrap()).unwrap();
    let ab = f.mult_poly(&a, &b).unwrap();
    for x in 0..16 {
        let va = f.eval_poly_at(&a, x).unwrap();
        let vb = f.eval_poly_at(&b, x).unwrap();
        assert_eq!(f.eval_poly_at(&by_zero, x), Ok(0));
        assert_eq!(f.eval_poly_at(&by_one, x), Ok(va));
        assert_eq!(f.eval_poly_at(&plus_zero, x), Ok(va));
        assert_eq!(f.eval_poly_at(&back, x), Ok(vb));
        assert_eq!(f.eval_poly_at(&left, x), f.eval_poly_at(&right, x));
        assert_eq!(f.eval_poly_at(&ab, x), f.mult(va, vb));
        assert_eq!(f.eval_poly_at(&s, x), f.sum(va, vb));
    }
}

#[test]
fn rref_solves_small_system() {
    let f = gf16();
    // x + y = 3, 2x + y = 5  over GF(16): x = 2, y = 1
    let m = vec![vec![1, 1, 3], vec![2, 1, 5]];
    let r = f.rref(m).unwrap();
    assert_eq!(r, vec![vec![1, 0, 2], vec![0, 1, 1]]);
    let id = vec![vec![1, 0, 4], vec![0, 1, 9]];
    assert_eq!(f.rref(id.clone()).unwrap(), id);
}

// ---- Reed-Solomon ----

#[test]
fn rs_generator_poly_gf16() {
    let rs = rs16();
    assert_eq!(rs.generator_poly().coeffs, vec![12, 10, 12, 3, 9, 7, 1]);
}

#[test]
fn rs_encode_is_codeword() {
    let rs = rs16();
    let msg = Poly { coeffs: vec![1, 2, 3, 4, 5, 6, 7, 8, 9] };
    let c = rs.encode(msg).unwrap();
    assert_eq!(c.coeffs, vec![3, 6, 2, 2, 0, 14, 1, 2, 3, 4, 5, 6, 7, 8, 9]);
    assert_eq!(rs.syndrome_components(&c), vec![0, 0, 0, 0, 0, 0]);
    let d = rs.decode(c.clone()).unwrap();
    assert_eq!(d.coeffs, c.coeffs);
}

#[test]
fn rs_decode_corrects_two_errors() {
    let rs = rs16();
    let msg = Poly { coeffs: vec![1, 2, 3, 4, 5, 6, 7, 8, 9] };
    let c = rs.encode(msg).unwrap();
    let mut received = c.coeffs.clone();
    received[3] ^= 5;
    received[10] ^= 9;
    let synd = rs.syndrome_components(&Poly { coeffs: received.clone() });
    assert!(synd.iter().any(|s| *s != 0));
    let d = rs.decode(Poly { coeffs: received }).unwrap();
    assert_eq!(d.coeffs, c.coeffs);
}

#[test]
fn rs_decode_corrects_every_single_error() {
    let rs = rs16();
    let c = rs.encode(Poly { coeffs: vec![1, 2, 3, 4, 5, 6, 7, 8, 9] }).unwrap().coeffs;
    for loc in 0..15 {
        for e in 1..16 {
            let mut r = c.clone();
            r[loc] ^= e;
            let d = rs.decode(Poly { coeffs: r }).unwrap();
            assert_eq!(d.coeffs, c);
        }
    }
}

fn same_coefficients(a: &[usize], b: &[usize]) -> bool {
    let n = a.len().max(b.len());
    (0..n).all(|i| a.get(i).copied().unwrap_or(0) == b.get(i).copied().unwrap_or(0))
}

#[test]
fn rs_error_at_position_zero_is_corrected() {
    let rs = rs16();
    let c = rs.encode(Poly { coeffs: vec![1, 2, 3, 4, 5, 6, 7, 8, 9] }).unwrap().coeffs;
    let mut r = c.clone();
    r[0] ^= 5;
    let d = rs.decode(Poly { coeffs: r }).unwrap();
    assert_eq!(d.coeffs, c);
}

#[test]
fn rs_decode_corrects_every_double_error() {
    let rs = rs16();
    let c = rs.encode(Poly { coeffs: vec![1, 2, 3, 4, 5, 6, 7, 8, 9] }).unwrap().coeffs;
    for l1 in 0..15 {
        for l2 in (l1 + 1)..15 {
            for e1 in 1..16 {
                for e2 in 1..16 {
                    let mut r = c.clone();
                    r[l1] ^= e1;
                    r[l2] ^= e2;
                    let d = rs.decode(Poly { coeffs: r }).unwrap();
                    assert!(same_coefficients(&d.coeffs, &c), "errors at {} and {}", l1, l2);
                }
            }
        }
    }
}

#[test]
fn rs_decode_corrects_triple_errors() {
    let rs = rs16();
    let c = rs.encode(Poly { coeffs: vec![9, 8, 7, 6, 5, 4, 3, 2, 1] }).unwrap().coeffs;
    let mut seed: usize = 12345;
    let mut next = |m: usize| {
        seed = seed.wrapping_mul(1103515245).wrapping_add(12345) % 2147483648;
        (seed >> 8) % m
    };
    for _ in 0..5000 {
        let l1 = next(15);
        let l2 = (l1 + 1 + next(14)) % 15;
        let mut l3 = next(15);
        while l3 == l1 || l3 == l2 {
            l3 = (l3 + 1) % 15;
        }
        let mut r = c.clone();
        r[l1] ^= 1 + next(15);
        r[l2] ^= 1 + next(15);
        r[l3] ^= 1 + next(15);
        let d = rs.decode(Poly { coeffs: r }).unwrap();
        assert!(same_coefficients(&d.coeffs, &c), "errors at {}, {}, {}", l1, l2, l3);
    }
}

#[test]
fn rs_decode_with_generator_three() {
    // 3 = x + 1 also generates the nonzero elements of GF(16)
    let rs = ReedSolomon { n: 15, k: 9, field: GaloisField::new(4, 0b10011, 3) };
    let c = rs.encode(Poly { coeffs: vec![1, 2, 3, 4, 5, 6, 7, 8, 9] }).unwrap().coeffs;
    assert_eq!(c, vec![2, 15, 11, 13, 11, 11, 1, 2, 3, 4, 5, 6, 7, 8, 9]);
    assert_eq!(rs.syndrome_components(&Poly { coeffs: c.clone() }), vec![0; 6]);
    for l1 in 0..15 {
        for e1 in 1..16 {
            let mut r = c.clone();
            r[l1] ^= e1;
            assert_eq!(rs.decode(Poly { coeffs: r.clone() }).unwrap().coeffs, c);
            let l2 = (l1 + 7) % 15;
            r[l2] ^= 5;
            let d = rs.decode(Poly { coeffs: r }).unwrap();
            assert!(same_coefficients(&d.coeffs, &c), "errors at {} and {}", l1, l2);
        }
    }
}

#[test]
fn rs_error_locations_and_values() {
    let rs = rs16();
    let f = &rs.field;
    let received = Poly {
        coeffs: vec![
            f.pow(2, 12).unwrap(),
            f.pow(2, 8).unwrap(),
            f.pow(2, 3).unwrap(),
            f.pow(2, 4).unwrap(),
            f.pow(2, 10).unwrap(),
            f.pow(2, 8).unwrap(),
            0,
            f.pow(2, 11).unwrap(),
            1,
        ],
    };
    let synd = rs.syndrome_components(&received);
    let sigma = rs.berlekamp(&synd);
    assert_eq!(sigma.coeffs, vec![1, 1, 7]);
    let reversed = Poly { coeffs: vec![7, 1, 1] };
    let locs = rs.error_locs(&reversed).unwrap();
    assert_eq!(locs, vec![2, 8]);
    let vals = rs.error_vals(&locs, &synd).unwrap();
    assert_eq!(vals, vec![1, 1]);
}

// ---- bits and bytes ----

#[test]
fn samples_bytes_roundtrip() {
    let samples: Vec<i16> = vec![0x0102, -1, 0, i16::MIN, i16::MAX];
    let bytes = to_u8(samples.clone());
    assert_eq!(bytes, vec![1, 2, 255, 255, 0, 0, 128, 0, 127, 255]);
    assert_eq!(to_i16(&bytes), samples);
    assert_eq!(to_i16(&[1, 2, 3]), vec![0x0102]);
    let even: Vec<u8> = vec![0, 255, 128, 1, 7, 9];
    assert_eq!(to_u8(to_i16(&even)), even);
}

#[test]
fn bools_pack_into_bytes() {
    assert_eq!(from_bools(&[true]), vec![2]);
    assert_eq!(from_bools(&[true; 8]), vec![254]);
    assert_eq!(from_bools(&[true, false, true, false, false, false, false, true, true]), vec![0b01000010, 2]);
    assert_eq!(from_bools(&[]), Vec::<u8>::new());
}

#[test]
fn usize_big_endian_bytes() {
    let b = from_usize(&[1, 0x0203]);
    let w = std::mem::size_of::<usize>();
    assert_eq!(b.len(), 2 * w);
    assert_eq!(b[w - 1], 1);
    assert_eq!(b[2 * w - 2], 2);
    assert_eq!(b[2 * w - 1], 3);
    assert!(b[..w - 1].iter().all(|x| *x == 0));
}

#[test]
fn hash_and_distance_helpers() {
    assert!(check_hash(&[1, 2, 3], &[1, 2, 3]));
    assert!(!check_hash(&[1, 2, 3], &[1, 9, 3]));
    assert!(!check_hash(&[1, 2], &[1, 2, 3]));
    assert_eq!(distance(&vec![true, false, true], &vec![false, false, false, true]), 2);
    assert_eq!(distance(&vec![], &vec![true]), 0);
}

#[test]
fn align_finds_best_shift() {
    let first: Vec<u8> = vec![0, 9, 0, 0];
    let second: Vec<u8> = vec![0, 0, 9, 0];
    assert_eq!(align(&first, &second), 1);
    assert_eq!(align(&vec![], &vec![1, 2]), 0);
}

#[test]
fn upow_packing_shifts_each_symbol() {
    // packing reads bits pow..1 of each symbol
    assert_eq!(from_upow(vec![1, 2, 3, 4], 8), vec![0, 1, 1, 2]);
    assert_eq!(from_upow(vec![0b1111, 0b1110], 4), vec![0b01110111]);
    assert_eq!(to_upow(vec![0b10100101], 4), vec![0b1010, 0b0101]);
    assert_eq!(to_upow(vec![0xff, 0x00], 3), vec![7, 7, 6, 0, 0]);
    let symbols = vec![6, 9, 14, 2];
    let back = to_upow(from_upow(symbols.clone(), 4), 4);
    assert_eq!(back, vec![3, 4, 7, 1]);
}

#[test]
fn first_channel_of_frames() {
    assert_eq!(first_channel(&[1, 2, 3, 4, 5], 2), vec![1, 3, 5]);
    assert_eq!(first_channel(&[1, 2, 3, 4, 5, 6], 3), vec![1, 4]);
    assert_eq!(first_channel(&[8, 9], 1), vec![8, 9]);
    assert_eq!(first_channel(&[], 2), Vec::<i16>::new());
    assert_eq!(first_channel(&[], 0), Vec::<i16>::new());
}

#[test]
fn digest_decision() {
    assert!(digest_matches(&[1, 2, 3], &[1, 2, 3]));
    assert!(!digest_matches(&[1, 2, 3], &[1, 9]));
    assert!(!digest_matches(&[1, 2], &[1, 2, 3]));
    // the field is compared with the leading bytes of the digest
    assert!(digest_matches(&[1, 2, 3], &[1, 2]));
    assert!(digest_matches(&[1, 2, 3], &[]));
    let digest = hash_symbols(&[4, 5, 6]);
    assert!(digest_matches(&digest, &digest[..16]));
    assert!(!digest_matches(&digest, &digest[48..]));
}

#[test]
fn roots_stop_at_degree_or_field_end() {
    let f = gf16();
    // X^2 has the single zero 0: the scan runs to the end of the field
    assert_eq!(f.roots(&Poly { coeffs: vec![0, 0, 1] }), Ok(vec![0]));
    // a nonzero constant: the scan stops at once with no zero
    assert_eq!(f.roots(&Poly { coeffs: vec![5] }), Ok(vec![]));
    // the zero polynomial: every element is a zero
    assert_eq!(f.roots(&Poly { coeffs: vec![0] }), Ok((0..16).collect::<Vec<usize>>()));
}

#[test]
fn gf256_field_laws_hold() {
    let f = GaloisField::new(8, 0b100011101, 0b10000011);
    for i in 0..256 {
        assert_eq!(f.mult(i, 1), Ok(i));
        for j in 0..256 {
            let ij = f.mult(i, j).unwrap();
            assert!(ij < 256);
            assert_eq!(f.div(ij, j).is_ok(), j != 0);
            if j != 0 {
                assert_eq!(f.div(ij, j), Ok(i));
            }
        }
    }
}

#[test]
fn hash_symbols_is_sha512_of_bytes() {
    let h = hash_symbols(&[1, 2]);
    let expected = sha2::Sha512::digest(from_usize(&[1, 2]));
    assert_eq!(h.len(), 64);
    assert_eq!(h, expected.to_vec());
    assert_ne!(h, from_usize(&[1, 2]));
}

// ---- framing ----

#[test]
fn config_derived_lengths() {
    let mut config = Config {
        slice_size: 16537,
        num_bands: 33,
        rec_frames: 0,
        pair_frames: 13230,
        key_len: 0,
        slices: 16,
        send_len: 0,
        rs_n: 256,
        rs_k: 102,
        gf_pow: 10,
        gf_gen: 0b00000000011,
        gf_prim: 0b10000001001,
    };
    config.derive_lengths();
    assert_eq!(config.rec_frames, 277822);
    assert_eq!(config.key_len, 512);
    assert_eq!(config.send_len, 13566);
    assert_eq!(config.slices, 16);
}

#[test]
fn split_recording_pads_to_slices() {
    let mut config = small_config();
    let (head, samples) = split_recording(vec![1, 2, 3, 4, 5, 6, 7], &config).unwrap();
    assert_eq!(head, vec![1, 2]);
    assert_eq!(samples, vec![0x0304, 0x0506]);
    config.slice_size = 3;
    let (_, padded) = split_recording(vec![1, 2, 3, 4, 5, 6], &config).unwrap();
    assert_eq!(padded, vec![0x0304, 0x0506, 0]);
    assert!(split_recording(vec![1], &config).is_none());
    config.slice_size = 0;
    assert!(split_recording(vec![1, 2, 3], &config).is_none());
}

#[test]
fn seal_message_frames_masked_codeword() {
    let rs = rs16();
    let head = vec![7u8, 7];
    let key = vec![0xffu8, 0x0f];
    let out = seal_message(&rs, vec![1, 2, 3, 4, 5, 6, 7, 8, 9], &key, head.clone(), 4).unwrap();
    let codeword = vec![3, 6, 2, 2, 0, 14, 1, 2, 3, 4, 5, 6, 7, 8, 9];
    let packed = from_upow(codeword, 4);
    assert_eq!(packed.len(), 7);
    assert_eq!(out.len(), 2 + 7 + 64);
    assert_eq!(&out[..2], &head[..]);
    assert_eq!(out[2], packed[0] ^ 0xff);
    assert_eq!(out[3], packed[1] ^ 0x0f);
    assert_eq!(&out[4..9], &packed[2..]);
    let digest = sha2::Sha512::digest(&packed);
    assert_eq!(&out[9..], digest.as_slice());
}

#[test]
fn seal_message_reports_encode_error() {
    let rs = rs16();
    // a symbol above the field size is refused by the division in `encode`
    assert_eq!(seal_message(&rs, vec![1, 2, 40], &[], vec![], 4), Err("args out of bounds"));
}

#[test]
fn unpack_transmission_splits_fields() {
    let config = small_config();
    let data: Vec<u8> = vec![0, 1, 0, 2, 0, 3, 0, 4, 0, 5, 0, 6];
    let mut received: Vec<u8> = vec![9, 9, 0xab];
    received.extend_from_slice(&[5u8; 16]);
    let (offset, samples, message, hash, attempts) = unpack_transmission(data.clone(), received, &config).unwrap();
    assert_eq!(samples, vec![1, 2, 3, 4, 5, 6]);
    assert_eq!(message, vec![0xa, 0xb]);
    assert_eq!(hash, vec![5u8; 16]);
    assert_eq!(attempts, 0);
    assert_eq!(offset, align(&data, &{
        let mut r = vec![9u8, 9, 0xab];
        r.extend_from_slice(&[5u8; 16]);
        r
    }) / 2);
    assert!(unpack_transmission(data, vec![1, 2, 3], &config).is_none());
}

#[test]
fn attempt_windows() {
    let config = small_config();
    assert_eq!(attempt_window(0, 0, &config, 10), Some((0, 4)));
    assert_eq!(attempt_window(0, 1, &config, 1000), Some((441, 445)));
    assert_eq!(attempt_window(9000, 0, &config, 1000), Some((180, 184)));
    assert_eq!(attempt_window(0, 1, &config, 100), None);
}

#[test]
fn message_and_pair_attempts_on_codeword() {
    let rs = rs16();
    let codeword = vec![3, 6, 2, 2, 0, 14, 1, 2, 3, 4, 5, 6, 7, 8, 9];
    let key = vec![1, 0, 5, 0, 0, 0, 0, 0, 0, 0, 0, 0, 0, 0, 0];
    let masked: Vec<usize> = codeword.iter().zip(key.iter()).map(|(a, b)| a ^ b).collect();
    let (decoded, digest) = message_attempt(&rs, &masked, &key, vec![0; 15]).unwrap();
    assert_eq!(decoded, codeword);
    assert_eq!(digest, hash_symbols(&codeword));
    let (decoded2, synd, all_zero) = pair_attempt(&rs, &masked, &key, vec![0; 15]).unwrap();
    assert_eq!(decoded2, codeword);
    assert_eq!(synd, vec![0; 6]);
    assert!(all_zero);
}

#[test]
fn pair_attempt_with_wrong_key_corrects_or_flags() {
    let rs = rs16();
    let codeword = vec![3, 6, 2, 2, 0, 14, 1, 2, 3, 4, 5, 6, 7, 8, 9];
    let mut key = vec![0; 15];
    key[4] = 3;
    let (decoded, _, all_zero) = pair_attempt(&rs, &codeword, &key, vec![0; 15]).unwrap();
    // one wrong symbol is within the correction capacity
    assert_eq!(decoded, codeword);
    assert!(all_zero);
}

#[test]
fn roots_never_exceed_degree() {
    let f = gf16();
    for a in 0..16usize {
        for b in 0..16usize {
            for c in 1..16usize {
                let quad = f.roots(&Poly { coeffs: vec![a, b, c] }).unwrap();
                assert!(quad.len() <= 2);
                let cubic = f.roots(&Poly { coeffs: vec![a, b, 0, c] }).unwrap();
                assert!(cubic.len() <= 3);
            }
        }
    }
    // (X + 2)(X + 3)(X + 4) has exactly its three zeros
    let p = f.mult_poly(&Poly { coeffs: vec![2, 1] }, &Poly { coeffs: vec![3, 1] }).unwrap();
    let p = f.mult_poly(&p, &Poly { coeffs: vec![4, 1] }).unwrap();
    assert_eq!(f.roots(&p), Ok(vec![2, 3, 4]));
}

#[test]
fn rs_encode_succeeds_on_every_nonzero_symbol_and_is_systematic() {
    let rs = rs16();
    for pos in 0..9usize {
        for v in 1..16usize {
            let mut msg = vec![0usize; 9];
            msg[pos] = v;
            let c = rs.encode(Poly { coeffs: msg.clone() }).unwrap().coeffs;
            for k in 6..15usize {
                let got = c.get(k).copied().unwrap_or(0);
                assert_eq!(got, msg[k - 6]);
            }
            assert_eq!(rs.syndrome_components(&Poly { coeffs: c }), vec![0; 6]);
        }
    }
}

#[test]
fn rs_error_locs_finds_every_power_zero() {
    let rs = rs16();
    let f = &rs.field;
    // (X + g^1)(X + g^5)(X + g^9): its zeros stand for positions 1, 5 and 9
    let mut p = Poly { coeffs: vec![1] };
    for e in [1usize, 5, 9] {
        p = f.mult_poly(&p, &Poly { coeffs: vec![f.pow(2, e).unwrap(), 1] }).unwrap();
    }
    let mut locs = rs.error_locs(&p).unwrap();
    locs.sort();
    assert_eq!(locs, vec![1, 5, 9]);
    // the zero 0 has no logarithm: it is reported as 2^m - 1
    let q = Poly { coeffs: vec![0, 1] };
    assert_eq!(rs.error_locs(&q), Ok(vec![15]));
}

#[test]
fn rs_syndromes_depend_on_the_error_alone() {
    let rs = rs16();
    let c = rs.encode(Poly { coeffs: vec![3, 1, 4, 1, 5, 9, 2, 6, 5] }).unwrap().coeffs;
    let mut e = vec![0usize; 15];
    e[2] = 7;
    e[11] = 12;
    let r: Vec<usize> = (0..15).map(|i| c.get(i).copied().unwrap_or(0) ^ e[i]).collect();
    assert_eq!(rs.syndrome_components(&Poly { coeffs: r }), rs.syndrome_components(&Poly { coeffs: e }));
}

#[test]
fn samples_from_lines_keeps_the_decimal_i16_lines() {
    let lines: Vec<String> = ["12", "-5", "abc", "40000", "+7", "", "-32768"].iter().map(|s| s.to_string()).collect();
    assert_eq!(samples_from_lines(&lines), vec![12, -5, 7, -32768]);
    assert_eq!(samples_from_lines(&Vec::new()), Vec::<i16>::new());
}

#[test]
fn message_and_pair_steps_decide() {
    let rs = rs16();
    let codeword = vec![3, 6, 2, 2, 0, 14, 1, 2, 3, 4, 5, 6, 7, 8, 9];
    let key = vec![1, 0, 5, 0, 0, 0, 0, 0, 0, 0, 0, 0, 0, 0, 0];
    let masked: Vec<usize> = codeword.iter().zip(key.iter()).map(|(a, b)| a ^ b).collect();
    let digest = hash_symbols(&codeword);
    match message_step(&rs, &masked, &key, vec![0; 15], &digest[..16]).unwrap() {
        Attempt::Found(w) => assert_eq!(w, codeword),
        Attempt::Next(_) => panic!("the digest leads with the field"),
    }
    match message_step(&rs, &masked, &key, vec![0; 15], &digest[48..]).unwrap() {
        Attempt::Next(w) => assert_eq!(w, codeword),
        Attempt::Found(_) => panic!("the field is not the digest's first bytes"),
    }
    match pair_step(&rs, &masked, &key, vec![0; 15]).unwrap() {
        Attempt::Found(s) => assert_eq!(s, vec![0; 6]),
        Attempt::Next(_) => panic!("a codeword has zero syndromes"),
    }
}

#[test]
fn decimal_text_rule() {
    let lines: Vec<String> = [" 5", "1_0", "-", "+", "007", "-0", "+-1", "32767", "32768", "-32769", "12a"]
        .iter()
        .map(|s| s.to_string())
        .collect();
    assert_eq!(samples_from_lines(&lines), vec![7, 0, 32767]);
}

#[test]
fn berlekamp_finds_the_locator_of_two_errors() {
    let rs = rs16();
    let f = &rs.field;
    let mut e = vec![0usize; 15];
    e[3] = 9;
    e[10] = 4;
    let syn = rs.syndrome_components(&Poly { coeffs: e });
    let sigma = rs.berlekamp(&syn).coeffs;
    let x1 = f.pow(2, 3).unwrap();
    let x2 = f.pow(2, 10).unwrap();
    // the locator (1 + X1 x)(1 + X2 x)
    assert_eq!(sigma, vec![1, x1 ^ x2, f.mult(x1, x2).unwrap()]);
    // it generates the syndromes with length 2
    for i in 2..6 {
        let v = syn[i] ^ f.mult(sigma[1], syn[i - 1]).unwrap() ^ f.mult(sigma[2], syn[i - 2]).unwrap();
        assert_eq!(v, 0);
    }
}

#[test]
fn berlekamp_finds_the_locator_of_three_errors() {
    let rs = rs16();
    let f = &rs.field;
    let mut e = vec![0usize; 15];
    e[0] = 1;
    e[7] = 12;
    e[14] = 5;
    let syn = rs.syndrome_components(&Poly { coeffs: e });
    let sigma = rs.berlekamp(&syn).coeffs;
    assert_eq!(sigma.len(), 4);
    // reversed, it vanishes at g^0, g^7 and g^14
    let reversed: Vec<usize> = sigma.iter().rev().copied().collect();
    for p in [0usize, 7, 14] {
        let x = f.pow(2, p).unwrap();
        assert_eq!(f.eval_poly_at(&Poly { coeffs: reversed.clone() }, x), Ok(0));
    }
}

#[test]
fn error_locs_of_the_berlekamp_locator_are_the_error_positions() {
    let rs = rs16();
    for (a, b, c) in [(0usize, 5usize, 9usize), (1, 2, 14), (3, 8, 13)] {
        let mut e = vec![0usize; 15];
        e[a] = 3;
        e[b] = 11;
        e[c] = 6;
        let syn = rs.syndrome_components(&Poly { coeffs: e });
        let sigma = rs.berlekamp(&syn).coeffs;
        assert_eq!(sigma.len(), 4);
        let reversed: Vec<usize> = sigma.iter().rev().copied().collect();
        let mut locs = rs.error_locs(&Poly { coeffs: reversed }).unwrap();
        locs.sort();
        assert_eq!(locs, vec![a, b, c]);
    }
}

#[test]
fn decode_corrects_up_to_three_errors() {
    let rs = rs16();
    let message = Poly { coeffs: vec![5, 0, 13, 7, 1, 9, 2, 11, 4] };
    let codeword = rs.encode(message).unwrap().coeffs;
    let mut padded = codeword.clone();
    padded.resize(15, 0);
    for positions in [vec![6usize], vec![2, 11], vec![0, 7, 14], vec![3, 4, 5]] {
        let mut received = padded.clone();
        for (j, &p) in positions.iter().enumerate() {
            received[p] ^= 1 + (3 * j + p) % 15;
        }
        assert_ne!(received, padded);
        let mut decoded = rs.decode(Poly { coeffs: received }).unwrap().coeffs;
        decoded.resize(15, 0);
        assert_eq!(decoded, padded);
    }
}
