use rescue_xlix::felt::{BaseFelt, GENERATOR, MODULUS};
use rescue_xlix::matrix::{echelon_form, get_mds_matrix, matrix_mul, transpose};
use rescue_xlix::rescue::{round_constants, seed, ALPHA, ALPHA_INV, BYTES_PER_INT, XLIX};

fn f(v: u128) -> BaseFelt {
    BaseFelt::new(v)
}

fn stream(len: usize) -> Vec<u8> {
    (0..len).map(|i| ((i * 131 + 17) % 251) as u8).collect()
}

fn hasher(m: usize, c: usize, n: usize, d: usize) -> XLIX {
    XLIX::new(f(GENERATOR), c, m, n, d, &stream(2 * m * n * BYTES_PER_INT))
}

#[test]
fn test_round_constants() {
    let s = stream(2 * 2 * 27 * BYTES_PER_INT);
    let result = round_constants(&s, 2, 27)
        .into_iter()
        .map(|v| v.as_integer())
        .collect::<Vec<_>>();
    println!("{:?} {}", result, result.len());
    assert_eq!(result.len(), 108);
    assert!(result.iter().all(|&v| v < MODULUS));
}

#[test]
fn round_constant_chunk_is_little_endian() {
    let mut s = vec![0u8; 2 * BYTES_PER_INT];
    s[0] = 1;
    s[1] = 2;
    s[BYTES_PER_INT] = 0xff;
    s[BYTES_PER_INT + 2] = 1;
    let r = round_constants(&s, 1, 1);
    assert_eq!(r[0].as_integer(), 1 + 2 * 256);
    assert_eq!(r[1].as_integer(), 0xff + 65536);
}

#[test]
fn round_constant_top_byte_is_reduced() {
    let mut s = vec![0u8; 2 * BYTES_PER_INT];
    s[16] = 1;
    let r = round_constants(&s, 1, 1);
    assert_eq!(r[0].as_integer(), (u128::MAX % MODULUS + 1) % MODULUS);
}

#[test]
fn round_constants_are_deterministic() {
    let s = stream(2 * 3 * 4 * BYTES_PER_INT);
    assert_eq!(round_constants(&s, 3, 4), round_constants(&s, 3, 4));
}

#[test]
fn alpha_inverse_inverts_alpha() {
    assert_eq!(f(ALPHA).mul(f(ALPHA_INV)), BaseFelt::one());
    assert_eq!(f(ALPHA).inverse(), Some(f(ALPHA_INV)));
}

#[test]
fn field_add_wraps() {
    let a = f(MODULUS - 1);
    assert_eq!(a.add(f(5)).as_integer(), 4);
    assert_eq!(f(3).sub(f(5)).as_integer(), MODULUS - 2);
    assert_eq!(f(7).neg().add(f(7)), BaseFelt::zero());
    assert_eq!(f(MODULUS + 3).as_integer(), 3);
}

#[test]
fn field_mul_is_modular() {
    let a = f(MODULUS - 1);
    assert_eq!(a.mul(a).as_integer(), 1);
    assert_eq!(f(6).mul(f(7)).as_integer(), 42);
    assert_eq!(f(1u128 << 100).mul(f(1u128 << 100)), f(1u128 << 100).square());
    assert_eq!(f(9).double().as_integer(), 18);
}

#[test]
fn in_place_variants() {
    let mut a = f(12);
    a.square_in_place();
    assert_eq!(a.as_integer(), 144);
    a.double_in_place();
    assert_eq!(a.as_integer(), 288);
}

#[test]
fn inverse_of_nonzero() {
    for v in [1u128, 2, 3, 138, GENERATOR, MODULUS - 1, 1u128 << 120] {
        let x = f(v);
        let y = x.inverse().unwrap();
        assert_eq!(x.mul(y), BaseFelt::one());
    }
    assert_eq!(f(2).inverse().unwrap().as_integer(), (MODULUS + 1) / 2);
}

#[test]
fn inverse_of_zero_is_absent() {
    assert_eq!(BaseFelt::zero().inverse(), None);
}

#[test]
fn batch_inverse_empty() {
    assert!(BaseFelt::batch_inverse(&Vec::new()).is_empty());
}

#[test]
fn batch_inverse_matches_inverse() {
    let values = vec![f(3), f(0), f(5), f(0), f(0), f(MODULUS - 7), f(1)];
    let r = BaseFelt::batch_inverse(&values);
    assert_eq!(r.len(), values.len());
    for (v, x) in values.iter().zip(r.iter()) {
        assert_eq!(*x, v.inverse());
    }
}

#[test]
fn pow_laws() {
    let x = f(GENERATOR);
    assert_eq!(x.pow(0), BaseFelt::one());
    assert_eq!(BaseFelt::zero().pow(0), BaseFelt::one());
    assert_eq!(BaseFelt::zero().pow(5), BaseFelt::zero());
    assert_eq!(f(3).pow(5).as_integer(), 243);
    assert_eq!(x.pow(1000 + 77), x.pow(1000).mul(x.pow(77)));
    assert_eq!(x.pow(MODULUS - 1), BaseFelt::one());
}

#[test]
fn transpose_swaps() {
    let m = vec![vec![f(1), f(2), f(3)], vec![f(4), f(5), f(6)]];
    let t = transpose(&m);
    assert_eq!(t, vec![vec![f(1), f(4)], vec![f(2), f(5)], vec![f(3), f(6)]]);
    assert!(transpose(&Vec::new()).is_empty());
    assert!(transpose(&vec![Vec::new(), Vec::new()]).is_empty());
}

#[test]
fn matrix_mul_product() {
    let a = vec![vec![f(1), f(2)], vec![f(3), f(4)]];
    let b = vec![vec![f(5)], vec![f(6)]];
    assert_eq!(matrix_mul(&a, &b), vec![vec![f(17)], vec![f(39)]]);
    assert!(matrix_mul(&a, &Vec::new()).is_empty());
}

#[test]
fn echelon_form_overwrites_rows() {
    let m = vec![vec![f(2), f(4)], vec![f(1), f(3)]];
    let inv2 = f((MODULUS + 1) / 2);
    assert_eq!(echelon_form(&m), vec![vec![f(1), f(2)], vec![inv2, f(1)]]);
    assert!(echelon_form(&Vec::new()).is_empty());
}

#[test]
fn echelon_form_skips_zero_column() {
    let m = vec![vec![f(0), f(2)], vec![f(0), f(4)]];
    let r = echelon_form(&m);
    assert_eq!(r, vec![vec![f(0), f(1)], vec![f(0), f(4)]]);
}

#[test]
fn mds_matrix_is_square_and_deterministic() {
    for m in 1..5 {
        let a = get_mds_matrix(f(GENERATOR), m);
        assert_eq!(a.len(), m);
        assert!(a.iter().all(|row| row.len() == m));
        assert_eq!(a, get_mds_matrix(f(GENERATOR), m));
    }
    assert!(get_mds_matrix(f(GENERATOR), 0).is_empty());
}

#[test]
fn digest_length() {
    let h = hasher(3, 1, 2, 5);
    assert_eq!(h.finish().len(), 2);
    let h = hasher(4, 1, 2, 2);
    assert_eq!(h.finish().len(), 2);
}

#[test]
fn finish_is_idempotent() {
    let mut h = hasher(3, 1, 3, 2);
    h.update(f(11));
    h.update(f(12));
    assert_eq!(h.finish(), h.finish());
}

#[test]
fn single_change_changes_digest() {
    let mut a = hasher(3, 1, 3, 2);
    let mut b = hasher(3, 1, 3, 2);
    for i in 0..5u128 {
        a.update(f(i + 1));
        b.update(f(if i == 2 { 100 } else { i + 1 }));
    }
    assert_ne!(a.finish(), b.finish());
}

#[test]
fn empty_and_single_input_differ() {
    let empty = hasher(2, 1, 27, 1);
    let mut one = hasher(2, 1, 27, 1);
    one.update(f(1));
    let d0 = empty.finish();
    let d1 = one.finish();
    assert_eq!(d0.len(), 1);
    assert_eq!(d1.len(), 1);
    assert_ne!(d0, d1);
    let mut again = hasher(2, 1, 27, 1);
    again.update(f(1));
    assert_eq!(again.finish(), d1);
    assert_eq!(hasher(2, 1, 27, 1).finish(), d0);
}

#[test]
fn padding_marker_is_absorbed() {
    let mut a = hasher(3, 1, 2, 2);
    let mut b = hasher(3, 1, 2, 2);
    a.update(f(5));
    b.update(f(5));
    b.update(f(1));
    assert_ne!(a.finish(), b.finish());
}

#[test]
fn permute_matches_finish_on_empty_input() {
    let h = hasher(2, 1, 4, 1);
    let mut state = vec![vec![f(1)], vec![f(0)]];
    h.permute(&mut state);
    assert_eq!(h.finish(), vec![state[0][0]]);
}

#[test]
fn seed_spells_parameters() {
    assert_eq!(
        seed(2, 1, 128),
        b"Rescue-XLIX(270497897142230380135924736767050121217,2,1,128)".to_vec()
    );
    assert_eq!(seed(10, 0, 7), format!("Rescue-XLIX({},10,0,7)", MODULUS).into_bytes());
}

#[test]
fn modulus_is_one_plus_407_times_two_to_119() {
    assert_eq!(MODULUS, 1 + 407 * (1u128 << 119));
    assert_eq!(BYTES_PER_INT, (rescue_xlix::felt::BITS as usize + 7) / 8 + 1);
}
