use gsw_rs::{
    bit_decomp, bit_decomp_inverse, flatten, flatten_matrix, g_inverse_matrix, mod_q,
    mod_q_centered, powers_of_2, Params, SecurityLevel,
};

fn toy() -> Params {
    Params::toy()
}

#[test]
fn mod_q_reduces_negative_and_large_values() {
    assert_eq!(mod_q(-1, 16), 15);
    assert_eq!(mod_q(-16, 16), 0);
    assert_eq!(mod_q(-17, 16), 15);
    assert_eq!(mod_q(17, 16), 1);
    assert_eq!(mod_q(0, 16), 0);
    assert_eq!(mod_q(i64::MIN, 1 << 20), 0);
}

#[test]
fn mod_q_centered_maps_into_half_open_range() {
    assert_eq!(mod_q_centered(15, 16), -1);
    assert_eq!(mod_q_centered(8, 16), 8);
    assert_eq!(mod_q_centered(-8, 16), 8);
    assert_eq!(mod_q_centered(-9, 16), 7);
    assert_eq!(mod_q_centered(9, 16), -7);
    assert_eq!(mod_q_centered(33, 16), 1);
}

#[test]
fn presets_have_derived_dimensions() {
    let t = Params::new(SecurityLevel::Toy);
    assert_eq!((t.q, t.n, t.m, t.error_bound, t.l, t.n_expanded), (1 << 20, 8, 256, 1, 20, 180));
    let lo = Params::new(SecurityLevel::Low);
    assert_eq!((lo.q, lo.n, lo.m, lo.error_bound, lo.l, lo.n_expanded), (1 << 24, 24, 384, 2, 24, 600));
    let me = Params::new(SecurityLevel::Medium);
    assert_eq!((me.q, me.n, me.m, me.error_bound, me.l, me.n_expanded), (1 << 26, 48, 768, 4, 26, 1274));
    let toy = Params::toy();
    assert_eq!((toy.q, toy.l, toy.n_expanded), (1 << 20, 20, 180));
}

#[test]
fn bit_decomp_is_lsb_first_per_entry() {
    let p = toy();
    let d = bit_decomp(&[5, 3], &p);
    assert_eq!(d.len(), 40);
    assert_eq!(&d[0..4], &[1, 0, 1, 0]);
    assert!(d[4..20].iter().all(|&b| b == 0));
    assert_eq!(&d[20..23], &[1, 1, 0]);
    let top = bit_decomp(&[(1 << 19) + 1], &p);
    assert_eq!(top[0], 1);
    assert_eq!(top[19], 1);
    assert_eq!(top.iter().sum::<u64>(), 2);
}

#[test]
fn bit_decomp_inverse_keeps_carries() {
    let p = toy();
    let mut w = vec![0u64; 40];
    w[0] = 2;
    w[1] = 1;
    w[20] = 3;
    w[39] = 1;
    assert_eq!(bit_decomp_inverse(&w, &p), vec![4, 3 + (1 << 19)]);
    let mut wrap = vec![0u64; 20];
    wrap[19] = 2;
    assert_eq!(bit_decomp_inverse(&wrap, &p), vec![0]);
}

#[test]
fn bit_decomp_inverse_undoes_bit_decomp() {
    let p = toy();
    let v = vec![0u64, 1, 12345, (1 << 20) - 1];
    assert_eq!(bit_decomp_inverse(&bit_decomp(&v, &p), &p), v);
}

#[test]
fn flatten_normalizes_carries_to_bits() {
    let p = toy();
    let mut w = vec![0u64; 20];
    w[0] = 3;
    let f = flatten(&w, &p);
    assert_eq!(&f[0..3], &[1, 1, 0]);
    assert!(f.iter().all(|&b| b <= 1));
}

#[test]
fn flatten_is_identity_on_bits_and_idempotent() {
    let p = toy();
    let bits: Vec<u64> = (0..40).map(|i| ((i * 7 + 3) % 5 % 2) as u64).collect();
    assert_eq!(flatten(&bits, &p), bits);
    let w: Vec<u64> = (0..40).map(|i| (i * 977 + 5) as u64 % (1 << 20)).collect();
    let once = flatten(&w, &p);
    assert_eq!(flatten(&once, &p), once);
    assert_eq!(once, bit_decomp(&bit_decomp_inverse(&w, &p), &p));
}

#[test]
fn powers_of_2_scales_each_entry() {
    let p = toy();
    let v = powers_of_2(&[3, 1], &p);
    assert_eq!(v.len(), 40);
    assert_eq!(&v[0..4], &[3, 6, 12, 24]);
    assert_eq!(v[19], (3u64 << 19) % (1 << 20));
    assert_eq!(v[20], 1);
    assert_eq!(v[39], 1 << 19);
}

#[test]
fn gadget_identity_on_concrete_vectors() {
    let p = toy();
    let q = p.q;
    let v: Vec<u64> = (0..9).map(|i| (i * 123_457 + 11) as u64 % q).collect();
    let s: Vec<u64> = (0..9).map(|i| (i * 654_321 + 1) as u64 % q).collect();
    let bd = bit_decomp(&v, &p);
    let po = powers_of_2(&s, &p);
    let lhs = bd.iter().zip(po.iter()).fold(0u64, |a, (x, y)| (a + x * y) % q);
    let rhs = v.iter().zip(s.iter()).fold(0u64, |a, (x, y)| (a + x * y) % q);
    assert_eq!(lhs, rhs);
}

#[test]
fn matrix_variants_work_row_by_row() {
    let p = toy();
    let m = vec![vec![5u64, 3], vec![0, 1]];
    let g = g_inverse_matrix(&m, &p);
    assert_eq!(g.len(), 2);
    assert_eq!(g[0], bit_decomp(&[5, 3], &p));
    assert_eq!(g[1], bit_decomp(&[0, 1], &p));
    let mut row = vec![0u64; 20];
    row[0] = 2;
    let rows = vec![row.clone(), vec![1u64; 20]];
    let f = flatten_matrix(&rows, &p);
    assert_eq!(f[0], flatten(&row, &p));
    assert_eq!(f[1], flatten(&vec![1u64; 20], &p));
}
