use gsw_rs::bootstrap::{bootstrap, decrypt_linear_part_clear, gen_evaluation_key};
use gsw_rs::{
    bit_decomp, decrypt, encrypt, encrypt_with_mask, gsw_keygen, homomorphic_add,
    homomorphic_mult, homomorphic_nand, keygen, keygen_with, mod_q_centered, Params,
};
use rand::SeedableRng;
use rand_chacha::ChaCha20Rng;

#[test]
fn keygen_with_builds_the_lwe_instance() {
    let p = Params::toy();
    let q = p.q;
    let t: Vec<u64> = (1..=8).collect();
    let b_mat: Vec<Vec<u64>> = (0..256).map(|i| vec![(i % 3) as u64; 8]).collect();
    let e: Vec<i64> = (0..256).map(|i| (i % 3) as i64 - 1).collect();
    let (sk, pk) = keygen_with(&p, &t, &b_mat, &e);
    assert_eq!(sk.s[0], 1);
    assert_eq!(sk.s[1], q - 1);
    assert_eq!(sk.s[8], q - 8);
    assert_eq!(pk.a.len(), 256);
    // row 1: B = [1; 8], t = 1..=8, e = 0
    assert_eq!(pk.a[1], vec![36, 1, 1, 1, 1, 1, 1, 1, 1]);
    // row 0: B = 0, e = -1
    assert_eq!(pk.a[0][0], q - 1);
    // row 2: B = [2; 8], e = 1
    assert_eq!(pk.a[2][0], 73);
    assert_eq!(sk.params().q, q);
    assert_eq!(pk.params().n, 8);
}

#[test]
fn keygen_satisfies_the_lwe_relation() {
    let p = Params::toy();
    let mut rng = ChaCha20Rng::seed_from_u64(3);
    let (sk, pk) = keygen(&mut rng, &p);
    assert_eq!(sk.s.len(), 9);
    assert_eq!(sk.s[0], 1);
    assert!(sk.s.iter().all(|&x| x < p.q));
    assert!(pk.a.iter().all(|row| row.len() == 9 && row.iter().all(|&x| x < p.q)));
    let mut distinct = pk.a.iter().map(|r| r[1]).collect::<Vec<_>>();
    distinct.sort();
    distinct.dedup();
    assert!(distinct.len() > 100);
    for row in &pk.a {
        let dot = row.iter().zip(sk.s.iter()).fold(0u64, |a, (x, y)| (a + x * y) % p.q);
        let e = mod_q_centered(dot as i64, p.q);
        assert!((-1..=1).contains(&e), "error {} out of bound", e);
    }
}

#[test]
fn zero_mask_gives_the_scaled_identity() {
    let p = Params::toy();
    let mut rng = ChaCha20Rng::seed_from_u64(5);
    let (sk, pk) = gsw_keygen(&mut rng, &p);
    let zero = vec![vec![0u64; p.m]; p.n_expanded];
    let c1 = encrypt_with_mask(&pk, 1, &zero);
    for i in 0..p.n_expanded {
        for j in 0..p.n_expanded {
            assert_eq!(c1[i][j], (i == j) as u64);
        }
    }
    assert_eq!(decrypt_linear_part_clear(&sk, &c1), 1 << 19);
    assert_eq!(decrypt(&sk, &c1), 1);
    let c0 = encrypt_with_mask(&pk, 0, &zero);
    assert!(c0.iter().all(|r| r.iter().all(|&x| x == 0)));
    assert_eq!(decrypt_linear_part_clear(&sk, &c0), 0);
    assert_eq!(decrypt(&sk, &c0), 0);
}

#[test]
fn gates_on_exact_ciphertexts() {
    let p = Params::toy();
    let mut rng = ChaCha20Rng::seed_from_u64(6);
    let (sk, pk) = gsw_keygen(&mut rng, &p);
    let zero = vec![vec![0u64; p.m]; p.n_expanded];
    let one = encrypt_with_mask(&pk, 1, &zero);
    let nought = encrypt_with_mask(&pk, 0, &zero);
    assert_eq!(homomorphic_mult(&p, &one, &one), one);
    assert_eq!(homomorphic_nand(&p, &one, &one), nought);
    assert_eq!(homomorphic_nand(&p, &nought, &one), one);
    let two = homomorphic_add(&p, &one, &one);
    // 2 * I flattens to the matrix whose row i has a one at i + 1 inside its block
    assert_eq!(two[0][1], 1);
    assert_eq!(two[0][0], 0);
    assert_eq!(decrypt(&sk, &two), 0);
}

#[test]
fn nand_truth_table() {
    let p = Params::toy();
    let mut rng = ChaCha20Rng::seed_from_u64(42);
    let (sk, pk) = gsw_keygen(&mut rng, &p);
    let c0 = encrypt(&mut rng, &pk, 0);
    let c1 = encrypt(&mut rng, &pk, 1);
    assert_eq!(decrypt(&sk, &homomorphic_nand(&p, &c0, &c0)), 1);
    assert_eq!(decrypt(&sk, &homomorphic_nand(&p, &c1, &c0)), 1);
    assert_eq!(decrypt(&sk, &homomorphic_nand(&p, &c0, &c1)), 1);
    assert_eq!(decrypt(&sk, &homomorphic_nand(&p, &c1, &c1)), 0);
}

#[test]
fn fresh_encryptions_have_small_noise() {
    let p = Params::toy();
    let mut rng = ChaCha20Rng::seed_from_u64(9);
    let (sk, pk) = gsw_keygen(&mut rng, &p);
    for bit in [0u8, 1] {
        let c = encrypt(&mut rng, &pk, bit);
        let d = decrypt_linear_part_clear(&sk, &c) as i64 - (bit as i64) * (1 << 19);
        let noise = mod_q_centered(d, p.q);
        assert!(noise.abs() <= (p.m as i64) * p.error_bound);
        assert!(c.iter().all(|r| r.len() == p.n_expanded && r.iter().all(|&x| x <= 1)));
    }
}

#[test]
fn evaluation_key_encrypts_secret_bits_and_bootstrap_of_zero_rows() {
    let p = Params::toy();
    let mut rng = ChaCha20Rng::seed_from_u64(11);
    let (sk, pk) = gsw_keygen(&mut rng, &p);
    let ek = gen_evaluation_key(&mut rng, &sk, &pk);
    let bits = bit_decomp(&sk.s, &p);
    assert_eq!(ek.encryptions.len(), p.n_expanded);
    for (c, &b) in ek.encryptions.iter().zip(bits.iter()) {
        assert_eq!(decrypt(&sk, c) as u64, b);
    }
    let zero = vec![vec![0u64; p.n_expanded]; p.n_expanded];
    let out = bootstrap(&p, &zero, &ek);
    assert_eq!(out, zero);
}

#[test]
fn decrypt_rounds_the_centered_residue() {
    let p = Params::toy();
    let mut rng = ChaCha20Rng::seed_from_u64(12);
    let (sk, _pk) = gsw_keygen(&mut rng, &p);
    let l = p.l;
    let with_row = |entries: &[usize]| {
        let mut c = vec![vec![0u64; p.n_expanded]; p.n_expanded];
        for &j in entries {
            c[l - 1][j] = 1;
        }
        c
    };
    // PowersOf2(s) starts with 1, 2, ..., 2^(l-1) since s[0] = 1.
    let three_quarters = with_row(&[l - 1, l - 2]);
    assert_eq!(decrypt_linear_part_clear(&sk, &three_quarters), 3 * p.q / 4);
    assert_eq!(decrypt(&sk, &three_quarters), 1);
    let quarter = with_row(&[l - 2]);
    assert_eq!(decrypt_linear_part_clear(&sk, &quarter), p.q / 4);
    assert_eq!(decrypt(&sk, &quarter), 1);
    let eighth = with_row(&[l - 3]);
    assert_eq!(decrypt(&sk, &eighth), 0);
    let seven_eighths = with_row(&[l - 1, l - 2, l - 3]);
    assert_eq!(decrypt_linear_part_clear(&sk, &seven_eighths), 7 * p.q / 8);
    assert_eq!(decrypt(&sk, &seven_eighths), 0);
}
