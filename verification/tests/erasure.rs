use shardvault::gf;
use shardvault::matrix::Matrix;
use shardvault::rs::{EcError, ReedSolomon};

#[test]
fn exp_log_consistency() {
    let t = gf::tables();
    for a in 1..=255u16 {
        assert_eq!(t.exp[t.log[a as usize] as usize], a as u8);
    }
    for i in 0..255 {
        assert_eq!(t.log[t.exp[i] as usize] as usize, i);
    }
}

#[test]
fn mul_identity_and_zero() {
    for a in 0..=255u16 {
        let a = a as u8;
        assert_eq!(gf::mul(a, 1), a);
        assert_eq!(gf::mul(1, a), a);
        assert_eq!(gf::mul(a, 0), 0);
        assert_eq!(gf::mul(0, a), 0);
    }
}

#[test]
fn add_is_xor() {
    assert_eq!(gf::add(0x5A, 0x3C), 0x5A ^ 0x3C);
    assert_eq!(gf::add(0x5A, 0x5A), 0);
}

#[test]
fn inv_of_zero_is_zero() {
    assert_eq!(gf::inv(0), 0);
    assert_eq!(gf::div(3, 0), 0);
}

fn samples() -> Vec<u8> {
    (0..=255u16).filter(|a| a % 7 == 0 || *a < 4 || *a > 252).map(|a| a as u8).collect()
}

#[test]
fn mul_is_commutative() {
    for &a in &samples() {
        for &b in &samples() {
            assert_eq!(gf::mul(a, b), gf::mul(b, a));
        }
    }
}

#[test]
fn mul_is_associative() {
    for a in [0u8, 1, 2, 3, 29, 128, 200, 255] {
        for b in [0u8, 1, 7, 91, 142, 255] {
            for c in [0u8, 1, 5, 100, 254] {
                assert_eq!(gf::mul(gf::mul(a, b), c), gf::mul(a, gf::mul(b, c)));
            }
        }
    }
}

#[test]
fn mul_by_inverse_is_one() {
    for a in 1..=255u16 {
        let a = a as u8;
        assert_eq!(gf::mul(a, gf::inv(a)), 1);
    }
}

#[test]
fn mul_distributes_over_add() {
    for a in [0u8, 1, 2, 3, 29, 128, 200, 255] {
        for b in [0u8, 1, 7, 91, 142, 255] {
            for c in [0u8, 1, 5, 100, 254] {
                assert_eq!(
                    gf::mul(a, gf::add(b, c)),
                    gf::add(gf::mul(a, b), gf::mul(a, c))
                );
            }
        }
    }
}

#[test]
fn div_undoes_mul() {
    for &a in &samples() {
        for &b in &samples() {
            if b != 0 {
                assert_eq!(gf::mul(gf::div(a, b), b), a);
            }
        }
    }
}

#[test]
fn double_inverse_is_identity() {
    for a in 1..=255u16 {
        let a = a as u8;
        assert_eq!(gf::inv(gf::inv(a)), a);
    }
}

#[test]
fn products_reduce_by_the_field_polynomial() {
    assert_eq!(gf::mul(2, 0x80), 0x1D);
    assert_eq!(gf::mul(0x53, 0xCA), 0x8F);
    assert_eq!(gf::inv(2), 0x8E);
}

#[test]
fn identity_mul() {
    let a = Matrix::vandermonde_systematic(3, 2);
    let id = Matrix::identity(a.cols());
    assert_eq!(a.mul(&id), a);
    let id = Matrix::identity(a.rows());
    assert_eq!(id.mul(&a), a);
}

#[test]
fn every_k_row_submatrix_is_invertible() {
    for &(k, m) in &[(2usize, 2usize), (3, 2), (4, 3), (6, 3)] {
        let mat = Matrix::vandermonde_systematic(k, m);
        let n = k + m;
        for mask in 0u32..(1u32 << n) {
            if mask.count_ones() != k as u32 {
                continue;
            }
            let rows: Vec<usize> = (0..n).filter(|&i| mask & (1 << i) != 0).collect();
            let mut sub = Matrix::new(k, k);
            for (r, &ri) in rows.iter().enumerate() {
                for c in 0..k {
                    sub.set(r, c, mat.get(ri, c));
                }
            }
            let inv = sub.invert().expect("submatrix must be invertible");
            let prod = sub.mul(&inv);
            for r in 0..k {
                for c in 0..k {
                    assert_eq!(prod.get(r, c), if r == c { 1 } else { 0 });
                }
            }
        }
    }
}

#[test]
fn singular_matrix_returns_none() {
    let mut m = Matrix::new(2, 2);
    m.set(0, 0, 1);
    m.set(0, 1, 1);
    m.set(1, 0, 1);
    m.set(1, 1, 1);
    assert!(m.invert().is_none());
}

#[test]
fn systematic_matrix_starts_with_the_identity() {
    let mat = Matrix::vandermonde_systematic(5, 3);
    assert_eq!(mat.rows(), 8);
    assert_eq!(mat.cols(), 5);
    for r in 0..5 {
        for c in 0..5 {
            assert_eq!(mat.get(r, c), if r == c { 1 } else { 0 });
        }
    }
}

fn make_data_shards(k: usize, shard_len: usize) -> Vec<Vec<u8>> {
    (0..k)
        .map(|i| {
            (0..shard_len)
                .map(|p| ((i * 31 + p * 7 + 11) & 0xFF) as u8)
                .collect()
        })
        .collect()
}

#[test]
fn reconstruction_all_erasure_combinations() {
    for &(k, m) in &[(4usize, 2usize), (6, 3), (10, 4)] {
        let rs = ReedSolomon::new(k, m);
        let data = make_data_shards(k, 512);
        let parity = rs.encode(&data);
        let mut all = Vec::with_capacity(k + m);
        all.extend(data.clone());
        all.extend(parity);
        let n = k + m;
        for mask in 0u32..(1u32 << n) {
            let erased = mask.count_ones() as usize;
            if erased > m + 1 {
                continue;
            }
            let mut shards: Vec<Option<Vec<u8>>> = all.iter().cloned().map(Some).collect();
            for (i, slot) in shards.iter_mut().enumerate() {
                if mask & (1 << i) != 0 {
                    *slot = None;
                }
            }
            let res = rs.reconstruct(&mut shards);
            if erased <= m {
                res.unwrap();
                for (rebuilt, original) in shards.iter().zip(data.iter()) {
                    assert_eq!(
                        rebuilt.as_ref().unwrap(),
                        original,
                        "k={k} m={m} mask={mask:#b}"
                    );
                }
            } else {
                assert_eq!(
                    res,
                    Err(EcError::TooFewShards),
                    "k={k} m={m} mask={mask:#b}"
                );
            }
        }
    }
}

#[test]
fn no_erasures_is_noop() {
    let rs = ReedSolomon::new(4, 2);
    let data = make_data_shards(4, 64);
    let parity = rs.encode(&data);
    let mut shards: Vec<Option<Vec<u8>>> = data
        .iter()
        .chain(parity.iter())
        .cloned()
        .map(Some)
        .collect();
    let before = shards.clone();
    rs.reconstruct(&mut shards).unwrap();
    assert_eq!(shards, before);
}

#[test]
fn inconsistent_lengths_are_rejected() {
    let rs = ReedSolomon::new(4, 2);
    let data = make_data_shards(4, 64);
    let parity = rs.encode(&data);
    let mut shards: Vec<Option<Vec<u8>>> = vec![
        Some(vec![0; 64]),
        Some(vec![0; 63]),
        Some(vec![0; 64]),
        Some(vec![0; 64]),
        Some(parity[0].clone()),
        Some(parity[1].clone()),
    ];
    assert_eq!(
        rs.reconstruct(&mut shards),
        Err(EcError::InconsistentShards)
    );
}

#[test]
fn wrong_shard_count_is_rejected() {
    let rs = ReedSolomon::new(4, 2);
    let mut shards: Vec<Option<Vec<u8>>> = vec![Some(vec![0; 8]); 5];
    assert_eq!(
        rs.reconstruct(&mut shards),
        Err(EcError::InconsistentShards)
    );
}

#[test]
fn parity_shards_match_manual_computation() {
    let rs = ReedSolomon::new(2, 1);
    let data = vec![vec![0x11, 0x22], vec![0x33, 0x44]];
    let parity = rs.encode(&data);
    assert_eq!(parity[0], vec![0x2D, 0x66]);
}

#[test]
fn lost_parity_is_rebuilt_too() {
    let rs = ReedSolomon::new(3, 2);
    assert_eq!(rs.data_shard_count(), 3);
    assert_eq!(rs.parity_shard_count(), 2);
    assert_eq!(rs.shard_count(), 5);
    let data = make_data_shards(3, 20);
    let parity = rs.encode(&data);
    let mut shards: Vec<Option<Vec<u8>>> =
        vec![None, Some(data[1].clone()), Some(data[2].clone()), Some(parity[0].clone()), None];
    rs.reconstruct(&mut shards).unwrap();
    assert_eq!(shards[0].as_ref().unwrap(), &data[0]);
    assert_eq!(shards[4].as_ref().unwrap(), &parity[1]);
}

#[test]
fn erasure_errors_have_words() {
    assert_eq!(EcError::TooFewShards.message(), "fewer than k surviving shards");
    assert_eq!(
        EcError::InconsistentShards.message(),
        "shard count or lengths are inconsistent"
    );
}
