use lwe_crypto::linalg::DimensionMismatch;
use lwe_crypto::multiparty::{extract_shared_key, key_exchange_with, multiparty_key_exchange, relay, N, Q};
use rand::rngs::StdRng;
use rand::SeedableRng;

#[test]
fn extract_shared_key_thresholds_at_half() {
    assert_eq!(extract_shared_key(&vec![0, 48, 49, 96], 97), vec![0, 0, 1, 1]);
}

#[test]
fn relay_multiplies_and_adds_even_noise() {
    // (1 + 2x)(3 + 4x) = 3 + 10x + 8x^2 = -5 + 10x; plus 2 * [1, 0].
    assert_eq!(relay(&vec![1, 2], &vec![3, 4], &vec![1, 0], 2, 97), vec![94, 10]);
}

#[test]
fn four_participants_agree() {
    let mut rng = StdRng::seed_from_u64(8);
    let mut agreed = 0;
    for _ in 0..100 {
        let outcome = multiparty_key_exchange(4, N, Q, &mut rng);
        assert_eq!(outcome.keys.len(), 4);
        assert_eq!(outcome.sigma.len(), N);
        if outcome.keys.iter().all(|k| *k == outcome.keys[0]) {
            agreed += 1;
        }
    }
    assert!(agreed >= 99, "agreed = {}", agreed);
}

#[test]
fn participants_agree_for_several_group_sizes() {
    let mut rng = StdRng::seed_from_u64(9);
    for k in 2..7 {
        let outcome = multiparty_key_exchange(k, N, Q, &mut rng);
        assert_eq!(outcome.keys.len(), k);
        assert!(outcome.keys.iter().all(|key| *key == outcome.keys[0]));
        assert_eq!(outcome.sigma, outcome.keys[0]);
    }
}

#[test]
fn key_exchange_with_two_participants_exact() {
    // n = 2, q = 97, m = 1 + x, s0 = 2, s1 = 3 (constant polynomials).
    let m = vec![1, 1];
    let secrets = vec![vec![2, 0], vec![3, 0]];
    // One relay hop per participant (k - 1 = 1).
    let relay_noise = vec![vec![vec![0, 0]], vec![vec![1, 0]]];
    let final_noise = vec![vec![0, 0], vec![0, 0]];
    let sigma_noise = vec![0, 20];
    let out = key_exchange_with(2, 2, 97, &m, &secrets, &relay_noise, &final_noise, &sigma_noise).unwrap();
    // Participant 0: m * s1 = [3, 3]; times s0 = [6, 6] -> bits [0, 0].
    // Participant 1: m * s0 + 2 [1, 0] = [4, 2]; times s1 = [12, 6] -> bits [0, 0].
    assert_eq!(out.keys, vec![vec![0, 0], vec![0, 0]]);
    // Signal: [6, 6] + 2 [0, 20] = [6, 46] -> bits [0, 0]; with 2 * 21 = 42 more it would flip.
    assert_eq!(out.sigma, vec![0, 0]);
    let flipped = key_exchange_with(2, 2, 97, &m, &secrets, &relay_noise, &final_noise, &vec![0, 21]).unwrap();
    // [6, 6 + 42] = [6, 48] is still at most 48; 22 gives 50 > 48.
    assert_eq!(flipped.sigma, vec![0, 0]);
    let flipped = key_exchange_with(2, 2, 97, &m, &secrets, &relay_noise, &final_noise, &vec![0, 22]).unwrap();
    assert_eq!(flipped.sigma, vec![0, 1]);
}

#[test]
fn key_exchange_with_wraps_around_the_ring() {
    // x * x = x^2 = -1 in Z[x]/(x^2 + 1): a coefficient of 96 is above q / 2.
    let m = vec![0, 1];
    let secrets = vec![vec![1, 0], vec![0, 1]];
    let zero = vec![0, 0];
    let relay_noise = vec![vec![zero.clone()], vec![zero.clone()]];
    let final_noise = vec![zero.clone(), zero.clone()];
    let out = key_exchange_with(2, 2, 97, &m, &secrets, &relay_noise, &final_noise, &zero).unwrap();
    // Both participants compute m * s0 * s1 = x^2 = -1 = [96, 0].
    assert_eq!(out.keys, vec![vec![1, 0], vec![1, 0]]);
    assert_eq!(out.sigma, vec![1, 0]);
}

#[test]
fn key_exchange_with_reports_shape_errors() {
    let zero = vec![0, 0];
    let secrets = vec![vec![1, 0], vec![0, 1]];
    let relay_noise = vec![vec![zero.clone()], vec![zero.clone()]];
    let final_noise = vec![zero.clone(), zero.clone()];
    assert_eq!(
        key_exchange_with(2, 2, 97, &vec![1], &secrets, &relay_noise, &final_noise, &zero).err(),
        Some(DimensionMismatch { expected: 2, found: 1 })
    );
    assert_eq!(
        key_exchange_with(3, 2, 97, &zero, &secrets, &relay_noise, &final_noise, &zero).err(),
        Some(DimensionMismatch { expected: 3, found: 2 })
    );
    let bad_relay = vec![vec![zero.clone()], vec![zero.clone(), zero.clone()]];
    assert_eq!(
        key_exchange_with(2, 2, 97, &zero, &secrets, &bad_relay, &final_noise, &zero).err(),
        Some(DimensionMismatch { expected: 1, found: 2 })
    );
}
