use equity_solver::comb::{comb, mcomb, precompute_mcomb};

/// Brute-force binomial coefficient by Pascal's rule.
fn brute_comb(n: usize, k: usize) -> u128 {
    if k == 0 {
        1
    } else if n == 0 {
        0
    } else {
        brute_comb(n - 1, k - 1) + brute_comb(n - 1, k)
    }
}

#[test]
fn comb_matches_brute_force_small() {
    for n in 0..=10 {
        for k in 0..=12 {
            assert_eq!(comb(n, k), brute_comb(n, k), "comb({}, {})", n, k);
        }
    }
}

#[test]
fn comb_known_values() {
    assert_eq!(comb(10, 4), 210);
    assert_eq!(comb(52, 5), 2598960);
    assert_eq!(comb(40, 15), 40225345056);
    assert_eq!(comb(5, 0), 1);
    assert_eq!(comb(0, 0), 1);
    assert_eq!(comb(3, 7), 0);
}

#[test]
fn mcomb_matches_brute_force_small() {
    for n in 1..=10 {
        for k in 0..=10 {
            assert_eq!(mcomb(n, k), brute_comb(n + k - 1, k), "mcomb({}, {})", n, k);
        }
    }
}

#[test]
fn mcomb_known_values() {
    assert_eq!(mcomb(7, 15), 54264);
    assert_eq!(mcomb(26, 3), 3276);
    assert_eq!(mcomb(25, 3), 2925);
    assert_eq!(mcomb(24, 3), 2600);
    assert_eq!(mcomb(23, 3), 2300);
}

#[test]
fn precompute_matches_direct_evaluation() {
    let t = precompute_mcomb(26, 15);
    assert_eq!(t.len(), 27);
    for n in 0..=26 {
        assert_eq!(t[n].len(), 16);
        for k in 0..=15 {
            let direct = if n == 0 && k == 0 {
                1
            } else if n == 0 {
                0
            } else {
                mcomb(n, k)
            };
            assert_eq!(t[n][k], direct, "table[{}][{}]", n, k);
        }
    }
}

#[test]
fn comb_at_the_width_limit() {
    // The largest arguments the contract admits still fit the 128-bit width.
    assert_eq!(comb(64, 32), 1832624140942590534);
    assert_eq!(comb(64, 64), 1);
    assert_eq!(comb(64, 0), 1);
}
