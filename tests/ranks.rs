use manybody_basis::{checked_binomial, init_sd_state, next_sd_state, sd_rank, sd_unrank};

#[test]
fn binomial_values() {
    assert_eq!(checked_binomial(10, 3), Some(120));
    assert_eq!(checked_binomial(5, 0), Some(1));
    assert_eq!(checked_binomial(5, 5), Some(1));
    assert_eq!(checked_binomial(3, 5), Some(0));
    assert_eq!(checked_binomial(66, 33), Some(7219428434016265740));
    assert_eq!(checked_binomial(68, 34), None);
    assert_eq!(checked_binomial(usize::MAX, 0), Some(1));
}

#[test]
fn rank_follows_successor_order() {
    let n = 3;
    let l = 10;
    let mut state = init_sd_state(0, n, l).unwrap();
    let mut k = 0;
    loop {
        assert_eq!(sd_rank(&state, n, l), k);
        assert_eq!(sd_unrank(k, n, l), state);
        match next_sd_state(&state, n, l) {
            Some(x) => state = x,
            None => break,
        }
        k += 1;
    }
    assert_eq!(k, 119);
}

#[test]
fn rank_round_trip_every_index() {
    for (n, l) in [(1, 4), (2, 5), (4, 8), (5, 5), (0, 3)] {
        let total = checked_binomial(l, n).unwrap();
        for k in 0..total {
            let s = sd_unrank(k, n, l);
            assert_eq!(s.len(), n);
            assert_eq!(sd_rank(&s, n, l), k);
        }
    }
}

#[test]
fn rank_of_known_states() {
    assert_eq!(sd_rank(&vec![0, 1, 2], 3, 10), 0);
    assert_eq!(sd_rank(&vec![0, 1, 3], 3, 10), 1);
    assert_eq!(sd_rank(&vec![0, 2, 3], 3, 10), 8);
    assert_eq!(sd_rank(&vec![1, 2, 3], 3, 10), 36);
    assert_eq!(sd_rank(&vec![7, 8, 9], 3, 10), 119);
    assert_eq!(sd_unrank(36, 3, 10), vec![1, 2, 3]);
}
