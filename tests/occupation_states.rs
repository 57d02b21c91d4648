use manybody_basis::{init_sd_state, next_sd_state, single_excitation, BasisError};

#[test]
fn test_init_sd_state() {
    let n = 4;
    let l = 11;

    let state = init_sd_state(0, n, l).unwrap();
    for i in 0..state.len() {
        assert!(i == state[i]);
    }
}

#[test]
fn test_next_sd_state() {
    let n = 3;
    let l = 10;

    let mut state = init_sd_state(0, n, l).unwrap();

    for p in 0..l {
        for q in (p + 1)..l {
            for r in (q + 1)..l {
                assert!(p == state[0] && q == state[1] && r == state[2]);
                state = match next_sd_state(&state, n, l) {
                    Some(x) => x,
                    None => continue,
                };
            }
        }
    }
}

#[test]
fn init_with_offset() {
    assert_eq!(init_sd_state(2, 3, 6).unwrap(), vec![2, 3, 4]);
}

#[test]
fn init_rejects_too_few_orbitals() {
    assert_eq!(init_sd_state(2, 3, 5), Err(BasisError::ConfigurationError));
    assert_eq!(init_sd_state(0, 4, 4), Err(BasisError::ConfigurationError));
    assert_eq!(init_sd_state(7, 0, 7), Err(BasisError::ConfigurationError));
    assert_eq!(init_sd_state(usize::MAX, 2, 5), Err(BasisError::ConfigurationError));
}

#[test]
fn successor_enumerates_all_combinations_once() {
    let n = 3;
    let l = 10;
    let mut state = init_sd_state(0, n, l).unwrap();
    let mut seen: Vec<Vec<usize>> = vec![state.clone()];
    while let Some(next) = next_sd_state(&state, n, l) {
        assert!(next[0] < next[1] && next[1] < next[2] && next[2] < l);
        assert!(next > state);
        seen.push(next.clone());
        state = next;
    }
    assert_eq!(seen.len(), 120);
    assert_eq!(seen[0], vec![0, 1, 2]);
    assert_eq!(seen[119], vec![7, 8, 9]);
    let mut sorted = seen.clone();
    sorted.dedup();
    assert_eq!(sorted.len(), 120);
}

#[test]
fn successor_resets_following_orbitals() {
    assert_eq!(next_sd_state(&vec![0, 1, 9], 3, 10), Some(vec![0, 2, 3]));
    assert_eq!(next_sd_state(&vec![0, 8, 9], 3, 10), Some(vec![1, 2, 3]));
    assert_eq!(next_sd_state(&vec![7, 8, 9], 3, 10), None);
}

#[test]
fn successor_of_empty_state_is_none() {
    assert_eq!(next_sd_state(&vec![], 0, 4), None);
}

#[test]
fn excitation_moves_particle_and_counts_sign() {
    // orbitals 1 and 3 lie strictly between 0 and 4: even, sign +1
    assert_eq!(single_excitation(&vec![0, 1, 3], 3, 6, 0, 4), (1, vec![1, 3, 4]));
    // orbital 3 lies strictly between 1 and 4: odd, sign -1
    assert_eq!(single_excitation(&vec![0, 1, 3], 3, 6, 1, 4), (-1, vec![0, 3, 4]));
    // nothing between 3 and 2
    assert_eq!(single_excitation(&vec![0, 1, 3], 3, 6, 2, 2), (1, vec![0, 1, 2]));
    // moving down past orbital 1: sign -1
    assert_eq!(single_excitation(&vec![1, 5], 2, 6, 1, 0), (-1, vec![0, 1]));
}

#[test]
fn excitation_and_its_reverse_share_the_sign() {
    let (s1, d1) = single_excitation(&vec![0, 2, 3, 5], 4, 7, 0, 6);
    let pos = d1.iter().position(|&x| x == 6).unwrap();
    let (s2, d2) = single_excitation(&d1, 4, 7, pos, 0);
    assert_eq!(d2, vec![0, 2, 3, 5]);
    assert_eq!(s1, -1);
    assert_eq!(s1, s2);
}

#[test]
fn one_body_excitations_in_order() {
    let mut iter = manybody_basis::SdOneBodyIterator::new(vec![0, 1], 2, 4);
    assert_eq!(iter.next(), Some((-1, 0, 2, vec![1, 2])));
    assert_eq!(iter.next(), Some((-1, 0, 3, vec![1, 3])));
    assert_eq!(iter.next(), Some((1, 1, 2, vec![0, 2])));
    assert_eq!(iter.next(), Some((1, 1, 3, vec![0, 3])));
    assert_eq!(iter.next(), None);
    assert_eq!(iter.next(), None);
}

#[test]
fn one_body_excitation_count() {
    let mut iter = manybody_basis::SdOneBodyIterator::new(vec![1, 4, 6], 3, 8);
    let mut count = 0;
    while let Some((sign, q, p, state)) = iter.next() {
        assert!(sign == 1 || sign == -1);
        assert!(!state.contains(&q));
        assert!(state.contains(&p));
        count += 1;
    }
    assert_eq!(count, 3 * 5);
}

#[test]
fn occupied_orbitals() {
    assert!(manybody_basis::is_occupied(&vec![1, 4, 6], 4));
    assert!(!manybody_basis::is_occupied(&vec![1, 4, 6], 5));
}
