use manybody_basis::{BasisError, DenseOneBodyIterator, DenseState, DenseTwoBodyIterator};

#[test]
fn test_new_init_state_dense() {
    let shape = vec![3, 4, 5];
    let init_state = DenseState::new_init_state(&shape);

    for x in init_state.indices().clone() {
        assert!(x == 0);
    }

    assert!(init_state.compound() == 0);
}

#[test]
fn test_new_from_indices_and_compound_dense() {
    let shape = vec![3, 4, 5];
    let mut counter = 0;

    for p in 0..shape[0] {
        for q in 0..shape[1] {
            for r in 0..shape[2] {
                let state = DenseState::new_from_indices(vec![p, q, r], &shape).unwrap();
                let state_2 = DenseState::new_from_compound(counter, &shape).unwrap();

                assert!(state.compound() == counter);
                assert!(state.compound() == state_2.compound());

                for (x, y) in state
                    .indices()
                    .clone()
                    .into_iter()
                    .zip(state_2.indices().clone().into_iter())
                {
                    assert!(x == y);
                }

                counter += 1;
            }
        }
    }
}

#[test]
fn test_dense_iterator_one_manual() {
    let shape = vec![3, 4, 1];
    let state = DenseState::new_init_state(&shape);
    let mut iter = DenseOneBodyIterator::new(&state);

    assert!(state.indices() == iter.start_state().indices());

    let (_, new_state) = iter.next().unwrap();
    assert!(&vec![0, 1, 0] == new_state.indices());

    let (_, new_state) = iter.next().unwrap();
    assert!(&vec![0, 2, 0] == new_state.indices());

    let (_, new_state) = iter.next().unwrap();
    assert!(&vec![0, 3, 0] == new_state.indices());

    let (_, new_state) = iter.next().unwrap();
    assert!(&vec![1, 0, 0] == new_state.indices());

    let (_, new_state) = iter.next().unwrap();
    assert!(&vec![2, 0, 0] == new_state.indices());

    assert!(iter.next().is_none());
}

#[test]
fn test_dense_iterator_one_manual_between() {
    let shape = vec![3, 4, 1];
    let state = DenseState::new_from_indices(vec![1, 3, 0], &shape).unwrap();
    let mut iter = DenseOneBodyIterator::new(&state);

    assert!(state.indices() == iter.start_state().indices());

    let (_, new_state) = iter.next().unwrap();
    assert!(&vec![1, 0, 0] == new_state.indices());

    let (_, new_state) = iter.next().unwrap();
    assert!(&vec![1, 1, 0] == new_state.indices());

    let (_, new_state) = iter.next().unwrap();
    assert!(&vec![1, 2, 0] == new_state.indices());

    let (_, new_state) = iter.next().unwrap();
    assert!(&vec![2, 3, 0] == new_state.indices());

    let (_, new_state) = iter.next().unwrap();
    assert!(&vec![0, 3, 0] == new_state.indices());

    assert_eq!(iter.next().is_none(), true);
}

#[test]
fn test_dense_one_body_iterator() {
    let shape = vec![1, 3, 4, 1];
    let state = DenseState::new_init_state(&shape);
    let mut iter = DenseOneBodyIterator::new(&state);

    while let Some((sign, next_state)) = iter.next() {
        assert!(sign == 1);

        let mut sum = 0;
        for (x, y) in state
            .indices()
            .clone()
            .into_iter()
            .zip(next_state.indices().clone().into_iter())
        {
            if x != y {
                sum += 1;
            }
        }

        assert!(sum == 1);
    }
}

#[test]
fn test_dense_two_body_iterator_manual() {
    let shape = vec![1, 3, 4, 1];
    let state = DenseState::new_init_state(&shape);
    let mut iter = DenseTwoBodyIterator::new(&state);

    assert!(state.indices() == iter.start_state().indices());
    assert!(iter.pos_r() == 3);
    assert!(iter.pos_l() == 2);

    let (_, new_state) = iter.next().unwrap();
    assert!(&vec![0, 1, 1, 0] == new_state.indices());

    let (_, new_state) = iter.next().unwrap();
    assert!(&vec![0, 2, 1, 0] == new_state.indices());

    let (_, new_state) = iter.next().unwrap();
    assert!(&vec![0, 1, 2, 0] == new_state.indices());

    let (_, new_state) = iter.next().unwrap();
    assert!(&vec![0, 2, 2, 0] == new_state.indices());

    let (_, new_state) = iter.next().unwrap();
    assert!(&vec![0, 1, 3, 0] == new_state.indices());

    let (_, new_state) = iter.next().unwrap();
    assert!(&vec![0, 2, 3, 0] == new_state.indices());

    assert!(iter.next().is_none());
}

fn hamming(a: &Vec<usize>, b: &Vec<usize>) -> usize {
    a.iter().zip(b.iter()).filter(|(x, y)| x != y).count()
}

#[test]
fn one_body_count_and_distance() {
    let shape = vec![3, 4, 1];
    let state = DenseState::new_init_state(&shape);
    let mut iter = DenseOneBodyIterator::new(&state);
    let mut seen: Vec<Vec<usize>> = Vec::new();
    while let Some((sign, s)) = iter.next() {
        assert_eq!(sign, 1);
        assert_eq!(hamming(state.indices(), s.indices()), 1);
        assert!(!seen.contains(s.indices()));
        seen.push(s.indices().clone());
    }
    assert_eq!(seen.len(), 2 + 3);
    assert!(iter.next().is_none());
}

#[test]
fn one_body_with_position_matches_new() {
    let shape = vec![3, 4, 2];
    let state = DenseState::new_init_state(&shape);
    let mut with_pos = DenseOneBodyIterator::new_with_pos(&state, 1);
    let mut plain = DenseOneBodyIterator::new(&state);
    assert!(with_pos.start_state().indices() == state.indices());
    let (_, s) = with_pos.next().unwrap();
    assert_eq!(s.indices(), &vec![0, 0, 1]);
    let (_, t) = plain.next().unwrap();
    assert_eq!(s.indices(), t.indices());
    let mut count = 1;
    loop {
        match (with_pos.next(), plain.next()) {
            (Some((a, s)), Some((b, t))) => {
                assert_eq!(a, b);
                assert_eq!(s.indices(), t.indices());
                count += 1;
            }
            (None, None) => break,
            _ => panic!("the two enumerations differ in length"),
        }
    }
    assert_eq!(count, 2 + 3 + 1);
}

#[test]
fn two_body_count_distance_and_uniqueness() {
    let shape = vec![1, 3, 4, 1];
    let state = DenseState::new_init_state(&shape);
    let mut iter = DenseTwoBodyIterator::new(&state);
    let mut seen: Vec<Vec<usize>> = Vec::new();
    while let Some((sign, s)) = iter.next() {
        assert_eq!(sign, 1);
        assert_eq!(hamming(state.indices(), s.indices()), 2);
        assert!(!seen.contains(s.indices()));
        seen.push(s.indices().clone());
    }
    assert_eq!(seen.len(), 2 * 3);
}

#[test]
fn two_body_three_positions() {
    let shape = vec![2, 3, 2];
    let state = DenseState::new_from_indices(vec![1, 2, 0], &shape).unwrap();
    let mut iter = DenseTwoBodyIterator::new(&state);
    let mut seen: Vec<Vec<usize>> = Vec::new();
    while let Some((_, s)) = iter.next() {
        assert_eq!(hamming(state.indices(), s.indices()), 2);
        assert!(!seen.contains(s.indices()));
        assert_eq!(DenseState::new_from_compound(s.compound(), &shape).unwrap().indices(), s.indices());
        seen.push(s.indices().clone());
    }
    // pairs (0,1), (0,2), (1,2): 1*2 + 1*1 + 2*1
    assert_eq!(seen.len(), 5);
    assert_eq!(seen[0], vec![1, 0, 1]);
}

#[test]
fn iterators_on_short_shapes_are_empty() {
    let shape = vec![5];
    let state = DenseState::new_init_state(&shape);
    assert!(DenseTwoBodyIterator::new(&state).next().is_none());
    let empty: Vec<usize> = vec![];
    let state = DenseState::new_init_state(&empty);
    assert!(DenseOneBodyIterator::new(&state).next().is_none());
    assert!(DenseTwoBodyIterator::new(&state).next().is_none());
}

#[test]
fn compound_formula() {
    let shape = vec![3, 4, 5];
    let state = DenseState::new_from_indices(vec![2, 1, 3], &shape).unwrap();
    assert_eq!(state.compound(), 2 * 20 + 1 * 5 + 3);
    let back = DenseState::new_from_compound(48, &shape).unwrap();
    assert_eq!(back.indices(), &vec![2, 1, 3]);
    assert_eq!(back.shape(), &shape);
}

#[test]
fn out_of_range_inputs_are_rejected() {
    let shape = vec![3, 4, 5];
    assert_eq!(
        DenseState::new_from_indices(vec![0, 4, 0], &shape).unwrap_err(),
        BasisError::IndexOutOfRange
    );
    assert_eq!(
        DenseState::new_from_indices(vec![0, 0], &shape).unwrap_err(),
        BasisError::IndexOutOfRange
    );
    assert_eq!(
        DenseState::new_from_compound(60, &shape).unwrap_err(),
        BasisError::IndexOutOfRange
    );
    assert!(DenseState::new_from_compound(59, &shape).is_ok());
}

#[test]
fn round_trip_every_tuple() {
    let shape = vec![2, 1, 3, 4];
    for c in 0..24 {
        let s = DenseState::new_from_compound(c, &shape).unwrap();
        let t = DenseState::new_from_indices(s.indices().clone(), &shape).unwrap();
        assert_eq!(t.compound(), c);
        let u = DenseState::new_from_compound(t.compound(), &shape).unwrap();
        assert_eq!(u.indices(), s.indices());
    }
}
