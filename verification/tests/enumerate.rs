use truck_puzzle::elem::Dir;
use truck_puzzle::enumerate::{gen_dirs, gen_dirs_inner, gen_onoff};

#[test]
fn onoff_of_no_zone_is_one_empty_vector() {
    assert_eq!(gen_onoff(0), vec![Vec::<bool>::new()]);
}

#[test]
fn onoff_of_two_zones_in_order() {
    assert_eq!(
        gen_onoff(2),
        vec![vec![false, false], vec![false, true], vec![true, false], vec![true, true]]
    );
}

#[test]
fn onoff_yields_two_to_the_n_distinct_vectors() {
    for n in 0..8usize {
        let v = gen_onoff(n);
        assert_eq!(v.len(), 1usize << n);
        for (i, a) in v.iter().enumerate() {
            assert_eq!(a.len(), n);
            for b in v.iter().skip(i + 1) {
                assert_ne!(a, b);
            }
        }
    }
}

#[test]
fn dirs_of_one_car_in_order() {
    assert_eq!(
        gen_dirs(1),
        vec![
            vec![Some(Dir::Left)],
            vec![Some(Dir::Up)],
            vec![Some(Dir::Right)],
            vec![Some(Dir::Down)],
        ]
    );
}

#[test]
fn dirs_inner_ends_with_all_idle() {
    let v = gen_dirs_inner(2);
    assert_eq!(v.len(), 25);
    assert_eq!(v[0], vec![Some(Dir::Left), Some(Dir::Left)]);
    assert_eq!(v[1], vec![Some(Dir::Left), Some(Dir::Up)]);
    assert_eq!(v[5], vec![Some(Dir::Up), Some(Dir::Left)]);
    assert_eq!(v[24], vec![None, None]);
}

#[test]
fn dirs_yields_five_to_the_n_minus_one_distinct_vectors() {
    let mut expected = 1usize;
    for n in 0..5usize {
        let v = gen_dirs(n);
        assert_eq!(v.len(), expected - 1);
        for (i, a) in v.iter().enumerate() {
            assert_eq!(a.len(), n);
            assert!(a.iter().any(|d| d.is_some()));
            for b in v.iter().skip(i + 1) {
                assert_ne!(a, b);
            }
        }
        expected *= 5;
    }
}

#[test]
fn dirs_of_no_car_is_empty() {
    assert!(gen_dirs(0).is_empty());
}
