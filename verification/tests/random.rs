use stable_marriage::random::{arrange, draw_places, random_permutation, RandomSource};

#[test]
fn draws_stay_below_bound() {
    let mut rng = RandomSource::from_seed(1);
    for bound in 1..200usize {
        for _ in 0..20 {
            assert!(rng.below(bound) < bound);
        }
    }
    assert_eq!(rng.below(1), 0);
}

#[test]
fn every_number_below_bound_is_drawn() {
    let mut rng = RandomSource::from_seed(2);
    let mut seen = vec![false; 5];
    for _ in 0..1000 {
        seen[rng.below(5)] = true;
    }
    assert_eq!(seen, vec![true; 5]);
}

#[test]
fn same_seed_gives_same_draws() {
    let mut a = RandomSource::from_seed(99);
    let mut b = RandomSource::from_seed(99);
    for _ in 0..100 {
        assert_eq!(a.below(1000), b.below(1000));
    }
}

#[test]
fn shuffle_keeps_every_item_once() {
    let mut rng = RandomSource::from_seed(3);
    for n in 0..30usize {
        let list: Vec<usize> = (0..n).collect();
        let mut shuffled = random_permutation(list.clone(), &mut rng);
        assert_eq!(shuffled.len(), n);
        shuffled.sort();
        assert_eq!(shuffled, list);
    }
}

#[test]
fn shuffle_keeps_repeated_items_as_often() {
    let mut rng = RandomSource::from_seed(4);
    let mut shuffled = random_permutation(vec![7, 7, 1, 7, 1], &mut rng);
    shuffled.sort();
    assert_eq!(shuffled, vec![1, 1, 7, 7, 7]);
}

#[test]
fn shuffle_reaches_every_order() {
    let mut rng = RandomSource::from_seed(5);
    let mut seen: Vec<Vec<u8>> = Vec::new();
    for _ in 0..500 {
        let order = random_permutation(vec![0u8, 1, 2], &mut rng);
        if !seen.contains(&order) {
            seen.push(order);
        }
    }
    assert_eq!(seen.len(), 6);
}

#[test]
fn arrange_takes_out_at_the_drawn_places() {
    assert_eq!(arrange(vec![7, 8, 9], &vec![1, 1, 0]), vec![8, 9, 7]);
    assert_eq!(arrange(vec![7, 8, 9], &vec![2, 0, 0]), vec![9, 7, 8]);
    assert_eq!(arrange(vec![7, 8, 9], &vec![2, 1, 0]), vec![9, 8, 7]);
    assert_eq!(arrange(vec!['a', 'b', 'c', 'd'], &vec![1, 2, 0, 0]), vec!['b', 'd', 'a', 'c']);
}

#[test]
fn draws_of_zero_leave_the_order() {
    // Those left close ranks: taking the first again and again keeps the order.
    assert_eq!(arrange(vec![7, 8, 9], &vec![0, 0, 0]), vec![7, 8, 9]);
    assert_eq!(arrange(vec![7, 8, 9], &vec![0, 1, 0]), vec![7, 9, 8]);
}

#[test]
fn arrange_of_nothing_and_of_one() {
    assert_eq!(arrange(Vec::<u8>::new(), &vec![]), Vec::<u8>::new());
    assert_eq!(arrange(vec![5], &vec![0]), vec![5]);
}

#[test]
fn different_draws_give_different_orders() {
    let mut orders: Vec<Vec<u8>> = Vec::new();
    for first in 0..3 {
        for second in 0..2 {
            orders.push(arrange(vec![1, 2, 3], &vec![first, second, 0]));
        }
    }
    assert_eq!(
        orders,
        vec![
            vec![1, 2, 3],
            vec![1, 3, 2],
            vec![2, 1, 3],
            vec![2, 3, 1],
            vec![3, 1, 2],
            vec![3, 2, 1],
        ]
    );
}

#[test]
fn each_draw_is_a_place_among_those_left() {
    let mut rng = RandomSource::from_seed(6);
    for n in 0..40usize {
        let draws = draw_places(n, &mut rng);
        assert_eq!(draws.len(), n);
        for (k, place) in draws.iter().enumerate() {
            assert!(*place < n - k);
        }
    }
}

#[test]
fn shuffle_is_the_arrangement_of_its_draws() {
    for seed in 0..20 {
        for n in 0..10u32 {
            let list: Vec<u32> = (0..n).collect();
            let mut one = RandomSource::from_seed(seed);
            let mut other = RandomSource::from_seed(seed);
            let shuffled = random_permutation(list.clone(), &mut one);
            let draws = draw_places(list.len(), &mut other);
            assert_eq!(shuffled, arrange(list, &draws));
            // Both have drawn as often: the sources go on alike.
            assert_eq!(one.below(1000), other.below(1000));
        }
    }
}
