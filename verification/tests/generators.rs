use rust_countdown::generators::permutation_generator::{
    PermutationGenerator, UniquePermutationGenerator,
};
use rust_countdown::generators::subset_generator::{KVPairIterator, KeyCount};
use rust_countdown::generators::subset_permutation_generator::SubsetPermutationGenerator;
use std::collections::HashSet;

#[test]
fn test_unique_generator_of_seven() {
    let item_count: u64 = 8;
    let mut value = UniquePermutationGenerator::new((1..item_count).collect());
    let mut permutation_count: u64 = 0;
    let mut seen = HashSet::new();
    while let Some(item) = value.next() {
        assert!(seen.insert(item));
        permutation_count += 1;
    }
    assert_eq!(permutation_count, (1..item_count).product());
}

#[test]
fn unique_generator_yields_the_given_order_first() {
    let mut value = UniquePermutationGenerator::new(vec![7u8, 8, 9]);
    assert_eq!(value.next(), Some(vec![7, 8, 9]));
    assert_eq!(value.next(), Some(vec![8, 7, 9]));
    assert_eq!(value.next(), Some(vec![9, 7, 8]));
    assert_eq!(value.next(), Some(vec![7, 9, 8]));
    assert_eq!(value.next(), Some(vec![8, 9, 7]));
    assert_eq!(value.next(), Some(vec![9, 8, 7]));
    assert_eq!(value.next(), None);
    assert_eq!(value.next(), None);
}

#[test]
fn unique_generator_of_nothing_yields_one_empty_order() {
    let mut value = UniquePermutationGenerator::new(Vec::<u8>::new());
    assert_eq!(value.next(), Some(vec![]));
    assert_eq!(value.next(), None);
}

#[test]
fn permutation_generator_test() {
    let x = [(1u8, 2usize), (2, 1), (3, 1), (4, 1), (5, 3)];
    let perm_count = x.iter().map(|(_, a)| *a);
    let perms: usize = (1..=perm_count.clone().sum()).product();
    let perms_below: usize = perm_count.map(|a| (1..=a).product::<usize>()).product();
    let target = perms / perms_below;
    let mut seta = HashSet::new();
    let mut actual = 0;
    let mut generator = PermutationGenerator::from_iter(x.to_vec());
    while let Some(item) = generator.next() {
        println!("{:02?}", item);
        if !seta.insert(item) {
            panic!();
        }
        actual += 1;
    }
    assert_eq!(target, actual);
}

#[test]
fn permutation_generator_keeps_equal_values_in_one_order() {
    let mut generator = PermutationGenerator::from_iter(vec![(3u8, 2usize), (4, 1)]);
    let mut all = Vec::new();
    while let Some(item) = generator.next() {
        all.push(item);
    }
    assert_eq!(all, vec![vec![3, 3, 4], vec![4, 3, 3], vec![3, 4, 3]]);
}

#[test]
fn test_counter() {
    let c: &[(u8, usize)] = &[(8, 1), (5, 1), (7, 1), (1, 3), (3, 2), (0, 0)];
    let v: &[u8] = &[1u8, 1, 8, 5, 3, 7, 1, 3];
    let keycount = KeyCount::from_iter(v.iter().copied().collect());
    for (c, v) in c {
        if *v != keycount.get(c).unwrap_or(0) {
            panic!("Invalid count {c:?} => {v:?}")
        }
    }
    assert_eq!(keycount.into_iter(), vec![(1, 3), (3, 2), (5, 1), (7, 1), (8, 1)]);
}

#[test]
fn subsets_are_counted_through_like_an_odometer() {
    let mut iterator = KVPairIterator::from(KeyCount::from_iter(vec![4u8, 2, 4]));
    let mut all = Vec::new();
    while let Some(item) = iterator.next() {
        all.push(item);
    }
    assert_eq!(
        all,
        vec![
            vec![(2, 0), (4, 1)],
            vec![(2, 0), (4, 2)],
            vec![(2, 1), (4, 0)],
            vec![(2, 1), (4, 1)],
            vec![(2, 1), (4, 2)],
        ]
    );
}

#[test]
fn subset_permutation_generator_test() {
    let a: Vec<usize> = vec![1, 2, 3, 1, 2, 3];
    let mut generator = SubsetPermutationGenerator::new(a);
    while let Some(i) = generator.next() {
        println!("{i:?}");
    }
}

#[test]
fn subset_permutations_come_smallest_first_and_once_each() {
    let mut generator = SubsetPermutationGenerator::new(vec![3u8, 5, 3]);
    let mut all = Vec::new();
    while let Some(i) = generator.next() {
        all.push(i);
    }
    assert_eq!(
        all,
        vec![
            vec![3],
            vec![5],
            vec![3, 3],
            vec![3, 5],
            vec![5, 3],
            vec![3, 3, 5],
            vec![5, 3, 3],
            vec![3, 5, 3],
        ]
    );
    let distinct: HashSet<Vec<u8>> = all.iter().cloned().collect();
    assert_eq!(distinct.len(), all.len());
}
