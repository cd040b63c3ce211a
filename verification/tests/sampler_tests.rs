use raytracer::sampler::{append_set, draw_from_set, identity_indices, sample_index, setup_shuffled_indices};

#[test]
fn each_set_is_a_permutation() {
    let n = 9u32;
    let sets = 5u32;
    let table = setup_shuffled_indices(n, sets);
    assert_eq!(table.len(), 45);
    for b in 0..sets as usize {
        let mut block: Vec<u32> = table[b * 9..b * 9 + 9].to_vec();
        block.sort();
        assert_eq!(block, (0..9).collect::<Vec<u32>>());
    }
}

#[test]
fn empty_tables() {
    assert!(setup_shuffled_indices(0, 3).is_empty());
    assert!(setup_shuffled_indices(4, 0).is_empty());
}

#[test]
fn draws_stay_in_range_and_advance() {
    let n = 4u32;
    let sets = 3u32;
    let table = setup_shuffled_indices(n, sets);
    let mut count = 0u32;
    let mut jump = 0u32;
    let mut first_jump = 0u32;
    for draw in 0..40u32 {
        let index = sample_index(n, sets, &table, &mut count, &mut jump);
        assert_eq!(count, draw + 1);
        assert_eq!(jump % n, 0);
        assert!(jump < n * sets);
        if draw % n == 0 {
            first_jump = jump;
        }
        // Within a set the jump stays put.
        assert_eq!(jump, first_jump);
        assert_eq!(index, (jump + table[(jump + draw % n) as usize]) as usize);
        assert!(index < (n * sets) as usize);
    }
}

#[test]
fn a_set_is_walked_through_its_permutation() {
    let table = vec![2, 0, 1, 1, 2, 0];
    let mut count = 1u32;
    let mut jump = 3u32;
    assert_eq!(sample_index(3, 2, &table, &mut count, &mut jump), 3 + 2);
    assert_eq!(sample_index(3, 2, &table, &mut count, &mut jump), 3 + 0);
    assert_eq!(count, 3);
}

#[test]
fn sets_are_shuffled() {
    let table = setup_shuffled_indices(10, 20);
    let identity: Vec<u32> = (0..10).collect();
    assert!((0..20).any(|b| table[b * 10..b * 10 + 10] != identity[..]));
}

#[test]
fn identity_and_append() {
    assert_eq!(identity_indices(4), vec![0, 1, 2, 3]);
    assert!(identity_indices(0).is_empty());
    let mut table = vec![1, 0];
    append_set(&mut table, &vec![2, 0, 1]);
    assert_eq!(table, vec![1, 0, 2, 0, 1]);
}

#[test]
fn draw_from_a_chosen_set() {
    let table = vec![2, 0, 1, 1, 2, 0, 0, 2, 1];
    let mut count = 3u32;
    let mut jump = 0u32;
    // A new set begins: jump to set 2 and take its first entry.
    assert_eq!(draw_from_set(2, 3, 3, &table, &mut count, &mut jump), 6 + 0);
    assert_eq!((count, jump), (4, 6));
    // Within the set the chosen set is not consulted.
    assert_eq!(draw_from_set(0, 3, 3, &table, &mut count, &mut jump), 6 + 2);
    assert_eq!(draw_from_set(1, 3, 3, &table, &mut count, &mut jump), 6 + 1);
    assert_eq!((count, jump), (6, 6));
    assert_eq!(draw_from_set(1, 3, 3, &table, &mut count, &mut jump), 3 + 1);
    assert_eq!(jump, 3);
}
