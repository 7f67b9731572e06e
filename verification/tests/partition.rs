use particle_sim::grid::{class_index, initialise_groups, CLASS_COUNT};

fn footprints_meet(a: (u32, u32, u32), b: (u32, u32, u32)) -> bool {
    let near = |x: u32, y: u32| (x as i64 - y as i64).abs() <= 2;
    near(a.0, b.0) && near(a.1, b.1) && near(a.2, b.2)
}

#[test]
fn partition_has_27_classes() {
    let groups = initialise_groups([4, 2, 7]);
    assert_eq!(groups.len(), 27);
    assert_eq!(CLASS_COUNT, 27);
}

#[test]
fn single_chunk_grid_fills_class_zero_only() {
    let groups = initialise_groups([0, 0, 0]);
    assert_eq!(groups[0], vec![(0, 0, 0)]);
    for class in 1..27 {
        assert!(groups[class].is_empty());
    }
}

#[test]
fn class_index_follows_the_residues() {
    assert_eq!(class_index((0, 0, 0)), 0);
    assert_eq!(class_index((0, 0, 1)), 1);
    assert_eq!(class_index((0, 1, 0)), 3);
    assert_eq!(class_index((1, 0, 0)), 9);
    assert_eq!(class_index((1, 2, 0)), 15);
    assert_eq!(class_index((4, 5, 6)), 15);
    assert_eq!(class_index((2, 2, 2)), 26);
    assert_eq!(class_index((u32::MAX, u32::MAX, u32::MAX)), 0);
}

#[test]
fn grid_of_two_by_two_by_two() {
    let groups = initialise_groups([1, 1, 1]);
    assert_eq!(groups[0], vec![(0, 0, 0)]);
    assert_eq!(groups[1], vec![(0, 0, 1)]);
    assert_eq!(groups[3], vec![(0, 1, 0)]);
    assert_eq!(groups[4], vec![(0, 1, 1)]);
    assert_eq!(groups[9], vec![(1, 0, 0)]);
    assert_eq!(groups[10], vec![(1, 0, 1)]);
    assert_eq!(groups[12], vec![(1, 1, 0)]);
    assert_eq!(groups[13], vec![(1, 1, 1)]);
    let filled: usize = groups.iter().map(|g| g.len()).sum();
    assert_eq!(filled, 8);
}

#[test]
fn class_lists_are_in_ascending_order() {
    let groups = initialise_groups([3, 3, 3]);
    assert_eq!(
        groups[0],
        vec![(0, 0, 0), (0, 0, 3), (0, 3, 0), (0, 3, 3), (3, 0, 0), (3, 0, 3), (3, 3, 0), (3, 3, 3)]
    );
    assert_eq!(groups[13], vec![(1, 1, 1)]);
    assert_eq!(groups[26], vec![(2, 2, 2)]);
    for group in &groups {
        for pair in group.windows(2) {
            assert!(pair[0] < pair[1]);
        }
    }
}

#[test]
fn every_chunk_stands_in_the_list_of_its_class() {
    let last = [5u32, 3, 6];
    let groups = initialise_groups(last);
    let mut seen = 0usize;
    for (class, group) in groups.iter().enumerate() {
        for &c in group {
            assert_eq!(class_index(c), class);
            assert!(c.0 <= last[0] && c.1 <= last[1] && c.2 <= last[2]);
            seen += 1;
        }
    }
    assert_eq!(seen, 6 * 4 * 7);
    for i in 0..=last[0] {
        for j in 0..=last[1] {
            for k in 0..=last[2] {
                let holders = groups.iter().filter(|g| g.contains(&(i, j, k))).count();
                assert_eq!(holders, 1);
                assert!(groups[class_index((i, j, k))].contains(&(i, j, k)));
            }
        }
    }
}

#[test]
fn chunks_of_one_class_have_disjoint_footprints() {
    let groups = initialise_groups([6, 5, 7]);
    for group in &groups {
        for (m, &a) in group.iter().enumerate() {
            for &b in &group[m + 1..] {
                assert!(!footprints_meet(a, b));
            }
        }
    }
}

#[test]
fn chunks_of_different_classes_can_be_neighbours() {
    assert!(footprints_meet((0, 0, 0), (0, 0, 1)));
    assert_ne!(class_index((0, 0, 0)), class_index((0, 0, 1)));
}

#[test]
fn rebuilding_the_partition_gives_the_same_lists() {
    let first = initialise_groups([7, 4, 9]);
    let second = initialise_groups([7, 4, 9]);
    assert_eq!(first, second);
}

#[test]
fn flat_grid_uses_nine_classes() {
    let groups = initialise_groups([0, 8, 8]);
    let used = groups.iter().filter(|g| !g.is_empty()).count();
    assert_eq!(used, 9);
    for class in 9..27 {
        assert!(groups[class].is_empty());
    }
    assert_eq!(groups[0].len(), 9);
}
