use particle_sim::chunk::initialize_chunkmap;
use particle_sim::engine::commit;
use particle_sim::grid::{class_index, initialise_groups};
use particle_sim::kernel::{plan_task, run_task};

#[test]
fn commit_overwrites_the_listed_particles_only() {
    let mut store = vec![10, 11, 12, 13, 14];
    commit(&mut store, vec![(3, 93), (0, 90)]);
    assert_eq!(store, vec![90, 11, 12, 93, 14]);
}

#[test]
fn empty_batch_leaves_the_store_as_it_is() {
    let mut store = vec![10, 11, 12];
    commit(&mut store, Vec::new());
    assert_eq!(store, vec![10, 11, 12]);
}

#[test]
fn later_entry_for_the_same_particle_wins() {
    let mut store = vec![10, 11, 12];
    commit(&mut store, vec![(1, 21), (2, 22), (1, 31)]);
    assert_eq!(store, vec![10, 31, 22]);
}

#[test]
fn commits_to_different_particles_can_come_in_any_order() {
    let a = vec![(0usize, 'a'), (4, 'b')];
    let b = vec![(2usize, 'c'), (1, 'd')];
    let mut first = vec!['-'; 6];
    commit(&mut first, a.clone());
    commit(&mut first, b.clone());
    let mut second = vec!['-'; 6];
    commit(&mut second, b);
    commit(&mut second, a);
    assert_eq!(first, second);
    assert_eq!(first, vec!['a', 'd', 'c', '-', 'b', '-']);
}

#[test]
fn one_iteration_updates_every_particle_once() {
    let chunks: Vec<(u32, u32, u32)> =
        (0..300u32).map(|i| (i % 5, (i / 5) % 4, (i / 20) % 6)).collect();
    let groups = initialise_groups([4, 3, 5]);
    let index = initialize_chunkmap(&chunks);
    let mut store: Vec<u32> = vec![0; chunks.len()];
    for group in &groups {
        for &h in group {
            if let Some(task) = plan_task(&index, h) {
                let batch = run_task(&store, &task, |a: u32, _b: &u32| a, |a: u32| a + 1);
                commit(&mut store, batch);
            }
        }
    }
    assert!(store.iter().all(|&updates| updates == 1));
}

#[test]
fn tasks_of_one_class_touch_nothing_of_each_other() {
    let chunks: Vec<(u32, u32, u32)> =
        (0..400u32).map(|i| (i % 7, (i / 7) % 7, (i / 49) % 7)).collect();
    let groups = initialise_groups([6, 6, 6]);
    let index = initialize_chunkmap(&chunks);
    for group in &groups {
        let tasks: Vec<_> = group.iter().filter_map(|&h| plan_task(&index, h)).collect();
        for (m, a) in tasks.iter().enumerate() {
            for b in &tasks[m + 1..] {
                assert_eq!(class_index(a.chunk), class_index(b.chunk));
                for p in &a.home {
                    assert!(!b.home.contains(p));
                    assert!(!b.foreign.contains(p));
                }
                for p in &b.home {
                    assert!(!a.foreign.contains(p));
                }
            }
        }
    }
}

#[test]
fn later_class_sees_what_an_earlier_class_committed() {
    let chunks = vec![(0, 0, 0), (0, 0, 1)];
    let groups = initialise_groups([0, 0, 1]);
    let index = initialize_chunkmap(&chunks);
    let mut store: Vec<u64> = vec![1, 2];
    for group in &groups {
        for &h in group {
            if let Some(task) = plan_task(&index, h) {
                let batch = run_task(&store, &task, |a: u64, b: &u64| a * 10 + *b, |a: u64| a);
                commit(&mut store, batch);
            }
        }
    }
    assert_eq!(store, vec![12, 32]);
}
