use roids::lifecycle::{adopt, sweep};

#[test]
fn sweep_without_dead_changes_nothing() {
    let mut entities = vec!['a', 'b', 'c'];
    let mut dead: Vec<usize> = Vec::new();
    sweep(&mut entities, &mut dead);
    assert_eq!(entities, vec!['a', 'b', 'c']);
    assert!(dead.is_empty());
}

#[test]
fn sweep_swaps_the_last_entry_into_each_gap() {
    let mut entities = vec!['a', 'b', 'c', 'd', 'e'];
    let mut dead: Vec<usize> = vec![1, 3];
    sweep(&mut entities, &mut dead);
    // first the entry at 3 gives way to 'e', then the entry at 1 to 'c'
    assert_eq!(entities, vec!['a', 'e', 'c']);
    assert!(dead.is_empty());
}

#[test]
fn sweep_of_the_last_entry_moves_nothing() {
    let mut entities = vec![10, 20, 30];
    let mut dead: Vec<usize> = vec![2];
    sweep(&mut entities, &mut dead);
    assert_eq!(entities, vec![10, 20]);
}

#[test]
fn sweep_of_the_first_entry() {
    let mut entities = vec![10, 20, 30];
    let mut dead: Vec<usize> = vec![0];
    sweep(&mut entities, &mut dead);
    assert_eq!(entities, vec![30, 20]);
}

#[test]
fn sweep_of_every_entry_leaves_none() {
    let mut entities = vec![1, 2, 3, 4];
    let mut dead: Vec<usize> = vec![0, 1, 2, 3];
    sweep(&mut entities, &mut dead);
    assert!(entities.is_empty());
    assert!(dead.is_empty());
}

#[test]
fn sweep_keeps_each_survivor_once() {
    let mut entities: Vec<u32> = (0..10).collect();
    let mut dead: Vec<usize> = vec![0, 2, 3, 7, 9];
    sweep(&mut entities, &mut dead);
    assert_eq!(entities.len(), 5);
    let mut sorted = entities.clone();
    sorted.sort();
    assert_eq!(sorted, vec![1, 4, 5, 6, 8]);
    // 9 leaves from the end; 8 fills 7; 8 fills 3; 6 fills 2; 5 fills 0
    assert_eq!(entities, vec![5, 1, 6, 8, 4]);
}

#[test]
fn adopt_takes_the_last_born_first() {
    let mut entities = vec!['a'];
    let mut born = vec!['x', 'y', 'z'];
    adopt(&mut entities, &mut born);
    assert_eq!(entities, vec!['a', 'z', 'y', 'x']);
    assert!(born.is_empty());
}

#[test]
fn adopt_of_none_changes_nothing() {
    let mut entities = vec![1, 2];
    let mut born: Vec<i32> = Vec::new();
    adopt(&mut entities, &mut born);
    assert_eq!(entities, vec![1, 2]);
}
