use rcore_os::task::manager::StrideTaskManager;

#[test]
fn fetch_gives_the_task_of_greatest_rank() {
    let mut m = StrideTaskManager::new();
    assert_eq!(m.fetch(), None);
    m.add((5, 1));
    m.add((9, 2));
    m.add((7, 3));
    assert_eq!(m.len(), 3);
    assert_eq!(m.fetch(), Some((9, 2)));
    assert_eq!(m.fetch(), Some((7, 3)));
    m.add((6, 2));
    assert_eq!(m.fetch(), Some((6, 2)));
    assert_eq!(m.fetch(), Some((5, 1)));
    assert_eq!(m.fetch(), None);
    assert_eq!(m.len(), 0);
}

#[test]
fn equal_ranks_are_all_handed_out() {
    let mut m = StrideTaskManager::new();
    m.add((4, 1));
    m.add((4, 2));
    let a = m.fetch().unwrap();
    let b = m.fetch().unwrap();
    assert_eq!(a.0, 4);
    assert_eq!(b.0, 4);
    let mut ids = vec![a.1, b.1];
    ids.sort();
    assert_eq!(ids, vec![1, 2]);
    assert_eq!(m.fetch(), None);
}
