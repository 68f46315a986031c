use lib::data::SparseSet;

#[test]
fn test_sparse_set() {
    let mut sparse_set = SparseSet::<usize, usize>::create();
    assert_eq!(sparse_set.get_dense().len(), 0);
    for i in 0..10 {
        sparse_set.insert(i, i * 2);
    }
    assert_eq!(sparse_set.get_dense().len(), 10);
    for i in 0..10 {
        assert_eq!(*sparse_set.get(i).unwrap(), i * 2);
    }
    sparse_set.remove(5);
    assert_eq!(sparse_set.get_dense().len(), 9);
    assert_eq!(sparse_set.get(5), None);
    for i in 0..10 {
        if i != 5 {
            assert_eq!(*sparse_set.get(i).unwrap(), i * 2);
        } else {
            assert_eq!(sparse_set.get(i), None);
        }
    }
}

#[test]
fn sparse_set_insert_then_remove_gives_value_back() {
    let mut s = SparseSet::<usize, u32>::create_with_capacity(3);
    s.insert(7, 70);
    assert_eq!(s.remove(7), Some(70));
    assert_eq!(s.get(7), None);
    assert_eq!(s.remove(7), None);
}

#[test]
fn sparse_set_get_mut_changes_only_its_key() {
    let mut s = SparseSet::<usize, u32>::create();
    s.insert(1, 10);
    s.insert(2, 20);
    *s.get_mut(1).unwrap() = 11;
    assert_eq!(s.get(1), Some(&11));
    assert_eq!(s.get(2), Some(&20));
    assert!(s.get_mut(3).is_none());
}

#[test]
fn sparse_set_remove_moves_last_entry() {
    let mut s = SparseSet::<usize, u32>::create();
    s.insert(0, 1);
    s.insert(1, 2);
    s.insert(2, 3);
    s.remove(0);
    assert_eq!(s.get_dense(), &vec![(2usize, 3u32), (1, 2)]);
}

#[test]
fn sparse_removed_last_key_stays_absent() {
    let mut s: SparseSet<usize, char> = SparseSet::create();
    s.insert(0, 'a');
    s.insert(1, 'b');
    assert_eq!(s.remove(1), Some('b'));
    s.insert(2, 'c');
    assert_eq!(s.get(1), None);
    assert_eq!(s.get(2), Some(&'c'));
    assert_eq!(s.get(0), Some(&'a'));
    assert_eq!(s.remove(1), None);
}
