use lib::data::{DVec, TVal};

#[test]
fn test_tval() {
    let size = std::mem::size_of::<u128>();
    let val = 89238929u128;
    let tval = TVal::create(size, &val.to_ne_bytes());
    assert_eq!(val, u128::from_ne_bytes(tval.get().try_into().unwrap()));
}

#[test]
fn tval_keeps_only_its_size() {
    let tval = TVal::create(2, &[1u8, 2, 3, 4]);
    assert_eq!(tval.get(), &[1u8, 2][..]);
    assert_eq!(tval.get_size(), 2);
    tval.take();
}

#[test]
fn dvec_elements_swap_remove() {
    let size = std::mem::size_of::<u128>();
    let mut dvec = DVec::create(size);
    for i in 0..4u128 {
        dvec.resize(1, &i.to_ne_bytes());
    }
    assert_eq!(dvec.len(), 4);
    for i in 0..4u128 {
        assert_eq!(u128::from_ne_bytes(dvec.get(i as usize).unwrap().try_into().unwrap()), i);
    }
    assert_eq!(dvec.swap_remove(1), Some(()));
    let expected: [u128; 3] = [0, 3, 2];
    for (i, e) in expected.iter().enumerate() {
        assert_eq!(u128::from_ne_bytes(dvec.get(i).unwrap().try_into().unwrap()), *e);
    }
    assert_eq!(dvec.len(), 3);
    assert_eq!(dvec.swap_remove(3), None);
    assert!(dvec.get(3).is_none());
}

#[test]
fn dvec_resize_copies() {
    let mut dvec = DVec::create_with_reserve(2, 3);
    dvec.resize(3, &[1u8, 2u8, 99u8]);
    assert_eq!(dvec.ptr(), &[1u8, 2, 1, 2, 1, 2][..]);
    dvec.clear();
    assert_eq!(dvec.ptr().len(), 0);
}

#[test]
fn test_dvec() {
    let size = std::mem::size_of::<u128>();
    let mut dvec = DVec::create(size);
    let one = 1u128;
    dvec.resize(4, &one.to_ne_bytes());
    assert_eq!(dvec.len(), 4);
    assert_eq!(dvec.get_size(), size);
    for i in 0..4usize {
        assert_eq!(u128::from_ne_bytes(dvec.get(i).unwrap().try_into().unwrap()), 1);
    }
    // The elements 0, 1, 2, 3, laid out one after another.
    let mut dvec = DVec::create(size);
    for i in 0..4u128 {
        dvec.resize(1, &i.to_ne_bytes());
    }
    for i in 0..4u128 {
        assert_eq!(u128::from_ne_bytes(dvec.get(i as usize).unwrap().try_into().unwrap()), i);
    }
    dvec.swap_remove(1);
    let expected: [u128; 3] = [0, 3, 2];
    for (i, e) in expected.iter().enumerate() {
        assert_eq!(u128::from_ne_bytes(dvec.get(i).unwrap().try_into().unwrap()), *e);
    }
    assert_eq!(dvec.len(), 3);
}

#[test]
fn dvec_zero_size_holds_nothing() {
    let mut dvec = DVec::create(0);
    dvec.resize(3, &[]);
    assert_eq!(dvec.len(), 0);
    assert_eq!(dvec.swap_remove(0), None);
    assert!(dvec.get(0).is_none());
}
