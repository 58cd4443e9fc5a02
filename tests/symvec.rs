use life_engine::symvec::SymVec;

#[test]
fn test_push_front_back() {
    let mut v: SymVec<i32> = SymVec::new();

    v.push_front(1);
    v.push_front(2);
    v.push_back(-1);

    assert!(v.len() == 3);
    assert!(*v.get(-1) == -1);

    v.set(-1, 20);
    assert!(*v.get(-1) == 20);
}

#[test]
fn test_extend() {
    let mut v: SymVec<i32> = SymVec::new();

    assert!(v.need_extend_pos(0) == true);

    v.push_front(1);

    assert!(v.need_extend_pos(0) == false);
    assert!(v.need_extend_pos(1) == true);
    assert!(v.need_extend_pos(5) == true);

    assert!(v.need_extend_neg(-1) == true);

    v.push_back(-2);

    assert!(v.need_extend_neg(-1) == false);
    assert!(v.need_extend_neg(-2) == true);
}

#[test]
fn test_iterator() {
    let mut v: SymVec<i32> = SymVec::new();
    v.push_back(-1);
    v.push_back(-2);
    v.push_front(1);
    v.push_front(2);
    v.push_front(3);

    let v2: Vec<i32> = v.to_vec();
    assert!(v2[0] == -2);
    assert!(v2[1] == -1);
    assert!(v2[2] == 1);
    assert!(v2[3] == 2);
    assert!(v2[4] == 3);
}

#[test]
fn test_expand() {
    let v: SymVec<i32> = SymVec::new();
    assert_eq!(v.len(), 0);
}

#[test]
fn symvec_availability_and_replace() {
    let mut v: SymVec<i32> = SymVec::new();
    assert!(!v.is_available(0));
    assert!(!v.is_available(-1));
    v.push_front(7);
    v.push_back(8);
    assert!(v.is_available(0));
    assert!(v.is_available(-1));
    assert!(!v.is_available(1));
    assert!(!v.is_available(-2));
    assert_eq!(v.len_pos(), 1);
    assert_eq!(v.len_neg(), 1);
    assert_eq!(v.replace(0, 9), 7);
    assert_eq!(*v.get(0), 9);
}
