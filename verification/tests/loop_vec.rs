use regex_visualiser::loop_vec::LoopVec;

#[test]
fn new_loop_vec_is_empty() {
    let mut v: LoopVec<u32> = LoopVec::new();
    assert_eq!(v.len(), 0);
    assert!(v.is_empty());
    assert_eq!(v.index(), 0);
    assert_eq!(v.get_current(), None);
    assert_eq!(v.get_current_mut(), None);
    v.inc();
    assert_eq!(v.index(), 0);
    assert!(!v.try_set_index(0));
    let d: LoopVec<u32> = LoopVec::default();
    assert_eq!(d.len(), 0);
}

#[test]
fn inc_loops_around_at_the_end() {
    let mut v = LoopVec::from_vec(vec![10, 20, 30]);
    assert_eq!(v.get_current(), Some(&10));
    v.inc();
    assert_eq!((v.index(), v.get_current()), (1, Some(&20)));
    v.inc();
    assert_eq!((v.index(), v.get_current()), (2, Some(&30)));
    v.inc();
    assert_eq!((v.index(), v.get_current()), (0, Some(&10)));
}

#[test]
fn dec_loops_around_at_the_start() {
    let mut v = LoopVec::from_vec(vec![10, 20, 30]);
    v.dec();
    assert_eq!((v.index(), v.get_current()), (2, Some(&30)));
    v.dec();
    assert_eq!((v.index(), v.get_current()), (1, Some(&20)));
    v.dec();
    v.dec();
    assert_eq!(v.index(), 2);
}

#[test]
fn single_element_stays_current() {
    let mut v = LoopVec::from_vec(vec!['x']);
    v.inc();
    assert_eq!(v.index(), 0);
    v.dec();
    assert_eq!(v.index(), 0);
}

#[test]
fn current_element_can_be_changed() {
    let mut v = LoopVec::from_vec(vec![1, 2, 3]);
    v.inc();
    *v.get_current_mut().unwrap() = 7;
    assert_eq!(v.get(0), Some(&1));
    assert_eq!(v.get(1), Some(&7));
    assert_eq!(v.get(2), Some(&3));
    assert_eq!(v.get(3), None);
    assert_eq!(v.index(), 1);
}

#[test]
fn try_set_index_checks_bounds() {
    let mut v = LoopVec::from_vec(vec![1, 2, 3]);
    assert!(v.try_set_index(2));
    assert_eq!(v.index(), 2);
    assert!(!v.try_set_index(3));
    assert_eq!(v.index(), 2);
}
