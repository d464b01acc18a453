use go_rules::point_list::{append_points, point_differs, GroupVec};

#[test]
fn new_list_is_empty() {
    let v = GroupVec::new();
    assert!(v.is_empty());
    assert_eq!(v.len(), 0);
    assert_eq!(v.to_vec(), vec![]);
}

#[test]
fn push_appends_in_order() {
    let mut v = GroupVec::new();
    v.push((1, 2));
    v.push((3, 4));
    v.push((1, 2));
    assert!(!v.is_empty());
    assert_eq!(v.len(), 3);
    assert_eq!(v.get(0), (1, 2));
    assert_eq!(v.get(1), (3, 4));
    assert_eq!(v.get(2), (1, 2));
    assert_eq!(v.to_vec(), vec![(1, 2), (3, 4), (1, 2)]);
}

#[test]
fn list_grows_beyond_its_inline_room() {
    let mut v = GroupVec::new();
    for i in 0..20u32 {
        v.push((i, 2 * i));
    }
    assert_eq!(v.len(), 20);
    for i in 0..20u32 {
        assert_eq!(v.get(i as usize), (i, 2 * i));
    }
    assert!(v.contains((19, 38)));
    assert!(!v.contains((20, 40)));
}

#[test]
fn contains_looks_at_both_coordinates() {
    let v = GroupVec::from_slice(&[(1, 2), (3, 4)]);
    assert!(v.contains((1, 2)));
    assert!(v.contains((3, 4)));
    assert!(!v.contains((1, 4)));
    assert!(!v.contains((2, 1)));
}

#[test]
fn remove_all_takes_every_occurrence() {
    let mut v = GroupVec::from_slice(&[(1, 2), (3, 4), (1, 2), (5, 6)]);
    v.remove_all((1, 2));
    assert_eq!(v.to_vec(), vec![(3, 4), (5, 6)]);
    v.remove_all((9, 9));
    assert_eq!(v.to_vec(), vec![(3, 4), (5, 6)]);
    v.remove_all((5, 6));
    v.remove_all((3, 4));
    assert!(v.is_empty());
}

#[test]
fn clone_is_independent() {
    let mut v = GroupVec::from_slice(&[(1, 2)]);
    let w = v.clone();
    v.push((7, 7));
    assert_eq!(w.to_vec(), vec![(1, 2)]);
    assert_eq!(v.to_vec(), vec![(1, 2), (7, 7)]);
}

#[test]
fn points_differ_in_either_coordinate() {
    assert!(point_differs(&(1, 2), &(1, 3)));
    assert!(point_differs(&(1, 2), &(0, 2)));
    assert!(!point_differs(&(1, 2), &(1, 2)));
}

#[test]
fn append_points_joins_lists() {
    let mut a = vec![(1, 1)];
    append_points(&mut a, &vec![(2, 2), (3, 3)]);
    assert_eq!(a, vec![(1, 1), (2, 2), (3, 3)]);
    append_points(&mut a, &vec![]);
    assert_eq!(a.len(), 3);
}
