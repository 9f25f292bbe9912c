use shatter::{BoundingBox, RcVec, Stack};

#[test]
fn rc_vec_holds_its_source() {
    let list = RcVec::new(vec![3usize, 1, 4]);
    assert_eq!(list.len(), 3);
    assert_eq!(list.to_vec(), vec![3, 1, 4]);
    assert_eq!(RcVec::<usize>::new(Vec::new()).to_vec(), Vec::<usize>::new());
}

#[test]
fn rc_vec_push_leaves_other_handles_alone() {
    let base = RcVec::new(vec![0usize]);
    let a = base.push(1);
    let b = base.push(2);
    let c = a.push(5);

    assert_eq!(base.to_vec(), vec![0]);
    assert_eq!(a.to_vec(), vec![0, 1]);
    assert_eq!(b.to_vec(), vec![0, 2]);
    assert_eq!(c.to_vec(), vec![0, 1, 5]);
    assert_eq!(c.len(), 3);

    let shared = c.share();
    let cloned = c.clone();
    assert_eq!(shared.to_vec(), vec![0, 1, 5]);
    assert_eq!(cloned.to_vec(), vec![0, 1, 5]);
    assert_eq!(shared.push(9).to_vec(), vec![0, 1, 5, 9]);
    assert_eq!(c.to_vec(), vec![0, 1, 5]);
}

#[test]
fn stack_is_last_in_first_out() {
    let mut s: Stack<u32, 4> = Stack::new();
    assert_eq!(s.len(), 0);
    assert_eq!(s.pop(), None);
    s.push(1);
    s.push(2);
    s.push(3);
    assert_eq!(s.as_slice(), &[1, 2, 3]);
    assert_eq!(s.get(1), Some(&2));
    assert_eq!(s.get(3), None);
    assert_eq!(s.pop(), Some(3));
    assert_eq!(s.len(), 2);
}

#[test]
fn stack_swap_remove_moves_the_top_down() {
    let mut s: Stack<BoundingBox, 8> = Stack::new();
    for i in 0..4 {
        s.push(BoundingBox::new(i, i, 1, 1));
    }
    let removed = s.swap_remove(1);
    assert_eq!(removed, BoundingBox::new(1, 1, 1, 1));
    assert_eq!(s.as_slice(), &[BoundingBox::new(0, 0, 1, 1), BoundingBox::new(3, 3, 1, 1), BoundingBox::new(2, 2, 1, 1)]);
}

#[test]
fn stack_hands_values_out_in_pop_order() {
    let mut s: Stack<u8, 3> = Stack::new();
    s.push(7);
    s.push(8);
    s.push(9);
    let mut it = s.into_iter();
    assert_eq!(it.next(), Some(9));
    assert_eq!(it.next(), Some(8));
    assert_eq!(it.next(), Some(7));
    assert_eq!(it.next(), None);
}
