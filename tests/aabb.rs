use shatter::BoundingBox;

#[test]
fn bounding_box_intersection() {
    let base = BoundingBox::new(50, 50, 100, 100);

    let normal = base.intersection(&BoundingBox::new(30, 30, 50, 50));
    let inverted = BoundingBox::new(30, 30, 50, 50).intersection(&base);
    let no_intersection = base.intersection(&BoundingBox::new(0, 0, 40, 40));
    let contained = BoundingBox::new(75, 75, 25, 25).intersection(&base);
    let contained2 = base.intersection(&BoundingBox::new(75, 75, 25, 25));

    assert_eq!(normal, Some(BoundingBox::new(50, 50, 30, 30)));
    assert_eq!(inverted, normal);
    assert_eq!(no_intersection, None);
    assert_eq!(contained, contained2);
}

#[test]
fn bounding_box_contains() {
    let base = BoundingBox::new(50, 50, 100, 100);

    let normal = base.contains(&BoundingBox::new(60, 60, 20, 20));
    let no_contact = base.contains(&BoundingBox::new(0, 0, 40, 40));
    let intersection = base.contains(&BoundingBox::new(25, 25, 75, 75));

    assert!(normal);
    assert!(!no_contact);
    assert!(!intersection);
    assert!(base.contains(&base)); // self contains self
}

#[test]
fn bounding_box_subtract() {
    let base = BoundingBox::new(50, 50, 50, 50);

    let side = BoundingBox::new(60, 60, 20, 20);
    let res = base.difference(&side);
    let count = res.len();
    assert_eq!(
        &res[..count],
        &[
            BoundingBox { left: 50, right: 100, top: 50, bottom: 60 },
            BoundingBox { left: 50, right: 100, top: 80, bottom: 100 },
            BoundingBox { left: 50, right: 60, top: 60, bottom: 80 },
            BoundingBox { left: 80, right: 100, top: 60, bottom: 80 }
        ]
    );

    let no_intersect = BoundingBox::new(0, 0, 40, 40);
    assert_eq!(base.difference(&no_intersect).len(), 0);

    let corner = BoundingBox::new(75, 75, 25, 25);
    let res = base.difference(&corner);
    let count = res.len();
    assert_eq!(
        &res[..count],
        &[
            BoundingBox { left: 50, right: 100, top: 50, bottom: 75 },
            BoundingBox { left: 50, right: 75, top: 75, bottom: 100 }
        ]
    );

    let contained = BoundingBox::new(60, 60, 20, 20);
    let res = base.difference(&contained);
    let count = res.len();
    assert_eq!(
        &res[..count],
        [
            BoundingBox { left: 50, right: 100, top: 50, bottom: 60 },
            BoundingBox { left: 50, right: 100, top: 80, bottom: 100 },
            BoundingBox { left: 50, right: 60, top: 60, bottom: 80 },
            BoundingBox { left: 80, right: 100, top: 60, bottom: 80 }
        ]
    );

    let perfectly_vertical = BoundingBox::new(50, 75, 50, 25);
    let res = base.difference(&perfectly_vertical);
    let count = res.len();
    assert_eq!(&res[..count], &[BoundingBox { left: 50, right: 100, top: 50, bottom: 75 }]);

    let fully_contained = base.clone();
    let count = base.difference(&fully_contained).len();
    assert_eq!(count, 0);
}

#[test]
fn new_sets_edges_from_size() {
    let b = BoundingBox::new(-5, 7, 10, 3);
    assert_eq!(b, BoundingBox { left: -5, right: 5, top: 7, bottom: 10 });
}

#[test]
fn area_is_width_times_height() {
    assert_eq!(BoundingBox::new(-5, 7, 10, 3).area(), 30);
    assert_eq!(BoundingBox::new(0, 0, 0, 9).area(), 0);
}

#[test]
fn contains_point_is_half_open() {
    let b = BoundingBox::new(0, 0, 10, 10);
    assert!(b.contains_point(0, 0));
    assert!(b.contains_point(9, 9));
    assert!(!b.contains_point(10, 5));
    assert!(!b.contains_point(5, 10));
    assert!(!b.contains_point(-1, 5));
}

#[test]
fn touching_boxes_do_not_intersect() {
    let a = BoundingBox::new(0, 0, 10, 10);
    let b = BoundingBox::new(10, 0, 10, 10);
    assert!(!a.intersects(&b));
    assert_eq!(a.intersection(&b), None);
    assert!(a.intersects(&BoundingBox::new(9, 9, 5, 5)));
}

#[test]
fn degenerate_boxes_intersect_nothing() {
    let a = BoundingBox::new(0, 0, 10, 10);
    let line = BoundingBox::new(5, 0, 0, 10);
    assert!(!a.intersects(&line));
    assert!(!line.intersects(&a));
    assert_eq!(a.intersection(&line), None);
    assert_eq!(line.difference(&a).len(), 0);
}

#[test]
fn intersection_commutes() {
    let pairs = [
        (BoundingBox::new(0, 0, 10, 10), BoundingBox::new(5, -3, 20, 6)),
        (BoundingBox::new(0, 0, 10, 10), BoundingBox::new(20, 20, 1, 1)),
        (BoundingBox::new(-8, 2, 4, 40), BoundingBox::new(-9, 1, 30, 3)),
    ];
    for (a, b) in pairs {
        assert_eq!(a.intersection(&b), b.intersection(&a));
    }
    assert_eq!(
        BoundingBox::new(0, 0, 10, 10).intersection(&BoundingBox::new(5, -3, 20, 6)),
        Some(BoundingBox { left: 5, right: 10, top: 0, bottom: 3 })
    );
}

#[test]
fn contains_itself() {
    for b in [BoundingBox::new(3, 4, 5, 6), BoundingBox::new(-1, -1, 0, 0)] {
        assert!(b.contains(&b));
    }
}

#[test]
fn difference_areas_add_up() {
    let base = BoundingBox::new(50, 50, 50, 50);
    for other in [
        BoundingBox::new(60, 60, 20, 20),
        BoundingBox::new(75, 75, 25, 25),
        BoundingBox::new(40, 70, 100, 5),
        BoundingBox::new(0, 0, 200, 200),
    ] {
        let inter = base.intersection(&other).unwrap();
        let pieces = base.difference(&other);
        assert!(pieces.len() <= 4);
        let sum: isize = pieces.iter().map(|p| p.area()).sum();
        assert_eq!(base.area(), inter.area() + sum);
        for (i, p) in pieces.iter().enumerate() {
            assert!(base.contains(p));
            assert!(!p.intersects(&other));
            for q in &pieces[i + 1..] {
                assert!(!p.intersects(q));
            }
        }
    }
    assert_eq!(base.difference(&BoundingBox::new(0, 0, 40, 40)), Vec::new());
}
