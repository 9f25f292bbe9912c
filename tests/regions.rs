use std::collections::BTreeMap;

use shatter::{get_regions, get_regions_with_capacity, BoundingBox, Node, PartitionError, RcVec};

fn generate_nodes(count: usize, width: isize, height: isize) -> Vec<Node> {
    let mut nodes = Vec::with_capacity(count);

    for _ in 0..count {
        let node = match simplerand::rand::<u8>() % 2 == 0 {
            // a square node
            true => {
                let half_extent = Some(simplerand::rand_range(25, 125));

                let x = simplerand::rand_range(5, width - 5);
                let y = simplerand::rand_range(5, height - 5);

                Node::square(x, y, half_extent)
            }
            // a rectangular node
            false => {
                let half_extents = {
                    let hx = simplerand::rand_range(25, 125);
                    let hy = simplerand::rand_range(25, 125);

                    Some((hx, hy))
                };

                let x = simplerand::rand_range(5, width - 5);
                let y = simplerand::rand_range(5, height - 5);

                Node::new(x, y, half_extents)
            }
        };
        nodes.push(node);
    }

    nodes
}

fn labels(cells: &[(BoundingBox, RcVec<usize>)]) -> Vec<Vec<usize>> {
    cells.iter().map(|(_, l)| l.to_vec()).collect()
}

fn area_of_node(cells: &[(BoundingBox, RcVec<usize>)], i: usize) -> isize {
    cells.iter().filter(|(_, l)| l.to_vec().contains(&i)).map(|(b, _)| b.area()).sum()
}

fn assert_disjoint(cells: &[(BoundingBox, RcVec<usize>)]) {
    for (a, (ba, _)) in cells.iter().enumerate() {
        for (bb, _) in &cells[a + 1..] {
            assert!(!ba.intersects(bb), "{:?} meets {:?}", ba, bb);
        }
    }
}

/// The labels of the cell holding the point, if any.
fn labels_at(cells: &[(BoundingBox, RcVec<usize>)], x: isize, y: isize) -> Option<Vec<usize>> {
    let mut found = None;
    for (b, l) in cells {
        if b.contains_point(x, y) {
            assert!(found.is_none(), "two cells hold ({}, {})", x, y);
            found = Some(l.to_vec());
        }
    }
    found
}

#[test]
fn get_node_influence() {
    let aabb = BoundingBox::new(0, 0, 200, 300);

    let middle = Node::square(100, 150, Some(50));
    let top_left = Node::square(0, 0, Some(50));
    let bottom_right = Node::square(200, 300, Some(50));
    let outside = Node::square(210, 310, Some(50));
    let far = Node::square(300, 400, Some(50));
    let infinite = Node::square(5000, 5000, None);

    assert_eq!(middle.intersection(&aabb), Some(BoundingBox { left: 50, right: 150, top: 100, bottom: 200 }));
    assert_eq!(top_left.intersection(&aabb), Some(BoundingBox { left: 0, right: 50, top: 0, bottom: 50 }));
    assert_eq!(
        bottom_right.intersection(&aabb),
        Some(BoundingBox { left: 150, right: 200, top: 250, bottom: 300 })
    );
    assert_eq!(outside.intersection(&aabb), Some(BoundingBox { left: 160, right: 200, top: 260, bottom: 300 }));
    assert_eq!(far.intersection(&aabb), None);
    assert_eq!(infinite.intersection(&aabb), Some(aabb));
}

#[test]
fn test_get_regions() {
    for d in 300..800 {
        let root = BoundingBox::new(0, 0, d, d);

        let nodes = generate_nodes(25, d, d);
        let regions = get_regions(&root, &nodes).unwrap();

        let mut reverse = BTreeMap::new();

        for (bounding, influence) in regions {
            for i in influence.to_vec().iter() {
                let node = nodes.get(*i).unwrap();
                let initial = node
                    .intersection(&root)
                    .expect("Node doesn't intersect root, but has generated region in shatter test");

                assert!(initial.contains(&bounding), "Initial Node region does not fully contain inner region");

                let (_, vector) = reverse.entry(*i).or_insert_with(move || (initial, Vec::new()));
                vector.push(bounding.clone());
            }
        }

        // the sub-regions add up to the area of the node's region
        for (_, (total, section)) in reverse {
            fn area(bb: BoundingBox) -> isize {
                (bb.right - bb.left) * (bb.bottom - bb.top)
            }

            let total_area = area(total);
            let total_section_area = section.into_iter().map(area).sum::<isize>();

            assert_eq!(total_area, total_section_area, "Total Region Area doesn't sum up to Node Area");
        }
    }
}

#[test]
fn vertically_overlapping_squares_give_three_cells() {
    let root = BoundingBox::new(0, 0, 200, 300);
    let nodes = [Node::square(75, 150, Some(50)), Node::square(75, 125, Some(50))];
    let cells = get_regions(&root, &nodes).unwrap();

    let mut found = labels(&cells);
    found.sort();
    assert_eq!(found, vec![vec![0], vec![0, 1], vec![1]]);
    assert_disjoint(&cells);
    assert_eq!(area_of_node(&cells, 0), nodes[0].intersection(&root).unwrap().area());
    assert_eq!(area_of_node(&cells, 1), nodes[1].intersection(&root).unwrap().area());
    assert_eq!(area_of_node(&cells, 0), 10000);

    let overlap = cells.iter().find(|(_, l)| l.len() == 2).unwrap();
    assert_eq!(overlap.0, BoundingBox { left: 25, right: 125, top: 100, bottom: 175 });
}

#[test]
fn disjoint_nodes_give_one_cell_each() {
    let root = BoundingBox::new(0, 0, 200, 300);
    let nodes = [Node::square(30, 30, Some(20)), Node::new(150, 200, Some((20, 40)))];
    let cells = get_regions(&root, &nodes).unwrap();

    assert_eq!(cells.len(), 2);
    assert_eq!(labels(&cells), vec![vec![0], vec![1]]);
    assert_eq!(cells[0].0, BoundingBox { left: 10, right: 50, top: 10, bottom: 50 });
    assert_eq!(cells[1].0, BoundingBox { left: 130, right: 170, top: 160, bottom: 240 });
}

#[test]
fn nested_nodes_give_five_cells() {
    let root = BoundingBox::new(0, 0, 200, 200);
    let nodes = [Node::square(100, 100, Some(80)), Node::square(100, 100, Some(20))];
    let cells = get_regions(&root, &nodes).unwrap();

    assert_eq!(cells.len(), 5);
    assert_disjoint(&cells);
    let boxes: Vec<BoundingBox> = cells.iter().map(|(b, _)| *b).collect();
    assert_eq!(
        boxes,
        vec![
            BoundingBox { left: 80, right: 120, top: 80, bottom: 120 },
            BoundingBox { left: 20, right: 180, top: 20, bottom: 80 },
            BoundingBox { left: 20, right: 180, top: 120, bottom: 180 },
            BoundingBox { left: 20, right: 80, top: 80, bottom: 120 },
            BoundingBox { left: 120, right: 180, top: 80, bottom: 120 },
        ]
    );
    assert_eq!(labels(&cells), vec![vec![0, 1], vec![0], vec![0], vec![0], vec![0]]);
    assert_eq!(area_of_node(&cells, 0), 160 * 160);
    assert_eq!(area_of_node(&cells, 1), 40 * 40);
}

#[test]
fn outgrowing_the_worklist_is_an_error() {
    let root = BoundingBox::new(0, 0, 200, 200);
    // the inner node first: the outer one then leaves four pending pieces around it
    let nodes = [Node::square(100, 100, Some(20)), Node::square(100, 100, Some(80))];

    assert_eq!(get_regions_with_capacity::<3>(&root, &nodes).err(), Some(PartitionError::CapacityExceeded));
    assert_eq!(get_regions_with_capacity::<0>(&root, &nodes).err(), Some(PartitionError::CapacityExceeded));

    let cells = get_regions_with_capacity::<4>(&root, &nodes).unwrap();
    assert_eq!(cells.len(), 5);
    assert_eq!(area_of_node(&cells, 1), 160 * 160);
}

#[test]
fn many_overlaps_outgrow_a_small_worklist() {
    let root = BoundingBox::new(0, 0, 1000, 1000);
    let mut nodes = Vec::new();
    for gx in 0..8 {
        for gy in 0..8 {
            nodes.push(Node::square(100 + gx * 100, 100 + gy * 100, Some(10)));
        }
    }
    nodes.push(Node::square(500, 500, Some(500)));

    assert_eq!(get_regions_with_capacity::<8>(&root, &nodes).err(), Some(PartitionError::CapacityExceeded));

    let cells = get_regions(&root, &nodes).unwrap();
    assert_disjoint(&cells);
    assert_eq!(area_of_node(&cells, 64), 1000 * 1000);
    for i in 0..64 {
        assert_eq!(area_of_node(&cells, i), 20 * 20);
    }
}

#[test]
fn empty_node_list_gives_no_cells() {
    let root = BoundingBox::new(0, 0, 100, 100);
    assert_eq!(get_regions(&root, &[]).unwrap().len(), 0);
}

#[test]
fn nodes_outside_the_root_are_left_out() {
    let root = BoundingBox::new(0, 0, 100, 100);
    let nodes = [Node::square(500, 500, Some(10)), Node::square(50, 50, Some(10))];
    let cells = get_regions(&root, &nodes).unwrap();
    assert_eq!(labels(&cells), vec![vec![1]]);
}

#[test]
fn empty_or_negative_half_extents_influence_nothing() {
    let root = BoundingBox::new(0, 0, 100, 100);
    assert_eq!(Node::square(50, 50, Some(0)).intersection(&root), None);
    assert_eq!(Node::new(50, 50, Some((-5, 10))).intersection(&root), None);
    let nodes = [Node::square(50, 50, Some(0)), Node::new(50, 50, Some((-5, 10))), Node::square(50, 50, Some(1))];
    let cells = get_regions(&root, &nodes).unwrap();
    assert_eq!(labels(&cells), vec![vec![2]]);
    assert_eq!(cells[0].0, BoundingBox { left: 49, right: 51, top: 49, bottom: 51 });
}

#[test]
fn zero_area_root_gives_a_single_empty_cell() {
    let root = BoundingBox::new(10, 10, 0, 0);
    let cells = get_regions(&root, &[Node::square(0, 0, None)]).unwrap();
    assert_eq!(cells.len(), 1);
    assert_eq!(cells[0].0, root);
    assert_eq!(cells[0].0.area(), 0);
    assert_eq!(cells[0].1.to_vec(), vec![0]);
}

#[test]
fn unbounded_nodes_cover_the_root() {
    let root = BoundingBox::new(-50, -50, 100, 100);
    let nodes = [Node::new(0, 0, None), Node::new(0, 0, Some((10, 20))), Node::square(9, 9, None)];
    let cells = get_regions(&root, &nodes).unwrap();
    assert_disjoint(&cells);
    assert_eq!(area_of_node(&cells, 0), 100 * 100);
    assert_eq!(area_of_node(&cells, 1), 20 * 40);
    assert_eq!(area_of_node(&cells, 2), 100 * 100);
    assert_eq!(labels_at(&cells, 0, 0), Some(vec![0, 1, 2]));
    assert_eq!(labels_at(&cells, 40, 40), Some(vec![0, 2]));
}

#[test]
fn extreme_half_extents_saturate() {
    let root = BoundingBox::new(0, 0, 100, 100);
    let huge = Node::square(isize::MAX, isize::MAX, Some(isize::MAX));
    assert_eq!(huge.intersection(&root), Some(root));
    let low = Node::square(isize::MIN, isize::MIN, Some(isize::MAX));
    assert_eq!(low.intersection(&root), None);
    let wide = Node::new(50, 50, Some((isize::MAX, 10)));
    assert_eq!(wide.intersection(&root), Some(BoundingBox { left: 0, right: 100, top: 40, bottom: 60 }));
}

#[test]
fn labels_are_in_discovery_order() {
    let root = BoundingBox::new(0, 0, 100, 100);
    let nodes = [Node::square(50, 50, Some(40)), Node::square(40, 40, Some(30)), Node::square(60, 60, Some(30))];
    let cells = get_regions(&root, &nodes).unwrap();
    assert_disjoint(&cells);
    for (_, l) in &cells {
        let l = l.to_vec();
        assert!(!l.is_empty());
        assert!(l.windows(2).all(|w| w[0] < w[1]));
    }
    assert_eq!(labels_at(&cells, 50, 50), Some(vec![0, 1, 2]));
}

#[test]
fn reordering_nodes_keeps_point_membership() {
    let root = BoundingBox::new(0, 0, 120, 90);
    let nodes = vec![
        Node::square(30, 30, Some(25)),
        Node::new(60, 45, Some((40, 15))),
        Node::square(90, 60, Some(30)),
        Node::new(50, 50, None),
    ];
    let order = [2usize, 0, 3, 1];
    let shuffled: Vec<Node> = order.iter().map(|&i| nodes[i]).collect();

    let cells = get_regions(&root, &nodes).unwrap();
    let shuffled_cells = get_regions(&root, &shuffled).unwrap();
    assert_disjoint(&cells);
    assert_disjoint(&shuffled_cells);

    for x in 0..120 {
        for y in 0..90 {
            let here = labels_at(&cells, x, y).map(|mut l| {
                l.sort();
                l
            });
            let there = labels_at(&shuffled_cells, x, y).map(|l| {
                let mut l: Vec<usize> = l.iter().map(|&i| order[i]).collect();
                l.sort();
                l
            });
            assert_eq!(here, there);
        }
    }
}
