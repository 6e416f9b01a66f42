use pathtracer::bvh::{Node, Visit, BVH};

/// Intervals `[lo, hi]` on a line, standing in for primitives.
fn intervals() -> Vec<(f32, f32)> {
    vec![
        (9.0, 10.0), (1.0, 2.0), (5.0, 5.5), (3.0, 3.5), (7.0, 8.0),
        (0.5, 0.8), (6.0, 6.2), (4.0, 4.4), (2.5, 2.7), (8.5, 8.9),
    ]
}

/// Splits at the median centre.
fn median_rule(prims: &Vec<(f32, f32)>) -> impl Fn(&Vec<usize>) -> Option<Vec<bool>> + '_ {
    move |held: &Vec<usize>| {
        let mut centres: Vec<f32> = held.iter().map(|&p| (prims[p].0 + prims[p].1) / 2.0).collect();
        centres.sort_by(|a, b| a.partial_cmp(b).unwrap());
        let pivot = centres[centres.len() / 2];
        Some(held.iter().map(|&p| (prims[p].0 + prims[p].1) / 2.0 < pivot).collect())
    }
}

fn node_bounds(bvh: &BVH, prims: &Vec<(f32, f32)>) -> Vec<(f32, f32)> {
    let mut bounds = vec![(f32::INFINITY, f32::NEG_INFINITY); bvh.node_count()];
    for i in (0..bvh.node_count()).rev() {
        let n = bvh.node(i);
        if bvh.node_is_leaf(i) {
            for k in n.left_first..n.left_first + n.count {
                let p = prims[bvh.indices()[k]];
                bounds[i] = (bounds[i].0.min(p.0), bounds[i].1.max(p.1));
            }
        } else {
            let (l, r) = (bounds[n.left_first], bounds[n.left_first + 1]);
            bounds[i] = (l.0.min(r.0), l.1.max(r.1));
        }
    }
    bounds
}

/// Casts a ray from `x0` towards +x; returns (closest, any) as (distance, primitive).
fn cast(bvh: &BVH, prims: &Vec<(f32, f32)>, x0: f32) -> (Option<(f32, usize)>, Option<usize>, usize) {
    let bounds = node_bounds(bvh, prims);
    let enter = |d: &f32, n: usize| bounds[n].1 >= x0 && bounds[n].0 - x0 < *d;
    let order = |d: &f32, n: usize| {
        let l = bvh.node(n).left_first;
        let hl = enter(d, l);
        let hr = enter(d, l + 1);
        match (hl, hr) {
            (true, true) => if bounds[l].0 <= bounds[l + 1].0 { Visit::LeftThenRight } else { Visit::RightThenLeft },
            (true, false) => Visit::Left,
            (false, true) => Visit::Right,
            (false, false) => Visit::Neither,
        }
    };
    let tests = std::cell::Cell::new(0usize);
    let hit = |d: f32, p: usize| {
        tests.set(tests.get() + 1);
        let t = prims[p].0 - x0;
        if t >= 0.0 && t < d { (t, Some(p)) } else { (d, None) }
    };
    let mut stack = Vec::with_capacity(bvh.max_stack_depth());
    let (d, closest) = bvh.intersect_closest(&mut stack, f32::INFINITY, &enter, &order, &hit);
    let n_tests = tests.get();
    let (_, any) = bvh.intersect_any(&mut stack, f32::INFINITY, &enter, &order, &hit);
    (closest.map(|p| (d, p)), any, n_tests)
}

#[test]
fn empty_hierarchy_finds_nothing() {
    let bvh = BVH::new(&vec![], |_held: &Vec<usize>| -> Option<Vec<bool>> { panic!("nothing to split") });
    assert_eq!(bvh.primitive_count(), 0);
    assert_eq!(bvh.node_count(), 1);
    assert!(bvh.random_light().is_none());
    assert!(bvh.pick_light(3).is_none());
    let mut stack = Vec::new();
    let hit = |s: u8, _p: usize| -> (u8, Option<()>) { (s, Some(())) };
    let (s, h) = bvh.intersect_closest(&mut stack, 7u8, &|_: &u8, _| true, &|_: &u8, _| Visit::LeftThenRight, &hit);
    assert_eq!(s, 7);
    assert!(h.is_none());
    let (_, h) = bvh.intersect_any(&mut stack, 7u8, &|_: &u8, _| true, &|_: &u8, _| Visit::LeftThenRight, &hit);
    assert!(h.is_none());
}

#[test]
fn build_keeps_a_permutation() {
    let prims = intervals();
    let lights = vec![false, true, false, false, true, false, false, false, false, false];
    let bvh = BVH::new(&lights, median_rule(&prims));
    let mut seen = bvh.indices().clone();
    seen.sort();
    assert_eq!(seen, (0..10).collect::<Vec<usize>>());
    assert_eq!(bvh.lights(), &vec![1, 4]);
    assert!(bvh.node_count() > 1);
    // Leaves cover every position once, none holds more than two.
    let mut covered = vec![0; 10];
    for i in 0..bvh.node_count() {
        let n = bvh.node(i);
        if bvh.node_is_leaf(i) {
            assert!(n.count >= 1 && n.count <= 2);
            for k in n.left_first..n.left_first + n.count {
                covered[k] += 1;
            }
        } else {
            assert!(n.left_first > i && n.left_first + 1 < bvh.node_count());
        }
    }
    assert_eq!(covered, vec![1; 10]);
}

#[test]
fn inner_bounds_hold_their_children() {
    let prims = intervals();
    let bvh = BVH::new(&vec![false; 10], median_rule(&prims));
    let bounds = node_bounds(&bvh, &prims);
    for i in 0..bvh.node_count() {
        if !bvh.node_is_leaf(i) {
            let l = bvh.node(i).left_first;
            for c in [l, l + 1] {
                assert!(bounds[i].0 <= bounds[c].0 && bounds[c].1 <= bounds[i].1);
            }
        }
    }
    assert_eq!(bounds[0], (0.5, 10.0));
}

#[test]
fn refused_splits_leave_one_leaf() {
    let bvh = BVH::new(&vec![true; 5], |held: &Vec<usize>| Some(vec![true; held.len()]));
    assert_eq!(bvh.node_count(), 1);
    assert_eq!(bvh.node(0), Node { left_first: 0, count: 5 });
    assert_eq!(bvh.indices(), &vec![0, 1, 2, 3, 4]);
    let bvh = BVH::new(&vec![false; 5], |_held: &Vec<usize>| None);
    assert_eq!(bvh.node_count(), 1);
    let bvh = BVH::new(&vec![false; 5], |_held: &Vec<usize>| Some(vec![true; 2]));
    assert_eq!(bvh.node_count(), 1);
    assert_eq!(bvh.max_stack_depth(), 1);
}

#[test]
fn split_partitions_a_leaf() {
    let mut bvh = BVH::new(&vec![false; 6], |_held: &Vec<usize>| None);
    assert!(bvh.split(0, &vec![false, true, false, true, true, false]));
    assert_eq!(bvh.node(0), Node { left_first: 1, count: 0 });
    assert_eq!(bvh.node(1), Node { left_first: 0, count: 3 });
    assert_eq!(bvh.node(2), Node { left_first: 3, count: 3 });
    let left: Vec<usize> = bvh.indices()[0..3].to_vec();
    let mut left_sorted = left.clone();
    left_sorted.sort();
    assert_eq!(left_sorted, vec![1, 3, 4]);
    let mut right: Vec<usize> = bvh.indices()[3..6].to_vec();
    right.sort();
    assert_eq!(right, vec![0, 2, 5]);
    assert!(!bvh.split(1, &vec![true, true, true]));
    assert!(!bvh.split(2, &vec![false, false, false]));
    assert_eq!(bvh.node_count(), 3);
    assert_eq!(bvh.max_stack_depth(), 2);
}

#[test]
fn stack_depth_follows_the_deepest_left_path() {
    let mut bvh = BVH::new(&vec![false; 4], |_held: &Vec<usize>| None);
    assert!(bvh.split(0, &vec![true, true, true, false]));
    assert!(bvh.split(1, &vec![true, true, false]));
    assert!(bvh.split(3, &vec![true, false]));
    // Root, then left (1), its left (3), its left (5): each level leaves a right sibling below.
    assert_eq!(bvh.max_stack_depth(), 4);
}

#[test]
fn picking_lights_wraps_around() {
    let bvh = BVH::new(&vec![true, false, true, true], |_held: &Vec<usize>| None);
    assert_eq!(bvh.lights(), &vec![0, 2, 3]);
    assert_eq!(bvh.pick_light(0), Some((3, 0)));
    assert_eq!(bvh.pick_light(1), Some((3, 2)));
    assert_eq!(bvh.pick_light(5), Some((3, 3)));
    for _ in 0..20 {
        let (k, p) = bvh.random_light().unwrap();
        assert_eq!(k, 3);
        assert!(p == 0 || p == 2 || p == 3);
    }
    let dark = BVH::new(&vec![false, false], |_held: &Vec<usize>| None);
    assert_eq!(dark.pick_light(0), None);
}

#[test]
fn closest_hit_is_nearest_and_any_agrees() {
    let prims = intervals();
    let bvh = BVH::new(&vec![false; 10], median_rule(&prims));
    for &x0 in &[0.0f32, 0.6, 2.1, 4.2, 6.5, 8.95, 9.5, 11.0] {
        let (closest, any, _) = cast(&bvh, &prims, x0);
        let brute = prims
            .iter()
            .enumerate()
            .filter(|(_, p)| p.0 - x0 >= 0.0)
            .map(|(i, p)| (p.0 - x0, i))
            .fold(None, |best: Option<(f32, usize)>, c| match best {
                Some(b) if b.0 <= c.0 => Some(b),
                _ => Some(c),
            });
        assert_eq!(closest, brute);
        assert_eq!(closest.is_some(), any.is_some());
    }
    assert_eq!(cast(&bvh, &prims, 0.0).0, Some((0.5, 5)));
    assert_eq!(cast(&bvh, &prims, 3.2).0, Some((4.0f32 - 3.2, 7)));
}

#[test]
fn traversal_prunes_far_subtrees() {
    let prims = intervals();
    let bvh = BVH::new(&vec![false; 10], median_rule(&prims));
    let (_, _, tests) = cast(&bvh, &prims, 0.0);
    assert!(tests < 10, "tested {} primitives", tests);
}

#[test]
fn node_count_stays_within_twice_the_primitives() {
    let prims = intervals();
    let bvh = BVH::new(&vec![false; 10], median_rule(&prims));
    assert!(bvh.node_count() <= 2 * 10 - 1);
    let one = BVH::new(&vec![false], median_rule(&prims));
    assert_eq!(one.node_count(), 1);
}

#[test]
fn stack_depth_counts_right_children_on_top() {
    let mut bvh = BVH::new(&vec![false; 4], |_held: &Vec<usize>| None);
    assert!(bvh.split(0, &vec![true, false, false, false]));
    assert!(bvh.split(2, &vec![true, false, false]));
    // Root, then its right child visited first with the left below, then its children.
    assert_eq!(bvh.max_stack_depth(), 3);
}

#[test]
fn full_walks_test_everything_and_agree() {
    let prims = intervals();
    let bvh = BVH::new(&vec![false; 10], median_rule(&prims));
    let mut stack = Vec::new();
    let enter = |_: &f32, _n: usize| true;
    let order = |_: &f32, _n: usize| Visit::RightThenLeft;
    for &x0 in &[0.0f32, 5.2, 9.5, 11.0] {
        let tested = std::cell::RefCell::new(Vec::new());
        let hit = |d: f32, p: usize| {
            tested.borrow_mut().push(p);
            let t = prims[p].0 - x0;
            if t >= 0.0 && t < d { (t, Some(p)) } else { (d, None) }
        };
        let (_, closest) = bvh.intersect_closest(&mut stack, f32::INFINITY, &enter, &order, &hit);
        let mut seen = tested.borrow().clone();
        seen.sort();
        assert_eq!(seen, (0..10).collect::<Vec<usize>>());
        let (d, any) = bvh.intersect_any(&mut stack, f32::INFINITY, &enter, &order, &hit);
        assert_eq!(closest.is_some(), any.is_some());
        if any.is_none() {
            assert_eq!(d, f32::INFINITY);
        }
    }
}
