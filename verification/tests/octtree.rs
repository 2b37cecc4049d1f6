use pathfinder::math::vector::Vector3;
use pathfinder::path::octtree::Octtree;
use pathfinder::path::{AllowInterior, DisallowInterior, Neg};
use pathfinder::scene::{BBox, Bounds, Scene};

fn cube(lo: i64, hi: i64) -> Bounds {
    Bounds::new(Vector3::new(lo, lo, lo), Vector3::new(hi, hi, hi))
}

fn block(min: (i64, i64, i64), max: (i64, i64, i64)) -> Bounds {
    Bounds::new(Vector3::new(min.0, min.1, min.2), Vector3::new(max.0, max.1, max.2))
}

fn wall(bounds: Bounds) -> BBox {
    BBox { bounds, class: Some(String::from("IfcWall")), penetrable: None }
}

fn door(bounds: Bounds) -> BBox {
    BBox { bounds, class: Some(String::from("IfcDoor")), penetrable: None }
}

fn scene_over(bounds: Bounds, obstacles: Vec<BBox>) -> Scene {
    Scene { room: door(bounds), obstacles, bounds }
}

fn octants_of(b: Bounds) -> Vec<Bounds> {
    let (min, max, mid) = (b.min, b.max, b.midpoint());
    vec![
        block((min.x, min.y, min.z), (mid.x, mid.y, mid.z)),
        block((mid.x, min.y, min.z), (max.x, mid.y, mid.z)),
        block((min.x, mid.y, min.z), (mid.x, max.y, mid.z)),
        block((mid.x, mid.y, min.z), (max.x, max.y, mid.z)),
        block((min.x, min.y, mid.z), (mid.x, mid.y, max.z)),
        block((mid.x, min.y, mid.z), (max.x, mid.y, max.z)),
        block((min.x, mid.y, mid.z), (mid.x, max.y, max.z)),
        block((mid.x, mid.y, mid.z), (max.x, max.y, max.z)),
    ]
}

#[test]
fn depth_zero_gives_the_root_alone() {
    let scene = Scene::new(door(cube(0, 9)), vec![wall(cube(0, 3)), wall(cube(1, 2))]);
    assert_eq!(scene.bounds, cube(0, 3));
    let tree = Octtree::build::<DisallowInterior>(&scene, 0, 0);
    assert_eq!(tree.get_bounds_instances(), vec![cube(-1, 3)]);
    let shell = Octtree::build::<AllowInterior>(&scene, 0, 0);
    assert_eq!(shell.get_bounds_instances(), vec![cube(-1, 3)]);
    let negated = Octtree::build::<Neg<DisallowInterior>>(&scene, 0, 0);
    assert_eq!(negated.get_bounds_instances(), vec![cube(-1, 3)]);
}

#[test]
fn the_root_is_the_bounds_widened_to_powers_of_two() {
    let scene = scene_over(block((0, 0, 0), (5, 9, 100)), Vec::new());
    let tree = Octtree::build::<DisallowInterior>(&scene, 3, 5);
    assert_eq!(tree.get_bounds_instances(), vec![block((-2, -4, -14), (6, 12, 114))]);
}

#[test]
fn octants_come_in_a_fixed_order() {
    let scene = scene_over(cube(0, 3), vec![wall(cube(50, 60))]);
    let tree = Octtree::build::<DisallowInterior>(&scene, 1, 1);
    let boxes = tree.get_bounds_instances();
    assert_eq!(
        boxes,
        vec![
            cube(-1, 3),
            block((-1, -1, -1), (1, 1, 1)),
            block((1, -1, -1), (3, 1, 1)),
            block((-1, 1, -1), (1, 3, 1)),
            block((1, 1, -1), (3, 3, 1)),
            block((-1, -1, 1), (1, 1, 3)),
            block((1, -1, 1), (3, 1, 3)),
            block((-1, 1, 1), (1, 3, 3)),
            block((1, 1, 1), (3, 3, 3)),
        ]
    );
}

#[test]
fn every_leaf_reaches_the_minimum_depth() {
    let scene = scene_over(cube(0, 3), vec![wall(cube(50, 60))]);
    for (min_depth, nodes) in [(0, 1), (1, 9), (2, 73), (3, 585)] {
        let tree = Octtree::build::<DisallowInterior>(&scene, min_depth, min_depth);
        assert_eq!(tree.get_bounds_instances().len(), nodes);
    }
    let tree = Octtree::build::<DisallowInterior>(&scene, 2, 2);
    let boxes = tree.get_bounds_instances();
    let leaves = boxes.iter().filter(|b| b.dimensions() == Vector3::new(1, 1, 1)).count();
    let inner = boxes.iter().filter(|b| b.dimensions() == Vector3::new(2, 2, 2)).count();
    assert_eq!((leaves, inner), (64, 8));
}

#[test]
fn a_minimum_above_the_maximum_still_splits_to_the_minimum() {
    let scene = scene_over(cube(0, 3), vec![wall(cube(0, 3))]);
    let tree = Octtree::build::<DisallowInterior>(&scene, 2, 0);
    assert_eq!(tree.get_bounds_instances().len(), 73);
    let tree = Octtree::build::<DisallowInterior>(&scene, 1, 0);
    assert_eq!(tree.get_bounds_instances().len(), 9);
}

#[test]
fn without_obstacles_nothing_splits() {
    let scene = scene_over(cube(0, 3), vec![door(cube(0, 3))]);
    let tree = Octtree::build::<DisallowInterior>(&scene, 2, 4);
    assert_eq!(tree.get_bounds_instances(), vec![cube(-1, 3)]);
}

#[test]
fn an_obstacle_outside_the_root_splits_nothing_below_the_minimum() {
    let scene = scene_over(cube(0, 3), vec![wall(cube(50, 60)), wall(cube(3, 8))]);
    let tree = Octtree::build::<DisallowInterior>(&scene, 0, 6);
    assert_eq!(tree.get_bounds_instances(), vec![cube(-1, 3)]);
    let tree = Octtree::build::<AllowInterior>(&scene, 0, 6);
    assert_eq!(tree.get_bounds_instances(), vec![cube(-1, 3)]);
    let tree = Octtree::build::<DisallowInterior>(&scene, 1, 6);
    assert_eq!(tree.get_bounds_instances().len(), 9);
    let tree = Octtree::build::<AllowInterior>(&scene, 2, 6);
    assert_eq!(tree.get_bounds_instances().len(), 73);
}

#[test]
fn only_nodes_that_overlap_the_obstacle_split() {
    let scene = scene_over(cube(0, 3), vec![wall(cube(2, 3))]);
    let tree = Octtree::build::<DisallowInterior>(&scene, 0, 2);
    let boxes = tree.get_bounds_instances();
    let mut expected = vec![cube(-1, 3)];
    expected.extend(octants_of(cube(-1, 3)));
    expected.extend(octants_of(cube(1, 3)));
    assert_eq!(boxes, expected);
    assert_eq!(boxes.len(), 17);
    assert_eq!(boxes[8], cube(1, 3));
    assert_eq!(boxes[9], cube(1, 2));
    assert_eq!(boxes[16], cube(2, 3));
}

#[test]
fn the_maximum_depth_stops_the_splitting() {
    let scene = scene_over(cube(0, 3), vec![wall(cube(-1, 3))]);
    for (max_depth, nodes) in [(0, 1), (1, 9), (2, 73)] {
        let tree = Octtree::build::<DisallowInterior>(&scene, 0, max_depth);
        assert_eq!(tree.get_bounds_instances().len(), nodes);
    }
}

#[test]
fn nodes_split_in_preorder() {
    let scene = scene_over(cube(0, 8), vec![wall(block((-3, -3, -3), (-2, -2, -2)))]);
    let tree = Octtree::build::<DisallowInterior>(&scene, 0, 3);
    let boxes = tree.get_bounds_instances();
    let root = block((-4, -4, -4), (12, 12, 12));
    let mut expected = vec![root];
    let first = octants_of(root);
    expected.push(first[0]);
    let second = octants_of(first[0]);
    expected.push(second[0]);
    expected.extend(octants_of(second[0]));
    expected.extend(second[1..].iter().copied());
    expected.extend(first[1..].iter().copied());
    assert_eq!(boxes, expected);
    assert_eq!(boxes.len(), 25);
}

#[test]
fn only_nodes_whose_shell_is_crossed_split() {
    let scene = scene_over(cube(0, 3), vec![wall(cube(2, 5))]);
    let tree = Octtree::build::<AllowInterior>(&scene, 0, 1);
    assert_eq!(tree.get_bounds_instances().len(), 9);
    let tree = Octtree::build::<AllowInterior>(&scene, 0, 2);
    let mut expected = vec![cube(-1, 3)];
    expected.extend(octants_of(cube(-1, 3)));
    expected.extend(octants_of(cube(1, 3)));
    assert_eq!(tree.get_bounds_instances(), expected);
    let inside = scene_over(cube(0, 3), vec![wall(block((0, 0, 0), (1, 1, 1)))]);
    let tree = Octtree::build::<AllowInterior>(&inside, 0, 1);
    assert_eq!(tree.get_bounds_instances(), vec![cube(-1, 3)]);
    let tree = Octtree::build::<DisallowInterior>(&inside, 0, 1);
    assert_eq!(tree.get_bounds_instances().len(), 9);
}

#[test]
fn the_negated_policy_splits_where_the_policy_does_not() {
    let scene = scene_over(cube(0, 3), vec![wall(cube(50, 60))]);
    let tree = Octtree::build::<Neg<DisallowInterior>>(&scene, 0, 1);
    assert_eq!(tree.get_bounds_instances().len(), 9);
    let tree = Octtree::build::<Neg<DisallowInterior>>(&scene, 0, 2);
    assert_eq!(tree.get_bounds_instances().len(), 73);
    let covered = scene_over(cube(0, 3), vec![wall(cube(-1, 3))]);
    let tree = Octtree::build::<Neg<DisallowInterior>>(&covered, 0, 2);
    assert_eq!(tree.get_bounds_instances(), vec![cube(-1, 3)]);
}

#[test]
fn the_order_of_the_obstacles_does_not_change_the_tree() {
    let a = wall(cube(2, 3));
    let b = wall(block((-1, -1, -1), (0, 0, 0)));
    let c = door(cube(0, 3));
    let forward = scene_over(cube(0, 3), vec![a.clone(), b.clone(), c.clone()]);
    let backward = scene_over(cube(0, 3), vec![c, b, a]);
    let first = Octtree::build::<DisallowInterior>(&forward, 0, 3);
    let second = Octtree::build::<DisallowInterior>(&backward, 0, 3);
    assert_eq!(first.get_bounds_instances(), second.get_bounds_instances());
}

#[test]
fn building_a_tree_twice_gives_the_same_tree() {
    let scene = Scene::new(
        door(cube(0, 9)),
        vec![wall(block((0, 0, 0), (5, 3, 2))), wall(block((-2, 1, 1), (1, 2, 4)))],
    );
    let first = Octtree::build::<DisallowInterior>(&scene, 1, 4);
    let second = Octtree::build::<DisallowInterior>(&scene, 1, 4);
    assert_eq!(first.get_bounds_instances(), second.get_bounds_instances());
    assert!(first.get_bounds_instances().len() > 9);
}

#[test]
fn more_obstacles_only_split_further() {
    let a = wall(cube(2, 3));
    let b = wall(block((-1, -1, -1), (0, 0, 0)));
    let fewer = scene_over(cube(0, 3), vec![a.clone()]);
    let more = scene_over(cube(0, 3), vec![a, b]);
    let small = Octtree::build::<DisallowInterior>(&fewer, 0, 2).get_bounds_instances();
    let large = Octtree::build::<DisallowInterior>(&more, 0, 2).get_bounds_instances();
    assert_eq!(small.len(), 17);
    assert_eq!(large.len(), 25);
    for node in small.iter() {
        assert!(large.contains(node));
    }
}

#[test]
fn an_even_box_is_cut_into_halves() {
    let scene = scene_over(block((0, 0, 0), (3, 7, 15)), vec![wall(cube(50, 60))]);
    let tree = Octtree::build::<DisallowInterior>(&scene, 1, 1);
    let boxes = tree.get_bounds_instances();
    assert_eq!(boxes[0].dimensions(), Vector3::new(4, 8, 16));
    for octant in boxes[1..].iter() {
        assert_eq!(octant.dimensions(), Vector3::new(2, 4, 8));
        assert!(boxes[0].contains_point(&octant.min));
        assert!(boxes[0].contains_point(&octant.max));
    }
}

#[test]
fn the_root_lies_over_the_obstacles_wherever_they_are() {
    let scene = Scene::new(door(cube(0, 200)), vec![wall(cube(100, 103)), door(cube(0, 1))]);
    assert_eq!(scene.bounds, cube(100, 103));
    let tree = Octtree::build::<DisallowInterior>(&scene, 0, 0);
    assert_eq!(tree.get_bounds_instances(), vec![cube(99, 103)]);
    let tree = Octtree::build::<DisallowInterior>(&scene, 0, 1);
    let boxes = tree.get_bounds_instances();
    assert_eq!(boxes.len(), 9);
    assert_eq!(boxes[1], cube(99, 101));
    assert_eq!(boxes[8], cube(101, 103));
}

#[test]
fn an_obstacle_outside_a_leaf_leaves_it_a_leaf() {
    let outside = scene_over(cube(0, 3), vec![wall(cube(2, 3)), wall(cube(3, 9)), wall(cube(-7, -1))]);
    let alone = scene_over(cube(0, 3), vec![wall(cube(2, 3))]);
    for max_depth in 0..4 {
        let with = Octtree::build::<DisallowInterior>(&outside, 0, max_depth);
        let without = Octtree::build::<DisallowInterior>(&alone, 0, max_depth);
        assert_eq!(with.get_bounds_instances(), without.get_bounds_instances());
        let with = Octtree::build::<AllowInterior>(&outside, 0, max_depth);
        let without = Octtree::build::<AllowInterior>(&alone, 0, max_depth);
        assert_eq!(with.get_bounds_instances(), without.get_bounds_instances());
    }
}
