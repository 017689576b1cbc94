use raytracer::aabb::{Aabb, Point3};
use raytracer::bvh::{BvhError, BvhNode, Link};
use raytracer::hitable::HitableList;

/// A stand-in primitive: its box, and the key at which a ray along the
/// line `y == LINE_Y, z == 0` hits it, if it does.
#[derive(Clone, Copy, Debug)]
struct Prim {
    bbox: Aabb,
    key: Option<u32>,
    id: usize,
}

fn prim(id: usize, x: u32, y: u32, key: Option<u32>) -> Prim {
    Prim {
        bbox: Aabb::new(Point3::new(x, y, 0), Point3::new(x + 2, y + 2, 0)),
        key,
        id,
    }
}

fn scene() -> Vec<Prim> {
    vec![
        prim(0, 50, 10, Some(50)),
        prim(1, 10, 10, Some(10)),
        prim(2, 30, 40, None),
        prim(3, 70, 10, Some(70)),
        prim(4, 20, 60, None),
        prim(5, 5, 80, None),
        prim(6, 90, 10, Some(90)),
    ]
}

fn leaf_hit(p: &Prim) -> Option<(u32, usize)> {
    p.key.map(|k| (k, p.id))
}

fn line_hits(b: Aabb) -> bool {
    b.min().y <= 11 && 11 <= b.max().y
}

fn some_box(p: &Prim) -> Option<Aabb> {
    Some(p.bbox)
}

#[test]
fn empty_list_is_refused() {
    let r = BvhNode::<Prim>::new(vec![], &some_box);
    assert!(matches!(r, Err(BvhError::Empty)));
}

#[test]
fn child_without_box_is_refused() {
    let r = BvhNode::new(scene(), &|p: &Prim| if p.id == 3 { None } else { Some(p.bbox) });
    assert!(matches!(r, Err(BvhError::MissingBoundingBox(3))));
}

#[test]
fn root_box_is_union_of_all_boxes() {
    let tree = BvhNode::new(scene(), &some_box).unwrap();
    let b = tree.bounding_box().unwrap();
    assert_eq!(b, Aabb::new(Point3::new(5, 10, 0), Point3::new(92, 82, 0)));
}

#[test]
fn single_primitive_tree_hits_it() {
    let tree = BvhNode::new(vec![prim(0, 1, 10, Some(42))], &some_box).unwrap();
    assert_eq!(tree.hit(&line_hits, &leaf_hit), Some((42, 0)));
    assert_eq!(tree.bounding_box().unwrap(), prim(0, 1, 10, None).bbox);
}

#[test]
fn tree_and_list_report_the_same_nearest_hit() {
    for _ in 0..20 {
        let tree = BvhNode::new(scene(), &some_box).unwrap();
        let list = HitableList::new(scene());
        let from_tree = tree.hit(&line_hits, &leaf_hit);
        let from_list = list.hit(&leaf_hit);
        assert_eq!(from_tree, Some((10, 1)));
        assert_eq!(from_tree.map(|h| h.0), from_list.map(|h| h.0));
    }
}

#[test]
fn tree_reports_no_hit_when_nothing_is_hit() {
    let prims = vec![prim(0, 1, 40, None), prim(1, 5, 60, None), prim(2, 9, 80, None)];
    let tree = BvhNode::new(prims.clone(), &some_box).unwrap();
    assert_eq!(tree.hit(&line_hits, &leaf_hit), None);
    assert_eq!(HitableList::new(prims).hit(&leaf_hit), None);
}

#[test]
fn tree_reaches_every_primitive() {
    let n = 33;
    for target in 0..n {
        let prims: Vec<Prim> = (0..n)
            .map(|i| prim(i, (i as u32) * 3, 10, if i == target { Some(5) } else { None }))
            .collect();
        let tree = BvhNode::new(prims, &some_box).unwrap();
        assert_eq!(tree.hit(&|_b: Aabb| true, &leaf_hit), Some((5, target)));
    }
}

#[test]
fn list_keeps_first_of_equal_hits() {
    let list = HitableList::new(vec![
        prim(0, 0, 10, Some(30)),
        prim(1, 0, 10, Some(20)),
        prim(2, 0, 10, Some(20)),
        prim(3, 0, 10, Some(25)),
    ]);
    assert_eq!(list.hit(&leaf_hit), Some((20, 1)));
}

#[test]
fn list_of_nothing_hits_nothing() {
    let list: HitableList<Prim> = HitableList::new(vec![]);
    assert_eq!(list.hit(&leaf_hit), None);
    assert_eq!(list.bounding_box(&some_box), None);
}

#[test]
fn list_box_is_union_of_children() {
    let list = HitableList::new(scene());
    assert_eq!(
        list.bounding_box(&some_box),
        Some(Aabb::new(Point3::new(5, 10, 0), Point3::new(92, 82, 0)))
    );
}

#[test]
fn list_box_is_none_when_a_child_has_none() {
    let list = HitableList::new(scene());
    let r = list.bounding_box(&|p: &Prim| if p.id == 6 { None } else { Some(p.bbox) });
    assert_eq!(r, None);
}

fn leaves(tree: &BvhNode<Prim>, l: Link, out: &mut Vec<usize>) {
    match l {
        Link::Leaf(i) => out.push(i),
        Link::Branch(b) => {
            leaves(tree, tree.branches[b].left, out);
            leaves(tree, tree.branches[b].right, out);
        }
    }
}

#[test]
fn branches_split_along_their_axis() {
    let prims: Vec<Prim> = (0..40)
        .map(|i| {
            let i32v = i as u32;
            Prim {
                bbox: Aabb::new(
                    Point3::new((i32v * 37) % 101, (i32v * 53) % 97, (i32v * 71) % 89),
                    Point3::new(200, 200, 200),
                ),
                key: None,
                id: i,
            }
        })
        .collect();
    let tree = BvhNode::new(prims, &some_box).unwrap();
    for br in tree.branches.iter() {
        assert!(br.axis < 3);
        let mut left = vec![];
        let mut right = vec![];
        leaves(&tree, br.left, &mut left);
        leaves(&tree, br.right, &mut right);
        let l_max = left.iter().map(|&i| tree.boxes[i].min().axis(br.axis)).max().unwrap();
        let r_min = right.iter().map(|&i| tree.boxes[i].min().axis(br.axis)).min().unwrap();
        assert!(l_max <= r_min);
        left.sort();
        left.dedup();
        right.sort();
        right.dedup();
        assert!(left.len() <= right.len() + 1 && right.len() <= left.len() + 1);
    }
    let mut all = vec![];
    leaves(&tree, tree.root, &mut all);
    all.sort();
    all.dedup();
    assert_eq!(all, (0..40).collect::<Vec<usize>>());
}
