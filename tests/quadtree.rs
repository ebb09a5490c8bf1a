use quadtree::{next_visit, Bounds, Quadtree, QuadtreeError, QuadtreeNode, Visit};

fn square(x0: i64, y0: i64, x1: i64, y1: i64) -> Bounds {
    Bounds { x0, y0, x1, y1 }
}

fn leaves(t: &Quadtree) -> Vec<Visit> {
    t.visit().into_iter().filter(|v| v.points > 0).collect()
}

#[test]
fn new_tree_is_empty() {
    let t = Quadtree::new();
    assert_eq!(t.bounds(), None);
    assert!(t.visit().is_empty());
    assert_eq!(t.count_at(0, 0), 0);
}

#[test]
fn init_node_has_four_empty_quadrants() {
    match QuadtreeNode::init_node() {
        QuadtreeNode::Internal(a, b, c, d) => {
            assert!(matches!(*a, QuadtreeNode::Empty));
            assert!(matches!(*b, QuadtreeNode::Empty));
            assert!(matches!(*c, QuadtreeNode::Empty));
            assert!(matches!(*d, QuadtreeNode::Empty));
        }
        _ => panic!("expected an internal node"),
    }
}

#[test]
fn first_cover_sets_unit_square() {
    let mut t = Quadtree::new();
    t.cover(3, -2);
    assert_eq!(t.bounds(), Some(square(3, -2, 4, -1)));
}

#[test]
fn cover_grows_right_and_down() {
    let mut t = Quadtree::new();
    t.cover(0, 0);
    t.cover(5, 5);
    assert_eq!(t.bounds(), Some(square(0, 0, 8, 8)));
}

#[test]
fn cover_grows_left_and_up() {
    let mut t = Quadtree::new();
    t.cover(0, 0);
    t.cover(-3, -3);
    assert_eq!(t.bounds(), Some(square(-3, -3, 1, 1)));
}

#[test]
fn cover_grows_left_and_down() {
    let mut t = Quadtree::new();
    t.cover(0, 0);
    t.cover(-1, 1);
    assert_eq!(t.bounds(), Some(square(-1, 0, 1, 2)));
}

#[test]
fn cover_inside_bounds_changes_nothing() {
    let mut t = Quadtree::new();
    t.cover(0, 0);
    t.cover(5, 5);
    t.cover(3, 7);
    assert_eq!(t.bounds(), Some(square(0, 0, 8, 8)));
    t.cover(0, 0);
    assert_eq!(t.bounds(), Some(square(0, 0, 8, 8)));
}

#[test]
fn bounds_stay_square() {
    let mut t = Quadtree::new();
    for (x, y) in [(0, 0), (100, -3), (-70, 5), (9, 900)] {
        t.cover(x, y);
        let b = t.bounds().unwrap();
        assert_eq!(b.x1 - b.x0, b.y1 - b.y0);
        assert!(b.x0 <= x as i64 && (x as i64) < b.x1);
        assert!(b.y0 <= y as i64 && (y as i64) < b.y1);
    }
}

#[test]
fn add_without_bounds_is_refused() {
    let mut t = Quadtree::new();
    assert_eq!(t.add(1, 1), Err(QuadtreeError::OutOfBounds));
    assert_eq!(t.count_at(1, 1), 0);
}

#[test]
fn add_outside_bounds_is_refused() {
    let mut t = Quadtree::new();
    t.cover(0, 0);
    assert_eq!(t.add(1, 0), Err(QuadtreeError::OutOfBounds));
    assert_eq!(t.add(0, 0), Ok(()));
    assert_eq!(t.count_at(0, 0), 1);
}

#[test]
fn batch_of_two_points() {
    let mut t = Quadtree::new();
    assert_eq!(t.add_all(&vec![0, 10], &vec![0, 10]), Ok(()));
    let b = t.bounds().unwrap();
    assert_eq!(b, square(0, 0, 16, 16));
    assert_eq!(t.count_at(0, 0), 1);
    assert_eq!(t.count_at(10, 10), 1);
    let visits = t.visit();
    assert_eq!(visits[0], Visit { bounds: b, points: 0, x: 0, y: 0 });
    let found = leaves(&t);
    assert_eq!(found.len(), 2);
    assert!(found.iter().any(|v| v.x == 0 && v.y == 0 && v.points == 1));
    assert!(found.iter().any(|v| v.x == 10 && v.y == 10 && v.points == 1));
}

#[test]
fn empty_batch_is_a_no_op() {
    let mut t = Quadtree::new();
    assert_eq!(t.add_all(&vec![], &vec![]), Ok(()));
    assert_eq!(t.bounds(), None);
    assert!(t.visit().is_empty());
}

#[test]
fn mismatched_batch_is_refused() {
    let mut t = Quadtree::new();
    assert_eq!(t.add_all(&vec![1, 2], &vec![1]), Err(QuadtreeError::InvalidArgument));
    assert_eq!(t.bounds(), None);
    assert_eq!(t.count_at(1, 1), 0);
}

#[test]
fn coincident_points_share_one_leaf() {
    let mut t = Quadtree::new();
    assert_eq!(t.add_all(&vec![5, 5], &vec![5, 5]), Ok(()));
    assert_eq!(t.count_at(5, 5), 2);
    let found = leaves(&t);
    assert_eq!(found.len(), 1);
    assert_eq!((found[0].x, found[0].y, found[0].points), (5, 5, 2));
}

#[test]
fn close_points_get_separate_leaves() {
    let mut t = Quadtree::new();
    let xs = vec![100_000_000, 100_000_001];
    let ys = vec![100_000_000, 100_000_000];
    assert_eq!(t.add_all(&xs, &ys), Ok(()));
    let found = leaves(&t);
    assert_eq!(found.len(), 2);
    assert!(found.iter().any(|v| v.x == 100_000_000 && v.points == 1));
    assert!(found.iter().any(|v| v.x == 100_000_001 && v.points == 1));
    for v in &found {
        assert_eq!(v.bounds.x1 - v.bounds.x0, 1);
    }
}

#[test]
fn points_stay_inside_bounds_after_each_add() {
    let mut t = Quadtree::new();
    let pts = [(3, 4), (-20, 7), (50, -60), (3, 4), (0, 0), (-1, -1)];
    for (x, y) in pts {
        t.cover(x, y);
        assert_eq!(t.add(x, y), Ok(()));
        let b = t.bounds().unwrap();
        for v in leaves(&t) {
            assert!(b.x0 <= v.x as i64 && (v.x as i64) < b.x1);
            assert!(b.y0 <= v.y as i64 && (v.y as i64) < b.y1);
            assert!(v.bounds.x0 <= v.x as i64 && (v.x as i64) < v.bounds.x1);
            assert!(v.bounds.y0 <= v.y as i64 && (v.y as i64) < v.bounds.y1);
        }
    }
    assert_eq!(t.count_at(3, 4), 2);
    assert_eq!(t.count_at(-20, 7), 1);
    assert_eq!(t.count_at(50, -60), 1);
    assert_eq!(leaves(&t).len(), 5);
}

#[test]
fn growth_keeps_internal_structure() {
    let mut t = Quadtree::new();
    assert_eq!(t.add_all(&vec![0, 1], &vec![0, 1]), Ok(()));
    assert_eq!(t.bounds(), Some(square(0, 0, 2, 2)));
    t.cover(-5, -5);
    let b = t.bounds().unwrap();
    assert_eq!(b, square(-6, -6, 2, 2));
    assert_eq!(t.count_at(0, 0), 1);
    assert_eq!(t.count_at(1, 1), 1);
    assert_eq!(t.add(-5, -5), Ok(()));
    assert_eq!(leaves(&t).len(), 3);
    assert_eq!(t.visit()[0].bounds, b);
}

#[test]
fn leaf_root_stays_root_when_bounds_grow() {
    let mut t = Quadtree::new();
    t.cover(0, 0);
    assert_eq!(t.add(0, 0), Ok(()));
    t.cover(10, 10);
    let visits = t.visit();
    assert_eq!(visits.len(), 1);
    assert_eq!(visits[0], Visit { bounds: square(0, 0, 16, 16), points: 1, x: 0, y: 0 });
}

#[test]
fn extent_covers_both_corners() {
    let mut t = Quadtree::new();
    t.extent([[0, 0], [10, 10]]);
    assert_eq!(t.bounds(), Some(square(0, 0, 16, 16)));
}

#[test]
fn extreme_coordinates() {
    let mut t = Quadtree::new();
    let xs = vec![i32::MIN, i32::MAX];
    let ys = vec![i32::MIN, i32::MAX];
    assert_eq!(t.add_all(&xs, &ys), Ok(()));
    assert_eq!(t.bounds(), Some(square(-2147483648, -2147483648, 2147483648, 2147483648)));
    assert_eq!(t.count_at(i32::MIN, i32::MIN), 1);
    assert_eq!(t.count_at(i32::MAX, i32::MAX), 1);
    t.cover(i32::MIN, i32::MAX);
    t.cover(i32::MAX, i32::MIN);
    assert_eq!(t.add(i32::MAX, i32::MIN), Ok(()));
    assert_eq!(leaves(&t).len(), 3);
}

#[test]
fn skipping_an_internal_node_passes_over_its_quadrants() {
    let mut t = Quadtree::new();
    assert_eq!(t.add_all(&vec![0, 1, 7], &vec![0, 1, 7]), Ok(()));
    let visits = t.visit();
    // root, two nested internal top-left quadrants, the leaves (0, 0) and (1, 1),
    // then the leaf (7, 7)
    assert_eq!(visits.len(), 6);
    assert_eq!(visits[1].points, 0);
    assert_eq!(visits[1].bounds, square(0, 0, 4, 4));
    assert_eq!(next_visit(&visits, 0, false), 1);
    assert_eq!(next_visit(&visits, 1, true), 5);
    assert_eq!((visits[5].x, visits[5].y), (7, 7));
    assert_eq!(next_visit(&visits, 1, false), 2);
    assert_eq!(next_visit(&visits, 3, true), 4);
    assert_eq!(next_visit(&visits, 0, true), 6);
}

#[test]
fn growth_wraps_internal_root_once_per_doubling() {
    let mut t = Quadtree::new();
    assert_eq!(t.add_all(&vec![0, 1], &vec![0, 1]), Ok(()));
    t.cover(-5, -5);
    let visits = t.visit();
    let bounds: Vec<Bounds> = visits.iter().map(|v| v.bounds).collect();
    assert_eq!(
        bounds,
        vec![
            square(-6, -6, 2, 2),
            square(-2, -2, 2, 2),
            square(0, 0, 2, 2),
            square(0, 0, 1, 1),
            square(1, 1, 2, 2),
        ]
    );
    let points: Vec<usize> = visits.iter().map(|v| v.points).collect();
    assert_eq!(points, vec![0, 0, 0, 1, 1]);
}

#[test]
fn covering_a_covered_point_keeps_the_tree() {
    let mut t = Quadtree::new();
    assert_eq!(t.add_all(&vec![0, 10, 5, 5], &vec![0, 10, 5, 5]), Ok(()));
    let before = t.visit();
    let bounds = t.bounds();
    t.cover(3, 12);
    t.cover(3, 12);
    t.extent([[0, 0], [15, 15]]);
    assert_eq!(t.bounds(), bounds);
    assert_eq!(t.visit(), before);
}
