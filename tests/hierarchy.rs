use spherical_core::{Hierarchy, HierarchyError};

type Quat = [f32; 4];

#[derive(Clone, Copy, Debug, PartialEq)]
struct Pair {
    left: Quat,
    right: Quat,
}

fn qmul(a: Quat, b: Quat) -> Quat {
    let [ax, ay, az, aw] = a;
    let [bx, by, bz, bw] = b;
    [
        aw * bx + ax * bw + ay * bz - az * by,
        aw * by - ax * bz + ay * bw + az * bx,
        aw * bz + ax * by - ay * bx + az * bw,
        aw * bw - ax * bx - ay * by - az * bz,
    ]
}

fn compose(a: &Pair, b: &Pair) -> Pair {
    Pair { left: qmul(a.left, b.left), right: qmul(b.right, a.right) }
}

fn action(a: &Pair, v: Quat) -> Quat {
    qmul(qmul(a.left, v), a.right)
}

const IDENTITY: Pair = Pair { left: [0.0, 0.0, 0.0, 1.0], right: [0.0, 0.0, 0.0, 1.0] };
const POLE: Quat = [0.0, 0.0, 0.0, 1.0];

fn rotation_z(angle: f32) -> Pair {
    let (s, c) = (angle / 2.0).sin_cos();
    Pair { left: [0.0, 0.0, s, c], right: [0.0, 0.0, -s, c] }
}

fn translation_x(d: f32) -> Pair {
    let (s, c) = (d / 2.0).sin_cos();
    let q = [s, 0.0, 0.0, c];
    Pair { left: q, right: q }
}

fn close(a: Quat, b: Quat) -> bool {
    a.iter().zip(b.iter()).all(|(x, y)| (x - y).abs() < 1e-5)
}

#[test]
fn propagation_composes_down_the_tree() {
    let h = Hierarchy { parents: vec![None, Some(0), Some(1)] };
    let root = rotation_z(std::f32::consts::FRAC_PI_2);
    let child = translation_x(0.1);
    let locals = vec![root, child, IDENTITY];
    let mut globals = vec![IDENTITY; 3];
    let r = h.propagate(&locals, &mut globals, |l: &Pair| *l, |g: &Pair, l: &Pair| compose(g, l));
    assert_eq!(r, Ok(()));
    assert_eq!(globals[0], root);
    assert_eq!(globals[2], compose(&compose(&root, &child), &IDENTITY));
    let expected = action(&root, action(&child, POLE));
    assert!(close(action(&globals[2], POLE), expected));
    // The pole moves by 0.1 along x, then turns a quarter about z.
    assert!(close(expected, [0.0, 0.1f32.sin(), 0.0, 0.1f32.cos()]));
}

#[test]
fn children_listed_before_parents_still_propagate() {
    let h = Hierarchy { parents: vec![Some(1), Some(2), None] };
    let locals: Vec<u64> = vec![3, 5, 7];
    let mut globals: Vec<u64> = vec![0; 3];
    let r = h.propagate(&locals, &mut globals, |l: &u64| *l, |g: &u64, l: &u64| g * 10 + l);
    assert_eq!(r, Ok(()));
    assert_eq!(globals, vec![753, 75, 7]);
}

#[test]
fn dangling_parent_is_a_root() {
    let h = Hierarchy { parents: vec![Some(7), Some(0)] };
    assert!(h.has_dangling_parent(0));
    assert!(!h.has_dangling_parent(1));
    assert_eq!(h.parent(0), None);
    assert_eq!(h.parent(1), Some(0));
    let locals: Vec<u64> = vec![4, 2];
    let mut globals: Vec<u64> = vec![0, 0];
    let r = h.propagate(&locals, &mut globals, |l: &u64| *l, |g: &u64, l: &u64| g * 10 + l);
    assert_eq!(r, Ok(()));
    assert_eq!(globals[0], locals[0]);
    assert_eq!(globals[1], 42);
}

#[test]
fn mutual_parents_are_cyclic_and_nothing_is_written() {
    let h = Hierarchy { parents: vec![Some(1), Some(0), None] };
    let locals: Vec<u64> = vec![1, 2, 3];
    let mut globals: Vec<u64> = vec![9, 9, 9];
    let r = h.propagate(&locals, &mut globals, |l: &u64| *l, |g: &u64, l: &u64| g + l);
    match r {
        Err(HierarchyError::CyclicHierarchy { entity }) => assert!(entity == 0 || entity == 1),
        Ok(()) => panic!("a loop must fail the pass"),
    }
    assert_eq!(globals, vec![9, 9, 9]);
}

#[test]
fn self_parent_is_cyclic() {
    let h = Hierarchy { parents: vec![None, Some(1)] };
    assert_eq!(h.propagation_order(), Err(HierarchyError::CyclicHierarchy { entity: 1 }));
}

#[test]
fn propagation_order_puts_parents_first() {
    let h = Hierarchy { parents: vec![Some(2), None, Some(1), Some(0)] };
    assert_eq!(h.len(), 4);
    let order = h.propagation_order().unwrap();
    assert_eq!(order, vec![1, 2, 0, 3]);
}

#[test]
fn empty_hierarchy_has_empty_order() {
    let h = Hierarchy { parents: vec![] };
    assert_eq!(h.propagation_order(), Ok(vec![]));
}
