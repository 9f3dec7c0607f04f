use scenegraph::euler_order::EulerOrder;
use scenegraph::scene::{Object3D, Scene};

// An update pass over integer offsets, where composing adds; returns the plan.
fn pass(s: &mut Scene, i: usize, force: bool) -> Vec<usize> {
    let n = s.node_count();
    let locals: Vec<i64> = vec![1; n];
    let mut worlds: Vec<i64> = vec![0; n];
    s.update_matrix_world(i, force, &locals, &mut worlds, &|p: &i64, l: &i64| p + l)
}

fn scene_with(n: usize) -> Scene {
    let mut s = Scene::new();
    for _ in 0..n {
        s.next();
    }
    s
}

#[test]
fn fresh_node_defaults() {
    let o = Object3D::next();
    assert!(o.parent.is_none());
    assert!(o.children.is_empty());
    assert!(!o.matrix_world_needs_update);
    assert!(o.matrix_auto_update);
    assert!(o.visible);

    let mut s = Scene::new();
    assert_eq!(s.node_count(), 0);
    let a = s.next();
    let b = s.next();
    assert_eq!((a, b), (0, 1));
    assert_eq!(s.node_count(), 2);
    assert_eq!(s.parent(a), None);
    assert!(s.children(a).is_empty());
    assert!(s.visible(a));
    assert!(s.matrix_auto_update(a));
    assert!(!s.matrix_world_needs_update(a));
}

#[test]
fn add_moves_child_between_parents() {
    let mut s = scene_with(3);
    let (a, b, child) = (0, 1, 2);
    s.add(a, child);
    assert_eq!(s.children(a), vec![child]);
    assert_eq!(s.parent(child), Some(a));

    s.add(b, child);
    assert!(s.children(a).is_empty());
    assert_eq!(s.children(b), vec![child]);
    assert_eq!(s.parent(child), Some(b));
}

#[test]
fn add_again_moves_child_to_the_end() {
    let mut s = scene_with(4);
    s.add(0, 1);
    s.add(0, 2);
    s.add(0, 3);
    s.add(0, 1);
    assert_eq!(s.children(0), vec![2, 3, 1]);
    assert_eq!(s.parent(1), Some(0));
}

#[test]
fn remove_detaches_only_from_the_parent() {
    let mut s = scene_with(3);
    s.add(0, 1);
    s.add(0, 2);
    s.remove(2, 1);
    assert_eq!(s.children(0), vec![1, 2]);
    assert_eq!(s.parent(1), Some(0));

    s.remove(0, 1);
    assert_eq!(s.children(0), vec![2]);
    assert_eq!(s.parent(1), None);
    assert_eq!(s.parent(2), Some(0));
}

#[test]
fn subtree_membership() {
    let mut s = scene_with(4);
    s.add(0, 1);
    s.add(1, 2);
    assert!(s.is_in_subtree(2, 0));
    assert!(s.is_in_subtree(2, 1));
    assert!(s.is_in_subtree(1, 1));
    assert!(!s.is_in_subtree(0, 2));
    assert!(!s.is_in_subtree(3, 0));
}

#[test]
fn traversal_is_depth_first_preorder() {
    // 0 -> [1 -> [3, 4], 2 -> [5]]
    let mut s = scene_with(6);
    s.add(0, 1);
    s.add(0, 2);
    s.add(1, 3);
    s.add(1, 4);
    s.add(2, 5);
    assert_eq!(s.traverse(0), vec![0, 1, 3, 4, 2, 5]);
    assert_eq!(s.traverse(1), vec![1, 3, 4]);
    assert_eq!(s.traverse(5), vec![5]);
    // restartable: a second walk gives the same sequence
    assert_eq!(s.traverse(0), s.traverse(0));
}

#[test]
fn visible_traversal_skips_hidden_subtrees() {
    let mut s = scene_with(6);
    s.add(0, 1);
    s.add(0, 2);
    s.add(1, 3);
    s.add(1, 4);
    s.add(2, 5);
    s.set_visible(1, false);
    assert_eq!(s.traverse_visible(0), vec![0, 2, 5]);
    assert_eq!(s.traverse(0), vec![0, 1, 3, 4, 2, 5]);
    s.set_visible(0, false);
    assert!(s.traverse_visible(0).is_empty());
    assert!(!s.visible(0));
}

#[test]
fn ancestors_exclude_the_start_node() {
    let mut s = scene_with(4);
    s.add(0, 1);
    s.add(1, 2);
    s.add(2, 3);
    assert_eq!(s.traverse_ancestors(3), vec![2, 1, 0]);
    assert!(s.traverse_ancestors(0).is_empty());
}

#[test]
fn forced_update_recomputes_every_node_parent_first() {
    let mut s = scene_with(4);
    s.add(0, 1);
    s.add(1, 2);
    s.add(0, 3);
    for i in 0..4 {
        s.set_matrix_auto_update(i, false);
    }
    let plan = pass(&mut s, 0, true);
    assert_eq!(plan, vec![0, 1, 2, 3]);
    for i in 0..4 {
        assert!(!s.matrix_world_needs_update(i));
    }
}

#[test]
fn unforced_update_touches_only_stale_subtrees() {
    let mut s = scene_with(4);
    s.add(0, 1);
    s.add(1, 2);
    s.add(0, 3);
    for i in 0..4 {
        s.set_matrix_auto_update(i, false);
    }
    assert!(pass(&mut s, 0, false).is_empty());

    s.update_matrix(1);
    assert!(s.matrix_world_needs_update(1));
    let plan = pass(&mut s, 0, false);
    assert_eq!(plan, vec![1, 2]);
    assert!(!s.matrix_world_needs_update(1));
    assert!(pass(&mut s, 0, false).is_empty());
}

#[test]
fn auto_update_recomputes_on_every_pass() {
    let mut s = scene_with(3);
    s.add(0, 1);
    s.add(0, 2);
    s.set_matrix_auto_update(0, false);
    s.set_matrix_auto_update(1, false);
    // node 2 keeps recomposing its local matrix, so it is always stale
    assert_eq!(pass(&mut s, 0, false), vec![2]);
    assert_eq!(pass(&mut s, 0, false), vec![2]);
    // a fresh node updates itself and forces its subtree
    let mut t = scene_with(2);
    t.add(0, 1);
    t.set_matrix_auto_update(1, false);
    assert_eq!(pass(&mut t, 0, false), vec![0, 1]);
}

#[test]
fn child_is_updated_after_root() {
    let mut s = scene_with(2);
    s.add(0, 1);
    let plan = pass(&mut s, 0, true);
    assert_eq!(plan, vec![0, 1]);
    assert_eq!(s.parent(plan[1]), Some(plan[0]));
}

#[test]
fn euler_orders_are_distinct() {
    let all = [
        EulerOrder::XYZ,
        EulerOrder::YZX,
        EulerOrder::ZXY,
        EulerOrder::XZY,
        EulerOrder::YXZ,
        EulerOrder::ZYX,
    ];
    for (i, a) in all.iter().enumerate() {
        for (j, b) in all.iter().enumerate() {
            assert_eq!(i == j, a == b);
        }
    }
}

#[test]
fn get_parameter() {}
