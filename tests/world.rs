use scenegraph::scene::Scene;

type M4 = [f32; 16];

const IDENTITY: M4 = [
    1.0, 0.0, 0.0, 0.0, 0.0, 1.0, 0.0, 0.0, 0.0, 0.0, 1.0, 0.0, 0.0, 0.0, 0.0, 1.0,
];

fn translation(x: f32, y: f32, z: f32) -> M4 {
    let mut m = IDENTITY;
    m[12] = x;
    m[13] = y;
    m[14] = z;
    m
}

// column-major product a * b
fn multiply(a: &M4, b: &M4) -> M4 {
    let mut r = [0.0; 16];
    for col in 0..4 {
        for row in 0..4 {
            r[col * 4 + row] = (0..4).map(|k| a[k * 4 + row] * b[col * 4 + k]).sum();
        }
    }
    r
}

fn scene_with(n: usize) -> Scene {
    let mut s = Scene::new();
    for _ in 0..n {
        s.next();
    }
    s
}

#[test]
fn child_world_position_after_forced_update() {
    let mut s = scene_with(2);
    s.add(0, 1);
    let locals = vec![IDENTITY, translation(1.0, 0.0, 0.0)];
    let mut worlds = vec![IDENTITY; 2];
    s.update_matrix_world(0, true, &locals, &mut worlds, &|p: &M4, l: &M4| multiply(p, l));
    assert_eq!(&worlds[1][12..15], &[1.0, 0.0, 0.0]);
    assert_eq!(worlds[0], IDENTITY);
}

#[test]
fn world_values_compose_down_the_tree() {
    // 0 -> 1 -> 2, 0 -> 3; values are offsets and composing adds them
    let mut s = scene_with(4);
    s.add(0, 1);
    s.add(1, 2);
    s.add(0, 3);
    let locals: Vec<i64> = vec![5, 10, 100, 1000];
    let mut worlds: Vec<i64> = vec![0; 4];
    let plan = s.update_matrix_world(0, true, &locals, &mut worlds, &|p: &i64, l: &i64| p + l);
    assert_eq!(plan, vec![0, 1, 2, 3]);
    assert_eq!(worlds, vec![5, 15, 115, 1005]);
}

#[test]
fn unforced_world_update_keeps_clean_values() {
    let mut s = scene_with(3);
    s.add(0, 1);
    s.add(1, 2);
    for i in 0..3 {
        s.set_matrix_auto_update(i, false);
    }
    let locals: Vec<i64> = vec![1, 2, 3];
    let mut worlds: Vec<i64> = vec![-1, -1, -1];
    let plan = s.update_matrix_world(0, false, &locals, &mut worlds, &|p: &i64, l: &i64| p + l);
    assert!(plan.is_empty());
    assert_eq!(worlds, vec![-1, -1, -1]);

    // only the stale node and what lies under it are recomputed, from the
    // parent's value as it stands
    s.update_matrix(1);
    let plan = s.update_matrix_world(0, false, &locals, &mut worlds, &|p: &i64, l: &i64| p + l);
    assert_eq!(plan, vec![1, 2]);
    assert_eq!(worlds, vec![-1, 1, 4]);
}

#[test]
fn update_from_a_subtree_uses_the_outer_parent() {
    let mut s = scene_with(3);
    s.add(0, 1);
    s.add(1, 2);
    let locals: Vec<i64> = vec![7, 1, 1];
    let mut worlds: Vec<i64> = vec![50, 0, 0];
    s.update_matrix_world(1, true, &locals, &mut worlds, &|p: &i64, l: &i64| p + l);
    assert_eq!(worlds, vec![50, 51, 52]);
}

#[test]
fn unforced_pass_from_stale_root_recomputes_its_subtree() {
    let mut s = scene_with(3);
    s.add(0, 1);
    s.add(1, 2);
    for i in 0..3 {
        s.set_matrix_auto_update(i, false);
    }
    s.update_matrix(0);
    let locals: Vec<i64> = vec![3, 4, 5];
    let mut worlds: Vec<i64> = vec![0, 0, 0];
    let plan = s.update_matrix_world(0, false, &locals, &mut worlds, &|p: &i64, l: &i64| p + l);
    assert_eq!(plan, vec![0, 1, 2]);
    assert_eq!(worlds, vec![3, 7, 12]);
    assert!(!s.matrix_world_needs_update(0));
}
