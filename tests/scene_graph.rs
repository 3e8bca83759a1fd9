use raymarcher::scene::{
    construct_cuboid, construct_sphere, view_from, Axis, Checkers, Coloring, Intersection, Node,
    Plane, Rotation, Scale, Scene, SceneError, Translation, Union, UnitCube, UnitSphere,
};

#[test]
fn add_returns_consecutive_ids() {
    let mut scene: Scene<f32> = Scene::new();
    assert_eq!(scene.add(Node::Sphere(UnitSphere)), Ok(0));
    assert_eq!(scene.add(Node::Cube(UnitCube)), Ok(1));
    assert_eq!(scene.add(Node::Plane(Plane::new(-10.0))), Ok(2));
    assert_eq!(scene.len(), 3);
    assert!(scene.is_root(0) && scene.is_root(1) && scene.is_root(2));
}

#[test]
fn union_owns_its_objects() {
    let mut scene: Scene<f32> = Scene::new();
    scene.add(Node::Sphere(UnitSphere)).unwrap();
    scene.add(Node::Cube(UnitCube)).unwrap();
    let u = scene.add(Node::Union(Union { objects: vec![0, 1] })).unwrap();
    assert_eq!(u, 2);
    assert!(!scene.is_root(0));
    assert!(!scene.is_root(1));
    assert!(scene.is_root(2));
    assert_eq!(scene.node(2).child_ids(), vec![0, 1]);
}

#[test]
fn unknown_child_is_refused() {
    let mut scene: Scene<f32> = Scene::new();
    scene.add(Node::Sphere(UnitSphere)).unwrap();
    let r = scene.add(Node::Translation(Translation::new(5, (1.0, 2.0, 3.0))));
    assert_eq!(r, Err(SceneError::UnknownNode(5)));
    assert_eq!(scene.len(), 1);
    assert!(scene.is_root(0));
}

#[test]
fn owned_child_is_refused() {
    let mut scene: Scene<f32> = Scene::new();
    scene.add(Node::Sphere(UnitSphere)).unwrap();
    scene.add(Node::Coloring(Coloring::new(0, (1.0, 0.0, 0.0)))).unwrap();
    let r = scene.add(Node::Scale(Scale::new(0, (2.0, 2.0, 2.0))));
    assert_eq!(r, Err(SceneError::SharedNode(0)));
    assert_eq!(scene.len(), 2);
}

#[test]
fn child_named_twice_is_refused() {
    let mut scene: Scene<f32> = Scene::new();
    scene.add(Node::Sphere(UnitSphere)).unwrap();
    scene.add(Node::Cube(UnitCube)).unwrap();
    let r = scene.add(Node::Union(Union { objects: vec![1, 0, 1] }));
    assert_eq!(r, Err(SceneError::SharedNode(1)));
    assert!(scene.is_root(0) && scene.is_root(1));
    assert_eq!(scene.len(), 2);
}

#[test]
fn empty_intersection_is_refused() {
    let mut scene: Scene<f32> = Scene::new();
    let r = scene.add(Node::Intersection(Intersection { objects: vec![] }));
    assert_eq!(r, Err(SceneError::EmptyIntersection));
    assert_eq!(scene.len(), 0);
}

#[test]
fn empty_union_is_accepted() {
    let mut scene: Scene<f32> = Scene::new();
    assert_eq!(scene.add(Node::Union(Union { objects: vec![] })), Ok(0));
}

#[test]
fn cuboid_is_cube_scaled_then_translated() {
    let mut scene: Scene<f32> = Scene::new();
    let id = construct_cuboid(&mut scene, (1.0, -2.0, 5.0), (0.5, 0.5, 0.5));
    assert_eq!(id, 2);
    assert!(matches!(scene.node(0), Node::Cube(UnitCube)));
    match scene.node(1) {
        Node::Scale(s) => {
            assert_eq!(s.inner, 0);
            assert_eq!(s.scaling, (0.5, 0.5, 0.5));
        }
        other => panic!("expected a scale, found {:?}", other),
    }
    match scene.node(2) {
        Node::Translation(t) => {
            assert_eq!(t.inner, 1);
            assert_eq!(t.at, (1.0, -2.0, 5.0));
        }
        other => panic!("expected a translation, found {:?}", other),
    }
    assert!(scene.is_root(2));
    assert!(!scene.is_root(0) && !scene.is_root(1));
}

#[test]
fn sphere_is_scaled_evenly_by_its_radius() {
    let mut scene: Scene<f32> = Scene::new();
    scene.add(Node::Plane(Plane::new(10.0))).unwrap();
    let id = construct_sphere(&mut scene, (-4.0, 0.0, 7.0), 3.0);
    assert_eq!(id, 3);
    assert!(matches!(scene.node(1), Node::Sphere(UnitSphere)));
    match scene.node(2) {
        Node::Scale(s) => {
            assert_eq!(s.inner, 1);
            assert_eq!(s.scaling, (3.0, 3.0, 3.0));
        }
        other => panic!("expected a scale, found {:?}", other),
    }
    match scene.node(3) {
        Node::Translation(t) => assert_eq!((t.inner, t.at), (2, (-4.0, 0.0, 7.0))),
        other => panic!("expected a translation, found {:?}", other),
    }
    assert!(scene.is_root(0));
}

#[test]
fn camera_wraps_world_in_translation_then_two_rotations() {
    let mut scene: Scene<f32> = Scene::new();
    let world = scene.add(Node::Sphere(UnitSphere)).unwrap();
    let view = view_from(&mut scene, world, (0.5, 1.5, -2.0), 0.25, -0.75).unwrap();
    assert_eq!(view, 3);
    match scene.node(1) {
        Node::Translation(t) => assert_eq!((t.inner, t.at), (0, (0.5, 1.5, -2.0))),
        other => panic!("expected a translation, found {:?}", other),
    }
    match scene.node(2) {
        Node::Rotation(r) => assert_eq!((r.inner, r.around, r.angle), (1, Axis::Y, 0.25)),
        other => panic!("expected a rotation, found {:?}", other),
    }
    match scene.node(3) {
        Node::Rotation(r) => assert_eq!((r.inner, r.around, r.angle), (2, Axis::X, -0.75)),
        other => panic!("expected a rotation, found {:?}", other),
    }
    assert!(scene.is_root(3));
    assert!(!scene.is_root(0));
}

#[test]
fn camera_needs_a_root() {
    let mut scene: Scene<f32> = Scene::new();
    scene.add(Node::Sphere(UnitSphere)).unwrap();
    scene.add(Node::Checkers(Checkers::new(0, (1.0, 1.0, 1.0), (0.0, 0.0, 0.0)))).unwrap();
    assert_eq!(view_from(&mut scene, 0, (0.0, 0.0, 0.0), 0.0, 0.0), Err(SceneError::SharedNode(0)));
    assert_eq!(view_from(&mut scene, 7, (0.0, 0.0, 0.0), 0.0, 0.0), Err(SceneError::UnknownNode(7)));
    assert_eq!(scene.len(), 2);
}

#[test]
fn removing_camera_nodes_restores_the_world() {
    let mut scene: Scene<f32> = Scene::new();
    let world = scene.add(Node::Cube(UnitCube)).unwrap();
    view_from(&mut scene, world, (1.0, 2.0, 3.0), 0.1, 0.2).unwrap();
    assert!(!scene.is_root(world));
    for _ in 0..3 {
        assert!(scene.remove_last().is_some());
    }
    assert_eq!(scene.len(), 1);
    assert!(scene.is_root(world));
    assert!(scene.remove_last().is_some());
    assert!(scene.remove_last().is_none());
}

#[test]
fn owned_last_node_is_not_removed() {
    let mut scene: Scene<f32> = Scene::new();
    scene.add(Node::Sphere(UnitSphere)).unwrap();
    scene.add(Node::Rotation(Rotation::new(0, Axis::Z, 1.0))).unwrap();
    assert!(scene.remove_last().is_some());
    assert_eq!(scene.len(), 1);
    assert!(scene.is_root(0));
}
