use cgmath::{Matrix4, One, Vector3};
use valor_scene::{Handle, Scene, Transform};

#[derive(Clone, Copy, Debug, PartialEq)]
struct Mat(Matrix4<f32>);

impl Transform for Mat {
    type Vector = Vector3<f32>;

    fn identity() -> Self {
        Mat(Matrix4::one())
    }

    fn compose(&self, rhs: &Self) -> Self {
        Mat(self.0 * rhs.0)
    }

    fn from_translation(translation: Vector3<f32>) -> Self {
        Mat(Matrix4::from_translation(translation))
    }
}

fn translation(x: f32, y: f32, z: f32) -> Matrix4<f32> {
    Matrix4::from_translation(Vector3::new(x, y, z))
}

fn collect(scene: &Scene<&'static str, Mat>) -> Vec<(Handle, &'static str, Mat)> {
    let mut items = Vec::new();
    let mut traversal = scene.traverse();
    while let Some((handle, data, world)) = traversal.next() {
        items.push((handle, *data, world));
    }
    items
}

#[test]
fn root_and_one_translated_child() {
    let mut scene: Scene<&'static str, Mat> = Scene::new("root");
    let root = scene.get_root();
    let a = scene.create_node("a");
    scene.translate(a, Vector3::new(0.0, -0.2, -2.0));
    scene.add_child(root, a);

    let items = collect(&scene);
    assert_eq!(items.len(), 2);
    assert_eq!(items[0], (root, "root", Mat(Matrix4::one())));
    assert_eq!(items[1], (a, "a", Mat(translation(0.0, -0.2, -2.0))));
}

#[test]
fn translated_child_matrix_has_the_vector_in_its_last_column() {
    let mut scene: Scene<&'static str, Mat> = Scene::new("root");
    let root = scene.get_root();
    let a = scene.create_node("a");
    scene.translate(a, Vector3::new(0.0, -0.2, -2.0));
    scene.add_child(root, a);

    let items = collect(&scene);
    let columns: [[f32; 4]; 4] = (items[1].2).0.into();
    assert_eq!(
        columns,
        [
            [1.0, 0.0, 0.0, 0.0],
            [0.0, 1.0, 0.0, 0.0],
            [0.0, 0.0, 1.0, 0.0],
            [0.0, -0.2, -2.0, 1.0],
        ]
    );
}

#[test]
fn root_with_two_translated_children() {
    let mut scene: Scene<&'static str, Mat> = Scene::new("root");
    let root = scene.get_root();
    let a = scene.create_node("a");
    let b = scene.create_node("b");
    scene.translate(a, Vector3::new(1.0, 0.0, 0.0));
    scene.translate(b, Vector3::new(2.0, 0.0, 0.0));
    scene.add_child(root, a);
    scene.add_child(root, b);

    let items = collect(&scene);
    assert_eq!(items.len(), 3);
    assert_eq!(items[0], (root, "root", Mat(Matrix4::one())));
    // The child that was added last is handed out first.
    assert_eq!(items[1], (b, "b", Mat(translation(2.0, 0.0, 0.0))));
    assert_eq!(items[2], (a, "a", Mat(translation(1.0, 0.0, 0.0))));
}

#[test]
fn identity_everywhere_gives_identity_everywhere() {
    let mut scene: Scene<&'static str, Mat> = Scene::new("root");
    let root = scene.get_root();
    let a = scene.create_node("a");
    let b = scene.create_node("b");
    let c = scene.create_node("c");
    let d = scene.create_node("d");
    scene.add_child(root, a);
    scene.add_child(root, b);
    scene.add_child(a, c);
    scene.add_child(c, d);

    let items = collect(&scene);
    assert_eq!(items.len(), 5);
    for item in items.iter() {
        assert_eq!(item.2, Mat(Matrix4::one()));
    }
}

#[test]
fn chain_composes_from_the_root_down_to_the_leaf() {
    let mut scene: Scene<&'static str, Mat> = Scene::new("root");
    let root = scene.get_root();
    let a = scene.create_node("a");
    let b = scene.create_node("b");
    let c = scene.create_node("c");
    scene.translate(root, Vector3::new(0.5, 0.0, -1.0));
    scene.translate(a, Vector3::new(1.5, -0.25, 3.0));
    scene.translate(b, Vector3::new(-4.0, 2.0, 0.125));
    scene.translate(c, Vector3::new(0.0, 8.0, -0.5));
    scene.add_child(root, a);
    scene.add_child(a, b);
    scene.add_child(b, c);

    let lr = translation(0.5, 0.0, -1.0);
    let la = translation(1.5, -0.25, 3.0);
    let lb = translation(-4.0, 2.0, 0.125);
    let lc = translation(0.0, 8.0, -0.5);

    let items = collect(&scene);
    assert_eq!(items.len(), 4);
    assert_eq!(items[0], (root, "root", Mat(lr)));
    assert_eq!(items[1], (a, "a", Mat(lr * la)));
    assert_eq!(items[2], (b, "b", Mat(lr * la * lb)));
    assert_eq!(items[3], (c, "c", Mat(lr * la * lb * lc)));
    assert_eq!((items[3].2).0, translation(-2.0, 9.75, 1.625));
}

#[test]
fn translate_twice_composes_on_the_right() {
    let mut scene: Scene<&'static str, Mat> = Scene::new("root");
    let root = scene.get_root();
    scene.translate(root, Vector3::new(1.0, 2.0, 3.0));
    scene.translate(root, Vector3::new(10.0, 20.0, 30.0));

    let node = scene.get(root).unwrap();
    assert_eq!(
        node.transform,
        Mat(Matrix4::one() * translation(1.0, 2.0, 3.0) * translation(10.0, 20.0, 30.0))
    );
    assert_eq!(node.transform, Mat(translation(11.0, 22.0, 33.0)));
}

#[test]
fn siblings_do_not_inherit_from_each_other() {
    let mut scene: Scene<&'static str, Mat> = Scene::new("root");
    let root = scene.get_root();
    let a = scene.create_node("a");
    let a1 = scene.create_node("a1");
    let b = scene.create_node("b");
    scene.translate(root, Vector3::new(0.0, 0.0, 1.0));
    scene.translate(a, Vector3::new(1.0, 0.0, 0.0));
    scene.translate(a1, Vector3::new(0.0, 1.0, 0.0));
    scene.translate(b, Vector3::new(2.0, 0.0, 0.0));
    scene.add_child(root, b);
    scene.add_child(root, a);
    scene.add_child(a, a1);

    let items = collect(&scene);
    assert_eq!(items.len(), 4);
    assert_eq!(items[0], (root, "root", Mat(translation(0.0, 0.0, 1.0))));
    assert_eq!(items[1], (a, "a", Mat(translation(1.0, 0.0, 1.0))));
    assert_eq!(items[2], (a1, "a1", Mat(translation(1.0, 1.0, 1.0))));
    // Back up from `a`: `b` is below the root alone.
    assert_eq!(items[3], (b, "b", Mat(translation(2.0, 0.0, 1.0))));
}

#[test]
fn get_transform_agrees_with_the_traversal() {
    let mut scene: Scene<&'static str, Mat> = Scene::new("root");
    let root = scene.get_root();
    let a = scene.create_node("a");
    let b = scene.create_node("b");
    scene.translate(root, Vector3::new(0.5, 0.0, -1.0));
    scene.translate(a, Vector3::new(1.5, -0.25, 3.0));
    scene.translate(b, Vector3::new(-4.0, 2.0, 0.125));
    scene.add_child(root, a);
    scene.add_child(a, b);

    let items = collect(&scene);
    assert_eq!(scene.get_transform(&vec![root]), Some(items[0].2));
    assert_eq!(scene.get_transform(&vec![root, a]), Some(items[1].2));
    assert_eq!(scene.get_transform(&vec![root, a, b]), Some(items[2].2));
    assert_eq!(scene.get_transform(&vec![]), Some(Mat(Matrix4::one())));
}
