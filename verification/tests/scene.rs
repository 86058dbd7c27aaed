use valor_scene::{Handle, Node, NodeEntry, Pool, Scene, Transform};

/// A transform that spells out how it was composed.
#[derive(Clone, Debug, PartialEq)]
struct Word(String);

impl Transform for Word {
    type Vector = &'static str;

    fn identity() -> Self {
        Word(String::new())
    }

    fn compose(&self, rhs: &Self) -> Self {
        Word(format!("{}{}", self.0, rhs.0))
    }

    fn from_translation(translation: &'static str) -> Self {
        Word(translation.to_string())
    }
}

fn snapshot(scene: &Scene<u32, Word>, handles: &[Handle]) -> Vec<Option<(u32, Vec<Handle>, Word)>> {
    handles
        .iter()
        .map(|h| scene.get(*h).map(|n| (n.data, n.children.clone(), n.transform.clone())))
        .collect()
}

#[test]
fn handle_is_made_of_its_two_parts() {
    let handle = Handle::from_raw_parts(3, 9);
    assert_eq!(handle.into_raw_parts(), (3, 9));
    assert_eq!(handle, Handle::from_raw_parts(3, 9));
    assert_ne!(handle, Handle::from_raw_parts(3, 8));
    assert_ne!(handle, Handle::from_raw_parts(4, 9));
    let copy = handle;
    assert_eq!(copy, handle);
}

#[test]
fn pool_starts_empty() {
    let pool: Pool<u32> = Pool::new();
    assert!(pool.get(Handle::from_raw_parts(0, 0)).is_none());
    assert!(pool.get(Handle::from_raw_parts(1, 0)).is_none());
}

#[test]
fn pool_finds_what_was_inserted() {
    let mut pool: Pool<&'static str> = Pool::new();
    let a = pool.insert("a");
    let b = pool.insert("b");
    let c = pool.insert("c");
    assert_ne!(a, b);
    assert_ne!(a, c);
    assert_ne!(b, c);
    assert_eq!(pool.get(a), Some(&"a"));
    assert_eq!(pool.get(b), Some(&"b"));
    assert_eq!(pool.get(c), Some(&"c"));
}

#[test]
fn pool_grows_beyond_its_first_allotment() {
    let mut pool: Pool<usize> = Pool::new();
    let handles: Vec<Handle> = (0..100).map(|i| pool.insert(i * 10)).collect();
    for (i, handle) in handles.iter().enumerate() {
        assert_eq!(pool.get(*handle), Some(&(i * 10)));
    }
    for i in 0..handles.len() {
        for j in 0..i {
            assert_ne!(handles[i], handles[j]);
        }
    }
}

#[test]
fn pool_handle_of_another_generation_does_not_resolve() {
    let mut pool: Pool<u32> = Pool::new();
    let a = pool.insert(5);
    let (slot, generation) = a.into_raw_parts();
    assert_eq!(pool.get(Handle::from_raw_parts(slot, generation)), Some(&5));
    assert!(pool.get(Handle::from_raw_parts(slot, generation + 1)).is_none());
    assert!(pool.get(Handle::from_raw_parts(slot + 1, generation)).is_none());
    assert!(pool.get_mut(Handle::from_raw_parts(slot, generation + 1)).is_none());
    assert!(pool.get_mut(Handle::from_raw_parts(usize::MAX, u64::MAX)).is_none());
}

#[test]
fn pool_get_mut_changes_one_value() {
    let mut pool: Pool<u32> = Pool::new();
    let a = pool.insert(1);
    let b = pool.insert(2);
    *pool.get_mut(a).unwrap() = 10;
    assert_eq!(pool.get(a), Some(&10));
    assert_eq!(pool.get(b), Some(&2));
    *pool.get_mut(b).unwrap() += 5;
    assert_eq!(pool.get(a), Some(&10));
    assert_eq!(pool.get(b), Some(&7));
}

#[test]
fn node_starts_without_children_and_untransformed() {
    let node: Node<u32, Word> = Node::new(4);
    assert_eq!(node.data, 4);
    assert!(node.children.is_empty());
    assert_eq!(node.transform, Word(String::new()));
}

#[test]
fn empty_node_carries_nothing() {
    let node: Node<NodeEntry<u32>, Word> = Node::empty();
    assert!(matches!(node.data, NodeEntry::Empty));
    assert!(node.children.is_empty());
    assert_eq!(node.transform, Word(String::new()));
    let model: Node<NodeEntry<u32>, Word> = Node::new(NodeEntry::Model(8));
    assert!(matches!(model.data, NodeEntry::Model(8)));
}

#[test]
fn node_keeps_children_in_the_order_they_were_added() {
    let mut node: Node<u32, Word> = Node::new(0);
    let x = Handle::from_raw_parts(1, 0);
    let y = Handle::from_raw_parts(2, 0);
    node.add_child(x);
    node.add_child(y);
    node.add_child(x);
    assert_eq!(node.children, vec![x, y, x]);
    assert_eq!(node.data, 0);
    assert_eq!(node.transform, Word(String::new()));
}

#[test]
fn node_translate_composes_on_the_right() {
    let mut node: Node<u32, Word> = Node::new(0);
    node.translate("a");
    node.translate("b");
    node.translate("c");
    assert_eq!(node.transform, Word("abc".to_string()));
    assert_eq!(node.data, 0);
    assert!(node.children.is_empty());
}

#[test]
fn new_scene_holds_the_root_alone() {
    let scene: Scene<u32, Word> = Scene::new(42);
    let root = scene.get_root();
    let node = scene.get(root).unwrap();
    assert_eq!(node.data, 42);
    assert!(node.children.is_empty());
    assert_eq!(node.transform, Word(String::new()));
    let (slot, generation) = root.into_raw_parts();
    assert!(scene.get(Handle::from_raw_parts(slot + 1, generation)).is_none());
}

#[test]
fn create_node_does_not_attach() {
    let mut scene: Scene<u32, Word> = Scene::new(0);
    let root = scene.get_root();
    let a = scene.create_node(1);
    assert_ne!(a, root);
    assert_eq!(scene.get_root(), root);
    assert!(scene.get(root).unwrap().children.is_empty());
    let node = scene.get(a).unwrap();
    assert_eq!(node.data, 1);
    assert!(node.children.is_empty());
    assert_eq!(node.transform, Word(String::new()));
}

#[test]
fn add_child_appends_to_the_parent_alone() {
    let mut scene: Scene<u32, Word> = Scene::new(0);
    let root = scene.get_root();
    let a = scene.create_node(1);
    let b = scene.create_node(2);
    scene.add_child(root, a);
    scene.add_child(root, b);
    scene.add_child(a, b);
    assert_eq!(scene.get(root).unwrap().children, vec![a, b]);
    assert_eq!(scene.get(a).unwrap().children, vec![b]);
    assert!(scene.get(b).unwrap().children.is_empty());
    assert_eq!(scene.get(root).unwrap().data, 0);
    assert_eq!(scene.get(root).unwrap().transform, Word(String::new()));
}

#[test]
fn translate_changes_the_addressed_node_alone() {
    let mut scene: Scene<u32, Word> = Scene::new(0);
    let root = scene.get_root();
    let a = scene.create_node(1);
    scene.add_child(root, a);
    scene.translate(a, "x");
    assert_eq!(scene.get(a).unwrap().transform, Word("x".to_string()));
    assert_eq!(scene.get(a).unwrap().data, 1);
    assert_eq!(scene.get(root).unwrap().transform, Word(String::new()));
    assert_eq!(scene.get(root).unwrap().children, vec![a]);
}

#[test]
fn handles_that_do_not_resolve_change_nothing() {
    let mut scene: Scene<u32, Word> = Scene::new(0);
    let root = scene.get_root();
    let a = scene.create_node(1);
    scene.add_child(root, a);
    scene.translate(a, "x");

    let (slot, generation) = a.into_raw_parts();
    let stale = [
        Handle::from_raw_parts(slot, generation + 1),
        Handle::from_raw_parts(slot + 100, generation),
        Handle::from_raw_parts(usize::MAX, 0),
    ];
    let known = [root, a];
    let before = snapshot(&scene, &known);
    for handle in stale {
        assert!(scene.get(handle).is_none());
        assert!(scene.get_mut(handle).is_none());
        scene.add_child(handle, a);
        scene.add_child(handle, handle);
        scene.translate(handle, "y");
        assert!(scene.get(handle).is_none());
        assert_eq!(snapshot(&scene, &known), before);
        assert_eq!(scene.get_root(), root);
    }
}

#[test]
fn get_mut_gives_write_access_to_one_node() {
    let mut scene: Scene<u32, Word> = Scene::new(0);
    let root = scene.get_root();
    let a = scene.create_node(1);
    {
        let node = scene.get_mut(a).unwrap();
        node.data = 11;
        node.transform = Word("set".to_string());
        node.add_child(root);
    }
    let node = scene.get(a).unwrap();
    assert_eq!(node.data, 11);
    assert_eq!(node.transform, Word("set".to_string()));
    assert_eq!(node.children, vec![root]);
    let node = scene.get(root).unwrap();
    assert_eq!(node.data, 0);
    assert!(node.children.is_empty());
}

#[test]
fn get_transform_composes_along_the_given_path() {
    let mut scene: Scene<u32, Word> = Scene::new(0);
    let root = scene.get_root();
    let a = scene.create_node(1);
    let b = scene.create_node(2);
    scene.translate(root, "r");
    scene.translate(a, "a");
    scene.translate(b, "b");
    assert_eq!(scene.get_transform(&vec![]), Some(Word(String::new())));
    assert_eq!(scene.get_transform(&vec![root]), Some(Word("r".to_string())));
    assert_eq!(scene.get_transform(&vec![root, a, b]), Some(Word("rab".to_string())));
    assert_eq!(scene.get_transform(&vec![b, a]), Some(Word("ba".to_string())));
    let stale = Handle::from_raw_parts(99, 0);
    assert_eq!(scene.get_transform(&vec![root, stale, b]), None);
    assert_eq!(scene.get_transform(&vec![stale]), None);
}

#[test]
fn scene_of_entries_hands_out_models_and_empty_nodes() {
    let mut scene: Scene<NodeEntry<&'static str>, Word> = Scene::new(NodeEntry::Empty);
    let root = scene.get_root();
    let triangle = scene.create_node(NodeEntry::Model("triangle"));
    let group = scene.create_node(NodeEntry::Empty);
    let square = scene.create_node(NodeEntry::Model("square"));
    scene.add_child(root, triangle);
    scene.add_child(root, group);
    scene.add_child(group, square);

    let mut models = Vec::new();
    let mut empty = 0;
    let mut traversal = scene.traverse();
    while let Some((_, entry, _)) = traversal.next() {
        match entry {
            NodeEntry::Model(name) => models.push(*name),
            NodeEntry::Empty => empty += 1,
        }
    }
    assert_eq!(models, vec!["square", "triangle"]);
    assert_eq!(empty, 2);
}

#[test]
fn root_stays_the_root() {
    let mut scene: Scene<u32, Word> = Scene::new(0);
    let root = scene.get_root();
    for i in 1..20 {
        let node = scene.create_node(i);
        scene.add_child(root, node);
        scene.translate(node, "t");
        assert_eq!(scene.get_root(), root);
    }
    assert_eq!(scene.get(root).unwrap().children.len(), 19);
    assert_eq!(scene.get(root).unwrap().data, 0);
}

#[test]
fn pool_remove_takes_the_value_out() {
    let mut pool: Pool<&'static str> = Pool::new();
    let a = pool.insert("a");
    let b = pool.insert("b");
    assert_eq!(pool.remove(a), Some("a"));
    assert!(pool.get(a).is_none());
    assert!(pool.get_mut(a).is_none());
    assert_eq!(pool.remove(a), None);
    assert_eq!(pool.get(b), Some(&"b"));
    assert_eq!(pool.remove(Handle::from_raw_parts(77, 0)), None);
    assert_eq!(pool.get(b), Some(&"b"));
}

#[test]
fn pool_reuses_a_vacated_slot_in_a_new_generation() {
    let mut pool: Pool<u32> = Pool::new();
    let a = pool.insert(1);
    let b = pool.insert(2);
    assert_eq!(pool.remove(a), Some(1));
    let c = pool.insert(3);
    assert_ne!(c, a);
    assert_eq!(c.into_raw_parts().0, a.into_raw_parts().0);
    assert_eq!(c.into_raw_parts().1, a.into_raw_parts().1 + 1);
    assert!(pool.get(a).is_none());
    assert_eq!(pool.get(b), Some(&2));
    assert_eq!(pool.get(c), Some(&3));
}

#[test]
fn pool_handle_that_was_removed_never_resolves_again() {
    let mut pool: Pool<usize> = Pool::new();
    let first = pool.insert(0);
    assert_eq!(pool.remove(first), Some(0));
    let mut spent = vec![first];
    for round in 1..50 {
        let handles: Vec<Handle> = (0..round).map(|i| pool.insert(round * 100 + i)).collect();
        for handle in spent.iter() {
            assert!(pool.get(*handle).is_none());
        }
        for (i, handle) in handles.iter().enumerate() {
            assert_eq!(pool.get(*handle), Some(&(round * 100 + i)));
        }
        for (i, handle) in handles.into_iter().enumerate() {
            if i % 2 == 0 {
                assert_eq!(pool.remove(handle), Some(round * 100 + i));
                spent.push(handle);
            }
        }
    }
    for handle in spent.iter() {
        assert!(pool.get(*handle).is_none());
        assert_eq!(pool.remove(*handle), None);
    }
}

#[test]
fn pool_keeps_values_apart_through_removals() {
    let mut pool: Pool<String> = Pool::new();
    let a = pool.insert("a".to_string());
    let b = pool.insert("b".to_string());
    let c = pool.insert("c".to_string());
    assert_eq!(pool.remove(b), Some("b".to_string()));
    let d = pool.insert("d".to_string());
    let e = pool.insert("e".to_string());
    pool.get_mut(d).unwrap().push('!');
    assert_eq!(pool.get(a), Some(&"a".to_string()));
    assert_eq!(pool.get(c), Some(&"c".to_string()));
    assert_eq!(pool.get(d), Some(&"d!".to_string()));
    assert_eq!(pool.get(e), Some(&"e".to_string()));
    assert_eq!(pool.remove(a), Some("a".to_string()));
    assert_eq!(pool.remove(c), Some("c".to_string()));
    assert_eq!(pool.get(d), Some(&"d!".to_string()));
    assert_eq!(pool.get(e), Some(&"e".to_string()));
}
