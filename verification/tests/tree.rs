use lr_tree::mbr::{Bounds, MBR};
use lr_tree::node::{DataNode, InternalNode, NodeId, RecordId, RecordIdKind};
use lr_tree::obj_space::{InternalNodeTrait, ObjSpace};
use lr_tree::walk::Step;
use lr_tree::tree::{InsertHandler, LRTree, Visitor};
use std::collections::HashSet;

fn mbr2(x: (i64, i64), y: (i64, i64)) -> MBR {
    MBR::new(vec![Bounds::new(x.0, x.1), Bounds::new(y.0, y.1)])
}

fn new_tree<T>() -> LRTree<T> {
    LRTree::with_obj_space(ObjSpace::new(2, 2, 5))
}

fn six_tiles() -> Vec<MBR> {
    vec![
        mbr2((0, 10), (0, 10)),
        mbr2((11, 21), (0, 10)),
        mbr2((22, 32), (0, 10)),
        mbr2((0, 10), (11, 21)),
        mbr2((11, 21), (11, 21)),
        mbr2((22, 32), (11, 21)),
    ]
}

fn tree_of_six_tiles() -> LRTree<i32> {
    let mut tree = new_tree();
    for (i, tile) in six_tiles().into_iter().enumerate() {
        assert!(tree.can_insert(&tile));
        tree.insert(i as i32 + 1, tile);
    }
    tree
}

#[test]
fn test_tree_leaf() {
    let mut tree = new_tree();
    let root_id = tree.lock_obj_space().root_id;

    let first_id = tree.insert("First", mbr2((0, 10), (0, 10)));

    {
        let obj_space = tree.lock_obj_space();
        let tree_mbr = obj_space.get_mbr(root_id);

        tree.access_object(first_id, |object, mbr| {
            assert_eq!(*object, "First");
            assert_eq!(*tree_mbr, *mbr);
        });
    }

    let second_id = tree.insert("Second", mbr2((-5, -3), (-5, 5)));

    tree.access_object(second_id, |object, _| {
        assert_eq!(*object, "Second");
    });

    {
        let obj_space = tree.lock_obj_space();
        let tree_mbr = obj_space.get_mbr(root_id);

        assert_eq!(*tree_mbr, mbr2((-5, 10), (-5, 10)));
    }

    let set = tree.search(&mbr2((-2, -1), (-3, 3)));
    assert!(set.is_empty());

    let set = tree.search(&mbr2((7, 15), (2, 3)));
    assert_eq!(set, vec![first_id]);

    let set = tree.search(&mbr2((-7, -4), (2, 3)));
    assert_eq!(set, vec![second_id]);

    let set = tree.search(&mbr2((-4, 4), (2, 3)));
    assert_eq!(set, vec![first_id, second_id]);

    let third_id = tree.insert("Third", mbr2((-4, 4), (2, 3)));

    tree.access_object(third_id, |object, _| {
        assert_eq!(*object, "Third");
    });

    {
        let obj_space = tree.lock_obj_space();
        let tree_mbr = obj_space.get_mbr(root_id);

        assert_eq!(*tree_mbr, mbr2((-5, 10), (-5, 10)));
    }
}

#[test]
fn test_tree_search_access() {
    let mut tree = new_tree();
    let root_id = tree.lock_obj_space().root_id;

    let first_id = tree.insert("First", mbr2((0, 10), (0, 10)));

    {
        let obj_space = tree.lock_obj_space();
        let tree_mbr = obj_space.get_mbr(root_id);

        tree.access_object(first_id, |object, mbr| {
            assert_eq!(*object, "First");
            assert_eq!(*tree_mbr, *mbr);
        });
    }

    let second_id = tree.insert("Second", mbr2((-5, -3), (-5, 5)));

    tree.access_object(second_id, |object, _| {
        assert_eq!(*object, "Second");
    });

    {
        let obj_space = tree.lock_obj_space();
        let tree_mbr = obj_space.get_mbr(root_id);

        assert_eq!(*tree_mbr, mbr2((-5, 10), (-5, 10)));
    }

    let mut calls = 0;
    tree.search_access(&mbr2((7, 15), (2, 3)), |_, id| {
        calls += 1;
        assert_eq!(id, first_id)
    });
    assert_eq!(calls, 1);

    tree.search_access(&mbr2((-7, -4), (2, 3)), |_, id| assert_eq!(id, second_id));

    tree.search_access(&mbr2((-4, 4), (2, 3)), |_, id| {
        assert!([first_id, second_id].contains(&id))
    });
}

#[test]
fn test_tree_split() {
    let tree = tree_of_six_tiles();

    let set: HashSet<NodeId> = tree
        .search(&mbr2((3, 25), (3, 15)))
        .iter()
        .cloned()
        .collect();

    let expected: HashSet<NodeId> = [0, 1, 2, 3, 4, 5].iter().cloned().collect();

    assert_eq!(set, expected);
}

#[test]
fn test_tree_insert_transaction() {
    let mut tree = tree_of_six_tiles();

    struct Handler;

    impl InsertHandler<i32> for Handler {
        fn before_insert(&mut self, obj_space: &ObjSpace<i32>, new_id: usize) {
            assert_eq!(*obj_space.get_data_payload(new_id), 7);

            let expected: HashSet<NodeId> = [0, 1, 2, 3, 4, 5].iter().cloned().collect();
            let mut intersections = HashSet::new();

            LRTree::search_access_obj_space(obj_space, obj_space.get_data_mbr(new_id), |_, id| {
                intersections.insert(id);
            });

            assert_eq!(intersections, expected);
        }
    }

    tree.insert_transaction(7, mbr2((3, 25), (3, 15)), &mut Handler);
}

#[test]
fn insert_transaction_calls_both_hooks_in_order() {
    struct Recorder {
        events: Vec<(bool, usize, usize)>,
    }

    impl InsertHandler<i32> for Recorder {
        fn before_insert(&mut self, obj_space: &ObjSpace<i32>, new_id: usize) {
            let found = LRTree::search(
                &LRTree { obj_space: clone_space(obj_space) },
                obj_space.get_data_mbr(new_id),
            );
            self.events.push((false, new_id, found.len()));
        }

        fn after_insert(&mut self, obj_space: &ObjSpace<i32>, new_id: usize) {
            let found = LRTree::search(
                &LRTree { obj_space: clone_space(obj_space) },
                obj_space.get_data_mbr(new_id),
            );
            self.events.push((true, new_id, found.len()));
        }
    }

    fn clone_space(obj_space: &ObjSpace<i32>) -> ObjSpace<i32> {
        let mut copy = ObjSpace::new(obj_space.dimension, obj_space.min_records, obj_space.max_records);
        let mut tree_ids = vec![];
        LRTree::search_access_obj_space(obj_space, &MBR::undefined(), |_, id| tree_ids.push(id));
        tree_ids.sort();
        let mut tree = LRTree::with_obj_space(copy);
        for id in tree_ids {
            tree.insert(*obj_space.get_data_payload(id), obj_space.get_data_mbr(id).clone());
        }
        copy = tree.obj_space;
        copy
    }

    let mut tree = tree_of_six_tiles();
    let mut recorder = Recorder { events: vec![] };
    let id = tree.insert_transaction(7, mbr2((3, 25), (3, 15)), &mut recorder);
    assert_eq!(id, 6);
    // before: the six tiles are in the tree, the new node is not; after: all seven
    assert_eq!(recorder.events, vec![(false, 6, 6), (true, 6, 7)]);
}

#[test]
fn test_tree_same_delta() {
    let mut obj_space: ObjSpace<i32> = ObjSpace::new(2, 2, 5);

    let first_node_id = obj_space.make_node(RecordIdKind::Leaf);
    let node = obj_space.get_node_mut(first_node_id);
    node.mbr = mbr2((0, 5), (0, 5));

    let second_node_id = obj_space.make_node(RecordIdKind::Leaf);
    let node = obj_space.get_node_mut(second_node_id);
    node.mbr = mbr2((12, 13), (-1, 4));

    let root_id = RecordId::from_node_id(obj_space.root_id.as_node_id(), RecordIdKind::Internal);
    obj_space.root_id = root_id;
    obj_space.add_child(root_id, first_node_id);
    obj_space.set_parent_info(first_node_id, root_id);
    obj_space.add_child(root_id, second_node_id);
    obj_space.set_parent_info(second_node_id, root_id);

    let node_0_data_0 = obj_space.make_data_node(0, mbr2((0, 3), (0, 3)));
    obj_space.get_data_mut(node_0_data_0).parent_id = first_node_id;

    let node_0_data_1 = obj_space.make_data_node(1, mbr2((4, 5), (4, 5)));
    obj_space.get_data_mut(node_0_data_1).parent_id = first_node_id;

    let node_1_data_0 = obj_space.make_data_node(0, mbr2((12, 13), (-1, 0)));
    obj_space.get_data_mut(node_1_data_0).parent_id = second_node_id;

    let node_1_data_1 = obj_space.make_data_node(1, mbr2((12, 13), (3, 4)));
    obj_space.get_data_mut(node_1_data_1).parent_id = second_node_id;

    let first = obj_space.get_node_mut(first_node_id);
    first.payload.push(RecordId::Data(node_0_data_0));
    first.payload.push(RecordId::Data(node_0_data_1));

    let second = obj_space.get_node_mut(second_node_id);
    second.payload.push(RecordId::Data(node_1_data_0));
    second.payload.push(RecordId::Data(node_1_data_1));

    let mut tree = LRTree::with_obj_space(obj_space);

    let test_record_id = tree.insert(2, mbr2((8, 10), (3, 5)));

    let obj_space = tree.lock_obj_space();
    let test_leaf_id = obj_space.get_data(test_record_id).parent_id;
    assert_eq!(test_leaf_id, second_node_id);
}

#[test]
fn extend_adds_data_that_a_rebuild_takes_in() {
    let mut tree = tree_of_six_tiles();
    let more = vec![(7, mbr2((40, 50), (0, 10))), (8, mbr2((40, 50), (11, 21)))];
    tree.obj_space.extend(more);
    assert_eq!(tree.lock_obj_space().data_num(), 8);
    assert_eq!(tree.lock_obj_space().get_data(6).parent_id, RecordId::Root);
    // the new data nodes are in the arena, not in the tree
    let everywhere = mbr2((0, 50), (0, 21));
    assert_eq!(tree.search(&everywhere).len(), 6);
    assert!(tree.can_rebuild());
    tree.rebuild(45);
    assert_eq!(tree.search(&everywhere).len(), 8);
    assert_eq!(*tree.lock_obj_space().get_root_mbr(), everywhere);
}

#[test]
fn test_tree_visitor() {
    struct TestVisitor {
        lvl: usize,
        data_seen: usize,
    }

    impl Visitor<i32> for TestVisitor {
        fn enter_node(&mut self, record_id: RecordId, node: &InternalNode) {
            match node.parent_id {
                RecordId::Root => {
                    assert_eq!(self.lvl, 0);
                    assert_eq!(record_id, RecordId::Internal(2));
                }
                RecordId::Internal(_) => assert_eq!(self.lvl, 1),
                RecordId::Leaf(_) => assert_eq!(self.lvl, 2),
                _ => unreachable!(),
            }

            self.lvl += 1;
        }

        fn leave_node(&mut self, _: RecordId, _: &InternalNode) {
            self.lvl -= 1;
        }

        fn visit_data(&mut self, record_id: RecordId, node: &DataNode<i32>) {
            assert!(matches!(node.payload, 1..=12));
            assert!(matches!(record_id, RecordId::Data(_)));
            assert_eq!(self.lvl, 2);
            self.data_seen += 1;
        }
    }

    let mut tree = new_tree();
    let tiles = vec![
        mbr2((0, 10), (0, 10)),
        mbr2((11, 21), (0, 10)),
        mbr2((22, 32), (0, 10)),
        mbr2((0, 10), (11, 21)),
        mbr2((11, 21), (11, 21)),
        mbr2((22, 32), (11, 21)),
        mbr2((32, 42), (11, 21)),
        mbr2((42, 52), (11, 21)),
        mbr2((52, 62), (11, 21)),
        mbr2((62, 72), (11, 21)),
        mbr2((82, 92), (11, 21)),
        mbr2((92, 102), (11, 21)),
    ];
    for (i, tile) in tiles.into_iter().enumerate() {
        tree.insert(i as i32 + 1, tile);
    }

    let mut visitor = TestVisitor { lvl: 0, data_seen: 0 };
    tree.visit(&mut visitor);
    assert_eq!(visitor.lvl, 0);
    assert_eq!(visitor.data_seen, 12);
}

#[test]
fn empty_tree_finds_nothing() {
    let tree: LRTree<i32> = new_tree();
    assert!(tree.search(&mbr2((0, 1), (0, 1))).is_empty());
    assert!(tree.lock_obj_space().is_empty());
    assert!(!tree.lock_obj_space().is_unordered());
    assert_eq!(tree.lock_obj_space().data_num(), 0);
    assert!(tree.lock_obj_space().get_root_mbr().is_undefined());
}

#[test]
fn one_object_is_found_where_it_lies() {
    let mut tree = new_tree();
    let a = tree.insert('a', mbr2((0, 10), (0, 10)));
    assert_eq!(*tree.lock_obj_space().get_root_mbr(), mbr2((0, 10), (0, 10)));
    assert_eq!(tree.search(&mbr2((5, 6), (5, 6))), vec![a]);
    assert!(tree.search(&mbr2((11, 12), (0, 1))).is_empty());
    // a shared edge counts
    assert_eq!(tree.search(&mbr2((10, 12), (10, 12))), vec![a]);
}

#[test]
fn can_insert_refuses_what_insert_cannot_take() {
    let mut tree = new_tree();
    tree.insert(0, mbr2((0, 10), (0, 10)));
    assert!(tree.can_insert(&mbr2((0, 1), (0, 1))));
    assert!(!tree.can_insert(&MBR::new(vec![Bounds::new(0, 1)])));
    assert!(!tree.can_insert(&MBR::undefined()));
    assert!(!tree.can_insert(&mbr2((0, i64::MAX), (0, 3))));
    assert!(!tree.can_insert(&MBR::new(vec![Bounds::new_unchecked(3, 1), Bounds::new(0, 1)])));
}

#[test]
fn test_tree_builder_leaf() {
    let data = vec![
        ("First", mbr2((0, 10), (0, 10))),
        ("Second", mbr2((-5, -3), (-5, 5))),
        ("Third", mbr2((-4, 4), (2, 3))),
    ];

    let tree = LRTree::with_obj_space(ObjSpace::with_data(2, 2, 5, data));

    let ids = tree.search(&mbr2((-4, 7), (-3, 5)));
    assert_eq!(ids.len(), 3);

    ids.iter()
        .map(|&id| tree.access_object(id, |&obj, _| obj))
        .for_each(|obj| {
            assert!(matches!(obj, "First" | "Second" | "Third"));
        });
}

#[test]
fn test_tree_retain() {
    let mut remove_values = vec![];
    let mut tree = new_tree();
    for (i, tile) in six_tiles().into_iter().enumerate() {
        let value = i as i32 + 1;
        tree.insert(value, tile);
        if value == 2 || value == 5 {
            remove_values.push(value);
        }
    }

    tree.retain(&mbr2((3, 25), (3, 15)), |obj_space, id| {
        !remove_values.contains(obj_space.get_data_payload(id))
    });

    let root_mbr = tree.lock_obj_space().get_root_mbr().clone();
    let new_tree = LRTree::with_obj_space(tree.lock_obj_space().clone_shrinked());

    let mut seen = vec![];
    new_tree.search_access(&root_mbr, |obj_space, id| {
        assert!(!remove_values.contains(obj_space.get_data_payload(id)));
        seen.push(*obj_space.get_data_payload(id));
    });
    seen.sort();
    assert_eq!(seen, vec![1, 3, 4, 6]);
}

#[test]
fn two_objects_are_found_together() {
    let mut tree = new_tree();
    let a = tree.insert('a', mbr2((0, 10), (0, 10)));
    let b = tree.insert('b', mbr2((-5, -3), (-5, 5)));
    assert_eq!(*tree.lock_obj_space().get_root_mbr(), mbr2((-5, 10), (-5, 10)));
    let found: HashSet<NodeId> = tree.search(&mbr2((-4, 4), (2, 3))).into_iter().collect();
    assert_eq!(found, [a, b].into_iter().collect());
    // an undefined area intersects everything
    assert_eq!(tree.search(&MBR::undefined()).len(), 2);
}

#[test]
fn text_of_a_record_id() {
    assert_eq!(RecordId::Root.to_string(), "Root");
    assert_eq!(RecordId::Data(0).to_string(), "Data(0)");
    assert_eq!(RecordId::Leaf(7).to_string(), "Leaf(7)");
    assert_eq!(RecordId::Internal(120).to_string(), "Internal(120)");
    assert_eq!(
        RecordId::Data(usize::MAX).to_string(),
        format!("Data({})", usize::MAX)
    );
}

#[test]
fn record_ids_keep_their_index_when_their_kind_changes() {
    assert_eq!(RecordId::from_node_id(3, RecordIdKind::Leaf), RecordId::Leaf(3));
    assert_eq!(RecordId::from_node_id(3, RecordIdKind::Internal), RecordId::Internal(3));
    assert_eq!(RecordId::Data(9).as_node_id(), 9);
    assert_eq!(RecordId::Leaf(4).kind(), RecordIdKind::Leaf);
    assert_eq!(RecordId::Internal(4).kind(), RecordIdKind::Internal);
    let mut id = RecordId::Leaf(5);
    id.set_kind(RecordIdKind::Internal);
    assert_eq!(id, RecordId::Internal(5));
    id.set_kind(RecordIdKind::Leaf);
    assert_eq!(id, RecordId::Leaf(5));
}

#[test]
fn nodes_are_made_empty_and_give_up_their_children() {
    let mut node = InternalNode::with_mbr(4, mbr2((0, 1), (2, 3)));
    assert_eq!(node.parent_id(), RecordId::Root);
    assert_eq!(*node.mbr(), mbr2((0, 1), (2, 3)));
    assert!(node.payload().is_empty());
    node.payload.push(RecordId::Data(1));
    node.payload.push(RecordId::Data(2));
    let children = node.abort_children();
    assert_eq!(children, vec![RecordId::Data(1), RecordId::Data(2)]);
    assert!(node.payload.is_empty());
    assert!(node.mbr.is_undefined());
    let empty = InternalNode::new(4);
    assert!(empty.mbr.is_undefined() && empty.payload.is_empty());
}

#[test]
fn the_walk_enters_every_node_before_its_children() {
    let mut tree = new_tree();
    assert!(tree.walk().is_empty());
    for (i, tile) in six_tiles().into_iter().enumerate() {
        tree.insert(i as i32, tile);
    }
    let steps = tree.walk();
    let space = tree.lock_obj_space();
    // the root, two leaves, six data nodes: a node is entered and left
    assert_eq!(steps.len(), 2 * 3 + 6);
    assert_eq!(steps[0], Step::Enter(space.root_id));
    assert_eq!(steps[steps.len() - 1], Step::Leave(space.root_id));
    let mut open = vec![];
    let mut data = vec![];
    for step in &steps {
        match *step {
            Step::Enter(id) => {
                if let Some(&parent) = open.last() {
                    assert_eq!(space.get_node(id).parent_id, parent);
                }
                open.push(id);
            }
            Step::Leave(id) => assert_eq!(open.pop(), Some(id)),
            Step::Data(id) => {
                assert_eq!(space.get_data(id.as_node_id()).parent_id, *open.last().unwrap());
                data.push(id.as_node_id());
            }
        }
    }
    assert!(open.is_empty());
    // the data nodes come leaf by leaf, in the order of the children
    let by_leaf: Vec<NodeId> = space
        .get_node(space.root_id)
        .payload
        .iter()
        .flat_map(|&leaf| space.get_node(leaf).payload.iter().map(|c| c.as_node_id()))
        .collect();
    assert_eq!(data, by_leaf);
}

#[test]
fn a_full_leaf_is_split_by_its_seeds() {
    // five tiles in a row fill the leaf; the sixth splits it
    let mut tree: LRTree<i32> = new_tree();
    for i in 0..5 {
        tree.insert(i, mbr2((10 * i as i64, 10 * i as i64 + 5), (0, 5)));
    }
    assert_eq!(tree.lock_obj_space().root_id, RecordId::Leaf(0));
    tree.insert(5, mbr2((50, 55), (0, 5)));
    let space = tree.lock_obj_space();
    assert_eq!(space.root_id, RecordId::Internal(2));
    assert_eq!(
        space.get_node(space.root_id).payload,
        vec![RecordId::Leaf(0), RecordId::Leaf(1)]
    );
    // on the first axis the largest lower end is that of the sixth tile, the
    // smallest upper end that of the first: these are the seeds
    assert_eq!(space.get_node(RecordId::Leaf(0)).payload[0], RecordId::Data(5));
    assert_eq!(space.get_node(RecordId::Leaf(1)).payload[0], RecordId::Data(0));
    let sizes = (
        space.get_node(RecordId::Leaf(0)).payload.len(),
        space.get_node(RecordId::Leaf(1)).payload.len(),
    );
    assert_eq!(sizes.0 + sizes.1, 6);
    assert!(sizes.0 >= 2 && sizes.1 >= 2);
    assert_eq!(*space.get_root_mbr(), mbr2((0, 55), (0, 5)));
}

#[test]
fn parked_objects_are_not_found_until_restored() {
    let mut tree = tree_of_six_tiles();
    let all = mbr2((0, 32), (0, 21));
    tree.mark_as_removed(vec![1, 4, 4, 99]);
    assert_eq!(tree.lock_obj_space().data_num(), 4);
    let found: HashSet<NodeId> = tree.search(&all).into_iter().collect();
    assert_eq!(found, [0, 2, 3, 5].into_iter().collect());
    tree.restore_removed();
    assert_eq!(tree.lock_obj_space().data_num(), 6);
    assert_eq!(tree.search(&all).len(), 6);
}

#[test]
fn retain_asks_only_about_what_the_area_finds() {
    let mut tree = tree_of_six_tiles();
    // the area meets the first tile alone; nothing is kept of what it finds
    tree.retain(&mbr2((0, 1), (0, 1)), |_, _| false);
    assert_eq!(tree.lock_obj_space().data_num(), 5);
    assert!(tree.lock_obj_space().is_removed(0));
    tree.retain(&mbr2((0, 32), (0, 21)), |space, id| *space.get_data_payload(id) % 2 == 0);
    let left: Vec<i32> = tree
        .search(&mbr2((0, 32), (0, 21)))
        .into_iter()
        .map(|id| tree.access_object(id, |&o, _| o))
        .collect();
    let left: HashSet<i32> = left.into_iter().collect();
    assert_eq!(left, [2, 4, 6].into_iter().collect());
}

#[test]
fn a_made_tree_is_well_formed() {
    let empty: LRTree<i32> = new_tree();
    assert!(empty.obj_space.is_well_formed());
    let tree = tree_of_six_tiles();
    assert!(tree.obj_space.is_well_formed());
    // data that waits for a rebuild does not spoil the tree
    let mut space = tree.obj_space;
    space.extend(vec![(6, mbr2((0, 1), (0, 1)))]);
    assert!(space.is_well_formed());
}

#[test]
fn a_wrong_rectangle_is_not_well_formed() {
    let mut space = tree_of_six_tiles().obj_space;
    let root = space.root_id.as_node_id();
    space.nodes[root].mbr = mbr2((0, 1000), (0, 1000));
    assert!(!space.is_well_formed());
}

#[test]
fn a_wrong_parent_is_not_well_formed() {
    let mut space = tree_of_six_tiles().obj_space;
    space.data_nodes[0].node.parent_id = RecordId::Root;
    assert!(!space.is_well_formed());
}

#[test]
fn a_child_held_twice_is_not_well_formed() {
    let mut space = tree_of_six_tiles().obj_space;
    let root = space.root_id.as_node_id();
    let first = space.nodes[root].payload[0];
    space.nodes[root].payload.push(first);
    assert!(!space.is_well_formed());
}

#[test]
fn a_node_that_holds_itself_is_not_well_formed() {
    let mut space = tree_of_six_tiles().obj_space;
    let root = space.root_id.as_node_id();
    space.nodes[root].payload[0] = RecordId::Internal(root);
    assert!(!space.is_well_formed());
}

#[test]
fn a_wrong_live_count_is_not_well_formed() {
    let mut space = tree_of_six_tiles().obj_space;
    space.live_num += 1;
    assert!(!space.is_well_formed());
}

#[test]
fn a_node_outside_the_tree_is_not_well_formed() {
    let mut space = tree_of_six_tiles().obj_space;
    space.make_node(RecordIdKind::Leaf);
    assert!(!space.is_well_formed());
}

#[test]
fn wrong_limits_are_not_well_formed() {
    let mut space = tree_of_six_tiles().obj_space;
    space.min_records = space.max_records;
    assert!(!space.is_well_formed());
}
