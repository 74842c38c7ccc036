use lr_tree::levels::{node_fanout, pow_sat, quantile, tree_level};
use lr_tree::mbr::{common_mbr, common_mbr_from_iter, intersects, Bounds, MBR};
use lr_tree::node::{NodeId, RecordId};
use lr_tree::obj_space::ObjSpace;
use lr_tree::tree::LRTree;
use lr_tree::tree_builder::LRTreeBuilder;
use std::collections::HashSet;

fn mbr2(x: (i64, i64), y: (i64, i64)) -> MBR {
    MBR::new(vec![Bounds::new(x.0, x.1), Bounds::new(y.0, y.1)])
}

/// A small generator of repeatable pseudo-random numbers.
struct Lcg(u64);

impl Lcg {
    fn next(&mut self, below: u64) -> u64 {
        self.0 = self
            .0
            .wrapping_mul(6364136223846793005)
            .wrapping_add(1442695040888963407);
        (self.0 >> 33) % below
    }

    fn bounds(&mut self) -> Bounds {
        let max = 51 + self.next(499) as i64;
        let min = 50 + self.next((max - 50) as u64) as i64;
        Bounds::new(min, max)
    }

    fn mbrs(&mut self, dim: usize, n: usize) -> Vec<MBR> {
        (0..n)
            .map(|_| MBR::new((0..dim).map(|_| self.bounds()).collect()))
            .collect()
    }
}

fn expected(mbrs: &[MBR], area: &MBR, skip: &HashSet<usize>) -> HashSet<usize> {
    mbrs.iter()
        .enumerate()
        .filter(|(i, mbr)| !skip.contains(i) && intersects(area, mbr))
        .map(|(i, _)| i)
        .collect()
}

fn found(tree: &LRTree<usize>, area: &MBR) -> HashSet<usize> {
    let ids = tree.search(area);
    let set: HashSet<usize> = ids
        .iter()
        .map(|&id| tree.access_object(id, |&object, _| object))
        .collect();
    assert_eq!(set.len(), ids.len(), "a data node was found twice");
    set
}

/// Checks what must hold of every tree: rectangles, parents, kinds, depth.
/// Returns the height and whether the fanout limits hold.
fn check_tree<T>(space: &ObjSpace<T>) -> (usize, bool) {
    let mut fanout = true;
    let mut seen_nodes = HashSet::new();
    let mut seen_data = HashSet::new();
    let root = space.root_id;
    assert!(matches!(space.get_node(root).parent_id, RecordId::Root));
    let height = check_node(space, root, &mut fanout, &mut seen_nodes, &mut seen_data);
    assert_eq!(seen_nodes.len(), space.nodes.len(), "a node is not in the tree");
    let root_len = space.get_node(root).payload.len();
    if matches!(root, RecordId::Internal(_)) && root_len < 2 {
        fanout = false;
    }
    if root_len > space.max_records {
        fanout = false;
    }
    assert!(space.is_well_formed());
    assert_eq!(space.is_within_fanout(), fanout);
    (height, fanout)
}

fn check_node<T>(
    space: &ObjSpace<T>,
    id: RecordId,
    fanout: &mut bool,
    seen_nodes: &mut HashSet<NodeId>,
    seen_data: &mut HashSet<NodeId>,
) -> usize {
    let node = space.get_node(id);
    assert!(seen_nodes.insert(id.as_node_id()), "a node is held twice");
    if id != space.root_id
        && (node.payload.len() < space.min_records || node.payload.len() > space.max_records)
    {
        *fanout = false;
    }
    let mut mbrs = vec![];
    let mut depth = None;
    for &child in &node.payload {
        mbrs.push(space.get_mbr(child).clone());
        let below = match (id, child) {
            (RecordId::Leaf(_), RecordId::Data(d)) => {
                assert!(seen_data.insert(d), "a data node is held twice");
                assert_eq!(space.get_data(d).parent_id, id);
                0
            }
            (RecordId::Internal(_), RecordId::Leaf(_) | RecordId::Internal(_)) => {
                assert_eq!(space.get_node(child).parent_id, id);
                check_node(space, child, fanout, seen_nodes, seen_data)
            }
            _ => panic!("a child of the wrong kind"),
        };
        assert!(depth.is_none() || depth == Some(below), "leaves at different depths");
        depth = Some(below);
    }
    assert_eq!(node.mbr, common_mbr_from_iter(&mbrs));
    depth.unwrap_or(0) + 1
}

#[test]
fn static_build_of_200_finds_them_all() {
    let mut rng = Lcg(7);
    let mbrs = rng.mbrs(2, 200);
    let data: Vec<(usize, MBR)> = mbrs.iter().cloned().enumerate().collect();
    let tree = LRTree::with_obj_space(ObjSpace::with_data(2, 2, 5, data));

    let root_mbr = tree.lock_obj_space().get_root_mbr().clone();
    assert_eq!(root_mbr, common_mbr_from_iter(&mbrs));
    let all: HashSet<usize> = (0..200).collect();
    assert_eq!(found(&tree, &root_mbr), all);

    let (height, fanout) = check_tree(tree.lock_obj_space());
    // the least height with 5 to its power at least 200
    assert_eq!(height, 4);
    assert!(fanout);
    assert!(!tree.lock_obj_space().is_unordered());
    assert_eq!(tree.lock_obj_space().data_num(), 200);
}

#[test]
fn dynamic_static_and_hybrid_trees_find_the_same() {
    let mut rng = Lcg(2024);
    for round in 0..40 {
        let dim = 1 + (round % 4) as usize;
        let max_records = 3 + rng.next(17) as usize;
        let min_records = 2 + rng.next(((max_records + 1) / 2 - 1) as u64) as usize;
        let n = rng.next(120) as usize;
        let alpha = rng.next(51) as usize;
        let mbrs = rng.mbrs(dim, n);
        let more = rng.mbrs(dim, n / 2);
        let area = rng.mbrs(dim, 1).pop().unwrap();
        let none = HashSet::new();
        let want = expected(&mbrs, &area, &none);

        let mut dynamic = LRTree::with_obj_space(ObjSpace::new(dim, min_records, max_records));
        for (i, mbr) in mbrs.iter().enumerate() {
            assert!(dynamic.can_insert(mbr));
            dynamic.insert(i, mbr.clone());
        }
        assert_eq!(found(&dynamic, &area), want, "dynamic, round {}", round);
        let (_, fanout) = check_tree(dynamic.lock_obj_space());
        assert!(fanout, "dynamic fanout, round {}", round);

        let data: Vec<(usize, MBR)> = mbrs.iter().cloned().enumerate().collect();
        let mut builder =
            LRTreeBuilder::with_obj_space(ObjSpace::with_data(dim, min_records, max_records, data));
        assert!(!builder.is_built());
        builder.build_with_alpha(alpha);
        assert!(builder.is_built());
        let mut fixed = LRTree::with_obj_space(builder.obj_space);
        assert_eq!(found(&fixed, &area), want, "static, round {}", round);
        check_tree(fixed.lock_obj_space());

        // park some, compact, build anew
        let parked: HashSet<usize> = (0..n).filter(|_| rng.next(3) == 0).collect();
        fixed.mark_as_removed(parked.iter().cloned().collect());
        assert_eq!(
            found(&fixed, &area),
            expected(&mbrs, &area, &parked),
            "parked, round {}",
            round
        );
        assert_eq!(fixed.lock_obj_space().data_num(), n - parked.len());
        let compact = LRTree::with_obj_space(fixed.lock_obj_space().clone_shrinked());
        assert_eq!(
            found(&compact, &area),
            expected(&mbrs, &area, &parked),
            "compacted, round {}",
            round
        );
        check_tree(compact.lock_obj_space());
        assert_eq!(compact.lock_obj_space().data_num(), n - parked.len());

        // restore, then insert into the tree that was built
        fixed.restore_removed();
        assert_eq!(found(&fixed, &area), want, "restored, round {}", round);
        let mut all = mbrs.clone();
        for (i, mbr) in more.iter().enumerate() {
            assert!(fixed.can_insert(mbr));
            fixed.insert(n + i, mbr.clone());
            all.push(mbr.clone());
        }
        assert_eq!(found(&fixed, &area), expected(&all, &area, &none), "hybrid, round {}", round);
        check_tree(fixed.lock_obj_space());

        // build anew by hand
        assert!(fixed.can_rebuild());
        fixed.rebuild(alpha);
        assert_eq!(found(&fixed, &area), expected(&all, &area, &none), "rebuilt, round {}", round);
        check_tree(fixed.lock_obj_space());
    }
}

#[test]
fn insertion_order_does_not_change_what_is_found() {
    let mut rng = Lcg(99);
    let mbrs = rng.mbrs(3, 60);
    let mut forward = LRTree::with_obj_space(ObjSpace::new(3, 2, 4));
    let mut backward = LRTree::with_obj_space(ObjSpace::new(3, 2, 4));
    for (i, mbr) in mbrs.iter().enumerate() {
        forward.insert(i, mbr.clone());
    }
    for (i, mbr) in mbrs.iter().enumerate().rev() {
        backward.insert(i, mbr.clone());
    }
    for area in rng.mbrs(3, 25) {
        assert_eq!(found(&forward, &area), found(&backward, &area));
    }
}

#[test]
fn rebuild_keeps_what_is_found_and_drops_the_parked() {
    let mut rng = Lcg(5);
    let mbrs = rng.mbrs(2, 80);
    let mut tree = LRTree::with_obj_space(ObjSpace::new(2, 3, 6));
    for (i, mbr) in mbrs.iter().enumerate() {
        tree.insert(i, mbr.clone());
    }
    let areas = rng.mbrs(2, 10);
    let before: Vec<HashSet<usize>> = areas.iter().map(|a| found(&tree, a)).collect();
    tree.rebuild(45);
    let after: Vec<HashSet<usize>> = areas.iter().map(|a| found(&tree, a)).collect();
    assert_eq!(before, after);

    tree.mark_as_removed(vec![3, 4, 5, 1000]);
    assert_eq!(tree.lock_obj_space().data_num(), 77);
    tree.rebuild(0);
    let parked: HashSet<usize> = [3, 4, 5].into_iter().collect();
    for area in &areas {
        assert_eq!(found(&tree, area), expected(&mbrs, area, &parked));
    }
    // the parked data nodes are no longer in the tree
    tree.restore_removed();
    for area in &areas {
        assert_eq!(found(&tree, area), expected(&mbrs, area, &parked));
    }
    tree.rebuild(50);
    let none = HashSet::new();
    for area in &areas {
        assert_eq!(found(&tree, area), expected(&mbrs, area, &none));
    }
}

#[test]
fn rebuild_of_an_empty_tree_does_nothing() {
    let mut tree: LRTree<usize> = LRTree::with_obj_space(ObjSpace::new(2, 2, 5));
    assert!(tree.can_rebuild());
    tree.rebuild(45);
    assert!(tree.search(&mbr2((0, 1), (0, 1))).is_empty());
    assert_eq!(tree.lock_obj_space().nodes.len(), 1);

    tree.insert(0, mbr2((0, 1), (0, 1)));
    tree.mark_as_removed(vec![0]);
    assert!(tree.lock_obj_space().is_empty());
    tree.rebuild(45);
    // nothing is live: the tree is left as it was
    assert_eq!(tree.lock_obj_space().get_node(tree.lock_obj_space().root_id).payload.len(), 1);
    assert!(tree.search(&mbr2((0, 1), (0, 1))).is_empty());
}

#[test]
fn static_build_of_few_is_one_leaf() {
    let data: Vec<(usize, MBR)> = (0..5).map(|i| (i, mbr2((i as i64, i as i64 + 1), (0, 1)))).collect();
    let space = ObjSpace::with_data(2, 2, 5, data);
    assert!(space.is_unordered());
    let tree = LRTree::with_obj_space(space);
    assert_eq!(tree.lock_obj_space().root_id, RecordId::Leaf(0));
    assert_eq!(tree.lock_obj_space().nodes.len(), 1);
    assert_eq!(*tree.lock_obj_space().get_root_mbr(), mbr2((0, 5), (0, 1)));
    assert_eq!(check_tree(tree.lock_obj_space()), (1, true));
}

#[test]
fn static_build_of_six_has_three_leaves() {
    // 6 > 5: two levels; the root gets 3 children, the least k with k * k >= 6
    let data: Vec<(usize, MBR)> =
        (0..6).map(|i| (i, mbr2((10 * i as i64, 10 * i as i64 + 5), (0, 1)))).collect();
    let tree = LRTree::with_obj_space(ObjSpace::with_data(2, 2, 5, data));
    let space = tree.lock_obj_space();
    assert_eq!(space.root_id, RecordId::Internal(0));
    assert_eq!(space.get_node(space.root_id).payload.len(), 3);
    assert_eq!(check_tree(space), (2, true));
    for &leaf in &space.get_node(space.root_id).payload {
        assert!(matches!(leaf, RecordId::Leaf(_)));
        assert_eq!(space.get_node(leaf).payload.len(), 2);
    }
}

#[test]
fn levels_fanouts_and_quantiles() {
    assert_eq!(tree_level(5, 1), 1);
    assert_eq!(tree_level(5, 5), 1);
    assert_eq!(tree_level(5, 6), 2);
    assert_eq!(tree_level(5, 25), 2);
    assert_eq!(tree_level(5, 26), 3);
    assert_eq!(tree_level(5, 200), 4);
    assert_eq!(tree_level(2, usize::MAX), usize::BITS as usize);

    assert_eq!(node_fanout(1, 2), 1);
    assert_eq!(node_fanout(6, 2), 3);
    assert_eq!(node_fanout(9, 2), 3);
    assert_eq!(node_fanout(10, 2), 4);
    assert_eq!(node_fanout(125, 3), 5);
    assert_eq!(node_fanout(126, 3), 6);
    assert_eq!(node_fanout(200, 4), 4);
    assert_eq!(node_fanout(7, 1), 7);

    assert_eq!(pow_sat(5, 0), 1);
    assert_eq!(pow_sat(5, 3), 125);
    assert_eq!(pow_sat(1, 1000), 1);
    assert_eq!(pow_sat(2, 200), usize::MAX);

    assert_eq!(quantile(45, 6), 2);
    assert_eq!(quantile(55, 6), 3);
    assert_eq!(quantile(0, 9), 0);
    assert_eq!(quantile(50, 9), 4);
    assert_eq!(quantile(100, usize::MAX), usize::MAX);
}

#[test]
fn objects_without_extent_can_be_split_and_built() {
    // all rectangles are one point: no axis has an extent
    let point = mbr2((7, 7), (7, 7));
    let mut tree = LRTree::with_obj_space(ObjSpace::new(2, 2, 3));
    for i in 0..20usize {
        tree.insert(i, point.clone());
    }
    assert_eq!(found(&tree, &point).len(), 20);
    assert!(check_tree(tree.lock_obj_space()).1);
    tree.rebuild(45);
    assert_eq!(found(&tree, &point).len(), 20);
    check_tree(tree.lock_obj_space());
    assert!(found(&tree, &mbr2((8, 9), (7, 7))).is_empty());
}

#[test]
fn compacting_numbers_the_live_data_anew() {
    let mut space = ObjSpace::new(1, 2, 4);
    for i in 0..6i64 {
        space.make_data_node(i, MBR::new(vec![Bounds::new(i, i + 1)]));
    }
    space.mark_as_removed(vec![1, 4]);
    assert_eq!(space.data_num(), 4);
    assert!(space.is_removed(1) && space.is_removed(4) && !space.is_removed(0));
    assert_eq!(
        space.iter_data_ids(),
        vec![RecordId::Data(0), RecordId::Data(2), RecordId::Data(3), RecordId::Data(5)]
    );
    let listed: Vec<(usize, i64, i64)> =
        space.iter().into_iter().map(|(id, &o, m)| (id, o, m.bounds(0).min)).collect();
    assert_eq!(listed, vec![(0, 0, 0), (2, 2, 2), (3, 3, 3), (5, 5, 5)]);

    let compact = space.clone_shrinked();
    assert_eq!(compact.data_num(), 4);
    assert!(compact.is_unordered());
    let listed: Vec<(usize, i64, i64)> =
        compact.iter().into_iter().map(|(id, &o, m)| (id, o, m.bounds(0).min)).collect();
    assert_eq!(listed, vec![(0, 0, 0), (1, 2, 2), (2, 3, 3), (3, 5, 5)]);
    assert_eq!(compact.get_data(2).parent_id, RecordId::Root);

    space.restore_removed();
    assert_eq!(space.data_num(), 6);
    assert!(!space.is_removed(1));
    let both = common_mbr(space.get_data_mbr(0), space.get_data_mbr(5));
    assert_eq!(both, MBR::new(vec![Bounds::new(0, 6)]));
}

#[test]
fn static_build_follows_its_shares_not_the_fanout_limits() {
    // 5 data nodes with at most 3 per node make 2 levels, and the root gets
    // 3 leaves, the least k with k * k >= 5: one leaf holds a single node
    let data: Vec<(usize, MBR)> =
        (0..5).map(|i| (i, MBR::new(vec![Bounds::new(i as i64, i as i64 + 1)]))).collect();
    let tree = LRTree::with_obj_space(ObjSpace::with_data(1, 2, 3, data));
    let space = tree.lock_obj_space();
    let mut sizes: Vec<usize> = space
        .get_node(space.root_id)
        .payload
        .iter()
        .map(|&leaf| space.get_node(leaf).payload.len())
        .collect();
    sizes.sort();
    assert_eq!(sizes, vec![1, 2, 2]);
    assert_eq!(check_tree(space), (2, false));
    let all = MBR::new(vec![Bounds::new(0, 5)]);
    assert_eq!(found(&tree, &all).len(), 5);
}

#[test]
fn static_build_groups_neighbours() {
    // nine tiles in a row, given out of order: the build sorts them and makes
    // 3 leaves of neighbours; 45 hundredths of the nine open the first leaf,
    // which gets no more; of the other five the middle one goes to the last
    // leaf, where it costs as much as in the leaf before
    let order = [4usize, 8, 0, 6, 2, 7, 1, 5, 3];
    let data: Vec<(usize, MBR)> = order
        .iter()
        .map(|&i| (i, mbr2((10 * i as i64, 10 * i as i64 + 5), (0, 5))))
        .collect();
    let tree = LRTree::with_obj_space(ObjSpace::with_data(2, 2, 3, data));
    let space = tree.lock_obj_space();
    assert_eq!(check_tree(space), (2, false));
    let mut leaves: Vec<Vec<usize>> = space
        .get_node(space.root_id)
        .payload
        .iter()
        .map(|&leaf| {
            let mut held: Vec<usize> = space
                .get_node(leaf)
                .payload
                .iter()
                .map(|c| *space.get_data_payload(c.as_node_id()))
                .collect();
            held.sort();
            held
        })
        .collect();
    leaves.sort();
    assert_eq!(leaves, vec![vec![0, 1, 2, 3], vec![4, 5], vec![6, 7, 8]]);
}

#[test]
fn large_trees_stay_right() {
    let mut rng = Lcg(31337);
    let mbrs = rng.mbrs(3, 4000);
    let areas = rng.mbrs(3, 20);
    let none = HashSet::new();

    let data: Vec<(usize, MBR)> = mbrs.iter().cloned().enumerate().collect();
    let mut fixed = LRTree::with_obj_space(ObjSpace::with_data(3, 4, 10, data));
    let (height, _) = check_tree(fixed.lock_obj_space());
    // the least height with 10 to its power at least 4000
    assert_eq!(height, 4);
    for area in &areas {
        assert_eq!(found(&fixed, area), expected(&mbrs, area, &none));
    }

    let mut dynamic = LRTree::with_obj_space(ObjSpace::new(3, 4, 10));
    for (i, mbr) in mbrs.iter().enumerate() {
        dynamic.insert(i, mbr.clone());
    }
    let (_, fanout) = check_tree(dynamic.lock_obj_space());
    assert!(fanout);
    for area in &areas {
        assert_eq!(found(&dynamic, area), expected(&mbrs, area, &none));
    }

    // a third of the data is parked, then the tree is built anew with
    // another quantile
    let parked: HashSet<usize> = (0..4000).filter(|i| i % 3 == 0).collect();
    fixed.mark_as_removed(parked.iter().cloned().collect());
    fixed.rebuild(20);
    check_tree(fixed.lock_obj_space());
    for area in &areas {
        assert_eq!(found(&fixed, area), expected(&mbrs, area, &parked));
    }
}

#[test]
fn a_tree_takes_the_space_of_a_builder() {
    let mut rng = Lcg(11);
    let mbrs = rng.mbrs(2, 40);
    let data: Vec<(usize, MBR)> = mbrs.iter().cloned().enumerate().collect();
    let mut tree: LRTree<usize> = LRTree::with_obj_space(ObjSpace::new(2, 2, 5));
    tree.insert(1000, mbr2((0, 1), (0, 1)));
    let mut builder = LRTreeBuilder::with_obj_space(ObjSpace::with_data(2, 2, 5, data));
    builder.alpha = 30;
    tree.set_build(builder);
    check_tree(tree.lock_obj_space());
    assert_eq!(tree.lock_obj_space().data_num(), 40);
    let none = HashSet::new();
    for area in rng.mbrs(2, 20) {
        assert_eq!(found(&tree, &area), expected(&mbrs, &area, &none));
    }
    // a builder that has built hands on its space as it is
    let mut built = LRTreeBuilder::with_obj_space(ObjSpace::with_data(
        2,
        2,
        5,
        vec![(7usize, mbr2((0, 1), (0, 1)))],
    ));
    built.build();
    let space = built.obj_space.clone_shrinked();
    assert_eq!(space.data_num(), 1);
    tree.set_build(built);
    assert_eq!(tree.search(&mbr2((0, 5), (0, 5))), vec![0]);
}
