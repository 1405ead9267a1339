use camcam::polygon_tree::{PolygonTree, PolygonTreeItem};

fn nested_tree() -> PolygonTree<&'static str> {
    // 0 holds 1, 1 holds 2, 3 stands alone.
    let inside = vec![vec![], vec![true], vec![true, true], vec![false, false, false]];
    PolygonTree::from(
        vec![("outer", false), ("middle", true), ("inner", true), ("apart", false)],
        &inside,
    )
}

#[test]
fn tree_counts_top_polygons() {
    let tree = nested_tree();
    assert_eq!(tree.total_can_cuts(), (0, 2));
}

#[test]
fn removing_same_cut_lifts_children() {
    let mut tree = nested_tree();
    let ids = tree.remove_inner_of_same_cut();
    assert_eq!(ids, vec![2]);
    assert_eq!(tree.total_can_cuts(), (1, 0));
}

#[test]
fn removing_with_cut_outside() {
    let mut tree = nested_tree();
    tree.set_outer_can_cut_inside(true);
    let ids = tree.remove_inner_of_same_cut();
    assert_eq!(ids, vec![2]);
    assert_eq!(tree.total_can_cuts(), (0, 2));
}

#[test]
fn polygons_added_one_by_one() {
    let mut tree: PolygonTree<u32> = PolygonTree::default();
    tree.add_polygon(PolygonTreeItem::from(10, true), &vec![]);
    tree.add_polygon(PolygonTreeItem::from(20, true), &vec![false]);
    tree.add_polygon(PolygonTreeItem::from(30, true), &vec![true, false]);
    assert_eq!(tree.total_can_cuts(), (2, 0));
    let ids = tree.remove_inner_of_same_cut();
    assert_eq!(ids, vec![2]);
}

#[test]
fn empty_tree() {
    let mut tree: PolygonTree<u32> = PolygonTree::from(Vec::new(), &Vec::new());
    assert_eq!(tree.total_can_cuts(), (0, 0));
    assert_eq!(tree.remove_inner_of_same_cut(), Vec::<usize>::new());
}

#[test]
fn second_removal_changes_nothing() {
    let mut tree = nested_tree();
    assert_eq!(tree.remove_inner_of_same_cut(), vec![2]);
    assert_eq!(tree.remove_inner_of_same_cut(), Vec::<usize>::new());
    assert_eq!(tree.total_can_cuts(), (1, 0));
}

#[test]
fn removed_ids_come_in_removal_order() {
    // 0 (false) holds 1 (false) and 2 (false); 1 holds 3 (true).
    let inside = vec![vec![], vec![true], vec![true, false], vec![true, true, false]];
    let mut tree = PolygonTree::from(vec![(0u32, true), (1, true), (2, true), (3, false)], &inside);
    tree.set_outer_can_cut_inside(false);
    assert_eq!(tree.remove_inner_of_same_cut(), vec![1, 2]);
    assert_eq!(tree.total_can_cuts(), (1, 0));
}
