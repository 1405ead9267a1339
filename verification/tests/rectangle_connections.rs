use camcam::rectangle_connections::RectangleConnections;

fn marked_grid() -> RectangleConnections {
    let mut grid = RectangleConnections::from(3, 2);
    grid.add_rect(0, 0, 2, 2);
    grid.add_rect(2, 1, 3, 2);
    grid
}

fn groups(grid: RectangleConnections) -> Vec<(usize, usize, usize, usize)> {
    let mut itr = grid.into_itr();
    let mut out = Vec::new();
    while let Some(g) = itr.next_rect() {
        out.push(g);
    }
    out
}

#[test]
fn single_tiles_in_walk_order() {
    assert_eq!(
        groups(marked_grid()),
        vec![(0, 0, 1, 1), (1, 0, 1, 1), (0, 1, 1, 1), (1, 1, 1, 1), (2, 1, 1, 1)]
    );
}

#[test]
fn bigger_rectangles_merge_tiles() {
    let mut grid = marked_grid();
    grid.to_bigger_rect_iter();
    assert_eq!(groups(grid), vec![(0, 0, 2, 2), (2, 1, 1, 1)]);
}

#[test]
fn back_to_single_tiles() {
    let mut grid = marked_grid();
    grid.to_bigger_rect_iter();
    grid.to_smaller_rect_iter();
    assert_eq!(groups(grid).len(), 5);
}

#[test]
fn rectangles_are_cut_at_the_edges() {
    let mut grid = RectangleConnections::from(2, 2);
    grid.add_rect(1, 1, 10, 10);
    assert_eq!(groups(grid), vec![(1, 1, 1, 1)]);
}

#[test]
fn empty_grids_have_no_groups() {
    assert_eq!(groups(RectangleConnections::from(3, 3)), vec![]);
    let mut grid = RectangleConnections::from(0, 0);
    grid.add_rect(0, 0, 1, 1);
    assert_eq!(groups(grid), vec![]);
}
