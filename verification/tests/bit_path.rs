use camcam::bit_path::{Path, PathOrder};

fn test_path_complete(
    next_itr: PathOrder,
    width: usize,
    height: usize,
    start_x: usize,
    start_y: usize,
) -> bool {
    let mut has_seen = Vec::new();
    for _ in 0..width {
        let mut new_row = Vec::new();
        for _ in 0..height {
            new_row.push(false);
        }
        has_seen.push(new_row);
    }

    let mut last_x = start_x;
    let mut last_y = start_y;

    let mut itr = Path::from(width, height, next_itr)
        .set_x(start_x)
        .set_y(start_y)
        .into_itr();
    while let Some((x, y, is_down)) = itr.next_item() {
        let (x, y) = Path::identity(x, y);
        if !is_down {
            last_x = x;
            last_y = y;
            continue;
        }

        if (last_x as i64 - x as i64).abs() + (last_y as i64 - y as i64).abs() > 1 {
            println!("To big of a jump from x{} y{} to x{} y{}.", last_x, last_y, x, y);
            return false;
        }
        last_x = x;
        last_y = y;

        if has_seen[x][y] {
            return false;
        }
        has_seen[x][y] = true;
    }

    for r in has_seen {
        for x in r {
            if !x {
                println!("Did not see one");
                return false;
            }
        }
    }

    return true;
}

fn collect(next_itr: PathOrder, width: usize, height: usize, start_x: usize, start_y: usize) -> Vec<(usize, usize, bool)> {
    let mut itr = Path::from(width, height, next_itr).set_x(start_x).set_y(start_y).into_itr();
    let mut out = Vec::new();
    while let Some(item) = itr.next_item() {
        out.push(item);
    }
    out
}

#[test]
pub fn test_x_then_y() {
    assert!(
        test_path_complete(PathOrder::XThenY, 30, 100, 0, 0),
        "Failed test_x_then_y 30, 100, 0, 0"
    );
    assert!(
        test_path_complete(PathOrder::XThenY, 100, 100, 0, 0),
        "Failed test_x_then_y 100, 100, 0, 0"
    );
    assert!(
        test_path_complete(PathOrder::XThenY, 1, 1, 0, 0),
        "Failed test_x_then_y 1, 1, 0, 0"
    );
    assert!(
        test_path_complete(PathOrder::XThenY, 100, 1, 0, 0),
        "Failed test_x_then_y 100, 1, 0, 0"
    );
}

#[test]
pub fn test_y_then_x() {
    assert!(
        test_path_complete(PathOrder::YThenX, 30, 100, 0, 0),
        "Failed test_y_then_x 30, 100, 0, 0"
    );
    assert!(
        test_path_complete(PathOrder::YThenX, 100, 100, 0, 0),
        "Failed test_y_then_x 100, 100, 0, 0"
    );
    assert!(
        test_path_complete(PathOrder::YThenX, 1, 1, 0, 0),
        "Failed test_y_then_x 1, 1, 0, 0"
    );
    assert!(
        test_path_complete(PathOrder::YThenX, 100, 1, 0, 0),
        "Failed test_y_then_x 100, 1, 0, 0"
    );
}

#[test]
pub fn test_spiral_in_out() {
    assert!(
        test_path_complete(PathOrder::SpiralInOut, 10, 10, 5, 5),
        "Failed test_path_complete 10, 10, 5, 5"
    );
    assert!(
        test_path_complete(PathOrder::SpiralInOut, 8, 8, 4, 4),
        "Failed test_path_complete 8, 8, 4, 4"
    );
    assert!(
        test_path_complete(PathOrder::SpiralInOut, 7, 7, 3, 3),
        "Failed test_path_complete 7, 7, 3, 3"
    );
    assert!(
        test_path_complete(PathOrder::SpiralInOut, 1, 1, 0, 0),
        "Failed test_path_complete 1, 1, 0, 0"
    );
    assert!(
        test_path_complete(PathOrder::SpiralInOut, 16, 8, 8, 4),
        "Failed test_path_complete 16, 8, 8, 4"
    );
    assert!(
        test_path_complete(PathOrder::SpiralInOut, 8, 16, 4, 8),
        "Failed test_path_complete 8, 16, 4, 8"
    );
    assert!(
        test_path_complete(PathOrder::SpiralInOut, 16, 1, 8, 0),
        "Failed test_path_complete 16, 1, 8, 0"
    );
    assert!(
        test_path_complete(PathOrder::SpiralInOut, 1, 16, 0, 8),
        "Failed test_path_complete 1, 16, 0, 8"
    );
}

#[test]
fn x_then_y_small_grid_order() {
    assert_eq!(
        collect(PathOrder::XThenY, 3, 2, 0, 0),
        vec![(0, 0, true), (1, 0, true), (2, 0, true), (2, 1, true), (1, 1, true), (0, 1, true)]
    );
}

#[test]
fn y_then_x_small_grid_order() {
    assert_eq!(
        collect(PathOrder::YThenX, 2, 3, 0, 0),
        vec![(0, 0, true), (0, 1, true), (0, 2, true), (1, 2, true), (1, 1, true), (1, 0, true)]
    );
}

#[test]
fn spiral_starts_at_its_start_cell() {
    let items = collect(PathOrder::SpiralInOut, 5, 5, 2, 2);
    assert_eq!(items[0], (2, 2, true));
    assert_eq!(items.iter().filter(|i| i.2).count(), 25);
}

#[test]
fn start_middle_centres_the_start() {
    let items = {
        let mut itr = Path::from(6, 4, PathOrder::SpiralInOut).start_middle().into_itr();
        let mut out = Vec::new();
        while let Some(item) = itr.next_item() {
            out.push(item);
        }
        out
    };
    assert_eq!(items[0], (3, 2, true));
}

#[test]
fn identity_keeps_the_pair() {
    assert_eq!(Path::identity(3, 9), (3, 9));
}

#[test]
fn spiral_item_counts_on_wide_and_tall_grids() {
    let wide = {
        let mut itr = Path::from(16, 8, PathOrder::SpiralInOut).start_middle().into_itr();
        let mut out = Vec::new();
        while let Some(item) = itr.next_item() {
            out.push(item);
        }
        out
    };
    assert_eq!(wide.len(), 8 * 8 + (16 - 8) * (8 + 1));
    assert_eq!(wide.iter().filter(|i| !i.2).count(), 8);

    let tall = {
        let mut itr = Path::from(3, 8, PathOrder::SpiralInOut).start_middle().into_itr();
        let mut out = Vec::new();
        while let Some(item) = itr.next_item() {
            out.push(item);
        }
        out
    };
    assert_eq!(tall.len(), 3 * 3 + 3 + (8 - 3 - 1) * (3 + 1));
    assert_eq!(tall.iter().filter(|i| !i.2).count(), 4);
    assert_eq!(tall[12], (0, 6, false));
    assert_eq!(tall[13], (0, 6, true));
}

#[test]
fn spiral_covers_odd_sizes_from_the_middle() {
    for (w, h) in [(5, 3), (3, 5), (7, 2), (2, 7), (9, 9), (6, 6)] {
        assert!(test_path_complete(PathOrder::SpiralInOut, w, h, w / 2, h / 2));
    }
}

#[test]
fn stepping_is_allowed_on_ordinary_grids() {
    let mut itr = Path::from(4, 3, PathOrder::SpiralInOut).start_middle().into_itr();
    while itr.can_step() {
        if itr.next_item().is_none() {
            break;
        }
    }
    assert!(itr.next_item().is_none());
    let row = Path::from(usize::MAX, 1, PathOrder::XThenY).set_x(usize::MAX).into_itr();
    assert!(!row.can_step());
    let empty = Path::from(0, 3, PathOrder::SpiralInOut).into_itr();
    assert!(!empty.can_step());
}
