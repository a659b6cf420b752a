use plant_layer::heatmap::{heatmap, score_at, BoundingBox, CoreError, ScoredPoint, GRANULARITY};

fn bbox(x_min: i32, y_min: i32, x_max: i32, y_max: i32) -> BoundingBox {
    BoundingBox { x_min, y_min, x_max, y_max }
}

fn point(x: i32, y: i32, score: f32) -> ScoredPoint {
    ScoredPoint { x, y, score: score.to_bits() }
}

#[test]
fn test_granularity_is_ten() {
    assert_eq!(GRANULARITY, 10);
}

#[test]
fn test_grid_sizing() {
    // Width 95 and height 100 at granularity 10: ceil(95/10) = 10 columns,
    // ceil(100/10) = 10 rows.
    let grid = heatmap(&bbox(0, 0, 95, 100), &Vec::new()).unwrap();
    assert_eq!(grid.len(), 10);
    for row in &grid {
        assert_eq!(row.len(), 10);
    }
}

#[test]
fn test_grid_sizing_partial_trailing_cell() {
    // A single started granularity unit still gets its own row/column.
    let grid = heatmap(&bbox(0, 0, 1, 11), &Vec::new()).unwrap();
    assert_eq!(grid.len(), 2);
    assert_eq!(grid[0].len(), 1);
}

#[test]
fn test_grid_sizing_negative_extent() {
    let grid = heatmap(&bbox(-50, -30, 50, 30), &Vec::new()).unwrap();
    assert_eq!(grid.len(), 6);
    assert_eq!(grid[0].len(), 10);
}

#[test]
fn test_default_fill() {
    let grid = heatmap(&bbox(0, 0, 40, 30), &Vec::new()).unwrap();
    assert_eq!(grid.len(), 3);
    for row in &grid {
        assert_eq!(row.len(), 4);
        for &cell in row {
            assert_eq!(f32::from_bits(cell), 0.0);
        }
    }
}

#[test]
fn test_last_write_wins() {
    let points = vec![point(2, 1, 1.0), point(2, 1, 5.0)];
    let grid = heatmap(&bbox(0, 0, 95, 100), &points).unwrap();
    assert_eq!(f32::from_bits(grid[1][2]), 5.0);
}

#[test]
fn test_score_lands_at_row_column() {
    let points = vec![point(3, 0, 0.5), point(0, 2, -1.5)];
    let grid = heatmap(&bbox(0, 0, 40, 30), &points).unwrap();
    assert_eq!(f32::from_bits(grid[0][3]), 0.5);
    assert_eq!(f32::from_bits(grid[2][0]), -1.5);
    assert_eq!(f32::from_bits(grid[1][1]), 0.0);
}

#[test]
fn test_degenerate_box_zero_width() {
    let grid = heatmap(&bbox(5, 0, 5, 30), &Vec::new()).unwrap();
    assert_eq!(grid.len(), 3);
    for row in &grid {
        assert!(row.is_empty());
    }
}

#[test]
fn test_degenerate_box_zero_height() {
    let grid = heatmap(&bbox(0, 7, 30, 7), &Vec::new()).unwrap();
    assert!(grid.is_empty());
}

#[test]
fn test_out_of_range_point_rejected() {
    // Grid is 3 rows by 4 columns; column 4 does not exist.
    let points = vec![point(4, 0, 1.0)];
    let result = heatmap(&bbox(0, 0, 40, 30), &points);
    assert!(matches!(result, Err(CoreError::DomainInconsistency)));

    let points = vec![point(0, -1, 1.0)];
    let result = heatmap(&bbox(0, 0, 40, 30), &points);
    assert!(matches!(result, Err(CoreError::DomainInconsistency)));
}

#[test]
fn test_score_at_picks_last_delivery() {
    let points = vec![point(1, 1, 2.0), point(0, 0, 7.0), point(1, 1, -3.0)];
    assert_eq!(f32::from_bits(score_at(&points, 1, 1)), -3.0);
    assert_eq!(f32::from_bits(score_at(&points, 0, 0)), 7.0);
    assert_eq!(f32::from_bits(score_at(&points, 2, 2)), 0.0);
}
