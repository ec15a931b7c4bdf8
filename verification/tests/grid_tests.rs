use genesis_sim::spatial_grid::SpatialGrid;

/// Cell coordinate of a world coordinate for cells of edge `cs`.
fn cell(v: f32, cs: f32) -> i32 {
    (v / cs).floor() as i32
}

fn insert(grid: &mut SpatialGrid, idx: usize, x: f32, y: f32, z: f32, cs: f32) {
    grid.insert(idx, cell(x, cs), cell(y, cs), cell(z, cs));
}

fn query(grid: &SpatialGrid, x: f32, y: f32, z: f32, cs: f32) -> Vec<usize> {
    grid.query(cell(x, cs), cell(y, cs), cell(z, cs))
}

#[test]
fn insert_and_query_finds_nearby() {
    let cs = 1.0;
    let mut grid = SpatialGrid::new();
    insert(&mut grid, 0, 0.5, 0.5, 0.5, cs);
    insert(&mut grid, 1, 0.8, 0.8, 0.8, cs);
    insert(&mut grid, 2, 5.0, 5.0, 5.0, cs); // far away

    let neighbors = query(&grid, 0.5, 0.5, 0.5, cs);
    assert!(neighbors.contains(&0));
    assert!(neighbors.contains(&1));
    assert!(!neighbors.contains(&2));
}

#[test]
fn clear_removes_all() {
    let cs = 1.0;
    let mut grid = SpatialGrid::new();
    insert(&mut grid, 0, 0.0, 0.0, 0.0, cs);
    grid.clear();

    let neighbors = query(&grid, 0.0, 0.0, 0.0, cs);
    assert!(neighbors.is_empty());
}

#[test]
fn query_into_reuses_buffer() {
    let cs = 1.0;
    let mut grid = SpatialGrid::new();
    insert(&mut grid, 0, 1.0, 1.0, 1.0, cs);
    insert(&mut grid, 1, 1.5, 1.5, 1.5, cs);

    let mut buf = Vec::new();
    grid.query_into(cell(1.2, cs), cell(1.2, cs), cell(1.2, cs), &mut buf);
    assert!(buf.contains(&0));
    assert!(buf.contains(&1));
}

#[test]
fn query_order_and_wrapping() {
    let mut grid = SpatialGrid::new();
    grid.insert(7, 0, 0, 0);
    grid.insert(8, 1023, 0, 0); // neighbours 0 across the wrap
    grid.insert(9, -1, 0, 0); // same cell as 1023
    grid.insert(10, 2, 0, 0); // two cells away
    grid.insert(11, 1, 1, 1);
    let found = grid.query(0, 0, 0);
    assert_eq!(found, vec![8, 9, 7, 11]);
    let mut buf = vec![99, 98];
    grid.query_into(1024, 0, 0, &mut buf);
    assert_eq!(buf, vec![8, 9, 7, 11]);
    assert_eq!(grid.query(5, 5, 5), Vec::<usize>::new());
}

#[test]
fn query_returns_each_near_insertion_once() {
    let mut grid = SpatialGrid::new();
    grid.insert(3, 0, 0, 0);
    grid.insert(3, 1, 1, 1); // the same index again, in another near cell
    grid.insert(4, -1, -1, -1); // near through the wrap
    grid.insert(5, 1022, 0, 0); // two cells away across the wrap
    grid.insert(6, 1025, 1, 1023); // 1025 wraps to 1, 1023 to -1
    grid.insert(7, 0, 2, 0); // two cells away on y
    let mut found = grid.query(0, 0, 0);
    found.sort();
    assert_eq!(found, vec![3, 3, 4, 6]);

    grid.clear();
    grid.insert(8, 5, 5, 5);
    grid.insert(9, 6, 4, 5);
    let mut buf = vec![1, 2, 3];
    grid.query_into(5, 5, 5, &mut buf);
    buf.sort();
    assert_eq!(buf, vec![8, 9]);
}
