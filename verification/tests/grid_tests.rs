use hex_grid::coord::AxialCoord;
use hex_grid::grid::HexGrid;

#[test]
fn test_hex_grid() {
    let mut grid: HexGrid<i32> = HexGrid::new();

    let coord1 = AxialCoord::new(0, 0);
    let coord2 = AxialCoord::new(-1, 1);
    let coord3 = AxialCoord::new(2, -3);

    assert!(grid.insert(coord1, 10).is_none());
    assert!(grid.insert(coord2, 20).is_none());
    assert!(grid.insert(coord3, 30).is_none());

    assert_eq!(grid.get(&coord1), Some(&10));
    assert_eq!(grid.get(&coord2), Some(&20));
    assert_eq!(grid.get(&coord3), Some(&30));

    let coord4 = AxialCoord::new(1, 1);
    assert_eq!(grid.get(&coord4), None);

    assert_eq!(grid.remove(&coord2), Some(20));
    assert_eq!(grid.get(&coord2), None);

    assert_eq!(grid.len(), 2);
    assert!(!grid.is_empty());

    grid.clear();
    assert_eq!(grid.len(), 0);
    assert!(grid.is_empty());
}

#[test]
fn insert_returns_previous_value() {
    let mut grid: HexGrid<&str> = HexGrid::new();
    let c = AxialCoord::new(3, -7);
    assert_eq!(grid.insert(c, "grass"), None);
    assert_eq!(grid.insert(c, "water"), Some("grass"));
    assert_eq!(grid.get(&c), Some(&"water"));
    assert_eq!(grid.len(), 1);
}

#[test]
fn extreme_coordinates_are_kept_apart() {
    let mut grid: HexGrid<u8> = HexGrid::new();
    let corners = [
        AxialCoord::new(i32::MIN, i32::MIN),
        AxialCoord::new(i32::MIN, i32::MAX),
        AxialCoord::new(i32::MAX, i32::MIN),
        AxialCoord::new(i32::MAX, i32::MAX),
        AxialCoord::new(0, -1),
        AxialCoord::new(-1, 0),
    ];
    for (i, c) in corners.iter().enumerate() {
        assert_eq!(grid.insert(*c, i as u8), None);
    }
    assert_eq!(grid.len(), corners.len());
    for (i, c) in corners.iter().enumerate() {
        assert_eq!(grid.get(c), Some(&(i as u8)));
    }
    let mut keys = grid.keys();
    keys.sort_by_key(|c| (c.q, c.r));
    let mut expected = corners.to_vec();
    expected.sort_by_key(|c| (c.q, c.r));
    assert_eq!(keys, expected);
}

#[test]
fn get_mut_writes_into_the_grid() {
    let mut grid: HexGrid<i32> = HexGrid::new();
    let c = AxialCoord::new(5, 5);
    assert!(grid.get_mut(&c).is_none());
    grid.insert(c, 1);
    if let Some(v) = grid.get_mut(&c) {
        *v += 41;
    }
    assert_eq!(grid.get(&c), Some(&42));
    assert!(grid.get_mut(&AxialCoord::new(5, 6)).is_none());
    assert_eq!(grid.len(), 1);
}

#[test]
fn contains_follows_insert_and_remove() {
    let mut grid: HexGrid<()> = HexGrid::new();
    let c = AxialCoord::new(-4, 9);
    assert!(!grid.contains(&c));
    grid.insert(c, ());
    assert!(grid.contains(&c));
    assert_eq!(grid.remove(&c), Some(()));
    assert!(!grid.contains(&c));
    assert_eq!(grid.remove(&c), None);
}

#[test]
fn iter_keys_and_values_list_each_cell_once() {
    let mut grid: HexGrid<i32> = HexGrid::new();
    for q in -2..3 {
        grid.insert(AxialCoord::new(q, q * 2), q * 10);
    }
    let mut entries: Vec<(i32, i32, i32)> =
        grid.iter().into_iter().map(|(c, v)| (c.q, c.r, *v)).collect();
    entries.sort();
    assert_eq!(
        entries,
        vec![(-2, -4, -20), (-1, -2, -10), (0, 0, 0), (1, 2, 10), (2, 4, 20)]
    );
    let mut keys: Vec<(i32, i32)> = grid.keys().into_iter().map(|c| (c.q, c.r)).collect();
    keys.sort();
    assert_eq!(keys, vec![(-2, -4), (-1, -2), (0, 0), (1, 2), (2, 4)]);
    let mut values: Vec<i32> = grid.values().into_iter().copied().collect();
    values.sort();
    assert_eq!(values, vec![-20, -10, 0, 10, 20]);
}

#[test]
fn empty_grid_lists_nothing() {
    let grid: HexGrid<String> = HexGrid::default();
    assert!(grid.is_empty());
    assert_eq!(grid.len(), 0);
    assert!(grid.iter().is_empty());
    assert!(grid.keys().is_empty());
    assert!(grid.values().is_empty());
}

#[test]
fn from_entries_keeps_the_last_entry_of_a_cell() {
    let a = AxialCoord::new(1, 1);
    let b = AxialCoord::new(2, -1);
    let grid = HexGrid::from_entries(vec![(a, 1), (b, 2), (a, 3)]);
    assert_eq!(grid.len(), 2);
    assert_eq!(grid.get(&a), Some(&3));
    assert_eq!(grid.get(&b), Some(&2));
}

#[test]
fn rebuilding_from_iter_gives_the_same_grid() {
    let mut grid: HexGrid<i32> = HexGrid::new();
    grid.insert(AxialCoord::new(0, 0), 7);
    grid.insert(AxialCoord::new(-3, 8), 9);
    let listing: Vec<(AxialCoord, i32)> = grid.iter().into_iter().map(|(c, v)| (c, *v)).collect();
    let copy = HexGrid::from_entries(listing);
    assert_eq!(copy.len(), grid.len());
    for (c, v) in grid.iter() {
        assert_eq!(copy.get(&c), Some(v));
    }
}

#[test]
fn remove_undoes_insert_into_empty_cell() {
    let mut grid: HexGrid<i32> = HexGrid::new();
    grid.insert(AxialCoord::new(1, 0), 1);
    let c = AxialCoord::new(0, 1);
    grid.insert(c, 2);
    assert_eq!(grid.len(), 2);
    grid.remove(&c);
    assert_eq!(grid.len(), 1);
    assert_eq!(grid.keys(), vec![AxialCoord::new(1, 0)]);
}
