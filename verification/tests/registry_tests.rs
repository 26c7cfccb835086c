use hex_grid::coord::AxialCoord;
use hex_grid::grid::HexGrid;
use hex_grid::registry::{GridRegistry, InsertOutcome};

#[test]
fn ids_start_at_one_and_increase() {
    let mut reg: GridRegistry<String> = GridRegistry::new();
    assert_eq!(reg.next_grid_id(), 1);
    assert_eq!(reg.create_grid(), Some(1));
    assert_eq!(reg.create_grid(), Some(2));
    assert_eq!(reg.next_grid_id(), 3);
    let mut ids = reg.list_grids();
    ids.sort();
    assert_eq!(ids, vec![1, 2]);
}

#[test]
fn insert_get_remove_in_a_grid() {
    let mut reg: GridRegistry<String> = GridRegistry::new();
    let id = reg.create_grid().unwrap();
    assert_eq!(reg.grid_insert(id, 0, 0, "grass".to_string()), InsertOutcome::Inserted);
    assert_eq!(reg.grid_insert(id, 1, 0, "water".to_string()), InsertOutcome::Inserted);
    assert_eq!(reg.grid_insert(id, 0, 0, "sand".to_string()), InsertOutcome::Replaced);
    assert_eq!(reg.grid_get(id, 0, 0), Some(&"sand".to_string()));
    assert_eq!(reg.grid_get(id, 2, 2), None);
    assert_eq!(reg.grid_contains(id, 1, 0), Some(true));
    assert_eq!(reg.grid_contains(id, 1, 1), Some(false));
    assert_eq!(reg.grid_len(id), Some(2));
    assert_eq!(reg.grid_remove(id, 1, 0), Some("water".to_string()));
    assert_eq!(reg.grid_remove(id, 1, 0), None);
    assert_eq!(reg.grid_len(id), Some(1));
    assert_eq!(reg.grid_keys(id), Some(vec![AxialCoord::new(0, 0)]));
}

#[test]
fn missing_grid_answers_none() {
    let mut reg: GridRegistry<i32> = GridRegistry::new();
    assert_eq!(reg.grid_insert(9, 0, 0, 1), InsertOutcome::GridMissing);
    assert_eq!(reg.grid_get(9, 0, 0), None);
    assert_eq!(reg.grid_remove(9, 0, 0), None);
    assert_eq!(reg.grid_contains(9, 0, 0), None);
    assert_eq!(reg.grid_len(9), None);
    assert_eq!(reg.grid_keys(9), None);
    assert!(reg.grid(9).is_none());
    assert!(!reg.grid_clear(9));
    assert!(!reg.destroy_grid(9));
    assert!(reg.list_grids().is_empty());
}

#[test]
fn grids_are_independent() {
    let mut reg: GridRegistry<i32> = GridRegistry::new();
    let a = reg.create_grid().unwrap();
    let b = reg.create_grid().unwrap();
    reg.grid_insert(a, 0, 0, 1);
    assert_eq!(reg.grid_get(b, 0, 0), None);
    assert_eq!(reg.grid_len(b), Some(0));
    assert_eq!(reg.grid_len(a), Some(1));
}

#[test]
fn clear_and_destroy() {
    let mut reg: GridRegistry<i32> = GridRegistry::new();
    let id = reg.create_grid().unwrap();
    reg.grid_insert(id, 3, 3, 3);
    assert!(reg.grid_clear(id));
    assert_eq!(reg.grid_len(id), Some(0));
    assert!(reg.destroy_grid(id));
    assert!(!reg.destroy_grid(id));
    assert_eq!(reg.grid_len(id), None);
    assert_eq!(reg.next_grid_id(), 2);
}

#[test]
fn restore_grid_replaces_or_adds() {
    let mut reg: GridRegistry<i32> = GridRegistry::new();
    let id = reg.create_grid().unwrap();
    reg.grid_insert(id, 0, 0, 1);
    let mut g: HexGrid<i32> = HexGrid::new();
    g.insert(AxialCoord::new(4, 4), 44);
    reg.restore_grid(id, g);
    assert_eq!(reg.grid_get(id, 0, 0), None);
    assert_eq!(reg.grid_get(id, 4, 4), Some(&44));
    let g2: HexGrid<i32> = HexGrid::new();
    reg.restore_grid(77, g2);
    assert_eq!(reg.grid_len(77), Some(0));
    assert_eq!(reg.next_grid_id(), 2);
    let grid = reg.grid(id).unwrap();
    assert_eq!(grid.len(), 1);
}

#[test]
fn create_grid_skips_ids_of_restored_grids() {
    let mut reg: GridRegistry<i32> = GridRegistry::new();
    let mut restored: HexGrid<i32> = HexGrid::new();
    restored.insert(AxialCoord::new(1, 2), 12);
    reg.restore_grid(1, restored);
    let mut other: HexGrid<i32> = HexGrid::new();
    other.insert(AxialCoord::new(0, 0), 5);
    reg.restore_grid(2, other);
    assert_eq!(reg.create_grid(), Some(3));
    assert_eq!(reg.grid_get(1, 1, 2), Some(&12));
    assert_eq!(reg.grid_get(2, 0, 0), Some(&5));
    assert_eq!(reg.grid_len(3), Some(0));
    assert_eq!(reg.next_grid_id(), 4);
    assert_eq!(reg.create_grid(), Some(4));
}

#[test]
fn create_grid_never_hands_out_the_largest_id() {
    let mut reg: GridRegistry<i32> = GridRegistry::new();
    reg.restore_grid(u32::MAX - 1, HexGrid::new());
    reg.restore_grid(1, HexGrid::new());
    assert_eq!(reg.create_grid(), Some(2));
    assert!(reg.next_grid_id() >= 1);
}
