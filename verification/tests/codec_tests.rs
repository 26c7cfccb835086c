use hex_grid::coord::AxialCoord;
use hex_grid::grid::HexGrid;

fn bytes_of_one_record(q: i32, r: i32, text: &str) -> Vec<u8> {
    let mut expected: Vec<u8> = Vec::new();
    expected.extend_from_slice(&1u64.to_le_bytes());
    expected.extend_from_slice(&q.to_le_bytes());
    expected.extend_from_slice(&r.to_le_bytes());
    expected.extend_from_slice(&(text.len() as u64).to_le_bytes());
    expected.extend_from_slice(text.as_bytes());
    expected
}

#[test]
fn serialize_js_writes_the_documented_bytes() {
    let mut grid: HexGrid<String> = HexGrid::new();
    grid.insert(AxialCoord::new(1, -2), "null".to_string());
    let bytes = grid.serialize_js().unwrap();
    assert_eq!(
        bytes,
        vec![
            1, 0, 0, 0, 0, 0, 0, 0, // one record
            1, 0, 0, 0, // q = 1
            0xFE, 0xFF, 0xFF, 0xFF, // r = -2
            4, 0, 0, 0, 0, 0, 0, 0, // text of 4 bytes
            b'n', b'u', b'l', b'l',
        ]
    );
    assert_eq!(bytes, bytes_of_one_record(1, -2, "null"));
}

#[test]
fn serialize_js_of_an_empty_grid_is_a_zero_count() {
    let grid: HexGrid<String> = HexGrid::new();
    assert_eq!(grid.serialize_js().unwrap(), vec![0u8; 8]);
}

#[test]
fn serialize_js_writes_text_as_utf8() {
    let mut grid: HexGrid<String> = HexGrid::new();
    grid.insert(AxialCoord::new(-1, 0), "\"网格\"".to_string());
    let bytes = grid.serialize_js().unwrap();
    assert_eq!(bytes, bytes_of_one_record(-1, 0, "\"网格\""));
    assert_eq!(bytes.len(), 8 + 16 + 8);
}

#[test]
fn deserialize_js_reads_back_what_was_saved() {
    let mut grid: HexGrid<String> = HexGrid::new();
    grid.insert(AxialCoord::new(0, 0), "{\"terrain\":\"grass\",\"height\":1}".to_string());
    grid.insert(AxialCoord::new(1, 0), "[\"a\",\"b\",\"c\"]".to_string());
    grid.insert(AxialCoord::new(-5, 3), "true".to_string());
    let bytes = grid.serialize_js().unwrap();
    let entries = HexGrid::<String>::deserialize_js(&bytes).unwrap();
    assert_eq!(entries.len(), 3);
    let loaded = HexGrid::from_entries(entries);
    assert_eq!(loaded.len(), grid.len());
    for (c, v) in grid.iter() {
        assert_eq!(loaded.get(&c), Some(v));
    }
}

#[test]
fn deserialize_js_keeps_the_written_order() {
    let mut data = bytes_of_one_record(3, 4, "1");
    data[0] = 2;
    data.extend_from_slice(&(-3i32).to_le_bytes());
    data.extend_from_slice(&4i32.to_le_bytes());
    data.extend_from_slice(&2u64.to_le_bytes());
    data.extend_from_slice(b"22");
    let entries = HexGrid::<String>::deserialize_js(&data).unwrap();
    assert_eq!(
        entries,
        vec![(AxialCoord::new(3, 4), "1".to_string()), (AxialCoord::new(-3, 4), "22".to_string())]
    );
}

#[test]
fn deserialize_js_ignores_trailing_bytes() {
    let mut data = bytes_of_one_record(7, -7, "\"x\"");
    data.extend_from_slice(&[9, 9, 9]);
    let entries = HexGrid::<String>::deserialize_js(&data).unwrap();
    assert_eq!(entries, vec![(AxialCoord::new(7, -7), "\"x\"".to_string())]);
}

#[test]
fn deserialize_js_rejects_truncated_data() {
    let data = bytes_of_one_record(7, -7, "\"x\"");
    for cut in 0..data.len() {
        let res = HexGrid::<String>::deserialize_js(&data[..cut]);
        assert!(res.is_err(), "a prefix of {} bytes was accepted", cut);
    }
    let err = HexGrid::<String>::deserialize_js(&[]).unwrap_err();
    assert!(!err.message.is_empty());
}

#[test]
fn deserialize_js_rejects_invalid_utf8() {
    let mut data = bytes_of_one_record(0, 0, "ab");
    let n = data.len();
    data[n - 1] = 0xFF;
    assert!(HexGrid::<String>::deserialize_js(&data).is_err());
}

#[test]
fn deserialize_js_of_duplicates_lets_the_last_win_in_the_grid() {
    let mut data = bytes_of_one_record(1, 1, "\"first\"");
    data[0] = 2;
    data.extend_from_slice(&1i32.to_le_bytes());
    data.extend_from_slice(&1i32.to_le_bytes());
    data.extend_from_slice(&8u64.to_le_bytes());
    data.extend_from_slice(b"\"second\"");
    let entries = HexGrid::<String>::deserialize_js(&data).unwrap();
    assert_eq!(entries.len(), 2);
    let grid = HexGrid::from_entries(entries);
    assert_eq!(grid.len(), 1);
    assert_eq!(grid.get(&AxialCoord::new(1, 1)), Some(&"\"second\"".to_string()));
}
