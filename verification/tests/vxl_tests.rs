use voxel_world::map::Color;
use voxel_world::vxl::{decode_column_at, parse_map};

const COLUMNS: usize = 512 * 512;

/// A column record with a single span that colours nothing.
fn empty_record() -> Vec<u8> {
    vec![0, 1, 0, 0]
}

/// A file whose columns are all empty but for the records given for the first columns.
fn map_file(first: Vec<Vec<u8>>) -> Vec<u8> {
    let mut bytes = Vec::new();
    let n = first.len();
    for record in first {
        bytes.extend_from_slice(&record);
    }
    for _ in n..COLUMNS {
        bytes.extend_from_slice(&empty_record());
    }
    bytes
}

fn color(r: u8, g: u8, b: u8) -> Option<Color> {
    Some(Color { r, g, b })
}

#[test]
fn all_empty_columns_give_an_empty_map() {
    let bytes = map_file(vec![]);
    let grid = parse_map(&bytes, (3, 512, 512)).unwrap();
    assert_eq!(grid.len(), 512);
    assert!(grid.iter().all(|plane| plane.len() == 512));
    assert!(grid.iter().all(|plane| plane.iter().all(|col| col.len() == 3 && col.iter().all(|v| v.is_none()))));
}

#[test]
fn top_run_colours_its_voxels() {
    // voxels 1 and 2 of column (0, 0): blue, green, red, unused per voxel
    let record = vec![0, 1, 2, 0, 10, 20, 30, 0, 11, 21, 31, 0];
    let bytes = map_file(vec![record]);
    let grid = parse_map(&bytes, (4, 512, 512)).unwrap();
    assert_eq!(grid[0][0], vec![None, color(30, 20, 10), color(31, 21, 11), None]);
    assert_eq!(grid[0][1], vec![None, None, None, None]);
}

#[test]
fn second_column_is_at_y_one() {
    let record = vec![0, 0, 0, 0, 1, 2, 3, 0];
    let bytes = map_file(vec![empty_record(), record]);
    let grid = parse_map(&bytes, (2, 512, 512)).unwrap();
    assert_eq!(grid[0][1], vec![color(3, 2, 1), None]);
    assert_eq!(grid[0][0], vec![None, None]);
    assert_eq!(grid[1][0], vec![None, None]);
}

#[test]
fn chained_span_colours_the_bottom_run() {
    // span 1: chunk length 3, top run z = 1..=1, then one bottom colour;
    // span 2 (12 bytes on): its fourth byte 4 ends the bottom run, so it is z = 3..4.
    let record = vec![3, 1, 1, 0, 5, 6, 7, 0, 8, 9, 10, 0, 0, 1, 0, 4];
    let bytes = map_file(vec![record]);
    let grid = parse_map(&bytes, (5, 512, 512)).unwrap();
    assert_eq!(grid[0][0], vec![None, color(7, 6, 5), None, color(10, 9, 8), None]);
}

#[test]
fn later_span_overwrites_earlier_colour() {
    // span 1 colours z = 0 red; span 2 colours z = 0 again, blue
    let record = vec![2, 0, 0, 0, 0, 0, 255, 0, 0, 0, 0, 1, 255, 0, 0, 0];
    let bytes = map_file(vec![record]);
    let grid = parse_map(&bytes, (1, 512, 512)).unwrap();
    assert_eq!(grid[0][0], vec![color(0, 0, 255)]);
}

#[test]
fn truncated_file_is_refused() {
    let mut bytes = map_file(vec![]);
    bytes.truncate(bytes.len() - 2);
    assert!(parse_map(&bytes, (1, 512, 512)).is_none());
}

#[test]
fn voxel_above_the_depth_is_refused() {
    let record = vec![0, 3, 3, 0, 1, 1, 1, 0];
    let bytes = map_file(vec![record]);
    assert!(parse_map(&bytes, (3, 512, 512)).is_none());
    assert!(parse_map(&bytes, (4, 512, 512)).is_some());
}

#[test]
fn smaller_map_keeps_its_columns_while_outer_columns_are_empty() {
    let bytes = map_file(vec![]);
    let grid = parse_map(&bytes, (2, 3, 4)).unwrap();
    assert_eq!(grid.len(), 4);
    assert_eq!(grid[3].len(), 3);
    assert_eq!(grid[3][2], vec![None, None]);
}

#[test]
fn coloured_column_outside_a_smaller_map_is_refused() {
    // column (0, 1) colours a voxel, but the map is one column wide in y
    let record = vec![0, 0, 0, 0, 1, 1, 1, 0];
    let bytes = map_file(vec![empty_record(), record]);
    assert!(parse_map(&bytes, (2, 1, 512)).is_none());
}

#[test]
fn larger_map_pads_with_empty_columns() {
    let record = vec![0, 0, 0, 0, 1, 2, 3, 0];
    let bytes = map_file(vec![record]);
    let grid = parse_map(&bytes, (1, 513, 514)).unwrap();
    assert_eq!(grid.len(), 514);
    assert_eq!(grid[0].len(), 513);
    assert_eq!(grid[0][0], vec![color(3, 2, 1)]);
    assert_eq!(grid[513][512], vec![None]);
    assert_eq!(grid[0][512], vec![None]);
}

#[test]
fn trailing_bytes_are_ignored() {
    let record = vec![0, 0, 0, 0, 1, 2, 3, 0];
    let bytes = map_file(vec![record]);
    let mut longer = bytes.clone();
    longer.extend_from_slice(&[9, 9, 9, 9, 9]);
    assert_eq!(parse_map(&bytes, (1, 512, 512)), parse_map(&longer, (1, 512, 512)));
    assert!(parse_map(&longer, (1, 512, 512)).is_some());
}

#[test]
fn top_end_of_255_is_refused() {
    let record = vec![0, 0, 255, 0];
    assert!(decode_column_at(&record, 0, 300, true, vec![None; 300]).is_none());
}

#[test]
fn start_after_end_plus_one_is_refused() {
    let record = vec![0, 5, 2, 0];
    assert!(decode_column_at(&record, 0, 8, true, vec![None; 8]).is_none());
}

#[test]
fn bottom_run_longer_than_its_end_is_refused() {
    // chunk length 3, top run of one voxel, so the bottom run has one voxel; its end byte is 0
    let record = vec![3, 1, 1, 0, 5, 6, 7, 0, 8, 9, 10, 0, 0, 1, 0, 0];
    assert!(decode_column_at(&record, 0, 8, true, vec![None; 8]).is_none());
}

#[test]
fn chunk_shorter_than_top_run_is_refused() {
    // chunk length 1 leaves no room for the top run's two voxels
    let record = vec![1, 0, 1, 0, 0, 1, 0, 0, 0, 0, 0, 0, 0, 0, 0, 0];
    assert!(decode_column_at(&record, 0, 8, true, vec![None; 8]).is_none());
}

#[test]
fn column_offset_after_record() {
    let record = vec![0, 2, 3, 0, 1, 1, 1, 0, 2, 2, 2, 0, 77];
    let (col, next) = decode_column_at(&record, 0, 4, true, vec![None; 4]).unwrap();
    assert_eq!(next, 12);
    assert_eq!(col, vec![None, None, color(1, 1, 1), color(2, 2, 2)]);
}

#[test]
fn column_not_writable_is_refused_only_when_it_colours() {
    assert!(decode_column_at(&empty_record(), 0, 4, false, vec![None; 4]).is_some());
    let record = vec![0, 0, 0, 0, 1, 1, 1, 0];
    assert!(decode_column_at(&record, 0, 4, false, vec![None; 4]).is_none());
}
