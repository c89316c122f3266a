use topo_grid::grid::{parse_grid, GridError};

#[test]
fn parses_end_to_end_example() {
    let g = parse_grid(b"Sab\ncdE").unwrap();
    assert_eq!(g.cells, vec![vec![254, 0, 1], vec![2, 3, 255]]);
    assert_eq!(g.num_rows(), 2);
    assert_eq!(g.num_cols(), 3);
    assert_eq!(g.at(0, 0), 254);
    assert_eq!(g.at(1, 2), 255);
}

#[test]
fn rejects_unequal_row_lengths() {
    assert!(matches!(parse_grid(b"Sab\ncd"), Err(GridError::MalformedGrid)));
}

#[test]
fn maps_every_letter_to_alphabet_position() {
    let g = parse_grid(b"abcdefghijklmnopqrstuvwxyz").unwrap();
    assert_eq!(g.num_rows(), 1);
    assert_eq!(g.num_cols(), 26);
    for i in 0..26 {
        assert_eq!(g.at(0, i), i as u8);
    }
}

#[test]
fn maps_sentinels_anywhere() {
    let g = parse_grid(b"SE\nES").unwrap();
    assert_eq!(g.cells, vec![vec![254, 255], vec![255, 254]]);
}

#[test]
fn trims_outer_and_inner_whitespace() {
    let g = parse_grid(b"\n  Sab \r\n\tcdE  \n\n").unwrap();
    assert_eq!(g.cells, vec![vec![254, 0, 1], vec![2, 3, 255]]);
}

#[test]
fn parsing_twice_gives_identical_grids() {
    let input = b"Sab\ncdE";
    let g1 = parse_grid(input).unwrap();
    let g2 = parse_grid(input).unwrap();
    assert_eq!(g1.cells, g2.cells);
}

#[test]
fn rejects_invalid_character() {
    assert!(matches!(parse_grid(b"aZb"), Err(GridError::InvalidCharacter)));
}

#[test]
fn rejects_inner_space_as_invalid_character() {
    assert!(matches!(parse_grid(b"a b\nccc"), Err(GridError::InvalidCharacter)));
}

#[test]
fn rejects_empty_input() {
    assert!(matches!(parse_grid(b""), Err(GridError::MalformedGrid)));
}

#[test]
fn rejects_whitespace_only_input() {
    assert!(matches!(parse_grid(b"  \n \t\r\n"), Err(GridError::MalformedGrid)));
}

#[test]
fn rejects_blank_interior_line() {
    assert!(matches!(parse_grid(b"ab\n\ncd"), Err(GridError::MalformedGrid)));
}

#[test]
fn parses_single_cell() {
    let g = parse_grid(b"a").unwrap();
    assert_eq!(g.cells, vec![vec![0]]);
}
