use topo_grid::grid::{parse_grid, GridError};
use topo_grid::layout::{color_of_altitude, layout_tiles, tile_size, Color};
use topo_grid::position::Position;

#[test]
fn tile_size_is_extent_over_larger_dimension() {
    let g = parse_grid(b"Sab\ncdE").unwrap();
    assert_eq!(tile_size(1200, &g), Ok(400));
    let tall = parse_grid(b"ab\ncd\nef\ngh").unwrap();
    assert_eq!(tile_size(1200, &tall), Ok(300));
}

#[test]
fn tile_size_is_uniform_across_all_tiles() {
    let g = parse_grid(b"Sab\ncdE").unwrap();
    let tiles = layout_tiles(&g, 1200).unwrap();
    assert_eq!(tiles.len(), 6);
    for t in &tiles {
        assert_eq!(t.size, 400);
    }
}

#[test]
fn degenerate_canvas_is_rejected() {
    let g = parse_grid(b"ab\ncd").unwrap();
    assert_eq!(tile_size(1, &g), Err(GridError::DegenerateCanvas));
    assert!(matches!(layout_tiles(&g, 1), Err(GridError::DegenerateCanvas)));
}

#[test]
fn colors_are_exact() {
    assert_eq!(color_of_altitude(254), Color { red: 255, green: 0, blue: 0 });
    assert_eq!(color_of_altitude(255), Color { red: 0, green: 255, blue: 0 });
    assert_eq!(color_of_altitude(0), Color { red: 0, green: 0, blue: 0 });
    assert_eq!(color_of_altitude(1), Color { red: 0, green: 0, blue: 9 });
    assert_eq!(color_of_altitude(25), Color { red: 0, green: 0, blue: 225 });
}

#[test]
fn end_to_end_layout_matches_example() {
    let g = parse_grid(b"Sab\ncdE").unwrap();
    let tiles = layout_tiles(&g, 1200).unwrap();
    assert_eq!(tiles.len(), 6);
    // row-major order: index = row * 3 + col
    let start = &tiles[0];
    assert_eq!(start.position, Position(0, 0));
    assert_eq!(start.color, Color { red: 255, green: 0, blue: 0 });
    assert_eq!(start.altitude, 254);
    let end = &tiles[5];
    assert_eq!(end.position, Position(2, 1));
    assert_eq!(end.color, Color { red: 0, green: 255, blue: 0 });
    assert_eq!(end.altitude, 255);
    let low = &tiles[1];
    assert_eq!(low.altitude, 0);
    assert_eq!(low.color, Color { red: 0, green: 0, blue: 0 });
    let one = &tiles[2];
    assert_eq!(one.altitude, 1);
    assert_eq!(one.color, Color { red: 0, green: 0, blue: 9 });
}

#[test]
fn tiles_are_centered_on_the_canvas() {
    let g = parse_grid(b"Sab\ncdE").unwrap();
    let tiles = layout_tiles(&g, 1200).unwrap();
    // tile size 400: origin is (400/2 - 1200/2, 400/2 - 1200/4) = (-400, -100)
    assert_eq!((tiles[0].x, tiles[0].y), (-400, -100));
    // cell (2, 1): (2 * 400 - 400, 1 * 400 - 100)
    assert_eq!((tiles[5].x, tiles[5].y), (400, 300));
}

#[test]
fn neighbors_are_the_eight_surrounding_cells() {
    assert!(Position(1, 1).is_neighbor(&Position(0, 0)));
    assert!(Position(1, 1).is_neighbor(&Position(2, 2)));
    assert!(Position(1, 1).is_neighbor(&Position(1, 2)));
    assert!(Position(1, 1).is_neighbor(&Position(0, 2)));
    assert!(!Position(1, 1).is_neighbor(&Position(1, 1)));
    assert!(!Position(1, 1).is_neighbor(&Position(3, 1)));
    assert!(!Position(0, 0).is_neighbor(&Position(2, 2)));
    assert!(Position(0, 0).is_neighbor(&Position(1, 0)));
}
