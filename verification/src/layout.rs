//! Tile layout: a uniform tile size, a color for each altitude code, and
//! one tile descriptor per cell, centered on the canvas.

use vstd::prelude::*;
use vstd::arithmetic::div_mod::{
    lemma_div_nonincreasing, lemma_div_pos_is_pos, lemma_fundamental_div_mod,
    lemma_fundamental_div_mod_converse, lemma_mod_division_less_than_divisor,
};
use crate::grid::{Grid, GridError, valid_code};
use crate::position::Position;

verus! {

/// A solid fill color, one byte per channel.
#[derive(Clone, Copy, Debug, PartialEq, Eq, Structural)]
pub struct Color {
    pub red: u8,
    pub green: u8,
    pub blue: u8,
}

/// The color an altitude code is drawn with: the start sentinel is pure
/// red, the end sentinel pure green, and terrain a blue ramp in steps of
/// `255 / 27` (integer division) per altitude unit.
pub open spec fn spec_color(c: u8) -> Color {
    if c == 254 {
        Color { red: 255, green: 0, blue: 0 }
    } else if c == 255 {
        Color { red: 0, green: 255, blue: 0 }
    } else {
        Color { red: 0, green: 0, blue: ((255int / 27) * c) as u8 }
    }
}

/// The color for one altitude code.
pub fn color_of_altitude(c: u8) -> (r: Color)
    requires
        valid_code(c),
    ensures
        r == spec_color(c),
{
    if c == 254 {
        Color { red: 255, green: 0, blue: 0 }
    } else if c == 255 {
        Color { red: 0, green: 255, blue: 0 }
    } else {
        let step: u8 = 255 / 27;
        assert(step == 9 && c <= 25);
        Color { red: 0, green: 0, blue: step * c }
    }
}

/// The larger of the grid's two dimensions.
pub open spec fn max_dim(g: Seq<Seq<u8>>) -> int {
    if g.len() >= g[0].len() {
        g.len() as int
    } else {
        g[0].len() as int
    }
}

/// The uniform tile edge length: the canvas extent divided (integer
/// division) by the larger grid dimension.
pub open spec fn spec_tile_size(extent: int, g: Seq<Seq<u8>>) -> int {
    extent / max_dim(g)
}

/// The shared edge length of every tile of a grid drawn on a canvas of
/// the given extent, or `DegenerateCanvas` when that length would be zero.
pub fn tile_size(canvas_extent: u32, g: &Grid) -> (r: Result<u32, GridError>)
    requires
        g.wf(),
    ensures
        spec_tile_size(canvas_extent as int, g@) == 0 ==> r == Err::<u32, GridError>(
            GridError::DegenerateCanvas,
        ),
        spec_tile_size(canvas_extent as int, g@) > 0 ==> r == Ok::<u32, GridError>(
            spec_tile_size(canvas_extent as int, g@) as u32,
        ),
{
    let nr: usize = g.num_rows();
    let nc: usize = g.num_cols();
    let m: usize = if nr >= nc {
        nr
    } else {
        nc
    };
    let ts: u64 = (canvas_extent as u64) / (m as u64);
    proof {
        lemma_div_pos_is_pos(canvas_extent as int, m as int);
        lemma_div_nonincreasing(canvas_extent as int, m as int);
    }
    if ts == 0 {
        Err(GridError::DegenerateCanvas)
    } else {
        Ok(ts as u32)
    }
}

/// One drawable tile: its cell, its screen position, its edge length, its
/// fill color, and the altitude code it stands for.
#[derive(Clone, Copy, Debug, PartialEq, Eq, Structural)]
pub struct Tile {
    pub position: Position,
    pub x: i64,
    pub y: i64,
    pub size: u32,
    pub color: Color,
    pub altitude: u8,
}

/// What the tile at index `i` of the row-major layout of grid `g` on a
/// canvas of extent `extent` holds. With `ts` the uniform tile size, the
/// cell at column `col` and row `row` is drawn at
/// `(col * ts, row * ts)` from an origin of
/// `(ts/2 - extent/2, ts/2 - extent/4)`, which centers the grid.
pub open spec fn tile_ok(g: Seq<Seq<u8>>, extent: int, i: int, t: Tile) -> bool {
    let c = g[0].len() as int;
    let row = i / c;
    let col = i % c;
    let ts = extent / max_dim(g);
    &&& t.position.0 == col
    &&& t.position.1 == row
    &&& t.altitude == g[row][col]
    &&& t.color == spec_color(g[row][col])
    &&& t.size == ts
    &&& t.x == col * ts + ts / 2 - extent / 2
    &&& t.y == row * ts + ts / 2 - extent / 4
}

/// A scaled index stays on the canvas: with `ts = extent / m` tiles of a
/// row or column of `m` cells, cell `col`'s offset `col * ts` leaves room
/// for one more tile.
proof fn lemma_scaled_index_bound(col: int, m: int, extent: int)
    requires
        0 <= col < m,
        0 <= extent,
    ensures
        0 <= col * (extent / m),
        col * (extent / m) <= extent - extent / m,
{
    let ts = extent / m;
    lemma_fundamental_div_mod(extent, m);
    lemma_mod_division_less_than_divisor(extent, m);
    lemma_div_pos_is_pos(extent, m);
    assert(m * ts <= extent);
    assert(0 <= col * ts && col * ts <= extent - ts) by (nonlinear_arith)
        requires
            0 <= col < m,
            0 <= ts,
            m * ts <= extent,
    ;
}

/// Tile size is uniform: every tile of one layout has the same size, the
/// canvas extent divided (integer division) by the larger grid dimension.
pub proof fn lemma_tile_size_uniform(g: Seq<Seq<u8>>, extent: int, v: Seq<Tile>)
    requires
        forall|i: int| 0 <= i < v.len() ==> tile_ok(g, extent, i, #[trigger] v[i]),
    ensures
        forall|i: int| 0 <= i < v.len() ==> (#[trigger] v[i]).size == extent / max_dim(g),
        forall|i: int, j: int|
            0 <= i < v.len() && 0 <= j < v.len() ==> (#[trigger] v[i]).size == (#[trigger] v[j]).size,
{
}

/// One tile per cell, in row-major order, each sized, placed and colored
/// as `tile_ok` says; `DegenerateCanvas` when the tile size would be zero.
pub fn layout_tiles(g: &Grid, canvas_extent: u32) -> (r: Result<Vec<Tile>, GridError>)
    requires
        g.wf(),
    ensures
        match r {
            Ok(v) => {
                &&& spec_tile_size(canvas_extent as int, g@) >= 1
                &&& v@.len() == g@.len() * g@[0].len()
                &&& forall|i: int|
                    0 <= i < v@.len() ==> tile_ok(g@, canvas_extent as int, i, #[trigger] v@[i])
            },
            Err(e) => {
                &&& e == GridError::DegenerateCanvas
                &&& spec_tile_size(canvas_extent as int, g@) == 0
            },
        },
{
    let ts: u32 = match tile_size(canvas_extent, g) {
        Ok(t) => t,
        Err(e) => {
            return Err(e);
        },
    };
    let nr: usize = g.num_rows();
    let nc: usize = g.num_cols();
    proof {
        let m = max_dim(g@);
        lemma_fundamental_div_mod(canvas_extent as int, m);
        lemma_mod_division_less_than_divisor(canvas_extent as int, m);
        assert(m <= canvas_extent as int) by (nonlinear_arith)
            requires
                1 <= m,
                1 <= canvas_extent as int / m,
                m * (canvas_extent as int / m) <= canvas_extent as int,
        ;
    }
    let half: i64 = (ts / 2) as i64;
    let offx: i64 = half - (canvas_extent / 2) as i64;
    let offy: i64 = half - (canvas_extent / 4) as i64;
    let mut tiles: Vec<Tile> = Vec::new();
    let mut row: usize = 0;
    while row < nr
        invariant
            g.wf(),
            nr == g@.len(),
            nc == g@[0].len(),
            1 <= ts <= canvas_extent,
            ts == spec_tile_size(canvas_extent as int, g@),
            nr <= canvas_extent && nc <= canvas_extent,
            half == ts as int / 2,
            offx == ts as int / 2 - canvas_extent as int / 2,
            offy == ts as int / 2 - canvas_extent as int / 4,
            row <= nr,
            tiles@.len() == row * nc,
            forall|i: int|
                0 <= i < tiles@.len() ==> tile_ok(g@, canvas_extent as int, i, #[trigger] tiles@[i]),
        decreases nr - row,
    {
        let mut col: usize = 0;
        while col < nc
            invariant
                g.wf(),
                nr == g@.len(),
                nc == g@[0].len(),
                1 <= ts <= canvas_extent,
                ts == spec_tile_size(canvas_extent as int, g@),
                nr <= canvas_extent && nc <= canvas_extent,
                half == ts as int / 2,
                offx == ts as int / 2 - canvas_extent as int / 2,
                offy == ts as int / 2 - canvas_extent as int / 4,
                row < nr,
                col <= nc,
                tiles@.len() == row * nc + col,
                forall|i: int|
                    0 <= i < tiles@.len() ==> tile_ok(
                        g@,
                        canvas_extent as int,
                        i,
                        #[trigger] tiles@[i],
                    ),
            decreases nc - col,
        {
            let a: u8 = g.at(row, col);
            let color: Color = color_of_altitude(a);
            proof {
                lemma_scaled_index_bound(col as int, max_dim(g@), canvas_extent as int);
                lemma_scaled_index_bound(row as int, max_dim(g@), canvas_extent as int);
            }
            let x: i64 = (col as i64) * (ts as i64) + offx;
            let y: i64 = (row as i64) * (ts as i64) + offy;
            let t = Tile {
                position: Position(col, row),
                x,
                y,
                size: ts,
                color,
                altitude: a,
            };
            proof {
                let i = tiles@.len() as int;
                lemma_fundamental_div_mod_converse(i, nc as int, row as int, col as int);
                assert(tile_ok(g@, canvas_extent as int, i, t));
            }
            tiles.push(t);
            col += 1;
        }
        proof {
            assert((row + 1) * nc == row * nc + nc) by (nonlinear_arith);
        }
        row += 1;
    }
    Ok(tiles)
}

} // verus!
