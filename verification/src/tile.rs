//! The text a leaf is served as: one line `xxxyyyccc` per cell, for `x` and
//! `y` from 0 to `SIZE - 2`, row after row.
use vstd::prelude::*;

use crate::chunk::{grid_view, Chunk};
use crate::pixel::{pixel_text, Pixel};
use crate::scan::{lemma_scan_pixels_text, pixels_text, scan};
use crate::text::{push_char, push_format03};

verus! {

/// Number of rows (and of cells in a row) that the served text covers: `SIZE - 1`.
pub const TILE_SPAN: usize = 255;

/// The grid has the cells that the served text reads.
pub open spec fn covers_tile(grid: Seq<Seq<Pixel>>) -> bool {
    &&& grid.len() >= TILE_SPAN
    &&& forall|x: int| 0 <= x < TILE_SPAN ==> (#[trigger] grid[x]).len() >= TILE_SPAN
}

/// The `k`-th cell of the served text (row-major): its coordinates and colour.
pub open spec fn tile_cell(grid: Seq<Seq<Pixel>>, k: int) -> Pixel {
    let x = k / (TILE_SPAN as int);
    let y = k % (TILE_SPAN as int);
    Pixel { color: grid[x][y].color, x: x as u8, y: y as u8 }
}

/// The first `k` cells of the served text.
pub open spec fn tile_cells(grid: Seq<Seq<Pixel>>, k: int) -> Seq<Pixel>
    decreases k,
{
    if k <= 0 {
        Seq::empty()
    } else {
        tile_cells(grid, k - 1).push(tile_cell(grid, k - 1))
    }
}

/// The text a leaf with grid `grid` is served as.
pub open spec fn tile_text(grid: Seq<Seq<Pixel>>) -> Seq<char> {
    pixels_text(tile_cells(grid, (TILE_SPAN * TILE_SPAN) as int))
}

impl Chunk {
    /// The text of a leaf, one line per cell as `tile_text` says; `None` for a
    /// container.
    pub fn tile_csv(&self) -> (r: Option<String>)
        requires
            self@ is Leaf ==> covers_tile(self@->pixels),
        ensures
            r is Some <==> self@ is Leaf,
            r matches Some(s) ==> s@ == tile_text(self@->pixels),
    {
        match self {
            Chunk::Leaf { id: _, sessions: _, pixels } => {
                let ghost grid = grid_view(pixels@);
                let mut data = String::new();
                for x in 0..TILE_SPAN
                    invariant
                        grid == grid_view(pixels@),
                        covers_tile(grid),
                        data@ == pixels_text(tile_cells(grid, (x * TILE_SPAN) as int)),
                {
                    let row = &pixels[x];
                    assert(row@ == grid[x as int]);
                    for y in 0..TILE_SPAN
                        invariant
                            grid == grid_view(pixels@),
                            covers_tile(grid),
                            row@ == grid[x as int],
                            0 <= x < TILE_SPAN,
                            data@ == pixels_text(tile_cells(grid, (x * TILE_SPAN + y) as int)),
                    {
                        let ghost k = (x * TILE_SPAN + y) as int;
                        let ghost before = data@;
                        push_format03(&mut data, x as i32);
                        push_format03(&mut data, y as i32);
                        push_format03(&mut data, row[y].color as i32);
                        push_char(&mut data, '\n');
                        proof {
                            assert(k / (TILE_SPAN as int) == x as int);
                            assert(k % (TILE_SPAN as int) == y as int);
                            let cells = tile_cells(grid, k + 1);
                            assert(cells.drop_last() =~= tile_cells(grid, k));
                            assert(cells.last() == tile_cell(grid, k));
                            assert(data@ =~= before + pixel_text(tile_cell(grid, k)));
                        }
                    }
                }
                Some(data)
            },
            Chunk::Container { .. } => None,
        }
    }
}

/// Law: the text a leaf is served as reads back (`Chunk::from_string`) as its
/// cells in order, each with its coordinates and colour, when every colour it
/// covers is from -99 up.
pub proof fn lemma_tile_text_reads_back(grid: Seq<Seq<Pixel>>)
    requires
        covers_tile(grid),
        forall|x: int, y: int|
            0 <= x < TILE_SPAN && 0 <= y < TILE_SPAN ==> (#[trigger] grid[x][y]).color >= -99,
    ensures
        !scan(tile_text(grid)).failed,
        scan(tile_text(grid)).pixels == tile_cells(grid, (TILE_SPAN * TILE_SPAN) as int),
{
    let n = (TILE_SPAN * TILE_SPAN) as int;
    lemma_tile_cells(grid, n);
    lemma_scan_pixels_text(tile_cells(grid, n));
}

proof fn lemma_tile_cells(grid: Seq<Seq<Pixel>>, k: int)
    requires
        0 <= k <= TILE_SPAN * TILE_SPAN,
        covers_tile(grid),
        forall|x: int, y: int|
            0 <= x < TILE_SPAN && 0 <= y < TILE_SPAN ==> (#[trigger] grid[x][y]).color >= -99,
    ensures
        tile_cells(grid, k).len() == k,
        forall|i: int| 0 <= i < k ==> (#[trigger] tile_cells(grid, k)[i]).color >= -99,
    decreases k,
{
    if k > 0 {
        lemma_tile_cells(grid, k - 1);
        let x = (k - 1) / (TILE_SPAN as int);
        let y = (k - 1) % (TILE_SPAN as int);
        assert(grid[x][y].color >= -99);
        assert forall|i: int| 0 <= i < k implies (#[trigger] tile_cells(grid, k)[i]).color >= -99 by {
            if i < k - 1 {
                assert(tile_cells(grid, k)[i] == tile_cells(grid, k - 1)[i]);
            }
        }
    }
}

/// The cells of the served text, one by one.
proof fn lemma_tile_cells_index(grid: Seq<Seq<Pixel>>, k: int)
    requires
        0 <= k,
    ensures
        tile_cells(grid, k).len() == k,
        forall|i: int| 0 <= i < k ==> #[trigger] tile_cells(grid, k)[i] == tile_cell(grid, i),
    decreases k,
{
    if k > 0 {
        lemma_tile_cells_index(grid, k - 1);
        assert forall|i: int| 0 <= i < k implies #[trigger] tile_cells(grid, k)[i] == tile_cell(grid, i) by {
            if i < k - 1 {
                assert(tile_cells(grid, k)[i] == tile_cells(grid, k - 1)[i]);
            }
        }
    }
}

/// Law: the served text has one cell per place of the grid, row after row:
/// the cell for row `x` and column `y` comes at `x * 255 + y` and carries
/// `x`, `y` and the colour of the grid at `pixels[x][y]`.
pub proof fn lemma_tile_cells_hold_the_grid(grid: Seq<Seq<Pixel>>)
    ensures
        tile_cells(grid, (TILE_SPAN * TILE_SPAN) as int).len() == TILE_SPAN * TILE_SPAN,
        forall|x: int, y: int|
            #![trigger grid[x][y]]
            0 <= x < TILE_SPAN && 0 <= y < TILE_SPAN ==> tile_cells(grid, (TILE_SPAN * TILE_SPAN) as int)[x
                * TILE_SPAN + y] == (Pixel { color: grid[x][y].color, x: x as u8, y: y as u8 }),
{
    let n = (TILE_SPAN * TILE_SPAN) as int;
    lemma_tile_cells_index(grid, n);
    assert forall|x: int, y: int|
        #![trigger grid[x][y]]
        0 <= x < TILE_SPAN && 0 <= y < TILE_SPAN implies tile_cells(grid, n)[x * TILE_SPAN + y] == (
        Pixel { color: grid[x][y].color, x: x as u8, y: y as u8 }) by {
        let k = x * 255 + y;
        assert(0 <= k < n) by (nonlinear_arith)
            requires
                0 <= x < 255,
                0 <= y < 255,
                k == x * 255 + y,
                n == 255 * 255,
        ;
        assert(k / 255 == x && k % 255 == y) by (nonlinear_arith)
            requires
                0 <= x < 255,
                0 <= y < 255,
                k == x * 255 + y,
        ;
        assert(tile_cells(grid, n)[k] == tile_cell(grid, k));
    }
}

/// Law: reading the served text back (`Chunk::from_string`) gives, for row
/// `x` and column `y`, the pixel at `x`, `y` with the grid's colour there,
/// when every colour the text covers is from -99 up.
pub proof fn lemma_tile_text_holds_the_grid(grid: Seq<Seq<Pixel>>)
    requires
        covers_tile(grid),
        forall|x: int, y: int|
            0 <= x < TILE_SPAN && 0 <= y < TILE_SPAN ==> (#[trigger] grid[x][y]).color >= -99,
    ensures
        !scan(tile_text(grid)).failed,
        scan(tile_text(grid)).pixels.len() == TILE_SPAN * TILE_SPAN,
        forall|x: int, y: int|
            #![trigger grid[x][y]]
            0 <= x < TILE_SPAN && 0 <= y < TILE_SPAN ==> scan(tile_text(grid)).pixels[x * TILE_SPAN + y]
                == (Pixel { color: grid[x][y].color, x: x as u8, y: y as u8 }),
{
    lemma_tile_text_reads_back(grid);
    lemma_tile_cells_hold_the_grid(grid);
}

} // verus!
