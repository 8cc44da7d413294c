//! Web Mercator tiles, rectangles of tiles and the order in which they are walked.
use crate::double::Double;
use vstd::arithmetic::div_mod::lemma_fundamental_div_mod_converse;
use vstd::prelude::*;

verus! {

/// The width and the height of a tile image, in pixels.
pub const TILE_SIZE: u32 = 256;

/// The highest zoom level.
pub const MAX_ZOOM: u32 = 30;

/// A point on the globe.
#[derive(Debug, Clone, Copy, PartialEq, Eq, Structural)]
pub struct Coordinate {
    pub lon: Double,
    pub lat: Double,
}

/// A map tile.
#[derive(Debug, Clone, Copy, PartialEq, Eq, Structural)]
pub struct Tile {
    pub x: u32,
    pub y: u32,
    pub z: u32,
}

/// The part of the globe that a tile or a group of tiles covers.
#[derive(Debug, Clone, Copy, PartialEq, Eq, Structural)]
pub struct TileBounds {
    pub lat_min: Double,
    pub lon_min: Double,
    pub lat_max: Double,
    pub lon_max: Double,
}

/// How far a selection of tiles has come.
#[derive(Debug, Clone, Copy, PartialEq, Eq, Structural)]
pub struct SelectionProgress {
    pub scanned: usize,
    pub selected: usize,
    pub total: usize,
}

/// The progress after one more tile that matches or does not.
pub open spec fn advanced(progress: SelectionProgress, matches: bool) -> SelectionProgress {
    SelectionProgress {
        scanned: (progress.scanned + 1) as usize,
        selected: (progress.selected + if matches {
            1int
        } else {
            0int
        }) as usize,
        total: progress.total,
    }
}

impl SelectionProgress {
    /// The progress after one more tile that matches or does not.
    pub fn advance(self, matches: bool) -> (next: SelectionProgress)
        requires
            self.scanned < usize::MAX,
            self.selected <= self.scanned,
        ensures
            next == advanced(self, matches),
    {
        let selected: usize = if matches {
            self.selected + 1
        } else {
            self.selected
        };
        SelectionProgress { scanned: self.scanned + 1, selected, total: self.total }
    }
}

/// The tiles of a rectangle, row by row from the top, each row from the left.
pub open spec fn grid_tiles(x: u32, y: u32, width: nat, height: nat, z: u32) -> Seq<Tile> {
    Seq::new(
        width * height,
        |k: int| Tile { x: (x + k % width as int) as u32, y: (y + k / width as int) as u32, z },
    )
}

/// Whether the coordinates of a rectangle of tiles stay within the range of a coordinate.
pub open spec fn grid_fits(x: u32, y: u32, width: nat, height: nat) -> bool {
    width > 0 && height > 0 ==> x + width - 1 <= u32::MAX && y + height - 1 <= u32::MAX
}

/// The number of whole numbers from `low` to `high`, both included.
pub open spec fn span(low: u32, high: u32) -> nat {
    if low <= high {
        (high - low + 1) as nat
    } else {
        0
    }
}

/// The tiles with coordinates between the given ones, all included.
pub open spec fn range_tiles(min_x: u32, max_x: u32, min_y: u32, max_y: u32, z: u32) -> Seq<Tile> {
    grid_tiles(min_x, min_y, span(min_x, max_x), span(min_y, max_y), z)
}

/// The place of a tile in the walk over a rectangle.
pub proof fn lemma_grid_index(x: u32, y: u32, width: nat, height: nat, z: u32, i: int, j: int)
    requires
        0 <= i < width,
        0 <= j < height,
    ensures
        0 <= j * width + i < width * height,
        grid_tiles(x, y, width, height, z)[j * width + i] == (Tile {
            x: (x + i) as u32,
            y: (y + j) as u32,
            z,
        }),
{
    let w = width as int;
    let h = height as int;
    assert(0 <= j * w + i < w * h) by (nonlinear_arith)
        requires
            0 <= i < w,
            0 <= j < h,
    ;
    lemma_fundamental_div_mod_converse(j * w + i, w, j, i);
}

/// Every place of the walk over a rectangle lies in one column and one row.
pub proof fn lemma_grid_position(width: nat, height: nat, k: int)
    requires
        0 <= k < width * height,
    ensures
        0 < width,
        0 <= k % (width as int) < width,
        0 <= k / (width as int) < height,
        k == (k / (width as int)) * width + k % (width as int),
{
    let w = width as int;
    let h = height as int;
    assert(w > 0) by (nonlinear_arith)
        requires
            0 <= k < w * h,
            w >= 0,
            h >= 0,
    ;
    vstd::arithmetic::div_mod::lemma_fundamental_div_mod(k, w);
    assert(k / w < h) by (nonlinear_arith)
        requires
            k < w * h,
            k == w * (k / w) + k % w,
            0 <= k % w,
            w > 0,
    ;
    assert(k / w >= 0) by (nonlinear_arith)
        requires
            k >= 0,
            w > 0,
    ;
    assert(w * (k / w) == (k / w) * w) by (nonlinear_arith);
}

/// A rectangle holds each tile once, and holds a tile exactly where its coordinates lie in it.
pub proof fn law_grid_tiles(x: u32, y: u32, width: nat, height: nat, z: u32, tile: Tile)
    requires
        grid_fits(x, y, width, height),
    ensures
        grid_tiles(x, y, width, height, z).no_duplicates(),
        grid_tiles(x, y, width, height, z).contains(tile) <==> tile.z == z && x <= tile.x < x
            + width && y <= tile.y < y + height,
{
    let tiles = grid_tiles(x, y, width, height, z);
    assert forall|a: int, b: int| 0 <= a < tiles.len() && 0 <= b < tiles.len() && a != b implies
        tiles[a] != tiles[b] by {
        lemma_grid_position(width, height, a);
        lemma_grid_position(width, height, b);
        lemma_grid_index(x, y, width, height, z, a % width as int, a / width as int);
        lemma_grid_index(x, y, width, height, z, b % width as int, b / width as int);
    }
    if tiles.contains(tile) {
        let k = choose|k: int| 0 <= k < tiles.len() && tiles[k] == tile;
        lemma_grid_position(width, height, k);
        lemma_grid_index(x, y, width, height, z, k % width as int, k / width as int);
    }
    if tile.z == z && x <= tile.x < x + width && y <= tile.y < y + height {
        let i = tile.x - x;
        let j = tile.y - y;
        lemma_grid_index(x, y, width, height, z, i, j);
        assert(tiles[j * width + i] == tile);
    }
}

/// The order in which tiles are walked: row by row from the top, each row from the left.
pub open spec fn walked_before(a: Tile, b: Tile) -> bool {
    a.y < b.y || a.y == b.y && a.x < b.x
}

/// Each tile is walked before those that follow it.
pub open spec fn in_walk_order(tiles: Seq<Tile>) -> bool {
    forall|i: int, j: int|
        0 <= i < j < tiles.len() ==> walked_before(#[trigger] tiles[i], #[trigger] tiles[j])
}

/// A rectangle lists its tiles row by row, each row from the left.
pub proof fn law_grid_order(x: u32, y: u32, width: nat, height: nat, z: u32)
    requires
        grid_fits(x, y, width, height),
    ensures
        in_walk_order(grid_tiles(x, y, width, height, z)),
{
    let tiles = grid_tiles(x, y, width, height, z);
    assert forall|a: int, b: int| 0 <= a < b < tiles.len() implies walked_before(
        #[trigger] tiles[a],
        #[trigger] tiles[b],
    ) by {
        let w = width as int;
        lemma_grid_position(width, height, a);
        lemma_grid_position(width, height, b);
        lemma_grid_index(x, y, width, height, z, a % w, a / w);
        lemma_grid_index(x, y, width, height, z, b % w, b / w);
        vstd::arithmetic::div_mod::lemma_div_is_ordered(a, b, w);
    }
}

/// The tiles between the given coordinates, each exactly once, are as many as the counted ones.
pub proof fn law_range_tiles(min_x: u32, max_x: u32, min_y: u32, max_y: u32, z: u32, tile: Tile)
    ensures
        range_tiles(min_x, max_x, min_y, max_y, z).no_duplicates(),
        range_tiles(min_x, max_x, min_y, max_y, z).contains(tile) <==> tile.z == z && min_x
            <= tile.x <= max_x && min_y <= tile.y <= max_y,
        range_tiles(min_x, max_x, min_y, max_y, z).len() == span(min_x, max_x) * span(
            min_y,
            max_y,
        ),
{
    law_grid_tiles(min_x, min_y, span(min_x, max_x), span(min_y, max_y), z, tile);
}

fn list_grid(x: u32, y: u32, width: u64, height: u64, z: u32) -> (tiles: Vec<Tile>)
    requires
        grid_fits(x, y, width as nat, height as nat),
        width <= 0x1_0000_0000,
        height <= 0x1_0000_0000,
    ensures
        tiles@ == grid_tiles(x, y, width as nat, height as nat, z),
{
    let ghost all = grid_tiles(x, y, width as nat, height as nat, z);
    let mut tiles: Vec<Tile> = Vec::new();
    if width == 0 {
        assert(width as nat * height as nat == 0) by (nonlinear_arith)
            requires
                width == 0,
        ;
        assert(tiles@ =~= all);
        return tiles;
    }
    let mut j: u64 = 0;
    while j < height
        invariant
            0 <= j <= height,
            0 < width <= 0x1_0000_0000,
            height <= 0x1_0000_0000,
            grid_fits(x, y, width as nat, height as nat),
            all == grid_tiles(x, y, width as nat, height as nat, z),
            tiles@ == all.take(j * width),
            0 <= j * width <= all.len(),
        decreases height - j,
    {
        let mut i: u64 = 0;
        while i < width
            invariant
                0 <= j < height,
                0 <= i <= width,
                0 < width <= 0x1_0000_0000,
                height <= 0x1_0000_0000,
                grid_fits(x, y, width as nat, height as nat),
                all == grid_tiles(x, y, width as nat, height as nat, z),
                tiles@ == all.take(j * width + i),
                0 <= j * width + i <= all.len(),
            decreases width - i,
        {
            proof {
                lemma_grid_index(x, y, width as nat, height as nat, z, i as int, j as int);
            }
            let tile = Tile { x: (x as u64 + i) as u32, y: (y as u64 + j) as u32, z };
            tiles.push(tile);
            assert(all.take(j * width + i + 1) =~= all.take(j * width + i).push(tile));
            i = i + 1;
        }
        assert(j * width + width == (j + 1) * width) by (nonlinear_arith);
        j = j + 1;
    }
    assert(j * width == width * height) by (nonlinear_arith)
        requires
            j == height,
    ;
    assert(all.take(j * width) == all);
    tiles
}

/// Lists the tiles between the given coordinates, all included, row by row.
pub fn tiles_in_range(min_x: u32, max_x: u32, min_y: u32, max_y: u32, z: u32) -> (tiles: Vec<Tile>)
    ensures
        tiles@ == range_tiles(min_x, max_x, min_y, max_y, z),
{
    let width: u64 = if min_x <= max_x {
        (max_x - min_x) as u64 + 1
    } else {
        0
    };
    let height: u64 = if min_y <= max_y {
        (max_y - min_y) as u64 + 1
    } else {
        0
    };
    list_grid(min_x, min_y, width, height, z)
}

/// Counts the tiles between the given coordinates, all included.
pub fn range_tile_count(min_x: u32, max_x: u32, min_y: u32, max_y: u32) -> (count: usize)
    requires
        min_x <= max_x,
        min_y <= max_y,
        span(min_x, max_x) * span(min_y, max_y) <= usize::MAX,
    ensures
        count == range_tiles(min_x, max_x, min_y, max_y, 0).len(),
{
    let width: u64 = (max_x - min_x) as u64 + 1;
    let height: u64 = (max_y - min_y) as u64 + 1;
    assert(width <= width * height && height <= width * height) by (nonlinear_arith)
        requires
            width >= 1,
            height >= 1,
    ;
    width as usize * height as usize
}

/// Lists the tiles of a grid of the given columns and rows that starts at a tile and grows to the
/// right and downwards.
pub fn tile_grid(start: Tile, cols: u32, rows: u32) -> (tiles: Vec<Tile>)
    requires
        grid_fits(start.x, start.y, cols as nat, rows as nat),
    ensures
        tiles@ == grid_tiles(start.x, start.y, cols as nat, rows as nat, start.z),
{
    list_grid(start.x, start.y, cols as u64, rows as u64, start.z)
}

/// The smaller of two coordinates.
pub open spec fn smaller(a: u32, b: u32) -> u32 {
    if a <= b {
        a
    } else {
        b
    }
}

/// The larger of two coordinates.
pub open spec fn larger(a: u32, b: u32) -> u32 {
    if a <= b {
        b
    } else {
        a
    }
}

/// The tiles of the rectangle that two opposite corner tiles span, in whatever order they are
/// given.
pub open spec fn rectangle_tiles(a: Tile, b: Tile, z: u32) -> Seq<Tile> {
    range_tiles(smaller(a.x, b.x), larger(a.x, b.x), smaller(a.y, b.y), larger(a.y, b.y), z)
}

/// Lists the tiles of the rectangle that two opposite corner tiles span.
pub fn tile_grid_between(a: Tile, b: Tile, zoom: u32) -> (tiles: Vec<Tile>)
    ensures
        tiles@ == rectangle_tiles(a, b, zoom),
{
    let (min_x, max_x) = if a.x <= b.x {
        (a.x, b.x)
    } else {
        (b.x, a.x)
    };
    let (min_y, max_y) = if a.y <= b.y {
        (a.y, b.y)
    } else {
        (b.y, a.y)
    };
    tiles_in_range(min_x, max_x, min_y, max_y, zoom)
}

/// The rectangle of two corner tiles does not depend on their order and holds both corners.
pub proof fn law_rectangle_tiles(a: Tile, b: Tile, z: u32)
    ensures
        rectangle_tiles(a, b, z) == rectangle_tiles(b, a, z),
        a.z == z ==> rectangle_tiles(a, b, z).contains(a),
        b.z == z ==> rectangle_tiles(a, b, z).contains(b),
{
    let min_x = smaller(a.x, b.x);
    let max_x = larger(a.x, b.x);
    let min_y = smaller(a.y, b.y);
    let max_y = larger(a.y, b.y);
    law_range_tiles(min_x, max_x, min_y, max_y, z, a);
    law_range_tiles(min_x, max_x, min_y, max_y, z, b);
}

/// A walk over a rectangle of tiles that counts the tiles that were found to match.
#[derive(Debug)]
pub struct TileScan {
    x: u32,
    y: u32,
    width: u64,
    height: u64,
    z: u32,
    column: u64,
    row: u64,
    progress: SelectionProgress,
}

impl TileScan {
    /// The tiles that the walk visits, in order.
    pub closed spec fn tiles(self) -> Seq<Tile> {
        grid_tiles(self.x, self.y, self.width as nat, self.height as nat, self.z)
    }

    /// How many tiles were visited, how many of them matched and how many there are.
    pub closed spec fn counts(self) -> SelectionProgress {
        self.progress
    }

    /// The walk stands at one of its tiles, or behind the last.
    pub closed spec fn wf(self) -> bool {
        &&& grid_fits(self.x, self.y, self.width as nat, self.height as nat)
        &&& self.width <= 0x1_0000_0000
        &&& self.height <= 0x1_0000_0000
        &&& self.progress.total == self.width * self.height
        &&& self.progress.scanned == self.row * self.width + self.column
        &&& self.progress.scanned <= self.progress.total
        &&& self.progress.selected <= self.progress.scanned
        &&& (self.progress.scanned < self.progress.total ==> self.column < self.width && self.row
            < self.height)
    }

    fn start(x: u32, y: u32, width: u64, height: u64, z: u32) -> (scan: TileScan)
        requires
            grid_fits(x, y, width as nat, height as nat),
            width <= 0x1_0000_0000,
            height <= 0x1_0000_0000,
            width * height <= usize::MAX,
        ensures
            scan.wf(),
            scan.tiles() == grid_tiles(x, y, width as nat, height as nat, z),
            scan.counts() == (SelectionProgress {
                scanned: 0,
                selected: 0,
                total: (width * height) as usize,
            }),
    {
        assert(0 * width == 0) by (nonlinear_arith);
        assert(width * height <= 0x1_0000_0000 * 0x1_0000_0000) by (nonlinear_arith)
            requires
                width <= 0x1_0000_0000,
                height <= 0x1_0000_0000,
        ;
        let total: usize = (width as u128 * height as u128) as usize;
        assert(width > 0 && height > 0 || width * height == 0) by (nonlinear_arith)
            requires
                width >= 0,
                height >= 0,
        ;
        TileScan {
            x,
            y,
            width,
            height,
            z,
            column: 0,
            row: 0,
            progress: SelectionProgress { scanned: 0, selected: 0, total },
        }
    }

    /// Starts a walk over the rectangle that two opposite corner tiles span.
    pub fn between(a: Tile, b: Tile, zoom: u32) -> (scan: TileScan)
        requires
            rectangle_tiles(a, b, zoom).len() <= usize::MAX,
        ensures
            scan.wf(),
            scan.tiles() == rectangle_tiles(a, b, zoom),
            scan.counts() == (SelectionProgress {
                scanned: 0,
                selected: 0,
                total: rectangle_tiles(a, b, zoom).len() as usize,
            }),
    {
        let (min_x, max_x) = if a.x <= b.x {
            (a.x, b.x)
        } else {
            (b.x, a.x)
        };
        let (min_y, max_y) = if a.y <= b.y {
            (a.y, b.y)
        } else {
            (b.y, a.y)
        };
        TileScan::start(
            min_x,
            min_y,
            (max_x - min_x) as u64 + 1,
            (max_y - min_y) as u64 + 1,
            zoom,
        )
    }

    /// Starts a walk over a grid that starts at a tile.
    pub fn grid(start: Tile, cols: u32, rows: u32) -> (scan: TileScan)
        requires
            grid_fits(start.x, start.y, cols as nat, rows as nat),
            cols * rows <= usize::MAX,
        ensures
            scan.wf(),
            scan.tiles() == grid_tiles(start.x, start.y, cols as nat, rows as nat, start.z),
            scan.counts() == (SelectionProgress {
                scanned: 0,
                selected: 0,
                total: (cols * rows) as usize,
            }),
    {
        TileScan::start(start.x, start.y, cols as u64, rows as u64, start.z)
    }

    /// The tile at which the walk stands; nothing behind the last one.
    pub fn current(&self) -> (tile: Option<Tile>)
        requires
            self.wf(),
        ensures
            tile == (if self.counts().scanned < self.tiles().len() {
                Some(self.tiles()[self.counts().scanned as int])
            } else {
                None
            }),
    {
        if self.progress.scanned < self.progress.total {
            proof {
                lemma_grid_index(
                    self.x,
                    self.y,
                    self.width as nat,
                    self.height as nat,
                    self.z,
                    self.column as int,
                    self.row as int,
                );
            }
            Some(
                Tile {
                    x: (self.x as u64 + self.column) as u32,
                    y: (self.y as u64 + self.row) as u32,
                    z: self.z,
                },
            )
        } else {
            None
        }
    }

    /// Counts the current tile as matching or not and goes on to the next.
    pub fn record(&mut self, matches: bool) -> (progress: SelectionProgress)
        requires
            old(self).wf(),
            old(self).counts().scanned < old(self).tiles().len(),
        ensures
            final(self).wf(),
            final(self).tiles() == old(self).tiles(),
            final(self).counts() == progress,
            progress == advanced(old(self).counts(), matches),
    {
        let progress = self.progress.advance(matches);
        let scanned: usize = progress.scanned;
        let total: usize = progress.total;
        if self.column + 1 < self.width {
            self.column = self.column + 1;
        } else {
            assert(self.row * self.width + self.width == (self.row + 1) * self.width)
                by (nonlinear_arith);
            self.column = 0;
            self.row = self.row + 1;
        }
        assert(self.row < self.height || scanned == total) by (nonlinear_arith)
            requires
                self.row <= self.height,
                scanned == self.row * self.width + self.column,
                total == self.width * self.height,
                scanned <= total,
        ;
        self.progress = progress;
        progress
    }
}

/// The rectangle of two corner tiles holds exactly the tiles between them, each once, row by row
/// from the top and each row from the left.
pub proof fn law_rectangle_holds(a: Tile, b: Tile, z: u32, tile: Tile)
    ensures
        rectangle_tiles(a, b, z).contains(tile) <==> {
            &&& tile.z == z
            &&& a.x <= tile.x <= b.x || b.x <= tile.x <= a.x
            &&& a.y <= tile.y <= b.y || b.y <= tile.y <= a.y
        },
        rectangle_tiles(a, b, z).no_duplicates(),
        forall|i: int, j: int|
            0 <= i < j < rectangle_tiles(a, b, z).len() ==> {
                let first = #[trigger] rectangle_tiles(a, b, z)[i];
                let second = #[trigger] rectangle_tiles(a, b, z)[j];
                first.y < second.y || first.y == second.y && first.x < second.x
            },
        a.x <= b.x && a.y <= b.y ==> rectangle_tiles(a, b, z).len() == (b.x - a.x + 1) * (b.y - a.y
            + 1),
{
    let min_x = smaller(a.x, b.x);
    let max_x = larger(a.x, b.x);
    let min_y = smaller(a.y, b.y);
    let max_y = larger(a.y, b.y);
    law_range_tiles(min_x, max_x, min_y, max_y, z, tile);
    law_grid_order(min_x, min_y, span(min_x, max_x), span(min_y, max_y), z);
    let tiles = rectangle_tiles(a, b, z);
    assert forall|i: int, j: int| 0 <= i < j < tiles.len() implies {
        let first = #[trigger] tiles[i];
        let second = #[trigger] tiles[j];
        first.y < second.y || first.y == second.y && first.x < second.x
    } by {
        assert(walked_before(tiles[i], tiles[j]));
    }
}

/// A grid starts at its start tile and holds as many tiles as it has places; those of one row
/// follow each other to the right, and the one below a tile follows it by a row.
pub proof fn law_grid_steps(start: Tile, cols: u32, rows: u32, k: int)
    requires
        grid_fits(start.x, start.y, cols as nat, rows as nat),
        0 <= k < cols * rows,
    ensures
        ({
            let tiles = grid_tiles(start.x, start.y, cols as nat, rows as nat, start.z);
            &&& tiles.len() == cols * rows
            &&& tiles[0] == start
            &&& tiles[k].z == start.z
            &&& k + cols < cols * rows ==> tiles[k + cols] == (Tile {
                x: tiles[k].x,
                y: (tiles[k].y + 1) as u32,
                z: start.z,
            })
            &&& k + 1 < cols * rows && tiles[k].x < start.x + cols - 1 ==> tiles[k + 1] == (Tile {
                x: (tiles[k].x + 1) as u32,
                y: tiles[k].y,
                z: start.z,
            })
            &&& k + 1 < cols * rows && tiles[k].x == start.x + cols - 1 ==> tiles[k + 1] == (Tile {
                x: start.x,
                y: (tiles[k].y + 1) as u32,
                z: start.z,
            })
        }),
{
    let w = cols as int;
    let (x, y, z) = (start.x, start.y, start.z);
    lemma_grid_position(cols as nat, rows as nat, k);
    let i = k % w;
    let j = k / w;
    assert(rows > 0) by (nonlinear_arith)
        requires
            0 <= k < cols * rows,
    ;
    assert(0 * w + 0 == 0) by (nonlinear_arith);
    lemma_grid_index(x, y, cols as nat, rows as nat, z, 0, 0);
    lemma_grid_index(x, y, cols as nat, rows as nat, z, i, j);
    assert((j + 1) * w + i == j * w + i + w) by (nonlinear_arith);
    if k + cols < cols * rows {
        lemma_grid_position(cols as nat, rows as nat, k + w);
        lemma_fundamental_div_mod_converse(k + w, w, j + 1, i);
        lemma_grid_index(x, y, cols as nat, rows as nat, z, i, j + 1);
    }
    if k + 1 < cols * rows {
        lemma_grid_position(cols as nat, rows as nat, k + 1);
        if i + 1 < w {
            lemma_grid_index(x, y, cols as nat, rows as nat, z, i + 1, j);
        } else {
            assert((j + 1) * w + 0 == j * w + w) by (nonlinear_arith);
            lemma_fundamental_div_mod_converse(k + 1, w, j + 1, 0);
            lemma_grid_index(x, y, cols as nat, rows as nat, z, 0, j + 1);
        }
    }
}

/// One more tile counts as scanned, and as selected exactly where it matches; how many there are
/// does not change.
pub proof fn law_progress_counts_one_tile(progress: SelectionProgress, matches: bool)
    requires
        progress.scanned < usize::MAX,
        progress.selected <= progress.scanned,
    ensures
        advanced(progress, matches).scanned == progress.scanned + 1,
        matches ==> advanced(progress, matches).selected == progress.selected + 1,
        !matches ==> advanced(progress, matches).selected == progress.selected,
        advanced(progress, matches).total == progress.total,
{
}

} // verus!
