//! Which tiles a polygon selects.
use crate::double::{Double, highest, law_highest, law_lowest, lowest};
use crate::tile::{
    Coordinate, Tile, TileBounds, in_walk_order, larger, law_grid_order, rectangle_tiles, smaller,
    span, tile_grid_between, walked_before,
};
use vstd::prelude::*;

verus! {

/// The vertex before the given one, the last being the one before the first.
pub open spec fn previous_vertex(polygon: Seq<Coordinate>, i: int) -> Coordinate {
    if i == 0 {
        polygon[polygon.len() - 1]
    } else {
        polygon[i - 1]
    }
}

/// Whether a ray that runs east from the point meets the edge that ends at vertex `i`: the two
/// ends of the edge lie on different sides of the point's latitude, and the point lies west of
/// where the edge has that latitude.
pub open spec fn ray_meets_edge(
    point: Coordinate,
    polygon: Seq<Coordinate>,
    crossings: Seq<Double>,
    i: int,
) -> bool {
    &&& point.lat.below(polygon[i].lat) != point.lat.below(previous_vertex(polygon, i).lat)
    &&& point.lon.below(crossings[i])
}

/// The number of the first `n` edges that the ray from the point meets.
pub open spec fn edges_met(
    point: Coordinate,
    polygon: Seq<Coordinate>,
    crossings: Seq<Double>,
    n: int,
) -> nat
    decreases n,
{
    if n <= 0 {
        0
    } else if ray_meets_edge(point, polygon, crossings, n - 1) {
        edges_met(point, polygon, crossings, n - 1) + 1
    } else {
        edges_met(point, polygon, crossings, n - 1)
    }
}

/// Whether a point lies inside a polygon: the ray that runs east from it meets an odd number of
/// edges.
pub open spec fn inside(
    point: Coordinate,
    polygon: Seq<Coordinate>,
    crossings: Seq<Double>,
) -> bool {
    edges_met(point, polygon, crossings, polygon.len() as int) % 2 == 1
}

/// Whether a point lies inside a polygon. For each vertex, `crossings` holds the longitude at
/// which the line through that vertex and the one before it has the point's latitude.
pub fn point_in_polygon(
    point: Coordinate,
    polygon: &[Coordinate],
    crossings: &[Double],
) -> (answer: bool)
    requires
        polygon@.len() > 0,
        crossings@.len() == polygon@.len(),
    ensures
        answer == inside(point, polygon@, crossings@),
{
    let mut odd = false;
    let mut previous = polygon[polygon.len() - 1];
    let mut i: usize = 0;
    while i < polygon.len()
        invariant
            0 <= i <= polygon@.len(),
            crossings@.len() == polygon@.len(),
            i < polygon@.len() ==> previous == previous_vertex(polygon@, i as int),
            odd == (edges_met(point, polygon@, crossings@, i as int) % 2 == 1),
        decreases polygon@.len() - i,
    {
        let current = polygon[i];
        if point.lat.is_below(current.lat) != point.lat.is_below(previous.lat) {
            if point.lon.is_below(crossings[i]) {
                odd = !odd;
            }
        }
        previous = current;
        i = i + 1;
    }
    odd
}

/// A polygon's outermost coordinates: the north-west and the south-east corner of the box around
/// it.
pub open spec fn north_west(points: Seq<Coordinate>) -> Coordinate {
    Coordinate {
        lon: lowest(points.map_values(|p: Coordinate| p.lon)),
        lat: highest(points.map_values(|p: Coordinate| p.lat)),
    }
}

/// The south-east corner of the box around a polygon.
pub open spec fn south_east(points: Seq<Coordinate>) -> Coordinate {
    Coordinate {
        lon: highest(points.map_values(|p: Coordinate| p.lon)),
        lat: lowest(points.map_values(|p: Coordinate| p.lat)),
    }
}

/// The north-west and the south-east corner of the box around a polygon.
pub fn polygon_extent(points: &[Coordinate]) -> (corners: (Coordinate, Coordinate))
    ensures
        corners.0 == north_west(points@),
        corners.1 == south_east(points@),
{
    let ghost lons = points@.map_values(|p: Coordinate| p.lon);
    let ghost lats = points@.map_values(|p: Coordinate| p.lat);
    let mut min_lon = Double { bits: crate::double::PLUS_INFINITY };
    let mut max_lon = Double { bits: crate::double::MINUS_INFINITY };
    let mut min_lat = Double { bits: crate::double::PLUS_INFINITY };
    let mut max_lat = Double { bits: crate::double::MINUS_INFINITY };
    let mut i: usize = 0;
    while i < points.len()
        invariant
            0 <= i <= points@.len(),
            lons == points@.map_values(|p: Coordinate| p.lon),
            lats == points@.map_values(|p: Coordinate| p.lat),
            min_lon == lowest(lons.take(i as int)),
            max_lon == highest(lons.take(i as int)),
            min_lat == lowest(lats.take(i as int)),
            max_lat == highest(lats.take(i as int)),
        decreases points@.len() - i,
    {
        let p = points[i];
        proof {
            assert(lons.take(i + 1).drop_last() == lons.take(i as int));
            assert(lats.take(i + 1).drop_last() == lats.take(i as int));
            assert(lons.take(i + 1).last() == p.lon);
            assert(lats.take(i + 1).last() == p.lat);
        }
        min_lon = min_lon.min_with(p.lon);
        max_lon = max_lon.max_with(p.lon);
        min_lat = min_lat.min_with(p.lat);
        max_lat = max_lat.max_with(p.lat);
        i = i + 1;
    }
    proof {
        assert(lons.take(i as int) == lons);
        assert(lats.take(i as int) == lats);
    }
    (Coordinate { lon: min_lon, lat: max_lat }, Coordinate { lon: max_lon, lat: min_lat })
}

/// The corners of the part of the globe that a tile covers.
pub open spec fn corners(bounds: TileBounds) -> Seq<Coordinate> {
    seq![
        Coordinate { lon: bounds.lon_min, lat: bounds.lat_min },
        Coordinate { lon: bounds.lon_min, lat: bounds.lat_max },
        Coordinate { lon: bounds.lon_max, lat: bounds.lat_min },
        Coordinate { lon: bounds.lon_max, lat: bounds.lat_max },
    ]
}

/// The corners of the part of the globe that a tile covers.
pub fn tile_corners(bounds: &TileBounds) -> (result: Vec<Coordinate>)
    ensures
        result@ == corners(*bounds),
{
    let mut result: Vec<Coordinate> = Vec::new();
    result.push(Coordinate { lon: bounds.lon_min, lat: bounds.lat_min });
    result.push(Coordinate { lon: bounds.lon_min, lat: bounds.lat_max });
    result.push(Coordinate { lon: bounds.lon_max, lat: bounds.lat_min });
    result.push(Coordinate { lon: bounds.lon_max, lat: bounds.lat_max });
    result
}

/// What is measured of a tile against a polygon: the part of the globe that it covers, its centre,
/// and, for the centre and for each corner, the longitudes at which the polygon's edges have the
/// latitude of that point.
#[derive(Debug)]
pub struct TileProbe {
    pub bounds: TileBounds,
    pub center: Coordinate,
    pub center_crossings: Vec<Double>,
    pub corner_crossings: Vec<Vec<Double>>,
}

impl TileProbe {
    /// The probe has a crossing for each of the five points and each edge.
    pub open spec fn fits(self, points: Seq<Coordinate>) -> bool {
        &&& self.center_crossings@.len() == points.len()
        &&& self.corner_crossings@.len() == 4
        &&& forall|k: int|
            0 <= k < 4 ==> (#[trigger] self.corner_crossings@[k])@.len() == points.len()
    }

    /// Whether a vertex of the polygon lies on the tile.
    pub open spec fn covers(self, point: Coordinate) -> bool {
        &&& self.bounds.lon_min.at_most(point.lon)
        &&& point.lon.at_most(self.bounds.lon_max)
        &&& self.bounds.lat_min.at_most(point.lat)
        &&& point.lat.at_most(self.bounds.lat_max)
    }

    /// A polygon selects a tile whose centre or one of whose corners lies inside it, and a tile on
    /// which one of its vertices lies.
    pub open spec fn selected(self, points: Seq<Coordinate>) -> bool {
        ||| inside(self.center, points, self.center_crossings@)
        ||| exists|k: int|
            0 <= k < 4 && inside(
                corners(self.bounds)[k],
                points,
                (#[trigger] self.corner_crossings@[k])@,
            )
        ||| exists|i: int| 0 <= i < points.len() && self.covers(#[trigger] points[i])
    }
}

/// Whether a polygon selects a tile.
pub fn tile_intersects_polygon(probe: &TileProbe, points: &[Coordinate]) -> (answer: bool)
    requires
        points@.len() > 0,
        probe.fits(points@),
    ensures
        answer == probe.selected(points@),
{
    if point_in_polygon(probe.center, points, probe.center_crossings.as_slice()) {
        return true;
    }
    let corner_points = tile_corners(&probe.bounds);
    let mut k: usize = 0;
    while k < 4
        invariant
            0 <= k <= 4,
            points@.len() > 0,
            probe.fits(points@),
            corner_points@ == corners(probe.bounds),
            forall|m: int|
                0 <= m < k ==> !inside(
                    corners(probe.bounds)[m],
                    points@,
                    (#[trigger] probe.corner_crossings@[m])@,
                ),
        decreases 4 - k,
    {
        if point_in_polygon(corner_points[k], points, probe.corner_crossings[k].as_slice()) {
            return true;
        }
        k = k + 1;
    }
    let bounds = probe.bounds;
    let mut i: usize = 0;
    while i < points.len()
        invariant
            0 <= i <= points@.len(),
            bounds == probe.bounds,
            forall|m: int| 0 <= m < i ==> !probe.covers(#[trigger] points@[m]),
        decreases points@.len() - i,
    {
        let point = points[i];
        if bounds.lon_min.is_at_most(point.lon) && point.lon.is_at_most(bounds.lon_max)
            && bounds.lat_min.is_at_most(point.lat) && point.lat.is_at_most(bounds.lat_max) {
            assert(probe.covers(points@[i as int]));
            return true;
        }
        i = i + 1;
    }
    false
}

/// The tiles of a row that are marked, in order.
pub open spec fn marked(tiles: Seq<Tile>, marks: Seq<bool>) -> Seq<Tile>
    decreases tiles.len(),
{
    if tiles.len() == 0 {
        Seq::<Tile>::empty()
    } else if marks[tiles.len() - 1] {
        marked(tiles.drop_last(), marks).push(tiles.last())
    } else {
        marked(tiles.drop_last(), marks)
    }
}

/// The verdict on each probe of a row.
pub open spec fn verdicts(probes: Seq<TileProbe>, points: Seq<Coordinate>) -> Seq<bool> {
    probes.map_values(|probe: TileProbe| probe.selected(points))
}

/// The tiles that a polygon selects: of the rectangle between the tiles of the two corners of the
/// box around it, those that its probes speak for. Fewer than three points are no polygon and
/// select nothing.
pub open spec fn polygon_tiles(
    points: Seq<Coordinate>,
    first: Tile,
    second: Tile,
    zoom: u32,
    probes: Seq<TileProbe>,
) -> Seq<Tile> {
    if points.len() < 3 {
        Seq::<Tile>::empty()
    } else {
        marked(rectangle_tiles(first, second, zoom), verdicts(probes, points))
    }
}

/// One probe that fits for each tile of the rectangle.
pub open spec fn probes_fit(
    points: Seq<Coordinate>,
    first: Tile,
    second: Tile,
    zoom: u32,
    probes: Seq<TileProbe>,
) -> bool {
    points.len() >= 3 ==> {
        &&& probes.len() == rectangle_tiles(first, second, zoom).len()
        &&& forall|i: int| 0 <= i < probes.len() ==> (#[trigger] probes[i]).fits(points)
    }
}

/// Lists the tiles that a polygon selects. `first` and `second` are the tiles of the two corners of
/// the box around the polygon, and `probes` holds a probe for each tile of the rectangle between
/// them.
pub fn tile_grid_for_polygon(
    points: &[Coordinate],
    first: Tile,
    second: Tile,
    zoom: u32,
    probes: &[TileProbe],
) -> (tiles: Vec<Tile>)
    requires
        probes_fit(points@, first, second, zoom, probes@),
    ensures
        tiles@ == polygon_tiles(points@, first, second, zoom, probes@),
{
    let mut tiles: Vec<Tile> = Vec::new();
    if points.len() < 3 {
        return tiles;
    }
    let all = tile_grid_between(first, second, zoom);
    let ghost marks = verdicts(probes@, points@);
    let mut i: usize = 0;
    while i < all.len()
        invariant
            0 <= i <= all@.len(),
            all@ == rectangle_tiles(first, second, zoom),
            probes@.len() == all@.len(),
            points@.len() >= 3,
            marks == verdicts(probes@, points@),
            forall|k: int| 0 <= k < probes@.len() ==> (#[trigger] probes@[k]).fits(points@),
            tiles@ == marked(all@.take(i as int), marks),
        decreases all@.len() - i,
    {
        let ghost shorter = all@.take(i as int);
        assert(all@.take(i + 1).drop_last() == shorter);
        assert(marks[i as int] == probes@[i as int].selected(points@));
        if tile_intersects_polygon(&probes[i], points) {
            tiles.push(all[i]);
        }
        i = i + 1;
    }
    assert(all@.take(i as int) == all@);
    tiles
}

/// The number of marks that are set among the first `n`.
pub open spec fn marks_set(marks: Seq<bool>, n: int) -> nat
    decreases n,
{
    if n <= 0 {
        0
    } else if marks[n - 1] {
        marks_set(marks, n - 1) + 1
    } else {
        marks_set(marks, n - 1)
    }
}

/// Counting the marks gives the number of tiles that listing them gives.
pub proof fn law_count_is_length(tiles: Seq<Tile>, marks: Seq<bool>)
    requires
        tiles.len() <= marks.len(),
    ensures
        marked(tiles, marks).len() == marks_set(marks, tiles.len() as int),
    decreases tiles.len(),
{
    if tiles.len() > 0 {
        law_count_is_length(tiles.drop_last(), marks);
    }
}

/// A listed tile is one of the tiles with a mark, and every tile with a mark is listed.
pub proof fn law_marked_tiles(tiles: Seq<Tile>, marks: Seq<bool>, tile: Tile)
    requires
        tiles.len() <= marks.len(),
    ensures
        marked(tiles, marks).contains(tile) <==> exists|i: int|
            0 <= i < tiles.len() && marks[i] && #[trigger] tiles[i] == tile,
    decreases tiles.len(),
{
    if tiles.len() > 0 {
        let shorter = tiles.drop_last();
        let kept = marked(shorter, marks);
        let n = tiles.len() - 1;
        law_marked_tiles(shorter, marks, tile);
        if marked(tiles, marks).contains(tile) {
            let k = choose|k: int|
                0 <= k < marked(tiles, marks).len() && marked(tiles, marks)[k] == tile;
            if k < kept.len() {
                assert(kept[k] == tile);
                let i = choose|i: int|
                    0 <= i < shorter.len() && marks[i] && #[trigger] shorter[i] == tile;
                assert(tiles[i] == tile);
            } else {
                assert(tiles[n] == tile);
            }
        }
        if exists|i: int| 0 <= i < tiles.len() && marks[i] && #[trigger] tiles[i] == tile {
            let i = choose|i: int| 0 <= i < tiles.len() && marks[i] && #[trigger] tiles[i] == tile;
            if i < n {
                assert(shorter[i] == tile);
                assert(kept.contains(tile));
                let k = choose|k: int| 0 <= k < kept.len() && kept[k] == tile;
                assert(marked(tiles, marks)[k] == tile);
            } else {
                assert(marked(tiles, marks)[kept.len() as int] == tile);
            }
        }
    }
}

proof fn lemma_shared_edges(
    point: Coordinate,
    polygon: Seq<Coordinate>,
    crossings: Seq<Double>,
    closed: Seq<Coordinate>,
    closed_crossings: Seq<Double>,
    n: int,
)
    requires
        1 <= n <= polygon.len(),
        closed == polygon.push(polygon[0]),
        crossings.len() == polygon.len(),
        closed_crossings.len() == closed.len(),
        forall|i: int| 1 <= i < polygon.len() ==> closed_crossings[i] == crossings[i],
    ensures
        edges_met(point, polygon, crossings, n) == edges_met(point, closed, closed_crossings, n)
            + if ray_meets_edge(point, polygon, crossings, 0) {
            1nat
        } else {
            0nat
        },
    decreases n,
{
    if n > 1 {
        lemma_shared_edges(point, polygon, crossings, closed, closed_crossings, n - 1);
        assert(previous_vertex(polygon, n - 1) == previous_vertex(closed, n - 1));
        assert(polygon[n - 1] == closed[n - 1]);
        assert(closed_crossings[n - 1] == crossings[n - 1]);
    } else {
        assert(edges_met(point, polygon, crossings, 0) == 0);
        assert(edges_met(point, closed, closed_crossings, 0) == 0);
        assert(previous_vertex(closed, 0) == closed[0]);
        assert(!ray_meets_edge(point, closed, closed_crossings, 0));
    }
}

/// The closing edge of a polygon is implicit: naming the first vertex once more at the end does not
/// change which points lie inside.
pub proof fn law_closing_edge_is_implicit(
    point: Coordinate,
    polygon: Seq<Coordinate>,
    crossings: Seq<Double>,
    closed_crossings: Seq<Double>,
)
    requires
        polygon.len() > 0,
        crossings.len() == polygon.len(),
        closed_crossings.len() == polygon.len() + 1,
        forall|i: int| 1 <= i < polygon.len() ==> closed_crossings[i] == crossings[i],
        closed_crossings[polygon.len() as int] == crossings[0],
    ensures
        inside(point, polygon.push(polygon[0]), closed_crossings) == inside(
            point,
            polygon,
            crossings,
        ),
{
    let closed = polygon.push(polygon[0]);
    let n = polygon.len() as int;
    lemma_shared_edges(point, polygon, crossings, closed, closed_crossings, n);
    assert(previous_vertex(closed, n) == previous_vertex(polygon, 0));
    assert(closed[n] == polygon[0]);
    assert(ray_meets_edge(point, closed, closed_crossings, n) == ray_meets_edge(
        point,
        polygon,
        crossings,
        0,
    ));
    assert(edges_met(point, closed, closed_crossings, n + 1) == edges_met(
        point,
        polygon,
        crossings,
        n,
    ));
}

/// A polygon selects those tiles of the rectangle around it whose probe speaks for them, and no
/// others.
pub proof fn law_polygon_tiles(
    points: Seq<Coordinate>,
    first: Tile,
    second: Tile,
    zoom: u32,
    probes: Seq<TileProbe>,
    tile: Tile,
)
    requires
        points.len() >= 3,
        probes_fit(points, first, second, zoom, probes),
    ensures
        polygon_tiles(points, first, second, zoom, probes).contains(tile) <==> exists|i: int|
            0 <= i < probes.len() && probes[i].selected(points) && #[trigger] rectangle_tiles(
                first,
                second,
                zoom,
            )[i] == tile,
{
    let tiles = rectangle_tiles(first, second, zoom);
    let marks = verdicts(probes, points);
    law_marked_tiles(tiles, marks, tile);
    assert(forall|i: int|
        0 <= i < probes.len() ==> #[trigger] marks[i] == probes[i].selected(points));
}

proof fn lemma_marked_order(tiles: Seq<Tile>, marks: Seq<bool>)
    requires
        tiles.len() <= marks.len(),
        in_walk_order(tiles),
    ensures
        in_walk_order(marked(tiles, marks)),
    decreases tiles.len(),
{
    if tiles.len() > 0 {
        let front = tiles.drop_last();
        let kept = marked(front, marks);
        let whole = marked(tiles, marks);
        assert forall|i: int, j: int| 0 <= i < j < front.len() implies walked_before(
            #[trigger] front[i],
            #[trigger] front[j],
        ) by {
            assert(front[i] == tiles[i] && front[j] == tiles[j]);
        }
        lemma_marked_order(front, marks);
        assert forall|i: int, j: int| 0 <= i < j < whole.len() implies walked_before(
            #[trigger] whole[i],
            #[trigger] whole[j],
        ) by {
            assert(whole[i] == kept[i]);
            if j < kept.len() {
                assert(whole[j] == kept[j]);
            } else {
                assert(kept.contains(whole[i]));
                law_marked_tiles(front, marks, whole[i]);
                let k = choose|k: int|
                    0 <= k < front.len() && marks[k] && #[trigger] front[k] == whole[i];
                assert(tiles[k] == whole[i]);
                assert(whole[j] == tiles[tiles.len() - 1]);
            }
        }
    }
}

/// A polygon's tiles come row by row, each row from the left, and none of them twice.
pub proof fn law_polygon_order(
    points: Seq<Coordinate>,
    first: Tile,
    second: Tile,
    zoom: u32,
    probes: Seq<TileProbe>,
)
    requires
        probes_fit(points, first, second, zoom, probes),
    ensures
        in_walk_order(polygon_tiles(points, first, second, zoom, probes)),
        polygon_tiles(points, first, second, zoom, probes).no_duplicates(),
{
    let tiles = polygon_tiles(points, first, second, zoom, probes);
    if points.len() >= 3 {
        law_grid_order(
            smaller(first.x, second.x),
            smaller(first.y, second.y),
            span(smaller(first.x, second.x), larger(first.x, second.x)),
            span(smaller(first.y, second.y), larger(first.y, second.y)),
            zoom,
        );
        lemma_marked_order(rectangle_tiles(first, second, zoom), verdicts(probes, points));
    }
    assert forall|i: int, j: int| 0 <= i < tiles.len() && 0 <= j < tiles.len() && i != j implies
        tiles[i] != tiles[j] by {
        if i < j {
            assert(walked_before(tiles[i], tiles[j]));
        } else {
            assert(walked_before(tiles[j], tiles[i]));
        }
    }
}

/// A row that starts with its item number `k` and goes on with those before it.
pub open spec fn started_at<A>(items: Seq<A>, k: int) -> Seq<A> {
    items.skip(k) + items.take(k)
}

proof fn lemma_next_start(
    point: Coordinate,
    polygon: Seq<Coordinate>,
    crossings: Seq<Double>,
    n: int,
)
    requires
        0 <= n < polygon.len(),
        crossings.len() == polygon.len(),
    ensures
        edges_met(point, polygon, crossings, n + 1) == edges_met(
            point,
            started_at(polygon, 1),
            started_at(crossings, 1),
            n,
        ) + if ray_meets_edge(point, polygon, crossings, 0) {
            1nat
        } else {
            0nat
        },
    decreases n,
{
    let later = started_at(polygon, 1);
    let moved = started_at(crossings, 1);
    if n > 0 {
        lemma_next_start(point, polygon, crossings, n - 1);
        assert(later[n - 1] == polygon[n] && moved[n - 1] == crossings[n]);
        assert(previous_vertex(later, n - 1) == previous_vertex(polygon, n));
        assert(ray_meets_edge(point, later, moved, n - 1) == ray_meets_edge(
            point,
            polygon,
            crossings,
            n,
        ));
    } else {
        assert(edges_met(point, polygon, crossings, 0) == 0);
        assert(edges_met(point, later, moved, 0) == 0);
    }
}

/// The starting vertex of a polygon does not matter: which points lie inside is the same from
/// whatever vertex on it is named.
pub proof fn law_start_does_not_matter(
    point: Coordinate,
    polygon: Seq<Coordinate>,
    crossings: Seq<Double>,
    k: int,
)
    requires
        0 <= k < polygon.len(),
        crossings.len() == polygon.len(),
    ensures
        inside(point, started_at(polygon, k), started_at(crossings, k)) == inside(
            point,
            polygon,
            crossings,
        ),
    decreases k,
{
    if k == 0 {
        assert(started_at(polygon, 0) =~= polygon);
        assert(started_at(crossings, 0) =~= crossings);
    } else {
        law_start_does_not_matter(point, polygon, crossings, k - 1);
        let p = started_at(polygon, k - 1);
        let c = started_at(crossings, k - 1);
        let q = started_at(polygon, k);
        let d = started_at(crossings, k);
        let n = p.len() as int;
        assert(q =~= started_at(p, 1));
        assert(d =~= started_at(c, 1));
        lemma_next_start(point, p, c, n - 1);
        assert(q[n - 1] == p[0] && d[n - 1] == c[0]);
        assert(previous_vertex(q, n - 1) == previous_vertex(p, 0));
        assert(ray_meets_edge(point, q, d, n - 1) == ray_meets_edge(point, p, c, 0));
        assert(edges_met(point, q, d, n) == edges_met(point, p, c, n));
    }
}

/// The starting vertex of a polygon does not matter for the tiles that it selects either.
pub proof fn law_start_keeps_tiles(
    points: Seq<Coordinate>,
    probe: TileProbe,
    moved: TileProbe,
    k: int,
)
    requires
        0 <= k < points.len(),
        probe.fits(points),
        moved.fits(points),
        moved.bounds == probe.bounds,
        moved.center == probe.center,
        moved.center_crossings@ == started_at(probe.center_crossings@, k),
        forall|c: int|
            0 <= c < 4 ==> (#[trigger] moved.corner_crossings@[c])@ == started_at(
                probe.corner_crossings@[c]@,
                k,
            ),
    ensures
        moved.selected(started_at(points, k)) == probe.selected(points),
{
    let later = started_at(points, k);
    law_start_does_not_matter(probe.center, points, probe.center_crossings@, k);
    assert forall|c: int| 0 <= c < 4 implies inside(
        corners(probe.bounds)[c],
        later,
        (#[trigger] moved.corner_crossings@[c])@,
    ) == inside(corners(probe.bounds)[c], points, probe.corner_crossings@[c]@) by {
        assert(probe.corner_crossings@[c]@.len() == points.len());
        law_start_does_not_matter(
            corners(probe.bounds)[c],
            points,
            probe.corner_crossings@[c]@,
            k,
        );
    }
    if probe.selected(points) {
        if exists|i: int| 0 <= i < points.len() && probe.covers(#[trigger] points[i]) {
            let i = choose|i: int| 0 <= i < points.len() && probe.covers(#[trigger] points[i]);
            let j = if i >= k {
                i - k
            } else {
                i - k + points.len()
            };
            assert(later[j] == points[i]);
            assert(moved.covers(later[j]));
        } else if exists|c: int|
            0 <= c < 4 && inside(
                corners(probe.bounds)[c],
                points,
                (#[trigger] probe.corner_crossings@[c])@,
            ) {
            let c = choose|c: int|
                0 <= c < 4 && inside(
                    corners(probe.bounds)[c],
                    points,
                    (#[trigger] probe.corner_crossings@[c])@,
                );
            assert(inside(corners(moved.bounds)[c], later, moved.corner_crossings@[c]@));
        }
    }
    if moved.selected(later) {
        if exists|j: int| 0 <= j < later.len() && moved.covers(#[trigger] later[j]) {
            let j = choose|j: int| 0 <= j < later.len() && moved.covers(#[trigger] later[j]);
            let i = if j + k < points.len() {
                j + k
            } else {
                j + k - points.len()
            };
            assert(points[i] == later[j]);
            assert(probe.covers(points[i]));
        } else if exists|c: int|
            0 <= c < 4 && inside(
                corners(moved.bounds)[c],
                later,
                (#[trigger] moved.corner_crossings@[c])@,
            ) {
            let c = choose|c: int|
                0 <= c < 4 && inside(
                    corners(moved.bounds)[c],
                    later,
                    (#[trigger] moved.corner_crossings@[c])@,
                );
            assert(inside(corners(probe.bounds)[c], points, probe.corner_crossings@[c]@));
        }
    }
}

/// The edges of a polygon that the ray from a point meets.
pub open spec fn met_edges(
    point: Coordinate,
    polygon: Seq<Coordinate>,
    crossings: Seq<Double>,
) -> Set<int> {
    Set::new(
        |i: int| 0 <= i < polygon.len() && ray_meets_edge(point, polygon, crossings, i),
    )
}

proof fn lemma_edges_counted(
    point: Coordinate,
    polygon: Seq<Coordinate>,
    crossings: Seq<Double>,
    n: int,
)
    requires
        0 <= n <= polygon.len(),
    ensures
        ({
            let front = Set::new(
                |i: int| 0 <= i < n && ray_meets_edge(point, polygon, crossings, i),
            );
            front.finite() && front.len() == edges_met(point, polygon, crossings, n)
        }),
    decreases n,
{
    let front = Set::new(|i: int| 0 <= i < n && ray_meets_edge(point, polygon, crossings, i));
    if n == 0 {
        assert(front =~= Set::<int>::empty());
    } else {
        lemma_edges_counted(point, polygon, crossings, n - 1);
        let less = Set::new(
            |i: int| 0 <= i < n - 1 && ray_meets_edge(point, polygon, crossings, i),
        );
        if ray_meets_edge(point, polygon, crossings, n - 1) {
            assert(front =~= less.insert(n - 1));
        } else {
            assert(front =~= less);
        }
    }
}

/// A point lies inside exactly where its ray meets an odd number of edges: three as well as one,
/// and neither two nor four.
pub proof fn law_odd_edges_are_inside(
    point: Coordinate,
    polygon: Seq<Coordinate>,
    crossings: Seq<Double>,
)
    ensures
        met_edges(point, polygon, crossings).finite(),
        inside(point, polygon, crossings) <==> exists|pairs: nat| #[trigger]
            (2 * pairs) + 1 == met_edges(point, polygon, crossings).len(),
{
    let n = polygon.len() as int;
    lemma_edges_counted(point, polygon, crossings, n);
    let front = Set::new(|i: int| 0 <= i < n && ray_meets_edge(point, polygon, crossings, i));
    let met = met_edges(point, polygon, crossings);
    assert(met =~= front);
    if inside(point, polygon, crossings) {
        let pairs = (met.len() / 2) as nat;
        assert((2 * pairs) + 1 == met.len());
    }
}

proof fn lemma_edge_apart(
    a: Coordinate,
    b: Coordinate,
    polygon: Seq<Coordinate>,
    west: Seq<Double>,
    east: Seq<Double>,
    k: int,
    n: int,
)
    requires
        0 <= k < polygon.len(),
        0 <= n <= polygon.len(),
        forall|i: int|
            0 <= i < polygon.len() && i != k ==> ray_meets_edge(a, polygon, west, i)
                == ray_meets_edge(b, polygon, east, i),
        ray_meets_edge(a, polygon, west, k),
        !ray_meets_edge(b, polygon, east, k),
    ensures
        edges_met(a, polygon, west, n) == edges_met(b, polygon, east, n) + if k < n {
            1nat
        } else {
            0nat
        },
    decreases n,
{
    if n > 0 {
        lemma_edge_apart(a, b, polygon, west, east, k, n - 1);
    }
}

/// Each edge turns the answer round: of two points whose rays meet the same edges but for one, the
/// one lies inside and the other outside.
pub proof fn law_edge_turns_answer(
    a: Coordinate,
    b: Coordinate,
    polygon: Seq<Coordinate>,
    west: Seq<Double>,
    east: Seq<Double>,
    k: int,
)
    requires
        0 <= k < polygon.len(),
        forall|i: int|
            0 <= i < polygon.len() && i != k ==> ray_meets_edge(a, polygon, west, i)
                == ray_meets_edge(b, polygon, east, i),
        ray_meets_edge(a, polygon, west, k),
        !ray_meets_edge(b, polygon, east, k),
    ensures
        inside(a, polygon, west) != inside(b, polygon, east),
{
    lemma_edge_apart(a, b, polygon, west, east, k, polygon.len() as int);
}

/// A point whose ray meets no edge, two or four lies outside, and one whose ray meets one edge or
/// three lies inside.
pub proof fn law_few_edges(
    point: Coordinate,
    polygon: Seq<Coordinate>,
    crossings: Seq<Double>,
    a: int,
    b: int,
    c: int,
    d: int,
)
    requires
        a < b < c < d,
    ensures
        ({
            let met = met_edges(point, polygon, crossings);
            let answer = inside(point, polygon, crossings);
            &&& met == Set::<int>::empty() ==> !answer
            &&& met == set![a] ==> answer
            &&& met == set![a, b] ==> !answer
            &&& met == set![a, b, c] ==> answer
            &&& met == set![a, b, c, d] ==> !answer
        }),
{
    let n = polygon.len() as int;
    lemma_edges_counted(point, polygon, crossings, n);
    let met = met_edges(point, polygon, crossings);
    assert(met =~= Set::new(
        |i: int| 0 <= i < n && ray_meets_edge(point, polygon, crossings, i),
    ));
    assert(Set::<int>::empty().len() == 0);
    assert(set![a].len() == 1);
    assert(set![a, b].len() == 2);
    assert(set![a, b, c].len() == 3);
    assert(set![a, b, c, d].len() == 4);
}

/// Two further edges never change the answer: of two points whose rays meet the same edges but for
/// two that only one of them meets, both lie inside or both outside.
pub proof fn law_two_edges_change_nothing(
    a: Coordinate,
    b: Coordinate,
    polygon: Seq<Coordinate>,
    west: Seq<Double>,
    east: Seq<Double>,
    j: int,
    k: int,
)
    requires
        j != k,
        !met_edges(b, polygon, east).contains(j),
        !met_edges(b, polygon, east).contains(k),
        met_edges(a, polygon, west) == met_edges(b, polygon, east).insert(j).insert(k),
    ensures
        inside(a, polygon, west) == inside(b, polygon, east),
{
    let n = polygon.len() as int;
    lemma_edges_counted(a, polygon, west, n);
    lemma_edges_counted(b, polygon, east, n);
    assert(met_edges(a, polygon, west) =~= Set::new(
        |i: int| 0 <= i < n && ray_meets_edge(a, polygon, west, i),
    ));
    assert(met_edges(b, polygon, east) =~= Set::new(
        |i: int| 0 <= i < n && ray_meets_edge(b, polygon, east, i),
    ));
}

/// Which edges a ray meets: the edge that ends at a vertex starts at the one before it, that of the
/// first vertex at the last one. One of the two lies north of the point and the other does not, and
/// the point lies west of the crossing.
pub proof fn law_met_edges(
    point: Coordinate,
    polygon: Seq<Coordinate>,
    crossings: Seq<Double>,
    i: int,
)
    requires
        0 <= i < polygon.len(),
    ensures
        ({
            let from = if i > 0 {
                polygon[i - 1]
            } else {
                polygon.last()
            };
            let to = polygon[i];
            met_edges(point, polygon, crossings).contains(i) <==> point.lon.below(crossings[i]) && (
            point.lat.below(to.lat) && !point.lat.below(from.lat) || point.lat.below(from.lat)
                && !point.lat.below(to.lat))
        }),
{
}

/// Fewer than three points are no polygon: they select no tile.
pub proof fn law_two_points_select_nothing(
    points: Seq<Coordinate>,
    first: Tile,
    second: Tile,
    zoom: u32,
    probes: Seq<TileProbe>,
)
    requires
        points.len() <= 2,
    ensures
        polygon_tiles(points, first, second, zoom, probes) == Seq::<Tile>::empty(),
{
}

/// The points inside a box are those between its west and its east and between its south and its
/// north; its west and its south belong to it, its east and its north do not.
pub proof fn law_box_holds_its_points(
    point: Coordinate,
    west: Double,
    south: Double,
    east: Double,
    north: Double,
    crossings: Seq<Double>,
)
    requires
        !point.lon.nan(),
        !point.lat.nan(),
        west.below(east),
        south.below(north),
        crossings.len() == 4,
        crossings[0] == west,
        crossings[2] == east,
    ensures
        inside(
            point,
            seq![
                Coordinate { lon: west, lat: north },
                Coordinate { lon: east, lat: north },
                Coordinate { lon: east, lat: south },
                Coordinate { lon: west, lat: south },
            ],
            crossings,
        ) <==> south.at_most(point.lat) && point.lat.below(north) && west.at_most(point.lon)
            && point.lon.below(east),
{
    let polygon = seq![
        Coordinate { lon: west, lat: north },
        Coordinate { lon: east, lat: north },
        Coordinate { lon: east, lat: south },
        Coordinate { lon: west, lat: south },
    ];
    reveal_with_fuel(edges_met, 5);
    assert(previous_vertex(polygon, 0) == polygon[3]);
    assert(previous_vertex(polygon, 1) == polygon[0]);
    assert(previous_vertex(polygon, 2) == polygon[1]);
    assert(previous_vertex(polygon, 3) == polygon[2]);
    assert(!ray_meets_edge(point, polygon, crossings, 1));
    assert(!ray_meets_edge(point, polygon, crossings, 3));
}

/// A point that does not lie below any vertex, one that lies below all of them, and one that lies
/// east of all crossings are outside.
pub proof fn law_far_points_are_outside(
    point: Coordinate,
    polygon: Seq<Coordinate>,
    crossings: Seq<Double>,
)
    requires
        crossings.len() == polygon.len(),
        (forall|i: int| 0 <= i < polygon.len() ==> !point.lat.below((#[trigger] polygon[i]).lat))
            || (forall|i: int|
            0 <= i < polygon.len() ==> point.lat.below((#[trigger] polygon[i]).lat)) || (forall|
            i: int,
        |
            0 <= i < crossings.len() ==> !point.lon.below(#[trigger] crossings[i])),
    ensures
        !inside(point, polygon, crossings),
{
    lemma_none_met(point, polygon, crossings, polygon.len() as int);
}

proof fn lemma_none_met(
    point: Coordinate,
    polygon: Seq<Coordinate>,
    crossings: Seq<Double>,
    n: int,
)
    requires
        0 <= n <= polygon.len(),
        crossings.len() == polygon.len(),
        (forall|i: int| 0 <= i < polygon.len() ==> !point.lat.below((#[trigger] polygon[i]).lat))
            || (forall|i: int|
            0 <= i < polygon.len() ==> point.lat.below((#[trigger] polygon[i]).lat)) || (forall|
            i: int,
        |
            0 <= i < crossings.len() ==> !point.lon.below(#[trigger] crossings[i])),
    ensures
        edges_met(point, polygon, crossings, n) == 0,
    decreases n,
{
    if n > 0 {
        lemma_none_met(point, polygon, crossings, n - 1);
        let before = if n == 1 {
            polygon.len() - 1
        } else {
            n - 2
        };
        assert(previous_vertex(polygon, n - 1) == polygon[before]);
        assert(crossings[n - 1] == crossings[n - 1]);
    }
}

/// A tile is selected exactly where its middle or one of its four corners lies inside the polygon,
/// or a vertex of the polygon lies on it, its borders included.
pub proof fn law_selected_tiles(probe: TileProbe, points: Seq<Coordinate>)
    requires
        probe.fits(points),
    ensures
        ({
            let b = probe.bounds;
            let c = probe.corner_crossings@;
            probe.selected(points) <==> {
                ||| inside(probe.center, points, probe.center_crossings@)
                ||| inside(Coordinate { lon: b.lon_min, lat: b.lat_min }, points, c[0]@)
                ||| inside(Coordinate { lon: b.lon_min, lat: b.lat_max }, points, c[1]@)
                ||| inside(Coordinate { lon: b.lon_max, lat: b.lat_min }, points, c[2]@)
                ||| inside(Coordinate { lon: b.lon_max, lat: b.lat_max }, points, c[3]@)
                ||| exists|i: int|
                    0 <= i < points.len() && b.lon_min.at_most((#[trigger] points[i]).lon)
                        && points[i].lon.at_most(b.lon_max) && b.lat_min.at_most(points[i].lat)
                        && points[i].lat.at_most(b.lat_max)
            }
        }),
{
    let b = probe.bounds;
    let c = probe.corner_crossings@;
    let at = corners(b);
    assert(at[0] == Coordinate { lon: b.lon_min, lat: b.lat_min });
    assert(at[1] == Coordinate { lon: b.lon_min, lat: b.lat_max });
    assert(at[2] == Coordinate { lon: b.lon_max, lat: b.lat_min });
    assert(at[3] == Coordinate { lon: b.lon_max, lat: b.lat_max });
    if inside(at[0], points, c[0]@) || inside(at[1], points, c[1]@) || inside(at[2], points, c[2]@)
        || inside(at[3], points, c[3]@) {
        assert(probe.selected(points));
    }
    if exists|k: int| 0 <= k < 4 && inside(at[k], points, (#[trigger] c[k])@) {
        let k = choose|k: int| 0 <= k < 4 && inside(at[k], points, (#[trigger] c[k])@);
        assert(k == 0 || k == 1 || k == 2 || k == 3);
    }
    if exists|i: int| 0 <= i < points.len() && probe.covers(#[trigger] points[i]) {
        let i = choose|i: int| 0 <= i < points.len() && probe.covers(#[trigger] points[i]);
        assert(b.lon_min.at_most(points[i].lon));
    }
    if exists|i: int|
        0 <= i < points.len() && b.lon_min.at_most((#[trigger] points[i]).lon)
            && points[i].lon.at_most(b.lon_max) && b.lat_min.at_most(points[i].lat)
            && points[i].lat.at_most(b.lat_max) {
        let i = choose|i: int|
            0 <= i < points.len() && b.lon_min.at_most((#[trigger] points[i]).lon)
                && points[i].lon.at_most(b.lon_max) && b.lat_min.at_most(points[i].lat)
                && points[i].lat.at_most(b.lat_max);
        assert(probe.covers(points[i]));
    }
}

/// The box around a polygon holds every vertex: none lies west or north of its north-west corner,
/// and none east or south of its south-east corner. Where the polygon has a vertex and all are
/// finite, each side of the box is that of some vertex.
pub proof fn law_box_around_polygon(points: Seq<Coordinate>)
    ensures
        forall|i: int|
            0 <= i < points.len() ==> !(#[trigger] points[i]).lon.below(north_west(points).lon)
                && !north_west(points).lat.below(points[i].lat) && !south_east(points).lon.below(
                points[i].lon,
            ) && !points[i].lat.below(south_east(points).lat),
        points.len() > 0 && (forall|i: int|
            0 <= i < points.len() ==> (#[trigger] points[i]).lon.finite()
                && points[i].lat.finite()) ==> {
            &&& exists|i: int|
                0 <= i < points.len() && (#[trigger] points[i]).lon == north_west(points).lon
            &&& exists|i: int|
                0 <= i < points.len() && (#[trigger] points[i]).lat == north_west(points).lat
            &&& exists|i: int|
                0 <= i < points.len() && (#[trigger] points[i]).lon == south_east(points).lon
            &&& exists|i: int|
                0 <= i < points.len() && (#[trigger] points[i]).lat == south_east(points).lat
        },
{
    let lons = points.map_values(|p: Coordinate| p.lon);
    let lats = points.map_values(|p: Coordinate| p.lat);
    law_lowest(lons);
    law_highest(lons);
    law_lowest(lats);
    law_highest(lats);
    assert forall|i: int| 0 <= i < points.len() implies !(#[trigger] points[i]).lon.below(
        north_west(points).lon,
    ) && !north_west(points).lat.below(points[i].lat) && !south_east(points).lon.below(
        points[i].lon,
    ) && !points[i].lat.below(south_east(points).lat) by {
        assert(lons[i] == points[i].lon && lats[i] == points[i].lat);
    }
    if points.len() > 0 && (forall|i: int|
        0 <= i < points.len() ==> (#[trigger] points[i]).lon.finite() && points[i].lat.finite()) {
        assert(points[0].lon.finite() && points[0].lat.finite());
        assert(lons[0] == points[0].lon && lats[0] == points[0].lat);
        lemma_attained(lons, north_west(points).lon);
        lemma_attained(lats, north_west(points).lat);
        lemma_attained(lons, south_east(points).lon);
        lemma_attained(lats, south_east(points).lat);
        let a = choose|i: int| 0 <= i < lons.len() && lons[i] == north_west(points).lon;
        assert(points[a].lon == north_west(points).lon);
        let b = choose|i: int| 0 <= i < lats.len() && lats[i] == north_west(points).lat;
        assert(points[b].lat == north_west(points).lat);
        let c = choose|i: int| 0 <= i < lons.len() && lons[i] == south_east(points).lon;
        assert(points[c].lon == south_east(points).lon);
        let d = choose|i: int| 0 <= i < lats.len() && lats[i] == south_east(points).lat;
        assert(points[d].lat == south_east(points).lat);
    }
}

proof fn lemma_attained(numbers: Seq<Double>, d: Double)
    requires
        numbers.len() > 0,
        numbers[0].finite(),
        numbers.contains(d) || d.bits == crate::double::PLUS_INFINITY || d.bits
            == crate::double::MINUS_INFINITY,
        !numbers[0].below(d) || d.bits != crate::double::PLUS_INFINITY,
        !d.below(numbers[0]) || d.bits != crate::double::MINUS_INFINITY,
    ensures
        exists|i: int| 0 <= i < numbers.len() && #[trigger] numbers[i] == d,
{
    if numbers.contains(d) {
        let i = choose|i: int| 0 <= i < numbers.len() && numbers[i] == d;
        assert(numbers[i] == d);
    }
}

} // verus!
