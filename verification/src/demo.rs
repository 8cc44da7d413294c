//! The page that shows downloaded tiles on a map.
use crate::double::{
    Double, MINUS_INFINITY, PLUS_INFINITY, highest, law_highest, law_lowest, lowest,
};
use crate::download::{DownloadReport, DownloadedView, downloaded_views};
use crate::json::{
    Json, JsonNumber, JsonView, field_views, first_field, json_views, lemma_field_at, put,
};
use crate::manifest::{count_view, real_view};
use crate::tile::{Coordinate, Tile, TileBounds};
use vstd::prelude::*;
use vstd::string::StringExecFns;

verus! {

/// What the page shows at first: the bounds of the tiles, and their zoom level.
#[derive(Debug, Clone, Copy, PartialEq, Eq, Structural)]
pub struct DemoExtent {
    pub bounds: TileBounds,
    pub zoom: u32,
}

/// The bounds of all downloaded tiles and the zoom level of the first, or those of the center where
/// nothing was downloaded.
pub open spec fn demo_extent(
    center: Tile,
    center_bounds: TileBounds,
    tiles: Seq<DownloadedView>,
) -> DemoExtent {
    if tiles.len() == 0 {
        DemoExtent { bounds: center_bounds, zoom: center.z }
    } else {
        DemoExtent {
            bounds: TileBounds {
                lat_min: lowest(tiles.map_values(|tile: DownloadedView| tile.bounds.lat_min)),
                lon_min: lowest(tiles.map_values(|tile: DownloadedView| tile.bounds.lon_min)),
                lat_max: highest(tiles.map_values(|tile: DownloadedView| tile.bounds.lat_max)),
                lon_max: highest(tiles.map_values(|tile: DownloadedView| tile.bounds.lon_max)),
            },
            zoom: tiles[0].tile.z,
        }
    }
}

/// Finds what the page shows at first. `center_bounds` are those of the center of the download.
pub fn extent_of_report(report: &DownloadReport, center_bounds: TileBounds) -> (extent: DemoExtent)
    ensures
        extent == demo_extent(report.center, center_bounds, downloaded_views(report.tiles@)),
{
    let ghost views = downloaded_views(report.tiles@);
    if report.tiles.len() == 0 {
        return DemoExtent { bounds: center_bounds, zoom: report.center.z };
    }
    let ghost lat_mins = views.map_values(|tile: DownloadedView| tile.bounds.lat_min);
    let ghost lon_mins = views.map_values(|tile: DownloadedView| tile.bounds.lon_min);
    let ghost lat_maxs = views.map_values(|tile: DownloadedView| tile.bounds.lat_max);
    let ghost lon_maxs = views.map_values(|tile: DownloadedView| tile.bounds.lon_max);
    let mut bounds = TileBounds {
        lat_min: Double { bits: PLUS_INFINITY },
        lon_min: Double { bits: PLUS_INFINITY },
        lat_max: Double { bits: MINUS_INFINITY },
        lon_max: Double { bits: MINUS_INFINITY },
    };
    let mut i: usize = 0;
    while i < report.tiles.len()
        invariant
            0 <= i <= report.tiles@.len(),
            views == downloaded_views(report.tiles@),
            lat_mins == views.map_values(|tile: DownloadedView| tile.bounds.lat_min),
            lon_mins == views.map_values(|tile: DownloadedView| tile.bounds.lon_min),
            lat_maxs == views.map_values(|tile: DownloadedView| tile.bounds.lat_max),
            lon_maxs == views.map_values(|tile: DownloadedView| tile.bounds.lon_max),
            bounds.lat_min == lowest(lat_mins.take(i as int)),
            bounds.lon_min == lowest(lon_mins.take(i as int)),
            bounds.lat_max == highest(lat_maxs.take(i as int)),
            bounds.lon_max == highest(lon_maxs.take(i as int)),
        decreases report.tiles@.len() - i,
    {
        let next = report.tiles[i].bounds;
        proof {
            assert(lat_mins.take(i + 1).drop_last() == lat_mins.take(i as int));
            assert(lon_mins.take(i + 1).drop_last() == lon_mins.take(i as int));
            assert(lat_maxs.take(i + 1).drop_last() == lat_maxs.take(i as int));
            assert(lon_maxs.take(i + 1).drop_last() == lon_maxs.take(i as int));
        }
        bounds = TileBounds {
            lat_min: bounds.lat_min.min_with(next.lat_min),
            lon_min: bounds.lon_min.min_with(next.lon_min),
            lat_max: bounds.lat_max.max_with(next.lat_max),
            lon_max: bounds.lon_max.max_with(next.lon_max),
        };
        i = i + 1;
    }
    proof {
        assert(lat_mins.take(i as int) == lat_mins);
        assert(lon_mins.take(i as int) == lon_mins);
        assert(lat_maxs.take(i as int) == lat_maxs);
        assert(lon_maxs.take(i as int) == lon_maxs);
        assert(views[0] == report.tiles@[0]@);
    }
    DemoExtent { bounds, zoom: report.tiles[0].tile.z }
}

/// A tile in a document.
pub open spec fn tile_view(tile: Tile) -> JsonView {
    JsonView::Record(
        seq![
            ("x"@, count_view(tile.x as nat)),
            ("y"@, count_view(tile.y as nat)),
            ("z"@, count_view(tile.z as nat)),
        ],
    )
}

fn tile_json(tile: Tile) -> (json: Json)
    ensures
        json@ == tile_view(tile),
{
    let mut fields: Vec<(String, Json)> = Vec::new();
    assert(field_views(fields@) =~= Seq::<(Seq<char>, JsonView)>::empty());
    put(&mut fields, "x", Json::unsigned(tile.x as u64));
    put(&mut fields, "y", Json::unsigned(tile.y as u64));
    put(&mut fields, "z", Json::unsigned(tile.z as u64));
    assert(field_views(fields@) =~= tile_view(tile)->Record_0);
    Json::record(fields)
}

/// A point in a document: longitude, then latitude.
pub open spec fn point_view(lon: Double, lat: Double) -> JsonView {
    JsonView::List(seq![real_view(lon), real_view(lat)])
}

fn point_json(lon: Double, lat: Double) -> (json: Json)
    ensures
        json@ == point_view(lon, lat),
{
    let items = vec![Json::number(lon), Json::number(lat)];
    assert(json_views(items@) =~= seq![real_view(lon), real_view(lat)]);
    Json::list(items)
}

/// What the page is told: the tiles, their bounds, the middle of the map, the zoom level and the
/// center of the download.
pub open spec fn demo_document(
    center: Tile,
    tiles: Seq<DownloadedView>,
    extent: DemoExtent,
    middle: Coordinate,
) -> JsonView {
    JsonView::Record(
        seq![
            (
                "tiles"@,
                JsonView::List(tiles.map_values(|tile: DownloadedView| tile_view(tile.tile))),
            ),
            (
                "bounds"@,
                JsonView::List(
                    seq![
                        point_view(extent.bounds.lon_min, extent.bounds.lat_min),
                        point_view(extent.bounds.lon_max, extent.bounds.lat_max),
                    ],
                ),
            ),
            ("mapCenter"@, point_view(middle.lon, middle.lat)),
            ("zoom"@, count_view(extent.zoom as nat)),
            ("center"@, tile_view(center)),
        ],
    )
}

/// Makes what the page is told. `middle` is the middle of the extent.
pub fn demo_data(report: &DownloadReport, extent: &DemoExtent, middle: &Coordinate) -> (data: Json)
    ensures
        data@ == demo_document(
            report.center,
            downloaded_views(report.tiles@),
            *extent,
            *middle,
        ),
{
    let ghost views = downloaded_views(report.tiles@).map_values(
        |tile: DownloadedView| tile_view(tile.tile),
    );
    let mut items: Vec<Json> = Vec::new();
    let mut i: usize = 0;
    assert(json_views(items@) =~= views.take(0));
    while i < report.tiles.len()
        invariant
            0 <= i <= report.tiles@.len(),
            views == downloaded_views(report.tiles@).map_values(
                |tile: DownloadedView| tile_view(tile.tile),
            ),
            json_views(items@) == views.take(i as int),
        decreases report.tiles@.len() - i,
    {
        let ghost before = items@;
        items.push(tile_json(report.tiles[i].tile));
        assert(downloaded_views(report.tiles@)[i as int] == report.tiles@[i as int]@);
        assert(json_views(items@) =~= json_views(before).push(views[i as int]));
        assert(views.take(i + 1) =~= views.take(i as int).push(views[i as int]));
        i = i + 1;
    }
    assert(views.take(i as int) == views);
    let corners = vec![
        point_json(extent.bounds.lon_min, extent.bounds.lat_min),
        point_json(extent.bounds.lon_max, extent.bounds.lat_max),
    ];
    assert(json_views(corners@) =~= seq![
        point_view(extent.bounds.lon_min, extent.bounds.lat_min),
        point_view(extent.bounds.lon_max, extent.bounds.lat_max),
    ]);
    let mut fields: Vec<(String, Json)> = Vec::new();
    assert(field_views(fields@) =~= Seq::<(Seq<char>, JsonView)>::empty());
    put(&mut fields, "tiles", Json::list(items));
    put(&mut fields, "bounds", Json::list(corners));
    put(&mut fields, "mapCenter", point_json(middle.lon, middle.lat));
    put(&mut fields, "zoom", Json::unsigned(extent.zoom as u64));
    put(&mut fields, "center", tile_json(report.center));
    assert(field_views(fields@) =~= demo_document(
        report.center,
        downloaded_views(report.tiles@),
        *extent,
        *middle,
    )->Record_0);
    Json::record(fields)
}

/// The page before the data.
pub const DEMO_HEAD: &'static str = r#"<!doctype html>
<html lang="en">
<head>
  <meta charset="utf-8">
  <meta name="viewport" content="width=device-width, initial-scale=1">
  <title>geodot tile overlay demo</title>
  <link href="https://unpkg.com/maplibre-gl@5.24.0/dist/maplibre-gl.css" rel="stylesheet">
  <style>
    :root { color-scheme: light; --panel-bg: rgba(255,255,255,.94); --panel-border: rgba(17,24,39,.12); --text: #111827; --muted: #6b7280; --button: #111827; --button-text: #fff; --secondary: #e5e7eb; --secondary-text: #111827; --input: #fff; --label: #111827; }
    body.dark { color-scheme: dark; --panel-bg: rgba(17,24,39,.92); --panel-border: rgba(255,255,255,.16); --text: #f9fafb; --muted: #9ca3af; --button: #f9fafb; --button-text: #111827; --secondary: rgba(255,255,255,.14); --secondary-text: #f9fafb; --input: rgba(17,24,39,.85); --label: #f9fafb; }
    html, body, #map { height: 100%; margin: 0; }
    body { font: 13px/1.35 system-ui, -apple-system, BlinkMacSystemFont, "Segoe UI", sans-serif; color: var(--text); }
    .panel { position: absolute; top: 12px; right: 12px; z-index: 1; display: grid; gap: 12px; width: min(360px, calc(100vw - 24px)); padding: 14px; border: 1px solid var(--panel-border); border-radius: 18px; background: var(--panel-bg); box-shadow: 0 14px 40px rgba(0,0,0,.24); backdrop-filter: blur(12px); }
    .panel.collapsed { width: auto; }
    .panel.collapsed .panel-body { display: none; }
    .panel-header { display: flex; align-items: start; justify-content: space-between; gap: 12px; }
    .panel-title { display: grid; gap: 3px; }
    .panel h1 { margin: 0; font-size: 15px; }
    .panel-body { display: grid; gap: 12px; }
    .muted { color: var(--muted); }
    .control { display: grid; gap: 6px; }
    .row { display: flex; align-items: center; justify-content: space-between; gap: 8px; }
    .jump { display: grid; grid-template-columns: .8fr 1fr 1fr auto; gap: 6px; }
    .toggles { display: grid; grid-template-columns: 1fr 1fr; gap: 8px; }
    .check { display: flex; align-items: center; gap: 8px; padding: 8px; border: 1px solid var(--panel-border); border-radius: 12px; background: color-mix(in srgb, var(--input) 85%, transparent); }
    button { border: 0; border-radius: 10px; padding: 8px 10px; background: var(--button); color: var(--button-text); font-weight: 650; cursor: pointer; }
    button.secondary { background: var(--secondary); color: var(--secondary-text); }
    input { min-width: 0; border: 1px solid #d1d5db; border-radius: 10px; padding: 8px; background: var(--input); color: var(--text); font: inherit; }
    input[type="checkbox"] { min-width: auto; accent-color: var(--button); }
    input[type="range"] { padding: 0; accent-color: var(--button); }
    .warning { max-width: 100%; color: #92400e; }
    .hidden { display: none; }
    @media (max-width: 640px) { .panel { left: 12px; right: 12px; bottom: 12px; top: auto; width: auto; } }
  </style>
</head>
<body>
  <div id="map"></div>
  <div id="panel" class="panel">
    <div class="panel-header">
      <div class="panel-title">
        <h1>geodot tile demo</h1>
        <div class="muted">Labels show <code>z/x/y</code>. Use <code>#12/2367/1306.jpg</code> to center a tile.</div>
      </div>
      <button id="togglePanel" type="button" class="secondary">Hide</button>
    </div>
    <div class="panel-body">
      <div class="toggles">
        <label class="check"><input id="labelsToggle" type="checkbox" checked> Labels</label>
        <button id="themeToggle" type="button" class="secondary">Dark theme</button>
      </div>
      <div class="control">
        <div class="row"><label for="opacity">Overlay transparency</label><strong id="opacityValue">65%</strong></div>
        <input id="opacity" type="range" min="0" max="1" step="0.05" value="0.65">
      </div>
      <form id="jumpForm" class="control">
        <label>Jump to tile</label>
        <div class="jump">
          <input id="jumpZ" type="number" min="0" step="1" aria-label="z" placeholder="z">
          <input id="jumpX" type="number" min="0" step="1" aria-label="x" placeholder="x">
          <input id="jumpY" type="number" min="0" step="1" aria-label="y" placeholder="y">
          <button type="submit">Go</button>
        </div>
      </form>
      <div id="fileWarning" class="warning hidden">
        Local file mode cannot load tile files. Run geodot demo and open http://127.0.0.1:8000/.
      </div>
    </div>
  </div>
  <script src="https://unpkg.com/maplibre-gl@5.24.0/dist/maplibre-gl.js"></script>
  <script>
    const data = "#;

/// The page after the data.
pub const DEMO_TAIL: &'static str = r#";
    const tileTemplate = './tiles/{z}/{x}/{y}.jpg';
    const opacityInput = document.getElementById('opacity');
    const opacityValue = document.getElementById('opacityValue');
    const labelsToggle = document.getElementById('labelsToggle');
    const panel = document.getElementById('panel');
    if (location.protocol === 'file:') {
      document.getElementById('fileWarning').classList.remove('hidden');
    }
    const map = new maplibregl.Map({
      container: 'map',
      style: {
        version: 8,
        glyphs: 'https://demotiles.maplibre.org/font/{fontstack}/{range}.pbf',
        sources: {
          satellite: {
            type: 'raster',
            tiles: [
              'https://server.arcgisonline.com/ArcGIS/rest/services/World_Imagery/MapServer/tile/{z}/{y}/{x}'
            ],
            tileSize: 256,
            attribution: 'Sources: Esri, Maxar, Earthstar Geographics, and the GIS User Community'
          }
        },
        layers: [{ id: 'satellite', type: 'raster', source: 'satellite' }]
      },
      center: data.mapCenter,
      zoom: data.zoom,
      minZoom: data.zoom,
      maxZoom: data.zoom,
      scrollZoom: false,
      boxZoom: false,
      doubleClickZoom: false,
      touchZoomRotate: false,
      keyboard: true,
      dragRotate: false,
      pitchWithRotate: false
    });

    function tileBounds(tile) {
      const n = 2 ** tile.z;
      const lonMin = tile.x / n * 360 - 180;
      const lonMax = (tile.x + 1) / n * 360 - 180;
      const latMax = Math.atan(Math.sinh(Math.PI * (1 - 2 * tile.y / n))) * 180 / Math.PI;
      const latMin = Math.atan(Math.sinh(Math.PI * (1 - 2 * (tile.y + 1) / n))) * 180 / Math.PI;
      return { lonMin, latMin, lonMax, latMax };
    }

    function tileCenter(tile) {
      const bounds = tileBounds(tile);
      return [(bounds.lonMin + bounds.lonMax) / 2, (bounds.latMin + bounds.latMax) / 2];
    }

    function tileUrl(tile) {
      return tileTemplate.replace('{z}', tile.z).replace('{x}', tile.x).replace('{y}', tile.y);
    }

    function tileFromLocation() {
      const value = location.hash.slice(1) || location.pathname.slice(1);
      const parts = value.split('/');
      if (parts.length !== 3) return undefined;
      const y = parts[2].split('.')[0];
      if (![parts[0], parts[1], y].every((part) => part && [...part].every((char) => char >= '0' && char <= '9'))) return undefined;
      return { z: Number(parts[0]), x: Number(parts[1]), y: Number(y) };
    }

    function setOpacity(value) {
      opacityValue.textContent = `${Math.round(value * 100)}%`;
      for (const tile of data.tiles) {
        const layer = `geodot-tile-${tile.z}-${tile.x}-${tile.y}`;
        if (map.getLayer(layer)) map.setPaintProperty(layer, 'raster-opacity', value);
      }
    }

    function updateLabelStyle() {
      if (!map.getLayer('geodot-labels')) return;
      map.setLayoutProperty('geodot-labels', 'visibility', labelsToggle.checked ? 'visible' : 'none');
      map.setPaintProperty('geodot-labels', 'text-color', getComputedStyle(document.body).getPropertyValue('--label').trim());
    }

    function fillJump(tile) {
      document.getElementById('jumpZ').value = tile.z;
      document.getElementById('jumpX').value = tile.x;
      document.getElementById('jumpY').value = tile.y;
    }

    function jumpToTile(tile, updateHash = true) {
      fillJump(tile);
      map.easeTo({ center: tileCenter(tile), zoom: data.zoom, duration: 450 });
      if (updateHash) history.replaceState(null, '', `#${tile.z}/${tile.x}/${tile.y}.jpg`);
    }

    map.on('load', () => {
      for (const tile of data.tiles) {
        const bounds = tileBounds(tile);
        const id = `geodot-tile-${tile.z}-${tile.x}-${tile.y}`;
        map.addSource(id, {
          type: 'image',
          url: tileUrl(tile),
          coordinates: [[bounds.lonMin, bounds.latMax], [bounds.lonMax, bounds.latMax], [bounds.lonMax, bounds.latMin], [bounds.lonMin, bounds.latMin]]
        });
        map.addLayer({ id, type: 'raster', source: id, paint: { 'raster-opacity': Number(opacityInput.value) } });
      }
      map.addSource('geodot-labels', {
        type: 'geojson',
        data: { type: 'FeatureCollection', features: data.tiles.map((tile) => ({ type: 'Feature', properties: { label: `${tile.z}/${tile.x}/${tile.y}` }, geometry: { type: 'Point', coordinates: tileCenter(tile) } })) }
      });
      map.addLayer({ id: 'geodot-labels', type: 'symbol', source: 'geodot-labels', layout: { 'text-field': ['get', 'label'], 'text-size': 13, 'text-font': ['Open Sans Bold'], 'text-allow-overlap': true }, paint: { 'text-color': '#111827', 'text-halo-width': 0 } });
      updateLabelStyle();
      const requestedTile = tileFromLocation();
      if (requestedTile) jumpToTile(requestedTile, false);
    });

    opacityInput.addEventListener('input', (event) => setOpacity(Number(event.target.value)));
    document.getElementById('togglePanel').addEventListener('click', (event) => {
      panel.classList.toggle('collapsed');
      event.target.textContent = panel.classList.contains('collapsed') ? 'Show' : 'Hide';
    });
    document.getElementById('themeToggle').addEventListener('click', (event) => {
      document.body.classList.toggle('dark');
      event.target.textContent = document.body.classList.contains('dark') ? 'Light theme' : 'Dark theme';
      updateLabelStyle();
    });
    labelsToggle.addEventListener('change', updateLabelStyle);
    document.getElementById('jumpForm').addEventListener('submit', (event) => {
      event.preventDefault();
      jumpToTile({ z: Number(document.getElementById('jumpZ').value), x: Number(document.getElementById('jumpX').value), y: Number(document.getElementById('jumpY').value) });
    });
    if (data.tiles[0]) fillJump(data.tiles[0]);
  </script>
</body>
</html>
"#;

/// The page with its data.
pub fn demo_html(data: &str) -> (page: String)
    ensures
        page@ == DEMO_HEAD@ + data@ + DEMO_TAIL@,
{
    let mut page = DEMO_HEAD.to_owned();
    page.append(data);
    page.append(DEMO_TAIL);
    page
}

/// The page holds its data as it stands.
pub proof fn law_page_holds_data(data: Seq<char>)
    ensures
        ({
            let page = DEMO_HEAD@ + data + DEMO_TAIL@;
            let start = DEMO_HEAD@.len() as int;
            page.subrange(start, start + data.len()) == data
        }),
{
    let page = DEMO_HEAD@ + data + DEMO_TAIL@;
    let start = DEMO_HEAD@.len() as int;
    assert(page.subrange(start, start + data.len()) =~= data);
}

/// A tile is told by its column, its row and its zoom level.
pub proof fn law_tile_entry(tile: Tile)
    ensures
        ({
            let record = tile_view(tile);
            &&& record.field("x"@) == Some(JsonView::Number(JsonNumber::Unsigned(tile.x as u64)))
            &&& record.field("y"@) == Some(JsonView::Number(JsonNumber::Unsigned(tile.y as u64)))
            &&& record.field("z"@) == Some(JsonView::Number(JsonNumber::Unsigned(tile.z as u64)))
        }),
{
    reveal_strlit("x");
    reveal_strlit("y");
    reveal_strlit("z");
    assert("x"@.len() == 1);
    assert("y"@.len() == 1);
    assert("z"@.len() == 1);
    assert("x"@[0] == 'x');
    assert("y"@[0] == 'y');
    assert("z"@[0] == 'z');
    let fields = tile_view(tile)->Record_0;
    assert(first_field(fields, fields[0].0, 0));
    lemma_field_at(fields, 0);
    assert(first_field(fields, fields[1].0, 1));
    lemma_field_at(fields, 1);
    assert(first_field(fields, fields[2].0, 2));
    lemma_field_at(fields, 2);
}

proof fn lemma_demo_fields(
    center: Tile,
    tiles: Seq<DownloadedView>,
    extent: DemoExtent,
    middle: Coordinate,
)
    ensures
        ({
            let record = demo_document(center, tiles, extent, middle);
            &&& record.field("tiles"@) == Some(
                JsonView::List(tiles.map_values(|tile: DownloadedView| tile_view(tile.tile))),
            )
            &&& record.field("bounds"@) == Some(JsonView::List(
                seq![
                    JsonView::List(
                        seq![
                            JsonView::Number(JsonNumber::Real(extent.bounds.lon_min)),
                            JsonView::Number(JsonNumber::Real(extent.bounds.lat_min)),
                        ],
                    ),
                    JsonView::List(
                        seq![
                            JsonView::Number(JsonNumber::Real(extent.bounds.lon_max)),
                            JsonView::Number(JsonNumber::Real(extent.bounds.lat_max)),
                        ],
                    ),
                ],
            ))
            &&& record.field("mapCenter"@) == Some(
                JsonView::List(
                    seq![
                        JsonView::Number(JsonNumber::Real(middle.lon)),
                        JsonView::Number(JsonNumber::Real(middle.lat)),
                    ],
                ),
            )
            &&& record.field("zoom"@) == Some(
                JsonView::Number(JsonNumber::Unsigned(extent.zoom as u64)),
            )
            &&& record.field("center"@) == Some(tile_view(center))
        }),
{
    reveal_strlit("tiles");
    reveal_strlit("bounds");
    reveal_strlit("mapCenter");
    reveal_strlit("zoom");
    reveal_strlit("center");
    assert("tiles"@.len() == 5);
    assert("bounds"@.len() == 6);
    assert("mapCenter"@.len() == 9);
    assert("zoom"@.len() == 4);
    assert("center"@.len() == 6);
    assert("bounds"@[0] == 'b');
    assert("center"@[0] == 'c');
    let fields = demo_document(center, tiles, extent, middle)->Record_0;
    assert(first_field(fields, fields[0].0, 0));
    lemma_field_at(fields, 0);
    assert(first_field(fields, fields[1].0, 1));
    lemma_field_at(fields, 1);
    assert(first_field(fields, fields[2].0, 2));
    lemma_field_at(fields, 2);
    assert(first_field(fields, fields[3].0, 3));
    lemma_field_at(fields, 3);
    assert(first_field(fields, fields[4].0, 4));
    lemma_field_at(fields, 4);
}


/// What the page is told of its extent: the south-west corner, then the north-east corner, each as
/// longitude and latitude; the middle in the same order, between the two corners wherever it lies
/// within the extent; the zoom level; and the tiles, one by one.
pub proof fn law_page_data(
    center: Tile,
    tiles: Seq<DownloadedView>,
    extent: DemoExtent,
    middle: Coordinate,
)
    ensures
        ({
            let data = demo_document(center, tiles, extent, middle);
            let bounds = extent.bounds;
            &&& data.field("bounds"@) matches Some(JsonView::List(corners))
            &&& corners.len() == 2
            &&& corners[0] matches JsonView::List(south_west)
            &&& corners[1] matches JsonView::List(north_east)
            &&& south_west.len() == 2 && north_east.len() == 2
            &&& south_west[0] == JsonView::Number(JsonNumber::Real(bounds.lon_min))
            &&& south_west[1] == JsonView::Number(JsonNumber::Real(bounds.lat_min))
            &&& north_east[0] == JsonView::Number(JsonNumber::Real(bounds.lon_max))
            &&& north_east[1] == JsonView::Number(JsonNumber::Real(bounds.lat_max))
            &&& data.field("mapCenter"@) matches Some(JsonView::List(point))
            &&& point.len() == 2
            &&& point[0] == JsonView::Number(JsonNumber::Real(middle.lon))
            &&& point[1] == JsonView::Number(JsonNumber::Real(middle.lat))
            &&& bounds.lon_min.at_most(middle.lon) && middle.lon.at_most(bounds.lon_max)
                ==> south_west[0].double()->0.at_most(point[0].double()->0)
                && point[0].double()->0.at_most(north_east[0].double()->0)
            &&& bounds.lat_min.at_most(middle.lat) && middle.lat.at_most(bounds.lat_max)
                ==> south_west[1].double()->0.at_most(point[1].double()->0)
                && point[1].double()->0.at_most(north_east[1].double()->0)
            &&& data.field("zoom"@) == Some(
                JsonView::Number(JsonNumber::Unsigned(extent.zoom as u64)),
            )
            &&& data.field("center"@) == Some(tile_view(center))
            &&& data.field("tiles"@) matches Some(JsonView::List(entries))
            &&& entries.len() == tiles.len()
            &&& forall|i: int|
                0 <= i < tiles.len() ==> #[trigger] entries[i] == tile_view(tiles[i].tile)
        }),
{
    lemma_demo_fields(center, tiles, extent, middle);
}

/// The extent holds the bounds of every tile, and no side of it lies further out than that of some
/// tile. The page opens at the zoom level of the first tile, or at that of the center where there
/// is none.
pub proof fn law_extent_holds_tiles(
    center: Tile,
    center_bounds: TileBounds,
    tiles: Seq<DownloadedView>,
)
    ensures
        ({
            let extent = demo_extent(center, center_bounds, tiles);
            let bounds = extent.bounds;
            &&& tiles.len() == 0 ==> bounds == center_bounds && extent.zoom == center.z
            &&& tiles.len() > 0 ==> extent.zoom == tiles[0].tile.z
            &&& forall|i: int|
                0 <= i < tiles.len() ==> !(#[trigger] tiles[i]).bounds.lat_min.below(bounds.lat_min)
                    && !tiles[i].bounds.lon_min.below(bounds.lon_min) && !bounds.lat_max.below(
                    tiles[i].bounds.lat_max,
                ) && !bounds.lon_max.below(tiles[i].bounds.lon_max)
            &&& tiles.len() > 0 && (forall|i: int|
                0 <= i < tiles.len() ==> (#[trigger] tiles[i]).bounds.lat_min.finite()
                    && tiles[i].bounds.lon_min.finite() && tiles[i].bounds.lat_max.finite()
                    && tiles[i].bounds.lon_max.finite()) ==> {
                &&& exists|i: int|
                    0 <= i < tiles.len() && (#[trigger] tiles[i]).bounds.lat_min == bounds.lat_min
                &&& exists|i: int|
                    0 <= i < tiles.len() && (#[trigger] tiles[i]).bounds.lon_min == bounds.lon_min
                &&& exists|i: int|
                    0 <= i < tiles.len() && (#[trigger] tiles[i]).bounds.lat_max == bounds.lat_max
                &&& exists|i: int|
                    0 <= i < tiles.len() && (#[trigger] tiles[i]).bounds.lon_max == bounds.lon_max
            }
        }),
{
    if tiles.len() > 0 {
        let bounds = demo_extent(center, center_bounds, tiles).bounds;
        let south = tiles.map_values(|tile: DownloadedView| tile.bounds.lat_min);
        let west = tiles.map_values(|tile: DownloadedView| tile.bounds.lon_min);
        let north = tiles.map_values(|tile: DownloadedView| tile.bounds.lat_max);
        let east = tiles.map_values(|tile: DownloadedView| tile.bounds.lon_max);
        law_lowest(south);
        law_lowest(west);
        law_highest(north);
        law_highest(east);
        assert forall|i: int| 0 <= i < tiles.len() implies !(#[trigger] tiles[
            i
        ]).bounds.lat_min.below(bounds.lat_min) && !tiles[i].bounds.lon_min.below(bounds.lon_min)
            && !bounds.lat_max.below(tiles[i].bounds.lat_max) && !bounds.lon_max.below(
            tiles[i].bounds.lon_max,
        ) by {
            assert(south[i] == tiles[i].bounds.lat_min && west[i] == tiles[i].bounds.lon_min);
            assert(north[i] == tiles[i].bounds.lat_max && east[i] == tiles[i].bounds.lon_max);
        }
        if forall|i: int|
            0 <= i < tiles.len() ==> (#[trigger] tiles[i]).bounds.lat_min.finite()
                && tiles[i].bounds.lon_min.finite() && tiles[i].bounds.lat_max.finite()
                && tiles[i].bounds.lon_max.finite() {
            assert(tiles[0].bounds.lat_min.finite());
            assert(south[0] == tiles[0].bounds.lat_min && west[0] == tiles[0].bounds.lon_min);
            assert(north[0] == tiles[0].bounds.lat_max && east[0] == tiles[0].bounds.lon_max);
            let a = choose|i: int| 0 <= i < south.len() && south[i] == bounds.lat_min;
            let b = choose|i: int| 0 <= i < west.len() && west[i] == bounds.lon_min;
            let c = choose|i: int| 0 <= i < north.len() && north[i] == bounds.lat_max;
            let d = choose|i: int| 0 <= i < east.len() && east[i] == bounds.lon_max;
            assert(south.contains(bounds.lat_min) && west.contains(bounds.lon_min));
            assert(north.contains(bounds.lat_max) && east.contains(bounds.lon_max));
            assert(tiles[a].bounds.lat_min == bounds.lat_min);
            assert(tiles[b].bounds.lon_min == bounds.lon_min);
            assert(tiles[c].bounds.lat_max == bounds.lat_max);
            assert(tiles[d].bounds.lon_max == bounds.lon_max);
        }
    }
}

} // verus!
