//! The places that the images of a dataset show.
use crate::discover::{TileRecord, TileView, tile_views};
use crate::ids::{
    ImageRoot, law_place_names_distinct, law_tile_names_distinct, place_name, tile_id,
};
use crate::patches::{Patch, PatchView, names_tile, patch_views};
use crate::text::texts;
use crate::tile::Tile;
use std::collections::HashMap;
use vstd::arithmetic::div_mod::lemma_fundamental_div_mod_converse;
use vstd::prelude::*;

verus! {

/// The images and mosaics at one place.
#[derive(Debug)]
pub struct Place {
    pub tile: Tile,
    /// The number of the first image of the place.
    pub first: usize,
    pub roots: Vec<ImageRoot>,
    pub captures: Vec<String>,
    pub tile_ids: Vec<String>,
    pub reference_tile_ids: Vec<String>,
    pub query_tile_ids: Vec<String>,
    pub patch_ids: Vec<String>,
}

/// What a place is.
#[verifier::ext_equal]
pub struct PlaceView {
    pub tile: Tile,
    pub first: int,
    pub roots: Seq<ImageRoot>,
    pub captures: Seq<Seq<char>>,
    pub tile_ids: Seq<Seq<char>>,
    pub reference_tile_ids: Seq<Seq<char>>,
    pub query_tile_ids: Seq<Seq<char>>,
    pub patch_ids: Seq<Seq<char>>,
}

impl View for Place {
    type V = PlaceView;

    open spec fn view(&self) -> PlaceView {
        PlaceView {
            tile: self.tile,
            first: self.first as int,
            roots: self.roots@,
            captures: texts(self.captures@),
            tile_ids: texts(self.tile_ids@),
            reference_tile_ids: texts(self.reference_tile_ids@),
            query_tile_ids: texts(self.query_tile_ids@),
            patch_ids: texts(self.patch_ids@),
        }
    }
}

impl PlaceView {
    /// The name of the place.
    pub open spec fn id(self) -> Seq<char> {
        place_name(self.tile.z, self.tile.x, self.tile.y)
    }
}

/// What a list of places is.
pub open spec fn place_views(places: Seq<Place>) -> Seq<PlaceView> {
    places.map_values(|place: Place| place@)
}

/// The tiles that the images show, in the order in which they first occur.
pub open spec fn place_keys(tiles: Seq<TileView>) -> Seq<Tile>
    decreases tiles.len(),
{
    if tiles.len() == 0 {
        Seq::empty()
    } else {
        let front = place_keys(tiles.drop_last());
        if front.contains(tiles.last().tile) {
            front
        } else {
            front.push(tiles.last().tile)
        }
    }
}

/// The number of the first image of a tile.
pub open spec fn first_at(tiles: Seq<TileView>, key: Tile) -> int
    decreases tiles.len(),
{
    if tiles.len() == 0 {
        0
    } else if place_keys(tiles.drop_last()).contains(key) {
        first_at(tiles.drop_last(), key)
    } else {
        tiles.len() - 1
    }
}

/// The images of a tile, in order.
pub open spec fn tiles_at(tiles: Seq<TileView>, key: Tile) -> Seq<TileView>
    decreases tiles.len(),
{
    if tiles.len() == 0 {
        Seq::empty()
    } else {
        let front = tiles_at(tiles.drop_last(), key);
        if tiles.last().tile == key {
            front.push(tiles.last())
        } else {
            front
        }
    }
}

/// The names of the images of one directory, in order.
pub open spec fn ids_of_root(tiles: Seq<TileView>, root: ImageRoot) -> Seq<Seq<char>>
    decreases tiles.len(),
{
    if tiles.len() == 0 {
        Seq::empty()
    } else {
        let front = ids_of_root(tiles.drop_last(), root);
        if tiles.last().root == root {
            front.push(tiles.last().id())
        } else {
            front
        }
    }
}

/// The names of the mosaics whose top left tile is the given one, in order.
pub open spec fn patch_ids_at(patches: Seq<PatchView>, key: Tile) -> Seq<Seq<char>>
    decreases patches.len(),
{
    if patches.len() == 0 {
        Seq::empty()
    } else {
        let front = patch_ids_at(patches.drop_last(), key);
        if patches.last().tile == key {
            front.push(patches.last().id())
        } else {
            front
        }
    }
}

/// The place of a tile.
pub open spec fn place_of(tiles: Seq<TileView>, patches: Seq<PatchView>, key: Tile) -> PlaceView {
    let here = tiles_at(tiles, key);
    PlaceView {
        tile: key,
        first: first_at(tiles, key),
        roots: here.map_values(|tile: TileView| tile.root),
        captures: here.map_values(|tile: TileView| tile.capture),
        tile_ids: here.map_values(|tile: TileView| tile.id()),
        reference_tile_ids: ids_of_root(here, ImageRoot::Tiles),
        query_tile_ids: ids_of_root(here, ImageRoot::DroneView),
        patch_ids: patch_ids_at(patches, key),
    }
}

/// The places of a dataset, in the order in which the images first show them.
pub open spec fn dataset_places(tiles: Seq<TileView>, patches: Seq<PatchView>) -> Seq<PlaceView> {
    place_keys(tiles).map_values(|key: Tile| place_of(tiles, patches, key))
}

/// The coordinates of a tile in one number.
spec fn packed(tile: Tile) -> int {
    tile.z * 0x1_0000_0000_0000_0000 + tile.x * 0x1_0000_0000 + tile.y
}

fn pack(tile: Tile) -> (key: u128)
    ensures
        key == packed(tile),
{
    tile.z as u128 * 0x1_0000_0000_0000_0000 + tile.x as u128 * 0x1_0000_0000 + tile.y as u128
}

proof fn lemma_packed(a: Tile, b: Tile)
    ensures
        packed(a) == packed(b) ==> a == b,
        0 <= packed(a) <= u128::MAX,
{
    let side: int = 0x1_0000_0000;
    let (p, q) = (a.z * side + a.x, b.z * side + b.x);
    assert(packed(a) == p * side + a.y && packed(b) == q * side + b.y);
    lemma_fundamental_div_mod_converse(packed(a), side, p, a.y as int);
    lemma_fundamental_div_mod_converse(packed(b), side, q, b.y as int);
    lemma_fundamental_div_mod_converse(p, side, a.z as int, a.x as int);
    lemma_fundamental_div_mod_converse(q, side, b.z as int, b.x as int);
}

/// The map tells where each tile stands among the keys.
spec fn indexed(index: Map<u128, usize>, keys: Seq<Tile>) -> bool {
    forall|tile: Tile|
        {
            let key = #[trigger] packed(tile) as u128;
            &&& index.dom().contains(key) <==> keys.contains(tile)
            &&& index.dom().contains(key) ==> index[key] < keys.len() && keys[index[key] as int]
                == tile
        }
}

proof fn lemma_keys_distinct(tiles: Seq<TileView>)
    ensures
        place_keys(tiles).no_duplicates(),
        place_keys(tiles).len() <= tiles.len(),
        forall|key: Tile| #[trigger]
            place_keys(tiles).contains(key) <==> exists|i: int|
                0 <= i < tiles.len() && (#[trigger] tiles[i]).tile == key,
    decreases tiles.len(),
{
    if tiles.len() > 0 {
        let front = tiles.drop_last();
        lemma_keys_distinct(front);
        let keys = place_keys(tiles);
        let before = place_keys(front);
        assert forall|key: Tile| #[trigger] keys.contains(key) implies exists|i: int|
            0 <= i < tiles.len() && (#[trigger] tiles[i]).tile == key by {
            if before.contains(key) {
                let i = choose|i: int| 0 <= i < front.len() && (#[trigger] front[i]).tile == key;
                assert(tiles[i].tile == key);
            } else {
                assert(tiles[tiles.len() - 1].tile == key);
            }
        }
        assert forall|key: Tile|
            (exists|i: int| 0 <= i < tiles.len() && (#[trigger] tiles[i]).tile == key) implies #[trigger] keys.contains(
        key) by {
            let i = choose|i: int| 0 <= i < tiles.len() && (#[trigger] tiles[i]).tile == key;
            if i < front.len() {
                assert(front[i].tile == key);
                assert(before.contains(key));
                let k = choose|k: int| 0 <= k < before.len() && before[k] == key;
                assert(keys[k] == key);
            } else if !before.contains(key) {
                assert(keys[before.len() as int] == key);
            }
        }
    }
}

proof fn lemma_nothing_at(tiles: Seq<TileView>, key: Tile)
    requires
        !place_keys(tiles).contains(key),
    ensures
        tiles_at(tiles, key) == Seq::<TileView>::empty(),
    decreases tiles.len(),
{
    if tiles.len() > 0 {
        let before = place_keys(tiles.drop_last());
        if before.contains(key) {
            let k = choose|k: int| 0 <= k < before.len() && before[k] == key;
            assert(place_keys(tiles)[k] == key);
        }
        if tiles.last().tile == key {
            assert(place_keys(tiles)[before.len() as int] == key);
        }
        lemma_nothing_at(tiles.drop_last(), key);
    }
}

/// An empty place of a tile.
fn new_place(tile: Tile, first: usize) -> (place: Place)
    ensures
        place@.tile == tile,
        place@.first == first,
        place@.roots == Seq::<ImageRoot>::empty(),
        place@.captures == Seq::<Seq<char>>::empty(),
        place@.tile_ids == Seq::<Seq<char>>::empty(),
        place@.reference_tile_ids == Seq::<Seq<char>>::empty(),
        place@.query_tile_ids == Seq::<Seq<char>>::empty(),
        place@.patch_ids == Seq::<Seq<char>>::empty(),
{
    Place {
        tile,
        first,
        roots: Vec::new(),
        captures: Vec::new(),
        tile_ids: Vec::new(),
        reference_tile_ids: Vec::new(),
        query_tile_ids: Vec::new(),
        patch_ids: Vec::new(),
    }
}

/// A place with one more image.
pub open spec fn place_with(place: PlaceView, tile: TileView) -> PlaceView {
    PlaceView {
        roots: place.roots.push(tile.root),
        captures: place.captures.push(tile.capture),
        tile_ids: place.tile_ids.push(tile.id()),
        reference_tile_ids: if tile.root == ImageRoot::Tiles {
            place.reference_tile_ids.push(tile.id())
        } else {
            place.reference_tile_ids
        },
        query_tile_ids: if tile.root == ImageRoot::DroneView {
            place.query_tile_ids.push(tile.id())
        } else {
            place.query_tile_ids
        },
        ..place
    }
}

fn push_text(list: &mut Vec<String>, text: String)
    ensures
        texts(final(list)@) == texts(old(list)@).push(text@),
{
    list.push(text);
    assert(texts(list@) =~= texts(old(list)@).push(text@));
}

/// Adds an image to a place.
fn add_tile(place: &mut Place, tile: &TileRecord)
    ensures
        final(place)@ == place_with(old(place)@, tile@),
{
    let id = tile_id(tile.root, tile.capture_id.as_str(), tile.tile);
    place.roots.push(tile.root);
    push_text(&mut place.captures, tile.capture_id.clone());
    match tile.root {
        ImageRoot::Tiles => push_text(&mut place.reference_tile_ids, id.clone()),
        ImageRoot::DroneView => push_text(&mut place.query_tile_ids, id.clone()),
    }
    push_text(&mut place.tile_ids, id);
}

/// One more image changes its own place only.
proof fn lemma_place_step(front: Seq<TileView>, tile: TileView, key: Tile)
    ensures
        key != tile.tile && place_keys(front).contains(key) ==> place_of(
            front.push(tile),
            Seq::<PatchView>::empty(),
            key,
        ) =~= place_of(front, Seq::<PatchView>::empty(), key),
        key == tile.tile && place_keys(front).contains(key) ==> place_of(
            front.push(tile),
            Seq::<PatchView>::empty(),
            key,
        ) =~= place_with(place_of(front, Seq::<PatchView>::empty(), key), tile),
        key == tile.tile && !place_keys(front).contains(key) ==> place_of(
            front.push(tile),
            Seq::<PatchView>::empty(),
            key,
        ) =~= place_with(
            (PlaceView {
                tile: key,
                first: front.len() as int,
                roots: Seq::<ImageRoot>::empty(),
                captures: Seq::<Seq<char>>::empty(),
                tile_ids: Seq::<Seq<char>>::empty(),
                reference_tile_ids: Seq::<Seq<char>>::empty(),
                query_tile_ids: Seq::<Seq<char>>::empty(),
                patch_ids: Seq::<Seq<char>>::empty(),
            }),
            tile,
        ),
{
    let whole = front.push(tile);
    assert(whole.drop_last() == front);
    let before = tiles_at(front, key);
    let after = tiles_at(whole, key);
    if key == tile.tile {
        assert(after == before.push(tile));
        assert(after.drop_last() == before);
        if !place_keys(front).contains(key) {
            lemma_nothing_at(front, key);
        }
    }
}

fn group_tiles(tiles: &[TileRecord]) -> (grouped: (Vec<Place>, HashMap<u128, usize>))
    ensures
        place_views(grouped.0@) == dataset_places(tile_views(tiles@), Seq::<PatchView>::empty()),
        indexed(grouped.1@, place_keys(tile_views(tiles@))),
{
    broadcast use vstd::std_specs::hash::group_hash_axioms;

    let ghost views = tile_views(tiles@);
    let ghost none = Seq::<PatchView>::empty();
    let mut places: Vec<Place> = Vec::new();
    let mut index: HashMap<u128, usize> = HashMap::new();
    let mut i: usize = 0;
    assert(place_views(places@) =~= dataset_places(views.take(0), none));
    while i < tiles.len()
        invariant
            0 <= i <= tiles@.len(),
            views == tile_views(tiles@),
            none == Seq::<PatchView>::empty(),
            place_views(places@) == dataset_places(views.take(i as int), none),
            indexed(index@, place_keys(views.take(i as int))),
        decreases tiles@.len() - i,
    {
        let tile = &tiles[i];
        let ghost front = views.take(i as int);
        let ghost keys = place_keys(front);
        let ghost before = places@;
        proof {
            assert(views.take(i + 1) =~= front.push(tile@));
            assert(front.push(tile@).drop_last() == front);
            lemma_keys_distinct(front);
            assert(place_views(before).len() == keys.len());
        }
        let key: u128 = pack(tile.tile);
        assert(key == packed(tile.tile) as u128);
        let at: usize = match index.get(&key) {
            Some(at) => *at,
            None => {
                let at: usize = places.len();
                places.push(new_place(tile.tile, i));
                index.insert(key, at);
                at
            },
        };
        let ghost middle = places@;
        let known = places.len();
        assert(at < known);
        add_tile(&mut places[at], tile);
        proof {
            let next = place_keys(front.push(tile@));
            assert(places@ == middle.update(at as int, places@[at as int]));
            assert(next[at as int] == tile.tile);
            assert forall|k: int| 0 <= k < next.len() implies #[trigger] place_views(places@)[k]
                == place_of(front.push(tile@), none, next[k]) by {
                lemma_place_step(front, tile@, next[k]);
                if k < keys.len() {
                    assert(next[k] == keys[k]);
                    assert(keys.contains(keys[k]));
                    assert(place_views(before)[k] == place_of(front, none, keys[k]));
                    assert(middle[k] == before[k]);
                }
                if k != at {
                    assert(places@[k] == middle[k]);
                    assert(next[k] != tile.tile);
                }
            }
            assert(place_views(places@) =~= dataset_places(front.push(tile@), none));
            assert forall|t: Tile| {
                let key = #[trigger] packed(t) as u128;
                &&& index@.dom().contains(key) <==> next.contains(t)
                &&& index@.dom().contains(key) ==> index@[key] < next.len()
                    && next[index@[key] as int] == t
            } by {
                lemma_packed(t, tile.tile);
                lemma_packed(tile.tile, t);
                if keys.contains(t) {
                    let k = choose|k: int| 0 <= k < keys.len() && keys[k] == t;
                    assert(next[k] == t);
                }
                if next.contains(t) && !keys.contains(t) {
                    let k = choose|k: int| 0 <= k < next.len() && next[k] == t;
                    if k < keys.len() {
                        assert(keys[k] == t);
                    }
                }
            }
        }
        i = i + 1;
    }
    assert(views.take(i as int) == views);
    (places, index)
}

/// Builds the places of a dataset.
pub fn build_places(tiles: &[TileRecord], patches: &[Patch]) -> (places: Vec<Place>)
    requires
        forall|k: int| 0 <= k < patches@.len() ==> (#[trigger] patches@[k]).size >= 1,
    ensures
        place_views(places@) == dataset_places(tile_views(tiles@), patch_views(patches@)),
{
    broadcast use vstd::std_specs::hash::group_hash_axioms;

    let ghost views = tile_views(tiles@);
    let ghost mosaics = patch_views(patches@);
    let ghost keys = place_keys(views);
    let (grouped, index) = group_tiles(tiles);
    let mut places = grouped;
    let mut i: usize = 0;
    assert(mosaics.take(0) == Seq::<PatchView>::empty());
    while i < patches.len()
        invariant
            0 <= i <= patches@.len(),
            mosaics == patch_views(patches@),
            keys == place_keys(views),
            indexed(index@, keys),
            forall|k: int| 0 <= k < patches@.len() ==> (#[trigger] patches@[k]).size >= 1,
            place_views(places@) == dataset_places(views, mosaics.take(i as int)),
        decreases patches@.len() - i,
    {
        let patch = &patches[i];
        let ghost front = mosaics.take(i as int);
        let ghost next = mosaics.take(i + 1);
        let ghost before = places@;
        proof {
            assert(next.drop_last() == front);
            assert(mosaics[i as int] == patch@);
            assert(place_views(before).len() == keys.len());
            lemma_keys_distinct(views);
        }
        let key: u128 = pack(patch.tile);
        assert(key == packed(patch.tile) as u128);
        if let Some(at) = index.get(&key) {
            let at: usize = *at;
            push_text(&mut places[at].patch_ids, patch.patch_id());
            assert(places@ == before.update(at as int, places@[at as int]));
        }
        assert forall|k: int| 0 <= k < keys.len() implies #[trigger] place_views(places@)[k]
            == place_of(views, next, keys[k]) by {
            assert(place_views(before)[k] == place_of(views, front, keys[k]));
            assert(keys.contains(keys[k]));
            assert(place_views(places@)[k] =~= place_of(views, next, keys[k]));
        }
        assert(place_views(places@) =~= dataset_places(views, next));
        i = i + 1;
    }
    assert(mosaics.take(i as int) == mosaics);
    places
}

/// One of the mosaics has the name.
pub open spec fn names_patch(patches: Seq<PatchView>, name: Seq<char>) -> bool {
    exists|i: int| 0 <= i < patches.len() && (#[trigger] patches[i]).id() == name
}

proof fn lemma_tiles_at(tiles: Seq<TileView>, key: Tile, n: int)
    requires
        0 <= n < tiles_at(tiles, key).len(),
    ensures
        tiles.contains(tiles_at(tiles, key)[n]),
        tiles_at(tiles, key)[n].tile == key,
    decreases tiles.len(),
{
    let front = tiles.drop_last();
    let here = tiles_at(tiles, key);
    if n < tiles_at(front, key).len() {
        lemma_tiles_at(front, key, n);
        assert(here[n] == tiles_at(front, key)[n]);
        let i = choose|i: int| 0 <= i < front.len() && front[i] == here[n];
        assert(tiles[i] == here[n]);
    } else {
        assert(tiles[tiles.len() - 1] == here[n]);
    }
}

proof fn lemma_found_at(tiles: Seq<TileView>, i: int)
    requires
        0 <= i < tiles.len(),
    ensures
        tiles_at(tiles, tiles[i].tile).contains(tiles[i]),
    decreases tiles.len(),
{
    let key = tiles[i].tile;
    let here = tiles_at(tiles, key);
    let front = tiles.drop_last();
    if i < front.len() {
        assert(front[i] == tiles[i]);
        lemma_found_at(front, i);
        let before = tiles_at(front, key);
        let n = choose|n: int| 0 <= n < before.len() && before[n] == tiles[i];
        assert(here[n] == tiles[i]);
    } else {
        assert(here[here.len() - 1] == tiles[i]);
    }
}

proof fn lemma_ids_of_root(tiles: Seq<TileView>, root: ImageRoot, n: int)
    requires
        0 <= n < ids_of_root(tiles, root).len(),
    ensures
        exists|i: int|
            0 <= i < tiles.len() && (#[trigger] tiles[i]).root == root && tiles[i].id()
                == ids_of_root(tiles, root)[n],
    decreases tiles.len(),
{
    let front = tiles.drop_last();
    let ids = ids_of_root(tiles, root);
    if n < ids_of_root(front, root).len() {
        lemma_ids_of_root(front, root, n);
        assert(ids[n] == ids_of_root(front, root)[n]);
        let i = choose|i: int|
            0 <= i < front.len() && (#[trigger] front[i]).root == root && front[i].id() == ids[n];
        assert(tiles[i].root == root && tiles[i].id() == ids[n]);
    } else {
        let last = tiles.len() - 1;
        assert(tiles[last].root == root && tiles[last].id() == ids[n]);
    }
}

proof fn lemma_patch_ids_at(patches: Seq<PatchView>, key: Tile, n: int)
    requires
        0 <= n < patch_ids_at(patches, key).len(),
    ensures
        exists|i: int|
            0 <= i < patches.len() && (#[trigger] patches[i]).tile == key && patches[i].id()
                == patch_ids_at(patches, key)[n],
    decreases patches.len(),
{
    let front = patches.drop_last();
    let ids = patch_ids_at(patches, key);
    if n < patch_ids_at(front, key).len() {
        lemma_patch_ids_at(front, key, n);
        assert(ids[n] == patch_ids_at(front, key)[n]);
        let i = choose|i: int|
            0 <= i < front.len() && (#[trigger] front[i]).tile == key && front[i].id() == ids[n];
        assert(patches[i].tile == key && patches[i].id() == ids[n]);
    } else {
        let last = patches.len() - 1;
        assert(patches[last].tile == key && patches[last].id() == ids[n]);
    }
}

/// Everything that a place lists is there: its images are images of the dataset, and its mosaics
/// are mosaics of the dataset.
pub open spec fn sound_place(
    tiles: Seq<TileView>,
    patches: Seq<PatchView>,
    place: PlaceView,
) -> bool {
    &&& forall|n: int|
        0 <= n < place.tile_ids.len() ==> names_tile(tiles, #[trigger] place.tile_ids[n])
    &&& forall|n: int|
        0 <= n < place.reference_tile_ids.len() ==> names_tile(
            tiles,
            #[trigger] place.reference_tile_ids[n],
        )
    &&& forall|n: int|
        0 <= n < place.query_tile_ids.len() ==> names_tile(
            tiles,
            #[trigger] place.query_tile_ids[n],
        )
    &&& forall|n: int|
        0 <= n < place.patch_ids.len() ==> names_patch(patches, #[trigger] place.patch_ids[n])
}

/// Everything that a place lists is there.
pub proof fn law_places_are_sound(tiles: Seq<TileView>, patches: Seq<PatchView>, key: Tile)
    ensures
        sound_place(tiles, patches, place_of(tiles, patches, key)),
{
    let place = place_of(tiles, patches, key);
    let here = tiles_at(tiles, key);
    assert forall|n: int| 0 <= n < place.tile_ids.len() implies names_tile(
        tiles,
        #[trigger] place.tile_ids[n],
    ) by {
        lemma_tiles_at(tiles, key, n);
        let i = choose|i: int| 0 <= i < tiles.len() && tiles[i] == here[n];
        assert(tiles[i].id() == place.tile_ids[n]);
    }
    assert forall|n: int| 0 <= n < place.reference_tile_ids.len() implies names_tile(
        tiles,
        #[trigger] place.reference_tile_ids[n],
    ) by {
        lemma_root_ids_exist(tiles, key, ImageRoot::Tiles, n);
    }
    assert forall|n: int| 0 <= n < place.query_tile_ids.len() implies names_tile(
        tiles,
        #[trigger] place.query_tile_ids[n],
    ) by {
        lemma_root_ids_exist(tiles, key, ImageRoot::DroneView, n);
    }
    assert forall|n: int| 0 <= n < place.patch_ids.len() implies names_patch(
        patches,
        #[trigger] place.patch_ids[n],
    ) by {
        lemma_patch_ids_at(patches, key, n);
    }
}

proof fn lemma_root_ids_exist(tiles: Seq<TileView>, key: Tile, root: ImageRoot, n: int)
    requires
        0 <= n < ids_of_root(tiles_at(tiles, key), root).len(),
    ensures
        names_tile(tiles, ids_of_root(tiles_at(tiles, key), root)[n]),
{
    let here = tiles_at(tiles, key);
    lemma_ids_of_root(here, root, n);
    let m = choose|m: int|
        0 <= m < here.len() && (#[trigger] here[m]).root == root && here[m].id() == ids_of_root(
            here,
            root,
        )[n];
    lemma_tiles_at(tiles, key, m);
    let i = choose|i: int| 0 <= i < tiles.len() && tiles[i] == here[m];
    assert(tiles[i].id() == ids_of_root(here, root)[n]);
}

/// No two places have the same name.
pub proof fn law_place_ids_distinct(tiles: Seq<TileView>, patches: Seq<PatchView>)
    ensures
        forall|i: int, j: int|
            #![trigger dataset_places(tiles, patches)[i], dataset_places(tiles, patches)[j]]
            0 <= i < j < dataset_places(tiles, patches).len() ==> dataset_places(
                tiles,
                patches,
            )[i].id() != dataset_places(tiles, patches)[j].id(),
{
    let places = dataset_places(tiles, patches);
    let keys = place_keys(tiles);
    lemma_keys_distinct(tiles);
    assert forall|i: int, j: int| 0 <= i < j < places.len() implies (#[trigger] places[i]).id()
        != (#[trigger] places[j]).id() by {
        let a = keys[i];
        let b = keys[j];
        assert(places[i].tile == a && places[j].tile == b);
        if places[i].id() == places[j].id() {
            law_place_names_distinct(a.z, a.x, a.y, b.z, b.x, b.y);
        }
    }
}

/// Every image is listed at exactly the place that has its coordinates.
pub proof fn law_tiles_are_placed(tiles: Seq<TileView>, patches: Seq<PatchView>, i: int)
    requires
        0 <= i < tiles.len(),
    ensures
        place_keys(tiles).contains(tiles[i].tile),
        place_of(tiles, patches, tiles[i].tile).tile_ids.contains(tiles[i].id()),
        forall|key: Tile| #[trigger]
            place_of(tiles, patches, key).tile_ids.contains(tiles[i].id()) ==> key
                == tiles[i].tile,
{
    lemma_keys_distinct(tiles);
    lemma_found_at(tiles, i);
    let here = tiles_at(tiles, tiles[i].tile);
    let n = choose|n: int| 0 <= n < here.len() && here[n] == tiles[i];
    assert(place_of(tiles, patches, tiles[i].tile).tile_ids[n] == tiles[i].id());
    assert forall|key: Tile| #[trigger]
        place_of(tiles, patches, key).tile_ids.contains(tiles[i].id()) implies key
        == tiles[i].tile by {
        let ids = place_of(tiles, patches, key).tile_ids;
        let m = choose|m: int| 0 <= m < ids.len() && ids[m] == tiles[i].id();
        lemma_tiles_at(tiles, key, m);
        let other = tiles_at(tiles, key)[m];
        law_tile_names_distinct(
            other.root,
            other.capture,
            other.tile,
            tiles[i].root,
            tiles[i].capture,
            tiles[i].tile,
        );
    }
}

/// A place lists the images with its coordinates, in their order, each with its directory, its
/// capture and its name; those under `tiles` are its references and those under `drone-view` its
/// queries. It lists the mosaics that start at its coordinates.
pub proof fn law_what_a_place_lists(tiles: Seq<TileView>, patches: Seq<PatchView>, key: Tile)
    ensures
        ({
            let place = place_of(tiles, patches, key);
            let here = tiles.filter(|tile: TileView| tile.tile == key);
            &&& place.tile == key
            &&& place.roots == here.map_values(|tile: TileView| tile.root)
            &&& place.captures == here.map_values(|tile: TileView| tile.capture)
            &&& place.tile_ids == here.map_values(|tile: TileView| tile.id())
            &&& place.reference_tile_ids == here.filter(
                |tile: TileView| tile.root == ImageRoot::Tiles,
            ).map_values(|tile: TileView| tile.id())
            &&& place.query_tile_ids == here.filter(
                |tile: TileView| tile.root == ImageRoot::DroneView,
            ).map_values(|tile: TileView| tile.id())
            &&& place.patch_ids == patches.filter(
                |patch: PatchView| patch.tile == key,
            ).map_values(|patch: PatchView| patch.id())
        }),
{
    lemma_filtered_tiles(tiles, key);
    let here = tiles_at(tiles, key);
    lemma_filtered_ids(here, ImageRoot::Tiles);
    lemma_filtered_ids(here, ImageRoot::DroneView);
    lemma_filtered_patches(patches, key);
}

proof fn lemma_filtered_tiles(tiles: Seq<TileView>, key: Tile)
    ensures
        tiles_at(tiles, key) == tiles.filter(|tile: TileView| tile.tile == key),
    decreases tiles.len(),
{
    reveal(Seq::filter);
    if tiles.len() > 0 {
        lemma_filtered_tiles(tiles.drop_last(), key);
    }
}

proof fn lemma_filtered_ids(tiles: Seq<TileView>, root: ImageRoot)
    ensures
        ids_of_root(tiles, root) == tiles.filter(|tile: TileView| tile.root == root).map_values(
            |tile: TileView| tile.id(),
        ),
    decreases tiles.len(),
{
    reveal(Seq::filter);
    let kept = tiles.filter(|tile: TileView| tile.root == root);
    if tiles.len() > 0 {
        lemma_filtered_ids(tiles.drop_last(), root);
        let front = tiles.drop_last().filter(|tile: TileView| tile.root == root);
        if tiles.last().root == root {
            assert(kept =~= front.push(tiles.last()));
        } else {
            assert(kept =~= front);
        }
    }
    assert(ids_of_root(tiles, root) =~= kept.map_values(|tile: TileView| tile.id()));
}

proof fn lemma_filtered_patches(patches: Seq<PatchView>, key: Tile)
    ensures
        patch_ids_at(patches, key) == patches.filter(
            |patch: PatchView| patch.tile == key,
        ).map_values(|patch: PatchView| patch.id()),
    decreases patches.len(),
{
    reveal(Seq::filter);
    let kept = patches.filter(|patch: PatchView| patch.tile == key);
    if patches.len() > 0 {
        lemma_filtered_patches(patches.drop_last(), key);
        let front = patches.drop_last().filter(|patch: PatchView| patch.tile == key);
        if patches.last().tile == key {
            assert(kept =~= front.push(patches.last()));
        } else {
            assert(kept =~= front);
        }
    }
    assert(patch_ids_at(patches, key) =~= kept.map_values(|patch: PatchView| patch.id()));
}

/// The first image of a place is the first that shows its tile.
pub proof fn law_first_image_of_a_place(tiles: Seq<TileView>, key: Tile)
    requires
        exists|i: int| 0 <= i < tiles.len() && (#[trigger] tiles[i]).tile == key,
    ensures
        0 <= first_at(tiles, key) < tiles.len(),
        tiles[first_at(tiles, key)].tile == key,
        forall|i: int| 0 <= i < first_at(tiles, key) ==> (#[trigger] tiles[i]).tile != key,
    decreases tiles.len(),
{
    let front = tiles.drop_last();
    lemma_keys_distinct(front);
    if place_keys(front).contains(key) {
        law_first_image_of_a_place(front, key);
        assert forall|i: int| 0 <= i < first_at(tiles, key) implies (#[trigger] tiles[i]).tile
            != key by {
            assert(front[i] == tiles[i]);
        }
        assert(tiles[first_at(tiles, key)] == front[first_at(tiles, key)]);
    } else {
        assert forall|i: int| 0 <= i < front.len() implies (#[trigger] tiles[i]).tile != key by {
            assert(front[i] == tiles[i]);
            if front[i].tile == key {
                assert(place_keys(front).contains(key));
            }
        }
    }
}

/// Places are listed in the order in which the images first show them: each tile that an image
/// shows once, and no other.
pub proof fn law_order_of_places(tiles: Seq<TileView>, patches: Seq<PatchView>)
    ensures
        ({
            let places = dataset_places(tiles, patches);
            &&& forall|i: int, j: int|
                0 <= i < j < places.len() ==> (#[trigger] places[i]).first < (
                #[trigger] places[j]).first
            &&& forall|i: int|
                0 <= i < places.len() ==> #[trigger] places[i] == place_of(
                    tiles,
                    patches,
                    places[i].tile,
                ) && 0 <= places[i].first < tiles.len() && tiles[places[i].first].tile
                    == places[i].tile
            &&& forall|k: int|
                0 <= k < tiles.len() ==> exists|i: int|
                    0 <= i < places.len() && (#[trigger] places[i]).tile == (
                    #[trigger] tiles[k]).tile
        }),
{
    let places = dataset_places(tiles, patches);
    let keys = place_keys(tiles);
    lemma_keys_distinct(tiles);
    lemma_keys_in_order(tiles);
    assert forall|i: int, j: int| 0 <= i < j < places.len() implies (#[trigger] places[i]).first < (
    #[trigger] places[j]).first by {
        assert(first_at(tiles, keys[i]) < first_at(tiles, keys[j]));
    }
    assert forall|i: int| 0 <= i < places.len() implies #[trigger] places[i] == place_of(
        tiles,
        patches,
        places[i].tile,
    ) && 0 <= places[i].first < tiles.len() && tiles[places[i].first].tile == places[i].tile by {
        assert(keys.contains(keys[i]));
        law_first_image_of_a_place(tiles, keys[i]);
    }
    assert forall|k: int| 0 <= k < tiles.len() implies exists|i: int|
        0 <= i < places.len() && (#[trigger] places[i]).tile == (#[trigger] tiles[k]).tile by {
        assert(keys.contains(tiles[k].tile));
        let i = choose|i: int| 0 <= i < keys.len() && keys[i] == tiles[k].tile;
        assert(places[i].tile == tiles[k].tile);
    }
}

proof fn lemma_keys_in_order(tiles: Seq<TileView>)
    ensures
        forall|i: int, j: int|
            0 <= i < j < place_keys(tiles).len() ==> first_at(
                tiles,
                #[trigger] place_keys(tiles)[i],
            ) < first_at(tiles, #[trigger] place_keys(tiles)[j]),
    decreases tiles.len(),
{
    if tiles.len() > 0 {
        let front = tiles.drop_last();
        let keys = place_keys(tiles);
        let before = place_keys(front);
        lemma_keys_in_order(front);
        lemma_keys_distinct(front);
        assert forall|i: int, j: int| 0 <= i < j < keys.len() implies first_at(
            tiles,
            #[trigger] keys[i],
        ) < first_at(tiles, #[trigger] keys[j]) by {
            assert(keys[i] == before[i]);
            assert(before.contains(before[i]));
            law_first_image_of_a_place(front, before[i]);
            if j < before.len() {
                assert(keys[j] == before[j]);
                assert(before.contains(before[j]));
            }
        }
    }
}

} // verus!
